use rco::consensus::qbm::{QBMConstructor, Simplex};
use rco::consensus::sba::SBAProtocol;

#[test]
fn test_qbm_supermajority_inclusion() {
    let mut constructor = QBMConstructor::new(3); // n=3, 2n/3 = 2, threshold > 2 => 3 votes required

    let s1 = Simplex { dim: 0, vertices: vec![1] };
    let s2 = Simplex { dim: 0, vertices: vec![2] };

    constructor.register_node_contribution(vec![s1.clone(), s2.clone()]);
    constructor.register_node_contribution(vec![s1.clone()]);
    constructor.register_node_contribution(vec![s1.clone()]);

    let finalized = constructor.finalize_qbm();

    // s1 has 3 votes (supported by all), s2 has 1 vote.
    assert!(finalized.contains(&s1));
    assert!(!finalized.contains(&s2));
}

#[test]
fn test_sba_consensus() {
    let mut sba = SBAProtocol::new(4); // 2n/3 = 2.66 => > 2 means 3 votes
    let root = [0xEE; 32];

    sba.cast_vote(1, root);
    sba.cast_vote(2, root);
    assert!(sba.check_consensus().is_none());

    sba.cast_vote(3, root);
    assert_eq!(sba.check_consensus(), Some(root));
}

#[test]
fn qbm_repeated_simplex_in_one_contribution_counts_once() {
    let mut constructor = QBMConstructor::new(3);
    let s = Simplex { dim: 0, vertices: vec![7] };
    constructor.register_node_contribution(vec![s.clone(), s.clone(), s.clone()]);
    // One node out of three supports s: not more than two thirds.
    assert!(!constructor.finalize_qbm().contains(&s));
    constructor.register_node_contribution(vec![s.clone()]);
    assert!(!constructor.finalize_qbm().contains(&s));
    constructor.register_node_contribution(vec![s.clone(), s.clone()]);
    // Three distinct nodes now support s.
    assert_eq!(constructor.finalize_qbm(), vec![s]);
}

#[test]
fn qbm_finalized_lists_each_simplex_once() {
    let mut constructor = QBMConstructor::new(1);
    let a = Simplex { dim: 0, vertices: vec![7] };
    let b = Simplex { dim: 1, vertices: vec![7, 8] };
    constructor.register_node_contribution(vec![a.clone(), b.clone(), a.clone()]);
    constructor.register_node_contribution(vec![b.clone()]);
    let finalized = constructor.finalize_qbm();
    assert_eq!(finalized.len(), 2);
    assert!(finalized.contains(&a));
    assert!(finalized.contains(&b));
}

#[test]
fn qbm_same_vertices_different_dimension_are_different() {
    let mut constructor = QBMConstructor::new(0);
    let a = Simplex { dim: 0, vertices: vec![1] };
    let b = Simplex { dim: 1, vertices: vec![1] };
    constructor.register_node_contribution(vec![a.clone()]);
    let finalized = constructor.finalize_qbm();
    assert!(finalized.contains(&a));
    assert!(!finalized.contains(&b));
}

#[test]
fn qbm_empty_quorum_finalizes_nothing_without_votes() {
    let constructor = QBMConstructor::new(5);
    assert!(constructor.finalize_qbm().is_empty());
}

#[test]
fn qbm_root_holds_the_count() {
    let constructor = QBMConstructor::new(3);
    assert_eq!(constructor.compute_qbm_root(&[]), [0u8; 32]);
    let qbm: Vec<Simplex> = (0..3).map(|i| Simplex { dim: 0, vertices: vec![i] }).collect();
    let root = constructor.compute_qbm_root(&qbm);
    let mut expected = [0u8; 32];
    expected[0] = 3;
    assert_eq!(root, expected);
    let many: Vec<Simplex> = (0..257).map(|i| Simplex { dim: 0, vertices: vec![i] }).collect();
    let root = constructor.compute_qbm_root(&many);
    let mut expected = [0u8; 32];
    expected[0] = 1;
    assert_eq!(root, expected);
}

#[test]
fn sba_picks_the_supermajority_root_only() {
    let mut sba = SBAProtocol::new(3);
    let a = [1u8; 32];
    let b = [2u8; 32];
    sba.cast_vote(1, a);
    sba.cast_vote(2, b);
    sba.cast_vote(3, a);
    assert_eq!(sba.check_consensus(), None);
    sba.cast_vote(4, a);
    assert_eq!(sba.check_consensus(), Some(a));
}

#[test]
fn sba_result_carries_root_as_certificate() {
    let sba = SBAProtocol::new(4);
    let root = [0x5A; 32];
    let result = sba.generate_result(root);
    assert_eq!(result.betti_numbers, vec![1, 1]);
    assert_eq!(result.certificate, root.to_vec());
}
