use rco::audit::scanner::{parse_wal_record, record_action, sweep_start, AuditTally, RecordAction, WalRecord};
use rco::bindings::{rco_verify_hardware_sovereignty, split_i128};
use rco::enclave::oracle::{update_root_anchor, verify_root_consistency};
use rco::enclave::routing::{calculate_route_path, REROUTE_INTERMEDIATE};
use std::collections::HashMap;

#[test]
fn root_consistency_needs_two_thirds() {
    let mut anchors: HashMap<u64, [u8; 32]> = HashMap::new();
    let root = [1u8; 32];
    assert!(verify_root_consistency(&anchors, &root));
    update_root_anchor(&mut anchors, 1, root);
    update_root_anchor(&mut anchors, 2, root);
    update_root_anchor(&mut anchors, 3, [2u8; 32]);
    assert!(verify_root_consistency(&anchors, &root));
    assert!(!verify_root_consistency(&anchors, &[2u8; 32]));
    update_root_anchor(&mut anchors, 4, [2u8; 32]);
    assert!(!verify_root_consistency(&anchors, &root));
    update_root_anchor(&mut anchors, 4, root);
    assert_eq!(anchors.len(), 4);
    assert!(verify_root_consistency(&anchors, &root));
}

#[test]
fn routes_direct_or_through_the_intermediate() {
    assert_eq!(calculate_route_path(1, 2, None), vec![1]);
    assert_eq!(calculate_route_path(1, 2, Some(&[3, 2])), vec![1, 2]);
    assert_eq!(calculate_route_path(1, 2, Some(&[3])), vec![1, REROUTE_INTERMEDIATE, 2]);
    assert_eq!(calculate_route_path(1, 2, Some(&[])), vec![1, 999, 2]);
}

fn record(status: u8, index: u64, data: &[u8], anchor: [u8; 32]) -> Vec<u8> {
    let mut r = vec![status];
    r.extend_from_slice(&index.to_le_bytes());
    r.extend_from_slice(&(data.len() as u32).to_le_bytes());
    r.extend_from_slice(data);
    r.extend_from_slice(&anchor);
    r.extend_from_slice(&[0u8; 4]);
    r
}

#[test]
fn wal_records_are_parsed_in_place() {
    let mut wal = vec![0u8; 64];
    wal.extend(record(2, 7, b"abc", [9u8; 32]));
    wal.extend(record(1, 8, b"", [0u8; 32]));
    let first = parse_wal_record(&wal, 64).unwrap();
    assert_eq!(
        first,
        WalRecord { status: 2, batch_index: 7, data_start: 77, data_len: 3, anchor_start: 80, next_offset: 116 }
    );
    let second = parse_wal_record(&wal, first.next_offset).unwrap();
    assert_eq!(second.status, 1);
    assert_eq!(second.batch_index, 8);
    assert_eq!(second.next_offset, wal.len());
    assert_eq!(parse_wal_record(&wal, second.next_offset), None);
    assert_eq!(parse_wal_record(&wal, wal.len() + 5), None);
    // A truncated record is not read.
    assert_eq!(parse_wal_record(&wal[..115], 64), None);
}

#[test]
fn audit_decisions() {
    let committed = WalRecord { status: 2, batch_index: 5, data_start: 0, data_len: 0, anchor_start: 0, next_offset: 49 };
    assert_eq!(record_action(&committed, 5), RecordAction::CheckAnchor);
    assert_eq!(record_action(&committed, 6), RecordAction::Corrupt);
    let pending = WalRecord { status: 1, ..committed };
    assert_eq!(record_action(&pending, 5), RecordAction::Skip);

    let mut wal = vec![0u8; 13];
    wal.extend_from_slice(&[4u8; 32]);
    let rec = WalRecord { status: 2, batch_index: 0, data_start: 13, data_len: 0, anchor_start: 13, next_offset: 49 };
    let mut tally = AuditTally::new();
    assert!(tally.settle_anchor(&wal, &rec, &[4u8; 32]));
    assert!(!tally.settle_anchor(&wal, &rec, &[5u8; 32]));
    tally.record_corrupt();
    assert_eq!(tally, AuditTally { verified: 1, corrupted: 2 });
}

#[test]
fn ffi_helpers() {
    assert_eq!(rco_verify_hardware_sovereignty(), 0);
    assert_eq!(split_i128(0), (0, 0));
    assert_eq!(split_i128(-1), (-1, -1));
    assert_eq!(split_i128(1i128 << 64), (1, 0));
    let v: i128 = -(5i128 << 64) + 7;
    assert_eq!(split_i128(v), (-5, 7));
}

#[test]
fn wal_sweep_steps_count_each_committed_record_once() {
    let mut wal = vec![0u8; 64];
    wal.extend(record(2, 0, b"a", [1u8; 32])); // in order, anchor matches
    wal.extend(record(1, 5, b"", [0u8; 32])); // not committed
    wal.extend(record(2, 9, b"b", [2u8; 32])); // out of order
    wal.extend(record(2, 1, b"c", [3u8; 32])); // in order, anchor wrong
    let mut state = sweep_start();
    assert_eq!(state.offset, 64);
    let mut expected = 0u64;
    let mut extended = Vec::new();
    while let Some(rec) = parse_wal_record(&wal, state.offset) {
        let computed = match record_action(&rec, expected) {
            RecordAction::CheckAnchor => Some([if expected == 0 { 1u8 } else { 7u8 }; 32]),
            _ => None,
        };
        if state.step(&wal, &rec, expected, computed) {
            extended.push(rec.batch_index);
            expected += 1;
        }
    }
    assert_eq!(extended, vec![0]);
    assert_eq!(state.offset, wal.len());
    assert_eq!(state.tally, AuditTally { verified: 1, corrupted: 2 });
}
