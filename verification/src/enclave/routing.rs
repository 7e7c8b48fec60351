//! Manifold routing: the hop path between shards of the fabric. Loads and
//! hop jitter are floating-point and handled outside this library.

use vstd::prelude::*;

verus! {

/// The intermediate group through which traffic is rerouted when the
/// target is not a direct neighbour.
pub const REROUTE_INTERMEDIATE: u64 = 999;

/// The route from `source_id` to `target_id`: the source alone when the
/// source is not known; the source and the target when the target is one of
/// the source's neighbours; otherwise the source, the rerouting
/// intermediate and the target.
pub open spec fn route(source_id: u64, target_id: u64, source_neighbors: Option<Seq<u64>>) -> Seq<u64> {
    match source_neighbors {
        None => seq![source_id],
        Some(ns) => if ns.contains(target_id) {
            seq![source_id, target_id]
        } else {
            seq![source_id, REROUTE_INTERMEDIATE, target_id]
        },
    }
}

/// Computes the route between two shards, given the neighbours of the
/// source shard when it is known.
pub fn calculate_route_path(source_id: u64, target_id: u64, source_neighbors: Option<&[u64]>) -> (path: Vec<u64>)
    ensures
        path@ == route(source_id, target_id, match source_neighbors {
            Some(ns) => Some(ns@),
            None => None,
        }),
{
    let mut path: Vec<u64> = vec![source_id];
    match source_neighbors {
        Some(ns) => {
            let mut found = false;
            let mut i: usize = 0;
            while i < ns.len()
                invariant
                    0 <= i <= ns@.len(),
                    found == exists|k: int| 0 <= k < i && ns@[k] == target_id,
                decreases ns.len() - i,
            {
                if ns[i] == target_id {
                    found = true;
                }
                i = i + 1;
            }
            if found {
                path.push(target_id);
            } else {
                path.push(REROUTE_INTERMEDIATE);
                path.push(target_id);
            }
            assert(path@ =~= route(source_id, target_id, Some(ns@)));
        }
        None => {
            assert(path@ =~= route(source_id, target_id, None));
        }
    }
    path
}

/// Law: a known source reaches a target found anywhere among its neighbours
/// in one hop; a target found nowhere among them is reached through the
/// rerouting intermediate; an unknown source yields only itself.
pub proof fn law_route_hops(source_id: u64, target_id: u64, ns: Seq<u64>)
    ensures
        (exists|k: int| 0 <= k < ns.len() && ns[k] == target_id)
            ==> route(source_id, target_id, Some(ns)) == seq![source_id, target_id],
        (forall|k: int| 0 <= k < ns.len() ==> ns[k] != target_id)
            ==> route(source_id, target_id, Some(ns)) == seq![source_id, 999u64, target_id],
        route(source_id, target_id, None) == seq![source_id],
{
    if exists|k: int| 0 <= k < ns.len() && ns[k] == target_id {
        let k = choose|k: int| 0 <= k < ns.len() && ns[k] == target_id;
        assert(ns.contains(target_id));
    }
}

} // verus!
