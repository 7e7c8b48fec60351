//! Ingestion enclave: telemetry kept in a bounded reserved memory with
//! skeletal pruning, and the attestation it presents to the root of trust.

use vstd::prelude::*;
use crate::error::HashDigest;
use crate::bytes::digest_equal;

verus! {

/// Size of the processor-reserved memory: 128 MiB.
pub const PRM_SIZE_LIMIT: usize = 134217728;

/// Bytes that one `IEPoint` takes in the reserved memory: a `u64`, a
/// 32-byte digest and a flag, padded to the 8-byte alignment of the `u64`.
pub const IE_POINT_SIZE: usize = 48;

/// A hardware-bound attestation quote.
#[derive(Clone, Copy)]
pub struct AttestationQuote {
    pub mrenclave: HashDigest,
    pub mrsigner: HashDigest,
    pub report_data: HashDigest,
}

impl AttestationQuote {
    /// The quote names the expected enclave binary.
    pub fn verify(&self, expected_mrenclave: &HashDigest) -> (r: bool)
        ensures
            r == (self.mrenclave@ == expected_mrenclave@),
    {
        digest_equal(&self.mrenclave, expected_mrenclave)
    }
}

/// A telemetry point held in the enclave.
#[derive(Clone, Copy)]
pub struct IEPoint {
    pub step: u64,
    pub state_hash: HashDigest,
    /// Whether the point is a topological landmark.
    pub is_landmark: bool,
}

/// The landmarks among `s`, in order.
pub open spec fn landmarks(s: Seq<IEPoint>) -> Seq<IEPoint>
    decreases s.len(),
{
    if s.len() == 0 {
        Seq::empty()
    } else if s.last().is_landmark {
        landmarks(s.drop_last()).push(s.last())
    } else {
        landmarks(s.drop_last())
    }
}

proof fn lemma_landmarks_len(s: Seq<IEPoint>)
    ensures
        landmarks(s).len() <= s.len(),
    decreases s.len(),
{
    if s.len() > 0 {
        lemma_landmarks_len(s.drop_last());
    }
}

/// Whether the reserved memory holding `n` points is full.
pub open spec fn prm_full(n: int) -> bool {
    n * IE_POINT_SIZE >= PRM_SIZE_LIMIT
}

/// The reserved memory and archive count after ingesting one point: a
/// full memory is first pruned to its landmarks, the others counting as
/// archived.
pub open spec fn ingest_one(prm: Seq<IEPoint>, archived: int, point: IEPoint) -> (Seq<IEPoint>, int) {
    if prm_full(prm.len() as int) {
        (landmarks(prm).push(point), archived + prm.len() - landmarks(prm).len())
    } else {
        (prm.push(point), archived)
    }
}

/// The reserved memory and archive count after ingesting `points` in order.
pub open spec fn ingest_all(prm: Seq<IEPoint>, archived: int, points: Seq<IEPoint>) -> (Seq<IEPoint>, int)
    decreases points.len(),
{
    if points.len() == 0 {
        (prm, archived)
    } else {
        let before = ingest_all(prm, archived, points.drop_last());
        ingest_one(before.0, before.1, points.last())
    }
}

proof fn lemma_ingest_grows(prm: Seq<IEPoint>, archived: int, points: Seq<IEPoint>, k: int)
    requires
        0 <= k <= points.len(),
    ensures
        ingest_all(prm, archived, points.subrange(0, k)).1 <= ingest_all(prm, archived, points).1,
        archived <= ingest_all(prm, archived, points).1,
    decreases points.len(),
{
    if points.len() > 0 {
        let init = points.drop_last();
        let before = ingest_all(prm, archived, init);
        lemma_landmarks_len(before.0);
        if k < points.len() {
            assert(points.subrange(0, k) =~= init.subrange(0, k));
            lemma_ingest_grows(prm, archived, init, k);
        } else {
            assert(points.subrange(0, k) =~= points);
            lemma_ingest_grows(prm, archived, init, 0);
        }
    }
}

/// The ingestion enclave. Its clock and thermal state are floating-point
/// and live outside this library.
pub struct IngestionEnclave {
    /// The reserved memory.
    pub prm_memory: Vec<IEPoint>,
    /// Number of points archived to the host.
    pub archived_points: usize,
    /// Whether the direct memory shunt is active.
    pub lvi_shunt_active: bool,
}

impl IngestionEnclave {
    pub fn new() -> (e: Self)
        ensures
            e.prm_memory@.len() == 0,
            e.archived_points == 0,
            e.lvi_shunt_active,
    {
        IngestionEnclave { prm_memory: Vec::with_capacity(100_000), archived_points: 0, lvi_shunt_active: true }
    }

    /// Ingests points one by one when the shunt is active; otherwise drops them.
    pub fn dma_telemetry_bypass(&mut self, points: Vec<IEPoint>)
        requires
            old(self).lvi_shunt_active ==> ingest_all(old(self).prm_memory@, old(self).archived_points as int, points@).1
                <= usize::MAX,
        ensures
            !old(self).lvi_shunt_active ==> *final(self) == *old(self),
            final(self).lvi_shunt_active == old(self).lvi_shunt_active,
            old(self).lvi_shunt_active ==> (final(self).prm_memory@, final(self).archived_points as int)
                == ingest_all(old(self).prm_memory@, old(self).archived_points as int, points@),
    {
        if self.lvi_shunt_active {
            let ghost prm0 = self.prm_memory@;
            let ghost arch0 = self.archived_points as int;
            let mut i: usize = 0;
            proof {
                assert(points@.subrange(0, 0) =~= Seq::<IEPoint>::empty());
            }
            while i < points.len()
                invariant
                    0 <= i <= points@.len(),
                    self.lvi_shunt_active,
                    prm0 == old(self).prm_memory@,
                    arch0 == old(self).archived_points as int,
                    ingest_all(prm0, arch0, points@).1 <= usize::MAX,
                    (self.prm_memory@, self.archived_points as int) == ingest_all(prm0, arch0, points@.subrange(0, i as int)),
                decreases points.len() - i,
            {
                proof {
                    let next = points@.subrange(0, i + 1);
                    assert(next.drop_last() =~= points@.subrange(0, i as int));
                    lemma_ingest_grows(prm0, arch0, points@, i + 1);
                    lemma_landmarks_len(self.prm_memory@);
                }
                self.ingest_step(points[i]);
                i = i + 1;
            }
            proof {
                assert(points@.subrange(0, i as int) =~= points@);
            }
        }
    }

    /// Ingests one point, first pruning the reserved memory when it is full.
    pub fn ingest_step(&mut self, point: IEPoint)
        requires
            prm_full(old(self).prm_memory@.len() as int) ==> old(self).archived_points
                + old(self).prm_memory@.len() - landmarks(old(self).prm_memory@).len() <= usize::MAX,
        ensures
            final(self).lvi_shunt_active == old(self).lvi_shunt_active,
            prm_full(old(self).prm_memory@.len() as int) ==> {
                &&& final(self).prm_memory@ == landmarks(old(self).prm_memory@).push(point)
                &&& final(self).archived_points == old(self).archived_points + old(self).prm_memory@.len()
                    - landmarks(old(self).prm_memory@).len()
            },
            !prm_full(old(self).prm_memory@.len() as int) ==> {
                &&& final(self).prm_memory@ == old(self).prm_memory@.push(point)
                &&& final(self).archived_points == old(self).archived_points
            },
    {
        proof {
            lemma_landmarks_len(old(self).prm_memory@);
        }
        let full = match self.prm_memory.len().checked_mul(IE_POINT_SIZE) {
            Some(bytes) => bytes >= PRM_SIZE_LIMIT,
            None => true,
        };
        if full {
            self.prune_prm();
        }
        self.prm_memory.push(point);
    }

    /// Skeletal pruning: keeps only landmarks and counts the evicted points
    /// as archived.
    pub fn prune_prm(&mut self)
        requires
            old(self).archived_points + old(self).prm_memory@.len() - landmarks(old(self).prm_memory@).len()
                <= usize::MAX,
        ensures
            final(self).prm_memory@ == landmarks(old(self).prm_memory@),
            final(self).archived_points == old(self).archived_points + old(self).prm_memory@.len()
                - landmarks(old(self).prm_memory@).len(),
            final(self).lvi_shunt_active == old(self).lvi_shunt_active,
    {
        let initial_len = self.prm_memory.len();
        let mut kept: Vec<IEPoint> = Vec::new();
        let mut i: usize = 0;
        while i < self.prm_memory.len()
            invariant
                0 <= i <= self.prm_memory@.len(),
                self.prm_memory@ == old(self).prm_memory@,
                kept@ == landmarks(self.prm_memory@.subrange(0, i as int)),
                kept@.len() <= i,
            decreases self.prm_memory.len() - i,
        {
            let p = self.prm_memory[i];
            assert(self.prm_memory@.subrange(0, i + 1).drop_last() =~= self.prm_memory@.subrange(0, i as int));
            if p.is_landmark {
                kept.push(p);
            }
            i = i + 1;
        }
        assert(self.prm_memory@.subrange(0, i as int) =~= self.prm_memory@);
        self.prm_memory = kept;
        let evicted = initial_len - self.prm_memory.len();
        self.archived_points = self.archived_points + evicted;
    }

    /// The state hash of the newest point, or zeros when the memory is empty.
    pub fn compute_topological_root(&self) -> (r: HashDigest)
        ensures
            self.prm_memory@.len() > 0 ==> r == self.prm_memory@.last().state_hash,
            self.prm_memory@.len() == 0 ==> r@ == Seq::new(32, |i: int| 0u8),
    {
        if self.prm_memory.len() > 0 {
            self.prm_memory[self.prm_memory.len() - 1].state_hash
        } else {
            let r = [0u8; 32];
            assert(r@ =~= Seq::new(32, |i: int| 0u8));
            r
        }
    }
}

/// The root-of-trust enclave as seen by the ingestion side. Its thermal
/// telemetry is floating-point and lives outside this library.
pub struct RootOfTrustEnclave {
    pub manifold_root: HashDigest,
    pub approved_mrenclave: HashDigest,
}

impl RootOfTrustEnclave {
    pub fn new(approved_mrenclave: HashDigest) -> (r: Self)
        ensures
            r.approved_mrenclave == approved_mrenclave,
            r.manifold_root@ == Seq::new(32, |i: int| 0u8),
    {
        let r = RootOfTrustEnclave { manifold_root: [0u8; 32], approved_mrenclave };
        assert(r.manifold_root@ =~= Seq::new(32, |i: int| 0u8));
        r
    }

    /// Verifies an ingestion enclave's quote against the approved binary.
    pub fn verify_ie_attestation(&self, quote: &AttestationQuote) -> (r: bool)
        ensures
            r == (quote.mrenclave@ == self.approved_mrenclave@),
    {
        quote.verify(&self.approved_mrenclave)
    }

    /// Records a checkpoint root and returns it.
    pub fn sign_checkpoint(&mut self, root: HashDigest) -> (r: HashDigest)
        ensures
            r == root,
            final(self).manifold_root == root,
            final(self).approved_mrenclave == old(self).approved_mrenclave,
    {
        self.manifold_root = root;
        root
    }
}

} // verus!
