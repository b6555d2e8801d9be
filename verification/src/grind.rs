//! Grinding: one worker's search for a nonce.
use crate::batch::SandglassBatch;
use crate::bytes;
use crate::job::Job;
use crate::nonce;
use crate::nonce::{header_with_nonce, lane_nonce};
use crate::sandglass;
use crate::sandglass::{Sandglass, HEADER_LEN};
use crate::scratch::{Scratch, WORDS};
use crate::sha;
use crate::target::hash_meets_target;
use crate::tuning::Tuning;
use vstd::prelude::*;

verus! {

/// How many batches a worker hashes between two looks at the clock.
pub const CHECK_INTERVAL: usize = 64;

/// How many milliseconds pass before a worker reports its hash rate again.
pub const REPORT_INTERVAL_MS: u128 = 2_000;

/// The digest of the job's header with `nonce` in its place.
pub open spec fn digest_at(job: Job, nonce: u32) -> Seq<u8> {
    sandglass::digest_of(nonce::with_nonce(job.header@, nonce))
}

/// The job's header with `nonce` in its place hashes below the job's target.
pub open spec fn meets(job: Job, nonce: u32) -> bool {
    bytes::be_nat(digest_at(job, nonce)) < bytes::be_nat(job.target@)
}

/// None of the first `count` nonces from `start` on meets the target.
pub open spec fn no_hit(job: Job, start: u32, count: nat) -> bool {
    forall|k: nat|
        k < count ==> !meets(job, #[trigger] nonce::nonce_after(start, job.nonce_stride, k))
}

/// The nonce `k` strides from `start` meets the target, and none before it does.
pub open spec fn first_hit(job: Job, start: u32, k: nat) -> bool {
    meets(job, nonce::nonce_after(start, job.nonce_stride, k)) && no_hit(job, start, k)
}

/// How many of a batch's lanes have a nonce to hash: all from `lane` on, up to
/// the one that would come back to `start_nonce`.
pub open spec fn active_from(
    nonce: u32,
    stride: u32,
    start_nonce: u32,
    lane: nat,
    lanes: nat,
) -> nat
    decreases lanes - lane,
{
    if lane >= lanes {
        lanes
    } else if lane > 0 && nonce::nonce_after(nonce, stride, lane) == start_nonce {
        lane
    } else {
        active_from(nonce, stride, start_nonce, lane + 1, lanes)
    }
}

/// What hashing one batch of `lanes` nonces from `nonce` on comes to, and how
/// many hashes it adds to the count. A batch cut short where the nonces come
/// back to `start_nonce` is hashed one by one; a full one is hashed whole.
pub open spec fn batch_outcome(
    job: Job,
    nonce: u32,
    start_nonce: u32,
    lanes: nat,
    outcome: Option<(u32, Option<[u8; 32]>)>,
    added: int,
) -> bool {
    let active = active_from(nonce, job.nonce_stride, start_nonce, 0, lanes);
    match outcome {
        Some((solved, Some(hash))) => exists|k: nat|
            {
                &&& k < active
                &&& #[trigger] first_hit(job, nonce, k)
                &&& solved == nonce::nonce_after(nonce, job.nonce_stride, k)
                &&& hash@ == digest_at(job, solved)
                &&& active == lanes ==> added == lanes
                &&& active < lanes ==> added == k + 1
            },
        Some((last, None)) => {
            &&& active < lanes
            &&& no_hit(job, nonce, active)
            &&& last == nonce
            &&& added == active
        },
        None => {
            &&& active == lanes
            &&& no_hit(job, nonce, lanes)
            &&& added == lanes
        },
    }
}

/// The scratch that hashing the job's header with `nonce` in its place leaves.
pub open spec fn scratch_at(job: Job, nonce: u32) -> Seq<u32> {
    sandglass::scratch_after(sha::sha256_of(nonce::with_nonce(job.header@, nonce)))
}

/// The lanes that are active are at most all of them, at least one, and come
/// back to the start nowhere but at the first one left out.
pub proof fn lemma_active_bounds(
    nonce: u32,
    stride: u32,
    start_nonce: u32,
    lane: nat,
    lanes: nat,
)
    requires
        lane <= lanes,
        lanes > 0,
    ensures
        ({
            let active = active_from(nonce, stride, start_nonce, lane, lanes);
            &&& lane <= active <= lanes
            &&& active > 0
            &&& forall|k: nat|
                0 < k && lane <= k < active ==> #[trigger] nonce::nonce_after(nonce, stride, k)
                    != start_nonce
            &&& active < lanes ==> nonce::nonce_after(nonce, stride, active) == start_nonce
        }),
    decreases lanes - lane,
{
    if lane < lanes && !(lane > 0 && nonce::nonce_after(nonce, stride, lane) == start_nonce) {
        lemma_active_bounds(nonce, stride, start_nonce, lane + 1, lanes);
        let active = active_from(nonce, stride, start_nonce, lane, lanes);
        assert forall|k: nat| 0 < k && lane <= k < active implies #[trigger] nonce::nonce_after(
            nonce,
            stride,
            k,
        ) != start_nonce by {
            if k > lane {
                assert(lane + 1 <= k);
            }
        }
    }
}

/// There is one first hit at most: however many lanes a worker hashes at a
/// time, it is the same nonce that solves the job.
pub proof fn law_lane_count_keeps_solution(job: Job, start: u32, a: nat, b: nat)
    requires
        first_hit(job, start, a),
        first_hit(job, start, b),
    ensures
        a == b,
{
    if a < b {
        assert(!meets(job, nonce::nonce_after(start, job.nonce_stride, a)));
    } else if b < a {
        assert(!meets(job, nonce::nonce_after(start, job.nonce_stride, b)));
    }
}

/// A nonce meets the target where the header that holds it hashes to a digest
/// below the target: one that is smaller in the first byte in which the two
/// differ.
pub proof fn law_nonce_meets_by_its_digest(job: Job, nonce: u32, header: Seq<u8>)
    requires
        header.len() == 148,
        header.take(112) == job.header@.take(112),
        header.skip(116) == job.header@.skip(116),
        bytes::be_word(header, 28) == nonce,
    ensures
        digest_at(job, nonce) == sandglass::digest_of(header),
        scratch_at(job, nonce) == sandglass::scratch_after(sha::sha256_of(header)),
        meets(job, nonce) <==> bytes::be_nat(sandglass::digest_of(header)) < bytes::be_nat(
            job.target@,
        ),
        sandglass::digest_of(header).len() == 32 ==> (meets(job, nonce) <==> exists|at: int|
            0 <= at < 32 && #[trigger] sandglass::digest_of(header)[at] < job.target[at]
                && sandglass::digest_of(header).take(at) == job.target@.take(at)),
{
    nonce::law_nonce_has_one_place(job.header@, nonce, header);
    let digest = sandglass::digest_of(header);
    if digest.len() == 32 {
        bytes::law_first_difference_decides(digest, job.target@);
        if meets(job, nonce) {
            let at = choose|at: int|
                0 <= at < digest.len() && #[trigger] digest[at] < job.target@[at] && digest.take(at)
                    == job.target@.take(at);
            assert(digest[at] < job.target[at]);
        }
    }
}

/// The nonces up to `count` either all miss, or one of them is the first hit:
/// the one that meets the target with none before it that does.
pub proof fn law_first_hit_is_there_and_first(job: Job, start: u32, count: nat)
    ensures
        no_hit(job, start, count) <==> forall|k: nat|
            k < count ==> !#[trigger] meets(
                job,
                nonce::nonce_after(start, job.nonce_stride, k),
            ),
        no_hit(job, start, count) || exists|k: nat| k < count && #[trigger] first_hit(job, start, k),
        forall|k: nat| #[trigger]
            first_hit(job, start, k) <==> {
                &&& meets(job, nonce::nonce_after(start, job.nonce_stride, k))
                &&& forall|j: nat|
                    j < k ==> !#[trigger] meets(
                        job,
                        nonce::nonce_after(start, job.nonce_stride, j),
                    )
            },
    decreases count,
{
    if count > 0 {
        let last = (count - 1) as nat;
        law_first_hit_is_there_and_first(job, start, last);
        if no_hit(job, start, last) {
            if meets(job, nonce::nonce_after(start, job.nonce_stride, last)) {
                assert(first_hit(job, start, last));
            } else {
                assert(no_hit(job, start, count));
            }
        } else {
            let k = choose|k: nat| k < last && #[trigger] first_hit(job, start, k);
            assert(k < count && first_hit(job, start, k));
        }
    }
}

/// What a batch comes to: a solution is the first of its nonces that meets the
/// target, and comes before the start does; a batch that goes on has no such
/// nonce and does not come back to the start; a batch that ends the search comes
/// back to the start with no such nonce before. A full batch counts all of its
/// lanes, one cut short as many as it tried.
pub proof fn law_batch_tells_what_it_tried(
    job: Job,
    nonce: u32,
    start_nonce: u32,
    lanes: nat,
    outcome: Option<(u32, Option<[u8; 32]>)>,
    added: int,
)
    requires
        lanes > 0,
        batch_outcome(job, nonce, start_nonce, lanes, outcome, added),
    ensures
        0 < added <= lanes,
        outcome matches Some((solved, Some(hash))) ==> exists|k: nat|
            {
                &&& k < lanes
                &&& solved == #[trigger] nonce::nonce_after(nonce, job.nonce_stride, k)
                &&& meets(job, solved)
                &&& hash@ == digest_at(job, solved)
                &&& forall|j: nat|
                    j < k ==> !meets(
                        job,
                        #[trigger] nonce::nonce_after(nonce, job.nonce_stride, j),
                    )
                &&& forall|j: nat|
                    0 < j <= k ==> #[trigger] nonce::nonce_after(nonce, job.nonce_stride, j)
                        != start_nonce
                &&& added == lanes || added == k + 1
                &&& added < lanes ==> exists|j: nat|
                    added <= j < lanes && #[trigger] nonce::nonce_after(nonce, job.nonce_stride, j)
                        == start_nonce
            },
        outcome matches Some((last, None)) ==> {
            &&& last == nonce
            &&& added < lanes
            &&& nonce::nonce_after(nonce, job.nonce_stride, added as nat) == start_nonce
            &&& forall|j: nat|
                j < added ==> !meets(job, #[trigger] nonce::nonce_after(nonce, job.nonce_stride, j))
            &&& forall|j: nat|
                0 < j < added ==> #[trigger] nonce::nonce_after(nonce, job.nonce_stride, j)
                    != start_nonce
        },
        outcome is None ==> {
            &&& added == lanes
            &&& forall|j: nat|
                j < lanes ==> !meets(job, #[trigger] nonce::nonce_after(nonce, job.nonce_stride, j))
            &&& forall|j: nat|
                0 < j < lanes ==> #[trigger] nonce::nonce_after(nonce, job.nonce_stride, j)
                    != start_nonce
        },
{
    let stride = job.nonce_stride;
    let active = active_from(nonce, stride, start_nonce, 0, lanes);
    lemma_active_bounds(nonce, stride, start_nonce, 0, lanes);
    if let Some((solved, Some(hash))) = outcome {
        let k = choose|k: nat|
            {
                &&& k < active
                &&& #[trigger] first_hit(job, nonce, k)
                &&& solved == nonce::nonce_after(nonce, stride, k)
                &&& hash@ == digest_at(job, solved)
                &&& active == lanes ==> added == lanes
                &&& active < lanes ==> added == k + 1
            };
        assert(solved == nonce::nonce_after(nonce, stride, k));
        if added < lanes {
            assert(nonce::nonce_after(nonce, stride, active) == start_nonce);
        }
    }
}

/// The first of the digests below the target.
pub fn first_below<const LANES: usize>(digests: &[[u8; 32]; LANES], target: &[u8; 32]) -> (lane:
    Option<usize>)
    ensures
        match lane {
            Some(found) => {
                &&& found < LANES
                &&& bytes::be_nat(digests[found as int]@) < bytes::be_nat(target@)
                &&& forall|l: int|
                    0 <= l < found ==> bytes::be_nat((#[trigger] digests[l])@) >= bytes::be_nat(
                        target@,
                    )
            },
            None => forall|l: int|
                0 <= l < LANES ==> bytes::be_nat((#[trigger] digests[l])@) >= bytes::be_nat(
                    target@,
                ),
        },
{
    let mut lane: usize = 0;
    while lane < LANES
        invariant
            lane <= LANES,
            forall|l: int|
                0 <= l < lane ==> bytes::be_nat((#[trigger] digests[l])@) >= bytes::be_nat(
                    target@,
                ),
        decreases LANES - lane,
    {
        if hash_meets_target(&digests[lane], target) {
            return Some(lane);
        }
        lane = lane + 1;
    }
    None
}

/// Hashes one batch of nonces from `nonce` on, as many as the hasher has lanes.
pub fn grind_lanes<const LANES: usize>(
    hasher: &mut SandglassBatch<LANES>,
    job: &Job,
    nonce: u32,
    start_nonce: u32,
    hashes: &mut u64,
) -> (outcome: Option<(u32, Option<[u8; 32]>)>)
    requires
        old(hasher).wf(),
        LANES > 0,
        LANES <= u32::MAX,
        *old(hashes) + LANES <= u64::MAX,
    ensures
        final(hasher).wf(),
        final(hasher).tuning() == old(hasher).tuning(),
        batch_outcome(
            *job,
            nonce,
            start_nonce,
            LANES as nat,
            outcome,
            *final(hashes) - *old(hashes),
        ),
        active_from(nonce, job.nonce_stride, start_nonce, 0, LANES as nat) == LANES
            ==> forall|l: int|
            0 <= l < LANES ==> #[trigger] final(hasher).words(l) == scratch_at(
                *job,
                nonce::nonce_after(nonce, job.nonce_stride, l as nat),
            ),
        active_from(nonce, job.nonce_stride, start_nonce, 0, LANES as nat) < LANES
            ==> *final(hasher) == *old(hasher),
{
    let ghost stride = job.nonce_stride;
    let mut headers: [[u8; HEADER_LEN]; LANES] = [[0u8; HEADER_LEN]; LANES];
    let mut active: usize = 0;
    while active < LANES
        invariant_except_break
            active_from(nonce, stride, start_nonce, 0, LANES as nat) == active_from(
                nonce,
                stride,
                start_nonce,
                active as nat,
                LANES as nat,
            ),
        invariant
            active <= LANES,
            LANES <= u32::MAX,
            stride == job.nonce_stride,
            forall|l: int|
                0 <= l < active ==> (#[trigger] headers[l])@ == nonce::with_nonce(
                    job.header@,
                    nonce::nonce_after(nonce, stride, l as nat),
                ),
        ensures
            active == active_from(nonce, stride, start_nonce, 0, LANES as nat),
        decreases LANES - active,
    {
        let lane_start: u32 = lane_nonce(nonce, job.nonce_stride, active as u32);
        if active > 0 && lane_start == start_nonce {
            break;
        }
        headers[active] = header_with_nonce(&job.header, lane_start);
        active = active + 1;
    }
    if active == LANES {
        let digests = hasher.hash_batch(&headers);
        *hashes = *hashes + LANES as u64;
        return match first_below(&digests, &job.target) {
            Some(lane) => {
                let solved: u32 = lane_nonce(nonce, job.nonce_stride, lane as u32);
                proof {
                    lemma_lanes_missed(*job, nonce, digests@, lane as nat);
                    assert(first_hit(*job, nonce, lane as nat));
                }
                Some((solved, Some(digests[lane])))
            },
            None => {
                proof {
                    lemma_lanes_missed(*job, nonce, digests@, LANES as nat);
                }
                None
            },
        };
    }
    let mut scalar = Sandglass::with_scratch(Scratch::new(), hasher.tuned());
    let mut lane: usize = 0;
    while lane < active
        invariant
            lane <= active < LANES,
            LANES <= u32::MAX,
            active == active_from(nonce, stride, start_nonce, 0, LANES as nat),
            stride == job.nonce_stride,
            scalar.wf(),
            hasher.wf(),
            *hasher == *old(hasher),
            *hashes == *old(hashes) + lane,
            *old(hashes) + LANES <= u64::MAX,
            no_hit(*job, nonce, lane as nat),
            forall|l: int|
                0 <= l < active ==> (#[trigger] headers[l])@ == nonce::with_nonce(
                    job.header@,
                    nonce::nonce_after(nonce, stride, l as nat),
                ),
        decreases active - lane,
    {
        let hash: [u8; 32] = scalar.hash(&headers[lane]);
        *hashes = *hashes + 1;
        let ghost here = nonce::nonce_after(nonce, stride, lane as nat);
        assert(hash@ == digest_at(*job, here));
        if hash_meets_target(&hash, &job.target) {
            assert(first_hit(*job, nonce, lane as nat));
            return Some((lane_nonce(nonce, job.nonce_stride, lane as u32), Some(hash)));
        }
        assert(!meets(*job, here));
        lane = lane + 1;
    }
    Some((nonce, None))
}

/// Lanes whose digests are not below the target are nonces that miss.
proof fn lemma_lanes_missed(job: Job, nonce: u32, digests: Seq<[u8; 32]>, count: nat)
    requires
        count <= digests.len(),
        forall|l: int|
            0 <= l < digests.len() ==> (#[trigger] digests[l])@ == digest_at(
                job,
                nonce::nonce_after(nonce, job.nonce_stride, l as nat),
            ),
        forall|l: int|
            0 <= l < count ==> bytes::be_nat((#[trigger] digests[l])@) >= bytes::be_nat(
                job.target@,
            ),
    ensures
        no_hit(job, nonce, count),
{
    assert forall|k: nat| k < count implies !meets(
        job,
        #[trigger] nonce::nonce_after(nonce, job.nonce_stride, k),
    ) by {
        assert(digests[k as int]@ == digest_at(
            job,
            nonce::nonce_after(nonce, job.nonce_stride, k),
        ));
    }
}

/// A worker's hasher, of one, two or four lanes.
pub enum LaneHasher {
    L1(Sandglass),
    L2(SandglassBatch<2>),
    L4(SandglassBatch<4>),
}

impl LaneHasher {
    /// The hasher of every lane is in order.
    pub open spec fn wf(&self) -> bool {
        match self {
            LaneHasher::L1(hasher) => hasher.wf(),
            LaneHasher::L2(hasher) => hasher.wf(),
            LaneHasher::L4(hasher) => hasher.wf(),
        }
    }

    /// How many lanes there are.
    pub open spec fn lane_count(&self) -> usize {
        match self {
            LaneHasher::L1(_) => 1,
            LaneHasher::L2(_) => 2,
            LaneHasher::L4(_) => 4,
        }
    }

    /// How the hasher goes about its work.
    pub open spec fn tuning(&self) -> Tuning {
        match self {
            LaneHasher::L1(hasher) => hasher.tuning(),
            LaneHasher::L2(hasher) => hasher.tuning(),
            LaneHasher::L4(hasher) => hasher.tuning(),
        }
    }

    /// The words of one lane's scratch.
    pub open spec fn words(&self, lane: int) -> Seq<u32> {
        match self {
            LaneHasher::L1(hasher) => hasher.words(),
            LaneHasher::L2(hasher) => hasher.words(lane),
            LaneHasher::L4(hasher) => hasher.words(lane),
        }
    }

    /// A hasher of `lanes` lanes on fresh scratches.
    pub fn new(lanes: usize) -> (hasher: LaneHasher)
        requires
            lanes == 1 || lanes == 2 || lanes == 4,
        ensures
            hasher.wf(),
            hasher.lane_count() == lanes,
            hasher.tuning() == (Tuning { gather: false, prefetch: false, pair_kernel: false }),
            forall|l: int|
                0 <= l < lanes ==> #[trigger] hasher.words(l) == Seq::new(
                    WORDS as nat,
                    |i: int| 0u32,
                ),
    {
        if lanes == 1 {
            LaneHasher::L1(Sandglass::new())
        } else if lanes == 2 {
            LaneHasher::L2(SandglassBatch::<2>::new())
        } else {
            LaneHasher::L4(SandglassBatch::<4>::new())
        }
    }

    /// A hasher with a lane for each of the given scratches.
    pub fn with_scratches(scratches: Vec<Scratch>, tuning: Tuning) -> (hasher: LaneHasher)
        requires
            scratches@.len() == 1 || scratches@.len() == 2 || scratches@.len() == 4,
            forall|l: int| 0 <= l < scratches@.len() ==> (#[trigger] scratches@[l]).wf(),
        ensures
            hasher.wf(),
            hasher.lane_count() == scratches@.len(),
            hasher.tuning() == tuning,
            forall|l: int|
                0 <= l < scratches@.len() ==> #[trigger] hasher.words(l) == scratches@[l]@,
    {
        let mut scratches = scratches;
        if scratches.len() == 2 {
            LaneHasher::L2(SandglassBatch::<2>::with_scratches(scratches, tuning))
        } else if scratches.len() == 4 {
            LaneHasher::L4(SandglassBatch::<4>::with_scratches(scratches, tuning))
        } else {
            let scratch = scratches.swap_remove(0);
            LaneHasher::L1(Sandglass::with_scratch(scratch, tuning))
        }
    }

    /// How many lanes there are.
    pub fn lanes(&self) -> (lanes: usize)
        ensures
            lanes == self.lane_count(),
    {
        match self {
            LaneHasher::L1(_) => 1,
            LaneHasher::L2(_) => 2,
            LaneHasher::L4(_) => 4,
        }
    }
}

/// What hashing one batch of nonces from `nonce` on does to a hasher: every
/// lane's scratch is left by its own nonce, and a batch cut short leaves all of
/// them alone.
pub open spec fn hasher_after(
    job: Job,
    nonce: u32,
    start_nonce: u32,
    before: LaneHasher,
    after: LaneHasher,
) -> bool {
    let lanes = before.lane_count() as nat;
    let active = active_from(nonce, job.nonce_stride, start_nonce, 0, lanes);
    &&& after.wf()
    &&& after.lane_count() == before.lane_count()
    &&& after.tuning() == before.tuning()
    &&& active < lanes ==> after == before
    &&& active == lanes ==> forall|l: int|
        0 <= l < lanes ==> #[trigger] after.words(l) == scratch_at(
            job,
            nonce::nonce_after(nonce, job.nonce_stride, l as nat),
        )
}

/// Hashes one batch of nonces from `nonce` on, as many as the hasher has lanes.
pub fn grind_batch(
    hasher: &mut LaneHasher,
    job: &Job,
    nonce: u32,
    start_nonce: u32,
    hashes: &mut u64,
) -> (outcome: Option<(u32, Option<[u8; 32]>)>)
    requires
        old(hasher).wf(),
        *old(hashes) + old(hasher).lane_count() <= u64::MAX,
    ensures
        batch_outcome(
            *job,
            nonce,
            start_nonce,
            old(hasher).lane_count() as nat,
            outcome,
            *final(hashes) - *old(hashes),
        ),
        hasher_after(*job, nonce, start_nonce, *old(hasher), *final(hasher)),
{
    match hasher {
        LaneHasher::L1(hasher) => {
            let header = header_with_nonce(&job.header, nonce);
            let hash: [u8; 32] = hasher.hash(&header);
            *hashes = *hashes + 1;
            proof {
                reveal_with_fuel(active_from, 2);
                nonce::lemma_nonce_after_none(nonce, job.nonce_stride);
                assert(nonce::nonce_after(nonce, job.nonce_stride, 0) == nonce);
            }
            if hash_meets_target(&hash, &job.target) {
                assert(first_hit(*job, nonce, 0));
                return Some((nonce, Some(hash)));
            }
            None
        },
        LaneHasher::L2(hasher) => grind_lanes(hasher, job, nonce, start_nonce, hashes),
        LaneHasher::L4(hasher) => grind_lanes(hasher, job, nonce, start_nonce, hashes),
    }
}

} // verus!
