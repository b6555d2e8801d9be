//! A worker's run on one job, from its first nonce to the job's end.
use crate::grind;
use crate::grind::{grind_batch, LaneHasher, CHECK_INTERVAL, REPORT_INTERVAL_MS};
use crate::job::Job;
use crate::nonce;
use crate::nonce::lane_nonce;
use vstd::arithmetic::div_mod::*;
use vstd::prelude::*;

verus! {

/// What a worker has to tell.
pub enum Event {
    Hashrate { worker: usize, job_id: u64, hashes: u64, elapsed_ms: u128 },
    Solved { worker: usize, job_id: u64, nonce: u32, hash: [u8; 32] },
    Exhausted { worker: usize, job_id: u64 },
}

/// What one step of a run comes to.
pub enum Step {
    /// The job is no longer the current one; the run is over.
    Abandoned,
    /// The job is done; the run is over.
    Finished(Event),
    /// Go on with the next step.
    Continue,
    /// Look at the clock, then go on with the next step.
    CheckClock,
}

/// The first nonce of a worker on a job.
pub open spec fn start_of(job: Job, worker: usize) -> u32 {
    job.nonce_offset.wrapping_add(worker as u32)
}

/// The first `count` strides from `start` do not come back to it.
pub open spec fn stays_away(start: u32, stride: u32, count: nat) -> bool {
    forall|k: nat| 0 < k <= count ==> #[trigger] nonce::nonce_after(start, stride, k) != start
}

/// None of the nonces that the strides from `start` ever come to meets the
/// job's target.
pub open spec fn never_hits(job: Job, start: u32) -> bool {
    forall|k: nat| !grind::meets(job, #[trigger] nonce::nonce_after(start, job.nonce_stride, k))
}

/// The first nonce from `start` on that meets the target is `nonce`, and it is
/// between `from` and `to` strides away.
pub open spec fn solved_between(job: Job, start: u32, from: nat, to: nat, nonce: u32) -> bool {
    exists|k: nat|
        {
            &&& from <= k < to
            &&& #[trigger] grind::first_hit(job, start, k)
            &&& nonce == nonce::nonce_after(start, job.nonce_stride, k)
        }
}

/// How many nonces are hashed in `rounds` full rounds and `steps` steps more,
/// with `lanes` nonces to a step.
pub open spec fn counted(lanes: usize, rounds: nat, steps: usize) -> int {
    lanes * (CHECK_INTERVAL * rounds + steps)
}

/// A worker's run on one job.
pub struct Run {
    worker: usize,
    job: Job,
    lanes: usize,
    start_nonce: u32,
    nonce: u32,
    hashes: u64,
    round: usize,
    tried: Ghost<nat>,
    finished: Ghost<bool>,
}

/// Nonces that do not come back to their start are pairwise different.
pub proof fn lemma_away_is_distinct(start: u32, stride: u32, count: nat, a: nat, b: nat)
    requires
        stays_away(start, stride, count),
        a < b <= count,
    ensures
        nonce::nonce_after(start, stride, a) != nonce::nonce_after(start, stride, b),
{
    if nonce::nonce_after(start, stride, a) == nonce::nonce_after(start, stride, b) {
        nonce::lemma_repeat_comes_back(start, stride, a, b);
        assert(nonce::nonce_after(start, stride, (b - a) as nat) != start);
    }
}

/// Nonces that all miss, followed by more that all miss.
proof fn lemma_no_hit_extends(job: Job, start: u32, tried: nat, more: nat)
    requires
        grind::no_hit(job, start, tried),
        grind::no_hit(job, nonce::nonce_after(start, job.nonce_stride, tried), more),
    ensures
        grind::no_hit(job, start, tried + more),
{
    let stride = job.nonce_stride;
    let from = nonce::nonce_after(start, stride, tried);
    assert forall|k: nat| k < tried + more implies !grind::meets(
        job,
        #[trigger] nonce::nonce_after(start, stride, k),
    ) by {
        if k >= tried {
            let rest = (k - tried) as nat;
            nonce::lemma_nonce_after_adds(start, stride, tried, rest);
            assert(!grind::meets(job, nonce::nonce_after(from, stride, rest)));
        }
    }
}

/// Where a round of nonces that come back to their start has no hit, there is
/// no hit at all.
proof fn lemma_round_without_hit(job: Job, start: u32, period: nat)
    requires
        period > 0,
        grind::no_hit(job, start, period),
        nonce::nonce_after(start, job.nonce_stride, period) == start,
    ensures
        never_hits(job, start),
{
    let stride = job.nonce_stride;
    assert forall|k: nat| !grind::meets(job, #[trigger] nonce::nonce_after(start, stride, k)) by {
        nonce::lemma_goes_round(start, stride, period, k);
        assert(k % period < period);
        assert(!grind::meets(job, nonce::nonce_after(start, stride, k % period)));
    }
}

/// Where one run of a worker solves a job, no other run of that worker on it,
/// with any number of lanes, is exhausted or solves it with another nonce.
pub proof fn law_runs_agree(job: Job, start: u32, from: nat, to: nat, nonce: u32)
    requires
        solved_between(job, start, from, to, nonce),
    ensures
        !never_hits(job, start),
        forall|other_from: nat, other_to: nat, other: u32| #[trigger]
            solved_between(job, start, other_from, other_to, other) ==> other == nonce,
{
    let k = choose|k: nat|
        {
            &&& from <= k < to
            &&& #[trigger] grind::first_hit(job, start, k)
            &&& nonce == nonce::nonce_after(start, job.nonce_stride, k)
        };
    assert(grind::meets(job, nonce::nonce_after(start, job.nonce_stride, k)));
    assert forall|other_from: nat, other_to: nat, other: u32| #[trigger]
        solved_between(job, start, other_from, other_to, other) implies other == nonce by {
        let j = choose|j: nat|
            {
                &&& other_from <= j < other_to
                &&& #[trigger] grind::first_hit(job, start, j)
                &&& other == nonce::nonce_after(start, job.nonce_stride, j)
            };
        grind::law_lane_count_keeps_solution(job, start, k, j);
    }
}

/// A worker begins as many nonces after the job's offset as its number says, on
/// 32 bits.
pub proof fn law_worker_begins_at_its_number(job: Job, worker: usize)
    ensures
        start_of(job, worker) == (job.nonce_offset + worker) % 0x1_0000_0000,
{
    let wide = worker as u64;
    assert(wide as u32 == wide % 0x1_0000_0000) by (bit_vector);
    lemma_add_mod_noop_right(job.nonce_offset as int, worker as int, 0x1_0000_0000);
}

/// Two workers with numbers below the job's stride never come to one nonce,
/// where the stride divides the number of nonces.
pub proof fn law_workers_share_no_nonce(job: Job, a: usize, b: usize, i: nat, j: nat)
    requires
        a < job.nonce_stride,
        b < job.nonce_stride,
        a != b,
        0x1_0000_0000int % job.nonce_stride as int == 0,
    ensures
        nonce::nonce_after(start_of(job, a), job.nonce_stride, i) != nonce::nonce_after(
            start_of(job, b),
            job.nonce_stride,
            j,
        ),
{
    let (m, s) = (0x1_0000_0000int, job.nonce_stride as int);
    let times = m / s;
    lemma_fundamental_div_mod(m, s);
    assert(times > 0) by (nonlinear_arith)
        requires
            m == s * times,
            m > 0,
            s > 0,
    ;
    nonce::lemma_remainder_is_kept(start_of(job, a), job.nonce_stride, i);
    nonce::lemma_remainder_is_kept(start_of(job, b), job.nonce_stride, j);
    law_worker_begins_at_its_number(job, a);
    law_worker_begins_at_its_number(job, b);
    lemma_mod_mod(job.nonce_offset + a, s, times);
    lemma_mod_mod(job.nonce_offset + b, s, times);
    if (job.nonce_offset + a) % s == (job.nonce_offset + b) % s {
        lemma_mod_equivalence(job.nonce_offset + a, job.nonce_offset + b, s);
        lemma_mod_equivalence(a as int, b as int, s);
        lemma_small_mod(a as nat, s as nat);
        lemma_small_mod(b as nat, s as nat);
    }
}

/// The workers with numbers below the job's stride come to every nonce there is.
pub proof fn law_workers_cover_every_nonce(job: Job, nonce: u32)
    requires
        job.nonce_stride > 0,
    ensures
        exists|worker: usize, k: nat|
            worker < job.nonce_stride && #[trigger] nonce::nonce_after(
                start_of(job, worker),
                job.nonce_stride,
                k,
            ) == nonce,
{
    let (m, s) = (0x1_0000_0000int, job.nonce_stride as int);
    let apart = (nonce - job.nonce_offset) % m;
    let (k, rest) = (apart / s, apart % s);
    let worker = rest as usize;
    lemma_fundamental_div_mod(apart, s);
    assert(k >= 0) by (nonlinear_arith)
        requires
            k == apart / s,
            apart >= 0,
            s > 0,
    ;
    law_worker_begins_at_its_number(job, worker);
    lemma_add_mod_noop(job.nonce_offset + worker, s * k, m);
    lemma_add_mod_noop((job.nonce_offset + worker) % m, s * k, m);
    lemma_mod_twice(job.nonce_offset + worker, m);
    lemma_add_mod_noop_right(job.nonce_offset as int, nonce - job.nonce_offset, m);
    lemma_small_mod(nonce as nat, m as nat);
    assert(nonce::nonce_after(start_of(job, worker), job.nonce_stride, k as nat) == nonce);
}

/// Where every worker with a number below the job's stride has given up, no
/// nonce at all meets the job's target.
pub proof fn law_job_given_up_by_all_has_no_solution(job: Job, nonce: u32)
    requires
        job.nonce_stride > 0,
        forall|worker: usize|
            worker < job.nonce_stride ==> never_hits(job, #[trigger] start_of(job, worker)),
    ensures
        !grind::meets(job, nonce),
{
    law_workers_cover_every_nonce(job, nonce);
    let (worker, k) = choose|worker: usize, k: nat|
        worker < job.nonce_stride && #[trigger] nonce::nonce_after(
            start_of(job, worker),
            job.nonce_stride,
            k,
        ) == nonce;
    assert(never_hits(job, start_of(job, worker)));
}

/// A nonce that solves a job meets the target and is the first of its worker's
/// to do so, and lies among those that were tried between.
pub proof fn law_solution_is_the_first(job: Job, start: u32, from: nat, to: nat, nonce: u32)
    ensures
        solved_between(job, start, from, to, nonce) <==> exists|k: nat|
            {
                &&& from <= k < to
                &&& nonce == #[trigger] nonce::nonce_after(start, job.nonce_stride, k)
                &&& grind::meets(job, nonce)
                &&& forall|j: nat|
                    j < k ==> !grind::meets(
                        job,
                        #[trigger] nonce::nonce_after(start, job.nonce_stride, j),
                    )
            },
{
    let stride = job.nonce_stride;
    if solved_between(job, start, from, to, nonce) {
        let k = choose|k: nat|
            {
                &&& from <= k < to
                &&& #[trigger] grind::first_hit(job, start, k)
                &&& nonce == nonce::nonce_after(start, stride, k)
            };
        assert(nonce == nonce::nonce_after(start, stride, k));
    }
    if exists|k: nat|
        {
            &&& from <= k < to
            &&& nonce == #[trigger] nonce::nonce_after(start, stride, k)
            &&& grind::meets(job, nonce)
            &&& forall|j: nat|
                j < k ==> !grind::meets(job, #[trigger] nonce::nonce_after(start, stride, j))
        } {
        let k = choose|k: nat|
            {
                &&& from <= k < to
                &&& nonce == #[trigger] nonce::nonce_after(start, stride, k)
                &&& grind::meets(job, nonce)
                &&& forall|j: nat|
                    j < k ==> !grind::meets(job, #[trigger] nonce::nonce_after(start, stride, j))
            };
        assert(grind::first_hit(job, start, k));
    }
}

/// A worker has either stayed away from its start or come round to it, within
/// the strides that it has taken.
pub proof fn law_staying_away_is_not_coming_round(start: u32, stride: u32, count: nat)
    ensures
        !stays_away(start, stride, count) <==> exists|k: nat|
            0 < k <= count && #[trigger] nonce::nonce_after(start, stride, k) == start,
{
}

/// A batch that solves a job solves it with the worker's first hit.
proof fn lemma_batch_solves(
    job: Job,
    start: u32,
    tried: nat,
    lanes: nat,
    solved: u32,
    hash: [u8; 32],
    added: int,
)
    requires
        lanes > 0,
        grind::no_hit(job, start, tried),
        grind::batch_outcome(
            job,
            nonce::nonce_after(start, job.nonce_stride, tried),
            start,
            lanes,
            Some((solved, Some(hash))),
            added,
        ),
    ensures
        solved_between(job, start, tried, tried + lanes, solved),
        hash@ == grind::digest_at(job, solved),
{
    let stride = job.nonce_stride;
    let from = nonce::nonce_after(start, stride, tried);
    let active = grind::active_from(from, stride, start, 0, lanes);
    grind::lemma_active_bounds(from, stride, start, 0, lanes);
    let k = choose|k: nat|
        {
            &&& k < active
            &&& #[trigger] grind::first_hit(job, from, k)
            &&& solved == nonce::nonce_after(from, stride, k)
            &&& hash@ == grind::digest_at(job, solved)
        };
    nonce::lemma_nonce_after_adds(start, stride, tried, k);
    lemma_no_hit_extends(job, start, tried, k);
    assert(grind::first_hit(job, start, tried + k));
}

/// A batch that is cut short without a hit ends a round without a hit.
proof fn lemma_short_batch_exhausts(
    job: Job,
    start: u32,
    tried: nat,
    lanes: nat,
    last: u32,
    added: int,
)
    requires
        lanes > 0,
        grind::no_hit(job, start, tried),
        grind::batch_outcome(
            job,
            nonce::nonce_after(start, job.nonce_stride, tried),
            start,
            lanes,
            Some((last, None)),
            added,
        ),
    ensures
        never_hits(job, start),
        !stays_away(start, job.nonce_stride, tried + lanes),
{
    let stride = job.nonce_stride;
    let from = nonce::nonce_after(start, stride, tried);
    let active = grind::active_from(from, stride, start, 0, lanes);
    grind::lemma_active_bounds(from, stride, start, 0, lanes);
    nonce::lemma_nonce_after_adds(start, stride, tried, active);
    lemma_no_hit_extends(job, start, tried, active);
    lemma_round_without_hit(job, start, tried + active);
    assert(nonce::nonce_after(start, stride, tried + active) == start);
}

/// A full batch without a hit extends the nonces tried; it ends a round where
/// the next nonce is the first again, and stays away from it otherwise.
proof fn lemma_full_batch_extends(job: Job, start: u32, tried: nat, lanes: nat, added: int)
    requires
        lanes > 0,
        grind::no_hit(job, start, tried),
        stays_away(start, job.nonce_stride, tried),
        grind::batch_outcome(
            job,
            nonce::nonce_after(start, job.nonce_stride, tried),
            start,
            lanes,
            None,
            added,
        ),
    ensures
        ({
            let next = nonce::nonce_after(start, job.nonce_stride, tried + lanes);
            &&& next == nonce::nonce_after(
                nonce::nonce_after(start, job.nonce_stride, tried),
                job.nonce_stride,
                lanes,
            )
            &&& grind::no_hit(job, start, tried + lanes)
            &&& next == start ==> never_hits(job, start) && !stays_away(
                start,
                job.nonce_stride,
                tried + lanes,
            )
            &&& next != start ==> stays_away(start, job.nonce_stride, tried + lanes)
        }),
{
    let stride = job.nonce_stride;
    let from = nonce::nonce_after(start, stride, tried);
    grind::lemma_active_bounds(from, stride, start, 0, lanes);
    lemma_no_hit_extends(job, start, tried, lanes);
    nonce::lemma_nonce_after_adds(start, stride, tried, lanes);
    let next = nonce::nonce_after(start, stride, tried + lanes);
    if next == start {
        lemma_round_without_hit(job, start, tried + lanes);
    } else {
        assert forall|k: nat| 0 < k <= tried + lanes implies #[trigger] nonce::nonce_after(
            start,
            stride,
            k,
        ) != start by {
            if tried < k < tried + lanes {
                let rest = (k - tried) as nat;
                nonce::lemma_nonce_after_adds(start, stride, tried, rest);
                assert(nonce::nonce_after(from, stride, rest) != start);
            }
        }
    }
}

impl Run {
    /// The worker whose run it is.
    pub closed spec fn worker(&self) -> usize {
        self.worker
    }

    /// The job that the run is on.
    pub closed spec fn job(&self) -> Job {
        self.job
    }

    /// How many nonces a step hashes.
    pub closed spec fn lane_count(&self) -> usize {
        self.lanes
    }

    /// How many nonces the run has hashed.
    pub closed spec fn tried(&self) -> nat {
        self.tried@
    }

    /// How many hashes the next report will count.
    pub closed spec fn hashes(&self) -> u64 {
        self.hashes
    }

    /// How many steps the run has taken since it last looked at the clock.
    pub closed spec fn round(&self) -> usize {
        self.round
    }

    /// The run has hashed the first `tried` nonces of its worker, without a hit
    /// and without coming back to the first of them, and it is not over.
    pub closed spec fn wf(&self) -> bool {
        &&& self.lanes == 1 || self.lanes == 2 || self.lanes == 4
        &&& self.start_nonce == start_of(self.job, self.worker)
        &&& self.nonce == nonce::nonce_after(
            self.start_nonce,
            self.job.nonce_stride,
            self.tried@,
        )
        &&& grind::no_hit(self.job, self.start_nonce, self.tried@)
        &&& stays_away(self.start_nonce, self.job.nonce_stride, self.tried@)
        &&& self.hashes <= self.tried@
        &&& self.round < CHECK_INTERVAL
        &&& !self.finished@
    }

    /// The next report will count every nonce of some full rounds, and of the
    /// steps that the run has taken since it last looked at the clock.
    pub open spec fn counts_every_step(&self) -> bool {
        exists|rounds: nat|
            self.hashes() == #[trigger] counted(self.lane_count(), rounds, self.round())
    }

    /// The next report will count the nonces of full rounds, and of one at
    /// least.
    pub open spec fn counts_full_rounds(&self) -> bool {
        exists|rounds: nat|
            rounds > 0 && self.hashes() == #[trigger] counted(self.lane_count(), rounds, 0)
    }

    /// A report on full rounds counts a positive multiple of what one round
    /// hashes.
    pub proof fn law_report_is_positive_multiple(&self)
        requires
            self.wf(),
            self.counts_full_rounds(),
        ensures
            self.hashes() > 0,
            self.hashes() as int % (CHECK_INTERVAL * self.lane_count()) == 0,
    {
        let rounds = choose|rounds: nat|
            rounds > 0 && self.hashes() == #[trigger] counted(self.lane_count(), rounds, 0);
        let per_round = CHECK_INTERVAL * self.lanes;
        assert(self.hashes == rounds * per_round && self.hashes > 0) by (nonlinear_arith)
            requires
                self.hashes == self.lanes * (CHECK_INTERVAL * rounds + 0),
                per_round == CHECK_INTERVAL * self.lanes,
                rounds > 0,
                self.lanes > 0,
        ;
        lemma_mod_multiples_basic(rounds as int, per_round);
    }

    /// No hashes are the count of no rounds and no steps.
    proof fn lemma_fresh_count(&self)
        requires
            self.hashes() == 0,
            self.round() == 0,
        ensures
            self.counts_every_step(),
    {
        assert(counted(self.lane_count(), 0, self.round()) == 0) by (nonlinear_arith)
            requires
                self.round() == 0,
        ;
    }

    /// One step more makes the count of one step more; the last step of a round
    /// makes it that of a full round more.
    proof fn lemma_step_is_counted(before: Run, after: Run)
        requires
            before.wf(),
            before.counts_every_step(),
            after.lane_count() == before.lane_count(),
            after.hashes() == before.hashes() + before.lane_count(),
            after.round() == (before.round() + 1) % CHECK_INTERVAL as int,
        ensures
            after.counts_every_step(),
            before.round() + 1 == CHECK_INTERVAL ==> after.counts_full_rounds(),
    {
        let lanes = before.lanes;
        let rounds = choose|rounds: nat|
            before.hashes() == #[trigger] counted(lanes, rounds, before.round());
        assert(lanes == 1 || lanes == 2 || lanes == 4);
        if before.round + 1 == CHECK_INTERVAL {
            assert(after.hashes() == counted(lanes, rounds + 1, 0));
        } else {
            assert(after.hashes() == counted(lanes, rounds, after.round()));
        }
    }

    /// A run hashes no nonce twice, so it ends before it has hashed as many as
    /// there are; and none that it has hashed meets the target.
    pub proof fn law_no_nonce_twice(&self)
        requires
            self.wf(),
        ensures
            self.tried() < 0x1_0000_0000,
            forall|a: nat, b: nat|
                a < b < self.tried() ==> #[trigger] nonce::nonce_after(
                    start_of(self.job(), self.worker()),
                    self.job().nonce_stride,
                    a,
                ) != #[trigger] nonce::nonce_after(
                    start_of(self.job(), self.worker()),
                    self.job().nonce_stride,
                    b,
                ),
            grind::no_hit(self.job(), start_of(self.job(), self.worker()), self.tried()),
            stays_away(
                start_of(self.job(), self.worker()),
                self.job().nonce_stride,
                self.tried(),
            ),
    {
        let (start, stride) = (self.start_nonce, self.job.nonce_stride);
        nonce::lemma_comes_back(start, stride);
        if self.tried@ >= 0x1_0000_0000 {
            assert(nonce::nonce_after(start, stride, 0x1_0000_0000) != start);
        }
        assert forall|a: nat, b: nat| a < b < self.tried@ implies #[trigger] nonce::nonce_after(
            start,
            stride,
            a,
        ) != #[trigger] nonce::nonce_after(start, stride, b) by {
            lemma_away_is_distinct(start, stride, self.tried@, a, b);
        }
    }

    /// The run of `worker` on `job`, before its first step.
    pub fn new(worker: usize, job: Job, lanes: usize) -> (run: Run)
        requires
            lanes == 1 || lanes == 2 || lanes == 4,
        ensures
            run.wf(),
            run.worker() == worker,
            run.job() == job,
            run.lane_count() == lanes,
            run.tried() == 0,
            run.hashes() == 0,
            run.round() == 0,
            run.counts_every_step(),
    {
        let start_nonce: u32 = job.nonce_offset.wrapping_add(
            #[verifier::truncate]
            (worker as u32),
        );
        proof {
            nonce::lemma_nonce_after_none(start_nonce, job.nonce_stride);
        }
        let run = Run {
            worker,
            job,
            lanes,
            start_nonce,
            nonce: start_nonce,
            hashes: 0,
            round: 0,
            tried: Ghost(0),
            finished: Ghost(false),
        };
        proof {
            run.lemma_fresh_count();
        }
        run
    }

    /// Takes the run one step on: one batch of nonces, unless `changed` says
    /// that the job is no longer the current one. A run that has finished takes
    /// no step and makes no report any more.
    pub fn step(&mut self, changed: bool, hasher: &mut LaneHasher) -> (step: Step)
        requires
            old(self).wf(),
            old(hasher).wf(),
            old(hasher).lane_count() == old(self).lane_count(),
        ensures
            final(hasher).wf(),
            final(hasher).lane_count() == old(hasher).lane_count(),
            final(self).worker() == old(self).worker(),
            final(self).job() == old(self).job(),
            final(self).lane_count() == old(self).lane_count(),
            changed <==> step is Abandoned,
            changed ==> *final(self) == *old(self) && *final(hasher) == *old(hasher),
            !changed ==> grind::hasher_after(
                old(self).job(),
                nonce::nonce_after(
                    start_of(old(self).job(), old(self).worker()),
                    old(self).job().nonce_stride,
                    old(self).tried(),
                ),
                start_of(old(self).job(), old(self).worker()),
                *old(hasher),
                *final(hasher),
            ),
            step is Finished ==> !final(self).wf(),
            match step {
                Step::Abandoned => true,
                Step::Finished(
                    Event::Solved { worker, job_id, nonce, hash },
                ) => {
                    &&& worker == old(self).worker()
                    &&& job_id == old(self).job().id
                    &&& hash@ == grind::digest_at(old(self).job(), nonce)
                    &&& solved_between(
                        old(self).job(),
                        start_of(old(self).job(), old(self).worker()),
                        old(self).tried(),
                        old(self).tried() + old(self).lane_count() as nat,
                        nonce,
                    )
                },
                Step::Finished(Event::Exhausted { worker, job_id }) => {
                    &&& worker == old(self).worker()
                    &&& job_id == old(self).job().id
                    &&& never_hits(
                        old(self).job(),
                        start_of(old(self).job(), old(self).worker()),
                    )
                    &&& !stays_away(
                        start_of(old(self).job(), old(self).worker()),
                        old(self).job().nonce_stride,
                        old(self).tried() + old(self).lane_count() as nat,
                    )
                },
                Step::Finished(Event::Hashrate { .. }) => false,
                Step::Continue | Step::CheckClock => {
                    &&& final(self).wf()
                    &&& final(self).tried() == old(self).tried() + old(self).lane_count()
                    &&& grind::no_hit(
                        old(self).job(),
                        start_of(old(self).job(), old(self).worker()),
                        final(self).tried(),
                    )
                    &&& stays_away(
                        start_of(old(self).job(), old(self).worker()),
                        old(self).job().nonce_stride,
                        final(self).tried(),
                    )
                    &&& final(self).hashes() == old(self).hashes() + old(self).lane_count()
                    &&& step is CheckClock <==> old(self).round() + 1 == CHECK_INTERVAL
                    &&& final(self).round() == (old(self).round() + 1) % CHECK_INTERVAL as int
                    &&& old(self).counts_every_step() ==> final(self).counts_every_step()
                    &&& old(self).counts_every_step() && step is CheckClock
                        ==> final(self).counts_full_rounds()
                },
            },
    {
        if changed {
            return Step::Abandoned;
        }
        let ghost before = *self;
        let ghost lanes = self.lanes as nat;
        proof {
            self.law_no_nonce_twice();
        }
        let outcome = grind_batch(
            hasher,
            &self.job,
            self.nonce,
            self.start_nonce,
            &mut self.hashes,
        );
        let ghost added = self.hashes - before.hashes;
        match outcome {
            Some((solved, Some(hash))) => {
                proof {
                    lemma_batch_solves(
                        self.job,
                        self.start_nonce,
                        self.tried@,
                        lanes,
                        solved,
                        hash,
                        added,
                    );
                    self.finished@ = true;
                }
                Step::Finished(
                    Event::Solved { worker: self.worker, job_id: self.job.id, nonce: solved, hash },
                )
            },
            Some((last, None)) => {
                proof {
                    lemma_short_batch_exhausts(
                        self.job,
                        self.start_nonce,
                        self.tried@,
                        lanes,
                        last,
                        added,
                    );
                    self.finished@ = true;
                }
                Step::Finished(Event::Exhausted { worker: self.worker, job_id: self.job.id })
            },
            None => {
                proof {
                    lemma_full_batch_extends(
                        self.job,
                        self.start_nonce,
                        self.tried@,
                        lanes,
                        added,
                    );
                    self.tried@ = self.tried@ + lanes;
                }
                self.nonce = lane_nonce(self.nonce, self.job.nonce_stride, self.lanes as u32);
                if self.nonce == self.start_nonce {
                    proof {
                        self.finished@ = true;
                    }
                    return Step::Finished(
                        Event::Exhausted { worker: self.worker, job_id: self.job.id },
                    );
                }
                let full: bool = self.round + 1 == CHECK_INTERVAL;
                self.round = if full {
                    0
                } else {
                    self.round + 1
                };
                proof {
                    if before.counts_every_step() {
                        Self::lemma_step_is_counted(before, *self);
                    }
                }
                if full {
                    Step::CheckClock
                } else {
                    Step::Continue
                }
            },
        }
    }

    /// The report that is due after `elapsed_ms` milliseconds since the last
    /// one, if any is. It counts the hashes since then, and the count starts
    /// again.
    pub fn report(&mut self, elapsed_ms: u128) -> (event: Option<Event>)
        requires
            old(self).wf(),
        ensures
            final(self).wf(),
            final(self).worker() == old(self).worker(),
            final(self).job() == old(self).job(),
            final(self).lane_count() == old(self).lane_count(),
            final(self).tried() == old(self).tried(),
            final(self).round() == old(self).round(),
            elapsed_ms < REPORT_INTERVAL_MS ==> event is None && *final(self) == *old(self),
            elapsed_ms >= REPORT_INTERVAL_MS ==> event == Some(
                Event::Hashrate {
                    worker: old(self).worker(),
                    job_id: old(self).job().id,
                    hashes: old(self).hashes(),
                    elapsed_ms,
                },
            ) && final(self).hashes() == 0,
            old(self).counts_every_step() && old(self).round() == 0
                ==> final(self).counts_every_step(),
            old(self).counts_full_rounds() ==> (event matches Some(
                Event::Hashrate { hashes, .. },
            ) ==> hashes > 0 && hashes as int % (CHECK_INTERVAL * old(self).lane_count()) == 0),
    {
        if elapsed_ms < REPORT_INTERVAL_MS {
            return None;
        }
        let event = Event::Hashrate {
            worker: self.worker,
            job_id: self.job.id,
            hashes: self.hashes,
            elapsed_ms,
        };
        proof {
            if self.counts_full_rounds() {
                self.law_report_is_positive_multiple();
            }
        }
        self.hashes = 0;
        proof {
            if self.round == 0 {
                self.lemma_fresh_count();
            }
        }
        Some(event)
    }
}

} // verus!
