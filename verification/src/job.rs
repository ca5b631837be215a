//! A queue of jobs that run one at a time.
//!
//! A job is queued, then running, then done, failed or cancelled; there is no way back. A queued job is
//! cancelled at once, a running one through a flag that whoever runs it watches.
use std::collections::HashMap;
use std::sync::atomic::{AtomicBool, Ordering};
use std::sync::Arc;
use vstd::prelude::*;
use vstd::std_specs::hash::*;

verus! {

broadcast use vstd::std_specs::hash::group_hash_axioms;

/// The flag by which a running job is told to stop.
pub type JobCancel = Arc<AtomicBool>;

/// Where a job stands.
#[derive(Debug, Clone, PartialEq, Eq)]
pub enum JobState {
    Queued,
    Running,
    Done { frames: u64 },
    Failed { error: String },
    Cancelled { frames: u64 },
}

/// Whether a job has come to its end.
pub open spec fn ended(s: JobState) -> bool {
    !(s is Queued) && !(s is Running)
}

impl JobState {
    /// Whether the job has come to its end.
    pub fn is_terminal(&self) -> (r: bool)
        ensures
            r == ended(*self),
    {
        match self {
            JobState::Queued => false,
            JobState::Running => false,
            _ => true,
        }
    }

    fn copy(&self) -> (r: JobState)
        ensures
            r == *self,
    {
        match self {
            JobState::Queued => JobState::Queued,
            JobState::Running => JobState::Running,
            JobState::Done { frames } => JobState::Done { frames: *frames },
            JobState::Failed { error } => JobState::Failed { error: error.clone() },
            JobState::Cancelled { frames } => JobState::Cancelled { frames: *frames },
        }
    }
}

/// A job of the queue and where it stands.
#[derive(Debug, Clone)]
pub struct JobStatus {
    pub id: u64,
    pub state: JobState,
}

/// The queue.
pub struct JobManager {
    next_id: u64,
    jobs: Vec<JobStatus>,
    current: Option<u64>,
    cancels: HashMap<u64, JobCancel>,
}

/// What a queue holds: its jobs in the order in which they came, the number that the next one gets, the job
/// that is running, and the flags of the jobs that have one.
#[verifier::ext_equal]
pub struct JobsView {
    pub jobs: Seq<JobStatus>,
    pub next_id: u64,
    pub current: Option<u64>,
    pub flags: Map<u64, JobCancel>,
}

impl View for JobManager {
    type V = JobsView;

    closed spec fn view(&self) -> JobsView {
        JobsView {
            jobs: self.jobs@,
            next_id: self.next_id,
            current: self.current,
            flags: self.cancels@,
        }
    }
}

/// What always holds of a queue: numbers are given out upwards, at most one job runs, it is the current one,
/// and it alone has a flag.
pub open spec fn jobs_ok(v: JobsView) -> bool {
    &&& forall|i: int| 0 <= i < v.jobs.len() ==> (#[trigger] v.jobs[i]).id < v.next_id
    &&& forall|i: int, j: int| 0 <= i < j < v.jobs.len() ==> (#[trigger] v.jobs[i]).id < (#[trigger] v.jobs[j]).id
    &&& forall|i: int|
        0 <= i < v.jobs.len() ==> ((#[trigger] v.jobs[i]).state is Running <==> v.current == Some(v.jobs[i].id))
    &&& v.current is Some ==> exists|i: int| 0 <= i < v.jobs.len() && (#[trigger] v.jobs[i]).id == v.current->0
    &&& v.flags.dom() == match v.current {
        Some(id) => set![id],
        None => Set::empty(),
    }
}

/// Where job `id` stands in the list.
pub open spec fn job_at(jobs: Seq<JobStatus>, id: u64, i: int) -> bool {
    0 <= i < jobs.len() && jobs[i].id == id
}

/// Whether there is a job `id`.
pub open spec fn known(jobs: Seq<JobStatus>, id: u64) -> bool {
    exists|i: int| job_at(jobs, id, i)
}

/// The state of job `id`.
pub open spec fn state_of(jobs: Seq<JobStatus>, id: u64) -> Option<JobState> {
    if known(jobs, id) {
        Some(jobs[choose|i: int| job_at(jobs, id, i)].state)
    } else {
        None
    }
}

/// The jobs with job `id` in state `s`.
pub open spec fn with_state(jobs: Seq<JobStatus>, id: u64, s: JobState) -> Seq<JobStatus> {
    jobs.map_values(
        |j: JobStatus|
            if j.id == id {
                JobStatus { id, state: s }
            } else {
                j
            },
    )
}

/// The first queued job.
pub open spec fn first_queued(jobs: Seq<JobStatus>, i: int) -> bool {
    &&& 0 <= i < jobs.len()
    &&& jobs[i].state is Queued
    &&& forall|j: int| 0 <= j < i ==> !((#[trigger] jobs[j]).state is Queued)
}

/// The jobs that are left when those that have ended are dropped, all of them or only job `only`.
pub open spec fn unfinished(jobs: Seq<JobStatus>, only: Option<u64>) -> Seq<JobStatus>
    decreases jobs.len(),
{
    if jobs.len() == 0 {
        Seq::empty()
    } else if ended(jobs.last().state) && (only is None || only == Some(jobs.last().id)) {
        unfinished(jobs.drop_last(), only)
    } else {
        unfinished(jobs.drop_last(), only).push(jobs.last())
    }
}

/// In an orderly queue the place of a job is unique.
proof fn lemma_place(v: JobsView, id: u64, i: int)
    requires
        jobs_ok(v),
        job_at(v.jobs, id, i),
    ensures
        known(v.jobs, id),
        state_of(v.jobs, id) == Some(v.jobs[i].state),
        forall|j: int| #[trigger] job_at(v.jobs, id, j) ==> j == i,
{
    let k = choose|k: int| job_at(v.jobs, id, k);
    assert(job_at(v.jobs, id, k));
}

/// Changing the state of one job changes no number and no order.
proof fn lemma_with_state(v: JobsView, id: u64, s: JobState, i: int)
    requires
        jobs_ok(v),
        job_at(v.jobs, id, i),
    ensures
        with_state(v.jobs, id, s) == v.jobs.update(i, JobStatus { id, state: s }),
        with_state(v.jobs, id, s).len() == v.jobs.len(),
{
    lemma_place(v, id, i);
    assert forall|j: int| 0 <= j < v.jobs.len() && j != i implies (#[trigger] v.jobs[j]).id != id by {
        assert(!job_at(v.jobs, id, j));
    }
    assert(with_state(v.jobs, id, s) =~= v.jobs.update(i, JobStatus { id, state: s }));
}

/// Raises a flag. What a flag holds, and who else sees it, is beyond what contracts speak of here.
fn raise(flag: &JobCancel) {
    flag.store(true, Ordering::Relaxed);
}

impl JobManager {
    /// The invariant of the queue.
    pub open spec fn wf(&self) -> bool {
        jobs_ok(self@)
    }

    /// An empty queue.
    pub fn new() -> (r: JobManager)
        ensures
            r.wf(),
            r@ == (JobsView { jobs: Seq::empty(), next_id: 0, current: None, flags: Map::empty() }),
    {
        let r = JobManager { next_id: 0, jobs: Vec::new(), current: None, cancels: HashMap::new() };
        assert(r@.flags =~= Map::empty());
        assert(r@.flags.dom() =~= Set::empty());
        r
    }

    /// Takes a job in; gives its number. Numbers start at 0.
    pub fn enqueue(&mut self) -> (id: u64)
        requires
            old(self).wf(),
            old(self)@.next_id < u64::MAX,
        ensures
            final(self).wf(),
            id == old(self)@.next_id,
            final(self)@ == (JobsView {
                jobs: old(self)@.jobs.push(JobStatus { id, state: JobState::Queued }),
                next_id: (id + 1) as u64,
                ..old(self)@
            }),
    {
        let ghost v = self@;
        let id: u64 = self.next_id;
        self.next_id = id + 1;
        self.jobs.push(JobStatus { id, state: JobState::Queued });
        proof {
            if v.current is Some {
                let i = choose|i: int| 0 <= i < v.jobs.len() && (#[trigger] v.jobs[i]).id == v.current->0;
                assert(self@.jobs[i].id == v.current->0);
            }
        }
        id
    }

    /// How many jobs there are.
    pub fn len(&self) -> (n: usize)
        ensures
            n == self@.jobs.len(),
    {
        self.jobs.len()
    }

    /// Whether there is no job.
    pub fn is_empty(&self) -> (r: bool)
        ensures
            r == (self@.jobs.len() == 0),
    {
        self.jobs.len() == 0
    }

    fn place(&self, id: u64) -> (r: Option<usize>)
        ensures
            r is None <==> !known(self@.jobs, id),
            r is Some ==> job_at(self@.jobs, id, r->0 as int),
    {
        for i in 0..self.jobs.len()
            invariant
                self.jobs@ == self@.jobs,
                forall|j: int| #[trigger] job_at(self@.jobs, id, j) ==> j >= i,
        {
            if self.jobs[i].id == id {
                assert(job_at(self@.jobs, id, i as int));
                return Some(i);
            }
        }
        None
    }

    /// Where a job stands.
    pub fn state(&self, id: u64) -> (r: Option<&JobState>)
        requires
            self.wf(),
        ensures
            r is Some <==> known(self@.jobs, id),
            r is Some ==> state_of(self@.jobs, id) == Some(*r->0),
    {
        match self.place(id) {
            Some(i) => {
                proof {
                    lemma_place(self@, id, i as int);
                }
                Some(&self.jobs[i].state)
            },
            None => None,
        }
    }

    /// All jobs, in the order in which they came.
    pub fn list(&self) -> (r: Vec<JobStatus>)
        ensures
            r@ == self@.jobs,
    {
        let mut r: Vec<JobStatus> = Vec::new();
        for i in 0..self.jobs.len()
            invariant
                self.jobs@ == self@.jobs,
                r@.len() == i,
                forall|j: int| 0 <= j < i ==> #[trigger] r@[j] == self@.jobs[j],
        {
            r.push(JobStatus { id: self.jobs[i].id, state: self.jobs[i].state.copy() });
        }
        assert(r@ =~= self@.jobs);
        r
    }

    /// Whether a job is queued or running.
    pub fn has_pending(&self) -> (r: bool)
        ensures
            r == exists|i: int| 0 <= i < self@.jobs.len() && !ended((#[trigger] self@.jobs[i]).state),
    {
        for i in 0..self.jobs.len()
            invariant
                self.jobs@ == self@.jobs,
                forall|j: int| 0 <= j < i ==> ended((#[trigger] self@.jobs[j]).state),
        {
            if !self.jobs[i].state.is_terminal() {
                assert(!ended(self@.jobs[i as int].state));
                return true;
            }
        }
        false
    }

    /// Starts the first queued job, unless a job is running: gives its number and its flag.
    pub fn start_next(&mut self) -> (r: Option<(u64, JobCancel)>)
        requires
            old(self).wf(),
        ensures
            final(self).wf(),
            r is Some <==> old(self)@.current is None && exists|i: int| first_queued(old(self)@.jobs, i),
            r is None ==> final(self)@ == old(self)@,
            r is Some ==> ({
                let id = (r->0).0;
                &&& exists|i: int| #[trigger] first_queued(old(self)@.jobs, i) && old(self)@.jobs[i].id == id
                &&& final(self)@ == (JobsView {
                    jobs: with_state(old(self)@.jobs, id, JobState::Running),
                    current: Some(id),
                    flags: map![id => (r->0).1],
                    ..old(self)@
                })
            }),
    {
        let ghost v = self@;
        if self.current.is_some() {
            return None;
        }
        let n: usize = self.jobs.len();
        for i in 0..n
            invariant
                n == v.jobs.len(),
                self.wf(),
                self@ == v,
                v == old(self)@,
                v.current is None,
                self.jobs@ == v.jobs,
                forall|j: int| 0 <= j < i ==> !((#[trigger] v.jobs[j]).state is Queued),
        {
            let queued = match self.jobs[i].state {
                JobState::Queued => true,
                _ => false,
            };
            if queued {
                let id: u64 = self.jobs[i].id;
                proof {
                    assert(first_queued(v.jobs, i as int));
                    assert(job_at(v.jobs, id, i as int));
                    lemma_with_state(v, id, JobState::Running, i as int);
                }
                self.jobs.set(i, JobStatus { id, state: JobState::Running });
                self.current = Some(id);
                let flag: JobCancel = Arc::new(AtomicBool::new(false));
                self.cancels.insert(id, Arc::clone(&flag));
                proof {
                    assert(self@.jobs =~= with_state(v.jobs, id, JobState::Running));
                    assert(self@.flags =~= map![id => flag]);
                    assert(self@.flags.dom() =~= set![id]);
                    assert(self@.jobs[i as int].id == id);
                    assert forall|j: int| 0 <= j < self@.jobs.len() implies ((#[trigger] self@.jobs[j]).state
                        is Running <==> self@.current == Some(self@.jobs[j].id)) by {
                        if j != i {
                            assert(self@.jobs[j] == v.jobs[j]);
                        }
                    }
                }
                return Some((id, flag));
            }
        }
        None
    }

    /// Ends a running job in the given state. Refused, and without effect, for a state that is no end, for a
    /// job that is not running and for one that there is not.
    pub fn finish(&mut self, id: u64, state: JobState) -> (r: bool)
        requires
            old(self).wf(),
        ensures
            final(self).wf(),
            r == (ended(state) && state_of(old(self)@.jobs, id) == Some(JobState::Running)),
            !r ==> final(self)@ == old(self)@,
            r ==> final(self)@ == (JobsView {
                jobs: with_state(old(self)@.jobs, id, state),
                current: None,
                flags: Map::empty(),
                ..old(self)@
            }),
    {
        let ghost v = self@;
        if !state.is_terminal() {
            return false;
        }
        match self.place(id) {
            None => false,
            Some(i) => {
                proof {
                    lemma_place(v, id, i as int);
                    lemma_with_state(v, id, state, i as int);
                }
                let running = match self.jobs[i].state {
                    JobState::Running => true,
                    _ => false,
                };
                if !running {
                    return false;
                }
                self.jobs.set(i, JobStatus { id, state });
                self.current = None;
                self.cancels.remove(&id);
                proof {
                    assert(v.current == Some(v.jobs[i as int].id));
                    assert(self@.jobs =~= with_state(v.jobs, id, state));
                    assert(self@.flags =~= Map::empty());
                    assert(self@.flags.dom() =~= Set::empty());
                    assert forall|j: int| 0 <= j < self@.jobs.len() implies !((#[trigger] self@.jobs[j]).state
                        is Running) by {
                        if j != i {
                            assert(self@.jobs[j] == v.jobs[j]);
                            assert(!job_at(v.jobs, id, j));
                        }
                    }
                }
                true
            },
        }
    }

    /// Asks for a job to be cancelled: a queued one is, at once; the flag of a running one is raised. Refused
    /// for a job that has ended and for one that there is not.
    pub fn cancel(&mut self, id: u64) -> (r: bool)
        requires
            old(self).wf(),
        ensures
            final(self).wf(),
            r == (known(old(self)@.jobs, id) && !ended(state_of(old(self)@.jobs, id)->0)),
            state_of(old(self)@.jobs, id) == Some(JobState::Queued) ==> final(self)@ == (JobsView {
                jobs: with_state(old(self)@.jobs, id, JobState::Cancelled { frames: 0 }),
                ..old(self)@
            }),
            state_of(old(self)@.jobs, id) != Some(JobState::Queued) ==> final(self)@ == old(self)@,
    {
        let ghost v = self@;
        match self.place(id) {
            None => false,
            Some(i) => {
                proof {
                    lemma_place(v, id, i as int);
                    lemma_with_state(v, id, JobState::Cancelled { frames: 0 }, i as int);
                }
                match self.jobs[i].state {
                    JobState::Running => {
                        match self.cancels.get(&id) {
                            Some(flag) => {
                                raise(flag);
                            },
                            None => {},
                        }
                        true
                    },
                    JobState::Queued => {
                        self.jobs.set(i, JobStatus { id, state: JobState::Cancelled { frames: 0 } });
                        proof {
                            assert(self@.jobs =~= with_state(v.jobs, id, JobState::Cancelled { frames: 0 }));
                            if v.current is Some {
                                let k = choose|k: int|
                                    0 <= k < v.jobs.len() && (#[trigger] v.jobs[k]).id == v.current->0;
                                assert(self@.jobs[k].id == v.current->0);
                            }
                        }
                        true
                    },
                    _ => false,
                }
            },
        }
    }

    /// The flag of a running job: the one that was handed out when it was started.
    pub fn cancel_flag(&self, id: u64) -> (r: Option<JobCancel>)
        requires
            self.wf(),
        ensures
            r is Some <==> self@.current == Some(id),
            r is Some ==> r->0 == self@.flags[id],
    {
        match self.cancels.get(&id) {
            Some(flag) => Some(Arc::clone(flag)),
            None => None,
        }
    }

    fn drop_ended(&mut self, only: Option<u64>)
        requires
            old(self).wf(),
        ensures
            final(self).wf(),
            final(self)@ == (JobsView { jobs: unfinished(old(self)@.jobs, only), ..old(self)@ }),
    {
        let ghost v = self@;
        let mut kept: Vec<JobStatus> = Vec::new();
        assert(v.jobs.take(0) =~= Seq::<JobStatus>::empty());
        for i in 0..self.jobs.len()
            invariant
                self@ == v,
                self.jobs@ == v.jobs,
                kept@ == unfinished(v.jobs.take(i as int), only),
        {
            assert(v.jobs.take(i + 1).drop_last() =~= v.jobs.take(i as int));
            let id: u64 = self.jobs[i].id;
            let drop = self.jobs[i].state.is_terminal() && match only {
                Some(o) => o == id,
                None => true,
            };
            if !drop {
                kept.push(JobStatus { id, state: self.jobs[i].state.copy() });
            }
        }
        assert(v.jobs.take(v.jobs.len() as int) =~= v.jobs);
        self.jobs = kept;
        proof {
            lemma_unfinished(v, v.jobs.len() as int, only);
            let u = unfinished(v.jobs, only);
            if v.current is Some {
                let k = choose|k: int| 0 <= k < v.jobs.len() && (#[trigger] v.jobs[k]).id == v.current->0;
                assert(v.jobs[k].state is Running);
                assert(u.contains(v.jobs[k]));
                let m = choose|m: int| 0 <= m < u.len() && u[m] == v.jobs[k];
                assert(u[m].id == v.current->0);
            }
            assert forall|m: int| 0 <= m < u.len() implies ((#[trigger] u[m]).state is Running <==> v.current
                == Some(u[m].id)) && u[m].id < v.next_id by {
                assert(u.contains(u[m]));
                let k = choose|k: int| 0 <= k < v.jobs.len() && v.jobs[k] == u[m];
                assert(v.jobs[k] == u[m]);
            }
        }
    }

    /// Drops a job that has ended.
    pub fn remove(&mut self, id: u64) -> (r: bool)
        requires
            old(self).wf(),
        ensures
            final(self).wf(),
            r == (known(old(self)@.jobs, id) && ended(state_of(old(self)@.jobs, id)->0)),
            final(self)@ == (JobsView { jobs: unfinished(old(self)@.jobs, Some(id)), ..old(self)@ }),
    {
        let ghost v = self@;
        let before: usize = self.jobs.len();
        self.drop_ended(Some(id));
        proof {
            lemma_unfinished_len(v, v.jobs.len() as int, id);
            assert(v.jobs.take(v.jobs.len() as int) =~= v.jobs);
            if known(v.jobs, id) {
                let i = choose|i: int| job_at(v.jobs, id, i);
                lemma_place(v, id, i);
            }
        }
        self.jobs.len() < before
    }

    /// Drops all jobs that have ended.
    pub fn clear_finished(&mut self)
        requires
            old(self).wf(),
        ensures
            final(self).wf(),
            final(self)@ == (JobsView { jobs: unfinished(old(self)@.jobs, None), ..old(self)@ }),
    {
        self.drop_ended(None);
    }
}

/// Dropping jobs keeps the rest in order, and drops nothing that has not ended.
proof fn lemma_unfinished(v: JobsView, n: int, only: Option<u64>)
    requires
        jobs_ok(v),
        0 <= n <= v.jobs.len(),
    ensures
        ({
            let u = unfinished(v.jobs.take(n), only);
            &&& forall|i: int, j: int| 0 <= i < j < u.len() ==> (#[trigger] u[i]).id < (#[trigger] u[j]).id
            &&& forall|j: JobStatus| #[trigger] u.contains(j) ==> v.jobs.take(n).contains(j)
            &&& forall|k: int| 0 <= k < n && !ended((#[trigger] v.jobs[k]).state) ==> u.contains(v.jobs[k])
        }),
        unfinished(v.jobs.take(v.jobs.len() as int), only) == unfinished(v.jobs, only),
        v.jobs.take(v.jobs.len() as int) == v.jobs,
    decreases n,
{
    assert(v.jobs.take(v.jobs.len() as int) =~= v.jobs);
    let all = v.jobs.take(n);
    let u = unfinished(all, only);
    if n > 0 {
        lemma_unfinished(v, n - 1, only);
        let m = v.jobs.take(n - 1);
        assert(all.drop_last() =~= m);
        let w = unfinished(m, only);
        let last = v.jobs[n - 1];
        assert(all.last() == last);
        assert forall|j: JobStatus| #[trigger] u.contains(j) implies all.contains(j) by {
            let i = choose|i: int| 0 <= i < u.len() && u[i] == j;
            if i < w.len() {
                assert(w[i] == j);
                assert(w.contains(j));
                let k = choose|k: int| 0 <= k < m.len() && m[k] == j;
                assert(all[k] == j);
            } else {
                assert(all[n - 1] == j);
            }
        }
        assert forall|k: int| 0 <= k < n && !ended((#[trigger] v.jobs[k]).state) implies u.contains(v.jobs[k]) by {
            if k < n - 1 {
                assert(w.contains(v.jobs[k]));
                let i = choose|i: int| 0 <= i < w.len() && w[i] == v.jobs[k];
                assert(u[i] == v.jobs[k]);
            } else {
                assert(u[u.len() - 1] == last);
            }
        }
        assert forall|i: int, j: int| 0 <= i < j < u.len() implies (#[trigger] u[i]).id < (#[trigger] u[j]).id by {
            if j == w.len() {
                assert(w.contains(w[i]));
                let k = choose|k: int| 0 <= k < m.len() && m[k] == w[i];
                assert(v.jobs[k] == w[i]);
                assert(u[j] == last);
            }
        }
    }
}

/// Dropping one job makes the list shorter if and only if that job is there and has ended.
proof fn lemma_unfinished_len(v: JobsView, n: int, id: u64)
    requires
        jobs_ok(v),
        0 <= n <= v.jobs.len(),
    ensures
        unfinished(v.jobs.take(n), Some(id)).len() <= n,
        unfinished(v.jobs.take(n), Some(id)).len() < n <==> exists|i: int|
            0 <= i < n && #[trigger] job_at(v.jobs, id, i) && ended(v.jobs[i].state),
    decreases n,
{
    if n > 0 {
        lemma_unfinished_len(v, n - 1, id);
        assert(v.jobs.take(n).drop_last() =~= v.jobs.take(n - 1));
        if ended(v.jobs[n - 1].state) && v.jobs[n - 1].id == id {
            assert(job_at(v.jobs, id, n - 1));
        }
    }
}

/// A job that has ended is never changed again: it cannot be finished, cancelled or started.
pub proof fn law_end_is_final(v: JobsView, id: u64, other: u64, s: JobState)
    requires
        jobs_ok(v),
        known(v.jobs, id),
        ended(state_of(v.jobs, id)->0),
        known(v.jobs, other),
        !ended(state_of(v.jobs, other)->0),
    ensures
        state_of(with_state(v.jobs, other, s), id) == state_of(v.jobs, id),
{
    let i = choose|i: int| job_at(v.jobs, id, i);
    lemma_place(v, id, i);
    let k = choose|k: int| job_at(v.jobs, other, k);
    lemma_place(v, other, k);
    lemma_with_state(v, other, s, k);
    let t = with_state(v.jobs, other, s);
    assert(job_at(t, id, i));
    let m = choose|m: int| job_at(t, id, m);
    assert(job_at(v.jobs, id, m));
}

/// Jobs are started in the order in which they came.
pub proof fn law_first_come_first_served(v: JobsView, i: int, j: int)
    requires
        jobs_ok(v),
        first_queued(v.jobs, i),
        0 <= j < v.jobs.len(),
        v.jobs[j].state is Queued,
    ensures
        v.jobs[i].id <= v.jobs[j].id,
{
    if j < i {
        assert(!(v.jobs[j].state is Queued));
    }
}

/// A job that ends, in whatever way, does not stop the others: the job that is to be started next stays the same.
pub proof fn law_end_does_not_stop_the_queue(v: JobsView, id: u64, s: JobState, i: int)
    requires
        jobs_ok(v),
        v.current == Some(id),
        ended(s),
        first_queued(v.jobs, i),
    ensures
        first_queued(with_state(v.jobs, id, s), i),
        with_state(v.jobs, id, s)[i] == v.jobs[i],
{
    let w = with_state(v.jobs, id, s);
    assert(v.jobs[i].id != id);
    assert forall|j: int| 0 <= j < i implies !((#[trigger] w[j]).state is Queued) by {
        assert(!(v.jobs[j].state is Queued));
    }
}

/// At most one job runs.
pub proof fn law_one_at_a_time(v: JobsView, i: int, j: int)
    requires
        jobs_ok(v),
        0 <= i < v.jobs.len(),
        0 <= j < v.jobs.len(),
        v.jobs[i].state is Running,
        v.jobs[j].state is Running,
    ensures
        i == j,
{
    assert(v.current == Some(v.jobs[i].id) && v.current == Some(v.jobs[j].id));
}

impl Default for JobManager {
    fn default() -> (r: JobManager)
        ensures
            r.wf(),
            r@ == (JobsView { jobs: Seq::empty(), next_id: 0, current: None, flags: Map::empty() }),
    {
        JobManager::new()
    }
}

/// Which states are the end of a job: done, failed and cancelled; not queued, not running.
pub proof fn law_ends(frames: u64, error: String)
    ensures
        !ended(JobState::Queued),
        !ended(JobState::Running),
        ended(JobState::Done { frames }),
        ended(JobState::Failed { error }),
        ended(JobState::Cancelled { frames }),
{
}

/// The state of a job is the one that stands beside its number; a number that stands nowhere has none.
pub proof fn law_state_of(v: JobsView, i: int, id: u64)
    requires
        jobs_ok(v),
        0 <= i < v.jobs.len(),
    ensures
        state_of(v.jobs, v.jobs[i].id) == Some(v.jobs[i].state),
        (forall|j: int| 0 <= j < v.jobs.len() ==> (#[trigger] v.jobs[j]).id != id) ==> state_of(v.jobs, id) is None,
{
    lemma_place(v, v.jobs[i].id, i);
}

/// A change of state changes that of one job, and leaves all numbers and their order as they are.
pub proof fn law_with_state(jobs: Seq<JobStatus>, id: u64, s: JobState, i: int)
    requires
        0 <= i < jobs.len(),
    ensures
        with_state(jobs, id, s).len() == jobs.len(),
        with_state(jobs, id, s)[i].id == jobs[i].id,
        with_state(jobs, id, s)[i].state == (if jobs[i].id == id {
            s
        } else {
            jobs[i].state
        }),
{
}

/// When jobs that have ended are dropped, exactly those are dropped that have ended and are meant, and the others stay in their order. `at`
/// are the places of those that stay.
pub proof fn law_unfinished(jobs: Seq<JobStatus>, only: Option<u64>) -> (at: Seq<int>)
    ensures
        at.len() == unfinished(jobs, only).len(),
        forall|i: int| 0 <= i < at.len() ==> 0 <= #[trigger] at[i] < jobs.len() && unfinished(jobs, only)[i] == jobs[at[i]],
        forall|i: int, j: int| 0 <= i < j < at.len() ==> #[trigger] at[i] < #[trigger] at[j],
        forall|k: int|
            0 <= k < jobs.len() ==> (at.contains(k) <==> (#[trigger] jobs[k]).state is Queued || jobs[k].state is Running || (only is Some
                && only->0 != jobs[k].id)),
    decreases jobs.len(),
{
    if jobs.len() == 0 {
        Seq::empty()
    } else {
        let rest = jobs.drop_last();
        let was = law_unfinished(rest, only);
        let n = jobs.len() - 1;
        let gone = ended(jobs.last().state) && (only is None || only == Some(jobs.last().id));
        let at = if gone {
            was
        } else {
            was.push(n)
        };
        assert forall|i: int| 0 <= i < at.len() implies 0 <= #[trigger] at[i] < jobs.len() && unfinished(jobs, only)[i] == jobs[at[i]] by {
            if i < was.len() {
                assert(was[i] == at[i]);
                assert(rest[was[i]] == jobs[at[i]]);
            }
        }
        assert forall|k: int| 0 <= k < jobs.len() implies (at.contains(k) <==> (#[trigger] jobs[k]).state is Queued || jobs[k].state is Running || (
        only is Some && only->0 != jobs[k].id)) by {
            if k < n {
                assert(rest[k] == jobs[k]);
            }
            if was.contains(k) {
                let i = choose|i: int| 0 <= i < was.len() && was[i] == k;
                assert(at[i] == k);
            }
            if at.contains(k) {
                let i = choose|i: int| 0 <= i < at.len() && at[i] == k;
                if i < was.len() {
                    assert(was[i] == k);
                }
            }
            if k == n && !gone {
                assert(at[at.len() - 1] == k);
            }
        }
        at
    }
}

} // verus!
