//! The dispatcher: the single owner of the crawl state. It applies each message
//! from the workers, hands queued jobs to idle workers, replaces failed workers
//! and decides when the crawl is over. What it asks of the outside world comes
//! back as a list of commands.
use vstd::prelude::*;
use crate::message::{JobStatus, Message, WorkerStatus};

verus! {

/// A known, unfinished URL and its state.
#[derive(Debug)]
pub struct Job {
    pub url: String,
    pub status: JobStatus,
}

/// A live worker as the dispatcher's registry holds it.
#[derive(Debug)]
pub struct Slot {
    pub id: u8,
    pub status: WorkerStatus,
}

/// What the dispatcher asks the surrounding loop to do.
#[derive(Debug)]
pub enum Command {
    /// Send the worker with this id the job of fetching this URL.
    Assign(u8, String),
    /// Drop the worker with this id.
    Remove(u8),
    /// Start a fresh worker with this id.
    Spawn(u8),
}

/// The number of worker ids there are; ids are never reused.
pub const ID_SPACE: u16 = 256;

/// The crawl state.
pub struct Dispatcher {
    /// The seed URL: the crawl root.
    pub root: String,
    /// Every known URL that is not finished, in order of discovery.
    pub jobs: Vec<Job>,
    /// The URLs fetched successfully, in order of completion.
    pub finished: Vec<String>,
    /// The live workers.
    pub workers: Vec<Slot>,
    /// The id the next fresh worker gets.
    pub next_id: u16,
    /// Bytes downloaded so far.
    pub total_bytes: usize,
}

/// Position `i` holds the first queued job.
pub open spec fn is_first_queued(jobs: Seq<Job>, i: int) -> bool {
    &&& 0 <= i < jobs.len()
    &&& jobs[i].status == JobStatus::QUEUED
    &&& forall|j: int| 0 <= j < i ==> jobs[j].status != JobStatus::QUEUED
}

/// No job is queued.
pub open spec fn no_queued(jobs: Seq<Job>) -> bool {
    forall|j: int| 0 <= j < jobs.len() ==> jobs[j].status != JobStatus::QUEUED
}

/// Some command of `cmds` assigns the URL `u`.
pub open spec fn assigns(cmds: Seq<Command>, u: Seq<char>) -> bool {
    exists|i: int| 0 <= i < cmds.len() && #[trigger] cmds[i] is Assign && cmds[i]->Assign_1@ == u
}

/// The job list after handing the first queued job to worker `id`, as `c` reports.
pub open spec fn takes_job(before: Seq<Job>, after: Seq<Job>, id: u8, c: Option<Command>) -> bool {
    match c {
        None => no_queued(before) && after == before,
        Some(cmd) => exists|i: int|
            is_first_queued(before, i) && after == before.update(
                i,
                Job { url: before[i].url, status: JobStatus::INPROGRESS(id) },
            ) && cmd == Command::Assign(id, before[i].url),
    }
}

/// Worker `id` has gone idle and, as `cmds` reports, either found no queued job
/// or took the first one, which is now in progress with it.
pub open spec fn handed(next: Dispatcher, id: u8, cmds: Seq<Command>) -> bool {
    &&& cmds.len() <= 1
    &&& cmds.len() == 0 ==> {
        &&& no_queued(next.jobs@)
        &&& exists|w: int| 0 <= w < next.workers@.len() && #[trigger] next.workers@[w].id == id && next.workers@[w].status is WAITING
    }
    &&& cmds.len() == 1 ==> {
        &&& cmds[0] is Assign
        &&& cmds[0]->Assign_0 == id
        &&& exists|i: int| 0 <= i < next.jobs@.len() && #[trigger] next.jobs@[i].url == cmds[0]->Assign_1
            && next.jobs@[i].status == JobStatus::INPROGRESS(id)
            && forall|j: int| 0 <= j < i ==> next.jobs@[j].status != JobStatus::QUEUED
        &&& exists|w: int| 0 <= w < next.workers@.len() && #[trigger] next.workers@[w].id == id
            && next.workers@[w].status == WorkerStatus::BUSY(cmds[0]->Assign_1)
    }
}

/// The commands an optional one stands for.
pub open spec fn opt_cmds(c: Option<Command>) -> Seq<Command> {
    match c {
        Some(cmd) => seq![cmd],
        None => Seq::empty(),
    }
}

/// Advancing is transitive: finished pages and downloaded bytes never shrink
/// over any stretch of a run, and a URL that has left the queued state stays out
/// of it.
pub proof fn lemma_advances_trans(a: Dispatcher, b: Dispatcher, c: Dispatcher)
    requires
        a.advances(b),
        b.advances(c),
    ensures
        a.advances(c),
{
    assert forall|u: Seq<char>| a.known(u) && !a.queued(u) implies !#[trigger] c.queued(u) by {
        assert(b.known(u));
    }
}

/// Handing out the first queued job takes exactly that job out of the queued state.
proof fn lemma_take_queued(a: Dispatcher, b: Dispatcher, id: u8, c: Option<Command>)
    requires
        a.wf(),
        takes_job(a.jobs@, b.jobs@, id, c),
    ensures
        forall|u: Seq<char>| #[trigger] b.queued(u) <==> a.queued(u) && !assigns(opt_cmds(c), u),
{
    assert forall|u: Seq<char>| #[trigger] b.queued(u) <==> a.queued(u) && !assigns(opt_cmds(c), u) by {
        match c {
            None => {
                if a.queued(u) {
                    let k = choose|k: int| 0 <= k < a.jobs@.len() && #[trigger] a.jobs@[k].url@ == u && a.jobs@[k].status == JobStatus::QUEUED;
                    assert(false);
                }
                if b.queued(u) {
                    let k = choose|k: int| 0 <= k < b.jobs@.len() && #[trigger] b.jobs@[k].url@ == u && b.jobs@[k].status == JobStatus::QUEUED;
                    assert(false);
                }
            },
            Some(cmd) => {
                let i = choose|i: int| is_first_queued(a.jobs@, i) && b.jobs@ == a.jobs@.update(
                    i,
                    Job { url: a.jobs@[i].url, status: JobStatus::INPROGRESS(id) },
                ) && cmd == Command::Assign(id, a.jobs@[i].url);
                assert(opt_cmds(c)[0] == cmd);
                if assigns(opt_cmds(c), u) {
                    assert(u == a.jobs@[i].url@);
                    if b.queued(u) {
                        let k = choose|k: int| 0 <= k < b.jobs@.len() && #[trigger] b.jobs@[k].url@ == u && b.jobs@[k].status == JobStatus::QUEUED;
                        assert(k != i);
                        assert(a.jobs@[k].url@ == a.jobs@[i].url@);
                    }
                } else {
                    assert(u != a.jobs@[i].url@);
                    if a.queued(u) {
                        let k = choose|k: int| 0 <= k < a.jobs@.len() && #[trigger] a.jobs@[k].url@ == u && a.jobs@[k].status == JobStatus::QUEUED;
                        assert(b.jobs@[k].url@ == u);
                    }
                    if b.queued(u) {
                        let k = choose|k: int| 0 <= k < b.jobs@.len() && #[trigger] b.jobs@[k].url@ == u && b.jobs@[k].status == JobStatus::QUEUED;
                        assert(a.jobs@[k].url@ == u);
                    }
                }
            },
        }
    }
}

/// Two steps in a row, the second queueing nothing new, make one step.
proof fn lemma_steps_append(a: Dispatcher, b: Dispatcher, c: Dispatcher, c1: Seq<Command>, c2: Seq<Command>)
    requires
        a.steps_to(b, c1),
        b.steps_to(c, c2),
        forall|u: Seq<char>| #[trigger] b.queued(u) ==> a.queued(u),
    ensures
        a.steps_to(c, c1 + c2),
{
    lemma_advances_trans(a, b, c);
    assert forall|u: Seq<char>| #[trigger] assigns(c1 + c2, u) implies a.queued(u) && c.known(u) && !c.queued(u) by {
        let i = choose|i: int| 0 <= i < (c1 + c2).len() && #[trigger] (c1 + c2)[i] is Assign && (c1 + c2)[i]->Assign_1@ == u;
        if i < c1.len() {
            assert(c1[i] == (c1 + c2)[i]);
            assert(assigns(c1, u));
        } else {
            assert(c2[i - c1.len()] == (c1 + c2)[i]);
            assert(assigns(c2, u));
        }
    }
}

/// A state change that advances and queues nothing new, followed by a step,
/// is a step.
proof fn lemma_steps_compose(a: Dispatcher, b: Dispatcher, c: Dispatcher, cmds: Seq<Command>)
    requires
        a.advances(b),
        forall|u: Seq<char>| #[trigger] b.queued(u) ==> a.queued(u),
        b.steps_to(c, cmds),
    ensures
        a.steps_to(c, cmds),
{
    lemma_advances_trans(a, b, c);
}

/// Over any run of steps, every state advances to every later one: the finished
/// pages and the downloaded bytes never shrink.
pub proof fn lemma_run_advances(states: Seq<Dispatcher>, cmds: Seq<Seq<Command>>, i: int, j: int)
    requires
        states.len() == cmds.len() + 1,
        forall|k: int| 0 <= k < cmds.len() ==> #[trigger] states[k].steps_to(states[k + 1], cmds[k]),
        0 <= i <= j < states.len(),
    ensures
        states[i].advances(states[j]),
        forall|u: Seq<char>| #[trigger] states[i].is_finished(u) ==> states[j].is_finished(u),
        states[i].total_bytes <= states[j].total_bytes,
    decreases j - i,
{
    if i == j {
        assert forall|u: Seq<char>| states[i].known(u) && !states[i].queued(u) implies !#[trigger] states[j].queued(u) by {}
    } else {
        assert(states[i].steps_to(states[i + 1], cmds[i]));
        lemma_run_advances(states, cmds, i + 1, j);
        lemma_advances_trans(states[i], states[i + 1], states[j]);
    }
}

/// No URL is handed to a worker twice in a run: once a step assigns `u`, no
/// later step assigns it again.
pub proof fn lemma_no_duplicate_fetch(states: Seq<Dispatcher>, cmds: Seq<Seq<Command>>, i: int, j: int, u: Seq<char>)
    requires
        states.len() == cmds.len() + 1,
        forall|k: int| 0 <= k < cmds.len() ==> #[trigger] states[k].steps_to(states[k + 1], cmds[k]),
        0 <= i < j < cmds.len(),
        assigns(cmds[i], u),
    ensures
        !assigns(cmds[j], u),
{
    assert(states[i].steps_to(states[i + 1], cmds[i]));
    assert(states[j].steps_to(states[j + 1], cmds[j]));
    lemma_run_advances(states, cmds, i + 1, j);
}

/// Some command of `cmds` hands out a job.
pub open spec fn hands_out(cmds: Seq<Command>) -> bool {
    exists|i: int| 0 <= i < cmds.len() && #[trigger] cmds[i] is Assign
}

/// The number of steps of a run that hand out at least one job.
pub open spec fn assigning_steps(cmds: Seq<Seq<Command>>) -> nat
    decreases cmds.len(),
{
    if cmds.len() == 0 {
        0
    } else {
        assigning_steps(cmds.drop_last()) + if hands_out(cmds.last()) { 1nat } else { 0nat }
    }
}

/// The work of a crawl is bounded by its reachable set: over any run whose known
/// URLs all lie in a finite set `s`, at most `s.len()` steps hand out a job.
pub proof fn lemma_work_bounded(states: Seq<Dispatcher>, cmds: Seq<Seq<Command>>, s: Set<Seq<char>>)
    requires
        states.len() == cmds.len() + 1,
        forall|k: int| 0 <= k < cmds.len() ==> #[trigger] states[k].steps_to(states[k + 1], cmds[k]),
        s.finite(),
        forall|k: int, u: Seq<char>| 0 <= k < states.len() && #[trigger] states[k].known(u) ==> s.contains(u),
    ensures
        assigning_steps(cmds) <= s.len(),
{
    lemma_claimed_grows(states, cmds, s);
    vstd::set_lib::lemma_len_subset(states.last().claimed(), s);
}

/// Each step that hands out a job claims one more URL.
proof fn lemma_claimed_grows(states: Seq<Dispatcher>, cmds: Seq<Seq<Command>>, s: Set<Seq<char>>)
    requires
        states.len() == cmds.len() + 1,
        forall|k: int| 0 <= k < cmds.len() ==> #[trigger] states[k].steps_to(states[k + 1], cmds[k]),
        s.finite(),
        forall|k: int, u: Seq<char>| 0 <= k < states.len() && #[trigger] states[k].known(u) ==> s.contains(u),
    ensures
        states.last().claimed().finite(),
        states.last().claimed().len() >= assigning_steps(cmds),
    decreases cmds.len(),
{
    let last = states.last();
    assert(last.claimed().subset_of(s)) by {
        assert forall|u: Seq<char>| last.claimed().contains(u) implies s.contains(u) by {
            assert(states[states.len() - 1].known(u));
        }
    }
    vstd::set_lib::lemma_len_subset(last.claimed(), s);
    if cmds.len() > 0 {
        let n = cmds.len() - 1;
        let s2 = states.drop_last();
        let c2 = cmds.drop_last();
        assert forall|k: int| 0 <= k < c2.len() implies #[trigger] s2[k].steps_to(s2[k + 1], c2[k]) by {
            assert(states[k].steps_to(states[k + 1], cmds[k]));
        }
        assert forall|k: int, u: Seq<char>| 0 <= k < s2.len() && #[trigger] s2[k].known(u) implies s.contains(u) by {
            assert(states[k].known(u));
        }
        lemma_claimed_grows(s2, c2, s);
        let prev = states[n];
        assert(s2.last() == prev);
        assert(prev.steps_to(last, cmds[n]));
        assert(prev.claimed().subset_of(last.claimed()));
        if hands_out(cmds[n]) {
            let i = choose|i: int| 0 <= i < cmds[n].len() && #[trigger] cmds[n][i] is Assign;
            let u = cmds[n][i]->Assign_1@;
            assert(assigns(cmds[n], u));
            assert(!prev.claimed().contains(u));
            assert(prev.claimed().insert(u).subset_of(last.claimed()));
            vstd::set_lib::lemma_len_subset(prev.claimed().insert(u), last.claimed());
        } else {
            vstd::set_lib::lemma_len_subset(prev.claimed(), last.claimed());
        }
    }
}

/// In every well-formed state, no URL is both a job and finished.
pub proof fn lemma_queue_finished_disjoint(d: Dispatcher, u: Seq<char>)
    requires
        d.wf(),
    ensures
        !(d.in_queue(u) && d.is_finished(u)),
{
    if d.in_queue(u) && d.is_finished(u) {
        let i = choose|i: int| 0 <= i < d.jobs@.len() && #[trigger] d.jobs@[i].url@ == u;
        let k = choose|k: int| 0 <= k < d.finished@.len() && #[trigger] d.finished@[k]@ == u;
        assert(d.jobs@[i].url@ != d.finished@[k]@);
    }
}

/// When the crawl stops after a sweep (every live worker idle, and there is at
/// least one), no job is left queued.
pub proof fn lemma_stop_leaves_nothing_queued(d: Dispatcher)
    requires
        d.workers@.len() > 0,
        no_queued(d.jobs@) || forall|w: int| 0 <= w < d.workers@.len() ==> !(#[trigger] d.workers@[w].status is WAITING),
        d.all_waiting(),
    ensures
        no_queued(d.jobs@),
{
    if !no_queued(d.jobs@) {
        assert(d.workers@[0].status is WAITING);
    }
}

/// After a run of `ERROR` reports, each from a worker that was live when it
/// reported, the registry holds as many workers as before, provided enough
/// fresh ids remain.
pub proof fn lemma_worker_replacement(states: Seq<Dispatcher>, ids: Seq<u8>, cmds: Seq<Seq<Command>>)
    requires
        states.len() == ids.len() + 1,
        cmds.len() == ids.len(),
        forall|k: int| 0 <= k < ids.len() ==> #[trigger] states[k].replaces(states[k + 1], ids[k], cmds[k]),
        forall|k: int| 0 <= k < ids.len() ==> #[trigger] states[k].has_worker(ids[k]),
        states[0].next_id + ids.len() <= ID_SPACE,
    ensures
        states.last().workers@.len() == states[0].workers@.len(),
    decreases ids.len(),
{
    if ids.len() > 0 {
        let n = ids.len() - 1;
        let s2 = states.drop_last();
        let i2 = ids.drop_last();
        let c2 = cmds.drop_last();
        assert forall|k: int| 0 <= k < i2.len() implies #[trigger] s2[k].replaces(s2[k + 1], i2[k], c2[k]) by {
            assert(states[k].replaces(states[k + 1], ids[k], cmds[k]));
        }
        assert forall|k: int| 0 <= k < i2.len() implies #[trigger] s2[k].has_worker(i2[k]) by {
            assert(states[k].has_worker(ids[k]));
        }
        lemma_worker_replacement(s2, i2, c2);
        lemma_next_id_run(states, ids, cmds, n);
        assert(states[n].replaces(states[n + 1], ids[n], cmds[n]));
        assert(states[n].has_worker(ids[n]));
    }
}

/// Along a run of `ERROR` reports, the next id grows by one per report.
proof fn lemma_next_id_run(states: Seq<Dispatcher>, ids: Seq<u8>, cmds: Seq<Seq<Command>>, k: int)
    requires
        states.len() == ids.len() + 1,
        cmds.len() == ids.len(),
        forall|k: int| 0 <= k < ids.len() ==> #[trigger] states[k].replaces(states[k + 1], ids[k], cmds[k]),
        states[0].next_id + ids.len() <= ID_SPACE,
        0 <= k <= ids.len(),
    ensures
        states[k].next_id == states[0].next_id + k,
    decreases k,
{
    if k > 0 {
        let j = k - 1;
        lemma_next_id_run(states, ids, cmds, j);
        assert(states[j].replaces(states[j + 1], ids[j], cmds[j]));
    }
}

impl Dispatcher {
    /// `u` is a job, queued or in progress.
    pub open spec fn in_queue(self, u: Seq<char>) -> bool {
        exists|i: int| 0 <= i < self.jobs@.len() && #[trigger] self.jobs@[i].url@ == u
    }

    /// `u` is a queued job.
    pub open spec fn queued(self, u: Seq<char>) -> bool {
        exists|i: int|
            0 <= i < self.jobs@.len() && #[trigger] self.jobs@[i].url@ == u && self.jobs@[i].status
                == JobStatus::QUEUED
    }

    /// `u` has been fetched successfully.
    pub open spec fn is_finished(self, u: Seq<char>) -> bool {
        exists|k: int| 0 <= k < self.finished@.len() && #[trigger] self.finished@[k]@ == u
    }

    /// `u` is known to the crawl: a job or finished.
    pub open spec fn known(self, u: Seq<char>) -> bool {
        self.in_queue(u) || self.is_finished(u)
    }

    /// The URLs the state has claimed: known and no longer queued.
    pub open spec fn claimed(self) -> Set<Seq<char>> {
        Set::new(|u: Seq<char>| self.known(u) && !self.queued(u))
    }

    /// A worker with this id is live.
    pub open spec fn has_worker(self, id: u8) -> bool {
        exists|w: int| 0 <= w < self.workers@.len() && #[trigger] self.workers@[w].id == id
    }

    /// Every live worker is idle.
    pub open spec fn all_waiting(self) -> bool {
        forall|w: int| 0 <= w < self.workers@.len() ==> #[trigger] self.workers@[w].status is WAITING
    }

    /// The state's invariant: job URLs are distinct, no job is finished, finished
    /// URLs are distinct, worker ids are distinct and below the next id.
    pub open spec fn wf(self) -> bool {
        &&& forall|i: int, j: int|
            0 <= i < j < self.jobs@.len() ==> #[trigger] self.jobs@[i].url@ != #[trigger] self.jobs@[j].url@
        &&& forall|i: int, k: int|
            0 <= i < self.jobs@.len() && 0 <= k < self.finished@.len() ==> #[trigger] self.jobs@[i].url@
                != #[trigger] self.finished@[k]@
        &&& forall|k: int, l: int|
            0 <= k < l < self.finished@.len() ==> #[trigger] self.finished@[k]@ != #[trigger] self.finished@[l]@
        &&& forall|v: int, w: int|
            0 <= v < w < self.workers@.len() ==> #[trigger] self.workers@[v].id != #[trigger] self.workers@[w].id
        &&& forall|w: int| 0 <= w < self.workers@.len() ==> #[trigger] self.workers@[w].id < self.next_id
        &&& self.next_id <= ID_SPACE
    }

    /// What holds between any state of a run and any later one: the root stays,
    /// finished pages and downloaded bytes never shrink, a known URL stays known,
    /// and a URL that has left the queued state never returns to it.
    pub open spec fn advances(self, next: Self) -> bool {
        &&& next.root == self.root
        &&& self.total_bytes <= next.total_bytes
        &&& self.next_id <= next.next_id
        &&& forall|u: Seq<char>| self.is_finished(u) ==> #[trigger] next.is_finished(u)
        &&& forall|u: Seq<char>| self.known(u) ==> #[trigger] next.known(u)
        &&& forall|u: Seq<char>| self.known(u) && !self.queued(u) ==> !#[trigger] next.queued(u)
    }

    /// One step of the dispatcher from `self` to `next` issuing `cmds`: the state
    /// advances, and every URL assigned was queued before and is claimed after.
    pub open spec fn steps_to(self, next: Self, cmds: Seq<Command>) -> bool {
        &&& self.advances(next)
        &&& forall|u: Seq<char>| #[trigger] assigns(cmds, u) ==> self.queued(u) && next.known(u) && !next.queued(u)
    }

    /// The effect of an `ERROR` report from worker `id`: the worker leaves the
    /// registry and, while ids remain, a fresh one with the next id joins it.
    pub open spec fn replaces(self, next: Self, id: u8, cmds: Seq<Command>) -> bool {
        &&& next.jobs == self.jobs
        &&& next.finished == self.finished
        &&& next.total_bytes == self.total_bytes
        &&& self.has_worker(id) ==> !next.has_worker(id)
        &&& forall|v: u8| v != id && self.has_worker(v) ==> #[trigger] next.has_worker(v)
        &&& if self.next_id < ID_SPACE {
            &&& next.next_id == self.next_id + 1
            &&& next.has_worker(self.next_id as u8)
            &&& !self.has_worker(self.next_id as u8)
            &&& next.workers@.len() == self.workers@.len() - (if self.has_worker(id) { 1int } else { 0int }) + 1
            &&& cmds == seq![Command::Remove(id), Command::Spawn(self.next_id as u8)]
        } else {
            &&& next.next_id == self.next_id
            &&& next.workers@.len() == self.workers@.len() - (if self.has_worker(id) { 1int } else { 0int })
            &&& cmds == seq![Command::Remove(id)]
        }
    }

    /// The effect of a `DONE` report for `url` with `bytes` bytes from worker `id`.
    pub open spec fn finishes(self, next: Self, id: u8, url: Seq<char>, bytes: usize, cmds: Seq<Command>) -> bool {
        &&& next.total_bytes == self.total_bytes + bytes
        &&& next.next_id == self.next_id
        &&& forall|u: Seq<char>| #[trigger] next.is_finished(u) <==> self.is_finished(u) || u == url
        &&& forall|u: Seq<char>| #[trigger] next.in_queue(u) <==> self.in_queue(u) && u != url
        &&& forall|u: Seq<char>| #[trigger] next.queued(u) <==> self.queued(u) && u != url && !assigns(cmds, u)
        &&& next.workers@.len() == self.workers@.len()
        &&& forall|v: u8| #[trigger] next.has_worker(v) == self.has_worker(v)
        &&& !self.has_worker(id) ==> cmds.len() == 0 && next.workers == self.workers
        &&& self.has_worker(id) ==> handed(next, id, cmds)
    }

    /// The effect of a `WAITING` report from worker `id`.
    pub open spec fn idles(self, next: Self, id: u8, cmds: Seq<Command>) -> bool {
        &&& next.finished == self.finished
        &&& next.total_bytes == self.total_bytes
        &&& next.next_id == self.next_id
        &&& forall|u: Seq<char>| #[trigger] next.in_queue(u) == self.in_queue(u)
        &&& forall|u: Seq<char>| #[trigger] next.queued(u) <==> self.queued(u) && !assigns(cmds, u)
        &&& next.workers@.len() == self.workers@.len()
        &&& forall|v: u8| #[trigger] next.has_worker(v) == self.has_worker(v)
        &&& !self.has_worker(id) ==> cmds.len() == 0 && next == self
        &&& self.has_worker(id) ==> handed(next, id, cmds)
    }

    /// The effect of a report that `found` was discovered.
    pub open spec fn discovers(self, next: Self, found: String, cmds: Seq<Command>) -> bool {
        &&& cmds.len() == 0
        &&& self.known(found@) ==> next == self
        &&& !self.known(found@) ==> next.jobs@ == self.jobs@.push(Job { url: found, status: JobStatus::QUEUED })
        &&& next.finished == self.finished
        &&& next.workers == self.workers
        &&& next.total_bytes == self.total_bytes
        &&& next.next_id == self.next_id
    }

    /// A fresh crawl: the seed is the one queued job, and workers `0..n` are
    /// registered as idle.
    pub fn new(root: String, n: u8) -> (r: Dispatcher)
        ensures
            r.wf(),
            r.root == root,
            r.jobs@.len() == 1,
            r.jobs@[0].url == root,
            r.jobs@[0].status == JobStatus::QUEUED,
            r.finished@.len() == 0,
            r.workers@.len() == n,
            forall|w: int| 0 <= w < n ==> #[trigger] r.workers@[w].id == w && r.workers@[w].status is WAITING,
            r.next_id == n,
            r.total_bytes == 0,
    {
        let mut jobs: Vec<Job> = Vec::new();
        jobs.push(Job { url: root.clone(), status: JobStatus::QUEUED });
        let mut workers: Vec<Slot> = Vec::new();
        let mut i: u8 = 0;
        while i < n
            invariant
                i <= n,
                workers@.len() == i,
                forall|w: int| 0 <= w < i ==> #[trigger] workers@[w].id == w && workers@[w].status is WAITING,
            decreases n - i,
        {
            workers.push(Slot { id: i, status: WorkerStatus::WAITING });
            i = i + 1;
        }
        Dispatcher { root, jobs, finished: Vec::new(), workers, next_id: n as u16, total_bytes: 0 }
    }

    /// The position of the job for `u`, if there is one.
    fn job_index(&self, u: &String) -> (r: Option<usize>)
        ensures
            match r {
                Some(i) => i < self.jobs@.len() && self.jobs@[i as int].url@ == u@,
                None => !self.in_queue(u@),
            },
    {
        let mut i: usize = 0;
        while i < self.jobs.len()
            invariant
                i <= self.jobs@.len(),
                forall|j: int| 0 <= j < i ==> #[trigger] self.jobs@[j].url@ != u@,
            decreases self.jobs@.len() - i,
        {
            if self.jobs[i].url.eq(u) {
                return Some(i);
            }
            i = i + 1;
        }
        None
    }

    /// Whether `u` has been fetched successfully.
    pub fn finished_contains(&self, u: &String) -> (r: bool)
        ensures
            r == self.is_finished(u@),
    {
        let mut k: usize = 0;
        while k < self.finished.len()
            invariant
                k <= self.finished@.len(),
                forall|j: int| 0 <= j < k ==> #[trigger] self.finished@[j]@ != u@,
            decreases self.finished@.len() - k,
        {
            if self.finished[k].eq(u) {
                return true;
            }
            k = k + 1;
        }
        false
    }

    /// The registry position of the worker with this id, if it is live.
    fn worker_index(&self, id: u8) -> (r: Option<usize>)
        ensures
            match r {
                Some(w) => w < self.workers@.len() && self.workers@[w as int].id == id,
                None => !self.has_worker(id),
            },
    {
        let mut w: usize = 0;
        while w < self.workers.len()
            invariant
                w <= self.workers@.len(),
                forall|v: int| 0 <= v < w ==> #[trigger] self.workers@[v].id != id,
            decreases self.workers@.len() - w,
        {
            if self.workers[w].id == id {
                return Some(w);
            }
            w = w + 1;
        }
        None
    }

    /// Marks worker `w` idle and hands it the first queued job, if there is one.
    fn assign(&mut self, w: usize) -> (r: Option<Command>)
        requires
            old(self).wf(),
            w < old(self).workers@.len(),
        ensures
            final(self).wf(),
            final(self).root == old(self).root,
            final(self).finished == old(self).finished,
            final(self).next_id == old(self).next_id,
            final(self).total_bytes == old(self).total_bytes,
            takes_job(old(self).jobs@, final(self).jobs@, old(self).workers@[w as int].id, r),
            final(self).workers@ == old(self).workers@.update(
                w as int,
                Slot {
                    id: old(self).workers@[w as int].id,
                    status: match r {
                        Some(Command::Assign(_, u)) => WorkerStatus::BUSY(u),
                        _ => WorkerStatus::WAITING,
                    },
                },
            ),
            old(self).steps_to(*final(self), opt_cmds(r)),
    {
        let id = self.workers[w].id;
        match self.first_queued() {
            None => {
                self.workers[w] = Slot { id, status: WorkerStatus::WAITING };
                proof {
                    assert forall|u: Seq<char>| #[trigger] assigns(opt_cmds(None), u) implies false by {}
                }
                None
            },
            Some(i) => {
                let url = self.jobs[i].url.clone();
                let ghost before = self.jobs@;
                self.jobs[i] = Job { url: url.clone(), status: JobStatus::INPROGRESS(id) };
                self.workers[w] = Slot { id, status: WorkerStatus::BUSY(url.clone()) };
                let c = Command::Assign(id, url);
                proof {
                    assert(forall|k: int| 0 <= k < before.len() ==> #[trigger] self.jobs@[k].url == before[k].url);
                    let ghost o = *old(self);
                    let ghost f = *self;
                    assert(o.is_finished(url@) == f.is_finished(url@));
                    assert forall|u: Seq<char>| o.known(u) implies #[trigger] f.known(u) by {
                        if o.in_queue(u) {
                            let k = choose|k: int| 0 <= k < o.jobs@.len() && #[trigger] o.jobs@[k].url@ == u;
                            assert(f.jobs@[k].url@ == u);
                        } else {
                            let k = choose|k: int| 0 <= k < o.finished@.len() && #[trigger] o.finished@[k]@ == u;
                            assert(f.finished@[k]@ == u);
                        }
                    }
                    assert forall|u: Seq<char>| o.known(u) && !o.queued(u) implies !#[trigger] f.queued(u) by {
                        if f.queued(u) {
                            let k = choose|k: int| 0 <= k < f.jobs@.len() && #[trigger] f.jobs@[k].url@ == u && f.jobs@[k].status == JobStatus::QUEUED;
                            assert(k != i);
                            assert(o.jobs@[k].url@ == u);
                        }
                    }
                    assert forall|u: Seq<char>| #[trigger] assigns(opt_cmds(Some(c)), u) implies o.queued(u) && f.known(u) && !f.queued(u) by {
                        assert(opt_cmds(Some(c))[0] == c);
                        assert(u == url@);
                        assert(o.jobs@[i as int].url@ == u);
                        assert(f.jobs@[i as int].url@ == u);
                        if f.queued(u) {
                            let k = choose|k: int| 0 <= k < f.jobs@.len() && #[trigger] f.jobs@[k].url@ == u && f.jobs@[k].status == JobStatus::QUEUED;
                            assert(k != i);
                        }
                    }
                }
                Some(c)
            },
        }
    }

    /// Applies one message from a worker and returns what the surrounding loop
    /// must do about it.
    pub fn handle(&mut self, msg: Message) -> (r: Vec<Command>)
        requires
            old(self).wf(),
            match msg {
                Message::DONE(_, _, b) => old(self).total_bytes + b <= usize::MAX,
                _ => true,
            },
        ensures
            final(self).wf(),
            old(self).steps_to(*final(self), r@),
            final(self).root == old(self).root,
            match msg {
                Message::DONE(id, url, b) => old(self).finishes(*final(self), id, url@, b, r@),
                Message::WAITING(id) => old(self).idles(*final(self), id, r@),
                Message::ERROR(id, _) => old(self).replaces(*final(self), id, r@),
                Message::CONTENT(_, _, found) => old(self).discovers(*final(self), found, r@),
                _ => *final(self) == *old(self) && r@.len() == 0,
            },
    {
        let ghost o = *self;
        match msg {
            Message::DONE(id, url, b) => self.on_done(id, url, b),
            Message::WAITING(id) => self.on_waiting(id),
            Message::ERROR(id, _) => self.on_error(id),
            Message::CONTENT(_, _, found) => self.on_content(found),
            _ => {
                let cmds: Vec<Command> = Vec::new();
                proof {
                    lemma_steps_compose(o, o, o, cmds@);
                }
                cmds
            },
        }
    }

    /// Hands the first queued job to each idle worker in registry order, until
    /// either runs out.
    pub fn sweep(&mut self) -> (r: Vec<Command>)
        requires
            old(self).wf(),
        ensures
            final(self).wf(),
            old(self).steps_to(*final(self), r@),
            final(self).root == old(self).root,
            final(self).finished == old(self).finished,
            final(self).total_bytes == old(self).total_bytes,
            final(self).next_id == old(self).next_id,
            forall|u: Seq<char>| #[trigger] final(self).in_queue(u) == old(self).in_queue(u),
            final(self).workers@.len() == old(self).workers@.len(),
            forall|w: int| 0 <= w < final(self).workers@.len() ==> #[trigger] final(self).workers@[w].id == old(self).workers@[w].id,
            forall|w: int| 0 <= w < final(self).workers@.len() && !(old(self).workers@[w].status is WAITING)
                ==> #[trigger] final(self).workers@[w] == old(self).workers@[w],
            no_queued(final(self).jobs@) || forall|w: int| 0 <= w < final(self).workers@.len()
                ==> !(#[trigger] final(self).workers@[w].status is WAITING),
            forall|i: int| 0 <= i < r@.len() ==> #[trigger] r@[i] is Assign && exists|w: int| 0 <= w < final(self).workers@.len()
                && old(self).workers@[w].status is WAITING && #[trigger] final(self).workers@[w].id == r@[i]->Assign_0
                && final(self).workers@[w].status == WorkerStatus::BUSY(r@[i]->Assign_1),
    {
        let ghost o = *self;
        let mut cmds: Vec<Command> = Vec::new();
        proof {
            lemma_steps_compose(o, o, o, cmds@);
        }
        let mut i: usize = 0;
        while i < self.workers.len()
            invariant
                self.wf(),
                o.steps_to(*self, cmds@),
                forall|u: Seq<char>| #[trigger] self.queued(u) ==> o.queued(u),
                forall|u: Seq<char>| #[trigger] self.in_queue(u) == o.in_queue(u),
                self.root == o.root,
                self.finished == o.finished,
                self.total_bytes == o.total_bytes,
                self.next_id == o.next_id,
                self.workers@.len() == o.workers@.len(),
                i <= self.workers@.len(),
                forall|w: int| 0 <= w < self.workers@.len() ==> #[trigger] self.workers@[w].id == o.workers@[w].id,
                forall|w: int| i <= w < self.workers@.len() ==> #[trigger] self.workers@[w] == o.workers@[w],
                forall|w: int| 0 <= w < i && !(o.workers@[w].status is WAITING) ==> #[trigger] self.workers@[w] == o.workers@[w],
                forall|w: int| 0 <= w < i && #[trigger] self.workers@[w].status is WAITING ==> no_queued(self.jobs@),
                forall|k: int| 0 <= k < cmds@.len() ==> #[trigger] cmds@[k] is Assign && exists|w: int| 0 <= w < i
                    && o.workers@[w].status is WAITING && #[trigger] self.workers@[w].id == cmds@[k]->Assign_0
                    && self.workers@[w].status == WorkerStatus::BUSY(cmds@[k]->Assign_1),
            decreases o.workers@.len() - i,
        {
            let idle = match &self.workers[i].status {
                WorkerStatus::WAITING => true,
                _ => false,
            };
            if idle {
                let ghost mid = *self;
                let ghost before = cmds@;
                let c = self.assign(i);
                proof {
                    let ghost f = *self;
                    assert forall|u: Seq<char>| #[trigger] f.queued(u) implies mid.queued(u) by {
                        let k = choose|k: int| 0 <= k < f.jobs@.len() && #[trigger] f.jobs@[k].url@ == u && f.jobs@[k].status == JobStatus::QUEUED;
                        assert(mid.jobs@[k].url@ == u);
                    }
                    assert forall|u: Seq<char>| #[trigger] f.in_queue(u) == mid.in_queue(u) by {
                        if mid.in_queue(u) {
                            let k = choose|k: int| 0 <= k < mid.jobs@.len() && #[trigger] mid.jobs@[k].url@ == u;
                            assert(f.jobs@[k].url@ == u);
                        }
                        if f.in_queue(u) {
                            let k = choose|k: int| 0 <= k < f.jobs@.len() && #[trigger] f.jobs@[k].url@ == u;
                            assert(mid.jobs@[k].url@ == u);
                        }
                    }
                    lemma_steps_append(o, mid, f, before, opt_cmds(c));
                }
                match c {
                    Some(cmd) => {
                        cmds.push(cmd);
                    },
                    None => {},
                }
                proof {
                    let ghost f = *self;
                    assert(cmds@ == before + opt_cmds(c));
                    assert forall|k: int| 0 <= k < cmds@.len() implies #[trigger] cmds@[k] is Assign && exists|w: int| 0 <= w < i + 1
                        && o.workers@[w].status is WAITING && #[trigger] f.workers@[w].id == cmds@[k]->Assign_0
                        && f.workers@[w].status == WorkerStatus::BUSY(cmds@[k]->Assign_1) by {
                        if k < before.len() {
                            let w = choose|w: int| 0 <= w < i
                                && o.workers@[w].status is WAITING && #[trigger] mid.workers@[w].id == before[k]->Assign_0
                                && mid.workers@[w].status == WorkerStatus::BUSY(before[k]->Assign_1);
                            assert(f.workers@[w] == mid.workers@[w]);
                        } else {
                            assert(f.workers@[i as int].id == cmds@[k]->Assign_0);
                        }
                    }
                    assert forall|w: int| 0 <= w < i + 1 && #[trigger] f.workers@[w].status is WAITING implies no_queued(f.jobs@) by {
                        if w < i {
                            assert(mid.workers@[w] == f.workers@[w]);
                        }
                    }
                }
            }
            i = i + 1;
        }
        cmds
    }

    /// The crawl is over when every live worker is idle.
    pub fn is_complete(&self) -> (r: bool)
        ensures
            r == self.all_waiting(),
    {
        let mut w: usize = 0;
        while w < self.workers.len()
            invariant
                w <= self.workers@.len(),
                forall|v: int| 0 <= v < w ==> #[trigger] self.workers@[v].status is WAITING,
            decreases self.workers@.len() - w,
        {
            match &self.workers[w].status {
                WorkerStatus::WAITING => {},
                _ => {
                    return false;
                },
            }
            w = w + 1;
        }
        true
    }

    /// Applies a `DONE` report: the URL leaves the jobs and joins the finished
    /// pages, its bytes are counted, and the reporting worker, if live, goes idle
    /// and takes the first queued job.
    #[verifier::spinoff_prover]
    #[verifier::rlimit(60)]
    fn on_done(&mut self, id: u8, url: String, bytes: usize) -> (r: Vec<Command>)
        requires
            old(self).wf(),
            old(self).total_bytes + bytes <= usize::MAX,
        ensures
            final(self).wf(),
            old(self).steps_to(*final(self), r@),
            final(self).total_bytes == old(self).total_bytes + bytes,
            final(self).next_id == old(self).next_id,
            forall|u: Seq<char>| #[trigger] final(self).is_finished(u) <==> old(self).is_finished(u) || u == url@,
            forall|u: Seq<char>| #[trigger] final(self).in_queue(u) <==> old(self).in_queue(u) && u != url@,
            forall|u: Seq<char>| #[trigger] final(self).queued(u) <==> old(self).queued(u) && u != url@ && !assigns(r@, u),
            final(self).workers@.len() == old(self).workers@.len(),
            forall|v: u8| #[trigger] final(self).has_worker(v) == old(self).has_worker(v),
            !old(self).has_worker(id) ==> r@.len() == 0 && final(self).workers == old(self).workers,
            old(self).has_worker(id) ==> handed(*final(self), id, r@),
    {
        let ghost o = *self;
        let ghost mut gi: int = o.jobs@.len() as int;
        match self.job_index(&url) {
            Some(i) => {
                self.jobs.remove(i);
                proof {
                    gi = i as int;
                }
            },
            None => {},
        }
        let ghost m1 = *self;
        proof {
            assert forall|k: int| 0 <= k < m1.jobs@.len() implies #[trigger] m1.jobs@[k] == o.jobs@[if k < gi { k } else { k + 1 }] by {}
            assert(gi < o.jobs@.len() ==> o.jobs@[gi].url@ == url@ && m1.jobs@.len() == o.jobs@.len() - 1);
            assert(gi == o.jobs@.len() ==> m1.jobs@ == o.jobs@);
            assert forall|k: int| 0 <= k < m1.jobs@.len() implies #[trigger] m1.jobs@[k].url@ != url@ by {
                let j = if k < gi { k } else { k + 1 };
                assert(m1.jobs@[k] == o.jobs@[j]);
                if gi < o.jobs@.len() {
                    assert(j != gi);
                    if j < gi { assert(o.jobs@[j].url@ != o.jobs@[gi].url@); }
                    else { assert(o.jobs@[gi].url@ != o.jobs@[j].url@); }
                } else {
                    assert(o.jobs@[j].url@ != url@);
                }
            }
            assert forall|u: Seq<char>| #[trigger] m1.in_queue(u) <==> o.in_queue(u) && u != url@ by {
                if m1.in_queue(u) {
                    let k = choose|k: int| 0 <= k < m1.jobs@.len() && #[trigger] m1.jobs@[k].url@ == u;
                    let j = if k < gi { k } else { k + 1 };
                    assert(o.jobs@[j].url@ == u);
                }
                if o.in_queue(u) && u != url@ {
                    let j = choose|j: int| 0 <= j < o.jobs@.len() && #[trigger] o.jobs@[j].url@ == u;
                    assert(j != gi);
                    let k = if j < gi { j } else { j - 1 };
                    assert(m1.jobs@[k] == o.jobs@[j]);
                }
            }
            assert forall|u: Seq<char>| #[trigger] m1.queued(u) <==> o.queued(u) && u != url@ by {
                if m1.queued(u) {
                    let k = choose|k: int| 0 <= k < m1.jobs@.len() && #[trigger] m1.jobs@[k].url@ == u && m1.jobs@[k].status == JobStatus::QUEUED;
                    let j = if k < gi { k } else { k + 1 };
                    assert(o.jobs@[j].url@ == u);
                }
                if o.queued(u) && u != url@ {
                    let j = choose|j: int| 0 <= j < o.jobs@.len() && #[trigger] o.jobs@[j].url@ == u && o.jobs@[j].status == JobStatus::QUEUED;
                    assert(j != gi);
                    let k = if j < gi { j } else { j - 1 };
                    assert(m1.jobs@[k] == o.jobs@[j]);
                }
            }
            assert forall|i: int, j: int| 0 <= i < j < m1.jobs@.len() implies #[trigger] m1.jobs@[i].url@ != #[trigger] m1.jobs@[j].url@ by {
                let a = if i < gi { i } else { i + 1 };
                let b = if j < gi { j } else { j + 1 };
                assert(m1.jobs@[i] == o.jobs@[a]);
                assert(m1.jobs@[j] == o.jobs@[b]);
            }
            assert forall|i: int, k: int| 0 <= i < m1.jobs@.len() && 0 <= k < o.finished@.len() implies #[trigger] m1.jobs@[i].url@ != #[trigger] o.finished@[k]@ by {
                let a = if i < gi { i } else { i + 1 };
                assert(m1.jobs@[i] == o.jobs@[a]);
            }
        }
        let was_finished = self.finished_contains(&url);
        if !was_finished {
            self.finished.push(url.clone());
        }
        self.total_bytes = self.total_bytes + bytes;
        let ghost m = *self;
        proof {
            assert forall|u: Seq<char>| #[trigger] m.is_finished(u) <==> o.is_finished(u) || u == url@ by {
                if m.is_finished(u) && !was_finished {
                    let k = choose|k: int| 0 <= k < m.finished@.len() && #[trigger] m.finished@[k]@ == u;
                    if k < o.finished@.len() { assert(o.finished@[k]@ == u); }
                }
                if o.is_finished(u) {
                    let k = choose|k: int| 0 <= k < o.finished@.len() && #[trigger] o.finished@[k]@ == u;
                    assert(m.finished@[k]@ == u);
                }
                if u == url@ && !was_finished {
                    assert(m.finished@[o.finished@.len() as int]@ == u);
                }
            }
            assert forall|u: Seq<char>| #[trigger] m.in_queue(u) == m1.in_queue(u) by {}
            assert forall|u: Seq<char>| #[trigger] m.queued(u) == m1.queued(u) by {}
            assert forall|i: int, k: int| 0 <= i < m.jobs@.len() && 0 <= k < m.finished@.len() implies #[trigger] m.jobs@[i].url@ != #[trigger] m.finished@[k]@ by {
                if k < o.finished@.len() {
                    assert(m.finished@[k] == o.finished@[k]);
                }
            }
            assert forall|k: int, l: int| 0 <= k < l < m.finished@.len() implies #[trigger] m.finished@[k]@ != #[trigger] m.finished@[l]@ by {
                if !was_finished && l == o.finished@.len() {
                    assert(o.finished@[k]@ != url@);
                }
            }
            assert(m.wf());
            assert forall|u: Seq<char>| o.known(u) implies #[trigger] m.known(u) by {
                if o.in_queue(u) && u != url@ {
                    assert(m1.in_queue(u));
                }
            }
            assert forall|u: Seq<char>| o.known(u) && !o.queued(u) implies !#[trigger] m.queued(u) by {
                if m.queued(u) {
                    assert(m1.queued(u));
                }
            }
            assert(o.steps_to(m, Seq::empty()));
        }
        let mut cmds: Vec<Command> = Vec::new();
        match self.worker_index(id) {
            Some(w) => {
                let c = self.assign(w);
                match c {
                    Some(cmd) => {
                        cmds.push(cmd);
                    },
                    None => {},
                }
                proof {
                    let ghost f = *self;
                    lemma_take_queued(m, f, id, c);
                    assert(cmds@ == opt_cmds(c));
                    assert(cmds@ == opt_cmds(if cmds@.len() == 1 { Some(cmds@[0]) } else { None }));
                    assert(f.workers@[w as int].id == id);
                    if cmds@.len() == 1 {
                        let i = choose|i: int| is_first_queued(m.jobs@, i) && f.jobs@ == m.jobs@.update(
                            i,
                            Job { url: m.jobs@[i].url, status: JobStatus::INPROGRESS(id) },
                        ) && cmds@[0] == Command::Assign(id, m.jobs@[i].url);
                        assert(f.jobs@[i].url == cmds@[0]->Assign_1);
                    }
                    lemma_steps_compose(o, m, f, cmds@);
                    assert forall|u: Seq<char>| #[trigger] f.is_finished(u) == m.is_finished(u) by {}
                    assert forall|u: Seq<char>| #[trigger] f.in_queue(u) == m.in_queue(u) by {
                        if m.in_queue(u) {
                            let k = choose|k: int| 0 <= k < m.jobs@.len() && #[trigger] m.jobs@[k].url@ == u;
                            assert(f.jobs@[k].url@ == u);
                        }
                        if f.in_queue(u) {
                            let k = choose|k: int| 0 <= k < f.jobs@.len() && #[trigger] f.jobs@[k].url@ == u;
                            assert(m.jobs@[k].url@ == u);
                        }
                    }
                    assert forall|v: u8| #[trigger] f.has_worker(v) == m.has_worker(v) by {
                        if m.has_worker(v) {
                            let k = choose|k: int| 0 <= k < m.workers@.len() && #[trigger] m.workers@[k].id == v;
                            assert(f.workers@[k].id == v);
                        }
                        if f.has_worker(v) {
                            let k = choose|k: int| 0 <= k < f.workers@.len() && #[trigger] f.workers@[k].id == v;
                            assert(m.workers@[k].id == v);
                        }
                    }
                }
            },
            None => {
                proof {
                    lemma_steps_compose(o, m, m, cmds@);
                }
            },
        }
        cmds
    }

    /// Applies a `WAITING` report: the worker, if live, goes idle and takes the
    /// first queued job.
    fn on_waiting(&mut self, id: u8) -> (r: Vec<Command>)
        requires
            old(self).wf(),
        ensures
            final(self).wf(),
            old(self).steps_to(*final(self), r@),
            final(self).finished == old(self).finished,
            final(self).total_bytes == old(self).total_bytes,
            final(self).next_id == old(self).next_id,
            forall|u: Seq<char>| #[trigger] final(self).queued(u) <==> old(self).queued(u) && !assigns(r@, u),
            forall|u: Seq<char>| #[trigger] final(self).in_queue(u) == old(self).in_queue(u),
            final(self).workers@.len() == old(self).workers@.len(),
            forall|v: u8| #[trigger] final(self).has_worker(v) == old(self).has_worker(v),
            !old(self).has_worker(id) ==> r@.len() == 0 && *final(self) == *old(self),
            old(self).has_worker(id) ==> handed(*final(self), id, r@),
    {
        let ghost o = *self;
        let mut cmds: Vec<Command> = Vec::new();
        match self.worker_index(id) {
            Some(w) => {
                let c = self.assign(w);
                match c {
                    Some(cmd) => {
                        cmds.push(cmd);
                    },
                    None => {},
                }
                proof {
                    let ghost f = *self;
                    lemma_take_queued(o, f, id, c);
                    assert(cmds@ == opt_cmds(c));
                    assert(cmds@ == opt_cmds(if cmds@.len() == 1 { Some(cmds@[0]) } else { None }));
                    assert(f.workers@[w as int].id == id);
                    if cmds@.len() == 1 {
                        let i = choose|i: int| is_first_queued(o.jobs@, i) && f.jobs@ == o.jobs@.update(
                            i,
                            Job { url: o.jobs@[i].url, status: JobStatus::INPROGRESS(id) },
                        ) && cmds@[0] == Command::Assign(id, o.jobs@[i].url);
                        assert(f.jobs@[i].url == cmds@[0]->Assign_1);
                    }
                    assert forall|u: Seq<char>| #[trigger] f.in_queue(u) == o.in_queue(u) by {
                        if o.in_queue(u) {
                            let k = choose|k: int| 0 <= k < o.jobs@.len() && #[trigger] o.jobs@[k].url@ == u;
                            assert(f.jobs@[k].url@ == u);
                        }
                        if f.in_queue(u) {
                            let k = choose|k: int| 0 <= k < f.jobs@.len() && #[trigger] f.jobs@[k].url@ == u;
                            assert(o.jobs@[k].url@ == u);
                        }
                    }
                    assert forall|v: u8| #[trigger] f.has_worker(v) == o.has_worker(v) by {
                        if o.has_worker(v) {
                            let k = choose|k: int| 0 <= k < o.workers@.len() && #[trigger] o.workers@[k].id == v;
                            assert(f.workers@[k].id == v);
                        }
                        if f.has_worker(v) {
                            let k = choose|k: int| 0 <= k < f.workers@.len() && #[trigger] f.workers@[k].id == v;
                            assert(o.workers@[k].id == v);
                        }
                    }
                }
            },
            None => {
                proof {
                    lemma_steps_compose(o, o, o, cmds@);
                }
            },
        }
        cmds
    }

    /// Applies a discovery report: a URL that is neither finished nor a job yet
    /// becomes a queued job.
    fn on_content(&mut self, found: String) -> (r: Vec<Command>)
        requires
            old(self).wf(),
        ensures
            final(self).wf(),
            old(self).steps_to(*final(self), r@),
            r@.len() == 0,
            old(self).known(found@) ==> *final(self) == *old(self),
            !old(self).known(found@) ==> final(self).jobs@ == old(self).jobs@.push(
                Job { url: found, status: JobStatus::QUEUED },
            ),
            final(self).root == old(self).root,
            final(self).finished == old(self).finished,
            final(self).workers == old(self).workers,
            final(self).total_bytes == old(self).total_bytes,
            final(self).next_id == old(self).next_id,
    {
        let ghost o = *self;
        let cmds: Vec<Command> = Vec::new();
        let seen = self.finished_contains(&found);
        let at = self.job_index(&found);
        if !seen && at.is_none() {
            self.jobs.push(Job { url: found, status: JobStatus::QUEUED });
            proof {
                let ghost f = *self;
                let n = o.jobs@.len() as int;
                assert(f.jobs@[n].url@ == found@);
                assert forall|u: Seq<char>| o.known(u) implies #[trigger] f.known(u) by {
                    if o.in_queue(u) {
                        let k = choose|k: int| 0 <= k < o.jobs@.len() && #[trigger] o.jobs@[k].url@ == u;
                        assert(f.jobs@[k].url@ == u);
                    } else {
                        let k = choose|k: int| 0 <= k < o.finished@.len() && #[trigger] o.finished@[k]@ == u;
                        assert(f.finished@[k]@ == u);
                    }
                }
                assert forall|u: Seq<char>| o.known(u) && !o.queued(u) implies !#[trigger] f.queued(u) by {
                    if f.queued(u) {
                        let k = choose|k: int| 0 <= k < f.jobs@.len() && #[trigger] f.jobs@[k].url@ == u && f.jobs@[k].status == JobStatus::QUEUED;
                        if k < n {
                            assert(o.jobs@[k].url@ == u);
                        } else {
                            assert(u == found@);
                        }
                    }
                }
                assert forall|u: Seq<char>| o.is_finished(u) implies #[trigger] f.is_finished(u) by {
                    let k = choose|k: int| 0 <= k < o.finished@.len() && #[trigger] o.finished@[k]@ == u;
                    assert(f.finished@[k]@ == u);
                }
                assert forall|u: Seq<char>| #[trigger] assigns(cmds@, u) implies false by {}
            }
        } else {
            proof {
                lemma_steps_compose(o, o, o, cmds@);
            }
        }
        cmds
    }

    /// Applies an `ERROR` report: the failed worker leaves the registry and, while
    /// ids remain, a fresh worker with the next id replaces it. The job it held is
    /// not put back in the queue.
    fn on_error(&mut self, id: u8) -> (r: Vec<Command>)
        requires
            old(self).wf(),
        ensures
            final(self).wf(),
            old(self).steps_to(*final(self), r@),
            old(self).replaces(*final(self), id, r@),
            final(self).root == old(self).root,
    {
        let ghost o = *self;
        let ghost mut gw: int = o.workers@.len() as int;
        let mut cmds: Vec<Command> = Vec::new();
        match self.worker_index(id) {
            Some(w) => {
                self.workers.remove(w);
                proof {
                    gw = w as int;
                }
            },
            None => {},
        }
        let ghost m = *self;
        proof {
            assert forall|k: int| 0 <= k < m.workers@.len() implies #[trigger] m.workers@[k] == o.workers@[if k < gw { k } else { k + 1 }] by {}
            assert(gw < o.workers@.len() ==> o.workers@[gw].id == id && m.workers@.len() == o.workers@.len() - 1 && o.has_worker(id));
            assert(gw == o.workers@.len() ==> m.workers@ == o.workers@ && !o.has_worker(id));
            assert forall|v: int, x: int| 0 <= v < x < m.workers@.len() implies #[trigger] m.workers@[v].id != #[trigger] m.workers@[x].id by {
                let a = if v < gw { v } else { v + 1 };
                let b = if x < gw { x } else { x + 1 };
                assert(m.workers@[v] == o.workers@[a]);
                assert(m.workers@[x] == o.workers@[b]);
            }
            assert forall|x: int| 0 <= x < m.workers@.len() implies #[trigger] m.workers@[x].id < m.next_id by {
                let b = if x < gw { x } else { x + 1 };
                assert(m.workers@[x] == o.workers@[b]);
            }
            assert(o.has_worker(id) ==> !m.has_worker(id)) by {
                if o.has_worker(id) && m.has_worker(id) {
                    let x = choose|x: int| 0 <= x < m.workers@.len() && #[trigger] m.workers@[x].id == id;
                    let b = if x < gw { x } else { x + 1 };
                    assert(m.workers@[x] == o.workers@[b]);
                    if b < gw { assert(o.workers@[b].id != o.workers@[gw].id); }
                    else { assert(o.workers@[gw].id != o.workers@[b].id); }
                }
            }
            assert forall|v: u8| v != id && o.has_worker(v) implies #[trigger] m.has_worker(v) by {
                let j = choose|j: int| 0 <= j < o.workers@.len() && #[trigger] o.workers@[j].id == v;
                assert(j != gw);
                let k = if j < gw { j } else { j - 1 };
                assert(m.workers@[k] == o.workers@[j]);
            }
            assert(o.next_id < ID_SPACE ==> !o.has_worker(o.next_id as u8)) by {
                if o.next_id < ID_SPACE && o.has_worker(o.next_id as u8) {
                    let j = choose|j: int| 0 <= j < o.workers@.len() && #[trigger] o.workers@[j].id == o.next_id as u8;
                }
            }
            assert(o.next_id < ID_SPACE ==> !m.has_worker(o.next_id as u8)) by {
                if o.next_id < ID_SPACE && m.has_worker(o.next_id as u8) {
                    let x = choose|x: int| 0 <= x < m.workers@.len() && #[trigger] m.workers@[x].id == o.next_id as u8;
                }
            }
        }
        cmds.push(Command::Remove(id));
        if self.next_id < ID_SPACE {
            let fresh = self.next_id as u8;
            self.workers.push(Slot { id: fresh, status: WorkerStatus::WAITING });
            self.next_id = self.next_id + 1;
            cmds.push(Command::Spawn(fresh));
            proof {
                let ghost f = *self;
                let n = m.workers@.len() as int;
                assert(f.workers@[n].id == fresh);
                assert forall|k: int| 0 <= k < n implies #[trigger] f.workers@[k] == m.workers@[k] by {}
                assert(o.has_worker(id) ==> !f.has_worker(id)) by {
                    if o.has_worker(id) && f.has_worker(id) {
                        let x = choose|x: int| 0 <= x < f.workers@.len() && #[trigger] f.workers@[x].id == id;
                        let j = choose|j: int| 0 <= j < o.workers@.len() && #[trigger] o.workers@[j].id == id;
                        assert(x < n);
                        assert(m.workers@[x].id == id);
                    }
                }
                assert forall|v: u8| v != id && o.has_worker(v) implies #[trigger] f.has_worker(v) by {
                    assert(m.has_worker(v));
                    let k = choose|k: int| 0 <= k < m.workers@.len() && #[trigger] m.workers@[k].id == v;
                    assert(f.workers@[k].id == v);
                }
                assert forall|v: int, x: int| 0 <= v < x < f.workers@.len() implies #[trigger] f.workers@[v].id != #[trigger] f.workers@[x].id by {
                    if x == n {
                        assert(m.workers@[v].id < m.next_id);
                    } else {
                        assert(m.workers@[v].id != m.workers@[x].id);
                    }
                }
                assert forall|x: int| 0 <= x < f.workers@.len() implies #[trigger] f.workers@[x].id < f.next_id by {
                    if x < n {
                        assert(m.workers@[x].id < m.next_id);
                    }
                }
                assert(f.has_worker(o.next_id as u8));
                assert(cmds@ == seq![Command::Remove(id), Command::Spawn(o.next_id as u8)]);
            }
        } else {
            proof {
                assert(cmds@ == seq![Command::Remove(id)]);
            }
        }
        proof {
            let ghost f = *self;
            assert forall|u: Seq<char>| o.known(u) implies #[trigger] f.known(u) by {
                if o.in_queue(u) {
                    let k = choose|k: int| 0 <= k < o.jobs@.len() && #[trigger] o.jobs@[k].url@ == u;
                    assert(f.jobs@[k].url@ == u);
                } else {
                    let k = choose|k: int| 0 <= k < o.finished@.len() && #[trigger] o.finished@[k]@ == u;
                    assert(f.finished@[k]@ == u);
                }
            }
            assert forall|u: Seq<char>| o.known(u) && !o.queued(u) implies !#[trigger] f.queued(u) by {
                if f.queued(u) {
                    let k = choose|k: int| 0 <= k < f.jobs@.len() && #[trigger] f.jobs@[k].url@ == u && f.jobs@[k].status == JobStatus::QUEUED;
                    assert(o.jobs@[k].url@ == u);
                }
            }
            assert forall|u: Seq<char>| o.is_finished(u) implies #[trigger] f.is_finished(u) by {
                let k = choose|k: int| 0 <= k < o.finished@.len() && #[trigger] o.finished@[k]@ == u;
                assert(f.finished@[k]@ == u);
            }
            assert forall|u: Seq<char>| #[trigger] assigns(cmds@, u) implies false by {
                let i = choose|i: int| 0 <= i < cmds@.len() && #[trigger] cmds@[i] is Assign && cmds@[i]->Assign_1@ == u;
            }
        }
        cmds
    }

    /// The position of the first queued job, if any.
    fn first_queued(&self) -> (r: Option<usize>)
        ensures
            match r {
                Some(i) => is_first_queued(self.jobs@, i as int),
                None => no_queued(self.jobs@),
            },
    {
        let mut i: usize = 0;
        while i < self.jobs.len()
            invariant
                i <= self.jobs@.len(),
                forall|j: int| 0 <= j < i ==> self.jobs@[j].status != JobStatus::QUEUED,
            decreases self.jobs@.len() - i,
        {
            if self.jobs[i].status == JobStatus::QUEUED {
                return Some(i);
            }
            i = i + 1;
        }
        None
    }
}

} // verus!
