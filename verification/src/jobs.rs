//! The table of background jobs: numbering, status lines, completion
//! notices and clean-up.

use vstd::prelude::*;
use vstd::set_lib::{set_int_range, lemma_int_range, lemma_len_subset};
use crate::text::{decimal, decimal_string, pad_right, push_padded_right, push_char, views_of};

verus! {

#[derive(Debug, Clone, Copy, PartialEq, Eq, Structural)]
pub enum JobStatus {
    Running,
    Done,
}

/// A background job. The process handle itself stays with the caller;
/// the table records what the shell reports about it.
pub struct Job {
    pub id: usize,
    pub pid: u32,
    pub full_cmd: String,
    pub status: JobStatus,
    pub notified: bool,
}

pub struct JobTable {
    pub jobs: Vec<Job>,
    pub next_id: usize,
}

/// The status word shown in a job line.
pub open spec fn status_word(s: JobStatus) -> Seq<char> {
    match s {
        JobStatus::Running => "Running"@,
        JobStatus::Done => "Done"@,
    }
}

/// What follows the command in a job line: ` &` while the job runs.
pub open spec fn status_suffix(s: JobStatus) -> Seq<char> {
    match s {
        JobStatus::Running => " &"@,
        JobStatus::Done => ""@,
    }
}

/// A job line: `[id]symbol` in a field of 6, the status in a field of 24,
/// then the command and, for a running job, ` &`.
pub open spec fn job_line(id: nat, symbol: char, status: JobStatus, cmd: Seq<char>) -> Seq<char> {
    pad_right(seq!['['] + decimal(id) + seq![']', symbol], 6) + pad_right(status_word(status), 24)
        + cmd + status_suffix(status)
}

/// The marker after a job's number: `+` for the newest job, `-` for the
/// one before it, a space for the others.
pub open spec fn job_symbol(i: int, len: int) -> char {
    if i + 1 == len {
        '+'
    } else if i + 2 == len {
        '-'
    } else {
        ' '
    }
}

fn symbol_for(i: usize, len: usize) -> (c: char)
    requires
        i < len,
    ensures
        c == job_symbol(i as int, len as int),
{
    if i + 1 == len {
        '+'
    } else if i + 2 == len {
        '-'
    } else {
        ' '
    }
}

impl Job {
    pub fn format_line(&self, symbol: char) -> (r: String)
        ensures
            r@ == job_line(self.id as nat, symbol, self.status, self.full_cmd@),
    {
        let mut marker = String::new();
        push_char(&mut marker, '[');
        marker.append(decimal_string(self.id).as_str());
        push_char(&mut marker, ']');
        push_char(&mut marker, symbol);
        assert(marker@ =~= seq!['['] + decimal(self.id as nat) + seq![']', symbol]);
        let mut line = String::new();
        push_padded_right(&mut line, marker.as_str(), 6);
        let (status_str, suffix) = match self.status {
            JobStatus::Running => ("Running", " &"),
            JobStatus::Done => ("Done", ""),
        };
        push_padded_right(&mut line, status_str, 24);
        line.append(self.full_cmd.as_str());
        line.append(suffix);
        assert(line@ =~= job_line(self.id as nat, symbol, self.status, self.full_cmd@));
        line
    }
}

/// Whether some job carries the number `id`.
pub open spec fn id_in_use(jobs: Seq<Job>, id: int) -> bool {
    exists|k: int| 0 <= k < jobs.len() && jobs[k].id == id
}

/// Whether no two jobs carry the same number.
pub open spec fn ids_distinct(jobs: Seq<Job>) -> bool {
    forall|a: int, b: int| 0 <= a < b < jobs.len() ==> jobs[a].id != jobs[b].id
}

/// The least positive number that no job carries.
pub open spec fn is_least_free_id(jobs: Seq<Job>, id: int) -> bool {
    &&& id >= 1
    &&& !id_in_use(jobs, id)
    &&& forall|k: int| 1 <= k < id ==> id_in_use(jobs, k)
}

/// The numbers carried by the jobs.
spec fn id_set(jobs: Seq<Job>) -> Set<int>
    decreases jobs.len(),
{
    if jobs.len() == 0 {
        Set::empty()
    } else {
        id_set(jobs.drop_last()).insert(jobs.last().id as int)
    }
}

proof fn lemma_id_set(jobs: Seq<Job>)
    ensures
        id_set(jobs).finite(),
        id_set(jobs).len() <= jobs.len(),
        forall|x: int| id_set(jobs).contains(x) <==> id_in_use(jobs, x),
    decreases jobs.len(),
{
    if jobs.len() > 0 {
        let d = jobs.drop_last();
        lemma_id_set(d);
        assert forall|x: int| id_set(jobs).contains(x) <==> id_in_use(jobs, x) by {
            if id_in_use(jobs, x) {
                let k = choose|k: int| 0 <= k < jobs.len() && jobs[k].id == x;
                if k < jobs.len() - 1 {
                    assert(d[k].id == x);
                }
            }
            if id_in_use(d, x) {
                let k = choose|k: int| 0 <= k < d.len() && d[k].id == x;
                assert(jobs[k].id == x);
            }
        }
    }
}

/// If the numbers `1..=m` are all in use, there are at least `m` jobs.
proof fn lemma_ids_pigeonhole(jobs: Seq<Job>, m: int)
    requires
        m >= 0,
        forall|k: int| 1 <= k <= m ==> id_in_use(jobs, k),
    ensures
        m <= jobs.len(),
{
    lemma_id_set(jobs);
    lemma_int_range(1, m + 1);
    assert forall|x: int| set_int_range(1, m + 1).contains(x) implies id_set(jobs).contains(x) by {
        assert(1 <= x <= m);
        assert(id_in_use(jobs, x));
    }
    assert(set_int_range(1, m + 1).subset_of(id_set(jobs)));
    lemma_len_subset(set_int_range(1, m + 1), id_set(jobs));
}

/// The jobs after one status check: a running job whose process has
/// exited (`exited[i]`) becomes done.
pub open spec fn with_statuses(jobs: Seq<Job>, exited: Seq<bool>) -> Seq<Job> {
    Seq::new(
        jobs.len(),
        |i: int|
            if jobs[i].status == JobStatus::Running && exited[i] {
                Job { status: JobStatus::Done, ..jobs[i] }
            } else {
                jobs[i]
            },
    )
}

/// The lines announcing the finished jobs not announced yet, in table order.
pub open spec fn pending_notices(jobs: Seq<Job>, len: int) -> Seq<Seq<char>>
    decreases jobs.len(),
{
    if jobs.len() == 0 {
        Seq::empty()
    } else {
        let prev = pending_notices(jobs.drop_last(), len);
        let j = jobs.last();
        if j.status == JobStatus::Done && !j.notified {
            prev.push(job_line(j.id as nat, job_symbol(jobs.len() - 1, len), j.status, j.full_cmd@))
        } else {
            prev
        }
    }
}

/// The jobs with every finished job marked as announced.
pub open spec fn mark_notified(jobs: Seq<Job>) -> Seq<Job> {
    Seq::new(
        jobs.len(),
        |i: int|
            if jobs[i].status == JobStatus::Done {
                Job { notified: true, ..jobs[i] }
            } else {
                jobs[i]
            },
    )
}

/// The jobs still running, in order.
pub open spec fn running_jobs(jobs: Seq<Job>) -> Seq<Job>
    decreases jobs.len(),
{
    if jobs.len() == 0 {
        Seq::empty()
    } else {
        let prev = running_jobs(jobs.drop_last());
        if jobs.last().status == JobStatus::Running {
            prev.push(jobs.last())
        } else {
            prev
        }
    }
}

/// The listing of `jobs`: one line per job, each followed by a newline.
pub open spec fn listing(jobs: Seq<Job>, len: int) -> Seq<char>
    decreases jobs.len(),
{
    if jobs.len() == 0 {
        Seq::empty()
    } else {
        let j = jobs.last();
        listing(jobs.drop_last(), len) + job_line(
            j.id as nat,
            job_symbol(jobs.len() - 1, len),
            j.status,
            j.full_cmd@,
        ) + seq!['\n']
    }
}

proof fn lemma_running_jobs_len(jobs: Seq<Job>)
    ensures
        running_jobs(jobs).len() <= jobs.len(),
        forall|k: int|
            0 <= k < running_jobs(jobs).len() ==> (#[trigger] running_jobs(jobs)[k]).status
                == JobStatus::Running,
    decreases jobs.len(),
{
    if jobs.len() > 0 {
        lemma_running_jobs_len(jobs.drop_last());
    }
}

/// Adding a job under the least free number keeps job numbers distinct.
pub proof fn law_add_keeps_ids_distinct(jobs: Seq<Job>, job: Job)
    requires
        ids_distinct(jobs),
        is_least_free_id(jobs, job.id as int),
    ensures
        ids_distinct(jobs.push(job)),
{
    assert forall|a: int, b: int| 0 <= a < b < jobs.push(job).len() implies jobs.push(job)[a].id
        != jobs.push(job)[b].id by {
        if b == jobs.len() {
            assert(jobs[a].id == jobs.push(job)[a].id);
        }
    }
}

/// A finished job is announced once: once the notices are taken, there
/// are none left to take.
pub proof fn law_notices_are_given_once(jobs: Seq<Job>, len: int)
    ensures
        pending_notices(mark_notified(jobs), len) == Seq::<Seq<char>>::empty(),
    decreases jobs.len(),
{
    if jobs.len() > 0 {
        law_notices_are_given_once(jobs.drop_last(), len);
        assert(mark_notified(jobs).drop_last() =~= mark_notified(jobs.drop_last()));
    }
}

proof fn lemma_running_jobs_from(jobs: Seq<Job>)
    requires
        ids_distinct(jobs),
    ensures
        ids_distinct(running_jobs(jobs)),
        forall|k: int|
            0 <= k < running_jobs(jobs).len() ==> exists|m: int|
                0 <= m < jobs.len() && jobs[m] == #[trigger] running_jobs(jobs)[k],
    decreases jobs.len(),
{
    if jobs.len() > 0 {
        let d = jobs.drop_last();
        assert(ids_distinct(d));
        lemma_running_jobs_from(d);
        let prev = running_jobs(d);
        let r = running_jobs(jobs);
        assert forall|k: int| 0 <= k < r.len() implies exists|m: int|
            0 <= m < jobs.len() && jobs[m] == #[trigger] r[k] by {
            if k < prev.len() {
                let m = choose|m: int| 0 <= m < d.len() && d[m] == prev[k];
                assert(jobs[m] == r[k]);
            } else {
                assert(jobs[jobs.len() - 1] == r[k]);
            }
        }
        if jobs.last().status == JobStatus::Running {
            assert forall|a: int, b: int| 0 <= a < b < r.len() implies r[a].id != r[b].id by {
                if b == r.len() - 1 {
                    let m = choose|m: int| 0 <= m < d.len() && d[m] == prev[a];
                    assert(jobs[m] == r[a]);
                }
            }
        }
    }
}

/// Job numbers stay distinct through every change the table makes: status
/// updates, announcements and the removal of finished jobs.
pub proof fn law_table_keeps_ids_distinct(jobs: Seq<Job>, exited: Seq<bool>)
    requires
        ids_distinct(jobs),
        exited.len() == jobs.len(),
    ensures
        ids_distinct(with_statuses(jobs, exited)),
        ids_distinct(mark_notified(jobs)),
        ids_distinct(running_jobs(jobs)),
{
    lemma_running_jobs_from(jobs);
}

impl JobTable {
    pub fn new() -> (r: JobTable)
        ensures
            r.jobs@.len() == 0,
            r.next_id == 1,
    {
        JobTable { jobs: Vec::new(), next_id: 1 }
    }

    /// The least positive job number not in use.
    pub fn next_available_id(&self) -> (r: usize)
        requires
            self.jobs@.len() < usize::MAX,
        ensures
            is_least_free_id(self.jobs@, r as int),
    {
        let mut id: usize = 1;
        loop
            invariant
                self.jobs@.len() < usize::MAX,
                1 <= id <= self.jobs@.len() + 1,
                forall|k: int| 1 <= k < id ==> id_in_use(self.jobs@, k),
            decreases self.jobs@.len() + 1 - id,
        {
            let mut found = false;
            let mut k: usize = 0;
            while k < self.jobs.len()
                invariant
                    k <= self.jobs@.len(),
                    found <==> exists|m: int| 0 <= m < k && self.jobs@[m].id == id,
                decreases self.jobs.len() - k,
            {
                if self.jobs[k].id == id {
                    found = true;
                }
                k = k + 1;
            }
            if !found {
                return id;
            }
            proof {
                assert(id_in_use(self.jobs@, id as int));
                lemma_ids_pigeonhole(self.jobs@, id as int);
            }
            id = id + 1;
        }
    }

    /// Records a new running job for the process `pid` under the least free
    /// number, and returns that number.
    pub fn add(&mut self, full_cmd: String, pid: u32) -> (r: usize)
        requires
            old(self).jobs@.len() < usize::MAX,
            old(self).next_id < usize::MAX,
        ensures
            is_least_free_id(old(self).jobs@, r as int),
            final(self).jobs@ == old(self).jobs@.push(
                Job { id: r, pid, full_cmd, status: JobStatus::Running, notified: false },
            ),
            final(self).next_id == old(self).next_id + 1,
    {
        let curr_id = self.next_available_id();
        let curr_job = Job {
            id: curr_id,
            pid,
            full_cmd,
            status: JobStatus::Running,
            notified: false,
        };
        self.jobs.push(curr_job);
        self.next_id = self.next_id + 1;
        curr_id
    }

    /// Marks as done each running job whose process has exited;
    /// `exited[i]` tells whether the process of the `i`-th job has.
    pub fn update_statuses(&mut self, exited: &[bool])
        requires
            exited@.len() == old(self).jobs@.len(),
        ensures
            final(self).jobs@ == with_statuses(old(self).jobs@, exited@),
            final(self).next_id == old(self).next_id,
    {
        let mut i: usize = 0;
        while i < self.jobs.len()
            invariant
                exited@.len() == old(self).jobs@.len(),
                self.jobs@.len() == old(self).jobs@.len(),
                self.next_id == old(self).next_id,
                i <= self.jobs@.len(),
                forall|k: int|
                    0 <= k < i ==> self.jobs@[k] == with_statuses(old(self).jobs@, exited@)[k],
                forall|k: int| i <= k < self.jobs@.len() ==> self.jobs@[k] == old(self).jobs@[k],
            decreases self.jobs.len() - i,
        {
            if self.jobs[i].status == JobStatus::Running && exited[i] {
                self.jobs[i].status = JobStatus::Done;
            }
            i = i + 1;
        }
        assert(self.jobs@ =~= with_statuses(old(self).jobs@, exited@));
    }

    /// The lines to print announcing each finished job not announced yet;
    /// those jobs are marked as announced.
    pub fn print_notifications(&mut self) -> (r: Vec<String>)
        ensures
            views_of(r@) == pending_notices(old(self).jobs@, old(self).jobs@.len() as int),
            final(self).jobs@ == mark_notified(old(self).jobs@),
            final(self).next_id == old(self).next_id,
    {
        let len = self.jobs.len();
        let mut notes: Vec<String> = Vec::new();
        let mut i: usize = 0;
        while i < len
            invariant
                len == old(self).jobs@.len(),
                self.jobs@.len() == len,
                self.next_id == old(self).next_id,
                i <= len,
                views_of(notes@) == pending_notices(old(self).jobs@.take(i as int), len as int),
                forall|k: int| 0 <= k < i ==> self.jobs@[k] == mark_notified(old(self).jobs@)[k],
                forall|k: int| i <= k < len ==> self.jobs@[k] == old(self).jobs@[k],
            decreases len - i,
        {
            let ghost n0 = notes@;
            proof {
                let t = old(self).jobs@.take(i + 1);
                assert(t.drop_last() =~= old(self).jobs@.take(i as int));
                assert(t.last() == old(self).jobs@[i as int]);
            }
            if self.jobs[i].status == JobStatus::Done && !self.jobs[i].notified {
                let symbol = symbol_for(i, len);
                let line = self.jobs[i].format_line(symbol);
                notes.push(line);
                assert(views_of(notes@) =~= views_of(n0).push(line@));
            }
            if self.jobs[i].status == JobStatus::Done {
                self.jobs[i].notified = true;
            }
            i = i + 1;
        }
        assert(old(self).jobs@.take(len as int) =~= old(self).jobs@);
        assert(self.jobs@ =~= mark_notified(old(self).jobs@));
        notes
    }

    /// Drops every finished job, keeping the others in order.
    pub fn remove_done(&mut self)
        ensures
            final(self).jobs@ == running_jobs(old(self).jobs@),
            final(self).next_id == old(self).next_id,
    {
        let mut all: Vec<Job> = Vec::new();
        std::mem::swap(&mut all, &mut self.jobs);
        let ghost original = all@;
        let mut kept: Vec<Job> = Vec::new();
        let mut rest: Vec<Job> = Vec::new();
        // Take the jobs out back to front, then put the running ones back in order.
        while all.len() > 0
            invariant
                original.len() == all@.len() + rest@.len(),
                all@ == original.take(all@.len() as int),
                forall|k: int|
                    0 <= k < rest@.len() ==> rest@[k] == original[original.len() - 1 - k],
            decreases all.len(),
        {
            let j = all.pop().unwrap();
            rest.push(j);
            assert(all@ =~= original.take(all@.len() as int));
        }
        let ghost n = original.len();
        while rest.len() > 0
            invariant
                n == original.len(),
                rest@.len() <= n,
                forall|k: int| 0 <= k < rest@.len() ==> rest@[k] == original[n - 1 - k],
                kept@ == running_jobs(original.take(n - rest@.len())),
            decreases rest.len(),
        {
            let j = rest.pop().unwrap();
            proof {
                let t = original.take(n - rest@.len());
                assert(t.drop_last() =~= original.take(n - rest@.len() - 1));
                assert(t.last() == j);
            }
            if j.status == JobStatus::Running {
                kept.push(j);
            }
        }
        assert(original.take(n as int) =~= original);
        self.jobs = kept;
    }

    /// One round of job bookkeeping: update the statuses from `exited`,
    /// return the notices of newly finished jobs, and drop finished jobs.
    pub fn poll(&mut self, exited: &[bool]) -> (r: Vec<String>)
        requires
            exited@.len() == old(self).jobs@.len(),
        ensures
            views_of(r@) == pending_notices(
                with_statuses(old(self).jobs@, exited@),
                old(self).jobs@.len() as int,
            ),
            final(self).jobs@ == running_jobs(mark_notified(with_statuses(old(self).jobs@, exited@))),
            final(self).jobs@.len() <= old(self).jobs@.len(),
            forall|k: int|
                0 <= k < final(self).jobs@.len() ==> (#[trigger] final(self).jobs@[k]).status
                    == JobStatus::Running,
            final(self).next_id == old(self).next_id,
    {
        self.update_statuses(exited);
        let notes = self.print_notifications();
        self.remove_done();
        proof {
            lemma_running_jobs_len(mark_notified(with_statuses(old(self).jobs@, exited@)));
        }
        notes
    }
}

} // verus!
