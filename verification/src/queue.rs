//! The download job queue: an ordered collection of jobs with one-directional
//! status transitions, FIFO worker scheduling, and promotion of completed
//! jobs into history entries.
//!
//! The worker loop around an external process is driven through
//! `take_next_queued` (claim the first queued job and mark it running) and
//! `finish_download` (record the process's outcome); the display thread
//! sweeps finished jobs out with `promote_completed`.

use vstd::prelude::*;

verus! {

/// Lifecycle of one download job. Transitions are one-directional:
/// `Queued -> Downloading -> Completed | Failed`.
pub enum DownloadStatus {
    Queued,
    Downloading,
    Completed,
    Failed(String),
}

/// One requested mirror operation.
pub struct Download {
    pub id: u64,
    pub folder_name: String,
    pub remote_path: String,
    pub status: DownloadStatus,
    pub started_at: Option<u64>,
    pub completed_at: Option<u64>,
}

/// An immutable record of a finished transfer.
pub struct HistoryEntry {
    pub folder_name: String,
    pub remote_path: String,
    pub downloaded_at: u64,
}

pub open spec fn is_queued(d: Download) -> bool {
    d.status is Queued
}

pub open spec fn is_running(d: Download) -> bool {
    d.status is Downloading
}

/// A job the history promoter removes: completed, with its end timestamp.
pub open spec fn is_promotable(d: Download) -> bool {
    d.status is Completed && d.completed_at is Some
}

pub open spec fn to_history(d: Download) -> HistoryEntry {
    HistoryEntry {
        folder_name: d.folder_name,
        remote_path: d.remote_path,
        downloaded_at: match d.completed_at {
            Some(ts) => ts,
            None => 0,
        },
    }
}

/// Well-formedness of the job list: ids strictly increase with position and
/// stay below the next id to hand out, at most one job is running, and a
/// completed job carries its end timestamp.
pub open spec fn jobs_wf(s: Seq<Download>, next: u64) -> bool {
    &&& forall|i: int, j: int|
        #![trigger s[i].id, s[j].id]
        0 <= i < j < s.len() ==> s[i].id < s[j].id
    &&& forall|i: int| 0 <= i < s.len() ==> (#[trigger] s[i].id) < next
    &&& forall|i: int, j: int|
        #![trigger is_running(s[i]), is_running(s[j])]
        0 <= i < j < s.len() ==> !(is_running(s[i]) && is_running(s[j]))
    &&& forall|i: int|
        0 <= i < s.len() ==> ((#[trigger] s[i].status) is Completed ==> s[i].completed_at is Some)
}

pub open spec fn has_running(s: Seq<Download>) -> bool {
    exists|i: int| 0 <= i < s.len() && is_running(s[i])
}

/// Index of the first queued job at or after `i`.
pub open spec fn first_queued_from(s: Seq<Download>, i: int) -> Option<int>
    decreases s.len() - i,
{
    if i < 0 || i >= s.len() {
        None
    } else if is_queued(s[i]) {
        Some(i)
    } else {
        first_queued_from(s, i + 1)
    }
}

/// Index of the first queued job, defining the FIFO schedule.
pub open spec fn first_queued(s: Seq<Download>) -> Option<int> {
    first_queued_from(s, 0)
}

pub proof fn lemma_first_queued_from(s: Seq<Download>, i: int)
    requires
        0 <= i <= s.len(),
    ensures
        (match first_queued_from(s, i) {
            Some(k) => i <= k < s.len() && is_queued(s[k]) && (forall|j: int|
                i <= j < k ==> !is_queued(#[trigger] s[j])),
            None => forall|j: int| i <= j < s.len() ==> !is_queued(#[trigger] s[j]),
        }),
    decreases s.len() - i,
{
    if i < s.len() && !is_queued(s[i]) {
        lemma_first_queued_from(s, i + 1);
    }
}

/// A freshly enqueued job.
pub open spec fn new_job(id: u64, folder_name: String, remote_path: String) -> Download {
    Download {
        id,
        folder_name,
        remote_path,
        status: DownloadStatus::Queued,
        started_at: None,
        completed_at: None,
    }
}

/// `d` claimed by the worker at time `now`.
pub open spec fn started_job(d: Download, now: u64) -> Download {
    Download {
        id: d.id,
        folder_name: d.folder_name,
        remote_path: d.remote_path,
        status: DownloadStatus::Downloading,
        started_at: Some(now),
        completed_at: d.completed_at,
    }
}

/// What one `enqueue` call does.
pub open spec fn enqueue_step(
    pre: DownloadQueue,
    post: DownloadQueue,
    folder_name: String,
    remote_path: String,
    id: u64,
) -> bool {
    &&& id == pre.next_id
    &&& post.next_id == pre.next_id + 1
    &&& post.jobs@ == pre.jobs@.push(new_job(id, folder_name, remote_path))
}

/// What one `finish_download` call does.
pub open spec fn finish_step(
    pre: DownloadQueue,
    post: DownloadQueue,
    id: u64,
    success: bool,
    now: u64,
) -> bool {
    &&& post.next_id == pre.next_id
    &&& match find_id(pre.jobs@, id) {
        None => post.jobs@ == pre.jobs@,
        Some(i) => {
            &&& post.jobs@.len() == pre.jobs@.len()
            &&& (forall|k: int|
                0 <= k < pre.jobs@.len() && k != i ==> post.jobs@[k] == #[trigger] pre.jobs@[k])
            &&& post.jobs@[i].id == pre.jobs@[i].id
            &&& post.jobs@[i].folder_name == pre.jobs@[i].folder_name
            &&& post.jobs@[i].remote_path == pre.jobs@[i].remote_path
            &&& post.jobs@[i].started_at == pre.jobs@[i].started_at
            &&& post.jobs@[i].completed_at == Some(now)
            &&& (success ==> post.jobs@[i].status is Completed)
            &&& (!success ==> (post.jobs@[i].status matches DownloadStatus::Failed(m) && m@
                == "rsync failed"@))
        },
    }
}

/// The jobs a promotion sweep leaves in place.
pub open spec fn keep_jobs(s: Seq<Download>) -> Seq<Download> {
    s.filter(|d: Download| !is_promotable(d))
}

/// The jobs a promotion sweep removes, in queue order.
pub open spec fn promoted_raw(s: Seq<Download>) -> Seq<Download> {
    s.filter(|d: Download| is_promotable(d))
}

/// The history entries a promotion sweep produces, in queue order.
pub open spec fn promoted_entries(s: Seq<Download>) -> Seq<HistoryEntry> {
    promoted_raw(s).map_values(|d: Download| to_history(d))
}

/// What one `promote_completed` call does.
pub open spec fn promote_step(
    pre: DownloadQueue,
    post: DownloadQueue,
    out: Seq<HistoryEntry>,
) -> bool {
    &&& post.next_id == pre.next_id
    &&& post.jobs@ == keep_jobs(pre.jobs@)
    &&& out == promoted_entries(pre.jobs@)
}

/// Index of the job with id `id` at or after `i`.
pub open spec fn find_id_from(s: Seq<Download>, id: u64, i: int) -> Option<int>
    decreases s.len() - i,
{
    if i < 0 || i >= s.len() {
        None
    } else if s[i].id == id {
        Some(i)
    } else {
        find_id_from(s, id, i + 1)
    }
}

pub open spec fn find_id(s: Seq<Download>, id: u64) -> Option<int> {
    find_id_from(s, id, 0)
}

pub proof fn lemma_find_id_from(s: Seq<Download>, id: u64, i: int)
    requires
        0 <= i <= s.len(),
    ensures
        (match find_id_from(s, id, i) {
            Some(k) => i <= k < s.len() && s[k].id == id,
            None => forall|j: int| i <= j < s.len() ==> (#[trigger] s[j]).id != id,
        }),
    decreases s.len() - i,
{
    if i < s.len() && s[i].id != id {
        lemma_find_id_from(s, id, i + 1);
    }
}

/// A pointwise property of every job survives the promotion sweep.
proof fn lemma_keep_pointwise(s: Seq<Download>, p: spec_fn(Download) -> bool)
    requires
        forall|i: int| 0 <= i < s.len() ==> #[trigger] p(s[i]),
    ensures
        forall|k: int| 0 <= k < keep_jobs(s).len() ==> #[trigger] p(keep_jobs(s)[k]),
    decreases s.len(),
{
    reveal(Seq::filter);
    if s.len() > 0 {
        let dl = s.drop_last();
        assert forall|i: int| 0 <= i < dl.len() implies #[trigger] p(dl[i]) by {
            assert(p(s[i]));
        }
        lemma_keep_pointwise(dl, p);
        assert(p(s[s.len() - 1]));
        assert forall|k: int| 0 <= k < keep_jobs(s).len() implies #[trigger] p(
            keep_jobs(s)[k],
        ) by {
            if !is_promotable(s.last()) {
                assert(keep_jobs(s) == keep_jobs(dl).push(s.last()));
                if k < keep_jobs(dl).len() {
                    assert(p(keep_jobs(dl)[k]));
                }
            } else {
                assert(keep_jobs(s) == keep_jobs(dl));
                assert(p(keep_jobs(dl)[k]));
            }
        }
    }
}

/// The promotion sweep preserves well-formedness of the job list.
proof fn lemma_keep_jobs_wf(s: Seq<Download>, next: u64)
    requires
        jobs_wf(s, next),
    ensures
        jobs_wf(keep_jobs(s), next),
    decreases s.len(),
{
    reveal(Seq::filter);
    if s.len() == 0 {
        assert(keep_jobs(s) == s);
    } else {
        let dl = s.drop_last();
        let last = s.last();
        assert forall|a: int, b: int|
            #![trigger dl[a].id, dl[b].id]
            0 <= a < b < dl.len() implies dl[a].id < dl[b].id by {
            assert(s[a].id < s[b].id);
        }
        assert forall|a: int| 0 <= a < dl.len() implies (#[trigger] dl[a].id) < next by {
            assert(s[a].id < next);
        }
        assert forall|a: int, b: int|
            #![trigger is_running(dl[a]), is_running(dl[b])]
            0 <= a < b < dl.len() implies !(is_running(dl[a]) && is_running(dl[b])) by {
            assert(!(is_running(s[a]) && is_running(s[b])));
        }
        assert forall|a: int|
            0 <= a < dl.len() implies ((#[trigger] dl[a].status) is Completed
            ==> dl[a].completed_at is Some) by {
            assert(s[a].status is Completed ==> s[a].completed_at is Some);
        }
        lemma_keep_jobs_wf(dl, next);
        if !is_promotable(last) {
            assert(keep_jobs(s) == keep_jobs(dl).push(last));
            let ks = keep_jobs(s);
            let kd = keep_jobs(dl);
            let p_id = (|d: Download| d.id < last.id);
            assert forall|i: int| 0 <= i < dl.len() implies #[trigger] p_id(dl[i]) by {
                assert(s[i].id < s[s.len() - 1].id);
            }
            lemma_keep_pointwise(dl, p_id);
            let p_nr = (|d: Download| !is_running(d));
            if is_running(last) {
                assert forall|i: int| 0 <= i < dl.len() implies #[trigger] p_nr(dl[i]) by {
                    assert(!(is_running(s[i]) && is_running(s[s.len() - 1])));
                }
                lemma_keep_pointwise(dl, p_nr);
            }
            assert forall|a: int, b: int|
                #![trigger ks[a].id, ks[b].id]
                0 <= a < b < ks.len() implies ks[a].id < ks[b].id by {
                if b == ks.len() - 1 {
                    assert(p_id(kd[a]));
                } else {
                    assert(kd[a].id < kd[b].id);
                }
            }
            assert forall|a: int| 0 <= a < ks.len() implies (#[trigger] ks[a].id) < next by {
                if a == ks.len() - 1 {
                    assert(s[s.len() - 1].id < next);
                } else {
                    assert(kd[a].id < next);
                }
            }
            assert forall|a: int, b: int|
                #![trigger is_running(ks[a]), is_running(ks[b])]
                0 <= a < b < ks.len() implies !(is_running(ks[a]) && is_running(ks[b])) by {
                if b == ks.len() - 1 {
                    if is_running(last) {
                        assert(p_nr(kd[a]));
                    }
                } else {
                    assert(!(is_running(kd[a]) && is_running(kd[b])));
                }
            }
            assert forall|a: int|
                0 <= a < ks.len() implies ((#[trigger] ks[a].status) is Completed
                ==> ks[a].completed_at is Some) by {
                if a == ks.len() - 1 {
                    assert(s[s.len() - 1].status is Completed ==> s[s.len() - 1].completed_at
                        is Some);
                } else {
                    assert(kd[a].status is Completed ==> kd[a].completed_at is Some);
                }
            }
        } else {
            assert(keep_jobs(s) == keep_jobs(dl));
        }
    }
}

/// A list with nothing promotable is left exactly as it is by a sweep.
proof fn lemma_keep_of_kept(s: Seq<Download>)
    requires
        forall|i: int| 0 <= i < s.len() ==> !is_promotable(#[trigger] s[i]),
    ensures
        keep_jobs(s) == s,
        promoted_entries(s) == Seq::<HistoryEntry>::empty(),
    decreases s.len(),
{
    reveal(Seq::filter);
    if s.len() == 0 {
        assert(keep_jobs(s) == s);
        assert(promoted_raw(s) == s);
        assert(promoted_entries(s) =~= Seq::<HistoryEntry>::empty());
    } else {
        let dl = s.drop_last();
        assert forall|i: int| 0 <= i < dl.len() implies !is_promotable(#[trigger] dl[i]) by {
            assert(!is_promotable(s[i]));
        }
        lemma_keep_of_kept(dl);
        assert(!is_promotable(s[s.len() - 1]));
        assert(keep_jobs(s) == keep_jobs(dl).push(s.last()));
        assert(keep_jobs(s) =~= s);
        assert(promoted_raw(s) == promoted_raw(dl));
        assert(promoted_entries(s) == promoted_entries(dl));
    }
}

/// The live queue and the id counter. The worker and the display thread
/// share one value of this type behind a lock owned by the caller.
pub struct DownloadQueue {
    pub jobs: Vec<Download>,
    pub next_id: u64,
}

impl DownloadQueue {
    pub open spec fn wf(self) -> bool {
        jobs_wf(self.jobs@, self.next_id)
    }

    pub fn new() -> (q: DownloadQueue)
        ensures
            q.wf(),
            q.jobs@.len() == 0,
            q.next_id == 1,
    {
        DownloadQueue { jobs: Vec::new(), next_id: 1 }
    }

    /// Appends a new queued job and hands out its id. Ids strictly increase
    /// over the life of the queue and are never reused.
    pub fn enqueue(&mut self, folder_name: String, remote_path: String) -> (id: u64)
        requires
            old(self).wf(),
            old(self).next_id < u64::MAX,
        ensures
            final(self).wf(),
            enqueue_step(*old(self), *final(self), folder_name, remote_path, id),
    {
        let id = self.next_id;
        let job = Download {
            id,
            folder_name,
            remote_path,
            status: DownloadStatus::Queued,
            started_at: None,
            completed_at: None,
        };
        self.jobs.push(job);
        self.next_id = self.next_id + 1;
        proof {
            let s0 = old(self).jobs@;
            let s1 = self.jobs@;
            assert forall|a: int, b: int|
                #![trigger s1[a].id, s1[b].id]
                0 <= a < b < s1.len() implies s1[a].id < s1[b].id by {
                if b < s0.len() {
                    assert(s0[a].id < s0[b].id);
                } else {
                    assert(s0[a].id < old(self).next_id);
                }
            }
            assert forall|a: int, b: int|
                #![trigger is_running(s1[a]), is_running(s1[b])]
                0 <= a < b < s1.len() implies !(is_running(s1[a]) && is_running(s1[b])) by {
                if b < s0.len() {
                    assert(!(is_running(s0[a]) && is_running(s0[b])));
                }
            }
        }
        id
    }

    #[verifier::loop_isolation(false)]
    pub fn has_running_job(&self) -> (r: bool)
        ensures
            r == has_running(self.jobs@),
    {
        let mut i: usize = 0;
        while i < self.jobs.len()
            invariant
                i <= self.jobs@.len(),
                forall|j: int| 0 <= j < i ==> !is_running(#[trigger] self.jobs@[j]),
            decreases self.jobs@.len() - i,
        {
            let running = (match self.jobs[i].status {
                DownloadStatus::Downloading => true,
                _ => false,
            });
            if running {
                proof {
                    assert(is_running(self.jobs@[i as int]));
                }
                return true;
            }
            i += 1;
        }
        false
    }

    /// Claims the first queued job for the worker: marks it running with the
    /// given start time and returns its id and remote source. Returns a job
    /// if and only if some job is queued.
    #[verifier::loop_isolation(false)]
    pub fn take_next_queued(&mut self, now: u64) -> (r: Option<(u64, String)>)
        requires
            old(self).wf(),
            !has_running(old(self).jobs@),
        ensures
            final(self).wf(),
            final(self).next_id == old(self).next_id,
            (match first_queued(old(self).jobs@) {
                Some(i) => (r matches Some(pair) && pair.0 == old(self).jobs@[i].id && pair.1@
                    == old(self).jobs@[i].remote_path@ && final(self).jobs@ == old(
                    self,
                ).jobs@.update(i, started_job(old(self).jobs@[i], now))),
                None => r is None && final(self).jobs@ == old(self).jobs@,
            }),
            (r is Some <==> exists|i: int|
                0 <= i < old(self).jobs@.len() && is_queued(#[trigger] old(self).jobs@[i])),
    {
        proof {
            lemma_first_queued_from(old(self).jobs@, 0);
        }
        let ghost s0 = old(self).jobs@;
        let n = self.jobs.len();
        let mut i: usize = 0;
        while i < n
            invariant
                self.jobs@ == s0,
                self.next_id == old(self).next_id,
                n == s0.len(),
                i <= n,
                first_queued(s0) == first_queued_from(s0, i as int),
            decreases n - i,
        {
            let found = (match self.jobs[i].status {
                DownloadStatus::Queued => true,
                _ => false,
            });
            if found {
                proof {
                    assert(is_queued(s0[i as int]));
                    assert(first_queued(s0) == Some(i as int));
                }
                let id = self.jobs[i].id;
                let path = self.jobs[i].remote_path.clone();
                self.jobs[i].status = DownloadStatus::Downloading;
                self.jobs[i].started_at = Some(now);
                proof {
                    let s1 = self.jobs@;
                    assert(s1 =~= s0.update(i as int, started_job(s0[i as int], now)));
                    assert forall|a: int, b: int|
                        #![trigger s1[a].id, s1[b].id]
                        0 <= a < b < s1.len() implies s1[a].id < s1[b].id by {
                        assert(s0[a].id < s0[b].id);
                    }
                    assert forall|a: int, b: int|
                        #![trigger is_running(s1[a]), is_running(s1[b])]
                        0 <= a < b < s1.len() implies !(is_running(s1[a]) && is_running(
                        s1[b],
                    )) by {
                        if a != i {
                            assert(!is_running(s0[a]));
                        }
                        if b != i {
                            assert(!is_running(s0[b]));
                        }
                    }
                }
                return Some((id, path));
            }
            proof {
                assert(!is_queued(s0[i as int]));
            }
            i += 1;
        }
        proof {
            assert(first_queued(s0) is None);
        }
        None
    }

    /// Records the outcome of the external process for the job with the
    /// given id: completed on success, failed otherwise, with the end
    /// timestamp either way. A job id no longer present is a no-op.
    #[verifier::loop_isolation(false)]
    pub fn finish_download(&mut self, id: u64, success: bool, now: u64)
        requires
            old(self).wf(),
        ensures
            final(self).wf(),
            finish_step(*old(self), *final(self), id, success, now),
    {
        proof {
            lemma_find_id_from(old(self).jobs@, id, 0);
        }
        let ghost s0 = old(self).jobs@;
        let n = self.jobs.len();
        let mut i: usize = 0;
        while i < n
            invariant
                self.jobs@ == s0,
                self.next_id == old(self).next_id,
                n == s0.len(),
                i <= n,
                find_id(s0, id) == find_id_from(s0, id, i as int),
            decreases n - i,
        {
            if self.jobs[i].id == id {
                proof {
                    assert(find_id(s0, id) == Some(i as int));
                }
                if success {
                    self.jobs[i].status = DownloadStatus::Completed;
                } else {
                    self.jobs[i].status = DownloadStatus::Failed("rsync failed".to_owned());
                }
                self.jobs[i].completed_at = Some(now);
                proof {
                    let s1 = self.jobs@;
                    assert forall|a: int, b: int|
                        #![trigger s1[a].id, s1[b].id]
                        0 <= a < b < s1.len() implies s1[a].id < s1[b].id by {
                        assert(s0[a].id < s0[b].id);
                    }
                    assert forall|a: int, b: int|
                        #![trigger is_running(s1[a]), is_running(s1[b])]
                        0 <= a < b < s1.len() implies !(is_running(s1[a]) && is_running(
                        s1[b],
                    )) by {
                        assert(!(is_running(s0[a]) && is_running(s0[b])));
                        if a != i && b != i {
                        }
                    }
                }
                return ;
            }
            proof {
                assert(s0[i as int].id != id);
            }
            i += 1;
        }
        proof {
            assert(find_id(s0, id) is None);
        }
    }

    /// Removes every completed job, converting each into a history entry
    /// with its end timestamp, preserving relative order; queued, running
    /// and failed jobs stay where they were.
    #[verifier::loop_isolation(false)]
    pub fn promote_completed(&mut self) -> (out: Vec<HistoryEntry>)
        requires
            old(self).wf(),
        ensures
            final(self).wf(),
            promote_step(*old(self), *final(self), out@),
    {
        let ghost s0 = self.jobs@;
        let mut kept: Vec<Download> = Vec::new();
        let mut out: Vec<HistoryEntry> = Vec::new();
        proof {
            reveal(Seq::filter);
            assert(s0.take(0) =~= Seq::<Download>::empty());
            assert(keep_jobs(s0.take(0)) =~= Seq::<Download>::empty());
            assert(promoted_raw(s0.take(0)) =~= Seq::<Download>::empty());
            assert(promoted_entries(s0.take(0)) =~= Seq::<HistoryEntry>::empty());
        }
        while self.jobs.len() > 0
            invariant
                self.next_id == old(self).next_id,
                self.jobs@.len() <= s0.len(),
                self.jobs@ == s0.skip(s0.len() - self.jobs@.len()),
                kept@ == keep_jobs(s0.take(s0.len() - self.jobs@.len())),
                out@ == promoted_entries(s0.take(s0.len() - self.jobs@.len())),
            decreases self.jobs@.len(),
        {
            let ghost i = s0.len() - self.jobs@.len();
            let d = self.jobs.remove(0);
            proof {
                assert(s0.skip(i)[0] == s0[i]);
                assert(s0.skip(i).remove(0) =~= s0.skip(i + 1));
            }
            let is_comp = (match d.status {
                DownloadStatus::Completed => true,
                _ => false,
            });
            let mut promoted = false;
            if is_comp {
                if let Some(ts) = d.completed_at {
                    out.push(
                        HistoryEntry {
                            folder_name: d.folder_name.clone(),
                            remote_path: d.remote_path.clone(),
                            downloaded_at: ts,
                        },
                    );
                    promoted = true;
                }
            }
            if !promoted {
                kept.push(d);
            }
            proof {
                reveal(Seq::filter);
                assert(promoted == is_promotable(s0[i]));
                assert(s0.take(i + 1) =~= s0.take(i) + seq![s0[i]]);
                assert(seq![s0[i]].drop_last() =~= Seq::<Download>::empty());
                assert(keep_jobs(s0.take(i + 1)) == keep_jobs(s0.take(i)) + keep_jobs(
                    seq![s0[i]],
                ));
                assert(promoted_raw(s0.take(i + 1)) == promoted_raw(s0.take(i)) + promoted_raw(
                    seq![s0[i]],
                ));
                if is_promotable(s0[i]) {
                    assert(keep_jobs(seq![s0[i]]) =~= Seq::<Download>::empty());
                    assert(kept@ =~= keep_jobs(s0.take(i + 1)));
                    assert(promoted_raw(seq![s0[i]]) =~= seq![s0[i]]);
                    assert(promoted_raw(s0.take(i + 1)) =~= promoted_raw(s0.take(i)).push(
                        s0[i],
                    ));
                    assert(out@ =~= promoted_entries(s0.take(i + 1)));
                } else {
                    assert(keep_jobs(seq![s0[i]]) =~= seq![s0[i]]);
                    assert(kept@ =~= keep_jobs(s0.take(i + 1)));
                    assert(promoted_raw(seq![s0[i]]) =~= Seq::<Download>::empty());
                    assert(promoted_raw(s0.take(i + 1)) =~= promoted_raw(s0.take(i)));
                    assert(out@ =~= promoted_entries(s0.take(i + 1)));
                }
            }
        }
        self.jobs = kept;
        proof {
            assert(s0.take(s0.len() as int) =~= s0);
            lemma_keep_jobs_wf(s0, old(self).next_id);
        }
        out
    }
}

/// At most one job is ever marked running in a well-formed queue.
pub proof fn lemma_at_most_one_running(q: DownloadQueue, i: int, j: int)
    requires
        q.wf(),
        0 <= i < q.jobs@.len(),
        0 <= j < q.jobs@.len(),
        i != j,
        is_running(q.jobs@[i]),
    ensures
        !is_running(q.jobs@[j]),
{
    if i < j {
        assert(!(is_running(q.jobs@[i]) && is_running(q.jobs@[j])));
    } else {
        assert(!(is_running(q.jobs@[j]) && is_running(q.jobs@[i])));
    }
}

/// Ids handed out by consecutive enqueues strictly increase, and a fresh id
/// never collides with an id already in the queue.
pub proof fn lemma_enqueue_ids_increase(
    q0: DownloadQueue,
    q1: DownloadQueue,
    q2: DownloadQueue,
    n1: String,
    p1: String,
    n2: String,
    p2: String,
    id1: u64,
    id2: u64,
)
    requires
        q0.wf(),
        enqueue_step(q0, q1, n1, p1, id1),
        enqueue_step(q1, q2, n2, p2, id2),
    ensures
        id1 < id2,
        forall|k: int|
            0 <= k < q0.jobs@.len() ==> (#[trigger] q0.jobs@[k]).id != id1 && q0.jobs@[k].id
                != id2,
{
}

/// A failure leaves every other job untouched: a job still queued before the
/// failure is still queued after it, so the drain loop finds it.
pub proof fn lemma_failure_keeps_queue(
    q0: DownloadQueue,
    q1: DownloadQueue,
    id: u64,
    now: u64,
    j: int,
)
    requires
        q0.wf(),
        finish_step(q0, q1, id, false, now),
        0 <= j < q0.jobs@.len(),
        is_queued(q0.jobs@[j]),
        q0.jobs@[j].id != id,
    ensures
        exists|k: int| 0 <= k < q1.jobs@.len() && is_queued(#[trigger] q1.jobs@[k]),
{
    lemma_find_id_from(q0.jobs@, id, 0);
    match find_id(q0.jobs@, id) {
        None => {
            assert(is_queued(q1.jobs@[j]));
        },
        Some(i) => {
            assert(q0.jobs@[i].id == id);
            assert(i != j);
            assert(q1.jobs@[j] == q0.jobs@[j]);
            assert(is_queued(q1.jobs@[j]));
        },
    }
}

/// After a sweep of a well-formed queue, no completed job remains.
pub proof fn lemma_promote_removes_completed(
    q0: DownloadQueue,
    q1: DownloadQueue,
    out: Seq<HistoryEntry>,
)
    requires
        q0.wf(),
        promote_step(q0, q1, out),
    ensures
        forall|k: int| 0 <= k < q1.jobs@.len() ==> !((#[trigger] q1.jobs@[k]).status is Completed),
{
    let p = (|d: Download| d.status is Completed ==> d.completed_at is Some);
    assert forall|i: int| 0 <= i < q0.jobs@.len() implies #[trigger] p(q0.jobs@[i]) by {
        assert(q0.jobs@[i].status is Completed ==> q0.jobs@[i].completed_at is Some);
    }
    lemma_keep_pointwise(q0.jobs@, p);
    assert forall|k: int|
        0 <= k < q1.jobs@.len() implies !((#[trigger] q1.jobs@[k]).status is Completed) by {
        assert(p(keep_jobs(q0.jobs@)[k]));
        assert(!is_promotable(keep_jobs(q0.jobs@)[k])) by {
            q0.jobs@.lemma_filter_pred(|d: Download| !is_promotable(d), k);
        }
    }
}

/// Sweeping twice in a row with nothing completed in between is a no-op the
/// second time: the first sweep already removed every promotable job.
pub proof fn lemma_promote_idempotent(
    q0: DownloadQueue,
    q1: DownloadQueue,
    q2: DownloadQueue,
    out1: Seq<HistoryEntry>,
    out2: Seq<HistoryEntry>,
)
    requires
        promote_step(q0, q1, out1),
        promote_step(q1, q2, out2),
    ensures
        out2 == Seq::<HistoryEntry>::empty(),
        q2.jobs@ == q1.jobs@,
{
    assert forall|i: int| 0 <= i < q1.jobs@.len() implies !is_promotable(
        #[trigger] q1.jobs@[i],
    ) by {
        q0.jobs@.lemma_filter_pred(|d: Download| !is_promotable(d), i);
    }
    lemma_keep_of_kept(q1.jobs@);
}

} // verus!

