//! The synchronisation bookkeeping: registered roots and a queue of
//! pending jobs, drained by a caller that performs the outside work.

use vstd::prelude::*;
use crate::agenda::AgendaItem;
use crate::habit::Habit;

verus! {

/// Where a root's documents live.
#[derive(Clone, PartialEq, Eq, Debug)]
pub enum StorageBackend {
    Local { path: String },
    GoogleDrive(GoogleDriveBinding),
}

/// Credentials and directory metadata of a drive-backed root.
#[derive(Clone, PartialEq, Eq, Debug)]
pub struct GoogleDriveBinding {
    pub drive_id: String,
    pub root_id: String,
    pub refresh_token: String,
    pub access_token: Option<String>,
    pub token_expiry_seconds: Option<i64>,
}

/// A directory registered for synchronisation.
#[derive(Clone, PartialEq, Eq, Debug)]
pub struct SyncRoot {
    pub id: String,
    pub backend: StorageBackend,
    pub display_name: String,
    pub org_roam: bool,
}

#[derive(Clone, Copy, PartialEq, Eq, Structural, Debug)]
pub enum SyncJobKind {
    InitialScan,
    DriveDelta,
    LocalWatcher,
    ConflictResolution,
}

/// One queued unit of synchronisation work.
#[derive(Clone, PartialEq, Eq, Debug)]
pub struct SyncJob {
    pub root_id: String,
    pub job_kind: SyncJobKind,
}

#[verifier::ext_equal]
pub struct JobModel {
    pub root_id: Seq<char>,
    pub job_kind: SyncJobKind,
}

impl View for SyncJob {
    type V = JobModel;

    open spec fn view(&self) -> JobModel {
        JobModel { root_id: self.root_id@, job_kind: self.job_kind }
    }
}

pub open spec fn root_ids(roots: Seq<SyncRoot>) -> Seq<Seq<char>> {
    roots.map_values(|r: SyncRoot| r.id@)
}

pub open spec fn jobs_view(jobs: Seq<SyncJob>) -> Seq<JobModel> {
    jobs.map_values(|j: SyncJob| j@)
}

/// Roots and the queue of jobs not yet performed.
pub struct OrgSyncService {
    roots: Vec<SyncRoot>,
    pending_jobs: Vec<SyncJob>,
}

impl OrgSyncService {
    pub closed spec fn roots_seq(&self) -> Seq<SyncRoot> {
        self.roots@
    }

    pub closed spec fn jobs_seq(&self) -> Seq<JobModel> {
        jobs_view(self.pending_jobs@)
    }

    /// An empty service: no roots, no pending jobs.
    pub fn new() -> (r: OrgSyncService)
        ensures
            r.roots_seq() == Seq::<SyncRoot>::empty(),
            r.jobs_seq() == Seq::<JobModel>::empty(),
    {
        let r = OrgSyncService { roots: Vec::new(), pending_jobs: Vec::new() };
        proof {
            assert(r.jobs_seq() =~= Seq::<JobModel>::empty());
        }
        r
    }

    /// Registers a root: an already-known identifier changes nothing;
    /// otherwise the root is kept and an initial scan is queued.
    pub fn register_root(&mut self, root: SyncRoot)
        ensures
            (root_ids(old(self).roots_seq()).contains(root.id@) ==> final(self).roots_seq() == old(
                self,
            ).roots_seq() && final(self).jobs_seq() == old(self).jobs_seq()),
            (!root_ids(old(self).roots_seq()).contains(root.id@) ==> final(self).roots_seq()
                =~= old(self).roots_seq().push(root) && final(self).jobs_seq() =~= old(
                self,
            ).jobs_seq().push(JobModel { root_id: root.id@, job_kind: SyncJobKind::InitialScan })),
    {
        let n = self.roots.len();
        let mut i: usize = 0;
        while i < n
            invariant
                0 <= i <= n,
                n == self.roots@.len(),
                forall|j: int| 0 <= j < i ==> (#[trigger] self.roots@[j]).id@ != root.id@,
            decreases n - i,
        {
            if strings_equal(&self.roots[i].id, &root.id) {
                proof {
                    assert(root_ids(self.roots@)[i as int] == root.id@);
                }
                return ;
            }
            i = i + 1;
        }
        proof {
            if root_ids(self.roots@).contains(root.id@) {
                let w = choose|k: int|
                    0 <= k < root_ids(self.roots@).len() && root_ids(self.roots@)[k] == root.id@;
                assert(self.roots@[w].id@ == root.id@);
            }
        }
        let ghost prev_jobs = jobs_view(self.pending_jobs@);
        let job = SyncJob { root_id: root.id.clone(), job_kind: SyncJobKind::InitialScan };
        self.pending_jobs.push(job);
        self.roots.push(root);
        proof {
            assert(jobs_view(self.pending_jobs@) =~= prev_jobs.push(
                JobModel { root_id: root.id@, job_kind: SyncJobKind::InitialScan },
            ));
        }
    }

    /// The registered roots, in registration order.
    pub fn list_roots(&self) -> (r: &Vec<SyncRoot>)
        ensures
            r@ == self.roots_seq(),
    {
        &self.roots
    }

    /// Takes the oldest pending job, if any.
    pub fn dequeue_job(&mut self) -> (r: Option<SyncJob>)
        ensures
            (old(self).jobs_seq().len() == 0 ==> r is None && final(self).jobs_seq() == old(
                self,
            ).jobs_seq()),
            (old(self).jobs_seq().len() > 0 ==> (r matches Some(j) && j@ == old(
                self,
            ).jobs_seq()[0] && final(self).jobs_seq() =~= old(self).jobs_seq().drop_first())),
            final(self).roots_seq() == old(self).roots_seq(),
    {
        if self.pending_jobs.len() == 0 {
            return None;
        }
        let ghost prev = jobs_view(self.pending_jobs@);
        let j = self.pending_jobs.remove(0);
        proof {
            assert(jobs_view(self.pending_jobs@) =~= prev.drop_first());
            assert(j@ == prev[0]);
        }
        Some(j)
    }

    /// Queues a drive-delta job for the root.
    pub fn schedule_drive_delta(&mut self, root_id: &str)
        ensures
            final(self).jobs_seq() =~= old(self).jobs_seq().push(
                JobModel { root_id: root_id@, job_kind: SyncJobKind::DriveDelta },
            ),
            final(self).roots_seq() == old(self).roots_seq(),
    {
        let ghost prev = jobs_view(self.pending_jobs@);
        let job = SyncJob {
            root_id: crate::text::copy_string(root_id),
            job_kind: SyncJobKind::DriveDelta,
        };
        self.pending_jobs.push(job);
        proof {
            assert(jobs_view(self.pending_jobs@) =~= prev.push(
                JobModel { root_id: root_id@, job_kind: SyncJobKind::DriveDelta },
            ));
        }
    }

    /// Queues a local-watcher job for the root.
    pub fn schedule_local_watch(&mut self, root_id: &str)
        ensures
            final(self).jobs_seq() =~= old(self).jobs_seq().push(
                JobModel { root_id: root_id@, job_kind: SyncJobKind::LocalWatcher },
            ),
            final(self).roots_seq() == old(self).roots_seq(),
    {
        let ghost prev = jobs_view(self.pending_jobs@);
        let job = SyncJob {
            root_id: crate::text::copy_string(root_id),
            job_kind: SyncJobKind::LocalWatcher,
        };
        self.pending_jobs.push(job);
        proof {
            assert(jobs_view(self.pending_jobs@) =~= prev.push(
                JobModel { root_id: root_id@, job_kind: SyncJobKind::LocalWatcher },
            ));
        }
    }

    /// The first registered root with the job's identifier, for the caller
    /// that performs the job's outside work.
    pub fn find_root_index(&self, root_id: &str) -> (r: Option<usize>)
        ensures
            (match r {
                Some(i) => i < self.roots_seq().len() && self.roots_seq()[i as int].id@ == root_id@
                    && forall|j: int|
                    0 <= j < i ==> (#[trigger] self.roots_seq()[j]).id@ != root_id@,
                None => forall|j: int|
                    0 <= j < self.roots_seq().len() ==> (#[trigger] self.roots_seq()[j]).id@
                        != root_id@,
            }),
    {
        let n = self.roots.len();
        let mut i: usize = 0;
        while i < n
            invariant
                0 <= i <= n,
                n == self.roots@.len(),
                forall|j: int| 0 <= j < i ==> (#[trigger] self.roots@[j]).id@ != root_id@,
            decreases n - i,
        {
            let rv = crate::text::str_chars(self.roots[i].id.as_str());
            let qv = crate::text::str_chars(root_id);
            if crate::text::chars_eq(&rv, &qv) {
                return Some(i);
            }
            i = i + 1;
        }
        None
    }
}

fn strings_equal(a: &String, b: &String) -> (r: bool)
    ensures
        r == (a@ == b@),
{
    a.eq(b)
}

/// Everything parsed from the registered documents at one instant.
#[derive(Clone, PartialEq, Eq, Debug)]
pub struct AgendaSnapshot {
    pub items: Vec<AgendaItem>,
    pub habits: Vec<Habit>,
}

/// The outcome of one performed job.
#[derive(Clone, PartialEq, Eq, Debug)]
pub struct SyncReport {
    pub root_id: String,
    pub refreshed_at_seconds: Option<u64>,
    pub agenda_snapshot: Option<AgendaSnapshot>,
}

impl SyncReport {
    /// A report that the root's documents were reloaded.
    pub fn reloaded(root_id: String) -> (r: SyncReport)
        ensures
            r.root_id@ == root_id@,
            r.refreshed_at_seconds is None,
            r.agenda_snapshot is None,
    {
        SyncReport { root_id, refreshed_at_seconds: None, agenda_snapshot: None }
    }

    /// The same report carrying an agenda snapshot.
    pub fn with_agenda(self, snapshot: AgendaSnapshot) -> (r: SyncReport)
        ensures
            r.root_id@ == self.root_id@,
            r.refreshed_at_seconds == self.refreshed_at_seconds,
            r.agenda_snapshot == Some(snapshot),
    {
        SyncReport {
            root_id: self.root_id,
            refreshed_at_seconds: self.refreshed_at_seconds,
            agenda_snapshot: Some(snapshot),
        }
    }

    /// A report that nothing was done.
    pub fn noop(root_id: String) -> (r: SyncReport)
        ensures
            r.root_id@ == root_id@,
            r.refreshed_at_seconds is None,
            r.agenda_snapshot is None,
    {
        SyncReport { root_id, refreshed_at_seconds: None, agenda_snapshot: None }
    }
}

} // verus!
