//! The embedding surface: plain parameter records for callers that drive
//! the planner from outside, and the root-registration state they share.

use vstd::prelude::*;
use crate::sync::{
    OrgSyncService, SyncRoot, SyncJob, SyncJobKind, StorageBackend, JobModel, root_ids,
};

verus! {

/// Which roots a caller works over.
#[derive(Clone, PartialEq, Eq, Debug)]
pub struct OrgBridgeConfig {
    pub roots: Vec<String>,
    pub roam_roots: Option<Vec<String>>,
}

/// Parameters of a complete-heading request.
#[derive(Clone, PartialEq, Eq, Debug)]
pub struct CompleteAgendaParams {
    pub roots: Vec<String>,
    pub roam_roots: Option<Vec<String>>,
    pub path: String,
    pub headline_line: u32,
}

/// Parameters of a capture-append request.
#[derive(Clone, PartialEq, Eq, Debug)]
pub struct CaptureRequest {
    pub roots: Vec<String>,
    pub roam_roots: Option<Vec<String>>,
    pub target_path: String,
    pub content: String,
}

/// Parameters of a set-status request.
#[derive(Clone, PartialEq, Eq, Debug)]
pub struct SetAgendaStatusParams {
    pub roots: Vec<String>,
    pub roam_roots: Option<Vec<String>>,
    pub path: String,
    pub headline_line: u32,
    pub status: String,
}

/// The configured note roots, or none.
pub fn extract_roam_roots(option: &Option<Vec<String>>) -> (r: Vec<String>)
    ensures
        (match option {
            Some(v) => r@.map_values(|s: String| s@) == v@.map_values(|s: String| s@),
            None => r@.len() == 0,
        }),
{
    match option {
        None => Vec::new(),
        Some(v) => {
            let mut out: Vec<String> = Vec::new();
            let n = v.len();
            let mut i: usize = 0;
            proof {
                assert(out@.map_values(|s: String| s@) =~= v@.map_values(|s: String| s@).take(0));
            }
            while i < n
                invariant
                    0 <= i <= n,
                    n == v@.len(),
                    out@.map_values(|s: String| s@) =~= v@.map_values(|s: String| s@).take(
                        i as int,
                    ),
                decreases n - i,
            {
                let ghost prev = out@;
                out.push(v[i].clone());
                proof {
                    assert(out@.map_values(|s: String| s@) =~= prev.map_values(
                        |s: String| s@,
                    ).push(v@[i as int]@));
                }
                i = i + 1;
            }
            proof {
                assert(v@.map_values(|s: String| s@).take(n as int) =~= v@.map_values(
                    |s: String| s@,
                ));
            }
            out
        },
    }
}

/// The shared registration state: the sync service plus the identifiers
/// already registered as document and note roots.
pub struct SyncState {
    pub service: OrgSyncService,
    pub doc_roots: Vec<String>,
    pub roam_roots: Vec<String>,
}

pub open spec fn strs(v: Seq<String>) -> Seq<Seq<char>> {
    v.map_values(|s: String| s@)
}

impl SyncState {
    /// A fresh state: nothing registered.
    pub fn new() -> (r: SyncState)
        ensures
            r.service.roots_seq().len() == 0,
            r.service.jobs_seq().len() == 0,
            r.doc_roots@.len() == 0,
            r.roam_roots@.len() == 0,
    {
        SyncState { service: OrgSyncService::new(), doc_roots: Vec::new(), roam_roots: Vec::new() }
    }

    /// Registers a document root once: a repeat of a known root changes
    /// nothing; a new one is remembered and handed to the sync service
    /// under its own identifier.
    pub fn update_doc_root(&mut self, root: &str)
        ensures
            (strs(old(self).doc_roots@).contains(root@) ==> final(self).doc_roots@ == old(
                self,
            ).doc_roots@ && final(self).service.roots_seq() == old(self).service.roots_seq()
                && final(self).service.jobs_seq() == old(self).service.jobs_seq()),
            (!strs(old(self).doc_roots@).contains(root@) ==> strs(final(self).doc_roots@)
                =~= strs(old(self).doc_roots@).push(root@)),
            (!strs(old(self).doc_roots@).contains(root@) && !root_ids(
                old(self).service.roots_seq(),
            ).contains(root@) ==> (root_ids(final(self).service.roots_seq()) =~= root_ids(
                old(self).service.roots_seq(),
            ).push(root@) && final(self).service.jobs_seq() =~= old(self).service.jobs_seq().push(
                JobModel { root_id: root@, job_kind: SyncJobKind::InitialScan },
            ))),
            (!strs(old(self).doc_roots@).contains(root@) && root_ids(
                old(self).service.roots_seq(),
            ).contains(root@) ==> final(self).service.roots_seq() == old(self).service.roots_seq()
                && final(self).service.jobs_seq() == old(self).service.jobs_seq()),
            final(self).roam_roots@ == old(self).roam_roots@,
    {
        if contains_str(&self.doc_roots, root) {
            return ;
        }
        let ghost prev = strs(self.doc_roots@);
        self.doc_roots.push(crate::text::copy_string(root));
        proof {
            assert(strs(self.doc_roots@) =~= prev.push(root@));
        }
        let sync_root = SyncRoot {
            id: crate::text::copy_string(root),
            backend: StorageBackend::Local { path: crate::text::copy_string(root) },
            display_name: crate::text::copy_string(root),
            org_roam: false,
        };
        let ghost prev_ids = root_ids(self.service.roots_seq());
        let ghost rid = sync_root.id@;
        self.service.register_root(sync_root);
        proof {
            if !prev_ids.contains(rid) {
                assert(root_ids(self.service.roots_seq()) =~= prev_ids.push(rid));
            }
        }
    }

    /// Registers a note root once, under a `roam:`-prefixed identifier.
    pub fn update_roam_root(&mut self, root: &str)
        ensures
            (strs(old(self).roam_roots@).contains(root@) ==> final(self).roam_roots@ == old(
                self,
            ).roam_roots@ && final(self).service.roots_seq() == old(self).service.roots_seq()
                && final(self).service.jobs_seq() == old(self).service.jobs_seq()),
            (!strs(old(self).roam_roots@).contains(root@) ==> strs(final(self).roam_roots@)
                =~= strs(old(self).roam_roots@).push(root@)),
            (!strs(old(self).roam_roots@).contains(root@) && !root_ids(
                old(self).service.roots_seq(),
            ).contains("roam:"@ + root@) ==> (root_ids(final(self).service.roots_seq())
                =~= root_ids(old(self).service.roots_seq()).push("roam:"@ + root@)
                && final(self).service.jobs_seq() =~= old(self).service.jobs_seq().push(
                JobModel { root_id: "roam:"@ + root@, job_kind: SyncJobKind::InitialScan },
            ))),
            final(self).doc_roots@ == old(self).doc_roots@,
    {
        if contains_str(&self.roam_roots, root) {
            return ;
        }
        let ghost prev = strs(self.roam_roots@);
        self.roam_roots.push(crate::text::copy_string(root));
        proof {
            assert(strs(self.roam_roots@) =~= prev.push(root@));
        }
        let prefix = crate::text::str_chars("roam:");
        let rootv = crate::text::str_chars(root);
        let mut idv = prefix;
        crate::text::push_all(&mut idv, &rootv);
        let id = crate::text::chars_string(&idv);
        let sync_root = SyncRoot {
            id,
            backend: StorageBackend::Local { path: crate::text::copy_string(root) },
            display_name: crate::text::copy_string(root),
            org_roam: true,
        };
        let ghost prev_ids = root_ids(self.service.roots_seq());
        let ghost rid = sync_root.id@;
        proof {
            assert(rid =~= "roam:"@ + root@);
        }
        self.service.register_root(sync_root);
        proof {
            if !prev_ids.contains(rid) {
                assert(root_ids(self.service.roots_seq()) =~= prev_ids.push(rid));
            }
        }
    }

    /// Registers every given root, then drains the pending jobs and hands
    /// them back for the caller to perform.
    pub fn ensure_roots_registered(
        &mut self,
        doc_roots: &Vec<String>,
        roam_roots: &Vec<String>,
    ) -> (jobs: Vec<SyncJob>)
        ensures
            final(self).service.jobs_seq().len() == 0,
            forall|k: int|
                0 <= k < doc_roots@.len() ==> strs(final(self).doc_roots@).contains(
                    (#[trigger] doc_roots@[k])@,
                ),
            forall|k: int|
                0 <= k < roam_roots@.len() ==> strs(final(self).roam_roots@).contains(
                    (#[trigger] roam_roots@[k])@,
                ),
    {
        let dn = doc_roots.len();
        let mut i: usize = 0;
        while i < dn
            invariant
                0 <= i <= dn,
                dn == doc_roots@.len(),
                forall|k: int|
                    0 <= k < i ==> strs(self.doc_roots@).contains((#[trigger] doc_roots@[k])@),
            decreases dn - i,
        {
            let ghost before = strs(self.doc_roots@);
            self.update_doc_root(doc_roots[i].as_str());
            proof {
                assert forall|k: int| 0 <= k < i + 1 implies strs(self.doc_roots@).contains(
                    (#[trigger] doc_roots@[k])@,
                ) by {
                    if k < i {
                        let w = choose|w: int|
                            0 <= w < before.len() && before[w] == doc_roots@[k]@;
                        assert(strs(self.doc_roots@)[w] == doc_roots@[k]@);
                    } else {
                        if !before.contains(doc_roots@[i as int]@) {
                            assert(strs(self.doc_roots@)[before.len() as int] == doc_roots@[
                                i as int
                            ]@);
                        }
                    }
                }
            }
            i = i + 1;
        }
        let rn = roam_roots.len();
        let mut j: usize = 0;
        while j < rn
            invariant
                0 <= j <= rn,
                rn == roam_roots@.len(),
                dn == doc_roots@.len(),
                forall|k: int|
                    0 <= k < dn ==> strs(self.doc_roots@).contains((#[trigger] doc_roots@[k])@),
                forall|k: int|
                    0 <= k < j ==> strs(self.roam_roots@).contains((#[trigger] roam_roots@[k])@),
            decreases rn - j,
        {
            let ghost before = strs(self.roam_roots@);
            let ghost before_docs = strs(self.doc_roots@);
            self.update_roam_root(roam_roots[j].as_str());
            proof {
                assert(strs(self.doc_roots@) == before_docs);
                assert forall|k: int| 0 <= k < j + 1 implies strs(self.roam_roots@).contains(
                    (#[trigger] roam_roots@[k])@,
                ) by {
                    if k < j {
                        let w = choose|w: int|
                            0 <= w < before.len() && before[w] == roam_roots@[k]@;
                        assert(strs(self.roam_roots@)[w] == roam_roots@[k]@);
                    } else {
                        if !before.contains(roam_roots@[j as int]@) {
                            assert(strs(self.roam_roots@)[before.len() as int] == roam_roots@[
                                j as int
                            ]@);
                        }
                    }
                }
            }
            j = j + 1;
        }
        let ghost docs_after = self.doc_roots@;
        let ghost roams_after = self.roam_roots@;
        let mut jobs: Vec<SyncJob> = Vec::new();
        loop
            invariant
                self.doc_roots@ == docs_after,
                self.roam_roots@ == roams_after,
            ensures
                self.service.jobs_seq().len() == 0,
                self.doc_roots@ == docs_after,
                self.roam_roots@ == roams_after,
            decreases self.service.jobs_seq().len(),
        {
            match self.service.dequeue_job() {
                None => {
                    break ;
                },
                Some(job) => {
                    jobs.push(job);
                },
            }
        }
        jobs
    }
}

fn contains_str(v: &Vec<String>, s: &str) -> (r: bool)
    ensures
        r == strs(v@).contains(s@),
{
    let n = v.len();
    let mut i: usize = 0;
    while i < n
        invariant
            0 <= i <= n,
            n == v@.len(),
            forall|j: int| 0 <= j < i ==> (#[trigger] v@[j])@ != s@,
        decreases n - i,
    {
        let av = crate::text::str_chars(v[i].as_str());
        let bv = crate::text::str_chars(s);
        if crate::text::chars_eq(&av, &bv) {
            proof {
                assert(strs(v@)[i as int] == s@);
            }
            return true;
        }
        i = i + 1;
    }
    proof {
        if strs(v@).contains(s@) {
            let w = choose|k: int| 0 <= k < strs(v@).len() && strs(v@)[k] == s@;
            assert(v@[w]@ == s@);
        }
    }
    false
}

} // verus!
