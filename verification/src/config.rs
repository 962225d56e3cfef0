//! The display configuration: registered root paths and the day-window
//! parameters of the agenda view.

use vstd::prelude::*;
use crate::roam::{file_name_of, last_dot};
use crate::text::{eq_icase_s, eq_icase, str_chars, slice_to_vec_chars, chars_string, push_all};

verus! {

/// Root paths and agenda-window settings.
#[derive(Clone, PartialEq, Eq, Debug)]
pub struct AppConfig {
    pub roots: Vec<String>,
    pub agenda_span_days: usize,
    pub agenda_start_offset_days: i64,
    pub deadline_warning_days: i64,
}

pub open spec fn root_views(v: Seq<String>) -> Seq<Seq<char>> {
    v.map_values(|s: String| s@)
}

impl Default for AppConfig {
    /// Ten days of agenda starting today, a fourteen-day warning window,
    /// and no roots.
    fn default() -> (r: AppConfig)
        ensures
            r.roots@.len() == 0,
            r.agenda_span_days == 10,
            r.agenda_start_offset_days == 0,
            r.deadline_warning_days == 14,
    {
        AppConfig {
            roots: Vec::new(),
            agenda_span_days: 10,
            agenda_start_offset_days: 0,
            deadline_warning_days: 14,
        }
    }
}

impl AppConfig {
    /// Remembers a root path once; a repeat changes nothing.
    pub fn push_root(&mut self, path: String)
        ensures
            (root_views(old(self).roots@).contains(path@) ==> final(self).roots@ == old(
                self,
            ).roots@),
            (!root_views(old(self).roots@).contains(path@) ==> root_views(final(self).roots@)
                =~= root_views(old(self).roots@).push(path@)),
            final(self).agenda_span_days == old(self).agenda_span_days,
            final(self).agenda_start_offset_days == old(self).agenda_start_offset_days,
            final(self).deadline_warning_days == old(self).deadline_warning_days,
    {
        let n = self.roots.len();
        let mut i: usize = 0;
        while i < n
            invariant
                0 <= i <= n,
                n == self.roots@.len(),
                forall|j: int| 0 <= j < i ==> (#[trigger] self.roots@[j])@ != path@,
            decreases n - i,
        {
            if self.roots[i].eq(&path) {
                proof {
                    assert(root_views(self.roots@)[i as int] == path@);
                }
                return ;
            }
            i = i + 1;
        }
        proof {
            if root_views(self.roots@).contains(path@) {
                let w = choose|k: int|
                    0 <= k < root_views(self.roots@).len() && root_views(self.roots@)[k] == path@;
                assert(self.roots@[w]@ == path@);
            }
        }
        let ghost prev = root_views(self.roots@);
        let ghost pv = path@;
        self.roots.push(path);
        proof {
            assert(root_views(self.roots@) =~= prev.push(pv));
        }
    }

    /// On a device with private storage, registers an `org` directory
    /// under the storage root.
    pub fn bootstrap_mobile_defaults(&mut self, storage_root: Option<String>)
        ensures
            storage_root matches Some(root) ==> (!root_views(old(self).roots@).contains(
                root@ + "/org"@,
            ) ==> root_views(final(self).roots@) =~= root_views(old(self).roots@).push(
                root@ + "/org"@,
            )),
            storage_root is None ==> final(self).roots@ == old(self).roots@,
    {
        match storage_root {
            None => {},
            Some(root) => {
                let rootv = str_chars(root.as_str());
                let suffix = str_chars("/org");
                let mut joined = rootv;
                push_all(&mut joined, &suffix);
                proof {
                    assert(joined@ =~= root@ + "/org"@);
                }
                self.push_root(chars_string(&joined));
            },
        }
    }
}

/// The extension of a file name: what follows its last dot, absent when
/// there is none or only a leading one.
pub open spec fn extension_of(path: Seq<char>) -> Option<Seq<char>> {
    let name = file_name_of(path);
    let d = last_dot(name);
    if d <= 0 {
        None
    } else {
        Some(name.skip(d + 1))
    }
}

/// Whether a path names a planner document: its extension is `org` in any
/// case.
pub open spec fn is_org_file_spec(path: Seq<char>) -> bool {
    match extension_of(path) {
        Some(e) => eq_icase_s(e, "org"@),
        None => false,
    }
}

/// Whether a path names a planner document, by its extension.
pub fn is_org_file(path: &str) -> (r: bool)
    ensures
        r == is_org_file_spec(path@),
{
    let pathv = str_chars(path);
    let n = pathv.len();
    let mut k: usize = n;
    while k > 0 && pathv[k - 1] != '/'
        invariant
            0 <= k <= n,
            n == pathv@.len(),
            forall|j: int| k <= j < n ==> pathv@[j] != '/',
        decreases k,
    {
        k = k - 1;
    }
    proof {
        crate::roam::lemma_after_last(pathv@, '/', k as int);
    }
    let name = slice_to_vec_chars(&pathv, k, n);
    let m = name.len();
    let mut d: usize = m;
    while d > 0 && name[d - 1] != '.'
        invariant
            0 <= d <= m,
            m == name@.len(),
            forall|j: int| d <= j < m ==> name@[j] != '.',
        decreases d,
    {
        d = d - 1;
    }
    if d <= 1 {
        proof {
            if d == 0 {
                crate::roam::lemma_last_dot(name@, -1);
            } else {
                crate::roam::lemma_last_dot(name@, 0);
            }
        }
        return false;
    }
    proof {
        crate::roam::lemma_last_dot(name@, d - 1);
    }
    let ext = slice_to_vec_chars(&name, d, m);
    proof {
        assert(ext@ =~= name@.skip(d as int));
    }
    let pat = str_chars("org");
    eq_icase(&ext, &pat)
}

} // verus!
