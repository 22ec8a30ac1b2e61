use vstd::prelude::*;

use crate::errors::DirError;
use crate::tree::DTree;
use crate::tree::contains_slash;
use crate::tree::lemma_replaced_wf;
use crate::tree::lemma_resolved_prefix_bounds;
use crate::tree::lemma_subtree_concat;
use crate::tree::lemma_subtree_wf;
use crate::tree::valid_name;

verus! {

/// After a successful `mkdir` in the working directory: the directory `m`
/// the working path led to gained one child of the given name, and `post`
/// is the whole tree `d` with `m`'s replacement put back at `cv`.
pub open spec fn mkdir_applied(
    m: DTree,
    name: Seq<char>,
    d: DTree,
    cv: Seq<Seq<char>>,
    post: DTree,
) -> bool {
    exists|t2: DTree| #[trigger] m.with_new_child(name, t2) && d.replaced_at(cv, t2, post)
}

/// Operating-system stub state: a directory tree together with the current
/// working directory, stored as a path of segment names from the root.
#[derive(Debug)]
pub struct OsState {
    pub dtree: DTree,
    pub cwd: Vec<String>,
}

impl OsState {
    /// Create a fresh state: an empty tree, positioned at the root.
    pub fn new() -> (r: OsState)
        ensures
            r.dtree.children@.len() == 0,
            r.dtree.wf(),
            r.cwd@.len() == 0,
    {
        OsState { dtree: DTree::new(), cwd: Vec::new() }
    }

    /// If `path` is empty, return to the root. Otherwise move the working
    /// directory down along `path`, resolved relative to the current
    /// working directory; on failure the working directory is unchanged.
    pub fn chdir(&mut self, path: &[String]) -> (r: Result<(), DirError>)
        requires
            old(self).dtree.wf(),
        ensures
            final(self).dtree == old(self).dtree,
            (path.deep_view().len() == 0 ==> r is Ok && final(self).cwd@.len() == 0),
            (path.deep_view().len() > 0 ==> ({
                let d = old(self).dtree;
                let full = old(self).cwd.deep_view() + path.deep_view();
                &&& (d.subtree_at(full) is Some ==> r is Ok && final(self).cwd.deep_view()
                    == full)
                &&& (d.subtree_at(full) is None ==> final(self).cwd == old(self).cwd && (
                r matches Err(DirError::InvalidChild(seg)) && seg@ == full[d.resolved_prefix(
                    full,
                )]))
            })),
    {
        let ghost d = self.dtree;
        let ghost cv = self.cwd.deep_view();
        let ghost pv = path.deep_view();
        let ghost full = cv + pv;
        if path.len() == 0 {
            self.cwd = Vec::new();
            return Ok(());
        }
        let cwd_slice = self.cwd.as_slice();
        proof {
            assert(cwd_slice.deep_view() =~= cv);
            lemma_subtree_concat(d, cv, pv);
            lemma_resolved_prefix_bounds(d, cv);
            lemma_subtree_wf(d, cv);
        }
        let cur = match self.dtree.descend(cwd_slice) {
            Ok(t) => t,
            Err(e) => {
                proof {
                    assert(full[d.resolved_prefix(full)] == cv[d.resolved_prefix(cv)]);
                }
                return Err(e);
            },
        };
        match cur.descend(path) {
            Ok(_) => {},
            Err(e) => {
                proof {
                    lemma_resolved_prefix_bounds(*cur, pv);
                    assert(full[d.resolved_prefix(full)] == pv[cur.resolved_prefix(pv)]);
                }
                return Err(e);
            },
        }
        let mut k: usize = 0;
        proof {
            assert(self.cwd.deep_view() =~= cv + pv.take(0));
        }
        while k < path.len()
            invariant
                k <= path.len(),
                pv == path.deep_view(),
                pv.len() == path.len(),
                self.dtree == d,
                self.cwd.deep_view() =~= cv + pv.take(k as int),
            decreases path.len() - k,
        {
            let ghost dvb = self.cwd.deep_view();
            self.cwd.push(path[k].clone());
            proof {
                assert(self.cwd.deep_view() =~= dvb.push(pv[k as int]));
                assert(cv + pv.take(k as int + 1) =~= (cv + pv.take(k as int)).push(
                    pv[k as int],
                ));
            }
            k += 1;
        }
        proof {
            assert(pv.take(path.len() as int) =~= pv);
            assert(self.cwd.deep_view() =~= full);
        }
        Ok(())
    }

    /// Make a new subdirectory with the given `name` in the working
    /// directory. A failed call leaves the state untouched.
    pub fn mkdir(&mut self, name: &str) -> (r: Result<(), DirError>)
        requires
            old(self).dtree.wf(),
        ensures
            final(self).cwd == old(self).cwd,
            final(self).dtree.wf(),
            ({
                let d = old(self).dtree;
                let cv = old(self).cwd.deep_view();
                &&& (d.subtree_at(cv) is None ==> *final(self) == *old(self) && (r matches Err(
                    DirError::InvalidChild(seg),
                ) && seg@ == cv[d.resolved_prefix(cv)]))
                &&& (d.subtree_at(cv) matches Some(m) ==> {
                    &&& (!valid_name(name@) ==> *final(self) == *old(self) && (r matches Err(
                        DirError::SlashInName(n),
                    ) && n@ == name@))
                    &&& (valid_name(name@) && m.has_child(name@) ==> *final(self) == *old(self)
                        && (r matches Err(DirError::DirExists(n)) && n@ == name@))
                    &&& (valid_name(name@) && !m.has_child(name@) ==> r is Ok && mkdir_applied(
                        m,
                        name@,
                        d,
                        cv,
                        final(self).dtree,
                    ))
                })
            }),
    {
        let ghost d = self.dtree;
        let ghost cv = self.cwd.deep_view();
        let cwd_slice = self.cwd.as_slice();
        proof {
            assert(cwd_slice.deep_view() =~= cv);
            lemma_subtree_wf(d, cv);
        }
        let target = match self.dtree.descend(cwd_slice) {
            Ok(t) => t,
            Err(e) => {
                return Err(e);
            },
        };
        if contains_slash(name) {
            return Err(DirError::SlashInName(name.to_owned()));
        }
        if target.find_child(name).is_some() {
            proof {
                assert(target.has_child(name@));
            }
            return Err(DirError::DirExists(name.to_owned()));
        }
        let f = |t: DTree| -> (out: (DTree, Result<(), DirError>))
            requires
                t.wf(),
            ensures
                out.0.wf(),
                (valid_name(name@) && !t.has_child(name@) ==> out.1 is Ok && t.with_new_child(
                    name@,
                    out.0,
                )),
            {
                let mut t2 = t;
                let rr = t2.mkdir(name);
                (t2, rr)
            };
        let r = self.dtree.with_subdir_mut(self.cwd.as_slice(), f);
        match r {
            Ok(inner) => {
                proof {
                    let m = d.subtree_at(cv)->Some_0;
                    let t2 = choose|t2: DTree|
                        #[trigger] call_ensures(f, (m,), (t2, inner)) && d.replaced_at(
                            cv,
                            t2,
                            self.dtree,
                        );
                    assert(t2.wf());
                    lemma_replaced_wf(d, cv, t2, self.dtree);
                    assert(m.with_new_child(name@, t2));
                    assert(mkdir_applied(m, name@, d, cv, self.dtree));
                }
                inner
            },
            Err(_) => {
                proof {
                    assert(false);
                }
                vstd::pervasive::unreached()
            },
        }
    }

    /// Produce the paths from the working directory to each reachable
    /// leaf, as [`DTree::paths`] does for the resolved directory.
    pub fn paths(&self) -> (r: Result<Vec<String>, DirError>)
        requires
            self.dtree.wf(),
        ensures
            (self.dtree.subtree_at(self.cwd.deep_view()) matches Some(m) ==> (r matches Ok(v)
                && v.deep_view() == m.paths_of())),
            (self.dtree.subtree_at(self.cwd.deep_view()) is None ==> (r matches Err(
                DirError::InvalidChild(seg),
            ) && seg@ == self.cwd.deep_view()[self.dtree.resolved_prefix(self.cwd.deep_view())])),
    {
        let cwd_slice = self.cwd.as_slice();
        proof {
            assert(cwd_slice.deep_view() =~= self.cwd.deep_view());
        }
        match self.dtree.descend(cwd_slice) {
            Ok(t) => Ok(t.paths()),
            Err(e) => Err(e),
        }
    }
}

impl Default for OsState {
    fn default() -> (r: OsState)
        ensures
            r.dtree.children@.len() == 0,
            r.dtree.wf(),
            r.cwd@.len() == 0,
    {
        OsState { dtree: DTree::new(), cwd: Vec::new() }
    }
}

} // verus!
