use vstd::prelude::*;
use vstd::string::StrSliceExecFns;

use crate::errors::DirError;

verus! {

/// A directory name is acceptable when it does not contain the
/// path-separator character `/`.
pub open spec fn valid_name(name: Seq<char>) -> bool {
    !name.contains('/')
}

/// After a mutable visit: some subtree `t2` and the result `res` came out of
/// the visitor `f` applied to `m`, and `post` is `pre` with the subtree at
/// `pv` replaced by `t2`.
pub open spec fn visited_at<R, F: FnOnce(DTree) -> (DTree, R)>(
    f: F,
    m: DTree,
    res: R,
    pre: DTree,
    pv: Seq<Seq<char>>,
    post: DTree,
) -> bool {
    exists|t2: DTree|
        #[trigger] call_ensures(f, (m,), (t2, res)) && pre.replaced_at(pv, t2, post)
}

/// One directory entry: a name paired with the subtree it owns.
#[derive(Debug)]
pub struct DEnt {
    pub name: String,
    pub subdir: DTree,
}

/// A directory tree: an ordered sequence of uniquely named entries.
#[derive(Debug)]
pub struct DTree {
    pub children: Vec<DEnt>,
}

impl DTree {
    /// Well-formedness: sibling names are distinct, no name contains `/`,
    /// and every subtree is well-formed in turn.
    pub open spec fn wf(self) -> bool
        decreases self,
    {
        &&& (forall|i: int, j: int|
            0 <= i < j < self.children.len() ==> self.children[i].name@ != self.children[j].name@)
        &&& (forall|i: int|
            0 <= i < self.children.len() ==> valid_name(#[trigger] self.children[i].name@))
        &&& (forall|i: int|
            0 <= i < self.children.len() ==> (#[trigger] self.children[i]).subdir.wf())
    }

    /// Every name in the tree, at every depth, is non-empty.
    pub open spec fn names_nonempty(self) -> bool
        decreases self,
    {
        forall|i: int|
            0 <= i < self.children.len() ==> ((#[trigger] self.children[i]).name@.len() > 0
                && self.children[i].subdir.names_nonempty())
    }

    /// Whether some entry carries the given name.
    pub open spec fn has_child(self, name: Seq<char>) -> bool {
        exists|i: int| 0 <= i < self.children.len() && self.children[i].name@ == name
    }

    /// The index of an entry carrying the given name (unique under `wf`).
    pub open spec fn child_idx(self, name: Seq<char>) -> int {
        choose|i: int| 0 <= i < self.children.len() && self.children[i].name@ == name
    }

    /// The subtree of the entry carrying the given name.
    pub open spec fn child(self, name: Seq<char>) -> DTree {
        self.children[self.child_idx(name)].subdir
    }

    /// The subtree reached from `self` by successive child lookups along
    /// `path`, or `None` at the first segment that matches no child.
    pub open spec fn subtree_at(self, path: Seq<Seq<char>>) -> Option<DTree>
        decreases path.len(),
    {
        if path.len() == 0 {
            Some(self)
        } else if self.has_child(path[0]) {
            self.child(path[0]).subtree_at(path.drop_first())
        } else {
            None
        }
    }

    /// How many leading segments of `path` resolve from `self`; when
    /// resolution fails this is the index of the offending segment.
    pub open spec fn resolved_prefix(self, path: Seq<Seq<char>>) -> int
        decreases path.len(),
    {
        if path.len() == 0 {
            0
        } else if self.has_child(path[0]) {
            1 + self.child(path[0]).resolved_prefix(path.drop_first())
        } else {
            0
        }
    }

    /// `t2` is `self` with one new entry appended: the given name over an
    /// empty subtree.
    pub open spec fn with_new_child(self, name: Seq<char>, t2: DTree) -> bool {
        &&& t2.children.len() == self.children.len() + 1
        &&& (forall|i: int| 0 <= i < self.children.len() ==> t2.children[i] == self.children[i])
        &&& t2.children[self.children.len() as int].name@ == name
        &&& t2.children[self.children.len() as int].subdir.children.len() == 0
    }

    /// `t2` is `self` with the subtree at `path` replaced by `sub`, and
    /// everything else unchanged. False when `path` does not resolve.
    pub open spec fn replaced_at(self, path: Seq<Seq<char>>, sub: DTree, t2: DTree) -> bool
        decreases path.len(),
    {
        if path.len() == 0 {
            t2 == sub
        } else if !self.has_child(path[0]) {
            false
        } else {
            let i = self.child_idx(path[0]);
            &&& t2.children.len() == self.children.len()
            &&& (forall|j: int|
                0 <= j < self.children.len() && j != i ==> t2.children[j] == self.children[j])
            &&& t2.children[i].name == self.children[i].name
            &&& self.children[i].subdir.replaced_at(path.drop_first(), sub, t2.children[i].subdir)
        }
    }

    /// The index of the first entry carrying the given name, if any.
    pub(crate) fn find_child(&self, name: &str) -> (r: Option<usize>)
        ensures
            (r matches Some(j) ==> j < self.children.len() && self.children[j as int].name@
                == name@),
            (r is None ==> !self.has_child(name@)),
    {
        let mut i: usize = 0;
        while i < self.children.len()
            invariant
                i <= self.children.len(),
                forall|k: int| 0 <= k < i ==> self.children[k].name@ != name@,
            decreases self.children.len() - i,
        {
            if str_eq(self.children[i].name.as_str(), name) {
                return Some(i);
            }
            i += 1;
        }
        proof {
            if self.has_child(name@) {
                let k = choose|k: int|
                    0 <= k < self.children.len() && self.children[k].name@ == name@;
                assert(self.children[k].name@ != name@);
            }
        }
        None
    }

    /// Make a subdirectory with the given name in this directory.
    ///
    /// On success the new entry is appended after the existing children,
    /// with an empty subtree. On error nothing changes.
    pub fn mkdir(&mut self, name: &str) -> (r: Result<(), DirError>)
        requires
            old(self).wf(),
        ensures
            final(self).wf(),
            (!valid_name(name@) ==> (r matches Err(DirError::SlashInName(n)) && n@ == name@)
                && *final(self) == *old(self)),
            (valid_name(name@) && old(self).has_child(name@) ==> (r matches Err(
                DirError::DirExists(n),
            ) && n@ == name@) && *final(self) == *old(self)),
            (valid_name(name@) && !old(self).has_child(name@) ==> r is Ok
                && old(self).with_new_child(name@, *final(self))),
            (old(self).names_nonempty() && name@.len() > 0 && r is Ok
                ==> final(self).names_nonempty()),
    {
        if contains_slash(name) {
            return Err(DirError::SlashInName(name.to_owned()));
        }
        if self.find_child(name).is_some() {
            proof {
                assert(self.has_child(name@));
            }
            return Err(DirError::DirExists(name.to_owned()));
        }
        let ghost pre = *self;
        self.children.push(DEnt { name: name.to_owned(), subdir: DTree { children: Vec::new() } });
        proof {
            let n = pre.children.len() as int;
            assert(forall|k: int| 0 <= k < n ==> pre.children[k].name@ != name@);
            assert(self.children[n].subdir.wf());
            assert(self.children[n].subdir.names_nonempty());
            assert forall|i: int, j: int| 0 <= i < j < self.children.len() implies self.children[i].name@
                != self.children[j].name@ by {
                if j < n {
                    assert(self.children[i] == pre.children[i]);
                    assert(self.children[j] == pre.children[j]);
                } else {
                    assert(self.children[i] == pre.children[i]);
                    assert(self.children[j].name@ == name@);
                }
            }
            assert forall|i: int| 0 <= i < self.children.len() implies valid_name(
                #[trigger] self.children[i].name@,
            ) && (#[trigger] self.children[i]).subdir.wf() by {
                if i < n {
                    assert(self.children[i] == pre.children[i]);
                }
            }
            assert(self.wf());
            if pre.names_nonempty() && name@.len() > 0 {
                assert forall|i: int| 0 <= i < self.children.len() implies (
                #[trigger] self.children[i]).name@.len() > 0
                    && self.children[i].subdir.names_nonempty() by {
                    if i < n {
                        assert(self.children[i] == pre.children[i]);
                    }
                }
            }
        }
        Ok(())
    }

    /// Walk down the tree along `path` and hand back a shared reference to
    /// the directory it reaches, or the offending segment of the path.
    pub fn descend(&self, path: &[String]) -> (r: Result<&DTree, DirError>)
        requires
            self.wf(),
        ensures
            (self.subtree_at(path.deep_view()) matches Some(m) ==> (r matches Ok(t) && *t == m)),
            (self.subtree_at(path.deep_view()) is None ==> (r matches Err(
                DirError::InvalidChild(seg),
            ) && seg@ == path.deep_view()[self.resolved_prefix(path.deep_view())])),
    {
        let ghost pv = path.deep_view();
        let mut cur: &DTree = self;
        let mut i: usize = 0;
        proof {
            assert(pv.take(0) =~= Seq::<Seq<char>>::empty());
        }
        while i < path.len()
            invariant
                i <= path.len(),
                pv == path.deep_view(),
                pv.len() == path.len(),
                self.wf(),
                cur.wf(),
                self.subtree_at(pv.take(i as int)) == Some(*cur),
            decreases path.len() - i,
        {
            proof {
                assert(pv[i as int] == path@[i as int]@);
            }
            match cur.find_child(path[i].as_str()) {
                Some(j) => {
                    proof {
                        let a = pv.take(i as int);
                        let b = seq![pv[i as int]];
                        assert(cur.has_child(pv[i as int]));
                        let ci = cur.child_idx(pv[i as int]);
                        assert(0 <= ci < cur.children.len() && cur.children[ci].name@ == pv[
                            i as int
                        ]);
                        assert(ci == j as int);
                        assert(b.drop_first() =~= Seq::<Seq<char>>::empty());
                        assert(b[0] == pv[i as int]);
                        assert(cur.child(b[0]) == cur.children[j as int].subdir);
                        assert(cur.child(b[0]).subtree_at(b.drop_first()) == Some(
                            cur.children[j as int].subdir,
                        ));
                        assert(cur.subtree_at(b) == Some(cur.children[j as int].subdir));
                        lemma_subtree_concat(*self, a, b);
                        assert(a + b =~= pv.take(i + 1));
                        assert(cur.children[j as int].subdir.wf());
                    }
                    cur = &cur.children[j].subdir;
                    i += 1;
                }
                None => {
                    proof {
                        let a = pv.take(i as int);
                        let b = pv.skip(i as int);
                        assert(b[0] == pv[i as int]);
                        assert(!cur.has_child(b[0]));
                        assert(cur.subtree_at(b) is None);
                        assert(cur.resolved_prefix(b) == 0);
                        lemma_subtree_concat(*self, a, b);
                        assert(a + b =~= pv);
                        assert(self.subtree_at(pv) is None);
                        assert(self.resolved_prefix(pv) == i);
                    }
                    return Err(DirError::InvalidChild(path[i].clone()));
                },
            }
        }
        proof {
            assert(pv.take(path.len() as int) =~= pv);
        }
        Ok(cur)
    }

    /// Traverse to the subdirectory given by `path`, then call `f` to visit
    /// it read-only; the visitor's result is handed back.
    pub fn with_subdir<R, F: FnOnce(&DTree) -> R>(&self, path: &[String], f: F) -> (r: Result<
        R,
        DirError,
    >)
        requires
            self.wf(),
            (self.subtree_at(path.deep_view()) matches Some(m) ==> call_requires(f, (&m,))),
        ensures
            (self.subtree_at(path.deep_view()) matches Some(m) ==> (r matches Ok(res)
                && call_ensures(f, (&m,), res))),
            (self.subtree_at(path.deep_view()) is None ==> (r matches Err(
                DirError::InvalidChild(seg),
            ) && seg@ == path.deep_view()[self.resolved_prefix(path.deep_view())])),
    {
        match self.descend(path) {
            Ok(t) => Ok(f(t)),
            Err(e) => Err(e),
        }
    }

    /// A mutable reference to the subtree of the entry at index `j`.
    fn child_subdir_mut(&mut self, j: usize) -> (sub: &mut DTree)
        requires
            j < old(self).children.len(),
        ensures
            *sub == old(self).children[j as int].subdir,
            final(self).children@ == old(self).children@.update(
                j as int,
                (DEnt { name: old(self).children[j as int].name, subdir: *final(sub) }),
            ),
    {
        &mut self.children[j].subdir
    }

    /// Traverse to the subdirectory given by `path`, then call `f` to visit
    /// it with exclusive access: the visitor takes the subtree by value and
    /// returns the subtree that takes its place, together with its result.
    pub fn with_subdir_mut<R, F: FnOnce(DTree) -> (DTree, R)>(
        &mut self,
        path: &[String],
        f: F,
    ) -> (r: Result<R, DirError>)
        requires
            old(self).wf(),
            (old(self).subtree_at(path.deep_view()) matches Some(m) ==> call_requires(f, (m,))),
        ensures
            (old(self).subtree_at(path.deep_view()) matches Some(m) ==> (r matches Ok(res)
                && visited_at(f, m, res, *old(self), path.deep_view(), *final(self)))),
            (old(self).subtree_at(path.deep_view()) is None ==> *final(self) == *old(self) && (
            r matches Err(DirError::InvalidChild(seg)) && seg@ == path.deep_view()[old(
                self,
            ).resolved_prefix(path.deep_view())])),
    {
        match self.descend(path) {
            Err(e) => Err(e),
            Ok(_) => {
                proof {
                    assert(path.deep_view().skip(0) =~= path.deep_view());
                }
                let res = self.with_subdir_mut_from(path, 0, f);
                Ok(res)
            },
        }
    }

    /// Recursive worker for [`DTree::with_subdir_mut`]: walks the segments
    /// of a path known to resolve, from position `i` on.
    fn with_subdir_mut_from<R, F: FnOnce(DTree) -> (DTree, R)>(
        &mut self,
        path: &[String],
        i: usize,
        f: F,
    ) -> (res: R)
        requires
            i <= path.len(),
            old(self).wf(),
            old(self).subtree_at(path.deep_view().skip(i as int)) is Some,
            (old(self).subtree_at(path.deep_view().skip(i as int)) matches Some(m)
                ==> call_requires(f, (m,))),
        ensures
            (old(self).subtree_at(path.deep_view().skip(i as int)) matches Some(m) ==> visited_at(
                f,
                m,
                res,
                *old(self),
                path.deep_view().skip(i as int),
                *final(self),
            )),
        decreases path.len() - i,
    {
        let ghost pv = path.deep_view().skip(i as int);
        if i == path.len() {
            proof {
                assert(pv =~= Seq::<Seq<char>>::empty());
            }
            let mut taken = DTree { children: Vec::new() };
            core::mem::swap(self, &mut taken);
            let pair = f(taken);
            let t2 = pair.0;
            let res = pair.1;
            *self = t2;
            res
        } else {
            proof {
                assert(pv[0] == path@[i as int]@);
                assert(pv.drop_first() =~= path.deep_view().skip(i as int + 1));
            }
            match self.find_child(path[i].as_str()) {
                None => {
                    proof {
                        assert(!self.has_child(pv[0]));
                        assert(false);
                    }
                    vstd::pervasive::unreached()
                },
                Some(j) => {
                    let ghost pre = *self;
                    proof {
                        let ci = pre.child_idx(pv[0]);
                        assert(pre.has_child(pv[0]));
                        assert(0 <= ci < pre.children.len() && pre.children[ci].name@ == pv[0]);
                        assert(ci == j as int);
                        assert(pre.child(pv[0]) == pre.children[j as int].subdir);
                        assert(pre.children[j as int].subdir.wf());
                    }
                    let sub: &mut DTree = self.child_subdir_mut(j);
                    let res = sub.with_subdir_mut_from(path, i + 1, f);
                    proof {
                        let ci = pre.child_idx(pv[0]);
                        assert(pre.subtree_at(pv) == pre.children[j as int].subdir.subtree_at(
                            pv.drop_first(),
                        ));
                    }
                    res
                },
            }
        }
    }

    /// Create a new empty directory tree.
    pub fn new() -> (r: DTree)
        ensures
            r.children@.len() == 0,
            r.wf(),
            r.names_nonempty(),
    {
        DTree { children: Vec::new() }
    }
}

impl Default for DTree {
    fn default() -> (r: DTree)
        ensures
            r.children@.len() == 0,
            r.wf(),
    {
        DTree { children: Vec::new() }
    }
}

impl DEnt {
    /// Create an entry with the given name over an empty subtree.
    pub fn new(name: &str) -> (r: Result<DEnt, DirError>)
        ensures
            (valid_name(name@) ==> (r matches Ok(e) && e.name@ == name@
                && e.subdir.children@.len() == 0)),
            (!valid_name(name@) ==> (r matches Err(DirError::SlashInName(n)) && n@ == name@)),
    {
        if contains_slash(name) {
            Err(DirError::SlashInName(name.to_owned()))
        } else {
            Ok(DEnt { name: name.to_owned(), subdir: DTree::new() })
        }
    }
}

/// Resolution steps into well-formed subtrees: whatever a path reaches in a
/// well-formed tree is well-formed, and has non-empty names if the whole
/// tree does.
pub proof fn lemma_subtree_wf(t: DTree, path: Seq<Seq<char>>)
    requires
        t.wf(),
    ensures
        (t.subtree_at(path) matches Some(m) ==> m.wf() && (t.names_nonempty()
            ==> m.names_nonempty())),
    decreases path.len(),
{
    if path.len() > 0 && t.has_child(path[0]) {
        let i = t.child_idx(path[0]);
        assert(0 <= i < t.children.len() && t.children[i].name@ == path[0]);
        lemma_subtree_wf(t.child(path[0]), path.drop_first());
    }
}

/// Resolving a concatenated path is resolving its parts in turn, and the
/// offending segment of a failed resolution lies where the first failing
/// part says.
pub proof fn lemma_subtree_concat(t: DTree, a: Seq<Seq<char>>, b: Seq<Seq<char>>)
    ensures
        (t.subtree_at(a) matches Some(m) ==> t.subtree_at(a + b) == m.subtree_at(b) && (
        m.subtree_at(b) is None ==> t.resolved_prefix(a + b) == a.len() + m.resolved_prefix(b))),
        (t.subtree_at(a) is None ==> t.subtree_at(a + b) is None && t.resolved_prefix(a + b)
            == t.resolved_prefix(a)),
    decreases a.len(),
{
    if a.len() == 0 {
        assert(a + b =~= b);
    } else {
        assert((a + b).len() > 0);
        assert((a + b)[0] == a[0]);
        assert((a + b).drop_first() =~= a.drop_first() + b);
        if t.has_child(a[0]) {
            lemma_subtree_concat(t.child(a[0]), a.drop_first(), b);
        }
    }
}

/// The resolved prefix never leaves the path, and points at a real
/// segment whenever resolution fails.
pub proof fn lemma_resolved_prefix_bounds(t: DTree, path: Seq<Seq<char>>)
    ensures
        0 <= t.resolved_prefix(path) <= path.len(),
        t.subtree_at(path) is None ==> t.resolved_prefix(path) < path.len(),
    decreases path.len(),
{
    if path.len() > 0 && t.has_child(path[0]) {
        lemma_resolved_prefix_bounds(t.child(path[0]), path.drop_first());
    }
}

/// Replacing the subtree at a resolvable path by a well-formed subtree
/// keeps the whole tree well-formed; non-empty names are kept likewise.
pub proof fn lemma_replaced_wf(t: DTree, path: Seq<Seq<char>>, sub: DTree, t2: DTree)
    requires
        t.wf(),
        sub.wf(),
        t.replaced_at(path, sub, t2),
    ensures
        t2.wf(),
        t.names_nonempty() && sub.names_nonempty() ==> t2.names_nonempty(),
    decreases path.len(),
{
    if path.len() == 0 {
    } else {
        let i = t.child_idx(path[0]);
        assert(t.has_child(path[0]));
        assert(0 <= i < t.children.len() && t.children[i].name@ == path[0]);
        lemma_replaced_wf(t.children[i].subdir, path.drop_first(), sub, t2.children[i].subdir);
        assert forall|a: int, b: int| 0 <= a < b < t2.children.len() implies t2.children[a].name@
            != t2.children[b].name@ by {
            assert(t2.children[a].name == t.children[a].name || t2.children[a]
                == t.children[a]);
            assert(t2.children[b].name == t.children[b].name || t2.children[b]
                == t.children[b]);
        }
        assert forall|a: int| 0 <= a < t2.children.len() implies valid_name(
            #[trigger] t2.children[a].name@,
        ) && (#[trigger] t2.children[a]).subdir.wf() by {
            if a != i {
                assert(t2.children[a] == t.children[a]);
            } else {
                assert(t2.children[a].name == t.children[a].name);
            }
        }
        assert(t2.wf());
        if t.names_nonempty() && sub.names_nonempty() {
            assert forall|a: int| 0 <= a < t2.children.len() implies (
            #[trigger] t2.children[a]).name@.len() > 0
                && t2.children[a].subdir.names_nonempty() by {
                if a != i {
                    assert(t2.children[a] == t.children[a]);
                } else {
                    assert(t2.children[a].name == t.children[a].name);
                }
            }
        }
    }
}

/// A mutation through a path is visible to an immediately following
/// traversal of the same path: resolving it in the new tree finds exactly
/// the replacement subtree, with no stale view.
pub proof fn lemma_replaced_resolves(t: DTree, path: Seq<Seq<char>>, sub: DTree, t2: DTree)
    requires
        t.wf(),
        t.replaced_at(path, sub, t2),
    ensures
        t2.subtree_at(path) == Some(sub),
    decreases path.len(),
{
    if path.len() == 0 {
    } else {
        let i = t.child_idx(path[0]);
        assert(t.has_child(path[0]));
        assert(0 <= i < t.children.len() && t.children[i].name@ == path[0]);
        assert(t2.children[i].name@ == path[0]);
        assert(t2.has_child(path[0]));
        let i2 = t2.child_idx(path[0]);
        assert(0 <= i2 < t2.children.len() && t2.children[i2].name@ == path[0]);
        if i2 != i {
            assert(t2.children[i2] == t.children[i2]);
            assert(t.children[i2].name@ == t.children[i].name@);
            assert(false);
        }
        lemma_replaced_resolves(
            t.children[i].subdir,
            path.drop_first(),
            sub,
            t2.children[i].subdir,
        );
    }
}

/// A freshly created subdirectory can be traversed to: after `mkdir(name)`
/// succeeds, the one-segment path `[name]` resolves, and in a well-formed
/// tree it resolves to the new empty directory.
pub proof fn lemma_new_child_resolves(t: DTree, name: Seq<char>, t2: DTree)
    requires
        t.with_new_child(name, t2),
    ensures
        t2.subtree_at(seq![name]) is Some,
        t.wf() && !t.has_child(name) ==> (t2.subtree_at(seq![name]) matches Some(c)
            && c.children.len() == 0),
{
    let p = seq![name];
    let n = t.children.len() as int;
    assert(t2.children[n].name@ == name);
    assert(t2.has_child(p[0]));
    assert(p.drop_first() =~= Seq::<Seq<char>>::empty());
    let i = t2.child_idx(p[0]);
    assert(0 <= i < t2.children.len() && t2.children[i].name@ == name);
    assert(t2.child(p[0]) == t2.children[i].subdir);
    assert(t2.children[i].subdir.subtree_at(Seq::<Seq<char>>::empty()) == Some(
        t2.children[i].subdir,
    ));
    assert(t2.subtree_at(p) == Some(t2.children[i].subdir));
    if t.wf() && !t.has_child(name) {
        if i != n {
            assert(t2.children[i] == t.children[i]);
            assert(t.has_child(name));
            assert(false);
        }
        assert(t2.children[n].subdir.children.len() == 0);
    }
}

/// Character-by-character equality of two string slices.
fn str_eq(a: &str, b: &str) -> (r: bool)
    ensures
        r == (a@ == b@),
{
    let alen = a.unicode_len();
    let blen = b.unicode_len();
    if alen != blen {
        return false;
    }
    let mut i: usize = 0;
    while i < alen
        invariant
            i <= alen,
            alen == a@.len(),
            blen == b@.len(),
            alen == blen,
            forall|k: int| 0 <= k < i ==> a@[k] == b@[k],
        decreases alen - i,
    {
        if a.get_char(i) != b.get_char(i) {
            return false;
        }
        i += 1;
    }
    proof {
        assert(a@ =~= b@);
    }
    true
}

/// Whether the string contains the path separator `/`.
pub(crate) fn contains_slash(s: &str) -> (r: bool)
    ensures
        r == !valid_name(s@),
{
    let n = s.unicode_len();
    let mut i: usize = 0;
    while i < n
        invariant
            i <= n,
            n == s@.len(),
            forall|k: int| 0 <= k < i ==> s@[k] != '/',
        decreases n - i,
    {
        if s.get_char(i) == '/' {
            proof {
                assert(s@[i as int] == '/');
                assert(s@.contains('/'));
            }
            return true;
        }
        i += 1;
    }
    proof {
        if s@.contains('/') {
            let k = choose|k: int| 0 <= k < s@.len() && s@[k] == '/';
            assert(s@[k] != '/');
        }
    }
    false
}

} // verus!
