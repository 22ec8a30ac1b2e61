use vstd::prelude::*;
use vstd::string::StringExecFns;

use crate::tree::DTree;
use crate::tree::valid_name;

verus! {

/// The printed form of a branch: `/` alone for the empty branch, else a
/// leading `/` with each segment followed by `/`.
pub open spec fn render_path(segs: Seq<Seq<char>>) -> Seq<char>
    decreases segs.len(),
{
    if segs.len() == 0 {
        seq!['/']
    } else {
        seq!['/'] + segs[0] + render_path(segs.drop_first())
    }
}

/// Every segment of a branch is a usable directory name: non-empty and
/// free of `/`.
pub open spec fn segs_ok(segs: Seq<Seq<char>>) -> bool {
    forall|k: int| 0 <= k < segs.len() ==> (#[trigger] segs[k]).len() > 0 && valid_name(segs[k])
}

/// The shape of a printed path: it starts and ends with `/` and never
/// holds two `/` in a row.
pub open spec fn path_shape_ok(p: Seq<char>) -> bool {
    &&& p.len() >= 1
    &&& p[0] == '/'
    &&& p[p.len() - 1] == '/'
    &&& (forall|k: int| 0 <= k < p.len() - 1 ==> !(#[trigger] p[k] == '/' && p[k + 1] == '/'))
}

impl DTree {
    /// The branches from `self` to each reachable leaf, one sequence of
    /// segment names per leaf, leftmost child first.
    pub open spec fn leaves_of(self) -> Seq<Seq<Seq<char>>>
        decreases self, self.children.len() + 1,
    {
        if self.children.len() == 0 {
            seq![Seq::<Seq<char>>::empty()]
        } else {
            self.leaves_from(0)
        }
    }

    /// The branches through the children of `self` from index `i` on.
    pub open spec fn leaves_from(self, i: int) -> Seq<Seq<Seq<char>>>
        decreases self, self.children.len() - i,
    {
        if i < 0 || i >= self.children.len() {
            Seq::empty()
        } else {
            self.children[i].subdir.leaves_of().map_values(
                |segs: Seq<Seq<char>>| segs.insert(0, self.children[i].name@),
            ) + self.leaves_from(i + 1)
        }
    }

    /// How many leaves are reachable from `self`; the empty tree is one
    /// (degenerate) leaf.
    pub open spec fn leaf_count(self) -> nat
        decreases self, self.children.len() + 1,
    {
        if self.children.len() == 0 {
            1
        } else {
            self.leaf_count_from(0)
        }
    }

    /// How many leaves are reachable through the children from index `i` on.
    pub open spec fn leaf_count_from(self, i: int) -> nat
        decreases self, self.children.len() - i,
    {
        if i < 0 || i >= self.children.len() {
            0
        } else {
            self.children[i].subdir.leaf_count() + self.leaf_count_from(i + 1)
        }
    }

    /// The printed paths of all branches of `self`, in the order of
    /// [`DTree::leaves_of`].
    pub open spec fn paths_of(self) -> Seq<Seq<char>> {
        self.leaves_of().map_values(|segs: Seq<Seq<char>>| render_path(segs))
    }

    /// The printed paths of the branches through the children from `i` on.
    pub open spec fn rendered_from(self, i: int) -> Seq<Seq<char>> {
        self.leaves_from(i).map_values(|segs: Seq<Seq<char>>| render_path(segs))
    }

    /// Produce the path to each reachable leaf: `/` at the beginning, at
    /// the end, and between segments. The empty tree yields just `/`.
    pub fn paths(&self) -> (r: Vec<String>)
        ensures
            r.deep_view() == self.paths_of(),
        decreases *self,
    {
        let mut out: Vec<String> = Vec::new();
        if self.children.len() == 0 {
            let s = slash_string();
            out.push(s);
            proof {
                assert(render_path(Seq::<Seq<char>>::empty()) == seq!['/']);
                assert(out.deep_view() =~= self.paths_of());
            }
            return out;
        }
        let mut i: usize = 0;
        while i < self.children.len()
            invariant
                i <= self.children.len(),
                self.children.len() > 0,
                out.deep_view() + self.rendered_from(i as int) =~= self.paths_of(),
            decreases self.children.len() - i,
        {
            let ghost out0 = out.deep_view();
            let ghost name = self.children[i as int].name@;
            let ghost sub = self.children[i as int].subdir;
            let ghost branch = sub.leaves_of().map_values(
                |segs: Seq<Seq<char>>| render_path(segs.insert(0, name)),
            );
            let sub_paths = self.children[i].subdir.paths();
            proof {
                assert(sub_paths.deep_view() == sub.paths_of());
                assert(sub.paths_of().len() == sub.leaves_of().len());
                assert(branch.len() == sub.leaves_of().len());
            }
            let mut k: usize = 0;
            while k < sub_paths.len()
                invariant
                    k <= sub_paths.len(),
                    i < self.children.len(),
                    name == self.children[i as int].name@,
                    sub == self.children[i as int].subdir,
                    sub_paths.deep_view() == sub.paths_of(),
                    branch == sub.leaves_of().map_values(
                        |segs: Seq<Seq<char>>| render_path(segs.insert(0, name)),
                    ),
                    branch.len() == sub_paths.len(),
                    out.deep_view() =~= out0 + branch.take(k as int),
                decreases sub_paths.len() - k,
            {
                let mut s = slash_string();
                s.append(self.children[i].name.as_str());
                s.append(sub_paths[k].as_str());
                proof {
                    let segs = sub.leaves_of()[k as int];
                    assert(sub_paths.deep_view()[k as int] == sub_paths[k as int]@);
                    assert(sub.paths_of()[k as int] == render_path(segs));
                    lemma_render_cons(name, segs);
                    assert(s@ == render_path(segs.insert(0, name)));
                    assert(branch[k as int] == render_path(segs.insert(0, name)));
                }
                let ghost dv_before = out.deep_view();
                out.push(s);
                proof {
                    assert(out.deep_view() =~= dv_before.push(s@));
                    assert(out0 + branch.take(k as int + 1) =~= (out0 + branch.take(
                        k as int,
                    )).push(branch[k as int]));
                }
                k += 1;
            }
            proof {
                assert(branch.take(sub_paths.len() as int) =~= branch);
                lemma_rendered_step(*self, i as int);
                assert(out.deep_view() + self.rendered_from(i as int + 1) =~= (out0
                    + self.rendered_from(i as int)));
                assert(out.deep_view() + self.rendered_from(i as int + 1) =~= self.paths_of());
            }
            i += 1;
        }
        proof {
            assert(self.rendered_from(self.children.len() as int) =~= Seq::<Seq<char>>::empty());
            assert(out.deep_view() =~= self.paths_of());
        }
        out
    }
}

/// Prepending a segment to a branch prepends `/` and the segment's name to
/// its printed path.
pub proof fn lemma_render_cons(name: Seq<char>, segs: Seq<Seq<char>>)
    ensures
        render_path(segs.insert(0, name)) == seq!['/'] + name + render_path(segs),
{
    let s2 = segs.insert(0, name);
    assert(s2.len() == segs.len() + 1);
    assert(s2[0] == name);
    assert(s2.drop_first() =~= segs);
}

/// One step of [`DTree::rendered_from`]: the paths from child `i` on are
/// the paths through child `i` followed by the paths from child `i + 1` on.
proof fn lemma_rendered_step(t: DTree, i: int)
    requires
        0 <= i < t.children.len(),
    ensures
        t.rendered_from(i) =~= t.children[i].subdir.leaves_of().map_values(
            |segs: Seq<Seq<char>>| render_path(segs.insert(0, t.children[i].name@)),
        ) + t.rendered_from(i + 1),
{
    let name = t.children[i].name@;
    let sub = t.children[i].subdir;
    let pre = sub.leaves_of().map_values(|segs: Seq<Seq<char>>| segs.insert(0, name));
    assert(t.leaves_from(i) == pre + t.leaves_from(i + 1));
    let lhs = t.rendered_from(i);
    let rhs = sub.leaves_of().map_values(
        |segs: Seq<Seq<char>>| render_path(segs.insert(0, name)),
    ) + t.rendered_from(i + 1);
    assert(lhs.len() == rhs.len());
    assert forall|n: int| 0 <= n < lhs.len() implies lhs[n] == rhs[n] by {
        if n < pre.len() {
            assert(t.leaves_from(i)[n] == pre[n]);
            assert(pre[n] == sub.leaves_of()[n].insert(0, name));
        } else {
            assert(t.leaves_from(i)[n] == t.leaves_from(i + 1)[n - pre.len()]);
        }
    }
    assert(lhs =~= rhs);
}

/// The length of the leading run of non-`/` characters.
pub open spec fn token_len(p: Seq<char>) -> nat
    decreases p.len(),
{
    if p.len() == 0 || p[0] == '/' {
        0
    } else {
        1 + token_len(p.drop_first())
    }
}

/// The maximal runs of non-`/` characters of `p`, in order: splitting on
/// `/` with empty tokens dropped.
pub open spec fn split_slash(p: Seq<char>) -> Seq<Seq<char>>
    decreases p.len(),
    via split_slash_decreases
{
    if p.len() == 0 {
        Seq::empty()
    } else if p[0] == '/' {
        split_slash(p.drop_first())
    } else {
        seq![p.take(token_len(p) as int)] + split_slash(p.skip(token_len(p) as int))
    }
}

#[via_fn]
proof fn split_slash_decreases(p: Seq<char>) {
    lemma_token_len_le(p);
}

/// The leading token never runs past the end of the string.
proof fn lemma_token_len_le(p: Seq<char>)
    ensures
        token_len(p) <= p.len(),
    decreases p.len(),
{
    if p.len() > 0 && p[0] != '/' {
        lemma_token_len_le(p.drop_first());
    }
}

/// A slash-free string followed by one that opens with `/` has the whole
/// first string as its leading token.
proof fn lemma_token_len_concat(s: Seq<char>, q: Seq<char>)
    requires
        valid_name(s),
        q.len() > 0,
        q[0] == '/',
    ensures
        token_len(s + q) == s.len(),
    decreases s.len(),
{
    if s.len() == 0 {
        assert(s + q =~= q);
    } else {
        assert((s + q)[0] == s[0]);
        if s[0] == '/' {
            assert(s.contains('/'));
        }
        assert((s + q).drop_first() =~= s.drop_first() + q);
        assert forall|k: int| 0 <= k < s.drop_first().len() implies #[trigger] s.drop_first()[k]
            != '/' by {
            if s.drop_first()[k] == '/' {
                assert(s[k + 1] == '/');
                assert(s.contains('/'));
            }
        }
        if s.drop_first().contains('/') {
            let k = choose|k: int|
                0 <= k < s.drop_first().len() && s.drop_first()[k] == '/';
            assert(false);
        }
        lemma_token_len_concat(s.drop_first(), q);
    }
}

/// Dropping the first segment of a branch keeps the rest usable.
proof fn lemma_segs_ok_drop(segs: Seq<Seq<char>>)
    requires
        segs_ok(segs),
        segs.len() > 0,
    ensures
        segs_ok(segs.drop_first()),
{
    assert forall|k: int| 0 <= k < segs.drop_first().len() implies (#[trigger] segs.drop_first()[
        k
    ]).len() > 0 && valid_name(segs.drop_first()[k]) by {
        assert(segs.drop_first()[k] == segs[k + 1]);
    }
}

/// A rendered branch always opens with `/`.
proof fn lemma_render_starts_with_slash(segs: Seq<Seq<char>>)
    ensures
        render_path(segs).len() >= 1,
        render_path(segs)[0] == '/',
{
    if segs.len() > 0 {
        assert(render_path(segs) == seq!['/'] + segs[0] + render_path(segs.drop_first()));
        assert(render_path(segs)[0] == '/');
    }
}

/// The shape of a rendered branch with usable segments: it starts and
/// ends with `/` and never holds `//`.
pub proof fn lemma_render_shape(segs: Seq<Seq<char>>)
    requires
        segs_ok(segs),
    ensures
        path_shape_ok(render_path(segs)),
    decreases segs.len(),
{
    let p = render_path(segs);
    if segs.len() == 0 {
        assert(p == seq!['/']);
        assert(p[0] == '/');
    } else {
        let s0 = segs[0];
        let rest = segs.drop_first();
        lemma_segs_ok_drop(segs);
        lemma_render_shape(rest);
        let q = render_path(rest);
        assert(p == seq!['/'] + s0 + q);
        assert(s0.len() > 0 && valid_name(s0));
        assert forall|k: int| 0 <= k < s0.len() implies #[trigger] s0[k] != '/' by {
            if s0[k] == '/' {
                assert(s0.contains('/'));
            }
        }
        assert(p.len() == 1 + s0.len() + q.len());
        assert(p[0] == '/');
        assert(p[p.len() - 1] == q[q.len() - 1]);
        assert forall|k: int| 0 <= k < p.len() - 1 implies !(#[trigger] p[k] == '/' && p[k + 1]
            == '/') by {
            if 1 <= k && k <= s0.len() {
                assert(p[k] == s0[k - 1]);
            } else if k == 0 {
                assert(p[1] == s0[0]);
            } else {
                assert(p[k] == q[k - 1 - s0.len()]);
                assert(p[k + 1] == q[k - s0.len()]);
            }
        }
    }
}

/// Branches of a well-formed tree with non-empty names carry usable
/// segments, and there are as many branches as leaves.
proof fn lemma_leaves_props(t: DTree)
    requires
        t.wf(),
        t.names_nonempty(),
    ensures
        t.leaves_of().len() == t.leaf_count(),
        forall|n: int| 0 <= n < t.leaves_of().len() ==> segs_ok(#[trigger] t.leaves_of()[n]),
    decreases t, t.children.len() + 1,
{
    if t.children.len() == 0 {
        assert(t.leaves_of() == seq![Seq::<Seq<char>>::empty()]);
    } else {
        lemma_leaves_from_props(t, 0);
    }
}

/// As [`lemma_leaves_props`], for the branches through the children from
/// index `i` on.
proof fn lemma_leaves_from_props(t: DTree, i: int)
    requires
        t.wf(),
        t.names_nonempty(),
        0 <= i <= t.children.len(),
    ensures
        t.leaves_from(i).len() == t.leaf_count_from(i),
        forall|n: int| 0 <= n < t.leaves_from(i).len() ==> segs_ok(#[trigger] t.leaves_from(i)[n]),
    decreases t, t.children.len() - i,
{
    if i < t.children.len() {
        let sub = t.children[i].subdir;
        let name = t.children[i].name@;
        assert(sub.wf() && sub.names_nonempty() && name.len() > 0 && valid_name(name));
        lemma_leaves_props(sub);
        lemma_leaves_from_props(t, i + 1);
        let pre = sub.leaves_of().map_values(|segs: Seq<Seq<char>>| segs.insert(0, name));
        assert(t.leaves_from(i) == pre + t.leaves_from(i + 1));
        assert forall|n: int| 0 <= n < t.leaves_from(i).len() implies segs_ok(
            #[trigger] t.leaves_from(i)[n],
        ) by {
            if n < pre.len() {
                let segs = sub.leaves_of()[n];
                assert(t.leaves_from(i)[n] == segs.insert(0, name));
                assert(segs_ok(segs));
                assert(segs.insert(0, name) =~= seq![name] + segs);
                assert forall|k: int| 0 <= k < segs.insert(0, name).len() implies (
                #[trigger] segs.insert(0, name)[k]).len() > 0 && valid_name(
                    segs.insert(0, name)[k],
                ) by {
                    if k > 0 {
                        assert(segs.insert(0, name)[k] == segs[k - 1]);
                    }
                }
            } else {
                assert(t.leaves_from(i)[n] == t.leaves_from(i + 1)[n - pre.len()]);
            }
        }
    }
}

/// In a well-formed tree whose names are all non-empty, `paths` yields
/// exactly one string per reachable leaf, and every one of them starts
/// and ends with `/` and never holds `//`.
pub proof fn lemma_paths_shape(t: DTree)
    requires
        t.wf(),
        t.names_nonempty(),
    ensures
        t.paths_of().len() == t.leaf_count(),
        forall|n: int| 0 <= n < t.paths_of().len() ==> path_shape_ok(#[trigger] t.paths_of()[n]),
{
    lemma_leaves_props(t);
    assert forall|n: int| 0 <= n < t.paths_of().len() implies path_shape_ok(
        #[trigger] t.paths_of()[n],
    ) by {
        assert(t.paths_of()[n] == render_path(t.leaves_of()[n]));
        lemma_render_shape(t.leaves_of()[n]);
    }
}

/// Splitting a rendered branch on `/`, dropping empty tokens, recovers
/// exactly the branch's segments.
pub proof fn lemma_split_render(segs: Seq<Seq<char>>)
    requires
        segs_ok(segs),
    ensures
        split_slash(render_path(segs)) == segs,
    decreases segs.len(),
{
    let p = render_path(segs);
    if segs.len() == 0 {
        assert(p == seq!['/']);
        assert(p.drop_first() =~= Seq::<char>::empty());
        assert(split_slash(p) == split_slash(p.drop_first()));
        assert(segs =~= Seq::<Seq<char>>::empty());
    } else {
        let s0 = segs[0];
        let rest = segs.drop_first();
        lemma_segs_ok_drop(segs);
        let q = render_path(rest);
        lemma_render_starts_with_slash(rest);
        assert(p == seq!['/'] + s0 + q);
        assert(p[0] == '/');
        assert(p.drop_first() =~= s0 + q);
        let w = s0 + q;
        lemma_token_len_concat(s0, q);
        assert(token_len(w) == s0.len());
        assert(w[0] == s0[0]);
        if s0[0] == '/' {
            assert(s0.contains('/'));
        }
        assert(w.take(s0.len() as int) =~= s0);
        assert(w.skip(s0.len() as int) =~= q);
        lemma_split_render(rest);
        assert(split_slash(w) == seq![s0] + rest);
        assert(seq![s0] + rest =~= segs);
    }
}

/// Round trip: splitting each printed path of a well-formed tree with
/// non-empty names on `/` recovers exactly the names passed to `mkdir`
/// along that branch.
pub proof fn lemma_paths_round_trip(t: DTree)
    requires
        t.wf(),
        t.names_nonempty(),
    ensures
        t.paths_of().len() == t.leaves_of().len(),
        forall|n: int| 0 <= n < t.paths_of().len() ==> split_slash(#[trigger] t.paths_of()[n])
            == t.leaves_of()[n],
{
    lemma_leaves_props(t);
    assert forall|n: int| 0 <= n < t.paths_of().len() implies split_slash(
        #[trigger] t.paths_of()[n],
    ) == t.leaves_of()[n] by {
        assert(t.paths_of()[n] == render_path(t.leaves_of()[n]));
        lemma_split_render(t.leaves_of()[n]);
    }
}

/// A `/` by itself, as a `String`.
fn slash_string() -> (s: String)
    ensures
        s@ == seq!['/'],
{
    let s = "/".to_owned();
    proof {
        reveal_strlit("/");
        assert(s@ =~= seq!['/']);
    }
    s
}

} // verus!
