//! The navigation cursor over a coverage tree: a drill-down path of segment
//! labels from the root, a per-node selection index, and the directional
//! operations of the interactive explorer.  Every operation is total; at a
//! boundary it is a no-op.

use vstd::prelude::*;
use crate::text::str_eq;
use crate::tree::{EntryTree, NodeV, wf_nodes, wf_at, seg_ok, find_child, find_child_from,
    spec_step, spec_resolve_from, lemma_find_child_props};
use crate::parser::{parse_coverage_text, spec_records, spec_insert_all, spec_root, recs_valid,
    ParseError};
use crate::tree::agg;

verus! {

/// An event handed to the interactive loop: a key, or a timer tick.
pub enum Event<I> {
    Input(I),
    Tick,
}

/// Two arenas that navigate alike: same length, names and child lists.
pub open spec fn same_nav(a: Seq<NodeV>, b: Seq<NodeV>) -> bool {
    &&& a.len() == b.len()
    &&& forall|i: int|
        0 <= i < a.len() ==> (#[trigger] b[i]).name == a[i].name && b[i].children == a[i].children
}

pub(crate) proof fn lemma_find_child_same_nav(a: Seq<NodeV>, b: Seq<NodeV>, at: int, nm: Seq<char>, k: int)
    requires
        same_nav(a, b),
    ensures
        find_child_from(a, at, nm, k) == find_child_from(b, at, nm, k),
    decreases a[at].children.len() - k,
{
    if 0 <= at < a.len() && 0 <= k < a[at].children.len() {
        let c = a[at].children[k];
        if 0 <= c < a.len() {
            assert(b[c].name == a[c].name);
        }
        if !(0 <= c < a.len() && a[c].name == nm) {
            lemma_find_child_same_nav(a, b, at, nm, k + 1);
        }
    }
}

proof fn lemma_resolve_same_nav(a: Seq<NodeV>, b: Seq<NodeV>, at: int, toks: Seq<Seq<char>>)
    requires
        same_nav(a, b),
    ensures
        spec_resolve_from(a, at, toks) == spec_resolve_from(b, at, toks),
    decreases toks.len(),
{
    if toks.len() > 0 {
        lemma_find_child_same_nav(a, b, at, toks[0], 0);
        let j = spec_step(a, at, toks[0]);
        if 0 <= j < a.len() {
            lemma_resolve_same_nav(a, b, j, toks.skip(1));
        }
    }
}

/// A prefix of a resolving token sequence resolves as well.
proof fn lemma_resolve_prefix(s: Seq<NodeV>, at: int, toks: Seq<Seq<char>>, j: int)
    requires
        spec_resolve_from(s, at, toks) >= 0,
        0 <= j <= toks.len(),
    ensures
        spec_resolve_from(s, at, toks.take(j)) >= 0,
    decreases toks.len(),
{
    if j == 0 {
        assert(toks.take(0) =~= Seq::<Seq<char>>::empty());
        if at < 0 {
            assert(spec_resolve_from(s, at, toks) == if toks.len() == 0 {
                at
            } else {
                spec_resolve_from(s, at, toks)
            });
        }
        assert(spec_resolve_from(s, at, toks.take(0)) == at);
        if toks.len() == 0 {
        } else {
            let n = spec_step(s, at, toks[0]);
            if !(0 <= n < s.len()) {
                assert(spec_resolve_from(s, at, toks) == -1);
            }
        }
    } else {
        let n = spec_step(s, at, toks[0]);
        assert(0 <= n < s.len()) by {
            if !(0 <= n < s.len()) {
                assert(spec_resolve_from(s, at, toks) == -1);
            }
        }
        lemma_resolve_prefix(s, n, toks.skip(1), j - 1);
        assert(toks.take(j).skip(1) =~= toks.skip(1).take(j - 1));
        assert(toks.take(j)[0] == toks[0]);
    }
}

/// Resolving one more segment is one more step.
proof fn lemma_resolve_snoc(s: Seq<NodeV>, at: int, toks: Seq<Seq<char>>, x: Seq<char>)
    requires
        spec_resolve_from(s, at, toks) >= 0,
    ensures
        spec_resolve_from(s, at, toks.push(x)) == ({
            let r = spec_resolve_from(s, at, toks);
            let n = spec_step(s, r, x);
            if 0 <= n < s.len() {
                n
            } else {
                -1
            }
        }),
    decreases toks.len(),
{
    if toks.len() == 0 {
        assert(toks.push(x)[0] == x);
        assert(toks.push(x).skip(1) =~= Seq::<Seq<char>>::empty());
        let n2 = spec_step(s, at, x);
        assert(spec_resolve_from(s, n2, Seq::<Seq<char>>::empty()) == n2);
    } else {
        let n = spec_step(s, at, toks[0]);
        assert(0 <= n < s.len()) by {
            if !(0 <= n < s.len()) {
                assert(spec_resolve_from(s, at, toks) == -1);
            }
        }
        lemma_resolve_snoc(s, n, toks.skip(1), x);
        assert(toks.push(x)[0] == toks[0]);
        assert(toks.push(x).skip(1) =~= toks.skip(1).push(x));
    }
}

/// Where the selection lands after one upward move on a node with `nc`
/// children: zero when there are none or it stood at one or zero, else one
/// less.
pub open spec fn up_step(sel: int, nc: int) -> int {
    if nc == 0 || sel <= 1 {
        0
    } else {
        sel - 1
    }
}

/// Where the selection lands after one downward move on a node with `nc`
/// children: zero when there are none, else one more, stopped at the last.
pub open spec fn down_step(sel: int, nc: int) -> int {
    if nc == 0 {
        0
    } else if sel + 1 < nc {
        sel + 1
    } else {
        nc - 1
    }
}

/// Interactive state: the tree and the drill-down path, whose segments are
/// labels from the root downward and always denote a node of the tree.
pub struct App {
    pub tree: EntryTree,
    pub path: Vec<String>,
}

impl App {
    pub open spec fn path_view(&self) -> Seq<Seq<char>> {
        self.path@.map_values(|p: String| p@)
    }

    /// The node the cursor tip denotes.
    pub open spec fn spec_tip(&self) -> int {
        spec_resolve_from(self.tree@, 0, self.path_view())
    }

    pub open spec fn wf(&self) -> bool {
        &&& self.tree.wf()
        &&& self.path@.len() >= 1
        &&& forall|j: int| 0 <= j < self.path@.len() ==> seg_ok(#[trigger] self.path_view()[j])
        &&& self.spec_tip() >= 0
    }

    /// Start a session on `tree`: the cursor holds the root's label and,
    /// when the root has a child, the label of its first child.
    pub fn new_from_tree(tree: EntryTree) -> (a: App)
        requires
            wf_nodes(tree@),
        ensures
            a.wf(),
            a.tree == tree,
            a.path_view() == (if tree@[0].children.len() > 0 {
                seq![tree@[0].name, tree@[tree@[0].children[0]].name]
            } else {
                seq![tree@[0].name]
            }),
    {
        let ghost t = tree@;
        let mut path: Vec<String> = Vec::new();
        path.push(tree.nodes[0].name.clone());
        proof {
            assert(t[0] == tree.nodes@[0]@);
            assert(wf_at(t, 0));
        }
        if self_has_children(&tree) {
            let c0 = tree.nodes[0].children[0];
            proof {
                assert(t[0].children[0] == c0 as int);
                assert(0 < c0 < t.len());
                assert(t[c0 as int] == tree.nodes@[c0 as int]@);
                assert(wf_at(t, c0 as int));
            }
            path.push(tree.nodes[c0].name.clone());
            let a = App { tree, path };
            proof {
                assert(a.path_view() =~= seq![t[0].name, t[t[0].children[0]].name]);
                assert(spec_step(t, 0, t[0].name) == 0);
                assert(seq![t[0].name].skip(1) =~= Seq::<Seq<char>>::empty());
                assert(spec_resolve_from(t, 0, Seq::<Seq<char>>::empty()) == 0);
                assert(spec_resolve_from(t, 0, seq![t[0].name]) == 0);
                let nm = t[t[0].children[0]].name;
                lemma_find_child_props(t, 0, nm, 0);
                if t[0].name != nm {
                    assert(find_child(t, 0, nm) != -1);
                }
                assert(spec_step(t, 0, nm) >= 0);
                lemma_resolve_snoc(t, 0, seq![t[0].name], nm);
                assert(seq![t[0].name].push(nm) =~= a.path_view());
                let stp = spec_step(t, 0, nm);
                if stp > 0 {
                    assert(wf_at(t, 0));
                }
                assert(a.spec_tip() >= 0);
            }
            a
        } else {
            let a = App { tree, path };
            proof {
                assert(a.path_view() =~= seq![t[0].name]);
                assert(spec_step(t, 0, t[0].name) == 0);
                assert(seq![t[0].name].skip(1) =~= Seq::<Seq<char>>::empty());
                assert(spec_resolve_from(t, 0, Seq::<Seq<char>>::empty()) == 0);
                assert(a.spec_tip() == 0);
            }
            a
        }
    }

    /// Parse a trace's text and open a session on the resulting tree.
    pub fn new_from_content(content: &str) -> (r: Result<App, ParseError>)
        ensures
            match r {
                Ok(a) => ({
                    let built = spec_insert_all(spec_root(), spec_records(content@, 0));
                    &&& a.wf()
                    &&& recs_valid(spec_records(content@, 0))
                    &&& a.tree@.len() == built.len()
                    &&& (forall|i: int|
                        0 <= i < built.len() ==> #[trigger] a.tree@[i] == (NodeV {
                            covered: crate::tree::agg(built, i).0,
                            instrumented: crate::tree::agg(built, i).1,
                            ..built[i]
                        }))
                    &&& a.path_view() == (if a.tree@[0].children.len() > 0 {
                        seq![a.tree@[0].name, a.tree@[a.tree@[0].children[0]].name]
                    } else {
                        seq![a.tree@[0].name]
                    })
                }),
                Err(e) => parse_coverage_text_would_fail(content@, e),
            },
    {
        match parse_coverage_text(content) {
            Ok(tree) => Ok(App::new_from_tree(tree)),
            Err(e) => Err(e),
        }
    }

    /// Index of the node denoted by the first `upto + 1` path segments.
    fn resolve_prefix(&self, upto: usize) -> (r: Option<usize>)
        requires
            self.tree.wf(),
            upto < self.path@.len(),
        ensures
            ({
                let rr = spec_resolve_from(self.tree@, 0, self.path_view().take(upto + 1));
                match r {
                    Some(i) => rr == i as int && i < self.tree@.len(),
                    None => rr == -1,
                }
            }),
    {
        let ghost t = self.tree@;
        let ghost toks = self.path_view().take(upto + 1);
        let plen = self.path.len();
        proof {
            assert(toks.skip(0) =~= toks);
        }
        let mut node: usize = 0;
        let mut j: usize = 0;
        while j <= upto
            invariant
                self.tree.wf(),
                t == self.tree@,
                toks == self.path_view().take(upto + 1),
                upto < plen,
                plen == self.path@.len(),
                j <= upto + 1,
                node < t.len(),
                spec_resolve_from(t, 0, toks) == spec_resolve_from(t, node as int, toks.skip(j as int)),
            decreases upto + 1 - j,
        {
            let ghost rest = toks.skip(j as int);
            proof {
                assert(rest[0] == self.path_view()[j as int]);
                assert(t[node as int] == self.tree.nodes@[node as int]@);
                assert(wf_at(t, node as int));
            }
            let next: usize;
            if str_eq(self.tree.nodes[node].name.as_str(), self.path[j].as_str()) {
                next = node;
            } else {
                match self.tree.find_child_idx(node, self.path[j].as_str()) {
                    Some(c) => {
                        next = c;
                    },
                    None => {
                        proof {
                            assert(spec_step(t, node as int, rest[0]) == -1);
                            assert(spec_resolve_from(t, node as int, rest) == -1);
                        }
                        return None;
                    },
                }
            }
            proof {
                assert(spec_step(t, node as int, rest[0]) == next as int);
                assert(rest.skip(1) =~= toks.skip(j + 1));
            }
            node = next;
            j += 1;
        }
        proof {
            assert(toks.skip(upto + 1) =~= Seq::<Seq<char>>::empty());
        }
        Some(node)
    }

    /// The drill-down path joined with separators, cut after
    /// `1 + (idx mod length)` segments; a negative `idx` counts from the tip,
    /// so `-1` names the tip itself.
    pub fn fullpath(&self, idx: i32) -> (r: String)
        requires
            self.wf(),
        ensures
            r@ == spec_join(self.path_view().take(spec_level(idx as int, self.path@.len() as int) + 1)),
    {
        let plen = self.path.len();
        let upto = level_of(idx, plen);
        let mut out: String = self.path[0].clone();
        let mut j: usize = 1;
        while j <= upto
            invariant
                self.wf(),
                upto < plen,
                plen == self.path@.len(),
                1 <= j <= upto + 1,
                out@ == spec_join(self.path_view().take(j as int)),
            decreases upto + 1 - j,
        {
            out.append("/");
            out.append(self.path[j].as_str());
            proof {
                lemma_join_snoc(self.path_view().take(j as int), self.path_view()[j as int]);
                assert(self.path_view().take(j as int).push(self.path_view()[j as int])
                    =~= self.path_view().take(j + 1));
                assert(out@ == spec_join(self.path_view().take(j + 1)));
            }
            j += 1;
        }
        proof {
            assert(self.path_view().take(1) =~= seq![self.path_view()[0]]);
        }
        out
    }

    /// The node denoted by the path cut as `fullpath` cuts it.
    pub fn get_with_index(&self, idx: i32) -> (r: Option<usize>)
        requires
            self.wf(),
        ensures
            ({
                let rr = spec_resolve_from(
                    self.tree@,
                    0,
                    self.path_view().take(spec_level(idx as int, self.path@.len() as int) + 1),
                );
                match r {
                    Some(i) => rr == i as int && i < self.tree@.len(),
                    None => rr == -1,
                }
            }),
    {
        let upto = level_of(idx, self.path.len());
        self.resolve_prefix(upto)
    }

    /// Drop the last path segment; at the root the cursor stays as it is.
    pub fn previous(&mut self)
        requires
            old(self).wf(),
        ensures
            final(self).wf(),
            final(self).tree == old(self).tree,
            old(self).path@.len() > 1 ==> final(self).path_view() == old(self).path_view().drop_last(),
            old(self).path@.len() <= 1 ==> final(self).path_view() == old(self).path_view(),
    {
        if self.path.len() > 1 {
            let ghost pv = self.path_view();
            let _ = self.path.pop();
            proof {
                assert(self.path_view() =~= pv.drop_last());
                assert(pv.drop_last() =~= pv.take(pv.len() - 1));
                lemma_resolve_prefix(self.tree@, 0, pv, pv.len() - 1);
            }
        }
    }
}

/// Whether the root has at least one child.
fn self_has_children(tree: &EntryTree) -> (r: bool)
    requires
        wf_nodes(tree@),
    ensures
        r == (tree@[0].children.len() > 0),
{
    tree.nodes[0].children.len() > 0
}

/// Path segments joined with the separator.
pub open spec fn spec_join(segs: Seq<Seq<char>>) -> Seq<char>
    decreases segs.len(),
{
    if segs.len() == 0 {
        Seq::empty()
    } else if segs.len() == 1 {
        segs[0]
    } else {
        segs[0] + "/"@ + spec_join(segs.skip(1))
    }
}

proof fn lemma_join_snoc(segs: Seq<Seq<char>>, x: Seq<char>)
    requires
        segs.len() >= 1,
    ensures
        spec_join(segs.push(x)) == spec_join(segs) + "/"@ + x,
    decreases segs.len(),
{
    if segs.len() == 1 {
        assert(segs.push(x)[0] == segs[0]);
        assert(segs.push(x).skip(1) =~= seq![x]);
        assert(spec_join(seq![x]) == x);
        assert(spec_join(segs.push(x)) == segs[0] + "/"@ + x);
    } else {
        lemma_join_snoc(segs.skip(1), x);
        assert(segs.push(x)[0] == segs[0]);
        assert(segs.push(x).skip(1) =~= segs.skip(1).push(x));
        assert(spec_join(segs.push(x)) == segs[0] + "/"@ + (spec_join(segs.skip(1)) + "/"@ + x));
        assert(segs[0] + "/"@ + (spec_join(segs.skip(1)) + "/"@ + x) =~= (segs[0] + "/"@
            + spec_join(segs.skip(1))) + "/"@ + x);
    }
}

/// The number of extra segments that offset `idx` keeps, always in
/// `[0, m)`: the non-negative remainder of `idx` by the path length.
pub open spec fn spec_level(idx: int, m: int) -> int {
    if m > 0 {
        idx % m
    } else {
        0
    }
}

/// The non-negative remainder of `idx` by `m`.
fn level_of(idx: i32, m: usize) -> (r: usize)
    requires
        1 <= m,
    ensures
        r as int == spec_level(idx as int, m as int),
        r < m,
{
    if idx >= 0 {
        (idx as usize) % m
    } else {
        let neg = (-(idx as i64)) as usize;
        let k = neg % m;
        proof {
            let mi = m as int;
            let ni = neg as int;
            let ki = k as int;
            vstd::arithmetic::div_mod::lemma_fundamental_div_mod(ni, mi);
            let q = ni / mi;
            if ki == 0 {
                assert((-q) * mi == -(q * mi)) by (nonlinear_arith);
                assert(mi * q == q * mi) by (nonlinear_arith);
                vstd::arithmetic::div_mod::lemma_fundamental_div_mod_converse(
                    idx as int,
                    mi,
                    -q,
                    0,
                );
            } else {
                assert((-q - 1) * mi == -(q * mi) - mi) by (nonlinear_arith);
                assert(mi * q == q * mi) by (nonlinear_arith);
                vstd::arithmetic::div_mod::lemma_fundamental_div_mod_converse(
                    idx as int,
                    mi,
                    -q - 1,
                    mi - ki,
                );
            }
        }
        if k == 0 {
            0
        } else {
            m - k
        }
    }
}

/// Whether `parse_coverage_text` fails on `s` with error `e`.
pub open spec fn parse_coverage_text_would_fail(s: Seq<char>, e: ParseError) -> bool {
    let recs = spec_records(s, 0);
    let built = spec_insert_all(spec_root(), recs);
    match e {
        ParseError::InvalidCount => !recs_valid(recs),
        ParseError::CountOverflow => recs_valid(recs) && !(forall|i: int|
            0 <= i < built.len() ==> agg(built, i).0 <= u32::MAX && agg(built, i).1 <= u32::MAX),
    }
}

/// Rewriting one slot's selection keeps the arena well formed as long as the
/// new index is zero or within the children.
proof fn lemma_wf_set_selected(s: Seq<NodeV>, i: int, v: int)
    requires
        wf_nodes(s),
        0 <= i < s.len(),
        v == 0 || 0 <= v < s[i].children.len(),
    ensures
        wf_nodes(s.update(i, NodeV { selected: v, ..s[i] })),
{
    let s2 = s.update(i, NodeV { selected: v, ..s[i] });
    assert forall|j: int| 0 <= j < s2.len() implies #[trigger] crate::tree::wf_at(s2, j) by {
        assert(wf_at(s, j));
        assert(s2[j].children == s[j].children);
        assert forall|k: int| 0 <= k < s2[j].children.len() implies j
            < #[trigger] s2[j].children[k] < s2.len() by {
            assert(s[j].children[k] == s2[j].children[k]);
        }
        assert forall|k: int| 0 <= k < s2[j].children.len() implies s2[#[trigger] s2[j].children[k]].parent
            == j by {
            assert(s[j].children[k] == s2[j].children[k]);
            assert(s[s[j].children[k]].parent == j);
        }
        assert forall|k1: int, k2: int|
            0 <= k1 < k2 < s2[j].children.len() implies s2[#[trigger] s2[j].children[k1]].name
            != s2[#[trigger] s2[j].children[k2]].name by {
            assert(s[s[j].children[k1]].name != s[s[j].children[k2]].name);
        }
    }
    assert forall|j: int| 1 <= j < s2.len() implies #[trigger] crate::tree::linked_at(s2, j) by {
        assert(crate::tree::linked_at(s, j));
        assert(wf_at(s, j));
        let p = s[j].parent;
        let k = choose|k: int|
            0 <= k < s[p].children.len() && #[trigger] s[p].children[k] == j;
        assert(s2[j].parent == p);
        assert(s2[p].children == s[p].children);
        assert(s2[s2[j].parent].children[k] == j);
    }
}

impl App {
    /// Move the selection at the cursor tip one step up; with no children,
    /// or from index one or zero, it lands on zero.
    pub fn up(&mut self)
        requires
            old(self).wf(),
        ensures
            final(self).wf(),
            final(self).path_view() == old(self).path_view(),
            ({
                let t = old(self).tree@;
                let tip = old(self).spec_tip();
                let sel = t[tip].selected;
                let nc = t[tip].children.len();
                final(self).tree@ == t.update(
                    tip,
                    NodeV { selected: up_step(sel, nc as int), ..t[tip] },
                )
            }),
    {
        let plen = self.path.len();
        let tip_opt = self.resolve_prefix(plen - 1);
        proof {
            assert(self.path_view().take(plen as int) =~= self.path_view());
        }
        let tip = match tip_opt {
            Some(v) => v,
            None => {
                proof {
                    assert(false);
                }
                0
            },
        };
        let ghost t0 = self.tree@;
        proof {
            assert(t0[tip as int] == self.tree.nodes@[tip as int]@);
            assert(wf_at(t0, tip as int));
        }
        let nc = self.tree.nodes[tip].children.len();
        let sel = self.tree.nodes[tip].index_selected;
        let ghost ns: int = if nc == 0 || sel <= 1 { 0 } else { sel - 1 };
        if nc == 0 || sel <= 1 {
            self.tree.nodes[tip].index_selected = 0;
        } else {
            self.tree.nodes[tip].index_selected = sel - 1;
        }
        proof {
            assert(self.tree@ =~= t0.update(tip as int, NodeV { selected: ns, ..t0[tip as int] }));
            lemma_wf_set_selected(t0, tip as int, ns);
            assert(same_nav(t0, self.tree@));
            lemma_resolve_same_nav(t0, self.tree@, 0, self.path_view());
        }
    }

    /// Move the selection at the cursor tip one step down, stopping at the
    /// last child; with no children it lands on zero.
    pub fn down(&mut self)
        requires
            old(self).wf(),
        ensures
            final(self).wf(),
            final(self).path_view() == old(self).path_view(),
            ({
                let t = old(self).tree@;
                let tip = old(self).spec_tip();
                let sel = t[tip].selected;
                let nc = t[tip].children.len();
                final(self).tree@ == t.update(
                    tip,
                    NodeV { selected: down_step(sel, nc as int), ..t[tip] },
                )
            }),
    {
        let plen = self.path.len();
        let tip_opt = self.resolve_prefix(plen - 1);
        proof {
            assert(self.path_view().take(plen as int) =~= self.path_view());
        }
        let tip = match tip_opt {
            Some(v) => v,
            None => {
                proof {
                    assert(false);
                }
                0
            },
        };
        let ghost t0 = self.tree@;
        proof {
            assert(t0[tip as int] == self.tree.nodes@[tip as int]@);
            assert(wf_at(t0, tip as int));
        }
        let nc = self.tree.nodes[tip].children.len();
        let sel = self.tree.nodes[tip].index_selected;
        let ghost ns: int = if nc == 0 { 0 } else if sel + 1 < nc { sel + 1 } else { nc - 1 };
        if nc == 0 {
            self.tree.nodes[tip].index_selected = 0;
        } else {
            proof {
                assert(sel == 0 || sel < nc);
            }
            if sel + 1 < nc {
                self.tree.nodes[tip].index_selected = sel + 1;
            } else {
                self.tree.nodes[tip].index_selected = nc - 1;
            }
        }
        proof {
            assert(self.tree@ =~= t0.update(tip as int, NodeV { selected: ns, ..t0[tip as int] }));
            lemma_wf_set_selected(t0, tip as int, ns);
            assert(same_nav(t0, self.tree@));
            lemma_resolve_same_nav(t0, self.tree@, 0, self.path_view());
        }
    }

    /// Drill into the selected child of the cursor tip: its label is pushed
    /// onto the path unless the node so reached has no children, in which
    /// case the cursor stays where it was.  Nothing happens when the
    /// selection does not address a child.
    pub fn next(&mut self)
        requires
            old(self).wf(),
        ensures
            final(self).wf(),
            final(self).tree == old(self).tree,
            ({
                let t = old(self).tree@;
                let pv = old(self).path_view();
                let tip = old(self).spec_tip();
                let sel = t[tip].selected;
                if t[tip].children.len() > sel {
                    let nm = t[t[tip].children[sel]].name;
                    let mid = spec_resolve_from(t, 0, pv.push(nm));
                    &&& 0 <= mid < t.len()
                    &&& (t[mid].children.len() == 0 ==> final(self).path_view() == pv)
                    &&& (t[mid].children.len() > 0 ==> final(self).path_view() == pv.push(nm))
                } else {
                    final(self).path_view() == pv
                }
            }),
    {
        let plen = self.path.len();
        let tip_opt = self.resolve_prefix(plen - 1);
        proof {
            assert(self.path_view().take(plen as int) =~= self.path_view());
        }
        let tip = match tip_opt {
            Some(v) => v,
            None => {
                proof {
                    assert(false);
                }
                0
            },
        };
        let ghost t = self.tree@;
        let ghost pv = self.path_view();
        proof {
            assert(t[tip as int] == self.tree.nodes@[tip as int]@);
            assert(wf_at(t, tip as int));
        }
        let nc = self.tree.nodes[tip].children.len();
        let sel = self.tree.nodes[tip].index_selected;
        if nc > sel {
            let child = self.tree.nodes[tip].children[sel];
            proof {
                assert(t[tip as int].children[sel as int] == child as int);
                assert(tip < child < t.len());
                assert(t[child as int] == self.tree.nodes@[child as int]@);
                assert(wf_at(t, child as int));
            }
            let nm = self.tree.nodes[child].name.clone();
            proof {
                assert(t[child as int].name == nm@);
                if t[tip as int].name != nm@ {
                    lemma_find_child_props(t, tip as int, nm@, 0);
                    if find_child(t, tip as int, nm@) == -1 {
                        assert(t[t[tip as int].children[sel as int]].name != nm@);
                    }
                    assert(find_child(t, tip as int, nm@) >= 0);
                }
                assert(spec_step(t, tip as int, nm@) >= 0);
                assert(spec_step(t, tip as int, nm@) < t.len());
                lemma_resolve_snoc(t, 0, pv, nm@);
            }
            self.path.push(nm);
            proof {
                assert(self.path_view() =~= pv.push(t[child as int].name));
            }
            let mid_opt = self.resolve_prefix(self.path.len() - 1);
            proof {
                assert(self.path_view().take(self.path@.len() as int) =~= self.path_view());
            }
            let mid = match mid_opt {
                Some(v) => v,
                None => {
                    proof {
                        assert(false);
                    }
                    0
                },
            };
            proof {
                assert(t[mid as int] == self.tree.nodes@[mid as int]@);
            }
            if self.tree.nodes[mid].children.len() == 0 {
                let _ = self.path.pop();
                proof {
                    assert(self.path_view() =~= pv);
                }
            }
        }
    }
}

} // verus!
