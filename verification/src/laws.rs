//! The crate's standing theorems: the aggregated root carries the sum over
//! all childless nodes, and repeated selection moves clamp at the ends.

use vstd::prelude::*;
use crate::tree::{NodeV, wf_nodes, wf_at, linked_at, agg, agg_sum, seg_ok, spec_goc, spec_walk,
    spec_insert, spec_set_counts, split_path, split_from, find_child, find_child_from,
    lemma_find_child_props, lemma_find_char_first, lemma_goc_wf};
use crate::nav::{up_step, down_step, same_nav, lemma_find_child_same_nav};
use crate::text::spec_find_char;

verus! {

/// Counters of the childless nodes from slot `j` on, summed.
pub open spec fn leaf_sum(s: Seq<NodeV>, j: int) -> (int, int)
    decreases s.len() - j,
{
    if 0 <= j < s.len() {
        let rest = leaf_sum(s, j + 1);
        if s[j].children.len() == 0 {
            (rest.0 + s[j].covered, rest.1 + s[j].instrumented)
        } else {
            rest
        }
    } else {
        (0, 0)
    }
}

/// Aggregate totals of the roots of the suffix forest `[j, n)` under cutoff
/// `k`: slots whose parent lies before `k` (and the root itself).
spec fn rootsum(s: Seq<NodeV>, k: int, j: int) -> (int, int)
    decreases s.len() - j,
{
    if 0 <= j < s.len() {
        let rest = rootsum(s, k, j + 1);
        if j == 0 || s[j].parent < k {
            (rest.0 + agg(s, j).0, rest.1 + agg(s, j).1)
        } else {
            rest
        }
    } else {
        (0, 0)
    }
}

/// Aggregate totals of the slots in `[j, n)` whose parent is exactly `k`.
spec fn psum(s: Seq<NodeV>, k: int, j: int) -> (int, int)
    decreases s.len() - j,
{
    if 0 <= j < s.len() {
        let rest = psum(s, k, j + 1);
        if j != 0 && s[j].parent == k {
            (rest.0 + agg(s, j).0, rest.1 + agg(s, j).1)
        } else {
            rest
        }
    } else {
        (0, 0)
    }
}

/// Aggregate totals of the children of slot `i` from position `p` on.
spec fn agg_sum_from(s: Seq<NodeV>, i: int, p: int) -> (int, int)
    decreases s[i].children.len() - p,
{
    if 0 <= i < s.len() && 0 <= p < s[i].children.len() {
        let c = s[i].children[p];
        let rest = agg_sum_from(s, i, p + 1);
        let cc = if i < c < s.len() {
            agg(s, c)
        } else {
            (0, 0)
        };
        (cc.0 + rest.0, cc.1 + rest.1)
    } else {
        (0, 0)
    }
}

/// Raising the cutoff from `k` to `k + 1` admits exactly the children of `k`.
proof fn lemma_rootsum_diff(s: Seq<NodeV>, k: int, j: int)
    requires
        k + 1 <= j,
    ensures
        rootsum(s, k + 1, j).0 == rootsum(s, k, j).0 + psum(s, k, j).0,
        rootsum(s, k + 1, j).1 == rootsum(s, k, j).1 + psum(s, k, j).1,
    decreases s.len() - j,
{
    if 0 <= j < s.len() {
        lemma_rootsum_diff(s, k, j + 1);
    }
}

/// The tail sum over a child list is the total minus the prefix sum.
proof fn lemma_agg_sum_split(s: Seq<NodeV>, i: int, p: int)
    requires
        0 <= i < s.len(),
        0 <= p <= s[i].children.len(),
    ensures
        agg_sum(s, i, s[i].children.len() as int).0 == agg_sum(s, i, p).0 + agg_sum_from(s, i, p).0,
        agg_sum(s, i, s[i].children.len() as int).1 == agg_sum(s, i, p).1 + agg_sum_from(s, i, p).1,
    decreases s[i].children.len() - p,
{
    if p < s[i].children.len() {
        lemma_agg_sum_split(s, i, p + 1);
        assert(agg_sum(s, i, p + 1).0 == agg_sum(s, i, p).0 + (if i < s[i].children[p] < s.len() {
            agg(s, s[i].children[p]).0
        } else {
            0
        }));
    }
}

/// From position `j` on, the slots whose parent is `k` are exactly the
/// children of `k` from position `p` on.
proof fn lemma_psum_children(s: Seq<NodeV>, k: int, j: int, p: int)
    requires
        wf_nodes(s),
        0 <= k < s.len(),
        k + 1 <= j,
        0 <= p <= s[k].children.len(),
        forall|q: int| 0 <= q < p ==> #[trigger] s[k].children[q] < j,
        forall|q: int| p <= q < s[k].children.len() ==> #[trigger] s[k].children[q] >= j,
    ensures
        psum(s, k, j).0 == agg_sum_from(s, k, p).0,
        psum(s, k, j).1 == agg_sum_from(s, k, p).1,
    decreases s.len() - j,
{
    assert(wf_at(s, k));
    if j >= s.len() || j < 0 {
        if p < s[k].children.len() {
            assert(s[k].children[p] < s.len());
            assert(false);
        }
    } else {
        if s[j].parent == k && j != 0 {
            assert(linked_at(s, j));
            let q = choose|q: int|
                0 <= q < s[s[j].parent].children.len() && #[trigger] s[s[j].parent].children[q]
                    == j;
            assert(s[k].children[q] == j);
            assert(p <= q) by {
                if q < p {
                    assert(s[k].children[q] < j);
                }
            }
            assert(q <= p) by {
                if q > p {
                    assert(s[k].children[p] < s[k].children[q]);
                    assert(s[k].children[p] >= j);
                }
            }
            assert(s[k].children[p] == j);
            assert forall|q2: int|
                0 <= q2 < p + 1 implies #[trigger] s[k].children[q2] < j + 1 by {
                if q2 < p {
                    assert(s[k].children[q2] < j);
                } else {
                    assert(s[k].children[q2] == j);
                }
            }
            assert forall|q2: int|
                p + 1 <= q2 < s[k].children.len() implies #[trigger] s[k].children[q2] >= j
                    + 1 by {
                assert(s[k].children[p] < s[k].children[q2]);
            }
            lemma_psum_children(s, k, j + 1, p + 1);
        } else {
            assert forall|q2: int|
                p <= q2 < s[k].children.len() implies #[trigger] s[k].children[q2] >= j + 1 by {
                assert(s[k].children[q2] >= j);
                if s[k].children[q2] == j {
                    assert(s[s[k].children[q2]].parent == k);
                    assert(j >= 1);
                }
            }
            lemma_psum_children(s, k, j + 1, p);
        }
    }
}

/// Totals of the suffix forest's roots equal its childless nodes' counters.
proof fn lemma_rootsum_leaf_sum(s: Seq<NodeV>, k: int)
    requires
        wf_nodes(s),
        0 <= k <= s.len(),
    ensures
        rootsum(s, k, k).0 == leaf_sum(s, k).0,
        rootsum(s, k, k).1 == leaf_sum(s, k).1,
    decreases s.len() - k,
{
    if k < s.len() {
        lemma_rootsum_leaf_sum(s, k + 1);
        assert(wf_at(s, k));
        lemma_rootsum_diff(s, k, k + 1);
        assert forall|q: int|
            0 <= q < s[k].children.len() implies #[trigger] s[k].children[q] >= k + 1 by {
            assert(wf_at(s, k));
        }
        lemma_psum_children(s, k, k + 1, 0);
        lemma_agg_sum_split(s, k, 0);
        assert(agg_sum(s, k, 0) == (0int, 0int));
        if s[k].children.len() == 0 {
            assert(agg(s, k) == (s[k].covered, s[k].instrumented));
            assert(agg_sum_from(s, k, 0) == (0int, 0int));
        } else {
            assert(agg(s, k) == agg_sum(s, k, s[k].children.len() as int));
        }
        assert(rootsum(s, k, k).0 == agg(s, k).0 + rootsum(s, k, k + 1).0);
        assert(rootsum(s, k, k).1 == agg(s, k).1 + rootsum(s, k, k + 1).1);
    }
}

/// Below cutoff zero no slot but the root qualifies.
proof fn lemma_rootsum_zero(s: Seq<NodeV>, j: int)
    requires
        wf_nodes(s),
        1 <= j,
    ensures
        rootsum(s, 0, j) == (0int, 0int),
    decreases s.len() - j,
{
    if 0 <= j < s.len() {
        assert(wf_at(s, j));
        lemma_rootsum_zero(s, j + 1);
    }
}

/// Aggregation correctness: the aggregate totals at the root are the sums of
/// the counters over all childless nodes of the tree, each counted once.
pub proof fn lemma_root_totals_are_leaf_sums(s: Seq<NodeV>)
    requires
        wf_nodes(s),
    ensures
        agg(s, 0).0 == leaf_sum(s, 0).0,
        agg(s, 0).1 == leaf_sum(s, 0).1,
{
    lemma_rootsum_leaf_sum(s, 0);
    lemma_rootsum_zero(s, 1);
    assert(rootsum(s, 0, 0).0 == agg(s, 0).0 + rootsum(s, 0, 1).0);
    assert(rootsum(s, 0, 0).1 == agg(s, 0).1 + rootsum(s, 0, 1).1);
}

/// The childless-node totals agree in two arenas of the same shape whose
/// childless counters agree.
proof fn lemma_leaf_sum_congr(a: Seq<NodeV>, b: Seq<NodeV>, j: int)
    requires
        a.len() == b.len(),
        forall|i: int|
            0 <= i < a.len() ==> (#[trigger] b[i]).children.len() == a[i].children.len(),
        forall|i: int|
            0 <= i < a.len() && a[i].children.len() == 0 ==> (#[trigger] b[i]).covered
                == a[i].covered && b[i].instrumented == a[i].instrumented,
    ensures
        leaf_sum(a, j) == leaf_sum(b, j),
    decreases a.len() - j,
{
    if 0 <= j < a.len() {
        lemma_leaf_sum_congr(a, b, j + 1);
    }
}

/// Aggregation correctness, on the aggregated tree itself: the root's
/// counters equal the sums of the counters over all childless nodes, which
/// aggregation left untouched.
pub proof fn lemma_aggregated_root_is_leaf_total(s: Seq<NodeV>, s1: Seq<NodeV>)
    requires
        wf_nodes(s),
        s1.len() == s.len(),
        forall|i: int|
            0 <= i < s.len() ==> #[trigger] s1[i] == (NodeV {
                covered: agg(s, i).0,
                instrumented: agg(s, i).1,
                ..s[i]
            }),
    ensures
        s1[0].covered == leaf_sum(s1, 0).0,
        s1[0].instrumented == leaf_sum(s1, 0).1,
{
    lemma_root_totals_are_leaf_sums(s);
    lemma_leaf_sum_congr(s, s1, 0);
    assert(s1[0].covered == agg(s, 0).0);
}

/// The selection after `times` downward moves.
pub open spec fn iter_down(sel: int, nc: int, times: nat) -> int
    decreases times,
{
    if times == 0 {
        sel
    } else {
        iter_down(down_step(sel, nc), nc, (times - 1) as nat)
    }
}

/// The selection after `times` upward moves.
pub open spec fn iter_up(sel: int, nc: int, times: nat) -> int
    decreases times,
{
    if times == 0 {
        sel
    } else {
        iter_up(up_step(sel, nc), nc, (times - 1) as nat)
    }
}

/// Selection clamping, downward: from any valid position, enough downward
/// moves land on the last child, and any further move stays there.
pub proof fn lemma_down_clamps(sel: int, nc: int, times: nat)
    requires
        1 <= nc,
        0 <= sel < nc,
        times >= nc - 1 - sel,
    ensures
        iter_down(sel, nc, times) == nc - 1,
    decreases times,
{
    if times > 0 {
        lemma_down_clamps(down_step(sel, nc), nc, (times - 1) as nat);
    }
}

/// Selection clamping, upward: from any position, enough upward moves land
/// on zero, and any further move stays there.
pub proof fn lemma_up_reaches_zero(sel: int, nc: int, times: nat)
    requires
        0 <= sel,
        times >= sel,
    ensures
        iter_up(sel, nc, times) == 0,
    decreases times,
{
    if times > 0 {
        lemma_up_reaches_zero(up_step(sel, nc), nc, (times - 1) as nat);
    }
}

/// Every token that splitting yields is free of the separator.
proof fn lemma_split_seg_ok(p: Seq<char>, pos: int)
    requires
        0 <= pos <= p.len(),
    ensures
        forall|j: int|
            0 <= j < split_from(p, pos).len() ==> seg_ok(#[trigger] split_from(p, pos)[j]),
    decreases p.len() - pos,
{
    lemma_find_char_first(p, '/', pos);
    let k = spec_find_char(p, '/', pos);
    let toks = split_from(p, pos);
    if pos <= k < p.len() {
        lemma_split_seg_ok(p, k + 1);
        assert(seg_ok(p.subrange(pos, k))) by {
            assert forall|q: int| 0 <= q < p.subrange(pos, k).len() implies #[trigger] p.subrange(
                pos,
                k,
            )[q] != '/' by {
                assert(p.subrange(pos, k)[q] == p[pos + q]);
            }
        }
        assert forall|j: int| 0 <= j < toks.len() implies seg_ok(#[trigger] toks[j]) by {
            if j == 0 {
                assert(toks[0] == p.subrange(pos, k));
            } else {
                assert(toks[j] == split_from(p, k + 1)[j - 1]);
            }
        }
    } else {
        assert(seg_ok(p.subrange(pos, p.len() as int))) by {
            assert forall|q: int|
                0 <= q < p.subrange(pos, p.len() as int).len() implies #[trigger] p.subrange(
                pos,
                p.len() as int,
            )[q] != '/' by {
                assert(p.subrange(pos, p.len() as int)[q] == p[pos + q]);
            }
        }
        assert(toks =~= seq![p.subrange(pos, p.len() as int)]);
    }
}

/// A child search sees only the searched slot's list and the names it points
/// at, so it is the same in any arena agreeing on those.
proof fn lemma_find_child_entries(a: Seq<NodeV>, b: Seq<NodeV>, at: int, nm: Seq<char>, k: int)
    requires
        0 <= at < a.len(),
        at < b.len(),
        a.len() <= b.len(),
        wf_at(a, at),
        b[at].children == a[at].children,
        forall|i: int| 0 <= i < a.len() ==> (#[trigger] b[i]).name == a[i].name,
        0 <= k,
    ensures
        find_child_from(a, at, nm, k) == find_child_from(b, at, nm, k),
    decreases a[at].children.len() - k,
{
    if k < a[at].children.len() {
        let c = a[at].children[k];
        assert(at < c < a.len());
        assert(b[c].name == a[c].name);
        if !(a[c].name == nm) {
            lemma_find_child_entries(a, b, at, nm, k + 1);
        }
    }
}

/// Walking a token sequence only grows the arena, never renames a slot nor
/// touches one before the start, and walking the result again with the same
/// tokens finds everything in place and changes nothing.
pub proof fn lemma_walk_frame_idem(s: Seq<NodeV>, at: int, toks: Seq<Seq<char>>)
    requires
        wf_nodes(s),
        0 <= at < s.len(),
        forall|j: int| 0 <= j < toks.len() ==> seg_ok(#[trigger] toks[j]),
    ensures
        ({
            let w = spec_walk(s, at, toks);
            &&& wf_nodes(w.0)
            &&& s.len() <= w.0.len()
            &&& at <= w.1 < w.0.len()
            &&& forall|i: int| 0 <= i < at ==> #[trigger] w.0[i] == s[i]
            &&& forall|i: int| 0 <= i < s.len() ==> (#[trigger] w.0[i]).name == s[i].name
            &&& spec_walk(w.0, at, toks) == w
        }),
    decreases toks.len(),
{
    let w = spec_walk(s, at, toks);
    if toks.len() == 0 {
    } else {
        let t0 = toks[0];
        assert(seg_ok(toks[0]));
        let rest = toks.skip(1);
        assert forall|j: int| 0 <= j < rest.len() implies seg_ok(#[trigger] rest[j]) by {
            assert(rest[j] == toks[j + 1]);
        }
        assert(wf_at(s, at));
        lemma_goc_wf(s, at, t0);
        let g = spec_goc(s, at, t0);
        if s[at].name == t0 {
            lemma_walk_frame_idem(s, at, rest);
            assert(w == spec_walk(s, at, rest));
            assert(w.0[at].name == s[at].name);
            assert(spec_goc(w.0, at, t0) == (w.0, at));
            assert(spec_walk(w.0, at, toks) == spec_walk(w.0, at, rest));
        } else {
            lemma_find_child_props(s, at, t0, 0);
            let k = find_child(s, at, t0);
            if k >= 0 {
                let r1 = s[at].children[k];
                assert(at < r1 < s.len());
                lemma_walk_frame_idem(s, r1, rest);
                assert(w == spec_walk(s, r1, rest));
                assert(w.0[at] == s[at]);
                assert(w.0[at].name != t0);
                lemma_find_child_entries(s, w.0, at, t0, 0);
                assert(find_child(w.0, at, t0) == k);
                assert(spec_goc(w.0, at, t0) == (w.0, r1));
                assert(spec_walk(w.0, at, toks) == spec_walk(w.0, r1, rest));
            } else {
                let n = s.len() as int;
                let s1 = g.0;
                let r1 = g.1;
                assert(r1 == n);
                assert(wf_nodes(s1) && 0 <= r1 < s1.len());
                lemma_walk_frame_idem(s1, r1, rest);
                assert(w == spec_walk(s1, r1, rest));
                assert forall|i: int| 0 <= i < at implies #[trigger] w.0[i] == s[i] by {
                    assert(w.0[i] == s1[i]);
                    assert(s1[i] == s[i]);
                }
                assert forall|i: int|
                    0 <= i < s.len() implies (#[trigger] w.0[i]).name == s[i].name by {
                    assert(w.0[i].name == s1[i].name);
                }
                // the appended child is found first on the rewalk: every
                // earlier child kept its name, which is not the token
                assert(w.0[at] == s1[at]);
                assert(w.0[at].name == s[at].name);
                assert(w.0[at].children == s[at].children.push(n));
                let nc = s[at].children.len() as int;
                assert(w.0[at].children[nc] == n);
                assert(w.0[n].name == s1[n].name);
                assert(s1[n].name == t0);
                assert(wf_at(w.0, at));
                lemma_find_child_props(w.0, at, t0, 0);
                let k2 = find_child(w.0, at, t0);
                if k2 == -1 {
                    assert(w.0[w.0[at].children[nc]].name != t0);
                    assert(false);
                }
                assert(0 <= k2 < w.0[at].children.len());
                if k2 < nc {
                    let c2 = w.0[at].children[k2];
                    assert(c2 == s[at].children[k2]);
                    assert(at < c2 < s.len());
                    assert(s[s[at].children[k2]].name != t0);
                    assert(w.0[c2].name == s[c2].name);
                    assert(false);
                }
                assert(k2 == nc);
                assert(spec_goc(w.0, at, t0) == (w.0, n));
                assert(spec_walk(w.0, at, toks) == spec_walk(w.0, r1, rest));
            }
        }
    }
}

/// A walk that finds every token in place does the same in any arena that
/// navigates alike.
proof fn lemma_walk_pure_same_nav(a: Seq<NodeV>, b: Seq<NodeV>, at: int, toks: Seq<Seq<char>>)
    requires
        wf_nodes(a),
        0 <= at < a.len(),
        forall|j: int| 0 <= j < toks.len() ==> seg_ok(#[trigger] toks[j]),
        spec_walk(a, at, toks).0 == a,
        same_nav(a, b),
    ensures
        spec_walk(b, at, toks) == (b, spec_walk(a, at, toks).1),
    decreases toks.len(),
{
    if toks.len() > 0 {
        let t0 = toks[0];
        let rest = toks.skip(1);
        assert forall|j: int| 0 <= j < rest.len() implies seg_ok(#[trigger] rest[j]) by {
            assert(rest[j] == toks[j + 1]);
        }
        assert(wf_at(a, at));
        lemma_goc_wf(a, at, t0);
        assert(seg_ok(toks[0]));
        let g = spec_goc(a, at, t0);
        if a[at].name == t0 {
            assert(b[at].name == t0);
            lemma_walk_pure_same_nav(a, b, at, rest);
            assert(spec_goc(b, at, t0) == (b, at));
        } else {
            lemma_find_child_props(a, at, t0, 0);
            let k = find_child(a, at, t0);
            assert(b[at].name != t0);
            lemma_find_child_same_nav(a, b, at, t0, 0);
            if k >= 0 {
                let r1 = a[at].children[k];
                assert(at < r1 < a.len());
                assert(spec_goc(b, at, t0) == (b, r1));
                lemma_walk_pure_same_nav(a, b, r1, rest);
            } else {
                // a creating walk grows the arena, so it cannot return it
                lemma_walk_frame_idem(g.0, g.1, rest);
                assert(spec_walk(g.0, g.1, rest).0.len() >= g.0.len());
                assert(g.0.len() == a.len() + 1);
                assert(false);
            }
        }
    }
}

/// Duplicate path overwrite: inserting the same path twice, with whatever
/// counts, leaves exactly the tree that the second insertion alone leaves.
pub proof fn lemma_duplicate_insert_overwrites(
    s: Seq<NodeV>,
    p: Seq<char>,
    c1: int,
    i1: int,
    c2: int,
    i2: int,
)
    requires
        wf_nodes(s),
    ensures
        spec_insert(spec_insert(s, p, c1, i1).0, p, c2, i2) == spec_insert(s, p, c2, i2),
{
    if p.len() == 0 {
    } else {
        let toks = split_path(p);
        lemma_split_seg_ok(p, 0);
        lemma_walk_frame_idem(s, 0, toks);
        let w = spec_walk(s, 0, toks);
        let mid = spec_set_counts(w.0, w.1, c1, i1);
        assert(same_nav(w.0, mid));
        lemma_walk_pure_same_nav(w.0, mid, 0, toks);
        assert(spec_walk(mid, 0, toks) == (mid, w.1));
        let lhs = spec_insert(mid, p, c2, i2);
        let rhs = spec_insert(s, p, c2, i2);
        assert(lhs.0 =~= rhs.0);
        assert(lhs.1 == rhs.1);
    }
}

} // verus!
