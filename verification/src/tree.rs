//! The coverage tree: one node per path segment, held in a flat arena where
//! every child's slot index is greater than its parent's, so nodes created
//! later never disturb the ones before them.

use vstd::prelude::*;
use crate::text::{str_eq, find_char};

verus! {

/// Ghost model of one tree node.
pub ghost struct NodeV {
    pub name: Seq<char>,
    pub covered: int,
    pub instrumented: int,
    pub expand: bool,
    pub selected: int,
    pub parent: int,
    pub children: Seq<int>,
}

/// One path segment (a directory or a source file) with its line counters.
#[derive(Debug)]
pub struct Entry {
    pub name: String,
    pub lines_covered: u32,
    pub lines_instrumented: u32,
    pub expand: bool,
    pub index_selected: usize,
    pub parent: usize,
    pub children: Vec<usize>,
}

impl View for Entry {
    type V = NodeV;

    open spec fn view(&self) -> NodeV {
        NodeV {
            name: self.name@,
            covered: self.lines_covered as int,
            instrumented: self.lines_instrumented as int,
            expand: self.expand,
            selected: self.index_selected as int,
            parent: self.parent as int,
            children: self.children@.map_values(|c: usize| c as int),
        }
    }
}

/// Coverage tree held as a flat arena; `nodes[0]` is the root.
#[derive(Debug)]
pub struct EntryTree {
    pub nodes: Vec<Entry>,
}

impl View for EntryTree {
    type V = Seq<NodeV>;

    open spec fn view(&self) -> Seq<NodeV> {
        self.nodes@.map_values(|e: Entry| e@)
    }
}

/// A segment label never holds the path separator.
pub open spec fn seg_ok(name: Seq<char>) -> bool {
    forall|p: int| 0 <= p < name.len() ==> #[trigger] name[p] != '/'
}

/// Local well-formedness of slot `i`: children sit strictly after their
/// parent, point back to it, come in increasing slot order under distinct
/// names, and the selection index stays inside the children (or is zero).
pub open spec fn wf_at(s: Seq<NodeV>, i: int) -> bool {
    &&& seg_ok(s[i].name)
    &&& s[i].covered >= 0 && s[i].instrumented >= 0
    &&& (i == 0 ==> s[i].parent == 0)
    &&& (i > 0 ==> 0 <= s[i].parent < i)
    &&& (s[i].selected == 0 || 0 <= s[i].selected < s[i].children.len())
    &&& forall|k: int|
        0 <= k < s[i].children.len() ==> i < #[trigger] s[i].children[k] < s.len()
    &&& forall|k: int|
        0 <= k < s[i].children.len() ==> s[#[trigger] s[i].children[k]].parent == i
    &&& forall|k1: int, k2: int|
        0 <= k1 < k2 < s[i].children.len() ==> #[trigger] s[i].children[k1]
            < #[trigger] s[i].children[k2]
    &&& forall|k1: int, k2: int|
        0 <= k1 < k2 < s[i].children.len() ==> s[#[trigger] s[i].children[k1]].name
            != s[#[trigger] s[i].children[k2]].name
}

/// Slot `j` is recorded in its parent's child list.
pub open spec fn linked_at(s: Seq<NodeV>, j: int) -> bool {
    exists|k: int|
        0 <= k < s[s[j].parent].children.len() && #[trigger] s[s[j].parent].children[k] == j
}

/// Every slot except the root is recorded in its parent's child list.
pub open spec fn wf_linked(s: Seq<NodeV>) -> bool {
    forall|j: int| 1 <= j < s.len() ==> #[trigger] linked_at(s, j)
}

pub open spec fn wf_nodes(s: Seq<NodeV>) -> bool {
    &&& 1 <= s.len()
    &&& forall|i: int| 0 <= i < s.len() ==> #[trigger] wf_at(s, i)
    &&& wf_linked(s)
}

/// A fresh node: zero counts, expanded, nothing selected, no children.
pub open spec fn new_node(name: Seq<char>, parent: int) -> NodeV {
    NodeV {
        name: name,
        covered: 0,
        instrumented: 0,
        expand: true,
        selected: 0,
        parent: parent,
        children: Seq::empty(),
    }
}

/// Position of the first child of `at` whose name is `name`, scanning from
/// position `k`; -1 when there is none.
pub open spec fn find_child_from(s: Seq<NodeV>, at: int, name: Seq<char>, k: int) -> int
    decreases s[at].children.len() - k,
{
    if 0 <= at < s.len() && 0 <= k < s[at].children.len() {
        if 0 <= s[at].children[k] < s.len() && s[s[at].children[k]].name == name {
            k
        } else {
            find_child_from(s, at, name, k + 1)
        }
    } else {
        -1
    }
}

pub open spec fn find_child(s: Seq<NodeV>, at: int, name: Seq<char>) -> int {
    find_child_from(s, at, name, 0)
}

/// Get-or-create one step: a segment equal to the current node's own label
/// resolves to the node itself; otherwise the first child of that name is
/// taken, and failing that a fresh child is appended at the end of the arena.
pub open spec fn spec_goc(s: Seq<NodeV>, at: int, name: Seq<char>) -> (Seq<NodeV>, int) {
    if s[at].name == name {
        (s, at)
    } else {
        let k = find_child(s, at, name);
        if k >= 0 {
            (s, s[at].children[k])
        } else {
            let n = s.len() as int;
            let s2 = s.update(at, NodeV { children: s[at].children.push(n), ..s[at] }).push(
                new_node(name, at),
            );
            (s2, n)
        }
    }
}

impl EntryTree {
    pub open spec fn wf(&self) -> bool {
        wf_nodes(self@)
    }

    /// Create a tree holding a single root node with the given label and
    /// zero counts.
    pub fn new(root_name: &str) -> (t: EntryTree)
        requires
            seg_ok(root_name@),
        ensures
            t.wf(),
            t@ =~= seq![new_node(root_name@, 0)],
    {
        let mut nodes: Vec<Entry> = Vec::new();
        nodes.push(
            Entry {
                name: root_name.to_owned(),
                lines_covered: 0,
                lines_instrumented: 0,
                expand: true,
                index_selected: 0,
                parent: 0,
                children: Vec::new(),
            },
        );
        let t = EntryTree { nodes };
        proof {
            assert(t@[0].children =~= Seq::<int>::empty());
            assert(t@ =~= seq![new_node(root_name@, 0)]);
            assert(wf_at(t@, 0));
        }
        t
    }

    /// Index of the child of `at` labelled `name`, creating it when absent;
    /// a `name` equal to the label of `at` itself resolves to `at`.
    pub fn get_or_create(&mut self, at: usize, name: &str) -> (idx: usize)
        requires
            old(self).wf(),
            at < old(self)@.len(),
            seg_ok(name@),
        ensures
            final(self).wf(),
            final(self)@ == spec_goc(old(self)@, at as int, name@).0,
            idx == spec_goc(old(self)@, at as int, name@).1,
            idx < final(self)@.len(),
            old(self)@.len() <= final(self)@.len(),
    {
        let ghost s = self@;
        proof {
            assert(s[at as int] == self.nodes@[at as int]@);
        }
        if str_eq(self.nodes[at].name.as_str(), name) {
            return at;
        }
        if let Some(c) = self.find_child_idx(at, name) {
            return c;
        }
        proof {
            lemma_find_child_props(s, at as int, name@, 0);
        }
        let n = self.nodes.len();
        self.nodes.push(
            Entry {
                name: name.to_owned(),
                lines_covered: 0,
                lines_instrumented: 0,
                expand: true,
                index_selected: 0,
                parent: at,
                children: Vec::new(),
            },
        );
        self.nodes[at].children.push(n);
        proof {
            let s2 = spec_goc(s, at as int, name@).0;
            assert(self@[n as int].children =~= Seq::<int>::empty());
            assert(self@[at as int].children =~= s[at as int].children.push(n as int));
            assert(self@ =~= s2);
            lemma_goc_create_wf(s, at as int, name@);
        }
        n
    }
}

/// Appending a fresh child keeps the arena well formed.
proof fn lemma_goc_create_wf(s: Seq<NodeV>, at: int, name: Seq<char>)
    requires
        wf_nodes(s),
        0 <= at < s.len(),
        seg_ok(name),
        s[at].name != name,
        find_child(s, at, name) == -1,
        forall|k2: int| 0 <= k2 < s[at].children.len() ==> s[#[trigger] s[at].children[k2]].name != name,
    ensures
        wf_nodes(spec_goc(s, at, name).0),
{
    let n = s.len() as int;
    let s2 = spec_goc(s, at, name).0;
    assert(s2.len() == n + 1);
    assert forall|i: int| 0 <= i < s2.len() implies #[trigger] wf_at(s2, i) by {
        if i < n {
            assert(wf_at(s, i));
            if i == at {
                assert forall|k: int| 0 <= k < s2[i].children.len() implies i
                    < #[trigger] s2[i].children[k] < s2.len() by {
                    if k < s[at].children.len() {
                        assert(s[at].children[k] == s2[i].children[k]);
                    }
                }
                assert(wf_at(s2, i));
            } else {
                assert(s2[i] == s[i]);
                assert(wf_at(s2, i));
            }
        } else {
            assert(s2[i] == new_node(name, at));
            assert(wf_at(s2, i));
        }
    }
    assert forall|j: int| 1 <= j < s2.len() implies #[trigger] linked_at(s2, j) by {
        if j < n {
            let p = s[j].parent;
            assert(wf_at(s, j));
            assert(s2[j].parent == p);
            assert(linked_at(s, j));
            let k = choose|k: int|
                0 <= k < s[p].children.len() && #[trigger] s[p].children[k] == j;
            if p == at {
                assert(s2[p].children[k] == s[p].children[k]);
            } else {
                assert(s2[p].children == s[p].children);
            }
            assert(s2[s2[j].parent].children[k] == j);
        } else {
            assert(s2[j].parent == at);
            let k = s[at].children.len() as int;
            assert(s2[at].children[k] == j);
        }
    }
}

/// Tokens of `p` from position `pos` on, cut at every separator; a trailing
/// or doubled separator yields an empty token, as does an empty `p`.
pub open spec fn split_from(p: Seq<char>, pos: int) -> Seq<Seq<char>>
    decreases p.len() - pos,
{
    let k = crate::text::spec_find_char(p, '/', pos);
    if pos <= k < p.len() {
        seq![p.subrange(pos, k)] + split_from(p, k + 1)
    } else {
        seq![p.subrange(pos, p.len() as int)]
    }
}

pub open spec fn split_path(p: Seq<char>) -> Seq<Seq<char>> {
    split_from(p, 0)
}

/// What a search for `c` finds is the first occurrence at or after `from`.
pub proof fn lemma_find_char_first(p: Seq<char>, c: char, from: int)
    requires
        0 <= from,
    ensures
        ({
            let r = crate::text::spec_find_char(p, c, from);
            &&& (r == -1 ==> forall|j: int| from <= j < p.len() ==> #[trigger] p[j] != c)
            &&& (r != -1 ==> from <= r < p.len() && p[r] == c && (forall|j: int|
                from <= j < r ==> #[trigger] p[j] != c))
        }),
    decreases p.len() - from,
{
    if 0 <= from && from < p.len() {
        if p[from] != c {
            lemma_find_char_first(p, c, from + 1);
        }
    }
}

/// What a child search finds is the first child of that name from `k` on.
pub proof fn lemma_find_child_props(s: Seq<NodeV>, at: int, name: Seq<char>, k: int)
    requires
        0 <= at < s.len(),
        0 <= k,
        wf_at(s, at),
    ensures
        ({
            let r = find_child_from(s, at, name, k);
            &&& (r == -1 ==> forall|k2: int|
                k <= k2 < s[at].children.len() ==> s[#[trigger] s[at].children[k2]].name != name)
            &&& (r != -1 ==> k <= r < s[at].children.len() && s[s[at].children[r]].name == name)
        }),
    decreases s[at].children.len() - k,
{
    if k < s[at].children.len() {
        if s[s[at].children[k]].name != name {
            lemma_find_child_props(s, at, name, k + 1);
        }
    }
}

/// Walk `toks` from `at`, creating what is missing, one segment at a time.
pub open spec fn spec_walk(s: Seq<NodeV>, at: int, toks: Seq<Seq<char>>) -> (Seq<NodeV>, int)
    decreases toks.len(),
{
    if toks.len() == 0 {
        (s, at)
    } else {
        let r = spec_goc(s, at, toks[0]);
        spec_walk(r.0, r.1, toks.skip(1))
    }
}

/// Overwrite the counters of slot `i`.
pub open spec fn spec_set_counts(s: Seq<NodeV>, i: int, cov: int, ins: int) -> Seq<NodeV> {
    s.update(i, NodeV { covered: cov, instrumented: ins, ..s[i] })
}

/// The whole insertion: walk the split path from the root, then set the
/// counters of the final node; an empty path changes nothing.
pub open spec fn spec_insert(s: Seq<NodeV>, path: Seq<char>, cov: int, ins: int) -> (Seq<NodeV>, int) {
    if path.len() == 0 {
        (s, 0)
    } else {
        let w = spec_walk(s, 0, split_path(path));
        (spec_set_counts(w.0, w.1, cov, ins), w.1)
    }
}

/// One get-or-create step keeps the arena well formed and in place.
pub proof fn lemma_goc_wf(s: Seq<NodeV>, at: int, name: Seq<char>)
    requires
        wf_nodes(s),
        0 <= at < s.len(),
        seg_ok(name),
    ensures
        ({
            let r = spec_goc(s, at, name);
            wf_nodes(r.0) && s.len() <= r.0.len() && 0 <= r.1 < r.0.len()
        }),
{
    if s[at].name == name {
    } else {
        lemma_find_child_props(s, at, name, 0);
        let k = find_child(s, at, name);
        if k >= 0 {
            assert(wf_at(s, at));
        } else {
            lemma_goc_create_wf(s, at, name);
        }
    }
}

/// Setting counters keeps the arena well formed.
pub proof fn lemma_set_counts_wf(s: Seq<NodeV>, i: int, cov: int, ins: int)
    requires
        wf_nodes(s),
        0 <= i < s.len(),
        0 <= cov,
        0 <= ins,
    ensures
        wf_nodes(spec_set_counts(s, i, cov, ins)),
{
    let s2 = spec_set_counts(s, i, cov, ins);
    assert forall|j: int| 0 <= j < s2.len() implies #[trigger] wf_at(s2, j) by {
        assert(wf_at(s, j));
        assert(s2[j].children == s[j].children);
        assert forall|k: int| 0 <= k < s2[j].children.len() implies j
            < #[trigger] s2[j].children[k] < s2.len() by {
            assert(s[j].children[k] == s2[j].children[k]);
        }
    }
    assert forall|j: int| 1 <= j < s2.len() implies #[trigger] linked_at(s2, j) by {
        assert(linked_at(s, j));
        assert(wf_at(s, j));
        let p = s[j].parent;
        let k = choose|k: int|
            0 <= k < s[p].children.len() && #[trigger] s[p].children[k] == j;
        assert(s2[j].parent == p);
        assert(s2[p].children == s[p].children);
        assert(s2[s2[j].parent].children[k] == j);
    }
}

impl EntryTree {
    /// Walk `path` from the root, creating any missing node on the way, and
    /// overwrite the two counters of the node the path ends at; the index of
    /// that node is returned.  An empty path changes nothing.
    #[verifier::loop_isolation(false)]
    pub fn get_or_create_with_path(
        &mut self,
        path: &str,
        lines_covered: u32,
        lines_instrumented: u32,
    ) -> (idx: usize)
        requires
            old(self).wf(),
        ensures
            final(self).wf(),
            final(self)@ == spec_insert(
                old(self)@,
                path@,
                lines_covered as int,
                lines_instrumented as int,
            ).0,
            idx == spec_insert(
                old(self)@,
                path@,
                lines_covered as int,
                lines_instrumented as int,
            ).1,
            idx < final(self)@.len(),
            old(self)@.len() <= final(self)@.len(),
    {
        let ghost s0 = self@;
        let n = path.unicode_len();
        if n == 0 {
            return 0;
        }
        let mut node: usize = 0;
        let mut pos: usize = 0;
        let mut done: bool = false;
        while !done
            invariant
                self.wf(),
                node < self@.len(),
                pos <= n,
                s0.len() <= self@.len(),
                !done ==> spec_walk(s0, 0, split_path(path@)) == spec_walk(
                    self@,
                    node as int,
                    split_from(path@, pos as int),
                ),
                done ==> spec_walk(s0, 0, split_path(path@)) == (self@, node as int),
            decreases n - pos + (if done { 0int } else { 1int }),
        {
            let ghost s_in = self@;
            let ghost prev = node as int;
            let ghost toks = split_from(path@, pos as int);
            let e_opt = find_char(path, '/', pos);
            proof {
                lemma_find_char_first(path@, '/', pos as int);
            }
            let end = match e_opt {
                Some(e) => e,
                None => n,
            };
            let tok = path.substring_char(pos, end);
            proof {
                assert(tok@ == path@.subrange(pos as int, end as int));
                assert(seg_ok(tok@));
                assert(toks[0] == tok@);
            }
            node = self.get_or_create(node, tok);
            proof {
                assert(spec_walk(s_in, prev, toks) == spec_walk(self@, node as int, toks.skip(1)));
            }
            match e_opt {
                Some(e) => {
                    proof {
                        assert(toks =~= seq![tok@] + split_from(path@, e + 1));
                        assert((seq![tok@] + split_from(path@, e + 1)).skip(1) =~= split_from(
                            path@,
                            e + 1,
                        ));
                    }
                    pos = e + 1;
                },
                None => {
                    proof {
                        assert(toks =~= seq![tok@]);
                        assert(toks.skip(1) =~= Seq::<Seq<char>>::empty());
                    }
                    done = true;
                },
            }
        }
        proof {
            lemma_set_counts_wf(
                self@,
                node as int,
                lines_covered as int,
                lines_instrumented as int,
            );
        }
        self.nodes[node].lines_covered = lines_covered;
        self.nodes[node].lines_instrumented = lines_instrumented;
        proof {
            let w = spec_walk(s0, 0, split_path(path@));
            assert(self@ =~= spec_set_counts(w.0, w.1, lines_covered as int, lines_instrumented as int));
        }
        node
    }
}

/// Aggregate totals of the subtree rooted at slot `i`: a childless node
/// contributes its own counters, any other node the sum over its children.
pub open spec fn agg(s: Seq<NodeV>, i: int) -> (int, int)
    decreases s.len() - i, 1int, 0int,
{
    if 0 <= i < s.len() {
        if s[i].children.len() == 0 {
            (s[i].covered, s[i].instrumented)
        } else {
            agg_sum(s, i, s[i].children.len() as int)
        }
    } else {
        (0, 0)
    }
}

/// Sum of the aggregate totals of the first `k` children of slot `i`.
pub open spec fn agg_sum(s: Seq<NodeV>, i: int, k: int) -> (int, int)
    decreases s.len() - i, 0int, k,
{
    if 0 <= i < s.len() && 0 < k <= s[i].children.len() {
        let rest = agg_sum(s, i, k - 1);
        let c = s[i].children[k - 1];
        let cc = if i < c < s.len() {
            agg(s, c)
        } else {
            (0, 0)
        };
        (rest.0 + cc.0, rest.1 + cc.1)
    } else {
        (0, 0)
    }
}

pub proof fn lemma_agg_nonneg(s: Seq<NodeV>, i: int)
    requires
        wf_nodes(s),
        0 <= i < s.len(),
    ensures
        agg(s, i).0 >= 0 && agg(s, i).1 >= 0,
    decreases s.len() - i, 1int, 0int,
{
    assert(wf_at(s, i));
    if s[i].children.len() > 0 {
        lemma_agg_sum_nonneg(s, i, s[i].children.len() as int);
    }
}

pub proof fn lemma_agg_sum_nonneg(s: Seq<NodeV>, i: int, k: int)
    requires
        wf_nodes(s),
        0 <= i < s.len(),
        0 <= k <= s[i].children.len(),
    ensures
        agg_sum(s, i, k).0 >= 0 && agg_sum(s, i, k).1 >= 0,
    decreases s.len() - i, 0int, k,
{
    if k > 0 {
        lemma_agg_sum_nonneg(s, i, k - 1);
        assert(wf_at(s, i));
        lemma_agg_nonneg(s, s[i].children[k - 1]);
    }
}

/// Partial child sums never shrink as more children are taken in.
pub proof fn lemma_agg_sum_mono(s: Seq<NodeV>, i: int, k1: int, k2: int)
    requires
        wf_nodes(s),
        0 <= i < s.len(),
        0 <= k1 <= k2 <= s[i].children.len(),
    ensures
        agg_sum(s, i, k1).0 <= agg_sum(s, i, k2).0,
        agg_sum(s, i, k1).1 <= agg_sum(s, i, k2).1,
    decreases s.len() - i, 0int, k2,
{
    if k1 < k2 {
        lemma_agg_sum_mono(s, i, k1, k2 - 1);
        assert(wf_at(s, i));
        lemma_agg_nonneg(s, s[i].children[k2 - 1]);
    }
}

/// Two arenas with the same shape: everything equal but the counters.
pub open spec fn same_shape(a: Seq<NodeV>, b: Seq<NodeV>) -> bool {
    &&& a.len() == b.len()
    &&& forall|i: int|
        0 <= i < a.len() ==> (#[trigger] b[i]).name == a[i].name && b[i].expand == a[i].expand
            && b[i].selected == a[i].selected && b[i].parent == a[i].parent && b[i].children
            == a[i].children
}

/// Aggregate totals depend only on the shape and on the counters of
/// childless nodes.
pub proof fn lemma_agg_congr(a: Seq<NodeV>, b: Seq<NodeV>, i: int)
    requires
        same_shape(a, b),
        forall|j: int|
            0 <= j < a.len() && a[j].children.len() == 0 ==> (#[trigger] b[j]).covered
                == a[j].covered && b[j].instrumented == a[j].instrumented,
        0 <= i < a.len(),
    ensures
        agg(a, i) == agg(b, i),
    decreases a.len() - i, 1int, 0int,
{
    if a[i].children.len() > 0 {
        lemma_agg_sum_congr(a, b, i, a[i].children.len() as int);
    }
}

pub proof fn lemma_agg_sum_congr(a: Seq<NodeV>, b: Seq<NodeV>, i: int, k: int)
    requires
        same_shape(a, b),
        forall|j: int|
            0 <= j < a.len() && a[j].children.len() == 0 ==> (#[trigger] b[j]).covered
                == a[j].covered && b[j].instrumented == a[j].instrumented,
        0 <= i < a.len(),
        0 <= k <= a[i].children.len(),
    ensures
        agg_sum(a, i, k) == agg_sum(b, i, k),
    decreases a.len() - i, 0int, k,
{
    if k > 0 {
        lemma_agg_sum_congr(a, b, i, k - 1);
        let c = a[i].children[k - 1];
        if i < c < a.len() {
            lemma_agg_congr(a, b, c);
        }
    }
}

/// Shape-preserving counter rewrites keep the arena well formed as long as
/// the new counters are not negative.
pub proof fn lemma_wf_same_shape(a: Seq<NodeV>, b: Seq<NodeV>)
    requires
        wf_nodes(a),
        same_shape(a, b),
        forall|i: int| 0 <= i < b.len() ==> (#[trigger] b[i]).covered >= 0 && b[i].instrumented >= 0,
    ensures
        wf_nodes(b),
{
    assert forall|i: int| 0 <= i < b.len() implies #[trigger] wf_at(b, i) by {
        assert(wf_at(a, i));
        assert(b[i].children == a[i].children);
        assert forall|k: int| 0 <= k < b[i].children.len() implies i
            < #[trigger] b[i].children[k] < b.len() by {
            assert(a[i].children[k] == b[i].children[k]);
        }
        assert forall|k: int| 0 <= k < b[i].children.len() implies b[#[trigger] b[i].children[k]].parent
            == i by {
            assert(a[i].children[k] == b[i].children[k]);
            assert(a[a[i].children[k]].parent == i);
        }
        assert forall|k1: int, k2: int|
            0 <= k1 < k2 < b[i].children.len() implies b[#[trigger] b[i].children[k1]].name
            != b[#[trigger] b[i].children[k2]].name by {
            assert(a[a[i].children[k1]].name != a[a[i].children[k2]].name);
        }
    }
    assert forall|j: int| 1 <= j < b.len() implies #[trigger] linked_at(b, j) by {
        assert(linked_at(a, j));
        assert(wf_at(a, j));
        let p = a[j].parent;
        let k = choose|k: int|
            0 <= k < a[p].children.len() && #[trigger] a[p].children[k] == j;
        assert(b[j].parent == p);
        assert(b[p].children == a[p].children);
        assert(b[b[j].parent].children[k] == j);
    }
}

/// Aggregation is idempotent: recomputing the totals of an arena whose
/// counters already hold its aggregate totals changes nothing.
pub proof fn lemma_aggregate_idempotent(s: Seq<NodeV>, s1: Seq<NodeV>)
    requires
        wf_nodes(s),
        s1.len() == s.len(),
        forall|i: int|
            0 <= i < s.len() ==> #[trigger] s1[i] == (NodeV {
                covered: agg(s, i).0,
                instrumented: agg(s, i).1,
                ..s[i]
            }),
    ensures
        forall|i: int| 0 <= i < s.len() ==> #[trigger] agg(s1, i) == agg(s, i),
{
    assert forall|i: int| 0 <= i < s.len() implies #[trigger] agg(s1, i) == agg(s, i) by {
        assert(same_shape(s, s1));
        lemma_agg_congr(s, s1, i);
    }
}

impl EntryTree {
    /// Recompute every slot's counters as the aggregate totals of its
    /// subtree, reporting `false` and leaving the tree untouched when some
    /// total would not fit in 32 bits.
    #[verifier::loop_isolation(false)]
    pub fn try_update_coverage_statistics(&mut self) -> (ok: bool)
        requires
            old(self).wf(),
        ensures
            final(self).wf(),
            ok == (forall|i: int|
                0 <= i < old(self)@.len() ==> agg(old(self)@, i).0 <= u32::MAX && agg(
                    old(self)@,
                    i,
                ).1 <= u32::MAX),
            ok ==> final(self)@.len() == old(self)@.len() && (forall|i: int|
                0 <= i < old(self)@.len() ==> #[trigger] final(self)@[i] == (NodeV {
                    covered: agg(old(self)@, i).0,
                    instrumented: agg(old(self)@, i).1,
                    ..old(self)@[i]
                })),
            !ok ==> final(self)@ == old(self)@,
    {
        let ghost s = self@;
        let n = self.nodes.len();
        let mut cov: Vec<u32> = vec![0u32; n];
        let mut ins: Vec<u32> = vec![0u32; n];
        let mut i: usize = n;
        while i > 0
            invariant
                s == self@,
                cov@.len() == n,
                ins@.len() == n,
                i <= n,
                forall|j: int|
                    #![trigger agg(s, j)]
                    i <= j < n ==> agg(s, j).0 <= u32::MAX && agg(s, j).1 <= u32::MAX && cov@[j]
                        == agg(s, j).0 && ins@[j] == agg(s, j).1,
            decreases i,
        {
            i -= 1;
            proof {
                assert(wf_at(s, i as int));
            }
            let node_nc = self.nodes[i].children.len();
            if node_nc == 0 {
                let a = self.nodes[i].lines_covered;
                let b = self.nodes[i].lines_instrumented;
                proof {
                    assert(s[i as int] == self.nodes@[i as int]@);
                    assert(agg(s, i as int) == (s[i as int].covered, s[i as int].instrumented));
                }
                cov[i] = a;
                ins[i] = b;
            } else {
                let mut c_acc: u64 = 0;
                let mut t_acc: u64 = 0;
                let mut k: usize = 0;
                while k < node_nc
                    invariant
                        k <= node_nc,
                        c_acc == agg_sum(s, i as int, k as int).0,
                        t_acc == agg_sum(s, i as int, k as int).1,
                        c_acc <= u32::MAX,
                        t_acc <= u32::MAX,
                    decreases node_nc - k,
                {
                    let ch = self.nodes[i].children[k];
                    proof {
                        assert(s[i as int].children[k as int] == ch as int);
                        assert(i < ch < n);
                        assert(cov@[ch as int] == agg(s, ch as int).0);
                        assert(ins@[ch as int] == agg(s, ch as int).1);
                    }
                    let a = cov[ch] as u64;
                    let b = ins[ch] as u64;
                    c_acc = c_acc + a;
                    t_acc = t_acc + b;
                    proof {
                        assert(agg_sum(s, i as int, k + 1).0 == agg_sum(s, i as int, k as int).0
                            + agg(s, ch as int).0);
                        assert(agg_sum(s, i as int, k + 1).1 == agg_sum(s, i as int, k as int).1
                            + agg(s, ch as int).1);
                        assert(c_acc == agg_sum(s, i as int, k + 1).0);
                        assert(t_acc == agg_sum(s, i as int, k + 1).1);
                    }
                    if c_acc > u32::MAX as u64 || t_acc > u32::MAX as u64 {
                        proof {
                            assert(agg(s, i as int) == agg_sum(s, i as int, node_nc as int));
                            lemma_agg_sum_mono(s, i as int, k + 1, node_nc as int);
                            assert(agg(s, i as int).0 > u32::MAX || agg(s, i as int).1
                                > u32::MAX);
                        }
                        return false;
                    }
                    k += 1;
                }
                proof {
                    assert(agg(s, i as int) == agg_sum(s, i as int, node_nc as int));
                }
                cov[i] = c_acc as u32;
                ins[i] = t_acc as u32;
            }
            proof {
                assert(cov@[i as int] == agg(s, i as int).0);
                assert(ins@[i as int] == agg(s, i as int).1);
                assert(agg(s, i as int).0 <= u32::MAX);
                assert(agg(s, i as int).1 <= u32::MAX);
                assert forall|j: int|
                    i <= j < n implies agg(s, j).0 <= u32::MAX && agg(s, j).1 <= u32::MAX && cov@[j]
                        == agg(s, j).0 && ins@[j] == agg(s, j).1 by {
                    if j > i {
                        assert(agg(s, j).0 <= u32::MAX && agg(s, j).1 <= u32::MAX);
                        assert(cov@[j] == agg(s, j).0);
                        assert(ins@[j] == agg(s, j).1);
                    }
                }
            }
        }
        let mut j: usize = 0;
        while j < n
            invariant
                j <= n,
                self@.len() == n,
                forall|m: int| j <= m < n ==> #[trigger] self@[m] == s[m],
                forall|m: int|
                    0 <= m < j ==> #[trigger] self@[m] == (NodeV {
                        covered: agg(s, m).0,
                        instrumented: agg(s, m).1,
                        ..s[m]
                    }),
            decreases n - j,
        {
            let a = cov[j];
            let b = ins[j];
            let ghost prev = self@;
            self.nodes[j].lines_covered = a;
            self.nodes[j].lines_instrumented = b;
            proof {
                assert(self@ =~= prev.update(
                    j as int,
                    NodeV { covered: a as int, instrumented: b as int, ..prev[j as int] },
                ));
            }
            j += 1;
        }
        proof {
            assert(same_shape(s, self@));
            assert forall|m: int| 0 <= m < n implies (#[trigger] self@[m]).covered >= 0
                && self@[m].instrumented >= 0 by {
                lemma_agg_nonneg(s, m);
            }
            lemma_wf_same_shape(s, self@);
        }
        true
    }

    /// Recompute every slot's counters as the aggregate totals of its
    /// subtree; childless nodes keep their own counters.
    pub fn update_coverage_statistics(&mut self)
        requires
            old(self).wf(),
            forall|i: int|
                0 <= i < old(self)@.len() ==> agg(old(self)@, i).0 <= u32::MAX && agg(
                    old(self)@,
                    i,
                ).1 <= u32::MAX,
        ensures
            final(self).wf(),
            final(self)@.len() == old(self)@.len(),
            forall|i: int|
                0 <= i < old(self)@.len() ==> #[trigger] final(self)@[i] == (NodeV {
                    covered: agg(old(self)@, i).0,
                    instrumented: agg(old(self)@, i).1,
                    ..old(self)@[i]
                }),
    {
        let ok = self.try_update_coverage_statistics();
        proof {
            assert(ok);
        }
    }
}

/// One resolution step: a segment equal to the current node's own label
/// stays put; otherwise the first child of that name is taken; -1 when
/// there is none.
pub open spec fn spec_step(s: Seq<NodeV>, at: int, nm: Seq<char>) -> int {
    if s[at].name == nm {
        at
    } else {
        let k = find_child(s, at, nm);
        if k >= 0 {
            s[at].children[k]
        } else {
            -1
        }
    }
}

pub open spec fn spec_resolve_from(s: Seq<NodeV>, at: int, toks: Seq<Seq<char>>) -> int
    decreases toks.len(),
{
    if toks.len() == 0 {
        at
    } else {
        let j = spec_step(s, at, toks[0]);
        if 0 <= j < s.len() {
            spec_resolve_from(s, j, toks.skip(1))
        } else {
            -1
        }
    }
}

/// Index of the node that `path` denotes, walking its segments from the
/// root; -1 when some segment does not resolve.
pub open spec fn spec_resolve(s: Seq<NodeV>, path: Seq<char>) -> int {
    spec_resolve_from(s, 0, split_path(path))
}

impl EntryTree {
    /// Index of the first child of `at` labelled `name`, if any.
    pub(crate) fn find_child_idx(&self, at: usize, name: &str) -> (r: Option<usize>)
        requires
            self.wf(),
            at < self@.len(),
        ensures
            match r {
                Some(c) => find_child(self@, at as int, name@) >= 0 && c as int
                    == self@[at as int].children[find_child(self@, at as int, name@)] && at < c
                    && (c as int) < self@.len(),
                None => find_child(self@, at as int, name@) == -1,
            },
    {
        let ghost s = self@;
        let nc = self.nodes[at].children.len();
        let mut k: usize = 0;
        while k < nc
            invariant
                s == self@,
                self.wf(),
                at < s.len(),
                nc == s[at as int].children.len(),
                k <= nc,
                find_child(s, at as int, name@) == find_child_from(s, at as int, name@, k as int),
            decreases nc - k,
        {
            proof {
                assert(wf_at(s, at as int));
            }
            let c = self.nodes[at].children[k];
            proof {
                assert(s[at as int].children[k as int] == c as int);
                assert(s[c as int] == self.nodes@[c as int]@);
            }
            if str_eq(self.nodes[c].name.as_str(), name) {
                proof {
                    assert(find_child_from(s, at as int, name@, k as int) == k);
                }
                return Some(c);
            }
            k += 1;
        }
        None
    }

    /// Follow `path`, one segment per level starting at the root, and return
    /// the index of the node it denotes; `None` when some segment matches
    /// neither the node reached so far nor one of its children.
    #[verifier::loop_isolation(false)]
    pub fn get_with_path(&self, path: &str) -> (r: Option<usize>)
        requires
            self.wf(),
        ensures
            match r {
                Some(i) => spec_resolve(self@, path@) == i as int && i < self@.len(),
                None => spec_resolve(self@, path@) == -1,
            },
    {
        let n = path.unicode_len();
        let mut node: usize = 0;
        let mut pos: usize = 0;
        let mut done: bool = false;
        while !done
            invariant
                node < self@.len(),
                pos <= n,
                !done ==> spec_resolve(self@, path@) == spec_resolve_from(
                    self@,
                    node as int,
                    split_from(path@, pos as int),
                ),
                done ==> spec_resolve(self@, path@) == node as int,
            decreases n - pos + (if done { 0int } else { 1int }),
        {
            let ghost toks = split_from(path@, pos as int);
            let e_opt = find_char(path, '/', pos);
            proof {
                lemma_find_char_first(path@, '/', pos as int);
            }
            let end = match e_opt {
                Some(e) => e,
                None => n,
            };
            let tok = path.substring_char(pos, end);
            proof {
                assert(toks[0] == tok@);
                assert(self@[node as int] == self.nodes@[node as int]@);
                assert(wf_at(self@, node as int));
            }
            let next: usize;
            if str_eq(self.nodes[node].name.as_str(), tok) {
                next = node;
            } else {
                match self.find_child_idx(node, tok) {
                    Some(c) => {
                        next = c;
                    },
                    None => {
                        proof {
                            assert(spec_step(self@, node as int, tok@) == -1);
                            assert(spec_resolve_from(self@, node as int, toks) == -1);
                        }
                        return None;
                    },
                }
            }
            proof {
                assert(spec_step(self@, node as int, tok@) == next as int);
            }
            node = next;
            match e_opt {
                Some(e) => {
                    proof {
                        assert(toks =~= seq![tok@] + split_from(path@, e + 1));
                        assert((seq![tok@] + split_from(path@, e + 1)).skip(1) =~= split_from(
                            path@,
                            e + 1,
                        ));
                    }
                    pos = e + 1;
                },
                None => {
                    proof {
                        assert(toks =~= seq![tok@]);
                        assert(toks.skip(1) =~= Seq::<Seq<char>>::empty());
                        assert(spec_resolve_from(self@, node as int, Seq::<Seq<char>>::empty())
                            == node as int);
                    }
                    done = true;
                },
            }
        }
        Some(node)
    }
}

} // verus!
// === stage 2 ===
