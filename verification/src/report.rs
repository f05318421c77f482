//! Depth-limited textual report of a coverage tree: one line per visited
//! node carrying a marker, the label, the covered share in tenths of a
//! percent, and the raw counters.

use vstd::prelude::*;
use crate::tree::{EntryTree, NodeV, wf_at};

verus! {

/// Tenths of a percent that `covered` makes of `instrumented`, rounded half
/// up; zero when nothing is instrumented.
pub open spec fn pct_tenths(covered: int, instrumented: int) -> int {
    if instrumented == 0 {
        0
    } else {
        (2000 * covered + instrumented) / (2 * instrumented)
    }
}

pub open spec fn spec_digit(d: int) -> Seq<char> {
    if d == 0 {
        "0"@
    } else if d == 1 {
        "1"@
    } else if d == 2 {
        "2"@
    } else if d == 3 {
        "3"@
    } else if d == 4 {
        "4"@
    } else if d == 5 {
        "5"@
    } else if d == 6 {
        "6"@
    } else if d == 7 {
        "7"@
    } else if d == 8 {
        "8"@
    } else {
        "9"@
    }
}

/// Decimal rendering of a non-negative number, most significant digit first.
pub open spec fn spec_dec(n: int) -> Seq<char>
    decreases n,
{
    if n < 0 {
        Seq::empty()
    } else if n < 10 {
        spec_digit(n)
    } else {
        spec_dec(n / 10) + spec_digit(n % 10)
    }
}

/// Three spaces for every level below the root.
pub open spec fn spec_indent(depth: int) -> Seq<char>
    decreases depth,
{
    if depth <= 0 {
        Seq::empty()
    } else {
        spec_indent(depth - 1) + "   "@
    }
}

/// A node with hidden children is marked `+`, any other node `-`.
pub open spec fn spec_marker(node: NodeV) -> Seq<char> {
    if node.children.len() > 0 && !node.expand {
        "+"@
    } else {
        "-"@
    }
}

/// One report line: indentation, marker, label, covered share and counters.
pub open spec fn spec_report_line(node: NodeV, depth: int) -> Seq<char> {
    let t = pct_tenths(node.covered, node.instrumented);
    spec_indent(depth) + spec_marker(node) + " "@ + node.name + "  ("@ + spec_dec(t / 10) + "."@
        + spec_digit(t % 10) + "%) "@ + spec_dec(node.covered) + "/"@ + spec_dec(node.instrumented)
        + " \n"@
}

/// The report of the subtree at slot `i`, printed at `depth`: the node's own
/// line, then—only when the node is expanded and the cutoff not yet
/// reached—its children in order.  A positive `max_depth` stops below that
/// depth; any other value means no limit.
pub open spec fn spec_report(s: Seq<NodeV>, i: int, depth: int, max_depth: int) -> Seq<char>
    decreases s.len() - i, 1int, 0int,
{
    if 0 <= i < s.len() {
        if max_depth > 0 && depth > max_depth {
            Seq::empty()
        } else {
            let line = spec_report_line(s[i], depth);
            if s[i].expand {
                line + spec_report_children(s, i, depth, max_depth, s[i].children.len() as int)
            } else {
                line
            }
        }
    } else {
        Seq::empty()
    }
}

pub open spec fn spec_report_children(
    s: Seq<NodeV>,
    i: int,
    depth: int,
    max_depth: int,
    k: int,
) -> Seq<char>
    decreases s.len() - i, 0int, k,
{
    if 0 <= i < s.len() && 0 < k <= s[i].children.len() {
        let c = s[i].children[k - 1];
        spec_report_children(s, i, depth, max_depth, k - 1) + (if i < c < s.len() {
            spec_report(s, c, depth + 1, max_depth)
        } else {
            Seq::empty()
        })
    } else {
        Seq::empty()
    }
}

fn digit_str(d: u64) -> (r: &'static str)
    requires
        d < 10,
    ensures
        r@ == spec_digit(d as int),
{
    if d == 0 {
        "0"
    } else if d == 1 {
        "1"
    } else if d == 2 {
        "2"
    } else if d == 3 {
        "3"
    } else if d == 4 {
        "4"
    } else if d == 5 {
        "5"
    } else if d == 6 {
        "6"
    } else if d == 7 {
        "7"
    } else if d == 8 {
        "8"
    } else {
        "9"
    }
}

fn push_dec(v: u64, out: &mut String)
    ensures
        final(out)@ == old(out)@ + spec_dec(v as int),
    decreases v,
{
    let ghost entry = out@;
    if v >= 10 {
        push_dec(v / 10, out);
    }
    out.append(digit_str(v % 10));
    proof {
        assert(out@ =~= entry + spec_dec(v as int));
    }
}

impl EntryTree {
    /// Render the whole report, starting at the root at depth zero.
    pub fn render_report(&self, max_depth: i32) -> (r: String)
        requires
            self.wf(),
        ensures
            r@ == spec_report(self@, 0, 0, max_depth as int),
    {
        let mut out = String::new();
        self.render_rec(0, 0, max_depth, &mut out);
        proof {
            assert(Seq::<char>::empty() + spec_report(self@, 0, 0, max_depth as int) =~= spec_report(
                self@,
                0,
                0,
                max_depth as int,
            ));
        }
        out
    }

    #[verifier::loop_isolation(false)]
    #[verifier::rlimit(60)]
    fn render_rec(&self, i: usize, depth: usize, max_depth: i32, out: &mut String)
        requires
            self.wf(),
            i < self@.len(),
            depth <= i,
        ensures
            final(out)@ == old(out)@ + spec_report(
                self@,
                i as int,
                depth as int,
                max_depth as int,
            ),
        decreases self@.len() - i,
    {
        let ghost entry = out@;
        let ghost s = self@;
        proof {
            assert(s[i as int] == self.nodes@[i as int]@);
            assert(wf_at(s, i as int));
        }
        if max_depth > 0 && depth > max_depth as usize {
            proof {
                assert(out@ =~= entry + spec_report(s, i as int, depth as int, max_depth as int));
            }
            return ;
        }
        let mut d: usize = 0;
        while d < depth
            invariant
                d <= depth,
                out@ == entry + spec_indent(d as int),
            decreases depth - d,
        {
            out.append("   ");
            d += 1;
        }
        let node_nc = self.nodes[i].children.len();
        if node_nc > 0 && !self.nodes[i].expand {
            out.append("+");
        } else {
            out.append("-");
        }
        out.append(" ");
        out.append(self.nodes[i].name.as_str());
        out.append("  (");
        let cv = self.nodes[i].lines_covered as u64;
        let iv = self.nodes[i].lines_instrumented as u64;
        let t: u64 = if iv == 0 {
            0
        } else {
            (2000 * cv + iv) / (2 * iv)
        };
        proof {
            assert(t == pct_tenths(s[i as int].covered, s[i as int].instrumented));
        }
        push_dec(t / 10, out);
        out.append(".");
        out.append(digit_str(t % 10));
        out.append("%) ");
        push_dec(cv, out);
        out.append("/");
        push_dec(iv, out);
        out.append(" \n");
        let ghost line_done = out@;
        proof {
            assert(line_done =~= entry + spec_indent(depth as int) + spec_marker(s[i as int])
                + " "@ + s[i as int].name + "  ("@ + spec_dec(t as int / 10) + "."@ + spec_digit(
                t as int % 10,
            ) + "%) "@ + spec_dec(s[i as int].covered) + "/"@ + spec_dec(s[i as int].instrumented)
                + " \n"@);
            assert(line_done =~= entry + spec_report_line(s[i as int], depth as int));
        }
        if self.nodes[i].expand {
            let mut k: usize = 0;
            while k < node_nc
                invariant
                    k <= node_nc,
                    out@ == line_done + spec_report_children(
                        s,
                        i as int,
                        depth as int,
                        max_depth as int,
                        k as int,
                    ),
                decreases node_nc - k,
            {
                let c = self.nodes[i].children[k];
                proof {
                    assert(s[i as int].children[k as int] == c as int);
                    assert(i < c < s.len());
                }
                let ghost before = out@;
                self.render_rec(c, depth + 1, max_depth, out);
                proof {
                    assert(out@ =~= line_done + spec_report_children(
                        s,
                        i as int,
                        depth as int,
                        max_depth as int,
                        k + 1,
                    ));
                }
                k += 1;
            }
            proof {
                assert(out@ =~= entry + spec_report(s, i as int, depth as int, max_depth as int));
            }
        } else {
            proof {
                assert(out@ =~= entry + spec_report(s, i as int, depth as int, max_depth as int));
            }
        }
    }
}

} // verus!
