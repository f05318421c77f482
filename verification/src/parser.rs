//! Extraction of coverage records from an LCOV trace: every block carrying,
//! in order, an `SF:` line, a later `LH:` and `LF:` pair and a closing
//! `end_of_record` yields one `(path, covered, instrumented)` triple, and the
//! triples are inserted into a tree which is then aggregated.
//!
//! The scan is lazy and left to right: the path runs to the first line break
//! after `SF:`, the counts to the first `LF:` line and `end_of_record`
//! marker after that, and a block whose anchors never appear ends the scan.

use vstd::prelude::*;
use crate::text::{find_char, find_sub, parse_u32_range, valid_u32, number_val, spec_find_char,
    spec_find_sub};
use crate::tree::{NodeV, new_node, agg, spec_insert};

pub use crate::tree::EntryTree;

verus! {

/// One extracted record: the three captured character runs.
pub ghost struct RecV {
    pub path: Seq<char>,
    pub lh: Seq<char>,
    pub lf: Seq<char>,
}

/// The records that a left-to-right lazy scan of `s` extracts from position
/// `pos` on: the first block whose anchors cannot all be found ends the scan.
pub open spec fn spec_records(s: Seq<char>, pos: int) -> Seq<RecV>
    decreases s.len() - pos,
{
    if 0 <= pos <= s.len() {
        let p = spec_find_sub(s, "SF:"@, pos);
        if p < 0 {
            Seq::empty()
        } else {
            let a = spec_find_char(s, '\n', p + 3);
            if a < 0 {
                Seq::empty()
            } else {
                let b = spec_find_sub(s, "LH:"@, a + 1);
                if b < 0 {
                    Seq::empty()
                } else {
                    let c = spec_find_sub(s, "\nLF:"@, b + 3);
                    if c < 0 {
                        Seq::empty()
                    } else {
                        let d = spec_find_sub(s, "\nend_of_record"@, c + 4);
                        if d < 0 {
                            Seq::empty()
                        } else {
                            let rec = RecV {
                                path: s.subrange(p + 3, a),
                                lh: s.subrange(b + 3, c),
                                lf: s.subrange(c + 4, d),
                            };
                            if pos < d + 14 <= s.len() {
                                seq![rec] + spec_records(s, d + 14)
                            } else {
                                seq![rec]
                            }
                        }
                    }
                }
            }
        }
    } else {
        Seq::empty()
    }
}

/// Insert one record: its counts are read as decimal and written to the
/// node its path denotes.
pub open spec fn spec_insert_rec(t: Seq<NodeV>, r: RecV) -> Seq<NodeV> {
    spec_insert(t, r.path, number_val(r.lh), number_val(r.lf)).0
}

pub open spec fn spec_insert_all(t: Seq<NodeV>, recs: Seq<RecV>) -> Seq<NodeV>
    decreases recs.len(),
{
    if recs.len() == 0 {
        t
    } else {
        spec_insert_all(spec_insert_rec(t, recs[0]), recs.skip(1))
    }
}

/// Every record's two counts read as decimal numbers that fit in 32 bits.
pub open spec fn recs_valid(recs: Seq<RecV>) -> bool {
    forall|i: int|
        0 <= i < recs.len() ==> valid_u32((#[trigger] recs[i]).lh) && valid_u32(recs[i].lf)
}

/// The root that every parse starts from.
pub open spec fn spec_root() -> Seq<NodeV> {
    seq![new_node("commander"@, 0)]
}

proof fn lemma_recs_valid_cons(r: RecV, rest: Seq<RecV>)
    ensures
        recs_valid(seq![r] + rest) == (valid_u32(r.lh) && valid_u32(r.lf) && recs_valid(rest)),
{
    let s = seq![r] + rest;
    assert(s[0] == r);
    if recs_valid(s) {
        assert forall|i: int|
            0 <= i < rest.len() implies valid_u32((#[trigger] rest[i]).lh) && valid_u32(
            rest[i].lf,
        ) by {
            assert(s[i + 1] == rest[i]);
            assert(valid_u32(s[i + 1].lh) && valid_u32(s[i + 1].lf));
        }
    }
    if valid_u32(r.lh) && valid_u32(r.lf) && recs_valid(rest) {
        assert forall|i: int|
            0 <= i < s.len() implies valid_u32((#[trigger] s[i]).lh) && valid_u32(s[i].lf) by {
            if i > 0 {
                assert(s[i] == rest[i - 1]);
            }
        }
    }
}

/// Why a trace cannot be turned into a tree.
#[derive(Debug, PartialEq, Eq, Structural, Clone, Copy)]
pub enum ParseError {
    /// A matched block carries a count that is not a decimal number that
    /// fits in 32 bits.
    InvalidCount,
    /// The aggregate totals of the parsed records do not fit in 32 bits.
    CountOverflow,
}

/// Build the coverage tree of a trace's text: every extracted record is
/// inserted under its path into a tree rooted at a sentinel node, and the
/// tree's totals are then aggregated bottom up.
#[verifier::loop_isolation(false)]
pub fn parse_coverage_text(content: &str) -> (r: Result<EntryTree, ParseError>)
    ensures
        ({
            let recs = spec_records(content@, 0);
            let built = spec_insert_all(spec_root(), recs);
            match r {
                Ok(t) => recs_valid(recs) && t.wf() && t@.len() == built.len() && (forall|i: int|
                    0 <= i < built.len() ==> #[trigger] t@[i] == (NodeV {
                        covered: agg(built, i).0,
                        instrumented: agg(built, i).1,
                        ..built[i]
                    })) && (forall|i: int|
                    0 <= i < built.len() ==> agg(built, i).0 <= u32::MAX && agg(built, i).1
                        <= u32::MAX),
                Err(ParseError::InvalidCount) => !recs_valid(recs),
                Err(ParseError::CountOverflow) => recs_valid(recs) && !(forall|i: int|
                    0 <= i < built.len() ==> agg(built, i).0 <= u32::MAX && agg(built, i).1
                        <= u32::MAX),
            }
        }),
{
    proof {
        reveal_strlit("commander");
        reveal_strlit("SF:");
        reveal_strlit("LH:");
        reveal_strlit("\nLF:");
        reveal_strlit("\nend_of_record");
    }
    let ghost all_recs = spec_records(content@, 0);
    let mut tree = EntryTree::new("commander");
    proof {
        assert(tree@ == spec_root());
    }
    let n = content.unicode_len();
    let mut pos: usize = 0;
    let mut done: bool = false;
    while !done
        invariant
            tree.wf(),
            pos <= n,
            !done ==> spec_insert_all(spec_root(), all_recs) == spec_insert_all(
                tree@,
                spec_records(content@, pos as int),
            ),
            !done ==> recs_valid(all_recs) == recs_valid(spec_records(content@, pos as int)),
            done ==> spec_insert_all(spec_root(), all_recs) == tree@,
            done ==> recs_valid(all_recs),
        decreases n - pos + (if done { 0int } else { 1int }),
    {
        let ghost remaining = spec_records(content@, pos as int);
        let mut advanced = false;
        if let Some(p) = find_sub(content, "SF:", pos) {
            if let Some(a) = find_char(content, '\n', p + 3) {
                if let Some(b) = find_sub(content, "LH:", a + 1) {
                    if let Some(c) = find_sub(content, "\nLF:", b + 3) {
                        if let Some(d) = find_sub(content, "\nend_of_record", c + 4) {
                            let ghost rec = RecV {
                                path: content@.subrange(p + 3, a as int),
                                lh: content@.subrange(b + 3, c as int),
                                lf: content@.subrange(c + 4, d as int),
                            };
                            let ghost rest = spec_records(content@, d + 14);
                            proof {
                                assert(remaining =~= seq![rec] + rest);
                                lemma_recs_valid_cons(rec, rest);
                            }
                            let lh = match parse_u32_range(content, b + 3, c) {
                                Some(v) => v,
                                None => {
                                    proof {
                                        assert(!recs_valid(remaining));
                                    }
                                    return Err(ParseError::InvalidCount);
                                },
                            };
                            let lf = match parse_u32_range(content, c + 4, d) {
                                Some(v) => v,
                                None => {
                                    proof {
                                        assert(!recs_valid(remaining));
                                    }
                                    return Err(ParseError::InvalidCount);
                                },
                            };
                            let path = content.substring_char(p + 3, a);
                            let ghost before = tree@;
                            tree.get_or_create_with_path(path, lh, lf);
                            proof {
                                assert(tree@ == spec_insert_rec(before, rec));
                                assert((seq![rec] + rest).skip(1) =~= rest);
                                assert(spec_insert_all(before, remaining) == spec_insert_all(
                                    tree@,
                                    rest,
                                ));
                            }
                            pos = d + 14;
                            advanced = true;
                        }
                    }
                }
            }
        }
        if !advanced {
            proof {
                assert(spec_records(content@, pos as int) =~= Seq::<RecV>::empty());
            }
            done = true;
        }
    }
    let ghost built = spec_insert_all(spec_root(), all_recs);
    proof {
        assert(tree@ == built);
    }
    let ok = tree.try_update_coverage_statistics();
    if ok {
        Ok(tree)
    } else {
        Err(ParseError::CountOverflow)
    }
}

} // verus!
