//! Character-level helpers on string slices: equality, searching for a
//! character or a substring, and reading a decimal count.

use vstd::prelude::*;

verus! {

/// Whether two string slices hold the same characters.
pub fn str_eq(a: &str, b: &str) -> (r: bool)
    ensures
        r == (a@ == b@),
{
    let la = a.unicode_len();
    let lb = b.unicode_len();
    if la != lb {
        return false;
    }
    let mut i: usize = 0;
    while i < la
        invariant
            la == a@.len(),
            la == b@.len(),
            i <= la,
            forall|j: int| 0 <= j < i ==> a@[j] == b@[j],
        decreases la - i,
    {
        if a.get_char(i) != b.get_char(i) {
            return false;
        }
        i += 1;
    }
    proof {
        assert(a@ =~= b@);
    }
    true
}

/// Index of the first occurrence of `c` in `s` at or after `from`, or -1.
pub open spec fn spec_find_char(s: Seq<char>, c: char, from: int) -> int
    decreases s.len() - from,
{
    if 0 <= from && from < s.len() {
        if s[from] == c {
            from
        } else {
            spec_find_char(s, c, from + 1)
        }
    } else {
        -1
    }
}

pub fn find_char(s: &str, c: char, from: usize) -> (r: Option<usize>)
    requires
        from <= s@.len(),
    ensures
        match r {
            Some(i) => from <= i < s@.len() && i == spec_find_char(s@, c, from as int),
            None => spec_find_char(s@, c, from as int) == -1,
        },
{
    let n = s.unicode_len();
    let mut i = from;
    while i < n
        invariant
            from <= i <= n,
            n == s@.len(),
            spec_find_char(s@, c, from as int) == spec_find_char(s@, c, i as int),
        decreases n - i,
    {
        if s.get_char(i) == c {
            return Some(i);
        }
        i += 1;
    }
    None
}

/// Whether `pat` occurs in `s` starting exactly at index `i`.
pub open spec fn matches_at(s: Seq<char>, pat: Seq<char>, i: int) -> bool {
    0 <= i && i + pat.len() <= s.len() && s.subrange(i, i + pat.len()) == pat
}

/// Index of the first occurrence of `pat` in `s` at or after `from`, or -1.
pub open spec fn spec_find_sub(s: Seq<char>, pat: Seq<char>, from: int) -> int
    decreases s.len() + 1 - from,
{
    if 0 <= from && from + pat.len() <= s.len() {
        if matches_at(s, pat, from) {
            from
        } else {
            spec_find_sub(s, pat, from + 1)
        }
    } else {
        -1
    }
}

pub fn find_sub(s: &str, pat: &str, from: usize) -> (r: Option<usize>)
    requires
        from <= s@.len(),
        1 <= pat@.len(),
    ensures
        match r {
            Some(i) => from <= i && i + pat@.len() <= s@.len() && i == spec_find_sub(
                s@,
                pat@,
                from as int,
            ),
            None => spec_find_sub(s@, pat@, from as int) == -1,
        },
{
    let n = s.unicode_len();
    let m = pat.unicode_len();
    if m > n || from > n - m {
        return None;
    }
    let mut i = from;
    while i <= n - m
        invariant
            from <= i,
            i <= n - m + 1,
            1 <= m <= n,
            n == s@.len(),
            m == pat@.len(),
            spec_find_sub(s@, pat@, from as int) == spec_find_sub(s@, pat@, i as int),
        decreases n - i,
    {
        let mut k: usize = 0;
        let mut hit = true;
        while k < m
            invariant
                k <= m,
                i + m <= n,
                n == s@.len(),
                m == pat@.len(),
                hit ==> forall|j: int| 0 <= j < k ==> s@[i + j] == pat@[j],
                !hit ==> !matches_at(s@, pat@, i as int),
            decreases m - k,
        {
            if s.get_char(i + k) != pat.get_char(k) {
                proof {
                    if matches_at(s@, pat@, i as int) {
                        assert(s@.subrange(i as int, i + pat@.len())[k as int] == pat@[k as int]);
                    }
                }
                hit = false;
                k = m;
            } else {
                k += 1;
            }
        }
        if hit {
            proof {
                assert(s@.subrange(i as int, i + pat@.len()) =~= pat@);
            }
            return Some(i);
        }
        i += 1;
    }
    None
}

pub open spec fn is_digit(c: char) -> bool {
    48 <= c as int && c as int <= 57
}

pub open spec fn digit_val(c: char) -> int {
    c as int - 48
}

pub open spec fn all_digits(s: Seq<char>) -> bool {
    forall|j: int| 0 <= j < s.len() ==> is_digit(#[trigger] s[j])
}

/// Value of a string of decimal digits, most significant first.
pub open spec fn digits_val(s: Seq<char>) -> int
    decreases s.len(),
{
    if s.len() == 0 {
        0
    } else {
        digits_val(s.take(s.len() - 1)) * 10 + digit_val(s[s.len() - 1])
    }
}

/// Shape accepted when reading a count: an optional leading plus sign
/// followed by at least one decimal digit.
pub open spec fn valid_number(s: Seq<char>) -> bool {
    if s.len() > 0 && s[0] == '+' {
        s.len() >= 2 && all_digits(s.skip(1))
    } else {
        s.len() >= 1 && all_digits(s)
    }
}

pub open spec fn number_val(s: Seq<char>) -> int {
    if s.len() > 0 && s[0] == '+' {
        digits_val(s.skip(1))
    } else {
        digits_val(s)
    }
}

/// A count is usable when it also fits in 32 bits.
pub open spec fn valid_u32(s: Seq<char>) -> bool {
    valid_number(s) && number_val(s) <= u32::MAX
}

pub proof fn lemma_digits_val_nonneg(s: Seq<char>)
    requires
        all_digits(s),
    ensures
        digits_val(s) >= 0,
    decreases s.len(),
{
    if s.len() > 0 {
        assert(all_digits(s.take(s.len() - 1)));
        lemma_digits_val_nonneg(s.take(s.len() - 1));
    }
}

/// A digit string is worth at least as much as any of its prefixes.
pub proof fn lemma_digits_val_prefix(s: Seq<char>, j: int)
    requires
        all_digits(s),
        0 <= j <= s.len(),
    ensures
        digits_val(s.take(j)) <= digits_val(s),
    decreases s.len() - j,
{
    if j < s.len() {
        lemma_digits_val_prefix(s, j + 1);
        let t = s.take(j + 1);
        assert(t.take(t.len() - 1) =~= s.take(j));
        assert(all_digits(s.take(j)));
        lemma_digits_val_nonneg(s.take(j));
        assert(digits_val(s.take(j)) <= digits_val(s.take(j + 1)));
    } else {
        assert(s.take(j) =~= s);
    }
}

/// Read the decimal count held in `s` between `from` and `to`; `None` when
/// that range does not hold a count that fits in 32 bits.
#[verifier::loop_isolation(false)]
pub fn parse_u32_range(s: &str, from: usize, to: usize) -> (r: Option<u32>)
    requires
        from <= to <= s@.len(),
    ensures
        match r {
            Some(v) => valid_u32(s@.subrange(from as int, to as int)) && v == number_val(
                s@.subrange(from as int, to as int),
            ),
            None => !valid_u32(s@.subrange(from as int, to as int)),
        },
{
    let ghost sub = s@.subrange(from as int, to as int);
    let mut i = from;
    if i < to && s.get_char(i) == '+' {
        i += 1;
    }
    let start = i;
    let ghost ds = s@.subrange(start as int, to as int);
    proof {
        if start > from {
            assert(sub[0] == '+');
            assert(sub.skip(1) =~= ds);
        } else {
            if from < to {
                assert(sub[0] == s@[from as int]);
                assert(sub[0] != '+');
            }
            assert(ds =~= sub);
        }
        assert(valid_number(sub) ==> all_digits(ds) && ds.len() >= 1);
        assert(valid_number(sub) ==> number_val(sub) == digits_val(ds));
        assert(all_digits(ds) && ds.len() >= 1 ==> valid_number(sub));
    }
    if i == to {
        return None;
    }
    let mut acc: u32 = 0;
    while i < to
        invariant
            start <= i <= to,
            all_digits(s@.subrange(start as int, i as int)),
            acc == digits_val(s@.subrange(start as int, i as int)),
        decreases to - i,
    {
        let c = s.get_char(i) as u32;
        if c < 48 || c > 57 {
            proof {
                assert(ds[i - start] == s@[i as int]);
                assert(!is_digit(ds[i - start]));
            }
            return None;
        }
        let dv = c - 48;
        proof {
            assert(s@.subrange(start as int, i + 1).take(i - start) =~= s@.subrange(
                start as int,
                i as int,
            ));
            assert(s@.subrange(start as int, i + 1)[i - start] == s@[i as int]);
            assert(digit_val(s@[i as int]) == dv);
        }
        if acc > (u32::MAX - dv) / 10 {
            proof {
                let p = s@.subrange(start as int, i + 1);
                assert(p.take(p.len() - 1) =~= s@.subrange(start as int, i as int));
                assert(digits_val(p) == acc * 10 + dv);
                assert(acc * 10 + dv > u32::MAX) by (nonlinear_arith)
                    requires
                        acc > (u32::MAX - dv) / 10,
                        0 <= dv <= 9,
                ;
                if valid_u32(sub) {
                    assert(all_digits(ds));
                    assert(p =~= ds.take(i + 1 - start));
                    lemma_digits_val_prefix(ds, i + 1 - start);
                    assert(number_val(sub) == digits_val(ds));
                }
            }
            return None;
        }
        proof {
            let p = s@.subrange(start as int, i + 1);
            assert(p.take(p.len() - 1) =~= s@.subrange(start as int, i as int));
            assert forall|j: int| 0 <= j < p.len() implies is_digit(#[trigger] p[j]) by {
                if j < i - start {
                    assert(s@.subrange(start as int, i as int)[j] == s@[start + j]);
                    assert(p[j] == s@[start + j]);
                }
            }
            assert(digits_val(p) == acc * 10 + dv);
        }
        acc = acc * 10 + dv;
        i += 1;
    }
    proof {
        assert(s@.subrange(start as int, i as int) =~= ds);
    }
    Some(acc)
}

} // verus!
