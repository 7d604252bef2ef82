//! The range grammar: a textual selector `N`, `N-` or `N-M` addressing an
//! inclusive span of components, parsed against a caller-supplied maximum.
//!
//! `N` selects the single component `N`; `N-` selects from `N` to the maximum
//! (collapsing to the single point `N` when `N` exceeds the maximum); `N-M`
//! selects from `N` to `M` literally, with no clamping. A literal range whose
//! end is below its start is rejected, as is any malformed selector.

use vstd::prelude::*;

use crate::error::Error;
use crate::tokens::{digit_pred, is_digit, lemma_run_len_is, run_len};

verus! {

/// The numeric value of one decimal digit.
pub open spec fn digit_val(c: char) -> int {
    c as int - '0' as int
}

/// The numeric value of a decimal digit string (most significant first).
pub open spec fn dec_val(s: Seq<char>) -> int
    decreases s.len(),
{
    if s.len() == 0 {
        0
    } else {
        10 * dec_val(s.drop_last()) + digit_val(s.last())
    }
}

/// Every character of `s` is a decimal digit.
pub open spec fn all_digits(s: Seq<char>) -> bool {
    forall|j: int| 0 <= j < s.len() ==> is_digit(s[j])
}

pub proof fn lemma_dec_val_nonneg(s: Seq<char>)
    requires
        all_digits(s),
    ensures
        dec_val(s) >= 0,
    decreases s.len(),
{
    if s.len() > 0 {
        let t = s.drop_last();
        assert(all_digits(t)) by {
            assert(forall|j: int| 0 <= j < t.len() ==> t[j] == s[j]);
        }
        lemma_dec_val_nonneg(t);
        assert(is_digit(s.last()));
    }
}

/// Extending a digit prefix by one digit multiplies its value by ten and adds
/// the digit.
pub proof fn lemma_dec_val_extend(s: Seq<char>, k: int)
    requires
        0 <= k < s.len(),
    ensures
        dec_val(s.take(k + 1)) == 10 * dec_val(s.take(k)) + digit_val(s[k]),
{
    let p = s.take(k + 1);
    assert(p.drop_last() =~= s.take(k));
    assert(p.last() == s[k]);
}

/// The value of a digit string is at least the value of any of its prefixes.
pub proof fn lemma_dec_val_mono(s: Seq<char>, k: int)
    requires
        all_digits(s),
        0 <= k <= s.len(),
    ensures
        dec_val(s) >= dec_val(s.take(k)),
    decreases s.len() - k,
{
    if k == s.len() {
        assert(s.take(k) =~= s);
    } else {
        lemma_dec_val_extend(s, k);
        assert(all_digits(s.take(k))) by {
            assert(forall|j: int| 0 <= j < k ==> s.take(k)[j] == s[j]);
        }
        lemma_dec_val_nonneg(s.take(k));
        assert(is_digit(s[k]));
        lemma_dec_val_mono(s, k + 1);
    }
}

/// The selector conforms to the grammar `N`, `N-` or `N-M`.
pub open spec fn range_syntax_ok(s: Seq<char>) -> bool {
    let d = run_len(s, digit_pred()) as int;
    &&& d >= 1
    &&& (d == s.len() || (s[d] == '-' && {
        let t = s.skip(d + 1);
        t.len() == 0 || run_len(t, digit_pred()) == t.len()
    }))
}

/// What the selector denotes against the given maximum, or `None` when it is
/// malformed or its literal end is below its start. The values are exact
/// integers; machine-width limits belong to the executable parser alone.
pub open spec fn parse_range_spec(s: Seq<char>, max: int) -> Option<(int, int)> {
    if !range_syntax_ok(s) {
        None
    } else {
        let d = run_len(s, digit_pred()) as int;
        let start = dec_val(s.take(d));
        if d == s.len() {
            Some((start, start))
        } else {
            let t = s.skip(d + 1);
            if t.len() == 0 {
                if start <= max {
                    Some((start, max))
                } else {
                    Some((start, start))
                }
            } else {
                let end = dec_val(t);
                if end < start {
                    None
                } else {
                    Some((start, end))
                }
            }
        }
    }
}

/// A range that parses is ordered: `0 <= start <= end`.
pub proof fn lemma_range_ordered(s: Seq<char>, max: int)
    requires
        max >= 0,
    ensures
        parse_range_spec(s, max) matches Some(q) ==> 0 <= q.0 <= q.1,
{
    if parse_range_spec(s, max) is Some {
        let d = run_len(s, digit_pred()) as int;
        crate::tokens::lemma_run_len_chars(s, digit_pred());
        crate::tokens::lemma_run_len_bound(s, digit_pred());
        assert(all_digits(s.take(d))) by {
            assert(forall|j: int| 0 <= j < d ==> s.take(d)[j] == s[j]);
        }
        lemma_dec_val_nonneg(s.take(d));
    }
}

/// Build the error that every rejected selector produces.
fn range_error(range: &str) -> (e: Error)
    ensures
        e.message@ == "invalid range: "@ + range@,
{
    let mut m = String::from_str("invalid range: ");
    m.append(range);
    Error { message: m }
}

/// Index just past the digit run beginning at `from`.
pub(crate) fn scan_digits(s: &str, from: usize) -> (j: usize)
    requires
        from <= s@.len(),
    ensures
        from <= j <= s@.len(),
        j - from == run_len(s@.skip(from as int), digit_pred()),
        forall|k: int| from <= k < j ==> is_digit(s@[k]),
        j < s@.len() ==> !is_digit(s@[j as int]),
{
    let n = s.unicode_len();
    let mut i = from;
    while i < n && s.get_char(i) >= '0' && s.get_char(i) <= '9'
        invariant
            n == s@.len(),
            from <= i <= n,
            forall|k: int| from <= k < i ==> is_digit(s@[k]),
        decreases n - i,
    {
        i = i + 1;
    }
    proof {
        let suf = s@.skip(from as int);
        assert forall|j: int| 0 <= j < i - from implies digit_pred()(suf[j]) by {
            assert(suf[j] == s@[from + j]);
        }
        if i - from < suf.len() {
            assert(suf[i - from] == s@[i as int]);
        }
        lemma_run_len_is(suf, digit_pred(), i - from);
    }
    i
}

/// Parse the digit run `s[from..to)` as a `usize`; `None` when its value does
/// not fit.
fn digits_to_usize(s: &str, from: usize, to: usize) -> (r: Option<usize>)
    requires
        from <= to <= s@.len(),
        forall|j: int| from <= j < to ==> is_digit(s@[j]),
    ensures
        r is Some <==> dec_val(s@.subrange(from as int, to as int)) <= usize::MAX,
        r matches Some(v) ==> v as int == dec_val(s@.subrange(from as int, to as int)),
{
    let ghost whole = s@.subrange(from as int, to as int);
    proof {
        assert(all_digits(whole)) by {
            assert(forall|j: int| 0 <= j < whole.len() ==> whole[j] == s@[from + j]);
        }
    }
    let mut v: usize = 0;
    let mut i = from;
    proof {
        assert(whole.take(0) =~= s@.subrange(from as int, from as int));
        assert(dec_val(s@.subrange(from as int, from as int)) == 0);
    }
    while i < to
        invariant
            from <= i <= to <= s@.len(),
            forall|j: int| from <= j < to ==> is_digit(s@[j]),
            whole == s@.subrange(from as int, to as int),
            all_digits(whole),
            v as int == dec_val(whole.take(i - from)),
        decreases to - i,
    {
        let c = s.get_char(i);
        proof {
            assert(is_digit(s@[i as int]));
            assert(whole[i - from] == s@[i as int]);
        }
        let d = (c as u32 - '0' as u32) as usize;
        proof {
            assert(digit_val(whole[i - from]) == d as int);
        }
        let next = match v.checked_mul(10) {
            Some(x) => x.checked_add(d),
            None => None,
        };
        match next {
            Some(y) => {
                proof {
                    lemma_dec_val_extend(whole, i - from);
                }
                v = y;
            },
            None => {
                proof {
                    lemma_dec_val_extend(whole, i - from);
                    assert(dec_val(whole.take(i - from + 1)) > usize::MAX);
                    lemma_dec_val_mono(whole, i - from + 1);
                }
                return None;
            },
        }
        i = i + 1;
    }
    proof {
        assert(whole.take(to - from) =~= whole);
    }
    Some(v)
}

/// Parse a range selector against the caller-supplied maximum `max`.
///
/// Succeeds exactly when the selector denotes a range (see
/// [`parse_range_spec`]) whose bounds fit in `usize`; every rejected selector
/// yields an error naming it.
pub fn parse_range(range: &str, max: usize) -> (r: Result<(usize, usize), Error>)
    ensures
        r is Ok <==> (parse_range_spec(range@, max as int) matches Some(q) && q.0 <= usize::MAX
            && q.1 <= usize::MAX),
        r matches Ok(p) ==> parse_range_spec(range@, max as int) == Some((p.0 as int, p.1 as int)),
        r matches Err(e) ==> e.message@ == "invalid range: "@ + range@,
{
    let n = range.unicode_len();
    let d = scan_digits(range, 0);
    proof {
        assert(range@.skip(0) =~= range@);
    }
    if d == 0 {
        return Err(range_error(range));
    }
    let start = match digits_to_usize(range, 0, d) {
        Some(v) => v,
        None => {
            proof {
                assert(range@.subrange(0, d as int) =~= range@.take(d as int));
            }
            return Err(range_error(range));
        },
    };
    proof {
        assert(range@.subrange(0, d as int) =~= range@.take(d as int));
    }
    if d == n {
        return Ok((start, start));
    }
    if range.get_char(d) != '-' {
        return Err(range_error(range));
    }
    let tstart = d + 1;
    let e = scan_digits(range, tstart);
    proof {
        let t = range@.skip(tstart as int);
        assert(t.len() == n - tstart);
        if e == n {
            assert(run_len(t, digit_pred()) == t.len() || t.len() == 0);
        }
    }
    if e != n {
        proof {
            let t = range@.skip(tstart as int);
            assert(run_len(t, digit_pred()) == e - tstart);
            assert(t.len() != 0 && run_len(t, digit_pred()) != t.len());
        }
        return Err(range_error(range));
    }
    if tstart == n {
        // open-ended form: collapse to a point when the start is out of range
        if start <= max {
            return Ok((start, max));
        } else {
            return Ok((start, start));
        }
    }
    let end = match digits_to_usize(range, tstart, n) {
        Some(v) => v,
        None => {
            proof {
                let t = range@.skip(tstart as int);
                assert(range@.subrange(tstart as int, n as int) =~= t);
            }
            return Err(range_error(range));
        },
    };
    proof {
        let t = range@.skip(tstart as int);
        assert(range@.subrange(tstart as int, n as int) =~= t);
    }
    if end < start {
        return Err(range_error(range));
    }
    Ok((start, end))
}

/// An inverted literal range is rejected whatever maximum it is parsed
/// against.
pub proof fn lemma_inverted_range_rejected(max: int)
    ensures
        parse_range_spec("3-1"@, max) is None,
{
    reveal_strlit("3-1");
    let s = "3-1"@;
    assert(s.len() == 3);
    lemma_run_len_is(s, digit_pred(), 1);
    assert(run_len(s, digit_pred()) == 1);
    let t = s.skip(2);
    assert(t.len() == 1);
    assert(t[0] == '1');
    lemma_run_len_is(t, digit_pred(), 1);
    assert(range_syntax_ok(s));
    assert(dec_val(Seq::<char>::empty()) == 0);
    assert(s.take(1).last() == '3');
    assert(s.take(1).drop_last() =~= Seq::<char>::empty());
    assert(dec_val(s.take(1)) == 3);
    assert(t.last() == '1');
    assert(t.drop_last() =~= Seq::<char>::empty());
    assert(dec_val(t) == 1);
}

} // verus!
