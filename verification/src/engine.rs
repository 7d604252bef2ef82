//! The range engine: extraction ("cut") and separator substitution ("rs")
//! over the token sequence of a version string.
//!
//! Both operations tokenize the input, parse each range selector against the
//! component count, and work on token indices: component `n` owns the
//! separator slot `2n` and the component slot `2n + 1`. Extraction with a
//! range starting at `0` keeps the leading separator; any other start begins
//! at the selected component's own separator. Substitution overwrites the
//! separator slot of every selected component that lies within bounds, one
//! pair after the other, so later pairs win on overlapping ranges.

use vstd::prelude::*;

use crate::error::Error;
use crate::range::{lemma_range_ordered, parse_range, parse_range_spec};
use crate::tokens::{
    concat_tokens, digit_pred, lemma_concat_snoc, lemma_run_len_is, lemma_tokenize_concat,
    lemma_tokenize_even, lemma_tokenize_len_bound, run_len, tokenize, tokenize_spec,
};
use crate::range::{dec_val, range_syntax_ok};

verus! {

/// The smaller of two integers.
pub open spec fn min_i(a: int, b: int) -> int {
    if a <= b {
        a
    } else {
        b
    }
}

/// A parsed range whose bounds also fit the machine word; the executable
/// parser rejects larger literal bounds.
pub open spec fn parse_range_fit(s: Seq<char>, max: int) -> Option<(int, int)> {
    match parse_range_spec(s, max) {
        Some(q) => if q.0 <= usize::MAX && q.1 <= usize::MAX {
            Some(q)
        } else {
            None
        },
        None => None,
    }
}

/// First token index of an extraction.
pub open spec fn cut_lo(start: int, len: int) -> int {
    if start == 0 {
        0
    } else {
        min_i(2 * start - 1, len)
    }
}

/// One-past-last token index of an extraction.
pub open spec fn cut_hi(end: int, len: int) -> int {
    min_i(2 * end, len)
}

/// What extraction denotes: the concatenation of the tokens the range
/// selects, or `None` when the selector is rejected.
pub open spec fn extract_spec(s: Seq<char>, range: Seq<char>) -> Option<Seq<char>> {
    let toks = tokenize_spec(s);
    match parse_range_fit(range, (toks.len() / 2) as int) {
        None => None,
        Some((start, end)) => Some(
            concat_tokens(
                toks.subrange(cut_lo(start, toks.len() as int), cut_hi(end, toks.len() as int)),
            ),
        ),
    }
}

/// One substitution step, with the window not yet closed: separator slots of
/// components `start` up to (excluding) `upto` carry the new separator.
pub open spec fn subst_upto(toks: Seq<Seq<char>>, start: int, upto: int, sep: Seq<char>) -> Seq<
    Seq<char>,
> {
    Seq::new(
        toks.len(),
        |i: int|
            if i % 2 == 0 && 2 * start <= i && i < 2 * upto {
                sep
            } else {
                toks[i]
            },
    )
}

/// One substitution: the separator slot of every component in
/// `start ..= end` that lies within bounds carries the new separator.
pub open spec fn subst_pair(toks: Seq<Seq<char>>, start: int, end: int, sep: Seq<char>) -> Seq<
    Seq<char>,
> {
    Seq::new(
        toks.len(),
        |i: int|
            if i % 2 == 0 && 2 * start <= i && i <= 2 * end {
                sep
            } else {
                toks[i]
            },
    )
}

/// All substitutions, applied left to right.
pub open spec fn subst_all(toks: Seq<Seq<char>>, pairs: Seq<(Seq<char>, Seq<char>)>) -> Option<
    Seq<Seq<char>>,
>
    decreases pairs.len(),
{
    if pairs.len() == 0 {
        Some(toks)
    } else {
        match parse_range_fit(pairs[0].0, (toks.len() / 2) as int) {
            None => None,
            Some((start, end)) => subst_all(subst_pair(toks, start, end, pairs[0].1), pairs.skip(1)),
        }
    }
}

/// What substitution denotes on the whole string.
pub open spec fn substitute_spec(s: Seq<char>, pairs: Seq<(Seq<char>, Seq<char>)>) -> Option<
    Seq<char>,
> {
    match subst_all(tokenize_spec(s), pairs) {
        None => None,
        Some(ts) => Some(concat_tokens(ts)),
    }
}

/// The views of a list of (range selector, separator) pairs.
pub open spec fn pairs_view(pairs: Seq<(String, String)>) -> Seq<(Seq<char>, Seq<char>)> {
    pairs.map_values(|p: (String, String)| (p.0@, p.1@))
}

/// Concatenate the tokens `toks[lo .. hi)`.
fn join_tokens(toks: &Vec<String>, lo: usize, hi: usize) -> (out: String)
    requires
        lo <= hi <= toks@.len(),
    ensures
        out@ == concat_tokens(toks.deep_view().subrange(lo as int, hi as int)),
{
    let mut out = String::new();
    let mut j = lo;
    proof {
        assert(toks.deep_view().subrange(lo as int, lo as int) =~= Seq::<Seq<char>>::empty());
        assert(out@ =~= concat_tokens(toks.deep_view().subrange(lo as int, lo as int)));
    }
    while j < hi
        invariant
            lo <= j <= hi <= toks@.len(),
            toks@.len() == toks.deep_view().len(),
            out@ == concat_tokens(toks.deep_view().subrange(lo as int, j as int)),
        decreases hi - j,
    {
        out.append(toks[j].as_str());
        proof {
            let dv = toks.deep_view();
            assert(dv[j as int] == toks@[j as int]@);
            assert(dv.subrange(lo as int, j + 1) =~= dv.subrange(lo as int, j as int).push(
                dv[j as int],
            ));
            lemma_concat_snoc(dv.subrange(lo as int, j as int), dv[j as int]);
        }
        j = j + 1;
    }
    out
}

/// Cut the components the range selects out of `version`.
///
/// Succeeds exactly when the selector parses against the component count with
/// bounds that fit the machine word; tokenizing itself never fails.
pub fn extract(version: &str, range: &str) -> (r: Result<String, Error>)
    ensures
        r is Ok <==> extract_spec(version@, range@) is Some,
        r matches Ok(out) ==> Some(out@) == extract_spec(version@, range@),
        r matches Err(e) ==> e.message@ == "invalid range: "@ + range@,
{
    let toks = tokenize(version);
    let len = toks.len();
    let cc = len / 2;
    proof {
        assert(toks.deep_view().len() == toks@.len());
    }
    let (start, end) = match parse_range(range, cc) {
        Ok(p) => p,
        Err(e) => {
            return Err(e);
        },
    };
    proof {
        lemma_range_ordered(range@, cc as int);
    }
    let si: usize = if start == 0 {
        0
    } else {
        match start.checked_mul(2) {
            Some(x) => if x - 1 <= len {
                x - 1
            } else {
                len
            },
            None => len,
        }
    };
    let ei: usize = match end.checked_mul(2) {
        Some(x) => if x <= len {
            x
        } else {
            len
        },
        None => len,
    };
    proof {
        assert(si as int == cut_lo(start as int, len as int));
        assert(ei as int == cut_hi(end as int, len as int));
    }
    Ok(join_tokens(&toks, si, ei))
}

/// Apply every (range selector, separator) pair to `version`, left to right.
///
/// Succeeds exactly when every selector parses against the component count
/// with bounds that fit the machine word; a rejected selector aborts the
/// whole substitution and names itself.
pub fn substitute(version: &str, pairs: &Vec<(String, String)>) -> (r: Result<String, Error>)
    ensures
        r is Ok <==> substitute_spec(version@, pairs_view(pairs@)) is Some,
        r matches Ok(out) ==> Some(out@) == substitute_spec(version@, pairs_view(pairs@)),
        r matches Err(e) ==> exists|p: int|
            0 <= p < pairs@.len() && parse_range_fit(
                pairs@[p].0@,
                (tokenize_spec(version@).len() / 2) as int,
            ) is None && e.message@ == "invalid range: "@ + pairs@[p].0@,
{
    let mut toks = tokenize(version);
    let len = toks.len();
    let cc = len / 2;
    let ghost toks0 = toks.deep_view();
    let ghost pv = pairs_view(pairs@);
    proof {
        assert(toks.deep_view().len() == toks@.len());
        assert(pv.skip(0) =~= pv);
    }
    let mut p: usize = 0;
    while p < pairs.len()
        invariant
            p <= pairs@.len(),
            pv == pairs_view(pairs@),
            toks@.len() == len,
            toks.deep_view().len() == len as int,
            len as int == tokenize_spec(version@).len(),
            cc == len / 2,
            toks0 == tokenize_spec(version@),
            subst_all(toks0, pv) == subst_all(toks.deep_view(), pv.skip(p as int)),
        decreases pairs@.len() - p,
    {
        proof {
            assert(pv[p as int] == (pairs@[p as int].0@, pairs@[p as int].1@));
        }
        let (start, end) = match parse_range(pairs[p].0.as_str(), cc) {
            Ok(q) => q,
            Err(e) => {
                proof {
                    assert(pv.skip(p as int)[0] == pv[p as int]);
                    assert(pv.skip(p as int).len() > 0);
                    assert(subst_all(toks.deep_view(), pv.skip(p as int)) is None);
                }
                return Err(e);
            },
        };
        proof {
            lemma_range_ordered(pairs@[p as int].0@, cc as int);
        }
        let sep = pairs[p].1.clone();
        let ghost before = toks.deep_view();
        let mut nidx = start;
        proof {
            assert(subst_upto(before, start as int, start as int, sep@) =~= before);
        }
        while nidx <= end && nidx < len - len / 2
            invariant
                start <= nidx,
                nidx as int <= end as int + 1,
                start <= end,
                toks@.len() == len,
                toks.deep_view().len() == len as int,
                sep@ == pairs@[p as int].1@,
                p < pairs@.len(),
                toks.deep_view() == subst_upto(before, start as int, nidx as int, sep@),
            decreases end as int + 1 - nidx as int,
        {
            proof {
                assert(2 * ((len as int) / 2) >= len as int - 1);
                assert(2 * (nidx as int) < len as int);
            }
            let idx = 2 * nidx;
            let ghost prevv = toks@;
            let ghost prevdv = toks.deep_view();
            toks[idx] = sep.clone();
            proof {
                assert(toks@[idx as int]@ == sep@);
                assert forall|i: int| 0 <= i < len implies toks.deep_view()[i] == subst_upto(
                    before,
                    start as int,
                    nidx as int + 1,
                    sep@,
                )[i] by {
                    assert(toks.deep_view()[i] == toks@[i]@);
                    if i == idx as int {
                        assert(i % 2 == 0 && 2 * (start as int) <= i && i < 2 * (nidx as int + 1));
                    } else {
                        assert(toks@[i] == prevv[i]);
                        assert(prevdv[i] == prevv[i]@);
                        assert(subst_upto(before, start as int, nidx as int, sep@)[i] == prevdv[i]);
                        if i % 2 == 0 && 2 * (start as int) <= i && i < 2 * (nidx as int + 1) {
                            assert(i < 2 * (nidx as int));
                        }
                    }
                }
                assert(toks.deep_view() =~= subst_upto(before, start as int, nidx as int + 1, sep@));
            }
            nidx = nidx + 1;
        }
        proof {
            let fin = toks.deep_view();
            assert forall|i: int| 0 <= i < len implies fin[i] == subst_pair(
                before,
                start as int,
                end as int,
                sep@,
            )[i] by {
                if !(nidx as int == end as int + 1) {
                    assert(2 * nidx >= len as int) by {
                        assert(nidx >= len - len / 2);
                        assert(2 * (len / 2) <= len as int);
                    }
                }
            }
            assert(fin =~= subst_pair(before, start as int, end as int, sep@));
            assert(subst_all(before, pv.skip(p as int)) == subst_all(fin, pv.skip(p as int).skip(1)));
            assert(pv.skip(p as int).skip(1) =~= pv.skip(p as int + 1));
        }
        p = p + 1;
    }
    proof {
        assert(pv.skip(p as int) =~= Seq::<(Seq<char>, Seq<char>)>::empty());
        assert(subst_all(toks0, pv) == Some(toks.deep_view()));
    }
    let out = join_tokens(&toks, 0, len);
    proof {
        assert(toks.deep_view().subrange(0, len as int) =~= toks.deep_view());
    }
    Ok(out)
}

/// Extracting from component zero through the open end reproduces the input
/// unchanged: the tokens tile the whole string.
pub proof fn lemma_extract_whole(s: Seq<char>)
    requires
        s.len() <= usize::MAX,
    ensures
        extract_spec(s, "0-"@) == Some(s),
{
    reveal_strlit("0-");
    let r = "0-"@;
    assert(r.len() == 2 && r[0] == '0' && r[1] == '-');
    lemma_run_len_is(r, digit_pred(), 1);
    let toks = tokenize_spec(s);
    lemma_tokenize_even(s);
    lemma_tokenize_len_bound(s);
    let cc = (toks.len() / 2) as int;
    assert(r.skip(2).len() == 0);
    assert(range_syntax_ok(r));
    assert(dec_val(Seq::<char>::empty()) == 0);
    assert(r.take(1).last() == '0');
    assert(r.take(1).drop_last() =~= Seq::<char>::empty());
    assert(dec_val(r.take(1)) == 0);
    assert(parse_range_spec(r, cc) == Some((0int, cc)));
    assert(cc <= usize::MAX);
    assert(2 * cc == toks.len());
    assert(cut_lo(0, toks.len() as int) == 0);
    assert(cut_hi(cc, toks.len() as int) == toks.len());
    assert(toks.subrange(0, toks.len() as int) =~= toks);
    lemma_tokenize_concat(s);
}

} // verus!
