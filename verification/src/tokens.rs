//! The permissive version tokenizer.
//!
//! A version string splits, left to right, into alternating tokens: a maximal
//! (possibly empty) run of non-alphanumeric characters as a separator, then a
//! maximal (possibly empty) run of either all digits or all letters as a
//! component. Every input splits; nothing is rejected. The token sequence
//! always has even length, and the component count is half of it.

use vstd::prelude::*;

verus! {

/// An ASCII decimal digit.
pub open spec fn is_digit(c: char) -> bool {
    '0' <= c && c <= '9'
}

/// An ASCII letter, either case.
pub open spec fn is_letter(c: char) -> bool {
    ('a' <= c && c <= 'z') || ('A' <= c && c <= 'Z')
}

/// A component character; everything else separates components.
pub open spec fn is_alnum(c: char) -> bool {
    is_digit(c) || is_letter(c)
}

/// The separator-character predicate, as a function value.
pub open spec fn sep_pred() -> spec_fn(char) -> bool {
    |c: char| !is_alnum(c)
}

/// The digit predicate, as a function value.
pub open spec fn digit_pred() -> spec_fn(char) -> bool {
    |c: char| is_digit(c)
}

/// The letter predicate, as a function value.
pub open spec fn letter_pred() -> spec_fn(char) -> bool {
    |c: char| is_letter(c)
}

/// Length of the maximal prefix of `s` whose characters all satisfy `pred`.
pub open spec fn run_len(s: Seq<char>, pred: spec_fn(char) -> bool) -> nat
    decreases s.len(),
{
    if s.len() > 0 && pred(s[0]) {
        1 + run_len(s.skip(1), pred)
    } else {
        0
    }
}

pub proof fn lemma_run_len_bound(s: Seq<char>, pred: spec_fn(char) -> bool)
    ensures
        run_len(s, pred) <= s.len(),
    decreases s.len(),
{
    if s.len() > 0 && pred(s[0]) {
        lemma_run_len_bound(s.skip(1), pred);
    }
}

/// Every character inside the run satisfies the predicate.
pub proof fn lemma_run_len_chars(s: Seq<char>, pred: spec_fn(char) -> bool)
    ensures
        forall|j: int| 0 <= j < run_len(s, pred) ==> pred(s[j]),
    decreases s.len(),
{
    if s.len() > 0 && pred(s[0]) {
        lemma_run_len_bound(s.skip(1), pred);
        lemma_run_len_chars(s.skip(1), pred);
        assert forall|j: int| 0 <= j < run_len(s, pred) implies pred(s[j]) by {
            if j > 0 {
                assert(s.skip(1)[j - 1] == s[j]);
            }
        }
    }
}

/// A prefix length is the run length exactly when all its characters satisfy
/// the predicate and the following character (if any) does not.
pub proof fn lemma_run_len_is(s: Seq<char>, pred: spec_fn(char) -> bool, k: int)
    requires
        0 <= k <= s.len(),
        forall|j: int| 0 <= j < k ==> pred(s[j]),
        k < s.len() ==> !pred(s[k]),
    ensures
        run_len(s, pred) == k,
    decreases s.len(),
{
    if k == 0 {
    } else {
        assert(pred(s[0]));
        let t = s.skip(1);
        assert forall|j: int| 0 <= j < k - 1 implies pred(t[j]) by {
            assert(t[j] == s[j + 1]);
        }
        if k - 1 < t.len() {
            assert(t[k - 1] == s[k]);
        }
        lemma_run_len_is(t, pred, k - 1);
    }
}

/// The separator run at the head of `s`.
pub open spec fn sep_run(s: Seq<char>) -> nat {
    run_len(s, sep_pred())
}

/// The component run at the head of `s`: digits if it starts with a digit,
/// letters if it starts with a letter, empty otherwise.
pub open spec fn comp_run(s: Seq<char>) -> nat {
    if s.len() > 0 && is_digit(s[0]) {
        run_len(s, digit_pred())
    } else if s.len() > 0 && is_letter(s[0]) {
        run_len(s, letter_pred())
    } else {
        0
    }
}

/// The token sequence of `s`: separator and component pairs, in order.
pub open spec fn tokenize_spec(s: Seq<char>) -> Seq<Seq<char>>
    decreases s.len() via tokenize_spec_dec
{
    if s.len() == 0 {
        Seq::empty()
    } else {
        let k = sep_run(s);
        let rest = s.skip(k as int);
        let m = comp_run(rest);
        seq![s.take(k as int), rest.take(m as int)] + tokenize_spec(rest.skip(m as int))
    }
}

#[via_fn]
proof fn tokenize_spec_dec(s: Seq<char>) {
    if s.len() > 0 {
        lemma_run_len_bound(s, sep_pred());
        let k = sep_run(s);
        let rest = s.skip(k as int);
        lemma_run_len_bound(rest, digit_pred());
        lemma_run_len_bound(rest, letter_pred());
        if k == 0 {
            assert(rest =~= s);
            assert(is_alnum(s[0])) by {
                assert(!sep_pred()(s[0]));
            }
            assert(comp_run(rest) >= 1);
        }
    }
}

/// How many components the token sequence of `s` addresses.
pub open spec fn component_count(s: Seq<char>) -> nat {
    tokenize_spec(s).len() / 2
}

/// Concatenation of a sequence of token strings.
pub open spec fn concat_tokens(ts: Seq<Seq<char>>) -> Seq<char>
    decreases ts.len(),
{
    if ts.len() == 0 {
        Seq::empty()
    } else {
        ts[0] + concat_tokens(ts.skip(1))
    }
}

pub proof fn lemma_concat_append(a: Seq<Seq<char>>, b: Seq<Seq<char>>)
    ensures
        concat_tokens(a + b) == concat_tokens(a) + concat_tokens(b),
    decreases a.len(),
{
    if a.len() == 0 {
        assert(a + b =~= b);
        assert(concat_tokens(a) + concat_tokens(b) =~= concat_tokens(b));
    } else {
        assert((a + b).skip(1) =~= a.skip(1) + b);
        lemma_concat_append(a.skip(1), b);
        assert((a + b)[0] == a[0]);
        assert(a[0] + (concat_tokens(a.skip(1)) + concat_tokens(b)) =~= (a[0] + concat_tokens(
            a.skip(1),
        )) + concat_tokens(b));
    }
}

pub proof fn lemma_concat_snoc(a: Seq<Seq<char>>, x: Seq<char>)
    ensures
        concat_tokens(a.push(x)) == concat_tokens(a) + x,
{
    assert(a.push(x) =~= a + seq![x]);
    lemma_concat_append(a, seq![x]);
    assert(seq![x].skip(1) =~= Seq::<Seq<char>>::empty());
    assert(concat_tokens(Seq::<Seq<char>>::empty()) == Seq::<char>::empty());
    assert(x + Seq::<char>::empty() =~= x);
    assert(concat_tokens(seq![x]) == x);
}

/// At most two tokens arise per input character.
pub proof fn lemma_tokenize_len_bound(s: Seq<char>)
    ensures
        tokenize_spec(s).len() <= 2 * s.len(),
    decreases s.len(),
{
    if s.len() > 0 {
        lemma_run_len_bound(s, sep_pred());
        let k = sep_run(s);
        let rest = s.skip(k as int);
        lemma_run_len_bound(rest, digit_pred());
        lemma_run_len_bound(rest, letter_pred());
        let m = comp_run(rest);
        if k == 0 {
            assert(rest =~= s);
            assert(!sep_pred()(s[0]));
        }
        lemma_tokenize_len_bound(rest.skip(m as int));
    }
}

/// Tokenizing loses nothing: the tokens concatenate back to the input.
pub proof fn lemma_tokenize_concat(s: Seq<char>)
    ensures
        concat_tokens(tokenize_spec(s)) == s,
    decreases s.len(),
{
    if s.len() == 0 {
        assert(concat_tokens(tokenize_spec(s)) =~= s);
    } else {
        lemma_run_len_bound(s, sep_pred());
        let k = sep_run(s);
        let rest = s.skip(k as int);
        lemma_run_len_bound(rest, digit_pred());
        lemma_run_len_bound(rest, letter_pred());
        let m = comp_run(rest);
        if k == 0 {
            assert(rest =~= s);
            assert(!sep_pred()(s[0]));
            assert(comp_run(rest) >= 1);
        }
        lemma_tokenize_concat(rest.skip(m as int));
        let pair = seq![s.take(k as int), rest.take(m as int)];
        lemma_concat_append(pair, tokenize_spec(rest.skip(m as int)));
        assert(pair.skip(1) =~= seq![rest.take(m as int)]);
        assert(seq![rest.take(m as int)].skip(1) =~= Seq::<Seq<char>>::empty());
        assert(concat_tokens(Seq::<Seq<char>>::empty()) == Seq::<char>::empty());
        assert(rest.take(m as int) + Seq::<char>::empty() =~= rest.take(m as int));
        assert(concat_tokens(seq![rest.take(m as int)]) == rest.take(m as int));
        assert(concat_tokens(pair) =~= s.take(k as int) + rest.take(m as int));
        assert(s.take(k as int) + rest.take(m as int) + rest.skip(m as int) =~= s);
        assert(concat_tokens(tokenize_spec(s)) =~= s);
    }
}

/// The token sequence always has even length: one separator and one component
/// slot per step.
pub proof fn lemma_tokenize_even(s: Seq<char>)
    ensures
        tokenize_spec(s).len() % 2 == 0,
    decreases s.len(),
{
    if s.len() > 0 {
        lemma_run_len_bound(s, sep_pred());
        let k = sep_run(s);
        let rest = s.skip(k as int);
        lemma_run_len_bound(rest, digit_pred());
        lemma_run_len_bound(rest, letter_pred());
        let m = comp_run(rest);
        if k == 0 {
            assert(rest =~= s);
            assert(!sep_pred()(s[0]));
        }
        lemma_tokenize_even(rest.skip(m as int));
    }
}

/// True of a separator character at the execution level.
fn sep_char(c: char) -> (b: bool)
    ensures
        b == !is_alnum(c),
{
    !((c >= '0' && c <= '9') || (c >= 'a' && c <= 'z') || (c >= 'A' && c <= 'Z'))
}

/// True of an ASCII digit at the execution level.
fn digit_char(c: char) -> (b: bool)
    ensures
        b == is_digit(c),
{
    c >= '0' && c <= '9'
}

/// True of an ASCII letter at the execution level.
fn letter_char(c: char) -> (b: bool)
    ensures
        b == is_letter(c),
{
    (c >= 'a' && c <= 'z') || (c >= 'A' && c <= 'Z')
}

/// Split a version string into its separator/component tokens. This never
/// fails: any input splits, conforming to the version grammar or not.
pub fn tokenize(s: &str) -> (r: Vec<String>)
    ensures
        r.deep_view() == tokenize_spec(s@),
        r@.len() % 2 == 0,
{
    let n = s.unicode_len();
    let mut toks: Vec<String> = Vec::new();
    let mut i: usize = 0;
    proof {
        assert(s@.skip(0) =~= s@);
        assert(toks.deep_view() + tokenize_spec(s@) =~= tokenize_spec(s@));
    }
    while i < n
        invariant
            n == s@.len(),
            i <= n,
            tokenize_spec(s@) == toks.deep_view() + tokenize_spec(s@.skip(i as int)),
            toks@.len() % 2 == 0,
        decreases n - i,
    {
        let start = i;
        while i < n && sep_char(s.get_char(i))
            invariant
                n == s@.len(),
                start <= i <= n,
                forall|j: int| start <= j < i ==> !is_alnum(s@[j]),
            decreases n - i,
        {
            i = i + 1;
        }
        let sep = String::from_str(s.substring_char(start, i));
        let cstart = i;
        if i < n && digit_char(s.get_char(i)) {
            while i < n && digit_char(s.get_char(i))
                invariant
                    n == s@.len(),
                    cstart <= i <= n,
                    forall|j: int| cstart <= j < i ==> is_digit(s@[j]),
                    cstart < n && is_digit(s@[cstart as int]),
                decreases n - i,
            {
                i = i + 1;
            }
        } else if i < n && letter_char(s.get_char(i)) {
            while i < n && letter_char(s.get_char(i))
                invariant
                    n == s@.len(),
                    cstart <= i <= n,
                    forall|j: int| cstart <= j < i ==> is_letter(s@[j]),
                    cstart < n && is_letter(s@[cstart as int]),
                decreases n - i,
            {
                i = i + 1;
            }
        }
        let comp = String::from_str(s.substring_char(cstart, i));
        proof {
            let suf = s@.skip(start as int);
            assert forall|j: int| 0 <= j < cstart - start implies sep_pred()(suf[j]) by {
                assert(suf[j] == s@[start + j]);
            }
            if cstart - start < suf.len() {
                assert(suf[cstart - start] == s@[cstart as int]);
            }
            lemma_run_len_is(suf, sep_pred(), cstart - start);
            assert(sep_run(suf) == cstart - start);
            let rest = suf.skip(cstart - start);
            assert(rest =~= s@.skip(cstart as int));
            if cstart < n && is_digit(s@[cstart as int]) {
                assert forall|j: int| 0 <= j < i - cstart implies digit_pred()(rest[j]) by {
                    assert(rest[j] == s@[cstart + j]);
                }
                if i < n {
                    assert(rest[i - cstart] == s@[i as int]);
                }
                lemma_run_len_is(rest, digit_pred(), i - cstart);
                assert(comp_run(rest) == i - cstart);
            } else if cstart < n && is_letter(s@[cstart as int]) {
                assert forall|j: int| 0 <= j < i - cstart implies letter_pred()(rest[j]) by {
                    assert(rest[j] == s@[cstart + j]);
                }
                if i < n {
                    assert(rest[i - cstart] == s@[i as int]);
                }
                lemma_run_len_is(rest, letter_pred(), i - cstart);
                assert(comp_run(rest) == i - cstart);
            } else {
                assert(i == cstart);
                assert(comp_run(rest) == 0);
            }
            assert(suf.take(cstart - start) =~= s@.subrange(start as int, cstart as int));
            assert(rest.take(i - cstart) =~= s@.subrange(cstart as int, i as int));
            assert(rest.skip(i - cstart) =~= s@.skip(i as int));
            assert(tokenize_spec(suf) == seq![sep@, comp@] + tokenize_spec(s@.skip(i as int)));
        }
        let ghost old_toks = toks.deep_view();
        toks.push(sep);
        toks.push(comp);
        proof {
            assert(toks.deep_view() =~= old_toks + seq![toks@[toks@.len() - 2]@, toks@[toks@.len()
                - 1]@]);
            assert(old_toks + (seq![toks@[toks@.len() - 2]@, toks@[toks@.len() - 1]@]
                + tokenize_spec(s@.skip(i as int))) =~= toks.deep_view() + tokenize_spec(s@.skip(
                i as int,
            )));
        }
    }
    proof {
        assert(s@.skip(n as int) =~= Seq::<char>::empty());
        assert(tokenize_spec(s@) =~= toks.deep_view());
    }
    toks
}

} // verus!
