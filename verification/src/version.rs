//! The strict version grammar and its structured form.
//!
//! A version is one or more dot-separated numeric release parts (each kept as
//! written, so leading zeros survive for comparison), an optional trailing
//! lowercase letter, at most one staged suffix (`alpha`, `beta`, `pre`, `rc`
//! or `p`, each with an optional number), and an optional revision `-rN`.
//! Unlike the tokenizer, this parser rejects anything outside the grammar.

use vstd::prelude::*;

use crate::error::Error;
use crate::range::{all_digits, scan_digits};
use crate::tokens::{digit_pred, is_digit, lemma_run_len_bound, lemma_run_len_chars, run_len};

verus! {

/// A lowercase ASCII letter, the only kind the grammar accepts.
pub open spec fn is_lower(c: char) -> bool {
    'a' <= c && c <= 'z'
}

/// The staged suffix kinds. Their comparison order is
/// `alpha < beta < pre < rc < (no suffix) < p`.
#[derive(Clone, Copy, PartialEq, Eq, Structural, Debug)]
pub enum SuffixKind {
    Alpha,
    Beta,
    Pre,
    Rc,
    P,
}

/// A staged suffix with its optional number, kept as written.
#[derive(Clone, Debug)]
pub struct VersionSuffix {
    pub kind: SuffixKind,
    pub num: Option<String>,
}

/// A parsed version: a stateless value, never mutated after construction.
#[derive(Clone, Debug)]
pub struct Version {
    pub parts: Vec<String>,
    pub letter: Option<char>,
    pub suffix: Option<VersionSuffix>,
    pub revision: Option<String>,
}

/// The mathematical shape of a suffix.
pub struct SuffixView {
    pub kind: SuffixKind,
    pub num: Option<Seq<char>>,
}

/// The mathematical shape of a version.
pub struct VersionView {
    pub parts: Seq<Seq<char>>,
    pub letter: Option<char>,
    pub suffix: Option<SuffixView>,
    pub revision: Option<Seq<char>>,
}

impl View for VersionSuffix {
    type V = SuffixView;

    open spec fn view(&self) -> SuffixView {
        SuffixView { kind: self.kind, num: self.num.deep_view() }
    }
}

/// The view of an optional suffix.
pub open spec fn suffix_view(s: Option<VersionSuffix>) -> Option<SuffixView> {
    match s {
        Some(x) => Some(x@),
        None => None,
    }
}

impl View for Version {
    type V = VersionView;

    open spec fn view(&self) -> VersionView {
        VersionView {
            parts: self.parts.deep_view(),
            letter: self.letter,
            suffix: suffix_view(self.suffix),
            revision: self.revision.deep_view(),
        }
    }
}

/// Length of the digit run at the head of `s`.
pub open spec fn digits_at(s: Seq<char>) -> int {
    run_len(s, digit_pred()) as int
}

/// Parse the dot-separated release parts at the head of `s`; returns the
/// parts and the unconsumed remainder.
pub open spec fn parse_parts(s: Seq<char>) -> Option<(Seq<Seq<char>>, Seq<char>)>
    decreases s.len() via parse_parts_dec
{
    let d = digits_at(s);
    if d == 0 {
        None
    } else {
        let part = s.take(d);
        let rest = s.skip(d);
        if rest.len() > 0 && rest[0] == '.' {
            match parse_parts(rest.skip(1)) {
                Some((ps, r2)) => Some((seq![part] + ps, r2)),
                None => None,
            }
        } else {
            Some((seq![part], rest))
        }
    }
}

#[via_fn]
proof fn parse_parts_dec(s: Seq<char>) {
    lemma_run_len_bound(s, digit_pred());
}

/// Parse the optional trailing letter.
pub open spec fn parse_letter(s: Seq<char>) -> (Option<char>, Seq<char>) {
    if s.len() > 0 && is_lower(s[0]) {
        (Some(s[0]), s.skip(1))
    } else {
        (None, s)
    }
}

/// `p` is a prefix of `s`.
pub open spec fn starts_with(s: Seq<char>, p: Seq<char>) -> bool {
    p.len() <= s.len() && s.take(p.len() as int) == p
}

/// Which suffix keyword stands at the head of `s`, and its length. The longer
/// keywords are tried first, so `pre` is never read as `p` followed by `re`.
pub open spec fn suffix_kind_at(s: Seq<char>) -> Option<(SuffixKind, int)> {
    if starts_with(s, seq!['a', 'l', 'p', 'h', 'a']) {
        Some((SuffixKind::Alpha, 5))
    } else if starts_with(s, seq!['b', 'e', 't', 'a']) {
        Some((SuffixKind::Beta, 4))
    } else if starts_with(s, seq!['p', 'r', 'e']) {
        Some((SuffixKind::Pre, 3))
    } else if starts_with(s, seq!['r', 'c']) {
        Some((SuffixKind::Rc, 2))
    } else if starts_with(s, seq!['p']) {
        Some((SuffixKind::P, 1))
    } else {
        None
    }
}

/// Parse the optional staged suffix: an underscore, a keyword, an optional
/// number. An underscore followed by anything else rejects the string.
pub open spec fn parse_suffix(s: Seq<char>) -> Option<(Option<SuffixView>, Seq<char>)> {
    if s.len() == 0 || s[0] != '_' {
        Some((None, s))
    } else {
        let t = s.skip(1);
        match suffix_kind_at(t) {
            None => None,
            Some((kind, klen)) => {
                let u = t.skip(klen);
                let d = digits_at(u);
                let num = if d > 0 {
                    Some(u.take(d))
                } else {
                    None
                };
                Some((Some(SuffixView { kind, num }), u.skip(d)))
            },
        }
    }
}

/// Parse the optional revision: `-r` followed by at least one digit. A dash
/// followed by anything else rejects the string.
pub open spec fn parse_revision(s: Seq<char>) -> Option<(Option<Seq<char>>, Seq<char>)> {
    if s.len() == 0 || s[0] != '-' {
        Some((None, s))
    } else {
        let t = s.skip(1);
        if t.len() > 0 && t[0] == 'r' {
            let u = t.skip(1);
            let d = digits_at(u);
            if d > 0 {
                Some((Some(u.take(d)), u.skip(d)))
            } else {
                None
            }
        } else {
            None
        }
    }
}

/// The version a string denotes, or `None` when it breaks the grammar.
pub open spec fn version_model(s: Seq<char>) -> Option<VersionView> {
    match parse_parts(s) {
        None => None,
        Some((parts, r1)) => {
            let (letter, r2) = parse_letter(r1);
            match parse_suffix(r2) {
                None => None,
                Some((suffix, r3)) => match parse_revision(r3) {
                    None => None,
                    Some((revision, r4)) => if r4.len() == 0 {
                        Some(VersionView { parts, letter, suffix, revision })
                    } else {
                        None
                    },
                },
            }
        },
    }
}

/// The string conforms to the version grammar.
pub open spec fn version_wf(s: Seq<char>) -> bool {
    version_model(s) is Some
}

/// A nonempty, all-digit character sequence.
pub open spec fn digit_word(s: Seq<char>) -> bool {
    s.len() >= 1 && all_digits(s)
}

/// The shape the grammar guarantees of every parsed version: at least one
/// release part, every numeric field a nonempty digit string, and a lowercase
/// letter if any.
pub open spec fn view_wf(v: VersionView) -> bool {
    &&& v.parts.len() >= 1
    &&& (forall|i: int| 0 <= i < v.parts.len() ==> digit_word(#[trigger] v.parts[i]))
    &&& (v.letter matches Some(c) ==> is_lower(c))
    &&& (v.suffix matches Some(sv) ==> (sv.num matches Some(nm) ==> digit_word(nm)))
    &&& (v.revision matches Some(rv) ==> digit_word(rv))
}

impl Version {
    /// The well-formedness of a structured version; `parse` establishes it.
    pub open spec fn wf(&self) -> bool {
        view_wf(self@)
    }
}

/// The digit run at the head of a sequence is a digit word when nonempty.
proof fn lemma_head_run_digit_word(s: Seq<char>)
    ensures
        digits_at(s) >= 1 ==> digit_word(s.take(digits_at(s))),
{
    lemma_run_len_bound(s, digit_pred());
    lemma_run_len_chars(s, digit_pred());
    let d = digits_at(s);
    if d >= 1 {
        assert forall|j: int| 0 <= j < d implies is_digit(s.take(d)[j]) by {
            assert(digit_pred()(s[j]));
        }
    }
}

/// Every release part the parser yields is a nonempty digit string.
proof fn lemma_parse_parts_wf(s: Seq<char>)
    ensures
        parse_parts(s) matches Some(p) ==> p.0.len() >= 1 && (forall|i: int|
            0 <= i < p.0.len() ==> digit_word(#[trigger] p.0[i])),
    decreases s.len(),
{
    lemma_run_len_bound(s, digit_pred());
    let d = digits_at(s);
    if d >= 1 {
        lemma_head_run_digit_word(s);
        let part = s.take(d);
        let rest = s.skip(d);
        if rest.len() > 0 && rest[0] == '.' {
            lemma_parse_parts_wf(rest.skip(1));
            match parse_parts(rest.skip(1)) {
                Some((ps, r2)) => {
                    assert forall|i: int| 0 <= i < (seq![part] + ps).len() implies digit_word(
                        #[trigger] (seq![part] + ps)[i],
                    ) by {
                        if i > 0 {
                            assert((seq![part] + ps)[i] == ps[i - 1]);
                        }
                    }
                },
                None => {},
            }
        } else {
            assert(seq![part][0] == part);
        }
    }
}

/// Whatever parses is well formed.
pub proof fn lemma_version_model_wf(s: Seq<char>)
    ensures
        version_model(s) matches Some(v) ==> view_wf(v),
{
    lemma_parse_parts_wf(s);
    match parse_parts(s) {
        None => {},
        Some((parts, r1)) => {
            let (letter, r2) = parse_letter(r1);
            if r2.len() > 0 && r2[0] == '_' {
                let t = r2.skip(1);
                match suffix_kind_at(t) {
                    None => {},
                    Some((kind, klen)) => {
                        let u = t.skip(klen);
                        lemma_head_run_digit_word(u);
                    },
                }
            }
            match parse_suffix(r2) {
                None => {},
                Some((suffix, r3)) => {
                    if r3.len() > 0 && r3[0] == '-' {
                        let t = r3.skip(1);
                        if t.len() > 0 && t[0] == 'r' {
                            lemma_head_run_digit_word(t.skip(1));
                        }
                    }
                },
            }
        },
    }
}

/// Build the error that every rejected version string produces.
fn version_error(s: &str) -> (e: Error)
    ensures
        e.message@ == "invalid version: "@ + s@,
{
    let mut m = String::from_str("invalid version: ");
    m.append(s);
    Error { message: m }
}

/// A prefix pins the characters it covers.
proof fn lemma_starts_with_chars(s: Seq<char>, p: Seq<char>)
    requires
        starts_with(s, p),
    ensures
        p.len() <= s.len(),
        forall|k: int| 0 <= k < p.len() ==> s[k] == p[k],
{
    assert(forall|k: int| 0 <= k < p.len() ==> s.take(p.len() as int)[k] == s[k]);
}

/// Collect the result-prefix of release parts onto an already-parsed head.
pub open spec fn parts_result(
    done: Seq<Seq<char>>,
    r: Option<(Seq<Seq<char>>, Seq<char>)>,
) -> Option<(Seq<Seq<char>>, Seq<char>)> {
    match r {
        Some((ps, rest)) => Some((done + ps, rest)),
        None => None,
    }
}

/// What remains of the release-part parse once `done` parts are consumed and
/// the remainder `s` follows the last of them.
pub open spec fn parts_cont(done: Seq<Seq<char>>, s: Seq<char>) -> Option<
    (Seq<Seq<char>>, Seq<char>),
> {
    if s.len() > 0 && s[0] == '.' {
        parts_result(done, parse_parts(s.skip(1)))
    } else {
        Some((done, s))
    }
}

/// Parse the release parts of `s`, returning them with the index just past
/// the last one.
fn parse_parts_at(s: &str) -> (r: Result<(Vec<String>, usize), Error>)
    ensures
        r matches Ok(p) ==> p.1 <= s@.len() && parse_parts(s@) == Some(
            (p.0.deep_view(), s@.skip(p.1 as int)),
        ),
        r is Err ==> parse_parts(s@) is None,
        r matches Err(e) ==> e.message@ == "invalid version: "@ + s@,
{
    let n = s.unicode_len();
    let mut parts: Vec<String> = Vec::new();
    proof {
        assert(s@.skip(0) =~= s@);
    }
    let j = scan_digits(s, 0);
    if j == 0 {
        proof {
            assert(digits_at(s@) == 0);
        }
        return Err(version_error(s));
    }
    parts.push(String::from_str(s.substring_char(0, j)));
    let mut i = j;
    proof {
        assert(s@.subrange(0, j as int) =~= s@.take(j as int));
        assert(parts.deep_view() =~= seq![s@.take(j as int)]);
        let rest = s@.skip(j as int);
        if rest.len() > 0 && rest[0] == '.' {
            assert(parse_parts(s@) == parts_result(
                seq![s@.take(j as int)],
                parse_parts(rest.skip(1)),
            ));
        }
        assert(parse_parts(s@) == parts_cont(parts.deep_view(), s@.skip(i as int)));
    }
    while i < n && s.get_char(i) == '.'
        invariant
            n == s@.len(),
            i <= n,
            parse_parts(s@) == parts_cont(parts.deep_view(), s@.skip(i as int)),
        decreases n - i,
    {
        proof {
            assert(s@.skip(i as int)[0] == s@[i as int]);
            assert(s@.skip(i as int).skip(1) =~= s@.skip(i as int + 1));
        }
        let j2 = scan_digits(s, i + 1);
        if j2 == i + 1 {
            proof {
                assert(digits_at(s@.skip(i as int + 1)) == 0);
                assert(parse_parts(s@.skip(i as int + 1)) is None);
            }
            return Err(version_error(s));
        }
        let ghost done = parts.deep_view();
        parts.push(String::from_str(s.substring_char(i + 1, j2)));
        proof {
            let sub = s@.skip(i as int + 1);
            let d = j2 - (i + 1);
            assert(digits_at(sub) == d);
            let part = sub.take(d as int);
            assert(s@.subrange(i as int + 1, j2 as int) =~= part);
            assert(parts.deep_view() =~= done.push(part));
            let rest = sub.skip(d as int);
            assert(rest =~= s@.skip(j2 as int));
            if rest.len() > 0 && rest[0] == '.' {
                assert(parse_parts(sub) == parts_result(seq![part], parse_parts(rest.skip(1))));
                assert(rest.skip(1) =~= s@.skip(j2 as int).skip(1));
                match parse_parts(rest.skip(1)) {
                    Some((ps, r2)) => {
                        assert(done + (seq![part] + ps) =~= done.push(part) + ps);
                    },
                    None => {},
                }
            } else {
                assert(parse_parts(sub) == Some((seq![part], rest)));
                assert(done + seq![part] =~= done.push(part));
            }
            assert(parse_parts(s@) == parts_cont(parts.deep_view(), s@.skip(j2 as int)));
        }
        i = j2;
    }
    proof {
        let r1 = s@.skip(i as int);
        if r1.len() > 0 {
            assert(r1[0] == s@[i as int]);
        }
        assert(parse_parts(s@) == Some((parts.deep_view(), r1)));
    }
    Ok((parts, i))
}

/// Consume the optional trailing letter at `i`.
fn parse_letter_at(s: &str, i: usize) -> (r: (Option<char>, usize))
    requires
        i <= s@.len(),
    ensures
        i <= r.1 <= s@.len(),
        parse_letter(s@.skip(i as int)) == (r.0, s@.skip(r.1 as int)),
{
    let n = s.unicode_len();
    let ghost r1 = s@.skip(i as int);
    if i < n {
        let c = s.get_char(i);
        if c >= 'a' && c <= 'z' {
            proof {
                assert(r1[0] == c);
                assert(r1.skip(1) =~= s@.skip(i as int + 1));
            }
            return (Some(c), i + 1);
        }
        proof {
            assert(r1[0] == c);
        }
    }
    (None, i)
}

/// Which suffix keyword stands at `t0`, with its length.
fn suffix_kw_at(s: &str, t0: usize) -> (r: Option<(SuffixKind, usize)>)
    requires
        t0 <= s@.len(),
    ensures
        r matches Some(p) ==> t0 + p.1 <= s@.len() && suffix_kind_at(s@.skip(t0 as int)) == Some(
            (p.0, p.1 as int),
        ),
        r is None ==> suffix_kind_at(s@.skip(t0 as int)) is None,
{
    let n = s.unicode_len();
    let ghost t = s@.skip(t0 as int);
    if n - t0 >= 5 && s.get_char(t0) == 'a' && s.get_char(t0 + 1) == 'l' && s.get_char(t0 + 2)
        == 'p' && s.get_char(t0 + 3) == 'h' && s.get_char(t0 + 4) == 'a' {
        proof {
            assert(t.take(5) =~= seq!['a', 'l', 'p', 'h', 'a']);
        }
        Some((SuffixKind::Alpha, 5))
    } else if n - t0 >= 4 && s.get_char(t0) == 'b' && s.get_char(t0 + 1) == 'e' && s.get_char(
        t0 + 2,
    ) == 't' && s.get_char(t0 + 3) == 'a' {
        proof {
            assert(t.take(4) =~= seq!['b', 'e', 't', 'a']);
            assert(!starts_with(t, seq!['a', 'l', 'p', 'h', 'a'])) by {
                if starts_with(t, seq!['a', 'l', 'p', 'h', 'a']) {
                    lemma_starts_with_chars(t, seq!['a', 'l', 'p', 'h', 'a']);
                    assert(t[0] == 'a');
                }
            }
        }
        Some((SuffixKind::Beta, 4))
    } else if n - t0 >= 3 && s.get_char(t0) == 'p' && s.get_char(t0 + 1) == 'r' && s.get_char(
        t0 + 2,
    ) == 'e' {
        proof {
            assert(t.take(3) =~= seq!['p', 'r', 'e']);
            assert(!starts_with(t, seq!['a', 'l', 'p', 'h', 'a'])) by {
                if starts_with(t, seq!['a', 'l', 'p', 'h', 'a']) {
                    lemma_starts_with_chars(t, seq!['a', 'l', 'p', 'h', 'a']);
                    assert(t[0] == 'a');
                }
            }
            assert(!starts_with(t, seq!['b', 'e', 't', 'a'])) by {
                if starts_with(t, seq!['b', 'e', 't', 'a']) {
                    lemma_starts_with_chars(t, seq!['b', 'e', 't', 'a']);
                    assert(t[0] == 'b');
                }
            }
        }
        Some((SuffixKind::Pre, 3))
    } else if n - t0 >= 2 && s.get_char(t0) == 'r' && s.get_char(t0 + 1) == 'c' {
        proof {
            assert(t.take(2) =~= seq!['r', 'c']);
            assert(!starts_with(t, seq!['a', 'l', 'p', 'h', 'a'])) by {
                if starts_with(t, seq!['a', 'l', 'p', 'h', 'a']) {
                    lemma_starts_with_chars(t, seq!['a', 'l', 'p', 'h', 'a']);
                    assert(t[0] == 'a');
                }
            }
            assert(!starts_with(t, seq!['b', 'e', 't', 'a'])) by {
                if starts_with(t, seq!['b', 'e', 't', 'a']) {
                    lemma_starts_with_chars(t, seq!['b', 'e', 't', 'a']);
                    assert(t[0] == 'b');
                }
            }
            assert(!starts_with(t, seq!['p', 'r', 'e'])) by {
                if starts_with(t, seq!['p', 'r', 'e']) {
                    lemma_starts_with_chars(t, seq!['p', 'r', 'e']);
                    assert(t[0] == 'p');
                }
            }
        }
        Some((SuffixKind::Rc, 2))
    } else if n - t0 >= 1 && s.get_char(t0) == 'p' {
        proof {
            assert(t.take(1) =~= seq!['p']);
            assert(!starts_with(t, seq!['a', 'l', 'p', 'h', 'a'])) by {
                if starts_with(t, seq!['a', 'l', 'p', 'h', 'a']) {
                    lemma_starts_with_chars(t, seq!['a', 'l', 'p', 'h', 'a']);
                    assert(t[0] == 'a');
                }
            }
            assert(!starts_with(t, seq!['b', 'e', 't', 'a'])) by {
                if starts_with(t, seq!['b', 'e', 't', 'a']) {
                    lemma_starts_with_chars(t, seq!['b', 'e', 't', 'a']);
                    assert(t[0] == 'b');
                }
            }
            assert(!starts_with(t, seq!['p', 'r', 'e'])) by {
                if starts_with(t, seq!['p', 'r', 'e']) {
                    lemma_starts_with_chars(t, seq!['p', 'r', 'e']);
                    assert(t[1] == 'r');
                }
            }
            assert(!starts_with(t, seq!['r', 'c'])) by {
                if starts_with(t, seq!['r', 'c']) {
                    lemma_starts_with_chars(t, seq!['r', 'c']);
                    assert(t[0] == 'r');
                }
            }
        }
        Some((SuffixKind::P, 1))
    } else {
        proof {
            if starts_with(t, seq!['a', 'l', 'p', 'h', 'a']) {
                lemma_starts_with_chars(t, seq!['a', 'l', 'p', 'h', 'a']);
                assert(t[0] == 'a' && t[1] == 'l' && t[2] == 'p' && t[3] == 'h' && t[4] == 'a');
                assert(false);
            }
            if starts_with(t, seq!['b', 'e', 't', 'a']) {
                lemma_starts_with_chars(t, seq!['b', 'e', 't', 'a']);
                assert(t[0] == 'b' && t[1] == 'e' && t[2] == 't' && t[3] == 'a');
                assert(false);
            }
            if starts_with(t, seq!['p', 'r', 'e']) {
                lemma_starts_with_chars(t, seq!['p', 'r', 'e']);
                assert(t[0] == 'p' && t[1] == 'r' && t[2] == 'e');
                assert(false);
            }
            if starts_with(t, seq!['r', 'c']) {
                lemma_starts_with_chars(t, seq!['r', 'c']);
                assert(t[0] == 'r' && t[1] == 'c');
                assert(false);
            }
            if starts_with(t, seq!['p']) {
                lemma_starts_with_chars(t, seq!['p']);
                assert(t[0] == 'p');
                assert(false);
            }
            assert(suffix_kind_at(t) is None);
        }
        None
    }
}

/// Parse the optional staged suffix at `i`.
fn parse_suffix_at(s: &str, i: usize) -> (r: Result<(Option<VersionSuffix>, usize), Error>)
    requires
        i <= s@.len(),
    ensures
        r matches Ok(p) ==> i <= p.1 <= s@.len() && parse_suffix(s@.skip(i as int)) == Some(
            (suffix_view(p.0), s@.skip(p.1 as int)),
        ),
        r is Err ==> parse_suffix(s@.skip(i as int)) is None,
        r matches Err(e) ==> e.message@ == "invalid version: "@ + s@,
{
    let n = s.unicode_len();
    let ghost r2 = s@.skip(i as int);
    if i < n && s.get_char(i) == '_' {
        proof {
            assert(r2[0] == '_');
            assert(r2.skip(1) =~= s@.skip(i as int + 1));
        }
        let t0 = i + 1;
        let (kind, klen) = match suffix_kw_at(s, t0) {
            Some(p) => p,
            None => {
                return Err(version_error(s));
            },
        };
        let after_kw = t0 + klen;
        let j3 = scan_digits(s, after_kw);
        let num: Option<String> = if j3 > after_kw {
            Some(String::from_str(s.substring_char(after_kw, j3)))
        } else {
            None
        };
        let suffix = Some(VersionSuffix { kind, num });
        proof {
            let t = s@.skip(t0 as int);
            let u = t.skip(klen as int);
            assert(u =~= s@.skip(after_kw as int));
            assert(digits_at(u) == j3 - after_kw);
            if j3 > after_kw {
                assert(u.take(j3 - after_kw) =~= s@.subrange(after_kw as int, j3 as int));
            }
            assert(u.skip(j3 - after_kw) =~= s@.skip(j3 as int));
            assert(parse_suffix(r2) == Some((suffix_view(suffix), s@.skip(j3 as int))));
        }
        Ok((suffix, j3))
    } else {
        proof {
            if i < n {
                assert(r2[0] == s@[i as int]);
            }
            assert(parse_suffix(r2) == Some((suffix_view(None), r2)));
        }
        Ok((None, i))
    }
}

/// Parse the optional revision at `i`.
fn parse_revision_at(s: &str, i: usize) -> (r: Result<(Option<String>, usize), Error>)
    requires
        i <= s@.len(),
    ensures
        r matches Ok(p) ==> i <= p.1 <= s@.len() && parse_revision(s@.skip(i as int)) == Some(
            (p.0.deep_view(), s@.skip(p.1 as int)),
        ),
        r is Err ==> parse_revision(s@.skip(i as int)) is None,
        r matches Err(e) ==> e.message@ == "invalid version: "@ + s@,
{
    let n = s.unicode_len();
    let ghost r3 = s@.skip(i as int);
    if i < n && s.get_char(i) == '-' {
        proof {
            assert(r3[0] == '-');
            assert(r3.skip(1) =~= s@.skip(i as int + 1));
        }
        if i + 1 < n && s.get_char(i + 1) == 'r' {
            proof {
                assert(s@.skip(i as int + 1)[0] == 'r');
                assert(s@.skip(i as int + 1).skip(1) =~= s@.skip(i as int + 2));
            }
            let j4 = scan_digits(s, i + 2);
            if j4 == i + 2 {
                proof {
                    assert(digits_at(s@.skip(i as int + 2)) == 0);
                    assert(parse_revision(r3) is None);
                }
                return Err(version_error(s));
            }
            let revision = Some(String::from_str(s.substring_char(i + 2, j4)));
            proof {
                let u = s@.skip(i as int + 2);
                assert(u.take(j4 - (i + 2)) =~= s@.subrange(i as int + 2, j4 as int));
                assert(u.skip(j4 - (i + 2)) =~= s@.skip(j4 as int));
                assert(parse_revision(r3) == Some((revision.deep_view(), s@.skip(j4 as int))));
            }
            Ok((revision, j4))
        } else {
            proof {
                if i + 1 < n {
                    assert(s@.skip(i as int + 1)[0] == s@[i as int + 1]);
                }
                assert(parse_revision(r3) is None);
            }
            Err(version_error(s))
        }
    } else {
        proof {
            if i < n {
                assert(r3[0] == s@[i as int]);
            }
            let nothing: Option<String> = None;
            assert(parse_revision(r3) == Some((nothing.deep_view(), r3)));
        }
        Ok((None, i))
    }
}

impl Version {
    /// Parse a version string against the grammar. Succeeds exactly on
    /// conforming strings and yields their structured form; every rejected
    /// string produces an error naming it.
    pub fn parse(s: &str) -> (r: Result<Version, Error>)
        ensures
            r is Ok <==> version_wf(s@),
            r matches Ok(v) ==> version_model(s@) == Some(v@) && v.wf(),
            r matches Err(e) ==> e.message@ == "invalid version: "@ + s@,
    {
        proof {
            lemma_version_model_wf(s@);
        }
        let n = s.unicode_len();
        let (parts, i1) = match parse_parts_at(s) {
            Ok(p) => p,
            Err(e) => {
                return Err(e);
            },
        };
        let (letter, i2) = parse_letter_at(s, i1);
        let (suffix, i3) = match parse_suffix_at(s, i2) {
            Ok(p) => p,
            Err(e) => {
                return Err(e);
            },
        };
        let (revision, i4) = match parse_revision_at(s, i3) {
            Ok(p) => p,
            Err(e) => {
                return Err(e);
            },
        };
        if i4 != n {
            proof {
                assert(s@.skip(i4 as int).len() > 0);
                assert(version_model(s@) is None);
            }
            return Err(version_error(s));
        }
        let v = Version { parts, letter, suffix, revision };
        proof {
            assert(s@.skip(i4 as int).len() == 0);
            assert(version_model(s@) == Some(v@));
        }
        Ok(v)
    }
}

/// The string form of a sequence of release parts, dot-separated.
pub open spec fn render_parts(parts: Seq<Seq<char>>) -> Seq<char>
    decreases parts.len(),
{
    if parts.len() == 0 {
        Seq::empty()
    } else if parts.len() == 1 {
        parts[0]
    } else {
        parts[0] + seq!['.'] + render_parts(parts.skip(1))
    }
}

/// The string form of the optional trailing letter.
pub open spec fn render_letter(l: Option<char>) -> Seq<char> {
    match l {
        Option::Some(c) => seq![c],
        Option::None => Seq::empty(),
    }
}

/// The keyword of a suffix kind.
pub open spec fn kind_seq(k: SuffixKind) -> Seq<char> {
    match k {
        SuffixKind::Alpha => seq!['a', 'l', 'p', 'h', 'a'],
        SuffixKind::Beta => seq!['b', 'e', 't', 'a'],
        SuffixKind::Pre => seq!['p', 'r', 'e'],
        SuffixKind::Rc => seq!['r', 'c'],
        SuffixKind::P => seq!['p'],
    }
}

/// The string form of the optional staged suffix.
pub open spec fn render_suffix(s: Option<SuffixView>) -> Seq<char> {
    match s {
        Option::None => Seq::empty(),
        Option::Some(sv) => seq!['_'] + kind_seq(sv.kind) + (match sv.num {
            Option::Some(nm) => nm,
            Option::None => Seq::empty(),
        }),
    }
}

/// The string form of the optional revision.
pub open spec fn render_revision(r: Option<Seq<char>>) -> Seq<char> {
    match r {
        Option::None => Seq::empty(),
        Option::Some(rv) => seq!['-', 'r'] + rv,
    }
}

/// The string form of a structured version.
pub open spec fn render_version(v: VersionView) -> Seq<char> {
    render_parts(v.parts) + render_letter(v.letter) + render_suffix(v.suffix) + render_revision(
        v.revision,
    )
}

/// The release parts render back to exactly what their parse consumed.
proof fn lemma_parse_parts_render(s: Seq<char>)
    ensures
        parse_parts(s) matches Some(p) ==> render_parts(p.0) + p.1 == s,
    decreases s.len(),
{
    lemma_run_len_bound(s, digit_pred());
    let d = digits_at(s);
    if d >= 1 {
        let part = s.take(d);
        let rest = s.skip(d);
        if rest.len() > 0 && rest[0] == '.' {
            lemma_parse_parts_render(rest.skip(1));
            lemma_parse_parts_wf(rest.skip(1));
            match parse_parts(rest.skip(1)) {
                Some((ps, r2)) => {
                    let whole = seq![part] + ps;
                    assert(whole.len() >= 2);
                    assert(whole[0] == part);
                    assert(whole.skip(1) =~= ps);
                    assert(render_parts(whole) == part + seq!['.'] + render_parts(ps));
                    assert(rest =~= seq!['.'] + rest.skip(1));
                    assert((part + seq!['.'] + render_parts(ps)) + r2 =~= part + (seq!['.'] + (
                    render_parts(ps) + r2)));
                    assert(part + (seq!['.'] + rest.skip(1)) =~= s);
                },
                None => {},
            }
        } else {
            assert(seq![part].len() == 1);
            assert(seq![part][0] == part);
            assert(render_parts(seq![part]) == part);
            assert(part + rest =~= s);
        }
    }
}

/// The matched suffix keyword is the keyword of the matched kind.
proof fn lemma_kind_at_render(t: Seq<char>)
    ensures
        suffix_kind_at(t) matches Some(k) ==> k.1 == kind_seq(k.0).len() && t.take(k.1) == kind_seq(
            k.0,
        ),
{
}

/// The suffix renders back to exactly what its parse consumed.
proof fn lemma_parse_suffix_render(s: Seq<char>)
    ensures
        parse_suffix(s) matches Some(p) ==> render_suffix(p.0) + p.1 == s,
{
    if s.len() > 0 && s[0] == '_' {
        let t = s.skip(1);
        lemma_kind_at_render(t);
        match suffix_kind_at(t) {
            None => {},
            Some((kind, klen)) => {
                let u = t.skip(klen);
                let d = digits_at(u);
                lemma_run_len_bound(u, digit_pred());
                let num_seq = if d > 0 {
                    u.take(d)
                } else {
                    Seq::<char>::empty()
                };
                assert(u =~= num_seq + u.skip(d));
                assert(t =~= t.take(klen) + u);
                assert(s =~= seq!['_'] + t);
                assert((seq!['_'] + kind_seq(kind) + num_seq) + u.skip(d) =~= s);
            },
        }
    } else {
        assert(render_suffix(None) + s =~= s);
    }
}

/// The revision renders back to exactly what its parse consumed.
proof fn lemma_parse_revision_render(s: Seq<char>)
    ensures
        parse_revision(s) matches Some(p) ==> render_revision(p.0) + p.1 == s,
{
    if s.len() > 0 && s[0] == '-' {
        let t = s.skip(1);
        if t.len() > 0 && t[0] == 'r' {
            let u = t.skip(1);
            let d = digits_at(u);
            lemma_run_len_bound(u, digit_pred());
            if d > 0 {
                assert(u =~= u.take(d) + u.skip(d));
                assert(t =~= seq!['r'] + u);
                assert(s =~= seq!['-'] + t);
                assert((seq!['-', 'r'] + u.take(d)) + u.skip(d) =~= s);
            }
        }
    } else {
        let nothing: Option<Seq<char>> = None;
        assert(render_revision(nothing) + s =~= s);
    }
}

/// A parsed version renders back to exactly the input string: the strict
/// parser keeps every character of a conforming string.
pub proof fn lemma_render_round_trip(s: Seq<char>)
    ensures
        version_model(s) matches Some(v) ==> render_version(v) == s,
{
    lemma_parse_parts_render(s);
    match parse_parts(s) {
        None => {},
        Some((parts, r1)) => {
            let (letter, r2) = parse_letter(r1);
            assert(render_letter(letter) + r2 =~= r1);
            lemma_parse_suffix_render(r2);
            match parse_suffix(r2) {
                None => {},
                Some((suffix, r3)) => {
                    lemma_parse_revision_render(r3);
                    match parse_revision(r3) {
                        None => {},
                        Some((revision, r4)) => {
                            if r4.len() == 0 {
                                assert(render_revision(revision) + r4 =~= render_revision(
                                    revision,
                                ));
                                assert(r3 =~= render_revision(revision));
                                assert(r2 =~= render_suffix(suffix) + render_revision(revision));
                                assert(r1 =~= render_letter(letter) + (render_suffix(suffix)
                                    + render_revision(revision)));
                                assert(s =~= render_parts(parts) + (render_letter(letter) + (
                                render_suffix(suffix) + render_revision(revision))));
                                assert(render_version(version_model(s).unwrap()) =~= s);
                            }
                        },
                    }
                },
            }
        },
    }
}

/// The one-character string of a lowercase letter.
fn lower_str(c: char) -> (r: &'static str)
    requires
        is_lower(c),
    ensures
        r@ == seq![c],
{
    if c == 'a' {
        proof {
            reveal_strlit("a");
            assert("a"@ =~= seq!['a']);
        }
        "a"
    } else if c == 'b' {
        proof {
            reveal_strlit("b");
            assert("b"@ =~= seq!['b']);
        }
        "b"
    } else if c == 'c' {
        proof {
            reveal_strlit("c");
            assert("c"@ =~= seq!['c']);
        }
        "c"
    } else if c == 'd' {
        proof {
            reveal_strlit("d");
            assert("d"@ =~= seq!['d']);
        }
        "d"
    } else if c == 'e' {
        proof {
            reveal_strlit("e");
            assert("e"@ =~= seq!['e']);
        }
        "e"
    } else if c == 'f' {
        proof {
            reveal_strlit("f");
            assert("f"@ =~= seq!['f']);
        }
        "f"
    } else if c == 'g' {
        proof {
            reveal_strlit("g");
            assert("g"@ =~= seq!['g']);
        }
        "g"
    } else if c == 'h' {
        proof {
            reveal_strlit("h");
            assert("h"@ =~= seq!['h']);
        }
        "h"
    } else if c == 'i' {
        proof {
            reveal_strlit("i");
            assert("i"@ =~= seq!['i']);
        }
        "i"
    } else if c == 'j' {
        proof {
            reveal_strlit("j");
            assert("j"@ =~= seq!['j']);
        }
        "j"
    } else if c == 'k' {
        proof {
            reveal_strlit("k");
            assert("k"@ =~= seq!['k']);
        }
        "k"
    } else if c == 'l' {
        proof {
            reveal_strlit("l");
            assert("l"@ =~= seq!['l']);
        }
        "l"
    } else if c == 'm' {
        proof {
            reveal_strlit("m");
            assert("m"@ =~= seq!['m']);
        }
        "m"
    } else if c == 'n' {
        proof {
            reveal_strlit("n");
            assert("n"@ =~= seq!['n']);
        }
        "n"
    } else if c == 'o' {
        proof {
            reveal_strlit("o");
            assert("o"@ =~= seq!['o']);
        }
        "o"
    } else if c == 'p' {
        proof {
            reveal_strlit("p");
            assert("p"@ =~= seq!['p']);
        }
        "p"
    } else if c == 'q' {
        proof {
            reveal_strlit("q");
            assert("q"@ =~= seq!['q']);
        }
        "q"
    } else if c == 'r' {
        proof {
            reveal_strlit("r");
            assert("r"@ =~= seq!['r']);
        }
        "r"
    } else if c == 's' {
        proof {
            reveal_strlit("s");
            assert("s"@ =~= seq!['s']);
        }
        "s"
    } else if c == 't' {
        proof {
            reveal_strlit("t");
            assert("t"@ =~= seq!['t']);
        }
        "t"
    } else if c == 'u' {
        proof {
            reveal_strlit("u");
            assert("u"@ =~= seq!['u']);
        }
        "u"
    } else if c == 'v' {
        proof {
            reveal_strlit("v");
            assert("v"@ =~= seq!['v']);
        }
        "v"
    } else if c == 'w' {
        proof {
            reveal_strlit("w");
            assert("w"@ =~= seq!['w']);
        }
        "w"
    } else if c == 'x' {
        proof {
            reveal_strlit("x");
            assert("x"@ =~= seq!['x']);
        }
        "x"
    } else if c == 'y' {
        proof {
            reveal_strlit("y");
            assert("y"@ =~= seq!['y']);
        }
        "y"
    } else {
        proof {
            reveal_strlit("z");
            assert("z"@ =~= seq!['z']);
        }
        "z"
    }
}

/// Appending one more part appends a dot and the part.
proof fn lemma_render_parts_snoc(ps: Seq<Seq<char>>, k: int)
    requires
        1 <= k < ps.len(),
    ensures
        render_parts(ps.take(k + 1)) == render_parts(ps.take(k)) + seq!['.'] + ps[k],
    decreases k,
{
    if k == 1 {
        let two = ps.take(2);
        assert(two.len() == 2);
        assert(two[0] == ps[0]);
        assert(two.skip(1) =~= seq![ps[1]]);
        assert(render_parts(seq![ps[1]]) == ps[1]);
        assert(ps.take(1) =~= seq![ps[0]]);
        assert(render_parts(ps.take(1)) == ps[0]);
        assert(ps[0] + seq!['.'] + ps[1] =~= render_parts(ps.take(1)) + seq!['.'] + ps[1]);
    } else {
        let tail = ps.skip(1);
        lemma_render_parts_snoc(tail, k - 1);
        assert(ps.take(k + 1).len() == k + 1);
        assert(ps.take(k + 1)[0] == ps[0]);
        assert(ps.take(k + 1).skip(1) =~= tail.take(k));
        assert(render_parts(ps.take(k + 1)) == ps[0] + seq!['.'] + render_parts(tail.take(k)));
        assert(ps.take(k).len() == k);
        assert(ps.take(k)[0] == ps[0]);
        assert(ps.take(k).skip(1) =~= tail.take(k - 1));
        assert(render_parts(ps.take(k)) == ps[0] + seq!['.'] + render_parts(tail.take(k - 1)));
        assert(tail[k - 1] == ps[k]);
        assert(ps[0] + seq!['.'] + (render_parts(tail.take(k - 1)) + seq!['.'] + tail[k - 1]) =~= (
        ps[0] + seq!['.'] + render_parts(tail.take(k - 1))) + seq!['.'] + ps[k]);
    }
}

impl Version {
    /// The string form of this version. Rendering a parsed version yields
    /// the exact string it was parsed from; see [`lemma_render_round_trip`].
    pub fn render(&self) -> (r: String)
        requires
            self.wf(),
        ensures
            r@ == render_version(self@),
    {
        let mut out = String::new();
        let np = self.parts.len();
        let mut i: usize = 0;
        proof {
            assert(self@.parts.take(0) =~= Seq::<Seq<char>>::empty());
        }
        while i < np
            invariant
                i <= np,
                np == self.parts@.len(),
                self.wf(),
                out@ == render_parts(self@.parts.take(i as int)),
            decreases np - i,
        {
            proof {
                assert(self@.parts[i as int] == self.parts@[i as int]@);
            }
            if i > 0 {
                out.append(".");
                out.append(self.parts[i].as_str());
                proof {
                    reveal_strlit(".");
                    assert("."@ =~= seq!['.']);
                    lemma_render_parts_snoc(self@.parts, i as int);
                }
            } else {
                out.append(self.parts[i].as_str());
                proof {
                    assert(self@.parts.take(1) =~= seq![self@.parts[0]]);
                    assert(render_parts(seq![self@.parts[0]]) == self@.parts[0]);
                }
            }
            i = i + 1;
        }
        proof {
            assert(self@.parts.take(np as int) =~= self@.parts);
        }
        match self.letter {
            Some(c) => {
                out.append(lower_str(c));
            },
            None => {
                proof {
                    assert(out@ + render_letter(self@.letter) =~= out@);
                }
            },
        }
        let ghost done_letter = render_parts(self@.parts) + render_letter(self@.letter);
        proof {
            assert(out@ =~= done_letter);
        }
        match &self.suffix {
            Some(sv) => {
                match sv.kind {
                    SuffixKind::Alpha => {
                        out.append("_alpha");
                        proof {
                            reveal_strlit("_alpha");
                            assert("_alpha"@ =~= seq!['_'] + kind_seq(SuffixKind::Alpha));
                        }
                    },
                    SuffixKind::Beta => {
                        out.append("_beta");
                        proof {
                            reveal_strlit("_beta");
                            assert("_beta"@ =~= seq!['_'] + kind_seq(SuffixKind::Beta));
                        }
                    },
                    SuffixKind::Pre => {
                        out.append("_pre");
                        proof {
                            reveal_strlit("_pre");
                            assert("_pre"@ =~= seq!['_'] + kind_seq(SuffixKind::Pre));
                        }
                    },
                    SuffixKind::Rc => {
                        out.append("_rc");
                        proof {
                            reveal_strlit("_rc");
                            assert("_rc"@ =~= seq!['_'] + kind_seq(SuffixKind::Rc));
                        }
                    },
                    SuffixKind::P => {
                        out.append("_p");
                        proof {
                            reveal_strlit("_p");
                            assert("_p"@ =~= seq!['_'] + kind_seq(SuffixKind::P));
                        }
                    },
                }
                match &sv.num {
                    Some(nm) => {
                        out.append(nm.as_str());
                    },
                    None => {},
                }
                proof {
                    assert(out@ =~= done_letter + render_suffix(self@.suffix));
                }
            },
            None => {
                proof {
                    assert(out@ =~= done_letter + render_suffix(self@.suffix));
                }
            },
        }
        let ghost done_suffix = done_letter + render_suffix(self@.suffix);
        match &self.revision {
            Some(rv) => {
                out.append("-r");
                out.append(rv.as_str());
                proof {
                    reveal_strlit("-r");
                    assert("-r"@ =~= seq!['-', 'r']);
                    assert(out@ =~= done_suffix + render_revision(self@.revision));
                }
            },
            None => {
                proof {
                    assert(out@ =~= done_suffix + render_revision(self@.revision));
                }
            },
        }
        proof {
            assert(out@ =~= render_version(self@));
        }
        out
    }
}

} // verus!
