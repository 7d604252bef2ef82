//! The total comparison order on versions.
//!
//! Release parts are compared position by position; a part with a leading
//! zero forces a lexicographic comparison of both parts with their trailing
//! zeros dropped, anything else compares by numeric value. Parts beyond the
//! shorter list are ignored, so `1.0.0` and `1.0` compare as equal. Then the
//! trailing letter decides (absent sorts lowest), then the staged suffix
//! (`alpha < beta < pre < rc < (no suffix) < p`, with a suffix number that is
//! absent sorting below any explicit one), and last the revision, whose
//! absence means zero.

use core::cmp::Ordering;
use vstd::prelude::*;

use crate::error::Error;
use crate::tokens::{lemma_run_len_is, run_len};
use crate::version::{
    suffix_view, version_model, version_wf, SuffixKind, SuffixView, Version, VersionSuffix,
    VersionView,
};

verus! {

/// The opposite order.
pub open spec fn flip(o: Ordering) -> Ordering {
    match o {
        Ordering::Less => Ordering::Greater,
        Ordering::Greater => Ordering::Less,
        Ordering::Equal => Ordering::Equal,
    }
}

/// Plain lexicographic order on character sequences; a proper prefix sorts
/// below its extensions.
pub open spec fn lex_cmp(a: Seq<char>, b: Seq<char>) -> Ordering
    decreases a.len(),
{
    if a.len() == 0 && b.len() == 0 {
        Ordering::Equal
    } else if a.len() == 0 {
        Ordering::Less
    } else if b.len() == 0 {
        Ordering::Greater
    } else if a[0] < b[0] {
        Ordering::Less
    } else if b[0] < a[0] {
        Ordering::Greater
    } else {
        lex_cmp(a.skip(1), b.skip(1))
    }
}

/// The zero-digit predicate, as a function value.
pub open spec fn zero_pred() -> spec_fn(char) -> bool {
    |c: char| c == '0'
}

/// `s` without its leading zeros.
pub open spec fn strip_zeros(s: Seq<char>) -> Seq<char> {
    s.skip(run_len(s, zero_pred()) as int)
}

/// Numeric order of two digit strings of any length: leading zeros dropped,
/// then by length, then lexicographically.
pub open spec fn num_cmp(a: Seq<char>, b: Seq<char>) -> Ordering {
    let x = strip_zeros(a);
    let y = strip_zeros(b);
    if x.len() < y.len() {
        Ordering::Less
    } else if y.len() < x.len() {
        Ordering::Greater
    } else {
        lex_cmp(x, y)
    }
}

/// `s` without its trailing zeros.
pub open spec fn trim_zeros(s: Seq<char>) -> Seq<char>
    decreases s.len(),
{
    if s.len() > 0 && s.last() == '0' {
        trim_zeros(s.drop_last())
    } else {
        s
    }
}

/// Order of two release parts: a leading zero on either side forces the
/// string comparison with trailing zeros dropped, preserving distinctions
/// such as `1.010` versus `1.02`.
pub open spec fn part_cmp(a: Seq<char>, b: Seq<char>) -> Ordering {
    if (a.len() > 0 && a[0] == '0') || (b.len() > 0 && b[0] == '0') {
        lex_cmp(trim_zeros(a), trim_zeros(b))
    } else {
        num_cmp(a, b)
    }
}

/// Order of two release-part lists: position by position, parts beyond the
/// shorter list ignored.
pub open spec fn parts_cmp(a: Seq<Seq<char>>, b: Seq<Seq<char>>) -> Ordering
    decreases a.len(),
{
    if a.len() == 0 || b.len() == 0 {
        Ordering::Equal
    } else {
        match part_cmp(a[0], b[0]) {
            Ordering::Equal => parts_cmp(a.skip(1), b.skip(1)),
            c => c,
        }
    }
}

/// Order of the optional trailing letters: absent sorts lowest.
pub open spec fn letter_cmp(a: Option<char>, b: Option<char>) -> Ordering {
    match (a, b) {
        (Option::None, Option::None) => Ordering::Equal,
        (Option::None, Option::Some(_)) => Ordering::Less,
        (Option::Some(_), Option::None) => Ordering::Greater,
        (Option::Some(x), Option::Some(y)) => if x < y {
            Ordering::Less
        } else if y < x {
            Ordering::Greater
        } else {
            Ordering::Equal
        },
    }
}

/// Rank of a suffix kind within `alpha < beta < pre < rc < (none) < p`.
pub open spec fn suffix_rank(s: Option<SuffixView>) -> int {
    match s {
        Option::None => 4,
        Option::Some(sv) => match sv.kind {
            SuffixKind::Alpha => 0,
            SuffixKind::Beta => 1,
            SuffixKind::Pre => 2,
            SuffixKind::Rc => 3,
            SuffixKind::P => 5,
        },
    }
}

/// Order of two suffix numbers: absent sorts below any explicit value.
pub open spec fn sufnum_cmp(a: Option<Seq<char>>, b: Option<Seq<char>>) -> Ordering {
    match (a, b) {
        (Option::None, Option::None) => Ordering::Equal,
        (Option::None, Option::Some(_)) => Ordering::Less,
        (Option::Some(_), Option::None) => Ordering::Greater,
        (Option::Some(x), Option::Some(y)) => num_cmp(x, y),
    }
}

/// Order of the optional staged suffixes.
pub open spec fn suffix_cmp(a: Option<SuffixView>, b: Option<SuffixView>) -> Ordering {
    if suffix_rank(a) < suffix_rank(b) {
        Ordering::Less
    } else if suffix_rank(b) < suffix_rank(a) {
        Ordering::Greater
    } else {
        match (a, b) {
            (Option::Some(x), Option::Some(y)) => sufnum_cmp(x.num, y.num),
            _ => Ordering::Equal,
        }
    }
}

/// The revision digits, absent meaning zero.
pub open spec fn revision_seq(r: Option<Seq<char>>) -> Seq<char> {
    match r {
        Option::Some(s) => s,
        Option::None => seq!['0'],
    }
}

/// Order of the optional revisions, numerically, absent meaning zero.
pub open spec fn revision_cmp(a: Option<Seq<char>>, b: Option<Seq<char>>) -> Ordering {
    num_cmp(revision_seq(a), revision_seq(b))
}

/// The total order on versions: release parts, then letter, then staged
/// suffix, then revision; the first criterion that differs decides.
pub open spec fn version_cmp(a: VersionView, b: VersionView) -> Ordering {
    match parts_cmp(a.parts, b.parts) {
        Ordering::Equal => match letter_cmp(a.letter, b.letter) {
            Ordering::Equal => match suffix_cmp(a.suffix, b.suffix) {
                Ordering::Equal => revision_cmp(a.revision, b.revision),
                c => c,
            },
            c => c,
        },
        c => c,
    }
}

/// Two sequences are lexicographically equal exactly when they are the same.
proof fn lemma_lex_eq(a: Seq<char>, b: Seq<char>)
    ensures
        (lex_cmp(a, b) == Ordering::Equal) <==> a == b,
    decreases a.len(),
{
    if a.len() > 0 && b.len() > 0 && !(a[0] < b[0]) && !(b[0] < a[0]) {
        lemma_lex_eq(a.skip(1), b.skip(1));
        assert(a[0] == b[0]);
        if lex_cmp(a, b) == Ordering::Equal {
            assert(a.skip(1) == b.skip(1));
            assert forall|i: int| 0 <= i < a.len() implies a[i] == b[i] by {
                if i > 0 {
                    assert(a.skip(1)[i - 1] == a[i]);
                    assert(b.skip(1)[i - 1] == b[i]);
                }
            }
            assert(a =~= b);
        }
        if a == b {
            assert(a.skip(1) =~= b.skip(1));
        }
    } else {
        if a.len() == 0 && b.len() == 0 {
            assert(a =~= b);
        }
    }
}

/// String equality by characters.
pub(crate) fn str_eq(a: &str, b: &str) -> (r: bool)
    ensures
        r == (a@ == b@),
{
    proof {
        lemma_lex_eq(a@, b@);
    }
    match lex_cmp_str(a, b) {
        Ordering::Equal => true,
        _ => false,
    }
}

/// Lexicographic comparison of two strings.
pub(crate) fn lex_cmp_str(a: &str, b: &str) -> (r: Ordering)
    ensures
        r == lex_cmp(a@, b@),
{
    let na = a.unicode_len();
    let nb = b.unicode_len();
    let mut k: usize = 0;
    proof {
        assert(a@.skip(0) =~= a@);
        assert(b@.skip(0) =~= b@);
    }
    while k < na && k < nb
        invariant
            k <= na,
            k <= nb,
            na == a@.len(),
            nb == b@.len(),
            lex_cmp(a@, b@) == lex_cmp(a@.skip(k as int), b@.skip(k as int)),
        decreases na - k,
    {
        let ca = a.get_char(k);
        let cb = b.get_char(k);
        proof {
            assert(a@.skip(k as int)[0] == ca);
            assert(b@.skip(k as int)[0] == cb);
            assert(a@.skip(k as int).skip(1) =~= a@.skip(k as int + 1));
            assert(b@.skip(k as int).skip(1) =~= b@.skip(k as int + 1));
        }
        if ca < cb {
            return Ordering::Less;
        }
        if cb < ca {
            return Ordering::Greater;
        }
        k = k + 1;
    }
    if k < nb {
        return Ordering::Less;
    }
    if k < na {
        return Ordering::Greater;
    }
    Ordering::Equal
}

/// Index just past the zero run beginning at `from`.
fn scan_zeros(s: &str, from: usize) -> (j: usize)
    requires
        from <= s@.len(),
    ensures
        from <= j <= s@.len(),
        j - from == run_len(s@.skip(from as int), zero_pred()),
{
    let n = s.unicode_len();
    let mut i = from;
    while i < n && s.get_char(i) == '0'
        invariant
            n == s@.len(),
            from <= i <= n,
            forall|k: int| from <= k < i ==> s@[k] == '0',
        decreases n - i,
    {
        i = i + 1;
    }
    proof {
        let suf = s@.skip(from as int);
        assert forall|j: int| 0 <= j < i - from implies zero_pred()(suf[j]) by {
            assert(suf[j] == s@[from + j]);
        }
        if i - from < suf.len() {
            assert(suf[i - from] == s@[i as int]);
        }
        lemma_run_len_is(suf, zero_pred(), i - from);
    }
    i
}

/// Numeric comparison of two digit strings.
fn num_cmp_str(a: &str, b: &str) -> (r: Ordering)
    ensures
        r == num_cmp(a@, b@),
{
    let na = a.unicode_len();
    let nb = b.unicode_len();
    let za = scan_zeros(a, 0);
    let zb = scan_zeros(b, 0);
    proof {
        assert(a@.skip(0) =~= a@);
        assert(b@.skip(0) =~= b@);
    }
    let x = a.substring_char(za, na);
    let y = b.substring_char(zb, nb);
    proof {
        assert(x@ =~= strip_zeros(a@));
        assert(y@ =~= strip_zeros(b@));
    }
    let lx = x.unicode_len();
    let ly = y.unicode_len();
    if lx < ly {
        Ordering::Less
    } else if ly < lx {
        Ordering::Greater
    } else {
        lex_cmp_str(x, y)
    }
}

/// Trailing zeros dropped: where they end.
proof fn lemma_trim_is(s: Seq<char>, k: int)
    requires
        0 <= k <= s.len(),
        forall|j: int| k <= j < s.len() ==> s[j] == '0',
        k > 0 ==> s[k - 1] != '0',
    ensures
        trim_zeros(s) == s.take(k),
    decreases s.len(),
{
    if s.len() == k {
        if k > 0 {
            assert(s.last() == s[k - 1]);
        }
        assert(s.take(k) =~= s);
    } else {
        assert(s.last() == '0');
        let t = s.drop_last();
        assert forall|j: int| k <= j < t.len() implies t[j] == '0' by {
            assert(t[j] == s[j]);
        }
        if k > 0 {
            assert(t[k - 1] == s[k - 1]);
        }
        lemma_trim_is(t, k);
        assert(t.take(k) =~= s.take(k));
    }
}

/// Length of `s` once its trailing zeros are dropped.
fn trim_len(s: &str) -> (k: usize)
    ensures
        k <= s@.len(),
        trim_zeros(s@) == s@.take(k as int),
{
    let n = s.unicode_len();
    let mut k = n;
    while k > 0 && s.get_char(k - 1) == '0'
        invariant
            k <= n,
            n == s@.len(),
            forall|j: int| k <= j < n ==> s@[j] == '0',
        decreases k,
    {
        k = k - 1;
    }
    proof {
        lemma_trim_is(s@, k as int);
    }
    k
}

/// Comparison of two release parts.
fn part_cmp_str(a: &str, b: &str) -> (r: Ordering)
    ensures
        r == part_cmp(a@, b@),
{
    let na = a.unicode_len();
    let nb = b.unicode_len();
    let a0 = na > 0 && a.get_char(0) == '0';
    let b0 = nb > 0 && b.get_char(0) == '0';
    if a0 || b0 {
        let ka = trim_len(a);
        let kb = trim_len(b);
        let r = lex_cmp_str(a.substring_char(0, ka), b.substring_char(0, kb));
        proof {
            assert(a@.subrange(0, ka as int) =~= a@.take(ka as int));
            assert(b@.subrange(0, kb as int) =~= b@.take(kb as int));
        }
        r
    } else {
        num_cmp_str(a, b)
    }
}

/// Comparison of two release-part lists.
fn parts_cmp_vec(a: &Vec<String>, b: &Vec<String>) -> (r: Ordering)
    ensures
        r == parts_cmp(a.deep_view(), b.deep_view()),
{
    let mut k: usize = 0;
    proof {
        assert(a.deep_view().skip(0) =~= a.deep_view());
        assert(b.deep_view().skip(0) =~= b.deep_view());
    }
    while k < a.len() && k < b.len()
        invariant
            k <= a@.len(),
            k <= b@.len(),
            a.deep_view().len() == a@.len(),
            b.deep_view().len() == b@.len(),
            parts_cmp(a.deep_view(), b.deep_view()) == parts_cmp(
                a.deep_view().skip(k as int),
                b.deep_view().skip(k as int),
            ),
        decreases a@.len() - k,
    {
        let c = part_cmp_str(a[k].as_str(), b[k].as_str());
        proof {
            assert(a.deep_view().skip(k as int)[0] == a@[k as int]@);
            assert(b.deep_view().skip(k as int)[0] == b@[k as int]@);
            assert(a.deep_view().skip(k as int).skip(1) =~= a.deep_view().skip(k as int + 1));
            assert(b.deep_view().skip(k as int).skip(1) =~= b.deep_view().skip(k as int + 1));
        }
        match c {
            Ordering::Equal => {},
            _ => {
                return c;
            },
        }
        k = k + 1;
    }
    Ordering::Equal
}

/// Comparison of the optional trailing letters.
fn letter_cmp_exec(a: Option<char>, b: Option<char>) -> (r: Ordering)
    ensures
        r == letter_cmp(a, b),
{
    match (a, b) {
        (Option::None, Option::None) => Ordering::Equal,
        (Option::None, Option::Some(_)) => Ordering::Less,
        (Option::Some(_), Option::None) => Ordering::Greater,
        (Option::Some(x), Option::Some(y)) => if x < y {
            Ordering::Less
        } else if y < x {
            Ordering::Greater
        } else {
            Ordering::Equal
        },
    }
}

/// Rank of a suffix kind.
fn suffix_rank_exec(s: &Option<VersionSuffix>) -> (r: u8)
    ensures
        r as int == suffix_rank(suffix_view(*s)),
{
    match s {
        Option::None => 4,
        Option::Some(v) => match v.kind {
            SuffixKind::Alpha => 0,
            SuffixKind::Beta => 1,
            SuffixKind::Pre => 2,
            SuffixKind::Rc => 3,
            SuffixKind::P => 5,
        },
    }
}

/// Comparison of the optional suffix numbers.
fn sufnum_cmp_exec(a: &Option<String>, b: &Option<String>) -> (r: Ordering)
    ensures
        r == sufnum_cmp(a.deep_view(), b.deep_view()),
{
    match (a, b) {
        (Option::None, Option::None) => Ordering::Equal,
        (Option::None, Option::Some(_)) => Ordering::Less,
        (Option::Some(_), Option::None) => Ordering::Greater,
        (Option::Some(x), Option::Some(y)) => num_cmp_str(x.as_str(), y.as_str()),
    }
}

/// Comparison of the optional staged suffixes.
fn suffix_cmp_exec(a: &Option<VersionSuffix>, b: &Option<VersionSuffix>) -> (r: Ordering)
    ensures
        r == suffix_cmp(suffix_view(*a), suffix_view(*b)),
{
    let ra = suffix_rank_exec(a);
    let rb = suffix_rank_exec(b);
    if ra < rb {
        Ordering::Less
    } else if rb < ra {
        Ordering::Greater
    } else {
        match (a, b) {
            (Option::Some(x), Option::Some(y)) => sufnum_cmp_exec(&x.num, &y.num),
            _ => Ordering::Equal,
        }
    }
}

/// Comparison of the optional revisions.
fn revision_cmp_exec(a: &Option<String>, b: &Option<String>) -> (r: Ordering)
    ensures
        r == revision_cmp(a.deep_view(), b.deep_view()),
{
    proof {
        reveal_strlit("0");
        assert("0"@ =~= seq!['0']);
    }
    let x = match a {
        Option::Some(s) => s.as_str(),
        Option::None => "0",
    };
    let y = match b {
        Option::Some(s) => s.as_str(),
        Option::None => "0",
    };
    num_cmp_str(x, y)
}

impl Version {
    /// The revision digits of this version, `"0"` when it has none.
    pub fn revision_str(&self) -> (r: &str)
        ensures
            r@ == revision_seq(self@.revision),
    {
        match &self.revision {
            Option::Some(s) => s.as_str(),
            Option::None => {
                proof {
                    reveal_strlit("0");
                    assert("0"@ =~= seq!['0']);
                }
                "0"
            },
        }
    }

    /// Compare two structured versions under the total order.
    pub fn compare(&self, other: &Version) -> (r: Ordering)
        ensures
            r == version_cmp(self@, other@),
    {
        match parts_cmp_vec(&self.parts, &other.parts) {
            Ordering::Equal => match letter_cmp_exec(self.letter, other.letter) {
                Ordering::Equal => match suffix_cmp_exec(&self.suffix, &other.suffix) {
                    Ordering::Equal => revision_cmp_exec(&self.revision, &other.revision),
                    c => c,
                },
                c => c,
            },
            c => c,
        }
    }
}

/// Compare two version strings under the total order. Both must conform to
/// the version grammar; the first that does not names itself in the error.
pub fn compare(a: &str, b: &str) -> (r: Result<Ordering, Error>)
    ensures
        r is Ok <==> version_wf(a@) && version_wf(b@),
        r matches Ok(o) ==> (version_model(a@) matches Some(va) && version_model(b@) matches Some(
            vb,
        ) && o == version_cmp(va, vb)),
        match r {
            Result::Err(e) => if !version_wf(a@) {
                e.message@ == "invalid version: "@ + a@
            } else {
                e.message@ == "invalid version: "@ + b@
            },
            Result::Ok(_) => true,
        },
{
    let va = match Version::parse(a) {
        Ok(v) => v,
        Err(e) => {
            return Err(e);
        },
    };
    let vb = match Version::parse(b) {
        Ok(v) => v,
        Err(e) => {
            return Err(e);
        },
    };
    Ok(va.compare(&vb))
}

/// Lexicographic order is reflexive.
proof fn lemma_lex_refl(x: Seq<char>)
    ensures
        lex_cmp(x, x) == Ordering::Equal,
    decreases x.len(),
{
    if x.len() > 0 {
        lemma_lex_refl(x.skip(1));
    }
}

/// Numeric order is reflexive.
proof fn lemma_num_refl(x: Seq<char>)
    ensures
        num_cmp(x, x) == Ordering::Equal,
{
    lemma_lex_refl(strip_zeros(x));
}

/// Release-part order is reflexive.
proof fn lemma_part_refl(x: Seq<char>)
    ensures
        part_cmp(x, x) == Ordering::Equal,
{
    lemma_lex_refl(trim_zeros(x));
    lemma_num_refl(x);
}

/// Release-list order is reflexive.
proof fn lemma_parts_refl(a: Seq<Seq<char>>)
    ensures
        parts_cmp(a, a) == Ordering::Equal,
    decreases a.len(),
{
    if a.len() > 0 {
        lemma_part_refl(a[0]);
        lemma_parts_refl(a.skip(1));
    }
}

/// The order is consistent with equality: a version compares as equal to
/// itself.
pub proof fn lemma_version_cmp_reflexive(v: VersionView)
    ensures
        version_cmp(v, v) == Ordering::Equal,
{
    lemma_parts_refl(v.parts);
    match v.suffix {
        Option::Some(sv) => match sv.num {
            Option::Some(nm) => lemma_num_refl(nm),
            Option::None => {},
        },
        Option::None => {},
    }
    lemma_num_refl(revision_seq(v.revision));
}

/// Swapping the operands of the lexicographic order flips it.
proof fn lemma_lex_flip(a: Seq<char>, b: Seq<char>)
    ensures
        lex_cmp(b, a) == flip(lex_cmp(a, b)),
    decreases a.len(),
{
    if a.len() > 0 && b.len() > 0 && !(a[0] < b[0]) && !(b[0] < a[0]) {
        lemma_lex_flip(a.skip(1), b.skip(1));
    }
}

/// Swapping the operands of the numeric order flips it.
proof fn lemma_num_flip(a: Seq<char>, b: Seq<char>)
    ensures
        num_cmp(b, a) == flip(num_cmp(a, b)),
{
    lemma_lex_flip(strip_zeros(a), strip_zeros(b));
}

/// Swapping the operands of the release-part order flips it.
proof fn lemma_part_flip(a: Seq<char>, b: Seq<char>)
    ensures
        part_cmp(b, a) == flip(part_cmp(a, b)),
{
    lemma_lex_flip(trim_zeros(a), trim_zeros(b));
    lemma_num_flip(a, b);
}

/// Swapping the operands of the release-list order flips it.
proof fn lemma_parts_flip(a: Seq<Seq<char>>, b: Seq<Seq<char>>)
    ensures
        parts_cmp(b, a) == flip(parts_cmp(a, b)),
    decreases a.len(),
{
    if a.len() > 0 && b.len() > 0 {
        lemma_part_flip(a[0], b[0]);
        lemma_parts_flip(a.skip(1), b.skip(1));
    }
}

/// Antisymmetry: swapping the operands flips the order, so no two versions
/// are incomparable or ordered both ways.
pub proof fn lemma_version_cmp_antisymmetric(a: VersionView, b: VersionView)
    ensures
        version_cmp(b, a) == flip(version_cmp(a, b)),
{
    lemma_parts_flip(a.parts, b.parts);
    match (a.suffix, b.suffix) {
        (Option::Some(x), Option::Some(y)) => match (x.num, y.num) {
            (Option::Some(nx), Option::Some(ny)) => lemma_num_flip(nx, ny),
            _ => {},
        },
        _ => {},
    }
    lemma_num_flip(revision_seq(a.revision), revision_seq(b.revision));
}

/// An absent revision orders exactly as the explicit revision `0`.
pub proof fn lemma_absent_revision_is_zero(a: VersionView, b: VersionView)
    requires
        b.parts == a.parts,
        b.letter == a.letter,
        b.suffix == a.suffix,
        a.revision is None,
        b.revision == Some(seq!['0']),
    ensures
        version_cmp(a, b) == Ordering::Equal,
{
    lemma_parts_refl(a.parts);
    match a.suffix {
        Option::Some(sv) => match sv.num {
            Option::Some(nm) => lemma_num_refl(nm),
            Option::None => {},
        },
        Option::None => {},
    }
    lemma_num_refl(seq!['0']);
}

} // verus!
