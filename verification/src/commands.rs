//! The command layer: argument-count dispatch and fallback handling for the
//! `ver_test`, `ver_rs`, `ver_cut` and `has` operations.
//!
//! Each operation takes its flat argument list plus, where the count calls
//! for one, a fallback value that the caller sources from its environment;
//! nothing here reads environment state directly.

use core::cmp::Ordering;
use vstd::prelude::*;

use crate::compare::{compare, str_eq, version_cmp};
use crate::engine::{
    extract, extract_spec, pairs_view, parse_range_fit, substitute, substitute_spec,
};
use crate::error::Error;
use crate::tokens::tokenize_spec;
use crate::version::{version_model, version_wf};

verus! {

/// The decimal digit character for `d`.
pub open spec fn dec_digit(d: int) -> char {
    if d == 0 {
        '0'
    } else if d == 1 {
        '1'
    } else if d == 2 {
        '2'
    } else if d == 3 {
        '3'
    } else if d == 4 {
        '4'
    } else if d == 5 {
        '5'
    } else if d == 6 {
        '6'
    } else if d == 7 {
        '7'
    } else if d == 8 {
        '8'
    } else {
        '9'
    }
}

/// The decimal digit string of a non-negative integer.
pub open spec fn dec_str(n: int) -> Seq<char>
    decreases n,
{
    if n < 10 {
        seq![dec_digit(n)]
    } else {
        dec_str(n / 10).push(dec_digit(n % 10))
    }
}

/// The string of one decimal digit.
fn digit_str(d: usize) -> (r: &'static str)
    requires
        d < 10,
    ensures
        r@ == seq![dec_digit(d as int)],
{
    if d == 0 {
        proof {
            reveal_strlit("0");
            assert("0"@ =~= seq!['0']);
        }
        "0"
    } else if d == 1 {
        proof {
            reveal_strlit("1");
            assert("1"@ =~= seq!['1']);
        }
        "1"
    } else if d == 2 {
        proof {
            reveal_strlit("2");
            assert("2"@ =~= seq!['2']);
        }
        "2"
    } else if d == 3 {
        proof {
            reveal_strlit("3");
            assert("3"@ =~= seq!['3']);
        }
        "3"
    } else if d == 4 {
        proof {
            reveal_strlit("4");
            assert("4"@ =~= seq!['4']);
        }
        "4"
    } else if d == 5 {
        proof {
            reveal_strlit("5");
            assert("5"@ =~= seq!['5']);
        }
        "5"
    } else if d == 6 {
        proof {
            reveal_strlit("6");
            assert("6"@ =~= seq!['6']);
        }
        "6"
    } else if d == 7 {
        proof {
            reveal_strlit("7");
            assert("7"@ =~= seq!['7']);
        }
        "7"
    } else if d == 8 {
        proof {
            reveal_strlit("8");
            assert("8"@ =~= seq!['8']);
        }
        "8"
    } else {
        proof {
            reveal_strlit("9");
            assert("9"@ =~= seq!['9']);
        }
        "9"
    }
}

/// Render a count in decimal.
fn usize_to_string(n: usize) -> (r: String)
    ensures
        r@ == dec_str(n as int),
    decreases n,
{
    if n < 10 {
        String::from_str(digit_str(n))
    } else {
        let mut s = usize_to_string(n / 10);
        s.append(digit_str(n % 10));
        s
    }
}

/// An argument-count error: the fixed text followed by the count.
fn count_error(prefix: &str, n: usize) -> (e: Error)
    ensures
        e.message@ == prefix@ + dec_str(n as int),
{
    let mut m = String::from_str(prefix);
    let num = usize_to_string(n);
    m.append(num.as_str());
    Error { message: m }
}

/// What `ver_cut` denotes: one argument cuts the fallback version, two cut
/// the explicit one; any other count is rejected.
pub open spec fn ver_cut_spec(args: Seq<Seq<char>>, pv: Seq<char>) -> Option<Seq<char>> {
    if args.len() == 1 {
        extract_spec(pv, args[0])
    } else if args.len() == 2 {
        extract_spec(args[1], args[0])
    } else {
        None
    }
}

/// Cut a component range out of a version string: `(range)` against the
/// fallback version, or `(range, version)` explicit.
pub fn ver_cut(args: &Vec<String>, pv: &str) -> (r: Result<String, Error>)
    ensures
        r is Ok <==> ver_cut_spec(args.deep_view(), pv@) is Some,
        r matches Ok(out) ==> Some(out@) == ver_cut_spec(args.deep_view(), pv@),
        r matches Err(e) ==> e.message@ == (if args@.len() == 1 || args@.len() == 2 {
            "invalid range: "@ + args.deep_view()[0]
        } else {
            "requires 1 or 2 args, got "@ + dec_str(args@.len() as int)
        }),
{
    if args.len() == 1 {
        extract(pv, args[0].as_str())
    } else if args.len() == 2 {
        extract(args[1].as_str(), args[0].as_str())
    } else {
        Err(count_error("requires 1 or 2 args, got ", args.len()))
    }
}

/// The (range, separator) pairs among the arguments.
pub open spec fn pair_up(args: Seq<Seq<char>>) -> Seq<(Seq<char>, Seq<char>)> {
    Seq::new(args.len() / 2, |i: int| (args[2 * i], args[2 * i + 1]))
}

/// The version operand of `ver_rs`: implicit (the fallback) on an even
/// argument count, the last argument on an odd one.
pub open spec fn ver_rs_version(args: Seq<Seq<char>>, pv: Seq<char>) -> Seq<char> {
    if args.len() % 2 == 0 {
        pv
    } else {
        args.last()
    }
}

/// The pairs of `ver_rs`: all arguments, or all but the version operand.
pub open spec fn ver_rs_pairs(args: Seq<Seq<char>>) -> Seq<(Seq<char>, Seq<char>)> {
    if args.len() % 2 == 0 {
        pair_up(args)
    } else {
        pair_up(args.take(args.len() - 1))
    }
}

/// What `ver_rs` denotes: every pair substituted, left to right, into the
/// version operand; fewer than two arguments is rejected.
pub open spec fn ver_rs_spec(args: Seq<Seq<char>>, pv: Seq<char>) -> Option<Seq<char>> {
    if args.len() < 2 {
        None
    } else {
        substitute_spec(ver_rs_version(args, pv), ver_rs_pairs(args))
    }
}

/// Substitute separators in a version string: `(range, sep)` pairs followed,
/// on an odd argument count, by the explicit version operand.
pub fn ver_rs(args: &Vec<String>, pv: &str) -> (r: Result<String, Error>)
    ensures
        r is Ok <==> ver_rs_spec(args.deep_view(), pv@) is Some,
        r matches Ok(out) ==> Some(out@) == ver_rs_spec(args.deep_view(), pv@),
        r matches Err(e) ==> if args@.len() < 2 {
            e.message@ == "requires 2 or more args, got "@ + dec_str(args@.len() as int)
        } else {
            exists|p: int|
                0 <= p < ver_rs_pairs(args.deep_view()).len() && parse_range_fit(
                    ver_rs_pairs(args.deep_view())[p].0,
                    (tokenize_spec(ver_rs_version(args.deep_view(), pv@)).len() / 2) as int,
                ) is None && e.message@ == "invalid range: "@ + ver_rs_pairs(args.deep_view())[p].0
        },
{
    let n_args = args.len();
    let ghost adv = args.deep_view();
    if n_args < 2 {
        return Err(count_error("requires 2 or more args, got ", n_args));
    }
    let npairs = n_args / 2;
    let ghost target = ver_rs_pairs(adv);
    proof {
        assert(adv.len() == n_args as int);
        if n_args % 2 != 0 {
            assert(adv.take(n_args as int - 1).len() == n_args as int - 1);
        }
        assert(target.len() == npairs as int);
    }
    let mut pairs: Vec<(String, String)> = Vec::new();
    proof {
        assert(pairs_view(pairs@) =~= target.take(0));
    }
    let mut p: usize = 0;
    while p < npairs
        invariant
            p <= npairs,
            npairs == args@.len() / 2,
            n_args == args@.len(),
            args@.len() >= 2,
            adv == args.deep_view(),
            target == ver_rs_pairs(adv),
            target.len() == npairs as int,
            pairs_view(pairs@) == target.take(p as int),
        decreases npairs - p,
    {
        proof {
            assert(2 * (args@.len() / 2) <= args@.len());
            assert(2 * (p as int) + 1 < args@.len());
        }
        let ghost prev = pairs@;
        let r0 = args[2 * p].clone();
        let s0 = args[2 * p + 1].clone();
        pairs.push((r0, s0));
        proof {
            assert(adv[2 * (p as int)] == args@[2 * (p as int)]@);
            assert(adv[2 * (p as int) + 1] == args@[2 * (p as int) + 1]@);
            if adv.len() % 2 != 0 {
                assert(adv.take(adv.len() - 1)[2 * (p as int)] == adv[2 * (p as int)]);
                assert(adv.take(adv.len() - 1)[2 * (p as int) + 1] == adv[2 * (p as int) + 1]);
            }
            assert(target[p as int] == (adv[2 * (p as int)], adv[2 * (p as int) + 1]));
            assert(pairs_view(prev).len() == prev.len());
            assert(target.take(p as int).len() == p as int);
            assert(pairs@.len() == p + 1);
            assert forall|i: int| 0 <= i < p + 1 implies pairs_view(pairs@)[i] == target.take(
                p as int + 1,
            )[i] by {
                assert(pairs_view(pairs@)[i] == (pairs@[i].0@, pairs@[i].1@));
                if i < p {
                    assert(pairs@[i] == prev[i]);
                    assert(pairs_view(prev)[i] == (prev[i].0@, prev[i].1@));
                    assert(pairs_view(prev)[i] == target.take(p as int)[i]);
                } else {
                    assert(pairs@[i] == (r0, s0));
                }
            }
            assert(pairs_view(pairs@) =~= target.take(p as int + 1));
        }
        p = p + 1;
    }
    proof {
        assert(target.take(npairs as int) =~= target);
    }
    let res = if n_args % 2 == 0 {
        substitute(pv, &pairs)
    } else {
        let ver = args[n_args - 1].as_str();
        proof {
            assert(ver@ == adv.last());
        }
        substitute(ver, &pairs)
    };
    proof {
        assert(pairs_view(pairs@) == ver_rs_pairs(adv));
        assert(pairs@.len() == ver_rs_pairs(adv).len());
    }
    match res {
        Ok(out) => Ok(out),
        Err(e) => {
            proof {
                let vv = ver_rs_version(adv, pv@);
                let cc2 = (tokenize_spec(vv).len() / 2) as int;
                let q = choose|q: int|
                    0 <= q < pairs@.len() && parse_range_fit(pairs@[q].0@, cc2) is None
                        && e.message@ == "invalid range: "@ + pairs@[q].0@;
                assert(pairs_view(pairs@)[q] == (pairs@[q].0@, pairs@[q].1@));
                assert(ver_rs_pairs(adv)[q].0 == pairs@[q].0@);
                assert(0 <= q < ver_rs_pairs(adv).len() && parse_range_fit(
                    ver_rs_pairs(adv)[q].0,
                    cc2,
                ) is None && e.message@ == "invalid range: "@ + ver_rs_pairs(adv)[q].0);
            }
            Err(e)
        },
    }
}

/// Does the comparison outcome satisfy the operator?
pub open spec fn op_holds(op: Seq<char>, o: Ordering) -> Option<bool> {
    if op == "-eq"@ {
        Some(o == Ordering::Equal)
    } else if op == "-ne"@ {
        Some(o != Ordering::Equal)
    } else if op == "-lt"@ {
        Some(o == Ordering::Less)
    } else if op == "-gt"@ {
        Some(o == Ordering::Greater)
    } else if op == "-le"@ {
        Some(o != Ordering::Greater)
    } else if op == "-ge"@ {
        Some(o != Ordering::Less)
    } else {
        None
    }
}

/// The operands of `ver_test`: two arguments test the fallback version (which
/// must be set) against an explicit one, three are fully explicit.
pub open spec fn ver_test_args(args: Seq<Seq<char>>, pvr: Seq<char>) -> Option<
    (Seq<char>, Seq<char>, Seq<char>),
> {
    if args.len() == 2 {
        if pvr.len() == 0 {
            None
        } else {
            Some((pvr, args[0], args[1]))
        }
    } else if args.len() == 3 {
        Some((args[0], args[1], args[2]))
    } else {
        None
    }
}

/// What `ver_test` denotes: the operator applied to the comparison of the two
/// versions, when the arguments resolve and both versions parse.
pub open spec fn ver_test_spec(args: Seq<Seq<char>>, pvr: Seq<char>) -> Option<bool> {
    match ver_test_args(args, pvr) {
        None => None,
        Some((lhs, op, rhs)) => match (version_model(lhs), version_model(rhs)) {
            (Some(va), Some(vb)) => op_holds(op, version_cmp(va, vb)),
            _ => None,
        },
    }
}

/// The message `ver_test` produces when it fails, checked in the order the
/// failures are detected.
pub open spec fn ver_test_err(args: Seq<Seq<char>>, pvr: Seq<char>) -> Seq<char> {
    if args.len() != 2 && args.len() != 3 {
        "only accepts 2 or 3 args, got "@ + dec_str(args.len() as int)
    } else if args.len() == 2 && pvr.len() == 0 {
        "$PVR is undefined"@
    } else {
        let lhs = if args.len() == 2 {
            pvr
        } else {
            args[0]
        };
        let op = if args.len() == 2 {
            args[0]
        } else {
            args[1]
        };
        let rhs = if args.len() == 2 {
            args[1]
        } else {
            args[2]
        };
        if !version_wf(lhs) {
            "invalid version: "@ + lhs
        } else if !version_wf(rhs) {
            "invalid version: "@ + rhs
        } else {
            "invalid operator: "@ + op
        }
    }
}

/// Test two versions under an operator: `(op, rhs)` against the fallback
/// version, or `(lhs, op, rhs)` explicit. The operators are `-eq`, `-ne`,
/// `-lt`, `-gt`, `-le` and `-ge`.
pub fn ver_test(args: &Vec<String>, pvr: &str) -> (r: Result<bool, Error>)
    ensures
        r is Ok <==> ver_test_spec(args.deep_view(), pvr@) is Some,
        r matches Ok(b) ==> ver_test_spec(args.deep_view(), pvr@) == Some(b),
        r matches Err(e) ==> e.message@ == ver_test_err(args.deep_view(), pvr@),
{
    let n = args.len();
    let lhs: &str;
    let op: &str;
    let rhs: &str;
    if n == 2 {
        if pvr.is_empty() {
            return Err(Error::new("$PVR is undefined"));
        }
        lhs = pvr;
        op = args[0].as_str();
        rhs = args[1].as_str();
    } else if n == 3 {
        lhs = args[0].as_str();
        op = args[1].as_str();
        rhs = args[2].as_str();
    } else {
        return Err(count_error("only accepts 2 or 3 args, got ", n));
    }
    let o = match compare(lhs, rhs) {
        Ok(o) => o,
        Err(e) => {
            return Err(e);
        },
    };
    let result: bool;
    if str_eq(op, "-eq") {
        result = matches!(o, Ordering::Equal);
    } else if str_eq(op, "-ne") {
        result = !matches!(o, Ordering::Equal);
    } else if str_eq(op, "-lt") {
        result = matches!(o, Ordering::Less);
    } else if str_eq(op, "-gt") {
        result = matches!(o, Ordering::Greater);
    } else if str_eq(op, "-le") {
        result = !matches!(o, Ordering::Greater);
    } else if str_eq(op, "-ge") {
        result = !matches!(o, Ordering::Less);
    } else {
        let mut m = String::from_str("invalid operator: ");
        m.append(op);
        return Err(Error { message: m });
    }
    Ok(result)
}

/// Is the first argument found among the subsequent ones?
pub fn has(args: &Vec<String>) -> (r: Result<bool, Error>)
    ensures
        r is Ok <==> args@.len() >= 1,
        r matches Ok(b) ==> b == exists|j: int|
            1 <= j < args@.len() && #[trigger] args.deep_view()[j] == args.deep_view()[0],
        r matches Err(e) ==> e.message@ == "requires 1 or more args"@,
{
    if args.len() == 0 {
        return Err(Error::new("requires 1 or more args"));
    }
    let mut found = false;
    let mut k: usize = 1;
    while k < args.len()
        invariant
            1 <= k <= args@.len(),
            args@.len() >= 1,
            found == exists|j: int|
                1 <= j < k && #[trigger] args.deep_view()[j] == args.deep_view()[0],
        decreases args@.len() - k,
    {
        let hit = str_eq(args[k].as_str(), args[0].as_str());
        proof {
            assert(args.deep_view()[k as int] == args@[k as int]@);
            assert(args.deep_view()[0] == args@[0]@);
        }
        if hit {
            found = true;
        }
        k = k + 1;
    }
    Ok(found)
}

} // verus!
