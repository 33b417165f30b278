//! The printed form of a term: `|n|.body` for an abstraction whose variable
//! is numbered `n`, juxtaposition for application, and constants as they are.
use vstd::prelude::*;
use crate::term::{LamExpr, size, lc, cons_below, shift_cons, dup, inc};
use crate::lambda::LambdaBox;

verus! {

/// The character of a decimal digit.
pub open spec fn digit_char(d: nat) -> char {
    if d == 0 { '0' }
    else if d == 1 { '1' }
    else if d == 2 { '2' }
    else if d == 3 { '3' }
    else if d == 4 { '4' }
    else if d == 5 { '5' }
    else if d == 6 { '6' }
    else if d == 7 { '7' }
    else if d == 8 { '8' }
    else { '9' }
}

/// The decimal numeral of `n`.
pub open spec fn decimal(n: nat) -> Seq<char>
    decreases n,
{
    if n < 10 {
        seq![digit_char(n)]
    } else {
        decimal(n / 10) + seq![digit_char(n % 10)]
    }
}

/// The printed form of `e` and the next unused number. `env` holds the
/// numbers of the enclosing abstractions, innermost last; `index` is the next
/// unused number; `consts` are the printed constants. An abstraction takes
/// the next number; a variable that no enclosing abstraction binds takes a
/// new number at each occurrence. The argument of an application is numbered
/// from the same point as the function, and the numbers it takes are not
/// counted afterwards. A function that is an abstraction is put in
/// parentheses, and so is an argument that is an application.
pub open spec fn fmt(e: LamExpr, env: Seq<nat>, index: nat, consts: Seq<Seq<char>>) -> (Seq<char>, nat)
    decreases e,
{
    match e {
        LamExpr::Var(k, _) => if k < env.len() {
            (decimal(env[env.len() - 1 - k]), index)
        } else {
            (decimal(index), index + 1)
        },
        LamExpr::Free(_, _) => (decimal(index), index + 1),
        LamExpr::Con(i) => (consts[i as int], index),
        LamExpr::Lam(_, b) => {
            let r = fmt(*b, env.push(index), index + 1, consts);
            (seq!['|'] + decimal(index) + seq!['|', '.'] + r.0, r.1)
        },
        LamExpr::App(f, g) => {
            let rf = fmt(*f, env, index, consts);
            let rg = fmt(*g, env, index, consts);
            let fs = if is_lam(*f) {
                seq!['('] + rf.0 + seq![')']
            } else {
                rf.0
            };
            let s = if is_app(*g) {
                fs + seq![' ', '('] + rg.0 + seq![')']
            } else {
                fs + seq![' '] + rg.0
            };
            (s, rf.1)
        },
        LamExpr::Borrow(x) => fmt(*x, env, index, consts),
    }
}

/// Whether a term is an abstraction.
pub open spec fn is_lam(e: LamExpr) -> bool {
    match e {
        LamExpr::Lam(_, _) => true,
        _ => false,
    }
}

/// Whether a term is an application.
pub open spec fn is_app(e: LamExpr) -> bool {
    match e {
        LamExpr::App(_, _) => true,
        _ => false,
    }
}

/// Numbers never go down, and grow by at most the size of the term.
pub proof fn lemma_fmt_index(e: LamExpr, env: Seq<nat>, index: nat, consts: Seq<Seq<char>>)
    ensures
        index <= fmt(e, env, index, consts).1 <= index + size(e),
    decreases e,
{
    match e {
        LamExpr::Lam(_, b) => {
            lemma_fmt_index(*b, env.push(index), index + 1, consts);
        },
        LamExpr::App(f, g) => {
            lemma_fmt_index(*f, env, index, consts);
            lemma_fmt_index(*g, env, index, consts);
        },
        LamExpr::Borrow(x) => {
            lemma_fmt_index(*x, env, index, consts);
        },
        _ => {},
    }
}

fn digit_str(d: i32) -> (s: &'static str)
    requires
        0 <= d < 10,
    ensures
        s@ == seq![digit_char(d as nat)],
{
    proof {
        reveal_strlit("0");
        reveal_strlit("1");
        reveal_strlit("2");
        reveal_strlit("3");
        reveal_strlit("4");
        reveal_strlit("5");
        reveal_strlit("6");
        reveal_strlit("7");
        reveal_strlit("8");
        reveal_strlit("9");
    }
    if d == 0 { "0" }
    else if d == 1 { "1" }
    else if d == 2 { "2" }
    else if d == 3 { "3" }
    else if d == 4 { "4" }
    else if d == 5 { "5" }
    else if d == 6 { "6" }
    else if d == 7 { "7" }
    else if d == 8 { "8" }
    else { "9" }
}

/// Appends the decimal numeral of `n`.
fn push_decimal(out: &mut String, n: i32)
    requires
        0 <= n,
    ensures
        final(out)@ == old(out)@ + decimal(n as nat),
    decreases n,
{
    if n < 10 {
        out.append(digit_str(n));
    } else {
        push_decimal(out, n / 10);
        out.append(digit_str(n % 10));
        assert(decimal(n as nat) == decimal((n / 10) as nat) + seq![digit_char((n % 10) as nat)]);
    }
}

/// Appends the printed form of `e` (see `fmt`) and advances `index`.
fn fmt_expr(e: &LamExpr, env: &mut Vec<i32>, index: &mut i32, consts: &Vec<String>, out: &mut String)
    requires
        0 <= *old(index),
        *old(index) + size(*e) < i32::MAX,
        forall|i: int| 0 <= i < old(env)@.len() ==> 0 <= #[trigger] old(env)@[i] < *old(index),
        lc(*e, old(env)@.len()),
        cons_below(*e, consts@.len()),
    ensures
        final(out)@ == old(out)@ + fmt(*e, nat_env(old(env)@), *old(index) as nat, strings(consts@)).0,
        *final(index) == fmt(*e, nat_env(old(env)@), *old(index) as nat, strings(consts@)).1,
        final(env)@ == old(env)@,
    decreases *e,
{
    let ghost env0 = env@;
    let ghost i0 = *index as nat;
    proof {
        lemma_fmt_index(*e, nat_env(env0), i0, strings(consts@));
    }
    match e {
        LamExpr::Var(k, _) => {
            if *k < env.len() as u64 {
                let j = env.len() - 1 - (*k as usize);
                push_decimal(out, env[j]);
            } else {
                push_decimal(out, *index);
                *index = *index + 1;
            }
        },
        LamExpr::Free(_, _) => {
            push_decimal(out, *index);
            *index = *index + 1;
        },
        LamExpr::Con(i) => {
            out.append(consts[*i].as_str());
        },
        LamExpr::Lam(_, b) => {
            let c = *index;
            proof {
                reveal_strlit("|");
                reveal_strlit("|.");
            }
            out.append("|");
            push_decimal(out, c);
            out.append("|.");
            env.push(c);
            *index = c + 1;
            proof {
                assert(nat_env(env@) =~= nat_env(env0).push(i0));
            }
            fmt_expr(&**b, env, index, consts, out);
            env.pop();
            proof {
                assert(env@ =~= env0);
            }
        },
        LamExpr::App(f, g) => {
            let c = *index;
            let mut fs = String::new();
            fmt_expr(&**f, env, index, consts, &mut fs);
            let mut gi = c;
            let mut gs = String::new();
            proof {
                lemma_fmt_index(**f, nat_env(env0), i0, strings(consts@));
            }
            fmt_expr(&**g, env, &mut gi, consts, &mut gs);
            proof {
                reveal_strlit("(");
                reveal_strlit(")");
                reveal_strlit(" ");
                reveal_strlit(" (");
            }
            let f_is_lam = match &**f {
                LamExpr::Lam(_, _) => true,
                _ => false,
            };
            let g_is_app = match &**g {
                LamExpr::App(_, _) => true,
                _ => false,
            };
            if f_is_lam {
                out.append("(");
                out.append(fs.as_str());
                out.append(")");
            } else {
                out.append(fs.as_str());
            }
            if g_is_app {
                out.append(" (");
                out.append(gs.as_str());
                out.append(")");
            } else {
                out.append(" ");
                out.append(gs.as_str());
            }
        },
        LamExpr::Borrow(x) => {
            fmt_expr(&**x, env, index, consts, out);
        },
    }
}

/// The numbers of an environment as naturals.
pub open spec fn nat_env(env: Seq<i32>) -> Seq<nat> {
    env.map_values(|v: i32| v as nat)
}

/// The printed constants.
pub open spec fn strings(consts: Seq<String>) -> Seq<Seq<char>> {
    consts.map_values(|s: String| s@)
}

impl LambdaBox<String> {
    /// The printed form of the term (see `fmt`), numbering from 0.
    pub fn to_string(&self) -> (s: String)
        requires
            size(self.spec_expr()) < i32::MAX,
        ensures
            s@ == fmt(self.spec_expr(), seq![], 0, strings(self.spec_consts())).0,
    {
        proof {
            use_type_invariant(self);
        }
        let mut env: Vec<i32> = Vec::new();
        let mut index: i32 = 0;
        let mut out = String::new();
        proof {
            assert(nat_env(env@) =~= seq![]);
        }
        fmt_expr(self.expr_ref(), &mut env, &mut index, self.consts_ref(), &mut out);
        out
    }
}


/// The text of an application whose function prints as `f` and whose argument
/// prints as `g`: the function in parentheses where it is an abstraction, a
/// space, and the argument in parentheses where it is an application.
pub open spec fn app_text(f: Seq<char>, f_lam: bool, g: Seq<char>, g_app: bool) -> Seq<char> {
    let fs = if f_lam {
        seq!['('] + f + seq![')']
    } else {
        f
    };
    if g_app {
        fs + seq![' ', '('] + g + seq![')']
    } else {
        fs + seq![' '] + g
    }
}

/// Constants placed after others, with their indices shifted past them,
/// print as before.
proof fn lemma_fmt_consts(e: LamExpr, env: Seq<nat>, index: nat, c1: Seq<Seq<char>>, c2: Seq<Seq<char>>)
    requires
        cons_below(e, c2.len()),
        c1.len() + c2.len() <= usize::MAX,
    ensures
        fmt(shift_cons(e, c1.len()), env, index, c1 + c2) == fmt(e, env, index, c2),
        is_lam(shift_cons(e, c1.len())) == is_lam(e),
        is_app(shift_cons(e, c1.len())) == is_app(e),
    decreases e,
{
    match e {
        LamExpr::Con(i) => {
            assert((c1 + c2)[i + c1.len()] == c2[i as int]);
        },
        LamExpr::Lam(_, b) => {
            lemma_fmt_consts(*b, env.push(index), index + 1, c1, c2);
        },
        LamExpr::App(f, g) => {
            lemma_fmt_consts(*f, env, index, c1, c2);
            lemma_fmt_consts(*g, env, index, c1, c2);
        },
        LamExpr::Borrow(x) => {
            lemma_fmt_consts(*x, env, index, c1, c2);
        },
        _ => {},
    }
}

/// Constants placed before others print as before.
proof fn lemma_fmt_prefix(e: LamExpr, env: Seq<nat>, index: nat, c1: Seq<Seq<char>>, c2: Seq<Seq<char>>)
    requires
        cons_below(e, c1.len()),
    ensures
        fmt(e, env, index, c1 + c2) == fmt(e, env, index, c1),
    decreases e,
{
    match e {
        LamExpr::Con(i) => {
            assert((c1 + c2)[i as int] == c1[i as int]);
        },
        LamExpr::Lam(_, b) => {
            lemma_fmt_prefix(*b, env.push(index), index + 1, c1, c2);
        },
        LamExpr::App(f, g) => {
            lemma_fmt_prefix(*f, env, index, c1, c2);
            lemma_fmt_prefix(*g, env, index, c1, c2);
        },
        LamExpr::Borrow(x) => {
            lemma_fmt_prefix(*x, env, index, c1, c2);
        },
        _ => {},
    }
}

/// The printed form of an application of one box to another (see
/// `LambdaBox::composition`) is built from the printed forms of the two boxes
/// (see `app_text`).
pub proof fn law_print_composition(e1: LamExpr, c1: Seq<Seq<char>>, e2: LamExpr, c2: Seq<Seq<char>>)
    requires
        cons_below(e1, c1.len()),
        cons_below(e2, c2.len()),
        c1.len() + c2.len() <= usize::MAX,
    ensures
        fmt(LamExpr::App(Box::new(e1), Box::new(shift_cons(e2, c1.len()))), seq![], 0, c1 + c2).0
            == app_text(fmt(e1, seq![], 0, c1).0, is_lam(e1), fmt(e2, seq![], 0, c2).0, is_app(e2)),
{
    lemma_fmt_prefix(e1, seq![], 0, c1, c2);
    lemma_fmt_consts(e2, seq![], 0, c1, c2);
}


/// A copy of a term (see `dup`) prints as the term.
pub proof fn law_copy_prints_alike(e: LamExpr, d: u64, env: Seq<nat>, index: nat, consts: Seq<Seq<char>>)
    ensures
        fmt(dup(e, d), env, index, consts) == fmt(e, env, index, consts),
        is_lam(dup(e, d)) == is_lam(e),
        is_app(dup(e, d)) == is_app(e),
    decreases e,
{
    match e {
        LamExpr::Lam(_, b) => {
            law_copy_prints_alike(*b, inc(d), env.push(index), index + 1, consts);
        },
        LamExpr::App(f, g) => {
            law_copy_prints_alike(*f, d, env, index, consts);
            law_copy_prints_alike(*g, d, env, index, consts);
        },
        _ => {},
    }
}


/// The value of a decimal digit character (its distance from `'0'`).
pub open spec fn digit_value(c: char) -> int {
    (c as int) - ('0' as int)
}

/// The number that a string of decimal digits denotes, most significant
/// digit first.
pub open spec fn numeral_value(s: Seq<char>) -> int
    decreases s.len(),
{
    if s.len() == 0 {
        0
    } else {
        numeral_value(s.drop_last()) * 10 + digit_value(s.last())
    }
}

/// The numeral printed for `n` is its usual decimal form: every character is
/// a digit, the digits denote `n` most significant first, and the first digit
/// is `0` only for `n == 0`.
pub proof fn law_decimal(n: nat)
    ensures
        decimal(n).len() >= 1,
        forall|i: int| 0 <= i < decimal(n).len() ==> '0' <= #[trigger] decimal(n)[i] <= '9',
        numeral_value(decimal(n)) == n,
        n > 0 ==> decimal(n)[0] != '0',
    decreases n,
{
    if n < 10 {
        assert(digit_value(digit_char(n)) == n);
        assert(decimal(n) == seq![digit_char(n)]);
        assert(decimal(n).drop_last() =~= Seq::<char>::empty());
        assert(numeral_value(Seq::<char>::empty()) == 0);
        assert(numeral_value(decimal(n)) == numeral_value(Seq::<char>::empty()) * 10 + digit_value(
            digit_char(n),
        ));
    } else {
        law_decimal(n / 10);
        let d = decimal(n / 10);
        let s = decimal(n);
        assert(s == d + seq![digit_char(n % 10)]);
        assert(s.drop_last() =~= d);
        assert(digit_value(digit_char(n % 10)) == n % 10);
        assert(numeral_value(s) == numeral_value(d) * 10 + (n % 10) as int);
        assert(numeral_value(d) * 10 == (n / 10) * 10);
        assert((n / 10) * 10 + n % 10 == n) by (nonlinear_arith);
        assert forall|i: int| 0 <= i < s.len() implies '0' <= #[trigger] s[i] <= '9' by {
            if i < d.len() {
                assert(s[i] == d[i]);
            }
        }
        assert(s[0] == d[0]);
    }
}

} // verus!
