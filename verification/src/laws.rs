//! What the combinator factories compute: each reduces, step by step, as its
//! defining equation says.
use vstd::prelude::*;
use crate::term::{LamExpr, lc, plain, size, shift, dup, subst, step, lemma_dup, close, ANONYMOUS, eval, lemma_eval};
use crate::lambda::{app, lam, var, var_b, i_expr, b_expr, c_expr, k_expr, w_expr, s_expr, y_expr};

verus! {

/// `n` successive reduction steps, or `None` if the term gets stuck before.
pub open spec fn steps(e: LamExpr, n: nat) -> Option<LamExpr>
    decreases n,
{
    if n == 0 {
        Some(e)
    } else {
        match step(e) {
            Some(e2) => steps(e2, (n - 1) as nat),
            None => None,
        }
    }
}

/// Shifting a term none of whose indices reaches `c` leaves it unchanged.
pub proof fn lemma_shift_id(e: LamExpr, n: nat, c: u64)
    requires
        lc(e, n),
        n <= c,
        c + size(e) < u64::MAX,
    ensures
        shift(e, c) == e,
    decreases e,
{
    match e {
        LamExpr::App(f, g) => {
            lemma_shift_id(*f, n, c);
            lemma_shift_id(*g, n, c);
        },
        LamExpr::Lam(_, b) => {
            lemma_shift_id(*b, n + 1, (c + 1) as u64);
        },
        LamExpr::Borrow(x) => {
            lemma_shift_id(*x, n, c);
        },
        _ => {},
    }
}

/// Substituting for an index that a plain term does not reach leaves it unchanged.
pub proof fn lemma_subst_id(e: LamExpr, n: nat, j: u64, s: LamExpr)
    requires
        lc(e, n),
        plain(e),
        n <= j,
        j + size(e) < u64::MAX,
    ensures
        subst(e, j, s) == e,
    decreases e,
{
    match e {
        LamExpr::App(f, g) => {
            lemma_subst_id(*f, n, j, s);
            lemma_subst_id(*g, n, j, s);
        },
        LamExpr::Lam(_, b) => {
            lemma_subst_id(*b, n + 1, (j + 1) as u64, shift(s, 0));
        },
        _ => {},
    }
}

/// Copying a closed term does not depend on how many binders it passes.
proof fn lemma_dup_closed_at(e: LamExpr, n: nat, d1: u64, d2: u64)
    requires
        lc(e, n),
        n <= d1,
        n <= d2,
        d1 + size(e) < u64::MAX,
        d2 + size(e) < u64::MAX,
    ensures
        dup(e, d1) == dup(e, d2),
    decreases e,
{
    match e {
        LamExpr::App(f, g) => {
            lemma_dup_closed_at(*f, n, d1, d2);
            lemma_dup_closed_at(*g, n, d1, d2);
        },
        LamExpr::Lam(_, b) => {
            lemma_dup_closed_at(*b, n + 1, (d1 + 1) as u64, (d2 + 1) as u64);
        },
        _ => {},
    }
}

/// A closed, plain term of reasonable size: what the laws below take as arguments.
pub open spec fn closed_plain(e: LamExpr) -> bool {
    lc(e, 0) && plain(e) && size(e) + 4 < u64::MAX
}

/// Facts about a closed plain term that every law below uses.
proof fn lemma_closed_plain(e: LamExpr)
    requires
        closed_plain(e),
    ensures
        forall|c: u64| c <= 3 ==> #[trigger] shift(e, c) == e,
        forall|j: u64, s: LamExpr| j <= 3 ==> #[trigger] subst(e, j, s) == e,
        closed_plain(dup(e, 0)),
{
    assert forall|c: u64| c <= 3 implies #[trigger] shift(e, c) == e by {
        lemma_shift_id(e, 0, c);
    }
    assert forall|j: u64, s: LamExpr| j <= 3 implies #[trigger] subst(e, j, s) == e by {
        lemma_subst_id(e, 0, j, s);
    }
    lemma_dup(e, 0, 0, 0, 0);
}

/// I a = a: the identity applied to any closed plain term reduces to it in one step.
pub proof fn law_i(a: LamExpr)
    requires
        closed_plain(a),
    ensures
        steps(app(i_expr(), a), 1) == Some(a),
{
    lemma_closed_plain(a);
    assert(step(app(i_expr(), a)) == Some(a));
    reveal_with_fuel(steps, 2);
}

/// K a b = a: with `b` in normal form, K applied to `a` and `b` reduces to `a` in two steps.
pub proof fn law_k(a: LamExpr, b: LamExpr)
    requires
        closed_plain(a),
        closed_plain(b),
        step(b) is None,
    ensures
        steps(app(app(k_expr(), a), b), 2) == Some(a),
{
    lemma_closed_plain(a);
    lemma_closed_plain(b);
    let t1 = app(lam(1, a), b);
    assert(subst(var(1), 1, a) == a);
    assert(subst(lam(1, var(1)), 0, a) == lam(1, a));
    assert(step(app(k_expr(), a)) == Some(lam(1, a)));
    assert(step(app(app(k_expr(), a), b)) == Some(t1));
    assert(step(t1) == Some(a));
    reveal_with_fuel(steps, 3);
}

/// B x y z = x (y z): with `y` and `z` in normal form, three steps.
pub proof fn law_b(x: LamExpr, y: LamExpr, z: LamExpr)
    requires
        closed_plain(x),
        closed_plain(y),
        closed_plain(z),
        step(y) is None,
        step(z) is None,
    ensures
        steps(app(app(app(b_expr(), x), y), z), 3) == Some(app(x, app(y, z))),
{
    lemma_closed_plain(x);
    lemma_closed_plain(y);
    lemma_closed_plain(z);
    let b1 = lam(1, lam(2, app(x, app(var(1), var(0)))));
    let b2 = lam(2, app(x, app(y, var(0))));
    // first step: x goes in for the outer binder
    assert(subst(var(2), 2, x) == x);
    assert(subst(var(1), 2, x) == var(1));
    assert(subst(var(0), 2, x) == var(0));
    assert(subst(app(var(1), var(0)), 2, x) == app(var(1), var(0)));
    assert(subst(app(var(2), app(var(1), var(0))), 2, x) == app(x, app(var(1), var(0))));
    assert(subst(lam(2, app(var(2), app(var(1), var(0)))), 1, x) == lam(2, app(x, app(var(1), var(0)))));
    assert(subst(lam(1, lam(2, app(var(2), app(var(1), var(0))))), 0, x) == b1);
    assert(step(app(b_expr(), x)) == Some(b1));
    assert(step(app(app(b_expr(), x), y)) == Some(app(b1, y)));
    assert(step(app(app(app(b_expr(), x), y), z)) == Some(app(app(b1, y), z)));
    // second step: y
    assert(subst(x, 1, y) == x);
    assert(subst(var(1), 1, y) == y);
    assert(subst(var(0), 1, y) == var(0));
    assert(subst(app(var(1), var(0)), 1, y) == app(y, var(0)));
    assert(subst(app(x, app(var(1), var(0))), 1, y) == app(x, app(y, var(0))));
    assert(subst(lam(2, app(x, app(var(1), var(0)))), 0, y) == b2);
    assert(step(app(b1, y)) == Some(b2));
    assert(step(app(app(b1, y), z)) == Some(app(b2, z)));
    // third step: z
    assert(subst(x, 0, z) == x);
    assert(subst(y, 0, z) == y);
    assert(subst(var(0), 0, z) == z);
    assert(subst(app(y, var(0)), 0, z) == app(y, z));
    assert(subst(app(x, app(y, var(0))), 0, z) == app(x, app(y, z)));
    assert(step(app(b2, z)) == Some(app(x, app(y, z))));
    reveal_with_fuel(steps, 4);
}

/// C x y z = x z y: with `y` and `z` in normal form, three steps.
pub proof fn law_c(x: LamExpr, y: LamExpr, z: LamExpr)
    requires
        closed_plain(x),
        closed_plain(y),
        closed_plain(z),
        step(y) is None,
        step(z) is None,
    ensures
        steps(app(app(app(c_expr(), x), y), z), 3) == Some(app(app(x, z), y)),
{
    lemma_closed_plain(x);
    lemma_closed_plain(y);
    lemma_closed_plain(z);
    let c1 = lam(1, lam(2, app(app(x, var(0)), var(1))));
    let c2 = lam(2, app(app(x, var(0)), y));
    assert(subst(var(2), 2, x) == x);
    assert(subst(var(1), 2, x) == var(1));
    assert(subst(var(0), 2, x) == var(0));
    assert(subst(app(var(2), var(0)), 2, x) == app(x, var(0)));
    assert(subst(app(app(var(2), var(0)), var(1)), 2, x) == app(app(x, var(0)), var(1)));
    assert(subst(lam(2, app(app(var(2), var(0)), var(1))), 1, x) == lam(2, app(app(x, var(0)), var(1))));
    assert(subst(lam(1, lam(2, app(app(var(2), var(0)), var(1)))), 0, x) == c1);
    assert(step(app(c_expr(), x)) == Some(c1));
    assert(step(app(app(c_expr(), x), y)) == Some(app(c1, y)));
    assert(step(app(app(app(c_expr(), x), y), z)) == Some(app(app(c1, y), z)));
    assert(subst(x, 1, y) == x);
    assert(subst(var(1), 1, y) == y);
    assert(subst(var(0), 1, y) == var(0));
    assert(subst(app(x, var(0)), 1, y) == app(x, var(0)));
    assert(subst(app(app(x, var(0)), var(1)), 1, y) == app(app(x, var(0)), y));
    assert(subst(lam(2, app(app(x, var(0)), var(1))), 0, y) == c2);
    assert(step(app(c1, y)) == Some(c2));
    assert(step(app(app(c1, y), z)) == Some(app(c2, z)));
    assert(subst(x, 0, z) == x);
    assert(subst(y, 0, z) == y);
    assert(subst(var(0), 0, z) == z);
    assert(subst(app(x, var(0)), 0, z) == app(x, z));
    assert(subst(app(app(x, var(0)), y), 0, z) == app(app(x, z), y));
    assert(step(app(c2, z)) == Some(app(app(x, z), y)));
    reveal_with_fuel(steps, 4);
}

/// W x y = x y y: with `y` in normal form, two steps; the first `y` is the
/// copy made for a borrowed occurrence.
pub proof fn law_w(x: LamExpr, y: LamExpr)
    requires
        closed_plain(x),
        closed_plain(y),
        step(y) is None,
    ensures
        steps(app(app(w_expr(), x), y), 2) == Some(app(app(x, dup(y, 0)), y)),
{
    lemma_closed_plain(x);
    lemma_closed_plain(y);
    let w1 = lam(1, app(app(x, var_b(0)), var(0)));
    assert(subst(var(1), 1, x) == x);
    assert(subst(var_b(0), 1, x) == var_b(0));
    assert(subst(var(0), 1, x) == var(0));
    assert(subst(app(var(1), var_b(0)), 1, x) == app(x, var_b(0)));
    assert(subst(app(app(var(1), var_b(0)), var(0)), 1, x) == app(app(x, var_b(0)), var(0)));
    assert(subst(lam(1, app(app(var(1), var_b(0)), var(0))), 0, x) == w1);
    assert(step(app(w_expr(), x)) == Some(w1));
    assert(step(app(app(w_expr(), x), y)) == Some(app(w1, y)));
    assert(subst(x, 0, y) == x);
    assert(subst(var_b(0), 0, y) == dup(y, 0));
    assert(subst(var(0), 0, y) == y);
    assert(subst(app(x, var_b(0)), 0, y) == app(x, dup(y, 0)));
    assert(subst(app(app(x, var_b(0)), var(0)), 0, y) == app(app(x, dup(y, 0)), y));
    assert(step(app(w1, y)) == Some(app(app(x, dup(y, 0)), y)));
    reveal_with_fuel(steps, 3);
}

/// S x y z = x z (y z): with `y` and `z` in normal form, three steps; the
/// first `z` is the copy made for a borrowed occurrence.
pub proof fn law_s(x: LamExpr, y: LamExpr, z: LamExpr)
    requires
        closed_plain(x),
        closed_plain(y),
        closed_plain(z),
        step(y) is None,
        step(z) is None,
    ensures
        steps(app(app(app(s_expr(), x), y), z), 3) == Some(app(app(x, dup(z, 0)), app(y, z))),
{
    lemma_closed_plain(x);
    lemma_closed_plain(y);
    lemma_closed_plain(z);
    let s1 = lam(1, lam(2, app(app(x, var_b(0)), app(var(1), var(0)))));
    let s2 = lam(2, app(app(x, var_b(0)), app(y, var(0))));
    assert(subst(var(2), 2, x) == x);
    assert(subst(var(1), 2, x) == var(1));
    assert(subst(var(0), 2, x) == var(0));
    assert(subst(var_b(0), 2, x) == var_b(0));
    assert(subst(app(var(2), var_b(0)), 2, x) == app(x, var_b(0)));
    assert(subst(app(var(1), var(0)), 2, x) == app(var(1), var(0)));
    assert(subst(app(app(var(2), var_b(0)), app(var(1), var(0))), 2, x)
        == app(app(x, var_b(0)), app(var(1), var(0))));
    assert(subst(lam(2, app(app(var(2), var_b(0)), app(var(1), var(0)))), 1, x)
        == lam(2, app(app(x, var_b(0)), app(var(1), var(0)))));
    assert(subst(lam(1, lam(2, app(app(var(2), var_b(0)), app(var(1), var(0))))), 0, x) == s1);
    assert(step(app(s_expr(), x)) == Some(s1));
    assert(step(app(app(s_expr(), x), y)) == Some(app(s1, y)));
    assert(step(app(app(app(s_expr(), x), y), z)) == Some(app(app(s1, y), z)));
    assert(subst(x, 1, y) == x);
    assert(subst(var(1), 1, y) == y);
    assert(subst(var(0), 1, y) == var(0));
    assert(subst(var_b(0), 1, y) == var_b(0));
    assert(subst(app(x, var_b(0)), 1, y) == app(x, var_b(0)));
    assert(subst(app(var(1), var(0)), 1, y) == app(y, var(0)));
    assert(subst(app(app(x, var_b(0)), app(var(1), var(0))), 1, y)
        == app(app(x, var_b(0)), app(y, var(0))));
    assert(subst(lam(2, app(app(x, var_b(0)), app(var(1), var(0)))), 0, y) == s2);
    assert(step(app(s1, y)) == Some(s2));
    assert(step(app(app(s1, y), z)) == Some(app(s2, z)));
    assert(subst(x, 0, z) == x);
    assert(subst(y, 0, z) == y);
    assert(subst(var(0), 0, z) == z);
    assert(subst(var_b(0), 0, z) == dup(z, 0));
    assert(subst(app(x, var_b(0)), 0, z) == app(x, dup(z, 0)));
    assert(subst(app(y, var(0)), 0, z) == app(y, z));
    assert(subst(app(app(x, var_b(0)), app(y, var(0))), 0, z) == app(app(x, dup(z, 0)), app(y, z)));
    assert(step(app(s2, z)) == Some(app(app(x, dup(z, 0)), app(y, z))));
    reveal_with_fuel(steps, 4);
}

/// Y f = f (Y f): Y applied to `f` reduces in two steps to `f'` applied to a
/// term `u`, and `u` reduces in one step to `f'` applied to `u` again (`f'` is
/// the copy of `f` made for a borrowed occurrence).
pub proof fn law_y(f: LamExpr)
    requires
        closed_plain(f),
    ensures
        ({
            let fb = dup(f, 0);
            let u = app(dup(lam(1, app(f, app(var_b(0), var(0)))), 0), lam(1, app(f, app(var_b(0), var(0)))));
            &&& steps(app(y_expr(), f), 2) == Some(app(fb, u))
            &&& steps(u, 1) == Some(app(fb, u))
        }),
{
    lemma_closed_plain(f);
    let fb = dup(f, 0);
    lemma_closed_plain(fb);
    let body = app(f, app(var_b(0), var(0)));
    let bf = lam(1, body);
    let abody = app(fb, app(var_b(0), var(0)));
    let a = lam(0, abody);
    // first step: f goes in for the binder of Y
    assert(subst(var_b(1), 1, f) == fb);
    assert(subst(var_b(0), 1, f) == var_b(0));
    assert(subst(var(0), 1, f) == var(0));
    assert(subst(app(var_b(0), var(0)), 1, f) == app(var_b(0), var(0)));
    assert(subst(app(var_b(1), app(var_b(0), var(0))), 1, f) == abody);
    assert(subst(lam(0, app(var_b(1), app(var_b(0), var(0)))), 0, f) == a);
    assert(subst(var(1), 1, f) == f);
    assert(subst(app(var(1), app(var_b(0), var(0))), 1, f) == body);
    assert(subst(lam(1, app(var(1), app(var_b(0), var(0)))), 0, f) == bf);
    assert(subst(app(lam(0, app(var_b(1), app(var_b(0), var(0)))), lam(1, app(var(1), app(var_b(0),
        var(0))))), 0, f) == app(a, bf));
    assert(step(app(y_expr(), f)) == Some(app(a, bf)));
    // second step: the self-application
    let u = app(dup(bf, 0), bf);
    assert(dup(var_b(0), 1) == var_b(0));
    assert(dup(var(0), 1) == var(0));
    assert(dup(app(var_b(0), var(0)), 1) == app(var_b(0), var(0)));
    assert(dup(f, 1) == fb) by {
        lemma_dup_closed_at(f, 0, 0, 1);
    }
    assert(dup(body, 1) == abody);
    assert(dup(bf, 0) == lam(ANONYMOUS, abody));
    assert(subst(fb, 0, bf) == fb);
    assert(subst(var_b(0), 0, bf) == dup(bf, 0));
    assert(subst(var(0), 0, bf) == bf);
    assert(subst(app(var_b(0), var(0)), 0, bf) == u);
    assert(subst(abody, 0, bf) == app(fb, u));
    assert(step(app(a, bf)) == Some(app(fb, u)));
    assert(step(u) == Some(app(fb, u)));
    reveal_with_fuel(steps, 3);
}


/// `t` with the free variable `x` replaced by `a`: its primary occurrences
/// receive `a`, its borrowed ones a copy of `a` (see `dup`).
pub open spec fn inst(t: LamExpr, x: u64, a: LamExpr) -> LamExpr
    decreases t,
{
    match t {
        LamExpr::Free(id, p) => if id == x {
            if p {
                a
            } else {
                dup(a, 0)
            }
        } else {
            t
        },
        LamExpr::App(f, g) => LamExpr::App(Box::new(inst(*f, x, a)), Box::new(inst(*g, x, a))),
        LamExpr::Lam(l, b) => LamExpr::Lam(l, Box::new(inst(*b, x, a))),
        LamExpr::Borrow(y) => LamExpr::Borrow(Box::new(inst(*y, x, a))),
        _ => t,
    }
}

/// Binding `x` at index `d` and substituting a closed term there replaces
/// `x` by that term.
proof fn lemma_subst_close(t: LamExpr, x: u64, d: u64, a: LamExpr)
    requires
        lc(t, d as nat),
        plain(t),
        closed_plain(a),
        d + size(t) < u64::MAX,
    ensures
        subst(close(t, x, d), d, a) == inst(t, x, a),
    decreases t,
{
    lemma_closed_plain(a);
    match t {
        LamExpr::App(f, g) => {
            lemma_subst_close(*f, x, d, a);
            lemma_subst_close(*g, x, d, a);
        },
        LamExpr::Lam(_, b) => {
            lemma_shift_id(a, 0, 0);
            lemma_subst_close(*b, x, (d + 1) as u64, a);
        },
        _ => {},
    }
}

/// Abstracting a term over one of its free variables (see `LambdaBox::abstr`)
/// and applying the abstraction to a closed plain term replaces the variable
/// by that term, in one step.
pub proof fn law_beta(t: LamExpr, x: u64, a: LamExpr)
    requires
        lc(t, 0),
        plain(t),
        closed_plain(a),
        size(t) < u64::MAX,
    ensures
        step(app(LamExpr::Lam(x, Box::new(close(t, x, 0))), a)) == Some(inst(t, x, a)),
{
    lemma_subst_close(t, x, 0, a);
}


/// Shifting raises exactly the bound indices at or above the cutoff, by one:
/// a variable below it stays, one at or above it moves to the next index.
pub proof fn law_shift_var(k: u64, p: bool, c: u64)
    requires
        k < u64::MAX,
    ensures
        k >= c ==> shift(LamExpr::Var(k, p), c) == LamExpr::Var((k + 1) as u64, p),
        k < c ==> shift(LamExpr::Var(k, p), c) == LamExpr::Var(k, p),
{
}

/// Shifting opens a gap at the cutoff that substitution there closes again:
/// substituting anything for index `c` in a term shifted at `c` gives the term
/// back (no variable of the term is ever taken for the substituted one).
pub proof fn law_subst_shift(e: LamExpr, c: u64, s: LamExpr, n: nat)
    requires
        lc(e, n),
        plain(e),
        c + size(e) < u64::MAX,
        n + size(e) < u64::MAX,
    ensures
        subst(shift(e, c), c, s) == e,
    decreases e,
{
    match e {
        LamExpr::App(f, g) => {
            law_subst_shift(*f, c, s, n);
            law_subst_shift(*g, c, s, n);
        },
        LamExpr::Lam(_, b) => {
            law_subst_shift(*b, (c + 1) as u64, shift(s, 0), n + 1);
        },
        _ => {},
    }
}

/// Full evaluation reports no change only on a term in normal form: where it
/// says nothing changed, no reduction step applies anywhere in the term, not
/// even under an abstraction.
pub proof fn law_eval_unchanged_is_normal(e: LamExpr)
    ensures
        !eval(e).1 ==> step(e) is None,
    decreases e,
{
    lemma_eval(e, 0, 0, 0);
    match e {
        LamExpr::Lam(_, b) => {
            law_eval_unchanged_is_normal(*b);
        },
        LamExpr::App(f, g) => {
            law_eval_unchanged_is_normal(*f);
            law_eval_unchanged_is_normal(*g);
            lemma_eval(*f, 0, 0, 0);
            lemma_eval(*g, 0, 0, 0);
        },
        _ => {},
    }
}

/// A step inside the argument of an application whose function is no
/// abstraction leaves the function in place: `f g` steps to `f g2` when `g`
/// steps to `g2`.
pub proof fn law_step_in_argument(f: LamExpr, g: LamExpr, g2: LamExpr)
    requires
        !(f is Lam),
        step(g) == Some(g2),
    ensures
        step(app(f, g)) == Some(app(f, g2)),
{
}

/// Where the argument is in normal form, a step inside the function of an
/// application whose function is no abstraction leaves the argument in place.
pub proof fn law_step_in_function(f: LamExpr, g: LamExpr, f2: LamExpr)
    requires
        !(f is Lam),
        step(g) is None,
        step(f) == Some(f2),
    ensures
        step(app(f, g)) == Some(app(f2, g)),
{
}

/// A step under an abstraction keeps the abstraction and its label.
pub proof fn law_step_under_lambda(l: u64, b: LamExpr, b2: LamExpr)
    requires
        step(b) == Some(b2),
    ensures
        step(lam(l, b)) == Some(lam(l, b2)),
{
}

} // verus!
