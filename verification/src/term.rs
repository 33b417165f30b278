//! The term representation behind `LambdaBox`, with its substitution and
//! reduction rules.
//!
//! Bound variables are de Bruijn indices; free variables carry the id of the
//! variable they stand for. Each variable occurrence is either the variable's
//! own (primary) occurrence or a borrowed one. `Borrow` wraps a frozen copy of
//! an argument, made by full evaluation for the borrowed occurrences of a
//! substituted variable; neither reduction enters it.
use vstd::prelude::*;

verus! {

/// A lambda term.
pub enum LamExpr {
    /// A bound variable (de Bruijn index); `true` for its primary occurrence.
    Var(u64, bool),
    /// A free variable (its id); `true` for its primary occurrence.
    Free(u64, bool),
    /// A constant: an index into the constants of the box that holds the term.
    Con(usize),
    /// An application.
    App(Box<LamExpr>, Box<LamExpr>),
    /// An abstraction, labelled with the id of the variable it binds; the
    /// label `ANONYMOUS` marks a binder made by copying, which no reference
    /// names.
    Lam(u64, Box<LamExpr>),
    /// A frozen copy of an argument.
    Borrow(Box<LamExpr>),
}

/// The label of a binder that no reference names: the binders of a copy.
pub const ANONYMOUS: u64 = 0xffff_ffff_ffff_ffff;

/// `k + 1`, staying at `u64::MAX` (an index that large would need a term
/// nested 2^64 levels deep).
pub open spec fn inc(k: u64) -> u64 {
    if k < u64::MAX {
        (k + 1) as u64
    } else {
        k
    }
}

pub fn inc_exec(k: u64) -> (r: u64)
    ensures
        r == inc(k),
{
    if k < u64::MAX {
        k + 1
    } else {
        k
    }
}

/// The number of nodes.
pub open spec fn size(e: LamExpr) -> nat
    decreases e,
{
    match e {
        LamExpr::App(f, g) => 1 + size(*f) + size(*g),
        LamExpr::Lam(_, b) => 1 + size(*b),
        LamExpr::Borrow(x) => 1 + size(*x),
        _ => 1,
    }
}

/// The number of applications outside frozen copies.
pub open spec fn active(e: LamExpr) -> nat
    decreases e,
{
    match e {
        LamExpr::App(f, g) => 1 + active(*f) + active(*g),
        LamExpr::Lam(_, b) => active(*b),
        _ => 0,
    }
}

/// Every bound index refers to one of the `n` enclosing binders (`n` counts
/// binders outside `e` too).
pub open spec fn lc(e: LamExpr, n: nat) -> bool
    decreases e,
{
    match e {
        LamExpr::Var(k, _) => k < n,
        LamExpr::App(f, g) => lc(*f, n) && lc(*g, n),
        LamExpr::Lam(_, b) => lc(*b, n + 1),
        LamExpr::Borrow(x) => lc(*x, n),
        _ => true,
    }
}

/// Every constant index is below `n`.
pub open spec fn cons_below(e: LamExpr, n: nat) -> bool
    decreases e,
{
    match e {
        LamExpr::Con(i) => i < n,
        LamExpr::App(f, g) => cons_below(*f, n) && cons_below(*g, n),
        LamExpr::Lam(_, b) => cons_below(*b, n),
        LamExpr::Borrow(x) => cons_below(*x, n),
        _ => true,
    }
}

/// Every free-variable id and every binder label but `ANONYMOUS` is below `n`.
pub open spec fn ids_below(e: LamExpr, n: nat) -> bool
    decreases e,
{
    match e {
        LamExpr::Free(id, _) => id < n,
        LamExpr::App(f, g) => ids_below(*f, n) && ids_below(*g, n),
        LamExpr::Lam(l, b) => (l < n || l == ANONYMOUS) && ids_below(*b, n),
        LamExpr::Borrow(x) => ids_below(*x, n),
        _ => true,
    }
}

/// No frozen copy anywhere in the term.
pub open spec fn plain(e: LamExpr) -> bool
    decreases e,
{
    match e {
        LamExpr::App(f, g) => plain(*f) && plain(*g),
        LamExpr::Lam(_, b) => plain(*b),
        LamExpr::Borrow(_) => false,
        _ => true,
    }
}

/// Adds one to every bound index that is at least `c` (the term moves under one more binder).
pub open spec fn shift(e: LamExpr, c: u64) -> LamExpr
    decreases e,
{
    match e {
        LamExpr::Var(k, p) => if k >= c {
            LamExpr::Var(inc(k), p)
        } else {
            e
        },
        LamExpr::App(f, g) => LamExpr::App(Box::new(shift(*f, c)), Box::new(shift(*g, c))),
        LamExpr::Lam(l, b) => LamExpr::Lam(l, Box::new(shift(*b, inc(c)))),
        LamExpr::Borrow(x) => LamExpr::Borrow(Box::new(shift(*x, c))),
        _ => e,
    }
}

/// A copy of a term placed at a borrowed occurrence: its abstractions bind
/// new variables that no reference names (`ANONYMOUS`); the occurrences of
/// variables bound outside the copy (indices at least `d`, and free variables)
/// become borrowed ones; frozen copies inside stay as they are.
pub open spec fn dup(e: LamExpr, d: u64) -> LamExpr
    decreases e,
{
    match e {
        LamExpr::Var(k, p) => if k < d {
            e
        } else {
            LamExpr::Var(k, false)
        },
        LamExpr::Free(id, _) => LamExpr::Free(id, false),
        LamExpr::App(f, g) => LamExpr::App(Box::new(dup(*f, d)), Box::new(dup(*g, d))),
        LamExpr::Lam(_, b) => LamExpr::Lam(ANONYMOUS, Box::new(dup(*b, inc(d)))),
        _ => e,
    }
}

/// Substitutes `s` for the bound variable with index `j` in `e` (the body of a
/// redex); the primary occurrence receives `s`, borrowed ones a copy of it;
/// a frozen copy in the body becomes live again. `s` is given at the depth of
/// `e`'s own context.
pub open spec fn subst(e: LamExpr, j: u64, s: LamExpr) -> LamExpr
    decreases e,
{
    match e {
        LamExpr::Var(k, p) => if k == j {
            if p {
                s
            } else {
                dup(s, 0)
            }
        } else if k > j {
            LamExpr::Var((k - 1) as u64, p)
        } else {
            e
        },
        LamExpr::App(f, g) => LamExpr::App(Box::new(subst(*f, j, s)), Box::new(subst(*g, j, s))),
        LamExpr::Lam(l, b) => LamExpr::Lam(l, Box::new(subst(*b, inc(j), shift(s, 0)))),
        LamExpr::Borrow(x) => dup(subst(*x, j, s), 0),
        _ => e,
    }
}

/// One reduction step: a redex at the head of an application is contracted;
/// otherwise the argument is tried before the function; reduction also goes
/// under abstractions. `None` when no step applies.
pub open spec fn step(e: LamExpr) -> Option<LamExpr>
    decreases e,
{
    match e {
        LamExpr::Lam(l, b) => match step(*b) {
            Some(b2) => Some(LamExpr::Lam(l, Box::new(b2))),
            None => None,
        },
        LamExpr::App(f, g) => match *f {
            LamExpr::Lam(_, h) => Some(subst(*h, 0, *g)),
            _ => match step(*g) {
                Some(g2) => Some(LamExpr::App(f, Box::new(g2))),
                None => match step(*f) {
                    Some(f2) => Some(LamExpr::App(Box::new(f2), g)),
                    None => None,
                },
            },
        },
        _ => None,
    }
}

/// The term after one step, or the term itself where no step applies.
pub open spec fn step_or_same(e: LamExpr) -> LamExpr {
    match step(e) {
        Some(e2) => e2,
        None => e,
    }
}

/// Shifts every constant index by `off` (the constants of the term are placed after `off` others).
pub open spec fn shift_cons(e: LamExpr, off: nat) -> LamExpr
    decreases e,
{
    match e {
        LamExpr::Con(i) => LamExpr::Con((i + off) as usize),
        LamExpr::App(f, g) => LamExpr::App(Box::new(shift_cons(*f, off)), Box::new(shift_cons(*g, off))),
        LamExpr::Lam(l, b) => LamExpr::Lam(l, Box::new(shift_cons(*b, off))),
        LamExpr::Borrow(x) => LamExpr::Borrow(Box::new(shift_cons(*x, off))),
        _ => e,
    }
}

/// Looks for the variable `id` in a left-to-right search: `Some(true)` at a
/// free occurrence, `Some(false)` at an abstraction that binds it, `None` if
/// neither occurs. An `ANONYMOUS` binder binds no variable that is looked for.
pub open spec fn check(e: LamExpr, id: u64) -> Option<bool>
    decreases e,
{
    match e {
        LamExpr::Free(fid, _) => if fid == id {
            Some(true)
        } else {
            None
        },
        LamExpr::App(f, g) => match check(*f, id) {
            Some(b) => Some(b),
            None => check(*g, id),
        },
        LamExpr::Lam(l, b) => if l == id && l != ANONYMOUS {
            Some(false)
        } else {
            check(*b, id)
        },
        LamExpr::Borrow(x) => check(*x, id),
        _ => None,
    }
}

/// Turns the free occurrences of `id` into the bound variable with index `d`
/// (the body moves under a new binder), keeping primary and borrowed occurrences apart.
pub open spec fn close(e: LamExpr, id: u64, d: u64) -> LamExpr
    decreases e,
{
    match e {
        LamExpr::Free(fid, p) => if fid == id {
            LamExpr::Var(d, p)
        } else {
            e
        },
        LamExpr::App(f, g) => LamExpr::App(Box::new(close(*f, id, d)), Box::new(close(*g, id, d))),
        LamExpr::Lam(l, b) => LamExpr::Lam(l, Box::new(close(*b, id, inc(d)))),
        LamExpr::Borrow(x) => LamExpr::Borrow(Box::new(close(*x, id, d))),
        _ => e,
    }
}

/// Substitution during full evaluation: the first primary occurrence of index
/// `j` (left to right, outside frozen copies) receives `s` itself; every other
/// occurrence receives a frozen copy of `s`. `used` tells whether `s` has
/// already been placed; the result tells whether it has been by the end.
pub open spec fn subst_eval(e: LamExpr, j: u64, s: LamExpr, used: bool) -> (LamExpr, bool)
    decreases e,
{
    match e {
        LamExpr::Var(k, p) => if k == j {
            if p && !used {
                (s, true)
            } else {
                (LamExpr::Borrow(Box::new(s)), used)
            }
        } else if k > j {
            (LamExpr::Var((k - 1) as u64, p), used)
        } else {
            (e, used)
        },
        LamExpr::App(f, g) => {
            let rf = subst_eval(*f, j, s, used);
            let rg = subst_eval(*g, j, s, rf.1);
            (LamExpr::App(Box::new(rf.0), Box::new(rg.0)), rg.1)
        },
        LamExpr::Lam(l, b) => {
            let rb = subst_eval(*b, inc(j), shift(s, 0), used);
            (LamExpr::Lam(l, Box::new(rb.0)), rb.1)
        },
        LamExpr::Borrow(x) => (LamExpr::Borrow(Box::new(subst_eval(*x, j, s, true).0)), used),
        _ => (e, used),
    }
}

/// Full evaluation; the flag tells whether anything changed. Under an
/// abstraction it evaluates the body. For an application it evaluates the
/// function, then the argument only if the function did not change; if the
/// function is then an abstraction, the evaluated argument is substituted into
/// its body (see `subst_eval`), so that every occurrence, frozen copies
/// included, shows the argument as evaluation left it, and the result is
/// evaluated in turn. Frozen copies, variables and constants are left as they
/// are.
pub open spec fn eval(e: LamExpr) -> (LamExpr, bool)
    decreases active(e), size(e),
{
    match e {
        LamExpr::Lam(l, b) => {
            let r = eval(*b);
            (LamExpr::Lam(l, Box::new(r.0)), r.1)
        },
        LamExpr::App(f, g) => {
            let rf = eval(*f);
            let rg = if rf.1 {
                (*g, false)
            } else {
                eval(*g)
            };
            match rf.0 {
                LamExpr::Lam(_, h) => {
                    let arg = if rf.1 {
                        eval(*g).0
                    } else {
                        rg.0
                    };
                    let h2 = subst_eval(*h, 0, arg, false).0;
                    // always the case (see `lemma_eval`); it bounds the recursion
                    if active(h2) < active(e) {
                        (eval(h2).0, true)
                    } else {
                        (h2, true)
                    }
                },
                _ => (LamExpr::App(Box::new(rf.0), Box::new(rg.0)), rf.1 || rg.1),
            }
        },
        _ => (e, false),
    }
}

/// Substitution during evaluation places its argument live at most once, keeps
/// the term well scoped, and keeps constants and ids in bounds.
pub proof fn lemma_subst_eval(e: LamExpr, j: u64, s: LamExpr, used: bool, n: nat, m: nat, q: nat)
    requires
        j <= n,
    ensures
        used ==> subst_eval(e, j, s, used).1,
        active(subst_eval(e, j, s, used).0) == active(e) + (if subst_eval(e, j, s, used).1
            && !used {
            active(s)
        } else {
            0
        }),
        lc(e, n + 1) && lc(s, n) ==> lc(subst_eval(e, j, s, used).0, n),
        cons_below(e, m) && cons_below(s, m) ==> cons_below(subst_eval(e, j, s, used).0, m),
        ids_below(e, q) && ids_below(s, q) ==> ids_below(subst_eval(e, j, s, used).0, q),
    decreases e,
{
    match e {
        LamExpr::App(f, g) => {
            lemma_subst_eval(*f, j, s, used, n, m, q);
            let rf = subst_eval(*f, j, s, used);
            lemma_subst_eval(*g, j, s, rf.1, n, m, q);
        },
        LamExpr::Lam(_, b) => {
            lemma_shift(s, 0, n, m, q);
            lemma_subst_eval(*b, inc(j), shift(s, 0), used, n + 1, m, q);
        },
        LamExpr::Borrow(x) => {
            lemma_subst_eval(*x, j, s, true, n, m, q);
        },
        _ => {},
    }
}

/// Evaluation never adds active applications (so its recursion is bounded),
/// keeps the term well scoped with constants and ids in bounds, and reports a
/// change whenever the term changed.
pub proof fn lemma_eval(e: LamExpr, n: nat, m: nat, q: nat)
    ensures
        active(eval(e).0) <= active(e),
        lc(e, n) ==> lc(eval(e).0, n),
        cons_below(e, m) ==> cons_below(eval(e).0, m),
        ids_below(e, q) ==> ids_below(eval(e).0, q),
        !eval(e).1 ==> eval(e).0 == e,
    decreases active(e), size(e),
{
    match e {
        LamExpr::Lam(l, b) => {
            lemma_eval(*b, n + 1, m, q);
        },
        LamExpr::App(f, g) => {
            lemma_eval(*f, n, m, q);
            let rf = eval(*f);
            lemma_eval(*g, n, m, q);
            let rg = if rf.1 {
                (*g, false)
            } else {
                eval(*g)
            };
            let arg = if rf.1 {
                eval(*g).0
            } else {
                rg.0
            };
            match rf.0 {
                LamExpr::Lam(_, h) => {
                    assert(active(rf.0) == active(*h));
                    assert(lc(rf.0, n) ==> lc(*h, n + 1));
                    assert(cons_below(rf.0, m) ==> cons_below(*h, m));
                    assert(ids_below(rf.0, q) ==> ids_below(*h, q));
                    lemma_subst_eval(*h, 0, arg, false, n, m, q);
                    let h2 = subst_eval(*h, 0, arg, false).0;
                    assert(active(h2) < active(e));
                    lemma_eval(h2, n, m, q);
                },
                _ => {},
            }
        },
        _ => {},
    }
}

impl LamExpr {
    /// Substitution during full evaluation (see `subst_eval`).
    pub fn subst_eval(&self, j: u64, s: &LamExpr, used: bool) -> (r: (LamExpr, bool))
        ensures
            r == subst_eval(*self, j, *s, used),
        decreases *self,
    {
        match self {
            LamExpr::Var(k, p) => if *k == j {
                if *p && !used {
                    (s.copy(), true)
                } else {
                    (LamExpr::Borrow(Box::new(s.copy())), used)
                }
            } else if *k > j {
                (LamExpr::Var(*k - 1, *p), used)
            } else {
                (LamExpr::Var(*k, *p), used)
            },
            LamExpr::Free(id, p) => (LamExpr::Free(*id, *p), used),
            LamExpr::Con(i) => (LamExpr::Con(*i), used),
            LamExpr::App(f, g) => {
                let rf = (**f).subst_eval(j, s, used);
                let rg = (**g).subst_eval(j, s, rf.1);
                (LamExpr::App(Box::new(rf.0), Box::new(rg.0)), rg.1)
            },
            LamExpr::Lam(l, b) => {
                let s1 = s.shift(0);
                let rb = (**b).subst_eval(inc_exec(j), &s1, used);
                (LamExpr::Lam(*l, Box::new(rb.0)), rb.1)
            },
            LamExpr::Borrow(x) => {
                let rx = (**x).subst_eval(j, s, true);
                (LamExpr::Borrow(Box::new(rx.0)), used)
            },
        }
    }

    /// Full evaluation (see `eval`).
    pub fn eval(self) -> (r: (LamExpr, bool))
        ensures
            r == eval(self),
        decreases active(self), size(self),
    {
        proof {
            lemma_eval(self, 0, 0, 0);
        }
        match self {
            LamExpr::Lam(l, b) => {
                let r = (*b).eval();
                (LamExpr::Lam(l, Box::new(r.0)), r.1)
            },
            LamExpr::App(f, g) => {
                let ghost e = LamExpr::App(f, g);
                proof {
                    lemma_eval(*f, 0, 0, 0);
                    lemma_eval(*g, 0, 0, 0);
                }
                let (f1, cf) = (*f).eval();
                let (g1, cg) = if cf {
                    (*g, false)
                } else {
                    (*g).eval()
                };
                match f1 {
                    LamExpr::Lam(l, h) => {
                        let arg = if cf {
                            g1.eval().0
                        } else {
                            g1
                        };
                        let (h2, _) = (*h).subst_eval(0, &arg, false);
                        proof {
                            lemma_subst_eval(*h, 0, arg, false, 0, 0, 0);
                            assert(active(h2) < active(e));
                        }
                        let (h3, _) = h2.eval();
                        (h3, true)
                    },
                    other => (LamExpr::App(Box::new(other), Box::new(g1)), cf || cg),
                }
            },
            other => (other, false),
        }
    }

    /// Looks for the variable `id` (see `check`).
    pub fn check_ref(&self, id: u64) -> (r: Option<bool>)
        ensures
            r == check(*self, id),
        decreases *self,
    {
        match self {
            LamExpr::Free(fid, _) => if *fid == id {
                Some(true)
            } else {
                None
            },
            LamExpr::App(f, g) => match (**f).check_ref(id) {
                Some(b) => Some(b),
                None => (**g).check_ref(id),
            },
            LamExpr::Lam(l, b) => if *l == id && *l != ANONYMOUS {
                Some(false)
            } else {
                (**b).check_ref(id)
            },
            LamExpr::Borrow(x) => (**x).check_ref(id),
            _ => None,
        }
    }

    /// Binds the free variable `id` as index `d` (see `close`).
    pub fn close(&self, id: u64, d: u64) -> (r: LamExpr)
        ensures
            r == close(*self, id, d),
        decreases *self,
    {
        match self {
            LamExpr::Free(fid, p) => if *fid == id {
                LamExpr::Var(d, *p)
            } else {
                LamExpr::Free(*fid, *p)
            },
            LamExpr::Var(k, p) => LamExpr::Var(*k, *p),
            LamExpr::Con(i) => LamExpr::Con(*i),
            LamExpr::App(f, g) => LamExpr::App(
                Box::new((**f).close(id, d)),
                Box::new((**g).close(id, d)),
            ),
            LamExpr::Lam(l, b) => LamExpr::Lam(*l, Box::new((**b).close(id, inc_exec(d)))),
            LamExpr::Borrow(x) => LamExpr::Borrow(Box::new((**x).close(id, d))),
        }
    }
}

/// Closing keeps the term well scoped under the new binder, its constants and
/// ids within bounds, and plainness.
pub proof fn lemma_close(e: LamExpr, id: u64, d: u64, n: nat, m: nat, q: nat)
    requires
        d <= n,
    ensures
        lc(e, n) ==> lc(close(e, id, d), n + 1),
        cons_below(e, m) ==> cons_below(close(e, id, d), m),
        ids_below(e, q) ==> ids_below(close(e, id, d), q),
        plain(close(e, id, d)) == plain(e),
    decreases e,
{
    match e {
        LamExpr::App(f, g) => {
            lemma_close(*f, id, d, n, m, q);
            lemma_close(*g, id, d, n, m, q);
        },
        LamExpr::Lam(_, b) => {
            lemma_close(*b, id, inc(d), n + 1, m, q);
        },
        LamExpr::Borrow(x) => {
            lemma_close(*x, id, d, n, m, q);
        },
        _ => {},
    }
}

impl LamExpr {
    /// A copy of the term.
    pub fn copy(&self) -> (r: LamExpr)
        ensures
            r == *self,
        decreases *self,
    {
        match self {
            LamExpr::Var(k, p) => LamExpr::Var(*k, *p),
            LamExpr::Free(id, p) => LamExpr::Free(*id, *p),
            LamExpr::Con(i) => LamExpr::Con(*i),
            LamExpr::App(f, g) => LamExpr::App(Box::new((**f).copy()), Box::new((**g).copy())),
            LamExpr::Lam(l, b) => LamExpr::Lam(*l, Box::new((**b).copy())),
            LamExpr::Borrow(x) => LamExpr::Borrow(Box::new((**x).copy())),
        }
    }

    pub fn shift(&self, c: u64) -> (r: LamExpr)
        ensures
            r == shift(*self, c),
        decreases *self,
    {
        match self {
            LamExpr::Var(k, p) => if *k >= c {
                LamExpr::Var(inc_exec(*k), *p)
            } else {
                LamExpr::Var(*k, *p)
            },
            LamExpr::Free(id, p) => LamExpr::Free(*id, *p),
            LamExpr::Con(i) => LamExpr::Con(*i),
            LamExpr::App(f, g) => LamExpr::App(Box::new((**f).shift(c)), Box::new((**g).shift(c))),
            LamExpr::Lam(l, b) => LamExpr::Lam(*l, Box::new((**b).shift(inc_exec(c)))),
            LamExpr::Borrow(x) => LamExpr::Borrow(Box::new((**x).shift(c))),
        }
    }

    /// The copy placed at a borrowed occurrence (see `dup`).
    pub fn duplicate(&self, d: u64) -> (r: LamExpr)
        ensures
            r == dup(*self, d),
        decreases *self,
    {
        match self {
            LamExpr::Var(k, p) => if *k < d {
                LamExpr::Var(*k, *p)
            } else {
                LamExpr::Var(*k, false)
            },
            LamExpr::Free(id, _) => LamExpr::Free(*id, false),
            LamExpr::Con(i) => LamExpr::Con(*i),
            LamExpr::App(f, g) => LamExpr::App(
                Box::new((**f).duplicate(d)),
                Box::new((**g).duplicate(d)),
            ),
            LamExpr::Lam(_, b) => LamExpr::Lam(ANONYMOUS, Box::new((**b).duplicate(inc_exec(d)))),
            LamExpr::Borrow(x) => LamExpr::Borrow(Box::new((**x).copy())),
        }
    }

    /// Substitution in the body of a contracted redex (see `subst`).
    pub fn do_link(&self, j: u64, s: &LamExpr) -> (r: LamExpr)
        ensures
            r == subst(*self, j, *s),
        decreases *self,
    {
        match self {
            LamExpr::Var(k, p) => if *k == j {
                if *p {
                    s.copy()
                } else {
                    s.duplicate(0)
                }
            } else if *k > j {
                LamExpr::Var(*k - 1, *p)
            } else {
                LamExpr::Var(*k, *p)
            },
            LamExpr::Free(id, p) => LamExpr::Free(*id, *p),
            LamExpr::Con(i) => LamExpr::Con(*i),
            LamExpr::App(f, g) => LamExpr::App(
                Box::new((**f).do_link(j, s)),
                Box::new((**g).do_link(j, s)),
            ),
            LamExpr::Lam(l, b) => {
                let s1 = s.shift(0);
                LamExpr::Lam(*l, Box::new((**b).do_link(inc_exec(j), &s1)))
            },
            LamExpr::Borrow(x) => (**x).do_link(j, s).duplicate(0),
        }
    }

    /// One reduction step (see `step`); `None` when none applies.
    pub fn eval_onestep(&self) -> (r: Option<LamExpr>)
        ensures
            r == step(*self),
        decreases *self,
    {
        match self {
            LamExpr::Lam(l, b) => match (**b).eval_onestep() {
                Some(b2) => Some(LamExpr::Lam(*l, Box::new(b2))),
                None => None,
            },
            LamExpr::App(f, g) => {
                if let LamExpr::Lam(_, h) = &**f {
                    return Some((**h).do_link(0, &**g));
                }
                match (**g).eval_onestep() {
                    Some(g2) => Some(LamExpr::App(Box::new((**f).copy()), Box::new(g2))),
                    None => match (**f).eval_onestep() {
                        Some(f2) => Some(LamExpr::App(Box::new(f2), Box::new((**g).copy()))),
                        None => None,
                    },
                }
            },
            _ => None,
        }
    }

    /// Shifts every constant index by `off` (see `shift_cons`).
    pub fn shift_cons(&self, off: usize) -> (r: LamExpr)
        requires
            cons_below(*self, (usize::MAX - off) as nat),
        ensures
            r == shift_cons(*self, off as nat),
        decreases *self,
    {
        match self {
            LamExpr::Con(i) => LamExpr::Con(*i + off),
            LamExpr::Var(k, p) => LamExpr::Var(*k, *p),
            LamExpr::Free(id, p) => LamExpr::Free(*id, *p),
            LamExpr::App(f, g) => LamExpr::App(
                Box::new((**f).shift_cons(off)),
                Box::new((**g).shift_cons(off)),
            ),
            LamExpr::Lam(l, b) => LamExpr::Lam(*l, Box::new((**b).shift_cons(off))),
            LamExpr::Borrow(x) => LamExpr::Borrow(Box::new((**x).shift_cons(off))),
        }
    }
}


/// Shifting keeps the shape: well-scopedness (one more binder), constants,
/// ids, size, active applications and plainness.
pub proof fn lemma_shift(e: LamExpr, c: u64, n: nat, m: nat, q: nat)
    ensures
        lc(e, n) ==> lc(shift(e, c), n + 1),
        cons_below(e, m) ==> cons_below(shift(e, c), m),
        ids_below(e, q) ==> ids_below(shift(e, c), q),
        size(shift(e, c)) == size(e),
        active(shift(e, c)) == active(e),
        plain(shift(e, c)) == plain(e),
    decreases e,
{
    match e {
        LamExpr::App(f, g) => {
            lemma_shift(*f, c, n, m, q);
            lemma_shift(*g, c, n, m, q);
        },
        LamExpr::Lam(_, b) => {
            lemma_shift(*b, inc(c), n + 1, m, q);
        },
        LamExpr::Borrow(x) => {
            lemma_shift(*x, c, n, m, q);
        },
        _ => {},
    }
}

/// Copying for a borrowed occurrence keeps well-scopedness, constants, ids,
/// size, active applications and plainness.
pub proof fn lemma_dup(e: LamExpr, d: u64, n: nat, m: nat, q: nat)
    ensures
        lc(e, n) ==> lc(dup(e, d), n),
        cons_below(e, m) ==> cons_below(dup(e, d), m),
        ids_below(e, q) ==> ids_below(dup(e, d), q),
        size(dup(e, d)) == size(e),
        active(dup(e, d)) == active(e),
        plain(dup(e, d)) == plain(e),
    decreases e,
{
    match e {
        LamExpr::App(f, g) => {
            lemma_dup(*f, d, n, m, q);
            lemma_dup(*g, d, n, m, q);
        },
        LamExpr::Lam(_, b) => {
            lemma_dup(*b, inc(d), n + 1, m, q);
        },
        _ => {},
    }
}

/// Substitution keeps the term well scoped (one binder fewer), its constants
/// and ids within bounds, and a term without frozen copies stays so.
pub proof fn lemma_subst(e: LamExpr, j: u64, s: LamExpr, n: nat, m: nat, q: nat)
    requires
        j <= n,
    ensures
        lc(e, n + 1) && lc(s, n) ==> lc(subst(e, j, s), n),
        cons_below(e, m) && cons_below(s, m) ==> cons_below(subst(e, j, s), m),
        ids_below(e, q) && ids_below(s, q) ==> ids_below(subst(e, j, s), q),
        plain(e) && plain(s) ==> plain(subst(e, j, s)),
    decreases e,
{
    match e {
        LamExpr::Var(k, p) => {
            lemma_dup(s, 0, n, m, q);
        },
        LamExpr::App(f, g) => {
            lemma_subst(*f, j, s, n, m, q);
            lemma_subst(*g, j, s, n, m, q);
        },
        LamExpr::Lam(_, b) => {
            lemma_shift(s, 0, n, m, q);
            lemma_subst(*b, inc(j), shift(s, 0), n + 1, m, q);
        },
        LamExpr::Borrow(x) => {
            lemma_subst(*x, j, s, n, m, q);
            lemma_dup(subst(*x, j, s), 0, n, m, q);
        },
        _ => {},
    }
}

/// A reduction step keeps the term well scoped, its constants and ids within
/// bounds, and plainness.
pub proof fn lemma_step(e: LamExpr, n: nat, m: nat, q: nat)
    requires
        step(e) is Some,
    ensures
        lc(e, n) ==> lc(step(e)->0, n),
        cons_below(e, m) ==> cons_below(step(e)->0, m),
        ids_below(e, q) ==> ids_below(step(e)->0, q),
        plain(e) ==> plain(step(e)->0),
    decreases e,
{
    match e {
        LamExpr::Lam(l, b) => {
            lemma_step(*b, n + 1, m, q);
        },
        LamExpr::App(f, g) => {
            match *f {
                LamExpr::Lam(_, h) => {
                    assert(lc(*f, n) == lc(*h, n + 1));
                    assert(cons_below(*f, m) == cons_below(*h, m));
                    assert(ids_below(*f, q) ==> ids_below(*h, q));
                    assert(plain(*f) == plain(*h));
                    lemma_subst(*h, 0, *g, n, m, q);
                },
                _ => {
                    if step(*g) is Some {
                        lemma_step(*g, n, m, q);
                    } else {
                        lemma_step(*f, n, m, q);
                    }
                },
            }
        },
        _ => {},
    }
}

/// Shifting constant indices moves their bound and keeps everything else.
pub proof fn lemma_shift_cons(e: LamExpr, off: nat, n: nat, m: nat, q: nat)
    ensures
        lc(e, n) ==> lc(shift_cons(e, off), n),
        cons_below(e, m) ==> cons_below(shift_cons(e, off), m + off),
        ids_below(e, q) ==> ids_below(shift_cons(e, off), q),
        plain(shift_cons(e, off)) == plain(e),
        size(shift_cons(e, off)) == size(e),
    decreases e,
{
    match e {
        LamExpr::App(f, g) => {
            lemma_shift_cons(*f, off, n, m, q);
            lemma_shift_cons(*g, off, n, m, q);
        },
        LamExpr::Lam(_, b) => {
            lemma_shift_cons(*b, off, n + 1, m, q);
        },
        LamExpr::Borrow(x) => {
            lemma_shift_cons(*x, off, n, m, q);
        },
        _ => {},
    }
}

/// Shifting constant indices by zero changes nothing.
pub proof fn lemma_shift_cons_zero(e: LamExpr)
    ensures
        shift_cons(e, 0) == e,
    decreases e,
{
    match e {
        LamExpr::App(f, g) => {
            lemma_shift_cons_zero(*f);
            lemma_shift_cons_zero(*g);
        },
        LamExpr::Lam(_, b) => {
            lemma_shift_cons_zero(*b);
        },
        LamExpr::Borrow(x) => {
            lemma_shift_cons_zero(*x);
        },
        _ => {},
    }
}

/// Bounds are monotone.
pub proof fn lemma_below_mono(e: LamExpr, n1: nat, n2: nat, m1: nat, m2: nat, q1: nat, q2: nat)
    requires
        n1 <= n2,
        m1 <= m2,
        q1 <= q2,
    ensures
        lc(e, n1) ==> lc(e, n2),
        cons_below(e, m1) ==> cons_below(e, m2),
        ids_below(e, q1) ==> ids_below(e, q2),
    decreases e,
{
    match e {
        LamExpr::App(f, g) => {
            lemma_below_mono(*f, n1, n2, m1, m2, q1, q2);
            lemma_below_mono(*g, n1, n2, m1, m2, q1, q2);
        },
        LamExpr::Lam(_, b) => {
            lemma_below_mono(*b, n1 + 1, n2 + 1, m1, m2, q1, q2);
        },
        LamExpr::Borrow(x) => {
            lemma_below_mono(*x, n1, n2, m1, m2, q1, q2);
        },
        _ => {},
    }
}


impl LamExpr {
    /// The number of nodes (`size`), or `u64::MAX` where it is larger.
    pub fn node_count(&self) -> (r: u64)
        ensures
            r == (if size(*self) <= u64::MAX {
                size(*self)
            } else {
                u64::MAX as nat
            }),
        decreases *self,
    {
        match self {
            LamExpr::App(f, g) => {
                let a = f.node_count();
                let b = g.node_count();
                if a < u64::MAX && b < u64::MAX - a {
                    1 + a + b
                } else {
                    u64::MAX
                }
            },
            LamExpr::Lam(_, b) => {
                let a = b.node_count();
                if a < u64::MAX {
                    1 + a
                } else {
                    u64::MAX
                }
            },
            LamExpr::Borrow(x) => {
                let a = x.node_count();
                if a < u64::MAX {
                    1 + a
                } else {
                    u64::MAX
                }
            },
            _ => 1,
        }
    }
}

} // verus!
