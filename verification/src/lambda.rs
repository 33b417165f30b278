//! Lambda terms as the game manipulates them: boxes that hold a term and the
//! constants it mentions, combinator factories, abstraction over a variable,
//! and step-by-step reduction.
use core::marker::PhantomData;
use vstd::prelude::*;
use crate::term::{
    LamExpr, lc, cons_below, ids_below, shift_cons, step, step_or_same, lemma_below_mono,
    lemma_shift_cons, lemma_step, check, close, lemma_close, lemma_shift_cons_zero, eval, lemma_eval,
};

verus! {

/// A reference to a variable of a term, by its id. References name variables
/// only, never constants, applications or abstractions as a whole. Ids are
/// numbered within a box, from the box's next fresh id, and boxes made apart
/// number from the same start (every factory from 0, a default box holds
/// variable 0): a reference names the variable or binder with its id in the
/// box it is used with, so a reference taken from a box made on its own
/// names, in another box, whatever variable or binder has the same id there.
pub struct LambdaRef<T> {
    id: u64,
    marker: PhantomData<T>,
}

impl<T> View for LambdaRef<T> {
    type V = u64;

    closed spec fn view(&self) -> u64 {
        self.id
    }
}

impl<T> LambdaRef<T> {
    pub(crate) fn new(id: u64) -> (r: Self)
        ensures
            r@ == id,
    {
        LambdaRef { id, marker: PhantomData }
    }

    /// The id of the referenced variable.
    pub fn id(&self) -> (r: u64)
        ensures
            r == self@,
    {
        self.id
    }
}

impl<T> Clone for LambdaRef<T> {
    fn clone(&self) -> (r: Self)
        ensures
            r@ == self@,
    {
        LambdaRef { id: self.id, marker: PhantomData }
    }
}

impl<T> PartialEq for LambdaRef<T> {
    fn eq(&self, other: &Self) -> (r: bool) {
        self.id == other.id
    }
}

impl<T> vstd::std_specs::cmp::PartialEqSpecImpl for LambdaRef<T> {
    open spec fn obeys_eq_spec() -> bool {
        true
    }

    open spec fn eq_spec(&self, other: &Self) -> bool {
        self@ == other@
    }
}

impl<T> Eq for LambdaRef<T> {
}

/// A lambda term together with the constants it mentions.
pub struct LambdaBox<T> {
    expr: LamExpr,
    consts: Vec<T>,
    next_id: u64,
}

impl<T> LambdaBox<T> {
    /// The term is closed, its constants are all present, and every id it uses
    /// is below the next fresh id.
    #[verifier::type_invariant]
    pub closed spec fn wf(&self) -> bool {
        &&& lc(self.expr, 0)
        &&& cons_below(self.expr, self.consts@.len())
        &&& ids_below(self.expr, self.next_id as nat)
    }

    /// The term.
    pub closed spec fn spec_expr(&self) -> LamExpr {
        self.expr
    }

    /// The constants that the term's `Con` indices refer to.
    pub closed spec fn spec_consts(&self) -> Seq<T> {
        self.consts@
    }

    /// The id that the box gives to the next variable it makes.
    pub closed spec fn spec_next_id(&self) -> u64 {
        self.next_id
    }

    /// A box with the given term and no constants.
    fn wrap(expr: LamExpr, next_id: u64) -> (r: Self)
        requires
            lc(expr, 0),
            cons_below(expr, 0),
            ids_below(expr, next_id as nat),
        ensures
            r.spec_expr() == expr,
            r.spec_consts().len() == 0,
            r.spec_next_id() == next_id,
    {
        LambdaBox { expr, consts: Vec::new(), next_id }
    }

    /// A box that holds only the (primary) variable `id`, and a reference to it.
    fn wrap_ref(id: u64) -> (r: (Self, LambdaRef<T>))
        requires
            id < u64::MAX,
        ensures
            r.0.spec_expr() == LamExpr::Free(id, true),
            r.0.spec_consts().len() == 0,
            r.0.spec_next_id() == id + 1,
            r.1@ == id,
    {
        (Self::wrap(LamExpr::Free(id, true), id + 1), LambdaRef::new(id))
    }

    /// A reference to the variable that the box holds, or, for any other
    /// term, to a fresh variable that the box does not use (a reference names
    /// variables only, not other parts of a term).
    pub fn get_ref(&self) -> (r: LambdaRef<T>)
        ensures
            r@ == (match self.spec_expr() {
                LamExpr::Free(id, _) => id,
                _ => self.spec_next_id(),
            }),
    {
        match &self.expr {
            LamExpr::Free(id, _) => LambdaRef::new(*id),
            _ => LambdaRef::new(self.next_id),
        }
    }

    /// A borrowed occurrence of the box's term: a variable becomes its
    /// borrowed occurrence, a constant stays, anything else is frozen.
    fn borrow(&self) -> (r: Self)
        requires
            self.spec_consts().len() == 0,
        ensures
            r.spec_expr() == borrowed(self.spec_expr()),
            r.spec_consts().len() == 0,
            r.spec_next_id() == self.spec_next_id(),
    {
        proof {
            use_type_invariant(self);
        }
        let e = match &self.expr {
            LamExpr::Free(id, _) => LamExpr::Free(*id, false),
            LamExpr::Con(i) => LamExpr::Con(*i),
            other => LamExpr::Borrow(Box::new(other.copy())),
        };
        LambdaBox { expr: e, consts: Vec::new(), next_id: self.next_id }
    }

    /// The application of `self` to `expr_box_2`. The constants of the second
    /// box follow those of the first.
    pub fn composition(self, expr_box_2: Self) -> (r: Self)
        requires
            self.spec_consts().len() + expr_box_2.spec_consts().len() <= usize::MAX,
        ensures
            r.spec_expr() == LamExpr::App(
                Box::new(self.spec_expr()),
                Box::new(shift_cons(expr_box_2.spec_expr(), self.spec_consts().len())),
            ),
            r.spec_consts() == self.spec_consts() + expr_box_2.spec_consts(),
            r.spec_next_id() == max_id(self.spec_next_id(), expr_box_2.spec_next_id()),
    {
        proof {
            use_type_invariant(&self);
            use_type_invariant(&expr_box_2);
        }
        let LambdaBox { expr: e1, consts: mut c1, next_id: n1 } = self;
        let LambdaBox { expr: e2, consts: mut c2, next_id: n2 } = expr_box_2;
        let off = c1.len();
        proof {
            lemma_below_mono(e2, 0, 0, c2@.len(), (usize::MAX - off) as nat, 0, 0);
        }
        let e2s = e2.shift_cons(off);
        proof {
            lemma_shift_cons(e2, off as nat, 0, c2@.len(), n2 as nat);
            lemma_below_mono(e1, 0, 0, c1@.len(), c1@.len() + c2@.len(), n1 as nat,
                max_id(n1, n2) as nat);
            lemma_below_mono(e2s, 0, 0, (c2@.len() + off) as nat, c1@.len() + c2@.len(), n2 as nat,
                max_id(n1, n2) as nat);
        }
        c1.append(&mut c2);
        let n = if n1 >= n2 { n1 } else { n2 };
        LambdaBox { expr: LamExpr::App(Box::new(e1), Box::new(e2s)), consts: c1, next_id: n }
    }

    /// Replaces `self` by the application of `self` to `expr_box_2`.
    pub fn compose(&mut self, expr_box_2: Self)
        requires
            old(self).spec_consts().len() + expr_box_2.spec_consts().len() <= usize::MAX,
        ensures
            final(self).spec_expr() == LamExpr::App(
                Box::new(old(self).spec_expr()),
                Box::new(shift_cons(expr_box_2.spec_expr(), old(self).spec_consts().len())),
            ),
            final(self).spec_consts() == old(self).spec_consts() + expr_box_2.spec_consts(),
            final(self).spec_next_id() == max_id(old(self).spec_next_id(), expr_box_2.spec_next_id()),
    {
        let mut this = Self::wrap(LamExpr::Free(0, true), 1);
        std::mem::swap(&mut this, self);
        *self = this.composition(expr_box_2);
    }

    /// Whether `pointer` names a free variable of the term (`Some(true)`), a
    /// variable that an abstraction of the term binds (`Some(false)`, when such
    /// an abstraction comes first in a left-to-right search), or neither (`None`).
    /// Only variables are looked for, by id (see `LambdaRef`): a constant or an
    /// application of the term is never found.
    pub fn check_ref(&self, pointer: &LambdaRef<T>) -> (r: Option<bool>)
        ensures
            r == check(self.spec_expr(), pointer@),
    {
        self.expr.check_ref(pointer.id)
    }

    /// Abstracts the term over the variable `ptr`: returns the abstraction and a
    /// box holding a fresh variable in its place. Where `ptr` is not a free
    /// variable of the term (see `check_ref`), the abstraction binds a fresh
    /// variable that the term does not use. Only variables can be abstracted:
    /// no subterm is ever moved out into the second box.
    pub fn abstr(self, ptr: LambdaRef<T>) -> (r: (Self, Self))
        requires
            self.spec_next_id() < u64::MAX,
        ensures
            r.0.spec_expr() == (if check(self.spec_expr(), ptr@) == Some(true) {
                LamExpr::Lam(ptr@, Box::new(close(self.spec_expr(), ptr@, 0)))
            } else {
                LamExpr::Lam(self.spec_next_id(), Box::new(self.spec_expr()))
            }),
            r.0.spec_consts() == self.spec_consts(),
            r.0.spec_next_id() == self.spec_next_id() + 1,
            r.1.spec_expr() == LamExpr::Free(self.spec_next_id(), true),
            r.1.spec_consts().len() == 0,
            r.1.spec_next_id() == self.spec_next_id() + 1,
    {
        proof {
            use_type_invariant(&self);
        }
        let check_pass = match self.check_ref(&ptr) {
            Some(b) => b,
            None => false,
        };
        let LambdaBox { expr, consts, next_id } = self;
        let fresh = next_id + 1;
        let carrier = Self::wrap(LamExpr::Free(next_id, true), fresh);
        if check_pass {
            proof {
                lemma_close(expr, ptr.id, 0, 0, consts@.len(), next_id as nat);
                lemma_check_id(expr, ptr.id, next_id as nat);
                lemma_below_mono(close(expr, ptr.id, 0), 1, 1, consts@.len(), consts@.len(),
                    next_id as nat, fresh as nat);
            }
            let body = expr.close(ptr.id, 0);
            (LambdaBox { expr: LamExpr::Lam(ptr.id, Box::new(body)), consts, next_id: fresh },
                carrier)
        } else {
            proof {
                lemma_below_mono(expr, 0, 1, consts@.len(), consts@.len(), next_id as nat,
                    fresh as nat);
            }
            (LambdaBox { expr: LamExpr::Lam(next_id, Box::new(expr)), consts, next_id: fresh },
                carrier)
        }
    }

    /// The identity, |x| x.
    pub fn i_factory() -> (r: Self)
        ensures
            r.spec_expr() == i_expr(),
            r.spec_consts().len() == 0,
    {
        let (x, x_r) = Self::wrap_ref(0);
        x.abstr(x_r).0
    }

    /// B x y z = x (y z).
    pub fn b_factory() -> (r: Self)
        ensures
            r.spec_expr() == b_expr(),
            r.spec_consts().len() == 0,
    {
        let (x, x_r) = Self::wrap_ref(0);
        let (y, y_r) = Self::wrap_ref(1);
        let (z, z_r) = Self::wrap_ref(2);
        proof {
            lemma_shift_cons_zero(LamExpr::Free(2, true));
        }
        let yz = y.composition(z);
        proof {
            lemma_shift_cons_zero(yz.spec_expr());
        }
        let expr = x.composition(yz);
        proof {
            reveal_with_fuel(check, 6);
            reveal_with_fuel(close, 6);
        }
        let expr = expr.abstr(z_r).0;
        let expr = expr.abstr(y_r).0;
        let expr = expr.abstr(x_r).0;
        expr
    }

    /// C x y z = x z y.
    pub fn c_factory() -> (r: Self)
        ensures
            r.spec_expr() == c_expr(),
            r.spec_consts().len() == 0,
    {
        let (x, x_r) = Self::wrap_ref(0);
        let (y, y_r) = Self::wrap_ref(1);
        let (z, z_r) = Self::wrap_ref(2);
        proof {
            lemma_shift_cons_zero(LamExpr::Free(2, true));
            lemma_shift_cons_zero(LamExpr::Free(1, true));
        }
        let expr = x.composition(z).composition(y);
        proof {
            reveal_with_fuel(check, 6);
            reveal_with_fuel(close, 6);
        }
        let expr = expr.abstr(z_r).0;
        let expr = expr.abstr(y_r).0;
        let expr = expr.abstr(x_r).0;
        expr
    }

    /// K x y = x.
    pub fn k_factory() -> (r: Self)
        ensures
            r.spec_expr() == k_expr(),
            r.spec_consts().len() == 0,
    {
        let (x, x_r) = Self::wrap_ref(0);
        let (_y, y_r) = Self::wrap_ref(1);
        proof {
            reveal_with_fuel(check, 3);
            reveal_with_fuel(close, 3);
        }
        let expr = x.abstr(y_r).0;
        let expr = expr.abstr(x_r).0;
        expr
    }

    /// W x y = x y y.
    pub fn w_factory() -> (r: Self)
        ensures
            r.spec_expr() == w_expr(),
            r.spec_consts().len() == 0,
    {
        let (x, x_r) = Self::wrap_ref(0);
        let (y, y_r) = Self::wrap_ref(1);
        let yb = y.borrow();
        proof {
            lemma_shift_cons_zero(LamExpr::Free(1, false));
            lemma_shift_cons_zero(LamExpr::Free(1, true));
        }
        let expr = x.composition(yb).composition(y);
        proof {
            reveal_with_fuel(check, 6);
            reveal_with_fuel(close, 6);
        }
        let expr = expr.abstr(y_r).0;
        let expr = expr.abstr(x_r).0;
        expr
    }

    /// S x y z = x z (y z).
    pub fn s_factory() -> (r: Self)
        ensures
            r.spec_expr() == s_expr(),
            r.spec_consts().len() == 0,
    {
        let (x, x_r) = Self::wrap_ref(0);
        let (y, y_r) = Self::wrap_ref(1);
        let (z, z_r) = Self::wrap_ref(2);
        let zb = z.borrow();
        proof {
            lemma_shift_cons_zero(LamExpr::Free(2, false));
            lemma_shift_cons_zero(LamExpr::Free(2, true));
        }
        let yz = y.composition(z);
        proof {
            lemma_shift_cons_zero(yz.spec_expr());
        }
        let expr = x.composition(zb).composition(yz);
        proof {
            reveal_with_fuel(check, 6);
            reveal_with_fuel(close, 6);
        }
        let expr = expr.abstr(z_r).0;
        let expr = expr.abstr(y_r).0;
        let expr = expr.abstr(x_r).0;
        expr
    }

    /// Y f = f (Y f): the fixed-point combinator.
    pub fn y_factory() -> (r: Self)
        ensures
            r.spec_expr() == y_expr(),
            r.spec_consts().len() == 0,
    {
        let (x, x_r) = Self::wrap_ref(0);
        let (y, y_r) = Self::wrap_ref(1);
        let (f, f_r) = Self::wrap_ref(2);
        let fb = f.borrow();
        let xb = x.borrow();
        let yb = y.borrow();
        proof {
            lemma_shift_cons_zero(LamExpr::Free(0, true));
            lemma_shift_cons_zero(LamExpr::Free(1, true));
            lemma_shift_cons_zero(xb.spec_expr());
            lemma_shift_cons_zero(yb.spec_expr());
        }
        let xx = xb.composition(x);
        let yy = yb.composition(y);
        proof {
            lemma_shift_cons_zero(xx.spec_expr());
            lemma_shift_cons_zero(yy.spec_expr());
            reveal_with_fuel(check, 5);
            reveal_with_fuel(close, 5);
        }
        let expr1 = fb.composition(xx).abstr(x_r).0;
        let expr2 = f.composition(yy).abstr(y_r).0;
        proof {
            lemma_shift_cons_zero(expr2.spec_expr());
        }
        let expr = expr1.composition(expr2).abstr(f_r).0;
        expr
    }

    /// Evaluates the term fully (see `eval`); returns whether it changed.
    pub fn eval(&mut self) -> (changed: bool)
        ensures
            changed == eval(old(self).spec_expr()).1,
            final(self).spec_expr() == eval(old(self).spec_expr()).0,
            !changed ==> final(self).spec_expr() == old(self).spec_expr(),
            final(self).spec_consts() == old(self).spec_consts(),
            final(self).spec_next_id() == old(self).spec_next_id(),
    {
        proof {
            use_type_invariant(&*self);
            lemma_eval(self.expr, 0, self.consts@.len(), self.next_id as nat);
        }
        let r = self.expr.copy().eval();
        self.expr = r.0;
        r.1
    }

    /// The box after full evaluation.
    pub fn eval_value(self) -> (r: Self)
        ensures
            r.spec_expr() == eval(self.spec_expr()).0,
            r.spec_consts() == self.spec_consts(),
            r.spec_next_id() == self.spec_next_id(),
    {
        let mut this = self;
        this.eval();
        this
    }

    /// The term.
    pub fn expr_ref(&self) -> (r: &LamExpr)
        ensures
            *r == self.spec_expr(),
            lc(*r, 0),
            cons_below(*r, self.spec_consts().len()),
            ids_below(*r, self.spec_next_id() as nat),
    {
        proof {
            use_type_invariant(self);
        }
        &self.expr
    }

    /// The constants.
    pub fn consts_ref(&self) -> (r: &Vec<T>)
        ensures
            r@ == self.spec_consts(),
    {
        &self.consts
    }

    /// A box holding the constant `t`.
    pub fn new_const(t: T) -> (r: Self)
        ensures
            r.spec_expr() == LamExpr::Con(0),
            r.spec_consts() == seq![t],
            r.spec_next_id() == 0,
    {
        let mut consts = Vec::new();
        consts.push(t);
        LambdaBox { expr: LamExpr::Con(0), consts, next_id: 0 }
    }

    /// Performs one reduction step (see `step`); returns whether one applied.
    pub fn eval_onestep(&mut self) -> (changed: bool)
        ensures
            changed == step(old(self).spec_expr()) is Some,
            final(self).spec_expr() == step_or_same(old(self).spec_expr()),
            !changed ==> final(self).spec_expr() == old(self).spec_expr(),
            final(self).spec_consts() == old(self).spec_consts(),
            final(self).spec_next_id() == old(self).spec_next_id(),
    {
        proof {
            use_type_invariant(&*self);
        }
        match self.expr.eval_onestep() {
            Some(e2) => {
                proof {
                    lemma_step(self.expr, 0, self.consts@.len(), self.next_id as nat);
                }
                self.expr = e2;
                true
            },
            None => false,
        }
    }
}

/// A variable that the search finds is one whose id is in range.
proof fn lemma_check_id(e: LamExpr, id: u64, q: nat)
    requires
        ids_below(e, q),
        check(e, id) is Some,
    ensures
        id < q,
    decreases e,
{
    match e {
        LamExpr::App(f, g) => {
            if check(*f, id) is Some {
                lemma_check_id(*f, id, q);
            } else {
                lemma_check_id(*g, id, q);
            }
        },
        LamExpr::Lam(_, b) => {
            if check(*b, id) is Some {
                lemma_check_id(*b, id, q);
            }
        },
        LamExpr::Borrow(x) => {
            lemma_check_id(*x, id, q);
        },
        _ => {},
    }
}

/// The application `a b`.
pub open spec fn app(a: LamExpr, b: LamExpr) -> LamExpr {
    LamExpr::App(Box::new(a), Box::new(b))
}

/// The abstraction labelled `l` with body `b`.
pub open spec fn lam(l: u64, b: LamExpr) -> LamExpr {
    LamExpr::Lam(l, Box::new(b))
}

/// The primary occurrence of the bound variable `k`.
pub open spec fn var(k: u64) -> LamExpr {
    LamExpr::Var(k, true)
}

/// A borrowed occurrence of the bound variable `k`.
pub open spec fn var_b(k: u64) -> LamExpr {
    LamExpr::Var(k, false)
}

/// I = |x| x.
pub open spec fn i_expr() -> LamExpr {
    lam(0, var(0))
}

/// B = |x| |y| |z| x (y z).
pub open spec fn b_expr() -> LamExpr {
    lam(0, lam(1, lam(2, app(var(2), app(var(1), var(0))))))
}

/// C = |x| |y| |z| x z y.
pub open spec fn c_expr() -> LamExpr {
    lam(0, lam(1, lam(2, app(app(var(2), var(0)), var(1)))))
}

/// K = |x| |y| x.
pub open spec fn k_expr() -> LamExpr {
    lam(0, lam(1, var(1)))
}

/// W = |x| |y| x y y.
pub open spec fn w_expr() -> LamExpr {
    lam(0, lam(1, app(app(var(1), var_b(0)), var(0))))
}

/// S = |x| |y| |z| x z (y z).
pub open spec fn s_expr() -> LamExpr {
    lam(0, lam(1, lam(2, app(app(var(2), var_b(0)), app(var(1), var(0))))))
}

/// Y = |f| (|x| f (x x)) (|y| f (y y)).
pub open spec fn y_expr() -> LamExpr {
    lam(2, app(lam(0, app(var_b(1), app(var_b(0), var(0)))), lam(1, app(var(1), app(var_b(0), var(0))))))
}

/// The larger of two ids.
pub open spec fn max_id(a: u64, b: u64) -> u64 {
    if a >= b {
        a
    } else {
        b
    }
}

/// The borrowed occurrence of a term (see `LambdaBox::borrow`).
pub open spec fn borrowed(e: LamExpr) -> LamExpr {
    match e {
        LamExpr::Free(id, _) => LamExpr::Free(id, false),
        LamExpr::Con(i) => LamExpr::Con(i),
        _ => LamExpr::Borrow(Box::new(e)),
    }
}

impl<T> Default for LambdaBox<T> {
    /// A box holding a single variable, the first of its box (id 0).
    fn default() -> (r: Self)
        ensures
            r.spec_expr() == LamExpr::Free(0, true),
            r.spec_consts().len() == 0,
            r.spec_next_id() == 1,
    {
        LambdaBox { expr: LamExpr::Free(0, true), consts: Vec::new(), next_id: 1 }
    }
}

} // verus!
