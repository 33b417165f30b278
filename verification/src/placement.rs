//! Laying out a term: the layout of each node from the layouts of its parts,
//! and what holds of every layout so made.
use vstd::prelude::*;
use crate::colmap::{lemma_get_put, lemma_put_within, put_absent, get, or0, put, merge, lemma_get_shift, lemma_merge_get, lemma_first_idx, first_idx, lemma_seq_max_ge, seq_max, lemma_get_outside};
use crate::mino::{
    SquareSpec, MinoSpec, gen_spec, tight, move_spec, combine_spec, lam_mino, app_mino,
    lemma_move_tight, lemma_combine_tight, lemma_tight_grow, in_box, lift,
};
use crate::term::{LamExpr, size, cons_below, plain};
use crate::mino::{LambdaMino, pt, lemma_tight_bounded, link_spec, SqKind, resolve_sq, key_idx, lemma_key_idx};
use crate::lambda::LambdaBox;
use crate::show::strings;

verus! {

/// No two squares share a key.
pub open spec fn keys_distinct(s: Seq<(u64, SquareSpec)>) -> bool {
    forall|i: int, j: int|
        #![trigger s[i], s[j]]
        0 <= i < j < s.len() ==> s[i].0 != s[j].0
}

/// Every key is `k` or lies in `[lo, hi)`.
pub open spec fn keys_from(s: Seq<(u64, SquareSpec)>, k: u64, lo: int, hi: int) -> bool {
    forall|i: int| 0 <= i < s.len() ==> #[trigger] s[i].0 == k || (lo <= s[i].0 < hi)
}

/// Moving a layout keeps its keys.
proof fn lemma_move_keys(m: MinoSpec, o: (int, int), t: (int, int))
    ensures
        move_spec(m, o, t).squares.len() == m.squares.len(),
        forall|i: int|
            0 <= i < m.squares.len() ==> #[trigger] move_spec(m, o, t).squares[i].0 == m.squares[i].0,
{
}

/// The layout of a term of size `s` fits the box of side `s` at its place
/// (see `tight`); its keys are distinct, and they are the key of its own
/// square and keys drawn from the counter, which advances by at most three per
/// node.
pub proof fn lemma_gen(
    e: LamExpr,
    sq_key: u64,
    own_fresh: bool,
    env: Seq<u64>,
    pos: (int, int),
    target: (int, int),
    next: u64,
    consts: Seq<Seq<char>>,
)
    requires
        sq_key < next,
        next + 3 * size(e) <= u64::MAX,
    ensures
        ({
            let r = gen_spec(e, sq_key, own_fresh, env, pos, target, next, consts);
            &&& next <= r.1 <= next + 3 * size(e)
            &&& tight(r.0, pos, size(e) as int, target)
            &&& keys_distinct(r.0.squares)
            &&& keys_from(r.0.squares, sq_key, next as int, r.1 as int)
        }),
    decreases e,
{
    let r = gen_spec(e, sq_key, own_fresh, env, pos, target, next, consts);
    let own = if own_fresh {
        next
    } else {
        sq_key
    };
    let n1: u64 = if own_fresh {
        (next + 1) as u64
    } else {
        next
    };
    match e {
        LamExpr::Var(k, _) => {},
        LamExpr::Free(_, _) => {},
        LamExpr::Con(i) => {
            lemma_get_put(seq![], pos.0, pos.1, pos.0);
        },
        LamExpr::Lam(_, b) => {
            let pb = (pos.0 + 1, pos.1);
            lemma_gen(*b, n1, false, env.push(own), pb, pos, (n1 + 1) as u64, consts);
            let rb = gen_spec(*b, n1, false, env.push(own), pb, pos, (n1 + 1) as u64, consts);
            let sb = size(*b) as int;
            let s = sb + 1;
            let m = rb.0;
            let lm = lam_mino(m, sq_key, pos, target);
            assert(r.0 == lm);
            assert forall|i: int| 0 <= i < lm.squares.len() implies in_box(
                #[trigger] lm.squares[i].1.pos,
                pos,
                s,
            ) && (in_box(lm.squares[i].1.target, pos, s) || (lm.squares[i].1.pos == pos
                && lm.squares[i].1.target == target)) by {
                if i < m.squares.len() {
                    assert(lm.squares[i] == m.squares[i]);
                    assert(in_box(m.squares[i].1.pos, pb, sb));
                }
            }
            assert forall|i: int| 0 <= i < m.up.len() implies pos.0 <= #[trigger] m.up[i].0 <= pos.0 + s - 1
                && pos.1 <= m.up[i].1 <= pos.1 + s - 1 by {
                assert(pb.0 <= m.up[i].0);
            }
            assert forall|i: int| 0 <= i < m.down.len() implies pos.0 <= #[trigger] m.down[i].0 <= pos.0 + s
                - 1 && pos.1 <= m.down[i].1 <= pos.1 + s - 1 by {
                assert(pb.0 <= m.down[i].0);
            }
            lemma_put_within(m.up, pos.0, pos.1, pos.0, pos.0 + s - 1, pos.1, pos.1 + s - 1);
            lemma_put_within(m.down, pos.0, pos.1, pos.0, pos.0 + s - 1, pos.1, pos.1 + s - 1);
            lemma_get_put(m.down, pos.0, pos.1, pos.0);
            assert(tight(lm, pos, s, target));
            assert forall|i: int, j: int|
                #![trigger lm.squares[i], lm.squares[j]]
                0 <= i < j < lm.squares.len() implies lm.squares[i].0 != lm.squares[j].0 by {
                if j < m.squares.len() {
                    assert(m.squares[i].0 != m.squares[j].0);
                } else {
                    assert(lm.squares[i] == m.squares[i]);
                }
            }
            assert forall|i: int| 0 <= i < lm.squares.len() implies #[trigger] lm.squares[i].0 == sq_key || (
            next <= lm.squares[i].0 < r.1) by {
                if i < m.squares.len() {
                    assert(lm.squares[i] == m.squares[i]);
                    assert(m.squares[i].0 == n1 || (n1 + 1 <= m.squares[i].0 < rb.1));
                }
            }
        },
        LamExpr::App(f, g) => {
            lemma_gen(*f, n1, false, env, (0, 0), (-1, 0), (n1 + 2) as u64, consts);
            let rf = gen_spec(*f, n1, false, env, (0, 0), (-1, 0), (n1 + 2) as u64, consts);
            lemma_gen(*g, (n1 + 1) as u64, false, env, (0, 0), (-1, 0), rf.1, consts);
            let rg = gen_spec(*g, (n1 + 1) as u64, false, env, (0, 0), (-1, 0), rf.1, consts);
            let sf = size(*f) as int;
            let sg = size(*g) as int;
            let s = 1 + sf + sg;
            lemma_combine_tight(rf.0, rg.0, sf, sg);
            let c = combine_spec(rf.0, rg.0);
            lemma_move_tight(c, s, pos, target);
            let mv = move_spec(c, pos, target);
            let am = app_mino(mv, own, pos, target);
            assert(r.0 == am);
            assert forall|i: int| 0 <= i < am.squares.len() implies in_box(
                #[trigger] am.squares[i].1.pos,
                pos,
                s,
            ) && (in_box(am.squares[i].1.target, pos, s) || (am.squares[i].1.pos == pos
                && am.squares[i].1.target == target)) by {
                if i < mv.squares.len() {
                    assert(am.squares[i] == mv.squares[i]);
                }
            }
            assert(tight(am, pos, s, target));
            // keys
            let a = move_spec(rf.0, (1, 0), (0, 0));
            let d = lift(put_absent(a.up, 0, 0), rg.0.down);
            let o = move_spec(rg.0, (0, d), (0, 0));
            lemma_move_keys(rf.0, (1, 0), (0, 0));
            lemma_move_keys(rg.0, (0, d), (0, 0));
            assert(c.squares == a.squares + o.squares);
            lemma_move_keys(c, pos, target);
            assert forall|i: int| 0 <= i < c.squares.len() implies (#[trigger] c.squares[i].0 == n1 || (n1 + 2
                <= c.squares[i].0 < rf.1)) && i < a.squares.len() || (c.squares[i].0 == n1 + 1 || (rf.1
                <= c.squares[i].0 < rg.1)) && i >= a.squares.len() by {
                if i < a.squares.len() {
                    assert(c.squares[i] == a.squares[i]);
                    assert(a.squares[i].0 == rf.0.squares[i].0);
                } else {
                    assert(c.squares[i] == o.squares[i - a.squares.len()]);
                    assert(o.squares[i - a.squares.len()].0 == rg.0.squares[i - a.squares.len()].0);
                }
            }
            assert forall|i: int, j: int|
                #![trigger c.squares[i], c.squares[j]]
                0 <= i < j < c.squares.len() implies c.squares[i].0 != c.squares[j].0 by {
                if j < a.squares.len() {
                    assert(c.squares[i] == a.squares[i]);
                    assert(c.squares[j] == a.squares[j]);
                    assert(rf.0.squares[i].0 != rf.0.squares[j].0);
                } else if i >= a.squares.len() {
                    let i2 = i - a.squares.len();
                    let j2 = j - a.squares.len();
                    assert(c.squares[i] == o.squares[i2]);
                    assert(c.squares[j] == o.squares[j2]);
                    assert(rg.0.squares[i2].0 != rg.0.squares[j2].0);
                } else {
                    assert(c.squares[i].0 == c.squares[i].0);
                    assert(c.squares[j].0 == c.squares[j].0);
                }
            }
            assert forall|i: int, j: int|
                #![trigger am.squares[i], am.squares[j]]
                0 <= i < j < am.squares.len() implies am.squares[i].0 != am.squares[j].0 by {
                assert(am.squares[i] == mv.squares[i]);
                assert(mv.squares[i].0 == c.squares[i].0);
                if j < mv.squares.len() {
                    assert(am.squares[j] == mv.squares[j]);
                    assert(mv.squares[j].0 == c.squares[j].0);
                    assert(c.squares[i].0 != c.squares[j].0);
                } else {
                    assert(c.squares[i].0 == c.squares[i].0);
                }
            }
            assert forall|i: int| 0 <= i < am.squares.len() implies #[trigger] am.squares[i].0 == sq_key || (
            next <= am.squares[i].0 < r.1) by {
                if i < mv.squares.len() {
                    assert(am.squares[i] == mv.squares[i]);
                    assert(mv.squares[i].0 == c.squares[i].0);
                    assert(c.squares[i].0 == c.squares[i].0);
                }
            }
        },
        LamExpr::Borrow(x) => {
            lemma_gen(*x, sq_key, true, env, pos, target, n1, consts);
            lemma_tight_grow(r.0, pos, size(*x) as int, target);
        },
    }
}


/// Builds the layout of `e` (see `gen_spec`) and returns it with the next
/// unused key.
fn gen_mino_context<T>(
    e: &LamExpr,
    sq_key: u64,
    own_fresh: bool,
    env: &mut Vec<u64>,
    pos: (i32, i32),
    target: (i32, i32),
    next: u64,
    consts: &Vec<String>,
) -> (r: (LambdaMino<T>, u64))
    requires
        sq_key < next,
        next + 3 * size(*e) <= u64::MAX,
        size(*e) <= 0x1500_0000,
        0 <= pos.0,
        0 <= pos.1,
        pos.0 + size(*e) <= 0x1500_0000,
        pos.1 + size(*e) <= 0x1500_0000,
        -1 <= target.0 <= 0x1500_0000,
        -1 <= target.1 <= 0x1500_0000,
        cons_below(*e, consts@.len()),
    ensures
        final(env)@ == old(env)@,
        (r.0@, r.1) == gen_spec(*e, sq_key, own_fresh, old(env)@, pt(pos), pt(target), next, strings(consts@)),
    decreases *e,
{
    let ghost env0 = env@;
    let own = if own_fresh {
        next
    } else {
        sq_key
    };
    let n1 = if own_fresh {
        next + 1
    } else {
        next
    };
    match e {
        LamExpr::Var(k, _) => {
            if *k < env.len() as u64 {
                let link = env[env.len() - 1 - (*k as usize)];
                (LambdaMino::of_var(sq_key, pos, target, link), n1)
            } else {
                (LambdaMino::new(), n1)
            }
        },
        LamExpr::Free(_, _) => (LambdaMino::new(), n1),
        LamExpr::Con(i) => (LambdaMino::of_con(sq_key, pos, target, consts[*i].clone()), n1),
        LamExpr::Lam(_, b) => {
            env.push(own);
            let pb = (pos.0 + 1, pos.1);
            let (mut m, nr) = gen_mino_context(&**b, n1, false, env, pb, pos, n1 + 1, consts);
            env.pop();
            proof {
                assert(env@ =~= env0);
                lemma_gen(**b, n1, false, env0.push(own), pt(pb), pt(pos), (n1 + 1) as u64, strings(consts@));
                lemma_tight_bounded(m@, pt(pb), size(**b) as int, pt(pos), 0x1500_0000);
            }
            m.push_lam(sq_key, pos, target);
            (m, nr)
        },
        LamExpr::App(f, g) => {
            let (mut mf, nf) = gen_mino_context(&**f, n1, false, env, (0, 0), (-1, 0), n1 + 2, consts);
            proof {
                lemma_gen(**f, n1, false, env0, (0, 0), (-1, 0), (n1 + 2) as u64, strings(consts@));
                lemma_tight_bounded(mf@, (0, 0), size(**f) as int, (-1, 0), 0x1500_0000);
            }
            let (mg, ng) = gen_mino_context(&**g, n1 + 1, false, env, (0, 0), (-1, 0), nf, consts);
            proof {
                lemma_gen(**g, (n1 + 1) as u64, false, env0, (0, 0), (-1, 0), nf, strings(consts@));
                lemma_tight_bounded(mg@, (0, 0), size(**g) as int, (-1, 0), 0x1500_0000);
                lemma_combine_tight(mf@, mg@, size(**f) as int, size(**g) as int);
            }
            let ghost c0 = combine_spec(mf@, mg@);
            mf.app_combine(mg);
            proof {
                lemma_tight_bounded(c0, (0, 0), size(*e) as int, (0, 0), 0x1500_0000);
            }
            mf.move_mino(pos, target);
            mf.push_app(own, pos, target);
            (mf, ng)
        },
        LamExpr::Borrow(x) => gen_mino_context(&**x, sq_key, true, env, pos, target, n1, consts),
    }
}


/// The drawing of a term whose constants print as `consts`: the layout of the
/// whole term at the origin, connected to the left of it, with its links
/// resolved.
pub open spec fn layout(e: LamExpr, consts: Seq<Seq<char>>) -> MinoSpec {
    link_spec(gen_spec(e, 0, false, seq![], (0, 0), (-1, 0), 1, consts).0)
}

impl LambdaBox<String> {
    /// The drawing of the term (see `layout`).
    pub fn gen_mino(&self) -> (r: LambdaMino<String>)
        requires
            size(self.spec_expr()) <= 0x1500_0000,
        ensures
            r@ == layout(self.spec_expr(), strings(self.spec_consts())),
    {
        proof {
            use_type_invariant(self);
        }
        let mut env: Vec<u64> = Vec::new();
        let (mut mino, _) = gen_mino_context(
            self.expr_ref(),
            0,
            false,
            &mut env,
            (0, 0),
            (-1, 0),
            1,
            self.consts_ref(),
        );
        proof {
            assert(env@ =~= seq![]);
        }
        mino.update_link();
        mino
    }
}

/// A drawing fits the box of side `size(e)` at the origin: every square lies
/// in it, and every connection stays in it but that of the square at the
/// origin, which goes one column to the right of it; no two squares share a
/// key.
pub proof fn law_layout_fits(e: LamExpr, consts: Seq<Seq<char>>)
    requires
        size(e) <= 0x1500_0000,
    ensures
        keys_distinct(layout(e, consts).squares),
        forall|i: int|
            0 <= i < layout(e, consts).squares.len() ==> in_box(
                #[trigger] layout(e, consts).squares[i].1.pos,
                (0, 0),
                size(e) as int,
            ) && (in_box(layout(e, consts).squares[i].1.target, (0, 0), size(e) as int) || (
            layout(e, consts).squares[i].1.pos == (0int, 0int) && layout(e, consts).squares[i].1.target
                == (-1int, 0int))),
{
    lemma_gen(e, 0, false, seq![], (0, 0), (-1, 0), 1, consts);
    let m = gen_spec(e, 0, false, seq![], (0, 0), (-1, 0), 1, consts).0;
    let l = layout(e, consts);
    assert forall|i: int| 0 <= i < l.squares.len() implies l.squares[i].0 == m.squares[i].0
        && #[trigger] l.squares[i].1.pos == m.squares[i].1.pos && l.squares[i].1.target == m.squares[i].1.target by {}
    assert forall|i: int, j: int|
        #![trigger l.squares[i], l.squares[j]]
        0 <= i < j < l.squares.len() implies l.squares[i].0 != l.squares[j].0 by {
        assert(m.squares[i].0 != m.squares[j].0);
    }
}


/// Some square with key `r` is an abstraction's.
pub open spec fn lam_keyed(s: Seq<(u64, SquareSpec)>, r: u64) -> bool {
    exists|j: int| 0 <= j < s.len() && #[trigger] s[j].0 == r && s[j].1.kind is Lam
}

/// Every variable's square names an identity of `env` or the key of an
/// abstraction's square.
pub open spec fn links_known(s: Seq<(u64, SquareSpec)>, env: Seq<u64>) -> bool {
    forall|i: int|
        0 <= i < s.len() && (#[trigger] s[i].1.kind) is Link ==> env.contains(s[i].1.kind->Link_0)
            || lam_keyed(s, s[i].1.kind->Link_0)
}

/// In the layout of a term without frozen copies, every variable names an
/// enclosing abstraction outside the term or an abstraction drawn within it.
proof fn lemma_gen_links(
    e: LamExpr,
    sq_key: u64,
    env: Seq<u64>,
    pos: (int, int),
    target: (int, int),
    next: u64,
    consts: Seq<Seq<char>>,
)
    requires
        plain(e),
    ensures
        links_known(gen_spec(e, sq_key, false, env, pos, target, next, consts).0.squares, env),
    decreases e,
{
    let r = gen_spec(e, sq_key, false, env, pos, target, next, consts);
    match e {
        LamExpr::Var(k, _) => {
            if k < env.len() {
                let x = env[env.len() - 1 - k];
                assert(env[env.len() - 1 - k] == x);
                assert(r.0.squares[0].1.kind == SqKind::Link(x, (0, 0)));
            }
        },
        LamExpr::Lam(_, b) => {
            let env2 = env.push(sq_key);
            lemma_gen_links(*b, next, env2, (pos.0 + 1, pos.1), pos, (next + 1) as u64, consts);
            let rb = gen_spec(*b, next, false, env2, (pos.0 + 1, pos.1), pos, (next + 1) as u64, consts);
            let s = r.0.squares;
            let sb = rb.0.squares;
            assert(s == sb.push((sq_key, SquareSpec { pos, target, kind: SqKind::Lam })));
            assert(lam_keyed(s, sq_key)) by {
                assert(s[sb.len() as int].0 == sq_key);
            }
            assert forall|i: int| 0 <= i < s.len() && (#[trigger] s[i].1.kind) is Link implies env.contains(
                s[i].1.kind->Link_0,
            ) || lam_keyed(s, s[i].1.kind->Link_0) by {
                assert(s[i] == sb[i]);
                let x = sb[i].1.kind->Link_0;
                if env2.contains(x) {
                    let w = choose|w: int| 0 <= w < env2.len() && env2[w] == x;
                    if w < env.len() {
                        assert(env[w] == x);
                    }
                } else {
                    let j = choose|j: int| 0 <= j < sb.len() && #[trigger] sb[j].0 == x && sb[j].1.kind is Lam;
                    assert(s[j] == sb[j]);
                }
            }
        },
        LamExpr::App(f, g) => {
            lemma_gen_links(*f, next, env, (0, 0), (-1, 0), (next + 2) as u64, consts);
            let rf = gen_spec(*f, next, false, env, (0, 0), (-1, 0), (next + 2) as u64, consts);
            lemma_gen_links(*g, (next + 1) as u64, env, (0, 0), (-1, 0), rf.1, consts);
            let rg = gen_spec(*g, (next + 1) as u64, false, env, (0, 0), (-1, 0), rf.1, consts);
            let a = move_spec(rf.0, (1, 0), (0, 0));
            let d = lift(put_absent(a.up, 0, 0), rg.0.down);
            let o = move_spec(rg.0, (0, d), (0, 0));
            let c = combine_spec(rf.0, rg.0);
            assert(c.squares == a.squares + o.squares);
            let mv = move_spec(c, pos, target);
            let s = r.0.squares;
            assert(s == mv.squares.push((sq_key, SquareSpec { pos, target, kind: SqKind::App })));
            // each square of the result comes from the function's or the argument's layout
            assert forall|i: int| 0 <= i < s.len() && (#[trigger] s[i].1.kind) is Link implies env.contains(
                s[i].1.kind->Link_0,
            ) || lam_keyed(s, s[i].1.kind->Link_0) by {
                assert(s[i] == mv.squares[i]);
                assert(mv.squares[i].0 == c.squares[i].0 && mv.squares[i].1.kind == c.squares[i].1.kind);
                let la = a.squares.len();
                if i < la {
                    assert(c.squares[i] == a.squares[i]);
                    let x = rf.0.squares[i].1.kind->Link_0;
                    if !env.contains(x) {
                        let j = choose|j: int|
                            0 <= j < rf.0.squares.len() && #[trigger] rf.0.squares[j].0 == x
                                && rf.0.squares[j].1.kind is Lam;
                        assert(c.squares[j] == a.squares[j]);
                        assert(s[j] == mv.squares[j]);
                        assert(mv.squares[j].0 == c.squares[j].0 && mv.squares[j].1.kind == c.squares[j].1.kind);
                    }
                } else {
                    let i2 = i - la;
                    assert(c.squares[i] == o.squares[i2]);
                    let x = rg.0.squares[i2].1.kind->Link_0;
                    if !env.contains(x) {
                        let j = choose|j: int|
                            0 <= j < rg.0.squares.len() && #[trigger] rg.0.squares[j].0 == x
                                && rg.0.squares[j].1.kind is Lam;
                        assert(c.squares[j + la] == o.squares[j]);
                        assert(s[j + la] == mv.squares[j + la]);
                        assert(mv.squares[j + la].0 == c.squares[j + la].0 && mv.squares[j + la].1.kind
                            == c.squares[j + la].1.kind);
                    }
                }
            }
        },
        _ => {},
    }
}

/// In the drawing of a term without frozen copies, every variable's square
/// is linked to the square of an abstraction: the one whose key the link
/// names, and it holds that square's position.
pub proof fn law_links_resolve(e: LamExpr, consts: Seq<Seq<char>>)
    requires
        plain(e),
        size(e) <= 0x1500_0000,
    ensures
        ({
            let l = layout(e, consts).squares;
            forall|i: int|
                0 <= i < l.len() && (#[trigger] l[i].1.kind) is Link ==> exists|j: int|
                    0 <= j < l.len() && #[trigger] l[j].0 == l[i].1.kind->Link_0 && l[j].1.kind is Lam
                        && l[j].1.pos == l[i].1.kind->Link_1
        }),
{
    lemma_gen(e, 0, false, seq![], (0, 0), (-1, 0), 1, consts);
    lemma_gen_links(e, 0, seq![], (0, 0), (-1, 0), 1, consts);
    let m = gen_spec(e, 0, false, seq![], (0, 0), (-1, 0), 1, consts).0.squares;
    let l = layout(e, consts).squares;
    assert forall|i: int| 0 <= i < l.len() && (#[trigger] l[i].1.kind) is Link implies exists|j: int|
        0 <= j < l.len() && #[trigger] l[j].0 == l[i].1.kind->Link_0 && l[j].1.kind is Lam && l[j].1.pos
            == l[i].1.kind->Link_1 by {
        assert(l[i] == (m[i].0, resolve_sq(m[i].1, m)));
        let x = m[i].1.kind->Link_0;
        assert(!seq![].contains(x));
        let w = choose|w: int| 0 <= w < m.len() && #[trigger] m[w].0 == x && m[w].1.kind is Lam;
        lemma_key_idx(m, x);
        let j = key_idx(m, x)->0 as int;
        if j != w {
            if j < w {
                assert(m[j].0 != m[w].0);
            } else {
                assert(m[w].0 != m[j].0);
            }
        }
        assert(l[j] == (m[j].0, resolve_sq(m[j].1, m)));
    }
}


/// The number of squares that draw `e` under `n` enclosing abstractions: one
/// for each application, abstraction and constant, and one for each
/// occurrence of a bound variable (direct or inside a frozen copy); free
/// variables get none.
pub open spec fn square_count(e: LamExpr, n: nat) -> nat
    decreases e,
{
    match e {
        LamExpr::Var(k, _) => if k < n {
            1
        } else {
            0
        },
        LamExpr::Free(_, _) => 0,
        LamExpr::Con(_) => 1,
        LamExpr::Lam(_, b) => 1 + square_count(*b, n + 1),
        LamExpr::App(f, g) => 1 + square_count(*f, n) + square_count(*g, n),
        LamExpr::Borrow(x) => square_count(*x, n),
    }
}

proof fn lemma_gen_count(
    e: LamExpr,
    sq_key: u64,
    own_fresh: bool,
    env: Seq<u64>,
    pos: (int, int),
    target: (int, int),
    next: u64,
    consts: Seq<Seq<char>>,
)
    ensures
        gen_spec(e, sq_key, own_fresh, env, pos, target, next, consts).0.squares.len() == square_count(
            e,
            env.len(),
        ),
    decreases e,
{
    let own = if own_fresh {
        next
    } else {
        sq_key
    };
    let n1: u64 = if own_fresh {
        (next + 1) as u64
    } else {
        next
    };
    match e {
        LamExpr::Lam(_, b) => {
            lemma_gen_count(*b, n1, false, env.push(own), (pos.0 + 1, pos.1), pos, (n1 + 1) as u64, consts);
        },
        LamExpr::App(f, g) => {
            lemma_gen_count(*f, n1, false, env, (0, 0), (-1, 0), (n1 + 2) as u64, consts);
            let rf = gen_spec(*f, n1, false, env, (0, 0), (-1, 0), (n1 + 2) as u64, consts);
            lemma_gen_count(*g, (n1 + 1) as u64, false, env, (0, 0), (-1, 0), rf.1, consts);
        },
        LamExpr::Borrow(x) => {
            lemma_gen_count(*x, sq_key, true, env, pos, target, n1, consts);
        },
        _ => {},
    }
}

/// The drawing of a term has one square for each application, abstraction
/// and constant and for each occurrence of a variable that an abstraction of
/// the term binds (see `square_count`).
pub proof fn law_square_count(e: LamExpr, consts: Seq<Seq<char>>)
    ensures
        layout(e, consts).squares.len() == square_count(e, 0),
{
    lemma_gen_count(e, 0, false, seq![], (0, 0), (-1, 0), 1, consts);
}


/// The connections of a layout placed at `p` and connected to `t`: the
/// square at `p`, if any, is the only one there and connects to `t`; every
/// other square connects to the place one column back in its row (its column
/// less one), or to a lower place of its own column.
pub open spec fn shaped(s: Seq<(u64, SquareSpec)>, p: (int, int), t: (int, int)) -> bool {
    &&& forall|i: int| 0 <= i < s.len() && #[trigger] s[i].1.pos == p ==> s[i].1.target == t
    &&& forall|i: int, j: int|
        #![trigger s[i], s[j]]
        0 <= i < s.len() && 0 <= j < s.len() && s[i].1.pos == p && s[j].1.pos == p ==> i == j
    &&& forall|i: int|
        0 <= i < s.len() && #[trigger] s[i].1.pos != p ==> connects_back(s[i].1)
}

/// A square connects one column back in its row, or lower in its own column.
pub open spec fn connects_back(sq: SquareSpec) -> bool {
    sq.target == (sq.pos.0 - 1, sq.pos.1) || (sq.target.0 == sq.pos.0 && sq.target.1 < sq.pos.1)
}

/// Moving keeps the connections of the squares not at the origin.
proof fn lemma_move_shape(m: MinoSpec, o: (int, int), t: (int, int))
    ensures
        forall|i: int|
            0 <= i < m.squares.len() && m.squares[i].1.pos != (0int, 0int) && connects_back(
                m.squares[i].1,
            ) ==> connects_back(#[trigger] move_spec(m, o, t).squares[i].1),
        forall|i: int|
            0 <= i < m.squares.len() ==> (#[trigger] move_spec(m, o, t).squares[i]).1.pos == (
            m.squares[i].1.pos.0 + o.0,
            m.squares[i].1.pos.1 + o.1,
        ),
{
}

proof fn lemma_gen_shape(
    e: LamExpr,
    sq_key: u64,
    own_fresh: bool,
    env: Seq<u64>,
    pos: (int, int),
    target: (int, int),
    next: u64,
    consts: Seq<Seq<char>>,
)
    requires
        sq_key < next,
        next + 3 * size(e) <= u64::MAX,
    ensures
        shaped(gen_spec(e, sq_key, own_fresh, env, pos, target, next, consts).0.squares, pos, target),
    decreases e,
{
    let r = gen_spec(e, sq_key, own_fresh, env, pos, target, next, consts);
    let own = if own_fresh {
        next
    } else {
        sq_key
    };
    let n1: u64 = if own_fresh {
        (next + 1) as u64
    } else {
        next
    };
    match e {
        LamExpr::Lam(_, b) => {
            let pb = (pos.0 + 1, pos.1);
            lemma_gen_shape(*b, n1, false, env.push(own), pb, pos, (n1 + 1) as u64, consts);
            lemma_gen(*b, n1, false, env.push(own), pb, pos, (n1 + 1) as u64, consts);
            let mb = gen_spec(*b, n1, false, env.push(own), pb, pos, (n1 + 1) as u64, consts).0;
            let sb = mb.squares;
            let s = r.0.squares;
            assert(s == sb.push((sq_key, SquareSpec { pos, target, kind: SqKind::Lam })));
            assert forall|i: int| 0 <= i < sb.len() implies (#[trigger] s[i]).1.pos != pos && connects_back(
                s[i].1,
            ) by {
                assert(s[i] == sb[i]);
                assert(in_box(sb[i].1.pos, pb, size(*b) as int));
                if sb[i].1.pos == pb {
                    assert(sb[i].1.target == pos);
                }
            }
            assert forall|i: int, j: int|
                #![trigger s[i], s[j]]
                0 <= i < s.len() && 0 <= j < s.len() && s[i].1.pos == pos && s[j].1.pos == pos implies i
                == j by {
                if i < sb.len() {
                    assert(s[i].1.pos != pos);
                }
                if j < sb.len() {
                    assert(s[j].1.pos != pos);
                }
            }
            assert forall|i: int| 0 <= i < s.len() && #[trigger] s[i].1.pos == pos implies s[i].1.target
                == target by {
                if i < sb.len() {
                    assert(s[i].1.pos != pos);
                }
            }
        },
        LamExpr::App(f, g) => {
            lemma_gen_shape(*f, n1, false, env, (0, 0), (-1, 0), (n1 + 2) as u64, consts);
            lemma_gen(*f, n1, false, env, (0, 0), (-1, 0), (n1 + 2) as u64, consts);
            let rf = gen_spec(*f, n1, false, env, (0, 0), (-1, 0), (n1 + 2) as u64, consts);
            lemma_gen_shape(*g, (n1 + 1) as u64, false, env, (0, 0), (-1, 0), rf.1, consts);
            lemma_gen(*g, (n1 + 1) as u64, false, env, (0, 0), (-1, 0), rf.1, consts);
            let rg = gen_spec(*g, (n1 + 1) as u64, false, env, (0, 0), (-1, 0), rf.1, consts);
            let sf = size(*f) as int;
            let sg = size(*g) as int;
            lemma_combine_tight(rf.0, rg.0, sf, sg);
            let a = move_spec(rf.0, (1, 0), (0, 0));
            let d = lift(put_absent(a.up, 0, 0), rg.0.down);
            let o = move_spec(rg.0, (0, d), (0, 0));
            let c = combine_spec(rf.0, rg.0);
            assert(c.squares == a.squares + o.squares);
            lemma_move_shape(rf.0, (1, 0), (0, 0));
            lemma_move_shape(rg.0, (0, d), (0, 0));
            // in the combined layout no square is at the origin, and each connects back
            assert forall|i: int| 0 <= i < c.squares.len() implies (#[trigger] c.squares[i]).1.pos != (0int, 0int)
                && connects_back(c.squares[i].1) by {
                if i < a.squares.len() {
                    assert(c.squares[i] == a.squares[i]);
                    assert(in_box(rf.0.squares[i].1.pos, (0, 0), sf));
                    if rf.0.squares[i].1.pos == (0int, 0int) {
                        assert(rf.0.squares[i].1.target == (-1int, 0int));
                    }
                } else {
                    let i2 = i - a.squares.len();
                    assert(c.squares[i] == o.squares[i2]);
                    assert(in_box(rg.0.squares[i2].1.pos, (0, 0), sg));
                    if rg.0.squares[i2].1.pos == (0int, 0int) {
                        assert(rg.0.squares[i2].1.target == (-1int, 0int));
                    }
                }
            }
            lemma_move_shape(c, pos, target);
            let mv = move_spec(c, pos, target);
            let s = r.0.squares;
            assert(s == mv.squares.push((own, SquareSpec { pos, target, kind: SqKind::App })));
            assert forall|i: int| 0 <= i < mv.squares.len() implies (#[trigger] s[i]).1.pos != pos && connects_back(
                s[i].1,
            ) by {
                assert(s[i] == mv.squares[i]);
                assert(c.squares[i].1.pos != (0int, 0int));
            }
            assert forall|i: int, j: int|
                #![trigger s[i], s[j]]
                0 <= i < s.len() && 0 <= j < s.len() && s[i].1.pos == pos && s[j].1.pos == pos implies i
                == j by {
                if i < mv.squares.len() {
                    assert(s[i].1.pos != pos);
                }
                if j < mv.squares.len() {
                    assert(s[j].1.pos != pos);
                }
            }
            assert forall|i: int| 0 <= i < s.len() && #[trigger] s[i].1.pos == pos implies s[i].1.target
                == target by {
                if i < mv.squares.len() {
                    assert(s[i].1.pos != pos);
                }
            }
        },
        LamExpr::Borrow(x) => {
            lemma_gen_shape(*x, sq_key, true, env, pos, target, n1, consts);
        },
        _ => {},
    }
}

/// Every square not at `p` connects to the place of another square.
pub open spec fn parented(s: Seq<(u64, SquareSpec)>, p: (int, int)) -> bool {
    forall|i: int|
        0 <= i < s.len() && (#[trigger] s[i]).1.pos != p ==> exists|j: int|
            0 <= j < s.len() && #[trigger] s[j].1.pos == s[i].1.target
}

proof fn lemma_gen_parent(
    e: LamExpr,
    sq_key: u64,
    own_fresh: bool,
    env: Seq<u64>,
    pos: (int, int),
    target: (int, int),
    next: u64,
    consts: Seq<Seq<char>>,
)
    requires
        sq_key < next,
        next + 3 * size(e) <= u64::MAX,
    ensures
        parented(gen_spec(e, sq_key, own_fresh, env, pos, target, next, consts).0.squares, pos),
    decreases e,
{
    let r = gen_spec(e, sq_key, own_fresh, env, pos, target, next, consts);
    let own = if own_fresh {
        next
    } else {
        sq_key
    };
    let n1: u64 = if own_fresh {
        (next + 1) as u64
    } else {
        next
    };
    match e {
        LamExpr::Lam(_, b) => {
            let pb = (pos.0 + 1, pos.1);
            lemma_gen_parent(*b, n1, false, env.push(own), pb, pos, (n1 + 1) as u64, consts);
            lemma_gen_shape(*b, n1, false, env.push(own), pb, pos, (n1 + 1) as u64, consts);
            lemma_gen(*b, n1, false, env.push(own), pb, pos, (n1 + 1) as u64, consts);
            let sb = gen_spec(*b, n1, false, env.push(own), pb, pos, (n1 + 1) as u64, consts).0.squares;
            let s = r.0.squares;
            let last = sb.len() as int;
            assert(s == sb.push((sq_key, SquareSpec { pos, target, kind: SqKind::Lam })));
            assert forall|i: int| 0 <= i < s.len() && (#[trigger] s[i]).1.pos != pos implies exists|j: int|
                0 <= j < s.len() && #[trigger] s[j].1.pos == s[i].1.target by {
                assert(i < last);
                assert(s[i] == sb[i]);
                if sb[i].1.pos == pb {
                    assert(s[last].1.pos == s[i].1.target);
                } else {
                    let j = choose|j: int| 0 <= j < sb.len() && #[trigger] sb[j].1.pos == sb[i].1.target;
                    assert(s[j] == sb[j]);
                }
            }
        },
        LamExpr::App(f, g) => {
            lemma_gen_parent(*f, n1, false, env, (0, 0), (-1, 0), (n1 + 2) as u64, consts);
            lemma_gen_shape(*f, n1, false, env, (0, 0), (-1, 0), (n1 + 2) as u64, consts);
            lemma_gen(*f, n1, false, env, (0, 0), (-1, 0), (n1 + 2) as u64, consts);
            let rf = gen_spec(*f, n1, false, env, (0, 0), (-1, 0), (n1 + 2) as u64, consts);
            lemma_gen_parent(*g, (n1 + 1) as u64, false, env, (0, 0), (-1, 0), rf.1, consts);
            lemma_gen_shape(*g, (n1 + 1) as u64, false, env, (0, 0), (-1, 0), rf.1, consts);
            lemma_gen(*g, (n1 + 1) as u64, false, env, (0, 0), (-1, 0), rf.1, consts);
            let rg = gen_spec(*g, (n1 + 1) as u64, false, env, (0, 0), (-1, 0), rf.1, consts);
            let mf = rf.0;
            let mg = rg.0;
            let sf = size(*f) as int;
            let sg = size(*g) as int;
            lemma_combine_tight(mf, mg, sf, sg);
            let a = move_spec(mf, (1, 0), (0, 0));
            let d = lift(put_absent(a.up, 0, 0), mg.down);
            let o = move_spec(mg, (0, d), (0, 0));
            let c = combine_spec(mf, mg);
            assert(c.squares == a.squares + o.squares);
            lemma_move_shape(mf, (1, 0), (0, 0));
            lemma_move_shape(mg, (0, d), (0, 0));
            lemma_move_shape(c, pos, target);
            let mv = move_spec(c, pos, target);
            let s = r.0.squares;
            let la = a.squares.len() as int;
            let last = mv.squares.len() as int;
            assert(s == mv.squares.push((own, SquareSpec { pos, target, kind: SqKind::App })));
            assert forall|i: int| 0 <= i < s.len() && (#[trigger] s[i]).1.pos != pos implies exists|j: int|
                0 <= j < s.len() && #[trigger] s[j].1.pos == s[i].1.target by {
                assert(i < last);
                assert(s[i] == mv.squares[i]);
                if i < la {
                    assert(c.squares[i] == a.squares[i]);
                    assert(in_box(mf.squares[i].1.pos, (0, 0), sf));
                    if mf.squares[i].1.pos == (0int, 0int) {
                        assert(s[last].1.pos == s[i].1.target);
                    } else {
                        let j = choose|j: int|
                            0 <= j < mf.squares.len() && #[trigger] mf.squares[j].1.pos == mf.squares[i].1.target;
                        assert(c.squares[j] == a.squares[j]);
                        assert(in_box(mf.squares[j].1.pos, (0, 0), sf));
                        assert(s[j] == mv.squares[j]);
                    }
                } else {
                    let i2 = i - la;
                    assert(c.squares[i] == o.squares[i2]);
                    assert(in_box(mg.squares[i2].1.pos, (0, 0), sg));
                    if mg.squares[i2].1.pos == (0int, 0int) {
                        assert(s[last].1.pos == s[i].1.target);
                    } else {
                        let j = choose|j: int|
                            0 <= j < mg.squares.len() && #[trigger] mg.squares[j].1.pos == mg.squares[i2].1.target;
                        assert(c.squares[j + la] == o.squares[j]);
                        assert(in_box(mg.squares[j].1.pos, (0, 0), sg));
                        assert(s[j + la] == mv.squares[j + la]);
                    }
                }
            }
        },
        LamExpr::Borrow(x) => {
            lemma_gen_parent(*x, sq_key, true, env, pos, target, n1, consts);
        },
        _ => {},
    }
}

/// Whether the top of `e`, under `n` enclosing abstractions, is drawn with a
/// square: anything but a variable that no enclosing abstraction binds.
pub open spec fn rooted(e: LamExpr, n: nat) -> bool
    decreases e,
{
    match e {
        LamExpr::Var(k, _) => k < n,
        LamExpr::Free(_, _) => false,
        LamExpr::Borrow(x) => rooted(*x, n),
        _ => true,
    }
}

proof fn lemma_gen_root(
    e: LamExpr,
    sq_key: u64,
    own_fresh: bool,
    env: Seq<u64>,
    pos: (int, int),
    target: (int, int),
    next: u64,
    consts: Seq<Seq<char>>,
)
    requires
        rooted(e, env.len()),
    ensures
        ({
            let s = gen_spec(e, sq_key, own_fresh, env, pos, target, next, consts).0.squares;
            exists|i: int| 0 <= i < s.len() && #[trigger] s[i].1.pos == pos
        }),
    decreases e,
{
    let r = gen_spec(e, sq_key, own_fresh, env, pos, target, next, consts);
    let s = r.0.squares;
    let n1: u64 = if own_fresh {
        (next + 1) as u64
    } else {
        next
    };
    match e {
        LamExpr::Borrow(x) => {
            lemma_gen_root(*x, sq_key, true, env, pos, target, n1, consts);
        },
        _ => {
            let last = s.len() - 1;
            assert(s[last].1.pos == pos);
        },
    }
}

/// In a drawing, the square at the origin is the only one there and connects
/// to `(-1, 0)`, and there is one unless the term is a variable that nothing
/// in it binds; every other square connects one column back in its row or
/// lower in its own column, to the place of another square.
pub proof fn law_layout_shape(e: LamExpr, consts: Seq<Seq<char>>)
    requires
        size(e) <= 0x1500_0000,
    ensures
        shaped(layout(e, consts).squares, (0, 0), (-1, 0)),
        parented(layout(e, consts).squares, (0, 0)),
        rooted(e, 0) ==> exists|i: int|
            0 <= i < layout(e, consts).squares.len() && #[trigger] layout(e, consts).squares[i].1.pos == (
            0int,
            0int,
        ),
{
    if rooted(e, 0) {
        lemma_gen_root(e, 0, false, seq![], (0, 0), (-1, 0), 1, consts);
        let m = gen_spec(e, 0, false, seq![], (0, 0), (-1, 0), 1, consts).0;
        let i = choose|i: int| 0 <= i < m.squares.len() && #[trigger] m.squares[i].1.pos == (0int, 0int);
        assert(layout(e, consts).squares[i].1.pos == (0int, 0int));
    }
    lemma_gen_shape(e, 0, false, seq![], (0, 0), (-1, 0), 1, consts);
    lemma_gen_parent(e, 0, false, seq![], (0, 0), (-1, 0), 1, consts);
    let m = gen_spec(e, 0, false, seq![], (0, 0), (-1, 0), 1, consts).0;
    let l = layout(e, consts).squares;
    assert forall|i: int| 0 <= i < l.len() implies (#[trigger] l[i]).1.pos == m.squares[i].1.pos
        && l[i].1.target == m.squares[i].1.target by {}
    assert forall|i: int, j: int|
        #![trigger l[i], l[j]]
        0 <= i < l.len() && 0 <= j < l.len() && l[i].1.pos == (0int, 0int) && l[j].1.pos == (0int, 0int) implies i
        == j by {
        assert(m.squares[i].1.pos == (0int, 0int) && m.squares[j].1.pos == (0int, 0int));
    }
    assert forall|i: int| 0 <= i < l.len() && #[trigger] l[i].1.pos != (0int, 0int) implies connects_back(
        l[i].1,
    ) by {
        assert(m.squares[i].1.pos != (0int, 0int));
    }
    assert forall|i: int| 0 <= i < l.len() && (#[trigger] l[i]).1.pos != (0int, 0int) implies exists|j: int|
        0 <= j < l.len() && #[trigger] l[j].1.pos == l[i].1.target by {
        let j = choose|j: int| 0 <= j < m.squares.len() && #[trigger] m.squares[j].1.pos == m.squares[i].1.target;
        assert(l[j].1.pos == m.squares[j].1.pos);
    }
}


/// A square that is drawn with a sign: any but a variable's.
pub open spec fn signed(sq: SquareSpec) -> bool {
    !(sq.kind is Link)
}

/// Placed at `p`, the signed squares span `w` columns and `h` rows: every
/// one lies in them, one lies in the last column and one in the last row;
/// both are 0 exactly where there is no signed square.
pub open spec fn spans(s: Seq<(u64, SquareSpec)>, p: (int, int), w: int, h: int) -> bool {
    &&& forall|i: int|
        0 <= i < s.len() && signed(#[trigger] s[i].1) ==> s[i].1.pos.0 - p.0 < w && s[i].1.pos.1 - p.1 < h
    &&& w > 0 ==> exists|i: int| 0 <= i < s.len() && signed(#[trigger] s[i].1) && s[i].1.pos.0 - p.0 == w - 1
    &&& h > 0 ==> exists|i: int| 0 <= i < s.len() && signed(#[trigger] s[i].1) && s[i].1.pos.1 - p.1 == h - 1
    &&& (w == 0 <==> forall|i: int| 0 <= i < s.len() ==> !signed(#[trigger] s[i].1))
    &&& (h == 0 <==> w == 0)
}

proof fn lemma_gen_extent(
    e: LamExpr,
    sq_key: u64,
    own_fresh: bool,
    env: Seq<u64>,
    pos: (int, int),
    target: (int, int),
    next: u64,
    consts: Seq<Seq<char>>,
)
    requires
        sq_key < next,
        next + 3 * size(e) <= u64::MAX,
    ensures
        ({
            let m = gen_spec(e, sq_key, own_fresh, env, pos, target, next, consts).0;
            &&& spans(m.squares, pos, m.width, m.height)
            &&& m.width == 0 ==> m.up.len() == 0 && m.down.len() == 0
        }),
    decreases e,
{
    let r = gen_spec(e, sq_key, own_fresh, env, pos, target, next, consts);
    lemma_gen(e, sq_key, own_fresh, env, pos, target, next, consts);
    let own = if own_fresh {
        next
    } else {
        sq_key
    };
    let n1: u64 = if own_fresh {
        (next + 1) as u64
    } else {
        next
    };
    match e {
        LamExpr::Var(k, _) => {
            let s = r.0.squares;
            if k < env.len() {
                assert forall|i: int| 0 <= i < s.len() implies !signed(#[trigger] s[i].1) by {
                    assert(i == 0);
                }
            }
        },
        LamExpr::Con(_) => {
            let s = r.0.squares;
            assert(signed(s[0].1));
        },
        LamExpr::Lam(_, b) => {
            let pb = (pos.0 + 1, pos.1);
            lemma_gen_extent(*b, n1, false, env.push(own), pb, pos, (n1 + 1) as u64, consts);
            lemma_gen(*b, n1, false, env.push(own), pb, pos, (n1 + 1) as u64, consts);
            let mb = gen_spec(*b, n1, false, env.push(own), pb, pos, (n1 + 1) as u64, consts).0;
            let sb = mb.squares;
            let s = r.0.squares;
            let w = r.0.width;
            let h = r.0.height;
            let last = sb.len() as int;
            assert(s == sb.push((sq_key, SquareSpec { pos, target, kind: SqKind::Lam })));
            assert(signed(s[last].1));
            assert forall|i: int| 0 <= i < s.len() && signed(#[trigger] s[i].1) implies s[i].1.pos.0 - pos.0 < w
                && s[i].1.pos.1 - pos.1 < h by {
                if i < last {
                    assert(s[i] == sb[i]);
                    assert(signed(sb[i].1));
                }
            }
            if mb.width > 0 {
                let j = choose|j: int| 0 <= j < sb.len() && signed(#[trigger] sb[j].1) && sb[j].1.pos.0 - pb.0
                    == mb.width - 1;
                assert(s[j] == sb[j]);
                assert(signed(s[j].1));
            }
            if mb.height >= 1 {
                let j = choose|j: int| 0 <= j < sb.len() && signed(#[trigger] sb[j].1) && sb[j].1.pos.1 - pb.1
                    == mb.height - 1;
                assert(s[j] == sb[j]);
                assert(signed(s[j].1));
            }
        },
        LamExpr::App(f, g) => {
            lemma_gen_extent(*f, n1, false, env, (0, 0), (-1, 0), (n1 + 2) as u64, consts);
            lemma_gen(*f, n1, false, env, (0, 0), (-1, 0), (n1 + 2) as u64, consts);
            let rf = gen_spec(*f, n1, false, env, (0, 0), (-1, 0), (n1 + 2) as u64, consts);
            lemma_gen_extent(*g, (n1 + 1) as u64, false, env, (0, 0), (-1, 0), rf.1, consts);
            lemma_gen(*g, (n1 + 1) as u64, false, env, (0, 0), (-1, 0), rf.1, consts);
            let rg = gen_spec(*g, (n1 + 1) as u64, false, env, (0, 0), (-1, 0), rf.1, consts);
            let mf = rf.0;
            let mg = rg.0;
            lemma_combine_tight(mf, mg, size(*f) as int, size(*g) as int);
            let a = move_spec(mf, (1, 0), (0, 0));
            let d = lift(put_absent(a.up, 0, 0), mg.down);
            let o = move_spec(mg, (0, d), (0, 0));
            let c = combine_spec(mf, mg);
            assert(c.squares == a.squares + o.squares);
            lemma_move_shape(mf, (1, 0), (0, 0));
            lemma_move_shape(mg, (0, d), (0, 0));
            lemma_move_shape(c, pos, target);
            let mv = move_spec(c, pos, target);
            let s = r.0.squares;
            let w = r.0.width;
            let h = r.0.height;
            assert(w == c.width && h == c.height);
            let la = a.squares.len() as int;
            let last = mv.squares.len() as int;
            assert(s == mv.squares.push((own, SquareSpec { pos, target, kind: SqKind::App })));
            assert(signed(s[last].1));
            if mg.width == 0 {
                assert(mg.down.len() == 0);
                assert(mg.down.map_values(|q: (int, int)| or0(get(put_absent(a.up, 0, 0), q.0)) - q.1)
                    =~= Seq::<int>::empty());
                assert(d == 1);
            }
            // the squares of the combined layout, relative to the origin
            assert forall|i: int| 0 <= i < s.len() && signed(#[trigger] s[i].1) implies s[i].1.pos.0 - pos.0 < w
                && s[i].1.pos.1 - pos.1 < h by {
                if i < last {
                    assert(s[i] == mv.squares[i]);
                    if i < la {
                        assert(c.squares[i] == a.squares[i]);
                        assert(signed(mf.squares[i].1));
                    } else {
                        assert(c.squares[i] == o.squares[i - la]);
                        assert(signed(mg.squares[i - la].1));
                    }
                }
            }
            // a square in the last column
            if mf.width + 1 >= mg.width {
                if mf.width > 0 {
                    let j = choose|j: int| 0 <= j < mf.squares.len() && signed(#[trigger] mf.squares[j].1)
                        && mf.squares[j].1.pos.0 == mf.width - 1;
                    assert(c.squares[j] == a.squares[j]);
                    assert(s[j] == mv.squares[j]);
                    assert(signed(s[j].1));
                }
            } else {
                let j = choose|j: int| 0 <= j < mg.squares.len() && signed(#[trigger] mg.squares[j].1)
                    && mg.squares[j].1.pos.0 == mg.width - 1;
                assert(c.squares[j + la] == o.squares[j]);
                assert(s[j + la] == mv.squares[j + la]);
                assert(signed(s[j + la].1));
            }
            // a square in the last row
            let h1 = if mf.height >= 1 {
                mf.height
            } else {
                1
            };
            if h1 >= mg.height + d {
                if mf.height >= 1 {
                    let j = choose|j: int| 0 <= j < mf.squares.len() && signed(#[trigger] mf.squares[j].1)
                        && mf.squares[j].1.pos.1 == mf.height - 1;
                    assert(c.squares[j] == a.squares[j]);
                    assert(s[j] == mv.squares[j]);
                    assert(signed(s[j].1));
                }
            } else {
                assert(mg.height > 0);
                let j = choose|j: int| 0 <= j < mg.squares.len() && signed(#[trigger] mg.squares[j].1)
                    && mg.squares[j].1.pos.1 == mg.height - 1;
                assert(c.squares[j + la] == o.squares[j]);
                assert(s[j + la] == mv.squares[j + la]);
                assert(signed(s[j + la].1));
            }
        },
        LamExpr::Borrow(x) => {
            lemma_gen_extent(*x, sq_key, true, env, pos, target, n1, consts);
        },
        _ => {},
    }
}

/// In a drawing, the width and the height are the numbers of columns and rows
/// that the signed squares (all but the variables') span from the origin: 0
/// where there is none, else one more than the largest column and row.
pub proof fn law_layout_extent(e: LamExpr, consts: Seq<Seq<char>>)
    requires
        size(e) <= 0x1500_0000,
    ensures
        spans(layout(e, consts).squares, (0, 0), layout(e, consts).width, layout(e, consts).height),
{
    lemma_gen_extent(e, 0, false, seq![], (0, 0), (-1, 0), 1, consts);
    lemma_gen(e, 0, false, seq![], (0, 0), (-1, 0), 1, consts);
    let m = gen_spec(e, 0, false, seq![], (0, 0), (-1, 0), 1, consts).0;
    let l = layout(e, consts).squares;
    assert forall|i: int| 0 <= i < l.len() implies (#[trigger] l[i]).1.pos == m.squares[i].1.pos
        && signed(l[i].1) == signed(m.squares[i].1) by {
        let sq = m.squares[i].1;
        if let SqKind::Link(r, _) = sq.kind {
            lemma_key_idx(m.squares, r);
        }
    }
    if m.width > 0 {
        let j = choose|j: int| 0 <= j < m.squares.len() && signed(#[trigger] m.squares[j].1) && m.squares[j].1.pos.0
            == m.width - 1;
        assert(signed(l[j].1));
    }
    if m.height > 0 {
        let j = choose|j: int| 0 <= j < m.squares.len() && signed(#[trigger] m.squares[j].1) && m.squares[j].1.pos.1
            == m.height - 1;
        assert(signed(l[j].1));
    }
    if m.width == 0 {
        assert forall|i: int| 0 <= i < l.len() implies !signed(#[trigger] l[i].1) by {
            assert(!signed(m.squares[i].1));
        }
    } else {
        let j = choose|j: int| 0 <= j < m.squares.len() && signed(#[trigger] m.squares[j].1) && m.squares[j].1.pos.0
            == m.width - 1;
        assert(signed(l[j].1));
    }
}


/// The outlines of a layout cover its signed squares: for the column of each
/// one, the upper outline holds a row at or above it and the lower outline a
/// row at or below it.
pub open spec fn outlined(m: MinoSpec) -> bool {
    forall|i: int|
        0 <= i < m.squares.len() && signed(#[trigger] m.squares[i].1) ==> (get(
            m.up,
            m.squares[i].1.pos.0,
        ) matches Some(u) && m.squares[i].1.pos.1 <= u) && (get(m.down, m.squares[i].1.pos.0) matches Some(
            d,
        ) && d <= m.squares[i].1.pos.1)
}

/// No two signed squares share a place.
pub open spec fn apart(s: Seq<(u64, SquareSpec)>) -> bool {
    forall|i: int, j: int|
        #![trigger s[i], s[j]]
        0 <= i < s.len() && 0 <= j < s.len() && i != j && signed(s[i].1) && signed(s[j].1) ==> s[i].1.pos
            != s[j].1.pos
}

/// Moving a layout moves its outlines with it and keeps its squares apart.
proof fn lemma_move_apart(m: MinoSpec, o: (int, int), t: (int, int))
    requires
        outlined(m),
        apart(m.squares),
    ensures
        outlined(move_spec(m, o, t)),
        apart(move_spec(m, o, t).squares),
{
    let mv = move_spec(m, o, t);
    lemma_move_shape(m, o, t);
    assert forall|i: int| 0 <= i < mv.squares.len() && signed(#[trigger] mv.squares[i].1) implies (get(
        mv.up,
        mv.squares[i].1.pos.0,
    ) matches Some(u) && mv.squares[i].1.pos.1 <= u) && (get(mv.down, mv.squares[i].1.pos.0) matches Some(
        d,
    ) && d <= mv.squares[i].1.pos.1) by {
        let x = m.squares[i].1.pos.0;
        assert(signed(m.squares[i].1));
        lemma_get_shift(m.up, o.0, o.1, x);
        lemma_get_shift(m.down, o.0, o.1, x);
    }
    assert forall|i: int, j: int|
        #![trigger mv.squares[i], mv.squares[j]]
        0 <= i < mv.squares.len() && 0 <= j < mv.squares.len() && i != j && signed(mv.squares[i].1)
            && signed(mv.squares[j].1) implies mv.squares[i].1.pos != mv.squares[j].1.pos by {
        assert(signed(m.squares[i].1) && signed(m.squares[j].1));
        assert(m.squares[i].1.pos != m.squares[j].1.pos);
    }
}

proof fn lemma_gen_apart(
    e: LamExpr,
    sq_key: u64,
    own_fresh: bool,
    env: Seq<u64>,
    pos: (int, int),
    target: (int, int),
    next: u64,
    consts: Seq<Seq<char>>,
)
    requires
        sq_key < next,
        next + 3 * size(e) <= u64::MAX,
    ensures
        ({
            let m = gen_spec(e, sq_key, own_fresh, env, pos, target, next, consts).0;
            outlined(m) && apart(m.squares)
        }),
    decreases e,
{
    let r = gen_spec(e, sq_key, own_fresh, env, pos, target, next, consts);
    let own = if own_fresh {
        next
    } else {
        sq_key
    };
    let n1: u64 = if own_fresh {
        (next + 1) as u64
    } else {
        next
    };
    match e {
        LamExpr::Var(k, _) => {
            let s = r.0.squares;
            if k < env.len() {
                assert(!signed(s[0].1));
            }
        },
        LamExpr::Con(_) => {
            let m = r.0;
            assert(m.up == put(Seq::<(int, int)>::empty(), pos.0, pos.1));
            assert(m.down == put(Seq::<(int, int)>::empty(), pos.0, pos.1));
            lemma_get_put(Seq::<(int, int)>::empty(), pos.0, pos.1, pos.0);
        },
        LamExpr::Lam(_, b) => {
            let pb = (pos.0 + 1, pos.1);
            lemma_gen_apart(*b, n1, false, env.push(own), pb, pos, (n1 + 1) as u64, consts);
            lemma_gen(*b, n1, false, env.push(own), pb, pos, (n1 + 1) as u64, consts);
            let mb = gen_spec(*b, n1, false, env.push(own), pb, pos, (n1 + 1) as u64, consts).0;
            let sb = mb.squares;
            let m = r.0;
            let s = m.squares;
            let last = sb.len() as int;
            assert(s == sb.push((sq_key, SquareSpec { pos, target, kind: SqKind::Lam })));
            assert forall|i: int| 0 <= i < s.len() && signed(#[trigger] s[i].1) implies (get(
                m.up,
                s[i].1.pos.0,
            ) matches Some(u) && s[i].1.pos.1 <= u) && (get(m.down, s[i].1.pos.0) matches Some(d) && d
                <= s[i].1.pos.1) by {
                lemma_get_put(mb.up, pos.0, pos.1, s[i].1.pos.0);
                lemma_get_put(mb.down, pos.0, pos.1, s[i].1.pos.0);
                if i < last {
                    assert(s[i] == sb[i]);
                    assert(signed(sb[i].1));
                    assert(in_box(sb[i].1.pos, pb, size(*b) as int));
                }
            }
            assert forall|i: int, j: int|
                #![trigger s[i], s[j]]
                0 <= i < s.len() && 0 <= j < s.len() && i != j && signed(s[i].1) && signed(s[j].1) implies s[i].1.pos
                != s[j].1.pos by {
                if i < last && j < last {
                    assert(s[i] == sb[i] && s[j] == sb[j]);
                    assert(sb[i].1.pos != sb[j].1.pos);
                } else if i < last {
                    assert(s[i] == sb[i]);
                    assert(in_box(sb[i].1.pos, pb, size(*b) as int));
                } else {
                    assert(s[j] == sb[j]);
                    assert(in_box(sb[j].1.pos, pb, size(*b) as int));
                }
            }
        },
        LamExpr::App(f, g) => {
            lemma_gen_apart(*f, n1, false, env, (0, 0), (-1, 0), (n1 + 2) as u64, consts);
            lemma_gen(*f, n1, false, env, (0, 0), (-1, 0), (n1 + 2) as u64, consts);
            let rf = gen_spec(*f, n1, false, env, (0, 0), (-1, 0), (n1 + 2) as u64, consts);
            lemma_gen_apart(*g, (n1 + 1) as u64, false, env, (0, 0), (-1, 0), rf.1, consts);
            lemma_gen(*g, (n1 + 1) as u64, false, env, (0, 0), (-1, 0), rf.1, consts);
            let rg = gen_spec(*g, (n1 + 1) as u64, false, env, (0, 0), (-1, 0), rf.1, consts);
            let mf = rf.0;
            let mg = rg.0;
            let sf = size(*f) as int;
            let sg = size(*g) as int;
            lemma_combine_tight(mf, mg, sf, sg);
            let a = move_spec(mf, (1, 0), (0, 0));
            let up1 = put_absent(a.up, 0, 0);
            let down1 = put_absent(a.down, 0, 0);
            let d = lift(up1, mg.down);
            let o = move_spec(mg, (0, d), (0, 0));
            let c = combine_spec(mf, mg);
            assert(c.squares == a.squares + o.squares);
            assert(c.up == merge(up1, o.up, true));
            assert(c.down == merge(down1, o.down, false));
            lemma_move_apart(mf, (1, 0), (0, 0));
            lemma_move_apart(mg, (0, d), (0, 0));
            lemma_move_shape(mf, (1, 0), (0, 0));
            lemma_move_shape(mg, (0, d), (0, 0));
            let la = a.squares.len() as int;
            // the function's signed squares lie right of column 0, under its outline
            assert forall|i: int| 0 <= i < la && signed(#[trigger] a.squares[i].1) implies a.squares[i].1.pos.0
                >= 1 && (get(up1, a.squares[i].1.pos.0) matches Some(u) && a.squares[i].1.pos.1 <= u) && (get(
                down1,
                a.squares[i].1.pos.0,
            ) matches Some(dd) && dd <= a.squares[i].1.pos.1) by {
                assert(in_box(mf.squares[i].1.pos, (0, 0), sf));
                lemma_get_put(a.up, 0, 0, a.squares[i].1.pos.0);
                lemma_get_put(a.down, 0, 0, a.squares[i].1.pos.0);
            }
            // the argument goes above the function's outline
            let vs = mg.down.map_values(|q: (int, int)| or0(get(up1, q.0)) - q.1);
            assert forall|i: int, j: int|
                0 <= i < la && 0 <= j < o.squares.len() && signed(#[trigger] a.squares[i].1) && signed(
                    #[trigger] o.squares[j].1,
                ) && a.squares[i].1.pos.0 == o.squares[j].1.pos.0 implies a.squares[i].1.pos.1 < o.squares[j].1.pos.1 by {
                let x = o.squares[j].1.pos.0;
                assert(signed(mg.squares[j].1));
                assert(mg.squares[j].1.pos.0 == x);
                let dg = get(mg.down, x)->0;
                lemma_first_idx(mg.down, x);
                let k = first_idx(mg.down, x)->0 as int;
                assert(mg.down[k] == (x, dg));
                let u1 = get(up1, x)->0;
                assert(vs[k] == u1 - dg);
                lemma_seq_max_ge(vs, k);
                assert(vs[k] <= or0(seq_max(vs)));
            }
            assert(outlined(c)) by {
                assert forall|i: int| 0 <= i < c.squares.len() && signed(#[trigger] c.squares[i].1) implies (get(
                    c.up,
                    c.squares[i].1.pos.0,
                ) matches Some(u) && c.squares[i].1.pos.1 <= u) && (get(c.down, c.squares[i].1.pos.0) matches Some(
                    dd,
                ) && dd <= c.squares[i].1.pos.1) by {
                    let x = c.squares[i].1.pos.0;
                    lemma_merge_get(up1, o.up, true, x);
                    lemma_merge_get(down1, o.down, false, x);
                    if i < la {
                        assert(c.squares[i] == a.squares[i]);
                    } else {
                        let j = i - la;
                        assert(c.squares[i] == o.squares[j]);
                        lemma_first_idx(o.up, x);
                        lemma_first_idx(o.down, x);
                        let ku = first_idx(o.up, x)->0 as int;
                        let kd = first_idx(o.down, x)->0 as int;
                        assert(o.up[ku].0 == x);
                        assert(o.down[kd].0 == x);
                    }
                }
            }
            assert(apart(c.squares)) by {
                assert forall|i: int, j: int|
                    #![trigger c.squares[i], c.squares[j]]
                    0 <= i < c.squares.len() && 0 <= j < c.squares.len() && i != j && signed(c.squares[i].1)
                        && signed(c.squares[j].1) implies c.squares[i].1.pos != c.squares[j].1.pos by {
                    if i < la && j < la {
                        assert(c.squares[i] == a.squares[i] && c.squares[j] == a.squares[j]);
                    } else if i >= la && j >= la {
                        assert(c.squares[i] == o.squares[i - la] && c.squares[j] == o.squares[j - la]);
                    } else if i < la {
                        assert(c.squares[i] == a.squares[i] && c.squares[j] == o.squares[j - la]);
                        assert(signed(a.squares[i].1) && signed(o.squares[j - la].1));
                    } else {
                        assert(c.squares[j] == a.squares[j] && c.squares[i] == o.squares[i - la]);
                        assert(signed(a.squares[j].1) && signed(o.squares[i - la].1));
                    }
                }
            }
            // no square of the combined layout is at the origin; its outlines reach column 0
            assert forall|i: int| 0 <= i < c.squares.len() implies (#[trigger] c.squares[i]).1.pos != (0int, 0int) by {
                if i < la {
                    assert(c.squares[i] == a.squares[i]);
                    assert(in_box(mf.squares[i].1.pos, (0, 0), sf));
                } else {
                    assert(c.squares[i] == o.squares[i - la]);
                    assert(in_box(mg.squares[i - la].1.pos, (0, 0), sg));
                }
            }
            lemma_get_outside(a.up, 0, 1, sf, 0, sf - 1);
            lemma_get_outside(a.down, 0, 1, sf, 0, sf - 1);
            lemma_get_put(a.up, 0, 0, 0);
            lemma_get_put(a.down, 0, 0, 0);
            lemma_merge_get(up1, o.up, true, 0);
            lemma_merge_get(down1, o.down, false, 0);
            lemma_move_apart(c, pos, target);
            lemma_move_shape(c, pos, target);
            lemma_get_shift(c.up, pos.0, pos.1, 0);
            lemma_get_shift(c.down, pos.0, pos.1, 0);
            let mv = move_spec(c, pos, target);
            let m = r.0;
            let s = m.squares;
            let last = mv.squares.len() as int;
            assert(s == mv.squares.push((own, SquareSpec { pos, target, kind: SqKind::App })));
            assert(m.up == mv.up && m.down == mv.down);
            assert forall|i: int| 0 <= i < s.len() && signed(#[trigger] s[i].1) implies (get(
                m.up,
                s[i].1.pos.0,
            ) matches Some(u) && s[i].1.pos.1 <= u) && (get(m.down, s[i].1.pos.0) matches Some(dd) && dd
                <= s[i].1.pos.1) by {
                if i < last {
                    assert(s[i] == mv.squares[i]);
                    assert(signed(mv.squares[i].1));
                }
            }
            assert forall|i: int, j: int|
                #![trigger s[i], s[j]]
                0 <= i < s.len() && 0 <= j < s.len() && i != j && signed(s[i].1) && signed(s[j].1) implies s[i].1.pos
                != s[j].1.pos by {
                if i < last && j < last {
                    assert(s[i] == mv.squares[i] && s[j] == mv.squares[j]);
                } else if i < last {
                    assert(s[i] == mv.squares[i]);
                    assert(c.squares[i].1.pos != (0int, 0int));
                } else {
                    assert(s[j] == mv.squares[j]);
                    assert(c.squares[j].1.pos != (0int, 0int));
                }
            }
        },
        LamExpr::Borrow(x) => {
            lemma_gen_apart(*x, sq_key, true, env, pos, target, n1, consts);
        },
        _ => {},
    }
}

/// In a drawing, no two squares drawn with a sign (constants, applications,
/// abstractions) share a place: the argument of each application is put above
/// everything its function draws in the same columns.
pub proof fn law_layout_apart(e: LamExpr, consts: Seq<Seq<char>>)
    requires
        size(e) <= 0x1500_0000,
    ensures
        apart(layout(e, consts).squares),
{
    lemma_gen_apart(e, 0, false, seq![], (0, 0), (-1, 0), 1, consts);
    let m = gen_spec(e, 0, false, seq![], (0, 0), (-1, 0), 1, consts).0;
    let l = layout(e, consts).squares;
    assert forall|i: int| 0 <= i < l.len() implies (#[trigger] l[i]).1.pos == m.squares[i].1.pos && signed(
        l[i].1,
    ) == signed(m.squares[i].1) by {
        let sq = m.squares[i].1;
        if let SqKind::Link(r, _) = sq.kind {
            lemma_key_idx(m.squares, r);
        }
    }
    assert forall|i: int, j: int|
        #![trigger l[i], l[j]]
        0 <= i < l.len() && 0 <= j < l.len() && i != j && signed(l[i].1) && signed(l[j].1) implies l[i].1.pos
        != l[j].1.pos by {
        assert(m.squares[i].1.pos != m.squares[j].1.pos);
    }
}

} // verus!
