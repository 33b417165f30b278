//! The block layout ("mino") that draws a term: one square per node, placed on
//! a grid; an abstraction puts its body one column to the left, an application
//! stacks its argument above its function.
use vstd::prelude::*;
use crate::lambda::LambdaRef;
use crate::colmap::{
    pairs, get, put, put_absent, shift_all, merge, or0, seq_max, max_measure, bounded, put_exec,
    put_absent_exec, merge_exec, max_measure_exec, get_exec, lemma_get_bounded, lemma_put_bounded,
    lemma_merge_bounded, lemma_shift_bounded, lemma_seq_max_bounded, measure, lemma_max_measure_bounded,
    within, first_idx, lemma_first_idx, lemma_get_put, lemma_get_shift, lemma_get_outside,
    lemma_get_within, lemma_put_within, lemma_merge_within, lemma_shift_within, lemma_merge_min_keeps,
};
use crate::term::{LamExpr, size};

verus! {

/// What a square shows: a constant, an application, an abstraction, or a
/// variable linked to the square of the abstraction that binds it (with that
/// square's position once links are resolved).
pub enum LambdaSqType<T> {
    MCon(String),
    MApp,
    MLam,
    MLink(LambdaRef<T>, (i32, i32)),
}

/// A square: its position, and the position it connects to.
pub struct LambdaSquare<T> {
    pub pos: (i32, i32),
    pub target: (i32, i32),
    pub sq_type: LambdaSqType<T>,
}

/// The layout of a term: its squares (keyed), the highest and lowest occupied
/// row of each column, and its extents (plain and turned by 45 degrees). The
/// keys number the squares of one layout, from 0; they are not references to
/// the term's variables, and layouts built apart reuse them. A variable's
/// square links to the key of its abstraction's square.
pub struct LambdaMino<T> {
    pub squares: Vec<(LambdaRef<T>, LambdaSquare<T>)>,
    up_convex: Vec<(i32, i32)>,
    down_convex: Vec<(i32, i32)>,
    pub width: i32,
    pub height: i32,
    pub skew_width_l: i32,
    pub skew_width_r: i32,
    pub skew_height: i32,
}

/// What a square shows, as a value.
pub enum SqKind {
    Con(Seq<char>),
    App,
    Lam,
    Link(u64, (int, int)),
}

/// A square as a value.
pub struct SquareSpec {
    pub pos: (int, int),
    pub target: (int, int),
    pub kind: SqKind,
}

/// A layout as a value.
pub struct MinoSpec {
    pub squares: Seq<(u64, SquareSpec)>,
    pub up: Seq<(int, int)>,
    pub down: Seq<(int, int)>,
    pub width: int,
    pub height: int,
    pub skl: int,
    pub skr: int,
    pub skh: int,
}

/// A point as integers.
pub open spec fn pt(p: (i32, i32)) -> (int, int) {
    (p.0 as int, p.1 as int)
}

impl<T> LambdaSqType<T> {
    pub open spec fn kind(&self) -> SqKind {
        match self {
            LambdaSqType::MCon(s) => SqKind::Con(s@),
            LambdaSqType::MApp => SqKind::App,
            LambdaSqType::MLam => SqKind::Lam,
            LambdaSqType::MLink(r, p) => SqKind::Link(r@, pt(*p)),
        }
    }

    /// The sign drawn for the square: the constant's text, `@` for an
    /// application, `/` for an abstraction, nothing for a variable.
    pub fn to_string(&self) -> (s: String)
        ensures
            s@ == (match self.kind() {
                SqKind::Con(c) => c,
                SqKind::App => seq!['@'],
                SqKind::Lam => seq!['/'],
                SqKind::Link(_, _) => Seq::<char>::empty(),
            }),
    {
        proof {
            reveal_strlit("@");
            reveal_strlit("/");
        }
        match self {
            LambdaSqType::MCon(c) => c.clone(),
            LambdaSqType::MApp => String::from_str("@"),
            LambdaSqType::MLam => String::from_str("/"),
            LambdaSqType::MLink(_, _) => String::new(),
        }
    }

    fn copy(&self) -> (r: Self)
        ensures
            r.kind() == self.kind(),
    {
        match self {
            LambdaSqType::MCon(c) => LambdaSqType::MCon(c.clone()),
            LambdaSqType::MApp => LambdaSqType::MApp,
            LambdaSqType::MLam => LambdaSqType::MLam,
            LambdaSqType::MLink(r, p) => LambdaSqType::MLink(r.clone(), *p),
        }
    }
}

impl<T> LambdaSquare<T> {
    pub open spec fn spec(&self) -> SquareSpec {
        SquareSpec { pos: pt(self.pos), target: pt(self.target), kind: self.sq_type.kind() }
    }
}

/// The keyed squares as values.
pub open spec fn square_specs<T>(s: Seq<(LambdaRef<T>, LambdaSquare<T>)>) -> Seq<(u64, SquareSpec)> {
    s.map_values(|e: (LambdaRef<T>, LambdaSquare<T>)| (e.0@, e.1.spec()))
}

impl<T> View for LambdaMino<T> {
    type V = MinoSpec;

    closed spec fn view(&self) -> MinoSpec {
        MinoSpec {
            squares: square_specs(self.squares@),
            up: pairs(self.up_convex@),
            down: pairs(self.down_convex@),
            width: self.width as int,
            height: self.height as int,
            skl: self.skew_width_l as int,
            skr: self.skew_width_r as int,
            skh: self.skew_height as int,
        }
    }
}

/// The empty layout.
pub open spec fn mino_default() -> MinoSpec {
    MinoSpec {
        squares: seq![],
        up: seq![],
        down: seq![],
        width: 0,
        height: 0,
        skl: 0,
        skr: 0,
        skh: 0,
    }
}

/// `p + o`.
pub open spec fn shift_pt(p: (int, int), o: (int, int)) -> (int, int) {
    (p.0 + o.0, p.1 + o.1)
}

/// A square moved by `o`; the square at the origin is connected to `t`.
pub open spec fn move_sq(sq: SquareSpec, o: (int, int), t: (int, int)) -> SquareSpec {
    SquareSpec {
        pos: shift_pt(sq.pos, o),
        target: if sq.pos == (0int, 0int) {
            t
        } else {
            shift_pt(sq.target, o)
        },
        kind: sq.kind,
    }
}

/// A layout built at the origin, moved by `o` and connected to `t` (see `move_sq`).
pub open spec fn move_spec(m: MinoSpec, o: (int, int), t: (int, int)) -> MinoSpec {
    MinoSpec {
        squares: m.squares.map_values(|e: (u64, SquareSpec)| (e.0, move_sq(e.1, o, t))),
        up: shift_all(m.up, o.0, o.1),
        down: shift_all(m.down, o.0, o.1),
        width: m.width,
        height: m.height,
        skl: m.skl,
        skr: m.skr,
        skh: m.skh,
    }
}

/// How far up the argument's layout goes: one above the highest clash between
/// the function's top and the argument's bottom, column by column.
pub open spec fn lift(up: Seq<(int, int)>, down: Seq<(int, int)>) -> int {
    1 + or0(seq_max(down.map_values(|p: (int, int)| or0(get(up, p.0)) - p.1)))
}

/// The layout of an application: the function's layout moves one column
/// left and the application takes the origin; the argument's layout goes on
/// top (see `lift`); the outlines merge and the extents are recomputed.
pub open spec fn combine_spec(m: MinoSpec, other: MinoSpec) -> MinoSpec {
    let a = move_spec(m, (1, 0), (0, 0));
    let up1 = put_absent(a.up, 0, 0);
    let down1 = put_absent(a.down, 0, 0);
    let diff = lift(up1, other.down);
    let o = move_spec(other, (0, diff), (0, 0));
    let up2 = merge(up1, o.up, true);
    let down2 = merge(down1, o.down, false);
    let width1 = a.width + 1;
    let height1 = if a.height >= 1 {
        a.height
    } else {
        1
    };
    MinoSpec {
        squares: a.squares + o.squares,
        up: up2,
        down: down2,
        width: if width1 >= other.width {
            width1
        } else {
            other.width
        },
        height: if height1 >= other.height + diff {
            height1
        } else {
            other.height + diff
        },
        skl: or0(max_measure(down2, 0)) + 1,
        skr: or0(max_measure(up2, 1)) + 1,
        skh: or0(max_measure(up2, 2)) + 2,
    }
}

/// Every coordinate, the width and the height lie in `[-b, b]`, and the
/// extents turned by 45 degrees in `[-2b, 2b]`.
pub open spec fn mino_bounded(m: MinoSpec, b: int) -> bool {
    &&& forall|i: int|
        0 <= i < m.squares.len() ==> -b <= #[trigger] m.squares[i].1.pos.0 <= b && -b
            <= m.squares[i].1.pos.1 <= b && -b <= m.squares[i].1.target.0 <= b && -b
            <= m.squares[i].1.target.1 <= b
    &&& bounded(m.up, b)
    &&& bounded(m.down, b)
    &&& -b <= m.width <= b
    &&& -b <= m.height <= b
    &&& -2 * b <= m.skl <= 2 * b
    &&& -2 * b <= m.skr <= 2 * b
    &&& -2 * b <= m.skh <= 2 * b
}

/// Moving by at most `c` keeps a layout within `b + c`.
pub proof fn lemma_move_bounded(m: MinoSpec, o: (int, int), t: (int, int), b: int, c: int)
    requires
        mino_bounded(m, b),
        0 <= b,
        0 <= c,
        -c <= o.0 <= c,
        -c <= o.1 <= c,
        -(b + c) <= t.0 <= b + c,
        -(b + c) <= t.1 <= b + c,
    ensures
        mino_bounded(move_spec(m, o, t), b + c),
{
    let mm = move_spec(m, o, t);
    assert forall|i: int| 0 <= i < mm.squares.len() implies -(b + c) <= #[trigger] mm.squares[i].1.pos.0
        <= b + c && -(b + c) <= mm.squares[i].1.pos.1 <= b + c && -(b + c)
        <= mm.squares[i].1.target.0 <= b + c && -(b + c) <= mm.squares[i].1.target.1 <= b + c by {
        assert(-b <= m.squares[i].1.pos.0 <= b);
    }
    lemma_shift_bounded(m.up, o.0, o.1, b, c);
    lemma_shift_bounded(m.down, o.0, o.1, b, c);
}

impl<T> LambdaMino<T> {
    /// The empty layout.
    pub fn new() -> (r: Self)
        ensures
            r@ == mino_default(),
    {
        let r = LambdaMino {
            squares: Vec::new(),
            up_convex: Vec::new(),
            down_convex: Vec::new(),
            width: 0,
            height: 0,
            skew_width_l: 0,
            skew_width_r: 0,
            skew_height: 0,
        };
        proof {
            assert(r@.squares =~= seq![]);
            assert(r@.up =~= seq![]);
            assert(r@.down =~= seq![]);
        }
        r
    }

    /// Moves a layout built at the origin by `offset`; the square at the origin
    /// is connected to `target` (see `move_spec`).
    pub fn move_mino(&mut self, offset: (i32, i32), target: (i32, i32))
        requires
            mino_bounded(old(self)@, 0x1500_0000),
            -0x2a00_0002 <= offset.0 <= 0x2a00_0002,
            -0x2a00_0002 <= offset.1 <= 0x2a00_0002,
        ensures
            final(self)@ == move_spec(old(self)@, pt(offset), pt(target)),
    {
        let ghost m0 = self@;
        let mut sq: Vec<(LambdaRef<T>, LambdaSquare<T>)> = Vec::new();
        let mut i: usize = 0;
        while i < self.squares.len()
            invariant
                i <= self.squares@.len(),
                self@ == m0,
                mino_bounded(m0, 0x1500_0000),
                -0x2a00_0002 <= offset.0 <= 0x2a00_0002,
                -0x2a00_0002 <= offset.1 <= 0x2a00_0002,
                square_specs(sq@) =~= m0.squares.take(i as int).map_values(
                    |e: (u64, SquareSpec)| (e.0, move_sq(e.1, pt(offset), pt(target))),
                ),
            decreases self.squares@.len() - i,
        {
            let (k, s) = &self.squares[i];
            proof {
                assert(m0.squares[i as int] == (k@, s.spec()));
                assert(-0x1500_0000 <= m0.squares[i as int].1.pos.0 <= 0x1500_0000);
            }
            let p = s.pos;
            let t = s.target;
            let new_t = if p.0 == 0 && p.1 == 0 {
                target
            } else {
                (t.0 + offset.0, t.1 + offset.1)
            };
            let new_sq = LambdaSquare {
                pos: (p.0 + offset.0, p.1 + offset.1),
                target: new_t,
                sq_type: s.sq_type.copy(),
            };
            let ghost prev = sq@;
            let kc = k.clone();
            proof {
                assert(new_sq.spec() == move_sq(m0.squares[i as int].1, pt(offset), pt(target)));
            }
            sq.push((kc, new_sq));
            proof {
                assert(square_specs(sq@) =~= square_specs(prev).push((k@, new_sq.spec())));
                assert(m0.squares.take(i as int + 1) =~= m0.squares.take(i as int).push(
                    m0.squares[i as int],
                ));
            }
            i = i + 1;
        }
        proof {
            assert(m0.squares.take(self.squares@.len() as int) =~= m0.squares);
        }
        self.squares = sq;
        let mut up: Vec<(i32, i32)> = Vec::new();
        let mut j: usize = 0;
        while j < self.up_convex.len()
            invariant
                j <= self.up_convex@.len(),
                pairs(self.up_convex@) == m0.up,
                bounded(m0.up, 0x1500_0000),
                -0x2a00_0002 <= offset.0 <= 0x2a00_0002,
                -0x2a00_0002 <= offset.1 <= 0x2a00_0002,
                pairs(up@) =~= shift_all(m0.up.take(j as int), offset.0 as int, offset.1 as int),
            decreases self.up_convex@.len() - j,
        {
            let (x, y) = self.up_convex[j];
            proof {
                assert(m0.up[j as int] == (x as int, y as int));
            }
            let ghost prev = up@;
            up.push((x + offset.0, y + offset.1));
            proof {
                assert(pairs(up@) =~= pairs(prev).push((x + offset.0, y + offset.1)));
            }
            proof {
                assert(m0.up.take(j as int + 1) =~= m0.up.take(j as int).push(m0.up[j as int]));
            }
            j = j + 1;
        }
        proof {
            assert(m0.up.take(self.up_convex@.len() as int) =~= m0.up);
        }
        self.up_convex = up;
        let mut down: Vec<(i32, i32)> = Vec::new();
        let mut j: usize = 0;
        while j < self.down_convex.len()
            invariant
                j <= self.down_convex@.len(),
                pairs(self.down_convex@) == m0.down,
                bounded(m0.down, 0x1500_0000),
                -0x2a00_0002 <= offset.0 <= 0x2a00_0002,
                -0x2a00_0002 <= offset.1 <= 0x2a00_0002,
                pairs(down@) =~= shift_all(m0.down.take(j as int), offset.0 as int, offset.1 as int),
            decreases self.down_convex@.len() - j,
        {
            let (x, y) = self.down_convex[j];
            proof {
                assert(m0.down[j as int] == (x as int, y as int));
            }
            let ghost prev = down@;
            down.push((x + offset.0, y + offset.1));
            proof {
                assert(pairs(down@) =~= pairs(prev).push((x + offset.0, y + offset.1)));
            }
            proof {
                assert(m0.down.take(j as int + 1) =~= m0.down.take(j as int).push(m0.down[j as int]));
            }
            j = j + 1;
        }
        proof {
            assert(m0.down.take(self.down_convex@.len() as int) =~= m0.down);
        }
        self.down_convex = down;
    }
}

/// The layout of a constant at `pos`.
pub open spec fn con_mino(key: u64, pos: (int, int), target: (int, int), c: Seq<char>) -> MinoSpec {
    MinoSpec {
        squares: seq![(key, SquareSpec { pos, target, kind: SqKind::Con(c) })],
        up: seq![pos],
        down: seq![pos],
        width: 1,
        height: 1,
        skl: 1,
        skr: 1,
        skh: 2,
    }
}

/// The layout of a variable at `pos`, linked to the abstraction `link`.
pub open spec fn var_mino(key: u64, pos: (int, int), target: (int, int), link: u64) -> MinoSpec {
    MinoSpec {
        squares: seq![(key, SquareSpec { pos, target, kind: SqKind::Link(link, (0, 0)) })],
        up: seq![],
        down: seq![],
        width: 0,
        height: 0,
        skl: 0,
        skr: 0,
        skh: 0,
    }
}

/// The layout of an abstraction at `pos` whose body's layout is `m`.
pub open spec fn lam_mino(m: MinoSpec, key: u64, pos: (int, int), target: (int, int)) -> MinoSpec {
    MinoSpec {
        squares: m.squares.push((key, SquareSpec { pos, target, kind: SqKind::Lam })),
        up: put(m.up, pos.0, pos.1),
        down: put(m.down, pos.0, pos.1),
        width: m.width + 1,
        height: if m.height >= 1 {
            m.height
        } else {
            1
        },
        skl: m.skl + 1,
        skr: if m.skr - 1 >= 1 {
            m.skr - 1
        } else {
            1
        },
        skh: m.skh + 1,
    }
}

/// Adds the square of an application.
pub open spec fn app_mino(m: MinoSpec, key: u64, pos: (int, int), target: (int, int)) -> MinoSpec {
    MinoSpec {
        squares: m.squares.push((key, SquareSpec { pos, target, kind: SqKind::App })),
        ..m
    }
}

/// The layout of `e` at `pos`, connected to `target`, and the next unused key.
/// `sq_key` keys the square of `e`; `own_fresh` tells that `e` is reached
/// through a frozen copy, so that it has an identity of its own (a fresh key)
/// besides the key of its square; `env` holds the identities of the enclosing
/// abstractions, innermost last; `consts` are the printed constants. A
/// variable links to the identity of its abstraction; a variable that no
/// enclosing abstraction binds has no square.
pub open spec fn gen_spec(
    e: LamExpr,
    sq_key: u64,
    own_fresh: bool,
    env: Seq<u64>,
    pos: (int, int),
    target: (int, int),
    next: u64,
    consts: Seq<Seq<char>>,
) -> (MinoSpec, u64)
    decreases e,
{
    let own = if own_fresh {
        next
    } else {
        sq_key
    };
    let n1 = if own_fresh {
        (next + 1) as u64
    } else {
        next
    };
    match e {
        LamExpr::Var(k, _) => if k < env.len() {
            (var_mino(sq_key, pos, target, env[env.len() - 1 - k]), n1)
        } else {
            (mino_default(), n1)
        },
        LamExpr::Free(_, _) => (mino_default(), n1),
        LamExpr::Con(i) => (con_mino(sq_key, pos, target, consts[i as int]), n1),
        LamExpr::Lam(_, b) => {
            let r = gen_spec(*b, n1, false, env.push(own), (pos.0 + 1, pos.1), pos, (n1 + 1) as u64, consts);
            (lam_mino(r.0, sq_key, pos, target), r.1)
        },
        LamExpr::App(f, g) => {
            let rf = gen_spec(*f, n1, false, env, (0, 0), (-1, 0), (n1 + 2) as u64, consts);
            let rg = gen_spec(*g, (n1 + 1) as u64, false, env, (0, 0), (-1, 0), rf.1, consts);
            (app_mino(move_spec(combine_spec(rf.0, rg.0), pos, target), own, pos, target), rg.1)
        },
        LamExpr::Borrow(x) => gen_spec(*x, sq_key, true, env, pos, target, n1, consts),
    }
}

/// `q` lies in the `s` by `s` square whose lowest corner is `p`.
pub open spec fn in_box(q: (int, int), p: (int, int), s: int) -> bool {
    p.0 <= q.0 < p.0 + s && p.1 <= q.1 < p.1 + s
}

/// A layout of a term of size `s` at `p`: every square, and every outline
/// entry, lies in the box of side `s` at `p`; every connection stays in the box
/// but that of the square at `p`, which may go to `t`; the lowest row of column
/// `p.0` is `p.1`; the extents are small.
pub open spec fn tight(m: MinoSpec, p: (int, int), s: int, t: (int, int)) -> bool {
    &&& forall|i: int|
        0 <= i < m.squares.len() ==> in_box(#[trigger] m.squares[i].1.pos, p, s) && (in_box(
            m.squares[i].1.target,
            p,
            s,
        ) || (m.squares[i].1.pos == p && m.squares[i].1.target == t))
    &&& within(m.up, p.0, p.0 + s - 1, p.1, p.1 + s - 1)
    &&& within(m.down, p.0, p.0 + s - 1, p.1, p.1 + s - 1)
    &&& m.down.len() > 0 ==> get(m.down, p.0) == Some(p.1)
    &&& 0 <= m.width <= s
    &&& 0 <= m.height <= s
    &&& -2 * s <= m.skl <= 2 * s
    &&& -2 * s <= m.skr <= 2 * s
    &&& -2 * s <= m.skh <= 2 * s
}

proof fn lemma_within_bounded(s: Seq<(int, int)>, x0: int, x1: int, y0: int, y1: int, b: int)
    requires
        within(s, x0, x1, y0, y1),
        -b <= x0,
        x1 <= b,
        -b <= y0,
        y1 <= b,
    ensures
        bounded(s, b),
{
    assert forall|i: int| 0 <= i < s.len() implies -b <= #[trigger] s[i].0 <= b && -b <= s[i].1 <= b by {
        assert(x0 <= s[i].0 <= x1);
    }
}

/// A tight layout is bounded.
pub proof fn lemma_tight_bounded(m: MinoSpec, p: (int, int), s: int, t: (int, int), b: int)
    requires
        tight(m, p, s, t),
        0 <= s,
        -b <= p.0,
        -b <= p.1,
        p.0 + s <= b,
        p.1 + s <= b,
        s <= b,
        -b <= t.0 <= b,
        -b <= t.1 <= b,
    ensures
        mino_bounded(m, b),
{
    lemma_within_bounded(m.up, p.0, p.0 + s - 1, p.1, p.1 + s - 1, b);
    lemma_within_bounded(m.down, p.0, p.0 + s - 1, p.1, p.1 + s - 1, b);
    assert forall|i: int| 0 <= i < m.squares.len() implies -b <= #[trigger] m.squares[i].1.pos.0 <= b
        && -b <= m.squares[i].1.pos.1 <= b && -b <= m.squares[i].1.target.0 <= b && -b
        <= m.squares[i].1.target.1 <= b by {
        assert(in_box(m.squares[i].1.pos, p, s));
    }
}

/// A larger box still holds a tight layout.
pub proof fn lemma_tight_grow(m: MinoSpec, p: (int, int), s: int, t: (int, int))
    requires
        tight(m, p, s, t),
        0 <= s,
    ensures
        tight(m, p, s + 1, t),
{
    assert forall|i: int| 0 <= i < m.squares.len() implies in_box(#[trigger] m.squares[i].1.pos, p, s + 1) && (in_box(
        m.squares[i].1.target,
        p,
        s + 1,
    ) || (m.squares[i].1.pos == p && m.squares[i].1.target == t)) by {
        assert(in_box(m.squares[i].1.pos, p, s));
    }
    assert forall|i: int| 0 <= i < m.up.len() implies p.0 <= #[trigger] m.up[i].0 <= p.0 + s && p.1 <= m.up[i].1 <= p.1 + s by {
        assert(p.0 <= m.up[i].0);
    }
    assert forall|i: int| 0 <= i < m.down.len() implies p.0 <= #[trigger] m.down[i].0 <= p.0 + s && p.1 <= m.down[i].1 <= p.1 + s by {
        assert(p.0 <= m.down[i].0);
    }
}

/// Moving a layout built at the origin, whose connections all stay inside,
/// gives a tight layout at the new place.
pub proof fn lemma_move_tight(c: MinoSpec, s: int, p: (int, int), t: (int, int))
    requires
        tight(c, (0, 0), s, (0, 0)),
        1 <= s,
    ensures
        tight(move_spec(c, p, t), p, s, t),
{
    let m = move_spec(c, p, t);
    assert forall|i: int| 0 <= i < m.squares.len() implies in_box(#[trigger] m.squares[i].1.pos, p, s) && (in_box(
        m.squares[i].1.target,
        p,
        s,
    ) || (m.squares[i].1.pos == p && m.squares[i].1.target == t)) by {
        assert(in_box(c.squares[i].1.pos, (0, 0), s));
    }
    lemma_shift_within(c.up, p.0, p.1, 0, s - 1, 0, s - 1);
    lemma_shift_within(c.down, p.0, p.1, 0, s - 1, 0, s - 1);
    lemma_get_shift(c.down, p.0, p.1, 0);
}

/// Combining the layouts of a function and an argument, each tight at the
/// origin, gives a layout tight at the origin whose connections stay inside.
pub proof fn lemma_combine_tight(mf: MinoSpec, mg: MinoSpec, sf: int, sg: int)
    requires
        tight(mf, (0, 0), sf, (-1, 0)),
        tight(mg, (0, 0), sg, (-1, 0)),
        1 <= sf,
        1 <= sg,
    ensures
        tight(combine_spec(mf, mg), (0, 0), 1 + sf + sg, (0, 0)),
        1 <= lift(put_absent(move_spec(mf, (1, 0), (0, 0)).up, 0, 0), mg.down),
{
    let s = 1 + sf + sg;
    let a = move_spec(mf, (1, 0), (0, 0));
    // the function's layout, one column to the left
    assert forall|i: int| 0 <= i < a.squares.len() implies in_box(#[trigger] a.squares[i].1.pos, (0, 0), s)
        && in_box(a.squares[i].1.target, (0, 0), s) && a.squares[i].1.pos.0 >= 1 by {
        assert(in_box(mf.squares[i].1.pos, (0, 0), sf));
    }
    lemma_shift_within(mf.up, 1, 0, 0, sf - 1, 0, sf - 1);
    lemma_shift_within(mf.down, 1, 0, 0, sf - 1, 0, sf - 1);
    lemma_get_outside(a.up, 0, 1, sf, 0, sf - 1);
    lemma_get_outside(a.down, 0, 1, sf, 0, sf - 1);
    let up1 = put_absent(a.up, 0, 0);
    let down1 = put_absent(a.down, 0, 0);
    lemma_get_put(a.up, 0, 0, 0);
    lemma_get_put(a.down, 0, 0, 0);
    lemma_put_within(a.up, 0, 0, 0, sf, 0, sf - 1);
    lemma_put_within(a.down, 0, 0, 0, sf, 0, sf - 1);
    // how far the argument goes up
    let vs = mg.down.map_values(|p: (int, int)| or0(get(up1, p.0)) - p.1);
    assert forall|i: int| 0 <= i < vs.len() implies -(sg - 1) <= #[trigger] vs[i] <= sf - 1 by {
        lemma_get_within(up1, mg.down[i].0, 0, sf, 0, sf - 1);
        assert(0 <= mg.down[i].0);
    }
    lemma_seq_max_bounded(vs, -(sg - 1), sf - 1);
    if mg.down.len() > 0 {
        lemma_first_idx(mg.down, 0);
        let j = first_idx(mg.down, 0)->0 as int;
        assert(vs[j] == 0);
    }
    let diff = lift(up1, mg.down);
    assert(1 <= diff <= sf);
    let o = move_spec(mg, (0, diff), (0, 0));
    assert forall|i: int| 0 <= i < o.squares.len() implies in_box(#[trigger] o.squares[i].1.pos, (0, 0), s)
        && in_box(o.squares[i].1.target, (0, 0), s) by {
        assert(in_box(mg.squares[i].1.pos, (0, 0), sg));
    }
    lemma_shift_within(mg.up, 0, diff, 0, sg - 1, 0, sg - 1);
    lemma_shift_within(mg.down, 0, diff, 0, sg - 1, 0, sg - 1);
    let up2 = merge(up1, o.up, true);
    let down2 = merge(down1, o.down, false);
    lemma_merge_within(up1, o.up, true, 0, s - 1, 0, s - 1);
    lemma_merge_within(down1, o.down, false, 0, s - 1, 0, s - 1);
    assert forall|i: int| 0 <= i < o.down.len() && #[trigger] o.down[i].0 == 0 implies o.down[i].1 >= 0 by {
        assert(diff <= o.down[i].1);
    }
    lemma_merge_min_keeps(down1, o.down, 0, 0);
    lemma_within_bounded(up2, 0, s - 1, 0, s - 1, s - 1);
    lemma_within_bounded(down2, 0, s - 1, 0, s - 1, s - 1);
    lemma_max_measure_bounded(up2, 1, s - 1);
    lemma_max_measure_bounded(up2, 2, s - 1);
    lemma_max_measure_bounded(down2, 0, s - 1);
    let c = combine_spec(mf, mg);
    assert forall|i: int| 0 <= i < c.squares.len() implies in_box(#[trigger] c.squares[i].1.pos, (0, 0), s)
        && in_box(c.squares[i].1.target, (0, 0), s) by {
        if i < a.squares.len() {
            assert(c.squares[i] == a.squares[i]);
        } else {
            assert(c.squares[i] == o.squares[i - a.squares.len()]);
        }
    }
}

impl<T> LambdaMino<T> {
    /// Puts `other` on top of `self` as the argument of an application whose
    /// square is at the origin (see `combine_spec`).
    pub fn app_combine(&mut self, other: Self)
        requires
            mino_bounded(old(self)@, 0x1500_0000),
            mino_bounded(other@, 0x1500_0000),
        ensures
            final(self)@ == combine_spec(old(self)@, other@),
    {
        let ghost m0 = self@;
        let ghost o0 = other@;
        let mut other = other;
        self.move_mino((1, 0), (0, 0));
        proof {
            lemma_move_bounded(m0, (1, 0), (0, 0), 0x1500_0000, 1);
        }
        put_absent_exec(&mut self.up_convex, 0, 0);
        put_absent_exec(&mut self.down_convex, 0, 0);
        proof {
            let a = move_spec(m0, (1, 0), (0, 0));
            lemma_put_bounded(a.up, 0, 0, 0x1500_0001);
            lemma_put_bounded(a.down, 0, 0, 0x1500_0001);
        }
        self.width = self.width + 1;
        if self.height < 1 {
            self.height = 1;
        }
        // how far the argument goes up
        let ghost up1 = pairs(self.up_convex@);
        let ghost od = o0.down;
        let ghost vs = od.map_values(|p: (int, int)| or0(get(up1, p.0)) - p.1);
        let mut best: Option<i32> = None;
        let mut i: usize = 0;
        proof {
            assert(vs.take(0) =~= seq![]);
        }
        while i < other.down_convex.len()
            invariant
                i <= other.down_convex@.len(),
                pairs(other.down_convex@) == od,
                od == o0.down,
                bounded(od, 0x1500_0000),
                up1 == pairs(self.up_convex@),
                bounded(up1, 0x1500_0001),
                vs == od.map_values(|p: (int, int)| or0(get(up1, p.0)) - p.1),
                best matches Some(v) ==> seq_max(vs.take(i as int)) == Some(v as int),
                best is None ==> seq_max(vs.take(i as int)) is None,
                forall|j: int| 0 <= j < i ==> -0x2a00_0001 <= #[trigger] vs[j] <= 0x2a00_0001,
            decreases other.down_convex@.len() - i,
        {
            let (dx, dy) = other.down_convex[i];
            proof {
                assert(od[i as int] == (dx as int, dy as int));
                lemma_get_bounded(up1, dx as int, 0x1500_0001);
            }
            let u = match get_exec(&self.up_convex, dx) {
                Some(u) => u,
                None => 0,
            };
            let v = u - dy;
            proof {
                assert(vs[i as int] == v as int);
                assert(vs.take(i as int + 1).drop_last() =~= vs.take(i as int));
                assert(vs.take(i as int + 1).last() == v as int);
            }
            best = match best {
                Some(m) => Some(if m >= v { m } else { v }),
                None => Some(v),
            };
            i = i + 1;
        }
        proof {
            assert(vs.take(od.len() as int) =~= vs);
            lemma_seq_max_bounded(vs, -0x2a00_0001, 0x2a00_0001);
        }
        let diff = 1 + match best {
            Some(m) => m,
            None => 0,
        };
        let ghost a = move_spec(m0, (1, 0), (0, 0));
        assert(diff as int == lift(up1, od));
        other.move_mino((0, diff), (0, 0));
        let ghost o = move_spec(o0, (0, diff as int), (0, 0));
        proof {
            lemma_move_bounded(o0, (0, diff as int), (0, 0), 0x1500_0000, 0x2a00_0002);
        }
        let ghost sq_a = self@.squares;
        let LambdaMino {
            squares: mut osq,
            up_convex: oup,
            down_convex: odown,
            width: ow,
            height: oh,
            skew_width_l: _,
            skew_width_r: _,
            skew_height: _,
        } = other;
        self.squares.append(&mut osq);
        proof {
            assert(square_specs(self.squares@) =~= sq_a + o.squares);
        }
        merge_exec(&mut self.up_convex, &oup, true);
        merge_exec(&mut self.down_convex, &odown, false);
        proof {
            lemma_merge_bounded(up1, o.up, true, 0x3f00_0002);
            lemma_merge_bounded(put_absent(a.down, 0, 0), o.down, false, 0x3f00_0002);
            lemma_max_measure_bounded(pairs(self.up_convex@), 1, 0x3f00_0002);
            lemma_max_measure_bounded(pairs(self.up_convex@), 2, 0x3f00_0002);
            lemma_max_measure_bounded(pairs(self.down_convex@), 0, 0x3f00_0002);
        }
        if self.width < ow {
            self.width = ow;
        }
        if self.height < oh + diff {
            self.height = oh + diff;
        }
        self.skew_width_l = match max_measure_exec(&self.down_convex, 0) {
            Some(m) => m,
            None => 0,
        } + 1;
        self.skew_width_r = match max_measure_exec(&self.up_convex, 1) {
            Some(m) => m,
            None => 0,
        } + 1;
        self.skew_height = match max_measure_exec(&self.up_convex, 2) {
            Some(m) => m,
            None => 0,
        } + 2;
        proof {
            assert(self@ == combine_spec(m0, o0));
        }
    }
}


impl<T> LambdaMino<T> {
    /// The layout of a constant (see `con_mino`).
    pub(crate) fn of_con(key: u64, pos: (i32, i32), target: (i32, i32), c: String) -> (r: Self)
        ensures
            r@ == con_mino(key, pt(pos), pt(target), c@),
    {
        let mut squares: Vec<(LambdaRef<T>, LambdaSquare<T>)> = Vec::new();
        squares.push((LambdaRef::new(key), LambdaSquare { pos, target, sq_type: LambdaSqType::MCon(c) }));
        let mut up: Vec<(i32, i32)> = Vec::new();
        up.push(pos);
        let mut down: Vec<(i32, i32)> = Vec::new();
        down.push(pos);
        let r = LambdaMino {
            squares,
            up_convex: up,
            down_convex: down,
            width: 1,
            height: 1,
            skew_width_l: 1,
            skew_width_r: 1,
            skew_height: 2,
        };
        proof {
            assert(r@.squares =~= con_mino(key, pt(pos), pt(target), c@).squares);
            assert(r@.up =~= seq![pt(pos)]);
            assert(r@.down =~= seq![pt(pos)]);
        }
        r
    }

    /// The layout of a bound variable (see `var_mino`).
    pub(crate) fn of_var(key: u64, pos: (i32, i32), target: (i32, i32), link: u64) -> (r: Self)
        ensures
            r@ == var_mino(key, pt(pos), pt(target), link),
    {
        let mut r = Self::new();
        r.squares.push(
            (
                LambdaRef::new(key),
                LambdaSquare { pos, target, sq_type: LambdaSqType::MLink(LambdaRef::new(link), (0, 0)) },
            ),
        );
        proof {
            assert(r@.squares =~= var_mino(key, pt(pos), pt(target), link).squares);
        }
        r
    }

    /// Adds the square of an abstraction whose body this layout draws (see `lam_mino`).
    pub(crate) fn push_lam(&mut self, key: u64, pos: (i32, i32), target: (i32, i32))
        requires
            mino_bounded(old(self)@, 0x1500_0000),
        ensures
            final(self)@ == lam_mino(old(self)@, key, pt(pos), pt(target)),
    {
        let ghost m0 = self@;
        self.squares.push((LambdaRef::new(key), LambdaSquare { pos, target, sq_type: LambdaSqType::MLam }));
        put_exec(&mut self.up_convex, pos.0, pos.1);
        put_exec(&mut self.down_convex, pos.0, pos.1);
        self.width = self.width + 1;
        if self.height < 1 {
            self.height = 1;
        }
        self.skew_width_l = self.skew_width_l + 1;
        self.skew_width_r = if self.skew_width_r - 1 >= 1 {
            self.skew_width_r - 1
        } else {
            1
        };
        self.skew_height = self.skew_height + 1;
        proof {
            assert(self@.squares =~= lam_mino(m0, key, pt(pos), pt(target)).squares);
        }
    }

    /// Adds the square of an application (see `app_mino`).
    pub(crate) fn push_app(&mut self, key: u64, pos: (i32, i32), target: (i32, i32))
        ensures
            final(self)@ == app_mino(old(self)@, key, pt(pos), pt(target)),
    {
        let ghost m0 = self@;
        self.squares.push((LambdaRef::new(key), LambdaSquare { pos, target, sq_type: LambdaSqType::MApp }));
        proof {
            assert(self@.squares =~= app_mino(m0, key, pt(pos), pt(target)).squares);
        }
    }
}


/// The first index below `n` whose square has key `k`.
pub open spec fn key_upto(s: Seq<(u64, SquareSpec)>, k: u64, n: nat) -> Option<nat>
    decreases n,
{
    if n == 0 {
        None
    } else {
        match key_upto(s, k, (n - 1) as nat) {
            Some(j) => Some(j),
            None => if s[n - 1].0 == k {
                Some((n - 1) as nat)
            } else {
                None
            },
        }
    }
}

/// The first index whose square has key `k`.
pub open spec fn key_idx(s: Seq<(u64, SquareSpec)>, k: u64) -> Option<nat> {
    key_upto(s, k, s.len())
}

/// A variable's square takes the position of the square its link names,
/// where there is one; other squares stay as they are.
pub open spec fn resolve_sq(sq: SquareSpec, all: Seq<(u64, SquareSpec)>) -> SquareSpec {
    match sq.kind {
        SqKind::Link(r, _) => match key_idx(all, r) {
            Some(j) => SquareSpec { kind: SqKind::Link(r, all[j as int].1.pos), ..sq },
            None => sq,
        },
        _ => sq,
    }
}

/// A layout whose links are resolved (see `resolve_sq`).
pub open spec fn link_spec(m: MinoSpec) -> MinoSpec {
    MinoSpec { squares: m.squares.map_values(|e: (u64, SquareSpec)| (e.0, resolve_sq(e.1, m.squares))), ..m }
}

proof fn lemma_key_upto_stable(s: Seq<(u64, SquareSpec)>, k: u64, n: nat, m: nat)
    requires
        n <= m,
        key_upto(s, k, n) is Some,
    ensures
        key_upto(s, k, m) == key_upto(s, k, n),
    decreases m,
{
    if m > n {
        lemma_key_upto_stable(s, k, n, (m - 1) as nat);
    }
}

/// The first index, when there is one, holds the key; when there is none, no
/// square does.
pub proof fn lemma_key_idx(s: Seq<(u64, SquareSpec)>, k: u64)
    ensures
        key_idx(s, k) matches Some(i) ==> i < s.len() && s[i as int].0 == k,
        key_idx(s, k) is None <==> forall|j: int| 0 <= j < s.len() ==> s[j].0 != k,
{
    lemma_key_upto(s, k, s.len());
}

proof fn lemma_key_upto(s: Seq<(u64, SquareSpec)>, k: u64, n: nat)
    requires
        n <= s.len(),
    ensures
        key_upto(s, k, n) matches Some(i) ==> i < n && s[i as int].0 == k,
        key_upto(s, k, n) is None <==> forall|j: int| 0 <= j < n ==> s[j].0 != k,
    decreases n,
{
    if n > 0 {
        lemma_key_upto(s, k, (n - 1) as nat);
    }
}

/// Finds the first square with key `k`.
fn find_key<T>(s: &Vec<(LambdaRef<T>, LambdaSquare<T>)>, k: u64) -> (r: Option<usize>)
    ensures
        r matches Some(i) ==> i < s@.len() && key_idx(square_specs(s@), k) == Some(i as nat),
        r is None ==> key_idx(square_specs(s@), k) is None,
{
    let ghost ps = square_specs(s@);
    let mut i: usize = 0;
    while i < s.len()
        invariant
            i <= s@.len(),
            ps == square_specs(s@),
            key_upto(ps, k, i as nat) is None,
        decreases s@.len() - i,
    {
        if s[i].0.id() == k {
            proof {
                assert(ps[i as int].0 == k);
                assert(key_upto(ps, k, (i + 1) as nat) == Some(i as nat));
                lemma_key_upto_stable(ps, k, (i + 1) as nat, ps.len());
            }
            return Some(i);
        }
        proof {
            assert(ps[i as int].0 != k);
        }
        i = i + 1;
    }
    None
}

impl<T> LambdaMino<T> {
    /// Gives each variable's square the position of the abstraction's square
    /// it links to (see `link_spec`).
    pub(crate) fn update_link(&mut self)
        ensures
            final(self)@ == link_spec(old(self)@),
    {
        let ghost m0 = self@;
        let mut out: Vec<(LambdaRef<T>, LambdaSquare<T>)> = Vec::new();
        let mut i: usize = 0;
        while i < self.squares.len()
            invariant
                i <= self.squares@.len(),
                self@ == m0,
                square_specs(out@) =~= m0.squares.take(i as int).map_values(
                    |e: (u64, SquareSpec)| (e.0, resolve_sq(e.1, m0.squares)),
                ),
            decreases self.squares@.len() - i,
        {
            let (k, s) = &self.squares[i];
            proof {
                assert(m0.squares[i as int] == (k@, s.spec()));
            }
            let sq_type = match &s.sq_type {
                LambdaSqType::MLink(r, p) => match find_key(&self.squares, r.id()) {
                    Some(j) => LambdaSqType::MLink(r.clone(), self.squares[j].1.pos),
                    None => LambdaSqType::MLink(r.clone(), *p),
                },
                other => other.copy(),
            };
            let new_sq = LambdaSquare { pos: s.pos, target: s.target, sq_type };
            proof {
                assert(new_sq.spec() == resolve_sq(m0.squares[i as int].1, m0.squares));
            }
            let ghost prev = out@;
            out.push((k.clone(), new_sq));
            proof {
                assert(square_specs(out@) =~= square_specs(prev).push((k@, new_sq.spec())));
                assert(m0.squares.take(i as int + 1) =~= m0.squares.take(i as int).push(
                    m0.squares[i as int],
                ));
            }
            i = i + 1;
        }
        proof {
            assert(m0.squares.take(self.squares@.len() as int) =~= m0.squares);
        }
        self.squares = out;
    }
}


impl<T> Default for LambdaMino<T> {
    /// The empty layout.
    fn default() -> (r: Self)
        ensures
            r@ == mino_default(),
    {
        Self::new()
    }
}


/// The first index with a key depends only on the keys.
proof fn lemma_key_upto_keys(s: Seq<(u64, SquareSpec)>, s2: Seq<(u64, SquareSpec)>, k: u64, n: nat)
    requires
        n <= s.len(),
        n <= s2.len(),
        forall|j: int| 0 <= j < n ==> s[j].0 == s2[j].0,
    ensures
        key_upto(s, k, n) == key_upto(s2, k, n),
    decreases n,
{
    if n > 0 {
        lemma_key_upto_keys(s, s2, k, (n - 1) as nat);
    }
}

/// Resolving the links of a layout twice gives what resolving them once gives.
pub proof fn law_link_idempotent(m: MinoSpec)
    ensures
        link_spec(link_spec(m)) == link_spec(m),
{
    let m1 = link_spec(m);
    let m2 = link_spec(m1);
    assert forall|r: u64| key_idx(m1.squares, r) == key_idx(m.squares, r) by {
        lemma_key_upto_keys(m1.squares, m.squares, r, m.squares.len());
    }
    assert forall|i: int| 0 <= i < m1.squares.len() implies #[trigger] m2.squares[i] == m1.squares[i] by {
        let sq = m.squares[i].1;
        if let SqKind::Link(r, _) = sq.kind {
            lemma_key_idx(m.squares, r);
        }
    }
    assert(m2.squares =~= m1.squares);
}

} // verus!
