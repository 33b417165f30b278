//! The pieces of the game: boxes that show a term with its printed form and
//! its drawing, the factories that make them, and the board on which the
//! player grabs, applies, throws away and reduces them.
use vstd::prelude::*;
use crate::lambda::{LambdaBox, i_expr, k_expr, b_expr, c_expr, w_expr, s_expr, y_expr};
use crate::mino::LambdaMino;
use crate::placement::layout;
use crate::show::{fmt, strings};
use crate::term::{LamExpr, size, step, shift_cons, lemma_shift_cons};
use crate::constants::is_alphanumeric;

verus! {

/// The largest term, in nodes, whose layout is made: up to this size the
/// layout's `i32` coordinates and extents are proven to fit (see
/// `LambdaBox::gen_mino`).
pub const MAX_DRAWN_NODES: u64 = 0x1500_0000;

/// The printed form of a term (see `fmt`), numbering from 0.
pub open spec fn printed(e: LamExpr, consts: Seq<Seq<char>>) -> Seq<char> {
    fmt(e, seq![], 0, consts).0
}

/// A box as a value: its term, its printed constants, and whether a
/// reduction step may still be tried.
pub struct ObjSpec {
    pub expr: LamExpr,
    pub consts: Seq<Seq<char>>,
    pub can_eval: bool,
}

/// The printed form that a box shows: there is one while the printing's
/// `i32` numbering cannot overflow.
pub open spec fn shown_text(o: ObjSpec) -> Option<Seq<char>> {
    if size(o.expr) < i32::MAX {
        Some(printed(o.expr, o.consts))
    } else {
        None
    }
}

/// A box on the board: a term, and its printed form and drawing, kept in step
/// with it.
pub struct LambdaObj {
    lam_box: LambdaBox<String>,
    string: Option<String>,
    mino: Option<LambdaMino<String>>,
    can_eval: bool,
}

impl View for LambdaObj {
    type V = ObjSpec;

    closed spec fn view(&self) -> ObjSpec {
        ObjSpec {
            expr: self.lam_box.spec_expr(),
            consts: strings(self.lam_box.spec_consts()),
            can_eval: self.can_eval,
        }
    }
}

/// A box of the term `e` with constants `consts`, ready to be reduced.
pub open spec fn fresh_obj(e: LamExpr, consts: Seq<Seq<char>>) -> ObjSpec {
    ObjSpec { expr: e, consts, can_eval: true }
}

/// A box after one reduction step was tried, and whether a step was taken: a
/// box that may not be reduced stays; where no step applies, the box stays and
/// may not be reduced again; otherwise it takes the step.
pub open spec fn stepped(o: ObjSpec) -> (ObjSpec, bool) {
    if !o.can_eval {
        (o, false)
    } else {
        match step(o.expr) {
            Some(e2) => (ObjSpec { expr: e2, consts: o.consts, can_eval: true }, true),
            None => (ObjSpec { can_eval: false, ..o }, false),
        }
    }
}

/// Whether the constants of `a` and `b` together fit one vector.
pub open spec fn fits(a: ObjSpec, b: ObjSpec) -> bool {
    a.consts.len() + b.consts.len() <= usize::MAX
}

/// The box that applies `a` to `b` (the constants of `b` follow those of `a`).
pub open spec fn composed(a: ObjSpec, b: ObjSpec) -> ObjSpec {
    fresh_obj(
        LamExpr::App(Box::new(a.expr), Box::new(shift_cons(b.expr, a.consts.len()))),
        a.consts + b.consts,
    )
}

impl LambdaObj {
    #[verifier::type_invariant]
    closed spec fn shown(&self) -> bool {
        let e = self.lam_box.spec_expr();
        let c = strings(self.lam_box.spec_consts());
        &&& match self.string {
            Some(t) => size(e) < i32::MAX && t@ == printed(e, c),
            None => size(e) >= i32::MAX,
        }
        &&& match self.mino {
            Some(m) => size(e) <= MAX_DRAWN_NODES && m@ == layout(e, c),
            None => size(e) > MAX_DRAWN_NODES,
        }
    }

    /// A box showing the term of `lam_box`: printed while the printing's
    /// numbering fits an `i32`, drawn up to `MAX_DRAWN_NODES` nodes.
    pub fn new(lam_box: LambdaBox<String>) -> (r: Self)
        ensures
            r@ == fresh_obj(lam_box.spec_expr(), strings(lam_box.spec_consts())),
    {
        let n = lam_box.expr_ref().node_count();
        let string = if n < 0x7fff_ffff {
            Some(lam_box.to_string())
        } else {
            None
        };
        let mino = if n <= MAX_DRAWN_NODES {
            Some(lam_box.gen_mino())
        } else {
            None
        };
        LambdaObj { lam_box, string, mino, can_eval: true }
    }

    /// A box holding a single variable.
    fn blank() -> (r: Self)
        ensures
            r@ == fresh_obj(LamExpr::Free(0, true), seq![]),
    {
        let b = LambdaBox::default();
        proof {
            assert(strings(b.spec_consts()) =~= seq![]);
        }
        Self::new(b)
    }

    /// The printed form of the term (see `shown_text`).
    pub fn string(&self) -> (r: &Option<String>)
        ensures
            (match *r {
                Some(t) => Some(t@),
                None => None,
            }) == shown_text(self@),
    {
        proof {
            use_type_invariant(self);
        }
        &self.string
    }

    /// The drawing of the term, for a term of at most `MAX_DRAWN_NODES` nodes.
    pub fn mino(&self) -> (r: &Option<LambdaMino<String>>)
        ensures
            r is Some <==> size(self@.expr) <= MAX_DRAWN_NODES,
            r matches Some(m) ==> m@ == layout(self@.expr, self@.consts),
    {
        proof {
            use_type_invariant(self);
        }
        &self.mino
    }

    /// Tries one reduction step (see `stepped`); returns whether it was taken.
    pub fn eval_onestep(&mut self) -> (r: bool)
        ensures
            (final(self)@, r) == stepped(old(self)@),
    {
        proof {
            use_type_invariant(&*self);
        }
        if !self.can_eval {
            return false;
        }
        match self.lam_box.expr_ref().eval_onestep() {
            None => {
                self.can_eval = false;
                false
            },
            Some(_) => {
                let mut old = Self::blank();
                std::mem::swap(self, &mut old);
                let LambdaObj { lam_box: mut b, string: _, mino: _, can_eval: _ } = old;
                b.eval_onestep();
                *self = Self::new(b);
                true
            },
        }
    }

    /// Applies the box to `other` (see `composed`) when their constants fit
    /// one vector (see `fits`), and returns whether it did; otherwise the box
    /// stays.
    pub fn compose(&mut self, other: Self) -> (r: bool)
        ensures
            r == fits(old(self)@, other@),
            final(self)@ == (if r {
                composed(old(self)@, other@)
            } else {
                old(self)@
            }),
    {
        proof {
            use_type_invariant(&*self);
            use_type_invariant(&other);
        }
        let c1 = self.lam_box.consts_ref().len();
        let c2 = other.lam_box.consts_ref().len();
        if c1 > usize::MAX - c2 {
            return false;
        }
        let ghost a = self@;
        let ghost bo = other@;
        let mut old = Self::blank();
        std::mem::swap(self, &mut old);
        let LambdaObj { lam_box: b1, string: _, mino: _, can_eval: _ } = old;
        let LambdaObj { lam_box: b2, string: _, mino: _, can_eval: _ } = other;
        let nb = b1.composition(b2);
        proof {
            lemma_shift_cons(bo.expr, a.consts.len(), 0, 0, 0);
            assert(strings(nb.spec_consts()) =~= a.consts + bo.consts);
        }
        *self = Self::new(nb);
        true
    }
}

/// What a factory makes: one of the combinators, a random constant (`X`), or
/// nothing (the trash bin, which takes boxes away).
#[derive(Clone, Copy, PartialEq, Eq, Structural, Debug)]
pub enum FactoryKind {
    S,
    K,
    I,
    Y,
    B,
    C,
    W,
    X,
    Trash,
}

/// Whether a factory of `kind` may make the box `o`.
pub open spec fn produces(kind: FactoryKind, o: ObjSpec) -> bool {
    match kind {
        FactoryKind::S => o == fresh_obj(s_expr(), seq![]),
        FactoryKind::K => o == fresh_obj(k_expr(), seq![]),
        FactoryKind::I => o == fresh_obj(i_expr(), seq![]),
        FactoryKind::Y => o == fresh_obj(y_expr(), seq![]),
        FactoryKind::B => o == fresh_obj(b_expr(), seq![]),
        FactoryKind::C => o == fresh_obj(c_expr(), seq![]),
        FactoryKind::W => o == fresh_obj(w_expr(), seq![]),
        FactoryKind::X => {
            &&& o.expr == LamExpr::Con(0)
            &&& o.consts.len() == 1
            &&& o.consts[0].len() == 1
            &&& is_alphanumeric(o.consts[0][0])
            &&& o.can_eval
        },
        FactoryKind::Trash => false,
    }
}

impl FactoryKind {
    /// Makes a box (see `produces`); the trash bin makes none, and the X
    /// factory none where the system gives no randomness.
    pub fn produce(&self) -> (r: Option<LambdaObj>)
        ensures
            *self == FactoryKind::Trash ==> r is None,
            *self != FactoryKind::Trash && *self != FactoryKind::X ==> r is Some,
            r matches Some(o) ==> produces(*self, o@),
    {
        let kind = *self;
        proof {
            reveal_with_fuel(size, 8);
        }
        let b = match kind {
            FactoryKind::S => LambdaBox::s_factory(),
            FactoryKind::K => LambdaBox::k_factory(),
            FactoryKind::I => LambdaBox::i_factory(),
            FactoryKind::Y => LambdaBox::y_factory(),
            FactoryKind::B => LambdaBox::b_factory(),
            FactoryKind::C => LambdaBox::c_factory(),
            FactoryKind::W => LambdaBox::w_factory(),
            FactoryKind::X => match LambdaBox::x_factory() {
                Some(x) => x,
                None => {
                    return None;
                },
            },
            FactoryKind::Trash => {
                return None;
            },
        };
        proof {
            assert(strings(b.spec_consts()).len() == b.spec_consts().len());
            if kind != FactoryKind::X {
                assert(strings(b.spec_consts()) =~= seq![]);
            }
        }
        Some(LambdaObj::new(b))
    }
}

/// A tile of the board.
#[derive(Clone, Copy, PartialEq, Eq, Structural, Debug)]
pub struct TilePosition(pub i32, pub i32);

/// A tile as integers.
pub open spec fn tp(t: TilePosition) -> (int, int) {
    (t.0 as int, t.1 as int)
}

/// The tiles of a list of tiled things.
pub open spec fn tiles_of<A>(s: Seq<((int, int), A)>) -> Seq<(int, int)> {
    s.map_values(|e: ((int, int), A)| e.0)
}

/// The first index below `n` at tile `t`.
pub open spec fn first_tile(s: Seq<(int, int)>, t: (int, int), n: nat) -> Option<nat>
    decreases n,
{
    if n == 0 {
        None
    } else {
        match first_tile(s, t, (n - 1) as nat) {
            Some(j) => Some(j),
            None => if s[n - 1] == t {
                Some((n - 1) as nat)
            } else {
                None
            },
        }
    }
}

/// The first index at tile `t`.
pub open spec fn tile_idx(s: Seq<(int, int)>, t: (int, int)) -> Option<nat> {
    first_tile(s, t, s.len())
}

/// No two entries share a tile.
pub open spec fn tiles_distinct(s: Seq<(int, int)>) -> bool {
    forall|i: int, j: int| #![trigger s[i], s[j]] 0 <= i < j < s.len() ==> s[i] != s[j]
}

proof fn lemma_first_tile(s: Seq<(int, int)>, t: (int, int), n: nat)
    requires
        n <= s.len(),
    ensures
        first_tile(s, t, n) matches Some(i) ==> i < n && s[i as int] == t && forall|j: int|
            0 <= j < i ==> s[j] != t,
        first_tile(s, t, n) is None <==> forall|j: int| 0 <= j < n ==> s[j] != t,
    decreases n,
{
    if n > 0 {
        lemma_first_tile(s, t, (n - 1) as nat);
    }
}

/// Where tiles are distinct, the entry at `t` is found exactly when some
/// entry is at `t`.
pub proof fn lemma_tile_idx(s: Seq<(int, int)>, t: (int, int))
    ensures
        tile_idx(s, t) matches Some(i) ==> i < s.len() && s[i as int] == t,
        tile_idx(s, t) is None <==> forall|j: int| 0 <= j < s.len() ==> s[j] != t,
        tiles_distinct(s) ==> forall|j: int| 0 <= j < s.len() && s[j] == t ==> tile_idx(s, t) == Some(j as nat),
{
    lemma_first_tile(s, t, s.len());
}

/// The tiles of a vector of tiled things.
pub open spec fn tiles_in<A>(s: Seq<(TilePosition, A)>) -> Seq<(int, int)> {
    s.map_values(|e: (TilePosition, A)| tp(e.0))
}

/// Finds the first entry at tile `t`.
fn find_tile<A>(s: &Vec<(TilePosition, A)>, t: TilePosition) -> (r: Option<usize>)
    ensures
        r matches Some(i) ==> i < s@.len() && tp(s@[i as int].0) == tp(t),
        r is None ==> forall|j: int| 0 <= j < s@.len() ==> tp(#[trigger] s@[j].0) != tp(t),
        r matches Some(i) ==> tile_idx(tiles_in(s@), tp(t)) == Some(i as nat),
        r is None ==> tile_idx(tiles_in(s@), tp(t)) is None,
{
    let ghost ts = tiles_in(s@);
    let mut i: usize = 0;
    while i < s.len()
        invariant
            i <= s@.len(),
            ts == tiles_in(s@),
            first_tile(ts, tp(t), i as nat) is None,
        decreases s@.len() - i,
    {
        if s[i].0.0 == t.0 && s[i].0.1 == t.1 {
            proof {
                assert(ts[i as int] == tp(t));
                assert(first_tile(ts, tp(t), (i + 1) as nat) == Some(i as nat));
                lemma_first_tile(ts, tp(t), ts.len());
                lemma_first_tile(ts, tp(t), (i + 1) as nat);
            }
            return Some(i);
        }
        proof {
            assert(ts[i as int] != tp(t));
            lemma_first_tile(ts, tp(t), (i + 1) as nat);
        }
        i = i + 1;
    }
    proof {
        assert(i == ts.len());
        lemma_first_tile(ts, tp(t), ts.len());
        assert forall|j: int| 0 <= j < s@.len() implies tp(#[trigger] s@[j].0) != tp(t) by {
            assert(ts[j] == tp(s@[j].0));
        }
    }
    None
}


/// The board as a value: the boxes on it by tile, the factories by tile, and
/// the box the player holds, with the tile it was taken from.
pub struct BoardSpec {
    pub objs: Seq<((int, int), ObjSpec)>,
    pub factories: Seq<((int, int), FactoryKind)>,
    pub grab: Option<((int, int), ObjSpec)>,
}

/// The board: boxes lie on tiles, at most one per tile; factories stand on
/// tiles; the player may hold one box.
pub struct Board {
    objs: Vec<(TilePosition, LambdaObj)>,
    factories: Vec<(TilePosition, FactoryKind)>,
    grab: Option<(TilePosition, LambdaObj)>,
}

/// A tiled box as a value.
pub open spec fn obj_entry(e: (TilePosition, LambdaObj)) -> ((int, int), ObjSpec) {
    (tp(e.0), e.1@)
}

/// A tiled factory as a value.
pub open spec fn factory_entry(e: (TilePosition, FactoryKind)) -> ((int, int), FactoryKind) {
    (tp(e.0), e.1)
}

impl View for Board {
    type V = BoardSpec;

    closed spec fn view(&self) -> BoardSpec {
        BoardSpec {
            objs: self.objs@.map_values(|e: (TilePosition, LambdaObj)| obj_entry(e)),
            factories: self.factories@.map_values(|e: (TilePosition, FactoryKind)| factory_entry(e)),
            grab: match self.grab {
                Some(e) => Some(obj_entry(e)),
                None => None,
            },
        }
    }
}

/// What the player does with the mouse on a tile.
#[derive(Clone, Copy, PartialEq, Eq, Structural, Debug)]
pub enum MouseEvent {
    /// Grab the box on the tile, or take a new one from the factory there.
    LeftPressed,
    /// Put the held box down: on a box it applies that box to it, on the
    /// trash bin it is thrown away, elsewhere it lies on the tile.
    LeftReleased,
    /// Reduce the box on the tile by one step.
    RightReleased,
}

/// The text of an optional text.
pub open spec fn opt_text(s: Option<String>) -> Option<Seq<char>> {
    match s {
        Some(t) => Some(t@),
        None => None,
    }
}

/// Whether the factory on tile `t` is the trash bin.
pub open spec fn trash_at(f: Seq<((int, int), FactoryKind)>, t: (int, int)) -> bool {
    match tile_idx(tiles_of(f), t) {
        Some(j) => f[j as int].1 == FactoryKind::Trash,
        None => false,
    }
}

/// The board after the event `ev` on tile `t` is `n`, and `out` is the
/// printed form of the box that was made, composed or reduced, if any (see
/// `MouseEvent`). A box that the factory of `t` makes may be any that
/// `produces` allows; the X factory may make none, where the system gives no
/// randomness, and the board then stays as it is.
pub open spec fn board_step(b: BoardSpec, ev: MouseEvent, t: (int, int), n: BoardSpec, out: Option<
    Seq<char>,
>) -> bool {
    match ev {
        MouseEvent::LeftPressed => match tile_idx(tiles_of(b.objs), t) {
            Some(i) => {
                &&& n == BoardSpec { objs: b.objs.remove(i as int), grab: Some(b.objs[i as int]), ..b }
                &&& out is None
            },
            None => match tile_idx(tiles_of(b.factories), t) {
                Some(j) => if b.factories[j as int].1 == FactoryKind::Trash {
                    n == b && out is None
                } else {
                    ||| {
                        &&& n.objs == b.objs
                        &&& n.factories == b.factories
                        &&& n.grab matches Some((t2, o)) && t2 == t && produces(b.factories[j as int].1, o)
                            && out == shown_text(o)
                    }
                    ||| b.factories[j as int].1 == FactoryKind::X && n == b && out is None
                },
                None => n == b && out is None,
            },
        },
        MouseEvent::LeftReleased => match b.grab {
            None => n == b && out is None,
            Some((_, g)) => match tile_idx(tiles_of(b.objs), t) {
                Some(i) => {
                    let c = b.objs[i as int].1;
                    let nc = if fits(c, g) {
                        composed(c, g)
                    } else {
                        c
                    };
                    &&& n == BoardSpec { objs: b.objs.update(i as int, (t, nc)), grab: None, ..b }
                    &&& out == (if fits(c, g) {
                        shown_text(nc)
                    } else {
                        None
                    })
                },
                None => {
                    &&& n == (if trash_at(b.factories, t) {
                        BoardSpec { grab: None, ..b }
                    } else {
                        BoardSpec { objs: b.objs.push((t, g)), grab: None, ..b }
                    })
                    &&& out is None
                },
            },
        },
        MouseEvent::RightReleased => match tile_idx(tiles_of(b.objs), t) {
            Some(i) => {
                let r = stepped(b.objs[i as int].1);
                &&& n == BoardSpec { objs: b.objs.update(i as int, (t, r.0)), ..b }
                &&& out == (if r.1 {
                    shown_text(r.0)
                } else {
                    None
                })
            },
            None => n == b && out is None,
        },
    }
}

/// The factories of a new game, by tile: the seven combinators, the random
/// constant and the trash bin. (No FALSE/0, SUCCESSOR, PLUS, PREDECESSOR,
/// IS ZERO? or FOLD factory: the terms behind those labels are not defined
/// anywhere to build them from.)
pub open spec fn start_factories() -> Seq<((int, int), FactoryKind)> {
    seq![
        ((0, 0), FactoryKind::S),
        ((2, 0), FactoryKind::K),
        ((4, 0), FactoryKind::I),
        ((6, 0), FactoryKind::Y),
        ((0, 2), FactoryKind::B),
        ((2, 2), FactoryKind::C),
        ((4, 2), FactoryKind::W),
        ((6, 2), FactoryKind::X),
        ((-2, -2), FactoryKind::Trash),
    ]
}

impl Board {
    #[verifier::type_invariant]
    closed spec fn one_per_tile(&self) -> bool {
        tiles_distinct(tiles_of(self@.objs))
    }

    /// A new game: the factories in place, no boxes.
    pub fn load() -> (r: Self)
        ensures
            r@ == (BoardSpec { objs: seq![], factories: start_factories(), grab: None }),
            tiles_distinct(tiles_of(r@.objs)),
    {
        let mut factories: Vec<(TilePosition, FactoryKind)> = Vec::new();
        factories.push((TilePosition(0, 0), FactoryKind::S));
        factories.push((TilePosition(2, 0), FactoryKind::K));
        factories.push((TilePosition(4, 0), FactoryKind::I));
        factories.push((TilePosition(6, 0), FactoryKind::Y));
        factories.push((TilePosition(0, 2), FactoryKind::B));
        factories.push((TilePosition(2, 2), FactoryKind::C));
        factories.push((TilePosition(4, 2), FactoryKind::W));
        factories.push((TilePosition(6, 2), FactoryKind::X));
        factories.push((TilePosition(-2, -2), FactoryKind::Trash));
        let r = Board { objs: Vec::new(), factories, grab: None };
        proof {
            assert(r@.objs =~= seq![]);
            assert(r@.factories =~= start_factories());
        }
        r
    }

    /// The boxes on the board, by tile.
    pub fn objs(&self) -> (r: &Vec<(TilePosition, LambdaObj)>)
        ensures
            r@.map_values(|e: (TilePosition, LambdaObj)| obj_entry(e)) == self@.objs,
    {
        &self.objs
    }

    /// The factories, by tile.
    pub fn factories(&self) -> (r: &Vec<(TilePosition, FactoryKind)>)
        ensures
            r@.map_values(|e: (TilePosition, FactoryKind)| factory_entry(e)) == self@.factories,
    {
        &self.factories
    }

    /// The box the player holds, with the tile it was taken from.
    pub fn grab(&self) -> (r: &Option<(TilePosition, LambdaObj)>)
        ensures
            (match *r {
                Some(e) => Some(obj_entry(e)),
                None => None,
            }) == self@.grab,
    {
        &self.grab
    }
}


proof fn lemma_distinct_remove(s: Seq<(int, int)>, i: int)
    requires
        tiles_distinct(s),
        0 <= i < s.len(),
    ensures
        tiles_distinct(s.remove(i)),
{
    let r = s.remove(i);
    assert forall|a: int, b: int| #![trigger r[a], r[b]] 0 <= a < b < r.len() implies r[a] != r[b] by {
        let a2 = if a < i {
            a
        } else {
            a + 1
        };
        let b2 = if b < i {
            b
        } else {
            b + 1
        };
        assert(r[a] == s[a2]);
        assert(r[b] == s[b2]);
        assert(s[a2] != s[b2]);
    }
}

proof fn lemma_distinct_push(s: Seq<(int, int)>, t: (int, int))
    requires
        tiles_distinct(s),
        forall|j: int| 0 <= j < s.len() ==> s[j] != t,
    ensures
        tiles_distinct(s.push(t)),
{
    let r = s.push(t);
    assert forall|a: int, b: int| #![trigger r[a], r[b]] 0 <= a < b < r.len() implies r[a] != r[b] by {
        assert(r[a] == s[a]);
        if b < s.len() {
            assert(r[b] == s[b]);
            assert(s[a] != s[b]);
        }
    }
}

impl Board {
    /// The tiles of the boxes, as `find_tile` sees them.
    proof fn lemma_obj_tiles(objs: Seq<(TilePosition, LambdaObj)>)
        ensures
            tiles_of(objs.map_values(|e: (TilePosition, LambdaObj)| obj_entry(e))) =~= tiles_in(objs),
    {
    }

    /// Handles the mouse event `ev` on `tile` (see `board_step`); returns the
    /// printed form of the box that was made, composed or reduced.
    pub fn update(&mut self, ev: MouseEvent, tile: TilePosition) -> (out: Option<String>)
        ensures
            board_step(old(self)@, ev, tp(tile), final(self)@, opt_text(out)),
            tiles_distinct(tiles_of(final(self)@.objs)),
    {
        proof {
            use_type_invariant(&*self);
        }
        let ghost b = self@;
        let t = tile;
        proof {
            Self::lemma_obj_tiles(self.objs@);
            lemma_tile_idx(tiles_of(b.objs), tp(tile));
            lemma_tile_idx(tiles_of(b.factories), tp(tile));
            assert(tiles_of(b.factories) =~= tiles_in(self.factories@));
        }
        match ev {
            MouseEvent::LeftPressed => {
                let mut objs: Vec<(TilePosition, LambdaObj)> = Vec::new();
                std::mem::swap(&mut self.objs, &mut objs);
                match find_tile(&objs, t) {
                    Some(i) => {
                        let e = objs.remove(i);
                        proof {
                            lemma_distinct_remove(tiles_of(b.objs), i as int);
                            assert(tiles_of(b.objs).remove(i as int) =~= tiles_of(
                                objs@.map_values(|e: (TilePosition, LambdaObj)| obj_entry(e)),
                            ));
                            assert(objs@.map_values(|e: (TilePosition, LambdaObj)| obj_entry(e))
                                =~= b.objs.remove(i as int));
                        }
                        self.objs = objs;
                        self.grab = Some(e);
                        proof {
                            assert(tiles_of(b.objs)[i as int] == tp(t));
                        }
                        None
                    },
                    None => {
                        self.objs = objs;
                        match find_tile(&self.factories, t) {
                            Some(j) => {
                                let kind = self.factories[j].1;
                                match kind.produce() {
                                    Some(o) => {
                                        let s = o.string().clone();
                                        self.grab = Some((t, o));
                                        s
                                    },
                                    None => None,
                                }
                            },
                            None => None,
                        }
                    },
                }
            },
            MouseEvent::LeftReleased => {
                let mut held: Option<(TilePosition, LambdaObj)> = None;
                std::mem::swap(&mut self.grab, &mut held);
                match held {
                    None => None,
                    Some((_, g)) => {
                        let mut objs: Vec<(TilePosition, LambdaObj)> = Vec::new();
                        std::mem::swap(&mut self.objs, &mut objs);
                        match find_tile(&objs, t) {
                            Some(i) => {
                                let ghost o0 = objs@;
                                let (tt, mut c) = objs.remove(i);
                                let done = c.compose(g);
                                let out = if done {
                                    c.string().clone()
                                } else {
                                    None
                                };
                                objs.insert(i, (tt, c));
                                proof {
                                    assert(objs@ =~= o0.update(i as int, (tt, c)));
                                    assert(objs@.map_values(|e: (TilePosition, LambdaObj)| obj_entry(e))
                                        =~= b.objs.update(i as int, (tp(t), c@)));
                                    assert(tiles_of(b.objs.update(i as int, (tp(t), c@))) =~= tiles_of(
                                        b.objs,
                                    ));
                                }
                                self.objs = objs;
                                out
                            },
                            None => {
                                let trash = match find_tile(&self.factories, t) {
                                    Some(j) => self.factories[j].1 == FactoryKind::Trash,
                                    None => false,
                                };
                                if !trash {
                                    let ghost gv = g@;
                                    objs.push((t, g));
                                    proof {
                                        lemma_tile_idx(tiles_of(b.objs), tp(t));
                                        lemma_distinct_push(tiles_of(b.objs), tp(t));
                                        assert(objs@.map_values(|e: (TilePosition, LambdaObj)| obj_entry(e))
                                            =~= b.objs.push((tp(t), gv)));
                                        assert(tiles_of(b.objs.push((tp(t), gv))) =~= tiles_of(
                                            b.objs,
                                        ).push(tp(t)));
                                    }
                                }
                                self.objs = objs;
                                None
                            },
                        }
                    },
                }
            },
            MouseEvent::RightReleased => {
                let mut objs: Vec<(TilePosition, LambdaObj)> = Vec::new();
                std::mem::swap(&mut self.objs, &mut objs);
                match find_tile(&objs, t) {
                    Some(i) => {
                        let ghost o0 = objs@;
                        let (tt, mut o) = objs.remove(i);
                        let took = o.eval_onestep();
                        let out = if took {
                            o.string().clone()
                        } else {
                            None
                        };
                        objs.insert(i, (tt, o));
                        proof {
                            assert(objs@ =~= o0.update(i as int, (tt, o)));
                            assert(objs@.map_values(|e: (TilePosition, LambdaObj)| obj_entry(e))
                                =~= b.objs.update(i as int, (tp(t), o@)));
                            assert(tiles_of(b.objs.update(i as int, (tp(t), o@))) =~= tiles_of(b.objs));
                        }
                        self.objs = objs;
                        out
                    },
                    None => {
                        self.objs = objs;
                        None
                    },
                }
            },
        }
    }
}


/// Picking a box up and putting it down on the same tile, where the trash bin
/// is not, gives the board back with the same boxes on the same tiles (the
/// box comes last in order); nothing is printed.
pub proof fn law_put_back(
    b: BoardSpec,
    t: (int, int),
    n1: BoardSpec,
    o1: Option<Seq<char>>,
    n2: BoardSpec,
    o2: Option<Seq<char>>,
)
    requires
        tiles_distinct(tiles_of(b.objs)),
        tile_idx(tiles_of(b.objs), t) is Some,
        !trash_at(b.factories, t),
        board_step(b, MouseEvent::LeftPressed, t, n1, o1),
        board_step(n1, MouseEvent::LeftReleased, t, n2, o2),
    ensures
        ({
            let i = tile_idx(tiles_of(b.objs), t)->0 as int;
            n2 == BoardSpec { objs: b.objs.remove(i).push(b.objs[i]), grab: None, ..b }
        }),
        o1 is None,
        o2 is None,
{
    let ts = tiles_of(b.objs);
    lemma_tile_idx(ts, t);
    let i = tile_idx(ts, t)->0 as int;
    let r = b.objs.remove(i);
    assert(tiles_of(r) =~= ts.remove(i));
    assert forall|j: int| 0 <= j < tiles_of(r).len() implies tiles_of(r)[j] != t by {
        if j < i {
            assert(tiles_of(r)[j] == ts[j]);
            assert(ts[j] != ts[i]);
        } else {
            assert(tiles_of(r)[j] == ts[j + 1]);
            assert(ts[i] != ts[j + 1]);
        }
    }
    lemma_tile_idx(tiles_of(r), t);
    assert(b.objs[i].0 == t);
}

} // verus!
