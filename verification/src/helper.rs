use vstd::prelude::*;

verus! {

/// One of the four grid directions.
#[derive(Debug, Clone, Copy, PartialEq, Eq, Structural)]
pub enum Direct2D {
    Up,
    Down,
    Left,
    Right,
}

/// The unit vector of a direction (x to the right, y upward).
pub open spec fn spec_vector(d: Direct2D) -> (i8, i8) {
    match d {
        Direct2D::Up => (0i8, 1i8),
        Direct2D::Down => (0i8, -1i8),
        Direct2D::Left => (-1i8, 0i8),
        Direct2D::Right => (1i8, 0i8),
    }
}

/// The direction of a vector; any vector that is not one of the
/// up, down or left unit vectors reads as `Right`.
pub open spec fn spec_from_vector(x: i8, y: i8) -> Direct2D {
    if x == 0 && y == 1 {
        Direct2D::Up
    } else if x == 0 && y == -1 {
        Direct2D::Down
    } else if x == -1 && y == 0 {
        Direct2D::Left
    } else {
        Direct2D::Right
    }
}

/// The number of quarter turns, counterclockwise, from `Right`.
pub open spec fn spec_number(d: Direct2D) -> u8 {
    match d {
        Direct2D::Up => 1,
        Direct2D::Down => 3,
        Direct2D::Left => 2,
        Direct2D::Right => 0,
    }
}

/// The direction reached after `n` counterclockwise quarter turns from `Right`.
pub open spec fn spec_from_number(n: u8) -> Direct2D {
    if n % 4 == 1 {
        Direct2D::Up
    } else if n % 4 == 3 {
        Direct2D::Down
    } else if n % 4 == 2 {
        Direct2D::Left
    } else {
        Direct2D::Right
    }
}

impl Direct2D {
    pub fn to_vector(&self) -> (v: (i8, i8))
        ensures
            v == spec_vector(*self),
    {
        match self {
            Direct2D::Up => (0, 1),
            Direct2D::Down => (0, -1),
            Direct2D::Left => (-1, 0),
            Direct2D::Right => (1, 0),
        }
    }

    pub fn from_vector(x: i8, y: i8) -> (d: Self)
        ensures
            d == spec_from_vector(x, y),
    {
        if x == 0 && y == 1 {
            Direct2D::Up
        } else if x == 0 && y == -1 {
            Direct2D::Down
        } else if x == -1 && y == 0 {
            Direct2D::Left
        } else {
            Direct2D::Right
        }
    }

    /// Quarter turns counterclockwise from `Right`: 0, 1, 2 or 3.
    pub fn to_number(&self) -> (n: u8)
        ensures
            n == spec_number(*self),
            n < 4,
    {
        match self {
            Direct2D::Up => 1,
            Direct2D::Down => 3,
            Direct2D::Left => 2,
            Direct2D::Right => 0,
        }
    }

    pub fn from_number(n: u8) -> (d: Self)
        ensures
            d == spec_from_number(n),
    {
        let r = n % 4;
        if r == 1 {
            Direct2D::Up
        } else if r == 3 {
            Direct2D::Down
        } else if r == 2 {
            Direct2D::Left
        } else {
            Direct2D::Right
        }
    }

    /// The direction pointing the other way.
    pub fn opposite(&self) -> (d: Self)
        ensures
            d == spec_opposite(*self),
    {
        let v = self.to_vector();
        Self::from_vector(-v.0, -v.1)
    }

    /// Rotates `self` counterclockwise by the angle of `rot` (measured from `Right`).
    pub fn rotation(&self, rot: Self) -> (d: Self)
        ensures
            d == spec_from_number((spec_number(*self) + spec_number(rot)) as u8),
    {
        Self::from_number(self.to_number() + rot.to_number())
    }

    /// Reads a direction from its one-character sign: `^`, `v`, `>`;
    /// every other text reads as `Left`.
    pub fn from_str(str: &str) -> (d: Self)
        ensures
            d == (if str@ == seq!['^'] {
                Direct2D::Up
            } else if str@ == seq!['v'] {
                Direct2D::Down
            } else if str@ == seq!['>'] {
                Direct2D::Right
            } else {
                Direct2D::Left
            }),
    {
        if str.unicode_len() == 1 {
            let c = str.get_char(0);
            assert(str@ =~= seq![c]);
            if c == '^' {
                return Direct2D::Up;
            } else if c == 'v' {
                return Direct2D::Down;
            } else if c == '>' {
                return Direct2D::Right;
            }
        }
        Direct2D::Left
    }

    /// The one-character sign of the direction.
    pub fn to_string(&self) -> (s: String)
        ensures
            s@ == seq![spec_sign(*self)],
    {
        let s = match self {
            Direct2D::Up => "^",
            Direct2D::Down => "v",
            Direct2D::Left => "<",
            Direct2D::Right => ">",
        };
        proof {
            reveal_strlit("^");
            reveal_strlit("v");
            reveal_strlit("<");
            reveal_strlit(">");
        }
        String::from_str(s)
    }
}

/// The direction of the negated unit vector.
pub open spec fn spec_opposite(d: Direct2D) -> Direct2D {
    spec_from_vector((-spec_vector(d).0) as i8, (-spec_vector(d).1) as i8)
}

/// The sign that `to_string` and `from_str` use for a direction.
pub open spec fn spec_sign(d: Direct2D) -> char {
    match d {
        Direct2D::Up => '^',
        Direct2D::Down => 'v',
        Direct2D::Left => '<',
        Direct2D::Right => '>',
    }
}

impl Default for Direct2D {
    fn default() -> (d: Self)
        ensures
            d == Direct2D::Right,
    {
        Direct2D::Right
    }
}

/// Reading a direction back from its number gives the direction.
pub proof fn lemma_number_roundtrip(d: Direct2D)
    ensures
        spec_from_number(spec_number(d)) == d,
{
}

/// Reading a direction back from its vector gives the direction.
pub proof fn lemma_vector_roundtrip(d: Direct2D)
    ensures
        spec_from_vector(spec_vector(d).0, spec_vector(d).1) == d,
{
}

/// Reading a direction back from its sign gives the direction.
pub proof fn lemma_sign_roundtrip(d: Direct2D)
    ensures
        (if seq![spec_sign(d)] == seq!['^'] {
            Direct2D::Up
        } else if seq![spec_sign(d)] == seq!['v'] {
            Direct2D::Down
        } else if seq![spec_sign(d)] == seq!['>'] {
            Direct2D::Right
        } else {
            Direct2D::Left
        }) == d,
{
    assert(seq!['^'][0] == '^');
    assert(seq!['v'][0] == 'v');
    assert(seq!['>'][0] == '>');
    assert(seq![spec_sign(d)][0] == spec_sign(d));
}

/// The opposite of the opposite is the direction itself.
pub proof fn lemma_opposite_involutive(d: Direct2D)
    ensures
        spec_opposite(spec_opposite(d)) == d,
{
}

/// Turning to the opposite direction is a rotation by a half turn (`Left`).
pub proof fn lemma_opposite_is_half_turn(d: Direct2D)
    ensures
        spec_opposite(d) == spec_from_number((spec_number(d) + spec_number(Direct2D::Left)) as u8),
{
}

/// Rotating by `Right` (no turn) leaves a direction as it is.
pub proof fn lemma_rotation_identity(d: Direct2D)
    ensures
        spec_from_number((spec_number(d) + spec_number(Direct2D::Right)) as u8) == d,
{
}

/// Rotations compose: rotating by `a` and then by `b` is rotating by `b` and then by `a`,
/// and both equal one rotation by the sum of the angles.
pub proof fn lemma_rotation_composes(d: Direct2D, a: Direct2D, b: Direct2D)
    ensures
        spec_from_number(
            (spec_number(spec_from_number((spec_number(d) + spec_number(a)) as u8)) + spec_number(b)) as u8,
        ) == spec_from_number(
            (spec_number(spec_from_number((spec_number(d) + spec_number(b)) as u8)) + spec_number(a)) as u8,
        ),
        spec_from_number(
            (spec_number(spec_from_number((spec_number(d) + spec_number(a)) as u8)) + spec_number(b)) as u8,
        ) == spec_from_number(((spec_number(d) + spec_number(a) + spec_number(b)) % 4) as u8),
{
}

} // verus!
