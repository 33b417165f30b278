//! Constants made from single characters, among them the random constant of
//! the X factory.
use vstd::prelude::*;
use rand::{Rng, SeedableRng};
use crate::lambda::LambdaBox;
use crate::term::LamExpr;

verus! {

/// An ASCII letter or digit.
pub open spec fn is_alphanumeric(c: char) -> bool {
    ('A' <= c <= 'Z') || ('a' <= c <= 'z') || ('0' <= c <= '9')
}

/// rand's standard generator, carried through opaquely.
#[verifier::external_type_specification]
#[verifier::external_body]
pub struct ExStdRng(rand::rngs::StdRng);

/// `StdRng::try_from_os_rng()`: a generator seeded from the system's
/// randomness, or `None` where the system gives none (rand reports that as an
/// error and does not panic). Nothing is claimed of which generator it is.
#[verifier::external_body]
fn os_seeded_rng() -> (r: Option<rand::rngs::StdRng>) {
    rand::rngs::StdRng::try_from_os_rng().ok()
}

/// `Rng::sample` with `rand::distr::Alphanumeric`, read as a character: rand
/// picks a byte among the ASCII letters `A`-`Z`, `a`-`z` and the digits
/// `0`-`9`; which one is left to chance, and nothing else is claimed of it or
/// of the generator afterwards.
#[verifier::external_body]
fn sample_alphanumeric(rng: &mut rand::rngs::StdRng) -> (c: char)
    ensures
        is_alphanumeric(c),
{
    rng.sample(rand::distr::Alphanumeric) as char
}

/// `char::to_string`: the text made of the one character `c`.
#[verifier::external_body]
fn char_to_string(c: char) -> (s: String)
    ensures
        s@ == seq![c],
{
    c.to_string()
}

impl LambdaBox<String> {
    /// A box holding the constant printed as the one character `c`.
    pub fn char_const(c: char) -> (r: Self)
        ensures
            r.spec_expr() == LamExpr::Con(0),
            r.spec_consts().len() == 1,
            r.spec_consts()[0]@ == seq![c],
            r.spec_next_id() == 0,
    {
        Self::new_const(char_to_string(c))
    }

    /// A box holding a constant named by one random ASCII letter or digit;
    /// `None` where the system gives no randomness to seed the generator.
    pub fn x_factory() -> (r: Option<Self>)
        ensures
            r matches Some(b) ==> (b.spec_expr() == LamExpr::Con(0) && b.spec_consts().len() == 1
                && b.spec_consts()[0]@.len() == 1 && is_alphanumeric(b.spec_consts()[0]@[0])),
    {
        match os_seeded_rng() {
            Some(mut rng) => Some(Self::char_const(sample_alphanumeric(&mut rng))),
            None => None,
        }
    }
}

} // verus!
