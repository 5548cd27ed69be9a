//! Colours.
use vstd::prelude::*;
use rand::Rng;

verus! {

/// An RGB colour.
#[derive(Clone, Copy, PartialEq, Eq, Structural, Debug)]
pub struct Color(pub u8, pub u8, pub u8);

impl Color {
    /// The colour with the given red, green and blue parts.
    pub fn rgb(r: u8, g: u8, b: u8) -> (c: Color)
        ensures
            c == Color(r, g, b),
    {
        Color(r, g, b)
    }

    /// A colour drawn at random.
    pub fn rand() -> (c: Color) {
        Color(random_byte(), random_byte(), random_byte())
    }
}

/// Relies on rand::random: a byte drawn from the thread-local generator. Like any
/// use of that generator it panics only if the system's entropy source fails.
#[verifier::external_body]
pub(crate) fn random_byte() -> (r: u8) {
    rand::random::<u8>()
}

/// Relies on rand::Rng::gen_range: a value drawn uniformly from `0..n`, which it
/// asserts is not empty. The thread-local generator behind it panics only if the
/// system's entropy source fails.
#[verifier::external_body]
pub(crate) fn random_below(n: usize) -> (r: usize)
    requires
        n > 0,
    ensures
        r < n,
{
    rand::thread_rng().gen_range(0..n)
}

} // verus!
