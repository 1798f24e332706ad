use vstd::prelude::*;

pub use crate::grid_position::GridPosition;
use rand::RngExt;

verus! {

/// A 32-bit pixel with blue, green, red and alpha channels, in that memory order.
#[derive(Clone, Copy, Debug, PartialEq, Eq, Structural)]
pub struct Pixel {
    pub b: u8,
    pub g: u8,
    pub r: u8,
    pub a: u8,
}

/// A screen position together with the colour drawn there.
#[derive(Clone, Copy, Debug, PartialEq, Eq, Structural)]
pub struct Vertex {
    pub position: GridPosition,
    pub color: Pixel,
}

#[verifier::external_type_specification]
#[verifier::external_body]
pub struct ExThreadRng(rand::rngs::ThreadRng);

/// Calls `rand::rng()`, the lazily seeded thread-local generator.
/// Nothing is claimed about its state.
#[verifier::external_body]
fn thread_rng() -> rand::rngs::ThreadRng {
    rand::rng()
}

/// Calls `rand::RngExt::random::<u8>` on the generator: a uniformly drawn byte.
/// Any byte can come out, so no clause restricts the result.
#[verifier::external_body]
fn random_byte(rng: &mut rand::rngs::ThreadRng) -> u8 {
    rng.random::<u8>()
}

/// The fully opaque pixel with the given blue, green and red channels.
pub fn opaque_color(b: u8, g: u8, r: u8) -> (c: Pixel)
    ensures
        c == (Pixel { b, g, r, a: 255 }),
{
    Pixel { b, g, r, a: 255 }
}

/// A fully opaque pixel whose blue, green and red channels are, in that
/// order, three bytes drawn from the thread-local generator.
pub fn random_color() -> (c: Pixel)
    ensures
        c.a == 255,
{
    let mut rng = thread_rng();
    let b = random_byte(&mut rng);
    let g = random_byte(&mut rng);
    let r = random_byte(&mut rng);
    opaque_color(b, g, r)
}

} // verus!
