//! Packing of 8-bit color channels into the `0xAARRGGBB` pixel format that
//! the display buffer and the image encoder both consume.

use vstd::arithmetic::div_mod::{lemma_div_denominator, lemma_fundamental_div_mod_converse};
use vstd::prelude::*;

verus! {

/// The red channel stored in a packed `0xAARRGGBB` pixel.
pub open spec fn red_of(p: u32) -> int {
    (p as int / 0x1_0000) % 0x100
}

/// The green channel stored in a packed `0xAARRGGBB` pixel.
pub open spec fn green_of(p: u32) -> int {
    (p as int / 0x100) % 0x100
}

/// The blue channel stored in a packed `0xAARRGGBB` pixel.
pub open spec fn blue_of(p: u32) -> int {
    p as int % 0x100
}

/// Packs three 8-bit channels into one display-ready pixel with an opaque
/// alpha byte, so that each channel can be read back exactly.
pub fn from_rgb(r: u8, g: u8, b: u8) -> (p: u32)
    ensures
        p == 0xFF00_0000u32 + (r as u32) * 0x1_0000 + (g as u32) * 0x100 + (b as u32),
        red_of(p) == r,
        green_of(p) == g,
        blue_of(p) == b,
{
    let p: u32 = 0xFF00_0000u32 + (r as u32) * 0x1_0000 + (g as u32) * 0x100 + (b as u32);
    proof {
        lemma_channels(r, g, b, p);
    }
    p
}

/// The RGB byte stream of a packed pixel buffer: three bytes per pixel in
/// red, green, blue order, the alpha byte dropped — the layout the image
/// encoder takes.
pub fn to_rgb_bytes(buffer: &Vec<u32>) -> (r: Vec<u8>)
    ensures
        r@.len() == 3 * buffer@.len(),
        forall|j: int|
            0 <= j < buffer@.len() ==> r@[3 * j] == red_of(#[trigger] buffer@[j]) && r@[3 * j + 1]
                == green_of(buffer@[j]) && r@[3 * j + 2] == blue_of(buffer@[j]),
{
    let mut out: Vec<u8> = Vec::new();
    let mut i: usize = 0;
    let n = buffer.len();
    while i < n
        invariant
            i <= n,
            n == buffer@.len(),
            out@.len() == 3 * i,
            forall|j: int|
                0 <= j < i ==> out@[3 * j] == red_of(#[trigger] buffer@[j]) && out@[3 * j + 1]
                    == green_of(buffer@[j]) && out@[3 * j + 2] == blue_of(buffer@[j]),
        decreases n - i,
    {
        let p = buffer[i];
        out.push(((p / 0x1_0000) % 0x100) as u8);
        out.push(((p / 0x100) % 0x100) as u8);
        out.push((p % 0x100) as u8);
        i = i + 1;
    }
    out
}

/// Each channel of a packed pixel reads back as the byte that was packed.
proof fn lemma_channels(r: u8, g: u8, b: u8, p: u32)
    requires
        p == 0xFF00_0000 + r * 0x1_0000 + g * 0x100 + b,
    ensures
        red_of(p) == r,
        green_of(p) == g,
        blue_of(p) == b,
{
    let q1 = 0xFF_0000 + r * 0x100 + g;
    assert(p == q1 * 0x100 + b) by {
        assert(q1 * 0x100 == 0xFF00_0000 + r * 0x1_0000 + g * 0x100);
    }
    lemma_fundamental_div_mod_converse(p as int, 0x100, q1, b as int);
    let q2 = 0xFF00 + r;
    assert(q1 == q2 * 0x100 + g) by {
        assert(q2 * 0x100 == 0xFF_0000 + r * 0x100);
    }
    lemma_fundamental_div_mod_converse(q1, 0x100, q2, g as int);
    lemma_div_denominator(p as int, 0x100, 0x100);
    assert(p as int / 0x1_0000 == q2);
    lemma_fundamental_div_mod_converse(q2, 0x100, 0xFF, r as int);
}

} // verus!
