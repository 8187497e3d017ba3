//! Pixels, their linear position on the canvas and the byte layout of a color.

use vstd::prelude::*;

verus! {

/// Number of cells along each side of the square canvas.
pub const CANVAS_SIDE: u32 = 2000;

/// Number of cells of the canvas.
pub const CANVAS_CELLS: u32 = 4_000_000;

/// Number of bytes that one cell occupies.
pub const BYTES_PER_PIXEL: usize = 4;

/// Number of bytes of the whole canvas.
pub const CANVAS_BYTES: usize = 16_000_000;

/// One cell update: coordinates and a color of four packed 8-bit channels.
#[derive(Clone, Copy, Debug, PartialEq, Eq, Structural)]
pub struct Pixel {
    pub x: u32,
    pub y: u32,
    pub color: u32,
}

impl Pixel {
    /// Both coordinates lie on the canvas.
    pub open spec fn in_bounds(self) -> bool {
        self.x < CANVAS_SIDE && self.y < CANVAS_SIDE
    }

    /// The linear index of the cell, row by row.
    pub open spec fn position(self) -> int {
        self.y * CANVAS_SIDE + self.x
    }

    /// Tells whether both coordinates lie on the canvas.
    pub fn is_in_bounds(&self) -> (b: bool)
        ensures
            b == self.in_bounds(),
    {
        self.x < CANVAS_SIDE && self.y < CANVAS_SIDE
    }

    /// Computes the linear index of an in-bounds pixel.
    pub fn cell(&self) -> (p: u32)
        requires
            self.in_bounds(),
        ensures
            p == self.position(),
            p < CANVAS_CELLS,
    {
        self.y * CANVAS_SIDE + self.x
    }
}

/// Every in-bounds pixel has a position on the canvas, and two in-bounds
/// pixels share a position only if they share both coordinates.
pub proof fn lemma_position_names_one_cell(p: Pixel, q: Pixel)
    requires
        p.in_bounds(),
        q.in_bounds(),
    ensures
        0 <= p.position() < CANVAS_CELLS,
        p.position() == q.position() <==> p.x == q.x && p.y == q.y,
{
}

/// An immutable copy of a pixel that the durable store has accepted.
#[derive(Clone, Copy, Debug, PartialEq, Eq, Structural)]
pub struct CommitEvent {
    pub x: u32,
    pub y: u32,
    pub color: u32,
}

impl CommitEvent {
    /// The event that reports `pixel`.
    pub open spec fn of(pixel: Pixel) -> CommitEvent {
        CommitEvent { x: pixel.x, y: pixel.y, color: pixel.color }
    }

    /// Builds the event that reports `pixel`.
    pub fn from_pixel(pixel: Pixel) -> (event: CommitEvent)
        ensures
            event == CommitEvent::of(pixel),
    {
        CommitEvent { x: pixel.x, y: pixel.y, color: pixel.color }
    }
}

/// The four channel bytes of a color, most significant channel first.
pub open spec fn color_bytes(color: u32) -> Seq<u8> {
    seq![
        (color / 0x100_0000) as u8,
        (color / 0x1_0000 % 0x100) as u8,
        (color / 0x100 % 0x100) as u8,
        (color % 0x100) as u8,
    ]
}

/// The color whose channel bytes, most significant first, are the first four
/// bytes of `bytes`.
pub open spec fn color_of_bytes(bytes: Seq<u8>) -> int {
    bytes[0] * 0x100_0000 + bytes[1] * 0x1_0000 + bytes[2] * 0x100 + bytes[3]
}

/// Splits a color into its four channel bytes, most significant first.
pub fn split_color(color: u32) -> (bytes: [u8; 4])
    ensures
        bytes@ == color_bytes(color),
{
    let b0: u8 = (color >> 24) as u8;
    let b1: u8 = ((color >> 16) & 0xFF) as u8;
    let b2: u8 = ((color >> 8) & 0xFF) as u8;
    let b3: u8 = (color & 0xFF) as u8;
    assert(color >> 24 == color / 0x100_0000) by (bit_vector);
    assert((color >> 16) & 0xFF == color / 0x1_0000 % 0x100) by (bit_vector);
    assert((color >> 8) & 0xFF == color / 0x100 % 0x100) by (bit_vector);
    assert(color & 0xFF == color % 0x100) by (bit_vector);
    let bytes = [b0, b1, b2, b3];
    assert(bytes@ =~= color_bytes(color));
    bytes
}

/// Decoding the channel bytes of a color gives the color back: the layout
/// loses nothing.
pub proof fn lemma_color_bytes_round_trip(color: u32)
    ensures
        color_bytes(color).len() == 4,
        color_of_bytes(color_bytes(color)) == color,
{
}

} // verus!
