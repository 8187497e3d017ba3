//! The in-memory mirror of the canvas: a fixed-length byte buffer that is read
//! as a whole and patched one cell at a time.

use vstd::prelude::*;
use crate::pixel::{color_bytes, split_color, BYTES_PER_PIXEL, CANVAS_BYTES, CANVAS_CELLS};

verus! {

/// The canvas after the cell at `position` has been given `color`: the four
/// bytes of the cell hold the color's channel bytes, every other byte stays.
pub open spec fn patched(canvas: Seq<u8>, position: int, color: u32) -> Seq<u8> {
    Seq::new(
        canvas.len(),
        |i: int|
            if 4 * position <= i < 4 * position + 4 {
                color_bytes(color)[i - 4 * position]
            } else {
                canvas[i]
            },
    )
}

/// The four bytes of the cell at `position`.
pub open spec fn cell_bytes(canvas: Seq<u8>, position: int) -> Seq<u8> {
    canvas.subrange(4 * position, 4 * position + 4)
}

/// After a patch the cell holds the channel bytes of the color, every other
/// cell holds what it held, and the canvas is as long as before.
pub proof fn lemma_patched_cell(canvas: Seq<u8>, position: int, color: u32, other: int)
    requires
        canvas.len() == CANVAS_BYTES,
        0 <= position < CANVAS_CELLS,
        0 <= other < CANVAS_CELLS,
    ensures
        patched(canvas, position, color).len() == CANVAS_BYTES,
        cell_bytes(patched(canvas, position, color), position) == color_bytes(color),
        other != position ==> cell_bytes(patched(canvas, position, color), other) == cell_bytes(
            canvas,
            other,
        ),
{
    let after = patched(canvas, position, color);
    assert(cell_bytes(after, position) =~= color_bytes(color));
    if other != position {
        assert(cell_bytes(after, other) =~= cell_bytes(canvas, other));
    }
}

/// The full canvas buffer. It always holds exactly `CANVAS_BYTES` bytes.
pub struct CanvasCache {
    bytes: Vec<u8>,
}

impl View for CanvasCache {
    type V = Seq<u8>;

    closed spec fn view(&self) -> Seq<u8> {
        self.bytes@
    }
}

impl CanvasCache {
    #[verifier::type_invariant]
    spec fn fixed_length(self) -> bool {
        self.bytes@.len() == CANVAS_BYTES
    }

    /// Takes the bytes loaded from the durable store as the canvas. The buffer
    /// is accepted exactly when it has the length of the canvas; a buffer of
    /// another length is handed back.
    pub fn hydrate(bytes: Vec<u8>) -> (r: Result<CanvasCache, Vec<u8>>)
        ensures
            bytes@.len() == CANVAS_BYTES ==> r is Ok && r->Ok_0@ == bytes@,
            bytes@.len() != CANVAS_BYTES ==> r is Err && r->Err_0@ == bytes@,
    {
        if bytes.len() == CANVAS_BYTES {
            Ok(CanvasCache { bytes })
        } else {
            Err(bytes)
        }
    }

    /// Returns a copy of the whole canvas.
    pub fn read(&self) -> (snapshot: Vec<u8>)
        ensures
            snapshot@ == self@,
            snapshot@.len() == CANVAS_BYTES,
    {
        proof {
            use_type_invariant(self);
        }
        self.bytes.clone()
    }

    /// Writes the channel bytes of `color` into the cell at `position` and
    /// leaves every other byte as it was.
    pub fn patch(&mut self, position: u32, color: u32)
        requires
            position < CANVAS_CELLS,
        ensures
            final(self)@ == patched(old(self)@, position as int, color),
    {
        proof {
            use_type_invariant(&*self);
        }
        let channels = split_color(color);
        let base: usize = position as usize * BYTES_PER_PIXEL;
        self.bytes[base] = channels[0];
        self.bytes[base + 1] = channels[1];
        self.bytes[base + 2] = channels[2];
        self.bytes[base + 3] = channels[3];
        assert(self.bytes@ =~= patched(old(self).bytes@, position as int, color));
    }
}

} // verus!
