use std::collections::HashMap;
use vstd::prelude::*;

use crate::parser::MouseEvent;

verus! {

/// Cell coordinates are packed into one key as `x * CELL_KEY_BASE + y`.
pub const CELL_KEY_BASE: u64 = 4294967296;

/// Where and what to draw: 1-based screen row and column, and the glyph.
#[derive(PartialEq, Eq, Structural, Debug, Clone, Copy)]
pub struct RenderOp {
    pub row: u32,
    pub col: u32,
    pub glyph: char,
}

/// Block glyph for a 4-bit quadrant mask
/// (bit 0 top-left, bit 1 top-right, bit 2 bottom-left, bit 3 bottom-right).
pub open spec fn glyph_of(mask: u8) -> char {
    if mask == 0 {
        ' '
    } else if mask == 1 {
        '\u{2598}'
    } else if mask == 2 {
        '\u{259d}'
    } else if mask == 3 {
        '\u{2580}'
    } else if mask == 4 {
        '\u{2596}'
    } else if mask == 5 {
        '\u{258c}'
    } else if mask == 6 {
        '\u{259e}'
    } else if mask == 7 {
        '\u{259b}'
    } else if mask == 8 {
        '\u{2597}'
    } else if mask == 9 {
        '\u{259a}'
    } else if mask == 10 {
        '\u{2590}'
    } else if mask == 11 {
        '\u{259c}'
    } else if mask == 12 {
        '\u{2584}'
    } else if mask == 13 {
        '\u{2599}'
    } else if mask == 14 {
        '\u{259f}'
    } else {
        '\u{2588}'
    }
}

/// The mask bit of the quadrant picked by the parities of a subpixel position.
pub open spec fn quadrant_bit(odd_x: bool, odd_y: bool) -> u8 {
    if !odd_x && !odd_y {
        1
    } else if odd_x && !odd_y {
        2
    } else if !odd_x && odd_y {
        4
    } else {
        8
    }
}

/// The abstract drawing surface: pixels per subpixel on each axis, and the quadrant
/// mask of each cell that has been drawn in (every other cell is blank).
pub struct Drawing {
    pub scale_x: nat,
    pub scale_y: nat,
    pub masks: Map<(int, int), u8>,
}

impl Drawing {
    /// Scales are positive and every mask has four bits.
    pub open spec fn wf(self) -> bool {
        &&& self.scale_x > 0
        &&& self.scale_y > 0
        &&& forall|c: (int, int)| #[trigger] self.masks.contains_key(c) ==> self.masks[c] < 16
    }

    /// The mask of cell `c`.
    pub open spec fn mask(self, c: (int, int)) -> u8 {
        if self.masks.contains_key(c) {
            self.masks[c]
        } else {
            0
        }
    }

    /// Subpixel position of an event: its pixel position divided by the scale.
    pub open spec fn subpixel(self, e: MouseEvent) -> (int, int) {
        ((e.x as nat / self.scale_x) as int, (e.y as nat / self.scale_y) as int)
    }

    /// The cell an event lands in: two subpixels per cell on each axis.
    pub open spec fn cell(self, e: MouseEvent) -> (int, int) {
        (self.subpixel(e).0 / 2, self.subpixel(e).1 / 2)
    }

    /// Which quadrant of its cell an event lands in, as the parities of its subpixel position.
    pub open spec fn quadrant(self, e: MouseEvent) -> (bool, bool) {
        (self.subpixel(e).0 % 2 == 1, self.subpixel(e).1 % 2 == 1)
    }

    pub open spec fn bit(self, e: MouseEvent) -> u8 {
        quadrant_bit(self.quadrant(e).0, self.quadrant(e).1)
    }

    /// The drawing after an event: a release changes nothing; anything else sets
    /// its quadrant's bit in its cell.
    pub open spec fn apply(self, e: MouseEvent) -> Drawing {
        if e.release {
            self
        } else {
            Drawing {
                masks: self.masks.insert(self.cell(e), self.mask(self.cell(e)) | self.bit(e)),
                ..self
            }
        }
    }

    /// What an event asks to draw: nothing for a release, else the glyph of its
    /// cell's whole mask after the event, at that cell's 1-based row and column.
    pub open spec fn render(self, e: MouseEvent) -> Option<RenderOp> {
        if e.release {
            None
        } else {
            Some(
                RenderOp {
                    row: (self.cell(e).1 + 1) as u32,
                    col: (self.cell(e).0 + 1) as u32,
                    glyph: glyph_of(self.apply(e).mask(self.cell(e))),
                },
            )
        }
    }

    /// The drawing after the events, in order.
    pub open spec fn apply_all(self, events: Seq<MouseEvent>) -> Drawing
        decreases events.len(),
    {
        if events.len() == 0 {
            self
        } else {
            self.apply_all(events.drop_last()).apply(events.last())
        }
    }
}

/// A sparse grid of cells, each holding the quadrants drawn in it so far.
pub struct Framebuffer {
    scale_x: u32,
    scale_y: u32,
    cells: HashMap<u64, u8>,
}

pub open spec fn cell_key(c: (int, int)) -> int {
    c.0 * CELL_KEY_BASE + c.1
}

pub open spec fn in_key_range(c: (int, int)) -> bool {
    0 <= c.0 < CELL_KEY_BASE && 0 <= c.1 < CELL_KEY_BASE
}

impl View for Framebuffer {
    type V = Drawing;

    closed spec fn view(&self) -> Drawing {
        Drawing {
            scale_x: self.scale_x as nat,
            scale_y: self.scale_y as nat,
            masks: Map::new(
                |c: (int, int)| in_key_range(c) && self.cells@.contains_key(cell_key(c) as u64),
                |c: (int, int)| self.cells@[cell_key(c) as u64],
            ),
        }
    }
}

proof fn lemma_key_injective(a: (int, int), b: (int, int))
    requires
        in_key_range(a),
        in_key_range(b),
        a != b,
    ensures
        cell_key(a) != cell_key(b),
        0 <= cell_key(a) <= u64::MAX,
{
}

impl Framebuffer {
    /// Scales are positive and every stored mask has four bits.
    pub closed spec fn wf(&self) -> bool {
        &&& self.scale_x > 0
        &&& self.scale_y > 0
        &&& forall|k: u64| #[trigger] self.cells@.contains_key(k) ==> self.cells@[k] < 16
    }

    /// A blank framebuffer; `scale_x` and `scale_y` are the pixels per subpixel on each axis.
    pub fn new(scale_x: u32, scale_y: u32) -> (r: Framebuffer)
        requires
            scale_x > 0,
            scale_y > 0,
        ensures
            r.wf(),
            r@.wf(),
            r@.scale_x == scale_x,
            r@.scale_y == scale_y,
            r@.masks == Map::<(int, int), u8>::empty(),
    {
        let r = Framebuffer { scale_x, scale_y, cells: HashMap::new() };
        assert(r@.masks =~= Map::<(int, int), u8>::empty());
        r
    }

    /// The quadrant mask of cell (`cx`, `cy`).
    pub fn mask(&self, cx: u32, cy: u32) -> (r: u8)
        requires
            self.wf(),
        ensures
            r == self@.mask((cx as int, cy as int)),
            r < 16,
    {
        let key: u64 = cx as u64 * CELL_KEY_BASE + cy as u64;
        assert(key == cell_key((cx as int, cy as int)));
        match self.cells.get(&key) {
            Some(m) => *m,
            None => 0,
        }
    }

    /// Feeds one event in. A release leaves everything as it was and draws nothing;
    /// any other event sets its quadrant in its cell and returns that cell's glyph.
    pub fn apply(&mut self, e: MouseEvent) -> (r: Option<RenderOp>)
        requires
            old(self).wf(),
        ensures
            final(self).wf(),
            final(self)@.wf(),
            final(self)@ == old(self)@.apply(e),
            r == old(self)@.render(e),
            e.release ==> final(self)@ == old(self)@ && r is None,
    {
        if e.release {
            return None;
        }
        let ghost d = self@;
        let sx: u32 = e.x / self.scale_x;
        let sy: u32 = e.y / self.scale_y;
        let cx: u32 = sx / 2;
        let cy: u32 = sy / 2;
        let bit: u8 = if sx % 2 == 0 && sy % 2 == 0 {
            1
        } else if sx % 2 == 1 && sy % 2 == 0 {
            2
        } else if sx % 2 == 0 && sy % 2 == 1 {
            4
        } else {
            8
        };
        let ghost c = (cx as int, cy as int);
        assert(c == d.cell(e));
        assert(bit == d.bit(e));
        let old_mask = self.mask(cx, cy);
        let new_mask: u8 = old_mask | bit;
        assert(new_mask < 16) by (bit_vector)
            requires
                old_mask < 16,
                bit == 1 || bit == 2 || bit == 4 || bit == 8,
                new_mask == old_mask | bit,
        ;
        let key: u64 = cx as u64 * CELL_KEY_BASE + cy as u64;
        assert(key == cell_key(c));
        self.cells.insert(key, new_mask);
        proof {
            assert forall|k: (int, int)|
                #![auto]
                in_key_range(k) && k != c implies (cell_key(k) as u64 != key) by {
                lemma_key_injective(k, c);
            }
            assert(self@.masks =~= d.apply(e).masks);
        }
        Some(RenderOp { row: cy + 1, col: cx + 1, glyph: glyph(new_mask) })
    }
}

/// The glyph of a 4-bit mask.
pub fn glyph(mask: u8) -> (r: char)
    requires
        mask < 16,
    ensures
        r == glyph_of(mask),
{
    if mask == 0 {
        ' '
    } else if mask == 1 {
        '\u{2598}'
    } else if mask == 2 {
        '\u{259d}'
    } else if mask == 3 {
        '\u{2580}'
    } else if mask == 4 {
        '\u{2596}'
    } else if mask == 5 {
        '\u{258c}'
    } else if mask == 6 {
        '\u{259e}'
    } else if mask == 7 {
        '\u{259b}'
    } else if mask == 8 {
        '\u{2597}'
    } else if mask == 9 {
        '\u{259a}'
    } else if mask == 10 {
        '\u{2590}'
    } else if mask == 11 {
        '\u{259c}'
    } else if mask == 12 {
        '\u{2584}'
    } else if mask == 13 {
        '\u{2599}'
    } else if mask == 14 {
        '\u{259f}'
    } else {
        '\u{2588}'
    }
}

/// The sixteen glyphs are pairwise distinct; mask 0 is a blank and mask 15 the full block.
pub proof fn lemma_glyphs_distinct(a: u8, b: u8)
    requires
        a < 16,
        b < 16,
        a != b,
    ensures
        glyph_of(a) != glyph_of(b),
        glyph_of(0) == ' ',
        glyph_of(15) == '\u{2588}',
{
}

/// Feeding the same press or drag twice changes nothing the second time, and both
/// times the same render op comes back.
pub proof fn lemma_apply_idempotent(d: Drawing, e: MouseEvent)
    requires
        !e.release,
    ensures
        d.apply(e).apply(e) == d.apply(e),
        d.apply(e).render(e) == d.render(e),
{
    let c = d.cell(e);
    let m = d.mask(c);
    let b = d.bit(e);
    assert((m | b) | b == m | b) by (bit_vector);
    assert(d.apply(e).apply(e).masks =~= d.apply(e).masks);
}

/// Masks only grow: after any event every cell keeps all the bits it had.
pub proof fn lemma_apply_grows(d: Drawing, e: MouseEvent, c: (int, int))
    ensures
        d.apply(e).mask(c) & d.mask(c) == d.mask(c),
{
    let m = d.mask(c);
    if !e.release && c == d.cell(e) {
        let b = d.bit(e);
        assert((m | b) & m == m) by (bit_vector);
    } else {
        assert(m & m == m) by (bit_vector);
    }
}

/// Along any sequence of events, the mask of each cell after `n + 1` events holds
/// every bit it held after `n`.
pub proof fn lemma_masks_grow_along(d: Drawing, events: Seq<MouseEvent>, n: int, c: (int, int))
    requires
        0 <= n < events.len(),
    ensures
        d.apply_all(events.take(n + 1)).mask(c) & d.apply_all(events.take(n)).mask(c)
            == d.apply_all(events.take(n)).mask(c),
{
    assert(events.take(n + 1).drop_last() =~= events.take(n));
    lemma_apply_grows(d.apply_all(events.take(n)), events[n], c);
}

/// Presses in the four quadrants of one cell, in any order, fill it: its mask ends
/// at 15 and the last render op draws the full block.
pub proof fn lemma_four_quadrants_fill(
    d: Drawing,
    e0: MouseEvent,
    e1: MouseEvent,
    e2: MouseEvent,
    e3: MouseEvent,
)
    requires
        d.wf(),
        !e0.release,
        !e1.release,
        !e2.release,
        !e3.release,
        d.cell(e1) == d.cell(e0),
        d.cell(e2) == d.cell(e0),
        d.cell(e3) == d.cell(e0),
        d.quadrant(e0) != d.quadrant(e1),
        d.quadrant(e0) != d.quadrant(e2),
        d.quadrant(e0) != d.quadrant(e3),
        d.quadrant(e1) != d.quadrant(e2),
        d.quadrant(e1) != d.quadrant(e3),
        d.quadrant(e2) != d.quadrant(e3),
    ensures
        d.apply(e0).apply(e1).apply(e2).apply(e3).mask(d.cell(e0)) == 15,
        d.apply(e0).apply(e1).apply(e2).render(e3) == Some(
            RenderOp {
                row: (d.cell(e0).1 + 1) as u32,
                col: (d.cell(e0).0 + 1) as u32,
                glyph: '\u{2588}',
            },
        ),
{
    let m = d.mask(d.cell(e0));
    let b0 = d.bit(e0);
    let b1 = d.bit(e1);
    let b2 = d.bit(e2);
    let b3 = d.bit(e3);
    assert(((((m | b0) | b1) | b2) | b3) == 15) by (bit_vector)
        requires
            m < 16,
            b0 == 1 || b0 == 2 || b0 == 4 || b0 == 8,
            b1 == 1 || b1 == 2 || b1 == 4 || b1 == 8,
            b2 == 1 || b2 == 2 || b2 == 4 || b2 == 8,
            b3 == 1 || b3 == 2 || b3 == 4 || b3 == 8,
            b0 != b1,
            b0 != b2,
            b0 != b3,
            b1 != b2,
            b1 != b3,
            b2 != b3,
    ;
}

/// A release never changes the drawing and never asks for anything to be drawn.
pub proof fn lemma_release_inert(d: Drawing, e: MouseEvent)
    requires
        e.release,
    ensures
        d.apply(e) == d,
        d.render(e) is None,
{
}

} // verus!
