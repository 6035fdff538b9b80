//! Box sizing: each node's rendered box size, computed from its text
//! content and fixed style constants, in integer layout units.

use vstd::prelude::*;
use vstd::math::max;
use crate::model::{node_bounded, Node, NodeS, MAX_TEXT};

verus! {

/// Width of one character of the body metric, in layout units.
pub const CHAR_WIDTH: i64 = 10;

/// Height of one text line, in layout units.
pub const LINE_HEIGHT: i64 = 18;

/// Height of a node's title section.
pub const TITLE_HEIGHT: i64 = 22;

/// Horizontal padding on each side of a node's content.
pub const PAD_X: i64 = 15;

/// Vertical padding on each side of a node's content, also used as the
/// spacing between the title and the text lines.
pub const PAD_Y: i64 = 5;

/// Smallest width a node box may have.
pub const MIN_BOX_W: i64 = 40;

/// Smallest height a node box may have.
pub const MIN_BOX_H: i64 = 30;

/// Largest width any box reaches under the model bounds.
pub const MAX_BOX_W: i64 = 536870912;

/// Largest height any box reaches under the model bounds.
pub const MAX_BOX_H: i64 = 536870912;

/// Mathematical value of a `BoxSize`.
#[verifier::ext_equal]
pub ghost struct BoxS {
    pub w: int,
    pub h: int,
}

/// Computed size of one node's box, independent of position.
#[derive(Clone, Copy, Debug, PartialEq, Eq, Structural)]
pub struct BoxSize {
    pub w: i64,
    pub h: i64,
}

impl View for BoxSize {
    type V = BoxS;

    open spec fn view(&self) -> BoxS {
        BoxS { w: self.w as int, h: self.h as int }
    }
}

/// The character count of the widest line.
pub open spec fn max_line_len(lines: Seq<Seq<char>>) -> int
    decreases lines.len(),
{
    if lines.len() == 0 {
        0
    } else {
        max(lines[0].len() as int, max_line_len(lines.drop_first()))
    }
}

/// A node's box size: the widest of title and lines, by the monospace
/// character width, plus horizontal padding, floored at the minimum width;
/// the title, the title spacing, the lines, and vertical padding, floored
/// at the minimum height.
pub open spec fn spec_box(n: NodeS) -> BoxS {
    BoxS {
        w: max(
            max(n.title.len() as int, max_line_len(n.lines)) * (CHAR_WIDTH as int) + 2 * (
            PAD_X as int),
            MIN_BOX_W as int,
        ),
        h: max(
            (TITLE_HEIGHT as int) + (PAD_Y as int) + n.lines.len() * (LINE_HEIGHT as int) + 2 * (
            PAD_Y as int),
            MIN_BOX_H as int,
        ),
    }
}

/// The widest line of a bounded node is itself bounded.
proof fn lemma_max_line_len_bounded(lines: Seq<Seq<char>>)
    requires
        forall|i: int| 0 <= i < lines.len() ==> #[trigger] lines[i].len() <= MAX_TEXT,
    ensures
        0 <= max_line_len(lines) <= MAX_TEXT,
    decreases lines.len(),
{
    if lines.len() == 0 {
    } else {
        assert(forall|i: int|
            0 <= i < lines.drop_first().len() ==> #[trigger] lines.drop_first()[i].len()
                <= MAX_TEXT);
        lemma_max_line_len_bounded(lines.drop_first());
    }
}

/// A bounded node's box dimensions are positive and bounded.
pub proof fn lemma_box_bounds(n: NodeS)
    requires
        node_bounded(n),
    ensures
        0 < spec_box(n).w <= MAX_BOX_W,
        0 < spec_box(n).h <= MAX_BOX_H,
{
    lemma_max_line_len_bounded(n.lines);
}

/// Computes one node's box size from its title and text lines.
pub fn box_size(node: &Node) -> (b: BoxSize)
    requires
        node_bounded(node@),
    ensures
        b@ == spec_box(node@),
        0 < b.w <= MAX_BOX_W,
        0 < b.h <= MAX_BOX_H,
{
    proof {
        lemma_box_bounds(node@);
    }
    let ghost lines = node@.lines;
    let mut widest: usize = node.title.as_str().unicode_len();
    let mut i: usize = 0;
    proof {
        assert(lines.skip(0) =~= lines);
    }
    while i < node.lines.len()
        invariant
            0 <= i <= node.lines.len(),
            lines == node@.lines,
            lines.len() == node.lines.len(),
            node_bounded(node@),
            widest <= MAX_TEXT,
            max(node@.title.len() as int, max_line_len(lines)) == max(
                widest as int,
                max_line_len(lines.skip(i as int)),
            ),
        decreases node.lines.len() - i,
    {
        proof {
            assert(lines[i as int] == node.lines@[i as int]@);
            assert(lines.skip(i as int)[0] == lines[i as int]);
            assert(lines.skip(i as int).drop_first() =~= lines.skip(i as int + 1));
            assert(lines[i as int].len() <= MAX_TEXT);
        }
        let len = node.lines[i].as_str().unicode_len();
        if len > widest {
            widest = len;
        }
        i = i + 1;
    }
    proof {
        assert(lines.skip(lines.len() as int) =~= Seq::<Seq<char>>::empty());
        lemma_max_line_len_bounded(lines);
    }
    let content_w: i64 = (widest as i64) * CHAR_WIDTH + 2 * PAD_X;
    let w: i64 = if content_w < MIN_BOX_W {
        MIN_BOX_W
    } else {
        content_w
    };
    let content_h: i64 = TITLE_HEIGHT + PAD_Y + (node.lines.len() as i64) * LINE_HEIGHT + 2
        * PAD_Y;
    let h: i64 = if content_h < MIN_BOX_H {
        MIN_BOX_H
    } else {
        content_h
    };
    BoxSize { w, h }
}

} // verus!
