//! Rendering configuration and the line-oriented output buffer.
//!
//! `LinedBuffer` collects the rendered text.  It tracks how many character
//! columns of the current line are already occupied, so that when a
//! boundary frame is drawn every content line can be right-padded to the
//! computed width.  Padding clamps to zero if a line is wider than the
//! frame: overlong content is printed in full rather than truncated.

use vstd::prelude::*;

use crate::model::{cap, imax};

verus! {

/// Tunable rendering parameters, immutable during one render.
#[derive(Clone, Copy)]
pub struct PrettyConfig {
    /// Spaces added per nesting level.
    pub indent: usize,
    /// Preferred width of the output, exclusive of the boundaries.
    pub width: usize,
    /// Whether to wrap the output in a `+---+` frame and right-pad every
    /// content line to the frame width.
    pub need_boundaries: bool,
    /// If true, the extra padding spaces inside one-line brackets and
    /// braces are omitted (`[a, b]` instead of `[ a, b ]`).
    pub reduced_spaces: bool,
}

impl Default for PrettyConfig {
    /// Indent 4, preferred width 120, framed, normal spacing.
    fn default() -> (r: Self)
        ensures
            r.indent == 4,
            r.width == 120,
            r.need_boundaries == true,
            r.reduced_spaces == false,
    {
        PrettyConfig { indent: 4, width: 120, need_boundaries: true, reduced_spaces: false }
    }
}

/// The larger of two widths.
pub(crate) fn umax(a: usize, b: usize) -> (r: usize)
    ensures
        r as int == imax(a as int, b as int),
{
    if a >= b {
        a
    } else {
        b
    }
}

/// `n` spaces (none if `n` is negative).
pub open spec fn spaces(n: int) -> Seq<char> {
    Seq::new(
        if n < 0 {
            0
        } else {
            n as nat
        },
        |i: int| ' ',
    )
}

/// `n` dashes (none if `n` is negative).
pub open spec fn dashes(n: int) -> Seq<char> {
    Seq::new(
        if n < 0 {
            0
        } else {
            n as nat
        },
        |i: int| '-',
    )
}

/// The horizontal rule around a framed render: `+`, `width + 2` dashes,
/// `+`.  Nothing when no boundaries are drawn.
pub open spec fn horizon_seq(bnd: bool, width: int) -> Seq<char> {
    if bnd {
        seq!['+'] + dashes(cap(width + 2)) + seq!['+']
    } else {
        Seq::empty()
    }
}

/// What `begin_line` emits: the left margin of a framed line.
pub open spec fn begin_seq(bnd: bool) -> Seq<char> {
    if bnd {
        seq!['|', ' ']
    } else {
        Seq::empty()
    }
}

/// What `pusheen` emits to close the current line: right padding up to
/// the frame width and a right margin when boundaries are drawn, else a
/// bare newline.
pub open spec fn pusheen_seq(bnd: bool, width: int, occ: int) -> Seq<char> {
    if bnd {
        spaces(width - occ) + seq![' ', '|', '\n']
    } else {
        seq!['\n']
    }
}

impl PrettyConfig {
    /// Append the horizontal rule of a `width`-column frame, or nothing
    /// when boundaries are off.
    pub fn horizon(&self, out: &mut String, width: usize)
        ensures
            final(out)@ == old(out)@ + horizon_seq(self.need_boundaries, width as int),
    {
        if !self.need_boundaries {
            return ;
        }
        let ghost out0 = old(out)@;
        out.append("+");
        proof {
            reveal_strlit("+");
        }
        let total = width.saturating_add(2);
        let mut i: usize = 0;
        while i < total
            invariant
                i <= total,
                out@ == out0 + seq!['+'] + dashes(i as int),
            decreases total - i,
        {
            out.append("-");
            proof {
                reveal_strlit("-");
                assert(dashes(i + 1) =~= dashes(i as int) + seq!['-']);
                assert(out@ =~= out0 + seq!['+'] + dashes(i + 1));
            }
            i += 1;
        }
        out.append("+");
        proof {
            assert(out@ =~= out0 + horizon_seq(self.need_boundaries, width as int));
        }
    }
}

/// The output buffer of one render: the text so far, the frame width, and
/// how many columns of the current line are already occupied.
pub(crate) struct LinedBuffer {
    pub width: usize,
    /// Columns of the current line already written (margins excluded).
    pub already_occupied: usize,
    pub out: String,
    pub config: PrettyConfig,
}

impl LinedBuffer {
    /// Open a content line: emit the left margin when framed.
    pub(crate) fn begin_line(&mut self)
        ensures
            final(self).out@ == old(self).out@ + begin_seq(old(self).config.need_boundaries),
            final(self).already_occupied == old(self).already_occupied,
            final(self).width == old(self).width,
            final(self).config == old(self).config,
    {
        if self.config.need_boundaries {
            self.out.append("| ");
            proof {
                reveal_strlit("| ");
                assert(old(self).out@ + "| "@ =~= old(self).out@ + begin_seq(
                    old(self).config.need_boundaries,
                ));
            }
        }
    }

    /// Emit `s` and count its character width against the current line.
    pub(crate) fn push(&mut self, s: &str)
        ensures
            final(self).out@ == old(self).out@ + s@,
            final(self).already_occupied as int == cap(
                old(self).already_occupied + s@.len() as int,
            ),
            final(self).width == old(self).width,
            final(self).config == old(self).config,
    {
        self.out.append(s);
        let n = s.unicode_len();
        self.already_occupied = self.already_occupied.saturating_add(n);
    }

    /// Emit `amount` spaces.
    pub(crate) fn pip(&mut self, amount: usize)
        ensures
            final(self).out@ == old(self).out@ + spaces(amount as int),
            final(self).already_occupied as int == cap(old(self).already_occupied + amount as int),
            final(self).width == old(self).width,
            final(self).config == old(self).config,
    {
        let ghost out0 = self.out@;
        let ghost occ0 = self.already_occupied as int;
        let mut i: usize = 0;
        while i < amount
            invariant
                i <= amount,
                self.out@ == out0 + spaces(i as int),
                self.already_occupied as int == cap(occ0 + i as int),
                self.width == old(self).width,
                self.config == old(self).config,
                occ0 == old(self).already_occupied as int,
                0 <= occ0 <= usize::MAX as int,
            decreases amount - i,
        {
            self.push(" ");
            proof {
                reveal_strlit(" ");
                assert(spaces(i + 1) =~= spaces(i as int) + " "@);
                assert(self.out@ =~= out0 + spaces(i + 1));
            }
            i += 1;
        }
        proof {
            assert(self.out@ =~= old(self).out@ + spaces(amount as int));
        }
    }

    /// Close the current line: pad to the frame width and emit the right
    /// margin when framed (padding clamps to zero for overlong lines),
    /// else emit a bare newline.  Resets the occupied-column count.
    pub(crate) fn pusheen(&mut self)
        ensures
            final(self).out@ == old(self).out@ + pusheen_seq(
                old(self).config.need_boundaries,
                old(self).width as int,
                old(self).already_occupied as int,
            ),
            final(self).already_occupied == 0,
            final(self).width == old(self).width,
            final(self).config == old(self).config,
    {
        if self.config.need_boundaries {
            let pad = if self.width > self.already_occupied {
                self.width - self.already_occupied
            } else {
                0
            };
            self.pip(pad);
            self.push(" |\n");
            proof {
                reveal_strlit(" |\n");
                assert(spaces(pad as int) =~= spaces(
                    old(self).width - old(self).already_occupied,
                ));
                assert(self.out@ =~= old(self).out@ + pusheen_seq(
                    old(self).config.need_boundaries,
                    old(self).width as int,
                    old(self).already_occupied as int,
                ));
            }
        } else {
            self.push("\n");
            proof {
                reveal_strlit("\n");
            }
        }
        self.already_occupied = 0;
    }
}

} // verus!
