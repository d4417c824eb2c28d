//! A text picture of a grid, for reading by people.

use crate::grid::Grid;
use crate::shape::Bitfield3D;
use vstd::prelude::*;

verus! {

/// The mark drawn above a picture, once per column.
pub const TOP_MARK: char = '\u{2c7}';

/// `n` copies of `c`.
pub open spec fn repeated(c: char, n: int) -> Seq<char> {
    Seq::new(n as nat, |i: int| c)
}

/// Row `y` of slice `z`: one digit per cell, then a line break.
pub open spec fn row_text(g: Grid, y: int, z: int) -> Seq<char> {
    Seq::new(g.w as nat, |x: int| if g.at(x, y, z) { '1' } else { '0' }).push('\n')
}

/// The first `k` rows of slice `z`.
pub open spec fn rows_text(g: Grid, z: int, k: int) -> Seq<char>
    decreases k,
{
    if k <= 0 {
        Seq::empty()
    } else {
        rows_text(g, z, k - 1) + row_text(g, k - 1, z)
    }
}

/// The first `k` slices, each but the first led by a line of dashes.
pub open spec fn slices_text(g: Grid, k: int) -> Seq<char>
    decreases k,
{
    if k <= 0 {
        Seq::empty()
    } else if k == 1 {
        rows_text(g, 0, g.h)
    } else {
        slices_text(g, k - 1) + repeated('-', g.w).push('\n') + rows_text(g, k - 1, g.h)
    }
}

/// The whole picture: a line of top marks, the slices, a line of carets.
pub open spec fn picture(g: Grid) -> Seq<char> {
    repeated(TOP_MARK, g.w).push('\n') + slices_text(g, g.d) + repeated('^', g.w).push('\n')
}

/// Relies on `String::push`: appends one character.
#[verifier::external_body]
fn push_char(s: &mut String, c: char)
    ensures
        final(s)@ == old(s)@.push(c),
{
    s.push(c);
}

/// Appends `n` copies of `c` and a line break.
fn push_line_of(s: &mut String, c: char, n: isize)
    requires
        n >= 0,
    ensures
        final(s)@ == old(s)@ + repeated(c, n as int).push('\n'),
{
    let ghost start = s@;
    let mut i: isize = 0;
    while i < n
        invariant
            0 <= i <= n,
            s@ == start + repeated(c, i as int),
        decreases n - i,
    {
        push_char(s, c);
        proof {
            assert(start + repeated(c, i + 1) =~= (start + repeated(c, i as int)).push(c));
        }
        i = i + 1;
    }
    push_char(s, '\n');
    proof {
        assert(s@ =~= start + repeated(c, n as int).push('\n'));
    }
}

impl Bitfield3D {
    /// Appends the rows of slice `z`.
    fn push_slice(&self, s: &mut String, z: isize)
        requires
            self.wf(),
            0 <= z < self@.d,
        ensures
            final(s)@ == old(s)@ + rows_text(self@, z as int, self@.h),
    {
        let ghost start = s@;
        let mut y: isize = 0;
        while y < self.height
            invariant
                self.wf(),
                0 <= z < self@.d,
                0 <= y <= self.height,
                s@ == start + rows_text(self@, z as int, y as int),
            decreases self.height - y,
        {
            let ghost before = s@;
            let mut x: isize = 0;
            while x < self.width
                invariant
                    self.wf(),
                    0 <= z < self@.d,
                    0 <= y < self.height,
                    0 <= x <= self.width,
                    s@ == before + Seq::new(
                        x as nat,
                        |i: int| if self@.at(i, y as int, z as int) { '1' } else { '0' },
                    ),
                decreases self.width - x,
            {
                let bit = if self.get_unchecked(x, y, z) {
                    '1'
                } else {
                    '0'
                };
                push_char(s, bit);
                proof {
                    assert(s@ =~= before + Seq::new(
                        (x + 1) as nat,
                        |i: int| if self@.at(i, y as int, z as int) { '1' } else { '0' },
                    ));
                }
                x = x + 1;
            }
            push_char(s, '\n');
            proof {
                assert(s@ =~= start + rows_text(self@, z as int, y + 1));
            }
            y = y + 1;
        }
    }

    /// A picture of this grid: a line of `width` top marks; then each of the
    /// `depth` slices as `height` rows of `width` digits, `1` for a set cell,
    /// with a line of `width` dashes between slices; then `width` carets.
    pub fn render(&self) -> (r: String)
        requires
            self.wf(),
        ensures
            r@ == picture(self@),
    {
        let mut s = String::new();
        push_line_of(&mut s, TOP_MARK, self.width);
        let ghost head = s@;
        let mut z: isize = 0;
        while z < self.depth
            invariant
                self.wf(),
                0 <= z <= self.depth,
                s@ == head + slices_text(self@, z as int),
            decreases self.depth - z,
        {
            let ghost before = s@;
            if z != 0 {
                push_line_of(&mut s, '-', self.width);
            }
            self.push_slice(&mut s, z);
            proof {
                if z == 0 {
                    assert(s@ =~= head + slices_text(self@, z + 1));
                } else {
                    assert(s@ =~= head + slices_text(self@, z + 1));
                }
            }
            z = z + 1;
        }
        push_line_of(&mut s, '^', self.width);
        proof {
            assert(s@ =~= picture(self@));
        }
        s
    }
}

} // verus!
