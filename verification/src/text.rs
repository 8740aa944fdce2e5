use vstd::prelude::*;

verus! {

use crate::grid::Maze;
use crate::CellState;
use vstd::string::StringExecFns;

/// The dump character of one cell: `#` for wall, `.` for open floor.
pub open spec fn render_char(c: CellState) -> char {
    if c is Open {
        '.'
    } else {
        '#'
    }
}

/// One dumped row: the row's cells, then a line break.
pub open spec fn row_chars(m: Maze, y: int) -> Seq<char> {
    Seq::new((m.width + 1) as nat, |x: int|
        if x < m.width {
            render_char(m.cells@[y * m.width + x])
        } else {
            '\n'
        })
}

/// The first `y` dumped rows, concatenated.
pub open spec fn render_upto(m: Maze, y: int) -> Seq<char>
    decreases y,
{
    if y <= 0 {
        Seq::empty()
    } else {
        render_upto(m, y - 1) + row_chars(m, y - 1)
    }
}

/// The whole textual dump of a grid, one line per row.
pub open spec fn render(m: Maze) -> Seq<char> {
    render_upto(m, m.height as int)
}

impl Maze {
    /// The textual dump of the grid: `#` for `Wall`, `.` for `Open`,
    /// one row per line. A debugging aid, and the only text format the
    /// library defines.
    pub fn to_text(&self) -> (r: String)
        requires
            self.wf(),
        ensures
            r@ == render(*self),
    {
        let mut s = String::new();
        let mut y: usize = 0;
        while y < self.height
            invariant
                self.wf(),
                y <= self.height,
                s@ == render_upto(*self, y as int),
            decreases self.height - y,
        {
            let mut x: usize = 0;
            while x < self.width
                invariant
                    self.wf(),
                    y < self.height,
                    x <= self.width,
                    s@ == render_upto(*self, y as int) + row_chars(*self, y as int).take(x as int),
                decreases self.width - x,
            {
                let i = self.index(x, y);
                let ghost s_pre = s@;
                if matches!(self.cells[i], CellState::Wall) {
                    s.append("#");
                    proof {
                        reveal_strlit("#");
                        assert(s@ == s_pre.push('#'));
                    }
                } else {
                    s.append(".");
                    proof {
                        reveal_strlit(".");
                        assert(s@ == s_pre.push('.'));
                    }
                }
                proof {
                    assert(row_chars(*self, y as int).take(x as int + 1) =~= row_chars(
                        *self,
                        y as int,
                    ).take(x as int).push(render_char(self.cells@[y * self.width + x])));
                    assert(s@ =~= render_upto(*self, y as int) + row_chars(*self, y as int).take(
                        x as int + 1,
                    ));
                }
                x = x + 1;
            }
            let ghost s_pre = s@;
            s.append("\n");
            proof {
                reveal_strlit("\n");
                assert(s@ == s_pre.push('\n'));
                assert(row_chars(*self, y as int).take(self.width as int).push('\n')
                    =~= row_chars(*self, y as int));
                assert(s@ =~= render_upto(*self, y as int + 1));
            }
            y = y + 1;
        }
        s
    }
}

} // verus!
