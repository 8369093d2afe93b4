//! The screen model: a 2-D cell grid with cursor, current pen attributes,
//! implicit scrollback and lazy materialization of rows and cells.
//!
//! Rows may be shorter than `width`; a read past a row's current length
//! sees the default cell. The cursor may temporarily exceed the viewport
//! bounds; the next write materializes rows and cells and adjusts `top`.
use vstd::prelude::*;

use crate::attr::Attr;

verus! {

/// One character position in the grid: a scalar and its packed attributes.
#[derive(Clone, Copy, Debug, PartialEq, Eq, Structural)]
pub struct Cell {
    pub ch: char,
    pub attr: Attr,
}

/// The cell that any unmaterialized position shows: a space with no
/// attributes.
pub open spec fn default_cell() -> Cell {
    Cell { ch: ' ', attr: Attr { val: 0 } }
}

/// The mathematical state of a screen: rows of cells plus the scalar
/// fields of `VT`.
pub ghost struct VtModel {
    pub lines: Seq<Seq<Cell>>,
    pub height: usize,
    pub width: usize,
    pub top: usize,
    pub row: usize,
    pub col: usize,
    pub hide_cursor: bool,
    pub attr: Attr,
}

impl VtModel {
    /// The cell visible at a position: a materialized cell, or the
    /// default cell past a row's current length.
    pub open spec fn cell(self, r: int, c: int) -> Cell {
        if 0 <= r < self.lines.len() && 0 <= c < self.lines[r].len() {
            self.lines[r][c]
        } else {
            default_cell()
        }
    }
}

/// `lines` extended with empty rows until it has at least `n` of them.
pub open spec fn grow_lines(lines: Seq<Seq<Cell>>, n: int) -> Seq<Seq<Cell>> {
    if lines.len() >= n {
        lines
    } else {
        lines + Seq::new((n - lines.len()) as nat, |i: int| Seq::<Cell>::empty())
    }
}

/// `line` extended with default cells until it has at least `n` of them.
pub open spec fn pad_line(line: Seq<Cell>, n: int) -> Seq<Cell> {
    if line.len() >= n {
        line
    } else {
        line + Seq::new((n - line.len()) as nat, |i: int| default_cell())
    }
}

/// What `VT::ensure_pos` does: wrap the cursor at `width`, materialize
/// rows and cells up to the cursor, and pull `top` down after it.
pub open spec fn spec_ensure_pos(m: VtModel) -> VtModel {
    let row1: usize = if m.col >= m.width {
        m.row.saturating_add(1)
    } else {
        m.row
    };
    let col1: usize = if m.col >= m.width {
        0usize
    } else {
        m.col
    };
    let lines1 = grow_lines(m.lines, row1 + 1);
    let lines2 = lines1.update(row1 as int, pad_line(lines1[row1 as int], col1 + 1));
    let top1: usize = if row1 >= m.height && row1 - m.height >= m.top {
        ((row1 - m.height) as usize).saturating_add(1)
    } else {
        m.top
    };
    VtModel { lines: lines2, top: top1, row: row1, col: col1, ..m }
}

/// What `VT::put` does: materialize the cursor position, write the
/// scalar there with the current pen, and advance the cursor.
pub open spec fn spec_put(m: VtModel, ch: char) -> VtModel {
    let m1 = spec_ensure_pos(m);
    let line = m1.lines[m1.row as int].update(m1.col as int, Cell { ch: ch, attr: m.attr });
    VtModel {
        lines: m1.lines.update(m1.row as int, line),
        col: (m1.col + 1) as usize,
        ..m1
    }
}



/// The characters of one row.
pub open spec fn line_chars(l: Seq<Cell>) -> Seq<char> {
    l.map_values(|c: Cell| c.ch)
}

/// All rows flattened to text, each row followed by a newline.
pub open spec fn dump_chars(lines: Seq<Seq<Cell>>) -> Seq<char>
    decreases lines.len(),
{
    if lines.len() == 0 {
        Seq::empty()
    } else {
        dump_chars(lines.drop_last()) + line_chars(lines.last()) + seq!['\n']
    }
}

/// The screen a fresh session starts from: an empty 80 by 25 grid.
pub open spec fn spec_new_vt() -> VtModel {
    VtModel {
        lines: Seq::empty(),
        height: 25,
        width: 80,
        top: 0,
        row: 0,
        col: 0,
        hide_cursor: false,
        attr: Attr { val: 0 },
    }
}

/// `m` after writing each character of `chars` in order.
pub open spec fn spec_put_all(m: VtModel, chars: Seq<char>) -> VtModel
    decreases chars.len(),
{
    if chars.len() == 0 {
        m
    } else {
        spec_put_all(spec_put(m, chars[0]), chars.skip(1))
    }
}

/// Scalar fields of two models agree; used to frame loops that only
/// touch the grid.
pub open spec fn same_scalars(a: VtModel, b: VtModel) -> bool {
    a.height == b.height && a.width == b.width && a.top == b.top && a.row == b.row && a.col
        == b.col && a.hide_cursor == b.hide_cursor && a.attr == b.attr
}

/// `n` default cells in a row.
pub open spec fn blank_cells(n: nat) -> Seq<Cell> {
    Seq::new(n, |i: int| default_cell())
}

/// What `VT::insert_blanks` does: materialize the cursor position, then
/// insert `n` default cells at the cursor, leaving the cursor in place.
pub open spec fn spec_insert_blanks(m: VtModel, n: nat) -> VtModel {
    let m1 = spec_ensure_pos(m);
    let line = m1.lines[m1.row as int];
    let line2 = line.take(m1.col as int) + blank_cells(n) + line.skip(m1.col as int);
    VtModel { lines: m1.lines.update(m1.row as int, line2), ..m1 }
}

/// What `VT::delete_chars` does: remove up to `n` cells at the cursor
/// from the current row, shifting the rest of the row left.
pub open spec fn spec_delete_chars(m: VtModel, n: nat) -> VtModel {
    if m.row < m.lines.len() && m.col < m.lines[m.row as int].len() {
        let line = m.lines[m.row as int];
        let cut: int = if m.col + n <= line.len() {
            m.col + n
        } else {
            line.len() as int
        };
        VtModel {
            lines: m.lines.update(m.row as int, line.take(m.col as int) + line.skip(cut)),
            ..m
        }
    } else {
        m
    }
}

/// What `VT::clear_viewport` does: empty every materialized row of the
/// viewport, `top` included, up to `top + height`.
pub open spec fn spec_clear_viewport(m: VtModel) -> VtModel {
    let end: int = if m.top.saturating_add(m.height) <= m.lines.len() {
        m.top.saturating_add(m.height) as int
    } else {
        m.lines.len() as int
    };
    VtModel { lines: cleared_upto(m.lines, m.top as int, end), ..m }
}

/// `lines` with the rows in `[from, upto)` emptied.
pub open spec fn cleared_upto(lines: Seq<Seq<Cell>>, from: int, upto: int) -> Seq<Seq<Cell>> {
    Seq::new(
        lines.len(),
        |i: int|
            if from <= i < upto {
                Seq::<Cell>::empty()
            } else {
                lines[i]
            },
    )
}

/// What `VT::erase_line_right` does: truncate the current row at the
/// cursor when both are materialized.
pub open spec fn spec_erase_line_right(m: VtModel) -> VtModel {
    VtModel {
        lines: if m.row < m.lines.len() && m.col < m.lines[m.row as int].len() {
            m.lines.update(m.row as int, m.lines[m.row as int].take(m.col as int))
        } else {
            m.lines
        },
        ..m
    }
}

/// Mapping rows to their views commutes with updating one row.
proof fn lemma_map_update(pv: Seq<Vec<Cell>>, x: Vec<Cell>, r: int)
    requires
        0 <= r < pv.len(),
    ensures
        pv.update(r, x).map_values(|l: Vec<Cell>| l@) == pv.map_values(
            |l: Vec<Cell>| l@,
        ).update(r, x@),
{
    let a = pv.update(r, x).map_values(|l: Vec<Cell>| l@);
    let b = pv.map_values(|l: Vec<Cell>| l@).update(r, x@);
    assert forall|i: int| 0 <= i < a.len() implies a[i] == b[i] by {
        assert(pv.update(r, x)[i] == if i == r {
            x
        } else {
            pv[i]
        });
    }
    assert(a =~= b);
}

/// Mapping rows to their views commutes with inserting one row.
proof fn lemma_map_insert(pv: Seq<Vec<Cell>>, x: Vec<Cell>, r: int)
    requires
        0 <= r <= pv.len(),
    ensures
        pv.insert(r, x).map_values(|l: Vec<Cell>| l@) == pv.map_values(
            |l: Vec<Cell>| l@,
        ).insert(r, x@),
{
    let a = pv.insert(r, x).map_values(|l: Vec<Cell>| l@);
    let b = pv.map_values(|l: Vec<Cell>| l@).insert(r, x@);
    assert forall|i: int| 0 <= i < a.len() implies a[i] == b[i] by {
        if i < r {
            assert(pv.insert(r, x)[i] == pv[i]);
        } else if i == r {
            assert(pv.insert(r, x)[i] == x);
        } else {
            assert(pv.insert(r, x)[i] == pv[i - 1]);
        }
    }
    assert(a =~= b);
}

/// The mutable grid state.
pub struct VT {
    pub lines: Vec<Vec<Cell>>,
    /// The number of lines visible on screen.
    pub height: usize,
    /// The number of columns visible on screen.
    pub width: usize,
    /// The index of the first visible line on screen.
    pub top: usize,
    /// The index of the line the cursor is on, relative to the lines buffer.
    pub row: usize,
    /// The column the cursor is on.
    pub col: usize,
    /// True if the cursor shouldn't be displayed.
    pub hide_cursor: bool,
    /// The current display attributes, to be used when text is added.
    pub attr: Attr,
}

impl View for VT {
    type V = VtModel;

    open spec fn view(&self) -> VtModel {
        VtModel {
            lines: self.lines@.map_values(|l: Vec<Cell>| l@),
            height: self.height,
            width: self.width,
            top: self.top,
            row: self.row,
            col: self.col,
            hide_cursor: self.hide_cursor,
            attr: self.attr,
        }
    }
}

impl VT {
    pub fn new() -> (vt: VT)
        ensures
            vt@.lines == Seq::<Seq<Cell>>::empty(),
            vt@.height == 25,
            vt@.width == 80,
            vt@.top == 0,
            vt@.row == 0,
            vt@.col == 0,
            vt@.hide_cursor == false,
            vt@.attr.val == 0,
            vt@ == spec_new_vt(),
    {
        VT {
            lines: Vec::new(),
            height: 25,
            width: 80,
            top: 0,
            row: 0,
            col: 0,
            hide_cursor: false,
            attr: Attr { val: 0 },
        }
    }

    /// Materialize rows and cells as needed for the cursor position,
    /// wrapping at `width` and updating `top`. Establishes the write
    /// invariants: afterwards the cursor addresses a materialized cell,
    /// and the viewport has followed the cursor downward.
    pub fn ensure_pos(&mut self)
        ensures
            final(self)@ == spec_ensure_pos(old(self)@),
            final(self).row < final(self).lines.len(),
            final(self).col < final(self)@.lines[final(self).row as int].len(),
    {
        let ghost m = self@;
        if self.col >= self.width {
            self.row = self.row.saturating_add(1);
            self.col = 0;
        }
        let r1 = self.row;
        let c1 = self.col;
        let ghost lines0 = self@.lines;
        proof {
            assert(self@.lines =~= grow_lines(lines0, self.lines@.len() as int));
        }
        while self.lines.len() <= r1
            invariant
                self.row == r1,
                self.col == c1,
                self.top == m.top,
                self.height == m.height,
                self.width == m.width,
                self.attr == m.attr,
                self.hide_cursor == m.hide_cursor,
                lines0.len() <= self.lines@.len(),
                self.lines@.len() > lines0.len() ==> self.lines@.len() <= r1 + 1,
                self@.lines == grow_lines(lines0, self.lines@.len() as int),
            decreases r1 + 1 - self.lines@.len(),
        {
            let ghost pv = self.lines@;
            let ghost mpre = self@.lines;
            self.lines.push(Vec::new());
            proof {
                let mpost = self@.lines;
                assert forall|i: int| 0 <= i < mpre.len() implies mpost[i] == mpre[i] by {
                    assert(self.lines@[i] == pv[i]);
                }
                assert(mpost[mpre.len() as int] =~= Seq::<Cell>::empty());
                assert(mpost =~= grow_lines(lines0, mpost.len() as int));
            }
        }
        proof {
            assert(self@.lines =~= grow_lines(lines0, r1 + 1));
        }
        let ghost lines1 = self@.lines;
        let ghost line0 = lines1[r1 as int];
        proof {
            assert(pad_line(line0, self@.lines[r1 as int].len() as int) =~= line0);
            assert(lines1.update(r1 as int, line0) =~= lines1);
        }
        while self.lines[r1].len() <= c1
            invariant
                self.row == r1,
                self.col == c1,
                self.top == m.top,
                self.height == m.height,
                self.width == m.width,
                self.attr == m.attr,
                self.hide_cursor == m.hide_cursor,
                r1 < self.lines@.len(),
                lines1.len() == self.lines@.len(),
                line0.len() <= self@.lines[r1 as int].len(),
                self@.lines[r1 as int].len() > line0.len() ==> self@.lines[r1 as int].len() <= c1
                    + 1,
                self@.lines == lines1.update(
                    r1 as int,
                    pad_line(line0, self@.lines[r1 as int].len() as int),
                ),
            decreases c1 + 1 - self.lines@[r1 as int].len(),
        {
            let ghost pv = self.lines@;
            let ghost mpre = self@.lines;
            self.lines[r1].push(Cell { ch: ' ', attr: Attr { val: 0 } });
            proof {
                let mpost = self@.lines;
                assert forall|i: int| 0 <= i < mpre.len() && i != r1 implies mpost[i] == mpre[i]
                by {
                    assert(self.lines@[i] == pv[i]);
                }
                assert(mpost[r1 as int] =~= mpre[r1 as int].push(default_cell()));
                assert(mpre[r1 as int].push(default_cell()) =~= pad_line(
                    line0,
                    mpost[r1 as int].len() as int,
                ));
                assert(mpost =~= lines1.update(
                    r1 as int,
                    pad_line(line0, mpost[r1 as int].len() as int),
                ));
            }
        }
        proof {
            assert(self@.lines =~= lines1.update(r1 as int, pad_line(line0, c1 + 1)));
        }
        if self.row >= self.height && self.row - self.height >= self.top {
            self.top = (self.row - self.height).saturating_add(1);
        }
        proof {
            assert(self@.lines == spec_ensure_pos(m).lines);
            assert(self@ == spec_ensure_pos(m));
        }
    }

    /// Write `ch` with the current pen at the cursor and advance the
    /// cursor one column.
    pub fn put(&mut self, ch: char)
        ensures
            final(self)@ == spec_put(old(self)@, ch),
    {
        let ghost m = self@;
        self.ensure_pos();
        let r = self.row;
        let c = self.col;
        let cell = Cell { ch: ch, attr: self.attr };
        let ghost pv = self.lines@;
        let ghost mpre = self@.lines;
        self.lines[r][c] = cell;
        self.col = c + 1;
        proof {
            let m1 = spec_ensure_pos(m);
            let mpost = self@.lines;
            assert forall|i: int| 0 <= i < mpre.len() && i != r implies mpost[i] == mpre[i] by {
                assert(self.lines@[i] == pv[i]);
            }
            assert(mpost[r as int] =~= mpre[r as int].update(c as int, cell));
            assert(mpost =~= m1.lines.update(
                m1.row as int,
                m1.lines[m1.row as int].update(m1.col as int, Cell { ch: ch, attr: m.attr }),
            ));
            assert(self@ == spec_put(m, ch));
        }
    }

    /// Cursor up by `n`, clamped at the top of the line buffer.
    pub fn move_up(&mut self, n: usize)
        ensures
            final(self)@ == (VtModel { row: old(self).row.saturating_sub(n), ..old(self)@ }),
    {
        self.row = self.row.saturating_sub(n);
    }

    /// Cursor down by `n`.
    pub fn move_down(&mut self, n: usize)
        ensures
            final(self)@ == (VtModel { row: old(self).row.saturating_add(n), ..old(self)@ }),
    {
        self.row = self.row.saturating_add(n);
    }

    /// Cursor left by `n`, clamped at column 0.
    pub fn move_left(&mut self, n: usize)
        ensures
            final(self)@ == (VtModel { col: old(self).col.saturating_sub(n), ..old(self)@ }),
    {
        self.col = self.col.saturating_sub(n);
    }

    /// Cursor right by `n`.
    pub fn move_right(&mut self, n: usize)
        ensures
            final(self)@ == (VtModel { col: old(self).col.saturating_add(n), ..old(self)@ }),
    {
        self.col = self.col.saturating_add(n);
    }

    /// Move to 1-based row `r` within the viewport and 1-based column
    /// `c`, both clamped to position 1 from below.
    pub fn move_to(&mut self, r: usize, c: usize)
        ensures
            final(self)@ == (VtModel {
                row: old(self).top.saturating_add(r.saturating_sub(1)),
                col: c.saturating_sub(1),
                ..old(self)@
            }),
    {
        self.row = self.top.saturating_add(r.saturating_sub(1));
        self.col = c.saturating_sub(1);
    }

    /// Move to 1-based row `r` within the viewport, keeping the column.
    pub fn move_to_row(&mut self, r: usize)
        ensures
            final(self)@ == (VtModel {
                row: old(self).top.saturating_add(r.saturating_sub(1)),
                ..old(self)@
            }),
    {
        self.row = self.top.saturating_add(r.saturating_sub(1));
    }

    /// Drop the last line if it's empty; used when a subprocess exits to
    /// strip the final newline.
    pub fn trim(&mut self)
        ensures
            final(self)@ == (VtModel {
                row: if old(self).col == 0 && old(self).row > 0 && old(self).row
                    >= old(self).lines.len() {
                    (old(self).row - 1) as usize
                } else {
                    old(self).row
                },
                ..old(self)@
            }),
    {
        if self.col == 0 && self.row > 0 && self.row >= self.lines.len() {
            self.row = self.row - 1;
        }
    }


    /// Insert `n` blank cells at the cursor; the cursor and the rest of
    /// the row shift right in content terms but the cursor position does
    /// not change.
    pub fn insert_blanks(&mut self, n: usize)
        ensures
            final(self)@ == spec_insert_blanks(old(self)@, n as nat),
    {
        let ghost m = self@;
        self.ensure_pos();
        let ghost m1 = spec_ensure_pos(m);
        let r = self.row;
        let c = self.col;
        let ghost line = m1.lines[r as int];
        proof {
            assert(line.take(c as int) + blank_cells(0) + line.skip(c as int) =~= line);
            assert(m1.lines.update(r as int, line) =~= m1.lines);
        }
        let mut k: usize = 0;
        while k < n
            invariant
                k <= n,
                same_scalars(self@, m1),
                self.row == r,
                self.col == c,
                r < self.lines@.len(),
                r < m1.lines.len(),
                c < line.len(),
                self@.lines == m1.lines.update(
                    r as int,
                    line.take(c as int) + blank_cells(k as nat) + line.skip(c as int),
                ),
            decreases n - k,
        {
            let ghost pv = self.lines@;
            proof {
                assert(self@.lines == m1.lines.update(
                    r as int,
                    line.take(c as int) + blank_cells(k as nat) + line.skip(c as int),
                ));
                assert(self@.lines.len() == self.lines@.len());
                assert(self@.lines.len() == m1.lines.len());
                assert(self@.lines[r as int] == line.take(c as int) + blank_cells(k as nat)
                    + line.skip(c as int));
                assert(line.take(c as int).len() == c);
                assert(blank_cells(k as nat).len() == k);
                assert(line.skip(c as int).len() == line.len() - c);
                assert(self.lines@[r as int]@ == self@.lines[r as int]);
                assert(self@.lines[r as int].len() == line.len() + k);
            }
            self.lines[r].insert(c, Cell { ch: ' ', attr: Attr { val: 0 } });
            k += 1;
            proof {
                lemma_map_update(pv, self.lines@[r as int], r as int);
                assert(pv[r as int]@ == line.take(c as int) + blank_cells((k - 1) as nat)
                    + line.skip(c as int));
                assert(self.lines@[r as int]@ =~= line.take(c as int) + blank_cells(k as nat)
                    + line.skip(c as int));
                assert(self@.lines =~= m1.lines.update(
                    r as int,
                    line.take(c as int) + blank_cells(k as nat) + line.skip(c as int),
                ));
            }
        }
    }

    /// Delete up to `n` cells at the cursor from the current row; the
    /// cells to the right shift left and the row shortens.
    pub fn delete_chars(&mut self, n: usize)
        ensures
            final(self)@ == spec_delete_chars(old(self)@, n as nat),
    {
        let ghost m = self@;
        if self.row >= self.lines.len() {
            return ;
        }
        let r = self.row;
        let c = self.col;
        if c >= self.lines[r].len() {
            proof {
                assert(self.lines@[r as int]@ == self@.lines[r as int]);
            }
            return ;
        }
        let ghost line = m.lines[r as int];
        proof {
            assert(self.lines@[r as int]@ == self@.lines[r as int]);
            assert(m.lines.update(r as int, line) =~= m.lines);
            assert(line.take(c as int) + line.skip(c as int) =~= line);
        }
        let mut k: usize = 0;
        while k < n && c < self.lines[r].len()
            invariant
                k <= n,
                same_scalars(self@, m),
                self.row == r,
                self.col == c,
                r < self.lines@.len(),
                r < m.lines.len(),
                c < line.len() || k > 0,
                c + k <= line.len(),
                self@.lines == m.lines.update(
                    r as int,
                    line.take(c as int) + line.skip(c + k),
                ),
            decreases n - k,
        {
            let ghost pv = self.lines@;
            proof {
                assert(self.lines@[r as int]@ == self@.lines[r as int]);
                assert(self@.lines[r as int].len() == line.len() - k);
                assert(c + k < line.len());
            }
            self.lines[r].remove(c);
            k += 1;
            proof {
                lemma_map_update(pv, self.lines@[r as int], r as int);
                assert(pv[r as int]@ == line.take(c as int) + line.skip(c + k - 1));
                assert(self.lines@[r as int]@ =~= line.take(c as int) + line.skip(c + k));
                assert(self@.lines =~= m.lines.update(
                    r as int,
                    line.take(c as int) + line.skip(c + k),
                ));
            }
        }
        proof {
            assert(self.lines@[r as int]@ == self@.lines[r as int]);
            let cut: int = if c + n <= line.len() {
                c + n
            } else {
                line.len() as int
            };
            assert(c + k == cut || (k == n && c + k <= cut));
            assert(line.take(c as int) + line.skip(c + k) =~= line.take(c as int) + line.skip(cut));
            assert(self@ == spec_delete_chars(m, n as nat));
        }
    }

    /// Insert an empty line at index `r`, shifting later lines down.
    pub fn insert_line_at(&mut self, r: usize)
        requires
            r <= old(self).lines.len(),
        ensures
            final(self)@ == (VtModel {
                lines: old(self)@.lines.insert(r as int, Seq::<Cell>::empty()),
                ..old(self)@
            }),
    {
        let ghost pv = self.lines@;
        self.lines.insert(r, Vec::new());
        proof {
            lemma_map_insert(pv, self.lines@[r as int], r as int);
        }
    }

    /// Erase to the right: truncate the current row at the cursor.
    pub fn erase_line_right(&mut self)
        ensures
            final(self)@ == spec_erase_line_right(old(self)@),
    {
        let ghost m = self@;
        if self.row < self.lines.len() {
            let r = self.row;
            let c = self.col;
            if c < self.lines[r].len() {
                let ghost pv = self.lines@;
                self.lines[r].truncate(c);
                proof {
                    lemma_map_update(pv, self.lines@[r as int], r as int);
                    assert(self.lines@[r as int]@ =~= m.lines[r as int].take(c as int));
                    assert(self@.lines =~= m.lines.update(
                        r as int,
                        m.lines[r as int].take(c as int),
                    ));
                }
            }
        }
    }

    /// Clear every materialized viewport row: from `top` up to
    /// `top + height`, each row becomes empty.
    pub fn clear_viewport(&mut self)
        ensures
            final(self)@ == spec_clear_viewport(old(self)@),
    {
        let ghost m = self@;
        let end = if self.top.saturating_add(self.height) <= self.lines.len() {
            self.top.saturating_add(self.height)
        } else {
            self.lines.len()
        };
        let mut i = self.top;
        proof {
            assert(self@.lines =~= cleared_upto(m.lines, m.top as int, m.top as int));
        }
        while i < end
            invariant
                m.top <= i,
                i <= end || i == m.top as int,
                end <= self.lines@.len(),
                end == if m.top.saturating_add(m.height) <= m.lines.len() {
                    m.top.saturating_add(m.height) as int
                } else {
                    m.lines.len() as int
                },
                same_scalars(self@, m),
                self@.lines == cleared_upto(m.lines, m.top as int, i as int),
            decreases end - i,
        {
            let ghost pv = self.lines@;
            self.lines[i].clear();
            i += 1;
            proof {
                lemma_map_update(pv, self.lines@[i - 1], i - 1);
                assert(self@.lines =~= cleared_upto(m.lines, m.top as int, i as int));
            }
        }
        proof {
            let cl = cleared_upto(m.lines, m.top as int, i as int);
            let sp = spec_clear_viewport(m).lines;
            assert forall|j: int| 0 <= j < m.lines.len() implies cl[j] == sp[j] by {
                if i > end {
                    assert(i == m.top as int);
                }
            }
            assert(cl =~= sp);
            assert(self@ == spec_clear_viewport(m));
        }
    }


    /// The text of row `i`, or the empty string past the last row.
    pub fn line_text(&self, i: usize) -> (r: String)
        ensures
            i < self@.lines.len() ==> r@ == line_chars(self@.lines[i as int]),
            i >= self@.lines.len() ==> r@ == Seq::<char>::empty(),
    {
        let mut buf = String::new();
        if i >= self.lines.len() {
            return buf;
        }
        let mut j: usize = 0;
        while j < self.lines[i].len()
            invariant
                i < self.lines@.len(),
                j <= self@.lines[i as int].len(),
                buf@ == line_chars(self@.lines[i as int]).take(j as int),
            decreases self@.lines[i as int].len() - j,
        {
            let c = self.lines[i][j].ch;
            crate::strutil::push_char(&mut buf, c);
            j += 1;
            proof {
                assert(buf@ =~= line_chars(self@.lines[i as int]).take(j as int));
            }
        }
        proof {
            assert(line_chars(self@.lines[i as int]).take(j as int) =~= line_chars(
                self@.lines[i as int],
            ));
        }
        buf
    }

    /// The whole grid as text, one line per row.
    pub fn dump(&self) -> (r: String)
        ensures
            r@ == dump_chars(self@.lines),
    {
        let mut buf = String::new();
        let mut i: usize = 0;
        proof {
            assert(self@.lines.take(0) =~= Seq::<Seq<Cell>>::empty());
        }
        while i < self.lines.len()
            invariant
                i <= self.lines@.len(),
                buf@ == dump_chars(self@.lines.take(i as int)),
            decreases self.lines@.len() - i,
        {
            let ghost pre = buf@;
            let mut j: usize = 0;
            while j < self.lines[i].len()
                invariant
                    i < self.lines@.len(),
                    j <= self@.lines[i as int].len(),
                    buf@ == pre + line_chars(self@.lines[i as int]).take(j as int),
                decreases self@.lines[i as int].len() - j,
            {
                let c = self.lines[i][j].ch;
                crate::strutil::push_char(&mut buf, c);
                j += 1;
                proof {
                    assert(buf@ =~= pre + line_chars(self@.lines[i as int]).take(j as int));
                }
            }
            crate::strutil::push_char(&mut buf, '\n');
            i += 1;
            proof {
                let pref = self@.lines.take(i as int);
                assert(pref.drop_last() =~= self@.lines.take(i - 1));
                assert(pref.last() == self@.lines[i - 1]);
                assert(line_chars(self@.lines[i - 1]).take(self@.lines[i - 1].len() as int)
                    =~= line_chars(self@.lines[i - 1]));
                assert(buf@ =~= dump_chars(pref));
            }
        }
        proof {
            assert(self@.lines.take(self.lines@.len() as int) =~= self@.lines);
        }
        buf
    }

    /// The cell visible at `(r, c)`: the materialized cell, or the
    /// default cell past a row's current length.
    pub fn cell_at(&self, r: usize, c: usize) -> (cell: Cell)
        ensures
            cell == self@.cell(r as int, c as int),
    {
        if r < self.lines.len() && c < self.lines[r].len() {
            self.lines[r][c]
        } else {
            Cell { ch: ' ', attr: Attr { val: 0 } }
        }
    }
}


/// The text of row 0, or the empty sequence when no row exists yet.
pub open spec fn row0_chars(m: VtModel) -> Seq<char> {
    if m.lines.len() == 0 {
        Seq::empty()
    } else {
        line_chars(m.lines[0])
    }
}

proof fn lemma_put_step(m: VtModel, c: char)
    requires
        m.row == 0,
        m.top == 0,
        m.height >= 1,
        m.lines.len() <= 1,
        m.col == row0_chars(m).len(),
        m.col < m.width,
    ensures
        ({
            let m1 = spec_put(m, c);
            m1.row == 0 && m1.top == 0 && m1.height == m.height && m1.width == m.width && m1.attr
                == m.attr && m1.col == m.col + 1 && m1.lines.len() == 1 && row0_chars(m1)
                == row0_chars(m).push(c)
        }),
{
    let me = spec_ensure_pos(m);
    assert(me.row == 0 && me.col == m.col);
    let g = grow_lines(m.lines, 1);
    if m.lines.len() == 0 {
        assert(g[0] =~= Seq::<Cell>::empty());
    } else {
        assert(g == m.lines);
    }
    assert(g.len() == 1);
    assert(g[0].len() == m.col);
    assert(pad_line(g[0], m.col + 1) =~= g[0].push(default_cell()));
    assert(me.lines == g.update(0, pad_line(g[0], m.col + 1)));
    assert(me.lines.len() == 1);
    let m1 = spec_put(m, c);
    assert(m1.lines.len() == 1);
    assert(m1.col == me.col + 1);
    assert(me.lines[me.row as int] == pad_line(g[0], m.col + 1));
    assert(m1.lines[0] == pad_line(g[0], m.col + 1).update(
        m.col as int,
        Cell { ch: c, attr: m.attr },
    ));
    assert(m1.lines[0] =~= g[0].push(Cell { ch: c, attr: m.attr }));
    assert(line_chars(m1.lines[0]).len() == m.col + 1);
    assert(row0_chars(m).push(c).len() == m.col + 1);
    assert forall|i: int| 0 <= i <= m.col implies line_chars(m1.lines[0])[i] == row0_chars(
        m,
    ).push(c)[i] by {
        assert(line_chars(m1.lines[0])[i] == m1.lines[0][i].ch);
        if i < m.col {
            assert(m1.lines[0][i] == g[0][i]);
            assert(row0_chars(m)[i] == g[0][i].ch);
        }
    }
    assert(row0_chars(m1) =~= row0_chars(m).push(c));
}

proof fn lemma_put_row(m: VtModel, cs: Seq<char>)
    requires
        m.row == 0,
        m.top == 0,
        m.height >= 1,
        m.lines.len() <= 1,
        m.col == row0_chars(m).len(),
        m.col + cs.len() <= m.width,
    ensures
        ({
            let m2 = spec_put_all(m, cs);
            m2.row == 0 && m2.top == 0 && m2.height == m.height && m2.width == m.width && m2.col
                == m.col + cs.len() && m2.lines.len() <= 1 && row0_chars(m2) == row0_chars(m) + cs
        }),
    decreases cs.len(),
{
    if cs.len() == 0 {
        assert(row0_chars(m) + cs =~= row0_chars(m));
    } else {
        lemma_put_step(m, cs[0]);
        let m1 = spec_put(m, cs[0]);
        lemma_put_row(m1, cs.skip(1));
        assert(row0_chars(m) + cs =~= (row0_chars(m).push(cs[0])) + cs.skip(1));
    }
}

/// Round trip: on a fresh screen, writing a sequence of printable ASCII
/// characters that fits in one row leaves exactly those characters as
/// the text of row 0.
pub proof fn lemma_ascii_round_trip(cs: Seq<char>)
    requires
        forall|i: int| 0 <= i < cs.len() ==> ' ' <= #[trigger] cs[i] <= '~',
        cs.len() <= 80,
    ensures
        row0_chars(spec_put_all(spec_new_vt(), cs)) == cs,
        spec_put_all(spec_new_vt(), cs).row == 0,
        spec_put_all(spec_new_vt(), cs).col == cs.len(),
        spec_put_all(spec_new_vt(), cs).top == 0,
{
    lemma_put_row(spec_new_vt(), cs);
    assert(row0_chars(spec_new_vt()) + cs =~= cs);
}

/// Invariant I2 of the screen: right after a write, if the cursor row
/// has reached past the viewport, the viewport has been pulled down so
/// the cursor sits on its last line.
pub proof fn lemma_viewport_follows_cursor(m: VtModel)
    requires
        m.height >= 1,
    ensures
        spec_ensure_pos(m).row >= spec_ensure_pos(m).top + spec_ensure_pos(m).height
            ==> spec_ensure_pos(m).top == spec_ensure_pos(m).row - spec_ensure_pos(m).height + 1,
        spec_ensure_pos(m).row < spec_ensure_pos(m).top + spec_ensure_pos(m).height
            || spec_ensure_pos(m).top > usize::MAX - spec_ensure_pos(m).height,
{
}

} // verus!
