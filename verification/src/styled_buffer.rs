//! A growable 2-D grid of styled characters addressed by (row, column).
//!
//! Writes may land anywhere: rows and columns grow on demand with
//! space-filled padding, and reads outside the current bounds yield the
//! default cell (a space with no style). Rendering turns each row into the
//! sequence of its maximal consecutive same-style runs, in column order.

use vstd::prelude::*;
use crate::snippet::Style;

verus! {

/// One cell of the 2-D grid: a character with its style.
#[derive(Copy, Clone, PartialEq, Eq, Structural, Debug)]
pub struct StyledChar {
    pub ch: char,
    pub style: Style,
}

/// A maximal run of consecutive same-style characters in a rendered row.
#[derive(Clone, Debug)]
pub struct StyledString {
    pub text: Vec<char>,
    pub style: Style,
}

impl View for StyledString {
    type V = (Seq<char>, Style);

    open spec fn view(&self) -> (Seq<char>, Style) {
        (self.text@, self.style)
    }
}

/// The default cell: what unaddressed or out-of-range positions hold.
pub open spec fn blank_char() -> StyledChar {
    StyledChar { ch: ' ', style: Style::NoStyle }
}

/// The cell of grid `v` at (row, col); the default cell when out of range.
pub open spec fn cell_at(v: Seq<Seq<StyledChar>>, row: int, col: int) -> StyledChar {
    if 0 <= row < v.len() && 0 <= col < v[row].len() {
        v[row][col]
    } else {
        blank_char()
    }
}

/// The current length of row `row` of grid `v`; 0 when the row does not exist.
pub open spec fn row_len(v: Seq<Seq<StyledChar>>, row: int) -> int {
    if 0 <= row < v.len() {
        v[row].len() as int
    } else {
        0
    }
}

/// The number of rows of a grid after a write touching row index `i`.
pub open spec fn grown_len(n: int, i: int) -> int {
    if i + 1 > n {
        i + 1
    } else {
        n
    }
}

/// The canonical decomposition of one grid row into maximal same-style runs,
/// in column order.
pub open spec fn runs_of(row: Seq<StyledChar>) -> Seq<(Seq<char>, Style)>
    decreases row.len(),
{
    if row.len() == 0 {
        Seq::empty()
    } else {
        let prev = runs_of(row.drop_last());
        let c = row.last();
        if prev.len() > 0 && prev.last().1 == c.style {
            prev.update(prev.len() - 1, (prev.last().0.push(c.ch), c.style))
        } else {
            prev.push((seq![c.ch], c.style))
        }
    }
}

/// The rendering of a whole grid: each row decomposed into its runs.
pub open spec fn spec_render(v: Seq<Seq<StyledChar>>) -> Seq<Seq<(Seq<char>, Style)>> {
    v.map_values(|row: Seq<StyledChar>| runs_of(row))
}

/// The view of one rendered row.
pub open spec fn styled_row_view(r: Seq<StyledString>) -> Seq<(Seq<char>, Style)> {
    r.map_values(|s: StyledString| s@)
}

/// The view of a rendered grid.
pub open spec fn rendered_view(r: Seq<Vec<StyledString>>) -> Seq<Seq<(Seq<char>, Style)>> {
    r.map_values(|row: Vec<StyledString>| styled_row_view(row@))
}

/// A growable 2-D grid of styled characters: the shared mutable resource of
/// one emission pass.
pub struct StyledBuffer {
    rows: Vec<Vec<StyledChar>>,
}

impl View for StyledBuffer {
    type V = Seq<Seq<StyledChar>>;

    closed spec fn view(&self) -> Seq<Seq<StyledChar>> {
        self.rows@.map_values(|r: Vec<StyledChar>| r@)
    }
}

impl StyledBuffer {
    /// An empty grid.
    pub fn new() -> (r: StyledBuffer)
        ensures
            r@ == Seq::<Seq<StyledChar>>::empty(),
    {
        let r = StyledBuffer { rows: Vec::new() };
        proof {
            assert(r@ =~= Seq::<Seq<StyledChar>>::empty());
        }
        r
    }

    /// The current number of rows.
    pub fn num_lines(&self) -> (n: usize)
        ensures
            n == self@.len(),
    {
        self.rows.len()
    }

    /// Grow the grid with empty rows until row `line` exists.
    fn ensure_lines(&mut self, line: usize)
        requires
            line < usize::MAX,
        ensures
            final(self)@.len() == grown_len(old(self)@.len() as int, line as int),
            forall|r: int| 0 <= r < old(self)@.len() ==> final(self)@[r] == old(self)@[r],
            forall|r: int|
                old(self)@.len() <= r < final(self)@.len() ==> final(self)@[r].len() == 0,
    {
        while self.rows.len() <= line
            invariant
                old(self)@.len() <= self@.len() <= grown_len(old(self)@.len() as int, line as int),
                forall|r: int| 0 <= r < old(self)@.len() ==> self@[r] == old(self)@[r],
                forall|r: int| old(self)@.len() <= r < self@.len() ==> self@[r].len() == 0,
            decreases line + 1 - self.rows.len(),
        {
            let ghost pre = self@;
            self.rows.push(Vec::new());
            proof {
                assert(self@.len() == pre.len() + 1);
                assert(forall|r: int| 0 <= r < pre.len() ==> self@[r] == pre[r]);
                assert(self@[pre.len() as int].len() == 0);
                assert forall|r: int|
                    old(self)@.len() <= r < self@.len() implies self@[r].len() == 0 by {
                    if r < pre.len() {
                        assert(self@[r] == pre[r]);
                        assert(pre[r].len() == 0);
                    } else {
                        assert(r == pre.len());
                    }
                }
            }
        }
    }

    /// Set one cell, growing rows and columns as needed with space-filled
    /// padding. Every other cell keeps its previous (possibly default) value.
    pub fn putc(&mut self, line: usize, col: usize, chr: char, style: Style)
        requires
            line < usize::MAX,
            col < usize::MAX,
        ensures
            final(self)@.len() == grown_len(old(self)@.len() as int, line as int),
            forall|r: int|
                #![trigger row_len(final(self)@, r)]
                row_len(final(self)@, r) == if r == line as int {
                    grown_len(row_len(old(self)@, r), col as int)
                } else {
                    row_len(old(self)@, r)
                },
            forall|r: int, c: int|
                #![trigger cell_at(final(self)@, r, c)]
                cell_at(final(self)@, r, c) == if r == line as int && c == col as int {
                    (StyledChar { ch: chr, style })
                } else {
                    cell_at(old(self)@, r, c)
                },
    {
        self.ensure_lines(line);
        let ghost mid = self@;
        let ghost l = line as int;
        let ghost rows_mid = self.rows@;

        // Take the addressed row out, apply the write, put it back.
        let mut row: Vec<StyledChar> = self.rows.remove(line);
        proof {
            assert(row@ == mid[l]);
        }
        if col < row.len() {
            row[col] = StyledChar { ch: chr, style };
        } else {
            while row.len() < col
                invariant
                    0 <= l < mid.len(),
                    mid[l].len() <= row@.len() <= col,
                    col < usize::MAX,
                    forall|c: int| 0 <= c < mid[l].len() ==> row@[c] == mid[l][c],
                    forall|c: int| mid[l].len() <= c < row@.len() ==> row@[c] == blank_char(),
                decreases col - row.len(),
            {
                row.push(StyledChar { ch: ' ', style: Style::NoStyle });
            }
            row.push(StyledChar { ch: chr, style });
        }
        let ghost rowv = row@;
        let ghost rowg = row;
        self.rows.insert(line, row);

        proof {
            let co = col as int;
            assert(self.rows@ =~= rows_mid.update(l, rowg));
            assert(self@.len() == mid.len());
            assert(forall|r: int| 0 <= r < mid.len() && r != l ==> self@[r] == mid[r]);
            assert(self@[l] == rowv);
            assert(rowv.len() == grown_len(mid[l].len() as int, co));
            assert(forall|c: int|
                0 <= c < rowv.len() && c != co ==> rowv[c] == #[trigger] cell_at(mid, l, c));
            assert(rowv[co] == (StyledChar { ch: chr, style }));

            assert forall|r: int| #![trigger row_len(self@, r)]
                row_len(self@, r) == if r == l {
                    grown_len(row_len(old(self)@, r), co)
                } else {
                    row_len(old(self)@, r)
                } by {
                if r == l {
                    assert(row_len(mid, l) == row_len(old(self)@, l));
                } else {
                    assert(row_len(mid, r) == row_len(old(self)@, r));
                }
            }
            assert forall|r: int, c: int| #![trigger cell_at(self@, r, c)]
                cell_at(self@, r, c) == if r == l && c == co {
                    (StyledChar { ch: chr, style })
                } else {
                    cell_at(old(self)@, r, c)
                } by {
                if r == l {
                    assert(cell_at(mid, l, c) == cell_at(old(self)@, l, c));
                } else {
                    assert(cell_at(mid, r, c) == cell_at(old(self)@, r, c));
                }
            }
        }
    }
}


impl StyledBuffer {
    /// Write the characters of `text` starting at `col` of row `line`, with
    /// the growth rule of `putc`. Writing no text changes nothing.
    pub fn puts_chars(&mut self, line: usize, col: usize, text: &Vec<char>, style: Style)
        requires
            line < usize::MAX,
            col + text@.len() < usize::MAX,
        ensures
            text@.len() == 0 ==> final(self)@ == old(self)@,
            text@.len() > 0 ==> final(self)@.len() == grown_len(
                old(self)@.len() as int,
                line as int,
            ),
            forall|r: int|
                #![trigger row_len(final(self)@, r)]
                row_len(final(self)@, r) == if r == line as int && text@.len() > 0 {
                    grown_len(row_len(old(self)@, r), col + text@.len() - 1)
                } else {
                    row_len(old(self)@, r)
                },
            forall|r: int, c: int|
                #![trigger cell_at(final(self)@, r, c)]
                cell_at(final(self)@, r, c) == if r == line as int && col <= c < col + text@.len() {
                    (StyledChar { ch: text@[c - col], style })
                } else {
                    cell_at(old(self)@, r, c)
                },
    {
        let n = text.len();
        let mut i: usize = 0;
        while i < n
            invariant
                n == text@.len(),
                i <= n,
                line < usize::MAX,
                col + n < usize::MAX,
                i == 0 ==> self@ == old(self)@,
                i > 0 ==> self@.len() == grown_len(old(self)@.len() as int, line as int),
                forall|r: int|
                    #![trigger row_len(self@, r)]
                    row_len(self@, r) == if r == line as int && i > 0 {
                        grown_len(row_len(old(self)@, r), col + i - 1)
                    } else {
                        row_len(old(self)@, r)
                    },
                forall|r: int, c: int|
                    #![trigger cell_at(self@, r, c)]
                    cell_at(self@, r, c) == if r == line as int && col <= c < col + i {
                        (StyledChar { ch: text@[c - col], style })
                    } else {
                        cell_at(old(self)@, r, c)
                    },
            decreases n - i,
        {
            self.putc(line, col + i, text[i], style);
            i = i + 1;
        }
    }

    /// Write the characters of `text` starting at `col` of row `line`, with
    /// the growth rule of `putc`. Writing no text changes nothing.
    pub fn puts(&mut self, line: usize, col: usize, text: &str, style: Style)
        requires
            line < usize::MAX,
            col + text@.len() < usize::MAX,
        ensures
            text@.len() == 0 ==> final(self)@ == old(self)@,
            text@.len() > 0 ==> final(self)@.len() == grown_len(
                old(self)@.len() as int,
                line as int,
            ),
            forall|r: int|
                #![trigger row_len(final(self)@, r)]
                row_len(final(self)@, r) == if r == line as int && text@.len() > 0 {
                    grown_len(row_len(old(self)@, r), col + text@.len() - 1)
                } else {
                    row_len(old(self)@, r)
                },
            forall|r: int, c: int|
                #![trigger cell_at(final(self)@, r, c)]
                cell_at(final(self)@, r, c) == if r == line as int && col <= c < col + text@.len() {
                    (StyledChar { ch: text@[c - col], style })
                } else {
                    cell_at(old(self)@, r, c)
                },
    {
        let n = text.unicode_len();
        let mut i: usize = 0;
        while i < n
            invariant
                n == text@.len(),
                i <= n,
                line < usize::MAX,
                col + n < usize::MAX,
                i == 0 ==> self@ == old(self)@,
                i > 0 ==> self@.len() == grown_len(old(self)@.len() as int, line as int),
                forall|r: int|
                    #![trigger row_len(self@, r)]
                    row_len(self@, r) == if r == line as int && i > 0 {
                        grown_len(row_len(old(self)@, r), col + i - 1)
                    } else {
                        row_len(old(self)@, r)
                    },
                forall|r: int, c: int|
                    #![trigger cell_at(self@, r, c)]
                    cell_at(self@, r, c) == if r == line as int && col <= c < col + i {
                        (StyledChar { ch: text@[c - col], style })
                    } else {
                        cell_at(old(self)@, r, c)
                    },
            decreases n - i,
        {
            let ch = text.get_char(i);
            self.putc(line, col + i, ch, style);
            i = i + 1;
        }
    }

    /// Insert `text` before the current content of row `line`, shifting the
    /// existing cells of that row right by the text's length.
    pub fn prepend(&mut self, line: usize, text: &str, style: Style)
        requires
            line < usize::MAX,
            text@.len() + row_len(old(self)@, line as int) < usize::MAX,
        ensures
            final(self)@.len() == grown_len(old(self)@.len() as int, line as int),
            forall|r: int|
                #![trigger row_len(final(self)@, r)]
                row_len(final(self)@, r) == if r == line as int {
                    row_len(old(self)@, r) + text@.len()
                } else {
                    row_len(old(self)@, r)
                },
            forall|r: int, c: int|
                #![trigger cell_at(final(self)@, r, c)]
                cell_at(final(self)@, r, c) == if r == line as int && 0 <= c < text@.len() {
                    (StyledChar { ch: text@[c], style })
                } else if r == line as int && c >= text@.len() {
                    cell_at(old(self)@, r, c - text@.len())
                } else {
                    cell_at(old(self)@, r, c)
                },
    {
        self.ensure_lines(line);
        let ghost mid = self@;
        let ghost l = line as int;
        let ghost rows_mid = self.rows@;

        let mut tail: Vec<StyledChar> = self.rows.remove(line);
        proof {
            assert(tail@ == mid[l]);
        }
        let n = text.unicode_len();
        let mut row: Vec<StyledChar> = Vec::new();
        let mut i: usize = 0;
        while i < n
            invariant
                n == text@.len(),
                i <= n,
                row@.len() == i,
                forall|c: int|
                    0 <= c < i ==> row@[c] == (StyledChar { ch: text@[c], style }),
            decreases n - i,
        {
            let ch = text.get_char(i);
            row.push(StyledChar { ch, style });
            i = i + 1;
        }
        row.append(&mut tail);
        let ghost rowv = row@;
        let ghost rowg = row;
        self.rows.insert(line, row);

        proof {
            assert(self.rows@ =~= rows_mid.update(l, rowg));
            assert(self@.len() == mid.len());
            assert(forall|r: int| 0 <= r < mid.len() && r != l ==> self@[r] == mid[r]);
            assert(self@[l] == rowv);
            assert(rowv.len() == mid[l].len() + text@.len());
            assert(row_len(mid, l) == row_len(old(self)@, l));

            assert forall|r: int| #![trigger row_len(self@, r)]
                row_len(self@, r) == if r == l {
                    row_len(old(self)@, r) + text@.len()
                } else {
                    row_len(old(self)@, r)
                } by {
                if r != l {
                    assert(row_len(mid, r) == row_len(old(self)@, r));
                }
            }
            assert forall|r: int, c: int| #![trigger cell_at(self@, r, c)]
                cell_at(self@, r, c) == if r == l && 0 <= c < text@.len() {
                    (StyledChar { ch: text@[c], style })
                } else if r == l && c >= text@.len() {
                    cell_at(old(self)@, r, c - text@.len())
                } else {
                    cell_at(old(self)@, r, c)
                } by {
                if r == l {
                    if c >= text@.len() {
                        assert(cell_at(mid, l, c - text@.len()) == cell_at(
                            old(self)@,
                            l,
                            c - text@.len(),
                        ));
                    }
                } else {
                    assert(cell_at(mid, r, c) == cell_at(old(self)@, r, c));
                }
            }
        }
    }

    /// Write `text` at the end of the current content of row `line`.
    pub fn append(&mut self, line: usize, text: &str, style: Style)
        requires
            line < usize::MAX,
            row_len(old(self)@, line as int) + text@.len() < usize::MAX,
        ensures
            text@.len() == 0 ==> final(self)@ == old(self)@,
            text@.len() > 0 ==> final(self)@.len() == grown_len(
                old(self)@.len() as int,
                line as int,
            ),
            forall|r: int|
                #![trigger row_len(final(self)@, r)]
                row_len(final(self)@, r) == if r == line as int && text@.len() > 0 {
                    row_len(old(self)@, r) + text@.len()
                } else {
                    row_len(old(self)@, r)
                },
            forall|r: int, c: int|
                #![trigger cell_at(final(self)@, r, c)]
                cell_at(final(self)@, r, c) == if r == line as int && row_len(old(self)@, r) <= c
                    < row_len(old(self)@, r) + text@.len() {
                    (StyledChar { ch: text@[c - row_len(old(self)@, r)], style })
                } else {
                    cell_at(old(self)@, r, c)
                },
    {
        let col = if line >= self.num_lines() {
            0
        } else {
            self.row_length(line)
        };
        self.puts(line, col, text, style);
    }

    /// Write the characters of `text` at the end of the current content of
    /// row `line`.
    pub fn append_chars(&mut self, line: usize, text: &Vec<char>, style: Style)
        requires
            line < usize::MAX,
            row_len(old(self)@, line as int) + text@.len() < usize::MAX,
        ensures
            text@.len() == 0 ==> final(self)@ == old(self)@,
            text@.len() > 0 ==> final(self)@.len() == grown_len(
                old(self)@.len() as int,
                line as int,
            ),
            forall|r: int|
                #![trigger row_len(final(self)@, r)]
                row_len(final(self)@, r) == if r == line as int && text@.len() > 0 {
                    row_len(old(self)@, r) + text@.len()
                } else {
                    row_len(old(self)@, r)
                },
            forall|r: int, c: int|
                #![trigger cell_at(final(self)@, r, c)]
                cell_at(final(self)@, r, c) == if r == line as int && row_len(old(self)@, r) <= c
                    < row_len(old(self)@, r) + text@.len() {
                    (StyledChar { ch: text@[c - row_len(old(self)@, r)], style })
                } else {
                    cell_at(old(self)@, r, c)
                },
    {
        let col = if line >= self.num_lines() {
            0
        } else {
            self.row_length(line)
        };
        self.puts_chars(line, col, text, style);
    }

    /// Write styled characters at the end of the current content of row
    /// `line`, each with its own style.
    pub fn append_pairs(&mut self, line: usize, text: &Vec<(char, Style)>)
        requires
            line < usize::MAX,
            row_len(old(self)@, line as int) + text@.len() < usize::MAX,
        ensures
            text@.len() == 0 ==> final(self)@ == old(self)@,
            text@.len() > 0 ==> final(self)@.len() == grown_len(
                old(self)@.len() as int,
                line as int,
            ),
            forall|r: int|
                #![trigger row_len(final(self)@, r)]
                row_len(final(self)@, r) == if r == line as int && text@.len() > 0 {
                    row_len(old(self)@, r) + text@.len()
                } else {
                    row_len(old(self)@, r)
                },
            forall|r: int, c: int|
                #![trigger cell_at(final(self)@, r, c)]
                cell_at(final(self)@, r, c) == if r == line as int && row_len(old(self)@, r) <= c
                    < row_len(old(self)@, r) + text@.len() {
                    (StyledChar {
                        ch: text@[c - row_len(old(self)@, r)].0,
                        style: text@[c - row_len(old(self)@, r)].1,
                    })
                } else {
                    cell_at(old(self)@, r, c)
                },
    {
        let col = if line >= self.num_lines() {
            0
        } else {
            self.row_length(line)
        };
        let n = text.len();
        let mut i: usize = 0;
        while i < n
            invariant
                n == text@.len(),
                i <= n,
                line < usize::MAX,
                col as int == row_len(old(self)@, line as int),
                col + n < usize::MAX,
                i == 0 ==> self@ == old(self)@,
                i > 0 ==> self@.len() == grown_len(old(self)@.len() as int, line as int),
                forall|r: int|
                    #![trigger row_len(self@, r)]
                    row_len(self@, r) == if r == line as int && i > 0 {
                        row_len(old(self)@, r) + i
                    } else {
                        row_len(old(self)@, r)
                    },
                forall|r: int, c: int|
                    #![trigger cell_at(self@, r, c)]
                    cell_at(self@, r, c) == if r == line as int && col <= c < col + i {
                        (StyledChar { ch: text@[c - col].0, style: text@[c - col].1 })
                    } else {
                        cell_at(old(self)@, r, c)
                    },
            decreases n - i,
        {
            let pair = text[i];
            self.putc(line, col + i, pair.0, pair.1);
            i = i + 1;
        }
    }

    /// The number of cells currently held by row `line`.
    pub fn row_length(&self, line: usize) -> (n: usize)
        requires
            line < self@.len(),
        ensures
            n == row_len(self@, line as int),
    {
        let rowref: &Vec<StyledChar> = vstd::std_specs::vec::vec_index(&self.rows, line);
        proof {
            assert(self@[line as int] == self.rows@[line as int]@);
        }
        rowref.len()
    }

    /// Produce, for each row, its maximal consecutive same-style runs in
    /// column order.
    pub fn render(&self) -> (r: Vec<Vec<StyledString>>)
        ensures
            rendered_view(r@) == spec_render(self@),
    {
        let mut out: Vec<Vec<StyledString>> = Vec::new();
        let nrows = self.rows.len();
        let mut rix: usize = 0;
        while rix < nrows
            invariant
                nrows == self@.len(),
                rix <= nrows,
                out@.len() == rix,
                forall|r: int|
                    0 <= r < rix ==> styled_row_view(out@[r]@) == runs_of(self@[r]),
            decreases nrows - rix,
        {
            let rowref: &Vec<StyledChar> = vstd::std_specs::vec::vec_index(&self.rows, rix);
            proof {
                assert(self@[rix as int] == self.rows@[rix as int]@);
            }
            let ghost rowseq = rowref@;
            let ncols = rowref.len();
            let mut styled: Vec<StyledString> = Vec::new();
            let mut current_text: Vec<char> = Vec::new();
            let mut current_style = Style::NoStyle;
            let mut i: usize = 0;
            while i < ncols
                invariant
                    ncols == rowseq.len(),
                    rowseq == rowref@,
                    i <= ncols,
                    i > 0 ==> current_text@.len() > 0 && current_style == rowseq[i - 1].style,
                    i == 0 ==> current_text@.len() == 0 && styled@.len() == 0,
                    runs_of(rowseq.take(i as int)) == if current_text@.len() > 0 {
                        styled_row_view(styled@).push((current_text@, current_style))
                    } else {
                        styled_row_view(styled@)
                    },
                decreases ncols - i,
            {
                let cell = rowref[i];
                let ghost prev_runs = runs_of(rowseq.take(i as int));
                proof {
                    assert(rowseq.take(i + 1).drop_last() =~= rowseq.take(i as int));
                    assert(rowseq.take(i + 1).last() == rowseq[i as int]);
                }
                if !styles_equal(cell.style, current_style) {
                    if current_text.len() > 0 {
                        let ghost pre = styled@;
                        let ghost ct = current_text@;
                        styled.push(StyledString { text: current_text, style: current_style });
                        proof {
                            assert(styled_row_view(styled@) =~~= styled_row_view(pre).push(
                                (ct, current_style),
                            ));
                        }
                        current_text = Vec::new();
                    }
                    current_style = cell.style;
                }
                let ghost tpre = current_text@;
                let ghost spre = styled@;
                current_text.push(cell.ch);
                proof {
                    if tpre.len() > 0 {
                        // The new cell extends the open run.
                        assert(prev_runs == styled_row_view(spre).push((tpre, current_style)));
                        assert(runs_of(rowseq.take(i + 1)) =~~= styled_row_view(spre).push(
                            (current_text@, current_style),
                        ));
                    } else {
                        // The new cell opens a fresh run.
                        assert(prev_runs == styled_row_view(spre));
                        if prev_runs.len() > 0 {
                            assert(prev_runs.last().1 != cell.style);
                        }
                        assert(runs_of(rowseq.take(i + 1)) =~~= styled_row_view(spre).push(
                            (current_text@, current_style),
                        ));
                    }
                }
                i = i + 1;
            }
            if current_text.len() > 0 {
                let ghost pre = styled@;
                styled.push(StyledString { text: current_text, style: current_style });
            }
            proof {
                assert(rowseq.take(ncols as int) =~= rowseq);
                assert(styled_row_view(styled@) =~= runs_of(rowseq));
            }
            out.push(styled);
            rix = rix + 1;
        }
        proof {
            assert(rendered_view(out@) =~= spec_render(self@));
        }
        out
    }
}

/// Whether two styles are the same.
pub fn styles_equal(a: Style, b: Style) -> (r: bool)
    ensures
        r == (a == b),
{
    a == b
}

/// The characters of one grid row, in column order.
pub open spec fn row_chars(row: Seq<StyledChar>) -> Seq<char> {
    row.map_values(|c: StyledChar| c.ch)
}

/// The concatenated texts of a sequence of runs.
pub open spec fn flat_texts(runs: Seq<(Seq<char>, Style)>) -> Seq<char>
    decreases runs.len(),
{
    if runs.len() == 0 {
        Seq::empty()
    } else {
        flat_texts(runs.drop_last()) + runs.last().0
    }
}

/// Law: rendering a row never loses a cell: the concatenated run texts of a
/// rendered row are exactly the row's characters, column by column. Together
/// with the contract of `putc` this says that a write to any cell, inside or
/// beyond the current bounds, survives into the rendered output at its exact
/// row and column, and every other written cell keeps its character.
pub proof fn lemma_runs_preserve_chars(row: Seq<StyledChar>)
    ensures
        flat_texts(runs_of(row)) == row_chars(row),
    decreases row.len(),
{
    if row.len() == 0 {
        assert(flat_texts(runs_of(row)) =~= row_chars(row));
    } else {
        lemma_runs_preserve_chars(row.drop_last());
        let prev = runs_of(row.drop_last());
        let c = row.last();
        assert(row_chars(row).drop_last() =~= row_chars(row.drop_last()));
        assert(row_chars(row) =~= row_chars(row.drop_last()).push(c.ch));
        if prev.len() > 0 && prev.last().1 == c.style {
            let upd = prev.update(prev.len() - 1, (prev.last().0.push(c.ch), c.style));
            assert(upd.drop_last() =~= prev.drop_last());
            assert(flat_texts(upd) == flat_texts(prev.drop_last()) + prev.last().0.push(c.ch));
            assert(flat_texts(prev.drop_last()) + prev.last().0.push(c.ch) =~= (flat_texts(
                prev.drop_last(),
            ) + prev.last().0).push(c.ch));
        } else {
            let ext = prev.push((seq![c.ch], c.style));
            assert(ext.drop_last() =~= prev);
            assert(flat_texts(ext) == flat_texts(prev) + seq![c.ch]);
            assert(flat_texts(prev) + seq![c.ch] =~= flat_texts(prev).push(c.ch));
        }
    }
}

/// Law: a cell written at column `c` appears in the rendered row at exactly
/// position `c` of the concatenated run texts.
pub proof fn lemma_written_cell_rendered(row: Seq<StyledChar>, c: int)
    requires
        0 <= c < row.len(),
    ensures
        flat_texts(runs_of(row)).len() == row.len(),
        flat_texts(runs_of(row))[c] == row[c].ch,
{
    lemma_runs_preserve_chars(row);
}

/// Law: rendering is a pure function of the grid contents, so rendering the
/// same buffer twice, with no writes in between, yields identical output.
pub proof fn lemma_render_idempotent(
    v: Seq<Seq<StyledChar>>,
    r1: Seq<Seq<(Seq<char>, Style)>>,
    r2: Seq<Seq<(Seq<char>, Style)>>,
)
    requires
        r1 == spec_render(v),
        r2 == spec_render(v),
    ensures
        r1 == r2,
{
}


} // verus!
