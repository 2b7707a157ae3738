//! The line layout engine: renders one annotated source line into the styled
//! buffer — the line number and source text, stacked label rows, horizontal
//! and vertical bracket parts, connector bars, and the underline row — and
//! reports which multi-line brackets open or close on this line.

use vstd::prelude::*;
use crate::snippet::{Annotation, AnnotationType, AnnView, Line, Style, spec_ann_len,
    spec_has_label, spec_is_line, spec_takes_space};
use crate::styled_buffer::{cell_at, grown_len, row_len, StyledBuffer, StyledChar};
use crate::{label_within_limits, SourceFile, LINE_LIMIT, POS_LIMIT};
use crate::preprocess::{spec_num_overlap, num_overlap, LINE_ANNS_LIMIT};

verus! {

/// Whether annotation `a` underlines column `c`.
pub open spec fn covers(a: AnnView, c: int) -> bool {
    a.start_col <= c < a.end_col
}

/// The underline marker of an annotation: `^` for primary, `-` for secondary.
pub open spec fn underline_char(a: AnnView) -> char {
    if a.is_primary {
        '^'
    } else {
        '-'
    }
}

/// The underline style of an annotation.
pub open spec fn underline_style(a: AnnView) -> Style {
    if a.is_primary {
        Style::UnderlinePrimary
    } else {
        Style::UnderlineSecondary
    }
}

/// The label style of an annotation.
pub open spec fn label_style(a: AnnView) -> Style {
    if a.is_primary {
        Style::LabelPrimary
    } else {
        Style::LabelSecondary
    }
}

/// The `(depth, style)` pairs of the multi-line brackets that start or end
/// among the given annotations, in order.
pub open spec fn depths_of(anns: Seq<AnnView>) -> Seq<(int, Style)>
    decreases anns.len(),
{
    if anns.len() == 0 {
        Seq::empty()
    } else {
        depths_of(anns.drop_last()) + (match anns.last().kind {
            AnnotationType::MultilineStart(d) => seq![(d as int, label_style(anns.last()))],
            AnnotationType::MultilineEnd(d) => seq![(d as int, label_style(anns.last()))],
            _ => Seq::empty(),
        })
    }
}

/// Whether an annotation's columns and label fit the grid arithmetic.
pub open spec fn ann_cols_wf(a: AnnView) -> bool {
    &&& 0 <= a.start_col < POS_LIMIT as int
    &&& 0 <= a.end_col <= POS_LIMIT as int
    &&& label_within_limits(a.label)
}

/// Whether a bracket part's depth slot keeps its vertical bar left of the
/// source text column.
pub open spec fn ann_depth_fits(a: AnnView, width_offset: int, code_offset: int) -> bool {
    match a.kind {
        AnnotationType::Singleline => true,
        AnnotationType::MultilineStart(d) => 1 <= d as int && width_offset + d as int + 1
            <= code_offset,
        AnnotationType::MultilineLine(d) => 1 <= d as int && width_offset + d as int + 1
            <= code_offset,
        AnnotationType::MultilineEnd(d) => 1 <= d as int && width_offset + d as int + 1
            <= code_offset,
    }
}

/// The views of an annotation list.
pub open spec fn anns_view(v: Seq<Annotation>) -> Seq<AnnView> {
    v.map_values(|a: Annotation| a@)
}

/// The annotation views of a positioned list.
pub open spec fn pos_anns_view(v: Seq<(usize, Annotation)>) -> Seq<AnnView> {
    v.map_values(|p: (usize, Annotation)| p.1@)
}

/// Whether an annotation list is sorted by `(start_col, end_col)` descending.
pub open spec fn anns_sorted_desc(s: Seq<AnnView>) -> bool {
    forall|i: int, j: int|
        0 <= i < j < s.len() ==> ((#[trigger] s[i]).start_col > (#[trigger] s[j]).start_col || (
        s[i].start_col == s[j].start_col && s[i].end_col >= s[j].end_col))
}

/// Whether a positioned list is sorted by annotation width descending.
pub open spec fn pos_sorted_len_desc(s: Seq<(usize, Annotation)>) -> bool {
    forall|i: int, j: int|
        0 <= i < j < s.len() ==> spec_ann_len((#[trigger] s[i]).1@) >= spec_ann_len(
            (#[trigger] s[j]).1@,
        )
}

/// Whether everything outside the rendered region of one source line kept
/// its value: all rows above `line_offset`, and the cells of the source-text
/// region itself from `code_offset` on.
pub open spec fn frame_below(
    pre: Seq<Seq<StyledChar>>,
    post: Seq<Seq<StyledChar>>,
    line_offset: int,
    width_offset: int,
    code_offset: int,
) -> bool {
    &&& post.len() >= pre.len()
    &&& forall|r: int, c: int|
        r < line_offset || (r == line_offset && (c < width_offset || c >= code_offset))
            ==> #[trigger] cell_at(post, r, c) == cell_at(pre, r, c)
    &&& forall|r: int| r < line_offset ==> #[trigger] row_len(post, r) == row_len(pre, r)
}

/// Draw `| ` into the gutter of one row.
pub fn draw_col_separator(buffer: &mut StyledBuffer, line: usize, col: usize)
    requires
        line < usize::MAX - 1,
        col < usize::MAX - 2,
    ensures
        final(buffer)@.len() == grown_len(old(buffer)@.len() as int, line as int),
        forall|r: int|
            #![trigger row_len(final(buffer)@, r)]
            row_len(final(buffer)@, r) == if r == line as int {
                grown_len(row_len(old(buffer)@, r), col + 1)
            } else {
                row_len(old(buffer)@, r)
            },
        forall|r: int, c: int|
            #![trigger cell_at(final(buffer)@, r, c)]
            cell_at(final(buffer)@, r, c) == if r == line as int && c == col as int {
                (StyledChar { ch: '|', style: Style::LineNumber })
            } else if r == line as int && c == col + 1 {
                (StyledChar { ch: ' ', style: Style::LineNumber })
            } else {
                cell_at(old(buffer)@, r, c)
            },
{
    buffer.putc(line, col, '|', Style::LineNumber);
    buffer.putc(line, col + 1, ' ', Style::LineNumber);
}

/// Draw `|` into the gutter of one row, without the trailing space.
pub fn draw_col_separator_no_space(buffer: &mut StyledBuffer, line: usize, col: usize)
    requires
        line < usize::MAX,
        col < usize::MAX,
    ensures
        final(buffer)@.len() == grown_len(old(buffer)@.len() as int, line as int),
        forall|r: int|
            #![trigger row_len(final(buffer)@, r)]
            row_len(final(buffer)@, r) == if r == line as int {
                grown_len(row_len(old(buffer)@, r), col as int)
            } else {
                row_len(old(buffer)@, r)
            },
        forall|r: int, c: int|
            #![trigger cell_at(final(buffer)@, r, c)]
            cell_at(final(buffer)@, r, c) == if r == line as int && c == col as int {
                (StyledChar { ch: '|', style: Style::LineNumber })
            } else {
                cell_at(old(buffer)@, r, c)
            },
{
    draw_col_separator_no_space_with_style(buffer, line, col, Style::LineNumber);
}

/// Draw `|` into one cell with the given style.
pub fn draw_col_separator_no_space_with_style(
    buffer: &mut StyledBuffer,
    line: usize,
    col: usize,
    style: Style,
)
    requires
        line < usize::MAX,
        col < usize::MAX,
    ensures
        final(buffer)@.len() == grown_len(old(buffer)@.len() as int, line as int),
        forall|r: int|
            #![trigger row_len(final(buffer)@, r)]
            row_len(final(buffer)@, r) == if r == line as int {
                grown_len(row_len(old(buffer)@, r), col as int)
            } else {
                row_len(old(buffer)@, r)
            },
        forall|r: int, c: int|
            #![trigger cell_at(final(buffer)@, r, c)]
            cell_at(final(buffer)@, r, c) == if r == line as int && c == col as int {
                (StyledChar { ch: '|', style })
            } else {
                cell_at(old(buffer)@, r, c)
            },
{
    buffer.putc(line, col, '|', style);
}

/// Draw `symbol` across the columns `[col_from, col_to)` of one row.
pub fn draw_range(
    buffer: &mut StyledBuffer,
    symbol: char,
    line: usize,
    col_from: usize,
    col_to: usize,
    style: Style,
)
    requires
        line < usize::MAX,
        col_to < usize::MAX,
    ensures
        final(buffer)@.len() >= old(buffer)@.len(),
        (col_from as int) >= (col_to as int) ==> final(buffer)@ == old(buffer)@,
        (col_from as int) < (col_to as int) ==> final(buffer)@.len() == grown_len(
            old(buffer)@.len() as int,
            line as int,
        ),
        forall|r: int|
            #![trigger row_len(final(buffer)@, r)]
            row_len(final(buffer)@, r) == if r == line as int && col_from < col_to {
                grown_len(row_len(old(buffer)@, r), col_to - 1)
            } else {
                row_len(old(buffer)@, r)
            },
        forall|r: int, c: int|
            #![trigger cell_at(final(buffer)@, r, c)]
            cell_at(final(buffer)@, r, c) == if r == line as int && col_from <= c < col_to {
                (StyledChar { ch: symbol, style })
            } else {
                cell_at(old(buffer)@, r, c)
            },
{
    if col_from >= col_to {
        return ;
    }
    let mut col = col_from;
    while col < col_to
        invariant
            col_from <= col <= col_to,
            col_from < col_to,
            line < usize::MAX,
            col_to < usize::MAX,
            buffer@.len() >= old(buffer)@.len(),
            col == col_from ==> buffer@ == old(buffer)@,
            col > col_from ==> buffer@.len() == grown_len(old(buffer)@.len() as int, line as int),
            forall|r: int|
                #![trigger row_len(buffer@, r)]
                row_len(buffer@, r) == if r == line as int && col_from < col {
                    grown_len(row_len(old(buffer)@, r), col - 1)
                } else {
                    row_len(old(buffer)@, r)
                },
            forall|r: int, c: int|
                #![trigger cell_at(buffer@, r, c)]
                cell_at(buffer@, r, c) == if r == line as int && col_from <= c < col as int {
                    (StyledChar { ch: symbol, style })
                } else {
                    cell_at(old(buffer)@, r, c)
                },
        decreases col_to - col,
    {
        buffer.putc(line, col, symbol, style);
        col = col + 1;
    }
}

/// Draw `= ` at the start of a sub-note row.
pub fn draw_note_separator(buffer: &mut StyledBuffer, line: usize, col: usize)
    requires
        line < usize::MAX - 1,
        col < usize::MAX - 2,
    ensures
        final(buffer)@.len() == grown_len(old(buffer)@.len() as int, line as int),
        forall|r: int|
            #![trigger row_len(final(buffer)@, r)]
            row_len(final(buffer)@, r) == if r == line as int {
                grown_len(row_len(old(buffer)@, r), col + 1)
            } else {
                row_len(old(buffer)@, r)
            },
        forall|r: int, c: int|
            #![trigger cell_at(final(buffer)@, r, c)]
            cell_at(final(buffer)@, r, c) == if r == line as int && c == col as int {
                (StyledChar { ch: '=', style: Style::LineNumber })
            } else if r == line as int && c == col + 1 {
                (StyledChar { ch: ' ', style: Style::LineNumber })
            } else {
                cell_at(old(buffer)@, r, c)
            },
{
    buffer.putc(line, col, '=', Style::LineNumber);
    buffer.putc(line, col + 1, ' ', Style::LineNumber);
}

/// Draw the continuation bar of a multi-line bracket at its depth slot.
pub fn draw_multiline_line(
    buffer: &mut StyledBuffer,
    line: usize,
    offset: usize,
    depth: usize,
    style: Style,
)
    requires
        line < usize::MAX,
        1 <= depth,
        offset + depth < usize::MAX,
    ensures
        final(buffer)@.len() == grown_len(old(buffer)@.len() as int, line as int),
        forall|r: int|
            #![trigger row_len(final(buffer)@, r)]
            row_len(final(buffer)@, r) == if r == line as int {
                grown_len(row_len(old(buffer)@, r), offset + depth - 1)
            } else {
                row_len(old(buffer)@, r)
            },
        forall|r: int, c: int|
            #![trigger cell_at(final(buffer)@, r, c)]
            cell_at(final(buffer)@, r, c) == if r == line as int && c == offset + depth - 1 {
                (StyledChar { ch: '|', style })
            } else {
                cell_at(old(buffer)@, r, c)
            },
{
    buffer.putc(line, offset + depth - 1, '|', style);
}

/// Whether the underlined regions of two annotations overlap, counting
/// `padding` extra columns after the first.
pub fn overlaps(a1: &Annotation, a2: &Annotation, padding: usize) -> (r: bool)
    requires
        a1@.end_col + padding < usize::MAX,
        a2@.end_col < usize::MAX,
    ensures
        r == spec_num_overlap(
            a1@.start_col,
            a1@.end_col + padding,
            a2@.start_col,
            a2@.end_col,
            false,
        ),
{
    num_overlap(a1.start_col, a1.end_col + padding, a2.start_col, a2.end_col, false)
}


/// Draw `|` down the rows `[row_from, row_to)` of one column.
pub fn draw_vcol(buffer: &mut StyledBuffer, row_from: usize, row_to: usize, col: usize, style: Style)
    requires
        row_to < usize::MAX,
        col < usize::MAX,
    ensures
        final(buffer)@.len() >= old(buffer)@.len(),
        (row_from as int) < (row_to as int) ==> final(buffer)@.len() <= grown_len(
            old(buffer)@.len() as int,
            row_to - 1,
        ),
        (row_from as int) >= (row_to as int) ==> final(buffer)@ == old(buffer)@,
        forall|r: int|
            #![trigger row_len(final(buffer)@, r)]
            row_len(final(buffer)@, r) == if row_from <= r < row_to {
                grown_len(row_len(old(buffer)@, r), col as int)
            } else {
                row_len(old(buffer)@, r)
            },
        forall|r: int, c: int|
            #![trigger cell_at(final(buffer)@, r, c)]
            cell_at(final(buffer)@, r, c) == if row_from <= r < row_to && c == col as int {
                (StyledChar { ch: '|', style })
            } else {
                cell_at(old(buffer)@, r, c)
            },
{
    if row_from >= row_to {
        return ;
    }
    let mut row = row_from;
    while row < row_to
        invariant
            row_from <= row <= row_to,
            row_from < row_to,
            row_to < usize::MAX,
            col < usize::MAX,
            buffer@.len() >= old(buffer)@.len(),
            row > row_from ==> buffer@.len() <= grown_len(old(buffer)@.len() as int, row - 1),
            row == row_from ==> buffer@ == old(buffer)@,
            forall|r: int|
                #![trigger row_len(buffer@, r)]
                row_len(buffer@, r) == if row_from <= r < row as int {
                    grown_len(row_len(old(buffer)@, r), col as int)
                } else {
                    row_len(old(buffer)@, r)
                },
            forall|r: int, c: int|
                #![trigger cell_at(buffer@, r, c)]
                cell_at(buffer@, r, c) == if row_from <= r < row as int && c == col as int {
                    (StyledChar { ch: '|', style })
                } else {
                    cell_at(old(buffer)@, r, c)
                },
        decreases row_to - row,
    {
        buffer.putc(row, col, '|', style);
        row = row + 1;
    }
}

/// The characters counted as blank before a compact bracket start: the
/// whitespace code points.
pub open spec fn spec_is_blank(c: char) -> bool {
    ||| c == ' '
    ||| c == '\t'
    ||| c == '\n'
    ||| c == '\r'
    ||| c == '\u{b}'
    ||| c == '\u{c}'
    ||| c == '\u{85}'
    ||| c == '\u{a0}'
    ||| c == '\u{1680}'
    ||| ('\u{2000}' <= c && c <= '\u{200a}')
    ||| c == '\u{2028}'
    ||| c == '\u{2029}'
    ||| c == '\u{202f}'
    ||| c == '\u{205f}'
    ||| c == '\u{3000}'
}

/// Whether this character is whitespace.
pub fn is_blank(c: char) -> (r: bool)
    ensures
        r == spec_is_blank(c),
{
    c == ' ' || c == '\t' || c == '\n' || c == '\r' || c == '\u{b}' || c == '\u{c}' || c
        == '\u{85}' || c == '\u{a0}' || c == '\u{1680}' || ('\u{2000}' <= c && c <= '\u{200a}')
        || c == '\u{2028}' || c == '\u{2029}' || c == '\u{202f}' || c == '\u{205f}' || c
        == '\u{3000}'
}

/// Whether the first `upto` characters of `source` are all blank, `upto`
/// being within the text.
pub open spec fn spec_prefix_blank(source: Seq<char>, upto: int) -> bool {
    &&& 0 <= upto <= source.len()
    &&& forall|c: int| 0 <= c < upto ==> spec_is_blank(#[trigger] source[c])
}

/// Whether the text before column `upto` is blank.
fn is_all_blank(source: &Vec<char>, upto: usize) -> (r: bool)
    ensures
        r == spec_prefix_blank(source@, upto as int),
{
    if upto > source.len() {
        return false;
    }
    let mut c: usize = 0;
    while c < upto
        invariant
            c <= upto,
            upto <= source@.len(),
            forall|c2: int| 0 <= c2 < c ==> spec_is_blank(#[trigger] source@[c2]),
        decreases upto - c,
    {
        let ch = source[c];
        if !is_blank(ch) {
            return false;
        }
        c = c + 1;
    }
    true
}

/// The gutter of one rendered source row: the `| ` separator and, when it
/// fits the gutter, the line's 1-based number right-aligned before it.
#[verifier::opaque]
pub open spec fn source_gutter_in(
    v: Seq<Seq<StyledChar>>,
    row: int,
    width_offset: int,
    line_index: int,
) -> bool {
    &&& cell_at(v, row, width_offset - 2) == (StyledChar { ch: '|', style: Style::LineNumber })
    &&& cell_at(v, row, width_offset - 1) == (StyledChar { ch: ' ', style: Style::LineNumber })
    &&& crate::text::dec_chars((line_index + 1) as nat).len() <= width_offset - 3 ==> forall|
        j: int,
    |
        0 <= j < crate::text::dec_chars((line_index + 1) as nat).len() ==> #[trigger] cell_at(
            v,
            row,
            width_offset - 3 - crate::text::dec_chars((line_index + 1) as nat).len() + j,
        ) == (StyledChar {
            ch: crate::text::dec_chars((line_index + 1) as nat)[j],
            style: Style::LineNumber,
        })
}

/// The compact form applies when a line's only annotation opens a multi-line
/// bracket before any visible text: the bracket is drawn as a single `/`.
pub open spec fn special_case(anns: Seq<AnnView>, source: Seq<char>) -> bool {
    &&& anns.len() == 1
    &&& anns[0].kind is MultilineStart
    &&& spec_prefix_blank(source, anns[0].start_col)
}

/// Whether some annotation needs markers drawn (anything but the
/// pass-through part of a bracket).
pub open spec fn has_marker(anns: Seq<AnnView>) -> bool {
    exists|i: int| 0 <= i < anns.len() && !spec_is_line(anns[i])
}

/// Whether column `c` is underlined by some annotation of the line.
pub open spec fn covered_by(anns: Seq<AnnView>, c: int) -> bool {
    exists|i: int| 0 <= i < anns.len() && covers(#[trigger] anns[i], c)
}

/// Whether `cell` carries the marker of a narrowest annotation covering
/// column `c`: the underline drawn last, which no wider annotation may hide.
pub open spec fn min_covering_marker(anns: Seq<AnnView>, c: int, cell: StyledChar) -> bool {
    exists|i: int|
        0 <= i < anns.len() && covers(#[trigger] anns[i], c) && (forall|j: int|
            0 <= j < anns.len() && covers(#[trigger] anns[j], c) ==> spec_ann_len(anns[i])
                <= spec_ann_len(anns[j])) && cell == (StyledChar {
            ch: underline_char(anns[i]),
            style: underline_style(anns[i]),
        })
}

/// Containment carries over between lists with the same annotations.
proof fn lemma_covering_transfer(a: Seq<AnnView>, b: Seq<AnnView>, c: int, cell: StyledChar)
    requires
        a.to_multiset() == b.to_multiset(),
    ensures
        covered_by(a, c) ==> covered_by(b, c),
        min_covering_marker(a, c, cell) ==> min_covering_marker(b, c, cell),
{
    broadcast use vstd::seq_lib::group_to_multiset_ensures;

    if covered_by(a, c) {
        let i = choose|i: int| 0 <= i < a.len() && covers(#[trigger] a[i], c);
        assert(a.contains(a[i]));
        assert(a.to_multiset().count(a[i]) > 0);
        assert(b.to_multiset().count(a[i]) > 0);
        assert(b.contains(a[i]));
        let i2 = choose|i2: int| 0 <= i2 < b.len() && b[i2] == a[i];
        assert(covers(b[i2], c));
    }
    if min_covering_marker(a, c, cell) {
        let i = choose|i: int|
            0 <= i < a.len() && covers(#[trigger] a[i], c) && (forall|j: int|
                0 <= j < a.len() && covers(#[trigger] a[j], c) ==> spec_ann_len(a[i])
                    <= spec_ann_len(a[j])) && cell == (StyledChar {
                ch: underline_char(a[i]),
                style: underline_style(a[i]),
            });
        assert(a.contains(a[i]));
        assert(a.to_multiset().count(a[i]) > 0);
        assert(b.to_multiset().count(a[i]) > 0);
        assert(b.contains(a[i]));
        let i2 = choose|i2: int| 0 <= i2 < b.len() && b[i2] == a[i];
        assert forall|j2: int|
            0 <= j2 < b.len() && covers(#[trigger] b[j2], c) implies spec_ann_len(b[i2])
            <= spec_ann_len(b[j2]) by {
            assert(b.contains(b[j2]));
            assert(b.to_multiset().count(b[j2]) > 0);
            assert(a.to_multiset().count(b[j2]) > 0);
            assert(a.contains(b[j2]));
            let j = choose|j: int| 0 <= j < a.len() && a[j] == b[j2];
            assert(covers(a[j], c));
        }
    }
}

/// Every annotation of a permutation keeps its column bounds.
proof fn lemma_cols_wf_transfer(a: Seq<AnnView>, b: Seq<AnnView>)
    requires
        a.to_multiset() == b.to_multiset(),
        forall|k: int| 0 <= k < a.len() ==> ann_cols_wf(#[trigger] a[k]),
    ensures
        forall|k: int| 0 <= k < b.len() ==> ann_cols_wf(#[trigger] b[k]),
{
    broadcast use vstd::seq_lib::group_to_multiset_ensures;

    assert forall|k: int| 0 <= k < b.len() implies ann_cols_wf(#[trigger] b[k]) by {
        assert(b.contains(b[k]));
        assert(b.to_multiset().count(b[k]) > 0);
        assert(a.to_multiset().count(b[k]) > 0);
        assert(a.contains(b[k]));
        let j = choose|j: int| 0 <= j < a.len() && a[j] == b[k];
        assert(ann_cols_wf(a[j]));
    }
}

/// Insert one annotation into a list sorted by `(start_col, end_col)`
/// descending.
fn insert_ann_desc(out: &mut Vec<Annotation>, item: Annotation)
    requires
        anns_sorted_desc(anns_view(old(out)@)),
    ensures
        final(out)@.len() == old(out)@.len() + 1,
        anns_sorted_desc(anns_view(final(out)@)),
        anns_view(final(out)@).to_multiset() == anns_view(old(out)@).to_multiset().insert(item@),
{
    broadcast use vstd::seq_lib::group_to_multiset_ensures;

    let isc = item.start_col;
    let iec = item.end_col;
    let n = out.len();
    let mut pos: usize = 0;
    while pos < n && ann_key_at_ge(out, pos, isc, iec)
        invariant
            pos <= n,
            n == out@.len(),
            isc == item@.start_col,
            iec == item@.end_col,
            anns_sorted_desc(anns_view(out@)),
            forall|k: int|
                0 <= k < pos ==> ((#[trigger] anns_view(out@)[k]).start_col > item@.start_col || (
                anns_view(out@)[k].start_col == item@.start_col && anns_view(out@)[k].end_col
                    >= item@.end_col)),
        decreases n - pos,
    {
        pos = pos + 1;
    }
    proof {
        assert forall|k: int|
            pos <= k < n implies ((#[trigger] anns_view(out@)[k]).start_col < item@.start_col || (
        anns_view(out@)[k].start_col == item@.start_col && anns_view(out@)[k].end_col
            <= item@.end_col)) by {
            if k > pos as int {
                assert(anns_view(out@)[pos as int].start_col > anns_view(out@)[k].start_col || (
                anns_view(out@)[pos as int].start_col == anns_view(out@)[k].start_col && anns_view(
                    out@,
                )[pos as int].end_col >= anns_view(out@)[k].end_col));
            }
        }
    }
    let ghost pre = out@;
    let ghost itemg = item;
    out.insert(pos, item);
    proof {
        assert(anns_view(out@) =~= anns_view(pre).insert(pos as int, itemg@));
        vstd::seq_lib::to_multiset_insert(anns_view(pre), pos as int, itemg@);
        let sv = anns_view(pre);
        let nv = anns_view(out@);
        let pp = pos as int;
        assert forall|i: int, j: int|
            0 <= i < j < nv.len() implies ((#[trigger] nv[i]).start_col > (
        #[trigger] nv[j]).start_col || (nv[i].start_col == nv[j].start_col && nv[i].end_col
            >= nv[j].end_col)) by {
            if i < pp && j == pp {
            } else if i == pp && j > pp {
            } else if i < pp && j > pp {
            } else if j < pp {
            } else if i > pp {
            } else {
            }
        }
    }
}

/// Whether the annotation at `pos` sorts no later (descending) than the key.
fn ann_key_at_ge(out: &Vec<Annotation>, pos: usize, isc: usize, iec: usize) -> (r: bool)
    requires
        pos < out@.len(),
    ensures
        r == ((#[trigger] anns_view(out@)[pos as int]).start_col > isc as int || (anns_view(
            out@,
        )[pos as int].start_col == isc as int && anns_view(out@)[pos as int].end_col
            >= iec as int)),
{
    let e = vstd::std_specs::vec::vec_index(out, pos);
    e.start_col > isc || (e.start_col == isc && e.end_col >= iec)
}

/// Sort annotations by `(start_col, end_col)` descending, so the rightmost
/// and widest come first.
fn sort_anns_desc(anns: Vec<Annotation>) -> (r: Vec<Annotation>)
    ensures
        r@.len() == anns@.len(),
        anns_sorted_desc(anns_view(r@)),
        anns_view(r@).to_multiset() == anns_view(anns@).to_multiset(),
{
    broadcast use vstd::seq_lib::group_to_multiset_ensures;

    let ghost orig = anns_view(anns@);
    let mut rest = anns;
    let mut out: Vec<Annotation> = Vec::new();
    proof {
        assert(anns_view(out@) =~= Seq::<AnnView>::empty());
        assert(anns_view(out@).to_multiset().add(anns_view(rest@).to_multiset())
            =~= orig.to_multiset());
    }
    while rest.len() > 0
        invariant
            out@.len() + rest@.len() == orig.len(),
            anns_sorted_desc(anns_view(out@)),
            anns_view(out@).to_multiset().add(anns_view(rest@).to_multiset())
                == orig.to_multiset(),
        decreases rest.len(),
    {
        let ghost rpre = rest@;
        let item = match rest.pop() {
            Some(x) => x,
            None => {
                proof {
                    assert(false);
                }
                unreached()
            },
        };
        proof {
            assert(anns_view(rpre) =~= anns_view(rest@).push(item@));
            vstd::seq_lib::to_multiset_build(anns_view(rest@), item@);
        }
        insert_ann_desc(&mut out, item);
        proof {
            assert(anns_view(out@).to_multiset().add(anns_view(rest@).to_multiset())
                =~= orig.to_multiset());
        }
    }
    out
}

/// Insert one positioned annotation into a list sorted by width descending.
fn insert_pos_len_desc(out: &mut Vec<(usize, Annotation)>, item: (usize, Annotation))
    requires
        pos_sorted_len_desc(old(out)@),
        forall|k: int| 0 <= k < old(out)@.len() ==> (#[trigger] old(out)@[k]).0 <= 2 * LINE_ANNS_LIMIT,
        item.0 <= 2 * LINE_ANNS_LIMIT,
    ensures
        final(out)@.len() == old(out)@.len() + 1,
        pos_sorted_len_desc(final(out)@),
        pos_anns_view(final(out)@).to_multiset() == pos_anns_view(old(out)@).to_multiset().insert(
            item.1@,
        ),
        forall|k: int| 0 <= k < final(out)@.len() ==> (#[trigger] final(out)@[k]).0 <= 2 * LINE_ANNS_LIMIT,
{
    broadcast use vstd::seq_lib::group_to_multiset_ensures;

    let ilen = item.1.len();
    let n = out.len();
    let mut pos: usize = 0;
    while pos < n && pos_len_at_ge(out, pos, ilen)
        invariant
            pos <= n,
            n == out@.len(),
            ilen as int == spec_ann_len(item.1@),
            pos_sorted_len_desc(out@),
            forall|k: int| 0 <= k < pos ==> spec_ann_len((#[trigger] out@[k]).1@) >= ilen as int,
        decreases n - pos,
    {
        pos = pos + 1;
    }
    proof {
        assert forall|k: int|
            pos <= k < n implies spec_ann_len((#[trigger] out@[k]).1@) <= ilen as int by {
            if k > pos as int {
                assert(spec_ann_len(out@[pos as int].1@) >= spec_ann_len(out@[k].1@));
            }
        }
    }
    let ghost pre = out@;
    let ghost itemg = item;
    out.insert(pos, item);
    proof {
        assert(pos_anns_view(out@) =~= pos_anns_view(pre).insert(pos as int, itemg.1@));
        vstd::seq_lib::to_multiset_insert(pos_anns_view(pre), pos as int, itemg.1@);
        let pp = pos as int;
        assert forall|i: int, j: int|
            0 <= i < j < out@.len() implies spec_ann_len((#[trigger] out@[i]).1@) >= spec_ann_len(
            (#[trigger] out@[j]).1@,
        ) by {
            if i < pp && j > pp {
            } else if j < pp {
            } else if i > pp {
            }
        }
    }
}

/// Whether the annotation at `pos` is at least `len` columns wide.
fn pos_len_at_ge(out: &Vec<(usize, Annotation)>, pos: usize, len: usize) -> (r: bool)
    requires
        pos < out@.len(),
    ensures
        r == (spec_ann_len((#[trigger] out@[pos as int]).1@) >= len as int),
{
    let e = vstd::std_specs::vec::vec_index(out, pos);
    let l = if e.1.end_col >= e.1.start_col {
        e.1.end_col - e.1.start_col
    } else {
        e.1.start_col - e.1.end_col
    };
    l >= len
}

/// Sort positioned annotations by width descending, so narrower annotations
/// are drawn after (and over) wider ones.
fn sort_pos_len_desc(pos: Vec<(usize, Annotation)>) -> (r: Vec<(usize, Annotation)>)
    requires
        forall|k: int| 0 <= k < pos@.len() ==> (#[trigger] pos@[k]).0 <= 2 * LINE_ANNS_LIMIT,
    ensures
        r@.len() == pos@.len(),
        pos_sorted_len_desc(r@),
        pos_anns_view(r@).to_multiset() == pos_anns_view(pos@).to_multiset(),
        forall|k: int| 0 <= k < r@.len() ==> (#[trigger] r@[k]).0 <= 2 * LINE_ANNS_LIMIT,
{
    broadcast use vstd::seq_lib::group_to_multiset_ensures;

    let ghost orig = pos_anns_view(pos@);
    let mut rest = pos;
    let mut out: Vec<(usize, Annotation)> = Vec::new();
    proof {
        assert(pos_anns_view(out@) =~= Seq::<AnnView>::empty());
        assert(pos_anns_view(out@).to_multiset().add(pos_anns_view(rest@).to_multiset())
            =~= orig.to_multiset());
    }
    while rest.len() > 0
        invariant
            out@.len() + rest@.len() == orig.len(),
            pos_sorted_len_desc(out@),
            pos_anns_view(out@).to_multiset().add(pos_anns_view(rest@).to_multiset())
                == orig.to_multiset(),
            forall|k: int| 0 <= k < rest@.len() ==> (#[trigger] rest@[k]).0 <= 2 * LINE_ANNS_LIMIT,
            forall|k: int| 0 <= k < out@.len() ==> (#[trigger] out@[k]).0 <= 2 * LINE_ANNS_LIMIT,
        decreases rest.len(),
    {
        let ghost rpre = rest@;
        let item = match rest.pop() {
            Some(x) => x,
            None => {
                proof {
                    assert(false);
                }
                unreached()
            },
        };
        proof {
            assert(pos_anns_view(rpre) =~= pos_anns_view(rest@).push(item.1@));
            vstd::seq_lib::to_multiset_build(pos_anns_view(rest@), item.1@);
        }
        insert_pos_len_desc(&mut out, item);
        proof {
            assert(pos_anns_view(out@).to_multiset().add(pos_anns_view(rest@).to_multiset())
                =~= orig.to_multiset());
        }
    }
    out
}

/// Draw the underline row below the source line: each annotation's marker
/// across its columns, widest first, so that the narrowest annotation
/// covering a column is what finally shows there.
#[verifier::rlimit(100)]
#[verifier::spinoff_prover]
fn draw_underlines(
    buffer: &mut StyledBuffer,
    positions: &Vec<(usize, Annotation)>,
    line_offset: usize,
    code_offset: usize,
)
    requires
        pos_sorted_len_desc(positions@),
        forall|k: int| 0 <= k < positions@.len() ==> ann_cols_wf((#[trigger] positions@[k]).1@),
        line_offset < usize::MAX - 2,
        code_offset + POS_LIMIT + 2 < usize::MAX,
    ensures
        final(buffer)@.len() >= old(buffer)@.len(),
        final(buffer)@.len() <= grown_len(old(buffer)@.len() as int, line_offset + 1),
        forall|r: int, c: int|
            #![trigger cell_at(final(buffer)@, r, c)]
            r != line_offset + 1 || c < code_offset ==> cell_at(final(buffer)@, r, c) == cell_at(
                old(buffer)@,
                r,
                c,
            ),
        forall|r: int|
            #![trigger row_len(final(buffer)@, r)]
            r != line_offset + 1 ==> row_len(final(buffer)@, r) == row_len(old(buffer)@, r),
        forall|c: int|
            #![trigger covered_by(pos_anns_view(positions@), c)]
            covered_by(pos_anns_view(positions@), c) ==> min_covering_marker(
                pos_anns_view(positions@),
                c,
                cell_at(final(buffer)@, line_offset + 1, code_offset + c),
            ),
{
    let ghost pv = pos_anns_view(positions@);
    let n = positions.len();
    let mut k: usize = 0;
    while k < n
        invariant
            k <= n,
            n == positions@.len(),
            pv == pos_anns_view(positions@),
            pos_sorted_len_desc(positions@),
            forall|k2: int| 0 <= k2 < n ==> ann_cols_wf((#[trigger] positions@[k2]).1@),
            line_offset < usize::MAX - 2,
            code_offset + POS_LIMIT + 2 < usize::MAX,
            buffer@.len() >= old(buffer)@.len(),
            buffer@.len() <= grown_len(old(buffer)@.len() as int, line_offset + 1),
            forall|r: int, c: int|
                #![trigger cell_at(buffer@, r, c)]
                r != line_offset + 1 || c < code_offset ==> cell_at(buffer@, r, c) == cell_at(
                    old(buffer)@,
                    r,
                    c,
                ),
            forall|r: int|
                #![trigger row_len(buffer@, r)]
                r != line_offset + 1 ==> row_len(buffer@, r) == row_len(old(buffer)@, r),
            forall|c: int|
                #![trigger cell_at(buffer@, line_offset + 1, code_offset + c)]
                (exists|i: int| 0 <= i < k && covers(#[trigger] pv[i], c)) ==> (exists|i: int|
                    0 <= i < k && covers(#[trigger] pv[i], c) && (forall|j: int|
                        0 <= j < k && covers(#[trigger] pv[j], c) ==> spec_ann_len(pv[i])
                            <= spec_ann_len(pv[j])) && cell_at(
                        buffer@,
                        line_offset + 1,
                        code_offset + c,
                    ) == (StyledChar { ch: underline_char(pv[i]), style: underline_style(pv[i]) })),
        decreases n - k,
    {
        let e = vstd::std_specs::vec::vec_index(positions, k);
        let sc = e.1.start_col;
        let ec = e.1.end_col;
        let (uch, ust) = if e.1.is_primary {
            ('^', Style::UnderlinePrimary)
        } else {
            ('-', Style::UnderlineSecondary)
        };
        proof {
            assert(pv[k as int] == positions@[k as int].1@);
            assert(ann_cols_wf(pv[k as int]));
        }
        let ghost pre = buffer@;
        draw_range(buffer, uch, line_offset + 1, code_offset + sc, code_offset + ec, ust);
        proof {
            let kk = k as int;
            let urow = line_offset + 1;
            assert forall|c: int|
                #![trigger cell_at(buffer@, urow, code_offset + c)]
                (exists|i: int| 0 <= i < kk + 1 && covers(#[trigger] pv[i], c)) implies (exists|
                i: int,
            |
                0 <= i < kk + 1 && covers(#[trigger] pv[i], c) && (forall|j: int|
                    0 <= j < kk + 1 && covers(#[trigger] pv[j], c) ==> spec_ann_len(pv[i])
                        <= spec_ann_len(pv[j])) && cell_at(buffer@, urow, code_offset + c) == (
                StyledChar { ch: underline_char(pv[i]), style: underline_style(pv[i]) })) by {
                if covers(pv[kk], c) {
                    assert(0 <= c < POS_LIMIT as int);
                    assert(cell_at(buffer@, urow, code_offset + c) == (StyledChar {
                        ch: underline_char(pv[kk]),
                        style: underline_style(pv[kk]),
                    }));
                    assert forall|j: int|
                        0 <= j < kk + 1 && covers(#[trigger] pv[j], c) implies spec_ann_len(pv[kk])
                        <= spec_ann_len(pv[j]) by {
                        if j < kk {
                            assert(spec_ann_len(positions@[j].1@) >= spec_ann_len(
                                positions@[kk].1@,
                            ));
                        }
                    }
                } else {
                    let i0 = choose|i: int| 0 <= i < kk && covers(#[trigger] pv[i], c);
                    assert(exists|i: int|
                        0 <= i < kk && covers(#[trigger] pv[i], c) && (forall|j: int|
                            0 <= j < kk && covers(#[trigger] pv[j], c) ==> spec_ann_len(pv[i])
                                <= spec_ann_len(pv[j])) && cell_at(pre, urow, code_offset + c) == (
                        StyledChar { ch: underline_char(pv[i]), style: underline_style(pv[i]) }));
                    let iw = choose|i: int|
                        0 <= i < kk && covers(#[trigger] pv[i], c) && (forall|j: int|
                            0 <= j < kk && covers(#[trigger] pv[j], c) ==> spec_ann_len(pv[i])
                                <= spec_ann_len(pv[j])) && cell_at(pre, urow, code_offset + c) == (
                        StyledChar { ch: underline_char(pv[i]), style: underline_style(pv[i]) });
                    assert(ann_cols_wf(pv[iw]));
                    assert(covers(pv[iw], c));
                    assert(0 <= c < POS_LIMIT as int);
                    assert(!(code_offset + sc <= code_offset + c < code_offset + ec));
                    assert(cell_at(buffer@, urow, code_offset + c) == cell_at(
                        pre,
                        urow,
                        code_offset + c,
                    ));
                }
            }
        }
        k = k + 1;
    }
}


/// The view of a collected depth list.
pub open spec fn depth_pairs_view(v: Seq<(usize, Style)>) -> Seq<(int, Style)> {
    v.map_values(|q: (usize, Style)| (q.0 as int, q.1))
}

/// The depth slot of a bracket-part annotation; 0 for an inline one.
pub open spec fn spec_start_depth(a: AnnView) -> int {
    match a.kind {
        AnnotationType::Singleline => 0,
        AnnotationType::MultilineStart(d) => d as int,
        AnnotationType::MultilineLine(d) => d as int,
        AnnotationType::MultilineEnd(d) => d as int,
    }
}

/// Compute each annotation's stacking row: row 0 keeps the label inline
/// after the underline; a label is moved down when another annotation's
/// region (padded by that label's width) would collide with it, and bracket
/// start or end rows are kept clear of other labels so no text crosses a
/// horizontal bar. Returns the rows paired with the annotations, and how
/// many extra rows the line needs.
fn compute_positions(sorted: Vec<Annotation>) -> (r: (Vec<(usize, Annotation)>, usize))
    requires
        forall|k: int| 0 <= k < sorted@.len() ==> ann_cols_wf((#[trigger] sorted@[k])@),
        sorted@.len() <= LINE_ANNS_LIMIT,
    ensures
        r.0@.len() == sorted@.len(),
        pos_anns_view(r.0@) == anns_view(sorted@),
        forall|k: int| 0 <= k < r.0@.len() ==> (#[trigger] r.0@[k]).0 <= 2 * LINE_ANNS_LIMIT,
        r.1 <= 2 * LINE_ANNS_LIMIT + 1,
{
    let ghost orig = anns_view(sorted@);
    let n = sorted.len();
    let mut rest = sorted;
    let mut positions: Vec<(usize, Annotation)> = Vec::new();
    let mut line_len: usize = 0;
    let mut p: usize = 0;
    let mut i: usize = 0;
    while i < n
        invariant
            i <= n,
            n == orig.len(),
            n <= LINE_ANNS_LIMIT,
            i + rest@.len() == n,
            positions@.len() == i,
            pos_anns_view(positions@) =~= orig.take(i as int),
            anns_view(rest@) =~= orig.skip(i as int),
            forall|k: int| 0 <= k < orig.len() ==> ann_cols_wf(#[trigger] orig[k]),
            forall|k: int| 0 <= k < positions@.len() ==> (#[trigger] positions@[k]).0 <= 2 * i,
            p <= 2 * i,
            line_len <= p,
        decreases n - i,
    {
        proof {
            assert(anns_view(rest@)[0] == orig[i as int]);
        }
        let ghost restpre = rest@;
        let annotation = rest.remove(0);
        proof {
            assert forall|k: int| 0 <= k < rest@.len() implies #[trigger] anns_view(rest@)[k]
                == orig.skip(i + 1)[k] by {
                assert(rest@[k] == restpre[k + 1]);
                assert(anns_view(restpre)[k + 1] == orig.skip(i as int)[k + 1]);
            }
            assert(anns_view(rest@) =~= orig.skip(i + 1));
            assert(annotation@ == orig[i as int]);
        }

        // First scan: if this label overlaps a later annotation, move it off
        // the underline row.
        let has_lab = annotation.has_label();
        let takes = annotation.takes_space();
        let m = rest.len();
        let mut j: usize = 0;
        let mut bumped = false;
        while j < m && !bumped
            invariant
                j <= m,
                m == rest@.len(),
                annotation@ == orig[i as int],
                forall|k: int| 0 <= k < orig.len() ==> ann_cols_wf(#[trigger] orig[k]),
                anns_view(rest@) =~= orig.skip(i + 1),
                i < n,
                n == orig.len(),
                has_lab == spec_has_label(annotation@.label),
                n <= LINE_ANNS_LIMIT,
                line_len <= p,
                !bumped ==> p <= 2 * i,
                p <= 2 * i + 1,
            decreases m - j,
        {
            let next = vstd::std_specs::vec::vec_index(&rest, j);
            proof {
                assert(next@ == anns_view(rest@)[j as int]);
                assert(anns_view(rest@) == orig.skip(i + 1));
                assert(0 <= j < anns_view(rest@).len());
                assert(orig.skip(i + 1)[j as int] == orig[i + 1 + j]);
                assert(next@ == orig[i + 1 + j]);
                assert(ann_cols_wf(next@));
                assert(ann_cols_wf(annotation@));
            }
            if p == 0 && has_lab && overlaps(next, &annotation, 0) {
                p = p + 1;
                bumped = true;
            }
            j = j + 1;
        }

        let ghost ppre = positions@;
        positions.push((p, annotation.duplicate()));
        proof {
            assert(pos_anns_view(positions@) =~= orig.take(i + 1));
        }

        // Second scan: move the label further down when it would collide
        // with a later label (padded by that label's width), or when either
        // side is a bracket start/end needing its own row.
        let mut j2: usize = 0;
        let mut bumped2 = false;
        while j2 < m && !bumped2
            invariant
                j2 <= m,
                m == rest@.len(),
                annotation@ == orig[i as int],
                forall|k: int| 0 <= k < orig.len() ==> ann_cols_wf(#[trigger] orig[k]),
                anns_view(rest@) =~= orig.skip(i + 1),
                i < n,
                n == orig.len(),
                n <= LINE_ANNS_LIMIT,
                line_len <= p,
                !bumped2 ==> p <= 2 * i + 1,
                p <= 2 * i + 2,
            decreases m - j2,
        {
            let next = vstd::std_specs::vec::vec_index(&rest, j2);
            proof {
                assert(next@ == anns_view(rest@)[j2 as int]);
                assert(anns_view(rest@) == orig.skip(i + 1));
                assert(0 <= j2 < anns_view(rest@).len());
                assert(orig.skip(i + 1)[j2 as int] == orig[i + 1 + j2]);
                assert(next@ == orig[i + 1 + j2]);
                assert(ann_cols_wf(next@));
                assert(ann_cols_wf(annotation@));
            }
            let l: usize = match &next.label {
                Some(lab) => lab.len() + 2,
                None => 0,
            };
            let next_has_lab = next.has_label();
            let next_takes = next.takes_space();
            let collide = (overlaps(next, &annotation, l) && has_lab && next_has_lab) || (takes
                && next_has_lab) || (has_lab && next_takes) || (takes && next_takes);
            if collide {
                p = p + 1;
                bumped2 = true;
            }
            j2 = j2 + 1;
        }
        if line_len < p {
            line_len = p;
        }
        proof {
            assert(forall|k: int|
                0 <= k < positions@.len() ==> (#[trigger] positions@[k]).0 <= 2 * (i + 1));
        }
        i = i + 1;
    }
    if line_len != 0 {
        line_len = line_len + 1;
    }
    proof {
        assert(pos_anns_view(positions@) =~= anns_view(sorted@));
    }
    (positions, line_len)
}


/// An exact copy of an annotation list.
fn duplicate_annotations(v: &Vec<Annotation>) -> (r: Vec<Annotation>)
    ensures
        anns_view(r@) == anns_view(v@),
{
    let n = v.len();
    let mut out: Vec<Annotation> = Vec::new();
    let mut i: usize = 0;
    while i < n
        invariant
            i <= n,
            n == v@.len(),
            out@.len() == i,
            forall|k: int| 0 <= k < i ==> (#[trigger] out@[k])@ == v@[k]@,
        decreases n - i,
    {
        let a = vstd::std_specs::vec::vec_index(v, i);
        let dup = a.duplicate();
        let ghost pre = out@;
        out.push(dup);
        proof {
            assert(forall|k: int| 0 <= k < i ==> (#[trigger] out@[k])@ == v@[k]@);
            assert(out@[i as int]@ == v@[i as int]@);
        }
        i = i + 1;
    }
    proof {
        assert(anns_view(out@) =~= anns_view(v@));
    }
    out
}

/// Whether any annotation needs markers drawn.
fn any_marker(v: &Vec<Annotation>) -> (r: bool)
    ensures
        r == has_marker(anns_view(v@)),
{
    let n = v.len();
    let mut i: usize = 0;
    while i < n
        invariant
            i <= n,
            n == v@.len(),
            forall|k: int| 0 <= k < i ==> spec_is_line(#[trigger] anns_view(v@)[k]),
        decreases n - i,
    {
        let a = vstd::std_specs::vec::vec_index(v, i);
        proof {
            assert(a@ == anns_view(v@)[i as int]);
        }
        if !a.is_line() {
            return true;
        }
        i = i + 1;
    }
    false
}

/// The `(depth, style)` pairs of the brackets starting or ending in `v`.
fn collect_depths(v: &Vec<Annotation>) -> (r: Vec<(usize, Style)>)
    ensures
        depth_pairs_view(r@) == depths_of(anns_view(v@)),
{
    let ghost lav = anns_view(v@);
    let n = v.len();
    let mut depths: Vec<(usize, Style)> = Vec::new();
    let mut i: usize = 0;
    while i < n
        invariant
            i <= n,
            n == lav.len(),
            lav == anns_view(v@),
            depth_pairs_view(depths@) =~= depths_of(lav.take(i as int)),
        decreases n - i,
    {
        let a = vstd::std_specs::vec::vec_index(v, i);
        proof {
            assert(a@ == lav[i as int]);
            assert(lav.take(i + 1).drop_last() =~= lav.take(i as int));
            assert(lav.take(i + 1).last() == lav[i as int]);
        }
        let style = if a.is_primary {
            Style::LabelPrimary
        } else {
            Style::LabelSecondary
        };
        let bd: Option<usize> = match a.annotation_type {
            AnnotationType::MultilineStart(d) => Some(d),
            AnnotationType::MultilineEnd(d) => Some(d),
            _ => None,
        };
        let ghost dpre = depths@;
        if let Some(d) = bd {
            depths.push((d, style));
        }
        proof {
            assert(depth_pairs_view(depths@) =~= depths_of(lav.take(i + 1)));
        }
        i = i + 1;
    }
    proof {
        assert(lav.take(n as int) =~= lav);
    }
    depths
}

/// Render one annotated source line: the line number and source text, the
/// gutter separator, horizontal bracket bars, vertical connector bars,
/// label text, and last the underline row, narrowest annotations drawn
/// last so their markers always show. Returns the `(depth, style)` pairs of
/// the multi-line brackets that start or end on this line, so the caller can
/// keep drawing their vertical bars through the following lines.
#[verifier::rlimit(100)]
#[verifier::spinoff_prover]
pub fn render_source_line(
    buffer: &mut StyledBuffer,
    file: &SourceFile,
    line: &Line,
    width_offset: usize,
    code_offset: usize,
) -> (depths: Vec<(usize, Style)>)
    requires
        line@.line_index < file@.lines.len(),
        crate::file_within_limits(file@),
        forall|k: int|
            0 <= k < line@.annotations.len() ==> ann_cols_wf(#[trigger] line@.annotations[k])
                && ann_depth_fits(line@.annotations[k], width_offset as int, code_offset as int),
        line@.annotations.len() <= LINE_ANNS_LIMIT,
        2 <= width_offset <= code_offset,
        code_offset < LINE_LIMIT,
        old(buffer)@.len() + 8 * LINE_ANNS_LIMIT < usize::MAX,
    ensures
        final(buffer)@.len() > old(buffer)@.len(),
        final(buffer)@.len() <= old(buffer)@.len() + 2 * LINE_ANNS_LIMIT + 4,
        forall|r: int, c: int|
            r < old(buffer)@.len() ==> #[trigger] cell_at(final(buffer)@, r, c) == cell_at(
                old(buffer)@,
                r,
                c,
            ),
        forall|r: int|
            r < old(buffer)@.len() ==> #[trigger] row_len(final(buffer)@, r) == row_len(
                old(buffer)@,
                r,
            ),
        forall|j: int|
            0 <= j < file@.lines[line@.line_index as int].len() ==> #[trigger] cell_at(
                final(buffer)@,
                old(buffer)@.len() as int,
                code_offset + j,
            ) == (StyledChar {
                ch: file@.lines[line@.line_index as int][j],
                style: Style::Quotation,
            }),
        source_gutter_in(
            final(buffer)@,
            old(buffer)@.len() as int,
            width_offset as int,
            line@.line_index as int,
        ),
        special_case(line@.annotations, file@.lines[line@.line_index as int]) ==> cell_at(
            final(buffer)@,
            old(buffer)@.len() as int,
            width_offset + spec_start_depth(line@.annotations[0]) - 1,
        ) == (StyledChar { ch: '/', style: underline_style(line@.annotations[0]) }),
        special_case(line@.annotations, file@.lines[line@.line_index as int])
            ==> depth_pairs_view(depths@) == seq![
            (spec_start_depth(line@.annotations[0]), underline_style(line@.annotations[0])),
        ],
        !special_case(line@.annotations, file@.lines[line@.line_index as int]) && !has_marker(
            line@.annotations,
        ) ==> depth_pairs_view(depths@) == Seq::<(int, Style)>::empty(),
        !special_case(line@.annotations, file@.lines[line@.line_index as int]) && has_marker(
            line@.annotations,
        ) ==> depth_pairs_view(depths@) == depths_of(line@.annotations),
        !special_case(line@.annotations, file@.lines[line@.line_index as int]) && has_marker(
            line@.annotations,
        ) ==> forall|c: int|
            #![trigger covered_by(line@.annotations, c)]
            covered_by(line@.annotations, c) ==> min_covering_marker(
                line@.annotations,
                c,
                cell_at(final(buffer)@, old(buffer)@.len() as int + 1, code_offset + c),
            ),
{
    let ghost lav = line@.annotations;
    let ghost sourcev = file@.lines[line@.line_index as int];
    let line_offset = buffer.num_lines();
    let ghost lo = line_offset as int;
    let ghost co = code_offset as int;

    let source: &Vec<char> = vstd::std_specs::vec::vec_index(&file.lines, line.line_index);
    proof {
        assert(source@ == sourcev);
        assert(crate::file_within_limits(file@));
        assert(sourcev.len() < POS_LIMIT as int);
    }
    // The line number, right-aligned in the gutter.
    let num = crate::text::usize_to_chars(line.line_index + 1);
    proof {
        crate::text::lemma_dec_chars_len_line_limit((line@.line_index + 1) as nat);
        assert(num@ == crate::text::dec_chars((line@.line_index + 1) as nat));
    }
    let num_col = if num.len() + 3 <= width_offset {
        width_offset - 3 - num.len()
    } else {
        0
    };
    buffer.puts_chars(line_offset, num_col, &num, Style::LineNumber);
    buffer.puts_chars(line_offset, code_offset, source, Style::Quotation);
    draw_col_separator(buffer, line_offset, width_offset - 2);
    let ghost snap1 = buffer@;
    let ghost nlen = crate::text::dec_chars((line@.line_index + 1) as nat).len() as int;
    proof {
        assert(snap1.len() == lo + 1);
        assert(forall|j: int|
            0 <= j < sourcev.len() ==> #[trigger] cell_at(snap1, lo, co + j) == (StyledChar {
                ch: sourcev[j],
                style: Style::Quotation,
            }));
        assert(cell_at(snap1, lo, width_offset - 2) == (StyledChar {
            ch: '|',
            style: Style::LineNumber,
        }));
        assert(cell_at(snap1, lo, width_offset - 1) == (StyledChar {
            ch: ' ',
            style: Style::LineNumber,
        }));
        assert(nlen <= width_offset - 3 ==> forall|j: int|
            0 <= j < nlen ==> #[trigger] cell_at(snap1, lo, width_offset - 3 - nlen + j) == (
            StyledChar {
                ch: crate::text::dec_chars((line@.line_index + 1) as nat)[j],
                style: Style::LineNumber,
            }));
        assert(source_gutter_in(snap1, lo, width_offset as int, line@.line_index as int)) by {
            reveal(source_gutter_in);
        }
        assert(forall|r: int, c: int|
            r < lo ==> #[trigger] cell_at(snap1, r, c) == cell_at(old(buffer)@, r, c));
        assert(forall|r: int| r < lo ==> #[trigger] row_len(snap1, r) == row_len(old(buffer)@, r));
    }

    // Compact form: a line whose only annotation opens a multi-line bracket
    // before any visible text gets a single `/` instead of a full underline
    // block.
    if line.annotations.len() == 1 {
        let ann = vstd::std_specs::vec::vec_index(&line.annotations, 0);
        proof {
            assert(ann@ == lav[0]);
        }
        let is_start_depth: Option<usize> = match ann.annotation_type {
            AnnotationType::MultilineStart(depth) => Some(depth),
            _ => None,
        };
        if let Some(depth) = is_start_depth {
            if is_all_blank(source, ann.start_col) {
                let style = if ann.is_primary {
                    Style::UnderlinePrimary
                } else {
                    Style::UnderlineSecondary
                };
                proof {
                    assert(ann_depth_fits(lav[0], width_offset as int, co));
                }
                buffer.putc(line_offset, width_offset + depth - 1, '/', style);
                let mut r: Vec<(usize, Style)> = Vec::new();
                r.push((depth, style));
                proof {
                    assert(special_case(lav, sourcev));
                    assert(depth_pairs_view(r@) =~= seq![
                        (spec_start_depth(lav[0]), underline_style(lav[0])),
                    ]);
                    assert(source_gutter_in(
                        buffer@,
                        lo,
                        width_offset as int,
                        line@.line_index as int,
                    )) by {
                        reveal(source_gutter_in);
                        assert(width_offset + depth - 1 >= width_offset);
                        assert(forall|c: int|
                            0 <= c < width_offset ==> #[trigger] cell_at(buffer@, lo, c)
                                == cell_at(snap1, lo, c));
                    }
                }
                return r;
            }
        }
    }

    // If the only annotations are pass-through bracket bars, the plain
    // source line is all there is to show.
    if !any_marker(&line.annotations) {
        proof {
            assert(source_gutter_in(buffer@, lo, width_offset as int, line@.line_index as int))
                by {
                reveal(source_gutter_in);
            }
        }
        return Vec::new();
    }

    // Copy, sort by (start_col, end_col) descending, and stack the labels.
    let clone_anns = duplicate_annotations(&line.annotations);
    proof {
        assert(anns_view(clone_anns@) == lav);
    }
    let sorted = sort_anns_desc(clone_anns);
    proof {
        lemma_cols_wf_transfer(lav, anns_view(sorted@));
        assert forall|k: int|
            0 <= k < sorted@.len() implies ann_cols_wf((#[trigger] sorted@[k])@) by {
            assert(anns_view(sorted@)[k] == sorted@[k]@);
        }
    }
    let (positions, line_len) = compute_positions(sorted);
    let np = positions.len();
    let ghost pv1 = pos_anns_view(positions@);
    proof {
        assert(pv1.to_multiset() == lav.to_multiset());
        assert forall|k: int|
            0 <= k < np implies ann_cols_wf((#[trigger] positions@[k]).1@) by {
            assert(pv1[k] == positions@[k].1@);
            assert(ann_cols_wf(pv1[k]));
        }
        lemma_depth_fits_transfer(lav, pv1, width_offset as int, co);
        assert forall|k: int|
            0 <= k < np implies ann_depth_fits(
            (#[trigger] positions@[k]).1@,
            width_offset as int,
            co,
        ) by {
            assert(pv1[k] == positions@[k].1@);
        }
    }

    // The gutter separators of every extra row.
    let mut pos: usize = 0;
    while pos < line_len + 1
        invariant
            pos <= line_len + 1,
            line_len <= 2 * LINE_ANNS_LIMIT + 1,
            2 <= width_offset <= code_offset,
            code_offset < LINE_LIMIT,
            lo + 8 * LINE_ANNS_LIMIT < usize::MAX,
            lo == line_offset as int,
            co == code_offset as int,
            snap1.len() == lo + 1,
            frame_below(snap1, buffer@, lo, width_offset as int, co),
            buffer@.len() <= grown_len(snap1.len() as int, lo + line_len + 2),
        decreases line_len + 1 - pos,
    {
        draw_col_separator(buffer, line_offset + pos + 1, width_offset - 2);
        pos = pos + 1;
    }

    // The horizontal bars of bracket starts and ends.
    let mut k: usize = 0;
    while k < np
        invariant
            k <= np,
            np == positions@.len(),
            line_len <= 2 * LINE_ANNS_LIMIT + 1,
            2 <= width_offset <= code_offset,
            code_offset < LINE_LIMIT,
            lo + 8 * LINE_ANNS_LIMIT < usize::MAX,
            lo == line_offset as int,
            co == code_offset as int,
            snap1.len() == lo + 1,
            forall|k2: int| 0 <= k2 < np ==> (#[trigger] positions@[k2]).0 <= 2 * LINE_ANNS_LIMIT,
            forall|k2: int| 0 <= k2 < np ==> ann_cols_wf((#[trigger] positions@[k2]).1@),
            forall|k2: int|
                0 <= k2 < np ==> ann_depth_fits(
                    (#[trigger] positions@[k2]).1@,
                    width_offset as int,
                    co,
                ),
            frame_below(snap1, buffer@, lo, width_offset as int, co),
            buffer@.len() <= grown_len(snap1.len() as int, lo + line_len + 2),
        decreases np - k,
    {
        let e = vstd::std_specs::vec::vec_index(&positions, k);
        let p0 = e.0;
        let style = if e.1.is_primary {
            Style::UnderlinePrimary
        } else {
            Style::UnderlineSecondary
        };
        proof {
            assert(positions@[k as int].0 <= 2 * LINE_ANNS_LIMIT);
            assert(ann_cols_wf(positions@[k as int].1@));
            assert(ann_depth_fits(positions@[k as int].1@, width_offset as int, co));
        }
        let bracket_depth: Option<usize> = match e.1.annotation_type {
            AnnotationType::MultilineStart(d) => Some(d),
            AnnotationType::MultilineEnd(d) => Some(d),
            _ => None,
        };
        if let Some(d) = bracket_depth {
            if p0 <= line_len {
                draw_range(
                    buffer,
                    '_',
                    line_offset + p0 + 1,
                    width_offset + d,
                    code_offset + e.1.start_col,
                    style,
                );
            }
        }
        k = k + 1;
    }

    // The vertical connector bars: from a label down to its own row, and
    // along open brackets.
    let mut k2: usize = 0;
    while k2 < np
        invariant
            k2 <= np,
            np == positions@.len(),
            line_len <= 2 * LINE_ANNS_LIMIT + 1,
            2 <= width_offset <= code_offset,
            code_offset < LINE_LIMIT,
            lo + 8 * LINE_ANNS_LIMIT < usize::MAX,
            lo == line_offset as int,
            co == code_offset as int,
            snap1.len() == lo + 1,
            forall|k3: int| 0 <= k3 < np ==> (#[trigger] positions@[k3]).0 <= 2 * LINE_ANNS_LIMIT,
            forall|k3: int| 0 <= k3 < np ==> ann_cols_wf((#[trigger] positions@[k3]).1@),
            forall|k3: int|
                0 <= k3 < np ==> ann_depth_fits(
                    (#[trigger] positions@[k3]).1@,
                    width_offset as int,
                    co,
                ),
            frame_below(snap1, buffer@, lo, width_offset as int, co),
            buffer@.len() <= grown_len(snap1.len() as int, lo + line_len + 2),
        decreases np - k2,
    {
        let e = vstd::std_specs::vec::vec_index(&positions, k2);
        let p0 = e.0;
        let style = if e.1.is_primary {
            Style::UnderlinePrimary
        } else {
            Style::UnderlineSecondary
        };
        proof {
            assert(positions@[k2 as int].0 <= 2 * LINE_ANNS_LIMIT);
            assert(ann_cols_wf(positions@[k2 as int].1@));
            assert(ann_depth_fits(positions@[k2 as int].1@, width_offset as int, co));
        }
        let hl = e.1.has_label();
        let ts = e.1.takes_space();
        if p0 >= 1 && (hl || ts) && p0 <= line_len {
            draw_vcol(
                buffer,
                line_offset + 1,
                line_offset + p0 + 2,
                code_offset + e.1.start_col,
                style,
            );
        }
        let vkind: Option<(usize, bool)> = match e.1.annotation_type {
            AnnotationType::MultilineStart(d) => Some((d, true)),
            AnnotationType::MultilineEnd(d) => Some((d, false)),
            _ => None,
        };
        if let Some((d, is_start)) = vkind {
            if p0 <= line_len {
                if is_start {
                    draw_vcol(
                        buffer,
                        line_offset + p0 + 2,
                        line_offset + line_len + 2,
                        width_offset + d - 1,
                        style,
                    );
                } else {
                    draw_vcol(
                        buffer,
                        line_offset,
                        line_offset + p0 + 2,
                        width_offset + d - 1,
                        style,
                    );
                }
            }
        }
        k2 = k2 + 1;
    }

    // The label texts.
    let mut k3: usize = 0;
    while k3 < np
        invariant
            k3 <= np,
            np == positions@.len(),
            line_len <= 2 * LINE_ANNS_LIMIT + 1,
            2 <= width_offset <= code_offset,
            code_offset < LINE_LIMIT,
            lo + 8 * LINE_ANNS_LIMIT < usize::MAX,
            lo == line_offset as int,
            co == code_offset as int,
            snap1.len() == lo + 1,
            forall|k4: int| 0 <= k4 < np ==> (#[trigger] positions@[k4]).0 <= 2 * LINE_ANNS_LIMIT,
            forall|k4: int| 0 <= k4 < np ==> ann_cols_wf((#[trigger] positions@[k4]).1@),
            frame_below(snap1, buffer@, lo, width_offset as int, co),
            buffer@.len() <= grown_len(snap1.len() as int, lo + line_len + 2),
        decreases np - k3,
    {
        let e = vstd::std_specs::vec::vec_index(&positions, k3);
        let p0 = e.0;
        let style = if e.1.is_primary {
            Style::LabelPrimary
        } else {
            Style::LabelSecondary
        };
        proof {
            assert(positions@[k3 as int].0 <= 2 * LINE_ANNS_LIMIT);
            assert(ann_cols_wf(positions@[k3 as int].1@));
        }
        if p0 <= line_len {
            let (prow, pcol) = if p0 == 0 {
                (1, e.1.end_col + 1)
            } else {
                (p0 + 2, e.1.start_col)
            };
            match &e.1.label {
                Some(label) => {
                    buffer.puts_chars(line_offset + prow, code_offset + pcol, label, style);
                },
                None => {},
            }
        }
        k3 = k3 + 1;
    }

    // The underline row, widest annotations first.
    let positions2 = sort_pos_len_desc(positions);
    proof {
        lemma_cols_wf_transfer(pv1, pos_anns_view(positions2@));
        assert forall|k: int|
            0 <= k < positions2@.len() implies ann_cols_wf((#[trigger] positions2@[k]).1@) by {
            assert(pos_anns_view(positions2@)[k] == positions2@[k].1@);
        }
    }
    draw_underlines(buffer, &positions2, line_offset, code_offset);
    let ghost snap_final = buffer@;

    // Report which brackets open or close on this line.
    let depths = collect_depths(&line.annotations);
    proof {
        assert(buffer@ == snap_final);
        assert(source_gutter_in(buffer@, lo, width_offset as int, line@.line_index as int)) by {
            reveal(source_gutter_in);
            assert(forall|c: int|
                0 <= c < width_offset ==> #[trigger] cell_at(buffer@, lo, c) == cell_at(
                    snap1,
                    lo,
                    c,
                ));
        }

        // Carry the underline guarantee over to the line's own annotations.
        assert forall|c: int| #![trigger covered_by(lav, c)]
            covered_by(lav, c) implies min_covering_marker(
            lav,
            c,
            cell_at(buffer@, lo + 1, co + c),
        ) by {
            let pv2 = pos_anns_view(positions2@);
            lemma_covering_transfer(lav, pv2, c, cell_at(buffer@, lo + 1, co + c));
            assert(covered_by(pv2, c));
            assert(min_covering_marker(pv2, c, cell_at(buffer@, lo + 1, co + c)));
            lemma_covering_transfer(pv2, lav, c, cell_at(buffer@, lo + 1, co + c));
        }
    }
    depths
}

/// Depth slots carry over between lists with the same annotations.
proof fn lemma_depth_fits_transfer(
    a: Seq<AnnView>,
    b: Seq<AnnView>,
    width_offset: int,
    code_offset: int,
)
    requires
        a.to_multiset() == b.to_multiset(),
        forall|k: int|
            0 <= k < a.len() ==> ann_depth_fits(#[trigger] a[k], width_offset, code_offset),
    ensures
        forall|k: int|
            0 <= k < b.len() ==> ann_depth_fits(#[trigger] b[k], width_offset, code_offset),
{
    broadcast use vstd::seq_lib::group_to_multiset_ensures;

    assert forall|k: int|
        0 <= k < b.len() implies ann_depth_fits(#[trigger] b[k], width_offset, code_offset) by {
        assert(b.contains(b[k]));
        assert(b.to_multiset().count(b[k]) > 0);
        assert(a.to_multiset().count(b[k]) > 0);
        assert(a.contains(b[k]));
        let j = choose|j: int| 0 <= j < a.len() && a[j] == b[k];
        assert(ann_depth_fits(a[j], width_offset, code_offset));
    }
}

} // verus!
