//! The emitter: builds a diagnostic's header, groups its resolved spans into
//! annotated lines, lays the lines out one by one, elides long gaps between
//! annotated lines, and renders the styled buffer into text runs ready for an
//! output sink. Also the pure decisions of the terminal layer: whether color
//! is in use and which attributes each style maps to.

use vstd::prelude::*;
use crate::snippet::{AnnotationType, AnnView, Style};
use crate::styled_buffer::{cell_at, grown_len, rendered_view, row_len, runs_of, spec_render,
    StyledBuffer, StyledChar, StyledString};
use crate::layout::{ann_cols_wf, ann_depth_fits, depths_of, draw_col_separator,
    draw_col_separator_no_space, draw_multiline_line, draw_note_separator, render_source_line};
use crate::preprocess::{ann_wf, fav_view, file_entry_wf, files_wf, line_wf, preprocess_annotations,
    span_is_resolvable, span_resolvable, sf_views, sl_views, total_lines, FileWithAnnotatedLines,
    lemma_total_lines_take_succ, lemma_total_lines_nonneg, lemma_total_lines_prefix,
    LINE_ANNS_LIMIT};
use crate::{label_within_limits, spec_level_str, Diagnostic, Level, SourceFile, Span, SpanLabel,
    SpanStyle, LINE_LIMIT, POS_LIMIT, SPAN_LIMIT};

verus! {

/// Whether and when color is applied to the output.
#[derive(Copy, Clone, PartialEq, Eq, Structural, Debug)]
pub enum ColorConfig {
    Auto,
    Always,
    Never,
}

impl ColorConfig {
    /// Whether color is used, given whether the error stream is a terminal.
    pub fn use_color(&self, stderr_is_tty: bool) -> (r: bool)
        ensures
            r == match *self {
                ColorConfig::Always => true,
                ColorConfig::Never => false,
                ColorConfig::Auto => stderr_is_tty,
            },
    {
        match *self {
            ColorConfig::Always => true,
            ColorConfig::Never => false,
            ColorConfig::Auto => stderr_is_tty,
        }
    }
}

/// One terminal attribute to apply before writing a text run.
#[derive(Copy, Clone, PartialEq, Eq, Structural, Debug)]
pub enum Attr {
    Bold,
    Fg(crate::TermColor),
}

/// The attributes each rendering style maps to; `windows` selects the
/// platform's color variants.
pub open spec fn spec_style_attrs(style: Style, lvl: Level, windows: bool) -> Seq<Attr> {
    match style {
        Style::LineAndColumn => Seq::empty(),
        Style::LineNumber => if windows {
            seq![Attr::Bold, Attr::Fg(crate::TermColor::BrightCyan)]
        } else {
            seq![Attr::Bold, Attr::Fg(crate::TermColor::BrightBlue)]
        },
        Style::Quotation => Seq::empty(),
        Style::HeaderMsg => if windows {
            seq![Attr::Bold, Attr::Fg(crate::TermColor::BrightWhite)]
        } else {
            seq![Attr::Bold]
        },
        Style::UnderlinePrimary => seq![
            Attr::Bold,
            Attr::Fg(crate::spec_level_color(lvl, windows).fg),
        ],
        Style::LabelPrimary => seq![
            Attr::Bold,
            Attr::Fg(crate::spec_level_color(lvl, windows).fg),
        ],
        Style::UnderlineSecondary => if windows {
            seq![Attr::Bold, Attr::Fg(crate::TermColor::BrightCyan)]
        } else {
            seq![Attr::Bold, Attr::Fg(crate::TermColor::BrightBlue)]
        },
        Style::LabelSecondary => if windows {
            seq![Attr::Bold, Attr::Fg(crate::TermColor::BrightCyan)]
        } else {
            seq![Attr::Bold, Attr::Fg(crate::TermColor::BrightBlue)]
        },
        Style::NoStyle => Seq::empty(),
        Style::Level(l) => seq![Attr::Bold, Attr::Fg(crate::spec_level_color(l, windows).fg)],
        Style::Highlight => seq![Attr::Bold],
    }
}

/// The terminal attributes to apply for one style of one diagnostic level.
pub fn style_attrs(style: Style, lvl: Level, windows: bool) -> (r: Vec<Attr>)
    ensures
        r@ == spec_style_attrs(style, lvl, windows),
{
    let mut r: Vec<Attr> = Vec::new();
    match style {
        Style::LineAndColumn => {},
        Style::LineNumber => {
            r.push(Attr::Bold);
            if windows {
                r.push(Attr::Fg(crate::TermColor::BrightCyan));
            } else {
                r.push(Attr::Fg(crate::TermColor::BrightBlue));
            }
        },
        Style::Quotation => {},
        Style::HeaderMsg => {
            r.push(Attr::Bold);
            if windows {
                r.push(Attr::Fg(crate::TermColor::BrightWhite));
            }
        },
        Style::UnderlinePrimary => {
            r.push(Attr::Bold);
            r.push(Attr::Fg(lvl.color(windows).fg));
        },
        Style::LabelPrimary => {
            r.push(Attr::Bold);
            r.push(Attr::Fg(lvl.color(windows).fg));
        },
        Style::UnderlineSecondary => {
            r.push(Attr::Bold);
            if windows {
                r.push(Attr::Fg(crate::TermColor::BrightCyan));
            } else {
                r.push(Attr::Fg(crate::TermColor::BrightBlue));
            }
        },
        Style::LabelSecondary => {
            r.push(Attr::Bold);
            if windows {
                r.push(Attr::Fg(crate::TermColor::BrightCyan));
            } else {
                r.push(Attr::Fg(crate::TermColor::BrightBlue));
            }
        },
        Style::NoStyle => {},
        Style::Level(l) => {
            r.push(Attr::Bold);
            r.push(Attr::Fg(l.color(windows).fg));
        },
        Style::Highlight => {
            r.push(Attr::Bold);
        },
    }
    proof {
        assert(r@ =~= spec_style_attrs(style, lvl, windows));
    }
    r
}

/// Accumulates a whole report in memory, so the caller can write it to the
/// terminal in one step and keep concurrent writers' output from interleaving.
pub struct BufferedWriter {
    buffer: Vec<u8>,
}

impl BufferedWriter {
    /// An empty write buffer. The leading underscore is historical: on some
    /// platforms the terminal backend does not buffer and never calls this.
    pub fn _new() -> (r: BufferedWriter)
        ensures
            r@ == Seq::<u8>::empty(),
    {
        let r = BufferedWriter { buffer: Vec::new() };
        proof {
            assert(r@ =~= Seq::<u8>::empty());
        }
        r
    }

    /// Append bytes; reports how many were taken (always all of them).
    pub fn write(&mut self, buf: &[u8]) -> (n: usize)
        requires
            old(self)@.len() + buf@.len() < usize::MAX,
        ensures
            final(self)@ == old(self)@ + buf@,
            n == buf@.len(),
    {
        let mut i: usize = 0;
        let len = buf.len();
        while i < len
            invariant
                i <= len,
                len == buf@.len(),
                old(self)@.len() + buf@.len() < usize::MAX,
                self@ == old(self)@ + buf@.take(i as int),
            decreases len - i,
        {
            let b = *vstd::slice::slice_index_get(buf, i);
            self.buffer.push(b);
            proof {
                assert(self@ =~= old(self)@ + buf@.take(i + 1));
            }
            i = i + 1;
        }
        proof {
            assert(self@ =~= old(self)@ + buf@);
        }
        len
    }

    /// Hand the accumulated bytes out and reset the buffer.
    pub fn take_buffer(&mut self) -> (r: Vec<u8>)
        ensures
            r@ == old(self)@,
            final(self)@ == Seq::<u8>::empty(),
    {
        let mut out: Vec<u8> = Vec::new();
        core::mem::swap(&mut out, &mut self.buffer);
        proof {
            assert(self@ =~= Seq::<u8>::empty());
        }
        out
    }
}

impl View for BufferedWriter {
    type V = Seq<u8>;

    closed spec fn view(&self) -> Seq<u8> {
        self.buffer@
    }
}

/// The text of a diagnostic's header row: `<level>[<code>]: <message>`.
pub open spec fn header_text(level: Level, code: Option<Seq<char>>, msgtext: Seq<char>) -> Seq<
    char,
> {
    spec_level_str(level) + (match code {
        Some(c) => seq!['['] + c + seq![']'],
        None => Seq::<char>::empty(),
    }) + ": "@ + msgtext
}

/// How many leading header characters carry the level's style; the rest use
/// the header-message style.
pub open spec fn header_level_len(level: Level, code: Option<Seq<char>>) -> int {
    spec_level_str(level).len() + (match code {
        Some(c) => c.len() + 2int,
        None => 0int,
    })
}

/// The cell at column `c` of the header row.
pub open spec fn header_cell_at(
    level: Level,
    code: Option<Seq<char>>,
    msgtext: Seq<char>,
    c: int,
) -> StyledChar {
    StyledChar {
        ch: header_text(level, code, msgtext)[c],
        style: if c < header_level_len(level, code) {
            Style::Level(level)
        } else {
            Style::HeaderMsg
        },
    }
}

/// Whether `row` is exactly the header row of the diagnostic.
pub open spec fn is_header_row(
    row: Seq<StyledChar>,
    level: Level,
    code: Option<Seq<char>>,
    msgtext: Seq<char>,
) -> bool {
    &&& row.len() == header_text(level, code, msgtext).len()
    &&& forall|c: int|
        0 <= c < row.len() ==> #[trigger] row[c] == header_cell_at(level, code, msgtext, c)
}

/// Whether row 0 of the grid holds exactly the first `upto` header cells.
pub open spec fn row0_header_prefix(
    v: Seq<Seq<StyledChar>>,
    level: Level,
    code: Option<Seq<char>>,
    msgtext: Seq<char>,
    upto: int,
) -> bool {
    &&& v.len() >= 1
    &&& 0 <= upto <= header_text(level, code, msgtext).len()
    &&& row_len(v, 0) == upto
    &&& forall|c: int|
        0 <= c < upto ==> #[trigger] cell_at(v, 0, c) == header_cell_at(level, code, msgtext, c)
}

/// The views of a styled message's parts.
pub open spec fn msg_parts_view(msg: Seq<(String, Style)>) -> Seq<(Seq<char>, Style)> {
    msg.map_values(|p: (String, Style)| (p.0@, p.1))
}

/// The concatenated text of a styled message.
pub open spec fn msgs_concat(parts: Seq<(Seq<char>, Style)>) -> Seq<char>
    decreases parts.len(),
{
    if parts.len() == 0 {
        Seq::empty()
    } else {
        msgs_concat(parts.drop_last()) + parts.last().0
    }
}

/// Whether every part of a styled message fits the grid arithmetic.
pub open spec fn msg_within_limits(parts: Seq<(Seq<char>, Style)>) -> bool {
    &&& parts.len() < SPAN_LIMIT as int
    &&& forall|i: int| 0 <= i < parts.len() ==> (#[trigger] parts[i]).0.len() < POS_LIMIT as int
}

/// Whether the list has a primary label with a resolvable span: without one,
/// a diagnostic renders as its header alone.
pub open spec fn has_primary_span(
    spans: Seq<crate::SpanLabelView>,
    files: Seq<crate::SourceFileView>,
) -> bool {
    exists|i: int|
        0 <= i < spans.len() && (#[trigger] spans[i]).style == SpanStyle::Primary
            && span_resolvable(spans[i].span, files)
}

/// Every depth reported for a line's brackets lies within the margin bound.
proof fn lemma_depths_of_bounds(anns: Seq<AnnView>, maxd: int)
    requires
        forall|k: int| 0 <= k < anns.len() ==> ann_wf(#[trigger] anns[k], maxd),
    ensures
        forall|q: int|
            0 <= q < depths_of(anns).len() ==> 1 <= (#[trigger] depths_of(anns)[q]).0 <= maxd,
    decreases anns.len(),
{
    if anns.len() > 0 {
        assert(forall|k: int|
            0 <= k < anns.drop_last().len() ==> #[trigger] anns.drop_last()[k] == anns[k]);
        lemma_depths_of_bounds(anns.drop_last(), maxd);
        assert(ann_wf(anns.last(), maxd));
        let prev = depths_of(anns.drop_last());
        assert forall|q: int|
            0 <= q < depths_of(anns).len() implies 1 <= (#[trigger] depths_of(anns)[q]).0
            <= maxd by {
            if q < prev.len() {
                assert(depths_of(anns)[q] == prev[q]);
            } else {
                match anns.last().kind {
                    AnnotationType::MultilineStart(d) => {
                        assert(depths_of(anns)[q].0 == d as int);
                    },
                    AnnotationType::MultilineEnd(d) => {
                        assert(depths_of(anns)[q].0 == d as int);
                    },
                    AnnotationType::MultilineLine(d) => {
                        assert(false);
                    },
                    AnnotationType::Singleline => {
                        assert(false);
                    },
                }
            }
        }
    }
}

/// The largest 0-based end line among a list of labels' spans.
pub open spec fn max_span_end(spans: Seq<crate::SpanLabelView>) -> int
    decreases spans.len(),
{
    if spans.len() == 0 {
        0
    } else {
        let prev = max_span_end(spans.drop_last());
        let cand = spans.last().span.end.line as int;
        if cand > prev {
            cand
        } else {
            prev
        }
    }
}

/// The largest 0-based end line over all diagnostics of a batch.
pub open spec fn spec_max_line(ds: Seq<crate::DiagnosticView>) -> int
    decreases ds.len(),
{
    if ds.len() == 0 {
        0
    } else {
        let prev = spec_max_line(ds.drop_last());
        let cand = max_span_end(ds.last().spans);
        if cand > prev {
            cand
        } else {
            prev
        }
    }
}

/// Lays diagnostics out over a set of source files. The source text stands
/// in for the caller's source map: each span of a diagnostic refers to one
/// of these files by index, with already-resolved line/column positions.
pub struct Renderer {
    pub files: Vec<SourceFile>,
}

impl Renderer {
    /// Whether the renderer's files fit the grid arithmetic.
    pub open spec fn wf(&self) -> bool {
        crate::files_within_limits(sf_views(self.files@))
    }

    /// A renderer over the given sources.
    pub fn new(files: Vec<SourceFile>) -> (r: Renderer)
        requires
            crate::files_within_limits(sf_views(files@)),
        ensures
            r.wf(),
            r.files@ == files@,
    {
        Renderer { files }
    }

    /// The largest 0-based line number any diagnostic of the batch refers
    /// to. A batch shares one gutter width so its reports align.
    pub fn get_max_line_num(&self, msgs: &Vec<Diagnostic>) -> (r: usize)
        ensures
            r as int == spec_max_line(msgs@.map_values(|d: Diagnostic| d@)),
    {
        let ghost dv = msgs@.map_values(|d: Diagnostic| d@);
        let n = msgs.len();
        let mut max: usize = 0;
        let mut i: usize = 0;
        while i < n
            invariant
                i <= n,
                n == dv.len(),
                dv == msgs@.map_values(|d: Diagnostic| d@),
                max as int == spec_max_line(dv.take(i as int)),
            decreases n - i,
        {
            let d = vstd::std_specs::vec::vec_index(msgs, i);
            proof {
                assert(d@ == dv[i as int]);
                assert(dv.take(i + 1).drop_last() =~= dv.take(i as int));
                assert(dv.take(i + 1).last() == dv[i as int]);
            }
            let ghost sv = d@.spans;
            let m = d.spans.len();
            let mut j: usize = 0;
            let mut dmax: usize = 0;
            while j < m
                invariant
                    j <= m,
                    m == sv.len(),
                    sv == d@.spans,
                    d@ == dv[i as int],
                    dmax as int == max_span_end(sv.take(j as int)),
                decreases m - j,
            {
                let sl = vstd::std_specs::vec::vec_index(&d.spans, j);
                proof {
                    assert(sl@ == sv[j as int]);
                    assert(sv.take(j + 1).drop_last() =~= sv.take(j as int));
                    assert(sv.take(j + 1).last() == sv[j as int]);
                }
                if sl.span.end.line > dmax {
                    dmax = sl.span.end.line;
                }
                j = j + 1;
            }
            proof {
                assert(sv.take(m as int) =~= sv);
            }
            if dmax > max {
                max = dmax;
            }
            proof {
                assert(dv.take(i + 1).last().spans == sv);
            }
            i = i + 1;
        }
        proof {
            assert(dv.take(n as int) =~= dv);
        }
        max
    }
}


/// Keep `style`, or the override when the style is plain.
pub fn style_or_override(style: Style, over: Option<Style>) -> (r: Style)
    ensures
        r == (match over {
            Some(o) => if style == Style::NoStyle {
                o
            } else {
                style
            },
            None => style,
        }),
{
    match over {
        Some(o) => {
            if crate::styled_buffer::styles_equal(style, Style::NoStyle) {
                o
            } else {
                style
            }
        },
        None => style,
    }
}

/// One piece of text, each character paired with one style.
pub open spec fn styled_pairs(text: Seq<char>, style: Style) -> Seq<(char, Style)>
    decreases text.len(),
{
    if text.len() == 0 {
        Seq::empty()
    } else {
        styled_pairs(text.drop_last(), style).push((text.last(), style))
    }
}

/// Styling characters keeps their count and positions.
pub proof fn lemma_styled_pairs(text: Seq<char>, style: Style)
    ensures
        styled_pairs(text, style).len() == text.len(),
        forall|c: int|
            0 <= c < text.len() ==> #[trigger] styled_pairs(text, style)[c] == (text[c], style),
    decreases text.len(),
{
    if text.len() > 0 {
        lemma_styled_pairs(text.drop_last(), style);
        assert(forall|c: int|
            0 <= c < text.len() - 1 ==> #[trigger] text.drop_last()[c] == text[c]);
        let prev = styled_pairs(text.drop_last(), style);
        assert(styled_pairs(text, style) == prev.push((text.last(), style)));
        assert forall|c: int|
            0 <= c < text.len() implies #[trigger] styled_pairs(text, style)[c] == (
        text[c],
        style,
        ) by {
            if c < text.len() - 1 {
                assert(styled_pairs(text, style)[c] == prev[c]);
            }
        }
    } else {
        assert(styled_pairs(text, style) =~= Seq::<(char, Style)>::empty());
    }
}

/// Keep `style`, or the override when the style is plain.
pub open spec fn spec_override(style: Style, over: Option<Style>) -> Style {
    match over {
        Some(o) => if style == Style::NoStyle {
            o
        } else {
            style
        },
        None => style,
    }
}

/// Lay the pieces of one split message part into rows: the first piece
/// continues the last row, and each further piece opens the next row.
pub open spec fn lay_pieces(
    rows: Seq<Seq<(char, Style)>>,
    pieces: Seq<Seq<char>>,
    style: Style,
) -> Seq<Seq<(char, Style)>>
    decreases pieces.len(),
{
    if pieces.len() == 0 {
        rows
    } else if pieces.len() == 1 {
        rows.update(rows.len() - 1, rows.last() + styled_pairs(pieces[0], style))
    } else {
        lay_pieces(rows, pieces.drop_last(), style).push(styled_pairs(pieces.last(), style))
    }
}

/// The rows of styled text a message lays out: each part's text is split on
/// newlines; parts follow each other on one row until a newline starts the
/// next.
pub open spec fn msg_rows(parts: Seq<(Seq<char>, Style)>, over: Option<Style>) -> Seq<
    Seq<(char, Style)>,
>
    decreases parts.len(),
{
    if parts.len() == 0 {
        seq![Seq::<(char, Style)>::empty()]
    } else {
        lay_pieces(
            msg_rows(parts.drop_last(), over),
            crate::text::spec_split_lines(parts.last().0),
            spec_override(parts.last().1, over),
        )
    }
}

/// Laying pieces never removes rows.
pub proof fn lemma_lay_pieces_len(
    rows: Seq<Seq<(char, Style)>>,
    pieces: Seq<Seq<char>>,
    style: Style,
)
    requires
        rows.len() >= 1,
    ensures
        lay_pieces(rows, pieces, style).len() == rows.len() + (if pieces.len() <= 1 {
            0int
        } else {
            pieces.len() - 1
        }),
    decreases pieces.len(),
{
    if pieces.len() > 1 {
        lemma_lay_pieces_len(rows, pieces.drop_last(), style);
    }
}

/// A message always occupies at least one row.
pub proof fn lemma_msg_rows_nonempty(parts: Seq<(Seq<char>, Style)>, over: Option<Style>)
    ensures
        msg_rows(parts, over).len() >= 1,
    decreases parts.len(),
{
    if parts.len() > 0 {
        lemma_msg_rows_nonempty(parts.drop_last(), over);
        lemma_lay_pieces_len(
            msg_rows(parts.drop_last(), over),
            crate::text::spec_split_lines(parts.last().0),
            spec_override(parts.last().1, over),
        );
    }
}

/// The view of exec rows of styled characters.
pub open spec fn pair_rows_view(v: Seq<Vec<(char, Style)>>) -> Seq<Seq<(char, Style)>> {
    v.map_values(|row: Vec<(char, Style)>| row@)
}

/// The characters of a piece, each paired with the given style.
fn pairs_of(text: &Vec<char>, style: Style) -> (r: Vec<(char, Style)>)
    ensures
        r@ == styled_pairs(text@, style),
{
    let n = text.len();
    let mut out: Vec<(char, Style)> = Vec::new();
    let mut i: usize = 0;
    while i < n
        invariant
            i <= n,
            n == text@.len(),
            out@.len() == i,
            forall|k: int| 0 <= k < i ==> #[trigger] out@[k] == (text@[k], style),
        decreases n - i,
    {
        out.push((text[i], style));
        i = i + 1;
    }
    proof {
        lemma_styled_pairs(text@, style);
        assert(out@ =~= styled_pairs(text@, style));
    }
    out
}

impl Renderer {
    /// Append a styled, possibly multi-line message to the buffer: the first
    /// message row continues row 0's current content; every later message
    /// row is written on the next buffer row after a margin of exactly
    /// `padding + label.len() + 5` plain spaces, aligning it under an
    /// `= <label>: ` prefix. Plain-styled text takes the override when given.
    #[verifier::rlimit(100)]
    #[verifier::spinoff_prover]
    pub fn msg_to_buffer(
        &self,
        buffer: &mut StyledBuffer,
        msg: &Vec<(String, Style)>,
        padding: usize,
        label: &str,
        override_style: Option<Style>,
    )
        requires
            msg_within_limits(msg_parts_view(msg@)),
            padding < POS_LIMIT,
            label@.len() < POS_LIMIT,
            old(buffer)@.len() < 2 * POS_LIMIT as int,
            forall|r: int| #[trigger] row_len(old(buffer)@, r) < 2 * POS_LIMIT as int,
        ensures
            ({
                let rows = msg_rows(msg_parts_view(msg@), override_style);
                let padlen = padding + label@.len() + 5;
                &&& final(buffer)@.len() >= old(buffer)@.len()
                &&& final(buffer)@.len() <= old(buffer)@.len() + 0x400_0800
                &&& rows.len() > 1 ==> final(buffer)@.len() == grown_len(
                    old(buffer)@.len() as int,
                    rows.len() - 1,
                )
                &&& forall|r: int|
                    #![trigger row_len(final(buffer)@, r)]
                    row_len(final(buffer)@, r) == if r == 0 {
                        row_len(old(buffer)@, 0) + rows[0].len()
                    } else if 1 <= r < rows.len() {
                        row_len(old(buffer)@, r) + padlen + rows[r].len()
                    } else {
                        row_len(old(buffer)@, r)
                    }
                &&& forall|r: int, c: int|
                    #![trigger cell_at(final(buffer)@, r, c)]
                    cell_at(final(buffer)@, r, c) == if r == 0 && row_len(old(buffer)@, 0) <= c
                        < row_len(old(buffer)@, 0) + rows[0].len() {
                        (StyledChar {
                            ch: rows[0][c - row_len(old(buffer)@, 0)].0,
                            style: rows[0][c - row_len(old(buffer)@, 0)].1,
                        })
                    } else if 1 <= r < rows.len() && row_len(old(buffer)@, r) <= c < row_len(
                        old(buffer)@,
                        r,
                    ) + padlen {
                        (StyledChar { ch: ' ', style: Style::NoStyle })
                    } else if 1 <= r < rows.len() && row_len(old(buffer)@, r) + padlen <= c
                        < row_len(old(buffer)@, r) + padlen + rows[r].len() {
                        (StyledChar {
                            ch: rows[r][c - row_len(old(buffer)@, r) - padlen].0,
                            style: rows[r][c - row_len(old(buffer)@, r) - padlen].1,
                        })
                    } else {
                        cell_at(old(buffer)@, r, c)
                    }
            }),
    {
        let ghost parts = msg_parts_view(msg@);
        let ghost rows_spec = msg_rows(parts, override_style);
        let ghost old0 = old(buffer)@;

        // The margin that aligns continuation rows under the label prefix.
        let pad_width = padding + label.unicode_len() + 5;
        let mut pad: Vec<char> = Vec::new();
        let mut pi: usize = 0;
        while pi < pad_width
            invariant
                pi <= pad_width,
                pad@.len() == pi,
                forall|k: int| 0 <= k < pi ==> #[trigger] pad@[k] == ' ',
            decreases pad_width - pi,
        {
            pad.push(' ');
            pi = pi + 1;
        }

        // First lay the message out into rows of styled characters.
        let mut rows: Vec<Vec<(char, Style)>> = Vec::new();
        rows.push(Vec::new());
        proof {
            assert(parts.take(0) =~= Seq::<(Seq<char>, Style)>::empty());
            assert(pair_rows_view(rows@) =~~= msg_rows(parts.take(0), override_style));
        }
        let n = msg.len();
        let mut i: usize = 0;
        while i < n
            invariant
                i <= n,
                n == parts.len(),
                parts == msg_parts_view(msg@),
                msg_within_limits(parts),
                rows@.len() >= 1,
                pair_rows_view(rows@) == msg_rows(parts.take(i as int), override_style),
                rows@.len() <= 1 + i as int * 0x8000,
                forall|r: int|
                    0 <= r < rows@.len() ==> (#[trigger] rows@[r])@.len() <= i as int * 0x8000,
            decreases n - i,
        {
            let part = vstd::std_specs::vec::vec_index(msg, i);
            proof {
                assert(parts[i as int] == (part.0@, part.1));
                assert(parts[i as int].0.len() < POS_LIMIT as int);
            }
            let text = crate::text::str_to_chars(part.0.as_str());
            let sty = style_or_override(part.1, override_style);
            let pieces = crate::text::split_lines(&text);
            let np = pieces.len();
            let ghost piecesv = crate::text::spec_split_lines(text@);
            let ghost prev_rows = pair_rows_view(rows@);
            proof {
                crate::text::lemma_split_lines_len(text@);
                crate::text::lemma_split_lines_pieces(text@);
                assert(piecesv == pieces@.map_values(|v: Vec<char>| v@));
            }
            let mut j: usize = 0;
            while j < np
                invariant
                    j <= np,
                    np == piecesv.len(),
                    np >= 1,
                    np <= text@.len() + 1,
                    text@.len() < POS_LIMIT as int,
                    piecesv == pieces@.map_values(|v: Vec<char>| v@),
                    forall|q: int| 0 <= q < np ==> (#[trigger] piecesv[q]).len() <= text@.len(),
                    sty == spec_override(parts[i as int].1, override_style),
                    i < n,
                    rows@.len() >= 1,
                    prev_rows == msg_rows(parts.take(i as int), override_style),
                    prev_rows.len() >= 1,
                    forall|r: int|
                        0 <= r < prev_rows.len() ==> (#[trigger] prev_rows[r]).len() <= i as int
                            * 0x8000,
                    j == 0 ==> pair_rows_view(rows@) == prev_rows,
                    j >= 1 ==> pair_rows_view(rows@) == lay_pieces(
                        prev_rows,
                        piecesv.take(j as int),
                        sty,
                    ),
                    rows@.len() <= 1 + i as int * 0x8000 + (if j == 0 {
                        0int
                    } else {
                        j - 1
                    }),
                    forall|r: int|
                        0 <= r < rows@.len() ==> (#[trigger] rows@[r])@.len() <= i as int * 0x8000
                            + text@.len(),
                decreases np - j,
            {
                let piece = vstd::std_specs::vec::vec_index(&pieces, j);
                proof {
                    assert(piece@ == piecesv[j as int]);
                }
                let mut pr = pairs_of(piece, sty);
                proof {
                    lemma_styled_pairs(piece@, sty);
                }
                if j == 0 {
                    let ghost rpre = rows@;
                    let last = rows.len() - 1;
                    let mut lastrow = rows.remove(last);
                    lastrow.append(&mut pr);
                    let ghost lastg = lastrow;
                    rows.push(lastrow);
                    proof {
                        assert(rows@ =~= rpre.update(last as int, lastg));
                        assert(lastg@ =~= rpre[last as int]@ + styled_pairs(piecesv[0], sty));
                        assert(piecesv.take(1).len() == 1);
                        assert(piecesv.take(1)[0] == piecesv[0]);
                        assert(pair_rows_view(rows@) =~~= lay_pieces(
                            prev_rows,
                            piecesv.take(1),
                            sty,
                        ));
                    }
                } else {
                    let ghost rpre = rows@;
                    let ghost prg = pr;
                    rows.push(pr);
                    proof {
                        assert(rows@ == rpre.push(prg));
                        assert(piecesv.take(j + 1).drop_last() =~= piecesv.take(j as int));
                        assert(piecesv.take(j + 1).last() == piecesv[j as int]);
                        assert(piecesv.take(j + 1).len() == j + 1 >= 2);
                        assert(pair_rows_view(rows@) =~~= lay_pieces(
                            prev_rows,
                            piecesv.take(j + 1),
                            sty,
                        ));
                    }
                }
                j = j + 1;
            }
            proof {
                assert(piecesv.take(np as int) =~= piecesv);
                assert(parts.take(i + 1).drop_last() =~= parts.take(i as int));
                assert(parts.take(i + 1).last() == parts[i as int]);
                assert(msg_rows(parts.take(i + 1), override_style) == lay_pieces(
                    prev_rows,
                    piecesv,
                    sty,
                ));
                assert(pair_rows_view(rows@) == msg_rows(parts.take(i + 1), override_style));
            }
            i = i + 1;
        }
        proof {
            assert(parts.take(n as int) =~= parts);
            assert(pair_rows_view(rows@) == rows_spec);
            assert(forall|r: int|
                0 <= r < rows_spec.len() ==> #[trigger] rows_spec[r].len() <= 0x400_0000);
            assert(rows_spec.len() <= 0x400_0001);
        }

        // Then write each row: row 0 continues the current content; every
        // later row starts with the margin.
        let r0 = vstd::std_specs::vec::vec_index(&rows, 0);
        proof {
            assert(r0@ == rows_spec[0]);
        }
        buffer.append_pairs(0, r0);
        let nr = rows.len();
        let mut r: usize = 1;
        while r < nr
            invariant
                1 <= r <= nr,
                nr == rows@.len(),
                nr == rows_spec.len(),
                pair_rows_view(rows@) == rows_spec,
                forall|r2: int|
                    0 <= r2 < rows_spec.len() ==> #[trigger] rows_spec[r2].len() <= 0x400_0000,
                pad@.len() == pad_width,
                pad_width == padding + label@.len() + 5,
                pad_width < 2 * POS_LIMIT + 5,
                forall|k: int| 0 <= k < pad@.len() ==> #[trigger] pad@[k] == ' ',
                old0.len() < 2 * POS_LIMIT as int,
                forall|r2: int| #[trigger] row_len(old0, r2) < 2 * POS_LIMIT as int,
                buffer@.len() >= old0.len(),
                r == 1 ==> buffer@.len() == (if rows_spec[0].len() == 0 {
                    old0.len() as int
                } else {
                    grown_len(old0.len() as int, 0)
                }),
                r > 1 ==> buffer@.len() == grown_len(old0.len() as int, r - 1),
                forall|r2: int|
                    #![trigger row_len(buffer@, r2)]
                    row_len(buffer@, r2) == if r2 == 0 {
                        row_len(old0, 0) + rows_spec[0].len()
                    } else if 1 <= r2 < r {
                        row_len(old0, r2) + pad_width + rows_spec[r2].len()
                    } else {
                        row_len(old0, r2)
                    },
                forall|r2: int, c: int|
                    #![trigger cell_at(buffer@, r2, c)]
                    cell_at(buffer@, r2, c) == if r2 == 0 && row_len(old0, 0) <= c < row_len(
                        old0,
                        0,
                    ) + rows_spec[0].len() {
                        (StyledChar {
                            ch: rows_spec[0][c - row_len(old0, 0)].0,
                            style: rows_spec[0][c - row_len(old0, 0)].1,
                        })
                    } else if 1 <= r2 < r && row_len(old0, r2) <= c < row_len(old0, r2)
                        + pad_width {
                        (StyledChar { ch: ' ', style: Style::NoStyle })
                    } else if 1 <= r2 < r && row_len(old0, r2) + pad_width <= c < row_len(
                        old0,
                        r2,
                    ) + pad_width + rows_spec[r2].len() {
                        (StyledChar {
                            ch: rows_spec[r2][c - row_len(old0, r2) - pad_width].0,
                            style: rows_spec[r2][c - row_len(old0, r2) - pad_width].1,
                        })
                    } else {
                        cell_at(old0, r2, c)
                    },
            decreases nr - r,
        {
            let rr = vstd::std_specs::vec::vec_index(&rows, r);
            proof {
                assert(rr@ == rows_spec[r as int]);
            }
            buffer.append_chars(r, &pad, Style::NoStyle);
            buffer.append_pairs(r, rr);
            r = r + 1;
        }
    }
}

/// Whether some entry holds this bracket depth.
fn contains_depth(v: &Vec<(usize, Style)>, d: usize) -> (r: bool)
    ensures
        r == exists|k: int| 0 <= k < v@.len() && (#[trigger] v@[k]).0 == d,
{
    let n = v.len();
    let mut i: usize = 0;
    while i < n
        invariant
            i <= n,
            n == v@.len(),
            forall|k: int| 0 <= k < i ==> (#[trigger] v@[k]).0 != d,
        decreases n - i,
    {
        let e = vstd::std_specs::vec::vec_index(v, i);
        if e.0 == d {
            return true;
        }
        i = i + 1;
    }
    false
}

/// Whether every entry of `a` also stands in `b`.
pub open spec fn entries_subset(a: Seq<(usize, Style)>, b: Seq<(usize, Style)>) -> bool {
    forall|k: int| 0 <= k < a.len() ==> b.contains(#[trigger] a[k])
}

/// Remove the first entry with this bracket depth, if any. Everything kept
/// was already there.
fn remove_depth(v: &mut Vec<(usize, Style)>, d: usize)
    ensures
        entries_subset(final(v)@, old(v)@),
        final(v)@.len() <= old(v)@.len(),
{
    let n = v.len();
    let mut i: usize = 0;
    while i < n
        invariant
            i <= n,
            n == v@.len(),
            v@ == old(v)@,
        decreases n - i,
    {
        let e = vstd::std_specs::vec::vec_index(v, i);
        if e.0 == d {
            v.remove(i);
            proof {
                assert forall|k: int|
                    0 <= k < v@.len() implies old(v)@.contains(#[trigger] v@[k]) by {
                    if k < i as int {
                        assert(v@[k] == old(v)@[k]);
                    } else {
                        assert(v@[k] == old(v)@[k + 1]);
                    }
                }
            }
            return ;
        }
        i = i + 1;
    }
    proof {
        assert forall|k: int|
            0 <= k < v@.len() implies old(v)@.contains(#[trigger] v@[k]) by {
            assert(v@[k] == old(v)@[k]);
        }
    }
}

/// The gutter of the gap-of-two row: the skipped line's 1-based number,
/// right-aligned, when it fits the gutter.
#[verifier::opaque]
pub open spec fn gap_number_in(
    v: Seq<Seq<StyledChar>>,
    row: int,
    max_line_num_len: int,
    skipped_display: int,
) -> bool {
    crate::text::dec_chars(skipped_display as nat).len() <= max_line_num_len ==> forall|j: int|
        0 <= j < crate::text::dec_chars(skipped_display as nat).len() ==> #[trigger] cell_at(
            v,
            row,
            max_line_num_len - crate::text::dec_chars(skipped_display as nat).len() + j,
        ) == (StyledChar {
            ch: crate::text::dec_chars(skipped_display as nat)[j],
            style: Style::LineNumber,
        })
}

/// Every open bracket's depth column carries a `|` continuation bar on the
/// row.
#[verifier::opaque]
pub open spec fn gap_bars_in(
    v: Seq<Seq<StyledChar>>,
    row: int,
    width_offset: int,
    ms: Seq<(usize, Style)>,
) -> bool {
    forall|k: int|
        0 <= k < ms.len() ==> cell_at(v, row, width_offset + (#[trigger] ms[k]).0 - 1).ch == '|'
}

/// Whether every entry's depth slot fits between the gutter and the code.
pub open spec fn multilines_fit(v: Seq<(usize, Style)>, width_offset: int, code_offset: int) -> bool {
    forall|k: int|
        0 <= k < v.len() ==> 1 <= (#[trigger] v[k]).0 && width_offset + v[k].0 + 1 <= code_offset
}

/// Between two annotated lines: a gap of more than two source lines becomes
/// one `...` row; a gap of exactly two shows the single skipped line itself,
/// with its number; open brackets keep their vertical bars through the row.
#[verifier::rlimit(100)]
#[verifier::spinoff_prover]
pub fn render_line_gap(
    buffer: &mut StyledBuffer,
    file: &SourceFile,
    cur_index: usize,
    next_index: usize,
    width_offset: usize,
    code_offset: usize,
    max_line_num_len: usize,
    multilines: &Vec<(usize, Style)>,
)
    requires
        crate::file_within_limits(file@),
        cur_index < next_index,
        (next_index as int) < file@.lines.len(),
        4 <= width_offset <= code_offset,
        width_offset == 3 + max_line_num_len,
        code_offset < LINE_LIMIT,
        max_line_num_len <= 16,
        multilines_fit(multilines@, width_offset as int, code_offset as int),
        old(buffer)@.len() + 4 < usize::MAX,
    ensures
        next_index - cur_index <= 1 ==> final(buffer)@ == old(buffer)@,
        next_index - cur_index >= 2 ==> final(buffer)@.len() == old(buffer)@.len() + 1,
        forall|r: int, c: int|
            r < old(buffer)@.len() ==> #[trigger] cell_at(final(buffer)@, r, c) == cell_at(
                old(buffer)@,
                r,
                c,
            ),
        forall|r: int|
            r < old(buffer)@.len() ==> #[trigger] row_len(final(buffer)@, r) == row_len(
                old(buffer)@,
                r,
            ),
        next_index - cur_index > 2 ==> forall|c: int|
            0 <= c < 3 ==> #[trigger] cell_at(final(buffer)@, old(buffer)@.len() as int, c) == (
            StyledChar { ch: '.', style: Style::LineNumber }),
        next_index - cur_index == 2 ==> forall|j: int|
            0 <= j < file@.lines[cur_index + 1].len() ==> #[trigger] cell_at(
                final(buffer)@,
                old(buffer)@.len() as int,
                code_offset + j,
            ) == (StyledChar {
                ch: file@.lines[cur_index + 1][j],
                style: Style::Quotation,
            }),
        next_index - cur_index == 2 ==> gap_number_in(
            final(buffer)@,
            old(buffer)@.len() as int,
            max_line_num_len as int,
            cur_index + 2,
        ),
        next_index - cur_index >= 2 ==> gap_bars_in(
            final(buffer)@,
            old(buffer)@.len() as int,
            width_offset as int,
            multilines@,
        ),
{
    let delta = next_index - cur_index;
    if delta <= 1 {
        return ;
    }
    let row = buffer.num_lines();
    let ghost lo = row as int;
    if delta > 2 {
        proof {
            reveal_strlit("...");
        }
        buffer.puts(row, 0, "...", Style::LineNumber);
        proof {
            assert(cell_at(buffer@, lo, 0) == (StyledChar { ch: '.', style: Style::LineNumber }));
            assert(cell_at(buffer@, lo, 1) == (StyledChar { ch: '.', style: Style::LineNumber }));
            assert(cell_at(buffer@, lo, 2) == (StyledChar { ch: '.', style: Style::LineNumber }));
        }
    } else {
        // Show the one skipped line itself instead of an elision marker,
        // its number right-aligned in the gutter.
        let num = crate::text::usize_to_chars(cur_index + 2);
        proof {
            crate::text::lemma_dec_chars_len_line_limit((cur_index + 2) as nat);
        }
        let num_col = if num.len() <= max_line_num_len {
            max_line_num_len - num.len()
        } else {
            0
        };
        buffer.puts_chars(row, num_col, &num, Style::LineNumber);
        proof {
            assert(num@ == crate::text::dec_chars((cur_index + 2) as nat));
        }
        draw_col_separator(buffer, row, 1 + max_line_num_len);
        let text: &Vec<char> = vstd::std_specs::vec::vec_index(&file.lines, cur_index + 1);
        proof {
            assert(text@ == file@.lines[cur_index + 1]);
            assert(text@.len() < POS_LIMIT as int);
        }
        buffer.puts_chars(row, code_offset, text, Style::Quotation);
    }
    // Keep open brackets' vertical bars running through the row.
    let ghost snapg = buffer@;
    let nm = multilines.len();
    let mut k: usize = 0;
    while k < nm
        invariant
            k <= nm,
            nm == multilines@.len(),
            multilines_fit(multilines@, width_offset as int, code_offset as int),
            4 <= width_offset <= code_offset,
            code_offset < LINE_LIMIT,
            lo == old(buffer)@.len(),
            row as int == lo,
            lo + 4 < usize::MAX,
            buffer@.len() == lo + 1,
            snapg.len() == lo + 1,
            forall|r: int, c: int|
                r < lo ==> #[trigger] cell_at(buffer@, r, c) == cell_at(old(buffer)@, r, c),
            forall|r: int| r < lo ==> #[trigger] row_len(buffer@, r) == row_len(old(buffer)@, r),
            forall|c: int|
                c < width_offset || c >= code_offset ==> #[trigger] cell_at(buffer@, lo, c)
                    == cell_at(snapg, lo, c),
            forall|k3: int|
                0 <= k3 < k ==> cell_at(
                    buffer@,
                    lo,
                    width_offset + (#[trigger] multilines@[k3]).0 - 1,
                ).ch == '|',
        decreases nm - k,
    {
        let e = vstd::std_specs::vec::vec_index(multilines, k);
        proof {
            assert(1 <= multilines@[k as int].0 && width_offset + multilines@[k as int].0 + 1
                <= code_offset);
        }
        draw_multiline_line(buffer, row, width_offset, e.0, e.1);
        k = k + 1;
    }
    proof {
        assert(gap_bars_in(buffer@, lo, width_offset as int, multilines@)) by {
            reveal(gap_bars_in);
        }
        if delta > 2 {
            assert(forall|c: int|
                0 <= c < 3 ==> #[trigger] cell_at(buffer@, lo, c) == cell_at(snapg, lo, c));
        } else {
            assert(forall|j: int|
                0 <= j < file@.lines[cur_index + 1].len() ==> #[trigger] cell_at(
                    buffer@,
                    lo,
                    code_offset + j,
                ) == cell_at(snapg, lo, code_offset + j));
            assert(gap_number_in(buffer@, lo, max_line_num_len as int, cur_index + 2)) by {
                reveal(gap_number_in);
                assert(forall|j: int|
                    #![trigger crate::text::dec_chars((cur_index + 2) as nat)[j]]
                    0 <= j < crate::text::dec_chars((cur_index + 2) as nat).len()
                        ==> max_line_num_len - crate::text::dec_chars(
                        (cur_index + 2) as nat,
                    ).len() + j < width_offset);
            }
        }
    }
}

/// Draw the continuation bars of all open brackets across a row range.
fn draw_multilines_range(
    buffer: &mut StyledBuffer,
    multilines: &Vec<(usize, Style)>,
    row_from: usize,
    row_to: usize,
    width_offset: usize,
    Ghost(code_offset): Ghost<int>,
)
    requires
        multilines_fit(multilines@, width_offset as int, code_offset),
        code_offset < LINE_LIMIT,
        row_to < usize::MAX,
    ensures
        final(buffer)@.len() >= old(buffer)@.len(),
        (row_from as int) < (row_to as int) ==> final(buffer)@.len() <= grown_len(
            old(buffer)@.len() as int,
            row_to - 1,
        ),
        (row_from as int) >= (row_to as int) ==> final(buffer)@ == old(buffer)@,
        forall|r: int, c: int|
            r < row_from ==> #[trigger] cell_at(final(buffer)@, r, c) == cell_at(
                old(buffer)@,
                r,
                c,
            ),
        forall|r: int|
            r < row_from ==> #[trigger] row_len(final(buffer)@, r) == row_len(old(buffer)@, r),
    decreases row_to,
{
    if row_from >= row_to {
        return ;
    }
    let nm = multilines.len();
    let mut k: usize = 0;
    while k < nm
        invariant
            k <= nm,
            nm == multilines@.len(),
            multilines_fit(multilines@, width_offset as int, code_offset),
            code_offset < LINE_LIMIT,
            row_from < row_to < usize::MAX,
            buffer@.len() >= old(buffer)@.len(),
            buffer@.len() <= grown_len(old(buffer)@.len() as int, row_to - 1),
            forall|r: int, c: int|
                r < row_from ==> #[trigger] cell_at(buffer@, r, c) == cell_at(old(buffer)@, r, c),
            forall|r: int|
                r < row_from ==> #[trigger] row_len(buffer@, r) == row_len(old(buffer)@, r),
        decreases nm - k,
    {
        let e = vstd::std_specs::vec::vec_index(multilines, k);
        proof {
            assert(1 <= multilines@[k as int].0 && width_offset + multilines@[k as int].0 + 1
                <= code_offset);
        }
        let mut row = row_from;
        while row < row_to
            invariant
                row_from <= row <= row_to,
                row_from < row_to < usize::MAX,
                1 <= e.0,
                width_offset + e.0 + 1 <= code_offset,
                code_offset < LINE_LIMIT,
                buffer@.len() >= old(buffer)@.len(),
                buffer@.len() <= grown_len(old(buffer)@.len() as int, row_to - 1),
                forall|r: int, c: int|
                    r < row_from ==> #[trigger] cell_at(buffer@, r, c) == cell_at(
                        old(buffer)@,
                        r,
                        c,
                    ),
                forall|r: int|
                    r < row_from ==> #[trigger] row_len(buffer@, r) == row_len(old(buffer)@, r),
            decreases row_to - row,
        {
            draw_multiline_line(buffer, row, width_offset, e.0, e.1);
            row = row + 1;
        }
        k = k + 1;
    }
}

/// The view of an optional code string.
pub open spec fn code_view(code: Option<String>) -> Option<Seq<char>> {
    match code {
        Some(c) => Some(c@),
        None => None,
    }
}

/// All spans of within-limit labels end below the line-index limit.
proof fn lemma_max_span_end_bound(spans: Seq<crate::SpanLabelView>)
    requires
        crate::spans_within_limits(spans),
    ensures
        0 <= max_span_end(spans) < LINE_LIMIT as int,
    decreases spans.len(),
{
    if spans.len() > 0 {
        assert(crate::spans_within_limits(spans.drop_last())) by {
            assert(forall|i: int|
                0 <= i < spans.drop_last().len() ==> #[trigger] spans.drop_last()[i] == spans[i]);
        }
        lemma_max_span_end_bound(spans.drop_last());
        assert(crate::span_within_limits(spans[spans.len() - 1].span));
    }
}

/// The whole batch's largest line stays below the line-index limit.
proof fn lemma_max_line_bound(ds: Seq<crate::DiagnosticView>)
    requires
        forall|i: int| 0 <= i < ds.len() ==> crate::diagnostic_within_limits(#[trigger] ds[i]),
    ensures
        0 <= spec_max_line(ds) < LINE_LIMIT as int,
    decreases ds.len(),
{
    if ds.len() > 0 {
        assert(forall|i: int|
            0 <= i < ds.drop_last().len() ==> #[trigger] ds.drop_last()[i] == ds[i]);
        lemma_max_line_bound(ds.drop_last());
        assert(crate::diagnostic_within_limits(ds[ds.len() - 1]));
        lemma_max_span_end_bound(ds.last().spans);
    }
}

/// Entries each holding at least one line make the total at least the count.
proof fn lemma_total_lines_ge_len(r: Seq<crate::preprocess::FileAnnView>)
    requires
        forall|k: int| 0 <= k < r.len() ==> (#[trigger] r[k]).lines.len() >= 1,
    ensures
        total_lines(r) >= r.len(),
    decreases r.len(),
{
    if r.len() > 0 {
        assert(forall|k: int|
            0 <= k < r.drop_last().len() ==> #[trigger] r.drop_last()[k] == r[k]);
        lemma_total_lines_ge_len(r.drop_last());
    }
}


/// Appending styled text to row 0 extends the header prefix built so far,
/// provided the new characters and style agree with the header's.
proof fn lemma_row0_extend(
    pre: Seq<Seq<StyledChar>>,
    post: Seq<Seq<StyledChar>>,
    level: Level,
    code: Option<Seq<char>>,
    msgtext: Seq<char>,
    upto: int,
    text: Seq<char>,
    style: Style,
)
    requires
        row0_header_prefix(pre, level, code, msgtext, upto) || (pre.len() == 0 && upto == 0
            && 0 <= upto + text.len() <= header_text(level, code, msgtext).len()),
        upto + text.len() <= header_text(level, code, msgtext).len(),
        forall|c: int|
            0 <= c < text.len() ==> header_cell_at(level, code, msgtext, upto + c) == (StyledChar {
                ch: text[c],
                style,
            }),
        text.len() == 0 ==> post == pre,
        text.len() > 0 ==> post.len() == grown_len(pre.len() as int, 0),
        forall|r: int|
            #![trigger row_len(post, r)]
            row_len(post, r) == if r == 0 && text.len() > 0 {
                row_len(pre, 0) + text.len()
            } else {
                row_len(pre, r)
            },
        forall|r: int, c: int|
            #![trigger cell_at(post, r, c)]
            cell_at(post, r, c) == if r == 0 && row_len(pre, 0) <= c < row_len(pre, 0)
                + text.len() {
                (StyledChar { ch: text[c - row_len(pre, 0)], style })
            } else {
                cell_at(pre, r, c)
            },
        upto == row_len(pre, 0),
        text.len() > 0 || pre.len() >= 1,
    ensures
        row0_header_prefix(post, level, code, msgtext, upto + text.len()),
{
    assert forall|c: int|
        0 <= c < upto + text.len() implies #[trigger] cell_at(post, 0, c) == header_cell_at(
        level,
        code,
        msgtext,
        c,
    ) by {
        if c < upto {
            assert(cell_at(post, 0, c) == cell_at(pre, 0, c));
        } else {
            assert(cell_at(post, 0, c) == (StyledChar { ch: text[c - upto], style }));
            assert(header_cell_at(level, code, msgtext, c) == (StyledChar {
                ch: text[c - upto],
                style,
            }));
        }
    }
}

impl Renderer {
    /// Render one diagnostic into text runs: the header line, then per
    /// annotated file a location line and its annotated source lines, with
    /// gaps between annotated lines elided. A diagnostic without a
    /// resolvable primary span renders as its header alone.
    #[verifier::rlimit(100)]
    #[verifier::spinoff_prover]
    pub fn emit_message_default(
        &self,
        spans: &Vec<SpanLabel>,
        msg: &Vec<(String, Style)>,
        code: &Option<String>,
        level: Level,
        max_line_num_len: usize,
        is_secondary: bool,
    ) -> (r: Vec<Vec<StyledString>>)
        requires
            self.wf(),
            crate::spans_within_limits(sl_views(spans@)),
            msg_within_limits(msg_parts_view(msg@)),
            label_within_limits(code_view(*code)),
            1 <= max_line_num_len <= 16,
        ensures
            rendered_view(r@).len() >= 1,
            !is_secondary ==> exists|row: Seq<StyledChar>|
                #[trigger] is_header_row(
                    row,
                    level,
                    code_view(*code),
                    msgs_concat(msg_parts_view(msg@)),
                ) && rendered_view(r@)[0] == runs_of(row),
            !is_secondary && !has_primary_span(sl_views(spans@), sf_views(self.files@))
                ==> exists|row: Seq<StyledChar>|
                #[trigger] is_header_row(
                    row,
                    level,
                    code_view(*code),
                    msgs_concat(msg_parts_view(msg@)),
                ) && rendered_view(r@) == seq![runs_of(row)],
    {
        let ghost codev = code_view(*code);
        let ghost msgtext = msgs_concat(msg_parts_view(msg@));
        let ghost hlen = header_text(level, codev, msgtext).len() as int;
        let ghost fv = sf_views(self.files@);
        let mut buffer = StyledBuffer::new();
        proof {
            reveal_strlit("error: internal compiler error");
            reveal_strlit("error");
            reveal_strlit("warning");
            reveal_strlit("note");
            reveal_strlit("help");
            reveal_strlit(": ");
            reveal_strlit("[");
            reveal_strlit("]");
            reveal_strlit(" ");
        }

        if is_secondary && spans.len() == 0 {
            // A sub-note: `= note: <message>`, wrapped under the label.
            let mut p: usize = 0;
            while p < max_line_num_len
                invariant
                    p <= max_line_num_len,
                    max_line_num_len <= 16,
                    buffer@.len() <= 1,
                    forall|r: int| #[trigger] row_len(buffer@, r) <= p as int,
                decreases max_line_num_len - p,
            {
                proof {
                    reveal_strlit(" ");
                }
                buffer.prepend(0, " ", Style::NoStyle);
                p = p + 1;
            }
            draw_note_separator(&mut buffer, 0, max_line_num_len + 1);
            buffer.append(0, level.to_str(), Style::HeaderMsg);
            buffer.append(0, ": ", Style::NoStyle);
            proof {
                assert(forall|r: int| #[trigger] row_len(buffer@, r) < 2 * POS_LIMIT as int);
            }
            self.msg_to_buffer(&mut buffer, msg, max_line_num_len, "note", None);
            let r = buffer.render();
            proof {
                assert(rendered_view(r@) == spec_render(buffer@));
                assert(rendered_view(r@).len() >= 1);
            }
            return r;
        }

        // The header: `<level>[<code>]: <message>`.
        let ghost lvl = spec_level_str(level);
        proof {
            assert(lvl.len() > 0);
            assert forall|c: int|
                0 <= c < lvl.len() implies header_cell_at(level, codev, msgtext, 0 + c) == (
            StyledChar { ch: lvl[c], style: Style::Level(level) }) by {
                assert(header_text(level, codev, msgtext)[c] == lvl[c]);
            }
        }
        let ghost pre0 = buffer@;
        buffer.append(0, level.to_str(), Style::Level(level));
        proof {
            lemma_row0_extend(pre0, buffer@, level, codev, msgtext, 0, lvl, Style::Level(level));
            assert(buffer@.len() == 1);
        }
        match code {
            Some(c) => {
                proof {
                    assert(header_cell_at(level, codev, msgtext, lvl.len() as int) == (StyledChar {
                        ch: '[',
                        style: Style::Level(level),
                    })) by {
                        assert(header_text(level, codev, msgtext)[lvl.len() as int] == '[');
                    }
                    assert(forall|cc: int|
                        0 <= cc < "["@.len() ==> header_cell_at(
                            level,
                            codev,
                            msgtext,
                            lvl.len() + cc,
                        ) == (StyledChar { ch: "["@[cc], style: Style::Level(level) }));
                }
                let ghost pa = buffer@;
                buffer.append(0, "[", Style::Level(level));
                proof {
                    lemma_row0_extend(
                        pa,
                        buffer@,
                        level,
                        codev,
                        msgtext,
                        lvl.len() as int,
                        "["@,
                        Style::Level(level),
                    );
                }
                let ghost pb = buffer@;
                proof {
                    assert forall|cc: int|
                        0 <= cc < c@.len() implies header_cell_at(
                        level,
                        codev,
                        msgtext,
                        lvl.len() + 1 + cc,
                    ) == (StyledChar { ch: c@[cc], style: Style::Level(level) }) by {
                        assert(header_text(level, codev, msgtext)[lvl.len() + 1 + cc] == c@[cc]);
                    }
                }
                buffer.append(0, c.as_str(), Style::Level(level));
                proof {
                    lemma_row0_extend(
                        pb,
                        buffer@,
                        level,
                        codev,
                        msgtext,
                        lvl.len() as int + 1,
                        c@,
                        Style::Level(level),
                    );
                }
                let ghost pc = buffer@;
                proof {
                    assert forall|cc: int|
                        0 <= cc < "]"@.len() implies header_cell_at(
                        level,
                        codev,
                        msgtext,
                        lvl.len() + 1 + c@.len() + cc,
                    ) == (StyledChar { ch: "]"@[cc], style: Style::Level(level) }) by {
                        assert(header_text(level, codev, msgtext)[lvl.len() + 1 + c@.len() + cc]
                            == ']');
                    }
                }
                buffer.append(0, "]", Style::Level(level));
                proof {
                    lemma_row0_extend(
                        pc,
                        buffer@,
                        level,
                        codev,
                        msgtext,
                        lvl.len() as int + 1 + c@.len() as int,
                        "]"@,
                        Style::Level(level),
                    );
                    assert(row0_header_prefix(
                        buffer@,
                        level,
                        codev,
                        msgtext,
                        header_level_len(level, codev),
                    ));
                }
            },
            None => {
                proof {
                    assert(header_level_len(level, codev) == lvl.len());
                }
            },
        }
        let ghost hll = header_level_len(level, codev);
        let ghost pd = buffer@;
        proof {
            assert forall|cc: int|
                0 <= cc < ": "@.len() implies header_cell_at(level, codev, msgtext, hll + cc) == (
            StyledChar { ch: ": "@[cc], style: Style::HeaderMsg }) by {
                assert(header_text(level, codev, msgtext)[hll + cc] == ": "@[cc]);
            }
        }
        buffer.append(0, ": ", Style::HeaderMsg);
        proof {
            lemma_row0_extend(pd, buffer@, level, codev, msgtext, hll, ": "@, Style::HeaderMsg);
            assert(buffer@.len() == 1);
        }
        let ghost parts = msg_parts_view(msg@);
        proof {
            assert(parts.take(0) =~= Seq::<(Seq<char>, Style)>::empty());
            assert(msgs_concat(parts.take(0)) == Seq::<char>::empty());
        }
        let nparts = msg.len();
        let mut mi: usize = 0;
        while mi < nparts
            invariant
                mi <= nparts,
                nparts == parts.len(),
                parts == msg_parts_view(msg@),
                msg_within_limits(parts),
                buffer@.len() == 1,
                hll == header_level_len(level, codev),
                codev == code_view(*code),
                msgtext == msgs_concat(parts),
                hlen == header_text(level, codev, msgtext).len() as int,
                hlen == hll + 2 + msgtext.len(),
                hll + 2 < 0x10000,
                msgs_concat(parts.take(mi as int)).len() <= mi as int * 0x8000,
                row0_header_prefix(
                    buffer@,
                    level,
                    codev,
                    msgtext,
                    hll + 2 + msgs_concat(parts.take(mi as int)).len(),
                ),
            decreases nparts - mi,
        {
            let part = vstd::std_specs::vec::vec_index(msg, mi);
            proof {
                assert(parts[mi as int] == (part.0@, part.1));
                assert(parts[mi as int].0.len() < POS_LIMIT as int);
                lemma_msgs_concat_len(parts, mi as int);
            }
            let ghost done = msgs_concat(parts.take(mi as int));
            let ghost pe = buffer@;
            proof {
                assert(parts.take(mi + 1).drop_last() =~= parts.take(mi as int));
                assert(parts.take(mi + 1).last() == parts[mi as int]);
                assert(msgs_concat(parts.take(mi + 1)) =~= done + part.0@);
                lemma_msgs_prefix(parts, mi + 1);
                assert(done.len() + part.0@.len() == msgs_concat(parts.take(mi + 1)).len());
                assert(done.len() + part.0@.len() <= msgtext.len());
                assert((spec_level_str(level) + (match codev {
                    Some(cd) => seq!['['] + cd + seq![']'],
                    None => Seq::<char>::empty(),
                })).len() == hll);
                assert forall|cc: int|
                    0 <= cc < part.0@.len() implies header_cell_at(
                    level,
                    codev,
                    msgtext,
                    hll + 2 + done.len() + cc,
                ) == (StyledChar { ch: part.0@[cc], style: Style::HeaderMsg }) by {
                    assert(msgs_concat(parts.take(mi + 1))[done.len() + cc] == part.0@[cc]);
                    assert(msgtext[done.len() + cc] == part.0@[cc]);
                    reveal_strlit(": ");
                    let hpre = spec_level_str(level) + (match codev {
                        Some(cd) => seq!['['] + cd + seq![']'],
                        None => Seq::<char>::empty(),
                    });
                    assert(hpre.len() == hll);
                    assert((hpre + ": "@).len() == hll + 2);
                    assert(header_text(level, codev, msgtext) == (hpre + ": "@) + msgtext);
                    assert(((hpre + ": "@) + msgtext)[hll + 2 + done.len() + cc] == msgtext[done.len() + cc]);
                }
            }
            buffer.append(0, part.0.as_str(), Style::HeaderMsg);
            proof {
                assert(hlen == header_text(level, codev, msgtext).len());
                assert(hll + 2 + done.len() + part.0@.len() <= hlen);
                lemma_row0_extend(
                    pe,
                    buffer@,
                    level,
                    codev,
                    msgtext,
                    hll + 2 + done.len(),
                    part.0@,
                    Style::HeaderMsg,
                );
            }
            mi = mi + 1;
        }
        proof {
            assert(parts.take(nparts as int) =~= parts);
            assert(row0_header_prefix(buffer@, level, codev, msgtext, hlen));
            assert(buffer@.len() == 1);
        }

        // Group the spans by file and line.
        let mut annotated_files = preprocess_annotations(&self.files, spans);
        let ghost md = choose|md: int|
            0 <= md < SPAN_LIMIT && #[trigger] files_wf(fav_view(annotated_files@), fv, md) && (
            forall|k: int|
                0 <= k < annotated_files@.len() ==> (#[trigger] fav_view(
                    annotated_files@,
                )[k]).multiline_depth == md);

        // The primary label decides the location line; without a resolvable
        // one the header stands alone.
        let nspans = spans.len();
        let mut primary_opt: Option<Span> = None;
        let mut si: usize = 0;
        while si < nspans && primary_opt.is_none()
            invariant
                si <= nspans,
                nspans == spans@.len(),
                fv == sf_views(self.files@),
                primary_opt is None ==> forall|i: int|
                    0 <= i < si ==> !((#[trigger] sl_views(spans@)[i]).style == SpanStyle::Primary
                        && span_resolvable(sl_views(spans@)[i].span, fv)),
                primary_opt is Some ==> has_primary_span(sl_views(spans@), fv)
                    && span_resolvable(primary_opt->0, fv) && crate::span_within_limits(
                    primary_opt->0,
                ),
                crate::spans_within_limits(sl_views(spans@)),
            decreases nspans - si,
        {
            let sl = vstd::std_specs::vec::vec_index(spans, si);
            proof {
                assert(sl@ == sl_views(spans@)[si as int]);
            }
            let is_primary = match sl.style {
                SpanStyle::Primary => true,
                SpanStyle::Secondary => false,
            };
            if is_primary && span_is_resolvable(&self.files, &sl.span) {
                proof {
                    assert(crate::span_within_limits(sl_views(spans@)[si as int].span));
                }
                primary_opt = Some(sl.span);
            }
            si = si + 1;
        }
        let primary = match primary_opt {
            None => {
                proof {
                    assert(!has_primary_span(sl_views(spans@), fv));
                }
                let r = buffer.render();
                proof {
                    let ghost row = buffer@[0];
                    assert(is_header_row(row, level, codev, msgtext)) by {
                        assert(forall|c: int|
                            0 <= c < row.len() ==> #[trigger] row[c] == cell_at(buffer@, 0, c));
                    }
                    assert(buffer@ =~= seq![row]);
                    assert(rendered_view(r@) =~= seq![runs_of(row)]);
                }
                return r;
            },
            Some(p) => p,
        };

        // Put the file of the primary label first.
        let nfiles = annotated_files.len();
        let mut fpos: usize = 0;
        while fpos < nfiles && !entry_has_file(&annotated_files, fpos, primary.file)
            invariant
                fpos <= nfiles,
                nfiles == annotated_files@.len(),
            decreases nfiles - fpos,
        {
            fpos = fpos + 1;
        }
        if fpos < nfiles && fpos > 0 {
            crate::preprocess::move_entry_front(&mut annotated_files, fpos, Ghost(fv), Ghost(md));
            proof {
                assert forall|k: int|
                    0 <= k < annotated_files@.len() implies (#[trigger] fav_view(
                    annotated_files@,
                )[k]).multiline_depth == md by {}
            }
        }
        let ghost fav = fav_view(annotated_files@);
        proof {
            crate::preprocess::lemma_total_lines_nonneg(fav);
            lemma_total_lines_ge_len(fav);
        }

        // Lay out each file's annotated lines.
        let nf = annotated_files.len();
        let mut k: usize = 0;
        while k < nf
            invariant
                k <= nf,
                nf == annotated_files@.len(),
                fav == fav_view(annotated_files@),
                fv == sf_views(self.files@),
                self.wf(),
                files_wf(fav, fv, md),
                0 <= md < SPAN_LIMIT,
                crate::preprocess::all_counts_le(fav, LINE_ANNS_LIMIT as int),
                total_lines(fav) <= 7 * SPAN_LIMIT as int,
                fav.len() <= total_lines(fav),
                1 <= max_line_num_len <= 16,
                span_resolvable(primary, fv),
                crate::span_within_limits(primary),
                forall|k2: int|
                    0 <= k2 < fav.len() ==> (#[trigger] fav[k2]).multiline_depth == md,
                row0_header_prefix(buffer@, level, codev, msgtext, hlen),
                1 <= buffer@.len(),
                buffer@.len() <= 1 + 3 * (k as int) + 0x10010 * total_lines(fav.take(k as int)),
            decreases nf - k,
        {
            proof {
                crate::preprocess::lemma_total_lines_prefix(fav, k as int);
                crate::preprocess::lemma_total_lines_take_succ(fav, k as int);
                lemma_total_lines_nonneg(fav.take(k as int));
                assert(buffer@.len() < 0x4000_0000);
                assert(file_entry_wf(fav[k as int], fv, md));
            }
            let entry = vstd::std_specs::vec::vec_index(&annotated_files, k);
            proof {
                assert(entry@ == fav[k as int]);
                reveal_strlit("--> ");
                reveal_strlit("::: ");
                reveal_strlit(":");
                reveal_strlit(" ");
            }
            let is_primary_file = entry.file == primary.file;
            let loc_row = buffer.num_lines();
            if is_primary_file {
                // `--> file:line:col` for the primary file.
                buffer.prepend(loc_row, "--> ", Style::LineNumber);
                let f = vstd::std_specs::vec::vec_index(&self.files, primary.file);
                proof {
                    assert(f@ == fv[primary.file as int]);
                    assert(f@.name.len() < POS_LIMIT as int);
                    crate::text::lemma_dec_chars_len_line_limit((primary.begin.line + 1) as nat);
                    crate::text::lemma_dec_chars_len_line_limit((primary.begin.column + 1) as nat);
                }
                buffer.append_chars(loc_row, &f.name, Style::LineAndColumn);
                buffer.append(loc_row, ":", Style::LineAndColumn);
                let lnum = crate::text::usize_to_chars(primary.begin.line + 1);
                buffer.append_chars(loc_row, &lnum, Style::LineAndColumn);
                buffer.append(loc_row, ":", Style::LineAndColumn);
                let cnum = crate::text::usize_to_chars(primary.begin.column + 1);
                buffer.append_chars(loc_row, &cnum, Style::LineAndColumn);
                proof {
                    assert(row_len(buffer@, loc_row as int) < 3 * POS_LIMIT as int);
                }
                let mut p2: usize = 0;
                while p2 < max_line_num_len
                    invariant
                        p2 <= max_line_num_len,
                        max_line_num_len <= 16,
                        loc_row >= 1,
                        loc_row < 0x4000_0000,
                        buffer@.len() >= loc_row + 1,
                        buffer@.len() <= loc_row as int + 1,
                        row_len(buffer@, loc_row as int) <= 3 * POS_LIMIT as int + p2 as int,
                        row0_header_prefix(buffer@, level, codev, msgtext, hlen),
                    decreases max_line_num_len - p2,
                {
                    proof {
                        reveal_strlit(" ");
                    }
                    buffer.prepend(loc_row, " ", Style::NoStyle);
                    p2 = p2 + 1;
                }
            } else {
                // A spacing row, then `::: file` for every other file.
                draw_col_separator(&mut buffer, loc_row, max_line_num_len + 1);
                buffer.prepend(loc_row + 1, "::: ", Style::LineNumber);
                let f = vstd::std_specs::vec::vec_index(&self.files, entry.file);
                proof {
                    assert((entry.file as int) < fv.len());
                    assert(f@ == fv[entry.file as int]);
                    assert(f@.name.len() < POS_LIMIT as int);
                }
                buffer.append_chars(loc_row + 1, &f.name, Style::LineAndColumn);
                proof {
                    assert(row_len(buffer@, loc_row as int + 1) < 3 * POS_LIMIT as int);
                }
                let mut p2: usize = 0;
                while p2 < max_line_num_len
                    invariant
                        p2 <= max_line_num_len,
                        max_line_num_len <= 16,
                        loc_row >= 1,
                        loc_row < 0x4000_0000,
                        buffer@.len() >= loc_row + 2,
                        buffer@.len() <= loc_row as int + 2,
                        row_len(buffer@, loc_row as int + 1) <= 3 * POS_LIMIT as int + p2 as int,
                        row0_header_prefix(buffer@, level, codev, msgtext, hlen),
                    decreases max_line_num_len - p2,
                {
                    proof {
                        reveal_strlit(" ");
                    }
                    buffer.prepend(loc_row + 1, " ", Style::NoStyle);
                    p2 = p2 + 1;
                }
            }

            // The spacer between the location line and the source.
            let spacer_row = buffer.num_lines();
            draw_col_separator_no_space(&mut buffer, spacer_row, max_line_num_len + 1);

            proof {
                assert(entry@.multiline_depth == md);
            }
            let width_offset = 3 + max_line_num_len;
            let code_offset = if entry.multiline_depth == 0 {
                width_offset
            } else {
                width_offset + entry.multiline_depth + 1
            };

            // Render each annotated line, carrying open brackets forward.
            let mut multilines: Vec<(usize, Style)> = Vec::new();
            let nl = entry.lines.len();
            let mut li: usize = 0;
            while li < nl
                invariant
                    li <= nl,
                    nl == entry@.lines.len(),
                    entry@ == fav[k as int],
                    k < nf,
                    nf == annotated_files@.len(),
                    fav == fav_view(annotated_files@),
                    fv == sf_views(self.files@),
                    self.wf(),
                    files_wf(fav, fv, md),
                    0 <= md < SPAN_LIMIT,
                    crate::preprocess::all_counts_le(fav, LINE_ANNS_LIMIT as int),
                    total_lines(fav) <= 7 * SPAN_LIMIT as int,
                    fav.len() <= total_lines(fav),
                    1 <= max_line_num_len <= 16,
                    width_offset == 3 + max_line_num_len,
                    code_offset as int == (if md == 0 {
                        width_offset as int
                    } else {
                        width_offset + md + 1
                    }),
                    entry@.multiline_depth == md,
                    row0_header_prefix(buffer@, level, codev, msgtext, hlen),
                    1 <= buffer@.len(),
                    buffer@.len() <= 1 + 3 * (k + 1) + 0x10010 * (total_lines(fav.take(k as int))
                        + li as int),
                    multilines_fit(multilines@, width_offset as int, code_offset as int),
                decreases nl - li,
            {
                proof {
                    assert(file_entry_wf(fav[k as int], fv, md));
                    assert(line_wf(
                        entry@.lines[li as int],
                        fv[entry@.file].lines.len() as int,
                        md,
                    ));
                    crate::preprocess::lemma_total_lines_prefix(fav, k as int);
                    lemma_total_lines_nonneg(fav.take(k as int));
                    crate::preprocess::lemma_total_lines_take_succ(fav, k as int);
                    crate::preprocess::lemma_total_lines_prefix(fav, k + 1);
                    assert(total_lines(fav.take(k as int)) + li <= total_lines(fav));
                    assert(buffer@.len() < 0x4000_0000);
                }
                let line = vstd::std_specs::vec::vec_index(&entry.lines, li);
                let f = vstd::std_specs::vec::vec_index(&self.files, entry.file);
                proof {
                    assert(line@ == entry@.lines[li as int]);
                    assert(f@ == fv[entry.file as int]);
                    assert(crate::file_within_limits(f@));
                    assert forall|q: int|
                        0 <= q < line@.annotations.len() implies ann_cols_wf(
                        #[trigger] line@.annotations[q],
                    ) && ann_depth_fits(
                        line@.annotations[q],
                        width_offset as int,
                        code_offset as int,
                    ) by {
                        assert(ann_wf(line@.annotations[q], md));
                    }
                }
                let prev_lines = buffer.num_lines();
                let depths = render_source_line(
                    &mut buffer,
                    f,
                    line,
                    width_offset,
                    code_offset,
                );
                proof {
                    crate::preprocess::lemma_total_lines_take_succ(fav, k as int);
                    crate::preprocess::lemma_total_lines_prefix(fav, k + 1);
                    lemma_total_lines_nonneg(fav.take(k as int));
                    assert(buffer@.len() < 0x4000_1000);
                    assert(forall|kk: int|
                        0 <= kk < line@.annotations.len() ==> ann_wf(
                            #[trigger] line@.annotations[kk],
                            md,
                        ));
                    assert forall|q: int|
                        0 <= q < depths@.len() implies 1 <= (#[trigger] depths@[q]).0 as int
                        <= md by {
                        lemma_depths_of_bounds(line@.annotations, md);
                        assert(crate::layout::depth_pairs_view(depths@)[q] == (
                        depths@[q].0 as int,
                        depths@[q].1,
                        ));
                        if crate::layout::special_case(
                            line@.annotations,
                            f@.lines[line@.line_index as int],
                        ) {
                            assert(ann_wf(line@.annotations[0], md));
                            assert(crate::layout::depth_pairs_view(depths@) == seq![
                                (
                                    crate::layout::spec_start_depth(line@.annotations[0]),
                                    crate::layout::underline_style(line@.annotations[0]),
                                ),
                            ]);
                            assert(q == 0);
                            assert(crate::layout::depth_pairs_view(depths@)[0]
                                == (
                            crate::layout::spec_start_depth(line@.annotations[0]),
                            crate::layout::underline_style(line@.annotations[0]),
                            ));
                            match line@.annotations[0].kind {
                                AnnotationType::MultilineStart(d) => {
                                    assert(1 <= d as int <= md);
                                    assert(crate::layout::spec_start_depth(line@.annotations[0])
                                        == d as int);
                                },
                                _ => {
                                    assert(false);
                                },
                            }
                        } else if crate::layout::has_marker(line@.annotations) {
                            assert(crate::layout::depth_pairs_view(depths@) == depths_of(
                                line@.annotations,
                            ));
                            assert(depths_of(line@.annotations)[q]
                                == crate::layout::depth_pairs_view(depths@)[q]);
                        } else {
                            assert(crate::layout::depth_pairs_view(depths@).len() == 0);
                        }
                    }
                }

                // Close brackets that end here; collect ones that open here.
                let nd = depths.len();
                let mut to_add: Vec<(usize, Style)> = Vec::new();
                let mut di: usize = 0;
                while di < nd
                    invariant
                        di <= nd,
                        nd == depths@.len(),
                        forall|q: int|
                            0 <= q < nd ==> 1 <= (#[trigger] depths@[q]).0 as int <= md,
                        code_offset as int == (if md == 0 {
                            width_offset as int
                        } else {
                            width_offset + md + 1
                        }),
                        multilines_fit(multilines@, width_offset as int, code_offset as int),
                        multilines_fit(to_add@, width_offset as int, code_offset as int),
                    decreases nd - di,
                {
                    let e = *vstd::std_specs::vec::vec_index(&depths, di);
                    let ghost mpre = multilines@;
                    if contains_depth(&multilines, e.0) {
                        remove_depth(&mut multilines, e.0);
                        proof {
                            assert forall|q: int|
                                0 <= q < multilines@.len() implies 1 <= (
                            #[trigger] multilines@[q]).0 && width_offset + multilines@[q].0 + 1
                                <= code_offset by {
                                assert(mpre.contains(multilines@[q]));
                                let w = choose|w: int|
                                    0 <= w < mpre.len() && mpre[w] == multilines@[q];
                                assert(1 <= mpre[w].0 && width_offset + mpre[w].0 + 1
                                    <= code_offset);
                            }
                        }
                    } else {
                        to_add.push(e);
                    }
                    di = di + 1;
                }

                // Continuation bars of brackets still open from earlier lines.
                let now_lines = buffer.num_lines();
                draw_multilines_range(
                    &mut buffer,
                    &multilines,
                    prev_lines,
                    now_lines,
                    width_offset,
                    Ghost(code_offset as int),
                );

                // Elide or show the gap before the next annotated line.
                if li + 1 < nl {
                    let next_line = vstd::std_specs::vec::vec_index(&entry.lines, li + 1);
                    proof {
                        assert(next_line@ == entry@.lines[li + 1]);
                        assert(line_wf(
                            entry@.lines[li + 1],
                            fv[entry@.file].lines.len() as int,
                            md,
                        ));
                        assert(entry@.lines[li as int].line_index
                            < entry@.lines[li + 1].line_index);
                    }
                    render_line_gap(
                        &mut buffer,
                        f,
                        line.line_index,
                        next_line.line_index,
                        width_offset,
                        code_offset,
                        max_line_num_len,
                        &multilines,
                    );
                }

                // Brackets that opened on this line run on from the next.
                let na = to_add.len();
                let mut ai: usize = 0;
                while ai < na
                    invariant
                        ai <= na,
                        na == to_add@.len(),
                        multilines_fit(to_add@, width_offset as int, code_offset as int),
                        multilines_fit(multilines@, width_offset as int, code_offset as int),
                    decreases na - ai,
                {
                    let e = *vstd::std_specs::vec::vec_index(&to_add, ai);
                    proof {
                        assert(1 <= to_add@[ai as int].0 && width_offset + to_add@[ai as int].0
                            + 1 <= code_offset);
                    }
                    multilines.push(e);
                    ai = ai + 1;
                }
                li = li + 1;
            }
            proof {
                lemma_total_lines_take_succ(fav, k as int);
            }
            k = k + 1;
        }

        let r = buffer.render();
        proof {
            assert(rendered_view(r@) == spec_render(buffer@));
            assert(rendered_view(r@).len() >= 1);
            let ghost row = buffer@[0];
            assert(is_header_row(row, level, codev, msgtext)) by {
                assert(forall|c: int|
                    0 <= c < row.len() ==> #[trigger] row[c] == cell_at(buffer@, 0, c));
            }
            assert(rendered_view(r@)[0] == runs_of(row));
        }
        r
    }
}

/// Whether entry `k` of the grouped files is for file index `file`.
fn entry_has_file(v: &Vec<FileWithAnnotatedLines>, k: usize, file: usize) -> (r: bool)
    requires
        k < v@.len(),
    ensures
        r == (fav_view(v@)[k as int].file == file as int),
{
    let e = vstd::std_specs::vec::vec_index(v, k);
    e.file == file
}

/// The header row is pinned cell by cell, so any two rows that satisfy its
/// description are equal.
pub proof fn lemma_header_row_unique(
    r1: Seq<StyledChar>,
    r2: Seq<StyledChar>,
    level: Level,
    code: Option<Seq<char>>,
    msgtext: Seq<char>,
)
    requires
        is_header_row(r1, level, code, msgtext),
        is_header_row(r2, level, code, msgtext),
    ensures
        r1 == r2,
{
    assert(r1 =~= r2);
}

/// A partial concatenation is a prefix of the full message text.
proof fn lemma_msgs_prefix(parts: Seq<(Seq<char>, Style)>, i: int)
    requires
        0 <= i <= parts.len(),
    ensures
        msgs_concat(parts.take(i)).len() <= msgs_concat(parts).len(),
        forall|c: int|
            0 <= c < msgs_concat(parts.take(i)).len() ==> #[trigger] msgs_concat(parts)[c]
                == msgs_concat(parts.take(i))[c],
    decreases parts.len() - i,
{
    if i == parts.len() {
        assert(parts.take(i) =~= parts);
    } else {
        lemma_msgs_prefix(parts, i + 1);
        assert(parts.take(i + 1).drop_last() =~= parts.take(i));
        assert(parts.take(i + 1).last() == parts[i]);
        assert(msgs_concat(parts.take(i + 1)) == msgs_concat(parts.take(i)) + parts[i].0);
    }
}

/// The concatenated message is no longer than its parts combined.
proof fn lemma_msgs_concat_len(parts: Seq<(Seq<char>, Style)>, i: int)
    requires
        0 <= i <= parts.len(),
        forall|q: int| 0 <= q < parts.len() ==> (#[trigger] parts[q]).0.len() < POS_LIMIT as int,
    ensures
        msgs_concat(parts.take(i)).len() <= i * POS_LIMIT as int,
    decreases i,
{
    if i > 0 {
        lemma_msgs_concat_len(parts, i - 1);
        assert(parts.take(i).drop_last() =~= parts.take(i - 1));
        assert(parts.take(i).last() == parts[i - 1]);
    }
}


impl Renderer {
    /// Render a whole batch of diagnostics, one block of text runs each,
    /// sharing a single gutter width so the reports align. A diagnostic
    /// without a resolvable primary span yields exactly its header row.
    #[verifier::spinoff_prover]
    pub fn emit_messages_default(&self, msgs: &Vec<Diagnostic>) -> (r: Vec<Vec<Vec<StyledString>>>)
        requires
            self.wf(),
            forall|i: int|
                0 <= i < msgs@.len() ==> crate::diagnostic_within_limits((#[trigger] msgs@[i])@),
        ensures
            r@.len() == msgs@.len(),
            forall|i: int|
                0 <= i < r@.len() ==> exists|row: Seq<StyledChar>|
                    #[trigger] is_header_row(
                        row,
                        (#[trigger] msgs@[i])@.level,
                        msgs@[i]@.code,
                        msgs@[i]@.message,
                    ) && rendered_view(r@[i]@).len() >= 1 && rendered_view(r@[i]@)[0] == runs_of(
                        row,
                    ) && (!has_primary_span(msgs@[i]@.spans, sf_views(self.files@))
                        ==> rendered_view(r@[i]@) == seq![runs_of(row)]),
    {
        let max = self.get_max_line_num(msgs);
        proof {
            lemma_max_line_bound(msgs@.map_values(|d: Diagnostic| d@));
        }
        let digits = crate::text::usize_to_chars(max + 1);
        proof {
            crate::text::lemma_dec_chars_len_line_limit((max + 1) as nat);
        }
        let max_line_num_len = digits.len();
        let n = msgs.len();
        let mut out: Vec<Vec<Vec<StyledString>>> = Vec::new();
        let mut i: usize = 0;
        while i < n
            invariant
                i <= n,
                n == msgs@.len(),
                self.wf(),
                1 <= max_line_num_len <= 16,
                forall|i2: int|
                    0 <= i2 < msgs@.len() ==> crate::diagnostic_within_limits(
                        (#[trigger] msgs@[i2])@,
                    ),
                out@.len() == i,
                forall|i2: int|
                    0 <= i2 < i ==> exists|row: Seq<StyledChar>|
                        #[trigger] is_header_row(
                            row,
                            (#[trigger] msgs@[i2])@.level,
                            msgs@[i2]@.code,
                            msgs@[i2]@.message,
                        ) && rendered_view(out@[i2]@).len() >= 1 && rendered_view(out@[i2]@)[0]
                            == runs_of(row) && (!has_primary_span(
                            msgs@[i2]@.spans,
                            sf_views(self.files@),
                        ) ==> rendered_view(out@[i2]@) == seq![runs_of(row)]),
            decreases n - i,
        {
            let d = vstd::std_specs::vec::vec_index(msgs, i);
            proof {
                assert(d@ == msgs@[i as int]@);
                assert(crate::diagnostic_within_limits(d@));
                assert(sl_views(d.spans@) =~= d@.spans);
            }
            let mut m: Vec<(String, Style)> = Vec::new();
            m.push((d.message.clone(), Style::NoStyle));
            proof {
                assert(msg_parts_view(m@) =~= seq![(d@.message, Style::NoStyle)]);
                assert(msg_within_limits(msg_parts_view(m@)));
            }
            let block = self.emit_message_default(
                &d.spans,
                &m,
                &d.code,
                d.level,
                max_line_num_len,
                false,
            );
            proof {
                assert(msgs_concat(msg_parts_view(m@)) =~= d@.message) by {
                    let pv = msg_parts_view(m@);
                    assert(pv.len() == 1);
                    assert(pv.last() == (d@.message, Style::NoStyle));
                    assert(pv.drop_last() =~= Seq::<(Seq<char>, Style)>::empty());
                    assert(msgs_concat(Seq::<(Seq<char>, Style)>::empty()) == Seq::<char>::empty());
                    assert(msgs_concat(pv) == msgs_concat(pv.drop_last()) + pv.last().0);
                }
                assert(code_view(d.code) == d@.code);
            }
            let ghost blockv = block@;
            out.push(block);
            proof {
                let dv = msgs@[i as int]@;
                let row = choose|row: Seq<StyledChar>|
                    #[trigger] is_header_row(row, dv.level, dv.code, dv.message) && rendered_view(
                        blockv,
                    )[0] == runs_of(row);
                if !has_primary_span(dv.spans, sf_views(self.files@)) {
                    let row2 = choose|row2: Seq<StyledChar>|
                        #[trigger] is_header_row(row2, dv.level, dv.code, dv.message)
                            && rendered_view(blockv) == seq![runs_of(row2)];
                    lemma_header_row_unique(row, row2, dv.level, dv.code, dv.message);
                }
                assert(out@[i as int]@ == blockv);
                assert(is_header_row(row, dv.level, dv.code, dv.message) && rendered_view(
                    out@[i as int]@,
                ).len() >= 1 && rendered_view(out@[i as int]@)[0] == runs_of(row) && (
                !has_primary_span(dv.spans, sf_views(self.files@)) ==> rendered_view(
                    out@[i as int]@,
                ) == seq![runs_of(row)]));
            }
            i = i + 1;
        }
        out
    }
}

} // verus!
