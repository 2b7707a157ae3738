use codemap_diagnostic::emitter::{ColorConfig, Renderer};
use codemap_diagnostic::layout::render_source_line;
use codemap_diagnostic::preprocess::{assign_depths, num_overlap, preprocess_annotations, sort_mls};
use codemap_diagnostic::snippet::{Annotation, AnnotationType, Line, MultilineAnnotation, Style};
use codemap_diagnostic::styled_buffer::StyledBuffer;
use codemap_diagnostic::text::{split_lines, str_to_chars, usize_to_chars};
use codemap_diagnostic::{Diagnostic, Level, LineCol, SourceFile, Span, SpanLabel, SpanStyle};

fn chars(s: &str) -> Vec<char> {
    s.chars().collect()
}

fn file(name: &str, text: &str) -> SourceFile {
    SourceFile { name: chars(name), lines: text.lines().map(chars).collect() }
}

fn row_text(row: &Vec<codemap_diagnostic::styled_buffer::StyledString>) -> String {
    let mut s = String::new();
    for part in row {
        s.extend(part.text.iter());
    }
    s
}

fn block_lines(block: &Vec<Vec<codemap_diagnostic::styled_buffer::StyledString>>) -> Vec<String> {
    block.iter().map(row_text).collect()
}

fn span(file: usize, bl: usize, bc: usize, el: usize, ec: usize) -> Span {
    Span {
        file,
        begin: LineCol { line: bl, column: bc },
        end: LineCol { line: el, column: ec },
    }
}

fn label(sp: Span, style: SpanStyle, text: Option<&str>) -> SpanLabel {
    SpanLabel { span: sp, label: text.map(|t| t.to_string()), style }
}

#[test]
fn level_text() {
    assert_eq!(Level::Error.to_str(), "error");
    assert_eq!(Level::Warning.to_str(), "warning");
    assert_eq!(Level::Note.to_str(), "note");
    assert_eq!(Level::Help.to_str(), "help");
    assert_eq!(Level::Bug.to_str(), "error: internal compiler error");
}

#[test]
fn overlap_rules() {
    assert!(num_overlap(0, 5, 3, 8, false));
    assert!(!num_overlap(0, 3, 3, 8, false));
    assert!(num_overlap(0, 3, 3, 8, true));
    assert!(!num_overlap(0, 3, 5, 8, true));
}

#[test]
fn decimal_digits() {
    assert_eq!(usize_to_chars(0), chars("0"));
    assert_eq!(usize_to_chars(7), chars("7"));
    assert_eq!(usize_to_chars(120), chars("120"));
    assert_eq!(usize_to_chars(99999), chars("99999"));
}

#[test]
fn splitting_lines() {
    let pieces = split_lines(&chars("a\n\nbc"));
    assert_eq!(pieces, vec![chars("a"), chars(""), chars("bc")]);
    assert_eq!(split_lines(&chars("")), vec![chars("")]);
    assert_eq!(str_to_chars("hi"), chars("hi"));
}

#[test]
fn buffer_putc_roundtrip_beyond_bounds() {
    // Writing then reading a cell beyond current bounds grows the grid
    // without losing the previously written cells.
    let mut b = StyledBuffer::new();
    b.putc(0, 0, 'a', Style::NoStyle);
    b.putc(2, 5, 'z', Style::Quotation);
    let r = b.render();
    assert_eq!(row_text(&r[0]), "a");
    assert_eq!(row_text(&r[1]), "");
    assert_eq!(row_text(&r[2]), "     z");
}

#[test]
fn buffer_render_idempotent() {
    let mut b = StyledBuffer::new();
    b.puts(0, 0, "same", Style::HeaderMsg);
    b.putc(1, 2, '^', Style::UnderlinePrimary);
    let r1 = b.render();
    let r2 = b.render();
    assert_eq!(block_lines(&r1), block_lines(&r2));
    assert_eq!(r1.len(), r2.len());
    for (a, b2) in r1.iter().zip(r2.iter()) {
        for (x, y) in a.iter().zip(b2.iter()) {
            assert_eq!(x.text, y.text);
            assert_eq!(x.style, y.style);
        }
    }
}

#[test]
fn buffer_runs_merge_same_style() {
    let mut b = StyledBuffer::new();
    b.puts(0, 0, "ab", Style::HeaderMsg);
    b.puts(0, 2, "cd", Style::HeaderMsg);
    b.puts(0, 4, "!!", Style::LineNumber);
    let r = b.render();
    assert_eq!(r[0].len(), 2);
    assert_eq!(r[0][0].text, chars("abcd"));
    assert_eq!(r[0][1].text, chars("!!"));
}

#[test]
fn depth_assignment_overlapping_differ() {
    // Two multiline annotations with overlapping line ranges get distinct
    // depths; the earlier (line_start, line_end) key gets the smaller one.
    let ml = |ls: usize, le: usize| MultilineAnnotation {
        depth: 1,
        line_start: ls,
        line_end: le,
        start_col: 0,
        end_col: 1,
        is_primary: true,
        label: None,
    };
    let sorted = sort_mls(vec![(0, ml(2, 8)), (0, ml(1, 10)), (0, ml(3, 5))]);
    let mut sorted = sorted;
    let maxd = assign_depths(&mut sorted);
    let depths: Vec<(usize, usize, usize)> =
        sorted.iter().map(|p| (p.1.line_start, p.1.line_end, p.1.depth)).collect();
    assert_eq!(depths, vec![(1, 10, 1), (2, 8, 2), (3, 5, 3)]);
    assert_eq!(maxd, 3);

    // Non-overlapping ranges may share a depth.
    let sorted2 = sort_mls(vec![(0, ml(1, 2)), (0, ml(7, 9))]);
    let mut sorted2 = sorted2;
    let maxd2 = assign_depths(&mut sorted2);
    assert_eq!(sorted2[0].1.depth, 1);
    assert_eq!(sorted2[1].1.depth, 1);
    assert_eq!(maxd2, 1);
}

#[test]
fn zero_width_span_underlines_one_column() {
    // A degenerate span with begin == end is widened to one column.
    let files = vec![file("test.rs", "let x = 1;\nlet y;")];
    let r = Renderer::new(files);
    let d = Diagnostic {
        level: Level::Error,
        message: "boom".to_string(),
        code: None,
        spans: vec![label(span(0, 1, 3, 1, 3), SpanStyle::Primary, None)],
    };
    let blocks = r.emit_messages_default(&vec![d]);
    let lines = block_lines(&blocks[0]);
    let underline = lines.iter().find(|l| l.contains('^')).expect("no underline row");
    assert_eq!(underline.matches('^').count(), 1);
}

#[test]
fn narrow_primary_survives_wide_secondary() {
    // The narrow primary annotation's carets survive inside a wider
    // secondary annotation's underline on the same line.
    let files = vec![file("test.rs", "abcdefghijkl")];
    let r = Renderer::new(files);
    let d = Diagnostic {
        level: Level::Error,
        message: "overlap".to_string(),
        code: None,
        spans: vec![
            label(span(0, 0, 0, 0, 10), SpanStyle::Secondary, None),
            label(span(0, 0, 4, 0, 7), SpanStyle::Primary, None),
        ],
    };
    let blocks = r.emit_messages_default(&vec![d]);
    let lines = block_lines(&blocks[0]);
    let underline = lines
        .iter()
        .find(|l| l.contains('^'))
        .unwrap_or_else(|| panic!("no underline row in {:?}", lines));
    // The primary's region shows ^, the rest of the secondary shows -.
    assert!(underline.contains("-^^^-"), "got: {:?}", lines);
    assert_eq!(underline.matches('^').count(), 3, "got: {:?}", lines);
}

#[test]
fn gap_of_five_elides_once_gap_of_two_shows_line() {
    let text = "l0\nl1\nl2\nl3\nl4\nl5\nl6\nl7";
    let files = vec![file("test.rs", text)];
    let r = Renderer::new(files);
    // Lines 1 and 6 annotated: gap > 2, one `...` row.
    let d = Diagnostic {
        level: Level::Error,
        message: "far apart".to_string(),
        code: None,
        spans: vec![
            label(span(0, 1, 0, 1, 2), SpanStyle::Primary, None),
            label(span(0, 6, 0, 6, 2), SpanStyle::Primary, None),
        ],
    };
    let blocks = r.emit_messages_default(&vec![d]);
    let lines = block_lines(&blocks[0]);
    assert_eq!(lines.iter().filter(|l| l.starts_with("...")).count(), 1);

    // Lines 1 and 3 annotated: the single skipped line is shown verbatim.
    let files2 = vec![file("test.rs", text)];
    let r2 = Renderer::new(files2);
    let d2 = Diagnostic {
        level: Level::Error,
        message: "near".to_string(),
        code: None,
        spans: vec![
            label(span(0, 1, 0, 1, 2), SpanStyle::Primary, None),
            label(span(0, 3, 0, 3, 2), SpanStyle::Primary, None),
        ],
    };
    let blocks2 = r2.emit_messages_default(&vec![d2]);
    let lines2 = block_lines(&blocks2[0]);
    assert!(!lines2.iter().any(|l| l.starts_with("...")));
    assert!(lines2.iter().any(|l| l.contains("l2")));
}

#[test]
fn two_labels_one_line() {
    // A diagnostic with level Error, code C000 and two primary labels on
    // one source line: one source row, one underline row with two caret
    // groups, both labels placed.
    let files = vec![file("test.rs", "pub fn look_up_pos(&self, pos: Pos) -> Loc {")];
    let r = Renderer::new(files);
    let d = Diagnostic {
        level: Level::Error,
        message: "Test error".to_string(),
        code: Some("C000".to_string()),
        spans: vec![
            label(span(0, 0, 7, 0, 18), SpanStyle::Primary, Some("function name")),
            label(span(0, 0, 39, 0, 42), SpanStyle::Primary, Some("returns")),
        ],
    };
    let blocks = r.emit_messages_default(&vec![d]);
    let lines = block_lines(&blocks[0]);
    assert_eq!(lines[0], "error[C000]: Test error");
    assert!(lines[1].contains("--> test.rs:1:8"));
    let src_rows: Vec<&String> = lines.iter().filter(|l| l.contains("look_up_pos(&self")).collect();
    assert_eq!(src_rows.len(), 1);
    let underline = lines.iter().find(|l| l.contains('^')).unwrap();
    assert!(underline.contains("^^^^^^^^^^^"));
    assert!(underline.contains("^^^"));
    assert!(lines.iter().any(|l| l.contains("function name")));
    assert!(lines.iter().any(|l| l.contains("returns")));
}

#[test]
fn zero_spans_render_header_only() {
    // Regardless of the sources, a diagnostic without spans is only its
    // header row.
    let files = vec![file("test.rs", "irrelevant")];
    let r = Renderer::new(files);
    let d = Diagnostic {
        level: Level::Help,
        message: "Help message".to_string(),
        code: None,
        spans: vec![],
    };
    let blocks = r.emit_messages_default(&vec![d]);
    assert_eq!(blocks.len(), 1);
    let lines = block_lines(&blocks[0]);
    assert_eq!(lines, vec!["help: Help message".to_string()]);
}

#[test]
fn three_line_span_brackets() {
    // A span crossing three lines: a bracket opens on the first line, its
    // bar runs through the untouched middle line, and the end row carries
    // the label.
    let files = vec![file("test.rs", "fn foo() {\n    body();\n}")];
    let r = Renderer::new(files);
    let d = Diagnostic {
        level: Level::Warning,
        message: "long".to_string(),
        code: None,
        spans: vec![label(span(0, 0, 3, 2, 1), SpanStyle::Primary, Some("test"))],
    };
    let blocks = r.emit_messages_default(&vec![d]);
    let lines = block_lines(&blocks[0]);
    assert_eq!(lines[0], "warning: long");
    // The bracket's horizontal bar appears on the start row's extra line.
    assert!(lines.iter().any(|l| l.contains('_')));
    // The middle line keeps the vertical bar in the margin.
    let middle = lines.iter().find(|l| l.contains("body()")).unwrap();
    assert!(middle.contains("| |"));
    // The end row carries the label.
    assert!(lines.iter().any(|l| l.contains("test")));
}

#[test]
fn secondary_file_listed_with_colons() {
    let files = vec![file("a.rs", "first file"), file("b.rs", "second file")];
    let r = Renderer::new(files);
    let d = Diagnostic {
        level: Level::Error,
        message: "two files".to_string(),
        code: None,
        spans: vec![
            label(span(1, 0, 0, 0, 6), SpanStyle::Primary, None),
            label(span(0, 0, 0, 0, 5), SpanStyle::Secondary, None),
        ],
    };
    let blocks = r.emit_messages_default(&vec![d]);
    let lines = block_lines(&blocks[0]);
    // The primary file comes first with -->, the other with :::.
    let arrow = lines.iter().position(|l| l.contains("--> b.rs:1:1")).unwrap();
    let other = lines.iter().position(|l| l.contains("::: a.rs")).unwrap();
    assert!(arrow < other);
}

#[test]
fn use_color_decision() {
    assert!(ColorConfig::Always.use_color(false));
    assert!(!ColorConfig::Never.use_color(true));
    assert!(ColorConfig::Auto.use_color(true));
    assert!(!ColorConfig::Auto.use_color(false));
}

#[test]
fn unresolvable_label_is_omitted() {
    // A label pointing outside the sources degrades gracefully: it is left
    // out, and without any resolvable primary span the header stands alone.
    let files = vec![file("test.rs", "only line")];
    let r = Renderer::new(files);
    let d = Diagnostic {
        level: Level::Error,
        message: "dangling".to_string(),
        code: None,
        spans: vec![label(span(5, 0, 0, 0, 3), SpanStyle::Primary, None)],
    };
    let blocks = r.emit_messages_default(&vec![d]);
    let lines = block_lines(&blocks[0]);
    assert_eq!(lines, vec!["error: dangling".to_string()]);
}

#[test]
fn preprocess_groups_by_line() {
    let files = vec![file("test.rs", "aaa\nbbb")];
    let spans = vec![
        label(span(0, 0, 0, 0, 1), SpanStyle::Primary, None),
        label(span(0, 0, 2, 0, 3), SpanStyle::Secondary, None),
        label(span(0, 1, 0, 1, 1), SpanStyle::Primary, None),
    ];
    let out = preprocess_annotations(&files, &spans);
    assert_eq!(out.len(), 1);
    assert_eq!(out[0].file, 0);
    assert_eq!(out[0].lines.len(), 2);
    assert_eq!(out[0].lines[0].line_index, 0);
    assert_eq!(out[0].lines[0].annotations.len(), 2);
    assert_eq!(out[0].lines[1].line_index, 1);
}

#[test]
fn render_source_line_direct() {
    let f = file("t.rs", "hello world");
    let line = Line {
        line_index: 0,
        annotations: vec![Annotation {
            start_col: 0,
            end_col: 5,
            is_primary: true,
            label: Some(chars("greeting")),
            annotation_type: AnnotationType::Singleline,
        }],
    };
    let mut b = StyledBuffer::new();
    let depths = render_source_line(&mut b, &f, &line, 4, 4);
    assert!(depths.is_empty());
    let rows = b.render();
    let texts: Vec<String> = rows.iter().map(row_text).collect();
    assert_eq!(texts[0], "1 | hello world");
    assert!(texts[1].contains("^^^^^"));
    assert!(texts[1].contains("greeting"));
}

#[test]
fn line_numbers_right_aligned_in_gutter() {
    // A batch whose largest line number has three digits pads shorter
    // numbers on the left, so the gutter stays aligned.
    let text: String = (0..120).map(|i| format!("l{}\n", i)).collect();
    let files = vec![file("test.rs", &text)];
    let r = Renderer::new(files);
    let d = Diagnostic {
        level: Level::Error,
        message: "aligned".to_string(),
        code: None,
        spans: vec![
            label(span(0, 1, 0, 1, 2), SpanStyle::Primary, None),
            label(span(0, 99, 0, 99, 2), SpanStyle::Primary, None),
        ],
    };
    let blocks = r.emit_messages_default(&vec![d]);
    let lines = block_lines(&blocks[0]);
    assert!(lines.iter().any(|l| l.starts_with("  2 | l1")), "got: {:?}", lines);
    assert!(lines.iter().any(|l| l.starts_with("100 | l99")), "got: {:?}", lines);
}

#[test]
fn skipped_line_carries_its_own_number() {
    // A gap of exactly two shows the skipped line with its own number.
    let files = vec![file("test.rs", "l0\nl1\nl2\nl3")];
    let r = Renderer::new(files);
    let d = Diagnostic {
        level: Level::Warning,
        message: "near".to_string(),
        code: None,
        spans: vec![
            label(span(0, 1, 0, 1, 2), SpanStyle::Primary, None),
            label(span(0, 3, 0, 3, 2), SpanStyle::Primary, None),
        ],
    };
    let blocks = r.emit_messages_default(&vec![d]);
    let lines = block_lines(&blocks[0]);
    assert!(lines.iter().any(|l| l.starts_with("3 | l2")), "got: {:?}", lines);
}

#[test]
fn compact_bracket_after_unicode_blank() {
    // A multi-line span starting after non-breaking spaces still takes the
    // compact `/` form: any whitespace counts as blank.
    let files = vec![file("test.rs", "\u{a0}\u{a0}fn x() {\n}")];
    let r = Renderer::new(files);
    let d = Diagnostic {
        level: Level::Error,
        message: "wide".to_string(),
        code: None,
        spans: vec![label(span(0, 0, 2, 1, 1), SpanStyle::Primary, None)],
    };
    let blocks = r.emit_messages_default(&vec![d]);
    let lines = block_lines(&blocks[0]);
    assert!(lines.iter().any(|l| l.contains('/')), "got: {:?}", lines);
}

#[test]
fn sub_note_wraps_under_label() {
    // A secondary, spanless message renders as `= note:` with continuation
    // lines aligned under the note text.
    let r = Renderer::new(vec![]);
    let msg = vec![("first\nsecond".to_string(), Style::NoStyle)];
    let block = r.emit_message_default(&vec![], &msg, &None, Level::Note, 2, true);
    let lines = block_lines(&block);
    assert_eq!(lines[0], "   = note: first");
    assert_eq!(lines[1], "           second");
}
