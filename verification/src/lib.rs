//! Renders compiler-style diagnostics: severity-leveled messages annotated
//! with labeled source-code regions, laid out as an annotated-snippet report
//! with line numbers, underlines, connector lines and stacked labels.

use vstd::prelude::*;

pub mod emitter;
pub mod layout;
pub mod preprocess;
pub mod snippet;
pub mod styled_buffer;
pub mod text;

verus! {

/// A level representing the severity of a Diagnostic.
///
/// These result in different output styling.
#[derive(Copy, Clone, PartialEq, Eq, Structural, Debug)]
pub enum Level {
    Bug,
    Error,
    Warning,
    Note,
    Help,
}

impl Level {
    /// The header text shown for this severity.
    pub fn to_str(self) -> (r: &'static str)
        ensures
            r@ == spec_level_str(self),
    {
        match self {
            Level::Bug => "error: internal compiler error",
            Level::Error => "error",
            Level::Warning => "warning",
            Level::Note => "note",
            Level::Help => "help",
        }
    }
}

/// The header text of each severity level, as a sequence of characters.
pub open spec fn spec_level_str(level: Level) -> Seq<char> {
    match level {
        Level::Bug => "error: internal compiler error"@,
        Level::Error => "error"@,
        Level::Warning => "warning"@,
        Level::Note => "note"@,
        Level::Help => "help"@,
    }
}


/// The color a severity level is rendered in: a foreground color and whether
/// its intense variant is used.
#[derive(Copy, Clone, PartialEq, Eq, Structural, Debug)]
pub struct LevelColor {
    pub fg: TermColor,
    pub intense: bool,
}

/// A terminal foreground color used by the rendering styles.
#[derive(Copy, Clone, PartialEq, Eq, Structural, Debug)]
pub enum TermColor {
    Red,
    Yellow,
    Green,
    Cyan,
    BrightBlue,
    BrightCyan,
    BrightWhite,
}

/// The color of each severity level; `windows` selects the platform variant.
pub open spec fn spec_level_color(level: Level, windows: bool) -> LevelColor {
    match level {
        Level::Bug => LevelColor { fg: TermColor::Red, intense: true },
        Level::Error => LevelColor { fg: TermColor::Red, intense: true },
        Level::Warning => LevelColor { fg: TermColor::Yellow, intense: windows },
        Level::Note => LevelColor { fg: TermColor::Green, intense: true },
        Level::Help => LevelColor { fg: TermColor::Cyan, intense: true },
    }
}

impl Level {
    /// The color this severity is shown in.
    pub fn color(self, windows: bool) -> (c: LevelColor)
        ensures
            c == spec_level_color(self, windows),
    {
        match self {
            Level::Bug => LevelColor { fg: TermColor::Red, intense: true },
            Level::Error => LevelColor { fg: TermColor::Red, intense: true },
            Level::Warning => LevelColor { fg: TermColor::Yellow, intense: windows },
            Level::Note => LevelColor { fg: TermColor::Green, intense: true },
            Level::Help => LevelColor { fg: TermColor::Cyan, intense: true },
        }
    }
}

/// A 0-based line/column position in a source file. Rendered output adds 1
/// for human display.
#[derive(Copy, Clone, PartialEq, Eq, Structural, Debug)]
pub struct LineCol {
    pub line: usize,
    pub column: usize,
}

/// An already-resolved region of source code: the index of its file in the
/// source list handed to the renderer, and its begin and end positions.
/// Resolving an opaque byte-offset region against a source map is the
/// caller's concern; the renderer only lays resolved regions out.
#[derive(Copy, Clone, PartialEq, Eq, Structural, Debug)]
pub struct Span {
    pub file: usize,
    pub begin: LineCol,
    pub end: LineCol,
}

/// The text of one source file: its display name and its lines, without
/// line terminators.
#[derive(Clone, Debug)]
pub struct SourceFile {
    pub name: Vec<char>,
    pub lines: Vec<Vec<char>>,
}

/// The mathematical value of a [`SourceFile`].
pub ghost struct SourceFileView {
    pub name: Seq<char>,
    pub lines: Seq<Seq<char>>,
}

impl View for SourceFile {
    type V = SourceFileView;

    open spec fn view(&self) -> SourceFileView {
        SourceFileView {
            name: self.name@,
            lines: self.lines@.map_values(|l: Vec<char>| l@),
        }
    }
}

/// Underline style for a SpanLabel.
#[derive(Copy, Clone, PartialEq, Eq, Structural, Debug)]
pub enum SpanStyle {
    Primary,
    Secondary,
}

/// A labeled region of the code related to a Diagnostic.
#[derive(Clone, Debug)]
pub struct SpanLabel {
    /// The resolved location in the code.
    pub span: Span,
    /// A label used to provide context for the underlined code.
    pub label: Option<String>,
    /// A style used to set the character used for the underline.
    pub style: SpanStyle,
}

/// The mathematical value of a [`SpanLabel`].
pub ghost struct SpanLabelView {
    pub span: Span,
    pub label: Option<Seq<char>>,
    pub style: SpanStyle,
}

impl View for SpanLabel {
    type V = SpanLabelView;

    open spec fn view(&self) -> SpanLabelView {
        SpanLabelView {
            span: self.span,
            label: match self.label {
                Some(l) => Some(l@),
                None => None,
            },
            style: self.style,
        }
    }
}

/// A diagnostic message.
#[derive(Clone, Debug)]
pub struct Diagnostic {
    /// The severity of the message, used to set color scheme
    pub level: Level,
    /// Message used as the headline of the error
    pub message: String,
    /// A short error number or code
    pub code: Option<String>,
    /// Locations to underline in the code
    pub spans: Vec<SpanLabel>,
}

/// The mathematical value of a [`Diagnostic`].
pub ghost struct DiagnosticView {
    pub level: Level,
    pub message: Seq<char>,
    pub code: Option<Seq<char>>,
    pub spans: Seq<SpanLabelView>,
}

impl View for Diagnostic {
    type V = DiagnosticView;

    open spec fn view(&self) -> DiagnosticView {
        DiagnosticView {
            level: self.level,
            message: self.message@,
            code: match self.code {
                Some(c) => Some(c@),
                None => None,
            },
            spans: self.spans@.map_values(|s: SpanLabel| s@),
        }
    }
}

/// A bound on columns and text lengths that keeps all grid arithmetic well
/// inside `usize` on every platform. A machine limit, not a policy.
pub const POS_LIMIT: usize = 0x8000;

/// A bound on line indices and file line counts. A machine limit.
pub const LINE_LIMIT: usize = 0x1000_0000;

/// A bound on the number of labeled spans of one diagnostic. A machine limit.
pub const SPAN_LIMIT: usize = 0x800;

/// Whether a resolved span's positions fit the grid arithmetic.
pub open spec fn span_within_limits(sp: Span) -> bool {
    &&& sp.begin.line < LINE_LIMIT
    &&& sp.begin.column < POS_LIMIT
    &&& sp.end.line < LINE_LIMIT
    &&& sp.end.column < POS_LIMIT
}

/// Whether a label's text fits the grid arithmetic.
pub open spec fn label_within_limits(label: Option<Seq<char>>) -> bool {
    match label {
        Some(l) => l.len() < POS_LIMIT as int,
        None => true,
    }
}

/// Whether every span and label of a list fits the grid arithmetic.
pub open spec fn spans_within_limits(spans: Seq<SpanLabelView>) -> bool {
    &&& spans.len() < SPAN_LIMIT as int
    &&& forall|i: int|
        0 <= i < spans.len() ==> span_within_limits(#[trigger] spans[i].span)
            && label_within_limits(spans[i].label)
}

/// Whether a source file's name and lines fit the grid arithmetic.
pub open spec fn file_within_limits(f: SourceFileView) -> bool {
    &&& f.name.len() < POS_LIMIT as int
    &&& f.lines.len() < LINE_LIMIT as int
    &&& forall|i: int| 0 <= i < f.lines.len() ==> (#[trigger] f.lines[i]).len() < POS_LIMIT as int
}

/// Whether every file of a source list fits the grid arithmetic.
pub open spec fn files_within_limits(files: Seq<SourceFileView>) -> bool {
    &&& files.len() < LINE_LIMIT as int
    &&& forall|i: int| 0 <= i < files.len() ==> file_within_limits(#[trigger] files[i])
}

/// Whether a diagnostic's message, code, spans and labels fit the grid
/// arithmetic.
pub open spec fn diagnostic_within_limits(d: DiagnosticView) -> bool {
    &&& d.message.len() < POS_LIMIT as int
    &&& label_within_limits(d.code)
    &&& spans_within_limits(d.spans)
}

} // verus!
