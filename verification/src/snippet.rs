//! Data types for annotated source snippets: character styles, per-line
//! annotations (single-line underlines and multi-line bracket parts), and
//! the intermediate form of a multi-line annotation before it is expanded
//! into per-line parts.

use vstd::prelude::*;
use crate::Level;

verus! {

/// The visual style of a rendered character or text run.
#[derive(Copy, Clone, PartialEq, Eq, Structural, Debug)]
pub enum Style {
    HeaderMsg,
    LineAndColumn,
    LineNumber,
    Quotation,
    UnderlinePrimary,
    UnderlineSecondary,
    LabelPrimary,
    LabelSecondary,
    NoStyle,
    Level(Level),
    Highlight,
}

/// The classification of a per-line annotation: an inline underline, or one
/// of the parts of a multi-line bracket, carrying the bracket's depth slot.
#[derive(Copy, Clone, PartialEq, Eq, Structural, Debug)]
pub enum AnnotationType {
    Singleline,
    MultilineStart(usize),
    MultilineLine(usize),
    MultilineEnd(usize),
}

/// An annotation attached to one source line.
#[derive(Clone, Debug)]
pub struct Annotation {
    /// Start column (0-based, inclusive).
    pub start_col: usize,
    /// End column (0-based, exclusive).
    pub end_col: usize,
    /// Primary annotations use the diagnostic's severity color and `^`;
    /// secondary ones use a neutral accent and `-`.
    pub is_primary: bool,
    /// Optional text explaining the annotated region.
    pub label: Option<Vec<char>>,
    pub annotation_type: AnnotationType,
}

/// The mathematical value of an [`Annotation`].
pub ghost struct AnnView {
    pub start_col: int,
    pub end_col: int,
    pub is_primary: bool,
    pub label: Option<Seq<char>>,
    pub kind: AnnotationType,
}

impl View for Annotation {
    type V = AnnView;

    open spec fn view(&self) -> AnnView {
        AnnView {
            start_col: self.start_col as int,
            end_col: self.end_col as int,
            is_primary: self.is_primary,
            label: match self.label {
                Some(l) => Some(l@),
                None => None,
            },
            kind: self.annotation_type,
        }
    }
}

/// A multi-line annotation before expansion into per-line parts.
#[derive(Clone, Debug)]
pub struct MultilineAnnotation {
    /// Horizontal nesting slot of the bracket; 1 is closest to the gutter.
    pub depth: usize,
    pub line_start: usize,
    pub line_end: usize,
    pub start_col: usize,
    pub end_col: usize,
    pub is_primary: bool,
    pub label: Option<Vec<char>>,
}

/// The mathematical value of a [`MultilineAnnotation`].
pub ghost struct MlView {
    pub depth: int,
    pub line_start: int,
    pub line_end: int,
    pub start_col: int,
    pub end_col: int,
    pub is_primary: bool,
    pub label: Option<Seq<char>>,
}

impl View for MultilineAnnotation {
    type V = MlView;

    open spec fn view(&self) -> MlView {
        MlView {
            depth: self.depth as int,
            line_start: self.line_start as int,
            line_end: self.line_end as int,
            start_col: self.start_col as int,
            end_col: self.end_col as int,
            is_primary: self.is_primary,
            label: match self.label {
                Some(l) => Some(l@),
                None => None,
            },
        }
    }
}

/// One source line together with the annotations that touch it.
#[derive(Clone, Debug)]
pub struct Line {
    pub line_index: usize,
    pub annotations: Vec<Annotation>,
}

/// The mathematical value of a [`Line`].
pub ghost struct LineView {
    pub line_index: int,
    pub annotations: Seq<AnnView>,
}

impl View for Line {
    type V = LineView;

    open spec fn view(&self) -> LineView {
        LineView {
            line_index: self.line_index as int,
            annotations: self.annotations@.map_values(|a: Annotation| a@),
        }
    }
}

pub open spec fn spec_has_label(label: Option<Seq<char>>) -> bool {
    match label {
        Some(l) => l.len() > 0,
        None => false,
    }
}

/// The width of the region an annotation underlines.
pub open spec fn spec_ann_len(a: AnnView) -> int {
    if a.end_col >= a.start_col {
        a.end_col - a.start_col
    } else {
        a.start_col - a.end_col
    }
}

/// Whether an annotation is the pass-through part of a multi-line bracket.
pub open spec fn spec_is_line(a: AnnView) -> bool {
    a.kind is MultilineLine
}

/// Whether an annotation is the first or last line of a multi-line bracket.
pub open spec fn spec_takes_space(a: AnnView) -> bool {
    a.kind is MultilineStart || a.kind is MultilineEnd
}

impl Annotation {
    /// Whether this is the pass-through part of a multi-line bracket: a line
    /// strictly between the bracket's first and last line.
    pub fn is_line(&self) -> (r: bool)
        ensures
            r == spec_is_line(self@),
    {
        match self.annotation_type {
            AnnotationType::MultilineLine(_) => true,
            _ => false,
        }
    }

    /// Whether the annotation carries non-empty label text.
    pub fn has_label(&self) -> (r: bool)
        ensures
            r == spec_has_label(self@.label),
    {
        match &self.label {
            Some(l) => l.len() > 0,
            None => false,
        }
    }

    /// Whether the annotation is the first or last line of a multi-line
    /// bracket, which needs a row of its own for the horizontal bar.
    pub fn takes_space(&self) -> (r: bool)
        ensures
            r == spec_takes_space(self@),
    {
        match self.annotation_type {
            AnnotationType::MultilineStart(_) => true,
            AnnotationType::MultilineEnd(_) => true,
            _ => false,
        }
    }

    /// The width of the underlined region.
    pub fn len(&self) -> (r: usize)
        ensures
            r == spec_ann_len(self@),
    {
        if self.end_col >= self.start_col {
            self.end_col - self.start_col
        } else {
            self.start_col - self.end_col
        }
    }

    /// An exact copy of this annotation.
    pub fn duplicate(&self) -> (r: Annotation)
        ensures
            r@ == self@,
    {
        Annotation {
            start_col: self.start_col,
            end_col: self.end_col,
            is_primary: self.is_primary,
            label: clone_label(&self.label),
            annotation_type: self.annotation_type,
        }
    }
}

/// The view of an optional label.
pub open spec fn label_view(label: Option<Vec<char>>) -> Option<Seq<char>> {
    match label {
        Some(l) => Some(l@),
        None => None,
    }
}

/// A copy of an optional label with the same characters.
pub fn clone_label(label: &Option<Vec<char>>) -> (r: Option<Vec<char>>)
    ensures
        label_view(r) == label_view(*label),
{
    match label {
        Some(l) => {
            let mut copy: Vec<char> = Vec::new();
            let mut i: usize = 0;
            while i < l.len()
                invariant
                    i <= l.len(),
                    copy@ == l@.take(i as int),
                decreases l.len() - i,
            {
                copy.push(l[i]);
                proof {
                    assert(copy@ =~= l@.take(i + 1 as int));
                }
                i = i + 1;
            }
            proof {
                assert(copy@ =~= l@);
            }
            Some(copy)
        },
        None => None,
    }
}

pub open spec fn spec_as_start(m: MlView) -> AnnView {
    AnnView {
        start_col: m.start_col,
        end_col: m.start_col + 1,
        is_primary: m.is_primary,
        label: None,
        kind: AnnotationType::MultilineStart(m.depth as usize),
    }
}

pub open spec fn spec_as_line(m: MlView) -> AnnView {
    AnnView {
        start_col: 0,
        end_col: 0,
        is_primary: m.is_primary,
        label: None,
        kind: AnnotationType::MultilineLine(m.depth as usize),
    }
}

pub open spec fn spec_as_end(m: MlView) -> AnnView {
    AnnView {
        start_col: if m.end_col >= 1 {
            m.end_col - 1
        } else {
            0
        },
        end_col: m.end_col,
        is_primary: m.is_primary,
        label: m.label,
        kind: AnnotationType::MultilineEnd(m.depth as usize),
    }
}

impl MultilineAnnotation {
    /// Shift this bracket one depth slot to the right.
    pub fn increase_depth(&mut self)
        requires
            old(self).depth < usize::MAX,
        ensures
            final(self)@ == (MlView { depth: old(self)@.depth + 1, ..old(self)@ }),
    {
        self.depth = self.depth + 1;
    }

    /// The per-line annotation marking the bracket's first line.
    pub fn as_start(&self) -> (r: Annotation)
        requires
            self.start_col < usize::MAX,
        ensures
            r@ == spec_as_start(self@),
    {
        Annotation {
            start_col: self.start_col,
            end_col: self.start_col + 1,
            is_primary: self.is_primary,
            label: None,
            annotation_type: AnnotationType::MultilineStart(self.depth),
        }
    }

    /// The per-line annotation for a line strictly inside the bracket.
    pub fn as_line(&self) -> (r: Annotation)
        ensures
            r@ == spec_as_line(self@),
    {
        Annotation {
            start_col: 0,
            end_col: 0,
            is_primary: self.is_primary,
            label: None,
            annotation_type: AnnotationType::MultilineLine(self.depth),
        }
    }

    /// The per-line annotation marking the bracket's last line; it carries
    /// the bracket's label.
    pub fn as_end(&self) -> (r: Annotation)
        ensures
            r@ == spec_as_end(self@),
    {
        Annotation {
            start_col: if self.end_col >= 1 {
                self.end_col - 1
            } else {
                0
            },
            end_col: self.end_col,
            is_primary: self.is_primary,
            label: clone_label(&self.label),
            annotation_type: AnnotationType::MultilineEnd(self.depth),
        }
    }
}

} // verus!
