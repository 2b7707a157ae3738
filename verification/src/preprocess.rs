//! The annotation preprocessor: converts a diagnostic's resolved, labeled
//! spans into, per source file, an ordered list of annotated lines. Spans are
//! classified as single-line or multi-line; overlapping multi-line spans are
//! assigned distinct depth slots so their brackets nest without colliding.

use vstd::prelude::*;
use crate::snippet::{spec_as_end, spec_as_line, spec_as_start, Annotation, AnnotationType,
    AnnView, Line, LineView, MlView, MultilineAnnotation};
use crate::{label_within_limits, span_within_limits, LineCol, SourceFile, SourceFileView, Span,
    SpanLabel, SpanLabelView, SpanStyle, LINE_LIMIT, POS_LIMIT, SPAN_LIMIT};

verus! {

/// Whether the ranges `[a_start, a_end)` and `[b_start, b_end)` overlap;
/// `inclusive` widens both ends by one so that merely touching ranges count.
pub open spec fn spec_num_overlap(
    a_start: int,
    a_end: int,
    b_start: int,
    b_end: int,
    inclusive: bool,
) -> bool {
    let extra: int = if inclusive {
        1
    } else {
        0
    };
    (a_start >= b_start && a_start < b_end + extra) || (b_start >= a_start && b_start < a_end
        + extra)
}

/// Whether the ranges `[a_start, a_end)` and `[b_start, b_end)` overlap.
pub fn num_overlap(
    a_start: usize,
    a_end: usize,
    b_start: usize,
    b_end: usize,
    inclusive: bool,
) -> (r: bool)
    requires
        a_end < usize::MAX,
        b_end < usize::MAX,
    ensures
        r == spec_num_overlap(
            a_start as int,
            a_end as int,
            b_start as int,
            b_end as int,
            inclusive,
        ),
{
    let extra: usize = if inclusive {
        1
    } else {
        0
    };
    (a_start >= b_start && a_start < b_end + extra) || (b_start >= a_start && b_start < a_end
        + extra)
}

/// Whether two multi-line annotations' line ranges touch, counting ranges
/// that merely border on each other as overlapping.
pub open spec fn ml_overlap(a: MlView, b: MlView) -> bool {
    spec_num_overlap(a.line_start, a.line_end, b.line_start, b.line_end, true)
}

/// Order on multi-line annotations by their `(line_start, line_end)` key.
pub open spec fn ml_key_le(a: MlView, b: MlView) -> bool {
    a.line_start < b.line_start || (a.line_start == b.line_start && a.line_end <= b.line_end)
}

/// Whether a multi-line annotation list is sorted by `(line_start, line_end)`.
pub open spec fn sorted_by_lines(s: Seq<MlView>) -> bool {
    forall|i: int, j: int| 0 <= i < j < s.len() ==> ml_key_le(#[trigger] s[i], #[trigger] s[j])
}

/// A proper multi-line annotation: it really spans more than one line, and
/// its positions fit the grid arithmetic.
pub open spec fn ml_wf(m: MlView) -> bool {
    &&& 0 <= m.line_start < m.line_end < LINE_LIMIT as int
    &&& 0 <= m.start_col < POS_LIMIT as int
    &&& 0 <= m.end_col <= POS_LIMIT as int
    &&& label_within_limits(m.label)
}

/// The view of a (file index, multi-line annotation) pair.
pub open spec fn mlp_view(p: (usize, MultilineAnnotation)) -> (int, MlView) {
    (p.0 as int, p.1@)
}

/// The views of a list of (file index, multi-line annotation) pairs.
pub open spec fn mlps_view(s: Seq<(usize, MultilineAnnotation)>) -> Seq<(int, MlView)> {
    s.map_values(|p: (usize, MultilineAnnotation)| mlp_view(p))
}

/// The multi-line annotation views of such a list, without the file indices.
pub open spec fn mls_view(s: Seq<(usize, MultilineAnnotation)>) -> Seq<MlView> {
    s.map_values(|p: (usize, MultilineAnnotation)| p.1@)
}

/// Whether the annotation at `pos` sorts no later than the `(ils, ile)` key.
fn key_at_le(out: &Vec<(usize, MultilineAnnotation)>, pos: usize, ils: usize, ile: usize) -> (r:
    bool)
    requires
        pos < out@.len(),
    ensures
        r == (mls_view(out@)[pos as int].line_start < ils as int || (mls_view(
            out@,
        )[pos as int].line_start == ils as int && mls_view(out@)[pos as int].line_end
            <= ile as int)),
{
    let e = vstd::std_specs::vec::vec_index(out, pos);
    e.1.line_start < ils || (e.1.line_start == ils && e.1.line_end <= ile)
}

/// Insert one annotation into a list sorted by `(line_start, line_end)`,
/// keeping it sorted.
fn insert_sorted(out: &mut Vec<(usize, MultilineAnnotation)>, item: (usize, MultilineAnnotation))
    requires
        sorted_by_lines(mls_view(old(out)@)),
    ensures
        final(out)@.len() == old(out)@.len() + 1,
        sorted_by_lines(mls_view(final(out)@)),
        mlps_view(final(out)@).to_multiset() == mlps_view(old(out)@).to_multiset().insert(
            mlp_view(item),
        ),
{
    broadcast use vstd::seq_lib::group_to_multiset_ensures;

    let ils = item.1.line_start;
    let ile = item.1.line_end;
    let n = out.len();
    let mut pos: usize = 0;
    while pos < n && key_at_le(out, pos, ils, ile)
        invariant
            pos <= n,
            n == out@.len(),
            ils == item.1@.line_start,
            ile == item.1@.line_end,
            sorted_by_lines(mls_view(out@)),
            forall|k: int| 0 <= k < pos ==> ml_key_le(#[trigger] mls_view(out@)[k], item.1@),
        decreases n - pos,
    {
        proof {
            assert(ml_key_le(mls_view(out@)[pos as int], item.1@));
        }
        pos = pos + 1;
    }
    proof {
        assert forall|k: int|
            pos <= k < n implies ml_key_le(item.1@, #[trigger] mls_view(out@)[k]) by {
            assert(!ml_key_le(mls_view(out@)[pos as int], item.1@));
            if k > pos as int {
                assert(ml_key_le(mls_view(out@)[pos as int], mls_view(out@)[k]));
            }
        }
    }
    let ghost pre = out@;
    out.insert(pos, item);
    proof {
        assert(mls_view(out@) =~= mls_view(pre).insert(pos as int, item.1@));
        assert(mlps_view(out@) =~= mlps_view(pre).insert(pos as int, mlp_view(item)));
        vstd::seq_lib::to_multiset_insert(mlps_view(pre), pos as int, mlp_view(item));
        assert forall|i: int, j: int|
            0 <= i < j < mls_view(out@).len() implies ml_key_le(
            #[trigger] mls_view(out@)[i],
            #[trigger] mls_view(out@)[j],
        ) by {
            let s = mls_view(pre);
            let p = pos as int;
            if i < p && j == p {
            } else if i == p && j > p {
            } else if i < p && j > p {
                assert(ml_key_le(s[i], item.1@));
                assert(ml_key_le(item.1@, s[j - 1]));
            } else if j < p {
                assert(ml_key_le(s[i], s[j]));
            } else if i > p {
                assert(ml_key_le(s[i - 1], s[j - 1]));
            } else {
                assert(i < p && j > p || ml_key_le(s[i], s[j - 1]));
            }
        }
    }
}

/// Sort multi-line annotations by their `(line_start, line_end)` key,
/// keeping exactly the same collection of (file, annotation) pairs.
pub fn sort_mls(anns: Vec<(usize, MultilineAnnotation)>) -> (r: Vec<(usize, MultilineAnnotation)>)
    ensures
        r@.len() == anns@.len(),
        sorted_by_lines(mls_view(r@)),
        mlps_view(r@).to_multiset() == mlps_view(anns@).to_multiset(),
{
    broadcast use vstd::seq_lib::group_to_multiset_ensures;

    let ghost orig = mlps_view(anns@);
    let mut rest = anns;
    let mut out: Vec<(usize, MultilineAnnotation)> = Vec::new();
    proof {
        assert(mlps_view(out@) =~= Seq::<(int, MlView)>::empty());
        assert(mlps_view(out@).to_multiset().add(mlps_view(rest@).to_multiset()) =~= orig.to_multiset());
    }
    while rest.len() > 0
        invariant
            out@.len() + rest@.len() == orig.len(),
            sorted_by_lines(mls_view(out@)),
            mlps_view(out@).to_multiset().add(mlps_view(rest@).to_multiset())
                == orig.to_multiset(),
        decreases rest.len(),
    {
        let ghost rpre = rest@;
        let ghost opre = out@;
        let item = match rest.pop() {
            Some(x) => x,
            None => {
                proof {
                    assert(false);
                }
                unreached()
            },
        };
        proof {
            assert(mlps_view(rpre) =~= mlps_view(rest@).push(mlp_view(item)));
            vstd::seq_lib::to_multiset_build(mlps_view(rest@), mlp_view(item));
        }
        insert_sorted(&mut out, item);
        proof {
            assert(mlps_view(out@).to_multiset().add(mlps_view(rest@).to_multiset())
                =~= orig.to_multiset());
        }
    }
    out
}

/// The depth slot the renderer assigns to the `j`-th annotation of the
/// sorted multi-line list: one more than the deepest earlier annotation
/// whose line range overlaps it, so overlapping brackets never share a slot.
pub open spec fn assigned_depth(s: Seq<MlView>, j: int) -> int
    decreases j, j + 2,
{
    if j <= 0 {
        1
    } else {
        1 + deepest_overlap(s, j, j)
    }
}

/// The largest depth assigned among the entries `i < k` whose line ranges
/// overlap entry `j`; 0 when none does.
pub open spec fn deepest_overlap(s: Seq<MlView>, j: int, k: int) -> int
    decreases j, k,
{
    if k <= 0 || j <= 0 {
        0
    } else {
        let prev = deepest_overlap(s, j, k - 1);
        let cand = if ml_overlap(s[k - 1], s[j]) && k <= j {
            assigned_depth(s, k - 1)
        } else {
            0
        };
        if cand > prev {
            cand
        } else {
            prev
        }
    }
}

/// The largest depth assigned to the first `k` entries; 0 when `k` is 0.
pub open spec fn max_assigned_depth(s: Seq<MlView>, k: int) -> int
    decreases k,
{
    if k <= 0 {
        0
    } else {
        let prev = max_assigned_depth(s, k - 1);
        let cand = assigned_depth(s, k - 1);
        if cand > prev {
            cand
        } else {
            prev
        }
    }
}

/// Every assigned depth lies between 1 and the entry's position plus one.
pub proof fn lemma_assigned_depth_bounds(s: Seq<MlView>, j: int)
    requires
        0 <= j,
    ensures
        1 <= assigned_depth(s, j) <= j + 1,
    decreases j, j + 2,
{
    if j > 0 {
        lemma_deepest_overlap_bounds(s, j, j);
    }
}

/// The deepest overlapping depth among the first `k` entries is at most `k`.
pub proof fn lemma_deepest_overlap_bounds(s: Seq<MlView>, j: int, k: int)
    requires
        0 <= k <= j,
    ensures
        0 <= deepest_overlap(s, j, k) <= k,
    decreases j, k,
{
    if k > 0 && j > 0 {
        lemma_deepest_overlap_bounds(s, j, k - 1);
        lemma_assigned_depth_bounds(s, k - 1);
    }
}

/// The deepest overlapping depth among the first `k` entries is at least the
/// assigned depth of any single overlapping earlier entry.
proof fn lemma_deepest_at_least(s: Seq<MlView>, j: int, i: int, k: int)
    requires
        0 <= i < k <= j,
        ml_overlap(s[i], s[j]),
    ensures
        deepest_overlap(s, j, k) >= assigned_depth(s, i),
    decreases k,
{
    if k - 1 > i {
        lemma_deepest_at_least(s, j, i, k - 1);
    }
}

/// Law: two multi-line annotations with overlapping line ranges are assigned
/// different depths, and the one earlier in the `(line_start, line_end)`
/// order receives the smaller depth, so it is drawn closer to the gutter.
pub proof fn lemma_overlapping_depths_differ(s: Seq<MlView>, i: int, j: int)
    requires
        0 <= i < j < s.len(),
        ml_overlap(s[i], s[j]),
    ensures
        assigned_depth(s, i) < assigned_depth(s, j),
{
    lemma_deepest_at_least(s, j, i, j);
}

/// Once the scan from entry `i` meets a non-overlapping later entry, no entry
/// after that one overlaps entry `i` either: the list is sorted by line
/// start, so later entries only begin further down.
proof fn lemma_break_safe(s: Seq<MlView>, i: int, j: int, k: int)
    requires
        sorted_by_lines(s),
        forall|m: int| 0 <= m < s.len() ==> #[trigger] s[m].line_start <= s[m].line_end,
        0 <= i < j <= k < s.len(),
        !ml_overlap(s[i], s[j]),
    ensures
        !ml_overlap(s[i], s[k]),
{
    assert(ml_key_le(s[i], s[j]));
    if j < k {
        assert(ml_key_le(s[j], s[k]));
    }
}


/// The depth an entry holds while the assignment scan has completed its
/// first `i` outer rounds.
pub open spec fn scan_depth(s: Seq<MlView>, k: int, i: int) -> int {
    if k <= i {
        assigned_depth(s, k)
    } else {
        1 + deepest_overlap(s, k, i)
    }
}

/// Set the depth slot of the `j`-th annotation, leaving the rest unchanged.
fn set_depth(anns: &mut Vec<(usize, MultilineAnnotation)>, j: usize, d: usize)
    requires
        j < old(anns)@.len(),
    ensures
        final(anns)@.len() == old(anns)@.len(),
        forall|k: int| 0 <= k < old(anns)@.len() && k != j ==> final(anns)@[k] == old(anns)@[k],
        final(anns)@[j as int].0 == old(anns)@[j as int].0,
        final(anns)@[j as int].1@ == (MlView { depth: d as int, ..old(anns)@[j as int].1@ }),
{
    let ghost pre = anns@;
    let mut item = anns.remove(j);
    item.1.depth = d;
    let ghost itemg = item;
    anns.insert(j, item);
    proof {
        assert(anns@ =~= pre.update(j as int, itemg));
    }
}

/// The line range and current depth of the `j`-th annotation.
fn entry_fields(anns: &Vec<(usize, MultilineAnnotation)>, j: usize) -> (r: (usize, usize, usize))
    requires
        j < anns@.len(),
    ensures
        r.0 as int == anns@[j as int].1@.line_start,
        r.1 as int == anns@[j as int].1@.line_end,
        r.2 as int == anns@[j as int].1@.depth,
{
    let e = vstd::std_specs::vec::vec_index(anns, j);
    (e.1.line_start, e.1.line_end, e.1.depth)
}

/// Assign depth slots to a sorted multi-line annotation list: each one is
/// placed one slot right of the deepest earlier annotation whose line range
/// overlaps it. The scan from each annotation stops at the first later entry
/// whose range no longer touches it, which the sorted order makes safe.
/// Returns the largest depth assigned; 0 when the list is empty.
#[verifier::spinoff_prover]
pub fn assign_depths(anns: &mut Vec<(usize, MultilineAnnotation)>) -> (max_depth: usize)
    requires
        sorted_by_lines(mls_view(old(anns)@)),
        old(anns)@.len() < SPAN_LIMIT,
        forall|k: int| 0 <= k < old(anns)@.len() ==> ml_wf(#[trigger] mls_view(old(anns)@)[k]),
        forall|k: int|
            0 <= k < old(anns)@.len() ==> (#[trigger] old(anns)@[k]).1@.depth == 1,
    ensures
        final(anns)@.len() == old(anns)@.len(),
        forall|k: int|
            0 <= k < final(anns)@.len() ==> (#[trigger] final(anns)@[k]).0 == old(anns)@[k].0
                && final(anns)@[k].1@ == (MlView {
                depth: assigned_depth(mls_view(old(anns)@), k),
                ..old(anns)@[k].1@
            }),
        max_depth as int == max_assigned_depth(mls_view(old(anns)@), old(anns)@.len() as int),
{
    let ghost s = mls_view(old(anns)@);
    let n = anns.len();
    proof {
        assert forall|k: int| 0 <= k < n implies anns@[k].1@ == (MlView {
            depth: scan_depth(s, k, 0),
            ..s[k]
        }) by {
            assert(anns@[k].1@ == s[k]);
            if k > 0 {
                lemma_deepest_overlap_bounds(s, k, 0);
            }
        }
    }
    let mut i: usize = 0;
    while i < n
        invariant
            n == anns@.len(),
            n == s.len(),
            n < SPAN_LIMIT,
            i <= n,
            s == mls_view(old(anns)@),
            sorted_by_lines(s),
            forall|k: int| 0 <= k < n ==> ml_wf(#[trigger] s[k]),
            forall|k: int|
                0 <= k < n ==> (#[trigger] anns@[k]).0 == old(anns)@[k].0 && anns@[k].1@
                    == (MlView { depth: scan_depth(s, k, i as int), ..s[k] }),
        decreases n - i,
    {
        let (ils, ile, idepth) = entry_fields(anns, i);
        proof {
            lemma_assigned_depth_bounds(s, i as int);
            assert(idepth as int == assigned_depth(s, i as int));
        }
        let mut j: usize = i + 1;
        let mut stopped = false;
        while j < n && !stopped
            invariant
                n == anns@.len(),
                n == s.len(),
                n < SPAN_LIMIT,
                i < j <= n,
                i < n,
                s == mls_view(old(anns)@),
                sorted_by_lines(s),
                forall|k: int| 0 <= k < n ==> ml_wf(#[trigger] s[k]),
                ils as int == s[i as int].line_start,
                ile as int == s[i as int].line_end,
                idepth as int == assigned_depth(s, i as int),
                idepth as int <= i + 1,
                stopped ==> !ml_overlap(s[i as int], s[j - 1]),
                forall|k: int|
                    0 <= k < n ==> (#[trigger] anns@[k]).0 == old(anns)@[k].0 && anns@[k].1@
                        == (MlView {
                        depth: if k <= i as int {
                            assigned_depth(s, k)
                        } else if k < j as int {
                            1 + deepest_overlap(s, k, i + 1)
                        } else {
                            1 + deepest_overlap(s, k, i as int)
                        },
                        ..s[k]
                    }),
            decreases n - j,
        {
            let (jls, jle, jdepth) = entry_fields(anns, j);
            let overlap = num_overlap(ils, ile, jls, jle, true);
            proof {
                assert(overlap == ml_overlap(s[i as int], s[j as int]));
                lemma_deepest_overlap_bounds(s, j as int, i as int);
            }
            if overlap {
                if idepth + 1 > jdepth {
                    set_depth(anns, j, idepth + 1);
                }
                proof {
                    assert(anns@[j as int].1@.depth == 1 + deepest_overlap(
                        s,
                        j as int,
                        i + 1,
                    ));
                }
            } else {
                stopped = true;
                proof {
                    assert(deepest_overlap(s, j as int, i + 1) == deepest_overlap(
                        s,
                        j as int,
                        i as int,
                    )) by {
                        reveal_with_fuel(deepest_overlap, 2);
                        assert(!(ml_overlap(s[i as int], s[j as int]) && i + 1 <= j as int));
                        lemma_deepest_overlap_bounds(s, j as int, i as int);
                    }
                }
            }
            j = j + 1;
        }
        proof {
            assert forall|k: int| 0 <= k < n implies anns@[k].1@.depth == scan_depth(
                s,
                k,
                i + 1,
            ) by {
                if k > i + 1 && k >= j as int {
                    assert(stopped);
                    assert forall|m: int|
                        0 <= m < s.len() implies #[trigger] s[m].line_start <= s[m].line_end by {
                        assert(ml_wf(s[m]));
                    }
                    lemma_break_safe(s, i as int, j - 1, k);
                    assert(deepest_overlap(s, k, i + 1) == deepest_overlap(s, k, i as int)) by {
                        reveal_with_fuel(deepest_overlap, 2);
                        assert(!(ml_overlap(s[i as int], s[k]) && i + 1 <= k));
                        lemma_deepest_overlap_bounds(s, k, i as int);
                    }
                }
            }
        }
        i = i + 1;
    }

    proof {
        assert forall|m: int|
            0 <= m < n implies anns@[m].1@.depth == assigned_depth(s, m) && anns@[m].1@.depth
            <= SPAN_LIMIT by {
            lemma_assigned_depth_bounds(s, m);
        }
    }

    // The largest assigned depth.
    let mut max_depth: usize = 0;
    let mut k: usize = 0;
    while k < n
        invariant
            n == anns@.len(),
            n == s.len(),
            k <= n,
            s == mls_view(old(anns)@),
            forall|m: int|
                0 <= m < n ==> (#[trigger] anns@[m]).1@.depth == assigned_depth(s, m)
                    && anns@[m].1@.depth <= SPAN_LIMIT,
            max_depth as int == max_assigned_depth(s, k as int),
        decreases n - k,
    {
        let (_, _, d) = entry_fields(anns, k);
        if d > max_depth {
            max_depth = d;
        }
        k = k + 1;
    }
    max_depth
}


/// One source file together with the annotated lines derived from a
/// diagnostic's spans, ordered by line index.
#[derive(Clone, Debug)]
pub struct FileWithAnnotatedLines {
    /// Index of the file in the source list handed to the renderer.
    pub file: usize,
    pub lines: Vec<Line>,
    /// The largest depth slot used by any multi-line bracket of the
    /// diagnostic; fixes the left margin width for all its files.
    pub multiline_depth: usize,
}

/// The mathematical value of a [`FileWithAnnotatedLines`].
pub ghost struct FileAnnView {
    pub file: int,
    pub lines: Seq<LineView>,
    pub multiline_depth: int,
}

impl View for FileWithAnnotatedLines {
    type V = FileAnnView;

    open spec fn view(&self) -> FileAnnView {
        FileAnnView {
            file: self.file as int,
            lines: self.lines@.map_values(|l: Line| l@),
            multiline_depth: self.multiline_depth as int,
        }
    }
}

/// The views of a list of annotated files.
pub open spec fn fav_view(s: Seq<FileWithAnnotatedLines>) -> Seq<FileAnnView> {
    s.map_values(|f: FileWithAnnotatedLines| f@)
}

/// A bound on how many annotations can gather on one source line. A machine
/// limit: at most a handful per labeled span.
pub const LINE_ANNS_LIMIT: usize = 0x4000;

/// Whether one annotation is well formed: its columns and label fit the grid
/// arithmetic and a bracket part's depth slot lies in `[1, maxd]`.
pub open spec fn ann_wf(a: AnnView, maxd: int) -> bool {
    &&& 0 <= a.start_col < POS_LIMIT as int
    &&& 0 <= a.end_col <= POS_LIMIT as int
    &&& label_within_limits(a.label)
    &&& match a.kind {
        AnnotationType::Singleline => true,
        AnnotationType::MultilineStart(d) => 1 <= d as int <= maxd,
        AnnotationType::MultilineLine(d) => 1 <= d as int <= maxd,
        AnnotationType::MultilineEnd(d) => 1 <= d as int <= maxd,
    }
}

/// Whether one annotated line is well formed against its file's line count.
pub open spec fn line_wf(l: LineView, nlines: int, maxd: int) -> bool {
    &&& 0 <= l.line_index < nlines
    &&& forall|a: int| 0 <= a < l.annotations.len() ==> ann_wf(#[trigger] l.annotations[a], maxd)
}

/// Whether one annotated-file entry is well formed: it points into the
/// source list, and its lines are strictly ordered and all well formed.
pub open spec fn file_entry_wf(e: FileAnnView, files: Seq<SourceFileView>, maxd: int) -> bool {
    &&& 0 <= e.file < files.len()
    &&& e.lines.len() >= 1
    &&& forall|li: int|
        0 <= li < e.lines.len() ==> line_wf(
            #[trigger] e.lines[li],
            files[e.file].lines.len() as int,
            maxd,
        )
    &&& forall|l1: int, l2: int|
        0 <= l1 < l2 < e.lines.len() ==> (#[trigger] e.lines[l1]).line_index < (
        #[trigger] e.lines[l2]).line_index
}

/// Whether preprocessor output is well formed: one entry per file, each well
/// formed.
pub open spec fn files_wf(r: Seq<FileAnnView>, files: Seq<SourceFileView>, maxd: int) -> bool {
    &&& forall|k1: int, k2: int|
        0 <= k1 < k2 < r.len() ==> (#[trigger] r[k1]).file != (#[trigger] r[k2]).file
    &&& forall|k: int| 0 <= k < r.len() ==> file_entry_wf(#[trigger] r[k], files, maxd)
}

/// Whether every line of the output holds at most `b` annotations.
pub open spec fn all_counts_le(r: Seq<FileAnnView>, b: int) -> bool {
    forall|k: int, li: int|
        0 <= k < r.len() && 0 <= li < r[k].lines.len() ==> (#[trigger] r[k].lines[li]).annotations.len()
            <= b
}

/// The total number of annotated lines across all file entries.
pub open spec fn total_lines(r: Seq<FileAnnView>) -> int
    decreases r.len(),
{
    if r.len() == 0 {
        0
    } else {
        total_lines(r.drop_last()) + r.last().lines.len()
    }
}

/// Replacing one entry changes the total line count by the entry's own
/// difference.
proof fn lemma_total_lines_update(r: Seq<FileAnnView>, k: int, e: FileAnnView)
    requires
        0 <= k < r.len(),
    ensures
        total_lines(r.update(k, e)) == total_lines(r) - r[k].lines.len() + e.lines.len(),
    decreases r.len(),
{
    if k == r.len() - 1 {
        assert(r.update(k, e).drop_last() =~= r.drop_last());
    } else {
        assert(r.update(k, e).drop_last() =~= r.drop_last().update(k, e));
        lemma_total_lines_update(r.drop_last(), k, e);
    }
}

/// Whether annotation `a` stands on line `line` of file `file` somewhere in
/// the preprocessor output.
pub open spec fn ann_in(r: Seq<FileAnnView>, file: int, line: int, a: AnnView) -> bool {
    exists|k: int, li: int, ai: int|
        0 <= k < r.len() && 0 <= li < r[k].lines.len() && 0 <= ai
            < r[k].lines[li].annotations.len() && (#[trigger] r[k].lines[li].annotations[ai]) == a
            && r[k].file == file && r[k].lines[li].line_index == line
}

/// Attach one annotation to `line_index` of `file`, creating the file entry
/// or the line as needed and keeping lines ordered by index.
fn add_annotation_to_file(
    output: &mut Vec<FileWithAnnotatedLines>,
    file: usize,
    line_index: usize,
    ann: Annotation,
    Ghost(files): Ghost<Seq<SourceFileView>>,
    Ghost(maxd): Ghost<int>,
)
    requires
        files_wf(fav_view(old(output)@), files, maxd),
        ann_wf(ann@, maxd),
        file < files.len(),
        line_index < files[file as int].lines.len(),
    ensures
        files_wf(fav_view(final(output)@), files, maxd),
        forall|b: int|
            all_counts_le(fav_view(old(output)@), b) && b >= 0 ==> all_counts_le(
                fav_view(final(output)@),
                b + 1,
            ),
        ann_in(fav_view(final(output)@), file as int, line_index as int, ann@),
        forall|f: int, l: int, a: AnnView|
            ann_in(fav_view(old(output)@), f, l, a) ==> ann_in(fav_view(final(output)@), f, l, a),
        forall|f: int, l: int, a: AnnView|
            ann_in(fav_view(final(output)@), f, l, a) ==> ann_in(fav_view(old(output)@), f, l, a)
                || (f == file as int && l == line_index as int && a == ann@),
        total_lines(fav_view(final(output)@)) <= total_lines(fav_view(old(output)@)) + 1,
{
    let ghost r0 = fav_view(output@);
    let n = output.len();

    // Look for the entry of this file.
    let mut k: usize = 0;
    while k < n && !entry_is_file(output, k, file)
        invariant
            k <= n,
            n == output@.len(),
            forall|k2: int| 0 <= k2 < k ==> (#[trigger] fav_view(output@)[k2]).file != file as int,
        decreases n - k,
    {
        k = k + 1;
    }

    if k == n {
        // First annotation for this file: a new entry with a single line.
        let mut anns: Vec<Annotation> = Vec::new();
        anns.push(ann);
        let mut lines: Vec<Line> = Vec::new();
        lines.push(Line { line_index, annotations: anns });
        output.push(FileWithAnnotatedLines { file, lines, multiline_depth: 0 });
        proof {
            let r1 = fav_view(output@);
            assert(r1.len() == r0.len() + 1);
            assert(forall|k2: int| 0 <= k2 < r0.len() ==> r1[k2] == r0[k2]);
            assert(r1[r0.len() as int].file == file as int);
            assert(r1[r0.len() as int].lines.len() == 1);
            assert(r1[r0.len() as int].lines[0].line_index == line_index as int);
            assert(r1[r0.len() as int].lines[0].annotations =~= seq![ann@]);
            assert(r1[r0.len() as int].lines[0].annotations[0] == ann@);
            assert(ann_in(r1, file as int, line_index as int, ann@));
            assert(r1.drop_last() =~= r0);
            assert(total_lines(r1) == total_lines(r0) + 1);
            assert forall|f: int, l: int, a: AnnView|
                ann_in(r0, f, l, a) implies ann_in(r1, f, l, a) by {
                let (k2, li, ai) = choose|k2: int, li: int, ai: int|
                    0 <= k2 < r0.len() && 0 <= li < r0[k2].lines.len() && 0 <= ai
                        < r0[k2].lines[li].annotations.len() && (#[trigger] r0[k2].lines[li].annotations[ai])
                        == a && r0[k2].file == f && r0[k2].lines[li].line_index == l;
                assert(r1[k2].lines[li].annotations[ai] == a);
            }
            assert forall|f: int, l: int, a: AnnView|
                ann_in(r1, f, l, a) implies ann_in(r0, f, l, a) || (f == file as int && l
                == line_index as int && a == ann@) by {
                let (k2, li, ai) = choose|k2: int, li: int, ai: int|
                    0 <= k2 < r1.len() && 0 <= li < r1[k2].lines.len() && 0 <= ai
                        < r1[k2].lines[li].annotations.len() && (#[trigger] r1[k2].lines[li].annotations[ai])
                        == a && r1[k2].file == f && r1[k2].lines[li].line_index == l;
                if k2 < r0.len() {
                    assert(r0[k2].lines[li].annotations[ai] == a);
                }
            }
        }
        return ;
    }

    // The file exists: take its entry out, add the annotation, put it back.
    let ghost entry0 = fav_view(output@)[k as int];
    let mut entry = output.remove(k);
    let m = entry.lines.len();
    let mut li: usize = 0;
    while li < m && line_is_before(&entry, li, line_index)
        invariant
            li <= m,
            m == entry.lines@.len(),
            entry@ == entry0,
            forall|l2: int| 0 <= l2 < li ==> (#[trigger] entry0.lines[l2]).line_index < line_index as int,
        decreases m - li,
    {
        li = li + 1;
    }

    let ghost lines0 = entry0.lines;
    if li < m && line_has_index(&entry, li, line_index) {
        // The line exists: append to its annotations.
        let ghost vecs0 = entry.lines@;
        let mut line = entry.lines.remove(li);
        let ghost line0 = line@;
        line.annotations.push(ann);
        let ghost lineg = line;
        entry.lines.insert(li, line);
        proof {
            assert(entry.lines@ =~= vecs0.update(li as int, lineg));
            assert(lineg@.annotations =~~= line0.annotations.push(ann@));
            assert(entry@.lines =~~= lines0.update(
                li as int,
                (LineView { line_index: line0.line_index, annotations: line0.annotations.push(
                    ann@,
                ) }),
            ));
            assert(line0.line_index == line_index as int);
            assert(entry_extended_at(entry0, entry@, line_index as int, ann@, li as int, false));
        }
    } else {
        // No line yet: insert a new one, keeping the order by line index.
        proof {
            assert(file_entry_wf(entry0, files, maxd));
            assert forall|l2: int|
                li as int <= l2 < m implies (#[trigger] lines0[l2]).line_index
                > line_index as int by {
                if l2 > li as int {
                    assert(lines0[li as int].line_index < lines0[l2].line_index);
                }
                assert(lines0[li as int].line_index >= line_index as int);
                if li < m {
                    assert(lines0[li as int].line_index != line_index as int);
                }
            }
        }
        let mut anns: Vec<Annotation> = Vec::new();
        anns.push(ann);
        let newline = Line { line_index, annotations: anns };
        let ghost newlineg = newline;
        entry.lines.insert(li, newline);
        proof {
            assert(newlineg@.annotations =~~= seq![ann@]);
            assert(entry@.lines =~~= lines0.insert(
                li as int,
                (LineView { line_index: line_index as int, annotations: seq![ann@] }),
            ));
            assert(entry_extended_at(entry0, entry@, line_index as int, ann@, li as int, true));
        }
    }
    let ghost entryg = entry;
    output.insert(k, entry);
    proof {
        let r1 = fav_view(output@);
        assert(output@ =~= old(output)@.update(k as int, entryg));
        assert(entry_extended(entry0, entryg@, line_index as int, ann@));
        assert(r1 =~= r0.update(k as int, entryg@));
        lemma_total_lines_update(r0, k as int, entryg@);
        assert(entryg@.lines.len() <= entry0.lines.len() + 1);
        assert(r1.len() == r0.len());
        assert(forall|k2: int| 0 <= k2 < r0.len() && k2 != k as int ==> r1[k2] == r0[k2]);
        assert(r1[k as int] == entryg@);
        lemma_entry_update_ok(r0, r1, k as int, entry0, entryg@, files, maxd, file as int,
            line_index as int, ann@);
    }
}

/// Whether entry `k` of the output is for file `file`.
fn entry_is_file(output: &Vec<FileWithAnnotatedLines>, k: usize, file: usize) -> (r: bool)
    requires
        k < output@.len(),
    ensures
        r == (fav_view(output@)[k as int].file == file as int),
{
    let e = vstd::std_specs::vec::vec_index(output, k);
    e.file == file
}

/// Whether line `li` of the entry is for an index before `line_index`.
fn line_is_before(entry: &FileWithAnnotatedLines, li: usize, line_index: usize) -> (r: bool)
    requires
        li < entry.lines@.len(),
    ensures
        r == (entry@.lines[li as int].line_index < line_index as int),
{
    let l = vstd::std_specs::vec::vec_index(&entry.lines, li);
    l.line_index < line_index
}

/// Whether line `li` of the entry has exactly index `line_index`.
fn line_has_index(entry: &FileWithAnnotatedLines, li: usize, line_index: usize) -> (r: bool)
    requires
        li < entry.lines@.len(),
    ensures
        r == (entry@.lines[li as int].line_index == line_index as int),
{
    let l = vstd::std_specs::vec::vec_index(&entry.lines, li);
    l.line_index == line_index
}

/// The two ways `add_annotation_to_file` can modify one entry (appending to
/// an existing line or inserting a fresh line) both keep the structure well
/// formed, keep every annotation that was there, and add the new one.
proof fn lemma_entry_update_ok(
    r0: Seq<FileAnnView>,
    r1: Seq<FileAnnView>,
    k: int,
    e0: FileAnnView,
    e1: FileAnnView,
    files: Seq<SourceFileView>,
    maxd: int,
    file: int,
    line: int,
    a: AnnView,
)
    requires
        files_wf(r0, files, maxd),
        ann_wf(a, maxd),
        0 <= file < files.len(),
        0 <= line < files[file].lines.len(),
        r0.len() == r1.len(),
        0 <= k < r0.len(),
        forall|k2: int| 0 <= k2 < r0.len() && k2 != k ==> r1[k2] == r0[k2],
        r1[k] == e1,
        r0[k] == e0,
        e0.file == file,
        e1.file == e0.file,
        entry_extended(e0, e1, line, a),
    ensures
        files_wf(r1, files, maxd),
        forall|b: int|
            all_counts_le(r0, b) && b >= 0 ==> all_counts_le(r1, b + 1),
        ann_in(r1, file, line, a),
        forall|f: int, l: int, a2: AnnView| ann_in(r0, f, l, a2) ==> ann_in(r1, f, l, a2),
        forall|f: int, l: int, a2: AnnView|
            ann_in(r1, f, l, a2) ==> ann_in(r0, f, l, a2) || (f == file && l == line && a2 == a),
{
    assert(file_entry_wf(e0, files, maxd));
    let (li, fresh) = choose|li: int, fresh: bool| entry_extended_at(e0, e1, line, a, li, fresh);
    if fresh {
        assert(e1.lines[li].annotations =~= seq![a]);
        assert(ann_in(r1, file, line, a)) by {
            assert(r1[k].lines[li].annotations[0] == a);
        }
        assert(file_entry_wf(e1, files, maxd)) by {
            assert forall|l1: int, l2: int|
                0 <= l1 < l2 < e1.lines.len() implies (#[trigger] e1.lines[l1]).line_index < (
            #[trigger] e1.lines[l2]).line_index by {
                if l1 < li && l2 > li {
                    assert(e0.lines[l1] == e1.lines[l1]);
                    assert(e0.lines[l2 - 1] == e1.lines[l2]);
                } else if l2 == li {
                    assert(e0.lines[l1] == e1.lines[l1]);
                } else if l1 == li {
                    assert(e0.lines[l2 - 1] == e1.lines[l2]);
                } else if l2 < li {
                } else {
                    assert(e0.lines[l1 - 1] == e1.lines[l1]);
                    assert(e0.lines[l2 - 1] == e1.lines[l2]);
                }
            }
        }
        assert forall|f: int, l: int, a2: AnnView|
            ann_in(r0, f, l, a2) implies ann_in(r1, f, l, a2) by {
            let (k2, li2, ai2) = choose|k2: int, li2: int, ai2: int|
                0 <= k2 < r0.len() && 0 <= li2 < r0[k2].lines.len() && 0 <= ai2
                    < r0[k2].lines[li2].annotations.len() && (
                #[trigger] r0[k2].lines[li2].annotations[ai2]) == a2 && r0[k2].file == f
                    && r0[k2].lines[li2].line_index == l;
            if k2 == k {
                if li2 < li {
                    assert(r1[k2].lines[li2].annotations[ai2] == a2);
                } else {
                    assert(r1[k2].lines[li2 + 1].annotations[ai2] == a2);
                }
            } else {
                assert(r1[k2].lines[li2].annotations[ai2] == a2);
            }
        }
    } else {
        assert(ann_in(r1, file, line, a)) by {
            assert(r1[k].lines[li].annotations[e0.lines[li].annotations.len() as int] == a);
        }
        assert(file_entry_wf(e1, files, maxd)) by {
            assert forall|li2: int|
                0 <= li2 < e1.lines.len() implies line_wf(
                #[trigger] e1.lines[li2],
                files[e1.file].lines.len() as int,
                maxd,
            ) by {
                assert(line_wf(e0.lines[li2], files[e0.file].lines.len() as int, maxd));
                if li2 == li {
                    assert(forall|ai: int|
                        0 <= ai < e1.lines[li].annotations.len() - 1
                            ==> #[trigger] e1.lines[li].annotations[ai]
                            == e0.lines[li].annotations[ai]);
                }
            }
        }
        assert forall|f: int, l: int, a2: AnnView|
            ann_in(r0, f, l, a2) implies ann_in(r1, f, l, a2) by {
            let (k2, li2, ai2) = choose|k2: int, li2: int, ai2: int|
                0 <= k2 < r0.len() && 0 <= li2 < r0[k2].lines.len() && 0 <= ai2
                    < r0[k2].lines[li2].annotations.len() && (
                #[trigger] r0[k2].lines[li2].annotations[ai2]) == a2 && r0[k2].file == f
                    && r0[k2].lines[li2].line_index == l;
            assert(r1[k2].lines[li2].annotations[ai2] == a2);
        }
    }
    assert forall|f2: int, l2: int, a2: AnnView|
        ann_in(r1, f2, l2, a2) implies ann_in(r0, f2, l2, a2) || (f2 == file && l2 == line && a2
        == a) by {
        let (k2, li2, ai2) = choose|k2: int, li2: int, ai2: int|
            0 <= k2 < r1.len() && 0 <= li2 < r1[k2].lines.len() && 0 <= ai2
                < r1[k2].lines[li2].annotations.len() && (
            #[trigger] r1[k2].lines[li2].annotations[ai2]) == a2 && r1[k2].file == f2
                && r1[k2].lines[li2].line_index == l2;
        if k2 == k {
            if fresh {
                if li2 < li {
                    assert(r0[k2].lines[li2].annotations[ai2] == a2);
                } else if li2 == li {
                    assert(a2 == a && l2 == line && f2 == file);
                } else {
                    assert(r0[k2].lines[li2 - 1].annotations[ai2] == a2);
                }
            } else {
                if li2 == li && ai2 == e0.lines[li].annotations.len() {
                    assert(a2 == a && l2 == line && f2 == file);
                } else {
                    assert(r0[k2].lines[li2].annotations[ai2] == a2);
                }
            }
        } else {
            assert(r0[k2].lines[li2].annotations[ai2] == a2);
        }
    }
    assert forall|b: int| all_counts_le(r0, b) && b >= 0 implies all_counts_le(r1, b + 1) by {
        assert forall|k2: int, li2: int|
            0 <= k2 < r1.len() && 0 <= li2 < r1[k2].lines.len() implies (
        #[trigger] r1[k2].lines[li2]).annotations.len() <= b + 1 by {
            if k2 == k {
                if fresh {
                    if li2 < li {
                        assert(r0[k2].lines[li2].annotations.len() <= b);
                    } else if li2 > li {
                        assert(r0[k2].lines[li2 - 1].annotations.len() <= b);
                    }
                } else {
                    assert(r0[k2].lines[li2].annotations.len() <= b);
                }
            } else {
                assert(r0[k2].lines[li2].annotations.len() <= b);
            }
        }
    }
}

/// How a modified entry relates to the original: at some position a line was
/// either freshly inserted holding only the new annotation, or extended by
/// pushing the new annotation at its end.
pub open spec fn entry_extended(e0: FileAnnView, e1: FileAnnView, line: int, a: AnnView) -> bool {
    exists|li: int, fresh: bool| entry_extended_at(e0, e1, line, a, li, fresh)
}

/// The witness form of [`entry_extended`].
pub open spec fn entry_extended_at(
    e0: FileAnnView,
    e1: FileAnnView,
    line: int,
    a: AnnView,
    li: int,
    fresh: bool,
) -> bool {
    if fresh {
        &&& 0 <= li <= e0.lines.len()
        &&& e1.lines == e0.lines.insert(
            li,
            LineView { line_index: line, annotations: seq![a] },
        )
        &&& forall|l2: int| 0 <= l2 < li ==> (#[trigger] e0.lines[l2]).line_index < line
        &&& forall|l2: int| li <= l2 < e0.lines.len() ==> (#[trigger] e0.lines[l2]).line_index > line
    } else {
        &&& 0 <= li < e0.lines.len()
        &&& e0.lines[li].line_index == line
        &&& e1.lines == e0.lines.update(
            li,
            LineView {
                line_index: line,
                annotations: e0.lines[li].annotations.push(a),
            },
        )
    }
}


/// The views of a list of source files.
pub open spec fn sf_views(files: Seq<SourceFile>) -> Seq<SourceFileView> {
    files.map_values(|f: SourceFile| f@)
}

/// The views of a list of span labels.
pub open spec fn sl_views(spans: Seq<SpanLabel>) -> Seq<SpanLabelView> {
    spans.map_values(|s: SpanLabel| s@)
}

/// Whether a resolved span points into the given source list, with its
/// positions in order. A label whose span does not is omitted from layout
/// rather than failing the whole diagnostic.
pub open spec fn span_resolvable(sp: Span, files: Seq<SourceFileView>) -> bool {
    &&& (sp.file as int) < files.len()
    &&& sp.begin.line <= sp.end.line
    &&& (sp.end.line as int) < files[sp.file as int].lines.len()
    &&& (sp.begin.line == sp.end.line ==> sp.begin.column <= sp.end.column)
}

/// Whether a resolved span stays on one source line.
pub open spec fn is_single_line(sp: Span) -> bool {
    sp.begin.line == sp.end.line
}

/// The end position after the degenerate zero-width correction: a span whose
/// begin and end coincide is widened by one column, so that at least one
/// column is always shown.
pub open spec fn spec_widened_end(sp: Span) -> LineCol {
    if sp.begin == sp.end {
        LineCol { line: sp.end.line, column: (sp.end.column + 1) as usize }
    } else {
        sp.end
    }
}

/// The single-line annotation the preprocessor builds for a label.
pub open spec fn spec_single_ann(sl: SpanLabelView) -> AnnView {
    AnnView {
        start_col: sl.span.begin.column as int,
        end_col: spec_widened_end(sl.span).column as int,
        is_primary: sl.style == SpanStyle::Primary,
        label: sl.label,
        kind: AnnotationType::Singleline,
    }
}

/// Law: a zero-width span is always widened to exactly one column: the
/// annotation built for a label whose begin and end positions coincide
/// underlines precisely the one column at its begin position.
pub proof fn lemma_zero_width_span_one_column(sl: SpanLabelView)
    requires
        sl.span.begin == sl.span.end,
        span_within_limits(sl.span),
    ensures
        spec_single_ann(sl).end_col == spec_single_ann(sl).start_col + 1,
{
}

/// The deferred multi-line annotation a resolvable label produces, at the
/// given depth slot.
pub open spec fn spec_ml_of(sl: SpanLabelView, d: int) -> MlView {
    MlView {
        depth: d,
        line_start: sl.span.begin.line as int,
        line_end: sl.span.end.line as int,
        start_col: sl.span.begin.column as int,
        end_col: sl.span.end.column as int,
        is_primary: sl.style == SpanStyle::Primary,
        label: sl.label,
    }
}

/// Whether interior line `l` of a bracket spanning `ls..le` gets its own
/// pass-through marker: only the first few interior lines and, for longer
/// spans, the last one, so output stays bounded however long the span.
pub open spec fn interior_marked(ls: int, le: int, l: int) -> bool {
    let middle = if ls + 4 < le {
        ls + 4
    } else {
        le
    };
    (ls + 1 <= l < middle) || (middle < le - 1 && l == le - 1)
}

/// The maximum assigned depth is attained by some entry.
pub proof fn lemma_max_assigned_attained(s: Seq<MlView>, n: int)
    requires
        1 <= n,
    ensures
        exists|k: int| 0 <= k < n && #[trigger] assigned_depth(s, k) == max_assigned_depth(s, n),
    decreases n,
{
    if n == 1 {
        assert(max_assigned_depth(s, 0) == 0);
        lemma_assigned_depth_bounds(s, 0);
        assert(assigned_depth(s, 0) == max_assigned_depth(s, 1));
    } else {
        lemma_max_assigned_attained(s, n - 1);
        if assigned_depth(s, n - 1) > max_assigned_depth(s, n - 1) {
            assert(assigned_depth(s, n - 1) == max_assigned_depth(s, n));
        } else {
            let k = choose|k: int|
                0 <= k < n - 1 && #[trigger] assigned_depth(s, k) == max_assigned_depth(s, n - 1);
            assert(assigned_depth(s, k) == max_assigned_depth(s, n));
        }
    }
}

/// Whether all bracket parts of a multi-line annotation stand in the output:
/// its start part on its first line, a pass-through marker on each interior
/// line the truncation policy keeps, and its end part on its last line.
pub open spec fn mlp_parts_in(rv: Seq<FileAnnView>, f: int, ml: MlView) -> bool {
    &&& ann_in(rv, f, ml.line_start, spec_as_start(ml))
    &&& ann_in(rv, f, ml.line_end, spec_as_end(ml))
    &&& forall|l: int|
        interior_marked(ml.line_start, ml.line_end, l) ==> #[trigger] ann_in(
            rv,
            f,
            l,
            spec_as_line(ml),
        )
}

/// Whether all bracket parts of a resolvable multi-line label stand in the
/// output at depth slot `d`.
pub open spec fn ml_parts_in(rv: Seq<FileAnnView>, sl: SpanLabelView, d: int) -> bool {
    mlp_parts_in(rv, sl.span.file as int, spec_ml_of(sl, d))
}

/// A sorted list of consistent entries is well formed and starts at depth 1.
proof fn lemma_sort_bridges(es: Seq<(usize, MultilineAnnotation)>, fv: Seq<SourceFileView>)
    requires
        forall|k: int| 0 <= k < es.len() ==> ml_ok(#[trigger] mlps_view(es)[k], fv),
    ensures
        forall|k: int|
            0 <= k < es.len() ==> ml_wf(#[trigger] mls_view(es)[k]) && mls_view(es)[k].depth == 1,
        forall|k: int| 0 <= k < es.len() ==> (#[trigger] es[k]).1@.depth == 1,
{
    assert forall|k: int|
        0 <= k < es.len() implies ml_wf(#[trigger] mls_view(es)[k]) && mls_view(es)[k].depth
        == 1 by {
        assert(ml_ok(mlps_view(es)[k], fv));
        assert(mlps_view(es)[k].1 == mls_view(es)[k]);
    }
    assert forall|k: int| 0 <= k < es.len() implies (#[trigger] es[k]).1@.depth == 1 by {
        assert(mls_view(es)[k] == es[k].1@);
        assert(ml_ok(mlps_view(es)[k], fv));
    }
}

/// After depth assignment, each entry keeps its fields at its new depth and
/// is still consistent at depth 1.
proof fn lemma_assign_bridges(
    pre: Seq<(usize, MultilineAnnotation)>,
    post: Seq<(usize, MultilineAnnotation)>,
    s_sorted: Seq<MlView>,
    fv: Seq<SourceFileView>,
)
    requires
        s_sorted == mls_view(pre),
        forall|k: int| 0 <= k < pre.len() ==> ml_ok(#[trigger] mlps_view(pre)[k], fv),
        forall|k: int| 0 <= k < pre.len() ==> (#[trigger] pre[k]).1@.depth == 1,
        post.len() == pre.len(),
        forall|k: int|
            0 <= k < post.len() ==> (#[trigger] post[k]).0 == pre[k].0 && post[k].1@ == (MlView {
                depth: assigned_depth(s_sorted, k),
                ..pre[k].1@
            }),
    ensures
        forall|k: int|
            0 <= k < post.len() ==> ml_ok(
                ((#[trigger] post[k]).0 as int, MlView { depth: 1, ..post[k].1@ }),
                fv,
            ),
{
    assert forall|k: int|
        0 <= k < post.len() implies ml_ok(
        ((#[trigger] post[k]).0 as int, MlView { depth: 1, ..post[k].1@ }),
        fv,
    ) by {
        assert(ml_ok(mlps_view(pre)[k], fv));
        assert((MlView { depth: 1, ..post[k].1@ }) == pre[k].1@);
        assert(mlps_view(pre)[k] == (pre[k].0 as int, pre[k].1@));
    }
}

/// After sorting and depth assignment, each deferred label's annotation
/// sits somewhere in the working list, at its assigned depth slot.
proof fn lemma_labels_find_entries(
    sv: Seq<SpanLabelView>,
    fv: Seq<SourceFileView>,
    mls0: Seq<(int, MlView)>,
    pre_assign: Seq<(usize, MultilineAnnotation)>,
    post: Seq<(usize, MultilineAnnotation)>,
    s_sorted: Seq<MlView>,
)
    requires
        forall|i2: int|
            0 <= i2 < sv.len() && span_resolvable(#[trigger] sv[i2].span, fv) && !is_single_line(
                sv[i2].span,
            ) ==> mls0.contains((sv[i2].span.file as int, spec_ml_of(sv[i2], 1))),
        mlps_view(pre_assign).to_multiset() == mls0.to_multiset(),
        s_sorted == mls_view(pre_assign),
        post.len() == pre_assign.len(),
        forall|k: int|
            0 <= k < post.len() ==> (#[trigger] post[k]).0 == pre_assign[k].0 && post[k].1@ == (
            MlView { depth: assigned_depth(s_sorted, k), ..pre_assign[k].1@ }),
    ensures
        forall|i2: int|
            0 <= i2 < sv.len() && span_resolvable(#[trigger] sv[i2].span, fv) && !is_single_line(
                sv[i2].span,
            ) ==> exists|ix: int|
                0 <= ix < post.len() && (#[trigger] post[ix]).0 as int == sv[i2].span.file as int
                    && post[ix].1@ == spec_ml_of(sv[i2], post[ix].1@.depth) && 1
                    <= post[ix].1@.depth,
{
    broadcast use vstd::seq_lib::group_to_multiset_ensures;

    assert forall|i2: int|
        0 <= i2 < sv.len() && span_resolvable(#[trigger] sv[i2].span, fv) && !is_single_line(
            sv[i2].span,
        ) implies exists|ix: int|
        0 <= ix < post.len() && (#[trigger] post[ix]).0 as int == sv[i2].span.file as int
            && post[ix].1@ == spec_ml_of(sv[i2], post[ix].1@.depth) && 1 <= post[ix].1@.depth by {
        let pr = (sv[i2].span.file as int, spec_ml_of(sv[i2], 1));
        assert(mls0.contains(pr));
        assert(mls0.to_multiset().count(pr) > 0);
        assert(mlps_view(pre_assign).to_multiset().count(pr) > 0);
        assert(mlps_view(pre_assign).contains(pr));
        let ix = choose|ix: int|
            0 <= ix < mlps_view(pre_assign).len() && mlps_view(pre_assign)[ix] == pr;
        assert(pre_assign[ix].0 as int == pr.0);
        assert(pre_assign[ix].1@ == spec_ml_of(sv[i2], 1));
        assert(post[ix].1@ == (MlView { depth: assigned_depth(s_sorted, ix), ..pre_assign[ix].1@ }));
        lemma_assigned_depth_bounds(s_sorted, ix);
        assert(post[ix].1@ == spec_ml_of(sv[i2], post[ix].1@.depth));
    }
}

/// Every label whose annotation sits in the final list keeps all its bracket
/// parts at the depth slot that entry carries.
proof fn lemma_final_parts(
    sv: Seq<SpanLabelView>,
    fv: Seq<SourceFileView>,
    sorted: Seq<(usize, MultilineAnnotation)>,
    snap3: Seq<FileAnnView>,
    rv: Seq<FileAnnView>,
)
    requires
        forall|i2: int|
            0 <= i2 < sv.len() && span_resolvable(#[trigger] sv[i2].span, fv) && !is_single_line(
                sv[i2].span,
            ) ==> exists|ix: int|
                0 <= ix < sorted.len() && (#[trigger] sorted[ix]).0 as int
                    == sv[i2].span.file as int && sorted[ix].1@ == spec_ml_of(
                    sv[i2],
                    sorted[ix].1@.depth,
                ) && 1 <= sorted[ix].1@.depth,
        forall|k2: int|
            0 <= k2 < sorted.len() ==> mlp_parts_in(
                snap3,
                (#[trigger] sorted[k2]).0 as int,
                sorted[k2].1@,
            ),
        forall|f2: int, l2: int, a2: AnnView|
            ann_in(snap3, f2, l2, a2) ==> #[trigger] ann_in(rv, f2, l2, a2),
    ensures
        forall|i2: int|
            0 <= i2 < sv.len() && span_resolvable(#[trigger] sv[i2].span, fv) && !is_single_line(
                sv[i2].span,
            ) ==> exists|d: int| 1 <= d && #[trigger] ml_parts_in(rv, sv[i2], d),
{
    assert forall|i2: int|
        0 <= i2 < sv.len() && span_resolvable(#[trigger] sv[i2].span, fv) && !is_single_line(
            sv[i2].span,
        ) implies exists|d: int| 1 <= d && #[trigger] ml_parts_in(rv, sv[i2], d) by {
        let ix = choose|ix: int|
            0 <= ix < sorted.len() && (#[trigger] sorted[ix]).0 as int == sv[i2].span.file as int
                && sorted[ix].1@ == spec_ml_of(sv[i2], sorted[ix].1@.depth) && 1
                <= sorted[ix].1@.depth;
        assert(mlp_parts_in(snap3, sorted[ix].0 as int, sorted[ix].1@));
        lemma_parts_in_preserved(snap3, rv, sorted[ix].0 as int, sorted[ix].1@);
        let d = sorted[ix].1@.depth;
        assert(ml_parts_in(rv, sv[i2], d));
    }
}

/// Bracket parts survive any step that keeps every attached annotation.
pub proof fn lemma_parts_in_preserved(
    r0: Seq<FileAnnView>,
    r1: Seq<FileAnnView>,
    f: int,
    ml: MlView,
)
    requires
        mlp_parts_in(r0, f, ml),
        forall|f2: int, l2: int, a2: AnnView| ann_in(r0, f2, l2, a2) ==> ann_in(r1, f2, l2, a2),
    ensures
        mlp_parts_in(r1, f, ml),
{
    assert(ann_in(r0, f, ml.line_start, spec_as_start(ml)));
    assert(ann_in(r0, f, ml.line_end, spec_as_end(ml)));
    assert forall|l: int| interior_marked(ml.line_start, ml.line_end, l) implies #[trigger] ann_in(
        r1,
        f,
        l,
        spec_as_line(ml),
    ) by {
        assert(ann_in(r0, f, l, spec_as_line(ml)));
    }
}

/// Whether a deferred multi-line annotation entry is consistent with the
/// source list: a proper annotation, with depth slot 1, inside its file.
pub open spec fn ml_ok(p: (int, MlView), files: Seq<SourceFileView>) -> bool {
    &&& 0 <= p.0 < files.len()
    &&& ml_wf(p.1)
    &&& p.1.depth == 1
    &&& p.1.line_end < files[p.0].lines.len()
}

/// A property shared by every element survives a permutation.
proof fn lemma_perm_preserves_ml_ok(
    s1: Seq<(int, MlView)>,
    s2: Seq<(int, MlView)>,
    files: Seq<SourceFileView>,
)
    requires
        s1.to_multiset() == s2.to_multiset(),
        forall|k: int| 0 <= k < s1.len() ==> ml_ok(#[trigger] s1[k], files),
    ensures
        forall|k: int| 0 <= k < s2.len() ==> ml_ok(#[trigger] s2[k], files),
{
    broadcast use vstd::seq_lib::group_to_multiset_ensures;

    assert forall|k: int| 0 <= k < s2.len() implies ml_ok(#[trigger] s2[k], files) by {
        assert(s2.contains(s2[k]));
        assert(s2.to_multiset().count(s2[k]) > 0);
        assert(s1.to_multiset().count(s2[k]) > 0);
        assert(s1.contains(s2[k]));
        let j = choose|j: int| 0 <= j < s1.len() && s1[j] == s2[k];
        assert(ml_ok(s1[j], files));
    }
}

/// The maximum assigned depth over `n` entries is between 0 and `n`.
proof fn lemma_max_assigned_bound(s: Seq<MlView>, n: int)
    requires
        0 <= n,
    ensures
        0 <= max_assigned_depth(s, n) <= n,
    decreases n,
{
    if n > 0 {
        lemma_max_assigned_bound(s, n - 1);
        lemma_assigned_depth_bounds(s, n - 1);
    }
}

/// Every assigned depth is at most the maximum over the whole list.
proof fn lemma_max_assigned_ge(s: Seq<MlView>, k: int, n: int)
    requires
        0 <= k < n,
    ensures
        assigned_depth(s, k) <= max_assigned_depth(s, n),
    decreases n,
{
    if k < n - 1 {
        lemma_max_assigned_ge(s, k, n - 1);
    }
}

/// Well-formedness is monotone in the depth bound.
proof fn lemma_files_wf_mono(
    r: Seq<FileAnnView>,
    files: Seq<SourceFileView>,
    m1: int,
    m2: int,
)
    requires
        files_wf(r, files, m1),
        m1 <= m2,
    ensures
        files_wf(r, files, m2),
{
    assert forall|k: int| 0 <= k < r.len() implies file_entry_wf(#[trigger] r[k], files, m2) by {
        assert(file_entry_wf(r[k], files, m1));
        assert forall|li: int|
            0 <= li < r[k].lines.len() implies line_wf(
            #[trigger] r[k].lines[li],
            files[r[k].file].lines.len() as int,
            m2,
        ) by {
            assert(line_wf(r[k].lines[li], files[r[k].file].lines.len() as int, m1));
            assert forall|a: int|
                0 <= a < r[k].lines[li].annotations.len() implies ann_wf(
                #[trigger] r[k].lines[li].annotations[a],
                m2,
            ) by {
                assert(ann_wf(r[k].lines[li].annotations[a], m1));
            }
        }
    }
}

/// The number of lines of file `f` in the source list.
fn file_nlines(files: &Vec<SourceFile>, f: usize) -> (n: usize)
    requires
        (f as int) < files@.len(),
    ensures
        n as int == sf_views(files@)[f as int].lines.len(),
{
    let fr = vstd::std_specs::vec::vec_index(files, f);
    proof {
        assert(sf_views(files@)[f as int] == fr@);
    }
    fr.lines.len()
}

/// Convert an optional label to its character form.
fn label_chars(label: &Option<String>) -> (r: Option<Vec<char>>)
    ensures
        crate::snippet::label_view(r) == match *label {
            Some(l) => Some(l@),
            None => None,
        },
{
    match label {
        Some(st) => Some(crate::text::str_to_chars(st.as_str())),
        None => None,
    }
}

/// Group a diagnostic's resolved spans by file and line: single-line spans
/// become inline annotations on their line; multi-line spans are sorted,
/// assigned nesting depths, and expanded into bracket parts (a start line, up
/// to a few interior marker lines to bound the output, and an end line). The
/// largest depth in use is stored on every file entry so all files of the
/// diagnostic share one margin width.
#[verifier::rlimit(100)]
#[verifier::spinoff_prover]
pub fn preprocess_annotations(files: &Vec<SourceFile>, spans: &Vec<SpanLabel>) -> (r: Vec<
    FileWithAnnotatedLines,
>)
    requires
        crate::files_within_limits(sf_views(files@)),
        crate::spans_within_limits(sl_views(spans@)),
    ensures
        exists|md: int|
            0 <= md < SPAN_LIMIT && #[trigger] files_wf(fav_view(r@), sf_views(files@), md)
                && (forall|k: int| 0 <= k < r@.len() ==> (#[trigger] fav_view(r@)[k]).multiline_depth == md)
                && (md > 0 ==> exists|f: int, l: int, a: AnnView|
                #[trigger] ann_in(fav_view(r@), f, l, a) && a.kind
                    == AnnotationType::MultilineStart(md as usize)),
        all_counts_le(fav_view(r@), LINE_ANNS_LIMIT as int),
        total_lines(fav_view(r@)) <= 7 * SPAN_LIMIT as int,
        forall|i: int|
            0 <= i < spans@.len() && span_resolvable(#[trigger] sl_views(spans@)[i].span, sf_views(files@))
                && is_single_line(sl_views(spans@)[i].span) ==> ann_in(
                fav_view(r@),
                sl_views(spans@)[i].span.file as int,
                sl_views(spans@)[i].span.begin.line as int,
                spec_single_ann(sl_views(spans@)[i]),
            ),
        forall|i: int|
            0 <= i < spans@.len() && span_resolvable(#[trigger] sl_views(spans@)[i].span, sf_views(files@))
                && !is_single_line(sl_views(spans@)[i].span) ==> exists|d: int|
                1 <= d && #[trigger] ml_parts_in(fav_view(r@), sl_views(spans@)[i], d),
{
    let ghost fv = sf_views(files@);
    let ghost sv = sl_views(spans@);
    let nspans = spans.len();
    let mut output: Vec<FileWithAnnotatedLines> = Vec::new();
    let mut mls: Vec<(usize, MultilineAnnotation)> = Vec::new();

    let mut i: usize = 0;
    while i < nspans
        invariant
            i <= nspans,
            nspans == spans@.len(),
            fv == sf_views(files@),
            sv == sl_views(spans@),
            crate::files_within_limits(fv),
            crate::spans_within_limits(sv),
            files_wf(fav_view(output@), fv, 0),
            all_counts_le(fav_view(output@), i as int),
            total_lines(fav_view(output@)) <= i as int,
            mls@.len() <= i,
            forall|k: int| 0 <= k < mls@.len() ==> ml_ok(#[trigger] mlps_view(mls@)[k], fv),
            forall|i2: int|
                0 <= i2 < i && span_resolvable(#[trigger] sv[i2].span, fv) && !is_single_line(
                    sv[i2].span,
                ) ==> mlps_view(mls@).contains(
                    (sv[i2].span.file as int, spec_ml_of(sv[i2], 1)),
                ),
            forall|i2: int|
                0 <= i2 < i && span_resolvable(#[trigger] sv[i2].span, fv) && is_single_line(
                    sv[i2].span,
                ) ==> ann_in(
                    fav_view(output@),
                    sv[i2].span.file as int,
                    sv[i2].span.begin.line as int,
                    spec_single_ann(sv[i2]),
                ),
        decreases nspans - i,
    {
        let sl = vstd::std_specs::vec::vec_index(spans, i);
        proof {
            assert(sv[i as int] == sl@);
        }
        let sp: Span = sl.span;
        let resolvable = sp.file < files.len() && sp.begin.line <= sp.end.line && sp.end.line
            < file_nlines(files, sp.file) && (sp.begin.line != sp.end.line || sp.begin.column
            <= sp.end.column);
        if resolvable {
            let is_primary = match sl.style {
                SpanStyle::Primary => true,
                SpanStyle::Secondary => false,
            };
            let label = label_chars(&sl.label);
            if sp.begin.line == sp.end.line {
                // Degenerate zero-width spans are widened by one column so
                // at least one column is always underlined.
                let end_col = if sp.begin.line == sp.end.line && sp.begin.column == sp.end.column {
                    sp.end.column + 1
                } else {
                    sp.end.column
                };
                let ann = Annotation {
                    start_col: sp.begin.column,
                    end_col,
                    is_primary,
                    label,
                    annotation_type: AnnotationType::Singleline,
                };
                proof {
                    assert(ann@ == spec_single_ann(sv[i as int]));
                    assert(ann_wf(ann@, 0));
                }
                add_annotation_to_file(
                    &mut output,
                    sp.file,
                    sp.begin.line,
                    ann,
                    Ghost(fv),
                    Ghost(0),
                );
            } else {
                let ml = MultilineAnnotation {
                    depth: 1,
                    line_start: sp.begin.line,
                    line_end: sp.end.line,
                    start_col: sp.begin.column,
                    end_col: sp.end.column,
                    is_primary,
                    label,
                };
                let ghost mpre = mls@;
                let ghost mlg = ml;
                mls.push((sp.file, ml));
                proof {
                    assert(mlps_view(mls@) =~= mlps_view(mpre).push(mlp_view((sp.file, mlg))));
                    assert(mlg@ == spec_ml_of(sv[i as int], 1));
                    assert(mlps_view(mls@).last() == (sp.file as int, spec_ml_of(sv[i as int], 1)));
                    assert(mlps_view(mls@).contains(
                        (sp.file as int, spec_ml_of(sv[i as int], 1)),
                    ));
                    assert(forall|k: int|
                        0 <= k < mlps_view(mpre).len() ==> #[trigger] mlps_view(mls@)[k]
                            == mlps_view(mpre)[k]);
                    assert forall|i2: int|
                        0 <= i2 < i && span_resolvable(#[trigger] sv[i2].span, fv)
                            && !is_single_line(sv[i2].span) implies mlps_view(mls@).contains(
                        (sv[i2].span.file as int, spec_ml_of(sv[i2], 1)),
                    ) by {
                        let pr = (sv[i2].span.file as int, spec_ml_of(sv[i2], 1));
                        assert(mlps_view(mpre).contains(pr));
                        let j = choose|j: int|
                            0 <= j < mlps_view(mpre).len() && mlps_view(mpre)[j] == pr;
                        assert(mlps_view(mls@)[j] == pr);
                    }
                }
            }
        }
        i = i + 1;
    }

    // Sort the deferred multi-line annotations and give overlapping ones
    // distinct depth slots.
    let ghost mls0 = mlps_view(mls@);
    let mut sorted = sort_mls(mls);
    proof {
        lemma_perm_preserves_ml_ok(mls0, mlps_view(sorted@), fv);
        lemma_sort_bridges(sorted@, fv);
        assert(forall|k: int|
            0 <= k < sorted@.len() ==> ml_wf(#[trigger] mls_view(sorted@)[k]));
    }
    let ghost pre_assign = sorted@;
    let ghost s_sorted = mls_view(sorted@);
    let max_depth = assign_depths(&mut sorted);
    let nml = sorted.len();
    proof {
        // Each deferred label's annotation now sits in the sorted list at
        // its assigned depth.
        lemma_labels_find_entries(sv, fv, mls0, pre_assign, sorted@, s_sorted);
        lemma_files_wf_mono(fav_view(output@), fv, 0, max_depth as int);
        lemma_max_assigned_bound(s_sorted, nml as int);
        lemma_assign_bridges(pre_assign, sorted@, s_sorted, fv);
        assert forall|k: int|
            0 <= k < nml implies (#[trigger] pre_assign[k]).0 == sorted@[k].0 && pre_assign[k].1@
            == (MlView { depth: 1, ..sorted@[k].1@ }) by {
            assert(ml_ok(mlps_view(pre_assign)[k], fv));
            assert(sorted@[k].1@ == (MlView {
                depth: assigned_depth(s_sorted, k),
                ..pre_assign[k].1@
            }));
        }
    }

    // Expand each multi-line annotation into its per-line bracket parts.
    let mut idx: usize = 0;
    while idx < nml
        invariant
            idx <= nml,
            nml == sorted@.len(),
            nml < SPAN_LIMIT,
            fv == sf_views(files@),
            sv == sl_views(spans@),
            crate::files_within_limits(fv),
            max_depth as int == max_assigned_depth(s_sorted, nml as int),
            0 <= max_depth < SPAN_LIMIT,
            forall|k: int|
                0 <= k < nml ==> ml_ok(
                    (
                        (#[trigger] sorted@[k]).0 as int,
                        MlView { depth: 1, ..sorted@[k].1@ },
                    ),
                    fv,
                ),
            forall|k: int|
                0 <= k < nml ==> (#[trigger] sorted@[k]).1@.depth == assigned_depth(s_sorted, k),
            forall|k2: int|
                0 <= k2 < idx ==> mlp_parts_in(
                    fav_view(output@),
                    (#[trigger] sorted@[k2]).0 as int,
                    sorted@[k2].1@,
                ),
            files_wf(fav_view(output@), fv, max_depth as int),
            all_counts_le(fav_view(output@), nspans + 6 * idx),
            total_lines(fav_view(output@)) <= nspans + 6 * idx,
            nspans < SPAN_LIMIT,
            forall|i2: int|
                0 <= i2 < nspans && span_resolvable(#[trigger] sv[i2].span, fv) && is_single_line(
                    sv[i2].span,
                ) ==> ann_in(
                    fav_view(output@),
                    sv[i2].span.file as int,
                    sv[i2].span.begin.line as int,
                    spec_single_ann(sv[i2]),
                ),
        decreases nml - idx,
    {
        let e = vstd::std_specs::vec::vec_index(&sorted, idx);
        let file = e.0;
        let line_start = e.1.line_start;
        let line_end = e.1.line_end;
        let ghost mlv = sorted@[idx as int].1@;
        proof {
            lemma_assigned_depth_bounds(s_sorted, idx as int);
            lemma_max_assigned_ge(s_sorted, idx as int, nml as int);
            assert(ml_ok((sorted@[idx as int].0 as int, MlView { depth: 1, ..sorted@[idx as int].1@ }), fv));
        }
        let ghost fav_pre = fav_view(output@);
        let start_ann = e.1.as_start();
        add_annotation_to_file(&mut output, file, line_start, start_ann, Ghost(fv), Ghost(max_depth as int));
        proof {
            assert(ann_in(fav_view(output@), file as int, line_start as int, spec_as_start(mlv)));
            assert forall|k2: int|
                0 <= k2 < idx implies mlp_parts_in(
                fav_view(output@),
                (#[trigger] sorted@[k2]).0 as int,
                sorted@[k2].1@,
            ) by {
                lemma_parts_in_preserved(
                    fav_pre,
                    fav_view(output@),
                    sorted@[k2].0 as int,
                    sorted@[k2].1@,
                );
            }
        }

        // Interior lines: only the first few, and for longer spans the last
        // one, so very long brackets stay readable.
        let middle = if line_start + 4 < line_end {
            line_start + 4
        } else {
            line_end
        };
        let mut line = line_start + 1;
        while line < middle
            invariant
                line_start < line,
                line <= middle,
                middle <= line_end,
                middle <= line_start + 4,
                idx < nml,
                nml == sorted@.len(),
                fv == sf_views(files@),
                sv == sl_views(spans@),
                crate::files_within_limits(fv),
                (file as int) < fv.len(),
                (line_end as int) < fv[file as int].lines.len(),
                file == sorted@[idx as int].0,
                0 <= max_depth < SPAN_LIMIT,
                1 <= sorted@[idx as int].1@.depth <= max_depth,
                sorted@[idx as int].1@.line_start == line_start,
                sorted@[idx as int].1@.line_end == line_end,
                mlv == sorted@[idx as int].1@,
                ann_in(fav_view(output@), file as int, line_start as int, spec_as_start(mlv)),
                forall|l: int|
                    line_start + 1 <= l < line ==> #[trigger] ann_in(
                        fav_view(output@),
                        file as int,
                        l,
                        spec_as_line(mlv),
                    ),
                forall|k2: int|
                    0 <= k2 < idx ==> mlp_parts_in(
                        fav_view(output@),
                        (#[trigger] sorted@[k2]).0 as int,
                        sorted@[k2].1@,
                    ),
                files_wf(fav_view(output@), fv, max_depth as int),
                all_counts_le(fav_view(output@), nspans + 6 * idx + 1 + (line - line_start - 1)),
                total_lines(fav_view(output@)) <= nspans + 6 * idx + 1 + (line - line_start - 1),
                nspans < SPAN_LIMIT,
                forall|i2: int|
                    0 <= i2 < nspans && span_resolvable(#[trigger] sv[i2].span, fv)
                        && is_single_line(sv[i2].span) ==> ann_in(
                        fav_view(output@),
                        sv[i2].span.file as int,
                        sv[i2].span.begin.line as int,
                        spec_single_ann(sv[i2]),
                    ),
            decreases middle - line,
        {
            let ghost fav_b = fav_view(output@);
            let e2 = vstd::std_specs::vec::vec_index(&sorted, idx);
            let line_ann = e2.1.as_line();
            add_annotation_to_file(&mut output, file, line, line_ann, Ghost(fv), Ghost(max_depth as int));
            proof {
                assert(ann_in(fav_view(output@), file as int, line as int, spec_as_line(mlv)));
                assert forall|k2: int|
                    0 <= k2 < idx implies mlp_parts_in(
                    fav_view(output@),
                    (#[trigger] sorted@[k2]).0 as int,
                    sorted@[k2].1@,
                ) by {
                    lemma_parts_in_preserved(
                        fav_b,
                        fav_view(output@),
                        sorted@[k2].0 as int,
                        sorted@[k2].1@,
                    );
                }
            }
            line = line + 1;
        }
        if middle < line_end - 1 {
            let ghost fav_c = fav_view(output@);
            let e2 = vstd::std_specs::vec::vec_index(&sorted, idx);
            let line_ann = e2.1.as_line();
            add_annotation_to_file(&mut output, file, line_end - 1, line_ann, Ghost(fv), Ghost(max_depth as int));
            proof {
                assert(ann_in(
                    fav_view(output@),
                    file as int,
                    line_end - 1,
                    spec_as_line(mlv),
                ));
                assert forall|k2: int|
                    0 <= k2 < idx implies mlp_parts_in(
                    fav_view(output@),
                    (#[trigger] sorted@[k2]).0 as int,
                    sorted@[k2].1@,
                ) by {
                    lemma_parts_in_preserved(
                        fav_c,
                        fav_view(output@),
                        sorted@[k2].0 as int,
                        sorted@[k2].1@,
                    );
                }
            }
        }
        let ghost fav_d = fav_view(output@);
        let e3 = vstd::std_specs::vec::vec_index(&sorted, idx);
        let end_ann = e3.1.as_end();
        add_annotation_to_file(&mut output, file, line_end, end_ann, Ghost(fv), Ghost(max_depth as int));
        proof {
            assert(all_counts_le(fav_view(output@), nspans + 6 * (idx + 1)));
            assert(ann_in(fav_view(output@), file as int, line_end as int, spec_as_end(mlv)));
            assert forall|k2: int|
                0 <= k2 < idx + 1 implies mlp_parts_in(
                fav_view(output@),
                (#[trigger] sorted@[k2]).0 as int,
                sorted@[k2].1@,
            ) by {
                if k2 < idx {
                    lemma_parts_in_preserved(
                        fav_d,
                        fav_view(output@),
                        sorted@[k2].0 as int,
                        sorted@[k2].1@,
                    );
                } else {
                    assert(mlv.line_start == line_start as int);
                    assert(mlv.line_end == line_end as int);
                    assert forall|l: int|
                        interior_marked(mlv.line_start, mlv.line_end, l) implies #[trigger] ann_in(
                        fav_view(output@),
                        file as int,
                        l,
                        spec_as_line(mlv),
                    ) by {
                        if line_start + 1 <= l < middle as int {
                            assert(ann_in(fav_d, file as int, l, spec_as_line(mlv)));
                        } else {
                            assert(l == line_end - 1);
                            assert(ann_in(fav_d, file as int, l, spec_as_line(mlv)));
                        }
                    }
                }
            }
        }
        idx = idx + 1;
    }

    // Store the shared margin depth on every file entry.
    let ghost snap3 = fav_view(output@);
    let nout = output.len();
    let mut k: usize = 0;
    while k < nout
        invariant
            k <= nout,
            nout == output@.len(),
            fv == sf_views(files@),
            sv == sl_views(spans@),
            0 <= max_depth < SPAN_LIMIT,
            nml == sorted@.len(),
            max_depth as int == max_assigned_depth(s_sorted, nml as int),
            forall|k2: int|
                0 <= k2 < nml ==> (#[trigger] sorted@[k2]).1@.depth == assigned_depth(
                    s_sorted,
                    k2,
                ),
            forall|k2: int|
                0 <= k2 < nml ==> mlp_parts_in(
                    snap3,
                    (#[trigger] sorted@[k2]).0 as int,
                    sorted@[k2].1@,
                ),
            forall|i2: int|
                0 <= i2 < nspans && span_resolvable(#[trigger] sv[i2].span, fv)
                    && !is_single_line(sv[i2].span) ==> exists|ix: int|
                    0 <= ix < nml && (#[trigger] sorted@[ix]).0 as int == sv[i2].span.file as int
                        && sorted@[ix].1@ == spec_ml_of(sv[i2], sorted@[ix].1@.depth) && 1
                        <= sorted@[ix].1@.depth,
            forall|f2: int, l2: int, a2: AnnView|
                ann_in(snap3, f2, l2, a2) ==> #[trigger] ann_in(fav_view(output@), f2, l2, a2),
            files_wf(fav_view(output@), fv, max_depth as int),
            all_counts_le(fav_view(output@), LINE_ANNS_LIMIT as int),
            total_lines(fav_view(output@)) <= 7 * SPAN_LIMIT as int,
            forall|k2: int|
                0 <= k2 < k ==> (#[trigger] fav_view(output@)[k2]).multiline_depth
                    == max_depth as int,
            forall|i2: int|
                0 <= i2 < nspans && span_resolvable(#[trigger] sv[i2].span, fv) && is_single_line(
                    sv[i2].span,
                ) ==> ann_in(
                    fav_view(output@),
                    sv[i2].span.file as int,
                    sv[i2].span.begin.line as int,
                    spec_single_ann(sv[i2]),
                ),
        decreases nout - k,
    {
        let ghost r0 = fav_view(output@);
        let ghost vecs0 = output@;
        let entry = output.remove(k);
        let entry2 = FileWithAnnotatedLines { multiline_depth: max_depth, ..entry };
        let ghost e2g = entry2;
        output.insert(k, entry2);
        proof {
            assert(output@ =~= vecs0.update(k as int, e2g));
            let r1 = fav_view(output@);
            assert(r1 =~= r0.update(k as int, e2g@));
            lemma_total_lines_update(r0, k as int, e2g@);
            assert(e2g@.lines.len() == r0[k as int].lines.len());
            assert(r1.len() == r0.len());
            assert(forall|k2: int| 0 <= k2 < r0.len() && k2 != k as int ==> r1[k2] == r0[k2]);
            assert(r1[k as int].lines =~~= r0[k as int].lines);
            assert(r1[k as int].file == r0[k as int].file);
            assert(file_entry_wf(r1[k as int], fv, max_depth as int)) by {
                assert(file_entry_wf(r0[k as int], fv, max_depth as int));
            }
            assert forall|f2: int, l2: int, a2: AnnView|
                ann_in(r0, f2, l2, a2) implies ann_in(r1, f2, l2, a2) by {
                let (k2, li, ai) = choose|k2: int, li: int, ai: int|
                    0 <= k2 < r0.len() && 0 <= li < r0[k2].lines.len() && 0 <= ai
                        < r0[k2].lines[li].annotations.len() && (
                    #[trigger] r0[k2].lines[li].annotations[ai]) == a2 && r0[k2].file == f2
                        && r0[k2].lines[li].line_index == l2;
                assert(r1[k2].lines[li].annotations[ai] == a2);
            }
        }
        k = k + 1;
    }
    proof {
        let rv = fav_view(output@);

        // The shared margin depth is attained by some bracket's start part.
        if max_depth > 0 {
            assert(nml >= 1) by {
                if nml == 0 {
                    assert(max_assigned_depth(s_sorted, 0) == 0);
                }
            }
            lemma_max_assigned_attained(s_sorted, nml as int);
            let kx = choose|kx: int|
                0 <= kx < nml && #[trigger] assigned_depth(s_sorted, kx) == max_assigned_depth(
                    s_sorted,
                    nml as int,
                );
            assert(mlp_parts_in(snap3, sorted@[kx].0 as int, sorted@[kx].1@));
            let mlx = sorted@[kx].1@;
            assert(ann_in(snap3, sorted@[kx].0 as int, mlx.line_start, spec_as_start(mlx)));
            assert(ann_in(rv, sorted@[kx].0 as int, mlx.line_start, spec_as_start(mlx)));
            assert(mlx.depth == max_depth as int);
            assert(spec_as_start(mlx).kind == AnnotationType::MultilineStart(max_depth));
        }

        // Every resolvable multi-line label keeps all its bracket parts, at
        // the one depth slot it was assigned.
        lemma_final_parts(sv, fv, sorted@, snap3, rv);
    }
    output
}


/// The running line totals of prefixes grow entry by entry.
pub proof fn lemma_total_lines_take_succ(r: Seq<FileAnnView>, k: int)
    requires
        0 <= k < r.len(),
    ensures
        total_lines(r.take(k + 1)) == total_lines(r.take(k)) + r[k].lines.len(),
{
    assert(r.take(k + 1).drop_last() =~= r.take(k));
    assert(r.take(k + 1).last() == r[k]);
}

/// Line totals are never negative.
pub proof fn lemma_total_lines_nonneg(r: Seq<FileAnnView>)
    ensures
        total_lines(r) >= 0,
    decreases r.len(),
{
    if r.len() > 0 {
        lemma_total_lines_nonneg(r.drop_last());
    }
}

/// A prefix never holds more lines than the whole.
pub proof fn lemma_total_lines_prefix(r: Seq<FileAnnView>, k: int)
    requires
        0 <= k <= r.len(),
    ensures
        total_lines(r.take(k)) <= total_lines(r),
    decreases r.len() - k,
{
    if k < r.len() {
        lemma_total_lines_take_succ(r, k);
        lemma_total_lines_prefix(r, k + 1);
    } else {
        assert(r.take(k) =~= r);
    }
}

/// Whether a resolved span points into the given sources.
pub fn span_is_resolvable(files: &Vec<SourceFile>, sp: &Span) -> (r: bool)
    ensures
        r == span_resolvable(*sp, sf_views(files@)),
{
    sp.file < files.len() && sp.begin.line <= sp.end.line && sp.end.line < file_nlines(
        files,
        sp.file,
    ) && (sp.begin.line != sp.end.line || sp.begin.column <= sp.end.column)
}


/// Removing an entry takes exactly its lines out of the total.
pub proof fn lemma_total_lines_remove(r: Seq<FileAnnView>, k: int)
    requires
        0 <= k < r.len(),
    ensures
        total_lines(r.remove(k)) == total_lines(r) - r[k].lines.len(),
    decreases r.len(),
{
    if k == r.len() - 1 {
        assert(r.remove(k) =~= r.drop_last());
    } else {
        assert(r.remove(k).drop_last() =~= r.drop_last().remove(k));
        assert(r.remove(k).last() == r.last());
        lemma_total_lines_remove(r.drop_last(), k);
    }
}

/// Inserting an entry at the front adds exactly its lines to the total.
pub proof fn lemma_total_lines_insert0(r: Seq<FileAnnView>, e: FileAnnView)
    ensures
        total_lines(r.insert(0, e)) == total_lines(r) + e.lines.len(),
    decreases r.len(),
{
    if r.len() == 0 {
        assert(r.insert(0, e) =~= seq![e]);
        assert(total_lines(seq![e]) == total_lines(seq![e].drop_last()) + e.lines.len());
        assert(seq![e].drop_last() =~= Seq::<FileAnnView>::empty());
        assert(total_lines(Seq::<FileAnnView>::empty()) == 0);
    } else {
        assert(r.insert(0, e).drop_last() =~= r.drop_last().insert(0, e));
        assert(r.insert(0, e).last() == r.last());
        lemma_total_lines_insert0(r.drop_last(), e);
    }
}

/// Move the entry at `pos` to the front, keeping everything else in order.
/// Well-formedness, the shared margin depth, and the line total carry over.
pub fn move_entry_front(
    v: &mut Vec<FileWithAnnotatedLines>,
    pos: usize,
    Ghost(files): Ghost<Seq<SourceFileView>>,
    Ghost(maxd): Ghost<int>,
)
    requires
        pos < old(v)@.len(),
        files_wf(fav_view(old(v)@), files, maxd),
    ensures
        final(v)@.len() == old(v)@.len(),
        fav_view(final(v)@)[0] == fav_view(old(v)@)[pos as int],
        forall|j: int|
            0 < j <= pos ==> #[trigger] fav_view(final(v)@)[j] == fav_view(old(v)@)[j - 1],
        forall|j: int|
            pos < j < old(v)@.len() ==> #[trigger] fav_view(final(v)@)[j] == fav_view(old(v)@)[j],
        files_wf(fav_view(final(v)@), files, maxd),
        total_lines(fav_view(final(v)@)) == total_lines(fav_view(old(v)@)),
    decreases pos,
{
    let ghost r0 = fav_view(v@);
    let ghost vecs0 = v@;
    let item = v.remove(pos);
    let ghost itemg = item;
    v.insert(0, item);
    proof {
        assert(v@ =~= vecs0.remove(pos as int).insert(0, itemg));
        let r1 = fav_view(v@);
        assert(r1 =~= r0.remove(pos as int).insert(0, r0[pos as int])) by {
            assert forall|j: int| 0 <= j < r1.len() implies r1[j] == r0.remove(
                pos as int,
            ).insert(0, r0[pos as int])[j] by {
                if j == 0 {
                } else if j <= pos as int {
                    assert(v@[j] == vecs0[j - 1]);
                } else {
                    assert(v@[j] == vecs0[j]);
                }
            }
        }
        lemma_total_lines_remove(r0, pos as int);
        lemma_total_lines_insert0(r0.remove(pos as int), r0[pos as int]);
        assert forall|j: int| 0 <= j < r1.len() implies file_entry_wf(
            #[trigger] r1[j],
            files,
            maxd,
        ) by {
            if j == 0 {
                assert(r1[0] == r0[pos as int]);
            } else if j <= pos as int {
                assert(r1[j] == r0[j - 1]);
            } else {
                assert(r1[j] == r0[j]);
            }
        }
        assert forall|k1: int, k2: int|
            0 <= k1 < k2 < r1.len() implies (#[trigger] r1[k1]).file != (
        #[trigger] r1[k2]).file by {
            let i1 = if k1 == 0 {
                pos as int
            } else if k1 <= pos as int {
                k1 - 1
            } else {
                k1
            };
            let i2 = if k2 == 0 {
                pos as int
            } else if k2 <= pos as int {
                k2 - 1
            } else {
                k2
            };
            assert(r1[k1] == r0[i1]);
            assert(r1[k2] == r0[i2]);
            if i1 < i2 {
                assert(r0[i1].file != r0[i2].file);
            } else if i2 < i1 {
                assert(r0[i2].file != r0[i1].file);
            }
        }
    }
}

} // verus!
