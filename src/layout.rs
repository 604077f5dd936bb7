use vstd::prelude::*;

use crate::font::{covers, Font};
use crate::style::{needs_bold, needs_slant, synthetic_bold, synthetic_slant, FontStyle};

verus! {

/// One run of the bidi/script report: a range of the buffer with one
/// embedding level and one script.
#[derive(Debug, Clone, Copy, PartialEq, Eq, Structural)]
pub struct SubsetTextRun {
    pub offset: usize,
    pub length: usize,
    pub bidi_level: u8,
    pub script: u32,
}

/// What decides where a run ends: the requested style and the font picked
/// for a codepoint.
#[derive(Debug, Clone, Copy, PartialEq, Eq, Structural)]
pub struct RunKey {
    pub style: FontStyle,
    pub font_index: usize,
}

/// `segs` splits `start..end` into maximal ranges of equal keys, left to
/// right: each segment is `(offset, len, key)`.
pub open spec fn is_split(
    keys: Seq<RunKey>,
    start: int,
    end: int,
    segs: Seq<(usize, usize, RunKey)>,
) -> bool {
    &&& (segs.len() == 0 <==> start == end)
    &&& segs.len() > 0 ==> segs[0].0 == start && segs.last().0 + segs.last().1 == end
    &&& forall|j: int|
        0 <= j < segs.len() ==> start <= (#[trigger] segs[j]).0 && segs[j].0 + segs[j].1 <= end
    &&& forall|j: int| 0 < j < segs.len() ==> segs[j - 1].0 + segs[j - 1].1 == #[trigger] segs[j].0
    &&& forall|j: int| 0 <= j < segs.len() ==> (#[trigger] segs[j]).1 > 0
    &&& forall|j: int, p: int|
        0 <= j < segs.len() && segs[j].0 <= p < segs[j].0 + segs[j].1 ==> #[trigger] keys[p]
            == (#[trigger] segs[j]).2
    &&& forall|j: int| 0 < j < segs.len() ==> segs[j - 1].2 != (#[trigger] segs[j]).2
}

/// Splits `offset..offset + len` of `keys` into maximal ranges of equal keys.
pub fn split_run(keys: &[RunKey], offset: usize, len: usize) -> (r: Vec<(usize, usize, RunKey)>)
    requires
        offset + len <= keys@.len(),
    ensures
        is_split(keys@, offset as int, offset + len, r@),
{
    let mut r: Vec<(usize, usize, RunKey)> = Vec::new();
    if len == 0 {
        return r;
    }
    let n = keys.len();
    let end = offset + len;
    let mut start = offset;
    let mut cur = keys[offset];
    let mut i = offset + 1;
    while i < end
        invariant
            end == offset + len,
            end <= keys@.len(),
            offset <= start < i <= end,
            cur == keys@[start as int],
            forall|p: int| start <= p < i ==> keys@[p] == cur,
            is_split(keys@, offset as int, start as int, r@),
            r@.len() > 0 ==> r@.last().2 != cur,
        decreases end - i,
    {
        let k = keys[i];
        if k != cur {
            r.push((start, i - start, cur));
            start = i;
            cur = k;
        }
        i += 1;
    }
    r.push((start, end - start, cur));
    r
}


/// One run of the segmented layout: a range of the buffer drawn with one
/// font, one requested style, one bidi level and one script.
#[derive(Debug, Clone, Copy, PartialEq, Eq, Structural)]
pub struct FontRun {
    pub offset: usize,
    pub len: usize,
    pub bidi_level: u8,
    pub script: u32,
    pub font_index: usize,
    pub font_style: FontStyle,
    pub synthetic_bold: bool,
    pub synthetic_slant: bool,
}

pub open spec fn run_end(r: SubsetTextRun) -> int {
    r.offset + r.length
}

/// Where the `k`th report run starts when the report tiles the buffer.
pub open spec fn start_of(report: Seq<SubsetTextRun>, k: int) -> int {
    if k <= 0 {
        0
    } else {
        run_end(report[k - 1])
    }
}

/// The report covers `0..n` in logical order with no gap and no overlap.
pub open spec fn tiles(report: Seq<SubsetTextRun>, n: int) -> bool {
    &&& report.len() > 0
    &&& forall|k: int| 0 <= k < report.len() ==> (#[trigger] report[k]).offset == start_of(report, k)
    &&& run_end(report.last()) == n
}

/// Whether `report` covers `0..n` in logical order with no gap and no overlap.
pub fn report_tiles(report: &[SubsetTextRun], n: usize) -> (r: bool)
    ensures
        r == tiles(report@, n as int),
{
    if report.len() == 0 {
        return false;
    }
    let mut pos: usize = 0;
    let mut k: usize = 0;
    while k < report.len()
        invariant
            k <= report@.len(),
            report@.len() > 0,
            pos as int == start_of(report@, k as int),
            forall|j: int| 0 <= j < k ==> (#[trigger] report@[j]).offset == start_of(report@, j),
        decreases report@.len() - k,
    {
        let tr = report[k];
        if tr.offset != pos {
            return false;
        }
        if tr.length > usize::MAX - tr.offset {
            proof {
                if tiles(report@, n as int) && k + 1 < report@.len() {
                    assert(report@[k + 1].offset == start_of(report@, k + 1));
                }
            }
            return false;
        }
        pos = tr.offset + tr.length;
        k += 1;
    }
    pos == n
}

pub open spec fn bidi_index_from(report: Seq<SubsetTextRun>, p: int, k: int) -> int
    decreases report.len() - k,
{
    if k < 0 || k >= report.len() {
        report.len() as int
    } else if p < run_end(report[k]) {
        k
    } else {
        bidi_index_from(report, p, k + 1)
    }
}

/// The index of the report run that holds position `p`.
pub open spec fn bidi_index(report: Seq<SubsetTextRun>, p: int) -> int {
    bidi_index_from(report, p, 0)
}

/// The font run that a segment `(offset, len, key)` of report run `tr` gives.
pub open spec fn run_of(seg: (usize, usize, RunKey), tr: SubsetTextRun, fonts: Seq<Font>) -> FontRun {
    FontRun {
        offset: seg.0,
        len: seg.1,
        bidi_level: tr.bidi_level,
        script: tr.script,
        font_index: seg.2.font_index,
        font_style: seg.2.style,
        synthetic_bold: needs_bold(seg.2.style, fonts[seg.2.font_index as int].style),
        synthetic_slant: needs_slant(seg.2.style, fonts[seg.2.font_index as int].style),
    }
}

pub open spec fn run_covers(r: FontRun, p: int) -> bool {
    r.offset <= p < r.offset + r.len
}

pub open spec fn covered(runs: Seq<FontRun>, p: int) -> bool {
    exists|i: int| 0 <= i < runs.len() && run_covers(#[trigger] runs[i], p)
}

/// No two runs share a position.
pub open spec fn disjoint(runs: Seq<FontRun>) -> bool {
    forall|i: int, j: int|
        0 <= i < runs.len() && 0 <= j < runs.len() && i != j ==> #[trigger] runs[i].offset
            + runs[i].len <= #[trigger] runs[j].offset || runs[j].offset + runs[j].len
            <= runs[i].offset
}

/// Every position of `0..n` lies in exactly one run.
pub open spec fn partitions(runs: Seq<FontRun>, n: int) -> bool {
    &&& forall|p: int| 0 <= p < n ==> #[trigger] covered(runs, p)
    &&& forall|i: int| 0 <= i < runs.len() ==> (#[trigger] runs[i]).offset + runs[i].len <= n
    &&& disjoint(runs)
}

/// Runs of distinct report runs follow the report's order; the runs of one
/// report run go left to right at an even level and right to left at an odd
/// one.
pub open spec fn visual_order(report: Seq<SubsetTextRun>, runs: Seq<FontRun>) -> bool {
    forall|i: int, j: int|
        0 <= i < j < runs.len() ==> if bidi_index(report, (#[trigger] runs[i]).offset as int)
            == bidi_index(report, (#[trigger] runs[j]).offset as int) && runs[i].bidi_level % 2
            == 1 {
            runs[i].offset > runs[j].offset
        } else {
            runs[i].offset < runs[j].offset
        }
}

/// `r` is one maximal range of equal keys inside one report run, tagged with
/// that run's level and script, and flagged for synthesis against its font.
pub open spec fn run_fits(
    keys: Seq<RunKey>,
    fonts: Seq<Font>,
    report: Seq<SubsetTextRun>,
    r: FontRun,
) -> bool {
    let k = bidi_index(report, r.offset as int);
    let end = r.offset + r.len;
    &&& 0 <= k < report.len()
    &&& r.len > 0
    &&& report[k].offset <= r.offset
    &&& end <= run_end(report[k])
    &&& r.bidi_level == report[k].bidi_level
    &&& r.script == report[k].script
    &&& r.font_index < fonts.len()
    &&& forall|p: int|
        r.offset <= p < end ==> #[trigger] keys[p] == (RunKey {
            style: r.font_style,
            font_index: r.font_index,
        })
    &&& r.offset == report[k].offset || keys[r.offset - 1] != keys[r.offset as int]
    &&& end == run_end(report[k]) || keys[end] != keys[end - 1]
    &&& r.synthetic_bold == needs_bold(r.font_style, fonts[r.font_index as int].style)
    &&& r.synthetic_slant == needs_slant(r.font_style, fonts[r.font_index as int].style)
}

/// `runs` is the segmentation of a buffer whose per-position keys are `keys`
/// under the bidi/script report `report`.
pub open spec fn segmented(
    keys: Seq<RunKey>,
    fonts: Seq<Font>,
    report: Seq<SubsetTextRun>,
    runs: Seq<FontRun>,
) -> bool {
    &&& forall|i: int| 0 <= i < runs.len() ==> run_fits(keys, fonts, report, #[trigger] runs[i])
    &&& partitions(runs, keys.len() as int)
    &&& visual_order(report, runs)
}

proof fn lemma_report_bound(report: Seq<SubsetTextRun>, n: int, k: int)
    requires
        tiles(report, n),
        0 <= k < report.len(),
    ensures
        report[k].offset <= run_end(report[k]) <= n,
    decreases report.len() - k,
{
    if k + 1 < report.len() {
        lemma_report_bound(report, n, k + 1);
        assert(report[k + 1].offset == start_of(report, k + 1));
    }
}

proof fn lemma_report_order(report: Seq<SubsetTextRun>, n: int, j: int, k: int)
    requires
        tiles(report, n),
        0 <= j < k < report.len(),
    ensures
        run_end(report[j]) <= report[k].offset,
    decreases k - j,
{
    assert(report[k].offset == start_of(report, k));
    if j + 1 < k {
        lemma_report_order(report, n, j, k - 1);
    }
}

proof fn lemma_bidi_index_from(report: Seq<SubsetTextRun>, n: int, k: int, p: int, j: int)
    requires
        tiles(report, n),
        0 <= k < report.len(),
        report[k].offset <= p < run_end(report[k]),
        0 <= j <= k,
    ensures
        bidi_index_from(report, p, j) == k,
    decreases k - j,
{
    if j < k {
        lemma_report_order(report, n, j, k);
        lemma_bidi_index_from(report, n, k, p, j + 1);
    }
}

proof fn lemma_bidi_index(report: Seq<SubsetTextRun>, n: int, k: int, p: int)
    requires
        tiles(report, n),
        0 <= k < report.len(),
        report[k].offset <= p < run_end(report[k]),
    ensures
        bidi_index(report, p) == k,
{
    lemma_bidi_index_from(report, n, k, p, 0);
}

proof fn lemma_seg_fits(
    keys: Seq<RunKey>,
    fonts: Seq<Font>,
    report: Seq<SubsetTextRun>,
    k: int,
    segs: Seq<(usize, usize, RunKey)>,
    j: int,
)
    requires
        tiles(report, keys.len() as int),
        0 <= k < report.len(),
        is_split(keys, report[k].offset as int, run_end(report[k]), segs),
        0 <= j < segs.len(),
        forall|p: int| 0 <= p < keys.len() ==> (#[trigger] keys[p]).font_index < fonts.len(),
    ensures
        run_fits(keys, fonts, report, run_of(segs[j], report[k], fonts)),
{
    let seg = segs[j];
    let r = run_of(seg, report[k], fonts);
    lemma_report_bound(report, keys.len() as int, k);
    lemma_bidi_index(report, keys.len() as int, k, seg.0 as int);
    assert(keys[seg.0 as int] == seg.2);
    if seg.0 != report[k].offset {
        assert(j > 0);
        assert(keys[seg.0 - 1] == segs[j - 1].2);
    }
    if seg.0 + seg.1 != run_end(report[k]) {
        assert(j + 1 < segs.len());
        assert(segs[j + 1].0 == seg.0 + seg.1);
        assert(keys[seg.0 + seg.1] == segs[j + 1].2);
        assert(keys[seg.0 + seg.1 - 1] == seg.2);
    }
}

proof fn lemma_covered_push(runs: Seq<FontRun>, r: FontRun, p: int)
    requires
        covered(runs, p),
    ensures
        covered(runs.push(r), p),
{
    let i = choose|i: int| 0 <= i < runs.len() && run_covers(#[trigger] runs[i], p);
    assert(runs.push(r)[i] == runs[i]);
}

proof fn lemma_covered_last(runs: Seq<FontRun>, r: FontRun, p: int)
    requires
        run_covers(r, p),
    ensures
        covered(runs.push(r), p),
{
    assert(runs.push(r)[runs.len() as int] == r);
}

fn make_run(seg: (usize, usize, RunKey), tr: SubsetTextRun, fonts: &[Font]) -> (r: FontRun)
    requires
        seg.2.font_index < fonts@.len(),
    ensures
        r == run_of(seg, tr, fonts@),
{
    let style = seg.2.style;
    let actual = fonts[seg.2.font_index].style();
    FontRun {
        offset: seg.0,
        len: seg.1,
        bidi_level: tr.bidi_level,
        script: tr.script,
        font_index: seg.2.font_index,
        font_style: style,
        synthetic_bold: synthetic_bold(style, actual),
        synthetic_slant: synthetic_slant(style, actual),
    }
}

/// The invariant of the block loops in `compute_runs`: `out` holds the
/// finished runs `out[..m0]`, all before report run `k`, and then runs of
/// report run `k` that lie in `lo..hi` and cover it.
spec fn block_inv(
    keys: Seq<RunKey>,
    fonts: Seq<Font>,
    report: Seq<SubsetTextRun>,
    out: Seq<FontRun>,
    k: int,
    m0: int,
    lo: int,
    hi: int,
) -> bool {
    &&& 0 <= m0 <= out.len()
    &&& forall|i: int| 0 <= i < out.len() ==> run_fits(keys, fonts, report, #[trigger] out[i])
    &&& forall|i: int|
        0 <= i < m0 ==> (#[trigger] out[i]).offset + out[i].len <= report[k].offset && bidi_index(
            report,
            out[i].offset as int,
        ) < k
    &&& forall|i: int|
        m0 <= i < out.len() ==> lo <= (#[trigger] out[i]).offset && out[i].offset + out[i].len
            <= hi && bidi_index(report, out[i].offset as int) == k
    &&& forall|p: int| 0 <= p < report[k].offset ==> #[trigger] covered(out, p)
    &&& forall|p: int| lo <= p < hi ==> #[trigger] covered(out, p)
    &&& disjoint(out)
    &&& visual_order(report, out)
}

/// Pushing `run` onto `out` keeps every run fitted, the runs disjoint and in
/// visual order, and every covered position covered, given that `run` is
/// disjoint from each run of `out` and may follow it.
proof fn lemma_push_run(
    keys: Seq<RunKey>,
    fonts: Seq<Font>,
    report: Seq<SubsetTextRun>,
    out: Seq<FontRun>,
    run: FontRun,
)
    requires
        forall|i: int| 0 <= i < out.len() ==> run_fits(keys, fonts, report, #[trigger] out[i]),
        run_fits(keys, fonts, report, run),
        disjoint(out),
        visual_order(report, out),
        forall|i: int|
            0 <= i < out.len() ==> (#[trigger] out[i]).offset + out[i].len <= run.offset
                || run.offset + run.len <= out[i].offset,
        forall|i: int|
            0 <= i < out.len() ==> if bidi_index(report, (#[trigger] out[i]).offset as int)
                == bidi_index(report, run.offset as int) && out[i].bidi_level % 2 == 1 {
                out[i].offset > run.offset
            } else {
                out[i].offset < run.offset
            },
    ensures
        forall|i: int|
            0 <= i < out.len() + 1 ==> run_fits(keys, fonts, report, #[trigger] out.push(run)[i]),
        disjoint(out.push(run)),
        visual_order(report, out.push(run)),
        forall|p: int| covered(out, p) ==> #[trigger] covered(out.push(run), p),
        forall|p: int| run_covers(run, p) ==> #[trigger] covered(out.push(run), p),
{
    let o = out.push(run);
    let m = out.len() as int;
    assert(o[m] == run);
    assert forall|i: int| 0 <= i < o.len() implies run_fits(keys, fonts, report, #[trigger] o[i]) by {
        if i < m {
            assert(out[i] == o[i]);
        }
    }
    assert forall|i: int, i2: int|
        0 <= i < o.len() && 0 <= i2 < o.len() && i != i2 implies #[trigger] o[i].offset + o[i].len
            <= #[trigger] o[i2].offset || o[i2].offset + o[i2].len <= o[i].offset by {
        if i < m {
            assert(out[i] == o[i]);
        }
        if i2 < m {
            assert(out[i2] == o[i2]);
        }
    }
    assert forall|i: int, i2: int| 0 <= i < i2 < o.len() implies if bidi_index(
        report,
        (#[trigger] o[i]).offset as int,
    ) == bidi_index(report, (#[trigger] o[i2]).offset as int) && o[i].bidi_level % 2 == 1 {
        o[i].offset > o[i2].offset
    } else {
        o[i].offset < o[i2].offset
    } by {
        assert(out[i] == o[i]);
        if i2 < m {
            assert(out[i2] == o[i2]);
        }
    }
    assert forall|p: int| covered(out, p) implies #[trigger] covered(o, p) by {
        lemma_covered_push(out, run, p);
    }
    assert forall|p: int| run_covers(run, p) implies #[trigger] covered(o, p) by {
        lemma_covered_last(out, run, p);
    }
}

/// Pushing the run before `lo` of a right-to-left report run `k`.
proof fn lemma_block_push_rtl(
    keys: Seq<RunKey>,
    fonts: Seq<Font>,
    report: Seq<SubsetTextRun>,
    out: Seq<FontRun>,
    run: FontRun,
    k: int,
    m0: int,
    hi: int,
)
    requires
        0 <= k < report.len(),
        report[k].bidi_level % 2 == 1,
        block_inv(keys, fonts, report, out, k, m0, run.offset + run.len, hi),
        run_fits(keys, fonts, report, run),
        bidi_index(report, run.offset as int) == k,
        report[k].offset <= run.offset,
        run.offset + run.len <= hi,
    ensures
        block_inv(keys, fonts, report, out.push(run), k, m0, run.offset as int, hi),
{
    let lo = run.offset + run.len;
    let o = out.push(run);
    lemma_push_run(keys, fonts, report, out, run);
    assert forall|p: int| 0 <= p < report[k].offset implies #[trigger] covered(o, p) by {
        assert(covered(out, p));
    }
    assert forall|p: int| run.offset <= p < hi implies #[trigger] covered(o, p) by {
        if p < lo {
            assert(run_covers(run, p));
        } else {
            assert(covered(out, p));
        }
    }
    assert forall|i: int| 0 <= i < m0 implies (#[trigger] o[i]).offset + o[i].len <= report[k].offset
        && bidi_index(report, o[i].offset as int) < k by {
        assert(out[i] == o[i]);
    }
    assert forall|i: int| m0 <= i < o.len() implies run.offset <= (#[trigger] o[i]).offset
        && o[i].offset + o[i].len <= hi && bidi_index(report, o[i].offset as int) == k by {
        if i < out.len() {
            assert(out[i] == o[i]);
        }
    }
}

/// Pushing the run after `hi` of a left-to-right report run `k`.
proof fn lemma_block_push_ltr(
    keys: Seq<RunKey>,
    fonts: Seq<Font>,
    report: Seq<SubsetTextRun>,
    out: Seq<FontRun>,
    run: FontRun,
    k: int,
    m0: int,
    lo: int,
)
    requires
        0 <= k < report.len(),
        report[k].bidi_level % 2 == 0,
        block_inv(keys, fonts, report, out, k, m0, lo, run.offset as int),
        run_fits(keys, fonts, report, run),
        bidi_index(report, run.offset as int) == k,
        report[k].offset <= lo,
        lo <= run.offset,
    ensures
        block_inv(keys, fonts, report, out.push(run), k, m0, lo, run.offset + run.len),
{
    let hi = run.offset + run.len;
    let o = out.push(run);
    lemma_push_run(keys, fonts, report, out, run);
    assert forall|p: int| 0 <= p < report[k].offset implies #[trigger] covered(o, p) by {
        assert(covered(out, p));
    }
    assert forall|p: int| lo <= p < hi implies #[trigger] covered(o, p) by {
        if p >= run.offset {
            assert(run_covers(run, p));
        } else {
            assert(covered(out, p));
        }
    }
    assert forall|i: int| 0 <= i < m0 implies (#[trigger] o[i]).offset + o[i].len <= report[k].offset
        && bidi_index(report, o[i].offset as int) < k by {
        assert(out[i] == o[i]);
    }
    assert forall|i: int| m0 <= i < o.len() implies lo <= (#[trigger] o[i]).offset && o[i].offset
        + o[i].len <= hi && bidi_index(report, o[i].offset as int) == k by {
        if i < out.len() {
            assert(out[i] == o[i]);
        }
    }
}

fn compute_runs(fonts: &[Font], keys: &Vec<RunKey>, report: &[SubsetTextRun]) -> (out: Vec<
    FontRun,
>)
    requires
        tiles(report@, keys@.len() as int),
        forall|p: int| 0 <= p < keys@.len() ==> (#[trigger] keys@[p]).font_index < fonts@.len(),
    ensures
        segmented(keys@, fonts@, report@, out@),
{
    let ghost n = keys@.len() as int;
    let mut out: Vec<FontRun> = Vec::new();
    let mut k: usize = 0;
    while k < report.len()
        invariant
            tiles(report@, n),
            n == keys@.len(),
            forall|p: int| 0 <= p < keys@.len() ==> (#[trigger] keys@[p]).font_index < fonts@.len(),
            k <= report@.len(),
            forall|i: int|
                0 <= i < out@.len() ==> run_fits(keys@, fonts@, report@, #[trigger] out@[i]),
            forall|i: int|
                0 <= i < out@.len() ==> (#[trigger] out@[i]).offset + out@[i].len <= start_of(
                    report@,
                    k as int,
                ) && bidi_index(report@, out@[i].offset as int) < k,
            forall|p: int| 0 <= p < start_of(report@, k as int) ==> #[trigger] covered(out@, p),
            disjoint(out@),
            visual_order(report@, out@),
        decreases report@.len() - k,
    {
        let tr = report[k];
        proof {
            lemma_report_bound(report@, n, k as int);
            assert(report@[k as int].offset == start_of(report@, k as int));
        }
        let segs = split_run(keys.as_slice(), tr.offset, tr.length);
        let ghost m0 = out@.len() as int;
        let ghost start = tr.offset as int;
        let ghost end = run_end(tr);
        if tr.bidi_level % 2 == 1 {
            let mut j = segs.len();
            while j > 0
                invariant
                    tiles(report@, n),
                    n == keys@.len(),
                    forall|p: int|
                        0 <= p < keys@.len() ==> (#[trigger] keys@[p]).font_index < fonts@.len(),
                    k < report@.len(),
                    tr == report@[k as int],
                    start == tr.offset,
                    end == run_end(tr),
                    start <= end <= n,
                    tr.bidi_level % 2 == 1,
                    is_split(keys@, start, end, segs@),
                    j <= segs@.len(),
                    block_inv(
                        keys@,
                        fonts@,
                        report@,
                        out@,
                        k as int,
                        m0,
                        if j < segs@.len() {
                            segs@[j as int].0 as int
                        } else {
                            end
                        },
                        end,
                    ),
                decreases j,
            {
                j -= 1;
                proof {
                    assert(keys@[segs@[j as int].0 as int] == segs@[j as int].2);
                }
                let run = make_run(segs[j], tr, fonts);
                proof {
                    lemma_seg_fits(keys@, fonts@, report@, k as int, segs@, j as int);
                    lemma_bidi_index(report@, n, k as int, run.offset as int);
                    lemma_block_push_rtl(keys@, fonts@, report@, out@, run, k as int, m0, end);
                }
                out.push(run);
            }
        } else {
            let mut j: usize = 0;
            while j < segs.len()
                invariant
                    tiles(report@, n),
                    n == keys@.len(),
                    forall|p: int|
                        0 <= p < keys@.len() ==> (#[trigger] keys@[p]).font_index < fonts@.len(),
                    k < report@.len(),
                    tr == report@[k as int],
                    start == tr.offset,
                    end == run_end(tr),
                    start <= end <= n,
                    tr.bidi_level % 2 == 0,
                    is_split(keys@, start, end, segs@),
                    j <= segs@.len(),
                    block_inv(
                        keys@,
                        fonts@,
                        report@,
                        out@,
                        k as int,
                        m0,
                        start,
                        if j < segs@.len() {
                            segs@[j as int].0 as int
                        } else {
                            end
                        },
                    ),
                decreases segs@.len() - j,
            {
                proof {
                    assert(keys@[segs@[j as int].0 as int] == segs@[j as int].2);
                }
                let run = make_run(segs[j], tr, fonts);
                proof {
                    lemma_seg_fits(keys@, fonts@, report@, k as int, segs@, j as int);
                    lemma_bidi_index(report@, n, k as int, run.offset as int);
                    lemma_block_push_ltr(keys@, fonts@, report@, out@, run, k as int, m0, start);
                }
                out.push(run);
                j += 1;
            }
        }
        proof {
            assert(start_of(report@, k + 1) == end);
            assert(forall|p: int| 0 <= p < end ==> #[trigger] covered(out@, p));
        }
        k += 1;
    }
    proof {
        assert(start_of(report@, report@.len() as int) == n);
    }
    out
}


/// The font that segmentation assigns to a position whose font match is
/// `m`: the matched font, or the first font when none covers the codepoint.
pub open spec fn font_for(m: Option<usize>) -> usize {
    match m {
        Some(i) => i,
        None => 0,
    }
}

/// Every font match names one of `font_count` fonts.
pub open spec fn matches_valid(matches: Seq<Option<usize>>, font_count: int) -> bool {
    forall|p: int|
        0 <= p < matches.len() && (#[trigger] matches[p]) is Some ==> matches[p]->0 < font_count
}

/// The key of every position of a buffer, from the style requested there
/// and the font the matcher picked for it.
pub open spec fn keys_of(matches: Seq<Option<usize>>, styles: Seq<FontStyle>) -> Seq<RunKey> {
    Seq::new(styles.len(), |p: int| RunKey { style: styles[p], font_index: font_for(matches[p]) })
}

/// Some font of `fonts` covers `cp`.
pub open spec fn has_font_for(fonts: Seq<Font>, cp: u32) -> bool {
    exists|f: int| 0 <= f < fonts.len() && covers(#[trigger] fonts[f], cp)
}

/// Some codepoint has no font that covers it, or there is text and no font.
pub open spec fn missing_glyphs(fonts: Seq<Font>, codepoints: Seq<u32>) -> bool {
    (exists|p: int| 0 <= p < codepoints.len() && !has_font_for(fonts, #[trigger] codepoints[p])) || (
    codepoints.len() > 0 && fonts.len() == 0)
}

/// What a builder holds: the fonts, the codepoints pushed so far and the
/// style requested for each of them.
pub ghost struct BuilderView {
    pub fonts: Seq<Font>,
    pub codepoints: Seq<u32>,
    pub styles: Seq<FontStyle>,
}

/// Accumulates styled text over a borrowed font collection.
#[derive(Debug, Clone)]
pub struct LayoutBuilder<'a> {
    fonts: &'a [Font],
    codepoints: Vec<u32>,
    styles: Vec<FontStyle>,
    style_indices: Vec<usize>,
}

impl<'a> View for LayoutBuilder<'a> {
    type V = BuilderView;

    closed spec fn view(&self) -> BuilderView {
        BuilderView {
            fonts: self.fonts@,
            codepoints: self.codepoints@,
            styles: Seq::new(
                self.style_indices@.len(),
                |p: int| self.styles@[self.style_indices@[p] as int],
            ),
        }
    }
}

/// What a layout holds: the fonts, the codepoints, the runs in visual order
/// and the paragraph's base level.
pub ghost struct LayoutView {
    pub fonts: Seq<Font>,
    pub codepoints: Seq<u32>,
    pub runs: Seq<FontRun>,
    pub paragraph_base_level: u8,
}

/// The segmented text: runs in visual order over a borrowed font collection.
#[derive(Debug, Clone)]
pub struct Layout<'a> {
    fonts: &'a [Font],
    codepoints: Vec<u32>,
    runs: Vec<FontRun>,
    paragraph_base_level: u8,
}

impl<'a> View for Layout<'a> {
    type V = LayoutView;

    closed spec fn view(&self) -> LayoutView {
        LayoutView {
            fonts: self.fonts@,
            codepoints: self.codepoints@,
            runs: self.runs@,
            paragraph_base_level: self.paragraph_base_level,
        }
    }
}

impl<'a> Layout<'a> {
    pub fn fonts(&self) -> (r: &'a [Font])
        ensures
            r@ == self@.fonts,
    {
        self.fonts
    }

    pub fn codepoints(&self) -> (r: &[u32])
        ensures
            r@ == self@.codepoints,
    {
        self.codepoints.as_slice()
    }

    pub fn runs(&self) -> (r: &[FontRun])
        ensures
            r@ == self@.runs,
    {
        self.runs.as_slice()
    }

    pub fn paragraph_base_level(&self) -> (r: u8)
        ensures
            r == self@.paragraph_base_level,
    {
        self.paragraph_base_level
    }
}

impl<'a> LayoutBuilder<'a> {
    /// The builder's own bookkeeping is consistent and it has a font.
    pub closed spec fn wf(&self) -> bool {
        &&& self.style_indices@.len() == self.codepoints@.len()
        &&& forall|p: int|
            0 <= p < self.style_indices@.len() ==> (#[trigger] self.style_indices@[p])
                < self.styles@.len()
        &&& self.fonts@.len() > 0
    }

    pub fn new(fonts: &'a [Font]) -> (r: LayoutBuilder<'a>)
        requires
            fonts@.len() > 0,
        ensures
            r.wf(),
            r@.fonts == fonts@,
            r@.fonts.len() > 0,
            r@.codepoints.len() == 0,
            r@.styles.len() == 0,
    {
        let r = LayoutBuilder {
            fonts,
            codepoints: Vec::new(),
            styles: Vec::new(),
            style_indices: Vec::new(),
        };
        assert(r@.styles =~= Seq::<FontStyle>::empty());
        r
    }

    pub fn fonts(&self) -> (r: &'a [Font])
        ensures
            r@ == self@.fonts,
    {
        self.fonts
    }

    pub fn codepoints(&self) -> (r: &[u32])
        ensures
            r@ == self@.codepoints,
    {
        self.codepoints.as_slice()
    }

    /// A well-formed builder has a font and one requested style per codepoint.
    pub proof fn lemma_wf(&self)
        requires
            self.wf(),
        ensures
            self@.fonts.len() > 0,
            self@.styles.len() == self@.codepoints.len(),
    {
    }

    /// The style requested for the codepoint at `index`.
    pub fn style_at(&self, index: usize) -> (r: FontStyle)
        requires
            self.wf(),
            index < self@.codepoints.len(),
        ensures
            r == self@.styles[index as int],
    {
        self.styles[self.style_indices[index]]
    }

    /// Drops all text, keeping the fonts.
    pub fn clear(&mut self)
        requires
            old(self).wf(),
        ensures
            final(self).wf(),
            final(self)@.fonts == old(self)@.fonts,
            final(self)@.fonts.len() > 0,
            final(self)@.codepoints.len() == 0,
            final(self)@.styles.len() == 0,
    {
        self.codepoints.clear();
        self.styles.clear();
        self.style_indices.clear();
        assert(self@.styles =~= Seq::<FontStyle>::empty());
    }

    /// Appends `text`, every character of it requesting `style`.
    pub fn push(&mut self, text: &[char], style: FontStyle)
        requires
            old(self).wf(),
            old(self)@.codepoints.len() + text@.len() <= usize::MAX,
        ensures
            final(self).wf(),
            final(self)@.fonts == old(self)@.fonts,
            final(self)@.codepoints == old(self)@.codepoints + text@.map_values(|c: char| c as u32),
            final(self)@.styles == old(self)@.styles + Seq::new(text@.len(), |i: int| style),
            final(self)@.styles.len() == final(self)@.codepoints.len(),
            final(self)@.fonts.len() > 0,
    {
        let ghost old_view = self@;
        let style_index = self.styles.len();
        self.styles.push(style);
        let mut i: usize = 0;
        while i < text.len()
            invariant
                i <= text@.len(),
                old_view.codepoints.len() + text@.len() <= usize::MAX,
                self.fonts@ == old_view.fonts,
                self.fonts@.len() > 0,
                style_index + 1 == self.styles@.len(),
                self.styles@[style_index as int] == style,
                self.style_indices@.len() == self.codepoints@.len(),
                forall|p: int|
                    0 <= p < self.style_indices@.len() ==> (#[trigger] self.style_indices@[p])
                        < self.styles@.len(),
                self@.codepoints == old_view.codepoints + text@.take(i as int).map_values(
                    |c: char| c as u32,
                ),
                self@.styles == old_view.styles + Seq::new(i as nat, |j: int| style),
            decreases text@.len() - i,
        {
            let ghost before = self@;
            self.codepoints.push(text[i] as u32);
            self.style_indices.push(style_index);
            i += 1;
            assert(text@.take(i as int).map_values(|c: char| c as u32) =~= text@.take(
                i - 1,
            ).map_values(|c: char| c as u32).push(text@[i - 1] as u32));
            assert(self@.codepoints =~= old_view.codepoints + text@.take(i as int).map_values(
                |c: char| c as u32,
            ));
            assert(self@.styles =~= before.styles.push(style));
            assert(self@.styles =~= old_view.styles + Seq::new(i as nat, |j: int| style));
        }
        assert(text@.take(i as int) =~= text@);
    }

    /// Whether some codepoint is covered by no font.
    pub fn has_missing_glyphs(&self) -> (r: bool)
        requires
            self.wf(),
        ensures
            r == missing_glyphs(self@.fonts, self@.codepoints),
    {
        let mut p: usize = 0;
        while p < self.codepoints.len()
            invariant
                p <= self.codepoints@.len(),
                forall|q: int|
                    0 <= q < p ==> has_font_for(self.fonts@, #[trigger] self.codepoints@[q]),
            decreases self.codepoints@.len() - p,
        {
            let cp = self.codepoints[p];
            let mut f: usize = 0;
            let mut found = false;
            while f < self.fonts.len() && !found
                invariant
                    f <= self.fonts@.len(),
                    found ==> has_font_for(self.fonts@, cp),
                    !found ==> forall|g: int| 0 <= g < f ==> !covers(#[trigger] self.fonts@[g], cp),
                decreases self.fonts@.len() - f,
            {
                if self.fonts[f].has_glyph(cp) {
                    found = true;
                }
                f += 1;
            }
            if !found {
                return true;
            }
            p += 1;
        }
        self.codepoints.len() != 0 && self.fonts.len() == 0
    }

    /// Segments the text under the bidi/script report `text_runs`, which the
    /// bidi detector gave for this text with base level
    /// `paragraph_base_level`. `matches` holds, for each codepoint, the font
    /// that the font matcher picked for it in the style requested there, if
    /// any font covers it. Empty text gives no runs and base level 0.
    pub fn build(
        self,
        paragraph_base_level: u8,
        text_runs: &[SubsetTextRun],
        matches: &[Option<usize>],
    ) -> (r: Layout<'a>)
        requires
            self.wf(),
            self@.codepoints.len() > 0 ==> tiles(text_runs@, self@.codepoints.len() as int),
            matches@.len() == self@.codepoints.len(),
            matches_valid(matches@, self@.fonts.len() as int),
        ensures
            r@.fonts == self@.fonts,
            r@.codepoints == self@.codepoints,
            self@.codepoints.len() == 0 ==> r@.runs.len() == 0 && r@.paragraph_base_level == 0,
            self@.codepoints.len() > 0 ==> r@.paragraph_base_level == paragraph_base_level
                && segmented(keys_of(matches@, self@.styles), self@.fonts, text_runs@, r@.runs),
    {
        if self.codepoints.len() == 0 {
            Layout {
                fonts: self.fonts,
                codepoints: self.codepoints,
                runs: Vec::new(),
                paragraph_base_level: 0,
            }
        } else {
            let keys = self.compute_keys(matches);
            let runs = compute_runs(self.fonts, &keys, text_runs);
            Layout { fonts: self.fonts, codepoints: self.codepoints, runs, paragraph_base_level }
        }
    }

    fn compute_keys(&self, matches: &[Option<usize>]) -> (r: Vec<RunKey>)
        requires
            self.wf(),
            matches@.len() == self@.codepoints.len(),
            matches_valid(matches@, self@.fonts.len() as int),
        ensures
            r@ == keys_of(matches@, self@.styles),
            forall|p: int| 0 <= p < r@.len() ==> (#[trigger] r@[p]).font_index < self@.fonts.len(),
    {
        let ghost want = keys_of(matches@, self@.styles);
        let mut r: Vec<RunKey> = Vec::new();
        let mut p: usize = 0;
        while p < self.codepoints.len()
            invariant
                self.wf(),
                matches@.len() == self@.codepoints.len(),
                matches_valid(matches@, self@.fonts.len() as int),
                want == keys_of(matches@, self@.styles),
                p <= self.codepoints@.len(),
                r@ == want.take(p as int),
                forall|q: int| 0 <= q < r@.len() ==> (#[trigger] r@[q]).font_index < self@.fonts.len(),
            decreases self.codepoints@.len() - p,
        {
            let style = self.styles[self.style_indices[p]];
            let font_index = match matches[p] {
                Some(i) => i,
                None => 0,
            };
            proof {
                assert(matches@[p as int] is Some ==> matches@[p as int]->0 < self@.fonts.len());
            }
            r.push(RunKey { style, font_index });
            p += 1;
            assert(r@ =~= want.take(p as int));
        }
        assert(want.take(p as int) =~= want);
        r
    }
}

/// Text with one style, one bidi/script run and one matched font gives
/// exactly one run, over the whole buffer.
pub proof fn lemma_single_uniform_run(
    fonts: Seq<Font>,
    matches: Seq<Option<usize>>,
    styles: Seq<FontStyle>,
    report: Seq<SubsetTextRun>,
    runs: Seq<FontRun>,
)
    requires
        styles.len() > 0,
        matches.len() == styles.len(),
        forall|p: int| 0 <= p < styles.len() ==> #[trigger] styles[p] == styles[0],
        forall|p: int|
            0 <= p < matches.len() ==> font_for(#[trigger] matches[p]) == font_for(matches[0]),
        report.len() == 1,
        tiles(report, styles.len() as int),
        segmented(keys_of(matches, styles), fonts, report, runs),
    ensures
        runs.len() == 1,
        runs[0].offset == 0,
        runs[0].len == styles.len(),
{
    let n = styles.len() as int;
    let keys = keys_of(matches, styles);
    assert forall|p: int| 0 <= p < n implies #[trigger] keys[p] == keys[0] by {
        assert(font_for(matches[p]) == font_for(matches[0]));
    }
    assert(report[0].offset == start_of(report, 0));
    assert forall|i: int| 0 <= i < runs.len() implies (#[trigger] runs[i]).offset == 0
        && runs[i].len == n by {
        let r = runs[i];
        assert(run_fits(keys, fonts, report, r));
        let end = r.offset + r.len;
        if r.offset != 0 {
            assert(keys[r.offset - 1] == keys[0]);
            assert(keys[r.offset as int] == keys[0]);
        }
        if end != n {
            assert(keys[end] == keys[0]);
            assert(keys[end - 1] == keys[0]);
        }
    }
    assert(covered(runs, 0));
    if runs.len() > 1 {
        assert(runs[0].offset == 0 && runs[1].offset == 0);
    }
}

/// Within one bidi/script run, a run that comes first in the text comes
/// later in the layout when the level is odd (right to left), and earlier
/// when it is even.
pub proof fn lemma_bidi_run_order(
    keys: Seq<RunKey>,
    fonts: Seq<Font>,
    report: Seq<SubsetTextRun>,
    runs: Seq<FontRun>,
    a: int,
    b: int,
)
    requires
        segmented(keys, fonts, report, runs),
        0 <= a < runs.len(),
        0 <= b < runs.len(),
        bidi_index(report, runs[a].offset as int) == bidi_index(report, runs[b].offset as int),
        runs[a].offset < runs[b].offset,
    ensures
        runs[a].bidi_level % 2 == 1 ==> b < a,
        runs[a].bidi_level % 2 == 0 ==> a < b,
{
    assert(run_fits(keys, fonts, report, runs[a]));
    assert(run_fits(keys, fonts, report, runs[b]));
}

} // verus!
