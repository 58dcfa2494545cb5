use vstd::prelude::*;

use crate::budoux::{phrases, segment_with_model, views_of, ParserModel};
use crate::evaluate_chars::{clone_range, CharState, CharStateView, TextUnitView, states_view};
use crate::text::chars_of;
use vstd::string::StringExecFns;

verus! {

/// Why a segment starts on a new piece: after whitespace (the whitespace units
/// that were skipped), at a BudouX phrase boundary, at a manual break, because
/// the previous piece did not fit, or not at all (the first piece).
#[derive(Debug, PartialEq, Eq)]
pub enum WrappedBy {
    Whitespace(Vec<CharState>),
    Budoux,
    Manual,
    Overflow,
    NotWrapped,
}

/// A run of units that is kept together on one line.
#[derive(Debug)]
pub struct Segment {
    pub chars: Vec<CharState>,
    pub wrapped_by: WrappedBy,
}

/// The value of a `WrappedBy`.
pub enum WrappedByView {
    Whitespace(Seq<CharStateView>),
    Budoux,
    Manual,
    Overflow,
    NotWrapped,
}

impl View for WrappedBy {
    type V = WrappedByView;

    open spec fn view(&self) -> WrappedByView {
        match *self {
            WrappedBy::Whitespace(v) => WrappedByView::Whitespace(states_view(v@)),
            WrappedBy::Budoux => WrappedByView::Budoux,
            WrappedBy::Manual => WrappedByView::Manual,
            WrappedBy::Overflow => WrappedByView::Overflow,
            WrappedBy::NotWrapped => WrappedByView::NotWrapped,
        }
    }
}

/// The value of a `Segment`.
pub struct SegmentView {
    pub chars: Seq<CharStateView>,
    pub wrapped_by: WrappedByView,
}

impl View for Segment {
    type V = SegmentView;

    open spec fn view(&self) -> SegmentView {
        SegmentView { chars: states_view(self.chars@), wrapped_by: self.wrapped_by@ }
    }
}

/// The values of a list of segments.
pub open spec fn segments_view(s: Seq<Segment>) -> Seq<SegmentView> {
    s.map_values(|x: Segment| x@)
}

/// Whether `u[i]` and `u[i + 1]` are the manual break marker `\b`.
pub open spec fn is_break_marker(u: Seq<CharStateView>, i: int) -> bool {
    &&& 0 <= i
    &&& i + 1 < u.len()
    &&& u[i].unit == TextUnitView::Char('\\')
    &&& u[i + 1].unit == TextUnitView::Char('b')
}

/// A piece of a manual split that starts at `start`.
pub open spec fn manual_piece(u: Seq<CharStateView>, start: int, end: int) -> SegmentView {
    SegmentView {
        chars: u.subrange(start, end),
        wrapped_by: if start == 0 {
            WrappedByView::NotWrapped
        } else {
            WrappedByView::Manual
        },
    }
}

/// The pieces of `u` from `start` on, scanning from `i`: every `\b` marker met
/// from left to right ends a piece and is dropped.
pub open spec fn manual_split_from(u: Seq<CharStateView>, start: int, i: int) -> Seq<SegmentView>
    decreases u.len() - i,
{
    if i >= u.len() || i < 0 {
        seq![manual_piece(u, start, u.len() as int)]
    } else if is_break_marker(u, i) {
        seq![manual_piece(u, start, i)] + manual_split_from(u, i + 2, i + 2)
    } else {
        manual_split_from(u, start, i + 1)
    }
}

/// How `segment_manually` splits `u`.
pub open spec fn manual_split(u: Seq<CharStateView>) -> Seq<SegmentView> {
    manual_split_from(u, 0, 0)
}

fn unit_is_char(s: &CharState, c: char) -> (r: bool)
    ensures
        r == (s@.unit == TextUnitView::Char(c)),
{
    match s.unit.as_char() {
        Some(x) => x == c,
        None => false,
    }
}

/// Splits at every manual break marker `\b` (a backslash unit followed by a `b`
/// unit), dropping the markers. The first piece is not wrapped; the others are
/// wrapped manually.
pub fn segment_manually(char_states: &[CharState]) -> (r: Vec<Segment>)
    ensures
        segments_view(r@) == manual_split(states_view(char_states@)),
        pieces_chars(segments_view(r@)).flatten() == without_markers(states_view(char_states@)),
        r@.len() == 1 + marker_count(states_view(char_states@)),
{
    proof {
        lemma_manual_split_drops_markers(states_view(char_states@));
    }
    let ghost u = states_view(char_states@);
    let mut result: Vec<Segment> = Vec::new();
    let mut start: usize = 0;
    let mut i: usize = 0;
    while i < char_states.len()
        invariant
            u == states_view(char_states@),
            start <= i <= char_states.len(),
            segments_view(result@) + manual_split_from(u, start as int, i as int) == manual_split(u),
        decreases char_states.len() - i,
    {
        if unit_is_char(&char_states[i], '\\') && i + 1 < char_states.len() && unit_is_char(
            &char_states[i + 1],
            'b',
        ) {
            let piece = Segment {
                chars: clone_range(char_states, start, i),
                wrapped_by: if start == 0 {
                    WrappedBy::NotWrapped
                } else {
                    WrappedBy::Manual
                },
            };
            let ghost before = result@;
            result.push(piece);
            assert(segments_view(result@) =~= segments_view(before).push(manual_piece(u, start as int, i as int)));
            assert(manual_split_from(u, start as int, i as int) == seq![manual_piece(u, start as int, i as int)] + manual_split_from(u, i + 2, i + 2));
            assert(segments_view(result@) + manual_split_from(u, i + 2, i + 2) =~= segments_view(before) + manual_split_from(u, start as int, i as int));
            start = i + 2;
            i = i + 2;
        } else {
            i = i + 1;
        }
    }
    let piece = Segment {
        chars: clone_range(char_states, start, char_states.len()),
        wrapped_by: if start == 0 {
            WrappedBy::NotWrapped
        } else {
            WrappedBy::Manual
        },
    };
    let ghost before = result@;
    result.push(piece);
    assert(segments_view(result@) =~= segments_view(before).push(manual_piece(u, start as int, u.len() as int)));
    assert(segments_view(result@) =~= segments_view(before) + manual_split_from(u, start as int, i as int));
    result
}

/// Where `segment_with_whitespace` stands after some units: the pieces so far,
/// where the current run of non-whitespace units starts, and the whitespace
/// units seen since the last piece.
pub struct WhitespaceScan {
    pub result: Seq<SegmentView>,
    pub run_start: Option<int>,
    pub pending: Seq<CharStateView>,
}

/// How a piece after `pending` whitespace units is wrapped.
pub open spec fn wrap_after(pending: Seq<CharStateView>) -> WrappedByView {
    if pending.len() == 0 {
        WrappedByView::NotWrapped
    } else {
        WrappedByView::Whitespace(pending)
    }
}

/// The scan after unit `u[i]`.
pub open spec fn whitespace_step(u: Seq<CharStateView>, st: WhitespaceScan, i: int) -> WhitespaceScan {
    if u[i].unit.is_whitespace() {
        match st.run_start {
            Some(start) => WhitespaceScan {
                result: st.result.push(
                    SegmentView { chars: u.subrange(start, i), wrapped_by: wrap_after(st.pending) },
                ),
                run_start: None,
                pending: seq![u[i]],
            },
            None => WhitespaceScan { result: st.result, run_start: None, pending: st.pending.push(u[i]) },
        }
    } else {
        match st.run_start {
            Some(start) => st,
            None => WhitespaceScan { result: st.result, run_start: Some(i), pending: st.pending },
        }
    }
}

/// The scan after the first `k` units.
pub open spec fn whitespace_scan(u: Seq<CharStateView>, k: nat) -> WhitespaceScan
    decreases k,
{
    if k == 0 {
        WhitespaceScan { result: Seq::empty(), run_start: None, pending: Seq::empty() }
    } else {
        whitespace_step(u, whitespace_scan(u, (k - 1) as nat), k - 1)
    }
}

/// How `segment_with_whitespace` splits `u`: the runs of non-whitespace units,
/// each wrapped by the whitespace before it (the first run, when nothing comes
/// before it, is not wrapped); whitespace after the last run becomes the
/// wrapping of that last run.
pub open spec fn whitespace_split(u: Seq<CharStateView>) -> Seq<SegmentView> {
    let st = whitespace_scan(u, u.len());
    let result = match st.run_start {
        Some(start) => st.result.push(
            SegmentView { chars: u.subrange(start, u.len() as int), wrapped_by: wrap_after(st.pending) },
        ),
        None => st.result,
    };
    let pending = match st.run_start {
        Some(start) => Seq::empty(),
        None => st.pending,
    };
    if pending.len() > 0 && result.len() > 0 {
        result.update(
            result.len() - 1,
            SegmentView { chars: result.last().chars, wrapped_by: WrappedByView::Whitespace(pending) },
        )
    } else {
        result
    }
}

fn wrap_by_pending(pending: &mut Vec<CharState>) -> (r: WrappedBy)
    ensures
        r@ == wrap_after(states_view(old(pending)@)),
        final(pending)@.len() == 0,
{
    if pending.len() == 0 {
        WrappedBy::NotWrapped
    } else {
        let mut taken: Vec<CharState> = Vec::new();
        std::mem::swap(&mut taken, pending);
        WrappedBy::Whitespace(taken)
    }
}

/// Splits into runs of non-whitespace units, dropping the whitespace between
/// them into the wrapping of the run that follows it.
pub fn segment_with_whitespace(char_states: &[CharState]) -> (r: Vec<Segment>)
    ensures
        segments_view(r@) == whitespace_split(states_view(char_states@)),
        pieces_chars(segments_view(r@)).flatten() == states_view(char_states@).filter(non_whitespace()),
        forall|j: int| 0 <= j < r@.len() ==> (#[trigger] segments_view(r@)[j]).chars.len() > 0,
        states_view(char_states@).len() == 0 || !states_view(char_states@).last().unit.is_whitespace()
            ==> pieces_with_wrapping(segments_view(r@)) == states_view(char_states@),
{
    proof {
        lemma_whitespace_split_keeps_words(states_view(char_states@));
        if states_view(char_states@).len() == 0 || !states_view(char_states@).last().unit.is_whitespace() {
            lemma_whitespace_split_keeps_every_unit(states_view(char_states@));
        }
    }
    let ghost u = states_view(char_states@);
    let mut result: Vec<Segment> = Vec::new();
    let mut run_start: Option<usize> = None;
    let mut pending: Vec<CharState> = Vec::new();
    let mut i: usize = 0;
    assert(states_view(pending@) =~= Seq::<CharStateView>::empty());
    assert(segments_view(result@) =~= Seq::<SegmentView>::empty());
    while i < char_states.len()
        invariant
            u == states_view(char_states@),
            i <= char_states.len(),
            ({
                let st = whitespace_scan(u, i as nat);
                &&& segments_view(result@) == st.result
                &&& states_view(pending@) == st.pending
                &&& match run_start {
                    Some(start) => st.run_start == Some(start as int) && start < i,
                    None => st.run_start is None,
                }
            }),
        decreases char_states.len() - i,
    {
        let ghost st = whitespace_scan(u, i as nat);
        assert(u[i as int] == char_states@[i as int]@);
        if char_states[i].unit.is_whitespace() {
            match run_start {
                Some(start) => {
                    let wrapped_by = wrap_by_pending(&mut pending);
                    let ghost before = result@;
                    result.push(Segment { chars: clone_range(char_states, start, i), wrapped_by });
                    assert(segments_view(result@) =~= segments_view(before).push(
                        SegmentView { chars: u.subrange(start as int, i as int), wrapped_by: wrap_after(st.pending) },
                    ));
                },
                None => {},
            }
            run_start = None;
            let ghost before_pending = pending@;
            pending.push(char_states[i].clone());
            assert(states_view(pending@) =~= states_view(before_pending).push(u[i as int]));
        } else {
            if run_start.is_none() {
                run_start = Some(i);
            }
        }
        i = i + 1;
    }
    let ghost st = whitespace_scan(u, u.len());
    match run_start {
        Some(start) => {
            let wrapped_by = wrap_by_pending(&mut pending);
            let ghost before = result@;
            result.push(Segment { chars: clone_range(char_states, start, char_states.len()), wrapped_by });
            assert(segments_view(result@) =~= segments_view(before).push(
                SegmentView { chars: u.subrange(start as int, u.len() as int), wrapped_by: wrap_after(st.pending) },
            ));
        },
        None => {},
    }
    if pending.len() != 0 && result.len() != 0 {
        let ghost before = result@;
        let mut last = result.pop().unwrap();
        last.wrapped_by = WrappedBy::Whitespace(pending);
        result.push(last);
        assert(segments_view(result@) =~= segments_view(before).update(
            before.len() - 1,
            SegmentView { chars: segments_view(before).last().chars, wrapped_by: result@.last().wrapped_by@ },
        ));
    }
    result
}

/// The text that BudouX sees for the first `k` units: their segmentation texts,
/// one after another.
pub open spec fn units_text(u: Seq<CharStateView>, k: nat) -> Seq<char>
    decreases k,
{
    if k == 0 {
        Seq::empty()
    } else {
        units_text(u, (k - 1) as nat) + u[k - 1].unit.segmentation_text()
    }
}

/// For each character of `units_text(u, k)`, the index of the unit it comes from.
pub open spec fn owners_upto(u: Seq<CharStateView>, k: nat) -> Seq<usize>
    decreases k,
{
    if k == 0 {
        Seq::empty()
    } else {
        owners_upto(u, (k - 1) as nat) + Seq::new(
            u[k - 1].unit.segmentation_text().len(),
            |j: int| (k - 1) as usize,
        )
    }
}

/// The lengths of some phrases.
pub open spec fn phrase_lens(ps: Seq<Seq<char>>) -> Seq<int> {
    ps.map_values(|p: Seq<char>| p.len() as int)
}

/// A piece of a BudouX split that covers `u[start..end]`.
pub open spec fn budoux_piece(u: Seq<CharStateView>, start: int, end: int) -> SegmentView {
    SegmentView {
        chars: u.subrange(start, end),
        wrapped_by: if start == 0 {
            WrappedByView::NotWrapped
        } else {
            WrappedByView::Budoux
        },
    }
}

/// The pieces from phrase `j` on, when the phrases before it covered `ci`
/// characters and the pieces so far ended at unit `ui`: a phrase boundary that
/// falls inside a unit is dropped, any other ends a piece at the unit that
/// starts there.
pub open spec fn budoux_pieces(
    u: Seq<CharStateView>,
    owners: Seq<usize>,
    lens: Seq<int>,
    j: int,
    ci: int,
    ui: int,
) -> Seq<SegmentView>
    decreases lens.len() - j,
{
    if j >= lens.len() || j < 0 {
        Seq::empty()
    } else {
        let ci2 = ci + lens[j];
        if ci2 < owners.len() && owners[ci2 - 1] == owners[ci2] {
            budoux_pieces(u, owners, lens, j + 1, ci2, ui)
        } else {
            let end = if ci2 == owners.len() {
                u.len() as int
            } else {
                owners[ci2] as int
            };
            seq![budoux_piece(u, ui, end)] + budoux_pieces(u, owners, lens, j + 1, ci2, end)
        }
    }
}

/// How `segment_with_budoux` splits `u` with the model `m` and base score `base`.
pub open spec fn budoux_split(m: crate::budoux::ModelWeights, base: int, u: Seq<CharStateView>) -> Seq<SegmentView> {
    let text = units_text(u, u.len());
    budoux_pieces(u, owners_upto(u, u.len()), phrase_lens(phrases(m, base, text)), 0, 0, 0)
}

/// Splits at the phrase boundaries that BudouX finds in the text of the units,
/// keeping every unit (a ruby, say) whole.
pub fn segment_with_budoux(char_states: &[CharState], parser: &ParserModel) -> (r: Vec<Segment>)
    ensures
        segments_view(r@) == budoux_split(parser.model@, parser.base_value as int, states_view(char_states@)),
        pieces_chars(segments_view(r@)).flatten() == states_view(char_states@),
        forall|j: int| 0 <= j < r@.len() ==> (#[trigger] segments_view(r@)[j]).chars.len() > 0,
{
    let count = char_states.len();
    proof {
        lemma_budoux_split_partitions(parser.model@, parser.base_value as int, states_view(char_states@));
    }
    let ghost u = states_view(char_states@);
    let n = char_states.len();
    let mut owners: Vec<usize> = Vec::new();
    let mut text = String::new();
    let mut index: usize = 0;
    while index < n
        invariant
            n == char_states@.len(),
            u == states_view(char_states@),
            index <= n,
            text@ == units_text(u, index as nat),
            owners@ == owners_upto(u, index as nat),
            owners@.len() == text@.len(),
            forall|a: int, b: int| 0 <= a <= b < owners@.len() ==> owners@[a] <= owners@[b],
            forall|a: int| 0 <= a < owners@.len() ==> owners@[a] < index,
        decreases n - index,
    {
        let t = char_states[index].unit.segmentation_text();
        assert(t@ == u[index as int].unit.segmentation_text());
        let tc = chars_of(t.as_str());
        text.append(t.as_str());
        let ghost before = owners@;
        let mut k: usize = 0;
        while k < tc.len()
            invariant
                index < n,
                k <= tc.len(),
                owners@ == before + Seq::new(k as nat, |j: int| index),
                forall|a: int, b: int| 0 <= a <= b < before.len() ==> before[a] <= before[b],
                forall|a: int| 0 <= a < before.len() ==> before[a] < index,
            decreases tc.len() - k,
        {
            owners.push(index);
            k = k + 1;
            assert(owners@ =~= before + Seq::new(k as nat, |j: int| index));
        }
        assert(owners@ =~= owners_upto(u, (index + 1) as nat));
        index = index + 1;
        assert forall|a: int, b: int| 0 <= a <= b < owners@.len() implies owners@[a] <= owners@[b] by {
            if b >= before.len() {
                assert(owners@[b] == index - 1);
            }
        }
    }
    let phrases_found = segment_with_model(text.as_str(), parser);
    let ghost ps = views_of(phrases_found@);
    let ghost lens = phrase_lens(ps);
    let ghost os = owners@;
    let total = owners.len();
    let mut result: Vec<Segment> = Vec::new();
    let mut char_index: usize = 0;
    let mut unit_index: usize = 0;
    let mut j: usize = 0;
    assert(ps.subrange(0, ps.len() as int) =~= ps);
    while j < phrases_found.len()
        invariant
            n == char_states@.len(),
            u == states_view(char_states@),
            os == owners@,
            os.len() == text@.len(),
            total == os.len(),
            ps == views_of(phrases_found@),
            lens == phrase_lens(ps),
            ps.flatten() == text@,
            forall|k: int| 0 <= k < ps.len() ==> #[trigger] ps[k].len() > 0,
            forall|a: int, b: int| 0 <= a <= b < os.len() ==> os[a] <= os[b],
            forall|a: int| 0 <= a < os.len() ==> os[a] < n,
            j <= ps.len(),
            char_index + ps.subrange(j as int, ps.len() as int).flatten().len() == os.len(),
            unit_index <= n,
            char_index < os.len() ==> unit_index <= os[char_index as int],
            segments_view(result@) + budoux_pieces(u, os, lens, j as int, char_index as int, unit_index as int)
                == budoux_pieces(u, os, lens, 0, 0, 0),
        decreases ps.len() - j,
    {
        let ghost rest = ps.subrange(j as int, ps.len() as int);
        assert(rest.first() == ps[j as int]);
        assert(rest.drop_first() =~= ps.subrange(j + 1, ps.len() as int));
        assert(ps[j as int] == phrases_found@[j as int]@);
        assert(rest.flatten() == rest.first() + rest.drop_first().flatten());
        let len = phrases_found[j].as_str().unicode_len();
        assert(len == ps[j as int].len());
        assert(len > 0);
        assert(char_index + len <= total);
        char_index = char_index + len;
        j = j + 1;
        if char_index < owners.len() && owners[char_index - 1] == owners[char_index] {
            continue;
        }
        let end_unit = if char_index == owners.len() {
            n
        } else {
            owners[char_index]
        };
        let ghost before = result@;
        result.push(
            Segment {
                chars: clone_range(char_states, unit_index, end_unit),
                wrapped_by: if unit_index == 0 {
                    WrappedBy::NotWrapped
                } else {
                    WrappedBy::Budoux
                },
            },
        );
        assert(segments_view(result@) =~= segments_view(before).push(
            budoux_piece(u, unit_index as int, end_unit as int),
        ));
        unit_index = end_unit;
    }
    result
}

/// `ss` with its first piece (if any) wrapped by `w`.
pub open spec fn rewrap_first(ss: Seq<SegmentView>, w: WrappedByView) -> Seq<SegmentView> {
    if ss.len() > 0 {
        ss.update(0, SegmentView { chars: ss[0].chars, wrapped_by: w })
    } else {
        ss
    }
}

/// Each piece of `ss` split at its manual breaks, the first part keeping the
/// wrapping of the piece.
pub open spec fn manual_stage(ss: Seq<SegmentView>) -> Seq<SegmentView>
    decreases ss.len(),
{
    if ss.len() == 0 {
        Seq::empty()
    } else {
        manual_stage(ss.drop_last()) + rewrap_first(manual_split(ss.last().chars), ss.last().wrapped_by)
    }
}

/// Each piece of `ss` split at its BudouX phrase boundaries, the first part
/// keeping the wrapping of the piece; pieces without units vanish.
pub open spec fn budoux_stage(m: crate::budoux::ModelWeights, base: int, ss: Seq<SegmentView>) -> Seq<SegmentView>
    decreases ss.len(),
{
    if ss.len() == 0 {
        Seq::empty()
    } else {
        budoux_stage(m, base, ss.drop_last()) + rewrap_first(
            budoux_split(m, base, ss.last().chars),
            ss.last().wrapped_by,
        )
    }
}

/// How `segment` splits `u`: at whitespace, then at manual breaks, then at
/// BudouX phrase boundaries.
pub open spec fn full_split(m: crate::budoux::ModelWeights, base: int, u: Seq<CharStateView>) -> Seq<SegmentView> {
    budoux_stage(m, base, manual_stage(whitespace_split(u)))
}

fn rewrap_first_exec(segs: &mut Vec<Segment>, w: WrappedBy)
    ensures
        segments_view(final(segs)@) == rewrap_first(segments_view(old(segs)@), w@),
{
    if segs.len() > 0 {
        let ghost before = segs@;
        let mut first = segs.remove(0);
        first.wrapped_by = w;
        segs.insert(0, first);
        assert(segments_view(segs@) =~= rewrap_first(segments_view(before), w@));
    }
}

fn split_manually_all(ws: Vec<Segment>) -> (r: Vec<Segment>)
    ensures
        segments_view(r@) == manual_stage(segments_view(ws@)),
{
    let ghost wv = segments_view(ws@);
    let mut result: Vec<Segment> = Vec::new();
    for seg in it: ws
        invariant
            it.seq() == ws@,
            wv == segments_view(ws@),
            segments_view(result@) == manual_stage(wv.take(it.index() as int)),
    {
        let ghost k = it.index() as int;
        assert(seg == ws@[k]);
        let mut parts = segment_manually(seg.chars.as_slice());
        rewrap_first_exec(&mut parts, seg.wrapped_by);
        let ghost before = result@;
        let ghost moved = parts@;
        result.append(&mut parts);
        assert(wv.take(k + 1).drop_last() =~= wv.take(k));
        assert(segments_view(result@) =~= segments_view(before) + segments_view(moved));
    }
    assert(wv.take(wv.len() as int) =~= wv);
    result
}

fn split_with_budoux_all(ms: Vec<Segment>, parser: &ParserModel) -> (r: Vec<Segment>)
    ensures
        segments_view(r@) == budoux_stage(parser.model@, parser.base_value as int, segments_view(ms@)),
{
    let ghost mv = segments_view(ms@);
    let ghost m = parser.model@;
    let ghost base = parser.base_value as int;
    let mut result: Vec<Segment> = Vec::new();
    for seg in it: ms
        invariant
            it.seq() == ms@,
            mv == segments_view(ms@),
            m == parser.model@,
            base == parser.base_value as int,
            segments_view(result@) == budoux_stage(m, base, mv.take(it.index() as int)),
    {
        let ghost k = it.index() as int;
        assert(seg == ms@[k]);
        let mut parts = segment_with_budoux(seg.chars.as_slice(), parser);
        rewrap_first_exec(&mut parts, seg.wrapped_by);
        let ghost before = result@;
        let ghost moved = parts@;
        result.append(&mut parts);
        assert(mv.take(k + 1).drop_last() =~= mv.take(k));
        assert(segments_view(result@) =~= segments_view(before) + segments_view(moved));
    }
    assert(mv.take(mv.len() as int) =~= mv);
    result
}

/// Splits a line into the pieces that line wrapping may not break: at
/// whitespace, then at manual breaks `\b`, then at BudouX phrase boundaries. The
/// first piece of each split keeps the wrapping of the piece it came from.
pub fn segment(char_states: &[CharState], parser: &ParserModel) -> (r: Vec<Segment>)
    ensures
        segments_view(r@) == full_split(parser.model@, parser.base_value as int, states_view(char_states@)),
        pieces_chars(segments_view(r@)).flatten() == units_without_markers(
            whitespace_split(states_view(char_states@)),
        ),
        pieces_well_formed(segments_view(r@)),
{
    let ws = segment_with_whitespace(char_states);
    let ms = split_manually_all(ws);
    proof {
        let mv = segments_view(ms@);
        assert forall|k: int| 0 <= k < mv.len() implies (#[trigger] mv[k]).chars.len() <= usize::MAX by {
            assert(mv[k].chars.len() == ms@[k].chars@.len());
            assert(ms@[k].chars@.len() == ms@[k].chars.len());
        }
        lemma_budoux_stage_keeps_units(parser.model@, parser.base_value as int, mv);
        lemma_manual_stage_drops_markers(whitespace_split(states_view(char_states@)));
        lemma_whitespace_split_well_formed(states_view(char_states@));
        lemma_manual_stage_wraps(whitespace_split(states_view(char_states@)));
        lemma_budoux_stage_well_formed(parser.model@, parser.base_value as int, mv);
    }
    split_with_budoux_all(ms, parser)
}

/// The units of some pieces, piece by piece.
pub open spec fn pieces_chars(ss: Seq<SegmentView>) -> Seq<Seq<CharStateView>> {
    ss.map_values(|x: SegmentView| x.chars)
}

/// Keeps the units that are not whitespace.
pub open spec fn non_whitespace() -> spec_fn(CharStateView) -> bool {
    |c: CharStateView| !c.unit.is_whitespace()
}

proof fn lemma_whitespace_scan(u: Seq<CharStateView>, k: nat)
    requires
        k <= u.len(),
    ensures
        ({
            let st = whitespace_scan(u, k);
            let tail = match st.run_start {
                Some(s) => u.subrange(s, k as int),
                None => Seq::empty(),
            };
            &&& pieces_chars(st.result).flatten() + tail == u.take(k as int).filter(non_whitespace())
            &&& (st.run_start matches Some(s) ==> 0 <= s < k)
            &&& forall|j: int| 0 <= j < st.result.len() ==> #[trigger] st.result[j].chars.len() > 0
        }),
    decreases k,
{
    reveal(Seq::filter);
    broadcast use Seq::lemma_flatten_push;

    if k == 0 {
        assert(u.take(0) =~= Seq::<CharStateView>::empty());
        assert(pieces_chars(Seq::<SegmentView>::empty()) =~= Seq::<Seq<CharStateView>>::empty());
    } else {
        let i = k - 1;
        lemma_whitespace_scan(u, i as nat);
        let st = whitespace_scan(u, i as nat);
        let st2 = whitespace_scan(u, k);
        assert(u.take(k as int).drop_last() =~= u.take(i));
        assert(u.take(k as int).last() == u[i]);
        let f = u.take(i).filter(non_whitespace());
        if u[i].unit.is_whitespace() {
            assert(u.take(k as int).filter(non_whitespace()) == f);
            match st.run_start {
                Some(s) => {
                    assert(pieces_chars(st2.result) =~= pieces_chars(st.result).push(u.subrange(s, i)));
                    assert(pieces_chars(st2.result).flatten() + Seq::empty() =~= pieces_chars(st.result).flatten() + u.subrange(s, i));
                },
                None => {
                    assert(pieces_chars(st2.result).flatten() + Seq::empty() =~= pieces_chars(st.result).flatten());
                },
            }
        } else {
            assert(u.take(k as int).filter(non_whitespace()) == f.push(u[i]));
            match st.run_start {
                Some(s) => {
                    assert(u.subrange(s, k as int) =~= u.subrange(s, i).push(u[i]));
                    assert(pieces_chars(st.result).flatten() + u.subrange(s, k as int) =~= (pieces_chars(st.result).flatten() + u.subrange(s, i)).push(u[i]));
                },
                None => {
                    assert(u.subrange(i, k as int) =~= seq![u[i]]);
                    assert(pieces_chars(st.result).flatten() + u.subrange(i, k as int) =~= (pieces_chars(st.result).flatten() + Seq::empty()).push(u[i]));
                },
            }
        }
    }
}

/// Splitting at whitespace drops exactly the whitespace: the pieces, joined,
/// are the units that are not whitespace, in order, and no piece is empty.
pub proof fn lemma_whitespace_split_keeps_words(u: Seq<CharStateView>)
    ensures
        pieces_chars(whitespace_split(u)).flatten() == u.filter(non_whitespace()),
        forall|j: int| 0 <= j < whitespace_split(u).len() ==> #[trigger] whitespace_split(u)[j].chars.len() > 0,
{
    broadcast use Seq::lemma_flatten_push;

    lemma_whitespace_scan(u, u.len());
    let st = whitespace_scan(u, u.len());
    assert(u.take(u.len() as int) =~= u);
    let result = match st.run_start {
        Some(s) => st.result.push(
            SegmentView { chars: u.subrange(s, u.len() as int), wrapped_by: wrap_after(st.pending) },
        ),
        None => st.result,
    };
    match st.run_start {
        Some(s) => {
            assert(pieces_chars(result) =~= pieces_chars(st.result).push(u.subrange(s, u.len() as int)));
        },
        None => {
            assert(pieces_chars(st.result).flatten() + Seq::empty() =~= pieces_chars(st.result).flatten());
        },
    }
    assert(pieces_chars(whitespace_split(u)) =~= pieces_chars(result));
}

/// The whitespace units that wrap a piece (none for other wrappings).
pub open spec fn wrapping_units(w: WrappedByView) -> Seq<CharStateView> {
    match w {
        WrappedByView::Whitespace(v) => v,
        _ => Seq::empty(),
    }
}

/// The pieces written back with their wrapping whitespace: for each piece, in
/// order, the whitespace units that wrap it and then its own units.
pub open spec fn pieces_with_wrapping(ps: Seq<SegmentView>) -> Seq<CharStateView>
    decreases ps.len(),
{
    if ps.len() == 0 {
        Seq::empty()
    } else {
        pieces_with_wrapping(ps.drop_last()) + wrapping_units(ps.last().wrapped_by) + ps.last().chars
    }
}

proof fn lemma_whitespace_scan_restores(u: Seq<CharStateView>, k: nat)
    requires
        k <= u.len(),
    ensures
        ({
            let st = whitespace_scan(u, k);
            match st.run_start {
                Some(s) => 0 <= s < k && pieces_with_wrapping(st.result) + st.pending + u.subrange(s, k as int)
                    == u.take(k as int),
                None => pieces_with_wrapping(st.result) + st.pending == u.take(k as int),
            }
        }),
        k > 0 ==> (whitespace_scan(u, k).run_start is Some <==> !u[k - 1].unit.is_whitespace()),
    decreases k,
{
    if k == 0 {
        assert(u.take(0) =~= Seq::<CharStateView>::empty());
        assert(pieces_with_wrapping(Seq::<SegmentView>::empty()) + Seq::<CharStateView>::empty() =~= Seq::<
            CharStateView,
        >::empty());
    } else {
        let i = k - 1;
        lemma_whitespace_scan_restores(u, i as nat);
        let st = whitespace_scan(u, i as nat);
        let st2 = whitespace_scan(u, k);
        assert(u.take(k as int) =~= u.take(i).push(u[i]));
        if u[i].unit.is_whitespace() {
            match st.run_start {
                Some(s) => {
                    let seg = SegmentView { chars: u.subrange(s, i), wrapped_by: wrap_after(st.pending) };
                    assert(st2.result.drop_last() =~= st.result);
                    assert(wrapping_units(wrap_after(st.pending)) =~= st.pending);
                    assert(pieces_with_wrapping(st2.result) == pieces_with_wrapping(st.result) + st.pending
                        + u.subrange(s, i));
                    assert(pieces_with_wrapping(st2.result) + st2.pending =~= (pieces_with_wrapping(st.result)
                        + st.pending + u.subrange(s, i)).push(u[i]));
                },
                None => {
                    assert(pieces_with_wrapping(st2.result) + st2.pending =~= (pieces_with_wrapping(st.result)
                        + st.pending).push(u[i]));
                },
            }
        } else {
            match st.run_start {
                Some(s) => {
                    assert(u.subrange(s, k as int) =~= u.subrange(s, i).push(u[i]));
                    assert(pieces_with_wrapping(st.result) + st.pending + u.subrange(s, k as int) =~= (
                    pieces_with_wrapping(st.result) + st.pending + u.subrange(s, i)).push(u[i]));
                },
                None => {
                    assert(u.subrange(i, k as int) =~= seq![u[i]]);
                    assert(pieces_with_wrapping(st.result) + st.pending + u.subrange(i, k as int) =~= (
                    pieces_with_wrapping(st.result) + st.pending).push(u[i]));
                },
            }
        }
    }
}

/// Splitting at whitespace loses no unit of a line that does not end in
/// whitespace: the pieces, each after the whitespace that wraps it (the
/// whitespace before the first piece included), give back the whole line in
/// order. In particular a whitespace wrapping holds every whitespace unit
/// between two runs.
pub proof fn lemma_whitespace_split_keeps_every_unit(u: Seq<CharStateView>)
    requires
        u.len() == 0 || !u.last().unit.is_whitespace(),
    ensures
        pieces_with_wrapping(whitespace_split(u)) == u,
{
    let n = u.len();
    lemma_whitespace_scan_restores(u, n);
    let st = whitespace_scan(u, n);
    assert(u.take(n as int) =~= u);
    if n == 0 {
        assert(whitespace_split(u) =~= Seq::<SegmentView>::empty());
        assert(u =~= Seq::<CharStateView>::empty());
    } else {
        let s = st.run_start->Some_0;
        let seg = SegmentView { chars: u.subrange(s, n as int), wrapped_by: wrap_after(st.pending) };
        assert(whitespace_split(u) == st.result.push(seg));
        assert(st.result.push(seg).drop_last() =~= st.result);
        assert(wrapping_units(wrap_after(st.pending)) =~= st.pending);
    }
}

proof fn lemma_whitespace_scan_prefix(u: Seq<CharStateView>, w: Seq<CharStateView>, k: nat)
    requires
        k <= u.len(),
        k <= w.len(),
        u.take(k as int) == w.take(k as int),
    ensures
        whitespace_scan(u, k) == whitespace_scan(w, k),
    decreases k,
{
    if k > 0 {
        let i = k - 1;
        assert(u.take(i) =~= u.take(k as int).take(i));
        assert(w.take(i) =~= w.take(k as int).take(i));
        assert(u[i] == u.take(k as int)[i]);
        assert(w[i] == w.take(k as int)[i]);
        lemma_whitespace_scan_prefix(u, w, i as nat);
        lemma_whitespace_scan_restores(u, i as nat);
        let st = whitespace_scan(u, i as nat);
        match st.run_start {
            Some(s) => {
                assert(u.subrange(s, i) =~= w.subrange(s, i)) by {
                    assert forall|j: int| 0 <= j < i - s implies u.subrange(s, i)[j] == w.subrange(s, i)[j] by {
                        assert(u[s + j] == u.take(k as int)[s + j]);
                        assert(w[s + j] == w.take(k as int)[s + j]);
                    }
                }
            },
            None => {},
        }
    }
}

/// Whitespace at the end of a line becomes the wrapping of the line's last
/// piece, in place of the whitespace that came before that piece: the pieces of
/// the line with trailing whitespace `t` are those of the line without it, the
/// last one wrapped by `t`.
pub proof fn lemma_trailing_whitespace_wraps_last_piece(v: Seq<CharStateView>, t: Seq<CharStateView>)
    requires
        v.len() > 0,
        !v.last().unit.is_whitespace(),
        t.len() > 0,
        forall|j: int| 0 <= j < t.len() ==> (#[trigger] t[j]).unit.is_whitespace(),
    ensures
        whitespace_split(v).len() > 0,
        whitespace_split(v + t) == whitespace_split(v).update(
            whitespace_split(v).len() - 1,
            SegmentView { chars: whitespace_split(v).last().chars, wrapped_by: WrappedByView::Whitespace(t) },
        ),
{
    let u = v + t;
    let n = v.len();
    assert(u.take(n as int) =~= v.take(n as int));
    lemma_whitespace_scan_prefix(u, v, n);
    lemma_whitespace_scan_restores(v, n);
    let base = whitespace_scan(v, n);
    let s = base.run_start->Some_0;
    let seg = SegmentView { chars: v.subrange(s, n as int), wrapped_by: wrap_after(base.pending) };
    assert(whitespace_split(v) == base.result.push(seg));
    assert(u.subrange(s, n as int) =~= v.subrange(s, n as int));
    let after = base.result.push(seg);
    assert forall|j: nat| 1 <= j <= t.len() implies #[trigger] whitespace_scan(u, n + j) == (WhitespaceScan {
        result: after,
        run_start: None,
        pending: t.take(j as int),
    }) by {
        lemma_trailing_scan(v, t, j);
    }
    assert(t.take(t.len() as int) =~= t);
    assert(whitespace_scan(u, u.len()) == whitespace_scan(u, n + t.len()));
}

proof fn lemma_trailing_scan(v: Seq<CharStateView>, t: Seq<CharStateView>, j: nat)
    requires
        v.len() > 0,
        !v.last().unit.is_whitespace(),
        forall|k: int| 0 <= k < t.len() ==> (#[trigger] t[k]).unit.is_whitespace(),
        1 <= j <= t.len(),
    ensures
        ({
            let n = v.len();
            let base = whitespace_scan(v, n);
            let seg = SegmentView {
                chars: v.subrange(base.run_start->Some_0, n as int),
                wrapped_by: wrap_after(base.pending),
            };
            whitespace_scan(v + t, n + j) == (WhitespaceScan {
                result: base.result.push(seg),
                run_start: None,
                pending: t.take(j as int),
            })
        }),
    decreases j,
{
    let u = v + t;
    let n = v.len();
    let i = n + j - 1;
    assert(u[i] == t[j - 1]);
    if j == 1 {
        assert(u.take(n as int) =~= v.take(n as int));
        lemma_whitespace_scan_prefix(u, v, n);
        lemma_whitespace_scan_restores(v, n);
        let base = whitespace_scan(v, n);
        let s = base.run_start->Some_0;
        assert(u.subrange(s, n as int) =~= v.subrange(s, n as int));
        assert(t.take(1) =~= seq![t[0]]);
    } else {
        lemma_trailing_scan(v, t, (j - 1) as nat);
        assert(t.take(j as int) =~= t.take(j - 1).push(t[j - 1]));
    }
}

/// `u` with its manual break markers `\b` taken out, reading from the left.
pub open spec fn without_markers(u: Seq<CharStateView>) -> Seq<CharStateView>
    decreases u.len(),
{
    if u.len() == 0 {
        Seq::empty()
    } else if is_break_marker(u, 0) {
        without_markers(u.skip(2))
    } else {
        seq![u[0]] + without_markers(u.skip(1))
    }
}

/// The number of manual break markers `\b` in `u`, reading from the left.
pub open spec fn marker_count(u: Seq<CharStateView>) -> nat
    decreases u.len(),
{
    if u.len() == 0 {
        0
    } else if is_break_marker(u, 0) {
        1 + marker_count(u.skip(2))
    } else {
        marker_count(u.skip(1))
    }
}

proof fn lemma_manual_split_from(u: Seq<CharStateView>, start: int, i: int)
    requires
        0 <= start <= i <= u.len(),
    ensures
        pieces_chars(manual_split_from(u, start, i)).flatten() == u.subrange(start, i) + without_markers(u.skip(i)),
        manual_split_from(u, start, i).len() == 1 + marker_count(u.skip(i)),
    decreases u.len() - i,
{
    broadcast use Seq::lemma_flatten_singleton;

    let w = u.skip(i);
    if i >= u.len() {
        assert(w.len() == 0);
        assert(pieces_chars(seq![manual_piece(u, start, u.len() as int)]) =~= seq![u.subrange(start, u.len() as int)]);
        assert(u.subrange(start, i) + Seq::empty() =~= u.subrange(start, i));
    } else {
        assert(is_break_marker(w, 0) == is_break_marker(u, i));
        if is_break_marker(u, i) {
            lemma_manual_split_from(u, i + 2, i + 2);
            assert(w.skip(2) =~= u.skip(i + 2));
            let first = seq![manual_piece(u, start, i)];
            let rest = manual_split_from(u, i + 2, i + 2);
            assert(pieces_chars(first + rest) =~= pieces_chars(first) + pieces_chars(rest));
            vstd::seq_lib::lemma_flatten_concat(pieces_chars(first), pieces_chars(rest));
            assert(pieces_chars(first) =~= seq![u.subrange(start, i)]);
            assert(u.subrange(i + 2, i + 2) =~= Seq::<CharStateView>::empty());
            assert(u.subrange(start, i) + (Seq::<CharStateView>::empty() + without_markers(u.skip(i + 2))) =~= u.subrange(start, i) + without_markers(u.skip(i + 2)));
        } else {
            lemma_manual_split_from(u, start, i + 1);
            assert(w.skip(1) =~= u.skip(i + 1));
            assert(w[0] == u[i]);
            assert(u.subrange(start, i + 1) =~= u.subrange(start, i).push(u[i]));
            assert(u.subrange(start, i + 1) + without_markers(u.skip(i + 1)) =~= u.subrange(start, i) + (seq![u[i]] + without_markers(u.skip(i + 1))));
        }
    }
}

/// A manual split drops exactly the break markers: the pieces, joined, are the
/// units with every `\b` taken out, and there is one piece more than markers.
pub proof fn lemma_manual_split_drops_markers(u: Seq<CharStateView>)
    ensures
        pieces_chars(manual_split(u)).flatten() == without_markers(u),
        manual_split(u).len() == 1 + marker_count(u),
{
    lemma_manual_split_from(u, 0, 0);
    assert(u.skip(0) =~= u);
    assert(u.subrange(0, 0) + without_markers(u) =~= without_markers(u));
}

proof fn lemma_owners(u: Seq<CharStateView>, k: nat)
    requires
        k <= u.len(),
        u.len() <= usize::MAX,
    ensures
        owners_upto(u, k).len() == units_text(u, k).len(),
        owners_upto(u, k).len() >= k,
        forall|a: int, b: int|
            0 <= a <= b < owners_upto(u, k).len() ==> owners_upto(u, k)[a] <= owners_upto(u, k)[b],
        forall|a: int| 0 <= a < owners_upto(u, k).len() ==> owners_upto(u, k)[a] < k,
    decreases k,
{
    if k > 0 {
        lemma_owners(u, (k - 1) as nat);
        let t = u[k - 1].unit.segmentation_text();
        assert(t.len() > 0);
        let prev = owners_upto(u, (k - 1) as nat);
        let os = owners_upto(u, k);
        assert forall|a: int, b: int| 0 <= a <= b < os.len() implies os[a] <= os[b] by {
            if b >= prev.len() {
                assert(os[b] == k - 1);
                if a < prev.len() {
                    assert(os[a] == prev[a]);
                }
            } else {
                assert(os[a] == prev[a] && os[b] == prev[b]);
            }
        }
        assert forall|a: int| 0 <= a < os.len() implies os[a] < k by {
            if a < prev.len() {
                assert(os[a] == prev[a]);
            }
        }
    }
}

proof fn lemma_budoux_pieces(
    u: Seq<CharStateView>,
    os: Seq<usize>,
    ps: Seq<Seq<char>>,
    j: int,
    ci: int,
    ui: int,
)
    requires
        0 <= j <= ps.len(),
        forall|k: int| 0 <= k < ps.len() ==> #[trigger] ps[k].len() > 0,
        0 <= ci,
        ci + ps.subrange(j, ps.len() as int).flatten().len() == os.len(),
        forall|a: int, b: int| 0 <= a <= b < os.len() ==> os[a] <= os[b],
        forall|a: int| 0 <= a < os.len() ==> os[a] < u.len(),
        0 <= ui <= u.len(),
        ci < os.len() ==> ui <= os[ci],
        ci == os.len() ==> ui == u.len(),
    ensures
        pieces_chars(budoux_pieces(u, os, phrase_lens(ps), j, ci, ui)).flatten() == u.subrange(ui, u.len() as int),
        forall|k: int|
            0 <= k < budoux_pieces(u, os, phrase_lens(ps), j, ci, ui).len() ==> #[trigger] budoux_pieces(
                u,
                os,
                phrase_lens(ps),
                j,
                ci,
                ui,
            )[k].chars.len() > 0,
    decreases ps.len() - j,
{
    let lens = phrase_lens(ps);
    let rest = ps.subrange(j, ps.len() as int);
    if j == ps.len() {
        assert(rest.len() == 0);
        assert(u.subrange(ui, u.len() as int) =~= Seq::<CharStateView>::empty());
        assert(pieces_chars(Seq::<SegmentView>::empty()) =~= Seq::<Seq<CharStateView>>::empty());
    } else {
        assert(rest.flatten() == rest.first() + rest.drop_first().flatten());
        assert(rest.drop_first() =~= ps.subrange(j + 1, ps.len() as int));
        assert(rest.first() == ps[j]);
        assert(lens[j] == ps[j].len());
        let ci2 = ci + lens[j];
        assert(ci < ci2 <= os.len());
        if ci2 < os.len() && os[ci2 - 1] == os[ci2] {
            lemma_budoux_pieces(u, os, ps, j + 1, ci2, ui);
        } else {
            let end = if ci2 == os.len() {
                u.len() as int
            } else {
                os[ci2] as int
            };
            assert(ui <= os[ci]);
            if ci2 < os.len() {
                assert(os[ci] <= os[ci2 - 1]);
                assert(ui < end);
            } else {
                assert(os[ci] < u.len());
            }
            lemma_budoux_pieces(u, os, ps, j + 1, ci2, end);
            let first = seq![budoux_piece(u, ui, end)];
            let later = budoux_pieces(u, os, lens, j + 1, ci2, end);
            assert(pieces_chars(first + later) =~= pieces_chars(first) + pieces_chars(later));
            vstd::seq_lib::lemma_flatten_concat(pieces_chars(first), pieces_chars(later));
            assert(pieces_chars(first) =~= seq![u.subrange(ui, end)]);
            assert(pieces_chars(first).flatten() == u.subrange(ui, end)) by {
                pieces_chars(first).lemma_flatten_singleton();
            }
            assert(u.subrange(ui, end) + u.subrange(end, u.len() as int) =~= u.subrange(ui, u.len() as int));
            assert forall|k: int| 0 <= k < (first + later).len() implies #[trigger] (first + later)[k].chars.len() > 0 by {
                if k > 0 {
                    assert((first + later)[k] == later[k - 1]);
                }
            }
        }
    }
}

/// A BudouX split keeps every unit, in order, and makes no empty piece: the
/// pieces, joined, give back the units.
pub proof fn lemma_budoux_split_partitions(m: crate::budoux::ModelWeights, base: int, u: Seq<CharStateView>)
    requires
        u.len() <= usize::MAX,
    ensures
        pieces_chars(budoux_split(m, base, u)).flatten() == u,
        forall|k: int| 0 <= k < budoux_split(m, base, u).len() ==> #[trigger] budoux_split(m, base, u)[k].chars.len() > 0,
{
    let text = units_text(u, u.len());
    let os = owners_upto(u, u.len());
    let ps = phrases(m, base, text);
    lemma_owners(u, u.len());
    crate::budoux::lemma_phrases_partition_text(m, base, text);
    assert(ps.subrange(0, ps.len() as int) =~= ps);
    if os.len() > 0 {
        assert(0 <= os[0]);
    }
    lemma_budoux_pieces(u, os, ps, 0, 0, 0);
    assert(u.subrange(0, u.len() as int) =~= u);
}

proof fn lemma_pieces_chars_concat(a: Seq<SegmentView>, b: Seq<SegmentView>)
    ensures
        pieces_chars(a + b).flatten() == pieces_chars(a).flatten() + pieces_chars(b).flatten(),
{
    assert(pieces_chars(a + b) =~= pieces_chars(a) + pieces_chars(b));
    vstd::seq_lib::lemma_flatten_concat(pieces_chars(a), pieces_chars(b));
}

proof fn lemma_rewrap_keeps_chars(ss: Seq<SegmentView>, w: WrappedByView)
    ensures
        pieces_chars(rewrap_first(ss, w)) == pieces_chars(ss),
{
    assert(pieces_chars(rewrap_first(ss, w)) =~= pieces_chars(ss));
}

/// The units of `ss`, piece by piece with the break markers taken out, joined.
pub open spec fn units_without_markers(ss: Seq<SegmentView>) -> Seq<CharStateView>
    decreases ss.len(),
{
    if ss.len() == 0 {
        Seq::empty()
    } else {
        units_without_markers(ss.drop_last()) + without_markers(ss.last().chars)
    }
}

/// Splitting pieces at manual breaks drops exactly their markers.
pub proof fn lemma_manual_stage_drops_markers(ss: Seq<SegmentView>)
    ensures
        pieces_chars(manual_stage(ss)).flatten() == units_without_markers(ss),
    decreases ss.len(),
{
    if ss.len() > 0 {
        lemma_manual_stage_drops_markers(ss.drop_last());
        let last = rewrap_first(manual_split(ss.last().chars), ss.last().wrapped_by);
        lemma_pieces_chars_concat(manual_stage(ss.drop_last()), last);
        lemma_rewrap_keeps_chars(manual_split(ss.last().chars), ss.last().wrapped_by);
        lemma_manual_split_drops_markers(ss.last().chars);
    }
}

/// Splitting pieces at BudouX phrase boundaries keeps every unit, in order.
pub proof fn lemma_budoux_stage_keeps_units(m: crate::budoux::ModelWeights, base: int, ss: Seq<SegmentView>)
    requires
        forall|k: int| 0 <= k < ss.len() ==> (#[trigger] ss[k]).chars.len() <= usize::MAX,
    ensures
        pieces_chars(budoux_stage(m, base, ss)).flatten() == pieces_chars(ss).flatten(),
    decreases ss.len(),
{
    broadcast use Seq::lemma_flatten_push;

    if ss.len() == 0 {
        assert(pieces_chars(ss) =~= Seq::<Seq<CharStateView>>::empty());
        assert(pieces_chars(budoux_stage(m, base, ss)) =~= Seq::<Seq<CharStateView>>::empty());
    } else {
        let init = ss.drop_last();
        assert forall|k: int| 0 <= k < init.len() implies (#[trigger] init[k]).chars.len() <= usize::MAX by {
            assert(init[k] == ss[k]);
        }
        lemma_budoux_stage_keeps_units(m, base, init);
        let last = rewrap_first(budoux_split(m, base, ss.last().chars), ss.last().wrapped_by);
        lemma_pieces_chars_concat(budoux_stage(m, base, init), last);
        lemma_rewrap_keeps_chars(budoux_split(m, base, ss.last().chars), ss.last().wrapped_by);
        lemma_budoux_split_partitions(m, base, ss.last().chars);
        assert(pieces_chars(ss) =~= pieces_chars(init).push(ss.last().chars));
    }
}

/// A piece is wrapped by whitespace units only, if by any.
pub open spec fn wrap_is_whitespace(w: WrappedByView) -> bool {
    match w {
        WrappedByView::Whitespace(v) => forall|i: int| 0 <= i < v.len() ==> (#[trigger] v[i]).unit.is_whitespace(),
        _ => true,
    }
}

/// Every piece has units and is wrapped by whitespace units only, if by any.
pub open spec fn pieces_well_formed(ss: Seq<SegmentView>) -> bool {
    forall|k: int|
        0 <= k < ss.len() ==> (#[trigger] ss[k]).chars.len() > 0 && wrap_is_whitespace(ss[k].wrapped_by)
}

proof fn lemma_whitespace_scan_pending(u: Seq<CharStateView>, k: nat)
    requires
        k <= u.len(),
    ensures
        forall|i: int|
            0 <= i < whitespace_scan(u, k).pending.len() ==> (#[trigger] whitespace_scan(u, k).pending[i]).unit.is_whitespace(),
        forall|j: int|
            0 <= j < whitespace_scan(u, k).result.len() ==> wrap_is_whitespace(
                (#[trigger] whitespace_scan(u, k).result[j]).wrapped_by,
            ),
    decreases k,
{
    if k > 0 {
        lemma_whitespace_scan_pending(u, (k - 1) as nat);
        let st = whitespace_scan(u, (k - 1) as nat);
        let st2 = whitespace_scan(u, k);
        assert forall|j: int| 0 <= j < st2.result.len() implies wrap_is_whitespace((#[trigger] st2.result[j]).wrapped_by) by {
            if j < st.result.len() {
                assert(st2.result[j] == st.result[j]);
            }
        }
    }
}

/// The pieces of a whitespace split have units and are wrapped by whitespace
/// units only.
pub proof fn lemma_whitespace_split_well_formed(u: Seq<CharStateView>)
    ensures
        pieces_well_formed(whitespace_split(u)),
{
    lemma_whitespace_scan_pending(u, u.len());
    lemma_whitespace_split_keeps_words(u);
    let st = whitespace_scan(u, u.len());
    let ws = whitespace_split(u);
    assert forall|k: int| 0 <= k < ws.len() implies (#[trigger] ws[k]).chars.len() > 0 && wrap_is_whitespace(ws[k].wrapped_by) by {
        if k < st.result.len() {
            assert(ws[k].wrapped_by == st.result[k].wrapped_by || ws[k].wrapped_by == WrappedByView::Whitespace(st.pending));
        }
    }
}

proof fn lemma_rewrap_well_formed(ss: Seq<SegmentView>, w: WrappedByView)
    requires
        forall|k: int| 0 <= k < ss.len() ==> (#[trigger] ss[k]).chars.len() > 0,
        forall|k: int| 0 < k < ss.len() ==> wrap_is_whitespace((#[trigger] ss[k]).wrapped_by),
        wrap_is_whitespace(w),
    ensures
        pieces_well_formed(rewrap_first(ss, w)),
{
}

proof fn lemma_concat_well_formed(a: Seq<SegmentView>, b: Seq<SegmentView>)
    requires
        pieces_well_formed(a),
        pieces_well_formed(b),
    ensures
        pieces_well_formed(a + b),
{
    assert forall|k: int| 0 <= k < (a + b).len() implies (#[trigger] (a + b)[k]).chars.len() > 0 && wrap_is_whitespace((a + b)[k].wrapped_by) by {
        if k < a.len() {
            assert((a + b)[k] == a[k]);
        } else {
            assert((a + b)[k] == b[k - a.len()]);
        }
    }
}

proof fn lemma_manual_split_wraps(u: Seq<CharStateView>, start: int, i: int)
    ensures
        forall|k: int|
            0 <= k < manual_split_from(u, start, i).len() ==> wrap_is_whitespace(
                (#[trigger] manual_split_from(u, start, i)[k]).wrapped_by,
            ),
    decreases u.len() - i,
{
    if !(i >= u.len() || i < 0) {
        if is_break_marker(u, i) {
            lemma_manual_split_wraps(u, i + 2, i + 2);
            let first = seq![manual_piece(u, start, i)];
            let rest = manual_split_from(u, i + 2, i + 2);
            assert forall|k: int| 0 <= k < (first + rest).len() implies wrap_is_whitespace((#[trigger] (first + rest)[k]).wrapped_by) by {
                if k > 0 {
                    assert((first + rest)[k] == rest[k - 1]);
                }
            }
        } else {
            lemma_manual_split_wraps(u, start, i + 1);
        }
    }
}

/// Splitting well-formed pieces at manual breaks keeps the wrappings whitespace;
/// the parts it makes may be empty.
proof fn lemma_manual_stage_wraps(ss: Seq<SegmentView>)
    requires
        pieces_well_formed(ss),
    ensures
        forall|k: int|
            0 <= k < manual_stage(ss).len() ==> wrap_is_whitespace((#[trigger] manual_stage(ss)[k]).wrapped_by),
    decreases ss.len(),
{
    if ss.len() > 0 {
        let init = ss.drop_last();
        assert forall|k: int| 0 <= k < init.len() implies (#[trigger] init[k]).chars.len() > 0 && wrap_is_whitespace(init[k].wrapped_by) by {
            assert(init[k] == ss[k]);
        }
        lemma_manual_stage_wraps(init);
        let last = ss.last();
        lemma_manual_split_wraps(last.chars, 0, 0);
        let parts = rewrap_first(manual_split(last.chars), last.wrapped_by);
        let a = manual_stage(init);
        assert forall|k: int| 0 <= k < (a + parts).len() implies wrap_is_whitespace((#[trigger] (a + parts)[k]).wrapped_by) by {
            if k < a.len() {
                assert((a + parts)[k] == a[k]);
            } else {
                assert((a + parts)[k] == parts[k - a.len()]);
                if k - a.len() > 0 {
                    assert(parts[k - a.len()] == manual_split(last.chars)[k - a.len()]);
                }
            }
        }
    }
}

proof fn lemma_budoux_pieces_wraps(
    u: Seq<CharStateView>,
    os: Seq<usize>,
    lens: Seq<int>,
    j: int,
    ci: int,
    ui: int,
)
    ensures
        forall|k: int|
            0 <= k < budoux_pieces(u, os, lens, j, ci, ui).len() ==> wrap_is_whitespace(
                (#[trigger] budoux_pieces(u, os, lens, j, ci, ui)[k]).wrapped_by,
            ),
    decreases lens.len() - j,
{
    if !(j >= lens.len() || j < 0) {
        let ci2 = ci + lens[j];
        if ci2 < os.len() && os[ci2 - 1] == os[ci2] {
            lemma_budoux_pieces_wraps(u, os, lens, j + 1, ci2, ui);
        } else {
            let end = if ci2 == os.len() {
                u.len() as int
            } else {
                os[ci2] as int
            };
            lemma_budoux_pieces_wraps(u, os, lens, j + 1, ci2, end);
            let first = seq![budoux_piece(u, ui, end)];
            let rest = budoux_pieces(u, os, lens, j + 1, ci2, end);
            assert forall|k: int| 0 <= k < (first + rest).len() implies wrap_is_whitespace((#[trigger] (first + rest)[k]).wrapped_by) by {
                if k > 0 {
                    assert((first + rest)[k] == rest[k - 1]);
                }
            }
        }
    }
}

/// Splitting pieces with whitespace wrappings at BudouX phrase boundaries gives
/// well-formed pieces.
proof fn lemma_budoux_stage_well_formed(m: crate::budoux::ModelWeights, base: int, ss: Seq<SegmentView>)
    requires
        forall|k: int| 0 <= k < ss.len() ==> wrap_is_whitespace((#[trigger] ss[k]).wrapped_by),
        forall|k: int| 0 <= k < ss.len() ==> (#[trigger] ss[k]).chars.len() <= usize::MAX,
    ensures
        pieces_well_formed(budoux_stage(m, base, ss)),
    decreases ss.len(),
{
    if ss.len() > 0 {
        let init = ss.drop_last();
        assert forall|k: int| 0 <= k < init.len() implies wrap_is_whitespace((#[trigger] init[k]).wrapped_by) && init[k].chars.len() <= usize::MAX by {
            assert(init[k] == ss[k]);
        }
        lemma_budoux_stage_well_formed(m, base, init);
        let last = ss.last();
        let split = budoux_split(m, base, last.chars);
        lemma_budoux_split_partitions(m, base, last.chars);
        let text = units_text(last.chars, last.chars.len());
        lemma_budoux_pieces_wraps(last.chars, owners_upto(last.chars, last.chars.len()), phrase_lens(crate::budoux::phrases(m, base, text)), 0, 0, 0);
        lemma_rewrap_well_formed(split, last.wrapped_by);
        lemma_concat_well_formed(budoux_stage(m, base, init), rewrap_first(split, last.wrapped_by));
    }
}

} // verus!
