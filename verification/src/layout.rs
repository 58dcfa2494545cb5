use vstd::prelude::*;

use crate::budoux::ParserModel;
use crate::evaluate_chars::{
    append_controls, clone_range, controls_markup, controls_to_text, emitted_before, CharState, CharStateView, Element,
    TextUnitView, states_view,
};
use vstd::string::StringExecFns;
use crate::segment::{segment, segments_view, Segment, SegmentView, WrappedBy, WrappedByView};

verus! {

/// How lines are stretched to a common width: not at all, to the width asked
/// for, or to the width of the longest line.
#[derive(Debug, Clone, Copy, PartialEq, Eq, Structural)]
pub enum Justify {
    No,
    SpecifiedWidth,
    LongestLine,
}

impl Justify {
    /// The setting with numeric code `value` (`0..=2`); none for other codes.
    pub fn from_code(value: i32) -> (r: Option<Self>)
        ensures
            value == 0 ==> r == Some(Justify::No),
            value == 1 ==> r == Some(Justify::SpecifiedWidth),
            value == 2 ==> r == Some(Justify::LongestLine),
            r is None <==> !(0 <= value <= 2),
    {
        match value {
            0 => Some(Justify::No),
            1 => Some(Justify::SpecifiedWidth),
            2 => Some(Justify::LongestLine),
            _ => None,
        }
    }
}

/// Where a line sits across the width.
#[derive(Debug, Clone, Copy, PartialEq, Eq, Structural)]
pub enum HorizontalAlign {
    Left,
    Center,
    Right,
    Justify,
}

impl HorizontalAlign {
    /// The alignment with numeric code `value` (`0..=3`); none for other codes.
    pub fn from_code(value: i32) -> (r: Option<Self>)
        ensures
            value == 0 ==> r == Some(HorizontalAlign::Left),
            value == 1 ==> r == Some(HorizontalAlign::Center),
            value == 2 ==> r == Some(HorizontalAlign::Right),
            value == 3 ==> r == Some(HorizontalAlign::Justify),
            r is None <==> !(0 <= value <= 3),
    {
        match value {
            0 => Some(HorizontalAlign::Left),
            1 => Some(HorizontalAlign::Center),
            2 => Some(HorizontalAlign::Right),
            3 => Some(HorizontalAlign::Justify),
            _ => None,
        }
    }
}

/// How one wrapped line is aligned: a justified layout stretches every line but
/// the last of its paragraph; every other line takes the alignment asked for.
pub fn line_alignment(justify: Justify, is_paragraph_end: bool, align: HorizontalAlign) -> (r: HorizontalAlign)
    ensures
        r == (if justify != Justify::No && !is_paragraph_end { HorizontalAlign::Justify } else { align }),
{
    if justify != Justify::No && !is_paragraph_end {
        HorizontalAlign::Justify
    } else {
        align
    }
}

/// A line of the source text (up to a newline), with the number of controls
/// before its start.
pub struct SourceLine {
    pub chars: Vec<CharState>,
    pub control_index: usize,
}

/// A line as it is drawn: its units, the number of controls before it, and
/// whether it ends its paragraph.
pub struct WrappedLine {
    pub chars: Vec<CharState>,
    pub control_index: usize,
    pub is_paragraph_end: bool,
}

/// The units of a line of the source text, and the controls before it.
pub struct SourceLineView {
    pub chars: Seq<CharStateView>,
    pub control_index: usize,
}

/// The value of a wrapped line.
pub struct WrappedLineView {
    pub chars: Seq<CharStateView>,
    pub control_index: usize,
    pub is_paragraph_end: bool,
}

impl View for SourceLine {
    type V = SourceLineView;

    open spec fn view(&self) -> SourceLineView {
        SourceLineView { chars: states_view(self.chars@), control_index: self.control_index }
    }
}

impl View for WrappedLine {
    type V = WrappedLineView;

    open spec fn view(&self) -> WrappedLineView {
        WrappedLineView {
            chars: states_view(self.chars@),
            control_index: self.control_index,
            is_paragraph_end: self.is_paragraph_end,
        }
    }
}

/// The values of some source lines.
pub open spec fn source_lines_view(s: Seq<SourceLine>) -> Seq<SourceLineView> {
    s.map_values(|l: SourceLine| l@)
}

/// The values of some wrapped lines.
pub open spec fn wrapped_lines_view(s: Seq<WrappedLine>) -> Seq<WrappedLineView> {
    s.map_values(|l: WrappedLine| l@)
}

/// The source lines of `chars`: a newline unit ends a line (and is dropped); a
/// line starts after the controls that precede the newline before it, the first
/// after `initial_control_index` controls.
pub open spec fn source_lines_of(chars: Seq<CharStateView>, initial_control_index: usize) -> Seq<SourceLineView>
    decreases chars.len(),
{
    if chars.len() == 0 {
        seq![SourceLineView { chars: Seq::empty(), control_index: initial_control_index }]
    } else {
        let prev = source_lines_of(chars.drop_last(), initial_control_index);
        let c = chars.last();
        if c.unit == TextUnitView::Char('\n') {
            prev.push(SourceLineView { chars: Seq::empty(), control_index: c.control_index })
        } else {
            prev.update(
                prev.len() - 1,
                SourceLineView { chars: prev.last().chars.push(c), control_index: prev.last().control_index },
            )
        }
    }
}

proof fn lemma_source_lines_nonempty(chars: Seq<CharStateView>, initial_control_index: usize)
    ensures
        source_lines_of(chars, initial_control_index).len() >= 1,
    decreases chars.len(),
{
    if chars.len() > 0 {
        lemma_source_lines_nonempty(chars.drop_last(), initial_control_index);
    }
}

/// Splits evaluated units into the lines of the source text, at newline units.
pub fn split_source_lines(chars: Vec<CharState>, initial_control_index: usize) -> (r: Vec<SourceLine>)
    ensures
        source_lines_view(r@) == source_lines_of(states_view(chars@), initial_control_index),
{
    let ghost u = states_view(chars@);
    let mut lines: Vec<SourceLine> = Vec::new();
    let mut current: Vec<CharState> = Vec::new();
    let mut current_index = initial_control_index;
    let mut k: usize = 0;
    assert(u.take(0) =~= Seq::<CharStateView>::empty());
    for c in it: chars
        invariant
            it.seq() == chars@,
            u == states_view(chars@),
            ({
                let expected = source_lines_of(u.take(it.index() as int), initial_control_index);
                &&& expected.len() >= 1
                &&& source_lines_view(lines@) == expected.drop_last()
                &&& states_view(current@) == expected.last().chars
                &&& current_index == expected.last().control_index
            }),
    {
        let ghost i = it.index() as int;
        let ghost prev = source_lines_of(u.take(i), initial_control_index);
        assert(u.take(i + 1).drop_last() =~= u.take(i));
        assert(u.take(i + 1).last() == c@);
        proof {
            lemma_source_lines_nonempty(u.take(i + 1), initial_control_index);
        }
        let is_newline = match c.unit.as_char() {
            Some(x) => x == '\n',
            None => false,
        };
        if is_newline {
            let mut done: Vec<CharState> = Vec::new();
            std::mem::swap(&mut done, &mut current);
            let ghost before = lines@;
            lines.push(SourceLine { chars: done, control_index: current_index });
            current_index = c.control_index;
            assert(source_lines_view(lines@) =~= source_lines_view(before).push(prev.last()));
            assert(source_lines_view(lines@) =~= source_lines_of(u.take(i + 1), initial_control_index).drop_last());
            assert(states_view(current@) =~= Seq::<CharStateView>::empty());
        } else {
            let ghost before = current@;
            current.push(c);
            assert(states_view(current@) =~= states_view(before).push(u[i]));
            assert(source_lines_of(u.take(i + 1), initial_control_index).drop_last() =~= prev.drop_last());
        }
    }
    let ghost before = lines@;
    let ghost expected = source_lines_of(u, initial_control_index);
    assert(u.take(u.len() as int) =~= u);
    lines.push(SourceLine { chars: current, control_index: current_index });
    assert(source_lines_view(lines@) =~= source_lines_view(before).push(expected.last()));
    assert(expected =~= expected.drop_last().push(expected.last()));
    lines
}

/// `measure` answered, for some units with the value `chars`, a width within
/// `width`.
pub open spec fn measured_fit<E, F: Fn(&Vec<CharState>) -> Result<usize, E>>(
    measure: F,
    chars: Seq<CharStateView>,
    width: usize,
) -> bool {
    exists|c: Vec<CharState>, w: usize|
        #![trigger call_ensures(measure, (&c,), Ok::<usize, E>(w))]
        states_view(c@) == chars && w <= width && call_ensures(measure, (&c,), Ok::<usize, E>(w))
}

/// A wrapped line fits: it was measured within the width, or it holds a single
/// unit (which is put on a line of its own even when it is too wide), or none.
pub open spec fn line_fits<E, F: Fn(&Vec<CharState>) -> Result<usize, E>>(
    measure: F,
    line: WrappedLineView,
    width: usize,
) -> bool {
    line.chars.len() <= 1 || measured_fit(measure, line.chars, width)
}

/// The sum of the squared lengths of some pieces: splitting a piece into single
/// units makes it smaller.
pub open spec fn stack_weight(ss: Seq<SegmentView>) -> nat
    decreases ss.len(),
{
    if ss.len() == 0 {
        0
    } else {
        stack_weight(ss.drop_last()) + ss.last().chars.len() * ss.last().chars.len()
    }
}

fn append_clones(dst: &mut Vec<CharState>, src: &[CharState])
    ensures
        states_view(final(dst)@) == states_view(old(dst)@) + states_view(src@),
{
    let ghost start = dst@;
    let mut i: usize = 0;
    while i < src.len()
        invariant
            i <= src@.len(),
            dst@.len() == start.len() + i,
            states_view(dst@) == states_view(start) + states_view(src@).take(i as int),
        decreases src.len() - i,
    {
        let c = src[i].clone();
        let ghost before = dst@;
        dst.push(c);
        assert(states_view(dst@) =~= states_view(before).push(src@[i as int]@));
        assert(states_view(src@).take(i + 1) =~= states_view(src@).take(i as int).push(src@[i as int]@));
        i = i + 1;
    }
    assert(states_view(src@).take(src@.len() as int) =~= states_view(src@));
}

/// The units of some lines, one line after another.
pub open spec fn lines_units(g: Seq<WrappedLineView>) -> Seq<CharStateView>
    decreases g.len(),
{
    if g.len() == 0 {
        Seq::empty()
    } else {
        lines_units(g.drop_last()) + g.last().chars
    }
}

/// The units of a stack of pieces, from the top (its last element) down.
pub open spec fn stack_units(pv: Seq<SegmentView>) -> Seq<CharStateView>
    decreases pv.len(),
{
    if pv.len() == 0 {
        Seq::empty()
    } else {
        pv.last().chars + stack_units(pv.drop_last())
    }
}

/// The wrapped lines of one source line are as wrapping makes them: there is
/// at least one, the last ends the paragraph and no other does; an empty source
/// line gives one empty line that ends the paragraph; every line has units and
/// starts after the controls of its first unit, unless the lines are that one
/// empty line; and the lines hold the units of the pieces of the source line
/// that are not whitespace, in order (whitespace that wrapped a piece is kept
/// only inside a line).
pub open spec fn group_ok(g: Seq<WrappedLineView>, src: SourceLineView, m: crate::budoux::ModelWeights, base: int) -> bool {
    &&& g.len() > 0
    &&& forall|k: int| 0 <= k < g.len() - 1 ==> !(#[trigger] g[k]).is_paragraph_end
    &&& g.last().is_paragraph_end
    &&& src.chars.len() == 0 ==> g == empty_paragraph(src.control_index)
    &&& forall|k: int|
        0 <= k < g.len() ==> ((#[trigger] g[k]).chars.len() > 0 && g[k].control_index == g[k].chars[0].control_index)
            || g == empty_paragraph(src.control_index)
    &&& lines_units(g).filter(crate::segment::non_whitespace()) == crate::segment::pieces_chars(
        crate::segment::full_split(m, base, src.chars),
    ).flatten().filter(crate::segment::non_whitespace())
}

/// The lines of a source line with no piece to place: one empty line, after the
/// controls before the source line, that ends the paragraph.
pub open spec fn empty_paragraph(control_index: usize) -> Seq<WrappedLineView> {
    seq![WrappedLineView { chars: Seq::empty(), control_index, is_paragraph_end: true }]
}

proof fn lemma_lines_units_last_flag(g: Seq<WrappedLineView>, l: WrappedLineView)
    requires
        g.len() > 0,
        l.chars == g.last().chars,
    ensures
        lines_units(g.update(g.len() - 1, l)) == lines_units(g),
{
    let init = g.drop_last();
    assert(g =~= init.push(g.last()));
    assert(g.update(g.len() - 1, l) =~= init.push(l));
    lemma_lines_units_push(init, l);
    lemma_lines_units_push(init, g.last());
}

proof fn lemma_lines_units_push(g: Seq<WrappedLineView>, l: WrappedLineView)
    ensures
        lines_units(g.push(l)) == lines_units(g) + l.chars,
{
    assert(g.push(l).drop_last() =~= g);
}

proof fn lemma_stack_units_push(pv: Seq<SegmentView>, x: SegmentView)
    ensures
        stack_units(pv.push(x)) == x.chars + stack_units(pv),
        stack_weight(pv.push(x)) == stack_weight(pv) + x.chars.len() * x.chars.len(),
{
    assert(pv.push(x).drop_last() =~= pv);
}

proof fn lemma_whitespace_filtered_out(v: Seq<CharStateView>)
    requires
        forall|i: int| 0 <= i < v.len() ==> (#[trigger] v[i]).unit.is_whitespace(),
    ensures
        v.filter(crate::segment::non_whitespace()) == Seq::<CharStateView>::empty(),
    decreases v.len(),
{
    reveal(Seq::filter);
    if v.len() > 0 {
        let init = v.drop_last();
        assert forall|i: int| 0 <= i < init.len() implies (#[trigger] init[i]).unit.is_whitespace() by {
            assert(init[i] == v[i]);
        }
        lemma_whitespace_filtered_out(init);
        assert(v.last().unit.is_whitespace());
    }
}

/// Puts `pieces` on a stack whose top (its last element) is the first piece.
fn stack_pieces(pieces: Vec<Segment>) -> (pending: Vec<Segment>)
    requires
        crate::segment::pieces_well_formed(segments_view(pieces@)),
    ensures
        crate::segment::pieces_well_formed(segments_view(pending@)),
        stack_units(segments_view(pending@)) == crate::segment::pieces_chars(segments_view(pieces@)).flatten(),
        segments_view(pending@) == segments_view(pieces@).reverse(),
{
    let ghost all = segments_view(pieces@);
    let mut pieces = pieces;
    let mut pending: Vec<Segment> = Vec::new();
    assert(all.subrange(all.len() as int, all.len() as int) =~= Seq::<SegmentView>::empty());
    assert(crate::segment::pieces_chars(Seq::<SegmentView>::empty()) =~= Seq::<Seq<CharStateView>>::empty());
    assert(all.take(all.len() as int) =~= all);
    assert(segments_view(pending@) =~= Seq::<SegmentView>::empty().reverse());
    while pieces.len() > 0
        invariant
            segments_view(pieces@) == all.take(pieces@.len() as int),
            pieces@.len() <= all.len(),
            crate::segment::pieces_well_formed(all),
            crate::segment::pieces_well_formed(segments_view(pending@)),
            stack_units(segments_view(pending@)) == crate::segment::pieces_chars(
                all.subrange(pieces@.len() as int, all.len() as int),
            ).flatten(),
            segments_view(pending@) == all.subrange(pieces@.len() as int, all.len() as int).reverse(),
        decreases pieces.len(),
    {
        let ghost j = pieces@.len() - 1;
        let ghost before = pending@;
        let ghost old_pieces = pieces@;
        assert(segments_view(old_pieces)[j] == old_pieces[j]@);
        assert(all.take(old_pieces.len() as int)[j] == all[j]);
        let p = pieces.pop().unwrap();
        assert(p@ == all[j]);
        pending.push(p);
        proof {
            assert(segments_view(pending@) =~= segments_view(before).push(all[j]));
            lemma_stack_units_push(segments_view(before), all[j]);
            let tail = all.subrange(j + 1, all.len() as int);
            assert(all.subrange(j, all.len() as int) =~= seq![all[j]] + tail);
            assert(crate::segment::pieces_chars(seq![all[j]] + tail) =~= seq![all[j].chars] + crate::segment::pieces_chars(tail));
            vstd::seq_lib::lemma_flatten_concat(seq![all[j].chars], crate::segment::pieces_chars(tail));
            seq![all[j].chars].lemma_flatten_singleton();
            assert(segments_view(pieces@) =~= all.take(pieces@.len() as int));
            assert(all.subrange(j, all.len() as int).reverse() =~= tail.reverse().push(all[j]));
            assert forall|k: int| 0 <= k < segments_view(pending@).len() implies (#[trigger] segments_view(pending@)[k]).chars.len() > 0 && crate::segment::wrap_is_whitespace(segments_view(pending@)[k].wrapped_by) by {
                if k < before.len() {
                    assert(segments_view(pending@)[k] == segments_view(before)[k]);
                }
            }
        }
    }
    assert(all.subrange(0, all.len() as int) =~= all);
    pending
}

/// The last `count` units of `s`, last first, each a piece of its own wrapped
/// by an overflow.
pub open spec fn overflow_singles(s: SegmentView, count: int) -> Seq<SegmentView> {
    Seq::new(
        count as nat,
        |j: int| SegmentView { chars: seq![s.chars[s.chars.len() - 1 - j]], wrapped_by: WrappedByView::Overflow },
    )
}

/// The units of `s` as a stack of pieces of one unit each, the first on top:
/// the first keeps what wrapped `s`, the others are wrapped by an overflow.
pub open spec fn units_stack(s: SegmentView) -> Seq<SegmentView> {
    let n = s.chars.len() as int;
    overflow_singles(s, n).update(n - 1, SegmentView { chars: seq![s.chars[0]], wrapped_by: s.wrapped_by })
}

/// Puts the units of `seg` on the stack as pieces of one unit each, the first
/// on top; the first keeps what wrapped `seg`, the others are wrapped by an
/// overflow.
fn push_units(pending: &mut Vec<Segment>, seg: Segment)
    requires
        seg.chars@.len() >= 2,
        crate::segment::pieces_well_formed(segments_view(old(pending)@)),
        crate::segment::wrap_is_whitespace(seg@.wrapped_by),
    ensures
        crate::segment::pieces_well_formed(segments_view(final(pending)@)),
        stack_units(segments_view(final(pending)@)) == seg@.chars + stack_units(segments_view(old(pending)@)),
        stack_weight(segments_view(final(pending)@)) < stack_weight(segments_view(old(pending)@)) + seg@.chars.len() * seg@.chars.len(),
        segments_view(final(pending)@) == segments_view(old(pending)@) + units_stack(seg@),
{
    let ghost rest = segments_view(pending@);
    let ghost seg_v = seg@;
    let n = seg.chars.len();
    let mut k = n;
    assert(seg_v.chars.subrange(n as int, n as int) =~= Seq::<CharStateView>::empty());
    assert(stack_units(rest) =~= Seq::<CharStateView>::empty() + stack_units(rest));
    assert(segments_view(pending@).take(rest.len() as int) =~= rest);
    assert(rest + overflow_singles(seg_v, 0) =~= segments_view(pending@));
    while k > 0
        invariant
            k <= n,
            n == seg.chars@.len(),
            n >= 2,
            seg@ == seg_v,
            rest.len() <= segments_view(pending@).len(),
            segments_view(pending@).len() == rest.len() + (n - k),
            segments_view(pending@).take(rest.len() as int) == rest,
            forall|j: int|
                rest.len() <= j < segments_view(pending@).len() ==> (#[trigger] segments_view(pending@)[j]).chars.len() == 1
                    && segments_view(pending@)[j].wrapped_by == WrappedByView::Overflow,
            stack_units(segments_view(pending@)) == seg_v.chars.subrange(k as int, n as int) + stack_units(rest),
            stack_weight(segments_view(pending@)) == stack_weight(rest) + (n - k),
            segments_view(pending@) == rest + overflow_singles(seg_v, n - k),
        decreases k,
    {
        k = k - 1;
        let mut single: Vec<CharState> = Vec::new();
        single.push(seg.chars[k].clone());
        let ghost before = segments_view(pending@);
        let ghost piece = SegmentView { chars: seq![seg_v.chars[k as int]], wrapped_by: WrappedByView::Overflow };
        pending.push(Segment { chars: single, wrapped_by: WrappedBy::Overflow });
        proof {
            assert(states_view(single@) =~= seq![seg_v.chars[k as int]]);
            assert(segments_view(pending@) =~= before.push(piece));
            lemma_stack_units_push(before, piece);
            assert(piece.chars.len() == 1);
            assert(piece.chars.len() * piece.chars.len() == 1) by (nonlinear_arith)
                requires
                    piece.chars.len() == 1,
            ;
            assert(seg_v.chars.subrange(k as int, n as int) =~= seq![seg_v.chars[k as int]] + seg_v.chars.subrange(k + 1, n as int));
            assert(segments_view(pending@).take(rest.len() as int) =~= before.take(rest.len() as int));
            assert(rest + overflow_singles(seg_v, n - k) =~= (rest + overflow_singles(seg_v, n - (k + 1))).push(piece));
        }
    }
    let ghost before = segments_view(pending@);
    let mut front = pending.pop().unwrap();
    front.wrapped_by = seg.wrapped_by;
    pending.push(front);
    proof {
        let fixed = SegmentView { chars: before.last().chars, wrapped_by: seg_v.wrapped_by };
        assert(segments_view(pending@) =~= before.drop_last().push(fixed));
        assert(segments_view(pending@) =~= rest + units_stack(seg_v));
        assert(before =~= before.drop_last().push(before.last()));
        lemma_stack_units_push(before.drop_last(), before.last());
        lemma_stack_units_push(before.drop_last(), fixed);
        assert(seg_v.chars.subrange(0, n as int) =~= seg_v.chars);
        assert(n * 1 < n * n) by (nonlinear_arith)
            requires
                n >= 2,
        ;
        assert forall|j: int| 0 <= j < segments_view(pending@).len() implies (#[trigger] segments_view(pending@)[j]).chars.len() > 0 && crate::segment::wrap_is_whitespace(segments_view(pending@)[j].wrapped_by) by {
            if j < rest.len() {
                assert(segments_view(pending@)[j] == before.take(rest.len() as int)[j]);
            } else if j < segments_view(pending@).len() - 1 {
                assert(segments_view(pending@)[j] == before[j]);
            }
        }
    }
}

/// Where wrapping one source line stands: the lines made so far, the line
/// being filled, and the pieces still to place (the next on top, last).
pub struct WrapState {
    pub out: Seq<WrappedLineView>,
    pub current: Seq<CharStateView>,
    pub pending: Seq<SegmentView>,
}

/// A wrapped line holding `chars` (at least one unit), after the controls of
/// its first unit.
pub open spec fn line_of(chars: Seq<CharStateView>, is_paragraph_end: bool) -> WrappedLineView {
    WrappedLineView { chars, control_index: chars[0].control_index, is_paragraph_end }
}

/// The units whose width decides the next step: the line being filled, the
/// whitespace that wrapped the next piece (only when the line already has
/// units), and the units of the next piece.
pub open spec fn wrap_candidate(st: WrapState) -> Seq<CharStateView> {
    let top = st.pending.last();
    if st.current.len() > 0 {
        match top.wrapped_by {
            WrappedByView::Whitespace(ws) => st.current + ws + top.chars,
            _ => st.current + top.chars,
        }
    } else {
        top.chars
    }
}

/// One step of wrapping, given the width `w` measured for the candidate: if it
/// fits, the next piece joins the line; if not, a line with units is closed; an
/// empty line takes a lone unit that does not fit as a line of its own, and
/// breaks a longer piece into its units.
#[verifier::opaque]
pub open spec fn wrap_step(st: WrapState, width: usize, w: usize) -> WrapState {
    let top = st.pending.last();
    let rest = st.pending.drop_last();
    if w > width {
        if st.current.len() > 0 {
            WrapState { out: st.out.push(line_of(st.current, false)), current: Seq::empty(), pending: st.pending }
        } else if top.chars.len() == 1 {
            WrapState { out: st.out.push(line_of(top.chars, false)), current: Seq::empty(), pending: rest }
        } else {
            WrapState { out: st.out, current: Seq::empty(), pending: rest + units_stack(top) }
        }
    } else {
        WrapState { out: st.out, current: wrap_candidate(st), pending: rest }
    }
}

/// The state after taking one step per width of `answers`, in order.
pub open spec fn wrap_run(st: WrapState, width: usize, answers: Seq<usize>) -> WrapState
    decreases answers.len(),
{
    if answers.len() == 0 {
        st
    } else {
        wrap_step(wrap_run(st, width, answers.drop_last()), width, answers.last())
    }
}

/// `measure` answered `w` for some units with the value `v`.
pub open spec fn measured_as<E, F: Fn(&Vec<CharState>) -> Result<usize, E>>(
    measure: F,
    v: Seq<CharStateView>,
    w: usize,
) -> bool {
    exists|c: Vec<CharState>|
        #![trigger call_ensures(measure, (&c,), Ok::<usize, E>(w))]
        states_view(c@) == v && call_ensures(measure, (&c,), Ok::<usize, E>(w))
}

/// Each width of `answers` is what `measure` answered for the candidate of the
/// state it was taken in, while pieces were left to place.
pub open spec fn wrap_answered<E, F: Fn(&Vec<CharState>) -> Result<usize, E>>(
    measure: F,
    st: WrapState,
    width: usize,
    answers: Seq<usize>,
) -> bool {
    forall|i: int|
        0 <= i < answers.len() ==> wrap_run(st, width, answers.take(i)).pending.len() > 0 && measured_as::<E, F>(
            measure,
            wrap_candidate(wrap_run(st, width, answers.take(i))),
            #[trigger] answers[i],
        )
}

/// The lines of a finished wrapping: the line being filled, if it has units,
/// is closed as the end of the paragraph; otherwise the last line made ends the
/// paragraph; with no line at all, one empty line after `control_index`
/// controls ends it.
pub open spec fn wrap_finish(st: WrapState, control_index: usize) -> Seq<WrappedLineView> {
    if st.current.len() > 0 {
        st.out.push(line_of(st.current, true))
    } else if st.out.len() > 0 {
        st.out.update(
            st.out.len() - 1,
            WrappedLineView {
                chars: st.out.last().chars,
                control_index: st.out.last().control_index,
                is_paragraph_end: true,
            },
        )
    } else {
        empty_paragraph(control_index)
    }
}

/// Wrapping starts with no line and every piece to place, the first on top.
pub open spec fn wrap_start(pieces: Seq<SegmentView>) -> WrapState {
    WrapState { out: Seq::empty(), current: Seq::empty(), pending: pieces.reverse() }
}

/// `g` is what wrapping the source line `src` gives, with the pieces of its
/// split and the widths `measure` answered: an empty source line gives one
/// empty line that ends the paragraph.
pub open spec fn wrapped_with<E, F: Fn(&Vec<CharState>) -> Result<usize, E>>(
    measure: F,
    g: Seq<WrappedLineView>,
    src: SourceLineView,
    m: crate::budoux::ModelWeights,
    base: int,
    width: usize,
) -> bool {
    if src.chars.len() == 0 {
        g == empty_paragraph(src.control_index)
    } else {
        exists|answers: Seq<usize>|
            #![trigger wrap_run(wrap_start(crate::segment::full_split(m, base, src.chars)), width, answers)]
            wrap_answered::<E, F>(measure, wrap_start(crate::segment::full_split(m, base, src.chars)), width, answers)
                && wrap_run(wrap_start(crate::segment::full_split(m, base, src.chars)), width, answers).pending.len()
                == 0 && g == wrap_finish(
                wrap_run(wrap_start(crate::segment::full_split(m, base, src.chars)), width, answers),
                src.control_index,
            )
    }
}

proof fn lemma_wrap_answered_push<E, F: Fn(&Vec<CharState>) -> Result<usize, E>>(
    measure: F,
    st: WrapState,
    width: usize,
    answers: Seq<usize>,
    w: usize,
)
    requires
        wrap_answered::<E, F>(measure, st, width, answers),
        wrap_run(st, width, answers).pending.len() > 0,
        measured_as::<E, F>(measure, wrap_candidate(wrap_run(st, width, answers)), w),
    ensures
        wrap_answered::<E, F>(measure, st, width, answers.push(w)),
        wrap_run(st, width, answers.push(w)) == wrap_step(wrap_run(st, width, answers), width, w),
{
    let a2 = answers.push(w);
    assert(a2.drop_last() =~= answers);
    assert forall|i: int| 0 <= i < a2.len() implies wrap_run(st, width, a2.take(i)).pending.len() > 0 && measured_as::<E, F>(
        measure,
        wrap_candidate(wrap_run(st, width, a2.take(i))),
        #[trigger] a2[i],
    ) by {
        lemma_wrap_answered_push_at::<E, F>(measure, st, width, answers, w, i);
    }
}

proof fn lemma_wrap_answered_push_at<E, F: Fn(&Vec<CharState>) -> Result<usize, E>>(
    measure: F,
    st: WrapState,
    width: usize,
    answers: Seq<usize>,
    w: usize,
    i: int,
)
    requires
        wrap_answered::<E, F>(measure, st, width, answers),
        wrap_run(st, width, answers).pending.len() > 0,
        measured_as::<E, F>(measure, wrap_candidate(wrap_run(st, width, answers)), w),
        0 <= i <= answers.len(),
    ensures
        wrap_run(st, width, answers.push(w).take(i)).pending.len() > 0 && measured_as::<E, F>(
            measure,
            wrap_candidate(wrap_run(st, width, answers.push(w).take(i))),
            answers.push(w)[i],
        ),
{
    let a2 = answers.push(w);
    if i < answers.len() {
        assert(a2.take(i) =~= answers.take(i));
        assert(a2[i] == answers[i]);
        assert(wrap_run(st, width, answers.take(i)).pending.len() > 0 && measured_as::<E, F>(
            measure,
            wrap_candidate(wrap_run(st, width, answers.take(i))),
            answers[i],
        ));
    } else {
        assert(a2.take(i) =~= answers);
        assert(a2[i] == w);
    }
}

/// `measure` failed with `e` for some units with the value `v`.
pub open spec fn measure_failed<E, F: Fn(&Vec<CharState>) -> Result<usize, E>>(
    measure: F,
    v: Seq<CharStateView>,
    e: E,
) -> bool {
    exists|c: Vec<CharState>|
        #![trigger call_ensures(measure, (&c,), Err::<usize, E>(e))]
        states_view(c@) == v && call_ensures(measure, (&c,), Err::<usize, E>(e))
}

/// Wrapping the source line `src` stopped with the error `e`: after the
/// widths `measure` answered, `measure` failed with `e` for the candidate of
/// the state reached.
pub open spec fn wrap_failed_with<E, F: Fn(&Vec<CharState>) -> Result<usize, E>>(
    measure: F,
    src: SourceLineView,
    m: crate::budoux::ModelWeights,
    base: int,
    width: usize,
    e: E,
) -> bool {
    &&& src.chars.len() > 0
    &&& exists|answers: Seq<usize>|
        #![trigger wrap_run(wrap_start(crate::segment::full_split(m, base, src.chars)), width, answers)]
        wrap_answered::<E, F>(measure, wrap_start(crate::segment::full_split(m, base, src.chars)), width, answers)
            && wrap_run(wrap_start(crate::segment::full_split(m, base, src.chars)), width, answers).pending.len()
            > 0 && measure_failed::<E, F>(
            measure,
            wrap_candidate(wrap_run(wrap_start(crate::segment::full_split(m, base, src.chars)), width, answers)),
            e,
        )
}

/// What holds of every state of wrapping a source line whose pieces hold the
/// non-whitespace units `target`: the lines made fit and have units, none ends
/// the paragraph, the line being filled fits, the pieces left are well formed,
/// and no unit is lost or added.
pub open spec fn wrap_inv<E, F: Fn(&Vec<CharState>) -> Result<usize, E>>(
    measure: F,
    st: WrapState,
    width: usize,
    target: Seq<CharStateView>,
) -> bool {
    &&& forall|k: int| 0 <= k < st.out.len() ==> line_fits(measure, #[trigger] st.out[k], width)
    &&& forall|k: int|
        0 <= k < st.out.len() ==> !(#[trigger] st.out[k]).is_paragraph_end && st.out[k].chars.len() > 0
            && st.out[k].control_index == st.out[k].chars[0].control_index
    &&& st.current.len() > 0 ==> measured_fit(measure, st.current, width)
    &&& crate::segment::pieces_well_formed(st.pending)
    &&& lines_units(st.out).filter(crate::segment::non_whitespace()) + st.current.filter(crate::segment::non_whitespace())
        + stack_units(st.pending).filter(crate::segment::non_whitespace()) == target
}

/// The state of wrapping held by `out`, `current` and `pending`.
pub open spec fn wrap_state_of(out: Seq<WrappedLine>, current: Seq<CharState>, pending: Seq<Segment>) -> WrapState {
    WrapState { out: wrapped_lines_view(out), current: states_view(current), pending: segments_view(pending) }
}

/// Takes one step of wrapping, given the width `w` that `measure` answered for
/// the candidate (see `wrap_step`).
fn take_step<E, F: Fn(&Vec<CharState>) -> Result<usize, E>>(
    out: &mut Vec<WrappedLine>,
    current: &mut Vec<CharState>,
    pending: &mut Vec<Segment>,
    width: usize,
    w: usize,
    measure: &F,
    Ghost(target): Ghost<Seq<CharStateView>>,
)
    requires
        old(pending)@.len() > 0,
        wrap_inv::<E, F>(*measure, wrap_state_of(old(out)@, old(current)@, old(pending)@), width, target),
        measured_as::<E, F>(*measure, wrap_candidate(wrap_state_of(old(out)@, old(current)@, old(pending)@)), w),
    ensures
        wrap_state_of(final(out)@, final(current)@, final(pending)@) == wrap_step(
            wrap_state_of(old(out)@, old(current)@, old(pending)@),
            width,
            w,
        ),
        wrap_inv::<E, F>(*measure, wrap_state_of(final(out)@, final(current)@, final(pending)@), width, target),
        stack_weight(segments_view(final(pending)@)) < stack_weight(segments_view(old(pending)@)) || (stack_weight(
            segments_view(final(pending)@),
        ) == stack_weight(segments_view(old(pending)@)) && old(current)@.len() > 0 && final(current)@.len() == 0),
{
    broadcast use Seq::filter_distributes_over_add;

    let ghost nw = crate::segment::non_whitespace();
    let ghost st = wrap_state_of(out@, current@, pending@);
    let top = pending.len() - 1;
    let ghost pv = segments_view(pending@);
    let ghost rest = pv.drop_last();
    let ghost seg_v = pv.last();
    let ghost before_out = wrapped_lines_view(out@);
    let ghost next = wrap_step(st, width, w);
    assert(pv =~= rest.push(seg_v));
    let ghost lu = lines_units(before_out).filter(nw);
    let ghost cu = states_view(current@).filter(nw);
    let ghost ru = stack_units(rest).filter(nw);
    let ghost su = seg_v.chars.filter(nw);
    proof {
        reveal(wrap_step);
        reveal(Seq::filter);
        assert(Seq::<CharStateView>::empty().filter(nw) =~= Seq::<CharStateView>::empty());
        lemma_stack_units_push(rest, seg_v);
        assert(stack_units(pv).filter(nw) == su + ru);
        assert(lu + cu + (su + ru) == target);
        assert(pv[top as int] == seg_v);
        assert(seg_v.chars.len() > 0);
        assert(seg_v.chars.len() * seg_v.chars.len() >= 1) by (nonlinear_arith)
            requires
                seg_v.chars.len() > 0,
        ;
    }
    if w > width {
        if current.len() == 0 {
            let seg = pending.pop().unwrap();
            assert(seg@ == seg_v);
            assert(segments_view(pending@) =~= rest);
            if seg.chars.len() == 1 {
                let control_index = seg.chars[0].control_index;
                let ghost line = WrappedLineView { chars: seg_v.chars, control_index, is_paragraph_end: false };
                out.push(WrappedLine { chars: seg.chars, control_index, is_paragraph_end: false });
                proof {
                    assert(wrapped_lines_view(out@) =~= before_out.push(line));
                    lemma_lines_units_push(before_out, line);
                    assert(states_view(current@) =~= Seq::<CharStateView>::empty());
                    let now = wrap_state_of(out@, current@, pending@);
                    assert(cu =~= Seq::<CharStateView>::empty());
                    assert(lines_units(now.out).filter(nw) == lu + su);
                    assert(lines_units(now.out).filter(nw) + now.current.filter(nw) + stack_units(now.pending).filter(nw) =~= target);
                    assert forall|k: int| 0 <= k < now.out.len() implies line_fits(*measure, #[trigger] now.out[k], width) by {
                        if k < before_out.len() {
                            assert(now.out[k] == before_out[k]);
                        }
                    }
                    assert forall|k: int| 0 <= k < now.out.len() implies !(#[trigger] now.out[k]).is_paragraph_end
                        && now.out[k].chars.len() > 0 && now.out[k].control_index == now.out[k].chars[0].control_index by {
                        if k < before_out.len() {
                            assert(now.out[k] == before_out[k]);
                        }
                    }
                    assert(now == next);
                }
            } else {
                push_units(pending, seg);
                proof {
                    assert(states_view(current@) =~= Seq::<CharStateView>::empty());
                    let now = wrap_state_of(out@, current@, pending@);
                    assert(cu =~= Seq::<CharStateView>::empty());
                    assert(stack_units(now.pending).filter(nw) == su + ru);
                    assert(lines_units(now.out).filter(nw) + now.current.filter(nw) + stack_units(now.pending).filter(nw) =~= target);
                    assert(now == next);
                }
            }
        } else {
            let mut line: Vec<CharState> = Vec::new();
            std::mem::swap(&mut line, current);
            let control_index = line[0].control_index;
            let ghost lv = WrappedLineView { chars: states_view(line@), control_index, is_paragraph_end: false };
            out.push(WrappedLine { chars: line, control_index, is_paragraph_end: false });
            proof {
                assert(wrapped_lines_view(out@) =~= before_out.push(lv));
                lemma_lines_units_push(before_out, lv);
                assert(states_view(current@) =~= Seq::<CharStateView>::empty());
                let now = wrap_state_of(out@, current@, pending@);
                assert(lines_units(now.out).filter(nw) == lu + cu);
                assert(lines_units(now.out).filter(nw) + now.current.filter(nw) + stack_units(now.pending).filter(nw) =~= target);
                assert forall|k: int| 0 <= k < now.out.len() implies line_fits(*measure, #[trigger] now.out[k], width) by {
                    if k < before_out.len() {
                        assert(now.out[k] == before_out[k]);
                    }
                }
                assert forall|k: int| 0 <= k < now.out.len() implies !(#[trigger] now.out[k]).is_paragraph_end
                    && now.out[k].chars.len() > 0 && now.out[k].control_index == now.out[k].chars[0].control_index by {
                    if k < before_out.len() {
                        assert(now.out[k] == before_out[k]);
                    }
                }
                assert(now == next);
            }
        }
    } else {
        let ghost cur_before = states_view(current@);
        let ghost ws_part: Seq<CharStateView> = match seg_v.wrapped_by {
            WrappedByView::Whitespace(ws) => if cur_before.len() > 0 { ws } else { Seq::empty() },
            _ => Seq::empty(),
        };
        let seg = pending.pop().unwrap();
        assert(seg@ == seg_v);
        assert(segments_view(pending@) =~= rest);
        if current.len() > 0 {
            match &seg.wrapped_by {
                WrappedBy::Whitespace(ws) => append_clones(current, ws.as_slice()),
                _ => {},
            }
        }
        append_clones(current, seg.chars.as_slice());
        proof {
            assert(states_view(current@) == cur_before + ws_part + seg_v.chars);
            assert(cur_before + ws_part + seg_v.chars == wrap_candidate(st));
            if ws_part.len() > 0 {
                assert(crate::segment::wrap_is_whitespace(seg_v.wrapped_by));
                lemma_whitespace_filtered_out(ws_part);
            } else {
                assert(ws_part =~= Seq::<CharStateView>::empty());
                reveal(Seq::filter);
            }
            assert(ws_part.filter(nw) =~= Seq::<CharStateView>::empty());
            assert(states_view(current@).filter(nw) == cur_before.filter(nw) + seg_v.chars.filter(nw));
            assert(measured_fit(*measure, states_view(current@), width));
            let now = wrap_state_of(out@, current@, pending@);
            assert(now.current.filter(nw) == cu + su);
            assert(lines_units(now.out).filter(nw) + now.current.filter(nw) + stack_units(now.pending).filter(nw) =~= target);
            assert(now == next);
        }
    }
}

/// Wraps one source line (see `build_wrapped_lines`).
#[verifier::rlimit(30)]
fn wrap_source_line<E, F: Fn(&Vec<CharState>) -> Result<usize, E>>(
    source: &SourceLine,
    parser: &ParserModel,
    width: usize,
    measure: &F,
) -> (r: Result<Vec<WrappedLine>, E>)
    requires
        forall|v: &Vec<CharState>| call_requires(*measure, (v,)),
    ensures
        r matches Ok(out) ==> {
            &&& forall|k: int| 0 <= k < out@.len() ==> line_fits(*measure, #[trigger] wrapped_lines_view(out@)[k], width)
            &&& group_ok(wrapped_lines_view(out@), source@, parser.model@, parser.base_value as int)
            &&& wrapped_with::<E, F>(*measure, wrapped_lines_view(out@), source@, parser.model@, parser.base_value as int, width)
        },
        r matches Err(e) ==> wrap_failed_with::<E, F>(*measure, source@, parser.model@, parser.base_value as int, width, e),
{
    broadcast use Seq::filter_distributes_over_add;

    let ghost m = parser.model@;
    let ghost base = parser.base_value as int;
    let ghost nw = crate::segment::non_whitespace();
    let mut out: Vec<WrappedLine> = Vec::new();
    if source.chars.len() == 0 {
        let ghost line = WrappedLineView { chars: Seq::empty(), control_index: source.control_index, is_paragraph_end: true };
        let empty: Vec<CharState> = Vec::new();
        assert(states_view(empty@) =~= Seq::<CharStateView>::empty());
        out.push(WrappedLine { chars: empty, control_index: source.control_index, is_paragraph_end: true });
        proof {
            assert(wrapped_lines_view(out@) =~= seq![line]);
            lemma_lines_units_push(Seq::empty(), line);
            assert(seq![line] =~= Seq::<WrappedLineView>::empty().push(line));
            assert(lines_units(seq![line]) =~= Seq::<CharStateView>::empty());
            reveal(Seq::filter);
            assert(crate::segment::whitespace_split(source@.chars) =~= Seq::<SegmentView>::empty());
            assert(crate::segment::manual_stage(Seq::<SegmentView>::empty()) =~= Seq::<SegmentView>::empty());
            assert(crate::segment::full_split(m, base, source@.chars) =~= Seq::<SegmentView>::empty());
            assert(crate::segment::pieces_chars(Seq::<SegmentView>::empty()) =~= Seq::<Seq<CharStateView>>::empty());
        }
        return Ok(out);
    }
    let pieces = segment(source.chars.as_slice(), parser);
    let ghost all = segments_view(pieces@);
    let ghost target = crate::segment::pieces_chars(all).flatten().filter(nw);
    let mut pending = stack_pieces(pieces);
    let mut current: Vec<CharState> = Vec::new();
    let ghost start = wrap_start(all);
    let ghost mut answers: Seq<usize> = Seq::empty();
    assert(wrapped_lines_view(out@) =~= Seq::<WrappedLineView>::empty());
    assert(lines_units(wrapped_lines_view(out@)) =~= Seq::<CharStateView>::empty());
    assert(states_view(current@) =~= Seq::<CharStateView>::empty());
    proof {
        reveal(Seq::filter);
        assert(wrap_state_of(out@, current@, pending@) == wrap_run(start, width, answers));
        assert(wrap_inv::<E, F>(*measure, wrap_state_of(out@, current@, pending@), width, target));
    }
    while pending.len() > 0
        invariant
            forall|v: &Vec<CharState>| call_requires(*measure, (v,)),
            m == parser.model@,
            base == parser.base_value as int,
            nw == crate::segment::non_whitespace(),
            source.chars@.len() > 0,
            all == crate::segment::full_split(m, base, source@.chars),
            target == crate::segment::pieces_chars(all).flatten().filter(nw),
            start == wrap_start(all),
            wrap_state_of(out@, current@, pending@) == wrap_run(start, width, answers),
            wrap_answered::<E, F>(*measure, start, width, answers),
            wrap_inv::<E, F>(*measure, wrap_state_of(out@, current@, pending@), width, target),
        decreases stack_weight(segments_view(pending@)), (if current@.len() > 0 { 1nat } else { 0nat }),
    {
        let top = pending.len() - 1;
        let ghost st = wrap_state_of(out@, current@, pending@);
        let mut candidate = clone_range(current.as_slice(), 0, current.len());
        assert(states_view(current@).subrange(0, current@.len() as int) =~= states_view(current@));
        if current.len() > 0 {
            match &pending[top].wrapped_by {
                WrappedBy::Whitespace(ws) => {
                    append_clones(&mut candidate, ws.as_slice());
                },
                _ => {},
            }
        }
        append_clones(&mut candidate, pending[top].chars.as_slice());
        proof {
            assert(segments_view(pending@)[top as int] == pending@[top as int]@);
            assert(states_view(candidate@) == wrap_candidate(st));
        }
        let w = match measure(&candidate) {
            Ok(w) => w,
            Err(e) => {
                proof {
                    assert(measure_failed::<E, F>(*measure, wrap_candidate(st), e));
                    assert(wrap_failed_with::<E, F>(*measure, source@, m, base, width, e));
                }
                return Err(e);
            },
        };
        proof {
            assert(segments_view(pending@)[top as int] == pending@[top as int]@);
            assert(states_view(candidate@) == wrap_candidate(st));
            assert(measured_as::<E, F>(*measure, wrap_candidate(st), w));
            lemma_wrap_answered_push::<E, F>(*measure, start, width, answers, w);
            answers = answers.push(w);
        }
        take_step(&mut out, &mut current, &mut pending, width, w, measure, Ghost(target));
    }
    let ghost last = wrap_run(start, width, answers);
    let ghost before_out = wrapped_lines_view(out@);
    if current.len() > 0 {
        let control_index = current[0].control_index;
        let ghost lv = WrappedLineView { chars: states_view(current@), control_index, is_paragraph_end: true };
        out.push(WrappedLine { chars: current, control_index, is_paragraph_end: true });
        proof {
            assert(wrapped_lines_view(out@) =~= before_out.push(lv));
            lemma_lines_units_push(before_out, lv);
            assert forall|k: int| 0 <= k < out@.len() implies line_fits(*measure, #[trigger] wrapped_lines_view(out@)[k], width) by {
                if k < before_out.len() {
                    assert(wrapped_lines_view(out@)[k] == before_out[k]);
                }
            }
            assert forall|k: int| 0 <= k < out@.len() implies (#[trigger] wrapped_lines_view(out@)[k]).chars.len() > 0
                && wrapped_lines_view(out@)[k].control_index == wrapped_lines_view(out@)[k].chars[0].control_index by {
                if k < before_out.len() {
                    assert(wrapped_lines_view(out@)[k] == before_out[k]);
                }
            }
            assert forall|k: int| 0 <= k < out@.len() - 1 implies !(#[trigger] wrapped_lines_view(out@)[k]).is_paragraph_end by {
                assert(wrapped_lines_view(out@)[k] == before_out[k]);
            }
        }
    } else if out.len() > 0 {
        let mut final_line = out.pop().unwrap();
        final_line.is_paragraph_end = true;
        out.push(final_line);
        proof {
            let fixed = WrappedLineView {
                chars: before_out.last().chars,
                control_index: before_out.last().control_index,
                is_paragraph_end: true,
            };
            assert(wrapped_lines_view(out@) =~= before_out.update(before_out.len() - 1, fixed));
            lemma_lines_units_last_flag(before_out, fixed);
            assert forall|k: int| 0 <= k < out@.len() implies line_fits(*measure, #[trigger] wrapped_lines_view(out@)[k], width) by {
                if k < before_out.len() - 1 {
                    assert(wrapped_lines_view(out@)[k] == before_out[k]);
                } else {
                    assert(line_fits(*measure, before_out[k], width));
                }
            }
            assert forall|k: int| 0 <= k < out@.len() implies (#[trigger] wrapped_lines_view(out@)[k]).chars.len() > 0
                && wrapped_lines_view(out@)[k].control_index == wrapped_lines_view(out@)[k].chars[0].control_index by {
                if k < before_out.len() - 1 {
                    assert(wrapped_lines_view(out@)[k] == before_out[k]);
                } else {
                    assert(before_out[k].chars.len() > 0);
                }
            }
            assert forall|k: int| 0 <= k < out@.len() - 1 implies !(#[trigger] wrapped_lines_view(out@)[k]).is_paragraph_end by {
                assert(wrapped_lines_view(out@)[k] == before_out[k]);
            }
        }
    } else {
        let empty: Vec<CharState> = Vec::new();
        assert(states_view(empty@) =~= Seq::<CharStateView>::empty());
        out.push(WrappedLine { chars: empty, control_index: source.control_index, is_paragraph_end: true });
        proof {
            assert(wrapped_lines_view(out@) =~= empty_paragraph(source.control_index));
            assert(before_out =~= Seq::<WrappedLineView>::empty());
            lemma_lines_units_push(before_out, empty_paragraph(source.control_index)[0]);
            assert(lines_units(wrapped_lines_view(out@)) =~= Seq::<CharStateView>::empty());
            assert(lines_units(before_out) =~= Seq::<CharStateView>::empty());
        }
    }
    proof {
        assert(wrapped_lines_view(out@) == wrap_finish(last, source.control_index));
        assert(wrapped_with::<E, F>(*measure, wrapped_lines_view(out@), source@, m, base, width));
        reveal(Seq::filter);
        assert(stack_units(segments_view(pending@)) =~= Seq::<CharStateView>::empty());
        assert(lines_units(wrapped_lines_view(out@)).filter(nw) == target);
    }
    Ok(out)
}

/// Wraps each source line into lines that `measure` finds no wider than
/// `width`: the line is split into pieces (see `segment`), and pieces are put
/// on the current line while it still fits; a piece that does not fit starts a
/// new line, and a piece that does not fit on a line of its own is broken into
/// its units. The last line made from each source line ends a paragraph; a
/// source line with no unit to place (empty, or whitespace only) gives one empty
/// line. A measuring error is passed on.
///
/// The lines of each source line are exactly what the steps of `wrap_step`
/// make from the widths `measure` answered (`wrapped_with`); every line fits
/// or holds a single unit, and the lines keep the non-whitespace units of the
/// source line in order (`group_ok`).
pub fn build_wrapped_lines<E, F: Fn(&Vec<CharState>) -> Result<usize, E>>(
    lines: &[SourceLine],
    parser: &ParserModel,
    width: usize,
    measure: &F,
) -> (r: Result<Vec<WrappedLine>, E>)
    requires
        forall|v: &Vec<CharState>| call_requires(*measure, (v,)),
    ensures
        r matches Ok(out) ==> {
            &&& forall|k: int| 0 <= k < out@.len() ==> line_fits(*measure, #[trigger] wrapped_lines_view(out@)[k], width)
            &&& exists|groups: Seq<Seq<WrappedLineView>>|
                #![trigger groups.flatten()]
                groups.len() == lines@.len() && wrapped_lines_view(out@) == groups.flatten() && forall|i: int|
                    0 <= i < lines@.len() ==> group_ok(
                        #[trigger] groups[i],
                        lines@[i]@,
                        parser.model@,
                        parser.base_value as int,
                    ) && wrapped_with::<E, F>(*measure, groups[i], lines@[i]@, parser.model@, parser.base_value as int, width)
        },
        r matches Err(e) ==> exists|i: int|
            0 <= i < lines@.len() && wrap_failed_with::<E, F>(
                *measure,
                #[trigger] lines@[i]@,
                parser.model@,
                parser.base_value as int,
                width,
                e,
            ),
{
    let ghost m = parser.model@;
    let ghost base = parser.base_value as int;
    let ghost mut groups: Seq<Seq<WrappedLineView>> = Seq::empty();
    let mut result: Vec<WrappedLine> = Vec::new();
    let mut li: usize = 0;
    assert(wrapped_lines_view(result@) =~= groups.flatten());
    while li < lines.len()
        invariant
            forall|v: &Vec<CharState>| call_requires(*measure, (v,)),
            m == parser.model@,
            base == parser.base_value as int,
            li <= lines.len(),
            groups.len() == li,
            wrapped_lines_view(result@) == groups.flatten(),
            forall|i: int|
                0 <= i < li ==> group_ok(#[trigger] groups[i], lines@[i]@, m, base) && wrapped_with::<E, F>(
                    *measure,
                    groups[i],
                    lines@[i]@,
                    m,
                    base,
                    width,
                ),
            forall|k: int| 0 <= k < result@.len() ==> line_fits(*measure, #[trigger] wrapped_lines_view(result@)[k], width),
        decreases lines.len() - li,
    {
        let mut group = match wrap_source_line(&lines[li], parser, width, measure) {
            Ok(g) => g,
            Err(e) => {
                proof {
                    assert(wrap_failed_with::<E, F>(*measure, lines@[li as int]@, m, base, width, e));
                }
                return Err(e);
            },
        };
        let ghost before = result@;
        let ghost gv = wrapped_lines_view(group@);
        result.append(&mut group);
        proof {
            assert(wrapped_lines_view(result@) =~= wrapped_lines_view(before) + gv);
            let old_groups = groups;
            old_groups.lemma_flatten_push(gv);
            groups = groups.push(gv);
            assert forall|k: int| 0 <= k < result@.len() implies line_fits(*measure, #[trigger] wrapped_lines_view(result@)[k], width) by {
                if k < before.len() {
                    assert(wrapped_lines_view(result@)[k] == wrapped_lines_view(before)[k]);
                } else {
                    assert(wrapped_lines_view(result@)[k] == gv[k - before.len()]);
                }
            }
            assert forall|i: int| 0 <= i < li + 1 implies group_ok(#[trigger] groups[i], lines@[i]@, m, base)
                && wrapped_with::<E, F>(*measure, groups[i], lines@[i]@, m, base, width) by {
                if i < li {
                    assert(groups[i] == old_groups[i]);
                }
            }
        }
        li = li + 1;
    }
    Ok(result)
}

/// The largest of some widths, 0 for none.
pub open spec fn max_width(ws: Seq<usize>) -> nat
    decreases ws.len(),
{
    if ws.len() == 0 {
        0
    } else {
        let rest = max_width(ws.drop_last());
        if ws.last() > rest {
            ws.last() as nat
        } else {
            rest
        }
    }
}

/// `ws` are widths that `measure` answered for the units of each of `lines`,
/// in order.
pub open spec fn measured_widths<E, F: Fn(&Vec<CharState>) -> Result<usize, E>>(
    measure: F,
    lines: Seq<WrappedLine>,
    ws: Seq<usize>,
) -> bool {
    &&& ws.len() == lines.len()
    &&& forall|k: int| 0 <= k < lines.len() ==> call_ensures(measure, (&lines[k].chars,), Ok::<usize, E>(#[trigger] ws[k]))
}

/// The width the lines are laid out in: the width asked for, unless the lines
/// are justified to the longest line; then the widest line as `measure` finds
/// it (0 when there are no lines). A measuring error is passed on.
pub fn layout_width<E, F: Fn(&Vec<CharState>) -> Result<usize, E>>(
    justify: Justify,
    width: usize,
    lines: &[WrappedLine],
    measure: &F,
) -> (r: Result<usize, E>)
    requires
        forall|v: &Vec<CharState>| call_requires(*measure, (v,)),
    ensures
        justify != Justify::LongestLine ==> r == Ok::<usize, E>(width),
        justify == Justify::LongestLine ==> (r matches Ok(w) ==> exists|ws: Seq<usize>|
            #![trigger max_width(ws)]
            measured_widths(*measure, lines@, ws) && w == max_width(ws)),
        r matches Err(e) ==> justify == Justify::LongestLine && exists|k: int|
            0 <= k < lines@.len() && call_ensures(*measure, (&lines@[k].chars,), Err::<usize, E>(e)),
{
    match justify {
        Justify::LongestLine => {},
        _ => {
            return Ok(width);
        },
    }
    let mut widest: usize = 0;
    let ghost mut ws: Seq<usize> = Seq::empty();
    let mut i: usize = 0;
    while i < lines.len()
        invariant
            forall|v: &Vec<CharState>| call_requires(*measure, (v,)),
            justify == Justify::LongestLine,
            i <= lines@.len(),
            ws.len() == i,
            forall|k: int| 0 <= k < i ==> call_ensures(*measure, (&lines@[k].chars,), Ok::<usize, E>(#[trigger] ws[k])),
            widest == max_width(ws),
        decreases lines@.len() - i,
    {
        let w = match measure(&lines[i].chars) {
            Ok(w) => w,
            Err(e) => {
                assert(call_ensures(*measure, (&lines@[i as int].chars,), Err::<usize, E>(e)));
                return Err(e);
            },
        };
        let ghost before = ws;
        proof {
            ws = ws.push(w);
            assert(ws.drop_last() =~= before);
            assert forall|k: int| 0 <= k < i + 1 implies call_ensures(*measure, (&lines@[k].chars,), Ok::<usize, E>(#[trigger] ws[k])) by {
                if k < i {
                    assert(ws[k] == before[k]);
                }
            }
        }
        if w > widest {
            widest = w;
        }
        i = i + 1;
    }
    assert(measured_widths(*measure, lines@, ws));
    Ok(widest)
}

/// The markup of a justified line: the controls before its first unit, then,
/// for each of the first `n` units, the controls since the previous unit, the
/// unit's markup if it has appeared (`shown`) or else its spacer, and the gap
/// that spreads the units across the width.
pub open spec fn justified_markup(
    cs: Seq<CharStateView>,
    controls: Seq<Element>,
    shown: Seq<bool>,
    gap: Seq<char>,
    spacers: Seq<String>,
    n: nat,
) -> Seq<char>
    decreases n,
{
    if n == 0 {
        controls_markup(controls.subrange(0, cs[0].control_index as int))
    } else {
        let i = n - 1;
        justified_markup(cs, controls, shown, gap, spacers, (n - 1) as nat) + controls_markup(
            controls.subrange(emitted_before(cs, i) as int, cs[i].control_index as int),
        ) + (if shown[i] {
            cs[i].unit.markup()
        } else {
            spacers[i]@
        }) + gap
    }
}

/// Writes a justified line: every unit that has appeared (`shown`) is written
/// as itself, every other one as the spacer that `spacer` makes for it (space
/// as wide as the unit), each followed by `gap`, with the controls before and
/// between the units. An error of `spacer` is passed on.
pub fn justified_line_markup<E, F: Fn(&CharState) -> Result<String, E>>(
    line_chars: &[CharState],
    controls: &[Element],
    shown: &[bool],
    gap: &str,
    spacer: &F,
) -> (r: Result<String, E>)
    requires
        line_chars@.len() > 0,
        shown@.len() == line_chars@.len(),
        crate::evaluate_chars::controls_in_order(states_view(line_chars@), line_chars@.len() as int, controls@.len() as int),
        forall|c: &CharState| call_requires(*spacer, (c,)),
    ensures
        r matches Ok(s) ==> exists|spacers: Seq<String>|
            #![trigger justified_markup(states_view(line_chars@), controls@, shown@, gap@, spacers, line_chars@.len())]
            spacers.len() == line_chars@.len() && (forall|k: int|
                0 <= k < line_chars@.len() && !shown@[k] ==> call_ensures(
                    *spacer,
                    (&line_chars@[k],),
                    Ok::<String, E>(#[trigger] spacers[k]),
                )) && s@ == justified_markup(
                states_view(line_chars@),
                controls@,
                shown@,
                gap@,
                spacers,
                line_chars@.len(),
            ),
        r matches Err(e) ==> exists|k: int|
            0 <= k < line_chars@.len() && !shown@[k] && call_ensures(
                *spacer,
                (&line_chars@[k],),
                Err::<String, E>(e),
            ),
        r matches Ok(s) ==> controls_markup(controls@.subrange(0, line_chars@[0].control_index as int)).is_prefix_of(
            s@,
        ),
{
    let ghost cs = states_view(line_chars@);
    let first = line_chars[0].control_index;
    assert(cs[0] == line_chars@[0]@);
    let mut out = controls_to_text(controls, first);
    let mut emitted = first;
    let ghost mut spacers: Seq<String> = Seq::empty();
    let mut i: usize = 0;
    while i < line_chars.len()
        invariant
            cs == states_view(line_chars@),
            cs.len() > 0,
            i <= line_chars@.len(),
            shown@.len() == line_chars@.len(),
            crate::evaluate_chars::controls_in_order(cs, line_chars@.len() as int, controls@.len() as int),
            forall|c: &CharState| call_requires(*spacer, (c,)),
            i > 0 ==> emitted == cs[i - 1].control_index,
            i == 0 ==> emitted == cs[0].control_index,
            spacers.len() == i,
            forall|k: int| 0 <= k < i && !shown@[k] ==> call_ensures(*spacer, (&line_chars@[k],), Ok::<String, E>(#[trigger] spacers[k])),
            out@ == justified_markup(cs, controls@, shown@, gap@, spacers, i as nat),
        decreases line_chars@.len() - i,
    {
        let c = line_chars[i].control_index;
        assert(cs[i as int] == line_chars@[i as int]@);
        assert(emitted_before(cs, i as int) <= cs[i as int].control_index <= controls@.len());
        let ghost before = out@;
        append_controls(&mut out, controls, emitted, c);
        let piece = if shown[i] {
            line_chars[i].unit.to_markup()
        } else {
            match spacer(&line_chars[i]) {
                Ok(s) => s,
                Err(e) => {
                    assert(!shown@[i as int]);
                    return Err(e);
                },
            }
        };
        out.append(piece.as_str());
        out.append(gap);
        let ghost old_spacers = spacers;
        proof {
            spacers = spacers.push(piece);
            assert forall|k: int| 0 <= k < i + 1 && !shown@[k] implies call_ensures(*spacer, (&line_chars@[k],), Ok::<String, E>(#[trigger] spacers[k])) by {
                if k < i {
                    assert(spacers[k] == old_spacers[k]);
                }
            }
            lemma_justified_markup_spacers(cs, controls@, shown@, gap@, old_spacers, spacers, i as nat);
        }
        emitted = c;
        i = i + 1;
    }
    proof {
        lemma_justified_line_starts_with_leading_controls(cs, controls@, shown@, gap@, spacers, i as nat);
        assert(cs[0] == line_chars@[0]@);
    }
    Ok(out)
}

/// The markup of the first `n` units reads only the first `n` spacers.
proof fn lemma_justified_markup_spacers(
    cs: Seq<CharStateView>,
    controls: Seq<Element>,
    shown: Seq<bool>,
    gap: Seq<char>,
    a: Seq<String>,
    b: Seq<String>,
    n: nat,
)
    requires
        n <= a.len(),
        n <= b.len(),
        forall|k: int| 0 <= k < n ==> a[k] == b[k],
    ensures
        justified_markup(cs, controls, shown, gap, a, n) == justified_markup(cs, controls, shown, gap, b, n),
    decreases n,
{
    if n > 0 {
        lemma_justified_markup_spacers(cs, controls, shown, gap, a, b, (n - 1) as nat);
    }
}

/// A justified line starts with the markup of the controls that come before its
/// first unit (in a layout, the size, font and colour that the text starts with).
pub proof fn lemma_justified_line_starts_with_leading_controls(
    cs: Seq<CharStateView>,
    controls: Seq<Element>,
    shown: Seq<bool>,
    gap: Seq<char>,
    spacers: Seq<String>,
    n: nat,
)
    requires
        cs.len() > 0,
    ensures
        controls_markup(controls.subrange(0, cs[0].control_index as int)).is_prefix_of(
            justified_markup(cs, controls, shown, gap, spacers, n),
        ),
    decreases n,
{
    let lead = controls_markup(controls.subrange(0, cs[0].control_index as int));
    if n == 0 {
        assert(lead.is_prefix_of(lead));
    } else {
        lemma_justified_line_starts_with_leading_controls(cs, controls, shown, gap, spacers, (n - 1) as nat);
        let a = justified_markup(cs, controls, shown, gap, spacers, (n - 1) as nat);
        let b = justified_markup(cs, controls, shown, gap, spacers, n);
        let i = n - 1;
        let extra = controls_markup(controls.subrange(emitted_before(cs, i) as int, cs[i].control_index as int)) + (
        if shown[i] {
            cs[i].unit.markup()
        } else {
            spacers[i]@
        }) + gap;
        assert(b =~= a + extra);
        assert forall|k: int| 0 <= k < lead.len() implies b[k] == lead[k] by {
            assert(b[k] == a[k]);
        }
    }
}

/// With every unit shown and no gap, a justified line is written exactly as
/// the plain markup of its units with the controls before and between them.
pub proof fn lemma_justified_without_gap_is_plain_markup(
    cs: Seq<CharStateView>,
    controls: Seq<Element>,
    shown: Seq<bool>,
    spacers: Seq<String>,
    n: nat,
)
    requires
        cs.len() > 0,
        n <= cs.len(),
        forall|k: int| 0 <= k < n ==> #[trigger] shown[k],
    ensures
        justified_markup(cs, controls, shown, Seq::<char>::empty(), spacers, n) == crate::evaluate_chars::states_markup(cs, controls, n),
    decreases n,
{
    if n > 0 {
        lemma_justified_without_gap_is_plain_markup(cs, controls, shown, spacers, (n - 1) as nat);
        let i = n - 1;
        assert(shown[i]);
        let mid = justified_markup(cs, controls, shown, Seq::<char>::empty(), spacers, (n - 1) as nat) + controls_markup(
            controls.subrange(emitted_before(cs, i) as int, cs[i].control_index as int),
        ) + cs[i].unit.markup();
        assert(mid + Seq::<char>::empty() =~= mid);
    }
}

/// No unit of `s` is whitespace.
pub open spec fn no_whitespace(s: Seq<CharStateView>) -> bool {
    forall|i: int| 0 <= i < s.len() ==> !(#[trigger] s[i]).unit.is_whitespace()
}

proof fn lemma_without_markers_no_whitespace(u: Seq<CharStateView>)
    requires
        no_whitespace(u),
    ensures
        no_whitespace(crate::segment::without_markers(u)),
        crate::segment::without_markers(u).len() <= u.len(),
    decreases u.len(),
{
    if u.len() > 0 {
        if crate::segment::is_break_marker(u, 0) {
            assert forall|i: int| 0 <= i < u.skip(2).len() implies !(#[trigger] u.skip(2)[i]).unit.is_whitespace() by {
                assert(u.skip(2)[i] == u[i + 2]);
            }
            lemma_without_markers_no_whitespace(u.skip(2));
        } else {
            assert forall|i: int| 0 <= i < u.skip(1).len() implies !(#[trigger] u.skip(1)[i]).unit.is_whitespace() by {
                assert(u.skip(1)[i] == u[i + 1]);
            }
            lemma_without_markers_no_whitespace(u.skip(1));
            let rest = crate::segment::without_markers(u.skip(1));
            assert forall|i: int| 0 <= i < (seq![u[0]] + rest).len() implies !(#[trigger] (seq![u[0]] + rest)[i]).unit.is_whitespace() by {
                if i > 0 {
                    assert((seq![u[0]] + rest)[i] == rest[i - 1]);
                }
            }
        }
    }
}

proof fn lemma_units_without_markers_no_whitespace(ss: Seq<SegmentView>)
    requires
        no_whitespace(crate::segment::pieces_chars(ss).flatten()),
    ensures
        no_whitespace(crate::segment::units_without_markers(ss)),
        crate::segment::units_without_markers(ss).len() <= crate::segment::pieces_chars(ss).flatten().len(),
    decreases ss.len(),
{
    if ss.len() > 0 {
        let init = ss.drop_last();
        let last = ss.last();
        assert(crate::segment::pieces_chars(ss) =~= crate::segment::pieces_chars(init).push(last.chars));
        crate::segment::pieces_chars(init).lemma_flatten_push(last.chars);
        let fi = crate::segment::pieces_chars(init).flatten();
        assert forall|i: int| 0 <= i < fi.len() implies !(#[trigger] fi[i]).unit.is_whitespace() by {
            assert(crate::segment::pieces_chars(ss).flatten()[i] == fi[i]);
        }
        assert forall|i: int| 0 <= i < last.chars.len() implies !(#[trigger] last.chars[i]).unit.is_whitespace() by {
            assert(crate::segment::pieces_chars(ss).flatten()[fi.len() + i] == last.chars[i]);
        }
        lemma_units_without_markers_no_whitespace(init);
        lemma_without_markers_no_whitespace(last.chars);
        let a = crate::segment::units_without_markers(init);
        let b = crate::segment::without_markers(last.chars);
        assert forall|i: int| 0 <= i < (a + b).len() implies !(#[trigger] (a + b)[i]).unit.is_whitespace() by {
            if i >= a.len() {
                assert((a + b)[i] == b[i - a.len()]);
            } else {
                assert((a + b)[i] == a[i]);
            }
        }
    }
}

proof fn lemma_filter_keeps_words(s: Seq<CharStateView>)
    requires
        no_whitespace(s),
    ensures
        s.filter(crate::segment::non_whitespace()) == s,
    decreases s.len(),
{
    reveal(Seq::filter);
    if s.len() > 0 {
        let init = s.drop_last();
        assert forall|i: int| 0 <= i < init.len() implies !(#[trigger] init[i]).unit.is_whitespace() by {
            assert(init[i] == s[i]);
        }
        lemma_filter_keeps_words(init);
        assert(!s.last().unit.is_whitespace());
        assert(init.push(s.last()) =~= s);
    }
}

/// Wrapping keeps every word: leaving out whitespace, the units of the lines
/// made from a source line are its words (its units that are not whitespace,
/// split where whitespace stood) with the manual break markers `\b` taken out
/// of each word, in order.
pub proof fn lemma_wrapping_keeps_words(
    g: Seq<WrappedLineView>,
    src: SourceLineView,
    m: crate::budoux::ModelWeights,
    base: int,
)
    requires
        group_ok(g, src, m, base),
        src.chars.len() <= usize::MAX,
    ensures
        lines_units(g).filter(crate::segment::non_whitespace()) == crate::segment::units_without_markers(
            crate::segment::whitespace_split(src.chars),
        ),
{
    let u = src.chars;
    let nw = crate::segment::non_whitespace();
    let ws = crate::segment::whitespace_split(u);
    let ms = crate::segment::manual_stage(ws);
    crate::segment::lemma_whitespace_split_keeps_words(u);
    assert forall|i: int| 0 <= i < u.filter(nw).len() implies !(#[trigger] u.filter(nw)[i]).unit.is_whitespace() by {
        u.lemma_filter_pred(nw, i);
    }
    u.lemma_filter_len(nw);
    lemma_units_without_markers_no_whitespace(ws);
    crate::segment::lemma_manual_stage_drops_markers(ws);
    let pc = crate::segment::pieces_chars(ms);
    assert forall|k: int| 0 <= k < ms.len() implies (#[trigger] ms[k]).chars.len() <= usize::MAX by {
        assert(pc[k] == ms[k].chars);
        pc.lemma_flatten_length_ge_single_element_length(k);
        pc.lemma_flatten_and_flatten_alt_are_equivalent();
    }
    crate::segment::lemma_budoux_stage_keeps_units(m, base, ms);
    lemma_filter_keeps_words(crate::segment::units_without_markers(ws));
}

/// The width of the longest line is no less than the width of any line, and,
/// when there are lines, it is the width of one of them.
pub proof fn lemma_max_width_is_longest(ws: Seq<usize>)
    ensures
        forall|k: int| 0 <= k < ws.len() ==> ws[k] <= #[trigger] max_width(ws),
        ws.len() > 0 ==> exists|k: int| 0 <= k < ws.len() && ws[k] == max_width(ws),
    decreases ws.len(),
{
    if ws.len() > 0 {
        let init = ws.drop_last();
        lemma_max_width_is_longest(init);
        assert forall|k: int| 0 <= k < ws.len() implies ws[k] <= #[trigger] max_width(ws) by {
            if k < init.len() {
                assert(ws[k] == init[k]);
            }
        }
        if ws.last() > max_width(init) {
            assert(ws[ws.len() - 1] == max_width(ws));
        } else if init.len() > 0 {
            let k = choose|k: int| 0 <= k < init.len() && init[k] == max_width(init);
            assert(ws[k] == init[k]);
        } else {
            assert(ws[0] == max_width(ws));
        }
    }
}

/// A piece is broken into its units only when it does not fit on an empty
/// line. While the line being filled has units, a step never breaks a piece:
/// either the next piece joins the line whole, or, when the candidate is too
/// wide, the line is closed and the next piece is left untouched for the next
/// line.
pub proof fn lemma_pieces_break_only_on_an_empty_line(st: WrapState, width: usize, w: usize)
    requires
        st.pending.len() > 0,
    ensures
        st.current.len() > 0 ==> wrap_step(st, width, w).pending == st.pending || wrap_step(st, width, w).pending
            == st.pending.drop_last(),
        st.current.len() > 0 && w > width ==> {
            &&& wrap_step(st, width, w).out == st.out.push(line_of(st.current, false))
            &&& wrap_step(st, width, w).current.len() == 0
            &&& wrap_step(st, width, w).pending == st.pending
        },
        wrap_step(st, width, w).pending != st.pending && wrap_step(st, width, w).pending != st.pending.drop_last() ==> {
            &&& st.current.len() == 0
            &&& w > width
            &&& st.pending.last().chars.len() != 1
        },
{
    reveal(wrap_step);
}

/// A piece that fits joins the line being filled whole, after the whitespace
/// that came before it in the text (none at the start of a line); the lines
/// made so far stay as they are.
pub proof fn lemma_fitting_piece_joins_with_its_whitespace(st: WrapState, width: usize, w: usize)
    requires
        st.pending.len() > 0,
        w <= width,
    ensures
        wrap_step(st, width, w).out == st.out,
        wrap_step(st, width, w).pending == st.pending.drop_last(),
        st.current.len() > 0 ==> wrap_step(st, width, w).current == st.current + crate::segment::wrapping_units(
            st.pending.last().wrapped_by,
        ) + st.pending.last().chars,
        st.current.len() == 0 ==> wrap_step(st, width, w).current == st.pending.last().chars,
{
    reveal(wrap_step);
    let top = st.pending.last();
    if st.current.len() > 0 {
        match top.wrapped_by {
            WrappedByView::Whitespace(ws) => {},
            _ => {
                assert(st.current + crate::segment::wrapping_units(top.wrapped_by) =~= st.current);
            },
        }
    }
}

/// Over a whole wrapping, a step breaks a piece into its units only when the
/// line was empty and `measure` answered, for that piece alone, a width beyond
/// the one asked for.
pub proof fn lemma_only_pieces_too_wide_alone_are_broken<E, F: Fn(&Vec<CharState>) -> Result<usize, E>>(
    measure: F,
    st: WrapState,
    width: usize,
    answers: Seq<usize>,
    i: int,
)
    requires
        wrap_answered::<E, F>(measure, st, width, answers),
        0 <= i < answers.len(),
        wrap_run(st, width, answers.take(i + 1)).pending != wrap_run(st, width, answers.take(i)).pending,
        wrap_run(st, width, answers.take(i + 1)).pending != wrap_run(st, width, answers.take(i)).pending.drop_last(),
    ensures
        wrap_run(st, width, answers.take(i)).current.len() == 0,
        wrap_run(st, width, answers.take(i)).pending.last().chars.len() != 1,
        answers[i] > width,
        measured_as::<E, F>(measure, wrap_run(st, width, answers.take(i)).pending.last().chars, answers[i]),
{
    let before = wrap_run(st, width, answers.take(i));
    assert(answers.take(i + 1).drop_last() =~= answers.take(i));
    assert(answers.take(i + 1).last() == answers[i]);
    assert(wrap_run(st, width, answers.take(i + 1)) == wrap_step(before, width, answers[i]));
    assert(before.pending.len() > 0 && measured_as::<E, F>(measure, wrap_candidate(before), answers[i]));
    lemma_pieces_break_only_on_an_empty_line(before, width, answers[i]);
    assert(wrap_candidate(before) == before.pending.last().chars);
}

} // verus!
