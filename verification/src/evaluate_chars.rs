use vstd::prelude::*;

use crate::text::{push_char};
use vstd::string::StringExecFns;

verus! {

broadcast use vstd::std_specs::vec::group_vec_axioms;

/// A markup element of a text, as far as segmentation and layout read it: the
/// kind of element, the base of a ruby, and how the element is written back as
/// markup (`markup`).
#[derive(Debug, PartialEq, Eq)]
pub enum Element {
    Text(String),
    Emoji { name: String, markup: String },
    Ruby { base: Vec<Element>, ruby: Vec<Element>, markup: String },
    Speed { markup: String },
    Wait { markup: String },
    Other { markup: String },
}

/// A unit of text that is laid out as one piece: a character, an emoji, or a
/// ruby group.
#[derive(Debug, PartialEq, Eq)]
pub enum TextUnit {
    Char(char),
    Emoji { name: String, markup: String },
    Ruby { base: Vec<Element>, ruby: Vec<Element>, markup: String },
}

/// The character that stands for an object (an emoji, or a ruby without text)
/// when text is segmented.
pub open spec fn object_replacement() -> char {
    '\u{fffc}'
}

/// The text that segmentation sees for one element.
pub open spec fn element_text(e: Element) -> Seq<char>
    decreases e,
{
    match e {
        Element::Text(t) => t@,
        Element::Emoji { .. } => seq![object_replacement()],
        Element::Ruby { base, .. } => elements_text(base@),
        _ => Seq::empty(),
    }
}

/// The text that segmentation sees for a list of elements: theirs, in order.
pub open spec fn elements_text(es: Seq<Element>) -> Seq<char>
    decreases es,
{
    if es.len() == 0 {
        Seq::empty()
    } else {
        elements_text(es.drop_last()) + element_text(es.last())
    }
}

/// The value of an element, with its nested lists read as sequences.
pub enum ElementView {
    Text(Seq<char>),
    Emoji { name: Seq<char>, markup: Seq<char> },
    Ruby { base: Seq<ElementView>, ruby: Seq<ElementView>, markup: Seq<char> },
    Speed { markup: Seq<char> },
    Wait { markup: Seq<char> },
    Other { markup: Seq<char> },
}

/// The value of an element.
pub open spec fn element_view(e: Element) -> ElementView
    decreases e,
{
    match e {
        Element::Text(t) => ElementView::Text(t@),
        Element::Emoji { name, markup } => ElementView::Emoji { name: name@, markup: markup@ },
        Element::Ruby { base, ruby, markup } => ElementView::Ruby {
            base: elements_view(base@),
            ruby: elements_view(ruby@),
            markup: markup@,
        },
        Element::Speed { markup } => ElementView::Speed { markup: markup@ },
        Element::Wait { markup } => ElementView::Wait { markup: markup@ },
        Element::Other { markup } => ElementView::Other { markup: markup@ },
    }
}

/// The values of a list of elements.
pub open spec fn elements_view(es: Seq<Element>) -> Seq<ElementView>
    decreases es,
{
    if es.len() == 0 {
        Seq::empty()
    } else {
        elements_view(es.drop_last()).push(element_view(es.last()))
    }
}

impl View for Element {
    type V = ElementView;

    open spec fn view(&self) -> ElementView {
        element_view(*self)
    }
}

/// The value of a text unit.
pub enum TextUnitView {
    Char(char),
    Emoji { name: Seq<char>, markup: Seq<char> },
    Ruby { base: Seq<ElementView>, ruby: Seq<ElementView>, markup: Seq<char> },
}

impl View for TextUnit {
    type V = TextUnitView;

    open spec fn view(&self) -> TextUnitView {
        match *self {
            TextUnit::Char(c) => TextUnitView::Char(c),
            TextUnit::Emoji { name, markup } => TextUnitView::Emoji { name: name@, markup: markup@ },
            TextUnit::Ruby { base, ruby, markup } => TextUnitView::Ruby {
                base: elements_view(base@),
                ruby: elements_view(ruby@),
                markup: markup@,
            },
        }
    }
}

/// A copy of `e`.
pub fn clone_element(e: &Element) -> (r: Element)
    ensures
        r@ == e@,
    decreases e, 1nat,
{
    match e {
        Element::Text(t) => Element::Text(t.clone()),
        Element::Emoji { name, markup } => Element::Emoji { name: name.clone(), markup: markup.clone() },
        Element::Ruby { base, ruby, markup } => {
            let b = clone_elements(base);
            let r = clone_elements(ruby);
            Element::Ruby { base: b, ruby: r, markup: markup.clone() }
        },
        Element::Speed { markup } => Element::Speed { markup: markup.clone() },
        Element::Wait { markup } => Element::Wait { markup: markup.clone() },
        Element::Other { markup } => Element::Other { markup: markup.clone() },
    }
}

/// A copy of `es`.
pub fn clone_elements(es: &Vec<Element>) -> (r: Vec<Element>)
    ensures
        elements_view(r@) == elements_view(es@),
    decreases es, 0nat,
{
    let mut r: Vec<Element> = Vec::new();
    let mut i: usize = 0;
    while i < es.len()
        invariant
            i <= es.len(),
            r.len() == i,
            elements_view(r@) == elements_view(es@.take(i as int)),
        decreases es.len() - i,
    {
        assert(decreases_to!(es => es@[i as int]));
        let e = clone_element(&es[i]);
        let ghost before = r@;
        r.push(e);
        assert(r@.drop_last() =~= before);
        assert(es@.take(i + 1).drop_last() =~= es@.take(i as int));
        i = i + 1;
    }
    assert(es@.take(es.len() as int) =~= es@);
    r
}

impl Clone for Element {
    fn clone(&self) -> (r: Self)
        ensures
            r@ == self@,
    {
        clone_element(self)
    }
}

impl Clone for TextUnit {
    fn clone(&self) -> (r: Self)
        ensures
            r@ == self@,
    {
        match self {
            TextUnit::Char(c) => TextUnit::Char(*c),
            TextUnit::Emoji { name, markup } => TextUnit::Emoji { name: name.clone(), markup: markup.clone() },
            TextUnit::Ruby { base, ruby, markup } => TextUnit::Ruby {
                base: clone_elements(base),
                ruby: clone_elements(ruby),
                markup: markup.clone(),
            },
        }
    }
}

/// The text that segmentation sees for `elements`: texts as they are, an
/// object replacement character for each emoji, the text of the base of each
/// ruby, and nothing for the other elements.
pub fn elements_to_segmentation_text(elements: &[Element]) -> (r: String)
    ensures
        r@ == elements_text(elements@),
    decreases elements@,
{
    let mut r = String::new();
    let mut i: usize = 0;
    while i < elements.len()
        invariant
            i <= elements.len(),
            r@ == elements_text(elements@.take(i as int)),
        decreases elements.len() - i,
    {
        assert(elements@.take(i + 1).drop_last() =~= elements@.take(i as int));
        assert(elements@.take(i + 1).last() == elements@[i as int]);
        match &elements[i] {
            Element::Text(t) => {
                r.append(t.as_str());
                assert(element_text(elements@[i as int]) == t@);
            },
            Element::Emoji { .. } => {
                push_char(&mut r, '\u{fffc}');
                assert(seq![object_replacement()] == seq!['\u{fffc}']);
            },
            Element::Ruby { base, .. } => {
                assert(decreases_to!(elements@ => elements@[i as int]));
                let inner = elements_to_segmentation_text(base.as_slice());
                r.append(inner.as_str());
                assert(element_text(elements@[i as int]) == inner@);
            },
            _ => {
                assert(element_text(elements@[i as int]) =~= Seq::<char>::empty());
            },
        }
        let ghost prefix = elements@.take(i + 1);
        assert(elements_text(prefix) == elements_text(prefix.drop_last()) + element_text(prefix.last()));
        assert(r@ =~= elements_text(elements@.take(i + 1)));
        i = i + 1;
    }
    assert(elements@.take(elements.len() as int) =~= elements@);
    r
}

/// Whether `c` has the Unicode `White_Space` property: tab, line feed,
/// vertical tab, form feed, carriage return, space, next line, no-break space,
/// ogham space mark, the spaces from en quad to hair space, line separator,
/// paragraph separator, narrow no-break space, medium mathematical space and
/// ideographic space.
pub open spec fn unicode_white_space(c: char) -> bool {
    let v = c as u32;
    ||| 0x09 <= v <= 0x0d
    ||| v == 0x20
    ||| v == 0x85
    ||| v == 0xa0
    ||| v == 0x1680
    ||| 0x2000 <= v <= 0x200a
    ||| v == 0x2028
    ||| v == 0x2029
    ||| v == 0x202f
    ||| v == 0x205f
    ||| v == 0x3000
}

/// Whether `c` has the Unicode `White_Space` property.
fn char_is_whitespace(c: char) -> (r: bool)
    ensures
        r == unicode_white_space(c),
{
    match c {
        '\u{09}'..='\u{0d}' => true,
        ' ' | '\u{85}' | '\u{a0}' | '\u{1680}' => true,
        '\u{2000}'..='\u{200a}' => true,
        '\u{2028}' | '\u{2029}' | '\u{202f}' | '\u{205f}' | '\u{3000}' => true,
        _ => false,
    }
}

/// Whether a control element sets the display speed or waits: those shape the
/// timing of the text and are not written into its markup.
pub open spec fn is_timing(e: ElementView) -> bool {
    e is Speed || e is Wait
}

/// Whether `control` sets the display speed or waits.
pub fn is_timing_control(control: &Element) -> (r: bool)
    ensures
        r == is_timing(control@),
{
    match control {
        Element::Speed { .. } => true,
        Element::Wait { .. } => true,
        _ => false,
    }
}

impl TextUnitView {
    /// The character, for a character unit.
    pub open spec fn as_char(self) -> Option<char> {
        match self {
            TextUnitView::Char(c) => Some(c),
            _ => None,
        }
    }

    /// Whether the unit is a whitespace character.
    pub open spec fn is_whitespace(self) -> bool {
        match self {
            TextUnitView::Char(c) => unicode_white_space(c),
            _ => false,
        }
    }

    /// The text that segmentation sees for the unit.
    pub open spec fn segmentation_text(self) -> Seq<char> {
        match self {
            TextUnitView::Char(c) => seq![c],
            TextUnitView::Emoji { .. } => seq![object_replacement()],
            TextUnitView::Ruby { base, .. } => {
                let t = elements_text_of_views(base);
                if t.len() == 0 {
                    seq![object_replacement()]
                } else {
                    t
                }
            },
        }
    }

    /// How the unit is written as markup.
    pub open spec fn markup(self) -> Seq<char> {
        match self {
            TextUnitView::Char(c) => seq![c],
            TextUnitView::Emoji { markup, .. } => markup,
            TextUnitView::Ruby { markup, .. } => markup,
        }
    }
}

/// `elements_text`, read off the values of the elements.
pub open spec fn element_view_text(e: ElementView) -> Seq<char>
    decreases e,
{
    match e {
        ElementView::Text(t) => t,
        ElementView::Emoji { .. } => seq![object_replacement()],
        ElementView::Ruby { base, .. } => elements_text_of_views(base),
        _ => Seq::empty(),
    }
}

/// `elements_text`, read off the values of the elements.
pub open spec fn elements_text_of_views(es: Seq<ElementView>) -> Seq<char>
    decreases es,
{
    if es.len() == 0 {
        Seq::empty()
    } else {
        elements_text_of_views(es.drop_last()) + element_view_text(es.last())
    }
}

pub proof fn lemma_element_view_text(e: Element)
    ensures
        element_view_text(e@) == element_text(e),
    decreases e, 1nat,
{
    match e {
        Element::Ruby { base, .. } => {
            lemma_elements_view_text(base@);
        },
        _ => {},
    }
}

pub proof fn lemma_elements_view_text(es: Seq<Element>)
    ensures
        elements_text_of_views(elements_view(es)) == elements_text(es),
    decreases es, 0nat,
{
    if es.len() > 0 {
        lemma_elements_view_text(es.drop_last());
        lemma_element_view_text(es.last());
        assert(elements_view(es).drop_last() =~= elements_view(es.drop_last()));
    }
}

impl TextUnit {
    /// The character, for a character unit.
    pub fn as_char(&self) -> (r: Option<char>)
        ensures
            r == self@.as_char(),
    {
        match self {
            TextUnit::Char(value) => Some(*value),
            TextUnit::Emoji { .. } => None,
            TextUnit::Ruby { .. } => None,
        }
    }

    /// Whether the unit is a whitespace character.
    pub fn is_whitespace(&self) -> (r: bool)
        ensures
            r == self@.is_whitespace(),
    {
        match self.as_char() {
            Some(c) => char_is_whitespace(c),
            None => false,
        }
    }

    /// The text that segmentation sees for the unit: the character itself, an
    /// object replacement character for an emoji, and the text of the base of a
    /// ruby (an object replacement character when the base has none).
    pub fn segmentation_text(&self) -> (r: String)
        ensures
            r@ == self@.segmentation_text(),
    {
        match self {
            TextUnit::Char(value) => {
                let mut s = String::new();
                push_char(&mut s, *value);
                s
            },
            TextUnit::Emoji { .. } => {
                let mut s = String::new();
                push_char(&mut s, '\u{fffc}');
                s
            },
            TextUnit::Ruby { base, .. } => {
                proof {
                    lemma_elements_view_text(base@);
                }
                let text = elements_to_segmentation_text(base.as_slice());
                if text.as_str().is_empty() {
                    let mut s = String::new();
                    push_char(&mut s, '\u{fffc}');
                    s
                } else {
                    text
                }
            },
        }
    }

    /// How the unit is written as markup.
    pub fn to_markup(&self) -> (r: String)
        ensures
            r@ == self@.markup(),
    {
        match self {
            TextUnit::Char(value) => {
                let mut s = String::new();
                push_char(&mut s, *value);
                s
            },
            TextUnit::Emoji { markup, .. } => markup.clone(),
            TextUnit::Ruby { markup, .. } => markup.clone(),
        }
    }
}

/// A unit of text with the number of control elements that precede it and the
/// moment it appears.
#[derive(Debug, PartialEq, Eq)]
pub struct CharState {
    pub unit: TextUnit,
    /// How many control elements come before the unit.
    pub control_index: usize,
    /// When the unit appears: the bit pattern of an `f64` number of seconds.
    pub start_time: u64,
}

/// The value of a `CharState`.
pub struct CharStateView {
    pub unit: TextUnitView,
    pub control_index: usize,
    pub start_time: u64,
}

impl View for CharState {
    type V = CharStateView;

    open spec fn view(&self) -> CharStateView {
        CharStateView { unit: self.unit@, control_index: self.control_index, start_time: self.start_time }
    }
}

impl Clone for CharState {
    fn clone(&self) -> (r: Self)
        ensures
            r@ == self@,
    {
        CharState { unit: self.unit.clone(), control_index: self.control_index, start_time: self.start_time }
    }
}

/// The values of a list of char states.
pub open spec fn states_view(s: Seq<CharState>) -> Seq<CharStateView> {
    s.map_values(|c: CharState| c@)
}

/// Copies `s[start..end]`.
pub fn clone_range(s: &[CharState], start: usize, end: usize) -> (r: Vec<CharState>)
    requires
        start <= end <= s@.len(),
    ensures
        states_view(r@) == states_view(s@).subrange(start as int, end as int),
{
    let mut r: Vec<CharState> = Vec::new();
    let mut i = start;
    while i < end
        invariant
            start <= i <= end <= s@.len(),
            r.len() == i - start,
            states_view(r@) == states_view(s@).subrange(start as int, i as int),
        decreases end - i,
    {
        let c = s[i].clone();
        assert(c@ == s@[i as int]@);
        r.push(c);
        assert(states_view(r@) =~= states_view(s@).subrange(start as int, i + 1));
        i = i + 1;
    }
    r
}

/// How an element is written as markup: a text as it is, any other element
/// as the markup it was read from.
pub open spec fn element_markup(e: Element) -> Seq<char> {
    match e {
        Element::Text(t) => t@,
        Element::Emoji { markup, .. } => markup@,
        Element::Ruby { markup, .. } => markup@,
        Element::Speed { markup } => markup@,
        Element::Wait { markup } => markup@,
        Element::Other { markup } => markup@,
    }
}

/// The markup of some control elements, in order, leaving out those that set
/// the speed or wait.
pub open spec fn controls_markup(cs: Seq<Element>) -> Seq<char>
    decreases cs.len(),
{
    if cs.len() == 0 {
        Seq::empty()
    } else if is_timing(cs.last()@) {
        controls_markup(cs.drop_last())
    } else {
        controls_markup(cs.drop_last()) + element_markup(cs.last())
    }
}

/// How `e` is written as markup.
fn element_to_markup(e: &Element) -> (r: String)
    ensures
        r@ == element_markup(*e),
{
    match e {
        Element::Text(t) => t.clone(),
        Element::Emoji { markup, .. } => markup.clone(),
        Element::Ruby { markup, .. } => markup.clone(),
        Element::Speed { markup } => markup.clone(),
        Element::Wait { markup } => markup.clone(),
        Element::Other { markup } => markup.clone(),
    }
}

/// Appends the markup of `controls[start..end]`, without the timing controls.
pub(crate) fn append_controls(out: &mut String, controls: &[Element], start: usize, end: usize)
    requires
        start <= end <= controls@.len(),
    ensures
        final(out)@ == old(out)@ + controls_markup(controls@.subrange(start as int, end as int)),
{
    let mut i = start;
    assert(controls@.subrange(start as int, start as int) =~= Seq::<Element>::empty());
    assert(old(out)@ + Seq::<char>::empty() =~= old(out)@);
    while i < end
        invariant
            start <= i <= end <= controls@.len(),
            out@ == old(out)@ + controls_markup(controls@.subrange(start as int, i as int)),
        decreases end - i,
    {
        let ghost prefix = controls@.subrange(start as int, i + 1);
        assert(prefix.drop_last() =~= controls@.subrange(start as int, i as int));
        assert(prefix.last() == controls@[i as int]);
        if !is_timing_control(&controls[i]) {
            let m = element_to_markup(&controls[i]);
            out.append(m.as_str());
            assert(out@ =~= old(out)@ + controls_markup(prefix));
        }
        i = i + 1;
    }
}

/// The markup of `controls[start..end]`, leaving out the controls that set the
/// speed or wait.
pub fn controls_between_to_text(controls: &[Element], start: usize, end: usize) -> (r: String)
    requires
        start <= end <= controls@.len(),
    ensures
        r@ == controls_markup(controls@.subrange(start as int, end as int)),
{
    let mut r = String::new();
    append_controls(&mut r, controls, start, end);
    assert(r@ =~= controls_markup(controls@.subrange(start as int, end as int)));
    r
}

/// The markup of the first `end` controls, leaving out the controls that set
/// the speed or wait.
pub fn controls_to_text(controls: &[Element], end: usize) -> (r: String)
    requires
        end <= controls@.len(),
    ensures
        r@ == controls_markup(controls@.subrange(0, end as int)),
{
    controls_between_to_text(controls, 0, end)
}

/// The control count before unit `i` that was already written when unit `i`
/// is reached: that of the previous unit (of the first unit, for the first).
pub open spec fn emitted_before(cs: Seq<CharStateView>, i: int) -> usize {
    if i == 0 {
        cs[0].control_index
    } else {
        cs[i - 1].control_index
    }
}

/// The control counts of the first `n` units never go down, and none exceeds
/// the number of controls.
pub open spec fn controls_in_order(cs: Seq<CharStateView>, n: int, controls_len: int) -> bool {
    &&& cs.len() > 0 ==> cs[0].control_index <= controls_len
    &&& forall|i: int|
        0 <= i < n && i < cs.len() ==> emitted_before(cs, i) <= (#[trigger] cs[i]).control_index <= controls_len
}

/// The markup of the first `n` units of `cs` with the controls that come before
/// and between them: the controls before the first unit, then, for each unit,
/// the controls since the previous one and the unit's own markup (timing
/// controls are left out).
pub open spec fn states_markup(cs: Seq<CharStateView>, controls: Seq<Element>, n: nat) -> Seq<char>
    decreases n,
{
    if cs.len() == 0 {
        Seq::empty()
    } else if n == 0 {
        controls_markup(controls.subrange(0, cs[0].control_index as int))
    } else {
        let i = n - 1;
        states_markup(cs, controls, (n - 1) as nat) + controls_markup(
            controls.subrange(emitted_before(cs, i) as int, cs[i].control_index as int),
        ) + cs[i].unit.markup()
    }
}

/// Writes the units of `char_states` as markup with the controls that come
/// before and between them, stopping after the first `shown` units (those that
/// have appeared by the moment drawn). No units give an empty text.
#[verifier::spinoff_prover]
pub fn char_states_to_text(char_states: &[CharState], controls: &[Element], shown: usize) -> (r: String)
    requires
        controls_in_order(states_view(char_states@), shown as int, controls@.len() as int),
    ensures
        r@ == states_markup(
            states_view(char_states@),
            controls@,
            if shown < char_states@.len() { shown as nat } else { char_states@.len() },
        ),
{
    let ghost cs = states_view(char_states@);
    if char_states.len() == 0 {
        return String::new();
    }
    let first = char_states[0].control_index;
    let mut result = controls_to_text(controls, first);
    let mut emitted = first;
    let mut i: usize = 0;
    while i < char_states.len() && i < shown
        invariant
            cs == states_view(char_states@),
            cs.len() > 0,
            i <= char_states@.len(),
            i <= shown,
            controls_in_order(cs, shown as int, controls@.len() as int),
            i > 0 ==> emitted == cs[i - 1].control_index,
            i == 0 ==> emitted == cs[0].control_index,
            result@ == states_markup(cs, controls@, i as nat),
        decreases char_states@.len() - i,
    {
        let c = char_states[i].control_index;
        assert(cs[i as int] == char_states@[i as int]@);
        assert(emitted_before(cs, i as int) <= cs[i as int].control_index <= controls@.len());
        append_controls(&mut result, controls, emitted, c);
        let m = char_states[i].unit.to_markup();
        result.append(m.as_str());
        emitted = c;
        i = i + 1;
    }
    result
}

/// The units of a text, each with the moment it appears, and its control
/// elements, in order.
#[derive(Debug)]
pub struct EvaluatedChars {
    pub chars: Vec<CharState>,
    pub controls: Vec<Element>,
}

/// The unit that character `j` of a text element, or an emoji or ruby
/// element, stands for.
pub open spec fn unit_of(e: Element, j: int) -> TextUnitView {
    match e {
        Element::Text(t) => TextUnitView::Char(t@[j]),
        Element::Emoji { name, markup } => TextUnitView::Emoji { name: name@, markup: markup@ },
        Element::Ruby { base, ruby, markup } => TextUnitView::Ruby {
            base: elements_view(base@),
            ruby: elements_view(ruby@),
            markup: markup@,
        },
        _ => TextUnitView::Char(' '),
    }
}

/// The units of the first `len` characters of the text element `e`, each
/// after `n` controls: the element, the position of the character, and `n`.
pub open spec fn text_units(e: Element, len: nat, n: nat) -> Seq<(Element, int, nat)>
    decreases len,
{
    if len == 0 {
        Seq::empty()
    } else {
        text_units(e, (len - 1) as nat, n).push((e, len - 1, n))
    }
}

proof fn lemma_text_units_len(e: Element, len: nat, n: nat)
    ensures
        text_units(e, len, n).len() == len,
    decreases len,
{
    if len > 0 {
        lemma_text_units_len(e, (len - 1) as nat, n);
    }
}

/// What reading the markup elements `items` after the controls `init` gives:
/// every character of a text, every emoji and every ruby becomes a unit (the
/// element it comes from, the position of the character in a text, and the
/// number of controls read before it); every other element is a control.
pub open spec fn evaluated(items: Seq<Element>, init: Seq<Element>) -> (Seq<(Element, int, nat)>, Seq<Element>)
    decreases items.len(),
{
    if items.len() == 0 {
        (Seq::empty(), init)
    } else {
        let prev = evaluated(items.drop_last(), init);
        let n = prev.1.len();
        let e = items.last();
        match e {
            Element::Text(t) => (prev.0 + text_units(e, t@.len(), n), prev.1),
            Element::Emoji { .. } => (prev.0.push((e, 0, n)), prev.1),
            Element::Ruby { .. } => (prev.0.push((e, 0, n)), prev.1),
            _ => (prev.0, prev.1.push(e)),
        }
    }
}

/// The units read so far match `units`, with the moments `start_times`.
pub open spec fn units_match(chars: Seq<CharState>, units: Seq<(Element, int, nat)>, start_times: Seq<u64>) -> bool {
    &&& chars.len() == units.len()
    &&& forall|k: int|
        0 <= k < chars.len() ==> (#[trigger] chars[k])@.unit == unit_of(units[k].0, units[k].1)
            && chars[k].control_index == units[k].2 && chars[k].start_time == start_times[k]
}

/// Pushing a unit that matches keeps the units matching.
proof fn lemma_units_match_push(
    chars: Seq<CharState>,
    units: Seq<(Element, int, nat)>,
    start_times: Seq<u64>,
    c: CharState,
    u: (Element, int, nat),
)
    requires
        units_match(chars, units, start_times),
        c@.unit == unit_of(u.0, u.1),
        c.control_index == u.2,
        chars.len() < start_times.len(),
        c.start_time == start_times[chars.len() as int],
    ensures
        units_match(chars.push(c), units.push(u), start_times),
{
    assert forall|k: int| 0 <= k < chars.push(c).len() implies (#[trigger] chars.push(c)[k])@.unit == unit_of(
        units.push(u)[k].0,
        units.push(u)[k].1,
    ) && chars.push(c)[k].control_index == units.push(u)[k].2 && chars.push(c)[k].start_time == start_times[k] by {
        if k < chars.len() {
            assert(chars.push(c)[k] == chars[k]);
            assert(units.push(u)[k] == units[k]);
        }
    }
}

/// Appends a unit for every character of the text element `e` (whose text is
/// `t`), each after `n` controls and at the next moment of `start_times`.
fn push_text_units(
    chars: &mut Vec<CharState>,
    t: &String,
    n: usize,
    start_times: &[u64],
    Ghost(units): Ghost<Seq<(Element, int, nat)>>,
    Ghost(e): Ghost<Element>,
)
    requires
        e == Element::Text(*t),
        units_match(old(chars)@, units, start_times@),
        old(chars)@.len() + t@.len() <= start_times@.len(),
    ensures
        units_match(final(chars)@, units + text_units(e, t@.len(), n as nat), start_times@),
{
    let cs = crate::text::chars_of(t.as_str());
    let mut k: usize = 0;
    assert(units + text_units(e, 0, n as nat) =~= units);
    while k < cs.len()
        invariant
            k <= cs@.len(),
            cs@ == t@,
            e == Element::Text(*t),
            chars@.len() == units.len() + k,
            units.len() + cs@.len() <= start_times@.len(),
            units_match(chars@, units + text_units(e, k as nat, n as nat), start_times@),
        decreases cs.len() - k,
    {
        let idx = chars.len();
        let c = CharState { unit: TextUnit::Char(cs[k]), control_index: n, start_time: start_times[idx] };
        proof {
            let units_k = units + text_units(e, k as nat, n as nat);
            lemma_units_match_push(chars@, units_k, start_times@, c, (e, k as int, n as nat));
            assert(units + text_units(e, (k + 1) as nat, n as nat) =~= units_k.push((e, k as int, n as nat)));
        }
        chars.push(c);
        k = k + 1;
    }
}

/// Reads the markup elements `items` of a text after the controls
/// `initial_controls`: characters of texts, emoji and rubies become units, each
/// appearing at its moment in `start_times` (one per unit, in order, as `f64`
/// bit patterns) and recording how many controls came before it; every other
/// element joins the controls.
pub fn evaluate_chars(items: Vec<Element>, initial_controls: Vec<Element>, start_times: &[u64]) -> (r: EvaluatedChars)
    requires
        start_times@.len() == evaluated(items@, initial_controls@).0.len(),
    ensures
        r.controls@ == evaluated(items@, initial_controls@).1,
        units_match(r.chars@, evaluated(items@, initial_controls@).0, start_times@),
{
    let ghost all = items@;
    let ghost init = initial_controls@;
    let mut chars: Vec<CharState> = Vec::new();
    let mut controls = initial_controls;
    proof {
        assert(all.take(0) =~= Seq::<Element>::empty());
        assert(all.take(all.len() as int) =~= all);
    }
    for item in it: items
        invariant
            it.seq() == all,
            all.take(all.len() as int) == all,
            start_times@.len() == evaluated(all, init).0.len(),
            ({
                let e = evaluated(all.take(it.index() as int), init);
                &&& controls@ == e.1
                &&& units_match(chars@, e.0, start_times@)
            }),
    {
        let ghost i = it.index() as int;
        let ghost prev = evaluated(all.take(i), init);
        let ghost e1 = evaluated(all.take(i + 1), init);
        let ghost el = all[i];
        proof {
            assert(all.take(i + 1).drop_last() =~= all.take(i));
            assert(all.take(i + 1).last() == all[i]);
            lemma_evaluated_grows(all, init, i + 1, all.len() as int);
        }
        let n = controls.len();
        match item {
            Element::Text(t) => {
                proof {
                    lemma_text_units_len(el, t@.len(), n as nat);
                }
                assert(e1.0 == prev.0 + text_units(el, t@.len(), n as nat));
                push_text_units(&mut chars, &t, n, start_times, Ghost(prev.0), Ghost(el));
            },
            Element::Emoji { name, markup } => {
                let idx = chars.len();
                let c = CharState { unit: TextUnit::Emoji { name, markup }, control_index: n, start_time: start_times[idx] };
                proof {
                    lemma_units_match_push(chars@, prev.0, start_times@, c, (el, 0, n as nat));
                }
                chars.push(c);
            },
            Element::Ruby { base, ruby, markup } => {
                let idx = chars.len();
                let c = CharState { unit: TextUnit::Ruby { base, ruby, markup }, control_index: n, start_time: start_times[idx] };
                proof {
                    lemma_units_match_push(chars@, prev.0, start_times@, c, (el, 0, n as nat));
                }
                chars.push(c);
            },
            control => {
                controls.push(control);
            },
        }
    }
    EvaluatedChars { chars, controls }
}

/// Reading more elements never takes units away.
proof fn lemma_evaluated_grows(items: Seq<Element>, init: Seq<Element>, i: int, j: int)
    requires
        0 <= i <= j <= items.len(),
    ensures
        evaluated(items.take(i), init).0.len() <= evaluated(items.take(j), init).0.len(),
    decreases j - i,
{
    if i < j {
        lemma_evaluated_grows(items, init, i, j - 1);
        assert(items.take(j).drop_last() =~= items.take(j - 1));
        let prev = evaluated(items.take(j - 1), init);
        let e = evaluated(items.take(j), init);
        match items.take(j).last() {
            Element::Text(t) => {
                lemma_text_units_len(items.take(j).last(), t@.len(), prev.1.len());
            },
            _ => {},
        }
        assert(e.0.len() >= prev.0.len());
    }
}

proof fn lemma_controls_markup_push(a: Seq<Element>, e: Element)
    ensures
        controls_markup(a.push(e)) == controls_markup(a) + (if is_timing(e@) {
            Seq::empty()
        } else {
            element_markup(e)
        }),
{
    assert(a.push(e).drop_last() =~= a);
    if is_timing(e@) {
        assert(controls_markup(a) + Seq::<char>::empty() =~= controls_markup(a));
    }
}

proof fn lemma_text_units_index(e: Element, len: nat, n: nat, k: int)
    requires
        0 <= k < len,
    ensures
        text_units(e, len, n)[k] == (e, k, n),
        text_units(e, len, n).len() == len,
    decreases len,
{
    lemma_text_units_len(e, len, n);
    if k < len - 1 {
        lemma_text_units_index(e, (len - 1) as nat, n, k);
    }
}

/// What reading a prefix of the elements gives is a prefix of what reading
/// them all gives.
proof fn lemma_evaluated_prefix(items: Seq<Element>, init: Seq<Element>, i: int, j: int)
    requires
        0 <= i <= j <= items.len(),
    ensures
        ({
            let p = evaluated(items.take(i), init);
            let q = evaluated(items.take(j), init);
            &&& p.0.len() <= q.0.len()
            &&& p.1.len() <= q.1.len()
            &&& p.0 == q.0.take(p.0.len() as int)
            &&& p.1 == q.1.take(p.1.len() as int)
        }),
    decreases j - i,
{
    if i < j {
        lemma_evaluated_prefix(items, init, i, j - 1);
        assert(items.take(j).drop_last() =~= items.take(j - 1));
        let p = evaluated(items.take(i), init);
        let r = evaluated(items.take(j - 1), init);
        let q = evaluated(items.take(j), init);
        match items.take(j).last() {
            Element::Text(t) => {
                lemma_text_units_len(items.take(j).last(), t@.len(), r.1.len());
                assert(q.0.take(r.0.len() as int) =~= r.0);
            },
            Element::Emoji { .. } => {
                assert(q.0.take(r.0.len() as int) =~= r.0);
            },
            Element::Ruby { .. } => {
                assert(q.0.take(r.0.len() as int) =~= r.0);
            },
            _ => {
                assert(q.1.take(r.1.len() as int) =~= r.1);
            },
        }
        assert(q.0.take(p.0.len() as int) =~= r.0.take(p.0.len() as int));
        assert(q.1.take(p.1.len() as int) =~= r.1.take(p.1.len() as int));
    } else {
        let p = evaluated(items.take(i), init);
        assert(p.0.take(p.0.len() as int) =~= p.0);
        assert(p.1.take(p.1.len() as int) =~= p.1);
    }
}

/// The units `cs` are those of `units`, with their control counts.
pub open spec fn units_view_match(cs: Seq<CharStateView>, units: Seq<(Element, int, nat)>) -> bool {
    &&& cs.len() == units.len()
    &&& forall|k: int|
        0 <= k < cs.len() ==> (#[trigger] cs[k]).unit == unit_of(units[k].0, units[k].1) && cs[k].control_index
            == units[k].2
}

/// Every unit read comes after at most all the controls read.
proof fn lemma_evaluated_bounds(items: Seq<Element>, init: Seq<Element>)
    ensures
        forall|k: int|
            0 <= k < evaluated(items, init).0.len() ==> (#[trigger] evaluated(items, init).0[k]).2 <= evaluated(
                items,
                init,
            ).1.len(),
    decreases items.len(),
{
    if items.len() > 0 {
        lemma_evaluated_bounds(items.drop_last(), init);
        let r = evaluated(items.drop_last(), init);
        let q = evaluated(items, init);
        match items.last() {
            Element::Text(t) => {
                lemma_text_units_len(items.last(), t@.len(), r.1.len());
                assert forall|k: int| 0 <= k < q.0.len() implies (#[trigger] q.0[k]).2 <= q.1.len() by {
                    if k >= r.0.len() {
                        lemma_text_units_index(items.last(), t@.len(), r.1.len(), k - r.0.len());
                    }
                }
            },
            Element::Emoji { .. } => {
                assert forall|k: int| 0 <= k < q.0.len() implies (#[trigger] q.0[k]).2 <= q.1.len() by {
                    if k < r.0.len() {
                        assert(q.0[k] == r.0[k]);
                    }
                }
            },
            Element::Ruby { .. } => {
                assert forall|k: int| 0 <= k < q.0.len() implies (#[trigger] q.0[k]).2 <= q.1.len() by {
                    if k < r.0.len() {
                        assert(q.0[k] == r.0[k]);
                    }
                }
            },
            _ => {},
        }
    }
}

/// The units of a text element write back the text, one character after the
/// other.
proof fn lemma_restore_text(
    cs: Seq<CharStateView>,
    controls: Seq<Element>,
    units: Seq<(Element, int, nat)>,
    n0: nat,
    l0: nat,
    el: Element,
    t: Seq<char>,
    before: Seq<char>,
    k: nat,
)
    requires
        units_view_match(cs, units),
        1 <= k <= t.len(),
        n0 + t.len() <= units.len(),
        l0 <= controls.len(),
        forall|i: int| 0 <= i < t.len() ==> #[trigger] units[n0 + i] == (el, i, l0),
        forall|i: int| 0 <= i < t.len() ==> #[trigger] unit_of(el, i).markup() == seq![t[i]],
        n0 == 0 ==> controls_markup(controls.subrange(0, l0 as int)) == before,
        n0 > 0 ==> cs[n0 - 1].control_index <= l0 && states_markup(cs, controls, n0) + controls_markup(
            controls.subrange(cs[n0 - 1].control_index as int, l0 as int),
        ) == before,
    ensures
        states_markup(cs, controls, n0 + k) == before + t.take(k as int),
    decreases k,
{
    let i = n0 + k - 1;
    assert(units[n0 + (k - 1)] == (el, k - 1, l0));
    assert(cs[i].control_index == l0);
    assert(cs[i].unit.markup() == seq![t[k - 1]]);
    if k == 1 {
        if n0 == 0 {
            assert(emitted_before(cs, 0) == l0);
        } else {
            assert(emitted_before(cs, i) == cs[n0 - 1].control_index);
        }
        assert(controls.subrange(l0 as int, l0 as int) =~= Seq::<Element>::empty());
        assert(t.take(1) =~= seq![t[0]]);
        if n0 == 0 {
            assert(states_markup(cs, controls, 0) == before);
            assert(states_markup(cs, controls, 1) =~= before + t.take(1));
        } else {
            assert(states_markup(cs, controls, n0 + 1) =~= before + t.take(1));
        }
    } else {
        lemma_restore_text(cs, controls, units, n0, l0, el, t, before, (k - 1) as nat);
        assert(units[n0 + (k - 2)] == (el, k - 2, l0));
        assert(emitted_before(cs, i) == l0);
        assert(controls.subrange(l0 as int, l0 as int) =~= Seq::<Element>::empty());
        assert(t.take(k as int) =~= t.take(k - 1).push(t[k - 1]));
        assert(states_markup(cs, controls, n0 + k) =~= before + t.take(k as int));
    }
}

/// After the first `j` elements: the units read so far, followed by the controls
/// after the last of them (or, with no unit yet, the controls read so far),
/// write back the markup of the controls before and of the elements read.
#[verifier::spinoff_prover]
proof fn lemma_restore_prefix(items: Seq<Element>, init: Seq<Element>, cs: Seq<CharStateView>, j: int)
    requires
        0 <= j <= items.len(),
        units_view_match(cs, evaluated(items, init).0),
    ensures
        ({
            let e = evaluated(items, init);
            let p = evaluated(items.take(j), init);
            let n = p.0.len();
            let l = p.1.len() as int;
            &&& n == 0 ==> controls_markup(e.1.subrange(0, l)) == controls_markup(init + items.take(j))
            &&& n > 0 ==> cs[n - 1].control_index <= l && states_markup(cs, e.1, n) + controls_markup(
                e.1.subrange(cs[n - 1].control_index as int, l),
            ) == controls_markup(init + items.take(j))
        }),
    decreases j,
{
    let e = evaluated(items, init);
    assert(items.take(items.len() as int) =~= items);
    lemma_evaluated_prefix(items, init, j, items.len() as int);
    lemma_evaluated_bounds(items.take(j), init);
    let p = evaluated(items.take(j), init);
    if j == 0 {
        assert(items.take(0) =~= Seq::<Element>::empty());
        assert(e.1.subrange(0, p.1.len() as int) =~= init);
        assert(init + items.take(0) =~= init);
    } else {
        lemma_restore_prefix(items, init, cs, j - 1);
        lemma_evaluated_prefix(items, init, j - 1, items.len() as int);
        let r = evaluated(items.take(j - 1), init);
        let item = items[j - 1];
        assert(items.take(j).drop_last() =~= items.take(j - 1));
        assert(items.take(j).last() == item);
        assert(init + items.take(j) =~= (init + items.take(j - 1)).push(item));
        lemma_controls_markup_push(init + items.take(j - 1), item);
        let before = controls_markup(init + items.take(j - 1));
        let n0 = r.0.len();
        let l0 = r.1.len();
        assert(e.1.subrange(0, l0 as int) =~= r.1.subrange(0, l0 as int));
        match item {
            Element::Text(t) => {
                lemma_text_units_len(item, t@.len(), l0);
                assert(p.0 == r.0 + text_units(item, t@.len(), l0));
                assert forall|i: int| 0 <= i < t@.len() implies #[trigger] e.0[n0 + i] == (item, i, l0) by {
                    lemma_text_units_index(item, t@.len(), l0, i);
                    assert(e.0[n0 + i] == p.0[n0 + i]);
                }
                assert forall|i: int| 0 <= i < t@.len() implies #[trigger] unit_of(item, i).markup() == seq![t@[i]] by {
                }
                if t@.len() == 0 {
                    assert(t@ =~= Seq::<char>::empty());
                    assert(before + t@ =~= before);
                    assert(p.0 =~= r.0);
                } else {
                    lemma_restore_text(cs, e.1, e.0, n0, l0, item, t@, before, t@.len());
                    assert(t@.take(t@.len() as int) =~= t@);
                    let n = p.0.len();
                    assert(e.0[n0 + (t@.len() - 1)] == (item, t@.len() - 1, l0));
                    assert(cs[n - 1].control_index == l0);
                    assert(e.1.subrange(l0 as int, l0 as int) =~= Seq::<Element>::empty());
                    assert(states_markup(cs, e.1, n) + controls_markup(e.1.subrange(l0 as int, l0 as int)) =~= before + t@);
                }
            },
            Element::Emoji { .. } | Element::Ruby { .. } => {
                assert(p.0 == r.0.push((item, 0int, l0)));
                assert(e.0[n0 as int] == p.0[n0 as int]);
                assert(cs[n0 as int].control_index == l0);
                assert(cs[n0 as int].unit.markup() == element_markup(item));
                assert(e.1.subrange(l0 as int, l0 as int) =~= Seq::<Element>::empty());
                if n0 == 0 {
                    assert(emitted_before(cs, 0) == l0);
                    assert(cs.len() > 0);
                    assert(states_markup(cs, e.1, 0) == controls_markup(e.1.subrange(0, l0 as int)));
                    assert(states_markup(cs, e.1, 0) == before);
                    assert(controls_markup(e.1.subrange(l0 as int, l0 as int)) =~= Seq::<char>::empty());
                    assert(states_markup(cs, e.1, 1) == states_markup(cs, e.1, 0) + controls_markup(
                        e.1.subrange(l0 as int, l0 as int),
                    ) + cs[0].unit.markup());
                    assert(states_markup(cs, e.1, 1) =~= before + element_markup(item));
                } else {
                    assert(emitted_before(cs, n0 as int) == cs[n0 - 1].control_index);
                    assert(states_markup(cs, e.1, n0 + 1) =~= before + element_markup(item));
                }
            },
            _ => {
                assert(p.1 == r.1.push(item));
                assert(p.0 == r.0);
                assert(p.1[l0 as int] == item);
                assert(p.1 == e.1.take(p.1.len() as int));
                assert(e.1.take(p.1.len() as int)[l0 as int] == e.1[l0 as int]);
                assert(e.1[l0 as int] == item);
                if n0 == 0 {
                    assert(e.1.subrange(0, l0 + 1int) =~= e.1.subrange(0, l0 as int).push(item));
                    lemma_controls_markup_push(e.1.subrange(0, l0 as int), item);
                } else {
                    let x = cs[n0 - 1].control_index as int;
                    assert(e.1.subrange(x, l0 + 1int) =~= e.1.subrange(x, l0 as int).push(item));
                    lemma_controls_markup_push(e.1.subrange(x, l0 as int), item);
                }
            },
        }
    }
}

/// Every unit that reading gives stands for the element it was read from: a
/// character of a text is that character, an emoji keeps its name and markup,
/// and a ruby keeps its own base (the text that segmentation sees, or the object
/// replacement character where the base has no text) and its own reading.
pub proof fn lemma_units_stand_for_their_elements(
    items: Seq<Element>,
    init: Seq<Element>,
    chars: Seq<CharState>,
    start_times: Seq<u64>,
    k: int,
)
    requires
        units_match(chars, evaluated(items, init).0, start_times),
        0 <= k < chars.len(),
    ensures
        match evaluated(items, init).0[k].0 {
            Element::Text(t) => chars[k]@.unit == TextUnitView::Char(t@[evaluated(items, init).0[k].1]),
            Element::Emoji { name, markup } => chars[k]@.unit == TextUnitView::Emoji {
                name: name@,
                markup: markup@,
            },
            Element::Ruby { base, ruby, markup } => {
                &&& chars[k]@.unit == TextUnitView::Ruby {
                    base: elements_view(base@),
                    ruby: elements_view(ruby@),
                    markup: markup@,
                }
                &&& chars[k]@.unit.segmentation_text() == if elements_text(base@).len() == 0 {
                    seq![object_replacement()]
                } else {
                    elements_text(base@)
                }
            },
            _ => true,
        },
{
    assert(chars[k]@.unit == unit_of(evaluated(items, init).0[k].0, evaluated(items, init).0[k].1));
    match evaluated(items, init).0[k].0 {
        Element::Ruby { base, .. } => {
            lemma_elements_view_text(base@);
        },
        _ => {},
    }
}

/// Reading elements and writing their units back restores the markup: the
/// markup written for all the units, followed by the controls read after the
/// last unit, is the markup of the controls read before and of every element,
/// leaving out the controls that set the speed or wait.
pub proof fn lemma_units_restore_markup(
    items: Seq<Element>,
    init: Seq<Element>,
    chars: Seq<CharState>,
    start_times: Seq<u64>,
)
    requires
        units_match(chars, evaluated(items, init).0, start_times),
        chars.len() > 0,
    ensures
        states_markup(states_view(chars), evaluated(items, init).1, chars.len()) + controls_markup(
            evaluated(items, init).1.subrange(chars.last().control_index as int, evaluated(items, init).1.len() as int),
        ) == controls_markup(init + items),
{
    let cs = states_view(chars);
    assert forall|k: int| 0 <= k < cs.len() implies (#[trigger] cs[k]).unit == unit_of(
        evaluated(items, init).0[k].0,
        evaluated(items, init).0[k].1,
    ) && cs[k].control_index == evaluated(items, init).0[k].2 by {
        assert(cs[k] == chars[k]@);
    }
    lemma_restore_prefix(items, init, cs, items.len() as int);
    assert(items.take(items.len() as int) =~= items);
    assert(cs[chars.len() - 1] == chars.last()@);
}

/// The markup of two runs of controls, one after the other, is the markup of
/// the first followed by that of the second.
pub proof fn lemma_controls_markup_concat(a: Seq<Element>, b: Seq<Element>)
    ensures
        controls_markup(a + b) == controls_markup(a) + controls_markup(b),
    decreases b.len(),
{
    if b.len() == 0 {
        assert(a + b =~= a);
        assert(controls_markup(a) + Seq::<char>::empty() =~= controls_markup(a));
    } else {
        let init = b.drop_last();
        lemma_controls_markup_concat(a, init);
        assert((a + b).drop_last() =~= a + init);
        assert((a + b).last() == b.last());
        if is_timing(b.last()@) {
        } else {
            assert(controls_markup(a + b) =~= controls_markup(a) + controls_markup(b));
        }
    }
}

/// Showing more units only adds to the text: the markup written for the first
/// `n1` units is a prefix of that written for the first `n2`.
pub proof fn lemma_states_markup_prefix(cs: Seq<CharStateView>, controls: Seq<Element>, n1: nat, n2: nat)
    requires
        n1 <= n2,
    ensures
        states_markup(cs, controls, n1).is_prefix_of(states_markup(cs, controls, n2)),
    decreases n2,
{
    if n1 < n2 {
        lemma_states_markup_prefix(cs, controls, n1, (n2 - 1) as nat);
        let a = states_markup(cs, controls, n1);
        let b = states_markup(cs, controls, (n2 - 1) as nat);
        let c = states_markup(cs, controls, n2);
        if cs.len() > 0 {
            let extra = controls_markup(
                controls.subrange(emitted_before(cs, n2 - 1) as int, cs[n2 - 1].control_index as int),
            ) + cs[n2 - 1].unit.markup();
            assert(c =~= b + extra);
            assert forall|k: int| 0 <= k < a.len() implies c[k] == a[k] by {
                assert(c[k] == b[k]);
            }
        }
    } else {
        let a = states_markup(cs, controls, n1);
        assert(a.is_prefix_of(a));
    }
}

} // verus!
