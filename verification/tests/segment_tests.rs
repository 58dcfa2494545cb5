use budoux_mod2::budoux::{load_model, BudouxModelRaw, ParserModel};
use budoux_mod2::evaluate_chars::{CharState, Element, TextUnit};
use budoux_mod2::segment::{
    segment, segment_manually, segment_with_budoux, segment_with_whitespace, Segment, WrappedBy,
};

fn make_char_state(c: char) -> CharState {
    CharState {
        unit: TextUnit::Char(c),
        control_index: 0,
        start_time: 0.0f64.to_bits(),
    }
}

fn make_ruby_state(base: &str, ruby: &str) -> CharState {
    CharState {
        unit: TextUnit::Ruby {
            base: vec![Element::Text(base.to_string())],
            ruby: vec![Element::Text(ruby.to_string())],
            markup: format!("<r{base}|{ruby}>"),
        },
        control_index: 0,
        start_time: 0.0f64.to_bits(),
    }
}

fn states_to_text(states: &[CharState]) -> String {
    states.iter().map(|state| state.unit.to_markup()).collect()
}

fn texts(segments: &[Segment]) -> Vec<String> {
    segments.iter().map(|s| states_to_text(&s.chars)).collect()
}

fn empty_raw() -> BudouxModelRaw {
    BudouxModelRaw {
        uw1: vec![],
        uw2: vec![],
        uw3: vec![],
        uw4: vec![],
        uw5: vec![],
        uw6: vec![],
        bw1: vec![],
        bw2: vec![],
        bw3: vec![],
        tw1: vec![],
        tw2: vec![],
        tw3: vec![],
        tw4: vec![],
    }
}

/// A stand-in for the Japanese model: it holds only the weight that breaks
/// after `は`.
fn japanese_parser() -> ParserModel {
    let mut raw = empty_raw();
    raw.uw3 = vec![("は".to_string(), 1000)];
    load_model(raw)
}

/// A parser that breaks before every character `c` that has a positive `UW4`
/// weight and nowhere else.
fn parser_breaking_before(chars: &[char]) -> ParserModel {
    let mut raw = empty_raw();
    raw.uw4 = chars.iter().map(|c| (c.to_string(), 10)).collect();
    let mut parser = load_model(raw);
    parser.base_value = 0;
    parser
}

#[test]
fn test_segment_with_budoux() {
    let char_states = "私は学生です。"
        .chars()
        .map(make_char_state)
        .collect::<Vec<_>>();
    let segments = segment_with_budoux(&char_states, &japanese_parser());
    assert_eq!(texts(&segments), vec!["私は", "学生です。"]);
}

#[test]
fn test_segment_with_budoux_keeps_ruby_atomic() {
    let char_states = vec![
        make_char_state('私'),
        make_char_state('は'),
        make_ruby_state("学生", "がくせい"),
        make_char_state('で'),
        make_char_state('す'),
    ];
    let segments = segment_with_budoux(&char_states, &japanese_parser());
    let flattened = segments
        .iter()
        .flat_map(|segment| segment.chars.iter())
        .collect::<Vec<_>>();
    assert_eq!(flattened, char_states.iter().collect::<Vec<_>>());
    assert_eq!(
        flattened
            .iter()
            .filter(|state| matches!(state.unit, TextUnit::Ruby { .. }))
            .count(),
        1
    );
}

#[test]
fn test_segment_with_whitespace() {
    let char_states = "hello world"
        .chars()
        .map(make_char_state)
        .collect::<Vec<_>>();
    let segments = segment_with_whitespace(&char_states);
    assert_eq!(texts(&segments), vec!["hello", "world"]);
}

#[test]
fn test_segment_with_whitespace_double_spaces() {
    let char_states = "hello  world"
        .chars()
        .map(make_char_state)
        .collect::<Vec<_>>();
    let segments = segment_with_whitespace(&char_states);
    assert_eq!(texts(&segments), vec!["hello", "world"]);
    assert_eq!(segments.len(), 2);
    assert!(matches!(segments[0].wrapped_by, WrappedBy::NotWrapped));
    assert!(matches!(segments[1].wrapped_by, WrappedBy::Whitespace(_)));
}

#[test]
fn test_segment_manually() {
    let char_states = "私は\\b学生です。"
        .chars()
        .map(make_char_state)
        .collect::<Vec<_>>();
    let segments = segment_manually(&char_states);
    assert_eq!(texts(&segments), vec!["私は", "学生です。"]);
    assert!(matches!(segments[0].wrapped_by, WrappedBy::NotWrapped));
    assert!(matches!(segments[1].wrapped_by, WrappedBy::Manual));
}

#[test]
fn test_segment_with_whitespace_does_not_use_budoux() {
    let char_states = "私は学生です。"
        .chars()
        .map(make_char_state)
        .collect::<Vec<_>>();
    let segments = segment_with_whitespace(&char_states);
    assert_eq!(texts(&segments), vec!["私は学生です。"]);
    assert!(matches!(segments[0].wrapped_by, WrappedBy::NotWrapped));
}

#[test]
fn whitespace_split_keeps_trailing_whitespace_on_the_last_piece() {
    let char_states = " ab c ".chars().map(make_char_state).collect::<Vec<_>>();
    let segments = segment_with_whitespace(&char_states);
    assert_eq!(texts(&segments), vec!["ab", "c"]);
    match &segments[0].wrapped_by {
        WrappedBy::Whitespace(ws) => assert_eq!(states_to_text(ws), " "),
        _ => panic!("the first piece follows whitespace"),
    }
    match &segments[1].wrapped_by {
        WrappedBy::Whitespace(ws) => assert_eq!(states_to_text(ws), " "),
        _ => panic!("the trailing whitespace wraps the last piece"),
    }
}

#[test]
fn whitespace_only_gives_no_piece() {
    let char_states = "   ".chars().map(make_char_state).collect::<Vec<_>>();
    assert!(segment_with_whitespace(&char_states).is_empty());
    assert!(segment_with_whitespace(&[]).is_empty());
}

#[test]
fn manual_split_of_text_without_marker_is_one_piece() {
    let char_states = "ab\\c".chars().map(make_char_state).collect::<Vec<_>>();
    let segments = segment_manually(&char_states);
    assert_eq!(texts(&segments), vec!["ab\\c"]);
    assert!(matches!(segments[0].wrapped_by, WrappedBy::NotWrapped));
}

#[test]
fn manual_split_counts_one_piece_per_marker() {
    let char_states = "\\ba\\b\\bb\\b".chars().map(make_char_state).collect::<Vec<_>>();
    let segments = segment_manually(&char_states);
    assert_eq!(texts(&segments), vec!["", "a", "", "b", ""]);
    assert!(matches!(segments[0].wrapped_by, WrappedBy::NotWrapped));
    assert!(segments[1..]
        .iter()
        .all(|s| matches!(s.wrapped_by, WrappedBy::Manual)));
}

#[test]
fn budoux_split_breaks_where_the_model_scores_positive() {
    let char_states = "abcab".chars().map(make_char_state).collect::<Vec<_>>();
    let parser = parser_breaking_before(&['c']);
    let segments = segment_with_budoux(&char_states, &parser);
    assert_eq!(texts(&segments), vec!["ab", "cab"]);
    assert!(matches!(segments[0].wrapped_by, WrappedBy::NotWrapped));
    assert!(matches!(segments[1].wrapped_by, WrappedBy::Budoux));
}

#[test]
fn budoux_split_does_not_break_inside_a_ruby() {
    let char_states = vec![
        make_char_state('a'),
        make_ruby_state("xc", "y"),
        make_char_state('c'),
    ];
    let parser = parser_breaking_before(&['c']);
    let segments = segment_with_budoux(&char_states, &parser);
    assert_eq!(segments.len(), 2);
    assert_eq!(segments[0].chars.len(), 2);
    assert_eq!(segments[1].chars.len(), 1);
    assert!(matches!(segments[1].wrapped_by, WrappedBy::Budoux));
}

#[test]
fn segment_runs_whitespace_manual_and_budoux_splits_in_turn() {
    let char_states = "ab\\bcd ec".chars().map(make_char_state).collect::<Vec<_>>();
    let parser = parser_breaking_before(&['d']);
    let segments = segment(&char_states, &parser);
    assert_eq!(texts(&segments), vec!["ab", "c", "d", "ec"]);
    assert!(matches!(segments[0].wrapped_by, WrappedBy::NotWrapped));
    assert!(matches!(segments[1].wrapped_by, WrappedBy::Manual));
    assert!(matches!(segments[2].wrapped_by, WrappedBy::Budoux));
    assert!(matches!(segments[3].wrapped_by, WrappedBy::Whitespace(_)));
}
