use budoux_mod2::budoux::{load_model, BudouxModelRaw, ParserModel};
use budoux_mod2::evaluate_chars::{CharState, TextUnit};
use budoux_mod2::evaluate_chars::Element;
use budoux_mod2::layout::{
    build_wrapped_lines, justified_line_markup, layout_width, line_alignment,
    split_source_lines, HorizontalAlign, Justify, SourceLine, WrappedLine,
};

fn empty_parser() -> ParserModel {
    load_model(BudouxModelRaw {
        uw1: vec![],
        uw2: vec![],
        uw3: vec![],
        uw4: vec![],
        uw5: vec![],
        uw6: vec![],
        bw1: vec![],
        bw2: vec![],
        bw3: vec![],
        tw1: vec![],
        tw2: vec![],
        tw3: vec![],
        tw4: vec![],
    })
}

fn states(text: &str, control_index: usize) -> Vec<CharState> {
    text.chars()
        .map(|c| CharState {
            unit: TextUnit::Char(c),
            control_index,
            start_time: 0.0f64.to_bits(),
        })
        .collect()
}

fn text_of(chars: &[CharState]) -> String {
    chars.iter().map(|c| c.unit.to_markup()).collect()
}

fn line_texts(lines: &[WrappedLine]) -> Vec<(String, bool)> {
    lines
        .iter()
        .map(|l| (text_of(&l.chars), l.is_paragraph_end))
        .collect()
}

fn count_units(v: &Vec<CharState>) -> Result<usize, String> {
    Ok(v.len())
}

#[test]
fn justify_codes() {
    assert_eq!(Justify::from_code(0), Some(Justify::No));
    assert_eq!(Justify::from_code(1), Some(Justify::SpecifiedWidth));
    assert_eq!(Justify::from_code(2), Some(Justify::LongestLine));
    assert_eq!(Justify::from_code(3), None);
    assert_eq!(Justify::from_code(-1), None);
}

#[test]
fn horizontal_align_codes() {
    assert_eq!(HorizontalAlign::from_code(0), Some(HorizontalAlign::Left));
    assert_eq!(HorizontalAlign::from_code(1), Some(HorizontalAlign::Center));
    assert_eq!(HorizontalAlign::from_code(2), Some(HorizontalAlign::Right));
    assert_eq!(HorizontalAlign::from_code(3), Some(HorizontalAlign::Justify));
    assert_eq!(HorizontalAlign::from_code(4), None);
}

#[test]
fn justified_layouts_stretch_all_but_paragraph_ends() {
    assert_eq!(
        line_alignment(Justify::SpecifiedWidth, false, HorizontalAlign::Left),
        HorizontalAlign::Justify
    );
    assert_eq!(
        line_alignment(Justify::LongestLine, true, HorizontalAlign::Right),
        HorizontalAlign::Right
    );
    assert_eq!(
        line_alignment(Justify::No, false, HorizontalAlign::Center),
        HorizontalAlign::Center
    );
}

#[test]
fn source_lines_split_at_newlines() {
    let mut chars = states("ab", 2);
    chars.extend(states("\n", 3));
    chars.extend(states("c", 4));
    chars.extend(states("\n", 5));
    let lines = split_source_lines(chars, 2);
    assert_eq!(lines.len(), 3);
    assert_eq!(text_of(&lines[0].chars), "ab");
    assert_eq!(lines[0].control_index, 2);
    assert_eq!(text_of(&lines[1].chars), "c");
    assert_eq!(lines[1].control_index, 3);
    assert_eq!(text_of(&lines[2].chars), "");
    assert_eq!(lines[2].control_index, 5);
}

#[test]
fn no_units_give_one_empty_source_line() {
    let lines = split_source_lines(vec![], 7);
    assert_eq!(lines.len(), 1);
    assert!(lines[0].chars.is_empty());
    assert_eq!(lines[0].control_index, 7);
}

#[test]
fn words_wrap_at_whitespace() {
    let lines = vec![SourceLine {
        chars: states("hello world foo", 0),
        control_index: 0,
    }];
    let wrapped = build_wrapped_lines(&lines, &empty_parser(), 5, &count_units).unwrap();
    assert_eq!(
        line_texts(&wrapped),
        vec![
            ("hello".to_string(), false),
            ("world".to_string(), false),
            ("foo".to_string(), true),
        ]
    );
}

#[test]
fn whitespace_between_pieces_stays_inside_a_line() {
    let lines = vec![SourceLine {
        chars: states("ab cd ef", 0),
        control_index: 0,
    }];
    let wrapped = build_wrapped_lines(&lines, &empty_parser(), 5, &count_units).unwrap();
    assert_eq!(
        line_texts(&wrapped),
        vec![("ab cd".to_string(), false), ("ef".to_string(), true)]
    );
}

#[test]
fn a_piece_wider_than_the_line_is_broken_into_units() {
    let lines = vec![SourceLine {
        chars: states("abcdefg", 0),
        control_index: 0,
    }];
    let wrapped = build_wrapped_lines(&lines, &empty_parser(), 3, &count_units).unwrap();
    assert_eq!(
        line_texts(&wrapped),
        vec![
            ("abc".to_string(), false),
            ("def".to_string(), false),
            ("g".to_string(), true),
        ]
    );
}

#[test]
fn a_unit_that_never_fits_gets_a_line_of_its_own() {
    let lines = vec![SourceLine {
        chars: states("ab", 0),
        control_index: 0,
    }];
    let wrapped = build_wrapped_lines(&lines, &empty_parser(), 0, &count_units).unwrap();
    assert_eq!(
        line_texts(&wrapped),
        vec![("a".to_string(), false), ("b".to_string(), true)]
    );
}

#[test]
fn empty_source_lines_give_empty_paragraph_ends() {
    let lines = vec![
        SourceLine {
            chars: vec![],
            control_index: 4,
        },
        SourceLine {
            chars: states("x", 6),
            control_index: 5,
        },
    ];
    let wrapped = build_wrapped_lines(&lines, &empty_parser(), 10, &count_units).unwrap();
    assert_eq!(wrapped.len(), 2);
    assert!(wrapped[0].chars.is_empty());
    assert_eq!(wrapped[0].control_index, 4);
    assert!(wrapped[0].is_paragraph_end);
    assert_eq!(wrapped[1].control_index, 6);
    assert!(wrapped[1].is_paragraph_end);
}

#[test]
fn whitespace_only_lines_give_one_empty_paragraph_end() {
    let lines = vec![SourceLine {
        chars: states("   ", 0),
        control_index: 3,
    }];
    let wrapped = build_wrapped_lines(&lines, &empty_parser(), 10, &count_units).unwrap();
    assert_eq!(wrapped.len(), 1);
    assert!(wrapped[0].chars.is_empty());
    assert_eq!(wrapped[0].control_index, 3);
    assert!(wrapped[0].is_paragraph_end);
}

#[test]
fn every_source_line_ends_exactly_one_paragraph() {
    let lines = vec![
        SourceLine {
            chars: states("ab cd ef", 0),
            control_index: 0,
        },
        SourceLine {
            chars: vec![],
            control_index: 0,
        },
        SourceLine {
            chars: states("xyz", 0),
            control_index: 0,
        },
    ];
    let wrapped = build_wrapped_lines(&lines, &empty_parser(), 2, &count_units).unwrap();
    assert_eq!(wrapped.iter().filter(|l| l.is_paragraph_end).count(), 3);
    assert!(wrapped.last().unwrap().is_paragraph_end);
}

#[test]
fn a_measuring_error_is_passed_on() {
    let lines = vec![SourceLine {
        chars: states("abc", 0),
        control_index: 0,
    }];
    let failing = |_: &Vec<CharState>| -> Result<usize, String> { Err("no layout".to_string()) };
    let result = build_wrapped_lines(&lines, &empty_parser(), 10, &failing);
    assert_eq!(result.err(), Some("no layout".to_string()));
}

#[test]
fn layout_width_follows_justify() {
    let lines = vec![
        WrappedLine {
            chars: states("abc", 0),
            control_index: 0,
            is_paragraph_end: false,
        },
        WrappedLine {
            chars: states("abcde", 0),
            control_index: 0,
            is_paragraph_end: true,
        },
    ];
    assert_eq!(layout_width(Justify::No, 40, &lines, &count_units), Ok(40));
    assert_eq!(layout_width(Justify::SpecifiedWidth, 40, &lines, &count_units), Ok(40));
    assert_eq!(layout_width(Justify::LongestLine, 40, &lines, &count_units), Ok(5));
    assert_eq!(layout_width(Justify::LongestLine, 40, &[], &count_units), Ok(0));
    let failing = |_: &Vec<CharState>| -> Result<usize, String> { Err("no layout".to_string()) };
    assert_eq!(layout_width(Justify::LongestLine, 40, &lines, &failing), Err("no layout".to_string()));
    assert_eq!(layout_width(Justify::No, 40, &lines, &failing), Ok(40));
}

#[test]
fn justified_lines_space_units_and_stand_in_for_hidden_ones() {
    let controls = vec![Element::Other {
        markup: "<#f00>".to_string(),
    }];
    let mut chars = states("a", 0);
    chars.extend(states("bc", 1));
    let shown = [true, false, true];
    let spacer = |c: &CharState| -> Result<String, String> {
        Ok(format!("[{}]", c.unit.to_markup()))
    };
    let text = justified_line_markup(&chars, &controls, &shown, "_", &spacer).unwrap();
    assert_eq!(text, "a_<#f00>[b]_c_");
}

#[test]
fn justified_line_passes_on_a_spacer_error() {
    let chars = states("ab", 0);
    let failing = |_: &CharState| -> Result<String, String> { Err("no layout".to_string()) };
    assert_eq!(
        justified_line_markup(&chars, &[], &[true, false], "_", &failing),
        Err("no layout".to_string())
    );
    assert_eq!(
        justified_line_markup(&chars, &[], &[true, true], "_", &failing),
        Ok("a_b_".to_string())
    );
}
