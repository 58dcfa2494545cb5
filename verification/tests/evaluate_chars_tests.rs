use budoux_mod2::evaluate_chars::{
    char_states_to_text, controls_between_to_text, controls_to_text,
    elements_to_segmentation_text, evaluate_chars, is_timing_control, CharState, Element,
    TextUnit,
};

fn unit_at(unit: TextUnit, control_index: usize) -> CharState {
    CharState {
        unit,
        control_index,
        start_time: 0.0f64.to_bits(),
    }
}

fn other(markup: &str) -> Element {
    Element::Other {
        markup: markup.to_string(),
    }
}

#[test]
fn as_char_reads_character_units_only() {
    assert_eq!(TextUnit::Char('x').as_char(), Some('x'));
    let emoji = TextUnit::Emoji {
        name: "smile".to_string(),
        markup: "<&smile>".to_string(),
    };
    assert_eq!(emoji.as_char(), None);
}

#[test]
fn is_whitespace_follows_unicode() {
    assert!(TextUnit::Char(' ').is_whitespace());
    assert!(TextUnit::Char('\t').is_whitespace());
    assert!(TextUnit::Char('\u{3000}').is_whitespace());
    assert!(!TextUnit::Char('a').is_whitespace());
    assert!(!TextUnit::Char('\u{fffc}').is_whitespace());
    let emoji = TextUnit::Emoji {
        name: " ".to_string(),
        markup: " ".to_string(),
    };
    assert!(!emoji.is_whitespace());
}

#[test]
fn segmentation_text_of_each_kind_of_unit() {
    assert_eq!(TextUnit::Char('字').segmentation_text(), "字");
    let emoji = TextUnit::Emoji {
        name: "いいね".to_string(),
        markup: "<&いいね>".to_string(),
    };
    assert_eq!(emoji.segmentation_text(), "\u{fffc}");
    let ruby = TextUnit::Ruby {
        base: vec![Element::Text("制御文字".to_string())],
        ruby: vec![Element::Text("せいぎょもじ".to_string())],
        markup: "</>制御文字<!0.4+>せいぎょもじ</>".to_string(),
    };
    assert_eq!(ruby.segmentation_text(), "制御文字");
    let bare_ruby = TextUnit::Ruby {
        base: vec![other("<s20>")],
        ruby: vec![],
        markup: String::new(),
    };
    assert_eq!(bare_ruby.segmentation_text(), "\u{fffc}");
}

#[test]
fn segmentation_text_of_nested_elements() {
    let elements = vec![
        Element::Text("a".to_string()),
        Element::Emoji {
            name: "x".to_string(),
            markup: "<&x>".to_string(),
        },
        Element::Ruby {
            base: vec![Element::Text("b".to_string()), other("<#fff>")],
            ruby: vec![Element::Text("ignored".to_string())],
            markup: String::new(),
        },
        Element::Speed {
            markup: "<r2>".to_string(),
        },
    ];
    assert_eq!(elements_to_segmentation_text(&elements), "a\u{fffc}b");
    assert_eq!(elements_to_segmentation_text(&[]), "");
}

#[test]
fn timing_controls_are_speed_and_wait() {
    assert!(is_timing_control(&Element::Speed {
        markup: "<r2>".to_string()
    }));
    assert!(is_timing_control(&Element::Wait {
        markup: "<w1>".to_string()
    }));
    assert!(!is_timing_control(&other("<#ff0000>")));
}

#[test]
fn controls_text_skips_timing_controls() {
    let controls = vec![
        other("<#ff0000>"),
        Element::Speed {
            markup: "<r2>".to_string(),
        },
        other("<p+10>"),
        Element::Wait {
            markup: "<w1>".to_string(),
        },
    ];
    assert_eq!(controls_between_to_text(&controls, 0, 4), "<#ff0000><p+10>");
    assert_eq!(controls_between_to_text(&controls, 1, 3), "<p+10>");
    assert_eq!(controls_between_to_text(&controls, 2, 2), "");
    assert_eq!(controls_to_text(&controls, 1), "<#ff0000>");
}

#[test]
fn char_states_text_restores_controls_between_units() {
    let controls = vec![other("<#ff0000>"), other("<p+10>")];
    let chars = vec![
        unit_at(TextUnit::Char('A'), 0),
        unit_at(TextUnit::Char('B'), 1),
        unit_at(TextUnit::Char('C'), 2),
    ];
    assert_eq!(
        char_states_to_text(&chars[1..], &controls, usize::MAX),
        "<#ff0000>B<p+10>C"
    );
    assert_eq!(char_states_to_text(&chars, &controls, 3), "A<#ff0000>B<p+10>C");
}

#[test]
fn char_states_text_leaves_out_timing_controls() {
    let controls = vec![
        Element::Speed {
            markup: "<r2>".to_string(),
        },
        Element::Wait {
            markup: "<w1>".to_string(),
        },
    ];
    let chars = vec![
        unit_at(TextUnit::Char('A'), 0),
        unit_at(TextUnit::Char('B'), 1),
        unit_at(TextUnit::Char('C'), 2),
    ];
    assert_eq!(char_states_to_text(&chars, &controls, usize::MAX), "ABC");
}

#[test]
fn char_states_text_stops_after_the_shown_units() {
    let controls = vec![other("<#ff0000>"), other("<p+10>")];
    let chars = vec![
        unit_at(TextUnit::Char('A'), 1),
        unit_at(TextUnit::Char('B'), 2),
    ];
    assert_eq!(char_states_to_text(&chars, &controls, 0), "<#ff0000>");
    assert_eq!(char_states_to_text(&chars, &controls, 1), "<#ff0000>A");
    assert_eq!(char_states_to_text(&chars, &controls, 2), "<#ff0000>A<p+10>B");
    assert_eq!(char_states_to_text(&[], &controls, 2), "");
}

#[test]
fn char_states_text_writes_unit_markup() {
    let chars = vec![
        unit_at(
            TextUnit::Emoji {
                name: "いいね".to_string(),
                markup: "<&いいね>".to_string(),
            },
            0,
        ),
        unit_at(TextUnit::Char('B'), 0),
    ];
    assert_eq!(char_states_to_text(&chars, &[], 2), "<&いいね>B");
}

fn text(t: &str) -> Element {
    Element::Text(t.to_string())
}

#[test]
fn records_controls_and_restores_ranges() {
    // "A<#ff0000>B<p+10>C" as the markup parser splits it; at speed 0 every
    // unit appears at once.
    let items = vec![text("A"), other("<#ff0000>"), text("B"), other("<p+10>"), text("C")];
    let evaluated = evaluate_chars(items, vec![], &[0; 3]);
    assert_eq!(evaluated.chars.len(), 3);
    assert_eq!(
        char_states_to_text(&evaluated.chars[1..], &evaluated.controls, usize::MAX),
        "<#ff0000>B<p+10>C"
    );
}

#[test]
fn evaluate_counts_controls_before_each_unit() {
    let items = vec![
        text("ab"),
        Element::Speed {
            markup: "<r2>".to_string(),
        },
        Element::Emoji {
            name: "x".to_string(),
            markup: "<&x>".to_string(),
        },
        other("<#fff>"),
        Element::Ruby {
            base: vec![text("c")],
            ruby: vec![text("d")],
            markup: "<ruby>".to_string(),
        },
    ];
    let times = [10u64, 11, 12, 13];
    let evaluated = evaluate_chars(items, vec![other("<s10>")], &times);
    let indices: Vec<usize> = evaluated.chars.iter().map(|c| c.control_index).collect();
    assert_eq!(indices, vec![1, 1, 2, 3]);
    let starts: Vec<u64> = evaluated.chars.iter().map(|c| c.start_time).collect();
    assert_eq!(starts, vec![10, 11, 12, 13]);
    assert_eq!(evaluated.chars[0].unit, TextUnit::Char('a'));
    assert!(matches!(evaluated.chars[2].unit, TextUnit::Emoji { .. }));
    assert!(matches!(evaluated.chars[3].unit, TextUnit::Ruby { .. }));
    assert_eq!(evaluated.controls.len(), 3);
    assert_eq!(
        controls_to_text(&evaluated.controls, 3),
        "<s10><#fff>"
    );
}

#[test]
fn evaluate_keeps_newlines_and_tabs_as_units() {
    let evaluated = evaluate_chars(vec![text("a\n\tb")], vec![], &[0, 1, 1, 1]);
    assert_eq!(evaluated.chars.len(), 4);
    assert_eq!(evaluated.chars[1].unit.as_char(), Some('\n'));
    assert_eq!(evaluated.chars[2].unit.as_char(), Some('\t'));
    assert!(evaluated.controls.is_empty());
}

#[test]
fn units_written_back_restore_the_markup() {
    let items = vec![
        other("<s>"),
        text("ab"),
        Element::Speed {
            markup: "<r2>".to_string(),
        },
        Element::Emoji {
            name: "x".to_string(),
            markup: "<&x>".to_string(),
        },
        other("<#f>"),
    ];
    let evaluated = evaluate_chars(items, vec![], &[0, 0, 0]);
    let last = evaluated.chars.last().unwrap().control_index;
    let written = char_states_to_text(&evaluated.chars, &evaluated.controls, usize::MAX)
        + &controls_between_to_text(&evaluated.controls, last, evaluated.controls.len());
    assert_eq!(written, "<s>ab<&x><#f>");
}

#[test]
fn whitespace_is_the_unicode_white_space_list() {
    for c in ['\u{0b}', '\u{0c}', '\r', '\u{85}', '\u{a0}', '\u{1680}', '\u{2003}', '\u{200a}', '\u{2028}', '\u{2029}', '\u{202f}', '\u{205f}'] {
        assert!(TextUnit::Char(c).is_whitespace(), "{:?}", c);
    }
    for c in ['\u{200b}', '\u{180e}', '\u{feff}', '\u{1f}', '_'] {
        assert!(!TextUnit::Char(c).is_whitespace(), "{:?}", c);
    }
}

#[test]
fn showing_more_units_extends_the_text() {
    let controls = vec![other("<#f00>"), Element::Wait { markup: "<w1>".to_string() }, other("<s9>")];
    let chars = vec![
        unit_at(TextUnit::Char('a'), 0),
        unit_at(TextUnit::Char('b'), 1),
        unit_at(TextUnit::Char('c'), 3),
    ];
    let mut previous = String::new();
    for shown in 0..=4 {
        let text = char_states_to_text(&chars, &controls, shown);
        assert!(text.starts_with(&previous), "{previous:?} then {text:?}");
        previous = text;
    }
    assert_eq!(previous, "a<#f00>b<s9>c");
}
