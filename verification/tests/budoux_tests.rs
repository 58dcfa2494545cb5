use budoux_mod2::budoux::{
    load_model, parse_bigram, parse_trigram, parse_unigram, segment, segment_with_model,
    BudouxModel, BudouxModelRaw, BundledModels, Language, ParserModel,
};

fn empty_raw() -> BudouxModelRaw {
    BudouxModelRaw {
        uw1: vec![],
        uw2: vec![],
        uw3: vec![],
        uw4: vec![],
        uw5: vec![],
        uw6: vec![],
        bw1: vec![],
        bw2: vec![],
        bw3: vec![],
        tw1: vec![],
        tw2: vec![],
        tw3: vec![],
        tw4: vec![],
    }
}

fn entries(items: &[(&str, i32)]) -> Vec<(String, i32)> {
    items.iter().map(|(k, v)| (k.to_string(), *v)).collect()
}

/// A model file with the given tables, the others empty.
fn model_file(tables: &[(&str, &[(&str, i32)])]) -> BudouxModelRaw {
    let mut raw = empty_raw();
    for (name, items) in tables {
        let e = entries(items);
        match *name {
            "UW3" => raw.uw3 = e,
            "UW4" => raw.uw4 = e,
            "BW2" => raw.bw2 = e,
            _ => panic!("no such table in these models: {name}"),
        }
    }
    raw
}

/// Stand-in models for the four languages: each holds only the weights that
/// decide the phrase boundaries of the sentence its test splits (a break
/// after `は`; around `是`; before `นน`'s second `น`, `อ` and `ด`), plus a
/// negative weight that keeps the base score from cancelling them.
fn stand_in_models() -> BundledModels {
    BundledModels {
        japanese: load_model(model_file(&[("UW3", &[("は", 1000)])])),
        simplified_chinese: load_model(model_file(&[
            ("UW3", &[("是", 1000)]),
            ("UW4", &[("是", 1000), ("天", -1000)]),
        ])),
        traditional_chinese: load_model(model_file(&[
            ("UW3", &[("是", 1000)]),
            ("UW4", &[("是", 1000), ("天", -1000)]),
        ])),
        thai: load_model(model_file(&[
            ("BW2", &[("นน", 1000)]),
            ("UW4", &[("อ", 1000), ("ด", 1000), ("า", -2000)]),
        ])),
    }
}

#[test]
fn test_segment_japanese() {
    assert_eq!(
        segment(&stand_in_models(), "私は学生です。", Language::Japanese),
        vec!["私は", "学生です。"]
    );
}

#[test]
fn test_segment_simplified_chinese() {
    assert_eq!(
        segment(&stand_in_models(), "今天是晴天。", Language::SimplifiedChinese),
        vec!["今天", "是", "晴天。"]
    );
}

#[test]
fn test_segment_traditional_chinese() {
    assert_eq!(
        segment(&stand_in_models(), "今天是晴天。", Language::TraditionalChinese),
        vec!["今天", "是", "晴天。"]
    );
}

#[test]
fn test_segment_thai() {
    assert_eq!(
        segment(&stand_in_models(), "วันนี้อากาศดี", Language::Thai),
        vec!["วัน", "นี้", "อากาศ", "ดี"]
    );
}

#[test]
fn empty_text_gives_no_phrase() {
    let parser = load_model(empty_raw());
    assert!(segment_with_model("", &parser).is_empty());
}

#[test]
fn model_without_weights_keeps_text_whole() {
    let parser = load_model(empty_raw());
    assert_eq!(segment_with_model("abc", &parser), vec!["abc"]);
}

#[test]
fn base_value_is_minus_half_the_sum_rounded_toward_zero() {
    let mut raw = empty_raw();
    raw.uw1 = entries(&[("a", 3), ("b", 4)]);
    raw.tw1 = entries(&[("ab", 100), ("abcd", -50)]);
    let parser = load_model(raw);
    assert_eq!(parser.base_value, -28);

    let mut raw = empty_raw();
    raw.bw2 = entries(&[("ab", -7)]);
    assert_eq!(load_model(raw).base_value, 3);
}

#[test]
fn each_feature_window_is_read_at_its_offset() {
    // A break before the character at index 2 of "abcde" is scored from
    // uw1: a, uw2: b, uw3: b, uw4: c, uw5: d, uw6: e, bw1: ab, bw2: bc, bw3: cd,
    // tw1: (none at i = 2), tw2: abc, tw3: bcd, tw4: cde.
    let cases = [
        ("uw2", "a"),
        ("uw3", "b"),
        ("uw4", "c"),
        ("uw5", "d"),
        ("uw6", "e"),
        ("bw1", "ab"),
        ("bw2", "bc"),
        ("bw3", "cd"),
        ("tw2", "abc"),
        ("tw3", "bcd"),
        ("tw4", "cde"),
    ];
    for (table, key) in cases {
        let mut raw = empty_raw();
        let entry = (key.to_string(), 5);
        match table {
            "uw2" => raw.uw2.push(entry),
            "uw3" => raw.uw3.push(entry),
            "uw4" => raw.uw4.push(entry),
            "uw5" => raw.uw5.push(entry),
            "uw6" => raw.uw6.push(entry),
            "bw1" => raw.bw1.push(entry),
            "bw2" => raw.bw2.push(entry),
            "bw3" => raw.bw3.push(entry),
            "tw2" => raw.tw2.push(entry),
            "tw3" => raw.tw3.push(entry),
            _ => raw.tw4.push(entry),
        }
        let mut parser = load_model(raw);
        parser.base_value = 0;
        let phrases = segment_with_model("abcde", &parser);
        assert!(
            phrases.iter().any(|p| p.starts_with('c')),
            "a weight under {key} breaks before c: {phrases:?}"
        );
    }
}

#[test]
fn negative_base_keeps_weak_boundaries() {
    let mut raw = empty_raw();
    raw.uw4 = entries(&[("b", 5), ("c", 20)]);
    let parser = load_model(raw);
    assert_eq!(parser.base_value, -12);
    assert_eq!(segment_with_model("abc", &parser), vec!["ab", "c"]);
}

#[test]
fn tables_read_their_keys() {
    let uni = parse_unigram(entries(&[("a", 1), ("b", -2)]));
    assert_eq!(uni.len(), 2);
    let bi = parse_bigram(entries(&[("ab", 1)]));
    assert_eq!(bi.len(), 1);
    let tri = parse_trigram(entries(&[("ab", 1), ("abc", 2), ("abcd", 3)]));
    assert_eq!(tri.len(), 1);
    let code = (('a' as u64) * 0x200000 + 'b' as u64) * 0x200000 + 'c' as u64;
    assert_eq!(tri.get(&code), Some(&2));
    assert_eq!(uni.get(&('a' as u64)), Some(&1));
    assert_eq!(bi.keys().copied().collect::<Vec<_>>(), vec![('a' as u64) * 0x200000 + 'b' as u64]);
    assert_eq!(tri.values().copied().collect::<Vec<_>>(), vec![2]);
}

#[test]
fn from_raw_reads_every_table() {
    let mut raw = empty_raw();
    raw.uw1 = entries(&[("a", 1)]);
    raw.bw3 = entries(&[("ab", 1)]);
    raw.tw4 = entries(&[("abc", 1)]);
    let model = BudouxModel::from_raw(raw);
    assert_eq!(model.uw1.len(), 1);
    assert_eq!(model.bw3.len(), 1);
    assert_eq!(model.tw4.len(), 1);
    assert!(model.uw2.is_empty());
}

#[test]
fn bundled_models_pick_the_language() {
    let mut raw = empty_raw();
    raw.uw4 = entries(&[("b", 10)]);
    let mut thai: ParserModel = load_model(raw);
    thai.base_value = 0;
    let models = BundledModels {
        japanese: load_model(empty_raw()),
        simplified_chinese: load_model(empty_raw()),
        traditional_chinese: load_model(empty_raw()),
        thai,
    };
    assert_eq!(segment(&models, "ab", Language::Thai), vec!["a", "b"]);
    assert_eq!(segment(&models, "ab", Language::Japanese), vec!["ab"]);
    assert_eq!(models.get_model(Language::Thai).base_value, 0);
}

#[test]
fn phrases_put_back_together_give_the_text() {
    let mut raw = empty_raw();
    raw.uw4 = entries(&[("は", 30), ("で", 30)]);
    raw.bw2 = entries(&[("私は", -100)]);
    let parser = load_model(raw);
    let text = "私はでんでん";
    let phrases = segment_with_model(text, &parser);
    assert_eq!(phrases.concat(), text);
    assert!(phrases.iter().all(|p| !p.is_empty()));
    assert_eq!(phrases, vec!["私は", "で", "ん", "で", "ん"]);
}

#[test]
fn a_break_depends_only_on_the_characters_around_it() {
    let mut raw = empty_raw();
    raw.bw2 = entries(&[("bc", 40)]);
    raw.tw4 = entries(&[("cxy", -20)]);
    let mut parser = load_model(raw);
    parser.base_value = -10;
    // Both texts agree on "abcxy", so the break before "c" is decided alike.
    assert_eq!(segment_with_model("abcxyz", &parser), vec!["ab", "cxyz"]);
    assert_eq!(segment_with_model("abcxyq", &parser), vec!["ab", "cxyq"]);
}
