use budoux_mod2::lua_handle::{
    layout_cache_key, parse_lua_integer, parse_usize, pop_return_stack, push_return_stack,
    push_return_stack_error, FullTextDecoration, LayoutCache, LuaHandle, ReturnStack,
    ReturnStackError, TextLayout, LAYOUT_CACHE_SALT,
};

#[test]
fn the_latest_reply_comes_back_first() {
    let mut stack = ReturnStack::new();
    assert!(push_return_stack(&mut stack, vec![1, 2]).is_ok());
    assert!(push_return_stack(&mut stack, vec![3]).is_ok());
    assert_eq!(pop_return_stack(&mut stack), Ok(vec![3]));
    assert_eq!(pop_return_stack(&mut stack), Ok(vec![1, 2]));
    assert_eq!(pop_return_stack(&mut stack), Err(ReturnStackError::Empty));
}

#[test]
fn an_error_reply_comes_back_as_an_error() {
    let mut stack = ReturnStack::new();
    assert!(push_return_stack_error(&mut stack, "bad script".to_string()).is_ok());
    assert_eq!(
        pop_return_stack(&mut stack),
        Err(ReturnStackError::Callback("bad script".to_string()))
    );
    assert_eq!(pop_return_stack(&mut stack), Err(ReturnStackError::Empty));
}

#[test]
fn decoration_codes() {
    let all = [
        FullTextDecoration::Normal,
        FullTextDecoration::Shadow,
        FullTextDecoration::LightShadow,
        FullTextDecoration::Outlined,
        FullTextDecoration::ThinOutlined,
        FullTextDecoration::BoldOutlined,
        FullTextDecoration::SquareOutlined,
    ];
    for (i, d) in all.iter().enumerate() {
        assert_eq!(d.code() as usize, i);
        assert_eq!(FullTextDecoration::from_code(i as i32), Some(*d));
    }
    assert_eq!(FullTextDecoration::from_code(7), None);
    assert_eq!(FullTextDecoration::from_code(-1), None);
    assert_eq!(FullTextDecoration::default(), FullTextDecoration::Normal);
}

#[test]
fn lua_integers_read_with_or_without_suffix() {
    assert_eq!(parse_lua_integer("1234LL"), Some(1234));
    assert_eq!(parse_lua_integer("1234"), Some(1234));
    assert_eq!(parse_lua_integer("12LLLL"), Some(12));
    assert_eq!(parse_lua_integer("+5LL"), Some(5));
    assert_eq!(parse_lua_integer("LL"), None);
    assert_eq!(parse_lua_integer(""), None);
    assert_eq!(parse_lua_integer("-1"), None);
    assert_eq!(parse_lua_integer("12L"), None);
    assert_eq!(parse_lua_integer("1 2"), None);
}

#[test]
fn unsigned_integers_must_fit() {
    assert_eq!(parse_usize("0"), Some(0));
    assert_eq!(parse_usize(&usize::MAX.to_string()), Some(usize::MAX));
    let too_big = format!("{}0", usize::MAX);
    assert_eq!(parse_usize(&too_big), None);
    assert_eq!(parse_usize("+"), None);
}

#[test]
fn handle_keeps_the_callback_address() {
    let handle = LuaHandle::new("140737488355328LL".to_string()).unwrap();
    assert_eq!(handle.callback(), 140737488355328);
    assert!(LuaHandle::new("not a number".to_string()).is_none());
}

#[test]
fn cache_key_is_the_digest_of_salt_text_decoration_and_spacing() {
    let spacing = 1.5f64.to_bits();
    let mut data = Vec::new();
    data.extend_from_slice(LAYOUT_CACHE_SALT.as_bytes());
    data.extend_from_slice("abc".as_bytes());
    data.push(3u8);
    data.extend_from_slice(&spacing.to_le_bytes());
    let expected = xxhash_rust::xxh3::xxh3_64(&data);
    assert_eq!(
        layout_cache_key("abc", FullTextDecoration::Outlined, spacing),
        expected
    );
    assert_ne!(
        layout_cache_key("abc", FullTextDecoration::Normal, spacing),
        expected
    );
}

#[test]
fn a_stored_layout_is_found_again() {
    let mut cache = LayoutCache::new();
    let spacing = 0.0f64.to_bits();
    let (key, found) = cache.lookup("text", FullTextDecoration::Normal, spacing);
    assert_eq!(found, None);
    let layout = TextLayout {
        width: 10,
        height: 20,
        negative_center_x_delta: 1.0f64.to_bits(),
        negative_center_y_delta: 2.0f64.to_bits(),
    };
    cache.store(key, layout);
    let (again, found) = cache.lookup("text", FullTextDecoration::Normal, spacing);
    assert_eq!(again, key);
    assert_eq!(found, Some(layout));
    let (_, other) = cache.lookup("text", FullTextDecoration::Shadow, spacing);
    assert_eq!(other, None);
}

#[test]
fn text_layout_asks_once_and_then_uses_the_cache() {
    let handle = LuaHandle::new("4096LL".to_string()).unwrap();
    let mut cache = LayoutCache::new();
    let calls = std::cell::Cell::new(0);
    let ask = |callback: usize,
               text: &str,
               decoration: FullTextDecoration,
               spacing_bits: u64|
     -> Result<TextLayout, String> {
        calls.set(calls.get() + 1);
        assert_eq!(callback, 4096);
        Ok(TextLayout {
            width: text.chars().count() * 10 + decoration.code() as usize,
            height: 20,
            negative_center_x_delta: spacing_bits,
            negative_center_y_delta: 0,
        })
    };
    let spacing = 2.0f64.to_bits();
    let first = handle
        .text_layout(&mut cache, "abc", FullTextDecoration::Shadow, spacing, &ask)
        .unwrap();
    assert_eq!(first.width, 31);
    assert_eq!(first.negative_center_x_delta, spacing);
    let second = handle
        .text_layout(&mut cache, "abc", FullTextDecoration::Shadow, spacing, &ask)
        .unwrap();
    assert_eq!(second, first);
    assert_eq!(calls.get(), 1);
    let other = handle
        .text_layout(&mut cache, "ab", FullTextDecoration::Shadow, spacing, &ask)
        .unwrap();
    assert_eq!(other.width, 21);
    assert_eq!(calls.get(), 2);
}

#[test]
fn a_failed_request_is_not_cached() {
    let handle = LuaHandle::new("1".to_string()).unwrap();
    let mut cache = LayoutCache::new();
    let failing = |_: usize, _: &str, _: FullTextDecoration, _: u64| -> Result<TextLayout, String> {
        Err("script error".to_string())
    };
    let result = handle.text_layout(&mut cache, "x", FullTextDecoration::Normal, 0, &failing);
    assert_eq!(result, Err("script error".to_string()));
    let (_, found) = cache.lookup("x", FullTextDecoration::Normal, 0);
    assert_eq!(found, None);
}
