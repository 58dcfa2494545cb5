use budoux_mod2::lending::{lend_buffer, release_buffer, BufferRegistry};

#[test]
fn a_lent_buffer_is_released_once() {
    let mut registry = BufferRegistry::new();
    let buffer = vec![1u8, 2, 3];
    let expected_address = buffer.as_ptr() as usize;
    let (address, len) = lend_buffer(&mut registry, buffer);
    assert_eq!(address, expected_address);
    assert_eq!(len, 3);
    assert!(release_buffer(&mut registry, address));
    assert!(!release_buffer(&mut registry, address));
}

#[test]
fn releasing_an_unknown_address_fails() {
    let mut registry = BufferRegistry::new();
    assert!(!release_buffer(&mut registry, 12345));
    let (address, _) = lend_buffer(&mut registry, vec![9u8; 16]);
    assert!(!release_buffer(&mut registry, address + 1));
    assert!(release_buffer(&mut registry, address));
}

#[test]
fn several_buffers_are_kept_apart() {
    let mut registry = BufferRegistry::new();
    let (a, la) = lend_buffer(&mut registry, vec![0u8; 8]);
    let (b, lb) = lend_buffer(&mut registry, vec![0u8; 4]);
    assert_ne!(a, b);
    assert_eq!((la, lb), (8, 4));
    assert!(release_buffer(&mut registry, b));
    assert!(release_buffer(&mut registry, a));
}
