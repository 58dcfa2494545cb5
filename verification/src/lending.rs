use dashmap::DashMap;
use vstd::prelude::*;

verus! {

#[verifier::external_type_specification]
#[verifier::external_body]
#[verifier::reject_recursive_types(K)]
#[verifier::reject_recursive_types(V)]
#[verifier::reject_recursive_types(S)]
pub struct ExDashMap<K, V, S>(DashMap<K, V, S>);

/// What a map of lent buffers holds: address to the bytes of the buffer.
pub uninterp spec fn lent_contents(m: DashMap<usize, Vec<u8>>) -> Map<usize, Seq<u8>>;

/// No buffer at all.
pub open spec fn no_buffers() -> Map<usize, Seq<u8>> {
    Map::empty()
}

/// `DashMap::new`: an empty map.
#[verifier::external_body]
fn lent_map_new() -> (r: DashMap<usize, Vec<u8>>)
    ensures
        lent_contents(r) == no_buffers(),
{
    DashMap::new()
}

/// `DashMap::insert`: maps `key` to `value`, handing back the value it replaces.
#[verifier::external_body]
fn lent_map_insert(m: &mut DashMap<usize, Vec<u8>>, key: usize, value: Vec<u8>) -> (r: Option<Vec<u8>>)
    ensures
        lent_contents(*final(m)) == lent_contents(*old(m)).insert(key, value@),
        match r {
            Some(v) => lent_contents(*old(m)).contains_key(key) && v@ == lent_contents(*old(m))[key],
            None => !lent_contents(*old(m)).contains_key(key),
        },
{
    m.insert(key, value)
}

/// `DashMap::remove`: takes the entry of `key` out, handing it back if there was one.
#[verifier::external_body]
fn lent_map_remove(m: &mut DashMap<usize, Vec<u8>>, key: usize) -> (r: Option<(usize, Vec<u8>)>)
    ensures
        lent_contents(*final(m)) == lent_contents(*old(m)).remove(key),
        match r {
            Some((k, v)) => k == key && lent_contents(*old(m)).contains_key(key) && v@ == lent_contents(
                *old(m),
            )[key],
            None => !lent_contents(*old(m)).contains_key(key),
        },
{
    m.remove(&key)
}

/// `Vec::as_ptr`, read as an address: where the bytes of `buffer` lie.
#[verifier::external_body]
fn buffer_address(buffer: &Vec<u8>) -> (r: usize) {
    buffer.as_ptr() as usize
}

/// The buffers handed out to the script side, by the address of their bytes,
/// kept alive until they are given back.
pub struct BufferRegistry {
    buffers: DashMap<usize, Vec<u8>>,
}

impl View for BufferRegistry {
    type V = Map<usize, Seq<u8>>;

    closed spec fn view(&self) -> Map<usize, Seq<u8>> {
        lent_contents(self.buffers)
    }
}

impl BufferRegistry {
    /// A registry with no buffer lent.
    pub fn new() -> (r: Self)
        ensures
            r@ == no_buffers(),
    {
        BufferRegistry { buffers: lent_map_new() }
    }
}

/// Lends `buffer` out: keeps it under the address of its bytes and hands back
/// that address and its length.
pub fn lend_buffer(registry: &mut BufferRegistry, buffer: Vec<u8>) -> (r: (usize, usize))
    ensures
        r.1 == buffer@.len(),
        final(registry)@ == old(registry)@.insert(r.0, buffer@),
{
    let address = buffer_address(&buffer);
    let len = buffer.len();
    let _ = lent_map_insert(&mut registry.buffers, address, buffer);
    (address, len)
}

/// Takes back the buffer lent under `address`; whether there was one.
pub fn release_buffer(registry: &mut BufferRegistry, address: usize) -> (r: bool)
    ensures
        r == old(registry)@.contains_key(address),
        final(registry)@ == old(registry)@.remove(address),
{
    match lent_map_remove(&mut registry.buffers, address) {
        Some(_) => true,
        None => false,
    }
}

/// A lent buffer is given back exactly once: releasing its address right after
/// lending it succeeds and leaves the registry without that address, and
/// releasing it a second time fails and changes nothing.
pub proof fn lemma_release_after_lend(before: Map<usize, Seq<u8>>, address: usize, bytes: Seq<u8>)
    ensures
        before.insert(address, bytes).contains_key(address),
        before.insert(address, bytes).remove(address) == before.remove(address),
        !before.insert(address, bytes).remove(address).contains_key(address),
        before.insert(address, bytes).remove(address).remove(address) == before.insert(address, bytes).remove(address),
{
    assert(before.insert(address, bytes).remove(address) =~= before.remove(address));
    assert(before.insert(address, bytes).remove(address).remove(address) =~= before.insert(address, bytes).remove(address));
}

} // verus!
