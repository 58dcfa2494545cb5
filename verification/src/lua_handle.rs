use dashmap::DashMap;
use vstd::prelude::*;
use vstd::string::StringSliceAdditionalSpecFns;
use xxhash_rust::xxh3::Xxh3;

verus! {

/// A reply of the script side: the bytes of a value, or an error message.
pub type Reply = Result<Vec<u8>, String>;

/// The value of a reply.
pub open spec fn reply_view(r: Reply) -> Result<Seq<u8>, Seq<char>> {
    match r {
        Ok(b) => Ok(b@),
        Err(e) => Err(e@),
    }
}

/// The replies the script side has pushed and nobody has taken yet, the latest last.
pub struct ReturnStack {
    entries: Vec<Reply>,
}

impl View for ReturnStack {
    type V = Seq<Result<Seq<u8>, Seq<char>>>;

    closed spec fn view(&self) -> Seq<Result<Seq<u8>, Seq<char>>> {
        self.entries@.map_values(|r: Reply| reply_view(r))
    }
}

/// Why no value could be taken from the return stack.
#[derive(Debug, PartialEq, Eq)]
pub enum ReturnStackError {
    /// Nothing was on the stack.
    Empty,
    /// The script side replied with this error.
    Callback(String),
}

impl ReturnStack {
    /// An empty stack.
    pub fn new() -> (r: Self)
        ensures
            r@.len() == 0,
    {
        ReturnStack { entries: Vec::new() }
    }
}

/// Pushes a value the script side replied with. Always succeeds.
pub fn push_return_stack(stack: &mut ReturnStack, value: Vec<u8>) -> (r: Result<(), ReturnStackError>)
    ensures
        r is Ok,
        final(stack)@ == old(stack)@.push(Ok(value@)),
{
    let ghost before = stack.entries@;
    stack.entries.push(Ok(value));
    assert(stack.entries@.map_values(|r: Reply| reply_view(r)) =~= before.map_values(|r: Reply| reply_view(r)).push(Ok(value@)));
    Ok(())
}

/// Pushes an error the script side replied with. Always succeeds.
pub fn push_return_stack_error(stack: &mut ReturnStack, error: String) -> (r: Result<(), ReturnStackError>)
    ensures
        r is Ok,
        final(stack)@ == old(stack)@.push(Err(error@)),
{
    let ghost before = stack.entries@;
    stack.entries.push(Err(error));
    assert(stack.entries@.map_values(|r: Reply| reply_view(r)) =~= before.map_values(|r: Reply| reply_view(r)).push(Err(error@)));
    Ok(())
}

/// What taking the latest reply from a stack holding `s` gives.
pub open spec fn pop_outcome(s: Seq<Result<Seq<u8>, Seq<char>>>, r: Result<Vec<u8>, ReturnStackError>) -> bool {
    if s.len() == 0 {
        r == Err::<Vec<u8>, ReturnStackError>(ReturnStackError::Empty)
    } else {
        match s.last() {
            Ok(b) => r matches Ok(v) && v@ == b,
            Err(e) => r matches Err(ReturnStackError::Callback(m)) && m@ == e,
        }
    }
}

/// Takes the latest reply: its bytes, or the error it carries; an error too when
/// the stack is empty.
pub fn pop_return_stack(stack: &mut ReturnStack) -> (r: Result<Vec<u8>, ReturnStackError>)
    ensures
        pop_outcome(old(stack)@, r),
        old(stack)@.len() == 0 ==> final(stack)@ == old(stack)@,
        old(stack)@.len() > 0 ==> final(stack)@ == old(stack)@.drop_last(),
{
    let ghost before = stack.entries@;
    match stack.entries.pop() {
        None => Err(ReturnStackError::Empty),
        Some(reply) => {
            assert(stack.entries@.map_values(|r: Reply| reply_view(r)) =~= before.map_values(|r: Reply| reply_view(r)).drop_last());
            assert(reply_view(reply) == before.map_values(|r: Reply| reply_view(r)).last());
            match reply {
                Ok(bytes) => Ok(bytes),
                Err(message) => Err(ReturnStackError::Callback(message)),
            }
        },
    }
}

/// The stack hands back what was pushed last: a value pushed and then taken comes
/// back as it was, and the stack is as it was before the push; an error pushed
/// comes back as the error of the call.
pub proof fn lemma_pop_after_push(
    s: Seq<Result<Seq<u8>, Seq<char>>>,
    pushed: Result<Seq<u8>, Seq<char>>,
    r: Result<Vec<u8>, ReturnStackError>,
)
    requires
        pop_outcome(s.push(pushed), r),
    ensures
        s.push(pushed).drop_last() == s,
        pushed matches Ok(b) ==> r matches Ok(v) && v@ == b,
        pushed matches Err(e) ==> r matches Err(ReturnStackError::Callback(m)) && m@ == e,
{
    assert(s.push(pushed).drop_last() =~= s);
}

/// How the text is decorated, in the order of its numeric codes `0..=6`.
#[derive(Debug, Clone, Copy, PartialEq, Eq, Hash, Structural)]
pub enum FullTextDecoration {
    Normal,
    Shadow,
    LightShadow,
    Outlined,
    ThinOutlined,
    BoldOutlined,
    SquareOutlined,
}

impl FullTextDecoration {
    /// The numeric code of a decoration.
    pub open spec fn spec_code(self) -> u8 {
        match self {
            FullTextDecoration::Normal => 0,
            FullTextDecoration::Shadow => 1,
            FullTextDecoration::LightShadow => 2,
            FullTextDecoration::Outlined => 3,
            FullTextDecoration::ThinOutlined => 4,
            FullTextDecoration::BoldOutlined => 5,
            FullTextDecoration::SquareOutlined => 6,
        }
    }

    /// The numeric code of the decoration.
    pub fn code(self) -> (r: u8)
        ensures
            r == self.spec_code(),
    {
        match self {
            FullTextDecoration::Normal => 0,
            FullTextDecoration::Shadow => 1,
            FullTextDecoration::LightShadow => 2,
            FullTextDecoration::Outlined => 3,
            FullTextDecoration::ThinOutlined => 4,
            FullTextDecoration::BoldOutlined => 5,
            FullTextDecoration::SquareOutlined => 6,
        }
    }

    /// The decoration with numeric code `value`; none outside `0..=6`.
    pub fn from_code(value: i32) -> (r: Option<Self>)
        ensures
            r matches Some(d) ==> d.spec_code() == value,
            r is None <==> !(0 <= value <= 6),
    {
        match value {
            0 => Some(FullTextDecoration::Normal),
            1 => Some(FullTextDecoration::Shadow),
            2 => Some(FullTextDecoration::LightShadow),
            3 => Some(FullTextDecoration::Outlined),
            4 => Some(FullTextDecoration::ThinOutlined),
            5 => Some(FullTextDecoration::BoldOutlined),
            6 => Some(FullTextDecoration::SquareOutlined),
            _ => None,
        }
    }
}

impl Default for FullTextDecoration {
    fn default() -> (r: Self)
        ensures
            r == FullTextDecoration::Normal,
    {
        FullTextDecoration::Normal
    }
}

/// Reading a decoration back from its code gives the decoration.
pub proof fn lemma_decoration_code_roundtrip(d: FullTextDecoration, r: Option<FullTextDecoration>)
    requires
        r matches Some(x) ==> x.spec_code() == d.spec_code() as i32,
        r is None <==> !(0 <= d.spec_code() as i32 <= 6),
    ensures
        r == Some(d),
{
}

/// `s` with every trailing `LL` taken off, as LuaJIT writes 64-bit integers.
pub open spec fn trim_ll(s: Seq<char>) -> Seq<char>
    decreases s.len(),
{
    if s.len() >= 2 && s[s.len() - 2] == 'L' && s[s.len() - 1] == 'L' {
        trim_ll(s.take(s.len() - 2))
    } else {
        s
    }
}

/// Whether `c` is an ASCII decimal digit.
pub open spec fn is_digit(c: char) -> bool {
    '0' <= c <= '9'
}

/// The number that the decimal digits `d` write.
pub open spec fn digits_value(d: Seq<char>) -> int
    decreases d.len(),
{
    if d.len() == 0 {
        0
    } else {
        digits_value(d.drop_last()) * 10 + (d.last() as int - '0' as int)
    }
}

/// What reading `s` as an unsigned decimal integer gives: an optional `+`
/// followed by at least one digit and nothing else, with a value that fits.
pub open spec fn parsed_usize(s: Seq<char>) -> Option<usize> {
    let d = unsigned_digits(s);
    if d.len() > 0 && all_digits(d) && digits_value(d) <= usize::MAX {
        Some(digits_value(d) as usize)
    } else {
        None
    }
}

/// `s` without its leading `+`, if it has one.
pub open spec fn unsigned_digits(s: Seq<char>) -> Seq<char> {
    if s.len() > 0 && s[0] == '+' {
        s.skip(1)
    } else {
        s
    }
}

/// Whether every character of `d` is a decimal digit.
pub open spec fn all_digits(d: Seq<char>) -> bool {
    forall|i: int| 0 <= i < d.len() ==> is_digit(#[trigger] d[i])
}

proof fn lemma_digits_value_mono(d: Seq<char>, k: int)
    requires
        0 <= k <= d.len(),
        forall|i: int| 0 <= i < d.len() ==> is_digit(#[trigger] d[i]),
    ensures
        0 <= digits_value(d.take(k)) <= digits_value(d),
    decreases d.len() - k,
{
    if k < d.len() {
        lemma_digits_value_mono(d, k + 1);
        assert(d.take(k + 1).drop_last() =~= d.take(k));
        assert(d.take(k + 1).last() == d[k]);
        assert(is_digit(d[k]));
        lemma_digits_value_nonneg(d.take(k));
    } else {
        assert(d.take(k) =~= d);
        lemma_digits_value_nonneg(d);
    }
}

proof fn lemma_digits_value_nonneg(d: Seq<char>)
    requires
        forall|i: int| 0 <= i < d.len() ==> is_digit(#[trigger] d[i]),
    ensures
        digits_value(d) >= 0,
    decreases d.len(),
{
    if d.len() > 0 {
        assert(is_digit(d.last()));
        lemma_digits_value_nonneg(d.drop_last());
    }
}

fn digit_of(c: char) -> (r: Option<u8>)
    ensures
        r is Some <==> is_digit(c),
        r matches Some(v) ==> v as int == c as int - '0' as int,
{
    if '0' <= c && c <= '9' {
        Some((c as u32 - '0' as u32) as u8)
    } else {
        None
    }
}

/// Reads the first `end` characters of `chars` as an unsigned decimal integer.
fn parse_prefix(chars: &Vec<char>, end: usize) -> (r: Option<usize>)
    requires
        end <= chars@.len(),
    ensures
        r == parsed_usize(chars@.take(end as int)),
{
    let ghost s = chars@.take(end as int);
    let mut i: usize = 0;
    if end > 0 && chars[0] == '+' {
        i = 1;
    }
    let ghost d = s.skip(i as int);
    assert(d =~= unsigned_digits(s));
    if i >= end {
        return None;
    }
    let mut value: usize = 0;
    let start = i;
    while i < end
        invariant
            start <= i <= end <= chars@.len(),
            s == chars@.take(end as int),
            d == s.skip(start as int),
            d == unsigned_digits(s),
            forall|k: int| 0 <= k < i - start ==> is_digit(#[trigger] d[k]),
            value as int == digits_value(d.take(i - start)),
        decreases end - i,
    {
        let ghost k = i - start;
        assert(d[k] == chars@[i as int]);
        assert(d.take(k + 1).drop_last() =~= d.take(k));
        match digit_of(chars[i]) {
            None => {
                assert(!is_digit(d[k]));
                assert(!all_digits(d));
                return None;
            },
            Some(x) => {
                if value > (usize::MAX - x as usize) / 10 {
                    proof {
                        assert forall|j: int| 0 <= j < k + 1 implies is_digit(#[trigger] d.take(k + 1)[j]) by {
                            assert(d.take(k + 1)[j] == d[j]);
                        }
                        assert(d.take(k + 1).last() == d[k]);
                        assert(digits_value(d.take(k + 1)) == value * 10 + x);
                        assert(value * 10 + x > usize::MAX) by (nonlinear_arith)
                            requires
                                value > (usize::MAX - x as usize) / 10,
                                0 <= x <= 9,
                        ;
                        if all_digits(d) {
                            lemma_digits_value_mono(d, k + 1);
                        }
                    }
                    return None;
                }
                value = value * 10 + x as usize;
            },
        }
        i = i + 1;
    }
    assert(d.take(d.len() as int) =~= d);
    Some(value)
}

/// Reads `s` as an unsigned decimal integer: an optional `+` followed by at
/// least one digit and nothing else, with a value that fits a `usize`.
pub fn parse_usize(s: &str) -> (r: Option<usize>)
    ensures
        r == parsed_usize(s@),
{
    let chars = crate::text::chars_of(s);
    assert(chars@.take(chars@.len() as int) =~= s@);
    parse_prefix(&chars, chars.len())
}

proof fn lemma_trim_ll_step(s: Seq<char>, end: int)
    requires
        2 <= end <= s.len(),
        s[end - 2] == 'L',
        s[end - 1] == 'L',
    ensures
        trim_ll(s.take(end)) == trim_ll(s.take(end - 2)),
{
    let t = s.take(end);
    assert(t[t.len() - 2] == 'L' && t[t.len() - 1] == 'L');
    assert(t.take(end - 2) =~= s.take(end - 2));
}

/// The decimal digit for `d` in `0..10`.
pub open spec fn digit_char(d: nat) -> char {
    if d == 0 {
        '0'
    } else if d == 1 {
        '1'
    } else if d == 2 {
        '2'
    } else if d == 3 {
        '3'
    } else if d == 4 {
        '4'
    } else if d == 5 {
        '5'
    } else if d == 6 {
        '6'
    } else if d == 7 {
        '7'
    } else if d == 8 {
        '8'
    } else {
        '9'
    }
}

/// `n` written in decimal, without leading zeros.
pub open spec fn decimal(n: nat) -> Seq<char>
    decreases n,
{
    if n < 10 {
        seq![digit_char(n)]
    } else {
        decimal(n / 10).push(digit_char(n % 10))
    }
}

proof fn lemma_decimal(n: nat)
    ensures
        decimal(n).len() > 0,
        all_digits(decimal(n)),
        digits_value(decimal(n)) == n,
        decimal(n)[0] != '+',
        decimal(n).last() != 'L',
    decreases n,
{
    assert(digit_char(n % 10) as int - '0' as int == n % 10);
    if n < 10 {
        assert(decimal(n).drop_last() =~= Seq::<char>::empty());
        assert(digits_value(Seq::<char>::empty()) == 0);
        assert(digits_value(decimal(n)) == digits_value(decimal(n).drop_last()) * 10 + (decimal(n).last() as int - '0' as int));
    } else {
        lemma_decimal(n / 10);
        assert(decimal(n).drop_last() =~= decimal(n / 10));
        assert(digits_value(decimal(n)) == digits_value(decimal(n / 10)) * 10 + (n % 10));
        assert forall|i: int| 0 <= i < decimal(n).len() implies is_digit(#[trigger] decimal(n)[i]) by {
            if i < decimal(n / 10).len() {
                assert(decimal(n)[i] == decimal(n / 10)[i]);
            }
        }
    }
}

/// An integer that LuaJIT wrote, with or without its `LL` suffix, reads back as
/// itself.
pub proof fn lemma_lua_integer_roundtrip(n: usize)
    ensures
        parsed_usize(trim_ll(decimal(n as nat) + seq!['L', 'L'])) == Some(n),
        parsed_usize(trim_ll(decimal(n as nat))) == Some(n),
{
    let d = decimal(n as nat);
    lemma_decimal(n as nat);
    let t = d + seq!['L', 'L'];
    assert(t.take(t.len() - 2) =~= d);
    assert(t[t.len() - 2] == 'L' && t[t.len() - 1] == 'L');
    assert(trim_ll(t) == trim_ll(d));
    assert(d[d.len() - 1] == d.last());
    assert(trim_ll(d) == d);
    assert(unsigned_digits(d) == d);
}

/// Takes every trailing `LL` off `s`.
fn trim_end_ll(s: &Vec<char>) -> (r: usize)
    ensures
        r <= s@.len(),
        s@.take(r as int) == trim_ll(s@),
{
    let mut end = s.len();
    assert(s@.take(end as int) =~= s@);
    while end >= 2 && s[end - 2] == 'L' && s[end - 1] == 'L'
        invariant
            end <= s@.len(),
            trim_ll(s@.take(end as int)) == trim_ll(s@),
        decreases end,
    {
        proof {
            lemma_trim_ll_step(s@, end as int);
        }
        end = end - 2;
    }
    end
}

/// Reads an integer that LuaJIT wrote: trailing `LL` markers are taken off,
/// the rest is read as an unsigned decimal integer.
pub fn parse_lua_integer(s: &str) -> (r: Option<usize>)
    ensures
        r == parsed_usize(trim_ll(s@)),
{
    let chars = crate::text::chars_of(s);
    let end = trim_end_ll(&chars);
    parse_prefix(&chars, end)
}

/// The handle to the script-side function that measures text: the address of
/// that function, as the script passed it.
pub struct LuaHandle {
    callback: usize,
}

impl LuaHandle {
    /// The address of the script-side function.
    pub closed spec fn spec_callback(&self) -> usize {
        self.callback
    }

    /// Reads the address of the script-side function from its LuaJIT form
    /// (`"1234LL"`); none when that is no unsigned integer.
    pub fn new(lua_callback: String) -> (r: Option<LuaHandle>)
        ensures
            r matches Some(h) ==> parsed_usize(trim_ll(lua_callback@)) == Some(h.spec_callback()),
            r is None <==> parsed_usize(trim_ll(lua_callback@)) is None,
    {
        match parse_lua_integer(lua_callback.as_str()) {
            Some(callback) => Some(LuaHandle { callback }),
            None => None,
        }
    }

    /// The address of the script-side function.
    pub fn callback(&self) -> (r: usize)
        ensures
            r == self.spec_callback(),
    {
        self.callback
    }
}

/// The size of a piece of styled text, as the script side measured it, and how
/// far its drawn center lies from the center of that box. The two distances are
/// the bit patterns of `f64` numbers.
#[derive(Debug, Clone, Copy, PartialEq, Eq)]
pub struct TextLayout {
    pub width: usize,
    pub height: usize,
    pub negative_center_x_delta: u64,
    pub negative_center_y_delta: u64,
}

/// What every layout cache key starts with.
pub const LAYOUT_CACHE_SALT: &'static str = "05d5d995-b7dd-48b3-ab4b-5e210fb1f602";

/// `x` divided by 256, `k` times.
pub open spec fn shift_bytes(x: nat, k: nat) -> nat
    decreases k,
{
    if k == 0 {
        x
    } else {
        shift_bytes(x, (k - 1) as nat) / 256
    }
}

/// The `k` lowest bytes of `x`, lowest first.
pub open spec fn low_bytes(x: nat, k: nat) -> Seq<u8>
    decreases k,
{
    if k == 0 {
        Seq::empty()
    } else {
        low_bytes(x, (k - 1) as nat).push((shift_bytes(x, (k - 1) as nat) % 256) as u8)
    }
}

/// The bytes a text layout is cached under: the salt, the text, the code of the
/// decoration, and the character spacing in little-endian order.
pub open spec fn layout_key_bytes(styled_text: Seq<u8>, decoration: FullTextDecoration, char_spacing_bits: u64) -> Seq<u8> {
    LAYOUT_CACHE_SALT.spec_bytes() + styled_text + seq![decoration.spec_code()] + low_bytes(
        char_spacing_bits as nat,
        8,
    )
}

/// The XXH3 64-bit digest of `data` (seed 0, default secret).
pub uninterp spec fn xxh3_digest(data: Seq<u8>) -> u64;

/// `xxhash_rust::xxh3::Xxh3`: the streaming XXH3 64-bit digest of `data`, fed in
/// one piece.
#[verifier::external_body]
fn xxh3_64_digest(data: &[u8]) -> (r: u64)
    ensures
        r == xxh3_digest(data@),
{
    let mut hasher = Xxh3::new();
    hasher.update(data);
    hasher.digest()
}

fn push_bytes(out: &mut Vec<u8>, bytes: &[u8])
    ensures
        final(out)@ == old(out)@ + bytes@,
{
    let ghost start = out@;
    let mut i: usize = 0;
    while i < bytes.len()
        invariant
            i <= bytes@.len(),
            out@ == start + bytes@.take(i as int),
        decreases bytes.len() - i,
    {
        out.push(bytes[i]);
        assert(bytes@.take(i + 1) =~= bytes@.take(i as int).push(bytes@[i as int]));
        i = i + 1;
    }
    assert(bytes@.take(bytes@.len() as int) =~= bytes@);
}

/// The key under which the layout of `styled_text` with `decoration` and the
/// character spacing `char_spacing_bits` (an `f64` bit pattern) is cached.
pub fn layout_cache_key(styled_text: &str, decoration: FullTextDecoration, char_spacing_bits: u64) -> (r: u64)
    ensures
        r == xxh3_digest(layout_key_bytes(styled_text.spec_bytes(), decoration, char_spacing_bits)),
{
    let mut data: Vec<u8> = Vec::new();
    push_bytes(&mut data, LAYOUT_CACHE_SALT.as_bytes());
    push_bytes(&mut data, styled_text.as_bytes());
    data.push(decoration.code());
    let mut v = char_spacing_bits;
    let mut k: usize = 0;
    let ghost head = data@;
    while k < 8
        invariant
            k <= 8,
            v as nat == shift_bytes(char_spacing_bits as nat, k as nat),
            data@ == head + low_bytes(char_spacing_bits as nat, k as nat),
        decreases 8 - k,
    {
        data.push((v % 256) as u8);
        v = v / 256;
        k = k + 1;
    }
    assert(data@ =~= layout_key_bytes(styled_text.spec_bytes(), decoration, char_spacing_bits));
    xxh3_64_digest(data.as_slice())
}

/// What a layout cache holds: key to layout.
pub uninterp spec fn cached_layouts(m: DashMap<u64, TextLayout>) -> Map<u64, TextLayout>;

/// `DashMap::new`: an empty cache.
#[verifier::external_body]
fn layout_map_new() -> (r: DashMap<u64, TextLayout>)
    ensures
        cached_layouts(r) == no_layouts(),
{
    DashMap::new()
}

/// `DashMap::get`: the layout cached under `key`, copied out.
#[verifier::external_body]
fn layout_map_get(m: &DashMap<u64, TextLayout>, key: u64) -> (r: Option<TextLayout>)
    ensures
        r matches Some(l) ==> cached_layouts(*m).contains_key(key) && cached_layouts(*m)[key] == l,
        r is None ==> !cached_layouts(*m).contains_key(key),
{
    match m.get(&key) {
        Some(entry) => Some(*entry),
        None => None,
    }
}

/// `DashMap::insert`: caches `layout` under `key`.
#[verifier::external_body]
fn layout_map_insert(m: &mut DashMap<u64, TextLayout>, key: u64, layout: TextLayout) -> (r: Option<TextLayout>)
    ensures
        cached_layouts(*final(m)) == cached_layouts(*old(m)).insert(key, layout),
        r matches Some(l) ==> cached_layouts(*old(m)).contains_key(key) && cached_layouts(*old(m))[key] == l,
        r is None ==> !cached_layouts(*old(m)).contains_key(key),
{
    m.insert(key, layout)
}

/// No layout at all.
pub open spec fn no_layouts() -> Map<u64, TextLayout> {
    Map::empty()
}

/// The text layouts measured so far, by cache key.
pub struct LayoutCache {
    layouts: DashMap<u64, TextLayout>,
}

impl View for LayoutCache {
    type V = Map<u64, TextLayout>;

    closed spec fn view(&self) -> Map<u64, TextLayout> {
        cached_layouts(self.layouts)
    }
}

impl LayoutCache {
    /// An empty cache.
    pub fn new() -> (r: Self)
        ensures
            r@ == no_layouts(),
    {
        LayoutCache { layouts: layout_map_new() }
    }

    /// The layout of `styled_text` with `decoration` and character spacing
    /// `char_spacing_bits` if it was measured before, with its cache key.
    pub fn lookup(&self, styled_text: &str, decoration: FullTextDecoration, char_spacing_bits: u64) -> (r: (u64, Option<TextLayout>))
        ensures
            r.0 == xxh3_digest(layout_key_bytes(styled_text.spec_bytes(), decoration, char_spacing_bits)),
            r.1 matches Some(l) ==> self@.contains_key(r.0) && self@[r.0] == l,
            r.1 is None ==> !self@.contains_key(r.0),
    {
        let key = layout_cache_key(styled_text, decoration, char_spacing_bits);
        (key, layout_map_get(&self.layouts, key))
    }

    /// Remembers `layout` under `key`.
    pub fn store(&mut self, key: u64, layout: TextLayout)
        ensures
            final(self)@ == old(self)@.insert(key, layout),
    {
        let _ = layout_map_insert(&mut self.layouts, key, layout);
    }
}

impl LuaHandle {
    /// Measures `styled_text` drawn with `decoration` and the character
    /// spacing `char_spacing_bits` (an `f64` bit pattern): a layout measured
    /// before is taken from `cache`; otherwise `ask` puts the request to the
    /// script-side function at this handle's address, and the layout it answers
    /// is cached. An error of `ask` is passed on and caches nothing.
    pub fn text_layout<E, F: Fn(usize, &str, FullTextDecoration, u64) -> Result<TextLayout, E>>(
        &self,
        cache: &mut LayoutCache,
        styled_text: &str,
        decoration: FullTextDecoration,
        char_spacing_bits: u64,
        ask: &F,
    ) -> (r: Result<TextLayout, E>)
        requires
            call_requires(*ask, (self.spec_callback(), styled_text, decoration, char_spacing_bits)),
        ensures
            ({
                let key = xxh3_digest(layout_key_bytes(styled_text.spec_bytes(), decoration, char_spacing_bits));
                &&& old(cache)@.contains_key(key) ==> r == Ok::<TextLayout, E>(old(cache)@[key]) && final(cache)@
                    == old(cache)@
                &&& !old(cache)@.contains_key(key) ==> call_ensures(
                    *ask,
                    (self.spec_callback(), styled_text, decoration, char_spacing_bits),
                    r,
                )
                &&& !old(cache)@.contains_key(key) ==> (r matches Ok(l) ==> final(cache)@ == old(cache)@.insert(
                    key,
                    l,
                ))
                &&& !old(cache)@.contains_key(key) ==> (r is Err ==> final(cache)@ == old(cache)@)
            }),
    {
        let (key, cached) = cache.lookup(styled_text, decoration, char_spacing_bits);
        match cached {
            Some(layout) => Ok(layout),
            None => {
                let answer = ask(self.callback, styled_text, decoration, char_spacing_bits);
                match answer {
                    Ok(layout) => {
                        cache.store(key, layout);
                        Ok(layout)
                    },
                    Err(e) => Err(e),
                }
            },
        }
    }
}

/// A stored layout is found again: looking up right after storing under the same
/// key gives the stored layout.
pub proof fn lemma_lookup_after_store(cache: Map<u64, TextLayout>, key: u64, layout: TextLayout)
    ensures
        cache.insert(key, layout).contains_key(key),
        cache.insert(key, layout)[key] == layout,
{
}

} // verus!
