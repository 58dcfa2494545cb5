use vstd::prelude::*;

verus! {

/// `f` was observed (or may be observed) to answer `b` at `i`.
pub open spec fn answers<F: Fn(usize) -> bool>(f: F, i: usize, b: bool) -> bool {
    call_ensures(f, (i,), b)
}

/// The middle position of `l..h` that a binary search asks about, rounding
/// down.
#[verifier::opaque]
pub open spec fn mid_of(l: usize, h: usize) -> usize {
    (l + (h - l) / 2) as usize
}

/// How many times a range of `n` positions can be halved (rounding down) before
/// it is empty: one more than the base-2 logarithm of `n`, and 0 for 0.
#[verifier::opaque]
pub open spec fn halvings(n: nat) -> nat
    decreases n,
{
    if n == 0 {
        0
    } else {
        1 + halvings(n / 2)
    }
}

/// A longer range takes at least as many halvings.
pub proof fn lemma_halvings_monotone(a: nat, b: nat)
    requires
        a <= b,
    ensures
        halvings(a) <= halvings(b),
    decreases b,
{
    reveal(halvings);
    if a > 0 {
        lemma_halvings_monotone(a / 2, b / 2);
    }
}

/// Halving a range, or keeping less than half of it, takes away a halving.
proof fn lemma_halvings_step(n: nat, m: nat)
    requires
        n > 0,
        m <= n / 2,
    ensures
        halvings(m) + 1 <= halvings(n),
{
    lemma_halvings_monotone(m, n / 2);
    reveal(halvings);
}

/// The number of positions of `low..high`.
pub open spec fn range_len(low: usize, high: usize) -> nat {
    if low < high {
        (high - low) as nat
    } else {
        0
    }
}

/// Where the search for the first index where the predicate holds stands after
/// the answers `replies`, in order, starting from `low..high`: each answer is
/// for the middle of the current range, and `true` keeps the lower half.
pub open spec fn first_true_range(low: usize, high: usize, replies: Seq<bool>) -> (usize, usize)
    decreases replies.len(),
{
    if replies.len() == 0 {
        (low, high)
    } else {
        let (l, h) = first_true_range(low, high, replies.drop_last());
        let mid = mid_of(l, h);
        if replies.last() {
            (l, mid)
        } else {
            ((mid + 1) as usize, h)
        }
    }
}

/// `f` gave the answers `replies`, in order, each for the middle of the range
/// the search had narrowed to, while that range was not empty; every position
/// asked lies in `low..high`.
pub open spec fn first_true_asked<F: Fn(usize) -> bool>(f: F, low: usize, high: usize, replies: Seq<bool>) -> bool {
    forall|i: int|
        #![trigger replies[i]]
        0 <= i < replies.len() ==> first_true_ask(f, low, high, replies.take(i), replies[i])
}

/// After the answers `prefix`, the range of the search is not empty, and `f`
/// answered `reply` for its middle, a position of `low..high`.
pub open spec fn first_true_ask<F: Fn(usize) -> bool>(f: F, low: usize, high: usize, prefix: Seq<bool>, reply: bool) -> bool {
    let (l, h) = first_true_range(low, high, prefix);
    &&& l < h
    &&& low <= mid_of(l, h) < high
    &&& answers(f, mid_of(l, h), reply)
}

/// The search asked `f` only along the way its answers led, at most
/// `halvings` of the length of the range times (never on an empty range), and
/// stopped when the range was empty.
pub open spec fn first_true_path<F: Fn(usize) -> bool>(f: F, low: usize, high: usize) -> bool {
    exists|replies: Seq<bool>|
        #![trigger first_true_range(low, high, replies)]
        first_true_asked(f, low, high, replies) && replies.len() <= halvings(range_len(low, high)) && ({
            let (l, h) = first_true_range(low, high, replies);
            l >= h
        })
}

proof fn lemma_first_true_asked_push<F: Fn(usize) -> bool>(
    f: F,
    low: usize,
    high: usize,
    replies: Seq<bool>,
    b: bool,
)
    requires
        first_true_asked(f, low, high, replies),
        first_true_ask(f, low, high, replies, b),
    ensures
        first_true_asked(f, low, high, replies.push(b)),
        first_true_range(low, high, replies.push(b)) == ({
            let (l, h) = first_true_range(low, high, replies);
            let mid = mid_of(l, h);
            if b {
                (l, mid)
            } else {
                ((mid + 1) as usize, h)
            }
        }),
{
    let a = replies.push(b);
    assert(a.drop_last() =~= replies);
    assert forall|i: int| #![trigger a[i]] 0 <= i < a.len() implies first_true_ask(f, low, high, a.take(i), a[i]) by {
        if i < replies.len() {
            assert(a.take(i) =~= replies.take(i));
            assert(a[i] == replies[i]);
        } else {
            assert(a.take(i) =~= replies);
        }
    }
}

/// Binary search for the first index of `low..high` where `f` holds.
///
/// The search narrows `low..high` down to a single position and then asks whether
/// `low < high` still holds there, which it never does once the search has ended:
/// the function therefore answers `None` for every range and every predicate,
/// after asking `f` along the path of a binary search.
pub fn bisect_first_true<F: Fn(usize) -> bool>(low: usize, high: usize, f: F) -> (r: Option<usize>)
    requires
        forall|i: usize| call_requires(f, (i,)),
    ensures
        r is None,
        first_true_path(f, low, high),
{
    let ghost low0 = low;
    let ghost high0 = high;
    let ghost mut asked: Seq<bool> = Seq::empty();
    let mut low = low;
    let mut high = high;
    while low < high
        invariant
            forall|i: usize| call_requires(f, (i,)),
            first_true_range(low0, high0, asked) == (low, high),
            first_true_asked(f, low0, high0, asked),
            low0 < high0 ==> low0 <= low <= high <= high0,
            low0 >= high0 ==> low == low0 && high == high0,
            asked.len() + halvings(range_len(low, high)) <= halvings(range_len(low0, high0)),
        decreases high - low,
    {
        let mid = low + (high - low) / 2;
        assert(mid == mid_of(low, high)) by {
            reveal(mid_of);
        }
        let b = f(mid);
        proof {
            assert(first_true_ask(f, low0, high0, asked, b));
            lemma_first_true_asked_push(f, low0, high0, asked, b);
            let n = (high - low) as nat;
            let next_len: nat = if b { (mid - low) as nat } else { (high - mid - 1) as nat };
            assert(next_len <= n / 2);
            lemma_halvings_step(n, next_len);
            asked = asked.push(b);
        }
        if b {
            high = mid;
        } else {
            low = mid + 1;
        }
    }
    proof {
        assert(first_true_path(f, low0, high0));
    }
    if low < high && f(low) {
        Some(low)
    } else {
        None
    }
}

/// What `bisect_last_true(low, high, f)` returns: with `m` the position where the
/// search ended, `f` answered `true` just before `m` (or `m` is `low`) and `false`
/// at `m` (or `m` is `high`); the result is `m - 1` when `m > 0` and `f` answers
/// `true` at `m - 1`, else `None`.
pub open spec fn last_true_outcome<F: Fn(usize) -> bool>(
    f: F,
    low: usize,
    high: usize,
    r: Option<usize>,
) -> bool {
    exists|m: usize|
        #![trigger last_true_split(f, low, high, m, r)]
        last_true_split(f, low, high, m, r)
}

/// The search ended at `m`, and `r` is what is read off there.
pub open spec fn last_true_split<F: Fn(usize) -> bool>(
    f: F,
    low: usize,
    high: usize,
    m: usize,
    r: Option<usize>,
) -> bool {
    &&& (low <= high ==> low <= m <= high)
    &&& (low > high ==> m == low)
    &&& (low <= high && m > low ==> answers(f, (m - 1) as usize, true))
    &&& (low <= high && m < high ==> answers(f, m, false))
    &&& match r {
        Some(k) => m > 0 && k == m - 1 && answers(f, k, true),
        None => m == 0 || answers(f, (m - 1) as usize, false),
    }
}

/// Where the search for the last index where the predicate holds stands after
/// the answers `replies`, in order, starting from `low..high`: each answer is
/// for the middle of the current range, and `true` keeps the upper half.
pub open spec fn last_true_range(low: usize, high: usize, replies: Seq<bool>) -> (usize, usize)
    decreases replies.len(),
{
    if replies.len() == 0 {
        (low, high)
    } else {
        let (l, h) = last_true_range(low, high, replies.drop_last());
        let mid = mid_of(l, h);
        if replies.last() {
            ((mid + 1) as usize, h)
        } else {
            (l, mid)
        }
    }
}

/// `f` gave the answers `replies`, in order, each for the middle of the range
/// the search had narrowed to, while that range was not empty.
pub open spec fn last_true_asked<F: Fn(usize) -> bool>(f: F, low: usize, high: usize, replies: Seq<bool>) -> bool {
    forall|i: int|
        #![trigger replies[i]]
        0 <= i < replies.len() ==> last_true_ask(f, low, high, replies.take(i), replies[i])
}

/// After the answers `prefix`, the range of the search is not empty, and `f`
/// answered `reply` for its middle, a position of `low..high`.
pub open spec fn last_true_ask<F: Fn(usize) -> bool>(f: F, low: usize, high: usize, prefix: Seq<bool>, reply: bool) -> bool {
    let (l, h) = last_true_range(low, high, prefix);
    &&& l < h
    &&& low <= mid_of(l, h) < high
    &&& answers(f, mid_of(l, h), reply)
}

/// The search asked `f` only along the way that its answers led, each time at
/// a position of `low..high`, at most `halvings` of the length of the range
/// times (never on an empty range); it stopped when the range was empty at
/// `m`, and read the result off at `m - 1` (which lies just below the range
/// when `m` is `low`).
pub open spec fn last_true_path<F: Fn(usize) -> bool>(f: F, low: usize, high: usize, r: Option<usize>) -> bool {
    exists|replies: Seq<bool>|
        #![trigger last_true_range(low, high, replies)]
        last_true_asked(f, low, high, replies) && replies.len() <= halvings(range_len(low, high)) && ({
            let (m, h) = last_true_range(low, high, replies);
            &&& m >= h
            &&& match r {
                Some(k) => m > 0 && k == m - 1 && answers(f, k, true),
                None => m == 0 || answers(f, (m - 1) as usize, false),
            }
        })
}

proof fn lemma_last_true_asked_push<F: Fn(usize) -> bool>(
    f: F,
    low: usize,
    high: usize,
    replies: Seq<bool>,
    b: bool,
)
    requires
        last_true_asked(f, low, high, replies),
        last_true_ask(f, low, high, replies, b),
    ensures
        last_true_asked(f, low, high, replies.push(b)),
        last_true_range(low, high, replies.push(b)) == ({
            let (l, h) = last_true_range(low, high, replies);
            let mid = mid_of(l, h);
            if b {
                ((mid + 1) as usize, h)
            } else {
                (l, mid)
            }
        }),
{
    let a = replies.push(b);
    assert(a.drop_last() =~= replies);
    assert forall|i: int| #![trigger a[i]] 0 <= i < a.len() implies last_true_ask(f, low, high, a.take(i), a[i]) by {
        if i < replies.len() {
            assert(a.take(i) =~= replies.take(i));
            assert(a[i] == replies[i]);
        } else {
            assert(a.take(i) =~= replies);
        }
    }
}

/// Binary search for the last index of `low..high` where `f` holds, for a
/// predicate that holds on a prefix of the range.
pub fn bisect_last_true<F: Fn(usize) -> bool>(low: usize, high: usize, f: F) -> (r: Option<usize>)
    requires
        forall|i: usize| call_requires(f, (i,)),
    ensures
        last_true_outcome(f, low, high, r),
        last_true_path(f, low, high, r),
{
    let ghost low0 = low;
    let ghost high0 = high;
    let ghost mut asked: Seq<bool> = Seq::empty();
    let mut low = low;
    let mut high = high;
    while low < high
        invariant
            forall|i: usize| call_requires(f, (i,)),
            last_true_range(low0, high0, asked) == (low, high),
            last_true_asked(f, low0, high0, asked),
            low0 <= high0 ==> low0 <= low <= high <= high0,
            low0 > high0 ==> low == low0 && high == high0,
            low > low0 ==> answers(f, (low - 1) as usize, true),
            high < high0 ==> answers(f, high, false),
            asked.len() + halvings(range_len(low, high)) <= halvings(range_len(low0, high0)),
        decreases high - low,
    {
        let mid = low + (high - low) / 2;
        assert(mid == mid_of(low, high)) by {
            reveal(mid_of);
        }
        let b = f(mid);
        proof {
            assert(last_true_ask(f, low0, high0, asked, b));
            lemma_last_true_asked_push(f, low0, high0, asked, b);
            let n = (high - low) as nat;
            let next_len: nat = if b { (high - mid - 1) as nat } else { (mid - low) as nat };
            assert(next_len <= n / 2);
            lemma_halvings_step(n, next_len);
            asked = asked.push(b);
        }
        if b {
            low = mid + 1;
        } else {
            high = mid;
        }
    }
    let r = if low > 0 && f(low - 1) {
        Some(low - 1)
    } else {
        None
    };
    proof {
        if low > 0 {
            // the last call above settles the answer at `low - 1`
        }
        assert(last_true_split(f, low0, high0, low, r));
        assert(last_true_range(low0, high0, asked) == (low, high));
        assert(last_true_path(f, low0, high0, r));
    }
    r
}

/// For a predicate `p` that `f` answers faithfully and that holds on a prefix of
/// `low..high` starting at `low`, `bisect_last_true` finds the last index of that
/// prefix: `p` holds there and fails just after it (or the range ends).
pub proof fn lemma_last_true_finds_prefix_end<F: Fn(usize) -> bool>(
    f: F,
    low: usize,
    high: usize,
    r: Option<usize>,
    p: spec_fn(usize) -> bool,
)
    requires
        last_true_outcome(f, low, high, r),
        low < high,
        forall|i: usize, b: bool| #[trigger] answers(f, i, b) ==> b == p(i),
        forall|i: usize, j: usize| low <= i <= j < high && #[trigger] p(j) ==> #[trigger] p(i),
        p(low),
    ensures
        r matches Some(k) && low <= k < high && p(k) && (k + 1 < high ==> !p((k + 1) as usize)),
{
    let m = choose|m: usize| last_true_split(f, low, high, m, r);
    assert(last_true_split(f, low, high, m, r));
    if m == low {
        assert(answers(f, m, false));
        assert(!p(m));
    }
    assert(m > low);
    assert(answers(f, (m - 1) as usize, true));
    if m < high {
        assert(answers(f, m, false));
    }
    if r is None {
        assert(answers(f, (m - 1) as usize, false));
    }
}

} // verus!
