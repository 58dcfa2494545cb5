use std::collections::HashMap;
use vstd::prelude::*;

use crate::text::{chars_of, lemma_char_range, push_char};

verus! {

broadcast use vstd::std_specs::hash::group_hash_axioms;

/// Code points are below this bound, so that up to three of them pack into one `u64`.
pub open spec fn code_radix() -> int {
    0x200000
}

/// The number that stands for an n-gram in the tables: its code points read as
/// digits in base `code_radix()`.
pub open spec fn encode(s: Seq<char>) -> int
    decreases s.len(),
{
    if s.len() == 0 {
        0
    } else {
        encode(s.drop_last()) * code_radix() + (s.last() as int)
    }
}

/// The n-grams of length `n` that a packed table holds, with their weights.
pub open spec fn table_view(t: Map<u64, i32>, n: nat) -> Map<Seq<char>, i32> {
    Map::new(
        |s: Seq<char>| s.len() == n && t.contains_key(encode(s) as u64),
        |s: Seq<char>| t[encode(s) as u64],
    )
}

/// The weight of an n-gram in a table; absent n-grams weigh nothing.
pub open spec fn weight(t: Map<Seq<char>, i32>, s: Seq<char>) -> int {
    if t.contains_key(s) {
        t[s] as int
    } else {
        0
    }
}

/// The weights of a BudouX model, by feature table, keyed by n-gram.
pub struct ModelWeights {
    pub uw1: Map<Seq<char>, i32>,
    pub uw2: Map<Seq<char>, i32>,
    pub uw3: Map<Seq<char>, i32>,
    pub uw4: Map<Seq<char>, i32>,
    pub uw5: Map<Seq<char>, i32>,
    pub uw6: Map<Seq<char>, i32>,
    pub bw1: Map<Seq<char>, i32>,
    pub bw2: Map<Seq<char>, i32>,
    pub bw3: Map<Seq<char>, i32>,
    pub tw1: Map<Seq<char>, i32>,
    pub tw2: Map<Seq<char>, i32>,
    pub tw3: Map<Seq<char>, i32>,
    pub tw4: Map<Seq<char>, i32>,
}

/// A BudouX model: unigram (`uw*`), bigram (`bw*`) and trigram (`tw*`) feature
/// weights, each table keyed by the packed n-gram.
pub struct BudouxModel {
    pub uw1: HashMap<u64, i32>,
    pub uw2: HashMap<u64, i32>,
    pub uw3: HashMap<u64, i32>,
    pub uw4: HashMap<u64, i32>,
    pub uw5: HashMap<u64, i32>,
    pub uw6: HashMap<u64, i32>,
    pub bw1: HashMap<u64, i32>,
    pub bw2: HashMap<u64, i32>,
    pub bw3: HashMap<u64, i32>,
    pub tw1: HashMap<u64, i32>,
    pub tw2: HashMap<u64, i32>,
    pub tw3: HashMap<u64, i32>,
    pub tw4: HashMap<u64, i32>,
}

impl View for BudouxModel {
    type V = ModelWeights;

    open spec fn view(&self) -> ModelWeights {
        ModelWeights {
            uw1: table_view(self.uw1@, 1),
            uw2: table_view(self.uw2@, 1),
            uw3: table_view(self.uw3@, 1),
            uw4: table_view(self.uw4@, 1),
            uw5: table_view(self.uw5@, 1),
            uw6: table_view(self.uw6@, 1),
            bw1: table_view(self.bw1@, 2),
            bw2: table_view(self.bw2@, 2),
            bw3: table_view(self.bw3@, 2),
            tw1: table_view(self.tw1@, 3),
            tw2: table_view(self.tw2@, 3),
            tw3: table_view(self.tw3@, 3),
            tw4: table_view(self.tw4@, 3),
        }
    }
}

/// A model together with the score every boundary starts from.
pub struct ParserModel {
    pub model: BudouxModel,
    pub base_value: i32,
}

/// The unigram part of the score of a break before `cs[i]`.
pub open spec fn unigram_score(m: ModelWeights, cs: Seq<char>, i: int) -> int {
    let n = cs.len();
    (if i > 2 { weight(m.uw1, seq![cs[i - 3]]) } else { 0 })
        + (if i > 1 { weight(m.uw2, seq![cs[i - 2]]) } else { 0 })
        + weight(m.uw3, seq![cs[i - 1]])
        + weight(m.uw4, seq![cs[i]])
        + (if i + 1 < n { weight(m.uw5, seq![cs[i + 1]]) } else { 0 })
        + (if i + 2 < n { weight(m.uw6, seq![cs[i + 2]]) } else { 0 })
}

/// The bigram part of the score of a break before `cs[i]`.
pub open spec fn bigram_score(m: ModelWeights, cs: Seq<char>, i: int) -> int {
    let n = cs.len();
    (if i > 1 { weight(m.bw1, seq![cs[i - 2], cs[i - 1]]) } else { 0 })
        + weight(m.bw2, seq![cs[i - 1], cs[i]])
        + (if i + 1 < n { weight(m.bw3, seq![cs[i], cs[i + 1]]) } else { 0 })
}

/// The trigram part of the score of a break before `cs[i]`.
pub open spec fn trigram_score(m: ModelWeights, cs: Seq<char>, i: int) -> int {
    let n = cs.len();
    (if i > 2 { weight(m.tw1, seq![cs[i - 3], cs[i - 2], cs[i - 1]]) } else { 0 })
        + (if i > 1 { weight(m.tw2, seq![cs[i - 2], cs[i - 1], cs[i]]) } else { 0 })
        + (if i + 1 < n { weight(m.tw3, seq![cs[i - 1], cs[i], cs[i + 1]]) } else { 0 })
        + (if i + 2 < n { weight(m.tw4, seq![cs[i], cs[i + 1], cs[i + 2]]) } else { 0 })
}

/// The score of a break between `cs[i - 1]` and `cs[i]`: the base value plus the
/// weights of the n-grams around the break that lie inside `cs`.
pub open spec fn boundary_score(m: ModelWeights, base: int, cs: Seq<char>, i: int) -> int {
    base + unigram_score(m, cs, i) + bigram_score(m, cs, i) + trigram_score(m, cs, i)
}

/// The phrases of the first `k` characters of `cs`: a new phrase starts at every
/// position after the first whose boundary score is positive.
pub open spec fn phrases_upto(m: ModelWeights, base: int, cs: Seq<char>, k: nat) -> Seq<Seq<char>>
    decreases k,
{
    if k == 0 {
        Seq::empty()
    } else if k == 1 {
        seq![seq![cs[0]]]
    } else {
        let prev = phrases_upto(m, base, cs, (k - 1) as nat);
        let c = cs[k - 1];
        if boundary_score(m, base, cs, k - 1) > 0 {
            prev.push(seq![c])
        } else {
            prev.update(prev.len() - 1, prev.last().push(c))
        }
    }
}

/// The phrases BudouX splits `cs` into.
pub open spec fn phrases(m: ModelWeights, base: int, cs: Seq<char>) -> Seq<Seq<char>> {
    phrases_upto(m, base, cs, cs.len())
}

proof fn lemma_phrases_upto_cover(m: ModelWeights, base: int, cs: Seq<char>, k: nat)
    requires
        1 <= k <= cs.len(),
    ensures
        phrases_upto(m, base, cs, k).len() >= 1,
        phrases_upto(m, base, cs, k).flatten() == cs.take(k as int),
        forall|j: int|
            0 <= j < phrases_upto(m, base, cs, k).len() ==> #[trigger] phrases_upto(
                m,
                base,
                cs,
                k,
            )[j].len() > 0,
    decreases k,
{
    broadcast use Seq::lemma_flatten_push;

    let ps = phrases_upto(m, base, cs, k);
    if k == 1 {
        seq![seq![cs[0]]].lemma_flatten_singleton();
        assert(cs.take(1) =~= seq![cs[0]]);
    } else {
        lemma_phrases_upto_cover(m, base, cs, (k - 1) as nat);
        let prev = phrases_upto(m, base, cs, (k - 1) as nat);
        let c = cs[k - 1];
        assert(cs.take(k as int) =~= cs.take(k - 1).push(c));
        if boundary_score(m, base, cs, k - 1) > 0 {
            assert(ps == prev.push(seq![c]));
            assert(ps.flatten() =~= prev.flatten() + seq![c]);
        } else {
            let init = prev.drop_last();
            assert(prev =~= init.push(prev.last()));
            assert(ps =~= init.push(prev.last().push(c)));
            assert(prev.flatten() == init.flatten() + prev.last());
            assert(ps.flatten() == init.flatten() + prev.last().push(c));
            assert(ps.flatten() =~= prev.flatten().push(c));
        }
    }
}

/// BudouX loses nothing and makes no empty phrase: the phrases of a text, joined,
/// give back the text, and each of them holds at least one character.
pub proof fn lemma_phrases_partition_text(m: ModelWeights, base: int, cs: Seq<char>)
    ensures
        phrases(m, base, cs).flatten() == cs,
        forall|j: int|
            0 <= j < phrases(m, base, cs).len() ==> #[trigger] phrases(m, base, cs)[j].len() > 0,
        cs.len() == 0 <==> phrases(m, base, cs).len() == 0,
{
    if cs.len() == 0 {
        assert(phrases(m, base, cs) =~= Seq::<Seq<char>>::empty());
    } else {
        lemma_phrases_upto_cover(m, base, cs, cs.len());
        assert(cs.take(cs.len() as int) =~= cs);
    }
}

/// A break decision is local: the score of a break before `a[i]` reads only the
/// characters from `i - 3` to `i + 2`, so two texts that agree there (and agree
/// on which of those positions exist) score the break alike.
pub proof fn lemma_boundary_score_is_local(m: ModelWeights, base: int, a: Seq<char>, b: Seq<char>, i: int)
    requires
        0 < i < a.len(),
        i < b.len(),
        i + 1 < a.len() <==> i + 1 < b.len(),
        i + 2 < a.len() <==> i + 2 < b.len(),
        forall|j: int| i - 3 <= j <= i + 2 && 0 <= j && j < a.len() ==> #[trigger] a[j] == b[j],
    ensures
        boundary_score(m, base, a, i) == boundary_score(m, base, b, i),
{
    assert(a[i - 1] == b[i - 1]);
    assert(a[i] == b[i]);
    if i > 1 {
        assert(a[i - 2] == b[i - 2]);
    }
    if i > 2 {
        assert(a[i - 3] == b[i - 3]);
    }
    if i + 1 < a.len() {
        assert(a[i + 1] == b[i + 1]);
    }
    if i + 2 < a.len() {
        assert(a[i + 2] == b[i + 2]);
    }
}

/// The positions where the phrases `ps` start in their text, in order.
pub open spec fn phrase_starts(ps: Seq<Seq<char>>) -> Seq<int>
    decreases ps.len(),
{
    if ps.len() == 0 {
        Seq::empty()
    } else {
        phrase_starts(ps.drop_last()).push(ps.drop_last().flatten().len() as int)
    }
}

proof fn lemma_phrase_starts_upto(m: ModelWeights, base: int, cs: Seq<char>, k: nat)
    requires
        1 <= k <= cs.len(),
    ensures
        forall|i: int|
            phrase_starts(phrases_upto(m, base, cs, k)).contains(i) <==> (i == 0 || (1 <= i < k && boundary_score(
                m,
                base,
                cs,
                i,
            ) > 0)),
    decreases k,
{
    let ps = phrases_upto(m, base, cs, k);
    if k == 1 {
        let e = Seq::<Seq<char>>::empty();
        assert(ps.drop_last() =~= e);
        assert(e.flatten() =~= Seq::<char>::empty());
        assert(phrase_starts(e) =~= Seq::<int>::empty());
        assert(phrase_starts(ps) =~= seq![0int]);
        assert forall|i: int| phrase_starts(ps).contains(i) <==> (i == 0 || (1 <= i < k && boundary_score(m, base, cs, i) > 0)) by {
            if i == 0 {
                assert(phrase_starts(ps)[0] == 0);
            }
        }
    } else {
        lemma_phrase_starts_upto(m, base, cs, (k - 1) as nat);
        lemma_phrases_upto_cover(m, base, cs, (k - 1) as nat);
        let prev = phrases_upto(m, base, cs, (k - 1) as nat);
        let sp = phrase_starts(prev);
        let c = cs[k - 1];
        assert(prev.flatten().len() == k - 1);
        if boundary_score(m, base, cs, k - 1) > 0 {
            assert(ps == prev.push(seq![c]));
            assert(ps.drop_last() =~= prev);
            assert(phrase_starts(ps) == sp.push(k - 1));
            assert forall|i: int| phrase_starts(ps).contains(i) <==> (i == 0 || (1 <= i < k && boundary_score(m, base, cs, i) > 0)) by {
                if phrase_starts(ps).contains(i) {
                    let j = choose|j: int| 0 <= j < phrase_starts(ps).len() && phrase_starts(ps)[j] == i;
                    if j < sp.len() {
                        assert(sp[j] == i);
                        assert(sp.contains(i));
                    }
                }
                if i == 0 || (1 <= i < k && boundary_score(m, base, cs, i) > 0) {
                    if i == k - 1 {
                        assert(phrase_starts(ps)[sp.len() as int] == i);
                    } else {
                        assert(sp.contains(i));
                        let j = choose|j: int| 0 <= j < sp.len() && sp[j] == i;
                        assert(phrase_starts(ps)[j] == i);
                    }
                }
            }
        } else {
            let x = prev.last().push(c);
            assert(ps == prev.update(prev.len() - 1, x));
            assert(ps.drop_last() =~= prev.drop_last());
            assert(phrase_starts(ps) == phrase_starts(prev));
        }
    }
}

/// Where a phrase starts depends only on the characters around it: two texts
/// that agree on their first `p + 3` characters start phrases at the same
/// positions from 1 to `p` (the break before character `i` reads only the
/// characters from `i - 3` to `i + 2`).
pub proof fn lemma_phrase_starts_are_local(m: ModelWeights, base: int, a: Seq<char>, b: Seq<char>, p: int, i: int)
    requires
        1 <= i <= p,
        a.len() >= p + 3,
        b.len() >= p + 3,
        a.take(p + 3) == b.take(p + 3),
    ensures
        phrase_starts(phrases(m, base, a)).contains(i) <==> phrase_starts(phrases(m, base, b)).contains(i),
{
    lemma_phrase_starts_upto(m, base, a, a.len());
    lemma_phrase_starts_upto(m, base, b, b.len());
    assert forall|j: int| i - 3 <= j <= i + 2 && 0 <= j && j < a.len() implies #[trigger] a[j] == b[j] by {
        assert(j < p + 3);
        assert(a.take(p + 3)[j] == a[j]);
        assert(b.take(p + 3)[j] == b[j]);
        assert(a.take(p + 3)[j] == b.take(p + 3)[j]);
    }
    lemma_boundary_score_is_local(m, base, a, b, i);
}

/// The views of a list of strings.
pub open spec fn views_of(v: Seq<String>) -> Seq<Seq<char>> {
    v.map_values(|s: String| s@)
}

pub proof fn lemma_encode_1(a: char)
    ensures
        encode(seq![a]) == a as int,
{
    assert(seq![a].drop_last() =~= Seq::<char>::empty());
    assert(encode(Seq::<char>::empty()) == 0);
    assert(seq![a].last() == a);
}

pub proof fn lemma_encode_2(a: char, b: char)
    ensures
        encode(seq![a, b]) == (a as int) * code_radix() + (b as int),
{
    assert(seq![a, b].drop_last() =~= seq![a]);
    lemma_encode_1(a);
}

pub proof fn lemma_encode_3(a: char, b: char, c: char)
    ensures
        encode(seq![a, b, c]) == ((a as int) * code_radix() + (b as int)) * code_radix() + (c as int),
{
    assert(seq![a, b, c].drop_last() =~= seq![a, b]);
    lemma_encode_2(a, b);
}

/// The weight a packed table gives `key`, zero when absent.
fn lookup(table: &HashMap<u64, i32>, key: u64) -> (r: i64)
    ensures
        r == (if table@.contains_key(key) { table@[key] as int } else { 0 }),
        i32::MIN <= r <= i32::MAX,
{
    match table.get(&key) {
        Some(v) => *v as i64,
        None => 0,
    }
}

fn lookup1(table: &HashMap<u64, i32>, a: char) -> (r: i64)
    ensures
        i32::MIN <= r <= i32::MAX,
        r == weight(table_view(table@, 1), seq![a]),
{
    proof {
        lemma_encode_1(a);
    }
    lookup(table, a as u64)
}

fn lookup2(table: &HashMap<u64, i32>, a: char, b: char) -> (r: i64)
    ensures
        i32::MIN <= r <= i32::MAX,
        r == weight(table_view(table@, 2), seq![a, b]),
{
    proof {
        lemma_encode_2(a, b);
    }
    let key = (a as u64) * 0x200000 + (b as u64);
    lookup(table, key)
}

fn lookup3(table: &HashMap<u64, i32>, a: char, b: char, c: char) -> (r: i64)
    ensures
        i32::MIN <= r <= i32::MAX,
        r == weight(table_view(table@, 3), seq![a, b, c]),
{
    proof {
        lemma_encode_3(a, b, c);
    }
    let key = ((a as u64) * 0x200000 + (b as u64)) * 0x200000 + (c as u64);
    lookup(table, key)
}

fn unigram_score_at(model: &BudouxModel, chars: &Vec<char>, i: usize) -> (r: i64)
    requires
        0 < i < chars.len(),
    ensures
        r == unigram_score(model@, chars@, i as int),
        -0x400000000 <= r <= 0x400000000,
{
    let n = chars.len();
    let mut score: i64 = 0;
    if i > 2 {
        score = score + lookup1(&model.uw1, chars[i - 3]);
    }
    if i > 1 {
        score = score + lookup1(&model.uw2, chars[i - 2]);
    }
    score = score + lookup1(&model.uw3, chars[i - 1]);
    score = score + lookup1(&model.uw4, chars[i]);
    if i + 1 < n {
        score = score + lookup1(&model.uw5, chars[i + 1]);
    }
    if n - i > 2 {
        score = score + lookup1(&model.uw6, chars[i + 2]);
    }
    score
}

fn bigram_score_at(model: &BudouxModel, chars: &Vec<char>, i: usize) -> (r: i64)
    requires
        0 < i < chars.len(),
    ensures
        r == bigram_score(model@, chars@, i as int),
        -0x400000000 <= r <= 0x400000000,
{
    let n = chars.len();
    let mut score: i64 = 0;
    if i > 1 {
        score = score + lookup2(&model.bw1, chars[i - 2], chars[i - 1]);
    }
    score = score + lookup2(&model.bw2, chars[i - 1], chars[i]);
    if i + 1 < n {
        score = score + lookup2(&model.bw3, chars[i], chars[i + 1]);
    }
    score
}

fn trigram_score_at(model: &BudouxModel, chars: &Vec<char>, i: usize) -> (r: i64)
    requires
        0 < i < chars.len(),
    ensures
        r == trigram_score(model@, chars@, i as int),
        -0x400000000 <= r <= 0x400000000,
{
    let n = chars.len();
    let mut score: i64 = 0;
    if i > 2 {
        score = score + lookup3(&model.tw1, chars[i - 3], chars[i - 2], chars[i - 1]);
    }
    if i > 1 {
        score = score + lookup3(&model.tw2, chars[i - 2], chars[i - 1], chars[i]);
    }
    if i + 1 < n {
        score = score + lookup3(&model.tw3, chars[i - 1], chars[i], chars[i + 1]);
    }
    if n - i > 2 {
        score = score + lookup3(&model.tw4, chars[i], chars[i + 1], chars[i + 2]);
    }
    score
}

/// Computes `boundary_score` for the break before `chars[i]`.
fn score_at(parser: &ParserModel, chars: &Vec<char>, i: usize) -> (r: i64)
    requires
        0 < i < chars.len(),
    ensures
        r == boundary_score(parser.model@, parser.base_value as int, chars@, i as int),
{
    let u = unigram_score_at(&parser.model, chars, i);
    let b = bigram_score_at(&parser.model, chars, i);
    let t = trigram_score_at(&parser.model, chars, i);
    parser.base_value as i64 + u + b + t
}

/// Splits `text` into phrases with `parser`: a new phrase starts before every
/// character (but the first) whose boundary score is positive. The scores are
/// summed exactly.
pub fn segment_with_model(text: &str, parser: &ParserModel) -> (r: Vec<String>)
    ensures
        views_of(r@) == phrases(parser.model@, parser.base_value as int, text@),
        views_of(r@).flatten() == text@,
        forall|j: int| 0 <= j < r@.len() ==> #[trigger] r@[j]@.len() > 0,
{
    proof {
        lemma_phrases_partition_text(parser.model@, parser.base_value as int, text@);
    }
    let chars = chars_of(text);
    if chars.len() == 0 {
        let r: Vec<String> = Vec::new();
        assert(views_of(r@) =~= Seq::<Seq<char>>::empty());
        return r;
    }
    let ghost m = parser.model@;
    let ghost base = parser.base_value as int;
    let mut result: Vec<String> = Vec::new();
    let mut current = String::new();
    push_char(&mut current, chars[0]);
    assert(current@ =~= seq![chars@[0]]);
    assert(views_of(result@).push(current@) =~= phrases_upto(m, base, chars@, 1));
    let mut i: usize = 1;
    while i < chars.len()
        invariant
            1 <= i <= chars.len(),
            chars@ == text@,
            m == parser.model@,
            base == parser.base_value as int,
            views_of(result@).push(current@) == phrases_upto(m, base, chars@, i as nat),
        decreases chars.len() - i,
    {
        let score = score_at(parser, &chars, i);
        let ghost prev = phrases_upto(m, base, chars@, i as nat);
        if score > 0 {
            let ghost old_result = result@;
            let mut fresh = String::new();
            push_char(&mut fresh, chars[i]);
            std::mem::swap(&mut current, &mut fresh);
            result.push(fresh);
            assert(views_of(result@) =~= views_of(old_result).push(fresh@));
            assert(current@ =~= seq![chars@[i as int]]);
        } else {
            let ghost old_current = current@;
            push_char(&mut current, chars[i]);
            assert(views_of(result@).push(current@) =~= prev.update(
                prev.len() - 1,
                prev.last().push(chars@[i as int]),
            ));
        }
        i = i + 1;
    }
    let ghost before = result@;
    result.push(current);
    assert(views_of(result@) =~= views_of(before).push(result@.last()@));
    assert forall|j: int| 0 <= j < result@.len() implies #[trigger] result@[j]@.len() > 0 by {
        assert(views_of(result@)[j] == result@[j]@);
    }
    result
}

/// `code_radix()` to the power `n`.
pub open spec fn radix_pow(n: nat) -> int
    decreases n,
{
    if n == 0 {
        1
    } else {
        radix_pow((n - 1) as nat) * code_radix()
    }
}

proof fn lemma_encode_range(s: Seq<char>)
    ensures
        0 <= encode(s) < radix_pow(s.len()),
    decreases s.len(),
{
    if s.len() > 0 {
        lemma_encode_range(s.drop_last());
        let x = encode(s.drop_last());
        let b = s.last() as int;
        let p = radix_pow(s.drop_last().len());
        lemma_char_range(s.last());
        assert(x * code_radix() + b < radix_pow(s.len())) by (nonlinear_arith)
            requires
                0 <= x < p,
                0 <= b < code_radix(),
                radix_pow(s.len()) == p * code_radix(),
        ;
        assert(0 <= x * code_radix()) by (nonlinear_arith)
            requires
                0 <= x,
        ;
    }
}

proof fn lemma_digits_unique(x: int, b: int, y: int, d: int)
    requires
        0 <= b < code_radix(),
        0 <= d < code_radix(),
        x * code_radix() + b == y * code_radix() + d,
    ensures
        x == y,
        b == d,
{
    assert(x == y) by (nonlinear_arith)
        requires
            0 <= b < code_radix(),
            0 <= d < code_radix(),
            x * code_radix() + b == y * code_radix() + d,
    ;
}

/// Distinct n-grams of one length pack to distinct numbers.
pub proof fn lemma_encode_injective(s: Seq<char>, t: Seq<char>)
    requires
        s.len() == t.len(),
        encode(s) == encode(t),
    ensures
        s == t,
    decreases s.len(),
{
    if s.len() > 0 {
        lemma_char_range(s.last());
        lemma_char_range(t.last());
        lemma_digits_unique(encode(s.drop_last()), s.last() as int, encode(t.drop_last()), t.last() as int);
        lemma_encode_injective(s.drop_last(), t.drop_last());
        assert(s =~= s.drop_last().push(s.last()));
        assert(t =~= t.drop_last().push(t.last()));
    } else {
        assert(s =~= t);
    }
}

/// What a JSON object of n-gram weights holds once its keys of length `n` are read
/// as n-grams: later entries win over earlier ones with the same key, and keys of
/// any other length are left out.
pub open spec fn entries_map(e: Seq<(String, i32)>, n: nat) -> Map<Seq<char>, i32>
    decreases e.len(),
{
    if e.len() == 0 {
        Map::empty()
    } else {
        let prev = entries_map(e.drop_last(), n);
        let (k, v) = e.last();
        if k@.len() == n {
            prev.insert(k@, v)
        } else {
            prev
        }
    }
}

proof fn lemma_table_view_insert(t: Map<u64, i32>, n: nat, s: Seq<char>, v: i32)
    requires
        1 <= n <= 3,
        s.len() == n,
    ensures
        table_view(t.insert(encode(s) as u64, v), n) =~= table_view(t, n).insert(s, v),
{
    reveal_with_fuel(radix_pow, 4);
    assert(radix_pow(3) == 0x200000 * 0x200000 * 0x200000);
    assert forall|u: Seq<char>| u.len() == n implies (encode(u) as u64 == encode(s) as u64) == (u
        == s) by {
        lemma_encode_range(u);
        lemma_encode_range(s);
        if encode(u) as u64 == encode(s) as u64 {
            lemma_encode_injective(u, s);
        }
    }
}

/// Every key of the table `t` packs a key of `e` that has `n` characters: the
/// table holds nothing but the n-grams of `e`.
pub open spec fn keys_from(t: Map<u64, i32>, e: Seq<(String, i32)>, n: nat) -> bool {
    forall|code: u64|
        #[trigger] t.contains_key(code) ==> exists|j: int|
            0 <= j < e.len() && (#[trigger] e[j]).0@.len() == n && encode(e[j].0@) == code as int
}

/// Packs the keys of exactly `n` characters of a JSON object into a table.
fn pack_entries(input: &Vec<(String, i32)>, n: usize) -> (r: HashMap<u64, i32>)
    requires
        1 <= n <= 3,
    ensures
        table_view(r@, n as nat) == entries_map(input@, n as nat),
        keys_from(r@, input@, n as nat),
{
    let mut table: HashMap<u64, i32> = HashMap::new();
    let mut i: usize = 0;
    assert(table_view(table@, n as nat) =~= entries_map(input@.take(0), n as nat));
    while i < input.len()
        invariant
            1 <= n <= 3,
            i <= input.len(),
            table_view(table@, n as nat) == entries_map(input@.take(i as int), n as nat),
            forall|code: u64|
                #[trigger] table@.contains_key(code) ==> exists|j: int|
                    0 <= j < i && (#[trigger] input@[j]).0@.len() == n && encode(input@[j].0@) == code as int,
        decreases input.len() - i,
    {
        let key = chars_of(input[i].0.as_str());
        let value = input[i].1;
        assert(input@.take(i + 1).drop_last() =~= input@.take(i as int));
        if key.len() == n {
            proof {
                lemma_char_range(key@[0]);
                if n >= 2 {
                    lemma_char_range(key@[1]);
                }
                if n >= 3 {
                    lemma_char_range(key@[2]);
                }
            }
            let code: u64 = if n == 1 {
                proof {
                    assert(key@ =~= seq![key@[0]]);
                    lemma_encode_1(key@[0]);
                }
                key[0] as u64
            } else if n == 2 {
                proof {
                    assert(key@ =~= seq![key@[0], key@[1]]);
                    lemma_encode_2(key@[0], key@[1]);
                }
                (key[0] as u64) * 0x200000 + (key[1] as u64)
            } else {
                proof {
                    assert(key@ =~= seq![key@[0], key@[1], key@[2]]);
                    lemma_encode_3(key@[0], key@[1], key@[2]);
                }
                ((key[0] as u64) * 0x200000 + (key[1] as u64)) * 0x200000 + (key[2] as u64)
            };
            proof {
                lemma_table_view_insert(table@, n as nat, key@, value);
                assert(key@ == input@[i as int].0@);
                assert(encode(input@[i as int].0@) == code as int);
            }
            table.insert(code, value);
        }
        i = i + 1;
    }
    assert(input@.take(input.len() as int) =~= input@);
    table
}

/// Every key of `e` has exactly `n` characters.
pub open spec fn keys_have_len(e: Seq<(String, i32)>, n: nat) -> bool {
    forall|i: int| 0 <= i < e.len() ==> (#[trigger] e[i]).0@.len() == n
}

/// Every key of `e` has at least `n` characters.
pub open spec fn keys_have_len_at_least(e: Seq<(String, i32)>, n: nat) -> bool {
    forall|i: int| 0 <= i < e.len() ==> (#[trigger] e[i]).0@.len() >= n
}

/// Reads a unigram table. Every key must be a single character.
pub fn parse_unigram(input: Vec<(String, i32)>) -> (r: HashMap<u64, i32>)
    requires
        keys_have_len(input@, 1),
    ensures
        table_view(r@, 1) == entries_map(input@, 1),
        keys_from(r@, input@, 1),
{
    pack_entries(&input, 1)
}

/// Reads a bigram table. Every key must have exactly two characters.
pub fn parse_bigram(input: Vec<(String, i32)>) -> (r: HashMap<u64, i32>)
    requires
        keys_have_len(input@, 2),
    ensures
        table_view(r@, 2) == entries_map(input@, 2),
        keys_from(r@, input@, 2),
{
    pack_entries(&input, 2)
}

/// Reads a trigram table. Every key must have at least two characters; keys of
/// exactly three characters are kept, the others are skipped.
pub fn parse_trigram(input: Vec<(String, i32)>) -> (r: HashMap<u64, i32>)
    requires
        keys_have_len_at_least(input@, 2),
    ensures
        table_view(r@, 3) == entries_map(input@, 3),
        keys_from(r@, input@, 3),
{
    pack_entries(&input, 3)
}

/// A BudouX model as its JSON file holds it: for each feature table, the
/// entries of the JSON object, n-gram text to weight. A table that the file
/// lacks is empty.
pub struct BudouxModelRaw {
    pub uw1: Vec<(String, i32)>,
    pub uw2: Vec<(String, i32)>,
    pub uw3: Vec<(String, i32)>,
    pub uw4: Vec<(String, i32)>,
    pub uw5: Vec<(String, i32)>,
    pub uw6: Vec<(String, i32)>,
    pub bw1: Vec<(String, i32)>,
    pub bw2: Vec<(String, i32)>,
    pub bw3: Vec<(String, i32)>,
    pub tw1: Vec<(String, i32)>,
    pub tw2: Vec<(String, i32)>,
    pub tw3: Vec<(String, i32)>,
    pub tw4: Vec<(String, i32)>,
}

impl BudouxModelRaw {
    /// The keys have the lengths that reading the tables demands.
    pub open spec fn well_formed(&self) -> bool {
        &&& keys_have_len(self.uw1@, 1)
        &&& keys_have_len(self.uw2@, 1)
        &&& keys_have_len(self.uw3@, 1)
        &&& keys_have_len(self.uw4@, 1)
        &&& keys_have_len(self.uw5@, 1)
        &&& keys_have_len(self.uw6@, 1)
        &&& keys_have_len(self.bw1@, 2)
        &&& keys_have_len(self.bw2@, 2)
        &&& keys_have_len(self.bw3@, 2)
        &&& keys_have_len_at_least(self.tw1@, 2)
        &&& keys_have_len_at_least(self.tw2@, 2)
        &&& keys_have_len_at_least(self.tw3@, 2)
        &&& keys_have_len_at_least(self.tw4@, 2)
    }

    /// The weights the file describes.
    pub open spec fn weights(&self) -> ModelWeights {
        ModelWeights {
            uw1: entries_map(self.uw1@, 1),
            uw2: entries_map(self.uw2@, 1),
            uw3: entries_map(self.uw3@, 1),
            uw4: entries_map(self.uw4@, 1),
            uw5: entries_map(self.uw5@, 1),
            uw6: entries_map(self.uw6@, 1),
            bw1: entries_map(self.bw1@, 2),
            bw2: entries_map(self.bw2@, 2),
            bw3: entries_map(self.bw3@, 2),
            tw1: entries_map(self.tw1@, 3),
            tw2: entries_map(self.tw2@, 3),
            tw3: entries_map(self.tw3@, 3),
            tw4: entries_map(self.tw4@, 3),
        }
    }

    /// The sum of every value in the file, skipped trigram keys included.
    pub open spec fn total(&self) -> int {
        values_sum(self.uw1@) + values_sum(self.uw2@) + values_sum(self.uw3@) + values_sum(
            self.uw4@,
        ) + values_sum(self.uw5@) + values_sum(self.uw6@) + values_sum(self.bw1@) + values_sum(
            self.bw2@,
        ) + values_sum(self.bw3@) + values_sum(self.tw1@) + values_sum(self.tw2@) + values_sum(
            self.tw3@,
        ) + values_sum(self.tw4@)
    }
}

/// The sum of the values of some entries.
pub open spec fn values_sum(e: Seq<(String, i32)>) -> int
    decreases e.len(),
{
    if e.len() == 0 {
        0
    } else {
        values_sum(e.drop_last()) + e.last().1
    }
}

/// Half of `x`, rounded toward zero, as integer division does.
pub open spec fn half_toward_zero(x: int) -> int {
    if x >= 0 {
        x / 2
    } else {
        -((-x) / 2)
    }
}

fn sum_values(e: &Vec<(String, i32)>) -> (r: i128)
    ensures
        r == values_sum(e@),
        -0x80000000 * (e.len() as int) <= r <= 0x80000000 * (e.len() as int),
{
    let mut s: i128 = 0;
    let mut i: usize = 0;
    while i < e.len()
        invariant
            i <= e.len(),
            s == values_sum(e@.take(i as int)),
            -0x80000000 * (i as int) <= s <= 0x80000000 * (i as int),
        decreases e.len() - i,
    {
        assert(e@.take(i + 1).drop_last() =~= e@.take(i as int));
        s = s + e[i].1 as i128;
        i = i + 1;
    }
    assert(e@.take(e.len() as int) =~= e@);
    s
}

impl BudouxModel {
    /// Every table holds nothing but the packed n-grams of its table in `raw`.
    pub open spec fn tables_from(&self, raw: BudouxModelRaw) -> bool {
        &&& keys_from(self.uw1@, raw.uw1@, 1)
        &&& keys_from(self.uw2@, raw.uw2@, 1)
        &&& keys_from(self.uw3@, raw.uw3@, 1)
        &&& keys_from(self.uw4@, raw.uw4@, 1)
        &&& keys_from(self.uw5@, raw.uw5@, 1)
        &&& keys_from(self.uw6@, raw.uw6@, 1)
        &&& keys_from(self.bw1@, raw.bw1@, 2)
        &&& keys_from(self.bw2@, raw.bw2@, 2)
        &&& keys_from(self.bw3@, raw.bw3@, 2)
        &&& keys_from(self.tw1@, raw.tw1@, 3)
        &&& keys_from(self.tw2@, raw.tw2@, 3)
        &&& keys_from(self.tw3@, raw.tw3@, 3)
        &&& keys_from(self.tw4@, raw.tw4@, 3)
    }

    /// Reads every table of a model file.
    pub fn from_raw(raw: BudouxModelRaw) -> (r: Self)
        requires
            raw.well_formed(),
        ensures
            r@ == raw.weights(),
            r.tables_from(raw),
    {
        BudouxModel {
            uw1: parse_unigram(raw.uw1),
            uw2: parse_unigram(raw.uw2),
            uw3: parse_unigram(raw.uw3),
            uw4: parse_unigram(raw.uw4),
            uw5: parse_unigram(raw.uw5),
            uw6: parse_unigram(raw.uw6),
            bw1: parse_bigram(raw.bw1),
            bw2: parse_bigram(raw.bw2),
            bw3: parse_bigram(raw.bw3),
            tw1: parse_trigram(raw.tw1),
            tw2: parse_trigram(raw.tw2),
            tw3: parse_trigram(raw.tw3),
            tw4: parse_trigram(raw.tw4),
        }
    }
}

/// Builds the parser for a model file: its tables, and a base score of minus
/// half the sum of all its values. The sum must fit an `i32`, and so must its
/// negation.
pub fn load_model(raw: BudouxModelRaw) -> (r: ParserModel)
    requires
        raw.well_formed(),
        i32::MIN < raw.total() <= i32::MAX,
    ensures
        r.model@ == raw.weights(),
        r.model.tables_from(raw),
        r.base_value == half_toward_zero(-raw.total()),
{
    let s1 = sum_values(&raw.uw1) + sum_values(&raw.uw2) + sum_values(&raw.uw3);
    let s2 = sum_values(&raw.uw4) + sum_values(&raw.uw5) + sum_values(&raw.uw6);
    let s3 = sum_values(&raw.bw1) + sum_values(&raw.bw2) + sum_values(&raw.bw3);
    let s4 = sum_values(&raw.tw1) + sum_values(&raw.tw2);
    let s5 = sum_values(&raw.tw3) + sum_values(&raw.tw4);
    let sum: i128 = s1 + s2 + s3 + s4 + s5;
    let neg: i128 = -sum;
    let base: i128 = if neg >= 0 {
        neg / 2
    } else {
        -((-neg) / 2)
    };
    let model = BudouxModel::from_raw(raw);
    ParserModel { model, base_value: base as i32 }
}

/// The languages BudouX has a model for.
#[derive(Debug, Clone, Copy, PartialEq, Eq, Structural)]
pub enum Language {
    Japanese,
    SimplifiedChinese,
    TraditionalChinese,
    Thai,
}

/// The parsers for every language, as the bundled model files give them.
pub struct BundledModels {
    pub japanese: ParserModel,
    pub simplified_chinese: ParserModel,
    pub traditional_chinese: ParserModel,
    pub thai: ParserModel,
}

impl BundledModels {
    /// The parser for `language`.
    pub open spec fn model_for(&self, language: Language) -> &ParserModel {
        match language {
            Language::Japanese => &self.japanese,
            Language::SimplifiedChinese => &self.simplified_chinese,
            Language::TraditionalChinese => &self.traditional_chinese,
            Language::Thai => &self.thai,
        }
    }

    /// The parser for `language`.
    pub fn get_model(&self, language: Language) -> (r: &ParserModel)
        ensures
            r == self.model_for(language),
            language == Language::Japanese ==> *r == self.japanese,
            language == Language::SimplifiedChinese ==> *r == self.simplified_chinese,
            language == Language::TraditionalChinese ==> *r == self.traditional_chinese,
            language == Language::Thai ==> *r == self.thai,
    {
        match language {
            Language::Japanese => &self.japanese,
            Language::SimplifiedChinese => &self.simplified_chinese,
            Language::TraditionalChinese => &self.traditional_chinese,
            Language::Thai => &self.thai,
        }
    }
}

/// Splits `text` into phrases with the bundled model of `language`.
pub fn segment(models: &BundledModels, text: &str, language: Language) -> (r: Vec<String>)
    ensures
        views_of(r@) == phrases(
            models.model_for(language).model@,
            models.model_for(language).base_value as int,
            text@,
        ),
        views_of(r@).flatten() == text@,
        forall|j: int| 0 <= j < r@.len() ==> #[trigger] r@[j]@.len() > 0,
        language == Language::Japanese ==> views_of(r@) == phrases(
            models.japanese.model@,
            models.japanese.base_value as int,
            text@,
        ),
        language == Language::SimplifiedChinese ==> views_of(r@) == phrases(
            models.simplified_chinese.model@,
            models.simplified_chinese.base_value as int,
            text@,
        ),
        language == Language::TraditionalChinese ==> views_of(r@) == phrases(
            models.traditional_chinese.model@,
            models.traditional_chinese.base_value as int,
            text@,
        ),
        language == Language::Thai ==> views_of(r@) == phrases(
            models.thai.model@,
            models.thai.base_value as int,
            text@,
        ),
{
    proof {
        lemma_each_language_reads_its_own_model(*models);
    }
    segment_with_model(text, models.get_model(language))
}

/// Each language is segmented with its own bundled model: Japanese with the
/// Japanese one, Simplified Chinese with the Simplified Chinese one,
/// Traditional Chinese with the Traditional Chinese one and Thai with the
/// Thai one.
pub proof fn lemma_each_language_reads_its_own_model(models: BundledModels)
    ensures
        *models.model_for(Language::Japanese) == models.japanese,
        *models.model_for(Language::SimplifiedChinese) == models.simplified_chinese,
        *models.model_for(Language::TraditionalChinese) == models.traditional_chinese,
        *models.model_for(Language::Thai) == models.thai,
{
}

} // verus!
