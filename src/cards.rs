//! Cards, orientations, the deck, and the classification and ranking of
//! runs of cards.

use vstd::prelude::*;

verus! {

/// A card: two distinct numbers, `first < second` for every card of a deck.
#[derive(Debug, Clone, Copy, PartialEq, Eq, Hash, Structural)]
pub struct Card {
    pub first: u8,
    pub second: u8,
}

/// Which of a card's two numbers faces up.
#[derive(Debug, Clone, Copy, PartialEq, Eq, Hash, Structural)]
pub enum Orientation {
    Larger,
    Smaller,
}

/// A card together with the side that currently faces up.
#[derive(Debug, Clone, Copy, PartialEq, Eq, Hash, Structural)]
pub struct OrientedCard {
    pub card: Card,
    pub orientation: Orientation,
}

/// The opposite orientation.
pub open spec fn opposite(o: Orientation) -> Orientation {
    match o {
        Orientation::Larger => Orientation::Smaller,
        Orientation::Smaller => Orientation::Larger,
    }
}

impl OrientedCard {
    /// The number that faces up.
    pub open spec fn top_spec(self) -> u8 {
        match self.orientation {
            Orientation::Smaller => self.card.first,
            Orientation::Larger => self.card.second,
        }
    }

    /// The number that faces down.
    pub open spec fn bottom_spec(self) -> u8 {
        match self.orientation {
            Orientation::Smaller => self.card.second,
            Orientation::Larger => self.card.first,
        }
    }

    /// The same card turned over.
    pub open spec fn flip_spec(self) -> OrientedCard {
        OrientedCard { card: self.card, orientation: opposite(self.orientation) }
    }

    pub fn top(&self) -> (r: u8)
        ensures
            r == self.top_spec(),
    {
        match self.orientation {
            Orientation::Smaller => self.card.first,
            Orientation::Larger => self.card.second,
        }
    }

    pub fn bottom(&self) -> (r: u8)
        ensures
            r == self.bottom_spec(),
    {
        match self.orientation {
            Orientation::Smaller => self.card.second,
            Orientation::Larger => self.card.first,
        }
    }

    pub fn flip(&self) -> (r: OrientedCard)
        ensures
            r == self.flip_spec(),
            r.top_spec() == self.bottom_spec(),
            r.bottom_spec() == self.top_spec(),
    {
        OrientedCard {
            card: self.card,
            orientation: if self.orientation == Orientation::Larger {
                Orientation::Smaller
            } else {
                Orientation::Larger
            },
        }
    }
}


/// A run of cards that may be played: consecutive numbers `(low, high)`,
/// inclusive, or `count` copies of `number`.
#[derive(Debug, Clone, Copy, PartialEq, Eq, Structural)]
pub enum CardSet {
    /// (Start, End), inclusive
    Consecutive(u8, u8),
    /// (Number, Count)
    Same(u8, u8),
}

impl CardSet {
    /// How many cards the set holds.
    pub open spec fn size(self) -> int {
        match self {
            CardSet::Consecutive(start, end) => end - start + 1,
            CardSet::Same(_number, count) => count as int,
        }
    }

    /// A set that some non-empty run of cards can be classified as.
    pub open spec fn valid(self) -> bool {
        match self {
            CardSet::Consecutive(start, end) => start < end,
            CardSet::Same(_number, count) => count >= 1,
        }
    }

    /// The ranking of sets: the larger set wins; among sets of one size a
    /// run of equal numbers beats a consecutive run, and otherwise the
    /// higher number wins.
    pub open spec fn rank_cmp(self, other: CardSet) -> core::cmp::Ordering {
        if self.size() < other.size() {
            core::cmp::Ordering::Less
        } else if self.size() > other.size() {
            core::cmp::Ordering::Greater
        } else {
            match (self, other) {
                (CardSet::Consecutive(a, _), CardSet::Consecutive(b, _)) => int_cmp(a as int, b as int),
                (CardSet::Same(a, _), CardSet::Same(b, _)) => int_cmp(a as int, b as int),
                (CardSet::Same(..), CardSet::Consecutive(..)) => core::cmp::Ordering::Greater,
                (CardSet::Consecutive(..), CardSet::Same(..)) => core::cmp::Ordering::Less,
            }
        }
    }

    /// `self` ranks strictly above `other`.
    pub open spec fn beats(self, other: CardSet) -> bool {
        self.rank_cmp(other) == core::cmp::Ordering::Greater
    }

    fn num_cards(&self) -> (r: i16)
        ensures
            r == self.size(),
    {
        match *self {
            CardSet::Consecutive(start, end) => end as i16 - start as i16 + 1,
            CardSet::Same(_number, count) => count as i16,
        }
    }
}

/// The ranking of sets is a strict total order on valid sets: of two sets
/// exactly one beats the other unless they are equal, one ranks below
/// another exactly when the other ranks above it, and beating is
/// transitive.
pub proof fn lemma_ranking_is_strict_total_order(a: CardSet, b: CardSet, c: CardSet)
    requires
        a.valid(),
        b.valid(),
        c.valid(),
    ensures
        a.rank_cmp(b) == core::cmp::Ordering::Equal <==> a == b,
        a.beats(b) <==> b.rank_cmp(a) == core::cmp::Ordering::Less,
        a == b || a.beats(b) || b.beats(a),
        !a.beats(a),
        a.beats(b) ==> !b.beats(a),
        a.beats(b) && b.beats(c) ==> a.beats(c),
{
}

/// Comparison of two integers.
pub open spec fn int_cmp(a: int, b: int) -> core::cmp::Ordering {
    if a < b {
        core::cmp::Ordering::Less
    } else if a > b {
        core::cmp::Ordering::Greater
    } else {
        core::cmp::Ordering::Equal
    }
}

fn u8_cmp(a: u8, b: u8) -> (r: core::cmp::Ordering)
    ensures
        r == int_cmp(a as int, b as int),
{
    if a < b {
        core::cmp::Ordering::Less
    } else if a > b {
        core::cmp::Ordering::Greater
    } else {
        core::cmp::Ordering::Equal
    }
}

impl PartialOrd for CardSet {
    fn partial_cmp(&self, other: &CardSet) -> (r: Option<core::cmp::Ordering>)
        ensures
            r == Some(self.rank_cmp(*other)),
    {
        let n_self = self.num_cards();
        let n_other = other.num_cards();
        if n_self < n_other {
            return Some(core::cmp::Ordering::Less);
        }
        if n_self > n_other {
            return Some(core::cmp::Ordering::Greater);
        }
        match (self, other) {
            (CardSet::Consecutive(s_start, _), CardSet::Consecutive(o_start, _)) => Some(u8_cmp(*s_start, *o_start)),
            (CardSet::Same(s_num, _), CardSet::Same(o_num, _)) => Some(u8_cmp(*s_num, *o_num)),
            (CardSet::Same(..), CardSet::Consecutive(..)) => Some(core::cmp::Ordering::Greater),
            (CardSet::Consecutive(..), CardSet::Same(..)) => Some(core::cmp::Ordering::Less),
        }
    }
}

impl vstd::std_specs::cmp::PartialOrdSpecImpl for CardSet {
    open spec fn obeys_partial_cmp_spec() -> bool {
        true
    }

    open spec fn partial_cmp_spec(&self, other: &CardSet) -> Option<core::cmp::Ordering> {
        Some(self.rank_cmp(*other))
    }
}


/// The numbers facing up along a run of cards.
pub open spec fn tops(run: Seq<OrientedCard>) -> Seq<u8> {
    run.map_values(|c: OrientedCard| c.top_spec())
}

/// Every number of `v` equals the first.
pub open spec fn all_same(v: Seq<u8>) -> bool {
    forall|i: int| 0 <= i < v.len() ==> #[trigger] v[i] == v[0]
}

/// Each number of `v` is one more than the one before it.
pub open spec fn steps_up(v: Seq<u8>) -> bool {
    forall|i: int| 0 <= i < v.len() - 1 ==> #[trigger] v[i] + 1 == v[i + 1]
}

/// Each number of `v` is one less than the one before it.
pub open spec fn steps_down(v: Seq<u8>) -> bool {
    forall|i: int| 0 <= i < v.len() - 1 ==> #[trigger] v[i] == v[i + 1] + 1
}

/// The step from `v[k]` to `v[k + 1]` is one, up or down as asked.
pub open spec fn step_ok(v: Seq<u8>, k: int, ascending: bool) -> bool {
    if ascending {
        v[k] + 1 == v[k + 1]
    } else {
        v[k] == v[k + 1] + 1
    }
}

/// The set that a sequence of face-up numbers forms, if any: equal numbers,
/// or numbers that step by one in the direction that the first two take.
pub open spec fn classify_values(v: Seq<u8>) -> Option<CardSet> {
    if v.len() == 0 {
        None
    } else if all_same(v) {
        Some(CardSet::Same(v[0], v.len() as u8))
    } else if v[1] > v[0] {
        if steps_up(v) {
            Some(CardSet::Consecutive(v[0], v.last()))
        } else {
            None
        }
    } else if steps_down(v) {
        Some(CardSet::Consecutive(v.last(), v[0]))
    } else {
        None
    }
}

/// The set that a run of oriented cards forms, if any.
pub open spec fn classify(run: Seq<OrientedCard>) -> Option<CardSet> {
    classify_values(tops(run))
}

/// Dropping an end card of a set leaves a set (or nothing).
pub proof fn lemma_set_without_end(v: Seq<u8>)
    requires
        classify_values(v) is Some,
        v.len() >= 2,
    ensures
        classify_values(v.drop_first()) is Some,
        classify_values(v.drop_last()) is Some,
{
    let f = v.drop_first();
    let l = v.drop_last();
    if all_same(v) {
        assert(all_same(f));
        assert(all_same(l));
    } else if v[1] > v[0] {
        assert(steps_up(f));
        assert(steps_up(l));
        if f.len() >= 2 {
            assert(f[1] == f[0] + 1);
        }
        if l.len() >= 2 {
            assert(l[1] == l[0] + 1);
        }
    } else {
        assert(steps_down(f));
        assert(steps_down(l));
        if f.len() >= 2 {
            assert(f[0] == f[1] + 1);
        }
        if l.len() >= 2 {
            assert(l[0] == l[1] + 1);
        }
    }
}

/// Classifies `cards[start..end]`.
pub fn classify_run(cards: &[OrientedCard], start: usize, end: usize) -> (r: Option<CardSet>)
    requires
        start <= end <= cards@.len(),
        end - start <= 255,
    ensures
        r == classify(cards@.subrange(start as int, end as int)),
{
    let ghost run = cards@.subrange(start as int, end as int);
    let ghost v = tops(run);
    if start == end {
        return None;
    }
    let first = cards[start].top();
    assert(v[0] == first);
    let mut same = true;
    let mut i: usize = start + 1;
    while i < end
        invariant
            start < i <= end <= cards@.len(),
            v == tops(cards@.subrange(start as int, end as int)),
            v.len() == end - start,
            first == v[0],
            same == (forall|k: int| 0 <= k < i - start ==> v[k] == first),
        decreases end - i,
    {
        let t = cards[i].top();
        assert(v[i - start] == t);
        if t != first {
            same = false;
        }
        i = i + 1;
    }
    if same {
        assert(all_same(v));
        return Some(CardSet::Same(first, (end - start) as u8));
    }
    assert(!all_same(v));
    let second = cards[start + 1].top();
    assert(v[1] == second);
    let ascending = second > first;
    let mut steps = true;
    let mut j: usize = start;
    while j + 1 < end
        invariant
            start <= j < end <= cards@.len(),
            v == tops(cards@.subrange(start as int, end as int)),
            v.len() == end - start,
            steps == (forall|k: int| 0 <= k < j - start ==> #[trigger] step_ok(v, k, ascending)),
        decreases end - j,
    {
        let a = cards[j].top();
        let b = cards[j + 1].top();
        assert(v[j - start] == a && v[j + 1 - start] == b);
        let ok = if ascending {
            a as u16 + 1 == b as u16
        } else {
            a as u16 == b as u16 + 1
        };
        assert(ok == step_ok(v, j - start, ascending));
        if !ok {
            steps = false;
        }
        proof {
            if steps {
                assert forall|k: int| 0 <= k < j + 1 - start implies #[trigger] step_ok(v, k, ascending) by {
                    if k < j - start {
                        assert(step_ok(v, k, ascending));
                    }
                }
            }
        }
        j = j + 1;
    }
    if !steps {
        proof {
            let k = choose|k: int| 0 <= k < v.len() - 1 && !#[trigger] step_ok(v, k, ascending);
            if ascending {
                assert(!steps_up(v));
            } else {
                assert(!steps_down(v));
            }
        }
        return None;
    }
    let last = cards[end - 1].top();
    assert(v.last() == last);
    if ascending {
        assert forall|k: int| 0 <= k < v.len() - 1 implies #[trigger] v[k] + 1 == v[k + 1] by {
            assert(step_ok(v, k, ascending));
        }
        assert(steps_up(v));
        Some(CardSet::Consecutive(first, last))
    } else {
        assert forall|k: int| 0 <= k < v.len() - 1 implies #[trigger] v[k] == v[k + 1] + 1 by {
            assert(step_ok(v, k, ascending));
        }
        assert(steps_down(v));
        Some(CardSet::Consecutive(last, first))
    }
}

/// Classifies a whole run of cards.
pub fn build_card_set(to_play: &[OrientedCard]) -> (r: Option<CardSet>)
    requires
        to_play@.len() <= 255,
    ensures
        r == classify(to_play@),
{
    let r = classify_run(to_play, 0, to_play.len());
    assert(to_play@.subrange(0, to_play@.len() as int) =~= to_play@);
    r
}


/// The number of cards in the deck built from the numbers `1..=max`: all
/// pairs of distinct numbers, cut down to a multiple of four.
pub open spec fn deck_size(max: int) -> int {
    max * (max - 1) / 2 - (max * (max - 1) / 2) % 4
}

/// The pair that follows `c` in row-major order over the numbers `1..=max`.
pub open spec fn next_pair(max: u8, c: Card) -> Card {
    if c.second < max {
        Card { first: c.first, second: (c.second + 1) as u8 }
    } else {
        Card { first: (c.first + 1) as u8, second: (c.first + 2) as u8 }
    }
}

/// The `k`-th pair `(i, j)`, `1 <= i < j <= max`, in row-major order.
pub open spec fn deck_card(max: u8, k: nat) -> Card
    decreases k,
{
    if k == 0 {
        Card { first: 1, second: 2 }
    } else {
        next_pair(max, deck_card(max, (k - 1) as nat))
    }
}

/// The deck over the numbers `1..=max`: its first `deck_size(max)` pairs
/// in row-major order.
pub open spec fn deck_spec(max: u8) -> Seq<Card> {
    Seq::new(deck_size(max as int) as nat, |k: int| deck_card(max, k as nat))
}

/// How many pairs come before row `i`: those whose smaller number is
/// below `i`.
pub open spec fn rows_before(max: int, i: int) -> int
    decreases i,
{
    if i <= 1 {
        0
    } else {
        rows_before(max, i - 1) + (max - (i - 1))
    }
}

proof fn lemma_rows_before(max: int, i: int)
    requires
        i >= 1,
    ensures
        2 * rows_before(max, i) == 2 * (i - 1) * max - (i - 1) * i,
    decreases i,
{
    if i > 1 {
        lemma_rows_before(max, i - 1);
        assert(rows_before(max, i) == rows_before(max, i - 1) + (max - (i - 1)));
        assert(2 * (i - 2) * max - (i - 2) * (i - 1) + 2 * (max - (i - 1)) == 2 * (i - 1) * max - (i
            - 1) * i) by (nonlinear_arith);
    } else {
        assert(2 * (i - 1) * max - (i - 1) * i == 0) by (nonlinear_arith)
            requires
                i == 1,
        ;
    }
}

proof fn lemma_all_rows(max: int)
    requires
        max >= 1,
    ensures
        rows_before(max, max) == max * (max - 1) / 2,
{
    lemma_rows_before(max, max);
    assert(2 * (max - 1) * max - (max - 1) * max == max * (max - 1)) by (nonlinear_arith);
}

/// A number that orders cards row-major: by the smaller number, then the
/// larger.
pub open spec fn card_key(c: Card) -> int {
    c.first * 256 + c.second
}

/// The deck over the numbers `1..=max_num`: the pairs `(i, j)`,
/// `1 <= i < j <= max_num`, in row-major order, cut to the longest prefix
/// whose length is a multiple of four.
pub fn build_deck(max_num: u8) -> (deck: Vec<Card>)
    requires
        max_num >= 4,
    ensures
        deck@ == deck_spec(max_num),
        deck@.len() == deck_size(max_num as int),
        forall|k: int|
            0 <= k < deck@.len() ==> 1 <= (#[trigger] deck@[k]).first < deck@[k].second <= max_num,
        deck@.no_duplicates(),
{
    let n = max_num as usize;
    assert(n * (n - 1) <= 255 * 254) by (nonlinear_arith)
        requires
            n <= 255,
    ;
    let pairs = n * (n - 1) / 2;
    let total = pairs - pairs % 4;
    assert(pairs >= 6) by (nonlinear_arith)
        requires
            n >= 4,
            pairs == n * (n - 1) / 2,
    ;
    proof {
        lemma_all_rows(n as int);
    }
    let mut deck: Vec<Card> = Vec::new();
    let mut i: u8 = 1;
    let mut j: u8 = 2;
    let mut count: usize = 0;
    while count < total
        invariant
            total == deck_size(max_num as int),
            pairs == max_num * (max_num - 1) / 2,
            rows_before(max_num as int, max_num as int) == pairs,
            total <= pairs,
            count <= total,
            deck@.len() == count,
            forall|k: int| 0 <= k < count ==> #[trigger] deck@[k] == deck_card(max_num, k as nat),
            forall|k: int|
                0 <= k < count ==> 1 <= (#[trigger] deck@[k]).first < deck@[k].second <= max_num,
            count < total ==> (Card { first: i, second: j }) == deck_card(max_num, count as nat),
            count < total ==> 1 <= i < j <= max_num,
            count < total ==> count == rows_before(max_num as int, i as int) + (j - i - 1),
            forall|a: int, b: int| 0 <= a < b < count ==> card_key(deck@[a]) < card_key(deck@[b]),
            count < total ==> forall|a: int| 0 <= a < count ==> card_key(deck@[a]) < card_key(
                Card { first: i, second: j },
            ),
        decreases total - count,
    {
        deck.push(Card { first: i, second: j });
        count = count + 1;
        if count < total {
            if j < max_num {
                j = j + 1;
            } else {
                assert(count == rows_before(max_num as int, (i + 1) as int));
                assert(i + 1 < max_num);
                i = i + 1;
                j = i + 1;
            }
            assert(deck_card(max_num, count as nat) == next_pair(
                max_num,
                deck_card(max_num, (count - 1) as nat),
            ));
        }
    }
    assert(deck@ =~= deck_spec(max_num));
    assert forall|a: int, b: int| 0 <= a < deck@.len() && 0 <= b < deck@.len() && a != b implies deck@[a]
        != deck@[b] by {
        if a < b {
            assert(card_key(deck@[a]) < card_key(deck@[b]));
        } else {
            assert(card_key(deck@[b]) < card_key(deck@[a]));
        }
    }
    deck
}

/// A deck always splits into four equal parts.
pub proof fn lemma_deck_size_multiple_of_four(max_num: u8)
    requires
        max_num >= 4,
    ensures
        deck_size(max_num as int) % 4 == 0,
        deck_size(max_num as int) >= 4,
{
    let p = max_num * (max_num - 1) / 2;
    assert(p >= 6) by (nonlinear_arith)
        requires
            max_num >= 4,
            p == max_num * (max_num - 1) / 2,
    ;
    assert((p - p % 4) % 4 == 0);
}

} // verus!
