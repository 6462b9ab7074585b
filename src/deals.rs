//! The deal enumerator: every way to split cards between the two players,
//! in every order and with every orientation.

use vstd::prelude::*;
use vstd::arithmetic::div_mod::{lemma_div_denominator, lemma_fundamental_div_mod_converse};
use vstd::arithmetic::power2::{lemma_pow2_pos, lemma_pow2_unfold, pow2};

use itertools::{Combinations, Itertools};

use crate::cards::{Card, Orientation, OrientedCard};

verus! {

/// `order` lists each index below `n` exactly once.
pub open spec fn is_ordering(order: Seq<usize>, n: nat) -> bool {
    &&& order.len() == n
    &&& forall|i: int| 0 <= i < n ==> #[trigger] order[i] < n
    &&& forall|i: int, j: int| 0 <= i < j < n ==> order[i] != order[j]
}

/// `a` comes before `b` in lexicographic order.
pub open spec fn lex_before(a: Seq<usize>, b: Seq<usize>) -> bool {
    exists|i: int|
        0 <= i < a.len() && i < b.len() && a.subrange(0, i) == b.subrange(0, i) && #[trigger] a[i]
            < b[i]
}

/// Every ordering of the indices below `n`, as itertools' `permutations`
/// yields them.
pub uninterp spec fn index_orderings(n: nat) -> Seq<Seq<usize>>;

/// Relies on itertools' `Itertools::permutations` with `k == n` on `0..n`:
/// it yields every ordering of the indices, each once, in lexicographic
/// order.
#[verifier::external_body]
fn orderings(n: usize) -> (r: Vec<Vec<usize>>)
    ensures
        r.deep_view() == index_orderings(n as nat),
        forall|i: int| 0 <= i < r@.len() ==> is_ordering(#[trigger] r.deep_view()[i], n as nat),
        forall|o: Seq<usize>| is_ordering(o, n as nat) ==> r.deep_view().contains(o),
        forall|i: int, j: int|
            0 <= i < j < r@.len() ==> lex_before(#[trigger] r.deep_view()[i], #[trigger] r.deep_view()[j]),
{
    (0..n).permutations(n).collect()
}

/// The face that bit `i` of `bits` gives a card: larger when the bit is
/// set.
pub open spec fn face_for(bits: int, i: int) -> Orientation {
    if (bits / pow2(i as nat) as int) % 2 == 1 {
        Orientation::Larger
    } else {
        Orientation::Smaller
    }
}

/// The hand that holds `cards[order[0]], cards[order[1]], ...`, the `i`-th
/// card facing as bit `i` of `bits` says.
pub open spec fn arrangement(cards: Seq<Card>, order: Seq<usize>, bits: int) -> Seq<OrientedCard> {
    Seq::new(
        order.len(),
        |i: int| OrientedCard { card: cards[order[i] as int], orientation: face_for(bits, i) },
    )
}

/// Every hand made of all of `cards`: each ordering of the cards, in the
/// order itertools yields them, with each of the `2^n` orientation
/// patterns, the patterns counting up.
pub open spec fn hand_list(cards: Seq<Card>) -> Seq<Seq<OrientedCard>> {
    let orders = index_orderings(cards.len());
    let m = pow2(cards.len()) as int;
    Seq::new(
        (orders.len() * m) as nat,
        |j: int| arrangement(cards, orders[j / m], j % m),
    )
}

/// The values of a sequence of hands.
pub open spec fn hand_views(hands: Seq<Vec<OrientedCard>>) -> Seq<Seq<OrientedCard>> {
    hands.map_values(|h: Vec<OrientedCard>| h@)
}

fn arrange(cards: &Vec<Card>, order: &Vec<usize>, bits: u32) -> (r: Vec<OrientedCard>)
    requires
        forall|i: int| 0 <= i < order@.len() ==> #[trigger] order@[i] < cards@.len(),
    ensures
        r@ == arrangement(cards@, order@, bits as int),
{
    let mut hand: Vec<OrientedCard> = Vec::new();
    let mut rest: u32 = bits;
    let mut i: usize = 0;
    proof {
        vstd::arithmetic::power2::lemma2_to64();
    }
    while i < order.len()
        invariant
            i <= order@.len(),
            forall|k: int| 0 <= k < order@.len() ==> #[trigger] order@[k] < cards@.len(),
            rest as int == bits as int / pow2(i as nat) as int,
            hand@ == arrangement(cards@, order@, bits as int).subrange(0, i as int),
        decreases order@.len() - i,
    {
        let orientation = if rest % 2 == 1 {
            Orientation::Larger
        } else {
            Orientation::Smaller
        };
        hand.push(OrientedCard { card: cards[order[i]], orientation });
        proof {
            lemma_pow2_pos(i as nat);
            lemma_pow2_unfold((i + 1) as nat);
            lemma_div_denominator(bits as int, pow2(i as nat) as int, 2);
        }
        rest = rest / 2;
        i = i + 1;
        assert(hand@ =~= arrangement(cards@, order@, bits as int).subrange(0, i as int));
    }
    assert(hand@ =~= arrangement(cards@, order@, bits as int));
    hand
}

/// Every hand that holds all of the given cards, in every order and with
/// every orientation.
pub fn uu_cards_to_hands(uu_cards: &Vec<Card>) -> (r: Vec<Vec<OrientedCard>>)
    requires
        uu_cards@.len() < 32,
    ensures
        hand_views(r@) == hand_list(uu_cards@),
{
    let n = uu_cards.len();
    let orders = orderings(n);
    let mut m: u32 = 1;
    let mut e: usize = 0;
    proof {
        vstd::arithmetic::power2::lemma2_to64();
    }
    while e < n
        invariant
            e <= n < 32,
            m as int == pow2(e as nat),
        decreases n - e,
    {
        proof {
            lemma_pow2_unfold((e + 1) as nat);
            vstd::arithmetic::power2::lemma_pow2_strictly_increases((e + 1) as nat, 32);
            vstd::arithmetic::power2::lemma2_to64();
        }
        m = m * 2;
        e = e + 1;
    }
    proof {
        lemma_pow2_pos(n as nat);
    }
    let ghost orders_v = orders.deep_view();
    let ghost target = hand_list(uu_cards@);
    let mut hands: Vec<Vec<OrientedCard>> = Vec::new();
    let mut p: usize = 0;
    while p < orders.len()
        invariant
            orders_v == orders.deep_view(),
            orders_v == index_orderings(n as nat),
            forall|i: int| 0 <= i < orders@.len() ==> is_ordering(#[trigger] orders_v[i], n as nat),
            n == uu_cards@.len(),
            m as int == pow2(n as nat),
            m > 0,
            target == hand_list(uu_cards@),
            p <= orders@.len(),
            hands@.len() == p * m,
            forall|j: int| 0 <= j < hands@.len() ==> #[trigger] hands@[j]@ == target[j],
        decreases orders@.len() - p,
    {
        let mut bits: u32 = 0;
        while bits < m
            invariant
                orders_v == orders.deep_view(),
                orders_v == index_orderings(n as nat),
                forall|i: int| 0 <= i < orders@.len() ==> is_ordering(#[trigger] orders_v[i], n as nat),
                n == uu_cards@.len(),
                m as int == pow2(n as nat),
                m > 0,
                target == hand_list(uu_cards@),
                p < orders@.len(),
                bits <= m,
                hands@.len() == p * m + bits,
                forall|j: int| 0 <= j < hands@.len() ==> #[trigger] hands@[j]@ == target[j],
            decreases m - bits,
        {
            assert(is_ordering(orders_v[p as int], n as nat));
            assert(orders[p as int]@ == orders_v[p as int]);
            let hand = arrange(uu_cards, &orders[p], bits);
            let ghost j = p * m + bits;
            proof {
                lemma_fundamental_div_mod_converse(j, m as int, p as int, bits as int);
                assert(j < orders_v.len() * m) by (nonlinear_arith)
                    requires
                        j == p * m + bits,
                        bits < m,
                        p < orders_v.len(),
                ;
            }
            hands.push(hand);
            bits = bits + 1;
        }
        assert(hands@.len() == (p + 1) * m) by (nonlinear_arith)
            requires
                hands@.len() == p * m + m,
        ;
        p = p + 1;
    }
    assert(hand_views(hands@) =~= target);
    hands
}


#[verifier::external_type_specification]
#[verifier::external_body]
#[verifier::reject_recursive_types(I)]
pub struct ExCombinations<I: Iterator>(Combinations<I>);

/// `subset` lists `k` indices below `n` in increasing order.
pub open spec fn is_index_subset(subset: Seq<usize>, n: nat, k: nat) -> bool {
    &&& subset.len() == k
    &&& forall|i: int| 0 <= i < k ==> #[trigger] subset[i] < n
    &&& forall|i: int, j: int| 0 <= i < j < k ==> subset[i] < subset[j]
}

/// Every choice of `k` indices below `n`, as itertools' `combinations`
/// yields them.
pub uninterp spec fn index_subsets(n: nat, k: nat) -> Seq<Seq<usize>>;

/// The choices that an itertools `Combinations` iterator has yet to yield.
pub uninterp spec fn subsets_left(it: Combinations<core::ops::Range<usize>>) -> Seq<Seq<usize>>;

/// Relies on itertools' `Itertools::combinations` on `0..n`: the iterator
/// will yield every increasing choice of `k` indices below `n`, each once,
/// in lexicographic order.
#[verifier::external_body]
fn start_subsets(n: usize, k: usize) -> (r: Combinations<core::ops::Range<usize>>)
    ensures
        subsets_left(r) == index_subsets(n as nat, k as nat),
        forall|i: int|
            0 <= i < subsets_left(r).len() ==> is_index_subset(
                #[trigger] subsets_left(r)[i],
                n as nat,
                k as nat,
            ),
        forall|s: Seq<usize>| is_index_subset(s, n as nat, k as nat) ==> subsets_left(r).contains(s),
        forall|i: int, j: int|
            0 <= i < j < subsets_left(r).len() ==> lex_before(
                #[trigger] subsets_left(r)[i],
                #[trigger] subsets_left(r)[j],
            ),
{
    (0..n).combinations(k)
}

/// Relies on `Iterator::next` of itertools' `Combinations`: it hands out
/// the choices in turn, and nothing once they are all out.
#[verifier::external_body]
fn next_subset(it: &mut Combinations<core::ops::Range<usize>>) -> (r: Option<Vec<usize>>)
    ensures
        subsets_left(*old(it)).len() == 0 ==> r is None && subsets_left(*final(it)) == subsets_left(*old(it)),
        subsets_left(*old(it)).len() > 0 ==> r is Some && r.unwrap()@ == subsets_left(*old(it))[0]
            && subsets_left(*final(it)) == subsets_left(*old(it)).drop_first(),
{
    it.next()
}


/// A pair of hands, one for each player.
pub type Deal = (Vec<OrientedCard>, Vec<OrientedCard>);

/// The values of a sequence of deals.
pub open spec fn deal_views(deals: Seq<Deal>) -> Seq<(Seq<OrientedCard>, Seq<OrientedCard>)> {
    deals.map_values(|d: Deal| (d.0@, d.1@))
}

/// The cards at the chosen indices.
pub open spec fn chosen_cards(cards: Seq<Card>, subset: Seq<usize>) -> Seq<Card> {
    subset.map_values(|i: usize| cards[i as int])
}

/// The cards that are not among `taken`, in their order.
pub open spec fn other_cards(cards: Seq<Card>, taken: Seq<Card>) -> Seq<Card> {
    cards.filter(|c: Card| !taken.contains(c))
}

/// Every pair of an item of `xs` with an item of `ys`, ordered by the item
/// of `xs` first.
pub open spec fn pairs_of(xs: Seq<Seq<OrientedCard>>, ys: Seq<Seq<OrientedCard>>) -> Seq<
    (Seq<OrientedCard>, Seq<OrientedCard>),
> {
    Seq::new((xs.len() * ys.len()) as nat, |j: int| (xs[j / ys.len() as int], ys[j % ys.len() as int]))
}

/// The deals in which player one's cards are the chosen ones and player
/// two's the others: every hand of the first with every hand of the
/// second.
pub open spec fn deals_for(cards: Seq<Card>, subset: Seq<usize>) -> Seq<
    (Seq<OrientedCard>, Seq<OrientedCard>),
> {
    let mine = chosen_cards(cards, subset);
    pairs_of(hand_list(mine), hand_list(other_cards(cards, mine)))
}

/// The deals for the choices `subsets[a..]`, one choice after another.
pub open spec fn deals_from(cards: Seq<Card>, subsets: Seq<Seq<usize>>, a: int) -> Seq<
    (Seq<OrientedCard>, Seq<OrientedCard>),
>
    decreases subsets.len() - a,
{
    if a < 0 || a >= subsets.len() {
        Seq::empty()
    } else {
        deals_for(cards, subsets[a]) + deals_from(cards, subsets, a + 1)
    }
}

/// Every deal of `cards` between two players: for each choice of half of
/// the cards for player one, in itertools' order, every hand of those cards
/// against every hand of the rest.
pub open spec fn oriented_deals(cards: Seq<Card>) -> Seq<(Seq<OrientedCard>, Seq<OrientedCard>)> {
    deals_from(cards, index_subsets(cards.len(), cards.len() / 2), 0)
}

fn pick_cards(cards: &Vec<Card>, subset: &Vec<usize>) -> (r: Vec<Card>)
    requires
        forall|i: int| 0 <= i < subset@.len() ==> #[trigger] subset@[i] < cards@.len(),
    ensures
        r@ == chosen_cards(cards@, subset@),
{
    let mut picked: Vec<Card> = Vec::new();
    let mut i: usize = 0;
    while i < subset.len()
        invariant
            i <= subset@.len(),
            forall|k: int| 0 <= k < subset@.len() ==> #[trigger] subset@[k] < cards@.len(),
            picked@ == chosen_cards(cards@, subset@).subrange(0, i as int),
        decreases subset@.len() - i,
    {
        picked.push(cards[subset[i]]);
        i = i + 1;
        assert(picked@ =~= chosen_cards(cards@, subset@).subrange(0, i as int));
    }
    assert(picked@ =~= chosen_cards(cards@, subset@));
    picked
}

fn holds_card(cards: &Vec<Card>, card: Card) -> (r: bool)
    ensures
        r == cards@.contains(card),
{
    let mut i: usize = 0;
    while i < cards.len()
        invariant
            i <= cards@.len(),
            forall|k: int| 0 <= k < i ==> cards@[k] != card,
        decreases cards@.len() - i,
    {
        if cards[i] == card {
            return true;
        }
        i = i + 1;
    }
    false
}

fn leave_out(cards: &Vec<Card>, taken: &Vec<Card>) -> (r: Vec<Card>)
    ensures
        r@ == other_cards(cards@, taken@),
        r@.len() <= cards@.len(),
{
    let ghost pred = |c: Card| !taken@.contains(c);
    let mut kept: Vec<Card> = Vec::new();
    let mut i: usize = 0;
    while i < cards.len()
        invariant
            i <= cards@.len(),
            pred == (|c: Card| !taken@.contains(c)),
            kept@ == cards@.subrange(0, i as int).filter(pred),
        decreases cards@.len() - i,
    {
        let c = cards[i];
        proof {
            reveal(Seq::filter);
            assert(cards@.subrange(0, i + 1).drop_last() =~= cards@.subrange(0, i as int));
        }
        if !holds_card(taken, c) {
            kept.push(c);
        }
        i = i + 1;
    }
    assert(cards@.subrange(0, i as int) =~= cards@);
    proof {
        cards@.lemma_filter_len(pred);
    }
    kept
}

/// Every deal of the given cards between two players with half of the
/// cards each: for each choice of player one's cards, every hand that
/// player can hold against every hand of the cards left over.
pub fn build_oriented_hands(unoriented_unordered_cards: &Vec<Card>) -> (r: Vec<Deal>)
    requires
        unoriented_unordered_cards@.len() % 2 == 0,
        unoriented_unordered_cards@.len() < 32,
    ensures
        deal_views(r@) == oriented_deals(unoriented_unordered_cards@),
{
    let cards = unoriented_unordered_cards;
    let n = cards.len();
    let cards_per_player = n / 2;
    let mut subsets = start_subsets(n, cards_per_player);
    let ghost all = subsets_left(subsets);
    let ghost target = oriented_deals(cards@);
    let mut deals: Vec<Deal> = Vec::new();
    assert(deal_views(deals@) + deals_from(cards@, all, 0) =~= target);
    loop
        invariant
            n == cards@.len() < 32,
            cards_per_player == n / 2,
            all == index_subsets(n as nat, cards_per_player as nat),
            target == oriented_deals(cards@),
            forall|i: int| 0 <= i < all.len() ==> is_index_subset(#[trigger] all[i], n as nat, cards_per_player as nat),
            all.len() >= subsets_left(subsets).len(),
            subsets_left(subsets) == all.subrange(all.len() - subsets_left(subsets).len(), all.len() as int),
            deal_views(deals@) + deals_from(cards@, all, all.len() - subsets_left(subsets).len()) == target,
        ensures
            deal_views(deals@) == target,
        decreases subsets_left(subsets).len(),
    {
        let ghost done = all.len() - subsets_left(subsets).len();
        let next = next_subset(&mut subsets);
        match next {
            None => {
                assert(deals_from(cards@, all, done) =~= Seq::empty());
                assert(deal_views(deals@) =~= target);
                break;
            },
            Some(subset) => {
                assert(subset@ == all[done]);
                assert(is_index_subset(all[done], n as nat, cards_per_player as nat));
                let mine = pick_cards(cards, &subset);
                let theirs = leave_out(cards, &mine);
                let my_hands = uu_cards_to_hands(&mine);
                let their_hands = uu_cards_to_hands(&theirs);
                let ghost before = deal_views(deals@);
                let ghost xs = hand_views(my_hands@);
                let ghost ys = hand_views(their_hands@);
                assert(deals_for(cards@, all[done]) == pairs_of(xs, ys));
                let mut a: usize = 0;
                while a < my_hands.len()
                    invariant
                        a <= my_hands@.len(),
                        xs == hand_views(my_hands@),
                        ys == hand_views(their_hands@),
                        deal_views(deals@).len() == before.len() + a * ys.len(),
                        deal_views(deals@).subrange(0, before.len() as int) == before,
                        forall|j: int| 0 <= j < a * ys.len() ==> #[trigger] deal_views(deals@)[before.len() + j] == pairs_of(xs, ys)[j],
                    decreases my_hands@.len() - a,
                {
                    let mut b: usize = 0;
                    while b < their_hands.len()
                        invariant
                            a < my_hands@.len(),
                            b <= their_hands@.len(),
                            xs == hand_views(my_hands@),
                            ys == hand_views(their_hands@),
                            deal_views(deals@).len() == before.len() + a * ys.len() + b,
                            deal_views(deals@).subrange(0, before.len() as int) == before,
                            forall|j: int| 0 <= j < a * ys.len() + b ==> #[trigger] deal_views(deals@)[before.len() + j] == pairs_of(xs, ys)[j],
                        decreases their_hands@.len() - b,
                    {
                        let first = crate::engine::copy_cards(my_hands[a].as_slice());
                        let second = crate::engine::copy_cards(their_hands[b].as_slice());
                        let ghost j = a * ys.len() + b;
                        proof {
                            lemma_fundamental_div_mod_converse(j, ys.len() as int, a as int, b as int);
                            assert(j < xs.len() * ys.len()) by (nonlinear_arith)
                                requires
                                    j == a * ys.len() + b,
                                    b < ys.len(),
                                    a < xs.len(),
                            ;
                        }
                        let ghost old_views = deal_views(deals@);
                        deals.push((first, second));
                        assert(deal_views(deals@) =~= old_views.push((first@, second@)));
                        assert(deal_views(deals@)[before.len() + j] == pairs_of(xs, ys)[j]);
                        assert(deal_views(deals@).subrange(0, before.len() as int) =~= before);
                        b = b + 1;
                    }
                    assert(a * ys.len() + ys.len() == (a + 1) * ys.len()) by (nonlinear_arith);
                    a = a + 1;
                }
                assert forall|i: int| 0 <= i < deal_views(deals@).len() implies deal_views(deals@)[i] == (before + pairs_of(xs, ys))[i] by {
                    if i >= before.len() {
                        let j = i - before.len();
                        assert(deal_views(deals@)[before.len() + j] == pairs_of(xs, ys)[j]);
                    } else {
                        assert(deal_views(deals@).subrange(0, before.len() as int)[i] == before[i]);
                    }
                }
                assert(deal_views(deals@) =~= before + pairs_of(xs, ys));
                assert(all.subrange(all.len() - subsets_left(subsets).len(), all.len() as int) =~= subsets_left(subsets));
            },
        }
    }
    deals
}


/// The deals for each choice `subsets[a..]` of the deck's cards that go to
/// the two players, one choice after another.
pub open spec fn deals_of_choices(deck: Seq<Card>, subsets: Seq<Seq<usize>>, a: int) -> Seq<
    (Seq<OrientedCard>, Seq<OrientedCard>),
>
    decreases subsets.len() - a,
{
    if a < 0 || a >= subsets.len() {
        Seq::empty()
    } else {
        oriented_deals(chosen_cards(deck, subsets[a])) + deals_of_choices(deck, subsets, a + 1)
    }
}

/// Every deal of a deck: for each choice of the half of the deck that is
/// dealt, in itertools' order, every deal of those cards between the two
/// players.
pub open spec fn deck_deals(deck: Seq<Card>) -> Seq<(Seq<OrientedCard>, Seq<OrientedCard>)> {
    deals_of_choices(deck, index_subsets(deck.len(), deck.len() / 4 * 2), 0)
}

fn copy_deck(deck: &Vec<Card>) -> (r: Vec<Card>)
    ensures
        r@ == deck@,
{
    let mut copy: Vec<Card> = Vec::new();
    let mut i: usize = 0;
    while i < deck.len()
        invariant
            i <= deck@.len(),
            copy@ == deck@.subrange(0, i as int),
        decreases deck@.len() - i,
    {
        copy.push(deck[i]);
        i = i + 1;
        assert(copy@ =~= deck@.subrange(0, i as int));
    }
    assert(deck@.subrange(0, i as int) =~= deck@);
    copy
}

/// A lazy walk over every deal of a deck, one choice of dealt cards at a
/// time.
pub struct HandIter {
    deck: Vec<Card>,
    subsets: Combinations<core::ops::Range<usize>>,
    hands: Vec<Deal>,
    hand_idx: usize,
}

impl HandIter {
    /// The walk's own bookkeeping is consistent.
    pub closed spec fn inv(&self) -> bool {
        let n = self.deck@.len();
        &&& n / 2 < 32
        &&& self.hand_idx <= self.hands@.len()
        &&& forall|i: int|
            0 <= i < subsets_left(self.subsets).len() ==> is_index_subset(
                #[trigger] subsets_left(self.subsets)[i],
                n,
                n / 4 * 2,
            )
    }

    /// The deals that the walk has yet to hand out.
    pub closed spec fn remaining(&self) -> Seq<(Seq<OrientedCard>, Seq<OrientedCard>)> {
        deal_views(self.hands@).subrange(self.hand_idx as int, self.hands@.len() as int)
            + deals_of_choices(self.deck@, subsets_left(self.subsets), 0)
    }

    /// A walk over every deal of `deck`.
    pub fn new(deck: &Vec<Card>) -> (r: HandIter)
        requires
            deck@.len() / 2 < 32,
        ensures
            r.inv(),
            r.remaining() == deck_deals(deck@),
    {
        let cards_per_player = deck.len() / 4;
        let subsets = start_subsets(deck.len(), cards_per_player * 2);
        let r = HandIter { deck: copy_deck(deck), subsets, hands: Vec::new(), hand_idx: 0 };
        assert(r.remaining() =~= deck_deals(deck@));
        r
    }

    /// The next deal, if any is left.
    pub fn next(&mut self) -> (r: Option<Deal>)
        requires
            old(self).inv(),
        ensures
            final(self).inv(),
            old(self).remaining().len() == 0 ==> r is None,
            old(self).remaining().len() > 0 ==> r is Some && (r.unwrap().0@, r.unwrap().1@) == old(
                self,
            ).remaining()[0] && final(self).remaining() == old(self).remaining().drop_first(),
    {
        let ghost start = self.remaining();
        assert(start == old(self).remaining());
        while self.hand_idx == self.hands.len()
            invariant
                self.inv(),
                self.remaining() == start,
                start == old(self).remaining(),
            decreases subsets_left(self.subsets).len(),
        {
            let ghost left = subsets_left(self.subsets);
            match next_subset(&mut self.subsets) {
                None => {
                    assert(deal_views(self.hands@).subrange(self.hand_idx as int, self.hands@.len() as int) =~= Seq::empty());
                    assert(start =~= Seq::empty());
                    return None;
                },
                Some(subset) => {
                    assert(is_index_subset(left[0], self.deck@.len(), self.deck@.len() / 4 * 2));
                    let cards = pick_cards(&self.deck, &subset);
                    self.hands = build_oriented_hands(&cards);
                    self.hand_idx = 0;
                    assert(deals_of_choices(self.deck@, left, 0) =~= oriented_deals(chosen_cards(self.deck@, left[0]))
                        + deals_of_choices(self.deck@, left.drop_first(), 0)) by {
                        lemma_deals_of_choices_shift(self.deck@, left);
                    }
                    assert(deal_views(self.hands@).subrange(0, self.hands@.len() as int) =~= deal_views(self.hands@));
                },
            }
        }
        let i = self.hand_idx;
        let d = (crate::engine::copy_cards(self.hands[i].0.as_slice()), crate::engine::copy_cards(self.hands[i].1.as_slice()));
        self.hand_idx = i + 1;
        assert(self.remaining() =~= start.drop_first());
        Some(d)
    }
}

proof fn lemma_deals_of_choices_shift(deck: Seq<Card>, subsets: Seq<Seq<usize>>)
    requires
        subsets.len() > 0,
    ensures
        deals_of_choices(deck, subsets, 0) == oriented_deals(chosen_cards(deck, subsets[0]))
            + deals_of_choices(deck, subsets.drop_first(), 0),
{
    assert forall|a: int| 0 <= a <= subsets.drop_first().len() implies #[trigger] deals_of_choices(deck, subsets.drop_first(), a) == deals_of_choices(deck, subsets, a + 1) by {
        lemma_deals_of_choices_tail(deck, subsets, a);
    }
}

proof fn lemma_deals_of_choices_tail(deck: Seq<Card>, subsets: Seq<Seq<usize>>, a: int)
    requires
        subsets.len() > 0,
        0 <= a <= subsets.len() - 1,
    ensures
        deals_of_choices(deck, subsets.drop_first(), a) == deals_of_choices(deck, subsets, a + 1),
    decreases subsets.len() - a,
{
    if a < subsets.len() - 1 {
        lemma_deals_of_choices_tail(deck, subsets, a + 1);
    }
}

} // verus!
