//! The groups of cards that a hand holds: single cards, pairs, threes and
//! fours of a kind, two pairs and full houses. The ways to pick the cards of
//! a group come from the `combinations` crate.

use crate::game::hand::{copy_cards, join_cards, Card, Hand, HandType};
use crate::game::ranking::{is_hand, valid_cards, valid_rank};
use crate::game::selection::{
    found_shaped, group_value, is_group, left_out, lemma_pick_injective, pick, pick_cards, picks,
    positions, rest_of, same_rank, selections, shaped, top_value, top_value_prefix, tops,
    value_sum, value_sum_prefix,
};
use vstd::prelude::*;

verus! {

/// A copy of the positions.
fn copy_positions(s: &Vec<usize>) -> (copy: Vec<usize>)
    ensures
        copy@ == s@,
{
    let mut copy: Vec<usize> = Vec::new();
    let mut i: usize = 0;
    while i < s.len()
        invariant
            i <= s.len(),
            copy@ == s@.take(i as int),
        decreases s.len() - i,
    {
        copy.push(s[i]);
        i += 1;
    }
    assert(s@.take(s.len() as int) == s@);
    copy
}

/// Whether all cards have the rank of the first.
fn all_same_value(cards: &Vec<Card>) -> (same: bool)
    ensures
        same == same_rank(cards@),
{
    let mut i: usize = 1;
    while i < cards.len()
        invariant
            1 <= i,
            forall|j: int| 0 <= j < i && j < cards.len() ==> (#[trigger] cards[j]).value
                == cards[0].value,
        decreases cards.len() - i,
    {
        if cards[i].value != cards[0].value {
            return false;
        }
        i += 1;
    }
    true
}

/// The highest rank among the cards.
fn highest_value(cards: &Vec<Card>) -> (top: i32)
    ensures
        top == top_value(cards@),
{
    let mut top: i32 = i32::MIN;
    let mut i: usize = 0;
    while i < cards.len()
        invariant
            i <= cards.len(),
            top == top_value_prefix(cards@, i as int),
        decreases cards.len() - i,
    {
        if cards[i].value > top {
            top = cards[i].value;
        }
        i += 1;
    }
    top
}

/// The sum of the ranks of the cards.
fn sum_values(cards: &Vec<Card>) -> (sum: i32)
    requires
        cards.len() <= 10,
        valid_cards(cards@),
    ensures
        sum == value_sum(cards@),
{
    let mut sum: i32 = 0;
    let mut i: usize = 0;
    while i < cards.len()
        invariant
            i <= cards.len() <= 10,
            valid_cards(cards@),
            0 <= sum <= 14 * i,
            sum == value_sum_prefix(cards@, i as int),
        decreases cards.len() - i,
    {
        assert(valid_rank(cards[i as int].value as int));
        sum += cards[i].value;
        i += 1;
    }
    sum
}

/// The groups, the value of the best of them and the best, which is the last
/// of those that hold the highest card; nothing where there is no group.
fn with_best(groups: Vec<Vec<Card>>, shape: HandType) -> (found: Option<
    (Vec<Vec<Card>>, i32, Vec<Card>),
>)
    requires
        forall|g: int|
            0 <= g < groups.len() ==> 1 <= (#[trigger] groups[g]).len() <= 10 && valid_cards(
                groups[g]@,
            ),
    ensures
        found is None <==> groups.len() == 0,
        found matches Some((all, value, best)) ==> all@ == groups@ && tops(all@, best@) && value
            == group_value(shape, best@),
{
    if groups.len() == 0 {
        return None;
    }
    let mut b: usize = 0;
    let mut top: i32 = highest_value(&groups[0]);
    let mut g: usize = 1;
    while g < groups.len()
        invariant
            1 <= g <= groups.len(),
            b < g,
            top == top_value(groups[b as int]@),
            forall|h: int| 0 <= h < g ==> top_value(#[trigger] groups[h]@) <= top,
        decreases groups.len() - g,
    {
        let here = highest_value(&groups[g]);
        if here >= top {
            top = here;
            b = g;
        }
        g += 1;
    }
    let best = copy_cards(&groups[b]);
    let value = match shape {
        HandType::HighCard | HandType::Pair => best[0].value,
        _ => sum_values(&best),
    };
    assert(groups[b as int]@ == best@);
    Some((groups, value, best))
}

/// Marks a first and a second pair, by their places among the pairs found.
spec fn ordered_pair(x: int, y: int) -> bool {
    true
}

/// Whether `i` is among the positions.
fn holds_position(s: &Vec<usize>, i: usize) -> (found: bool)
    ensures
        found == s@.contains(i),
{
    let mut j: usize = 0;
    while j < s.len()
        invariant
            j <= s.len(),
            forall|h: int| 0 <= h < j ==> s[h] != i,
        decreases s.len() - j,
    {
        if s[j] == i {
            return true;
        }
        j += 1;
    }
    false
}

/// The positions below `n` that `s` does not pick, in ascending order.
fn positions_left(s: &Vec<usize>, n: usize) -> (rest: Vec<usize>)
    ensures
        rest@ == rest_of(s@, n as nat),
        rest.len() <= n,
        forall|j: int| 0 <= j < rest.len() ==> #[trigger] rest[j] < n,
{
    let mut rest: Vec<usize> = Vec::new();
    let mut i: usize = 0;
    proof {
        reveal(Seq::filter);
        assert(positions(n as nat).take(0).filter(left_out(s@)) == Seq::<usize>::empty());
    }
    while i < n
        invariant
            i <= n,
            rest.len() <= i,
            rest@ == positions(n as nat).take(i as int).filter(left_out(s@)),
            forall|j: int| 0 <= j < rest.len() ==> #[trigger] rest[j] < n,
        decreases n - i,
    {
        proof {
            reveal(Seq::filter);
            let all = positions(n as nat);
            assert(all.take(i + 1).drop_last() == all.take(i as int));
            assert(all.take(i + 1).last() == i);
        }
        if !holds_position(s, i) {
            rest.push(i);
        }
        i += 1;
    }
    assert(positions(n as nat).take(n as int) == positions(n as nat));
    rest
}

impl Hand {
    /// Every way to pick `k` cards of one rank, by their positions.
    fn rank_groups(&self, k: usize) -> (groups: Vec<Vec<usize>>)
        requires
            1 <= k < self@.len(),
        ensures
            forall|g: int|
                0 <= g < groups.len() ==> is_group(self@, #[trigger] groups[g]@, k as nat),
            forall|s: Seq<usize>| #[trigger]
                is_group(self@, s, k as nat) ==> exists|g: int|
                    0 <= g < groups.len() && #[trigger] groups[g]@ == s,
            forall|g: int, h: int|
                0 <= g < h < groups.len() ==> #[trigger] groups[g]@ != #[trigger] groups[h]@,
    {
        let all = selections(self.cards.len(), k);
        let mut groups: Vec<Vec<usize>> = Vec::new();
        let mut a: usize = 0;
        while a < all.len()
            invariant
                a <= all.len(),
                forall|c: int|
                    0 <= c < all.len() ==> picks(
                        #[trigger] all[c]@,
                        self.cards@.len(),
                        k as nat,
                    ),
                forall|c: int, d: int|
                    0 <= c < d < all.len() ==> #[trigger] all[c]@ != #[trigger] all[d]@,
                forall|g: int|
                    0 <= g < groups.len() ==> is_group(
                        self.cards@,
                        #[trigger] groups[g]@,
                        k as nat,
                    ),
                forall|g: int|
                    0 <= g < groups.len() ==> exists|c: int|
                        0 <= c < a && #[trigger] all[c]@ == #[trigger] groups[g]@,
                forall|c: int|
                    0 <= c < a && is_group(self.cards@, #[trigger] all[c]@, k as nat)
                        ==> exists|g: int| 0 <= g < groups.len()
                            && #[trigger] groups[g]@ == all[c]@,
                forall|g: int, h: int|
                    0 <= g < h < groups.len() ==> #[trigger] groups[g]@ != #[trigger] groups[h]@,
            decreases all.len() - a,
        {
            assert(picks(all[a as int]@, self.cards@.len(), k as nat));
            let picked = pick_cards(&self.cards, &all[a]);
            let ghost before = groups@;
            if all_same_value(&picked) {
                let copy = copy_positions(&all[a]);
                groups.push(copy);
                proof {
                    let last = before.len() as int;
                    assert(groups[last]@ == all[a as int]@);
                    assert forall|g: int| 0 <= g < groups.len() implies exists|c: int|
                        0 <= c < a + 1 && #[trigger] all[c]@ == #[trigger] groups[g]@ by {
                        if g < last {
                            assert(groups[g] == before[g]);
                            let c = choose|c: int| 0 <= c < a && #[trigger] all[c]@ == before[g]@;
                            assert(all[c]@ == groups[g]@);
                        } else {
                            assert(all[a as int]@ == groups[g]@);
                        }
                    }
                    assert forall|g: int, h: int| 0 <= g < h < groups.len() implies #[trigger]
                        groups[g]@ != #[trigger] groups[h]@ by {
                        assert(groups[g] == before[g]);
                        if h < last {
                            assert(groups[h] == before[h]);
                        } else {
                            let c = choose|c: int| 0 <= c < a && #[trigger] all[c]@ == before[g]@;
                            assert(all[c]@ != all[a as int]@);
                        }
                    }
                    assert forall|c: int|
                        0 <= c < a + 1 && is_group(
                            self.cards@,
                            #[trigger] all[c]@,
                            k as nat,
                        ) implies exists|g: int|
                        0 <= g < groups.len() && #[trigger] groups[g]@ == all[c]@ by {
                        if c < a {
                            let g = choose|g: int|
                                0 <= g < before.len() && #[trigger] before[g]@ == all[c]@;
                            assert(groups[g] == before[g]);
                            assert(groups[g]@ == all[c]@);
                        } else {
                            assert(groups[last]@ == all[c]@);
                        }
                    }
                    assert forall|g: int| 0 <= g < groups.len() implies is_group(
                        self.cards@,
                        #[trigger] groups[g]@,
                        k as nat,
                    ) by {
                        if g < last {
                            assert(groups[g] == before[g]);
                        }
                    }
                }
            } else {
                proof {
                    assert forall|g: int| 0 <= g < groups.len() implies exists|c: int|
                        0 <= c < a + 1 && #[trigger] all[c]@ == #[trigger] groups[g]@ by {
                        let c = choose|c: int| 0 <= c < a && #[trigger] all[c]@ == groups[g]@;
                        assert(all[c]@ == groups[g]@);
                    }
                }
            }
            a += 1;
        }
        proof {
            assert forall|s: Seq<usize>| #[trigger]
                is_group(self@, s, k as nat) implies exists|g: int|
                0 <= g < groups.len() && #[trigger] groups[g]@ == s by {
                assert(picks(s, self.cards@.len(), k as nat));
                let c = choose|c: int| 0 <= c < all.len() && #[trigger] all[c]@ == s;
                assert(is_group(self.cards@, all[c]@, k as nat));
            }
        }
        groups
    }

    /// The groups of `k` cards of one rank.
    fn check_of_a_kind(&self, k: usize, shape: HandType) -> (found: Option<
        (Vec<Vec<Card>>, i32, Vec<Card>),
    >)
        requires
            self.wf(),
            (k == 2 && shape == HandType::Pair) || (k == 3 && shape == HandType::ThreeOfAKind) || (k
                == 4 && shape == HandType::FourOfAKind),
        ensures
            found_shaped(self@, shape, found),
    {
        let sel = self.rank_groups(k);
        let mut groups: Vec<Vec<Card>> = Vec::new();
        let mut g: usize = 0;
        while g < sel.len()
            invariant
                g <= sel.len(),
                groups.len() == g,
                forall|h: int|
                    0 <= h < sel.len() ==> is_group(self.cards@, #[trigger] sel[h]@, k as nat),
                forall|h: int| 0 <= h < g ==> (#[trigger] groups[h])@ == pick(self.cards@, sel[h]@),
            decreases sel.len() - g,
        {
            assert(is_group(self.cards@, sel[g as int]@, k as nat));
            let picked = pick_cards(&self.cards, &sel[g]);
            groups.push(picked);
            g += 1;
        }
        proof {
            let cards = self@;
            assert forall|h: int| 0 <= h < groups.len() implies shaped(
                cards,
                shape,
                #[trigger] groups[h]@,
            ) by {
                assert(is_group(cards, sel[h]@, k as nat));
            }
            assert forall|group: Seq<Card>| #[trigger]
                shaped(cards, shape, group) implies exists|h: int|
                0 <= h < groups.len() && #[trigger] groups[h]@ == group by {
                let s = choose|s: Seq<usize>| #[trigger]
                    is_group(cards, s, k as nat) && group == pick(cards, s);
                let h = choose|h: int| 0 <= h < sel.len() && #[trigger] sel[h]@ == s;
                assert(groups[h]@ == group);
            }
            assert forall|h: int, j: int| 0 <= h < j < groups.len() implies #[trigger] groups[h]@
                != #[trigger] groups[j]@ by {
                assert(is_group(cards, sel[h]@, k as nat));
                assert(is_group(cards, sel[j]@, k as nat));
                assert(sel[h]@ != sel[j]@);
                if groups[h]@ == groups[j]@ {
                    lemma_pick_injective(cards, sel[h]@, sel[j]@);
                }
            }
            assert forall|h: int| 0 <= h < groups.len() implies 1 <= (#[trigger] groups[h]).len()
                <= 10 && valid_cards(groups[h]@) by {
                assert(is_group(cards, sel[h]@, k as nat));
                let s = sel[h]@;
                assert forall|i: int| 0 <= i < groups[h]@.len() implies valid_rank(
                    (#[trigger] groups[h]@[i]).value as int,
                ) by {
                    assert(groups[h]@[i] == cards[s[i] as int]);
                }
            }
        }
        with_best(groups, shape)
    }

    /// The pairs of the hand: all of them, the rank of the best, and the best.
    pub fn check_pair(&self) -> (found: Option<(Vec<Vec<Card>>, i32, Vec<Card>)>)
        requires
            self.wf(),
        ensures
            found_shaped(self@, HandType::Pair, found),
    {
        self.check_of_a_kind(2, HandType::Pair)
    }

    /// The threes of a kind of the hand: all of them, the sum of the ranks of
    /// the best, and the best.
    pub fn check_three_of_a_kind(&self) -> (found: Option<(Vec<Vec<Card>>, i32, Vec<Card>)>)
        requires
            self.wf(),
        ensures
            found_shaped(self@, HandType::ThreeOfAKind, found),
    {
        self.check_of_a_kind(3, HandType::ThreeOfAKind)
    }

    /// The fours of a kind of the hand: all of them, the sum of the ranks of
    /// the best, and the best.
    pub fn check_four_of_a_kind(&self) -> (found: Option<(Vec<Vec<Card>>, i32, Vec<Card>)>)
        requires
            self.wf(),
        ensures
            found_shaped(self@, HandType::FourOfAKind, found),
    {
        self.check_of_a_kind(4, HandType::FourOfAKind)
    }

    /// The single cards of the hand, the highest rank, and a card of that
    /// rank.
    pub fn check_high_card(&self) -> (found: Option<(Vec<Vec<Card>>, i32, Vec<Card>)>)
        requires
            self.wf(),
        ensures
            found is Some,
            found_shaped(self@, HandType::HighCard, found),
    {
        let mut groups: Vec<Vec<Card>> = Vec::new();
        let mut i: usize = 0;
        while i < self.cards.len()
            invariant
                i <= self.cards.len(),
                groups.len() == i,
                forall|h: int| 0 <= h < i ==> (#[trigger] groups[h])@ == seq![self.cards[h]],
            decreases self.cards.len() - i,
        {
            let mut single: Vec<Card> = Vec::new();
            single.push(self.cards[i]);
            assert(single@ == seq![self.cards[i as int]]);
            groups.push(single);
            i += 1;
        }
        proof {
            let cards = self@;
            assert forall|h: int| 0 <= h < groups.len() implies shaped(
                cards,
                HandType::HighCard,
                #[trigger] groups[h]@,
            ) by {
                assert(groups[h]@ == seq![cards[h]]);
            }
            assert forall|group: Seq<Card>| #[trigger]
                shaped(cards, HandType::HighCard, group) implies exists|h: int|
                0 <= h < groups.len() && #[trigger] groups[h]@ == group by {
                let j = choose|j: int| 0 <= j < cards.len() && group == seq![#[trigger] cards[j]];
                assert(groups[j]@ == group);
            }
            assert forall|h: int, j: int| 0 <= h < j < groups.len() implies #[trigger] groups[h]@
                != #[trigger] groups[j]@ by {
                assert(groups[h]@[0] == cards[h]);
                assert(groups[j]@[0] == cards[j]);
            }
            assert forall|h: int| 0 <= h < groups.len() implies 1 <= (#[trigger] groups[h]).len()
                <= 10 && valid_cards(groups[h]@) by {
                assert(groups[h]@[0] == cards[h]);
            }
        }
        with_best(groups, HandType::HighCard)
    }

    /// The two pairs of the hand, a pair of one rank followed by a pair of
    /// another: all of them, the sum of the ranks of the best, and the best.
    pub fn check_two_pair(&self) -> (found: Option<(Vec<Vec<Card>>, i32, Vec<Card>)>)
        requires
            self.wf(),
        ensures
            found_shaped(self@, HandType::TwoPair, found),
    {
        let sel = self.rank_groups(2);
        let mut groups: Vec<Vec<Card>> = Vec::new();
        let ghost mut firsts: Seq<int> = Seq::empty();
        let ghost mut seconds: Seq<int> = Seq::empty();
        let ghost cards = self@;
        let mut a: usize = 0;
        while a < sel.len()
            invariant
                a <= sel.len(),
                cards == self.cards@,
                is_hand(cards),
                forall|h: int| 0 <= h < sel.len() ==> is_group(cards, #[trigger] sel[h]@, 2),
                firsts.len() == groups.len(),
                seconds.len() == groups.len(),
                forall|g: int|
                    #![trigger firsts[g]]
                    0 <= g < groups.len() ==> 0 <= firsts[g] < a && 0 <= seconds[g] < sel.len()
                        && groups[g]@ == pick(cards, sel[firsts[g]]@) + pick(
                        cards,
                        sel[seconds[g]]@,
                    ) && pick(cards, sel[firsts[g]]@)[0].value != pick(
                        cards,
                        sel[seconds[g]]@,
                    )[0].value,
                forall|g: int, h: int|
                    #![trigger firsts[g], firsts[h]]
                    0 <= g < h < groups.len() ==> firsts[g] != firsts[h] || seconds[g]
                        != seconds[h],
                forall|x: int, y: int|
                    #![trigger ordered_pair(x, y)]
                    ordered_pair(x, y) && 0 <= x < a && 0 <= y < sel.len()
                        && pick(cards, sel[x]@)[0].value != pick(
                        cards,
                        sel[y]@,
                    )[0].value ==> exists|g: int|
                        #![trigger firsts[g]]
                        0 <= g < groups.len() && firsts[g] == x && seconds[g] == y,
            decreases sel.len() - a,
        {
            assert(is_group(cards, sel[a as int]@, 2));
            let first = pick_cards(&self.cards, &sel[a]);
            let mut b: usize = 0;
            while b < sel.len()
                invariant
                    a < sel.len(),
                    b <= sel.len(),
                    cards == self.cards@,
                    is_hand(cards),
                    first@ == pick(cards, sel[a as int]@),
                    forall|h: int| 0 <= h < sel.len() ==> is_group(cards, #[trigger] sel[h]@, 2),
                    firsts.len() == groups.len(),
                    seconds.len() == groups.len(),
                    forall|g: int|
                        #![trigger firsts[g]]
                        0 <= g < groups.len() ==> 0 <= firsts[g] <= a && (firsts[g] == a
                            ==> seconds[g] < b) && 0 <= seconds[g] < sel.len() && groups[g]@
                            == pick(cards, sel[firsts[g]]@) + pick(cards, sel[seconds[g]]@)
                            && pick(cards, sel[firsts[g]]@)[0].value != pick(
                            cards,
                            sel[seconds[g]]@,
                        )[0].value,
                    forall|g: int, h: int|
                        #![trigger firsts[g], firsts[h]]
                        0 <= g < h < groups.len() ==> firsts[g] != firsts[h] || seconds[g]
                            != seconds[h],
                    forall|x: int, y: int|
                        #![trigger ordered_pair(x, y)]
                        ordered_pair(x, y) && (0 <= x < a || (x == a && y < b)) && 0 <= y
                            < sel.len() && pick(
                            cards,
                            sel[x]@,
                        )[0].value != pick(cards, sel[y]@)[0].value ==> exists|g: int|
                            #![trigger firsts[g]]
                            0 <= g < groups.len() && firsts[g] == x && seconds[g] == y,
                decreases sel.len() - b,
            {
                assert(is_group(cards, sel[b as int]@, 2));
                let second = pick_cards(&self.cards, &sel[b]);
                if first[0].value != second[0].value {
                    let ghost before = groups@;
                    let ghost old_firsts = firsts;
                    let ghost old_seconds = seconds;
                    groups.push(join_cards(&first, &second));
                    proof {
                        firsts = firsts.push(a as int);
                        seconds = seconds.push(b as int);
                        let last = before.len() as int;
                        assert forall|g: int| 0 <= g < last implies groups[g] == before[g]
                            && firsts[g] == old_firsts[g] && seconds[g] == old_seconds[g] by {}
                        assert forall|x: int, y: int|
                            #![trigger ordered_pair(x, y)]
                            ordered_pair(x, y) && (0 <= x < a || (x == a && y < b + 1)) && 0 <= y
                                < sel.len() && pick(
                                cards,
                                sel[x]@,
                            )[0].value != pick(cards, sel[y]@)[0].value implies exists|g: int|
                            #![trigger firsts[g]]
                            0 <= g < groups.len() && firsts[g] == x && seconds[g] == y by {
                            if x == a && y == b {
                                assert(firsts[last] == x && seconds[last] == y);
                            } else {
                                assert(ordered_pair(x, y));
                                let g = choose|g: int|
                                    #![trigger old_firsts[g]]
                                    0 <= g < before.len() && old_firsts[g] == x && old_seconds[g]
                                        == y;
                                assert(groups[g] == before[g]);
                                assert(firsts[g] == x && seconds[g] == y);
                            }
                        }
                    }
                }
                b += 1;
            }
            a += 1;
        }
        proof {
            assert forall|h: int| 0 <= h < groups.len() implies shaped(
                cards,
                HandType::TwoPair,
                #[trigger] groups[h]@,
            ) by {
                let s = sel[firsts[h]]@;
                let t = sel[seconds[h]]@;
                assert(is_group(cards, s, 2) && is_group(cards, t, 2));
            }
            assert forall|group: Seq<Card>| #[trigger]
                shaped(cards, HandType::TwoPair, group) implies exists|h: int|
                0 <= h < groups.len() && #[trigger] groups[h]@ == group by {
                let (s, t) = choose|s: Seq<usize>, t: Seq<usize>|
                    #![trigger is_group(cards, s, 2), is_group(cards, t, 2)]
                    is_group(cards, s, 2) && is_group(cards, t, 2) && pick(cards, s)[0].value
                        != pick(cards, t)[0].value && group == pick(cards, s) + pick(cards, t);
                let x = choose|x: int| 0 <= x < sel.len() && #[trigger] sel[x]@ == s;
                let y = choose|y: int| 0 <= y < sel.len() && #[trigger] sel[y]@ == t;
                assert(sel[x]@ == s && sel[y]@ == t);
                assert(ordered_pair(x, y));
                let g = choose|g: int|
                    #![trigger firsts[g]]
                    0 <= g < groups.len() && firsts[g] == x && seconds[g] == y;
                assert(groups[g]@ == group);
            }
            assert forall|h: int, j: int| 0 <= h < j < groups.len() implies #[trigger] groups[h]@
                != #[trigger] groups[j]@ by {
                let s = sel[firsts[h]]@;
                let t = sel[seconds[h]]@;
                let u = sel[firsts[j]]@;
                let v = sel[seconds[j]]@;
                assert(is_group(cards, s, 2) && is_group(cards, t, 2));
                assert(is_group(cards, u, 2) && is_group(cards, v, 2));
                if groups[h]@ == groups[j]@ {
                    let left = pick(cards, s) + pick(cards, t);
                    let right = pick(cards, u) + pick(cards, v);
                    assert(left == right);
                    assert(pick(cards, s) =~= left.subrange(0, 2));
                    assert(pick(cards, u) =~= right.subrange(0, 2));
                    assert(pick(cards, t) =~= left.subrange(2, 4));
                    assert(pick(cards, v) =~= right.subrange(2, 4));
                    lemma_pick_injective(cards, s, u);
                    lemma_pick_injective(cards, t, v);
                    if firsts[h] != firsts[j] {
                        let lo = if firsts[h] < firsts[j] { firsts[h] } else { firsts[j] };
                        let hi = if firsts[h] < firsts[j] { firsts[j] } else { firsts[h] };
                        assert(sel[lo]@ != sel[hi]@);
                    }
                    if seconds[h] != seconds[j] {
                        let lo = if seconds[h] < seconds[j] { seconds[h] } else { seconds[j] };
                        let hi = if seconds[h] < seconds[j] { seconds[j] } else { seconds[h] };
                        assert(sel[lo]@ != sel[hi]@);
                    }
                }
            }
            assert forall|h: int| 0 <= h < groups.len() implies 1 <= (#[trigger] groups[h]).len()
                <= 10 && valid_cards(groups[h]@) by {
                let s = sel[firsts[h]]@;
                let t = sel[seconds[h]]@;
                assert(is_group(cards, s, 2) && is_group(cards, t, 2));
                assert forall|i: int| 0 <= i < groups[h]@.len() implies valid_rank(
                    (#[trigger] groups[h]@[i]).value as int,
                ) by {
                    if i < 2 {
                        assert(groups[h]@[i] == cards[s[i] as int]);
                    } else {
                        assert(groups[h]@[i] == cards[t[i - 2] as int]);
                    }
                }
            }
        }
        with_best(groups, HandType::TwoPair)
    }

    /// The full houses of the hand, three cards of one rank followed by the
    /// two others where these share a rank: all of them, the sum of the ranks
    /// of the best, and the best.
    pub fn check_full_house(&self) -> (found: Option<(Vec<Vec<Card>>, i32, Vec<Card>)>)
        requires
            self.wf(),
        ensures
            found_shaped(self@, HandType::FullHouse, found),
    {
        let sel = self.rank_groups(3);
        let mut groups: Vec<Vec<Card>> = Vec::new();
        let ghost mut threes: Seq<int> = Seq::empty();
        let ghost cards = self@;
        let mut a: usize = 0;
        while a < sel.len()
            invariant
                a <= sel.len(),
                cards == self.cards@,
                is_hand(cards),
                forall|h: int| 0 <= h < sel.len() ==> is_group(cards, #[trigger] sel[h]@, 3),
                threes.len() == groups.len(),
                forall|g: int|
                    #![trigger threes[g]]
                    0 <= g < groups.len() ==> 0 <= threes[g] < a && same_rank(
                        pick(cards, rest_of(sel[threes[g]]@, 5)),
                    ) && rest_of(sel[threes[g]]@, 5).len() <= 5 && (forall|i: int|
                        0 <= i < rest_of(sel[threes[g]]@, 5).len() ==> #[trigger] rest_of(
                            sel[threes[g]]@,
                            5,
                        )[i] < 5) && groups[g]@ == pick(cards, sel[threes[g]]@) + pick(
                        cards,
                        rest_of(sel[threes[g]]@, 5),
                    ),
                forall|g: int, h: int|
                    #![trigger threes[g], threes[h]]
                    0 <= g < h < groups.len() ==> threes[g] != threes[h],
                forall|x: int|
                    0 <= x < a && same_rank(pick(cards, rest_of(#[trigger] sel[x]@, 5)))
                        ==> exists|g: int|
                        #![trigger threes[g]]
                        0 <= g < groups.len() && threes[g] == x,
            decreases sel.len() - a,
        {
            assert(is_group(cards, sel[a as int]@, 3));
            let three = pick_cards(&self.cards, &sel[a]);
            let rest = positions_left(&sel[a], self.cards.len());
            let others = pick_cards(&self.cards, &rest);
            if all_same_value(&others) {
                let ghost before = groups@;
                let ghost old_threes = threes;
                groups.push(join_cards(&three, &others));
                proof {
                    threes = threes.push(a as int);
                    let last = before.len() as int;
                    assert forall|g: int| 0 <= g < last implies groups[g] == before[g] && threes[g]
                        == old_threes[g] by {}
                    assert forall|x: int|
                        0 <= x < a + 1 && same_rank(
                            pick(cards, rest_of(#[trigger] sel[x]@, 5)),
                        ) implies exists|g: int|
                        #![trigger threes[g]]
                        0 <= g < groups.len() && threes[g] == x by {
                        if x == a {
                            assert(threes[last] == x);
                        } else {
                            let g = choose|g: int|
                                #![trigger old_threes[g]]
                                0 <= g < before.len() && old_threes[g] == x;
                            assert(groups[g] == before[g]);
                            assert(threes[g] == x);
                        }
                    }
                }
            }
            a += 1;
        }
        proof {
            assert forall|h: int| 0 <= h < groups.len() implies shaped(
                cards,
                HandType::FullHouse,
                #[trigger] groups[h]@,
            ) by {
                let s = sel[threes[h]]@;
                assert(is_group(cards, s, 3));
            }
            assert forall|group: Seq<Card>| #[trigger]
                shaped(cards, HandType::FullHouse, group) implies exists|h: int|
                0 <= h < groups.len() && #[trigger] groups[h]@ == group by {
                let s = choose|s: Seq<usize>| #[trigger]
                    is_group(cards, s, 3) && same_rank(pick(cards, rest_of(s, cards.len())))
                        && group == pick(cards, s) + pick(cards, rest_of(s, cards.len()));
                let x = choose|x: int| 0 <= x < sel.len() && #[trigger] sel[x]@ == s;
                assert(sel[x]@ == s);
                let g = choose|g: int|
                    #![trigger threes[g]]
                    0 <= g < groups.len() && threes[g] == x;
                assert(groups[g]@ == group);
            }
            assert forall|h: int, j: int| 0 <= h < j < groups.len() implies #[trigger] groups[h]@
                != #[trigger] groups[j]@ by {
                let s = sel[threes[h]]@;
                let u = sel[threes[j]]@;
                assert(is_group(cards, s, 3) && is_group(cards, u, 3));
                if groups[h]@ == groups[j]@ {
                    let left = pick(cards, s) + pick(cards, rest_of(s, 5));
                    let right = pick(cards, u) + pick(cards, rest_of(u, 5));
                    assert(left == right);
                    assert(pick(cards, s) =~= left.subrange(0, 3));
                    assert(pick(cards, u) =~= right.subrange(0, 3));
                    lemma_pick_injective(cards, s, u);
                    let lo = if threes[h] < threes[j] { threes[h] } else { threes[j] };
                    let hi = if threes[h] < threes[j] { threes[j] } else { threes[h] };
                    assert(sel[lo]@ != sel[hi]@);
                }
            }
            assert forall|h: int| 0 <= h < groups.len() implies 1 <= (#[trigger] groups[h]).len()
                <= 10 && valid_cards(groups[h]@) by {
                let s = sel[threes[h]]@;
                let t = rest_of(s, 5);
                assert(is_group(cards, s, 3));
                assert forall|i: int| 0 <= i < groups[h]@.len() implies valid_rank(
                    (#[trigger] groups[h]@[i]).value as int,
                ) by {
                    if i < 3 {
                        assert(groups[h]@[i] == cards[s[i] as int]);
                    } else {
                        assert(t[i - 3] < 5);
                        assert(groups[h]@[i] == cards[t[i - 3] as int]);
                    }
                }
            }
        }
        with_best(groups, HandType::FullHouse)
    }
}

} // verus!
