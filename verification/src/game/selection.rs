//! Selections of cards by their positions, enumerated by the `combinations`
//! crate.

use crate::game::hand::{Card, HandType};
use crate::game::hand::HandScore;
use crate::game::ranking::{
    distinct_cards, hand_score, is_hand, lemma_sorted_ranks, matched, matched_count,
    matched_count_prefix, multiplicity, multiplicity_prefix, multiplicity_type, ranks_of,
    sorted_ranks,
};
use combinations::Combinations;
use vstd::prelude::*;

verus! {

/// Each element is greater than the one before it.
pub open spec fn increasing(s: Seq<usize>) -> bool {
    forall|i: int, j: int| 0 <= i < j < s.len() ==> s[i] < s[j]
}

/// `s` draws `k` of `items`, in ascending order and none of them twice.
pub open spec fn draws(s: Seq<usize>, items: Seq<usize>, k: nat) -> bool {
    &&& s.len() == k
    &&& increasing(s)
    &&& forall|i: int| 0 <= i < s.len() ==> items.contains(#[trigger] s[i])
}

/// `s` picks `k` of the positions below `n`, in ascending order.
pub open spec fn picks(s: Seq<usize>, n: nat, k: nat) -> bool {
    &&& s.len() == k
    &&& increasing(s)
    &&& forall|i: int| 0 <= i < s.len() ==> #[trigger] s[i] < n
}

/// The cards at the positions that `s` picks, in the order of `s`.
pub open spec fn pick(cards: Seq<Card>, s: Seq<usize>) -> Seq<Card> {
    Seq::new(s.len(), |i: int| cards[s[i] as int])
}

/// The positions below `n`, in ascending order.
pub open spec fn positions(n: nat) -> Seq<usize> {
    Seq::new(n, |i: int| i as usize)
}

/// All cards have the rank of the first.
pub open spec fn same_rank(cards: Seq<Card>) -> bool {
    forall|i: int| 0 <= i < cards.len() ==> (#[trigger] cards[i]).value == cards[0].value
}

/// `s` picks `k` cards of one rank.
pub open spec fn is_group(cards: Seq<Card>, s: Seq<usize>, k: nat) -> bool {
    picks(s, cards.len(), k) && same_rank(pick(cards, s))
}

/// Whether position `i` is not among `s`.
pub open spec fn left_out(s: Seq<usize>) -> spec_fn(usize) -> bool {
    |i: usize| !s.contains(i)
}

/// The positions below `n` that `s` does not pick, in ascending order.
pub open spec fn rest_of(s: Seq<usize>, n: nat) -> Seq<usize> {
    positions(n).filter(left_out(s))
}

/// The highest rank among the first `n` cards; for no cards, the rank that
/// lies below all.
pub open spec fn top_value_prefix(cards: Seq<Card>, n: int) -> int
    decreases n,
{
    if n <= 0 {
        i32::MIN as int
    } else if cards[n - 1].value > top_value_prefix(cards, n - 1) {
        cards[n - 1].value as int
    } else {
        top_value_prefix(cards, n - 1)
    }
}

/// The highest rank among the cards.
pub open spec fn top_value(cards: Seq<Card>) -> int {
    top_value_prefix(cards, cards.len() as int)
}

/// The sum of the ranks of the first `n` cards.
pub open spec fn value_sum_prefix(cards: Seq<Card>, n: int) -> int
    decreases n,
{
    if n <= 0 {
        0
    } else {
        value_sum_prefix(cards, n - 1) + cards[n - 1].value
    }
}

/// The sum of the ranks of the cards.
pub open spec fn value_sum(cards: Seq<Card>) -> int {
    value_sum_prefix(cards, cards.len() as int)
}

/// Whether `group` is, among `cards`, a group of the given shape:
/// - `HighCard`: one card;
/// - `Pair`, `ThreeOfAKind`, `FourOfAKind`: two, three or four cards of one
///   rank, in the order of the cards;
/// - `TwoPair`: two cards of one rank, then two cards of another rank;
/// - `FullHouse`: three cards of one rank, then the other cards, which share
///   a rank too.
/// The remaining categories are no shapes of groups.
pub open spec fn shaped(cards: Seq<Card>, shape: HandType, group: Seq<Card>) -> bool {
    match shape {
        HandType::HighCard => exists|i: int|
            0 <= i < cards.len() && group == seq![#[trigger] cards[i]],
        HandType::Pair => exists|s: Seq<usize>| #[trigger]
            is_group(cards, s, 2) && group == pick(cards, s),
        HandType::ThreeOfAKind => exists|s: Seq<usize>| #[trigger]
            is_group(cards, s, 3) && group == pick(cards, s),
        HandType::FourOfAKind => exists|s: Seq<usize>| #[trigger]
            is_group(cards, s, 4) && group == pick(cards, s),
        HandType::TwoPair => exists|s: Seq<usize>, t: Seq<usize>|
            #![trigger is_group(cards, s, 2), is_group(cards, t, 2)]
            is_group(cards, s, 2) && is_group(cards, t, 2) && pick(cards, s)[0].value != pick(
                cards,
                t,
            )[0].value && group == pick(cards, s) + pick(cards, t),
        HandType::FullHouse => exists|s: Seq<usize>| #[trigger]
            is_group(cards, s, 3) && same_rank(pick(cards, rest_of(s, cards.len())))
                && group == pick(cards, s) + pick(cards, rest_of(s, cards.len())),
        _ => false,
    }
}

/// `groups` holds every group of the given shape among `cards`, each once.
pub open spec fn lists_shaped(groups: Seq<Vec<Card>>, cards: Seq<Card>, shape: HandType) -> bool {
    &&& forall|g: int| 0 <= g < groups.len() ==> shaped(cards, shape, #[trigger] groups[g]@)
    &&& forall|group: Seq<Card>| #[trigger]
        shaped(cards, shape, group) ==> exists|g: int|
            0 <= g < groups.len() && #[trigger] groups[g]@ == group
    &&& forall|g: int, h: int|
        0 <= g < h < groups.len() ==> #[trigger] groups[g]@ != #[trigger] groups[h]@
}

/// `best` is one of `groups`, and none of them holds a higher card.
pub open spec fn tops(groups: Seq<Vec<Card>>, best: Seq<Card>) -> bool {
    &&& exists|g: int| 0 <= g < groups.len() && #[trigger] groups[g]@ == best
    &&& forall|g: int| 0 <= g < groups.len() ==> top_value(#[trigger] groups[g]@) <= top_value(best)
}

/// The value that a group counts with: for a single card and for a pair the
/// rank, for the other shapes the sum of the ranks of its cards.
pub open spec fn group_value(shape: HandType, group: Seq<Card>) -> int {
    match shape {
        HandType::HighCard | HandType::Pair => group[0].value as int,
        _ => value_sum(group),
    }
}

/// What the search for groups of one shape returns: nothing where there is no
/// such group; else all of them, the value of the best, and the best, which is
/// one that holds the highest card.
pub open spec fn found_shaped(
    cards: Seq<Card>,
    shape: HandType,
    found: Option<(Vec<Vec<Card>>, i32, Vec<Card>)>,
) -> bool {
    match found {
        None => forall|group: Seq<Card>| !shaped(cards, shape, group),
        Some((groups, value, best)) => {
            &&& lists_shaped(groups@, cards, shape)
            &&& tops(groups@, best@)
            &&& value == group_value(shape, best@)
        },
    }
}

/// `best` is the best that five of the seven cards are worth: the score of one
/// choice of five, and no choice of five ranks above it.
pub open spec fn best_of_seven(best: HandScore, cards: Seq<Card>) -> bool {
    &&& exists|s: Seq<usize>| #[trigger] picks(s, 7, 5) && best == hand_score(pick(cards, s))
    &&& forall|s: Seq<usize>| #[trigger] picks(s, 7, 5) ==> !best.below(hand_score(pick(cards, s)))
}

/// `Combinations::new(items, len)` of the `combinations` crate, run to its
/// end. For items in strictly ascending order the iterator walks the
/// selections of `len` items in lexicographic order, so it yields each way to
/// draw `len` of the items exactly once, and nothing else. It panics unless
/// `1 <= len < items.len()`.
#[verifier::external_body]
fn combinations_of(items: Vec<usize>, len: usize) -> (out: Vec<Vec<usize>>)
    requires
        increasing(items@),
        1 <= len < items.len(),
    ensures
        forall|c: int| 0 <= c < out.len() ==> draws(#[trigger] out[c]@, items@, len as nat),
        forall|s: Seq<usize>| #[trigger]
            draws(s, items@, len as nat) ==> exists|c: int|
                0 <= c < out.len() && #[trigger] out[c]@ == s,
        forall|c: int, d: int| 0 <= c < d < out.len() ==> #[trigger] out[c]@ != #[trigger] out[d]@,
{
    Combinations::new(items, len).collect()
}

/// Every way to pick `k` of the positions below `n`, each exactly once.
pub fn selections(n: usize, k: usize) -> (out: Vec<Vec<usize>>)
    requires
        1 <= k < n,
    ensures
        forall|c: int| 0 <= c < out.len() ==> picks(#[trigger] out[c]@, n as nat, k as nat),
        forall|s: Seq<usize>| #[trigger]
            picks(s, n as nat, k as nat) ==> exists|c: int|
                0 <= c < out.len() && #[trigger] out[c]@ == s,
        forall|c: int, d: int| 0 <= c < d < out.len() ==> #[trigger] out[c]@ != #[trigger] out[d]@,
{
    let mut items: Vec<usize> = Vec::new();
    let mut i: usize = 0;
    while i < n
        invariant
            i <= n,
            items@ == positions(i as nat),
        decreases n - i,
    {
        items.push(i);
        assert(items@ == positions((i + 1) as nat));
        i += 1;
    }
    let ghost all = items@;
    let out = combinations_of(items, k);
    proof {
        assert forall|c: int| 0 <= c < out.len() implies picks(
            #[trigger] out[c]@,
            n as nat,
            k as nat,
        ) by {
            let s = out[c]@;
            assert(draws(s, all, k as nat));
            assert forall|j: int| 0 <= j < s.len() implies #[trigger] s[j] < n by {
                assert(all.contains(s[j]));
            }
        }
        assert forall|s: Seq<usize>| #[trigger] picks(s, n as nat, k as nat) implies exists|c: int|
            0 <= c < out.len() && #[trigger] out[c]@ == s by {
            assert forall|j: int| 0 <= j < s.len() implies all.contains(#[trigger] s[j]) by {
                assert(all[s[j] as int] == s[j]);
            }
            assert(draws(s, all, k as nat));
        }
    }
    out
}

/// The cards at the positions that `s` picks.
pub fn pick_cards(cards: &Vec<Card>, s: &Vec<usize>) -> (picked: Vec<Card>)
    requires
        forall|i: int| 0 <= i < s.len() ==> #[trigger] s[i] < cards.len(),
    ensures
        picked@ == pick(cards@, s@),
{
    let mut picked: Vec<Card> = Vec::new();
    let mut i: usize = 0;
    while i < s.len()
        invariant
            i <= s.len(),
            forall|j: int| 0 <= j < s.len() ==> #[trigger] s[j] < cards.len(),
            picked.len() == i,
            forall|j: int| 0 <= j < i ==> picked[j] == cards[s[j] as int],
        decreases s.len() - i,
    {
        picked.push(cards[s[i]]);
        i += 1;
    }
    assert(picked@ =~= pick(cards@, s@));
    picked
}

/// Among distinct cards, two ascending selections that pick the same cards are
/// the same selection.
pub proof fn lemma_pick_injective(cards: Seq<Card>, s: Seq<usize>, t: Seq<usize>)
    requires
        distinct_cards(cards),
        s.len() == t.len(),
        forall|i: int| 0 <= i < s.len() ==> #[trigger] s[i] < cards.len(),
        forall|i: int| 0 <= i < t.len() ==> #[trigger] t[i] < cards.len(),
        pick(cards, s) == pick(cards, t),
    ensures
        s == t,
{
    assert forall|i: int| 0 <= i < s.len() implies s[i] == t[i] by {
        let a = s[i] as int;
        let b = t[i] as int;
        assert(pick(cards, s)[i] == cards[a]);
        assert(pick(cards, t)[i] == cards[b]);
        if a < b {
            assert(cards[a] != cards[b]);
        } else if b < a {
            assert(cards[b] != cards[a]);
        }
    }
    assert(s =~= t);
}

/// Distinct cards picked at ascending positions are distinct.
pub proof fn lemma_pick_distinct(cards: Seq<Card>, s: Seq<usize>)
    requires
        distinct_cards(cards),
        increasing(s),
        forall|i: int| 0 <= i < s.len() ==> #[trigger] s[i] < cards.len(),
    ensures
        distinct_cards(pick(cards, s)),
{
    let p = pick(cards, s);
    assert forall|i: int, j: int| 0 <= i < j < p.len() implies p[i] != p[j] by {
        assert(s[i] < s[j]);
        assert(cards[s[i] as int] != cards[s[j] as int]);
    }
}

/// Whether some `k` cards share a rank.
pub open spec fn has_group(cards: Seq<Card>, k: nat) -> bool {
    exists|s: Seq<usize>| #[trigger] is_group(cards, s, k)
}

/// The positions below `n` that hold the rank `v`, in ascending order.
pub open spec fn occurrences(r: Seq<i32>, v: i32, n: int) -> Seq<usize>
    decreases n,
{
    if n <= 0 {
        Seq::empty()
    } else if r[n - 1] == v {
        occurrences(r, v, n - 1).push((n - 1) as usize)
    } else {
        occurrences(r, v, n - 1)
    }
}

/// A rank occurs at as many positions as its multiplicity says; the positions
/// ascend and hold the rank.
pub proof fn lemma_occurrences(r: Seq<i32>, v: i32, n: int)
    requires
        0 <= n <= r.len(),
        r.len() <= usize::MAX,
    ensures
        occurrences(r, v, n).len() == multiplicity_prefix(r, v, n),
        increasing(occurrences(r, v, n)),
        forall|i: int|
            0 <= i < occurrences(r, v, n).len() ==> (#[trigger] occurrences(r, v, n)[i]) < n
                && r[occurrences(r, v, n)[i] as int] == v,
    decreases n,
{
    if n > 0 {
        lemma_occurrences(r, v, n - 1);
    }
}

/// Positions that ascend below `n` and all hold the rank `v` are no more than
/// the multiplicity of `v` among the first `n` ranks.
pub proof fn lemma_positions_counted(r: Seq<i32>, v: i32, s: Seq<usize>, n: int)
    requires
        0 <= n <= r.len(),
        increasing(s),
        forall|i: int| 0 <= i < s.len() ==> (#[trigger] s[i]) < n && r[s[i] as int] == v,
    ensures
        s.len() <= multiplicity_prefix(r, v, n),
    decreases n,
{
    if s.len() > 0 {
        assert(s[0] < n);
        let last = s.len() - 1;
        if s[last] == n - 1 {
            let shorter = s.drop_last();
            assert forall|i: int| 0 <= i < shorter.len() implies (#[trigger] shorter[i]) < n - 1
                && r[shorter[i] as int] == v by {
                assert(shorter[i] == s[i]);
                assert(s[i] < s[last]);
            }
            lemma_positions_counted(r, v, shorter, n - 1);
        } else {
            assert forall|i: int| 0 <= i < s.len() implies (#[trigger] s[i]) < n - 1
                && r[s[i] as int]
                == v by {
                if i < last {
                    assert(s[i] < s[last]);
                }
            }
            lemma_positions_counted(r, v, s, n - 1);
        }
    }
}

/// The multiplicity of a rank is the number of times that the rank is among
/// the ranks, in whatever order they stand.
pub proof fn lemma_multiplicity_counts(r: Seq<i32>, v: i32, n: int)
    requires
        0 <= n <= r.len(),
    ensures
        multiplicity_prefix(r, v, n) == r.take(n).to_multiset().count(v),
    decreases n,
{
    broadcast use vstd::seq_lib::group_to_multiset_ensures;

    if n > 0 {
        lemma_multiplicity_counts(r, v, n - 1);
        assert(r.take(n) == r.take(n - 1).push(r[n - 1]));
        vstd::seq_lib::to_multiset_build(r.take(n - 1), r[n - 1]);
    } else {
        assert(r.take(0).to_multiset().len() == 0);
    }
}

/// Sorting the ranks keeps the multiplicity of every rank.
pub proof fn lemma_multiplicity_sorted(cards: Seq<Card>, v: i32)
    ensures
        multiplicity(sorted_ranks(cards), v) == multiplicity(ranks_of(cards), v),
{
    let r = ranks_of(cards);
    let s = sorted_ranks(cards);
    lemma_sorted_ranks(cards);
    lemma_multiplicity_counts(r, v, r.len() as int);
    lemma_multiplicity_counts(s, v, s.len() as int);
    assert(r.take(r.len() as int) == r);
    assert(s.take(s.len() as int) == s);
}

/// Some `k` cards share a rank if and only if a rank has the multiplicity
/// `k` at least.
pub proof fn lemma_group_by_multiplicity(cards: Seq<Card>, k: nat)
    requires
        cards.len() <= usize::MAX,
        k >= 1,
    ensures
        has_group(cards, k) <==> exists|v: i32| #[trigger] multiplicity(ranks_of(cards), v) >= k,
{
    let r = ranks_of(cards);
    let n = cards.len() as int;
    if has_group(cards, k) {
        let s = choose|s: Seq<usize>| #[trigger] is_group(cards, s, k);
        let v = cards[s[0] as int].value;
        assert forall|i: int| 0 <= i < s.len() implies (#[trigger] s[i]) < n && r[s[i] as int]
            == v by {
            assert(pick(cards, s)[i].value == pick(cards, s)[0].value);
        }
        lemma_positions_counted(r, v, s, n);
        assert(multiplicity(r, v) >= k);
    }
    if exists|v: i32| #[trigger] multiplicity(r, v) >= k {
        let v = choose|v: i32| #[trigger] multiplicity(r, v) >= k;
        lemma_occurrences(r, v, n);
        let all = occurrences(r, v, n);
        let s = all.take(k as int);
        assert forall|i: int| 0 <= i < pick(cards, s).len() implies (#[trigger] pick(
            cards,
            s,
        )[i]).value == pick(cards, s)[0].value by {
            assert(s[i] == all[i] && s[0] == all[0]);
            assert(r[all[i] as int] == v && r[all[0] as int] == v);
        }
        assert forall|i: int, j: int| 0 <= i < j < s.len() implies s[i] < s[j] by {
            assert(s[i] == all[i] && s[j] == all[j]);
        }
        assert forall|i: int| 0 <= i < s.len() implies #[trigger] s[i] < cards.len() by {
            assert(s[i] == all[i]);
        }
        assert(is_group(cards, s, k));
    }
}

/// No rank occurs five times in a hand: there are four suits only.
pub proof fn lemma_at_most_four_of_a_kind(cards: Seq<Card>)
    requires
        is_hand(cards),
    ensures
        !has_group(cards, 5),
        forall|v: i32| #[trigger] multiplicity(ranks_of(cards), v) <= 4,
        forall|v: i32| #[trigger] multiplicity(sorted_ranks(cards), v) <= 4,
{
    if has_group(cards, 5) {
        let s = choose|s: Seq<usize>| #[trigger] is_group(cards, s, 5);
        assert(s[0] < s[1] < s[2] < s[3] < s[4] < 5);
        let p = pick(cards, s);
        assert(p[0] == cards[0] && p[1] == cards[1] && p[2] == cards[2] && p[3] == cards[3]
            && p[4] == cards[4]);
        assert(p[1].value == p[0].value && p[2].value == p[0].value && p[3].value == p[0].value
            && p[4].value == p[0].value);
        assert(cards[0] != cards[1] && cards[0] != cards[2] && cards[0] != cards[3] && cards[0]
            != cards[4]);
        assert(cards[1] != cards[2] && cards[1] != cards[3] && cards[1] != cards[4]);
        assert(cards[2] != cards[3] && cards[2] != cards[4] && cards[3] != cards[4]);
        assert(false);
    }
    lemma_group_by_multiplicity(cards, 5);
    assert forall|v: i32| #[trigger] multiplicity(sorted_ranks(cards), v) <= 4 by {
        lemma_multiplicity_sorted(cards, v);
        assert(multiplicity(ranks_of(cards), v) <= 4);
    }
}

/// The cards whose rank occurs exactly `n` times are some if and only if a
/// rank that is held occurs exactly `n` times.
pub proof fn lemma_matched_count(r: Seq<i32>, n: nat, k: int)
    requires
        0 <= k <= r.len(),
    ensures
        matched_count_prefix(r, n, k) >= 0,
        matched_count_prefix(r, n, k) > 0 <==> exists|i: int| 0 <= i < k
            && #[trigger] matched(r, n, i),
    decreases k,
{
    if k > 0 {
        lemma_matched_count(r, n, k - 1);
        if matched_count_prefix(r, n, k) > 0 {
            if matched(r, n, k - 1) {
            } else {
                let i = choose|i: int| 0 <= i < k - 1 && #[trigger] matched(r, n, i);
                assert(0 <= i < k && matched(r, n, i));
            }
        }
    }
}

/// A rank with a multiplicity above nothing is held at some position.
pub proof fn lemma_multiplicity_held(r: Seq<i32>, v: i32, n: int)
    requires
        0 <= n <= r.len(),
        multiplicity_prefix(r, v, n) > 0,
    ensures
        exists|i: int| 0 <= i < n && r[i] == v,
    decreases n,
{
    if r[n - 1] == v {
    } else {
        lemma_multiplicity_held(r, v, n - 1);
    }
}

/// The category that counting the ranks finds is the category that the groups
/// of cards make: four of a kind where four cards share a rank; a full house
/// or three of a kind where three do and no four; two pair or a pair where
/// two do and no three; a high card where no two do.
pub proof fn lemma_type_by_groups(cards: Seq<Card>)
    requires
        is_hand(cards),
    ensures
        multiplicity_type(sorted_ranks(cards)) == HandType::FourOfAKind <==> has_group(cards, 4),
        (multiplicity_type(sorted_ranks(cards)) == HandType::FullHouse || multiplicity_type(
            sorted_ranks(cards),
        ) == HandType::ThreeOfAKind) <==> has_group(cards, 3) && !has_group(cards, 4),
        (multiplicity_type(sorted_ranks(cards)) == HandType::TwoPair || multiplicity_type(
            sorted_ranks(cards),
        ) == HandType::Pair) <==> has_group(cards, 2) && !has_group(cards, 3),
        multiplicity_type(sorted_ranks(cards)) == HandType::HighCard <==> !has_group(cards, 2),
{
    let r = sorted_ranks(cards);
    let len = r.len() as int;
    lemma_sorted_ranks(cards);
    lemma_at_most_four_of_a_kind(cards);
    lemma_exactly_by_groups(cards, 4);
    lemma_exactly_by_groups(cards, 3);
    lemma_exactly_by_groups(cards, 2);
    lemma_group_by_multiplicity(cards, 2);
    lemma_group_by_multiplicity(cards, 3);
    lemma_group_by_multiplicity(cards, 4);
    lemma_group_by_multiplicity(cards, 5);
    lemma_matched_count(r, 4, len);
    lemma_matched_count(r, 3, len);
    lemma_matched_count(r, 2, len);
    if has_group(cards, 4) {
        assert(has_group(cards, 3)) by {
            let v = choose|v: i32| #[trigger] multiplicity(ranks_of(cards), v) >= 4;
            assert(multiplicity(ranks_of(cards), v) >= 3);
        }
    }
    if has_group(cards, 3) {
        assert(has_group(cards, 2)) by {
            let v = choose|v: i32| #[trigger] multiplicity(ranks_of(cards), v) >= 3;
            assert(multiplicity(ranks_of(cards), v) >= 2);
        }
    }
}

/// Some card of the hand has a rank that occurs exactly `n` times among the
/// sorted ranks if and only if a rank occurs exactly `n` times among the
/// ranks as the cards stand.
pub proof fn lemma_exactly_by_groups(cards: Seq<Card>, n: nat)
    requires
        is_hand(cards),
        n >= 1,
    ensures
        matched_count(sorted_ranks(cards), n) > 0 <==> exists|v: i32| #[trigger]
            multiplicity(ranks_of(cards), v) == n,
{
    let r = sorted_ranks(cards);
    let len = r.len() as int;
    lemma_sorted_ranks(cards);
    lemma_matched_count(r, n, len);
    if matched_count(r, n) > 0 {
        let i = choose|i: int| 0 <= i < len && #[trigger] matched(r, n, i);
        lemma_multiplicity_sorted(cards, r[i]);
        assert(multiplicity(ranks_of(cards), r[i]) == n);
    }
    if exists|v: i32| #[trigger] multiplicity(ranks_of(cards), v) == n {
        let v = choose|v: i32| #[trigger] multiplicity(ranks_of(cards), v) == n;
        lemma_multiplicity_sorted(cards, v);
        lemma_multiplicity_held(r, v, len);
        let i = choose|i: int| 0 <= i < len && r[i] == v;
        assert(matched(r, n, i));
    }
}

} // verus!
