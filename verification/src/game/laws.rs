//! What holds of every hand that is played by the rules of `table`: no chip is
//! made or lost, the table stays well formed, the bet of a street never
//! falls, and the side pots pay out exactly what was put in.

use crate::game::hand::{Card, HandScore};
use crate::game::table::{
    all_cards, ascending_levels, can_act, count_at_least, count_below, count_picked, has_at_least,
        levels_of,
    live_prefix,
    first_live_prefix, recorded, seat_numbers, seats_at_least, tiers_for, total, total_prefix,
    with_level, zeros, Decision, Move, RoundOutcome, Table, Tier,
};
use vstd::prelude::*;

verus! {

/// Changing one amount changes the sum of a prefix by the difference, where
/// the prefix holds it.
pub proof fn lemma_total_prefix_update(s: Seq<int>, i: int, v: int, n: int)
    requires
        0 <= i < s.len(),
        0 <= n <= s.len(),
    ensures
        total_prefix(s.update(i, v), n) == total_prefix(s, n) + if i < n {
            v - s[i]
        } else {
            0
        },
    decreases n,
{
    if n > 0 {
        lemma_total_prefix_update(s, i, v, n - 1);
    }
}

/// Changing one amount changes the sum by the difference.
pub proof fn lemma_total_update(s: Seq<int>, i: int, v: int)
    requires
        0 <= i < s.len(),
    ensures
        total(s.update(i, v)) == total(s) + v - s[i],
{
    lemma_total_prefix_update(s, i, v, s.len() as int);
}

/// Nothing sums to nothing.
pub proof fn lemma_total_zeros(n: nat, m: int)
    requires
        0 <= m <= n,
    ensures
        total_prefix(zeros(n), m) == 0,
    decreases m,
{
    if m > 0 {
        lemma_total_zeros(n, m - 1);
    }
}

/// Amounts that are not negative sum to at least each of them, and a prefix
/// sums to no more than the whole.
pub proof fn lemma_total_bounds(s: Seq<int>, n: int)
    requires
        0 <= n <= s.len(),
        forall|i: int| 0 <= i < s.len() ==> #[trigger] s[i] >= 0,
    ensures
        total_prefix(s, n) >= 0,
        forall|i: int| 0 <= i < n ==> #[trigger] s[i] <= total_prefix(s, n),
        total_prefix(s, n) <= total(s),
    decreases s.len() - n,
{
    lemma_total_nonnegative(s, n);
    if n < s.len() {
        lemma_total_bounds(s, n + 1);
        lemma_total_nonnegative(s, n + 1);
    }
    lemma_total_member(s, n);
}

/// Amounts that are not negative have a sum that is not negative.
pub proof fn lemma_total_nonnegative(s: Seq<int>, n: int)
    requires
        0 <= n <= s.len(),
        forall|i: int| 0 <= i < s.len() ==> #[trigger] s[i] >= 0,
    ensures
        total_prefix(s, n) >= 0,
    decreases n,
{
    if n > 0 {
        lemma_total_nonnegative(s, n - 1);
    }
}

/// Among amounts that are not negative, none is above the sum.
pub proof fn lemma_total_member(s: Seq<int>, n: int)
    requires
        0 <= n <= s.len(),
        forall|i: int| 0 <= i < s.len() ==> #[trigger] s[i] >= 0,
    ensures
        forall|i: int| 0 <= i < n ==> #[trigger] s[i] <= total_prefix(s, n),
    decreases n,
{
    if n > 0 {
        lemma_total_member(s, n - 1);
        lemma_total_nonnegative(s, n - 1);
    }
}

/// The seats that a rule picks: each is a seat that the rule picks, they
/// ascend, and every seat that the rule picks is among them.
pub proof fn lemma_picked_seats(n: nat, rule: spec_fn(int) -> bool)
    ensures
        seat_numbers(n).filter(rule).len() <= n,
        forall|j: int|
            0 <= j < seat_numbers(n).filter(rule).len() ==> 0 <= #[trigger] seat_numbers(n).filter(
                rule,
            )[j] < n && rule(seat_numbers(n).filter(rule)[j]),
        forall|i: int, j: int|
            0 <= i < j < seat_numbers(n).filter(rule).len() ==> seat_numbers(n).filter(rule)[i]
                < seat_numbers(n).filter(rule)[j],
        forall|s: int|
            0 <= s < n && rule(s) ==> #[trigger] seat_numbers(n).filter(rule).contains(s),
    decreases n,
{
    reveal(Seq::filter);
    if n > 0 {
        let all = seat_numbers(n);
        let shorter = seat_numbers((n - 1) as nat);
        assert(all.drop_last() == shorter);
        assert(all.last() == n - 1);
        lemma_picked_seats((n - 1) as nat, rule);
        let before = shorter.filter(rule);
        let picked = all.filter(rule);
        if rule(n - 1) {
            assert(picked == before.push(n - 1));
            assert forall|s: int| 0 <= s < n && rule(s) implies #[trigger] picked.contains(s) by {
                if s < n - 1 {
                    assert(before.contains(s));
                    let j = choose|j: int| 0 <= j < before.len() && before[j] == s;
                    assert(picked[j] == s);
                } else {
                    assert(picked[before.len() as int] == s);
                }
            }
        } else {
            assert(picked == before);
        }
    }
}

/// The seats that a rule picks are as many as it picks.
pub proof fn lemma_picked_count(n: nat, rule: spec_fn(int) -> bool, j: int)
    requires
        0 <= j <= n,
    ensures
        seat_numbers(n).take(j).filter(rule).len() == count_picked(rule, j),
    decreases j,
{
    reveal(Seq::filter);
    let all = seat_numbers(n);
    if j > 0 {
        assert(all.take(j).drop_last() == all.take(j - 1));
        assert(all.take(j).last() == j - 1);
        lemma_picked_count(n, rule, j - 1);
    }
}

/// A rule picks no fewer of more seats.
pub proof fn lemma_count_picked_grows(rule: spec_fn(int) -> bool, j: int, n: int)
    requires
        0 <= j <= n,
    ensures
        0 <= count_picked(rule, j) <= count_picked(rule, n),
        count_picked(rule, j) <= j,
    decreases n,
{
    if j < n {
        lemma_count_picked_grows(rule, j, n - 1);
    } else if j > 0 {
        lemma_count_picked_grows(rule, j - 1, n - 1);
    }
}

/// The cards of the first hands do not depend on the hands behind them.
pub proof fn lemma_all_cards_same(a: Seq<Seq<Card>>, b: Seq<Seq<Card>>, n: int)
    requires
        0 <= n <= a.len(),
        n <= b.len(),
        forall|i: int| 0 <= i < n ==> a[i] == b[i],
    ensures
        all_cards(a, n) == all_cards(b, n),
    decreases n,
{
    if n > 0 {
        lemma_all_cards_same(a, b, n - 1);
    }
}

/// As many seats are eligible for a level as have contributed that much.
pub proof fn lemma_eligible_count(bets: Seq<int>, level: int, n: int)
    requires
        0 <= n <= bets.len(),
    ensures
        seat_numbers(bets.len()).take(n).filter(has_at_least(bets, level)).len() == count_at_least(
            bets,
            level,
            n,
        ),
    decreases n,
{
    reveal(Seq::filter);
    let all = seat_numbers(bets.len());
    if n > 0 {
        assert(all.take(n).drop_last() == all.take(n - 1));
        assert(all.take(n).last() == n - 1);
        lemma_eligible_count(bets, level, n - 1);
    }
}

/// The number of the seats that are eligible for a level.
pub proof fn lemma_eligible_len(bets: Seq<int>, level: int)
    ensures
        seats_at_least(bets, level).len() == count_at_least(bets, level, bets.len() as int),
        0 <= count_at_least(bets, level, bets.len() as int) <= bets.len(),
{
    let all = seat_numbers(bets.len());
    assert(all.take(bets.len() as int) == all);
    lemma_eligible_count(bets, level, bets.len() as int);
    lemma_picked_seats(bets.len(), has_at_least(bets, level));
}

/// Where the levels ascend, those below `x` come first: the number of them is
/// the place of `x`.
pub proof fn lemma_slot(levels: Seq<int>, x: int, n: int)
    requires
        ascending_levels(levels),
        0 <= n <= levels.len(),
    ensures
        0 <= count_below(levels, x, n) <= n,
        forall|j: int| 0 <= j < count_below(levels, x, n) ==> #[trigger] levels[j] < x,
        forall|j: int| count_below(levels, x, n) <= j < n ==> #[trigger] levels[j] >= x,
    decreases n,
{
    if n > 0 {
        lemma_slot(levels, x, n - 1);
        let c = count_below(levels, x, n - 1);
        if c < n - 1 {
            assert(levels[c] >= x);
            assert(levels[c] < levels[n - 1]);
        }
    }
}

/// Putting a level in its place keeps the levels ascending; the new level is
/// among them then, with those that were there, and no other.
pub proof fn lemma_with_level(levels: Seq<int>, x: int)
    requires
        ascending_levels(levels),
        x > 0,
    ensures
        ascending_levels(with_level(levels, x)),
        with_level(levels, x).contains(x),
        forall|l: int| levels.contains(l) ==> #[trigger] with_level(levels, x).contains(l),
        forall|l: int| #[trigger]
            with_level(levels, x).contains(l) ==> l == x || levels.contains(l),
{
    let n = levels.len() as int;
    lemma_slot(levels, x, n);
    let k = count_below(levels, x, n);
    let r = with_level(levels, x);
    if k < n && levels[k] == x {
        assert(r == levels);
        assert(levels[k] == x);
    } else {
        assert(r == levels.insert(k, x));
        assert(r[k] == x);
        assert forall|i: int, j: int| 0 <= i < j < r.len() implies r[i] < r[j] by {
            if j < k {
                assert(r[i] == levels[i] && r[j] == levels[j]);
            } else if j == k {
                assert(r[i] == levels[i]);
            } else if i < k {
                assert(r[i] == levels[i] && r[j] == levels[j - 1]);
                assert(levels[j - 1] >= x);
            } else if i == k {
                assert(r[j] == levels[j - 1]);
                assert(levels[j - 1] >= x);
                assert(j - 1 >= k);
                if j - 1 > k {
                    assert(levels[k] < levels[j - 1]);
                }
            } else {
                assert(r[i] == levels[i - 1] && r[j] == levels[j - 1]);
            }
        }
        assert forall|j: int| 0 <= j < r.len() implies #[trigger] r[j] > 0 by {
            if j < k {
                assert(r[j] == levels[j]);
            } else if j > k {
                assert(r[j] == levels[j - 1]);
            }
        }
        assert forall|l: int| levels.contains(l) implies #[trigger] r.contains(l) by {
            let j = choose|j: int| 0 <= j < levels.len() && levels[j] == l;
            if j < k {
                assert(r[j] == l);
            } else {
                assert(r[j + 1] == l);
            }
        }
        assert forall|l: int| #[trigger] r.contains(l) implies l == x || levels.contains(l) by {
            let j = choose|j: int| 0 <= j < r.len() && r[j] == l;
            if j < k {
                assert(levels[j] == l);
            } else if j > k {
                assert(levels[j - 1] == l);
            }
        }
    }
}

/// The levels of side pots that were made for given levels are those levels.
pub proof fn lemma_levels_of_tiers_for(levels: Seq<int>, bets: Seq<int>)
    ensures
        levels_of(tiers_for(levels, bets)) == levels,
{
    assert(levels_of(tiers_for(levels, bets)) =~= levels);
}

/// Recording a contribution keeps the side pots as the contributions make
/// them.
pub proof fn lemma_recorded(tiers: Seq<Tier>, old_bets: Seq<int>, bets: Seq<int>, seat: int)
    requires
        ascending_levels(levels_of(tiers)),
        0 <= seat < bets.len(),
        old_bets.len() == bets.len(),
        forall|s: int| 0 <= s < bets.len() && s != seat ==> bets[s] == old_bets[s],
        forall|s: int|
            0 <= s < old_bets.len() && #[trigger] old_bets[s] > 0 ==> levels_of(tiers).contains(
                old_bets[s],
            ),
    ensures
        ascending_levels(levels_of(recorded(tiers, bets, seat))),
        recorded(tiers, bets, seat) == tiers_for(levels_of(recorded(tiers, bets, seat)), bets),
        forall|s: int|
            0 <= s < bets.len() && #[trigger] bets[s] > 0 ==> levels_of(
                recorded(tiers, bets, seat),
            ).contains(bets[s]),
{
    let levels = levels_of(tiers);
    let after = if bets[seat] > 0 {
        with_level(levels, bets[seat])
    } else {
        levels
    };
    if bets[seat] > 0 {
        lemma_with_level(levels, bets[seat]);
    }
    lemma_levels_of_tiers_for(after, bets);
    assert forall|s: int| 0 <= s < bets.len() && #[trigger] bets[s] > 0 implies after.contains(
        bets[s],
    ) by {
        if s != seat {
            assert(old_bets[s] > 0);
            assert(levels.contains(old_bets[s]));
        }
    }
}

/// Paying moves chips from a stack to the pot: none is made or lost, and the
/// side pots stay as the contributions make them.
pub proof fn lemma_paid(t: Table, seat: int, amount: int)
    requires
        t.funds_wf(),
        0 <= seat < t.seats(),
        0 <= amount <= t.stacks[seat],
    ensures
        t.paid(seat, amount).chips() == t.chips(),
        t.paid(seat, amount).funds_wf(),
        t.paid(seat, amount).ids == t.ids,
{
    lemma_total_update(t.stacks, seat, t.stacks[seat] - amount);
    lemma_total_update(t.bets, seat, t.bets[seat] + amount);
    let bets = t.bets.update(seat, t.bets[seat] + amount);
    lemma_recorded(t.tiers, t.bets, bets, seat);
}

/// Paying does not look at the queue, and leaves it as it is.
pub proof fn lemma_paid_keeps_queue(t: Table, queue: Seq<int>, seat: int, amount: int)
    ensures
        (Table { queue, ..t }).paid(seat, amount) == (Table { queue, ..t.paid(seat, amount) }),
{
}

/// A fold keeps the table well formed and the chips where they are.
pub proof fn lemma_folded(t: Table)
    requires
        t.wf(),
        t.pending > 0,
    ensures
        t.folded().wf(),
        t.folded().chips() == t.chips(),
{
    let u = t.folded();
    let seat = t.actor();
    assert(0 <= t.queue[0] < t.seats());
    assert forall|j: int| 0 <= j < u.queue.len() implies 0 <= #[trigger] u.queue[j] < u.seats()
        && u.in_round[u.queue[j]] && u.stacks[u.queue[j]] > 0 by {
        assert(u.queue[j] == t.queue[j + 1]);
        assert(t.queue[0] != t.queue[j + 1]);
    }
    assert forall|i: int, j: int| 0 <= i < j < u.queue.len() implies u.queue[i] != u.queue[j] by {
        assert(u.queue[i] == t.queue[i + 1] && u.queue[j] == t.queue[j + 1]);
    }
    assert forall|j: int| u.pending <= j < u.queue.len() implies
        u.street_bets[#[trigger] u.queue[j]]
        == u.curr_bet by {
        assert(u.queue[j] == t.queue[j + 1]);
    }
}

/// A check or a call keeps the table well formed and the chips in play.
pub proof fn lemma_called(t: Table)
    requires
        t.wf(),
        t.pending > 0,
        t.owed() < t.stacks[t.actor()],
    ensures
        t.called().wf(),
        t.called().chips() == t.chips(),
{
    let u = t.called();
    let seat = t.actor();
    assert(0 <= t.queue[0] < t.seats());
    lemma_paid(t, seat, t.owed());
    let last = u.queue.len() - 1;
    assert forall|j: int| 0 <= j < u.queue.len() implies 0 <= #[trigger] u.queue[j] < u.seats()
        && u.in_round[u.queue[j]] && u.stacks[u.queue[j]] > 0 by {
        if j < last {
            assert(u.queue[j] == t.queue[j + 1]);
            assert(t.queue[0] != t.queue[j + 1]);
        } else {
            assert(u.queue[j] == seat);
        }
    }
    assert forall|i: int, j: int| 0 <= i < j < u.queue.len() implies u.queue[i] != u.queue[j] by {
        assert(u.queue[i] == t.queue[i + 1]);
        if j < last {
            assert(u.queue[j] == t.queue[j + 1]);
        } else {
            assert(u.queue[j] == t.queue[0]);
        }
    }
    assert forall|j: int| u.pending <= j < u.queue.len() implies
        u.street_bets[#[trigger] u.queue[j]]
        == u.curr_bet by {
        if j < last {
            assert(u.queue[j] == t.queue[j + 1]);
            assert(t.queue[0] != t.queue[j + 1]);
        } else {
            assert(u.queue[j] == seat);
        }
    }
    assert forall|s: int| 0 <= s < u.seats() implies 0 <= #[trigger] u.street_bets[s] <= u.bets[s]
        && u.street_bets[s] <= u.curr_bet by {
        assert(u.street_bets[s] == t.paid(seat, t.owed()).street_bets[s]);
        assert(t.street_bets[s] <= t.curr_bet);
    }
}

/// A raise keeps the table well formed and the chips in play.
pub proof fn lemma_raised(t: Table, to: int)
    requires
        t.wf(),
        t.pending > 0,
        t.curr_bet <= to,
        to - t.street_bets[t.actor()] < t.stacks[t.actor()],
    ensures
        t.raised(to).wf(),
        t.raised(to).chips() == t.chips(),
{
    let u = t.raised(to);
    let seat = t.actor();
    assert(0 <= t.queue[0] < t.seats());
    assert(t.street_bets[seat] <= t.curr_bet);
    lemma_paid(t, seat, to - t.street_bets[seat]);
    let last = u.queue.len() - 1;
    assert forall|j: int| 0 <= j < u.queue.len() implies 0 <= #[trigger] u.queue[j] < u.seats()
        && u.in_round[u.queue[j]] && u.stacks[u.queue[j]] > 0 by {
        if j < last {
            assert(u.queue[j] == t.queue[j + 1]);
            assert(t.queue[0] != t.queue[j + 1]);
        } else {
            assert(u.queue[j] == seat);
        }
    }
    assert forall|i: int, j: int| 0 <= i < j < u.queue.len() implies u.queue[i] != u.queue[j] by {
        assert(u.queue[i] == t.queue[i + 1]);
        if j < last {
            assert(u.queue[j] == t.queue[j + 1]);
        } else {
            assert(u.queue[j] == t.queue[0]);
        }
    }
    assert forall|j: int| u.pending <= j < u.queue.len() implies
        u.street_bets[#[trigger] u.queue[j]]
        == u.curr_bet by {
        assert(u.queue[j] == seat);
    }
    assert forall|s: int| 0 <= s < u.seats() implies 0 <= #[trigger] u.street_bets[s] <= u.bets[s]
        && u.street_bets[s] <= u.curr_bet by {
        assert(u.street_bets[s] == t.paid(seat, to - t.street_bets[seat]).street_bets[s]);
        assert(t.street_bets[s] <= t.curr_bet);
    }
}

/// An all-in keeps the table well formed and the chips in play, and does not
/// lower the bet.
pub proof fn lemma_pushed(t: Table)
    requires
        t.wf(),
        t.pending > 0,
    ensures
        t.pushed().wf(),
        t.pushed().chips() == t.chips(),
        t.pushed().curr_bet >= t.curr_bet,
{
    let u = t.pushed();
    let seat = t.actor();
    assert(0 <= t.queue[0] < t.seats());
    lemma_paid(t, seat, t.stacks[seat]);
    assert forall|j: int| 0 <= j < u.queue.len() implies 0 <= #[trigger] u.queue[j] < u.seats()
        && u.in_round[u.queue[j]] && u.stacks[u.queue[j]] > 0 by {
        assert(u.queue[j] == t.queue[j + 1]);
        assert(t.queue[0] != t.queue[j + 1]);
    }
    assert forall|i: int, j: int| 0 <= i < j < u.queue.len() implies u.queue[i] != u.queue[j] by {
        assert(u.queue[i] == t.queue[i + 1] && u.queue[j] == t.queue[j + 1]);
    }
    assert forall|j: int| u.pending <= j < u.queue.len() implies
        u.street_bets[#[trigger] u.queue[j]]
        == u.curr_bet by {
        assert(u.queue[j] == t.queue[j + 1]);
        assert(t.queue[0] != t.queue[j + 1]);
    }
    assert forall|s: int| 0 <= s < u.seats() implies 0 <= #[trigger] u.street_bets[s] <= u.bets[s]
        && u.street_bets[s] <= u.curr_bet by {
        assert(u.street_bets[s] == t.paid(seat, t.stacks[seat]).street_bets[s]);
        assert(t.street_bets[s] <= t.curr_bet);
    }
}

/// Chip conservation and the invariants of a betting round. Whatever the
/// actor decides, as long as the decision can be taken: no chip is made or
/// lost, the table stays well formed (so the queue holds only players who are
/// in the hand, and the side pots ascend and hold who has contributed as much
/// as their level), the bet of the street does not fall, and the seats stay
/// as they are.
pub proof fn lemma_step(t: Table, decision: Decision)
    requires
        t.wf(),
        t.pending > 0,
        t.accepts(decision),
    ensures
        t.step(decision).wf(),
        t.step(decision).chips() == t.chips(),
        t.step(decision).curr_bet >= t.curr_bet,
        t.step(decision).ids == t.ids,
        t.step(decision).big_blind == t.big_blind,
{
    assert(0 <= t.queue[0] < t.seats());
    match decision {
        Decision::Fold => {
            lemma_folded(t);
        },
        Decision::CheckOrCall => {
            if t.owed() >= t.stacks[t.actor()] {
                lemma_pushed(t);
            } else {
                lemma_called(t);
            }
        },
        Decision::RaiseTo(to) => {
            if to - t.street_bets[t.actor()] >= t.stacks[t.actor()] {
                lemma_pushed(t);
            } else {
                lemma_raised(t, to as int);
            }
        },
        Decision::AllIn => {
            lemma_pushed(t);
        },
    }
}

/// The number of live players is not negative; where it is positive, the
/// first live seat is a seat and is in the hand.
pub proof fn lemma_first_live(in_round: Seq<bool>, n: int)
    requires
        0 <= n <= in_round.len(),
    ensures
        0 <= live_prefix(in_round, n) <= n,
        0 <= first_live_prefix(in_round, n) <= n,
        live_prefix(in_round, n) > 0 <==> first_live_prefix(in_round, n) < n,
        first_live_prefix(in_round, n) < n ==> in_round[first_live_prefix(in_round, n)],
        forall|s: int| 0 <= s < first_live_prefix(in_round, n) && s < n ==> !in_round[s],
    decreases n,
{
    if n > 0 {
        lemma_first_live(in_round, n - 1);
    }
}

/// A new street keeps the table well formed and the chips where they are.
pub proof fn lemma_street_opened(t: Table, cards: Seq<Card>)
    requires
        t.wf(),
    ensures
        t.street_opened(cards).wf(),
        t.street_opened(cards).chips() == t.chips(),
        t.street_opened(cards).ids == t.ids,
{
    let u = t.street_opened(cards);
    lemma_picked_seats(t.ids.len(), can_act(t.in_round, t.stacks));
    assert(u.tiers_wf());
    assert forall|s: int| 0 <= s < u.seats() implies
        0 <= #[trigger] u.street_bets[s] <= u.bets[s] by {
        assert(0 <= t.street_bets[s] <= t.bets[s]);
    }
}

/// The start of a hand makes the table well formed, with the chips that the
/// players had before it.
pub proof fn lemma_hand_begun(t: Table, hole: Seq<Seq<Card>>)
    requires
        t.ready(),
    ensures
        t.hand_begun(hole).wf(),
        t.hand_begun(hole).chips() == total(t.stacks),
        t.hand_begun(hole).ids == t.ids,
{
    let n = t.ids.len();
    let d = t.dealt(hole);
    lemma_picked_seats(n, can_act(d.in_round, t.stacks));
    lemma_total_zeros(n, n as int);
    assert(d.tiers_wf()) by {
        assert(levels_of(d.tiers) =~= Seq::<int>::empty());
        assert(d.tiers =~= tiers_for(levels_of(d.tiers), d.bets));
    }
    assert(d.funds_wf());
    let q = d.queue;
    let first = q[0];
    let second = q[1];
    assert(0 <= first < n && 0 <= second < n && first < second);
    let half = t.big_blind / 2;
    let put_small = if half < d.stacks[first] {
        half
    } else {
        d.stacks[first]
    };
    lemma_paid(d, first, put_small);
    let small = d.blind_posted(half);
    assert(small.funds_wf());
    assert(small.queue[0] == second);
    let put_big = if t.big_blind < small.stacks[second] {
        t.big_blind
    } else {
        small.stacks[second]
    };
    lemma_paid(small, second, put_big);
    let big = small.blind_posted(t.big_blind);
    assert(big.funds_wf());
    let u = t.hand_begun(hole);
    assert(u.funds_wf());
    assert forall|s: int| 0 <= s < u.seats() implies #[trigger] u.street_bets[s] <= u.curr_bet by {
        if s == first {
        } else if s == second {
        } else {
        }
    }
    // The queue after the blinds: the other seats in order, then the blinds
    // that have something left.
    let rest = q.drop_first().drop_first();
    assert forall|j: int| 0 <= j < u.queue.len() implies 0 <= #[trigger] u.queue[j] < u.seats()
        && u.in_round[u.queue[j]] && u.stacks[u.queue[j]] > 0 by {
        if j < rest.len() {
            assert(u.queue[j] == q[j + 2]);
        }
    }
    assert forall|i: int, j: int| 0 <= i < j < u.queue.len() implies u.queue[i] != u.queue[j] by {
        if j < rest.len() {
            assert(u.queue[i] == q[i + 2] && u.queue[j] == q[j + 2]);
        } else if i < rest.len() {
            assert(u.queue[i] == q[i + 2]);
        }
    }
}

/// The seat that leads the race for a side pot is one of the seats that were
/// looked at, and contends for it.
pub proof fn lemma_leader(t: Table, scores: Seq<HandScore>, k: int, n: int)
    requires
        0 <= n,
    ensures
        t.leader(scores, k, n) matches Some(w) ==> 0 <= w < n && t.contends(w, k),
        t.leader(scores, k, n) is None ==> forall|s: int| 0 <= s < n ==> !t.contends(s, k),
    decreases n,
{
    if n > 0 {
        lemma_leader(t, scores, k, n - 1);
    }
}

/// Who leads the race for a side pot depends on who is in the hand, on what
/// was put in and on the level of the side pot, not on the stacks.
pub proof fn lemma_leader_same(t: Table, u: Table, scores: Seq<HandScore>, k: int, n: int)
    requires
        t.in_round == u.in_round,
        t.bets == u.bets,
        t.tiers == u.tiers,
    ensures
        t.leader(scores, k, n) == u.leader(scores, k, n),
    decreases n,
{
    if n > 0 {
        lemma_leader_same(t, u, scores, k, n - 1);
    }
}

/// The sum of a sequence that holds `x` at one place and nothing elsewhere.
proof fn lemma_total_single(s: Seq<int>, w: int, x: int, n: int)
    requires
        0 <= n <= s.len(),
        forall|i: int| 0 <= i < s.len() ==> #[trigger] s[i] == if i == w {
            x
        } else {
            0
        },
    ensures
        total_prefix(s, n) == if 0 <= w < n {
            x
        } else {
            0
        },
    decreases n,
{
    if n > 0 {
        lemma_total_single(s, w, x, n - 1);
    }
}

/// The sum of a sequence that holds `x` for every seat that has contributed
/// `level`, and nothing elsewhere.
proof fn lemma_total_flagged(s: Seq<int>, bets: Seq<int>, level: int, x: int, n: int)
    requires
        0 <= n <= s.len(),
        s.len() == bets.len(),
        forall|i: int| 0 <= i < s.len() ==> #[trigger] s[i] == if bets[i] >= level {
            x
        } else {
            0
        },
    ensures
        total_prefix(s, n) == x * count_at_least(bets, level, n),
    decreases n,
{
    if n > 0 {
        lemma_total_flagged(s, bets, level, x, n - 1);
        let c = count_at_least(bets, level, n - 1);
        assert(x * (c + 1) == x * c + x) by (nonlinear_arith);
    } else {
        assert(x * 0 == 0) by (nonlinear_arith);
    }
}

/// The sum of two sequences added place by place.
proof fn lemma_total_added(a: Seq<int>, b: Seq<int>, c: Seq<int>, n: int)
    requires
        0 <= n <= a.len(),
        a.len() == b.len(),
        a.len() == c.len(),
        forall|i: int| 0 <= i < a.len() ==> #[trigger] c[i] == a[i] + b[i],
    ensures
        total_prefix(c, n) == total_prefix(a, n) + total_prefix(b, n),
    decreases n,
{
    if n > 0 {
        lemma_total_added(a, b, c, n - 1);
    }
}

/// What the side pot `k` pays to each seat.
pub open spec fn awards(t: Table, scores: Seq<HandScore>, k: int) -> Seq<int> {
    Seq::new(t.ids.len(), |s: int| t.award(scores, k, s))
}

/// What the first `m` side pots pay to each seat.
pub open spec fn winnings_upto(t: Table, scores: Seq<HandScore>, m: int) -> Seq<int> {
    Seq::new(t.ids.len(), |s: int| t.winnings_prefix(scores, s, m))
}

/// What the side pot `k` holds: its layer for every seat that is eligible.
pub open spec fn tier_size(t: Table, k: int) -> int {
    t.layer(k) * count_at_least(t.bets, t.tiers[k].level, t.seats())
}

/// What the first `m` side pots hold.
pub open spec fn tiers_size(t: Table, m: int) -> int
    decreases m,
{
    if m <= 0 {
        0
    } else {
        tiers_size(t, m - 1) + tier_size(t, m - 1)
    }
}

/// A side pot pays out what it holds, and pays nobody less than nothing.
pub proof fn lemma_tier_paid(t: Table, scores: Seq<HandScore>, k: int)
    requires
        t.funds_wf(),
        0 <= k < t.tiers.len(),
    ensures
        total(awards(t, scores, k)) == tier_size(t, k),
        t.layer(k) > 0,
        tier_size(t, k) >= 0,
        forall|s: int| 0 <= s < t.seats() ==> #[trigger] t.award(scores, k, s) >= 0,
{
    let n = t.seats();
    let a = awards(t, scores, k);
    let level = t.tiers[k].level;
    let levels = levels_of(t.tiers);
    assert(levels[k] == level);
    if k > 0 {
        assert(levels[k - 1] == t.tiers[k - 1].level);
        assert(levels[k - 1] < levels[k]);
    }
    assert(t.layer(k) > 0);
    lemma_eligible_len(t.bets, level);
    assert(t.tiers[k] == tiers_for(levels, t.bets)[k]);
    assert(t.tiers[k].eligible == seats_at_least(t.bets, level));
    let count = count_at_least(t.bets, level, n);
    assert(t.tiers[k].eligible.len() == count);
    assert(t.layer(k) * count >= 0) by (nonlinear_arith)
        requires
            t.layer(k) > 0,
            count >= 0,
    ;
    lemma_leader(t, scores, k, n);
    match t.tier_winner(scores, k) {
        Some(w) => {
            lemma_total_single(a, w, t.layer(k) * count, n);
        },
        None => {
            lemma_total_flagged(a, t.bets, level, t.layer(k), n);
        },
    }
}

/// The first `m` side pots pay out what they hold, and pay nobody less than
/// nothing.
pub proof fn lemma_tiers_paid(t: Table, scores: Seq<HandScore>, m: int)
    requires
        t.funds_wf(),
        0 <= m <= t.tiers.len(),
    ensures
        total(winnings_upto(t, scores, m)) == tiers_size(t, m),
        tiers_size(t, m) >= 0,
        forall|s: int| 0 <= s < t.seats() ==> #[trigger] t.winnings_prefix(scores, s, m) >= 0,
    decreases m,
{
    let n = t.seats();
    if m > 0 {
        lemma_tiers_paid(t, scores, m - 1);
        lemma_tier_paid(t, scores, m - 1);
        lemma_total_added(
            winnings_upto(t, scores, m - 1),
            awards(t, scores, m - 1),
            winnings_upto(t, scores, m),
            n,
        );
        assert forall|s: int| 0 <= s < t.seats() implies #[trigger] t.winnings_prefix(
            scores,
            s,
            m,
        ) >= 0 by {
            assert(t.winnings_prefix(scores, s, m - 1) >= 0);
            assert(t.award(scores, m - 1, s) >= 0);
        }
    } else {
        lemma_total_zeros(n as nat, n);
        assert(winnings_upto(t, scores, 0) =~= zeros(n as nat));
    }
}

/// What the first `m` side pots hold of the contribution `b`: the layer of
/// each side pot that `b` reaches.
pub open spec fn covered(t: Table, b: int, m: int) -> int
    decreases m,
{
    if m <= 0 {
        0
    } else {
        covered(t, b, m - 1) + if b >= t.tiers[m - 1].level {
            t.layer(m - 1)
        } else {
            0
        }
    }
}

/// What the first `m` side pots hold of the contributions of the first `j`
/// seats.
pub open spec fn tiers_size_of(t: Table, m: int, j: int) -> int
    decreases m,
{
    if m <= 0 {
        0
    } else {
        tiers_size_of(t, m - 1, j) + t.layer(m - 1) * count_at_least(
            t.bets,
            t.tiers[m - 1].level,
            j,
        )
    }
}

/// The layers that a contribution reaches add up to the highest level that it
/// reaches.
proof fn lemma_covered(t: Table, b: int, m: int)
    requires
        ascending_levels(levels_of(t.tiers)),
        0 <= m <= t.tiers.len(),
        b >= 0,
    ensures
        0 <= covered(t, b, m) <= b,
        m > 0 && b >= t.tiers[m - 1].level ==> covered(t, b, m) == t.tiers[m - 1].level,
        forall|i: int| 0 <= i < m && #[trigger] t.tiers[i].level == b ==> covered(t, b, m) == b,
    decreases m,
{
    let levels = levels_of(t.tiers);
    if m > 0 {
        lemma_covered(t, b, m - 1);
        assert(levels[m - 1] == t.tiers[m - 1].level);
        if m > 1 {
            assert(levels[m - 2] == t.tiers[m - 2].level);
            assert(levels[m - 2] < levels[m - 1]);
        }
        assert forall|i: int| 0 <= i < m && #[trigger] t.tiers[i].level == b implies covered(
            t,
            b,
            m,
        ) == b by {
            assert(levels[i] == b);
            if i < m - 1 {
                assert(levels[i] < levels[m - 1]);
            }
        }
    }
}

/// One more seat adds to the side pots what its contribution reaches.
proof fn lemma_tiers_size_next(t: Table, m: int, j: int)
    requires
        0 <= m <= t.tiers.len(),
        0 <= j < t.bets.len(),
    ensures
        tiers_size_of(t, m, j + 1) == tiers_size_of(t, m, j) + covered(t, t.bets[j], m),
    decreases m,
{
    if m > 0 {
        lemma_tiers_size_next(t, m - 1, j);
        let c = count_at_least(t.bets, t.tiers[m - 1].level, j);
        let x = t.layer(m - 1);
        assert(x * (c + 1) == x * c + x) by (nonlinear_arith);
    }
}

/// The side pots hold exactly what the first `j` seats have put in.
proof fn lemma_tiers_hold(t: Table, j: int)
    requires
        t.funds_wf(),
        0 <= j <= t.bets.len(),
    ensures
        tiers_size_of(t, t.tiers.len() as int, j) == total_prefix(t.bets, j),
    decreases j,
{
    let m = t.tiers.len() as int;
    if j > 0 {
        lemma_tiers_hold(t, j - 1);
        lemma_tiers_size_next(t, m, j - 1);
        let b = t.bets[j - 1];
        assert(0 <= t.street_bets[j - 1] <= b);
        lemma_covered(t, b, m);
        if b > 0 {
            let levels = levels_of(t.tiers);
            assert(levels.contains(b));
            let i = choose|i: int| 0 <= i < levels.len() && levels[i] == b;
            assert(t.tiers[i].level == b);
        }
    } else {
        lemma_tiers_size_empty(t, m);
    }
}

/// Of no seats the side pots hold nothing.
proof fn lemma_tiers_size_empty(t: Table, m: int)
    requires
        0 <= m,
    ensures
        tiers_size_of(t, m, 0) == 0,
    decreases m,
{
    if m > 0 {
        lemma_tiers_size_empty(t, m - 1);
        assert(t.layer(m - 1) * 0 == 0) by (nonlinear_arith);
    }
}

/// What the first `m` side pots hold, counted by seats or at once.
proof fn lemma_tiers_size_same(t: Table, m: int)
    requires
        0 <= m,
    ensures
        tiers_size_of(t, m, t.seats()) == tiers_size(t, m),
    decreases m,
{
    if m > 0 {
        lemma_tiers_size_same(t, m - 1);
    }
}

/// What some of the side pots hold is no more than what all of them hold.
proof fn lemma_tiers_size_grows(t: Table, m: int)
    requires
        t.funds_wf(),
        0 <= m <= t.tiers.len(),
    ensures
        tiers_size(t, m) <= tiers_size(t, t.tiers.len() as int),
    decreases t.tiers.len() - m,
{
    if m < t.tiers.len() {
        lemma_tiers_size_grows(t, m + 1);
        lemma_tier_paid(t, Seq::<HandScore>::empty(), m);
    }
}

/// Side-pot accounting: the side pots hold exactly the pot.
pub proof fn lemma_tiers_hold_pot(t: Table)
    requires
        t.funds_wf(),
    ensures
        tiers_size(t, t.tiers.len() as int) == t.pot(),
{
    lemma_tiers_hold(t, t.bets.len() as int);
    lemma_tiers_size_same(t, t.tiers.len() as int);
}

/// While the side pots are paid out, nobody holds more than all the chips of
/// the table.
pub proof fn lemma_payout_bounded(t: Table, scores: Seq<HandScore>, m: int)
    requires
        t.funds_wf(),
        0 <= m <= t.tiers.len(),
    ensures
        forall|s: int|
            0 <= s < t.seats() ==> 0 <= #[trigger] t.winnings_prefix(scores, s, m)
                && t.stacks[s] + t.winnings_prefix(scores, s, m) <= t.chips(),
{
    let n = t.seats();
    lemma_tiers_paid(t, scores, m);
    lemma_tiers_size_grows(t, m);
    lemma_tiers_hold_pot(t);
    let w = winnings_upto(t, scores, m);
    let after = Seq::new(n as nat, |s: int| t.stacks[s] + w[s]);
    lemma_total_added(t.stacks, w, after, n);
    assert forall|s: int| 0 <= s < after.len() implies #[trigger] after[s] >= 0 by {
        assert(t.stacks[s] >= 0);
        assert(w[s] == t.winnings_prefix(scores, s, m));
    }
    lemma_total_member(after, n);
    assert forall|s: int| 0 <= s < t.seats() implies 0 <= #[trigger] t.winnings_prefix(
        scores,
        s,
        m,
    ) && t.stacks[s] + t.winnings_prefix(scores, s, m) <= t.chips() by {
        assert(w[s] == t.winnings_prefix(scores, s, m));
        assert(after[s] == t.stacks[s] + w[s]);
        assert(after[s] <= total_prefix(after, n));
    }
}

/// No contribution is negative.
pub proof fn lemma_bets_nonnegative(t: Table)
    requires
        t.funds_wf(),
    ensures
        forall|s: int| 0 <= s < t.bets.len() ==> #[trigger] t.bets[s] >= 0,
        t.pot() >= 0,
{
    assert forall|s: int| 0 <= s < t.bets.len() implies #[trigger] t.bets[s] >= 0 by {
        assert(0 <= t.street_bets[s] <= t.bets[s]);
    }
    lemma_total_nonnegative(t.bets, t.bets.len() as int);
}

/// Chip conservation at the showdown: the side pots pay out exactly the pot,
/// so the players hold afterwards what they and the pot held before. Nobody
/// is paid less than nothing.
pub proof fn lemma_settled(t: Table, scores: Seq<HandScore>)
    requires
        t.funds_wf(),
    ensures
        total(t.payouts(scores)) == t.pot(),
        t.settled(scores).chips() == t.chips(),
        t.settled(scores).pot() == 0,
        t.settled(scores).funds_wf(),
        forall|s: int| 0 <= s < t.seats() ==> #[trigger] t.winnings(scores, s) >= 0,
{
    let n = t.seats();
    let m = t.tiers.len() as int;
    let u = t.settled(scores);
    lemma_tiers_paid(t, scores, m);
    lemma_tiers_hold_pot(t);
    assert(t.payouts(scores) =~= winnings_upto(t, scores, m));
    lemma_total_added(t.stacks, t.payouts(scores), u.stacks, n);
    lemma_total_zeros(n as nat, n);
    assert(u.tiers_wf()) by {
        assert(levels_of(u.tiers) =~= Seq::<int>::empty());
        assert(u.tiers =~= tiers_for(levels_of(u.tiers), u.bets));
    }
}

/// Chip conservation when all but one have folded: the one who is left holds
/// afterwards what that player and the pot held before.
pub proof fn lemma_conceded(t: Table)
    requires
        t.funds_wf(),
        t.live_count() >= 1,
    ensures
        t.conceded().chips() == t.chips(),
        t.conceded().pot() == 0,
        t.conceded().funds_wf(),
        0 <= t.first_live() < t.seats(),
        t.conceded().stacks[t.first_live()] == t.stacks[t.first_live()] + t.pot(),
{
    let n = t.seats();
    let u = t.conceded();
    lemma_first_live(t.in_round, n);
    let w = t.first_live();
    lemma_total_update(t.stacks, w, t.stacks[w] + t.pot());
    lemma_total_zeros(n as nat, n);
    lemma_bets_nonnegative(t);
    assert(u.tiers_wf()) by {
        assert(levels_of(u.tiers) =~= Seq::<int>::empty());
        assert(u.tiers =~= tiers_for(levels_of(u.tiers), u.bets));
    }
}

/// Clearing the table after the pot was paid out loses no chip, and leaves a
/// well-formed table.
pub proof fn lemma_cleared(t: Table)
    requires
        t.funds_wf(),
        t.big_blind >= 0,
    ensures
        t.cleared().wf(),
        t.pot() == 0 ==> t.cleared().chips() == t.chips(),
{
    let n = t.seats();
    let u = t.cleared();
    lemma_total_zeros(n as nat, n);
    lemma_bets_nonnegative(t);
    assert(u.tiers_wf()) by {
        assert(levels_of(u.tiers) =~= Seq::<int>::empty());
        assert(u.tiers =~= tiers_for(levels_of(u.tiers), u.bets));
    }
}

/// Eligibility: a seat is eligible for a side pot if and only if it has put
/// in as much as the level of the side pot.
pub proof fn lemma_eligibility(t: Table, k: int, seat: int)
    requires
        t.funds_wf(),
        0 <= k < t.tiers.len(),
    ensures
        t.tiers[k].eligible.contains(seat) <==> 0 <= seat < t.seats() && t.bets[seat]
            >= t.tiers[k].level,
{
    let level = t.tiers[k].level;
    let levels = levels_of(t.tiers);
    assert(levels[k] == level);
    assert(t.tiers[k] == tiers_for(levels, t.bets)[k]);
    let eligible = seats_at_least(t.bets, level);
    assert(t.tiers[k].eligible == eligible);
    lemma_picked_seats(t.bets.len(), has_at_least(t.bets, level));
    if eligible.contains(seat) {
        let j = choose|j: int| 0 <= j < eligible.len() && eligible[j] == seat;
        assert(0 <= eligible[j] < t.bets.len() && has_at_least(t.bets, level)(eligible[j]));
    }
}

/// Round termination: while somebody in the queue has yet to answer the last
/// raise and more than one player is in the hand, the round waits for the
/// player at the front of the queue; it is complete exactly when nobody has
/// to answer any more, and then everybody who can still act has matched the
/// bet.
pub proof fn lemma_round_complete(t: Table)
    requires
        t.wf(),
    ensures
        t.outcome() == RoundOutcome::RoundComplete <==> t.live_count() != 1 && t.pending == 0,
        t.outcome() is AwaitingAction <==> t.awaiting(),
        t.pending == 0 ==> forall|j: int|
            0 <= j < t.queue.len() ==> t.street_bets[#[trigger] t.queue[j]] == t.curr_bet,
{
    lemma_first_live(t.in_round, t.seats());
    if t.pending > 0 {
        let seat = t.queue[0];
        assert(0 <= seat < t.seats() && t.in_round[seat]);
        lemma_live_member(t.in_round, t.seats(), seat);
    }
}

/// A seat that is in the hand is counted among the live players.
pub proof fn lemma_live_member(in_round: Seq<bool>, n: int, seat: int)
    requires
        0 <= seat < n <= in_round.len(),
        in_round[seat],
    ensures
        live_prefix(in_round, n) >= 1,
    decreases n,
{
    lemma_first_live(in_round, n - 1);
    if seat < n - 1 {
        lemma_live_member(in_round, n - 1, seat);
    }
}

/// A raise leaves everybody else in the queue to answer: after a raise that
/// does not take the whole stack, the round waits for as many decisions as
/// there are other players in the queue.
pub proof fn lemma_raise_reopens(t: Table, to: int)
    requires
        t.wf(),
        t.pending > 0,
    ensures
        t.raised(to).pending == t.queue.len() - 1,
        t.raised(to).queue.len() == t.queue.len(),
        t.raised(to).queue.last() == t.actor(),
{
}

/// Fold to one: when a fold leaves one player in the hand, the hand is
/// complete, and that player takes the whole pot.
pub proof fn lemma_fold_to_one(t: Table)
    requires
        t.wf(),
        t.pending > 0,
        t.live_count() == 2,
    ensures
        t.folded().live_count() == 1,
        t.folded().outcome() == RoundOutcome::HandComplete(
            t.folded().ids[t.folded().first_live()],
        ),
        0 <= t.folded().first_live() < t.seats(),
        t.folded().conceded().stacks[t.folded().first_live()] == t.stacks[t.folded().first_live()]
            + t.pot(),
        t.folded().conceded().pot() == 0,
{
    let seat = t.actor();
    assert(0 <= t.queue[0] < t.seats() && t.in_round[t.queue[0]]);
    lemma_live_update(t.in_round, t.seats(), seat);
    lemma_folded(t);
    lemma_conceded(t.folded());
}

/// Taking a live seat out of the hand leaves one live player fewer.
pub proof fn lemma_live_update(in_round: Seq<bool>, n: int, seat: int)
    requires
        0 <= seat < in_round.len(),
        0 <= n <= in_round.len(),
        in_round[seat],
    ensures
        live_prefix(in_round.update(seat, false), n) == live_prefix(in_round, n) - if seat < n {
            1int
        } else {
            0int
        },
    decreases n,
{
    if n > 0 {
        lemma_live_update(in_round, n - 1, seat);
    }
}

/// A move keeps the table well formed and the chips in play.
pub proof fn lemma_moved(t: Table, m: Move)
    requires
        t.wf(),
    ensures
        t.moved(m).wf(),
        t.moved(m).chips() == t.chips(),
        t.moved(m).ids == t.ids,
{
    match m {
        Move::Decide(decision) => {
            if t.awaiting() && t.accepts(decision) {
                lemma_step(t, decision);
            }
        },
        Move::Deal(cards) => {
            if !t.awaiting() {
                lemma_street_opened(t, cards);
            }
        },
    }
}

/// Whatever the moves, the table stays well formed and no chip is made or
/// lost.
pub proof fn lemma_played(t: Table, moves: Seq<Move>)
    requires
        t.wf(),
    ensures
        t.played(moves).wf(),
        t.played(moves).chips() == t.chips(),
        t.played(moves).ids == t.ids,
    decreases moves.len(),
{
    if moves.len() > 0 {
        lemma_played(t, moves.drop_last());
        lemma_moved(t.played(moves.drop_last()), moves.last());
    }
}

/// Chip conservation over a hand. Whatever cards are dealt, whatever the
/// players decide and whatever their hands are worth: after the hand the
/// players hold together what they held before it, the pot is empty, and the
/// table is well formed.
pub proof fn lemma_hand_conserves_chips(
    t: Table,
    hole: Seq<Seq<Card>>,
    moves: Seq<Move>,
    scores: Seq<HandScore>,
)
    requires
        t.ready(),
    ensures
        total(t.hand_played(hole, moves, scores).stacks) == total(t.stacks),
        t.hand_played(hole, moves, scores).pot() == 0,
        t.hand_played(hole, moves, scores).wf(),
        t.hand_begun(hole).played(moves).chips() == total(t.stacks),
{
    let begun = t.hand_begun(hole);
    lemma_hand_begun(t, hole);
    lemma_played(begun, moves);
    let end = begun.played(moves);
    let n = end.ids.len();
    lemma_total_zeros(n, n as int);
    if end.live_count() == 1 {
        lemma_conceded(end);
        lemma_cleared(end.conceded());
    } else {
        lemma_settled(end, scores);
        lemma_cleared(end.settled(scores));
    }
}

/// The winner of a side pot contends for it, is outranked by none who
/// contends for it, and outranks all who contend for it from an earlier seat.
pub proof fn lemma_leader_is_best(t: Table, scores: Seq<HandScore>, k: int, n: int)
    requires
        0 <= n,
    ensures
        t.leader(scores, k, n) matches Some(w) ==> {
            &&& 0 <= w < n
            &&& t.contends(w, k)
            &&& forall|s: int| 0 <= s < n
                && t.contends(s, k) ==> !scores[w].below(#[trigger] scores[s])
            &&& forall|s: int| 0 <= s < w
                && t.contends(s, k) ==> (#[trigger] scores[s]).below(scores[w])
        },
        t.leader(scores, k, n) is None ==> forall|s: int| 0 <= s < n ==> !t.contends(s, k),
    decreases n,
{
    if n > 0 {
        lemma_leader_is_best(t, scores, k, n - 1);
        lemma_leader(t, scores, k, n - 1);
        let before = t.leader(scores, k, n - 1);
        if t.contends(n - 1, k) && (before is None || scores[before.unwrap()].below(
            scores[n - 1],
        )) {
            if before is Some {
                let b = before.unwrap();
                assert forall|s: int| 0 <= s < n - 1 && t.contends(s, k) implies (
                #[trigger] scores[s]).below(scores[n - 1]) by {
                    assert(!scores[b].below(scores[s]));
                }
            }
        }
    }
}

/// Who wins a side pot wins every higher side pot that the player is eligible
/// for. So the side pots that a player wins are the highest of those the
/// player is eligible for, down to the first that another player wins.
pub proof fn lemma_wins_upward(t: Table, scores: Seq<HandScore>, j: int, k: int, w: int)
    requires
        t.funds_wf(),
        0 <= j <= k < t.tiers.len(),
        t.tier_winner(scores, j) == Some(w),
        t.bets[w] >= t.tiers[k].level,
    ensures
        t.tier_winner(scores, k) == Some(w),
{
    let n = t.seats();
    lemma_leader_is_best(t, scores, j, n);
    lemma_leader_is_best(t, scores, k, n);
    let levels = levels_of(t.tiers);
    assert(levels[j] == t.tiers[j].level && levels[k] == t.tiers[k].level);
    if j < k {
        assert(levels[j] < levels[k]);
    }
    assert(t.contends(w, k));
    let other = t.tier_winner(scores, k).unwrap();
    assert(t.contends(other, j));
    if other < w {
        assert(scores[other].below(scores[w]));
        assert(!scores[other].below(scores[w]));
    } else if w < other {
        assert(scores[w].below(scores[other]));
        assert(!scores[w].below(scores[other]));
    }
}

/// What the players win and lose in a hand adds up to nothing: whatever is
/// paid out of the pot, as long as no chip is made or lost, what one player
/// has more than the player brought to the hand, others have less.
pub proof fn lemma_deltas_balance(t: Table, u: Table, deltas: Seq<int>)
    requires
        t.shaped(),
        u.shaped(),
        u.ids.len() == t.ids.len(),
        deltas.len() == t.ids.len(),
        u.chips() == t.chips(),
        u.pot() == 0,
        forall|s: int|
            0 <= s < deltas.len() ==> #[trigger] deltas[s] == u.stacks[s] - t.stacks[s] - t.bets[s],
    ensures
        total(deltas) == 0,
{
    let n = t.seats();
    let stakes = Seq::new(n as nat, |s: int| t.stacks[s] + t.bets[s]);
    lemma_total_added(t.stacks, t.bets, stakes, n);
    lemma_total_added(stakes, deltas, u.stacks, n);
}

/// Whether the decision is an answer to the bet that does not raise it by
/// choice: a fold, or a check or call.
pub open spec fn is_answer(decision: Decision) -> bool {
    decision == Decision::Fold || decision == Decision::CheckOrCall
}

/// Round termination, in general. When the players to act fold, check or
/// call one after the other, each answer leaves one player fewer to answer.
/// So a round in which `pending` players have yet to answer the last raise
/// does not close before all of them have answered, and closes with the
/// answer of the last: no decision more, and none less.
pub proof fn lemma_answers_close_round(t: Table, answers: Seq<Decision>)
    requires
        t.wf(),
        answers.len() <= t.pending,
        forall|i: int| 0 <= i < answers.len() ==> is_answer(#[trigger] answers[i]),
    ensures
        t.answered(answers).wf(),
        t.answered(answers).pending == t.pending - answers.len(),
        t.answered(answers).curr_bet == t.curr_bet,
        t.answered(answers).chips() == t.chips(),
        answers.len() < t.pending ==> t.answered(answers).outcome() != RoundOutcome::RoundComplete,
        answers.len() == t.pending ==> !t.answered(answers).awaiting(),
    decreases answers.len(),
{
    if answers.len() > 0 {
        let before = t.answered(answers.drop_last());
        let answer = answers.last();
        assert forall|i: int| 0 <= i < answers.drop_last().len() implies is_answer(
            #[trigger] answers.drop_last()[i],
        ) by {
            assert(answers.drop_last()[i] == answers[i]);
        }
        lemma_answers_close_round(t, answers.drop_last());
        assert(is_answer(answer));
        assert(before.pending > 0);
        assert(0 <= before.queue[0] < before.seats());
        assert(before.street_bets[before.actor()] <= before.curr_bet);
        lemma_step(before, answer);
    }
}

} // verus!
