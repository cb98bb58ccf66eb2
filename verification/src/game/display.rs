//! The table in text, for a terminal: who is to act, the cards of a player
//! beside those of the table, and what a player has put in.

use crate::game::hand::Card;
use crate::game::table::Table;
use crate::game::{seats_of, Game};
use crate::utils::{
    columns_of, dashes, decimal, decimal_text, format_next_to_each_other,
    get_dashes_for_longest_string, longest, repeat, repeated, table_text, texts_of, widest,
};
use vstd::prelude::*;

verus! {

/// The three lines above the player who is to act: an arrow that points down,
/// `indent` blanks from the left.
pub open spec fn arrow_lines(indent: nat) -> Seq<Seq<char>> {
    seq![
        repeated(" "@, indent) + "|"@,
        repeated(" "@, indent) + "|"@,
        repeated(" "@, indent) + "v"@,
    ]
}

/// What is shown of the player at `seat`: who it is, what the player has put
/// in during the hand, and what the player has left.
pub open spec fn player_lines(t: Table, seat: int) -> Seq<Seq<char>> {
    seq![
        "Player: "@ + decimal_text(t.ids[seat] as int),
        "Contribution: "@ + decimal_text(t.bets[seat]),
        "Money: "@ + decimal_text(t.stacks[seat]),
    ]
}

/// How far the arrow stands from the left: half the width of the number of
/// the player to act, behind "Player: ".
pub open spec fn arrow_indent(t: Table) -> nat {
    crate::utils::width(decimal_text(t.ids[t.queue[0]] as int)) / 2 + 8
}

/// The column of the player at place `j` of the queue: the arrow above the
/// first, three empty lines above the others.
pub open spec fn turn_column(t: Table, j: int) -> Seq<Seq<char>> {
    if j == 0 {
        arrow_lines(arrow_indent(t)) + player_lines(t, t.queue[j])
    } else {
        seq![""@, ""@, ""@] + player_lines(t, t.queue[j])
    }
}

/// The columns of the players in the queue.
pub open spec fn turn_columns(t: Table) -> Seq<Seq<Seq<char>>> {
    Seq::new(t.queue.len(), |j: int| turn_column(t, j))
}

/// How wide the first `m` columns are side by side, with " | " between them.
pub open spec fn row_width(columns: Seq<Seq<Seq<char>>>, m: int) -> nat
    decreases m,
{
    if m <= 0 {
        0
    } else if m == 1 {
        widest(columns[0])
    } else {
        row_width(columns, m - 1) + 3 + widest(columns[m - 1])
    }
}

/// The heading of the turn state: " Turn State " between dashes, as wide as
/// the table where that is wider. A table wider than can be counted is taken
/// to be as wide as can be counted.
pub open spec fn turn_heading(width: nat) -> Seq<char> {
    let counted = if width > usize::MAX {
        usize::MAX as nat
    } else {
        width
    };
    let n = if counted > 12 {
        ((counted - 12) / 2) as nat
    } else {
        0nat
    };
    repeated("-"@, n) + " Turn State "@ + repeated("-"@, n)
}

/// The turn state in text: an empty line, the heading, and the players in
/// the queue side by side; nothing where the queue is empty.
pub open spec fn turn_state_text(t: Table) -> Seq<char> {
    if t.queue.len() == 0 {
        Seq::empty()
    } else {
        "\n"@ + turn_heading(row_width(turn_columns(t), t.queue.len() as int)) + "\n"@
            + table_text(turn_columns(t)) + "\n"@
    }
}

/// The column of a player's cards: "Your Cards", a line of dashes as wide as
/// the widest card, and the cards.
pub open spec fn own_cards_column(cards: Seq<Card>) -> Seq<Seq<char>> {
    let lines = Seq::new(cards.len(), |i: int| cards[i].text());
    seq!["Your Cards"@, repeated("-"@, widest(lines))] + lines
}

/// What is shown of the table's cards: the cards, or one line that says that
/// there are none.
pub open spec fn community_lines(cards: Seq<Card>) -> Seq<Seq<char>> {
    if cards.len() == 0 {
        seq!["Community cards have not been dealt."@]
    } else {
        Seq::new(cards.len(), |i: int| cards[i].text())
    }
}

/// The column of the table's cards: "Community Cards:", a line of dashes as
/// wide as the widest line below it, and the cards.
pub open spec fn community_column(cards: Seq<Card>) -> Seq<Seq<char>> {
    seq!["Community Cards:"@, repeated("-"@, widest(community_lines(cards)))] + community_lines(
        cards,
    )
}

/// The cards of the player at `seat` beside those of the table, and an empty
/// line.
pub open spec fn cards_text(t: Table, seat: int) -> Seq<char> {
    table_text(seq![own_cards_column(t.hole_cards[seat]), community_column(t.community)]) + "\n"@
        + "\n"@
}

/// The columns of the pot state for the player at `seat`: the bet of the
/// table, what the player has put in during the hand and on this street, and
/// what the player has left.
pub open spec fn pot_columns(t: Table, seat: int) -> Seq<Seq<Seq<char>>> {
    seq![
        seq!["Table's Current Bet"@, repeated("-"@, 18), decimal_text(t.curr_bet)],
        seq!["Your Contribution to the Pot"@, repeated("-"@, 29), decimal_text(t.bets[seat])],
        seq![
            "Your Current Contribution to the Bet"@,
            repeated("-"@, 37),
            decimal_text(t.street_bets[seat]),
        ],
        seq!["Your Money"@, repeated("-"@, 15), decimal_text(t.stacks[seat])],
    ]
}

/// The pot state in text, and an empty line.
pub open spec fn pot_state_text(t: Table, seat: int) -> Seq<char> {
    table_text(pot_columns(t, seat)) + "\n"@ + "\n"@
}

/// `label` followed by the number in decimal.
fn labelled(label: &str, number: i32) -> (line: String)
    ensures
        line@ == label@ + decimal_text(number as int),
{
    let mut line = String::from_str(label);
    let digits = decimal(number);
    line.append(digits.as_str());
    line
}

/// A column with its heading: the heading, a line of dashes as wide as the
/// widest of the lines, and the lines.
fn headed(heading: &str, lines: Vec<String>) -> (column: Vec<String>)
    requires
        lines.len() > 0,
    ensures
        column.len() == lines.len() + 2,
        texts_of(column@) == seq![heading@, repeated("-"@, widest(texts_of(lines@)))] + texts_of(
            lines@,
        ),
{
    let mut column: Vec<String> = Vec::new();
    column.push(String::from_str(heading));
    column.push(get_dashes_for_longest_string(&lines));
    let mut i: usize = 0;
    let ghost head = texts_of(column@);
    assert(head =~= seq![heading@, repeated("-"@, widest(texts_of(lines@)))]);
    while i < lines.len()
        invariant
            i <= lines.len(),
            column.len() == i + 2,
            texts_of(column@) == head + texts_of(lines@).take(i as int),
        decreases lines.len() - i,
    {
        let ghost so_far = column@;
        column.push(lines[i].clone());
        assert(texts_of(column@) =~= texts_of(so_far).push(lines[i as int]@));
        assert(texts_of(lines@).take(i + 1) =~= texts_of(lines@).take(i as int).push(
            lines[i as int]@,
        ));
        i += 1;
    }
    assert(texts_of(lines@).take(lines.len() as int) == texts_of(lines@));
    column
}

/// A column of three lines.
fn column_of(first: String, second: String, third: String) -> (column: Vec<String>)
    ensures
        column.len() == 3,
        texts_of(column@) == seq![first@, second@, third@],
{
    let mut column: Vec<String> = Vec::new();
    column.push(first);
    column.push(second);
    column.push(third);
    assert(texts_of(column@) =~= seq![first@, second@, third@]);
    column
}

/// How wide the columns are side by side, as far as that can be counted.
fn width_of_rows(columns: &Vec<Vec<String>>) -> (width: usize)
    ensures
        row_width(columns_of(columns@), columns.len() as int) <= usize::MAX ==> width == row_width(
            columns_of(columns@),
            columns.len() as int,
        ),
        row_width(columns_of(columns@), columns.len() as int) > usize::MAX ==> width == usize::MAX,
{
    let ghost shown = columns_of(columns@);
    let mut width: usize = 0;
    let mut c: usize = 0;
    while c < columns.len()
        invariant
            c <= columns.len(),
            shown == columns_of(columns@),
            width == row_width(shown, c as int),
        decreases columns.len() - c,
    {
        assert(shown[c as int] == texts_of(columns[c as int]@));
        let here = longest(&columns[c]);
        if c == 0 {
            width = here;
        } else if here > usize::MAX - 3 || width > usize::MAX - 3 - here {
            proof {
                lemma_row_width_grows(shown, c + 1, columns.len() as int);
            }
            return usize::MAX;
        } else {
            width = width + 3 + here;
        }
        c += 1;
    }
    width
}

/// More columns are no less wide.
proof fn lemma_row_width_grows(columns: Seq<Seq<Seq<char>>>, m: int, n: int)
    requires
        0 <= m <= n,
    ensures
        row_width(columns, m) <= row_width(columns, n),
    decreases n - m,
{
    if m < n {
        lemma_row_width_grows(columns, m + 1, n);
    }
}

impl Game {
    /// The turn state in text: an empty line, the heading, and the players in
    /// the queue side by side, with an arrow above the one who is to act.
    /// Nothing where the queue is empty.
    pub fn format_turn_state(&self) -> (text: String)
        requires
            self@.wf(),
        ensures
            text@ == turn_state_text(self@),
    {
        let ghost t = self@;
        let queue = self.get_turn_seats();
        let mut text = String::new();
        if queue.len() == 0 {
            assert(t.queue.len() == 0);
            return text;
        }
        assert(seats_of(queue@)[0] == queue[0]);
        assert(0 <= t.queue[0] < t.seats());
        let mut columns: Vec<Vec<String>> = Vec::new();
        let mut j: usize = 0;
        while j < queue.len()
            invariant
                j <= queue.len(),
                t == self@,
                t.wf(),
                seats_of(queue@) == t.queue,
                columns.len() == j,
                forall|i: int| 0 <= i < j
                    ==> texts_of((#[trigger] columns[i])@) == turn_column(t, i),
            decreases queue.len() - j,
        {
            let seat = queue[j];
            assert(seats_of(queue@)[j as int] == seat);
            assert(0 <= t.queue[j as int] < t.seats());
            let player = self.get_player(seat).unwrap();
            let mut column: Vec<String> = Vec::new();
            if j == 0 {
                let width = decimal(player.player_id).as_str().as_bytes().len() / 2 + 8;
                let mut line = repeat(" ", width);
                line.append("|");
                column.push(line);
                let mut line = repeat(" ", width);
                line.append("|");
                column.push(line);
                let mut line = repeat(" ", width);
                line.append("v");
                column.push(line);
            } else {
                column.push(String::new());
                column.push(String::new());
                column.push(String::new());
            }
            column.push(labelled("Player: ", player.player_id));
            column.push(labelled("Contribution: ", self.get_contribution(seat).unwrap()));
            column.push(labelled("Money: ", player.money));
            proof {
                reveal_strlit("");
                assert(""@ =~= Seq::<char>::empty());
                assert(texts_of(column@) =~= turn_column(t, j as int));
            }
            columns.push(column);
            j += 1;
        }
        let ghost shown = turn_columns(t);
        assert(columns_of(columns@) =~= shown);
        let body = format_next_to_each_other(&columns);
        let width = width_of_rows(&columns);
        let side = if width > 12 {
            (width - 12) / 2
        } else {
            0
        };
        text.append("\n");
        text.append(dashes(side).as_str());
        text.append(" Turn State ");
        text.append(dashes(side).as_str());
        text.append("\n");
        text.append(body.as_str());
        text.append("\n");
        proof {
            assert(text@ =~= turn_state_text(t));
        }
        text
    }

    /// The cards of the player at `seat` beside those of the table: two
    /// columns with their headings, and an empty line.
    pub fn format_cards(&self, seat: usize) -> (text: String)
        requires
            seat < self@.seats(),
            self@.hole_cards[seat as int].len() > 0,
        ensures
            text@ == cards_text(self@, seat as int),
    {
        let ghost t = self@;
        let player = self.get_player(seat).unwrap();
        let mut own: Vec<String> = Vec::new();
        let mut i: usize = 0;
        while i < player.hole_cards.len()
            invariant
                i <= player.hole_cards.len(),
                own.len() == i,
                forall|j: int| 0 <= j < i ==> (#[trigger] own[j])@ == player.hole_cards@[j].text(),
            decreases player.hole_cards.len() - i,
        {
            own.push(player.hole_cards[i].to_string());
            i += 1;
        }
        let ghost own_lines = Seq::new(
            t.hole_cards[seat as int].len(),
            |i: int| t.hole_cards[seat as int][i].text(),
        );
        assert(texts_of(own@) =~= own_lines);
        let own_column = headed("Your Cards", own);
        let community_cards = self.get_community_cards();
        let mut shared: Vec<String> = Vec::new();
        if community_cards.len() == 0 {
            shared.push(String::from_str("Community cards have not been dealt."));
        } else {
            let mut i: usize = 0;
            while i < community_cards.len()
                invariant
                    i <= community_cards.len(),
                    shared.len() == i,
                    forall|j: int|
                        0 <= j < i ==> (#[trigger] shared[j])@ == community_cards@[j].text(),
                decreases community_cards.len() - i,
            {
                shared.push(community_cards[i].to_string());
                i += 1;
            }
        }
        assert(texts_of(shared@) =~= community_lines(t.community));
        let shared_column = headed("Community Cards:", shared);
        let mut columns: Vec<Vec<String>> = Vec::new();
        columns.push(own_column);
        columns.push(shared_column);
        proof {
            assert(columns_of(columns@) =~= seq![
                own_cards_column(t.hole_cards[seat as int]),
                community_column(t.community),
            ]);
        }
        let mut text = format_next_to_each_other(&columns);
        text.append("
");
        text.append("
");
        text
    }

    /// The pot state for the player at `seat`: the bet of the table, what the
    /// player has put in during the hand and on this street, and what the
    /// player has left, side by side, and an empty line.
    pub fn format_pot_state(&self, seat: usize) -> (text: String)
        requires
            seat < self@.seats(),
        ensures
            text@ == pot_state_text(self@, seat as int),
    {
        let ghost t = self@;
        let player = self.get_player(seat).unwrap();
        let mut columns: Vec<Vec<String>> = Vec::new();
        columns.push(
            column_of(
                String::from_str("Table's Current Bet"),
                dashes(18),
                decimal(self.get_current_bet()),
            ),
        );
        columns.push(
            column_of(
                String::from_str("Your Contribution to the Pot"),
                dashes(29),
                decimal(self.get_contribution(seat).unwrap()),
            ),
        );
        columns.push(
            column_of(
                String::from_str("Your Current Contribution to the Bet"),
                dashes(37),
                decimal(self.get_street_contribution(seat).unwrap()),
            ),
        );
        columns.push(
            column_of(String::from_str("Your Money"), dashes(15), decimal(player.money)),
        );
        proof {
            assert(columns_of(columns@) =~= pot_columns(t, seat as int));
        }
        let mut text = format_next_to_each_other(&columns);
        text.append("
");
        text.append("
");
        text
    }
}

} // verus!
