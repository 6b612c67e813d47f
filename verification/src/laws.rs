//! The board's general laws, each stated over the same specifications the
//! operations' contracts use, and proved once and for all.

use vstd::multiset::group_multiset_axioms;
use vstd::prelude::*;
use vstd::seq_lib::group_to_multiset_ensures;

use crate::board::ScoreBoard;
use crate::game::{fresh_game, total_of};
use crate::ordering::{
    busy, disjoint_teams, involves, lemma_board_order_unique, lemma_sorted_remove, pair_at,
    ranks_no_later,
};

verus! {

/// No team name is simultaneously `home` or `away` in two active games:
/// on a well-formed board, the game that involves a name is the only one
/// that does.
pub proof fn lemma_team_plays_at_most_once(b: &ScoreBoard, n: Seq<char>, i: int, j: int)
    requires
        b.wf(),
        0 <= i < b@.len(),
        0 <= j < b@.len(),
        i != j,
        involves(b@[i], n),
    ensures
        !involves(b@[j], n),
{
    assert(disjoint_teams(b@[i], b@[j]));
}

/// The summary is always non-increasingly ordered: combined scores never
/// grow down the list, and within one combined score the start orders
/// never grow either.
pub proof fn lemma_summary_is_ordered(b: &ScoreBoard, i: int, j: int)
    requires
        b.wf(),
        0 <= i <= j < b@.len(),
    ensures
        total_of(b@[i]) >= total_of(b@[j]),
        total_of(b@[i]) == total_of(b@[j]) ==> b@[i].order >= b@[j].order,
{
    assert(ranks_no_later(b@[i], b@[j]));
}

/// Reading the summary mutates nothing, so two reads without an
/// intervening mutation yield identical output: the summary is a function
/// of the board alone.
pub proof fn lemma_summary_read_idempotent(b: &ScoreBoard, r1: Seq<Seq<char>>, r2: Seq<Seq<char>>)
    requires
        r1 == b.summary_view(),
        r2 == b.summary_view(),
    ensures
        r1 == r2,
{
}

/// Starting a game and then finishing it returns the board to its prior
/// state: the same games, in the same order. The hypotheses are exactly
/// what `start_game` and `finish_game` ensure on success.
pub proof fn lemma_start_finish_round_trip(
    b0: &ScoreBoard,
    b1: &ScoreBoard,
    b2: &ScoreBoard,
    home: Seq<char>,
    away: Seq<char>,
)
    requires
        b0.wf(),
        b1.wf(),
        home != away,
        !busy(b0@, home),
        !busy(b0@, away),
        b1@.to_multiset() == b0@.to_multiset().insert(
            fresh_game(home, away, b0.next_order as nat),
        ),
        exists|i: int| #[trigger] pair_at(b1@, i, home, away) && b2@ == b1@.remove(i),
    ensures
        b2@ == b0@,
{
    broadcast use group_to_multiset_ensures;
    broadcast use group_multiset_axioms;

    let gv = fresh_game(home, away, b0.next_order as nat);
    let i = choose|i: int| #[trigger] pair_at(b1@, i, home, away) && b2@ == b1@.remove(i);
    // The fresh game is on the second board, and exclusivity makes it the
    // very game that the removal found.
    assert(b1@.to_multiset().count(gv) > 0);
    assert(b1@.contains(gv));
    let k = choose|k: int| 0 <= k < b1@.len() && b1@[k] == gv;
    assert(involves(b1@[k], home));
    assert(involves(b1@[i], home));
    if k != i {
        assert(disjoint_teams(b1@[k], b1@[i]));
        assert(false);
    }
    assert(b1@[i] == gv);
    // Removing it undoes the insertion.
    assert(b2@.to_multiset() =~= b1@.to_multiset().remove(gv));
    assert(b2@.to_multiset() =~= b0@.to_multiset());
    // Both arrangements are sorted with pairwise distinct start orders, so
    // they are one and the same.
    lemma_sorted_remove(b1@, i);
    lemma_board_order_unique(b0@, b2@);
}

} // verus!
