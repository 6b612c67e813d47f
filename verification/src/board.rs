//! The score board itself: an always-sorted collection of games, the
//! exclusivity check, the two lookups, and the four public operations.

use vstd::prelude::*;

use crate::errors::{Action, BoardError};
use crate::game::{fresh_game, line_of, with_scores, Game, GameView, Team};
use crate::ordering::{
    all_valid, busy, disjoint_teams, distinct_orders, has_pair, involves,
    lemma_board_order_unique, lemma_permutation_preserves_shape, lemma_ranks_transitive,
    lemma_shape_push, lemma_shape_remove, lemma_shape_update, lemma_sorted_remove, orders_below,
    pair_at, ranks_no_later, sorted, sorted_prefix, team_exclusive,
};
use vstd::multiset::group_multiset_axioms;
use vstd::seq_lib::group_to_multiset_ensures;

verus! {

/// The views of a sequence of games, element by element.
pub open spec fn views_of(s: Seq<Game>) -> Seq<GameView> {
    Seq::new(s.len(), |i: int| s[i]@)
}

/// Removing a game commutes with taking views.
proof fn lemma_views_remove(s: Seq<Game>, i: int)
    requires
        0 <= i < s.len(),
    ensures
        views_of(s.remove(i)) =~= views_of(s).remove(i),
{
    assert forall|j: int| 0 <= j < s.remove(i).len() implies views_of(s.remove(i))[j] == views_of(
        s,
    ).remove(i)[j] by {
        if j < i {
            assert(s.remove(i)[j] == s[j]);
        } else {
            assert(s.remove(i)[j] == s[j + 1]);
        }
    }
}

/// Inserting a game commutes with taking views.
proof fn lemma_views_insert(s: Seq<Game>, i: int, g: Game)
    requires
        0 <= i <= s.len(),
    ensures
        views_of(s.insert(i, g)) =~= views_of(s).insert(i, g@),
{
    assert forall|j: int| 0 <= j < s.insert(i, g).len() implies views_of(s.insert(i, g))[j]
        == views_of(s).insert(i, g@)[j] by {
        if j < i {
            assert(s.insert(i, g)[j] == s[j]);
        } else if j == i {
            assert(s.insert(i, g)[j] == g);
        } else {
            assert(s.insert(i, g)[j] == s[j - 1]);
        }
    }
}

/// Appending a game commutes with taking views.
proof fn lemma_views_push(s: Seq<Game>, g: Game)
    ensures
        views_of(s.push(g)) =~= views_of(s).push(g@),
{
    assert forall|j: int| 0 <= j < s.push(g).len() implies views_of(s.push(g))[j] == views_of(
        s,
    ).push(g@)[j] by {
        if j < s.len() {
            assert(s.push(g)[j] == s[j]);
        } else {
            assert(s.push(g)[j] == g);
        }
    }
}

/// Taking one game out of a sequence and putting it back, wherever it is put
/// back, leaves the games of the sequence the same.
proof fn lemma_remove_insert_multiset(s: Seq<GameView>, i: int, pos: int)
    requires
        0 <= i < s.len(),
        0 <= pos <= s.len() - 1,
    ensures
        s.remove(i).insert(pos, s[i]).to_multiset() == s.to_multiset(),
{
    broadcast use group_multiset_axioms;
    broadcast use group_to_multiset_ensures;

    let v = s[i];
    let t = s.remove(i);
    let u = t.insert(pos, v);
    assert(t.to_multiset() =~= s.to_multiset().remove(v));
    assert(u.remove(pos) =~= t);
    assert(u[pos] == v);
    assert(u.remove(pos).to_multiset() =~= u.to_multiset().remove(v));
    assert(s.contains(v));
    assert(s.to_multiset().count(v) > 0);
    assert(u.contains(v));
    assert(u.to_multiset().count(v) > 0);
    assert forall|x: GameView| s.to_multiset().count(x) == u.to_multiset().count(x) by {
        assert(s.to_multiset().remove(v).count(x) == u.to_multiset().remove(v).count(x));
    }
    assert(u.to_multiset() =~= s.to_multiset());
}

/// Inserting a game adds exactly that game to the games of the sequence.
proof fn lemma_insert_to_multiset(s: Seq<GameView>, i: int, v: GameView)
    requires
        0 <= i <= s.len(),
    ensures
        s.insert(i, v).to_multiset() == s.to_multiset().insert(v),
{
    broadcast use group_multiset_axioms;
    broadcast use group_to_multiset_ensures;

    let u = s.insert(i, v);
    assert(u.remove(i) =~= s);
    assert(u[i] == v);
    assert(u.remove(i).to_multiset() =~= u.to_multiset().remove(v));
    assert(u.contains(v));
    assert(u.to_multiset().count(v) > 0);
    assert forall|x: GameView| u.to_multiset().count(x) == s.to_multiset().insert(v).count(x) by {
        assert(s.to_multiset().count(x) == u.to_multiset().remove(v).count(x));
    }
    assert(u.to_multiset() =~= s.to_multiset().insert(v));
}

/// Whether `a` may stand at or before `b` on the board.
fn game_no_later(a: &Game, b: &Game) -> (r: bool)
    ensures
        r == ranks_no_later(a@, b@),
{
    let total_a = a.get_total_score();
    let total_b = b.get_total_score();
    if total_a > total_b {
        true
    } else if total_a == total_b {
        a.start_order >= b.start_order
    } else {
        false
    }
}

/// A score board: the currently played games, always arranged per the
/// comparator, plus the source of fresh start-order markers.
pub struct ScoreBoard {
    /// The active games, sorted by combined score descending, then by
    /// start order descending.
    pub data: Vec<Game>,
    /// The next start-order marker to hand out; strictly greater than the
    /// marker of every game on the board.
    pub next_order: u64,
}

impl View for ScoreBoard {
    type V = Seq<GameView>;

    open spec fn view(&self) -> Seq<GameView> {
        views_of(self.data@)
    }
}

impl ScoreBoard {
    /// The board's invariant: games sorted, no team in two games, start
    /// orders pairwise distinct and all below `next_order`, and every game
    /// well formed in isolation.
    pub open spec fn wf(&self) -> bool {
        &&& sorted(self@)
        &&& team_exclusive(self@)
        &&& distinct_orders(self@)
        &&& all_valid(self@)
        &&& orders_below(self@, self.next_order as nat)
    }

    /// The rendered summary the board stands for: one line per game, in the
    /// board's current arrangement.
    pub open spec fn summary_view(&self) -> Seq<Seq<char>> {
        Seq::new(self@.len(), |i: int| line_of(self@[i]))
    }

    /// Returns a newly created, empty score board.
    pub fn new() -> (r: ScoreBoard)
        ensures
            r.wf(),
            r@ == Seq::<GameView>::empty(),
            r.next_order == 0,
    {
        let r = ScoreBoard { data: Vec::new(), next_order: 0 };
        proof {
            assert(r@ =~= Seq::<GameView>::empty());
        }
        r
    }

    /// Finds the first game that the given team is currently playing,
    /// scanning from the top of the board.
    fn find_game_index_of_team(&self, team_name: &String) -> (r: Option<usize>)
        ensures
            match r {
                Some(i) => i < self@.len() && involves(self@[i as int], team_name@) && (forall|
                    j: int,
                |
                    0 <= j < i ==> !involves(self@[j], team_name@)),
                None => !busy(self@, team_name@),
            },
    {
        let mut id: usize = 0;
        while id < self.data.len()
            invariant
                id <= self.data.len(),
                forall|j: int| 0 <= j < id ==> !involves(self@[j], team_name@),
            decreases self.data.len() - id,
        {
            if self.data[id].home_team.name == *team_name || self.data[id].away_team.name
                == *team_name {
                return Some(id);
            }
            id = id + 1;
        }
        None
    }

    /// Checks whether either of the two teams is currently in any game;
    /// the first one found busy (checked in argument order) names the error.
    fn check_if_currently_playing(&self, name_1: &String, name_2: &String) -> (r: Result<
        (),
        BoardError,
    >)
        ensures
            match r {
                Ok(_) => !busy(self@, name_1@) && !busy(self@, name_2@),
                Err(e) => e matches BoardError::TeamBusyError { name } && (if busy(
                    self@,
                    name_1@,
                ) {
                    name@ == name_1@
                } else {
                    busy(self@, name_2@) && name@ == name_2@
                }),
            },
    {
        match self.find_game_index_of_team(name_1) {
            Some(_) => {
                return Err(BoardError::TeamBusyError { name: name_1.clone() });
            },
            None => {},
        }
        match self.find_game_index_of_team(name_2) {
            Some(_) => {
                return Err(BoardError::TeamBusyError { name: name_2.clone() });
            },
            None => {},
        }
        Ok(())
    }

    /// Finds the game between the given home and away teams, with the roles
    /// exactly as given: a game whose roles are swapped is not a match.
    fn find_game_index(&self, home_name: &String, away_name: &String) -> (r: Option<usize>)
        requires
            self.wf(),
        ensures
            match r {
                Some(i) => pair_at(self@, i as int, home_name@, away_name@),
                None => !has_pair(self@, home_name@, away_name@),
            },
    {
        match self.find_game_index_of_team(home_name) {
            Some(game_index) => {
                let game = &self.data[game_index];
                if game.home_team.name == *home_name && game.away_team.name == *away_name {
                    Some(game_index)
                } else {
                    proof {
                        assert forall|i: int| !pair_at(self@, i, home_name@, away_name@) by {
                            if pair_at(self@, i, home_name@, away_name@) {
                                assert(involves(self@[i], home_name@));
                                if i != game_index {
                                    assert(disjoint_teams(self@[i], self@[game_index as int]));
                                }
                            }
                        }
                    }
                    None
                }
            },
            None => {
                proof {
                    assert forall|i: int| !pair_at(self@, i, home_name@, away_name@) by {
                        if pair_at(self@, i, home_name@, away_name@) {
                            assert(involves(self@[i], home_name@));
                        }
                    }
                }
                None
            },
        }
    }

    /// Starts a game between two teams, with initial score 0 - 0.
    ///
    /// The two names must be non-empty, and the board must not have run out
    /// of start-order markers. Pairing a team against itself fails with
    /// `SelfPlayError`; a team already on the board fails with
    /// `TeamBusyError`, the home name being checked first. On success the
    /// new game carries a start order above every earlier one, and the
    /// board is re-sorted. A failing call leaves the board unchanged.
    pub fn start_game(&mut self, home: &str, away: &str) -> (r: Result<(), BoardError>)
        requires
            old(self).wf(),
            old(self).next_order < u64::MAX,
            home@.len() > 0,
            away@.len() > 0,
        ensures
            final(self).wf(),
            ({
                let s0 = old(self)@;
                if home@ == away@ {
                    (r matches Err(BoardError::SelfPlayError { name }) && name@ == home@)
                        && *final(self) == *old(self)
                } else if busy(s0, home@) {
                    (r matches Err(BoardError::TeamBusyError { name }) && name@ == home@)
                        && *final(self) == *old(self)
                } else if busy(s0, away@) {
                    (r matches Err(BoardError::TeamBusyError { name }) && name@ == away@)
                        && *final(self) == *old(self)
                } else {
                    r is Ok && final(self).next_order == old(self).next_order + 1 && final(self)@
                        .to_multiset() == s0.to_multiset().insert(
                        fresh_game(home@, away@, old(self).next_order as nat),
                    ) && final(self)@.len() == s0.len() + 1
                }
            }),
    {
        let home_name = home.to_owned();
        let away_name = away.to_owned();

        if home_name == away_name {
            return Err(BoardError::SelfPlayError { name: home_name });
        }
        match self.check_if_currently_playing(&home_name, &away_name) {
            Err(e) => {
                return Err(e);
            },
            Ok(_) => {},
        }
        let ghost s0 = self@;
        let ghost d0 = self.data@;
        let ghost gv = fresh_game(home@, away@, self.next_order as nat);
        let g = Game {
            home_team: Team { name: home_name, score: 0 },
            away_team: Team { name: away_name, score: 0 },
            start_order: self.next_order,
        };
        self.data.push(g);
        self.next_order = self.next_order + 1;
        let ghost u1 = self@;
        proof {
            broadcast use group_to_multiset_ensures;

            lemma_views_push(d0, g);
            assert(g@ == gv);
            assert(u1 =~= s0.push(gv));
            assert(u1.to_multiset() == s0.to_multiset().insert(gv));
            lemma_shape_push(s0, gv, self.next_order as nat);
        }
        self.sort();
        proof {
            lemma_permutation_preserves_shape(u1, self@, self.next_order as nat);
        }
        Ok(())
    }

    /// Updates the score of a running game to the given absolute values.
    ///
    /// The two names must match an existing game's home and away slots
    /// exactly — a swapped or partial match is not found and fails with
    /// `ContestNotFoundError`, leaving the board unchanged. On success both
    /// scores are replaced, the start order is preserved, and the board is
    /// re-sorted.
    pub fn update_score(
        &mut self,
        home: &str,
        new_home_score: u8,
        away: &str,
        new_away_score: u8,
    ) -> (r: Result<(), BoardError>)
        requires
            old(self).wf(),
        ensures
            final(self).wf(),
            final(self).next_order == old(self).next_order,
            ({
                let s0 = old(self)@;
                if has_pair(s0, home@, away@) {
                    r is Ok && final(self)@.len() == s0.len() && (exists|i: int|
                        #[trigger] pair_at(s0, i, home@, away@) && final(self)@.to_multiset()
                            == s0.to_multiset().remove(s0[i]).insert(
                            with_scores(s0[i], new_home_score as nat, new_away_score as nat),
                        ))
                } else {
                    (r matches Err(BoardError::ContestNotFoundError { action: Action::Update }))
                        && *final(self) == *old(self)
                }
            }),
    {
        let home_name = home.to_owned();
        let away_name = away.to_owned();

        match self.find_game_index(&home_name, &away_name) {
            Some(game_index) => {
                let ghost s0 = self@;
                let ghost d0 = self.data@;
                let ghost old_gv = self@[game_index as int];
                let ghost gv = with_scores(old_gv, new_home_score as nat, new_away_score as nat);
                let old_game = self.data.remove(game_index);
                let new_game = Game {
                    home_team: Team { name: home_name, score: new_home_score },
                    away_team: Team { name: away_name, score: new_away_score },
                    start_order: old_game.start_order,
                };
                self.data.insert(game_index, new_game);
                let ghost u1 = self@;
                proof {
                    broadcast use group_to_multiset_ensures;

                    let i = game_index as int;
                    lemma_views_remove(d0, i);
                    lemma_views_insert(d0.remove(i), i, new_game);
                    assert(new_game@ == gv);
                    assert(u1 =~= s0.remove(i).insert(i, gv));
                    assert(s0.remove(i).to_multiset() == s0.to_multiset().remove(old_gv));
                    lemma_insert_to_multiset(s0.remove(i), i, gv);
                    assert(u1.to_multiset() == s0.to_multiset().remove(old_gv).insert(gv));
                    assert(u1 =~= s0.update(i, gv));
                    lemma_shape_update(s0, i, gv, self.next_order as nat);
                }
                self.sort();
                proof {
                    lemma_permutation_preserves_shape(u1, self@, self.next_order as nat);
                    assert(pair_at(s0, game_index as int, home@, away@));
                }
                Ok(())
            },
            None => Err(BoardError::ContestNotFoundError { action: Action::Update }),
        }
    }

    /// Finishes the game between the two teams and removes it from the
    /// board, the roles matched exactly as in `update_score`. The remaining
    /// games keep their relative order. A failing call leaves the board
    /// unchanged.
    pub fn finish_game(&mut self, home: &str, away: &str) -> (r: Result<(), BoardError>)
        requires
            old(self).wf(),
        ensures
            final(self).wf(),
            final(self).next_order == old(self).next_order,
            ({
                let s0 = old(self)@;
                if has_pair(s0, home@, away@) {
                    r is Ok && (exists|i: int|
                        #[trigger] pair_at(s0, i, home@, away@) && final(self)@ == s0.remove(i))
                } else {
                    (r matches Err(BoardError::ContestNotFoundError { action: Action::Removal }))
                        && *final(self) == *old(self)
                }
            }),
    {
        let home_name = home.to_owned();
        let away_name = away.to_owned();

        match self.find_game_index(&home_name, &away_name) {
            Some(game_index) => {
                let ghost s0 = self@;
                let ghost d0 = self.data@;
                let _ = self.data.remove(game_index);
                let ghost u1 = self@;
                proof {
                    let i = game_index as int;
                    lemma_views_remove(d0, i);
                    assert(u1 =~= s0.remove(i));
                    lemma_sorted_remove(s0, i);
                    lemma_shape_remove(s0, i, self.next_order as nat);
                }
                self.sort();
                proof {
                    // No key changed, so re-sorting a sorted board is the
                    // identity: the remaining games keep their order.
                    lemma_board_order_unique(u1, self@);
                    assert(pair_at(s0, game_index as int, home@, away@));
                }
                Ok(())
            },
            None => Err(BoardError::ContestNotFoundError { action: Action::Removal }),
        }
    }

    /// Sorts the games: the highest combined score first and, among equal
    /// combined scores, the most recently started game first. The start
    /// orders on a well-formed board are pairwise distinct, so together
    /// with `lemma_board_order_unique` this contract pins the arrangement
    /// exactly.
    fn sort(&mut self)
        ensures
            final(self)@.to_multiset() == old(self)@.to_multiset(),
            final(self)@.len() == old(self)@.len(),
            sorted(final(self)@),
            final(self).next_order == old(self).next_order,
    {
        let mut i: usize = 0;
        while i < self.data.len()
            invariant
                i <= self.data.len(),
                self@.len() == old(self)@.len(),
                self.next_order == old(self).next_order,
                self@.to_multiset() == old(self)@.to_multiset(),
                sorted_prefix(self@, i as int),
            decreases self.data.len() - i,
        {
            let mut pos: usize = 0;
            while pos < i && game_no_later(&self.data[pos], &self.data[i])
                invariant
                    pos <= i,
                    i < self.data.len(),
                    forall|p: int| 0 <= p < pos ==> ranks_no_later(self@[p], self@[i as int]),
                decreases i - pos,
            {
                pos = pos + 1;
            }
            let ghost d0 = self.data@;
            let ghost s = self@;
            let ghost v = self@[i as int];
            let g = self.data.remove(i);
            self.data.insert(pos, g);
            proof {
                let t = s.remove(i as int);
                let u = t.insert(pos as int, v);
                lemma_views_remove(d0, i as int);
                lemma_views_insert(d0.remove(i as int), pos as int, g);
                assert(self@ =~= u);
                lemma_remove_insert_multiset(s, i as int, pos as int);
                assert forall|p: int, q: int| 0 <= p <= q < i + 1 && q < u.len() implies
                    ranks_no_later(u[p], u[q]) by {
                    if p < pos {
                        assert(u[p] == s[p]);
                    } else if p == pos {
                        assert(u[p] == v);
                    } else {
                        assert(u[p] == t[p - 1]);
                        assert(u[p] == s[p - 1]);
                    }
                    if q < pos {
                        assert(u[q] == s[q]);
                    } else if q == pos {
                        assert(u[q] == v);
                    } else {
                        assert(u[q] == t[q - 1]);
                        assert(u[q] == s[q - 1]);
                    }
                    if p == pos && q > pos {
                        // The scan stopped strictly below i, so the moved game
                        // must stand before the game it stopped at, and by
                        // transitivity before everything after that one.
                        assert(!ranks_no_later(s[pos as int], v));
                        assert(ranks_no_later(s[pos as int], s[q - 1]));
                        lemma_ranks_transitive(v, s[pos as int], s[q - 1]);
                    }
                }
                assert(sorted_prefix(self@, i + 1));
            }
            i = i + 1;
        }
        proof {
            assert(sorted(self@));
        }
    }

    /// Provides the current status of the board: one line per game, in the
    /// board's current order, each formatted as
    /// `"{home.name} {home.score} - {away.name} {away.score}"`.
    pub fn get_summary(&self) -> (r: Vec<String>)
        ensures
            r@.len() == self@.len(),
            forall|i: int| 0 <= i < self@.len() ==> r@[i]@ == line_of(self@[i]),
            r.deep_view() == self.summary_view(),
    {
        let mut result: Vec<String> = Vec::new();
        let mut id: usize = 0;
        while id < self.data.len()
            invariant
                id <= self.data.len(),
                result@.len() == id,
                forall|i: int| 0 <= i < id ==> result@[i]@ == line_of(self@[i]),
            decreases self.data.len() - id,
        {
            let line = self.data[id].render();
            result.push(line);
            id = id + 1;
        }
        proof {
            assert(result.deep_view() =~= self.summary_view());
        }
        result
    }
}

} // verus!
