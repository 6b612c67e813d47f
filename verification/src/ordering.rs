//! The board's arrangement, stated over game views: the two-key comparator
//! (combined score descending, then start order descending), sortedness,
//! team exclusivity, and the lemmas that tie them together.

use vstd::prelude::*;
use vstd::seq_lib::group_to_multiset_ensures;

use crate::game::{total_of, GameView};

verus! {

/// `a` may stand at or before `b`: a higher combined score, or an equal
/// combined score and a start order at least as recent.
pub open spec fn ranks_no_later(a: GameView, b: GameView) -> bool {
    total_of(a) > total_of(b) || (total_of(a) == total_of(b) && a.order >= b.order)
}

/// The sequence is arranged per the comparator: every game may stand before
/// every game that follows it.
pub open spec fn sorted(s: Seq<GameView>) -> bool {
    forall|i: int, j: int| 0 <= i <= j < s.len() ==> ranks_no_later(s[i], s[j])
}

/// The first `k` games of the sequence are arranged per the comparator.
pub open spec fn sorted_prefix(s: Seq<GameView>, k: int) -> bool {
    forall|p: int, q: int| 0 <= p <= q < k && q < s.len() ==> ranks_no_later(s[p], s[q])
}

/// The game has `n` in its home or its away slot.
pub open spec fn involves(g: GameView, n: Seq<char>) -> bool {
    g.home.name == n || g.away.name == n
}

/// Some game on the board has `n` in one of its slots.
pub open spec fn busy(s: Seq<GameView>, n: Seq<char>) -> bool {
    exists|i: int| 0 <= i < s.len() && involves(s[i], n)
}

/// The two games share no team name in any slot.
pub open spec fn disjoint_teams(a: GameView, b: GameView) -> bool {
    a.home.name != b.home.name && a.home.name != b.away.name && a.away.name != b.home.name
        && a.away.name != b.away.name
}

/// No team name appears in two distinct games of the sequence.
pub open spec fn team_exclusive(s: Seq<GameView>) -> bool {
    forall|i: int, j: int|
        0 <= i < s.len() && 0 <= j < s.len() && i != j ==> disjoint_teams(
            #[trigger] s[i],
            #[trigger] s[j],
        )
}

/// No two distinct games of the sequence carry the same start order.
pub open spec fn distinct_orders(s: Seq<GameView>) -> bool {
    forall|i: int, j: int|
        0 <= i < s.len() && 0 <= j < s.len() && i != j ==> (#[trigger] s[i]).order != (
        #[trigger] s[j]).order
}

/// A game in isolation is well formed: two different, non-empty team names.
pub open spec fn valid_game(g: GameView) -> bool {
    g.home.name != g.away.name && g.home.name.len() > 0 && g.away.name.len() > 0
}

/// Every game of the sequence is well formed.
pub open spec fn all_valid(s: Seq<GameView>) -> bool {
    forall|i: int| 0 <= i < s.len() ==> valid_game(#[trigger] s[i])
}

/// Every start order of the sequence lies strictly below `bound`.
pub open spec fn orders_below(s: Seq<GameView>, bound: nat) -> bool {
    forall|i: int| 0 <= i < s.len() ==> (#[trigger] s[i]).order < bound
}

/// The game at index `i` is exactly the contest of `home` against `away`,
/// with the roles as given.
pub open spec fn pair_at(s: Seq<GameView>, i: int, home: Seq<char>, away: Seq<char>) -> bool {
    0 <= i < s.len() && s[i].home.name == home && s[i].away.name == away
}

/// Some game of the sequence is exactly the contest of `home` against `away`.
pub open spec fn has_pair(s: Seq<GameView>, home: Seq<char>, away: Seq<char>) -> bool {
    exists|i: int| pair_at(s, i, home, away)
}

/// The comparator is transitive.
pub proof fn lemma_ranks_transitive(a: GameView, b: GameView, c: GameView)
    requires
        ranks_no_later(a, b),
        ranks_no_later(b, c),
    ensures
        ranks_no_later(a, c),
{
}

/// A sorted arrangement of games with pairwise distinct start orders is
/// unique: two sorted sequences holding the same games are equal.
pub proof fn lemma_board_order_unique(a: Seq<GameView>, b: Seq<GameView>)
    requires
        sorted(a),
        sorted(b),
        distinct_orders(a),
        a.to_multiset() == b.to_multiset(),
    ensures
        a == b,
    decreases a.len(),
{
    broadcast use group_to_multiset_ensures;

    assert(a.len() == a.to_multiset().len());
    assert(b.len() == b.to_multiset().len());
    if a.len() == 0 {
        assert(a =~= b);
    } else {
        assert(b.contains(b[0]));
        assert(a.to_multiset().count(b[0]) > 0);
        assert(a.contains(b[0]));
        let k = choose|k: int| 0 <= k < a.len() && a[k] == b[0];
        assert(ranks_no_later(a[0], a[k]));
        assert(a.contains(a[0]));
        assert(a.to_multiset().count(a[0]) > 0);
        assert(b.to_multiset().count(a[0]) > 0);
        assert(b.contains(a[0]));
        let m = choose|m: int| 0 <= m < b.len() && b[m] == a[0];
        assert(ranks_no_later(b[0], b[m]));
        // Both rank no later than the other, so their keys agree; distinct
        // orders within `a` then force them to be the same game.
        assert(a[k].order == a[0].order);
        assert(k == 0);
        assert(a[0] == b[0]);

        let at = a.remove(0);
        let bt = b.remove(0);
        assert(at.to_multiset() =~= a.to_multiset().remove(a[0]));
        assert(bt.to_multiset() =~= b.to_multiset().remove(b[0]));
        assert(at.to_multiset() == bt.to_multiset());
        assert forall|i: int, j: int| 0 <= i <= j < at.len() implies ranks_no_later(
            at[i],
            at[j],
        ) by {
            assert(at[i] == a[i + 1]);
            assert(at[j] == a[j + 1]);
        }
        assert forall|i: int, j: int|
            0 <= i < at.len() && 0 <= j < at.len() && i != j implies at[i].order
            != at[j].order by {
            assert(at[i] == a[i + 1]);
            assert(at[j] == a[j + 1]);
        }
        assert forall|i: int, j: int| 0 <= i <= j < bt.len() implies ranks_no_later(
            bt[i],
            bt[j],
        ) by {
            assert(bt[i] == b[i + 1]);
            assert(bt[j] == b[j + 1]);
        }
        lemma_board_order_unique(at, bt);
        assert forall|i: int| 0 <= i < a.len() implies a[i] == b[i] by {
            if i > 0 {
                assert(at[i - 1] == a[i]);
                assert(bt[i - 1] == b[i]);
            }
        }
        assert(a =~= b);
    }
}

/// Rearranging the games of a board leaves its shape intact: exclusivity,
/// distinctness of start orders, per-game validity and the order bound all
/// carry over to any sequence holding the same games.
pub proof fn lemma_permutation_preserves_shape(a: Seq<GameView>, b: Seq<GameView>, bound: nat)
    requires
        a.to_multiset() == b.to_multiset(),
        team_exclusive(a),
        distinct_orders(a),
        all_valid(a),
        orders_below(a, bound),
    ensures
        team_exclusive(b),
        distinct_orders(b),
        all_valid(b),
        orders_below(b, bound),
{
    broadcast use group_to_multiset_ensures;

    assert(a.no_duplicates()) by {
        assert forall|i: int, j: int|
            0 <= i < a.len() && 0 <= j < a.len() && i != j implies a[i] != a[j] by {
            assert(a[i].order != a[j].order);
        }
    }
    a.lemma_multiset_has_no_duplicates();
    b.lemma_multiset_has_no_duplicates_conv();
    assert(b.no_duplicates());

    assert forall|i: int| 0 <= i < b.len() implies valid_game(#[trigger] b[i]) && b[i].order
        < bound by {
        assert(b.contains(b[i]));
        assert(a.to_multiset().count(b[i]) > 0);
        assert(a.contains(b[i]));
        let k = choose|k: int| 0 <= k < a.len() && a[k] == b[i];
        assert(valid_game(a[k]));
        assert(a[k].order < bound);
    }
    assert forall|i: int, j: int|
        0 <= i < b.len() && 0 <= j < b.len() && i != j implies disjoint_teams(
        #[trigger] b[i],
        #[trigger] b[j],
    ) && b[i].order != b[j].order by {
        assert(b[i] != b[j]);
        assert(b.contains(b[i]));
        assert(b.contains(b[j]));
        assert(a.to_multiset().count(b[i]) > 0);
        assert(a.to_multiset().count(b[j]) > 0);
        assert(a.contains(b[i]));
        assert(a.contains(b[j]));
        let k = choose|k: int| 0 <= k < a.len() && a[k] == b[i];
        let m = choose|m: int| 0 <= m < a.len() && a[m] == b[j];
        assert(k != m);
        assert(disjoint_teams(a[k], a[m]));
        assert(a[k].order != a[m].order);
    }
}

/// Replacing a game by one with the same teams and the same start order
/// keeps the board's shape intact.
pub proof fn lemma_shape_update(s: Seq<GameView>, i: int, g: GameView, bound: nat)
    requires
        team_exclusive(s),
        distinct_orders(s),
        all_valid(s),
        orders_below(s, bound),
        0 <= i < s.len(),
        g.home.name == s[i].home.name,
        g.away.name == s[i].away.name,
        g.order == s[i].order,
    ensures
        team_exclusive(s.update(i, g)),
        distinct_orders(s.update(i, g)),
        all_valid(s.update(i, g)),
        orders_below(s.update(i, g), bound),
{
    let t = s.update(i, g);
    assert forall|p: int, q: int|
        0 <= p < t.len() && 0 <= q < t.len() && p != q implies disjoint_teams(
        #[trigger] t[p],
        #[trigger] t[q],
    ) && t[p].order != t[q].order by {
        assert(disjoint_teams(s[p], s[q]));
        assert(s[p].order != s[q].order);
    }
    assert forall|p: int| 0 <= p < t.len() implies valid_game(#[trigger] t[p]) && t[p].order
        < bound by {
        assert(valid_game(s[p]));
        assert(s[p].order < bound);
    }
}

/// Removing a game keeps the board's shape intact.
pub proof fn lemma_shape_remove(s: Seq<GameView>, i: int, bound: nat)
    requires
        team_exclusive(s),
        distinct_orders(s),
        all_valid(s),
        orders_below(s, bound),
        0 <= i < s.len(),
    ensures
        team_exclusive(s.remove(i)),
        distinct_orders(s.remove(i)),
        all_valid(s.remove(i)),
        orders_below(s.remove(i), bound),
{
    let t = s.remove(i);
    assert forall|p: int, q: int|
        0 <= p < t.len() && 0 <= q < t.len() && p != q implies disjoint_teams(
        #[trigger] t[p],
        #[trigger] t[q],
    ) && t[p].order != t[q].order by {
        let p0 = if p < i {
            p
        } else {
            p + 1
        };
        let q0 = if q < i {
            q
        } else {
            q + 1
        };
        assert(t[p] == s[p0]);
        assert(t[q] == s[q0]);
        assert(disjoint_teams(s[p0], s[q0]));
        assert(s[p0].order != s[q0].order);
    }
    assert forall|p: int| 0 <= p < t.len() implies valid_game(#[trigger] t[p]) && t[p].order
        < bound by {
        let p0 = if p < i {
            p
        } else {
            p + 1
        };
        assert(t[p] == s[p0]);
    }
}

/// Appending a fresh game — busy nowhere on the board, well formed, and
/// carrying a start order above every existing one — keeps the board's
/// shape intact.
pub proof fn lemma_shape_push(s: Seq<GameView>, g: GameView, bound: nat)
    requires
        team_exclusive(s),
        distinct_orders(s),
        all_valid(s),
        orders_below(s, g.order),
        g.order < bound,
        !busy(s, g.home.name),
        !busy(s, g.away.name),
        valid_game(g),
    ensures
        team_exclusive(s.push(g)),
        distinct_orders(s.push(g)),
        all_valid(s.push(g)),
        orders_below(s.push(g), bound),
{
    let t = s.push(g);
    assert(t =~= s.insert(s.len() as int, g));
    lemma_exclusive_insert(s, s.len() as int, g);
    assert forall|p: int, q: int|
        0 <= p < t.len() && 0 <= q < t.len() && p != q implies (#[trigger] t[p]).order != (
        #[trigger] t[q]).order by {
        if p < s.len() && q < s.len() {
            assert(s[p].order != s[q].order);
        } else if p < s.len() {
            assert(s[p].order < g.order);
        } else {
            assert(s[q].order < g.order);
        }
    }
    assert forall|p: int| 0 <= p < t.len() implies valid_game(#[trigger] t[p]) && t[p].order
        < bound by {
        if p < s.len() {
            assert(valid_game(s[p]));
            assert(s[p].order < g.order);
        }
    }
}

/// Removing a game from a sorted sequence keeps it sorted.
pub proof fn lemma_sorted_remove(s: Seq<GameView>, i: int)
    requires
        sorted(s),
        0 <= i < s.len(),
    ensures
        sorted(s.remove(i)),
{
    let t = s.remove(i);
    assert forall|p: int, q: int| 0 <= p <= q < t.len() implies ranks_no_later(t[p], t[q]) by {
        let p0 = if p < i {
            p
        } else {
            p + 1
        };
        let q0 = if q < i {
            q
        } else {
            q + 1
        };
        assert(t[p] == s[p0]);
        assert(t[q] == s[q0]);
    }
}

/// Inserting a game whose teams are busy nowhere on the board keeps the
/// board exclusive.
pub proof fn lemma_exclusive_insert(s: Seq<GameView>, i: int, g: GameView)
    requires
        team_exclusive(s),
        0 <= i <= s.len(),
        !busy(s, g.home.name),
        !busy(s, g.away.name),
    ensures
        team_exclusive(s.insert(i, g)),
{
    let t = s.insert(i, g);
    assert forall|p: int, q: int|
        0 <= p < t.len() && 0 <= q < t.len() && p != q implies disjoint_teams(t[p], t[q]) by {
        let p0 = if p < i {
            p
        } else {
            p - 1
        };
        let q0 = if q < i {
            q
        } else {
            q - 1
        };
        if p != i {
            assert(t[p] == s[p0]);
        }
        if q != i {
            assert(t[q] == s[q0]);
        }
        if p == i {
            assert(!involves(s[q0], g.home.name));
            assert(!involves(s[q0], g.away.name));
        } else if q == i {
            assert(!involves(s[p0], g.home.name));
            assert(!involves(s[p0], g.away.name));
        } else {
            assert(disjoint_teams(s[p0], s[q0]));
        }
    }
}

} // verus!
