//! The records a score board is made of: a team with its current score, and
//! a game pairing a home team with an away team.
//!
//! Each executable type has a mathematical view (`TeamView`, `GameView`) over
//! which all contracts are stated: a name is a sequence of characters, a
//! score and a start order are unbounded naturals.

use vstd::prelude::*;
use vstd::string::StringExecFns;

verus! {

/// Mathematical image of a team: its name and its current score.
pub struct TeamView {
    pub name: Seq<char>,
    pub score: nat,
}

/// Mathematical image of a game: the two teams and the order marker assigned
/// when the game was started. Only the relative order of markers matters.
pub struct GameView {
    pub home: TeamView,
    pub away: TeamView,
    pub order: nat,
}

/// A team taking part in a game.
pub struct Team {
    /// The team's name; teams are identified by exact name equality.
    pub name: String,
    /// The team's current score.
    pub score: u8,
}

impl View for Team {
    type V = TeamView;

    open spec fn view(&self) -> TeamView {
        TeamView { name: self.name@, score: self.score as nat }
    }
}

/// A single ongoing game between a home team and an away team.
pub struct Game {
    /// The home team.
    pub home_team: Team,
    /// The away team.
    pub away_team: Team,
    /// Marker assigned at creation; later games carry strictly greater markers.
    pub start_order: u64,
}

impl View for Game {
    type V = GameView;

    open spec fn view(&self) -> GameView {
        GameView { home: self.home_team@, away: self.away_team@, order: self.start_order as nat }
    }
}

/// The combined score of a game, the primary sort key of the board.
pub open spec fn total_of(g: GameView) -> nat {
    g.home.score + g.away.score
}

/// The view of a game freshly started between `home` and `away`:
/// both scores are zero and the order marker is `order`.
pub open spec fn fresh_game(home: Seq<char>, away: Seq<char>, order: nat) -> GameView {
    GameView {
        home: TeamView { name: home, score: 0 },
        away: TeamView { name: away, score: 0 },
        order,
    }
}

/// The view of `g` after an absolute score update: both scores replaced,
/// names and order marker kept.
pub open spec fn with_scores(g: GameView, home_score: nat, away_score: nat) -> GameView {
    GameView {
        home: TeamView { name: g.home.name, score: home_score },
        away: TeamView { name: g.away.name, score: away_score },
        order: g.order,
    }
}

impl Game {
    /// The combined score of both teams.
    pub fn get_total_score(&self) -> (r: u16)
        ensures
            r == total_of(self@),
    {
        self.home_team.score as u16 + self.away_team.score as u16
    }
}

/// The decimal digit character for `d`.
pub open spec fn digit_char(d: nat) -> char
    recommends
        d < 10,
{
    if d == 0 {
        '0'
    } else if d == 1 {
        '1'
    } else if d == 2 {
        '2'
    } else if d == 3 {
        '3'
    } else if d == 4 {
        '4'
    } else if d == 5 {
        '5'
    } else if d == 6 {
        '6'
    } else if d == 7 {
        '7'
    } else if d == 8 {
        '8'
    } else {
        '9'
    }
}

/// The decimal rendering of a score, without leading zeroes.
pub open spec fn score_digits(n: nat) -> Seq<char>
    recommends
        n < 1000,
{
    if n < 10 {
        seq![digit_char(n)]
    } else if n < 100 {
        seq![digit_char(n / 10), digit_char(n % 10)]
    } else {
        seq![digit_char(n / 100), digit_char((n / 10) % 10), digit_char(n % 10)]
    }
}

/// The rendering of one team within a summary line: name, a space, the score.
pub open spec fn team_text(t: TeamView) -> Seq<char> {
    t.name + seq![' '] + score_digits(t.score)
}

/// The full summary line of a game: home team, " - ", away team.
pub open spec fn line_of(g: GameView) -> Seq<char> {
    team_text(g.home) + seq![' ', '-', ' '] + team_text(g.away)
}

/// The one-character string for a decimal digit.
fn digit_str(d: u8) -> (r: &'static str)
    requires
        d < 10,
    ensures
        r@ == seq![digit_char(d as nat)],
{
    let r: &'static str = if d == 0 {
        "0"
    } else if d == 1 {
        "1"
    } else if d == 2 {
        "2"
    } else if d == 3 {
        "3"
    } else if d == 4 {
        "4"
    } else if d == 5 {
        "5"
    } else if d == 6 {
        "6"
    } else if d == 7 {
        "7"
    } else if d == 8 {
        "8"
    } else {
        "9"
    };
    proof {
        reveal_strlit("0");
        reveal_strlit("1");
        reveal_strlit("2");
        reveal_strlit("3");
        reveal_strlit("4");
        reveal_strlit("5");
        reveal_strlit("6");
        reveal_strlit("7");
        reveal_strlit("8");
        reveal_strlit("9");
        assert(r@ =~= seq![digit_char(d as nat)]);
    }
    r
}

/// The decimal rendering of a score.
fn score_string(n: u8) -> (r: String)
    ensures
        r@ == score_digits(n as nat),
{
    let mut r = String::new();
    if n >= 100 {
        r.append(digit_str(n / 100));
    }
    if n >= 10 {
        r.append(digit_str((n / 10) % 10));
    }
    r.append(digit_str(n % 10));
    proof {
        assert(r@ =~= score_digits(n as nat));
    }
    r
}

impl Team {
    /// The team's part of a summary line, `"{name} {score}"`.
    pub fn render(&self) -> (r: String)
        ensures
            r@ == team_text(self@),
    {
        let mut r = self.name.clone();
        r.append(" ");
        let score = score_string(self.score);
        r.append(score.as_str());
        proof {
            reveal_strlit(" ");
            assert(r@ =~= team_text(self@));
        }
        r
    }
}

impl Game {
    /// The game's summary line, `"{home.name} {home.score} - {away.name} {away.score}"`.
    pub fn render(&self) -> (r: String)
        ensures
            r@ == line_of(self@),
    {
        let mut r = self.home_team.render();
        r.append(" - ");
        let away = self.away_team.render();
        r.append(away.as_str());
        proof {
            reveal_strlit(" - ");
            assert(r@ =~= line_of(self@));
        }
        r
    }
}

} // verus!
