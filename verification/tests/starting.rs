use scoreboard::{Game, ScoreBoard};

const HOME_TEAM_NAME: &str = "Monaco";
const AWAY_TEAM_NAME: &str = "Switzerland";

const HOME_TEAM_NAME_1: &str = "Nigeria";
const AWAY_TEAM_NAME_1: &str = "Chad";
const SCORELESS_GAME_1: &str = "Nigeria 0 - Chad 0";
const HOME_TEAM_NAME_2: &str = "Senegal";
const AWAY_TEAM_NAME_2: &str = "Algeria";
const SCORELESS_GAME_2: &str = "Senegal 0 - Algeria 0";

fn get_team_already_paying_message(team_name: &str) -> String {
    return format!("{} is currently playing a game", team_name);
}

#[test]
fn scoreboard_is_empty_at_start() {
    let sb = ScoreBoard::new();

    assert!(sb.data.is_empty());
}

#[test]
fn game_started_correctly() {
    let mut sb = ScoreBoard::new();
    let result = sb.start_game(HOME_TEAM_NAME, AWAY_TEAM_NAME);

    assert!(result.is_ok());
    assert_eq!(sb.data.len(), 1);
    let Game { home_team: h, away_team: a, start_order: _ } =
        sb.data.first().expect("First element is not available.");
    assert_eq!(h.name, HOME_TEAM_NAME);
    assert_eq!(h.score, 0);
    assert_eq!(a.name, AWAY_TEAM_NAME);
    assert_eq!(a.score, 0);
}

#[test]
fn game_not_started_when_both_teams_have_the_same_name() {
    let expected_error_message = format!("{} cannot play with itself", HOME_TEAM_NAME);

    let mut sb = ScoreBoard::new();
    let result = sb.start_game(HOME_TEAM_NAME, HOME_TEAM_NAME);

    assert!(result.is_err());
    assert!(result.err().is_some_and(|result| result.message() == expected_error_message));
    assert!(sb.data.is_empty());
}

#[test]
fn two_games_started_correctly() {
    let mut sb = ScoreBoard::new();
    let result_1 = sb.start_game(HOME_TEAM_NAME_1, AWAY_TEAM_NAME_1);
    let result_2 = sb.start_game(HOME_TEAM_NAME_2, AWAY_TEAM_NAME_2);

    assert!(result_1.is_ok());
    assert!(result_2.is_ok());
    assert_eq!(sb.data.len(), 2);
    let Game { home_team: h_1, away_team: a_1, start_order: _ } =
        sb.data.get(0).expect("First element is not available.");
    assert_eq!(h_1.name, HOME_TEAM_NAME_2);
    assert_eq!(h_1.score, 0);
    assert_eq!(a_1.name, AWAY_TEAM_NAME_2);
    assert_eq!(a_1.score, 0);
    let Game { home_team: h_2, away_team: a_2, start_order: _ } =
        sb.data.get(1).expect("Second element is not available.");
    assert_eq!(h_2.name, HOME_TEAM_NAME_1);
    assert_eq!(h_2.score, 0);
    assert_eq!(a_2.name, AWAY_TEAM_NAME_1);
    assert_eq!(a_2.score, 0);
}

#[test]
fn home_team_cannot_be_added_to_a_second_concurrent_match() {
    let mut sb = ScoreBoard::new();
    sb.start_game(HOME_TEAM_NAME_1, AWAY_TEAM_NAME_1).expect("Couldn't create the first game");
    let result_1 = sb.start_game(HOME_TEAM_NAME_1, AWAY_TEAM_NAME_2);
    let result_2 = sb.get_summary();

    assert!(result_1
        .err()
        .is_some_and(|result| result.message() == get_team_already_paying_message(HOME_TEAM_NAME_1)));
    assert_eq!(result_2, vec![String::from(SCORELESS_GAME_1)]);
}

#[test]
fn away_team_cannot_be_added_to_a_second_concurrent_match() {
    let mut sb = ScoreBoard::new();
    sb.start_game(HOME_TEAM_NAME_1, AWAY_TEAM_NAME_1).expect("Couldn't create the first game");
    let result_1 = sb.start_game(HOME_TEAM_NAME_2, AWAY_TEAM_NAME_1);
    let result_2 = sb.get_summary();

    assert!(result_1
        .err()
        .is_some_and(|result| result.message() == get_team_already_paying_message(AWAY_TEAM_NAME_1)));
    assert_eq!(result_2, vec![String::from(SCORELESS_GAME_1)]);
}

#[test]
fn home_team_cannot_be_added_to_a_second_concurrent_match_as_away_team() {
    let mut sb = ScoreBoard::new();
    sb.start_game(HOME_TEAM_NAME_1, AWAY_TEAM_NAME_1).expect("Couldn't create the first game");
    let result_1 = sb.start_game(HOME_TEAM_NAME_2, HOME_TEAM_NAME_1);
    let result_2 = sb.get_summary();

    assert!(result_1
        .err()
        .is_some_and(|result| result.message() == get_team_already_paying_message(HOME_TEAM_NAME_1)));
    assert_eq!(result_2, vec![String::from(SCORELESS_GAME_1)]);
}

#[test]
fn away_team_cannot_be_added_to_a_second_concurrent_match_as_home_team() {
    let mut sb = ScoreBoard::new();
    sb.start_game(HOME_TEAM_NAME_1, AWAY_TEAM_NAME_1).expect("Couldn't create the first game");
    let result_1 = sb.start_game(AWAY_TEAM_NAME_1, AWAY_TEAM_NAME_2);
    let result_2 = sb.get_summary();

    assert!(result_1
        .err()
        .is_some_and(|result| result.message() == get_team_already_paying_message(AWAY_TEAM_NAME_1)));
    assert_eq!(result_2, vec![String::from(SCORELESS_GAME_1)]);
}

#[test]
fn both_teams_cannot_start_a_new_match_mismatched() {
    let mut sb = ScoreBoard::new();
    sb.start_game(HOME_TEAM_NAME_1, AWAY_TEAM_NAME_1).expect("Couldn't create the first game");
    let result_1 = sb.start_game(AWAY_TEAM_NAME_1, HOME_TEAM_NAME_1);
    let result_2 = sb.get_summary();

    assert!(result_1
        .err()
        .is_some_and(|result| result.message() == get_team_already_paying_message(AWAY_TEAM_NAME_1)));
    assert_eq!(result_2, vec![String::from(SCORELESS_GAME_1)]);
}

#[test]
fn match_will_not_start_if_both_teams_are_already_playing() {
    let expected_summary = vec![String::from(SCORELESS_GAME_2), String::from(SCORELESS_GAME_1)];

    let mut sb = ScoreBoard::new();
    sb.start_game(HOME_TEAM_NAME_1, AWAY_TEAM_NAME_1).expect("Couldn't create the first game");
    sb.start_game(HOME_TEAM_NAME_2, AWAY_TEAM_NAME_2).expect("Couldn't create the second game");
    let result_1 = sb.start_game(HOME_TEAM_NAME_1, AWAY_TEAM_NAME_2);
    let result_2 = sb.get_summary();

    assert!(result_1
        .err()
        .is_some_and(|result| result.message() == get_team_already_paying_message(HOME_TEAM_NAME_1)));
    assert_eq!(result_2, expected_summary);
}
