use scoreboard::ScoreBoard;

const HOME_TEAM_NAME: &str = "Monaco";
const AWAY_TEAM_NAME: &str = "Switzerland";
const SCORELESS_GAME: &str = "Monaco 0 - Switzerland 0";

const HOME_TEAM_NAME_1: &str = "Nigeria";
const AWAY_TEAM_NAME_1: &str = "Chad";
const SCORELESS_GAME_1: &str = "Nigeria 0 - Chad 0";
const HOME_TEAM_NAME_2: &str = "Senegal";
const AWAY_TEAM_NAME_2: &str = "Algeria";
const SCORELESS_GAME_2: &str = "Senegal 0 - Algeria 0";

fn nothing_to_show() -> Vec<String> {
    return Vec::new();
}

#[test]
fn empty_scoreboard_shows_no_results() {
    let sb = ScoreBoard::new();
    let result = sb.get_summary();

    assert_eq!(result, nothing_to_show());
}

#[test]
fn new_game_shows_up_correctly() {
    let mut sb = ScoreBoard::new();
    sb.start_game(HOME_TEAM_NAME, AWAY_TEAM_NAME).expect("Couldn't create the game");
    let result = sb.get_summary();

    assert_eq!(result.len(), 1);
    let r = result.get(0).expect("First element is not available.");
    assert_eq!(r, SCORELESS_GAME);
}

#[test]
fn two_games_show_correctly() {
    let mut sb = ScoreBoard::new();
    sb.start_game(HOME_TEAM_NAME_1, AWAY_TEAM_NAME_1).expect("Couldn't create the first game");
    sb.start_game(HOME_TEAM_NAME_2, AWAY_TEAM_NAME_2).expect("Couldn't create the second game");
    let result = sb.get_summary();

    assert_eq!(result.len(), 2);
    let r_1 = result.get(0).expect("First element is not available.");
    let r_2 = result.get(1).expect("Second element is not available.");
    assert_eq!(r_1, SCORELESS_GAME_2);
    assert_eq!(r_2, SCORELESS_GAME_1);
}

#[test]
fn sorting_of_updated_games_works() {
    let expected_summary_1 = vec![
        format!("{} 0 - {} 1", HOME_TEAM_NAME_2, AWAY_TEAM_NAME_2),
        String::from(SCORELESS_GAME_1),
    ];
    let expected_summary_2 = vec![
        format!("{} 2 - {} 2", HOME_TEAM_NAME_1, AWAY_TEAM_NAME_1),
        format!("{} 0 - {} 1", HOME_TEAM_NAME_2, AWAY_TEAM_NAME_2),
    ];
    let expected_summary_3 = vec![
        format!("{} 3 - {} 2", HOME_TEAM_NAME_2, AWAY_TEAM_NAME_2),
        format!("{} 2 - {} 2", HOME_TEAM_NAME_1, AWAY_TEAM_NAME_1),
    ];
    let expected_summary_4 = vec![
        format!("{} 3 - {} 3", HOME_TEAM_NAME_1, AWAY_TEAM_NAME_1),
        format!("{} 3 - {} 2", HOME_TEAM_NAME_2, AWAY_TEAM_NAME_2),
    ];

    let mut sb = ScoreBoard::new();
    sb.start_game(HOME_TEAM_NAME_1, AWAY_TEAM_NAME_1).expect("Couldn't create the first game");
    sb.start_game(HOME_TEAM_NAME_2, AWAY_TEAM_NAME_2).expect("Couldn't create the second game");
    sb.update_score(HOME_TEAM_NAME_2, 0, AWAY_TEAM_NAME_2, 1).expect(
        "Couldn't update the second game",
    );
    let result_1 = sb.get_summary();
    sb.update_score(HOME_TEAM_NAME_1, 2, AWAY_TEAM_NAME_1, 2).expect(
        "Couldn't update the first game",
    );
    let result_2 = sb.get_summary();
    sb.update_score(HOME_TEAM_NAME_2, 3, AWAY_TEAM_NAME_2, 2).expect(
        "Couldn't update the second game",
    );
    let result_3 = sb.get_summary();
    sb.update_score(HOME_TEAM_NAME_1, 3, AWAY_TEAM_NAME_1, 3).expect(
        "Couldn't update the first game",
    );
    let result_4 = sb.get_summary();

    assert_eq!(result_1, expected_summary_1);
    assert_eq!(result_2, expected_summary_2);
    assert_eq!(result_3, expected_summary_3);
    assert_eq!(result_4, expected_summary_4);
}

#[test]
fn secondary_sorting_by_start_time_works() {
    let expected_summary_1 = vec![
        format!("{} 1 - {} 1", HOME_TEAM_NAME_1, AWAY_TEAM_NAME_1),
        String::from(SCORELESS_GAME_2),
    ];
    let expected_summary_2 = vec![
        format!("{} 1 - {} 1", HOME_TEAM_NAME_2, AWAY_TEAM_NAME_2),
        format!("{} 1 - {} 1", HOME_TEAM_NAME_1, AWAY_TEAM_NAME_1),
    ];

    let mut sb = ScoreBoard::new();
    sb.start_game(HOME_TEAM_NAME_1, AWAY_TEAM_NAME_1).expect("Couldn't create the first game");
    sb.start_game(HOME_TEAM_NAME_2, AWAY_TEAM_NAME_2).expect("Couldn't create the second game");
    sb.update_score(HOME_TEAM_NAME_1, 1, AWAY_TEAM_NAME_1, 1).expect(
        "Couldn't update the eariler game",
    );
    let result_1 = sb.get_summary();
    sb.update_score(HOME_TEAM_NAME_2, 1, AWAY_TEAM_NAME_2, 1).expect(
        "Couldn't update the later game",
    );
    let result_2 = sb.get_summary();

    assert_eq!(result_1, expected_summary_1);
    assert_eq!(result_2, expected_summary_2);
}

#[test]
fn grand_example() {
    let expected_summary = vec![
        String::from("Uruguay 6 - Italy 6"),
        String::from("Spain 10 - Brazil 2"),
        String::from("Mexico 0 - Canada 5"),
        String::from("Argentina 3 - Australia 1"),
        String::from("Germany 2 - France 2"),
    ];

    let mut sb = ScoreBoard::new();
    sb.start_game("Mexico", "Canada").unwrap();
    sb.update_score("Mexico", 0, "Canada", 1).unwrap();
    sb.start_game("Spain", "Brazil").unwrap();
    sb.update_score("Mexico", 0, "Canada", 2).unwrap();
    sb.update_score("Spain", 1, "Brazil", 1).unwrap();
    sb.update_score("Spain", 1, "Brazil", 2).unwrap();
    sb.start_game("Germany", "France").unwrap();
    sb.update_score("Mexico", 0, "Canada", 3).unwrap();
    sb.update_score("Germany", 1, "France", 0).unwrap();
    sb.update_score("Mexico", 0, "Canada", 4).unwrap();
    sb.update_score("Germany", 1, "France", 1).unwrap();
    sb.update_score("Germany", 1, "France", 2).unwrap();
    sb.start_game("Uruguay", "Italy").unwrap();
    sb.start_game("Argentina", "Australia").unwrap();
    sb.update_score("Uruguay", 1, "Italy", 1).unwrap();
    sb.update_score("Germany", 2, "France", 2).unwrap();
    sb.update_score("Uruguay", 2, "Italy", 2).unwrap();
    sb.update_score("Argentina", 1, "Australia", 1).unwrap();
    sb.update_score("Mexico", 0, "Canada", 5).unwrap();
    sb.update_score("Uruguay", 3, "Italy", 3).unwrap();
    sb.update_score("Argentina", 3, "Australia", 1).unwrap();
    sb.update_score("Spain", 10, "Brazil", 2).unwrap();
    sb.update_score("Uruguay", 6, "Italy", 6).unwrap();

    let result = sb.get_summary();

    assert_eq!(result, expected_summary);
}
