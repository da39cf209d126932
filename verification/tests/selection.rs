use champions::get_champions;
use champions::ChessPlayer;

#[test]
fn mary_and_peter_are_champions() {
    let player_list: Vec<ChessPlayer> = vec![
        ChessPlayer::new(String::from("Jean"), 1000, 10),
        ChessPlayer::new(String::from("mary"), 1100, 9),
        ChessPlayer::new(String::from("peter"), 1200, 11),
    ];
    let karl_and_lebron = vec![
        ChessPlayer::new(String::from("mary"), 1100, 9),
        ChessPlayer::new(String::from("peter"), 1200, 11),
    ];
    let result = get_champions(player_list);
    assert_eq!(result, karl_and_lebron);
}

#[test]
fn a_non_empty_vec_must_return_champions() {
    let player_list: Vec<ChessPlayer> = vec![
        ChessPlayer::new(String::from("Sherlock"), 2000, 30),
        ChessPlayer::new(String::from("Magnus"), 3100, 30),
        ChessPlayer::new(String::from("Francis"), 2200, 10),
    ];
    let result = get_champions(player_list);
    assert!(!result.is_empty());
}

#[test]
fn return_goats() {
    let player_list: Vec<ChessPlayer> = vec![
        ChessPlayer::new(String::from("Sherlock"), 38_000, 30),
        ChessPlayer::new(String::from("Magnus"), 42_000, 75),
        ChessPlayer::new(String::from("Francis"), 37_000, 18),
        ChessPlayer::new(String::from("James Moriarty"), 32_000, 31),
        ChessPlayer::new(String::from("Erik Lehnsherr"), 31_000, 32),
        ChessPlayer::new(String::from("Daniil Dubov"), 33_000, 33),
    ];
    let goats = vec![
        ChessPlayer::new(String::from("Francis"), 37_000, 18),
        ChessPlayer::new(String::from("Sherlock"), 38_000, 30),
        ChessPlayer::new(String::from("Magnus"), 42_000, 75),
    ];
    let result = get_champions(player_list);
    assert_eq!(result, goats)
}

#[test]
fn account_for_draws() {
    let player_list: Vec<ChessPlayer> = vec![
        ChessPlayer::new(String::from("Sherlock"), 40_000, 30),
        ChessPlayer::new(String::from("Magnus"), 42_000, 75),
        ChessPlayer::new(String::from("Francis"), 37_000, 18),
        ChessPlayer::new(String::from("Moriary"), 40_000, 30),
        ChessPlayer::new(String::from("Daniil"), 35_000, 40),
        ChessPlayer::new(String::from("Erik"), 32_000, 31),
    ];
    let goats = vec![
        ChessPlayer::new(String::from("Francis"), 37_000, 18),
        ChessPlayer::new(String::from("Moriary"), 40_000, 30),
        ChessPlayer::new(String::from("Sherlock"), 40_000, 30),
        ChessPlayer::new(String::from("Magnus"), 42_000, 75),
    ];
    let result = get_champions(player_list);
    assert_eq!(result, goats)
}

#[test]
fn empty_input_gives_empty_output() {
    let result = get_champions(Vec::new());
    assert!(result.is_empty());
}

#[test]
fn single_entrant_is_its_own_champion() {
    let player_list = vec![ChessPlayer::new(String::from("Ada"), 1500, 25)];
    let expected = vec![ChessPlayer::new(String::from("Ada"), 1500, 25)];
    let result = get_champions(player_list);
    assert_eq!(result, expected);
}

#[test]
fn single_entrant_with_zero_rating_is_kept() {
    let player_list = vec![ChessPlayer::new(String::from("Zed"), 0, 5)];
    let expected = vec![ChessPlayer::new(String::from("Zed"), 0, 5)];
    let result = get_champions(player_list);
    assert_eq!(result, expected);
}

#[test]
fn zero_rating_survives_when_no_lower_category_matches_it() {
    let player_list = vec![
        ChessPlayer::new(String::from("Ann"), 0, 5),
        ChessPlayer::new(String::from("Bob"), 1, 9),
    ];
    let expected = vec![
        ChessPlayer::new(String::from("Ann"), 0, 5),
        ChessPlayer::new(String::from("Bob"), 1, 9),
    ];
    let result = get_champions(player_list);
    assert_eq!(result, expected);
}

#[test]
fn draw_pair_is_still_eliminated_by_a_lower_category() {
    let player_list = vec![
        ChessPlayer::new(String::from("Young"), 5000, 10),
        ChessPlayer::new(String::from("First"), 3000, 20),
        ChessPlayer::new(String::from("Second"), 3000, 20),
    ];
    let expected = vec![ChessPlayer::new(String::from("Young"), 5000, 10)];
    let result = get_champions(player_list);
    assert_eq!(result, expected);
}

#[test]
fn identical_entrants_collapse_to_one_champion() {
    let player_list = vec![
        ChessPlayer::new(String::from("Twin"), 100, 10),
        ChessPlayer::new(String::from("Twin"), 100, 10),
    ];
    let expected = vec![ChessPlayer::new(String::from("Twin"), 100, 10)];
    let result = get_champions(player_list);
    assert_eq!(result, expected);
}

#[test]
fn draw_pair_is_ordered_by_name() {
    let player_list = vec![
        ChessPlayer::new(String::from("Anna"), 700, 12),
        ChessPlayer::new(String::from("Ann"), 700, 12),
    ];
    let expected = vec![
        ChessPlayer::new(String::from("Ann"), 700, 12),
        ChessPlayer::new(String::from("Anna"), 700, 12),
    ];
    let result = get_champions(player_list);
    assert_eq!(result, expected);
}

#[test]
fn later_stronger_entrant_replaces_the_category_best() {
    let player_list = vec![
        ChessPlayer::new(String::from("Early"), 1000, 40),
        ChessPlayer::new(String::from("Late"), 2000, 40),
    ];
    let expected = vec![ChessPlayer::new(String::from("Late"), 2000, 40)];
    let result = get_champions(player_list);
    assert_eq!(result, expected);
}

#[test]
fn equal_rating_in_lower_category_eliminates() {
    let player_list = vec![
        ChessPlayer::new(String::from("Junior"), 900, 10),
        ChessPlayer::new(String::from("Senior"), 900, 20),
    ];
    let expected = vec![ChessPlayer::new(String::from("Junior"), 900, 10)];
    let result = get_champions(player_list);
    assert_eq!(result, expected);
}

#[test]
fn output_is_ascending_by_category() {
    let player_list = vec![
        ChessPlayer::new(String::from("C"), 9000, 50),
        ChessPlayer::new(String::from("A"), 9500, 30),
        ChessPlayer::new(String::from("B"), 9900, 70),
        ChessPlayer::new(String::from("D"), 9999, 10),
    ];
    let result = get_champions(player_list);
    for pair in result.windows(2) {
        assert!(pair[0].age <= pair[1].age);
    }
}
