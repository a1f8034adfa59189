use goban::board::LegalityResult;
use goban::board::BLACK;
use goban::challenge::ChallengeList;
use goban::coord::Intersection;
use goban::game::GameList;

#[test]
fn challenge_insert_records_both_sides() {
    let mut c = ChallengeList::new();
    assert!(c.list(1).is_empty());
    assert!(c.insert(1, 2));
    assert_eq!(c.list(1), vec![2]);
    assert_eq!(c.list(2), vec![1]);
    // Repeating an existing challenge changes nothing.
    assert!(!c.insert(1, 2));
    assert!(!c.insert(2, 1));
    assert_eq!(c.list(1), vec![2]);
    assert_eq!(c.list(2), vec![1]);
}

#[test]
fn challenge_self_challenge() {
    let mut c = ChallengeList::new();
    assert!(c.insert(7, 7));
    assert_eq!(c.list(7), vec![7]);
    assert!(!c.insert(7, 7));
    assert_eq!(c.list(7), vec![7]);
}

#[test]
fn challenge_remove() {
    let mut c = ChallengeList::new();
    c.insert(1, 2);
    c.insert(1, 3);
    c.remove_challenge(1, 2);
    assert_eq!(c.list(1), vec![3]);
    assert!(c.list(2).is_empty());
    assert_eq!(c.list(3), vec![1]);
}

#[test]
fn challenge_remove_all() {
    let mut c = ChallengeList::new();
    c.insert(1, 2);
    c.insert(3, 1);
    c.insert(2, 3);
    c.remove_all(1);
    assert!(c.list(1).is_empty());
    assert_eq!(c.list(2), vec![3]);
    assert_eq!(c.list(3), vec![2]);
}

#[test]
fn accept_challenge_starts_a_game() {
    let mut c = ChallengeList::new();
    assert!(c.accept_challenge_to_game(1, 2).is_none());
    c.insert(1, 2);
    let game = c.accept_challenge_to_game(1, 2).expect("the challenge is pending");
    // The challenge leaves both players' lists.
    assert!(c.list(1).is_empty());
    assert!(c.list(2).is_empty());
    assert_eq!(game.board.to_move(), BLACK);
    assert!(game.is_player(1));
    assert!(game.is_player(2));
    assert!(!game.is_player(3));
    // Black moves first and Black is the second listed player.
    assert!(game.is_to_move(2));
    assert!(!game.is_to_move(1));
}

#[test]
fn accept_works_from_either_side() {
    let mut c = ChallengeList::new();
    c.insert(1, 2);
    // The challenged player holds the mirror entry, so they can accept.
    let game = c.accept_challenge_to_game(2, 1).expect("the challenge is pairwise");
    assert!(c.list(1).is_empty());
    assert!(c.list(2).is_empty());
    assert!(game.is_player(1));
    assert!(game.is_player(2));
}

#[test]
fn game_list_one_game_per_channel() {
    let mut c = ChallengeList::new();
    c.insert(1, 2);
    let game = c.accept_challenge_to_game(1, 2).unwrap();
    let mut games = GameList::new();
    assert!(games.is_channel_available(10));
    assert!(games.try_start_game(game, 10));
    assert!(!games.is_channel_available(10));
    c.insert(3, 4);
    let other = c.accept_challenge_to_game(3, 4).unwrap();
    assert!(!games.try_start_game(other, 10));
    assert!(games.is_channel_available(11));
}

#[test]
fn game_list_take_play_and_put_back() {
    let mut c = ChallengeList::new();
    c.insert(1, 2);
    let game = c.accept_challenge_to_game(1, 2).unwrap();
    let mut games = GameList::new();
    assert!(games.try_start_game(game, 10));
    games.set_game_message(10, 77);
    assert!(games.is_game_played_in_channel_by(1, 10));
    assert!(games.is_game_played_in_channel_by(2, 10));
    assert!(!games.is_game_played_in_channel_by(3, 10));
    assert!(games.take_game(3, 10).is_none());
    let (mut info, message) = games.take_game(2, 10).expect("player 2 plays here");
    assert_eq!(message, 77);
    let target = Intersection::parse("k10").unwrap();
    assert_eq!(info.board.play(target), LegalityResult::Applied);
    games.put_game_back(info, 10, message);
    // The display-message id survives a take/put-back round trip.
    let (info2, message2) = games.take_game(1, 10).expect("player 1 plays here");
    assert_eq!(message2, 77);
    games.put_game_back(info2, 10, message2);
    assert!(games.is_game_played_in_channel_by(1, 10));
}

#[test]
fn game_list_end_game_frees_the_channel() {
    let mut c = ChallengeList::new();
    c.insert(1, 2);
    let game = c.accept_challenge_to_game(1, 2).unwrap();
    let mut games = GameList::new();
    assert!(games.try_start_game(game, 10));
    games.end_game(10);
    assert!(games.is_channel_available(10));
    assert!(!games.is_game_played_in_channel_by(1, 10));
}
