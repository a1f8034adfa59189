use goban::board::Board;
use goban::board::LegalityResult;
use goban::board::BLACK;
use goban::board::WHITE;
use goban::coord::Intersection;

fn p(s: &str) -> Intersection {
    Intersection::parse(s).unwrap()
}

#[test]
fn fresh_board() {
    let b = Board::new();
    assert_eq!(b.to_move(), BLACK);
    assert!(b.ko_point().is_none());
    for i in 0..361usize {
        assert_eq!(b.stone_at(Intersection::from_linear_index(i)), None);
    }
}

#[test]
fn render_fresh_board() {
    let b = Board::new();
    let mut expected = String::from("  abcdefghjklmnopqrst\n");
    for row in 1..=19usize {
        expected.push_str(&format!("{:>2}", row));
        expected.push_str(&".".repeat(19));
        expected.push('\n');
    }
    assert_eq!(b.render(), expected);
}

#[test]
fn render_shows_stones() {
    let mut b = Board::new();
    assert_eq!(b.play(p("a1")), LegalityResult::Applied);
    assert_eq!(b.play(p("b2")), LegalityResult::Applied);
    let mut expected = String::from("  abcdefghjklmnopqrst\n");
    expected.push_str(" 1x");
    expected.push_str(&".".repeat(18));
    expected.push('\n');
    expected.push_str(" 2.o");
    expected.push_str(&".".repeat(17));
    expected.push('\n');
    for row in 3..=19usize {
        expected.push_str(&format!("{:>2}", row));
        expected.push_str(&".".repeat(19));
        expected.push('\n');
    }
    assert_eq!(b.render(), expected);
}

#[test]
fn occupied_is_rejected_and_board_unchanged() {
    let mut b = Board::new();
    assert_eq!(b.play(p("d4")), LegalityResult::Applied);
    let before = b.render();
    let side = b.to_move();
    assert_eq!(b.play(p("d4")), LegalityResult::RejectedOccupied);
    assert_eq!(b.render(), before);
    assert_eq!(b.to_move(), side);
    assert_eq!(b.stone_at(p("d4")), Some(BLACK));
}

#[test]
fn suicide_is_rejected_and_board_unchanged() {
    let mut b = Board::new();
    // Black a2 and b1 enclose the corner point a1; a White stone there
    // would have no liberty and captures nothing.
    assert_eq!(b.play(p("a2")), LegalityResult::Applied);
    assert_eq!(b.play(p("d4")), LegalityResult::Applied);
    assert_eq!(b.play(p("b1")), LegalityResult::Applied);
    assert_eq!(b.to_move(), WHITE);
    let before = b.render();
    assert_eq!(b.play(p("a1")), LegalityResult::RejectedSuicide);
    assert_eq!(b.render(), before);
    assert_eq!(b.to_move(), WHITE);
    assert_eq!(b.stone_at(p("a1")), None);
}

#[test]
fn corner_capture_is_not_suicide() {
    let mut b = Board::new();
    // White occupies a1; Black surrounds it. The final Black stone at
    // a1's last liberty captures it, so playing there is legal.
    assert_eq!(b.play(p("a2")), LegalityResult::Applied); // Black
    assert_eq!(b.play(p("a1")), LegalityResult::Applied); // White
    assert_eq!(b.play(p("b1")), LegalityResult::Applied); // Black captures a1
    assert_eq!(b.stone_at(p("a1")), None);
    assert_eq!(b.stone_at(p("a2")), Some(BLACK));
    assert_eq!(b.stone_at(p("b1")), Some(BLACK));
}

#[test]
fn ring_group_liberty_analysis_terminates() {
    let mut b = Board::new();
    // A closed Black ring around the empty point c3: the adjacency
    // graph of the group has a cycle.
    let ring = ["b2", "c2", "d2", "b3", "d3", "b4", "c4", "d4"];
    let fillers = ["q10", "q11", "q12", "q13", "q14", "q15", "q16", "q17"];
    for k in 0..8 {
        assert_eq!(b.play(p(ring[k])), LegalityResult::Applied);
        assert_eq!(b.play(p(fillers[k])), LegalityResult::Applied);
    }
    // The ring has liberties outside and the empty point c3 inside.
    assert!(b.flowing_liberties(p("b2")));
    assert!(b.flowing_liberties(p("d4")));
    // A lone White stone inside the ring has exactly one liberty left
    // and its analysis must also terminate and answer correctly.
    assert_eq!(b.stone_at(p("c3")), None);
}

#[test]
fn capturing_a_whole_group() {
    let mut b = Board::new();
    // Two White stones a1, b1 are captured together by Black a2, b2, c1.
    assert_eq!(b.play(p("a2")), LegalityResult::Applied); // Black
    assert_eq!(b.play(p("a1")), LegalityResult::Applied); // White
    assert_eq!(b.play(p("b2")), LegalityResult::Applied); // Black
    assert_eq!(b.play(p("b1")), LegalityResult::Applied); // White
    assert!(b.flowing_liberties(p("a1")));
    assert_eq!(b.play(p("c1")), LegalityResult::Applied); // Black captures both
    assert_eq!(b.stone_at(p("a1")), None);
    assert_eq!(b.stone_at(p("b1")), None);
    // A two-stone capture does not set a ko point.
    assert!(b.ko_point().is_none());
}
