use goban::board::Board;
use goban::board::LegalityResult;
use goban::board::BLACK;
use goban::board::WHITE;
use goban::coord::Intersection;

fn p(s: &str) -> Intersection {
    Intersection::parse(s).unwrap()
}

#[test]
fn opening_moves_alternate_and_place_stones() {
    let mut b = Board::new();
    assert_eq!(b.to_move(), BLACK);
    assert_eq!(b.play(p("a1")), LegalityResult::Applied);
    assert_eq!(b.stone_at(p("a1")), Some(BLACK));
    assert_eq!(b.to_move(), WHITE);
    assert_eq!(b.play(p("a2")), LegalityResult::Applied);
    assert_eq!(b.stone_at(p("a2")), Some(WHITE));
    assert_eq!(b.to_move(), BLACK);
    // b1 connects to a1; the Black group keeps liberties at b2 and c1,
    // so nothing is captured.
    assert_eq!(b.play(p("b1")), LegalityResult::Applied);
    assert_eq!(b.stone_at(p("a1")), Some(BLACK));
    assert_eq!(b.stone_at(p("b1")), Some(BLACK));
    assert_eq!(b.stone_at(p("a2")), Some(WHITE));
}

/// Builds the classic ko shape and has Black take the single White
/// stone at e5 by playing f5.
fn build_ko_capture() -> Board {
    let mut b = Board::new();
    assert_eq!(b.play(p("e4")), LegalityResult::Applied); // Black
    assert_eq!(b.play(p("f4")), LegalityResult::Applied); // White
    assert_eq!(b.play(p("e6")), LegalityResult::Applied); // Black
    assert_eq!(b.play(p("f6")), LegalityResult::Applied); // White
    assert_eq!(b.play(p("d5")), LegalityResult::Applied); // Black
    assert_eq!(b.play(p("g5")), LegalityResult::Applied); // White
    assert_eq!(b.play(p("a19")), LegalityResult::Applied); // Black elsewhere
    assert_eq!(b.play(p("e5")), LegalityResult::Applied); // White into the jaws
    assert_eq!(b.stone_at(p("e5")), Some(WHITE));
    // Black f5 fills the last White liberty and captures e5.
    assert_eq!(b.play(p("f5")), LegalityResult::Applied);
    b
}

#[test]
fn single_stone_capture_sets_ko() {
    let b = build_ko_capture();
    assert_eq!(b.stone_at(p("e5")), None);
    assert_eq!(b.stone_at(p("f5")), Some(BLACK));
    let ko = b.ko_point().expect("the vacated point is the ko point");
    assert_eq!(ko.to_linear_index(), p("e5").to_linear_index());
}

#[test]
fn ko_recapture_is_rejected_then_allowed_after_a_round() {
    let mut b = build_ko_capture();
    assert_eq!(b.to_move(), WHITE);
    // Immediate recapture on the vacated point is forbidden.
    assert_eq!(b.play(p("e5")), LegalityResult::RejectedKo);
    assert_eq!(b.to_move(), WHITE);
    assert_eq!(b.stone_at(p("e5")), None);
    // White plays elsewhere: the ko restriction is cleared.
    assert_eq!(b.play(p("a1")), LegalityResult::Applied);
    assert!(b.ko_point().is_none());
    // Black answers elsewhere.
    assert_eq!(b.play(p("c17")), LegalityResult::Applied);
    // Now White may retake the ko, capturing the Black stone at f5.
    assert_eq!(b.play(p("e5")), LegalityResult::Applied);
    assert_eq!(b.stone_at(p("f5")), None);
    assert_eq!(b.stone_at(p("e5")), Some(WHITE));
    // The recapture restores the mirror ko shape.
    let ko = b.ko_point().expect("the recapture sets the mirror ko");
    assert_eq!(ko.to_linear_index(), p("f5").to_linear_index());
}

#[test]
fn two_point_eye_capture_sets_no_ko() {
    let mut b = Board::new();
    // Black captures a single White stone at a1 with a2 and b1; the
    // capturing stone b1 keeps two liberties, so no ko point is set.
    assert_eq!(b.play(p("a2")), LegalityResult::Applied); // Black
    assert_eq!(b.play(p("a1")), LegalityResult::Applied); // White
    assert_eq!(b.play(p("b1")), LegalityResult::Applied); // Black captures
    assert_eq!(b.stone_at(p("a1")), None);
    assert!(b.ko_point().is_none());
}
