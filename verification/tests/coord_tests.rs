use goban::coord::Intersection;

fn p(s: &str) -> Intersection {
    Intersection::parse(s).unwrap()
}

#[test]
fn parse_examples() {
    assert_eq!(p("a1").to_linear_index(), 0);
    assert_eq!(p("t1").to_linear_index(), 18);
    assert_eq!(p("a19").to_linear_index(), 18 * 19);
    assert_eq!(p("t19").to_linear_index(), 360);
    // k is the 10th valid letter: i is skipped.
    assert_eq!(p("k10").to_linear_index(), 9 * 19 + 9);
    assert_eq!(p("j1").to_linear_index(), 8);
    assert_eq!(p("h1").to_linear_index(), 7);
}

#[test]
fn parse_is_case_insensitive() {
    assert_eq!(p("K10").to_linear_index(), p("k10").to_linear_index());
    assert_eq!(p("A1").to_linear_index(), 0);
    assert_eq!(p("T19").to_linear_index(), 360);
}

#[test]
fn parse_accepts_leading_zeros() {
    // The numeric part is read as a decimal integer, so 007 is 7.
    assert_eq!(p("a007").to_linear_index(), 6 * 19);
}

#[test]
fn parse_rejects_bad_text() {
    assert!(Intersection::parse("").is_err());
    assert!(Intersection::parse("a").is_err());
    assert!(Intersection::parse("5").is_err());
    assert!(Intersection::parse("i5").is_err());
    assert!(Intersection::parse("I5").is_err());
    assert!(Intersection::parse("u1").is_err());
    assert!(Intersection::parse("a0").is_err());
    assert!(Intersection::parse("a20").is_err());
    assert!(Intersection::parse("a190").is_err());
    assert!(Intersection::parse("a1x").is_err());
    assert!(Intersection::parse("aa").is_err());
    assert!(Intersection::parse("~7").is_err());
    assert!(Intersection::parse("1a").is_err());
}

#[test]
fn notation_round_trips_every_cell() {
    for row in 0..19usize {
        for col in 0..19usize {
            let i = Intersection::new(row, col);
            let text = i.notation();
            let back = Intersection::parse(&text).unwrap();
            assert_eq!(back.to_linear_index(), i.to_linear_index());
        }
    }
}

#[test]
fn notation_examples() {
    assert_eq!(Intersection::new(0, 0).notation(), "a1");
    assert_eq!(Intersection::new(9, 9).notation(), "k10");
    assert_eq!(Intersection::new(18, 18).notation(), "t19");
    assert_eq!(Intersection::new(0, 8).notation(), "j1");
}

#[test]
fn linear_index_bijection() {
    for i in 0..361usize {
        let x = Intersection::from_linear_index(i);
        assert_eq!(x.to_linear_index(), i);
        assert_eq!(x.row() * 19 + x.col(), i);
        let y = Intersection::new(x.row(), x.col());
        assert_eq!(y.to_linear_index(), i);
    }
}

#[test]
fn neighbor_counts_by_position() {
    for row in 0..19usize {
        for col in 0..19usize {
            let n = Intersection::new(row, col).neighbors().len();
            let edge_rows = (row == 0) as usize + (row == 18) as usize;
            let edge_cols = (col == 0) as usize + (col == 18) as usize;
            assert_eq!(n, 4 - edge_rows - edge_cols);
        }
    }
    assert_eq!(Intersection::new(0, 0).neighbors().len(), 2);
    assert_eq!(Intersection::new(0, 5).neighbors().len(), 3);
    assert_eq!(Intersection::new(5, 5).neighbors().len(), 4);
}

#[test]
fn neighbors_are_symmetric() {
    for i in 0..361usize {
        let a = Intersection::from_linear_index(i);
        for b in a.neighbors() {
            let back: Vec<usize> = b
                .neighbors()
                .into_iter()
                .map(|x| x.to_linear_index())
                .collect();
            assert!(back.contains(&i));
        }
    }
}
