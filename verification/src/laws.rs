//! General properties of the board core, stated and proved once and for
//! all inputs: the notation round trip, the shape of the neighbor
//! relation, and the occupied and suicide rejections.

use vstd::prelude::*;

use crate::board::BoardView;
use crate::board::LegalityResult;
use crate::board::after_captures;
use crate::board::captured_cell;
use crate::board::dead_adjacent;
use crate::board::move_result;
use crate::board::placed;
use crate::board::wf_view;
use crate::coord::adj;
use crate::coord::coord_text;
use crate::coord::lemma_neighbors_adj;
use crate::coord::neighbors_seq;
use crate::coord::on_board;
use crate::coord::parse_spec;
use crate::coord::row_chars;
use crate::group::alive;
use crate::group::connected;
use crate::group::group_has_liberty;
use crate::group::stone_path;

verus! {

/// Parsing the rendered notation of any on-board intersection gives
/// back exactly that intersection: for every valid column letter and
/// row number, notation and parsing round-trip.
pub proof fn lemma_parse_notation_round_trip(i: int)
    requires
        on_board(i),
    ensures
        parse_spec(coord_text(i)) == Some(i),
{
    let s = coord_text(i);
    let col = i % 19;
    let row = i / 19;
    vstd::arithmetic::div_mod::lemma_fundamental_div_mod(i, 19);
    let digits = s.subrange(1, s.len() as int);
    assert(digits =~= row_chars(row));
    assert(crate::coord::digits_val(Seq::<char>::empty()) == 0);
    if row < 9 {
        assert(digits.drop_last() =~= Seq::<char>::empty());
        assert(crate::coord::digits_val(digits) == crate::coord::digits_val(digits.drop_last())
            * 10 + crate::coord::digit_val(digits.last()));
        assert(crate::coord::digit_val(crate::coord::digit_char(row + 1)) == row + 1);
        assert(crate::coord::digits_val(digits) == row + 1);
    } else {
        let tens = seq!['1'];
        assert(digits.drop_last() =~= tens);
        assert(tens.drop_last() =~= Seq::<char>::empty());
        assert(crate::coord::digits_val(tens) == crate::coord::digits_val(tens.drop_last()) * 10
            + crate::coord::digit_val(tens.last()));
        assert(crate::coord::digits_val(tens) == 1);
        assert(crate::coord::digits_val(digits) == crate::coord::digits_val(digits.drop_last())
            * 10 + crate::coord::digit_val(digits.last()));
        assert(crate::coord::digit_val(crate::coord::digit_char(row - 9)) == row - 9);
        assert(crate::coord::digits_val(digits) == 10 + (row - 9));
    }
    assert(crate::coord::letter_col(s[0]) == Some(col));
    assert(parse_spec(s) == Some((row + 1 - 1) * 19 + col));
}

/// Each of the four corner cells has exactly 2 neighbors, every other
/// edge cell has 3, and every interior cell has 4.
pub proof fn lemma_neighbor_count(i: int)
    requires
        on_board(i),
    ensures
        (i / 19 == 0 || i / 19 == 18) && (i % 19 == 0 || i % 19 == 18)
            ==> neighbors_seq(i).len() == 2,
        ((i / 19 == 0 || i / 19 == 18) != (i % 19 == 0 || i % 19 == 18)) ==> neighbors_seq(
            i,
        ).len() == 3,
        !(i / 19 == 0 || i / 19 == 18) && !(i % 19 == 0 || i % 19 == 18) ==> neighbors_seq(
            i,
        ).len() == 4,
{
    vstd::arithmetic::div_mod::lemma_fundamental_div_mod(i, 19);
}

/// The neighbor relation is symmetric: `b` is among the neighbors of
/// `a` exactly when `a` is among the neighbors of `b`.
pub proof fn lemma_neighbors_symmetric(a: int, b: int)
    requires
        on_board(a),
        on_board(b),
    ensures
        neighbors_seq(a).contains(b) <==> neighbors_seq(b).contains(a),
{
    lemma_neighbors_adj(a, b);
    lemma_neighbors_adj(b, a);
}

/// Playing on an occupied intersection is always rejected as occupied;
/// by `play`'s contract a rejected move leaves the board unchanged.
pub proof fn lemma_occupied_rejected(v: BoardView, t: int)
    requires
        wf_view(v),
        on_board(t),
        v.grid[t] is Some,
    ensures
        move_result(v, t) == LegalityResult::RejectedOccupied,
{
}

/// A move onto an empty, unrestricted point whose neighbors all hold
/// opponent stones that keep a liberty even after the placement
/// captures nothing and leaves the mover's lone stone without a
/// liberty: it is rejected as suicide, and by `play`'s contract the
/// board is left unchanged.
pub proof fn lemma_suicide_rejected(v: BoardView, t: int)
    requires
        wf_view(v),
        on_board(t),
        v.grid[t] is None,
        v.ko != Some(t),
        forall|n: int| #[trigger] adj(t, n) ==> v.grid[n] == Some(!v.to_move),
        forall|n: int| #[trigger] adj(t, n) ==> alive(placed(v.grid, t, v.to_move), !v.to_move, n),
    ensures
        move_result(v, t) == LegalityResult::RejectedSuicide,
{
    let mover = v.to_move;
    let o = !mover;
    let g1 = placed(v.grid, t, mover);
    assert forall|i: int| !(#[trigger] captured_cell(g1, t, o, i)) by {
        if captured_cell(g1, t, o, i) {
            let n = choose|n: int| dead_adjacent(g1, t, o, n) && connected(g1, o, n, i);
            assert(adj(t, n));
            assert(alive(g1, o, n));
        }
    }
    let g2 = after_captures(g1, t, mover);
    assert(g2 =~= g1);
    if alive(g1, mover, t) {
        let (b, nn) = choose|b: int, nn: int|
            connected(g1, mover, t, b) && adj(b, nn) && g1[nn] is None;
        let p = choose|p: Seq<int>| stone_path(g1, mover, p) && p.first() == t && p.last() == b;
        if p.len() >= 2 {
            assert(adj(p[0], p[1]));
            assert(g1[p[1]] == Some(mover));
            assert(p[1] != t);
            assert(v.grid[p[1]] == Some(o));
            assert(false);
        }
        assert(b == t);
        assert(adj(t, nn));
        assert(g1[nn] == Some(o));
        assert(false);
    }
    assert(!group_has_liberty(g2, t));
}

} // verus!
