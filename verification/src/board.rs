//! The board state machine: the 19x19 grid of cells, the side to move,
//! the single-point ko restriction, and the move-application operation
//! with occupancy, ko and suicide checks and opponent-group capture.

use vstd::prelude::*;

use crate::coord::Intersection;
use crate::coord::adj;
use crate::coord::lemma_neighbors_adj;
use crate::coord::neighbors_seq;
use crate::coord::on_board;
use crate::group::alive;
use crate::group::capture_frame;
use crate::group::connected;
use crate::group::count_removed;
use crate::group::flowing_from;
use crate::group::group_has_liberty;
use crate::group::lemma_connected_endpoints;
use crate::group::lemma_connected_in_closed;
use crate::group::lemma_connected_refl;
use crate::group::lemma_connected_step;
use crate::group::lemma_count_removed_add;
use crate::group::lemma_count_removed_bounds;
use crate::group::lemma_count_removed_one;
use crate::group::lemma_count_removed_same;
use crate::group::lemma_count_removed_unique;
use crate::group::lemma_count_removed_zero;
use crate::group::lemma_frame_alive;
use crate::group::lemma_frame_connected;
use crate::group::remove_group;

verus! {

/// The color of a stone or of the side to move.
pub type Color = bool;

/// Black moves first.
pub const BLACK: bool = true;

/// The color answering Black.
pub const WHITE: bool = false;

/// The verdict of one move attempt. The three rejections are mutually
/// exclusive and leave the board unchanged.
#[derive(Clone, Copy, PartialEq, Eq, Structural, Debug)]
pub enum LegalityResult {
    Applied,
    RejectedOccupied,
    RejectedKo,
    RejectedSuicide,
}

/// The mathematical state of a board: the grid as a sequence of 361
/// cells, the color to move, and the ko-restricted cell, if any.
#[verifier::ext_equal]
pub ghost struct BoardView {
    pub grid: Seq<Option<bool>>,
    pub to_move: bool,
    pub ko: Option<int>,
}

/// A well-formed state: full-sized grid, and an active ko point is an
/// empty on-board cell (it was just vacated by a capture).
pub open spec fn wf_view(v: BoardView) -> bool {
    &&& v.grid.len() == 361
    &&& match v.ko {
        Some(k) => on_board(k) && v.grid[k] is None,
        None => true,
    }
}

/// The grid once the mover's stone stands at `t`.
pub open spec fn placed(g: Seq<Option<bool>>, t: int, mover: bool) -> Seq<Option<bool>> {
    g.update(t, Some(mover))
}

/// `n` is a neighbor of `t` holding an opponent stone whose group has no
/// liberty once the mover's stone stands at `t`.
pub open spec fn dead_adjacent(g1: Seq<Option<bool>>, t: int, o: bool, n: int) -> bool {
    adj(t, n) && g1[n] == Some(o) && !alive(g1, o, n)
}

/// Cell `i` is vacated by the move at `t`: it belongs to an adjacent
/// opponent group that the placement leaves without a liberty.
pub open spec fn captured_cell(g1: Seq<Option<bool>>, t: int, o: bool, i: int) -> bool {
    exists|n: int| dead_adjacent(g1, t, o, n) && connected(g1, o, n, i)
}

/// The grid after every captured opponent group is removed at once.
pub open spec fn after_captures(g1: Seq<Option<bool>>, t: int, mover: bool) -> Seq<Option<bool>> {
    Seq::new(
        361,
        |i: int|
            if captured_cell(g1, t, !mover, i) {
                None
            } else {
                g1[i]
            },
    )
}

/// The move at `t` captures exactly one opponent stone.
pub open spec fn exactly_one_captured(g1: Seq<Option<bool>>, t: int, o: bool) -> bool {
    exists|i: int|
        #[trigger] captured_cell(g1, t, o, i) && (forall|j: int|
            #[trigger] captured_cell(g1, t, o, j) ==> j == i)
}

/// In the grid `g2` left by the move, the stone placed at `t` stands
/// alone (its group is the single stone) with exactly one liberty.
pub open spec fn lone_stone_one_liberty(g2: Seq<Option<bool>>, t: int, mover: bool) -> bool {
    &&& forall|n: int| #[trigger] adj(t, n) ==> g2[n] != Some(mover)
    &&& exists|n: int|
        #[trigger] adj(t, n) && g2[n] is None && (forall|m: int|
            #[trigger] adj(t, m) && g2[m] is None ==> m == n)
}

/// The ko point after a legal move: the vacated cell, when exactly one
/// stone was captured and the capturing stone stands alone with exactly
/// one liberty (the single-stone recapture shape); otherwise none.
pub open spec fn new_ko(
    g1: Seq<Option<bool>>,
    g2: Seq<Option<bool>>,
    t: int,
    mover: bool,
) -> Option<int> {
    let o = !mover;
    if exactly_one_captured(g1, t, o) && lone_stone_one_liberty(g2, t, mover) {
        Some(
            choose|i: int|
                #[trigger] captured_cell(g1, t, o, i) && (forall|j: int|
                    #[trigger] captured_cell(g1, t, o, j) ==> j == i),
        )
    } else {
        None
    }
}

/// The symbol rendered for one cell.
pub open spec fn cell_char(c: Option<bool>) -> char {
    match c {
        None => '.',
        Some(b) => if b {
            'x'
        } else {
            'o'
        },
    }
}

/// The first `c` cell symbols of row `r`.
pub open spec fn row_cells_prefix(g: Seq<Option<bool>>, r: int, c: int) -> Seq<char>
    decreases c,
{
    if c <= 0 {
        Seq::empty()
    } else {
        row_cells_prefix(g, r, c - 1).push(cell_char(g[r * 19 + (c - 1)]))
    }
}

/// The two-character label of row `r`: the row number, right-aligned.
pub open spec fn row_label(r: int) -> Seq<char> {
    if r < 9 {
        seq![' ', crate::coord::digit_char(r + 1)]
    } else {
        seq!['1', crate::coord::digit_char(r - 9)]
    }
}

/// One rendered grid line: the row label, 19 cell symbols, a newline.
pub open spec fn row_line(g: Seq<Option<bool>>, r: int) -> Seq<char> {
    row_label(r) + row_cells_prefix(g, r, 19) + seq!['\n']
}

/// The first `r` rendered grid lines.
pub open spec fn rows_prefix(g: Seq<Option<bool>>, r: int) -> Seq<char>
    decreases r,
{
    if r <= 0 {
        Seq::empty()
    } else {
        rows_prefix(g, r - 1) + row_line(g, r - 1)
    }
}

/// The header line of column letters.
pub open spec fn header_chars() -> Seq<char> {
    seq![
        ' ',
        ' ',
        'a',
        'b',
        'c',
        'd',
        'e',
        'f',
        'g',
        'h',
        'j',
        'k',
        'l',
        'm',
        'n',
        'o',
        'p',
        'q',
        'r',
        's',
        't',
        '\n',
    ]
}

/// The full fixed-width rendering of a grid: the header line, then one
/// line per row with its label and one symbol per cell.
pub open spec fn render_spec(g: Seq<Option<bool>>) -> Seq<char> {
    header_chars() + rows_prefix(g, 19)
}

/// The verdict owed to a move by the side to move at `t`: occupied and
/// ko rejections in that order, then suicide unless the move leaves the
/// mover's own group with a liberty.
pub open spec fn move_result(v: BoardView, t: int) -> LegalityResult {
    if v.grid[t] is Some {
        LegalityResult::RejectedOccupied
    } else if v.ko == Some(t) {
        LegalityResult::RejectedKo
    } else if !group_has_liberty(after_captures(placed(v.grid, t, v.to_move), t, v.to_move), t) {
        LegalityResult::RejectedSuicide
    } else {
        LegalityResult::Applied
    }
}

/// The state after a legal move at `t`: captures applied, the stone
/// placed, the turn passed to the opponent, and the ko point updated.
pub open spec fn board_after(v: BoardView, t: int) -> BoardView {
    let g1 = placed(v.grid, t, v.to_move);
    let g2 = after_captures(g1, t, v.to_move);
    BoardView { grid: g2, to_move: !v.to_move, ko: new_ko(g1, g2, t, v.to_move) }
}

/// A 19x19 board: the grid, the color to move, and the current ko
/// restriction, if any.
pub struct Board {
    grid: Vec<Option<bool>>,
    to_move: bool,
    ko: Option<usize>,
}

impl View for Board {
    type V = BoardView;

    closed spec fn view(&self) -> BoardView {
        BoardView {
            grid: self.grid@,
            to_move: self.to_move,
            ko: match self.ko {
                Some(k) => Some(k as int),
                None => None,
            },
        }
    }
}

impl Board {
    /// The board is well formed.
    pub open spec fn wf(self) -> bool {
        wf_view(self@)
    }

    /// A fresh board: all cells empty, Black to move, no ko restriction.
    pub fn new() -> (b: Board)
        ensures
            b.wf(),
            b@.grid =~= Seq::new(361, |i: int| None::<bool>),
            b@.to_move == BLACK,
            b@.ko is None,
    {
        Board { grid: vec![None;361], to_move: true, ko: None }
    }

    /// The color to move.
    pub fn to_move(&self) -> (c: bool)
        ensures
            c == self@.to_move,
    {
        self.to_move
    }

    /// The content of the cell at `i`.
    pub fn stone_at(&self, i: Intersection) -> (r: Option<bool>)
        requires
            self.wf(),
            i.wf(),
        ensures
            r == self@.grid[i@],
    {
        self.grid[i.to_linear_index()]
    }

    /// The currently ko-restricted intersection, if any.
    pub fn ko_point(&self) -> (r: Option<Intersection>)
        requires
            self.wf(),
        ensures
            match r {
                Some(x) => x.wf() && self@.ko == Some(x@),
                None => self@.ko is None,
            },
    {
        match self.ko {
            Some(k) => Some(Intersection::from_linear_index(k)),
            None => None,
        }
    }

    /// Whether the connected group of the stone at `i` has at least one
    /// liberty. The traversal uses an explicit visited set sized to the
    /// board, so it terminates even on a closed ring of stones.
    pub fn flowing_liberties(&self, i: Intersection) -> (r: bool)
        requires
            self.wf(),
            i.wf(),
            self@.grid[i@] is Some,
        ensures
            r == group_has_liberty(self@.grid, i@),
    {
        let t = i.to_linear_index();
        let color = match self.grid[t] {
            Some(c) => c,
            None => false,
        };
        flowing_from(&self.grid, t, color)
    }

    /// The fixed-width textual rendering of the board: a header line of
    /// column letters, then one line per row with its number and one
    /// symbol per cell. Deterministic: equal states render equally.
    pub fn render(&self) -> (out: String)
        requires
            self.wf(),
        ensures
            out@ == render_spec(self@.grid),
    {
        let mut out = String::new();
        out.append("  abcdefghjklmnopqrst\n");
        proof {
            reveal_strlit("  abcdefghjklmnopqrst\n");
            assert(out@ =~= header_chars());
            assert(out@ =~= header_chars() + rows_prefix(self@.grid, 0));
        }
        let mut r: usize = 0;
        while r < 19
            invariant
                self.wf(),
                r <= 19,
                out@ == header_chars() + rows_prefix(self@.grid, r as int),
            decreases 19 - r,
        {
            let label: &str = if r == 0 {
                " 1"
            } else if r == 1 {
                " 2"
            } else if r == 2 {
                " 3"
            } else if r == 3 {
                " 4"
            } else if r == 4 {
                " 5"
            } else if r == 5 {
                " 6"
            } else if r == 6 {
                " 7"
            } else if r == 7 {
                " 8"
            } else if r == 8 {
                " 9"
            } else if r == 9 {
                "10"
            } else if r == 10 {
                "11"
            } else if r == 11 {
                "12"
            } else if r == 12 {
                "13"
            } else if r == 13 {
                "14"
            } else if r == 14 {
                "15"
            } else if r == 15 {
                "16"
            } else if r == 16 {
                "17"
            } else if r == 17 {
                "18"
            } else {
                "19"
            };
            proof {
                reveal_strlit(" 1");
                reveal_strlit(" 2");
                reveal_strlit(" 3");
                reveal_strlit(" 4");
                reveal_strlit(" 5");
                reveal_strlit(" 6");
                reveal_strlit(" 7");
                reveal_strlit(" 8");
                reveal_strlit(" 9");
                reveal_strlit("10");
                reveal_strlit("11");
                reveal_strlit("12");
                reveal_strlit("13");
                reveal_strlit("14");
                reveal_strlit("15");
                reveal_strlit("16");
                reveal_strlit("17");
                reveal_strlit("18");
                reveal_strlit("19");
                assert(label@ =~= row_label(r as int));
            }
            out.append(label);
            let mut c: usize = 0;
            while c < 19
                invariant
                    self.wf(),
                    r < 19,
                    c <= 19,
                    out@ == header_chars() + rows_prefix(self@.grid, r as int) + row_label(r as int)
                        + row_cells_prefix(self@.grid, r as int, c as int),
                decreases 19 - c,
            {
                let cell = self.grid[r * 19 + c];
                let sym: &str = match cell {
                    None => ".",
                    Some(true) => "x",
                    Some(false) => "o",
                };
                proof {
                    reveal_strlit(".");
                    reveal_strlit("x");
                    reveal_strlit("o");
                    assert(sym@ =~= seq![cell_char(self@.grid[r as int * 19 + c as int])]);
                }
                out.append(sym);
                proof {
                    assert(out@ =~= header_chars() + rows_prefix(self@.grid, r as int) + row_label(
                        r as int,
                    ) + row_cells_prefix(self@.grid, r as int, c as int + 1));
                }
                c += 1;
            }
            out.append("\n");
            proof {
                reveal_strlit("\n");
                assert(out@ =~= header_chars() + rows_prefix(self@.grid, r as int + 1));
            }
            r += 1;
        }
        out
    }

    /// Attempts a move by the side to move at `target` and reports the
    /// verdict. A rejected move leaves the board exactly as it was; an
    /// applied move captures every adjacent opponent group left without
    /// a liberty, places the stone, updates the ko point, and passes the
    /// turn to the opponent — all as one atomic transition.
    #[verifier::rlimit(100)]
    pub fn play(&mut self, target: Intersection) -> (r: LegalityResult)
        requires
            old(self).wf(),
            target.wf(),
        ensures
            final(self).wf(),
            r == move_result(old(self)@, target@),
            r == LegalityResult::Applied ==> final(self)@ == board_after(old(self)@, target@),
            r != LegalityResult::Applied ==> final(self)@ == old(self)@,
    {
        let ghost v0 = old(self)@;
        let t = target.to_linear_index();
        let occupied = match self.grid[t] {
            Some(_) => true,
            None => false,
        };
        if occupied {
            return LegalityResult::RejectedOccupied;
        }
        let is_ko = match self.ko {
            Some(k) => k == t,
            None => false,
        };
        if is_ko {
            return LegalityResult::RejectedKo;
        }
        proof {
            assert(v0.ko != Some(t as int));
        }
        let mover = self.to_move;
        let ghost o = !mover;
        let mut g = clone_grid(&self.grid);
        g.set(t, Some(mover));
        let ghost g1 = g@;
        proof {
            assert(g1 =~= placed(v0.grid, t as int, mover));
        }
        let cap = capture_dead_neighbors(&mut g, target, mover);
        let captured = cap.0;
        let kc = cap.1;
        let ghost g2 = after_captures(g1, t as int, mover);
        proof {
            if captured_cell(g1, t as int, o, t as int) {
                let n = choose|n: int|
                    dead_adjacent(g1, t as int, o, n) && connected(g1, o, n, t as int);
                lemma_connected_endpoints(g1, o, n, t as int);
                assert(false);
            }
            assert(g@[t as int] == Some(mover));
        }
        let own_lib = flowing_from(&g, t, mover);
        if !own_lib {
            proof {
                assert(!alive(g2, mover, t as int));
                assert(move_result(v0, t as int) == LegalityResult::RejectedSuicide);
            }
            return LegalityResult::RejectedSuicide;
        }
        let lone = lone_stone_check(&g, t, mover);
        let ko_new: Option<usize> = if captured == 1 && lone {
            Some(kc)
        } else {
            None
        };
        proof {
            assert forall|i: int| 0 <= i < 361 implies ((g1[i] != #[trigger] g2[i])
                <==> captured_cell(g1, t as int, o, i)) by {
                if captured_cell(g1, t as int, o, i) {
                    let n = choose|n: int|
                        dead_adjacent(g1, t as int, o, n) && connected(g1, o, n, i);
                    lemma_connected_endpoints(g1, o, n, i);
                }
            }
            lemma_single_capture(g1, g2, t as int, o, captured as int, kc as int);
        }
        self.grid = g;
        self.to_move = !mover;
        self.ko = ko_new;
        proof {
            let va = board_after(v0, t as int);
            assert(va.grid == g2);
            assert(self@.grid == g2);
            if captured == 1 && lone {
                assert(exactly_one_captured(g1, t as int, o));
                assert(lone_stone_one_liberty(g2, t as int, mover));
                let i0 = choose|i: int|
                    #[trigger] captured_cell(g1, t as int, o, i) && (forall|jx: int|
                        #[trigger] captured_cell(g1, t as int, o, jx) ==> jx == i);
                assert(captured_cell(g1, t as int, o, i0));
                assert(i0 == kc as int);
                assert(va.ko == Some(kc as int));
            } else {
                if captured != 1 {
                    assert(!exactly_one_captured(g1, t as int, o));
                } else {
                    assert(!lone_stone_one_liberty(g2, t as int, mover));
                }
                assert(va.ko == None::<int>);
            }
            assert(self@ =~= va);
            assert(group_has_liberty(g2, t as int));
            assert(move_result(v0, t as int) == LegalityResult::Applied);
            assert(self.wf());
        }
        LegalityResult::Applied
    }
}

/// Cell `i` is captured by one of the first `jmax` neighbors of `t`.
spec fn prefix_captured(g1: Seq<Option<bool>>, t: int, o: bool, jmax: int, i: int) -> bool {
    exists|jj: int|
        0 <= jj < jmax && dead_adjacent(g1, t, o, #[trigger] neighbors_seq(t)[jj]) && connected(
            g1,
            o,
            neighbors_seq(t)[jj],
            i,
        )
}

/// Removes every opponent group adjacent to the freshly placed stone at
/// `target` that the placement leaves without a liberty. Returns how
/// many stones were removed, and one removed cell if any was.
#[verifier::rlimit(100)]
fn capture_dead_neighbors(g: &mut Vec<Option<bool>>, target: Intersection, mover: bool) -> (res: (
    usize,
    usize,
))
    requires
        old(g)@.len() == 361,
        target.wf(),
        old(g)@[target@] == Some(mover),
    ensures
        final(g)@.len() == 361,
        final(g)@ == after_captures(old(g)@, target@, mover),
        res.0 == count_removed(old(g)@, final(g)@),
        res.0 <= 361,
        res.0 >= 1 ==> res.1 < 361 && old(g)@[res.1 as int] == Some(!mover) && final(g)@[
            res.1 as int
        ] is None,
{
    let ghost g1 = old(g)@;
    let ghost o = !mover;
    let t = target.to_linear_index();
    let nbrs = target.neighbors();
    let mut captured: usize = 0;
    let mut kc: usize = 0;
    let mut j: usize = 0;
    proof {
        lemma_count_removed_same(g1, g@);
    }
    while j < nbrs.len()
        invariant
            g@.len() == 361,
            g1.len() == 361,
            t < 361,
            g1[t as int] == Some(mover),
            o == !mover,
            nbrs@.len() == neighbors_seq(t as int).len(),
            forall|k: int|
                0 <= k < nbrs@.len() ==> (#[trigger] nbrs@[k])@ == neighbors_seq(t as int)[k]
                    && nbrs@[k].wf(),
            j <= nbrs@.len(),
            capture_frame(g1, g@, o),
            forall|i: int|
                #![trigger g@[i]]
                0 <= i < 361 && g1[i] == Some(o) && g@[i] is None ==> captured_cell(
                    g1,
                    t as int,
                    o,
                    i,
                ),
            forall|i: int|
                #![trigger prefix_captured(g1, t as int, o, j as int, i)]
                0 <= i < 361 && prefix_captured(g1, t as int, o, j as int, i) ==> g@[i] is None,
            captured == count_removed(g1, g@),
            0 <= captured <= 361,
            captured >= 1 ==> kc < 361 && g1[kc as int] == Some(o) && g@[kc as int] is None,
        decreases nbrs@.len() - j,
    {
        let ni = nbrs[j];
        let n = ni.to_linear_index();
        proof {
            assert(n as int == neighbors_seq(t as int)[j as int]);
            assert(neighbors_seq(t as int).contains(n as int));
            lemma_neighbors_adj(t as int, n as int);
            assert(adj(t as int, n as int));
        }
        let cell = g[n];
        let is_opp = match cell {
            Some(cc) => cc != mover,
            None => false,
        };
        if is_opp {
            proof {
                assert(g@[n as int] == Some(o));
                assert(g1[n as int] == Some(o));
            }
            let has_lib = flowing_from(g, n, !mover);
            proof {
                lemma_frame_alive(g1, g@, o, n as int);
            }
            if !has_lib {
                proof {
                    assert(dead_adjacent(g1, t as int, o, n as int));
                }
                let ghost gpre = g@;
                let cnt = remove_group(g, n, !mover);
                kc = n;
                proof {
                    lemma_capture_step(g1, gpre, g@, t as int, o, n as int);
                    assert forall|i: int|
                        #![trigger prefix_captured(g1, t as int, o, j as int + 1, i)]
                        0 <= i < 361 && prefix_captured(g1, t as int, o, j as int + 1, i) implies g@[
                    i] is None by {
                        let jj = choose|jj: int|
                            0 <= jj < j as int + 1 && dead_adjacent(
                                g1,
                                t as int,
                                o,
                                neighbors_seq(t as int)[jj],
                            ) && connected(g1, o, neighbors_seq(t as int)[jj], i);
                        if jj < j as int {
                            assert(prefix_captured(g1, t as int, o, j as int, i));
                            assert(gpre[i] is None);
                        } else {
                            assert(neighbors_seq(t as int)[jj] == n as int);
                            lemma_frame_connected(g1, gpre, o, n as int, i);
                            assert(connected(gpre, o, n as int, i));
                        }
                    }
                    assert forall|i: int| 0 <= i < 361 && g1[i] != #[trigger] gpre[i] implies gpre[
                    i] == g@[i] by {
                        assert(gpre[i] is None);
                        assert(g@[i] == gpre[i]);
                    }
                    lemma_count_removed_add(g1, gpre, g@);
                    lemma_count_removed_bounds(g1, g@);
                    lemma_connected_refl(gpre, o, n as int);
                    assert(g@[n as int] is None);
                }
                captured = captured + cnt;
            } else {
                proof {
                    assert(alive(g1, o, n as int));
                    assert forall|i: int|
                        #![trigger prefix_captured(g1, t as int, o, j as int + 1, i)]
                        0 <= i < 361 && prefix_captured(g1, t as int, o, j as int + 1, i) implies g@[
                    i] is None by {
                        let jj = choose|jj: int|
                            0 <= jj < j as int + 1 && dead_adjacent(
                                g1,
                                t as int,
                                o,
                                neighbors_seq(t as int)[jj],
                            ) && connected(g1, o, neighbors_seq(t as int)[jj], i);
                        if jj < j as int {
                            assert(prefix_captured(g1, t as int, o, j as int, i));
                        } else {
                            assert(neighbors_seq(t as int)[jj] == n as int);
                            assert(false);
                        }
                    }
                }
            }
        } else {
            proof {
                assert forall|i: int|
                    #![trigger prefix_captured(g1, t as int, o, j as int + 1, i)]
                    0 <= i < 361 && prefix_captured(g1, t as int, o, j as int + 1, i) implies g@[i]
                    is None by {
                    let jj = choose|jj: int|
                        0 <= jj < j as int + 1 && dead_adjacent(
                            g1,
                            t as int,
                            o,
                            neighbors_seq(t as int)[jj],
                        ) && connected(g1, o, neighbors_seq(t as int)[jj], i);
                    if jj < j as int {
                        assert(prefix_captured(g1, t as int, o, j as int, i));
                    } else {
                        assert(neighbors_seq(t as int)[jj] == n as int);
                        assert(g1[n as int] == Some(o));
                        assert(g@[n as int] is None);
                        let s = |ii: int| 0 <= ii < 361 && g1[ii] == Some(o) && g@[ii] is None;
                        assert forall|x: int, m: int|
                            #![trigger s(x), adj(x, m)]
                            s(x) && adj(x, m) && g1[m] == Some(o) implies s(m) by {
                            assert(g@[m] is None);
                        }
                        lemma_connected_in_closed(g1, o, n as int, i, s);
                        assert(g@[i] is None);
                    }
                }
            }
        }
        j += 1;
    }
    proof {
        let g2 = after_captures(g1, t as int, mover);
        assert forall|i: int| 0 <= i < 361 implies g@[i] == g2[i] by {
            if captured_cell(g1, t as int, o, i) {
                let n = choose|n: int| dead_adjacent(g1, t as int, o, n) && connected(g1, o, n, i);
                lemma_neighbors_adj(t as int, n);
                assert(neighbors_seq(t as int).contains(n));
                let jj = choose|jj: int|
                    0 <= jj < neighbors_seq(t as int).len() && neighbors_seq(t as int)[jj] == n;
                assert(prefix_captured(g1, t as int, o, nbrs@.len() as int, i));
                assert(g@[i] is None);
            } else {
                assert(g@[i] == g1[i]);
            }
        }
        assert(g@ =~= g2);
    }
    (captured, kc)
}

/// One step of the capture phase: after the whole dead group of the
/// neighbor `n` leaves the grid, the frame between the placed grid and
/// the working grid still holds, and every emptied cell is captured.
proof fn lemma_capture_step(
    g1: Seq<Option<bool>>,
    gpre: Seq<Option<bool>>,
    gpost: Seq<Option<bool>>,
    t: int,
    o: bool,
    n: int,
)
    requires
        g1.len() == 361,
        gpre.len() == 361,
        gpost.len() == 361,
        capture_frame(g1, gpre, o),
        forall|i: int|
            #![trigger gpre[i]]
            0 <= i < 361 && g1[i] == Some(o) && gpre[i] is None ==> captured_cell(g1, t, o, i),
        0 <= n < 361,
        gpre[n] == Some(o),
        dead_adjacent(g1, t, o, n),
        forall|i: int|
            0 <= i < 361 ==> #[trigger] gpost[i] == (if connected(gpre, o, n, i) {
                None::<bool>
            } else {
                gpre[i]
            }),
    ensures
        capture_frame(g1, gpost, o),
        forall|i: int|
            #![trigger gpost[i]]
            0 <= i < 361 && g1[i] == Some(o) && gpost[i] is None ==> captured_cell(g1, t, o, i),
{
    assert forall|i: int| 0 <= i < 361 implies #[trigger] gpost[i] == g1[i] || (g1[i] == Some(o)
        && gpost[i] is None) by {
        if connected(gpre, o, n, i) {
            lemma_connected_endpoints(gpre, o, n, i);
            assert(gpre[i] == Some(o));
            assert(g1[i] == Some(o));
        } else {
            assert(gpost[i] == gpre[i]);
        }
    }
    assert forall|i: int, m: int|
        #![trigger gpost[i], adj(i, m)]
        0 <= i < 361 && g1[i] == Some(o) && gpost[i] is None && adj(i, m) && g1[m] == Some(
            o,
        ) implies gpost[m] is None by {
        if gpre[i] is None {
            assert(gpre[m] is None);
            assert(gpost[m] is None);
        } else {
            assert(gpre[i] == g1[i]);
            assert(connected(gpre, o, n, i));
            if gpre[m] is None {
                assert(gpost[m] is None);
            } else {
                assert(gpre[m] == Some(o));
                lemma_connected_step(gpre, o, n, i, m);
                assert(gpost[m] is None);
            }
        }
    }
    assert forall|i: int|
        #![trigger gpost[i]]
        0 <= i < 361 && g1[i] == Some(o) && gpost[i] is None implies captured_cell(g1, t, o, i) by {
        if !(gpre[i] is None) {
            assert(connected(gpre, o, n, i));
            lemma_frame_connected(g1, gpre, o, n, i);
        }
    }
}

/// Exactly one stone is captured exactly when the number of cells that
/// the move vacates is one, and then the vacated cell is the recorded
/// one.
proof fn lemma_single_capture(
    g1: Seq<Option<bool>>,
    g2: Seq<Option<bool>>,
    t: int,
    o: bool,
    captured: int,
    kc: int,
)
    requires
        g1.len() == 361,
        g2.len() == 361,
        forall|i: int|
            0 <= i < 361 ==> ((g1[i] != #[trigger] g2[i]) <==> captured_cell(g1, t, o, i)),
        captured == count_removed(g1, g2),
        captured >= 1 ==> 0 <= kc < 361 && g1[kc] != g2[kc],
    ensures
        captured == 1 <==> exactly_one_captured(g1, t, o),
        captured == 1 ==> captured_cell(g1, t, o, kc) && (forall|j: int|
            #[trigger] captured_cell(g1, t, o, j) ==> j == kc),
{
    assert forall|j: int| #[trigger] captured_cell(g1, t, o, j) implies 0 <= j < 361 && g1[j]
        != g2[j] by {
        let n = choose|n: int| dead_adjacent(g1, t, o, n) && connected(g1, o, n, j);
        lemma_connected_endpoints(g1, o, n, j);
    }
    if captured == 1 {
        lemma_count_removed_one(g1, g2);
        let i0 = choose|i: int|
            0 <= i < g1.len() && g1[i] != g2[i] && (forall|j: int|
                0 <= j < g1.len() && j != i ==> g1[j] == g2[j]);
        assert(kc == i0);
        assert(captured_cell(g1, t, o, kc));
        assert forall|j: int| #[trigger] captured_cell(g1, t, o, j) implies j == kc by {
            assert(g1[j] != g2[j]);
        }
    } else if captured == 0 {
        lemma_count_removed_zero(g1, g2);
        if exactly_one_captured(g1, t, o) {
            let i0 = choose|i: int|
                #[trigger] captured_cell(g1, t, o, i) && (forall|j: int|
                    #[trigger] captured_cell(g1, t, o, j) ==> j == i);
            assert(g1[i0] != g2[i0]);
            assert(false);
        }
    } else {
        if exactly_one_captured(g1, t, o) {
            let i0 = choose|i: int|
                #[trigger] captured_cell(g1, t, o, i) && (forall|j: int|
                    #[trigger] captured_cell(g1, t, o, j) ==> j == i);
            assert forall|j: int| 0 <= j < 361 && j != i0 implies g1[j] == g2[j] by {
                if g1[j] != g2[j] {
                    assert(captured_cell(g1, t, o, j));
                }
            }
            assert(g1[i0] != g2[i0]);
            lemma_count_removed_unique(g1, g2, i0);
            assert(false);
        }
    }
}

/// A cell-for-cell copy of a grid.
fn clone_grid(g: &Vec<Option<bool>>) -> (r: Vec<Option<bool>>)
    ensures
        r@ == g@,
{
    let mut r: Vec<Option<bool>> = Vec::new();
    let mut i: usize = 0;
    while i < g.len()
        invariant
            i <= g@.len(),
            r@.len() == i,
            forall|k: int| 0 <= k < i ==> r@[k] == g@[k],
        decreases g@.len() - i,
    {
        r.push(g[i]);
        i += 1;
    }
    proof {
        assert(r@ =~= g@);
    }
    r
}

/// Whether, in `g`, the stone at `t` stands alone with exactly one
/// liberty: no neighbor of `t` holds a `mover`-colored stone, and
/// exactly one neighbor of `t` is empty.
fn lone_stone_check(g: &Vec<Option<bool>>, t: usize, mover: bool) -> (r: bool)
    requires
        g@.len() == 361,
        t < 361,
    ensures
        r == lone_stone_one_liberty(g@, t as int, mover),
{
    let mut mover_nbr = false;
    let mut empty_cnt: usize = 0;
    let mut first_empty: usize = 0;
    if t >= 19 {
        proof {
            assert(adj(t as int, t as int - 19));
        }
        match g[t - 19] {
            Some(cc) => {
                if cc == mover {
                    mover_nbr = true;
                }
            },
            None => {
                first_empty = t - 19;
                empty_cnt = 1;
            },
        }
    }
    if t < 342 {
        proof {
            assert(adj(t as int, t as int + 19));
        }
        match g[t + 19] {
            Some(cc) => {
                if cc == mover {
                    mover_nbr = true;
                }
            },
            None => {
                if empty_cnt == 0 {
                    first_empty = t + 19;
                    empty_cnt = 1;
                } else {
                    empty_cnt = 2;
                }
            },
        }
    }
    if t % 19 > 0 {
        proof {
            assert(adj(t as int, t as int - 1));
        }
        match g[t - 1] {
            Some(cc) => {
                if cc == mover {
                    mover_nbr = true;
                }
            },
            None => {
                if empty_cnt == 0 {
                    first_empty = t - 1;
                    empty_cnt = 1;
                } else {
                    empty_cnt = 2;
                }
            },
        }
    }
    if t % 19 < 18 {
        proof {
            assert(adj(t as int, t as int + 1));
        }
        match g[t + 1] {
            Some(cc) => {
                if cc == mover {
                    mover_nbr = true;
                }
            },
            None => {
                if empty_cnt == 0 {
                    first_empty = t + 1;
                    empty_cnt = 1;
                } else {
                    empty_cnt = 2;
                }
            },
        }
    }
    proof {
        assert forall|n: int| #[trigger] adj(t as int, n) implies n == t as int - 19 || n == t
            as int + 19 || n == t as int - 1 || n == t as int + 1 by {}
    }
    !mover_nbr && empty_cnt == 1
}

} // verus!
