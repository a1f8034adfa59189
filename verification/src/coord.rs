//! Coordinate addressing on the 19x19 grid: the validated `Intersection`
//! type, the linear-index bijection, orthogonal adjacency and neighbor
//! enumeration, and conversion between intersections and move notation.

use vstd::prelude::*;
use vstd::string::StringExecFns;

verus! {

/// `ch` is an ASCII decimal digit.
pub open spec fn is_digit_char(ch: char) -> bool {
    48 <= ch as u32 <= 57
}

/// The value of an ASCII decimal digit.
pub open spec fn digit_val(ch: char) -> int {
    ch as u32 - 48
}

/// The number written by a sequence of decimal digits.
pub open spec fn digits_val(s: Seq<char>) -> int
    decreases s.len(),
{
    if s.len() == 0 {
        0
    } else {
        digits_val(s.drop_last()) * 10 + digit_val(s.last())
    }
}

/// Every character of `s` is a decimal digit.
pub open spec fn all_digits(s: Seq<char>) -> bool {
    forall|k: int| 0 <= k < s.len() ==> is_digit_char(#[trigger] s[k])
}

/// The column index written by a coordinate letter: a to t skipping i,
/// case-insensitively; `None` for any other character.
pub open spec fn letter_col(ch: char) -> Option<int> {
    let u = ch as u32;
    let l = if 65 <= u && u <= 90 {
        u + 32
    } else {
        u as int
    };
    if 97 <= l && l <= 116 && l != 105 {
        Some(
            if l > 105 {
                l - 98
            } else {
                l - 97
            },
        )
    } else {
        None
    }
}

/// The intersection index written by a coordinate text: a letter for
/// the column, then the decimal row number in `[1, 19]`.
pub open spec fn parse_spec(s: Seq<char>) -> Option<int> {
    if s.len() < 2 {
        None
    } else {
        match letter_col(s[0]) {
            None => None,
            Some(c) => {
                let digits = s.subrange(1, s.len() as int);
                if all_digits(digits) && 1 <= digits_val(digits) && digits_val(digits) <= 19 {
                    Some((digits_val(digits) - 1) * 19 + c)
                } else {
                    None
                }
            },
        }
    }
}

/// The digit character for a value in `[0, 9]`.
pub open spec fn digit_char(d: int) -> char {
    if d == 0 {
        '0'
    } else if d == 1 {
        '1'
    } else if d == 2 {
        '2'
    } else if d == 3 {
        '3'
    } else if d == 4 {
        '4'
    } else if d == 5 {
        '5'
    } else if d == 6 {
        '6'
    } else if d == 7 {
        '7'
    } else if d == 8 {
        '8'
    } else {
        '9'
    }
}

/// The letter of the column with index `c`: a to t, skipping i.
pub open spec fn col_char(c: int) -> char {
    if c == 0 {
        'a'
    } else if c == 1 {
        'b'
    } else if c == 2 {
        'c'
    } else if c == 3 {
        'd'
    } else if c == 4 {
        'e'
    } else if c == 5 {
        'f'
    } else if c == 6 {
        'g'
    } else if c == 7 {
        'h'
    } else if c == 8 {
        'j'
    } else if c == 9 {
        'k'
    } else if c == 10 {
        'l'
    } else if c == 11 {
        'm'
    } else if c == 12 {
        'n'
    } else if c == 13 {
        'o'
    } else if c == 14 {
        'p'
    } else if c == 15 {
        'q'
    } else if c == 16 {
        'r'
    } else if c == 17 {
        's'
    } else {
        't'
    }
}

/// The decimal text of the row label of row `r`: the number `r + 1`.
pub open spec fn row_chars(r: int) -> Seq<char> {
    if r < 9 {
        seq![digit_char(r + 1)]
    } else {
        seq!['1', digit_char(r - 9)]
    }
}

/// The notation of the intersection with linear index `i`: its column
/// letter, then its row number.
pub open spec fn coord_text(i: int) -> Seq<char> {
    seq![col_char(i % 19)] + row_chars(i / 19)
}

/// A sequence of decimal digits writes a nonnegative number.
proof fn lemma_digits_val_nonneg(s: Seq<char>)
    requires
        all_digits(s),
    ensures
        digits_val(s) >= 0,
    decreases s.len(),
{
    if s.len() > 0 {
        assert forall|k: int| 0 <= k < s.drop_last().len() implies is_digit_char(
            #[trigger] s.drop_last()[k],
        ) by {
            assert(s.drop_last()[k] == s[k]);
        }
        lemma_digits_val_nonneg(s.drop_last());
    }
}

/// A linear index lies on the board.
pub open spec fn on_board(i: int) -> bool {
    0 <= i < 361
}

/// Orthogonal adjacency of two linear indices: same column one row apart,
/// or same row one column apart (never wrapping around an edge).
pub open spec fn adj(a: int, b: int) -> bool {
    on_board(a) && on_board(b) && (b == a - 19 || b == a + 19 || (b == a - 1 && a % 19 != 0)
        || (b == a + 1 && b % 19 != 0))
}

/// The neighbors of `a` in the fixed traversal order: up, down, left, right.
pub open spec fn neighbors_seq(a: int) -> Seq<int> {
    (if a >= 19 {
        seq![a - 19]
    } else {
        Seq::<int>::empty()
    }) + (if a < 342 {
        seq![a + 19]
    } else {
        Seq::<int>::empty()
    }) + (if a % 19 > 0 {
        seq![a - 1]
    } else {
        Seq::<int>::empty()
    }) + (if a % 19 < 18 {
        seq![a + 1]
    } else {
        Seq::<int>::empty()
    })
}

/// `neighbors_seq(a)` holds exactly the indices adjacent to `a`.
pub proof fn lemma_neighbors_adj(a: int, b: int)
    requires
        on_board(a),
    ensures
        neighbors_seq(a).contains(b) <==> adj(a, b),
{
    let s = neighbors_seq(a);
    if adj(a, b) {
        if b == a - 19 {
            assert(s[0] == b);
        } else if b == a + 19 {
            let i: int = if a >= 19 {
                1
            } else {
                0
            };
            assert(s[i] == b);
        } else if b == a - 1 {
            let i: int = (if a >= 19 {
                1int
            } else {
                0
            }) + (if a < 342 {
                1int
            } else {
                0
            });
            assert(s[i] == b);
        } else {
            let i: int = (if a >= 19 {
                1int
            } else {
                0
            }) + (if a < 342 {
                1int
            } else {
                0
            }) + (if a % 19 > 0 {
                1int
            } else {
                0
            });
            assert(s[i] == b);
        }
        assert(s.contains(b));
    }
    if s.contains(b) {
        let i = choose|i: int| 0 <= i < s.len() && s[i] == b;
        assert(adj(a, b));
    }
}

/// One addressable cell of the 19x19 grid, stored as the linear index
/// `row * 19 + column` with row and column in `[0, 19)`.
#[derive(Clone, Copy, PartialEq, Eq, Structural, Debug)]
pub struct Intersection(usize);

impl View for Intersection {
    type V = int;

    closed spec fn view(&self) -> int {
        self.0 as int
    }
}

/// The coordinate text could not be read: bad letter, bad or missing
/// number, or a row or column outside the board.
#[derive(Clone, Copy, PartialEq, Eq, Structural, Debug)]
pub struct ParseError;

impl Intersection {
    /// The stored index lies on the board.
    pub open spec fn wf(self) -> bool {
        on_board(self@)
    }

    /// Builds the intersection at the given row and column.
    pub fn new(row: usize, col: usize) -> (r: Intersection)
        requires
            row < 19,
            col < 19,
        ensures
            r.wf(),
            r@ == row * 19 + col,
    {
        Intersection(row * 19 + col)
    }

    /// Builds the intersection with the given linear index.
    pub fn from_linear_index(i: usize) -> (r: Intersection)
        requires
            i < 361,
        ensures
            r.wf(),
            r@ == i,
    {
        Intersection(i)
    }

    /// The linear index of this intersection.
    pub fn to_linear_index(self) -> (r: usize)
        ensures
            r == self@,
    {
        self.0
    }

    /// The row of this intersection, in `[0, 19)`.
    pub fn row(self) -> (r: usize)
        requires
            self.wf(),
        ensures
            r == self@ / 19,
    {
        self.0 / 19
    }

    /// The column of this intersection, in `[0, 19)`.
    pub fn col(self) -> (r: usize)
        requires
            self.wf(),
        ensures
            r == self@ % 19,
    {
        self.0 % 19
    }

    /// The orthogonally adjacent intersections that exist on the board,
    /// in the fixed order up, down, left, right.
    pub fn neighbors(self) -> (r: Vec<Intersection>)
        requires
            self.wf(),
        ensures
            r@.len() == neighbors_seq(self@).len(),
            forall|k: int|
                0 <= k < r@.len() ==> r@[k].wf() && #[trigger] r@[k]@ == neighbors_seq(self@)[k],
    {
        let raw = neighbor_indices(self.0);
        let mut out: Vec<Intersection> = Vec::new();
        let mut j: usize = 0;
        while j < raw.len()
            invariant
                self.wf(),
                j <= raw.len(),
                raw@.len() == neighbors_seq(self@).len(),
                forall|k: int|
                    0 <= k < raw@.len() ==> raw@[k] < 361 && #[trigger] raw@[k] as int
                        == neighbors_seq(self@)[k],
                out@.len() == j,
                forall|k: int|
                    0 <= k < j ==> out@[k].wf() && #[trigger] out@[k]@ == neighbors_seq(self@)[k],
            decreases raw.len() - j,
        {
            out.push(Intersection(raw[j]));
            j += 1;
        }
        out
    }

    /// Reads a coordinate text: a column letter a to t excluding i,
    /// case-insensitive, then a row number in `[1, 19]`. Returns
    /// `ParseError` when the letter is missing or outside the accepted
    /// set, the numeric part is not a number, or the row is out of
    /// range.
    pub fn parse(s: &str) -> (r: Result<Intersection, ParseError>)
        ensures
            match r {
                Ok(i) => i.wf() && parse_spec(s@) == Some(i@),
                Err(_) => parse_spec(s@) is None,
            },
    {
        let n = s.unicode_len();
        if n < 2 {
            return Err(ParseError);
        }
        let ch = s.get_char(0);
        let u = ch as u32;
        let l: u32 = if 65 <= u && u <= 90 {
            u + 32
        } else {
            u
        };
        if !(97 <= l && l <= 116 && l != 105) {
            return Err(ParseError);
        }
        let col: usize = if l > 105 {
            (l - 98) as usize
        } else {
            (l - 97) as usize
        };
        proof {
            assert(letter_col(s@[0]) == Some(col as int));
        }
        let mut val: usize = 0;
        let mut k: usize = 1;
        while k < n
            invariant
                1 <= k <= n,
                n == s@.len(),
                all_digits(s@.subrange(1, k as int)),
                digits_val(s@.subrange(1, k as int)) <= 19 ==> val == digits_val(
                    s@.subrange(1, k as int),
                ),
                digits_val(s@.subrange(1, k as int)) > 19 ==> val == 20,
                val <= 20,
            decreases n - k,
        {
            let c = s.get_char(k);
            let d = c as u32;
            if !(48 <= d && d <= 57) {
                proof {
                    assert(!is_digit_char(s@[k as int]));
                    assert(s@.subrange(1, s@.len() as int)[k as int - 1] == s@[k as int]);
                    assert(!all_digits(s@.subrange(1, s@.len() as int)));
                }
                return Err(ParseError);
            }
            let ghost pre = s@.subrange(1, k as int);
            proof {
                assert(s@.subrange(1, k as int + 1) =~= pre.push(s@[k as int]));
                assert(pre.push(s@[k as int]).drop_last() =~= pre);
                assert(pre.push(s@[k as int]).last() == s@[k as int]);
                lemma_digits_val_nonneg(pre);
                assert forall|kk: int| 0 <= kk < pre.push(s@[k as int]).len() implies is_digit_char(
                    #[trigger] pre.push(s@[k as int])[kk],
                ) by {
                    if kk < pre.len() {
                        assert(pre.push(s@[k as int])[kk] == pre[kk]);
                    }
                }
            }
            if val <= 19 {
                val = val * 10 + ((d - 48) as usize);
                if val > 19 {
                    val = 20;
                }
            }
            k += 1;
        }
        proof {
            assert(s@.subrange(1, k as int) =~= s@.subrange(1, s@.len() as int));
        }
        if 1 <= val && val <= 19 {
            let row = val - 1;
            let idx = row * 19 + col;
            proof {
                assert(parse_spec(s@) == Some(idx as int));
            }
            Ok(Intersection(idx))
        } else {
            Err(ParseError)
        }
    }

    /// The notation of this intersection: its column letter, then its
    /// row number.
    pub fn notation(self) -> (r: String)
        requires
            self.wf(),
        ensures
            r@ == coord_text(self@),
    {
        let col = self.0 % 19;
        let row = self.0 / 19;
        let letter: &str = if col == 0 {
            "a"
        } else if col == 1 {
            "b"
        } else if col == 2 {
            "c"
        } else if col == 3 {
            "d"
        } else if col == 4 {
            "e"
        } else if col == 5 {
            "f"
        } else if col == 6 {
            "g"
        } else if col == 7 {
            "h"
        } else if col == 8 {
            "j"
        } else if col == 9 {
            "k"
        } else if col == 10 {
            "l"
        } else if col == 11 {
            "m"
        } else if col == 12 {
            "n"
        } else if col == 13 {
            "o"
        } else if col == 14 {
            "p"
        } else if col == 15 {
            "q"
        } else if col == 16 {
            "r"
        } else if col == 17 {
            "s"
        } else {
            "t"
        };
        let number: &str = if row == 0 {
            "1"
        } else if row == 1 {
            "2"
        } else if row == 2 {
            "3"
        } else if row == 3 {
            "4"
        } else if row == 4 {
            "5"
        } else if row == 5 {
            "6"
        } else if row == 6 {
            "7"
        } else if row == 7 {
            "8"
        } else if row == 8 {
            "9"
        } else if row == 9 {
            "10"
        } else if row == 10 {
            "11"
        } else if row == 11 {
            "12"
        } else if row == 12 {
            "13"
        } else if row == 13 {
            "14"
        } else if row == 14 {
            "15"
        } else if row == 15 {
            "16"
        } else if row == 16 {
            "17"
        } else {
            if row == 17 {
                "18"
            } else {
                "19"
            }
        };
        proof {
            reveal_strlit("a");
            reveal_strlit("b");
            reveal_strlit("c");
            reveal_strlit("d");
            reveal_strlit("e");
            reveal_strlit("f");
            reveal_strlit("g");
            reveal_strlit("h");
            reveal_strlit("j");
            reveal_strlit("k");
            reveal_strlit("l");
            reveal_strlit("m");
            reveal_strlit("n");
            reveal_strlit("o");
            reveal_strlit("p");
            reveal_strlit("q");
            reveal_strlit("r");
            reveal_strlit("s");
            reveal_strlit("t");
            reveal_strlit("1");
            reveal_strlit("2");
            reveal_strlit("3");
            reveal_strlit("4");
            reveal_strlit("5");
            reveal_strlit("6");
            reveal_strlit("7");
            reveal_strlit("8");
            reveal_strlit("9");
            reveal_strlit("10");
            reveal_strlit("11");
            reveal_strlit("12");
            reveal_strlit("13");
            reveal_strlit("14");
            reveal_strlit("15");
            reveal_strlit("16");
            reveal_strlit("17");
            reveal_strlit("18");
            reveal_strlit("19");
            assert(letter@ =~= seq![col_char(self@ % 19)]);
            assert(number@ =~= row_chars(self@ / 19));
        }
        let r = String::from_str(letter).concat(number);
        proof {
            assert(r@ =~= coord_text(self@));
        }
        r
    }
}

/// The neighbor indices of `x`, in the fixed order up, down, left, right.
pub(crate) fn neighbor_indices(x: usize) -> (r: Vec<usize>)
    requires
        x < 361,
    ensures
        r@.len() == neighbors_seq(x as int).len(),
        forall|k: int|
            0 <= k < r@.len() ==> r@[k] < 361 && #[trigger] r@[k] as int == neighbors_seq(
                x as int,
            )[k],
{
    let mut r: Vec<usize> = Vec::new();
    if x >= 19 {
        r.push(x - 19);
    }
    if x < 342 {
        r.push(x + 19);
    }
    if x % 19 > 0 {
        r.push(x - 1);
    }
    if x % 19 < 18 {
        r.push(x + 1);
    }
    r
}

} // verus!
