//! Liberty analysis: connected groups of same-colored stones, whether a
//! group touches an empty cell, and removal of a captured group. The grid
//! is a sequence of 361 cells; a cell holds `None` or `Some(color)`.

use vstd::prelude::*;

use crate::coord::adj;
use crate::coord::neighbor_indices;
use crate::coord::neighbors_seq;
use crate::coord::lemma_neighbors_adj;
use crate::coord::on_board;

verus! {

/// A path of stones of color `c`: every entry is an on-board cell holding
/// `Some(c)`, and consecutive entries are orthogonally adjacent.
pub open spec fn stone_path(g: Seq<Option<bool>>, c: bool, p: Seq<int>) -> bool {
    &&& p.len() >= 1
    &&& forall|k: int| 0 <= k < p.len() ==> on_board(#[trigger] p[k]) && g[p[k]] == Some(c)
    &&& forall|k: int| 0 <= k < p.len() - 1 ==> adj(#[trigger] p[k], p[k + 1])
}

/// `b` belongs to the connected group of `c`-colored stones that contains `a`.
pub open spec fn connected(g: Seq<Option<bool>>, c: bool, a: int, b: int) -> bool {
    exists|p: Seq<int>| stone_path(g, c, p) && p.first() == a && p.last() == b
}

/// Some stone of the `c`-colored group containing `a` has an empty neighbor.
pub open spec fn alive(g: Seq<Option<bool>>, c: bool, a: int) -> bool {
    exists|b: int, n: int| connected(g, c, a, b) && adj(b, n) && g[n] is None
}

/// The connected group of the stone at `s` has at least one liberty.
pub open spec fn group_has_liberty(g: Seq<Option<bool>>, s: int) -> bool {
    g[s] matches Some(c) && alive(g, c, s)
}

/// A stone is connected to itself.
pub proof fn lemma_connected_refl(g: Seq<Option<bool>>, c: bool, a: int)
    requires
        on_board(a),
        g[a] == Some(c),
    ensures
        connected(g, c, a, a),
{
    let p = seq![a];
    assert(stone_path(g, c, p));
    assert(p.first() == a && p.last() == a);
}

/// Extending a group membership across one adjacency.
pub proof fn lemma_connected_step(g: Seq<Option<bool>>, c: bool, a: int, b: int, n: int)
    requires
        connected(g, c, a, b),
        adj(b, n),
        g[n] == Some(c),
    ensures
        connected(g, c, a, n),
{
    let p = choose|p: Seq<int>| stone_path(g, c, p) && p.first() == a && p.last() == b;
    let q = p.push(n);
    assert forall|k: int| 0 <= k < q.len() implies on_board(#[trigger] q[k]) && g[q[k]] == Some(
        c,
    ) by {
        if k < p.len() {
            assert(q[k] == p[k]);
        } else {
            assert(q[k] == n);
        }
    }
    assert forall|k: int| 0 <= k < q.len() - 1 implies adj(#[trigger] q[k], q[k + 1]) by {
        if k < p.len() - 1 {
            assert(q[k] == p[k] && q[k + 1] == p[k + 1]);
        } else {
            assert(q[k] == p.last() && q[k + 1] == n);
        }
    }
    assert(stone_path(g, c, q) && q.first() == a && q.last() == n);
}

/// Both ends of a group membership are on-board stones of the color.
pub proof fn lemma_connected_endpoints(g: Seq<Option<bool>>, c: bool, a: int, b: int)
    requires
        connected(g, c, a, b),
    ensures
        on_board(a),
        on_board(b),
        g[a] == Some(c),
        g[b] == Some(c),
{
    let p = choose|p: Seq<int>| stone_path(g, c, p) && p.first() == a && p.last() == b;
    assert(on_board(p[0]) && g[p[0]] == Some(c));
    assert(on_board(p[p.len() - 1]) && g[p[p.len() - 1]] == Some(c));
}

/// Every cell of a stone path lies in any set that contains the path's
/// start and is closed under same-colored adjacency.
pub proof fn lemma_path_in_closed(g: Seq<Option<bool>>, c: bool, p: Seq<int>, s: spec_fn(int) -> bool)
    requires
        stone_path(g, c, p),
        s(p.first()),
        forall|x: int, n: int|
            #![trigger s(x), adj(x, n)]
            s(x) && adj(x, n) && g[n] == Some(c) ==> s(n),
    ensures
        forall|k: int| 0 <= k < p.len() ==> s(#[trigger] p[k]),
{
    assert forall|k: int| 0 <= k < p.len() implies s(#[trigger] p[k]) by {
        lemma_path_prefix_in_closed(g, c, p, s, k);
    }
}

proof fn lemma_path_prefix_in_closed(
    g: Seq<Option<bool>>,
    c: bool,
    p: Seq<int>,
    s: spec_fn(int) -> bool,
    k: int,
)
    requires
        stone_path(g, c, p),
        s(p.first()),
        forall|x: int, n: int|
            #![trigger s(x), adj(x, n)]
            s(x) && adj(x, n) && g[n] == Some(c) ==> s(n),
        0 <= k < p.len(),
    ensures
        s(p[k]),
    decreases k,
{
    if k > 0 {
        lemma_path_prefix_in_closed(g, c, p, s, k - 1);
        assert(adj(p[k - 1], p[k - 1 + 1]));
        assert(g[p[k]] == Some(c));
        assert(s(p[k]));
    }
}

/// Every member of a group lies in any set that contains one member and
/// is closed under same-colored adjacency.
pub proof fn lemma_connected_in_closed(
    g: Seq<Option<bool>>,
    c: bool,
    a: int,
    b: int,
    s: spec_fn(int) -> bool,
)
    requires
        connected(g, c, a, b),
        s(a),
        forall|x: int, n: int|
            #![trigger s(x), adj(x, n)]
            s(x) && adj(x, n) && g[n] == Some(c) ==> s(n),
    ensures
        s(b),
{
    let p = choose|p: Seq<int>| stone_path(g, c, p) && p.first() == a && p.last() == b;
    lemma_path_in_closed(g, c, p, s);
    assert(s(p[p.len() - 1]));
}

/// The relation between a grid `g` and the grid `h` left after emptying
/// some of `g`'s `c`-colored stones, where the emptied cells are closed
/// under same-colored adjacency (whole groups leave, never parts).
pub open spec fn capture_frame(g: Seq<Option<bool>>, h: Seq<Option<bool>>, c: bool) -> bool {
    &&& g.len() == 361
    &&& h.len() == 361
    &&& forall|i: int|
        0 <= i < 361 ==> #[trigger] h[i] == g[i] || (g[i] == Some(c) && h[i] is None)
    &&& forall|i: int, m: int|
        #![trigger h[i], adj(i, m)]
        0 <= i < 361 && g[i] == Some(c) && h[i] is None && adj(i, m) && g[m] == Some(c) ==> h[m]
            is None
}

/// Removing whole `c`-colored groups neither splits nor joins the
/// remaining `c`-colored groups.
pub proof fn lemma_frame_connected(
    g: Seq<Option<bool>>,
    h: Seq<Option<bool>>,
    c: bool,
    a: int,
    b: int,
)
    requires
        capture_frame(g, h, c),
        h[a] == Some(c),
        0 <= a < 361,
    ensures
        connected(h, c, a, b) <==> connected(g, c, a, b),
{
    if connected(h, c, a, b) {
        let p = choose|p: Seq<int>| stone_path(h, c, p) && p.first() == a && p.last() == b;
        assert forall|k: int| 0 <= k < p.len() implies on_board(#[trigger] p[k]) && g[p[k]]
            == Some(c) by {
            assert(h[p[k]] == Some(c));
        }
        assert(stone_path(g, c, p));
        assert(connected(g, c, a, b));
    }
    if connected(g, c, a, b) {
        let p = choose|p: Seq<int>| stone_path(g, c, p) && p.first() == a && p.last() == b;
        let s = |i: int| 0 <= i < 361 && h[i] == Some(c);
        assert forall|x: int, n: int|
            #![trigger s(x), adj(x, n)]
            s(x) && adj(x, n) && g[n] == Some(c) implies s(n) by {
            if h[n] is None {
                assert(adj(n, x));
                assert(g[x] == Some(c));
                assert(h[x] is None);
            }
        }
        lemma_path_in_closed(g, c, p, s);
        assert forall|k: int| 0 <= k < p.len() implies on_board(#[trigger] p[k]) && h[p[k]]
            == Some(c) by {
            assert(s(p[k]));
        }
        assert(stone_path(h, c, p));
        assert(connected(h, c, a, b));
    }
}

/// Removing whole dead `c`-colored groups does not change whether a
/// remaining `c`-colored group is alive.
pub proof fn lemma_frame_alive(g: Seq<Option<bool>>, h: Seq<Option<bool>>, c: bool, a: int)
    requires
        capture_frame(g, h, c),
        h[a] == Some(c),
        0 <= a < 361,
    ensures
        alive(h, c, a) <==> alive(g, c, a),
{
    if alive(g, c, a) {
        let (b, n) = choose|b: int, n: int| connected(g, c, a, b) && adj(b, n) && g[n] is None;
        lemma_frame_connected(g, h, c, a, b);
        assert(h[n] is None);
        assert(connected(h, c, a, b) && adj(b, n) && h[n] is None);
    }
    if alive(h, c, a) {
        let (b, n) = choose|b: int, n: int| connected(h, c, a, b) && adj(b, n) && h[n] is None;
        lemma_frame_connected(g, h, c, a, b);
        let p = choose|p: Seq<int>| stone_path(h, c, p) && p.first() == a && p.last() == b;
        assert(h[b] == Some(c));
        if g[n] is Some {
            assert(g[n] == Some(c) && h[n] is None);
            assert(adj(n, b));
            assert(g[b] == Some(c));
            assert(h[b] is None);
        }
        assert(connected(g, c, a, b) && adj(b, n) && g[n] is None);
    }
}

/// How many cells of `g` were emptied in `h`: the number of positions
/// where the two grids differ.
pub open spec fn count_removed(g: Seq<Option<bool>>, h: Seq<Option<bool>>) -> int
    decreases g.len(),
{
    if g.len() == 0 {
        0
    } else {
        count_removed(g.drop_last(), h.drop_last()) + if g.last() == h.last() {
            0int
        } else {
            1
        }
    }
}

pub proof fn lemma_count_removed_bounds(g: Seq<Option<bool>>, h: Seq<Option<bool>>)
    requires
        g.len() == h.len(),
    ensures
        0 <= count_removed(g, h) <= g.len(),
    decreases g.len(),
{
    if g.len() > 0 {
        lemma_count_removed_bounds(g.drop_last(), h.drop_last());
    }
}

pub proof fn lemma_count_removed_same(g: Seq<Option<bool>>, h: Seq<Option<bool>>)
    requires
        g.len() == h.len(),
        forall|i: int| 0 <= i < g.len() ==> g[i] == h[i],
    ensures
        count_removed(g, h) == 0,
    decreases g.len(),
{
    if g.len() > 0 {
        lemma_count_removed_same(g.drop_last(), h.drop_last());
    }
}

pub proof fn lemma_count_removed_zero(g: Seq<Option<bool>>, h: Seq<Option<bool>>)
    requires
        g.len() == h.len(),
        count_removed(g, h) == 0,
    ensures
        forall|i: int| 0 <= i < g.len() ==> g[i] == h[i],
    decreases g.len(),
{
    if g.len() > 0 {
        lemma_count_removed_bounds(g.drop_last(), h.drop_last());
        lemma_count_removed_zero(g.drop_last(), h.drop_last());
        assert forall|i: int| 0 <= i < g.len() implies g[i] == h[i] by {
            if i < g.len() - 1 {
                assert(g.drop_last()[i] == h.drop_last()[i]);
            }
        }
    }
}

pub proof fn lemma_count_removed_one(g: Seq<Option<bool>>, h: Seq<Option<bool>>)
    requires
        g.len() == h.len(),
        count_removed(g, h) == 1,
    ensures
        exists|i: int|
            0 <= i < g.len() && g[i] != h[i] && (forall|j: int|
                0 <= j < g.len() && j != i ==> g[j] == h[j]),
    decreases g.len(),
{
    if g.last() == h.last() {
        lemma_count_removed_one(g.drop_last(), h.drop_last());
        let i = choose|i: int|
            0 <= i < g.len() - 1 && g.drop_last()[i] != h.drop_last()[i] && (forall|j: int|
                0 <= j < g.len() - 1 && j != i ==> g.drop_last()[j] == h.drop_last()[j]);
        assert(g[i] != h[i]);
        assert forall|j: int| 0 <= j < g.len() && j != i implies g[j] == h[j] by {
            if j < g.len() - 1 {
                assert(g.drop_last()[j] == h.drop_last()[j]);
            }
        }
    } else {
        lemma_count_removed_bounds(g.drop_last(), h.drop_last());
        lemma_count_removed_zero(g.drop_last(), h.drop_last());
        let i = g.len() - 1;
        assert forall|j: int| 0 <= j < g.len() && j != i implies g[j] == h[j] by {
            assert(g.drop_last()[j] == h.drop_last()[j]);
        }
    }
}

pub proof fn lemma_count_removed_unique(g: Seq<Option<bool>>, h: Seq<Option<bool>>, i: int)
    requires
        g.len() == h.len(),
        0 <= i < g.len(),
        g[i] != h[i],
        forall|j: int| 0 <= j < g.len() && j != i ==> g[j] == h[j],
    ensures
        count_removed(g, h) == 1,
    decreases g.len(),
{
    if i == g.len() - 1 {
        lemma_count_removed_same(g.drop_last(), h.drop_last());
    } else {
        assert(g.last() == h.last());
        lemma_count_removed_unique(g.drop_last(), h.drop_last(), i);
    }
}

pub proof fn lemma_count_removed_update(
    g: Seq<Option<bool>>,
    h: Seq<Option<bool>>,
    i: int,
    v: Option<bool>,
)
    requires
        g.len() == h.len(),
        0 <= i < g.len(),
        g[i] == h[i],
        v != g[i],
    ensures
        count_removed(g, h.update(i, v)) == count_removed(g, h) + 1,
    decreases g.len(),
{
    let h2 = h.update(i, v);
    if i == g.len() - 1 {
        assert(h2.drop_last() =~= h.drop_last());
        assert(h2.last() == v);
    } else {
        assert(h2.drop_last() =~= h.drop_last().update(i, v));
        assert(h2.last() == h.last());
        lemma_count_removed_update(g.drop_last(), h.drop_last(), i, v);
    }
}

pub proof fn lemma_count_removed_add(
    g: Seq<Option<bool>>,
    h: Seq<Option<bool>>,
    k: Seq<Option<bool>>,
)
    requires
        g.len() == h.len(),
        h.len() == k.len(),
        forall|i: int| 0 <= i < g.len() && g[i] != h[i] ==> h[i] == k[i],
    ensures
        count_removed(g, k) == count_removed(g, h) + count_removed(h, k),
    decreases g.len(),
{
    if g.len() > 0 {
        assert forall|i: int|
            0 <= i < g.len() - 1 && g.drop_last()[i] != h.drop_last()[i] implies h.drop_last()[i]
            == k.drop_last()[i] by {
            assert(g[i] != h[i]);
        }
        lemma_count_removed_add(g.drop_last(), h.drop_last(), k.drop_last());
        if g.last() != h.last() {
            assert(h.last() == k.last());
        }
    }
}

/// The number of stones on the grid.
pub open spec fn nstones(g: Seq<Option<bool>>) -> int
    decreases g.len(),
{
    if g.len() == 0 {
        0
    } else {
        nstones(g.drop_last()) + if g.last() is Some {
            1int
        } else {
            0
        }
    }
}

pub proof fn lemma_nstones_bounds(g: Seq<Option<bool>>)
    ensures
        0 <= nstones(g) <= g.len(),
    decreases g.len(),
{
    if g.len() > 0 {
        lemma_nstones_bounds(g.drop_last());
    }
}

pub proof fn lemma_nstones_remove(g: Seq<Option<bool>>, i: int)
    requires
        0 <= i < g.len(),
        g[i] is Some,
    ensures
        nstones(g.update(i, None)) == nstones(g) - 1,
    decreases g.len(),
{
    let h = g.update(i, None);
    if i == g.len() - 1 {
        assert(h.drop_last() =~= g.drop_last());
        assert(h.last() is None);
    } else {
        assert(h.drop_last() =~= g.drop_last().update(i, None));
        assert(h.last() == g.last());
        lemma_nstones_remove(g.drop_last(), i);
    }
}

/// The number of `true` entries of a mark vector.
pub open spec fn nmarks(v: Seq<bool>) -> int
    decreases v.len(),
{
    if v.len() == 0 {
        0
    } else {
        nmarks(v.drop_last()) + if v.last() {
            1int
        } else {
            0
        }
    }
}

pub proof fn lemma_nmarks_bounds(v: Seq<bool>)
    ensures
        0 <= nmarks(v) <= v.len(),
    decreases v.len(),
{
    if v.len() > 0 {
        lemma_nmarks_bounds(v.drop_last());
    }
}

pub proof fn lemma_nmarks_mark(v: Seq<bool>, i: int)
    requires
        0 <= i < v.len(),
        !v[i],
    ensures
        nmarks(v.update(i, true)) == nmarks(v) + 1,
    decreases v.len(),
{
    let w = v.update(i, true);
    if i == v.len() - 1 {
        assert(w.drop_last() =~= v.drop_last());
        assert(w.last());
    } else {
        assert(w.drop_last() =~= v.drop_last().update(i, true));
        assert(w.last() == v.last());
        lemma_nmarks_mark(v.drop_last(), i);
    }
}

/// Flood fill from `seed`: whether the connected group of `color`-colored
/// stones containing `seed` touches any empty cell. The explicit visited
/// vector and worklist bound the traversal, so termination holds even on
/// a ring of stones.
#[verifier::rlimit(60)]
pub(crate) fn flowing_from(g: &Vec<Option<bool>>, seed: usize, color: bool) -> (r: bool)
    requires
        g@.len() == 361,
        seed < 361,
        g@[seed as int] == Some(color),
    ensures
        r == alive(g@, color, seed as int),
{
    let mut visited: Vec<bool> = vec![false; 361];
    let mut stack: Vec<usize> = Vec::new();
    visited.set(seed, true);
    stack.push(seed);
    proof {
        lemma_connected_refl(g@, color, seed as int);
        lemma_nmarks_mark(Seq::new(361, |i: int| false), seed as int);
        lemma_nmarks_bounds(visited@);
        assert(stack@[0] == seed);
        assert(stack@.contains(seed));
    }
    while stack.len() > 0
        invariant
            g@.len() == 361,
            visited@.len() == 361,
            seed < 361,
            g@[seed as int] == Some(color),
            visited@[seed as int],
            forall|i: int|
                0 <= i < 361 && #[trigger] visited@[i] ==> g@[i] == Some(color) && connected(
                    g@,
                    color,
                    seed as int,
                    i,
                ),
            forall|k: int|
                0 <= k < stack@.len() ==> #[trigger] stack@[k] < 361 && visited@[stack@[k] as int],
            forall|i: int, m: int|
                #![trigger visited@[i], adj(i, m)]
                0 <= i < 361 && visited@[i] && !stack@.contains(i as usize) && adj(i, m) ==> g@[m]
                    is Some && (g@[m] == Some(color) ==> visited@[m]),
        decreases 361 - nmarks(visited@), stack.len(),
    {
        let ghost marks0 = nmarks(visited@);
        let ghost stack0 = stack@.len() - 1;
        let ghost old_st = stack@;
        let x = stack.pop().unwrap();
        proof {
            assert forall|u: usize| #[trigger] old_st.contains(u) && u != x implies stack@.contains(
                u,
            ) by {
                let k = choose|k: int| 0 <= k < old_st.len() && old_st[k] == u;
                assert(stack@[k] == u);
            }
        }
        let nbrs = neighbor_indices(x);
        let mut j: usize = 0;
        while j < nbrs.len()
            invariant
                g@.len() == 361,
                visited@.len() == 361,
                seed < 361,
                x < 361,
                g@[seed as int] == Some(color),
                visited@[seed as int],
                visited@[x as int],
                nbrs@.len() == neighbors_seq(x as int).len(),
                forall|k: int|
                    0 <= k < nbrs@.len() ==> #[trigger] nbrs@[k] < 361 && nbrs@[k] as int
                        == neighbors_seq(x as int)[k],
                j <= nbrs@.len(),
                forall|i: int|
                    0 <= i < 361 && #[trigger] visited@[i] ==> g@[i] == Some(color) && connected(
                        g@,
                        color,
                        seed as int,
                        i,
                    ),
                forall|k: int|
                    0 <= k < stack@.len() ==> #[trigger] stack@[k] < 361 && visited@[stack@[
                        k
                    ] as int],
                forall|i: int, m: int|
                    #![trigger visited@[i], adj(i, m)]
                    0 <= i < 361 && visited@[i] && !stack@.contains(i as usize) && i != x as int
                        && adj(i, m) ==> g@[m] is Some && (g@[m] == Some(color) ==> visited@[m]),
                forall|jj: int|
                    0 <= jj < j ==> g@[#[trigger] nbrs@[jj] as int] is Some && (g@[nbrs@[jj] as int]
                        == Some(color) ==> visited@[nbrs@[jj] as int]),
                nmarks(visited@) >= marks0,
                stack@.len() - stack0 <= nmarks(visited@) - marks0,
                stack0 <= stack@.len(),
            decreases nbrs@.len() - j,
        {
            let n = nbrs[j];
            proof {
                assert(neighbors_seq(x as int)[j as int] == n as int);
                assert(neighbors_seq(x as int).contains(n as int));
                lemma_neighbors_adj(x as int, n as int);
            }
            let cell = g[n];
            match cell {
                None => {
                    proof {
                        assert(connected(g@, color, seed as int, x as int));
                        assert(adj(x as int, n as int) && g@[n as int] is None);
                    }
                    return true;
                },
                Some(cc) => {
                    if cc == color && !visited[n] {
                        proof {
                            lemma_nmarks_mark(visited@, n as int);
                            lemma_connected_step(
                                g@,
                                color,
                                seed as int,
                                x as int,
                                n as int,
                            );
                        }
                        visited.set(n, true);
                        let ghost prev_st = stack@;
                        stack.push(n);
                        proof {
                            assert forall|u: usize| #[trigger] prev_st.contains(
                                u,
                            ) implies stack@.contains(u) by {
                                let k = choose|k: int| 0 <= k < prev_st.len() && prev_st[k] == u;
                                assert(stack@[k] == u);
                            }
                            assert(stack@.last() == n);
                            assert(stack@.contains(n));
                        }
                    }
                },
            }
            j += 1;
        }
        proof {
            assert forall|i: int, m: int|
                #![trigger visited@[i], adj(i, m)]
                0 <= i < 361 && visited@[i] && !stack@.contains(i as usize) && adj(i, m) implies g@[
                m] is Some && (g@[m] == Some(color) ==> visited@[m]) by {
                if i == x as int {
                    lemma_neighbors_adj(x as int, m);
                    assert(neighbors_seq(x as int).contains(m));
                    let k = choose|k: int|
                        0 <= k < neighbors_seq(x as int).len() && neighbors_seq(x as int)[k] == m;
                    assert(nbrs@[k] as int == m);
                }
            }
            lemma_nmarks_bounds(visited@);
        }
    }
    proof {
        let s = |i: int| 0 <= i < 361 && visited@[i];
        assert forall|b: int, n: int|
            connected(g@, color, seed as int, b) && adj(b, n) implies !(g@[n] is None) by {
            assert forall|x: int, m: int|
                #![trigger s(x), adj(x, m)]
                s(x) && adj(x, m) && g@[m] == Some(color) implies s(m) by {
                assert(!stack@.contains(x as usize));
                assert(visited@[x]);
            }
            lemma_connected_in_closed(g@, color, seed as int, b, s);
            assert(visited@[b]);
            assert(!stack@.contains(b as usize));
        }
        assert(!alive(g@, color, seed as int));
    }
    false
}

/// Removes the whole connected group of `color`-colored stones containing
/// `seed`, and reports how many stones were removed.
#[verifier::rlimit(60)]
pub(crate) fn remove_group(g: &mut Vec<Option<bool>>, seed: usize, color: bool) -> (cnt: usize)
    requires
        old(g)@.len() == 361,
        seed < 361,
        old(g)@[seed as int] == Some(color),
    ensures
        final(g)@.len() == 361,
        forall|i: int|
            0 <= i < 361 ==> final(g)@[i] == (if connected(old(g)@, color, seed as int, i) {
                None::<bool>
            } else {
                old(g)@[i]
            }),
        cnt == count_removed(old(g)@, final(g)@),
        1 <= cnt <= 361,
{
    let ghost g0 = old(g)@;
    let mut stack: Vec<usize> = Vec::new();
    proof {
        lemma_connected_refl(g0, color, seed as int);
        lemma_count_removed_same(g0, g0);
        lemma_count_removed_update(g0, g0, seed as int, None);
    }
    g.set(seed, None);
    stack.push(seed);
    let mut cnt: usize = 1;
    proof {
        lemma_nstones_remove(g0, seed as int);
        lemma_nstones_bounds(g0);
        assert(stack@[0] == seed);
        assert(stack@.contains(seed));
    }
    while stack.len() > 0
        invariant
            g@.len() == 361,
            g0.len() == 361,
            seed < 361,
            g0[seed as int] == Some(color),
            g@[seed as int] is None,
            forall|i: int|
                0 <= i < 361 ==> #[trigger] g@[i] == g0[i] || (g0[i] == Some(color) && g@[i]
                    is None && connected(g0, color, seed as int, i)),
            forall|k: int|
                0 <= k < stack@.len() ==> #[trigger] stack@[k] < 361 && g0[stack@[k] as int]
                    == Some(color) && g@[stack@[k] as int] is None,
            forall|i: int, m: int|
                #![trigger g@[i], adj(i, m)]
                0 <= i < 361 && g0[i] == Some(color) && g@[i] is None && !stack@.contains(
                    i as usize,
                ) && adj(i, m) && g0[m] == Some(color) ==> g@[m] is None,
            cnt == count_removed(g0, g@),
            1 <= cnt <= 361,
        decreases nstones(g@), stack.len(),
    {
        let ghost marks0 = nstones(g@);
        let ghost stack0 = stack@.len() - 1;
        let ghost old_st = stack@;
        let x = stack.pop().unwrap();
        proof {
            assert forall|u: usize| #[trigger] old_st.contains(u) && u != x implies stack@.contains(
                u,
            ) by {
                let k = choose|k: int| 0 <= k < old_st.len() && old_st[k] == u;
                assert(stack@[k] == u);
            }
        }
        let nbrs = neighbor_indices(x);
        let mut j: usize = 0;
        while j < nbrs.len()
            invariant
                g@.len() == 361,
                g0.len() == 361,
                seed < 361,
                x < 361,
                g0[seed as int] == Some(color),
                g@[seed as int] is None,
                g0[x as int] == Some(color),
                g@[x as int] is None,
                nbrs@.len() == neighbors_seq(x as int).len(),
                forall|k: int|
                    0 <= k < nbrs@.len() ==> #[trigger] nbrs@[k] < 361 && nbrs@[k] as int
                        == neighbors_seq(x as int)[k],
                j <= nbrs@.len(),
                forall|i: int|
                    0 <= i < 361 ==> #[trigger] g@[i] == g0[i] || (g0[i] == Some(color) && g@[i]
                        is None && connected(g0, color, seed as int, i)),
                forall|k: int|
                    0 <= k < stack@.len() ==> #[trigger] stack@[k] < 361 && g0[stack@[k] as int]
                        == Some(color) && g@[stack@[k] as int] is None,
                forall|i: int, m: int|
                    #![trigger g@[i], adj(i, m)]
                    0 <= i < 361 && g0[i] == Some(color) && g@[i] is None && !stack@.contains(
                        i as usize,
                    ) && i != x as int && adj(i, m) && g0[m] == Some(color) ==> g@[m] is None,
                forall|jj: int|
                    0 <= jj < j ==> (g0[#[trigger] nbrs@[jj] as int] == Some(color) ==> g@[nbrs@[
                        jj
                    ] as int] is None),
                cnt == count_removed(g0, g@),
                1 <= cnt <= 361,
                nstones(g@) <= marks0,
                stack@.len() - stack0 <= marks0 - nstones(g@),
                stack0 <= stack@.len(),
            decreases nbrs@.len() - j,
        {
            let n = nbrs[j];
            proof {
                assert(neighbors_seq(x as int)[j as int] == n as int);
                assert(neighbors_seq(x as int).contains(n as int));
                lemma_neighbors_adj(x as int, n as int);
            }
            let cell = g[n];
            match cell {
                Some(cc) if cc == color => {
                    proof {
                        assert(g@[n as int] == g0[n as int]);
                        assert(connected(g0, color, seed as int, x as int));
                        lemma_connected_step(g0, color, seed as int, x as int, n as int);
                        lemma_count_removed_update(g0, g@, n as int, None);
                        lemma_nstones_remove(g@, n as int);
                        lemma_nstones_bounds(g@);
                        lemma_count_removed_bounds(g0, g@.update(n as int, None));
                    }
                    g.set(n, None);
                    let ghost prev_st = stack@;
                    stack.push(n);
                    cnt = cnt + 1;
                    proof {
                        assert forall|u: usize| #[trigger] prev_st.contains(
                            u,
                        ) implies stack@.contains(u) by {
                            let k = choose|k: int| 0 <= k < prev_st.len() && prev_st[k] == u;
                            assert(stack@[k] == u);
                        }
                        assert(stack@.last() == n);
                        assert(stack@.contains(n));
                    }
                },
                _ => {
                },
            }
            j += 1;
        }
        proof {
            assert forall|i: int, m: int|
                #![trigger g@[i], adj(i, m)]
                0 <= i < 361 && g0[i] == Some(color) && g@[i] is None && !stack@.contains(
                    i as usize,
                ) && adj(i, m) && g0[m] == Some(color) implies g@[m] is None by {
                if i == x as int {
                    lemma_neighbors_adj(x as int, m);
                    assert(neighbors_seq(x as int).contains(m));
                    let k = choose|k: int|
                        0 <= k < neighbors_seq(x as int).len() && neighbors_seq(x as int)[k] == m;
                    assert(nbrs@[k] as int == m);
                }
            }
            lemma_nstones_bounds(g@);
        }
    }
    proof {
        let s = |i: int| 0 <= i < 361 && g0[i] == Some(color) && g@[i] is None;
        assert forall|i: int| 0 <= i < 361 implies g@[i] == (if connected(
            g0,
            color,
            seed as int,
            i,
        ) {
            None::<bool>
        } else {
            g0[i]
        }) by {
            if connected(g0, color, seed as int, i) {
                assert forall|x: int, m: int|
                    #![trigger s(x), adj(x, m)]
                    s(x) && adj(x, m) && g0[m] == Some(color) implies s(m) by {
                    assert(!stack@.contains(x as usize));
                    assert(g@[x] is None);
                }
                assert(s(seed as int));
                lemma_connected_in_closed(g0, color, seed as int, i, s);
                assert(g@[i] is None);
            } else {
                assert(g@[i] == g0[i]);
            }
        }
    }
    cnt
}

} // verus!
