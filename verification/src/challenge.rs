//! The roster of pending challenges between users. A user is a plain
//! numeric identity; the surrounding transport converts its own user
//! type to and from these numbers. A pending challenge stands in both
//! players' lists, each list is duplicate-free, and a challenge can be
//! accepted into a fresh game.

use std::collections::HashMap;

use vstd::prelude::*;

use crate::game::GameInfo;

verus! {

broadcast use vstd::std_specs::hash::group_hash_axioms;

/// `s` holds no entry twice.
pub open spec fn no_dup(s: Seq<u64>) -> bool {
    forall|i: int, j: int| 0 <= i < j < s.len() ==> s[i] != s[j]
}

/// `s` with the entry `x` taken out the way a swap-removal leaves it:
/// the last entry moves into the slot of the first occurrence of `x`.
/// `s` itself when `x` is not there.
pub open spec fn swap_removed(s: Seq<u64>, x: u64) -> Seq<u64> {
    if !s.contains(x) {
        s
    } else {
        let i = choose|i: int|
            0 <= i < s.len() && s[i] == x && (forall|k: int| 0 <= k < i ==> s[k] != x);
        s.update(i, s.last()).drop_last()
    }
}

/// A pushed list holds exactly the old entries and the pushed one.
pub proof fn lemma_push_contains(s: Seq<u64>, x: u64, y: u64)
    ensures
        s.push(x).contains(y) <==> (s.contains(y) || y == x),
{
    if s.push(x).contains(y) {
        let k = choose|k: int| 0 <= k < s.push(x).len() && s.push(x)[k] == y;
        if k < s.len() {
            assert(s[k] == y);
        }
    }
    if s.contains(y) {
        let k = choose|k: int| 0 <= k < s.len() && s[k] == y;
        assert(s.push(x)[k] == y);
    }
    if y == x {
        assert(s.push(x)[s.len() as int] == y);
    }
}

/// On a duplicate-free list, swap-removal removes exactly `x` and keeps
/// the list duplicate-free.
pub proof fn lemma_swap_removed_props(s: Seq<u64>, x: u64)
    requires
        no_dup(s),
    ensures
        no_dup(swap_removed(s, x)),
        forall|y: u64| swap_removed(s, x).contains(y) <==> (s.contains(y) && y != x),
        s.contains(x) ==> swap_removed(s, x).len() == s.len() - 1,
        !s.contains(x) ==> swap_removed(s, x) == s,
{
    if s.contains(x) {
        let j = choose|j: int| 0 <= j < s.len() && s[j] == x;
        assert forall|k: int| 0 <= k < j implies s[k] != x by {}
        let i = choose|i: int|
            0 <= i < s.len() && s[i] == x && (forall|k: int| 0 <= k < i ==> s[k] != x);
        assert(i == j);
        let r = s.update(i, s.last()).drop_last();
        assert(swap_removed(s, x) == r);
        assert forall|y: u64| r.contains(y) implies (s.contains(y) && y != x) by {
            let k = choose|k: int| 0 <= k < r.len() && r[k] == y;
            if k == i {
                assert(s[s.len() - 1] == y);
            } else {
                assert(s[k] == y);
            }
            assert(y != x);
        }
        assert forall|y: u64| s.contains(y) && y != x implies r.contains(y) by {
            let k = choose|k: int| 0 <= k < s.len() && s[k] == y;
            if k == s.len() - 1 {
                assert(i < s.len() - 1);
                assert(r[i] == y);
            } else {
                assert(r[k] == y);
            }
        }
        assert forall|a: int, b: int| 0 <= a < b < r.len() implies r[a] != r[b] by {
            assert(r[a] == if a == i {
                s[s.len() - 1]
            } else {
                s[a]
            });
            assert(r[b] == if b == i {
                s[s.len() - 1]
            } else {
                s[b]
            });
        }
    }
}

/// A list of current challenges per user. An absent user and a user
/// with an empty list are the same state.
pub struct ChallengeList {
    map: HashMap<u64, Vec<u64>>,
}

impl ChallengeList {
    /// The pending challenge entries recorded under `player`.
    pub closed spec fn challenges_of(self, player: u64) -> Seq<u64> {
        if self.map@.contains_key(player) {
            self.map@[player]@
        } else {
            Seq::empty()
        }
    }

    /// Every recorded list is duplicate-free.
    pub open spec fn lists_no_dup(self) -> bool {
        forall|p: u64| no_dup(#[trigger] self.challenges_of(p))
    }

    /// Challenges are pairwise: whoever stands in a player's list holds
    /// that player in their own list.
    pub open spec fn symmetric(self) -> bool {
        forall|p: u64, q: u64|
            #![trigger self.challenges_of(p).contains(q)]
            self.challenges_of(p).contains(q) <==> self.challenges_of(q).contains(p)
    }

    /// A well-formed roster: duplicate-free lists, pairwise challenges.
    pub open spec fn wf(self) -> bool {
        self.lists_no_dup() && self.symmetric()
    }

    /// An empty roster.
    pub fn new() -> (r: ChallengeList)
        ensures
            r.wf(),
            forall|p: u64| #[trigger] r.challenges_of(p) == Seq::<u64>::empty(),
    {
        let r = ChallengeList { map: HashMap::new() };
        proof {
            assert forall|p: u64, q: u64|
                #![trigger r.challenges_of(p).contains(q)]
                r.challenges_of(p).contains(q) <==> r.challenges_of(q).contains(p) by {
                assert(!r.challenges_of(p).contains(q));
                assert(!r.challenges_of(q).contains(p));
            }
        }
        r
    }

    /// The current challenges of `player`.
    pub fn list(&self, player: u64) -> (r: Vec<u64>)
        ensures
            r@ == self.challenges_of(player),
    {
        match self.map.get(&player) {
            Some(v) => copy_ids(v),
            None => Vec::new(),
        }
    }

    /// Records `other` under `player`'s challenges if it is not there
    /// yet; reports whether it was added.
    fn insert_single_challenge(&mut self, player: u64, other: u64) -> (r: bool)
        requires
            old(self).lists_no_dup(),
        ensures
            final(self).lists_no_dup(),
            r == !old(self).challenges_of(player).contains(other),
            r ==> final(self).challenges_of(player) == old(self).challenges_of(player).push(
                other,
            ),
            !r ==> final(self).challenges_of(player) == old(self).challenges_of(player),
            forall|p: u64|
                p != player ==> #[trigger] final(self).challenges_of(p) == old(self).challenges_of(p),
    {
        let mut cur: Vec<u64> = match self.map.get(&player) {
            Some(v) => copy_ids(v),
            None => Vec::new(),
        };
        if has_id(&cur, other) {
            false
        } else {
            cur.push(other);
            self.map.insert(player, cur);
            proof {
                assert forall|p: u64| no_dup(#[trigger] self.challenges_of(p)) by {
                    if p != player {
                        assert(self.challenges_of(p) == old(self).challenges_of(p));
                        assert(no_dup(old(self).challenges_of(p)));
                    } else {
                        let s0 = old(self).challenges_of(player);
                        assert(no_dup(s0));
                        assert(!s0.contains(other));
                        assert forall|i: int, j: int|
                            0 <= i < j < s0.push(other).len() implies s0.push(other)[i] != s0.push(
                            other,
                        )[j] by {
                            if j < s0.len() {
                                assert(s0[i] != s0[j]);
                            } else {
                                assert(s0.push(other)[j] == other);
                                assert(s0[i] != other);
                            }
                        }
                    }
                }
            }
            true
        }
    }

    /// Records the challenge between the two players, in both their
    /// lists: each list gains the other player when it was absent.
    /// Reports whether the challenge was new.
    pub fn insert(&mut self, challenger: u64, challengee: u64) -> (r: bool)
        requires
            old(self).wf(),
        ensures
            final(self).wf(),
            r == !old(self).challenges_of(challenger).contains(challengee),
            r && challenger != challengee ==> final(self).challenges_of(challenger) == old(self).challenges_of(challenger).push(challengee) && final(self).challenges_of(challengee)
                == old(self).challenges_of(challengee).push(challenger),
            r && challenger == challengee ==> final(self).challenges_of(challenger) == old(self).challenges_of(challenger).push(challengee),
            !r ==> forall|p: u64|
                #[trigger] final(self).challenges_of(p) == old(self).challenges_of(p),
            forall|p: u64|
                p != challenger && p != challengee ==> #[trigger] final(self).challenges_of(p)
                    == old(self).challenges_of(p),
    {
        let ghost a = challenger;
        let ghost b = challengee;
        proof {
            assert(old(self).challenges_of(a).contains(b) <==> old(self).challenges_of(
                b,
            ).contains(a));
        }
        let first = self.insert_single_challenge(challenger, challengee);
        let ghost m1 = *self;
        let second = self.insert_single_challenge(challengee, challenger);
        proof {
            if a == b && first {
                lemma_push_contains(old(self).challenges_of(a), b, a);
                assert(m1.challenges_of(b).contains(a));
                assert(!second);
            }
            if first {
                assert forall|p: u64, q: u64|
                    #![trigger self.challenges_of(p).contains(q)]
                    self.challenges_of(p).contains(q) <==> self.challenges_of(q).contains(p) by {
                    lemma_push_contains(old(self).challenges_of(a), b, q);
                    lemma_push_contains(old(self).challenges_of(b), a, q);
                    lemma_push_contains(old(self).challenges_of(a), b, p);
                    lemma_push_contains(old(self).challenges_of(b), a, p);
                    assert(old(self).challenges_of(p).contains(q) <==> old(self).challenges_of(
                        q,
                    ).contains(p));
                    assert(old(self).challenges_of(p).contains(a) <==> old(self).challenges_of(
                        a,
                    ).contains(p));
                    assert(old(self).challenges_of(p).contains(b) <==> old(self).challenges_of(
                        b,
                    ).contains(p));
                    assert(old(self).challenges_of(q).contains(a) <==> old(self).challenges_of(
                        a,
                    ).contains(q));
                    assert(old(self).challenges_of(q).contains(b) <==> old(self).challenges_of(
                        b,
                    ).contains(q));
                }
            } else {
                assert forall|p: u64, q: u64|
                    #![trigger self.challenges_of(p).contains(q)]
                    self.challenges_of(p).contains(q) <==> self.challenges_of(q).contains(p) by {
                    assert(self.challenges_of(p) == old(self).challenges_of(p));
                    assert(self.challenges_of(q) == old(self).challenges_of(q));
                    assert(old(self).challenges_of(p).contains(q) <==> old(self).challenges_of(
                        q,
                    ).contains(p));
                }
            }
        }
        first || second
    }

    /// Takes `challenger` out of `player_list`'s challenges, if there.
    fn remove_from_list(&mut self, player_list: u64, challenger: u64)
        requires
            old(self).lists_no_dup(),
        ensures
            final(self).lists_no_dup(),
            final(self).challenges_of(player_list) == swap_removed(
                old(self).challenges_of(player_list),
                challenger,
            ),
            forall|p: u64|
                p != player_list ==> #[trigger] final(self).challenges_of(p) == old(self).challenges_of(p),
    {
        let cur: Option<Vec<u64>> = match self.map.get(&player_list) {
            Some(v) => Some(copy_ids(v)),
            None => None,
        };
        match cur {
            None => {
                proof {
                    lemma_swap_removed_props(self.challenges_of(player_list), challenger);
                }
            },
            Some(mut v) => {
                proof {
                    assert(v@ == old(self).challenges_of(player_list));
                }
                remove_id(&mut v, challenger);
                proof {
                    lemma_swap_removed_props(old(self).challenges_of(player_list), challenger);
                }
                self.map.insert(player_list, v);
                proof {
                    assert forall|p: u64| no_dup(#[trigger] self.challenges_of(p)) by {
                        if p != player_list {
                            assert(self.challenges_of(p) == old(self).challenges_of(p));
                            assert(no_dup(old(self).challenges_of(p)));
                        } else {
                            assert(self.challenges_of(player_list) == swap_removed(
                                old(self).challenges_of(player_list),
                                challenger,
                            ));
                        }
                    }
                }
            },
        }
    }

    /// Removes the challenge between the two players from both lists.
    pub fn remove_challenge(&mut self, player: u64, other: u64)
        requires
            old(self).wf(),
        ensures
            final(self).wf(),
            final(self).challenges_of(player) == swap_removed(
                old(self).challenges_of(player),
                other,
            ),
            player != other ==> final(self).challenges_of(other) == swap_removed(
                old(self).challenges_of(other),
                player,
            ),
            forall|p: u64|
                p != player && p != other ==> #[trigger] final(self).challenges_of(p) == old(self).challenges_of(p),
    {
        self.remove_from_list(player, other);
        let ghost m1 = *self;
        self.remove_from_list(other, player);
        proof {
            lemma_swap_removed_props(old(self).challenges_of(player), other);
            lemma_swap_removed_props(old(self).challenges_of(other), player);
            if player == other {
                assert(!m1.challenges_of(player).contains(other));
                assert(swap_removed(m1.challenges_of(player), other) == m1.challenges_of(
                    player,
                ));
            }
            lemma_swap_removed_props(swap_removed(old(self).challenges_of(player), other), other);
            assert forall|x: u64, y: u64|
                #![trigger self.challenges_of(x).contains(y)]
                self.challenges_of(x).contains(y) <==> self.challenges_of(y).contains(x) by {
                assert(old(self).challenges_of(x).contains(y) <==> old(self).challenges_of(
                    y,
                ).contains(x));
                assert(old(self).challenges_of(x).contains(player) <==> old(self).challenges_of(
                    player,
                ).contains(x));
                assert(old(self).challenges_of(x).contains(other) <==> old(self).challenges_of(
                    other,
                ).contains(x));
                assert(old(self).challenges_of(y).contains(player) <==> old(self).challenges_of(
                    player,
                ).contains(y));
                assert(old(self).challenges_of(y).contains(other) <==> old(self).challenges_of(
                    other,
                ).contains(y));
            }
        }
    }

    /// Removes every challenge concerning `player`: their own list is
    /// emptied, and no other user's list keeps them.
    pub fn remove_all(&mut self, player: u64)
        requires
            old(self).wf(),
        ensures
            final(self).wf(),
            final(self).challenges_of(player).len() == 0,
            forall|q: u64| !(#[trigger] final(self).challenges_of(q)).contains(player),
            forall|q: u64|
                q != player ==> #[trigger] final(self).challenges_of(q) == (if old(self).challenges_of(player).contains(q) {
                    swap_removed(old(self).challenges_of(q), player)
                } else {
                    old(self).challenges_of(q)
                }),
    {
        let ghost before = *self;
        let others: Vec<u64> = match self.map.remove(&player) {
            Some(v) => v,
            None => Vec::new(),
        };
        proof {
            assert(others@ == before.challenges_of(player));
            assert(self.challenges_of(player) == Seq::<u64>::empty());
            assert forall|p: u64|
                p != player implies #[trigger] self.challenges_of(p) == before.challenges_of(
                p,
            ) by {}
        }
        let mut k: usize = 0;
        while k < others.len()
            invariant
                k <= others@.len(),
                self.lists_no_dup(),
                no_dup(others@),
                others@ == before.challenges_of(player),
                self.challenges_of(player).len() == 0,
                forall|q: u64|
                    q != player ==> #[trigger] self.challenges_of(q) == (if others@.subrange(
                        0,
                        k as int,
                    ).contains(q) {
                        swap_removed(before.challenges_of(q), player)
                    } else {
                        before.challenges_of(q)
                    }),
            decreases others@.len() - k,
        {
            let other = others[k];
            let ghost pre = others@.subrange(0, k as int);
            let ghost post = others@.subrange(0, k as int + 1);
            proof {
                assert(post =~= pre.push(others@[k as int]));
            }
            if other != player {
                let ghost mid = *self;
                proof {
                    if pre.contains(other) {
                        let w = choose|w: int| 0 <= w < pre.len() && pre[w] == other;
                        assert(others@[w] == others@[k as int]);
                        assert(false);
                    }
                    assert(mid.challenges_of(other) == before.challenges_of(other));
                }
                self.remove_from_list(other, player);
                proof {
                    assert forall|q: u64| q != player implies #[trigger] self.challenges_of(q) == (
                    if post.contains(q) {
                        swap_removed(before.challenges_of(q), player)
                    } else {
                        before.challenges_of(q)
                    }) by {
                        if q == other {
                            assert(post[k as int] == q);
                            assert(post.contains(q));
                            assert(self.challenges_of(q) == swap_removed(
                                before.challenges_of(q),
                                player,
                            ));
                        } else {
                            assert(self.challenges_of(q) == mid.challenges_of(q));
                            if pre.contains(q) {
                                let w = choose|w: int| 0 <= w < pre.len() && pre[w] == q;
                                assert(post[w] == q);
                                assert(post.contains(q));
                            } else {
                                if post.contains(q) {
                                    let w = choose|w: int| 0 <= w < post.len() && post[w] == q;
                                    if w < k as int {
                                        assert(pre[w] == q);
                                    }
                                    assert(false);
                                }
                            }
                        }
                    }
                    assert(self.challenges_of(player).len() == 0);
                }
            } else {
                proof {
                    assert forall|q: u64|
                        q != player implies (post.contains(q) <==> pre.contains(q)) by {
                        if pre.contains(q) {
                            let w = choose|w: int| 0 <= w < pre.len() && pre[w] == q;
                            assert(post[w] == q);
                        }
                        if post.contains(q) {
                            let w = choose|w: int| 0 <= w < post.len() && post[w] == q;
                            if w < k as int {
                                assert(pre[w] == q);
                            } else {
                                assert(post[w] == player);
                            }
                        }
                    }
                }
            }
            k += 1;
        }
        proof {
            assert(others@.subrange(0, others@.len() as int) =~= others@);
            assert forall|q: u64| !(#[trigger] self.challenges_of(q)).contains(player) by {
                if q == player {
                    if self.challenges_of(q).contains(player) {
                        let w = choose|w: int|
                            0 <= w < self.challenges_of(q).len() && self.challenges_of(q)[w]
                                == player;
                    }
                } else {
                    lemma_swap_removed_props(before.challenges_of(q), player);
                    assert(before.challenges_of(q).contains(player) <==> before.challenges_of(
                        player,
                    ).contains(q));
                }
            }
            assert forall|x: u64, y: u64|
                #![trigger self.challenges_of(x).contains(y)]
                self.challenges_of(x).contains(y) <==> self.challenges_of(y).contains(x) by {
                if x != player && y != player {
                    lemma_swap_removed_props(before.challenges_of(x), player);
                    lemma_swap_removed_props(before.challenges_of(y), player);
                    assert(before.challenges_of(x).contains(y) <==> before.challenges_of(
                        y,
                    ).contains(x));
                }
            }
        }
    }

    /// Accepts the pending challenge of `other` recorded under
    /// `player`, if there is one: the challenge leaves both players'
    /// lists and a fresh game between the two begins.
    pub fn accept_challenge_to_game(&mut self, player: u64, other: u64) -> (r: Option<GameInfo>)
        requires
            old(self).wf(),
        ensures
            final(self).wf(),
            old(self).challenges_of(player).contains(other) ==> match r {
                Some(gi) => gi.wf() && gi.player_spec(0) == player && gi.player_spec(1) == other
                    && gi.board_spec()@.to_move == crate::board::BLACK && gi.board_spec()@.ko
                    is None && gi.board_spec()@.grid =~= Seq::new(361, |i: int| None::<bool>),
                None => false,
            },
            old(self).challenges_of(player).contains(other) ==> final(self).challenges_of(player)
                == swap_removed(old(self).challenges_of(player), other) && (player != other ==> final(self).challenges_of(other) == swap_removed(old(self).challenges_of(other), player)) && (
            forall|p: u64|
                p != player && p != other ==> #[trigger] final(self).challenges_of(p) == old(self).challenges_of(p)),
            !old(self).challenges_of(player).contains(other) ==> r is None && (forall|p: u64|
                #[trigger] final(self).challenges_of(p) == old(self).challenges_of(p)),
    {
        let mine = self.list(player);
        if has_id(&mine, other) {
            let game_info = GameInfo::from_challenge(player, other);
            self.remove_challenge(player, other);
            Some(game_info)
        } else {
            None
        }
    }
}

/// A copy of a list of identities.
pub(crate) fn copy_ids(v: &Vec<u64>) -> (r: Vec<u64>)
    ensures
        r@ == v@,
{
    let mut r: Vec<u64> = Vec::new();
    let mut i: usize = 0;
    while i < v.len()
        invariant
            i <= v@.len(),
            r@.len() == i,
            forall|k: int| 0 <= k < i ==> r@[k] == v@[k],
        decreases v@.len() - i,
    {
        r.push(v[i]);
        i += 1;
    }
    proof {
        assert(r@ =~= v@);
    }
    r
}

/// Whether `x` occurs in `v`.
fn has_id(v: &Vec<u64>, x: u64) -> (r: bool)
    ensures
        r == v@.contains(x),
{
    let mut i: usize = 0;
    while i < v.len()
        invariant
            i <= v@.len(),
            forall|k: int| 0 <= k < i ==> v@[k] != x,
        decreases v@.len() - i,
    {
        if v[i] == x {
            return true;
        }
        i += 1;
    }
    false
}

/// Swap-removes the first occurrence of `x` in `v`, if there is one.
pub(crate) fn remove_id(v: &mut Vec<u64>, x: u64)
    ensures
        final(v)@ == swap_removed(old(v)@, x),
{
    let n = v.len();
    let mut j: usize = 0;
    while j < n
        invariant
            n == v@.len(),
            j <= n,
            v@ == old(v)@,
            forall|k: int| 0 <= k < j ==> v@[k] != x,
        decreases n - j,
    {
        if v[j] == x {
            proof {
                assert(v@[j as int] == x);
                assert(v@.contains(x));
                let i = choose|i: int|
                    0 <= i < v@.len() && v@[i] == x && (forall|k: int| 0 <= k < i ==> v@[k] != x);
                if i < j as int {
                    assert(v@[i] != x);
                } else if (j as int) < i {
                    assert(v@[j as int] != x);
                }
                assert(i == j as int);
            }
            v.swap_remove(j);
            return ;
        }
        j += 1;
    }
    proof {
        assert(!old(v)@.contains(x));
    }
}

} // verus!
