//! The games in progress: the state of one game between two users, and
//! the registry mapping a channel to its single game and each player to
//! the channels they play in. Users, channels and messages are plain
//! numeric identities; the surrounding transport converts its own
//! types to and from these numbers.

use std::collections::HashMap;

use vstd::prelude::*;

use crate::board::Board;
use crate::board::BLACK;
use crate::challenge::swap_removed;

verus! {

broadcast use vstd::std_specs::hash::group_hash_axioms;

/// The state of one game: the board, and the two players.
pub struct GameInfo {
    pub board: Board,
    players: [u64; 2],
}

impl GameInfo {
    /// One of the two players, by position.
    pub closed spec fn player_spec(self, k: int) -> u64 {
        self.players@[k]
    }

    /// The board of this game, for specifications.
    pub closed spec fn board_spec(self) -> Board {
        self.board
    }

    /// The board is well formed.
    pub open spec fn wf(self) -> bool {
        self.board_spec().wf()
    }

    /// A fresh game between the two players of an accepted challenge.
    pub fn from_challenge(player: u64, other: u64) -> (r: GameInfo)
        ensures
            r.wf(),
            r.player_spec(0) == player,
            r.player_spec(1) == other,
            r.board_spec()@.to_move == BLACK,
            r.board_spec()@.ko is None,
            r.board_spec()@.grid =~= Seq::new(361, |i: int| None::<bool>),
    {
        let r = GameInfo { board: Board::new(), players: [player, other] };
        proof {
            assert(r.players@[0] == player && r.players@[1] == other);
        }
        r
    }

    /// The first listed player.
    pub fn player_first(&self) -> (r: u64)
        ensures
            r == self.player_spec(0),
    {
        self.players[0]
    }

    /// The second listed player.
    pub fn player_second(&self) -> (r: u64)
        ensures
            r == self.player_spec(1),
    {
        self.players[1]
    }

    /// Whether `player` plays in this game.
    pub fn is_player(&self, player: u64) -> (r: bool)
        ensures
            r == (self.player_spec(0) == player || self.player_spec(1) == player),
    {
        self.players[0] == player || self.players[1] == player
    }

    /// Whether it is `player`'s turn: the second listed player moves
    /// while Black is to move.
    pub fn is_to_move(&self, player: u64) -> (r: bool)
        ensures
            r == (self.player_spec(
                if self.board_spec()@.to_move {
                    1int
                } else {
                    0int
                },
            ) == player),
    {
        let idx: usize = if self.board.to_move() {
            1
        } else {
            0
        };
        self.players[idx] == player
    }
}

/// One game in its channel, with the message that displays it.
pub struct Game {
    game_info: GameInfo,
    channel: u64,
    message: u64,
}

impl Game {
    /// The state of the game.
    pub closed spec fn info_spec(self) -> GameInfo {
        self.game_info
    }

    /// The channel the game is played in.
    pub closed spec fn channel_spec(self) -> u64 {
        self.channel
    }

    /// The message that displays the game.
    pub closed spec fn message_spec(self) -> u64 {
        self.message
    }

    /// A fresh entry for a game in a channel, with no display message
    /// yet.
    fn new(game_info: GameInfo, channel: u64) -> (r: Game)
        ensures
            r.info_spec() == game_info,
            r.channel_spec() == channel,
            r.message_spec() == 0,
    {
        Game { game_info, channel, message: 0 }
    }
}

/// The registry of current games: one game per channel, and for each
/// player the channels they play in.
pub struct GameList {
    games: HashMap<u64, Game>,
    players: HashMap<u64, Vec<u64>>,
}

impl GameList {
    /// The game played in `channel`, if any.
    pub closed spec fn game_at(self, channel: u64) -> Option<Game> {
        if self.games@.contains_key(channel) {
            Some(self.games@[channel])
        } else {
            None
        }
    }

    /// The channels `player` currently plays in.
    pub closed spec fn channels_of(self, player: u64) -> Seq<u64> {
        if self.players@.contains_key(player) {
            self.players@[player]@
        } else {
            Seq::empty()
        }
    }

    /// The game of `ch`, if any, has a well-formed board.
    pub open spec fn game_wf_at(self, ch: u64) -> bool {
        match self.game_at(ch) {
            Some(g) => g.info_spec().wf(),
            None => true,
        }
    }

    /// Every stored game has a well-formed board.
    pub open spec fn wf(self) -> bool {
        forall|ch: u64| #[trigger] self.game_wf_at(ch)
    }

    /// An empty registry.
    pub fn new() -> (r: GameList)
        ensures
            r.wf(),
            forall|ch: u64| #[trigger] r.game_at(ch) is None,
            forall|p: u64| #[trigger] r.channels_of(p) == Seq::<u64>::empty(),
    {
        GameList { games: HashMap::new(), players: HashMap::new() }
    }

    /// Whether no game is running in `channel`.
    pub fn is_channel_available(&self, channel: u64) -> (r: bool)
        ensures
            r == (self.game_at(channel) is None),
    {
        !self.games.contains_key(&channel)
    }

    /// Records `channel` among `player`'s channels.
    fn push_player_channel(&mut self, player: u64, channel: u64)
        ensures
            final(self).channels_of(player) == old(self).channels_of(player).push(channel),
            forall|p: u64|
                p != player ==> #[trigger] final(self).channels_of(p) == old(self).channels_of(
                    p,
                ),
            final(self).games@ == old(self).games@,
    {
        let mut cur: Vec<u64> = match self.players.get(&player) {
            Some(v) => crate::challenge::copy_ids(v),
            None => Vec::new(),
        };
        cur.push(channel);
        self.players.insert(player, cur);
    }

    /// Starts a game in `channel` unless one is already running there;
    /// reports whether it started.
    pub fn try_start_game(&mut self, game_info: GameInfo, channel: u64) -> (r: bool)
        requires
            old(self).wf(),
            game_info.wf(),
        ensures
            final(self).wf(),
            r == (old(self).game_at(channel) is None),
            r ==> (final(self).game_at(channel) matches Some(g) ==> g.info_spec() == game_info
                && g.channel_spec() == channel && g.message_spec() == 0) && final(self).game_at(
                channel,
            ) is Some,
            !r ==> final(self).game_at(channel) == old(self).game_at(channel) && (forall|p: u64|
                #[trigger] final(self).channels_of(p) == old(self).channels_of(p)),
            r && game_info.player_spec(0) != game_info.player_spec(1) ==> final(self).channels_of(
                game_info.player_spec(0),
            ) == old(self).channels_of(game_info.player_spec(0)).push(channel) && final(self).channels_of(game_info.player_spec(1)) == old(self).channels_of(
                game_info.player_spec(1),
            ).push(channel),
            r && game_info.player_spec(0) == game_info.player_spec(1) ==> final(self).channels_of(
                game_info.player_spec(0),
            ) == old(self).channels_of(game_info.player_spec(0)).push(channel).push(channel),
            forall|p: u64|
                p != game_info.player_spec(0) && p != game_info.player_spec(1)
                    ==> #[trigger] final(self).channels_of(p) == old(self).channels_of(p),
            forall|ch: u64|
                ch != channel ==> #[trigger] final(self).game_at(ch) == old(self).game_at(ch),
    {
        if !self.games.contains_key(&channel) {
            let p0 = game_info.player_first();
            let p1 = game_info.player_second();
            self.push_player_channel(p0, channel);
            let ghost m1 = *self;
            self.push_player_channel(p1, channel);
            let ghost m2 = *self;
            self.games.insert(channel, Game::new(game_info, channel));
            proof {
                assert forall|p: u64| #[trigger] self.channels_of(p) == m2.channels_of(p) by {}
                if p0 != p1 {
                    assert(m2.channels_of(p0) == m1.channels_of(p0));
                    assert(m1.channels_of(p0) == old(self).channels_of(p0).push(channel));
                    assert(m2.channels_of(p1) == m1.channels_of(p1).push(channel));
                    assert(m1.channels_of(p1) == old(self).channels_of(p1));
                } else {
                    assert(m2.channels_of(p0) == m1.channels_of(p0).push(channel));
                    assert(m1.channels_of(p0) == old(self).channels_of(p0).push(channel));
                }
                assert forall|p: u64|
                    p != p0 && p != p1 implies #[trigger] self.channels_of(p) == old(
                    self,
                ).channels_of(p) by {
                    assert(m2.channels_of(p) == m1.channels_of(p));
                    assert(m1.channels_of(p) == old(self).channels_of(p));
                }
                assert forall|ch: u64| #[trigger] self.game_wf_at(ch) by {
                    if ch != channel {
                        assert(self.game_at(ch) == old(self).game_at(ch));
                        assert(old(self).game_wf_at(ch));
                    }
                }
            }
            true
        } else {
            false
        }
    }

    /// Records `message` as the display message of the game in
    /// `channel`, if one is running there.
    pub fn set_game_message(&mut self, channel: u64, message: u64)
        requires
            old(self).wf(),
        ensures
            final(self).wf(),
            old(self).game_at(channel) matches Some(g) ==> (final(self).game_at(channel)
                matches Some(h) && h.info_spec() == g.info_spec() && h.channel_spec()
                == g.channel_spec() && h.message_spec() == message),
            old(self).game_at(channel) is None ==> final(self).game_at(channel) is None,
            forall|ch: u64|
                ch != channel ==> #[trigger] final(self).game_at(ch) == old(self).game_at(ch),
            forall|p: u64|
                #[trigger] final(self).channels_of(p) == old(self).channels_of(p),
    {
        match self.games.remove(&channel) {
            Some(game) => {
                let updated = Game { game_info: game.game_info, channel: game.channel, message };
                proof {
                    assert(old(self).game_wf_at(channel));
                }
                self.games.insert(channel, updated);
                proof {
                    assert forall|ch: u64| #[trigger] self.game_wf_at(ch) by {
                        if ch != channel {
                            assert(self.game_at(ch) == old(self).game_at(ch));
                            assert(old(self).game_wf_at(ch));
                        }
                    }
                }
            },
            None => {
                proof {
                    assert forall|ch: u64| #[trigger] self.game_wf_at(ch) by {
                        if ch != channel {
                            assert(self.game_at(ch) == old(self).game_at(ch));
                            assert(old(self).game_wf_at(ch));
                        }
                    }
                }
            },
        }
    }

    /// Takes `channel` out of `player`'s channel list, once.
    fn remove_channel_from_player(&mut self, channel: u64, player: u64)
        ensures
            final(self).channels_of(player) == swap_removed(
                old(self).channels_of(player),
                channel,
            ),
            forall|p: u64|
                p != player ==> #[trigger] final(self).channels_of(p) == old(self).channels_of(
                    p,
                ),
            final(self).games@ == old(self).games@,
    {
        let cur: Option<Vec<u64>> = match self.players.get(&player) {
            Some(v) => Some(crate::challenge::copy_ids(v)),
            None => None,
        };
        match cur {
            None => {
            },
            Some(mut v) => {
                crate::challenge::remove_id(&mut v, channel);
                self.players.insert(player, v);
            },
        }
    }

    /// Ends the game of `channel`: the game leaves the registry and the
    /// channel leaves both players' channel lists.
    pub fn end_game(&mut self, channel: u64)
        requires
            old(self).wf(),
        ensures
            final(self).wf(),
            final(self).game_at(channel) is None,
            forall|ch: u64|
                ch != channel ==> #[trigger] final(self).game_at(ch) == old(self).game_at(ch),
            old(self).game_at(channel) matches Some(g) ==> (g.info_spec().player_spec(0)
                != g.info_spec().player_spec(1) ==> final(self).channels_of(
                g.info_spec().player_spec(0),
            ) == swap_removed(old(self).channels_of(g.info_spec().player_spec(0)), channel)
                && final(self).channels_of(g.info_spec().player_spec(1)) == swap_removed(
                old(self).channels_of(g.info_spec().player_spec(1)),
                channel,
            )),
            old(self).game_at(channel) matches Some(g) ==> (g.info_spec().player_spec(0)
                == g.info_spec().player_spec(1) ==> final(self).channels_of(
                g.info_spec().player_spec(0),
            ) == swap_removed(
                swap_removed(old(self).channels_of(g.info_spec().player_spec(0)), channel),
                channel,
            )),
            old(self).game_at(channel) matches Some(g) ==> (forall|p: u64|
                p != g.info_spec().player_spec(0) && p != g.info_spec().player_spec(1)
                    ==> #[trigger] final(self).channels_of(p) == old(self).channels_of(p)),
            old(self).game_at(channel) is None ==> (forall|p: u64|
                #[trigger] final(self).channels_of(p) == old(self).channels_of(p)),
    {
        let ghost v0 = *old(self);
        match self.games.remove(&channel) {
            Some(game) => {
                let ghost mr = *self;
                proof {
                    assert(v0.game_at(channel) == Some(game));
                    assert forall|p: u64|
                        #[trigger] mr.channels_of(p) == v0.channels_of(p) by {}
                }
                let p0 = game.game_info.player_first();
                let p1 = game.game_info.player_second();
                self.remove_channel_from_player(channel, p0);
                let ghost ma = *self;
                self.remove_channel_from_player(channel, p1);
                proof {
                    if p0 != p1 {
                        assert(self.channels_of(p0) == ma.channels_of(p0));
                        assert(ma.channels_of(p0) == swap_removed(
                            v0.channels_of(p0),
                            channel,
                        ));
                        assert(self.channels_of(p1) == swap_removed(
                            ma.channels_of(p1),
                            channel,
                        ));
                        assert(ma.channels_of(p1) == v0.channels_of(p1));
                    } else {
                        assert(ma.channels_of(p0) == swap_removed(
                            v0.channels_of(p0),
                            channel,
                        ));
                        assert(self.channels_of(p0) == swap_removed(
                            ma.channels_of(p0),
                            channel,
                        ));
                    }
                    assert forall|p: u64|
                        p != p0 && p != p1 implies #[trigger] self.channels_of(p)
                        == v0.channels_of(p) by {
                        assert(self.channels_of(p) == ma.channels_of(p));
                        assert(ma.channels_of(p) == mr.channels_of(p));
                    }
                    assert forall|ch: u64| #[trigger] self.game_wf_at(ch) by {
                        if ch != channel {
                            assert(self.game_at(ch) == old(self).game_at(ch));
                            assert(old(self).game_wf_at(ch));
                        }
                    }
                }
            },
            None => {
                proof {
                    assert forall|ch: u64| #[trigger] self.game_wf_at(ch) by {
                        if ch != channel {
                            assert(self.game_at(ch) == old(self).game_at(ch));
                            assert(old(self).game_wf_at(ch));
                        }
                    }
                }
            },
        }
    }

    /// Whether `player` plays the game of `channel`.
    pub fn is_game_played_in_channel_by(&self, player: u64, channel: u64) -> (r: bool)
        ensures
            r == (self.game_at(channel) matches Some(g) && (g.info_spec().player_spec(0) == player
                || g.info_spec().player_spec(1) == player)),
    {
        match self.games.get(&channel) {
            Some(game) => game.game_info.is_player(player),
            None => false,
        }
    }

    /// Hands the game of `channel` out for one step, together with its
    /// display-message id, if `player` plays it: the caller changes the
    /// state and puts both back.
    pub fn take_game(&mut self, player: u64, channel: u64) -> (r: Option<(GameInfo, u64)>)
        requires
            old(self).wf(),
        ensures
            final(self).wf(),
            match r {
                Some(taken) => old(self).game_at(channel) matches Some(g) && g.info_spec()
                    == taken.0 && taken.1 == g.message_spec() && taken.0.wf() && (
                taken.0.player_spec(0) == player || taken.0.player_spec(1) == player) && final(self).game_at(channel) is None,
                None => final(self).game_at(channel) == old(self).game_at(channel) && !(old(self).game_at(channel) matches Some(g) && (g.info_spec().player_spec(0) == player
                    || g.info_spec().player_spec(1) == player)),
            },
            forall|ch: u64|
                ch != channel ==> #[trigger] final(self).game_at(ch) == old(self).game_at(ch),
            forall|p: u64|
                #[trigger] final(self).channels_of(p) == old(self).channels_of(p),
    {
        let plays = self.is_game_played_in_channel_by(player, channel);
        if !plays {
            return None;
        }
        let taken = self.games.remove(&channel);
        proof {
            assert(old(self).game_wf_at(channel));
            assert forall|ch: u64| #[trigger] self.game_wf_at(ch) by {
                if ch != channel {
                    assert(self.game_at(ch) == old(self).game_at(ch));
                    assert(old(self).game_wf_at(ch));
                }
            }
        }
        match taken {
            Some(game) => Some((game.game_info, game.message)),
            None => None,
        }
    }

    /// Puts a game taken with `take_game` back into its channel, with
    /// the display-message id it was taken with.
    pub fn put_game_back(&mut self, game_info: GameInfo, channel: u64, message: u64)
        requires
            old(self).wf(),
            game_info.wf(),
            old(self).game_at(channel) is None,
        ensures
            final(self).wf(),
            final(self).game_at(channel) matches Some(g) && g.info_spec() == game_info
                && g.channel_spec() == channel && g.message_spec() == message,
            forall|ch: u64|
                ch != channel ==> #[trigger] final(self).game_at(ch) == old(self).game_at(ch),
            forall|p: u64|
                #[trigger] final(self).channels_of(p) == old(self).channels_of(p),
    {
        self.games.insert(channel, Game { game_info, channel, message });
        proof {
            assert forall|ch: u64| #[trigger] self.game_wf_at(ch) by {
                if ch != channel {
                    assert(self.game_at(ch) == old(self).game_at(ch));
                    assert(old(self).game_wf_at(ch));
                }
            }
        }
    }
}

} // verus!
