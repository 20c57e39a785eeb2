//! Rules engine for a tile-placement, corporate-merger economic board game
//! for 2 to 6 players: board connectivity, merger resolution, the turn-phase
//! state machine and the share economy.
//!
//! Money and share pools are bookkept exactly: every action either fully
//! commits or fails without touching the state, and per corporation the
//! shares held by players and the remaining pool always sum to the
//! starting pool. Payouts to players use saturating addition at the
//! (unreachable in practice) top of the machine range.
use vstd::prelude::*;

use rand::seq::SliceRandom;
use rand::RngCore;

pub mod board;
pub mod corp;
pub mod parser;

use crate::board::{
    adj_corp, count_val, exactly_one_adj_corp, has_unincorp_neighbour, in_grid, is_max_adj,
    is_strict_sub, loc_index, multi_adj_corp, no_adj_corp, two_safe_adjacent, Board, Loc, Tile,
    SIZE,
};
use crate::corp::{Corp, GAME_END_SIZE, NUM_CORPS};

verus! {

/// Fewest players a game can be created with.
pub const MIN_PLAYERS: usize = 2;

/// Most players a game can be created with.
pub const MAX_PLAYERS: usize = 6;

/// Money each player starts with.
pub const STARTING_MONEY: usize = 6000;

/// Shares in each corporation's pool at the start of the game.
pub const STARTING_SHARES: usize = 25;

/// Number of unplayed tiles a player's hand is refilled to.
pub const TILE_HAND_SIZE: usize = 6;

/// The authoritative record of what may happen next: whose turn it is and
/// which sub-phase of that turn is in progress.
#[derive(Copy, Clone, Debug, PartialEq, Eq, Structural)]
pub enum Phase {
    /// The player is to place a tile.
    Play(usize),
    /// The player placed at `at` next to an unincorporated group and must
    /// found an available corporation there.
    Found { player: usize, at: Loc },
    /// The player may buy up to `remaining` more shares or end the turn.
    Buy { player: usize, remaining: usize },
    /// The player placed at `at` touching two or more corporations and must
    /// choose which merges into which.
    ChooseMerger { player: usize, at: Loc },
    /// `player` must sell, trade or keep their shares of the dissolved
    /// `corp`; `turn_player` placed the merging tile at `at` and resumes
    /// the turn once every shareholder has acted.
    SellOrTrade { player: usize, corp: Corp, at: Loc, turn_player: usize },
}

impl Phase {
    /// The player this phase waits on.
    pub open spec fn whose_turn_spec(self) -> usize {
        match self {
            Phase::Play(player) => player,
            Phase::Found { player, .. } => player,
            Phase::Buy { player, .. } => player,
            Phase::ChooseMerger { player, .. } => player,
            Phase::SellOrTrade { player, .. } => player,
        }
    }

    /// The player this phase waits on; derivable from the phase alone.
    pub fn whose_turn(&self) -> (r: usize)
        ensures
            r == self.whose_turn_spec(),
    {
        match *self {
            Phase::Play(player) => player,
            Phase::Found { player, .. } => player,
            Phase::Buy { player, .. } => player,
            Phase::ChooseMerger { player, .. } => player,
            Phase::SellOrTrade { player, .. } => player,
        }
    }
}

impl Default for Phase {
    /// Games open with the first player placing a tile.
    fn default() -> (r: Self)
        ensures
            r == Phase::Play(0),
    {
        Phase::Play(0)
    }
}

/// Why an action was rejected. Rejected actions never change the game.
#[derive(Copy, Clone, Debug, PartialEq, Eq, Structural)]
pub enum GameError {
    /// Game creation asked for a player count outside `[min, max]`.
    PlayerCount { min: usize, max: usize, given: usize },
    /// The game is over; no further actions are accepted.
    Finished,
    /// The acting player is not the one the current phase waits on.
    NotYourTurn,
    /// The current phase does not admit the requested action.
    WrongPhase,
    /// The player tried to place a tile not in their hand.
    TileNotHeld,
    /// Founding is required but no corporation is available.
    NoCorpAvailable,
    /// The placement would merge two safe corporations.
    SafeCorpsMerge,
    /// The corporation to found is already on the board.
    CorpOnBoard,
    /// The corporation to buy into has no cells on the board.
    CorpNotOnBoard,
    /// A share count of zero was given.
    ZeroShares,
    /// More shares than the buy allowance has left.
    BuyLimit { remaining: usize },
    /// The pool does not hold that many shares.
    NotEnoughShares { available: usize },
    /// The price exceeds the player's money.
    NotEnoughMoney { price: usize, money: usize },
    /// A merge of a corporation into itself.
    SameCorp,
    /// The named corporation is not a valid corporation to be merged.
    InvalidMergeFrom,
    /// The named corporation is not a valid corporation to merge into.
    InvalidMergeInto,
    /// The player does not hold that many shares of the dissolved corporation.
    NotEnoughOwnShares { owned: usize },
    /// Shares are traded in two for one; the count must be even.
    TradeOdd,
    /// Merge was invoked while no merge candidates exist.
    NoMergeCandidates,
    /// The end-of-game condition has not been reached.
    CannotEnd,
    /// The input text fits no command of the grammar.
    InvalidInput,
}

/// One entry of the ordered event log an action returns.
#[derive(Copy, Clone, Debug, PartialEq, Eq, Structural)]
pub enum Log {
    /// The named player opens the game.
    StartPlayer { player: usize },
    /// The player placed a tile at `at`.
    Played { player: usize, at: Loc },
    /// The corporation grew to the given size.
    CorpGrew { corp: Corp, size: usize },
    /// The player founded the corporation.
    Founded { player: usize, corp: Corp },
    /// The player bought `n` shares of `corp` for `price` in total.
    Bought { player: usize, n: usize, corp: Corp, price: usize },
    /// `from` is being absorbed by `into`.
    Merging { from: Corp, into: Corp },
    /// The player received a majority bonus for the dissolved corporation.
    MajorBonus { player: usize, corp: Corp, amount: usize },
    /// The player received a minority bonus for the dissolved corporation.
    MinorBonus { player: usize, corp: Corp, amount: usize },
    /// The player sold `n` shares of the dissolved corporation.
    Sold { player: usize, n: usize, corp: Corp, amount: usize },
    /// The player traded `n` shares of the dissolved corporation, two for
    /// one, into the surviving corporation.
    Traded { player: usize, n: usize, from: Corp, into: Corp },
    /// The player kept their shares of the dissolved corporation.
    Kept { player: usize, corp: Corp },
}

/// One player's holdings: money, shares per corporation in catalog order,
/// and the hand of unplayed board locations.
#[derive(Clone, Debug)]
pub struct Player {
    pub money: usize,
    pub shares: Vec<usize>,
    pub tiles: Vec<Loc>,
}

impl Default for Player {
    /// A fresh player: starting money, no shares, no tiles.
    fn default() -> (r: Self)
        ensures
            r.money == STARTING_MONEY,
            r.shares@.len() == NUM_CORPS,
            forall|ci: int| 0 <= ci < NUM_CORPS ==> r.shares@[ci] == 0,
            r.tiles@.len() == 0,
    {
        Player { money: STARTING_MONEY, shares: vec![0; NUM_CORPS], tiles: Vec::new() }
    }
}

/// A player as everyone sees them: money and share counts, but no hand.
#[derive(Clone, Debug)]
pub struct PubPlayer {
    pub money: usize,
    pub shares: Vec<usize>,
}

/// What only the requesting player sees: their own hand.
#[derive(Clone, Debug)]
pub struct PrivState {
    pub id: usize,
    pub tiles: Vec<Loc>,
}

/// A read-only snapshot of the game for rendering: phase, board, pools,
/// public player info, and the requesting player's hand if any.
#[derive(Clone, Debug)]
pub struct PubState {
    pub phase: Phase,
    pub priv_state: Option<PrivState>,
    pub players: Vec<PubPlayer>,
    pub board: Board,
    pub shares: Vec<usize>,
    pub remaining_tiles: usize,
    pub finished: bool,
}

/// The whole game: phase, players in seat order, board, shuffled draw
/// pile, per-corporation share pools in catalog order, and whether the
/// game has finished.
#[derive(Clone, Debug)]
pub struct Game {
    pub phase: Phase,
    pub players: Vec<Player>,
    pub board: Board,
    pub draw_tiles: Vec<Loc>,
    pub shares: Vec<usize>,
    pub finished: bool,
}

/// Total shares of the corporation at catalog index `ci` held by players.
pub open spec fn sum_shares(players: Seq<Player>, ci: int) -> nat
    decreases players.len(),
{
    if players.len() == 0 {
        0
    } else {
        sum_shares(players.drop_last(), ci) + players.last().shares@[ci] as nat
    }
}

/// Replacing one player moves the share sum by exactly that player's change.
pub proof fn lemma_sum_shares_update(players: Seq<Player>, p: int, np: Player, ci: int)
    requires
        0 <= p < players.len(),
    ensures
        sum_shares(players.update(p, np), ci) == sum_shares(players, ci) - players[p].shares@[ci]
            + np.shares@[ci],
    decreases players.len(),
{
    if p == players.len() - 1 {
        assert(players.update(p, np).drop_last() =~= players.drop_last());
    } else {
        assert(players.update(p, np).drop_last() =~= players.drop_last().update(p, np));
        lemma_sum_shares_update(players.drop_last(), p, np, ci);
    }
}

/// When every player holds nothing of a corporation, the sum is zero.
pub proof fn lemma_sum_shares_zero(players: Seq<Player>, ci: int)
    requires
        forall|p: int| 0 <= p < players.len() ==> (#[trigger] players[p]).shares@[ci] == 0,
    ensures
        sum_shares(players, ci) == 0,
    decreases players.len(),
{
    if players.len() > 0 {
        assert(players.last() == players[players.len() - 1]);
        lemma_sum_shares_zero(players.drop_last(), ci);
    }
}

/// No single player holds more than the sum over all players.
pub proof fn lemma_sum_shares_bound(players: Seq<Player>, p: int, ci: int)
    requires
        0 <= p < players.len(),
    ensures
        players[p].shares@[ci] <= sum_shares(players, ci),
    decreases players.len(),
{
    if p == players.len() - 1 {
        assert(players.last() == players[p]);
    } else {
        lemma_sum_shares_bound(players.drop_last(), p, ci);
    }
}

/// Largest holding of the corporation at catalog index `ci` over all
/// players.
pub open spec fn max_holding(players: Seq<Player>, ci: int) -> nat
    decreases players.len(),
{
    if players.len() == 0 {
        0
    } else {
        let rest = max_holding(players.drop_last(), ci);
        let h = players.last().shares@[ci] as nat;
        if h > rest {
            h
        } else {
            rest
        }
    }
}

/// Largest holding strictly below `bound`: the second-rank holding when
/// `bound` is the maximum.
pub open spec fn max_holding_below(players: Seq<Player>, ci: int, bound: nat) -> nat
    decreases players.len(),
{
    if players.len() == 0 {
        0
    } else {
        let rest = max_holding_below(players.drop_last(), ci, bound);
        let h = players.last().shares@[ci] as nat;
        if h < bound && h > rest {
            h
        } else {
            rest
        }
    }
}

/// How many players hold exactly `h` shares of the corporation at `ci`.
pub open spec fn holders_at(players: Seq<Player>, ci: int, h: nat) -> nat
    decreases players.len(),
{
    if players.len() == 0 {
        0
    } else {
        holders_at(players.drop_last(), ci, h) + (if players.last().shares@[ci] as nat == h {
            1nat
        } else {
            0nat
        })
    }
}

/// Nobody holds more than the maximum holding.
pub proof fn lemma_max_holding_ge(players: Seq<Player>, p: int, ci: int)
    requires
        0 <= p < players.len(),
    ensures
        players[p].shares@[ci] as nat <= max_holding(players, ci),
    decreases players.len(),
{
    if p == players.len() - 1 {
        assert(players.last() == players[p]);
    } else {
        lemma_max_holding_ge(players.drop_last(), p, ci);
    }
}

/// Some player attains the maximum holding.
pub proof fn lemma_max_holding_achieved(players: Seq<Player>, ci: int)
    requires
        players.len() > 0,
    ensures
        holders_at(players, ci, max_holding(players, ci)) >= 1,
    decreases players.len(),
{
    if players.len() == 1 {
        assert(players.drop_last().len() == 0);
        assert(holders_at(players.drop_last(), ci, max_holding(players, ci)) == 0);
    } else if (players.last().shares@[ci] as nat) <= max_holding(players.drop_last(), ci) {
        lemma_max_holding_achieved(players.drop_last(), ci);
    }
}

/// Some player attains the second-rank holding when it is positive.
pub proof fn lemma_max_below_achieved(players: Seq<Player>, ci: int, bound: nat)
    requires
        max_holding_below(players, ci, bound) > 0,
    ensures
        holders_at(players, ci, max_holding_below(players, ci, bound)) >= 1,
    decreases players.len(),
{
    if players.len() > 0 {
        let rest = max_holding_below(players.drop_last(), ci, bound);
        let h = players.last().shares@[ci] as nat;
        if !(h < bound && h > rest) {
            lemma_max_below_achieved(players.drop_last(), ci, bound);
        }
    }
}

/// Share sums depend only on the share vectors, player for player.
pub proof fn lemma_sum_shares_pointwise(a: Seq<Player>, b: Seq<Player>, ci: int)
    requires
        a.len() == b.len(),
        forall|p: int| 0 <= p < a.len() ==> (#[trigger] a[p]).shares@ == b[p].shares@,
    ensures
        sum_shares(a, ci) == sum_shares(b, ci),
    decreases a.len(),
{
    if a.len() > 0 {
        assert(a.last() == a[a.len() - 1]);
        assert(b.last() == b[b.len() - 1]);
        lemma_sum_shares_pointwise(a.drop_last(), b.drop_last(), ci);
    }
}

/// What the merger pays the player at seat `p` when the corporation at
/// catalog index `ci` dissolves at per-share value `v`: the top holders
/// split ten times the share value, the second-rank holders five times it,
/// each split evenly with the remainder discarded; sole-rank top holders
/// take both; nothing is paid when nobody holds shares.
pub open spec fn bonus_payout(players: Seq<Player>, ci: int, v: nat, p: int) -> nat {
    let max1 = max_holding(players, ci);
    let max2 = max_holding_below(players, ci, max1);
    let h = players[p].shares@[ci] as nat;
    if max1 == 0 {
        0
    } else if h == max1 {
        if max2 == 0 {
            (10 * v + 5 * v) / holders_at(players, ci, max1)
        } else {
            (10 * v) / holders_at(players, ci, max1)
        }
    } else if max2 > 0 && h == max2 {
        (5 * v) / holders_at(players, ci, max2)
    } else {
        0
    }
}

/// Saturating addition on machine integers: exact below the top, clamped
/// there.
pub open spec fn sat_add_spec(a: nat, b: nat) -> nat {
    if a + b <= usize::MAX as nat {
        a + b
    } else {
        usize::MAX as nat
    }
}

/// Share conservation: in every well-formed state, for every corporation,
/// the shares players hold and the remaining pool sum to the starting
/// pool exactly. A merge moves no share at all — [`Game::merge`] keeps
/// every player's holdings and every pool unchanged — so both sides of
/// this equation are conserved across the merge event; only board cells
/// change owner.
pub proof fn lemma_share_conservation(g: Game, c: Corp)
    requires
        g.wf(),
    ensures
        sum_shares(g.players@, c.index_spec()) + g.shares@[c.index_spec()] == STARTING_SHARES,
{
}

/// The first position of `loc` in a hand, if it is held.
fn find_tile(tiles: &Vec<Loc>, loc: &Loc) -> (r: Option<usize>)
    ensures
        r matches Some(i) ==> i < tiles@.len() && tiles@[i as int] == *loc,
        r is None ==> !tiles@.contains(*loc),
{
    let mut i: usize = 0;
    while i < tiles.len()
        invariant
            i <= tiles@.len(),
            forall|j: int| 0 <= j < i ==> tiles@[j] != *loc,
        decreases tiles@.len() - i,
    {
        if tiles[i] == *loc {
            return Some(i);
        }
        i = i + 1;
    }
    proof {
        if tiles@.contains(*loc) {
            let j = choose|j: int| 0 <= j < tiles@.len() && tiles@[j] == *loc;
        }
    }
    None
}

/// The rejection a placement request draws, if any: the checks run in this
/// order and the first failing one is reported.
pub open spec fn play_rejection(g: Game, player: usize, loc: Loc) -> Option<GameError> {
    if g.finished {
        Some(GameError::Finished)
    } else if player != g.phase.whose_turn_spec() {
        Some(GameError::NotYourTurn)
    } else if !(g.phase is Play) {
        Some(GameError::WrongPhase)
    } else if !g.players@[player as int].tiles@.contains(loc) {
        Some(GameError::TileNotHeld)
    } else if multi_adj_corp(g.board@, loc) && two_safe_adjacent(g.board@, loc) {
        Some(GameError::SafeCorpsMerge)
    } else if no_adj_corp(g.board@, loc) && has_unincorp_neighbour(g.board@, loc) && !(exists|
        c: Corp,
    |
        count_val(g.board@, Tile::Corp(c)) == 0) {
        Some(GameError::NoCorpAvailable)
    } else {
        None
    }
}

/// The seat-order scan of merger resolution: among offsets `start` and up
/// (counted from the triggering player, wrapping around the table), the
/// first one whose seat still holds shares of the corporation at catalog
/// index `ci`, if any.
pub open spec fn next_holder(players: Seq<Player>, ci: int, turn_player: int, start: int) -> Option<
    int,
>
    decreases players.len() - start,
{
    if start < 0 || start >= players.len() {
        None
    } else if players[(turn_player + start) % (players.len() as int)].shares@[ci] > 0 {
        Some(start)
    } else {
        next_holder(players, ci, turn_player, start + 1)
    }
}

/// The top holding reads share holdings only.
pub proof fn lemma_max_holding_shares(a: Seq<Player>, b: Seq<Player>, ci: int)
    requires
        a.len() == b.len(),
        forall|q: int| 0 <= q < a.len() ==> (#[trigger] a[q]).shares@ == b[q].shares@,
    ensures
        max_holding(a, ci) == max_holding(b, ci),
    decreases a.len(),
{
    if a.len() > 0 {
        assert(a.last() == a[a.len() - 1]);
        assert(b.last() == b[b.len() - 1]);
        lemma_max_holding_shares(a.drop_last(), b.drop_last(), ci);
    }
}

/// The second-rank holding reads share holdings only.
pub proof fn lemma_max_below_shares(a: Seq<Player>, b: Seq<Player>, ci: int, bound: nat)
    requires
        a.len() == b.len(),
        forall|q: int| 0 <= q < a.len() ==> (#[trigger] a[q]).shares@ == b[q].shares@,
    ensures
        max_holding_below(a, ci, bound) == max_holding_below(b, ci, bound),
    decreases a.len(),
{
    if a.len() > 0 {
        assert(a.last() == a[a.len() - 1]);
        assert(b.last() == b[b.len() - 1]);
        lemma_max_below_shares(a.drop_last(), b.drop_last(), ci, bound);
    }
}

/// The holder count reads share holdings only.
pub proof fn lemma_holders_shares(a: Seq<Player>, b: Seq<Player>, ci: int, h: nat)
    requires
        a.len() == b.len(),
        forall|q: int| 0 <= q < a.len() ==> (#[trigger] a[q]).shares@ == b[q].shares@,
    ensures
        holders_at(a, ci, h) == holders_at(b, ci, h),
    decreases a.len(),
{
    if a.len() > 0 {
        assert(a.last() == a[a.len() - 1]);
        assert(b.last() == b[b.len() - 1]);
        lemma_holders_shares(a.drop_last(), b.drop_last(), ci, h);
    }
}

/// The bonus payout reads share holdings only.
pub proof fn lemma_bonus_payout_shares(a: Seq<Player>, b: Seq<Player>, ci: int, v: nat, p: int)
    requires
        a.len() == b.len(),
        forall|q: int| 0 <= q < a.len() ==> (#[trigger] a[q]).shares@ == b[q].shares@,
        0 <= p < a.len(),
    ensures
        bonus_payout(a, ci, v, p) == bonus_payout(b, ci, v, p),
{
    lemma_max_holding_shares(a, b, ci);
    lemma_max_below_shares(a, b, ci, max_holding(a, ci));
    lemma_holders_shares(a, b, ci, max_holding(a, ci));
    lemma_holders_shares(a, b, ci, max_holding_below(a, ci, max_holding(a, ci)));
}

/// The seat scan reads share holdings only: states agreeing on every
/// seat's shares agree on the next holder.
pub proof fn lemma_next_holder_shares(a: Seq<Player>, b: Seq<Player>, ci: int, t: int, start: int)
    requires
        a.len() == b.len(),
        forall|p: int| 0 <= p < a.len() ==> (#[trigger] a[p]).shares@ == b[p].shares@,
    ensures
        next_holder(a, ci, t, start) == next_holder(b, ci, t, start),
    decreases a.len() - start,
{
    if 0 <= start < a.len() {
        assert(a[(t + start) % (a.len() as int)].shares@ == b[(t + start) % (
        b.len() as int)].shares@);
        lemma_next_holder_shares(a, b, ci, t, start + 1);
    }
}

/// The seat scan never reads a seat whose offset lies before its start:
/// states agreeing on every other seat's shares agree on the next holder.
pub proof fn lemma_next_holder_except(
    a: Seq<Player>,
    b: Seq<Player>,
    ci: int,
    t: int,
    start: int,
    ex: int,
)
    requires
        a.len() == b.len(),
        a.len() >= 1,
        0 <= t < a.len(),
        0 <= ex < a.len(),
        forall|q: int| 0 <= q < a.len() && q != ex ==> (#[trigger] a[q]).shares@ == b[q].shares@,
        (ex - t + a.len() as int) % (a.len() as int) < start,
    ensures
        next_holder(a, ci, t, start) == next_holder(b, ci, t, start),
    decreases a.len() - start,
{
    let n = a.len() as int;
    if 0 <= start < n {
        let q = (t + start) % n;
        if q == ex {
            assert(start == (ex - t + n) % n) by (nonlinear_arith)
                requires
                    0 <= start < n,
                    0 <= t < n,
                    0 <= ex < n,
                    (t + start) % n == ex,
            ;
            assert(false);
        }
        lemma_next_holder_except(a, b, ci, t, start + 1, ex);
    }
}

/// Whether `(f, i)` is the single unambiguous merge at `at`: `f` is the
/// one corporation strictly smaller than some neighbour, and `i` the one
/// corporation of greatest size. When this holds, the merge applies
/// without a player choice.
pub open spec fn unambiguous_merger(b: Seq<Tile>, at: Loc, f: Corp, i: Corp) -> bool {
    &&& is_strict_sub(b, at, f)
    &&& forall|d: Corp| #[trigger] is_strict_sub(b, at, d) ==> d == f
    &&& is_max_adj(b, at, i)
    &&& forall|d: Corp| #[trigger] is_max_adj(b, at, d) ==> d == i
}

/// Whether `c` may be the dissolved side of a merge at `at`: a strictly
/// smaller adjacent corporation when one exists, otherwise (all adjacent
/// corporations tied) any of them.
pub open spec fn valid_merge_from(b: Seq<Tile>, at: Loc, c: Corp) -> bool {
    if exists|d: Corp| is_strict_sub(b, at, d) {
        is_strict_sub(b, at, c)
    } else {
        is_max_adj(b, at, c)
    }
}

/// During merger resolution the merging tile belongs to the surviving
/// corporation, which is adjacent to its own region there and strictly
/// larger than every other corporation adjacent to the tile.
pub open spec fn merge_site_ok(b: Seq<Tile>, at: Loc) -> bool {
    match b[loc_index(at)] {
        Tile::Corp(x) => adj_corp(b, at, x) && forall|d: Corp|
            d != x && #[trigger] adj_corp(b, at, d) ==> count_val(b, Tile::Corp(d)) < count_val(
                b,
                Tile::Corp(x),
            ),
        _ => false,
    }
}

/// Removing one entry keeps a repeat-free sequence repeat-free, and every
/// remaining entry was already there.
pub proof fn lemma_remove_keeps(s: Seq<Loc>, pos: int)
    requires
        0 <= pos < s.len(),
        s.no_duplicates(),
    ensures
        s.remove(pos).no_duplicates(),
        forall|j: int| 0 <= j < s.remove(pos).len() ==> s.contains(#[trigger] s.remove(pos)[j]),
        forall|j: int| 0 <= j < s.remove(pos).len() ==> s.remove(pos)[j] != s[pos],
{
    let r = s.remove(pos);
    assert forall|j: int| 0 <= j < r.len() implies s.contains(#[trigger] r[j]) && r[j] != s[pos] by {
        if j < pos {
            assert(r[j] == s[j]);
        } else {
            assert(r[j] == s[j + 1]);
        }
    }
    assert forall|a: int, b: int| 0 <= a < r.len() && 0 <= b < r.len() && a != b implies r[a]
        != r[b] by {
        if a < pos {
            assert(r[a] == s[a]);
        } else {
            assert(r[a] == s[a + 1]);
        }
        if b < pos {
            assert(r[b] == s[b]);
        } else {
            assert(r[b] == s[b + 1]);
        }
    }
}

/// Saturating addition used for money payouts.
pub fn sat_add(a: usize, b: usize) -> (r: usize)
    ensures
        r == sat_add_spec(a as nat, b as nat),
        r >= a,
{
    if a <= usize::MAX - b {
        a + b
    } else {
        usize::MAX
    }
}

/// Relies on rand's `SliceRandom::shuffle`: an in-place Fisher-Yates
/// permutation by swaps, so the same locations come back, rearranged.
#[verifier::external_body]
fn shuffle_locs(v: &mut Vec<Loc>)
    ensures
        final(v)@.len() == old(v)@.len(),
        final(v)@.to_multiset() == old(v)@.to_multiset(),
{
    let mut rng = rand::thread_rng();
    v.shuffle(&mut rng);
}

/// Relies on rand's `thread_rng` and `RngCore::next_u32`: a word from the
/// thread-local generator. Nothing is promised of its value.
#[verifier::external_body]
fn random_u32() -> u32 {
    rand::thread_rng().next_u32()
}

/// A permutation of a repeat-free sequence is repeat-free and has the same
/// members.
pub proof fn lemma_permutation_members(a: Seq<Loc>, b: Seq<Loc>)
    requires
        a.to_multiset() == b.to_multiset(),
        a.no_duplicates(),
    ensures
        b.no_duplicates(),
        forall|x: Loc| a.contains(x) <==> b.contains(x),
{
    broadcast use vstd::seq_lib::group_to_multiset_ensures;

    a.lemma_multiset_has_no_duplicates();
    b.lemma_multiset_has_no_duplicates_conv();
    assert forall|x: Loc| a.contains(x) <==> b.contains(x) by {
        assert(a.contains(x) <==> a.to_multiset().count(x) > 0);
        assert(b.contains(x) <==> b.to_multiset().count(x) > 0);
    }
}

impl Game {
    /// Seat and pool bookkeeping is the right shape: a legal player count,
    /// one pool per corporation, one share slot per corporation per player,
    /// hands within the hand limit, and the grid-sized board.
    pub open spec fn wf_players(self) -> bool {
        &&& MIN_PLAYERS <= self.players@.len() <= MAX_PLAYERS
        &&& self.shares@.len() == NUM_CORPS
        &&& forall|p: int|
            0 <= p < self.players@.len() ==> (#[trigger] self.players@[p]).shares@.len()
                == NUM_CORPS
        &&& forall|p: int|
            0 <= p < self.players@.len() ==> (#[trigger] self.players@[p]).tiles@.len()
                <= TILE_HAND_SIZE
        &&& self.board@.len() == SIZE
    }

    /// Share conservation: per corporation, what players hold plus the
    /// remaining pool is exactly the starting pool. Shares are never
    /// created or destroyed, only moved.
    pub open spec fn wf_shares(self) -> bool {
        forall|ci: int|
            0 <= ci < NUM_CORPS ==> sum_shares(self.players@, ci) + #[trigger] self.shares@[ci]
                == STARTING_SHARES
    }

    /// The phase waits on a seated player, points at a grid location, and
    /// agrees with the board: a founding tile is unincorporated, and during
    /// merger resolution the merging tile is unincorporated or already
    /// belongs to the strictly largest corporation beside it.
    pub open spec fn wf_phase(self) -> bool {
        &&& self.phase.whose_turn_spec() < self.players@.len()
        &&& match self.phase {
            Phase::Found { at, .. } => in_grid(at) && self.board@[loc_index(at)]
                == Tile::Unincorporated,
            Phase::ChooseMerger { at, .. } => in_grid(at) && (self.board@[loc_index(at)]
                == Tile::Unincorporated || merge_site_ok(self.board@, at)),
            Phase::SellOrTrade { at, turn_player, .. } => in_grid(at) && turn_player
                < self.players@.len() && merge_site_ok(self.board@, at),
            Phase::Buy { remaining, .. } => remaining <= 3,
            _ => true,
        }
    }

    /// An unplayed tile names a grid cell that is still empty.
    pub open spec fn tile_ok(self, l: Loc) -> bool {
        in_grid(l) && self.board@[loc_index(l)] == Tile::Empty
    }

    /// Every tile in the draw pile and in every hand is an unplayed grid
    /// cell, and no two unplayed tiles name the same cell.
    pub open spec fn wf_tiles(self) -> bool {
        &&& forall|i: int|
            0 <= i < self.draw_tiles@.len() ==> self.tile_ok(#[trigger] self.draw_tiles@[i])
        &&& forall|p: int, i: int|
            0 <= p < self.players@.len() && 0 <= i < self.players@[p].tiles@.len() ==> self.tile_ok(
                #[trigger] self.players@[p].tiles@[i],
            )
        &&& self.draw_tiles@.no_duplicates()
        &&& forall|p: int|
            0 <= p < self.players@.len() ==> (#[trigger] self.players@[p]).tiles@.no_duplicates()
        &&& forall|p: int, i: int, j: int|
            0 <= p < self.players@.len() && 0 <= i < self.players@[p].tiles@.len() && 0 <= j
                < self.draw_tiles@.len() ==> #[trigger] self.players@[p].tiles@[i]
                != #[trigger] self.draw_tiles@[j]
        &&& forall|p: int, q: int, i: int, j: int|
            0 <= p < self.players@.len() && 0 <= q < self.players@.len() && p != q && 0 <= i
                < self.players@[p].tiles@.len() && 0 <= j < self.players@[q].tiles@.len()
                ==> #[trigger] self.players@[p].tiles@[i] != #[trigger] self.players@[q].tiles@[j]
    }

    /// The game invariant: every action requires it and re-establishes it.
    pub open spec fn wf(self) -> bool {
        self.wf_players() && self.wf_shares() && self.wf_phase() && self.wf_tiles()
    }

    /// How many players sit at the table.
    pub fn player_count(&self) -> (r: usize)
        ensures
            r == self.players@.len(),
    {
        self.players.len()
    }

    /// The player counts a match can be created with: every count
    /// [`Game::new`] accepts.
    pub fn player_counts() -> (r: Vec<usize>)
        ensures
            r@ == seq![2usize, 3usize, 4usize, 5usize, 6usize],
            forall|i: int|
                0 <= i < r@.len() ==> MIN_PLAYERS <= #[trigger] r@[i] <= MAX_PLAYERS,
    {
        let mut v: Vec<usize> = Vec::new();
        v.push(2);
        v.push(3);
        v.push(4);
        v.push(5);
        v.push(6);
        proof {
            assert(v@ =~= seq![2usize, 3usize, 4usize, 5usize, 6usize]);
        }
        v
    }

    /// Whether the game has ended.
    pub fn is_finished(&self) -> (r: bool)
        ensures
            r == self.finished,
    {
        self.finished
    }

    /// Whether `player` may place a tile right now.
    pub fn can_play(&self, player: usize) -> (r: bool)
        ensures
            r == (self.phase == Phase::Play(player)),
    {
        match self.phase {
            Phase::Play(p) => p == player,
            _ => false,
        }
    }

    /// Whether the end of the game may be triggered: some corporation has
    /// reached the game-end size.
    pub fn can_end(&self) -> (r: bool)
        ensures
            r == exists|c: Corp| count_val(self.board@, Tile::Corp(c)) >= GAME_END_SIZE,
    {
        let all = Corp::iter();
        let mut i: usize = 0;
        while i < all.len()
            invariant
                all@.len() == NUM_CORPS,
                forall|k: int| 0 <= k < NUM_CORPS ==> #[trigger] all@[k].index_spec() == k,
                i <= NUM_CORPS,
                forall|j: int|
                    0 <= j < i ==> count_val(self.board@, Tile::Corp(#[trigger] all@[j]))
                        < GAME_END_SIZE,
            decreases all@.len() - i,
        {
            if self.board.corp_size(all[i]) >= GAME_END_SIZE {
                proof {
                    assert(count_val(self.board@, Tile::Corp(all@[i as int])) >= GAME_END_SIZE);
                }
                return true;
            }
            i = i + 1;
        }
        proof {
            assert forall|c: Corp| !(count_val(self.board@, Tile::Corp(c)) >= GAME_END_SIZE) by {
                let k = c.index_spec();
                assert(all@[k].index_spec() == k);
                crate::corp::lemma_index_injective(all@[k], c);
            }
        }
        false
    }

    /// The seat after `player`, wrapping around the table.
    fn next_player(&self, player: usize) -> (r: usize)
        requires
            self.players@.len() > 0,
            player < self.players@.len(),
        ensures
            r == (player as int + 1) % (self.players@.len() as int),
            r < self.players@.len(),
    {
        let n = self.players.len();
        (player + 1) % n
    }

    /// Builds the initial state from an explicit draw order and starting
    /// player: one starting tile per player placed unincorporated in order,
    /// then six-tile hands dealt in order, full pools, starting money. The
    /// order must name every grid cell exactly once. Rejects a player count
    /// outside the legal range and touches nothing else.
    pub fn new_from_order(players: usize, order: Vec<Loc>, start_player: usize) -> (r: Result<
        (Game, Vec<Log>),
        GameError,
    >)
        requires
            order@.len() == SIZE,
            order@.no_duplicates(),
            forall|i: int| 0 <= i < order@.len() ==> in_grid(#[trigger] order@[i]),
            MIN_PLAYERS <= players <= MAX_PLAYERS ==> start_player < players,
        ensures
            (players < MIN_PLAYERS || players > MAX_PLAYERS) <==> r is Err,
            r is Err ==> r == Err::<(Game, Vec<Log>), GameError>(
                GameError::PlayerCount { min: MIN_PLAYERS, max: MAX_PLAYERS, given: players },
            ),
            r matches Ok(gl) ==> {
                &&& gl.0.wf()
                &&& gl.0.finished == false
                &&& gl.0.phase == Phase::Play(start_player)
                &&& gl.0.players@.len() == players
                &&& forall|p: int|
                    0 <= p < players ==> (#[trigger] gl.0.players@[p]).money == STARTING_MONEY
                &&& forall|p: int, ci: int|
                    0 <= p < players && 0 <= ci < NUM_CORPS ==> (
                    #[trigger] gl.0.players@[p].shares@[ci]) == 0
                &&& forall|ci: int| 0 <= ci < NUM_CORPS ==> gl.0.shares@[ci] == STARTING_SHARES
                &&& forall|p: int|
                    0 <= p < players ==> (#[trigger] gl.0.players@[p]).tiles@ == order@.subrange(
                        players + p * TILE_HAND_SIZE,
                        players + (p + 1) * TILE_HAND_SIZE,
                    )
                &&& gl.0.draw_tiles@ == order@.subrange(
                    players + players * TILE_HAND_SIZE,
                    SIZE as int,
                )
                &&& count_val(gl.0.board@, Tile::Unincorporated) == players
                &&& forall|c: Corp| count_val(gl.0.board@, Tile::Corp(c)) == 0
                &&& forall|i: int|
                    0 <= i < players ==> gl.0.board@[loc_index(#[trigger] order@[i])]
                        == Tile::Unincorporated
                &&& gl.1@ == seq![Log::StartPlayer { player: start_player }]
            },
    {
        if players < MIN_PLAYERS || players > MAX_PLAYERS {
            return Err(GameError::PlayerCount {
                min: MIN_PLAYERS,
                max: MAX_PLAYERS,
                given: players,
            });
        }
        let mut g = Game {
            phase: Phase::Play(start_player),
            players: Vec::new(),
            board: Board::default(),
            draw_tiles: order,
            shares: vec![STARTING_SHARES; NUM_CORPS],
            finished: false,
        };
        let ghost order_s = g.draw_tiles@;
        // Place one starting tile per player.
        let mut p: usize = 0;
        proof {
            assert(g.draw_tiles@ =~= order_s.subrange(0, SIZE as int));
            crate::board::lemma_count_zero(g.board@, Tile::Unincorporated);
            assert forall|c: Corp| count_val(g.board@, Tile::Corp(c)) == 0 by {
                crate::board::lemma_count_zero(g.board@, Tile::Corp(c));
            }
        }
        while p < players
            invariant
                g.phase == Phase::Play(start_player),
                g.finished == false,
                g.shares@.len() == NUM_CORPS,
                forall|ci: int| 0 <= ci < NUM_CORPS ==> g.shares@[ci] == STARTING_SHARES,
                players <= MAX_PLAYERS,
                p <= players,
                order_s.len() == SIZE,
                order_s.no_duplicates(),
                forall|i: int| 0 <= i < order_s.len() ==> in_grid(#[trigger] order_s[i]),
                g.players@.len() == 0,
                g.draw_tiles@ == order_s.subrange(p as int, SIZE as int),
                g.board@.len() == SIZE,
                forall|i: int|
                    0 <= i < p ==> g.board@[loc_index(#[trigger] order_s[i])]
                        == Tile::Unincorporated,
                forall|j: int|
                    0 <= j < SIZE && g.board@[j] != Tile::Empty ==> exists|i: int|
                        0 <= i < p && loc_index(order_s[i]) == j,
                count_val(g.board@, Tile::Unincorporated) == p,
                forall|c: Corp| count_val(g.board@, Tile::Corp(c)) == 0,
            decreases players - p,
        {
            let ghost pre_draw = g.draw_tiles@;
            let ghost pre_b = g.board@;
            let l = g.draw_tiles.remove(0);
            let li = l.index();
            proof {
                assert(l == order_s[p as int]);
                assert(g.draw_tiles@ =~= order_s.subrange(p + 1, SIZE as int));
                // the cell is still empty: a non-empty cell comes from an
                // earlier distinct tile, whose index cannot collide
                if pre_b[li as int] != Tile::Empty {
                    let i = choose|i: int| 0 <= i < p && loc_index(order_s[i]) == li as int;
                    crate::board::lemma_loc_index_injective(order_s[i], l);
                    assert(false);
                }
            }
            g.board.set_tile(li, Tile::Unincorporated);
            proof {
                assert(g.board@.len() == SIZE);
                assert(g.board@[li as int] == Tile::Unincorporated);
                assert forall|j: int|
                    0 <= j < SIZE && g.board@[j] != Tile::Empty implies exists|i: int|
                    0 <= i < p + 1 && loc_index(order_s[i]) == j by {
                    if j != li as int {
                        assert(crate::board::tile_at(g.board@, j) == crate::board::tile_at(
                            pre_b,
                            j,
                        ));
                        assert(g.board@[j] == pre_b[j]);
                        let i = choose|i: int| 0 <= i < p && loc_index(order_s[i]) == j;
                        assert(0 <= i < p + 1 && loc_index(order_s[i]) == j);
                    } else {
                        assert(loc_index(order_s[p as int]) == j);
                        assert(0 <= (p as int) < p + 1 && loc_index(order_s[p as int]) == j);
                    }
                }
                assert forall|i: int|
                    0 <= i < p + 1 implies g.board@[loc_index(#[trigger] order_s[i])]
                    == Tile::Unincorporated by {
                    if i < p {
                        if loc_index(order_s[i]) != li as int {
                            assert(crate::board::tile_at(g.board@, loc_index(order_s[i]))
                                == crate::board::tile_at(pre_b, loc_index(order_s[i])));
                            assert(g.board@[loc_index(order_s[i])] == pre_b[loc_index(order_s[i])]);
                        }
                    }
                }
            }
            p = p + 1;
        }
        let ghost board_done = g.board@;
        // Deal the hands.
        let mut q: usize = 0;
        while q < players
            invariant
                g.phase == Phase::Play(start_player),
                g.finished == false,
                g.shares@.len() == NUM_CORPS,
                forall|ci: int| 0 <= ci < NUM_CORPS ==> g.shares@[ci] == STARTING_SHARES,
                players <= MAX_PLAYERS,
                q <= players,
                order_s.len() == SIZE,
                order_s.no_duplicates(),
                forall|i: int| 0 <= i < order_s.len() ==> in_grid(#[trigger] order_s[i]),
                g.board@ == board_done,
                g.players@.len() == q,
                g.draw_tiles@ == order_s.subrange(
                    players + q * TILE_HAND_SIZE,
                    SIZE as int,
                ),
                forall|u: int|
                    0 <= u < q ==> (#[trigger] g.players@[u]).money == STARTING_MONEY
                        && g.players@[u].shares@.len() == NUM_CORPS && g.players@[u].tiles@
                        == order_s.subrange(
                        players + u * TILE_HAND_SIZE,
                        players + (u + 1) * TILE_HAND_SIZE,
                    ),
                forall|u: int, ci: int|
                    0 <= u < q && 0 <= ci < NUM_CORPS ==> (#[trigger] g.players@[u].shares@[ci])
                        == 0,
            decreases players - q,
        {
            let mut player = Player::default();
            let mut k: usize = 0;
            while k < TILE_HAND_SIZE
                invariant
                g.phase == Phase::Play(start_player),
                g.finished == false,
                g.shares@.len() == NUM_CORPS,
                forall|ci: int| 0 <= ci < NUM_CORPS ==> g.shares@[ci] == STARTING_SHARES,
                    players <= MAX_PLAYERS,
                    q < players,
                    k <= TILE_HAND_SIZE,
                    order_s.len() == SIZE,
                    order_s.no_duplicates(),
                    forall|i: int| 0 <= i < order_s.len() ==> in_grid(#[trigger] order_s[i]),
                    g.board@ == board_done,
                    g.players@.len() == q,
                    forall|u: int|
                        0 <= u < q ==> (#[trigger] g.players@[u]).money == STARTING_MONEY
                            && g.players@[u].shares@.len() == NUM_CORPS && g.players@[u].tiles@
                            == order_s.subrange(
                            players + u * TILE_HAND_SIZE,
                            players + (u + 1) * TILE_HAND_SIZE,
                        ),
                    forall|u: int, ci: int|
                        0 <= u < q && 0 <= ci < NUM_CORPS ==> (#[trigger] g.players@[u].shares@[ci])
                            == 0,
                    g.draw_tiles@ == order_s.subrange(
                        players + q * TILE_HAND_SIZE + k,
                        SIZE as int,
                    ),
                    player.tiles@ == order_s.subrange(
                        players + q * TILE_HAND_SIZE,
                        players + q * TILE_HAND_SIZE + k,
                    ),
                    player.money == STARTING_MONEY,
                    player.shares@.len() == NUM_CORPS,
                    forall|ci: int| 0 <= ci < NUM_CORPS ==> player.shares@[ci] == 0,
                decreases TILE_HAND_SIZE - k,
            {
                let l = g.draw_tiles.remove(0);
                player.tiles.push(l);
                proof {
                    assert(g.draw_tiles@ =~= order_s.subrange(
                        players + q * TILE_HAND_SIZE + k + 1,
                        SIZE as int,
                    ));
                    assert(player.tiles@ =~= order_s.subrange(
                        players + q * TILE_HAND_SIZE,
                        players + q * TILE_HAND_SIZE + k + 1,
                    ));
                }
                k = k + 1;
            }
            g.players.push(player);
            q = q + 1;
        }
        // The state is well-formed: pools full, sums zero, all unplayed
        // tiles on distinct empty cells.
        proof {
            assert forall|ci: int| 0 <= ci < NUM_CORPS implies sum_shares(g.players@, ci)
                + #[trigger] g.shares@[ci] == STARTING_SHARES by {
                lemma_sum_shares_zero(g.players@, ci);
            }
            let hand_lo = |u: int| players + u * TILE_HAND_SIZE;
            assert forall|j: int|
                players <= j < SIZE implies g.board@[loc_index(#[trigger] order_s[j])]
                == Tile::Empty by {
                if g.board@[loc_index(order_s[j])] != Tile::Empty {
                    let i = choose|i: int|
                        0 <= i < players && loc_index(order_s[i]) == loc_index(order_s[j]);
                    crate::board::lemma_loc_index_injective(order_s[i], order_s[j]);
                    assert(false);
                }
            }
            assert forall|i: int|
                0 <= i < g.draw_tiles@.len() implies g.tile_ok(#[trigger] g.draw_tiles@[i]) by {
                assert(g.draw_tiles@[i] == order_s[players + players * TILE_HAND_SIZE + i]);
            }
            assert forall|u: int, i: int|
                0 <= u < g.players@.len() && 0 <= i < g.players@[u].tiles@.len() implies g.tile_ok(
                #[trigger] g.players@[u].tiles@[i],
            ) by {
                assert(g.players@[u].tiles@[i] == order_s[players + u * TILE_HAND_SIZE + i]);
            }
            assert forall|i: int, j: int|
                0 <= i < g.draw_tiles@.len() && 0 <= j < g.draw_tiles@.len() && i != j implies g.draw_tiles@[i]
                != g.draw_tiles@[j] by {
                assert(g.draw_tiles@[i] == order_s[players + players * TILE_HAND_SIZE + i]);
                assert(g.draw_tiles@[j] == order_s[players + players * TILE_HAND_SIZE + j]);
            }
            assert forall|u: int|
                0 <= u < g.players@.len() implies (#[trigger] g.players@[u]).tiles@.no_duplicates()
                by {
                assert forall|i: int, j: int|
                    0 <= i < g.players@[u].tiles@.len() && 0 <= j < g.players@[u].tiles@.len() && i
                        != j implies g.players@[u].tiles@[i] != g.players@[u].tiles@[j] by {
                    assert(g.players@[u].tiles@[i] == order_s[players + u * TILE_HAND_SIZE + i]);
                    assert(g.players@[u].tiles@[j] == order_s[players + u * TILE_HAND_SIZE + j]);
                }
            }
            assert forall|u: int, i: int, j: int|
                0 <= u < g.players@.len() && 0 <= i < g.players@[u].tiles@.len() && 0 <= j
                    < g.draw_tiles@.len() implies #[trigger] g.players@[u].tiles@[i]
                != #[trigger] g.draw_tiles@[j] by {
                assert(g.players@[u].tiles@[i] == order_s[players + u * TILE_HAND_SIZE + i]);
                assert(g.draw_tiles@[j] == order_s[players + players * TILE_HAND_SIZE + j]);
            }
            assert forall|u: int, w: int, i: int, j: int|
                0 <= u < g.players@.len() && 0 <= w < g.players@.len() && u != w && 0 <= i
                    < g.players@[u].tiles@.len() && 0 <= j < g.players@[w].tiles@.len() implies
                #[trigger] g.players@[u].tiles@[i] != #[trigger] g.players@[w].tiles@[j] by {
                assert(g.players@[u].tiles@[i] == order_s[players + u * TILE_HAND_SIZE + i]);
                assert(g.players@[w].tiles@[j] == order_s[players + w * TILE_HAND_SIZE + j]);
            }
        }
        let mut logs: Vec<Log> = Vec::new();
        logs.push(Log::StartPlayer { player: start_player });
        proof {
            assert(logs@ =~= seq![Log::StartPlayer { player: start_player }]);
        }
        Ok((g, logs))
    }

    /// Creates a match: every grid location shuffled into a draw order and
    /// a starting player drawn at random, then set up as
    /// [`Game::new_from_order`] describes.
    pub fn new(players: usize) -> (r: Result<(Game, Vec<Log>), GameError>)
        ensures
            (players < MIN_PLAYERS || players > MAX_PLAYERS) <==> r is Err,
            r is Err ==> r == Err::<(Game, Vec<Log>), GameError>(
                GameError::PlayerCount { min: MIN_PLAYERS, max: MAX_PLAYERS, given: players },
            ),
            r matches Ok(gl) ==> {
                &&& gl.0.wf()
                &&& gl.0.finished == false
                &&& gl.0.phase is Play
                &&& gl.0.phase.whose_turn_spec() < players
                &&& gl.0.players@.len() == players
                &&& forall|p: int|
                    0 <= p < players ==> (#[trigger] gl.0.players@[p]).money == STARTING_MONEY
                &&& forall|p: int, ci: int|
                    0 <= p < players && 0 <= ci < NUM_CORPS ==> (
                    #[trigger] gl.0.players@[p].shares@[ci]) == 0
                &&& forall|p: int|
                    0 <= p < players ==> (#[trigger] gl.0.players@[p]).tiles@.len()
                        == TILE_HAND_SIZE
                &&& forall|ci: int| 0 <= ci < NUM_CORPS ==> gl.0.shares@[ci] == STARTING_SHARES
                &&& gl.0.draw_tiles@.len() == SIZE - players - players * TILE_HAND_SIZE
                &&& count_val(gl.0.board@, Tile::Unincorporated) == players
                &&& forall|c: Corp| count_val(gl.0.board@, Tile::Corp(c)) == 0
                &&& gl.1@.len() == 1
            },
    {
        if players < MIN_PLAYERS || players > MAX_PLAYERS {
            return Err(GameError::PlayerCount {
                min: MIN_PLAYERS,
                max: MAX_PLAYERS,
                given: players,
            });
        }
        let mut order = Loc::all();
        let ghost orig = order@;
        shuffle_locs(&mut order);
        proof {
            lemma_permutation_members(orig, order@);
            assert forall|i: int| 0 <= i < order@.len() implies in_grid(#[trigger] order@[i]) by {
                assert(order@.contains(order@[i]));
                assert(orig.contains(order@[i]));
                let j = choose|j: int| 0 <= j < orig.len() && orig[j] == order@[i];
            }
        }
        let start = (random_u32() as usize) % players;
        Game::new_from_order(players, order, start)
    }

    /// Pays the majority and minority acquisition bonuses for the
    /// dissolving corporation, at its value before any board cell is
    /// reassigned, exactly as [`bonus_payout`] states: evenly split within
    /// each rank, remainders discarded, both bonuses to a sole-rank top.
    fn pay_bonuses(&mut self, corp: Corp) -> (logs: Vec<Log>)
        requires
            old(self).wf_players(),
        ensures
            final(self).wf_players(),
            final(self).board@ == old(self).board@,
            final(self).shares@ == old(self).shares@,
            final(self).draw_tiles@ == old(self).draw_tiles@,
            final(self).phase == old(self).phase,
            final(self).finished == old(self).finished,
            final(self).players@.len() == old(self).players@.len(),
            forall|p: int|
                0 <= p < old(self).players@.len() ==> (#[trigger] final(self).players@[p]).shares@
                    == old(self).players@[p].shares@
                    && final(self).players@[p].tiles@ == old(self).players@[p].tiles@,
            forall|p: int|
                0 <= p < old(self).players@.len() ==> (#[trigger] final(self).players@[p]).money
                    == sat_add_spec(
                    old(self).players@[p].money as nat,
                    bonus_payout(
                        old(self).players@,
                        corp.index_spec(),
                        corp.value_spec(count_val(old(self).board@, Tile::Corp(corp))),
                        p,
                    ),
                ),
    {
        let ghost g0 = *old(self);
        let ghost players0 = old(self).players@;
        let ci = corp.index();
        let size = self.board.corp_size(corp);
        let v = corp.value(size);
        let ghost vs = v as nat;
        let n = self.players.len();
        // the top holding
        let mut max1: usize = 0;
        let mut i: usize = 0;
        proof {
            assert(players0.subrange(0, 0) =~= Seq::<Player>::empty());
        }
        while i < n
            invariant
                *self == g0,
                g0.wf_players(),
                players0 == g0.players@,
                n == players0.len(),
                ci == corp.index_spec(),
                i <= n,
                max1 as nat == max_holding(players0.subrange(0, i as int), ci as int),
            decreases n - i,
        {
            proof {
                assert(players0.subrange(0, i + 1).drop_last() =~= players0.subrange(0, i as int));
                assert(players0.subrange(0, i + 1).last() == players0[i as int]);
            }
            let h = self.players[i].shares[ci];
            if h > max1 {
                max1 = h;
            }
            i = i + 1;
        }
        proof {
            assert(players0.subrange(0, n as int) =~= players0);
        }
        let mut logs: Vec<Log> = Vec::new();
        if max1 == 0 {
            proof {
                assert forall|p: int|
                    0 <= p < players0.len() implies self.players@[p].money as nat == sat_add_spec(
                    players0[p].money as nat,
                    bonus_payout(players0, ci as int, vs, p),
                ) by {}
            }
            return logs;
        }
        // second-rank holding and the holder counts of both ranks
        let mut max2: usize = 0;
        let mut n1: usize = 0;
        let mut n2: usize = 0;
        i = 0;
        proof {
            assert(players0.subrange(0, 0) =~= Seq::<Player>::empty());
        }
        while i < n
            invariant
                *self == g0,
                g0.wf_players(),
                players0 == g0.players@,
                n == players0.len(),
                ci == corp.index_spec(),
                i <= n,
                max1 as nat == max_holding(players0, ci as int),
                max2 as nat == max_holding_below(players0.subrange(0, i as int), ci as int, max1 as nat),
                n1 == holders_at(players0.subrange(0, i as int), ci as int, max1 as nat),
                n1 <= i,
            decreases n - i,
        {
            proof {
                assert(players0.subrange(0, i + 1).drop_last() =~= players0.subrange(0, i as int));
                assert(players0.subrange(0, i + 1).last() == players0[i as int]);
                lemma_max_holding_ge(players0, i as int, ci as int);
            }
            let h = self.players[i].shares[ci];
            if h == max1 {
                n1 = n1 + 1;
            } else if h > max2 {
                max2 = h;
            }
            i = i + 1;
        }
        proof {
            assert(players0.subrange(0, n as int) =~= players0);
        }
        i = 0;
        proof {
            assert(players0.subrange(0, 0) =~= Seq::<Player>::empty());
        }
        while i < n
            invariant
                *self == g0,
                g0.wf_players(),
                players0 == g0.players@,
                n == players0.len(),
                ci == corp.index_spec(),
                i <= n,
                max2 as nat == max_holding_below(players0, ci as int, max1 as nat),
                n2 == holders_at(players0.subrange(0, i as int), ci as int, max2 as nat),
                n2 <= i,
            decreases n - i,
        {
            proof {
                assert(players0.subrange(0, i + 1).drop_last() =~= players0.subrange(0, i as int));
                assert(players0.subrange(0, i + 1).last() == players0[i as int]);
            }
            let h = self.players[i].shares[ci];
            if h == max2 {
                n2 = n2 + 1;
            }
            i = i + 1;
        }
        proof {
            assert(players0.subrange(0, n as int) =~= players0);
            lemma_max_holding_achieved(players0, ci as int);
            if max2 > 0 {
                lemma_max_below_achieved(players0, ci as int, max1 as nat);
            }
        }
        // per-head amounts; the division floor discards the remainder
        let maj: usize = 10 * v;
        let min_b: usize = 5 * v;
        let per1: usize = if max2 == 0 {
            (maj + min_b) / n1
        } else {
            maj / n1
        };
        let per2: usize = if max2 > 0 {
            min_b / n2
        } else {
            0
        };
        let mut p: usize = 0;
        while p < n
            invariant
                g0.wf_players(),
                players0 == g0.players@,
                n == players0.len(),
                ci == corp.index_spec(),
                ci < NUM_CORPS,
                p <= n,
                max1 as nat == max_holding(players0, ci as int),
                max1 > 0,
                max2 as nat == max_holding_below(players0, ci as int, max1 as nat),
                max2 > 0 ==> n2 == holders_at(players0, ci as int, max2 as nat) && n2 >= 1,
                n1 == holders_at(players0, ci as int, max1 as nat),
                n1 >= 1,
                per1 as nat == (if max2 == 0 {
                    (10 * vs + 5 * vs) / (n1 as nat)
                } else {
                    (10 * vs) / (n1 as nat)
                }),
                max2 > 0 ==> per2 as nat == (5 * vs) / (n2 as nat),
                max2 == 0 ==> per2 == 0,
                self.board@ == g0.board@,
                self.shares@ == g0.shares@,
                self.draw_tiles@ == g0.draw_tiles@,
                self.phase == g0.phase,
                self.finished == g0.finished,
                self.players@.len() == n,
                forall|q: int|
                    0 <= q < n ==> (#[trigger] self.players@[q]).shares@ == players0[q].shares@
                        && self.players@[q].tiles@ == players0[q].tiles@,
                forall|q: int|
                    p <= q < n ==> (#[trigger] self.players@[q]).money == players0[q].money,
                forall|q: int|
                    0 <= q < p ==> (#[trigger] self.players@[q]).money as nat == sat_add_spec(
                        players0[q].money as nat,
                        bonus_payout(players0, ci as int, vs, q),
                    ),
            decreases n - p,
        {
            let h = self.players[p].shares[ci];
            if h == max1 {
                let m2 = sat_add(self.players[p].money, per1);
                self.players[p].money = m2;
                logs.push(Log::MajorBonus { player: p, corp, amount: per1 });
            } else if max2 > 0 && h == max2 {
                let m2 = sat_add(self.players[p].money, per2);
                self.players[p].money = m2;
                logs.push(Log::MinorBonus { player: p, corp, amount: per2 });
            }
            p = p + 1;
        }
        logs
    }

    /// Commits one absorption: pays the acquisition bonuses for `from` at
    /// its size before any cell moves, then reassigns `from`'s cells to
    /// `into`, claims the merging tile, and absorbs adjacent unincorporated
    /// runs. No share moves; money only grows. Afterwards the merging tile
    /// belongs to `into`, which strictly outgrows every other corporation
    /// still adjacent to it.
    fn do_merge(&mut self, from: Corp, into: Corp, at: Loc) -> (logs: Vec<Log>)
        requires
            old(self).wf_players(),
            old(self).wf_shares(),
            old(self).wf_tiles(),
            in_grid(at),
            from != into,
            old(self).board@[loc_index(at)] == Tile::Unincorporated
                || old(self).board@[loc_index(at)] == Tile::Corp(from)
                || old(self).board@[loc_index(at)] == Tile::Corp(into),
            is_max_adj(old(self).board@, at, into),
            count_val(old(self).board@, Tile::Corp(from)) >= 1,
        ensures
            final(self).wf_players(),
            final(self).wf_shares(),
            final(self).wf_tiles(),
            final(self).players@.len() == old(self).players@.len(),
            forall|p: int|
                0 <= p < old(self).players@.len() ==> (#[trigger] final(self).players@[p]).shares@
                    == old(self).players@[p].shares@
                    && final(self).players@[p].tiles@ == old(self).players@[p].tiles@
                    && final(self).players@[p].money >= old(self).players@[p].money,
            forall|p: int|
                0 <= p < old(self).players@.len() ==> (#[trigger] final(self).players@[p]).money
                    == sat_add_spec(
                    old(self).players@[p].money as nat,
                    bonus_payout(
                        old(self).players@,
                        from.index_spec(),
                        from.value_spec(count_val(old(self).board@, Tile::Corp(from))),
                        p,
                    ),
                ),
            final(self).shares@ == old(self).shares@,
            final(self).draw_tiles@ == old(self).draw_tiles@,
            final(self).phase == old(self).phase,
            final(self).finished == old(self).finished,
            final(self).board@.len() == SIZE,
            final(self).board@[loc_index(at)] == Tile::Corp(into),
            count_val(final(self).board@, Tile::Corp(from)) == 0,
            count_val(final(self).board@, Tile::Corp(into)) >= count_val(
                old(self).board@,
                Tile::Corp(into),
            ) + 1,
            forall|d: Corp|
                d != from && d != into ==> count_val(final(self).board@, Tile::Corp(d))
                    == count_val(old(self).board@, Tile::Corp(d)),
            forall|i: int|
                0 <= i < SIZE && final(self).board@[i] != old(self).board@[i]
                    ==> final(self).board@[i] == Tile::Corp(into)
                    && (old(self).board@[i] == Tile::Corp(from)
                    || old(self).board@[i] == Tile::Unincorporated),
            forall|d: Corp|
                d != into && adj_corp(final(self).board@, at, d) ==> adj_corp(
                    old(self).board@,
                    at,
                    d,
                ) && count_val(final(self).board@, Tile::Corp(d)) < count_val(
                    final(self).board@,
                    Tile::Corp(into),
                ),
            adj_corp(final(self).board@, at, into),
    {
        let ghost g0 = *old(self);
        let ghost b0 = old(self).board@;
        let mut logs: Vec<Log> = Vec::new();
        logs.push(Log::Merging { from, into });
        let mut bonus_logs = self.pay_bonuses(from);
        logs.append(&mut bonus_logs);
        proof {
            lemma_sum_shares_pointwise(self.players@, g0.players@, 0);
            assert forall|ci: int|
                0 <= ci < NUM_CORPS implies sum_shares(self.players@, ci)
                + #[trigger] self.shares@[ci] == STARTING_SHARES by {
                lemma_sum_shares_pointwise(self.players@, g0.players@, ci);
            }
        }
        self.board.convert_corp(from, into);
        let ghost b1 = self.board@;
        let ai = at.index();
        if self.board.get_tile(ai) == Tile::Unincorporated {
            self.board.set_tile(ai, Tile::Corp(into));
        }
        let ghost b2 = self.board@;
        self.board.extend_corp(&at, into);
        proof {
            let bf = self.board@;
            let ai_ = loc_index(at);
            // bridge the set step, stated over tile_at, to plain indexing
            assert forall|i: int| 0 <= i < SIZE && i != ai_ implies b2[i] == b1[i] by {
                assert(crate::board::tile_at(b2, i) == crate::board::tile_at(b1, i));
            }
            assert(b2[ai_] == Tile::Corp(into)) by {
                if b1[ai_] == Tile::Unincorporated {
                    assert(crate::board::tile_at(b2, ai_) == Tile::Corp(into));
                }
            }
            // per-cell: every change is a cell of `from` or an
            // unincorporated cell turning into `into`
            assert forall|i: int|
                0 <= i < SIZE && bf[i] != b0[i] implies bf[i] == Tile::Corp(into) && (b0[i]
                == Tile::Corp(from) || b0[i] == Tile::Unincorporated) by {
                if bf[i] != b2[i] {
                    if i != ai_ {
                        assert(b2[i] == Tile::Unincorporated);
                        assert(b1[i] == Tile::Unincorporated);
                        assert(b0[i] == Tile::Unincorporated);
                    }
                } else {
                    if i == ai_ {
                        assert(b2[i] == Tile::Corp(into));
                    } else {
                        assert(b2[i] == b1[i]);
                        assert(b1[i] != b0[i]);
                        assert(b0[i] == Tile::Corp(from));
                    }
                }
            }
            // size accounting across the three steps
            assert(count_val(b1, Tile::Corp(into)) == count_val(b0, Tile::Corp(into)) + count_val(
                b0,
                Tile::Corp(from),
            ));
            assert(count_val(bf, Tile::Corp(into)) >= count_val(b2, Tile::Corp(into)));
            assert(count_val(b2, Tile::Corp(into)) >= count_val(b0, Tile::Corp(into)) + 1);
            // the old witness for `into`'s adjacency survives
            let l2 = choose|l2: Loc|
                in_grid(l2) && #[trigger] crate::board::adjacent(at, l2) && crate::board::tile_at(
                    b0,
                    loc_index(l2),
                ) == Tile::Corp(into);
            assert(bf[loc_index(l2)] == Tile::Corp(into));
            assert(crate::board::tile_at(bf, loc_index(l2)) == Tile::Corp(into));
            assert(adj_corp(bf, at, into));
            // `into` strictly outgrew every other corporation still adjacent
            assert forall|d: Corp|
                d != into && adj_corp(bf, at, d) implies adj_corp(b0, at, d) && count_val(
                bf,
                Tile::Corp(d),
            ) < count_val(bf, Tile::Corp(into)) by {
                let ld = choose|ld: Loc|
                    in_grid(ld) && #[trigger] crate::board::adjacent(at, ld)
                        && crate::board::tile_at(bf, loc_index(ld)) == Tile::Corp(d);
                assert(b0[loc_index(ld)] == Tile::Corp(d));
                assert(crate::board::tile_at(b0, loc_index(ld)) == Tile::Corp(d));
                assert(adj_corp(b0, at, d));
                if d == from {
                    crate::board::lemma_count_zero(bf, Tile::Corp(from));
                    assert(false);
                }
            }
            // the board only reassigned occupied or unincorporated cells,
            // so every unplayed tile still lies over an empty cell
            assert forall|l: Loc| g0.tile_ok(l) implies self.tile_ok(l) by {
                if bf[loc_index(l)] != b0[loc_index(l)] {
                }
            }
        }
        logs
    }

    /// Drives merger resolution forward after a disposition or an
    /// absorption: hands the dissolved corporation's remaining shareholders
    /// the turn one by one in seat order from the triggering player, and
    /// when all have acted, absorbs the next candidate automatically when
    /// it is unambiguous, asks the triggering player to choose when it is
    /// not, and resumes the triggering player's buy phase when no
    /// candidates remain. When a shareholder is still to act, only the
    /// phase moves, to the seat [`next_holder`] names; when none is and no
    /// two corporations remain adjacent, only the phase moves, back to the
    /// triggering player's buy phase. Cells change only by further
    /// absorptions, all into the corporation holding the merging tile.
    fn continue_merger(&mut self, turn_player: usize, at: Loc, corp: Corp, start_off: usize) -> (logs:
        Vec<Log>)
        requires
            old(self).wf_players(),
            old(self).wf_shares(),
            old(self).wf_tiles(),
            turn_player < old(self).players@.len(),
            in_grid(at),
            merge_site_ok(old(self).board@, at),
        ensures
            final(self).wf_players(),
            final(self).wf_shares(),
            final(self).wf_tiles(),
            final(self).wf_phase(),
            final(self).players@.len() == old(self).players@.len(),
            forall|p: int|
                0 <= p < old(self).players@.len() ==> (#[trigger] final(self).players@[p]).shares@
                    == old(self).players@[p].shares@
                    && final(self).players@[p].tiles@ == old(self).players@[p].tiles@
                    && final(self).players@[p].money >= old(self).players@[p].money,
            final(self).shares@ == old(self).shares@,
            final(self).draw_tiles@ == old(self).draw_tiles@,
            final(self).finished == old(self).finished,
            final(self).board@.len() == SIZE,
            forall|i: int|
                0 <= i < SIZE && final(self).board@[i] != old(self).board@[i]
                    ==> final(self).board@[i] is Corp && (old(self).board@[i] is Corp || old(self).board@[i] == Tile::Unincorporated),
            forall|i: int|
                0 <= i < SIZE && final(self).board@[i] != old(self).board@[i]
                    ==> final(self).board@[i] == old(self).board@[loc_index(at)],
            forall|c: Corp|
                #[trigger] count_val(old(self).board@, Tile::Corp(c)) == 0 ==> count_val(
                    final(self).board@,
                    Tile::Corp(c),
                ) == 0,
            next_holder(
                old(self).players@,
                corp.index_spec(),
                turn_player as int,
                start_off as int,
            ) matches Some(off) ==> *final(self) == (Game {
                phase: Phase::SellOrTrade {
                    player: (((turn_player + off) % (old(self).players@.len() as int))) as usize,
                    corp,
                    at,
                    turn_player,
                },
                ..*old(self)
            }),
            next_holder(
                old(self).players@,
                corp.index_spec(),
                turn_player as int,
                start_off as int,
            ) is None && !multi_adj_corp(old(self).board@, at) ==> *final(self) == (Game {
                phase: Phase::Buy { player: turn_player, remaining: 3 },
                ..*old(self)
            }),
            match final(self).phase {
                Phase::SellOrTrade { at: a2, turn_player: t2, .. } => a2 == at && t2 == turn_player,
                Phase::Buy { player, remaining } => player == turn_player && remaining == 3,
                Phase::ChooseMerger { player, at: a2 } => player == turn_player && a2 == at,
                _ => false,
            },
    {
        let ghost g0 = *old(self);
        let ghost corp0 = corp;
        let mut logs: Vec<Log> = Vec::new();
        let mut off = start_off;
        let n = self.players.len();
        if off > n {
            off = n;
        }
        let ci0 = corp.index();
        // first, the dissolved corporation's remaining shareholders act
        while off < n
            invariant
                g0 == *old(self),
                *self == g0,
                g0.wf_players(),
                g0.wf_shares(),
                g0.wf_tiles(),
                merge_site_ok(g0.board@, at),
                n == g0.players@.len(),
                turn_player < n,
                off <= n,
                ci0 == corp0.index_spec(),
                corp == corp0,
                in_grid(at),
                next_holder(g0.players@, ci0 as int, turn_player as int, start_off as int)
                    == next_holder(g0.players@, ci0 as int, turn_player as int, off as int),
            decreases n - off,
        {
            let q = (turn_player + off) % n;
            if self.players[q].shares[ci0] > 0 {
                proof {
                    assert(next_holder(g0.players@, ci0 as int, turn_player as int, off as int)
                        == Some(off as int));
                }
                self.phase = Phase::SellOrTrade { player: q, corp, at, turn_player };
                return logs;
            }
            off = off + 1;
        }
        proof {
            assert(next_holder(g0.players@, ci0 as int, turn_player as int, start_off as int)
                is None);
        }
        // every shareholder has acted; is a further absorption due?
        let (fs, is) = self.board.merge_candidates(&at);
        if fs.len() == 0 {
            self.phase = Phase::Buy { player: turn_player, remaining: 3 };
            return logs;
        }
        proof {
            assert(multi_adj_corp(g0.board@, at));
        }
        let auto0 = fs.len() == 1 && is.len() == 1 && fs[0] != is[0];
        if !auto0 {
            self.phase = Phase::ChooseMerger { player: turn_player, at };
            return logs;
        }
        let mut pending_from = fs[0];
        let mut pending_into = is[0];
        proof {
            let ghost fs = fs@;
            let ghost is = is@;
                let b = self.board@;
                assert(fs.contains(pending_from));
                assert(is.contains(pending_into));
                assert(is_strict_sub(b, at, pending_from)) by {
                    if !(exists|c: Corp| is_strict_sub(b, at, c)) {
                        assert(fs == is);
                        assert(is.contains(pending_from));
                        assert(is_max_adj(b, at, pending_from));
                        assert(is_max_adj(b, at, pending_into));
                        let x = b[loc_index(at)]->Corp_0;
                        assert(b[loc_index(at)] == Tile::Corp(x));
                        if pending_from != x {
                            assert(count_val(b, Tile::Corp(pending_from)) < count_val(
                                b,
                                Tile::Corp(x),
                            ));
                        }
                        if pending_into != x {
                            assert(count_val(b, Tile::Corp(pending_into)) < count_val(
                                b,
                                Tile::Corp(x),
                            ));
                        }
                        assert(false);
                    }
                }
                assert(is_max_adj(b, at, pending_into));
                let lf = choose|lf: Loc|
                    in_grid(lf) && #[trigger] crate::board::adjacent(at, lf)
                        && crate::board::tile_at(b, loc_index(lf)) == Tile::Corp(pending_from);
                if count_val(b, Tile::Corp(pending_from)) == 0 {
                    crate::board::lemma_count_zero(b, Tile::Corp(pending_from));
                    assert(false);
                }
                // the merging tile holds the unique largest adjacent corp
                let x = b[loc_index(at)]->Corp_0;
                assert(b[loc_index(at)] == Tile::Corp(x));
                if x != pending_into {
                    assert(adj_corp(b, at, x));
                    assert(count_val(b, Tile::Corp(x)) < count_val(b, Tile::Corp(x)));
                    assert(false);
                }
        }
        loop
            invariant
                g0 == *old(self),
                g0.wf_players(),
                g0.wf_shares(),
                g0.wf_tiles(),
                self.wf_players(),
                self.wf_shares(),
                self.wf_tiles(),
                n == self.players@.len(),
                n == g0.players@.len(),
                turn_player < n,
                in_grid(at),
                self.board@.len() == SIZE,
                merge_site_ok(self.board@, at),
                multi_adj_corp(g0.board@, at),
                next_holder(g0.players@, corp0.index_spec(), turn_player as int, start_off as int)
                    is None,
                corp == corp0,
                self.board@[loc_index(at)] == g0.board@[loc_index(at)],
                forall|p: int|
                    0 <= p < n ==> (#[trigger] self.players@[p]).shares@ == g0.players@[p].shares@
                        && self.players@[p].tiles@ == g0.players@[p].tiles@
                        && self.players@[p].money >= g0.players@[p].money,
                self.shares@ == g0.shares@,
                self.draw_tiles@ == g0.draw_tiles@,
                self.finished == g0.finished,
                forall|i: int|
                    0 <= i < SIZE && self.board@[i] != g0.board@[i] ==> self.board@[i] is Corp && (
                    g0.board@[i] is Corp || g0.board@[i] == Tile::Unincorporated),
                forall|i: int|
                    0 <= i < SIZE && self.board@[i] != g0.board@[i] ==> self.board@[i]
                        == g0.board@[loc_index(at)],
                forall|c: Corp|
                    #[trigger] count_val(g0.board@, Tile::Corp(c)) == 0 ==> count_val(
                        self.board@,
                        Tile::Corp(c),
                    ) == 0,
                // the pending pair is the single unambiguous candidate
                is_strict_sub(self.board@, at, pending_from),
                is_max_adj(self.board@, at, pending_into),
                pending_from != pending_into,
                count_val(self.board@, Tile::Corp(pending_from)) >= 1,
                self.board@[loc_index(at)] == Tile::Corp(pending_into),
            decreases crate::board::n_active(self.board@, NUM_CORPS as int),
        {
            let f0 = pending_from;
            let i0 = pending_into;
            let ghost b_pre = self.board@;
            let mut ml = self.do_merge(f0, i0, at);
            logs.append(&mut ml);
            proof {
                // one fewer corporation is active: the loop may come around
                assert forall|c: Corp|
                    count_val(self.board@, Tile::Corp(c)) >= 1 implies #[trigger] count_val(
                    b_pre,
                    Tile::Corp(c),
                ) >= 1 by {
                    if c == f0 {
                    } else if c != i0 {
                    } else {
                        let lw = choose|lw: Loc|
                            in_grid(lw) && #[trigger] crate::board::adjacent(at, lw)
                                && crate::board::tile_at(b_pre, loc_index(lw)) == Tile::Corp(i0);
                        if count_val(b_pre, Tile::Corp(i0)) == 0 {
                            crate::board::lemma_count_zero(b_pre, Tile::Corp(i0));
                            assert(false);
                        }
                    }
                }
                crate::board::lemma_n_active_lt(b_pre, self.board@, f0, NUM_CORPS as int);
                assert forall|c: Corp|
                    #[trigger] count_val(g0.board@, Tile::Corp(c)) == 0 implies count_val(
                    self.board@,
                    Tile::Corp(c),
                ) == 0 by {
                    if c != i0 && c != f0 {
                    } else if c == f0 {
                    } else {
                        assert(count_val(b_pre, Tile::Corp(i0)) >= 1);
                    }
                }
            }
            let dcorp = f0;
            let ci = dcorp.index();
            let ghost b_after = self.board@;
            // the dissolved corporation's shareholders act, in seat order
            let mut off: usize = 0;
            while off < n
                invariant
                g0 == *old(self),
                g0.wf_players(),
                g0.wf_shares(),
                g0.wf_tiles(),
                self.wf_players(),
                self.wf_shares(),
                self.wf_tiles(),
                n == self.players@.len(),
                n == g0.players@.len(),
                turn_player < n,
                in_grid(at),
                self.board@.len() == SIZE,
                merge_site_ok(self.board@, at),
                multi_adj_corp(g0.board@, at),
                next_holder(g0.players@, corp0.index_spec(), turn_player as int, start_off as int)
                    is None,
                corp == corp0,
                self.board@[loc_index(at)] == g0.board@[loc_index(at)],
                forall|p: int|
                    0 <= p < n ==> (#[trigger] self.players@[p]).shares@ == g0.players@[p].shares@
                        && self.players@[p].tiles@ == g0.players@[p].tiles@
                        && self.players@[p].money >= g0.players@[p].money,
                self.shares@ == g0.shares@,
                self.draw_tiles@ == g0.draw_tiles@,
                self.finished == g0.finished,
                forall|i: int|
                    0 <= i < SIZE && self.board@[i] != g0.board@[i] ==> self.board@[i] is Corp && (
                    g0.board@[i] is Corp || g0.board@[i] == Tile::Unincorporated),
                forall|i: int|
                    0 <= i < SIZE && self.board@[i] != g0.board@[i] ==> self.board@[i]
                        == g0.board@[loc_index(at)],
                forall|c: Corp|
                    #[trigger] count_val(g0.board@, Tile::Corp(c)) == 0 ==> count_val(
                        self.board@,
                        Tile::Corp(c),
                    ) == 0,
                    off <= n,
                    ci < NUM_CORPS,
                    self.board@ == b_after,
                    crate::board::n_active(b_after, NUM_CORPS as int) < crate::board::n_active(
                        b_pre,
                        NUM_CORPS as int,
                    ),
                decreases n - off,
            {
                let q = (turn_player + off) % n;
                if self.players[q].shares[ci] > 0 {
                    self.phase = Phase::SellOrTrade { player: q, corp: dcorp, at, turn_player };
                    return logs;
                }
                off = off + 1;
            }
            // nobody holds shares: look for the next absorption
            let (fs, is) = self.board.merge_candidates(&at);
            if fs.len() == 0 {
                self.phase = Phase::Buy { player: turn_player, remaining: 3 };
                return logs;
            }
            let auto = fs.len() == 1 && is.len() == 1 && fs[0] != is[0];
            if !auto {
                self.phase = Phase::ChooseMerger { player: turn_player, at };
                return logs;
            }
            pending_from = fs[0];
            pending_into = is[0];
            proof {
                let ghost fs = fs@;
                let ghost is = is@;
                    let b = self.board@;
                    assert(fs.contains(pending_from));
                    assert(is.contains(pending_into));
                    assert(is_strict_sub(b, at, pending_from)) by {
                        if !(exists|c: Corp| is_strict_sub(b, at, c)) {
                            assert(fs == is);
                            assert(is.contains(pending_from));
                            assert(is_max_adj(b, at, pending_from));
                            assert(is_max_adj(b, at, pending_into));
                            let x = b[loc_index(at)]->Corp_0;
                            assert(b[loc_index(at)] == Tile::Corp(x));
                            if pending_from != x {
                                assert(count_val(b, Tile::Corp(pending_from)) < count_val(
                                        b,
                                        Tile::Corp(x),
                                ));
                            }
                            if pending_into != x {
                                assert(count_val(b, Tile::Corp(pending_into)) < count_val(
                                        b,
                                        Tile::Corp(x),
                                ));
                            }
                            assert(false);
                        }
                    }
                    assert(is_max_adj(b, at, pending_into));
                    let lf = choose|lf: Loc|
                        in_grid(lf) && #[trigger] crate::board::adjacent(at, lf)
                            && crate::board::tile_at(b, loc_index(lf)) == Tile::Corp(pending_from);
                    if count_val(b, Tile::Corp(pending_from)) == 0 {
                        crate::board::lemma_count_zero(b, Tile::Corp(pending_from));
                        assert(false);
                    }
                    // the merging tile holds the unique largest adjacent corp
                    let x = b[loc_index(at)]->Corp_0;
                    assert(b[loc_index(at)] == Tile::Corp(x));
                    if x != pending_into {
                        assert(adj_corp(b, at, x));
                        assert(count_val(b, Tile::Corp(x)) < count_val(b, Tile::Corp(x)));
                        assert(false);
                    }
            }
        }
    }

    /// Resolves the chosen merger: validates both corporations against the
    /// candidate sets at the merging tile, pays `from`'s bonuses at its
    /// size before absorption, reassigns its cells to `into`, and hands the
    /// turn to `from`'s shareholders in seat order. No shares move: across
    /// the merge, every player's holdings and every pool stay exactly as
    /// they were, only board cells change owner.
    pub fn merge(&mut self, player: usize, from: &Corp, into: &Corp) -> (r: Result<
        Vec<Log>,
        GameError,
    >)
        requires
            old(self).wf(),
        ensures
            final(self).wf(),
            r is Err ==> *final(self) == *old(self),
            old(self).finished ==> r == Err::<Vec<Log>, GameError>(GameError::Finished),
            !old(self).finished && player != old(self).phase.whose_turn_spec() ==> r == Err::<
                Vec<Log>,
                GameError,
            >(GameError::NotYourTurn),
            !old(self).finished && player == old(self).phase.whose_turn_spec() && !(old(self).phase is ChooseMerger) ==> r == Err::<Vec<Log>, GameError>(GameError::WrongPhase),
            !old(self).finished && player == old(self).phase.whose_turn_spec() && old(self).phase is ChooseMerger && from == into ==> r == Err::<Vec<Log>, GameError>(
                GameError::SameCorp,
            ),
            old(self).phase matches Phase::ChooseMerger { at, .. } ==> {
                let ok_pre = !old(self).finished && player == old(self).phase.whose_turn_spec()
                    && from != into;
                &&& (ok_pre && !multi_adj_corp(old(self).board@, at) ==> r == Err::<
                    Vec<Log>,
                    GameError,
                >(GameError::NoMergeCandidates))
                &&& (ok_pre && multi_adj_corp(old(self).board@, at) && !valid_merge_from(
                    old(self).board@,
                    at,
                    *from,
                ) ==> r == Err::<Vec<Log>, GameError>(GameError::InvalidMergeFrom))
                &&& (ok_pre && multi_adj_corp(old(self).board@, at) && valid_merge_from(
                    old(self).board@,
                    at,
                    *from,
                ) && !is_max_adj(old(self).board@, at, *into) ==> r == Err::<Vec<Log>, GameError>(
                    GameError::InvalidMergeInto,
                ))
                &&& ((r is Ok) == (ok_pre && multi_adj_corp(old(self).board@, at)
                    && valid_merge_from(old(self).board@, at, *from) && is_max_adj(
                    old(self).board@,
                    at,
                    *into,
                )))
            },
            r is Ok ==> {
                &&& final(self).players@.len() == old(self).players@.len()
                &&& forall|p: int|
                    0 <= p < old(self).players@.len() ==> (
                    #[trigger] final(self).players@[p]).shares@ == old(self).players@[p].shares@
                        && final(self).players@[p].tiles@ == old(self).players@[p].tiles@
                        && final(self).players@[p].money >= old(self).players@[p].money
                &&& final(self).shares@ == old(self).shares@
                &&& final(self).draw_tiles@ == old(self).draw_tiles@
                &&& final(self).finished == old(self).finished
                &&& count_val(final(self).board@, Tile::Corp(*from)) == 0
                &&& count_val(final(self).board@, Tile::Corp(*into)) >= count_val(
                    old(self).board@,
                    Tile::Corp(*into),
                ) + 1
                &&& final(self).board@.len() == SIZE
                &&& forall|i: int|
                    0 <= i < SIZE && #[trigger] final(self).board@[i] != old(self).board@[i]
                        ==> final(self).board@[i] == Tile::Corp(*into)
                &&& forall|p: int|
                    0 <= p < old(self).players@.len() ==> (#[trigger] final(self).players@[p]).money
                        >= sat_add_spec(
                        old(self).players@[p].money as nat,
                        bonus_payout(
                            old(self).players@,
                            from.index_spec(),
                            from.value_spec(count_val(old(self).board@, Tile::Corp(*from))),
                            p,
                        ),
                    )
            },
            r is Ok ==> (old(self).phase matches Phase::ChooseMerger { at, .. } && (next_holder(
                old(self).players@,
                from.index_spec(),
                player as int,
                0,
            ) matches Some(off) ==> {
                let np = old(self).players@.len() as int;
                &&& final(self).phase == (Phase::SellOrTrade {
                    player: ((player + off) % np) as usize,
                    corp: *from,
                    at,
                    turn_player: player,
                })
                &&& forall|p: int|
                    0 <= p < old(self).players@.len() ==> (#[trigger] final(self).players@[p]).money
                        == sat_add_spec(
                        old(self).players@[p].money as nat,
                        bonus_payout(
                            old(self).players@,
                            from.index_spec(),
                            from.value_spec(count_val(old(self).board@, Tile::Corp(*from))),
                            p,
                        ),
                    )
            })),
    {
        if self.finished {
            return Err(GameError::Finished);
        }
        if player != self.phase.whose_turn() {
            return Err(GameError::NotYourTurn);
        }
        let at = match self.phase {
            Phase::ChooseMerger { at, .. } => at,
            _ => {
                return Err(GameError::WrongPhase);
            },
        };
        if *from == *into {
            return Err(GameError::SameCorp);
        }
        let (from_candidates, into_candidates) = self.board.merge_candidates(&at);
        if from_candidates.len() == 0 || into_candidates.len() == 0 {
            proof {
                if multi_adj_corp(self.board@, at) {
                    let (c, d) = choose|c: Corp, d: Corp|
                        c != d && adj_corp(self.board@, at, c) && adj_corp(self.board@, at, d);
                    assert(exists|e: Corp| adj_corp(self.board@, at, e));
                    assert(false);
                }
            }
            return Err(GameError::NoMergeCandidates);
        }
        proof {
            assert(multi_adj_corp(self.board@, at));
            assert(from_candidates@.contains(from_candidates@[0]));
        }
        if !crate::board::contains_corp(&from_candidates, *from) {
            proof {
                if exists|c: Corp| is_strict_sub(self.board@, at, c) {
                    assert(!is_strict_sub(self.board@, at, *from));
                } else {
                    assert(from_candidates@ == into_candidates@);
                    assert(!is_max_adj(self.board@, at, *from));
                }
                assert(!valid_merge_from(self.board@, at, *from));
            }
            return Err(GameError::InvalidMergeFrom);
        }
        proof {
            assert(valid_merge_from(self.board@, at, *from)) by {
                if exists|c: Corp| is_strict_sub(self.board@, at, c) {
                    assert(is_strict_sub(self.board@, at, *from));
                } else {
                    assert(from_candidates@ == into_candidates@);
                    assert(is_max_adj(self.board@, at, *from));
                }
            }
        }
        if !crate::board::contains_corp(&into_candidates, *into) {
            return Err(GameError::InvalidMergeInto);
        }
        proof {
            // the chosen pair is adjacent at the merging tile, `into` of
            // greatest size and `from` occupying at least one cell
            assert(is_max_adj(self.board@, at, *into));
            assert(adj_corp(self.board@, at, *from)) by {
                if from_candidates@.contains(*from) {
                }
            }
            let lf = choose|lf: Loc|
                in_grid(lf) && #[trigger] crate::board::adjacent(at, lf) && crate::board::tile_at(
                    self.board@,
                    loc_index(lf),
                ) == Tile::Corp(*from);
            if count_val(self.board@, Tile::Corp(*from)) == 0 {
                crate::board::lemma_count_zero(self.board@, Tile::Corp(*from));
                assert(false);
            }
            // the merging tile is unincorporated, or already owned by the
            // unique largest adjacent corporation, which must be `into`
            if self.board@[loc_index(at)] != Tile::Unincorporated {
                let x = self.board@[loc_index(at)]->Corp_0;
                assert(self.board@[loc_index(at)] == Tile::Corp(x));
                if x != *into {
                    assert(adj_corp(self.board@, at, x));
                    assert(count_val(self.board@, Tile::Corp(*into)) < count_val(
                        self.board@,
                        Tile::Corp(x),
                    ));
                    assert(count_val(self.board@, Tile::Corp(x)) <= count_val(
                        self.board@,
                        Tile::Corp(*into),
                    ));
                    assert(false);
                }
            }
        }
        let mut logs = self.do_merge(*from, *into, at);
        let ghost g_mid = *self;
        proof {
            lemma_next_holder_shares(
                g_mid.players@,
                old(self).players@,
                from.index_spec(),
                player as int,
                0,
            );
        }
        let mut more = self.continue_merger(player, at, *from, 0);
        logs.append(&mut more);
        proof {
            assert(g_mid.board@[loc_index(at)] == Tile::Corp(*into));
            assert forall|j: int|
                0 <= j < SIZE implies self.board@[j] == g_mid.board@[j] || self.board@[j]
                == Tile::Corp(*into) by {
                if self.board@[j] != g_mid.board@[j] {
                }
            }
            crate::board::lemma_count_monotone(g_mid.board@, self.board@, Tile::Corp(*into));
        }
        Ok(logs)
    }

    /// Sells shares of the corporation being dissolved back to its pool at
    /// its current per-share value, then passes the turn to the next
    /// shareholder. Whatever is not sold or traded stays kept.
    pub fn sell(&mut self, player: usize, n: usize) -> (r: Result<Vec<Log>, GameError>)
        requires
            old(self).wf(),
        ensures
            final(self).wf(),
            r is Err ==> *final(self) == *old(self),
            old(self).finished ==> r == Err::<Vec<Log>, GameError>(GameError::Finished),
            !old(self).finished && player != old(self).phase.whose_turn_spec() ==> r == Err::<
                Vec<Log>,
                GameError,
            >(GameError::NotYourTurn),
            !old(self).finished && player == old(self).phase.whose_turn_spec() && !(old(self).phase is SellOrTrade) ==> r == Err::<Vec<Log>, GameError>(GameError::WrongPhase),
            (r is Ok) == (!old(self).finished && player == old(self).phase.whose_turn_spec() && (
            old(self).phase matches Phase::SellOrTrade { corp, .. } && 1 <= n <= old(
                self,
            ).players@[player as int].shares@[corp.index_spec()])),
            r is Ok ==> (old(self).phase matches Phase::SellOrTrade { player: sp, corp, .. }
                && sp == player && n >= 1 && n <= old(self).players@[player as int].shares@[corp.index_spec()]
                && {
                &&& final(self).players@[player as int].shares@
                    == old(self).players@[player as int].shares@.update(
                    corp.index_spec(),
                    (old(self).players@[player as int].shares@[corp.index_spec()] - n) as usize,
                )
                &&& final(self).players@[player as int].money >= sat_add_spec(
                    old(self).players@[player as int].money as nat,
                    (corp.value_spec(count_val(old(self).board@, Tile::Corp(corp))) * n) as nat,
                )
                &&& final(self).shares@ == old(self).shares@.update(
                    corp.index_spec(),
                    (old(self).shares@[corp.index_spec()] + n) as usize,
                )
                &&& final(self).draw_tiles@ == old(self).draw_tiles@
                &&& final(self).finished == old(self).finished
            }),
            r is Ok ==> (old(self).phase matches Phase::SellOrTrade { player: sp, corp, at, turn_player }
                && {
                let np = old(self).players@.len() as int;
                let off0 = ((sp + np - turn_player) as int % np) + 1;
                &&& final(self).players@.len() == old(self).players@.len()
                &&& (forall|p: int|
                    0 <= p < old(self).players@.len() && p != player ==> (
                    #[trigger] final(self).players@[p]).shares@ == old(self).players@[p].shares@
                        && final(self).players@[p].tiles@ == old(self).players@[p].tiles@
                        && final(self).players@[p].money >= old(self).players@[p].money)
                &&& final(self).players@[player as int].tiles@ == old(self).players@[player as int].tiles@
                &&& (next_holder(old(self).players@, corp.index_spec(), turn_player as int, off0)
                    matches Some(off) ==> final(self).phase == (Phase::SellOrTrade {
                    player: ((turn_player + off) % np) as usize,
                    corp,
                    at,
                    turn_player,
                }) && final(self).board@ == old(self).board@
                    && final(self).players@[player as int].money == sat_add_spec(
                    old(self).players@[player as int].money as nat,
                    (corp.value_spec(count_val(old(self).board@, Tile::Corp(corp))) * n) as nat,
                ))
                &&& (next_holder(old(self).players@, corp.index_spec(), turn_player as int, off0)
                    is None && !multi_adj_corp(old(self).board@, at) ==> final(self).phase
                    == (Phase::Buy { player: turn_player, remaining: 3 }) && final(self).board@
                    == old(self).board@ && final(self).players@[player as int].money
                    == sat_add_spec(
                    old(self).players@[player as int].money as nat,
                    (corp.value_spec(count_val(old(self).board@, Tile::Corp(corp))) * n) as nat,
                ))
                &&& match final(self).phase {
                    Phase::SellOrTrade { at: a2, turn_player: t2, .. } => a2 == at && t2
                        == turn_player,
                    Phase::Buy { player: p2, remaining } => p2 == turn_player && remaining == 3,
                    Phase::ChooseMerger { player: p2, at: a2 } => p2 == turn_player && a2 == at,
                    _ => false,
                }
            }),
    {
        if self.finished {
            return Err(GameError::Finished);
        }
        if player != self.phase.whose_turn() {
            return Err(GameError::NotYourTurn);
        }
        let (sp, corp, at, turn_player) = match self.phase {
            Phase::SellOrTrade { player: sp, corp, at, turn_player } => (sp, corp, at, turn_player),
            _ => {
                return Err(GameError::WrongPhase);
            },
        };
        if n == 0 {
            return Err(GameError::ZeroShares);
        }
        let ci = corp.index();
        let owned = self.players[player].shares[ci];
        proof {
            lemma_sum_shares_bound(self.players@, player as int, ci as int);
            assert(sum_shares(self.players@, ci as int) + self.shares@[ci as int]
                == STARTING_SHARES);
        }
        if n > owned {
            return Err(GameError::NotEnoughOwnShares { owned });
        }
        let size = self.board.corp_size(corp);
        let value = corp.value(size);
        proof {
            assert(value * n <= 30000) by (nonlinear_arith)
                requires
                    value <= 1200,
                    n <= 25,
            ;
        }
        let amount = value * n;
        let ghost g0 = *self;
        let m2 = sat_add(self.players[player].money, amount);
        self.players[player].money = m2;
        let s2 = owned - n;
        self.players[player].shares[ci] = s2;
        let p2 = self.shares[ci] + n;
        self.shares[ci] = p2;
        proof {
            // the pool gains exactly what the player gives up
            assert(self.players@ =~= g0.players@.update(
                player as int,
                self.players@[player as int],
            ));
            assert forall|cj: int|
                0 <= cj < NUM_CORPS implies sum_shares(self.players@, cj)
                + #[trigger] self.shares@[cj] == STARTING_SHARES by {
                lemma_sum_shares_update(
                    g0.players@,
                    player as int,
                    self.players@[player as int],
                    cj,
                );
            }
        }
        let mut logs: Vec<Log> = Vec::new();
        logs.push(Log::Sold { player, n, corp, amount });
        let n_players = self.players.len();
        let off = (player + n_players - turn_player) % n_players;
        let ghost g_mid = *self;
        proof {
            lemma_next_holder_except(
                g_mid.players@,
                g0.players@,
                corp.index_spec(),
                turn_player as int,
                off + 1,
                player as int,
            );
        }
        let mut more = self.continue_merger(turn_player, at, corp, off + 1);
        logs.append(&mut more);
        Ok(logs)
    }

    /// Trades shares of the dissolved corporation into the surviving one,
    /// two for one, bounded by the surviving pool, then passes the turn to
    /// the next shareholder.
    pub fn trade(&mut self, player: usize, n: usize) -> (r: Result<Vec<Log>, GameError>)
        requires
            old(self).wf(),
        ensures
            final(self).wf(),
            r is Err ==> *final(self) == *old(self),
            old(self).finished ==> r == Err::<Vec<Log>, GameError>(GameError::Finished),
            !old(self).finished && player != old(self).phase.whose_turn_spec() ==> r == Err::<
                Vec<Log>,
                GameError,
            >(GameError::NotYourTurn),
            !old(self).finished && player == old(self).phase.whose_turn_spec() && !(old(self).phase is SellOrTrade) ==> r == Err::<Vec<Log>, GameError>(GameError::WrongPhase),
            (r is Ok) == (!old(self).finished && player == old(self).phase.whose_turn_spec() && (
            old(self).phase matches Phase::SellOrTrade { corp, at, .. } && 1 <= n && n % 2 == 0 && n
                <= old(self).players@[player as int].shares@[corp.index_spec()] && (old(
                self,
            ).board@[loc_index(at)] matches Tile::Corp(into) && n / 2 <= old(
                self,
            ).shares@[into.index_spec()]))),
            r is Ok ==> (old(self).phase matches Phase::SellOrTrade { player: sp, corp, at, .. }
                && sp == player && n >= 2 && n % 2 == 0 && (old(self).board@[loc_index(at)] matches
                Tile::Corp(into) && {
                &&& final(self).players@[player as int].shares@[corp.index_spec()] == old(self).players@[player as int].shares@[corp.index_spec()] - n
                &&& corp.index_spec() != into.index_spec() ==> final(self).players@[player as int].shares@[into.index_spec()] == old(self).players@[player as int].shares@[into.index_spec()] + n / 2
                &&& final(self).players@[player as int].money >= old(self).players@[player as int].money
                &&& final(self).shares@[corp.index_spec()] == old(self).shares@[corp.index_spec()] + n
                &&& corp.index_spec() != into.index_spec() ==> final(self).shares@[into.index_spec()] == old(self).shares@[into.index_spec()] - n / 2
                &&& final(self).draw_tiles@ == old(self).draw_tiles@
                &&& final(self).finished == old(self).finished
            })),
            r is Ok ==> (old(self).phase matches Phase::SellOrTrade { player: sp, corp, at, turn_player }
                && {
                let np = old(self).players@.len() as int;
                let off0 = ((sp + np - turn_player) as int % np) + 1;
                &&& final(self).players@.len() == old(self).players@.len()
                &&& (forall|p: int|
                    0 <= p < old(self).players@.len() && p != player ==> (
                    #[trigger] final(self).players@[p]).shares@ == old(self).players@[p].shares@
                        && final(self).players@[p].tiles@ == old(self).players@[p].tiles@
                        && final(self).players@[p].money >= old(self).players@[p].money)
                &&& final(self).players@[player as int].tiles@ == old(self).players@[player as int].tiles@
                &&& (next_holder(old(self).players@, corp.index_spec(), turn_player as int, off0)
                    matches Some(off) ==> final(self).phase == (Phase::SellOrTrade {
                    player: ((turn_player + off) % np) as usize,
                    corp,
                    at,
                    turn_player,
                }) && final(self).board@ == old(self).board@
                    && final(self).players@[player as int].money == old(self).players@[player as int].money)
                &&& (next_holder(old(self).players@, corp.index_spec(), turn_player as int, off0)
                    is None && !multi_adj_corp(old(self).board@, at) ==> final(self).phase
                    == (Phase::Buy { player: turn_player, remaining: 3 }) && final(self).board@
                    == old(self).board@ && final(self).players@[player as int].money == old(self).players@[player as int].money)
                &&& match final(self).phase {
                    Phase::SellOrTrade { at: a2, turn_player: t2, .. } => a2 == at && t2
                        == turn_player,
                    Phase::Buy { player: p2, remaining } => p2 == turn_player && remaining == 3,
                    Phase::ChooseMerger { player: p2, at: a2 } => p2 == turn_player && a2 == at,
                    _ => false,
                }
            }),
    {
        if self.finished {
            return Err(GameError::Finished);
        }
        if player != self.phase.whose_turn() {
            return Err(GameError::NotYourTurn);
        }
        let (sp, corp, at, turn_player) = match self.phase {
            Phase::SellOrTrade { player: sp, corp, at, turn_player } => (sp, corp, at, turn_player),
            _ => {
                return Err(GameError::WrongPhase);
            },
        };
        if n == 0 {
            return Err(GameError::ZeroShares);
        }
        if n % 2 != 0 {
            return Err(GameError::TradeOdd);
        }
        let ci = corp.index();
        let owned = self.players[player].shares[ci];
        proof {
            lemma_sum_shares_bound(self.players@, player as int, ci as int);
            assert(sum_shares(self.players@, ci as int) + self.shares@[ci as int]
                == STARTING_SHARES);
        }
        if n > owned {
            return Err(GameError::NotEnoughOwnShares { owned });
        }
        // the surviving corporation owns the merging tile
        let into = match self.board.get_tile(at.index()) {
            Tile::Corp(c) => c,
            _ => {
                proof {
                    assert(false);
                }
                return Err(GameError::NoMergeCandidates);
            },
        };
        let ii = into.index();
        let available = self.shares[ii];
        if n / 2 > available {
            return Err(GameError::NotEnoughShares { available });
        }
        let ghost g0 = *self;
        let s2 = owned - n;
        self.players[player].shares[ci] = s2;
        let p2 = self.shares[ci] + n;
        self.shares[ci] = p2;
        let ghost g1 = *self;
        proof {
            assert(self.players@ =~= g0.players@.update(
                player as int,
                self.players@[player as int],
            ));
            assert forall|cj: int|
                0 <= cj < NUM_CORPS implies sum_shares(self.players@, cj)
                + #[trigger] self.shares@[cj] == STARTING_SHARES by {
                lemma_sum_shares_update(
                    g0.players@,
                    player as int,
                    self.players@[player as int],
                    cj,
                );
            }
        }
        let half = n / 2;
        if ci != ii {
            let cur = self.players[player].shares[ii];
            proof {
                lemma_sum_shares_bound(self.players@, player as int, ii as int);
                assert(sum_shares(self.players@, ii as int) + self.shares@[ii as int]
                    == STARTING_SHARES);
            }
            let s3 = cur + half;
            self.players[player].shares[ii] = s3;
            let p3 = self.shares[ii] - half;
            self.shares[ii] = p3;
            proof {
                assert(self.players@ =~= g1.players@.update(
                    player as int,
                    self.players@[player as int],
                ));
                assert forall|cj: int|
                    0 <= cj < NUM_CORPS implies sum_shares(self.players@, cj)
                    + #[trigger] self.shares@[cj] == STARTING_SHARES by {
                    lemma_sum_shares_update(
                        g1.players@,
                        player as int,
                        self.players@[player as int],
                        cj,
                    );
                }
            }
        }
        let mut logs: Vec<Log> = Vec::new();
        logs.push(Log::Traded { player, n, from: corp, into });
        let n_players = self.players.len();
        let off = (player + n_players - turn_player) % n_players;
        let ghost g_mid = *self;
        proof {
            lemma_next_holder_except(
                g_mid.players@,
                g0.players@,
                corp.index_spec(),
                turn_player as int,
                off + 1,
                player as int,
            );
        }
        let mut more = self.continue_merger(turn_player, at, corp, off + 1);
        logs.append(&mut more);
        Ok(logs)
    }

    /// Keeps the player's shares of the dissolved corporation untouched and
    /// passes the turn to the next shareholder.
    pub fn keep(&mut self, player: usize) -> (r: Result<Vec<Log>, GameError>)
        requires
            old(self).wf(),
        ensures
            final(self).wf(),
            r is Err ==> *final(self) == *old(self),
            old(self).finished ==> r == Err::<Vec<Log>, GameError>(GameError::Finished),
            !old(self).finished && player != old(self).phase.whose_turn_spec() ==> r == Err::<
                Vec<Log>,
                GameError,
            >(GameError::NotYourTurn),
            !old(self).finished && player == old(self).phase.whose_turn_spec() && !(old(self).phase is SellOrTrade) ==> r == Err::<Vec<Log>, GameError>(GameError::WrongPhase),
            !old(self).finished && player == old(self).phase.whose_turn_spec() && old(self).phase is SellOrTrade ==> r is Ok,
            r is Ok ==> {
                &&& final(self).players@.len() == old(self).players@.len()
                &&& forall|p: int|
                    0 <= p < old(self).players@.len() ==> (
                    #[trigger] final(self).players@[p]).shares@ == old(self).players@[p].shares@
                        && final(self).players@[p].tiles@ == old(self).players@[p].tiles@
                        && final(self).players@[p].money >= old(self).players@[p].money
                &&& final(self).shares@ == old(self).shares@
                &&& final(self).draw_tiles@ == old(self).draw_tiles@
                &&& final(self).finished == old(self).finished
                &&& final(self).board@.len() == SIZE
                &&& (forall|i: int|
                    0 <= i < SIZE && final(self).board@[i] != old(self).board@[i]
                        ==> final(self).board@[i] is Corp && (old(self).board@[i] is Corp || old(self).board@[i] == Tile::Unincorporated))
            },
            r is Ok ==> (old(self).phase matches Phase::SellOrTrade { player: sp, corp, at, turn_player } && {
                let n = old(self).players@.len() as int;
                let off0 = ((sp + n - turn_player) as int % n) + 1;
                &&& (next_holder(old(self).players@, corp.index_spec(), turn_player as int, off0)
                    matches Some(off) ==> *final(self) == (Game {
                    phase: Phase::SellOrTrade {
                        player: ((turn_player + off) % n) as usize,
                        corp,
                        at,
                        turn_player,
                    },
                    ..*old(self)
                }))
                &&& (next_holder(old(self).players@, corp.index_spec(), turn_player as int, off0)
                    is None && !multi_adj_corp(old(self).board@, at) ==> *final(self) == (Game {
                    phase: Phase::Buy { player: turn_player, remaining: 3 },
                    ..*old(self)
                }))
                &&& match final(self).phase {
                    Phase::SellOrTrade { at: a2, turn_player: t2, .. } => a2 == at && t2
                        == turn_player,
                    Phase::Buy { player: p2, remaining } => p2 == turn_player && remaining == 3,
                    Phase::ChooseMerger { player: p2, at: a2 } => p2 == turn_player && a2 == at,
                    _ => false,
                }
            }),
    {
        if self.finished {
            return Err(GameError::Finished);
        }
        if player != self.phase.whose_turn() {
            return Err(GameError::NotYourTurn);
        }
        let (sp, corp, at, turn_player) = match self.phase {
            Phase::SellOrTrade { player: sp, corp, at, turn_player } => (sp, corp, at, turn_player),
            _ => {
                return Err(GameError::WrongPhase);
            },
        };
        let mut logs: Vec<Log> = Vec::new();
        logs.push(Log::Kept { player, corp });
        let n_players = self.players.len();
        let off = (player + n_players - turn_player) % n_players;
        let mut more = self.continue_merger(turn_player, at, corp, off + 1);
        logs.append(&mut more);
        Ok(logs)
    }

    /// Opens the buy sub-phase of the player's turn, with the full
    /// allowance of three shares.
    fn buy_phase(&mut self, player: usize)
        ensures
            *final(self) == (Game {
                phase: Phase::Buy { player, remaining: 3 },
                ..*old(self)
            }),
    {
        self.phase = Phase::Buy { player, remaining: 3 };
    }

    /// Requires the player to found a corporation at the placed tile.
    fn found_phase(&mut self, player: usize, loc: Loc)
        ensures
            *final(self) == (Game { phase: Phase::Found { player, at: loc }, ..*old(self) }),
    {
        self.phase = Phase::Found { player, at: loc };
    }

    /// Enters merger resolution for the tile just placed at `at`: when the
    /// candidates are a single unambiguous pair the smaller corporation is
    /// absorbed at once, its bonuses paid from its size before absorption;
    /// otherwise the player chooses; with fewer than two adjacent
    /// corporations the turn goes straight to buying.
    #[verifier::rlimit(80)]
    fn choose_merger_phase(&mut self, player: usize, at: Loc) -> (logs: Vec<Log>)
        requires
            old(self).wf_players(),
            old(self).wf_shares(),
            old(self).wf_tiles(),
            player < old(self).players@.len(),
            in_grid(at),
            old(self).board@[loc_index(at)] == Tile::Unincorporated,
        ensures
            final(self).wf(),
            final(self).players@.len() == old(self).players@.len(),
            forall|p: int|
                0 <= p < old(self).players@.len() ==> (#[trigger] final(self).players@[p]).shares@
                    == old(self).players@[p].shares@
                    && final(self).players@[p].tiles@ == old(self).players@[p].tiles@
                    && final(self).players@[p].money >= old(self).players@[p].money,
            final(self).shares@ == old(self).shares@,
            final(self).draw_tiles@ == old(self).draw_tiles@,
            final(self).finished == old(self).finished,
            final(self).board@.len() == SIZE,
            forall|i: int|
                0 <= i < SIZE && final(self).board@[i] != old(self).board@[i]
                    ==> final(self).board@[i] is Corp && (old(self).board@[i] is Corp || old(self).board@[i] == Tile::Unincorporated),
            !multi_adj_corp(old(self).board@, at) ==> *final(self) == (Game {
                phase: Phase::Buy { player, remaining: 3 },
                ..*old(self)
            }),
            multi_adj_corp(old(self).board@, at) && !(exists|f: Corp, i: Corp|
                unambiguous_merger(old(self).board@, at, f, i)) ==> *final(self) == (Game {
                phase: Phase::ChooseMerger { player, at },
                ..*old(self)
            }),
            forall|f: Corp, i: Corp|
                #[trigger] unambiguous_merger(old(self).board@, at, f, i) ==> {
                    &&& count_val(final(self).board@, Tile::Corp(f)) == 0
                    &&& (forall|j: int|
                        0 <= j < SIZE && final(self).board@[j] != old(self).board@[j]
                            ==> final(self).board@[j] == Tile::Corp(i))
                    &&& (forall|p: int|
                        0 <= p < old(self).players@.len() ==> (
                        #[trigger] final(self).players@[p]).money == sat_add_spec(
                            old(self).players@[p].money as nat,
                            bonus_payout(
                                old(self).players@,
                                f.index_spec(),
                                f.value_spec(count_val(old(self).board@, Tile::Corp(f))),
                                p,
                            ),
                        ))
                    &&& match final(self).phase {
                        Phase::SellOrTrade { player: p2, corp: c2, at: a2, turn_player: t2 } => c2
                            == f && a2 == at && t2 == player,
                        Phase::Buy { player: p2, remaining } => p2 == player && remaining == 3,
                        _ => false,
                    }
                },
            match final(self).phase {
                Phase::SellOrTrade { at: a2, turn_player: t2, .. } => a2 == at && t2 == player,
                Phase::Buy { player: p2, remaining } => p2 == player && remaining == 3,
                Phase::ChooseMerger { player: p2, at: a2 } => p2 == player && a2 == at,
                _ => false,
            },
    {
        let ghost g0 = *old(self);
        let (from, into) = self.board.merge_candidates(&at);
        if from.len() == 0 {
            // no two distinct corporations are adjacent: nothing merges
            proof {
                if exists|f: Corp, i: Corp| unambiguous_merger(g0.board@, at, f, i) {
                    let (f, i) = choose|f: Corp, i: Corp| unambiguous_merger(g0.board@, at, f, i);
                    let d = choose|d: Corp|
                        adj_corp(g0.board@, at, d) && count_val(g0.board@, Tile::Corp(f))
                            < count_val(g0.board@, Tile::Corp(d));
                    assert(f != d);
                    assert(multi_adj_corp(g0.board@, at));
                    assert(false);
                }
            }
            self.buy_phase(player);
            let logs: Vec<Log> = Vec::new();
            return logs;
        }
        self.phase = Phase::ChooseMerger { player, at };
        let auto = from.len() == 1 && into.len() == 1 && from[0] != into[0];
        if !auto {
            // ambiguous candidates: the player must choose
            proof {
                assert forall|f: Corp, i: Corp|
                    !unambiguous_merger(g0.board@, at, f, i) by {
                    if unambiguous_merger(g0.board@, at, f, i) {
                        // the sole strict-sub and sole maximum would make
                        // the candidate vectors the single distinct pair
                        assert(exists|c: Corp| is_strict_sub(g0.board@, at, c));
                        assert(from@.contains(f));
                        assert forall|k: int| 0 <= k < from@.len() implies from@[k] == f by {
                            assert(from@.contains(from@[k]));
                            assert(is_strict_sub(g0.board@, at, from@[k]));
                        }
                        if from@.len() >= 2 {
                            assert(from@[0] == f && from@[1] == f);
                            assert(false);
                        }
                        assert(into@.contains(i));
                        assert forall|k: int| 0 <= k < into@.len() implies into@[k] == i by {
                            assert(into@.contains(into@[k]));
                            assert(is_max_adj(g0.board@, at, into@[k]));
                        }
                        if into@.len() >= 2 {
                            assert(into@[0] == i && into@[1] == i);
                            assert(false);
                        }
                        // a strict-sub is never of greatest size
                        let d = choose|d: Corp|
                            adj_corp(g0.board@, at, d) && count_val(g0.board@, Tile::Corp(f))
                                < count_val(g0.board@, Tile::Corp(d));
                        assert(f != i);
                        assert(from@[0] == f && into@[0] == i);
                        assert(false);
                    }
                }
            }
            let logs: Vec<Log> = Vec::new();
            return logs;
        }
        let f0 = from[0];
        let i0 = into[0];
        proof {
            assert(from@.contains(f0));
            assert(into@.contains(i0));
            assert(is_max_adj(g0.board@, at, i0));
            assert(is_strict_sub(g0.board@, at, f0)) by {
                if !(exists|c: Corp| is_strict_sub(g0.board@, at, c)) {
                    assert(from@ == into@);
                    assert(from@[0] == into@[0]);
                    assert(false);
                }
            }
            // this is the single unambiguous pair
            assert(unambiguous_merger(g0.board@, at, f0, i0)) by {
                assert forall|d: Corp| #[trigger] is_strict_sub(g0.board@, at, d) implies d
                    == f0 by {
                    assert(from@.contains(d));
                    let k = choose|k: int| 0 <= k < from@.len() && from@[k] == d;
                }
                assert forall|d: Corp| #[trigger] is_max_adj(g0.board@, at, d) implies d == i0 by {
                    assert(into@.contains(d));
                    let k = choose|k: int| 0 <= k < into@.len() && into@[k] == d;
                }
            }
            // every corporation adjacent to the tile is the pair itself
            assert forall|d: Corp| #[trigger] adj_corp(g0.board@, at, d) implies d == f0 || d
                == i0 by {
                if count_val(g0.board@, Tile::Corp(d)) < count_val(g0.board@, Tile::Corp(i0)) {
                    assert(is_strict_sub(g0.board@, at, d));
                } else {
                    assert(is_max_adj(g0.board@, at, d)) by {
                        assert forall|e: Corp| adj_corp(g0.board@, at, e) implies count_val(
                            g0.board@,
                            Tile::Corp(e),
                        ) <= count_val(g0.board@, Tile::Corp(d)) by {
                            assert(count_val(g0.board@, Tile::Corp(e)) <= count_val(
                                g0.board@,
                                Tile::Corp(i0),
                            ));
                        }
                    }
                }
            }
            let lf = choose|lf: Loc|
                in_grid(lf) && #[trigger] crate::board::adjacent(at, lf)
                    && crate::board::tile_at(g0.board@, loc_index(lf)) == Tile::Corp(f0);
            if count_val(g0.board@, Tile::Corp(f0)) == 0 {
                crate::board::lemma_count_zero(g0.board@, Tile::Corp(f0));
                assert(false);
            }
        }
        // a single unambiguous pair: absorb it at once
        let mut logs = self.do_merge(f0, i0, at);
        let ghost g_mid = *self;
        proof {
            // after the absorption at most one corporation stays adjacent
            assert forall|d: Corp| d != i0 implies !adj_corp(g_mid.board@, at, d) by {
                if adj_corp(g_mid.board@, at, d) {
                    assert(adj_corp(g0.board@, at, d));
                    assert(d == f0);
                    let lw = choose|lw: Loc|
                        in_grid(lw) && #[trigger] crate::board::adjacent(at, lw)
                            && crate::board::tile_at(g_mid.board@, loc_index(lw)) == Tile::Corp(
                            f0,
                        );
                    crate::board::lemma_count_zero(g_mid.board@, Tile::Corp(f0));
                    assert(false);
                }
            }
            if multi_adj_corp(g_mid.board@, at) {
                let (c, d) = choose|c: Corp, d: Corp|
                    c != d && adj_corp(g_mid.board@, at, c) && adj_corp(g_mid.board@, at, d);
                assert(false);
            }
            lemma_next_holder_shares(g_mid.players@, g0.players@, f0.index_spec(), player as int, 0);
        }
        let mut more = self.continue_merger(player, at, f0, 0);
        logs.append(&mut more);
        proof {
            if next_holder(g0.players@, f0.index_spec(), player as int, 0) is None {
                assert(*self == (Game {
                    phase: Phase::Buy { player, remaining: 3 },
                    ..g_mid
                }));
            }
            assert forall|f: Corp, i: Corp|
                #[trigger] unambiguous_merger(g0.board@, at, f, i) implies f == f0 && i == i0 by {
                assert(is_strict_sub(g0.board@, at, f0));
                assert(is_max_adj(g0.board@, at, i0));
            }
        }
        logs
    }

    /// Places a tile from the player's hand: joining one adjacent
    /// corporation grows it by the tile and any absorbed unincorporated
    /// run; touching none lays an unincorporated tile, forcing a founding
    /// when it joins an unincorporated group and a corporation is
    /// available; touching two or more distinct corporations starts merger
    /// resolution, rejected outright when two of them are safe. Exactly the
    /// checks of [`play_rejection`] can fail, and a rejected placement
    /// changes nothing.
    #[verifier::rlimit(60)]
    pub fn play(&mut self, player: usize, loc: &Loc) -> (r: Result<(Vec<Log>, bool), GameError>)
        requires
            old(self).wf(),
        ensures
            final(self).wf(),
            r is Err ==> *final(self) == *old(self),
            r matches Err(e) ==> play_rejection(*old(self), player, *loc) == Some(e),
            (r is Ok) == (play_rejection(*old(self), player, *loc) is None),
            r matches Ok(t) ==> t.1,
            r is Ok ==> {
                &&& final(self).players@.len() == old(self).players@.len()
                &&& final(self).shares@ == old(self).shares@
                &&& final(self).draw_tiles@ == old(self).draw_tiles@
                &&& final(self).finished == old(self).finished
                &&& forall|p: int|
                    0 <= p < old(self).players@.len() ==> (
                    #[trigger] final(self).players@[p]).shares@ == old(self).players@[p].shares@
                        && final(self).players@[p].money >= old(self).players@[p].money
                &&& forall|p: int|
                    0 <= p < old(self).players@.len() && p != player ==> (
                    #[trigger] final(self).players@[p]).tiles@ == old(self).players@[p].tiles@
                &&& final(self).players@[player as int].tiles@.len() == old(self).players@[player as int].tiles@.len() - 1
                &&& forall|j: int|
                    0 <= j < final(self).players@[player as int].tiles@.len() ==> old(self).players@[player as int].tiles@.contains(
                        #[trigger] final(self).players@[player as int].tiles@[j],
                    ) && final(self).players@[player as int].tiles@[j] != *loc
            },
            r is Ok ==> final(self).board@.len() == SIZE && (forall|i: int|
                0 <= i < SIZE && #[trigger] final(self).board@[i] != old(self).board@[i] ==> (
                old(self).board@[i] == Tile::Unincorporated || old(self).board@[i] is Corp || i
                    == loc_index(*loc)) && (final(self).board@[i] is Corp || final(self).board@[i]
                    == Tile::Unincorporated)),
            r is Ok ==> (forall|c: Corp|
                #[trigger] exactly_one_adj_corp(old(self).board@, *loc, c) ==> (forall|i: int|
                    0 <= i < SIZE && #[trigger] final(self).board@[i] != old(self).board@[i]
                        ==> final(self).board@[i] == Tile::Corp(c) && (old(self).board@[i]
                        == Tile::Unincorporated || i == loc_index(*loc))) && count_val(
                    final(self).board@,
                    Tile::Corp(c),
                ) == count_val(old(self).board@, Tile::Corp(c)) + 1 + (count_val(
                    old(self).board@,
                    Tile::Unincorporated,
                ) - count_val(final(self).board@, Tile::Unincorporated)) && (forall|d: Corp|
                    d != c ==> count_val(final(self).board@, Tile::Corp(d)) == count_val(
                        old(self).board@,
                        Tile::Corp(d),
                    )) && final(self).phase == (Phase::Buy { player, remaining: 3 })),
            r is Ok && no_adj_corp(old(self).board@, *loc) && !has_unincorp_neighbour(
                old(self).board@,
                *loc,
            ) ==> final(self).board@ == old(self).board@.update(
                loc_index(*loc),
                Tile::Unincorporated,
            ) && final(self).phase == (Phase::Buy { player, remaining: 3 }),
            r is Ok && no_adj_corp(old(self).board@, *loc) && has_unincorp_neighbour(
                old(self).board@,
                *loc,
            ) ==> final(self).board@ == old(self).board@.update(
                loc_index(*loc),
                Tile::Unincorporated,
            ) && final(self).phase == (Phase::Found { player, at: *loc }),
            r is Ok && multi_adj_corp(old(self).board@, *loc) ==> match final(self).phase {
                Phase::SellOrTrade { at: a2, turn_player: t2, .. } => a2 == *loc && t2 == player,
                Phase::Buy { player: p2, remaining } => p2 == player && remaining == 3,
                Phase::ChooseMerger { player: p2, at: a2 } => p2 == player && a2 == *loc,
                _ => false,
            },
            r is Ok && multi_adj_corp(old(self).board@, *loc) && !(exists|f: Corp, i: Corp|
                unambiguous_merger(old(self).board@, *loc, f, i)) ==> final(self).phase
                == (Phase::ChooseMerger { player, at: *loc }) && final(self).board@ == old(
                self,
            ).board@.update(loc_index(*loc), Tile::Unincorporated) && (forall|p: int|
                0 <= p < old(self).players@.len() ==> (#[trigger] final(self).players@[p]).money
                    == old(self).players@[p].money),
            r is Ok ==> (forall|f: Corp, i: Corp|
                #[trigger] unambiguous_merger(old(self).board@, *loc, f, i) ==> {
                    &&& count_val(final(self).board@, Tile::Corp(f)) == 0
                    &&& (forall|p: int|
                        0 <= p < old(self).players@.len() ==> (
                        #[trigger] final(self).players@[p]).money == sat_add_spec(
                            old(self).players@[p].money as nat,
                            bonus_payout(
                                old(self).players@,
                                f.index_spec(),
                                f.value_spec(count_val(old(self).board@, Tile::Corp(f))),
                                p,
                            ),
                        ))
                    &&& match final(self).phase {
                        Phase::SellOrTrade { player: p2, corp: c2, at: a2, turn_player: t2 } => c2
                            == f && a2 == *loc && t2 == player,
                        Phase::Buy { player: p2, remaining } => p2 == player && remaining == 3,
                        _ => false,
                    }
                }),
    {
        if self.finished {
            return Err(GameError::Finished);
        }
        if player != self.phase.whose_turn() {
            return Err(GameError::NotYourTurn);
        }
        match self.phase {
            Phase::Play(_) => {},
            _ => {
                return Err(GameError::WrongPhase);
            },
        }
        let pos = match find_tile(&self.players[player].tiles, loc) {
            Option::Some(p) => p,
            Option::None => {
                return Err(GameError::TileNotHeld);
            },
        };
        proof {
            assert(self.players@[player as int].tiles@.contains(*loc));
            assert(self.tile_ok(*loc));
        }
        let li = loc.index();
        let ncs = self.board.neighbouring_corps(loc);
        let ghost g0 = *self;
        let mut logs: Vec<Log> = Vec::new();
        logs.push(Log::Played { player, at: *loc });
        if ncs.len() == 1 {
            let c = ncs[0];
            proof {
                assert(ncs@.contains(c));
                assert(exactly_one_adj_corp(g0.board@, *loc, c)) by {
                    assert forall|d: Corp| adj_corp(g0.board@, *loc, d) implies d == c by {
                        assert(ncs@.contains(d));
                        let j = choose|j: int| 0 <= j < ncs@.len() && ncs@[j] == d;
                    }
                }
                assert(!multi_adj_corp(g0.board@, *loc));
                assert(!no_adj_corp(g0.board@, *loc));
                assert(play_rejection(g0, player, *loc) is None);
            }
            let ghost hand0 = self.players@[player as int].tiles@;
            let _ = self.players[player].tiles.remove(pos);
            proof {
                lemma_remove_keeps(hand0, pos as int);
            }
            self.board.extend_corp(loc, c);
            let size = self.board.corp_size(c);
            logs.push(Log::CorpGrew { corp: c, size });
            self.buy_phase(player);
            proof {
                assert forall|i: int|
                    0 <= i < SIZE && g0.board@[i] == Tile::Empty && i != loc_index(*loc) implies
                    self.board@[i] == Tile::Empty by {
                    if self.board@[i] != g0.board@[i] {
                    }
                }
                self.lemma_after_tile_play(g0, player, pos as int, *loc);
                assert forall|cj: int|
                    0 <= cj < NUM_CORPS implies sum_shares(self.players@, cj)
                    + #[trigger] self.shares@[cj] == STARTING_SHARES by {
                    lemma_sum_shares_pointwise(self.players@, g0.players@, cj);
                }
            }
            return Ok((logs, true));
        }
        if ncs.len() == 0 {
            proof {
                assert(no_adj_corp(g0.board@, *loc)) by {
                    assert forall|d: Corp| !adj_corp(g0.board@, *loc, d) by {
                        if adj_corp(g0.board@, *loc, d) {
                            assert(ncs@.contains(d));
                        }
                    }
                }
                assert(!multi_adj_corp(g0.board@, *loc)) by {
                    if multi_adj_corp(g0.board@, *loc) {
                        let (c, d) = choose|c: Corp, d: Corp|
                            c != d && adj_corp(g0.board@, *loc, c) && adj_corp(g0.board@, *loc, d);
                    }
                }
            }
            let has_un = self.board.any_unincorp_neighbour(loc);
            if has_un {
                let avail = self.board.available_corps();
                if avail.len() == 0 {
                    proof {
                        if exists|c: Corp| count_val(g0.board@, Tile::Corp(c)) == 0 {
                            let c = choose|c: Corp| count_val(g0.board@, Tile::Corp(c)) == 0;
                            assert(avail@.contains(c));
                        }
                    }
                    return Err(GameError::NoCorpAvailable);
                }
                proof {
                    assert(avail@.contains(avail@[0]));
                    assert(play_rejection(g0, player, *loc) is None);
                }
                let ghost hand0 = self.players@[player as int].tiles@;
                let _ = self.players[player].tiles.remove(pos);
                proof {
                    lemma_remove_keeps(hand0, pos as int);
                }
                self.board.set_tile(li, Tile::Unincorporated);
                self.found_phase(player, *loc);
                proof {
                    assert(crate::board::tile_at(self.board@, li as int) == Tile::Unincorporated);
                    assert forall|i: int| 0 <= i < SIZE && i != li as int implies self.board@[i]
                        == g0.board@[i] by {
                        assert(crate::board::tile_at(self.board@, i) == crate::board::tile_at(
                            g0.board@,
                            i,
                        ));
                    }
                    assert(self.board@ =~= g0.board@.update(loc_index(*loc), Tile::Unincorporated));
                    self.lemma_after_tile_play(g0, player, pos as int, *loc);
                    assert forall|cj: int|
                        0 <= cj < NUM_CORPS implies sum_shares(self.players@, cj)
                        + #[trigger] self.shares@[cj] == STARTING_SHARES by {
                        lemma_sum_shares_pointwise(self.players@, g0.players@, cj);
                    }
                }
                return Ok((logs, true));
            }
            proof {
                assert(play_rejection(g0, player, *loc) is None);
            }
            let ghost hand0 = self.players@[player as int].tiles@;
            let _ = self.players[player].tiles.remove(pos);
            proof {
                lemma_remove_keeps(hand0, pos as int);
            }
            self.board.set_tile(li, Tile::Unincorporated);
            self.buy_phase(player);
            proof {
                assert(crate::board::tile_at(self.board@, li as int) == Tile::Unincorporated);
                assert forall|i: int| 0 <= i < SIZE && i != li as int implies self.board@[i]
                    == g0.board@[i] by {
                    assert(crate::board::tile_at(self.board@, i) == crate::board::tile_at(
                        g0.board@,
                        i,
                    ));
                }
                assert(self.board@ =~= g0.board@.update(loc_index(*loc), Tile::Unincorporated));
                self.lemma_after_tile_play(g0, player, pos as int, *loc);
                assert forall|cj: int|
                    0 <= cj < NUM_CORPS implies sum_shares(self.players@, cj)
                    + #[trigger] self.shares@[cj] == STARTING_SHARES by {
                    lemma_sum_shares_pointwise(self.players@, g0.players@, cj);
                }
            }
            return Ok((logs, true));
        }
        // two or more distinct corporations are adjacent
        proof {
            assert(ncs@.contains(ncs@[0]));
            assert(ncs@.contains(ncs@[1]));
            assert(multi_adj_corp(g0.board@, *loc)) by {
                assert(adj_corp(g0.board@, *loc, ncs@[0]));
                assert(adj_corp(g0.board@, *loc, ncs@[1]));
            }
        }
        let mut safe_count: usize = 0;
        let mut i: usize = 0;
        while i < ncs.len()
            invariant
                *self == g0,
                g0.wf(),
                in_grid(*loc),
                i <= ncs@.len(),
                safe_count <= i,
                forall|c: Corp| ncs@.contains(c) <==> adj_corp(g0.board@, *loc, c),
                ncs@.no_duplicates(),
                safe_count == 0 ==> forall|j: int|
                    0 <= j < i ==> count_val(g0.board@, Tile::Corp(#[trigger] ncs@[j])) < crate::corp::SAFE_SIZE,
                safe_count >= 1 ==> exists|j: int|
                    0 <= j < i && count_val(g0.board@, Tile::Corp(#[trigger] ncs@[j]))
                        >= crate::corp::SAFE_SIZE,
                safe_count >= 2 ==> two_safe_adjacent(g0.board@, *loc),
                forall|j: int, k: int|
                    0 <= j < k < i && count_val(g0.board@, Tile::Corp(#[trigger] ncs@[j]))
                        >= crate::corp::SAFE_SIZE && count_val(
                        g0.board@,
                        Tile::Corp(#[trigger] ncs@[k]),
                    ) >= crate::corp::SAFE_SIZE ==> safe_count >= 2,
            decreases ncs@.len() - i,
        {
            if self.board.corp_is_safe(ncs[i]) {
                proof {
                    if safe_count >= 1 {
                        let j = choose|j: int|
                            0 <= j < i && count_val(g0.board@, Tile::Corp(#[trigger] ncs@[j]))
                                >= crate::corp::SAFE_SIZE;
                        assert(ncs@.contains(ncs@[j]));
                        assert(ncs@.contains(ncs@[i as int]));
                        assert(ncs@[j] != ncs@[i as int]);
                        assert(two_safe_adjacent(g0.board@, *loc)) by {
                            assert(adj_corp(g0.board@, *loc, ncs@[j]));
                            assert(adj_corp(g0.board@, *loc, ncs@[i as int]));
                        }
                    }
                    assert(0 <= (i as int) < i + 1 && count_val(
                        g0.board@,
                        Tile::Corp(ncs@[i as int]),
                    ) >= crate::corp::SAFE_SIZE);
                }
                safe_count = safe_count + 1;
            }
            i = i + 1;
        }
        if safe_count > 1 {
            return Err(GameError::SafeCorpsMerge);
        }
        proof {
            if two_safe_adjacent(g0.board@, *loc) {
                let (c, d) = choose|c: Corp, d: Corp|
                    c != d && adj_corp(g0.board@, *loc, c) && adj_corp(g0.board@, *loc, d)
                        && count_val(g0.board@, Tile::Corp(c)) >= crate::corp::SAFE_SIZE
                        && count_val(g0.board@, Tile::Corp(d)) >= crate::corp::SAFE_SIZE;
                assert(ncs@.contains(c));
                assert(ncs@.contains(d));
                let jc = choose|j: int| 0 <= j < ncs@.len() && ncs@[j] == c;
                let jd = choose|j: int| 0 <= j < ncs@.len() && ncs@[j] == d;
                assert(false);
            }
            assert(play_rejection(g0, player, *loc) is None);
        }
        let ghost hand0 = self.players@[player as int].tiles@;
        let _ = self.players[player].tiles.remove(pos);
        proof {
            lemma_remove_keeps(hand0, pos as int);
        }
        self.board.set_tile(li, Tile::Unincorporated);
        proof {
            assert(crate::board::tile_at(self.board@, li as int) == Tile::Unincorporated);
            assert forall|i: int| 0 <= i < SIZE && i != li as int implies self.board@[i]
                == g0.board@[i] by {
                assert(crate::board::tile_at(self.board@, i) == crate::board::tile_at(
                    g0.board@,
                    i,
                ));
            }
            assert(self.board@ =~= g0.board@.update(loc_index(*loc), Tile::Unincorporated));
            self.lemma_after_tile_play(g0, player, pos as int, *loc);
            assert forall|cj: int|
                0 <= cj < NUM_CORPS implies sum_shares(self.players@, cj)
                + #[trigger] self.shares@[cj] == STARTING_SHARES by {
                lemma_sum_shares_pointwise(self.players@, g0.players@, cj);
            }
        }
        let ghost g_pre = *self;
        proof {
            crate::board::lemma_center_tile_irrelevant(g0.board@, *loc);
            assert(g_pre.board@ == g0.board@.update(loc_index(*loc), Tile::Unincorporated));
            // the placed tile changes no candidate predicate at its own cell
            assert forall|f: Corp, i: Corp|
                unambiguous_merger(g0.board@, *loc, f, i) == unambiguous_merger(
                g_pre.board@,
                *loc,
                f,
                i,
            ) by {
                if unambiguous_merger(g0.board@, *loc, f, i) {
                    assert forall|d: Corp|
                        #[trigger] is_strict_sub(g_pre.board@, *loc, d) implies d == f by {
                        assert(is_strict_sub(g0.board@, *loc, d));
                    }
                    assert forall|d: Corp|
                        #[trigger] is_max_adj(g_pre.board@, *loc, d) implies d == i by {
                        assert(is_max_adj(g0.board@, *loc, d));
                    }
                }
                if unambiguous_merger(g_pre.board@, *loc, f, i) {
                    assert forall|d: Corp|
                        #[trigger] is_strict_sub(g0.board@, *loc, d) implies d == f by {
                        assert(is_strict_sub(g_pre.board@, *loc, d));
                    }
                    assert forall|d: Corp|
                        #[trigger] is_max_adj(g0.board@, *loc, d) implies d == i by {
                        assert(is_max_adj(g_pre.board@, *loc, d));
                    }
                }
            }
        }
        let mut more = self.choose_merger_phase(player, *loc);
        logs.append(&mut more);
        proof {
            assert forall|f: Corp, i: Corp|
                #[trigger] unambiguous_merger(g0.board@, *loc, f, i) implies {
                &&& count_val(self.board@, Tile::Corp(f)) == 0
                &&& (forall|p: int|
                    0 <= p < g0.players@.len() ==> (#[trigger] self.players@[p]).money
                        == sat_add_spec(
                        g0.players@[p].money as nat,
                        bonus_payout(
                            g0.players@,
                            f.index_spec(),
                            f.value_spec(count_val(g0.board@, Tile::Corp(f))),
                            p,
                        ),
                    ))
                &&& match self.phase {
                    Phase::SellOrTrade { player: p2, corp: c2, at: a2, turn_player: t2 } => c2 == f
                        && a2 == *loc && t2 == player,
                    Phase::Buy { player: p2, remaining } => p2 == player && remaining == 3,
                    _ => false,
                }
            } by {
                assert(unambiguous_merger(g_pre.board@, *loc, f, i));
                assert(count_val(g_pre.board@, Tile::Corp(f)) == count_val(
                    g0.board@,
                    Tile::Corp(f),
                ));
                assert forall|p: int|
                    0 <= p < g0.players@.len() implies (#[trigger] self.players@[p]).money
                    == sat_add_spec(
                    g0.players@[p].money as nat,
                    bonus_payout(
                        g0.players@,
                        f.index_spec(),
                        f.value_spec(count_val(g0.board@, Tile::Corp(f))),
                        p,
                    ),
                ) by {
                    lemma_bonus_payout_shares(
                        g_pre.players@,
                        g0.players@,
                        f.index_spec(),
                        f.value_spec(count_val(g0.board@, Tile::Corp(f))),
                        p,
                    );
                }
            }
        }
        Ok((logs, true))
    }

    /// After a held tile leaves the hand and its cell leaves the empty
    /// state while no other empty cell does, every unplayed tile still
    /// lies on a distinct empty cell.
    proof fn lemma_after_tile_play(self, g0: Game, player: usize, pos: int, loc: Loc)
        requires
            g0.wf_players(),
            g0.wf_tiles(),
            player < g0.players@.len(),
            0 <= pos < g0.players@[player as int].tiles@.len(),
            g0.players@[player as int].tiles@[pos] == loc,
            in_grid(loc),
            self.players@.len() == g0.players@.len(),
            forall|p: int|
                0 <= p < g0.players@.len() && p != player ==> #[trigger] self.players@[p]
                    == g0.players@[p],
            self.players@[player as int].tiles@ == g0.players@[player as int].tiles@.remove(pos),
            self.draw_tiles@ == g0.draw_tiles@,
            self.board@.len() == SIZE,
            forall|i: int|
                0 <= i < SIZE && g0.board@[i] == Tile::Empty && i != loc_index(loc)
                    ==> #[trigger] self.board@[i] == Tile::Empty,
        ensures
            self.wf_tiles(),
    {
        let hand0 = g0.players@[player as int].tiles@;
        let hand = self.players@[player as int].tiles@;
        lemma_remove_keeps(hand0, pos);
        assert forall|j: int| #![trigger hand[j]] 0 <= j < hand.len() implies exists|k: int|
            0 <= k < hand0.len() && #[trigger] hand0[k] == hand[j] && k != pos by {
            if j < pos {
                assert(hand0[j] == hand[j]);
            } else {
                assert(hand0[j + 1] == hand[j]);
            }
        }
        // an unplayed tile other than the played one names a different cell
        assert forall|l: Loc| in_grid(l) && l != loc && g0.tile_ok(l) implies self.tile_ok(l) by {
            if loc_index(l) == loc_index(loc) {
                crate::board::lemma_loc_index_injective(l, loc);
            }
        }
        assert forall|i: int|
            0 <= i < self.draw_tiles@.len() implies self.tile_ok(#[trigger] self.draw_tiles@[i]) by {
            assert(g0.draw_tiles@[i] != hand0[pos]);
            assert(g0.tile_ok(g0.draw_tiles@[i]));
        }
        assert forall|p: int, i: int|
            0 <= p < self.players@.len() && 0 <= i
                < self.players@[p].tiles@.len() implies self.tile_ok(
            #[trigger] self.players@[p].tiles@[i],
        ) by {
            if p != player {
                assert(self.players@[p] == g0.players@[p]);
                assert(g0.tile_ok(g0.players@[p].tiles@[i]));
                assert(g0.players@[p].tiles@[i] != hand0[pos]);
            } else {
                let k = choose|k: int| 0 <= k < hand0.len() && #[trigger] hand0[k] == hand[i] && k != pos;
                assert(g0.tile_ok(hand0[k]));
                assert(hand0[k] != hand0[pos]);
            }
        }
        assert forall|p: int, i: int, j: int|
            0 <= p < self.players@.len() && 0 <= i < self.players@[p].tiles@.len() && 0 <= j
                < self.draw_tiles@.len() implies #[trigger] self.players@[p].tiles@[i]
            != #[trigger] self.draw_tiles@[j] by {
            if p != player {
                assert(self.players@[p] == g0.players@[p]);
            } else {
                let k = choose|k: int| 0 <= k < hand0.len() && #[trigger] hand0[k] == hand[i] && k != pos;
                assert(g0.players@[player as int].tiles@[k] != g0.draw_tiles@[j]);
            }
        }
        assert forall|p: int, q: int, i: int, j: int|
            0 <= p < self.players@.len() && 0 <= q < self.players@.len() && p != q && 0 <= i
                < self.players@[p].tiles@.len() && 0 <= j < self.players@[q].tiles@.len() implies
            #[trigger] self.players@[p].tiles@[i] != #[trigger] self.players@[q].tiles@[j] by {
            if p == player {
                let k = choose|k: int| 0 <= k < hand0.len() && #[trigger] hand0[k] == hand[i] && k != pos;
                assert(self.players@[q] == g0.players@[q]);
                assert(g0.players@[player as int].tiles@[k] != g0.players@[q].tiles@[j]);
            } else if q == player {
                let k = choose|k: int| 0 <= k < hand0.len() && #[trigger] hand0[k] == hand[j] && k != pos;
                assert(self.players@[p] == g0.players@[p]);
                assert(g0.players@[player as int].tiles@[k] != g0.players@[p].tiles@[i]);
            } else {
                assert(self.players@[p] == g0.players@[p]);
                assert(self.players@[q] == g0.players@[q]);
            }
        }
        assert forall|p: int|
            0 <= p < self.players@.len() implies (
        #[trigger] self.players@[p]).tiles@.no_duplicates() by {
            if p != player {
                assert(self.players@[p] == g0.players@[p]);
            }
        }
    }

    /// Founds the chosen corporation at the tile the founding phase points
    /// at: the corporation takes the tile and its whole unincorporated
    /// group, the founder receives one free share if the pool has any, and
    /// the turn moves on to buying. Rejected when the corporation is
    /// already on the board.
    pub fn found(&mut self, player: usize, corp: &Corp) -> (r: Result<(Vec<Log>, bool), GameError>)
        requires
            old(self).wf(),
        ensures
            final(self).wf(),
            r is Err ==> *final(self) == *old(self),
            old(self).finished ==> r == Err::<(Vec<Log>, bool), GameError>(GameError::Finished),
            !old(self).finished && player != old(self).phase.whose_turn_spec() ==> r == Err::<
                (Vec<Log>, bool),
                GameError,
            >(GameError::NotYourTurn),
            !old(self).finished && player == old(self).phase.whose_turn_spec() && !(old(self).phase is Found) ==> r == Err::<(Vec<Log>, bool), GameError>(GameError::WrongPhase),
            !old(self).finished && player == old(self).phase.whose_turn_spec() && old(self).phase is Found && count_val(old(self).board@, Tile::Corp(*corp)) != 0 ==> r == Err::<
                (Vec<Log>, bool),
                GameError,
            >(GameError::CorpOnBoard),
            (r is Ok) == (!old(self).finished && player == old(self).phase.whose_turn_spec() && old(self).phase is Found && count_val(old(self).board@, Tile::Corp(*corp)) == 0),
            r matches Ok(t) ==> t.1,
            r is Ok ==> {
                &&& count_val(final(self).board@, Tile::Corp(*corp)) == count_val(
                    old(self).board@,
                    Tile::Unincorporated,
                ) - count_val(final(self).board@, Tile::Unincorporated)
                &&& count_val(final(self).board@, Tile::Corp(*corp)) >= 1
                &&& forall|d: Corp|
                    d != *corp ==> count_val(final(self).board@, Tile::Corp(d)) == count_val(
                        old(self).board@,
                        Tile::Corp(d),
                    )
                &&& final(self).phase == (Phase::Buy { player, remaining: 3 })
                &&& final(self).players@.len() == old(self).players@.len()
                &&& final(self).draw_tiles@ == old(self).draw_tiles@
                &&& final(self).finished == old(self).finished
                &&& forall|p: int|
                    0 <= p < old(self).players@.len() ==> (
                    #[trigger] final(self).players@[p]).money == old(self).players@[p].money
                        && final(self).players@[p].tiles@ == old(self).players@[p].tiles@
                &&& forall|p: int|
                    0 <= p < old(self).players@.len() && p != player ==> (
                    #[trigger] final(self).players@[p]).shares@ == old(self).players@[p].shares@
                &&& (old(self).shares@[corp.index_spec()] > 0 ==> final(self).players@[player as int].shares@ == old(self).players@[player as int].shares@.update(
                    corp.index_spec(),
                    (old(self).players@[player as int].shares@[corp.index_spec()] + 1) as usize,
                ) && final(self).shares@ == old(self).shares@.update(
                    corp.index_spec(),
                    (old(self).shares@[corp.index_spec()] - 1) as usize,
                ))
                &&& (old(self).shares@[corp.index_spec()] == 0 ==> final(self).players@[player as int].shares@ == old(self).players@[player as int].shares@
                    && final(self).shares@ == old(self).shares@)
            },
    {
        if self.finished {
            return Err(GameError::Finished);
        }
        if player != self.phase.whose_turn() {
            return Err(GameError::NotYourTurn);
        }
        let at = match self.phase {
            Phase::Found { at, .. } => at,
            _ => {
                return Err(GameError::WrongPhase);
            },
        };
        if self.board.corp_size(*corp) != 0 {
            return Err(GameError::CorpOnBoard);
        }
        let ghost g0 = *self;
        self.board.extend_corp(&at, *corp);
        let ci = corp.index();
        let pool = self.shares[ci];
        if pool > 0 {
            proof {
                lemma_sum_shares_bound(self.players@, player as int, ci as int);
                assert(sum_shares(self.players@, ci as int) + self.shares@[ci as int]
                    == STARTING_SHARES);
            }
            let cur = self.players[player].shares[ci];
            self.players[player].shares[ci] = cur + 1;
            self.shares[ci] = pool - 1;
            proof {
                assert(self.players@ =~= g0.players@.update(
                    player as int,
                    self.players@[player as int],
                ));
                assert forall|cj: int|
                    0 <= cj < NUM_CORPS implies sum_shares(self.players@, cj)
                    + #[trigger] self.shares@[cj] == STARTING_SHARES by {
                    lemma_sum_shares_update(
                        g0.players@,
                        player as int,
                        self.players@[player as int],
                        cj,
                    );
                }
            }
        }
        self.buy_phase(player);
        proof {
            // the corporation's cells all came from the unincorporated run
            assert(count_val(g0.board@, Tile::Corp(*corp)) == 0);
            assert(self.board@[loc_index(at)] == Tile::Corp(*corp));
            if count_val(self.board@, Tile::Corp(*corp)) == 0 {
                crate::board::lemma_count_zero(self.board@, Tile::Corp(*corp));
                assert(false);
            }
            // the board only turned unincorporated cells into the new
            // corporation, so unplayed tiles still sit on empty cells
            assert forall|l: Loc| g0.tile_ok(l) implies self.tile_ok(l) by {
                if self.board@[loc_index(l)] != g0.board@[loc_index(l)] {
                }
            }
            if pool == 0 {
                assert forall|cj: int|
                    0 <= cj < NUM_CORPS implies sum_shares(self.players@, cj)
                    + #[trigger] self.shares@[cj] == STARTING_SHARES by {
                    lemma_sum_shares_pointwise(self.players@, g0.players@, cj);
                }
            }
        }
        let mut logs: Vec<Log> = Vec::new();
        logs.push(Log::Founded { player, corp: *corp });
        Ok((logs, true))
    }

    /// Refills the player's hand to six tiles from the front of the draw
    /// pile. When the pile cannot cover the refill, nothing is drawn and
    /// the game is marked finished instead: the imminent-end rule.
    fn draw_replacement_tiles(&mut self, player: usize) -> (r: (Vec<Log>, bool))
        requires
            old(self).wf_players(),
            old(self).wf_shares(),
            old(self).wf_tiles(),
            player < old(self).players@.len(),
        ensures
            final(self).wf_players(),
            final(self).wf_shares(),
            final(self).wf_tiles(),
            final(self).phase == old(self).phase,
            final(self).board@ == old(self).board@,
            final(self).shares@ == old(self).shares@,
            final(self).players@.len() == old(self).players@.len(),
            forall|p: int|
                0 <= p < old(self).players@.len() ==> (#[trigger] final(self).players@[p]).money
                    == old(self).players@[p].money && final(self).players@[p].shares@ == old(self).players@[p].shares@,
            forall|p: int|
                0 <= p < old(self).players@.len() && p != player ==> (
                #[trigger] final(self).players@[p]).tiles@ == old(self).players@[p].tiles@,
            r.1 == (old(self).draw_tiles@.len() >= TILE_HAND_SIZE - old(self).players@[player as int].tiles@.len()),
            !r.1 ==> final(self).finished && final(self).draw_tiles@ == old(self).draw_tiles@
                && final(self).players@[player as int].tiles@ == old(self).players@[player as int].tiles@,
            r.1 ==> final(self).finished == old(self).finished && final(self).players@[player as int].tiles@.len() == TILE_HAND_SIZE,
            r.1 ==> final(self).players@[player as int].tiles@ == old(self).players@[player as int].tiles@
                + old(self).draw_tiles@.subrange(
                0,
                TILE_HAND_SIZE - old(self).players@[player as int].tiles@.len(),
            ) && final(self).draw_tiles@ == old(self).draw_tiles@.skip(
                TILE_HAND_SIZE - old(self).players@[player as int].tiles@.len(),
            ),
    {
        let hand_len = self.players[player].tiles.len();
        let need = TILE_HAND_SIZE - hand_len;
        if self.draw_tiles.len() < need {
            // imminent end: the pile cannot refill the hand
            self.finished = true;
            let logs: Vec<Log> = Vec::new();
            return (logs, false);
        }
        let ghost g0 = *self;
        let mut k: usize = 0;
        while k < need
            invariant
                g0.wf_players(),
                g0.wf_shares(),
                g0.wf_tiles(),
                player < g0.players@.len(),
                need <= TILE_HAND_SIZE,
                k <= need,
                self.wf_players(),
                self.wf_shares(),
                self.wf_tiles(),
                self.phase == g0.phase,
                self.board@ == g0.board@,
                self.shares@ == g0.shares@,
                self.finished == g0.finished,
                self.players@.len() == g0.players@.len(),
                g0.draw_tiles@.len() >= need,
                self.draw_tiles@ == g0.draw_tiles@.skip(k as int),
                self.players@[player as int].tiles@.len()
                    == g0.players@[player as int].tiles@.len() + k,
                self.players@[player as int].tiles@ == g0.players@[player as int].tiles@
                    + g0.draw_tiles@.subrange(0, k as int),
                g0.players@[player as int].tiles@.len() + need == TILE_HAND_SIZE,
                forall|p: int|
                    0 <= p < g0.players@.len() ==> (#[trigger] self.players@[p]).money
                        == g0.players@[p].money && self.players@[p].shares@
                        == g0.players@[p].shares@,
                forall|p: int|
                    0 <= p < g0.players@.len() && p != player ==> (
                    #[trigger] self.players@[p]).tiles@ == g0.players@[p].tiles@,
            decreases need - k,
        {
            let ghost pre = *self;
            let ghost hand_pre = self.players@[player as int].tiles@;
            let ghost draw_pre = self.draw_tiles@;
            let l = self.draw_tiles.remove(0);
            self.players[player].tiles.push(l);
            proof {
                assert(self.draw_tiles@ =~= g0.draw_tiles@.skip(k + 1));
                assert(self.players@ =~= pre.players@.update(
                    player as int,
                    self.players@[player as int],
                ));
                assert forall|cj: int|
                    0 <= cj < NUM_CORPS implies sum_shares(self.players@, cj)
                    + #[trigger] self.shares@[cj] == STARTING_SHARES by {
                    lemma_sum_shares_pointwise(self.players@, pre.players@, cj);
                }
                // the moved tile keeps every distinctness fact it had
                crate::board::lemma_push_contains(hand_pre, l);
                lemma_remove_keeps(draw_pre, 0);
                assert(l == draw_pre[0]);
                let hand = self.players@[player as int].tiles@;
                assert(hand =~= hand_pre.push(l));
                assert(l == g0.draw_tiles@[k as int]);
                assert(g0.draw_tiles@.subrange(0, k + 1) =~= g0.draw_tiles@.subrange(
                    0,
                    k as int,
                ).push(g0.draw_tiles@[k as int]));
                assert(hand =~= g0.players@[player as int].tiles@ + g0.draw_tiles@.subrange(
                    0,
                    k + 1,
                ));
                assert forall|i: int|
                    0 <= i < hand.len() implies pre.tile_ok(#[trigger] hand[i]) by {
                    if i < hand_pre.len() {
                        assert(hand[i] == hand_pre[i]);
                    } else {
                        assert(hand[i] == l);
                        assert(pre.tile_ok(draw_pre[0]));
                    }
                }
                if hand_pre.contains(l) {
                    let j = choose|j: int| 0 <= j < hand_pre.len() && hand_pre[j] == l;
                    assert(pre.players@[player as int].tiles@[j] != pre.draw_tiles@[0]);
                    assert(false);
                }
                assert forall|p: int, i: int, j: int|
                    0 <= p < self.players@.len() && 0 <= i < self.players@[p].tiles@.len() && 0 <= j
                        < self.draw_tiles@.len() implies #[trigger] self.players@[p].tiles@[i]
                    != #[trigger] self.draw_tiles@[j] by {
                    assert(self.draw_tiles@[j] == draw_pre[j + 1]);
                    if p != player {
                        assert(self.players@[p] == pre.players@[p]);
                    } else {
                        if i < hand_pre.len() {
                            assert(hand[i] == hand_pre[i]);
                        } else {
                            assert(hand[i] == draw_pre[0]);
                        }
                    }
                }
                assert forall|p: int, q: int, i: int, j: int|
                    0 <= p < self.players@.len() && 0 <= q < self.players@.len() && p != q && 0 <= i
                        < self.players@[p].tiles@.len() && 0 <= j
                        < self.players@[q].tiles@.len() implies
                    #[trigger] self.players@[p].tiles@[i]
                    != #[trigger] self.players@[q].tiles@[j] by {
                    if p == player {
                        assert(self.players@[q] == pre.players@[q]);
                        if i < hand_pre.len() {
                            assert(hand[i] == hand_pre[i]);
                        } else {
                            assert(hand[i] == draw_pre[0]);
                            assert(pre.players@[q].tiles@[j] != pre.draw_tiles@[0]);
                        }
                    } else if q == player {
                        assert(self.players@[p] == pre.players@[p]);
                        if j < hand_pre.len() {
                            assert(hand[j] == hand_pre[j]);
                        } else {
                            assert(hand[j] == draw_pre[0]);
                            assert(pre.players@[p].tiles@[i] != pre.draw_tiles@[0]);
                        }
                    } else {
                        assert(self.players@[p] == pre.players@[p]);
                        assert(self.players@[q] == pre.players@[q]);
                    }
                }
            }
            k = k + 1;
        }
        proof {
            assert(g0.draw_tiles@.subrange(0, need as int) == g0.draw_tiles@.subrange(
                0,
                TILE_HAND_SIZE - g0.players@[player as int].tiles@.len(),
            ));
        }
        let logs: Vec<Log> = Vec::new();
        (logs, true)
    }

    /// Ends the current player's turn: refills their hand (or marks the
    /// imminent end of the game) and passes play to the next seat.
    fn end_turn(&mut self) -> (logs: Vec<Log>)
        requires
            old(self).wf(),
        ensures
            final(self).wf(),
            final(self).phase == Phase::Play(
                ((old(self).phase.whose_turn_spec() + 1) as int % (
                old(self).players@.len() as int)) as usize,
            ),
            final(self).board@ == old(self).board@,
            final(self).shares@ == old(self).shares@,
            final(self).players@.len() == old(self).players@.len(),
            forall|p: int|
                0 <= p < old(self).players@.len() ==> (#[trigger] final(self).players@[p]).money
                    == old(self).players@[p].money && final(self).players@[p].shares@ == old(self).players@[p].shares@,
            forall|p: int|
                0 <= p < old(self).players@.len() && p != old(self).phase.whose_turn_spec() ==> (
                #[trigger] final(self).players@[p]).tiles@ == old(self).players@[p].tiles@,
            old(self).finished == false && old(self).draw_tiles@.len() < TILE_HAND_SIZE - old(self).players@[old(self).phase.whose_turn_spec() as int].tiles@.len() ==> final(self).finished,
            final(self).players@.len() == old(self).players@.len(),
            old(self).draw_tiles@.len() >= TILE_HAND_SIZE - old(self).players@[old(self).phase.whose_turn_spec() as int].tiles@.len() ==> final(self).players@[old(self).phase.whose_turn_spec() as int].tiles@
                == old(self).players@[old(self).phase.whose_turn_spec() as int].tiles@
                + old(self).draw_tiles@.subrange(
                0,
                TILE_HAND_SIZE - old(self).players@[old(self).phase.whose_turn_spec() as int].tiles@.len(),
            ) && final(self).draw_tiles@ == old(self).draw_tiles@.skip(
                TILE_HAND_SIZE - old(self).players@[old(self).phase.whose_turn_spec() as int].tiles@.len(),
            ) && final(self).finished == old(self).finished,
            old(self).draw_tiles@.len() < TILE_HAND_SIZE - old(self).players@[old(self).phase.whose_turn_spec() as int].tiles@.len() ==> final(self).finished
                && final(self).draw_tiles@ == old(self).draw_tiles@
                && final(self).players@[old(self).phase.whose_turn_spec() as int].tiles@ == old(
                self,
            ).players@[old(self).phase.whose_turn_spec() as int].tiles@,
    {
        let current_player = self.phase.whose_turn();
        let _ = self.draw_replacement_tiles(current_player);
        let next = self.next_player(current_player);
        self.phase = Phase::Play(next);
        let logs: Vec<Log> = Vec::new();
        logs
    }

    /// Buys shares in an on-board corporation at its current value: the
    /// player pays the price in full, the shares leave the pool, and the
    /// allowance shrinks; spending the whole allowance ends the turn. The
    /// player's money never goes negative: a purchase beyond it is
    /// rejected.
    pub fn buy(&mut self, player: usize, n: usize, corp: Corp) -> (r: Result<
        (Vec<Log>, bool),
        GameError,
    >)
        requires
            old(self).wf(),
        ensures
            final(self).wf(),
            r is Err ==> *final(self) == *old(self),
            old(self).finished ==> r == Err::<(Vec<Log>, bool), GameError>(GameError::Finished),
            !old(self).finished && player != old(self).phase.whose_turn_spec() ==> r == Err::<
                (Vec<Log>, bool),
                GameError,
            >(GameError::NotYourTurn),
            !old(self).finished && player == old(self).phase.whose_turn_spec() && n == 0 ==> r
                == Err::<(Vec<Log>, bool), GameError>(GameError::ZeroShares),
            !old(self).finished && player == old(self).phase.whose_turn_spec() && n >= 1 && !(old(self).phase is Buy) ==> r == Err::<(Vec<Log>, bool), GameError>(GameError::WrongPhase),
            (r is Ok) == (!old(self).finished && player == old(self).phase.whose_turn_spec() && n
                >= 1 && (old(self).phase matches Phase::Buy { remaining, .. } && n <= remaining
                && count_val(old(self).board@, Tile::Corp(corp)) > 0 && n <= old(
                self,
            ).shares@[corp.index_spec()] && corp.value_spec(
                count_val(old(self).board@, Tile::Corp(corp)),
            ) * n <= old(self).players@[player as int].money)),
            r is Ok ==> (old(self).phase matches Phase::Buy { remaining, .. } && {
                let ci = corp.index_spec();
                let size = count_val(old(self).board@, Tile::Corp(corp));
                let price = corp.value_spec(size) * n;
                &&& 1 <= n <= remaining
                &&& size > 0
                &&& n <= old(self).shares@[ci]
                &&& price <= old(self).players@[player as int].money
                &&& final(self).players@[player as int].money == old(self).players@[player as int].money - price
                &&& final(self).players@[player as int].shares@ == old(self).players@[player as int].shares@.update(
                    ci,
                    (old(self).players@[player as int].shares@[ci] + n) as usize,
                )
                &&& final(self).shares@ == old(self).shares@.update(
                    ci,
                    (old(self).shares@[ci] - n) as usize,
                )
                &&& final(self).board@ == old(self).board@
                &&& forall|p: int|
                    0 <= p < old(self).players@.len() && p != player ==> (
                    #[trigger] final(self).players@[p]).money == old(self).players@[p].money
                        && final(self).players@[p].shares@ == old(self).players@[p].shares@
                        && final(self).players@[p].tiles@ == old(self).players@[p].tiles@
                &&& (n < remaining ==> final(self).phase == (Phase::Buy {
                    player,
                    remaining: (remaining - n) as usize,
                }) && final(self).draw_tiles@ == old(self).draw_tiles@ && final(self).finished
                    == old(self).finished && final(self).players@[player as int].tiles@ == old(self).players@[player as int].tiles@)
                &&& (n == remaining ==> final(self).phase == Phase::Play(
                    ((player + 1) as int % (old(self).players@.len() as int)) as usize,
                ))
                &&& final(self).players@.len() == old(self).players@.len()
            }),
            r matches Ok(t) ==> (old(self).phase matches Phase::Buy { remaining, .. } && t.1 == (n
                < remaining)),
            r is Ok ==> (old(self).phase matches Phase::Buy { remaining, .. } && (n == remaining
                ==> {
                let hand = old(self).players@[player as int].tiles@;
                let need = TILE_HAND_SIZE - hand.len();
                &&& (old(self).draw_tiles@.len() >= need ==> final(self).players@[player as int].tiles@
                    == hand + old(self).draw_tiles@.subrange(0, need) && final(self).draw_tiles@
                    == old(self).draw_tiles@.skip(need) && final(self).finished == old(self).finished)
                &&& (old(self).draw_tiles@.len() < need ==> final(self).finished && final(self).draw_tiles@ == old(self).draw_tiles@
                    && final(self).players@[player as int].tiles@ == hand)
            })),
    {
        if self.finished {
            return Err(GameError::Finished);
        }
        if player != self.phase.whose_turn() {
            return Err(GameError::NotYourTurn);
        }
        if n == 0 {
            return Err(GameError::ZeroShares);
        }
        let remaining = match self.phase {
            Phase::Buy { remaining, .. } => remaining,
            _ => {
                return Err(GameError::WrongPhase);
            },
        };
        if n > remaining {
            return Err(GameError::BuyLimit { remaining });
        }
        let corp_size = self.board.corp_size(corp);
        if corp_size == 0 {
            return Err(GameError::CorpNotOnBoard);
        }
        let ci = corp.index();
        let corp_shares = self.shares[ci];
        if n > corp_shares {
            return Err(GameError::NotEnoughShares { available: corp_shares });
        }
        let value = corp.value(corp_size);
        proof {
            assert(value * n <= 3600) by (nonlinear_arith)
                requires
                    value <= 1200,
                    n <= 3,
            ;
        }
        let price = value * n;
        let player_money = self.players[player].money;
        if price > player_money {
            return Err(GameError::NotEnoughMoney { price, money: player_money });
        }
        let ghost g0 = *self;
        proof {
            lemma_sum_shares_bound(self.players@, player as int, ci as int);
            assert(sum_shares(self.players@, ci as int) + self.shares@[ci as int]
                == STARTING_SHARES);
        }
        self.players[player].money = player_money - price;
        let cur = self.players[player].shares[ci];
        self.players[player].shares[ci] = cur + n;
        self.shares[ci] = corp_shares - n;
        proof {
            assert(self.players@ =~= g0.players@.update(
                player as int,
                self.players@[player as int],
            ));
            assert forall|cj: int|
                0 <= cj < NUM_CORPS implies sum_shares(self.players@, cj)
                + #[trigger] self.shares@[cj] == STARTING_SHARES by {
                lemma_sum_shares_update(
                    g0.players@,
                    player as int,
                    self.players@[player as int],
                    cj,
                );
            }
        }
        let mut logs: Vec<Log> = Vec::new();
        logs.push(Log::Bought { player, n, corp, price });
        if remaining == n {
            let mut more = self.end_turn();
            logs.append(&mut more);
            return Ok((logs, false));
        }
        self.phase = Phase::Buy { player, remaining: remaining - n };
        Ok((logs, true))
    }

    /// Ends the buy phase early: refills the player's hand from the front
    /// of the draw pile (or marks the imminent end of the game when the
    /// pile cannot) and passes play to the next seat.
    pub fn done(&mut self, player: usize) -> (r: Result<Vec<Log>, GameError>)
        requires
            old(self).wf(),
        ensures
            final(self).wf(),
            r is Err ==> *final(self) == *old(self),
            old(self).finished ==> r == Err::<Vec<Log>, GameError>(GameError::Finished),
            !old(self).finished && player != old(self).phase.whose_turn_spec() ==> r == Err::<
                Vec<Log>,
                GameError,
            >(GameError::NotYourTurn),
            !old(self).finished && player == old(self).phase.whose_turn_spec() && !(old(self).phase is Buy) ==> r == Err::<Vec<Log>, GameError>(GameError::WrongPhase),
            (r is Ok) == (!old(self).finished && player == old(self).phase.whose_turn_spec() && old(self).phase is Buy),
            r is Ok ==> final(self).phase == Phase::Play(
                ((player + 1) as int % (old(self).players@.len() as int)) as usize,
            ) && final(self).board@ == old(self).board@ && final(self).shares@ == old(self).shares@
                && final(self).players@.len() == old(self).players@.len() && (forall|p: int|
                0 <= p < old(self).players@.len() ==> (#[trigger] final(self).players@[p]).money
                    == old(self).players@[p].money && final(self).players@[p].shares@ == old(self).players@[p].shares@)
                && (forall|p: int|
                0 <= p < old(self).players@.len() && p != player ==> (
                #[trigger] final(self).players@[p]).tiles@ == old(self).players@[p].tiles@),
            r is Ok ==> {
                let hand = old(self).players@[player as int].tiles@;
                let need = TILE_HAND_SIZE - hand.len();
                &&& (old(self).draw_tiles@.len() >= need ==> final(self).players@[player as int].tiles@
                    == hand + old(self).draw_tiles@.subrange(0, need) && final(self).draw_tiles@
                    == old(self).draw_tiles@.skip(need) && final(self).finished == old(self).finished)
                &&& (old(self).draw_tiles@.len() < need ==> final(self).finished && final(self).draw_tiles@ == old(self).draw_tiles@
                    && final(self).players@[player as int].tiles@ == hand)
            },
    {
        if self.finished {
            return Err(GameError::Finished);
        }
        if player != self.phase.whose_turn() {
            return Err(GameError::NotYourTurn);
        }
        match self.phase {
            Phase::Buy { .. } => {},
            _ => {
                return Err(GameError::WrongPhase);
            },
        }
        Ok(self.end_turn())
    }

    /// Triggers the end of the game at the end of the turn: allowed during
    /// the buy phase once some corporation has reached the game-end size.
    pub fn end(&mut self, player: usize) -> (r: Result<Vec<Log>, GameError>)
        requires
            old(self).wf(),
        ensures
            final(self).wf(),
            r is Err ==> *final(self) == *old(self),
            old(self).finished ==> r == Err::<Vec<Log>, GameError>(GameError::Finished),
            !old(self).finished && player != old(self).phase.whose_turn_spec() ==> r == Err::<
                Vec<Log>,
                GameError,
            >(GameError::NotYourTurn),
            !old(self).finished && player == old(self).phase.whose_turn_spec() && !(old(self).phase is Buy) ==> r == Err::<Vec<Log>, GameError>(GameError::WrongPhase),
            !old(self).finished && player == old(self).phase.whose_turn_spec() && old(self).phase is Buy && !(exists|c: Corp|
                count_val(old(self).board@, Tile::Corp(c)) >= GAME_END_SIZE) ==> r == Err::<
                Vec<Log>,
                GameError,
            >(GameError::CannotEnd),
            (r is Ok) == (!old(self).finished && player == old(self).phase.whose_turn_spec() && old(self).phase is Buy && (exists|c: Corp|
                count_val(old(self).board@, Tile::Corp(c)) >= GAME_END_SIZE)),
            r is Ok ==> *final(self) == (Game { finished: true, ..*old(self) }),
    {
        if self.finished {
            return Err(GameError::Finished);
        }
        if player != self.phase.whose_turn() {
            return Err(GameError::NotYourTurn);
        }
        match self.phase {
            Phase::Buy { .. } => {},
            _ => {
                return Err(GameError::WrongPhase);
            },
        }
        if !self.can_end() {
            return Err(GameError::CannotEnd);
        }
        self.finished = true;
        let logs: Vec<Log> = Vec::new();
        Ok(logs)
    }

    /// Parses one line of player input and performs the action it names.
    /// Input that fits no command is rejected without touching the state;
    /// every named action validates itself exactly as its method states.
    /// The second component reports whether the action left a state the
    /// player could have continued from (as the original undo flag did).
    pub fn command(&mut self, player: usize, input: &str) -> (r: Result<
        (Vec<Log>, bool),
        GameError,
    >)
        requires
            old(self).wf(),
        ensures
            final(self).wf(),
            r is Err ==> *final(self) == *old(self),
            crate::parser::spec_command(input@) is None ==> r == Err::<
                (Vec<Log>, bool),
                GameError,
            >(GameError::InvalidInput),
            crate::parser::spec_command(input@) matches Some(t) ==> match t.0 {
                crate::parser::Command::Play(l) => (r is Ok) == (play_rejection(
                    *old(self),
                    player,
                    l,
                ) is None),
                crate::parser::Command::Found(c) => (r is Ok) == (!old(self).finished && player
                    == old(self).phase.whose_turn_spec() && old(self).phase is Found && count_val(
                    old(self).board@,
                    Tile::Corp(c),
                ) == 0),
                crate::parser::Command::Buy(n, c) => (r is Ok) == (!old(self).finished && player
                    == old(self).phase.whose_turn_spec() && n >= 1 && (old(self).phase matches
                Phase::Buy { remaining, .. } && n <= remaining && count_val(
                    old(self).board@,
                    Tile::Corp(c),
                ) > 0 && n <= old(self).shares@[c.index_spec()] && c.value_spec(
                    count_val(old(self).board@, Tile::Corp(c)),
                ) * n <= old(self).players@[player as int].money)),
                crate::parser::Command::Done => (r is Ok) == (!old(self).finished && player == old(
                    self,
                ).phase.whose_turn_spec() && old(self).phase is Buy),
                crate::parser::Command::Merge(f, i) => ((old(self).phase matches
                Phase::ChooseMerger { at, .. } ==> (r is Ok) == (!old(self).finished && player
                    == old(self).phase.whose_turn_spec() && f != i && multi_adj_corp(
                    old(self).board@,
                    at,
                ) && valid_merge_from(old(self).board@, at, f) && is_max_adj(
                    old(self).board@,
                    at,
                    i,
                ))) && (!(old(self).phase is ChooseMerger) ==> r is Err)),
                crate::parser::Command::Sell(k) => (r is Ok) == (!old(self).finished && player
                    == old(self).phase.whose_turn_spec() && (old(self).phase matches
                Phase::SellOrTrade { corp, .. } && 1 <= k <= old(self).players@[player as int].shares@[corp.index_spec()])),
                crate::parser::Command::Trade(k) => (r is Ok) == (!old(self).finished && player
                    == old(self).phase.whose_turn_spec() && (old(self).phase matches
                Phase::SellOrTrade { corp, at, .. } && 1 <= k && k % 2 == 0 && k <= old(
                    self,
                ).players@[player as int].shares@[corp.index_spec()] && (old(self).board@[loc_index(
                    at,
                )] matches Tile::Corp(into) && k / 2 <= old(self).shares@[into.index_spec()]))),
                crate::parser::Command::Keep => (r is Ok) == (!old(self).finished && player == old(
                    self,
                ).phase.whose_turn_spec() && old(self).phase is SellOrTrade),
                crate::parser::Command::End => (r is Ok) == (!old(self).finished && player == old(
                    self,
                ).phase.whose_turn_spec() && old(self).phase is Buy && (exists|c: Corp|
                    count_val(old(self).board@, Tile::Corp(c)) >= GAME_END_SIZE)),
            },
    {
        let cmd = match crate::parser::command(input) {
            Option::Some((cmd, _)) => cmd,
            Option::None => {
                return Err(GameError::InvalidInput);
            },
        };
        match cmd {
            crate::parser::Command::Play(l) => self.play(player, &l),
            crate::parser::Command::Found(c) => self.found(player, &c),
            crate::parser::Command::Buy(n, c) => self.buy(player, n, c),
            crate::parser::Command::Done => {
                match self.done(player) {
                    Ok(logs) => Ok((logs, false)),
                    Err(e) => Err(e),
                }
            },
            crate::parser::Command::Merge(from, into) => {
                match self.merge(player, &from, &into) {
                    Ok(logs) => Ok((logs, false)),
                    Err(e) => Err(e),
                }
            },
            crate::parser::Command::Sell(n) => {
                match self.sell(player, n) {
                    Ok(logs) => Ok((logs, false)),
                    Err(e) => Err(e),
                }
            },
            crate::parser::Command::Trade(n) => {
                match self.trade(player, n) {
                    Ok(logs) => Ok((logs, false)),
                    Err(e) => Err(e),
                }
            },
            crate::parser::Command::Keep => {
                match self.keep(player) {
                    Ok(logs) => Ok((logs, false)),
                    Err(e) => Err(e),
                }
            },
            crate::parser::Command::End => {
                match self.end(player) {
                    Ok(logs) => Ok((logs, false)),
                    Err(e) => Err(e),
                }
            },
        }
    }

    /// The read-only snapshot handed to rendering: everything public, plus
    /// the requesting player's own hand when a player is given.
    pub fn pub_state(&self, player: Option<usize>) -> (r: PubState)
        requires
            player is Some ==> player.unwrap() < self.players@.len(),
        ensures
            r.phase == self.phase,
            r.finished == self.finished,
            r.board@ == self.board@,
            r.shares@ == self.shares@,
            r.remaining_tiles == self.draw_tiles@.len(),
            r.players@.len() == self.players@.len(),
            forall|p: int|
                0 <= p < self.players@.len() ==> (#[trigger] r.players@[p]).money
                    == self.players@[p].money && r.players@[p].shares@ == self.players@[p].shares@,
            player is Some ==> r.priv_state is Some && r.priv_state.unwrap().id == player.unwrap()
                && r.priv_state.unwrap().tiles@ == self.players@[player.unwrap() as int].tiles@,
            player is None ==> r.priv_state is None,
    {
        let mut pub_players: Vec<PubPlayer> = Vec::new();
        let mut p: usize = 0;
        while p < self.players.len()
            invariant
                p <= self.players@.len(),
                pub_players@.len() == p,
                forall|q: int|
                    0 <= q < p ==> (#[trigger] pub_players@[q]).money == self.players@[q].money
                        && pub_players@[q].shares@ == self.players@[q].shares@,
            decreases self.players@.len() - p,
        {
            let shares = self.players[p].shares.clone();
            proof {
                assert(shares@ =~= self.players@[p as int].shares@);
            }
            pub_players.push(PubPlayer { money: self.players[p].money, shares });
            p = p + 1;
        }
        let priv_state = match player {
            Option::Some(id) => {
                let tiles = self.players[id].tiles.clone();
                proof {
                    assert(tiles@ =~= self.players@[id as int].tiles@);
                }
                Option::Some(PrivState { id, tiles })
            },
            Option::None => Option::None,
        };
        let shares = self.shares.clone();
        proof {
            assert(shares@ =~= self.shares@);
        }
        PubState {
            phase: self.phase,
            priv_state,
            players: pub_players,
            board: self.board.clone(),
            shares,
            remaining_tiles: self.draw_tiles.len(),
            finished: self.finished,
        }
    }
}

} // verus!
