//! The engine: an in-memory store of players, games, memberships and
//! assignment edges, with the lifecycle operations over it.
//!
//! Every mutating operation requires and re-establishes `Engine::wf`, the
//! conjunction of the store's structural invariants.  Timestamps are plain
//! tick values passed in by the caller; randomness enters only through the
//! identifier generator and the ring shuffle.

use vstd::prelude::*;
use vstd::pervasive::VecAdditionalExecFns;
use crate::enums::{GameStatus, PlayerStatus, Role, TargetStatus};
use crate::errors::ModelError;
use crate::genstring::{get_agent_name, get_game_code, is_game_code};
use crate::records::{
    AgentInfo, Assignment, Codenames, Game, GameInfo, GamePlayerInfo, Player, PlayerGame, UserInfo,
};
use crate::ring::{
    cur_at, cur_edge, cur_edges_unique, cur_in_at, cur_in_idx, cur_out_at, cur_out_idx,
    cur_row_of_game, distinct_seq, game_has_ring, has_cur_in, has_cur_out, has_membership,
    is_alive, is_alive_row, is_member_row, is_ring, kill_contrib, lemma_alive_push,
    lemma_alive_update, lemma_edges_close_pair, lemma_edges_rewire,
    lemma_no_cur_edges_from_frame, lemma_num_kills_push, lemma_num_kills_update,
    lemma_ring_frame, lemma_ring_neighbors, lemma_ring_remove, member_idx, member_rows_unique,
    no_cur_edges, num_kills, ring_next_idx, ring_prev_idx, the_target, total_kills,
};

verus! {

/// How long a started game runs, in ticks.
pub const GAME_DURATION_TICKS: i64 = 259200;

/// Some stored game carries code `c`.
pub open spec fn has_game_code(gs: Seq<Game>, c: Seq<char>) -> bool {
    exists|i: int| 0 <= i < gs.len() && (#[trigger] gs[i]).code@ == c
}

/// The index of the stored game carrying code `c` (unique under `wf`).
pub open spec fn game_idx_of_code(gs: Seq<Game>, c: Seq<char>) -> int {
    choose|i: int| 0 <= i < gs.len() && (#[trigger] gs[i]).code@ == c
}

/// Row `i` is an ALIVE membership of `p` in a game that is not FINISHED.
pub open spec fn active_membership_at(ms: Seq<PlayerGame>, gs: Seq<Game>, p: i32, i: int) -> bool {
    0 <= i < ms.len() && ms[i].player == p && ms[i].status == PlayerStatus::ALIVE && 1 <= ms[
        i
    ].game as int <= gs.len() && gs[ms[i].game as int - 1].status != GameStatus::FINISHED
}

/// Player `p` is an alive member of some unfinished game.
pub open spec fn has_active_membership(ms: Seq<PlayerGame>, gs: Seq<Game>, p: i32) -> bool {
    exists|i: int| active_membership_at(ms, gs, p, i)
}

/// Codename `c` is already used inside game `g`.
pub open spec fn codename_used(ms: Seq<PlayerGame>, g: i32, c: Seq<char>) -> bool {
    exists|i: int| 0 <= i < ms.len() && (#[trigger] ms[i]).game == g && ms[i].codename@ == c
}

/// Some stored player carries auth subject `u`.
pub open spec fn has_uid(ps: Seq<Player>, u: Seq<char>) -> bool {
    exists|i: int| 0 <= i < ps.len() && (#[trigger] ps[i]).uid@ == u
}

/// Code `c` resolves to a game that is still waiting for players.
pub open spec fn has_joinable_game(gs: Seq<Game>, c: Seq<char>) -> bool {
    has_game_code(gs, c) && gs[game_idx_of_code(gs, c)].status == GameStatus::WAITING_FOR_PLAYERS
}

/// Game `g` has at least two distinct alive members.
pub open spec fn two_alive(ms: Seq<PlayerGame>, g: i32) -> bool {
    exists|p1: i32, p2: i32|
        p1 != p2 && #[trigger] is_alive(ms, g, p1) && #[trigger] is_alive(ms, g, p2)
}

/// One ring edge row, as written at game start: position `k` of the
/// witness hunts position `k + 1` (wrapping).
pub open spec fn edge_row(r: Seq<i32>, g: i32, now: i64, k: int) -> Assignment {
    Assignment {
        assassin: r[k],
        target: r[ring_next_idx(r.len() as int, k)],
        game: g,
        status: TargetStatus::CURRENT,
        start_time: now,
        end_time: None,
    }
}

/// The block of CURRENT rows that game start appends: one edge per member.
pub open spec fn ring_edge_rows(r: Seq<i32>, g: i32, now: i64) -> Seq<Assignment> {
    Seq::new(r.len(), |k: int| edge_row(r, g, now, k))
}

/// The game row as game start rewrites it.
pub open spec fn started_game(g: Game, now: i64) -> Game {
    Game {
        id: g.id,
        name: g.name,
        owner: g.owner,
        code: g.code,
        status: GameStatus::ACTIVE,
        created_at: g.created_at,
        start_time: Some(now),
        end_time: Some((now + GAME_DURATION_TICKS) as i64),
    }
}

/// The game row as natural or manual termination rewrites it.
pub open spec fn finished_game(g: Game, now: i64) -> Game {
    Game {
        id: g.id,
        name: g.name,
        owner: g.owner,
        code: g.code,
        status: GameStatus::FINISHED,
        created_at: g.created_at,
        start_time: g.start_time,
        end_time: Some(now),
    }
}

/// An assignment row closed with a terminal status and an end timestamp.
pub open spec fn closed_row(r: Assignment, st: TargetStatus, now: i64) -> Assignment {
    Assignment {
        assassin: r.assassin,
        target: r.target,
        game: r.game,
        status: st,
        start_time: r.start_time,
        end_time: Some(now),
    }
}

/// The CURRENT edge that ring repair opens from the exiting player's
/// assassin to the exiting player's former target.
pub open spec fn bridge_row(a: i32, t: i32, g: i32, now: i64) -> Assignment {
    Assignment { assassin: a, target: t, game: g, status: TargetStatus::CURRENT, start_time: now, end_time: None }
}

/// A membership row with its status moved to a terminal state.
pub open spec fn retired_row(m: PlayerGame, st: PlayerStatus) -> PlayerGame {
    PlayerGame {
        player: m.player,
        game: m.game,
        codename: m.codename,
        status: st,
        joined_at: m.joined_at,
    }
}

/// The member listing a game info query returns: one entry per
/// membership row of the game, in row order.
pub open spec fn member_infos(ms: Seq<PlayerGame>, ps: Seq<Player>, g: i32) -> Seq<GamePlayerInfo>
    decreases ms.len(),
{
    if ms.len() == 0 {
        Seq::empty()
    } else {
        member_infos(ms.drop_last(), ps, g) + if ms.last().game == g {
            seq![GamePlayerInfo {
                nickname: ps[ms.last().player as int - 1].nickname,
                picture: ps[ms.last().player as int - 1].picture,
            }]
        } else {
            Seq::empty()
        }
    }
}

/// The codename listing a codenames query returns, in row order.
pub open spec fn member_codenames(ms: Seq<PlayerGame>, g: i32) -> Seq<String>
    decreases ms.len(),
{
    if ms.len() == 0 {
        Seq::empty()
    } else {
        member_codenames(ms.drop_last(), g) + if ms.last().game == g {
            seq![ms.last().codename]
        } else {
            Seq::empty()
        }
    }
}

/// Whether one membership row counts as an alive member of `g`.
pub open spec fn alive_contrib(row: PlayerGame, g: i32) -> nat {
    if row.game == g && row.status == PlayerStatus::ALIVE {
        1nat
    } else {
        0nat
    }
}

/// Number of ALIVE membership rows of game `g`.
pub open spec fn num_alive(ms: Seq<PlayerGame>, g: i32) -> nat
    decreases ms.len(),
{
    if ms.len() == 0 {
        0nat
    } else {
        num_alive(ms.drop_last(), g) + alive_contrib(ms.last(), g)
    }
}

/// The in-memory store.  Record ids are dense: the i-th player or game has
/// id i+1, so an id doubles as an index.
pub struct Engine {
    pub players: Vec<Player>,
    pub games: Vec<Game>,
    pub memberships: Vec<PlayerGame>,
    pub assignments: Vec<Assignment>,
}

impl Engine {
    /// Player ids are dense.
    pub open spec fn players_wf(self) -> bool {
        forall|i: int|
            0 <= i < self.players@.len() ==> (#[trigger] self.players@[i]).id as int == i + 1
    }

    /// Game ids are dense, every game has a name and a registered owner,
    /// and codes are well-formed and pairwise distinct.
    pub open spec fn games_wf(self) -> bool {
        &&& forall|i: int|
            0 <= i < self.games@.len() ==> (#[trigger] self.games@[i]).id as int == i + 1
        &&& forall|i: int| 0 <= i < self.games@.len() ==> (#[trigger] self.games@[i]).name is Some
        &&& forall|i: int|
            0 <= i < self.games@.len() ==> 1 <= (#[trigger] self.games@[i]).owner as int
                <= self.players@.len()
        &&& forall|i: int|
            0 <= i < self.games@.len() ==> is_game_code((#[trigger] self.games@[i]).code@)
        &&& forall|i: int, j: int|
            0 <= i < j < self.games@.len() ==> (#[trigger] self.games@[i]).code@
                != (#[trigger] self.games@[j]).code@
    }

    /// Membership rows reference stored games and players, are unique per
    /// (player, game), and codenames are unique within a game.
    pub open spec fn memberships_wf(self) -> bool {
        &&& forall|i: int|
            0 <= i < self.memberships@.len() ==> 1 <= (#[trigger] self.memberships@[i]).game as int
                <= self.games@.len() && 1 <= self.memberships@[i].player as int
                <= self.players@.len()
        &&& member_rows_unique(self.memberships@)
        &&& forall|i: int, j: int|
            0 <= i < j < self.memberships@.len() && (#[trigger] self.memberships@[i]).game == (
            #[trigger] self.memberships@[j]).game ==> self.memberships@[i].codename@
                != self.memberships@[j].codename@
    }

    /// A player is alive in at most one unfinished game.
    pub open spec fn single_active(self) -> bool {
        forall|i: int, j: int|
            0 <= i < self.memberships@.len() && 0 <= j < self.memberships@.len() && i != j && (
            #[trigger] self.memberships@[i]).player == (#[trigger] self.memberships@[j]).player
                && self.memberships@[i].status == PlayerStatus::ALIVE
                && self.memberships@[j].status == PlayerStatus::ALIVE
                ==> self.games@[self.memberships@[i].game as int - 1].status == GameStatus::FINISHED
                || self.games@[self.memberships@[j].game as int - 1].status == GameStatus::FINISHED
    }

    /// Assignment rows reference stored games and players, and CURRENT
    /// edges are unique per assassin and per target within a game.
    pub open spec fn assignments_wf(self) -> bool {
        &&& forall|i: int|
            0 <= i < self.assignments@.len() ==> 1 <= (#[trigger] self.assignments@[i]).game as int
                <= self.games@.len() && 1 <= self.assignments@[i].assassin as int
                <= self.players@.len() && 1 <= self.assignments@[i].target as int
                <= self.players@.len()
        &&& cur_edges_unique(self.assignments@)
    }

    /// Every ACTIVE game has a valid ring; every other game has no CURRENT
    /// edges at all.
    pub open spec fn rings_ok(self) -> bool {
        forall|gi: int|
            0 <= gi < self.games@.len() ==> if (#[trigger] self.games@[gi]).status
                == GameStatus::ACTIVE {
                game_has_ring(self.assignments@, self.memberships@, self.games@[gi].id)
            } else {
                no_cur_edges(self.assignments@, self.games@[gi].id)
            }
    }

    /// The store's structural invariant.
    pub open spec fn wf(self) -> bool {
        &&& self.players_wf()
        &&& self.games_wf()
        &&& self.memberships_wf()
        &&& self.single_active()
        &&& self.assignments_wf()
        &&& self.rings_ok()
    }

    /// An empty store.
    pub fn new() -> (e: Engine)
        ensures
            e.wf(),
            e.players@.len() == 0,
            e.games@.len() == 0,
            e.memberships@.len() == 0,
            e.assignments@.len() == 0,
    {
        Engine { players: Vec::new(), games: Vec::new(), memberships: Vec::new(), assignments: Vec::new() }
    }

    /// Whether the player has a membership row in the game, of any status.
    pub fn is_member(&self, game_id: i32, player_id: i32) -> (r: bool)
        ensures
            r == has_membership(self.memberships@, game_id, player_id),
    {
        match find_membership_idx(&self.memberships, game_id, player_id) {
            Some(_) => true,
            None => false,
        }
    }

    /// Number of membership rows of the game with status ALIVE.
    pub fn alive_count(&self, game_id: i32) -> (r: usize)
        ensures
            r == num_alive(self.memberships@, game_id),
    {
        let n = self.memberships.len();
        let mut cnt: usize = 0;
        let mut i: usize = 0;
        while i < n
            invariant
                n == self.memberships@.len(),
                i <= n,
                cnt <= i,
                cnt == num_alive(self.memberships@.take(i as int), game_id),
            decreases n - i,
        {
            proof {
                assert(self.memberships@.take(i + 1).drop_last() =~= self.memberships@.take(
                    i as int,
                ));
                assert(self.memberships@.take(i + 1).last() == self.memberships@[i as int]);
            }
            let row = &self.memberships[i];
            if row.game == game_id && row.status == PlayerStatus::ALIVE {
                cnt = cnt + 1;
            }
            i = i + 1;
        }
        proof {
            assert(self.memberships@.take(n as int) =~= self.memberships@);
        }
        cnt
    }
}

/// Two engine states hold the same records.
pub open spec fn unchanged(e1: Engine, e2: Engine) -> bool {
    &&& e1.players@ == e2.players@
    &&& e1.games@ == e2.games@
    &&& e1.memberships@ == e2.memberships@
    &&& e1.assignments@ == e2.assignments@
}

// ---------------------------------------------------------------------------
// Small exec helpers
// ---------------------------------------------------------------------------

fn clone_opt_string(o: &Option<String>) -> (r: Option<String>)
    ensures
        r == *o,
{
    match o {
        Some(s) => Some(s.clone()),
        None => None,
    }
}

fn clone_game(g: &Game) -> (r: Game)
    ensures
        r == *g,
{
    Game {
        id: g.id,
        name: clone_opt_string(&g.name),
        owner: g.owner,
        code: g.code.clone(),
        status: g.status,
        created_at: g.created_at,
        start_time: g.start_time,
        end_time: g.end_time,
    }
}

fn clone_player(p: &Player) -> (r: Player)
    ensures
        r == *p,
{
    Player {
        id: p.id,
        nickname: p.nickname.clone(),
        email: p.email.clone(),
        uid: p.uid.clone(),
        role: p.role,
        picture: clone_opt_string(&p.picture),
        registered_at: p.registered_at,
    }
}

/// Index of the game carrying `code`, if any.
fn find_game_idx(games: &Vec<Game>, code: &String) -> (r: Option<usize>)
    ensures
        match r {
            Some(i) => i < games@.len() && games@[i as int].code@ == code@,
            None => !has_game_code(games@, code@),
        },
{
    let n = games.len();
    let mut i: usize = 0;
    while i < n
        invariant
            n == games@.len(),
            i <= n,
            forall|j: int| 0 <= j < i ==> (#[trigger] games@[j]).code@ != code@,
        decreases n - i,
    {
        if games[i].code == *code {
            return Some(i);
        }
        i = i + 1;
    }
    None
}

/// Index of `p`'s membership row in game `g`, if any.
fn find_membership_idx(ms: &Vec<PlayerGame>, g: i32, p: i32) -> (r: Option<usize>)
    ensures
        match r {
            Some(i) => is_member_row(ms@, g, p, i as int),
            None => !has_membership(ms@, g, p),
        },
{
    let n = ms.len();
    let mut i: usize = 0;
    while i < n
        invariant
            n == ms@.len(),
            i <= n,
            forall|j: int| 0 <= j < i ==> !is_member_row(ms@, g, p, j),
        decreases n - i,
    {
        let row = &ms[i];
        if row.game == g && row.player == p {
            return Some(i);
        }
        i = i + 1;
    }
    None
}

/// Index of assassin `a`'s CURRENT outgoing edge in game `g`, if any.
fn find_cur_out(asg: &Vec<Assignment>, g: i32, a: i32) -> (r: Option<usize>)
    ensures
        match r {
            Some(i) => cur_out_at(asg@, g, a, i as int),
            None => !has_cur_out(asg@, g, a),
        },
{
    let n = asg.len();
    let mut i: usize = 0;
    while i < n
        invariant
            n == asg@.len(),
            i <= n,
            forall|j: int| 0 <= j < i ==> !cur_out_at(asg@, g, a, j),
        decreases n - i,
    {
        let row = &asg[i];
        if row.game == g && row.assassin == a
            && row.status == TargetStatus::CURRENT {
            return Some(i);
        }
        i = i + 1;
    }
    None
}

/// Index of target `t`'s CURRENT incoming edge in game `g`, if any.
fn find_cur_in(asg: &Vec<Assignment>, g: i32, t: i32) -> (r: Option<usize>)
    ensures
        match r {
            Some(i) => cur_in_at(asg@, g, t, i as int),
            None => !has_cur_in(asg@, g, t),
        },
{
    let n = asg.len();
    let mut i: usize = 0;
    while i < n
        invariant
            n == asg@.len(),
            i <= n,
            forall|j: int| 0 <= j < i ==> !cur_in_at(asg@, g, t, j),
        decreases n - i,
    {
        let row = &asg[i];
        if row.game == g && row.target == t
            && row.status == TargetStatus::CURRENT {
            return Some(i);
        }
        i = i + 1;
    }
    None
}

/// Whether `p` is alive in some unfinished game.
fn check_active_membership(ms: &Vec<PlayerGame>, games: &Vec<Game>, p: i32) -> (r: bool)
    requires
        forall|i: int|
            0 <= i < ms@.len() ==> 1 <= (#[trigger] ms@[i]).game as int <= games@.len(),
    ensures
        r == has_active_membership(ms@, games@, p),
{
    let n = ms.len();
    let mut i: usize = 0;
    while i < n
        invariant
            n == ms@.len(),
            i <= n,
            forall|i2: int| 0 <= i2 < ms@.len() ==> 1 <= (#[trigger] ms@[i2]).game as int
                <= games@.len(),
            forall|j: int| 0 <= j < i ==> !active_membership_at(ms@, games@, p, j),
        decreases n - i,
    {
        let row = &ms[i];
        if row.player == p && row.status == PlayerStatus::ALIVE {
            let gi = (row.game - 1) as usize;
            if games[gi].status != GameStatus::FINISHED {
                assert(active_membership_at(ms@, games@, p, i as int));
                return true;
            }
        }
        i = i + 1;
    }
    false
}

/// Index of an ALIVE membership of `p` in an unfinished game, if any.
fn find_active_idx(ms: &Vec<PlayerGame>, games: &Vec<Game>, p: i32) -> (r: Option<usize>)
    requires
        forall|i: int|
            0 <= i < ms@.len() ==> 1 <= (#[trigger] ms@[i]).game as int <= games@.len(),
    ensures
        match r {
            Some(i) => active_membership_at(ms@, games@, p, i as int),
            None => !has_active_membership(ms@, games@, p),
        },
{
    let n = ms.len();
    let mut i: usize = 0;
    while i < n
        invariant
            n == ms@.len(),
            i <= n,
            forall|i2: int| 0 <= i2 < ms@.len() ==> 1 <= (#[trigger] ms@[i2]).game as int
                <= games@.len(),
            forall|j: int| 0 <= j < i ==> !active_membership_at(ms@, games@, p, j),
        decreases n - i,
    {
        let row = &ms[i];
        if row.player == p && row.status == PlayerStatus::ALIVE {
            let gi = (row.game - 1) as usize;
            if games[gi].status != GameStatus::FINISHED {
                assert(active_membership_at(ms@, games@, p, i as int));
                return Some(i);
            }
        }
        i = i + 1;
    }
    None
}

/// Whether `name` is already a codename inside game `g`.
fn check_codename_used(ms: &Vec<PlayerGame>, g: i32, name: &String) -> (r: bool)
    ensures
        r == codename_used(ms@, g, name@),
{
    let n = ms.len();
    let mut i: usize = 0;
    while i < n
        invariant
            n == ms@.len(),
            i <= n,
            forall|j: int|
                0 <= j < i ==> !((#[trigger] ms@[j]).game == g && ms@[j].codename@ == name@),
        decreases n - i,
    {
        let row = &ms[i];
        if row.game == g && row.codename == *name {
            return true;
        }
        i = i + 1;
    }
    false
}

/// How many draws an identifier-retry loop makes before giving up; with
/// 36^8 possible codes a retry is already vanishingly rare.
pub const ID_RETRY_LIMIT: u32 = 4096;

/// Draws game codes until one is unused: the collision-safe identifier
/// generation protocol (collisions are resolved by retry, not pre-check).
/// Gives up after `ID_RETRY_LIMIT` colliding draws; a draw can only
/// collide when some game is stored at all.
fn gen_unique_code(games: &Vec<Game>) -> (c: Option<String>)
    ensures
        match c {
            Some(c) => is_game_code(c@) && !has_game_code(games@, c@),
            None => games@.len() > 0,
        },
{
    let mut fuel: u32 = ID_RETRY_LIMIT;
    while fuel > 0
        invariant
            fuel == ID_RETRY_LIMIT || games@.len() > 0,
        decreases fuel,
    {
        let c = get_game_code();
        match find_game_idx(games, &c) {
            None => { return Some(c); },
            Some(i) => {
                assert(games@.len() > 0);
            },
        }
        fuel = fuel - 1;
    }
    None
}

/// Draws codenames until one is unique within game `g`; gives up after
/// `ID_RETRY_LIMIT` colliding draws.  A draw can only collide when the
/// game has some membership row at all.
fn gen_unique_codename(ms: &Vec<PlayerGame>, g: i32) -> (c: Option<String>)
    ensures
        match c {
            Some(c) => !codename_used(ms@, g, c@),
            None => exists|i: int| 0 <= i < ms@.len() && (#[trigger] ms@[i]).game == g,
        },
{
    let mut fuel: u32 = ID_RETRY_LIMIT;
    while fuel > 0
        invariant
            fuel == ID_RETRY_LIMIT || exists|i: int|
                0 <= i < ms@.len() && (#[trigger] ms@[i]).game == g,
        decreases fuel,
    {
        let c = get_agent_name();
        if !check_codename_used(ms, g, &c) {
            return Some(c);
        }
        proof {
            let i = choose|i: int|
                0 <= i < ms@.len() && (#[trigger] ms@[i]).game == g && ms@[i].codename@ == c@;
            assert(0 <= i < ms@.len() && ms@[i].game == g);
        }
        fuel = fuel - 1;
    }
    None
}

/// Index of the stored player carrying auth subject `uid`, if any.
fn find_player_by_uid(players: &Vec<Player>, uid: &String) -> (r: Option<usize>)
    ensures
        match r {
            Some(i) => i < players@.len() && players@[i as int].uid@ == uid@,
            None => !has_uid(players@, uid@),
        },
{
    let n = players.len();
    let mut i: usize = 0;
    while i < n
        invariant
            n == players@.len(),
            i <= n,
            forall|j: int| 0 <= j < i ==> (#[trigger] players@[j]).uid@ != uid@,
        decreases n - i,
    {
        if players[i].uid == *uid {
            return Some(i);
        }
        i = i + 1;
    }
    None
}

/// The alive members of game `g`, each exactly once.
fn collect_alive(ms: &Vec<PlayerGame>, g: i32) -> (v: Vec<i32>)
    requires
        member_rows_unique(ms@),
    ensures
        distinct_seq(v@),
        forall|p: i32| #[trigger] v@.contains(p) <==> is_alive(ms@, g, p),
{
    let n = ms.len();
    let mut v: Vec<i32> = Vec::new();
    let mut i: usize = 0;
    while i < n
        invariant
            n == ms@.len(),
            i <= n,
            member_rows_unique(ms@),
            distinct_seq(v@),
            forall|p: i32| #[trigger] v@.contains(p) <==> exists|j: int|
                0 <= j < i && is_alive_row(ms@, g, p, j),
        decreases n - i,
    {
        let row = &ms[i];
        if row.game == g && row.status == PlayerStatus::ALIVE {
            let ghost before = v@;
            proof {
                if before.contains(row.player) {
                    let j = choose|j: int| 0 <= j < i && is_alive_row(ms@, g, row.player, j);
                    assert(is_member_row(ms@, g, row.player, j));
                    assert(is_member_row(ms@, g, row.player, i as int));
                    assert(false);
                }
            }
            v.push(row.player);
            proof {
                assert(v@ =~= before.push(ms@[i as int].player));
                assert forall|x: int, y: int| 0 <= x < y < v@.len() implies #[trigger] v@[x]
                    != #[trigger] v@[y] by {
                    if y < before.len() {
                        assert(v@[x] == before[x] && v@[y] == before[y]);
                    } else {
                        assert(v@[x] == before[x]);
                        assert(before.contains(before[x]));
                    }
                }
                assert forall|p: i32| #[trigger] v@.contains(p) <==> exists|j: int|
                    0 <= j < i + 1 && is_alive_row(ms@, g, p, j) by {
                    if v@.contains(p) {
                        let ix = choose|ix: int| 0 <= ix < v@.len() && v@[ix] == p;
                        if ix < before.len() {
                            assert(before[ix] == p);
                            assert(before.contains(p));
                        } else {
                            assert(p == ms@[i as int].player);
                            assert(is_alive_row(ms@, g, p, i as int));
                        }
                    }
                    if exists|j: int| 0 <= j < i + 1 && is_alive_row(ms@, g, p, j) {
                        let j = choose|j: int| 0 <= j < i + 1 && is_alive_row(ms@, g, p, j);
                        if j < i {
                            assert(before.contains(p));
                            let ix = choose|ix: int| 0 <= ix < before.len() && before[ix] == p;
                            assert(v@[ix] == p);
                        } else {
                            assert(v@[before.len() as int] == p);
                        }
                    }
                }
            }
        } else {
            proof {
                assert forall|p: i32| #[trigger] v@.contains(p) <==> exists|j: int|
                    0 <= j < i + 1 && is_alive_row(ms@, g, p, j) by {
                    if exists|j: int| 0 <= j < i + 1 && is_alive_row(ms@, g, p, j) {
                        let j = choose|j: int| 0 <= j < i + 1 && is_alive_row(ms@, g, p, j);
                        assert(j < i);
                    }
                }
            }
        }
        i = i + 1;
    }
    proof {
        assert forall|p: i32| #[trigger] v@.contains(p) <==> is_alive(ms@, g, p) by {
            if is_alive(ms@, g, p) {
                let j = choose|j: int| is_alive_row(ms@, g, p, j);
                assert(0 <= j < n && is_alive_row(ms@, g, p, j));
            }
        }
    }
    v
}

/// Swaps two positions; the value set and distinctness are unchanged.
fn swap_members(v: &mut Vec<i32>, i: usize, j: usize)
    requires
        i < old(v)@.len(),
        j < old(v)@.len(),
    ensures
        final(v)@.len() == old(v)@.len(),
        forall|p: i32| #[trigger] final(v)@.contains(p) <==> old(v)@.contains(p),
        distinct_seq(old(v)@) ==> distinct_seq(final(v)@),
{
    let a = v[i];
    let b = v[j];
    v.set(i, b);
    v.set(j, a);
    proof {
        let s1 = old(v)@;
        let s2 = v@;
        assert(s2 =~= s1.update(i as int, s1[j as int]).update(j as int, s1[i as int]));
        assert forall|p: i32| #[trigger] s2.contains(p) <==> s1.contains(p) by {
            if s2.contains(p) {
                let ix = choose|ix: int| 0 <= ix < s2.len() && s2[ix] == p;
                if ix == j as int {
                    assert(s1[i as int] == p);
                } else if ix == i as int {
                    assert(s1[j as int] == p);
                } else {
                    assert(s1[ix] == p);
                }
            }
            if s1.contains(p) {
                let ix = choose|ix: int| 0 <= ix < s1.len() && s1[ix] == p;
                if ix == i as int {
                    assert(s2[j as int] == p);
                } else if ix == j as int {
                    assert(s2[i as int] == p);
                } else {
                    assert(s2[ix] == p);
                }
            }
        }
        if distinct_seq(s1) {
            assert forall|x: int, y: int| 0 <= x < y < s2.len() implies #[trigger] s2[x]
                != #[trigger] s2[y] by {
                let ox: int = if x == i as int { j as int } else if x == j as int { i as int } else { x };
                let oy: int = if y == i as int { j as int } else if y == j as int { i as int } else { y };
                assert(s2[x] == s1[ox]);
                assert(s2[y] == s1[oy]);
                assert(ox != oy);
            }
        }
    }
}

/// A uniformly random permutation of the members, in place: the
/// Fisher-Yates shuffle.  Relies only on the index sampler; the set of
/// members and their distinctness are preserved.
fn fisher_yates(v: &mut Vec<i32>)
    ensures
        final(v)@.len() == old(v)@.len(),
        forall|p: i32| #[trigger] final(v)@.contains(p) <==> old(v)@.contains(p),
        distinct_seq(old(v)@) ==> distinct_seq(final(v)@),
{
    let n = v.len();
    if n <= 1 {
        return ;
    }
    let mut k: usize = n - 1;
    while k > 0
        invariant
            v@.len() == n,
            k < n,
            forall|p: i32| #[trigger] v@.contains(p) <==> old(v)@.contains(p),
            distinct_seq(old(v)@) ==> distinct_seq(v@),
        decreases k,
    {
        let j = crate::genstring::rand_index(k + 1);
        swap_members(v, j, k);
        k = k - 1;
    }
}

// ---------------------------------------------------------------------------
// Shared proof steps
// ---------------------------------------------------------------------------

/// Appending a membership row of a game that is still waiting (or not
/// stored at all) leaves every stored game's ring clause intact.
proof fn lemma_rings_after_membership_push(
    gs: Seq<Game>,
    asg: Seq<Assignment>,
    ms: Seq<PlayerGame>,
    m: PlayerGame,
)
    requires
        forall|gi: int|
            0 <= gi < gs.len() ==> if (#[trigger] gs[gi]).status == GameStatus::ACTIVE {
                game_has_ring(asg, ms, gs[gi].id)
            } else {
                no_cur_edges(asg, gs[gi].id)
            },
        forall|gi: int|
            0 <= gi < gs.len() && (#[trigger] gs[gi]).id == m.game ==> gs[gi].status
                == GameStatus::WAITING_FOR_PLAYERS,
    ensures
        forall|gi: int|
            0 <= gi < gs.len() ==> if (#[trigger] gs[gi]).status == GameStatus::ACTIVE {
                game_has_ring(asg, ms.push(m), gs[gi].id)
            } else {
                no_cur_edges(asg, gs[gi].id)
            },
{
    lemma_alive_push(ms, m);
    assert forall|gi: int|
        0 <= gi < gs.len() && (#[trigger] gs[gi]).status == GameStatus::ACTIVE implies game_has_ring(
        asg,
        ms.push(m),
        gs[gi].id,
    ) by {
        let g = gs[gi].id;
        assert(g != m.game);
        let r = choose|r: Seq<i32>| is_ring(r, asg, ms, g);
        assert(is_ring(r, asg, ms, g));
        assert forall|p: i32| #[trigger] is_alive(ms.push(m), g, p) <==> is_alive(ms, g, p) by {
            assert(is_alive(ms.push(m), g, p) <==> (is_alive(ms, g, p) || (m.game == g && m.player
                == p && m.status == PlayerStatus::ALIVE)));
        }
        lemma_ring_frame(r, asg, asg, ms, ms.push(m), g);
        assert(is_ring(r, asg, ms.push(m), g));
    }
}

/// After game start the store is well-formed again: the started game's
/// appended edge block is exactly the ring over the shuffled members, and
/// no other game's rows moved.
#[verifier::rlimit(50)]
proof fn lemma_start_game_post(e1: Engine, e2: Engine, gi: int, rw: Seq<i32>, now: i64)
    requires
        e1.wf(),
        0 <= gi < e1.games@.len(),
        e1.games@[gi].status == GameStatus::WAITING_FOR_PLAYERS,
        rw.len() >= 2,
        distinct_seq(rw),
        forall|p: i32| #[trigger] rw.contains(p) <==> is_alive(
            e1.memberships@,
            e1.games@[gi].id,
            p,
        ),
        e2.players@ == e1.players@,
        e2.memberships@ == e1.memberships@,
        e2.games@ == e1.games@.update(gi, started_game(e1.games@[gi], now)),
        e2.assignments@ == e1.assignments@ + ring_edge_rows(rw, e1.games@[gi].id, now),
    ensures
        e2.wf(),
{
    let gs1 = e1.games@;
    let gs2 = e2.games@;
    let ms1 = e1.memberships@;
    let asg1 = e1.assignments@;
    let asg2 = e2.assignments@;
    let gid = gs1[gi].id;
    let base = asg1.len() as int;
    assert(asg2.len() == base + rw.len());
    assert(forall|i: int| 0 <= i < base ==> #[trigger] asg2[i] == asg1[i]);
    assert forall|m: int| 0 <= m < rw.len() implies #[trigger] asg2[base + m] == edge_row(
        rw,
        gid,
        now,
        m,
    ) by {
        assert(asg2[base + m] == ring_edge_rows(rw, gid, now)[m]);
    }
    assert(forall|i: int| 0 <= i < gs1.len() && i != gi ==> #[trigger] gs2[i] == gs1[i]);
    assert(gs2[gi] == started_game(gs1[gi], now));
    assert(forall|i: int|
        0 <= i < gs2.len() ==> (#[trigger] gs2[i]).id == gs1[i].id && gs2[i].code@ == gs1[i].code@
            && gs2[i].owner == gs1[i].owner && gs2[i].name == gs1[i].name);
    assert forall|i: int, j: int| 0 <= i < j < gs2.len() implies (#[trigger] gs2[i]).code@ != (
    #[trigger] gs2[j]).code@ by {
        assert(gs1[i].code@ != gs1[j].code@);
    }
    assert(e2.players_wf());
    assert(e2.games_wf());
    assert(e2.memberships_wf());
    // single_active: the started game was not FINISHED and is not FINISHED
    // now, so every conclusion survives
    assert forall|i: int, j: int|
        0 <= i < ms1.len() && 0 <= j < ms1.len() && i != j && (#[trigger] ms1[i]).player == (
        #[trigger] ms1[j]).player && ms1[i].status == PlayerStatus::ALIVE && ms1[j].status
        == PlayerStatus::ALIVE implies gs2[ms1[i].game as int - 1].status == GameStatus::FINISHED
        || gs2[ms1[j].game as int - 1].status == GameStatus::FINISHED by {
        assert(gs1[ms1[i].game as int - 1].status == GameStatus::FINISHED || gs1[ms1[j].game as int
            - 1].status == GameStatus::FINISHED);
        if gs1[ms1[i].game as int - 1].status == GameStatus::FINISHED {
            assert(ms1[i].game as int - 1 != gi);
            assert(gs2[ms1[i].game as int - 1].status == GameStatus::FINISHED);
        } else {
            assert(ms1[j].game as int - 1 != gi);
            assert(gs2[ms1[j].game as int - 1].status == GameStatus::FINISHED);
        }
    }
    assert(e2.single_active());
    // assignment refs: every new row's endpoints are alive members
    assert forall|i: int|
        0 <= i < asg2.len() implies 1 <= (#[trigger] asg2[i]).game as int <= gs2.len() && 1 <= asg2[
        i
    ].assassin as int <= e2.players@.len() && 1 <= asg2[i].target as int <= e2.players@.len() by {
        if i >= base {
            let m = i - base;
            assert(asg2[i] == edge_row(rw, gid, now, m));
            assert(rw.contains(rw[m]));
            assert(is_alive(ms1, gid, rw[m]));
            let j1 = choose|j: int| is_alive_row(ms1, gid, rw[m], j);
            assert(1 <= ms1[j1].player as int <= e1.players@.len());
            let mn = ring_next_idx(rw.len() as int, m);
            assert(rw.contains(rw[mn]));
            assert(is_alive(ms1, gid, rw[mn]));
            let j2 = choose|j: int| is_alive_row(ms1, gid, rw[mn], j);
            assert(1 <= ms1[j2].player as int <= e1.players@.len());
        }
    }
    // no old CURRENT rows of this game: it was WAITING
    assert(no_cur_edges(asg1, gid));
    // uniqueness of CURRENT edges
    assert forall|i: int, j: int|
        0 <= i < j < asg2.len() && #[trigger] asg2[i].game == #[trigger] asg2[j].game && asg2[
        i
    ].status == TargetStatus::CURRENT && asg2[j].status == TargetStatus::CURRENT implies asg2[
        i
    ].assassin != asg2[j].assassin && asg2[i].target != asg2[j].target by {
        if j < base {
        } else if i < base {
            assert(asg2[j] == edge_row(rw, gid, now, j - base));
            assert(asg2[j].game == gid);
            assert(cur_row_of_game(asg1, gid, i));
            assert(false);
        } else {
            let m1 = i - base;
            let m2 = j - base;
            assert(asg2[i] == edge_row(rw, gid, now, m1));
            assert(asg2[j] == edge_row(rw, gid, now, m2));
            assert(rw[m1] != rw[m2]);
            let n1 = ring_next_idx(rw.len() as int, m1);
            let n2 = ring_next_idx(rw.len() as int, m2);
            assert(n1 != n2);
            if n1 < n2 {
                assert(rw[n1] != rw[n2]);
            } else {
                assert(rw[n2] != rw[n1]);
            }
        }
    }
    assert(e2.assignments_wf());
    // the new ring
    assert forall|m: int| 0 <= m < rw.len() implies cur_edge(
        asg2,
        gid,
        #[trigger] rw[m],
        rw[ring_next_idx(rw.len() as int, m)],
    ) by {
        assert(asg2[base + m] == edge_row(rw, gid, now, m));
        assert(cur_at(asg2, gid, rw[m], rw[ring_next_idx(rw.len() as int, m)], base + m));
    }
    assert forall|i: int| #[trigger] cur_row_of_game(asg2, gid, i) implies exists|m: int|
        0 <= m < rw.len() && asg2[i].assassin == #[trigger] rw[m] && asg2[i].target
            == rw[ring_next_idx(rw.len() as int, m)] by {
        if i < base {
            assert(cur_row_of_game(asg1, gid, i));
            assert(false);
        } else {
            let m = i - base;
            assert(asg2[i] == edge_row(rw, gid, now, m));
            assert(0 <= m < rw.len() && asg2[i].assassin == rw[m] && asg2[i].target
                == rw[ring_next_idx(rw.len() as int, m)]);
        }
    }
    assert(is_ring(rw, asg2, ms1, gid));
    // every other game's clause survives
    assert forall|gj: int|
        0 <= gj < gs2.len() implies if (#[trigger] gs2[gj]).status == GameStatus::ACTIVE {
        game_has_ring(asg2, e2.memberships@, gs2[gj].id)
    } else {
        no_cur_edges(asg2, gs2[gj].id)
    } by {
        if gj == gi {
            assert(gs2[gj].status == GameStatus::ACTIVE);
            assert(gs2[gj].id == gid);
            assert(game_has_ring(asg2, ms1, gid));
        } else {
            let og = gs1[gj].id;
            assert(gs2[gj] == gs1[gj]);
            assert(og as int == gj + 1);
            assert(og != gid);
            assert forall|x: i32, y: i32| #[trigger] cur_edge(asg2, og, x, y) <==> cur_edge(
                asg1,
                og,
                x,
                y,
            ) by {
                if cur_edge(asg2, og, x, y) {
                    let ix = choose|ix: int| cur_at(asg2, og, x, y, ix);
                    if ix >= base {
                        assert(asg2[ix] == edge_row(rw, gid, now, ix - base));
                        assert(false);
                    }
                    assert(cur_at(asg1, og, x, y, ix));
                }
                if cur_edge(asg1, og, x, y) {
                    let ix = choose|ix: int| cur_at(asg1, og, x, y, ix);
                    assert(cur_at(asg2, og, x, y, ix));
                }
            }
            if gs1[gj].status == GameStatus::ACTIVE {
                let r0 = choose|r0: Seq<i32>| is_ring(r0, asg1, ms1, og);
                assert(is_ring(r0, asg1, ms1, og));
                lemma_ring_frame(r0, asg1, asg2, ms1, ms1, og);
            } else {
                assert forall|ix: int| !cur_row_of_game(asg2, og, ix) by {
                    if cur_row_of_game(asg2, og, ix) {
                        assert(cur_at(asg2, og, asg2[ix].assassin, asg2[ix].target, ix));
                        assert(cur_edge(asg2, og, asg2[ix].assassin, asg2[ix].target));
                        assert(cur_edge(asg1, og, asg2[ix].assassin, asg2[ix].target));
                        let iy = choose|iy: int|
                            cur_at(asg1, og, asg2[ix].assassin, asg2[ix].target, iy);
                        assert(cur_row_of_game(asg1, og, iy));
                        assert(false);
                    }
                }
            }
        }
    }
    assert(e2.rings_ok());
}

/// After a two-ring collapse: both edges of the finished game are closed,
/// the exiting player's membership is retired, the game is FINISHED, and
/// the store is well-formed again.
#[verifier::rlimit(50)]
proof fn lemma_removal_collapse_post(
    e1: Engine,
    e2: Engine,
    gi: int,
    x: i32,
    r: Seq<i32>,
    kx: int,
    ii: int,
    il: int,
    mi: int,
    st_in: TargetStatus,
    st_out: TargetStatus,
    xst: PlayerStatus,
    now: i64,
)
    requires
        e1.wf(),
        0 <= gi < e1.games@.len(),
        e1.games@[gi].status == GameStatus::ACTIVE,
        is_ring(r, e1.assignments@, e1.memberships@, e1.games@[gi].id),
        r.len() == 2,
        0 <= kx < r.len(),
        r[kx] == x,
        cur_in_at(e1.assignments@, e1.games@[gi].id, x, ii),
        cur_out_at(e1.assignments@, e1.games@[gi].id, x, il),
        is_member_row(e1.memberships@, e1.games@[gi].id, x, mi),
        st_in != TargetStatus::CURRENT,
        st_out != TargetStatus::CURRENT,
        xst != PlayerStatus::ALIVE,
        e2.players@ == e1.players@,
        e2.assignments@ == e1.assignments@.update(
            ii,
            closed_row(e1.assignments@[ii], st_in, now),
        ).update(il, closed_row(e1.assignments@[il], st_out, now)),
        e2.games@ == e1.games@.update(gi, finished_game(e1.games@[gi], now)),
        e2.memberships@ == e1.memberships@.update(mi, retired_row(e1.memberships@[mi], xst)),
    ensures
        e2.wf(),
        no_cur_edges(e2.assignments@, e1.games@[gi].id),
        forall|p: i32| #[trigger] is_alive(e2.memberships@, e1.games@[gi].id, p) <==> (is_alive(
            e1.memberships@,
            e1.games@[gi].id,
            p,
        ) && p != x),
        forall|g2: i32, p2: i32|
            g2 != e1.games@[gi].id ==> (#[trigger] is_alive(e2.memberships@, g2, p2) <==> is_alive(
                e1.memberships@,
                g2,
                p2,
            )),
{
    let gid = e1.games@[gi].id;
    let gs1 = e1.games@;
    let ms1 = e1.memberships@;
    let asg1 = e1.assignments@;
    let gs2 = e2.games@;
    let ms2 = e2.memberships@;
    let asg2 = e2.assignments@;
    let n = r.len() as int;
    lemma_ring_neighbors(r, asg1, ms1, gid, x, kx, ii, il);
    let row_in = closed_row(asg1[ii], st_in, now);
    let row_out = closed_row(asg1[il], st_out, now);
    // in a two-ring, the exiting player's two edges are the only CURRENT
    // rows of the game
    assert forall|i: int| #[trigger] cur_row_of_game(asg1, gid, i) implies i == ii || i == il by {
        let k = choose|k: int|
            0 <= k < r.len() && asg1[i].assassin == r[k] && asg1[i].target == r[ring_next_idx(n, k)];
        if k == kx {
            // the exiting player's outgoing row
            if i != il {
                if i < il {
                    assert(asg1[i].assassin != asg1[il].assassin);
                } else {
                    assert(asg1[il].assassin != asg1[i].assassin);
                }
                assert(false);
            }
        } else {
            assert(k == ring_prev_idx(n, kx));
            assert(asg1[i].assassin == asg1[ii].assassin);
            if i != ii {
                if i < ii {
                    assert(asg1[i].assassin != asg1[ii].assassin);
                } else {
                    assert(asg1[ii].assassin != asg1[i].assassin);
                }
                assert(false);
            }
        }
    }
    lemma_edges_close_pair(asg1, ii, il, row_in, row_out, gid);
    lemma_alive_update(ms1, mi, retired_row(ms1[mi], xst));
    // membership field preservation
    assert(forall|i: int|
        0 <= i < ms2.len() ==> (#[trigger] ms2[i]).player == ms1[i].player && ms2[i].game == ms1[
        i
    ].game && ms2[i].codename@ == ms1[i].codename@);
    // game field preservation
    assert(forall|i: int| 0 <= i < gs1.len() && i != gi ==> #[trigger] gs2[i] == gs1[i]);
    assert(gs2[gi] == finished_game(gs1[gi], now));
    assert(forall|i: int|
        0 <= i < gs2.len() ==> (#[trigger] gs2[i]).id == gs1[i].id && gs2[i].code@ == gs1[i].code@
            && gs2[i].owner == gs1[i].owner && gs2[i].name == gs1[i].name);
    assert forall|i: int, j: int| 0 <= i < j < gs2.len() implies (#[trigger] gs2[i]).code@ != (
    #[trigger] gs2[j]).code@ by {
        assert(gs1[i].code@ != gs1[j].code@);
    }
    // assignment field preservation
    assert(forall|i: int|
        0 <= i < asg2.len() ==> (#[trigger] asg2[i]).game == asg1[i].game && asg2[i].assassin
            == asg1[i].assassin && asg2[i].target == asg1[i].target);
    assert(e2.players_wf());
    assert(e2.games_wf());
    assert(e2.memberships_wf());
    // single_active: alive rows only shrink; the finished set only grows
    assert forall|i: int, j: int|
        0 <= i < ms2.len() && 0 <= j < ms2.len() && i != j && (#[trigger] ms2[i]).player == (
        #[trigger] ms2[j]).player && ms2[i].status == PlayerStatus::ALIVE && ms2[j].status
        == PlayerStatus::ALIVE implies gs2[ms2[i].game as int - 1].status == GameStatus::FINISHED
        || gs2[ms2[j].game as int - 1].status == GameStatus::FINISHED by {
        assert(i != mi && j != mi);
        assert(ms2[i] == ms1[i] && ms2[j] == ms1[j]);
        assert(gs1[ms1[i].game as int - 1].status == GameStatus::FINISHED || gs1[ms1[j].game as int
            - 1].status == GameStatus::FINISHED);
        if gs1[ms1[i].game as int - 1].status == GameStatus::FINISHED {
            assert(ms1[i].game as int - 1 != gi);
        } else {
            assert(ms1[j].game as int - 1 != gi);
        }
    }
    assert(e2.single_active());
    assert(e2.assignments_wf());
    // rings: the finished game has no CURRENT rows; every other game's
    // clause is framed
    assert forall|gj: int|
        0 <= gj < gs2.len() implies if (#[trigger] gs2[gj]).status == GameStatus::ACTIVE {
        game_has_ring(asg2, ms2, gs2[gj].id)
    } else {
        no_cur_edges(asg2, gs2[gj].id)
    } by {
        if gj == gi {
            assert(no_cur_edges(asg2, gid));
        } else {
            let og = gs1[gj].id;
            assert(gs2[gj] == gs1[gj]);
            assert(og as int == gj + 1);
            assert(og != gid);
            assert forall|p2: i32| #[trigger] is_alive(ms2, og, p2) <==> is_alive(ms1, og, p2) by {
                assert(!(og == ms1[mi].game && p2 == ms1[mi].player) ==> (is_alive(ms2, og, p2)
                    <==> is_alive(ms1, og, p2)));
            }
            if gs1[gj].status == GameStatus::ACTIVE {
                let r0 = choose|r0: Seq<i32>| is_ring(r0, asg1, ms1, og);
                assert(is_ring(r0, asg1, ms1, og));
                lemma_ring_frame(r0, asg1, asg2, ms1, ms2, og);
            } else {
                lemma_no_cur_edges_from_frame(asg1, asg2, og);
            }
        }
    }
    assert(e2.rings_ok());
    // aliveness of the repaired game
    assert forall|p: i32| #[trigger] is_alive(ms2, gid, p) <==> (is_alive(ms1, gid, p) && p
        != x) by {
        if p == x {
            assert(is_alive(ms2, gid, x) <==> retired_row(ms1[mi], xst).status
                == PlayerStatus::ALIVE);
        }
    }
    assert forall|g2: i32, p2: i32| g2 != gid implies (#[trigger] is_alive(ms2, g2, p2)
        <==> is_alive(ms1, g2, p2)) by {
        assert(!(g2 == ms1[mi].game && p2 == ms1[mi].player));
    }
}

/// After a ring repair that bridges around the exiting player: the two
/// closed edges are replaced by the bridging edge, the membership is
/// retired, the game stays ACTIVE with a ring one vertex smaller, and the
/// store is well-formed again.
#[verifier::rlimit(50)]
proof fn lemma_removal_bridge_post(
    e1: Engine,
    e2: Engine,
    gi: int,
    x: i32,
    r: Seq<i32>,
    kx: int,
    ii: int,
    il: int,
    mi: int,
    st_in: TargetStatus,
    st_out: TargetStatus,
    xst: PlayerStatus,
    now: i64,
)
    requires
        e1.wf(),
        0 <= gi < e1.games@.len(),
        e1.games@[gi].status == GameStatus::ACTIVE,
        is_ring(r, e1.assignments@, e1.memberships@, e1.games@[gi].id),
        r.len() >= 3,
        0 <= kx < r.len(),
        r[kx] == x,
        cur_in_at(e1.assignments@, e1.games@[gi].id, x, ii),
        cur_out_at(e1.assignments@, e1.games@[gi].id, x, il),
        is_member_row(e1.memberships@, e1.games@[gi].id, x, mi),
        st_in != TargetStatus::CURRENT,
        st_out != TargetStatus::CURRENT,
        xst != PlayerStatus::ALIVE,
        e2.players@ == e1.players@,
        e2.assignments@ == e1.assignments@.update(
            ii,
            closed_row(e1.assignments@[ii], st_in, now),
        ).update(il, closed_row(e1.assignments@[il], st_out, now)).push(
            bridge_row(
                e1.assignments@[ii].assassin,
                e1.assignments@[il].target,
                e1.games@[gi].id,
                now,
            ),
        ),
        e2.games@ == e1.games@,
        e2.memberships@ == e1.memberships@.update(mi, retired_row(e1.memberships@[mi], xst)),
    ensures
        e2.wf(),
        forall|x2: i32, y2: i32| #[trigger] cur_edge(e2.assignments@, e1.games@[gi].id, x2, y2)
            <==> ((x2 == e1.assignments@[ii].assassin && y2 == e1.assignments@[il].target) || (
        cur_edge(e1.assignments@, e1.games@[gi].id, x2, y2) && x2 != e1.assignments@[ii].assassin
            && x2 != x)),
        forall|p: i32| #[trigger] is_alive(e2.memberships@, e1.games@[gi].id, p) <==> (is_alive(
            e1.memberships@,
            e1.games@[gi].id,
            p,
        ) && p != x),
        forall|g2: i32, p2: i32|
            g2 != e1.games@[gi].id ==> (#[trigger] is_alive(e2.memberships@, g2, p2) <==> is_alive(
                e1.memberships@,
                g2,
                p2,
            )),
{
    let gid = e1.games@[gi].id;
    let gs1 = e1.games@;
    let ms1 = e1.memberships@;
    let asg1 = e1.assignments@;
    let ms2 = e2.memberships@;
    let asg2 = e2.assignments@;
    let n = r.len() as int;
    lemma_ring_neighbors(r, asg1, ms1, gid, x, kx, ii, il);
    let aa = asg1[ii].assassin;
    let tt = asg1[il].target;
    let row_in = closed_row(asg1[ii], st_in, now);
    let row_out = closed_row(asg1[il], st_out, now);
    let row_n = bridge_row(aa, tt, gid, now);
    lemma_edges_rewire(asg1, ii, il, row_in, row_out, row_n, gid);
    lemma_alive_update(ms1, mi, retired_row(ms1[mi], xst));
    // aliveness equivalences
    assert forall|p: i32| #[trigger] is_alive(ms2, gid, p) <==> (is_alive(ms1, gid, p) && p
        != x) by {
        if p == x {
            assert(is_alive(ms2, gid, x) <==> retired_row(ms1[mi], xst).status
                == PlayerStatus::ALIVE);
        }
    }
    assert forall|g2: i32, p2: i32| g2 != gid implies (#[trigger] is_alive(ms2, g2, p2)
        <==> is_alive(ms1, g2, p2)) by {
        assert(!(g2 == ms1[mi].game && p2 == ms1[mi].player));
    }
    // the rewired edge set matches the shape of ring removal at kx
    assert(aa == r[ring_prev_idx(n, kx)]);
    assert(tt == r[ring_next_idx(n, kx)]);
    assert(asg1[il].assassin == x);
    assert forall|x2: i32, y2: i32| #[trigger] cur_edge(asg2, gid, x2, y2) <==> ((x2
        == r[ring_prev_idx(n, kx)] && y2 == r[ring_next_idx(n, kx)]) || (cur_edge(
        asg1,
        gid,
        x2,
        y2,
    ) && x2 != r[ring_prev_idx(n, kx)] && x2 != r[kx])) by {
        assert(cur_edge(asg2, gid, x2, y2) <==> ((x2 == aa && y2 == tt) || (cur_edge(
            asg1,
            gid,
            x2,
            y2,
        ) && x2 != aa && x2 != x)));
    }
    lemma_ring_remove(r, kx, asg1, ms1, asg2, ms2, gid);
    assert(is_ring(r.remove(kx), asg2, ms2, gid));
    // field preservation
    assert(forall|i: int|
        0 <= i < ms2.len() ==> (#[trigger] ms2[i]).player == ms1[i].player && ms2[i].game == ms1[
        i
    ].game && ms2[i].codename@ == ms1[i].codename@);
    assert(forall|i: int|
        0 <= i < asg1.len() ==> (#[trigger] asg2[i]).game == asg1[i].game && asg2[i].assassin
            == asg1[i].assassin && asg2[i].target == asg1[i].target);
    assert(asg2[asg1.len() as int] == row_n);
    assert(e2.players_wf());
    assert(e2.games_wf());
    assert(e2.memberships_wf());
    // single_active: alive rows only shrink, statuses of games unchanged
    assert forall|i: int, j: int|
        0 <= i < ms2.len() && 0 <= j < ms2.len() && i != j && (#[trigger] ms2[i]).player == (
        #[trigger] ms2[j]).player && ms2[i].status == PlayerStatus::ALIVE && ms2[j].status
        == PlayerStatus::ALIVE implies gs1[ms2[i].game as int - 1].status == GameStatus::FINISHED
        || gs1[ms2[j].game as int - 1].status == GameStatus::FINISHED by {
        assert(i != mi && j != mi);
        assert(ms2[i] == ms1[i] && ms2[j] == ms1[j]);
    }
    assert(e2.single_active());
    // assignment refs: the bridge reuses endpoints of closed rows
    assert forall|i: int|
        0 <= i < asg2.len() implies 1 <= (#[trigger] asg2[i]).game as int <= gs1.len() && 1 <= asg2[
        i
    ].assassin as int <= e2.players@.len() && 1 <= asg2[i].target as int <= e2.players@.len() by {
        if i == asg1.len() as int {
            assert(1 <= asg1[ii].assassin as int <= e1.players@.len());
            assert(1 <= asg1[il].target as int <= e1.players@.len());
        }
    }
    assert(e2.assignments_wf());
    // rings
    assert forall|gj: int|
        0 <= gj < gs1.len() implies if (#[trigger] gs1[gj]).status == GameStatus::ACTIVE {
        game_has_ring(asg2, ms2, gs1[gj].id)
    } else {
        no_cur_edges(asg2, gs1[gj].id)
    } by {
        if gj == gi {
            assert(game_has_ring(asg2, ms2, gid));
        } else {
            let og = gs1[gj].id;
            assert(og as int == gj + 1);
            assert(og != gid);
            assert forall|p2: i32| #[trigger] is_alive(ms2, og, p2) <==> is_alive(ms1, og, p2) by {
                assert(!(og == ms1[mi].game && p2 == ms1[mi].player));
            }
            if gs1[gj].status == GameStatus::ACTIVE {
                let r0 = choose|r0: Seq<i32>| is_ring(r0, asg1, ms1, og);
                assert(is_ring(r0, asg1, ms1, og));
                lemma_ring_frame(r0, asg1, asg2, ms1, ms2, og);
            } else {
                lemma_no_cur_edges_from_frame(asg1, asg2, og);
            }
        }
    }
    assert(e2.rings_ok());
}

/// The shared ring repair of a kill and of a leave, inside one atomic
/// step: closes the exiting player's incoming CURRENT edge with `st_in`
/// and the outgoing one with `st_out`, retires the membership with
/// `exit_status`, and either opens the bridging edge from the exiting
/// player's assassin to the exiting player's former target or — when those
/// two coincide, i.e. the ring had two members — finishes the game.
#[verifier::rlimit(50)]
fn resolve_removal(
    e: &mut Engine,
    gi: usize,
    exiting: i32,
    st_in: TargetStatus,
    st_out: TargetStatus,
    st_out_end: TargetStatus,
    exit_status: PlayerStatus,
    now: i64,
)
    requires
        old(e).wf(),
        gi < old(e).games@.len(),
        old(e).games@[gi as int].status == GameStatus::ACTIVE,
        is_alive(old(e).memberships@, old(e).games@[gi as int].id, exiting),
        st_in != TargetStatus::CURRENT,
        st_out != TargetStatus::CURRENT,
        st_out != TargetStatus::KILL_SUCCESS,
        st_out_end != TargetStatus::CURRENT,
        st_out_end != TargetStatus::KILL_SUCCESS,
        exit_status != PlayerStatus::ALIVE,
    ensures
        final(e).wf(),
        final(e).players@ == old(e).players@,
        ({
            let gs1 = old(e).games@;
            let ms1 = old(e).memberships@;
            let asg1 = old(e).assignments@;
            let gid = gs1[gi as int].id;
            let ii = cur_in_idx(asg1, gid, exiting);
            let il = cur_out_idx(asg1, gid, exiting);
            let aa = asg1[ii].assassin;
            let tt = asg1[il].target;
            let mi = member_idx(ms1, gid, exiting);
            &&& has_cur_in(asg1, gid, exiting)
            &&& has_cur_out(asg1, gid, exiting)
            &&& has_membership(ms1, gid, exiting)
            &&& final(e).memberships@ == ms1.update(mi, retired_row(ms1[mi], exit_status))
            &&& (forall|p: i32| #[trigger] is_alive(final(e).memberships@, gid, p) <==> (is_alive(
                ms1,
                gid,
                p,
            ) && p != exiting))
            &&& if tt == aa {
                &&& final(e).assignments@ == asg1.update(ii, closed_row(asg1[ii], st_in, now)).update(
                    il,
                    closed_row(asg1[il], st_out_end, now),
                )
                &&& final(e).games@ == gs1.update(gi as int, finished_game(gs1[gi as int], now))
                &&& no_cur_edges(final(e).assignments@, gid)
            } else {
                &&& final(e).assignments@ == asg1.update(ii, closed_row(asg1[ii], st_in, now)).update(
                    il,
                    closed_row(asg1[il], st_out, now),
                ).push(bridge_row(aa, tt, gid, now))
                &&& final(e).games@ == gs1
                &&& (forall|x2: i32, y2: i32| #[trigger] cur_edge(final(e).assignments@, gid, x2, y2)
                    <==> ((x2 == aa && y2 == tt) || (cur_edge(asg1, gid, x2, y2) && x2 != aa && x2
                    != exiting)))
            }
            &&& (forall|g2: i32, p2: i32| #[trigger] num_kills(final(e).assignments@, g2, p2)
                == num_kills(asg1, g2, p2) + (if st_in == TargetStatus::KILL_SUCCESS && g2 == gid
                    && p2 == aa {
                    1nat
                } else {
                    0nat
                }))
        }),
{
    let ghost gs1 = old(e).games@;
    let ghost ms1 = old(e).memberships@;
    let ghost asg1 = old(e).assignments@;
    let gid = e.games[gi].id;
    let ghost r = choose|r: Seq<i32>| is_ring(r, asg1, ms1, gid);
    proof {
        assert(game_has_ring(asg1, ms1, gid));
        assert(is_ring(r, asg1, ms1, gid));
        assert(r.contains(exiting));
    }
    let ghost kx = choose|k: int| 0 <= k < r.len() && r[k] == exiting;
    let ghost n = r.len() as int;
    proof {
        // the exiting player has an outgoing and an incoming CURRENT edge
        assert(cur_edge(asg1, gid, r[kx], r[ring_next_idx(n, kx)]));
        let w1 = choose|i: int| cur_at(asg1, gid, r[kx], r[ring_next_idx(n, kx)], i);
        assert(cur_out_at(asg1, gid, exiting, w1));
        let kp = ring_prev_idx(n, kx);
        assert(ring_next_idx(n, kp) == kx);
        assert(cur_edge(asg1, gid, r[kp], r[kx]));
        let w2 = choose|i: int| cur_at(asg1, gid, r[kp], r[kx], i);
        assert(cur_in_at(asg1, gid, exiting, w2));
    }
    let il = match find_cur_out(&e.assignments, gid, exiting) {
        Some(i) => i,
        None => {
            proof {
                assert(false);
            }
            vstd::pervasive::unreached()
        },
    };
    let ii = match find_cur_in(&e.assignments, gid, exiting) {
        Some(i) => i,
        None => {
            proof {
                assert(false);
            }
            vstd::pervasive::unreached()
        },
    };
    proof {
        lemma_ring_neighbors(r, asg1, ms1, gid, exiting, kx, ii as int, il as int);
        // the found rows are the unique ones the contract names
        let ci = cur_in_idx(asg1, gid, exiting);
        assert(cur_in_at(asg1, gid, exiting, ci));
        if ci != ii as int {
            if ci < ii as int {
                assert(asg1[ci].target != asg1[ii as int].target);
            } else {
                assert(asg1[ii as int].target != asg1[ci].target);
            }
            assert(false);
        }
        let co = cur_out_idx(asg1, gid, exiting);
        assert(cur_out_at(asg1, gid, exiting, co));
        if co != il as int {
            if co < il as int {
                assert(asg1[co].assassin != asg1[il as int].assassin);
            } else {
                assert(asg1[il as int].assassin != asg1[co].assassin);
            }
            assert(false);
        }
    }
    let aa = e.assignments[ii].assassin;
    let tt = e.assignments[il].target;
    let st_out_eff = if tt == aa {
        st_out_end
    } else {
        st_out
    };
    let in_start = e.assignments[ii].start_time;
    let out_start = e.assignments[il].start_time;
    let row_in = Assignment {
        assassin: aa,
        target: exiting,
        game: gid,
        status: st_in,
        start_time: in_start,
        end_time: Some(now),
    };
    let row_out = Assignment {
        assassin: exiting,
        target: tt,
        game: gid,
        status: st_out_eff,
        start_time: out_start,
        end_time: Some(now),
    };
    proof {
        assert(row_in == closed_row(asg1[ii as int], st_in, now));
        assert(row_out == closed_row(asg1[il as int], st_out_eff, now));
    }
    e.assignments.set(ii, row_in);
    e.assignments.set(il, row_out);
    let mi = match find_membership_idx(&e.memberships, gid, exiting) {
        Some(i) => i,
        None => {
            proof {
                let j = choose|j: int| is_alive_row(ms1, gid, exiting, j);
                assert(is_member_row(ms1, gid, exiting, j));
                assert(false);
            }
            vstd::pervasive::unreached()
        },
    };
    proof {
        let cm = member_idx(ms1, gid, exiting);
        assert(is_member_row(ms1, gid, exiting, cm));
        if cm != mi as int {
            assert(false);
        }
    }
    let mrow = &e.memberships[mi];
    let m2 = PlayerGame {
        player: mrow.player,
        game: mrow.game,
        codename: mrow.codename.clone(),
        status: exit_status,
        joined_at: mrow.joined_at,
    };
    proof {
        assert(m2 == retired_row(ms1[mi as int], exit_status));
    }
    e.memberships.set(mi, m2);
    if tt == aa {
        // the ring had two members: no edge is reopened, the game finishes
        let src = &e.games[gi];
        let g2 = Game {
            id: src.id,
            name: clone_opt_string(&src.name),
            owner: src.owner,
            code: src.code.clone(),
            status: GameStatus::FINISHED,
            created_at: src.created_at,
            start_time: src.start_time,
            end_time: Some(now),
        };
        e.games.set(gi, g2);
        proof {
            assert(e.assignments@ =~= asg1.update(ii as int, closed_row(asg1[ii as int], st_in, now)).update(
                il as int,
                closed_row(asg1[il as int], st_out_end, now),
            ));
            assert(e.games@ =~= gs1.update(gi as int, finished_game(gs1[gi as int], now)));
            assert(e.memberships@ =~= ms1.update(mi as int, retired_row(ms1[mi as int], exit_status)));
            // the ring had exactly two members
            if r.len() != 2 {
                assert(r.len() >= 3);
                assert(asg1[ii as int].assassin != asg1[il as int].target);
                assert(false);
            }
            lemma_removal_collapse_post(
                *old(e),
                *e,
                gi as int,
                exiting,
                r,
                kx,
                ii as int,
                il as int,
                mi as int,
                st_in,
                st_out_end,
                exit_status,
                now,
            );
            lemma_num_kills_update(asg1, ii as int, closed_row(asg1[ii as int], st_in, now));
            lemma_num_kills_update(
                asg1.update(ii as int, closed_row(asg1[ii as int], st_in, now)),
                il as int,
                closed_row(asg1[il as int], st_out_end, now),
            );
            assert forall|g2: i32, p2: i32| #[trigger] num_kills(e.assignments@, g2, p2)
                == num_kills(asg1, g2, p2) + (if st_in == TargetStatus::KILL_SUCCESS && g2 == gid
                    && p2 == aa {
                    1nat
                } else {
                    0nat
                }) by {
                assert(kill_contrib(asg1[ii as int], g2, p2) == 0);
                assert(kill_contrib(asg1.update(ii as int, closed_row(asg1[ii as int], st_in, now))[il as int], g2, p2) == 0);
                assert(kill_contrib(closed_row(asg1[il as int], st_out_end, now), g2, p2) == 0);
            }
        }
    } else {
        let bridge = Assignment {
            assassin: aa,
            target: tt,
            game: gid,
            status: TargetStatus::CURRENT,
            start_time: now,
            end_time: None,
        };
        proof {
            assert(bridge == bridge_row(aa, tt, gid, now));
        }
        e.assignments.push(bridge);
        proof {
            assert(e.assignments@ =~= asg1.update(ii as int, closed_row(asg1[ii as int], st_in, now)).update(
                il as int,
                closed_row(asg1[il as int], st_out, now),
            ).push(bridge_row(aa, tt, gid, now)));
            assert(e.memberships@ =~= ms1.update(mi as int, retired_row(ms1[mi as int], exit_status)));
            assert(e.games@ =~= gs1);
            // a bridging repair presupposes at least three members
            if r.len() < 3 {
                assert(r.len() == 2);
                assert(asg1[ii as int].assassin == asg1[il as int].target);
                assert(false);
            }
            lemma_removal_bridge_post(
                *old(e),
                *e,
                gi as int,
                exiting,
                r,
                kx,
                ii as int,
                il as int,
                mi as int,
                st_in,
                st_out,
                exit_status,
                now,
            );
            lemma_num_kills_update(asg1, ii as int, closed_row(asg1[ii as int], st_in, now));
            lemma_num_kills_update(
                asg1.update(ii as int, closed_row(asg1[ii as int], st_in, now)),
                il as int,
                closed_row(asg1[il as int], st_out, now),
            );
            lemma_num_kills_push(
                asg1.update(ii as int, closed_row(asg1[ii as int], st_in, now)).update(
                    il as int,
                    closed_row(asg1[il as int], st_out, now),
                ),
                bridge_row(aa, tt, gid, now),
            );
            assert forall|g2: i32, p2: i32| #[trigger] num_kills(e.assignments@, g2, p2)
                == num_kills(asg1, g2, p2) + (if st_in == TargetStatus::KILL_SUCCESS && g2 == gid
                    && p2 == aa {
                    1nat
                } else {
                    0nat
                }) by {
                assert(kill_contrib(asg1[ii as int], g2, p2) == 0);
                assert(kill_contrib(asg1.update(ii as int, closed_row(asg1[ii as int], st_in, now))[il as int], g2, p2) == 0);
                assert(kill_contrib(closed_row(asg1[il as int], st_out, now), g2, p2) == 0);
                assert(kill_contrib(bridge_row(aa, tt, gid, now), g2, p2) == 0);
            }
        }
    }
}

// ---------------------------------------------------------------------------
// The player registry
// ---------------------------------------------------------------------------

impl Player {
    /// Looks a player up by id; `NotRegistered` if the id is unknown.
    pub fn find(e: &Engine, id: i32) -> (res: Result<Player, ModelError>)
        ensures
            match res {
                Ok(p) => 1 <= id as int <= e.players@.len() && p == e.players@[id as int - 1],
                Err(er) => er == ModelError::NotRegistered && !(1 <= id as int
                    <= e.players@.len()),
            },
    {
        if id >= 1 && (id as usize) <= e.players.len() {
            Ok(clone_player(&e.players[(id - 1) as usize]))
        } else {
            Err(ModelError::NotRegistered)
        }
    }

    /// Looks a player up by auth subject; `NotRegistered` if unknown.
    pub fn find_by_uid(e: &Engine, uid: &String) -> (res: Result<Player, ModelError>)
        ensures
            match res {
                Ok(p) => exists|i: int|
                    0 <= i < e.players@.len() && p == e.players@[i] && (
                    #[trigger] e.players@[i]).uid@ == uid@,
                Err(er) => er == ModelError::NotRegistered && !has_uid(e.players@, uid@),
            },
    {
        match find_player_by_uid(&e.players, uid) {
            Some(i) => {
                let p = clone_player(&e.players[i]);
                Ok(p)
            },
            None => Err(ModelError::NotRegistered),
        }
    }

    /// Registers a new player under a fresh id; `AlreadyRegistered` if the
    /// auth subject is already taken.  Nothing else changes.
    pub fn register(e: &mut Engine, nickname: String, email: String, uid: String, now: i64) -> (res:
        Result<Player, ModelError>)
        requires
            old(e).wf(),
            old(e).players@.len() < 0x7fff_ffff,
        ensures
            final(e).wf(),
            final(e).games@ == old(e).games@,
            final(e).memberships@ == old(e).memberships@,
            final(e).assignments@ == old(e).assignments@,
            match res {
                Ok(p) => !has_uid(old(e).players@, uid@) && final(e).players@ == old(
                    e,
                ).players@.push(p) && p.id as int == old(e).players@.len() + 1 && p.nickname@
                    == nickname@ && p.email@ == email@ && p.uid@ == uid@ && p.role == Role::USER
                    && p.picture is None && p.registered_at == now,
                Err(er) => er == ModelError::AlreadyRegistered && has_uid(old(e).players@, uid@)
                    && final(e).players@ == old(e).players@,
            },
    {
        match find_player_by_uid(&e.players, &uid) {
            Some(_) => Err(ModelError::AlreadyRegistered),
            None => {
                let id = (e.players.len() + 1) as i32;
                let p = Player {
                    id,
                    nickname,
                    email,
                    uid,
                    role: Role::USER,
                    picture: None,
                    registered_at: now,
                };
                e.players.push(clone_player(&p));
                proof {
                    assert(e.players@ =~= old(e).players@.push(p));
                    assert forall|i: int|
                        0 <= i < e.players@.len() implies (#[trigger] e.players@[i]).id as int == i
                        + 1 by {
                        if i < old(e).players@.len() {
                            assert(e.players@[i] == old(e).players@[i]);
                        }
                    }
                }
                Ok(p)
            },
        }
    }

    /// The caller's own view inside the game carrying `code`: own codename
    /// and alive flag, the current target's nickname and picture (if the
    /// caller still hunts), and the kill count within this game.
    /// `NotInGame` when the caller has no membership row there.
    pub fn get_agent_info(&self, e: &Engine, code: &String) -> (res: Result<AgentInfo, ModelError>)
        requires
            e.wf(),
        ensures
            match res {
                Ok(a) => has_game_code(e.games@, code@) && ({
                    let gid = e.games@[game_idx_of_code(e.games@, code@)].id;
                    let mi = member_idx(e.memberships@, gid, self.id);
                    &&& has_membership(e.memberships@, gid, self.id)
                    &&& a.codename@ == e.memberships@[mi].codename@
                    &&& a.alive == (e.memberships@[mi].status == PlayerStatus::ALIVE)
                    &&& a.kills == num_kills(e.assignments@, gid, self.id)
                    &&& match a.target {
                        Some(nick) => has_cur_out(e.assignments@, gid, self.id) && ({
                            let t = the_target(e.assignments@, gid, self.id);
                            nick@ == e.players@[t as int - 1].nickname@ && a.target_picture
                                == e.players@[t as int - 1].picture
                        }),
                        None => !has_cur_out(e.assignments@, gid, self.id)
                            && a.target_picture is None,
                    }
                }),
                Err(er) => match er {
                    ModelError::GameNotFound => !has_game_code(e.games@, code@),
                    ModelError::NotInGame => has_game_code(e.games@, code@) && !has_membership(
                        e.memberships@,
                        e.games@[game_idx_of_code(e.games@, code@)].id,
                        self.id,
                    ),
                    _ => false,
                },
            },
    {
        let gi = match find_game_idx(&e.games, code) {
            Some(i) => i,
            None => { return Err(ModelError::GameNotFound); },
        };
        proof {
            assert(has_game_code(e.games@, code@));
            let j = game_idx_of_code(e.games@, code@);
            assert(0 <= j < e.games@.len() && e.games@[j].code@ == code@);
            assert(j == gi as int);
        }
        let gid = e.games[gi].id;
        let mi = match find_membership_idx(&e.memberships, gid, self.id) {
            Some(i) => i,
            None => { return Err(ModelError::NotInGame); },
        };
        proof {
            let cm = member_idx(e.memberships@, gid, self.id);
            assert(is_member_row(e.memberships@, gid, self.id, cm));
            if cm != mi as int {
                assert(false);
            }
        }
        let codename = e.memberships[mi].codename.clone();
        let alive = e.memberships[mi].status == PlayerStatus::ALIVE;
        // the current target, if the caller still hunts
        let (target, target_picture) = match find_cur_out(&e.assignments, gid, self.id) {
            Some(ix) => {
                proof {
                    let co = cur_out_idx(e.assignments@, gid, self.id);
                    assert(cur_out_at(e.assignments@, gid, self.id, co));
                    if co != ix as int {
                        if co < ix as int {
                            assert(e.assignments@[co].assassin != e.assignments@[ix as int].assassin);
                        } else {
                            assert(e.assignments@[ix as int].assassin != e.assignments@[co].assassin);
                        }
                        assert(false);
                    }
                }
                let t = e.assignments[ix].target;
                let tp = &e.players[(t - 1) as usize];
                (Some(tp.nickname.clone()), clone_opt_string(&tp.picture))
            },
            None => (None, None),
        };
        // kills inside this game
        let n = e.assignments.len();
        let mut kills: usize = 0;
        let mut i: usize = 0;
        while i < n
            invariant
                n == e.assignments@.len(),
                i <= n,
                kills <= i,
                kills == num_kills(e.assignments@.take(i as int), gid, self.id),
            decreases n - i,
        {
            proof {
                assert(e.assignments@.take(i + 1).drop_last() =~= e.assignments@.take(i as int));
                assert(e.assignments@.take(i + 1).last() == e.assignments@[i as int]);
            }
            let row = &e.assignments[i];
            if row.game == gid && row.assassin == self.id
                && row.status == TargetStatus::KILL_SUCCESS {
                kills = kills + 1;
            }
            i = i + 1;
        }
        proof {
            assert(e.assignments@.take(n as int) =~= e.assignments@);
        }
        Ok(AgentInfo { codename, target, target_picture, alive, kills })
    }

    /// The caller's cross-game summary: profile fields, whether an
    /// unfinished game still lists the caller alive (and its code), and
    /// the lifetime kill count across finished games.
    pub fn get_user_info(&self, e: &Engine) -> (res: Result<UserInfo, ModelError>)
        requires
            e.wf(),
        ensures
            res is Ok,
            ({
                let u = res.unwrap();
                &&& u.nickname@ == self.nickname@
                &&& u.email@ == self.email@
                &&& u.picture == self.picture
                &&& u.active == has_active_membership(e.memberships@, e.games@, self.id)
                &&& u.total_kills == total_kills(e.assignments@, e.games@, self.id)
                &&& match u.curr_lobby_code {
                    Some(c) => has_active_membership(e.memberships@, e.games@, self.id) && (
                    exists|i: int|
                        active_membership_at(e.memberships@, e.games@, self.id, i) && c@
                            == e.games@[#[trigger] e.memberships@[i].game as int - 1].code@),
                    None => !has_active_membership(e.memberships@, e.games@, self.id),
                }
            }),
    {
        let active_idx = find_active_idx(&e.memberships, &e.games, self.id);
        let (active, curr_lobby_code) = match active_idx {
            Some(i) => {
                let gidx = (e.memberships[i].game - 1) as usize;
                (true, Some(e.games[gidx].code.clone()))
            },
            None => (false, None),
        };
        // lifetime kills across finished games
        let n = e.assignments.len();
        let mut kills: usize = 0;
        let mut i: usize = 0;
        while i < n
            invariant
                e.wf(),
                n == e.assignments@.len(),
                i <= n,
                kills <= i,
                kills == total_kills(e.assignments@.take(i as int), e.games@, self.id),
            decreases n - i,
        {
            proof {
                assert(e.assignments@.take(i + 1).drop_last() =~= e.assignments@.take(i as int));
                assert(e.assignments@.take(i + 1).last() == e.assignments@[i as int]);
            }
            let row = &e.assignments[i];
            if row.assassin == self.id && row.status == TargetStatus::KILL_SUCCESS {
                let gidx = (row.game - 1) as usize;
                if e.games[gidx].status == GameStatus::FINISHED {
                    kills = kills + 1;
                }
            }
            i = i + 1;
        }
        proof {
            assert(e.assignments@.take(n as int) =~= e.assignments@);
        }
        Ok(UserInfo {
            nickname: self.nickname.clone(),
            email: self.email.clone(),
            picture: clone_opt_string(&self.picture),
            active,
            curr_lobby_code,
            total_kills: kills,
        })
    }
}

// ---------------------------------------------------------------------------
// Game lookups
// ---------------------------------------------------------------------------

impl Game {
    /// Looks a game up by id; `GameNotFound` if the id is unknown.
    pub fn find(e: &Engine, id: i32) -> (res: Result<Game, ModelError>)
        ensures
            match res {
                Ok(g) => 1 <= id as int <= e.games@.len() && g == e.games@[id as int - 1],
                Err(er) => er == ModelError::GameNotFound && !(1 <= id as int <= e.games@.len()),
            },
    {
        if id >= 1 && (id as usize) <= e.games.len() {
            Ok(clone_game(&e.games[(id - 1) as usize]))
        } else {
            Err(ModelError::GameNotFound)
        }
    }

    /// Looks a game up by code; `GameNotFound` if the code resolves to no
    /// game.
    pub fn find_by_code(e: &Engine, code: &String) -> (res: Result<Game, ModelError>)
        requires
            e.wf(),
        ensures
            match res {
                Ok(g) => has_game_code(e.games@, code@) && g == e.games@[game_idx_of_code(
                    e.games@,
                    code@,
                )] && g.code@ == code@,
                Err(er) => er == ModelError::GameNotFound && !has_game_code(e.games@, code@),
            },
    {
        match find_game_idx(&e.games, code) {
            Some(i) => {
                let g = clone_game(&e.games[i]);
                proof {
                    assert((e.games@[i as int]).code@ == code@);
                    assert(has_game_code(e.games@, code@));
                    let j = game_idx_of_code(e.games@, code@);
                    assert(0 <= j < e.games@.len() && e.games@[j].code@ == code@);
                    // codes are pairwise distinct, so the found index is it
                    assert(j == i as int);
                }
                Ok(g)
            },
            None => Err(ModelError::GameNotFound),
        }
    }

    /// The status of the game carrying `code`; `GameNotFound` otherwise.
    pub fn get_game_status(e: &Engine, code: &String) -> (res: Result<GameStatus, ModelError>)
        requires
            e.wf(),
        ensures
            match res {
                Ok(st) => has_game_code(e.games@, code@) && st == e.games@[game_idx_of_code(
                    e.games@,
                    code@,
                )].status,
                Err(er) => er == ModelError::GameNotFound && !has_game_code(e.games@, code@),
            },
    {
        match Game::find_by_code(e, code) {
            Ok(g) => Ok(g.status),
            Err(er) => Err(er),
        }
    }

    /// Creates a game: draws a code no other game carries, stores the game
    /// WAITING_FOR_PLAYERS, and enrolls the owner as its first alive
    /// member.  Fails with `NotRegistered` for an unknown owner id and with
    /// `AlreadyInAnotherGame` if the owner is still alive in an unfinished
    /// game; `UnknownError` is the identifier generator giving up.
    pub fn new(e: &mut Engine, game_name: String, game_owner: i32, now: i64) -> (res: Result<
        Game,
        ModelError,
    >)
        requires
            old(e).wf(),
            old(e).games@.len() < 0x7fff_ffff,
        ensures
            final(e).wf(),
            final(e).players@ == old(e).players@,
            final(e).assignments@ == old(e).assignments@,
            match res {
                Ok(g) => {
                    &&& 1 <= game_owner as int <= old(e).players@.len()
                    &&& !has_active_membership(old(e).memberships@, old(e).games@, game_owner)
                    &&& g.id as int == old(e).games@.len() + 1
                    &&& g.owner == game_owner
                    &&& g.name == Some(game_name)
                    &&& g.status == GameStatus::WAITING_FOR_PLAYERS
                    &&& g.created_at == now
                    &&& g.start_time is None
                    &&& g.end_time is None
                    &&& is_game_code(g.code@)
                    &&& !has_game_code(old(e).games@, g.code@)
                    &&& final(e).games@ == old(e).games@.push(g)
                    &&& ({
                        let m = final(e).memberships@.last();
                        &&& final(e).memberships@ == old(e).memberships@.push(m)
                        &&& m.player == game_owner
                        &&& m.game == g.id
                        &&& m.status == PlayerStatus::ALIVE
                        &&& m.joined_at == now
                    })
                },
                Err(er) => final(e).games@ == old(e).games@ && final(e).memberships@ == old(
                    e,
                ).memberships@ && match er {
                    ModelError::NotRegistered => !(1 <= game_owner as int
                        <= old(e).players@.len()),
                    ModelError::AlreadyInAnotherGame => 1 <= game_owner as int <= old(
                        e,
                    ).players@.len() && has_active_membership(
                        old(e).memberships@,
                        old(e).games@,
                        game_owner,
                    ),
                    ModelError::UnknownError => 1 <= game_owner as int <= old(e).players@.len()
                        && !has_active_membership(
                        old(e).memberships@,
                        old(e).games@,
                        game_owner,
                    ),
                    _ => false,
                },
            },
            // with no game stored, no code can collide, so the retry
            // cannot give up
            old(e).games@.len() == 0 ==> !(res matches Err(ModelError::UnknownError)),
    {
        if !(game_owner >= 1 && (game_owner as usize) <= e.players.len()) {
            return Err(ModelError::NotRegistered);
        }
        if check_active_membership(&e.memberships, &e.games, game_owner) {
            return Err(ModelError::AlreadyInAnotherGame);
        }
        let code = match gen_unique_code(&e.games) {
            Some(c) => c,
            None => { return Err(ModelError::UnknownError); },
        };
        let id = (e.games.len() + 1) as i32;
        let g = Game {
            id,
            name: Some(game_name),
            owner: game_owner,
            code,
            status: GameStatus::WAITING_FOR_PLAYERS,
            created_at: now,
            start_time: None,
            end_time: None,
        };
        let codename = get_agent_name();
        let m = PlayerGame {
            player: game_owner,
            game: id,
            codename,
            status: PlayerStatus::ALIVE,
            joined_at: now,
        };
        let ghost gm = m;
        e.games.push(clone_game(&g));
        e.memberships.push(m);
        proof {
            let gs1 = old(e).games@;
            let ms1 = old(e).memberships@;
            let asg = old(e).assignments@;
            let gs2 = e.games@;
            let ms2 = e.memberships@;
            assert(gs2 =~= gs1.push(g));
            assert(ms2 =~= ms1.push(gm));
            assert(forall|i: int| 0 <= i < gs1.len() ==> gs2[i] == gs1[i]);
            assert(forall|i: int| 0 <= i < ms1.len() ==> ms2[i] == ms1[i]);
            assert(gs2[gs1.len() as int] == g);
            assert(ms2[ms1.len() as int] == gm);
            // games_wf
            assert forall|i: int, j: int| 0 <= i < j < gs2.len() implies (
            #[trigger] gs2[i]).code@ != (#[trigger] gs2[j]).code@ by {
                if j == gs1.len() {
                    assert(gs1[i].code@ != g.code@);
                }
            }
            assert(e.games_wf());
            // memberships_wf
            assert forall|i: int, j: int|
                0 <= i < j < ms2.len() implies !((#[trigger] ms2[i]).game == (
            #[trigger] ms2[j]).game && ms2[i].player == ms2[j].player) by {
                if j == ms1.len() {
                    assert(ms1[i].game as int <= gs1.len());
                }
            }
            assert forall|i: int, j: int|
                0 <= i < j < ms2.len() && (#[trigger] ms2[i]).game == (
            #[trigger] ms2[j]).game implies ms2[i].codename@ != ms2[j].codename@ by {
                if j == ms1.len() {
                    assert(ms1[i].game as int <= gs1.len());
                }
            }
            assert(e.memberships_wf());
            // single_active: the owner is alive nowhere else among
            // unfinished games, and the new game is fresh
            assert forall|i: int, j: int|
                0 <= i < ms2.len() && 0 <= j < ms2.len() && i != j && (#[trigger] ms2[i]).player
                    == (#[trigger] ms2[j]).player && ms2[i].status == PlayerStatus::ALIVE && ms2[
                j
            ].status == PlayerStatus::ALIVE implies gs2[ms2[i].game as int - 1].status
                == GameStatus::FINISHED || gs2[ms2[j].game as int - 1].status
                == GameStatus::FINISHED by {
                if i < ms1.len() && j < ms1.len() {
                    assert(gs2[ms1[i].game as int - 1] == gs1[ms1[i].game as int - 1]);
                    assert(gs2[ms1[j].game as int - 1] == gs1[ms1[j].game as int - 1]);
                } else {
                    let o = if i < ms1.len() { i } else { j };
                    assert(o < ms1.len());
                    assert(ms1[o].player == game_owner && ms1[o].status == PlayerStatus::ALIVE);
                    if gs1[ms1[o].game as int - 1].status != GameStatus::FINISHED {
                        assert(active_membership_at(ms1, gs1, game_owner, o));
                        assert(false);
                    }
                    assert(gs2[ms1[o].game as int - 1] == gs1[ms1[o].game as int - 1]);
                }
            }
            assert(e.single_active());
            // rings: old games keep theirs, the fresh game has no edges
            lemma_rings_after_membership_push(gs1, asg, ms1, gm);
            assert forall|gi: int|
                0 <= gi < gs2.len() implies if (#[trigger] gs2[gi]).status == GameStatus::ACTIVE {
                game_has_ring(e.assignments@, ms2, gs2[gi].id)
            } else {
                no_cur_edges(e.assignments@, gs2[gi].id)
            } by {
                if gi < gs1.len() {
                    assert(gs2[gi] == gs1[gi]);
                } else {
                    assert(gs2[gi] == g);
                    assert forall|i: int| !cur_row_of_game(e.assignments@, g.id, i) by {
                        if 0 <= i < asg.len() {
                            assert(asg[i].game as int <= gs1.len());
                        }
                    }
                }
            }
            assert(e.rings_ok());
            assert(e.wf());
        }
        Ok(g)
    }

    /// Joins the waiting game carrying `code` as a fresh alive member under
    /// a codename unique within the game.  `AlreadyInRequestedGame` when
    /// the player already has a row in the coded game — of any status,
    /// since the unique (player, game) key forbids a second row;
    /// otherwise `GameNotFound` when the code resolves to no waiting game,
    /// `AlreadyInAnotherGame` when the player is still alive in an
    /// unfinished game; `UnknownError` is the codename generator giving
    /// up.
    pub fn join(e: &mut Engine, code: &String, player_id: i32, now: i64) -> (res: Result<
        (),
        ModelError,
    >)
        requires
            old(e).wf(),
        ensures
            final(e).wf(),
            final(e).players@ == old(e).players@,
            final(e).games@ == old(e).games@,
            final(e).assignments@ == old(e).assignments@,
            match res {
                Ok(r) => {
                    &&& 1 <= player_id as int <= old(e).players@.len()
                    &&& has_joinable_game(old(e).games@, code@)
                    &&& ({
                        let g = old(e).games@[game_idx_of_code(old(e).games@, code@)];
                        &&& !has_membership(old(e).memberships@, g.id, player_id)
                        &&& !has_active_membership(
                            old(e).memberships@,
                            old(e).games@,
                            player_id,
                        )
                        &&& ({
                            let m = final(e).memberships@.last();
                            &&& final(e).memberships@ == old(e).memberships@.push(m)
                            &&& m.player == player_id
                            &&& m.game == g.id
                            &&& m.status == PlayerStatus::ALIVE
                            &&& m.joined_at == now
                        })
                    })
                },
                Err(er) => final(e).memberships@ == old(e).memberships@ && match er {
                    ModelError::NotRegistered => !(1 <= player_id as int
                        <= old(e).players@.len()),
                    ModelError::GameNotFound => 1 <= player_id as int <= old(e).players@.len()
                        && (!has_game_code(old(e).games@, code@) || (!has_membership(
                        old(e).memberships@,
                        old(e).games@[game_idx_of_code(old(e).games@, code@)].id,
                        player_id,
                    ) && !has_joinable_game(old(e).games@, code@))),
                    ModelError::AlreadyInRequestedGame => 1 <= player_id as int <= old(
                        e,
                    ).players@.len() && has_game_code(old(e).games@, code@) && has_membership(
                        old(e).memberships@,
                        old(e).games@[game_idx_of_code(old(e).games@, code@)].id,
                        player_id,
                    ),
                    ModelError::AlreadyInAnotherGame => 1 <= player_id as int <= old(
                        e,
                    ).players@.len() && has_joinable_game(old(e).games@, code@)
                        && !has_membership(
                        old(e).memberships@,
                        old(e).games@[game_idx_of_code(old(e).games@, code@)].id,
                        player_id,
                    ) && has_active_membership(old(e).memberships@, old(e).games@, player_id),
                    ModelError::UnknownError => 1 <= player_id as int <= old(e).players@.len()
                        && has_joinable_game(old(e).games@, code@) && !has_membership(
                        old(e).memberships@,
                        old(e).games@[game_idx_of_code(old(e).games@, code@)].id,
                        player_id,
                    ) && !has_active_membership(old(e).memberships@, old(e).games@, player_id),
                    _ => false,
                },
            },
            // with no membership row in the joined game, no codename can
            // collide, so the retry cannot give up
            (has_joinable_game(old(e).games@, code@) && (forall|i: int|
                0 <= i < old(e).memberships@.len() ==> (#[trigger] old(e).memberships@[i]).game
                    != old(e).games@[game_idx_of_code(old(e).games@, code@)].id)) ==> !(res matches Err(
                ModelError::UnknownError,
            )),
    {
        if !(player_id >= 1 && (player_id as usize) <= e.players.len()) {
            return Err(ModelError::NotRegistered);
        }
        let gi = match find_game_idx(&e.games, code) {
            Some(i) => i,
            None => { return Err(ModelError::GameNotFound); },
        };
        proof {
            assert(has_game_code(e.games@, code@));
            let j = game_idx_of_code(e.games@, code@);
            assert(0 <= j < e.games@.len() && e.games@[j].code@ == code@);
            assert(j == gi as int);
        }
        let gid = e.games[gi].id;
        // a membership row of any status answers first: the unique
        // (player, game) key forbids a second row
        match find_membership_idx(&e.memberships, gid, player_id) {
            Some(_) => { return Err(ModelError::AlreadyInRequestedGame); },
            None => {},
        }
        if !(e.games[gi].status == GameStatus::WAITING_FOR_PLAYERS) {
            return Err(ModelError::GameNotFound);
        }
        if check_active_membership(&e.memberships, &e.games, player_id) {
            return Err(ModelError::AlreadyInAnotherGame);
        }
        let codename = match gen_unique_codename(&e.memberships, gid) {
            Some(c) => c,
            None => { return Err(ModelError::UnknownError); },
        };
        let m = PlayerGame {
            player: player_id,
            game: gid,
            codename,
            status: PlayerStatus::ALIVE,
            joined_at: now,
        };
        let ghost gm = m;
        e.memberships.push(m);
        proof {
            let gs1 = old(e).games@;
            let ms1 = old(e).memberships@;
            let asg = old(e).assignments@;
            let ms2 = e.memberships@;
            assert(ms2 =~= ms1.push(gm));
            assert(forall|i: int| 0 <= i < ms1.len() ==> ms2[i] == ms1[i]);
            assert(ms2[ms1.len() as int] == gm);
            assert(gs1[gi as int].id == gid);
            // memberships_wf
            assert forall|i: int, j: int|
                0 <= i < j < ms2.len() implies !((#[trigger] ms2[i]).game == (
            #[trigger] ms2[j]).game && ms2[i].player == ms2[j].player) by {
                if j == ms1.len() {
                    if ms1[i].game == gid && ms1[i].player == player_id {
                        assert(is_member_row(ms1, gid, player_id, i));
                        assert(false);
                    }
                }
            }
            assert forall|i: int, j: int|
                0 <= i < j < ms2.len() && (#[trigger] ms2[i]).game == (
            #[trigger] ms2[j]).game implies ms2[i].codename@ != ms2[j].codename@ by {
                if j == ms1.len() {
                    assert(!codename_used(ms1, gid, gm.codename@));
                }
            }
            assert(e.memberships_wf());
            // single_active
            assert forall|i: int, j: int|
                0 <= i < ms2.len() && 0 <= j < ms2.len() && i != j && (#[trigger] ms2[i]).player
                    == (#[trigger] ms2[j]).player && ms2[i].status == PlayerStatus::ALIVE && ms2[
                j
            ].status == PlayerStatus::ALIVE implies gs1[ms2[i].game as int - 1].status
                == GameStatus::FINISHED || gs1[ms2[j].game as int - 1].status
                == GameStatus::FINISHED by {
                if !(i < ms1.len() && j < ms1.len()) {
                    let o = if i < ms1.len() { i } else { j };
                    assert(o < ms1.len());
                    assert(ms1[o].player == player_id && ms1[o].status == PlayerStatus::ALIVE);
                    if gs1[ms1[o].game as int - 1].status != GameStatus::FINISHED {
                        assert(active_membership_at(ms1, gs1, player_id, o));
                        assert(false);
                    }
                }
            }
            assert(e.single_active());
            // rings: the joined game is still waiting, every other ring is
            // untouched by the membership append
            assert forall|gj: int|
                0 <= gj < gs1.len() && (#[trigger] gs1[gj]).id == gm.game implies gs1[gj].status
                == GameStatus::WAITING_FOR_PLAYERS by {
                assert(gs1[gj].id as int == gj + 1);
                assert(gj == gi as int);
            }
            lemma_rings_after_membership_push(gs1, asg, ms1, gm);
            assert(e.rings_ok());
            assert(e.wf());
        }
        Ok(())
    }

    /// Starts the waiting game carrying `code`: only its owner may start
    /// it, it needs at least two alive members, and starting sets it
    /// ACTIVE, stamps start and scheduled end times, and builds the ring —
    /// one CURRENT edge per member along a uniformly random cycle.
    /// `NotInGame` when the caller is not the owner, `GameNotStarted` when
    /// the game is not waiting or is too small.
    pub fn start_game(e: &mut Engine, code: &String, player_id: i32, now: i64) -> (res: Result<
        (),
        ModelError,
    >)
        requires
            old(e).wf(),
            now as int + GAME_DURATION_TICKS as int <= 0x7fff_ffff_ffff_ffff,
        ensures
            final(e).wf(),
            final(e).players@ == old(e).players@,
            final(e).memberships@ == old(e).memberships@,
            match res {
                Ok(r) => {
                    &&& has_game_code(old(e).games@, code@)
                    &&& ({
                        let gi = game_idx_of_code(old(e).games@, code@);
                        let g1 = old(e).games@[gi];
                        &&& g1.owner == player_id
                        &&& g1.status == GameStatus::WAITING_FOR_PLAYERS
                        &&& two_alive(old(e).memberships@, g1.id)
                        &&& final(e).games@ == old(e).games@.update(gi, started_game(g1, now))
                        &&& exists|rw: Seq<i32>|
                            {
                                &&& #[trigger] rw.len() >= 2
                                &&& distinct_seq(rw)
                                &&& (forall|p: i32| rw.contains(p) <==> is_alive(
                                    old(e).memberships@,
                                    g1.id,
                                    p,
                                ))
                                &&& final(e).assignments@ == old(e).assignments@ + ring_edge_rows(
                                    rw,
                                    g1.id,
                                    now,
                                )
                            }
                    })
                },
                Err(er) => final(e).games@ == old(e).games@ && final(e).assignments@ == old(
                    e,
                ).assignments@ && match er {
                    ModelError::GameNotFound => !has_game_code(old(e).games@, code@),
                    ModelError::NotInGame => has_game_code(old(e).games@, code@) && old(
                        e,
                    ).games@[game_idx_of_code(old(e).games@, code@)].owner != player_id,
                    ModelError::GameNotStarted => has_game_code(old(e).games@, code@) && ({
                        let g1 = old(e).games@[game_idx_of_code(old(e).games@, code@)];
                        g1.owner == player_id && (g1.status != GameStatus::WAITING_FOR_PLAYERS
                            || !two_alive(old(e).memberships@, g1.id))
                    }),
                    _ => false,
                },
            },
    {
        let gi = match find_game_idx(&e.games, code) {
            Some(i) => i,
            None => { return Err(ModelError::GameNotFound); },
        };
        proof {
            assert(has_game_code(e.games@, code@));
            let j = game_idx_of_code(e.games@, code@);
            assert(0 <= j < e.games@.len() && e.games@[j].code@ == code@);
            assert(j == gi as int);
        }
        let gid = e.games[gi].id;
        if e.games[gi].owner != player_id {
            return Err(ModelError::NotInGame);
        }
        if !(e.games[gi].status == GameStatus::WAITING_FOR_PLAYERS) {
            return Err(ModelError::GameNotStarted);
        }
        let mut members = collect_alive(&e.memberships, gid);
        if members.len() < 2 {
            proof {
                // fewer than two collected members means fewer than two
                // alive players
                if two_alive(e.memberships@, gid) {
                    let (p1, p2) = choose|p1: i32, p2: i32|
                        p1 != p2 && #[trigger] is_alive(e.memberships@, gid, p1)
                            && #[trigger] is_alive(e.memberships@, gid, p2);
                    assert(members@.contains(p1));
                    assert(members@.contains(p2));
                    let x1 = choose|x: int| 0 <= x < members@.len() && members@[x] == p1;
                    let x2 = choose|x: int| 0 <= x < members@.len() && members@[x] == p2;
                    assert(x1 != x2);
                    assert(false);
                }
            }
            return Err(ModelError::GameNotStarted);
        }
        proof {
            // at least two collected members means two alive players
            assert(members@.contains(members@[0]));
            assert(members@.contains(members@[1]));
            assert(members@[0] != members@[1]);
            assert(two_alive(e.memberships@, gid));
        }
        fisher_yates(&mut members);
        let ghost rw = members@;
        let ghost gs1 = old(e).games@;
        let ghost ms1 = old(e).memberships@;
        let ghost asg1 = old(e).assignments@;
        let ghost base = asg1.len() as int;
        let n = members.len();
        let mut k: usize = 0;
        while k < n
            invariant
                n == members@.len(),
                2 <= n,
                members@ == rw,
                k <= n,
                gid as int == gi as int + 1,
                base == asg1.len(),
                e.players@ == old(e).players@,
                e.games@ == gs1,
                e.memberships@ == ms1,
                e.assignments@.len() == base + k,
                forall|i: int| 0 <= i < base ==> #[trigger] e.assignments@[i] == asg1[i],
                forall|m: int|
                    0 <= m < k ==> #[trigger] e.assignments@[base + m] == edge_row(
                        rw,
                        gid,
                        now,
                        m,
                    ),
            decreases n - k,
        {
            let tgt = if k + 1 == n {
                members[0]
            } else {
                members[k + 1]
            };
            let row = Assignment {
                assassin: members[k],
                target: tgt,
                game: gid,
                status: TargetStatus::CURRENT,
                start_time: now,
                end_time: None,
            };
            let ghost grow = row;
            let ghost before = e.assignments@;
            e.assignments.push(row);
            proof {
                assert(e.assignments@ =~= before.push(grow));
                assert(e.assignments@[base + k as int] == grow);
                assert(grow.assassin == rw[k as int]);
                assert(grow.target == rw[ring_next_idx(rw.len() as int, k as int)]);
                assert(grow == edge_row(rw, gid, now, k as int));
                assert(forall|i: int| 0 <= i < base + k ==> #[trigger] e.assignments@[i]
                    == before[i]);
                assert forall|m: int| 0 <= m < k + 1 implies #[trigger] e.assignments@[base + m]
                    == edge_row(rw, gid, now, m) by {
                    if m < k {
                        assert(e.assignments@[base + m] == before[base + m]);
                    } else {
                        assert(e.assignments@[base + m] == grow);
                    }
                }
            }
            k = k + 1;
        }
        let src = &e.games[gi];
        let g2 = Game {
            id: src.id,
            name: clone_opt_string(&src.name),
            owner: src.owner,
            code: src.code.clone(),
            status: GameStatus::ACTIVE,
            created_at: src.created_at,
            start_time: Some(now),
            end_time: Some(now + GAME_DURATION_TICKS),
        };
        e.games.set(gi, g2);
        proof {
            let g1 = gs1[gi as int];
            assert(e.games@ =~= gs1.update(gi as int, started_game(g1, now)));
            assert forall|i: int| 0 <= i < asg1.len() + rw.len() implies #[trigger] e.assignments@[i]
                == (asg1 + ring_edge_rows(rw, gid, now))[i] by {
                if i < base {
                } else {
                    let m = i - base;
                    assert(e.assignments@[base + m] == edge_row(rw, gid, now, m));
                    assert((asg1 + ring_edge_rows(rw, gid, now))[i] == ring_edge_rows(
                        rw,
                        gid,
                        now,
                    )[m]);
                }
            }
            assert(e.assignments@ =~= asg1 + ring_edge_rows(rw, gid, now));
            lemma_start_game_post(*old(e), *e, gi as int, rw, now);
        }
        Ok(())
    }

    /// Resolves a kill: the caller's CURRENT target is marked DEAD, the
    /// kill edge closes KILL_SUCCESS, the victim's outgoing edge closes
    /// REASSIGNED and the caller inherits the victim's target — unless the
    /// victim's target was the caller, in which case the victim's edge
    /// closes GAME_END, no edge reopens, and the game FINISHES with the
    /// caller as the sole alive member.  `GameNotStarted` when the game is
    /// not ACTIVE, `NoCurrentTarget` when the caller has no CURRENT edge
    /// (not a member, dead, or already resolved).
    pub fn kill_player(e: &mut Engine, code: &String, player_id: i32, now: i64) -> (res: Result<
        (),
        ModelError,
    >)
        requires
            old(e).wf(),
        ensures
            final(e).wf(),
            final(e).players@ == old(e).players@,
            match res {
                Ok(r) => ({
                    let gs1 = old(e).games@;
                    let ms1 = old(e).memberships@;
                    let asg1 = old(e).assignments@;
                    let gi = game_idx_of_code(gs1, code@);
                    let gid = gs1[gi].id;
                    let ia = cur_out_idx(asg1, gid, player_id);
                    let v = the_target(asg1, gid, player_id);
                    let iv = cur_out_idx(asg1, gid, v);
                    let t = the_target(asg1, gid, v);
                    let mi = member_idx(ms1, gid, v);
                    &&& has_game_code(gs1, code@)
                    &&& gs1[gi].status == GameStatus::ACTIVE
                    &&& has_cur_out(asg1, gid, player_id)
                    &&& has_cur_out(asg1, gid, v)
                    &&& is_alive(ms1, gid, v)
                    &&& final(e).memberships@ == ms1.update(
                        mi,
                        retired_row(ms1[mi], PlayerStatus::DEAD),
                    )
                    &&& (forall|p: i32| #[trigger] is_alive(final(e).memberships@, gid, p) <==> (
                    is_alive(ms1, gid, p) && p != v))
                    &&& (forall|g2: i32, p2: i32| #[trigger] num_kills(final(e).assignments@, g2, p2)
                        == num_kills(asg1, g2, p2) + (if g2 == gid && p2 == player_id {
                            1nat
                        } else {
                            0nat
                        }))
                    &&& if t == player_id {
                        &&& final(e).assignments@ == asg1.update(
                            ia,
                            closed_row(asg1[ia], TargetStatus::KILL_SUCCESS, now),
                        ).update(iv, closed_row(asg1[iv], TargetStatus::GAME_END, now))
                        &&& final(e).games@ == gs1.update(gi, finished_game(gs1[gi], now))
                        &&& no_cur_edges(final(e).assignments@, gid)
                    } else {
                        &&& final(e).assignments@ == asg1.update(
                            ia,
                            closed_row(asg1[ia], TargetStatus::KILL_SUCCESS, now),
                        ).update(iv, closed_row(asg1[iv], TargetStatus::REASSIGNED, now)).push(
                            bridge_row(player_id, t, gid, now),
                        )
                        &&& final(e).games@ == gs1
                        &&& (forall|x2: i32, y2: i32| #[trigger] cur_edge(
                            final(e).assignments@,
                            gid,
                            x2,
                            y2,
                        ) <==> ((x2 == player_id && y2 == t) || (cur_edge(asg1, gid, x2, y2) && x2
                            != player_id && x2 != v)))
                    }
                }),
                Err(er) => unchanged(*old(e), *final(e)) && match er {
                    ModelError::GameNotFound => !has_game_code(old(e).games@, code@),
                    ModelError::GameNotStarted => has_game_code(old(e).games@, code@) && old(
                        e,
                    ).games@[game_idx_of_code(old(e).games@, code@)].status != GameStatus::ACTIVE,
                    ModelError::NoCurrentTarget => has_game_code(old(e).games@, code@) && ({
                        let g1 = old(e).games@[game_idx_of_code(old(e).games@, code@)];
                        g1.status == GameStatus::ACTIVE && !has_cur_out(
                            old(e).assignments@,
                            g1.id,
                            player_id,
                        )
                    }),
                    _ => false,
                },
            },
    {
        let ghost gs1 = old(e).games@;
        let ghost ms1 = old(e).memberships@;
        let ghost asg1 = old(e).assignments@;
        let gi = match find_game_idx(&e.games, code) {
            Some(i) => i,
            None => { return Err(ModelError::GameNotFound); },
        };
        proof {
            assert(has_game_code(gs1, code@));
            let j = game_idx_of_code(gs1, code@);
            assert(0 <= j < gs1.len() && gs1[j].code@ == code@);
            assert(j == gi as int);
        }
        let gid = e.games[gi].id;
        if !(e.games[gi].status == GameStatus::ACTIVE) {
            return Err(ModelError::GameNotStarted);
        }
        let ia = match find_cur_out(&e.assignments, gid, player_id) {
            Some(i) => i,
            None => { return Err(ModelError::NoCurrentTarget); },
        };
        let v = e.assignments[ia].target;
        proof {
            // the found row is the unique outgoing edge the contract names
            let co = cur_out_idx(asg1, gid, player_id);
            assert(cur_out_at(asg1, gid, player_id, co));
            if co != ia as int {
                if co < ia as int {
                    assert(asg1[co].assassin != asg1[ia as int].assassin);
                } else {
                    assert(asg1[ia as int].assassin != asg1[co].assassin);
                }
                assert(false);
            }
            assert(v == the_target(asg1, gid, player_id));
            // the victim is an alive member: the row is a ring edge
            assert(game_has_ring(asg1, ms1, gid));
            let r = choose|r: Seq<i32>| is_ring(r, asg1, ms1, gid);
            assert(is_ring(r, asg1, ms1, gid));
            assert(cur_row_of_game(asg1, gid, ia as int));
            let k = choose|k: int|
                0 <= k < r.len() && asg1[ia as int].assassin == r[k] && asg1[ia as int].target
                    == r[ring_next_idx(r.len() as int, k)];
            assert(r.contains(r[ring_next_idx(r.len() as int, k)]));
            assert(is_alive(ms1, gid, v));
            // the kill edge is the victim's unique incoming edge
            assert(cur_in_at(asg1, gid, v, ia as int));
            let ci = cur_in_idx(asg1, gid, v);
            assert(cur_in_at(asg1, gid, v, ci));
            if ci != ia as int {
                if ci < ia as int {
                    assert(asg1[ci].target != asg1[ia as int].target);
                } else {
                    assert(asg1[ia as int].target != asg1[ci].target);
                }
                assert(false);
            }
            assert(asg1[cur_in_idx(asg1, gid, v)].assassin == player_id);
        }
        resolve_removal(
            e,
            gi,
            v,
            TargetStatus::KILL_SUCCESS,
            TargetStatus::REASSIGNED,
            TargetStatus::GAME_END,
            PlayerStatus::DEAD,
            now,
        );
        Ok(())
    }

    /// Resolves a voluntary departure.  In a waiting game the membership
    /// simply flips to LEFT_GAME.  In an active game the repair is the
    /// same as a kill's, except both closed edges end TARGET_LEFT, the
    /// leaver's status becomes LEFT_GAME, and nobody's kill count moves;
    /// if only the leaver's assassin remains, the game FINISHES.
    /// `GameNotStarted` when the game is already FINISHED (or PAUSED),
    /// `NotInGame` when the caller is not an alive member.
    pub fn leave_game(e: &mut Engine, code: &String, player_id: i32, now: i64) -> (res: Result<
        (),
        ModelError,
    >)
        requires
            old(e).wf(),
        ensures
            final(e).wf(),
            final(e).players@ == old(e).players@,
            match res {
                Ok(r) => ({
                    let gs1 = old(e).games@;
                    let ms1 = old(e).memberships@;
                    let asg1 = old(e).assignments@;
                    let gi = game_idx_of_code(gs1, code@);
                    let gid = gs1[gi].id;
                    let mi = member_idx(ms1, gid, player_id);
                    &&& has_game_code(gs1, code@)
                    &&& (gs1[gi].status == GameStatus::WAITING_FOR_PLAYERS || gs1[gi].status
                        == GameStatus::ACTIVE)
                    &&& is_alive(ms1, gid, player_id)
                    &&& final(e).memberships@ == ms1.update(
                        mi,
                        retired_row(ms1[mi], PlayerStatus::LEFT_GAME),
                    )
                    &&& (forall|p: i32| #[trigger] is_alive(final(e).memberships@, gid, p) <==> (
                    is_alive(ms1, gid, p) && p != player_id))
                    &&& (forall|g2: i32, p2: i32| #[trigger] num_kills(final(e).assignments@, g2, p2)
                        == num_kills(asg1, g2, p2))
                    &&& if gs1[gi].status == GameStatus::WAITING_FOR_PLAYERS {
                        &&& final(e).assignments@ == asg1
                        &&& final(e).games@ == gs1
                    } else {
                        let il = cur_out_idx(asg1, gid, player_id);
                        let ii = cur_in_idx(asg1, gid, player_id);
                        let aa = asg1[ii].assassin;
                        let t = asg1[il].target;
                        &&& has_cur_out(asg1, gid, player_id)
                        &&& has_cur_in(asg1, gid, player_id)
                        &&& if t == aa {
                            &&& final(e).assignments@ == asg1.update(
                                ii,
                                closed_row(asg1[ii], TargetStatus::TARGET_LEFT, now),
                            ).update(il, closed_row(asg1[il], TargetStatus::TARGET_LEFT, now))
                            &&& final(e).games@ == gs1.update(gi, finished_game(gs1[gi], now))
                            &&& no_cur_edges(final(e).assignments@, gid)
                        } else {
                            &&& final(e).assignments@ == asg1.update(
                                ii,
                                closed_row(asg1[ii], TargetStatus::TARGET_LEFT, now),
                            ).update(il, closed_row(asg1[il], TargetStatus::TARGET_LEFT, now)).push(
                                bridge_row(aa, t, gid, now),
                            )
                            &&& final(e).games@ == gs1
                            &&& (forall|x2: i32, y2: i32| #[trigger] cur_edge(
                                final(e).assignments@,
                                gid,
                                x2,
                                y2,
                            ) <==> ((x2 == aa && y2 == t) || (cur_edge(asg1, gid, x2, y2) && x2 != aa
                                && x2 != player_id)))
                        }
                    }
                }),
                Err(er) => unchanged(*old(e), *final(e)) && match er {
                    ModelError::GameNotFound => !has_game_code(old(e).games@, code@),
                    ModelError::GameNotStarted => has_game_code(old(e).games@, code@) && ({
                        let st = old(e).games@[game_idx_of_code(old(e).games@, code@)].status;
                        st != GameStatus::WAITING_FOR_PLAYERS && st != GameStatus::ACTIVE
                    }),
                    ModelError::NotInGame => has_game_code(old(e).games@, code@) && ({
                        let g1 = old(e).games@[game_idx_of_code(old(e).games@, code@)];
                        (g1.status == GameStatus::WAITING_FOR_PLAYERS || g1.status
                            == GameStatus::ACTIVE) && !is_alive(
                            old(e).memberships@,
                            g1.id,
                            player_id,
                        )
                    }),
                    _ => false,
                },
            },
    {
        let ghost gs1 = old(e).games@;
        let ghost ms1 = old(e).memberships@;
        let ghost asg1 = old(e).assignments@;
        let gi = match find_game_idx(&e.games, code) {
            Some(i) => i,
            None => { return Err(ModelError::GameNotFound); },
        };
        proof {
            assert(has_game_code(gs1, code@));
            let j = game_idx_of_code(gs1, code@);
            assert(0 <= j < gs1.len() && gs1[j].code@ == code@);
            assert(j == gi as int);
        }
        let gid = e.games[gi].id;
        let waiting = e.games[gi].status == GameStatus::WAITING_FOR_PLAYERS;
        if !(waiting || e.games[gi].status == GameStatus::ACTIVE) {
            return Err(ModelError::GameNotStarted);
        }
        let mi = match find_membership_idx(&e.memberships, gid, player_id) {
            Some(i) => i,
            None => { return Err(ModelError::NotInGame); },
        };
        if !(e.memberships[mi].status == PlayerStatus::ALIVE) {
            proof {
                if is_alive(ms1, gid, player_id) {
                    let j = choose|j: int| is_alive_row(ms1, gid, player_id, j);
                    if j != mi as int {
                        assert(false);
                    }
                }
            }
            return Err(ModelError::NotInGame);
        }
        proof {
            assert(is_alive_row(ms1, gid, player_id, mi as int));
            let cm = member_idx(ms1, gid, player_id);
            assert(is_member_row(ms1, gid, player_id, cm));
            if cm != mi as int {
                assert(false);
            }
        }
        if waiting {
            let mrow = &e.memberships[mi];
            let m2 = PlayerGame {
                player: mrow.player,
                game: mrow.game,
                codename: mrow.codename.clone(),
                status: PlayerStatus::LEFT_GAME,
                joined_at: mrow.joined_at,
            };
            proof {
                assert(m2 == retired_row(ms1[mi as int], PlayerStatus::LEFT_GAME));
            }
            e.memberships.set(mi, m2);
            proof {
                let ms2 = e.memberships@;
                assert(ms2 =~= ms1.update(mi as int, retired_row(ms1[mi as int], PlayerStatus::LEFT_GAME)));
                lemma_alive_update(ms1, mi as int, retired_row(ms1[mi as int], PlayerStatus::LEFT_GAME));
                assert(forall|i: int|
                    0 <= i < ms2.len() ==> (#[trigger] ms2[i]).player == ms1[i].player && ms2[
                    i
                ].game == ms1[i].game && ms2[i].codename@ == ms1[i].codename@);
                assert(e.memberships_wf());
                assert forall|i: int, j: int|
                    0 <= i < ms2.len() && 0 <= j < ms2.len() && i != j && (
                    #[trigger] ms2[i]).player == (#[trigger] ms2[j]).player && ms2[i].status
                    == PlayerStatus::ALIVE && ms2[j].status == PlayerStatus::ALIVE implies gs1[ms2[
                    i
                ].game as int - 1].status == GameStatus::FINISHED || gs1[ms2[j].game as int
                    - 1].status == GameStatus::FINISHED by {
                    assert(i != mi as int && j != mi as int);
                    assert(ms2[i] == ms1[i] && ms2[j] == ms1[j]);
                }
                assert(e.single_active());
                assert forall|gj: int|
                    0 <= gj < gs1.len() implies if (#[trigger] gs1[gj]).status
                    == GameStatus::ACTIVE {
                    game_has_ring(asg1, ms2, gs1[gj].id)
                } else {
                    no_cur_edges(asg1, gs1[gj].id)
                } by {
                    if gs1[gj].status == GameStatus::ACTIVE {
                        let og = gs1[gj].id;
                        assert(og as int == gj + 1);
                        assert(og != gid);
                        assert forall|p2: i32| #[trigger] is_alive(ms2, og, p2) <==> is_alive(
                            ms1,
                            og,
                            p2,
                        ) by {
                            assert(!(og == ms1[mi as int].game && p2 == ms1[mi as int].player));
                        }
                        let r0 = choose|r0: Seq<i32>| is_ring(r0, asg1, ms1, og);
                        assert(is_ring(r0, asg1, ms1, og));
                        lemma_ring_frame(r0, asg1, asg1, ms1, ms2, og);
                    }
                }
                assert(e.rings_ok());
                assert(e.wf());
                assert forall|p: i32| #[trigger] is_alive(ms2, gid, p) <==> (is_alive(ms1, gid, p)
                    && p != player_id) by {
                    if p == player_id {
                        assert(is_alive(ms2, gid, p) <==> retired_row(
                            ms1[mi as int],
                            PlayerStatus::LEFT_GAME,
                        ).status == PlayerStatus::ALIVE);
                    }
                }
            }
            Ok(())
        } else {
            resolve_removal(
                e,
                gi,
                player_id,
                TargetStatus::TARGET_LEFT,
                TargetStatus::TARGET_LEFT,
                TargetStatus::TARGET_LEFT,
                PlayerStatus::LEFT_GAME,
                now,
            );
            Ok(())
        }
    }

    /// Manual termination by the owner, permitted only once the scheduled
    /// end has elapsed: sets the game FINISHED and closes every remaining
    /// CURRENT edge with GAME_END.  `NotInGame` when the caller is not the
    /// owner, `GameNotStarted` when the game is not ACTIVE or its
    /// scheduled end has not passed.
    pub fn stop_game(e: &mut Engine, code: &String, player_id: i32, now: i64) -> (res: Result<
        (),
        ModelError,
    >)
        requires
            old(e).wf(),
        ensures
            final(e).wf(),
            final(e).players@ == old(e).players@,
            final(e).memberships@ == old(e).memberships@,
            match res {
                Ok(r) => ({
                    let gs1 = old(e).games@;
                    let asg1 = old(e).assignments@;
                    let gi = game_idx_of_code(gs1, code@);
                    let gid = gs1[gi].id;
                    &&& has_game_code(gs1, code@)
                    &&& gs1[gi].owner == player_id
                    &&& gs1[gi].status == GameStatus::ACTIVE
                    &&& gs1[gi].end_time is Some
                    &&& gs1[gi].end_time.unwrap() <= now
                    &&& final(e).games@ == gs1.update(gi, finished_game(gs1[gi], now))
                    &&& no_cur_edges(final(e).assignments@, gid)
                    &&& (forall|i: int|
                        0 <= i < asg1.len() ==> #[trigger] final(e).assignments@[i] == (if cur_row_of_game(
                            asg1,
                            gid,
                            i,
                        ) {
                            closed_row(asg1[i], TargetStatus::GAME_END, now)
                        } else {
                            asg1[i]
                        }))
                    &&& final(e).assignments@.len() == asg1.len()
                    &&& (forall|g2: i32, p2: i32| #[trigger] num_kills(final(e).assignments@, g2, p2)
                        == num_kills(asg1, g2, p2))
                }),
                Err(er) => unchanged(*old(e), *final(e)) && match er {
                    ModelError::GameNotFound => !has_game_code(old(e).games@, code@),
                    ModelError::NotInGame => has_game_code(old(e).games@, code@) && old(
                        e,
                    ).games@[game_idx_of_code(old(e).games@, code@)].owner != player_id,
                    ModelError::GameNotStarted => has_game_code(old(e).games@, code@) && ({
                        let g1 = old(e).games@[game_idx_of_code(old(e).games@, code@)];
                        g1.owner == player_id && !(g1.status == GameStatus::ACTIVE
                            && g1.end_time is Some && g1.end_time.unwrap() <= now)
                    }),
                    _ => false,
                },
            },
    {
        let ghost gs1 = old(e).games@;
        let ghost ms1 = old(e).memberships@;
        let ghost asg1 = old(e).assignments@;
        let gi = match find_game_idx(&e.games, code) {
            Some(i) => i,
            None => { return Err(ModelError::GameNotFound); },
        };
        proof {
            assert(has_game_code(gs1, code@));
            let j = game_idx_of_code(gs1, code@);
            assert(0 <= j < gs1.len() && gs1[j].code@ == code@);
            assert(j == gi as int);
        }
        let gid = e.games[gi].id;
        if e.games[gi].owner != player_id {
            return Err(ModelError::NotInGame);
        }
        if !(e.games[gi].status == GameStatus::ACTIVE) {
            return Err(ModelError::GameNotStarted);
        }
        let elapsed = match e.games[gi].end_time {
            Some(t) => t <= now,
            None => false,
        };
        if !elapsed {
            return Err(ModelError::GameNotStarted);
        }
        // close every remaining CURRENT edge of the game
        let n = e.assignments.len();
        let mut i: usize = 0;
        while i < n
            invariant
                n == asg1.len(),
                i <= n,
                gid as int == gi as int + 1,
                e.players@ == old(e).players@,
                e.games@ == gs1,
                e.memberships@ == ms1,
                e.assignments@.len() == n,
                forall|j: int|
                    0 <= j < i ==> #[trigger] e.assignments@[j] == (if cur_row_of_game(
                        asg1,
                        gid,
                        j,
                    ) {
                        closed_row(asg1[j], TargetStatus::GAME_END, now)
                    } else {
                        asg1[j]
                    }),
                forall|j: int| i <= j < n ==> #[trigger] e.assignments@[j] == asg1[j],
                forall|g2: i32, p2: i32| #[trigger] num_kills(e.assignments@, g2, p2) == num_kills(
                    asg1,
                    g2,
                    p2,
                ),
            decreases n - i,
        {
            let close = e.assignments[i].game == gid && e.assignments[i].status
                == TargetStatus::CURRENT;
            if close {
                let row = &e.assignments[i];
                let r2 = Assignment {
                    assassin: row.assassin,
                    target: row.target,
                    game: row.game,
                    status: TargetStatus::GAME_END,
                    start_time: row.start_time,
                    end_time: Some(now),
                };
                let ghost before = e.assignments@;
                proof {
                    assert(r2 == closed_row(asg1[i as int], TargetStatus::GAME_END, now));
                }
                e.assignments.set(i, r2);
                proof {
                    lemma_num_kills_update(
                        before,
                        i as int,
                        closed_row(asg1[i as int], TargetStatus::GAME_END, now),
                    );
                    assert forall|g2: i32, p2: i32| #[trigger] num_kills(e.assignments@, g2, p2)
                        == num_kills(asg1, g2, p2) by {
                        assert(num_kills(e.assignments@, g2, p2) + kill_contrib(
                            before[i as int],
                            g2,
                            p2,
                        ) == num_kills(before, g2, p2) + kill_contrib(
                            closed_row(asg1[i as int], TargetStatus::GAME_END, now),
                            g2,
                            p2,
                        ));
                        assert(kill_contrib(before[i as int], g2, p2) == 0);
                        assert(kill_contrib(
                            closed_row(asg1[i as int], TargetStatus::GAME_END, now),
                            g2,
                            p2,
                        ) == 0);
                    }
                }
            }
            i = i + 1;
        }
        let src = &e.games[gi];
        let g2 = Game {
            id: src.id,
            name: clone_opt_string(&src.name),
            owner: src.owner,
            code: src.code.clone(),
            status: GameStatus::FINISHED,
            created_at: src.created_at,
            start_time: src.start_time,
            end_time: Some(now),
        };
        e.games.set(gi, g2);
        proof {
            let gs2 = e.games@;
            let asg2 = e.assignments@;
            assert(gs2 =~= gs1.update(gi as int, finished_game(gs1[gi as int], now)));
            assert(forall|j: int| 0 <= j < gs1.len() && j != gi as int ==> gs2[j] == gs1[j]);
            assert(gs2[gi as int] == finished_game(gs1[gi as int], now));
            assert(forall|j: int|
                0 <= j < gs2.len() ==> (#[trigger] gs2[j]).id == gs1[j].id && gs2[j].code@ == gs1[
                j
            ].code@ && gs2[j].owner == gs1[j].owner && gs2[j].name == gs1[j].name);
            assert forall|x: int, y: int| 0 <= x < y < gs2.len() implies (
            #[trigger] gs2[x]).code@ != (#[trigger] gs2[y]).code@ by {
                assert(gs1[x].code@ != gs1[y].code@);
            }
            assert(e.players_wf());
            assert(e.games_wf());
            assert(e.memberships_wf());
            assert forall|x: int, y: int|
                0 <= x < ms1.len() && 0 <= y < ms1.len() && x != y && (#[trigger] ms1[x]).player
                    == (#[trigger] ms1[y]).player && ms1[x].status == PlayerStatus::ALIVE && ms1[
                y
            ].status == PlayerStatus::ALIVE implies gs2[ms1[x].game as int - 1].status
                == GameStatus::FINISHED || gs2[ms1[y].game as int - 1].status
                == GameStatus::FINISHED by {
                assert(gs1[ms1[x].game as int - 1].status == GameStatus::FINISHED || gs1[ms1[
                    y
                ].game as int - 1].status == GameStatus::FINISHED);
                if gs1[ms1[x].game as int - 1].status == GameStatus::FINISHED {
                    assert(ms1[x].game as int - 1 != gi as int);
                } else {
                    assert(ms1[y].game as int - 1 != gi as int);
                }
            }
            assert(e.single_active());
            // row fields are preserved, only statuses of this game's
            // CURRENT rows moved to GAME_END
            assert(forall|j: int|
                0 <= j < asg2.len() ==> (#[trigger] asg2[j]).game == asg1[j].game && asg2[
                j
            ].assassin == asg1[j].assassin && asg2[j].target == asg1[j].target);
            assert forall|x: int, y: int|
                0 <= x < y < asg2.len() && #[trigger] asg2[x].game == #[trigger] asg2[y].game
                    && asg2[x].status == TargetStatus::CURRENT && asg2[y].status
                    == TargetStatus::CURRENT implies asg2[x].assassin != asg2[y].assassin && asg2[
                x
            ].target != asg2[y].target by {
                assert(asg2[x] == asg1[x] && asg2[y] == asg1[y]);
            }
            assert(e.assignments_wf());
            assert forall|j: int| !cur_row_of_game(asg2, gid, j) by {
                if cur_row_of_game(asg2, gid, j) {
                    if cur_row_of_game(asg1, gid, j) {
                        assert(asg2[j] == closed_row(asg1[j], TargetStatus::GAME_END, now));
                        assert(false);
                    } else {
                        assert(asg2[j] == asg1[j]);
                        assert(false);
                    }
                }
            }
            assert(no_cur_edges(asg2, gid));
            assert forall|gj: int|
                0 <= gj < gs2.len() implies if (#[trigger] gs2[gj]).status == GameStatus::ACTIVE {
                game_has_ring(asg2, ms1, gs2[gj].id)
            } else {
                no_cur_edges(asg2, gs2[gj].id)
            } by {
                if gj == gi as int {
                    assert(no_cur_edges(asg2, gid));
                } else {
                    let og = gs1[gj].id;
                    assert(gs2[gj] == gs1[gj]);
                    assert(og as int == gj + 1);
                    assert(og != gid);
                    assert forall|x2: i32, y2: i32| #[trigger] cur_edge(asg2, og, x2, y2)
                        <==> cur_edge(asg1, og, x2, y2) by {
                        if cur_edge(asg2, og, x2, y2) {
                            let ix = choose|ix: int| cur_at(asg2, og, x2, y2, ix);
                            assert(asg2[ix] == asg1[ix]);
                            assert(cur_at(asg1, og, x2, y2, ix));
                        }
                        if cur_edge(asg1, og, x2, y2) {
                            let ix = choose|ix: int| cur_at(asg1, og, x2, y2, ix);
                            assert(!cur_row_of_game(asg1, gid, ix));
                            assert(asg2[ix] == asg1[ix]);
                            assert(cur_at(asg2, og, x2, y2, ix));
                        }
                    }
                    if gs1[gj].status == GameStatus::ACTIVE {
                        let r0 = choose|r0: Seq<i32>| is_ring(r0, asg1, ms1, og);
                        assert(is_ring(r0, asg1, ms1, og));
                        lemma_ring_frame(r0, asg1, asg2, ms1, ms1, og);
                    } else {
                        lemma_no_cur_edges_from_frame(asg1, asg2, og);
                    }
                }
            }
            assert(e.rings_ok());
            assert(e.wf());
        }
        Ok(())
    }

    /// The game's display name, owner nickname and member listing, for a
    /// member.  `NotInGame` when the caller has no membership row.
    pub fn get_game_info(e: &Engine, code: &String, player_id: i32) -> (res: Result<
        GameInfo,
        ModelError,
    >)
        requires
            e.wf(),
        ensures
            match res {
                Ok(info) => has_game_code(e.games@, code@) && ({
                    let g1 = e.games@[game_idx_of_code(e.games@, code@)];
                    &&& has_membership(e.memberships@, g1.id, player_id)
                    &&& info.game_name@ == g1.name.unwrap()@
                    &&& info.admin_nickname@ == e.players@[g1.owner as int - 1].nickname@
                    &&& info.players@ == member_infos(e.memberships@, e.players@, g1.id)
                }),
                Err(er) => match er {
                    ModelError::GameNotFound => !has_game_code(e.games@, code@),
                    ModelError::NotInGame => has_game_code(e.games@, code@) && !has_membership(
                        e.memberships@,
                        e.games@[game_idx_of_code(e.games@, code@)].id,
                        player_id,
                    ),
                    _ => false,
                },
            },
    {
        let gi = match find_game_idx(&e.games, code) {
            Some(i) => i,
            None => { return Err(ModelError::GameNotFound); },
        };
        proof {
            assert(has_game_code(e.games@, code@));
            let j = game_idx_of_code(e.games@, code@);
            assert(0 <= j < e.games@.len() && e.games@[j].code@ == code@);
            assert(j == gi as int);
        }
        let gid = e.games[gi].id;
        match find_membership_idx(&e.memberships, gid, player_id) {
            Some(_) => {},
            None => { return Err(ModelError::NotInGame); },
        }
        let game_name = match &e.games[gi].name {
            Some(nm) => nm.clone(),
            None => {
                proof {
                    assert(false);
                }
                vstd::pervasive::unreached()
            },
        };
        let admin_nickname = e.players[(e.games[gi].owner - 1) as usize].nickname.clone();
        let n = e.memberships.len();
        let mut players: Vec<GamePlayerInfo> = Vec::new();
        let mut i: usize = 0;
        while i < n
            invariant
                e.wf(),
                n == e.memberships@.len(),
                i <= n,
                1 <= gid as int <= e.games@.len(),
                players@ == member_infos(e.memberships@.take(i as int), e.players@, gid),
            decreases n - i,
        {
            proof {
                assert(e.memberships@.take(i + 1).drop_last() =~= e.memberships@.take(i as int));
                assert(e.memberships@.take(i + 1).last() == e.memberships@[i as int]);
            }
            let row = &e.memberships[i];
            if row.game == gid {
                let ghost before = players@;
                let p = &e.players[(row.player - 1) as usize];
                players.push(GamePlayerInfo {
                    nickname: p.nickname.clone(),
                    picture: clone_opt_string(&p.picture),
                });
                proof {
                    assert(players@ =~= member_infos(
                        e.memberships@.take(i + 1),
                        e.players@,
                        gid,
                    ));
                }
            }
            i = i + 1;
        }
        proof {
            assert(e.memberships@.take(n as int) =~= e.memberships@);
        }
        Ok(GameInfo { game_name, admin_nickname, players })
    }

    /// All codenames of the game, for a member.  `NotInGame` when the
    /// caller has no membership row.
    pub fn get_codenames(e: &Engine, code: &String, player_id: i32) -> (res: Result<
        Codenames,
        ModelError,
    >)
        requires
            e.wf(),
        ensures
            match res {
                Ok(c) => has_game_code(e.games@, code@) && ({
                    let g1 = e.games@[game_idx_of_code(e.games@, code@)];
                    &&& has_membership(e.memberships@, g1.id, player_id)
                    &&& c.codenames@ == member_codenames(e.memberships@, g1.id)
                }),
                Err(er) => match er {
                    ModelError::GameNotFound => !has_game_code(e.games@, code@),
                    ModelError::NotInGame => has_game_code(e.games@, code@) && !has_membership(
                        e.memberships@,
                        e.games@[game_idx_of_code(e.games@, code@)].id,
                        player_id,
                    ),
                    _ => false,
                },
            },
    {
        let gi = match find_game_idx(&e.games, code) {
            Some(i) => i,
            None => { return Err(ModelError::GameNotFound); },
        };
        proof {
            assert(has_game_code(e.games@, code@));
            let j = game_idx_of_code(e.games@, code@);
            assert(0 <= j < e.games@.len() && e.games@[j].code@ == code@);
            assert(j == gi as int);
        }
        let gid = e.games[gi].id;
        match find_membership_idx(&e.memberships, gid, player_id) {
            Some(_) => {},
            None => { return Err(ModelError::NotInGame); },
        }
        let n = e.memberships.len();
        let mut codenames: Vec<String> = Vec::new();
        let mut i: usize = 0;
        while i < n
            invariant
                n == e.memberships@.len(),
                i <= n,
                codenames@ == member_codenames(e.memberships@.take(i as int), gid),
            decreases n - i,
        {
            proof {
                assert(e.memberships@.take(i + 1).drop_last() =~= e.memberships@.take(i as int));
                assert(e.memberships@.take(i + 1).last() == e.memberships@[i as int]);
            }
            let row = &e.memberships[i];
            if row.game == gid {
                codenames.push(row.codename.clone());
                proof {
                    assert(codenames@ =~= member_codenames(e.memberships@.take(i + 1), gid));
                }
            }
            i = i + 1;
        }
        proof {
            assert(e.memberships@.take(n as int) =~= e.memberships@);
        }
        Ok(Codenames { codenames })
    }

    /// The game's scheduled end, for a member.  `NotInGame` when the
    /// caller has no membership row, `GameNotStarted` when no end has been
    /// scheduled yet.
    pub fn get_end_time(e: &Engine, code: &String, player_id: i32) -> (res: Result<
        i64,
        ModelError,
    >)
        requires
            e.wf(),
        ensures
            match res {
                Ok(t) => has_game_code(e.games@, code@) && ({
                    let g1 = e.games@[game_idx_of_code(e.games@, code@)];
                    &&& has_membership(e.memberships@, g1.id, player_id)
                    &&& g1.end_time == Some(t)
                }),
                Err(er) => match er {
                    ModelError::GameNotFound => !has_game_code(e.games@, code@),
                    ModelError::NotInGame => has_game_code(e.games@, code@) && !has_membership(
                        e.memberships@,
                        e.games@[game_idx_of_code(e.games@, code@)].id,
                        player_id,
                    ),
                    ModelError::GameNotStarted => has_game_code(e.games@, code@) && ({
                        let g1 = e.games@[game_idx_of_code(e.games@, code@)];
                        has_membership(e.memberships@, g1.id, player_id) && g1.end_time is None
                    }),
                    _ => false,
                },
            },
    {
        let gi = match find_game_idx(&e.games, code) {
            Some(i) => i,
            None => { return Err(ModelError::GameNotFound); },
        };
        proof {
            assert(has_game_code(e.games@, code@));
            let j = game_idx_of_code(e.games@, code@);
            assert(0 <= j < e.games@.len() && e.games@[j].code@ == code@);
            assert(j == gi as int);
        }
        let gid = e.games[gi].id;
        match find_membership_idx(&e.memberships, gid, player_id) {
            Some(_) => {},
            None => { return Err(ModelError::NotInGame); },
        }
        match e.games[gi].end_time {
            Some(t) => Ok(t),
            None => Err(ModelError::GameNotStarted),
        }
    }

    /// The caller's current target along the outgoing CURRENT edge, or
    /// none when the caller has no CURRENT edge in the game.
    pub fn current_target_of(e: &Engine, code: &String, player_id: i32) -> (res: Result<
        Option<i32>,
        ModelError,
    >)
        requires
            e.wf(),
        ensures
            match res {
                Ok(t) => has_game_code(e.games@, code@) && ({
                    let gid = e.games@[game_idx_of_code(e.games@, code@)].id;
                    match t {
                        Some(tp) => has_cur_out(e.assignments@, gid, player_id) && tp
                            == the_target(e.assignments@, gid, player_id),
                        None => !has_cur_out(e.assignments@, gid, player_id),
                    }
                }),
                Err(er) => er == ModelError::GameNotFound && !has_game_code(e.games@, code@),
            },
    {
        let gi = match find_game_idx(&e.games, code) {
            Some(i) => i,
            None => { return Err(ModelError::GameNotFound); },
        };
        proof {
            assert(has_game_code(e.games@, code@));
            let j = game_idx_of_code(e.games@, code@);
            assert(0 <= j < e.games@.len() && e.games@[j].code@ == code@);
            assert(j == gi as int);
        }
        let gid = e.games[gi].id;
        match find_cur_out(&e.assignments, gid, player_id) {
            Some(ix) => {
                proof {
                    let co = cur_out_idx(e.assignments@, gid, player_id);
                    assert(cur_out_at(e.assignments@, gid, player_id, co));
                    if co != ix as int {
                        if co < ix as int {
                            assert(e.assignments@[co].assassin != e.assignments@[ix as int].assassin);
                        } else {
                            assert(e.assignments@[ix as int].assassin != e.assignments@[co].assassin);
                        }
                        assert(false);
                    }
                }
                Ok(Some(e.assignments[ix].target))
            },
            None => Ok(None),
        }
    }
}

} // verus!