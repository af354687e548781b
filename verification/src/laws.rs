//! The store-wide laws a well-formed engine guarantees, stated on their
//! own so a reader finds them in one place.  Each follows from
//! `Engine::wf`, which every operation requires and re-establishes.

use vstd::prelude::*;
use crate::engine::Engine;
use crate::enums::{GameStatus, PlayerStatus, TargetStatus};
use crate::records::Assignment;
use crate::ring::{
    cur_at, cur_edge, cur_in_at, cur_out_at, cur_row_of_game, game_has_ring, has_cur_in,
    has_cur_out, is_alive, is_ring, lemma_no_cur_edges_count, lemma_num_current_push,
    lemma_num_current_update, no_cur_edges, num_current, ring_next_idx, ring_prev_idx,
};

verus! {

/// Ring validity: in a well-formed store the CURRENT edges of an ACTIVE
/// game form exactly one directed cycle — witnessed by one duplicate-free
/// vertex sequence carrying every CURRENT edge — whose vertex set is
/// exactly the game's alive members.  In particular no CURRENT edge is a
/// self-loop, both endpoints of every CURRENT edge are alive, and every
/// alive member hunts and is hunted along exactly the cycle.
pub proof fn ring_validity(e: Engine, gi: int)
    requires
        e.wf(),
        0 <= gi < e.games@.len(),
        e.games@[gi].status == GameStatus::ACTIVE,
    ensures
        game_has_ring(e.assignments@, e.memberships@, e.games@[gi].id),
        forall|x: i32, y: i32| #[trigger] cur_edge(e.assignments@, e.games@[gi].id, x, y) ==> x
            != y,
        forall|x: i32, y: i32| #[trigger] cur_edge(e.assignments@, e.games@[gi].id, x, y)
            ==> is_alive(e.memberships@, e.games@[gi].id, x) && is_alive(
            e.memberships@,
            e.games@[gi].id,
            y,
        ),
        forall|p: i32| #[trigger] is_alive(e.memberships@, e.games@[gi].id, p) ==> has_cur_out(
            e.assignments@,
            e.games@[gi].id,
            p,
        ) && has_cur_in(e.assignments@, e.games@[gi].id, p),
{
    let gid = e.games@[gi].id;
    let asg = e.assignments@;
    let ms = e.memberships@;
    assert(game_has_ring(asg, ms, gid));
    let r = choose|r: Seq<i32>| is_ring(r, asg, ms, gid);
    assert(is_ring(r, asg, ms, gid));
    let n = r.len() as int;
    assert forall|x: i32, y: i32| #[trigger] cur_edge(asg, gid, x, y) implies x != y && is_alive(
        ms,
        gid,
        x,
    ) && is_alive(ms, gid, y) by {
        let i = choose|i: int| cur_at(asg, gid, x, y, i);
        assert(cur_row_of_game(asg, gid, i));
        let k = choose|k: int|
            0 <= k < r.len() && asg[i].assassin == r[k] && asg[i].target == r[ring_next_idx(n, k)];
        let kn = ring_next_idx(n, k);
        assert(kn != k);
        if k < kn {
            assert(r[k] != r[kn]);
        } else {
            assert(r[kn] != r[k]);
        }
        assert(r.contains(r[k]));
        assert(r.contains(r[kn]));
    }
    assert forall|p: i32| #[trigger] is_alive(ms, gid, p) implies has_cur_out(asg, gid, p)
        && has_cur_in(asg, gid, p) by {
        assert(r.contains(p));
        let k = choose|k: int| 0 <= k < r.len() && r[k] == p;
        assert(cur_edge(asg, gid, r[k], r[ring_next_idx(n, k)]));
        let w1 = choose|i: int| cur_at(asg, gid, r[k], r[ring_next_idx(n, k)], i);
        assert(cur_out_at(asg, gid, p, w1));
        let kp = ring_prev_idx(n, k);
        assert(ring_next_idx(n, kp) == k);
        assert(cur_edge(asg, gid, r[kp], r[k]));
        let w2 = choose|i: int| cur_at(asg, gid, r[kp], r[k], i);
        assert(cur_in_at(asg, gid, p, w2));
    }
}

/// Single active game: a player is listed ALIVE by at most one membership
/// row among games that are not FINISHED, so two such rows are one row.
pub proof fn single_active_game(e: Engine, p: i32, i: int, j: int)
    requires
        e.wf(),
        0 <= i < e.memberships@.len(),
        0 <= j < e.memberships@.len(),
        e.memberships@[i].player == p,
        e.memberships@[j].player == p,
        e.memberships@[i].status == PlayerStatus::ALIVE,
        e.memberships@[j].status == PlayerStatus::ALIVE,
        e.games@[e.memberships@[i].game as int - 1].status != GameStatus::FINISHED,
        e.games@[e.memberships@[j].game as int - 1].status != GameStatus::FINISHED,
    ensures
        i == j,
{
}

/// Code uniqueness: two committed games carrying the same code are one
/// game.
pub proof fn code_uniqueness(e: Engine, i: int, j: int)
    requires
        e.wf(),
        0 <= i < e.games@.len(),
        0 <= j < e.games@.len(),
        e.games@[i].code@ == e.games@[j].code@,
    ensures
        i == j,
{
    if i < j {
        assert(e.games@[i].code@ != e.games@[j].code@);
    } else if j < i {
        assert(e.games@[j].code@ != e.games@[i].code@);
    }
}

/// Kill and leave monotonicity, counted: a ring repair that closes the
/// exiting player's incoming and outgoing CURRENT edges and opens one
/// bridging edge — the exact shape `kill_player` and `leave_game` promise
/// in their contracts — leaves the game with exactly one CURRENT edge
/// fewer, and moves no other game's count.
pub proof fn repair_removes_one_edge(
    a1: Seq<Assignment>,
    ii: int,
    il: int,
    row_in: Assignment,
    row_out: Assignment,
    row_n: Assignment,
    g: i32,
)
    requires
        0 <= ii < a1.len(),
        0 <= il < a1.len(),
        ii != il,
        a1[ii].game == g,
        a1[ii].status == TargetStatus::CURRENT,
        a1[il].game == g,
        a1[il].status == TargetStatus::CURRENT,
        row_in.game == g,
        row_in.status != TargetStatus::CURRENT,
        row_out.game == g,
        row_out.status != TargetStatus::CURRENT,
        row_n.game == g,
        row_n.status == TargetStatus::CURRENT,
    ensures
        num_current(a1.update(ii, row_in).update(il, row_out).push(row_n), g) + 1 == num_current(
            a1,
            g,
        ),
        forall|g2: i32|
            g2 != g ==> #[trigger] num_current(
                a1.update(ii, row_in).update(il, row_out).push(row_n),
                g2,
            ) == num_current(a1, g2),
{
    let mid1 = a1.update(ii, row_in);
    let mid2 = mid1.update(il, row_out);
    lemma_num_current_update(a1, ii, row_in);
    lemma_num_current_update(mid1, il, row_out);
    lemma_num_current_push(mid2, row_n);
    assert(mid1[il] == a1[il]);
}

/// Idempotent terminal state, on the edge side: a game that is not ACTIVE
/// — FINISHED in particular — has no CURRENT edge at all, counted zero.
pub proof fn terminal_game_has_no_edges(e: Engine, gi: int)
    requires
        e.wf(),
        0 <= gi < e.games@.len(),
        e.games@[gi].status != GameStatus::ACTIVE,
    ensures
        no_cur_edges(e.assignments@, e.games@[gi].id),
        num_current(e.assignments@, e.games@[gi].id) == 0,
{
    lemma_no_cur_edges_count(e.assignments@, e.games@[gi].id);
}

} // verus!