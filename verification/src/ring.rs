//! Specification of the assignment ring and of the row-level predicates
//! the engine's contracts are stated over.
//!
//! A game's ring is characterized by a witness sequence `r` of player ids:
//! `r` lists the alive members in cycle order, and the CURRENT assignment
//! edges of the game are exactly the pairs `r[k] -> r[k+1]` (wrapping).
//! `game_has_ring` existentially quantifies the witness; the lemmas below
//! rebuild a witness after an edge rewrite (kill or leave repair).

use vstd::prelude::*;
use crate::enums::{PlayerStatus, TargetStatus};
use crate::records::{Assignment, Game, PlayerGame};

verus! {

// ---------------------------------------------------------------------------
// Membership rows
// ---------------------------------------------------------------------------

/// Row `i` of `ms` is the membership of player `p` in game `g`.
pub open spec fn is_member_row(ms: Seq<PlayerGame>, g: i32, p: i32, i: int) -> bool {
    0 <= i < ms.len() && ms[i].game == g && ms[i].player == p
}

/// Player `p` has a membership row in game `g` (of any status).
pub open spec fn has_membership(ms: Seq<PlayerGame>, g: i32, p: i32) -> bool {
    exists|i: int| is_member_row(ms, g, p, i)
}

/// The index of `p`'s membership row in game `g` (unique under `wf`).
pub open spec fn member_idx(ms: Seq<PlayerGame>, g: i32, p: i32) -> int {
    choose|i: int| is_member_row(ms, g, p, i)
}

/// Row `i` of `ms` is an ALIVE membership of `p` in `g`.
pub open spec fn is_alive_row(ms: Seq<PlayerGame>, g: i32, p: i32, i: int) -> bool {
    is_member_row(ms, g, p, i) && ms[i].status == PlayerStatus::ALIVE
}

/// Player `p` is an alive member of game `g`.
pub open spec fn is_alive(ms: Seq<PlayerGame>, g: i32, p: i32) -> bool {
    exists|i: int| is_alive_row(ms, g, p, i)
}

/// Membership rows are pairwise distinct on (player, game).
pub open spec fn member_rows_unique(ms: Seq<PlayerGame>) -> bool {
    forall|i: int, j: int|
        0 <= i < j < ms.len() ==> !(#[trigger] ms[i].game == #[trigger] ms[j].game
            && ms[i].player == ms[j].player)
}

// ---------------------------------------------------------------------------
// Assignment rows
// ---------------------------------------------------------------------------

/// Row `i` of `asg` is a CURRENT edge of game `g` from `a` to `t`.
pub open spec fn cur_at(asg: Seq<Assignment>, g: i32, a: i32, t: i32, i: int) -> bool {
    0 <= i < asg.len() && asg[i].game == g && asg[i].status == TargetStatus::CURRENT
        && asg[i].assassin == a && asg[i].target == t
}

/// Game `g` has a CURRENT edge from `a` to `t`.
pub open spec fn cur_edge(asg: Seq<Assignment>, g: i32, a: i32, t: i32) -> bool {
    exists|i: int| cur_at(asg, g, a, t, i)
}

/// Row `i` of `asg` is the CURRENT outgoing edge of assassin `a` in `g`.
pub open spec fn cur_out_at(asg: Seq<Assignment>, g: i32, a: i32, i: int) -> bool {
    0 <= i < asg.len() && asg[i].game == g && asg[i].status == TargetStatus::CURRENT
        && asg[i].assassin == a
}

/// Assassin `a` has a CURRENT outgoing edge in game `g`.
pub open spec fn has_cur_out(asg: Seq<Assignment>, g: i32, a: i32) -> bool {
    exists|i: int| cur_out_at(asg, g, a, i)
}

/// The row index of `a`'s CURRENT outgoing edge (unique under `wf`).
pub open spec fn cur_out_idx(asg: Seq<Assignment>, g: i32, a: i32) -> int {
    choose|i: int| cur_out_at(asg, g, a, i)
}

/// The current target of assassin `a` in game `g` (meaningful when
/// `has_cur_out` holds).
pub open spec fn the_target(asg: Seq<Assignment>, g: i32, a: i32) -> i32 {
    asg[cur_out_idx(asg, g, a)].target
}

/// Row `i` of `asg` is the CURRENT incoming edge of target `t` in `g`.
pub open spec fn cur_in_at(asg: Seq<Assignment>, g: i32, t: i32, i: int) -> bool {
    0 <= i < asg.len() && asg[i].game == g && asg[i].status == TargetStatus::CURRENT
        && asg[i].target == t
}

/// Target `t` has a CURRENT incoming edge in game `g`.
pub open spec fn has_cur_in(asg: Seq<Assignment>, g: i32, t: i32) -> bool {
    exists|i: int| cur_in_at(asg, g, t, i)
}

/// The row index of `t`'s CURRENT incoming edge (unique under `wf`).
pub open spec fn cur_in_idx(asg: Seq<Assignment>, g: i32, t: i32) -> int {
    choose|i: int| cur_in_at(asg, g, t, i)
}

/// Row `i` of `asg` is a CURRENT row of game `g`.
pub open spec fn cur_row_of_game(asg: Seq<Assignment>, g: i32, i: int) -> bool {
    0 <= i < asg.len() && asg[i].game == g && asg[i].status == TargetStatus::CURRENT
}

/// Game `g` has no CURRENT edges at all.
pub open spec fn no_cur_edges(asg: Seq<Assignment>, g: i32) -> bool {
    forall|i: int| !cur_row_of_game(asg, g, i)
}

/// At most one CURRENT outgoing edge per assassin and one incoming per
/// target, within every game.
pub open spec fn cur_edges_unique(asg: Seq<Assignment>) -> bool {
    forall|i: int, j: int|
        0 <= i < j < asg.len() && #[trigger] asg[i].game == #[trigger] asg[j].game
            && asg[i].status == TargetStatus::CURRENT && asg[j].status == TargetStatus::CURRENT
            ==> asg[i].assassin != asg[j].assassin && asg[i].target != asg[j].target
}

// ---------------------------------------------------------------------------
// The ring
// ---------------------------------------------------------------------------

/// The cycle successor of position `k` in a ring of length `n`.
pub open spec fn ring_next_idx(n: int, k: int) -> int {
    if k == n - 1 {
        0
    } else {
        k + 1
    }
}

/// The cycle predecessor of position `k` in a ring of length `n`.
pub open spec fn ring_prev_idx(n: int, k: int) -> int {
    if k == 0 {
        n - 1
    } else {
        k - 1
    }
}

/// The sequence holds pairwise distinct values.
pub open spec fn distinct_seq(r: Seq<i32>) -> bool {
    forall|i: int, j: int| 0 <= i < j < r.len() ==> #[trigger] r[i] != #[trigger] r[j]
}

/// Every consecutive (wrapping) pair of the witness is a CURRENT edge.
pub open spec fn ring_links(r: Seq<i32>, asg: Seq<Assignment>, g: i32) -> bool {
    forall|k: int|
        0 <= k < r.len() ==> cur_edge(asg, g, #[trigger] r[k], r[ring_next_idx(r.len() as int, k)])
}

/// Every CURRENT row of the game is one of the witness's consecutive pairs.
pub open spec fn ring_covers(r: Seq<i32>, asg: Seq<Assignment>, g: i32) -> bool {
    forall|i: int|
        #[trigger] cur_row_of_game(asg, g, i) ==> exists|k: int|
            0 <= k < r.len() && asg[i].assassin == r[k] && asg[i].target == r[ring_next_idx(
                r.len() as int,
                k,
            )]
}

/// The witness lists exactly the alive members of the game.
pub open spec fn ring_members(r: Seq<i32>, ms: Seq<PlayerGame>, g: i32) -> bool {
    forall|p: i32| #[trigger] r.contains(p) <==> is_alive(ms, g, p)
}

/// `r` witnesses a valid ring of game `g`: at least two vertices, pairwise
/// distinct, exactly the alive members, and the CURRENT edges of `g` are
/// exactly the wrapping consecutive pairs of `r` — a single directed cycle.
pub open spec fn is_ring(r: Seq<i32>, asg: Seq<Assignment>, ms: Seq<PlayerGame>, g: i32) -> bool {
    &&& r.len() >= 2
    &&& distinct_seq(r)
    &&& ring_links(r, asg, g)
    &&& ring_covers(r, asg, g)
    &&& ring_members(r, ms, g)
}

/// Game `g`'s CURRENT edges form a single cycle over its alive members.
pub open spec fn game_has_ring(asg: Seq<Assignment>, ms: Seq<PlayerGame>, g: i32) -> bool {
    exists|r: Seq<i32>| is_ring(r, asg, ms, g)
}

// ---------------------------------------------------------------------------
// Kill counting
// ---------------------------------------------------------------------------

/// Whether one row counts as a kill by `p` in game `g`.
pub open spec fn kill_contrib(row: Assignment, g: i32, p: i32) -> nat {
    if row.game == g && row.assassin == p && row.status == TargetStatus::KILL_SUCCESS {
        1nat
    } else {
        0nat
    }
}

/// Number of KILL_SUCCESS rows of game `g` with assassin `p`.
pub open spec fn num_kills(asg: Seq<Assignment>, g: i32, p: i32) -> nat
    decreases asg.len(),
{
    if asg.len() == 0 {
        0nat
    } else {
        num_kills(asg.drop_last(), g, p) + kill_contrib(asg.last(), g, p)
    }
}

/// Whether one row counts toward `p`'s lifetime kill total: a successful
/// kill in a game that has FINISHED.
pub open spec fn total_contrib(gs: Seq<Game>, row: Assignment, p: i32) -> nat {
    if row.assassin == p && row.status == TargetStatus::KILL_SUCCESS && 1 <= row.game as int
        <= gs.len() && gs[row.game as int - 1].status == crate::enums::GameStatus::FINISHED {
        1nat
    } else {
        0nat
    }
}

/// `p`'s lifetime kill count across finished games.
pub open spec fn total_kills(asg: Seq<Assignment>, gs: Seq<Game>, p: i32) -> nat
    decreases asg.len(),
{
    if asg.len() == 0 {
        0nat
    } else {
        total_kills(asg.drop_last(), gs, p) + total_contrib(gs, asg.last(), p)
    }
}

/// Whether one row is a CURRENT edge of game `g`.
pub open spec fn cur_contrib(row: Assignment, g: i32) -> nat {
    if row.game == g && row.status == TargetStatus::CURRENT {
        1nat
    } else {
        0nat
    }
}

/// Number of CURRENT rows of game `g`.
pub open spec fn num_current(asg: Seq<Assignment>, g: i32) -> nat
    decreases asg.len(),
{
    if asg.len() == 0 {
        0nat
    } else {
        num_current(asg.drop_last(), g) + cur_contrib(asg.last(), g)
    }
}

// ---------------------------------------------------------------------------
// Counting lemmas
// ---------------------------------------------------------------------------

/// Appending a row adds exactly its own contribution to every kill count.
pub proof fn lemma_num_kills_push(asg: Seq<Assignment>, row: Assignment)
    ensures
        forall|g: i32, p: i32| #[trigger] num_kills(asg.push(row), g, p) == num_kills(asg, g, p)
            + kill_contrib(row, g, p),
{
    assert(asg.push(row).drop_last() =~= asg);
    assert(asg.push(row).last() == row);
}

/// Replacing a row swaps its contribution in every kill count.
pub proof fn lemma_num_kills_update(asg: Seq<Assignment>, i: int, row: Assignment)
    requires
        0 <= i < asg.len(),
    ensures
        forall|g: i32, p: i32| #[trigger] num_kills(asg.update(i, row), g, p) + kill_contrib(
            asg[i],
            g,
            p,
        ) == num_kills(asg, g, p) + kill_contrib(row, g, p),
    decreases asg.len(),
{
    if i == asg.len() - 1 {
        assert forall|g: i32, p: i32| #[trigger] num_kills(asg.update(i, row), g, p) + kill_contrib(
            asg[i],
            g,
            p,
        ) == num_kills(asg, g, p) + kill_contrib(row, g, p) by {
            assert(asg.update(i, row).drop_last() =~= asg.drop_last());
            assert(asg.update(i, row).last() == row);
            assert(num_kills(asg.update(i, row), g, p) == num_kills(
                asg.update(i, row).drop_last(),
                g,
                p,
            ) + kill_contrib(asg.update(i, row).last(), g, p));
            assert(num_kills(asg, g, p) == num_kills(asg.drop_last(), g, p) + kill_contrib(
                asg.last(),
                g,
                p,
            ));
        }
    } else {
        lemma_num_kills_update(asg.drop_last(), i, row);
        assert forall|g: i32, p: i32| #[trigger] num_kills(asg.update(i, row), g, p) + kill_contrib(
            asg[i],
            g,
            p,
        ) == num_kills(asg, g, p) + kill_contrib(row, g, p) by {
            assert(asg.update(i, row).drop_last() =~= asg.drop_last().update(i, row));
            assert(asg.update(i, row).last() == asg.last());
            assert(num_kills(asg.update(i, row), g, p) == num_kills(
                asg.update(i, row).drop_last(),
                g,
                p,
            ) + kill_contrib(asg.update(i, row).last(), g, p));
            assert(num_kills(asg, g, p) == num_kills(asg.drop_last(), g, p) + kill_contrib(
                asg.last(),
                g,
                p,
            ));
            assert(num_kills(asg.drop_last().update(i, row), g, p) + kill_contrib(
                asg.drop_last()[i],
                g,
                p,
            ) == num_kills(asg.drop_last(), g, p) + kill_contrib(row, g, p));
            assert(asg.drop_last()[i] == asg[i]);
        }
    }
}

/// Appending a row adds exactly its own contribution to every game's
/// CURRENT edge count.
pub proof fn lemma_num_current_push(asg: Seq<Assignment>, row: Assignment)
    ensures
        forall|g: i32| #[trigger] num_current(asg.push(row), g) == num_current(asg, g)
            + cur_contrib(row, g),
{
    assert(asg.push(row).drop_last() =~= asg);
    assert(asg.push(row).last() == row);
}

/// Replacing a row swaps its contribution in every game's CURRENT edge
/// count.
pub proof fn lemma_num_current_update(asg: Seq<Assignment>, i: int, row: Assignment)
    requires
        0 <= i < asg.len(),
    ensures
        forall|g: i32| #[trigger] num_current(asg.update(i, row), g) + cur_contrib(asg[i], g)
            == num_current(asg, g) + cur_contrib(row, g),
    decreases asg.len(),
{
    if i == asg.len() - 1 {
        assert forall|g: i32| #[trigger] num_current(asg.update(i, row), g) + cur_contrib(
            asg[i],
            g,
        ) == num_current(asg, g) + cur_contrib(row, g) by {
            assert(asg.update(i, row).drop_last() =~= asg.drop_last());
            assert(asg.update(i, row).last() == row);
            assert(num_current(asg.update(i, row), g) == num_current(
                asg.update(i, row).drop_last(),
                g,
            ) + cur_contrib(asg.update(i, row).last(), g));
            assert(num_current(asg, g) == num_current(asg.drop_last(), g) + cur_contrib(
                asg.last(),
                g,
            ));
        }
    } else {
        lemma_num_current_update(asg.drop_last(), i, row);
        assert forall|g: i32| #[trigger] num_current(asg.update(i, row), g) + cur_contrib(
            asg[i],
            g,
        ) == num_current(asg, g) + cur_contrib(row, g) by {
            assert(asg.update(i, row).drop_last() =~= asg.drop_last().update(i, row));
            assert(asg.update(i, row).last() == asg.last());
            assert(num_current(asg.update(i, row), g) == num_current(
                asg.update(i, row).drop_last(),
                g,
            ) + cur_contrib(asg.update(i, row).last(), g));
            assert(num_current(asg, g) == num_current(asg.drop_last(), g) + cur_contrib(
                asg.last(),
                g,
            ));
            assert(num_current(asg.drop_last().update(i, row), g) + cur_contrib(
                asg.drop_last()[i],
                g,
            ) == num_current(asg.drop_last(), g) + cur_contrib(row, g));
            assert(asg.drop_last()[i] == asg[i]);
        }
    }
}

/// A game without CURRENT rows counts zero of them, and conversely.
pub proof fn lemma_no_cur_edges_count(asg: Seq<Assignment>, g: i32)
    ensures
        no_cur_edges(asg, g) <==> num_current(asg, g) == 0,
    decreases asg.len(),
{
    if asg.len() == 0 {
        assert forall|i: int| !cur_row_of_game(asg, g, i) by {}
    } else {
        lemma_no_cur_edges_count(asg.drop_last(), g);
        if no_cur_edges(asg, g) {
            assert forall|i: int| !cur_row_of_game(asg.drop_last(), g, i) by {
                if cur_row_of_game(asg.drop_last(), g, i) {
                    assert(asg.drop_last()[i] == asg[i]);
                    assert(cur_row_of_game(asg, g, i));
                    assert(false);
                }
            }
            assert(!cur_row_of_game(asg, g, asg.len() - 1));
            assert(cur_contrib(asg.last(), g) == 0);
        }
        if num_current(asg, g) == 0 {
            assert(num_current(asg.drop_last(), g) == 0);
            assert(cur_contrib(asg.last(), g) == 0);
            assert forall|i: int| !cur_row_of_game(asg, g, i) by {
                if cur_row_of_game(asg, g, i) {
                    if i < asg.len() - 1 {
                        assert(asg.drop_last()[i] == asg[i]);
                        assert(cur_row_of_game(asg.drop_last(), g, i));
                        assert(false);
                    } else {
                        assert(asg.last() == asg[i]);
                        assert(false);
                    }
                }
            }
        }
    }
}

// ---------------------------------------------------------------------------
// Frame lemmas
// ---------------------------------------------------------------------------

/// A game without CURRENT edges still has none after a change that adds no
/// CURRENT edge to it.
pub proof fn lemma_no_cur_edges_from_frame(a1: Seq<Assignment>, a2: Seq<Assignment>, g: i32)
    requires
        no_cur_edges(a1, g),
        forall|x: i32, y: i32| #[trigger] cur_edge(a2, g, x, y) ==> cur_edge(a1, g, x, y),
    ensures
        no_cur_edges(a2, g),
{
    assert forall|i: int| !cur_row_of_game(a2, g, i) by {
        if cur_row_of_game(a2, g, i) {
            assert(cur_at(a2, g, a2[i].assassin, a2[i].target, i));
            assert(cur_edge(a2, g, a2[i].assassin, a2[i].target));
            assert(cur_edge(a1, g, a2[i].assassin, a2[i].target));
            let j = choose|j: int| cur_at(a1, g, a2[i].assassin, a2[i].target, j);
            assert(cur_row_of_game(a1, g, j));
            assert(false);
        }
    }
}

/// A ring witness survives any state change that leaves the game's CURRENT
/// edges and alive members untouched.
pub proof fn lemma_ring_frame(
    r: Seq<i32>,
    a1: Seq<Assignment>,
    a2: Seq<Assignment>,
    ms1: Seq<PlayerGame>,
    ms2: Seq<PlayerGame>,
    g: i32,
)
    requires
        is_ring(r, a1, ms1, g),
        forall|x: i32, y: i32| #[trigger] cur_edge(a2, g, x, y) <==> cur_edge(a1, g, x, y),
        forall|p: i32| #[trigger] is_alive(ms2, g, p) <==> is_alive(ms1, g, p),
    ensures
        is_ring(r, a2, ms2, g),
{
    let n = r.len() as int;
    assert forall|k: int| 0 <= k < r.len() implies cur_edge(
        a2,
        g,
        #[trigger] r[k],
        r[ring_next_idx(n, k)],
    ) by {
        assert(cur_edge(a1, g, r[k], r[ring_next_idx(n, k)]));
    }
    assert forall|i: int| #[trigger] cur_row_of_game(a2, g, i) implies exists|k: int|
        0 <= k < r.len() && a2[i].assassin == r[k] && a2[i].target == r[ring_next_idx(n, k)] by {
        let x = a2[i].assassin;
        let y = a2[i].target;
        assert(cur_at(a2, g, x, y, i));
        assert(cur_edge(a2, g, x, y));
        assert(cur_edge(a1, g, x, y));
        let j = choose|j: int| cur_at(a1, g, x, y, j);
        assert(cur_row_of_game(a1, g, j));
        let k = choose|k: int|
            0 <= k < r.len() && a1[j].assassin == r[k] && a1[j].target == r[ring_next_idx(n, k)];
        assert(0 <= k < r.len() && a2[i].assassin == r[k] && a2[i].target == r[ring_next_idx(n, k)]);
    }
}

/// Closing the CURRENT out-edges of two adjacent players and opening the
/// bridging edge rewires the game's edge set exactly: the new pair appears,
/// both closed assassins' edges disappear, everything else survives, and no
/// other game is touched.
pub proof fn lemma_edges_rewire(
    a1: Seq<Assignment>,
    ia: int,
    iv: int,
    row_a: Assignment,
    row_v: Assignment,
    row_n: Assignment,
    g: i32,
)
    requires
        0 <= ia < a1.len(),
        0 <= iv < a1.len(),
        ia != iv,
        a1[ia].game == g,
        a1[ia].status == TargetStatus::CURRENT,
        a1[iv].game == g,
        a1[iv].status == TargetStatus::CURRENT,
        row_a.game == g,
        row_a.status != TargetStatus::CURRENT,
        row_v.game == g,
        row_v.status != TargetStatus::CURRENT,
        row_n.game == g,
        row_n.status == TargetStatus::CURRENT,
        row_n.assassin == a1[ia].assassin,
        row_n.target == a1[iv].target,
        cur_edges_unique(a1),
    ensures
        forall|x: i32, y: i32| #[trigger] cur_edge(
            a1.update(ia, row_a).update(iv, row_v).push(row_n),
            g,
            x,
            y,
        ) <==> ((x == a1[ia].assassin && y == a1[iv].target) || (cur_edge(a1, g, x, y) && x
            != a1[ia].assassin && x != a1[iv].assassin)),
        forall|g2: i32, x: i32, y: i32|
            g2 != g ==> (#[trigger] cur_edge(
                a1.update(ia, row_a).update(iv, row_v).push(row_n),
                g2,
                x,
                y,
            ) <==> cur_edge(a1, g2, x, y)),
        cur_edges_unique(a1.update(ia, row_a).update(iv, row_v).push(row_n)),
{
    let a2 = a1.update(ia, row_a).update(iv, row_v).push(row_n);
    let aa = a1[ia].assassin;
    let va = a1[iv].assassin;
    let tt = a1[iv].target;
    assert(a2.len() == a1.len() + 1);
    assert(forall|j: int| 0 <= j < a1.len() && j != ia && j != iv ==> a2[j] == a1[j]);
    assert(a2[ia] == row_a);
    assert(a2[iv] == row_v);
    assert(a2[a1.len() as int] == row_n);
    assert forall|x: i32, y: i32| #[trigger] cur_edge(a2, g, x, y) implies ((x == aa && y == tt) || (
    cur_edge(a1, g, x, y) && x != aa && x != va)) by {
        let j = choose|j: int| cur_at(a2, g, x, y, j);
        if j == a1.len() as int {
            assert(x == aa && y == tt);
        } else {
            assert(j != ia && j != iv);
            assert(cur_at(a1, g, x, y, j));
            // uniqueness: a different current row cannot share an assassin
            if x == aa {
                assert(a1[j].game == a1[ia].game);
                assert(a1[j].assassin == a1[ia].assassin);
                assert(false);
            }
            if x == va {
                assert(false);
            }
        }
    }
    assert forall|x: i32, y: i32| ((x == aa && y == tt) || (cur_edge(a1, g, x, y) && x != aa && x
        != va)) implies #[trigger] cur_edge(a2, g, x, y) by {
        if x == aa && y == tt {
            assert(cur_at(a2, g, x, y, a1.len() as int));
        } else {
            let j = choose|j: int| cur_at(a1, g, x, y, j);
            assert(j != ia && j != iv);
            assert(cur_at(a2, g, x, y, j));
        }
    }
    assert forall|g2: i32, x: i32, y: i32| g2 != g implies (#[trigger] cur_edge(a2, g2, x, y)
        <==> cur_edge(a1, g2, x, y)) by {
        if cur_edge(a2, g2, x, y) {
            let j = choose|j: int| cur_at(a2, g2, x, y, j);
            assert(j != ia && j != iv && j != a1.len() as int);
            assert(cur_at(a1, g2, x, y, j));
        }
        if cur_edge(a1, g2, x, y) {
            let j = choose|j: int| cur_at(a1, g2, x, y, j);
            assert(j != ia && j != iv);
            assert(cur_at(a2, g2, x, y, j));
        }
    }
    assert forall|i: int, j: int|
        0 <= i < j < a2.len() && #[trigger] a2[i].game == #[trigger] a2[j].game && a2[i].status
            == TargetStatus::CURRENT && a2[j].status == TargetStatus::CURRENT implies a2[i].assassin
        != a2[j].assassin && a2[i].target != a2[j].target by {
        if j == a1.len() as int {
            assert(i != ia && i != iv);
            assert(a2[i] == a1[i]);
            assert(a1[i].game == g && a1[i].status == TargetStatus::CURRENT);
            // against the closed out-edge of the bridging assassin
            assert(a1[i].assassin != a1[ia].assassin);
            // against the closed out-edge of the removed player
            assert(a1[i].target != a1[iv].target);
        } else {
            assert(i != ia && i != iv && j != ia && j != iv);
            assert(a2[i] == a1[i] && a2[j] == a1[j]);
        }
    }
}

/// Closing the only two CURRENT rows of a game leaves it without CURRENT
/// edges; no other game is touched.
pub proof fn lemma_edges_close_pair(
    a1: Seq<Assignment>,
    ia: int,
    iv: int,
    row_a: Assignment,
    row_v: Assignment,
    g: i32,
)
    requires
        0 <= ia < a1.len(),
        0 <= iv < a1.len(),
        ia != iv,
        a1[ia].game == g,
        a1[iv].game == g,
        row_a.game == g,
        row_a.status != TargetStatus::CURRENT,
        row_v.game == g,
        row_v.status != TargetStatus::CURRENT,
        forall|i: int| #[trigger] cur_row_of_game(a1, g, i) ==> i == ia || i == iv,
        cur_edges_unique(a1),
    ensures
        no_cur_edges(a1.update(ia, row_a).update(iv, row_v), g),
        forall|g2: i32, x: i32, y: i32|
            g2 != g ==> (#[trigger] cur_edge(a1.update(ia, row_a).update(iv, row_v), g2, x, y)
                <==> cur_edge(a1, g2, x, y)),
        cur_edges_unique(a1.update(ia, row_a).update(iv, row_v)),
{
    let a2 = a1.update(ia, row_a).update(iv, row_v);
    assert(forall|j: int| 0 <= j < a1.len() && j != ia && j != iv ==> a2[j] == a1[j]);
    assert forall|i: int| !(#[trigger] cur_row_of_game(a2, g, i)) by {
        if cur_row_of_game(a2, g, i) {
            assert(i != ia && i != iv);
            assert(cur_row_of_game(a1, g, i));
            assert(false);
        }
    }
    assert forall|g2: i32, x: i32, y: i32| g2 != g implies (#[trigger] cur_edge(a2, g2, x, y)
        <==> cur_edge(a1, g2, x, y)) by {
        if cur_edge(a2, g2, x, y) {
            let j = choose|j: int| cur_at(a2, g2, x, y, j);
            assert(j != ia && j != iv);
            assert(cur_at(a1, g2, x, y, j));
        }
        if cur_edge(a1, g2, x, y) {
            let j = choose|j: int| cur_at(a1, g2, x, y, j);
            assert(j != ia && j != iv);
            assert(cur_at(a2, g2, x, y, j));
        }
    }
    assert forall|i: int, j: int|
        0 <= i < j < a2.len() && #[trigger] a2[i].game == #[trigger] a2[j].game && a2[i].status
            == TargetStatus::CURRENT && a2[j].status == TargetStatus::CURRENT implies a2[i].assassin
        != a2[j].assassin && a2[i].target != a2[j].target by {
        assert(i != ia && i != iv && j != ia && j != iv);
        assert(a2[i] == a1[i] && a2[j] == a1[j]);
    }
}

/// Updating one membership row changes aliveness only for that row's
/// (game, player) pair, where it is decided by the new row's status.
pub proof fn lemma_alive_update(ms: Seq<PlayerGame>, i: int, row: PlayerGame)
    requires
        0 <= i < ms.len(),
        row.game == ms[i].game,
        row.player == ms[i].player,
        member_rows_unique(ms),
    ensures
        forall|g: i32, p: i32|
            !(g == ms[i].game && p == ms[i].player) ==> (#[trigger] is_alive(ms.update(i, row), g, p)
                <==> is_alive(ms, g, p)),
        is_alive(ms.update(i, row), ms[i].game, ms[i].player) <==> row.status
            == PlayerStatus::ALIVE,
        member_rows_unique(ms.update(i, row)),
{
    let ms2 = ms.update(i, row);
    assert(forall|j: int| 0 <= j < ms.len() && j != i ==> ms2[j] == ms[j]);
    assert forall|g: i32, p: i32| !(g == ms[i].game && p == ms[i].player) implies (
    #[trigger] is_alive(ms2, g, p) <==> is_alive(ms, g, p)) by {
        if is_alive(ms2, g, p) {
            let j = choose|j: int| is_alive_row(ms2, g, p, j);
            assert(j != i);
            assert(is_alive_row(ms, g, p, j));
        }
        if is_alive(ms, g, p) {
            let j = choose|j: int| is_alive_row(ms, g, p, j);
            assert(j != i);
            assert(is_alive_row(ms2, g, p, j));
        }
    }
    if row.status == PlayerStatus::ALIVE {
        assert(is_alive_row(ms2, ms[i].game, ms[i].player, i));
    } else {
        if is_alive(ms2, ms[i].game, ms[i].player) {
            let j = choose|j: int| is_alive_row(ms2, ms[i].game, ms[i].player, j);
            assert(j != i);
            assert(ms[j].game == ms[i].game && ms[j].player == ms[i].player);
            assert(false);
        }
    }
}

/// Appending a membership row adds aliveness exactly for its own pair (when
/// ALIVE) and leaves every other pair as it was.
pub proof fn lemma_alive_push(ms: Seq<PlayerGame>, row: PlayerGame)
    ensures
        forall|g: i32, p: i32| #[trigger] is_alive(ms.push(row), g, p) <==> (is_alive(ms, g, p) || (
        row.game == g && row.player == p && row.status == PlayerStatus::ALIVE)),
{
    let ms2 = ms.push(row);
    assert(forall|j: int| 0 <= j < ms.len() ==> ms2[j] == ms[j]);
    assert(ms2[ms.len() as int] == row);
    assert forall|g: i32, p: i32| #[trigger] is_alive(ms2, g, p) implies (is_alive(ms, g, p) || (
    row.game == g && row.player == p && row.status == PlayerStatus::ALIVE)) by {
        let j = choose|j: int| is_alive_row(ms2, g, p, j);
        if j < ms.len() {
            assert(is_alive_row(ms, g, p, j));
        }
    }
    assert forall|g: i32, p: i32| (is_alive(ms, g, p) || (row.game == g && row.player == p
        && row.status == PlayerStatus::ALIVE)) implies #[trigger] is_alive(ms2, g, p) by {
        if is_alive(ms, g, p) {
            let j = choose|j: int| is_alive_row(ms, g, p, j);
            assert(is_alive_row(ms2, g, p, j));
        } else {
            assert(is_alive_row(ms2, g, p, ms.len() as int));
        }
    }
}

/// In a ring, a player's CURRENT incoming row comes from the cycle
/// predecessor and the outgoing row points at the cycle successor; the two
/// rows are distinct, and predecessor and successor coincide exactly in a
/// two-player ring.
pub proof fn lemma_ring_neighbors(
    r: Seq<i32>,
    asg: Seq<Assignment>,
    ms: Seq<PlayerGame>,
    g: i32,
    x: i32,
    kx: int,
    ii: int,
    il: int,
)
    requires
        is_ring(r, asg, ms, g),
        0 <= kx < r.len(),
        r[kx] == x,
        cur_in_at(asg, g, x, ii),
        cur_out_at(asg, g, x, il),
    ensures
        asg[ii].assassin == r[ring_prev_idx(r.len() as int, kx)],
        asg[il].target == r[ring_next_idx(r.len() as int, kx)],
        ii != il,
        (asg[ii].assassin == asg[il].target) <==> r.len() == 2,
{
    let n = r.len() as int;
    // the outgoing row: its assassin x sits at kx, so its target is the
    // successor
    assert(cur_row_of_game(asg, g, il));
    let k3 = choose|k: int|
        0 <= k < r.len() && asg[il].assassin == r[k] && asg[il].target == r[ring_next_idx(n, k)];
    if k3 != kx {
        if k3 < kx {
            assert(r[k3] != r[kx]);
        } else {
            assert(r[kx] != r[k3]);
        }
        assert(false);
    }
    assert(asg[il].target == r[ring_next_idx(n, kx)]);
    // the incoming row: its target x sits at kx, so its assassin is the
    // predecessor
    assert(cur_row_of_game(asg, g, ii));
    let k2 = choose|k: int|
        0 <= k < r.len() && asg[ii].assassin == r[k] && asg[ii].target == r[ring_next_idx(n, k)];
    assert(r[ring_next_idx(n, k2)] == r[kx]);
    if ring_next_idx(n, k2) != kx {
        if ring_next_idx(n, k2) < kx {
            assert(r[ring_next_idx(n, k2)] != r[kx]);
        } else {
            assert(r[kx] != r[ring_next_idx(n, k2)]);
        }
        assert(false);
    }
    assert(k2 == ring_prev_idx(n, kx));
    assert(asg[ii].assassin == r[ring_prev_idx(n, kx)]);
    // the two rows differ: the outgoing row's target is not x
    let ks = ring_next_idx(n, kx);
    assert(ks != kx);
    if ks < kx {
        assert(r[ks] != r[kx]);
    } else {
        assert(r[kx] != r[ks]);
    }
    assert(asg[il].target != x);
    assert(asg[ii].target == x);
    // predecessor equals successor exactly in a two-ring
    let kp = ring_prev_idx(n, kx);
    if n == 2 {
        assert(kp == ks);
    } else {
        assert(kp != ks);
        if kp < ks {
            assert(r[kp] != r[ks]);
        } else {
            assert(r[ks] != r[kp]);
        }
    }
}

// ---------------------------------------------------------------------------
// Removing a vertex from a ring
// ---------------------------------------------------------------------------

/// Index arithmetic of removing position `kv` from a cycle of length `n`:
/// position `k` (not `kv`) lands on `new_idx`, and its cycle successor in
/// the shorter ring is the old successor, skipping `kv`.
pub open spec fn removed_idx(kv: int, k: int) -> int {
    if k < kv {
        k
    } else {
        k - 1
    }
}

proof fn lemma_remove_next(n: int, kv: int, k: int)
    requires
        3 <= n,
        0 <= kv < n,
        0 <= k < n,
        k != kv,
    ensures
        ({
            let kp = ring_prev_idx(n, kv);
            let s = if k == kp {
                ring_next_idx(n, kv)
            } else {
                ring_next_idx(n, k)
            };
            &&& s != kv
            &&& 0 <= s < n
            &&& 0 <= removed_idx(kv, k) < n - 1
            &&& ring_next_idx(n - 1, removed_idx(kv, k)) == removed_idx(kv, s)
        }),
{
}

/// After a repair that bridges the removed vertex's predecessor to its
/// successor — and removes the vertex from the alive set — the witness with
/// the vertex cut out is again a valid ring.
#[verifier::rlimit(100)]
pub proof fn lemma_ring_remove(
    r: Seq<i32>,
    kv: int,
    a1: Seq<Assignment>,
    ms1: Seq<PlayerGame>,
    a2: Seq<Assignment>,
    ms2: Seq<PlayerGame>,
    g: i32,
)
    requires
        is_ring(r, a1, ms1, g),
        r.len() >= 3,
        0 <= kv < r.len(),
        forall|x: i32, y: i32| #[trigger] cur_edge(a2, g, x, y) <==> ((x == r[ring_prev_idx(
            r.len() as int,
            kv,
        )] && y == r[ring_next_idx(r.len() as int, kv)]) || (cur_edge(a1, g, x, y) && x
            != r[ring_prev_idx(r.len() as int, kv)] && x != r[kv])),
        forall|p: i32| #[trigger] is_alive(ms2, g, p) <==> (is_alive(ms1, g, p) && p != r[kv]),
    ensures
        is_ring(r.remove(kv), a2, ms2, g),
{
    let n = r.len() as int;
    let r2 = r.remove(kv);
    let kp = ring_prev_idx(n, kv);
    let aa = r[kp];
    let vv = r[kv];
    let tt = r[ring_next_idx(n, kv)];
    r.remove_ensures(kv);
    assert(r2.len() == n - 1);
    // mapping between old and new indices
    assert(forall|k: int| 0 <= k < n && k != kv ==> r2[removed_idx(kv, k)] == r[k]);
    // distinctness
    assert forall|i: int, j: int| 0 <= i < j < r2.len() implies #[trigger] r2[i] != #[trigger] r2[j] by {
        let oi = if i < kv { i } else { i + 1 };
        let oj = if j < kv { j } else { j + 1 };
        assert(r2[i] == r[oi]);
        assert(r2[j] == r[oj]);
        assert(oi < oj);
    }
    // members
    assert forall|p: i32| #[trigger] r2.contains(p) implies is_alive(ms2, g, p) by {
        let m = choose|m: int| 0 <= m < r2.len() && r2[m] == p;
        let k = if m < kv { m } else { m + 1 };
        assert(r[k] == p);
        assert(r.contains(p));
        assert(k != kv);
        assert(p != vv);
        assert(is_alive(ms1, g, p));
    }
    assert forall|p: i32| is_alive(ms2, g, p) implies #[trigger] r2.contains(p) by {
        assert(is_alive(ms1, g, p) && p != vv);
        assert(r.contains(p));
        let k = choose|k: int| 0 <= k < r.len() && r[k] == p;
        assert(k != kv);
        assert(r2[removed_idx(kv, k)] == p);
    }
    // links
    assert forall|m: int| 0 <= m < r2.len() implies cur_edge(
        a2,
        g,
        #[trigger] r2[m],
        r2[ring_next_idx(n - 1, m)],
    ) by {
        let k = if m < kv { m } else { m + 1 };
        assert(0 <= k < n && k != kv);
        assert(removed_idx(kv, k) == m);
        assert(r2[m] == r[k]);
        lemma_remove_next(n, kv, k);
        let s = if k == kp {
            ring_next_idx(n, kv)
        } else {
            ring_next_idx(n, k)
        };
        assert(r2[ring_next_idx(n - 1, m)] == r[s]);
        if k == kp {
            assert(cur_edge(a2, g, aa, tt));
            assert(r[s] == tt);
        } else {
            assert(cur_edge(a1, g, r[k], r[ring_next_idx(n, k)]));
            // r[k] is neither the bridging assassin nor the removed vertex
            assert(r[k] != r[kp]);
            assert(r[k] != r[kv]);
            assert(cur_edge(a2, g, r[k], r[s]));
        }
    }
    // covers
    assert forall|i: int| #[trigger] cur_row_of_game(a2, g, i) implies exists|m: int|
        0 <= m < r2.len() && a2[i].assassin == #[trigger] r2[m] && a2[i].target == r2[ring_next_idx(
            n - 1,
            m,
        )] by {
        let x = a2[i].assassin;
        let y = a2[i].target;
        assert(cur_at(a2, g, x, y, i));
        assert(cur_edge(a2, g, x, y));
        if x == aa && y == tt {
            let m = removed_idx(kv, kp);
            lemma_remove_next(n, kv, kp);
            assert(r2[m] == aa);
            assert(r2[ring_next_idx(n - 1, m)] == r[ring_next_idx(n, kv)]);
            assert(0 <= m < r2.len() && a2[i].assassin == r2[m] && a2[i].target == r2[ring_next_idx(
                n - 1,
                m,
            )]);
        } else {
            assert(cur_edge(a1, g, x, y) && x != aa && x != vv);
            let j = choose|j: int| cur_at(a1, g, x, y, j);
            assert(cur_row_of_game(a1, g, j));
            let k = choose|k: int|
                0 <= k < r.len() && a1[j].assassin == r[k] && a1[j].target == r[ring_next_idx(n, k)];
            assert(r[k] == x);
            assert(k != kv);
            assert(k != kp);
            let m = removed_idx(kv, k);
            lemma_remove_next(n, kv, k);
            assert(r2[m] == r[k]);
            assert(r2[ring_next_idx(n - 1, m)] == r[ring_next_idx(n, k)]);
            assert(0 <= m < r2.len() && a2[i].assassin == r2[m] && a2[i].target == r2[ring_next_idx(
                n - 1,
                m,
            )]);
        }
    }
}

} // verus!
