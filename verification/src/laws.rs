//! The library's standing laws: conservation and uniqueness of items,
//! pack-queue accounting, the snake direction, fingerprint separation,
//! idempotence of deadline enforcement, and determinism of pack chunking.

use vstd::prelude::*;
use vstd::multiset::Multiset;

use crate::draft_engine::DraftItemId;
use crate::draft_engine::DraftModel;
use crate::draft_engine::PackId;
use crate::draft_engine::PackModel;
use crate::draft_engine::PlayerModel;
use crate::draft_engine::lemma_pack_position_props;
use crate::draft_engine::lemma_players_bag_two;
use crate::draft_engine::pack_position;
use crate::draft_engine::players_bag;
use crate::draft_engine::lemma_victims_step;
use crate::draft_engine::lemma_victims_from_ready;
use crate::draft_engine::spec_apply_picks;
use crate::draft_engine::spec_chunked_packs;
use crate::draft_engine::spec_enforce;
use crate::draft_engine::spec_victims_from;
use crate::draft_engine::victims_ready;
use crate::draft_engine::state_bag;

verus! {

broadcast use vstd::multiset::group_multiset_axioms;

/// The pack ids queued in front of all players, counted as a multiset.
pub open spec fn pending_bag(players: Seq<PlayerModel>) -> Multiset<PackId>
    decreases players.len(),
{
    if players.len() == 0 {
        Multiset::empty()
    } else {
        players[0].pending.to_multiset().add(pending_bag(players.drop_first()))
    }
}

/// The ids of the still-filled packs of a group, counted as a multiset.
pub open spec fn open_pack_bag(packs: Seq<PackModel>) -> Multiset<PackId>
    decreases packs.len(),
{
    if packs.len() == 0 {
        Multiset::empty()
    } else {
        let rest = open_pack_bag(packs.drop_first());
        if packs[0].items.len() > 0 {
            rest.insert(packs[0].id)
        } else {
            rest
        }
    }
}

/// The queued-pack bag counts at least one of anything some queue holds.
proof fn lemma_pending_bag_member(players: Seq<PlayerModel>, i: int, j: int)
    requires
        0 <= i < players.len(),
        0 <= j < players[i].pending.len(),
    ensures
        pending_bag(players).count(players[i].pending[j]) >= 1,
    decreases i,
{
    broadcast use vstd::seq_lib::group_to_multiset_ensures;

    if i == 0 {
        assert(players[0].pending.contains(players[0].pending[j]));
    } else {
        lemma_pending_bag_member(players.drop_first(), i - 1, j);
    }
}

/// Two distinct queue slots holding one pack id put its count at two.
proof fn lemma_pending_bag_two(
    players: Seq<PlayerModel>,
    i1: int,
    j1: int,
    i2: int,
    j2: int,
    e: PackId,
)
    requires
        0 <= i1 < players.len(),
        0 <= j1 < players[i1].pending.len(),
        0 <= i2 < players.len(),
        0 <= j2 < players[i2].pending.len(),
        i1 < i2 || (i1 == i2 && j1 < j2),
        players[i1].pending[j1] == e,
        players[i2].pending[j2] == e,
    ensures
        pending_bag(players).count(e) >= 2,
    decreases i1,
{
    broadcast use vstd::seq_lib::group_to_multiset_ensures;

    if i1 == 0 {
        if i2 == 0 {
            let p = players[0].pending;
            assert(p.to_multiset().count(e) >= 2) by {
                assert(p.remove(j1).to_multiset() =~= p.to_multiset().remove(p[j1]));
                assert(p.remove(j1)[j2 - 1] == e);
                assert(p.remove(j1).contains(e));
                assert(p.remove(j1).to_multiset().count(e) >= 1);
            }
        } else {
            assert(players[0].pending.contains(e));
            lemma_pending_bag_member(players.drop_first(), i2 - 1, j2);
        }
    } else {
        lemma_pending_bag_two(players.drop_first(), i1 - 1, j1, i2 - 1, j2, e);
    }
}

/// Nothing a queue does not hold is counted.
proof fn lemma_pending_bag_absent(players: Seq<PlayerModel>, e: PackId)
    requires
        forall|i: int, j: int|
            0 <= i < players.len() && 0 <= j < players[i].pending.len()
                ==> #[trigger] players[i].pending[j] != e,
    ensures
        pending_bag(players).count(e) == 0,
    decreases players.len(),
{
    broadcast use vstd::seq_lib::group_to_multiset_ensures;

    if players.len() > 0 {
        assert(!players[0].pending.contains(e)) by {
            if players[0].pending.contains(e) {
                let j = choose|j: int|
                    0 <= j < players[0].pending.len() && players[0].pending[j] == e;
                assert(players[0].pending[j] != e);
            }
        }
        assert(players[0].pending.to_multiset().count(e) == 0);
        assert forall|i: int, j: int|
            0 <= i < players.drop_first().len() && 0 <= j
                < players.drop_first()[i].pending.len() implies #[trigger] players.drop_first()[i].pending[j]
            != e by {
            assert(players.drop_first()[i] == players[i + 1]);
        }
        lemma_pending_bag_absent(players.drop_first(), e);
    }
}

/// An id is counted in the open-pack bag once per still-filled pack carrying
/// it, and never otherwise.
proof fn lemma_open_pack_bag_count(packs: Seq<PackModel>, e: PackId)
    requires
        forall|a: int, b: int|
            0 <= a < packs.len() && 0 <= b < packs.len() && a != b ==> (#[trigger] packs[a]).id
                != (#[trigger] packs[b]).id,
    ensures
        (exists|k: int|
            0 <= k < packs.len() && (#[trigger] packs[k]).id == e && packs[k].items.len() > 0)
            ==> open_pack_bag(packs).count(e) == 1,
        !(exists|k: int|
            0 <= k < packs.len() && (#[trigger] packs[k]).id == e && packs[k].items.len() > 0)
            ==> open_pack_bag(packs).count(e) == 0,
    decreases packs.len(),
{
    if packs.len() > 0 {
        let rest = packs.drop_first();
        assert forall|a: int, b: int|
            0 <= a < rest.len() && 0 <= b < rest.len() && a != b implies (#[trigger] rest[a]).id
            != (#[trigger] rest[b]).id by {
            assert(rest[a] == packs[a + 1]);
            assert(rest[b] == packs[b + 1]);
        }
        lemma_open_pack_bag_count(rest, e);
        if exists|k: int|
            0 <= k < packs.len() && (#[trigger] packs[k]).id == e && packs[k].items.len() > 0 {
            let k = choose|k: int|
                0 <= k < packs.len() && (#[trigger] packs[k]).id == e && packs[k].items.len() > 0;
            if k == 0 {
                assert(!(exists|kk: int|
                    0 <= kk < rest.len() && (#[trigger] rest[kk]).id == e && rest[kk].items.len()
                        > 0)) by {
                    if exists|kk: int|
                        0 <= kk < rest.len() && (#[trigger] rest[kk]).id == e
                            && rest[kk].items.len() > 0 {
                        let kk = choose|kk: int|
                            0 <= kk < rest.len() && (#[trigger] rest[kk]).id == e
                                && rest[kk].items.len() > 0;
                        assert(packs[kk + 1].id == packs[0].id);
                    }
                }
            } else {
                assert(rest[k - 1].id == e && rest[k - 1].items.len() > 0);
                if packs[0].items.len() > 0 {
                    assert(packs[0].id != e);
                }
            }
        } else {
            assert forall|kk: int|
                0 <= kk < rest.len() implies !((#[trigger] rest[kk]).id == e && rest[kk].items.len()
                > 0) by {
                assert(rest[kk] == packs[kk + 1]);
            }
            if packs[0].items.len() > 0 {
                assert(packs[0].id != e);
            }
        }
    }
}

/// The queues hold exactly the still-filled packs of the current round, one
/// slot each; in particular the queue lengths add up to the number of packs
/// that still hold items.
pub proof fn lemma_pending_matches_open_packs(d: DraftModel)
    requires
        d.wf(),
    ensures
        pending_bag(d.players) =~= open_pack_bag(d.current_packs()),
{
    let cur = d.current_packs();
    assert forall|a: int, b: int|
        0 <= a < cur.len() && 0 <= b < cur.len() && a != b implies (#[trigger] cur[a]).id
        != (#[trigger] cur[b]).id by {
        assert(d.packs_by_round[d.current_round][a].id != d.packs_by_round[d.current_round][b].id);
    }
    assert forall|e: PackId| #[trigger]
        pending_bag(d.players).count(e) == open_pack_bag(cur).count(e) by {
        lemma_open_pack_bag_count(cur, e);
        if exists|i: int, j: int|
            0 <= i < d.players.len() && 0 <= j < d.players[i].pending.len()
                && #[trigger] d.players[i].pending[j] == e {
            let (i, j) = choose|i: int, j: int|
                0 <= i < d.players.len() && 0 <= j < d.players[i].pending.len()
                    && #[trigger] d.players[i].pending[j] == e;
            assert forall|i2: int, j2: int|
                0 <= i2 < d.players.len() && 0 <= j2 < d.players[i2].pending.len() && (i2 != i
                    || j2 != j) implies #[trigger] d.players[i2].pending[j2] != e by {
                assert(d.players[i2].pending[j2] != d.players[i].pending[j]);
            }
            lemma_pending_bag_only_slot(d.players, e, i, j);
            let k = pack_position(cur, e);
            assert(0 <= k < cur.len() && cur[k].items.len() > 0);
            lemma_pack_position_props(cur, e);
            assert(cur[k].id == e);
            assert(open_pack_bag(cur).count(e) == 1);
        } else {
            assert forall|i: int, j: int|
                0 <= i < d.players.len() && 0 <= j
                    < d.players[i].pending.len() implies #[trigger] d.players[i].pending[j]
                != e by {}
            lemma_pending_bag_absent(d.players, e);
            assert(open_pack_bag(cur).count(e) == 0) by {
                if exists|k: int|
                    0 <= k < cur.len() && (#[trigger] cur[k]).id == e && cur[k].items.len() > 0 {
                    let k = choose|k: int|
                        0 <= k < cur.len() && (#[trigger] cur[k]).id == e && cur[k].items.len()
                            > 0;
                    let (i, j) = choose|i: int, j: int|
                        0 <= i < d.players.len() && 0 <= j < d.players[i].pending.len()
                            && #[trigger] d.players[i].pending[j] == cur[k].id;
                    assert(d.players[i].pending[j] == e);
                }
            }
        }
    }
}

/// Counting: if exactly one slot across all queues holds `e`, its count is 1.
proof fn lemma_pending_bag_only_slot(players: Seq<PlayerModel>, e: PackId, i: int, j: int)
    requires
        0 <= i < players.len(),
        0 <= j < players[i].pending.len(),
        players[i].pending[j] == e,
        forall|i2: int, j2: int|
            0 <= i2 < players.len() && 0 <= j2 < players[i2].pending.len() && (i2 != i || j2 != j)
                ==> #[trigger] players[i2].pending[j2] != e,
    ensures
        pending_bag(players).count(e) == 1,
    decreases players.len(),
{
    broadcast use vstd::seq_lib::group_to_multiset_ensures;

    let rest = players.drop_first();
    if i == 0 {
        let p = players[0].pending;
        assert(p.to_multiset().count(e) == 1) by {
            assert(p.contains(e));
            assert(p.to_multiset().count(e) >= 1);
            assert(p.remove(j).to_multiset() =~= p.to_multiset().remove(e));
            assert(!p.remove(j).contains(e)) by {
                if p.remove(j).contains(e) {
                    let q = choose|q: int| 0 <= q < p.remove(j).len() && p.remove(j)[q] == e;
                    if q < j {
                        assert(players[0].pending[q] == e);
                    } else {
                        assert(players[0].pending[q + 1] == e);
                    }
                }
            }
            assert(p.remove(j).to_multiset().count(e) == 0);
        }
        assert forall|i2: int, j2: int|
            0 <= i2 < rest.len() && 0 <= j2 < rest[i2].pending.len() implies
            #[trigger] rest[i2].pending[j2] != e by {
            assert(rest[i2] == players[i2 + 1]);
        }
        lemma_pending_bag_absent(rest, e);
    } else {
        assert(!players[0].pending.contains(e)) by {
            if players[0].pending.contains(e) {
                let q = choose|q: int|
                    0 <= q < players[0].pending.len() && players[0].pending[q] == e;
                assert(players[0].pending[q] != e);
            }
        }
        assert(players[0].pending.to_multiset().count(e) == 0);
        assert forall|i2: int, j2: int|
            0 <= i2 < rest.len() && 0 <= j2 < rest[i2].pending.len() && (i2 != i - 1 || j2
                != j) implies #[trigger] rest[i2].pending[j2] != e by {
            assert(rest[i2] == players[i2 + 1]);
        }
        assert(rest[i - 1] == players[i]);
        lemma_pending_bag_only_slot(rest, e, i - 1, j);
    }
}

/// No item id ever sits in two players' allocations.
pub proof fn lemma_no_double_allocation(d: DraftModel, i: int, j: int, item: DraftItemId)
    requires
        d.wf(),
        0 <= i < d.players.len(),
        0 <= j < d.players.len(),
        i != j,
        d.players[i].allocated.contains(item),
    ensures
        !d.players[j].allocated.contains(item),
{
    if d.players[j].allocated.contains(item) {
        if i < j {
            lemma_players_bag_two(d.players, i, j, item);
        } else {
            lemma_players_bag_two(d.players, j, i, item);
        }
        assert(state_bag(d).count(item) >= players_bag(d.players).count(item));
        assert(state_bag(d).count(item) <= 1);
    }
}

/// Packs pass one seat forward in even rounds and one seat backward in odd
/// rounds, starting forward in round zero.
pub proof fn lemma_snake_direction(d: DraftModel, i: int)
    requires
        d.wf(),
        0 <= i < d.num_players(),
    ensures
        d.direction <==> d.current_round % 2 == 0,
        d.direction ==> d.next_idx(i) == (i + 1) % d.num_players(),
        !d.direction ==> d.next_idx(i) == (i + d.num_players() - 1) % d.num_players(),
{
}

/// Distinct visible situations give distinct fingerprints, as long as each
/// field stays in its lane: the allocated count below 1024, the pending flag
/// a bit, the player count below 1024.
pub proof fn lemma_fingerprint_separates(
    alloc1: int,
    pend1: bool,
    np1: int,
    alloc2: int,
    pend2: bool,
    np2: int,
)
    requires
        0 <= alloc1 < 1024,
        0 <= alloc2 < 1024,
        0 <= np1 < 1024,
        0 <= np2 < 1024,
        alloc1 != alloc2 || pend1 != pend2 || np1 != np2,
    ensures
        alloc1 + (if pend1 { 1024int } else { 0int }) + 1048576 * np1
            != alloc2 + (if pend2 { 1024int } else { 0int }) + 1048576 * np2,
{
}

/// Chunking the same shuffled list with the same shape always yields the
/// same packs: pack generation is deterministic in its input.
pub proof fn lemma_pack_generation_deterministic(
    shuffled: Seq<DraftItemId>,
    num_packs: int,
    pack_size: int,
    packs1: Seq<Seq<DraftItemId>>,
    packs2: Seq<Seq<DraftItemId>>,
)
    requires
        packs1 == spec_chunked_packs(shuffled, num_packs, pack_size),
        packs2 == spec_chunked_packs(shuffled, num_packs, pack_size),
    ensures
        packs1 == packs2,
{
}

/// Forced picks only grow allocations: every seat keeps at least what it had,
/// and every listed victim gains at least one item.
proof fn lemma_apply_picks_allocs(d: DraftModel, vs: Seq<(crate::draft_engine::PlayerId, DraftItemId)>)
    requires
        d.wf(),
        victims_ready(d, vs),
    ensures
        spec_apply_picks(d, vs).wf(),
        spec_apply_picks(d, vs).turn_order == d.turn_order,
        spec_apply_picks(d, vs).current_round == d.current_round,
        spec_apply_picks(d, vs).players.len() == d.players.len(),
        forall|q: int|
            0 <= q < d.players.len() ==> (#[trigger] spec_apply_picks(d, vs).players[q]).allocated.len()
                >= d.players[q].allocated.len(),
        forall|l: int|
            0 <= l < vs.len() ==> spec_apply_picks(d, vs).players[d.player_idx(
                (#[trigger] vs[l]).0,
            )].allocated.len() >= d.players[d.player_idx(vs[l].0)].allocated.len() + 1,
    decreases vs.len(),
{
    if vs.len() > 0 {
        lemma_victims_step(d, vs);
        let pid = vs[0].0;
        let item = vs[0].1;
        let d1 = d.spec_pick(pid, item);
        lemma_apply_picks_allocs(d1, vs.drop_first());
        let i0 = d.player_idx(pid);
        d.turn_order.index_of_first_ensures(pid);
        assert(0 <= i0 < d.players.len());
        assert(d1.players[i0].allocated == d.players[i0].allocated.push(item));
        assert forall|q: int|
            0 <= q < d.players.len() && q != i0 implies (#[trigger] d1.players[q]).allocated
            == d.players[q].allocated by {}
        assert(spec_apply_picks(d, vs) == spec_apply_picks(d1, vs.drop_first()));
        assert forall|l: int|
            0 <= l < vs.len() implies spec_apply_picks(d, vs).players[d.player_idx(
            (#[trigger] vs[l]).0,
        )].allocated.len() >= d.players[d.player_idx(vs[l].0)].allocated.len() + 1 by {
            if l == 0 {
                assert(spec_apply_picks(d, vs).players[i0].allocated.len()
                    >= d1.players[i0].allocated.len());
            } else {
                let p = vs[l].0;
                assert(vs.drop_first()[l - 1] == vs[l]);
                assert(p != pid);
                let q = d.player_idx(p);
                d.turn_order.index_of_first_ensures(p);
                assert(d1.player_idx(p) == q);
                assert(q != i0);
                assert(spec_apply_picks(d1, vs.drop_first()).players[q].allocated.len()
                    >= d1.players[q].allocated.len() + 1);
            }
        }
    }
}

/// Every seat short of the threshold with a pack waiting appears in the scan.
proof fn lemma_victims_complete(d: DraftModel, min_alloc: int, i: int, q: int)
    requires
        d.wf(),
        0 <= i <= q < d.players.len(),
        d.players[q].allocated.len() < min_alloc,
        d.players[q].pending.len() > 0,
    ensures
        exists|l: int|
            0 <= l < spec_victims_from(d, min_alloc, i).len() && (#[trigger] spec_victims_from(
                d,
                min_alloc,
                i,
            )[l]).0 == d.turn_order[q],
    decreases q - i,
{
    let vs = spec_victims_from(d, min_alloc, i);
    let rest = spec_victims_from(d, min_alloc, i + 1);
    if i == q {
        assert(vs[0].0 == d.turn_order[q]);
    } else {
        lemma_victims_complete(d, min_alloc, i + 1, q);
        let l = choose|l: int|
            0 <= l < rest.len() && (#[trigger] rest[l]).0 == d.turn_order[q];
        if d.players[i].allocated.len() < min_alloc && d.players[i].pending.len() > 0 {
            assert(vs[l + 1] == rest[l]);
        } else {
            assert(vs == rest);
        }
    }
}

/// With every seat at or past the threshold, the scan lists nobody.
proof fn lemma_no_victims(d: DraftModel, min_alloc: int, i: int)
    requires
        forall|q: int|
            0 <= q < d.players.len() ==> (#[trigger] d.players[q]).allocated.len() >= min_alloc,
    ensures
        spec_victims_from(d, min_alloc, i) == Seq::<
            (crate::draft_engine::PlayerId, DraftItemId),
        >::empty(),
    decreases d.players.len() - i,
{
    if 0 <= i < d.players.len() {
        lemma_no_victims(d, min_alloc, i + 1);
    }
}

/// Firing the same deadline twice with no intervening picks changes nothing
/// the second time, provided no player with a pack waiting is more than one
/// pick behind the threshold and every player without one has reached it.
pub proof fn lemma_enforce_idempotent(d: DraftModel, min_alloc: int)
    requires
        d.wf(),
        forall|q: int|
            0 <= q < d.players.len() ==> (((#[trigger] d.players[q]).pending.len() > 0
                ==> d.players[q].allocated.len() >= min_alloc - 1) && (d.players[q].pending.len()
                == 0 ==> d.players[q].allocated.len() >= min_alloc)),
    ensures
        spec_enforce(spec_enforce(d, min_alloc), min_alloc) == spec_enforce(d, min_alloc),
{
    let vs = spec_victims_from(d, min_alloc, 0);
    lemma_victims_from_ready(d, min_alloc, 0);
    lemma_apply_picks_allocs(d, vs);
    let d1 = spec_enforce(d, min_alloc);
    assert forall|q: int|
        0 <= q < d1.players.len() implies (#[trigger] d1.players[q]).allocated.len()
        >= min_alloc by {
        if d.players[q].allocated.len() < min_alloc {
            assert(d.players[q].pending.len() > 0);
            assert(d.players[q].allocated.len() == min_alloc - 1);
            lemma_victims_complete(d, min_alloc, 0, q);
            let l = choose|l: int|
                0 <= l < vs.len() && (#[trigger] vs[l]).0 == d.turn_order[q];
            let pid = d.turn_order[q];
            assert(d.turn_order.contains(pid));
            d.turn_order.index_of_first_ensures(pid);
            assert(d.player_idx(pid) == q);
            assert(d1.players[q].allocated.len() >= d.players[q].allocated.len() + 1);
        }
    }
    lemma_no_victims(d1, min_alloc, 0);
    assert(spec_enforce(d1, min_alloc) == spec_apply_picks(
        d1,
        Seq::<(crate::draft_engine::PlayerId, DraftItemId)>::empty(),
    ));
    assert(spec_apply_picks(
        d1,
        Seq::<(crate::draft_engine::PlayerId, DraftItemId)>::empty(),
    ) == d1);
}

/// One deadline firing hands items to players but moves none in or out of
/// the draft: the multiset of all items is conserved, and the draft stays
/// well formed.
pub proof fn lemma_enforce_conserves_items(d: DraftModel, min_alloc: int)
    requires
        d.wf(),
    ensures
        state_bag(spec_enforce(d, min_alloc)) =~= state_bag(d),
        spec_enforce(d, min_alloc).wf(),
{
    lemma_victims_from_ready(d, min_alloc, 0);
    lemma_apply_picks_bag(d, spec_victims_from(d, min_alloc, 0));
}

/// Folding ready picks over a draft conserves its item bag and keeps it
/// well formed.
proof fn lemma_apply_picks_bag(d: DraftModel, vs: Seq<(crate::draft_engine::PlayerId, DraftItemId)>)
    requires
        d.wf(),
        victims_ready(d, vs),
    ensures
        state_bag(spec_apply_picks(d, vs)) =~= state_bag(d),
        spec_apply_picks(d, vs).wf(),
    decreases vs.len(),
{
    if vs.len() > 0 {
        lemma_victims_step(d, vs);
        lemma_apply_picks_bag(d.spec_pick(vs[0].0, vs[0].1), vs.drop_first());
    }
}

/// The total number of packs queued across all players.
pub open spec fn sum_pending_len(players: Seq<PlayerModel>) -> int
    decreases players.len(),
{
    if players.len() == 0 {
        0
    } else {
        players[0].pending.len() + sum_pending_len(players.drop_first())
    }
}

/// The number of packs of a group that still hold items.
pub open spec fn count_open_packs(packs: Seq<PackModel>) -> int
    decreases packs.len(),
{
    if packs.len() == 0 {
        0
    } else {
        (if packs[0].items.len() > 0 {
            1int
        } else {
            0int
        }) + count_open_packs(packs.drop_first())
    }
}

/// The queued-pack bag holds one entry per queued slot.
proof fn lemma_pending_bag_len(players: Seq<PlayerModel>)
    ensures
        pending_bag(players).len() == sum_pending_len(players),
    decreases players.len(),
{
    broadcast use vstd::seq_lib::group_to_multiset_ensures;

    if players.len() > 0 {
        lemma_pending_bag_len(players.drop_first());
    }
}

/// The open-pack bag holds one entry per still-filled pack.
proof fn lemma_open_pack_bag_len(packs: Seq<PackModel>)
    ensures
        open_pack_bag(packs).len() == count_open_packs(packs),
    decreases packs.len(),
{
    if packs.len() > 0 {
        lemma_open_pack_bag_len(packs.drop_first());
    }
}

/// At all times the queue lengths add up to the number of current-round
/// packs that still hold items.
pub proof fn lemma_pending_lengths_match_open_pack_count(d: DraftModel)
    requires
        d.wf(),
    ensures
        sum_pending_len(d.players) == count_open_packs(d.current_packs()),
{
    lemma_pending_matches_open_packs(d);
    lemma_pending_bag_len(d.players);
    lemma_open_pack_bag_len(d.current_packs());
}

} // verus!
