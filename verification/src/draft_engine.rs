//! The draft engine: a pure state machine for snake-order pick passing,
//! wrapped by a lobby that adds admission, deadlines and update listeners.

use vstd::prelude::*;
use vstd::multiset::Multiset;

use crate::errors::DraftError;
use crate::lobby_manager::LobbyManagerResponse;

verus! {

broadcast use vstd::multiset::group_multiset_axioms;

/// Identifies one draftable item within a draft set.
pub type DraftItemId = u64;

/// Identifies one pack; fresh and globally unique within a draft.
pub type PackId = u64;

/// Identifies one joined player; generated at random on admission.
pub type PlayerId = u32;

/// A per-player fingerprint of everything visible to that player.
pub type GameState = u64;

/// The ordered item ids a pack currently holds.
pub type PackContents = Vec<DraftItemId>;

/// Milliseconds a pick deadline grants for each item left in the pack.
pub const TIME_PER_PACK_ITEM_MS: u64 = 8000;

/// Extra slack milliseconds granted on every pick deadline.
pub const SLUSH_TIME_MS: u64 = 2000;

/// The most items a draft may hold; keeps every allocated count well below
/// the fingerprint's 1024-wide field.
pub const MAX_DRAFT_ITEMS: usize = 1000;

/// The (number of rounds, pack size) table by player count.
pub open spec fn spec_rounds_and_pack_size(num_players: nat) -> (nat, nat) {
    if num_players == 0 {
        (0, 0)
    } else if num_players == 1 {
        (1, 6)
    } else if num_players == 2 {
        (3, 4)
    } else if num_players <= 4 {
        (3, 6)
    } else if num_players <= 6 {
        (2, 8)
    } else {
        (0, 0)
    }
}

/// How many rounds a draft runs and how many items each pack holds, by the
/// number of players. Zero players, or more than six, admit no draft.
pub fn get_rounds_and_pack_sizes(num_players: usize) -> (r: (usize, usize))
    ensures
        (r.0 as nat, r.1 as nat) == spec_rounds_and_pack_size(num_players as nat),
{
    if num_players == 0 {
        (0, 0)
    } else if num_players == 1 {
        (1, 6)
    } else if num_players == 2 {
        (3, 4)
    } else if num_players <= 4 {
        (3, 6)
    } else if num_players <= 6 {
        (2, 8)
    } else {
        (0, 0)
    }
}

// ---------------------------------------------------------------------------
// Abstract models
// ---------------------------------------------------------------------------

/// The abstract value of one player's draft position.
pub struct PlayerModel {
    /// The items the player has picked, in pick order.
    pub allocated: Seq<DraftItemId>,
    /// The pack ids queued in front of the player, head first.
    pub pending: Seq<PackId>,
}

/// The abstract value of one pack.
pub struct PackModel {
    /// The pack's id, globally unique within the draft.
    pub id: PackId,
    /// The item ids the pack currently holds, in order.
    pub items: Seq<DraftItemId>,
}

/// The abstract value of a whole draft.
pub struct DraftModel {
    /// Player ids in seating order.
    pub turn_order: Seq<PlayerId>,
    /// Player positions, parallel to `turn_order`.
    pub players: Seq<PlayerModel>,
    /// One group of packs per round.
    pub packs_by_round: Seq<Seq<PackModel>>,
    /// The round currently being drafted.
    pub current_round: int,
    /// True when packs pass forward in seating order, false when backward.
    pub direction: bool,
}

/// The first index of `x` in `s`, or `-1` when `s` does not contain it.
pub open spec fn first_index_of<A>(s: Seq<A>, x: A) -> int {
    match s.index_of_first(x) {
        Some(i) => i,
        None => -1,
    }
}

/// The position of the pack with id `id`, or `-1` when no pack carries it.
pub open spec fn pack_position(packs: Seq<PackModel>, id: PackId) -> int {
    first_index_of(packs.map_values(|p: PackModel| p.id), id)
}

/// The items of one group of packs, counted as a multiset.
pub open spec fn round_bag(packs: Seq<PackModel>) -> Multiset<DraftItemId>
    decreases packs.len(),
{
    if packs.len() == 0 {
        Multiset::empty()
    } else {
        packs[0].items.to_multiset().add(round_bag(packs.drop_first()))
    }
}

/// The items of every round's packs, counted as a multiset.
pub open spec fn rounds_bag(rounds: Seq<Seq<PackModel>>) -> Multiset<DraftItemId>
    decreases rounds.len(),
{
    if rounds.len() == 0 {
        Multiset::empty()
    } else {
        round_bag(rounds[0]).add(rounds_bag(rounds.drop_first()))
    }
}

/// The items every player has picked, counted as a multiset.
pub open spec fn players_bag(players: Seq<PlayerModel>) -> Multiset<DraftItemId>
    decreases players.len(),
{
    if players.len() == 0 {
        Multiset::empty()
    } else {
        players[0].allocated.to_multiset().add(players_bag(players.drop_first()))
    }
}

/// The items of a flat list of pack contents, counted as a multiset.
pub open spec fn flat_bag(packs: Seq<Seq<DraftItemId>>) -> Multiset<DraftItemId>
    decreases packs.len(),
{
    if packs.len() == 0 {
        Multiset::empty()
    } else {
        packs[0].to_multiset().add(flat_bag(packs.drop_first()))
    }
}

/// Every item in a draft, whether picked or still in a pack.
pub open spec fn state_bag(m: DraftModel) -> Multiset<DraftItemId> {
    players_bag(m.players).add(rounds_bag(m.packs_by_round))
}

impl DraftModel {
    /// The number of seated players.
    pub open spec fn num_players(self) -> int {
        self.turn_order.len() as int
    }

    /// The total number of rounds the draft was set up with.
    pub open spec fn num_rounds(self) -> int {
        self.packs_by_round.len() as int
    }

    /// The packs of the round currently being drafted.
    pub open spec fn current_packs(self) -> Seq<PackModel> {
        self.packs_by_round[self.current_round]
    }

    /// Whether `pid` is seated in this draft.
    pub open spec fn has_player(self, pid: PlayerId) -> bool {
        self.turn_order.contains(pid)
    }

    /// The seat of player `pid`.
    pub open spec fn player_idx(self, pid: PlayerId) -> int {
        first_index_of(self.turn_order, pid)
    }

    /// The seat the head pack moves to after a pick by seat `i`: one forward
    /// in even rounds, one backward in odd rounds, modulo the player count.
    pub open spec fn next_idx(self, i: int) -> int {
        if self.direction {
            (i + 1) % self.num_players()
        } else {
            (i + self.num_players() - 1) % self.num_players()
        }
    }

    /// True when every pack of the current round has been emptied.
    pub open spec fn round_done(self) -> bool {
        forall|k: int|
            0 <= k < self.current_packs().len() ==> (#[trigger] self.current_packs()[k]).items.len()
                == 0
    }

    /// Rounds left after the current one.
    pub open spec fn rounds_remaining(self) -> int {
        self.num_rounds() - (self.current_round + 1)
    }

    /// True when the current round is done and no round follows it.
    pub open spec fn draft_done(self) -> bool {
        self.round_done() && self.rounds_remaining() == 0
    }

    /// The well-formedness invariant of a draft.
    pub open spec fn wf(self) -> bool {
        &&& 1 <= self.turn_order.len() <= 6
        &&& self.turn_order.no_duplicates()
        &&& self.players.len() == self.turn_order.len()
        &&& 0 <= self.current_round < self.packs_by_round.len()
        &&& forall|r: int|
            0 <= r < self.packs_by_round.len() ==> (#[trigger] self.packs_by_round[r]).len()
                == self.turn_order.len()
        &&& forall|r1: int, k1: int, r2: int, k2: int|
            0 <= r1 < self.packs_by_round.len() && 0 <= k1 < self.packs_by_round[r1].len() && 0
                <= r2 < self.packs_by_round.len() && 0 <= k2 < self.packs_by_round[r2].len() && (r1
                != r2 || k1 != k2) ==> #[trigger] self.packs_by_round[r1][k1].id
                != #[trigger] self.packs_by_round[r2][k2].id
        &&& self.direction == (self.current_round % 2 == 0)
        &&& forall|r: int, k: int|
            self.current_round < r < self.packs_by_round.len() && 0 <= k
                < self.packs_by_round[r].len() ==> (#[trigger] self.packs_by_round[r][k]).items.len()
                > 0
        &&& forall|i: int, j: int|
            0 <= i < self.players.len() && 0 <= j < self.players[i].pending.len() ==> {
                let k = pack_position(self.current_packs(), #[trigger] self.players[i].pending[j]);
                &&& 0 <= k < self.current_packs().len()
                &&& self.current_packs()[k].items.len() > 0
            }
        &&& forall|i1: int, j1: int, i2: int, j2: int|
            0 <= i1 < self.players.len() && 0 <= j1 < self.players[i1].pending.len() && 0 <= i2
                < self.players.len() && 0 <= j2 < self.players[i2].pending.len() && (i1 != i2 || j1
                != j2) ==> #[trigger] self.players[i1].pending[j1]
                != #[trigger] self.players[i2].pending[j2]
        &&& forall|k: int|
            0 <= k < self.current_packs().len() && (#[trigger] self.current_packs()[k]).items.len()
                > 0 ==> exists|i: int, j: int|
                0 <= i < self.players.len() && 0 <= j < self.players[i].pending.len()
                    && #[trigger] self.players[i].pending[j] == self.current_packs()[k].id
        &&& forall|x: DraftItemId| #[trigger] state_bag(self).count(x) <= 1
        &&& state_bag(self).len() <= MAX_DRAFT_ITEMS
    }
}

// ---------------------------------------------------------------------------
// Bag lemmas
// ---------------------------------------------------------------------------

/// Appending a pack adds its items to the group's bag.
pub proof fn lemma_round_bag_push(xs: Seq<PackModel>, p: PackModel)
    ensures
        round_bag(xs.push(p)) =~= round_bag(xs).add(p.items.to_multiset()),
    decreases xs.len(),
{
    let pushed = xs.push(p);
    if xs.len() == 0 {
        assert(pushed[0] == p);
        assert(pushed.drop_first() =~= Seq::<PackModel>::empty());
        assert(round_bag(pushed.drop_first()) =~= Multiset::<DraftItemId>::empty());
        assert(xs =~= Seq::<PackModel>::empty());
        assert(round_bag(xs) =~= Multiset::<DraftItemId>::empty());
    } else {
        assert(pushed[0] == xs[0]);
        assert(pushed.drop_first() =~= xs.drop_first().push(p));
        lemma_round_bag_push(xs.drop_first(), p);
    }
}

/// Appending a group of packs adds its bag to the rounds' bag.
pub proof fn lemma_rounds_bag_push(rounds: Seq<Seq<PackModel>>, packs: Seq<PackModel>)
    ensures
        rounds_bag(rounds.push(packs)) =~= rounds_bag(rounds).add(round_bag(packs)),
    decreases rounds.len(),
{
    let pushed = rounds.push(packs);
    if rounds.len() == 0 {
        assert(pushed[0] == packs);
        assert(pushed.drop_first() =~= Seq::<Seq<PackModel>>::empty());
        assert(rounds_bag(pushed.drop_first()) =~= Multiset::<DraftItemId>::empty());
        assert(rounds =~= Seq::<Seq<PackModel>>::empty());
        assert(rounds_bag(rounds) =~= Multiset::<DraftItemId>::empty());
    } else {
        assert(pushed[0] == rounds[0]);
        assert(pushed.drop_first() =~= rounds.drop_first().push(packs));
        lemma_rounds_bag_push(rounds.drop_first(), packs);
    }
}

/// Appending a player adds their picks to the players' bag.
pub proof fn lemma_players_bag_push(xs: Seq<PlayerModel>, p: PlayerModel)
    ensures
        players_bag(xs.push(p)) =~= players_bag(xs).add(p.allocated.to_multiset()),
    decreases xs.len(),
{
    let pushed = xs.push(p);
    if xs.len() == 0 {
        assert(pushed[0] == p);
        assert(pushed.drop_first() =~= Seq::<PlayerModel>::empty());
        assert(players_bag(pushed.drop_first()) =~= Multiset::<DraftItemId>::empty());
        assert(xs =~= Seq::<PlayerModel>::empty());
        assert(players_bag(xs) =~= Multiset::<DraftItemId>::empty());
    } else {
        assert(pushed[0] == xs[0]);
        assert(pushed.drop_first() =~= xs.drop_first().push(p));
        lemma_players_bag_push(xs.drop_first(), p);
    }
}

/// Appending pack contents adds them to the flat bag.
pub proof fn lemma_flat_bag_push(xs: Seq<Seq<DraftItemId>>, p: Seq<DraftItemId>)
    ensures
        flat_bag(xs.push(p)) =~= flat_bag(xs).add(p.to_multiset()),
    decreases xs.len(),
{
    let pushed = xs.push(p);
    if xs.len() == 0 {
        assert(pushed[0] == p);
        assert(pushed.drop_first() =~= Seq::<Seq<DraftItemId>>::empty());
        assert(flat_bag(pushed.drop_first()) =~= Multiset::<DraftItemId>::empty());
        assert(xs =~= Seq::<Seq<DraftItemId>>::empty());
        assert(flat_bag(xs) =~= Multiset::<DraftItemId>::empty());
    } else {
        assert(pushed[0] == xs[0]);
        assert(pushed.drop_first() =~= xs.drop_first().push(p));
        lemma_flat_bag_push(xs.drop_first(), p);
    }
}

/// Replacing the pack at one position exchanges exactly its items in the bag.
pub proof fn lemma_round_bag_update(packs: Seq<PackModel>, k: int, p: PackModel, x: DraftItemId)
    requires
        0 <= k < packs.len(),
    ensures
        round_bag(packs.update(k, p)).count(x) + packs[k].items.to_multiset().count(x)
            == round_bag(packs).count(x) + p.items.to_multiset().count(x),
    decreases k,
{
    if k == 0 {
        assert(packs.update(0, p).drop_first() =~= packs.drop_first());
        assert(packs.update(0, p)[0] == p);
    } else {
        assert(packs.update(k, p).drop_first() =~= packs.drop_first().update(k - 1, p));
        assert(packs.update(k, p)[0] == packs[0]);
        lemma_round_bag_update(packs.drop_first(), k - 1, p, x);
    }
}

/// Replacing one round's packs exchanges exactly that round's bag.
pub proof fn lemma_rounds_bag_update(
    rounds: Seq<Seq<PackModel>>,
    r: int,
    packs: Seq<PackModel>,
    x: DraftItemId,
)
    requires
        0 <= r < rounds.len(),
    ensures
        rounds_bag(rounds.update(r, packs)).count(x) + round_bag(rounds[r]).count(x)
            == rounds_bag(rounds).count(x) + round_bag(packs).count(x),
    decreases r,
{
    if r == 0 {
        assert(rounds.update(0, packs).drop_first() =~= rounds.drop_first());
        assert(rounds.update(0, packs)[0] == packs);
    } else {
        assert(rounds.update(r, packs).drop_first() =~= rounds.drop_first().update(r - 1, packs));
        assert(rounds.update(r, packs)[0] == rounds[0]);
        lemma_rounds_bag_update(rounds.drop_first(), r - 1, packs, x);
    }
}

/// Replacing one player exchanges exactly their picks in the players' bag.
pub proof fn lemma_players_bag_update(
    players: Seq<PlayerModel>,
    i: int,
    p: PlayerModel,
    x: DraftItemId,
)
    requires
        0 <= i < players.len(),
    ensures
        players_bag(players.update(i, p)).count(x) + players[i].allocated.to_multiset().count(x)
            == players_bag(players).count(x) + p.allocated.to_multiset().count(x),
    decreases i,
{
    if i == 0 {
        assert(players.update(0, p).drop_first() =~= players.drop_first());
        assert(players.update(0, p)[0] == p);
    } else {
        assert(players.update(i, p).drop_first() =~= players.drop_first().update(i - 1, p));
        assert(players.update(i, p)[0] == players[0]);
        lemma_players_bag_update(players.drop_first(), i - 1, p, x);
    }
}


/// A group's bag counts at least what any one of its packs counts.
pub proof fn lemma_round_bag_member(packs: Seq<PackModel>, k: int, x: DraftItemId)
    requires
        0 <= k < packs.len(),
    ensures
        round_bag(packs).count(x) >= packs[k].items.to_multiset().count(x),
    decreases k,
{
    if k == 0 {
    } else {
        lemma_round_bag_member(packs.drop_first(), k - 1, x);
    }
}

/// The all-rounds bag counts at least what any one round's bag counts.
pub proof fn lemma_rounds_bag_member(rounds: Seq<Seq<PackModel>>, r: int, x: DraftItemId)
    requires
        0 <= r < rounds.len(),
    ensures
        rounds_bag(rounds).count(x) >= round_bag(rounds[r]).count(x),
    decreases r,
{
    if r == 0 {
    } else {
        lemma_rounds_bag_member(rounds.drop_first(), r - 1, x);
    }
}

/// The players' bag counts at least what any one player's picks count.
pub proof fn lemma_players_bag_member(players: Seq<PlayerModel>, i: int, x: DraftItemId)
    requires
        0 <= i < players.len(),
    ensures
        players_bag(players).count(x) >= players[i].allocated.to_multiset().count(x),
    decreases i,
{
    if i == 0 {
    } else {
        lemma_players_bag_member(players.drop_first(), i - 1, x);
    }
}

/// Two different players both holding an item put its count at two or more.
pub proof fn lemma_players_bag_two(players: Seq<PlayerModel>, i: int, j: int, x: DraftItemId)
    requires
        0 <= i < j < players.len(),
        players[i].allocated.contains(x),
        players[j].allocated.contains(x),
    ensures
        players_bag(players).count(x) >= 2,
    decreases i,
{
    broadcast use vstd::seq_lib::group_to_multiset_ensures;

    if i == 0 {
        lemma_players_bag_member(players.drop_first(), j - 1, x);
    } else {
        lemma_players_bag_two(players.drop_first(), i - 1, j - 1, x);
    }
}

// ---------------------------------------------------------------------------
// The pick transition, as a mathematical function
// ---------------------------------------------------------------------------

impl DraftModel {
    /// The position of the head pack of seat `i` within the current round.
    pub open spec fn head_pack_pos(self, i: int) -> int {
        pack_position(self.current_packs(), self.players[i].pending[0])
    }

    /// When a pick succeeds: the player is seated, has a pending pack, and the
    /// named item is in that head pack.
    pub open spec fn pick_enabled(self, pid: PlayerId, item: DraftItemId) -> bool {
        &&& self.has_player(pid)
        &&& self.players[self.player_idx(pid)].pending.len() > 0
        &&& {
            let i = self.player_idx(pid);
            let k = self.head_pack_pos(i);
            &&& 0 <= k < self.current_packs().len()
            &&& self.current_packs()[k].items.contains(item)
        }
    }

    /// The draft after a successful pick: the item moves from the head pack to
    /// the player's allocation, the pack leaves the player's queue, and, if
    /// still non-empty, joins the tail of the next seat's queue.
    pub open spec fn spec_pick(self, pid: PlayerId, item: DraftItemId) -> DraftModel
        recommends
            self.wf(),
            self.pick_enabled(pid, item),
    {
        let i = self.player_idx(pid);
        let pack_id = self.players[i].pending[0];
        let k = self.head_pack_pos(i);
        let pack = self.current_packs()[k];
        let idx = first_index_of(pack.items, item);
        let new_pack = PackModel { id: pack.id, items: pack.items.remove(idx) };
        let picker = self.players[i];
        let players1 = self.players.update(
            i,
            PlayerModel { allocated: picker.allocated.push(item), pending: picker.pending.drop_first() },
        );
        let packs1 = self.packs_by_round.update(
            self.current_round,
            self.current_packs().update(k, new_pack),
        );
        if new_pack.items.len() > 0 {
            let nx = self.next_idx(i);
            let receiver = players1[nx];
            DraftModel {
                turn_order: self.turn_order,
                players: players1.update(
                    nx,
                    PlayerModel { allocated: receiver.allocated, pending: receiver.pending.push(pack_id) },
                ),
                packs_by_round: packs1,
                current_round: self.current_round,
                direction: self.direction,
            }
        } else {
            DraftModel {
                turn_order: self.turn_order,
                players: players1,
                packs_by_round: packs1,
                current_round: self.current_round,
                direction: self.direction,
            }
        }
    }

    /// The draft after a round boundary: the round index advances, the
    /// direction flips, and every seat's queue is reset to exactly the new
    /// round's pack at that seat.
    pub open spec fn spec_next_round(self) -> DraftModel
        recommends
            self.current_round + 1 < self.num_rounds(),
    {
        let nr = self.current_round + 1;
        let packs = self.packs_by_round[nr];
        DraftModel {
            turn_order: self.turn_order,
            players: Seq::new(
                self.players.len(),
                |i: int| PlayerModel { allocated: self.players[i].allocated, pending: seq![packs[i].id] },
            ),
            packs_by_round: self.packs_by_round,
            current_round: nr,
            direction: !self.direction,
        }
    }
}

// ---------------------------------------------------------------------------
// Executable state
// ---------------------------------------------------------------------------

/// One pack: its globally unique id and its remaining items.
pub struct Pack {
    /// The pack's id.
    pub id: PackId,
    /// The item ids the pack currently holds, in order.
    pub items: PackContents,
}

impl View for Pack {
    type V = PackModel;

    open spec fn view(&self) -> PackModel {
        PackModel { id: self.id, items: self.items@ }
    }
}

/// One player's draft position: picked items and queued packs.
pub struct PlayerState {
    /// The items the player has picked, in pick order.
    pub allocated_items: Vec<DraftItemId>,
    /// The pack ids queued in front of the player, head first.
    pub pending_packs: std::collections::VecDeque<PackId>,
}

impl View for PlayerState {
    type V = PlayerModel;

    open spec fn view(&self) -> PlayerModel {
        PlayerModel { allocated: self.allocated_items@, pending: self.pending_packs@ }
    }
}

/// The packs of one round, abstractly.
pub open spec fn pack_seq_view(s: Seq<Pack>) -> Seq<PackModel> {
    Seq::new(s.len(), |k: int| s[k]@)
}

/// The players of a draft, abstractly.
pub open spec fn player_seq_view(s: Seq<PlayerState>) -> Seq<PlayerModel> {
    Seq::new(s.len(), |i: int| s[i]@)
}

/// All rounds of packs, abstractly.
pub open spec fn rounds_view(s: Seq<Vec<Pack>>) -> Seq<Seq<PackModel>> {
    Seq::new(s.len(), |r: int| pack_seq_view(s[r]@))
}

/// The draft state machine: players, packs, turn order, round and direction.
pub struct DraftState {
    players: Vec<PlayerState>,
    turn_order: Vec<PlayerId>,
    packs_by_round: Vec<Vec<Pack>>,
    current_round_idx: usize,
    draft_direction: bool,
}

impl View for DraftState {
    type V = DraftModel;

    closed spec fn view(&self) -> DraftModel {
        DraftModel {
            turn_order: self.turn_order@,
            players: player_seq_view(self.players@),
            packs_by_round: rounds_view(self.packs_by_round@),
            current_round: self.current_round_idx as int,
            direction: self.draft_direction,
        }
    }
}

/// The first position of `x` in `v`, scanning from the front.
fn find_u32(v: &Vec<u32>, x: u32) -> (r: Option<usize>)
    ensures
        match r {
            Some(i) => 0 <= i < v@.len() && v@[i as int] == x && i as int == first_index_of(v@, x),
            None => !v@.contains(x),
        },
{
    let n: usize = v.len();
    let mut i: usize = 0;
    while i < n
        invariant
            0 <= i <= n,
            n == v@.len(),
            forall|k: int| 0 <= k < i ==> v@[k] != x,
        decreases n - i,
    {
        if v[i] == x {
            proof {
                v@.index_of_first_ensures(x);
            }
            return Some(i);
        }
        i += 1;
    }
    None
}

/// The first position of the pack with id `id`, scanning from the front.
fn find_pack(packs: &Vec<Pack>, id: PackId) -> (r: Option<usize>)
    ensures
        match r {
            Some(k) => {
                &&& 0 <= k < packs@.len()
                &&& packs@[k as int].id == id
                &&& k as int == pack_position(pack_seq_view(packs@), id)
            },
            None => pack_position(pack_seq_view(packs@), id) == -1,
        },
{
    let ghost ids = pack_seq_view(packs@).map_values(|p: PackModel| p.id);
    let n: usize = packs.len();
    let mut k: usize = 0;
    while k < n
        invariant
            0 <= k <= n,
            n == packs@.len(),
            ids == pack_seq_view(packs@).map_values(|p: PackModel| p.id),
            ids.len() == n,
            forall|j: int| 0 <= j < n ==> ids[j] == packs@[j].id,
            forall|j: int| 0 <= j < k ==> packs@[j].id != id,
        decreases n - k,
    {
        if packs[k].id == id {
            proof {
                assert(ids[k as int] == id);
                assert(ids.contains(id));
                ids.index_of_first_ensures(id);
                match ids.index_of_first(id) {
                    Some(fi) => {
                        assert(ids[fi] == id);
                        assert(forall|j: int| 0 <= j < fi ==> ids[j] != id);
                        if fi < k as int {
                            assert(packs@[fi].id != id);
                            assert(ids[fi] != id);
                        }
                        assert(fi == k as int);
                    },
                    None => {
                        assert(false);
                    },
                }
            }
            return Some(k);
        }
        k += 1;
    }
    proof {
        ids.index_of_first_ensures(id);
        assert forall|j: int| 0 <= j < ids.len() implies ids[j] != id by {
            assert(packs@[j].id != id);
        }
        if ids.contains(id) {
            let j = choose|j: int| 0 <= j < ids.len() && ids[j] == id;
            assert(false);
        }
    }
    None
}

impl DraftState {
    /// True when every pack of the current round has been emptied.
    pub fn round_is_done(&self) -> (r: bool)
        requires
            self@.wf(),
        ensures
            r == self@.round_done(),
    {
        let packs: &Vec<Pack> = &self.packs_by_round[self.current_round_idx];
        let n: usize = packs.len();
        let mut k: usize = 0;
        while k < n
            invariant
                0 <= k <= n,
                n == packs@.len(),
                packs@ == self.packs_by_round@[self.current_round_idx as int]@,
                self@.current_packs() == pack_seq_view(packs@),
                forall|j: int| 0 <= j < k ==> (#[trigger] pack_seq_view(packs@)[j]).items.len() == 0,
            decreases n - k,
        {
            if packs[k].items.len() > 0 {
                proof {
                    assert(self@.current_packs()[k as int].items.len() > 0);
                }
                return false;
            }
            k += 1;
        }
        true
    }

    /// The total number of rounds the draft was set up with.
    pub fn num_rounds(&self) -> (r: usize)
        ensures
            r == self@.num_rounds(),
    {
        self.packs_by_round.len()
    }

    /// The round currently being drafted.
    pub fn current_round(&self) -> (r: usize)
        ensures
            r == self@.current_round,
    {
        self.current_round_idx
    }

    /// The number of seated players.
    pub fn turn_order_len(&self) -> (r: usize)
        ensures
            r == self@.turn_order.len(),
    {
        self.turn_order.len()
    }

    /// True when packs pass forward in seating order this round.
    pub fn direction(&self) -> (r: bool)
        ensures
            r == self@.direction,
    {
        self.draft_direction
    }

    /// Rounds left after the current one.
    pub fn rounds_remaining(&self) -> (r: usize)
        requires
            self@.wf(),
        ensures
            r == self@.rounds_remaining(),
    {
        self.packs_by_round.len() - (self.current_round_idx + 1)
    }

    /// True when the current round is done and no round follows it.
    pub fn draft_is_done(&self) -> (r: bool)
        requires
            self@.wf(),
        ensures
            r == self@.draft_done(),
    {
        self.round_is_done() && self.rounds_remaining() == 0
    }

    /// The seat that receives the head pack after a pick by `player_id`:
    /// one seat forward in even rounds, one seat backward in odd rounds.
    pub fn next_player_from(&self, player_id: PlayerId) -> (r: Result<PlayerId, DraftError>)
        requires
            self@.wf(),
        ensures
            match r {
                Ok(p) => {
                    &&& self@.has_player(player_id)
                    &&& p == self@.turn_order[self@.next_idx(self@.player_idx(player_id))]
                },
                Err(e) => !self@.has_player(player_id) && e == DraftError::PlayerNotFound,
            },
    {
        match find_u32(&self.turn_order, player_id) {
            None => Err(DraftError::PlayerNotFound),
            Some(idx) => {
                let n: usize = self.turn_order.len();
                let next_player_idx: usize = if self.draft_direction {
                    (idx + 1) % n
                } else {
                    (idx + n - 1) % n
                };
                Ok(self.turn_order[next_player_idx])
            },
        }
    }

    /// The current contents of the pack with id `pack_id` in the current
    /// round, or nothing when no such pack exists.
    pub fn get_pack_contents(&self, pack_id: &PackId) -> (r: Option<&PackContents>)
        requires
            self@.wf(),
        ensures
            match r {
                Some(c) => {
                    let k = pack_position(self@.current_packs(), *pack_id);
                    &&& 0 <= k < self@.current_packs().len()
                    &&& c@ == self@.current_packs()[k].items
                },
                None => pack_position(self@.current_packs(), *pack_id) == -1,
            },
    {
        let packs: &Vec<Pack> = &self.packs_by_round[self.current_round_idx];
        proof {
            assert(self@.current_packs() == pack_seq_view(packs@));
        }
        match find_pack(packs, *pack_id) {
            None => None,
            Some(k) => Some(&packs[k].items),
        }
    }

    /// The draft position of `player_id`, or nothing for an unknown player.
    pub fn get_player_state(&self, player_id: &PlayerId) -> (r: Option<&PlayerState>)
        requires
            self@.wf(),
        ensures
            match r {
                Some(ps) => {
                    &&& self@.has_player(*player_id)
                    &&& ps@ == self@.players[self@.player_idx(*player_id)]
                },
                None => !self@.has_player(*player_id),
            },
    {
        match find_u32(&self.turn_order, *player_id) {
            None => None,
            Some(idx) => {
                proof {
                    assert(self@.players[idx as int] == player_seq_view(self.players@)[idx as int]);
                }
                Some(&self.players[idx])
            },
        }
    }
}

// ---------------------------------------------------------------------------
// Construction
// ---------------------------------------------------------------------------

/// A chunk position `r * n + k` stays below `rr * n` chunks of size `n`.
proof fn lemma_chunk_index_bound(r: int, k: int, rr: int, n: int)
    by (nonlinear_arith)
    requires
        0 <= r < rr,
        0 <= k < n,
    ensures
        0 <= r * n + k,
        r * n + k < rr * n,
        (r + 1) * n == r * n + n,
        (r + 1) * n <= rr * n,
        n <= rr * n,
{
}

/// Chunk positions are injective: equal flat indices mean equal coordinates.
proof fn lemma_chunk_index_injective(r1: int, k1: int, r2: int, k2: int, n: int)
    by (nonlinear_arith)
    requires
        n > 0,
        0 <= k1 < n,
        0 <= k2 < n,
        0 <= r1,
        0 <= r2,
        r1 * n + k1 == r2 * n + k2,
    ensures
        r1 == r2,
        k1 == k2,
{
}

/// Taking one more element adds exactly its items to the flat bag.
proof fn lemma_flat_bag_take_step(s: Seq<Seq<DraftItemId>>, m: int)
    requires
        0 <= m < s.len(),
    ensures
        flat_bag(s.take(m + 1)) =~= flat_bag(s.take(m)).add(s[m].to_multiset()),
{
    assert(s.take(m + 1) =~= s.take(m).push(s[m]));
    lemma_flat_bag_push(s.take(m), s[m]);
}

/// In a group of packs with pairwise distinct ids, the pack at `k` is found
/// exactly at position `k`.
pub proof fn lemma_pack_position_of(packs: Seq<PackModel>, k: int)
    requires
        0 <= k < packs.len(),
        forall|a: int, b: int|
            0 <= a < packs.len() && 0 <= b < packs.len() && a != b ==> (#[trigger] packs[a]).id
                != (#[trigger] packs[b]).id,
    ensures
        pack_position(packs, packs[k].id) == k,
{
    let ids = packs.map_values(|p: PackModel| p.id);
    assert(ids[k] == packs[k].id);
    assert(ids.contains(packs[k].id));
    ids.index_of_first_ensures(packs[k].id);
    match ids.index_of_first(packs[k].id) {
        Some(fi) => {
            assert(ids[fi] == packs[k].id);
            assert(packs[fi].id == packs[k].id);
            if fi != k {
                assert(false);
            }
        },
        None => {
            assert(false);
        },
    }
}

impl DraftState {
    /// Resets every seat's queue to exactly the current round's pack at that
    /// seat. Every queue must already be empty.
    #[verifier::loop_isolation(false)]
    fn set_initial_round_packs(&mut self)
        requires
            0 <= old(self)@.current_round < old(self)@.packs_by_round.len(),
            old(self)@.players.len() == old(self)@.current_packs().len(),
            forall|i: int|
                0 <= i < old(self)@.players.len() ==> (#[trigger] old(self)@.players[i]).pending.len()
                    == 0,
        ensures
            final(self)@.turn_order == old(self)@.turn_order,
            final(self)@.packs_by_round == old(self)@.packs_by_round,
            final(self)@.current_round == old(self)@.current_round,
            final(self)@.direction == old(self)@.direction,
            final(self)@.players.len() == old(self)@.players.len(),
            forall|i: int|
                0 <= i < old(self)@.players.len() ==> (#[trigger] final(self)@.players[i]).allocated
                    == old(self)@.players[i].allocated && final(self)@.players[i].pending == seq![
                old(self)@.current_packs()[i].id],
    {
        let ghost m0 = old(self)@;
        let n: usize = self.players.len();
        let mut i: usize = 0;
        while i < n
            invariant
                0 <= i <= n,
                n == self.players@.len(),
                0 <= m0.current_round < m0.packs_by_round.len(),
                n == m0.players.len(),
                n == m0.current_packs().len(),
                self@.turn_order == m0.turn_order,
                self@.packs_by_round == m0.packs_by_round,
                self@.current_round == m0.current_round,
                self@.direction == m0.direction,
                self@.players.len() == n,
                forall|j: int|
                    0 <= j < i ==> (#[trigger] self@.players[j]).allocated == m0.players[j].allocated
                        && self@.players[j].pending == seq![m0.current_packs()[j].id],
                forall|j: int| i <= j < n ==> #[trigger] self@.players[j] == m0.players[j],
            decreases n - i,
        {
            let pid: PackId = self.packs_by_round[self.current_round_idx][i].id;
            proof {
                assert(m0.current_packs()[i as int].id == pid);
                assert(self@.players[i as int] == m0.players[i as int]);
                assert(self@.players[i as int].pending.len() == 0);
            }
            let ghost pv = self@.players;
            self.players[i].pending_packs.push_back(pid);
            proof {
                assert(self@.players =~= pv.update(
                    i as int,
                    (PlayerModel {
                        allocated: pv[i as int].allocated,
                        pending: pv[i as int].pending.push(pid),
                    }),
                ));
                assert(self@.players[i as int].pending =~= seq![pid]);
            }
            i += 1;
        }
    }

    /// Sets up a draft: one empty position per player, the packs split into
    /// `num_rounds` rounds of one pack per player with fresh ids, round zero
    /// current, the direction forward, and one pack dealt to every seat.
    pub fn new(player_ids: Vec<PlayerId>, packs: Vec<PackContents>, num_rounds: usize) -> (s:
        DraftState)
        requires
            1 <= player_ids@.len() <= 6,
            player_ids@.no_duplicates(),
            num_rounds >= 1,
            packs@.len() == num_rounds * player_ids@.len(),
            forall|p: int| 0 <= p < packs@.len() ==> (#[trigger] packs.deep_view()[p]).len() > 0,
            forall|x: DraftItemId| #[trigger] flat_bag(packs.deep_view()).count(x) <= 1,
            flat_bag(packs.deep_view()).len() <= MAX_DRAFT_ITEMS,
        ensures
            s@.wf(),
            s@.turn_order == player_ids@,
            s@.current_round == 0,
            s@.direction == true,
            s@.num_rounds() == num_rounds,
            s@.players.len() == player_ids@.len(),
            forall|i: int|
                0 <= i < s@.players.len() ==> (#[trigger] s@.players[i]).allocated.len() == 0
                    && s@.players[i].pending == seq![s@.packs_by_round[0][i].id],
            state_bag(s@) =~= flat_bag(packs.deep_view()),
            forall|r: int, k: int|
                0 <= r < num_rounds && 0 <= k < player_ids@.len() ==> (
                #[trigger] s@.packs_by_round[r][k]).items == packs.deep_view()[r * player_ids@.len()
                    + k] && s@.packs_by_round[r][k].id == r * player_ids@.len() + k,
    {
        let ghost deep = packs.deep_view();
        let n: usize = player_ids.len();
        let total: usize = packs.len();
        let mut rounds_vec: Vec<Vec<Pack>> = Vec::new();
        proof {
            assert(rounds_view(rounds_vec@) =~= Seq::<Seq<PackModel>>::empty());
            assert(deep.take(0) =~= Seq::<Seq<DraftItemId>>::empty());
            assert(rounds_bag(rounds_view(rounds_vec@)) =~= flat_bag(deep.take(0)));
        }
        let mut r: usize = 0;
        while r < num_rounds
            invariant
                0 <= r <= num_rounds,
                1 <= n <= 6,
                n == player_ids@.len(),
                total == packs@.len(),
                total == num_rounds * n,
                deep == packs.deep_view(),
                deep.len() == total,
                forall|p: int| 0 <= p < total ==> (#[trigger] deep[p]).len() > 0,
                rounds_vec@.len() == r,
                forall|rr: int| 0 <= rr < r ==> (#[trigger] rounds_vec@[rr])@.len() == n,
                forall|rr: int, k: int|
                    0 <= rr < r && 0 <= k < n ==> (#[trigger] rounds_vec@[rr]@[k])@.id == rr * n + k
                        && rounds_vec@[rr]@[k]@.items == deep[rr * n + k],
                rounds_bag(rounds_view(rounds_vec@)) =~= flat_bag(deep.take((r * n) as int)),
                r * n <= total,
            decreases num_rounds - r,
        {
            let ghost base = (r * n) as int;
            let mut round: Vec<Pack> = Vec::new();
            proof {
                lemma_chunk_index_bound(r as int, 0, num_rounds as int, n as int);
                assert(base + n <= total);
                assert(pack_seq_view(round@) =~= Seq::<PackModel>::empty());
                assert(round_bag(pack_seq_view(round@)) =~= Multiset::<DraftItemId>::empty());
            }
            let mut k: usize = 0;
            while k < n
                invariant
                    0 <= k <= n,
                    0 <= r < num_rounds,
                    1 <= n,
                    n == player_ids@.len(),
                    total == packs@.len(),
                    total == num_rounds * n,
                    deep == packs.deep_view(),
                    deep.len() == total,
                    base == r * n,
                    base + n <= total,
                    round@.len() == k,
                    forall|j: int|
                        0 <= j < k ==> (#[trigger] round@[j])@.id == base + j && round@[j]@.items
                            == deep[base + j],
                    round_bag(pack_seq_view(round@)) =~= flat_bag(deep.subrange(base, base + k)),
                decreases n - k,
            {
                proof {
                    lemma_chunk_index_bound(r as int, k as int, num_rounds as int, n as int);
                }
                let idx: usize = r * n + k;
                let items: PackContents = packs[idx].clone();
                proof {
                    assert(forall|q: int|
                        0 <= q < packs@[idx as int]@.len() ==> cloned::<DraftItemId>(
                            packs@[idx as int]@[q],
                            items@[q],
                        ));
                    assert forall|q: int| 0 <= q < packs@[idx as int]@.len() implies items@[q]
                        == packs@[idx as int]@[q] by {
                        assert(cloned::<DraftItemId>(packs@[idx as int]@[q], items@[q]));
                    }
                    assert(items@ =~= deep[idx as int]);
                }
                let pack = Pack { id: idx as u64, items };
                let ghost prev = round@;
                round.push(pack);
                proof {
                    assert(pack_seq_view(round@) =~= pack_seq_view(prev).push(pack@));
                    lemma_round_bag_push(pack_seq_view(prev), pack@);
                    lemma_flat_bag_take_step(deep.subrange(base, base + n), k as int);
                    assert(deep.subrange(base, base + n).take(k as int) =~= deep.subrange(
                        base,
                        base + k,
                    ));
                    assert(deep.subrange(base, base + n).take(k + 1 as int) =~= deep.subrange(
                        base,
                        base + k + 1,
                    ));
                    assert(deep.subrange(base, base + n)[k as int] == deep[base + k]);
                    assert(round_bag(pack_seq_view(round@)) =~= flat_bag(
                        deep.subrange(base, base + k + 1),
                    ));
                }
                k += 1;
            }
            let ghost prev_rounds = rounds_vec@;
            rounds_vec.push(round);
            proof {
                assert(rounds_view(rounds_vec@) =~= rounds_view(prev_rounds).push(
                    pack_seq_view(rounds_vec@[r as int]@),
                ));
                lemma_rounds_bag_push(rounds_view(prev_rounds), pack_seq_view(rounds_vec@[r as int]@));
                lemma_chunk_index_bound(r as int, 0, num_rounds as int, n as int);
                assert(deep.take(((r + 1) * n) as int) =~= deep.take(base).add(
                    deep.subrange(base, base + n),
                )) by {
                    assert(((r + 1) * n) as int == base + n);
                }
                lemma_flat_bag_concat(deep.take(base), deep.subrange(base, base + n));
                assert(rounds_bag(rounds_view(rounds_vec@)) =~= flat_bag(
                    deep.take((((r + 1)) * n) as int),
                ));
            }
            r += 1;
        }
        let mut players: Vec<PlayerState> = Vec::new();
        proof {
            assert(player_seq_view(players@) =~= Seq::<PlayerModel>::empty());
            assert(players_bag(player_seq_view(players@)) =~= Multiset::<DraftItemId>::empty());
        }
        let mut i: usize = 0;
        while i < n
            invariant
                0 <= i <= n,
                players@.len() == i,
                forall|j: int|
                    0 <= j < i ==> (#[trigger] players@[j])@.allocated.len() == 0 && players@[j]@.pending.len()
                        == 0,
                players_bag(player_seq_view(players@)) =~= Multiset::<DraftItemId>::empty(),
            decreases n - i,
        {
            let ghost prev = players@;
            let ps = PlayerState {
                allocated_items: Vec::new(),
                pending_packs: std::collections::VecDeque::new(),
            };
            players.push(ps);
            proof {
                broadcast use vstd::seq_lib::group_to_multiset_ensures;

                assert(player_seq_view(players@) =~= player_seq_view(prev).push(
                    players@[i as int]@,
                ));
                lemma_players_bag_push(player_seq_view(prev), players@[i as int]@);
                assert(players@[i as int]@.allocated.to_multiset() =~= Multiset::<
                    DraftItemId,
                >::empty());
            }
            i += 1;
        }
        let mut s = DraftState {
            players,
            turn_order: player_ids,
            packs_by_round: rounds_vec,
            current_round_idx: 0,
            draft_direction: true,
        };
        proof {
            lemma_chunk_index_bound(0, 0, num_rounds as int, n as int);
            assert(n <= total);
            assert(deep.take(total as int) =~= deep);
            assert(s@.players == player_seq_view(s.players@));
            assert(players_bag(s@.players) =~= Multiset::<DraftItemId>::empty());
            assert(s@.packs_by_round == rounds_view(rounds_vec@));
            assert(rounds_bag(s@.packs_by_round) =~= flat_bag(deep));
            assert(state_bag(s@) =~= flat_bag(deep));
            assert(s@.current_packs() == s@.packs_by_round[0]);
            assert forall|q: int| 0 <= q < n implies (#[trigger] s@.current_packs()[q]).id == q
                && s@.current_packs()[q].items.len() > 0 by {
                assert(s@.packs_by_round[0][q].id == 0 * n + q);
                assert(s@.packs_by_round[0][q].items == deep[0 * n + q]);
                assert(deep[q].len() > 0);
            }
        }
        let ghost pre = s@;
        s.set_initial_round_packs();
        proof {
            lemma_players_bag_allocated_only(s@.players, pre.players);
            assert(players_bag(s@.players) =~= Multiset::<DraftItemId>::empty());
            assert(state_bag(s@) =~= flat_bag(deep));
            lemma_new_state_wf(s@, deep, n as int, num_rounds as int);
        }
        s
    }
}

/// Concatenating two flat lists adds their bags.
proof fn lemma_flat_bag_concat(a: Seq<Seq<DraftItemId>>, b: Seq<Seq<DraftItemId>>)
    ensures
        flat_bag(a.add(b)) =~= flat_bag(a).add(flat_bag(b)),
    decreases b.len(),
{
    if b.len() == 0 {
        assert(a.add(b) =~= a);
    } else {
        assert(a.add(b.drop_last()) =~= a.add(b).drop_last());
        lemma_flat_bag_concat(a, b.drop_last());
        assert(a.add(b) =~= a.add(b.drop_last()).push(b.last()));
        lemma_flat_bag_push(a.add(b.drop_last()), b.last());
        assert(b =~= b.drop_last().push(b.last()));
        lemma_flat_bag_push(b.drop_last(), b.last());
    }
}


/// The players' bag depends only on what each player has picked.
proof fn lemma_players_bag_allocated_only(a: Seq<PlayerModel>, b: Seq<PlayerModel>)
    requires
        a.len() == b.len(),
        forall|i: int| 0 <= i < a.len() ==> (#[trigger] a[i]).allocated == b[i].allocated,
    ensures
        players_bag(a) =~= players_bag(b),
    decreases a.len(),
{
    if a.len() > 0 {
        assert(a[0].allocated == b[0].allocated);
        assert forall|i: int|
            0 <= i < a.drop_first().len() implies (#[trigger] a.drop_first()[i]).allocated
            == b.drop_first()[i].allocated by {
            assert(a.drop_first()[i] == a[i + 1]);
            assert(b.drop_first()[i] == b[i + 1]);
        }
        lemma_players_bag_allocated_only(a.drop_first(), b.drop_first());
    }
}

/// The freshly dealt draft satisfies the invariant.
proof fn lemma_new_state_wf(m: DraftModel, deep: Seq<Seq<DraftItemId>>, n: int, num_rounds: int)
    requires
        1 <= n <= 6,
        num_rounds >= 1,
        m.turn_order.len() == n,
        m.turn_order.no_duplicates(),
        m.players.len() == n,
        m.packs_by_round.len() == num_rounds,
        m.current_round == 0,
        m.direction == true,
        deep.len() == num_rounds * n,
        forall|p: int| 0 <= p < deep.len() ==> (#[trigger] deep[p]).len() > 0,
        forall|x: DraftItemId| #[trigger] flat_bag(deep).count(x) <= 1,
        flat_bag(deep).len() <= MAX_DRAFT_ITEMS,
        state_bag(m) =~= flat_bag(deep),
        forall|r: int| 0 <= r < num_rounds ==> (#[trigger] m.packs_by_round[r]).len() == n,
        forall|r: int, k: int|
            0 <= r < num_rounds && 0 <= k < n ==> (#[trigger] m.packs_by_round[r][k]).id == r * n
                + k && m.packs_by_round[r][k].items == deep[r * n + k],
        forall|i: int|
            0 <= i < n ==> (#[trigger] m.players[i]).allocated.len() == 0
                && m.players[i].pending == seq![m.current_packs()[i].id],
    ensures
        m.wf(),
{
    assert(n <= deep.len()) by (nonlinear_arith)
        requires
            deep.len() == num_rounds * n,
            num_rounds >= 1,
            n >= 0,
    ;
    assert forall|r1: int, k1: int, r2: int, k2: int|
        0 <= r1 < m.packs_by_round.len() && 0 <= k1 < m.packs_by_round[r1].len() && 0 <= r2
            < m.packs_by_round.len() && 0 <= k2 < m.packs_by_round[r2].len() && (r1 != r2 || k1
            != k2) implies #[trigger] m.packs_by_round[r1][k1].id
        != #[trigger] m.packs_by_round[r2][k2].id by {
        if m.packs_by_round[r1][k1].id == m.packs_by_round[r2][k2].id {
            lemma_chunk_index_injective(r1, k1, r2, k2, n);
        }
    }
    assert forall|i: int, j: int|
        0 <= i < m.players.len() && 0 <= j < m.players[i].pending.len() implies {
        let k = pack_position(m.current_packs(), #[trigger] m.players[i].pending[j]);
        &&& 0 <= k < m.current_packs().len()
        &&& m.current_packs()[k].items.len() > 0
    } by {
        assert(m.players[i].pending[j] == m.current_packs()[i].id);
        lemma_pack_position_of(m.current_packs(), i);
        assert(m.current_packs()[i].items == deep[0 * n + i]);
    }
    assert forall|i1: int, j1: int, i2: int, j2: int|
        0 <= i1 < m.players.len() && 0 <= j1 < m.players[i1].pending.len() && 0 <= i2
            < m.players.len() && 0 <= j2 < m.players[i2].pending.len() && (i1 != i2 || j1
            != j2) implies #[trigger] m.players[i1].pending[j1]
        != #[trigger] m.players[i2].pending[j2] by {
        assert(m.players[i1].pending[j1] == m.current_packs()[i1].id);
        assert(m.players[i2].pending[j2] == m.current_packs()[i2].id);
        assert(m.current_packs()[i1].id == 0 * n + i1);
        assert(m.current_packs()[i2].id == 0 * n + i2);
    }
    assert forall|k: int|
        0 <= k < m.current_packs().len() && (#[trigger] m.current_packs()[k]).items.len()
            > 0 implies exists|i: int, j: int|
        0 <= i < m.players.len() && 0 <= j < m.players[i].pending.len()
            && #[trigger] m.players[i].pending[j] == m.current_packs()[k].id by {
        assert(m.players[k].pending[0] == m.current_packs()[k].id);
    }
    assert forall|r: int, k: int|
        m.current_round < r < m.packs_by_round.len() && 0 <= k
            < m.packs_by_round[r].len() implies (#[trigger] m.packs_by_round[r][k]).items.len()
        > 0 by {
        lemma_chunk_index_bound(r, k, num_rounds, n);
        assert(m.packs_by_round[r][k].items == deep[r * n + k]);
        assert(deep[r * n + k].len() > 0);
    }
}

// ---------------------------------------------------------------------------
// Pick preservation
// ---------------------------------------------------------------------------

/// What a pack position means: a non-negative position is the first pack
/// carrying the id, and `-1` means no pack carries it.
pub proof fn lemma_pack_position_props(packs: Seq<PackModel>, id: PackId)
    ensures
        ({
            let k = pack_position(packs, id);
            &&& k >= 0 ==> 0 <= k < packs.len() && packs[k].id == id
            &&& k == -1 ==> forall|j: int| 0 <= j < packs.len() ==> (#[trigger] packs[j]).id != id
            &&& k >= -1
        }),
{
    let ids = packs.map_values(|p: PackModel| p.id);
    ids.index_of_first_ensures(id);
    match ids.index_of_first(id) {
        Some(fi) => {
            assert(ids[fi] == id);
            assert(packs[fi].id == id);
        },
        None => {
            assert forall|j: int| 0 <= j < packs.len() implies (#[trigger] packs[j]).id != id by {
                if packs[j].id == id {
                    assert(ids[j] == id);
                    assert(ids.contains(id));
                }
            }
        },
    }
}

/// A successful pick moves one item from the head pack to the picker's
/// allocation and otherwise moves no item in or out of the draft.
pub proof fn lemma_pick_preserves_bag(m: DraftModel, pid: PlayerId, item: DraftItemId)
    requires
        m.wf(),
        m.pick_enabled(pid, item),
    ensures
        state_bag(m.spec_pick(pid, item)) =~= state_bag(m),
{
    broadcast use vstd::seq_lib::group_to_multiset_ensures;

    let m2 = m.spec_pick(pid, item);
    let i = m.player_idx(pid);
    let pack_id = m.players[i].pending[0];
    let k = m.head_pack_pos(i);
    let cur = m.current_packs();
    let pack = cur[k];
    let idx = first_index_of(pack.items, item);
    let new_pack = PackModel { id: pack.id, items: pack.items.remove(idx) };
    let picker = m.players[i];
    let moved = PlayerModel {
        allocated: picker.allocated.push(item),
        pending: picker.pending.drop_first(),
    };
    let players1 = m.players.update(i, moved);
    let cur2 = cur.update(k, new_pack);
    let packs1 = m.packs_by_round.update(m.current_round, cur2);
    m.turn_order.index_of_first_ensures(pid);
    assert(0 <= i < m.players.len());
    pack.items.index_of_first_ensures(item);
    assert(0 <= idx < pack.items.len() && pack.items[idx] == item);
    assert(m2.packs_by_round == packs1);
    assert forall|x: DraftItemId| state_bag(m2).count(x) == state_bag(m).count(x) by {
        lemma_players_bag_update(m.players, i, moved, x);
        assert(moved.allocated.to_multiset() =~= picker.allocated.to_multiset().insert(item));
        if new_pack.items.len() > 0 {
            let nx = m.next_idx(i);
            assert(0 <= nx < players1.len());
            let receiver = players1[nx];
            let gained = PlayerModel {
                allocated: receiver.allocated,
                pending: receiver.pending.push(pack_id),
            };
            assert(m2.players == players1.update(nx, gained));
            lemma_players_bag_update(players1, nx, gained, x);
        } else {
            assert(m2.players == players1);
        }
        assert(new_pack.items.to_multiset() =~= pack.items.to_multiset().remove(item));
        lemma_round_bag_update(cur, k, new_pack, x);
        lemma_rounds_bag_update(m.packs_by_round, m.current_round, cur2, x);
        assert(pack.items.to_multiset().count(item) >= 1);
    }
    assert(state_bag(m2) =~= state_bag(m));
}

/// A successful pick keeps the draft well formed.
#[verifier::rlimit(60)]
pub proof fn lemma_pick_preserves_wf(m: DraftModel, pid: PlayerId, item: DraftItemId)
    requires
        m.wf(),
        m.pick_enabled(pid, item),
    ensures
        m.spec_pick(pid, item).wf(),
        state_bag(m.spec_pick(pid, item)) =~= state_bag(m),
{
    broadcast use vstd::seq_lib::group_to_multiset_ensures;

    lemma_pick_preserves_bag(m, pid, item);
    let m2 = m.spec_pick(pid, item);
    let n = m.players.len() as int;
    let i = m.player_idx(pid);
    let picker = m.players[i];
    let pack_id = picker.pending[0];
    let k = m.head_pack_pos(i);
    let cur = m.current_packs();
    let pack = cur[k];
    let idx = first_index_of(pack.items, item);
    let new_pack = PackModel { id: pack.id, items: pack.items.remove(idx) };
    let nonempty = new_pack.items.len() > 0;
    let nx = m.next_idx(i);
    let cur2 = cur.update(k, new_pack);
    m.turn_order.index_of_first_ensures(pid);
    assert(0 <= i < n);
    assert(0 <= nx < n);
    pack.items.index_of_first_ensures(item);
    assert(0 <= idx < pack.items.len() && pack.items[idx] == item);
    lemma_pack_position_props(cur, pack_id);
    assert(cur[k].id == pack_id);
    assert(m2.current_packs() == cur2);
    assert(m2.turn_order == m.turn_order);
    assert(m2.players.len() == n);

    // The head pack id occurs in the old queues only at the picker's head.
    assert forall|a: int, b: int|
        0 <= a < n && 0 <= b < m.players[a].pending.len() && (a != i || b != 0) implies
        #[trigger] m.players[a].pending[b] != pack_id by {
        assert(m.players[i].pending[0] == pack_id);
    }

    // Pack ids are untouched, so every pack keeps its position.
    let ids = cur.map_values(|p: PackModel| p.id);
    let ids2 = cur2.map_values(|p: PackModel| p.id);
    assert(ids2 =~= ids);
    assert forall|e: PackId| #[trigger] pack_position(cur2, e) == pack_position(cur, e) by {
        assert(ids2 == ids);
    }
    assert forall|r: int, j: int|
        0 <= r < m2.packs_by_round.len() && 0 <= j < m2.packs_by_round[r].len() implies
        #[trigger] m2.packs_by_round[r][j].id == m.packs_by_round[r][j].id
            && m2.packs_by_round[r].len() == m.packs_by_round[r].len() by {
        if r == m.current_round && j == k {
            assert(m2.packs_by_round[r][j] == new_pack);
        }
    }

    // How each new queue reads in terms of the old ones.
    let dropped = picker.pending.drop_first();
    if nonempty {
        if nx == i {
            assert(m2.players[i].pending == dropped.push(pack_id));
            assert forall|a: int| 0 <= a < n && a != i implies #[trigger] m2.players[a]
                == m.players[a] by {}
        } else {
            assert(m2.players[i].pending == dropped);
            assert(m2.players[nx].pending == m.players[nx].pending.push(pack_id));
            assert(m2.players[nx].allocated == m.players[nx].allocated);
            assert forall|a: int| 0 <= a < n && a != i && a != nx implies #[trigger] m2.players[a]
                == m.players[a] by {}
        }
    } else {
        assert(m2.players[i].pending == dropped);
        assert forall|a: int| 0 <= a < n && a != i implies #[trigger] m2.players[a]
            == m.players[a] by {}
    }
    assert(m2.players[i].allocated == picker.allocated.push(item));

    // Each entry of a new queue is either an old entry away from the picker's
    // head, or the passed-on pack id at its new tail.
    assert forall|a: int, b: int|
        0 <= a < n && 0 <= b < m2.players[a].pending.len() implies {
        let kk = pack_position(cur2, #[trigger] m2.players[a].pending[b]);
        &&& 0 <= kk < cur2.len()
        &&& cur2[kk].items.len() > 0
    } by {
        let e = m2.players[a].pending[b];
        let tail_here = nonempty && ((nx == i && a == i && b == dropped.len()) || (nx != i && a
            == nx && b == m.players[a].pending.len()));
        if tail_here {
            assert(e == pack_id);
            assert(pack_position(cur2, e) == k);
            assert(cur2[k] == new_pack);
        } else {
            let b0: int = if a == i { b + 1 } else { b };
            assert(e == m.players[a].pending[b0]);
            assert(a != i || b0 != 0);
            assert(e != pack_id);
            let kk = pack_position(cur, e);
            assert(0 <= kk < cur.len() && cur[kk].items.len() > 0);
            lemma_pack_position_props(cur, e);
            assert(cur[kk].id == e);
            assert(kk != k);
            assert(cur2[kk] == cur[kk]);
        }
    }

    // The new queues still hold each pack id at most once.
    assert forall|a1: int, b1: int, a2: int, b2: int|
        0 <= a1 < n && 0 <= b1 < m2.players[a1].pending.len() && 0 <= a2 < n && 0 <= b2
            < m2.players[a2].pending.len() && (a1 != a2 || b1 != b2) implies
        #[trigger] m2.players[a1].pending[b1] != #[trigger] m2.players[a2].pending[b2] by {
        let e1 = m2.players[a1].pending[b1];
        let e2 = m2.players[a2].pending[b2];
        let tail1 = nonempty && ((nx == i && a1 == i && b1 == dropped.len()) || (nx != i && a1
            == nx && b1 == m.players[a1].pending.len()));
        let tail2 = nonempty && ((nx == i && a2 == i && b2 == dropped.len()) || (nx != i && a2
            == nx && b2 == m.players[a2].pending.len()));
        if tail1 && tail2 {
            assert(a1 == a2 && b1 == b2);
        } else if tail1 {
            let c0: int = if a2 == i { b2 + 1 } else { b2 };
            assert(e2 == m.players[a2].pending[c0]);
            assert(a2 != i || c0 != 0);
            assert(e2 != pack_id);
            assert(e1 == pack_id);
        } else if tail2 {
            let c0: int = if a1 == i { b1 + 1 } else { b1 };
            assert(e1 == m.players[a1].pending[c0]);
            assert(a1 != i || c0 != 0);
            assert(e1 != pack_id);
            assert(e2 == pack_id);
        } else {
            let c1: int = if a1 == i { b1 + 1 } else { b1 };
            let c2: int = if a2 == i { b2 + 1 } else { b2 };
            assert(e1 == m.players[a1].pending[c1]);
            assert(e2 == m.players[a2].pending[c2]);
            assert(a1 != a2 || c1 != c2);
        }
    }

    // Every still-filled pack of the round sits in exactly one queue.
    assert forall|p: int|
        0 <= p < cur2.len() && (#[trigger] cur2[p]).items.len() > 0 implies exists|a: int, b: int|
        0 <= a < n && 0 <= b < m2.players[a].pending.len() && #[trigger] m2.players[a].pending[b]
            == cur2[p].id by {
        if p == k {
            assert(cur2[k] == new_pack);
            assert(nonempty);
            assert(cur2[k].id == pack_id);
            if nx == i {
                assert(m2.players[i].pending[dropped.len() as int] == pack_id);
            } else {
                assert(m2.players[nx].pending[m.players[nx].pending.len() as int] == pack_id);
            }
        } else {
            assert(cur2[p] == cur[p]);
            assert(cur[p].items.len() > 0);
            let (a0, b0) = choose|a0: int, b0: int|
                0 <= a0 < n && 0 <= b0 < m.players[a0].pending.len()
                    && #[trigger] m.players[a0].pending[b0] == cur[p].id;
            assert(cur[p].id != pack_id);
            assert(a0 != i || b0 != 0);
            if a0 == i {
                assert(m2.players[i].pending[b0 - 1] == picker.pending[b0]);
            } else if nonempty && nx != i && a0 == nx {
                assert(m2.players[nx].pending[b0] == m.players[nx].pending[b0]);
            } else {
                assert(m2.players[a0].pending[b0] == m.players[a0].pending[b0]);
            }
        }
    }

    // Pack ids stay pairwise distinct.
    assert forall|r1: int, k1: int, r2: int, k2: int|
        0 <= r1 < m2.packs_by_round.len() && 0 <= k1 < m2.packs_by_round[r1].len() && 0 <= r2
            < m2.packs_by_round.len() && 0 <= k2 < m2.packs_by_round[r2].len() && (r1 != r2 || k1
            != k2) implies #[trigger] m2.packs_by_round[r1][k1].id
        != #[trigger] m2.packs_by_round[r2][k2].id by {
        assert(m2.packs_by_round[r1][k1].id == m.packs_by_round[r1][k1].id);
        assert(m2.packs_by_round[r2][k2].id == m.packs_by_round[r2][k2].id);
    }

    // Later rounds are untouched.
    assert forall|r: int, j: int|
        m2.current_round < r < m2.packs_by_round.len() && 0 <= j
            < m2.packs_by_round[r].len() implies (#[trigger] m2.packs_by_round[r][j]).items.len()
        > 0 by {
        assert(m2.packs_by_round[r] == m.packs_by_round[r]);
    }

    assert(state_bag(m2) =~= state_bag(m));
    assert forall|x: DraftItemId| #[trigger] state_bag(m2).count(x) <= 1 by {
        assert(state_bag(m2).count(x) == state_bag(m).count(x));
    }
}

/// The first position of `x` in `v`, scanning from the front.
fn find_u64(v: &Vec<u64>, x: u64) -> (r: Option<usize>)
    ensures
        match r {
            Some(i) => 0 <= i < v@.len() && v@[i as int] == x && i as int == first_index_of(v@, x),
            None => !v@.contains(x),
        },
{
    let n: usize = v.len();
    let mut i: usize = 0;
    while i < n
        invariant
            0 <= i <= n,
            n == v@.len(),
            forall|k: int| 0 <= k < i ==> v@[k] != x,
        decreases n - i,
    {
        if v[i] == x {
            proof {
                v@.index_of_first_ensures(x);
            }
            return Some(i);
        }
        i += 1;
    }
    None
}

impl DraftState {
    /// One pick by `player_id` of `picked_item_id`: the item moves from the
    /// head pack of the player's queue to the player's allocation; the pack
    /// leaves the queue and, if still non-empty, joins the tail of the next
    /// seat's queue. On an error the draft is left unchanged.
    pub fn pick(&mut self, player_id: PlayerId, picked_item_id: DraftItemId) -> (r: Result<
        (),
        DraftError,
    >)
        requires
            old(self)@.wf(),
        ensures
            final(self)@.wf(),
            final(self)@.turn_order == old(self)@.turn_order,
            final(self)@.current_round == old(self)@.current_round,
            final(self)@.direction == old(self)@.direction,
            final(self)@.packs_by_round.len() == old(self)@.packs_by_round.len(),
            match r {
                Ok(()) => {
                    &&& old(self)@.pick_enabled(player_id, picked_item_id)
                    &&& final(self)@ == old(self)@.spec_pick(player_id, picked_item_id)
                    &&& state_bag(final(self)@) == state_bag(old(self)@)
                },
                Err(e) => {
                    &&& final(self)@ == old(self)@
                    &&& !old(self)@.pick_enabled(player_id, picked_item_id)
                    &&& e == ({
                        if !old(self)@.has_player(player_id) {
                            DraftError::PlayerNotFound
                        } else if old(self)@.players[old(self)@.player_idx(player_id)].pending.len()
                            == 0 {
                            DraftError::NoPacks
                        } else {
                            DraftError::ItemNotInPack
                        }
                    })
                },
            },
    {
        let ghost m0 = self@;
        let i: usize = match find_u32(&self.turn_order, player_id) {
            None => {
                return Err(DraftError::PlayerNotFound);
            },
            Some(i) => i,
        };
        proof {
            assert(m0.player_idx(player_id) == i as int);
            assert(self@.players[i as int] == self.players@[i as int]@);
        }
        if self.players[i].pending_packs.len() == 0 {
            return Err(DraftError::NoPacks);
        }
        let pack_id: PackId = self.players[i].pending_packs[0];
        proof {
            assert(pack_id == m0.players[i as int].pending[0]);
            assert(m0.players[i as int].pending.len() > 0);
        }
        let ghost k_spec = m0.head_pack_pos(i as int);
        proof {
            assert(0 <= k_spec < m0.current_packs().len() && m0.current_packs()[k_spec].items.len()
                > 0);
        }
        let k: usize = match find_pack(&self.packs_by_round[self.current_round_idx], pack_id) {
            None => {
                proof {
                    assert(self@.current_packs() == pack_seq_view(
                        self.packs_by_round@[self.current_round_idx as int]@,
                    ));
                    assert(false);
                }
                return Err(DraftError::NoPacks);
            },
            Some(k) => k,
        };
        proof {
            assert(self@.current_packs() == pack_seq_view(
                self.packs_by_round@[self.current_round_idx as int]@,
            ));
            assert(k as int == k_spec);
        }
        let item_idx: usize = match find_u64(
            &self.packs_by_round[self.current_round_idx][k].items,
            picked_item_id,
        ) {
            None => {
                proof {
                    assert(self@.current_packs()[k as int].items == self.packs_by_round@[
                        self.current_round_idx as int]@[k as int]@.items);
                    assert(!m0.current_packs()[k_spec].items.contains(picked_item_id));
                }
                return Err(DraftError::ItemNotInPack);
            },
            Some(x) => x,
        };
        proof {
            assert(self@.current_packs()[k as int].items == self.packs_by_round@[
                self.current_round_idx as int]@[k as int]@.items);
            assert(m0.current_packs()[k_spec].items[item_idx as int] == picked_item_id);
            assert(m0.pick_enabled(player_id, picked_item_id));
            assert(item_idx as int == first_index_of(
                m0.current_packs()[k_spec].items,
                picked_item_id,
            ));
        }
        let ghost pv0 = self@.players;
        self.players[i].allocated_items.push(picked_item_id);
        proof {
            assert(self@.players =~= pv0.update(
                i as int,
                (PlayerModel {
                    allocated: pv0[i as int].allocated.push(picked_item_id),
                    pending: pv0[i as int].pending,
                }),
            ));
        }
        let ghost pv1 = self@.players;
        let popped = self.players[i].pending_packs.pop_front();
        proof {
            assert(popped == Some(pack_id));
            assert(self@.players =~= pv1.update(
                i as int,
                (PlayerModel {
                    allocated: pv1[i as int].allocated,
                    pending: pv1[i as int].pending.drop_first(),
                }),
            ));
        }
        let ghost rv0 = self@.packs_by_round;
        let removed = self.packs_by_round[self.current_round_idx][k].items.remove(item_idx);
        proof {
            assert(removed == picked_item_id);
            assert(self@.packs_by_round =~~= rv0.update(
                m0.current_round,
                rv0[m0.current_round].update(
                    k as int,
                    (PackModel {
                        id: pack_id,
                        items: rv0[m0.current_round][k as int].items.remove(item_idx as int),
                    }),
                ),
            ));
        }
        let pack_is_empty: bool = self.packs_by_round[self.current_round_idx][k].items.is_empty();
        if !pack_is_empty {
            let n: usize = self.turn_order.len();
            let nxt: usize = if self.draft_direction {
                (i + 1) % n
            } else {
                (i + n - 1) % n
            };
            proof {
                assert(nxt as int == m0.next_idx(i as int));
            }
            let ghost pv2 = self@.players;
            self.players[nxt].pending_packs.push_back(pack_id);
            proof {
                assert(self@.players =~= pv2.update(
                    nxt as int,
                    (PlayerModel {
                        allocated: pv2[nxt as int].allocated,
                        pending: pv2[nxt as int].pending.push(pack_id),
                    }),
                ));
            }
        }
        proof {
            let m2 = m0.spec_pick(player_id, picked_item_id);
            assert(self@.players =~~= m2.players);
            assert(self@.packs_by_round =~~= m2.packs_by_round);
            assert(self@.turn_order == m2.turn_order);
            assert(self@ == m2);
            lemma_pick_preserves_wf(m0, player_id, picked_item_id);
        }
        Ok(())
    }
}

/// Advancing past a finished round keeps the draft well formed and deals the
/// next round's packs one-per-seat.
pub proof fn lemma_next_round_wf(m: DraftModel)
    requires
        m.wf(),
        m.round_done(),
        m.rounds_remaining() > 0,
    ensures
        m.spec_next_round().wf(),
        state_bag(m.spec_next_round()) =~= state_bag(m),
{
    let m2 = m.spec_next_round();
    let n = m.players.len() as int;
    let nr = m.current_round + 1;
    let packs = m.packs_by_round[nr];
    assert(m2.current_packs() == packs);
    lemma_players_bag_allocated_only(m2.players, m.players);
    assert(state_bag(m2) =~= state_bag(m));
    assert forall|x: DraftItemId| #[trigger] state_bag(m2).count(x) <= 1 by {
        assert(state_bag(m2).count(x) == state_bag(m).count(x));
    }
    assert forall|q: int| 0 <= q < n implies (#[trigger] packs[q]).items.len() > 0 by {
        assert(m.packs_by_round[nr][q].items.len() > 0);
    }
    assert forall|i: int, j: int|
        0 <= i < m2.players.len() && 0 <= j < m2.players[i].pending.len() implies {
        let k = pack_position(m2.current_packs(), #[trigger] m2.players[i].pending[j]);
        &&& 0 <= k < m2.current_packs().len()
        &&& m2.current_packs()[k].items.len() > 0
    } by {
        assert(m2.players[i].pending == seq![packs[i].id]);
        assert(m2.players[i].pending[j] == packs[i].id);
        assert forall|a: int, b: int|
            0 <= a < packs.len() && 0 <= b < packs.len() && a != b implies (#[trigger] packs[a]).id
            != (#[trigger] packs[b]).id by {
            assert(m.packs_by_round[nr][a].id != m.packs_by_round[nr][b].id);
        }
        lemma_pack_position_of(packs, i);
    }
    assert forall|i1: int, j1: int, i2: int, j2: int|
        0 <= i1 < m2.players.len() && 0 <= j1 < m2.players[i1].pending.len() && 0 <= i2
            < m2.players.len() && 0 <= j2 < m2.players[i2].pending.len() && (i1 != i2 || j1
            != j2) implies #[trigger] m2.players[i1].pending[j1]
        != #[trigger] m2.players[i2].pending[j2] by {
        assert(m2.players[i1].pending[j1] == packs[i1].id);
        assert(m2.players[i2].pending[j2] == packs[i2].id);
        if i1 != i2 {
            assert(m.packs_by_round[nr][i1].id != m.packs_by_round[nr][i2].id);
        }
    }
    assert forall|k: int|
        0 <= k < m2.current_packs().len() && (#[trigger] m2.current_packs()[k]).items.len()
            > 0 implies exists|i: int, j: int|
        0 <= i < m2.players.len() && 0 <= j < m2.players[i].pending.len()
            && #[trigger] m2.players[i].pending[j] == m2.current_packs()[k].id by {
        assert(m2.players[k].pending[0] == packs[k].id);
    }
}

impl DraftState {
    /// Moves the draft to the next round: the round index advances, the
    /// direction flips, and one fresh pack is dealt to every seat.
    pub fn start_next_round(&mut self) -> (r: Result<(), DraftError>)
        requires
            old(self)@.wf(),
            old(self)@.round_done(),
            old(self)@.rounds_remaining() > 0,
        ensures
            r.is_ok(),
            final(self)@.wf(),
            final(self)@ == old(self)@.spec_next_round(),
            state_bag(final(self)@) == state_bag(old(self)@),
    {
        let ghost m0 = self@;
        proof {
            assert forall|i: int| 0 <= i < m0.players.len() implies (#[trigger] m0.players[i]).pending.len()
                == 0 by {
                if m0.players[i].pending.len() > 0 {
                    let k = pack_position(m0.current_packs(), m0.players[i].pending[0]);
                    assert(m0.current_packs()[k].items.len() > 0);
                    assert(m0.current_packs()[k].items.len() == 0);
                }
            }
        }
        let total_rounds: usize = self.packs_by_round.len();
        proof {
            assert(self.current_round_idx < total_rounds);
        }
        self.current_round_idx = self.current_round_idx + 1;
        self.draft_direction = !self.draft_direction;
        proof {
            assert(self@.players == m0.players);
            assert(self@.packs_by_round == m0.packs_by_round);
            assert(self@.current_round == m0.current_round + 1);
        }
        self.set_initial_round_packs();
        proof {
            let m2 = m0.spec_next_round();
            assert(self@.players =~~= m2.players);
            assert(self@ == m2);
            lemma_next_round_wf(m0);
        }
        Ok(())
    }
}

// ---------------------------------------------------------------------------
// Pack generation
// ---------------------------------------------------------------------------

/// The first `num_packs * pack_size` ids of `shuffled`, grouped into
/// consecutive packs of `pack_size`.
pub open spec fn spec_chunked_packs(shuffled: Seq<DraftItemId>, num_packs: int, pack_size: int) -> Seq<
    Seq<DraftItemId>,
> {
    Seq::new(num_packs as nat, |p: int| shuffled.subrange(p * pack_size, p * pack_size + pack_size))
}


/// A chunk's span `[p*ps, p*ps+ps)` lies within `np` chunks of size `ps`.
proof fn lemma_chunk_base_bound(p: int, np: int, ps: int)
    by (nonlinear_arith)
    requires
        0 <= p < np,
        0 <= ps,
    ensures
        0 <= p * ps,
        p * ps + ps <= np * ps,
{
}

/// Concatenation adds the two sides' item counts.
proof fn lemma_to_multiset_concat(a: Seq<DraftItemId>, b: Seq<DraftItemId>)
    ensures
        (a + b).to_multiset() =~= a.to_multiset().add(b.to_multiset()),
    decreases b.len(),
{
    broadcast use vstd::seq_lib::group_to_multiset_ensures;

    if b.len() == 0 {
        assert(a + b =~= a);
        assert(b.to_multiset() =~= Multiset::<DraftItemId>::empty());
    } else {
        lemma_to_multiset_concat(a, b.drop_last());
        assert(a + b =~= (a + b.drop_last()).push(b.last()));
        assert(b =~= b.drop_last().push(b.last()));
    }
}

/// Chunking consumes exactly the prefix: the packs together hold the first
/// `num_packs * pack_size` ids, each exactly once.
#[verifier::rlimit(30)]
pub proof fn lemma_chunked_flat_bag(shuffled: Seq<DraftItemId>, num_packs: int, pack_size: int)
    requires
        0 <= num_packs,
        0 <= pack_size,
        num_packs * pack_size <= shuffled.len(),
    ensures
        flat_bag(spec_chunked_packs(shuffled, num_packs, pack_size)) =~= shuffled.take(
            num_packs * pack_size,
        ).to_multiset(),
    decreases num_packs,
{
    broadcast use vstd::seq_lib::group_to_multiset_ensures;

    if num_packs == 0 {
        assert(num_packs * pack_size == 0) by (nonlinear_arith)
            requires
                num_packs == 0,
        ;
        assert(spec_chunked_packs(shuffled, 0, pack_size) =~= Seq::<Seq<DraftItemId>>::empty());
        assert(flat_bag(spec_chunked_packs(shuffled, 0, pack_size)) =~= Multiset::<
            DraftItemId,
        >::empty());
        assert(shuffled.take(0) =~= Seq::<DraftItemId>::empty());
        assert(Seq::<DraftItemId>::empty().to_multiset() =~= Multiset::<DraftItemId>::empty());
    } else {
        let np = num_packs - 1;
        assert(num_packs * pack_size == np * pack_size + pack_size) by (nonlinear_arith)
            requires
                np + 1 == num_packs,
        ;
        lemma_chunk_base_bound(np, num_packs, pack_size);
        lemma_chunked_flat_bag(shuffled, np, pack_size);
        let prev = spec_chunked_packs(shuffled, np, pack_size);
        let whole = spec_chunked_packs(shuffled, num_packs, pack_size);
        let last_chunk = shuffled.subrange(np * pack_size, np * pack_size + pack_size);
        assert(whole =~= prev.push(last_chunk));
        lemma_flat_bag_push(prev, last_chunk);
        assert(shuffled.take(num_packs * pack_size) =~= shuffled.take(np * pack_size)
            + last_chunk);
        lemma_to_multiset_concat(shuffled.take(np * pack_size), last_chunk);
        assert(flat_bag(whole) =~= flat_bag(prev).add(last_chunk.to_multiset()));
        assert(flat_bag(prev) == shuffled.take(np * pack_size).to_multiset());
        assert(shuffled.take(num_packs * pack_size).to_multiset() == shuffled.take(
            np * pack_size,
        ).to_multiset().add(last_chunk.to_multiset()));
    }
}

/// Splits the first `num_packs * pack_size` ids of `shuffled`, in order, into
/// `num_packs` consecutive packs; fails exactly when `shuffled` is too short.
#[verifier::loop_isolation(false)]
pub fn make_packs_from(num_packs: usize, pack_size: usize, shuffled: &Vec<DraftItemId>) -> (r:
    Result<Vec<PackContents>, DraftError>)
    requires
        num_packs * pack_size <= usize::MAX,
    ensures
        match r {
            Ok(packs) => {
                &&& num_packs * pack_size <= shuffled@.len()
                &&& packs@.len() == num_packs
                &&& packs.deep_view() == spec_chunked_packs(
                    shuffled@,
                    num_packs as int,
                    pack_size as int,
                )
            },
            Err(e) => {
                &&& num_packs * pack_size > shuffled@.len()
                &&& e == DraftError::PackGenInsufficientItems
            },
        },
{
    let required: usize = num_packs * pack_size;
    if required > shuffled.len() {
        return Err(DraftError::PackGenInsufficientItems);
    }
    let mut completed_packs: Vec<PackContents> = Vec::new();
    let mut p: usize = 0;
    while p < num_packs
        invariant
            0 <= p <= num_packs,
            num_packs * pack_size <= shuffled@.len(),
            completed_packs@.len() == p,
            forall|j: int|
                0 <= j < p ==> #[trigger] completed_packs.deep_view()[j] == shuffled@.subrange(
                    j * pack_size,
                    j * pack_size + pack_size,
                ),
        decreases num_packs - p,
    {
        proof {
            lemma_chunk_base_bound(p as int, num_packs as int, pack_size as int);
        }
        let base: usize = p * pack_size;
        let mut current_pack: PackContents = Vec::new();
        let mut q: usize = 0;
        while q < pack_size
            invariant
                0 <= q <= pack_size,
                base == p * pack_size,
                base + pack_size <= num_packs * pack_size,
                num_packs * pack_size <= shuffled@.len(),
                current_pack@.len() == q,
                forall|x: int| 0 <= x < q ==> current_pack@[x] == shuffled@[base + x],
            decreases pack_size - q,
        {
            current_pack.push(shuffled[base + q]);
            q += 1;
        }
        proof {
            assert(current_pack@ =~= shuffled@.subrange(
                p as int * pack_size,
                p as int * pack_size + pack_size,
            ));
        }
        let ghost prev = completed_packs.deep_view();
        let ghost cp = current_pack@;
        completed_packs.push(current_pack);
        proof {
            assert(completed_packs.deep_view() =~~= prev.push(cp));
        }
        p += 1;
    }
    proof {
        assert(completed_packs.deep_view() =~~= spec_chunked_packs(
            shuffled@,
            num_packs as int,
            pack_size as int,
        ));
    }
    Ok(completed_packs)
}

/// Shuffles the item list uniformly and deals the first
/// `num_packs * pack_size` ids into consecutive packs. Every pack has exactly
/// `pack_size` items, and no id is dealt more often than the list holds it.
pub fn make_random_packs(num_packs: usize, pack_size: usize, item_list: &Vec<DraftItemId>) -> (r:
    Result<Vec<PackContents>, DraftError>)
    requires
        num_packs * pack_size <= usize::MAX,
    ensures
        match r {
            Ok(packs) => {
                &&& num_packs * pack_size <= item_list@.len()
                &&& packs@.len() == num_packs
                &&& forall|j: int|
                    0 <= j < num_packs ==> (#[trigger] packs.deep_view()[j]).len() == pack_size
                &&& forall|x: DraftItemId| #[trigger]
                    flat_bag(packs.deep_view()).count(x) <= item_list@.to_multiset().count(x)
                &&& flat_bag(packs.deep_view()).len() == num_packs * pack_size
            },
            Err(e) => {
                &&& num_packs * pack_size > item_list@.len()
                &&& e == DraftError::PackGenInsufficientItems
            },
        },
{
    broadcast use vstd::seq_lib::group_to_multiset_ensures;

    let mut shuffled: Vec<DraftItemId> = item_list.clone();
    proof {
        assert forall|q: int| 0 <= q < item_list@.len() implies shuffled@[q] == item_list@[q] by {
            assert(cloned::<DraftItemId>(item_list@[q], shuffled@[q]));
        }
        assert(shuffled@ =~= item_list@);
    }
    crate::external::shuffle_ids(&mut shuffled);
    let r = make_packs_from(num_packs, pack_size, &shuffled);
    proof {
        if r is Ok {
            let packs = r->Ok_0;
            let total = num_packs as int * pack_size as int;
            lemma_chunked_flat_bag(shuffled@, num_packs as int, pack_size as int);
            assert(flat_bag(packs.deep_view()) =~= shuffled@.take(total).to_multiset());
            assert(shuffled@ =~= shuffled@.take(total) + shuffled@.skip(total));
            lemma_to_multiset_concat(shuffled@.take(total), shuffled@.skip(total));
            assert(shuffled@.to_multiset() == item_list@.to_multiset());
            assert forall|j: int| 0 <= j < num_packs implies (#[trigger] packs.deep_view()[j]).len()
                == pack_size by {
                lemma_chunk_base_bound(j, num_packs as int, pack_size as int);
                assert(packs.deep_view()[j] == shuffled@.subrange(
                    j * pack_size,
                    j * pack_size + pack_size,
                ));
            }
            assert(shuffled@.take(total).to_multiset().len() == shuffled@.take(total).len());
        }
    }
    r
}

// ---------------------------------------------------------------------------
// Update listeners and the lobby
// ---------------------------------------------------------------------------

/// The abstract value of one parked listener.
pub struct ListenerModel {
    /// Whether the reply channel has not been consumed yet.
    pub live: bool,
    /// The fingerprint the client was last told.
    pub fingerprint: GameState,
}

/// One parked long-poll client: its one-shot reply channel and the
/// game-state fingerprint it last saw. The channel is consumed on first
/// flush; later flushes are no-ops.
pub struct UpdateListener {
    response_channel: Option<tokio::sync::oneshot::Sender<LobbyManagerResponse>>,
    game_state: GameState,
}

impl View for UpdateListener {
    type V = ListenerModel;

    closed spec fn view(&self) -> ListenerModel {
        ListenerModel { live: self.response_channel is Some, fingerprint: self.game_state }
    }
}

impl UpdateListener {
    /// A listener parked for a client that last saw `game_state`.
    pub fn new(
        response_channel: tokio::sync::oneshot::Sender<LobbyManagerResponse>,
        game_state: GameState,
    ) -> (l: UpdateListener)
        ensures
            l@.live,
            l@.fingerprint == game_state,
    {
        UpdateListener { response_channel: Some(response_channel), game_state }
    }

    /// Wakes the client with an update-ready reply, consuming the channel.
    /// A second flush does nothing; a receiver that went away is an error the
    /// callers log and otherwise ignore.
    pub fn flush(&mut self) -> (r: Result<(), DraftError>)
        ensures
            !final(self)@.live,
            final(self)@.fingerprint == old(self)@.fingerprint,
            !old(self)@.live ==> r.is_ok(),
            r is Err ==> r->Err_0 == DraftError::ListenerClosed,
    {
        let channel = self.response_channel.take();
        match channel {
            None => Ok(()),
            Some(ch) => {
                if crate::external::send_response(ch, LobbyManagerResponse::UpdateReady) {
                    Ok(())
                } else {
                    Err(DraftError::ListenerClosed)
                }
            },
        }
    }
}

/// A pick deadline: the instant, in milliseconds, by which the pick at a
/// given round and pick index must be made.
#[derive(Debug, Clone, Copy, PartialEq, Eq, Structural)]
pub struct DraftDeadline {
    pub round_number: usize,
    pub pick_number: usize,
    pub deadline: u64,
}

/// The deadline for pick `i` of a round that started at `now`: each earlier
/// deadline plus the slush time plus the per-item time for the items left.
pub open spec fn spec_deadline_at(now: int, pack_size: int, i: int) -> int
    decreases i + 1,
{
    if i < 0 {
        now
    } else {
        spec_deadline_at(now, pack_size, i - 1) + SLUSH_TIME_MS + TIME_PER_PACK_ITEM_MS * (
        pack_size - i)
    }
}

/// The whole deadline schedule of a round that started at `now`.
pub open spec fn spec_deadline_seq(now: int, pack_size: int) -> Seq<u64> {
    Seq::new(pack_size as nat, |i: int| spec_deadline_at(now, pack_size, i) as u64)
}

/// Listeners kept by a flush pass: those whose stored fingerprint still
/// matches and for whom the draft is not finished.
pub open spec fn spec_retained(ls: Seq<ListenerModel>, fp: int, done: bool) -> Seq<ListenerModel> {
    ls.filter(|l: ListenerModel| l.fingerprint as int == fp && !done)
}

/// The abstract value of a lobby.
pub struct LobbyModel {
    /// The draft set this lobby plays.
    pub set_name: Seq<char>,
    /// How many players may join.
    pub capacity: int,
    /// The running draft, once started.
    pub draft: Option<DraftModel>,
    /// Joined players: id and name, in join order.
    pub joined: Seq<(PlayerId, Seq<char>)>,
    /// Parked listeners, parallel to `joined`.
    pub listeners: Seq<Seq<ListenerModel>>,
    /// Per round, the deadline instant of each pick index, in milliseconds.
    pub deadlines: Seq<Seq<u64>>,
}

impl LobbyModel {
    /// The joined players' ids, in join order.
    pub open spec fn joined_ids(self) -> Seq<PlayerId> {
        self.joined.map_values(|p: (PlayerId, Seq<char>)| p.0)
    }

    /// The joined players' names, in join order.
    pub open spec fn joined_names(self) -> Seq<Seq<char>> {
        self.joined.map_values(|p: (PlayerId, Seq<char>)| p.1)
    }

    /// Whether a player with this id has joined.
    pub open spec fn has_joined(self, pid: PlayerId) -> bool {
        self.joined_ids().contains(pid)
    }

    /// The join position of the player with this id.
    pub open spec fn joined_idx(self, pid: PlayerId) -> int {
        first_index_of(self.joined_ids(), pid)
    }

    /// The display name of the joined player with this id.
    pub open spec fn name_of(self, pid: PlayerId) -> Seq<char> {
        self.joined[self.joined_idx(pid)].1
    }

    /// Whether the draft has started.
    pub open spec fn started(self) -> bool {
        self.draft is Some
    }

    /// The pack size the rounds table gives this lobby's player count.
    pub open spec fn pack_size(self) -> int {
        spec_rounds_and_pack_size(self.joined.len() as nat).1 as int
    }

    /// Whether the draft has started and run out of rounds and packs.
    pub open spec fn finished(self) -> bool {
        match self.draft {
            Option::None => false,
            Option::Some(d) => d.draft_done(),
        }
    }

    /// The per-player fingerprint: the player count in the high field, the
    /// pack-pending bit in the middle, the allocated count in the low field.
    /// Before the start only the player count shows; an id unknown to a
    /// running draft reads zero.
    pub open spec fn spec_fingerprint(self, pid: PlayerId) -> int {
        let np = self.joined.len() as int;
        match self.draft {
            Option::None => np * 1048576,
            Option::Some(d) => {
                if !d.has_player(pid) {
                    0
                } else {
                    let pl = d.players[d.player_idx(pid)];
                    pl.allocated.len() + (if pl.pending.len() > 0 {
                        1024int
                    } else {
                        0int
                    }) + 1048576 * np
                }
            },
        }
    }

    /// Every parked listener still matches the fingerprint it was parked
    /// under, and none is parked once the draft is finished.
    pub open spec fn listeners_ok(self) -> bool {
        forall|i: int, l: int|
            0 <= i < self.listeners.len() && 0 <= l < self.listeners[i].len() ==> ((
            #[trigger] self.listeners[i][l]).fingerprint as int == self.spec_fingerprint(
                self.joined[i].0,
            ) && !self.finished())
    }

    /// The well-formedness invariant of a lobby.
    pub open spec fn wf(self) -> bool {
        &&& 1 <= self.capacity <= 6
        &&& self.joined.len() <= self.capacity
        &&& self.joined_ids().no_duplicates()
        &&& self.joined_names().no_duplicates()
        &&& self.listeners.len() == self.joined.len()
        &&& match self.draft {
            Option::None => self.deadlines.len() == 0,
            Option::Some(d) => {
                &&& d.wf()
                &&& d.turn_order == self.joined_ids()
                &&& self.joined.len() >= 1
                &&& self.deadlines.len() == d.current_round + 1
                &&& forall|r: int|
                    0 <= r < self.deadlines.len() ==> (#[trigger] self.deadlines[r]).len()
                        == self.pack_size()
            },
        }
    }
}

/// One joined player: id, display name, and parked listeners.
struct JoinedPlayer {
    id: PlayerId,
    name: String,
    listeners: std::collections::VecDeque<UpdateListener>,
}

/// A lobby: admission before the start, then the running draft, its pick
/// deadlines, and the parked long-poll listeners.
pub struct DraftLobby {
    set_name: String,
    player_capacity: usize,
    draft_state: Option<DraftState>,
    joined: Vec<JoinedPlayer>,
    round_deadlines: Vec<Vec<u64>>,
}

impl View for DraftLobby {
    type V = LobbyModel;

    closed spec fn view(&self) -> LobbyModel {
        LobbyModel {
            set_name: self.set_name@,
            capacity: self.player_capacity as int,
            draft: match self.draft_state {
                Option::None => Option::None,
                Option::Some(d) => Option::Some(d@),
            },
            joined: Seq::new(self.joined@.len(), |i: int| (self.joined@[i].id, self.joined@[i].name@)),
            listeners: Seq::new(
                self.joined@.len(),
                |i: int|
                    Seq::new(
                        self.joined@[i].listeners@.len(),
                        |l: int| self.joined@[i].listeners@[l]@,
                    ),
            ),
            deadlines: Seq::new(self.round_deadlines@.len(), |r: int| self.round_deadlines@[r]@),
        }
    }
}

/// The players' bag holds at least any one player's pick count.
proof fn lemma_players_bag_member_len(players: Seq<PlayerModel>, i: int)
    requires
        0 <= i < players.len(),
    ensures
        players_bag(players).len() >= players[i].allocated.to_multiset().len(),
    decreases i,
{
    if i == 0 {
    } else {
        lemma_players_bag_member_len(players.drop_first(), i - 1);
    }
}

/// In a well-formed draft no player holds more items than the draft has.
pub proof fn lemma_alloc_bounded(d: DraftModel, i: int)
    requires
        d.wf(),
        0 <= i < d.players.len(),
    ensures
        d.players[i].allocated.len() <= MAX_DRAFT_ITEMS,
{
    broadcast use vstd::seq_lib::group_to_multiset_ensures;

    lemma_players_bag_member_len(d.players, i);
    assert(state_bag(d).len() == players_bag(d.players).len() + rounds_bag(d.packs_by_round).len());
}

impl DraftLobby {
    /// An empty lobby for `set_name`, admitting up to `player_capacity`
    /// players.
    pub fn new(set_name: String, player_capacity: usize) -> (lobby: DraftLobby)
        requires
            1 <= player_capacity <= 6,
        ensures
            lobby@.wf(),
            lobby@.listeners_ok(),
            lobby@.set_name == set_name@,
            lobby@.capacity == player_capacity,
            lobby@.joined.len() == 0,
            !lobby@.started(),
    {
        let lobby = DraftLobby {
            set_name,
            player_capacity,
            draft_state: None,
            joined: Vec::new(),
            round_deadlines: Vec::new(),
        };
        proof {
            assert(lobby@.joined =~= Seq::<(PlayerId, Seq<char>)>::empty());
            assert(lobby@.joined_ids() =~= Seq::<PlayerId>::empty());
            assert(lobby@.joined_names() =~= Seq::<Seq<char>>::empty());
            assert(lobby@.listeners =~= Seq::<Seq<ListenerModel>>::empty());
            assert(lobby@.deadlines =~= Seq::<Seq<u64>>::empty());
        }
        lobby
    }

    /// The draft set this lobby plays.
    pub fn get_set(&self) -> (r: &String)
        ensures
            r@ == self@.set_name,
    {
        &self.set_name
    }

    /// Whether the draft has started.
    pub fn draft_has_started(&self) -> (r: bool)
        ensures
            r == self@.started(),
    {
        self.draft_state.is_some()
    }

    /// Whether the draft has started and handed out every item.
    pub fn draft_is_finished(&self) -> (r: bool)
        requires
            self@.wf(),
        ensures
            r == self@.finished(),
    {
        match &self.draft_state {
            None => false,
            Some(d) => d.draft_is_done(),
        }
    }

    /// Whether some joined player carries this id.
    fn has_joined_id(&self, id: PlayerId) -> (r: bool)
        ensures
            r == self@.has_joined(id),
    {
        let n: usize = self.joined.len();
        let mut i: usize = 0;
        while i < n
            invariant
                0 <= i <= n,
                n == self.joined@.len(),
                n == self@.joined_ids().len(),
                forall|k: int| 0 <= k < n ==> #[trigger] self@.joined_ids()[k] == self.joined@[k].id,
                forall|k: int| 0 <= k < i ==> self.joined@[k].id != id,
            decreases n - i,
        {
            if self.joined[i].id == id {
                proof {
                    assert(self@.joined_ids()[i as int] == id);
                }
                return true;
            }
            i += 1;
        }
        proof {
            if self@.joined_ids().contains(id) {
                let k = choose|k: int| 0 <= k < n && self@.joined_ids()[k] == id;
                assert(self.joined@[k].id == id);
            }
        }
        false
    }

    /// A player id no joined player carries: freshly drawn at random, with a
    /// deterministic sweep as a fallback against collisions.
    fn generate_player_id(&self) -> (id: PlayerId)
        requires
            self@.wf(),
        ensures
            !self@.has_joined(id),
    {
        let mut attempts: usize = 0;
        while attempts < 32
            invariant
                self@.wf(),
            decreases 32 - attempts,
        {
            let candidate: PlayerId = crate::external::random_u32();
            if !self.has_joined_id(candidate) {
                return candidate;
            }
            attempts += 1;
        }
        let mut c: u32 = 0;
        while c < 7
            invariant
                0 <= c <= 7,
                self@.wf(),
                forall|k: u32| k < c ==> self@.has_joined(k),
            decreases 7 - c,
        {
            if !self.has_joined_id(c) {
                return c;
            }
            c += 1;
        }
        proof {
            let ids = self@.joined_ids();
            assert(self@.has_joined(0u32));
            assert(self@.has_joined(1u32));
            assert(self@.has_joined(2u32));
            assert(self@.has_joined(3u32));
            assert(self@.has_joined(4u32));
            assert(self@.has_joined(5u32));
            assert(self@.has_joined(6u32));
            let i0 = first_index_of(ids, 0u32);
            let i1 = first_index_of(ids, 1u32);
            let i2 = first_index_of(ids, 2u32);
            let i3 = first_index_of(ids, 3u32);
            let i4 = first_index_of(ids, 4u32);
            let i5 = first_index_of(ids, 5u32);
            let i6 = first_index_of(ids, 6u32);
            ids.index_of_first_ensures(0u32);
            ids.index_of_first_ensures(1u32);
            ids.index_of_first_ensures(2u32);
            ids.index_of_first_ensures(3u32);
            ids.index_of_first_ensures(4u32);
            ids.index_of_first_ensures(5u32);
            ids.index_of_first_ensures(6u32);
            assert(ids.len() <= 6);
            assert(false);
        }
        0
    }

    /// The fingerprint of everything `player_id` can see: player count,
    /// pack-pending bit and allocated count, packed into one integer.
    pub fn compute_state(&self, player_id: &PlayerId) -> (r: GameState)
        requires
            self@.wf(),
        ensures
            r as int == self@.spec_fingerprint(*player_id),
    {
        let num_players: u64 = self.joined.len() as u64;
        match &self.draft_state {
            None => num_players * 1048576,
            Some(d) => {
                match d.get_player_state(player_id) {
                    None => 0,
                    Some(ps) => {
                        proof {
                            assert(self@.draft == Some(d@));
                            assert(d@.wf());
                            d@.turn_order.index_of_first_ensures(*player_id);
                            lemma_alloc_bounded(d@, d@.player_idx(*player_id));
                        }
                        let has_pending: u64 = if ps.pending_packs.len() > 0 {
                            1
                        } else {
                            0
                        };
                        let num_drafted: u64 = ps.allocated_items.len() as u64;
                        num_drafted + 1024 * has_pending + 1048576 * num_players
                    },
                }
            },
        }
    }
}

/// The listeners of one player, abstractly.
pub open spec fn listeners_view(s: Seq<UpdateListener>) -> Seq<ListenerModel> {
    Seq::new(s.len(), |l: int| s[l]@)
}

/// The rounds table keeps every product this module computes small.
proof fn lemma_table_bounds(n: nat)
    requires
        1 <= n <= 6,
    ensures
        ({
            let (nr, ps) = spec_rounds_and_pack_size(n);
            &&& 1 <= nr <= 3
            &&& 4 <= ps <= 8
            &&& nr * n <= 18
            &&& (nr * n) * ps <= 144
        }),
{
    let (nr, ps) = spec_rounds_and_pack_size(n);
    assert(nr * n <= 18) by (nonlinear_arith)
        requires
            1 <= n <= 6,
            nr <= 3,
    ;
    assert((nr * n) * ps <= 144) by (nonlinear_arith)
        requires
            nr * n <= 18,
            ps <= 8,
    ;
}

impl DraftLobby {
    /// Admits a player under `name`: refused once the draft has started, when
    /// the name is taken, or when the lobby is full; otherwise the player gets
    /// a fresh random id and an empty listener list, and parked listeners are
    /// rechecked against the new player count.
    #[verifier::loop_isolation(false)]
    pub fn add_player(&mut self, name: String) -> (r: Result<PlayerId, DraftError>)
        requires
            old(self)@.wf(),
        ensures
            final(self)@.wf(),
            final(self)@.set_name == old(self)@.set_name,
            final(self)@.capacity == old(self)@.capacity,
            match r {
                Ok(id) => {
                    &&& !old(self)@.started()
                    &&& !old(self)@.joined_names().contains(name@)
                    &&& old(self)@.joined.len() < old(self)@.capacity
                    &&& !old(self)@.has_joined(id)
                    &&& final(self)@.joined == old(self)@.joined.push((id, name@))
                    &&& final(self)@.draft == old(self)@.draft
                    &&& final(self)@.deadlines == old(self)@.deadlines
                    &&& final(self)@.listeners.len() == old(self)@.listeners.len() + 1
                    &&& final(self)@.listeners.last() =~= Seq::<ListenerModel>::empty()
                    &&& forall|i: int|
                        0 <= i < old(self)@.listeners.len() ==> #[trigger] final(self)@.listeners[i]
                            == spec_retained(
                            old(self)@.listeners[i],
                            final(self)@.spec_fingerprint(final(self)@.joined[i].0),
                            final(self)@.finished(),
                        )
                    &&& final(self)@.listeners_ok()
                },
                Err(e) => {
                    &&& final(self)@ == old(self)@
                    &&& e == ({
                        if old(self)@.started() {
                            DraftError::AlreadyStarted
                        } else if old(self)@.joined_names().contains(name@) {
                            DraftError::NameConflict
                        } else {
                            DraftError::LobbyFull
                        }
                    })
                    &&& (old(self)@.started() || old(self)@.joined_names().contains(name@) || old(
                        self,
                    )@.joined.len() >= old(self)@.capacity)
                },
            },
    {
        if self.draft_state.is_some() {
            return Err(DraftError::AlreadyStarted);
        }
        let n: usize = self.joined.len();
        let mut i: usize = 0;
        while i < n
            invariant
                0 <= i <= n,
                n == self.joined@.len(),
                self@ == old(self)@,
                forall|k: int| 0 <= k < n ==> #[trigger] self@.joined_names()[k]
                    == self.joined@[k].name@,
                forall|k: int| 0 <= k < i ==> self.joined@[k].name@ != name@,
            decreases n - i,
        {
            if self.joined[i].name.eq(&name) {
                proof {
                    assert(self@.joined_names()[i as int] == name@);
                }
                return Err(DraftError::NameConflict);
            }
            i += 1;
        }
        proof {
            if self@.joined_names().contains(name@) {
                let k = choose|k: int| 0 <= k < n && self@.joined_names()[k] == name@;
                assert(self.joined@[k].name@ == name@);
            }
        }
        if n >= self.player_capacity {
            return Err(DraftError::LobbyFull);
        }
        let id: PlayerId = self.generate_player_id();
        let new_player = JoinedPlayer {
            id,
            name,
            listeners: std::collections::VecDeque::new(),
        };
        let ghost m0 = old(self)@;
        self.joined.push(new_player);
        proof {
            assert(self@.joined =~= m0.joined.push((id, self.joined@[n as int].name@)));
            assert(self@.joined_ids() =~= m0.joined_ids().push(id));
            assert(self@.joined_names() =~= m0.joined_names().push(self.joined@[n as int].name@));
            assert(self@.listeners =~~= m0.listeners.push(Seq::<ListenerModel>::empty()));
            assert(self@.deadlines == m0.deadlines);
        }
        self.check_listeners();
        Ok(id)
    }

    /// Flushes every parked listener whose stored fingerprint no longer
    /// matches, or everyone once the draft is finished; keeps the rest in
    /// insertion order. A listener whose client went away is dropped quietly.
    #[verifier::loop_isolation(false)]
    fn check_listeners(&mut self)
        requires
            old(self)@.wf(),
        ensures
            final(self)@.wf(),
            final(self)@.set_name == old(self)@.set_name,
            final(self)@.capacity == old(self)@.capacity,
            final(self)@.draft == old(self)@.draft,
            final(self)@.joined == old(self)@.joined,
            final(self)@.deadlines == old(self)@.deadlines,
            final(self)@.listeners.len() == old(self)@.listeners.len(),
            forall|i: int|
                0 <= i < old(self)@.listeners.len() ==> #[trigger] final(self)@.listeners[i]
                    == spec_retained(
                    old(self)@.listeners[i],
                    old(self)@.spec_fingerprint(old(self)@.joined[i].0),
                    old(self)@.finished(),
                ),
            final(self)@.listeners_ok(),
    {
        broadcast use vstd::seq_lib::group_filter_ensures;
        broadcast use Seq::filter_distributes_over_add;

        let ghost m0 = old(self)@;
        let n: usize = self.joined.len();
        let mut fps: Vec<GameState> = Vec::new();
        let mut i: usize = 0;
        while i < n
            invariant
                0 <= i <= n,
                n == self.joined@.len(),
                self@ == m0,
                m0.wf(),
                fps@.len() == i,
                forall|k: int| 0 <= k < i ==> #[trigger] fps@[k] as int == m0.spec_fingerprint(
                    m0.joined[k].0,
                ),
            decreases n - i,
        {
            proof {
                assert(self@.joined[i as int].0 == self.joined@[i as int].id);
            }
            let id: PlayerId = self.joined[i].id;
            let fp: GameState = self.compute_state(&id);
            fps.push(fp);
            i += 1;
        }
        let done: bool = self.draft_is_finished();
        let mut i: usize = 0;
        while i < n
            invariant
                0 <= i <= n,
                n == self.joined@.len(),
                m0.wf(),
                fps@.len() == n,
                forall|k: int| 0 <= k < n ==> #[trigger] fps@[k] as int == m0.spec_fingerprint(
                    m0.joined[k].0,
                ),
                done == m0.finished(),
                self@.set_name == m0.set_name,
                self@.capacity == m0.capacity,
                self@.draft == m0.draft,
                self@.joined == m0.joined,
                self@.deadlines == m0.deadlines,
                self@.listeners.len() == n,
                m0.listeners.len() == n,
                forall|k: int|
                    0 <= k < i ==> #[trigger] self@.listeners[k] == spec_retained(
                        m0.listeners[k],
                        m0.spec_fingerprint(m0.joined[k].0),
                        m0.finished(),
                    ),
                forall|k: int| i <= k < n ==> #[trigger] self@.listeners[k] == m0.listeners[k],
            decreases n - i,
        {
            let ghost fp_i = m0.spec_fingerprint(m0.joined[i as int].0);
            let ghost pred = (|l: ListenerModel| l.fingerprint as int == fp_i && !m0.finished());
            let mut work: std::collections::VecDeque<UpdateListener> =
                std::collections::VecDeque::new();
            let ghost pre_swap = self@;
            core::mem::swap(&mut self.joined[i].listeners, &mut work);
            proof {
                assert(pre_swap.listeners[i as int] == m0.listeners[i as int]);
                assert forall|l: int| 0 <= l < work@.len() implies #[trigger] listeners_view(
                    work@,
                )[l] == pre_swap.listeners[i as int][l] by {
                    assert(listeners_view(work@)[l] == work@[l]@);
                }
                assert(listeners_view(work@) =~= m0.listeners[i as int]);
                assert(listeners_view(work@) == m0.listeners[i as int]);
                assert(self@.listeners =~~= pre_swap.listeners.update(
                    i as int,
                    Seq::<ListenerModel>::empty(),
                ));
                assert(self@.joined =~= pre_swap.joined);
            }
            let mut retained: std::collections::VecDeque<UpdateListener> =
                std::collections::VecDeque::new();
            let m: usize = work.len();
            let mut j: usize = 0;
            proof {
                reveal(Seq::filter);
                assert(listeners_view(work@).take(0) =~= Seq::<ListenerModel>::empty());
                assert(Seq::<ListenerModel>::empty().filter(pred) =~= Seq::<ListenerModel>::empty());
                assert(listeners_view(retained@) =~= Seq::<ListenerModel>::empty());
            }
            let ghost work0 = listeners_view(work@);
            while j < m
                invariant
                    0 <= j <= m,
                    m == work0.len(),
                    work0.len() == j + work@.len(),
                    listeners_view(work@) =~= work0.skip(j as int),
                    fps@.len() == n,
                    0 <= i < n,
                    fps@[i as int] as int == fp_i,
                    done == m0.finished(),
                    pred == (|l: ListenerModel| l.fingerprint as int == fp_i && !m0.finished()),
                    listeners_view(retained@) =~= work0.take(j as int).filter(pred),
                decreases m - j,
            {
                proof {
                    assert(work0.skip(j as int)[0] == work0[j as int]);
                }
                let ghost wpre = work@;
                let mut l: UpdateListener = work.pop_front().unwrap();
                proof {
                    assert(listeners_view(wpre)[0] == wpre[0]@);
                    assert(l@ == work0[j as int]);
                    assert forall|t: int| 0 <= t < work@.len() implies listeners_view(work@)[t]
                        == work0[j + 1 + t] by {
                        assert(work@[t] == wpre[t + 1]);
                        assert(listeners_view(wpre)[t + 1] == wpre[t + 1]@);
                        assert(listeners_view(wpre)[t + 1] == work0.skip(j as int)[t + 1]);
                    }
                    assert(listeners_view(work@) =~= work0.skip(j + 1));
                }
                if l.game_state != fps[i] || done {
                    let _flush_outcome = l.flush();
                    proof {
                        reveal(Seq::filter);
                        assert(!pred(work0[j as int]));
                        assert(work0.take(j + 1) =~= work0.take(j as int).push(work0[j as int]));
                        assert(work0.take(j as int).push(work0[j as int]) =~= work0.take(j as int)
                            + seq![work0[j as int]]);
                        assert(seq![work0[j as int]].drop_last() =~= Seq::<
                            ListenerModel,
                        >::empty());
                        assert(Seq::<ListenerModel>::empty().filter(pred) =~= Seq::<
                            ListenerModel,
                        >::empty());
                        assert(seq![work0[j as int]].last() == work0[j as int]);
                        assert(seq![work0[j as int]].filter(pred) =~= Seq::<
                            ListenerModel,
                        >::empty());
                        assert(listeners_view(retained@) =~= work0.take(j + 1).filter(pred));
                    }
                } else {
                    let ghost pre_ret = listeners_view(retained@);
                    retained.push_back(l);
                    proof {
                        reveal(Seq::filter);
                        assert(pred(work0[j as int]));
                        assert(listeners_view(retained@) =~= pre_ret.push(work0[j as int]));
                        assert(work0.take(j + 1) =~= work0.take(j as int).push(work0[j as int]));
                        assert(work0.take(j as int).push(work0[j as int]) =~= work0.take(j as int)
                            + seq![work0[j as int]]);
                        assert(seq![work0[j as int]].drop_last() =~= Seq::<
                            ListenerModel,
                        >::empty());
                        assert(Seq::<ListenerModel>::empty().filter(pred) =~= Seq::<
                            ListenerModel,
                        >::empty());
                        assert(seq![work0[j as int]].last() == work0[j as int]);
                        assert(seq![work0[j as int]].filter(pred) =~= seq![work0[j as int]]);
                        assert(listeners_view(retained@) =~= work0.take(j + 1).filter(pred));
                    }
                }
                j += 1;
            }
            let ghost pre_back = self@;
            core::mem::swap(&mut self.joined[i].listeners, &mut retained);
            proof {
                assert(work0.take(m as int) =~= work0);
                assert(listeners_view(self.joined@[i as int].listeners@) =~= work0.filter(pred));
                assert(self@.listeners =~~= pre_back.listeners.update(
                    i as int,
                    work0.filter(pred),
                ));
                assert(self@.joined =~= pre_back.joined);
                assert(spec_retained(m0.listeners[i as int], fp_i, m0.finished()) == work0.filter(
                    pred,
                ));
            }
            i += 1;
        }
        proof {
            assert forall|a: int, l: int|
                0 <= a < self@.listeners.len() && 0 <= l
                    < self@.listeners[a].len() implies ((#[trigger] self@.listeners[a][l]).fingerprint
                as int == self@.spec_fingerprint(self@.joined[a].0) && !self@.finished()) by {
                let fp_a = m0.spec_fingerprint(m0.joined[a].0);
                let pr = (|lm: ListenerModel| lm.fingerprint as int == fp_a && !m0.finished());
                assert(self@.listeners[a] == m0.listeners[a].filter(pr));
                assert(pr(self@.listeners[a][l]));
                assert(self@.spec_fingerprint(self@.joined[a].0) == fp_a);
            }
        }
    }

    /// Parks a listener for `player_id` polling with `game_state`, or wakes
    /// it at once when the player is unknown here, the draft is finished, or
    /// the fingerprint already differs.
    #[verifier::loop_isolation(false)]
    pub fn add_listener(
        &mut self,
        player_id: PlayerId,
        game_state: GameState,
        response_channel: tokio::sync::oneshot::Sender<LobbyManagerResponse>,
    ) -> (r: Result<(), DraftError>)
        requires
            old(self)@.wf(),
            old(self)@.listeners_ok(),
        ensures
            final(self)@.wf(),
            final(self)@.listeners_ok(),
            final(self)@.set_name == old(self)@.set_name,
            final(self)@.capacity == old(self)@.capacity,
            final(self)@.draft == old(self)@.draft,
            final(self)@.joined == old(self)@.joined,
            final(self)@.deadlines == old(self)@.deadlines,
            ({
                let parked = old(self)@.has_joined(player_id) && !old(self)@.finished() && old(
                    self,
                )@.spec_fingerprint(player_id) == game_state as int;
                &&& if parked {
                    final(self)@.listeners =~~= old(self)@.listeners.update(
                        old(self)@.joined_idx(player_id),
                        old(self)@.listeners[old(self)@.joined_idx(player_id)].push(
                            (ListenerModel { live: true, fingerprint: game_state }),
                        ),
                    )
                } else {
                    final(self)@.listeners == old(self)@.listeners
                }
                &&& parked ==> r.is_ok()
            }),
    {
        let current_state: GameState = self.compute_state(&player_id);
        let mut listener = UpdateListener::new(response_channel, game_state);
        if current_state != game_state {
            return listener.flush();
        }
        if self.draft_is_finished() {
            return listener.flush();
        }
        let n: usize = self.joined.len();
        let mut i: usize = 0;
        while i < n
            invariant
                0 <= i <= n,
                n == self.joined@.len(),
                self@ == old(self)@,
                old(self)@.wf(),
                listener@.live,
                listener@.fingerprint == game_state,
                forall|k: int| 0 <= k < n ==> #[trigger] self@.joined_ids()[k]
                    == self.joined@[k].id,
                forall|k: int| 0 <= k < i ==> self.joined@[k].id != player_id,
            decreases n - i,
        {
            if self.joined[i].id == player_id {
                let ghost pre = self@;
                self.joined[i].listeners.push_back(listener);
                proof {
                    assert(pre.joined_ids()[i as int] == player_id);
                    pre.joined_ids().index_of_first_ensures(player_id);
                    assert(pre.joined_idx(player_id) == i as int);
                    assert(self@.listeners =~~= pre.listeners.update(
                        i as int,
                        pre.listeners[i as int].push(
                            (ListenerModel { live: true, fingerprint: game_state }),
                        ),
                    ));
                    assert(self@.joined =~= pre.joined);
                    assert forall|a: int, l: int|
                        0 <= a < self@.listeners.len() && 0 <= l
                            < self@.listeners[a].len() implies ((
                    #[trigger] self@.listeners[a][l]).fingerprint as int == self@.spec_fingerprint(
                        self@.joined[a].0,
                    ) && !self@.finished()) by {
                        if a == i as int && l == pre.listeners[i as int].len() {
                            assert(self@.listeners[a][l].fingerprint == game_state);
                            assert(self@.joined[a].0 == player_id);
                        } else {
                            assert(self@.listeners[a][l] == pre.listeners[a][l]);
                        }
                    }
                }
                return Ok(());
            }
            i += 1;
        }
        proof {
            if self@.has_joined(player_id) {
                let k = choose|k: int|
                    0 <= k < n && #[trigger] self@.joined_ids()[k] == player_id;
                assert(self.joined@[k].id == player_id);
            }
        }
        listener.flush()
    }
}

impl DraftLobby {
    /// The deadline recorded for one round and pick index, if any.
    fn get_deadline_for(&self, round_number: usize, pick_number: usize) -> (r: Option<
        DraftDeadline,
    >)
        ensures
            match r {
                Some(dl) => {
                    &&& round_number < self@.deadlines.len()
                    &&& pick_number < self@.deadlines[round_number as int].len()
                    &&& dl == (DraftDeadline {
                        round_number,
                        pick_number,
                        deadline: self@.deadlines[round_number as int][pick_number as int],
                    })
                },
                None => round_number >= self@.deadlines.len() || pick_number
                    >= self@.deadlines[round_number as int].len(),
            },
    {
        if round_number >= self.round_deadlines.len() {
            return None;
        }
        if pick_number >= self.round_deadlines[round_number].len() {
            return None;
        }
        Some(
            DraftDeadline {
                round_number,
                pick_number,
                deadline: self.round_deadlines[round_number][pick_number],
            },
        )
    }

    /// Appends the deadline schedule for the round that just became current:
    /// pick `i` gets the previous deadline plus the slush time plus the
    /// per-item time for the `pack_size - i` items left.
    #[verifier::loop_isolation(false)]
    fn generate_deadlines(&mut self, now_ms: u64)
        requires
            now_ms <= 0xFFFF_FFFF_0000_0000u64,
            old(self)@.started(),
            4 <= old(self)@.pack_size() <= 8,
            match old(self)@.draft {
                Option::Some(d) => old(self)@.deadlines.len() == d.current_round,
                Option::None => false,
            },
        ensures
            final(self)@.set_name == old(self)@.set_name,
            final(self)@.capacity == old(self)@.capacity,
            final(self)@.draft == old(self)@.draft,
            final(self)@.joined == old(self)@.joined,
            final(self)@.listeners =~~= old(self)@.listeners,
            final(self)@.deadlines =~~= old(self)@.deadlines.push(
                spec_deadline_seq(now_ms as int, old(self)@.pack_size()),
            ),
    {
        let ghost m0 = old(self)@;
        let n: usize = self.joined.len();
        let (_num_rounds, pack_size) = get_rounds_and_pack_sizes(n);
        let mut deadlines: Vec<u64> = Vec::new();
        let mut last: u64 = now_ms;
        let mut i: usize = 0;
        while i < pack_size
            invariant
                0 <= i <= pack_size,
                deadlines@.len() == i,
                last <= now_ms + 70000 * i,
                last as int == spec_deadline_at(now_ms as int, pack_size as int, i - 1),
                forall|j: int|
                    0 <= j < i ==> #[trigger] deadlines@[j] as int == spec_deadline_at(
                        now_ms as int,
                        pack_size as int,
                        j,
                    ),
                self@ == m0,
            decreases pack_size - i,
        {
            let step: u64 = SLUSH_TIME_MS + TIME_PER_PACK_ITEM_MS * ((pack_size - i) as u64);
            last = last + step;
            deadlines.push(last);
            i += 1;
        }
        let ghost pre = self@;
        self.round_deadlines.push(deadlines);
        proof {
            assert(self@.deadlines =~~= pre.deadlines.push(
                spec_deadline_seq(now_ms as int, pack_size as int),
            ));
        }
    }

    /// Starts the draft: derives the round count and pack size from the
    /// player count, deals randomly generated packs, schedules round zero's
    /// deadlines from `now_ms`, rechecks parked listeners, and returns the
    /// first deadline. Refused when already started, when nobody has joined,
    /// or when the item list cannot fill the packs.
    #[verifier::loop_isolation(false)]
    pub fn start(&mut self, item_list: &Vec<DraftItemId>, now_ms: u64) -> (r: Result<
        DraftDeadline,
        DraftError,
    >)
        requires
            old(self)@.wf(),
            item_list@.no_duplicates(),
            now_ms <= 0xFFFF_FFFF_0000_0000u64,
        ensures
            final(self)@.wf(),
            final(self)@.set_name == old(self)@.set_name,
            final(self)@.capacity == old(self)@.capacity,
            final(self)@.joined == old(self)@.joined,
            match r {
                Ok(dl) => {
                    &&& !old(self)@.started()
                    &&& old(self)@.joined.len() >= 1
                    &&& final(self)@.started()
                    &&& final(self)@.listeners_ok()
                    &&& match final(self)@.draft {
                        Option::Some(d) => {
                            &&& d.wf()
                            &&& d.turn_order == old(self)@.joined_ids()
                            &&& d.current_round == 0
                            &&& d.direction == true
                            &&& d.num_rounds() == spec_rounds_and_pack_size(
                                old(self)@.joined.len() as nat,
                            ).0
                            &&& forall|i: int|
                                0 <= i < d.players.len() ==> (#[trigger] d.players[i]).allocated.len()
                                    == 0 && d.players[i].pending.len() == 1
                            &&& forall|rr: int, k: int|
                                0 <= rr < d.packs_by_round.len() && 0 <= k
                                    < d.packs_by_round[rr].len() ==> (
                                #[trigger] d.packs_by_round[rr][k]).items.len()
                                    == old(self)@.pack_size()
                            &&& forall|x: DraftItemId| #[trigger]
                                state_bag(d).count(x) <= item_list@.to_multiset().count(x)
                        },
                        Option::None => false,
                    }
                    &&& final(self)@.deadlines =~~= seq![
                        spec_deadline_seq(now_ms as int, old(self)@.pack_size()),
                    ]
                    &&& dl == (DraftDeadline {
                        round_number: 0,
                        pick_number: 0,
                        deadline: spec_deadline_at(
                            now_ms as int,
                            old(self)@.pack_size(),
                            0,
                        ) as u64,
                    })
                },
                Err(e) => {
                    &&& final(self)@ == old(self)@
                    &&& e == ({
                        if old(self)@.started() {
                            DraftError::AlreadyStarted
                        } else if old(self)@.joined.len() == 0 {
                            DraftError::EmptyLobby
                        } else {
                            DraftError::PackGenInsufficientItems
                        }
                    })
                    &&& (old(self)@.started() || old(self)@.joined.len() == 0 || (
                    spec_rounds_and_pack_size(old(self)@.joined.len() as nat).0 * old(
                        self,
                    )@.joined.len()) * old(self)@.pack_size() > item_list@.len())
                },
            },
    {
        broadcast use vstd::seq_lib::group_to_multiset_ensures;

        let ghost m0 = old(self)@;
        if self.draft_state.is_some() {
            return Err(DraftError::AlreadyStarted);
        }
        let n: usize = self.joined.len();
        if n == 0 {
            return Err(DraftError::EmptyLobby);
        }
        let mut player_ids: Vec<PlayerId> = Vec::new();
        let mut i: usize = 0;
        while i < n
            invariant
                0 <= i <= n,
                n == self.joined@.len(),
                self@ == m0,
                player_ids@.len() == i,
                forall|k: int| 0 <= k < i ==> #[trigger] player_ids@[k] == m0.joined_ids()[k],
            decreases n - i,
        {
            let id: PlayerId = self.joined[i].id;
            proof {
                assert(m0.joined_ids()[i as int] == id);
            }
            player_ids.push(id);
            i += 1;
        }
        proof {
            assert(player_ids@ =~= m0.joined_ids());
            lemma_table_bounds(n as nat);
        }
        let (num_rounds, pack_size) = get_rounds_and_pack_sizes(n);
        let num_packs: usize = num_rounds * n;
        let packs = match make_random_packs(num_packs, pack_size, item_list) {
            Err(_) => {
                return Err(DraftError::PackGenInsufficientItems);
            },
            Ok(p) => p,
        };
        proof {
            item_list@.lemma_multiset_has_no_duplicates();
            assert forall|x: DraftItemId| #[trigger]
                flat_bag(packs.deep_view()).count(x) <= 1 by {
                if item_list@.to_multiset().contains(x) {
                    assert(item_list@.to_multiset().count(x) == 1);
                } else {
                    assert(item_list@.to_multiset().count(x) == 0);
                }
            }
            assert(flat_bag(packs.deep_view()).len() == num_packs * pack_size);
            assert(num_packs * pack_size <= 144);
            assert forall|q: int| 0 <= q < packs@.len() implies (#[trigger] packs.deep_view()[q]).len()
                > 0 by {
                assert(packs.deep_view()[q].len() == pack_size);
            }
        }
        let ghost pdeep = packs.deep_view();
        let draft = DraftState::new(player_ids, packs, num_rounds);
        let ghost dm = draft@;
        proof {
            assert forall|rr: int, k: int|
                0 <= rr < dm.packs_by_round.len() && 0 <= k
                    < dm.packs_by_round[rr].len() implies (#[trigger] dm.packs_by_round[rr][k]).items.len()
                == pack_size by {
                lemma_chunk_index_bound(rr, k, num_rounds as int, n as int);
                assert(dm.packs_by_round[rr][k].items == pdeep[rr * n + k]);
                assert(pdeep[rr * n + k].len() == pack_size);
            }
        }
        self.draft_state = Some(draft);
        proof {
            assert(self@.draft == Some(dm));
            assert(self@.joined == m0.joined);
            assert(self@.listeners =~~= m0.listeners);
            assert(self@.deadlines =~= m0.deadlines);
            assert(self@.pack_size() == pack_size);
        }
        self.generate_deadlines(now_ms);
        proof {
            assert(self@.deadlines =~~= seq![spec_deadline_seq(now_ms as int, pack_size as int)]);
            assert(self@.wf());
        }
        self.check_listeners();
        proof {
            assert(self@.deadlines[0].len() == pack_size);
            assert(self@.deadlines[0][0] == spec_deadline_seq(now_ms as int, pack_size as int)[0]);
        }
        match self.get_deadline_for(0, 0) {
            Some(dl) => Ok(dl),
            None => {
                proof {
                    assert(false);
                }
                Err(DraftError::NotStarted)
            },
        }
    }

    /// If the current round is finished and rounds remain, advances to the
    /// next round and schedules its deadlines, returning the new round's
    /// first deadline; otherwise does nothing.
    fn maybe_start_new_round(&mut self, now_ms: u64) -> (r: Result<Option<DraftDeadline>, DraftError>)
        requires
            old(self)@.wf(),
            now_ms <= 0xFFFF_FFFF_0000_0000u64,
        ensures
            final(self)@.wf(),
            final(self)@.set_name == old(self)@.set_name,
            final(self)@.capacity == old(self)@.capacity,
            final(self)@.joined == old(self)@.joined,
            final(self)@.listeners =~~= old(self)@.listeners,
            r.is_ok(),
            match old(self)@.draft {
                Option::None => final(self)@ == old(self)@ && r == Ok::<
                    Option<DraftDeadline>,
                    DraftError,
                >(Option::None),
                Option::Some(d) => {
                    if d.round_done() && d.rounds_remaining() > 0 {
                        &&& final(self)@.draft == Some(d.spec_next_round())
                        &&& final(self)@.deadlines =~~= old(self)@.deadlines.push(
                            spec_deadline_seq(now_ms as int, old(self)@.pack_size()),
                        )
                        &&& r == Ok::<Option<DraftDeadline>, DraftError>(
                            Some(
                                (DraftDeadline {
                                    round_number: (d.current_round + 1) as usize,
                                    pick_number: 0,
                                    deadline: spec_deadline_at(
                                        now_ms as int,
                                        old(self)@.pack_size(),
                                        0,
                                    ) as u64,
                                }),
                            ),
                        )
                    } else {
                        final(self)@ == old(self)@ && r == Ok::<
                            Option<DraftDeadline>,
                            DraftError,
                        >(Option::None)
                    }
                },
            },
    {
        let ghost m0 = old(self)@;
        let should_start: bool = match &self.draft_state {
            None => {
                return Ok(None);
            },
            Some(d) => d.round_is_done() && d.rounds_remaining() > 0,
        };
        if !should_start {
            return Ok(None);
        }
        let new_round: usize = match &mut self.draft_state {
            Some(d) => {
                let ghost d0 = d@;
                let res = d.start_next_round();
                proof {
                    assert(d@ == d0.spec_next_round());
                }
                d.current_round()
            },
            None => {
                proof {
                    assert(false);
                }
                0
            },
        };
        proof {
            assert(self@.draft == Some(m0.draft->Some_0.spec_next_round()));
            assert(self@.joined == m0.joined);
            assert(self@.listeners =~~= m0.listeners);
            assert(self@.deadlines =~= m0.deadlines);
            assert(self@.pack_size() == m0.pack_size());
            lemma_table_bounds(m0.joined.len() as nat);
        }
        self.generate_deadlines(now_ms);
        proof {
            assert(self@.wf());
        }
        match self.get_deadline_for(new_round, 0) {
            Some(dl) => Ok(Some(dl)),
            None => {
                proof {
                    assert(self@.deadlines.len() == new_round + 1);
                    assert(self@.deadlines[new_round as int].len() == self@.pack_size());
                    assert(false);
                }
                Ok(None)
            },
        }
    }

    /// One pick by `player_id`, then, if that finished the round with rounds
    /// to spare, the round advance and its fresh deadlines; parked listeners
    /// are rechecked. On an error the lobby is left unchanged.
    pub fn make_pick(
        &mut self,
        player_id: PlayerId,
        picked_item_id: DraftItemId,
        now_ms: u64,
    ) -> (r: Result<Option<DraftDeadline>, DraftError>)
        requires
            old(self)@.wf(),
            now_ms <= 0xFFFF_FFFF_0000_0000u64,
        ensures
            final(self)@.wf(),
            final(self)@.set_name == old(self)@.set_name,
            final(self)@.capacity == old(self)@.capacity,
            final(self)@.joined == old(self)@.joined,
            match r {
                Err(e) => {
                    &&& final(self)@ == old(self)@
                    &&& match old(self)@.draft {
                        Option::None => e == DraftError::NotStarted,
                        Option::Some(d) => {
                            &&& !d.pick_enabled(player_id, picked_item_id)
                            &&& e == ({
                                if !d.has_player(player_id) {
                                    DraftError::PlayerNotFound
                                } else if d.players[d.player_idx(player_id)].pending.len() == 0 {
                                    DraftError::NoPacks
                                } else {
                                    DraftError::ItemNotInPack
                                }
                            })
                        },
                    }
                },
                Ok(opt) => {
                    &&& old(self)@.started()
                    &&& final(self)@.listeners_ok()
                    &&& match old(self)@.draft {
                        Option::None => false,
                        Option::Some(d) => {
                            &&& d.pick_enabled(player_id, picked_item_id)
                            &&& ({
                                let d1 = d.spec_pick(player_id, picked_item_id);
                                if d1.round_done() && d1.rounds_remaining() > 0 {
                                    &&& final(self)@.draft == Some(d1.spec_next_round())
                                    &&& final(self)@.deadlines =~~= old(self)@.deadlines.push(
                                        spec_deadline_seq(now_ms as int, old(self)@.pack_size()),
                                    )
                                    &&& opt == Some(
                                        (DraftDeadline {
                                            round_number: (d1.current_round + 1) as usize,
                                            pick_number: 0,
                                            deadline: spec_deadline_at(
                                                now_ms as int,
                                                old(self)@.pack_size(),
                                                0,
                                            ) as u64,
                                        }),
                                    )
                                } else {
                                    &&& final(self)@.draft == Some(d1)
                                    &&& final(self)@.deadlines == old(self)@.deadlines
                                    &&& opt is None
                                }
                            })
                        },
                    }
                },
            },
    {
        let ghost m0 = old(self)@;
        let pick_result: Result<(), DraftError> = match &mut self.draft_state {
            None => {
                return Err(DraftError::NotStarted);
            },
            Some(d) => d.pick(player_id, picked_item_id),
        };
        proof {
            assert(self@.joined == m0.joined);
            assert(self@.listeners =~~= m0.listeners);
            assert(self@.deadlines =~= m0.deadlines);
        }
        match pick_result {
            Err(e) => {
                proof {
                    assert(self@.draft == m0.draft);
                    assert(self@ == m0);
                }
                Err(e)
            },
            Ok(()) => {
                proof {
                    assert(self@.wf());
                }
                let deadline = match self.maybe_start_new_round(now_ms) {
                    Ok(dl) => dl,
                    Err(e) => {
                        proof {
                            assert(false);
                        }
                        return Err(e);
                    },
                };
                self.check_listeners();
                Ok(deadline)
            },
        }
    }
}

impl DraftLobby {
    /// The display name of one joined player, scanned by id.
    fn name_of_player(&self, player_id: PlayerId) -> (r: Option<&String>)
        requires
            self@.wf(),
        ensures
            match r {
                Some(name) => self@.has_joined(player_id) && name@ == self@.name_of(player_id),
                None => !self@.has_joined(player_id),
            },
    {
        let n: usize = self.joined.len();
        let mut i: usize = 0;
        while i < n
            invariant
                0 <= i <= n,
                n == self.joined@.len(),
                forall|k: int| 0 <= k < n ==> #[trigger] self@.joined_ids()[k]
                    == self.joined@[k].id,
                forall|k: int| 0 <= k < i ==> self.joined@[k].id != player_id,
            decreases n - i,
        {
            if self.joined[i].id == player_id {
                proof {
                    assert(self@.joined_ids()[i as int] == player_id);
                    self@.joined_ids().index_of_first_ensures(player_id);
                    assert(self@.joined_idx(player_id) == i as int);
                    assert(self@.joined[i as int].1 == self.joined@[i as int].name@);
                }
                return Some(&self.joined[i].name);
            }
            i += 1;
        }
        proof {
            if self@.has_joined(player_id) {
                let k = choose|k: int|
                    0 <= k < n && #[trigger] self@.joined_ids()[k] == player_id;
                assert(self.joined@[k].id == player_id);
            }
        }
        None
    }

    /// The names of every joined player, in join order.
    pub fn get_player_names(&self) -> (r: Vec<String>)
        ensures
            r@.len() == self@.joined.len(),
            forall|i: int| 0 <= i < r@.len() ==> #[trigger] r@[i]@ == self@.joined[i].1,
    {
        let n: usize = self.joined.len();
        let mut out: Vec<String> = Vec::new();
        let mut i: usize = 0;
        while i < n
            invariant
                0 <= i <= n,
                n == self.joined@.len(),
                out@.len() == i,
                forall|k: int| 0 <= k < i ==> #[trigger] out@[k]@ == self@.joined[k].1,
            decreases n - i,
        {
            proof {
                assert(self@.joined[i as int].1 == self.joined@[i as int].name@);
            }
            out.push(self.joined[i].name.clone());
            i += 1;
        }
        out
    }

    /// The seating order as names, front of the snake first: reversed in
    /// backward rounds, and empty before the start and after the finish.
    pub fn get_draft_order(&self) -> (r: Vec<String>)
        requires
            self@.wf(),
        ensures
            match self@.draft {
                Option::None => r@.len() == 0,
                Option::Some(d) => {
                    if d.draft_done() {
                        r@.len() == 0
                    } else {
                        &&& r@.len() == d.turn_order.len()
                        &&& forall|q: int|
                            0 <= q < r@.len() ==> #[trigger] r@[q]@ == self@.name_of(
                                d.turn_order[
                                    if d.direction {
                                        q
                                    } else {
                                        d.turn_order.len() - 1 - q
                                    }
                                ],
                            )
                    }
                },
            },
    {
        if self.draft_is_finished() {
            return Vec::new();
        }
        let (n, forward, ghost_d) = match &self.draft_state {
            None => {
                return Vec::new();
            },
            Some(d) => (d.turn_order_len(), d.direction(), Ghost(d@)),
        };
        let ghost d = ghost_d@;
        proof {
            assert(self@.draft == Some(d));
            assert(d.turn_order == self@.joined_ids());
        }
        let mut out: Vec<String> = Vec::new();
        let mut q: usize = 0;
        while q < n
            invariant
                0 <= q <= n,
                self@.wf(),
                self@.draft == Some(d),
                d.wf(),
                d.turn_order == self@.joined_ids(),
                n == d.turn_order.len(),
                n == self.joined@.len(),
                out@.len() == q,
                forall|k: int|
                    0 <= k < q ==> #[trigger] out@[k]@ == self@.name_of(
                        d.turn_order[
                            if forward {
                                k
                            } else {
                                n - 1 - k
                            }
                        ],
                    ),
                forward == d.direction,
            decreases n - q,
        {
            let seat: usize = if forward {
                q
            } else {
                n - 1 - q
            };
            let pid: PlayerId = self.joined[seat].id;
            proof {
                assert(self@.joined_ids()[seat as int] == pid);
                assert(d.turn_order[seat as int] == pid);
            }
            match self.name_of_player(pid) {
                Some(name) => {
                    out.push(name.clone());
                },
                None => {
                    proof {
                        assert(self@.joined_ids().contains(pid));
                        assert(false);
                    }
                },
            }
            q += 1;
        }
        out
    }

    /// The draft position of `player_id`, or nothing before the start or for
    /// an id the draft does not know.
    pub fn get_player_draft_state(&self, player_id: &PlayerId) -> (r: Option<&PlayerState>)
        requires
            self@.wf(),
        ensures
            match r {
                Some(ps) => {
                    match self@.draft {
                        Option::Some(d) => d.has_player(*player_id) && ps@ == d.players[d.player_idx(
                            *player_id,
                        )],
                        Option::None => false,
                    }
                },
                None => {
                    match self@.draft {
                        Option::Some(d) => !d.has_player(*player_id),
                        Option::None => true,
                    }
                },
            },
    {
        match &self.draft_state {
            None => None,
            Some(d) => d.get_player_state(player_id),
        }
    }

    /// The contents of the head pack waiting for `player_id`, or nothing
    /// when no draft runs, the id is unknown, or the player's queue is empty.
    pub fn get_current_pack_contents_for_player(&self, player_id: &PlayerId) -> (r: Option<
        &PackContents,
    >)
        requires
            self@.wf(),
        ensures
            match r {
                Some(c) => {
                    match self@.draft {
                        Option::Some(d) => {
                            let i = d.player_idx(*player_id);
                            &&& d.has_player(*player_id)
                            &&& d.players[i].pending.len() > 0
                            &&& c@ == d.current_packs()[d.head_pack_pos(i)].items
                        },
                        Option::None => false,
                    }
                },
                None => {
                    match self@.draft {
                        Option::Some(d) => !d.has_player(*player_id) || d.players[d.player_idx(
                            *player_id,
                        )].pending.len() == 0,
                        Option::None => true,
                    }
                },
            },
    {
        let d = match &self.draft_state {
            None => {
                return None;
            },
            Some(d) => d,
        };
        proof {
            assert(self@.draft == Some(d@));
        }
        let ps = match d.get_player_state(player_id) {
            None => {
                return None;
            },
            Some(ps) => ps,
        };
        if ps.pending_packs.len() == 0 {
            return None;
        }
        let pack_id: PackId = ps.pending_packs[0];
        proof {
            let i = d@.player_idx(*player_id);
            assert(d@.players[i].pending[0] == pack_id);
        }
        let r = d.get_pack_contents(&pack_id);
        proof {
            if r is None {
                let i = d@.player_idx(*player_id);
                d@.turn_order.index_of_first_ensures(*player_id);
                assert(0 <= i < d@.players.len());
                assert(d@.players[i].pending[0] == pack_id);
                assert(0 <= d@.head_pack_pos(i) < d@.current_packs().len());
                lemma_pack_position_props(d@.current_packs(), pack_id);
                assert(false);
            }
        }
        r
    }

    /// The deadline instant shown to `player_id` for their next pick: the
    /// current round's schedule indexed by how many picks they have made this
    /// round. Advisory only; auto-picks key off the shared schedule instead.
    pub fn get_next_deadline_for_player(&self, player_id: &PlayerId) -> (r: Option<u64>)
        requires
            self@.wf(),
        ensures
            match r {
                Some(t) => {
                    match self@.draft {
                        Option::Some(d) => {
                            &&& d.has_player(*player_id)
                            &&& t == self@.deadlines[d.current_round][
                                d.players[d.player_idx(*player_id)].allocated.len() as int
                                    % self@.pack_size()]
                        },
                        Option::None => false,
                    }
                },
                None => {
                    match self@.draft {
                        Option::Some(d) => !d.has_player(*player_id),
                        Option::None => true,
                    }
                },
            },
    {
        let d = match &self.draft_state {
            None => {
                return None;
            },
            Some(d) => d,
        };
        proof {
            assert(self@.draft == Some(d@));
        }
        let ps = match d.get_player_state(player_id) {
            None => {
                return None;
            },
            Some(ps) => ps,
        };
        let (_, pack_size) = get_rounds_and_pack_sizes(self.joined.len());
        let items_allocated_this_round: usize = ps.allocated_items.len() % pack_size;
        let round: usize = d.current_round();
        proof {
            assert(round < self@.deadlines.len());
            assert(self@.deadlines[round as int].len() == self@.pack_size());
            assert(self@.deadlines[round as int] == self.round_deadlines@[round as int]@);
        }
        Some(self.round_deadlines[round][items_allocated_this_round])
    }

    /// The progress shown to `player_id`: current round, total rounds, picks
    /// made this round, and the pack size; nothing before the start or for an
    /// unknown id.
    pub fn get_draft_progress_for_player(&self, player_id: &PlayerId) -> (r: Option<
        (usize, usize, usize, usize),
    >)
        requires
            self@.wf(),
        ensures
            match r {
                Some(t) => {
                    match self@.draft {
                        Option::Some(d) => {
                            &&& d.has_player(*player_id)
                            &&& t.0 == d.current_round
                            &&& t.1 == d.num_rounds()
                            &&& t.2 == d.players[d.player_idx(*player_id)].allocated.len() as int
                                % self@.pack_size()
                            &&& t.3 == self@.pack_size()
                        },
                        Option::None => false,
                    }
                },
                None => {
                    match self@.draft {
                        Option::Some(d) => !d.has_player(*player_id),
                        Option::None => true,
                    }
                },
            },
    {
        let d = match &self.draft_state {
            None => {
                return None;
            },
            Some(d) => d,
        };
        proof {
            assert(self@.draft == Some(d@));
        }
        let ps = match d.get_player_state(player_id) {
            None => {
                return None;
            },
            Some(ps) => ps,
        };
        let (_, pack_size) = get_rounds_and_pack_sizes(self.joined.len());
        let current_pick: usize = ps.allocated_items.len() % pack_size;
        Some((d.current_round(), d.num_rounds(), current_pick, pack_size))
    }
}

// ---------------------------------------------------------------------------
// Deadline enforcement
// ---------------------------------------------------------------------------

/// The first item of the head pack waiting at seat `i`.
pub open spec fn spec_head_item(d: DraftModel, i: int) -> DraftItemId {
    d.current_packs()[d.head_pack_pos(i)].items[0]
}

/// The auto-picks a deadline firing makes, scanning seats from `i` on: every
/// player short of `min_alloc` picks with a pack waiting is forced to take
/// the head item of their head pack.
pub open spec fn spec_victims_from(d: DraftModel, min_alloc: int, i: int) -> Seq<
    (PlayerId, DraftItemId),
>
    decreases d.players.len() - i,
{
    if i < 0 || i >= d.players.len() {
        Seq::empty()
    } else {
        let rest = spec_victims_from(d, min_alloc, i + 1);
        if d.players[i].allocated.len() < min_alloc && d.players[i].pending.len() > 0 {
            seq![(d.turn_order[i], spec_head_item(d, i))] + rest
        } else {
            rest
        }
    }
}

/// The draft after the given picks, applied head first.
pub open spec fn spec_apply_picks(d: DraftModel, picks: Seq<(PlayerId, DraftItemId)>) -> DraftModel
    decreases picks.len(),
{
    if picks.len() == 0 {
        d
    } else {
        spec_apply_picks(d.spec_pick(picks[0].0, picks[0].1), picks.drop_first())
    }
}

/// The draft after one deadline firing with threshold `min_alloc`.
pub open spec fn spec_enforce(d: DraftModel, min_alloc: int) -> DraftModel {
    spec_apply_picks(d, spec_victims_from(d, min_alloc, 0))
}

/// Each listed pick names a seated player with a pack waiting whose head item
/// is the one to take, and no player is listed twice.
pub open spec fn victims_ready(d: DraftModel, victims: Seq<(PlayerId, DraftItemId)>) -> bool {
    &&& forall|l: int|
        0 <= l < victims.len() ==> {
            let pid = (#[trigger] victims[l]).0;
            let i = d.player_idx(pid);
            &&& d.has_player(pid)
            &&& d.players[i].pending.len() > 0
            &&& victims[l].1 == spec_head_item(d, i)
        }
    &&& forall|l1: int, l2: int|
        0 <= l1 < l2 < victims.len() ==> (#[trigger] victims[l1]).0 != (#[trigger] victims[l2]).0
}

/// The scan collects only ready picks, each from a distinct seat at or past
/// the scan start.
pub proof fn lemma_victims_from_ready(d: DraftModel, min_alloc: int, i: int)
    requires
        d.wf(),
    ensures
        victims_ready(d, spec_victims_from(d, min_alloc, i)),
        forall|l: int|
            0 <= l < spec_victims_from(d, min_alloc, i).len() ==> d.player_idx(
                (#[trigger] spec_victims_from(d, min_alloc, i)[l]).0,
            ) >= i,
    decreases d.players.len() - i,
{
    let vs = spec_victims_from(d, min_alloc, i);
    if i < 0 || i >= d.players.len() {
    } else {
        lemma_victims_from_ready(d, min_alloc, i + 1);
        let rest = spec_victims_from(d, min_alloc, i + 1);
        if d.players[i].allocated.len() < min_alloc && d.players[i].pending.len() > 0 {
            let pid = d.turn_order[i];
            assert(d.turn_order.contains(pid));
            d.turn_order.index_of_first_ensures(pid);
            assert(d.player_idx(pid) == i);
            assert(vs == seq![(pid, spec_head_item(d, i))] + rest);
            assert(vs[0] == (pid, spec_head_item(d, i)));
            assert forall|l: int| 0 <= l < vs.len() implies {
                let p = (#[trigger] vs[l]).0;
                let q = d.player_idx(p);
                &&& d.has_player(p)
                &&& d.players[q].pending.len() > 0
                &&& vs[l].1 == spec_head_item(d, q)
                &&& q >= i
            } by {
                if l > 0 {
                    assert(vs[l] == rest[l - 1]);
                }
            }
            assert forall|l1: int, l2: int|
                0 <= l1 < l2 < vs.len() implies (#[trigger] vs[l1]).0 != (#[trigger] vs[l2]).0 by {
                if l1 == 0 {
                    assert(vs[l2] == rest[l2 - 1]);
                    assert(d.player_idx(vs[l2].0) >= i + 1);
                } else {
                    assert(vs[l1] == rest[l1 - 1]);
                    assert(vs[l2] == rest[l2 - 1]);
                }
            }
        } else {
            assert(vs == rest);
        }
    }
}

/// Applying one more pick is the same as folding it in at the end.
pub proof fn lemma_apply_picks_snoc(
    d: DraftModel,
    picks: Seq<(PlayerId, DraftItemId)>,
    v: (PlayerId, DraftItemId),
)
    ensures
        spec_apply_picks(d, picks.push(v)) == spec_apply_picks(d, picks).spec_pick(v.0, v.1),
    decreases picks.len(),
{
    if picks.len() == 0 {
        assert(picks.push(v)[0] == v);
        assert(picks.push(v).drop_first() =~= Seq::<(PlayerId, DraftItemId)>::empty());
        assert(spec_apply_picks(d, picks) == d);
        assert(spec_apply_picks(
            d.spec_pick(v.0, v.1),
            Seq::<(PlayerId, DraftItemId)>::empty(),
        ) == d.spec_pick(v.0, v.1));
    } else {
        assert(picks.push(v)[0] == picks[0]);
        assert(picks.push(v).drop_first() =~= picks.drop_first().push(v));
        lemma_apply_picks_snoc(d.spec_pick(picks[0].0, picks[0].1), picks.drop_first(), v);
    }
}

/// The first listed pick is possible, and making it keeps the rest of the
/// list ready: no later victim loses their head pack or its head item.
#[verifier::rlimit(60)]
pub proof fn lemma_victims_step(d: DraftModel, victims: Seq<(PlayerId, DraftItemId)>)
    requires
        d.wf(),
        victims_ready(d, victims),
        victims.len() > 0,
    ensures
        d.pick_enabled(victims[0].0, victims[0].1),
        d.spec_pick(victims[0].0, victims[0].1).wf(),
        state_bag(d.spec_pick(victims[0].0, victims[0].1)) == state_bag(d),
        d.spec_pick(victims[0].0, victims[0].1).turn_order == d.turn_order,
        d.spec_pick(victims[0].0, victims[0].1).current_round == d.current_round,
        d.spec_pick(victims[0].0, victims[0].1).direction == d.direction,
        d.spec_pick(victims[0].0, victims[0].1).packs_by_round.len() == d.packs_by_round.len(),
        victims_ready(d.spec_pick(victims[0].0, victims[0].1), victims.drop_first()),
{
    let pid = victims[0].0;
    let item = victims[0].1;
    assert(victims[0] == victims[0]);
    let i = d.player_idx(pid);
    d.turn_order.index_of_first_ensures(pid);
    assert(0 <= i < d.players.len());
    let cur = d.current_packs();
    let pack_id = d.players[i].pending[0];
    let k = d.head_pack_pos(i);
    assert(0 <= k < cur.len() && cur[k].items.len() > 0);
    assert(item == cur[k].items[0]);
    assert(cur[k].items.contains(item));
    assert(d.pick_enabled(pid, item));
    lemma_pick_preserves_wf(d, pid, item);
    let d1 = d.spec_pick(pid, item);
    lemma_pack_position_props(cur, pack_id);
    assert(cur[k].id == pack_id);
    let idx = first_index_of(cur[k].items, item);
    cur[k].items.index_of_first_ensures(item);
    let new_pack = PackModel { id: pack_id, items: cur[k].items.remove(idx) };
    let cur2 = cur.update(k, new_pack);
    assert(d1.current_packs() == cur2);
    let ids = cur.map_values(|p: PackModel| p.id);
    let ids2 = cur2.map_values(|p: PackModel| p.id);
    assert(ids2 =~= ids);
    assert forall|e: PackId| #[trigger] pack_position(cur2, e) == pack_position(cur, e) by {
        assert(ids2 == ids);
    }
    let rest = victims.drop_first();
    assert forall|l: int| 0 <= l < rest.len() implies {
        let p = (#[trigger] rest[l]).0;
        let q = d1.player_idx(p);
        &&& d1.has_player(p)
        &&& d1.players[q].pending.len() > 0
        &&& rest[l].1 == spec_head_item(d1, q)
    } by {
        let p = rest[l].0;
        assert(rest[l] == victims[l + 1]);
        assert(p != pid);
        let q = d.player_idx(p);
        d.turn_order.index_of_first_ensures(p);
        assert(0 <= q < d.players.len());
        assert(d.turn_order[q] == p);
        assert(q != i);
        assert(d1.player_idx(p) == q);
        let e = d.players[q].pending[0];
        assert(e != pack_id);
        let kq = pack_position(cur, e);
        assert(0 <= kq < cur.len() && cur[kq].items.len() > 0);
        lemma_pack_position_props(cur, e);
        assert(cur[kq].id == e);
        assert(kq != k);
        let nonempty = new_pack.items.len() > 0;
        let nx = d.next_idx(i);
        if nonempty && nx == q {
            assert(d1.players[q].pending == d.players[q].pending.push(pack_id));
            assert(d1.players[q].pending[0] == e);
        } else {
            assert(d1.players[q].pending == d.players[q].pending);
        }
        assert(d1.players[q].pending.len() > 0);
        assert(d1.head_pack_pos(q) == kq);
        assert(cur2[kq] == cur[kq]);
        assert(spec_head_item(d1, q) == cur[kq].items[0]);
        assert(victims[l + 1].1 == spec_head_item(d, q));
    }
    assert forall|l1: int, l2: int|
        0 <= l1 < l2 < rest.len() implies (#[trigger] rest[l1]).0 != (#[trigger] rest[l2]).0 by {
        assert(rest[l1] == victims[l1 + 1]);
        assert(rest[l2] == victims[l2 + 1]);
    }
}

impl DraftLobby {
    /// Fires the deadline for `(round_idx, pick_idx)`: every player with
    /// fewer than `pack_size * round_idx + pick_idx + 1` picks and a pack
    /// waiting is auto-picked the head item of their head pack, all from one
    /// snapshot taken before any of those picks. Then, if the draft finished,
    /// no deadline follows; if a new round began, its first deadline follows;
    /// otherwise the current round's next pick deadline does, if the schedule
    /// still has one. A lobby that has not started ignores the call.
    #[verifier::rlimit(60)]
    pub fn enforce_deadline(&mut self, round_idx: usize, pick_idx: usize, now_ms: u64) -> (r:
        Result<Option<DraftDeadline>, DraftError>)
        requires
            old(self)@.wf(),
            now_ms <= 0xFFFF_FFFF_0000_0000u64,
            old(self)@.pack_size() * round_idx + pick_idx + 1 <= usize::MAX,
        ensures
            final(self)@.wf(),
            final(self)@.set_name == old(self)@.set_name,
            final(self)@.capacity == old(self)@.capacity,
            final(self)@.joined == old(self)@.joined,
            r.is_ok(),
            match old(self)@.draft {
                Option::None => final(self)@ == old(self)@ && r == Ok::<
                    Option<DraftDeadline>,
                    DraftError,
                >(Option::None),
                Option::Some(d0) => {
                    let min_alloc = old(self)@.pack_size() * round_idx + pick_idx + 1;
                    let dv = spec_enforce(d0, min_alloc);
                    &&& final(self)@.listeners_ok()
                    &&& if dv.draft_done() {
                        &&& final(self)@.draft == Some(dv)
                        &&& final(self)@.deadlines == old(self)@.deadlines
                        &&& r == Ok::<Option<DraftDeadline>, DraftError>(Option::None)
                    } else if dv.round_done() && dv.rounds_remaining() > 0 {
                        &&& final(self)@.draft == Some(dv.spec_next_round())
                        &&& final(self)@.deadlines =~~= old(self)@.deadlines.push(
                            spec_deadline_seq(now_ms as int, old(self)@.pack_size()),
                        )
                        &&& r == Ok::<Option<DraftDeadline>, DraftError>(
                            Some(
                                (DraftDeadline {
                                    round_number: (dv.current_round + 1) as usize,
                                    pick_number: 0,
                                    deadline: spec_deadline_at(
                                        now_ms as int,
                                        old(self)@.pack_size(),
                                        0,
                                    ) as u64,
                                }),
                            ),
                        )
                    } else {
                        &&& final(self)@.draft == Some(dv)
                        &&& final(self)@.deadlines == old(self)@.deadlines
                        &&& r == Ok::<Option<DraftDeadline>, DraftError>(
                            if pick_idx + 1 < old(self)@.deadlines[d0.current_round].len() {
                                Some(
                                    (DraftDeadline {
                                        round_number: d0.current_round as usize,
                                        pick_number: (pick_idx + 1) as usize,
                                        deadline: old(self)@.deadlines[d0.current_round][pick_idx
                                            + 1],
                                    }),
                                )
                            } else {
                                Option::None
                            },
                        )
                    }
                },
            },
    {
        let ghost m0 = old(self)@;
        if self.draft_state.is_none() {
            return Ok(None);
        }
        let n: usize = self.joined.len();
        let (_num_rounds, pack_size) = get_rounds_and_pack_sizes(n);
        let minimum_allocated: usize = pack_size * round_idx + pick_idx + 1;
        let ghost min_alloc = minimum_allocated as int;
        let mut victims: Vec<(PlayerId, DraftItemId)> = Vec::new();
        let ghost d0 = m0.draft->Some_0;
        match &self.draft_state {
            None => {
                proof {
                    assert(false);
                }
            },
            Some(d) => {
                proof {
                    assert(d@ == d0);
                    assert(d0.wf());
                    assert(d0.turn_order.len() == n);
                    assert(victims@ + spec_victims_from(d0, min_alloc, 0) =~= spec_victims_from(
                        d0,
                        min_alloc,
                        0,
                    ));
                }
                let mut i: usize = 0;
                while i < n
                    invariant
                        0 <= i <= n,
                        d@ == d0,
                        d0.wf(),
                        n == d0.players.len(),
                        n == d0.turn_order.len(),
                        min_alloc == minimum_allocated as int,
                        victims@ + spec_victims_from(d0, min_alloc, i as int)
                            =~= spec_victims_from(d0, min_alloc, 0),
                    decreases n - i,
                {
                    let alloc_len: usize = d.players[i].allocated_items.len();
                    let has_pending: bool = d.players[i].pending_packs.len() > 0;
                    proof {
                        assert(d0.players[i as int] == d.players@[i as int]@);
                    }
                    if alloc_len < minimum_allocated && has_pending {
                        let pack_id: PackId = d.players[i].pending_packs[0];
                        proof {
                            assert(d0.players[i as int].pending[0] == pack_id);
                            assert(d0.current_packs() == pack_seq_view(
                                d.packs_by_round@[d.current_round_idx as int]@,
                            ));
                        }
                        let k: usize = match find_pack(
                            &d.packs_by_round[d.current_round_idx],
                            pack_id,
                        ) {
                            None => {
                                proof {
                                    assert(false);
                                }
                                0
                            },
                            Some(k) => k,
                        };
                        proof {
                            assert(k as int == d0.head_pack_pos(i as int));
                            assert(d0.current_packs()[k as int].items.len() > 0);
                        }
                        let item: DraftItemId = d.packs_by_round[d.current_round_idx][k].items[0];
                        let pid: PlayerId = d.turn_order[i];
                        let ghost prev = victims@;
                        victims.push((pid, item));
                        proof {
                            assert(item == spec_head_item(d0, i as int));
                            assert(spec_victims_from(d0, min_alloc, i as int) == seq![
                                (pid, spec_head_item(d0, i as int)),
                            ] + spec_victims_from(d0, min_alloc, i + 1));
                            assert(victims@ + spec_victims_from(d0, min_alloc, i + 1)
                                =~= prev + spec_victims_from(d0, min_alloc, i as int));
                        }
                    } else {
                        proof {
                            assert(spec_victims_from(d0, min_alloc, i as int)
                                == spec_victims_from(d0, min_alloc, i + 1));
                        }
                    }
                    i += 1;
                }
                proof {
                    assert(spec_victims_from(d0, min_alloc, n as int) =~= Seq::<
                        (PlayerId, DraftItemId),
                    >::empty());
                    assert(victims@ =~= spec_victims_from(d0, min_alloc, 0));
                }
            },
        }
        let ghost vseq = victims@;
        proof {
            lemma_victims_from_ready(d0, min_alloc, 0);
            assert(victims_ready(d0, vseq));
            assert(spec_apply_picks(d0, vseq.take(0)) == d0) by {
                assert(vseq.take(0) =~= Seq::<(PlayerId, DraftItemId)>::empty());
            }
        }
        let num_victims: usize = victims.len();
        let mut j: usize = 0;
        while j < num_victims
            invariant
                0 <= j <= num_victims,
                num_victims == vseq.len(),
                victims@ == vseq,
                self@.set_name == m0.set_name,
                self@.capacity == m0.capacity,
                self@.joined == m0.joined,
                self@.listeners =~~= m0.listeners,
                self@.deadlines == m0.deadlines,
                m0.wf(),
                self@.draft is Some,
                ({
                    let dj = self@.draft->Some_0;
                    &&& dj == spec_apply_picks(d0, vseq.take(j as int))
                    &&& dj.wf()
                    &&& victims_ready(dj, vseq.skip(j as int))
                    &&& dj.turn_order == d0.turn_order
                    &&& dj.current_round == d0.current_round
                    &&& dj.direction == d0.direction
                    &&& dj.packs_by_round.len() == d0.packs_by_round.len()
                }),
            decreases num_victims - j,
        {
            let (pid, item) = victims[j];
            let ghost dj = self@.draft->Some_0;
            proof {
                assert(vseq.skip(j as int)[0] == vseq[j as int]);
                lemma_victims_step(dj, vseq.skip(j as int));
            }
            match &mut self.draft_state {
                None => {
                    proof {
                        assert(false);
                    }
                },
                Some(d) => {
                    let res = d.pick(pid, item);
                    proof {
                        assert(res.is_ok());
                        assert(d@ == dj.spec_pick(pid, item));
                    }
                },
            }
            proof {
                assert(vseq.take(j + 1) =~= vseq.take(j as int).push(vseq[j as int]));
                lemma_apply_picks_snoc(d0, vseq.take(j as int), vseq[j as int]);
                assert(vseq.skip(j as int).drop_first() =~= vseq.skip(j + 1));
            }
            j += 1;
        }
        proof {
            assert(vseq.take(num_victims as int) =~= vseq);
            assert(self@.draft->Some_0 == spec_enforce(d0, min_alloc));
            assert(self@.wf());
        }
        self.check_listeners();
        let round_now: usize = match &self.draft_state {
            None => {
                proof {
                    assert(false);
                }
                0
            },
            Some(d) => d.current_round(),
        };
        if self.draft_is_finished() {
            return Ok(None);
        }
        let new_round = match self.maybe_start_new_round(now_ms) {
            Ok(opt) => opt,
            Err(_) => {
                proof {
                    assert(false);
                }
                None
            },
        };
        self.check_listeners();
        if let Some(dl) = new_round {
            return Ok(Some(dl));
        }
        Ok(self.get_deadline_for(round_now, pick_idx + 1))
    }
}

} // verus!
