//! The single-writer lobby manager: owns the active lobbies and the item
//! database, and executes request messages one at a time.

use vstd::prelude::*;

use crate::draft_database::DbModel;
use crate::draft_database::DraftDb;
use crate::draft_engine::DraftDeadline;
use crate::draft_engine::DraftItemId;
use crate::draft_engine::DraftLobby;
use crate::draft_engine::GameState;
use crate::draft_engine::ListenerModel;
use crate::draft_engine::LobbyModel;
use crate::draft_engine::PlayerId;
use crate::draft_engine::first_index_of;
use crate::draft_engine::lemma_next_round_wf;
use crate::draft_engine::lemma_pick_preserves_wf;
use crate::draft_engine::lemma_players_bag_member;
use crate::draft_engine::lemma_round_bag_member;
use crate::draft_engine::lemma_rounds_bag_member;
use crate::draft_engine::spec_deadline_at;
use crate::draft_engine::spec_deadline_seq;
use crate::draft_engine::spec_enforce;
use crate::draft_engine::spec_rounds_and_pack_size;
use crate::draft_engine::state_bag;
use crate::laws::lemma_enforce_conserves_items;
use crate::errors::DraftError;
use crate::errors::spec_error_message;

verus! {

broadcast use vstd::multiset::group_multiset_axioms;

/// Identifies one active lobby; generated at random when the lobby is created.
pub type DraftLobbyId = u64;

/// The state snapshot returned to the presentation layer for one player.
#[derive(Debug)]
pub struct LobbyStateForPlayer {
    pub lobby_id: DraftLobbyId,
    pub player_id: PlayerId,
    pub joining_players: Vec<String>,
    pub open_slots: Vec<String>,
    pub pending_picks: Vec<(DraftItemId, String, String)>,
    pub allocated_picks: Vec<(String, String)>,
    pub game_state: GameState,
    pub draft_is_finished: bool,
    pub time_to_pick_s: Option<u64>,
    pub draft_order: Vec<String>,
    pub rounds_and_picks: (usize, usize, usize, usize),
    pub raw_picks: Vec<String>,
}

/// A request message consumed by the lobby manager.
pub enum LobbyManagerRequest {
    CreateLobby { set_name: String },
    JoinLobby { lobby_id: DraftLobbyId, player_name: String },
    StartLobby { lobby_id: DraftLobbyId },
    GetLobbyState { lobby_id: DraftLobbyId, player_id: PlayerId },
    MakePick { lobby_id: DraftLobbyId, player_id: PlayerId, pick: DraftItemId },
    BlockForUpdate { lobby_id: DraftLobbyId, player_id: PlayerId, game_state: GameState },
    EnforceDeadline { lobby_id: DraftLobbyId, round_number: usize, pick_number: usize },
}

/// The reply sent back on a request's one-shot channel.
pub enum LobbyManagerResponse {
    LobbyErrorMsg(String),
    LobbyCreated(DraftLobbyId),
    LobbyJoined { lobby_id: DraftLobbyId, player_id: PlayerId },
    LobbyStarted,
    PickMade,
    LobbyState(LobbyStateForPlayer),
    UpdateReady,
}

/// A deadline to hand to the timer, addressed to one lobby.
#[derive(Debug, Clone, Copy, PartialEq, Eq, Structural)]
pub struct ScheduledDeadline {
    pub lobby_id: DraftLobbyId,
    pub deadline: DraftDeadline,
}

/// Every lobby is created with room for this many players.
pub const MAX_LOBBY_CAPACITY: usize = 6;

/// The abstract value of the lobby manager: the item database and the active
/// lobbies in creation order.
pub struct ManagerModel {
    pub db: DbModel,
    pub lobbies: Seq<(DraftLobbyId, LobbyModel)>,
}

impl ManagerModel {
    /// The active lobby ids, in creation order.
    pub open spec fn lobby_ids(self) -> Seq<DraftLobbyId> {
        self.lobbies.map_values(|p: (DraftLobbyId, LobbyModel)| p.0)
    }

    /// Whether a lobby with this id is active.
    pub open spec fn has_lobby(self, id: DraftLobbyId) -> bool {
        self.lobby_ids().contains(id)
    }

    /// The creation position of the lobby with this id.
    pub open spec fn lobby_idx(self, id: DraftLobbyId) -> int {
        crate::draft_engine::first_index_of(self.lobby_ids(), id)
    }

    /// The well-formedness invariant of the manager.
    pub open spec fn wf(self) -> bool {
        &&& self.db.wf()
        &&& self.lobby_ids().no_duplicates()
        &&& self.lobbies.len() < 0x1000_0000
        &&& forall|i: int|
            0 <= i < self.lobbies.len() ==> {
                let lm = (#[trigger] self.lobbies[i]).1;
                &&& lm.wf()
                &&& lm.listeners_ok()
                &&& lm.capacity == MAX_LOBBY_CAPACITY
                &&& self.db.set_names().contains(lm.set_name)
                &&& lobby_items_resolve(lm, self.db)
            }
    }
}

/// Every item of a lobby's running draft, picked or still in a pack,
/// resolves in the lobby's draft set.
pub open spec fn lobby_items_resolve(lm: LobbyModel, db: DbModel) -> bool {
    match lm.draft {
        Option::None => true,
        Option::Some(d) => {
            let sm = db.sets[first_index_of(db.set_names(), lm.set_name)].1;
            forall|x: DraftItemId| #[trigger] state_bag(d).count(x) > 0 ==> sm.has_item(x)
        },
    }
}


/// How creating a lobby changes the manager: a fresh empty lobby for a known
/// set under a fresh random id, or no change when the set is unknown (or the
/// manager is at its lobby limit).
pub open spec fn create_lobby_effect(
    pre: ManagerModel,
    post: ManagerModel,
    set_name: Seq<char>,
    r: Option<DraftLobbyId>,
) -> bool {
    &&& post.db == pre.db
    &&& match r {
        Option::Some(id) => {
            &&& pre.db.set_names().contains(set_name)
            &&& !pre.has_lobby(id)
            &&& post.lobbies.len() == pre.lobbies.len() + 1
            &&& forall|i: int|
                0 <= i < pre.lobbies.len() ==> #[trigger] post.lobbies[i] == pre.lobbies[i]
            &&& post.lobbies.last().0 == id
            &&& ({
                let lm = post.lobbies.last().1;
                &&& lm.set_name == set_name
                &&& lm.capacity == MAX_LOBBY_CAPACITY
                &&& lm.joined.len() == 0
                &&& !lm.started()
            })
        },
        Option::None => {
            &&& post == pre
            &&& (!pre.db.set_names().contains(set_name) || pre.lobbies.len() >= 0x1000_0000 - 1)
        },
    }
}

/// How a join request changes the manager and what it answers: admission per
/// the lobby's rules with a fresh player id, or the matching error message
/// with nothing changed; every other lobby is untouched.
pub open spec fn join_lobby_effect(
    pre: ManagerModel,
    post: ManagerModel,
    lobby_id: DraftLobbyId,
    player_name: Seq<char>,
    r: LobbyManagerResponse,
) -> bool {
    &&& post.db == pre.db
    &&& post.lobby_ids() == pre.lobby_ids()
    &&& !pre.has_lobby(lobby_id) ==> post == pre && (r matches
        LobbyManagerResponse::LobbyErrorMsg(msg) && msg@ == spec_error_message(
        DraftError::LobbyNotFound,
    ))
    &&& pre.has_lobby(lobby_id) ==> {
        let i = pre.lobby_idx(lobby_id);
        let lm = pre.lobbies[i].1;
        &&& forall|k: int|
            0 <= k < pre.lobbies.len() && k != i ==> #[trigger] post.lobbies[k] == pre.lobbies[k]
        &&& if !lm.started() && !lm.joined_names().contains(player_name) && lm.joined.len()
            < lm.capacity {
            &&& (r matches LobbyManagerResponse::LobbyJoined { lobby_id: lid, player_id } && lid
                == lobby_id && post.lobbies[i].1.joined == lm.joined.push(
                (player_id, player_name),
            ))
        } else {
            &&& post.lobbies[i].1 == lm
            &&& (r matches LobbyManagerResponse::LobbyErrorMsg(msg) && msg@ == spec_error_message(
                if lm.started() {
                    DraftError::AlreadyStarted
                } else if lm.joined_names().contains(player_name) {
                    DraftError::NameConflict
                } else {
                    DraftError::LobbyFull
                },
            ))
        }
    }
}

/// How a start request changes the manager and what it answers: on success
/// the addressed lobby starts on its set's deduplicated item list and the
/// round-zero pick-zero deadline is handed back for scheduling. Success is
/// owed whenever the lobby exists, has not started, has a player, and the
/// set's list can fill the packs.
pub open spec fn start_lobby_effect(
    pre: ManagerModel,
    post: ManagerModel,
    lobby_id: DraftLobbyId,
    now_ms: u64,
    r: (LobbyManagerResponse, Option<ScheduledDeadline>),
) -> bool {
    &&& post.db == pre.db
    &&& post.lobby_ids() == pre.lobby_ids()
    &&& !pre.has_lobby(lobby_id) ==> post == pre && (r.0 matches
        LobbyManagerResponse::LobbyErrorMsg(msg) && msg@ == spec_error_message(
        DraftError::LobbyNotFound,
    )) && r.1 is None
    &&& pre.has_lobby(lobby_id) ==> {
        let i = pre.lobby_idx(lobby_id);
        let lm = pre.lobbies[i].1;
        let sm = pre.db.sets[first_index_of(pre.db.set_names(), lm.set_name)].1;
        &&& forall|k: int|
            0 <= k < pre.lobbies.len() && k != i ==> #[trigger] post.lobbies[k] == pre.lobbies[k]
        &&& match r.1 {
            Option::Some(sd) => {
                &&& r.0 is LobbyStarted
                &&& !lm.started()
                &&& lm.joined.len() >= 1
                &&& post.lobbies[i].1.started()
                &&& post.lobbies[i].1.joined == lm.joined
                &&& sd == (ScheduledDeadline {
                    lobby_id,
                    deadline: (DraftDeadline {
                        round_number: 0,
                        pick_number: 0,
                        deadline: spec_deadline_at(now_ms as int, lm.pack_size(), 0) as u64,
                    }),
                })
            },
            Option::None => {
                &&& r.0 is LobbyErrorMsg
                &&& post.lobbies[i].1 == lm
            },
        }
        &&& (!lm.started() && lm.joined.len() >= 1 && (spec_rounds_and_pack_size(
            lm.joined.len() as nat,
        ).0 * lm.joined.len()) * lm.pack_size() <= sm.groups.len()) ==> r.1 is Some
    }
}

/// How a pick request changes the manager and what it answers: the lobby's
/// pick (with any round turn and fresh schedule), the new round's first
/// deadline handed back for scheduling, or the matching error message with
/// nothing changed.
pub open spec fn manager_pick_effect(
    pre: ManagerModel,
    post: ManagerModel,
    lobby_id: DraftLobbyId,
    player_id: PlayerId,
    pick_id: DraftItemId,
    now_ms: u64,
    r: (LobbyManagerResponse, Option<ScheduledDeadline>),
) -> bool {
    &&& post.db == pre.db
    &&& post.lobby_ids() == pre.lobby_ids()
    &&& !pre.has_lobby(lobby_id) ==> post == pre && (r.0 matches
        LobbyManagerResponse::LobbyErrorMsg(msg) && msg@ == spec_error_message(
        DraftError::LobbyNotFound,
    )) && r.1 is None
    &&& pre.has_lobby(lobby_id) ==> {
        let i = pre.lobby_idx(lobby_id);
        let lm = pre.lobbies[i].1;
        &&& forall|k: int|
            0 <= k < pre.lobbies.len() && k != i ==> #[trigger] post.lobbies[k] == pre.lobbies[k]
        &&& match lm.draft {
            Option::None => {
                &&& post.lobbies[i].1 == lm
                &&& r.1 is None
                &&& (r.0 matches LobbyManagerResponse::LobbyErrorMsg(msg) && msg@
                    == spec_error_message(DraftError::NotStarted))
            },
            Option::Some(d) => {
                if d.pick_enabled(player_id, pick_id) {
                    &&& r.0 is PickMade
                    &&& post.lobbies[i].1.joined == lm.joined
                    &&& ({
                        let d1 = d.spec_pick(player_id, pick_id);
                        if d1.round_done() && d1.rounds_remaining() > 0 {
                            &&& post.lobbies[i].1.draft == Some(d1.spec_next_round())
                            &&& post.lobbies[i].1.deadlines == lm.deadlines.push(
                                spec_deadline_seq(now_ms as int, lm.pack_size()),
                            )
                            &&& r.1 == Some(
                                (ScheduledDeadline {
                                    lobby_id,
                                    deadline: (DraftDeadline {
                                        round_number: (d1.current_round + 1) as usize,
                                        pick_number: 0,
                                        deadline: spec_deadline_at(
                                            now_ms as int,
                                            lm.pack_size(),
                                            0,
                                        ) as u64,
                                    }),
                                }),
                            )
                        } else {
                            &&& post.lobbies[i].1.draft == Some(d1)
                            &&& post.lobbies[i].1.deadlines == lm.deadlines
                            &&& r.1 is None
                        }
                    })
                } else {
                    &&& post.lobbies[i].1 == lm
                    &&& r.1 is None
                    &&& (r.0 matches LobbyManagerResponse::LobbyErrorMsg(msg) && msg@
                        == spec_error_message(
                        if !d.has_player(player_id) {
                            DraftError::PlayerNotFound
                        } else if d.players[d.player_idx(player_id)].pending.len() == 0 {
                            DraftError::NoPacks
                        } else {
                            DraftError::ItemNotInPack
                        },
                    ))
                }
            },
        }
    }
}

/// How a deadline firing changes the manager and what it hands back for
/// scheduling: exactly the lobby's snapshot-and-auto-pick step, with the
/// follow-on deadline wrapped with this lobby's id; an unknown lobby or
/// out-of-range indices change nothing.
pub open spec fn manager_enforce_effect(
    pre: ManagerModel,
    post: ManagerModel,
    lobby_id: DraftLobbyId,
    round_idx: usize,
    pick_idx: usize,
    now_ms: u64,
    r: Option<ScheduledDeadline>,
) -> bool {
    &&& post.db == pre.db
    &&& post.lobby_ids() == pre.lobby_ids()
    &&& (round_idx >= 0x10_0000 || pick_idx >= 0x10_0000) ==> post == pre && r is None
    &&& (round_idx < 0x10_0000 && pick_idx < 0x10_0000) ==> {
        &&& !pre.has_lobby(lobby_id) ==> post == pre && r is None
        &&& pre.has_lobby(lobby_id) ==> {
            let i = pre.lobby_idx(lobby_id);
            let lm = pre.lobbies[i].1;
            &&& forall|k: int|
                0 <= k < pre.lobbies.len() && k != i ==> #[trigger] post.lobbies[k]
                    == pre.lobbies[k]
            &&& match lm.draft {
                Option::None => post.lobbies[i].1 == lm && r is None,
                Option::Some(d0) => {
                    let min_alloc = lm.pack_size() * round_idx + pick_idx + 1;
                    let dv = spec_enforce(d0, min_alloc);
                    &&& post.lobbies[i].1.joined == lm.joined
                    &&& if dv.draft_done() {
                        &&& post.lobbies[i].1.draft == Some(dv)
                        &&& post.lobbies[i].1.deadlines == lm.deadlines
                        &&& r is None
                    } else if dv.round_done() && dv.rounds_remaining() > 0 {
                        &&& post.lobbies[i].1.draft == Some(dv.spec_next_round())
                        &&& post.lobbies[i].1.deadlines == lm.deadlines.push(
                            spec_deadline_seq(now_ms as int, lm.pack_size()),
                        )
                        &&& r == Some(
                            (ScheduledDeadline {
                                lobby_id,
                                deadline: (DraftDeadline {
                                    round_number: (dv.current_round + 1) as usize,
                                    pick_number: 0,
                                    deadline: spec_deadline_at(
                                        now_ms as int,
                                        lm.pack_size(),
                                        0,
                                    ) as u64,
                                }),
                            }),
                        )
                    } else {
                        &&& post.lobbies[i].1.draft == Some(dv)
                        &&& post.lobbies[i].1.deadlines == lm.deadlines
                        &&& r == (if pick_idx + 1 < lm.deadlines[d0.current_round].len() {
                            Some(
                                (ScheduledDeadline {
                                    lobby_id,
                                    deadline: (DraftDeadline {
                                        round_number: d0.current_round as usize,
                                        pick_number: (pick_idx + 1) as usize,
                                        deadline: lm.deadlines[d0.current_round][pick_idx + 1],
                                    }),
                                }),
                            )
                        } else {
                            Option::<ScheduledDeadline>::None
                        })
                    }
                },
            }
        }
    }
}

/// How a long-poll request changes the manager: a listener is parked at the
/// tail of the player's list exactly when the player is known in the
/// addressed lobby, the draft is unfinished and the fingerprint still
/// matches; otherwise the lobby's listeners are untouched (the client was
/// answered at once). An unknown lobby changes nothing.
pub open spec fn manager_listen_effect(
    pre: ManagerModel,
    post: ManagerModel,
    lobby_id: DraftLobbyId,
    player_id: PlayerId,
    game_state: GameState,
) -> bool {
    &&& post.db == pre.db
    &&& post.lobby_ids() == pre.lobby_ids()
    &&& !pre.has_lobby(lobby_id) ==> post == pre
    &&& pre.has_lobby(lobby_id) ==> {
        let i = pre.lobby_idx(lobby_id);
        let lm = pre.lobbies[i].1;
        &&& forall|k: int|
            0 <= k < pre.lobbies.len() && k != i ==> #[trigger] post.lobbies[k] == pre.lobbies[k]
        &&& post.lobbies[i].1.set_name == lm.set_name
        &&& post.lobbies[i].1.capacity == lm.capacity
        &&& post.lobbies[i].1.draft == lm.draft
        &&& post.lobbies[i].1.joined == lm.joined
        &&& post.lobbies[i].1.deadlines == lm.deadlines
        &&& ({
            let parked = lm.has_joined(player_id) && !lm.finished() && lm.spec_fingerprint(
                player_id,
            ) == game_state as int;
            if parked {
                post.lobbies[i].1.listeners == lm.listeners.update(
                    lm.joined_idx(player_id),
                    lm.listeners[lm.joined_idx(player_id)].push(
                        (ListenerModel { live: true, fingerprint: game_state }),
                    ),
                )
            } else {
                post.lobbies[i].1.listeners == lm.listeners
            }
        })
    }
}

/// What one synchronous request does to the manager and answers, by request
/// kind: lobby creation, admission, start, projection and picking per their
/// effects above; long-poll and deadline requests are not handled here and
/// are answered with an error.
pub open spec fn process_request_effect(
    pre: ManagerModel,
    post: ManagerModel,
    request: LobbyManagerRequest,
    now_ms: u64,
    r: (LobbyManagerResponse, Option<ScheduledDeadline>),
) -> bool {
    match request {
        LobbyManagerRequest::CreateLobby { set_name } => {
            &&& r.1 is None
            &&& ((r.0 matches LobbyManagerResponse::LobbyCreated(id) && create_lobby_effect(
                pre,
                post,
                set_name@,
                Some(id),
            )) || (r.0 matches LobbyManagerResponse::LobbyErrorMsg(msg) && msg@
                == spec_error_message(DraftError::SetUnknown) && create_lobby_effect(
                pre,
                post,
                set_name@,
                Option::None,
            )))
        },
        LobbyManagerRequest::JoinLobby { lobby_id, player_name } => r.1 is None
            && join_lobby_effect(pre, post, lobby_id, player_name@, r.0),
        LobbyManagerRequest::StartLobby { lobby_id } => start_lobby_effect(
            pre,
            post,
            lobby_id,
            now_ms,
            r,
        ),
        LobbyManagerRequest::GetLobbyState { lobby_id, player_id } => {
            &&& post == pre
            &&& r.1 is None
            &&& pre.has_lobby(lobby_id) ==> (r.0 matches LobbyManagerResponse::LobbyState(state)
                && state.lobby_id == lobby_id && state.player_id == player_id && state.game_state
                as int == pre.lobbies[pre.lobby_idx(lobby_id)].1.spec_fingerprint(player_id)
                && state.draft_is_finished == pre.lobbies[pre.lobby_idx(lobby_id)].1.finished())
            &&& !pre.has_lobby(lobby_id) ==> (r.0 matches LobbyManagerResponse::LobbyErrorMsg(msg)
                && msg@ == spec_error_message(DraftError::LobbyNotFound))
        },
        LobbyManagerRequest::MakePick { lobby_id, player_id, pick } => manager_pick_effect(
            pre,
            post,
            lobby_id,
            player_id,
            pick,
            now_ms,
            r,
        ),
        LobbyManagerRequest::BlockForUpdate { .. } => post == pre && r.0 is LobbyErrorMsg && r.1
            is None,
        LobbyManagerRequest::EnforceDeadline { .. } => post == pre && r.0 is LobbyErrorMsg && r.1
            is None,
    }
}

/// A distinct id list that holds every value below `m` has at least `m`
/// entries.
proof fn lemma_distinct_cover_len(ids: Seq<u64>, m: int)
    requires
        ids.no_duplicates(),
        0 <= m <= 0xFFFF_FFFF_FFFF_FFFF,
        forall|v: u64| v < m ==> ids.contains(v),
    ensures
        ids.len() >= m,
    decreases m,
{
    broadcast use vstd::seq_lib::group_to_multiset_ensures;

    if m > 0 {
        let last: u64 = (m - 1) as u64;
        assert(ids.contains(last));
        let k = choose|k: int| 0 <= k < ids.len() && ids[k] == last;
        let rest = ids.remove(k);
        assert(rest.no_duplicates()) by {
            assert forall|a: int, b: int|
                0 <= a < rest.len() && 0 <= b < rest.len() && a != b implies rest[a]
                != rest[b] by {
                let a0: int = if a < k {
                    a
                } else {
                    a + 1
                };
                let b0: int = if b < k {
                    b
                } else {
                    b + 1
                };
                assert(rest[a] == ids[a0]);
                assert(rest[b] == ids[b0]);
            }
        }
        assert forall|v: u64| v < m - 1 implies rest.contains(v) by {
            assert(ids.contains(v));
            assert(ids.to_multiset().count(v) >= 1);
            assert(rest.to_multiset() =~= ids.to_multiset().remove(last));
            assert(v != last);
            assert(rest.to_multiset().count(v) >= 1);
        }
        lemma_distinct_cover_len(rest, m - 1);
    }
}

/// The single-writer lobby manager: owns the item database and the active
/// lobbies, and executes one request at a time.
pub struct LobbyManager {
    draft_database: DraftDb,
    active_lobbies: Vec<(DraftLobbyId, DraftLobby)>,
}

impl View for LobbyManager {
    type V = ManagerModel;

    closed spec fn view(&self) -> ManagerModel {
        ManagerModel {
            db: self.draft_database@,
            lobbies: Seq::new(
                self.active_lobbies@.len(),
                |i: int| (self.active_lobbies@[i].0, self.active_lobbies@[i].1@),
            ),
        }
    }
}

impl LobbyManager {
    /// A manager over the given item database, with no active lobbies.
    pub fn new(draft_database: DraftDb) -> (m: LobbyManager)
        requires
            draft_database@.wf(),
        ensures
            m@.wf(),
            m@.db == draft_database@,
            m@.lobbies.len() == 0,
    {
        let m = LobbyManager { draft_database, active_lobbies: Vec::new() };
        proof {
            assert(m@.lobbies =~= Seq::<(DraftLobbyId, LobbyModel)>::empty());
            assert(m@.lobby_ids() =~= Seq::<DraftLobbyId>::empty());
        }
        m
    }

    /// A lobby id no active lobby carries: freshly drawn at random, with a
    /// deterministic sweep as a fallback against collisions.
    fn generate_lobby_id(&self) -> (id: DraftLobbyId)
        requires
            self@.wf(),
        ensures
            !self@.has_lobby(id),
    {
        let mut attempts: usize = 0;
        while attempts < 32
            invariant
                self@.wf(),
            decreases 32 - attempts,
        {
            let candidate: DraftLobbyId = crate::external::random_u64();
            if !self.has_lobby_id(candidate) {
                return candidate;
            }
            attempts += 1;
        }
        let n: usize = self.active_lobbies.len();
        let mut c: u64 = 0;
        while c <= n as u64
            invariant
                0 <= c <= n as u64 + 1,
                n == self.active_lobbies@.len(),
                n < 0x1000_0000,
                self@.wf(),
                forall|v: u64| v < c ==> self@.has_lobby(v),
            decreases n as u64 + 1 - c,
        {
            if !self.has_lobby_id(c) {
                return c;
            }
            c += 1;
        }
        proof {
            assert forall|v: u64| v < n as u64 + 1 implies self@.lobby_ids().contains(v) by {
                assert(self@.has_lobby(v));
            }
            lemma_distinct_cover_len(self@.lobby_ids(), n as int + 1);
            assert(self@.lobby_ids().len() == n);
            assert(false);
        }
        0
    }

    /// Whether some active lobby carries this id.
    fn has_lobby_id(&self, id: DraftLobbyId) -> (r: bool)
        ensures
            r == self@.has_lobby(id),
    {
        let n: usize = self.active_lobbies.len();
        let mut i: usize = 0;
        while i < n
            invariant
                0 <= i <= n,
                n == self.active_lobbies@.len(),
                forall|k: int| 0 <= k < n ==> #[trigger] self@.lobby_ids()[k]
                    == self.active_lobbies@[k].0,
                forall|k: int| 0 <= k < i ==> self.active_lobbies@[k].0 != id,
            decreases n - i,
        {
            if self.active_lobbies[i].0 == id {
                proof {
                    assert(self@.lobby_ids()[i as int] == id);
                }
                return true;
            }
            i += 1;
        }
        proof {
            if self@.lobby_ids().contains(id) {
                let k = choose|k: int| 0 <= k < n && self@.lobby_ids()[k] == id;
                assert(self.active_lobbies@[k].0 == id);
            }
        }
        false
    }

    /// The position of the lobby with this id, scanning in creation order.
    fn find_lobby(&self, id: DraftLobbyId) -> (r: Option<usize>)
        ensures
            match r {
                Some(i) => {
                    &&& 0 <= i < self@.lobbies.len()
                    &&& self@.lobbies[i as int].0 == id
                    &&& i as int == self@.lobby_idx(id)
                    &&& self@.has_lobby(id)
                },
                None => !self@.has_lobby(id),
            },
    {
        let n: usize = self.active_lobbies.len();
        let mut i: usize = 0;
        while i < n
            invariant
                0 <= i <= n,
                n == self.active_lobbies@.len(),
                forall|k: int| 0 <= k < n ==> #[trigger] self@.lobby_ids()[k]
                    == self.active_lobbies@[k].0,
                forall|k: int| 0 <= k < i ==> self.active_lobbies@[k].0 != id,
            decreases n - i,
        {
            if self.active_lobbies[i].0 == id {
                proof {
                    assert(self@.lobby_ids()[i as int] == id);
                    self@.lobby_ids().index_of_first_ensures(id);
                }
                return Some(i);
            }
            i += 1;
        }
        proof {
            if self@.lobby_ids().contains(id) {
                let k = choose|k: int| 0 <= k < n && self@.lobby_ids()[k] == id;
                assert(self.active_lobbies@[k].0 == id);
            }
        }
        None
    }
}

impl LobbyManager {
    /// Creates a lobby for `set_name` with the standard capacity and a fresh
    /// random id; refused when the set is unknown (or the manager is at its
    /// lobby limit).
    pub fn create_lobby(&mut self, set_name: String) -> (r: Option<DraftLobbyId>)
        requires
            old(self)@.wf(),
        ensures
            final(self)@.wf(),
            create_lobby_effect(old(self)@, final(self)@, set_name@, r),
    {
        if self.active_lobbies.len() >= 0x0FFF_FFFF {
            return None;
        }
        let known: bool = match self.draft_database.get_set(&set_name) {
            Some(_) => true,
            None => false,
        };
        if !known {
            return None;
        }
        let lobby_id: DraftLobbyId = self.generate_lobby_id();
        let lobby = DraftLobby::new(set_name, MAX_LOBBY_CAPACITY);
        let ghost m0 = old(self)@;
        self.active_lobbies.push((lobby_id, lobby));
        proof {
            assert(self@.lobbies =~~= m0.lobbies.push(
                (lobby_id, self.active_lobbies@.last().1@),
            ));
            assert(self@.lobby_ids() =~= m0.lobby_ids().push(lobby_id));
            assert(lobby_items_resolve(self@.lobbies.last().1, self@.db)) by {
                assert(!self@.lobbies.last().1.started());
            }
        }
        Some(lobby_id)
    }

    /// Admits `player_name` into the addressed lobby; any refusal is turned
    /// into an error-message reply.
    pub fn join_lobby(&mut self, lobby_id: DraftLobbyId, player_name: String) -> (r:
        LobbyManagerResponse)
        requires
            old(self)@.wf(),
        ensures
            final(self)@.wf(),
            join_lobby_effect(old(self)@, final(self)@, lobby_id, player_name@, r),
    {
        let i: usize = match self.find_lobby(lobby_id) {
            None => {
                return LobbyManagerResponse::LobbyErrorMsg(DraftError::LobbyNotFound.message());
            },
            Some(i) => i,
        };
        let ghost m0 = old(self)@;
        proof {
            assert(m0.lobbies[i as int].1.wf());
        }
        let outcome = self.active_lobbies[i].1.add_player(player_name);
        proof {
            assert(self@.lobbies =~~= m0.lobbies.update(
                i as int,
                (lobby_id, self.active_lobbies@[i as int].1@),
            ));
            assert(self@.lobby_ids() =~= m0.lobby_ids());
            assert(lobby_items_resolve(self@.lobbies[i as int].1, self@.db)) by {
                let lm0v = m0.lobbies[i as int].1;
                let lm1 = self@.lobbies[i as int].1;
                assert(lm1.draft == lm0v.draft);
                assert(lm1.set_name == lm0v.set_name);
                assert(lobby_items_resolve(lm0v, m0.db));
                match lm1.draft {
                    Option::None => {},
                    Option::Some(d) => {
                        assert forall|x: DraftItemId| #[trigger]
                            state_bag(d).count(x) > 0 implies self@.db.sets[first_index_of(
                            self@.db.set_names(),
                            lm1.set_name,
                        )].1.has_item(x) by {
                            assert(state_bag(d).count(x) > 0);
                        }
                    },
                }
            }
        }
        match outcome {
            Ok(player_id) => LobbyManagerResponse::LobbyJoined { lobby_id, player_id },
            Err(e) => LobbyManagerResponse::LobbyErrorMsg(e.message()),
        }
    }

    /// Starts the addressed lobby on its set's deduplicated item list; on
    /// success the round-zero pick-zero deadline is handed back for
    /// scheduling, and success is owed whenever the lobby can start.
    pub fn start_lobby(&mut self, lobby_id: DraftLobbyId, now_ms: u64) -> (r: (
        LobbyManagerResponse,
        Option<ScheduledDeadline>,
    ))
        requires
            old(self)@.wf(),
            now_ms <= 0xFFFF_FFFF_0000_0000u64,
        ensures
            final(self)@.wf(),
            start_lobby_effect(old(self)@, final(self)@, lobby_id, now_ms, r),
    {
        let i: usize = match self.find_lobby(lobby_id) {
            None => {
                return (
                    LobbyManagerResponse::LobbyErrorMsg(DraftError::LobbyNotFound.message()),
                    None,
                );
            },
            Some(i) => i,
        };
        let ghost m0 = old(self)@;
        let ghost lm0 = m0.lobbies[i as int].1;
        let ghost sm = m0.db.sets[first_index_of(m0.db.set_names(), lm0.set_name)].1;
        proof {
            assert(lm0.wf());
            assert(m0.db.set_names().contains(lm0.set_name));
        }
        let set = match self.draft_database.get_set(self.active_lobbies[i].1.get_set()) {
            Some(set) => set,
            None => {
                proof {
                    assert(false);
                }
                return (
                    LobbyManagerResponse::LobbyErrorMsg(DraftError::SetUnknown.message()),
                    None,
                );
            },
        };
        proof {
            let names = m0.db.set_names();
            let j = choose|j: int|
                0 <= j < m0.db.sets.len() && (#[trigger] m0.db.sets[j]).0 == lm0.set_name && set@
                    == m0.db.sets[j].1;
            assert(names[j] == lm0.set_name);
            names.index_of_first_ensures(lm0.set_name);
            match names.index_of_first(lm0.set_name) {
                Some(fi) => {
                    assert(names[fi] == lm0.set_name);
                    assert(fi == j);
                },
                None => {
                    assert(false);
                },
            }
            assert(sm == set@);
        }
        let item_list: Vec<DraftItemId> = set.get_item_list();
        proof {
            assert(item_list@.len() == sm.groups.len());
        }
        let outcome = self.active_lobbies[i].1.start(&item_list, now_ms);
        proof {
            broadcast use vstd::seq_lib::group_to_multiset_ensures;

            assert(self@.lobbies =~~= m0.lobbies.update(
                i as int,
                (lobby_id, self.active_lobbies@[i as int].1@),
            ));
            assert(self@.lobby_ids() =~= m0.lobby_ids());
            assert(lobby_items_resolve(self@.lobbies[i as int].1, self@.db)) by {
                let lm1 = self@.lobbies[i as int].1;
                assert(lm1.set_name == lm0.set_name);
                if outcome is Ok {
                    match lm1.draft {
                        Option::None => {},
                        Option::Some(d) => {
                            assert forall|x: DraftItemId| #[trigger]
                                state_bag(d).count(x) > 0 implies self@.db.sets[first_index_of(
                                self@.db.set_names(),
                                lm1.set_name,
                            )].1.has_item(x) by {
                                assert(state_bag(d).count(x) <= item_list@.to_multiset().count(x));
                                assert(item_list@.to_multiset().count(x) >= 1);
                                assert(item_list@.contains(x));
                                let t = choose|t: int|
                                    0 <= t < item_list@.len() && item_list@[t] == x;
                                assert(sm.has_item(item_list@[t]));
                            }
                        },
                    }
                } else {
                    assert(lm1 == lm0);
                    assert(lobby_items_resolve(lm0, m0.db));
                }
            }
        }
        match outcome {
            Ok(deadline) => (
                LobbyManagerResponse::LobbyStarted,
                Some(ScheduledDeadline { lobby_id, deadline }),
            ),
            Err(e) => (LobbyManagerResponse::LobbyErrorMsg(e.message()), None),
        }
    }

    /// Makes one pick in the addressed lobby; exactly when a new round
    /// begins, its first deadline is handed back for scheduling.
    pub fn make_pick(
        &mut self,
        lobby_id: DraftLobbyId,
        player_id: PlayerId,
        pick_id: DraftItemId,
        now_ms: u64,
    ) -> (r: (LobbyManagerResponse, Option<ScheduledDeadline>))
        requires
            old(self)@.wf(),
            now_ms <= 0xFFFF_FFFF_0000_0000u64,
        ensures
            final(self)@.wf(),
            manager_pick_effect(old(self)@, final(self)@, lobby_id, player_id, pick_id, now_ms, r),
    {
        let i: usize = match self.find_lobby(lobby_id) {
            None => {
                return (
                    LobbyManagerResponse::LobbyErrorMsg(DraftError::LobbyNotFound.message()),
                    None,
                );
            },
            Some(i) => i,
        };
        let ghost m0 = old(self)@;
        proof {
            assert(m0.lobbies[i as int].1.wf());
        }
        let outcome = self.active_lobbies[i].1.make_pick(player_id, pick_id, now_ms);
        proof {
            assert(self@.lobbies =~~= m0.lobbies.update(
                i as int,
                (lobby_id, self.active_lobbies@[i as int].1@),
            ));
            assert(self@.lobby_ids() =~= m0.lobby_ids());
            assert(lobby_items_resolve(self@.lobbies[i as int].1, self@.db)) by {
                let lm0v = m0.lobbies[i as int].1;
                let lm1 = self@.lobbies[i as int].1;
                assert(lobby_items_resolve(lm0v, m0.db));
                if outcome is Ok {
                    let d = lm0v.draft->Some_0;
                    let d1 = d.spec_pick(player_id, pick_id);
                    lemma_pick_preserves_wf(d, player_id, pick_id);
                    let df = if d1.round_done() && d1.rounds_remaining() > 0 {
                        lemma_next_round_wf(d1);
                        d1.spec_next_round()
                    } else {
                        d1
                    };
                    assert(lm1.draft == Some(df));
                    assert(lm1.set_name == lm0v.set_name);
                    assert forall|x: DraftItemId| #[trigger]
                        state_bag(df).count(x) > 0 implies self@.db.sets[first_index_of(
                        self@.db.set_names(),
                        lm1.set_name,
                    )].1.has_item(x) by {
                        assert(state_bag(df).count(x) == state_bag(d).count(x));
                        assert(state_bag(d).count(x) > 0);
                    }
                } else {
                    assert(lm1 == lm0v);
                }
            }
        }
        match outcome {
            Ok(maybe_deadline) => {
                let sched = match maybe_deadline {
                    Some(deadline) => Some(ScheduledDeadline { lobby_id, deadline }),
                    None => None,
                };
                (LobbyManagerResponse::PickMade, sched)
            },
            Err(e) => (LobbyManagerResponse::LobbyErrorMsg(e.message()), None),
        }
    }

    /// Fires a deadline in the addressed lobby; a follow-on deadline, if the
    /// game goes on, is handed back for scheduling. Unknown lobbies and
    /// out-of-range indices are ignored.
    pub fn enforce_deadline(
        &mut self,
        lobby_id: DraftLobbyId,
        round_idx: usize,
        pick_idx: usize,
        now_ms: u64,
    ) -> (r: Option<ScheduledDeadline>)
        requires
            old(self)@.wf(),
            now_ms <= 0xFFFF_FFFF_0000_0000u64,
        ensures
            final(self)@.wf(),
            manager_enforce_effect(
                old(self)@,
                final(self)@,
                lobby_id,
                round_idx,
                pick_idx,
                now_ms,
                r,
            ),
    {
        if round_idx >= 0x10_0000 || pick_idx >= 0x10_0000 {
            return None;
        }
        let i: usize = match self.find_lobby(lobby_id) {
            None => {
                return None;
            },
            Some(i) => i,
        };
        let ghost m0 = old(self)@;
        proof {
            assert(m0.lobbies[i as int].1.wf());
            assert(m0.lobbies[i as int].1.pack_size() <= 8);
            assert(m0.lobbies[i as int].1.pack_size() * round_idx <= 8 * 0x10_0000) by (
            nonlinear_arith)
                requires
                    0 <= m0.lobbies[i as int].1.pack_size() <= 8,
                    0 <= round_idx < 0x10_0000,
            ;
        }
        let outcome = self.active_lobbies[i].1.enforce_deadline(round_idx, pick_idx, now_ms);
        proof {
            assert(self@.lobbies =~~= m0.lobbies.update(
                i as int,
                (lobby_id, self.active_lobbies@[i as int].1@),
            ));
            assert(self@.lobby_ids() =~= m0.lobby_ids());
            assert(lobby_items_resolve(self@.lobbies[i as int].1, self@.db)) by {
                let lm0v = m0.lobbies[i as int].1;
                let lm1 = self@.lobbies[i as int].1;
                assert(lobby_items_resolve(lm0v, m0.db));
                assert(lm1.set_name == lm0v.set_name);
                match lm0v.draft {
                    Option::None => {
                        assert(lm1 == lm0v);
                    },
                    Option::Some(d0) => {
                        let min_alloc = lm0v.pack_size() * round_idx + pick_idx + 1;
                        let dv = crate::draft_engine::spec_enforce(d0, min_alloc);
                        lemma_enforce_conserves_items(d0, min_alloc);
                        let df = if !dv.draft_done() && dv.round_done() && dv.rounds_remaining()
                            > 0 {
                            lemma_next_round_wf(dv);
                            dv.spec_next_round()
                        } else {
                            dv
                        };
                        assert(lm1.draft == Some(df));
                        assert forall|x: DraftItemId| #[trigger]
                            state_bag(df).count(x) > 0 implies self@.db.sets[first_index_of(
                            self@.db.set_names(),
                            lm1.set_name,
                        )].1.has_item(x) by {
                            assert(state_bag(df).count(x) == state_bag(d0).count(x));
                            assert(state_bag(d0).count(x) > 0);
                        }
                    },
                }
            }
        }
        match outcome {
            Ok(Some(deadline)) => Some(ScheduledDeadline { lobby_id, deadline }),
            Ok(None) => None,
            Err(_) => None,
        }
    }

    /// Parks the reply channel as a listener in the addressed lobby, or
    /// answers at once with an error when the lobby does not exist.
    pub fn add_listener_for(
        &mut self,
        lobby_id: DraftLobbyId,
        player_id: PlayerId,
        game_state: GameState,
        listener: tokio::sync::oneshot::Sender<LobbyManagerResponse>,
    )
        requires
            old(self)@.wf(),
        ensures
            final(self)@.wf(),
            manager_listen_effect(old(self)@, final(self)@, lobby_id, player_id, game_state),
    {
        let i: usize = match self.find_lobby(lobby_id) {
            None => {
                let _delivered = crate::external::send_response(
                    listener,
                    LobbyManagerResponse::LobbyErrorMsg(DraftError::LobbyNotFound.message()),
                );
                return ;
            },
            Some(i) => i,
        };
        let ghost m0 = old(self)@;
        proof {
            assert(m0.lobbies[i as int].1.wf());
            assert(m0.lobbies[i as int].1.listeners_ok());
        }
        let outcome = self.active_lobbies[i].1.add_listener(player_id, game_state, listener);
        proof {
            assert(self@.lobbies =~~= m0.lobbies.update(
                i as int,
                (lobby_id, self.active_lobbies@[i as int].1@),
            ));
            assert(self@.lobby_ids() =~= m0.lobby_ids());
            assert(lobby_items_resolve(self@.lobbies[i as int].1, self@.db)) by {
                let lm0v = m0.lobbies[i as int].1;
                let lm1 = self@.lobbies[i as int].1;
                assert(lm1.draft == lm0v.draft);
                assert(lm1.set_name == lm0v.set_name);
                assert(lobby_items_resolve(lm0v, m0.db));
                match lm1.draft {
                    Option::None => {},
                    Option::Some(d) => {
                        assert forall|x: DraftItemId| #[trigger]
                            state_bag(d).count(x) > 0 implies self@.db.sets[first_index_of(
                            self@.db.set_names(),
                            lm1.set_name,
                        )].1.has_item(x) by {
                            assert(state_bag(d).count(x) > 0);
                        }
                    },
                }
            }
        }
    }
}

impl LobbyManager {
    /// Projects the lobby's state as seen by one player: admission info
    /// before the start, the head pack and allocation rendered against the
    /// item catalogue, the fingerprint, deadline countdown and progress.
    /// Every item a running draft holds resolves in its set (a manager
    /// invariant), so the rendered lists are complete.
    #[verifier::loop_isolation(false)]
    #[verifier::rlimit(100)]
    #[verifier::spinoff_prover]
    pub fn get_lobby_state(&self, lobby_id: DraftLobbyId, player_id: PlayerId, now_ms: u64) -> (r:
        Result<LobbyStateForPlayer, DraftError>)
        requires
            self@.wf(),
        ensures
            match r {
                Ok(state) => {
                    let lm = self@.lobbies[self@.lobby_idx(lobby_id)].1;
                    let sm = self@.db.sets[crate::draft_engine::first_index_of(
                        self@.db.set_names(),
                        lm.set_name,
                    )].1;
                    &&& self@.has_lobby(lobby_id)
                    &&& state.lobby_id == lobby_id
                    &&& state.player_id == player_id
                    &&& state.game_state as int == lm.spec_fingerprint(player_id)
                    &&& state.draft_is_finished == lm.finished()
                    &&& match lm.draft {
                        Option::Some(d) => {
                            if d.has_player(player_id) {
                                let alloc = d.players[d.player_idx(player_id)].allocated;
                                state.allocated_picks@.len() == alloc.len()
                                    && state.raw_picks@.len() == alloc.len() && (forall|t: int|
                                    0 <= t < alloc.len()
                                        ==> (#[trigger] state.allocated_picks@[t]).0@
                                        == sm.items[alloc[t] as int].1.template
                                        && state.allocated_picks@[t].1@
                                        == sm.items[alloc[t] as int].1.stats
                                        && state.raw_picks@[t]@ == sm.items[alloc[t] as int].1.raw)
                            } else {
                                state.allocated_picks@.len() == 0 && state.raw_picks@.len() == 0
                                    && state.pending_picks@.len() == 0
                            }
                        },
                        Option::None => state.allocated_picks@.len() == 0 && state.raw_picks@.len()
                            == 0 && state.pending_picks@.len() == 0,
                    }
                    &&& match lm.draft {
                        Option::Some(d) => {
                            if d.has_player(player_id) && d.players[d.player_idx(
                                player_id,
                            )].pending.len() > 0 {
                                let pack = d.current_packs()[d.head_pack_pos(
                                    d.player_idx(player_id),
                                )].items;
                                state.pending_picks@.len() == pack.len() && (forall|t: int|
                                    0 <= t < pack.len() ==> (#[trigger] state.pending_picks@[t]).0
                                        == pack[t] && state.pending_picks@[t].1@
                                        == sm.items[pack[t] as int].1.template
                                        && state.pending_picks@[t].2@
                                        == sm.items[pack[t] as int].1.stats)
                            } else {
                                state.pending_picks@.len() == 0
                            }
                        },
                        Option::None => true,
                    }
                    &&& if lm.started() {
                        state.joining_players@.len() == 0 && state.open_slots@.len() == 0
                    } else {
                        state.joining_players@.len() == lm.joined.len() && (forall|q: int|
                            0 <= q < lm.joined.len()
                                ==> #[trigger] state.joining_players@[q]@ == lm.joined[q].1)
                            && state.open_slots@.len() == lm.capacity - lm.joined.len() && (forall|q: int|
                            0 <= q < state.open_slots@.len() ==> #[trigger] state.open_slots@[q]@
                                == "Open Slot"@)
                    }
                    &&& match lm.draft {
                        Option::Some(d) => {
                            if d.has_player(player_id) {
                                state.rounds_and_picks.0 == d.current_round
                                    && state.rounds_and_picks.1 == d.num_rounds()
                                    && state.rounds_and_picks.2 == d.players[d.player_idx(
                                    player_id,
                                )].allocated.len() as int % lm.pack_size()
                                    && state.rounds_and_picks.3 == lm.pack_size()
                            } else {
                                state.rounds_and_picks == (0usize, 0usize, 0usize, 0usize)
                            }
                        },
                        Option::None => state.rounds_and_picks == (0usize, 0usize, 0usize, 0usize),
                    }
                    &&& match lm.draft {
                        Option::Some(d) => {
                            if d.has_player(player_id) {
                                let t = lm.deadlines[d.current_round][d.players[d.player_idx(
                                    player_id,
                                )].allocated.len() as int % lm.pack_size()];
                                state.time_to_pick_s == (if t >= now_ms {
                                    Some((((t - now_ms) / 1000) as u64))
                                } else {
                                    Option::<u64>::None
                                })
                            } else {
                                state.time_to_pick_s is None
                            }
                        },
                        Option::None => state.time_to_pick_s is None,
                    }
                    &&& match lm.draft {
                        Option::None => state.draft_order@.len() == 0,
                        Option::Some(d) => {
                            if d.draft_done() {
                                state.draft_order@.len() == 0
                            } else {
                                state.draft_order@.len() == d.turn_order.len() && (forall|q: int|
                                    0 <= q < state.draft_order@.len()
                                        ==> #[trigger] state.draft_order@[q]@ == lm.name_of(
                                        d.turn_order[
                                            if d.direction {
                                                q
                                            } else {
                                                d.turn_order.len() - 1 - q
                                            }
                                        ],
                                    ))
                            }
                        },
                    }
                },
                Err(e) => !self@.has_lobby(lobby_id) && e == DraftError::LobbyNotFound,
            },
    {
        let i: usize = match self.find_lobby(lobby_id) {
            None => {
                return Err(DraftError::LobbyNotFound);
            },
            Some(i) => i,
        };
        let lobby: &DraftLobby = &self.active_lobbies[i].1;
        proof {
            assert(self@.lobbies[i as int].1 == lobby@);
            assert(lobby@.wf());
            assert(self@.db.set_names().contains(lobby@.set_name));
        }
        let set = match self.draft_database.get_set(lobby.get_set()) {
            Some(set) => set,
            None => {
                proof {
                    assert(false);
                }
                return Err(DraftError::SetUnknown);
            },
        };
        let ghost sm = self@.db.sets[crate::draft_engine::first_index_of(
            self@.db.set_names(),
            lobby@.set_name,
        )].1;
        proof {
            let names = self@.db.set_names();
            let j = choose|j: int|
                0 <= j < self@.db.sets.len() && (#[trigger] self@.db.sets[j]).0 == lobby@.set_name
                    && set@ == self@.db.sets[j].1;
            assert(names[j] == lobby@.set_name);
            names.index_of_first_ensures(lobby@.set_name);
            match names.index_of_first(lobby@.set_name) {
                Some(fi) => {
                    assert(names[fi] == lobby@.set_name);
                    assert(fi == j);
                },
                None => {
                    assert(false);
                },
            }
            assert(sm == set@);
        }
        let started: bool = lobby.draft_has_started();
        let (joining_players, open_slots) = if started {
            (Vec::new(), Vec::new())
        } else {
            let joining_players = lobby.get_player_names();
            let mut open_slots: Vec<String> = Vec::new();
            let num_open: usize = MAX_LOBBY_CAPACITY - joining_players.len();
            let mut q: usize = 0;
            while q < num_open
                invariant
                    0 <= q <= num_open,
                    open_slots@.len() == q,
                    forall|k: int| 0 <= k < q ==> #[trigger] open_slots@[k]@ == "Open Slot"@,
                decreases num_open - q,
            {
                open_slots.push("Open Slot".to_owned());
                q += 1;
            }
            (joining_players, open_slots)
        };
        let mut pending_picks: Vec<(DraftItemId, String, String)> = Vec::new();
        let mut allocated_picks: Vec<(String, String)> = Vec::new();
        let mut raw_picks: Vec<String> = Vec::new();
        match lobby.get_player_draft_state(&player_id) {
            None => {},
            Some(state) => {
                let alloc: &Vec<DraftItemId> = &state.allocated_items;
                let ghost a_seq = alloc@;
                proof {
                    broadcast use vstd::seq_lib::group_to_multiset_ensures;

                    let d = lobby@.draft->Some_0;
                    let idx = d.player_idx(player_id);
                    d.turn_order.index_of_first_ensures(player_id);
                    assert(0 <= idx < d.players.len());
                    assert(a_seq == d.players[idx].allocated);
                    assert forall|t: int| 0 <= t < a_seq.len() implies sm.has_item(
                        #[trigger] a_seq[t],
                    ) by {
                        assert(d.players[idx].allocated.contains(a_seq[t]));
                        assert(d.players[idx].allocated.to_multiset().count(a_seq[t]) >= 1);
                        lemma_players_bag_member(d.players, idx, a_seq[t]);
                        assert(state_bag(d).count(a_seq[t]) > 0);
                    }
                }
                let n_alloc: usize = alloc.len();
                let mut q: usize = 0;
                while q < n_alloc
                    invariant
                        0 <= q <= n_alloc,
                        n_alloc == a_seq.len(),
                        alloc@ == a_seq,
                        set@.wf(),
                        sm == set@,
                        allocated_picks@.len() == raw_picks@.len(),
                        (forall|t: int| 0 <= t < q ==> sm.has_item(#[trigger] a_seq[t])) ==> (
                        allocated_picks@.len() == q && (forall|t: int|
                            0 <= t < q ==> (#[trigger] allocated_picks@[t]).0@
                                == sm.items[a_seq[t] as int].1.template && allocated_picks@[t].1@
                                == sm.items[a_seq[t] as int].1.stats && raw_picks@[t]@
                                == sm.items[a_seq[t] as int].1.raw)),
                    decreases n_alloc - q,
                {
                    match set.get_item_by_id(&alloc[q]) {
                        Some(item) => {
                            proof {
                                assert(sm.items[a_seq[q as int] as int].0 == a_seq[q as int]);
                                assert(sm.item_ids()[a_seq[q as int] as int] == a_seq[q as int]);
                                assert(sm.has_item(a_seq[q as int]));
                            }
                            allocated_picks.push(
                                (item.get_template().clone(), item.get_stats().clone()),
                            );
                            raw_picks.push(item.get_raw().clone());
                        },
                        None => {
                            proof {
                                if sm.has_item(a_seq[q as int]) {
                                    let w = choose|w: int|
                                        0 <= w < sm.item_ids().len() && sm.item_ids()[w] == a_seq[
                                        q as int];
                                    assert(sm.items[w].0 == w as DraftItemId);
                                }
                                assert(!sm.has_item(a_seq[q as int]));
                                assert(false);
                            }
                        },
                    }
                    q += 1;
                }
                match lobby.get_current_pack_contents_for_player(&player_id) {
                    None => {},
                    Some(pack_contents) => {
                        let ghost p_seq = pack_contents@;
                        proof {
                            broadcast use vstd::seq_lib::group_to_multiset_ensures;

                            let d = lobby@.draft->Some_0;
                            let idx = d.player_idx(player_id);
                            d.turn_order.index_of_first_ensures(player_id);
                            assert(0 <= idx < d.players.len());
                            let hp = d.head_pack_pos(idx);
                            assert(d.players[idx].pending[0] == d.players[idx].pending[0]);
                            assert(0 <= hp < d.current_packs().len());
                            assert(p_seq == d.current_packs()[hp].items);
                            assert forall|t: int| 0 <= t < p_seq.len() implies sm.has_item(
                                #[trigger] p_seq[t],
                            ) by {
                                assert(d.current_packs()[hp].items.contains(p_seq[t]));
                                assert(d.current_packs()[hp].items.to_multiset().count(p_seq[t])
                                    >= 1);
                                lemma_round_bag_member(d.current_packs(), hp, p_seq[t]);
                                assert(d.current_packs() == d.packs_by_round[d.current_round]);
                                lemma_rounds_bag_member(d.packs_by_round, d.current_round, p_seq[t]);
                                assert(state_bag(d).count(p_seq[t]) > 0);
                            }
                        }
                        let n_pack: usize = pack_contents.len();
                        let mut q: usize = 0;
                        while q < n_pack
                            invariant
                                0 <= q <= n_pack,
                                n_pack == p_seq.len(),
                                pack_contents@ == p_seq,
                                set@.wf(),
                                sm == set@,
                                (forall|t: int| 0 <= t < q ==> sm.has_item(#[trigger] p_seq[t]))
                                    ==> (pending_picks@.len() == q && (forall|t: int|
                                    0 <= t < q ==> (#[trigger] pending_picks@[t]).0 == p_seq[t]
                                        && pending_picks@[t].1@ == sm.items[p_seq[t] as int].1.template
                                        && pending_picks@[t].2@ == sm.items[p_seq[t] as int].1.stats)),
                            decreases n_pack - q,
                        {
                            let item_id: DraftItemId = pack_contents[q];
                            match set.get_item_by_id(&item_id) {
                                Some(item) => {
                                    proof {
                                        assert(sm.items[p_seq[q as int] as int].0 == p_seq[
                                        q as int]);
                                        assert(sm.item_ids()[p_seq[q as int] as int] == p_seq[
                                        q as int]);
                                        assert(sm.has_item(p_seq[q as int]));
                                    }
                                    pending_picks.push(
                                        (
                                            item_id,
                                            item.get_template().clone(),
                                            item.get_stats().clone(),
                                        ),
                                    );
                                },
                                None => {
                                    proof {
                                        if sm.has_item(p_seq[q as int]) {
                                            let w = choose|w: int|
                                                0 <= w < sm.item_ids().len() && sm.item_ids()[w]
                                                    == p_seq[q as int];
                                            assert(sm.items[w].0 == w as DraftItemId);
                                        }
                                        assert(!sm.has_item(p_seq[q as int]));
                                        assert(false);
                                    }
                                },
                            }
                            q += 1;
                        }
                    },
                }
            },
        }
        let game_state: GameState = lobby.compute_state(&player_id);
        let draft_is_finished: bool = lobby.draft_is_finished();
        let time_to_pick_s: Option<u64> = match lobby.get_next_deadline_for_player(&player_id) {
            Some(deadline) => {
                if deadline >= now_ms {
                    Some((deadline - now_ms) / 1000)
                } else {
                    None
                }
            },
            None => None,
        };
        let draft_order: Vec<String> = lobby.get_draft_order();
        let rounds_and_picks: (usize, usize, usize, usize) = match lobby
            .get_draft_progress_for_player(&player_id) {
            Some(progress) => progress,
            None => (0, 0, 0, 0),
        };
        Ok(
            LobbyStateForPlayer {
                lobby_id,
                player_id,
                joining_players,
                open_slots,
                pending_picks,
                allocated_picks,
                game_state,
                draft_is_finished,
                time_to_pick_s,
                draft_order,
                rounds_and_picks,
                raw_picks,
            },
        )
    }

    /// Executes one synchronous request and returns the reply, together with
    /// any follow-on deadline to hand to the timer; each request kind acts
    /// and answers exactly as its effect states.
    pub fn process_request(&mut self, request: LobbyManagerRequest, now_ms: u64) -> (r: (
        LobbyManagerResponse,
        Option<ScheduledDeadline>,
    ))
        requires
            old(self)@.wf(),
            now_ms <= 0xFFFF_FFFF_0000_0000u64,
        ensures
            final(self)@.wf(),
            final(self)@.db == old(self)@.db,
            process_request_effect(old(self)@, final(self)@, request, now_ms, r),
    {
        match request {
            LobbyManagerRequest::CreateLobby { set_name } => {
                match self.create_lobby(set_name) {
                    Some(lobby_id) => (LobbyManagerResponse::LobbyCreated(lobby_id), None),
                    None => (
                        LobbyManagerResponse::LobbyErrorMsg(DraftError::SetUnknown.message()),
                        None,
                    ),
                }
            },
            LobbyManagerRequest::JoinLobby { lobby_id, player_name } => (
                self.join_lobby(lobby_id, player_name),
                None,
            ),
            LobbyManagerRequest::StartLobby { lobby_id } => self.start_lobby(lobby_id, now_ms),
            LobbyManagerRequest::GetLobbyState { lobby_id, player_id } => {
                match self.get_lobby_state(lobby_id, player_id, now_ms) {
                    Ok(state) => (LobbyManagerResponse::LobbyState(state), None),
                    Err(e) => (LobbyManagerResponse::LobbyErrorMsg(e.message()), None),
                }
            },
            LobbyManagerRequest::MakePick { lobby_id, player_id, pick } => self.make_pick(
                lobby_id,
                player_id,
                pick,
                now_ms,
            ),
            LobbyManagerRequest::BlockForUpdate { .. } => (
                LobbyManagerResponse::LobbyErrorMsg(DraftError::LobbyNotFound.message()),
                None,
            ),
            LobbyManagerRequest::EnforceDeadline { .. } => (
                LobbyManagerResponse::LobbyErrorMsg(DraftError::LobbyNotFound.message()),
                None,
            ),
        }
    }

    /// Executes one task from the queue: a long-poll request is parked as a
    /// listener and never answered synchronously, a deadline firing runs with
    /// its reply channel discarded, and every other request acts per its
    /// effect and is answered once on its one-shot channel (delivery is best
    /// effort; a receiver that went away is tolerated). Returns any follow-on
    /// deadline to hand to the timer.
    pub fn handle_task(
        &mut self,
        request: LobbyManagerRequest,
        response_channel: tokio::sync::oneshot::Sender<LobbyManagerResponse>,
        now_ms: u64,
    ) -> (r: Option<ScheduledDeadline>)
        requires
            old(self)@.wf(),
            now_ms <= 0xFFFF_FFFF_0000_0000u64,
        ensures
            final(self)@.wf(),
            final(self)@.db == old(self)@.db,
            match request {
                LobbyManagerRequest::BlockForUpdate { lobby_id, player_id, game_state } => r
                    is None && manager_listen_effect(
                    old(self)@,
                    final(self)@,
                    lobby_id,
                    player_id,
                    game_state,
                ),
                LobbyManagerRequest::EnforceDeadline { lobby_id, round_number, pick_number } => manager_enforce_effect(
                    old(self)@,
                    final(self)@,
                    lobby_id,
                    round_number,
                    pick_number,
                    now_ms,
                    r,
                ),
                _ => exists|resp: LobbyManagerResponse|
                    process_request_effect(old(self)@, final(self)@, request, now_ms, (resp, r)),
            },
    {
        match request {
            LobbyManagerRequest::BlockForUpdate { lobby_id, player_id, game_state } => {
                self.add_listener_for(lobby_id, player_id, game_state, response_channel);
                None
            },
            LobbyManagerRequest::EnforceDeadline { lobby_id, round_number, pick_number } => {
                self.enforce_deadline(lobby_id, round_number, pick_number, now_ms)
            },
            other => {
                let ghost req0 = other;
                let (response, sched) = self.process_request(other, now_ms);
                let ghost resp0 = response;
                let _delivered = crate::external::send_response(response_channel, response);
                proof {
                    assert(process_request_effect(old(self)@, self@, req0, now_ms, (resp0, sched)));
                }
                sched
            },
        }
    }
}

} // verus!
