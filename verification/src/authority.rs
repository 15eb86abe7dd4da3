use vstd::prelude::*;

use crate::grid::{in_grid, spec_start_coords, spec_step, start_coords, Coord, MoveRequest};
use crate::items::{all_items, spec_item_coords, AvailableItems, Item};
use crate::maze::{connected, edge_blocked, Maze};
use crate::state::roll_die;
use crate::seq_facts::{
    lemma_prefix_push, lemma_prefix_refl, lemma_prefix_trans, lemma_push_contains,
    lemma_remove_contains, lemma_remove_insert_is_update, lemma_remove_no_duplicates,
};
use crate::state::{GameEvent, GameState, TurnPhase};

verus! {

/// One player's record, held only by the authority and replicated outward.
pub struct Player {
    pub client_id: u64,
    pub coords: Coord,
    pub prev_coords: Coord,
    pub player_number: usize,
    pub target_item: Option<Item>,
    pub achieved_items: Vec<Item>,
}

/// Well-formedness of the player record stored at `index`.
pub open spec fn player_wf(p: Player, index: int) -> bool {
    &&& p.player_number == index
    &&& in_grid(p.coords)
    &&& in_grid(p.prev_coords)
    &&& p.achieved_items@.len() <= 5
    &&& (p.target_item matches Some(t) ==> !p.achieved_items@.contains(t))
}

/// The whole authoritative session state: the maze, the player registry,
/// the die, the turn state machine, the item pool, and the buffer of
/// events to broadcast after the tick.
pub struct Authority {
    pub maze: Maze,
    pub players: Vec<Player>,
    pub dice: u8,
    pub game_state: GameState,
    pub turn_phase: TurnPhase,
    pub current_turn: usize,
    pub max_players: usize,
    pub available_items: AvailableItems,
    pub events: Vec<GameEvent>,
}

impl Authority {
    /// The pool never holds an item that is some player's current target
    /// or already achieved, and never holds an item twice.
    pub open spec fn items_wf(self) -> bool {
        &&& self.available_items.items@.no_duplicates()
        &&& forall|i: int|
            0 <= i < self.players@.len() ==> {
                let p = #[trigger] self.players@[i];
                &&& (p.target_item matches Some(t) ==> !self.available_items.items@.contains(t))
                &&& forall|k: int|
                    0 <= k < p.achieved_items@.len() ==> !self.available_items.items@.contains(
                        #[trigger] p.achieved_items@[k],
                    )
            }
    }

    /// The session invariant.
    pub open spec fn wf(self) -> bool {
        &&& self.maze.wf()
        &&& connected(self.maze.hbars@, self.maze.vbars@)
        &&& 1 <= self.max_players <= 4
        &&& self.players@.len() <= self.max_players
        &&& (forall|i: int|
            0 <= i < self.players@.len() ==> player_wf(#[trigger] self.players@[i], i))
        &&& self.current_turn < self.max_players
        &&& (self.game_state is WaitingPlayers <==> self.players@.len() < self.max_players)
        &&& self.dice <= 4
        &&& (self.turn_phase matches TurnPhase::Moving { steps_taken } ==> 1 <= self.dice
            && steps_taken <= self.dice)
        &&& (!(self.game_state is Win) ==> forall|i: int|
            0 <= i < self.players@.len() ==> (#[trigger] self.players@[i]).achieved_items@.len()
                < 5)
        &&& (self.game_state is Win ==> exists|i: int|
            0 <= i < self.players@.len() && (#[trigger] self.players@[i]).achieved_items@.len()
                == 5)
        &&& self.items_wf()
    }

    /// Whether `client_id` belongs to the player whose turn it is. With a
    /// well-formed registry this matches scanning for a player that has
    /// both this connection and the current turn index.
    pub open spec fn spec_turn_holder(self, client_id: u64) -> bool {
        self.current_turn < self.players@.len() && self.players@[self.current_turn as int].client_id
            == client_id
    }

    /// A fresh session around a generated maze, before any connection.
    pub fn new(maze: Maze, max_players: usize) -> (authority: Authority)
        requires
            maze.wf(),
            connected(maze.hbars@, maze.vbars@),
            1 <= max_players <= 4,
        ensures
            authority.wf(),
            authority.maze == maze,
            authority.players@.len() == 0,
            authority.dice == 0,
            authority.game_state is WaitingPlayers,
            authority.turn_phase is Rolling,
            authority.current_turn == 0,
            authority.max_players == max_players,
            authority.available_items.items@ == all_items(),
            authority.events@.len() == 0,
    {
        let authority = Authority {
            maze,
            players: Vec::new(),
            dice: 0,
            game_state: GameState::WaitingPlayers,
            turn_phase: TurnPhase::Rolling,
            current_turn: 0,
            max_players,
            available_items: AvailableItems::new(),
            events: Vec::new(),
        };
        proof {
            assert(all_items().no_duplicates());
        }
        authority
    }

    /// Accept a new connection: create its player record in the next free
    /// corner with a target drawn from the pool, and start the game the
    /// tick the last expected player arrives. The transport refuses
    /// connections beyond `max_players`, so a session that is full (or
    /// already won) never sees this call.
    pub fn handle_connect(&mut self, client_id: u64)
        requires
            old(self).wf(),
            old(self).players@.len() < old(self).max_players,
        ensures
            final(self).wf(),
            final(self).players@.len() == old(self).players@.len() + 1,
            forall|i: int|
                0 <= i < old(self).players@.len() ==> #[trigger] final(self).players@[i] == old(
                    self,
                ).players@[i],
            ({
                let p = final(self).players@.last();
                &&& p.client_id == client_id
                &&& p.player_number == old(self).players@.len()
                &&& p.coords == spec_start_coords(old(self).players@.len() as int)
                &&& p.prev_coords == p.coords
                &&& p.achieved_items@.len() == 0
                &&& (p.target_item is Some <==> old(self).available_items.items@.len() > 0)
                &&& (p.target_item matches Some(t) ==> exists|j: int|
                    0 <= j < old(self).available_items.items@.len() && t == old(
                        self,
                    ).available_items.items@[j] && final(self).available_items.items@ == old(
                        self,
                    ).available_items.items@.remove(j))
                &&& (p.target_item is None ==> final(self).available_items.items@ == old(
                    self,
                ).available_items.items@)
            }),
            final(self).game_state == (if old(self).players@.len() + 1 == old(self).max_players {
                GameState::InGame
            } else {
                GameState::WaitingPlayers
            }),
            old(self).players@.len() + 1 == old(self).max_players ==> final(self).events@ == old(
                self,
            ).events@.push(GameEvent::GameStateChange(GameState::InGame)),
            old(self).players@.len() + 1 < old(self).max_players ==> final(self).events@ == old(
                self,
            ).events@,
            final(self).turn_phase == old(self).turn_phase,
            final(self).current_turn == old(self).current_turn,
            final(self).dice == old(self).dice,
            final(self).maze == old(self).maze,
            final(self).max_players == old(self).max_players,
    {
        let player_number = self.players.len();
        let coords = start_coords(player_number);
        let target_item = self.available_items.take_random();
        proof {
            if target_item is Some {
                let j = choose|j: int|
                    0 <= j < old(self).available_items.items@.len() && target_item->0 == old(
                        self,
                    ).available_items.items@[j] && self.available_items.items@ == old(
                        self,
                    ).available_items.items@.remove(j);
                lemma_remove_no_duplicates(old(self).available_items.items@, j);
                assert forall|x: Item| self.available_items.items@.contains(x) implies old(
                    self,
                ).available_items.items@.contains(x) by {
                    lemma_remove_contains(old(self).available_items.items@, j, x);
                }
            }
        }
        let player = Player {
            client_id,
            coords,
            prev_coords: coords,
            player_number,
            target_item,
            achieved_items: Vec::new(),
        };
        self.players.push(player);
        if self.players.len() == self.max_players {
            self.game_state = GameState::InGame;
            self.events.push(GameEvent::GameStateChange(GameState::InGame));
        }
    }

    /// Resolve one roll request: only the turn holder, and only in the
    /// rolling phase, rolls the die and opens the moving phase; any other
    /// roll request is silently dropped.
    pub fn handle_roll(&mut self, client_id: u64)
        requires
            old(self).wf(),
            old(self).game_state is InGame,
        ensures
            final(self).wf(),
            old(self).turn_phase is Rolling && old(self).spec_turn_holder(client_id) ==> {
                &&& 1 <= final(self).dice <= 4
                &&& final(self).turn_phase == (TurnPhase::Moving { steps_taken: 0 })
                &&& final(self).events@ == old(self).events@.push(
                    GameEvent::TurnPhaseChange(TurnPhase::Moving { steps_taken: 0 }),
                )
            },
            !(old(self).turn_phase is Rolling && old(self).spec_turn_holder(client_id))
                ==> *final(self) == *old(self),
            final(self).players@ == old(self).players@,
            final(self).game_state == old(self).game_state,
            final(self).current_turn == old(self).current_turn,
            final(self).maze == old(self).maze,
            final(self).max_players == old(self).max_players,
            final(self).available_items == old(self).available_items,
            old(self).events@.is_prefix_of(final(self).events@),
            roll_outcome(*old(self), *final(self), client_id),
    {
        proof {
            lemma_prefix_refl(self.events@);
        }
        if !matches!(self.turn_phase, TurnPhase::Rolling) {
            return;
        }
        let t = self.current_turn;
        if t < self.players.len() && self.players[t].client_id == client_id {
            self.dice = roll_die();
            self.turn_phase = TurnPhase::Moving { steps_taken: 0 };
            let phase_event = GameEvent::TurnPhaseChange(TurnPhase::Moving { steps_taken: 0 });
            proof {
                lemma_prefix_push(old(self).events@, old(self).events@, phase_event);
            }
            self.events.push(phase_event);
        }
    }

    /// Resolve one move request against the current state during the
    /// moving phase; returns the step count after the request. A request
    /// from the wrong connection, with no steps left, or aiming off the
    /// board is silently dropped. A move into a barrier sends the mover
    /// back to its start corner and forfeits the rest of the turn; a clear
    /// move takes the step and picks up the target item if the new cell
    /// holds it, winning the session on the fifth pickup.
    pub fn process_move(&mut self, client_id: u64, req: MoveRequest, steps_taken: u8) -> (new_steps:
        u8)
        requires
            old(self).wf(),
            old(self).game_state is InGame,
            1 <= old(self).dice,
            steps_taken <= old(self).dice,
        ensures
            final(self).wf(),
            move_outcome(*old(self), *final(self), client_id, req, steps_taken, new_steps),
            steps_taken <= new_steps <= old(self).dice,
            old(self).events@.is_prefix_of(final(self).events@),
            final(self).game_state is InGame || final(self).game_state is Win,
    {
        proof {
            lemma_prefix_refl(self.events@);
        }
        if steps_taken == self.dice {
            return steps_taken;
        }
        let t = self.current_turn;
        if !(t < self.players.len() && self.players[t].client_id == client_id) {
            return steps_taken;
        }
        let mover_coords = self.players[t].coords;
        let next = mover_coords.step(req);
        if next.x < 0 || next.x >= 6 || next.y < 0 || next.y >= 6 {
            return steps_taken;
        }
        let mut mover = self.players.remove(t);
        mover.prev_coords = mover.coords;
        if self.maze.is_blocked(mover_coords, next) {
            self.events.push(
                GameEvent::StartMoveAnimation { client_id, fail: true, move_to: next },
            );
            mover.coords = start_coords(t);
            self.players.insert(t, mover);
            proof {
                let t = t as int;
                lemma_remove_insert_is_update(
                    old(self).players@,
                    t,
                    old(self).players@[t],
                );
                assert(self.players@ =~= old(self).players@.update(t, self.players@[t]));
                lemma_prefix_push(
                    old(self).events@,
                    old(self).events@,
                    GameEvent::StartMoveAnimation { client_id, fail: true, move_to: next },
                );
            }
            return self.dice;
        }
        self.events.push(GameEvent::StartMoveAnimation { client_id, fail: false, move_to: next });
        proof {
            lemma_prefix_push(
                old(self).events@,
                old(self).events@,
                GameEvent::StartMoveAnimation { client_id, fail: false, move_to: next },
            );
        }
        mover.coords = next;
        let new_steps = steps_taken + 1;
        let mut won = false;
        if let Some(item) = mover.target_item {
            let item_cell = item.coords();
            if next == item_cell {
                mover.achieved_items.push(item);
                proof {
                    assert forall|x: Item| mover.achieved_items@.contains(x) implies old(
                        self,
                    ).players@[t as int].achieved_items@.contains(x) || x == item by {
                        lemma_push_contains(
                            old(self).players@[t as int].achieved_items@,
                            item,
                            x,
                        );
                    }
                }
                if mover.achieved_items.len() >= 5 {
                    mover.target_item = None;
                    self.game_state = GameState::Win;
                    won = true;
                } else {
                    let fresh = self.available_items.take_random();
                    proof {
                        if fresh is Some {
                            let j = choose|j: int|
                                0 <= j < old(self).available_items.items@.len() && fresh->0 == old(
                                    self,
                                ).available_items.items@[j] && self.available_items.items@ == old(
                                    self,
                                ).available_items.items@.remove(j);
                            lemma_remove_no_duplicates(old(self).available_items.items@, j);
                            assert forall|x: Item|
                                self.available_items.items@.contains(x) implies old(
                                self,
                            ).available_items.items@.contains(x) by {
                                lemma_remove_contains(old(self).available_items.items@, j, x);
                            }
                        }
                    }
                    mover.target_item = fresh;
                }
            }
        }
        self.players.insert(t, mover);
        if won {
            self.events.push(GameEvent::GameStateChange(GameState::Win));
            proof {
                lemma_prefix_push(
                    old(self).events@,
                    old(self).events@.push(
                        GameEvent::StartMoveAnimation { client_id, fail: false, move_to: next },
                    ),
                    GameEvent::GameStateChange(GameState::Win),
                );
            }
        }
        proof {
            let t = t as int;
            lemma_remove_insert_is_update(old(self).players@, t, self.players@[t]);
            assert(self.players@ =~= old(self).players@.update(t, self.players@[t]));
        }
        new_steps
    }

    /// Run one authority tick over the request queues drained from the
    /// transport: every roll request first, then every move request
    /// against the resulting phase, then the single phase or turn
    /// transition the batch earned. A winning move stops the batch at
    /// once. Outside the in-game state the tick is a no-op, so once the
    /// session is won (or while players are still awaited) no request
    /// changes anything. The batch's exact effect, request by request, is
    /// the `tick_outcome` relation below.
    pub fn tick(&mut self, roll_requests: &Vec<u64>, move_requests: &Vec<(u64, MoveRequest)>)
        requires
            old(self).wf(),
        ensures
            final(self).wf(),
            !(old(self).game_state is InGame) ==> *final(self) == *old(self),
            final(self).maze == old(self).maze,
            final(self).max_players == old(self).max_players,
            final(self).players@.len() == old(self).players@.len(),
            old(self).events@.is_prefix_of(final(self).events@),
            final(self).game_state == old(self).game_state || (old(self).game_state is InGame
                && final(self).game_state is Win),
            final(self).current_turn == old(self).current_turn || (final(self).current_turn as int
                == (old(self).current_turn + 1) as int % (old(self).max_players as int)
                && final(self).turn_phase is Rolling
                && final(self).game_state == old(self).game_state),
            tick_outcome(*old(self), *final(self), roll_requests@, move_requests@),
    {
        proof {
            lemma_prefix_refl(self.events@);
        }
        if !matches!(self.game_state, GameState::InGame) {
            return;
        }
        proof {
            assert(roll_requests@.take(0) =~= Seq::<u64>::empty());
        }
        let mut k: usize = 0;
        while k < roll_requests.len()
            invariant
                self.wf(),
                old(self).game_state is InGame,
                self.game_state is InGame,
                k <= roll_requests@.len(),
                self.maze == old(self).maze,
                self.max_players == old(self).max_players,
                self.players@.len() == old(self).players@.len(),
                self.current_turn == old(self).current_turn,
                old(self).events@.is_prefix_of(self.events@),
                rolls_outcome(*old(self), *self, roll_requests@.take(k as int)),
            decreases roll_requests@.len() - k,
        {
            let ghost mid = self.events@;
            let ghost pre = *self;
            self.handle_roll(roll_requests[k]);
            proof {
                lemma_prefix_trans(old(self).events@, mid, self.events@);
                lemma_rolls_outcome_push(
                    *old(self),
                    pre,
                    *self,
                    roll_requests@.take(k as int),
                    roll_requests@[k as int],
                );
                assert(roll_requests@.take(k as int + 1) =~= roll_requests@.take(k as int).push(
                    roll_requests@[k as int],
                ));
            }
            k += 1;
        }
        let ghost after_rolls = *self;
        proof {
            assert(roll_requests@.take(roll_requests@.len() as int) =~= roll_requests@);
            assert(rolls_outcome(*old(self), after_rolls, roll_requests@));
        }
        let phase = self.turn_phase;
        if let TurnPhase::Moving { steps_taken } = phase {
            let dice_value = self.dice;
            let mut new_steps = steps_taken;
            proof {
                assert(move_requests@.take(0) =~= Seq::<(u64, MoveRequest)>::empty());
            }
            let mut k2: usize = 0;
            while k2 < move_requests.len()
                invariant
                    self.wf(),
                    old(self).game_state is InGame,
                    self.game_state is InGame,
                    k2 <= move_requests@.len(),
                    1 <= dice_value <= 4,
                    self.dice == dice_value,
                    steps_taken <= new_steps <= dice_value,
                    self.turn_phase == (TurnPhase::Moving { steps_taken }),
                    self.maze == old(self).maze,
                    self.max_players == old(self).max_players,
                    self.players@.len() == old(self).players@.len(),
                    self.current_turn == old(self).current_turn,
                    old(self).events@.is_prefix_of(self.events@),
                    rolls_outcome(*old(self), after_rolls, roll_requests@),
                    after_rolls.turn_phase == (TurnPhase::Moving { steps_taken }),
                    moves_outcome(
                        after_rolls,
                        *self,
                        move_requests@.take(k2 as int),
                        steps_taken,
                        new_steps,
                    ),
                decreases move_requests@.len() - k2,
            {
                let (cid, mreq) = move_requests[k2];
                let ghost mid = self.events@;
                let ghost pre = *self;
                let ghost pre_steps = new_steps;
                new_steps = self.process_move(cid, mreq, new_steps);
                proof {
                    lemma_prefix_trans(old(self).events@, mid, self.events@);
                }
                if matches!(self.game_state, GameState::Win) {
                    proof {
                        lemma_moves_outcome_win(
                            after_rolls,
                            pre,
                            *self,
                            move_requests@.take(k2 as int),
                            move_requests@.skip(k2 as int + 1),
                            cid,
                            mreq,
                            steps_taken,
                            pre_steps,
                            new_steps,
                        );
                        assert((cid, mreq) == move_requests@[k2 as int]);
                        assert(move_requests@.take(k2 as int).push(move_requests@[k2 as int])
                            + move_requests@.skip(k2 as int + 1) =~= move_requests@);
                        assert(moves_outcome(
                            after_rolls,
                            *self,
                            move_requests@,
                            steps_taken,
                            new_steps,
                        ));
                        assert(tick_outcome(
                            *old(self),
                            *self,
                            roll_requests@,
                            move_requests@,
                        ));
                    }
                    return;
                }
                proof {
                    lemma_moves_outcome_push(
                        after_rolls,
                        pre,
                        *self,
                        move_requests@.take(k2 as int),
                        cid,
                        mreq,
                        steps_taken,
                        pre_steps,
                        new_steps,
                    );
                    assert((cid, mreq) == move_requests@[k2 as int]);
                    assert(move_requests@.take(k2 as int + 1) =~= move_requests@.take(
                        k2 as int,
                    ).push((cid, mreq)));
                }
                k2 += 1;
            }
            let ghost after_moves = *self;
            proof {
                assert(move_requests@.take(move_requests@.len() as int) =~= move_requests@);
                assert(moves_outcome(
                    after_rolls,
                    after_moves,
                    move_requests@,
                    steps_taken,
                    new_steps,
                ));
            }
            if new_steps != steps_taken {
                if new_steps >= dice_value {
                    self.current_turn = (self.current_turn + 1) % self.max_players;
                    let turn_event = GameEvent::CurrentTurnChange(self.current_turn);
                    proof {
                        lemma_prefix_push(old(self).events@, self.events@, turn_event);
                    }
                    self.events.push(turn_event);
                    self.turn_phase = TurnPhase::Rolling;
                    let phase_event = GameEvent::TurnPhaseChange(TurnPhase::Rolling);
                    proof {
                        lemma_prefix_push(old(self).events@, self.events@, phase_event);
                    }
                    self.events.push(phase_event);
                } else {
                    self.turn_phase = TurnPhase::Moving { steps_taken: new_steps };
                    let phase_event = GameEvent::TurnPhaseChange(
                        TurnPhase::Moving { steps_taken: new_steps },
                    );
                    proof {
                        lemma_prefix_push(old(self).events@, self.events@, phase_event);
                    }
                    self.events.push(phase_event);
                }
            }
            proof {
                assert(end_of_batch(after_moves, *self, steps_taken, new_steps));
                assert(tick_outcome(*old(self), *self, roll_requests@, move_requests@));
            }
        } else {
            proof {
                assert(tick_outcome(*old(self), *self, roll_requests@, move_requests@));
            }
        }
    }
}

/// Penalty law: a move into a blocked edge always sends the mover back to
/// its own start corner and forces the step count to the die value — so
/// the tick that resolves it ends the turn — no matter how many steps were
/// already taken.
pub proof fn lemma_blocked_move_penalty(
    s: Authority,
    s2: Authority,
    client_id: u64,
    req: MoveRequest,
    steps_taken: u8,
    new_steps: u8,
)
    requires
        s.wf(),
        move_outcome(s, s2, client_id, req, steps_taken, new_steps),
        steps_taken != s.dice,
        s.spec_turn_holder(client_id),
        in_grid(spec_step(s.players@[s.current_turn as int].coords, req)),
        edge_blocked(
            s.maze.hbars@,
            s.maze.vbars@,
            s.players@[s.current_turn as int].coords,
            spec_step(s.players@[s.current_turn as int].coords, req),
        ),
    ensures
        new_steps == s.dice,
        s2.players@[s.current_turn as int].coords == spec_start_coords(s.current_turn as int),
        s2.players@[s.current_turn as int].prev_coords == s.players@[s.current_turn as int].coords,
{
}

/// Same-tick penalty law, at the batch level: when a tick resolves a move
/// into a blocked edge from the turn holder — whatever the prior step
/// count — that same tick ends with the mover on its start corner, the
/// phase back at rolling, and the turn passed to the next index. Follows
/// from `tick_outcome` alone.
pub proof fn lemma_blocked_move_ends_turn(
    s: Authority,
    s2: Authority,
    client_id: u64,
    req: MoveRequest,
    st: u8,
)
    requires
        s.wf(),
        s.game_state is InGame,
        s.turn_phase == (TurnPhase::Moving { steps_taken: st }),
        st < s.dice,
        s.spec_turn_holder(client_id),
        in_grid(spec_step(s.players@[s.current_turn as int].coords, req)),
        edge_blocked(
            s.maze.hbars@,
            s.maze.vbars@,
            s.players@[s.current_turn as int].coords,
            spec_step(s.players@[s.current_turn as int].coords, req),
        ),
        tick_outcome(s, s2, Seq::<u64>::empty(), seq![(client_id, req)]),
    ensures
        s2.turn_phase is Rolling,
        s2.current_turn as int == (s.current_turn + 1) as int % (s.max_players as int),
        s2.players@[s.current_turn as int].coords == spec_start_coords(s.current_turn as int),
{
    let moves = seq![(client_id, req)];
    let ar = choose|ar: Authority|
        #[trigger] rolls_outcome(s, ar, Seq::<u64>::empty()) && match ar.turn_phase {
            TurnPhase::Rolling => s2 == ar,
            TurnPhase::Moving { steps_taken } => exists|am: Authority, ns: u8|
                #[trigger] moves_outcome(ar, am, moves, steps_taken, ns) && if am.game_state is Win {
                    s2 == am
                } else {
                    end_of_batch(am, s2, steps_taken, ns)
                },
        };
    assert(ar == s);
    let (am, ns) = choose|am: Authority, ns: u8|
        #[trigger] moves_outcome(s, am, moves, st, ns) && if am.game_state is Win {
            s2 == am
        } else {
            end_of_batch(am, s2, st, ns)
        };
    let (mid, mid_steps) = choose|mid: Authority, mid_steps: u8|
        #[trigger] move_outcome(s, mid, moves[0].0, moves[0].1, st, mid_steps) && if mid.game_state is Win {
            am == mid && ns == mid_steps
        } else {
            moves_outcome(mid, am, moves.skip(1), mid_steps, ns)
        };
    assert(moves[0] == (client_id, req));
    assert(mid_steps == s.dice);
    assert(mid.players@[s.current_turn as int].coords == spec_start_coords(s.current_turn as int));
    assert(!(mid.game_state is Win));
    assert(moves.skip(1) =~= Seq::<(u64, MoveRequest)>::empty());
    assert(am == mid && ns == mid_steps);
    assert(end_of_batch(mid, s2, st, s.dice));
    assert(s2.players == mid.players);
}

/// The turn index reached after `k` completed turns, starting from
/// `start`, among `n` players.
pub open spec fn turn_after(start: int, k: int, n: int) -> int
    recommends
        0 < n,
{
    (start + k) % n
}

/// Whether index `j` comes up within `n` consecutive completed turns
/// starting from `start`.
pub open spec fn turn_visited(start: int, n: int, j: int) -> bool {
    exists|k: int| 0 <= k < n && #[trigger] turn_after(start, k, n) == j
}

/// Round-robin law: each completed turn advances the index the way the
/// tick does, and starting anywhere, `n` consecutive completed turns
/// visit every player index exactly once — none is skipped, none repeats.
#[verifier::rlimit(60)]
pub proof fn lemma_round_robin(n: int, start: int)
    requires
        0 < n,
        0 <= start < n,
    ensures
        forall|k: int| 0 <= k ==> 0 <= #[trigger] turn_after(start, k, n) < n,
        forall|k: int|
            0 <= k ==> turn_after(start, k + 1, n) == (#[trigger] turn_after(start, k, n) + 1) % n,
        forall|k1: int, k2: int|
            0 <= k1 < n && 0 <= k2 < n && k1 != k2 ==> #[trigger] turn_after(start, k1, n)
                != #[trigger] turn_after(start, k2, n),
        forall|j: int| 0 <= j < n ==> #[trigger] turn_visited(start, n, j),
{
    assert forall|k: int| 0 <= k implies 0 <= #[trigger] turn_after(start, k, n) < n by {
        vstd::arithmetic::div_mod::lemma_mod_bound(start + k, n);
    }
    assert forall|k: int| 0 <= k implies turn_after(start, k + 1, n) == (#[trigger] turn_after(
        start,
        k,
        n,
    ) + 1) % n by {
        vstd::arithmetic::div_mod::lemma_add_mod_noop(start + k, 1, n);
        if n == 1 {
            vstd::arithmetic::div_mod::lemma_fundamental_div_mod_converse(1, 1, 1, 0);
            vstd::arithmetic::div_mod::lemma_mod_bound(start + k, n);
            vstd::arithmetic::div_mod::lemma_mod_bound(start + k + 1, n);
        } else {
            vstd::arithmetic::div_mod::lemma_fundamental_div_mod_converse(1, n, 0, 1);
        }
    }
    assert forall|k: int| 0 <= k < n implies #[trigger] turn_after(start, k, n) == if start + k
        < n {
        start + k
    } else {
        start + k - n
    } by {
        if start + k < n {
            vstd::arithmetic::div_mod::lemma_fundamental_div_mod_converse(
                start + k,
                n,
                0,
                start + k,
            );
        } else {
            vstd::arithmetic::div_mod::lemma_fundamental_div_mod_converse(
                start + k,
                n,
                1,
                start + k - n,
            );
        }
    }
    assert forall|j: int| 0 <= j < n implies #[trigger] turn_visited(start, n, j) by {
        let k = if j >= start {
            j - start
        } else {
            j - start + n
        };
        assert(0 <= k < n);
        assert(turn_after(start, k, n) == j);
    }
}

/// A player record after a plain relocation: same identity and items, the
/// new cell taken, the previous cell remembered for interpolation.
pub open spec fn player_moved(p: Player, q: Player, to: Coord) -> bool {
    &&& q.client_id == p.client_id
    &&& q.player_number == p.player_number
    &&& q.coords == to
    &&& q.prev_coords == p.coords
}

/// The parts of the state a move request never touches.
pub open spec fn same_frame(s: Authority, s2: Authority) -> bool {
    &&& s2.maze == s.maze
    &&& s2.max_players == s.max_players
    &&& s2.dice == s.dice
    &&& s2.turn_phase == s.turn_phase
    &&& s2.current_turn == s.current_turn
}

/// The exact effect of one move request evaluated during the moving
/// phase, relating the state before (`s`) and after (`s2`) and the step
/// count before (`steps_taken`) and after (`new_steps`).
pub open spec fn move_outcome(
    s: Authority,
    s2: Authority,
    client_id: u64,
    req: MoveRequest,
    steps_taken: u8,
    new_steps: u8,
) -> bool {
    if steps_taken == s.dice || !s.spec_turn_holder(client_id) {
        // out of steps, or not this connection's turn: silently dropped
        s2 == s && new_steps == steps_taken
    } else {
        let t = s.current_turn as int;
        let mover = s.players@[t];
        let next = spec_step(mover.coords, req);
        if !in_grid(next) {
            // aiming off the board: silently dropped, no step consumed
            s2 == s && new_steps == steps_taken
        } else {
            &&& same_frame(s, s2)
            &&& s2.players@.len() == s.players@.len()
            &&& (forall|i: int|
                0 <= i < s.players@.len() && i != t ==> #[trigger] s2.players@[i] == s.players@[i])
            &&& if edge_blocked(s.maze.hbars@, s.maze.vbars@, mover.coords, next) {
                // penalty: back to the start corner, the turn forfeited
                &&& new_steps == s.dice
                &&& player_moved(mover, s2.players@[t], spec_start_coords(t))
                &&& s2.players@[t].target_item == mover.target_item
                &&& s2.players@[t].achieved_items@ == mover.achieved_items@
                &&& s2.events@ == s.events@.push(
                    GameEvent::StartMoveAnimation { client_id, fail: true, move_to: next },
                )
                &&& s2.available_items.items@ == s.available_items.items@
                &&& s2.game_state == s.game_state
            } else {
                &&& new_steps == steps_taken + 1
                &&& player_moved(mover, s2.players@[t], next)
                &&& if mover.target_item is Some && next == spec_item_coords(mover.target_item->0) {
                    let item = mover.target_item->0;
                    &&& s2.players@[t].achieved_items@ == mover.achieved_items@.push(item)
                    &&& if mover.achieved_items@.len() + 1 >= 5 {
                        // the winning pickup ends the session
                        &&& s2.players@[t].target_item is None
                        &&& s2.game_state is Win
                        &&& s2.available_items.items@ == s.available_items.items@
                        &&& s2.events@ == s.events@.push(
                            GameEvent::StartMoveAnimation {
                                client_id,
                                fail: false,
                                move_to: next,
                            },
                        ).push(GameEvent::GameStateChange(GameState::Win))
                    } else {
                        // score, then draw a fresh target from the pool
                        &&& s2.game_state == s.game_state
                        &&& (s2.players@[t].target_item is Some
                            <==> s.available_items.items@.len() > 0)
                        &&& (s2.players@[t].target_item matches Some(fresh) ==> exists|j: int|
                            0 <= j < s.available_items.items@.len() && fresh
                                == s.available_items.items@[j] && s2.available_items.items@
                                == s.available_items.items@.remove(j))
                        &&& (s2.players@[t].target_item is None ==> s2.available_items.items@
                            == s.available_items.items@)
                        &&& s2.events@ == s.events@.push(
                            GameEvent::StartMoveAnimation {
                                client_id,
                                fail: false,
                                move_to: next,
                            },
                        )
                    }
                } else {
                    // a plain step
                    &&& s2.players@[t].target_item == mover.target_item
                    &&& s2.players@[t].achieved_items@ == mover.achieved_items@
                    &&& s2.game_state == s.game_state
                    &&& s2.available_items.items@ == s.available_items.items@
                    &&& s2.events@ == s.events@.push(
                        GameEvent::StartMoveAnimation { client_id, fail: false, move_to: next },
                    )
                }
            }
        }
    }
}

/// The exact effect of one roll request: only the turn holder, and only
/// in the rolling phase, rolls — the die lands on a face between 1 and 4,
/// the moving phase opens at zero steps, and the phase change is
/// broadcast; any other roll request changes nothing.
pub open spec fn roll_outcome(s: Authority, s2: Authority, client_id: u64) -> bool {
    if s.turn_phase is Rolling && s.spec_turn_holder(client_id) {
        &&& 1 <= s2.dice <= 4
        &&& s2.turn_phase == (TurnPhase::Moving { steps_taken: 0 })
        &&& s2.events@ == s.events@.push(
            GameEvent::TurnPhaseChange(TurnPhase::Moving { steps_taken: 0 }),
        )
        &&& s2.players == s.players
        &&& s2.game_state == s.game_state
        &&& s2.current_turn == s.current_turn
        &&& s2.maze == s.maze
        &&& s2.max_players == s.max_players
        &&& s2.available_items == s.available_items
    } else {
        s2 == s
    }
}

/// The effect of a tick's roll batch: every request resolved in order by
/// `roll_outcome`, through some chain of intermediate states (the chain
/// is existential because each acting roll draws a random face).
pub open spec fn rolls_outcome(s: Authority, s2: Authority, rolls: Seq<u64>) -> bool
    decreases rolls.len(),
{
    if rolls.len() == 0 {
        s2 == s
    } else {
        exists|mid: Authority|
            #[trigger] roll_outcome(s, mid, rolls[0]) && rolls_outcome(mid, s2, rolls.skip(1))
    }
}

/// The effect of a tick's move batch: every request resolved in order by
/// `move_outcome`, threading the step count through; a request that wins
/// the session stops the batch at once and the remaining requests are
/// never processed.
pub open spec fn moves_outcome(
    s: Authority,
    s2: Authority,
    moves: Seq<(u64, MoveRequest)>,
    steps: u8,
    final_steps: u8,
) -> bool
    decreases moves.len(),
{
    if moves.len() == 0 {
        s2 == s && final_steps == steps
    } else {
        exists|mid: Authority, mid_steps: u8|
            #[trigger] move_outcome(s, mid, moves[0].0, moves[0].1, steps, mid_steps) && if mid.game_state is Win {
                s2 == mid && final_steps == mid_steps
            } else {
                moves_outcome(mid, s2, moves.skip(1), mid_steps, final_steps)
            }
    }
}

/// The single phase or turn transition a batch earns once its moves are
/// resolved: nothing when no step was spent; otherwise the turn passes —
/// to the next index, with both broadcasts — exactly when the spent steps
/// reach the die value, and the phase merely records the new step count
/// when they do not.
pub open spec fn end_of_batch(s: Authority, s2: Authority, steps_before: u8, new_steps: u8) -> bool {
    if new_steps == steps_before {
        s2 == s
    } else {
        &&& s2.maze == s.maze
        &&& s2.players == s.players
        &&& s2.dice == s.dice
        &&& s2.game_state == s.game_state
        &&& s2.max_players == s.max_players
        &&& s2.available_items == s.available_items
        &&& if new_steps >= s.dice {
            &&& s2.current_turn as int == (s.current_turn + 1) as int % (s.max_players as int)
            &&& s2.turn_phase is Rolling
            &&& s2.events@ == s.events@.push(GameEvent::CurrentTurnChange(s2.current_turn)).push(
                GameEvent::TurnPhaseChange(TurnPhase::Rolling),
            )
        } else {
            &&& s2.current_turn == s.current_turn
            &&& s2.turn_phase == (TurnPhase::Moving { steps_taken: new_steps })
            &&& s2.events@ == s.events@.push(
                GameEvent::TurnPhaseChange(TurnPhase::Moving { steps_taken: new_steps }),
            )
        }
    }
}

/// The exact effect of one authority tick on the request queues it
/// drained: outside the in-game state nothing changes at all. In game,
/// every roll request is resolved first; then, only if the phase is by
/// then the moving phase, every move request runs against the resulting
/// states, and the batch's single end-of-turn transition follows — unless
/// a move won the session, which freezes the batch with no transition.
pub open spec fn tick_outcome(
    s: Authority,
    s2: Authority,
    rolls: Seq<u64>,
    moves: Seq<(u64, MoveRequest)>,
) -> bool {
    if !(s.game_state is InGame) {
        s2 == s
    } else {
        exists|after_rolls: Authority|
            #[trigger] rolls_outcome(s, after_rolls, rolls) && match after_rolls.turn_phase {
                TurnPhase::Rolling => s2 == after_rolls,
                TurnPhase::Moving { steps_taken } => exists|after_moves: Authority, new_steps: u8|
                    #[trigger] moves_outcome(after_rolls, after_moves, moves, steps_taken, new_steps)
                        && if after_moves.game_state is Win {
                        s2 == after_moves
                    } else {
                        end_of_batch(after_moves, s2, steps_taken, new_steps)
                    },
            }
    }
}

proof fn lemma_roll_chain_noop(s: Authority, s2: Authority, rolls: Seq<u64>)
    requires
        !(s.turn_phase is Rolling),
        rolls_outcome(s, s2, rolls),
    ensures
        s2 == s,
    decreases rolls.len(),
{
    if rolls.len() > 0 {
        let mid = choose|mid: Authority|
            #[trigger] roll_outcome(s, mid, rolls[0]) && rolls_outcome(mid, s2, rolls.skip(1));
        assert(mid == s);
        lemma_roll_chain_noop(mid, s2, rolls.skip(1));
    }
}

/// Batch-level roll law: while the phase is the rolling phase, a roll
/// batch holding at least one request from the turn holder always leaves
/// the phase at `Moving { steps_taken: 0 }` with a die face between 1 and
/// 4 — whoever else asked, in whatever order, and only the first acting
/// request rolls.
pub proof fn lemma_roll_batch_opens_moving(s: Authority, s2: Authority, rolls: Seq<u64>)
    requires
        s.turn_phase is Rolling,
        exists|k: int| 0 <= k < rolls.len() && s.spec_turn_holder(#[trigger] rolls[k]),
        rolls_outcome(s, s2, rolls),
    ensures
        s2.turn_phase == (TurnPhase::Moving { steps_taken: 0 }),
        1 <= s2.dice <= 4,
    decreases rolls.len(),
{
    let mid = choose|mid: Authority|
        #[trigger] roll_outcome(s, mid, rolls[0]) && rolls_outcome(mid, s2, rolls.skip(1));
    if s.spec_turn_holder(rolls[0]) {
        lemma_roll_chain_noop(mid, s2, rolls.skip(1));
    } else {
        assert(mid == s);
        let k = choose|k: int| 0 <= k < rolls.len() && s.spec_turn_holder(#[trigger] rolls[k]);
        assert(k != 0);
        assert(rolls.skip(1)[k - 1] == rolls[k]);
        assert(mid.spec_turn_holder(rolls.skip(1)[k - 1]));
        lemma_roll_batch_opens_moving(mid, s2, rolls.skip(1));
    }
}

proof fn lemma_rolls_outcome_push(s0: Authority, s1: Authority, s2: Authority, rolls: Seq<u64>, r: u64)
    requires
        rolls_outcome(s0, s1, rolls),
        roll_outcome(s1, s2, r),
    ensures
        rolls_outcome(s0, s2, rolls.push(r)),
    decreases rolls.len(),
{
    let full = rolls.push(r);
    if rolls.len() == 0 {
        assert(full[0] == r);
        assert(full.skip(1) =~= Seq::<u64>::empty());
        assert(roll_outcome(s0, s2, full[0]));
        assert(rolls_outcome(s2, s2, full.skip(1)));
    } else {
        let mid = choose|mid: Authority|
            #[trigger] roll_outcome(s0, mid, rolls[0]) && rolls_outcome(mid, s1, rolls.skip(1));
        lemma_rolls_outcome_push(mid, s1, s2, rolls.skip(1), r);
        assert(full[0] == rolls[0]);
        assert(full.skip(1) =~= rolls.skip(1).push(r));
        assert(roll_outcome(s0, mid, full[0]));
        assert(rolls_outcome(mid, s2, full.skip(1)));
    }
}

proof fn lemma_moves_outcome_push(
    s0: Authority,
    s1: Authority,
    s2: Authority,
    moves: Seq<(u64, MoveRequest)>,
    c: u64,
    r: MoveRequest,
    a: u8,
    b: u8,
    b2: u8,
)
    requires
        moves_outcome(s0, s1, moves, a, b),
        !(s1.game_state is Win),
        move_outcome(s1, s2, c, r, b, b2),
        !(s2.game_state is Win),
    ensures
        moves_outcome(s0, s2, moves.push((c, r)), a, b2),
    decreases moves.len(),
{
    let full = moves.push((c, r));
    if moves.len() == 0 {
        assert(full[0] == (c, r));
        assert(full.skip(1) =~= Seq::<(u64, MoveRequest)>::empty());
        assert(move_outcome(s0, s2, full[0].0, full[0].1, a, b2));
        assert(moves_outcome(s2, s2, full.skip(1), b2, b2));
    } else {
        let (mid, mid_steps) = choose|mid: Authority, mid_steps: u8|
            #[trigger] move_outcome(s0, mid, moves[0].0, moves[0].1, a, mid_steps) && if mid.game_state is Win {
                s1 == mid && b == mid_steps
            } else {
                moves_outcome(mid, s1, moves.skip(1), mid_steps, b)
            };
        assert(!(mid.game_state is Win));
        lemma_moves_outcome_push(mid, s1, s2, moves.skip(1), c, r, mid_steps, b, b2);
        assert(full[0] == moves[0]);
        assert(full.skip(1) =~= moves.skip(1).push((c, r)));
        assert(move_outcome(s0, mid, full[0].0, full[0].1, a, mid_steps));
        assert(moves_outcome(mid, s2, full.skip(1), mid_steps, b2));
    }
}

proof fn lemma_moves_outcome_win(
    s0: Authority,
    s1: Authority,
    s2: Authority,
    moves: Seq<(u64, MoveRequest)>,
    rest: Seq<(u64, MoveRequest)>,
    c: u64,
    r: MoveRequest,
    a: u8,
    b: u8,
    b2: u8,
)
    requires
        moves_outcome(s0, s1, moves, a, b),
        !(s1.game_state is Win),
        move_outcome(s1, s2, c, r, b, b2),
        s2.game_state is Win,
    ensures
        moves_outcome(s0, s2, moves.push((c, r)) + rest, a, b2),
    decreases moves.len(),
{
    let full = moves.push((c, r)) + rest;
    if moves.len() == 0 {
        assert(full[0] == (c, r));
        assert(move_outcome(s0, s2, full[0].0, full[0].1, a, b2));
    } else {
        let (mid, mid_steps) = choose|mid: Authority, mid_steps: u8|
            #[trigger] move_outcome(s0, mid, moves[0].0, moves[0].1, a, mid_steps) && if mid.game_state is Win {
                s1 == mid && b == mid_steps
            } else {
                moves_outcome(mid, s1, moves.skip(1), mid_steps, b)
            };
        assert(!(mid.game_state is Win));
        lemma_moves_outcome_win(mid, s1, s2, moves.skip(1), rest, c, r, mid_steps, b, b2);
        assert(full[0] == moves[0]);
        assert(full.skip(1) =~= moves.skip(1).push((c, r)) + rest);
        assert(move_outcome(s0, mid, full[0].0, full[0].1, a, mid_steps));
        assert(moves_outcome(mid, s2, full.skip(1), mid_steps, b2));
    }
}

} // verus!
