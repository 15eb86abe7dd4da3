use labyrinth::authority::Authority;
use labyrinth::grid::{Coord, MoveRequest};
use labyrinth::items::Item;
use labyrinth::maze::Maze;
use labyrinth::state::{roll_die, valid_server_config, GameEvent, GameState, TurnPhase};

fn two_player_session(maze: Maze) -> Authority {
    let mut a = Authority::new(maze, 2);
    a.handle_connect(10);
    a.handle_connect(20);
    a
}

fn open_step(a: &Authority, from: Coord) -> (MoveRequest, Coord) {
    let candidates = [
        (MoveRequest::Up, 0i32, 1i32),
        (MoveRequest::Down, 0, -1),
        (MoveRequest::Left, -1, 0),
        (MoveRequest::Right, 1, 0),
    ];
    for (req, dx, dy) in candidates {
        let next = Coord { x: from.x + dx, y: from.y + dy };
        if next.x >= 0 && next.x < 6 && next.y >= 0 && next.y < 6 && !a.maze.is_blocked(from, next)
        {
            return (req, next);
        }
    }
    panic!("a connected maze always leaves an open neighbour");
}

#[test]
fn rolls_stay_on_the_weighted_faces() {
    let mut counts = [0usize; 5];
    for _ in 0..6000 {
        let v = roll_die();
        assert!((1..=4).contains(&v));
        counts[v as usize] += 1;
    }
    // faces {1, 2, 2, 3, 3, 4}: the middle values come up about twice as
    // often as the ends; the bands are loose enough never to flake
    assert!((700..=1300).contains(&counts[1]), "ones: {}", counts[1]);
    assert!((1600..=2400).contains(&counts[2]), "twos: {}", counts[2]);
    assert!((1600..=2400).contains(&counts[3]), "threes: {}", counts[3]);
    assert!((700..=1300).contains(&counts[4]), "fours: {}", counts[4]);
}

#[test]
fn game_starts_the_moment_the_last_player_connects() {
    let mut a = Authority::new(Maze::empty(), 2);
    assert!(matches!(a.game_state, GameState::WaitingPlayers));
    a.handle_connect(10);
    assert!(matches!(a.game_state, GameState::WaitingPlayers));
    assert_eq!(a.players.len(), 1);
    assert_eq!(a.players[0].client_id, 10);
    assert_eq!(a.players[0].player_number, 0);
    assert_eq!((a.players[0].coords.x, a.players[0].coords.y), (0, 0));
    assert!(a.players[0].target_item.is_some());
    a.handle_connect(20);
    assert!(matches!(a.game_state, GameState::InGame));
    assert_eq!((a.players[1].coords.x, a.players[1].coords.y), (0, 5));
    assert!(matches!(a.events.last(), Some(GameEvent::GameStateChange(GameState::InGame))));
}

#[test]
fn start_corners_follow_the_player_index() {
    let mut a = Authority::new(Maze::empty(), 4);
    a.handle_connect(1);
    a.handle_connect(2);
    a.handle_connect(3);
    a.handle_connect(4);
    let corners: Vec<(i32, i32)> =
        a.players.iter().map(|p| (p.coords.x, p.coords.y)).collect();
    assert_eq!(corners, vec![(0, 0), (0, 5), (5, 0), (5, 5)]);
}

#[test]
fn only_the_turn_holder_rolls() {
    let mut a = two_player_session(Maze::empty());
    a.tick(&vec![20], &Vec::new());
    assert!(matches!(a.turn_phase, TurnPhase::Rolling));
    assert_eq!(a.dice, 0);
    a.tick(&vec![10], &Vec::new());
    assert!(matches!(a.turn_phase, TurnPhase::Moving { steps_taken: 0 }));
    assert!((1..=4).contains(&a.dice));
}

#[test]
fn a_roll_in_the_moving_phase_is_ignored() {
    let mut a = two_player_session(Maze::empty());
    a.turn_phase = TurnPhase::Moving { steps_taken: 0 };
    a.dice = 3;
    a.tick(&vec![10], &Vec::new());
    assert!(matches!(a.turn_phase, TurnPhase::Moving { steps_taken: 0 }));
    assert_eq!(a.dice, 3);
}

#[test]
fn requests_before_the_game_starts_are_ignored() {
    let mut a = Authority::new(Maze::empty(), 2);
    a.handle_connect(10);
    a.tick(&vec![10], &vec![(10, MoveRequest::Up)]);
    assert!(matches!(a.game_state, GameState::WaitingPlayers));
    assert!(matches!(a.turn_phase, TurnPhase::Rolling));
    assert_eq!((a.players[0].coords.x, a.players[0].coords.y), (0, 0));
}

#[test]
fn a_move_by_the_wrong_connection_is_ignored() {
    let mut a = two_player_session(Maze::empty());
    a.dice = 2;
    a.turn_phase = TurnPhase::Moving { steps_taken: 0 };
    let before = (a.players[1].coords.x, a.players[1].coords.y);
    a.tick(&Vec::new(), &vec![(20, MoveRequest::Right)]);
    assert_eq!((a.players[1].coords.x, a.players[1].coords.y), before);
    assert!(matches!(a.turn_phase, TurnPhase::Moving { steps_taken: 0 }));
    assert_eq!(a.current_turn, 0);
}

#[test]
fn a_move_off_the_board_is_ignored_and_costs_nothing() {
    let mut a = two_player_session(Maze::empty());
    a.dice = 1;
    a.turn_phase = TurnPhase::Moving { steps_taken: 0 };
    let events_before = a.events.len();
    // player 0 sits in the (0, 0) corner; down and left leave the board
    a.tick(&Vec::new(), &vec![(10, MoveRequest::Down), (10, MoveRequest::Left)]);
    assert_eq!((a.players[0].coords.x, a.players[0].coords.y), (0, 0));
    assert!(matches!(a.turn_phase, TurnPhase::Moving { steps_taken: 0 }));
    assert_eq!(a.current_turn, 0);
    assert_eq!(a.events.len(), events_before);
}

#[test]
fn a_blocked_first_move_resets_and_forfeits_the_turn() {
    let mut maze = Maze::empty();
    // wall between (0, 0) and (0, 1), right in front of player 0
    assert!(maze.try_place_h(0));
    let mut a = two_player_session(maze);
    // the roll and the doomed move arrive in the same tick
    a.tick(&vec![10], &vec![(10, MoveRequest::Up)]);
    assert_eq!((a.players[0].coords.x, a.players[0].coords.y), (0, 0));
    assert!(matches!(a.turn_phase, TurnPhase::Rolling));
    assert_eq!(a.current_turn, 1);
    assert!(a.events.iter().any(|e| matches!(
        e,
        GameEvent::StartMoveAnimation { client_id: 10, fail: true, .. }
    )));
}

#[test]
fn a_blocked_move_forfeits_even_mid_turn() {
    let mut maze = Maze::empty();
    // wall between (1, 0) and (1, 1)
    assert!(maze.try_place_h(1));
    let mut a = two_player_session(maze);
    a.dice = 4;
    a.turn_phase = TurnPhase::Moving { steps_taken: 0 };
    // one clear step right, then into the wall
    a.tick(&Vec::new(), &vec![(10, MoveRequest::Right), (10, MoveRequest::Up)]);
    assert_eq!((a.players[0].coords.x, a.players[0].coords.y), (0, 0));
    assert_eq!((a.players[0].prev_coords.x, a.players[0].prev_coords.y), (1, 0));
    assert!(matches!(a.turn_phase, TurnPhase::Rolling));
    assert_eq!(a.current_turn, 1);
}

#[test]
fn four_clear_moves_spend_the_whole_roll() {
    let maze = Maze::generate(15);
    let mut a = two_player_session(maze);
    a.dice = 4;
    a.turn_phase = TurnPhase::Moving { steps_taken: 0 };
    for step in 0..4u8 {
        assert!(matches!(a.turn_phase, TurnPhase::Moving { .. }));
        let from = a.players[0].coords;
        let (req, next) = open_step(&a, from);
        a.tick(&Vec::new(), &vec![(10, req)]);
        assert_eq!((a.players[0].coords.x, a.players[0].coords.y), (next.x, next.y));
        if step < 3 {
            assert!(
                matches!(a.turn_phase, TurnPhase::Moving { steps_taken } if steps_taken == step + 1)
            );
            assert_eq!(a.current_turn, 0);
        }
    }
    assert!(matches!(a.turn_phase, TurnPhase::Rolling));
    assert_eq!(a.current_turn, 1);
}

#[test]
fn reaching_the_target_scores_it_and_draws_a_fresh_one() {
    let mut a = two_player_session(Maze::empty());
    let target = a.players[0].target_item.expect("a full pool always hands out a target");
    let cell = target.coords();
    let pool_before = a.available_items.items.len();
    // stand next to the target cell and step onto it
    let (start, req) = if cell.y < 5 {
        (Coord { x: cell.x, y: cell.y + 1 }, MoveRequest::Down)
    } else {
        (Coord { x: cell.x, y: cell.y - 1 }, MoveRequest::Up)
    };
    a.players[0].coords = start;
    a.players[0].prev_coords = start;
    a.dice = 2;
    a.turn_phase = TurnPhase::Moving { steps_taken: 0 };
    a.tick(&Vec::new(), &vec![(10, req)]);
    assert_eq!((a.players[0].coords.x, a.players[0].coords.y), (cell.x, cell.y));
    assert_eq!(a.players[0].achieved_items.len(), 1);
    assert_eq!(a.players[0].achieved_items[0], target);
    let fresh = a.players[0].target_item.expect("the pool still has items");
    assert_ne!(fresh, target);
    assert_eq!(a.available_items.items.len(), pool_before - 1);
    assert!(!a.available_items.items.contains(&fresh));
}

#[test]
fn the_fifth_item_wins_and_the_session_freezes() {
    let mut a = two_player_session(Maze::empty());
    // hand player 0 four achievements straight from the pool
    for _ in 0..4 {
        let item = a.available_items.take_random().expect("the pool is far from empty");
        a.players[0].achieved_items.push(item);
    }
    let target = a.players[0].target_item.expect("a full pool always hands out a target");
    let cell = target.coords();
    let (start, req) = if cell.y < 5 {
        (Coord { x: cell.x, y: cell.y + 1 }, MoveRequest::Down)
    } else {
        (Coord { x: cell.x, y: cell.y - 1 }, MoveRequest::Up)
    };
    a.players[0].coords = start;
    a.players[0].prev_coords = start;
    a.dice = 3;
    a.turn_phase = TurnPhase::Moving { steps_taken: 0 };
    a.tick(&Vec::new(), &vec![(10, req)]);
    assert!(matches!(a.game_state, GameState::Win));
    assert_eq!(a.players[0].achieved_items.len(), 5);
    assert!(a.players[0].target_item.is_none());
    assert!(matches!(a.events.last(), Some(GameEvent::GameStateChange(GameState::Win))));
    // the winning tick skips the phase transition and the turn stays put
    assert!(matches!(a.turn_phase, TurnPhase::Moving { steps_taken: 0 }));
    assert_eq!(a.current_turn, 0);
    // no later request changes anything
    let events_before = a.events.len();
    let coords_before = (a.players[1].coords.x, a.players[1].coords.y);
    a.tick(&vec![10, 20], &vec![(10, MoveRequest::Up), (20, MoveRequest::Up)]);
    assert!(matches!(a.game_state, GameState::Win));
    assert_eq!(a.events.len(), events_before);
    assert_eq!((a.players[1].coords.x, a.players[1].coords.y), coords_before);
    assert_eq!(a.current_turn, 0);
}

#[test]
fn turns_rotate_in_strict_round_robin() {
    let mut a = Authority::new(Maze::empty(), 3);
    a.handle_connect(10);
    a.handle_connect(20);
    a.handle_connect(30);
    // strip the targets so no pickup can interfere with plain movement
    for i in 0..3 {
        a.players[i].target_item = None;
    }
    let mut seen: Vec<usize> = Vec::new();
    for _ in 0..6 {
        let holder = a.current_turn;
        seen.push(holder);
        let client = a.players[holder].client_id;
        a.tick(&vec![client], &Vec::new());
        let rolled = a.dice;
        assert!((1..=4).contains(&rolled));
        let mut guard: u32 = 0;
        while matches!(a.turn_phase, TurnPhase::Moving { .. }) {
            let from = a.players[holder].coords;
            let (req, _) = open_step(&a, from);
            a.tick(&Vec::new(), &vec![(client, req)]);
            guard += 1;
            assert!(guard <= 4, "a turn spends at most the rolled steps");
        }
        assert_eq!(a.current_turn, (holder + 1) % 3);
    }
    assert_eq!(seen, vec![0, 1, 2, 0, 1, 2]);
}

#[test]
fn an_empty_pool_leaves_a_player_without_a_target() {
    let mut a = Authority::new(Maze::empty(), 2);
    while a.available_items.take_random().is_some() {}
    a.handle_connect(10);
    assert!(a.players[0].target_item.is_none());
}

#[test]
fn server_configuration_bounds_are_enforced() {
    assert!(valid_server_config(5000, 4, 20));
    assert!(valid_server_config(1024, 1, 15));
    assert!(valid_server_config(65535, 2, 17));
    assert!(!valid_server_config(1023, 4, 20));
    assert!(!valid_server_config(5000, 0, 20));
    assert!(!valid_server_config(5000, 5, 20));
    assert!(!valid_server_config(5000, 4, 14));
    assert!(!valid_server_config(5000, 4, 21));
}
