use std::collections::VecDeque;

use multisnake::mirror::{RoomState, Snake};
use multisnake::{Pos, RoomConfig, RoomManager, SnakeMessage, TickUpdate};

fn body(cells: &[(i32, i32)]) -> VecDeque<Pos> {
    cells.iter().map(|&(x, y)| Pos { x, y }).collect()
}

fn cells(b: &VecDeque<Pos>) -> Vec<(i32, i32)> {
    b.iter().map(|p| (p.x, p.y)).collect()
}

fn joined() -> RoomState {
    let mut s = RoomState::new();
    s.process_message(SnakeMessage::OnJoin {
        my_id: 1,
        snakes: vec![(1, body(&[(5, 5), (5, 6)])), (2, body(&[(9, 9), (9, 10), (9, 11)]))],
        tick_duration_ms: 150,
    });
    s
}

#[test]
fn snake_moves_and_grows() {
    let mut s = Snake::new(body(&[(3, 3), (3, 4), (3, 5)]));
    assert!(!s.growing);
    s.apply_move(1, 0, false);
    assert_eq!(cells(&s.segments), vec![(4, 3), (3, 3), (3, 4)]);
    s.apply_move(0, -1, true);
    assert_eq!(cells(&s.segments), vec![(4, 2), (4, 3), (3, 3), (3, 4)]);
    let mut empty = Snake::new(VecDeque::new());
    empty.apply_move(1, 1, false);
    assert!(empty.segments.is_empty());
}

#[test]
fn client_takes_join_snapshot() {
    let s = joined();
    assert_eq!(s.my_id, Some(1));
    assert_eq!(s.tick_duration_ms, Some(150));
    assert!(s.alive);
    assert_eq!(cells(&s.my_snake.as_ref().unwrap().segments), vec![(5, 5), (5, 6)]);
    assert_eq!(s.other_snakes.len(), 1);
    assert_eq!(cells(&s.other_snakes[&2].segments), vec![(9, 9), (9, 10), (9, 11)]);
}

#[test]
fn client_applies_tick_update() {
    let mut s = joined();
    s.process_message(SnakeMessage::TickUpdate(TickUpdate {
        moves: vec![(1, (0, -1)), (2, (1, 0)), (3, (0, -1))],
        food: Pos { x: 7, y: 7 },
        deaths: vec![],
        eaters: vec![2],
        new_snakes: vec![(3, body(&[(12, 12), (12, 13)])), (1, body(&[(0, 0)]))],
        ghosts: vec![3],
    }));
    assert_eq!(s.food, Some(Pos { x: 7, y: 7 }));
    assert_eq!(cells(&s.my_snake.as_ref().unwrap().segments), vec![(5, 4), (5, 5)]);
    assert_eq!(cells(&s.other_snakes[&2].segments), vec![(10, 9), (9, 9), (9, 10), (9, 11)]);
    assert_eq!(cells(&s.other_snakes[&3].segments), vec![(12, 11), (12, 12)]);
    assert_eq!(s.ghosts, vec![3]);
    assert_eq!(s.other_snakes.len(), 2);
}

#[test]
fn client_drops_the_dead() {
    let mut s = joined();
    s.process_message(SnakeMessage::TickUpdate(TickUpdate {
        moves: vec![(2, (0, -1))],
        food: Pos { x: 7, y: 7 },
        deaths: vec![2],
        eaters: vec![],
        new_snakes: vec![],
        ghosts: vec![],
    }));
    assert!(s.other_snakes.is_empty());
    assert!(s.alive);
    s.process_message(SnakeMessage::TickUpdate(TickUpdate {
        moves: vec![],
        food: Pos { x: 7, y: 7 },
        deaths: vec![1],
        eaters: vec![],
        new_snakes: vec![],
        ghosts: vec![],
    }));
    assert!(!s.alive);
}

#[test]
fn client_ignores_move_intent() {
    let mut s = joined();
    s.process_message(SnakeMessage::MoveIntent { dx: 1, dy: 0 });
    assert_eq!(cells(&s.my_snake.as_ref().unwrap().segments), vec![(5, 5), (5, 6)]);
}

#[test]
fn client_follows_the_room() {
    let cfg = RoomConfig { width: 20, height: 20, padding: 5, initial_length: 3, ghost_time_ms: 100 };
    let mut room = RoomManager::with_config(cfg, 100);
    room.add_client_with_rolls(2, 2, 3);
    room.add_client_with_rolls(1, 0, 1);
    let mut client = RoomState::new();
    client.process_message(room.new_init_message(1));
    let turns = [(1, 0), (0, -1), (-1, 0), (0, -1), (1, 0), (1, 0), (0, 1)];
    for (t, &(dx, dy)) in turns.iter().enumerate() {
        room.queue_move(1, dx, dy);
        room.queue_move(2, -dy, dx);
        let u = room.tick();
        client.process_message(SnakeMessage::TickUpdate(u));
        if let Some(b) = room.body_of(1) {
            let mine: Vec<Pos> = client.my_snake.as_ref().unwrap().segments.iter().copied().collect();
            assert_eq!(mine, b, "own body after tick {}", t);
        } else {
            assert!(!client.alive);
        }
        if let Some(b) = room.body_of(2) {
            let theirs: Vec<Pos> = client.other_snakes[&2].segments.iter().copied().collect();
            assert_eq!(theirs, b, "other body after tick {}", t);
        } else {
            assert!(!client.other_snakes.contains_key(&2));
        }
    }
}
