use multisnake::{Pos, RoomConfig, RoomManager, SnakeMessage, TickUpdate};

fn config(initial_length: u32, ghost_time_ms: u32) -> RoomConfig {
    RoomConfig { width: 20, height: 20, padding: 5, initial_length, ghost_time_ms }
}

fn all_cells() -> Vec<Pos> {
    let mut v = Vec::new();
    for y in 0..20 {
        for x in 0..20 {
            v.push(Pos { x, y });
        }
    }
    v
}

fn grid_is_zero(room: &RoomManager) -> bool {
    all_cells().iter().all(|p| room.count_at(*p) == 0)
}

/// Recounts every cell from the bodies of the non-ghost clients.
fn reconciles(room: &RoomManager) -> bool {
    all_cells().iter().all(|p| {
        let expected: usize = room
            .clients
            .iter()
            .filter(|c| c.ghost_ticks == 0)
            .map(|c| c.snake.iter().filter(|s| *s == p).count())
            .sum();
        room.count_at(*p) == expected
    })
}

fn has_move(u: &TickUpdate, id: u128) -> bool {
    u.moves.iter().any(|(m, _)| *m == id)
}

#[test]
fn ghost_becomes_solid_after_grace() {
    // Grace of two ticks: 100 ms / 100 ms + 1.
    let mut room = RoomManager::with_config(config(3, 100), 100);
    room.add_client_with_rolls(1, 5, 5);
    assert_eq!(
        room.body_of(1).unwrap(),
        vec![Pos { x: 10, y: 10 }, Pos { x: 10, y: 11 }, Pos { x: 10, y: 12 }]
    );
    assert_eq!(room.clients[0].ghost_ticks, 2);

    let u1 = room.tick();
    assert_eq!(u1.ghosts, vec![1]);
    assert!(grid_is_zero(&room));

    let u2 = room.tick();
    assert!(u2.ghosts.is_empty());
    let u3 = room.tick();
    assert!(u3.ghosts.is_empty());

    let body = room.body_of(1).unwrap();
    assert_eq!(body.len(), 3);
    let ones: Vec<Pos> = all_cells().into_iter().filter(|p| room.count_at(*p) == 1).collect();
    assert_eq!(ones.len(), 3);
    for p in &body {
        assert_eq!(room.count_at(*p), 1);
    }
    assert!(all_cells().iter().all(|p| room.count_at(*p) <= 1));
}

#[test]
fn head_on_collision_kills_both() {
    let mut room = RoomManager::with_config(config(3, 0), 100);
    room.add_client_with_rolls(1, 0, 0);
    room.add_client_with_rolls(2, 2, 0);
    assert_eq!(room.body_of(1).unwrap()[0], Pos { x: 5, y: 5 });
    assert_eq!(room.body_of(2).unwrap()[0], Pos { x: 7, y: 5 });
    room.queue_move(1, 1, 0);
    room.queue_move(2, -1, 0);

    let mut probe = RoomManager::with_config(config(3, 0), 100);
    probe.add_client_with_rolls(1, 0, 0);
    probe.add_client_with_rolls(2, 2, 0);
    probe.queue_move(1, 1, 0);
    probe.queue_move(2, -1, 0);
    let (walls, _, _, _) = probe.move_clients();
    assert_eq!(walls, vec![false, false]);
    assert_eq!(probe.body_of(1).unwrap()[0], Pos { x: 6, y: 5 });
    assert_eq!(probe.body_of(2).unwrap()[0], Pos { x: 6, y: 5 });
    assert_eq!(probe.count_at(Pos { x: 6, y: 5 }), 2);

    let u = room.tick();
    assert_eq!(u.deaths, vec![1, 2]);
    assert!(!has_move(&u, 1));
    assert!(!has_move(&u, 2));
    assert_eq!(room.player_count(), 0);
    assert!(grid_is_zero(&room));
}

#[test]
fn eater_grows_and_food_moves() {
    let mut room = RoomManager::with_config(config(3, 0), 100);
    assert_eq!(room.food, Pos { x: 5, y: 5 });
    room.add_client_with_rolls(1, 0, 1);
    assert_eq!(room.body_of(1).unwrap()[0], Pos { x: 5, y: 6 });
    let u = room.advance();
    assert_eq!(u.eaters, vec![1]);
    assert_eq!(
        room.body_of(1).unwrap(),
        vec![Pos { x: 5, y: 5 }, Pos { x: 5, y: 6 }, Pos { x: 5, y: 7 }, Pos { x: 5, y: 8 }]
    );
    room.respawn_food_at(23, 31);
    assert_eq!(room.food, Pos { x: 8, y: 6 });
    assert_ne!(room.food, Pos { x: 5, y: 5 });
    // The length stays: the next move drops the tail again.
    room.queue_move(1, 1, 0);
    let u = room.advance();
    assert!(u.eaters.is_empty());
    assert_eq!(room.body_of(1).unwrap().len(), 4);
    assert!(reconciles(&room));
}

#[test]
fn tick_respawns_food_inside_padding() {
    let mut room = RoomManager::with_config(config(3, 0), 100);
    room.add_client_with_rolls(1, 0, 1);
    let u = room.tick();
    assert_eq!(u.eaters, vec![1]);
    assert_eq!(u.food, room.food);
    assert!(room.food.x >= 5 && room.food.x < 15);
    assert!(room.food.y >= 5 && room.food.y < 15);
}

#[test]
fn reversal_is_ignored() {
    let mut room = RoomManager::with_config(config(3, 0), 100);
    room.add_client_with_rolls(1, 3, 3);
    for _ in 0..5 {
        room.queue_move(1, 0, 1);
        assert_eq!((room.clients[0].next_dx, room.clients[0].next_dy), (0, -1));
    }
    room.queue_move(1, 1, 0);
    assert_eq!((room.clients[0].next_dx, room.clients[0].next_dy), (1, 0));
    // The last applied move is still up: down stays refused, whatever is pending.
    room.queue_move(1, 0, 1);
    assert_eq!((room.clients[0].next_dx, room.clients[0].next_dy), (1, 0));
    room.tick();
    assert_eq!((room.clients[0].dx, room.clients[0].dy), (1, 0));
    for _ in 0..5 {
        room.queue_move(1, -1, 0);
        assert_eq!((room.clients[0].next_dx, room.clients[0].next_dy), (1, 0));
    }
    room.queue_move(1, 0, 1);
    assert_eq!((room.clients[0].next_dx, room.clients[0].next_dy), (0, 1));
}

#[test]
fn ghost_listed_until_countdown_ends() {
    // Grace of three ticks.
    let mut room = RoomManager::with_config(config(3, 200), 100);
    room.add_client_with_rolls(4, 5, 9);
    let listed: Vec<bool> = (0..5)
        .map(|_| {
            let u = room.tick();
            let zero = grid_is_zero(&room);
            let g = u.ghosts.contains(&4);
            if g {
                assert!(zero);
            }
            g
        })
        .collect();
    assert_eq!(listed, vec![true, true, false, false, false]);
    assert!(!grid_is_zero(&room));
}

#[test]
fn disconnect_releases_cells() {
    let mut room = RoomManager::with_config(config(4, 0), 100);
    room.add_client_with_rolls(1, 0, 0);
    room.add_client_with_rolls(2, 2, 0);
    room.tick();
    let body = room.body_of(1).unwrap();
    assert_eq!(body.len(), 4);
    room.add_client_with_rolls(3, 9, 9);
    let before_all: Vec<usize> = all_cells().iter().map(|p| room.count_at(*p)).collect();

    // A ghost leaves: no counter moves.
    room.remove_client(3);
    let after_ghost: Vec<usize> = all_cells().iter().map(|p| room.count_at(*p)).collect();
    assert_eq!(before_all, after_ghost);

    // A solid snake of four segments leaves: exactly its four cells drop by one.
    room.remove_client(1);
    let after: Vec<usize> = all_cells().iter().map(|p| room.count_at(*p)).collect();
    let changed: Vec<(Pos, usize, usize)> = all_cells()
        .into_iter()
        .zip(before_all.iter().zip(after.iter()))
        .filter(|(_, (b, a))| b != a)
        .map(|(p, (b, a))| (p, *b, *a))
        .collect();
    assert_eq!(changed.len(), 4);
    for (p, b, a) in &changed {
        assert!(body.contains(p));
        assert_eq!(*b, 1);
        assert_eq!(*a, 0);
    }
    assert!(reconciles(&room));
}

#[test]
fn unknown_ids_change_nothing() {
    let mut room = RoomManager::with_config(config(3, 0), 100);
    room.add_client_with_rolls(1, 0, 0);
    room.tick();
    let before: Vec<usize> = all_cells().iter().map(|p| room.count_at(*p)).collect();
    room.queue_move(99, 1, 0);
    room.remove_client(99);
    assert_eq!(room.player_count(), 1);
    assert_eq!((room.clients[0].next_dx, room.clients[0].next_dy), (0, -1));
    let after: Vec<usize> = all_cells().iter().map(|p| room.count_at(*p)).collect();
    assert_eq!(before, after);
}

#[test]
fn wall_death_is_not_a_move() {
    let mut room = RoomManager::with_config(config(3, 0), 100);
    room.add_client_with_rolls(1, 0, 0);
    room.queue_move(1, -1, 0);
    // Head at (5,5) going left: five steps reach x = 0, the sixth leaves.
    for _ in 0..5 {
        let u = room.tick();
        assert!(u.deaths.is_empty());
        assert!(has_move(&u, 1));
    }
    assert_eq!(room.body_of(1).unwrap()[0], Pos { x: 0, y: 5 });
    let u = room.tick();
    assert_eq!(u.deaths, vec![1]);
    assert!(!has_move(&u, 1));
    assert_eq!(room.player_count(), 0);
    assert!(grid_is_zero(&room));
}

#[test]
fn ghost_can_die_at_a_wall() {
    let mut room = RoomManager::with_config(config(3, 10_000), 100);
    room.add_client_with_rolls(1, 0, 0);
    room.queue_move(1, -1, 0);
    let mut deaths = Vec::new();
    for _ in 0..6 {
        let u = room.tick();
        assert!(u.ghosts.contains(&1) || u.deaths.contains(&1));
        deaths.extend(u.deaths);
    }
    assert_eq!(deaths, vec![1]);
    assert!(grid_is_zero(&room));
}

#[test]
fn ghosts_pass_through_each_other() {
    let mut room = RoomManager::with_config(config(3, 10_000), 100);
    room.add_client_with_rolls(1, 0, 0);
    room.add_client_with_rolls(2, 2, 0);
    room.queue_move(1, 1, 0);
    room.queue_move(2, -1, 0);
    let u = room.tick();
    assert!(u.deaths.is_empty());
    assert_eq!(u.moves, vec![(1, (1, 0)), (2, (-1, 0))]);
    assert!(grid_is_zero(&room));
}

#[test]
fn solid_turn_collides_same_tick() {
    // A ghost whose grace ends this tick puts its body on the grid and is
    // checked for collisions in that same tick.
    let mut room = RoomManager::with_config(config(3, 0), 100);
    room.add_client_with_rolls(1, 0, 0);
    room.tick();
    assert_eq!(
        room.body_of(1).unwrap(),
        vec![Pos { x: 5, y: 4 }, Pos { x: 5, y: 5 }, Pos { x: 5, y: 6 }]
    );
    room.add_client_with_rolls(2, 1, 0);
    assert_eq!(room.body_of(2).unwrap()[0], Pos { x: 6, y: 5 });
    room.queue_move(2, -1, 0);
    // Client 1 moves up to (5,3) and still covers (5,5) with its tail;
    // client 2 turns solid and steps into (5,5).
    let u = room.tick();
    assert!(u.ghosts.is_empty());
    assert_eq!(u.deaths, vec![2]);
    assert!(has_move(&u, 1));
    assert!(!has_move(&u, 2));
    assert!(reconciles(&room));
    assert_eq!(room.count_at(Pos { x: 5, y: 5 }), 1);
}

#[test]
fn join_is_announced_next_tick() {
    let mut room = RoomManager::new(150);
    room.add_client_with_rolls(1, 3, 4);
    match room.new_init_message(1) {
        SnakeMessage::OnJoin { my_id, snakes, tick_duration_ms } => {
            assert_eq!(my_id, 1);
            assert_eq!(tick_duration_ms, 150);
            assert_eq!(snakes.len(), 1);
            assert_eq!(snakes[0].0, 1);
            assert_eq!(snakes[0].1.len(), 5);
            assert_eq!(snakes[0].1[0], Pos { x: 8, y: 9 });
        }
        _ => panic!("expected OnJoin"),
    }
    assert_eq!(room.pending_joins.len(), 1);
    let u = room.tick();
    assert_eq!(u.new_snakes.len(), 1);
    assert_eq!(u.new_snakes[0].0, 1);
    assert_eq!(u.new_snakes[0].1.len(), 5);
    assert!(room.pending_joins.is_empty());
    let u = room.tick();
    assert!(u.new_snakes.is_empty());
}

#[test]
fn grace_ticks_from_durations() {
    let mut room = RoomManager::new(200);
    room.add_client_with_rolls(1, 0, 0);
    assert_eq!(room.clients[0].ghost_ticks, 41);
    assert_eq!(room.lobby_update(3).player_count, 1);
    assert_eq!(room.lobby_update(3).room_id, 3);
}

#[test]
fn config_validation() {
    assert!(RoomConfig::standard().is_valid());
    assert!(!RoomConfig { width: 20, height: 20, padding: 15, initial_length: 5, ghost_time_ms: 0 }
        .is_valid());
    assert!(!RoomConfig { width: 0, height: 20, padding: 0, initial_length: 1, ghost_time_ms: 0 }
        .is_valid());
    assert!(!RoomConfig { width: 20, height: 20, padding: 2, initial_length: 4, ghost_time_ms: 0 }
        .is_valid());
    assert!(RoomConfig { width: 20, height: 20, padding: 3, initial_length: 4, ghost_time_ms: 0 }
        .is_valid());
}

#[test]
fn random_joins_keep_grid_consistent() {
    let mut seed: u64 = 0x2545_f491_4f6c_dd1d;
    let mut next = move || {
        seed ^= seed << 13;
        seed ^= seed >> 7;
        seed ^= seed << 17;
        seed
    };
    let mut room = RoomManager::with_config(config(4, 300), 100);
    let mut next_id: u128 = 1;
    let dirs = [(1, 0), (-1, 0), (0, 1), (0, -1)];
    for _ in 0..400 {
        match next() % 6 {
            0 => {
                room.add_client_with_rolls(next_id, next() as u16, next() as u16);
                next_id += 1;
            }
            1 => {
                if !room.clients.is_empty() {
                    let k = (next() as usize) % room.clients.len();
                    let id = room.clients[k].id;
                    room.remove_client(id);
                }
            }
            2 | 3 => {
                if !room.clients.is_empty() {
                    let k = (next() as usize) % room.clients.len();
                    let id = room.clients[k].id;
                    let (dx, dy) = dirs[(next() % 4) as usize];
                    room.queue_move(id, dx, dy);
                }
            }
            _ => {
                let u = room.tick();
                for id in &u.deaths {
                    assert!(!room.has_client(*id));
                    assert!(!has_move(&u, *id));
                }
            }
        }
        assert!(reconciles(&room));
    }
}
