use multisnake::bitgrid::{GameState, MoveResult, GRID_H, GRID_W};
use multisnake::Pos;

fn set_cells(g: &GameState) -> Vec<Pos> {
    let mut v = Vec::new();
    for y in 0..GRID_H {
        for x in 0..GRID_W {
            if g.is_occupied(Pos { x, y }) {
                v.push(Pos { x, y });
            }
        }
    }
    v
}

#[test]
fn bit_board_starts_clear() {
    let g = GameState::new();
    assert!(set_cells(&g).is_empty());
    assert!(g.food.x >= 0 && g.food.x < GRID_W && g.food.y >= 0 && g.food.y < GRID_H);
    assert!(g.clients.is_empty());
}

#[test]
fn bit_board_spawn_marks_three_cells() {
    let mut g = GameState::new();
    let body = g.add_client(1);
    let expected = vec![Pos { x: 10, y: 10 }, Pos { x: 9, y: 10 }, Pos { x: 8, y: 10 }];
    assert_eq!(body.iter().copied().collect::<Vec<_>>(), expected);
    let mut cells = set_cells(&g);
    cells.sort_by_key(|p| (p.y, p.x));
    assert_eq!(cells, vec![Pos { x: 8, y: 10 }, Pos { x: 9, y: 10 }, Pos { x: 10, y: 10 }]);
    // Joining again under the same id replaces the entry.
    g.add_client(1);
    assert_eq!(g.clients.len(), 1);
}

#[test]
fn bit_board_move_sets_head_clears_tail() {
    let mut g = GameState::new();
    g.food = Pos { x: 0, y: 0 };
    g.add_client(1);
    assert_eq!(g.move_snake(1, 0, -1), MoveResult::Moved);
    let body: Vec<Pos> = g.clients[0].snake.iter().copied().collect();
    assert_eq!(body, vec![Pos { x: 10, y: 9 }, Pos { x: 10, y: 10 }, Pos { x: 9, y: 10 }]);
    assert!(g.is_occupied(Pos { x: 10, y: 9 }));
    assert!(!g.is_occupied(Pos { x: 8, y: 10 }));
    assert_eq!(set_cells(&g).len(), 3);
}

#[test]
fn bit_board_wraps_at_edges() {
    let mut g = GameState::new();
    g.food = Pos { x: 0, y: 0 };
    g.add_client(1);
    for _ in 0..10 {
        assert_eq!(g.move_snake(1, 1, 0), MoveResult::Moved);
    }
    assert_eq!(g.clients[0].snake[0], Pos { x: 0, y: 10 });
    assert_eq!(g.move_snake(1, 0, -1), MoveResult::Moved);
    assert_eq!(g.clients[0].snake[0], Pos { x: 0, y: 9 });
}

#[test]
fn bit_board_collision_clears_body() {
    let mut g = GameState::new();
    g.food = Pos { x: 0, y: 0 };
    g.add_client(1);
    g.add_client(2);
    // Both stand on the spawn cells; 2 stepping left lands on a set bit.
    assert_eq!(g.move_snake(2, -1, 0), MoveResult::Collision);
    assert!(!g.is_occupied(Pos { x: 10, y: 10 }));
    assert!(!g.is_occupied(Pos { x: 9, y: 10 }));
    assert!(!g.is_occupied(Pos { x: 8, y: 10 }));
    assert_eq!(g.clients.len(), 2);
}

#[test]
fn bit_board_eats_and_grows() {
    let mut g = GameState::new();
    g.add_client(1);
    g.food = Pos { x: 11, y: 10 };
    assert_eq!(g.move_snake(1, 1, 0), MoveResult::Ate);
    assert_eq!(g.clients[0].snake.len(), 4);
    assert_eq!(g.clients[0].snake[0], Pos { x: 11, y: 10 });
    assert_eq!(set_cells(&g).len(), 4);
    assert!(g.food.x >= 0 && g.food.x < GRID_W && g.food.y >= 0 && g.food.y < GRID_H);
}

#[test]
fn bit_board_remove_clears_cells() {
    let mut g = GameState::new();
    g.food = Pos { x: 0, y: 0 };
    g.add_client(1);
    g.remove_client(1);
    assert!(g.clients.is_empty());
    assert!(set_cells(&g).is_empty());
    g.remove_client(7);
    assert!(g.clients.is_empty());
}
