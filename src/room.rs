use vstd::prelude::*;

use std::collections::VecDeque;

use crate::grid::{on_board, OccupancyGrid, Pos};
use crate::message::{LobbyUpdate, SnakeMessage, TickUpdate};
use crate::snake::{
    bodies_nonempty, bodies_on_board, contribution, ids_unique, lemma_occurrences_concat,
    lemma_occurrences_cons, lemma_occurrences_member, lemma_pick_contains, lemma_pick_ids_unique,
    lemma_pick_source, lemma_pick_take, lemma_segment_total_grows, lemma_solid_count_concat,
    lemma_solid_count_le_total, lemma_solid_count_one, lemma_solid_count_same,
    lemma_solid_count_split, lemma_solid_count_two, occurrences, pick, segment_total, solid_count,
    Client, ClientView,
};

verus! {

/// The fixed parameters of a room.
#[derive(Clone, Copy, Debug)]
pub struct RoomConfig {
    pub width: i32,
    pub height: i32,
    /// Distance from each wall within which no snake spawns and no food appears.
    pub padding: i32,
    pub initial_length: u32,
    pub ghost_time_ms: u32,
}

impl RoomConfig {
    /// A board of at least one cell whose spawn area (the board less
    /// `padding` cells at each wall) is non-empty and leaves room below each
    /// spawn point for a whole initial body.
    pub open spec fn valid(self) -> bool {
        &&& 0 < self.width
        &&& 0 < self.height
        &&& self.width * self.height <= usize::MAX
        &&& 0 <= self.padding
        &&& 2 * self.padding < self.width
        &&& 2 * self.padding < self.height
        &&& 1 <= self.initial_length <= self.padding + 1
        &&& self.ghost_time_ms < u32::MAX
    }

    pub fn is_valid(&self) -> (r: bool)
        ensures
            r == self.valid(),
    {
        if self.width <= 0 || self.height <= 0 {
            return false;
        }
        let w = self.width as u64;
        let h = self.height as u64;
        assert(w * h <= 0x7fff_ffff * 0x7fff_ffff) by (nonlinear_arith)
            requires w <= 0x7fff_ffff, h <= 0x7fff_ffff;
        w * h <= usize::MAX as u64 && self.padding >= 0 && (self.padding as i64) * 2
            < self.width as i64 && (self.padding as i64) * 2 < self.height as i64
            && self.initial_length >= 1 && (self.initial_length as i64) <= (self.padding as i64)
            + 1 && self.ghost_time_ms < u32::MAX
    }

    pub open spec fn standard_spec() -> RoomConfig {
        RoomConfig { width: 20, height: 20, padding: 5, initial_length: 5, ghost_time_ms: 8000 }
    }

    /// A twenty by twenty board, snakes of five segments, eight seconds of
    /// ghost grace.
    pub fn standard() -> (r: RoomConfig)
        ensures
            r.valid(),
            r == RoomConfig::standard_spec(),
    {
        RoomConfig { width: 20, height: 20, padding: 5, initial_length: 5, ghost_time_ms: 8000 }
    }

    /// The coordinate that a roll gives along an axis of length `len`.
    pub open spec fn spread(self, roll: u16, len: int) -> int {
        roll as int % (len - 2 * self.padding) + self.padding
    }

    /// Where the roll pair puts a new piece of food.
    pub open spec fn food_at(self, roll_x: u16, roll_y: u16) -> Pos {
        Pos {
            x: self.spread(roll_x, self.width as int) as i32,
            y: self.spread(roll_y, self.height as int) as i32,
        }
    }

    /// The body a new snake gets from a roll pair: a vertical line, head on top.
    pub open spec fn spawn_body(self, roll_x: u16, roll_y: u16) -> Seq<Pos> {
        Seq::new(
            self.initial_length as nat,
            |i: int|
                Pos {
                    x: self.spread(roll_x, self.width as int) as i32,
                    y: (self.spread(roll_y, self.height as int) + i) as i32,
                },
        )
    }

    /// The coordinate a roll gives along an axis: in `[padding, len - padding)`.
    fn spread_exec(&self, roll: u16, len: i32) -> (r: i32)
        requires
            self.valid(),
            len == self.width || len == self.height,
        ensures
            r == self.spread(roll, len as int),
            self.padding <= r < len - self.padding,
    {
        (roll as i32) % (len - 2 * self.padding) + self.padding
    }
}

/// Ghost grace in ticks for a room: the grace time divided by the tick
/// period, plus one.
pub open spec fn grace_ticks(ghost_time_ms: u32, tick_duration_ms: u32) -> nat {
    (ghost_time_ms / tick_duration_ms + 1) as nat
}

/// The id of each client.
pub open spec fn ids_of(cs: Seq<ClientView>) -> Seq<u128> {
    cs.map_values(|c: ClientView| c.id)
}

/// The id of each client with the direction it last moved in.
pub open spec fn moves_of(cs: Seq<ClientView>) -> Seq<(u128, (i32, i32))> {
    cs.map_values(|c: ClientView| (c.id, (c.dx, c.dy)))
}

/// Whether some client has the id.
pub open spec fn has_id(cs: Seq<ClientView>, id: u128) -> bool {
    exists|k: int| 0 <= k < cs.len() && cs[k].id == id
}

/// A client that is solid after its move dies if another segment shares the
/// cell of its head.
pub open spec fn collides(st: Seq<ClientView>, k: int) -> bool {
    st[k].ghost_ticks == 0 && solid_count(st, st[k].head()) > 1
}

/// The bodies of a sequence of (id, body) pairs, as values.
pub open spec fn bodies_view(v: Seq<(u128, VecDeque<Pos>)>) -> Seq<(u128, Seq<Pos>)> {
    v.map_values(|e: (u128, VecDeque<Pos>)| (e.0, e.1@))
}

/// Every client after its own part of the tick.
pub open spec fn after_moves(cs: Seq<ClientView>, food: Pos, width: int, height: int) -> Seq<
    ClientView,
> {
    cs.map_values(|c: ClientView| c.stepped(food, width, height))
}

/// The clients whose head would leave the board.
pub open spec fn keep_walled(cs: Seq<ClientView>, width: int, height: int) -> spec_fn(int) -> bool {
    |k: int| cs[k].hits_wall(width, height)
}

/// The clients that eat.
pub open spec fn keep_eaters(cs: Seq<ClientView>, food: Pos, width: int, height: int) -> spec_fn(
    int,
) -> bool {
    |k: int| cs[k].eats(food, width, height)
}

/// The clients still ghosts after the countdown.
pub open spec fn keep_ghosts(st: Seq<ClientView>) -> spec_fn(int) -> bool {
    |k: int| st[k].ghost_ticks > 0
}

/// The clients that moved and then collided.
pub open spec fn keep_collided(cs: Seq<ClientView>, st: Seq<ClientView>, width: int, height: int) -> spec_fn(
    int,
) -> bool {
    |k: int| !cs[k].hits_wall(width, height) && collides(st, k)
}

/// The clients that live through the tick.
pub open spec fn keep_survivors(cs: Seq<ClientView>, st: Seq<ClientView>, width: int, height: int) -> spec_fn(
    int,
) -> bool {
    |k: int| !cs[k].hits_wall(width, height) && !collides(st, k)
}

/// A copy of a body.
pub fn copy_body(body: &VecDeque<Pos>) -> (r: VecDeque<Pos>)
    ensures
        r@ == body@,
{
    let mut r: VecDeque<Pos> = VecDeque::new();
    let n = body.len();
    let mut i: usize = 0;
    while i < n
        invariant
            n == body@.len(),
            i <= n,
            r@ == body@.take(i as int),
        decreases n - i,
    {
        r.push_back(body[i]);
        i = i + 1;
        assert(r@ =~= body@.take(i as int));
    }
    assert(body@.take(n as int) =~= body@);
    r
}

/// Occurrences over a prefix grow by one element at a time.
proof fn lemma_occurrences_prefix(body: Seq<Pos>, j: int, p: Pos)
    requires
        0 <= j < body.len(),
    ensures
        occurrences(body.take(j + 1), p) == occurrences(body.take(j), p) + if body[j] == p {
            1nat
        } else {
            0nat
        },
        occurrences(body.take(j + 1), p) <= occurrences(body, p),
{
    assert(body.take(j + 1).drop_last() =~= body.take(j));
    assert(body =~= body.take(j + 1) + body.skip(j + 1));
    lemma_occurrences_concat(body.take(j + 1), body.skip(j + 1), p);
}

/// Adds every segment of `body` to the grid.
fn add_body(grid: &mut OccupancyGrid, body: &VecDeque<Pos>)
    requires
        old(grid).wf(),
        forall|k: int| 0 <= k < body@.len() ==> old(grid).contains(#[trigger] body@[k]),
        forall|p: Pos|
            old(grid).contains(p) ==> #[trigger] old(grid).count_of(p) + occurrences(body@, p)
                <= usize::MAX,
    ensures
        final(grid).wf(),
        final(grid).spec_width() == old(grid).spec_width(),
        final(grid).spec_height() == old(grid).spec_height(),
        forall|p: Pos|
            old(grid).contains(p) ==> #[trigger] final(grid).count_of(p) == old(grid).count_of(p)
                + occurrences(body@, p),
{
    let n = body.len();
    let mut i: usize = 0;
    assert(body@.take(0) =~= Seq::<Pos>::empty());
    while i < n
        invariant
            n == body@.len(),
            i <= n,
            grid.wf(),
            grid.spec_width() == old(grid).spec_width(),
            grid.spec_height() == old(grid).spec_height(),
            forall|k: int| 0 <= k < body@.len() ==> old(grid).contains(#[trigger] body@[k]),
            forall|p: Pos|
                old(grid).contains(p) ==> #[trigger] old(grid).count_of(p) + occurrences(body@, p)
                    <= usize::MAX,
            forall|p: Pos|
                old(grid).contains(p) ==> #[trigger] grid.count_of(p) == old(grid).count_of(p)
                    + occurrences(body@.take(i as int), p),
        decreases n - i,
    {
        let p = body[i];
        proof {
            lemma_occurrences_prefix(body@, i as int, p);
        }
        grid.increment(p);
        proof {
            assert forall|q: Pos| old(grid).contains(q) implies #[trigger] grid.count_of(q)
                == old(grid).count_of(q) + occurrences(body@.take(i + 1), q) by {
                lemma_occurrences_prefix(body@, i as int, q);
            }
        }
        i = i + 1;
    }
    assert(body@.take(n as int) =~= body@);
}

/// Takes every segment of `body` from the grid.
fn remove_body(grid: &mut OccupancyGrid, body: &VecDeque<Pos>)
    requires
        old(grid).wf(),
        forall|k: int| 0 <= k < body@.len() ==> old(grid).contains(#[trigger] body@[k]),
        forall|p: Pos|
            old(grid).contains(p) ==> #[trigger] old(grid).count_of(p) >= occurrences(body@, p),
    ensures
        final(grid).wf(),
        final(grid).spec_width() == old(grid).spec_width(),
        final(grid).spec_height() == old(grid).spec_height(),
        forall|p: Pos|
            old(grid).contains(p) ==> #[trigger] final(grid).count_of(p) == old(grid).count_of(p)
                - occurrences(body@, p),
{
    let n = body.len();
    let mut i: usize = 0;
    assert(body@.take(0) =~= Seq::<Pos>::empty());
    while i < n
        invariant
            n == body@.len(),
            i <= n,
            grid.wf(),
            grid.spec_width() == old(grid).spec_width(),
            grid.spec_height() == old(grid).spec_height(),
            forall|k: int| 0 <= k < body@.len() ==> old(grid).contains(#[trigger] body@[k]),
            forall|p: Pos|
                old(grid).contains(p) ==> #[trigger] old(grid).count_of(p) >= occurrences(
                    body@,
                    p,
                ),
            forall|p: Pos|
                old(grid).contains(p) ==> #[trigger] grid.count_of(p) == old(grid).count_of(p)
                    - occurrences(body@.take(i as int), p),
        decreases n - i,
    {
        let p = body[i];
        proof {
            lemma_occurrences_prefix(body@, i as int, p);
        }
        grid.decrement(p);
        proof {
            assert forall|q: Pos| old(grid).contains(q) implies #[trigger] grid.count_of(q)
                == old(grid).count_of(q) - occurrences(body@.take(i + 1), q) by {
                lemma_occurrences_prefix(body@, i as int, q);
            }
        }
        i = i + 1;
    }
    assert(body@.take(n as int) =~= body@);
}

/// One client's own part of a tick: its ghost countdown goes down, a ghost
/// whose countdown reaches zero puts its body on the grid, and unless its head
/// would leave the board it moves, growing when it eats. A solid client's
/// counters follow its body. Returns whether the head hit a wall and whether
/// it ate.
fn step_client(c: &mut Client, grid: &mut OccupancyGrid, food: Pos) -> (r: (bool, bool))
    requires
        old(grid).wf(),
        old(c)@.body.len() >= 1,
        forall|k: int| 0 <= k < old(c)@.body.len() ==> old(grid).contains(#[trigger] old(c)@.body[k]),
        forall|p: Pos|
            old(grid).contains(p) ==> #[trigger] old(grid).count_of(p) >= contribution(old(c)@, p),
        forall|p: Pos|
            old(grid).contains(p) ==> #[trigger] old(grid).count_of(p) - contribution(old(c)@, p)
                + contribution(
                old(c)@.stepped(food, old(grid).spec_width(), old(grid).spec_height()),
                p,
            ) <= usize::MAX,
    ensures
        final(c)@ == old(c)@.stepped(food, old(grid).spec_width(), old(grid).spec_height()),
        r.0 == old(c)@.hits_wall(old(grid).spec_width(), old(grid).spec_height()),
        r.1 == old(c)@.eats(food, old(grid).spec_width(), old(grid).spec_height()),
        final(grid).wf(),
        final(grid).spec_width() == old(grid).spec_width(),
        final(grid).spec_height() == old(grid).spec_height(),
        forall|p: Pos|
            old(grid).contains(p) ==> #[trigger] final(grid).count_of(p) == old(grid).count_of(p)
                - contribution(old(c)@, p) + contribution(final(c)@, p),
{
    let ghost c0 = c@;
    let ghost w = grid.spec_width();
    let ghost h = grid.spec_height();
    let was_ghost = c.ghost_ticks > 0;
    if was_ghost {
        c.ghost_ticks = c.ghost_ticks - 1;
    }
    let head = c.snake[0];
    let tx: i64 = head.x as i64 + c.next_dx as i64;
    let ty: i64 = head.y as i64 + c.next_dy as i64;
    if tx < 0 || tx >= grid.width() as i64 || ty < 0 || ty >= grid.height() as i64 {
        if was_ghost && c.ghost_ticks == 0 {
            add_body(grid, &c.snake);
        }
        assert(c@ == c0.stepped(food, w, h));
        return (true, false);
    }
    let new_head = Pos { x: tx as i32, y: ty as i32 };
    c.dx = c.next_dx;
    c.dy = c.next_dy;
    let ate = new_head == food && c.ghost_ticks == 0;
    if ate {
        c.snake.push_front(new_head);
        proof {
            assert forall|p: Pos| #[trigger] occurrences(c@.body, p) == occurrences(c0.body, p) + if new_head == p {
                1nat
            } else {
                0nat
            } by {
                lemma_occurrences_cons(new_head, c0.body, p);
            }
        }
    } else {
        let tail = c.snake.pop_back();
        c.snake.push_front(new_head);
        proof {
            assert forall|p: Pos| #[trigger] occurrences(c@.body, p) + (if c0.body.last() == p {
                1nat
            } else {
                0nat
            }) == occurrences(c0.body, p) + if new_head == p {
                1nat
            } else {
                0nat
            } by {
                lemma_occurrences_cons(new_head, c0.body.drop_last(), p);
            }
        }
        if !was_ghost {
            match tail {
                Some(t) => {
                    proof {
                        lemma_occurrences_member(c0.body, c0.body.len() - 1);
                    }
                    grid.decrement(t);
                },
                None => {},
            }
        }
    }
    assert(c@ == c0.stepped(food, w, h));
    if c.ghost_ticks == 0 {
        if was_ghost {
            proof {
                assert forall|k: int| 0 <= k < c@.body.len() implies grid.contains(#[trigger] c@.body[k]) by {
                    if k > 0 {
                        if ate {
                            assert(c@.body[k] == c0.body[k - 1]);
                        } else {
                            assert(c@.body[k] == c0.body.drop_last()[k - 1]);
                        }
                    }
                }
            }
            add_body(grid, &c.snake);
        } else {
            grid.increment(new_head);
        }
    }
    (false, ate)
}

/// The state of one room: its clients, the occupancy counters, the food, and
/// the joins that the next tick announces.
pub struct RoomManager {
    pub config: RoomConfig,
    pub clients: Vec<Client>,
    pub occupied: OccupancyGrid,
    pub food: Pos,
    pub pending_joins: Vec<(u128, VecDeque<Pos>)>,
    pub tick_duration_ms: u32,
}

impl RoomManager {
    pub open spec fn clients_view(&self) -> Seq<ClientView> {
        self.clients@.map_values(|c: Client| c@)
    }

    pub open spec fn pending_view(&self) -> Seq<(u128, Seq<Pos>)> {
        bodies_view(self.pending_joins@)
    }

    pub open spec fn board_width(&self) -> int {
        self.config.width as int
    }

    pub open spec fn board_height(&self) -> int {
        self.config.height as int
    }

    /// The counters hold, for every cell, the number of segments of non-ghost
    /// clients on it; every segment lies on the board; ids are distinct.
    pub open spec fn wf(&self) -> bool {
        &&& self.config.valid()
        &&& self.tick_duration_ms > 0
        &&& self.occupied.wf()
        &&& self.occupied.spec_width() == self.config.width
        &&& self.occupied.spec_height() == self.config.height
        &&& bodies_on_board(self.clients_view(), self.board_width(), self.board_height())
        &&& bodies_nonempty(self.clients_view())
        &&& ids_unique(self.clients_view())
        &&& forall|p: Pos|
            self.occupied.contains(p) ==> #[trigger] self.occupied.count_of(p) == solid_count(
                self.clients_view(),
                p,
            )
    }

    /// An empty room on the standard board.
    pub fn new(tick_duration_ms: u32) -> (r: RoomManager)
        requires
            tick_duration_ms > 0,
        ensures
            r.wf(),
            r.config == RoomConfig::standard_spec(),
            r.clients_view().len() == 0,
            r.pending_view().len() == 0,
            r.food == (Pos { x: 5, y: 5 }),
            r.tick_duration_ms == tick_duration_ms,
            r.occupied.is_empty(),
    {
        RoomManager::with_config(RoomConfig::standard(), tick_duration_ms)
    }

    /// An empty room with the given parameters.
    pub fn with_config(config: RoomConfig, tick_duration_ms: u32) -> (r: RoomManager)
        requires
            config.valid(),
            tick_duration_ms > 0,
        ensures
            r.wf(),
            r.config == config,
            r.clients_view().len() == 0,
            r.pending_view().len() == 0,
            r.food == (Pos { x: 5, y: 5 }),
            r.tick_duration_ms == tick_duration_ms,
            r.occupied.is_empty(),
    {
        let r = RoomManager {
            config,
            clients: Vec::new(),
            occupied: OccupancyGrid::new(config.width, config.height),
            food: Pos { x: 5, y: 5 },
            pending_joins: Vec::new(),
            tick_duration_ms,
        };
        assert(r.clients_view() =~= Seq::<ClientView>::empty());
        assert(r.pending_view() =~= Seq::<(u128, Seq<Pos>)>::empty());
        r
    }

    /// The number of clients in the room.
    pub fn player_count(&self) -> (r: usize)
        ensures
            r == self.clients_view().len(),
    {
        self.clients.len()
    }

    /// The player count of this room, for lobby observers.
    pub fn lobby_update(&self, room_id: u32) -> (r: LobbyUpdate)
        ensures
            r.room_id == room_id,
            r.player_count == self.clients_view().len(),
    {
        LobbyUpdate { room_id, player_count: self.clients.len() }
    }

    /// Where `client_id` stands in the client list, if it is there.
    pub fn position_of(&self, client_id: u128) -> (r: Option<usize>)
        requires
            self.wf(),
        ensures
            match r {
                Some(k) => k < self.clients_view().len() && self.clients_view()[k as int].id
                    == client_id,
                None => !has_id(self.clients_view(), client_id),
            },
    {
        let mut k: usize = 0;
        while k < self.clients.len()
            invariant
                k <= self.clients@.len(),
                forall|j: int| 0 <= j < k ==> #[trigger] self.clients@[j].id != client_id,
            decreases self.clients@.len() - k,
        {
            if self.clients[k].id == client_id {
                return Some(k);
            }
            k = k + 1;
        }
        None
    }

    /// Whether `client_id` is in the room.
    pub fn has_client(&self, client_id: u128) -> (r: bool)
        requires
            self.wf(),
        ensures
            r == has_id(self.clients_view(), client_id),
    {
        self.position_of(client_id).is_some()
    }

    /// The body of `client_id`, head first, if it is in the room.
    pub fn body_of(&self, client_id: u128) -> (r: Option<Vec<Pos>>)
        requires
            self.wf(),
        ensures
            match r {
                Some(b) => exists|k: int|
                    0 <= k < self.clients_view().len() && self.clients_view()[k].id == client_id
                        && b@ == self.clients_view()[k].body,
                None => !has_id(self.clients_view(), client_id),
            },
    {
        match self.position_of(client_id) {
            Some(k) => {
                let snake = &self.clients[k].snake;
                let mut b: Vec<Pos> = Vec::new();
                let mut i: usize = 0;
                while i < snake.len()
                    invariant
                        i <= snake@.len(),
                        b@ == snake@.take(i as int),
                    decreases snake@.len() - i,
                {
                    b.push(snake[i]);
                    i = i + 1;
                    assert(b@ =~= snake@.take(i as int));
                }
                assert(snake@.take(snake@.len() as int) =~= snake@);
                assert(self.clients_view()[k as int].body == snake@);
                Some(b)
            },
            None => None,
        }
    }

    /// The counter of cell `p`.
    pub fn count_at(&self, p: Pos) -> (r: usize)
        requires
            self.wf(),
            self.occupied.contains(p),
        ensures
            r == solid_count(self.clients_view(), p),
    {
        self.occupied.count(p)
    }

    /// The client a join adds: a ghost with the spawn body, facing up.
    pub open spec fn joined(&self, client_id: u128, roll_x: u16, roll_y: u16) -> ClientView {
        ClientView {
            id: client_id,
            body: self.config.spawn_body(roll_x, roll_y),
            dx: 0,
            dy: -1i32,
            next_dx: 0,
            next_dy: -1i32,
            ghost_ticks: grace_ticks(self.config.ghost_time_ms, self.tick_duration_ms),
        }
    }

    /// Adds a client whose spawn point comes from the roll pair. It starts as
    /// a ghost, holds no counters, and waits in the pending joins for the next
    /// tick to announce it.
    pub fn add_client_with_rolls(&mut self, client_id: u128, roll_x: u16, roll_y: u16)
        requires
            old(self).wf(),
            !has_id(old(self).clients_view(), client_id),
        ensures
            final(self).wf(),
            final(self).clients_view() == old(self).clients_view().push(
                old(self).joined(client_id, roll_x, roll_y),
            ),
            final(self).pending_view() == old(self).pending_view().push(
                (client_id, old(self).config.spawn_body(roll_x, roll_y)),
            ),
            final(self).occupied == old(self).occupied,
            final(self).food == old(self).food,
            final(self).config == old(self).config,
            final(self).tick_duration_ms == old(self).tick_duration_ms,
    {
        let ghost before = self.clients_view();
        let ghost spawn = self.config.spawn_body(roll_x, roll_y);
        let sx = self.config.spread_exec(roll_x, self.config.width);
        let sy = self.config.spread_exec(roll_y, self.config.height);
        let len = self.config.initial_length;
        let mut snake: VecDeque<Pos> = VecDeque::new();
        let mut i: u32 = 0;
        while i < len
            invariant
                len == self.config.initial_length,
                self.config.valid(),
                sx == self.config.spread(roll_x, self.config.width as int),
                sy == self.config.spread(roll_y, self.config.height as int),
                sy < self.config.height - self.config.padding,
                spawn == self.config.spawn_body(roll_x, roll_y),
                i <= len,
                snake@ == spawn.take(i as int),
            decreases len - i,
        {
            snake.push_back(Pos { x: sx, y: sy + i as i32 });
            i = i + 1;
            assert(snake@ =~= spawn.take(i as int));
        }
        assert(spawn.take(len as int) =~= spawn);
        let body = copy_body(&snake);
        let ghost_ticks = self.config.ghost_time_ms / self.tick_duration_ms + 1;
        self.clients.push(
            Client { id: client_id, snake, dx: 0, dy: -1, next_dx: 0, next_dy: -1, ghost_ticks },
        );
        self.pending_joins.push((client_id, body));
        proof {
            let cv = self.clients_view();
            assert(cv =~= before.push(old(self).joined(client_id, roll_x, roll_y)));
            assert(self.pending_view() =~= old(self).pending_view().push((client_id, spawn)));
            assert forall|p: Pos| self.occupied.contains(p) implies #[trigger] self.occupied.count_of(p)
                == solid_count(cv, p) by {
                assert(cv.drop_last() =~= before);
            }
            assert(bodies_on_board(cv, self.board_width(), self.board_height())) by {
                assert forall|a: int, b: int| 0 <= a < cv.len() && 0 <= b < cv[a].body.len()
                    implies on_board(#[trigger] cv[a].body[b], self.board_width(), self.board_height()) by {
                    if a < before.len() {
                        assert(cv[a] == before[a]);
                    }
                }
            }
            assert(bodies_nonempty(cv)) by {
                assert forall|a: int| 0 <= a < cv.len() implies #[trigger] cv[a].body.len() >= 1 by {
                    if a < before.len() {
                        assert(cv[a] == before[a]);
                    }
                }
            }
            assert(ids_unique(cv)) by {
                assert forall|a: int, b: int| 0 <= a < cv.len() && 0 <= b < cv.len() && a != b
                    implies cv[a].id != cv[b].id by {
                    if a < before.len() {
                        assert(cv[a] == before[a]);
                    }
                    if b < before.len() {
                        assert(cv[b] == before[b]);
                    }
                }
            }
        }
    }

    /// Adds a client at a random spawn point: see `add_client_with_rolls`.
    pub fn add_client(&mut self, client_id: u128)
        requires
            old(self).wf(),
            !has_id(old(self).clients_view(), client_id),
        ensures
            final(self).wf(),
            exists|roll_x: u16, roll_y: u16|
                {
                    &&& final(self).clients_view() == old(self).clients_view().push(
                        old(self).joined(client_id, roll_x, roll_y),
                    )
                    &&& final(self).pending_view() == old(self).pending_view().push(
                        (client_id, old(self).config.spawn_body(roll_x, roll_y)),
                    )
                },
            final(self).occupied == old(self).occupied,
            final(self).food == old(self).food,
            final(self).config == old(self).config,
            final(self).tick_duration_ms == old(self).tick_duration_ms,
    {
        let roll_x = rand::random::<u16>();
        let roll_y = rand::random::<u16>();
        self.add_client_with_rolls(client_id, roll_x, roll_y);
    }

    /// Removes `client_id` from the room; a non-ghost gives back the counters
    /// of all its segments. An unknown id changes nothing.
    pub fn remove_client(&mut self, client_id: u128)
        requires
            old(self).wf(),
        ensures
            final(self).wf(),
            forall|k: int|
                0 <= k < old(self).clients_view().len() && old(self).clients_view()[k].id
                    == client_id ==> {
                    &&& final(self).clients_view() == old(self).clients_view().remove(k)
                    &&& forall|p: Pos|
                        old(self).occupied.contains(p) ==> #[trigger] final(self).occupied.count_of(p)
                            == old(self).occupied.count_of(p) - contribution(
                            old(self).clients_view()[k],
                            p,
                        )
                },
            !has_id(old(self).clients_view(), client_id) ==> final(self).clients_view() == old(
                self,
            ).clients_view() && final(self).occupied == old(self).occupied,
            final(self).occupied.spec_width() == old(self).occupied.spec_width(),
            final(self).occupied.spec_height() == old(self).occupied.spec_height(),
            final(self).food == old(self).food,
            final(self).pending_joins == old(self).pending_joins,
            final(self).config == old(self).config,
            final(self).tick_duration_ms == old(self).tick_duration_ms,
    {
        match self.position_of(client_id) {
            Some(k) => {
                let ghost before = self.clients_view();
                let c = self.clients.remove(k);
                proof {
                    assert(c@ == before[k as int]);
                    assert forall|j: int| 0 <= j < c.snake@.len() implies self.occupied.contains(
                        #[trigger] c.snake@[j],
                    ) by {
                        assert(on_board(before[k as int].body[j], self.board_width(), self.board_height()));
                    }
                    assert forall|p: Pos| self.occupied.contains(p) implies
                        #[trigger] self.occupied.count_of(p) >= contribution(c@, p) by {
                        lemma_solid_count_one(before, k as int, p);
                    }
                }
                if c.ghost_ticks == 0 {
                    remove_body(&mut self.occupied, &c.snake);
                }
                proof {
                    let cv = self.clients_view();
                    assert(cv =~= before.remove(k as int));
                    assert(before.remove(k as int) =~= before.take(k as int) + before.skip(k + 1));
                    assert forall|p: Pos| self.occupied.contains(p) implies
                        #[trigger] self.occupied.count_of(p) == solid_count(cv, p)
                        && self.occupied.count_of(p) == old(self).occupied.count_of(p) - contribution(before[k as int], p) by {
                        lemma_solid_count_split(before, k as int, p);
                        lemma_solid_count_concat(before.take(k as int), before.skip(k + 1), p);
                    }
                    assert(bodies_on_board(cv, self.board_width(), self.board_height())) by {
                        assert forall|a: int, b: int| 0 <= a < cv.len() && 0 <= b < cv[a].body.len()
                            implies on_board(#[trigger] cv[a].body[b], self.board_width(), self.board_height()) by {
                            if a < k {
                                assert(cv[a] == before[a]);
                            } else {
                                assert(cv[a] == before[a + 1]);
                            }
                        }
                    }
                    assert(bodies_nonempty(cv)) by {
                        assert forall|a: int| 0 <= a < cv.len() implies #[trigger] cv[a].body.len() >= 1 by {
                            if a < k {
                                assert(cv[a] == before[a]);
                            } else {
                                assert(cv[a] == before[a + 1]);
                            }
                        }
                    }
                    assert(ids_unique(cv)) by {
                        assert forall|a: int, b: int| 0 <= a < cv.len() && 0 <= b < cv.len() && a != b
                            implies cv[a].id != cv[b].id by {
                            let a2 = if a < k { a } else { a + 1 };
                            let b2 = if b < k { b } else { b + 1 };
                            assert(cv[a] == before[a2]);
                            assert(cv[b] == before[b2]);
                        }
                    }
                    assert forall|j: int| 0 <= j < before.len() && before[j].id == client_id implies j == k by {
                        if j != k {
                            assert(before[j].id != before[k as int].id);
                        }
                    }
                }
            },
            None => {},
        }
    }

    /// What a tick does to the room `self` and reports, the food aside: every
    /// client takes its own step; those at a wall, and solid ones whose head
    /// shares its cell with another counted segment, die and leave; the
    /// pending joins are announced and cleared.
    pub open spec fn tick_outcome(self, next: RoomManager, u: TickUpdate) -> bool {
        let cs = self.clients_view();
        let w = self.board_width();
        let h = self.board_height();
        let st = after_moves(cs, self.food, w, h);
        &&& next.wf()
        &&& next.clients_view() == pick(st, keep_survivors(cs, st, w, h))
        &&& u.deaths@ == pick(ids_of(cs), keep_walled(cs, w, h)) + pick(
            ids_of(cs),
            keep_collided(cs, st, w, h),
        )
        &&& u.moves@ == pick(moves_of(st), keep_survivors(cs, st, w, h))
        &&& u.eaters@ == pick(ids_of(cs), keep_eaters(cs, self.food, w, h))
        &&& u.ghosts@ == pick(ids_of(cs), keep_ghosts(st))
        &&& bodies_view(u.new_snakes@) == self.pending_view()
        &&& next.pending_view().len() == 0
        &&& next.config == self.config
        &&& next.tick_duration_ms == self.tick_duration_ms
    }

    /// The first half of a tick: every client takes its own step and the
    /// counters follow, nobody is removed yet. Returns which clients hit a
    /// wall, and the ids of the eaters, of the ghosts, and of the clients at a
    /// wall.
    pub fn move_clients(&mut self) -> (r: (Vec<bool>, Vec<u128>, Vec<u128>, Vec<u128>))
        requires
            old(self).wf(),
            segment_total(old(self).clients_view()) + old(self).clients_view().len() <= usize::MAX,
        ensures
            final(self).wf(),
            final(self).clients_view() == after_moves(
                old(self).clients_view(),
                old(self).food,
                old(self).board_width(),
                old(self).board_height(),
            ),
            r.0@.len() == old(self).clients_view().len(),
            forall|k: int|
                0 <= k < r.0@.len() ==> r.0@[k] == #[trigger] old(self).clients_view()[k].hits_wall(
                    old(self).board_width(),
                    old(self).board_height(),
                ),
            r.1@ == pick(
                ids_of(old(self).clients_view()),
                keep_eaters(
                    old(self).clients_view(),
                    old(self).food,
                    old(self).board_width(),
                    old(self).board_height(),
                ),
            ),
            r.2@ == pick(
                ids_of(old(self).clients_view()),
                keep_ghosts(
                    after_moves(
                        old(self).clients_view(),
                        old(self).food,
                        old(self).board_width(),
                        old(self).board_height(),
                    ),
                ),
            ),
            r.3@ == pick(
                ids_of(old(self).clients_view()),
                keep_walled(
                    old(self).clients_view(),
                    old(self).board_width(),
                    old(self).board_height(),
                ),
            ),
            final(self).food == old(self).food,
            final(self).pending_joins == old(self).pending_joins,
            final(self).config == old(self).config,
            final(self).tick_duration_ms == old(self).tick_duration_ms,
    {
        let ghost cs = self.clients_view();
        let ghost w = self.board_width();
        let ghost h = self.board_height();
        let food = self.food;
        let ghost st = after_moves(cs, food, w, h);
        let ghost ids = ids_of(cs);
        let n = self.clients.len();
        let mut walls: Vec<bool> = Vec::new();
        let mut eaters: Vec<u128> = Vec::new();
        let mut ghosts: Vec<u128> = Vec::new();
        let mut walled_ids: Vec<u128> = Vec::new();
        proof {
            assert(ids.take(0) =~= Seq::<u128>::empty());
            assert forall|k: int| 0 <= k < n implies #[trigger] st[k].body.len() <= cs[k].body.len() + 1 by {
                assert(cs[k].body.len() >= 1);
            }
            lemma_segment_total_grows(cs, st);
        }
        let mut i: usize = 0;
        while i < n
            invariant
                n == cs.len(),
                i <= n,
                st == after_moves(cs, food, w, h),
                ids == ids_of(cs),
                cs == old(self).clients_view(),
                w == old(self).board_width(),
                h == old(self).board_height(),
                segment_total(st) <= segment_total(cs) + n,
                segment_total(cs) + n <= usize::MAX,
                old(self).wf(),
                self.clients@.len() == n,
                self.food == food,
                food == old(self).food,
                self.pending_joins == old(self).pending_joins,
                self.config == old(self).config,
                self.tick_duration_ms == old(self).tick_duration_ms,
                self.occupied.wf(),
                self.occupied.spec_width() == w,
                self.occupied.spec_height() == h,
                forall|k: int| 0 <= k < i ==> #[trigger] self.clients_view()[k] == st[k],
                forall|k: int| i <= k < n ==> #[trigger] self.clients_view()[k] == cs[k],
                forall|p: Pos|
                    self.occupied.contains(p) ==> #[trigger] self.occupied.count_of(p) == solid_count(
                        self.clients_view(),
                        p,
                    ),
                walls@.len() == i,
                forall|k: int| 0 <= k < i ==> walls@[k] == #[trigger] cs[k].hits_wall(w, h),
                eaters@ == pick(ids.take(i as int), keep_eaters(cs, food, w, h)),
                ghosts@ == pick(ids.take(i as int), keep_ghosts(st)),
                walled_ids@ == pick(ids.take(i as int), keep_walled(cs, w, h)),
            decreases n - i,
        {
            let ghost cur = self.clients_view();
            let ghost nxt = cur.update(i as int, st[i as int]);
            proof {
                assert(cur[i as int] == cs[i as int]);
                assert(nxt.take(i as int) =~= cur.take(i as int));
                assert(nxt.skip(i + 1) =~= cur.skip(i + 1));
                assert forall|k: int| 0 <= k < n implies #[trigger] nxt[k].body.len() <= cs[k].body.len() + 1 by {
                    if k <= i {
                        assert(st[k].body.len() <= cs[k].body.len() + 1) by {
                            assert(cs[k].body.len() >= 1);
                        }
                    } else {
                        assert(nxt[k] == cs[k]);
                    }
                }
                lemma_segment_total_grows(cs, nxt);
                assert forall|p: Pos| self.occupied.contains(p) implies #[trigger] self.occupied.count_of(p)
                    >= contribution(cs[i as int], p) && self.occupied.count_of(p) - contribution(cs[i as int], p)
                    + contribution(st[i as int], p) <= usize::MAX by {
                    lemma_solid_count_one(cur, i as int, p);
                    lemma_solid_count_split(cur, i as int, p);
                    lemma_solid_count_split(nxt, i as int, p);
                    lemma_solid_count_le_total(nxt, p);
                }
                assert forall|k: int| 0 <= k < cs[i as int].body.len() implies self.occupied.contains(
                    #[trigger] cs[i as int].body[k],
                ) by {
                    assert(on_board(cs[i as int].body[k], w, h));
                }
                assert(cs[i as int].body.len() >= 1);
            }
            let (walled, ate) = step_client(&mut self.clients[i], &mut self.occupied, food);
            proof {
                assert(self.clients_view() =~= nxt);
                assert forall|p: Pos| self.occupied.contains(p) implies #[trigger] self.occupied.count_of(p)
                    == solid_count(self.clients_view(), p) by {
                    lemma_solid_count_split(cur, i as int, p);
                    lemma_solid_count_split(nxt, i as int, p);
                }
                lemma_pick_take(ids, keep_eaters(cs, food, w, h), i as int);
                lemma_pick_take(ids, keep_ghosts(st), i as int);
                lemma_pick_take(ids, keep_walled(cs, w, h), i as int);
            }
            let id = self.clients[i].id;
            walls.push(walled);
            if ate {
                eaters.push(id);
            }
            if self.clients[i].ghost_ticks > 0 {
                ghosts.push(id);
            }
            if walled {
                walled_ids.push(id);
            }
            i = i + 1;
        }
        proof {
            let cv = self.clients_view();
            assert(cv =~= st);
            assert(ids.take(n as int) =~= ids);
            assert(bodies_on_board(cv, w, h)) by {
                assert forall|a: int, b: int| 0 <= a < cv.len() && 0 <= b < cv[a].body.len()
                    implies on_board(#[trigger] cv[a].body[b], w, h) by {
                    let c = cs[a];
                    if b > 0 && !c.hits_wall(w, h) {
                        if c.eats(food, w, h) {
                            assert(cv[a].body[b] == c.body[b - 1]);
                        } else {
                            assert(cv[a].body[b] == c.body.drop_last()[b - 1]);
                        }
                    }
                }
            }
            assert(bodies_nonempty(cv)) by {
                assert forall|a: int| 0 <= a < cv.len() implies #[trigger] cv[a].body.len() >= 1 by {
                    assert(cs[a].body.len() >= 1);
                }
            }
            assert(ids_unique(cv)) by {
                assert forall|a: int, b: int| 0 <= a < cv.len() && 0 <= b < cv.len() && a != b
                    implies cv[a].id != cv[b].id by {
                    assert(cs[a].id != cs[b].id);
                }
            }
        }
        (walls, eaters, ghosts, walled_ids)
    }

    /// Checks every client that did not hit a wall for a collision at its
    /// head. Returns the ids of those that collided, the moves of the
    /// survivors, and which clients survive.
    fn resolve_collisions(&self, walls: &Vec<bool>, Ghost(cs): Ghost<Seq<ClientView>>) -> (r: (
        Vec<u128>,
        Vec<(u128, (i32, i32))>,
        Vec<bool>,
    ))
        requires
            self.wf(),
            cs.len() == self.clients_view().len(),
            walls@.len() == cs.len(),
            forall|k: int|
                0 <= k < walls@.len() ==> walls@[k] == #[trigger] cs[k].hits_wall(
                    self.board_width(),
                    self.board_height(),
                ),
        ensures
            r.0@ == pick(
                ids_of(self.clients_view()),
                keep_collided(cs, self.clients_view(), self.board_width(), self.board_height()),
            ),
            r.1@ == pick(
                moves_of(self.clients_view()),
                keep_survivors(cs, self.clients_view(), self.board_width(), self.board_height()),
            ),
            r.2@.len() == cs.len(),
            forall|k: int|
                0 <= k < cs.len() ==> #[trigger] r.2@[k] == keep_survivors(
                    cs,
                    self.clients_view(),
                    self.board_width(),
                    self.board_height(),
                )(k),
    {
        let ghost st = self.clients_view();
        let ghost w = self.board_width();
        let ghost h = self.board_height();
        let ghost ids = ids_of(st);
        let ghost mv = moves_of(st);
        let n = self.clients.len();
        let mut collided: Vec<u128> = Vec::new();
        let mut moves: Vec<(u128, (i32, i32))> = Vec::new();
        let mut alive: Vec<bool> = Vec::new();
        proof {
            assert(ids.take(0) =~= Seq::<u128>::empty());
            assert(mv.take(0) =~= Seq::<(u128, (i32, i32))>::empty());
        }
        let mut i: usize = 0;
        while i < n
            invariant
                self.wf(),
                st == self.clients_view(),
                w == self.board_width(),
                h == self.board_height(),
                ids == ids_of(st),
                mv == moves_of(st),
                n == st.len(),
                cs.len() == n,
                walls@.len() == n,
                forall|k: int| 0 <= k < n ==> walls@[k] == #[trigger] cs[k].hits_wall(w, h),
                i <= n,
                collided@ == pick(ids.take(i as int), keep_collided(cs, st, w, h)),
                moves@ == pick(mv.take(i as int), keep_survivors(cs, st, w, h)),
                alive@.len() == i,
                forall|k: int| 0 <= k < i ==> #[trigger] alive@[k] == keep_survivors(cs, st, w, h)(k),
            decreases n - i,
        {
            let c = &self.clients[i];
            proof {
                lemma_pick_take(ids, keep_collided(cs, st, w, h), i as int);
                lemma_pick_take(mv, keep_survivors(cs, st, w, h), i as int);
                assert(c@ == st[i as int]);
                assert(st[i as int].body.len() >= 1);
                assert(on_board(st[i as int].body[0], w, h));
            }
            if walls[i] {
                alive.push(false);
            } else if c.ghost_ticks == 0 && self.occupied.count(c.snake[0]) > 1 {
                collided.push(c.id);
                alive.push(false);
            } else {
                moves.push((c.id, (c.dx, c.dy)));
                alive.push(true);
            }
            i = i + 1;
        }
        proof {
            assert(ids.take(n as int) =~= ids);
            assert(mv.take(n as int) =~= mv);
        }
        (collided, moves, alive)
    }

    /// Drops the clients that `alive` marks dead; a non-ghost gives back its
    /// counters.
    fn drop_dead(&mut self, alive: &Vec<bool>, Ghost(keep): Ghost<spec_fn(int) -> bool>)
        requires
            old(self).wf(),
            alive@.len() == old(self).clients_view().len(),
            forall|k: int| 0 <= k < alive@.len() ==> #[trigger] alive@[k] == keep(k),
        ensures
            final(self).wf(),
            final(self).clients_view() == pick(old(self).clients_view(), keep),
            final(self).food == old(self).food,
            final(self).pending_joins == old(self).pending_joins,
            final(self).config == old(self).config,
            final(self).tick_duration_ms == old(self).tick_duration_ms,
    {
        let ghost st = self.clients_view();
        let ghost w = self.board_width();
        let ghost h = self.board_height();
        let n = self.clients.len();
        let mut rest: Vec<Client> = Vec::new();
        std::mem::swap(&mut self.clients, &mut rest);
        proof {
            assert(rest@.map_values(|c: Client| c@) =~= st.skip(0));
            assert(st.take(0) =~= Seq::<ClientView>::empty());
            assert(self.clients_view() =~= Seq::<ClientView>::empty());
            assert forall|p: Pos| self.occupied.contains(p) implies #[trigger] self.occupied.count_of(p)
                == solid_count(self.clients_view(), p) + solid_count(st.skip(0), p) by {
                assert(st.skip(0) =~= st);
            }
        }
        let mut i: usize = 0;
        while i < n
            invariant
                old(self).wf(),
                st == old(self).clients_view(),
                w == old(self).board_width(),
                h == old(self).board_height(),
                n == st.len(),
                alive@.len() == n,
                forall|k: int| 0 <= k < n ==> #[trigger] alive@[k] == keep(k),
                i <= n,
                rest@.map_values(|c: Client| c@) == st.skip(i as int),
                self.clients_view() == pick(st.take(i as int), keep),
                self.occupied.wf(),
                self.occupied.spec_width() == w,
                self.occupied.spec_height() == h,
                forall|p: Pos|
                    self.occupied.contains(p) ==> #[trigger] self.occupied.count_of(p) == solid_count(
                        self.clients_view(),
                        p,
                    ) + solid_count(st.skip(i as int), p),
                self.food == old(self).food,
                self.pending_joins == old(self).pending_joins,
                self.config == old(self).config,
                self.tick_duration_ms == old(self).tick_duration_ms,
            decreases n - i,
        {
            let ghost kept = self.clients_view();
            let ghost before_rest = rest@;
            proof {
                assert(rest@.map_values(|c: Client| c@).len() == rest@.len());
                assert(rest@.map_values(|c: Client| c@)[0] == st.skip(i as int)[0]);
            }
            let c = rest.remove(0);
            proof {
                assert(rest@ =~= before_rest.remove(0));
                assert(c == before_rest[0]);
                lemma_pick_take(st, keep, i as int);
                assert(st.skip(i as int)[0] == st[i as int]);
                assert(c@ == st[i as int]);
                assert forall|j: int| 0 <= j < rest@.len() implies #[trigger] rest@[j]@ == st.skip(i + 1)[j] by {
                    assert(rest@[j] == before_rest[j + 1]);
                    assert(before_rest.map_values(|c: Client| c@)[j + 1] == st.skip(i as int)[j + 1]);
                }
                assert(rest@.map_values(|c: Client| c@) =~= st.skip(i + 1));
                assert(st.skip(i as int) =~= seq![st[i as int]] + st.skip(i + 1));
                assert forall|p: Pos| #[trigger] solid_count(st.skip(i as int), p) == contribution(st[i as int], p) + solid_count(st.skip(i + 1), p) by {
                    lemma_solid_count_concat(seq![st[i as int]], st.skip(i + 1), p);
                    let one = seq![st[i as int]];
                    assert(one.drop_last() =~= Seq::<ClientView>::empty());
                    assert(solid_count(one.drop_last(), p) == 0);
                }
            }
            if alive[i] {
                self.clients.push(c);
                proof {
                    assert(self.clients_view() =~= kept.push(st[i as int]));
                    assert(self.clients_view().drop_last() =~= kept);
                }
            } else {
                proof {
                    assert forall|k: int| 0 <= k < c.snake@.len() implies self.occupied.contains(
                        #[trigger] c.snake@[k],
                    ) by {
                        assert(on_board(st[i as int].body[k], w, h));
                    }
                }
                if c.ghost_ticks == 0 {
                    remove_body(&mut self.occupied, &c.snake);
                }
            }
            i = i + 1;
        }
        proof {
            let cv = self.clients_view();
            assert(st.take(n as int) =~= st);
            assert forall|p: Pos| self.occupied.contains(p) implies #[trigger] self.occupied.count_of(p)
                == solid_count(cv, p) by {
                assert(st.skip(n as int) =~= Seq::<ClientView>::empty());
            }
            lemma_pick_ids_unique(st, keep);
            assert(bodies_on_board(cv, w, h)) by {
                assert forall|a: int, b: int| 0 <= a < cv.len() && 0 <= b < cv[a].body.len()
                    implies on_board(#[trigger] cv[a].body[b], w, h) by {
                    assert(cv.contains(cv[a]));
                    lemma_pick_source(st, keep, cv[a]);
                }
            }
            assert(bodies_nonempty(cv)) by {
                assert forall|a: int| 0 <= a < cv.len() implies #[trigger] cv[a].body.len() >= 1 by {
                    assert(cv.contains(cv[a]));
                    lemma_pick_source(st, keep, cv[a]);
                }
            }
        }
    }

    /// One tick of the room, the food respawn aside (`update.food` is the
    /// food as it stands): see `tick_outcome`.
    pub fn advance(&mut self) -> (u: TickUpdate)
        requires
            old(self).wf(),
            segment_total(old(self).clients_view()) + old(self).clients_view().len() <= usize::MAX,
        ensures
            old(self).tick_outcome(*final(self), u),
            final(self).food == old(self).food,
            u.food == old(self).food,
    {
        let ghost cs = self.clients_view();
        let ghost w = self.board_width();
        let ghost h = self.board_height();
        let ghost st = after_moves(cs, self.food, w, h);
        let (walls, eaters, ghosts, mut deaths) = self.move_clients();
        let (mut collided, moves, alive) = self.resolve_collisions(&walls, Ghost(cs));
        proof {
            assert(ids_of(st) =~= ids_of(cs));
        }
        deaths.append(&mut collided);
        let mut new_snakes: Vec<(u128, VecDeque<Pos>)> = Vec::new();
        std::mem::swap(&mut self.pending_joins, &mut new_snakes);
        self.drop_dead(&alive, Ghost(keep_survivors(cs, st, w, h)));
        proof {
            assert(self.pending_view() =~= Seq::<(u128, Seq<Pos>)>::empty());
        }
        TickUpdate { moves, food: self.food, deaths, eaters, new_snakes, ghosts }
    }

    /// Puts the food where the roll pair says: inside the board, `padding`
    /// cells or more from each wall.
    pub fn respawn_food_at(&mut self, roll_x: u16, roll_y: u16)
        requires
            old(self).wf(),
        ensures
            final(self).wf(),
            final(self).food == old(self).config.food_at(roll_x, roll_y),
            on_board(final(self).food, old(self).board_width(), old(self).board_height()),
            final(self).clients_view() == old(self).clients_view(),
            final(self).occupied == old(self).occupied,
            final(self).pending_joins == old(self).pending_joins,
            final(self).config == old(self).config,
            final(self).tick_duration_ms == old(self).tick_duration_ms,
    {
        let x = self.config.spread_exec(roll_x, self.config.width);
        let y = self.config.spread_exec(roll_y, self.config.height);
        self.food = Pos { x, y };
    }

    /// Puts the food at a random cell: see `respawn_food_at`.
    fn respawn_food(&mut self)
        requires
            old(self).wf(),
        ensures
            final(self).wf(),
            exists|roll_x: u16, roll_y: u16| final(self).food == old(self).config.food_at(roll_x, roll_y),
            final(self).clients_view() == old(self).clients_view(),
            final(self).occupied == old(self).occupied,
            final(self).pending_joins == old(self).pending_joins,
            final(self).config == old(self).config,
            final(self).tick_duration_ms == old(self).tick_duration_ms,
    {
        let roll_x = rand::random::<u16>();
        let roll_y = rand::random::<u16>();
        self.respawn_food_at(roll_x, roll_y);
    }

    /// One tick of the room: `advance`, then one food respawn at a random
    /// cell per eater; the update reports the food as it ends.
    pub fn tick(&mut self) -> (u: TickUpdate)
        requires
            old(self).wf(),
            segment_total(old(self).clients_view()) + old(self).clients_view().len() <= usize::MAX,
        ensures
            old(self).tick_outcome(*final(self), u),
            u.food == final(self).food,
            u.eaters@.len() == 0 ==> final(self).food == old(self).food,
            u.eaters@.len() > 0 ==> exists|roll_x: u16, roll_y: u16|
                final(self).food == old(self).config.food_at(roll_x, roll_y),
    {
        let mut u = self.advance();
        let n = u.eaters.len();
        let mut k: usize = 0;
        while k < n
            invariant
                n == u.eaters@.len(),
                k <= n,
                old(self).tick_outcome(*self, u),
                self.config == old(self).config,
                k == 0 ==> self.food == old(self).food,
                k > 0 ==> exists|roll_x: u16, roll_y: u16|
                    self.food == old(self).config.food_at(roll_x, roll_y),
            decreases n - k,
        {
            self.respawn_food();
            k = k + 1;
        }
        u.food = self.food;
        u
    }

    /// The message a joining client gets: its id, every body in the room,
    /// and the tick period.
    pub fn new_init_message(&self, my_id: u128) -> (r: SnakeMessage)
        ensures
            match r {
                SnakeMessage::OnJoin { my_id: m, snakes, tick_duration_ms } => {
                    &&& m == my_id
                    &&& bodies_view(snakes@) == self.clients_view().map_values(
                        |c: ClientView| (c.id, c.body),
                    )
                    &&& tick_duration_ms == self.tick_duration_ms
                },
                _ => false,
            },
    {
        let mut snakes: Vec<(u128, VecDeque<Pos>)> = Vec::new();
        let n = self.clients.len();
        let mut i: usize = 0;
        while i < n
            invariant
                n == self.clients@.len(),
                i <= n,
                bodies_view(snakes@) == self.clients_view().map_values(
                    |c: ClientView| (c.id, c.body),
                ).take(i as int),
            decreases n - i,
        {
            let body = copy_body(&self.clients[i].snake);
            let ghost prev = snakes@;
            proof {
                assert(bodies_view(prev).len() == prev.len());
                assert(prev.len() == i);
            }
            snakes.push((self.clients[i].id, body));
            i = i + 1;
            proof {
                let want = self.clients_view().map_values(|c: ClientView| (c.id, c.body));
                assert(self.clients_view()[i - 1] == self.clients@[i - 1]@);
                assert(want[i - 1] == (self.clients@[i - 1].id, self.clients@[i - 1].snake@));
                assert forall|j: int| 0 <= j < i implies #[trigger] bodies_view(snakes@)[j] == want[j] by {
                    if j < i - 1 {
                        assert(snakes@[j] == prev[j]);
                        assert(bodies_view(prev)[j] == want.take(i - 1)[j]);
                    }
                }
                assert(bodies_view(snakes@) =~= self.clients_view().map_values(
                    |c: ClientView| (c.id, c.body),
                ).take(i as int));
            }
        }
        proof {
            assert(self.clients_view().map_values(|c: ClientView| (c.id, c.body)).take(n as int)
                =~= self.clients_view().map_values(|c: ClientView| (c.id, c.body)));
        }
        SnakeMessage::OnJoin { my_id, snakes, tick_duration_ms: self.tick_duration_ms }
    }

    /// Records the direction `client_id` asks to move in on the next tick,
    /// unless it points exactly against the direction of its last move; an
    /// unknown id changes nothing.
    pub fn queue_move(&mut self, client_id: u128, dx: i32, dy: i32)
        requires
            old(self).wf(),
        ensures
            final(self).wf(),
            final(self).clients_view().len() == old(self).clients_view().len(),
            forall|k: int|
                0 <= k < old(self).clients_view().len() ==> #[trigger] final(self).clients_view()[k]
                    == if old(self).clients_view()[k].id == client_id && !old(
                    self,
                ).clients_view()[k].reverses(dx as int, dy as int) {
                    ClientView { next_dx: dx, next_dy: dy, ..old(self).clients_view()[k] }
                } else {
                    old(self).clients_view()[k]
                },
            final(self).occupied == old(self).occupied,
            final(self).food == old(self).food,
            final(self).pending_joins == old(self).pending_joins,
            final(self).config == old(self).config,
            final(self).tick_duration_ms == old(self).tick_duration_ms,
    {
        match self.position_of(client_id) {
            Some(k) => {
                let cdx = self.clients[k].dx;
                let cdy = self.clients[k].dy;
                if dx as i64 != -(cdx as i64) || dy as i64 != -(cdy as i64) {
                    let ghost before = self.clients_view();
                    self.clients[k].next_dx = dx;
                    self.clients[k].next_dy = dy;
                    proof {
                        assert forall|j: int| 0 <= j < before.len() implies
                            #[trigger] self.clients_view()[j].body == before[j].body
                            && self.clients_view()[j].ghost_ticks == before[j].ghost_ticks
                            && self.clients_view()[j].id == before[j].id by {
                            if j != k {
                                assert(self.clients_view()[j] == before[j]);
                            }
                        }
                        assert forall|p: Pos| self.occupied.contains(p) implies
                            #[trigger] self.occupied.count_of(p) == solid_count(self.clients_view(), p) by {
                            lemma_solid_count_same(before, self.clients_view(), p);
                        }
                        let cv = self.clients_view();
                        assert(bodies_on_board(cv, self.board_width(), self.board_height())) by {
                            assert forall|i: int, j: int| 0 <= i < cv.len() && 0 <= j < cv[i].body.len()
                                implies on_board(#[trigger] cv[i].body[j], self.board_width(), self.board_height()) by {
                                assert(cv[i].body == before[i].body);
                                assert(on_board(before[i].body[j], self.board_width(), self.board_height()));
                            }
                        }
                        assert(bodies_nonempty(cv)) by {
                            assert forall|i: int| 0 <= i < cv.len() implies #[trigger] cv[i].body.len() >= 1 by {
                                assert(cv[i].body == before[i].body);
                            }
                        }
                        assert(ids_unique(cv)) by {
                            assert forall|i: int, j: int| 0 <= i < cv.len() && 0 <= j < cv.len() && i != j
                                implies cv[i].id != cv[j].id by {
                                assert(cv[i].id == before[i].id);
                                assert(cv[j].id == before[j].id);
                            }
                        }
                    }
                }
            },
            None => {},
        }
    }
}

/// A ghost holds no counter: in a well-formed room every counter equals the
/// count of the other clients alone.
pub proof fn lemma_ghost_holds_no_counter(room: RoomManager, k: int, p: Pos)
    requires
        room.wf(),
        0 <= k < room.clients_view().len(),
        room.clients_view()[k].is_ghost(),
        room.occupied.contains(p),
    ensures
        room.occupied.count_of(p) == solid_count(room.clients_view().remove(k), p),
{
    let cs = room.clients_view();
    lemma_solid_count_split(cs, k, p);
    assert(cs.remove(k) =~= cs.take(k) + cs.skip(k + 1));
    lemma_solid_count_concat(cs.take(k), cs.skip(k + 1), p);
}

/// A tick lists a client among the ghosts exactly when its countdown was
/// above one before the tick; a client whose countdown is zero stays at
/// zero, so once it stops being listed it is never listed again.
pub proof fn lemma_ghost_listing(room: RoomManager, next: RoomManager, u: TickUpdate, k: int)
    requires
        room.wf(),
        room.tick_outcome(next, u),
        0 <= k < room.clients_view().len(),
    ensures
        u.ghosts@.contains(room.clients_view()[k].id) <==> room.clients_view()[k].ghost_ticks > 1,
        room.clients_view()[k].ghost_ticks == 0 ==> after_moves(
            room.clients_view(),
            room.food,
            room.board_width(),
            room.board_height(),
        )[k].ghost_ticks == 0,
{
    let cs = room.clients_view();
    let st = after_moves(cs, room.food, room.board_width(), room.board_height());
    let keep = keep_ghosts(st);
    let ids = ids_of(cs);
    if cs[k].ghost_ticks > 1 {
        lemma_pick_contains(ids, keep, k);
    }
    if u.ghosts@.contains(cs[k].id) {
        lemma_pick_source(ids, keep, cs[k].id);
        let j = choose|j: int| 0 <= j < ids.len() && keep(j) && ids[j] == cs[k].id;
        if j != k {
            assert(cs[j].id != cs[k].id);
        }
    }
}

/// Two solid clients whose heads move into the same cell both die in that
/// tick: both are among the deaths, neither among the moves nor in the room
/// afterwards.
pub proof fn lemma_head_on_collision(room: RoomManager, next: RoomManager, u: TickUpdate, i: int, j: int)
    requires
        room.wf(),
        room.tick_outcome(next, u),
        0 <= i < room.clients_view().len(),
        0 <= j < room.clients_view().len(),
        i != j,
        !room.clients_view()[i].hits_wall(room.board_width(), room.board_height()),
        !room.clients_view()[j].hits_wall(room.board_width(), room.board_height()),
        room.clients_view()[i].countdown() == 0,
        room.clients_view()[j].countdown() == 0,
        room.clients_view()[i].new_head() == room.clients_view()[j].new_head(),
    ensures
        u.deaths@.contains(room.clients_view()[i].id),
        u.deaths@.contains(room.clients_view()[j].id),
        forall|d: (i32, i32)| !u.moves@.contains((room.clients_view()[i].id, d)),
        forall|d: (i32, i32)| !u.moves@.contains((room.clients_view()[j].id, d)),
        !has_id(next.clients_view(), room.clients_view()[i].id),
        !has_id(next.clients_view(), room.clients_view()[j].id),
{
    let cs = room.clients_view();
    let w = room.board_width();
    let h = room.board_height();
    let st = after_moves(cs, room.food, w, h);
    let hd = cs[i].new_head();
    assert(st[i].head() == hd);
    assert(st[j].head() == hd);
    lemma_occurrences_member(st[i].body, 0);
    lemma_occurrences_member(st[j].body, 0);
    if i < j {
        lemma_solid_count_two(st, i, j, hd);
    } else {
        lemma_solid_count_two(st, j, i, hd);
    }
    assert(collides(st, i) && collides(st, j));
    lemma_collided_reported(room, next, u, i);
    lemma_collided_reported(room, next, u, j);
}

/// A client that moves and collides is reported dead, has no move, and is
/// gone from the room.
proof fn lemma_collided_reported(room: RoomManager, next: RoomManager, u: TickUpdate, i: int)
    requires
        room.wf(),
        room.tick_outcome(next, u),
        0 <= i < room.clients_view().len(),
        keep_collided(
            room.clients_view(),
            after_moves(room.clients_view(), room.food, room.board_width(), room.board_height()),
            room.board_width(),
            room.board_height(),
        )(i),
    ensures
        u.deaths@.contains(room.clients_view()[i].id),
        forall|d: (i32, i32)| !u.moves@.contains((room.clients_view()[i].id, d)),
        !has_id(next.clients_view(), room.clients_view()[i].id),
{
    let cs = room.clients_view();
    let w = room.board_width();
    let h = room.board_height();
    let st = after_moves(cs, room.food, w, h);
    let ids = ids_of(cs);
    let walled = pick(ids, keep_walled(cs, w, h));
    let collided = pick(ids, keep_collided(cs, st, w, h));
    let alive = keep_survivors(cs, st, w, h);
    lemma_pick_contains(ids, keep_collided(cs, st, w, h), i);
    let a = choose|a: int| 0 <= a < collided.len() && collided[a] == cs[i].id;
    assert(u.deaths@[walled.len() + a] == cs[i].id);
    assert forall|d: (i32, i32)| !u.moves@.contains((cs[i].id, d)) by {
        if u.moves@.contains((cs[i].id, d)) {
            lemma_pick_source(moves_of(st), alive, (cs[i].id, d));
            let k = choose|k: int| 0 <= k < st.len() && alive(k) && moves_of(st)[k] == (cs[i].id, d);
            if k != i {
                assert(cs[k].id != cs[i].id);
            }
        }
    }
    if has_id(next.clients_view(), cs[i].id) {
        let b = choose|b: int| 0 <= b < next.clients_view().len() && next.clients_view()[b].id == cs[i].id;
        assert(next.clients_view().contains(next.clients_view()[b]));
        lemma_pick_source(st, alive, next.clients_view()[b]);
        let k = choose|k: int| 0 <= k < st.len() && alive(k) && st[k] == next.clients_view()[b];
        if k != i {
            assert(cs[k].id != cs[i].id);
        }
    }
}

/// A client whose head lands on the food while solid keeps its tail: its
/// body grows by exactly one cell, the food cell, and it is among the eaters.
pub proof fn lemma_eater_grows(room: RoomManager, next: RoomManager, u: TickUpdate, k: int)
    requires
        room.wf(),
        room.tick_outcome(next, u),
        0 <= k < room.clients_view().len(),
        room.clients_view()[k].eats(room.food, room.board_width(), room.board_height()),
    ensures
        u.eaters@.contains(room.clients_view()[k].id),
        after_moves(room.clients_view(), room.food, room.board_width(), room.board_height())[k].body
            == seq![room.food] + room.clients_view()[k].body,
        after_moves(room.clients_view(), room.food, room.board_width(), room.board_height())[k].body.len()
            == room.clients_view()[k].body.len() + 1,
{
    let cs = room.clients_view();
    lemma_pick_contains(ids_of(cs), keep_eaters(cs, room.food, room.board_width(), room.board_height()), k);
}

} // verus!
