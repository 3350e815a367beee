use vstd::prelude::*;

use std::collections::{HashMap, VecDeque};

use crate::grid::Pos;
use crate::message::SnakeMessage;
use crate::room::{bodies_view, copy_body};

verus! {

broadcast use vstd::std_specs::hash::group_hash_axioms;

/// A snake as a client draws it: its body, head first.
pub struct Snake {
    pub segments: VecDeque<Pos>,
    pub growing: bool,
}

impl View for Snake {
    type V = (Seq<Pos>, bool);

    open spec fn view(&self) -> (Seq<Pos>, bool) {
        (self.segments@, self.growing)
    }
}

/// Whether moving the head of `body` by `(dx, dy)` stays within `i32`.
pub open spec fn can_move(body: Seq<Pos>, dx: i32, dy: i32) -> bool {
    body.len() == 0 || (i32::MIN <= body[0].x + dx <= i32::MAX && i32::MIN <= body[0].y + dy
        <= i32::MAX)
}

/// A snake after one move: a new head one step away; the tail stays when it
/// grows.
pub open spec fn moved(s: (Seq<Pos>, bool), dx: i32, dy: i32, growing: bool) -> (Seq<Pos>, bool) {
    if s.0.len() == 0 {
        s
    } else {
        let h = Pos { x: (s.0[0].x + dx) as i32, y: (s.0[0].y + dy) as i32 };
        if growing {
            (seq![h] + s.0, false)
        } else {
            (seq![h] + s.0.drop_last(), s.1)
        }
    }
}

impl Snake {
    pub fn new(segments: VecDeque<Pos>) -> (r: Snake)
        ensures
            r@ == (segments@, false),
    {
        Snake { segments, growing: false }
    }

    /// Moves the head by `(dx, dy)`, dropping the tail unless `growing`. An
    /// empty snake stays as it is.
    pub fn apply_move(&mut self, dx: i32, dy: i32, growing: bool)
        requires
            can_move(old(self).segments@, dx, dy),
        ensures
            final(self)@ == moved(old(self)@, dx, dy, growing),
    {
        if self.segments.len() > 0 {
            let head = self.segments[0];
            let new_head = Pos { x: head.x + dx, y: head.y + dy };
            self.segments.push_front(new_head);
            if growing {
                self.growing = false;
            } else {
                self.segments.pop_back();
                assert(self.segments@ =~= seq![new_head] + old(self).segments@.drop_last());
            }
        }
    }
}

/// Whether a move of `(dx, dy)` keeps the head of `segments` within `i32`.
fn fits(segments: &VecDeque<Pos>, dx: i32, dy: i32) -> (r: bool)
    ensures
        r == can_move(segments@, dx, dy),
{
    if segments.len() == 0 {
        return true;
    }
    let head = segments[0];
    let x = head.x as i64 + dx as i64;
    let y = head.y as i64 + dy as i64;
    i32::MIN as i64 <= x && x <= i32::MAX as i64 && i32::MIN as i64 <= y && y <= i32::MAX as i64
}

/// Whether `id` is among `ids`.
fn contains_id(ids: &Vec<u128>, id: u128) -> (r: bool)
    ensures
        r == ids@.contains(id),
{
    let mut i: usize = 0;
    while i < ids.len()
        invariant
            i <= ids@.len(),
            forall|j: int| 0 <= j < i ==> ids@[j] != id,
        decreases ids@.len() - i,
    {
        if ids[i] == id {
            return true;
        }
        i = i + 1;
    }
    false
}

/// The snakes other than one's own, keyed by client id.
pub open spec fn others_view(m: Map<u128, Snake>) -> Map<u128, (Seq<Pos>, bool)> {
    m.map_values(|s: Snake| s@)
}

/// Adds each announced body, in order, except one's own.
pub open spec fn add_joins(
    me: Option<u128>,
    others: Map<u128, (Seq<Pos>, bool)>,
    joins: Seq<(u128, Seq<Pos>)>,
) -> Map<u128, (Seq<Pos>, bool)>
    decreases joins.len(),
{
    if joins.len() == 0 {
        others
    } else {
        let prev = add_joins(me, others, joins.drop_last());
        let e = joins.last();
        if me != Some(e.0) {
            prev.insert(e.0, (e.1, false))
        } else {
            prev
        }
    }
}

/// One's own body as the join snapshot gives it: the last entry under one's
/// id, if any.
pub open spec fn own_join(me: u128, joins: Seq<(u128, Seq<Pos>)>) -> Option<(Seq<Pos>, bool)>
    decreases joins.len(),
{
    if joins.len() == 0 {
        None
    } else if joins.last().0 == me {
        Some((joins.last().1, false))
    } else {
        own_join(me, joins.drop_last())
    }
}

/// One move of a tick applied to one's own snake or to another: a snake that
/// is not there, or whose head would leave the range of `i32`, stays.
pub open spec fn apply_one(
    me: Option<u128>,
    mine: Option<(Seq<Pos>, bool)>,
    others: Map<u128, (Seq<Pos>, bool)>,
    id: u128,
    d: (i32, i32),
    growing: bool,
) -> (Option<(Seq<Pos>, bool)>, Map<u128, (Seq<Pos>, bool)>) {
    if me == Some(id) {
        match mine {
            Some(s) => if can_move(s.0, d.0, d.1) {
                (Some(moved(s, d.0, d.1, growing)), others)
            } else {
                (mine, others)
            },
            None => (mine, others),
        }
    } else if others.contains_key(id) && can_move(others[id].0, d.0, d.1) {
        (mine, others.insert(id, moved(others[id], d.0, d.1, growing)))
    } else {
        (mine, others)
    }
}

/// The moves of a tick applied in order; a snake grows when its id is among
/// the eaters.
pub open spec fn apply_moves(
    me: Option<u128>,
    mine: Option<(Seq<Pos>, bool)>,
    others: Map<u128, (Seq<Pos>, bool)>,
    moves: Seq<(u128, (i32, i32))>,
    eaters: Seq<u128>,
) -> (Option<(Seq<Pos>, bool)>, Map<u128, (Seq<Pos>, bool)>)
    decreases moves.len(),
{
    if moves.len() == 0 {
        (mine, others)
    } else {
        let prev = apply_moves(me, mine, others, moves.drop_last(), eaters);
        let m = moves.last();
        apply_one(me, prev.0, prev.1, m.0, m.1, eaters.contains(m.0))
    }
}

/// What a client knows of its room.
pub struct RoomState {
    pub my_id: Option<u128>,
    pub my_snake: Option<Snake>,
    pub other_snakes: HashMap<u128, Snake>,
    pub alive: bool,
    pub food: Option<Pos>,
    pub ghosts: Vec<u128>,
    pub tick_duration_ms: Option<u32>,
}

impl RoomState {
    pub open spec fn mine(&self) -> Option<(Seq<Pos>, bool)> {
        match self.my_snake {
            Some(s) => Some(s@),
            None => None,
        }
    }

    pub open spec fn others(&self) -> Map<u128, (Seq<Pos>, bool)> {
        others_view(self.other_snakes@)
    }

    /// A client that has not joined yet.
    pub fn new() -> (r: RoomState)
        ensures
            r.my_id.is_none(),
            r.my_snake.is_none(),
            r.others() == Map::<u128, (Seq<Pos>, bool)>::empty(),
            r.alive,
            r.food.is_none(),
            r.ghosts@.len() == 0,
            r.tick_duration_ms.is_none(),
    {
        let r = RoomState {
            my_id: None,
            my_snake: None,
            other_snakes: HashMap::new(),
            alive: true,
            food: None,
            ghosts: Vec::new(),
            tick_duration_ms: None,
        };
        assert(r.others() =~= Map::<u128, (Seq<Pos>, bool)>::empty());
        r
    }

    /// Takes in the join snapshot: one's own body and everyone else's.
    fn take_snapshot(&mut self, my_id: u128, snakes: &Vec<(u128, VecDeque<Pos>)>)
        requires
            old(self).my_snake.is_none(),
            old(self).others() == Map::<u128, (Seq<Pos>, bool)>::empty(),
        ensures
            final(self).mine() == own_join(my_id, bodies_view(snakes@)),
            final(self).others() == add_joins(
                Some(my_id),
                Map::<u128, (Seq<Pos>, bool)>::empty(),
                bodies_view(snakes@),
            ),
            final(self).my_id == old(self).my_id,
            final(self).alive == old(self).alive,
            final(self).food == old(self).food,
            final(self).ghosts == old(self).ghosts,
            final(self).tick_duration_ms == old(self).tick_duration_ms,
    {
        let ghost joins = bodies_view(snakes@);
        let n = snakes.len();
        let mut i: usize = 0;
        proof {
            assert(joins.take(0) =~= Seq::<(u128, Seq<Pos>)>::empty());
        }
        while i < n
            invariant
                n == snakes@.len(),
                joins == bodies_view(snakes@),
                i <= n,
                self.mine() == own_join(my_id, joins.take(i as int)),
                self.others() == add_joins(
                    Some(my_id),
                    Map::<u128, (Seq<Pos>, bool)>::empty(),
                    joins.take(i as int),
                ),
                self.my_id == old(self).my_id,
                self.alive == old(self).alive,
                self.food == old(self).food,
                self.ghosts == old(self).ghosts,
                self.tick_duration_ms == old(self).tick_duration_ms,
            decreases n - i,
        {
            let id = snakes[i].0;
            let body = copy_body(&snakes[i].1);
            proof {
                assert(joins.take(i + 1).drop_last() =~= joins.take(i as int));
                assert(joins.take(i + 1).last() == (id, body@));
            }
            if id == my_id {
                self.my_snake = Some(Snake::new(body));
            } else {
                let ghost before = self.other_snakes@;
                self.other_snakes.insert(id, Snake::new(body));
                proof {
                    assert(self.others() =~= others_view(before).insert(id, (body@, false)));
                }
            }
            i = i + 1;
        }
        proof {
            assert(joins.take(n as int) =~= joins);
        }
    }

    /// Adds each announced body, in order, except one's own.
    fn add_new_snakes(&mut self, new_snakes: &Vec<(u128, VecDeque<Pos>)>)
        ensures
            final(self).others() == add_joins(
                old(self).my_id,
                old(self).others(),
                bodies_view(new_snakes@),
            ),
            final(self).my_snake == old(self).my_snake,
            final(self).my_id == old(self).my_id,
            final(self).alive == old(self).alive,
            final(self).food == old(self).food,
            final(self).ghosts == old(self).ghosts,
            final(self).tick_duration_ms == old(self).tick_duration_ms,
    {
        let ghost joins = bodies_view(new_snakes@);
        let n = new_snakes.len();
        let mut i: usize = 0;
        proof {
            assert(joins.take(0) =~= Seq::<(u128, Seq<Pos>)>::empty());
        }
        while i < n
            invariant
                n == new_snakes@.len(),
                joins == bodies_view(new_snakes@),
                i <= n,
                self.others() == add_joins(old(self).my_id, old(self).others(), joins.take(i as int)),
                self.my_snake == old(self).my_snake,
                self.my_id == old(self).my_id,
                self.alive == old(self).alive,
                self.food == old(self).food,
                self.ghosts == old(self).ghosts,
                self.tick_duration_ms == old(self).tick_duration_ms,
            decreases n - i,
        {
            let id = new_snakes[i].0;
            proof {
                assert(joins.take(i + 1).drop_last() =~= joins.take(i as int));
                assert(joins.take(i + 1).last() == (id, new_snakes@[i as int].1@));
            }
            if Some(id) != self.my_id {
                let body = copy_body(&new_snakes[i].1);
                let ghost before = self.other_snakes@;
                self.other_snakes.insert(id, Snake::new(body));
                proof {
                    assert(self.others() =~= others_view(before).insert(id, (body@, false)));
                }
            }
            i = i + 1;
        }
        proof {
            assert(joins.take(n as int) =~= joins);
        }
    }

    /// Drops every snake that died; one's own death clears `alive`.
    fn apply_deaths(&mut self, deaths: &Vec<u128>)
        ensures
            final(self).others() == old(self).others().remove_keys(deaths@.to_set()),
            final(self).alive == (old(self).alive && match old(self).my_id {
                Some(me) => !deaths@.contains(me),
                None => true,
            }),
            final(self).my_snake == old(self).my_snake,
            final(self).my_id == old(self).my_id,
            final(self).food == old(self).food,
            final(self).ghosts == old(self).ghosts,
            final(self).tick_duration_ms == old(self).tick_duration_ms,
    {
        let ghost base = self.others();
        let n = deaths.len();
        let mut i: usize = 0;
        while i < n
            invariant
                n == deaths@.len(),
                i <= n,
                base == old(self).others(),
                forall|k: u128|
                    #[trigger] self.others().contains_key(k) <==> base.contains_key(k)
                        && !deaths@.take(i as int).contains(k),
                forall|k: u128| #[trigger]
                    self.others().contains_key(k) ==> self.others()[k] == base[k],
                self.alive == (old(self).alive && match old(self).my_id {
                    Some(me) => !deaths@.take(i as int).contains(me),
                    None => true,
                }),
                self.my_snake == old(self).my_snake,
                self.my_id == old(self).my_id,
                self.food == old(self).food,
                self.ghosts == old(self).ghosts,
                self.tick_duration_ms == old(self).tick_duration_ms,
            decreases n - i,
        {
            let id = deaths[i];
            let ghost cur = self.others();
            proof {
                assert forall|k: u128| deaths@.take(i + 1).contains(k) <==> deaths@.take(i as int).contains(k)
                    || k == id by {
                    if deaths@.take(i + 1).contains(k) {
                        let j = choose|j: int| 0 <= j < i + 1 && #[trigger] deaths@.take(i + 1)[j] == k;
                        if j < i {
                            assert(deaths@.take(i as int)[j] == k);
                        }
                    }
                    if deaths@.take(i as int).contains(k) {
                        let j = choose|j: int| 0 <= j < i && #[trigger] deaths@.take(i as int)[j] == k;
                        assert(deaths@.take(i + 1)[j] == k);
                    }
                    if k == id {
                        assert(deaths@.take(i + 1)[i as int] == k);
                    }
                }
            }
            if Some(id) == self.my_id {
                self.alive = false;
            }
            let ghost before = self.other_snakes@;
            self.other_snakes.remove(&id);
            proof {
                assert(cur == others_view(before));
                assert(self.others() =~= cur.remove(id));
                assert forall|k: u128| #[trigger] self.others().contains_key(k) <==> base.contains_key(k)
                    && !deaths@.take(i + 1).contains(k) by {
                    assert(cur.contains_key(k) <==> base.contains_key(k)
                        && !deaths@.take(i as int).contains(k));
                }
                assert forall|k: u128| #[trigger] self.others().contains_key(k) implies self.others()[k] == base[k] by {
                    assert(cur.contains_key(k));
                }
            }
            i = i + 1;
        }
        proof {
            assert(deaths@.take(n as int) =~= deaths@);
            assert(self.others() =~= base.remove_keys(deaths@.to_set()));
        }
    }

    /// Applies the moves of a tick in order.
    fn apply_tick_moves(&mut self, moves: &Vec<(u128, (i32, i32))>, eaters: &Vec<u128>)
        ensures
            (final(self).mine(), final(self).others()) == apply_moves(
                old(self).my_id,
                old(self).mine(),
                old(self).others(),
                moves@,
                eaters@,
            ),
            final(self).my_id == old(self).my_id,
            final(self).alive == old(self).alive,
            final(self).food == old(self).food,
            final(self).ghosts == old(self).ghosts,
            final(self).tick_duration_ms == old(self).tick_duration_ms,
    {
        let n = moves.len();
        let mut i: usize = 0;
        proof {
            assert(moves@.take(0) =~= Seq::<(u128, (i32, i32))>::empty());
        }
        while i < n
            invariant
                n == moves@.len(),
                i <= n,
                (self.mine(), self.others()) == apply_moves(
                    old(self).my_id,
                    old(self).mine(),
                    old(self).others(),
                    moves@.take(i as int),
                    eaters@,
                ),
                self.my_id == old(self).my_id,
                self.alive == old(self).alive,
                self.food == old(self).food,
                self.ghosts == old(self).ghosts,
                self.tick_duration_ms == old(self).tick_duration_ms,
            decreases n - i,
        {
            let id = moves[i].0;
            let dx = moves[i].1.0;
            let dy = moves[i].1.1;
            let growing = contains_id(eaters, id);
            proof {
                assert(moves@.take(i + 1).drop_last() =~= moves@.take(i as int));
                assert(moves@.take(i + 1).last() == moves@[i as int]);
            }
            if Some(id) == self.my_id {
                match self.my_snake.take() {
                    Some(mut s) => {
                        if fits(&s.segments, dx, dy) {
                            s.apply_move(dx, dy, growing);
                        }
                        self.my_snake = Some(s);
                    },
                    None => {},
                }
            } else {
                let ghost before = self.other_snakes@;
                match self.other_snakes.remove(&id) {
                    Some(mut s) => {
                        proof {
                            assert(before.contains_key(id) && before[id] == s);
                        }
                        if fits(&s.segments, dx, dy) {
                            s.apply_move(dx, dy, growing);
                        }
                        self.other_snakes.insert(id, s);
                        proof {
                            assert(self.others() =~= others_view(before).insert(id, s@));
                            if !can_move(before[id].segments@, dx, dy) {
                                assert(others_view(before).insert(id, s@) =~= others_view(before));
                            }
                        }
                    },
                    None => {
                        proof {
                            assert(!others_view(before).contains_key(id));
                            assert(self.others() =~= others_view(before));
                        }
                    },
                }
            }
            i = i + 1;
        }
        proof {
            assert(moves@.take(n as int) =~= moves@);
        }
    }

    /// Takes in a message from the room: the join snapshot, or a tick's
    /// update (new snakes added, the dead dropped, then the moves applied, in
    /// that order). A move that would take a head past the range of `i32` is
    /// not applied. A move intent is no message for a client and changes
    /// nothing.
    pub fn process_message(&mut self, msg: SnakeMessage)
        requires
            match msg {
                SnakeMessage::OnJoin { .. } => old(self).my_snake.is_none() && old(self).others()
                    == Map::<u128, (Seq<Pos>, bool)>::empty(),
                _ => true,
            },
        ensures
            match msg {
                SnakeMessage::OnJoin { my_id, snakes, tick_duration_ms } => {
                    &&& final(self).my_id == Some(my_id)
                    &&& final(self).alive
                    &&& final(self).tick_duration_ms == Some(tick_duration_ms)
                    &&& final(self).mine() == own_join(my_id, bodies_view(snakes@))
                    &&& final(self).others() == add_joins(
                        Some(my_id),
                        Map::<u128, (Seq<Pos>, bool)>::empty(),
                        bodies_view(snakes@),
                    )
                    &&& final(self).food == old(self).food
                    &&& final(self).ghosts == old(self).ghosts
                },
                SnakeMessage::TickUpdate(u) => {
                    let joined = add_joins(
                        old(self).my_id,
                        old(self).others(),
                        bodies_view(u.new_snakes@),
                    );
                    let survivors = joined.remove_keys(u.deaths@.to_set());
                    &&& final(self).food == Some(u.food)
                    &&& (final(self).mine(), final(self).others()) == apply_moves(
                        old(self).my_id,
                        old(self).mine(),
                        survivors,
                        u.moves@,
                        u.eaters@,
                    )
                    &&& final(self).alive == (old(self).alive && match old(self).my_id {
                        Some(me) => !u.deaths@.contains(me),
                        None => true,
                    })
                    &&& final(self).ghosts@ == u.ghosts@
                    &&& final(self).my_id == old(self).my_id
                    &&& final(self).tick_duration_ms == old(self).tick_duration_ms
                },
                SnakeMessage::MoveIntent { .. } => {
                    &&& final(self).mine() == old(self).mine()
                    &&& final(self).others() == old(self).others()
                    &&& final(self).my_id == old(self).my_id
                    &&& final(self).alive == old(self).alive
                    &&& final(self).food == old(self).food
                    &&& final(self).ghosts == old(self).ghosts
                    &&& final(self).tick_duration_ms == old(self).tick_duration_ms
                },
            },
    {
        match msg {
            SnakeMessage::OnJoin { my_id, snakes, tick_duration_ms } => {
                self.my_id = Some(my_id);
                self.alive = true;
                self.tick_duration_ms = Some(tick_duration_ms);
                self.take_snapshot(my_id, &snakes);
            },
            SnakeMessage::TickUpdate(u) => {
                self.food = Some(u.food);
                self.add_new_snakes(&u.new_snakes);
                self.apply_deaths(&u.deaths);
                self.apply_tick_moves(&u.moves, &u.eaters);
                self.ghosts = u.ghosts;
            },
            SnakeMessage::MoveIntent { .. } => {},
        }
    }
}

} // verus!
