use vstd::prelude::*;

use crate::grid::{on_board, Pos};

verus! {

/// One player of a room: its body (head first), the direction it last
/// moved in, the direction it will move in next, and how many ticks of
/// ghost grace it has left.
pub struct Client {
    pub id: u128,
    pub snake: std::collections::VecDeque<Pos>,
    pub dx: i32,
    pub dy: i32,
    pub next_dx: i32,
    pub next_dy: i32,
    pub ghost_ticks: u32,
}

/// What a client is, as a mathematical value.
pub ghost struct ClientView {
    pub id: u128,
    pub body: Seq<Pos>,
    pub dx: i32,
    pub dy: i32,
    pub next_dx: i32,
    pub next_dy: i32,
    pub ghost_ticks: nat,
}

impl View for Client {
    type V = ClientView;

    open spec fn view(&self) -> ClientView {
        ClientView {
            id: self.id,
            body: self.snake@,
            dx: self.dx,
            dy: self.dy,
            next_dx: self.next_dx,
            next_dy: self.next_dy,
            ghost_ticks: self.ghost_ticks as nat,
        }
    }
}

impl ClientView {
    pub open spec fn is_ghost(self) -> bool {
        self.ghost_ticks > 0
    }

    pub open spec fn head(self) -> Pos {
        self.body[0]
    }

    /// The column the head moves to on the next tick.
    pub open spec fn target_x(self) -> int {
        self.head().x + self.next_dx
    }

    /// The row the head moves to on the next tick.
    pub open spec fn target_y(self) -> int {
        self.head().y + self.next_dy
    }

    pub open spec fn hits_wall(self, width: int, height: int) -> bool {
        !(0 <= self.target_x() < width && 0 <= self.target_y() < height)
    }

    pub open spec fn new_head(self) -> Pos {
        Pos { x: self.target_x() as i32, y: self.target_y() as i32 }
    }

    /// The ghost countdown after this tick's decrement.
    pub open spec fn countdown(self) -> nat {
        if self.ghost_ticks > 0 {
            (self.ghost_ticks - 1) as nat
        } else {
            0
        }
    }

    /// Whether the head lands on `food` this tick while the client is solid.
    pub open spec fn eats(self, food: Pos, width: int, height: int) -> bool {
        !self.hits_wall(width, height) && self.new_head() == food && self.countdown() == 0
    }

    /// Whether `(dx, dy)` points exactly against the last applied move.
    pub open spec fn reverses(self, dx: int, dy: int) -> bool {
        dx == -self.dx && dy == -self.dy
    }

    /// The client after its own part of a tick: the countdown goes down, and
    /// unless the head would leave the board the body moves one cell, keeping
    /// its tail when it eats.
    pub open spec fn stepped(self, food: Pos, width: int, height: int) -> ClientView {
        if self.hits_wall(width, height) {
            ClientView { ghost_ticks: self.countdown(), ..self }
        } else {
            ClientView {
                body: if self.eats(food, width, height) {
                    seq![self.new_head()] + self.body
                } else {
                    seq![self.new_head()] + self.body.drop_last()
                },
                dx: self.next_dx,
                dy: self.next_dy,
                ghost_ticks: self.countdown(),
                ..self
            }
        }
    }
}

/// How many segments of `body` lie on `p`.
pub open spec fn occurrences(body: Seq<Pos>, p: Pos) -> nat
    decreases body.len(),
{
    if body.len() == 0 {
        0
    } else {
        occurrences(body.drop_last(), p) + if body.last() == p {
            1nat
        } else {
            0nat
        }
    }
}

/// How many of `p`'s counters a client holds: none while it is a ghost.
pub open spec fn contribution(c: ClientView, p: Pos) -> nat {
    if c.ghost_ticks == 0 {
        occurrences(c.body, p)
    } else {
        0
    }
}

/// The number of segments of non-ghost clients that lie on `p`.
pub open spec fn solid_count(cs: Seq<ClientView>, p: Pos) -> nat
    decreases cs.len(),
{
    if cs.len() == 0 {
        0
    } else {
        solid_count(cs.drop_last(), p) + contribution(cs.last(), p)
    }
}

/// The number of segments of all clients together.
pub open spec fn segment_total(cs: Seq<ClientView>) -> nat
    decreases cs.len(),
{
    if cs.len() == 0 {
        0
    } else {
        segment_total(cs.drop_last()) + cs.last().body.len()
    }
}

/// Every segment of every client lies on the board.
pub open spec fn bodies_on_board(cs: Seq<ClientView>, width: int, height: int) -> bool {
    forall|i: int, k: int|
        0 <= i < cs.len() && 0 <= k < cs[i].body.len() ==> on_board(
            #[trigger] cs[i].body[k],
            width,
            height,
        )
}

/// Every client has a head.
pub open spec fn bodies_nonempty(cs: Seq<ClientView>) -> bool {
    forall|i: int| 0 <= i < cs.len() ==> #[trigger] cs[i].body.len() >= 1
}

/// No two clients share an id.
pub open spec fn ids_unique(cs: Seq<ClientView>) -> bool {
    forall|i: int, j: int| 0 <= i < cs.len() && 0 <= j < cs.len() && i != j ==> cs[i].id != cs[j].id
}

/// The elements of `s` at the indices that `keep` selects, in order.
pub open spec fn pick<A>(s: Seq<A>, keep: spec_fn(int) -> bool) -> Seq<A>
    decreases s.len(),
{
    if s.len() == 0 {
        Seq::empty()
    } else {
        let n = s.len() - 1;
        pick(s.drop_last(), keep) + if keep(n) {
            seq![s[n]]
        } else {
            Seq::empty()
        }
    }
}

pub proof fn lemma_occurrences_concat(a: Seq<Pos>, b: Seq<Pos>, p: Pos)
    ensures
        occurrences(a + b, p) == occurrences(a, p) + occurrences(b, p),
    decreases b.len(),
{
    if b.len() == 0 {
        assert(a + b =~= a);
    } else {
        assert((a + b).drop_last() =~= a + b.drop_last());
        lemma_occurrences_concat(a, b.drop_last(), p);
    }
}

/// A head pushed on the front counts once at its own cell.
pub proof fn lemma_occurrences_cons(h: Pos, rest: Seq<Pos>, p: Pos)
    ensures
        occurrences(seq![h] + rest, p) == occurrences(rest, p) + if h == p {
            1nat
        } else {
            0nat
        },
{
    lemma_occurrences_concat(seq![h], rest, p);
    assert(seq![h].drop_last() =~= Seq::<Pos>::empty());
    assert(occurrences(Seq::<Pos>::empty(), p) == 0);
}

pub proof fn lemma_occurrences_le_len(body: Seq<Pos>, p: Pos)
    ensures
        occurrences(body, p) <= body.len(),
    decreases body.len(),
{
    if body.len() > 0 {
        lemma_occurrences_le_len(body.drop_last(), p);
    }
}

/// A segment of a body counts at its own cell.
pub proof fn lemma_occurrences_member(body: Seq<Pos>, k: int)
    requires
        0 <= k < body.len(),
    ensures
        occurrences(body, body[k]) >= 1,
    decreases body.len(),
{
    if k < body.len() - 1 {
        lemma_occurrences_member(body.drop_last(), k);
    }
}

pub proof fn lemma_solid_count_concat(a: Seq<ClientView>, b: Seq<ClientView>, p: Pos)
    ensures
        solid_count(a + b, p) == solid_count(a, p) + solid_count(b, p),
    decreases b.len(),
{
    if b.len() == 0 {
        assert(a + b =~= a);
    } else {
        assert((a + b).drop_last() =~= a + b.drop_last());
        lemma_solid_count_concat(a, b.drop_last(), p);
    }
}

pub proof fn lemma_solid_count_le_total(cs: Seq<ClientView>, p: Pos)
    ensures
        solid_count(cs, p) <= segment_total(cs),
    decreases cs.len(),
{
    if cs.len() > 0 {
        lemma_solid_count_le_total(cs.drop_last(), p);
        lemma_occurrences_le_len(cs.last().body, p);
    }
}

/// The count depends on the bodies and ghost countdowns alone.
pub proof fn lemma_solid_count_same(a: Seq<ClientView>, b: Seq<ClientView>, p: Pos)
    requires
        a.len() == b.len(),
        forall|k: int| 0 <= k < a.len() ==> #[trigger] a[k].body == b[k].body && a[k].ghost_ticks == b[k].ghost_ticks,
    ensures
        solid_count(a, p) == solid_count(b, p),
    decreases a.len(),
{
    if a.len() > 0 {
        let n = a.len() - 1;
        assert(a[n].body == b[n].body && a[n].ghost_ticks == b[n].ghost_ticks);
        assert forall|k: int| 0 <= k < n implies #[trigger] a.drop_last()[k].body == b.drop_last()[k].body
            && a.drop_last()[k].ghost_ticks == b.drop_last()[k].ghost_ticks by {
            assert(a[k].body == b[k].body && a[k].ghost_ticks == b[k].ghost_ticks);
        }
        lemma_solid_count_same(a.drop_last(), b.drop_last(), p);
    }
}

/// The count of a sequence splits around any one client.
pub proof fn lemma_solid_count_split(cs: Seq<ClientView>, i: int, p: Pos)
    requires
        0 <= i < cs.len(),
    ensures
        solid_count(cs, p) == solid_count(cs.take(i), p) + contribution(cs[i], p) + solid_count(
            cs.skip(i + 1),
            p,
        ),
{
    assert(cs =~= cs.take(i) + seq![cs[i]] + cs.skip(i + 1));
    lemma_solid_count_concat(cs.take(i) + seq![cs[i]], cs.skip(i + 1), p);
    lemma_solid_count_concat(cs.take(i), seq![cs[i]], p);
    let one = seq![cs[i]];
    assert(one.drop_last() =~= Seq::<ClientView>::empty());
    assert(solid_count(one.drop_last(), p) == 0);
    assert(solid_count(one, p) == contribution(cs[i], p));
}

/// Two distinct clients both count at a cell they both cover.
pub proof fn lemma_solid_count_two(cs: Seq<ClientView>, i: int, j: int, p: Pos)
    requires
        0 <= i < j < cs.len(),
    ensures
        solid_count(cs, p) >= contribution(cs[i], p) + contribution(cs[j], p),
{
    lemma_solid_count_split(cs, j, p);
    lemma_solid_count_split(cs.take(j), i, p);
    assert(cs.take(j)[i] == cs[i]);
}

/// One client counts at least its own share.
pub proof fn lemma_solid_count_one(cs: Seq<ClientView>, i: int, p: Pos)
    requires
        0 <= i < cs.len(),
    ensures
        solid_count(cs, p) >= contribution(cs[i], p),
{
    lemma_solid_count_split(cs, i, p);
}

/// Bodies that grow by at most one segment each grow the total by at most
/// the number of clients.
pub proof fn lemma_segment_total_grows(a: Seq<ClientView>, b: Seq<ClientView>)
    requires
        a.len() == b.len(),
        forall|k: int| 0 <= k < a.len() ==> #[trigger] b[k].body.len() <= a[k].body.len() + 1,
    ensures
        segment_total(b) <= segment_total(a) + a.len(),
    decreases a.len(),
{
    if a.len() > 0 {
        let n = a.len() - 1;
        assert(b[n].body.len() <= a[n].body.len() + 1);
        assert forall|k: int| 0 <= k < n implies #[trigger] b.drop_last()[k].body.len() <= a.drop_last()[k].body.len() + 1 by {
            assert(b[k].body.len() <= a[k].body.len() + 1);
        }
        lemma_segment_total_grows(a.drop_last(), b.drop_last());
    }
}

/// Picking from clients with distinct ids keeps the ids distinct.
pub proof fn lemma_pick_ids_unique(s: Seq<ClientView>, keep: spec_fn(int) -> bool)
    requires
        ids_unique(s),
    ensures
        ids_unique(pick(s, keep)),
    decreases s.len(),
{
    if s.len() > 0 {
        let n = s.len() - 1;
        let d = s.drop_last();
        assert(ids_unique(d)) by {
            assert forall|i: int, j: int| 0 <= i < d.len() && 0 <= j < d.len() && i != j implies d[i].id != d[j].id by {
                assert(d[i] == s[i] && d[j] == s[j]);
            }
        }
        lemma_pick_ids_unique(d, keep);
        let q = pick(d, keep);
        let r = pick(s, keep);
        if keep(n) {
            assert forall|i: int, j: int| 0 <= i < r.len() && 0 <= j < r.len() && i != j implies r[i].id != r[j].id by {
                if i < q.len() && j < q.len() {
                    assert(r[i] == q[i] && r[j] == q[j]);
                } else if i < q.len() {
                    assert(r[i] == q[i]);
                    assert(q.contains(q[i]));
                    lemma_pick_source(d, keep, q[i]);
                    assert(r[j] == s[n]);
                } else {
                    assert(r[j] == q[j]);
                    assert(q.contains(q[j]));
                    lemma_pick_source(d, keep, q[j]);
                    assert(r[i] == s[n]);
                }
            }
        } else {
            assert(r =~= q);
        }
    }
}

/// Seen one element further, `pick` takes that element or leaves it.
pub proof fn lemma_pick_take<A>(s: Seq<A>, keep: spec_fn(int) -> bool, i: int)
    requires
        0 <= i < s.len(),
    ensures
        pick(s.take(i + 1), keep) == pick(s.take(i), keep) + if keep(i) {
            seq![s[i]]
        } else {
            Seq::empty()
        },
{
    assert(s.take(i + 1).drop_last() =~= s.take(i));
}

/// An element is picked exactly when its index is kept.
pub proof fn lemma_pick_contains<A>(s: Seq<A>, keep: spec_fn(int) -> bool, i: int)
    requires
        0 <= i < s.len(),
        keep(i),
    ensures
        pick(s, keep).contains(s[i]),
    decreases s.len(),
{
    if i < s.len() - 1 {
        lemma_pick_contains(s.drop_last(), keep, i);
        let q = pick(s.drop_last(), keep);
        let j = choose|j: int| 0 <= j < q.len() && q[j] == s[i];
        assert(pick(s, keep)[j] == s[i]);
    } else {
        let q = pick(s.drop_last(), keep);
        assert(pick(s, keep)[q.len() as int] == s[i]);
    }
}

/// Every picked element stands at a kept index.
pub proof fn lemma_pick_source<A>(s: Seq<A>, keep: spec_fn(int) -> bool, x: A)
    requires
        pick(s, keep).contains(x),
    ensures
        exists|i: int| 0 <= i < s.len() && keep(i) && s[i] == x,
    decreases s.len(),
{
    if s.len() > 0 {
        let q = pick(s.drop_last(), keep);
        let j = choose|j: int| 0 <= j < pick(s, keep).len() && pick(s, keep)[j] == x;
        if j < q.len() {
            assert(q[j] == x);
            lemma_pick_source(s.drop_last(), keep, x);
            let i = choose|i: int| 0 <= i < s.drop_last().len() && keep(i) && s.drop_last()[i] == x;
            assert(s[i] == x);
        } else {
            assert(s[s.len() - 1] == x);
        }
    }
}

} // verus!
