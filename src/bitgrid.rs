use vstd::prelude::*;

use std::collections::VecDeque;

use bitvec::vec::BitVec;

use crate::grid::{lemma_index_in_range, on_board, Pos};

verus! {

/// A row of bits, kept in a bitvec `BitVec`.
#[verifier::external_body]
pub struct Bits {
    inner: BitVec,
}

/// The bits held, in order.
pub uninterp spec fn bits_of(v: Bits) -> Seq<bool>;

/// Relies on bitvec's `BitVec::repeat`: `len` bits, all equal to the one given.
#[verifier::external_body]
fn zeroed_bits(len: usize) -> (r: Bits)
    ensures
        bits_of(r) == Seq::new(len as nat, |i: int| false),
{
    Bits { inner: BitVec::repeat(false, len) }
}

/// Relies on bitvec's `Index<usize>` for bit-slices: the bit at `i`, which
/// must be in range.
#[verifier::external_body]
fn bit_at(v: &Bits, i: usize) -> (r: bool)
    requires
        i < bits_of(*v).len(),
    ensures
        r == bits_of(*v)[i as int],
{
    v.inner[i]
}

/// Relies on bitvec's `BitSlice::set`: writes the bit at `i`, which must be
/// in range, and no other.
#[verifier::external_body]
fn set_bit(v: &mut Bits, i: usize, b: bool)
    requires
        i < bits_of(*old(v)).len(),
    ensures
        bits_of(*final(v)) == bits_of(*old(v)).update(i as int, b),
{
    v.inner.set(i, b)
}

/// Width of the wrap-around board.
pub const GRID_W: i32 = 20;

/// Height of the wrap-around board.
pub const GRID_H: i32 = 20;

/// The flat index of a cell of the wrap-around board.
pub open spec fn cell(p: Pos) -> int {
    p.y * GRID_W + p.x
}

/// `bits` with every cell of `body` cleared.
pub open spec fn cleared(bits: Seq<bool>, body: Seq<Pos>) -> Seq<bool> {
    Seq::new(
        bits.len(),
        |i: int| bits[i] && forall|k: int| 0 <= k < body.len() ==> cell(#[trigger] body[k]) != i,
    )
}

/// `bits` with every cell of `body` set.
pub open spec fn marked(bits: Seq<bool>, body: Seq<Pos>) -> Seq<bool> {
    Seq::new(
        bits.len(),
        |i: int| bits[i] || exists|k: int| 0 <= k < body.len() && cell(#[trigger] body[k]) == i,
    )
}

/// `v` moved by `d` on a ring of `n` cells.
pub open spec fn wrap(v: int, d: int, n: int) -> int {
    (v + d + n) % n
}

/// What a move did on the wrap-around board.
#[derive(Clone, Copy, Debug, PartialEq, Eq, Structural)]
pub enum MoveResult {
    Moved,
    Collision,
    Ate,
}

/// A player of the wrap-around board: its body, head first.
pub struct Client {
    pub id: u128,
    pub snake: VecDeque<Pos>,
}

/// A single room on a wrap-around board whose cells each hold one bit:
/// set where a move marked it, clear where a move or a departure cleared it.
pub struct GameState {
    pub clients: Vec<Client>,
    pub occupied: Bits,
    pub food: Pos,
}

impl GameState {
    pub open spec fn clients_view(&self) -> Seq<(u128, Seq<Pos>)> {
        self.clients@.map_values(|c: Client| (c.id, c.snake@))
    }

    pub open spec fn bits(&self) -> Seq<bool> {
        bits_of(self.occupied)
    }

    /// One bit per cell; distinct ids; every body non-empty and on the board.
    pub open spec fn wf(&self) -> bool {
        &&& self.bits().len() == GRID_W * GRID_H
        &&& forall|i: int, j: int|
            0 <= i < self.clients_view().len() && 0 <= j < self.clients_view().len() && i != j
                ==> self.clients_view()[i].0 != self.clients_view()[j].0
        &&& forall|i: int|
            0 <= i < self.clients_view().len() ==> #[trigger] self.clients_view()[i].1.len() >= 1
        &&& forall|i: int, k: int|
            0 <= i < self.clients_view().len() && 0 <= k < self.clients_view()[i].1.len()
                ==> on_board(#[trigger] self.clients_view()[i].1[k], GRID_W as int, GRID_H as int)
    }

    /// Where `client_id` stands in the client list, if it is there.
    pub fn position_of(&self, client_id: u128) -> (r: Option<usize>)
        ensures
            match r {
                Some(k) => k < self.clients_view().len() && self.clients_view()[k as int].0
                    == client_id,
                None => forall|k: int|
                    0 <= k < self.clients_view().len() ==> self.clients_view()[k].0 != client_id,
            },
    {
        let mut k: usize = 0;
        while k < self.clients.len()
            invariant
                k <= self.clients@.len(),
                forall|j: int| 0 <= j < k ==> #[trigger] self.clients@[j].id != client_id,
            decreases self.clients@.len() - k,
        {
            if self.clients[k].id == client_id {
                return Some(k);
            }
            k = k + 1;
        }
        None
    }

    /// An empty board, every bit clear, the food at a random cell.
    pub fn new() -> (r: GameState)
        ensures
            r.wf(),
            r.clients_view().len() == 0,
            r.bits() == Seq::new((GRID_W * GRID_H) as nat, |i: int| false),
            on_board(r.food, GRID_W as int, GRID_H as int),
    {
        let fx = rand::random::<u16>();
        let fy = rand::random::<u16>();
        let r = GameState {
            clients: Vec::new(),
            occupied: zeroed_bits((GRID_W * GRID_H) as usize),
            food: Pos { x: (fx as i32) % GRID_W, y: (fy as i32) % GRID_H },
        };
        assert(r.clients_view() =~= Seq::<(u128, Seq<Pos>)>::empty());
        r
    }

    /// Whether the bit of cell `p` is set.
    pub fn is_occupied(&self, p: Pos) -> (r: bool)
        requires
            self.wf(),
            on_board(p, GRID_W as int, GRID_H as int),
        ensures
            r == self.bits()[cell(p)],
    {
        proof {
            lemma_index_in_range(p, GRID_W as int, GRID_H as int);
        }
        bit_at(&self.occupied, (p.y * GRID_W + p.x) as usize)
    }

    /// The spawn body: three cells in the middle row, head at the centre,
    /// trailing to the left.
    pub open spec fn spawn_body() -> Seq<Pos> {
        seq![
            Pos { x: 10i32, y: 10i32 },
            Pos { x: 9i32, y: 10i32 },
            Pos { x: 8i32, y: 10i32 },
        ]
    }

    /// Puts `client_id` at the spawn body, replacing any earlier entry of that
    /// id, sets the bits of its cells, and returns the body.
    pub fn add_client(&mut self, client_id: u128) -> (r: VecDeque<Pos>)
        requires
            old(self).wf(),
        ensures
            final(self).wf(),
            r@ == Self::spawn_body(),
            final(self).bits() == marked(old(self).bits(), Self::spawn_body()),
            forall|k: int|
                0 <= k < old(self).clients_view().len() && old(self).clients_view()[k].0 == client_id
                    ==> final(self).clients_view() == old(self).clients_view().update(
                    k,
                    (client_id, Self::spawn_body()),
                ),
            (forall|k: int|
                0 <= k < old(self).clients_view().len() ==> old(self).clients_view()[k].0
                    != client_id) ==> final(self).clients_view() == old(self).clients_view().push(
                (client_id, Self::spawn_body()),
            ),
            final(self).food == old(self).food,
    {
        let midx = GRID_W / 2;
        let midy = GRID_H / 2;
        let mut body: VecDeque<Pos> = VecDeque::new();
        body.push_back(Pos { x: midx, y: midy });
        body.push_back(Pos { x: midx - 1, y: midy });
        body.push_back(Pos { x: midx - 2, y: midy });
        assert(body@ =~= Self::spawn_body());
        self.mark_body(&body);
        let kept = crate::room::copy_body(&body);
        let ghost before = self.clients_view();
        match self.position_of(client_id) {
            Some(k) => {
                self.clients.set(k, Client { id: client_id, snake: kept });
                proof {
                    assert(self.clients_view() =~= before.update(k as int, (client_id, Self::spawn_body())));
                    assert forall|j: int| 0 <= j < before.len() && before[j].0 == client_id implies j == k by {
                        if j != k {
                            assert(before[j].0 != before[k as int].0);
                        }
                    }
                }
            },
            None => {
                self.clients.push(Client { id: client_id, snake: kept });
                proof {
                    assert(self.clients_view() =~= before.push((client_id, Self::spawn_body())));
                }
            },
        }
        let ghost cv = self.clients_view();
        assert forall|i: int, j: int| 0 <= i < cv.len() && 0 <= j < cv.len() && i != j implies cv[i].0 != cv[j].0 by {
            if i < before.len() && j < before.len() && cv[i].0 == client_id {
                assert(cv[i] == before[i] || cv[i].1 == Self::spawn_body());
            }
        }
        body
    }

    /// The head of a body moved by `(dx, dy)` on the wrap-around board.
    pub open spec fn wrapped_head(body: Seq<Pos>, dx: int, dy: int) -> Pos {
        Pos {
            x: wrap(body[0].x as int, dx, GRID_W as int) as i32,
            y: wrap(body[0].y as int, dy, GRID_H as int) as i32,
        }
    }

    /// Moves `client_id` one cell by `(dx, dy)`, wrapping at the edges. If the
    /// bit of the new head is set the snake has collided: the bits of its body
    /// are cleared and it stays where it was. If the new head is the food the
    /// snake grows into it and the food moves to a random cell. Otherwise the
    /// head's bit is set and the old tail's cleared.
    pub fn move_snake(&mut self, client_id: u128, dx: i32, dy: i32) -> (r: MoveResult)
        requires
            old(self).wf(),
            exists|k: int|
                0 <= k < old(self).clients_view().len() && old(self).clients_view()[k].0 == client_id,
            -1 <= dx <= 1,
            -1 <= dy <= 1,
        ensures
            final(self).wf(),
            forall|k: int|
                0 <= k < old(self).clients_view().len() && old(self).clients_view()[k].0 == client_id
                    ==> {
                    let b = old(self).clients_view()[k].1;
                    let nh = Self::wrapped_head(b, dx as int, dy as int);
                    let bits = old(self).bits();
                    if bits[cell(nh)] {
                        &&& r == MoveResult::Collision
                        &&& final(self).bits() == cleared(bits, b)
                        &&& final(self).clients_view() == old(self).clients_view()
                        &&& final(self).food == old(self).food
                    } else if nh == old(self).food {
                        &&& r == MoveResult::Ate
                        &&& final(self).bits() == bits.update(cell(nh), true)
                        &&& final(self).clients_view() == old(self).clients_view().update(
                            k,
                            (client_id, seq![nh] + b),
                        )
                        &&& on_board(final(self).food, GRID_W as int, GRID_H as int)
                    } else {
                        &&& r == MoveResult::Moved
                        &&& final(self).bits() == bits.update(cell(nh), true).update(
                            cell(b.last()),
                            false,
                        )
                        &&& final(self).clients_view() == old(self).clients_view().update(
                            k,
                            (client_id, seq![nh] + b.drop_last()),
                        )
                        &&& final(self).food == old(self).food
                    }
                },
    {
        let ghost before = self.clients_view();
        let k = match self.position_of(client_id) {
            Some(k) => k,
            None => {
                assert(false);
                0
            },
        };
        proof {
            assert forall|j: int| 0 <= j < before.len() && before[j].0 == client_id implies j == k by {
                if j != k {
                    assert(before[j].0 != before[k as int].0);
                }
            }
            assert(before[k as int].1.len() >= 1);
            assert(on_board(before[k as int].1[0], GRID_W as int, GRID_H as int));
            let last = before[k as int].1.len() - 1;
            assert(on_board(before[k as int].1[last], GRID_W as int, GRID_H as int));
        }
        let ghost b = before[k as int].1;
        let n = self.clients[k].snake.len();
        let head = self.clients[k].snake[0];
        let tail = self.clients[k].snake[n - 1];
        let new_head = Pos {
            x: (head.x + dx + GRID_W) % GRID_W,
            y: (head.y + dy + GRID_H) % GRID_H,
        };
        proof {
            lemma_index_in_range(new_head, GRID_W as int, GRID_H as int);
            lemma_index_in_range(tail, GRID_W as int, GRID_H as int);
        }
        let hi = (new_head.y * GRID_W + new_head.x) as usize;
        if bit_at(&self.occupied, hi) {
            let snake = crate::room::copy_body(&self.clients[k].snake);
            self.clear_body(&snake);
            return MoveResult::Collision;
        }
        if new_head == self.food {
            set_bit(&mut self.occupied, hi, true);
            self.clients[k].snake.push_front(new_head);
            let fx = rand::random::<u16>();
            let fy = rand::random::<u16>();
            self.food = Pos { x: (fx as i32) % GRID_W, y: (fy as i32) % GRID_H };
            proof {
                let cv = self.clients_view();
                assert(cv =~= before.update(k as int, (client_id, seq![new_head] + b)));
                self.lemma_wf_after_move(before, k as int, seq![new_head] + b);
            }
            return MoveResult::Ate;
        }
        set_bit(&mut self.occupied, hi, true);
        set_bit(&mut self.occupied, (tail.y * GRID_W + tail.x) as usize, false);
        self.clients[k].snake.push_front(new_head);
        self.clients[k].snake.pop_back();
        proof {
            let cv = self.clients_view();
            assert(seq![new_head] + b.drop_last() =~= (seq![new_head] + b).drop_last());
            assert(cv =~= before.update(k as int, (client_id, seq![new_head] + b.drop_last())));
            self.lemma_wf_after_move(before, k as int, seq![new_head] + b.drop_last());
        }
        MoveResult::Moved
    }

    /// Replacing one body by a non-empty body on the board keeps the state
    /// well formed.
    proof fn lemma_wf_after_move(&self, before: Seq<(u128, Seq<Pos>)>, k: int, body: Seq<Pos>)
        requires
            0 <= k < before.len(),
            self.bits().len() == GRID_W * GRID_H,
            self.clients_view() == before.update(k, (before[k].0, body)),
            body.len() >= 1,
            on_board(body[0], GRID_W as int, GRID_H as int),
            forall|j: int| 1 <= j < body.len() ==> on_board(#[trigger] body[j], GRID_W as int, GRID_H as int),
            forall|i: int, j: int|
                0 <= i < before.len() && 0 <= j < before.len() && i != j ==> before[i].0 != before[j].0,
            forall|i: int| 0 <= i < before.len() ==> #[trigger] before[i].1.len() >= 1,
            forall|i: int, j: int|
                0 <= i < before.len() && 0 <= j < before[i].1.len() ==> on_board(
                    #[trigger] before[i].1[j],
                    GRID_W as int,
                    GRID_H as int,
                ),
        ensures
            self.wf(),
    {
        let cv = self.clients_view();
        assert forall|i: int, j: int| 0 <= i < cv.len() && 0 <= j < cv[i].1.len() implies on_board(
            #[trigger] cv[i].1[j],
            GRID_W as int,
            GRID_H as int,
        ) by {
            if i != k {
                assert(cv[i] == before[i]);
            } else if j >= 1 {
                assert(on_board(body[j], GRID_W as int, GRID_H as int));
            }
        }
        assert forall|i: int| 0 <= i < cv.len() implies #[trigger] cv[i].1.len() >= 1 by {
            if i != k {
                assert(cv[i] == before[i]);
            }
        }
    }

    /// Removes `client_id` and clears the bits of its body; an unknown id
    /// changes nothing.
    pub fn remove_client(&mut self, client_id: u128)
        requires
            old(self).wf(),
        ensures
            final(self).wf(),
            forall|k: int|
                0 <= k < old(self).clients_view().len() && old(self).clients_view()[k].0 == client_id
                    ==> final(self).clients_view() == old(self).clients_view().remove(k)
                    && final(self).bits() == cleared(old(self).bits(), old(self).clients_view()[k].1),
            (forall|k: int|
                0 <= k < old(self).clients_view().len() ==> old(self).clients_view()[k].0
                    != client_id) ==> final(self).clients_view() == old(self).clients_view()
                && final(self).bits() == old(self).bits(),
            final(self).food == old(self).food,
    {
        let ghost before = self.clients_view();
        match self.position_of(client_id) {
            Some(k) => {
                let c = self.clients.remove(k);
                proof {
                    assert(self.clients_view() =~= before.remove(k as int));
                    assert forall|j: int| 0 <= j < c.snake@.len() implies on_board(
                        #[trigger] c.snake@[j],
                        GRID_W as int,
                        GRID_H as int,
                    ) by {
                        assert(c.snake@[j] == before[k as int].1[j]);
                    }
                    assert forall|j: int| 0 <= j < before.len() && before[j].0 == client_id implies j == k by {
                        if j != k {
                            assert(before[j].0 != before[k as int].0);
                        }
                    }
                }
                self.clear_body(&c.snake);
                proof {
                    let cv = self.clients_view();
                    assert forall|i: int, j: int| 0 <= i < cv.len() && 0 <= j < cv.len() && i != j
                        implies cv[i].0 != cv[j].0 by {
                        let a = if i < k { i } else { i + 1 };
                        let b = if j < k { j } else { j + 1 };
                        assert(cv[i] == before[a] && cv[j] == before[b]);
                    }
                    assert forall|i: int| 0 <= i < cv.len() implies #[trigger] cv[i].1.len() >= 1 by {
                        let a = if i < k { i } else { i + 1 };
                        assert(cv[i] == before[a]);
                    }
                    assert forall|i: int, j: int| 0 <= i < cv.len() && 0 <= j < cv[i].1.len() implies on_board(
                        #[trigger] cv[i].1[j],
                        GRID_W as int,
                        GRID_H as int,
                    ) by {
                        let a = if i < k { i } else { i + 1 };
                        assert(cv[i] == before[a]);
                    }
                }
            },
            None => {},
        }
    }

    /// Sets the bit of every cell of `body`.
    fn mark_body(&mut self, body: &VecDeque<Pos>)
        requires
            old(self).bits().len() == GRID_W * GRID_H,
            forall|k: int| 0 <= k < body@.len() ==> on_board(#[trigger] body@[k], GRID_W as int, GRID_H as int),
        ensures
            final(self).bits() == marked(old(self).bits(), body@),
            final(self).clients == old(self).clients,
            final(self).food == old(self).food,
    {
        let ghost b0 = self.bits();
        let n = body.len();
        let mut j: usize = 0;
        assert(b0 =~= marked(b0, body@.take(0)));
        while j < n
            invariant
                n == body@.len(),
                j <= n,
                b0 == old(self).bits(),
                b0.len() == GRID_W * GRID_H,
                forall|k: int| 0 <= k < body@.len() ==> on_board(#[trigger] body@[k], GRID_W as int, GRID_H as int),
                self.bits() == marked(b0, body@.take(j as int)),
                self.clients == old(self).clients,
                self.food == old(self).food,
            decreases n - j,
        {
            let p = body[j];
            proof {
                assert(on_board(body@[j as int], GRID_W as int, GRID_H as int));
                lemma_index_in_range(p, GRID_W as int, GRID_H as int);
            }
            set_bit(&mut self.occupied, (p.y * GRID_W + p.x) as usize, true);
            proof {
                let t = body@.take(j + 1);
                assert forall|i: int| 0 <= i < b0.len() implies #[trigger] self.bits()[i] == marked(b0, t)[i] by {
                    if i == cell(p) {
                        assert(t[j as int] == p);
                    } else if exists|k: int| 0 <= k < t.len() && cell(#[trigger] t[k]) == i {
                        let k = choose|k: int| 0 <= k < t.len() && cell(#[trigger] t[k]) == i;
                        assert(body@.take(j as int)[k] == t[k]);
                    } else {
                        assert forall|k: int| 0 <= k < j implies cell(#[trigger] body@.take(j as int)[k]) != i by {
                            assert(body@.take(j as int)[k] == t[k]);
                        }
                    }
                }
                assert(self.bits() =~= marked(b0, t));
            }
            j = j + 1;
        }
        assert(body@.take(n as int) =~= body@);
    }

    /// Clears the bit of every cell of `body`.
    fn clear_body(&mut self, body: &VecDeque<Pos>)
        requires
            old(self).bits().len() == GRID_W * GRID_H,
            forall|k: int| 0 <= k < body@.len() ==> on_board(#[trigger] body@[k], GRID_W as int, GRID_H as int),
        ensures
            final(self).bits() == cleared(old(self).bits(), body@),
            final(self).clients == old(self).clients,
            final(self).food == old(self).food,
    {
        let ghost b0 = self.bits();
        let n = body.len();
        let mut j: usize = 0;
        assert(b0 =~= cleared(b0, body@.take(0)));
        while j < n
            invariant
                n == body@.len(),
                j <= n,
                b0 == old(self).bits(),
                b0.len() == GRID_W * GRID_H,
                forall|k: int| 0 <= k < body@.len() ==> on_board(#[trigger] body@[k], GRID_W as int, GRID_H as int),
                self.bits() == cleared(b0, body@.take(j as int)),
                self.clients == old(self).clients,
                self.food == old(self).food,
            decreases n - j,
        {
            let p = body[j];
            proof {
                assert(on_board(body@[j as int], GRID_W as int, GRID_H as int));
                lemma_index_in_range(p, GRID_W as int, GRID_H as int);
            }
            set_bit(&mut self.occupied, (p.y * GRID_W + p.x) as usize, false);
            proof {
                let t = body@.take(j + 1);
                assert forall|i: int| 0 <= i < b0.len() implies #[trigger] self.bits()[i] == cleared(b0, t)[i] by {
                    if i == cell(p) {
                        assert(t[j as int] == p);
                    } else {
                        assert forall|k: int| 0 <= k < j implies #[trigger] body@.take(j as int)[k] == t[k] by {}
                        if exists|k: int| 0 <= k < t.len() && cell(#[trigger] t[k]) == i {
                            let k = choose|k: int| 0 <= k < t.len() && cell(#[trigger] t[k]) == i;
                            assert(body@.take(j as int)[k] == t[k]);
                        }
                    }
                }
                assert(self.bits() =~= cleared(b0, t));
            }
            j = j + 1;
        }
        assert(body@.take(n as int) =~= body@);
    }
}

} // verus!
