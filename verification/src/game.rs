//! The per-lobby game engine: simulation state, the tick-driven simulation
//! step, join/watch/input handling, and the accelerating tick clock.
//!
//! A lobby is a single-writer actor: the surrounding runtime forwards it one
//! event at a time and performs all channel and timer work itself, so every
//! rule of the simulation lives here and is verified. Clients are kept in
//! ascending order of their ids, which is the fixed, documented iteration
//! order that settles every tie-break of a tick.

use vstd::prelude::*;

use std::collections::VecDeque;

use crate::protocol::{ClientMessage, Direction, Grid, MapPiece, PlayerData, ServerMessage,
    WatchUpdate};
use crate::rng::random_below;
use crate::tick_buffer::TickBuffer;

verus! {

/// The grid dimensions are usable: both sides positive, and the flat cell
/// count representable.
pub open spec fn grid_ok(w: usize, h: usize) -> bool {
    1 <= w && 1 <= h && w * h <= usize::MAX
}

/// `p` is a cell of a `w` by `h` grid.
pub open spec fn in_grid(p: (usize, usize), w: usize, h: usize) -> bool {
    p.0 < w && p.1 < h
}

/// The index of cell `p` in the flat row-by-row grid.
pub open spec fn cell_index(p: (usize, usize), w: usize) -> int {
    p.0 + p.1 * w
}

pub proof fn lemma_cell_index_bounds(p: (usize, usize), w: usize, h: usize)
    requires
        grid_ok(w, h),
        in_grid(p, w, h),
    ensures
        0 <= cell_index(p, w) < w * h,
{
    assert(p.0 + p.1 * w < w * h) by (nonlinear_arith)
        requires
            p.0 < w,
            p.1 < h,
            1 <= w,
            1 <= h,
    ;
}

pub proof fn lemma_cell_index_injective(a: (usize, usize), b: (usize, usize), w: usize, h: usize)
    requires
        grid_ok(w, h),
        in_grid(a, w, h),
        in_grid(b, w, h),
    ensures
        cell_index(a, w) == cell_index(b, w) ==> a == b,
{
    if cell_index(a, w) == cell_index(b, w) {
        assert(a.0 == b.0 && a.1 == b.1) by (nonlinear_arith)
            requires
                a.0 < w,
                b.0 < w,
                a.0 + a.1 * w == b.0 + b.1 * w,
        ;
    }
}

/// One toroidal step from `p` in direction `d` on a `w` by `h` grid: moving
/// past coordinate 0 wraps to the far edge and vice versa.
pub open spec fn step_spec(p: (usize, usize), d: Direction, w: usize, h: usize) -> (usize, usize)
    recommends
        grid_ok(w, h),
        in_grid(p, w, h),
{
    match d {
        Direction::Left => if p.0 == 0 {
            ((w - 1) as usize, p.1)
        } else {
            ((p.0 - 1) as usize, p.1)
        },
        Direction::Right => if p.0 == w - 1 {
            (0usize, p.1)
        } else {
            ((p.0 + 1) as usize, p.1)
        },
        Direction::Up => if p.1 == 0 {
            (p.0, (h - 1) as usize)
        } else {
            (p.0, (p.1 - 1) as usize)
        },
        Direction::Down => if p.1 == h - 1 {
            (p.0, 0usize)
        } else {
            (p.0, (p.1 + 1) as usize)
        },
    }
}

/// A toroidal step never leaves the grid.
pub proof fn lemma_step_in_grid(p: (usize, usize), d: Direction, w: usize, h: usize)
    requires
        grid_ok(w, h),
        in_grid(p, w, h),
    ensures
        in_grid(step_spec(p, d, w, h), w, h),
{
}

/// One toroidal step, executable form.
pub fn step_position(p: (usize, usize), d: Direction, w: usize, h: usize) -> (r: (usize, usize))
    requires
        grid_ok(w, h),
        in_grid(p, w, h),
    ensures
        r == step_spec(p, d, w, h),
        in_grid(r, w, h),
{
    match d {
        Direction::Left => if p.0 == 0 {
            (w - 1, p.1)
        } else {
            (p.0 - 1, p.1)
        },
        Direction::Right => if p.0 == w - 1 {
            (0, p.1)
        } else {
            (p.0 + 1, p.1)
        },
        Direction::Up => if p.1 == 0 {
            (p.0, h - 1)
        } else {
            (p.0, p.1 - 1)
        },
        Direction::Down => if p.1 == h - 1 {
            (p.0, 0)
        } else {
            (p.0, p.1 + 1)
        },
    }
}

/// The state the engine keeps for one connected player.
pub struct ClientInfo {
    /// Display name given at the handshake.
    pub name: String,
    /// Messages seen from this player since the last tick broadcast.
    pub msg_count: usize,
    /// Current head cell.
    pub position: (usize, usize),
    /// Previously occupied cells, most recent first, capped by `tail_len`.
    pub tail: VecDeque<(usize, usize)>,
    /// Target tail length: starts at 2, one more per apple eaten.
    pub tail_len: usize,
    /// How many times this player has died.
    pub death: usize,
    /// Current facing.
    pub direction: Direction,
    /// Lobby-unique id, assigned at join and stable for the client's life.
    pub id: usize,
    /// Identity of the underlying connection.
    pub conn: u64,
}

impl ClientInfo {
    /// The client fits the grid: head and every tail cell are cells, and
    /// the stored tail never exceeds its target length.
    pub open spec fn fits(self, w: usize, h: usize) -> bool {
        &&& in_grid(self.position, w, h)
        &&& self.tail@.len() <= self.tail_len
        &&& forall|k: int| 0 <= k < self.tail@.len() ==> in_grid(#[trigger] self.tail@[k], w, h)
    }
}

/// One lobby's full simulation state.
pub struct Game {
    /// The lobby identifier, for diagnostics.
    pub id: usize,
    /// Ring of random tick identifiers, rotated once per tick.
    pub tb: TickBuffer<50>,
    /// Next client id to assign.
    pub id_counter: usize,
    /// Connected players in ascending id order.
    pub clients: Vec<ClientInfo>,
    /// Watcher connections, each registered once.
    pub watchers: Vec<u64>,
    /// Current tick interval in milliseconds; shrinks over time.
    pub interval_ms: u64,
    /// The cell grid as rebuilt by the latest simulation step.
    pub map: Grid,
    /// Grid dimensions, fixed at creation.
    pub map_size: (usize, usize),
    /// Monotonically increasing tick counter.
    pub tick: usize,
    /// Current apple cells; never coincide with each other.
    pub apples: Vec<(usize, usize)>,
}

impl Game {
    pub open spec fn width(self) -> usize {
        self.map_size.0
    }

    pub open spec fn height(self) -> usize {
        self.map_size.1
    }

    /// The engine's invariant: a usable grid, a grid-sized cell vector,
    /// clients in ascending id order with ids below the counter and
    /// pairwise distinct connections, distinct in-grid apples, watchers
    /// registered once, and a well-formed tick ring.
    pub open spec fn wf(self) -> bool {
        &&& grid_ok(self.width(), self.height())
        &&& self.map@.len() == self.width() * self.height()
        &&& forall|i: int|
            0 <= i < self.clients@.len() ==> (#[trigger] self.clients@[i]).fits(
                self.width(),
                self.height(),
            )
        &&& forall|i: int, j: int|
            0 <= i < j < self.clients@.len() ==> (#[trigger] self.clients@[i]).id < (
            #[trigger] self.clients@[j]).id
        &&& forall|i: int|
            0 <= i < self.clients@.len() ==> (#[trigger] self.clients@[i]).id < self.id_counter
        &&& forall|i: int, j: int|
            0 <= i < j < self.clients@.len() ==> (#[trigger] self.clients@[i]).conn != (
            #[trigger] self.clients@[j]).conn
        &&& forall|i: int|
            0 <= i < self.apples@.len() ==> in_grid(
                #[trigger] self.apples@[i],
                self.width(),
                self.height(),
            )
        &&& forall|i: int, j: int|
            0 <= i < j < self.apples@.len() ==> #[trigger] self.apples@[i] != #[trigger] self.apples@[j]
        &&& forall|i: int, j: int|
            0 <= i < j < self.watchers@.len() ==> #[trigger] self.watchers@[i]
                != #[trigger] self.watchers@[j]
        &&& self.tb.wf()
    }

    /// The occupancy check used when placing an apple: the cell collides
    /// with an already chosen apple, or with some client's head or tail.
    pub open spec fn apple_blocked(self, p: (usize, usize), chosen: Seq<(usize, usize)>) -> bool {
        ||| chosen.contains(p)
        ||| exists|i: int|
            0 <= i < self.clients@.len() && ((#[trigger] self.clients@[i]).position == p
                || self.clients@[i].tail@.contains(p))
    }

    /// A fresh lobby: a 20 by 14 grid of empty cells, no clients or
    /// watchers, tick counter 0, a one second tick interval, and exactly
    /// one freshly placed apple.
    pub fn new(id: usize) -> (g: Game)
        ensures
            g.wf(),
            g.id == id,
            g.tick == 0,
            g.id_counter == 0,
            g.map_size == (20usize, 14usize),
            g.clients@.len() == 0,
            g.watchers@.len() == 0,
            g.interval_ms == 1000u64,
            g.apples@.len() == 1,
            in_grid(g.apples@[0], 20, 14),
            forall|k: int| 0 <= k < g.map@.len() ==> g.map@[k] == MapPiece::Empty,
    {
        let map_size = (20usize, 14usize);
        let mut apples: Vec<(usize, usize)> = Vec::new();
        apples.push((random_below(map_size.0), random_below(map_size.1)));
        Game {
            tb: TickBuffer::new(),
            id,
            id_counter: 0,
            clients: Vec::new(),
            watchers: Vec::new(),
            interval_ms: 1000,
            map: empty_grid(map_size.0, map_size.1),
            map_size,
            tick: 0,
            apples,
        }
    }

    /// Register a watcher connection, once: a second subscription by the
    /// same connection replaces the first.
    pub fn watch(&mut self, conn: u64)
        requires
            old(self).wf(),
        ensures
            final(self).wf(),
            watch_post(*old(self), *final(self), conn),
    {
        let present = contains_u64(&self.watchers, conn);
        if !present {
            self.watchers.push(conn);
            proof {
                assert(self.watchers@.drop_last() =~= old(self).watchers@);
                assert forall|x: u64| #[trigger] self.watchers@.to_set().contains(x) implies old(
                    self,
                ).watchers@.to_set().insert(conn).contains(x) by {
                    let i = choose|i: int|
                        0 <= i < self.watchers@.len() && self.watchers@[i] == x;
                    if i < self.watchers@.len() - 1 {
                        assert(old(self).watchers@[i] == x);
                    }
                }
                assert forall|x: u64|
                    old(self).watchers@.to_set().insert(conn).contains(x) implies #[trigger] self
                    .watchers@.to_set().contains(x) by {
                    if x == conn {
                        assert(self.watchers@[self.watchers@.len() - 1] == x);
                    } else {
                        let i = choose|i: int|
                            0 <= i < old(self).watchers@.len() && old(self).watchers@[i] == x;
                        assert(self.watchers@[i] == x);
                    }
                }
                assert(self.watchers@.to_set() =~= old(self).watchers@.to_set().insert(conn));
            }
        } else {
            proof {
                assert(self.watchers@.to_set() =~= old(self).watchers@.to_set().insert(conn));
            }
        }
    }

    /// Drop every watcher whose connection has closed.
    pub fn remove_watchers(&mut self, closed: &Vec<u64>)
        requires
            old(self).wf(),
        ensures
            final(self).wf(),
            final(self).watchers@ == old(self).watchers@.filter(|w: u64| !closed@.contains(w)),
            *final(self) == (Game { watchers: final(self).watchers, ..*old(self) }),
    {
        let mut kept: Vec<u64> = Vec::new();
        let n = self.watchers.len();
        let mut i: usize = 0;
        while i < n
            invariant
                n == self.watchers@.len(),
                i <= n,
                kept@ == self.watchers@.take(i as int).filter(|w: u64| !closed@.contains(w)),
            decreases n - i,
        {
            let w = self.watchers[i];
            proof {
                assert(self.watchers@.take(i + 1).drop_last() =~= self.watchers@.take(i as int));
                reveal_with_fuel(Seq::filter, 2);
            }
            if !contains_u64(closed, w) {
                kept.push(w);
            }
            i = i + 1;
        }
        proof {
            assert(self.watchers@.take(n as int) =~= self.watchers@);
        }
        self.watchers = kept;
        proof {
            lemma_filter_keeps_distinct(old(self).watchers@, |w: u64| !closed@.contains(w));
        }
    }

    /// Shrink the tick interval by 10 milliseconds, floored so it never
    /// drops below 200 milliseconds.
    pub fn speedup(&mut self)
        requires
            old(self).wf(),
        ensures
            final(self).wf(),
            final(self).interval_ms == if old(self).interval_ms > 200 {
                (old(self).interval_ms - 10) as u64
            } else {
                old(self).interval_ms
            },
            *final(self) == (Game { interval_ms: final(self).interval_ms, ..*old(self) }),
    {
        let dur = self.interval_ms;
        if dur > 10 && dur > 200 {
            self.interval_ms = dur - 10;
        }
    }

    /// Replace the apple set: up to `count` fresh apples, each sampled
    /// uniformly with up to 100 retries, rejecting samples that collide
    /// with an already placed apple or any client's head or tail. An apple
    /// whose retry budget runs out is simply not placed this tick.
    pub fn spawn_apple(&mut self, count: usize)
        requires
            old(self).wf(),
        ensures
            final(self).wf(),
            final(self).apples@.len() <= count,
            forall|k: int|
                0 <= k < final(self).apples@.len() ==> in_grid(
                    #[trigger] final(self).apples@[k],
                    old(self).width(),
                    old(self).height(),
                ),
            forall|k: int|
                0 <= k < final(self).apples@.len() ==> !old(self).apple_blocked(
                    #[trigger] final(self).apples@[k],
                    final(self).apples@.take(k),
                ),
            *final(self) == (Game { apples: final(self).apples, ..*old(self) }),
    {
        let w = self.map_size.0;
        let h = self.map_size.1;
        let mut fresh: Vec<(usize, usize)> = Vec::new();
        let mut placed: usize = 0;
        while placed < count
            invariant
                self.wf(),
                *self == (Game { apples: self.apples, ..*old(self) }),
                w == self.width(),
                h == self.height(),
                placed <= count,
                fresh@.len() <= placed,
                forall|k: int|
                    0 <= k < fresh@.len() ==> in_grid(#[trigger] fresh@[k], w, h),
                forall|k: int|
                    0 <= k < fresh@.len() ==> !old(self).apple_blocked(
                        #[trigger] fresh@[k],
                        fresh@.take(k),
                    ),
            decreases count - placed,
        {
            let mut attempt: usize = 0;
            while attempt < 100
                invariant_except_break
                    fresh@.len() <= placed,
                invariant
                    self.wf(),
                    *self == (Game { apples: self.apples, ..*old(self) }),
                    w == self.width(),
                    h == self.height(),
                    forall|k: int|
                        0 <= k < fresh@.len() ==> in_grid(#[trigger] fresh@[k], w, h),
                    forall|k: int|
                        0 <= k < fresh@.len() ==> !old(self).apple_blocked(
                            #[trigger] fresh@[k],
                            fresh@.take(k),
                        ),
                    placed < count,
                ensures
                    fresh@.len() <= placed + 1,
                decreases 100 - attempt,
            {
                let position = (random_below(w), random_below(h));
                if !self.apple_candidate_blocked(&fresh, position) {
                    let ghost pre = fresh@;
                    fresh.push(position);
                    proof {
                        assert(old(self).apple_blocked(position, pre) == self.apple_blocked(
                            position,
                            pre,
                        ));
                        assert forall|k: int|
                            0 <= k < fresh@.len() implies !old(self).apple_blocked(
                            #[trigger] fresh@[k],
                            fresh@.take(k),
                        ) by {
                            if k < pre.len() {
                                assert(fresh@.take(k) =~= pre.take(k));
                                assert(fresh@[k] == pre[k]);
                            } else {
                                assert(fresh@.take(k) =~= pre);
                                assert(fresh@[k] == position);
                            }
                        }
                    }
                    break ;
                }
                attempt = attempt + 1;
            }
            placed = placed + 1;
        }
        self.apples = fresh;
        proof {
            assert forall|i: int, j: int|
                0 <= i < j < self.apples@.len() implies self.apples@[i] != self.apples@[j] by {
                assert(self.apples@.take(j)[i] == self.apples@[i]);
                assert(self.apples@.take(j).contains(self.apples@[i]));
            }
        }
    }

    /// Whether a candidate apple cell collides with an already chosen
    /// apple or with any client's head or tail.
    fn apple_candidate_blocked(&self, chosen: &Vec<(usize, usize)>, p: (usize, usize)) -> (r: bool)
        ensures
            r == self.apple_blocked(p, chosen@),
    {
        let n = chosen.len();
        let mut i: usize = 0;
        while i < n
            invariant
                n == chosen@.len(),
                i <= n,
                forall|k: int| 0 <= k < i ==> chosen@[k] != p,
            decreases n - i,
        {
            if chosen[i].0 == p.0 && chosen[i].1 == p.1 {
                return true;
            }
            i = i + 1;
        }
        let m = self.clients.len();
        let mut c: usize = 0;
        while c < m
            invariant
                m == self.clients@.len(),
                c <= m,
                forall|k: int|
                    0 <= k < c ==> (#[trigger] self.clients@[k]).position != p
                        && !self.clients@[k].tail@.contains(p),
            decreases m - c,
        {
            if self.clients[c].position.0 == p.0 && self.clients[c].position.1 == p.1 {
                return true;
            }
            let t = self.clients[c].tail.len();
            let mut k: usize = 0;
            while k < t
                invariant
                    t == self.clients@[c as int].tail@.len(),
                    c < m,
                    m == self.clients@.len(),
                    k <= t,
                    forall|q: int| 0 <= q < k ==> self.clients@[c as int].tail@[q] != p,
                decreases t - k,
            {
                let cell = self.clients[c].tail[k];
                if cell.0 == p.0 && cell.1 == p.1 {
                    return true;
                }
                k = k + 1;
            }
            c = c + 1;
        }
        false
    }
}

/// The outcome of one inbound player message, reported so the runtime can
/// log diagnostics; the engine itself treats none of these as an error.
#[derive(Clone, Copy, PartialEq, Eq, Structural, Debug)]
pub enum InputOutcome {
    /// The message referenced a connection with no client: ignored.
    Unknown,
    /// The first message of this tick: a `Turn` was applied to the facing.
    Accepted,
    /// A later message of this tick: counted but not applied. `warn` asks
    /// for a diagnostic about excessive input, raised at the second
    /// message of a tick and at every tenth.
    Excess { warn: bool },
}

/// `s` with every client on connection `conn` removed.
pub open spec fn without_conn(s: Seq<ClientInfo>, conn: u64) -> Seq<ClientInfo> {
    s.filter(|c: ClientInfo| c.conn != conn)
}

/// The head cell of client `i` after its one toroidal step of this tick.
pub open spec fn moved_pos(cs: Seq<ClientInfo>, i: int, w: usize, h: usize) -> (usize, usize) {
    step_spec(cs[i].position, cs[i].direction, w, h)
}

/// The tail of client `i` after this tick's movement: the old head cell is
/// pushed to the front and the result is trimmed to the target length.
pub open spec fn shifted_tail(cs: Seq<ClientInfo>, i: int) -> Seq<(usize, usize)> {
    let pushed = seq![cs[i].position] + cs[i].tail@;
    if pushed.len() <= cs[i].tail_len {
        pushed
    } else {
        pushed.take(cs[i].tail_len as int)
    }
}

/// Client `i` eats an apple this tick: its head lands on an apple cell and
/// no earlier client (in the fixed ascending-id order) lands on the same
/// cell first.
pub open spec fn eats_apple(
    cs: Seq<ClientInfo>,
    apples: Seq<(usize, usize)>,
    i: int,
    w: usize,
    h: usize,
) -> bool {
    apples.contains(moved_pos(cs, i, w, h)) && forall|j: int|
        0 <= j < i ==> moved_pos(cs, j, w, h) != moved_pos(cs, i, w, h)
}

/// Some client eats an apple this tick.
pub open spec fn some_apple_eaten(
    cs: Seq<ClientInfo>,
    apples: Seq<(usize, usize)>,
    w: usize,
    h: usize,
) -> bool {
    exists|i: int| 0 <= i < cs.len() && eats_apple(cs, apples, i, w, h)
}

/// How this tick's movement transforms client `i` into `c`: one toroidal
/// step, the shifted tail, one more target tail length exactly when an
/// apple was eaten, and every other field kept.
pub open spec fn client_moved(
    cs: Seq<ClientInfo>,
    apples: Seq<(usize, usize)>,
    c: ClientInfo,
    i: int,
    w: usize,
    h: usize,
) -> bool {
    &&& c.position == moved_pos(cs, i, w, h)
    &&& c.tail@ == shifted_tail(cs, i)
    &&& c.tail_len == cs[i].tail_len + (if eats_apple(cs, apples, i, w, h) {
        1int
    } else {
        0int
    })
    &&& c.direction == cs[i].direction
    &&& c.name == cs[i].name
    &&& c.msg_count == cs[i].msg_count
    &&& c.death == cs[i].death
    &&& c.id == cs[i].id
    &&& c.conn == cs[i].conn
}

/// Client `i` dies this tick: after movement, its head cell equals another
/// client's head cell, or lies in another client's tail.
pub open spec fn dies(cs: Seq<ClientInfo>, i: int, w: usize, h: usize) -> bool {
    exists|j: int|
        0 <= j < cs.len() && j != i && (#[trigger] moved_pos(cs, j, w, h) == moved_pos(cs, i, w, h)
            || shifted_tail(cs, j).contains(moved_pos(cs, i, w, h)))
}

/// The same collision rule read off an already-moved client sequence.
pub open spec fn dies_now(cs: Seq<ClientInfo>, i: int) -> bool {
    exists|j: int|
        0 <= j < cs.len() && j != i && ((#[trigger] cs[j]).position == cs[i].position
            || cs[j].tail@.contains(cs[i].position))
}

/// A cell is blocked for a respawning apple when, after movement, some
/// client's head or tail occupies it.
pub open spec fn apple_blocked_after_move(
    cs: Seq<ClientInfo>,
    p: (usize, usize),
    w: usize,
    h: usize,
) -> bool {
    exists|i: int|
        0 <= i < cs.len() && (#[trigger] moved_pos(cs, i, w, h) == p || shifted_tail(
            cs,
            i,
        ).contains(p))
}

/// The largest index below `k` whose (already moved) head sits on `q`, or
/// -1: heads are painted in ascending order and a later head overwrites an
/// earlier one.
pub open spec fn head_at_before(cs: Seq<ClientInfo>, k: int, q: (usize, usize)) -> int
    decreases k,
{
    if k <= 0 {
        -1
    } else if cs[k - 1].position == q {
        k - 1
    } else {
        head_at_before(cs, k - 1, q)
    }
}

/// The smallest index below `k` whose (already shifted) tail covers `q`,
/// or -1: a tail marks only cells still empty, so the first claim wins.
pub open spec fn tail_at_before(cs: Seq<ClientInfo>, k: int, q: (usize, usize)) -> int
    decreases k,
{
    if k <= 0 {
        -1
    } else {
        let r = tail_at_before(cs, k - 1, q);
        if r >= 0 {
            r
        } else if cs[k - 1].tail@.contains(q) {
            k - 1
        } else {
            -1
        }
    }
}

/// What the rebuilt grid holds at cell `q`, read off an already-moved
/// client sequence: the last head to land there; else an apple; else the
/// first tail to claim it; else empty.
pub open spec fn grid_cell_now(
    cs: Seq<ClientInfo>,
    apples: Seq<(usize, usize)>,
    q: (usize, usize),
) -> MapPiece {
    let lh = head_at_before(cs, cs.len() as int, q);
    if lh >= 0 {
        MapPiece::SnakeHead(cs[lh].id)
    } else if apples.contains(q) {
        MapPiece::Apple
    } else {
        let ft = tail_at_before(cs, cs.len() as int, q);
        if ft >= 0 {
            MapPiece::Snake(cs[ft].id)
        } else {
            MapPiece::Empty
        }
    }
}

/// The largest index below `k` whose head moves onto `q` this tick, or -1,
/// read off the pre-movement client sequence.
pub open spec fn last_head_before(
    cs: Seq<ClientInfo>,
    k: int,
    q: (usize, usize),
    w: usize,
    h: usize,
) -> int
    decreases k,
{
    if k <= 0 {
        -1
    } else if moved_pos(cs, k - 1, w, h) == q {
        k - 1
    } else {
        last_head_before(cs, k - 1, q, w, h)
    }
}

/// The smallest index below `k` whose shifted tail covers `q`, or -1, read
/// off the pre-movement client sequence.
pub open spec fn first_tail_before(
    cs: Seq<ClientInfo>,
    k: int,
    q: (usize, usize),
    w: usize,
    h: usize,
) -> int
    decreases k,
{
    if k <= 0 {
        -1
    } else {
        let r = first_tail_before(cs, k - 1, q, w, h);
        if r >= 0 {
            r
        } else if shifted_tail(cs, k - 1).contains(q) {
            k - 1
        } else {
            -1
        }
    }
}

/// What this tick's rebuilt grid holds at cell `q`, as a function of the
/// pre-movement state: the last head to land there; else an apple; else
/// the first tail to claim it; else empty.
pub open spec fn grid_cell(
    cs: Seq<ClientInfo>,
    apples: Seq<(usize, usize)>,
    q: (usize, usize),
    w: usize,
    h: usize,
) -> MapPiece {
    let lh = last_head_before(cs, cs.len() as int, q, w, h);
    if lh >= 0 {
        MapPiece::SnakeHead(cs[lh].id)
    } else if apples.contains(q) {
        MapPiece::Apple
    } else {
        let ft = first_tail_before(cs, cs.len() as int, q, w, h);
        if ft >= 0 {
            MapPiece::Snake(cs[ft].id)
        } else {
            MapPiece::Empty
        }
    }
}

/// On a moved client sequence, painting heads finds the same owner as the
/// pre-movement description.
proof fn lemma_head_congruent(
    pre: Seq<ClientInfo>,
    cur: Seq<ClientInfo>,
    apples: Seq<(usize, usize)>,
    k: int,
    q: (usize, usize),
    w: usize,
    h: usize,
)
    requires
        pre.len() == cur.len(),
        forall|i: int| 0 <= i < pre.len() ==> client_moved(pre, apples, #[trigger] cur[i], i, w, h),
        0 <= k <= pre.len(),
    ensures
        head_at_before(cur, k, q) == last_head_before(pre, k, q, w, h),
    decreases k,
{
    if k > 0 {
        lemma_head_congruent(pre, cur, apples, k - 1, q, w, h);
        assert(client_moved(pre, apples, cur[k - 1], k - 1, w, h));
    }
}

/// On a moved client sequence, painting tails finds the same owner as the
/// pre-movement description.
proof fn lemma_tail_congruent(
    pre: Seq<ClientInfo>,
    cur: Seq<ClientInfo>,
    apples: Seq<(usize, usize)>,
    k: int,
    q: (usize, usize),
    w: usize,
    h: usize,
)
    requires
        pre.len() == cur.len(),
        forall|i: int| 0 <= i < pre.len() ==> client_moved(pre, apples, #[trigger] cur[i], i, w, h),
        0 <= k <= pre.len(),
    ensures
        tail_at_before(cur, k, q) == first_tail_before(pre, k, q, w, h),
    decreases k,
{
    if k > 0 {
        lemma_tail_congruent(pre, cur, apples, k - 1, q, w, h);
        assert(client_moved(pre, apples, cur[k - 1], k - 1, w, h));
    }
}

/// The index a head search returns is a client index or -1.
proof fn lemma_last_head_in_range(cs: Seq<ClientInfo>, k: int, q: (usize, usize), w: usize, h: usize)
    requires
        0 <= k <= cs.len(),
    ensures
        -1 <= last_head_before(cs, k, q, w, h) < k,
    decreases k,
{
    if k > 0 {
        lemma_last_head_in_range(cs, k - 1, q, w, h);
    }
}

/// The index a tail search returns is a client index or -1.
proof fn lemma_first_tail_in_range(cs: Seq<ClientInfo>, k: int, q: (usize, usize), w: usize, h: usize)
    requires
        0 <= k <= cs.len(),
    ensures
        -1 <= first_tail_before(cs, k, q, w, h) < k,
    decreases k,
{
    if k > 0 {
        lemma_first_tail_in_range(cs, k - 1, q, w, h);
    }
}

/// What the grid holds while tails are being painted: all heads and
/// apples, the tails of clients before `i`, and the first `m` cells of
/// client `i`'s own tail.
pub open spec fn tail_paint_cell(
    cs: Seq<ClientInfo>,
    apples: Seq<(usize, usize)>,
    i: int,
    m: int,
    q: (usize, usize),
) -> MapPiece {
    let lh = head_at_before(cs, cs.len() as int, q);
    if lh >= 0 {
        MapPiece::SnakeHead(cs[lh].id)
    } else if apples.contains(q) {
        MapPiece::Apple
    } else {
        let ft = tail_at_before(cs, i, q);
        if ft >= 0 {
            MapPiece::Snake(cs[ft].id)
        } else if 0 <= i < cs.len() && cs[i].tail@.take(m).contains(q) {
            MapPiece::Snake(cs[i].id)
        } else {
            MapPiece::Empty
        }
    }
}

/// How a death respawns client `i` into `c`: a fresh random cell, a
/// cleared tail, target tail length back to 2, one more death, and every
/// other field kept.
pub open spec fn respawned_after(cs: Seq<ClientInfo>, c: ClientInfo, i: int, w: usize, h: usize) -> bool {
    &&& in_grid(c.position, w, h)
    &&& c.tail@.len() == 0
    &&& c.tail_len == 2
    &&& c.death == cs[i].death + 1
    &&& c.direction == cs[i].direction
    &&& c.name == cs[i].name
    &&& c.msg_count == cs[i].msg_count
    &&& c.id == cs[i].id
    &&& c.conn == cs[i].conn
}

/// Everything one simulation step does, as a relation between the state
/// before the tick, the state after it, and the spectator frame built at
/// its end.
pub open spec fn tick_outcome(pre: Game, post: Game, u: WatchUpdate) -> bool {
    let cs = pre.clients@;
    let apples = pre.apples@;
    let w = pre.width();
    let h = pre.height();
    &&& post.tick == pre.tick + 1
    &&& post.clients@.len() == cs.len()
    &&& forall|i: int|
        0 <= i < cs.len() ==> {
            let c = #[trigger] post.clients@[i];
            if dies(cs, i, w, h) {
                respawned_after(cs, c, i, w, h)
            } else {
                client_moved(cs, apples, c, i, w, h)
            }
        }
    &&& post.map@.len() == w * h
    &&& forall|q: (usize, usize)|
        in_grid(q, w, h) ==> post.map@[#[trigger] cell_index(q, w)] == grid_cell(
            cs,
            apples,
            q,
            w,
            h,
        )
    &&& if some_apple_eaten(cs, apples, w, h) {
        &&& post.apples@.len() <= 1
        &&& forall|k: int|
            0 <= k < post.apples@.len() ==> in_grid(#[trigger] post.apples@[k], w, h)
                && !apple_blocked_after_move(cs, post.apples@[k], w, h)
    } else {
        post.apples@ == apples
    }
    &&& post.id == pre.id
    &&& post.id_counter == pre.id_counter
    &&& post.map_size == pre.map_size
    &&& post.watchers == pre.watchers
    &&& post.tb == pre.tb
    &&& post.interval_ms == pre.interval_ms
    &&& u.map@ == post.map@
    &&& u.map_size == pre.map_size
    &&& u.clients@.len() == cs.len()
    &&& forall|i: int|
        0 <= i < cs.len() ==> {
            let p = #[trigger] u.clients@[i];
            let c = post.clients@[i];
            &&& p.name == c.name
            &&& p.position == c.position
            &&& p.tail_len == c.tail_len
            &&& p.death == c.death
            &&& p.id == c.id
        }
}

/// `s` with every client whose connection is listed in `failed` removed.
pub open spec fn without_failed(s: Seq<ClientInfo>, failed: Seq<u64>) -> Seq<ClientInfo> {
    s.filter(|c: ClientInfo| !failed.contains(c.conn))
}

/// What a join does: one fresh client appended after any same-connection
/// client is dropped, carrying the next id, the given name, an empty tail
/// with target length 2, no deaths, and a start cell no prior client's
/// head occupied.
pub open spec fn join_post(pre: Game, post: Game, conn: u64, name: Seq<char>, cid: usize) -> bool {
    &&& cid == pre.id_counter
    &&& post.id_counter == pre.id_counter + 1
    &&& post.clients@.len() == without_conn(pre.clients@, conn).len() + 1
    &&& post.clients@.drop_last() == without_conn(pre.clients@, conn)
    &&& ({
        let nc = post.clients@.last();
        &&& nc.conn == conn
        &&& nc.id == pre.id_counter
        &&& nc.name@ == name
        &&& nc.msg_count == 0
        &&& nc.tail@.len() == 0
        &&& nc.tail_len == 2
        &&& nc.death == 0
        &&& in_grid(nc.position, pre.width(), pre.height())
        &&& forall|i: int|
            0 <= i < pre.clients@.len() ==> (#[trigger] pre.clients@[i]).position != nc.position
    })
    &&& post == (Game { clients: post.clients, id_counter: post.id_counter, ..pre })
}

/// What a watcher subscription does: the connection is in the watcher set
/// afterwards, nothing else changes.
pub open spec fn watch_post(pre: Game, post: Game, conn: u64) -> bool {
    &&& post.watchers@.to_set() == pre.watchers@.to_set().insert(conn)
    &&& post == (Game { watchers: post.watchers, ..pre })
}

/// What one inbound message does, and how it is classified.
pub open spec fn input_post(
    pre: Game,
    post: Game,
    conn: u64,
    msg: ClientMessage,
    r: InputOutcome,
) -> bool {
    &&& ({
        let cs = pre.clients@;
        if (exists|i: int| 0 <= i < cs.len() && (#[trigger] cs[i]).conn == conn) {
            let i = choose|i: int| 0 <= i < cs.len() && (#[trigger] cs[i]).conn == conn;
            let c = cs[i];
            &&& post.clients@ == cs.update(
                i,
                ClientInfo {
                    msg_count: (c.msg_count + 1) as usize,
                    direction: applied_direction(c.direction, msg, c.msg_count == 0),
                    ..c
                },
            )
            &&& r == input_outcome(c)
        } else {
            &&& post.clients@ == cs
            &&& r == InputOutcome::Unknown
        }
    })
    &&& post == (Game { clients: post.clients, ..pre })
}

/// What the broadcast phase of a tick does: one identifier minted from the
/// ring (exactly one slot refreshed), the interval shrunk by 10
/// milliseconds down to the 200 millisecond floor, one personalized frame
/// per client carrying the previous tick's grid, and every per-tick
/// message counter reset.
pub open spec fn broadcast_post(pre: Game, post: Game, ts: TickStart) -> bool {
    &&& ts.tick_id == pre.tb.slots()[pre.tb.cursor()]
    &&& post.tb.wf()
    &&& post.tb.slots().len() == 50
    &&& post.tb.cursor() == (pre.tb.cursor() + 1) % 50int
    &&& forall|i: int|
        0 <= i < 50 && i != post.tb.cursor() ==> post.tb.slots()[i] == pre.tb.slots()[i]
    &&& post.interval_ms == (if pre.interval_ms > 200 {
        (pre.interval_ms - 10) as u64
    } else {
        pre.interval_ms
    })
    &&& ts.interval_ms == post.interval_ms
    &&& post.clients@.len() == pre.clients@.len()
    &&& forall|i: int|
        0 <= i < pre.clients@.len() ==> #[trigger] post.clients@[i] == (ClientInfo {
            msg_count: 0,
            ..pre.clients@[i]
        })
    &&& ts.frames@.len() == pre.clients@.len()
    &&& forall|i: int|
        0 <= i < ts.frames@.len() ==> (#[trigger] ts.frames@[i]).0 == pre.clients@[i].conn
    &&& forall|i: int|
        0 <= i < ts.frames@.len() ==> ((#[trigger] ts.frames@[i]).1 matches ServerMessage::Tick {
            map,
            map_size,
            your_position,
            your_direction,
        } && map@ == pre.map@ && map_size == pre.map_size && your_position
            == pre.clients@[i].position && your_direction == pre.clients@[i].direction)
    &&& post == (Game { tb: post.tb, interval_ms: post.interval_ms, clients: post.clients, ..pre })
}

/// What the engine hands the runtime when the tick timer fires: the minted
/// tick identifier to log, the re-armed interval, and one frame per
/// client.
pub struct TickStart {
    /// The identifier minted from the tick ring for this tick.
    pub tick_id: u64,
    /// The tick interval to re-arm the timer with, in milliseconds.
    pub interval_ms: u64,
    /// One personalized frame per client, with its connection.
    pub frames: Vec<(u64, ServerMessage)>,
}

/// One event of the engine's multi-way wait: exactly one is consumed per
/// loop iteration.
pub enum GameEvent {
    /// A player finished its handshake and joins.
    Join { conn: u64, name: String },
    /// A spectator subscribes.
    Watch { conn: u64 },
    /// A decoded message arrived from a player connection.
    Input { conn: u64, msg: ClientMessage },
    /// The tick timer fired.
    Timer,
}

/// What the engine asks the runtime to do after consuming one event.
pub enum TickAction {
    /// A client was registered under this id; hand it its channel.
    Joined { client_id: usize },
    /// The watcher is registered.
    Watching,
    /// The message was counted; the outcome says what to log.
    Heard { outcome: InputOutcome },
    /// Send each frame to its client, then run the simulation step.
    Broadcast { start: TickStart },
}

/// The facing after one inbound message: only a `Turn` that is the first
/// message of the tick rotates the facing.
pub open spec fn applied_direction(d: Direction, msg: ClientMessage, first: bool) -> Direction {
    if first {
        match msg {
            ClientMessage::Turn(t) => d.turn_spec(t),
            _ => d,
        }
    } else {
        d
    }
}

/// How one inbound message from a known client is classified, given the
/// client's counter before the message.
pub open spec fn input_outcome(c: ClientInfo) -> InputOutcome {
    if c.msg_count == 0 {
        InputOutcome::Accepted
    } else {
        InputOutcome::Excess { warn: c.msg_count + 1 == 2 || (c.msg_count + 1) % 10 == 0 }
    }
}

impl Game {
    /// Whether some client's head sits on `p`.
    fn head_occupied(&self, p: (usize, usize)) -> (r: bool)
        ensures
            r == exists|i: int|
                0 <= i < self.clients@.len() && (#[trigger] self.clients@[i]).position == p,
    {
        let n = self.clients.len();
        let mut i: usize = 0;
        while i < n
            invariant
                n == self.clients@.len(),
                i <= n,
                forall|k: int| 0 <= k < i ==> (#[trigger] self.clients@[k]).position != p,
            decreases n - i,
        {
            if self.clients[i].position.0 == p.0 && self.clients[i].position.1 == p.1 {
                return true;
            }
            i = i + 1;
        }
        false
    }

    /// A start cell no current client's head occupies: sampled uniformly
    /// with rejection, falling back to a row-by-row scan, which must
    /// succeed because there are fewer clients than cells.
    fn find_free_cell(&self) -> (p: (usize, usize))
        requires
            self.wf(),
            self.clients@.len() < self.width() * self.height(),
        ensures
            in_grid(p, self.width(), self.height()),
            forall|i: int|
                0 <= i < self.clients@.len() ==> (#[trigger] self.clients@[i]).position != p,
    {
        let w = self.map_size.0;
        let h = self.map_size.1;
        let mut attempt: usize = 0;
        while attempt < 100
            invariant
                self.wf(),
                w == self.width(),
                h == self.height(),
            decreases 100 - attempt,
        {
            let cand = (random_below(w), random_below(h));
            if !self.head_occupied(cand) {
                return cand;
            }
            attempt = attempt + 1;
        }
        let mut y: usize = 0;
        while y < h
            invariant
                self.wf(),
                w == self.width(),
                h == self.height(),
                self.clients@.len() < w * h,
                y <= h,
                forall|q: (usize, usize)|
                    in_grid(q, w, h) && q.1 < y ==> exists|i: int|
                        0 <= i < self.clients@.len() && (#[trigger] self.clients@[i]).position
                            == q,
            decreases h - y,
        {
            let mut x: usize = 0;
            while x < w
                invariant
                    self.wf(),
                    w == self.width(),
                    h == self.height(),
                    y < h,
                    x <= w,
                    forall|q: (usize, usize)|
                        in_grid(q, w, h) && (q.1 < y || (q.1 == y && q.0 < x)) ==> exists|i: int|
                            0 <= i < self.clients@.len() && (#[trigger] self.clients@[i]).position
                                == q,
                decreases w - x,
            {
                if !self.head_occupied((x, y)) {
                    return (x, y);
                }
                x = x + 1;
            }
            y = y + 1;
        }
        proof {
            // Fewer clients than cells cannot put a head on every cell, so
            // the scan above cannot have fallen through.
            broadcast use vstd::seq_lib::seq_to_set_is_finite;

            let cs = self.clients@;
            let occ = Seq::new(cs.len(), |i: int| cell_index(cs[i].position, w));
            occ.lemma_cardinality_of_set();
            let range = vstd::set_lib::set_int_range(0, w * h);
            vstd::set_lib::lemma_int_range(0, w * h);
            assert forall|idx: int| range.contains(idx) implies occ.to_set().contains(idx) by {
                let xi = idx % (w as int);
                let yi = idx / (w as int);
                assert(0 <= xi < w && 0 <= yi < h && xi + yi * w == idx) by (nonlinear_arith)
                    requires
                        0 <= idx < w * h,
                        xi == idx % (w as int),
                        yi == idx / (w as int),
                        1 <= w,
                        1 <= h,
                ;
                let q = (xi as usize, yi as usize);
                assert(in_grid(q, w, h));
                let i = choose|i: int| 0 <= i < cs.len() && (#[trigger] cs[i]).position == q;
                assert(occ[i] == cell_index(q, w));
                assert(occ[i] == idx);
                assert(occ.to_set().contains(occ[i]));
            }
            vstd::set_lib::lemma_len_subset(range, occ.to_set());
            assert(false);
        }
        vstd::pervasive::unreached()
    }

    /// Remove every client registered on connection `conn` (by the
    /// connection-uniqueness invariant there is at most one).
    fn remove_conn(&mut self, conn: u64)
        requires
            old(self).wf(),
        ensures
            final(self).wf(),
            final(self).clients@ == without_conn(old(self).clients@, conn),
            *final(self) == (Game { clients: final(self).clients, ..*old(self) }),
    {
        let n = self.clients.len();
        let mut i: usize = 0;
        while i < n
            invariant
                self.wf(),
                *self == *old(self),
                n == self.clients@.len(),
                i <= n,
                forall|k: int| 0 <= k < i ==> (#[trigger] self.clients@[k]).conn != conn,
            decreases n - i,
        {
            if self.clients[i].conn == conn {
                proof {
                    assert forall|k: int|
                        0 <= k < self.clients@.len() && k != i implies (
                    #[trigger] self.clients@[k]).conn != conn by {
                        if k > i {
                            assert(self.clients@[i as int].conn != self.clients@[k].conn);
                        }
                    }
                    lemma_filter_removes_one(self.clients@, conn, i as int);
                }
                self.clients.remove(i);
                proof {
                    let pre = old(self).clients@;
                    let post = self.clients@;
                    assert forall|a: int, b: int|
                        0 <= a < b < post.len() implies (#[trigger] post[a]).id < (
                    #[trigger] post[b]).id && post[a].conn != post[b].conn by {
                        let a0 = if a < i { a } else { a + 1 };
                        let b0 = if b < i { b } else { b + 1 };
                        assert(post[a] == pre[a0] && post[b] == pre[b0]);
                    }
                    assert forall|a: int|
                        0 <= a < post.len() implies (#[trigger] post[a]).fits(
                        self.width(),
                        self.height(),
                    ) && post[a].id < self.id_counter by {
                        let a0 = if a < i { a } else { a + 1 };
                        assert(post[a] == pre[a0]);
                    }
                }
                return ;
            }
            i = i + 1;
        }
        proof {
            lemma_filter_keeps_all(self.clients@, conn);
        }
    }

    /// Record one inbound message from `conn`: the per-tick counter rises
    /// by one, and only the first message of a tick applies its rotation to
    /// the facing. The second message of a tick, and every tenth, asks for
    /// an excessive-input diagnostic. A message from an unknown connection
    /// changes nothing.
    pub fn handle_message(&mut self, conn: u64, msg: ClientMessage) -> (r: InputOutcome)
        requires
            old(self).wf(),
            forall|i: int|
                0 <= i < old(self).clients@.len() ==> (#[trigger] old(
                    self,
                ).clients@[i]).msg_count < usize::MAX,
        ensures
            final(self).wf(),
            input_post(*old(self), *final(self), conn, msg, r),
    {
        let n = self.clients.len();
        let mut i: usize = 0;
        while i < n
            invariant
                old(self).wf(),
                *self == *old(self),
                forall|k: int|
                    0 <= k < old(self).clients@.len() ==> (#[trigger] old(
                        self,
                    ).clients@[k]).msg_count < usize::MAX,
                n == self.clients@.len(),
                i <= n,
                forall|k: int| 0 <= k < i ==> (#[trigger] self.clients@[k]).conn != conn,
            decreases n - i,
        {
            if self.clients[i].conn == conn {
                proof {
                    let cs = old(self).clients@;
                    let j = choose|j: int| 0 <= j < cs.len() && (#[trigger] cs[j]).conn == conn;
                    assert(j == i);
                }
                let first = self.clients[i].msg_count == 0;
                let count = self.clients[i].msg_count + 1;
                self.clients[i].msg_count = count;
                if first {
                    match msg {
                        ClientMessage::Turn(t) => {
                            let d = self.clients[i].direction;
                            self.clients[i].direction = d.turn(t);
                        },
                        ClientMessage::SetName(_) => {},
                    }
                }
                proof {
                    let cs = old(self).clients@;
                    let c = cs[i as int];
                    assert(self.clients@ =~= cs.update(
                        i as int,
                        ClientInfo {
                            msg_count: (c.msg_count + 1) as usize,
                            direction: applied_direction(c.direction, msg, c.msg_count == 0),
                            ..c
                        },
                    ));
                    assert forall|a: int|
                        0 <= a < self.clients@.len() implies (#[trigger] self.clients@[a]).fits(
                        self.width(),
                        self.height(),
                    ) by {
                        assert(cs[a].fits(self.width(), self.height()));
                    }
                }
                if first {
                    return InputOutcome::Accepted;
                } else {
                    let warn = count == 2 || count % 10 == 0;
                    return InputOutcome::Excess { warn };
                }
            }
            i = i + 1;
        }
        InputOutcome::Unknown
    }

    /// Whether some client before index `i` has already moved onto `p`
    /// this tick (their stored positions are already the moved ones).
    fn landed_before(&self, i: usize, p: (usize, usize)) -> (r: bool)
        requires
            i <= self.clients@.len(),
        ensures
            r == exists|k: int|
                0 <= k < i && (#[trigger] self.clients@[k]).position == p,
    {
        let mut k: usize = 0;
        while k < i
            invariant
                i <= self.clients@.len(),
                k <= i,
                forall|q: int| 0 <= q < k ==> (#[trigger] self.clients@[q]).position != p,
            decreases i - k,
        {
            if self.clients[k].position.0 == p.0 && self.clients[k].position.1 == p.1 {
                return true;
            }
            k = k + 1;
        }
        false
    }

    /// Whether `p` is one of the current apple cells.
    fn apple_at(&self, p: (usize, usize)) -> (r: bool)
        ensures
            r == self.apples@.contains(p),
    {
        let n = self.apples.len();
        let mut i: usize = 0;
        while i < n
            invariant
                n == self.apples@.len(),
                i <= n,
                forall|k: int| 0 <= k < i ==> self.apples@[k] != p,
            decreases n - i,
        {
            if self.apples[i].0 == p.0 && self.apples[i].1 == p.1 {
                return true;
            }
            i = i + 1;
        }
        false
    }

    /// Move every client one step, in ascending id order: push the old
    /// head onto the tail, trim it to the target length, step toroidally,
    /// and grow the target by one when the head lands on an apple cell no
    /// earlier client claimed this tick. Returns whether any apple was
    /// eaten.
    fn move_clients(&mut self) -> (ate: bool)
        requires
            old(self).wf(),
            forall|i: int|
                0 <= i < old(self).clients@.len() ==> (#[trigger] old(
                    self,
                ).clients@[i]).tail_len < usize::MAX,
        ensures
            final(self).wf(),
            final(self).clients@.len() == old(self).clients@.len(),
            forall|i: int|
                0 <= i < old(self).clients@.len() ==> client_moved(
                    old(self).clients@,
                    old(self).apples@,
                    #[trigger] final(self).clients@[i],
                    i,
                    old(self).width(),
                    old(self).height(),
                ),
            ate == some_apple_eaten(
                old(self).clients@,
                old(self).apples@,
                old(self).width(),
                old(self).height(),
            ),
            *final(self) == (Game { clients: final(self).clients, ..*old(self) }),
    {
        let w = self.map_size.0;
        let h = self.map_size.1;
        let n = self.clients.len();
        let mut ate = false;
        let mut i: usize = 0;
        while i < n
            invariant
                old(self).wf(),
                *self == (Game { clients: self.clients, ..*old(self) }),
                w == old(self).width(),
                h == old(self).height(),
                n == self.clients@.len(),
                n == old(self).clients@.len(),
                i <= n,
                forall|k: int|
                    0 <= k < old(self).clients@.len() ==> (#[trigger] old(
                        self,
                    ).clients@[k]).tail_len < usize::MAX,
                forall|k: int| i <= k < n ==> #[trigger] self.clients@[k] == old(self).clients@[k],
                forall|k: int|
                    0 <= k < i ==> client_moved(
                        old(self).clients@,
                        old(self).apples@,
                        #[trigger] self.clients@[k],
                        k,
                        w,
                        h,
                    ),
                ate == exists|k: int|
                    0 <= k < i && eats_apple(old(self).clients@, old(self).apples@, k, w, h),
            decreases n - i,
        {
            let ghost pre_cs = old(self).clients@;
            let p = self.clients[i].position;
            let d = self.clients[i].direction;
            proof {
                assert(old(self).clients@[i as int].fits(w, h));
            }
            self.clients[i].tail.push_front(p);
            let tl = self.clients[i].tail_len;
            if self.clients[i].tail.len() > tl {
                self.clients[i].tail.pop_back();
                proof {
                    let pushed = seq![pre_cs[i as int].position] + pre_cs[i as int].tail@;
                    assert(pushed.drop_last() =~= pushed.take(tl as int));
                }
            }
            proof {
                assert(self.clients@[i as int].tail@ == shifted_tail(pre_cs, i as int));
            }
            let np = step_position(p, d, w, h);
            self.clients[i].position = np;
            let ghost mid_cs = self.clients@;
            if self.apple_at(np) && !self.landed_before(i, np) {
                proof {
                    assert forall|j: int|
                        0 <= j < i implies moved_pos(pre_cs, j, w, h) != moved_pos(
                        pre_cs,
                        i as int,
                        w,
                        h,
                    ) by {
                        assert(mid_cs[j].position == moved_pos(pre_cs, j, w, h));
                    }
                    assert(eats_apple(pre_cs, old(self).apples@, i as int, w, h));
                }
                let t = self.clients[i].tail_len;
                self.clients[i].tail_len = t + 1;
                ate = true;
            } else {
                proof {
                    if old(self).apples@.contains(np) {
                        let j = choose|j: int|
                            0 <= j < i && (#[trigger] mid_cs[j]).position == np;
                        assert(moved_pos(pre_cs, j, w, h) == np);
                        assert(!eats_apple(pre_cs, old(self).apples@, i as int, w, h));
                    }
                }
            }
            proof {
                assert(client_moved(
                    pre_cs,
                    old(self).apples@,
                    self.clients@[i as int],
                    i as int,
                    w,
                    h,
                ));
                assert forall|k: int|
                    0 <= k < i + 1 implies client_moved(
                    pre_cs,
                    old(self).apples@,
                    #[trigger] self.clients@[k],
                    k,
                    w,
                    h,
                ) by {}
            }
            i = i + 1;
        }
        proof {
            assert forall|a: int, b: int|
                0 <= a < b < self.clients@.len() implies (#[trigger] self.clients@[a]).id < (
            #[trigger] self.clients@[b]).id && self.clients@[a].conn != self.clients@[b].conn by {
                assert(client_moved(old(self).clients@, old(self).apples@, self.clients@[a], a, w, h));
                assert(client_moved(old(self).clients@, old(self).apples@, self.clients@[b], b, w, h));
            }
            assert forall|a: int|
                0 <= a < self.clients@.len() implies (#[trigger] self.clients@[a]).fits(w, h)
                && self.clients@[a].id < self.id_counter by {
                assert(client_moved(old(self).clients@, old(self).apples@, self.clients@[a], a, w, h));
                assert(old(self).clients@[a].fits(w, h));
                let st = shifted_tail(old(self).clients@, a);
                assert forall|k: int| 0 <= k < st.len() implies in_grid(#[trigger] st[k], w, h) by {
                    let pushed = seq![old(self).clients@[a].position] + old(self).clients@[a].tail@;
                    assert(st[k] == pushed[k]);
                    if k > 0 {
                        assert(pushed[k] == old(self).clients@[a].tail@[k - 1]);
                    }
                }
            }
        }
        ate
    }

    /// Rebuild the grid from scratch: all cells empty, then the apple
    /// cells, then every head in ascending id order (a head always
    /// overwrites), then tail cells into still-empty cells only (the first
    /// tail to claim a cell wins). Clients are read as already moved.
    fn rebuild_grid(&mut self)
        requires
            old(self).wf(),
        ensures
            final(self).wf(),
            *final(self) == (Game { map: final(self).map, ..*old(self) }),
            forall|q: (usize, usize)|
                in_grid(q, old(self).width(), old(self).height()) ==> final(self).map@[#[trigger] cell_index(
                    q,
                    old(self).width(),
                )] == grid_cell_now(old(self).clients@, old(self).apples@, q),
    {
        let w = self.map_size.0;
        let h = self.map_size.1;
        let ghost cs = old(self).clients@;
        let ghost apples = old(self).apples@;
        self.map = empty_grid(w, h);
        proof {
            assert forall|q: (usize, usize)|
                in_grid(q, w, h) implies self.map@[#[trigger] cell_index(q, w)]
                == MapPiece::Empty by {
                lemma_cell_index_bounds(q, w, h);
            }
        }
        let na = self.apples.len();
        let mut a: usize = 0;
        while a < na
            invariant
                old(self).wf(),
                *self == (Game { map: self.map, ..*old(self) }),
                w == old(self).width(),
                h == old(self).height(),
                apples == old(self).apples@,
                na == apples.len(),
                a <= na,
                self.map@.len() == w * h,
                forall|q: (usize, usize)|
                    in_grid(q, w, h) ==> self.map@[#[trigger] cell_index(q, w)] == (
                    if apples.take(a as int).contains(q) {
                        MapPiece::Apple
                    } else {
                        MapPiece::Empty
                    }),
            decreases na - a,
        {
            let ap = self.apples[a];
            proof {
                lemma_cell_index_bounds(ap, w, h);
            }
            let idx = ap.0 + ap.1 * w;
            self.map.set(idx, MapPiece::Apple);
            proof {
                assert(apples.take(a + 1).drop_last() =~= apples.take(a as int));
                assert forall|q: (usize, usize)|
                    in_grid(q, w, h) implies self.map@[#[trigger] cell_index(q, w)] == (
                if apples.take(a + 1).contains(q) {
                    MapPiece::Apple
                } else {
                    MapPiece::Empty
                }) by {
                    lemma_cell_index_bounds(q, w, h);
                    lemma_cell_index_bounds(ap, w, h);
                    if q != ap {
                        lemma_cell_index_injective(q, ap, w, h);
                        assert(apples.take(a + 1).contains(q) == apples.take(a as int).contains(
                            q,
                        )) by {
                            if apples.take(a + 1).contains(q) {
                                let x = choose|x: int|
                                    0 <= x < a + 1 && #[trigger] apples.take(a + 1)[x] == q;
                                assert(apples.take(a as int)[x] == q);
                            } else if apples.take(a as int).contains(q) {
                                let x = choose|x: int|
                                    0 <= x < a && #[trigger] apples.take(a as int)[x] == q;
                                assert(apples.take(a + 1)[x] == q);
                            }
                        }
                    } else {
                        assert(apples.take(a + 1)[a as int] == q);
                    }
                }
            }
            a = a + 1;
        }
        proof {
            assert(apples.take(na as int) =~= apples);
        }
        let n = self.clients.len();
        let mut i: usize = 0;
        while i < n
            invariant
                old(self).wf(),
                *self == (Game { map: self.map, ..*old(self) }),
                w == old(self).width(),
                h == old(self).height(),
                cs == old(self).clients@,
                apples == old(self).apples@,
                n == cs.len(),
                i <= n,
                self.map@.len() == w * h,
                forall|q: (usize, usize)|
                    in_grid(q, w, h) ==> self.map@[#[trigger] cell_index(q, w)] == ({
                        let lh = head_at_before(cs, i as int, q);
                        if lh >= 0 {
                            MapPiece::SnakeHead(cs[lh].id)
                        } else if apples.contains(q) {
                            MapPiece::Apple
                        } else {
                            MapPiece::Empty
                        }
                    }),
            decreases n - i,
        {
            let hp = self.clients[i].position;
            proof {
                assert(old(self).clients@[i as int].fits(w, h));
                lemma_cell_index_bounds(hp, w, h);
            }
            let idx = hp.0 + hp.1 * w;
            let cid = self.clients[i].id;
            self.map.set(idx, MapPiece::SnakeHead(cid));
            proof {
                assert forall|q: (usize, usize)|
                    in_grid(q, w, h) implies self.map@[#[trigger] cell_index(q, w)] == ({
                    let lh = head_at_before(cs, i + 1, q);
                    if lh >= 0 {
                        MapPiece::SnakeHead(cs[lh].id)
                    } else if apples.contains(q) {
                        MapPiece::Apple
                    } else {
                        MapPiece::Empty
                    }
                }) by {
                    lemma_cell_index_bounds(q, w, h);
                    lemma_cell_index_bounds(hp, w, h);
                    lemma_cell_index_injective(q, hp, w, h);
                }
            }
            i = i + 1;
        }
        let mut i: usize = 0;
        while i < n
            invariant
                old(self).wf(),
                *self == (Game { map: self.map, ..*old(self) }),
                w == old(self).width(),
                h == old(self).height(),
                cs == old(self).clients@,
                apples == old(self).apples@,
                n == cs.len(),
                i <= n,
                self.map@.len() == w * h,
                forall|q: (usize, usize)|
                    in_grid(q, w, h) ==> self.map@[#[trigger] cell_index(q, w)] == tail_paint_cell(
                        cs,
                        apples,
                        i as int,
                        0,
                        q,
                    ),
            decreases n - i,
        {
            let t = self.clients[i].tail.len();
            let mut m: usize = 0;
            while m < t
                invariant
                    old(self).wf(),
                    *self == (Game { map: self.map, ..*old(self) }),
                    w == old(self).width(),
                    h == old(self).height(),
                    cs == old(self).clients@,
                    apples == old(self).apples@,
                    n == cs.len(),
                    i < n,
                    t == cs[i as int].tail@.len(),
                    m <= t,
                    self.map@.len() == w * h,
                    forall|q: (usize, usize)|
                        in_grid(q, w, h) ==> self.map@[#[trigger] cell_index(q, w)]
                            == tail_paint_cell(cs, apples, i as int, m as int, q),
                decreases t - m,
            {
                let cell = *(&self.clients[i].tail[m]);
                proof {
                    assert(old(self).clients@[i as int].fits(w, h));
                    assert(in_grid(cell, w, h));
                    lemma_cell_index_bounds(cell, w, h);
                    assert(cs[i as int].tail@.take(m + 1).drop_last() =~= cs[i as int].tail@.take(
                        m as int,
                    ));
                }
                let idx = cell.0 + cell.1 * w;
                let is_empty = match self.map[idx] {
                    MapPiece::Empty => true,
                    _ => false,
                };
                if is_empty {
                    let cid = self.clients[i].id;
                    self.map.set(idx, MapPiece::Snake(cid));
                }
                proof {
                    let tl = cs[i as int].tail@;
                    assert forall|q: (usize, usize)|
                        in_grid(q, w, h) implies self.map@[#[trigger] cell_index(q, w)]
                        == tail_paint_cell(cs, apples, i as int, m + 1, q) by {
                        lemma_cell_index_bounds(q, w, h);
                        lemma_cell_index_bounds(cell, w, h);
                        assert(tl.take(m + 1)[m as int] == cell);
                        if q != cell {
                            lemma_cell_index_injective(q, cell, w, h);
                            assert(tl.take(m + 1).contains(q) == tl.take(m as int).contains(
                                q,
                            )) by {
                                if tl.take(m + 1).contains(q) {
                                    let x = choose|x: int| 0 <= x < m + 1 && #[trigger] tl.take(m + 1)[x] == q;
                                    assert(x < m);
                                    assert(tl.take(m as int)[x] == q);
                                } else if tl.take(m as int).contains(q) {
                                    let x = choose|x: int| 0 <= x < m && #[trigger] tl.take(m as int)[x] == q;
                                    assert(tl.take(m + 1)[x] == q);
                                }
                            }
                        } else {
                            if tl.take(m as int).contains(q) {
                                let x = choose|x: int| 0 <= x < m && #[trigger] tl.take(m as int)[x] == q;
                                assert(tl.take(m + 1)[x] == q);
                            }
                            assert(tl.take(m + 1).contains(q));
                        }
                    }
                }
                m = m + 1;
            }
            proof {
                let tl = cs[i as int].tail@;
                assert(tl.take(t as int) =~= tl);
                assert forall|q: (usize, usize)|
                    in_grid(q, w, h) implies tail_paint_cell(cs, apples, i as int, t as int, q)
                    == tail_paint_cell(cs, apples, i + 1, 0, q) by {
                    assert(tail_at_before(cs, i + 1, q) == (if tail_at_before(cs, i as int, q)
                        >= 0 {
                        tail_at_before(cs, i as int, q)
                    } else if cs[i as int].tail@.contains(q) {
                        i as int
                    } else {
                        -1int
                    }));
                }
            }
            i = i + 1;
        }
    }

    /// The per-client death flags of this tick, in the fixed ascending-id
    /// order, read off the already-moved client states.
    fn find_dead(&self) -> (dead: Vec<bool>)
        ensures
            dead@.len() == self.clients@.len(),
            forall|i: int| 0 <= i < dead@.len() ==> dead@[i] == dies_now(self.clients@, i),
    {
        let n = self.clients.len();
        let mut dead: Vec<bool> = Vec::new();
        let mut i: usize = 0;
        while i < n
            invariant
                n == self.clients@.len(),
                i <= n,
                dead@.len() == i,
                forall|k: int| 0 <= k < i ==> dead@[k] == dies_now(self.clients@, k),
            decreases n - i,
        {
            let pi = self.clients[i].position;
            let mut d = false;
            let mut j: usize = 0;
            while j < n
                invariant
                    n == self.clients@.len(),
                    i < n,
                    j <= n,
                    pi == self.clients@[i as int].position,
                    d == exists|x: int|
                        0 <= x < j && x != i && ((#[trigger] self.clients@[x]).position == pi
                            || self.clients@[x].tail@.contains(pi)),
                decreases n - j,
            {
                if j != i {
                    let pj = self.clients[j].position;
                    if pj.0 == pi.0 && pj.1 == pi.1 {
                        d = true;
                    } else if tail_has(&self.clients[j], pi) {
                        d = true;
                    }
                }
                j = j + 1;
            }
            dead.push(d);
            i = i + 1;
        }
        dead
    }

    /// Respawn every client marked dead this tick: a fresh uniformly
    /// random cell, chosen without re-validating against other clients, a
    /// cleared tail, target tail length 2 again, and one more death.
    fn respawn_dead(&mut self, dead: &Vec<bool>)
        requires
            old(self).wf(),
            dead@.len() == old(self).clients@.len(),
            forall|i: int|
                0 <= i < old(self).clients@.len() ==> (#[trigger] old(self).clients@[i]).death
                    < usize::MAX,
        ensures
            final(self).wf(),
            final(self).clients@.len() == old(self).clients@.len(),
            forall|i: int|
                0 <= i < old(self).clients@.len() ==> if dead@[i] {
                    respawned_after(
                        old(self).clients@,
                        #[trigger] final(self).clients@[i],
                        i,
                        old(self).width(),
                        old(self).height(),
                    )
                } else {
                    final(self).clients@[i] == old(self).clients@[i]
                },
            *final(self) == (Game { clients: final(self).clients, ..*old(self) }),
    {
        let w = self.map_size.0;
        let h = self.map_size.1;
        let n = self.clients.len();
        let mut i: usize = 0;
        while i < n
            invariant
                old(self).wf(),
                *self == (Game { clients: self.clients, ..*old(self) }),
                w == old(self).width(),
                h == old(self).height(),
                n == self.clients@.len(),
                n == old(self).clients@.len(),
                dead@.len() == n,
                i <= n,
                forall|k: int|
                    0 <= k < old(self).clients@.len() ==> (#[trigger] old(
                        self,
                    ).clients@[k]).death < usize::MAX,
                forall|k: int| i <= k < n ==> #[trigger] self.clients@[k] == old(self).clients@[k],
                forall|k: int|
                    0 <= k < i ==> if dead@[k] {
                        respawned_after(
                            old(self).clients@,
                            #[trigger] self.clients@[k],
                            k,
                            w,
                            h,
                        )
                    } else {
                        self.clients@[k] == old(self).clients@[k]
                    },
            decreases n - i,
        {
            if dead[i] {
                self.clients[i].position = (random_below(w), random_below(h));
                self.clients[i].tail_len = 2;
                self.clients[i].tail.clear();
                let dth = self.clients[i].death;
                self.clients[i].death = dth + 1;
            }
            i = i + 1;
        }
        proof {
            assert forall|a: int, b: int|
                0 <= a < b < self.clients@.len() implies (#[trigger] self.clients@[a]).id < (
            #[trigger] self.clients@[b]).id && self.clients@[a].conn != self.clients@[b].conn by {
                assert(self.clients@[a].id == old(self).clients@[a].id);
                assert(self.clients@[b].id == old(self).clients@[b].id);
                assert(self.clients@[a].conn == old(self).clients@[a].conn);
                assert(self.clients@[b].conn == old(self).clients@[b].conn);
            }
            assert forall|a: int|
                0 <= a < self.clients@.len() implies (#[trigger] self.clients@[a]).fits(
                self.width(),
                self.height(),
            ) && self.clients@[a].id < self.id_counter by {
                assert(old(self).clients@[a].fits(self.width(), self.height()));
                assert(self.clients@[a].id == old(self).clients@[a].id);
            }
        }
    }

    /// The spectator frame: the current grid, its dimensions, and for
    /// every client its name, position, target tail length, death count
    /// and id, in ascending id order.
    fn watch_update(&self) -> (u: WatchUpdate)
        ensures
            u.map@ == self.map@,
            u.map_size == self.map_size,
            u.clients@.len() == self.clients@.len(),
            forall|i: int|
                0 <= i < self.clients@.len() ==> {
                    let p = #[trigger] u.clients@[i];
                    let c = self.clients@[i];
                    &&& p.name == c.name
                    &&& p.position == c.position
                    &&& p.tail_len == c.tail_len
                    &&& p.death == c.death
                    &&& p.id == c.id
                },
    {
        let n = self.clients.len();
        let mut players: Vec<PlayerData> = Vec::new();
        let mut i: usize = 0;
        while i < n
            invariant
                n == self.clients@.len(),
                i <= n,
                players@.len() == i,
                forall|k: int|
                    0 <= k < i ==> {
                        let p = #[trigger] players@[k];
                        let c = self.clients@[k];
                        &&& p.name == c.name
                        &&& p.position == c.position
                        &&& p.tail_len == c.tail_len
                        &&& p.death == c.death
                        &&& p.id == c.id
                    },
            decreases n - i,
        {
            let c = &self.clients[i];
            players.push(PlayerData {
                name: c.name.clone(),
                position: c.position,
                tail_len: c.tail_len,
                death: c.death,
                id: c.id,
            });
            i = i + 1;
        }
        WatchUpdate { map: copy_grid(&self.map), map_size: self.map_size, clients: players }
    }

    /// One full simulation step, in order: advance the tick counter, move
    /// every client (tails shift, heads step toroidally, apples eaten),
    /// rebuild the grid from scratch, respawn one replacement apple if any
    /// was eaten, detect collisions on the moved state, respawn the dead,
    /// and build the spectator frame.
    pub fn handle_tick(&mut self) -> (u: WatchUpdate)
        requires
            old(self).wf(),
            old(self).tick < usize::MAX,
            forall|i: int|
                0 <= i < old(self).clients@.len() ==> (#[trigger] old(
                    self,
                ).clients@[i]).tail_len < usize::MAX && old(self).clients@[i].death < usize::MAX,
        ensures
            final(self).wf(),
            tick_outcome(*old(self), *final(self), u),
    {
        let ghost cs = old(self).clients@;
        let ghost apples = old(self).apples@;
        let w = self.map_size.0;
        let h = self.map_size.1;
        let t = self.tick;
        self.tick = t + 1;
        let ate = self.move_clients();
        let ghost moved = self.clients@;
        self.rebuild_grid();
        proof {
            assert forall|q: (usize, usize)|
                in_grid(q, w, h) implies self.map@[#[trigger] cell_index(q, w)] == grid_cell(
                cs,
                apples,
                q,
                w,
                h,
            ) by {
                lemma_head_congruent(cs, moved, apples, cs.len() as int, q, w, h);
                lemma_tail_congruent(cs, moved, apples, cs.len() as int, q, w, h);
                let lh = last_head_before(cs, cs.len() as int, q, w, h);
                if lh >= 0 {
                    lemma_last_head_in_range(cs, cs.len() as int, q, w, h);
                    assert(client_moved(cs, apples, moved[lh], lh, w, h));
                } else {
                    let ft = first_tail_before(cs, cs.len() as int, q, w, h);
                    if ft >= 0 {
                        lemma_first_tail_in_range(cs, cs.len() as int, q, w, h);
                        assert(client_moved(cs, apples, moved[ft], ft, w, h));
                    }
                }
            }
        }
        if ate {
            self.spawn_apple(1);
            proof {
                assert(some_apple_eaten(cs, apples, w, h));
                assert forall|k: int|
                    0 <= k < self.apples@.len() implies !apple_blocked_after_move(
                    cs,
                    #[trigger] self.apples@[k],
                    w,
                    h,
                ) by {
                    if apple_blocked_after_move(cs, self.apples@[k], w, h) {
                        let x = choose|x: int|
                            0 <= x < cs.len() && (#[trigger] moved_pos(cs, x, w, h)
                                == self.apples@[k] || shifted_tail(cs, x).contains(
                                self.apples@[k],
                            ));
                        assert(client_moved(cs, apples, moved[x], x, w, h));
                        assert(moved[x].position == moved_pos(cs, x, w, h));
                        assert(moved[x].tail@ == shifted_tail(cs, x));
                    }
                }
            }
        }
        let dead = self.find_dead();
        proof {
            assert forall|i: int|
                0 <= i < cs.len() implies dead@[i] == dies(cs, i, w, h) by {
                assert(client_moved(cs, apples, moved[i], i, w, h));
                if dies_now(moved, i) {
                    let j = choose|j: int|
                        0 <= j < moved.len() && j != i && ((#[trigger] moved[j]).position
                            == moved[i].position || moved[j].tail@.contains(moved[i].position));
                    assert(client_moved(cs, apples, moved[j], j, w, h));
                    assert(moved_pos(cs, j, w, h) == moved[j].position);
                    assert(dies(cs, i, w, h));
                }
                if dies(cs, i, w, h) {
                    let j = choose|j: int|
                        0 <= j < cs.len() && j != i && (#[trigger] moved_pos(cs, j, w, h)
                            == moved_pos(cs, i, w, h) || shifted_tail(cs, j).contains(
                            moved_pos(cs, i, w, h),
                        ));
                    assert(0 <= j < cs.len() && j != i);
                    assert(moved_pos(cs, j, w, h) == moved_pos(cs, i, w, h) || shifted_tail(
                        cs,
                        j,
                    ).contains(moved_pos(cs, i, w, h)));
                    assert(client_moved(cs, apples, moved[j], j, w, h));
                    assert(moved[j].position == moved_pos(cs, j, w, h));
                    assert(dies_now(moved, i));
                }
            }
        }
        self.respawn_dead(&dead);
        proof {
            assert forall|i: int|
                0 <= i < cs.len() implies (if dies(cs, i, w, h) {
                respawned_after(cs, #[trigger] self.clients@[i], i, w, h)
            } else {
                client_moved(cs, apples, self.clients@[i], i, w, h)
            }) by {
                assert(client_moved(cs, apples, moved[i], i, w, h));
                if dies(cs, i, w, h) {
                    assert(respawned_after(moved, self.clients@[i], i, w, h));
                } else {
                    assert(self.clients@[i] == moved[i]);
                }
            }
        }
        proof {
            if ate {
                assert(self.apples@.len() <= 1);
                assert forall|k: int|
                    0 <= k < self.apples@.len() implies in_grid(#[trigger] self.apples@[k], w, h)
                    && !apple_blocked_after_move(cs, self.apples@[k], w, h) by {}
            } else {
                assert(self.apples@ == apples);
            }
        }
        let u = self.watch_update();
        u
    }

    /// The broadcast phase that opens every tick: mint one identifier from
    /// the ring, shrink the tick interval toward its floor, build one
    /// personalized frame per client carrying the previous tick's grid,
    /// and reset every per-tick message counter.
    pub fn prepare_broadcast(&mut self) -> (ts: TickStart)
        requires
            old(self).wf(),
        ensures
            final(self).wf(),
            broadcast_post(*old(self), *final(self), ts),
    {
        let tick_id = self.tb.next();
        proof {
            assert(self.wf());
        }
        self.speedup();
        let interval_ms = self.interval_ms;
        let ghost tb_after = self.tb;
        let n = self.clients.len();
        let mut frames: Vec<(u64, ServerMessage)> = Vec::new();
        let mut i: usize = 0;
        while i < n
            invariant
                old(self).wf(),
                self.tb == tb_after,
                tb_after.wf(),
                tb_after.slots().len() == 50,
                tb_after.cursor() == (old(self).tb.cursor() + 1) % 50int,
                forall|k: int|
                    0 <= k < 50 && k != tb_after.cursor() ==> tb_after.slots()[k] == old(
                        self,
                    ).tb.slots()[k],
                tick_id == old(self).tb.slots()[old(self).tb.cursor()],
                self.interval_ms == (if old(self).interval_ms > 200 {
                    (old(self).interval_ms - 10) as u64
                } else {
                    old(self).interval_ms
                }),
                interval_ms == self.interval_ms,
                *self == (Game {
                    tb: self.tb,
                    interval_ms: self.interval_ms,
                    clients: self.clients,
                    ..*old(self)
                }),
                n == self.clients@.len(),
                n == old(self).clients@.len(),
                i <= n,
                frames@.len() == i,
                forall|k: int|
                    i <= k < n ==> #[trigger] self.clients@[k] == old(self).clients@[k],
                forall|k: int|
                    0 <= k < i ==> #[trigger] self.clients@[k] == (ClientInfo {
                        msg_count: 0,
                        ..old(self).clients@[k]
                    }),
                forall|k: int|
                    0 <= k < i ==> (#[trigger] frames@[k]).0 == old(self).clients@[k].conn,
                forall|k: int|
                    0 <= k < i ==> ((#[trigger] frames@[k]).1 matches ServerMessage::Tick {
                        map,
                        map_size,
                        your_position,
                        your_direction,
                    } && map@ == old(self).map@ && map_size == old(self).map_size && your_position
                        == old(self).clients@[k].position && your_direction == old(
                        self,
                    ).clients@[k].direction),
            decreases n - i,
        {
            let frame = ServerMessage::Tick {
                map: copy_grid(&self.map),
                map_size: self.map_size,
                your_position: self.clients[i].position,
                your_direction: self.clients[i].direction,
            };
            let conn = self.clients[i].conn;
            frames.push((conn, frame));
            self.clients[i].msg_count = 0;
            i = i + 1;
        }
        TickStart { tick_id, interval_ms, frames }
    }

    /// Drop every client whose outbound send failed during the broadcast;
    /// the runtime reports their connections after delivering the frames.
    pub fn remove_failed(&mut self, failed: &Vec<u64>)
        requires
            old(self).wf(),
        ensures
            final(self).wf(),
            final(self).clients@ == without_failed(old(self).clients@, failed@),
            *final(self) == (Game { clients: final(self).clients, ..*old(self) }),
    {
        let ghost pre = self.clients@;
        let mut p: usize = 0;
        let mut i: usize = 0;
        let n = self.clients.len();
        while p < n
            invariant
                old(self).wf(),
                *self == (Game { clients: self.clients, ..*old(self) }),
                pre == old(self).clients@,
                n == pre.len(),
                p <= n,
                i as int == without_failed(pre.take(p as int), failed@).len(),
                self.clients@ =~= without_failed(pre.take(p as int), failed@) + pre.skip(
                    p as int,
                ),
            decreases n - p,
        {
            proof {
                assert(pre.take(p + 1).drop_last() =~= pre.take(p as int));
                reveal_with_fuel(Seq::filter, 2);
                assert(self.clients@[i as int] == pre[p as int]);
            }
            if contains_u64(failed, self.clients[i].conn) {
                self.clients.remove(i);
                proof {
                    assert(self.clients@ =~= without_failed(pre.take(p + 1), failed@) + pre.skip(
                        p + 1,
                    ));
                }
            } else {
                i = i + 1;
                proof {
                    assert(without_failed(pre.take(p + 1), failed@) =~= without_failed(
                        pre.take(p as int),
                        failed@,
                    ).push(pre[p as int]));
                    assert(self.clients@ =~= without_failed(pre.take(p + 1), failed@) + pre.skip(
                        p + 1,
                    ));
                }
            }
            p = p + 1;
        }
        proof {
            assert(pre.take(n as int) =~= pre);
            assert(self.clients@ =~= without_failed(pre, failed@));
            broadcast use vstd::seq_lib::group_filter_ensures;

            lemma_filter_clients(pre, |c: ClientInfo| !failed@.contains(c.conn));
            let post = self.clients@;
            assert forall|a: int, b: int|
                0 <= a < b < post.len() implies (#[trigger] post[a]).id < (#[trigger] post[b]).id
                && post[a].conn != post[b].conn by {
                let (x, y) = choose|x: int, y: int|
                    0 <= x < y < pre.len() && (#[trigger] pre[x]) == post[a] && (
                    #[trigger] pre[y]) == post[b];
            }
            assert forall|a: int|
                0 <= a < post.len() implies (#[trigger] post[a]).fits(self.width(), self.height())
                && post[a].id < self.id_counter by {
                let x = choose|x: int| 0 <= x < pre.len() && pre[x] == post[a];
            }
        }
    }

    /// The registered watcher connections, for the runtime to broadcast a
    /// spectator frame to.
    pub fn watcher_list(&self) -> (ws: Vec<u64>)
        ensures
            ws@ == self.watchers@,
    {
        let n = self.watchers.len();
        let mut ws: Vec<u64> = Vec::new();
        let mut i: usize = 0;
        while i < n
            invariant
                n == self.watchers@.len(),
                i <= n,
                ws@ == self.watchers@.take(i as int),
            decreases n - i,
        {
            ws.push(self.watchers[i]);
            proof {
                assert(ws@ =~= self.watchers@.take(i + 1));
            }
            i = i + 1;
        }
        proof {
            assert(self.watchers@.take(n as int) =~= self.watchers@);
        }
        ws
    }

    /// Whether the lobby is idle: no clients and no watchers. An idle
    /// lobby waits out a grace period and then reports termination to the
    /// registry instead of ticking on.
    pub fn is_idle(&self) -> (r: bool)
        ensures
            r == (self.clients@.len() == 0 && self.watchers@.len() == 0),
    {
        self.clients.len() == 0 && self.watchers.len() == 0
    }

    /// Consume one event of the engine's three-way wait. A join registers
    /// a client and reports its id; a watch registers a watcher; an input
    /// is counted and possibly applied; the tick timer opens the broadcast
    /// phase, whose frames the runtime delivers before it asks for the
    /// simulation step.
    pub fn tick(&mut self, event: GameEvent) -> (act: TickAction)
        requires
            old(self).wf(),
            event matches GameEvent::Join { .. } ==> old(self).id_counter < usize::MAX && old(
                self,
            ).clients@.len() < old(self).width() * old(self).height(),
            event matches GameEvent::Input { .. } ==> forall|i: int|
                0 <= i < old(self).clients@.len() ==> (#[trigger] old(
                    self,
                ).clients@[i]).msg_count < usize::MAX,
        ensures
            final(self).wf(),
            match event {
                GameEvent::Join { conn, name } => (act matches TickAction::Joined { client_id }
                    && join_post(*old(self), *final(self), conn, name@, client_id)),
                GameEvent::Watch { conn } => act == TickAction::Watching && watch_post(
                    *old(self),
                    *final(self),
                    conn,
                ),
                GameEvent::Input { conn, msg } => (act matches TickAction::Heard { outcome }
                    && input_post(*old(self), *final(self), conn, msg, outcome)),
                GameEvent::Timer => (act matches TickAction::Broadcast { start }
                    && broadcast_post(*old(self), *final(self), start)),
            },
    {
        match event {
            GameEvent::Join { conn, name } => {
                let client_id = self.join(conn, name);
                TickAction::Joined { client_id }
            },
            GameEvent::Watch { conn } => {
                self.watch(conn);
                TickAction::Watching
            },
            GameEvent::Input { conn, msg } => {
                let outcome = self.handle_message(conn, msg);
                TickAction::Heard { outcome }
            },
            GameEvent::Timer => {
                let start = self.prepare_broadcast();
                TickAction::Broadcast { start }
            },
        }
    }

    /// Admit a player: assign the next client id, pick an unoccupied start
    /// cell and a random initial facing, and register the client with an
    /// empty tail, target tail length 2 and no deaths, replacing any
    /// earlier client on the same connection. Returns the assigned id.
    pub fn join(&mut self, conn: u64, name: String) -> (cid: usize)
        requires
            old(self).wf(),
            old(self).id_counter < usize::MAX,
            old(self).clients@.len() < old(self).width() * old(self).height(),
        ensures
            final(self).wf(),
            join_post(*old(self), *final(self), conn, name@, cid),
    {
        let position = self.find_free_cell();
        self.remove_conn(conn);
        let direction = Direction::from(random_below(4));
        let cid = self.id_counter;
        let nc = ClientInfo {
            id: cid,
            name,
            msg_count: 0,
            position,
            direction,
            tail: VecDeque::new(),
            tail_len: 2,
            death: 0,
            conn,
        };
        proof {
            broadcast use vstd::seq_lib::group_filter_ensures;

            lemma_filter_clients(old(self).clients@, |c: ClientInfo| c.conn != conn);
        }
        self.clients.push(nc);
        self.id_counter = cid + 1;
        proof {
            assert(self.clients@.drop_last() =~= without_conn(old(self).clients@, conn));
            let kept = without_conn(old(self).clients@, conn);
            assert forall|a: int, b: int|
                0 <= a < b < self.clients@.len() implies (#[trigger] self.clients@[a]).id < (
            #[trigger] self.clients@[b]).id && self.clients@[a].conn != self.clients@[b].conn by {
                if b < self.clients@.len() - 1 {
                    assert(self.clients@[a] == kept[a] && self.clients@[b] == kept[b]);
                } else {
                    assert(self.clients@[b] == nc);
                    assert(self.clients@[a] == kept[a]);
                    let w = choose|w: int|
                        0 <= w < old(self).clients@.len() && old(self).clients@[w] == kept[a];
                }
            }
            assert forall|a: int|
                0 <= a < self.clients@.len() implies (#[trigger] self.clients@[a]).fits(
                self.width(),
                self.height(),
            ) && self.clients@[a].id < self.id_counter by {
                if a < self.clients@.len() - 1 {
                    assert(self.clients@[a] == kept[a]);
                    let w = choose|w: int|
                        0 <= w < old(self).clients@.len() && old(self).clients@[w] == kept[a];
                }
            }
        }
        cid
    }
}

/// Every element a filter keeps is an element of the original sequence,
/// and any two kept elements come from two positions in their original
/// order.
proof fn lemma_filter_clients(s: Seq<ClientInfo>, pred: spec_fn(ClientInfo) -> bool)
    ensures
        forall|i: int| 0 <= i < s.filter(pred).len() ==> s.contains(#[trigger] s.filter(pred)[i]),
        forall|i: int, j: int|
            0 <= i < j < s.filter(pred).len() ==> exists|a: int, b: int|
                0 <= a < b < s.len() && s[a] == #[trigger] s.filter(pred)[i] && s[b]
                    == #[trigger] s.filter(pred)[j],
    decreases s.len(),
{
    reveal(Seq::filter);
    if s.len() > 0 {
        let prefix = s.drop_last();
        let f = s.filter(pred);
        let fp = prefix.filter(pred);
        lemma_filter_clients(prefix, pred);
        assert forall|i: int| 0 <= i < f.len() implies s.contains(#[trigger] f[i]) by {
            if pred(s.last()) && i == f.len() - 1 {
                assert(f[i] == s[s.len() - 1]);
            } else {
                assert(f[i] == fp[i]);
                let w = choose|w: int| 0 <= w < prefix.len() && prefix[w] == fp[i];
                assert(s[w] == f[i]);
            }
        }
        assert forall|i: int, j: int| #![trigger f[i], f[j]] 0 <= i < j < f.len() implies exists|
            a: int,
            b: int,
        |
            0 <= a < b < s.len() && (#[trigger] s[a]) == f[i] && (#[trigger] s[b]) == f[j] by {
            if pred(s.last()) && j == f.len() - 1 {
                assert(f[i] == fp[i]);
                let a = choose|a: int| 0 <= a < prefix.len() && prefix[a] == fp[i];
                assert(s[a] == f[i] && s[s.len() - 1] == f[j]);
            } else {
                assert(f[i] == fp[i] && f[j] == fp[j]);
                let (a, b) = choose|a: int, b: int|
                    0 <= a < b < prefix.len() && prefix[a] == fp[i] && prefix[b] == fp[j];
                assert(s[a] == f[i] && s[b] == f[j]);
            }
        }
    }
}

/// Toroidal wrap at every boundary: a step past coordinate 0 comes out at
/// the far edge of that axis, and a step past the far edge comes out at 0.
pub proof fn lemma_toroidal_wrap(p: (usize, usize), w: usize, h: usize)
    requires
        grid_ok(w, h),
        in_grid(p, w, h),
    ensures
        p.0 == 0 ==> step_spec(p, Direction::Left, w, h) == (((w - 1) as usize, p.1)),
        p.0 == w - 1 ==> step_spec(p, Direction::Right, w, h) == ((0usize, p.1)),
        p.1 == 0 ==> step_spec(p, Direction::Up, w, h) == ((p.0, (h - 1) as usize)),
        p.1 == h - 1 ==> step_spec(p, Direction::Down, w, h) == ((p.0, 0usize)),
{
}

/// Apple growth: a surviving client whose head lands on an apple cell
/// unclaimed by any earlier client has its target tail length increased by
/// exactly one that tick, and the tick attempts to spawn exactly one
/// replacement apple in its place.
pub proof fn lemma_apple_growth(pre: Game, post: Game, u: WatchUpdate, i: int)
    requires
        tick_outcome(pre, post, u),
        0 <= i < pre.clients@.len(),
        eats_apple(pre.clients@, pre.apples@, i, pre.width(), pre.height()),
        !dies(pre.clients@, i, pre.width(), pre.height()),
    ensures
        post.clients@[i].tail_len == pre.clients@[i].tail_len + 1,
        post.apples@.len() <= 1,
        forall|k: int|
            0 <= k < post.apples@.len() ==> in_grid(
                #[trigger] post.apples@[k],
                pre.width(),
                pre.height(),
            ) && !apple_blocked_after_move(pre.clients@, post.apples@[k], pre.width(), pre.height()),
{
    assert(client_moved(
        pre.clients@,
        pre.apples@,
        post.clients@[i],
        i,
        pre.width(),
        pre.height(),
    ));
    assert(some_apple_eaten(pre.clients@, pre.apples@, pre.width(), pre.height()));
}

/// Collision symmetry, head against head: when two clients' heads land on
/// the same cell in the same tick, both die and both death counters rise
/// by exactly one.
pub proof fn lemma_head_collision_symmetric(pre: Game, post: Game, u: WatchUpdate, i: int, j: int)
    requires
        tick_outcome(pre, post, u),
        0 <= i < pre.clients@.len(),
        0 <= j < pre.clients@.len(),
        i != j,
        moved_pos(pre.clients@, i, pre.width(), pre.height()) == moved_pos(
            pre.clients@,
            j,
            pre.width(),
            pre.height(),
        ),
    ensures
        dies(pre.clients@, i, pre.width(), pre.height()),
        dies(pre.clients@, j, pre.width(), pre.height()),
        post.clients@[i].death == pre.clients@[i].death + 1,
        post.clients@[j].death == pre.clients@[j].death + 1,
{
    let w = pre.width();
    let h = pre.height();
    assert(dies(pre.clients@, i, w, h)) by {
        assert(0 <= j < pre.clients@.len() && j != i && moved_pos(pre.clients@, j, w, h)
            == moved_pos(pre.clients@, i, w, h));
    }
    assert(dies(pre.clients@, j, w, h)) by {
        assert(0 <= i < pre.clients@.len() && i != j && moved_pos(pre.clients@, i, w, h)
            == moved_pos(pre.clients@, j, w, h));
    }
    assert(respawned_after(pre.clients@, post.clients@[i], i, w, h));
    assert(respawned_after(pre.clients@, post.clients@[j], j, w, h));
}

/// Collision one-sidedness, head against tail: a client whose head lands
/// in another client's tail dies and its death counter rises by one, while
/// the tail's owner, unless it collides on its own account, keeps its
/// death counter unchanged.
pub proof fn lemma_tail_collision_one_sided(pre: Game, post: Game, u: WatchUpdate, i: int, j: int)
    requires
        tick_outcome(pre, post, u),
        0 <= i < pre.clients@.len(),
        0 <= j < pre.clients@.len(),
        i != j,
        shifted_tail(pre.clients@, j).contains(
            moved_pos(pre.clients@, i, pre.width(), pre.height()),
        ),
        !dies(pre.clients@, j, pre.width(), pre.height()),
    ensures
        dies(pre.clients@, i, pre.width(), pre.height()),
        post.clients@[i].death == pre.clients@[i].death + 1,
        post.clients@[j].death == pre.clients@[j].death,
{
    let w = pre.width();
    let h = pre.height();
    assert(dies(pre.clients@, i, w, h)) by {
        assert(0 <= j < pre.clients@.len() && j != i && shifted_tail(pre.clients@, j).contains(
            moved_pos(pre.clients@, i, w, h),
        ));
    }
    assert(respawned_after(pre.clients@, post.clients@[i], i, w, h));
    assert(client_moved(
        pre.clients@,
        pre.apples@,
        post.clients@[j],
        j,
        w,
        h,
    ));
}

/// A freshly allocated all-empty grid of the given dimensions.
fn empty_grid(w: usize, h: usize) -> (g: Grid)
    requires
        grid_ok(w, h),
    ensures
        g@.len() == w * h,
        forall|k: int| 0 <= k < g@.len() ==> g@[k] == MapPiece::Empty,
{
    let total = w * h;
    let mut g: Vec<MapPiece> = Vec::new();
    let mut i: usize = 0;
    while i < total
        invariant
            g@.len() == i,
            i <= total,
            forall|k: int| 0 <= k < i ==> g@[k] == MapPiece::Empty,
        decreases total - i,
    {
        g.push(MapPiece::Empty);
        i = i + 1;
    }
    g
}

/// Whether a client's stored tail covers cell `p`.
fn tail_has(c: &ClientInfo, p: (usize, usize)) -> (r: bool)
    ensures
        r == c.tail@.contains(p),
{
    let n = c.tail.len();
    let mut i: usize = 0;
    while i < n
        invariant
            n == c.tail@.len(),
            i <= n,
            forall|k: int| 0 <= k < i ==> c.tail@[k] != p,
        decreases n - i,
    {
        let cell = *(&c.tail[i]);
        if cell.0 == p.0 && cell.1 == p.1 {
            return true;
        }
        i = i + 1;
    }
    false
}

/// A cell-for-cell copy of a grid.
fn copy_grid(m: &Grid) -> (r: Grid)
    ensures
        r@ == m@,
{
    let n = m.len();
    let mut r: Vec<MapPiece> = Vec::new();
    let mut i: usize = 0;
    while i < n
        invariant
            n == m@.len(),
            i <= n,
            r@ == m@.take(i as int),
        decreases n - i,
    {
        r.push(m[i]);
        proof {
            assert(r@ =~= m@.take(i + 1));
        }
        i = i + 1;
    }
    proof {
        assert(m@.take(n as int) =~= m@);
    }
    r
}

/// Whether `v` holds `x`.
fn contains_u64(v: &Vec<u64>, x: u64) -> (r: bool)
    ensures
        r == v@.contains(x),
{
    let n = v.len();
    let mut i: usize = 0;
    while i < n
        invariant
            n == v@.len(),
            i <= n,
            forall|k: int| 0 <= k < i ==> v@[k] != x,
        decreases n - i,
    {
        if v[i] == x {
            return true;
        }
        i = i + 1;
    }
    false
}

/// When no element matches `conn`, removal by connection keeps the whole
/// sequence.
proof fn lemma_filter_keeps_all(s: Seq<ClientInfo>, conn: u64)
    requires
        forall|k: int| 0 <= k < s.len() ==> (#[trigger] s[k]).conn != conn,
    ensures
        without_conn(s, conn) == s,
    decreases s.len(),
{
    reveal(Seq::filter);
    if s.len() > 0 {
        let prefix = s.drop_last();
        lemma_filter_keeps_all(prefix, conn);
        assert(without_conn(s, conn) =~= s);
    } else {
        assert(without_conn(s, conn) =~= s);
    }
}

/// When exactly one element matches `conn`, removal by connection equals
/// removing that one index.
proof fn lemma_filter_removes_one(s: Seq<ClientInfo>, conn: u64, idx: int)
    requires
        0 <= idx < s.len(),
        s[idx].conn == conn,
        forall|k: int| 0 <= k < s.len() && k != idx ==> (#[trigger] s[k]).conn != conn,
    ensures
        without_conn(s, conn) == s.remove(idx),
    decreases s.len(),
{
    reveal(Seq::filter);
    let prefix = s.drop_last();
    if idx == s.len() - 1 {
        lemma_filter_keeps_all(prefix, conn);
        assert(s.remove(idx) =~= prefix);
    } else {
        lemma_filter_removes_one(prefix, conn, idx);
        assert(without_conn(s, conn) =~= s.remove(idx));
    }
}

/// Filtering keeps pairwise-distinct elements pairwise distinct, and every
/// kept element comes from the original sequence.
proof fn lemma_filter_keeps_distinct(s: Seq<u64>, pred: spec_fn(u64) -> bool)
    requires
        forall|i: int, j: int| 0 <= i < j < s.len() ==> s[i] != s[j],
    ensures
        forall|i: int, j: int|
            0 <= i < j < s.filter(pred).len() ==> s.filter(pred)[i] != s.filter(pred)[j],
        forall|i: int| 0 <= i < s.filter(pred).len() ==> s.contains(#[trigger] s.filter(pred)[i]),
    decreases s.len(),
{
    reveal(Seq::filter);
    if s.len() > 0 {
        let prefix = s.drop_last();
        let f = s.filter(pred);
        let fp = prefix.filter(pred);
        lemma_filter_keeps_distinct(prefix, pred);
        assert forall|i: int| 0 <= i < f.len() implies s.contains(#[trigger] f[i]) by {
            if pred(s.last()) && i == f.len() - 1 {
                assert(f[i] == s.last());
                assert(s[s.len() - 1] == s.last());
            } else {
                assert(f[i] == fp[i]);
                let w = choose|w: int| 0 <= w < prefix.len() && prefix[w] == fp[i];
                assert(s[w] == f[i]);
            }
        }
        assert forall|i: int, j: int| 0 <= i < j < f.len() implies f[i] != f[j] by {
            if pred(s.last()) && j == f.len() - 1 {
                assert(f[j] == s.last());
                assert(f[i] == fp[i]);
                let w = choose|w: int| 0 <= w < prefix.len() && prefix[w] == fp[i];
                assert(s[w] == f[i]);
                assert(s[w] != s[s.len() - 1]);
            } else {
                assert(f[i] == fp[i] && f[j] == fp[j]);
            }
        }
    }
}

} // verus!
