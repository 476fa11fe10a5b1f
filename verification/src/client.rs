//! The sample player's decision logic: reshape the flat grid of a frame
//! into rows, hunt the nearest apple with a shortest-path search over the
//! walkable cells, and derive the single rotation to send this tick.

use vstd::prelude::*;

use crate::game::{grid_ok, lemma_cell_index_bounds};
use crate::protocol::{Direction, Grid, MapPiece, TurnDirection};
use crate::rng::random_below;

verus! {

/// The grid of one frame as rows: `r[y][x]` is the cell at `(x, y)`.
pub open spec fn rows_of(m: &Vec<Vec<MapPiece>>) -> Seq<Seq<MapPiece>> {
    Seq::new(m@.len(), |i: int| m@[i]@)
}

/// One step left or up with the wrapping the bot plans with: coordinate 0
/// wraps through the integer's full range before the modulus is taken, so
/// on a 20-wide grid a step left of 0 plans for column `usize::MAX % 20`.
pub open spec fn wrap_dec(x: usize, m: usize) -> usize
    recommends
        m >= 1,
{
    if x == 0 {
        ((usize::MAX as int % m as int) as usize)
    } else {
        (((x - 1) as int % m as int) as usize)
    }
}

/// One step right or down with wrapping: past the far edge the modulus
/// brings the coordinate back below `m`.
pub open spec fn wrap_inc(x: usize, m: usize) -> usize
    recommends
        m >= 1,
{
    if x == usize::MAX {
        0usize
    } else {
        (((x + 1) as int % m as int) as usize)
    }
}

/// Executable form of `wrap_dec`.
pub fn wrap_dec_by_one(x: usize, m: usize) -> (r: usize)
    requires
        m >= 1,
    ensures
        r == wrap_dec(x, m),
        r < m,
{
    if x == 0 {
        usize::MAX % m
    } else {
        (x - 1) % m
    }
}

/// Executable form of `wrap_inc`.
pub fn wrap_inc_by_one(x: usize, m: usize) -> (r: usize)
    requires
        m >= 1,
    ensures
        r == wrap_inc(x, m),
        r < m,
{
    if x == usize::MAX {
        0 % m
    } else {
        (x + 1) % m
    }
}

/// A search node: the facing the bot would have, and the cell it would
/// occupy.
pub type BotNode = (Direction, usize, usize);

/// The map has `h` rows of `w` cells each.
pub open spec fn shaped(map: Seq<Seq<MapPiece>>, w: usize, h: usize) -> bool {
    &&& map.len() == h
    &&& forall|y: int| 0 <= y < h ==> (#[trigger] map[y]).len() == w
}

/// The bot can plan through a cell holding an apple or nothing.
pub open spec fn walkable(map: Seq<Seq<MapPiece>>, w: usize, h: usize, x: usize, y: usize) -> bool {
    x < w && y < h && (map[y as int][x as int] == MapPiece::Apple || map[y as int][x as int]
        == MapPiece::Empty)
}

/// The three candidate moves from a node: straight on, or a clockwise or
/// counter-clockwise turn, each paired with the wrapped cell it reaches.
pub open spec fn bot_candidates(node: BotNode, w: usize, h: usize) -> Seq<BotNode>
    recommends
        w >= 1,
        h >= 1,
{
    let x = node.1;
    let y = node.2;
    match node.0 {
        Direction::Left => seq![
            (Direction::Left, wrap_dec(x, w), y),
            (Direction::Up, x, wrap_dec(y, h)),
            (Direction::Down, x, wrap_inc(y, h)),
        ],
        Direction::Right => seq![
            (Direction::Right, wrap_inc(x, w), y),
            (Direction::Down, x, wrap_inc(y, h)),
            (Direction::Up, x, wrap_dec(y, h)),
        ],
        Direction::Up => seq![
            (Direction::Up, x, wrap_dec(y, h)),
            (Direction::Right, wrap_inc(x, w), y),
            (Direction::Left, wrap_dec(x, w), y),
        ],
        Direction::Down => seq![
            (Direction::Down, x, wrap_inc(y, h)),
            (Direction::Left, wrap_dec(x, w), y),
            (Direction::Right, wrap_inc(x, w), y),
        ],
    }
}

/// The moves the search may take from a node: the candidates that land on
/// a walkable cell, each at unit cost, in their candidate order.
pub open spec fn bot_successors(map: Seq<Seq<MapPiece>>, node: BotNode, w: usize, h: usize) -> Seq<
    (BotNode, usize),
> {
    bot_candidates(node, w, h).filter(|n: BotNode| walkable(map, w, h, n.1, n.2)).map_values(
        |n: BotNode| (n, 1usize),
    )
}

/// Executable successor function handed to the shortest-path search.
fn successors(map: &Vec<Vec<MapPiece>>, node: BotNode, w: usize, h: usize) -> (r: Vec<
    (BotNode, usize),
>)
    requires
        shaped(rows_of(map), w, h),
        1 <= w,
        1 <= h,
        node.1 < w,
        node.2 < h,
    ensures
        r@ == bot_successors(rows_of(map), node, w, h),
        forall|k: int| 0 <= k < r@.len() ==> (#[trigger] r@[k]).0.1 < w && r@[k].0.2 < h,
{
    let x = node.1;
    let y = node.2;
    let mut cands: Vec<BotNode> = Vec::new();
    match node.0 {
        Direction::Left => {
            cands.push((Direction::Left, wrap_dec_by_one(x, w), y));
            cands.push((Direction::Up, x, wrap_dec_by_one(y, h)));
            cands.push((Direction::Down, x, wrap_inc_by_one(y, h)));
        },
        Direction::Right => {
            cands.push((Direction::Right, wrap_inc_by_one(x, w), y));
            cands.push((Direction::Down, x, wrap_inc_by_one(y, h)));
            cands.push((Direction::Up, x, wrap_dec_by_one(y, h)));
        },
        Direction::Up => {
            cands.push((Direction::Up, x, wrap_dec_by_one(y, h)));
            cands.push((Direction::Right, wrap_inc_by_one(x, w), y));
            cands.push((Direction::Left, wrap_dec_by_one(x, w), y));
        },
        Direction::Down => {
            cands.push((Direction::Down, x, wrap_inc_by_one(y, h)));
            cands.push((Direction::Left, wrap_dec_by_one(x, w), y));
            cands.push((Direction::Right, wrap_inc_by_one(x, w), y));
        },
    }
    proof {
        assert(cands@ =~= bot_candidates(node, w, h));
        reveal_with_fuel(Seq::filter, 5);
    }
    let mut r: Vec<(BotNode, usize)> = Vec::new();
    let mut k: usize = 0;
    while k < 3
        invariant
            shaped(rows_of(map), w, h),
            1 <= w,
            1 <= h,
            cands@ == bot_candidates(node, w, h),
            cands@.len() == 3,
            forall|q: int| 0 <= q < 3 ==> (#[trigger] cands@[q]).1 < w && cands@[q].2 < h,
            k <= 3,
            r@ == cands@.take(k as int).filter(
                |n: BotNode| walkable(rows_of(map), w, h, n.1, n.2),
            ).map_values(|n: BotNode| (n, 1usize)),
            forall|q: int| 0 <= q < r@.len() ==> (#[trigger] r@[q]).0.1 < w && r@[q].0.2 < h,
        decreases 3 - k,
    {
        let c = cands[k];
        proof {
            assert(cands@.take(k + 1).drop_last() =~= cands@.take(k as int));
            reveal_with_fuel(Seq::filter, 2);
        }
        proof {
            assert(rows_of(map)[c.2 as int] == map@[c.2 as int]@);
        }
        let piece = map[c.2][c.1];
        let ghost pred = |n: BotNode| walkable(rows_of(map), w, h, n.1, n.2);
        if matches!(piece, MapPiece::Apple | MapPiece::Empty) {
            r.push((c, 1));
            proof {
                assert(r@.drop_last() =~= cands@.take(k as int).filter(pred).map_values(
                    |n: BotNode| (n, 1usize),
                ));
                assert(r@ =~= cands@.take(k + 1).filter(pred).map_values(
                    |n: BotNode| (n, 1usize),
                ));
            }
        } else {
            proof {
                assert(!pred(c));
                assert(r@ =~= cands@.take(k + 1).filter(pred).map_values(
                    |n: BotNode| (n, 1usize),
                ));
            }
        }
        k = k + 1;
    }
    proof {
        assert(cands@.take(3) =~= cands@);
    }
    r
}

/// Whether a node's cell is the search goal.
fn at_goal(node: &BotNode, goal: (usize, usize)) -> (r: bool)
    ensures
        r == (node.1 == goal.0 && node.2 == goal.1),
{
    node.1 == goal.0 && node.2 == goal.1
}

/// What the shortest-path search returns for these arguments. The search
/// is deterministic in them: it depends on nothing but the map, the start
/// node and the goal cell.
pub uninterp spec fn dijkstra_route(
    map: Seq<Seq<MapPiece>>,
    start: BotNode,
    goal: (usize, usize),
    w: usize,
    h: usize,
) -> Option<(Seq<BotNode>, usize)>;

/// The view of a found route: the path as a sequence, with its cost.
pub open spec fn route_view(r: Option<(Vec<BotNode>, usize)>) -> Option<(Seq<BotNode>, usize)> {
    match r {
        Some(pc) => Some((pc.0@, pc.1)),
        None => None,
    }
}

/// Relies on pathfinding's dijkstra: the cheapest path from `start` to a
/// node satisfying the goal test, under the verified successor function
/// above with unit edge costs. The returned path comprises both the start
/// and the end node, every consecutive pair is one successor step, and the
/// cost is the number of steps; the result is a function of the arguments
/// alone.
#[verifier::external_body]
fn dijkstra_search(
    map: &Vec<Vec<MapPiece>>,
    w: usize,
    h: usize,
    start: BotNode,
    goal: (usize, usize),
) -> (r: Option<(Vec<BotNode>, usize)>)
    requires
        shaped(rows_of(map), w, h),
        1 <= w,
        1 <= h,
        start.1 < w,
        start.2 < h,
    ensures
        route_view(r) == dijkstra_route(rows_of(map), start, goal, w, h),
        r matches Some(pc) ==> pc.0@.len() >= 1 && pc.0@[0] == start && (pc.0@.last().1,
        pc.0@.last().2) == goal && pc.1 == pc.0@.len() - 1,
        r matches Some(pc) ==> forall|k: int|
            0 <= k < pc.0@.len() - 1 ==> bot_successors(rows_of(map), #[trigger] pc.0@[k], w, h)
                .contains((pc.0@[k + 1], 1usize)),
{
    pathfinding::directed::dijkstra::dijkstra(
        &start,
        |n: &BotNode| successors(map, *n, w, h),
        |n: &BotNode| at_goal(n, goal),
    )
}

/// The apples of one row, left to right, up to column `upto`.
pub open spec fn row_apples_upto(row: Seq<MapPiece>, y: usize, upto: int) -> Seq<(usize, usize)>
    decreases upto,
{
    if upto <= 0 {
        Seq::empty()
    } else {
        row_apples_upto(row, y, upto - 1) + (if row[upto - 1] == MapPiece::Apple {
            seq![(((upto - 1) as usize, y))]
        } else {
            Seq::empty()
        })
    }
}

/// The apples of the first `k` rows, in row-major order.
pub open spec fn apples_upto(map: Seq<Seq<MapPiece>>, k: int) -> Seq<(usize, usize)>
    decreases k,
{
    if k <= 0 {
        Seq::empty()
    } else {
        apples_upto(map, k - 1) + row_apples_upto(map[k - 1], (k - 1) as usize, map[k - 1].len() as int)
    }
}

/// Every apple cell of the map, in row-major order.
pub open spec fn apples_of(map: Seq<Seq<MapPiece>>) -> Seq<(usize, usize)> {
    apples_upto(map, map.len() as int)
}

/// Collect every apple cell of the map, in row-major order.
fn collect_apples(map: &Vec<Vec<MapPiece>>) -> (r: Vec<(usize, usize)>)
    ensures
        r@ == apples_of(rows_of(map)),
{
    let mut r: Vec<(usize, usize)> = Vec::new();
    let h = map.len();
    let mut y: usize = 0;
    while y < h
        invariant
            h == map@.len(),
            y <= h,
            r@ == apples_upto(rows_of(map), y as int),
        decreases h - y,
    {
        let wrow = map[y].len();
        let mut x: usize = 0;
        while x < wrow
            invariant
                h == map@.len(),
                y < h,
                wrow == map@[y as int]@.len(),
                x <= wrow,
                r@ == apples_upto(rows_of(map), y as int) + row_apples_upto(
                    rows_of(map)[y as int],
                    y,
                    x as int,
                ),
            decreases wrow - x,
        {
            let is_apple = match map[y][x] {
                MapPiece::Apple => true,
                _ => false,
            };
            if is_apple {
                r.push((x, y));
            }
            proof {
                assert(r@ =~= apples_upto(rows_of(map), y as int) + row_apples_upto(
                    rows_of(map)[y as int],
                    y,
                    x + 1,
                ));
            }
            x = x + 1;
        }
        proof {
            assert(rows_of(map)[y as int].len() == wrow);
            assert(r@ =~= apples_upto(rows_of(map), y + 1));
        }
        y = y + 1;
    }
    r
}

/// The rotation that takes the current facing to the wanted one, or
/// `None` when no single rotation does (straight on, or a reversal).
pub open spec fn turn_toward(cur: Direction, next: Direction) -> Option<TurnDirection> {
    match (cur, next) {
        (Direction::Left, Direction::Up) => Some(TurnDirection::Clockwise),
        (Direction::Left, Direction::Down) => Some(TurnDirection::CounterClockwise),
        (Direction::Right, Direction::Up) => Some(TurnDirection::CounterClockwise),
        (Direction::Right, Direction::Down) => Some(TurnDirection::Clockwise),
        (Direction::Up, Direction::Left) => Some(TurnDirection::CounterClockwise),
        (Direction::Up, Direction::Right) => Some(TurnDirection::Clockwise),
        (Direction::Down, Direction::Left) => Some(TurnDirection::Clockwise),
        (Direction::Down, Direction::Right) => Some(TurnDirection::CounterClockwise),
        _ => None,
    }
}

/// Executable form of `turn_toward`.
pub fn turn_for(cur: Direction, next: Direction) -> (r: Option<TurnDirection>)
    ensures
        r == turn_toward(cur, next),
{
    match (cur, next) {
        (Direction::Left, Direction::Up) => Some(TurnDirection::Clockwise),
        (Direction::Left, Direction::Down) => Some(TurnDirection::CounterClockwise),
        (Direction::Right, Direction::Up) => Some(TurnDirection::CounterClockwise),
        (Direction::Right, Direction::Down) => Some(TurnDirection::Clockwise),
        (Direction::Up, Direction::Left) => Some(TurnDirection::CounterClockwise),
        (Direction::Up, Direction::Right) => Some(TurnDirection::Clockwise),
        (Direction::Down, Direction::Left) => Some(TurnDirection::Clockwise),
        (Direction::Down, Direction::Right) => Some(TurnDirection::CounterClockwise),
        _ => None,
    }
}

/// The best route over the given apples, folded in their order: a
/// candidate route replaces the best so far only when it is strictly
/// cheaper, starting from no route at cost 10000.
pub open spec fn best_route(
    map: Seq<Seq<MapPiece>>,
    apples: Seq<(usize, usize)>,
    start: BotNode,
    w: usize,
    h: usize,
) -> (Seq<BotNode>, int)
    decreases apples.len(),
{
    if apples.len() == 0 {
        (Seq::empty(), 10000int)
    } else {
        let prev = best_route(map, apples.drop_last(), start, w, h);
        match dijkstra_route(map, start, apples.last(), w, h) {
            Some(pc) => if pc.1 < prev.1 {
                (pc.0, pc.1 as int)
            } else {
                prev
            },
            None => prev,
        }
    }
}

/// Decide this tick's rotation: plan from the cell the head will occupy
/// next, search a shortest path to each apple, follow the strictly
/// cheapest route found; with no route of at least two nodes, turn a
/// random way one time in ten.
pub fn path_to_apple(
    map: &Vec<Vec<MapPiece>>,
    map_size: (usize, usize),
    position: (usize, usize),
    your_direction: Direction,
) -> (r: Option<TurnDirection>)
    requires
        shaped(rows_of(map), map_size.0, map_size.1),
        1 <= map_size.0,
        1 <= map_size.1,
        position.0 < map_size.0,
        position.1 < map_size.1,
    ensures
        ({
            let start = bot_start(position, your_direction, map_size.0, map_size.1);
            let best = best_route(
                rows_of(map),
                apples_of(rows_of(map)),
                start,
                map_size.0,
                map_size.1,
            );
            if best.0.len() >= 2 {
                r == turn_toward(your_direction, best.0[1].0)
            } else {
                r is None || r == Some(TurnDirection::Clockwise) || r == Some(
                    TurnDirection::CounterClockwise,
                )
            }
        }),
{
    let w = map_size.0;
    let h = map_size.1;
    let start = match your_direction {
        Direction::Left => (your_direction, wrap_dec_by_one(position.0, w), position.1),
        Direction::Right => (your_direction, wrap_inc_by_one(position.0, w), position.1),
        Direction::Up => (your_direction, position.0, wrap_dec_by_one(position.1, h)),
        Direction::Down => (your_direction, position.0, wrap_inc_by_one(position.1, h)),
    };
    let apples = collect_apples(map);
    let na = apples.len();
    let mut best_path: Vec<BotNode> = Vec::new();
    let mut best_cost: usize = 10000;
    let mut a: usize = 0;
    while a < na
        invariant
            shaped(rows_of(map), w, h),
            1 <= w,
            1 <= h,
            start == bot_start(position, your_direction, w, h),
            start.1 < w,
            start.2 < h,
            apples@ == apples_of(rows_of(map)),
            na == apples@.len(),
            a <= na,
            (best_path@, best_cost as int) == best_route(
                rows_of(map),
                apples@.take(a as int),
                start,
                w,
                h,
            ),
        decreases na - a,
    {
        proof {
            assert(apples@.take(a + 1).drop_last() =~= apples@.take(a as int));
        }
        let goal = apples[a];
        let found = dijkstra_search(map, w, h, start, goal);
        match found {
            Some((path, cost)) => {
                if cost < best_cost {
                    best_path = path;
                    best_cost = cost;
                }
            },
            None => {},
        }
        a = a + 1;
    }
    proof {
        assert(apples@.take(na as int) =~= apples@);
    }
    if best_path.len() >= 2 {
        let next = best_path[1].0;
        turn_for(your_direction, next)
    } else if random_below(10) == 0 {
        if random_below(2) == 0 {
            Some(TurnDirection::Clockwise)
        } else {
            Some(TurnDirection::CounterClockwise)
        }
    } else {
        None
    }
}

/// The node the bot plans from: the cell one wrapped step ahead of the
/// head, with the current facing.
pub open spec fn bot_start(
    position: (usize, usize),
    your_direction: Direction,
    w: usize,
    h: usize,
) -> BotNode {
    match your_direction {
        Direction::Left => (your_direction, wrap_dec(position.0, w), position.1),
        Direction::Right => (your_direction, wrap_inc(position.0, w), position.1),
        Direction::Up => (your_direction, position.0, wrap_dec(position.1, h)),
        Direction::Down => (your_direction, position.0, wrap_inc(position.1, h)),
    }
}

/// Reshape the flat cell grid of a frame into rows of the grid's width.
pub fn get_map(map: Grid, map_size: (usize, usize)) -> (r: Vec<Vec<MapPiece>>)
    requires
        1 <= map_size.0,
        1 <= map_size.1,
        map@.len() == map_size.0 * map_size.1,
    ensures
        r@.len() == map_size.1,
        forall|y: int| 0 <= y < map_size.1 ==> (#[trigger] r@[y])@.len() == map_size.0,
        forall|x: int, y: int|
            0 <= x < map_size.0 && 0 <= y < map_size.1 ==> #[trigger] r@[y]@[x] == map@[x + y
                * map_size.0],
{
    let w = map_size.0;
    let h = map_size.1;
    let total = map.len();
    proof {
        assert(total == map@.len());
        assert(grid_ok(w, h));
    }
    let mut r: Vec<Vec<MapPiece>> = Vec::new();
    let mut y: usize = 0;
    while y < h
        invariant
            grid_ok(w, h),
            map@.len() == w * h,
            y <= h,
            r@.len() == y,
            forall|q: int| 0 <= q < y ==> (#[trigger] r@[q])@.len() == w,
            forall|x: int, q: int|
                0 <= x < w && 0 <= q < y ==> #[trigger] r@[q]@[x] == map@[x + q * w],
        decreases h - y,
    {
        let mut row: Vec<MapPiece> = Vec::new();
        let mut x: usize = 0;
        while x < w
            invariant
                grid_ok(w, h),
                y < h,
                map@.len() == w * h,
                x <= w,
                row@.len() == x,
                forall|q: int| 0 <= q < x ==> row@[q] == map@[q + y * w],
            decreases w - x,
        {
            proof {
                lemma_cell_index_bounds((x, y), w, h);
            }
            row.push(map[x + y * w]);
            x = x + 1;
        }
        r.push(row);
        y = y + 1;
    }
    r
}

} // verus!
