use vstd::prelude::*;

use crate::components::Position;
use crate::resources::{Direction, Gameplay, InputQueue};
use crate::world::{
    at_cell, at_most_one_player, has_immovable_at, has_movable_at, has_player, is_box,
    is_immovable, is_movable, is_player, is_tagged, is_wall, player_index, valid_idx, wf, World,
};

verus! {

/// Width and height of the coordinate grid that positions live on:
/// the whole range of an 8-bit coordinate.
pub const GRID_SIZE: i32 = 256;

/// Horizontal step of one move along `d`.
pub open spec fn dx(d: Direction) -> int {
    match d {
        Direction::Left => -1,
        Direction::Right => 1,
        _ => 0,
    }
}

/// Vertical step of one move along `d`.
pub open spec fn dy(d: Direction) -> int {
    match d {
        Direction::Up => -1,
        Direction::Down => 1,
        _ => 0,
    }
}

pub open spec fn in_grid(x: int, y: int) -> bool {
    0 <= x < 256 && 0 <= y < 256
}

/// How many cells a scan from `(x, y)` along `d` can visit before it
/// leaves the grid; the termination measure of `chain_len`.
pub open spec fn steps_to_edge(d: Direction, x: int, y: int) -> int {
    match d {
        Direction::Up => y + 1,
        Direction::Down => 256 - y,
        Direction::Left => x + 1,
        Direction::Right => 256 - x,
    }
}

/// Number of consecutive cells that hold a movable entity, starting
/// at `(x, y)` inclusive and walking along `d`.
pub open spec fn chain_len(w: World, d: Direction, x: int, y: int) -> nat
    decreases steps_to_edge(d, x, y),
{
    if !in_grid(x, y) || !has_movable_at(w, x, y) {
        0
    } else {
        (1 + chain_len(w, d, x + dx(d), y + dy(d))) as nat
    }
}

/// Position of the player entity; meaningful under `has_player` and
/// `at_most_one_player`.
pub open spec fn player_pos(w: World) -> Position {
    w.positions@[player_index(w)]
}

/// Length of the push chain a key press along `d` would move: the
/// player and the movable entities lined up behind it.
pub open spec fn player_chain_len(w: World, d: Direction) -> nat {
    chain_len(w, d, player_pos(w).x as int, player_pos(w).y as int)
}

/// Cell just past the push chain, where its head would step to.
pub open spec fn target_x(w: World, d: Direction) -> int {
    player_pos(w).x + player_chain_len(w, d) * dx(d)
}

pub open spec fn target_y(w: World, d: Direction) -> int {
    player_pos(w).y + player_chain_len(w, d) * dy(d)
}

/// The scan resolves to a move: a player exists and the cell past
/// the chain lies on the grid and holds nothing immovable. Stepping
/// past the grid edge counts as blocked, so a coordinate can never
/// wrap.
pub open spec fn move_committed(w: World, d: Direction) -> bool {
    &&& has_player(w)
    &&& in_grid(target_x(w, d), target_y(w, d))
    &&& !has_immovable_at(w, target_x(w, d), target_y(w, d))
}

/// The `j`-th cell that the scan from the player along `d` visits.
pub open spec fn chain_cell(w: World, d: Direction, j: int) -> (int, int) {
    (player_pos(w).x + j * dx(d), player_pos(w).y + j * dy(d))
}

/// `pos` is one of the cells of the push chain.
pub open spec fn on_chain(w: World, d: Direction, pos: Position) -> bool {
    exists|j: int|
        0 <= j < player_chain_len(w, d) && #[trigger] chain_cell(w, d, j) == (
            pos.x as int,
            pos.y as int,
        )
}

/// `pos` moved one cell along `d`; the draw height is kept.
pub open spec fn shifted(pos: Position, d: Direction) -> Position {
    Position { x: (pos.x + dx(d)) as u8, y: (pos.y + dy(d)) as u8, z: pos.z }
}

/// How one resolution of direction `d` transforms the world: when
/// the chain commits, exactly the movable entities on it shift one
/// cell along `d`; when the scan is blocked, or no player exists,
/// every position is kept; tags and images never change.
pub open spec fn resolve_rel(w0: World, w1: World, d: Direction) -> bool {
    &&& w1.renderables@ == w0.renderables@
    &&& w1.walls@ == w0.walls@
    &&& w1.players@ == w0.players@
    &&& w1.boxes@ == w0.boxes@
    &&& w1.box_spots@ == w0.box_spots@
    &&& w1.movables@ == w0.movables@
    &&& w1.immovables@ == w0.immovables@
    &&& w1.positions@.len() == w0.positions@.len()
    &&& if move_committed(w0, d) {
        forall|i: int|
            0 <= i < w0.positions@.len() ==> #[trigger] w1.positions@[i] == (if is_movable(w0, i)
                && on_chain(w0, d, w0.positions@[i]) {
                shifted(w0.positions@[i], d)
            } else {
                w0.positions@[i]
            })
    } else {
        w1.positions@ == w0.positions@
    }
}

/// Two distinct steps of one scan visit two distinct cells.
proof fn lemma_ray_injective(d: Direction, x: int, y: int, j: int, k: int)
    requires
        j != k,
    ensures
        x + j * dx(d) != x + k * dx(d) || y + j * dy(d) != y + k * dy(d),
{
    match d {
        Direction::Up => assert(y + j * -1 != y + k * -1),
        Direction::Down => assert(y + j * 1 != y + k * 1),
        Direction::Left => assert(x + j * -1 != x + k * -1),
        Direction::Right => assert(x + j * 1 != x + k * 1),
    }
}

/// Every cell of a chain lies on the grid and holds a movable
/// entity.
proof fn lemma_chain_cells(w: World, d: Direction, x: int, y: int, m: int)
    requires
        0 <= m < chain_len(w, d, x, y),
    ensures
        in_grid(x + m * dx(d), y + m * dy(d)),
        has_movable_at(w, x + m * dx(d), y + m * dy(d)),
    decreases m,
{
    assert(chain_len(w, d, x, y) > 0);
    assert(in_grid(x, y) && has_movable_at(w, x, y));
    if m == 0 {
        assert(x + 0 * dx(d) == x) by (nonlinear_arith);
        assert(y + 0 * dy(d) == y) by (nonlinear_arith);
    } else {
        assert(chain_len(w, d, x + dx(d), y + dy(d)) == chain_len(w, d, x, y) - 1);
        lemma_chain_cells(w, d, x + dx(d), y + dy(d), m - 1);
        assert(in_grid(x + dx(d) + (m - 1) * dx(d), y + dy(d) + (m - 1) * dy(d)));
        assert(has_movable_at(w, x + dx(d) + (m - 1) * dx(d), y + dy(d) + (m - 1) * dy(d)));
        assert(x + dx(d) + (m - 1) * dx(d) == x + m * dx(d)) by (nonlinear_arith);
        assert(y + dy(d) + (m - 1) * dy(d) == y + m * dy(d)) by (nonlinear_arith);
        assert(in_grid(x + m * dx(d), y + m * dy(d)));
        assert(has_movable_at(w, x + m * dx(d), y + m * dy(d)));
    }
}

/// The cell just past a chain holds no movable entity, unless it
/// lies off the grid.
proof fn lemma_chain_end(w: World, d: Direction, x: int, y: int)
    ensures
        !(in_grid(
            x + chain_len(w, d, x, y) * dx(d),
            y + chain_len(w, d, x, y) * dy(d),
        ) && has_movable_at(
            w,
            x + chain_len(w, d, x, y) * dx(d),
            y + chain_len(w, d, x, y) * dy(d),
        )),
    decreases chain_len(w, d, x, y),
{
    let k = chain_len(w, d, x, y) as int;
    if k == 0 {
        assert(x + 0 * dx(d) == x) by (nonlinear_arith);
        assert(y + 0 * dy(d) == y) by (nonlinear_arith);
    } else {
        lemma_chain_end(w, d, x + dx(d), y + dy(d));
        assert(chain_len(w, d, x + dx(d), y + dy(d)) == k - 1);
        assert(x + dx(d) + (k - 1) * dx(d) == x + k * dx(d)) by (nonlinear_arith);
        assert(y + dy(d) + (k - 1) * dy(d) == y + k * dy(d)) by (nonlinear_arith);
    }
}

/// Horizontal step of `d` as a machine integer.
fn step_x(d: Direction) -> (r: i32)
    ensures
        r as int == dx(d),
{
    match d {
        Direction::Left => -1,
        Direction::Right => 1,
        _ => 0,
    }
}

/// Vertical step of `d` as a machine integer.
fn step_y(d: Direction) -> (r: i32)
    ensures
        r as int == dy(d),
{
    match d {
        Direction::Up => -1,
        Direction::Down => 1,
        _ => 0,
    }
}

/// Walks the scan from the player's cell along `d`: collects the ids
/// of the movable entities of the chain, in scan order, and decides
/// whether the chain commits.
fn scan_chain(world: &World, d: Direction, px: u8, py: u8) -> (r: (Vec<usize>, bool))
    requires
        wf(*world),
        at_most_one_player(*world),
        has_player(*world),
        player_pos(*world).x == px,
        player_pos(*world).y == py,
    ensures
        r.1 == move_committed(*world, d),
        r.0@.len() == player_chain_len(*world, d),
        forall|m: int|
            0 <= m < r.0@.len() ==> valid_idx(*world, #[trigger] r.0@[m] as int) && is_movable(
                *world,
                r.0@[m] as int,
            ) && world.positions@[r.0@[m] as int].x as int == px + m * dx(d)
                && world.positions@[r.0@[m] as int].y as int == py + m * dy(d),
{
    let sx = step_x(d);
    let sy = step_y(d);
    let mut ids: Vec<usize> = Vec::new();
    let mut cx: i32 = px as i32;
    let mut cy: i32 = py as i32;
    let mut committed: bool = false;
    loop
        invariant_except_break
            wf(*world),
            at_most_one_player(*world),
            has_player(*world),
            player_pos(*world).x == px,
            player_pos(*world).y == py,
            sx as int == dx(d),
            sy as int == dy(d),
            !committed,
            cx as int == px + ids@.len() * dx(d),
            cy as int == py + ids@.len() * dy(d),
            -1 <= cx as int <= 256,
            -1 <= cy as int <= 256,
            player_chain_len(*world, d) == ids@.len() + chain_len(
                *world,
                d,
                cx as int,
                cy as int,
            ),
            forall|m: int|
                0 <= m < ids@.len() ==> valid_idx(*world, #[trigger] ids@[m] as int) && is_movable(
                    *world,
                    ids@[m] as int,
                ) && world.positions@[ids@[m] as int].x as int == px + m * dx(d)
                    && world.positions@[ids@[m] as int].y as int == py + m * dy(d),
        ensures
            committed == move_committed(*world, d),
            ids@.len() == player_chain_len(*world, d),
            forall|m: int|
                0 <= m < ids@.len() ==> valid_idx(*world, #[trigger] ids@[m] as int) && is_movable(
                    *world,
                    ids@[m] as int,
                ) && world.positions@[ids@[m] as int].x as int == px + m * dx(d)
                    && world.positions@[ids@[m] as int].y as int == py + m * dy(d),
        decreases steps_to_edge(d, cx as int, cy as int),
    {
        if cx < 0 || cx >= GRID_SIZE || cy < 0 || cy >= GRID_SIZE {
            proof {
                assert(chain_len(*world, d, cx as int, cy as int) == 0);
                assert(!in_grid(target_x(*world, d), target_y(*world, d)));
            }
            break ;
        }
        match world.find_movable_at(cx, cy) {
            Some(i) => {
                ids.push(i);
                proof {
                    assert(chain_len(*world, d, cx as int, cy as int) == 1 + chain_len(
                        *world,
                        d,
                        cx as int + dx(d),
                        cy as int + dy(d),
                    ));
                    assert((ids@.len() - 1) * dx(d) + dx(d) == ids@.len() * dx(d))
                        by (nonlinear_arith);
                    assert((ids@.len() - 1) * dy(d) + dy(d) == ids@.len() * dy(d))
                        by (nonlinear_arith);
                }
                cx = cx + sx;
                cy = cy + sy;
            },
            None => {
                proof {
                    assert(chain_len(*world, d, cx as int, cy as int) == 0);
                    assert(in_grid(target_x(*world, d), target_y(*world, d)));
                }
                committed = !world.immovable_at(cx, cy);
                break ;
            },
        }
    }
    (ids, committed)
}


/// `i` is one of the listed entity ids.
pub open spec fn listed(ids: Seq<usize>, i: int) -> bool {
    exists|m: int| 0 <= m < ids.len() && #[trigger] ids[m] as int == i
}

/// The cell that the entity on the `m`-th cell of a scan from
/// `(px, py)` along `d` would step onto lies on the grid.
pub open spec fn scan_step_in_grid(px: u8, py: u8, d: Direction, m: int) -> bool {
    in_grid(px + (m + 1) * dx(d), py + (m + 1) * dy(d))
}

/// Shifts the listed entities one cell along `d`. Entity `ids[m]`
/// must stand on the `m`-th cell of the scan from `(px, py)`, with
/// an in-grid cell to step to.
fn apply_moves(world: &mut World, ids: &Vec<usize>, d: Direction, px: u8, py: u8)
    requires
        forall|m: int|
            0 <= m < ids@.len() ==> valid_idx(*old(world), #[trigger] ids@[m] as int) && old(
                world,
            ).positions@[ids@[m] as int].x as int == px + m * dx(d) && old(
                world,
            ).positions@[ids@[m] as int].y as int == py + m * dy(d),
        forall|m: int| 0 <= m < ids@.len() ==> #[trigger] scan_step_in_grid(px, py, d, m),
    ensures
        final(world).renderables@ == old(world).renderables@,
        final(world).walls@ == old(world).walls@,
        final(world).players@ == old(world).players@,
        final(world).boxes@ == old(world).boxes@,
        final(world).box_spots@ == old(world).box_spots@,
        final(world).movables@ == old(world).movables@,
        final(world).immovables@ == old(world).immovables@,
        final(world).positions@.len() == old(world).positions@.len(),
        forall|i: int|
            0 <= i < old(world).positions@.len() ==> #[trigger] final(world).positions@[i] == (
            if listed(ids@, i) {
                shifted(old(world).positions@[i], d)
            } else {
                old(world).positions@[i]
            }),
{
    proof {
        assert forall|m: int, m2: int|
            0 <= m < ids@.len() && 0 <= m2 < ids@.len() && m != m2 implies ids@[m] != ids@[
        m2] by {
            lemma_ray_injective(d, px as int, py as int, m, m2);
        }
    }
    let n = ids.len();
    let mut m: usize = 0;
    while m < n
        invariant
            n == ids@.len(),
            m <= n,
            forall|m2: int|
                0 <= m2 < ids@.len() ==> valid_idx(*old(world), #[trigger] ids@[m2] as int) && old(
                    world,
                ).positions@[ids@[m2] as int].x as int == px + m2 * dx(d) && old(
                    world,
                ).positions@[ids@[m2] as int].y as int == py + m2 * dy(d),
            forall|m2: int| 0 <= m2 < ids@.len() ==> #[trigger] scan_step_in_grid(px, py, d, m2),
            forall|m2: int, m3: int|
                0 <= m2 < ids@.len() && 0 <= m3 < ids@.len() && m2 != m3 ==> ids@[m2] != ids@[m3],
            world.renderables@ == old(world).renderables@,
            world.walls@ == old(world).walls@,
            world.players@ == old(world).players@,
            world.boxes@ == old(world).boxes@,
            world.box_spots@ == old(world).box_spots@,
            world.movables@ == old(world).movables@,
            world.immovables@ == old(world).immovables@,
            world.positions@.len() == old(world).positions@.len(),
            forall|i: int|
                0 <= i < old(world).positions@.len() ==> #[trigger] world.positions@[i] == (
                if listed(ids@.subrange(0, m as int), i) {
                    shifted(old(world).positions@[i], d)
                } else {
                    old(world).positions@[i]
                }),
        decreases n - m,
    {
        let i = ids[m];
        proof {
            assert(ids@[m as int] as int == i as int);
            assert(!listed(ids@.subrange(0, m as int), i as int)) by {
                if listed(ids@.subrange(0, m as int), i as int) {
                    let m2 = choose|m2: int|
                        0 <= m2 < m && #[trigger] ids@.subrange(0, m as int)[m2] as int
                            == i as int;
                    assert(ids@[m2] == ids@[m as int]);
                    assert(false);
                }
            }
            assert(world.positions@[i as int] == old(world).positions@[i as int]);
            assert(scan_step_in_grid(px, py, d, m as int));
            assert(in_grid(px + (m as int + 1) * dx(d), py + (m as int + 1) * dy(d)));
            assert((m as int + 1) * dx(d) == m as int * dx(d) + dx(d)) by (nonlinear_arith);
            assert((m as int + 1) * dy(d) == m as int * dy(d) + dy(d)) by (nonlinear_arith);
        }
        let p = world.positions[i];
        let np = match d {
            Direction::Up => Position { x: p.x, y: p.y - 1, z: p.z },
            Direction::Down => Position { x: p.x, y: p.y + 1, z: p.z },
            Direction::Left => Position { x: p.x - 1, y: p.y, z: p.z },
            Direction::Right => Position { x: p.x + 1, y: p.y, z: p.z },
        };
        world.positions[i] = np;
        proof {
            assert(np == shifted(old(world).positions@[i as int], d));
            let gsub = ids@.subrange(0, m as int + 1);
            assert forall|j: int| 0 <= j < old(world).positions@.len() implies #[trigger] world
                .positions@[j] == (if listed(gsub, j) {
                shifted(old(world).positions@[j], d)
            } else {
                old(world).positions@[j]
            }) by {
                if j == i as int {
                    assert(gsub[m as int] as int == j);
                    assert(listed(gsub, j));
                } else {
                    if listed(gsub, j) {
                        let m2 = choose|m2: int|
                            0 <= m2 < gsub.len() && #[trigger] gsub[m2] as int == j;
                        assert(m2 != m as int);
                        assert(ids@.subrange(0, m as int)[m2] as int == j);
                        assert(listed(ids@.subrange(0, m as int), j));
                    }
                    if listed(ids@.subrange(0, m as int), j) {
                        let m2 = choose|m2: int|
                            0 <= m2 < m && #[trigger] ids@.subrange(0, m as int)[m2] as int == j;
                        assert(gsub[m2] as int == j);
                        assert(listed(gsub, j));
                    }
                }
            }
        }
        m += 1;
    }
    proof {
        assert(ids@.subrange(0, n as int) =~= ids@);
    }
}

/// Consumes one directional input: finds the player, scans the push
/// chain along `direction`, and commits it when an empty in-grid
/// cell ends it; a blocked chain, or a world without a player,
/// changes nothing. The returned flag tells whether the chain moved.
pub fn resolve(direction: Direction, world: &mut World) -> (committed: bool)
    requires
        wf(*old(world)),
        at_most_one_player(*old(world)),
    ensures
        resolve_rel(*old(world), *final(world), direction),
        committed == move_committed(*old(world), direction),
        wf(*final(world)),
        at_most_one_player(*final(world)),
{
    let pid = match world.find_player() {
        Some(i) => i,
        None => {
            proof {
                assert(!has_player(*world));
            }
            return false;
        },
    };
    let px = world.positions[pid].x;
    let py = world.positions[pid].y;
    let (ids, committed) = scan_chain(&*world, direction, px, py);
    if committed {
        let ghost w0 = *world;
        proof {
            assert forall|m: int| 0 <= m < ids@.len() implies #[trigger] scan_step_in_grid(
                px,
                py,
                direction,
                m,
            ) by {
                if m + 1 < ids@.len() {
                    let i2 = ids@[m + 1] as int;
                    assert(valid_idx(w0, i2));
                    assert(w0.positions@[i2].x as int == px + (m + 1) * dx(direction));
                    assert(w0.positions@[i2].y as int == py + (m + 1) * dy(direction));
                } else {
                    assert(player_chain_len(w0, direction) == ids@.len());
                    assert(in_grid(target_x(w0, direction), target_y(w0, direction)));
                }
            }
        }
        apply_moves(world, &ids, direction, px, py);
        proof {
            assert forall|i: int| 0 <= i < w0.positions@.len() implies listed(ids@, i) == (
            is_movable(w0, i) && on_chain(w0, direction, w0.positions@[i])) by {
                if listed(ids@, i) {
                    let m = choose|m: int| 0 <= m < ids@.len() && #[trigger] ids@[m] as int == i;
                    assert(chain_cell(w0, direction, m) == (
                        w0.positions@[i].x as int,
                        w0.positions@[i].y as int,
                    ));
                    assert(on_chain(w0, direction, w0.positions@[i]));
                }
                if is_movable(w0, i) && on_chain(w0, direction, w0.positions@[i]) && 0 <= i
                    < w0.positions@.len() {
                    let j = choose|j: int|
                        0 <= j < player_chain_len(w0, direction) && #[trigger] chain_cell(
                            w0,
                            direction,
                            j,
                        ) == (w0.positions@[i].x as int, w0.positions@[i].y as int);
                    let i2 = ids@[j] as int;
                    assert(is_tagged(w0, i) && is_tagged(w0, i2));
                    assert(i == i2);
                    assert(ids@[j] as int == i);
                    assert(listed(ids@, i));
                }
            }
            assert(resolve_rel(w0, *world, direction));
            lemma_resolve_preserves_wf(w0, *world, direction);
        }
        true
    } else {
        proof {
            assert(resolve_rel(*old(world), *world, direction));
        }
        false
    }
}

/// Runs movement resolution once per tick.
pub struct InputSystem {}

impl InputSystem {
    /// Drains at most one buffered direction, oldest first, resolves
    /// it against the world, and counts one move for every committed
    /// resolution; an empty queue leaves everything untouched.
    pub fn run(&self, world: &mut World, input_queue: &mut InputQueue, gameplay: &mut Gameplay)
        requires
            wf(*old(world)),
            at_most_one_player(*old(world)),
        ensures
            wf(*final(world)),
            at_most_one_player(*final(world)),
            old(input_queue).keys_pressed@.len() == 0 ==> *final(world) == *old(world)
                && *final(input_queue) == *old(input_queue) && *final(gameplay) == *old(gameplay),
            old(input_queue).keys_pressed@.len() > 0 ==> ({
                let d = old(input_queue).keys_pressed@[0];
                &&& final(input_queue).keys_pressed@ == old(input_queue).keys_pressed@.drop_first()
                &&& resolve_rel(*old(world), *final(world), d)
                &&& final(gameplay).state == old(gameplay).state
                &&& final(gameplay).moves_count == (if move_committed(*old(world), d) {
                    if old(gameplay).moves_count < u32::MAX {
                        old(gameplay).moves_count + 1
                    } else {
                        old(gameplay).moves_count as int
                    }
                } else {
                    old(gameplay).moves_count as int
                })
            }),
    {
        if input_queue.keys_pressed.len() > 0 {
            let d = input_queue.keys_pressed.remove(0);
            let committed = resolve(d, world);
            if committed && gameplay.moves_count < u32::MAX {
                gameplay.moves_count = gameplay.moves_count + 1;
            }
            proof {
                assert(input_queue.keys_pressed@ =~= old(input_queue).keys_pressed@.drop_first());
            }
        }
    }
}

/// A resolution step keeps the world well formed: tags are
/// untouched, and the shifted chain lands on vacated cells only, so
/// no two blocking entities come to share a cell.
proof fn lemma_resolve_preserves_wf(w0: World, w1: World, d: Direction)
    requires
        wf(w0),
        at_most_one_player(w0),
        resolve_rel(w0, w1, d),
    ensures
        wf(w1),
        at_most_one_player(w1),
{
    assert forall|i: int| valid_idx(w0, i) implies #[trigger] is_movable(w1, i) == is_movable(
        w0,
        i,
    ) && #[trigger] is_immovable(w1, i) == is_immovable(w0, i) && #[trigger] is_player(w1, i)
        == is_player(w0, i) && #[trigger] is_box(w1, i) == is_box(w0, i) && #[trigger] is_wall(
        w1,
        i,
    ) == is_wall(w0, i) && #[trigger] is_tagged(w1, i) == is_tagged(w0, i) by {}
    assert forall|i: int, j: int|
        valid_idx(w1, i) && valid_idx(w1, j) && #[trigger] is_player(w1, i) && #[trigger] is_player(
            w1,
            j,
        ) implies i == j by {
        assert(is_player(w0, i) && is_player(w0, j));
    }
    assert forall|i: int| valid_idx(w1, i) implies !(#[trigger] is_movable(w1, i) && is_immovable(
        w1,
        i,
    )) by {
        assert(!(is_movable(w0, i) && is_immovable(w0, i)));
    }
    assert forall|i: int| valid_idx(w1, i) && #[trigger] is_player(w1, i) implies is_movable(
        w1,
        i,
    ) by {
        assert(valid_idx(w0, i));
        assert(w1.players@ == w0.players@ && w1.movables@ == w0.movables@);
        assert(is_player(w0, i));
        assert(is_movable(w0, i));
        assert(is_movable(w1, i));
    }
    assert forall|i: int| valid_idx(w1, i) && #[trigger] is_box(w1, i) implies is_movable(
        w1,
        i,
    ) by {
        assert(valid_idx(w0, i));
        assert(w1.boxes@ == w0.boxes@ && w1.movables@ == w0.movables@);
        assert(is_box(w0, i));
        assert(is_movable(w0, i));
        assert(is_movable(w1, i));
    }
    assert forall|i: int| valid_idx(w1, i) && #[trigger] is_wall(w1, i) implies is_immovable(
        w1,
        i,
    ) by {
        assert(valid_idx(w0, i));
        assert(w1.walls@ == w0.walls@ && w1.immovables@ == w0.immovables@);
        assert(is_wall(w0, i));
        assert(is_immovable(w0, i));
        assert(is_immovable(w1, i));
    }
    let px = player_pos(w0).x as int;
    let py = player_pos(w0).y as int;
    let k = player_chain_len(w0, d) as int;
    assert forall|i: int, j: int|
        valid_idx(w1, i) && valid_idx(w1, j) && i != j && #[trigger] is_tagged(w1, i)
            && #[trigger] is_tagged(w1, j) implies w1.positions@[i].x != w1.positions@[j].x
        || w1.positions@[i].y != w1.positions@[j].y by {
        assert(is_tagged(w0, i) && is_tagged(w0, j));
        if !move_committed(w0, d) {
            assert(w1.positions@[i] == w0.positions@[i]);
            assert(w1.positions@[j] == w0.positions@[j]);
        } else {
            let moved_i = is_movable(w0, i) && on_chain(w0, d, w0.positions@[i]);
            let moved_j = is_movable(w0, j) && on_chain(w0, d, w0.positions@[j]);
            if moved_i && moved_j {
                let ji = choose|m: int|
                    0 <= m < k && #[trigger] chain_cell(w0, d, m) == (
                        w0.positions@[i].x as int,
                        w0.positions@[i].y as int,
                    );
                let jj = choose|m: int|
                    0 <= m < k && #[trigger] chain_cell(w0, d, m) == (
                        w0.positions@[j].x as int,
                        w0.positions@[j].y as int,
                    );
                if ji == jj {
                    assert(false);
                } else {
                    lemma_ray_injective(d, px, py, ji + 1, jj + 1);
                    lemma_chain_cells_in_grid(w0, d, ji + 1);
                    lemma_chain_cells_in_grid(w0, d, jj + 1);
                    lemma_shift_cell(w0, d, i, ji);
                    lemma_shift_cell(w0, d, j, jj);
                }
            } else if moved_i && !moved_j {
                lemma_moved_lands_clear(w0, d, i, j);
            } else if !moved_i && moved_j {
                lemma_moved_lands_clear(w0, d, j, i);
            }
        }
    }
}

/// The shifted position of the chain entity on cell `ji` is the
/// cell `ji + 1` of the scan.
proof fn lemma_shift_cell(w0: World, d: Direction, i: int, ji: int)
    requires
        at_most_one_player(w0),
        has_player(w0),
        valid_idx(w0, i),
        0 <= ji,
        chain_cell(w0, d, ji) == (w0.positions@[i].x as int, w0.positions@[i].y as int),
        in_grid(
            player_pos(w0).x + (ji + 1) * dx(d),
            player_pos(w0).y + (ji + 1) * dy(d),
        ),
    ensures
        shifted(w0.positions@[i], d).x as int == player_pos(w0).x + (ji + 1) * dx(d),
        shifted(w0.positions@[i], d).y as int == player_pos(w0).y + (ji + 1) * dy(d),
{
    let px = player_pos(w0).x as int;
    let py = player_pos(w0).y as int;
    assert((ji + 1) * dx(d) == ji * dx(d) + dx(d)) by (nonlinear_arith);
    assert((ji + 1) * dy(d) == ji * dy(d) + dy(d)) by (nonlinear_arith);
    assert(w0.positions@[i].x + dx(d) == px + (ji + 1) * dx(d));
    assert(w0.positions@[i].y + dy(d) == py + (ji + 1) * dy(d));
}

/// A moved chain entity never lands on the cell of an unmoved
/// blocking entity: the chain's interior cells are all vacated, and
/// the cell past the chain is clear because the move committed.
proof fn lemma_moved_lands_clear(w0: World, d: Direction, i: int, j: int)
    requires
        wf(w0),
        at_most_one_player(w0),
        move_committed(w0, d),
        valid_idx(w0, i),
        valid_idx(w0, j),
        i != j,
        is_tagged(w0, j),
        is_movable(w0, i),
        on_chain(w0, d, w0.positions@[i]),
        !(is_movable(w0, j) && on_chain(w0, d, w0.positions@[j])),
    ensures
        shifted(w0.positions@[i], d).x != w0.positions@[j].x || shifted(
            w0.positions@[i],
            d,
        ).y != w0.positions@[j].y,
{
    let px = player_pos(w0).x as int;
    let py = player_pos(w0).y as int;
    let k = player_chain_len(w0, d) as int;
    let ji = choose|m: int|
        0 <= m < k && #[trigger] chain_cell(w0, d, m) == (
            w0.positions@[i].x as int,
            w0.positions@[i].y as int,
        );
    lemma_chain_cells_in_grid(w0, d, ji + 1);
    lemma_shift_cell(w0, d, i, ji);
    let sx = px + (ji + 1) * dx(d);
    let sy = py + (ji + 1) * dy(d);
    if w0.positions@[j].x as int == sx && w0.positions@[j].y as int == sy {
        if ji + 1 < k {
            lemma_chain_cells(w0, d, px, py, ji + 1);
            assert(has_movable_at(w0, sx, sy));
            let c = choose|c: int|
                valid_idx(w0, c) && #[trigger] is_movable(w0, c) && at_cell(w0, c, sx, sy);
            assert(is_tagged(w0, c));
            assert(c == j);
            assert(chain_cell(w0, d, ji + 1) == (
                w0.positions@[j].x as int,
                w0.positions@[j].y as int,
            ));
            assert(on_chain(w0, d, w0.positions@[j]));
            assert(false);
        } else {
            lemma_chain_end(w0, d, px, py);
            assert(target_x(w0, d) == sx && target_y(w0, d) == sy);
            if is_movable(w0, j) {
                assert(at_cell(w0, j, sx, sy));
                assert(has_movable_at(w0, sx, sy));
                assert(false);
            } else {
                assert(is_immovable(w0, j));
                assert(at_cell(w0, j, sx, sy));
                assert(has_immovable_at(w0, sx, sy));
                assert(false);
            }
        }
    }
}

/// Every cell a committed chain steps onto lies on the grid.
proof fn lemma_chain_cells_in_grid(w0: World, d: Direction, m: int)
    requires
        at_most_one_player(w0),
        move_committed(w0, d),
        0 < m <= player_chain_len(w0, d),
    ensures
        in_grid(player_pos(w0).x + m * dx(d), player_pos(w0).y + m * dy(d)),
{
    let px = player_pos(w0).x as int;
    let py = player_pos(w0).y as int;
    let k = player_chain_len(w0, d) as int;
    if m < k {
        lemma_chain_cells(w0, d, px, py, m);
    } else {
        assert(in_grid(target_x(w0, d), target_y(w0, d)));
    }
}


/// The `j`-th cell of a scan that starts at `(x, y)` and walks
/// along `d`.
pub open spec fn ray_cell(x: int, y: int, d: Direction, j: int) -> (int, int) {
    (x + j * dx(d), y + j * dy(d))
}

/// A run of `n` consecutive movable-holding cells that ends at a
/// cell without one has chain length exactly `n`.
proof fn lemma_chain_len_run(w: World, d: Direction, x: int, y: int, n: nat)
    requires
        forall|j: int|
            0 <= j < n ==> in_grid(
                (#[trigger] ray_cell(x, y, d, j)).0,
                ray_cell(x, y, d, j).1,
            ) && has_movable_at(w, ray_cell(x, y, d, j).0, ray_cell(x, y, d, j).1),
        !(in_grid(ray_cell(x, y, d, n as int).0, ray_cell(x, y, d, n as int).1)
            && has_movable_at(w, ray_cell(x, y, d, n as int).0, ray_cell(x, y, d, n as int).1)),
    ensures
        chain_len(w, d, x, y) == n,
    decreases n,
{
    assert(0 * dx(d) == 0 && 0 * dy(d) == 0) by (nonlinear_arith);
    assert(ray_cell(x, y, d, 0) == (x, y));
    if n == 0 {
        assert(chain_len(w, d, x, y) == 0);
    } else {
        assert(in_grid(x, y) && has_movable_at(w, x, y));
        assert(chain_len(w, d, x, y) == 1 + chain_len(w, d, x + dx(d), y + dy(d)));
        let x1 = x + dx(d);
        let y1 = y + dy(d);
        assert forall|j: int|
            0 <= j < n - 1 implies in_grid(
            (#[trigger] ray_cell(x1, y1, d, j)).0,
            ray_cell(x1, y1, d, j).1,
        ) && has_movable_at(w, ray_cell(x1, y1, d, j).0, ray_cell(x1, y1, d, j).1) by {
            assert(x + (j + 1) * dx(d) == x + dx(d) + j * dx(d)) by (nonlinear_arith);
            assert(y + (j + 1) * dy(d) == y + dy(d) + j * dy(d)) by (nonlinear_arith);
            assert(ray_cell(x1, y1, d, j) == ray_cell(x, y, d, j + 1));
            assert(in_grid(ray_cell(x, y, d, j + 1).0, ray_cell(x, y, d, j + 1).1)
                && has_movable_at(w, ray_cell(x, y, d, j + 1).0, ray_cell(x, y, d, j + 1).1));
        }
        assert(x + n * dx(d) == x + dx(d) + (n - 1) * dx(d)) by (nonlinear_arith);
        assert(y + n * dy(d) == y + dy(d) + (n - 1) * dy(d)) by (nonlinear_arith);
        assert(ray_cell(x1, y1, d, n - 1) == ray_cell(x, y, d, n as int));
        lemma_chain_len_run(w, d, x1, y1, (n - 1) as nat);
    }
}

/// Pushing a chain of `k` movable entities that ends at an empty
/// in-grid cell moves the player and all `k` entities exactly one
/// cell along `d`, moves nothing else, and keeps the chain's
/// relative layout.
pub proof fn lemma_push_chain_moves(w0: World, w1: World, d: Direction, k: nat)
    requires
        wf(w0),
        at_most_one_player(w0),
        has_player(w0),
        resolve_rel(w0, w1, d),
        forall|j: int|
            1 <= j <= k ==> has_movable_at(
                w0,
                (#[trigger] chain_cell(w0, d, j)).0,
                chain_cell(w0, d, j).1,
            ),
        in_grid(chain_cell(w0, d, k as int + 1).0, chain_cell(w0, d, k as int + 1).1),
        !has_movable_at(w0, chain_cell(w0, d, k as int + 1).0, chain_cell(w0, d, k as int + 1).1),
        !has_immovable_at(w0, chain_cell(w0, d, k as int + 1).0, chain_cell(w0, d, k as int + 1).1),
    ensures
        move_committed(w0, d),
        player_chain_len(w0, d) == k + 1,
        forall|i: int|
            valid_idx(w0, i) && is_movable(w0, i) && on_chain(w0, d, w0.positions@[i])
                ==> #[trigger] w1.positions@[i] == shifted(w0.positions@[i], d),
        forall|i: int|
            valid_idx(w0, i) && !(is_movable(w0, i) && on_chain(w0, d, w0.positions@[i]))
                ==> #[trigger] w1.positions@[i] == w0.positions@[i],
        forall|i: int, j: int|
            #![trigger w1.positions@[i], w1.positions@[j]]
            valid_idx(w0, i) && valid_idx(w0, j) && is_movable(w0, i) && is_movable(w0, j)
                && on_chain(w0, d, w0.positions@[i]) && on_chain(w0, d, w0.positions@[j]) ==> (
            w1.positions@[i].x - w1.positions@[j].x == w0.positions@[i].x - w0.positions@[j].x
                && w1.positions@[i].y - w1.positions@[j].y == w0.positions@[i].y
                - w0.positions@[j].y),
{
    let px = player_pos(w0).x as int;
    let py = player_pos(w0).y as int;
    let pid = player_index(w0);
    assert(valid_idx(w0, pid) && is_player(w0, pid));
    assert(is_movable(w0, pid));
    assert forall|j: int|
        0 <= j < k + 1 implies in_grid(
        (#[trigger] ray_cell(px, py, d, j)).0,
        ray_cell(px, py, d, j).1,
    ) && has_movable_at(w0, ray_cell(px, py, d, j).0, ray_cell(px, py, d, j).1) by {
        assert(ray_cell(px, py, d, j) == chain_cell(w0, d, j));
        if j == 0 {
            assert(0 * dx(d) == 0 && 0 * dy(d) == 0) by (nonlinear_arith);
            assert(chain_cell(w0, d, 0) == (px, py));
            assert(at_cell(w0, pid, px, py));
            assert(has_movable_at(w0, px, py));
        } else {
            assert(has_movable_at(w0, chain_cell(w0, d, j).0, chain_cell(w0, d, j).1));
            let c = choose|c: int|
                valid_idx(w0, c) && #[trigger] is_movable(w0, c) && at_cell(
                    w0,
                    c,
                    chain_cell(w0, d, j).0,
                    chain_cell(w0, d, j).1,
                );
            assert(in_grid(chain_cell(w0, d, j).0, chain_cell(w0, d, j).1));
        }
    }
    assert(ray_cell(px, py, d, k as int + 1) == chain_cell(w0, d, k as int + 1));
    lemma_chain_len_run(w0, d, px, py, (k + 1) as nat);
    assert(player_chain_len(w0, d) == k + 1);
    assert(target_x(w0, d) == chain_cell(w0, d, k as int + 1).0);
    assert(target_y(w0, d) == chain_cell(w0, d, k as int + 1).1);
    assert(move_committed(w0, d));
    assert forall|i: int, j: int|
        #![trigger w1.positions@[i], w1.positions@[j]]
        valid_idx(w0, i) && valid_idx(w0, j) && is_movable(w0, i) && is_movable(w0, j)
            && on_chain(w0, d, w0.positions@[i]) && on_chain(w0, d, w0.positions@[j]) implies (
    w1.positions@[i].x - w1.positions@[j].x == w0.positions@[i].x - w0.positions@[j].x
        && w1.positions@[i].y - w1.positions@[j].y == w0.positions@[i].y
        - w0.positions@[j].y) by {
        let ji = choose|m: int|
            0 <= m < player_chain_len(w0, d) && #[trigger] chain_cell(w0, d, m) == (
                w0.positions@[i].x as int,
                w0.positions@[i].y as int,
            );
        let jj = choose|m: int|
            0 <= m < player_chain_len(w0, d) && #[trigger] chain_cell(w0, d, m) == (
                w0.positions@[j].x as int,
                w0.positions@[j].y as int,
            );
        lemma_chain_cells_in_grid(w0, d, ji + 1);
        lemma_chain_cells_in_grid(w0, d, jj + 1);
        lemma_shift_cell(w0, d, i, ji);
        lemma_shift_cell(w0, d, j, jj);
        assert((ji + 1) * dx(d) == ji * dx(d) + dx(d)) by (nonlinear_arith);
        assert((jj + 1) * dx(d) == jj * dx(d) + dx(d)) by (nonlinear_arith);
        assert((ji + 1) * dy(d) == ji * dy(d) + dy(d)) by (nonlinear_arith);
        assert((jj + 1) * dy(d) == jj * dy(d) + dy(d)) by (nonlinear_arith);
    }
}

/// A player with nothing on the neighbouring cell along `d` moves
/// alone, exactly one cell, and every other entity stays put.
pub proof fn lemma_free_player_moves_alone(w0: World, w1: World, d: Direction)
    requires
        wf(w0),
        at_most_one_player(w0),
        has_player(w0),
        resolve_rel(w0, w1, d),
        in_grid(chain_cell(w0, d, 1).0, chain_cell(w0, d, 1).1),
        !has_movable_at(w0, chain_cell(w0, d, 1).0, chain_cell(w0, d, 1).1),
        !has_immovable_at(w0, chain_cell(w0, d, 1).0, chain_cell(w0, d, 1).1),
    ensures
        move_committed(w0, d),
        w1.positions@[player_index(w0)] == shifted(w0.positions@[player_index(w0)], d),
        forall|i: int|
            valid_idx(w0, i) && i != player_index(w0) ==> #[trigger] w1.positions@[i]
                == w0.positions@[i],
{
    let pid = player_index(w0);
    let px = player_pos(w0).x as int;
    let py = player_pos(w0).y as int;
    assert(valid_idx(w0, pid) && is_player(w0, pid));
    assert(is_movable(w0, pid));
    lemma_push_chain_moves(w0, w1, d, 0);
    assert(0 * dx(d) == 0 && 0 * dy(d) == 0) by (nonlinear_arith);
    assert(chain_cell(w0, d, 0) == (px, py));
    assert(on_chain(w0, d, w0.positions@[pid]));
    assert forall|i: int| valid_idx(w0, i) && i != pid implies #[trigger] w1.positions@[i]
        == w0.positions@[i] by {
        if is_movable(w0, i) && on_chain(w0, d, w0.positions@[i]) {
            let m = choose|m: int|
                0 <= m < player_chain_len(w0, d) && #[trigger] chain_cell(w0, d, m) == (
                    w0.positions@[i].x as int,
                    w0.positions@[i].y as int,
                );
            assert(m == 0);
            assert(at_cell(w0, i, px, py) && at_cell(w0, pid, px, py));
            assert(is_tagged(w0, i) && is_tagged(w0, pid));
            assert(i == pid);
            assert(false);
        }
    }
}

/// A chain whose far end is blocked by an immovable entity moves
/// nothing at all: every position is kept.
pub proof fn lemma_blocked_chain_holds(w0: World, w1: World, d: Direction, k: nat)
    requires
        wf(w0),
        at_most_one_player(w0),
        has_player(w0),
        resolve_rel(w0, w1, d),
        forall|j: int|
            1 <= j <= k ==> has_movable_at(
                w0,
                (#[trigger] chain_cell(w0, d, j)).0,
                chain_cell(w0, d, j).1,
            ),
        has_immovable_at(w0, chain_cell(w0, d, k as int + 1).0, chain_cell(w0, d, k as int + 1).1),
    ensures
        !move_committed(w0, d),
        w1.positions@ == w0.positions@,
{
    let px = player_pos(w0).x as int;
    let py = player_pos(w0).y as int;
    let pid = player_index(w0);
    assert(valid_idx(w0, pid) && is_player(w0, pid));
    assert(is_movable(w0, pid));
    let tx = chain_cell(w0, d, k as int + 1).0;
    let ty = chain_cell(w0, d, k as int + 1).1;
    assert(!has_movable_at(w0, tx, ty)) by {
        if has_movable_at(w0, tx, ty) {
            let c = choose|c: int|
                valid_idx(w0, c) && #[trigger] is_movable(w0, c) && at_cell(w0, c, tx, ty);
            let b = choose|b: int|
                valid_idx(w0, b) && #[trigger] is_immovable(w0, b) && at_cell(w0, b, tx, ty);
            assert(is_tagged(w0, c) && is_tagged(w0, b));
            assert(c == b);
            assert(false);
        }
    }
    assert forall|j: int|
        0 <= j < k + 1 implies in_grid(
        (#[trigger] ray_cell(px, py, d, j)).0,
        ray_cell(px, py, d, j).1,
    ) && has_movable_at(w0, ray_cell(px, py, d, j).0, ray_cell(px, py, d, j).1) by {
        assert(ray_cell(px, py, d, j) == chain_cell(w0, d, j));
        if j == 0 {
            assert(0 * dx(d) == 0 && 0 * dy(d) == 0) by (nonlinear_arith);
            assert(chain_cell(w0, d, 0) == (px, py));
            assert(at_cell(w0, pid, px, py));
            assert(has_movable_at(w0, px, py));
        } else {
            assert(has_movable_at(w0, chain_cell(w0, d, j).0, chain_cell(w0, d, j).1));
            let c = choose|c: int|
                valid_idx(w0, c) && #[trigger] is_movable(w0, c) && at_cell(
                    w0,
                    c,
                    chain_cell(w0, d, j).0,
                    chain_cell(w0, d, j).1,
                );
            assert(in_grid(chain_cell(w0, d, j).0, chain_cell(w0, d, j).1));
        }
    }
    assert(ray_cell(px, py, d, k as int + 1) == chain_cell(w0, d, k as int + 1));
    lemma_chain_len_run(w0, d, px, py, (k + 1) as nat);
    assert(player_chain_len(w0, d) == k + 1);
    assert(target_x(w0, d) == tx && target_y(w0, d) == ty);
    assert(!move_committed(w0, d));
}

} // verus!
