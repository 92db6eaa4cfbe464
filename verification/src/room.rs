//! Procedural room generation: the tile layout of a room and the
//! depth-first search that decides whether a room can be crossed.

use vstd::prelude::*;
use crate::random::random_usize;

verus! {

/// Tile indexes of the empty room, top row first.
pub const ROOM: [[usize; 10]; 8] = [
    [0, 1, 1, 2, 33, 34, 5, 1, 1, 6],
    [7, 8, 8, 9, 10, 11, 12, 8, 8, 13],
    [14, 15, 15, 15, 17, 18, 15, 15, 15, 20],
    [14, 15, 15, 15, 15, 15, 15, 15, 15, 20],
    [14, 15, 15, 15, 15, 15, 15, 15, 15, 20],
    [14, 15, 15, 15, 15, 15, 15, 15, 15, 20],
    [14, 15, 15, 15, 16, 19, 15, 15, 15, 20],
    [21, 22, 22, 22, 23, 26, 22, 22, 22, 27],
];

/// Door-top tiles of a combat room.
pub const COMBAT_ROOM: (usize, usize) = (33, 34);

/// Door-top tiles of a puzzle room.
pub const PUZZLE_ROOM: (usize, usize) = (24, 25);

/// Door-top tiles of a standard room.
pub const STANDARD_ROOM: (usize, usize) = (3, 4);

/// The cells of a grid of rows, as a sequence of rows.
pub open spec fn grid<T>(a: [[T; 10]; 8]) -> Seq<Seq<T>> {
    a@.map_values(|row: [T; 10]| row@)
}

/// Tiles that a player can walk on: floors, carpets, door bottoms and floor buttons.
pub open spec fn walkable(t: usize) -> bool {
    (15 <= t <= 19) || t == 10 || t == 11 || t == 29 || t == 30
}

/// Whether the tile index can be walked on.
pub fn is_walkable(tile_index: usize) -> (r: bool)
    ensures
        r == walkable(tile_index),
{
    (15 <= tile_index && tile_index <= 19) || tile_index == 10 || tile_index == 11
        || tile_index == 29 || tile_index == 30
}

/// No cell on the outer border of the room can be walked on.
pub open spec fn walled(room: Seq<Seq<usize>>) -> bool {
    &&& room.len() == 8
    &&& forall|r: int| 0 <= r < 8 ==> #[trigger] room[r].len() == 10
    &&& forall|c: int| 0 <= c < 10 ==> !walkable(#[trigger] room[0][c])
    &&& forall|c: int| 0 <= c < 10 ==> !walkable(#[trigger] room[7][c])
    &&& forall|r: int| 0 <= r < 8 ==> !walkable(#[trigger] room[r][0])
    &&& forall|r: int| 0 <= r < 8 ==> !walkable(#[trigger] room[r][9])
}

/// The cell one step away from `(r, c)` in the `k`-th direction the search
/// tries: up, left, right, down.
pub open spec fn neighbor(r: int, c: int, k: int) -> (int, int) {
    if k == 0 {
        (r - 1, c)
    } else if k == 1 {
        (r, c - 1)
    } else if k == 2 {
        (r, c + 1)
    } else {
        (r + 1, c)
    }
}

/// A button is found at `(r, c)` when the cell holds a floor button or the
/// cell below it holds a wall button.
pub open spec fn button_at(room: Seq<Seq<usize>>, r: int, c: int) -> bool {
    room[r][c] == 29 || room[r][c] == 30 || room[r + 1][c] == 35 || room[r + 1][c] == 36
}

/// `seen` with the cell `(r, c)` marked.
pub open spec fn mark(seen: Seq<Seq<bool>>, r: int, c: int) -> Seq<Seq<bool>> {
    seen.update(r, seen[r].update(c, true))
}

/// The depth-first search from `(r, c)` towards `dest`: whether a path was
/// found, the cells seen afterwards and whether a button has been found.
/// The destination is accepted only once a button has been found when the
/// room is a puzzle room. `fuel` bounds the depth of the search.
pub open spec fn dfs(
    room: Seq<Seq<usize>>,
    fuel: nat,
    r: int,
    c: int,
    dest: (int, int),
    seen: Seq<Seq<bool>>,
    found: bool,
    puzzle: bool,
) -> (bool, Seq<Seq<bool>>, bool)
    decreases fuel, 5int,
{
    if r == dest.0 && c == dest.1 {
        (found || !puzzle, seen, found)
    } else if seen[r][c] {
        (false, seen, found)
    } else {
        explore(room, fuel, r, c, 0, dest, mark(seen, r, c), found || button_at(room, r, c), puzzle)
    }
}

/// The search continued from `(r, c)` through its neighbors `k` to 3, in order,
/// stopping at the first one that reaches the destination.
pub open spec fn explore(
    room: Seq<Seq<usize>>,
    fuel: nat,
    r: int,
    c: int,
    k: int,
    dest: (int, int),
    seen: Seq<Seq<bool>>,
    found: bool,
    puzzle: bool,
) -> (bool, Seq<Seq<bool>>, bool)
    decreases fuel, 4 - k,
{
    if k >= 4 || k < 0 {
        (false, seen, found)
    } else {
        let nb = neighbor(r, c, k);
        if !seen[nb.0][nb.1] && walkable(room[nb.0][nb.1]) {
            if fuel == 0 {
                (false, seen, found)
            } else {
                let res = dfs(room, (fuel - 1) as nat, nb.0, nb.1, dest, seen, found, puzzle);
                if res.0 {
                    res
                } else {
                    explore(room, fuel, r, c, k + 1, dest, res.1, res.2, puzzle)
                }
            }
        } else {
            explore(room, fuel, r, c, k + 1, dest, seen, found, puzzle)
        }
    }
}

/// Unseen cells among the first `n` of a row.
pub open spec fn row_unseen(row: Seq<bool>, n: int) -> nat
    decreases n,
{
    if n <= 0 {
        0
    } else {
        row_unseen(row, n - 1) + if !row[n - 1] { 1nat } else { 0nat }
    }
}

/// Unseen cells among the first `m` rows.
pub open spec fn grid_unseen(g: Seq<Seq<bool>>, m: int) -> nat
    decreases m,
{
    if m <= 0 {
        0
    } else {
        grid_unseen(g, m - 1) + row_unseen(g[m - 1], 10)
    }
}

/// Unseen cells of the room.
pub open spec fn unseen(g: Seq<Seq<bool>>) -> nat {
    grid_unseen(g, 8)
}

/// Every cell seen in `a` is seen in `b`.
pub open spec fn grows(a: Seq<Seq<bool>>, b: Seq<Seq<bool>>) -> bool {
    forall|i: int, j: int| 0 <= i < 8 && 0 <= j < 10 && #[trigger] a[i][j] ==> #[trigger] b[i][j]
}

proof fn lemma_row_unseen_mark(row: Seq<bool>, c: int, n: int)
    requires
        0 <= c < row.len(),
        !row[c],
        n <= row.len(),
    ensures
        row_unseen(row.update(c, true), n) + (if 0 <= c < n { 1nat } else { 0nat }) == row_unseen(
            row,
            n,
        ),
    decreases n,
{
    if n > 0 {
        lemma_row_unseen_mark(row, c, n - 1);
    }
}

proof fn lemma_grid_unseen_mark(g: Seq<Seq<bool>>, r: int, c: int, m: int)
    requires
        g.len() == 8,
        0 <= r < 8,
        0 <= c < g[r].len(),
        g[r].len() == 10,
        !g[r][c],
        m <= 8,
    ensures
        grid_unseen(mark(g, r, c), m) + (if 0 <= r < m { 1nat } else { 0nat }) == grid_unseen(
            g,
            m,
        ),
    decreases m,
{
    if m > 0 {
        lemma_grid_unseen_mark(g, r, c, m - 1);
        if m - 1 == r {
            lemma_row_unseen_mark(g[r], c, 10);
        } else {
            assert(mark(g, r, c)[m - 1] == g[m - 1]);
        }
    }
}

proof fn lemma_row_unseen_grows(a: Seq<bool>, b: Seq<bool>, n: int)
    requires
        forall|j: int| 0 <= j < n && #[trigger] a[j] ==> b[j],
    ensures
        row_unseen(b, n) <= row_unseen(a, n),
    decreases n,
{
    if n > 0 {
        lemma_row_unseen_grows(a, b, n - 1);
    }
}

proof fn lemma_grid_unseen_grows(a: Seq<Seq<bool>>, b: Seq<Seq<bool>>, m: int)
    requires
        grows(a, b),
        m <= 8,
    ensures
        grid_unseen(b, m) <= grid_unseen(a, m),
    decreases m,
{
    if m > 0 {
        lemma_grid_unseen_grows(a, b, m - 1);
        assert forall|j: int| 0 <= j < 10 && #[trigger] a[m - 1][j] implies b[m - 1][j] by {}
        lemma_row_unseen_grows(a[m - 1], b[m - 1], 10);
    }
}

proof fn lemma_row_unseen_pos(row: Seq<bool>, c: int, n: int)
    requires
        0 <= c < n,
        !row[c],
    ensures
        row_unseen(row, n) >= 1,
    decreases n,
{
    if c < n - 1 {
        lemma_row_unseen_pos(row, c, n - 1);
    }
}

proof fn lemma_grid_unseen_pos(g: Seq<Seq<bool>>, r: int, c: int, m: int)
    requires
        0 <= r < m,
        0 <= c < 10,
        !g[r][c],
    ensures
        grid_unseen(g, m) >= 1,
    decreases m,
{
    if r < m - 1 {
        lemma_grid_unseen_pos(g, r, c, m - 1);
    } else {
        lemma_row_unseen_pos(g[r], c, 10);
    }
}

/// One step of the search: the search from the `k`-th neighbor of `(r, c)`
/// when that neighbor is unseen and walkable, else nothing found.
pub open spec fn try_step(
    room: Seq<Seq<usize>>,
    fuel: nat,
    r: int,
    c: int,
    k: int,
    dest: (int, int),
    seen: Seq<Seq<bool>>,
    found: bool,
    puzzle: bool,
) -> (bool, Seq<Seq<bool>>, bool) {
    let nb = neighbor(r, c, k);
    if !seen[nb.0][nb.1] && walkable(room[nb.0][nb.1]) && fuel > 0 {
        dfs(room, (fuel - 1) as nat, nb.0, nb.1, dest, seen, found, puzzle)
    } else {
        (false, seen, found)
    }
}

proof fn lemma_explore_step(
    room: Seq<Seq<usize>>,
    fuel: nat,
    r: int,
    c: int,
    k: int,
    dest: (int, int),
    seen: Seq<Seq<bool>>,
    found: bool,
    puzzle: bool,
)
    requires
        0 <= k < 4,
        fuel > 0,
    ensures
        ({
            let s = try_step(room, fuel, r, c, k, dest, seen, found, puzzle);
            explore(room, fuel, r, c, k, dest, seen, found, puzzle) == if s.0 {
                s
            } else {
                explore(room, fuel, r, c, k + 1, dest, s.1, s.2, puzzle)
            }
        }),
{
}

proof fn lemma_grid_sized<T>(a: [[T; 10]; 8])
    ensures
        grid(a).len() == 8,
        forall|i: int| 0 <= i < 8 ==> (#[trigger] grid(a)[i]).len() == 10,
        forall|i: int, j: int| 0 <= i < 8 && 0 <= j < 10 ==> #[trigger] grid(a)[i][j] == a[i][j],
{
}

fn try_neighbor(
    curr_room: &[[usize; 10]; 8],
    r: usize,
    c: usize,
    k: usize,
    dest: (usize, usize),
    seen: &mut [[bool; 10]; 8],
    button_found: &mut bool,
    door_type: (usize, usize),
    Ghost(fuel): Ghost<nat>,
) -> (found_path: bool)
    requires
        walled(grid(*curr_room)),
        1 <= r <= 6,
        1 <= c <= 8,
        k < 4,
        dest.0 < 8,
        dest.1 < 10,
        unseen(grid(*old(seen))) < fuel,
    ensures
        (found_path, grid(*final(seen)), *final(button_found)) == try_step(
            grid(*curr_room),
            fuel,
            r as int,
            c as int,
            k as int,
            (dest.0 as int, dest.1 as int),
            grid(*old(seen)),
            *old(button_found),
            door_type == PUZZLE_ROOM,
        ),
        grows(grid(*old(seen)), grid(*final(seen))),
    decreases fuel, 0int,
{
    proof {
        lemma_grid_sized(*curr_room);
        lemma_grid_sized(*seen);
    }
    let (nr, nc) = if k == 0 {
        (r - 1, c)
    } else if k == 1 {
        (r, c - 1)
    } else if k == 2 {
        (r, c + 1)
    } else {
        (r + 1, c)
    };
    if !seen[nr][nc] && is_walkable(curr_room[nr][nc]) {
        proof {
            lemma_grid_unseen_pos(grid(*seen), nr as int, nc as int, 8);
            let g = grid(*curr_room);
            assert(g[nr as int][nc as int] == curr_room[nr as int][nc as int]);
            assert(walkable(g[nr as int][nc as int]));
            if nr == 0 { assert(!walkable(g[0][nc as int])); }
            if nr == 7 { assert(!walkable(g[7][nc as int])); }
            if nc == 0 { assert(!walkable(g[nr as int][0])); }
            if nc == 9 { assert(!walkable(g[nr as int][9])); }
        }
        path_between(curr_room, (nr, nc), dest, seen, button_found, door_type, Ghost((fuel - 1) as nat))
    } else {
        false
    }
}

/// Depth-first search for a walkable path from `start` to `dest` that marks
/// the cells it visits in `seen` and records in `button_found` whether a
/// visited cell holds a button.
fn path_between(
    curr_room: &[[usize; 10]; 8],
    start: (usize, usize),
    dest: (usize, usize),
    seen: &mut [[bool; 10]; 8],
    button_found: &mut bool,
    door_type: (usize, usize),
    Ghost(fuel): Ghost<nat>,
) -> (found_path: bool)
    requires
        walled(grid(*curr_room)),
        1 <= start.0 <= 6,
        1 <= start.1 <= 8,
        dest.0 < 8,
        dest.1 < 10,
        unseen(grid(*old(seen))) <= fuel,
    ensures
        (found_path, grid(*final(seen)), *final(button_found)) == dfs(
            grid(*curr_room),
            fuel,
            start.0 as int,
            start.1 as int,
            (dest.0 as int, dest.1 as int),
            grid(*old(seen)),
            *old(button_found),
            door_type == PUZZLE_ROOM,
        ),
        grows(grid(*old(seen)), grid(*final(seen))),
    decreases fuel, 1int,
{
    proof {
        lemma_grid_sized(*curr_room);
        lemma_grid_sized(*seen);
    }
    let ghost room = grid(*curr_room);
    let ghost d = (dest.0 as int, dest.1 as int);
    let ghost puzzle = door_type == PUZZLE_ROOM;
    let mut path_found: bool = false;
    if start.0 == dest.0 && start.1 == dest.1 {
        // only return true if button has been found on path in puzzle rooms
        return *button_found || !(door_type.0 == PUZZLE_ROOM.0 && door_type.1 == PUZZLE_ROOM.1);
    } else if seen[start.0][start.1] {
        // tile has already been seen, backtrack
        return false;
    }
    let ghost seen0 = grid(*seen);
    let ghost found0 = *button_found;
    // mark tile as visited
    seen[start.0][start.1] = true;
    proof {
        lemma_grid_sized(*seen);
        assert(grid(*seen) =~= mark(seen0, start.0 as int, start.1 as int));
        lemma_grid_unseen_mark(seen0, start.0 as int, start.1 as int, 8);
    }
    // check for button
    if curr_room[start.0][start.1] == 29 || curr_room[start.0][start.1] == 30
        || curr_room[start.0 + 1][start.1] == 35 || curr_room[start.0 + 1][start.1] == 36 {
        *button_found = true;
    }
    let ghost r = start.0 as int;
    let ghost c = start.1 as int;
    let ghost goal = explore(room, fuel, r, c, 0, d, grid(*seen), *button_found, puzzle);
    assert(goal == dfs(room, fuel, r, c, d, seen0, found0, puzzle));
    // check up, left, right, down
    let mut k: usize = 0;
    while k < 4
        invariant
            0 <= k <= 4,
            walled(grid(*curr_room)),
            room == grid(*curr_room),
            1 <= start.0 <= 6,
            1 <= start.1 <= 8,
            dest.0 < 8,
            dest.1 < 10,
            r == start.0,
            c == start.1,
            d == (dest.0 as int, dest.1 as int),
            puzzle == (door_type == PUZZLE_ROOM),
            unseen(grid(*seen)) < fuel,
            grows(seen0, grid(*seen)),
            !path_found ==> explore(room, fuel, r, c, k as int, d, grid(*seen), *button_found, puzzle) == goal,
            path_found ==> (true, grid(*seen), *button_found) == goal,
        decreases 4 - k,
    {
        if !path_found {
            let ghost s_before = grid(*seen);
            let ghost f_before = *button_found;
            proof {
                lemma_explore_step(room, fuel, r, c, k as int, d, s_before, f_before, puzzle);
            }
            path_found = try_neighbor(curr_room, start.0, start.1, k, dest, seen, button_found, door_type, Ghost(fuel));
            proof {
                lemma_grid_unseen_grows(s_before, grid(*seen), 8);
                let s_after = grid(*seen);
                assert forall|i: int, j: int| 0 <= i < 8 && 0 <= j < 10 && #[trigger] seen0[i][j] implies #[trigger] s_after[i][j] by {
                    assert(s_before[i][j]);
                }
                let st = try_step(room, fuel, r, c, k as int, d, s_before, f_before, puzzle);
                assert(st.0 == path_found && st.1 == s_after && st.2 == *button_found);
            }
        }
        k = k + 1;
    }
    path_found
}

proof fn lemma_row_unseen_bound(row: Seq<bool>, n: int)
    requires
        n >= 0,
    ensures
        row_unseen(row, n) <= n,
    decreases n,
{
    if n > 0 {
        lemma_row_unseen_bound(row, n - 1);
    }
}

proof fn lemma_grid_unseen_bound(g: Seq<Seq<bool>>, m: int)
    requires
        m >= 0,
    ensures
        grid_unseen(g, m) <= 10 * m,
    decreases m,
{
    if m > 0 {
        lemma_grid_unseen_bound(g, m - 1);
        lemma_row_unseen_bound(g[m - 1], 10);
    }
}

/// A grid with no cell seen.
pub open spec fn fresh_seen() -> Seq<Seq<bool>> {
    Seq::new(8, |i: int| Seq::new(10, |j: int| false))
}

/// Whether the search from the bottom door `(6, 4)` reaches the cell
/// `(1, 4)` below the top door, having found a button on the way when the
/// room is a puzzle room.
pub open spec fn passable(room: Seq<Seq<usize>>, door_type: (usize, usize)) -> bool {
    dfs(room, 80, 6, 4, (1, 4), fresh_seen(), false, door_type == PUZZLE_ROOM).0
}

/// Whether the room can be crossed from its bottom door to its top door
/// (through a button in puzzle rooms), found by depth-first search.
pub fn is_passable(curr_room: &[[usize; 10]; 8], door_type: (usize, usize)) -> (r: bool)
    requires
        walled(grid(*curr_room)),
    ensures
        r == passable(grid(*curr_room), door_type),
{
    let mut seen = [[false; 10]; 8];
    let mut button_found = false;
    proof {
        lemma_grid_sized(seen);
        assert forall|i: int| 0 <= i < 8 implies #[trigger] grid(seen)[i] =~= fresh_seen()[i] by {
            assert forall|j: int| 0 <= j < 10 implies grid(seen)[i][j] == false by {
                assert(seen[i][j] == false);
            }
        }
        assert(grid(seen) =~= fresh_seen());
        lemma_grid_unseen_bound(grid(seen), 8);
    }
    // recursively verify path with DFS
    path_between(curr_room, (6, 4), (1, 4), &mut seen, &mut button_found, door_type, Ghost(80))
}

/// The template tile at position `k` of the column-by-column scan that
/// fills a room: column `k / 8`, row `k % 8` counted from the bottom.
pub open spec fn template(k: int) -> usize {
    ROOM@[7 - k % 8]@[k / 8]
}

/// Floor tiles of the template before scan position `k`.
pub open spec fn floor_count(k: int) -> nat
    decreases k,
{
    if k <= 0 {
        0
    } else {
        floor_count(k - 1) + if template(k - 1) == 15 { 1nat } else { 0nat }
    }
}

/// The template tile at `k` with its floor replaced by the `fc`-th chosen
/// tile and its door top replaced by the room's door tile.
pub open spec fn pre_tile(tiles: Seq<usize>, door_type: (usize, usize), k: int, fc: int) -> usize {
    let t0 = template(k);
    let t1 = if t0 == 15 { tiles[fc] } else { t0 };
    if t1 == 33 {
        door_type.0
    } else if t1 == 34 {
        door_type.1
    } else {
        t1
    }
}

/// A wall bottom that may hold the wall button of a wall-button puzzle room.
pub open spec fn wall_slot(t: usize, door_type: (usize, usize), puzzle_type: usize) -> bool {
    t == 8 && door_type == PUZZLE_ROOM && puzzle_type == 2
}

/// Wall-button slots met before scan position `k`.
pub open spec fn wall_count(tiles: Seq<usize>, door_type: (usize, usize), puzzle_type: usize, k: int) -> nat
    decreases k,
{
    if k <= 0 {
        0
    } else {
        wall_count(tiles, door_type, puzzle_type, k - 1) + if wall_slot(
            pre_tile(tiles, door_type, k - 1, floor_count(k - 1) as int),
            door_type,
            puzzle_type,
        ) {
            1nat
        } else {
            0nat
        }
    }
}

/// The tile that the layout puts at scan position `k`.
pub open spec fn built_tile(
    tiles: Seq<usize>,
    door_type: (usize, usize),
    puzzle_type: usize,
    wall_button_location: usize,
    k: int,
) -> usize {
    let t = pre_tile(tiles, door_type, k, floor_count(k) as int);
    if wall_slot(t, door_type, puzzle_type) && wall_count(tiles, door_type, puzzle_type, k)
        == wall_button_location {
        35
    } else {
        t
    }
}

/// The room laid out from the template, bottom row first: the template's
/// floor tiles replaced, in column order, by `tiles`, the door tops by
/// `door_type`, and the chosen wall bottom by a wall button.
pub open spec fn build_room(
    tiles: Seq<usize>,
    door_type: (usize, usize),
    puzzle_type: usize,
    wall_button_location: usize,
) -> Seq<Seq<usize>> {
    Seq::new(
        8,
        |y: int|
            Seq::new(
                10,
                |x: int| built_tile(tiles, door_type, puzzle_type, wall_button_location, x * 8 + y),
            ),
    )
}

proof fn lemma_floor_count_total()
    ensures
        floor_count(80) == 36,
{
    reveal_with_fuel(floor_count, 9);
    assert(floor_count(8) == 0);
    assert(floor_count(16) == 5);
    assert(floor_count(24) == 10);
    assert(floor_count(32) == 15);
    assert(floor_count(40) == 18);
    assert(floor_count(48) == 21);
    assert(floor_count(56) == 26);
    assert(floor_count(64) == 31);
    assert(floor_count(72) == 36);
    assert(floor_count(80) == 36);
}

proof fn lemma_floor_count_mono(j: int, k: int)
    requires
        0 <= j <= k,
    ensures
        floor_count(j) <= floor_count(k),
    decreases k - j,
{
    if j < k {
        lemma_floor_count_mono(j, k - 1);
    }
}

proof fn lemma_floor_slot(k: int)
    requires
        0 <= k < 80,
        template(k) == 15,
    ensures
        floor_count(k) < 36,
{
    lemma_floor_count_total();
    lemma_floor_count_mono(k + 1, 80);
}

proof fn lemma_wall_count_bound(tiles: Seq<usize>, door_type: (usize, usize), puzzle_type: usize, k: int)
    requires
        0 <= k,
    ensures
        wall_count(tiles, door_type, puzzle_type, k) <= k,
    decreases k,
{
    if k > 0 {
        lemma_wall_count_bound(tiles, door_type, puzzle_type, k - 1);
    }
}

proof fn lemma_scan_index(x: int, y: int)
    requires
        0 <= x < 10,
        0 <= y < 8,
    ensures
        (x * 8 + y) / 8 == x,
        (x * 8 + y) % 8 == y,
        0 <= x * 8 + y < 80,
{
    assert((x * 8 + y) / 8 == x && (x * 8 + y) % 8 == y) by (nonlinear_arith)
        requires
            0 <= y < 8,
    ;
}

/// Whether two door-top pairs are equal.
pub fn same_door(a: (usize, usize), b: (usize, usize)) -> (r: bool)
    ensures
        r == (a == b),
{
    a.0 == b.0 && a.1 == b.1
}

/// Lays out a room from the template: each template floor tile, in column
/// order, takes the next of `other_tiles`; the door tops take `door_type`;
/// in a wall-button puzzle room the `wall_button_location`-th wall bottom
/// becomes a wall button. The result is indexed bottom row first. Tile
/// indexes are taken modulo the tile set's size, which must be above 34
/// (the game's atlases hold 42) for the template's indexes to stand.
pub fn layout_room(
    other_tiles: &[usize; 36],
    dungeon_atlas_len: usize,
    door_type: (usize, usize),
    puzzle_type: usize,
    wall_button_location: usize,
) -> (curr_room: [[usize; 10]; 8])
    requires
        34 < dungeon_atlas_len,
    ensures
        grid(curr_room) == build_room(other_tiles@, door_type, puzzle_type, wall_button_location),
{
    let ghost tiles = other_tiles@;
    let mut curr_room = ROOM;
    let mut floor_counter: usize = 0;
    let mut wall_bottom_counter: usize = 0;
    let is_wall_puzzle = same_door(door_type, PUZZLE_ROOM) && puzzle_type == 2;
    let mut x: usize = 0;
    while x < 10
        invariant
            0 <= x <= 10,
            34 < dungeon_atlas_len,
            tiles == other_tiles@,
            is_wall_puzzle == (door_type == PUZZLE_ROOM && puzzle_type == 2),
            floor_counter == floor_count(x * 8),
            wall_bottom_counter == wall_count(tiles, door_type, puzzle_type, x * 8),
            forall|yy: int, xx: int|
                0 <= yy < 8 && 0 <= xx < x ==> #[trigger] curr_room[yy][xx] == built_tile(
                    tiles,
                    door_type,
                    puzzle_type,
                    wall_button_location,
                    xx * 8 + yy,
                ),
        decreases 10 - x,
    {
        let mut y: usize = 0;
        while y < 8
            invariant
                0 <= x < 10,
                0 <= y <= 8,
                34 < dungeon_atlas_len,
                tiles == other_tiles@,
                is_wall_puzzle == (door_type == PUZZLE_ROOM && puzzle_type == 2),
                floor_counter == floor_count(x * 8 + y),
                wall_bottom_counter == wall_count(tiles, door_type, puzzle_type, x * 8 + y),
                forall|yy: int, xx: int|
                    0 <= yy < 8 && 0 <= xx < 10 && (xx < x || (xx == x && yy < y))
                        ==> #[trigger] curr_room[yy][xx] == built_tile(
                        tiles,
                        door_type,
                        puzzle_type,
                        wall_button_location,
                        xx * 8 + yy,
                    ),
            decreases 8 - y,
        {
            let ghost k = x * 8 + y;
            proof {
                lemma_scan_index(x as int, y as int);
                lemma_wall_count_bound(tiles, door_type, puzzle_type, k);
            }
            // 7-y to reverse order, since 2d array is spawned from bottom up
            let t0 = ROOM[7 - y][x];
            assert(t0 == template(k));
            assert(t0 <= 34);
            let mut tile_index = t0 % dungeon_atlas_len;
            proof {
                vstd::arithmetic::div_mod::lemma_small_mod(t0 as nat, dungeon_atlas_len as nat);
            }
            if tile_index == 15 {
                proof {
                    lemma_floor_slot(k);
                }
                tile_index = other_tiles[floor_counter];
                floor_counter += 1;
            }
            // door top, different for each type of room
            if tile_index == 33 {
                tile_index = door_type.0;
            } else if tile_index == 34 {
                tile_index = door_type.1;
            }
            assert(tile_index == pre_tile(tiles, door_type, k, floor_count(k) as int));
            // wall button
            if tile_index == 8 && is_wall_puzzle {
                if wall_bottom_counter == wall_button_location {
                    // counts from 0-3 and places button on the wall
                    tile_index = 35;
                }
                wall_bottom_counter += 1;
            }
            assert(tile_index == built_tile(tiles, door_type, puzzle_type, wall_button_location, k));
            curr_room[y][x] = tile_index;
            y += 1;
        }
        x += 1;
    }
    proof {
        assert forall|yy: int| 0 <= yy < 8 implies #[trigger] grid(curr_room)[yy] =~= build_room(
            tiles,
            door_type,
            puzzle_type,
            wall_button_location,
        )[yy] by {
            assert forall|xx: int| 0 <= xx < 10 implies grid(curr_room)[yy][xx] == build_room(
                tiles,
                door_type,
                puzzle_type,
                wall_button_location,
            )[yy][xx] by {
                assert(curr_room[yy][xx] == built_tile(
                    tiles,
                    door_type,
                    puzzle_type,
                    wall_button_location,
                    xx * 8 + yy,
                ));
            }
        }
        assert(grid(curr_room) =~= build_room(tiles, door_type, puzzle_type, wall_button_location));
    }
    curr_room
}

proof fn lemma_built_walled(
    tiles: Seq<usize>,
    door_type: (usize, usize),
    puzzle_type: usize,
    wall_button_location: usize,
)
    requires
        !walkable(door_type.0),
        !walkable(door_type.1),
    ensures
        walled(build_room(tiles, door_type, puzzle_type, wall_button_location)),
{
    let room = build_room(tiles, door_type, puzzle_type, wall_button_location);
    assert forall|c: int| 0 <= c < 10 implies !walkable(#[trigger] room[0][c]) by {
        lemma_scan_index(c, 0);
    }
    assert forall|c: int| 0 <= c < 10 implies !walkable(#[trigger] room[7][c]) by {
        lemma_scan_index(c, 7);
    }
    assert forall|r: int| 0 <= r < 8 implies !walkable(#[trigger] room[r][0]) by {
        lemma_scan_index(0, r);
    }
    assert forall|r: int| 0 <= r < 8 implies !walkable(#[trigger] room[r][9]) by {
        lemma_scan_index(9, r);
    }
}

/// Occurrences of `v` in `s`.
pub open spec fn count_of(s: Seq<usize>, v: usize) -> nat
    decreases s.len(),
{
    if s.len() == 0 {
        0
    } else {
        count_of(s.drop_last(), v) + if s.last() == v { 1nat } else { 0nat }
    }
}

proof fn lemma_count_update(s: Seq<usize>, i: int, t: usize, v: usize)
    requires
        0 <= i < s.len(),
    ensures
        count_of(s.update(i, t), v) + (if s[i] == v { 1nat } else { 0nat }) == count_of(s, v) + (
        if t == v { 1nat } else { 0nat }),
    decreases s.len(),
{
    let u = s.update(i, t);
    if i == s.len() - 1 {
        assert(u.drop_last() =~= s.drop_last());
    } else {
        assert(u.drop_last() =~= s.drop_last().update(i, t));
        lemma_count_update(s.drop_last(), i, t, v);
    }
}

proof fn lemma_count_absent(s: Seq<usize>, v: usize)
    requires
        forall|i: int| 0 <= i < s.len() ==> s[i] != v,
    ensures
        count_of(s, v) == 0,
    decreases s.len(),
{
    if s.len() > 0 {
        lemma_count_absent(s.drop_last(), v);
    }
}

/// The number of blocks a room of this door type gets: from 2 to 5 in
/// combat rooms, from 9 to 23 in the others.
pub open spec fn block_count_ok(door_type: (usize, usize), blocks: nat) -> bool {
    if door_type == COMBAT_ROOM {
        2 <= blocks <= 5
    } else {
        9 <= blocks <= 23
    }
}

/// A puzzle room of puzzle type 0 or 1 gets one floor button.
pub open spec fn has_floor_button(door_type: (usize, usize), puzzle_type: usize) -> bool {
    door_type == PUZZLE_ROOM && (puzzle_type == 0 || puzzle_type == 1)
}

/// The tiles that fill the 36 floor cells of a room: floors, blocks and
/// floor buttons, with as many blocks as the door type allows and a single
/// floor button where the puzzle calls for one.
pub open spec fn valid_fill(tiles: Seq<usize>, door_type: (usize, usize), puzzle_type: usize) -> bool {
    &&& tiles.len() == 36
    &&& forall|i: int| 0 <= i < 36 ==> #[trigger] tiles[i] == 15 || tiles[i] == 28 || tiles[i] == 29
    &&& block_count_ok(door_type, count_of(tiles, 28))
    &&& count_of(tiles, 29) == if has_floor_button(door_type, puzzle_type) { 1nat } else { 0nat }
}

/// The number of blocks that a room gets for the draw `d`: 2 to 5 in a
/// combat room, 9 to 23 in any other.
pub open spec fn block_count_spec(combat: bool, d: usize) -> usize {
    if combat {
        (2 + d % 4) as usize
    } else {
        (9 + d % 15) as usize
    }
}

/// The number of blocks for the draw, as `block_count_spec` gives it.
pub fn blocks_from_draw(combat: bool, draw: usize) -> (n: usize)
    ensures
        n == block_count_spec(combat, draw),
{
    if combat {
        // fewer blocks in combat rooms
        2 + draw % 4
    } else {
        9 + draw % 15
    }
}

/// The tiles that a fill places: the blocks, then the floor button if any.
pub open spec fn tiles_needed(blocks: nat, button: bool) -> nat {
    blocks + if button { 1nat } else { 0nat }
}

/// One draw of a slot: when tiles are still to be placed and slot
/// `d % 36` holds a plain floor, the next tile (a block while blocks
/// remain, else the floor button) goes there and one more tile is placed;
/// otherwise the draw is lost.
pub open spec fn fill_step(tiles: Seq<usize>, placed: nat, blocks: nat, button: bool, d: usize) -> (Seq<usize>, nat) {
    let slot = (d % 36) as int;
    if placed < tiles_needed(blocks, button) && tiles[slot] == 15 {
        (tiles.update(slot, if placed < blocks { 28usize } else { 29usize }), placed + 1)
    } else {
        (tiles, placed)
    }
}

/// The fill after the slot draws `draws`, from an all-floor start: the
/// tiles and how many have been placed.
pub open spec fn fill_spec(blocks: nat, button: bool, draws: Seq<usize>) -> (Seq<usize>, nat)
    decreases draws.len(),
{
    if draws.len() == 0 {
        (Seq::new(36, |i: int| 15usize), 0)
    } else {
        let (tiles, placed) = fill_spec(blocks, button, draws.drop_last());
        fill_step(tiles, placed, blocks, button, draws.last())
    }
}

/// Takes the slot draw `draw`, as `fill_step` describes, and returns how
/// many tiles are placed afterwards.
pub fn place_draw(tiles: &mut [usize; 36], placed: usize, blocks: usize, floor_button: bool, draw: usize) -> (now: usize)
    requires
        placed <= blocks + 1,
        blocks < 36,
    ensures
        (final(tiles)@, now as nat) == fill_step(old(tiles)@, placed as nat, blocks as nat, floor_button, draw),
{
    let needed = if floor_button { blocks + 1 } else { blocks };
    let slot = draw % 36;
    if placed < needed && tiles[slot] == 15 {
        tiles[slot] = if placed < blocks { 28 } else { 29 };
        placed + 1
    } else {
        placed
    }
}

/// A fill with every tile placed is a valid fill: all its tiles are floors,
/// blocks or floor buttons, with the blocks and the button counted.
proof fn lemma_fill_counts(blocks: nat, button: bool, draws: Seq<usize>)
    ensures
        ({
            let (tiles, placed) = fill_spec(blocks, button, draws);
            &&& tiles.len() == 36
            &&& placed <= tiles_needed(blocks, button)
            &&& forall|i: int| 0 <= i < 36 ==> #[trigger] tiles[i] == 15 || tiles[i] == 28 || tiles[i] == 29
            &&& count_of(tiles, 28) == if placed < blocks { placed } else { blocks }
            &&& count_of(tiles, 29) == if placed < blocks { 0 } else { (placed - blocks) as nat }
        }),
    decreases draws.len(),
{
    if draws.len() == 0 {
        let t = Seq::new(36, |i: int| 15usize);
        lemma_count_absent(t, 28);
        lemma_count_absent(t, 29);
    } else {
        lemma_fill_counts(blocks, button, draws.drop_last());
        let (t, p) = fill_spec(blocks, button, draws.drop_last());
        let slot = (draws.last() % 36) as int;
        if p < tiles_needed(blocks, button) && t[slot] == 15 {
            let v = if p < blocks { 28usize } else { 29usize };
            lemma_count_update(t, slot, v, 28);
            lemma_count_update(t, slot, v, 29);
        }
    }
}

/// Puts a block on the plain floor slot `slot`.
fn put_block(tiles: &mut [usize; 36], slot: usize)
    requires
        slot < 36,
        old(tiles)@[slot as int] == 15,
    ensures
        final(tiles)@ == old(tiles)@.update(slot as int, 28),
        count_of(final(tiles)@, 28) == count_of(old(tiles)@, 28) + 1,
        count_of(final(tiles)@, 29) == count_of(old(tiles)@, 29),
{
    proof {
        lemma_count_update(tiles@, slot as int, 28, 28);
        lemma_count_update(tiles@, slot as int, 28, 29);
    }
    tiles[slot] = 28;
}

/// A fill that leaves column 4 open from the bottom door to the top one:
/// three blocks in a combat room, nine in any other, kept off the column;
/// the floor button, if any, lies on the column.
fn fixed_fill(combat: bool, button: bool) -> (tiles: [usize; 36])
    ensures
        forall|i: int| 0 <= i < 36 ==> #[trigger] tiles@[i] == 15 || tiles@[i] == 28 || tiles@[i] == 29,
        count_of(tiles@, 28) == if combat { 3nat } else { 9nat },
        count_of(tiles@, 29) == if button { 1nat } else { 0nat },
        tiles@[15] == 15,
        tiles@[16] == if button { 29usize } else { 15usize },
        tiles@[17] == 15,
{
    let mut tiles = [15usize; 36];
    proof {
        lemma_count_absent(tiles@, 28);
        lemma_count_absent(tiles@, 29);
    }
    put_block(&mut tiles, 21);
    put_block(&mut tiles, 22);
    put_block(&mut tiles, 23);
    if !combat {
        put_block(&mut tiles, 26);
        put_block(&mut tiles, 27);
        put_block(&mut tiles, 28);
        put_block(&mut tiles, 31);
        put_block(&mut tiles, 32);
        put_block(&mut tiles, 33);
    }
    if button {
        proof {
            lemma_count_update(tiles@, 16, 29, 28);
            lemma_count_update(tiles@, 16, 29, 29);
        }
        tiles[16] = 29;
    }
    tiles
}

proof fn lemma_floor_count_column()
    ensures
        floor_count(34) == 15,
        floor_count(35) == 16,
        floor_count(36) == 17,
{
    reveal_with_fuel(floor_count, 9);
    assert(floor_count(8) == 0);
    assert(floor_count(16) == 5);
    assert(floor_count(24) == 10);
    assert(floor_count(32) == 15);
    assert(floor_count(33) == 15);
    assert(floor_count(34) == 15);
    assert(floor_count(35) == 16);
    assert(floor_count(36) == 17);
}

/// The cells of column 4 in a room laid out from a fill with plain floors
/// (or, second from the bottom door's side, a floor button) in its slots 15
/// to 17.
proof fn lemma_column_cells(tiles: Seq<usize>, door_type: (usize, usize), puzzle_type: usize, wall_button_location: usize)
    requires
        tiles.len() == 36,
        tiles[15] == 15,
        tiles[16] == 15 || tiles[16] == 29,
        tiles[17] == 15,
    ensures
        ({
            let room = build_room(tiles, door_type, puzzle_type, wall_button_location);
            &&& room[5][4] == 17
            &&& room[4][4] == 15
            &&& room[3][4] == tiles[16]
            &&& room[2][4] == 15
            &&& room[1][4] == 16
            &&& room[6][4] == 10
        }),
{
    lemma_floor_count_column();
    let room = build_room(tiles, door_type, puzzle_type, wall_button_location);
    assert(template(33) == 16 && template(34) == 15 && template(35) == 15 && template(36) == 15);
    assert(template(37) == 17 && template(38) == 10);
    assert(room[1][4] == built_tile(tiles, door_type, puzzle_type, wall_button_location, 33));
    assert(room[2][4] == built_tile(tiles, door_type, puzzle_type, wall_button_location, 34));
    assert(room[3][4] == built_tile(tiles, door_type, puzzle_type, wall_button_location, 35));
    assert(room[4][4] == built_tile(tiles, door_type, puzzle_type, wall_button_location, 36));
    assert(room[5][4] == built_tile(tiles, door_type, puzzle_type, wall_button_location, 37));
    assert(room[6][4] == built_tile(tiles, door_type, puzzle_type, wall_button_location, 38));
}

/// A room laid out from a fill that leaves column 4 open is accepted by the
/// search: straight along the column from the bottom door; in a puzzle room
/// with a floor button on the column, past that button.
proof fn lemma_open_column_passable(
    tiles: Seq<usize>,
    door_type: (usize, usize),
    puzzle_type: usize,
    wall_button_location: usize,
)
    requires
        tiles.len() == 36,
        tiles[15] == 15,
        tiles[16] == 15 || tiles[16] == 29,
        tiles[17] == 15,
        door_type == PUZZLE_ROOM ==> tiles[16] == 29,
        !walkable(door_type.0),
        !walkable(door_type.1),
    ensures
        passable(build_room(tiles, door_type, puzzle_type, wall_button_location), door_type),
{
    let room = build_room(tiles, door_type, puzzle_type, wall_button_location);
    lemma_column_cells(tiles, door_type, puzzle_type, wall_button_location);
    lemma_built_walled(tiles, door_type, puzzle_type, wall_button_location);
    if door_type != PUZZLE_ROOM {
        let p = seq![(6int, 4int), (5int, 4int), (4int, 4int), (3int, 4int), (2int, 4int), (1int, 4int)];
        assert forall|i: int| 0 < i < p.len() implies {
            &&& adjacent(p[i - 1], #[trigger] p[i])
            &&& 0 <= p[i].0 < 8
            &&& 0 <= p[i].1 < 10
            &&& walkable(room[p[i].0][p[i].1])
        } by {
            assert(p[i] == (6 - i, 4int));
            assert(p[i - 1] == (7 - i, 4int));
        }
        lemma_walk_passable(room, door_type, p);
    } else {
        let d = (1int, 4int);
        let s0 = fresh_seen();
        let s1 = mark(s0, 6, 4);
        let s2 = mark(s1, 5, 4);
        let s3 = mark(s2, 4, 4);
        let s4 = mark(s3, 3, 4);
        let s5 = mark(s4, 2, 4);
        let f1 = false || button_at(room, 6, 4);
        let f2 = f1 || button_at(room, 5, 4);
        let f3 = f2 || button_at(room, 4, 4);
        let f4 = f3 || button_at(room, 3, 4);
        let f5 = f4 || button_at(room, 2, 4);
        assert(f4 && f5);
        assert(dfs(room, 75, 1, 4, d, s5, f5, true).0);
        assert(!s5[1][4] && walkable(room[1][4]));
        assert(explore(room, 76, 2, 4, 0, d, s5, f5, true).0);
        assert(dfs(room, 76, 2, 4, d, s4, f4, true).0);
        assert(!s4[2][4] && walkable(room[2][4]));
        assert(explore(room, 77, 3, 4, 0, d, s4, f4, true).0);
        assert(dfs(room, 77, 3, 4, d, s3, f3, true).0);
        assert(!s3[3][4] && walkable(room[3][4]));
        assert(explore(room, 78, 4, 4, 0, d, s3, f3, true).0);
        assert(dfs(room, 78, 4, 4, d, s2, f2, true).0);
        assert(!s2[4][4] && walkable(room[4][4]));
        assert(explore(room, 79, 5, 4, 0, d, s2, f2, true).0);
        assert(dfs(room, 79, 5, 4, d, s1, f1, true).0);
        assert(!s1[5][4] && walkable(room[5][4]));
        assert(explore(room, 80, 6, 4, 0, d, s1, f1, true).0);
        assert(dfs(room, 80, 6, 4, d, s0, false, true).0);
    }
}

/// A room that `generate_room` may return: laid out from a valid fill of
/// its floor cells, and passable.
pub open spec fn generated_room(
    room: Seq<Seq<usize>>,
    door_type: (usize, usize),
    puzzle_type: usize,
    wall_button_location: usize,
) -> bool {
    &&& passable(room, door_type)
    &&& exists|tiles: Seq<usize>|
        {
            &&& valid_fill(tiles, door_type, puzzle_type)
            &&& room == build_room(tiles, door_type, puzzle_type, wall_button_location)
        }
}

/// Generates a room for the door type: blocks (and, in puzzle rooms of
/// puzzle type 0 or 1, a floor button) are dropped on random floor cells,
/// and the room is drawn again until it can be crossed. Should `u64::MAX`
/// rooms in a row be blocked, a fixed room that can be crossed is laid out
/// instead: its middle column open or, with a wall button on one of the
/// four wall bottoms, a lane that passes the button. Only a puzzle room
/// with no button at all (a puzzle type above 2, or a wall button past the
/// fourth wall bottom) can end in `None`. The draws are bounded because a
/// loop must end here; the bound is never reached in practice. The tile set
/// must hold more than 34 tiles (the game's atlases hold 42), so that the
/// template's tile indexes stand as they are: with fewer, taken modulo the
/// set's size, walls could turn walkable and the search step off the grid.
pub fn generate_room(
    dungeon_atlas_len: usize,
    door_type: (usize, usize),
    puzzle_type: usize,
    wall_button_location: usize,
) -> (result: Option<[[usize; 10]; 8]>)
    requires
        34 < dungeon_atlas_len,
        !walkable(door_type.0),
        !walkable(door_type.1),
    ensures
        result matches Some(room) ==> generated_room(grid(room), door_type, puzzle_type, wall_button_location),
        door_type != PUZZLE_ROOM || puzzle_type < 2 || (puzzle_type == 2 && wall_button_location < 4)
            ==> result is Some,
{
    let combat = same_door(door_type, COMBAT_ROOM);
    let floor_button = same_door(door_type, PUZZLE_ROOM) && (puzzle_type == 0 || puzzle_type == 1);
    let mut attempts: u64 = 0;
    while attempts < u64::MAX
        invariant
            34 < dungeon_atlas_len,
            !walkable(door_type.0),
            !walkable(door_type.1),
            combat == (door_type == COMBAT_ROOM),
            floor_button == has_floor_button(door_type, puzzle_type),
        decreases u64::MAX - attempts,
    {
        attempts += 1;
        let mut count_draw = random_usize();
        if combat {
            // combat rooms draw their block count again
            count_draw = random_usize();
        }
        let blocks = blocks_from_draw(combat, count_draw);
        let needed = if floor_button { blocks + 1 } else { blocks };
        let mut other_tiles = [15usize; 36];
        let mut placed: usize = 0;
        let ghost mut draws: Seq<usize> = Seq::empty();
        proof {
            assert(other_tiles@ =~= fill_spec(blocks as nat, floor_button, draws).0);
        }
        // drop the blocks, then the floor button, on random plain floor slots
        let mut slot_draws: u64 = 0;
        while placed < needed && slot_draws < u64::MAX
            invariant
                blocks == block_count_spec(combat, count_draw),
                needed == tiles_needed(blocks as nat, floor_button),
                (other_tiles@, placed as nat) == fill_spec(blocks as nat, floor_button, draws),
                placed <= needed,
            decreases u64::MAX - slot_draws,
        {
            let draw = random_usize();
            placed = place_draw(&mut other_tiles, placed, blocks, floor_button, draw);
            proof {
                assert(draws.push(draw).drop_last() =~= draws);
                draws = draws.push(draw);
            }
            slot_draws += 1;
        }
        proof {
            lemma_fill_counts(blocks as nat, floor_button, draws);
        }
        let complete = placed == needed;
        if complete {
            assert(valid_fill(other_tiles@, door_type, puzzle_type));
            let curr_room = layout_room(
                &other_tiles,
                dungeon_atlas_len,
                door_type,
                puzzle_type,
                wall_button_location,
            );
            proof {
                lemma_built_walled(other_tiles@, door_type, puzzle_type, wall_button_location);
            }
            if is_passable(&curr_room, door_type) {
                return Some(curr_room);
            }
        }
    }
    // every drawn room was blocked: lay out a room that can be crossed,
    // its column 4 open or, for a wall button, a lane past the button
    let wall_puzzle = same_door(door_type, PUZZLE_ROOM) && puzzle_type == 2 && wall_button_location < 4;
    let fixed = if wall_puzzle {
        wall_puzzle_fill(wall_button_location < 2)
    } else {
        fixed_fill(combat, floor_button)
    };
    let curr_room = layout_room(&fixed, dungeon_atlas_len, door_type, puzzle_type, wall_button_location);
    proof {
        assert(valid_fill(fixed@, door_type, puzzle_type));
        lemma_built_walled(fixed@, door_type, puzzle_type, wall_button_location);
        if wall_puzzle {
            if wall_button_location < 2 {
                lemma_left_wall_passable(wall_button_location);
            } else {
                lemma_right_wall_passable(wall_button_location);
            }
        } else if door_type != PUZZLE_ROOM || puzzle_type == 0 || puzzle_type == 1 {
            lemma_open_column_passable(fixed@, door_type, puzzle_type, wall_button_location);
        }
    }
    if is_passable(&curr_room, door_type) {
        return Some(curr_room);
    }
    None
}

/// Two cells side by side, horizontally or vertically.
pub open spec fn adjacent(a: (int, int), b: (int, int)) -> bool {
    (a.0 == b.0 && (a.1 - b.1 == 1 || b.1 - a.1 == 1)) || (a.1 == b.1 && (a.0 - b.0 == 1 || b.0
        - a.0 == 1))
}

/// `p` walks from `from` to `to` one step at a time over walkable cells of
/// the room (the first cell excepted).
pub open spec fn walk_path(room: Seq<Seq<usize>>, p: Seq<(int, int)>, from: (int, int), to: (int, int)) -> bool {
    &&& p.len() >= 1
    &&& p[0] == from
    &&& p.last() == to
    &&& forall|i: int|
        0 < i < p.len() ==> {
            &&& adjacent(p[i - 1], #[trigger] p[i])
            &&& 0 <= p[i].0 < 8
            &&& 0 <= p[i].1 < 10
            &&& walkable(room[p[i].0][p[i].1])
        }
}

proof fn lemma_neighbor_adjacent(r: int, c: int, k: int)
    ensures
        adjacent((r, c), neighbor(r, c, k)),
{
}

/// A successful search from `(r, c)` has a walk to the destination.
proof fn lemma_dfs_sound(
    room: Seq<Seq<usize>>,
    fuel: nat,
    r: int,
    c: int,
    dest: (int, int),
    seen: Seq<Seq<bool>>,
    found: bool,
    puzzle: bool,
) -> (p: Seq<(int, int)>)
    requires
        walled(room),
        1 <= r <= 6,
        1 <= c <= 8,
        dfs(room, fuel, r, c, dest, seen, found, puzzle).0,
    ensures
        walk_path(room, p, (r, c), dest),
    decreases fuel, 5int,
{
    if r == dest.0 && c == dest.1 {
        seq![(r, c)]
    } else {
        lemma_explore_sound(
            room,
            fuel,
            r,
            c,
            0,
            dest,
            mark(seen, r, c),
            found || button_at(room, r, c),
            puzzle,
        )
    }
}

proof fn lemma_explore_sound(
    room: Seq<Seq<usize>>,
    fuel: nat,
    r: int,
    c: int,
    k: int,
    dest: (int, int),
    seen: Seq<Seq<bool>>,
    found: bool,
    puzzle: bool,
) -> (p: Seq<(int, int)>)
    requires
        walled(room),
        1 <= r <= 6,
        1 <= c <= 8,
        explore(room, fuel, r, c, k, dest, seen, found, puzzle).0,
    ensures
        walk_path(room, p, (r, c), dest),
    decreases fuel, 4 - k,
{
    let nb = neighbor(r, c, k);
    if !seen[nb.0][nb.1] && walkable(room[nb.0][nb.1]) && fuel > 0 {
        let res = dfs(room, (fuel - 1) as nat, nb.0, nb.1, dest, seen, found, puzzle);
        if res.0 {
            // a walkable cell lies inside the walls
            if nb.0 == 0 { assert(!walkable(room[0][nb.1])); }
            if nb.0 == 7 { assert(!walkable(room[7][nb.1])); }
            if nb.1 == 0 { assert(!walkable(room[nb.0][0])); }
            if nb.1 == 9 { assert(!walkable(room[nb.0][9])); }
            let q = lemma_dfs_sound(room, (fuel - 1) as nat, nb.0, nb.1, dest, seen, found, puzzle);
            lemma_neighbor_adjacent(r, c, k);
            let p = seq![(r, c)] + q;
            assert forall|i: int| 0 < i < p.len() implies {
                &&& adjacent(p[i - 1], #[trigger] p[i])
                &&& 0 <= p[i].0 < 8
                &&& 0 <= p[i].1 < 10
                &&& walkable(room[p[i].0][p[i].1])
            } by {
                if i > 1 {
                    assert(p[i] == q[i - 1] && p[i - 1] == q[i - 2]);
                }
            }
            p
        } else {
            lemma_explore_sound(room, fuel, r, c, k + 1, dest, res.1, res.2, puzzle)
        }
    } else {
        lemma_explore_sound(room, fuel, r, c, k + 1, dest, seen, found, puzzle)
    }
}

/// A room that the search accepts can be crossed: there is a walk over
/// walkable cells from the bottom door `(6, 4)` to the cell `(1, 4)` below
/// the top door.
pub proof fn lemma_passable_has_walk(room: Seq<Seq<usize>>, door_type: (usize, usize))
    requires
        walled(room),
        passable(room, door_type),
    ensures
        exists|p: Seq<(int, int)>| walk_path(room, p, (6, 4), (1, 4)),
{
    let p = lemma_dfs_sound(room, 80, 6, 4, (1, 4), fresh_seen(), false, door_type == PUZZLE_ROOM);
    assert(walk_path(room, p, (6, 4), (1, 4)));
}

/// A button can be reached from `from`: a walk leads from there to a cell
/// at which the search finds a button.
pub open spec fn button_reachable(room: Seq<Seq<usize>>, from: (int, int)) -> bool {
    exists|p: Seq<(int, int)>, q: (int, int)|
        1 <= q.0 <= 6 && 1 <= q.1 <= 8 && #[trigger] walk_path(room, p, from, q) && button_at(room, q.0, q.1)
}

proof fn lemma_dfs_button(
    room: Seq<Seq<usize>>,
    fuel: nat,
    r: int,
    c: int,
    dest: (int, int),
    seen: Seq<Seq<bool>>,
    found: bool,
    puzzle: bool,
    start: (int, int),
    w: Seq<(int, int)>,
)
    requires
        walled(room),
        1 <= r <= 6,
        1 <= c <= 8,
        walk_path(room, w, start, (r, c)),
        found ==> button_reachable(room, start),
    ensures
        ({
            let res = dfs(room, fuel, r, c, dest, seen, found, puzzle);
            &&& res.2 ==> button_reachable(room, start)
            &&& res.0 && puzzle ==> res.2
        }),
    decreases fuel, 5int,
{
    if r == dest.0 && c == dest.1 {
    } else if seen[r][c] {
    } else {
        let found2 = found || button_at(room, r, c);
        if button_at(room, r, c) {
            assert(walk_path(room, w, start, (r, c)));
        }
        lemma_explore_button(room, fuel, r, c, 0, dest, mark(seen, r, c), found2, puzzle, start, w);
    }
}

proof fn lemma_explore_button(
    room: Seq<Seq<usize>>,
    fuel: nat,
    r: int,
    c: int,
    k: int,
    dest: (int, int),
    seen: Seq<Seq<bool>>,
    found: bool,
    puzzle: bool,
    start: (int, int),
    w: Seq<(int, int)>,
)
    requires
        walled(room),
        1 <= r <= 6,
        1 <= c <= 8,
        walk_path(room, w, start, (r, c)),
        found ==> button_reachable(room, start),
    ensures
        ({
            let res = explore(room, fuel, r, c, k, dest, seen, found, puzzle);
            &&& res.2 ==> button_reachable(room, start)
            &&& res.0 && puzzle ==> res.2
        }),
    decreases fuel, 4 - k,
{
    if k >= 4 || k < 0 {
    } else {
        let nb = neighbor(r, c, k);
        if !seen[nb.0][nb.1] && walkable(room[nb.0][nb.1]) && fuel > 0 {
            // a walkable cell lies inside the walls
            if nb.0 == 0 { assert(!walkable(room[0][nb.1])); }
            if nb.0 == 7 { assert(!walkable(room[7][nb.1])); }
            if nb.1 == 0 { assert(!walkable(room[nb.0][0])); }
            if nb.1 == 9 { assert(!walkable(room[nb.0][9])); }
            lemma_neighbor_adjacent(r, c, k);
            let w2 = w.push(nb);
            assert forall|i: int| 0 < i < w2.len() implies {
                &&& adjacent(w2[i - 1], #[trigger] w2[i])
                &&& 0 <= w2[i].0 < 8
                &&& 0 <= w2[i].1 < 10
                &&& walkable(room[w2[i].0][w2[i].1])
            } by {
                if i < w.len() {
                    assert(w2[i] == w[i] && w2[i - 1] == w[i - 1]);
                }
            }
            assert(walk_path(room, w2, start, nb));
            lemma_dfs_button(room, (fuel - 1) as nat, nb.0, nb.1, dest, seen, found, puzzle, start, w2);
            let res = dfs(room, (fuel - 1) as nat, nb.0, nb.1, dest, seen, found, puzzle);
            if !res.0 {
                lemma_explore_button(room, fuel, r, c, k + 1, dest, res.1, res.2, puzzle, start, w);
            }
        } else {
            lemma_explore_button(room, fuel, r, c, k + 1, dest, seen, found, puzzle, start, w);
        }
    }
}

/// A puzzle room that the search accepts has a button within reach: a walk
/// leads from the bottom door `(6, 4)` to a cell where the search finds a
/// button.
pub proof fn lemma_puzzle_button_reachable(room: Seq<Seq<usize>>)
    requires
        walled(room),
        passable(room, PUZZLE_ROOM),
    ensures
        button_reachable(room, (6, 4)),
{
    let w = seq![(6int, 4int)];
    assert(walk_path(room, w, (6, 4), (6, 4)));
    lemma_dfs_button(room, 80, 6, 4, (1, 4), fresh_seen(), false, true, (6, 4), w);
}

/// A grid of seen flags with the room's shape.
pub open spec fn sized(g: Seq<Seq<bool>>) -> bool {
    &&& g.len() == 8
    &&& forall|i: int| 0 <= i < 8 ==> #[trigger] g[i].len() == 10
}

/// Every cell seen in `after` but not in `before` has its walkable
/// neighbors seen in `after`.
pub open spec fn closed(room: Seq<Seq<usize>>, before: Seq<Seq<bool>>, after: Seq<Seq<bool>>) -> bool {
    forall|y0: int, y1: int, k: int|
        1 <= y0 <= 6 && 1 <= y1 <= 8 && 0 <= k < 4 && #[trigger] after[y0][y1] && !before[y0][y1]
            && walkable(room[neighbor(y0, y1, k).0][neighbor(y0, y1, k).1]) ==> #[trigger] after[neighbor(
            y0,
            y1,
            k,
        ).0][neighbor(y0, y1, k).1]
}

/// A search that comes back without the destination leaves every cell it
/// marked with its walkable neighbors marked, and never marks the
/// destination (in a room that is not a puzzle room).
#[verifier::spinoff_prover]
proof fn lemma_dfs_closed(
    room: Seq<Seq<usize>>,
    fuel: nat,
    r: int,
    c: int,
    dest: (int, int),
    seen: Seq<Seq<bool>>,
    found: bool,
)
    requires
        walled(room),
        sized(seen),
        1 <= r <= 6,
        1 <= c <= 8,
        0 <= dest.0 < 8,
        0 <= dest.1 < 10,
        !seen[dest.0][dest.1],
        unseen(seen) <= fuel,
    ensures
        ({
            let res = dfs(room, fuel, r, c, dest, seen, found, false);
            !res.0 ==> {
                &&& sized(res.1)
                &&& grows(seen, res.1)
                &&& res.1[r][c]
                &&& !res.1[dest.0][dest.1]
                &&& closed(room, seen, res.1)
            }
        }),
    decreases fuel, 5int,
{
    if r == dest.0 && c == dest.1 {
    } else if seen[r][c] {
    } else {
        let s1 = mark(seen, r, c);
        lemma_grid_unseen_mark(seen, r, c, 8);
        assert(sized(s1));
        assert(grows(seen, s1));
        lemma_explore_closed(room, fuel, r, c, 0, dest, seen, s1, found || button_at(room, r, c));
        let res = explore(room, fuel, r, c, 0, dest, s1, found || button_at(room, r, c), false);
        if !res.0 {
            lemma_grows_trans(seen, s1, res.1);
        }
    }
}

proof fn lemma_grows_trans(a: Seq<Seq<bool>>, b: Seq<Seq<bool>>, c: Seq<Seq<bool>>)
    requires
        grows(a, b),
        grows(b, c),
    ensures
        grows(a, c),
{
    assert forall|i: int, j: int| 0 <= i < 8 && 0 <= j < 10 && #[trigger] a[i][j] implies #[trigger] c[i][j] by {
        assert(b[i][j]);
    }
}

proof fn lemma_explore_closed(
    room: Seq<Seq<usize>>,
    fuel: nat,
    r: int,
    c: int,
    k: int,
    dest: (int, int),
    seen0: Seq<Seq<bool>>,
    seen: Seq<Seq<bool>>,
    found: bool,
)
    requires
        walled(room),
        sized(seen),
        1 <= r <= 6,
        1 <= c <= 8,
        0 <= k <= 4,
        0 <= dest.0 < 8,
        0 <= dest.1 < 10,
        (r, c) != dest,
        seen[r][c],
        !seen0[r][c],
        !seen[dest.0][dest.1],
        grows(seen0, seen),
        unseen(seen) < fuel,
        forall|y0: int, y1: int, j: int|
            1 <= y0 <= 6 && 1 <= y1 <= 8 && 0 <= j < 4 && (y0, y1) != (r, c) && #[trigger] seen[y0][y1]
                && !seen0[y0][y1] && walkable(room[neighbor(y0, y1, j).0][neighbor(y0, y1, j).1])
                ==> #[trigger] seen[neighbor(y0, y1, j).0][neighbor(y0, y1, j).1],
        forall|j: int|
            0 <= j < k && walkable(room[neighbor(r, c, j).0][neighbor(r, c, j).1]) ==> #[trigger] seen[neighbor(
                r,
                c,
                j,
            ).0][neighbor(r, c, j).1],
    ensures
        ({
            let res = explore(room, fuel, r, c, k, dest, seen, found, false);
            !res.0 ==> {
                &&& sized(res.1)
                &&& grows(seen, res.1)
                &&& !res.1[dest.0][dest.1]
                &&& closed(room, seen0, res.1)
            }
        }),
    decreases fuel, 4 - k,
{
    if k >= 4 {
        assert(grows(seen, seen));
        assert forall|y0: int, y1: int, j: int|
            1 <= y0 <= 6 && 1 <= y1 <= 8 && 0 <= j < 4 && #[trigger] seen[y0][y1] && !seen0[y0][y1] && walkable(
                room[neighbor(y0, y1, j).0][neighbor(y0, y1, j).1],
            ) implies #[trigger] seen[neighbor(y0, y1, j).0][neighbor(y0, y1, j).1] by {
            if (y0, y1) == (r, c) {
                assert(0 <= j < k);
            }
        }
    } else {
        let nb = neighbor(r, c, k);
        // the neighbor lies within the grid
        assert(0 <= nb.0 < 8 && 0 <= nb.1 < 10);
        if !seen[nb.0][nb.1] && walkable(room[nb.0][nb.1]) {
            // a walkable cell lies inside the walls
            if nb.0 == 0 { assert(!walkable(room[0][nb.1])); }
            if nb.0 == 7 { assert(!walkable(room[7][nb.1])); }
            if nb.1 == 0 { assert(!walkable(room[nb.0][0])); }
            if nb.1 == 9 { assert(!walkable(room[nb.0][9])); }
            lemma_grid_unseen_pos(seen, nb.0, nb.1, 8);
            assert(fuel > 0);
            lemma_dfs_closed(room, (fuel - 1) as nat, nb.0, nb.1, dest, seen, found);
            let res = dfs(room, (fuel - 1) as nat, nb.0, nb.1, dest, seen, found, false);
            if !res.0 {
                let s2 = res.1;
                lemma_grid_unseen_grows(seen, s2, 8);
                lemma_grows_trans(seen0, seen, s2);
                assert forall|y0: int, y1: int, j: int|
                    1 <= y0 <= 6 && 1 <= y1 <= 8 && 0 <= j < 4 && (y0, y1) != (r, c) && #[trigger] s2[y0][y1]
                        && !seen0[y0][y1] && walkable(room[neighbor(y0, y1, j).0][neighbor(y0, y1, j).1])
                        implies #[trigger] s2[neighbor(y0, y1, j).0][neighbor(y0, y1, j).1] by {
                    if seen[y0][y1] {
                        let z = neighbor(y0, y1, j);
                        assert(seen[z.0][z.1]);
                    }
                }
                assert forall|j: int|
                    0 <= j < k + 1 && walkable(room[neighbor(r, c, j).0][neighbor(r, c, j).1]) implies #[trigger] s2[neighbor(
                    r,
                    c,
                    j,
                ).0][neighbor(r, c, j).1] by {
                    if j < k {
                        let z = neighbor(r, c, j);
                        assert(seen[z.0][z.1]);
                    }
                }
                lemma_explore_closed(room, fuel, r, c, k + 1, dest, seen0, s2, res.2);
                let res2 = explore(room, fuel, r, c, k + 1, dest, s2, res.2, false);
                if !res2.0 {
                    lemma_grows_trans(seen, s2, res2.1);
                }
            }
        } else {
            lemma_explore_closed(room, fuel, r, c, k + 1, dest, seen0, seen, found);
        }
    }
}

proof fn lemma_adjacent_neighbor(a: (int, int), b: (int, int))
    requires
        adjacent(a, b),
    ensures
        exists|k: int| 0 <= k < 4 && neighbor(a.0, a.1, k) == b,
{
    if b == (a.0 - 1, a.1) {
        assert(neighbor(a.0, a.1, 0) == b);
    } else if b == (a.0, a.1 - 1) {
        assert(neighbor(a.0, a.1, 1) == b);
    } else if b == (a.0, a.1 + 1) {
        assert(neighbor(a.0, a.1, 2) == b);
    } else {
        assert(neighbor(a.0, a.1, 3) == b);
    }
}

/// A room that is not a puzzle room, and that can be crossed, is accepted
/// by the search: a walk over walkable cells from the bottom door `(6, 4)`
/// to the cell `(1, 4)` below the top door is found.
pub proof fn lemma_walk_passable(room: Seq<Seq<usize>>, door_type: (usize, usize), p: Seq<(int, int)>)
    requires
        walled(room),
        door_type != PUZZLE_ROOM,
        walk_path(room, p, (6, 4), (1, 4)),
    ensures
        passable(room, door_type),
{
    let seen = fresh_seen();
    assert(sized(seen));
    lemma_grid_unseen_bound(seen, 8);
    lemma_dfs_closed(room, 80, 6, 4, (1, 4), seen, false);
    let res = dfs(room, 80, 6, 4, (1, 4), seen, false, false);
    if !res.0 {
        let s = res.1;
        // every cell of the walk is marked, the destination among them
        assert forall|i: int| 0 <= i < p.len() implies s[p[i].0][p[i].1] && 1 <= p[i].0 <= 6 && 1 <= p[i].1 <= 8 by {
            lemma_walk_marked(room, p, s, i);
        }
        assert(s[1][4]);
    }
}

proof fn lemma_walk_marked(room: Seq<Seq<usize>>, p: Seq<(int, int)>, s: Seq<Seq<bool>>, i: int)
    requires
        walled(room),
        sized(s),
        walk_path(room, p, (6, 4), (1, 4)),
        s[6][4],
        closed(room, fresh_seen(), s),
        0 <= i < p.len(),
    ensures
        s[p[i].0][p[i].1],
        1 <= p[i].0 <= 6,
        1 <= p[i].1 <= 8,
    decreases i,
{
    if i > 0 {
        lemma_walk_marked(room, p, s, i - 1);
        let a = p[i - 1];
        let b = p[i];
        assert(adjacent(a, b) && walkable(room[b.0][b.1]) && 0 <= b.0 < 8 && 0 <= b.1 < 10);
        lemma_adjacent_neighbor(a, b);
        let k = choose|k: int| 0 <= k < 4 && neighbor(a.0, a.1, k) == b;
        assert(!fresh_seen()[a.0][a.1]);
        assert(s[neighbor(a.0, a.1, k).0][neighbor(a.0, a.1, k).1]);
        // a walkable cell lies inside the walls
        if b.0 == 0 { assert(!walkable(room[0][b.1])); }
        if b.0 == 7 { assert(!walkable(room[7][b.1])); }
        if b.1 == 0 { assert(!walkable(room[b.0][0])); }
        if b.1 == 9 { assert(!walkable(room[b.0][9])); }
    }
}

/// The grid with the first `j` cells of `path` marked.
pub open spec fn marks(path: Seq<(int, int)>, j: int) -> Seq<Seq<bool>>
    decreases j,
{
    if j <= 0 {
        fresh_seen()
    } else {
        mark(marks(path, j - 1), path[j - 1].0, path[j - 1].1)
    }
}

/// Whether a button is found at one of the first `j` cells of `path`.
pub open spec fn buttons_upto(room: Seq<Seq<usize>>, path: Seq<(int, int)>, j: int) -> bool
    decreases j,
{
    if j <= 0 {
        false
    } else {
        buttons_upto(room, path, j - 1) || button_at(room, path[j - 1].0, path[j - 1].1)
    }
}

/// Cell `q` is one of the first `j` cells of `path`.
pub open spec fn among(path: Seq<(int, int)>, j: int, q: (int, int)) -> bool {
    exists|i: int| 0 <= i < j && path[i] == q
}

proof fn lemma_marks(path: Seq<(int, int)>, j: int)
    requires
        0 <= j <= path.len(),
        forall|i: int| 0 <= i < j ==> 0 <= (#[trigger] path[i]).0 < 8 && 0 <= path[i].1 < 10,
    ensures
        sized(marks(path, j)),
        forall|a: int, b: int|
            0 <= a < 8 && 0 <= b < 10 ==> (#[trigger] marks(path, j)[a][b] <==> among(path, j, (a, b))),
    decreases j,
{
    if j > 0 {
        lemma_marks(path, j - 1);
        let m = marks(path, j);
        assert forall|a: int, b: int| 0 <= a < 8 && 0 <= b < 10 implies (#[trigger] m[a][b] <==> among(path, j, (a, b))) by {
            if among(path, j - 1, (a, b)) {
                let i = choose|i: int| 0 <= i < j - 1 && path[i] == (a, b);
                assert(path[i] == (a, b));
            }
            if among(path, j, (a, b)) && !among(path, j - 1, (a, b)) {
                assert(path[j - 1] == (a, b));
            }
        }
    }
}

/// `path` is the course of the search from its first cell to `dest`: the
/// search moves from each cell to the next in direction `dirs[j]`, every
/// direction it tries before that leads to a cell that cannot be walked on
/// or was visited already, no cell is visited twice, and the destination is
/// reached with a button found if the room is a puzzle room.
pub open spec fn search_course(
    room: Seq<Seq<usize>>,
    path: Seq<(int, int)>,
    dirs: Seq<int>,
    dest: (int, int),
    puzzle: bool,
) -> bool {
    &&& 2 <= path.len() <= 80
    &&& dirs.len() == path.len() - 1
    &&& path.last() == dest
    &&& forall|i: int| 0 <= i < path.len() ==> 1 <= (#[trigger] path[i]).0 <= 6 && 1 <= path[i].1 <= 8
    &&& forall|j: int| 0 <= j < path.len() - 1 ==> #[trigger] path[j] != dest && !among(path, j, path[j])
    &&& forall|j: int|
        0 <= j < path.len() - 1 ==> {
            &&& 0 <= #[trigger] dirs[j] < 4
            &&& neighbor(path[j].0, path[j].1, dirs[j]) == path[j + 1]
            &&& walkable(room[path[j + 1].0][path[j + 1].1])
            &&& !among(path, j + 1, path[j + 1])
        }
    &&& forall|j: int, k: int|
        0 <= j < path.len() - 1 && 0 <= k < dirs[j] ==> {
            let nb = #[trigger] neighbor(path[j].0, path[j].1, k);
            !walkable(room[nb.0][nb.1]) || among(path, j + 1, nb)
        }
    &&& buttons_upto(room, path, path.len() - 1) || !puzzle
}

proof fn lemma_course_explore(
    room: Seq<Seq<usize>>,
    path: Seq<(int, int)>,
    dirs: Seq<int>,
    dest: (int, int),
    puzzle: bool,
    j: int,
    k: int,
)
    requires
        search_course(room, path, dirs, dest, puzzle),
        0 <= j < path.len() - 1,
        0 <= k <= dirs[j],
        dfs(
            room,
            (80 - j - 1) as nat,
            path[j + 1].0,
            path[j + 1].1,
            dest,
            marks(path, j + 1),
            buttons_upto(room, path, j + 1),
            puzzle,
        ).0,
    ensures
        explore(
            room,
            (80 - j) as nat,
            path[j].0,
            path[j].1,
            k,
            dest,
            marks(path, j + 1),
            buttons_upto(room, path, j + 1),
            puzzle,
        ).0,
    decreases dirs[j] - k,
{
    lemma_marks(path, j + 1);
    let nb = neighbor(path[j].0, path[j].1, k);
    assert(0 <= dirs[j] < 4);
    if k < dirs[j] {
        assert(!walkable(room[nb.0][nb.1]) || among(path, j + 1, nb));
        lemma_course_explore(room, path, dirs, dest, puzzle, j, k + 1);
    } else {
        assert(nb == path[j + 1]);
        assert(!among(path, j + 1, path[j + 1]));
    }
}

proof fn lemma_course_dfs(
    room: Seq<Seq<usize>>,
    path: Seq<(int, int)>,
    dirs: Seq<int>,
    dest: (int, int),
    puzzle: bool,
    j: int,
)
    requires
        search_course(room, path, dirs, dest, puzzle),
        0 <= j < path.len(),
    ensures
        dfs(
            room,
            (80 - j) as nat,
            path[j].0,
            path[j].1,
            dest,
            marks(path, j),
            buttons_upto(room, path, j),
            puzzle,
        ).0,
    decreases path.len() - j,
{
    if j < path.len() - 1 {
        lemma_course_dfs(room, path, dirs, dest, puzzle, j + 1);
        lemma_marks(path, j);
        assert(path[j] != dest && !among(path, j, path[j]));
        lemma_course_explore(room, path, dirs, dest, puzzle, j, 0);
    }
}

/// A room whose search follows a course from the bottom door to the cell
/// below the top door is accepted by the search.
proof fn lemma_course_passable(room: Seq<Seq<usize>>, door_type: (usize, usize), path: Seq<(int, int)>, dirs: Seq<int>)
    requires
        search_course(room, path, dirs, (1, 4), door_type == PUZZLE_ROOM),
        path[0] == (6int, 4int),
    ensures
        passable(room, door_type),
{
    lemma_course_dfs(room, path, dirs, (1, 4), door_type == PUZZLE_ROOM, 0);
}


/// Wall bottoms of the template before scan position `k`.
spec fn wall_bottoms(k: int) -> nat
    decreases k,
{
    if k <= 0 {
        0
    } else {
        wall_bottoms(k - 1) + if template(k - 1) == 8 { 1nat } else { 0nat }
    }
}

proof fn lemma_wall_bottoms()
    ensures
        wall_bottoms(14) == 0,
        wall_bottoms(22) == 1,
        wall_bottoms(62) == 2,
        wall_bottoms(70) == 3,
{
    reveal_with_fuel(wall_bottoms, 9);
    assert(wall_bottoms(8) == 0);
    assert(wall_bottoms(14) == 0);
    assert(wall_bottoms(16) == 1);
    assert(wall_bottoms(22) == 1);
    assert(wall_bottoms(24) == 2);
    assert(wall_bottoms(32) == 2);
    assert(wall_bottoms(40) == 2);
    assert(wall_bottoms(48) == 2);
    assert(wall_bottoms(56) == 2);
    assert(wall_bottoms(62) == 2);
    assert(wall_bottoms(64) == 3);
    assert(wall_bottoms(70) == 3);
}

proof fn lemma_floor_counts()
    ensures
        floor_count(9) == 0,
        floor_count(10) == 1,
        floor_count(11) == 2,
        floor_count(12) == 3,
        floor_count(13) == 4,
        floor_count(17) == 5,
        floor_count(20) == 8,
        floor_count(21) == 9,
        floor_count(25) == 10,
        floor_count(28) == 13,
        floor_count(29) == 14,
        floor_count(36) == 17,
        floor_count(44) == 20,
        floor_count(49) == 21,
        floor_count(52) == 24,
        floor_count(53) == 25,
        floor_count(57) == 26,
        floor_count(60) == 29,
        floor_count(61) == 30,
        floor_count(65) == 31,
        floor_count(66) == 32,
        floor_count(67) == 33,
        floor_count(68) == 34,
        floor_count(69) == 35,
{
    reveal_with_fuel(floor_count, 9);
    assert(floor_count(8) == 0);
    assert(floor_count(16) == 5);
    assert(floor_count(24) == 10);
    assert(floor_count(32) == 15);
    assert(floor_count(40) == 18);
    assert(floor_count(48) == 21);
    assert(floor_count(56) == 26);
    assert(floor_count(64) == 31);
    assert(floor_count(9) == 0);
    assert(floor_count(10) == 1);
    assert(floor_count(11) == 2);
    assert(floor_count(12) == 3);
    assert(floor_count(13) == 4);
    assert(floor_count(17) == 5);
    assert(floor_count(20) == 8);
    assert(floor_count(21) == 9);
    assert(floor_count(25) == 10);
    assert(floor_count(28) == 13);
    assert(floor_count(29) == 14);
    assert(floor_count(36) == 17);
    assert(floor_count(44) == 20);
    assert(floor_count(49) == 21);
    assert(floor_count(52) == 24);
    assert(floor_count(53) == 25);
    assert(floor_count(57) == 26);
    assert(floor_count(60) == 29);
    assert(floor_count(61) == 30);
    assert(floor_count(65) == 31);
    assert(floor_count(66) == 32);
    assert(floor_count(67) == 33);
    assert(floor_count(68) == 34);
    assert(floor_count(69) == 35);
}

/// In a wall-button puzzle room whose fill holds only floors, blocks and
/// floor buttons, the wall-button slots are exactly the template's wall
/// bottoms.
proof fn lemma_wall_count_bottoms(tiles: Seq<usize>, k: int)
    requires
        tiles.len() == 36,
        forall|i: int| 0 <= i < 36 ==> #[trigger] tiles[i] == 15 || tiles[i] == 28 || tiles[i] == 29,
        0 <= k <= 80,
    ensures
        wall_count(tiles, PUZZLE_ROOM, 2, k) == wall_bottoms(k),
    decreases k,
{
    if k > 0 {
        lemma_wall_count_bottoms(tiles, k - 1);
        if template(k - 1) == 15 {
            lemma_floor_slot(k - 1);
            let fc = floor_count(k - 1) as int;
            assert(tiles[fc] == 15 || tiles[fc] == 28 || tiles[fc] == 29);
        }
    }
}

/// The cell `(y, x)` of a wall-button puzzle room laid out from a fill of
/// floors, blocks and floor buttons.
proof fn lemma_puzzle_cell(tiles: Seq<usize>, loc: usize, x: int, y: int)
    requires
        tiles.len() == 36,
        forall|i: int| 0 <= i < 36 ==> #[trigger] tiles[i] == 15 || tiles[i] == 28 || tiles[i] == 29,
        0 <= x < 10,
        0 <= y < 8,
    ensures
        ({
            let k = x * 8 + y;
            let t = build_room(tiles, PUZZLE_ROOM, 2, loc)[y][x];
            &&& template(k) == 15 ==> t == tiles[floor_count(k) as int]
            &&& template(k) == 8 ==> t == if wall_bottoms(k) == loc { 35usize } else { 8usize }
            &&& template(k) != 15 && template(k) != 8 && template(k) != 33 && template(k) != 34 ==> t
                == template(k)
        }),
{
    lemma_scan_index(x, y);
    let k = x * 8 + y;
    lemma_wall_count_bottoms(tiles, k);
    if template(k) == 15 {
        lemma_floor_slot(k);
        let fc = floor_count(k) as int;
        assert(tiles[fc] == 15 || tiles[fc] == 28 || tiles[fc] == 29);
    }
}

/// The slots that hold a block in the fill of a wall-button puzzle room
/// laid out when every drawn room was blocked: a row of blocks that leaves
/// a lane along the left wall (`left`) or along the right wall open.
spec fn wall_block(left: bool, i: int) -> bool {
    ||| i == 8 || i == 13 || i == 17 || i == 20 || i == 24 || i == 29
    ||| left && 32 <= i <= 34
    ||| !left && (i == 2 || i == 3 || i == 14)
}

spec fn wall_fill(left: bool) -> Seq<usize> {
    Seq::new(36, |i: int| if wall_block(left, i) { 28usize } else { 15usize })
}

/// Lays out the fill `wall_fill(left)`, which has nine blocks and no floor
/// button.
fn wall_puzzle_fill(left: bool) -> (tiles: [usize; 36])
    ensures
        tiles@ == wall_fill(left),
        count_of(tiles@, 28) == 9,
        count_of(tiles@, 29) == 0,
{
    let mut tiles = [15usize; 36];
    proof {
        lemma_count_absent(tiles@, 28);
        lemma_count_absent(tiles@, 29);
    }
    put_block(&mut tiles, 8);
    put_block(&mut tiles, 13);
    put_block(&mut tiles, 17);
    put_block(&mut tiles, 20);
    put_block(&mut tiles, 24);
    put_block(&mut tiles, 29);
    if left {
        put_block(&mut tiles, 32);
        put_block(&mut tiles, 33);
        put_block(&mut tiles, 34);
    } else {
        put_block(&mut tiles, 2);
        put_block(&mut tiles, 3);
        put_block(&mut tiles, 14);
    }
    assert(tiles@ =~= wall_fill(left));
    tiles
}

/// No cell of a course whose cells each map back to their own position
/// under `index` is visited twice.
proof fn lemma_course_distinct(path: Seq<(int, int)>, index: spec_fn((int, int)) -> int)
    requires
        forall|i: int| 0 <= i < path.len() ==> index(#[trigger] path[i]) == i,
    ensures
        forall|j: int| 0 <= j < path.len() ==> !#[trigger] among(path, j, path[j]),
{
    assert forall|j: int| 0 <= j < path.len() implies !#[trigger] among(path, j, path[j]) by {
        if among(path, j, path[j]) {
            let i = choose|i: int| 0 <= i < j && path[i] == path[j];
            assert(index(path[i]) == i);
            assert(index(path[j]) == j);
        }
    }
}

proof fn lemma_buttons_upto_mono(room: Seq<Seq<usize>>, path: Seq<(int, int)>, j: int, m: int)
    requires
        buttons_upto(room, path, j),
        j <= m,
    ensures
        buttons_upto(room, path, m),
    decreases m - j,
{
    if j < m {
        lemma_buttons_upto_mono(room, path, j, m - 1);
    }
}

/// The course of the search through the room of `wall_fill(true)`: left
/// along the row below the door, past both left wall bottoms, down the lane
/// by the left wall and right to the cell below the other door.
spec fn left_course(i: int) -> (int, int) {
    if i == 0 {
        (6, 4)
    } else if i == 1 {
        (5, 4)
    } else if i == 2 {
        (5, 3)
    } else if i == 3 {
        (5, 2)
    } else if i == 4 {
        (5, 1)
    } else if i == 5 {
        (4, 1)
    } else if i == 6 {
        (3, 1)
    } else if i == 7 {
        (2, 1)
    } else if i == 8 {
        (1, 1)
    } else if i == 9 {
        (1, 2)
    } else if i == 10 {
        (1, 3)
    } else {
        (1, 4)
    }
}

spec fn left_turn(j: int) -> int {
    if 1 <= j <= 3 {
        1
    } else if j >= 8 {
        2
    } else {
        0
    }
}

spec fn left_index(q: (int, int)) -> int {
    if q == (6int, 4int) {
        0
    } else if q == (5int, 4int) {
        1
    } else if q == (5int, 3int) {
        2
    } else if q == (5int, 2int) {
        3
    } else if q == (5int, 1int) {
        4
    } else if q == (4int, 1int) {
        5
    } else if q == (3int, 1int) {
        6
    } else if q == (2int, 1int) {
        7
    } else if q == (1int, 1int) {
        8
    } else if q == (1int, 2int) {
        9
    } else if q == (1int, 3int) {
        10
    } else {
        11
    }
}

/// The room of `wall_fill(true)` with its wall button on one of the two
/// left wall bottoms can be crossed.
proof fn lemma_left_wall_passable(loc: usize)
    requires
        loc < 2,
    ensures
        passable(build_room(wall_fill(true), PUZZLE_ROOM, 2, loc), PUZZLE_ROOM),
{
    let tiles = wall_fill(true);
    let room = build_room(tiles, PUZZLE_ROOM, 2, loc);
    lemma_floor_counts();
    lemma_wall_bottoms();
    lemma_built_walled(tiles, PUZZLE_ROOM, 2, loc);
    assert(template(37) == 17 && template(33) == 16);
    assert(template(14) == 8 && template(22) == 8);
    lemma_puzzle_cell(tiles, loc, 4, 5);
    lemma_puzzle_cell(tiles, loc, 3, 5);
    lemma_puzzle_cell(tiles, loc, 2, 5);
    lemma_puzzle_cell(tiles, loc, 1, 5);
    lemma_puzzle_cell(tiles, loc, 1, 4);
    lemma_puzzle_cell(tiles, loc, 1, 3);
    lemma_puzzle_cell(tiles, loc, 1, 2);
    lemma_puzzle_cell(tiles, loc, 1, 1);
    lemma_puzzle_cell(tiles, loc, 2, 1);
    lemma_puzzle_cell(tiles, loc, 3, 1);
    lemma_puzzle_cell(tiles, loc, 4, 1);
    lemma_puzzle_cell(tiles, loc, 4, 4);
    lemma_puzzle_cell(tiles, loc, 3, 4);
    lemma_puzzle_cell(tiles, loc, 2, 4);
    lemma_puzzle_cell(tiles, loc, 1, 6);
    lemma_puzzle_cell(tiles, loc, 2, 6);
    assert(walkable(room[5][4]) && walkable(room[5][3]) && walkable(room[5][2]) && walkable(room[5][1]));
    assert(walkable(room[4][1]) && walkable(room[3][1]) && walkable(room[2][1]) && walkable(room[1][1]));
    assert(walkable(room[1][2]) && walkable(room[1][3]) && walkable(room[1][4]));
    assert(!walkable(room[4][4]) && !walkable(room[4][3]) && !walkable(room[4][2]));
    assert(!walkable(room[0][1]) && !walkable(room[0][2]) && !walkable(room[0][3]) && !walkable(room[1][0]));
    let path = Seq::new(12, |i: int| left_course(i));
    let dirs = Seq::new(11, |j: int| left_turn(j));
    assert forall|i: int| 0 <= i < path.len() implies left_index(#[trigger] path[i]) == i by {
    }
    lemma_course_distinct(path, |q: (int, int)| left_index(q));
    assert forall|j: int| 0 <= j < path.len() - 1 implies {
        &&& 0 <= #[trigger] dirs[j] < 4
        &&& neighbor(path[j].0, path[j].1, dirs[j]) == path[j + 1]
        &&& walkable(room[path[j + 1].0][path[j + 1].1])
        &&& !among(path, j + 1, path[j + 1])
    } by {
        assert(!among(path, j + 1, path[j + 1]));
    }
    assert forall|j: int, k: int| 0 <= j < path.len() - 1 && 0 <= k < dirs[j] implies {
        let nb = #[trigger] neighbor(path[j].0, path[j].1, k);
        !walkable(room[nb.0][nb.1]) || among(path, j + 1, nb)
    } by {
        if j == 9 && k == 1 {
            assert(path[8] == (1int, 1int));
        }
        if j == 10 && k == 1 {
            assert(path[9] == (1int, 2int));
        }
    }
    assert(buttons_upto(room, path, 5)) by {
        if loc == 0 {
            assert(button_at(room, 5, 1));
        } else {
            assert(button_at(room, 5, 2));
            assert(buttons_upto(room, path, 4));
        }
    }
    lemma_buttons_upto_mono(room, path, 5, 11);
    assert(search_course(room, path, dirs, (1, 4), true));
    lemma_course_passable(room, PUZZLE_ROOM, path, dirs);
}

/// The course of the search through the room of `wall_fill(false)`: right
/// along the row below the door, past both right wall bottoms, down the
/// lane by the right wall and left to the cell below the other door.
spec fn right_course(i: int) -> (int, int) {
    if i == 0 {
        (6, 4)
    } else if i == 1 {
        (5, 4)
    } else if i == 2 {
        (5, 5)
    } else if i == 3 {
        (5, 6)
    } else if i == 4 {
        (5, 7)
    } else if i == 5 {
        (5, 8)
    } else if i == 6 {
        (4, 8)
    } else if i == 7 {
        (3, 8)
    } else if i == 8 {
        (2, 8)
    } else if i == 9 {
        (1, 8)
    } else if i == 10 {
        (1, 7)
    } else if i == 11 {
        (1, 6)
    } else if i == 12 {
        (1, 5)
    } else {
        (1, 4)
    }
}

spec fn right_turn(j: int) -> int {
    if 1 <= j <= 4 {
        2
    } else if j >= 9 {
        1
    } else {
        0
    }
}

spec fn right_index(q: (int, int)) -> int {
    if q == (6int, 4int) {
        0
    } else if q == (5int, 4int) {
        1
    } else if q == (5int, 5int) {
        2
    } else if q == (5int, 6int) {
        3
    } else if q == (5int, 7int) {
        4
    } else if q == (5int, 8int) {
        5
    } else if q == (4int, 8int) {
        6
    } else if q == (3int, 8int) {
        7
    } else if q == (2int, 8int) {
        8
    } else if q == (1int, 8int) {
        9
    } else if q == (1int, 7int) {
        10
    } else if q == (1int, 6int) {
        11
    } else if q == (1int, 5int) {
        12
    } else {
        13
    }
}

/// The room of `wall_fill(false)` with its wall button on one of the two
/// right wall bottoms can be crossed.
proof fn lemma_right_wall_passable(loc: usize)
    requires
        2 <= loc < 4,
    ensures
        passable(build_room(wall_fill(false), PUZZLE_ROOM, 2, loc), PUZZLE_ROOM),
{
    let tiles = wall_fill(false);
    let room = build_room(tiles, PUZZLE_ROOM, 2, loc);
    lemma_floor_counts();
    lemma_wall_bottoms();
    lemma_built_walled(tiles, PUZZLE_ROOM, 2, loc);
    assert(template(37) == 17 && template(33) == 16 && template(45) == 18 && template(41) == 19);
    assert(template(62) == 8 && template(70) == 8);
    lemma_puzzle_cell(tiles, loc, 4, 5);
    lemma_puzzle_cell(tiles, loc, 5, 5);
    lemma_puzzle_cell(tiles, loc, 6, 5);
    lemma_puzzle_cell(tiles, loc, 7, 5);
    lemma_puzzle_cell(tiles, loc, 8, 5);
    lemma_puzzle_cell(tiles, loc, 8, 4);
    lemma_puzzle_cell(tiles, loc, 8, 3);
    lemma_puzzle_cell(tiles, loc, 8, 2);
    lemma_puzzle_cell(tiles, loc, 8, 1);
    lemma_puzzle_cell(tiles, loc, 7, 1);
    lemma_puzzle_cell(tiles, loc, 6, 1);
    lemma_puzzle_cell(tiles, loc, 5, 1);
    lemma_puzzle_cell(tiles, loc, 4, 1);
    lemma_puzzle_cell(tiles, loc, 4, 4);
    lemma_puzzle_cell(tiles, loc, 3, 5);
    lemma_puzzle_cell(tiles, loc, 5, 4);
    lemma_puzzle_cell(tiles, loc, 6, 4);
    lemma_puzzle_cell(tiles, loc, 7, 4);
    lemma_puzzle_cell(tiles, loc, 7, 6);
    lemma_puzzle_cell(tiles, loc, 8, 6);
    assert(walkable(room[5][4]) && walkable(room[5][5]) && walkable(room[5][6]) && walkable(room[5][7]));
    assert(walkable(room[5][8]) && walkable(room[4][8]) && walkable(room[3][8]) && walkable(room[2][8]));
    assert(walkable(room[1][8]) && walkable(room[1][7]) && walkable(room[1][6]) && walkable(room[1][5]));
    assert(walkable(room[1][4]));
    assert(!walkable(room[4][4]) && !walkable(room[5][3]) && !walkable(room[4][5]) && !walkable(room[4][6]));
    assert(!walkable(room[4][7]));
    assert(!walkable(room[0][8]) && !walkable(room[0][7]) && !walkable(room[0][6]) && !walkable(room[0][5]));
    let path = Seq::new(14, |i: int| right_course(i));
    let dirs = Seq::new(13, |j: int| right_turn(j));
    assert forall|i: int| 0 <= i < path.len() implies right_index(#[trigger] path[i]) == i by {
    }
    lemma_course_distinct(path, |q: (int, int)| right_index(q));
    assert forall|j: int| 0 <= j < path.len() - 1 implies {
        &&& 0 <= #[trigger] dirs[j] < 4
        &&& neighbor(path[j].0, path[j].1, dirs[j]) == path[j + 1]
        &&& walkable(room[path[j + 1].0][path[j + 1].1])
        &&& !among(path, j + 1, path[j + 1])
    } by {
        assert(!among(path, j + 1, path[j + 1]));
    }
    assert forall|j: int, k: int| 0 <= j < path.len() - 1 && 0 <= k < dirs[j] implies {
        let nb = #[trigger] neighbor(path[j].0, path[j].1, k);
        !walkable(room[nb.0][nb.1]) || among(path, j + 1, nb)
    } by {
        if j == 2 && k == 1 {
            assert(path[1] == (5int, 4int));
        }
        if j == 3 && k == 1 {
            assert(path[2] == (5int, 5int));
        }
        if j == 4 && k == 1 {
            assert(path[3] == (5int, 6int));
        }
    }
    assert(buttons_upto(room, path, 6)) by {
        if loc == 3 {
            assert(button_at(room, 5, 8));
        } else {
            assert(button_at(room, 5, 7));
            assert(buttons_upto(room, path, 5));
        }
    }
    lemma_buttons_upto_mono(room, path, 6, 13);
    assert(search_course(room, path, dirs, (1, 4), true));
    lemma_course_passable(room, PUZZLE_ROOM, path, dirs);
}

} // verus!
