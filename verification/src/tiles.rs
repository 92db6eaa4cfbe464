//! What is placed on each cell of a room: floors, carpets, blocks, buttons,
//! doors and walls, with their depth and the box they collide with.

use vstd::prelude::*;
use crate::random::random_usize;
use crate::room::{ROOM, STANDARD_ROOM, PUZZLE_ROOM, generate_room, generated_room, grid, walkable, same_door};

verus! {

/// The tile sets that rooms are drawn with.
#[derive(PartialEq, Eq, Structural, Clone, Copy, Debug)]
pub enum TileSet {
    Dungeon,
    Outside,
    Pvp,
}

/// What a placed tile is.
#[derive(PartialEq, Eq, Structural, Clone, Copy, Debug)]
pub enum TileKind {
    /// Plain floor.
    Floor,
    /// Floor under a carpet, which clearing the floor leaves.
    Carpet,
    /// A wall piece that goes with the room's contents.
    Block,
    /// A button on the floor.
    FloorButton,
    /// The open door.
    Door,
    /// The wall that keeps the door closed until the room is done.
    ClosedDoor,
    /// A button on the wall.
    WallButton,
    /// A wall of the room's shell.
    Wall,
}

/// How far in front a tile is drawn.
#[derive(PartialEq, Eq, Structural, Clone, Copy, Debug)]
pub enum Depth {
    /// With the floor.
    Ground,
    /// Just above the floor.
    Raised,
    /// In front of the other tiles.
    Front,
}

/// The width and height of a collision box.
#[derive(PartialEq, Eq, Structural, Clone, Copy, Debug)]
pub struct BoxSize {
    pub width: u32,
    pub height: u32,
}

/// One tile to place: its cell (column from the left, row from the
/// bottom), its index in the tile set, what it is, its depth, and the
/// width and height of the box it collides with, if it collides.
#[derive(PartialEq, Eq, Structural, Clone, Copy, Debug)]
pub struct TileSpawn {
    pub column: usize,
    pub row: usize,
    pub index: usize,
    pub kind: TileKind,
    pub depth: Depth,
    pub collider: Option<BoxSize>,
}

/// The tile at cell `(column, row)`.
pub open spec fn tile_at(
    column: usize,
    row: usize,
    index: usize,
    kind: TileKind,
    depth: Depth,
    collider: Option<BoxSize>,
) -> TileSpawn {
    TileSpawn { column, row, index, kind, depth, collider }
}

/// Door-top tiles of the three kinds of room.
pub open spec fn door_top(index: usize) -> bool {
    index == 33 || index == 34 || index == 3 || index == 4 || index == 24 || index == 25
}

/// What a cell of a generated room places. A door also gets a closed door
/// in front of it (index 21 further on) when `closed_doors` holds.
pub open spec fn content_tile(index: usize, column: usize, row: usize, closed_doors: bool) -> Seq<TileSpawn> {
    if index == 15 {
        seq![tile_at(column, row, index, TileKind::Floor, Depth::Ground, None)]
    } else if 16 <= index <= 19 {
        seq![tile_at(column, row, index, TileKind::Carpet, Depth::Ground, None)]
    } else if index == 28 {
        seq![tile_at(column, row, index, TileKind::Block, Depth::Ground, Some(BoxSize { width: 80, height: 80 }))]
    } else if index == 29 || index == 30 {
        seq![tile_at(column, row, index, TileKind::FloorButton, Depth::Ground, Some(BoxSize { width: 50, height: 50 }))]
    } else if index == 10 || index == 11 {
        let door = tile_at(column, row, index, TileKind::Door, Depth::Ground, Some(BoxSize { width: 80, height: 5 }));
        if closed_doors {
            seq![door, tile_at(column, row, (index + 21) as usize, TileKind::ClosedDoor, Depth::Front, Some(BoxSize { width: 80, height: 20 }))]
        } else {
            seq![door]
        }
    } else if door_top(index) {
        seq![tile_at(column, row, index, TileKind::Block, Depth::Ground, None)]
    } else if index == 35 || index == 36 {
        seq![tile_at(column, row, index, TileKind::WallButton, Depth::Raised, Some(BoxSize { width: 50, height: 50 }))]
    } else {
        seq![]
    }
}

/// What a cell of the empty room places: its doors are always closed, and
/// its door tops are solid.
pub open spec fn empty_tile(index: usize, column: usize, row: usize) -> Seq<TileSpawn> {
    if index == 15 {
        seq![tile_at(column, row, index, TileKind::Floor, Depth::Ground, None)]
    } else if 16 <= index <= 19 {
        seq![tile_at(column, row, index, TileKind::Carpet, Depth::Ground, None)]
    } else if index == 28 {
        seq![tile_at(column, row, index, TileKind::Block, Depth::Ground, Some(BoxSize { width: 80, height: 80 }))]
    } else if index == 29 || index == 30 {
        seq![tile_at(column, row, index, TileKind::FloorButton, Depth::Ground, Some(BoxSize { width: 50, height: 50 }))]
    } else if index == 10 || index == 11 {
        seq![
            tile_at(column, row, index, TileKind::Door, Depth::Ground, Some(BoxSize { width: 80, height: 5 })),
            tile_at(column, row, (index + 21) as usize, TileKind::ClosedDoor, Depth::Front, Some(BoxSize { width: 80, height: 20 })),
        ]
    } else if index == 33 || index == 34 {
        seq![tile_at(column, row, index, TileKind::Block, Depth::Raised, Some(BoxSize { width: 80, height: 80 }))]
    } else {
        seq![]
    }
}

/// Tiles that the shell leaves to the room's contents.
pub open spec fn inner_tile(index: usize) -> bool {
    (15 <= index <= 19) || index == 29 || index == 30 || index == 10 || index == 11 || index == 33 || index == 34
}

/// Shell tiles that lie along a row: their box is wide and flat.
pub open spec fn flat_wall(index: usize) -> bool {
    index == 22 || index == 23 || index == 26 || index == 9 || index == 8 || index == 12
}

/// What a cell of the shell places: a wall on every tile that is not
/// left to the contents.
pub open spec fn shell_tile(index: usize, column: usize, row: usize) -> Seq<TileSpawn> {
    if inner_tile(index) {
        seq![]
    } else {
        let size = if flat_wall(index) { BoxSize { width: 80, height: 25 } } else { BoxSize { width: 25, height: 80 } };
        seq![tile_at(column, row, index, TileKind::Wall, Depth::Ground, Some(size))]
    }
}

/// The tiles of the cells before the `k`-th, taking the cells column by
/// column and, within a column, from the bottom row up.
pub open spec fn spawns_upto(cell: spec_fn(int, int) -> Seq<TileSpawn>, k: int) -> Seq<TileSpawn>
    decreases k,
{
    if k <= 0 {
        seq![]
    } else {
        spawns_upto(cell, k - 1) + cell((k - 1) / 8, (k - 1) % 8)
    }
}

/// The tile index of the empty room's cell, with rows counted from the bottom.
pub open spec fn template_index(column: int, row: int, dungeon_atlas_len: usize) -> usize {
    (ROOM@[7 - row]@[column] % dungeon_atlas_len) as usize
}

/// Whether doors of the room get a closed door in front of them: in rooms
/// that are not standard, except on the PvP tile set.
pub open spec fn closed_doors(room_type: (usize, usize), tile_set: TileSet) -> bool {
    room_type != STANDARD_ROOM && tile_set != TileSet::Pvp
}

/// The tiles that a generated room places.
pub open spec fn contents_plan(room: Seq<Seq<usize>>, room_type: (usize, usize), tile_set: TileSet) -> Seq<TileSpawn> {
    spawns_upto(
        |x: int, y: int| content_tile(room[y][x], x as usize, y as usize, closed_doors(room_type, tile_set)),
        80,
    )
}

/// The tiles that the empty room places.
pub open spec fn empty_plan(dungeon_atlas_len: usize) -> Seq<TileSpawn> {
    spawns_upto(|x: int, y: int| empty_tile(template_index(x, y, dungeon_atlas_len), x as usize, y as usize), 80)
}

/// The walls of the room's shell.
pub open spec fn shell_plan(dungeon_atlas_len: usize) -> Seq<TileSpawn> {
    spawns_upto(|x: int, y: int| shell_tile(template_index(x, y, dungeon_atlas_len), x as usize, y as usize), 80)
}

proof fn lemma_spawns_all(cell: spec_fn(int, int) -> Seq<TileSpawn>, k: int, p: spec_fn(TileSpawn) -> bool)
    requires
        k <= 80,
        forall|x: int, y: int, i: int|
            0 <= x < 10 && 0 <= y < 8 && 0 <= i < cell(x, y).len() ==> #[trigger] p(#[trigger] cell(x, y)[i]),
    ensures
        forall|i: int| 0 <= i < spawns_upto(cell, k).len() ==> #[trigger] p(spawns_upto(cell, k)[i]),
    decreases k,
{
    if k > 0 {
        lemma_spawns_all(cell, k - 1, p);
        let x = (k - 1) / 8;
        let y = (k - 1) % 8;
        let before = spawns_upto(cell, k - 1);
        let all = spawns_upto(cell, k);
        assert forall|i: int| 0 <= i < all.len() implies #[trigger] p(all[i]) by {
            if i < before.len() {
                assert(all[i] == before[i]);
            } else {
                assert(all[i] == cell(x, y)[i - before.len()]);
            }
        }
    }
}

proof fn lemma_cell_index(x: int, y: int)
    requires
        0 <= x < 10,
        0 <= y < 8,
    ensures
        (x * 8 + y) / 8 == x,
        (x * 8 + y) % 8 == y,
        x * 8 + y + 1 <= 80,
{
    assert((x * 8 + y) / 8 == x && (x * 8 + y) % 8 == y) by (nonlinear_arith)
        requires
            0 <= y < 8,
    ;
}

fn push_content_tile(out: &mut Vec<TileSpawn>, index: usize, column: usize, row: usize, closed: bool)
    ensures
        final(out)@ == old(out)@ + content_tile(index, column, row, closed),
{
    if index == 15 {
        out.push(TileSpawn { column, row, index, kind: TileKind::Floor, depth: Depth::Ground, collider: None });
    } else if 16 <= index && index <= 19 {
        out.push(TileSpawn { column, row, index, kind: TileKind::Carpet, depth: Depth::Ground, collider: None });
    } else if index == 28 {
        out.push(TileSpawn { column, row, index, kind: TileKind::Block, depth: Depth::Ground, collider: Some(BoxSize { width: 80, height: 80 }) });
    } else if index == 29 || index == 30 {
        out.push(TileSpawn { column, row, index, kind: TileKind::FloorButton, depth: Depth::Ground, collider: Some(BoxSize { width: 50, height: 50 }) });
    } else if index == 10 || index == 11 {
        out.push(TileSpawn { column, row, index, kind: TileKind::Door, depth: Depth::Ground, collider: Some(BoxSize { width: 80, height: 5 }) });
        if closed {
            // the "closed door" wall over the door, removed when the door opens
            out.push(TileSpawn {
                column,
                row,
                index: index + 21,
                kind: TileKind::ClosedDoor,
                depth: Depth::Front,
                collider: Some(BoxSize { width: 80, height: 20 }),
            });
        }
    } else if index == 33 || index == 34 || index == 3 || index == 4 || index == 24 || index == 25 {
        // door tops go with the contents so that they are cleared with them
        out.push(TileSpawn { column, row, index, kind: TileKind::Block, depth: Depth::Ground, collider: None });
    } else if index == 35 || index == 36 {
        out.push(TileSpawn { column, row, index, kind: TileKind::WallButton, depth: Depth::Raised, collider: Some(BoxSize { width: 50, height: 50 }) });
    }
    proof {
        assert(final(out)@ =~= old(out)@ + content_tile(index, column, row, closed));
    }
}

fn push_empty_tile(out: &mut Vec<TileSpawn>, index: usize, column: usize, row: usize)
    ensures
        final(out)@ == old(out)@ + empty_tile(index, column, row),
{
    if index == 15 {
        out.push(TileSpawn { column, row, index, kind: TileKind::Floor, depth: Depth::Ground, collider: None });
    } else if 16 <= index && index <= 19 {
        out.push(TileSpawn { column, row, index, kind: TileKind::Carpet, depth: Depth::Ground, collider: None });
    } else if index == 28 {
        out.push(TileSpawn { column, row, index, kind: TileKind::Block, depth: Depth::Ground, collider: Some(BoxSize { width: 80, height: 80 }) });
    } else if index == 29 || index == 30 {
        out.push(TileSpawn { column, row, index, kind: TileKind::FloorButton, depth: Depth::Ground, collider: Some(BoxSize { width: 50, height: 50 }) });
    } else if index == 10 || index == 11 {
        out.push(TileSpawn { column, row, index, kind: TileKind::Door, depth: Depth::Ground, collider: Some(BoxSize { width: 80, height: 5 }) });
        out.push(TileSpawn {
            column,
            row,
            index: index + 21,
            kind: TileKind::ClosedDoor,
            depth: Depth::Front,
            collider: Some(BoxSize { width: 80, height: 20 }),
        });
    } else if index == 33 || index == 34 {
        out.push(TileSpawn { column, row, index, kind: TileKind::Block, depth: Depth::Raised, collider: Some(BoxSize { width: 80, height: 80 }) });
    }
    proof {
        assert(final(out)@ =~= old(out)@ + empty_tile(index, column, row));
    }
}

fn push_shell_tile(out: &mut Vec<TileSpawn>, index: usize, column: usize, row: usize)
    ensures
        final(out)@ == old(out)@ + shell_tile(index, column, row),
{
    let inner = (15 <= index && index <= 19) || index == 29 || index == 30 || index == 10 || index == 11
        || index == 33 || index == 34;
    if !inner {
        let flat = index == 22 || index == 23 || index == 26 || index == 9 || index == 8 || index == 12;
        let size = if flat { BoxSize { width: 80, height: 25 } } else { BoxSize { width: 25, height: 80 } };
        out.push(TileSpawn { column, row, index, kind: TileKind::Wall, depth: Depth::Ground, collider: Some(size) });
    }
    proof {
        assert(final(out)@ =~= old(out)@ + shell_tile(index, column, row));
    }
}

/// The tiles that a generated room places, cell by cell, column by column
/// from the left and each column from the bottom row up.
pub fn room_contents(room: &[[usize; 10]; 8], room_type: (usize, usize), tile_set: TileSet) -> (spawns: Vec<TileSpawn>)
    ensures
        spawns@ == contents_plan(grid(*room), room_type, tile_set),
{
    let closed = !same_door(room_type, STANDARD_ROOM) && match tile_set {
        TileSet::Pvp => false,
        _ => true,
    };
    let ghost g = grid(*room);
    let ghost cell = |x: int, y: int| content_tile(g[y][x], x as usize, y as usize, closed_doors(room_type, tile_set));
    let mut spawns: Vec<TileSpawn> = Vec::new();
    let mut x: usize = 0;
    while x < 10
        invariant
            x <= 10,
            closed == closed_doors(room_type, tile_set),
            g == grid(*room),
            cell == (|x: int, y: int| content_tile(g[y][x], x as usize, y as usize, closed_doors(room_type, tile_set))),
            spawns@ == spawns_upto(cell, x * 8),
        decreases 10 - x,
    {
        let mut y: usize = 0;
        while y < 8
            invariant
                x < 10,
                y <= 8,
                closed == closed_doors(room_type, tile_set),
                g == grid(*room),
                cell == (|x: int, y: int| content_tile(g[y][x], x as usize, y as usize, closed_doors(room_type, tile_set))),
                spawns@ == spawns_upto(cell, x * 8 + y),
            decreases 8 - y,
        {
            proof {
                lemma_cell_index(x as int, y as int);
            }
            push_content_tile(&mut spawns, room[y][x], x, y, closed);
            y += 1;
        }
        x += 1;
    }
    spawns
}

/// The tiles of the empty room: the template's cells, each tile index taken
/// modulo the size of the tile set.
pub fn spawn_empty_contents(dungeon_atlas_len: usize) -> (spawns: Vec<TileSpawn>)
    requires
        dungeon_atlas_len > 0,
    ensures
        spawns@ == empty_plan(dungeon_atlas_len),
{
    let ghost cell = |x: int, y: int| empty_tile(template_index(x, y, dungeon_atlas_len), x as usize, y as usize);
    let mut spawns: Vec<TileSpawn> = Vec::new();
    let mut x: usize = 0;
    while x < 10
        invariant
            x <= 10,
            dungeon_atlas_len > 0,
            cell == (|x: int, y: int| empty_tile(template_index(x, y, dungeon_atlas_len), x as usize, y as usize)),
            spawns@ == spawns_upto(cell, x * 8),
        decreases 10 - x,
    {
        let mut y: usize = 0;
        while y < 8
            invariant
                x < 10,
                y <= 8,
                dungeon_atlas_len > 0,
                cell == (|x: int, y: int| empty_tile(template_index(x, y, dungeon_atlas_len), x as usize, y as usize)),
                spawns@ == spawns_upto(cell, x * 8 + y),
            decreases 8 - y,
        {
            proof {
                lemma_cell_index(x as int, y as int);
            }
            // rows counted from the bottom
            let tile_index = ROOM[7 - y][x] % dungeon_atlas_len;
            push_empty_tile(&mut spawns, tile_index, x, y);
            y += 1;
        }
        x += 1;
    }
    spawns
}

/// The walls of the room's shell: a wall on every template cell whose tile
/// is not left to the contents, so never on a tile that can be walked on.
pub fn spawn_room_shell(dungeon_atlas_len: usize) -> (spawns: Vec<TileSpawn>)
    requires
        dungeon_atlas_len > 0,
    ensures
        spawns@ == shell_plan(dungeon_atlas_len),
        forall|i: int| 0 <= i < spawns@.len() ==> #[trigger] spawns@[i].kind == TileKind::Wall && !walkable(spawns@[i].index),
{
    let ghost cell = |x: int, y: int| shell_tile(template_index(x, y, dungeon_atlas_len), x as usize, y as usize);
    let mut spawns: Vec<TileSpawn> = Vec::new();
    let mut x: usize = 0;
    while x < 10
        invariant
            x <= 10,
            dungeon_atlas_len > 0,
            cell == (|x: int, y: int| shell_tile(template_index(x, y, dungeon_atlas_len), x as usize, y as usize)),
            spawns@ == spawns_upto(cell, x * 8),
        decreases 10 - x,
    {
        let mut y: usize = 0;
        while y < 8
            invariant
                x < 10,
                y <= 8,
                dungeon_atlas_len > 0,
                cell == (|x: int, y: int| shell_tile(template_index(x, y, dungeon_atlas_len), x as usize, y as usize)),
                spawns@ == spawns_upto(cell, x * 8 + y),
            decreases 8 - y,
        {
            proof {
                lemma_cell_index(x as int, y as int);
            }
            let tile_index = ROOM[7 - y][x] % dungeon_atlas_len;
            push_shell_tile(&mut spawns, tile_index, x, y);
            y += 1;
        }
        x += 1;
    }
    proof {
        let p = |t: TileSpawn| t.kind == TileKind::Wall && !walkable(t.index);
        lemma_spawns_all(cell, 80, p);
        assert forall|i: int| 0 <= i < spawns@.len() implies #[trigger] spawns@[i].kind == TileKind::Wall
            && !walkable(spawns@[i].index) by {
            assert(p(spawns@[i]));
        }
    }
    spawns
}

/// Generates a room of `room_type` and lays out its tiles. The puzzle type
/// (0 to 2) and the wall button's place (0 to 3) are drawn at random; the
/// result is the contents of a room that `generate_room` may return for
/// them. The tile set holds more than 34 tiles, as `generate_room` needs
/// (the game's atlases hold 42).
pub fn spawn_room_contents(dungeon_atlas_len: usize, room_type: (usize, usize), tile_set: TileSet) -> (spawns: Vec<
    TileSpawn,
>)
    requires
        34 < dungeon_atlas_len,
        !walkable(room_type.0),
        !walkable(room_type.1),
    ensures
        exists|room: [[usize; 10]; 8], puzzle_type: usize, wall_button_location: usize|
            {
                &&& puzzle_type < 3
                &&& wall_button_location < 4
                &&& #[trigger] generated_room(grid(room), room_type, puzzle_type, wall_button_location)
                &&& spawns@ == contents_plan(grid(room), room_type, tile_set)
            },
{
    contents_from_draws(dungeon_atlas_len, room_type, tile_set, random_usize(), random_usize())
}

/// The puzzle type (0 or 1: a single floor button; 2: a wall button) and
/// the wall button's place (0 to 3) that two draws pick.
pub fn puzzle_from_draws(type_draw: usize, place_draw: usize) -> (p: (usize, usize))
    ensures
        p == (type_draw % 3, place_draw % 4),
{
    (type_draw % 3, place_draw % 4)
}

/// The tiles of a room of `room_type` generated for the puzzle type and
/// wall button's place that the draws pick (`puzzle_from_draws`): the
/// contents of a room that `generate_room` may return for them.
pub fn contents_from_draws(
    dungeon_atlas_len: usize,
    room_type: (usize, usize),
    tile_set: TileSet,
    type_draw: usize,
    place_draw: usize,
) -> (spawns: Vec<TileSpawn>)
    requires
        34 < dungeon_atlas_len,
        !walkable(room_type.0),
        !walkable(room_type.1),
    ensures
        exists|room: [[usize; 10]; 8]|
            {
                &&& #[trigger] generated_room(grid(room), room_type, type_draw % 3, place_draw % 4)
                &&& spawns@ == contents_plan(grid(room), room_type, tile_set)
            },
{
    let (puzzle_type, wall_button_location) = puzzle_from_draws(type_draw, place_draw);
    let generated = generate_room(dungeon_atlas_len, room_type, puzzle_type, wall_button_location);
    // the puzzle type is below 3 and the place below 4, so a room comes back
    let room = generated.unwrap();
    let spawns = room_contents(&room, room_type, tile_set);
    proof {
        assert(generated_room(grid(room), room_type, puzzle_type, wall_button_location));
    }
    spawns
}

/// Whether the closed doors open: as soon as any button is pressed.
pub fn animate_door(buttons_pressed: &Vec<bool>) -> (open: bool)
    ensures
        open == exists|i: int| 0 <= i < buttons_pressed@.len() && buttons_pressed@[i],
{
    let mut i: usize = 0;
    while i < buttons_pressed.len()
        invariant
            i <= buttons_pressed.len(),
            forall|j: int| 0 <= j < i ==> !buttons_pressed@[j],
        decreases buttons_pressed.len() - i,
    {
        if buttons_pressed[i] {
            return true;
        }
        i += 1;
    }
    false
}

/// The sprite of a button: pressed or not, on the floor (29, 30) or on a
/// wall (35, 36).
pub fn animate_button(on_wall: bool, pressed: bool) -> (index: usize)
    ensures
        index == (if on_wall { 35usize } else { 29usize }) + (if pressed { 1usize } else { 0usize }),
{
    if on_wall {
        if pressed { 36 } else { 35 }
    } else {
        if pressed { 30 } else { 29 }
    }
}

/// What a placed tile is follows from its index, with the box and depth
/// that go with it: a floor (15) and carpets (16 to 19) do not collide;
/// a block from a block tile (28) has a full box; floor buttons (29, 30)
/// and wall buttons (35, 36) a button's box; a door (10, 11) a flat box
/// on the ground, so that a player touching it clears the room; the
/// closed door in front of it (31, 32) a wall's box, drawn in front.
pub open spec fn spawn_right(t: TileSpawn) -> bool {
    &&& (t.kind == TileKind::Floor) == (t.index == 15)
    &&& (t.kind == TileKind::Carpet) == (16 <= t.index <= 19)
    &&& (t.kind == TileKind::FloorButton) == (t.index == 29 || t.index == 30)
    &&& (t.kind == TileKind::Door) == (t.index == 10 || t.index == 11)
    &&& (t.kind == TileKind::ClosedDoor) == (t.index == 31 || t.index == 32)
    &&& (t.kind == TileKind::WallButton) == (t.index == 35 || t.index == 36)
    &&& t.kind != TileKind::Wall
    &&& t.kind == TileKind::Floor || t.kind == TileKind::Carpet ==> t.collider is None
    &&& t.index == 28 ==> t.kind == TileKind::Block && t.collider == Some(BoxSize { width: 80, height: 80 })
    &&& t.kind == TileKind::FloorButton || t.kind == TileKind::WallButton ==> t.collider == Some(
        BoxSize { width: 50, height: 50 },
    )
    &&& t.kind == TileKind::Door ==> t.collider == Some(BoxSize { width: 80, height: 5 }) && t.depth == Depth::Ground
    &&& t.kind == TileKind::ClosedDoor ==> t.collider == Some(BoxSize { width: 80, height: 20 }) && t.depth
        == Depth::Front
}

/// `b` is the closed door in front of the door `a`.
pub open spec fn closes(a: TileSpawn, b: TileSpawn) -> bool {
    &&& a.kind == TileKind::Door
    &&& b.kind == TileKind::ClosedDoor
    &&& a.column == b.column
    &&& a.row == b.row
    &&& b.index == a.index + 21
}

proof fn lemma_spawns_follow(
    cell: spec_fn(int, int) -> Seq<TileSpawn>,
    k: int,
    q: spec_fn(TileSpawn) -> bool,
    r: spec_fn(TileSpawn, TileSpawn) -> bool,
)
    requires
        k <= 80,
        forall|x: int, y: int, j: int|
            0 <= x < 10 && 0 <= y < 8 && 0 <= j < cell(x, y).len() && #[trigger] q(#[trigger] cell(x, y)[j]) ==> j > 0
                && r(cell(x, y)[j - 1], cell(x, y)[j]),
    ensures
        forall|i: int|
            0 <= i < spawns_upto(cell, k).len() && #[trigger] q(spawns_upto(cell, k)[i]) ==> i > 0 && r(
                spawns_upto(cell, k)[i - 1],
                spawns_upto(cell, k)[i],
            ),
    decreases k,
{
    if k > 0 {
        lemma_spawns_follow(cell, k - 1, q, r);
        let x = (k - 1) / 8;
        let y = (k - 1) % 8;
        let before = spawns_upto(cell, k - 1);
        let c = cell(x, y);
        let all = spawns_upto(cell, k);
        assert forall|i: int| 0 <= i < all.len() && #[trigger] q(all[i]) implies i > 0 && r(all[i - 1], all[i]) by {
            if i < before.len() {
                assert(all[i] == before[i]);
                assert(all[i - 1] == before[i - 1]);
            } else {
                let j = i - before.len();
                assert(all[i] == c[j]);
                assert(q(c[j]));
                assert(all[i - 1] == c[j - 1]);
            }
        }
    }
}

proof fn lemma_spawns_lead(
    cell: spec_fn(int, int) -> Seq<TileSpawn>,
    k: int,
    q: spec_fn(TileSpawn) -> bool,
    r: spec_fn(TileSpawn, TileSpawn) -> bool,
)
    requires
        k <= 80,
        forall|x: int, y: int, j: int|
            0 <= x < 10 && 0 <= y < 8 && 0 <= j < cell(x, y).len() && #[trigger] q(#[trigger] cell(x, y)[j]) ==> j + 1
                < cell(x, y).len() && r(cell(x, y)[j], cell(x, y)[j + 1]),
    ensures
        forall|i: int|
            0 <= i < spawns_upto(cell, k).len() && #[trigger] q(spawns_upto(cell, k)[i]) ==> i + 1 < spawns_upto(
                cell,
                k,
            ).len() && r(spawns_upto(cell, k)[i], spawns_upto(cell, k)[i + 1]),
    decreases k,
{
    if k > 0 {
        lemma_spawns_lead(cell, k - 1, q, r);
        let x = (k - 1) / 8;
        let y = (k - 1) % 8;
        let before = spawns_upto(cell, k - 1);
        let c = cell(x, y);
        let all = spawns_upto(cell, k);
        assert forall|i: int| 0 <= i < all.len() && #[trigger] q(all[i]) implies i + 1 < all.len() && r(
            all[i],
            all[i + 1],
        ) by {
            if i < before.len() {
                assert(all[i] == before[i]);
                assert(all[i + 1] == before[i + 1]);
            } else {
                let j = i - before.len();
                assert(all[i] == c[j]);
                assert(q(c[j]));
                assert(all[i + 1] == c[j + 1]);
            }
        }
    }
}

proof fn lemma_spawns_contain(cell: spec_fn(int, int) -> Seq<TileSpawn>, k: int, x: int, y: int, j: int)
    requires
        0 <= x < 10,
        0 <= y < 8,
        x * 8 + y < k <= 80,
        0 <= j < cell(x, y).len(),
    ensures
        spawns_upto(cell, k).contains(cell(x, y)[j]),
    decreases k,
{
    lemma_cell_index(x, y);
    let before = spawns_upto(cell, k - 1);
    let all = spawns_upto(cell, k);
    if x * 8 + y < k - 1 {
        lemma_spawns_contain(cell, k - 1, x, y, j);
        let i = choose|i: int| 0 <= i < before.len() && before[i] == cell(x, y)[j];
        assert(all[i] == before[i]);
    } else {
        assert((k - 1) / 8 == x && (k - 1) % 8 == y);
        assert(all[before.len() + j] == cell(x, y)[j]);
    }
}

proof fn lemma_content_tile_right(index: usize, column: usize, row: usize, closed: bool)
    ensures
        forall|j: int| 0 <= j < content_tile(index, column, row, closed).len() ==> spawn_right(
            #[trigger] content_tile(index, column, row, closed)[j],
        ),
        forall|j: int|
            0 <= j < content_tile(index, column, row, closed).len() && (#[trigger] content_tile(
                index,
                column,
                row,
                closed,
            )[j]).kind == TileKind::ClosedDoor ==> closed && j > 0 && closes(
                content_tile(index, column, row, closed)[j - 1],
                content_tile(index, column, row, closed)[j],
            ),
        closed ==> forall|j: int|
            0 <= j < content_tile(index, column, row, closed).len() && (#[trigger] content_tile(
                index,
                column,
                row,
                closed,
            )[j]).kind == TileKind::Door ==> j + 1 < content_tile(index, column, row, closed).len() && closes(
                content_tile(index, column, row, closed)[j],
                content_tile(index, column, row, closed)[j + 1],
            ),
{
}

proof fn lemma_empty_tile_right(index: usize, column: usize, row: usize)
    ensures
        forall|j: int| 0 <= j < empty_tile(index, column, row).len() ==> spawn_right(
            #[trigger] empty_tile(index, column, row)[j],
        ),
        forall|j: int|
            0 <= j < empty_tile(index, column, row).len() && (#[trigger] empty_tile(index, column, row)[j]).kind
                == TileKind::ClosedDoor ==> j > 0 && closes(empty_tile(index, column, row)[j - 1], empty_tile(index, column, row)[j]),
        forall|j: int|
            0 <= j < empty_tile(index, column, row).len() && (#[trigger] empty_tile(index, column, row)[j]).kind
                == TileKind::Door ==> j + 1 < empty_tile(index, column, row).len() && closes(
                empty_tile(index, column, row)[j],
                empty_tile(index, column, row)[j + 1],
            ),
{
}

/// The tiles of a generated room, over all rooms and tile sets: each tile
/// is what its index says, with the box that goes with it, so every door
/// collides; each closed door stands right after the door it closes, at
/// the same cell, and only where doors get closed; where they do, every
/// door is followed by its closed door; and every floor, carpet, block,
/// button and door cell of the room places its tile at that cell.
pub proof fn lemma_contents(room: Seq<Seq<usize>>, room_type: (usize, usize), tile_set: TileSet)
    requires
        room.len() == 8,
        forall|y: int| 0 <= y < 8 ==> #[trigger] room[y].len() == 10,
    ensures
        ({
            let s = contents_plan(room, room_type, tile_set);
            let closed = closed_doors(room_type, tile_set);
            &&& forall|i: int| 0 <= i < s.len() ==> spawn_right(#[trigger] s[i])
            &&& forall|i: int|
                0 <= i < s.len() && (#[trigger] s[i]).kind == TileKind::ClosedDoor ==> closed && i > 0 && closes(
                    s[i - 1],
                    s[i],
                )
            &&& closed ==> forall|i: int|
                0 <= i < s.len() && (#[trigger] s[i]).kind == TileKind::Door ==> i + 1 < s.len() && closes(s[i], s[i + 1])
            &&& forall|x: int, y: int|
                0 <= x < 10 && 0 <= y < 8 ==> {
                    let t = #[trigger] room[y][x];
                    &&& t == 15 ==> s.contains(tile_at(x as usize, y as usize, t, TileKind::Floor, Depth::Ground, None))
                    &&& 16 <= t <= 19 ==> s.contains(
                        tile_at(x as usize, y as usize, t, TileKind::Carpet, Depth::Ground, None),
                    )
                    &&& t == 28 ==> s.contains(
                        tile_at(
                            x as usize,
                            y as usize,
                            t,
                            TileKind::Block,
                            Depth::Ground,
                            Some(BoxSize { width: 80, height: 80 }),
                        ),
                    )
                    &&& (t == 29 || t == 30) ==> s.contains(
                        tile_at(
                            x as usize,
                            y as usize,
                            t,
                            TileKind::FloorButton,
                            Depth::Ground,
                            Some(BoxSize { width: 50, height: 50 }),
                        ),
                    )
                    &&& (t == 35 || t == 36) ==> s.contains(
                        tile_at(
                            x as usize,
                            y as usize,
                            t,
                            TileKind::WallButton,
                            Depth::Raised,
                            Some(BoxSize { width: 50, height: 50 }),
                        ),
                    )
                    &&& (t == 10 || t == 11) ==> s.contains(
                        tile_at(
                            x as usize,
                            y as usize,
                            t,
                            TileKind::Door,
                            Depth::Ground,
                            Some(BoxSize { width: 80, height: 5 }),
                        ),
                    )
                }
        }),
{
    let closed = closed_doors(room_type, tile_set);
    let cell = |x: int, y: int| content_tile(room[y][x], x as usize, y as usize, closed);
    assert(contents_plan(room, room_type, tile_set) == spawns_upto(cell, 80));
    let s = spawns_upto(cell, 80);
    assert forall|x: int, y: int, j: int| 0 <= x < 10 && 0 <= y < 8 && 0 <= j < cell(x, y).len() implies #[trigger] spawn_right(
        #[trigger] cell(x, y)[j],
    ) by {
        lemma_content_tile_right(room[y][x], x as usize, y as usize, closed);
    }
    let pr = |t: TileSpawn| spawn_right(t);
    assert forall|x: int, y: int, j: int| 0 <= x < 10 && 0 <= y < 8 && 0 <= j < cell(x, y).len() implies #[trigger] pr(
        #[trigger] cell(x, y)[j],
    ) by {
        assert(spawn_right(cell(x, y)[j]));
    }
    lemma_spawns_all(cell, 80, pr);
    assert forall|i: int| 0 <= i < s.len() implies spawn_right(#[trigger] s[i]) by {
        assert(pr(s[i]));
    }
    let qc = |t: TileSpawn| t.kind == TileKind::ClosedDoor;
    let rc = |a: TileSpawn, b: TileSpawn| closed && closes(a, b);
    assert forall|x: int, y: int, j: int|
        0 <= x < 10 && 0 <= y < 8 && 0 <= j < cell(x, y).len() && #[trigger] qc(#[trigger] cell(x, y)[j]) implies j > 0
            && rc(cell(x, y)[j - 1], cell(x, y)[j]) by {
        lemma_content_tile_right(room[y][x], x as usize, y as usize, closed);
    }
    lemma_spawns_follow(cell, 80, qc, rc);
    assert forall|i: int| 0 <= i < s.len() && (#[trigger] s[i]).kind == TileKind::ClosedDoor implies closed && i > 0
        && closes(s[i - 1], s[i]) by {
        assert(qc(s[i]));
    }
    if closed {
        let qd = |t: TileSpawn| t.kind == TileKind::Door;
        let rd = |a: TileSpawn, b: TileSpawn| closes(a, b);
        assert forall|x: int, y: int, j: int|
            0 <= x < 10 && 0 <= y < 8 && 0 <= j < cell(x, y).len() && #[trigger] qd(#[trigger] cell(x, y)[j]) implies j
                + 1 < cell(x, y).len() && rd(cell(x, y)[j], cell(x, y)[j + 1]) by {
            lemma_content_tile_right(room[y][x], x as usize, y as usize, closed);
        }
        lemma_spawns_lead(cell, 80, qd, rd);
        assert forall|i: int| 0 <= i < s.len() && (#[trigger] s[i]).kind == TileKind::Door implies i + 1 < s.len()
            && closes(s[i], s[i + 1]) by {
            assert(qd(s[i]));
        }
    }
    assert forall|x: int, y: int| 0 <= x < 10 && 0 <= y < 8 implies {
        let t = #[trigger] room[y][x];
        &&& t == 15 ==> s.contains(tile_at(x as usize, y as usize, t, TileKind::Floor, Depth::Ground, None))
        &&& 16 <= t <= 19 ==> s.contains(tile_at(x as usize, y as usize, t, TileKind::Carpet, Depth::Ground, None))
        &&& t == 28 ==> s.contains(
            tile_at(x as usize, y as usize, t, TileKind::Block, Depth::Ground, Some(BoxSize { width: 80, height: 80 })),
        )
        &&& (t == 29 || t == 30) ==> s.contains(
            tile_at(
                x as usize,
                y as usize,
                t,
                TileKind::FloorButton,
                Depth::Ground,
                Some(BoxSize { width: 50, height: 50 }),
            ),
        )
        &&& (t == 35 || t == 36) ==> s.contains(
            tile_at(
                x as usize,
                y as usize,
                t,
                TileKind::WallButton,
                Depth::Raised,
                Some(BoxSize { width: 50, height: 50 }),
            ),
        )
        &&& (t == 10 || t == 11) ==> s.contains(
            tile_at(x as usize, y as usize, t, TileKind::Door, Depth::Ground, Some(BoxSize { width: 80, height: 5 })),
        )
    } by {
        let t = room[y][x];
        if t == 15 || (16 <= t <= 19) || t == 28 || t == 29 || t == 30 || t == 35 || t == 36 || t == 10 || t == 11 {
            assert(cell(x, y).len() >= 1);
            lemma_spawns_contain(cell, 80, x, y, 0);
        }
    }
}

/// The tiles of the empty room, for every tile set size: each is what its
/// index says, with its box, so every door collides; and every door is
/// closed, its closed door right after it at the same cell.
pub proof fn lemma_empty_contents(dungeon_atlas_len: usize)
    ensures
        ({
            let s = empty_plan(dungeon_atlas_len);
            &&& forall|i: int| 0 <= i < s.len() ==> spawn_right(#[trigger] s[i])
            &&& forall|i: int|
                0 <= i < s.len() && (#[trigger] s[i]).kind == TileKind::ClosedDoor ==> i > 0 && closes(s[i - 1], s[i])
            &&& forall|i: int|
                0 <= i < s.len() && (#[trigger] s[i]).kind == TileKind::Door ==> i + 1 < s.len() && closes(s[i], s[i + 1])
        }),
{
    let cell = |x: int, y: int| empty_tile(template_index(x, y, dungeon_atlas_len), x as usize, y as usize);
    let s = spawns_upto(cell, 80);
    assert forall|x: int, y: int, j: int| 0 <= x < 10 && 0 <= y < 8 && 0 <= j < cell(x, y).len() implies #[trigger] spawn_right(
        #[trigger] cell(x, y)[j],
    ) by {
        lemma_empty_tile_right(template_index(x, y, dungeon_atlas_len), x as usize, y as usize);
    }
    assert(empty_plan(dungeon_atlas_len) == s);
    let pr = |t: TileSpawn| spawn_right(t);
    assert forall|x: int, y: int, j: int| 0 <= x < 10 && 0 <= y < 8 && 0 <= j < cell(x, y).len() implies #[trigger] pr(
        #[trigger] cell(x, y)[j],
    ) by {
        assert(spawn_right(cell(x, y)[j]));
    }
    lemma_spawns_all(cell, 80, pr);
    assert forall|i: int| 0 <= i < s.len() implies spawn_right(#[trigger] s[i]) by {
        assert(pr(s[i]));
    }
    let qc = |t: TileSpawn| t.kind == TileKind::ClosedDoor;
    let rc = |a: TileSpawn, b: TileSpawn| closes(a, b);
    assert forall|x: int, y: int, j: int|
        0 <= x < 10 && 0 <= y < 8 && 0 <= j < cell(x, y).len() && #[trigger] qc(#[trigger] cell(x, y)[j]) implies j > 0
            && rc(cell(x, y)[j - 1], cell(x, y)[j]) by {
        lemma_empty_tile_right(template_index(x, y, dungeon_atlas_len), x as usize, y as usize);
    }
    lemma_spawns_follow(cell, 80, qc, rc);
    let qd = |t: TileSpawn| t.kind == TileKind::Door;
    assert forall|x: int, y: int, j: int|
        0 <= x < 10 && 0 <= y < 8 && 0 <= j < cell(x, y).len() && #[trigger] qd(#[trigger] cell(x, y)[j]) implies j + 1
            < cell(x, y).len() && rc(cell(x, y)[j], cell(x, y)[j + 1]) by {
        lemma_empty_tile_right(template_index(x, y, dungeon_atlas_len), x as usize, y as usize);
    }
    lemma_spawns_lead(cell, 80, qd, rc);
    assert forall|i: int| 0 <= i < s.len() && (#[trigger] s[i]).kind == TileKind::ClosedDoor implies i > 0 && closes(
        s[i - 1],
        s[i],
    ) by {
        assert(qc(s[i]));
    }
    assert forall|i: int| 0 <= i < s.len() && (#[trigger] s[i]).kind == TileKind::Door implies i + 1 < s.len() && closes(
        s[i],
        s[i + 1],
    ) by {
        assert(qd(s[i]));
    }
}

} // verus!
