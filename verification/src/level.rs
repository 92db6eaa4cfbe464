//! The sequence of levels: what the next room is once the current one has
//! been cleared.

use vstd::prelude::*;
use crate::random::random_bool;
use crate::room::{COMBAT_ROOM, PUZZLE_ROOM, STANDARD_ROOM};
use crate::tiles::TileSet;

verus! {

/// The progress of a game.
#[derive(PartialEq, Eq, Structural, Clone, Copy, Debug)]
pub struct GameData {
    /// Set when a player reaches the door of the current room.
    pub room_cleared: bool,
    /// The number of rooms cleared so far.
    pub game_level: u32,
}

/// What is taken away before the next room is built.
#[derive(PartialEq, Eq, Structural, Clone, Copy, Debug)]
pub enum Clearing {
    /// The contents of the room: floors, buttons, blocks, enemies and fireballs.
    Floor,
    /// The contents and the shell: walls, carpets and the background too.
    Room,
}

/// The three kinds of generated room.
#[derive(PartialEq, Eq, Structural, Clone, Copy, Debug)]
pub enum RoomType {
    Standard,
    Puzzle,
    Combat,
}

/// The door tops of a kind of room.
pub open spec fn door_tops(room_type: RoomType) -> (usize, usize) {
    match room_type {
        RoomType::Standard => STANDARD_ROOM,
        RoomType::Puzzle => PUZZLE_ROOM,
        RoomType::Combat => COMBAT_ROOM,
    }
}

impl RoomType {
    /// The door tops of the room: they tell the kinds of room apart.
    pub fn doors(self) -> (d: (usize, usize))
        ensures
            d == door_tops(self),
    {
        match self {
            RoomType::Standard => STANDARD_ROOM,
            RoomType::Puzzle => PUZZLE_ROOM,
            RoomType::Combat => COMBAT_ROOM,
        }
    }
}

/// The contents of the next room.
#[derive(PartialEq, Eq, Structural, Clone, Copy, Debug)]
pub enum Contents {
    /// The empty room, on the tile set.
    Empty(TileSet),
    /// A generated room of the kind, on the tile set.
    Generated { room_type: RoomType, tile_set: TileSet },
}

/// Who comes into the next room.
#[derive(PartialEq, Eq, Structural, Clone, Copy, Debug)]
pub enum Arrivals {
    Nobody,
    /// This many smaller enemies.
    Enemies(u32),
    Boss,
}

/// How the next room is built.
#[derive(PartialEq, Eq, Structural, Clone, Copy, Debug)]
pub struct LevelPlan {
    pub clearing: Clearing,
    /// A new shell on this tile set, when the shell changes.
    pub shell: Option<TileSet>,
    pub contents: Contents,
    pub arrivals: Arrivals,
}

/// Whether the room after `level` is chosen by a coin toss: all but the
/// levels with a room of their own.
pub open spec fn coin_level(level: u32) -> bool {
    !(level == 12 || level == 0 || level == 4 || level == 8 || level == 1 || level == 2 || level == 13)
}

/// The room after `level`, for `players` active players: the boss fight
/// after level 12, the first standard room outside after level 0, combat
/// rooms after levels 4 and 8 that share `players + 1` smaller enemies
/// (`players / 2 + 1` in the first, the rest in the second),
/// a puzzle room outside after level 1, the first puzzle room in the
/// dungeon (with the dungeon's shell) after level 2, the PvP arena after
/// level 13; otherwise a standard dungeon room when `coin` is heads, a
/// puzzle dungeon room when tails.
pub open spec fn level_plan(level: u32, coin: bool, players: u32) -> LevelPlan {
    if level == 12 {
        LevelPlan {
            clearing: Clearing::Floor,
            shell: None,
            contents: Contents::Empty(TileSet::Dungeon),
            arrivals: Arrivals::Boss,
        }
    } else if level == 0 {
        LevelPlan {
            clearing: Clearing::Floor,
            shell: None,
            contents: Contents::Generated { room_type: RoomType::Standard, tile_set: TileSet::Outside },
            arrivals: Arrivals::Nobody,
        }
    } else if level == 4 {
        LevelPlan {
            clearing: Clearing::Floor,
            shell: None,
            contents: Contents::Generated { room_type: RoomType::Combat, tile_set: TileSet::Dungeon },
            arrivals: Arrivals::Enemies((players / 2 + 1) as u32),
        }
    } else if level == 8 {
        LevelPlan {
            clearing: Clearing::Floor,
            shell: None,
            contents: Contents::Generated { room_type: RoomType::Combat, tile_set: TileSet::Dungeon },
            arrivals: Arrivals::Enemies((players - players / 2) as u32),
        }
    } else if level == 1 {
        LevelPlan {
            clearing: Clearing::Floor,
            shell: None,
            contents: Contents::Generated { room_type: RoomType::Puzzle, tile_set: TileSet::Outside },
            arrivals: Arrivals::Nobody,
        }
    } else if level == 2 {
        LevelPlan {
            clearing: Clearing::Room,
            shell: Some(TileSet::Dungeon),
            contents: Contents::Generated { room_type: RoomType::Puzzle, tile_set: TileSet::Dungeon },
            arrivals: Arrivals::Nobody,
        }
    } else if level == 13 {
        LevelPlan {
            clearing: Clearing::Room,
            shell: Some(TileSet::Pvp),
            contents: Contents::Generated { room_type: RoomType::Combat, tile_set: TileSet::Pvp },
            arrivals: Arrivals::Nobody,
        }
    } else if coin {
        LevelPlan {
            clearing: Clearing::Floor,
            shell: None,
            contents: Contents::Generated { room_type: RoomType::Standard, tile_set: TileSet::Dungeon },
            arrivals: Arrivals::Nobody,
        }
    } else {
        LevelPlan {
            clearing: Clearing::Floor,
            shell: None,
            contents: Contents::Generated { room_type: RoomType::Puzzle, tile_set: TileSet::Dungeon },
            arrivals: Arrivals::Nobody,
        }
    }
}

/// The plan for the room after `level`, given the coin toss and the number
/// of active players, as `level_plan` describes.
pub fn plan_level(level: u32, coin: bool, players: u32) -> (plan: LevelPlan)
    ensures
        plan == level_plan(level, coin, players),
{
    if level == 12 {
        LevelPlan {
            clearing: Clearing::Floor,
            shell: None,
            contents: Contents::Empty(TileSet::Dungeon),
            arrivals: Arrivals::Boss,
        }
    } else if level == 0 {
        LevelPlan {
            clearing: Clearing::Floor,
            shell: None,
            contents: Contents::Generated { room_type: RoomType::Standard, tile_set: TileSet::Outside },
            arrivals: Arrivals::Nobody,
        }
    } else if level == 4 {
        LevelPlan {
            clearing: Clearing::Floor,
            shell: None,
            contents: Contents::Generated { room_type: RoomType::Combat, tile_set: TileSet::Dungeon },
            arrivals: Arrivals::Enemies(players / 2 + 1),
        }
    } else if level == 8 {
        LevelPlan {
            clearing: Clearing::Floor,
            shell: None,
            contents: Contents::Generated { room_type: RoomType::Combat, tile_set: TileSet::Dungeon },
            arrivals: Arrivals::Enemies(players - players / 2),
        }
    } else if level == 1 {
        LevelPlan {
            clearing: Clearing::Floor,
            shell: None,
            contents: Contents::Generated { room_type: RoomType::Puzzle, tile_set: TileSet::Outside },
            arrivals: Arrivals::Nobody,
        }
    } else if level == 2 {
        LevelPlan {
            clearing: Clearing::Room,
            shell: Some(TileSet::Dungeon),
            contents: Contents::Generated { room_type: RoomType::Puzzle, tile_set: TileSet::Dungeon },
            arrivals: Arrivals::Nobody,
        }
    } else if level == 13 {
        LevelPlan {
            clearing: Clearing::Room,
            shell: Some(TileSet::Pvp),
            contents: Contents::Generated { room_type: RoomType::Combat, tile_set: TileSet::Pvp },
            arrivals: Arrivals::Nobody,
        }
    } else if coin {
        // standard room
        LevelPlan {
            clearing: Clearing::Floor,
            shell: None,
            contents: Contents::Generated { room_type: RoomType::Standard, tile_set: TileSet::Dungeon },
            arrivals: Arrivals::Nobody,
        }
    } else {
        // puzzle room
        LevelPlan {
            clearing: Clearing::Floor,
            shell: None,
            contents: Contents::Generated { room_type: RoomType::Puzzle, tile_set: TileSet::Dungeon },
            arrivals: Arrivals::Nobody,
        }
    }
}

/// Once the room is cleared: resets the flag, moves on to the next level
/// and returns the plan of the next room for `players` active players,
/// tossing a coin only for the levels that call for one. Before that,
/// nothing changes and `None` is returned.
pub fn check_for_room_clear(game_data: &mut GameData, players: u32) -> (plan: Option<LevelPlan>)
    requires
        old(game_data).room_cleared ==> old(game_data).game_level < u32::MAX,
    ensures
        !old(game_data).room_cleared ==> plan is None && *final(game_data) == *old(game_data),
        old(game_data).room_cleared ==> {
            &&& final(game_data).room_cleared == false
            &&& final(game_data).game_level == old(game_data).game_level + 1
            &&& plan matches Some(p) && exists|coin: bool| p == level_plan(old(game_data).game_level, coin, players)
            &&& !coin_level(old(game_data).game_level) ==> plan == Some(level_plan(old(game_data).game_level, false, players))
        },
{
    if !game_data.room_cleared {
        return None;
    }
    game_data.room_cleared = false;
    let level = game_data.game_level;
    let coin = if level == 12 || level == 0 || level == 4 || level == 8 || level == 1 || level == 2 || level == 13 {
        false
    } else {
        // randomly choose between standard and puzzle rooms for non-fighting levels
        random_bool()
    };
    let plan = plan_level(level, coin, players);
    game_data.game_level = level + 1;
    Some(plan)
}

/// Which entities leave the world for want of health, and whether the
/// closed doors go with them: for each entity out of health, in order, it
/// is removed, and the doors open if at most one enemy is left in the
/// room at that point.
pub fn no_health(out_of_health: &Vec<bool>, enemies: usize) -> (r: (Vec<usize>, bool))
    ensures
        forall|k: int| 0 <= k < r.0@.len() ==> out_of_health@[#[trigger] r.0@[k] as int],
        forall|i: int| 0 <= i < out_of_health@.len() && out_of_health@[i] ==> r.0@.contains(i as usize),
        forall|k: int, l: int| 0 <= k < l < r.0@.len() ==> r.0@[k] < r.0@[l],
        r.1 == (enemies <= 1 && exists|i: int| 0 <= i < out_of_health@.len() && out_of_health@[i]),
{
    let mut removed: Vec<usize> = Vec::new();
    let mut open = false;
    let mut i: usize = 0;
    while i < out_of_health.len()
        invariant
            i <= out_of_health.len(),
            forall|k: int| 0 <= k < removed@.len() ==> #[trigger] removed@[k] < i && out_of_health@[removed@[k] as int],
            forall|j: int| 0 <= j < i && out_of_health@[j] ==> removed@.contains(j as usize),
            forall|k: int, l: int| 0 <= k < l < removed@.len() ==> removed@[k] < removed@[l],
            open == (enemies <= 1 && exists|j: int| 0 <= j < i && out_of_health@[j]),
        decreases out_of_health.len() - i,
    {
        let ghost before = removed@;
        if out_of_health[i] {
            removed.push(i);
            // if that was the last enemy, the doors open
            if enemies <= 1 {
                open = true;
            }
        }
        proof {
            assert forall|j: int| 0 <= j < i + 1 && out_of_health@[j] implies removed@.contains(j as usize) by {
                if j < i {
                    let k = choose|k: int| 0 <= k < before.len() && before[k] == j as usize;
                    assert(removed@[k] == j as usize);
                } else {
                    assert(removed@[removed@.len() - 1] == i);
                }
            }
        }
        i += 1;
    }
    (removed, open)
}

/// Whether the closed doors open because an enemy has run out of health.
pub fn enemy_dead(enemies_out_of_health: &Vec<bool>) -> (open: bool)
    ensures
        open == exists|i: int| 0 <= i < enemies_out_of_health@.len() && enemies_out_of_health@[i],
{
    let mut i: usize = 0;
    while i < enemies_out_of_health.len()
        invariant
            i <= enemies_out_of_health.len(),
            forall|j: int| 0 <= j < i ==> !enemies_out_of_health@[j],
        decreases enemies_out_of_health.len() - i,
    {
        if enemies_out_of_health[i] {
            return true;
        }
        i += 1;
    }
    false
}

/// The smaller enemies that come into a room.
pub open spec fn enemies_in(plan: LevelPlan) -> nat {
    match plan.arrivals {
        Arrivals::Enemies(n) => n as nat,
        _ => 0,
    }
}

/// Whether the boss comes into a room.
pub open spec fn boss_in(plan: LevelPlan) -> nat {
    if plan.arrivals == Arrivals::Boss { 1 } else { 0 }
}

/// The smaller enemies of the rooms after levels `0..k`, with `coins` the
/// coin tosses of those levels, for `players` active players.
pub open spec fn planned_enemies(players: u32, coins: Seq<bool>, k: int) -> nat
    decreases k,
{
    if k <= 0 {
        0
    } else {
        planned_enemies(players, coins, k - 1) + enemies_in(level_plan((k - 1) as u32, coins[k - 1], players))
    }
}

/// The bosses of the rooms after levels `0..k`.
pub open spec fn planned_bosses(players: u32, coins: Seq<bool>, k: int) -> nat
    decreases k,
{
    if k <= 0 {
        0
    } else {
        planned_bosses(players, coins, k - 1) + boss_in(level_plan((k - 1) as u32, coins[k - 1], players))
    }
}

/// Over a whole run, the rooms after levels 0 to 13, whatever the coin
/// tosses, `players + 1` smaller enemies come in for `players` active
/// players (in the combat rooms after levels 4 and 8), and the boss once
/// (after level 12).
pub proof fn lemma_enemies_over_run(players: u32, coins: Seq<bool>)
    requires
        coins.len() == 14,
    ensures
        planned_enemies(players, coins, 14) == players + 1,
        planned_bosses(players, coins, 14) == 1,
{
    reveal_with_fuel(planned_enemies, 15);
    reveal_with_fuel(planned_bosses, 15);
    assert(players / 2 + 1 + (players - players / 2) == players + 1);
}

/// The game's sequence of rooms, whatever the coin toss and the number of
/// players: two generated rooms on the outside tile set, a standard one
/// and then a puzzle; the dungeon, with its shell, from a puzzle room on;
/// combat rooms with smaller enemies after levels 4 and 8; the boss in the
/// empty dungeon room after level 12; the PvP arena, with its shell, after
/// level 13; and between them standard dungeon rooms on heads, puzzle
/// dungeon rooms on tails, with nobody coming in.
pub proof fn lemma_level_sequence(coin: bool, players: u32)
    ensures
        level_plan(0, coin, players) == (LevelPlan {
            clearing: Clearing::Floor,
            shell: None,
            contents: Contents::Generated { room_type: RoomType::Standard, tile_set: TileSet::Outside },
            arrivals: Arrivals::Nobody,
        }),
        level_plan(1, coin, players) == (LevelPlan {
            clearing: Clearing::Floor,
            shell: None,
            contents: Contents::Generated { room_type: RoomType::Puzzle, tile_set: TileSet::Outside },
            arrivals: Arrivals::Nobody,
        }),
        level_plan(2, coin, players) == (LevelPlan {
            clearing: Clearing::Room,
            shell: Some(TileSet::Dungeon),
            contents: Contents::Generated { room_type: RoomType::Puzzle, tile_set: TileSet::Dungeon },
            arrivals: Arrivals::Nobody,
        }),
        level_plan(4, coin, players).contents == (Contents::Generated {
            room_type: RoomType::Combat,
            tile_set: TileSet::Dungeon,
        }),
        level_plan(8, coin, players).contents == (Contents::Generated {
            room_type: RoomType::Combat,
            tile_set: TileSet::Dungeon,
        }),
        level_plan(4, coin, players).clearing == Clearing::Floor && level_plan(4, coin, players).shell is None,
        level_plan(8, coin, players).clearing == Clearing::Floor && level_plan(8, coin, players).shell is None,
        level_plan(4, coin, players).arrivals is Enemies && level_plan(8, coin, players).arrivals is Enemies,
        enemies_in(level_plan(4, coin, players)) >= 1,
        enemies_in(level_plan(4, coin, players)) + enemies_in(level_plan(8, coin, players)) == players + 1,
        level_plan(12, coin, players) == (LevelPlan {
            clearing: Clearing::Floor,
            shell: None,
            contents: Contents::Empty(TileSet::Dungeon),
            arrivals: Arrivals::Boss,
        }),
        level_plan(13, coin, players) == (LevelPlan {
            clearing: Clearing::Room,
            shell: Some(TileSet::Pvp),
            contents: Contents::Generated { room_type: RoomType::Combat, tile_set: TileSet::Pvp },
            arrivals: Arrivals::Nobody,
        }),
        forall|level: u32|
            (level == 3 || (5 <= level <= 7) || (9 <= level <= 11) || level >= 14) ==> #[trigger] level_plan(
                level,
                coin,
                players,
            ) == (LevelPlan {
                clearing: Clearing::Floor,
                shell: None,
                contents: Contents::Generated {
                    room_type: if coin { RoomType::Standard } else { RoomType::Puzzle },
                    tile_set: TileSet::Dungeon,
                },
                arrivals: Arrivals::Nobody,
            }),
{
    assert(players / 2 + 1 + (players - players / 2) == players + 1);
}

} // verus!
