//! The player's choices that do not depend on physics: which sprite to
//! show, when a weapon can be used, and which way the keys point.

use vstd::prelude::*;

verus! {

/// The weapons a player can hold.
#[derive(PartialEq, Eq, Structural, Clone, Copy, Debug)]
pub enum WeaponType {
    Sword,
    Axe,
    Bow,
    Wand,
}

/// The look of a fired projectile.
#[derive(PartialEq, Eq, Structural, Clone, Copy, Debug)]
pub enum ProjectileLook {
    Arrow,
    Magic,
}

/// The direction a walking player faces.
#[derive(PartialEq, Eq, Structural, Clone, Copy, Debug)]
pub enum Facing {
    Down,
    Right,
    Up,
    Left,
}

/// The first sprite of the color that sprite `index` belongs to: the
/// sprites come in rows of four, one row per color.
pub open spec fn color_base(index: usize) -> usize {
    if index < 4 {
        0
    } else if index < 8 {
        4
    } else if index < 12 {
        8
    } else {
        12
    }
}

/// The place of a facing within a row of sprites.
pub open spec fn facing_offset(facing: Facing) -> usize {
    match facing {
        Facing::Down => 0,
        Facing::Right => 1,
        Facing::Up => 2,
        Facing::Left => 3,
    }
}

/// The sprite of a walking player: the same color, turned to `facing`.
pub fn walk_frame(index: usize, facing: Facing) -> (frame: usize)
    ensures
        frame == color_base(index) + facing_offset(facing),
        frame < 16,
        color_base(frame) == color_base(index),
{
    let color: usize = if index < 4 {
        0
    } else if index < 8 {
        4
    } else if index < 12 {
        8
    } else {
        12
    };
    let offset: usize = match facing {
        Facing::Down => 0,
        Facing::Right => 1,
        Facing::Up => 2,
        Facing::Left => 3,
    };
    color + offset
}

/// The sprite after the arrow keys pick a color: right picks the first
/// row, left the second, up the third and down the fourth; when several are
/// held the last of these wins, and with none the sprite stays.
pub fn switch_player_color(index: usize, right: bool, left: bool, up: bool, down: bool) -> (frame: usize)
    ensures
        frame == if down {
            12
        } else if up {
            8
        } else if left {
            4
        } else if right {
            0
        } else {
            index
        },
{
    let mut frame = index;
    if right {
        frame = 0;
    }
    if left {
        frame = 4;
    }
    if up {
        frame = 8;
    }
    if down {
        frame = 12;
    }
    frame
}

/// The next frame of a melee swing of `frames` frames, and whether the
/// swing is over (it wraps around to the first frame when it is).
pub fn animate_melee(index: usize, frames: usize) -> (r: (usize, bool))
    requires
        frames > 0,
        index < usize::MAX,
    ensures
        r.1 == (index + 1 >= frames),
        r.0 == (index + 1) % (frames as int),
        r.0 < frames,
{
    let next = index + 1;
    let over = next >= frames;
    (next % frames, over)
}

/// Whether a click swings the weapon: only a sword or an axe, and only
/// once the cooldown has run out.
pub fn swing_melee(just_pressed: bool, cooled_down: bool, weapon: WeaponType) -> (swing: bool)
    ensures
        swing == (just_pressed && cooled_down && (weapon == WeaponType::Sword || weapon == WeaponType::Axe)),
{
    just_pressed && cooled_down && match weapon {
        WeaponType::Sword | WeaponType::Axe => true,
        _ => false,
    }
}

/// Whether a click fires a projectile, and how it looks: only a bow
/// (arrows) or a wand (magic), once the cooldown has run out, with the
/// cursor in the window.
pub fn fire_projectile(just_pressed: bool, cooled_down: bool, weapon: WeaponType, cursor_in_window: bool) -> (shot: Option<ProjectileLook>)
    ensures
        shot is Some <==> (just_pressed && cooled_down && cursor_in_window && (weapon == WeaponType::Bow || weapon == WeaponType::Wand)),
        shot == Some(ProjectileLook::Magic) ==> weapon == WeaponType::Wand,
        shot == Some(ProjectileLook::Arrow) ==> weapon == WeaponType::Bow,
{
    if !(just_pressed && cooled_down) {
        return None;
    }
    match weapon {
        WeaponType::Bow | WeaponType::Wand => {
            if !cursor_in_window {
                return None;
            }
            let look = match weapon {
                WeaponType::Wand => ProjectileLook::Magic,
                _ => ProjectileLook::Arrow,
            };
            Some(look)
        },
        _ => None,
    }
}

/// The direction the movement keys point in, one step per axis: A and D
/// cancel each other out, as do W and S.
pub fn key_direction(a: bool, d: bool, w: bool, s: bool) -> (dir: (i8, i8))
    ensures
        dir.0 == (if d { 1int } else { 0 }) - (if a { 1int } else { 0 }),
        dir.1 == (if w { 1int } else { 0 }) - (if s { 1int } else { 0 }),
{
    let mut x: i8 = 0;
    let mut y: i8 = 0;
    if a {
        x -= 1;
    }
    if d {
        x += 1;
    }
    if w {
        y += 1;
    }
    if s {
        y -= 1;
    }
    (x, y)
}

/// Whether the player moves this frame, and whether it may move on the
/// next: a player stopped by a collision stays put for one frame.
pub fn step_player(moving: bool) -> (r: (bool, bool))
    ensures
        r == (moving, true),
{
    if moving {
        (true, true)
    } else {
        (false, true)
    }
}

} // verus!
