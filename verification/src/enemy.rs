//! How an enemy reacts to the player it follows: it blocks up close, a
//! boss may dodge an unpredictable player, and it chases (or, dodging,
//! flees) until it reaches the player.

use vstd::prelude::*;

verus! {

/// The state of an enemy's guard.
#[derive(PartialEq, Eq, Structural, Clone, Copy, Debug)]
pub struct Enemy {
    pub isboss: bool,
    pub isblocking: bool,
    pub isdodging: bool,
}

impl Enemy {
    /// An enemy, the boss or not, neither blocking nor dodging.
    pub fn new(isboss: bool) -> (e: Enemy)
        ensures
            e == (Enemy { isboss, isblocking: false, isdodging: false }),
    {
        Enemy { isboss, isblocking: false, isdodging: false }
    }
}

/// How an enemy moves this frame.
#[derive(PartialEq, Eq, Structural, Clone, Copy, Debug)]
pub enum Pace {
    /// Toward the player at its speed.
    Chase,
    /// Away from the player at twice its speed.
    Flee,
    /// It stands still.
    Stay,
}

/// What an enemy does this frame: its guard afterwards, the boss's
/// sprite (shield up or down), and how it moves.
#[derive(PartialEq, Eq, Structural, Clone, Copy, Debug)]
pub struct Reaction {
    pub enemy: Enemy,
    pub boss_sprite: Option<usize>,
    pub pace: Pace,
}

/// How the enemy reacts, given where the player is: `close` (within
/// blocking reach), `erratic` (the player's moves are hard to predict),
/// `far` (out of range) and `apart` (not yet at the player). Up close it
/// blocks, and it starts dodging when the player is erratic; away from the
/// player it stops blocking, and out of range it stops dodging. A boss
/// shows its shield (sprite 1) exactly while close. A dodging boss flees;
/// any other enemy chases while apart.
pub open spec fn reaction(e: Enemy, close: bool, erratic: bool, far: bool, apart: bool) -> Reaction {
    let dodging = if far { false } else if close && erratic { true } else { e.isdodging };
    let guard = Enemy { isblocking: close, isdodging: dodging, ..e };
    Reaction {
        enemy: guard,
        boss_sprite: if e.isboss { Some(if close { 1usize } else { 0usize }) } else { None },
        pace: if !apart {
            Pace::Stay
        } else if dodging && e.isboss {
            Pace::Flee
        } else {
            Pace::Chase
        },
    }
}

/// The enemy's reaction this frame, as `reaction` describes; only a boss
/// ever flees.
pub fn follow_player(enemy: &mut Enemy, close: bool, erratic: bool, far: bool, apart: bool) -> (r: Reaction)
    ensures
        r == reaction(*old(enemy), close, erratic, far, apart),
        *final(enemy) == r.enemy,
        r.pace == Pace::Flee ==> old(enemy).isboss,
{
    let mut boss_sprite: Option<usize> = None;
    if close {
        enemy.isblocking = true;
        if erratic {
            enemy.isdodging = true;
        } else {
            enemy.isblocking = true;
        }
        if enemy.isboss {
            boss_sprite = Some(1);
        }
    } else {
        enemy.isblocking = false;
        if enemy.isboss {
            boss_sprite = Some(0);
        }
    }
    if far {
        enemy.isdodging = false;
    }
    let pace = if apart {
        if enemy.isdodging && enemy.isboss {
            Pace::Flee
        } else {
            Pace::Chase
        }
    } else {
        // already at the player's position: stop moving
        Pace::Stay
    };
    Reaction { enemy: *enemy, boss_sprite, pace }
}

/// How an enemy's guard and pace follow from where the player is, over all
/// inputs: it blocks exactly while close; out of range it stops dodging;
/// otherwise it dodges if it was dodging or the player is close and
/// erratic, so dodging is never given up within range; it stays the boss
/// or not; a boss shows its shield exactly while close and other enemies
/// have no sprite to change; at the player it stays, and apart a dodging
/// boss flees while everything else chases.
pub proof fn lemma_guard(e: Enemy, close: bool, erratic: bool, far: bool, apart: bool)
    ensures
        ({
            let r = reaction(e, close, erratic, far, apart);
            &&& r.enemy.isboss == e.isboss
            &&& r.enemy.isblocking == close
            &&& far ==> !r.enemy.isdodging
            &&& !far ==> r.enemy.isdodging == (e.isdodging || (close && erratic))
            &&& e.isboss ==> r.boss_sprite == Some(if close { 1usize } else { 0usize })
            &&& !e.isboss ==> r.boss_sprite is None
            &&& !apart ==> r.pace == Pace::Stay
            &&& apart && e.isboss && r.enemy.isdodging ==> r.pace == Pace::Flee
            &&& apart && !(e.isboss && r.enemy.isdodging) ==> r.pace == Pace::Chase
        }),
{
}

} // verus!
