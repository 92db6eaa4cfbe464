//! What happens when two collidable entities touch: buttons are pressed,
//! fireballs and projectiles hurt and vanish, doors clear the room, and
//! players and enemies are pushed back out of walls.

use vstd::prelude::*;

verus! {

/// The side of the first entity on which the second one touches it.
#[derive(PartialEq, Eq, Structural, Clone, Copy, Debug)]
pub enum CollisionSide {
    Left,
    Right,
    Top,
    Bottom,
    Inside,
}

/// One of the two entities of a colliding pair.
#[derive(PartialEq, Eq, Structural, Clone, Copy, Debug)]
pub enum Which {
    First,
    Second,
}

/// How much damage a hit deals.
#[derive(PartialEq, Eq, Structural, Clone, Copy, Debug)]
pub enum DamageAmount {
    /// One point, from a fireball.
    One,
    /// The damage of the other entity's projectile.
    Projectile,
    /// The damage of the other entity's melee swing.
    Melee,
    /// Half the damage of the other entity's melee swing, against a
    /// blocking enemy.
    BlockedMelee,
}

/// How far a pushed entity is moved back.
#[derive(PartialEq, Eq, Structural, Clone, Copy, Debug)]
pub enum PushSpeed {
    /// The player speed.
    Player,
    /// The enemy push distance.
    Enemy,
}

/// One consequence of a collision.
#[derive(PartialEq, Eq, Structural, Clone, Copy, Debug)]
pub enum CollisionEffect {
    /// The button is now pressed.
    PressButton(Which),
    /// The entity loses health.
    Damage { target: Which, amount: DamageAmount },
    /// The entity is removed from the world.
    Despawn(Which),
    /// The room counts as cleared.
    RoomCleared,
    /// The game moves on to the credits.
    ShowCredits,
    /// The entity is moved back by `speed` away from `side` and its velocity
    /// along that axis is zeroed (nothing moves for `Inside`); a pushed
    /// player with `stop` set stops moving for the next frame.
    Push { target: Which, side: CollisionSide, speed: PushSpeed, stop: bool },
}

/// What the collision logic reads of an entity.
#[derive(PartialEq, Eq, Structural, Clone, Copy, Debug)]
pub struct CollisionRole {
    pub player: bool,
    pub fake_player: bool,
    pub has_velocity: bool,
    pub has_health: bool,
    pub button: bool,
    pub door: bool,
    pub fireball: bool,
    /// `Some(blocking)` for an enemy.
    pub enemy: Option<bool>,
    pub melee: bool,
    pub projectile: bool,
}

/// The level after which a cleared room leads to the credits.
pub const LAST_LEVEL: u32 = 14;

/// The effects when a player (`p`) touches another entity (`o`) that is
/// not its own weapon.
pub open spec fn player_touch(p: CollisionRole, o: CollisionRole, pw: Which, ow: Which, side: CollisionSide, level: u32) -> Seq<CollisionEffect> {
    if o.button {
        seq![CollisionEffect::PressButton(ow)]
    } else if o.fireball {
        if p.has_health {
            seq![CollisionEffect::Damage { target: pw, amount: DamageAmount::One }, CollisionEffect::Despawn(ow)]
        } else {
            seq![]
        }
    } else if o.door {
        if level == LAST_LEVEL {
            seq![CollisionEffect::RoomCleared, CollisionEffect::ShowCredits]
        } else {
            seq![CollisionEffect::RoomCleared]
        }
    } else if o.enemy is Some || o.fake_player || !p.has_velocity {
        seq![]
    } else {
        seq![CollisionEffect::Push { target: pw, side, speed: PushSpeed::Player, stop: pw == Which::First }]
    }
}

/// The effects when an enemy (`e`) touches another entity (`o`).
pub open spec fn enemy_touch(e: CollisionRole, o: CollisionRole, ew: Which, ow: Which, side: CollisionSide) -> Seq<CollisionEffect> {
    if o.projectile {
        if e.has_health {
            seq![CollisionEffect::Damage { target: ew, amount: DamageAmount::Projectile }, CollisionEffect::Despawn(ow)]
        } else {
            seq![]
        }
    } else if o.melee {
        if e.has_health {
            if e.enemy == Some(true) {
                seq![CollisionEffect::Damage { target: ew, amount: DamageAmount::BlockedMelee }]
            } else {
                seq![CollisionEffect::Damage { target: ew, amount: DamageAmount::Melee }]
            }
        } else {
            seq![]
        }
    } else if !o.player && !o.fireball && e.has_velocity {
        seq![CollisionEffect::Push { target: ew, side, speed: PushSpeed::Enemy, stop: false }]
    } else {
        seq![]
    }
}

/// A fireball or projectile (`s`) that hits anything but an enemy, a melee
/// swing or a player vanishes.
pub open spec fn shot_spent(s: CollisionRole, o: CollisionRole, sw: Which) -> Seq<CollisionEffect> {
    let spent = o.enemy is None && !o.melee && !o.player;
    (if s.fireball && spent { seq![CollisionEffect::Despawn(sw)] } else { seq![] })
        + (if s.projectile && spent { seq![CollisionEffect::Despawn(sw)] } else { seq![] })
}

/// The effects of a collision between `a` and `b`, with `b` touching `a`
/// on `side`, during `level`. The first rule that applies decides: a player
/// touched by something that is not a weapon, then the same the other way
/// round, then an enemy, then the other way round; otherwise fireballs and
/// projectiles that hit anything else vanish.
pub open spec fn collision_effects(a: CollisionRole, b: CollisionRole, side: CollisionSide, level: u32) -> Seq<CollisionEffect> {
    if a.player && !b.melee && !b.projectile {
        player_touch(a, b, Which::First, Which::Second, side, level)
    } else if b.player && !a.melee && !a.projectile {
        player_touch(b, a, Which::Second, Which::First, side, level)
    } else if a.enemy is Some {
        enemy_touch(a, b, Which::First, Which::Second, side)
    } else if b.enemy is Some {
        enemy_touch(b, a, Which::Second, Which::First, side)
    } else {
        shot_spent(a, b, Which::First) + shot_spent(b, a, Which::Second)
    }
}

/// The role of the entity that an effect acts on.
pub open spec fn role_of(a: CollisionRole, b: CollisionRole, w: Which) -> CollisionRole {
    if w == Which::First { a } else { b }
}

/// The other entity of the pair.
pub open spec fn other_of(w: Which) -> Which {
    if w == Which::First { Which::Second } else { Which::First }
}

fn other(w: Which) -> (o: Which)
    ensures
        o == other_of(w),
{
    match w {
        Which::First => Which::Second,
        Which::Second => Which::First,
    }
}

fn touch_by_player(
    p: &CollisionRole,
    o: &CollisionRole,
    pw: Which,
    side: CollisionSide,
    level: u32,
    effects: &mut Vec<CollisionEffect>,
)
    ensures
        final(effects)@ == old(effects)@ + player_touch(*p, *o, pw, other_of(pw), side, level),
{
    let ow = other(pw);
    if o.button {
        effects.push(CollisionEffect::PressButton(ow));
    } else if o.fireball {
        if p.has_health {
            effects.push(CollisionEffect::Damage { target: pw, amount: DamageAmount::One });
            effects.push(CollisionEffect::Despawn(ow));
        }
    } else if o.door {
        effects.push(CollisionEffect::RoomCleared);
        if level == LAST_LEVEL {
            effects.push(CollisionEffect::ShowCredits);
        }
    } else if o.enemy.is_some() || o.fake_player || !p.has_velocity {
    } else {
        let stop = match pw {
            Which::First => true,
            Which::Second => false,
        };
        effects.push(CollisionEffect::Push { target: pw, side, speed: PushSpeed::Player, stop });
    }
    proof {
        assert(final(effects)@ =~= old(effects)@ + player_touch(*p, *o, pw, ow, side, level));
    }
}

fn touch_by_enemy(
    e: &CollisionRole,
    o: &CollisionRole,
    ew: Which,
    side: CollisionSide,
    effects: &mut Vec<CollisionEffect>,
)
    ensures
        final(effects)@ == old(effects)@ + enemy_touch(*e, *o, ew, other_of(ew), side),
{
    let ow = other(ew);
    if o.projectile {
        if e.has_health {
            effects.push(CollisionEffect::Damage { target: ew, amount: DamageAmount::Projectile });
            effects.push(CollisionEffect::Despawn(ow));
        }
    } else if o.melee {
        if e.has_health {
            let blocking = match e.enemy {
                Some(b) => b,
                None => false,
            };
            if blocking {
                effects.push(CollisionEffect::Damage { target: ew, amount: DamageAmount::BlockedMelee });
            } else {
                effects.push(CollisionEffect::Damage { target: ew, amount: DamageAmount::Melee });
            }
        }
    } else if !o.player && !o.fireball && e.has_velocity {
        effects.push(CollisionEffect::Push { target: ew, side, speed: PushSpeed::Enemy, stop: false });
    }
    proof {
        assert(final(effects)@ =~= old(effects)@ + enemy_touch(*e, *o, ew, ow, side));
    }
}

fn spend_shot(s: &CollisionRole, o: &CollisionRole, sw: Which, effects: &mut Vec<CollisionEffect>)
    ensures
        final(effects)@ == old(effects)@ + shot_spent(*s, *o, sw),
{
    let spent = o.enemy.is_none() && !o.melee && !o.player;
    if s.fireball && spent {
        effects.push(CollisionEffect::Despawn(sw));
    }
    if s.projectile && spent {
        effects.push(CollisionEffect::Despawn(sw));
    }
    proof {
        assert(final(effects)@ =~= old(effects)@ + shot_spent(*s, *o, sw));
    }
}

/// The effects of a collision between `a` and `b`, in the order in which
/// they are applied, as `collision_effects` describes. Only fireballs and
/// projectiles are ever removed, only entities with health are damaged,
/// and at most one entity is pushed.
pub fn collision(a: &CollisionRole, b: &CollisionRole, side: CollisionSide, game_level: u32) -> (effects: Vec<CollisionEffect>)
    ensures
        effects@ == collision_effects(*a, *b, side, game_level),
        forall|i: int| #![trigger effects@[i]] 0 <= i < effects@.len() ==> match effects@[i] {
            CollisionEffect::Despawn(w) => role_of(*a, *b, w).fireball || role_of(*a, *b, w).projectile,
            CollisionEffect::Damage { target, .. } => role_of(*a, *b, target).has_health,
            CollisionEffect::Push { target, .. } => role_of(*a, *b, target).has_velocity,
            _ => true,
        },
        forall|i: int, j: int|
            0 <= i < j < effects@.len() && #[trigger] effects@[i] is Push ==> !(#[trigger] effects@[j] is Push),
        (exists|i: int| 0 <= i < effects@.len() && #[trigger] effects@[i] == CollisionEffect::RoomCleared) ==> (a.player
            && b.door) || (b.player && a.door),
{
    let mut effects: Vec<CollisionEffect> = Vec::new();
    if a.player && !b.melee && !b.projectile {
        touch_by_player(a, b, Which::First, side, game_level, &mut effects);
    } else if b.player && !a.melee && !a.projectile {
        touch_by_player(b, a, Which::Second, side, game_level, &mut effects);
    } else if a.enemy.is_some() {
        touch_by_enemy(a, b, Which::First, side, &mut effects);
    } else if b.enemy.is_some() {
        touch_by_enemy(b, a, Which::Second, side, &mut effects);
    } else {
        spend_shot(a, b, Which::First, &mut effects);
        spend_shot(b, a, Which::Second, &mut effects);
    }
    proof {
        assert(effects@ =~= collision_effects(*a, *b, side, game_level));
    }
    effects
}

/// An effect with the two entities of the pair swapped. A pushed player
/// stops for a frame exactly when it is the first of the pair, so a push
/// changes its `stop` with the side it is on.
pub open spec fn mirror(e: CollisionEffect) -> CollisionEffect {
    match e {
        CollisionEffect::PressButton(w) => CollisionEffect::PressButton(other_of(w)),
        CollisionEffect::Damage { target, amount } => CollisionEffect::Damage { target: other_of(target), amount },
        CollisionEffect::Despawn(w) => CollisionEffect::Despawn(other_of(w)),
        CollisionEffect::Push { target, side, speed, .. } => CollisionEffect::Push {
            target: other_of(target),
            side,
            speed,
            stop: speed == PushSpeed::Player && other_of(target) == Which::First,
        },
        CollisionEffect::RoomCleared => CollisionEffect::RoomCleared,
        CollisionEffect::ShowCredits => CollisionEffect::ShowCredits,
    }
}

/// The effects with the two entities of the pair swapped.
pub open spec fn mirrored(s: Seq<CollisionEffect>) -> Seq<CollisionEffect> {
    s.map_values(|e: CollisionEffect| mirror(e))
}

proof fn lemma_player_touch_mirror(p: CollisionRole, o: CollisionRole, pw: Which, side: CollisionSide, level: u32)
    ensures
        player_touch(p, o, other_of(pw), pw, side, level) == mirrored(player_touch(p, o, pw, other_of(pw), side, level)),
{
    assert(other_of(other_of(pw)) == pw);
    assert(player_touch(p, o, other_of(pw), pw, side, level) =~= mirrored(player_touch(p, o, pw, other_of(pw), side, level)));
}

proof fn lemma_enemy_touch_mirror(e: CollisionRole, o: CollisionRole, ew: Which, side: CollisionSide)
    ensures
        enemy_touch(e, o, other_of(ew), ew, side) == mirrored(enemy_touch(e, o, ew, other_of(ew), side)),
{
    assert(other_of(other_of(ew)) == ew);
    assert(enemy_touch(e, o, other_of(ew), ew, side) =~= mirrored(enemy_touch(e, o, ew, other_of(ew), side)));
}

proof fn lemma_shot_mirror(s: CollisionRole, o: CollisionRole, sw: Which)
    ensures
        shot_spent(s, o, other_of(sw)) == mirrored(shot_spent(s, o, sw)),
{
    assert(shot_spent(s, o, other_of(sw)) =~= mirrored(shot_spent(s, o, sw)));
}

/// The order of the pair does not matter: unless both entities are
/// players or both are enemies, the collision of `b` with `a` has the
/// effects of the collision of `a` with `b`, each on the same entity and
/// as many times, with a pushed player stopping exactly when it is the
/// first of the pair. So an enemy is pushed back out of a wall, a player
/// presses a button or is hurt by a fireball, and a shot vanishes,
/// whichever entity comes first.
pub proof fn lemma_collision_symmetric(a: CollisionRole, b: CollisionRole, side: CollisionSide, level: u32)
    requires
        !(a.player && b.player),
        !(a.enemy is Some && b.enemy is Some),
    ensures
        collision_effects(b, a, side, level).to_multiset() == mirrored(collision_effects(a, b, side, level)).to_multiset(),
{
    if a.player && !b.melee && !b.projectile {
        lemma_player_touch_mirror(a, b, Which::First, side, level);
    } else if b.player && !a.melee && !a.projectile {
        lemma_player_touch_mirror(b, a, Which::Second, side, level);
    } else if a.enemy is Some {
        lemma_enemy_touch_mirror(a, b, Which::First, side);
    } else if b.enemy is Some {
        lemma_enemy_touch_mirror(b, a, Which::Second, side);
    } else {
        let x = shot_spent(a, b, Which::First);
        let y = shot_spent(b, a, Which::Second);
        lemma_shot_mirror(a, b, Which::First);
        lemma_shot_mirror(b, a, Which::Second);
        assert(mirrored(x + y) =~= mirrored(x) + mirrored(y));
        let mx = mirrored(x);
        let my = mirrored(y);
        assert(collision_effects(b, a, side, level) == my + mx);
        vstd::seq_lib::lemma_multiset_commutative(my, mx);
        vstd::seq_lib::lemma_multiset_commutative(mx, my);
        assert(my.to_multiset().add(mx.to_multiset()) =~= mx.to_multiset().add(my.to_multiset()));
    }
}

/// Every push of a collision moves the entity that collides into the
/// other, not the other one: a pushed entity is a player or an enemy, a
/// player at the player speed and an enemy at the enemy distance, and a
/// player stops for a frame exactly when it is the first of the pair.
pub proof fn lemma_collision_pushes(a: CollisionRole, b: CollisionRole, side: CollisionSide, level: u32)
    ensures
        forall|i: int|
            0 <= i < collision_effects(a, b, side, level).len() && (#[trigger] collision_effects(
                a,
                b,
                side,
                level,
            )[i]) is Push ==> {
                let e = collision_effects(a, b, side, level)[i];
                let r = role_of(a, b, e->Push_target);
                &&& e->side == side
                &&& r.has_velocity
                &&& e->speed == PushSpeed::Player ==> r.player
                &&& e->speed == PushSpeed::Enemy ==> r.enemy is Some
                &&& e->stop == (e->speed == PushSpeed::Player && e->Push_target == Which::First)
            },
{
}

/// A role that none of the collision rules singles out: no player, enemy,
/// weapon, shot, button or door, such as a wall.
pub open spec fn plain(r: CollisionRole) -> bool {
    &&& !r.player
    &&& !r.fake_player
    &&& r.enemy is None
    &&& !r.melee
    &&& !r.projectile
    &&& !r.fireball
    &&& !r.button
    &&& !r.door
}

/// What the collisions of a player, or an enemy, with each kind of entity
/// do (the other order of the pair follows by `lemma_collision_symmetric`):
/// a player presses a button it touches; a player with health hit by a
/// fireball loses one point and the fireball vanishes; a player at a door
/// clears the room, and after the last level the credits follow; a moving
/// player that runs into a plain entity is pushed back and stops; an enemy
/// with health hit by a projectile takes its damage and the projectile
/// vanishes; hit by a melee swing it takes the swing's damage, halved
/// while blocking; a moving enemy that runs into a plain entity is pushed
/// back; and a shot that hits a plain entity vanishes.
pub proof fn lemma_collision_outcomes(a: CollisionRole, b: CollisionRole, side: CollisionSide, level: u32)
    ensures
        a.player && b.button && !b.melee && !b.projectile ==> collision_effects(a, b, side, level) == seq![
            CollisionEffect::PressButton(Which::Second),
        ],
        a.player && a.has_health && b.fireball && !b.button && !b.melee && !b.projectile ==> collision_effects(
            a,
            b,
            side,
            level,
        ) == seq![
            CollisionEffect::Damage { target: Which::First, amount: DamageAmount::One },
            CollisionEffect::Despawn(Which::Second),
        ],
        a.player && b.door && !b.button && !b.fireball && !b.melee && !b.projectile ==> collision_effects(
            a,
            b,
            side,
            level,
        ) == if level == LAST_LEVEL {
            seq![CollisionEffect::RoomCleared, CollisionEffect::ShowCredits]
        } else {
            seq![CollisionEffect::RoomCleared]
        },
        a.player && a.has_velocity && plain(b) ==> collision_effects(a, b, side, level) == seq![
            CollisionEffect::Push { target: Which::First, side, speed: PushSpeed::Player, stop: true },
        ],
        !a.player && !b.player && a.enemy is Some && a.has_health && b.projectile ==> collision_effects(
            a,
            b,
            side,
            level,
        ) == seq![
            CollisionEffect::Damage { target: Which::First, amount: DamageAmount::Projectile },
            CollisionEffect::Despawn(Which::Second),
        ],
        !a.player && !b.player && a.enemy is Some && a.has_health && b.melee && !b.projectile ==> collision_effects(
            a,
            b,
            side,
            level,
        ) == seq![
            CollisionEffect::Damage {
                target: Which::First,
                amount: if a.enemy == Some(true) { DamageAmount::BlockedMelee } else { DamageAmount::Melee },
            },
        ],
        !a.player && a.enemy is Some && a.has_velocity && plain(b) ==> collision_effects(a, b, side, level) == seq![
            CollisionEffect::Push { target: Which::First, side, speed: PushSpeed::Enemy, stop: false },
        ],
        (a.fireball || a.projectile) && !a.player && a.enemy is None && plain(b) ==> collision_effects(
            a,
            b,
            side,
            level,
        ).contains(CollisionEffect::Despawn(Which::First)),
{
    if (a.fireball || a.projectile) && !a.player && a.enemy is None && plain(b) {
        let e = collision_effects(a, b, side, level);
        assert(e[0] == CollisionEffect::Despawn(Which::First));
    }
}

} // verus!
