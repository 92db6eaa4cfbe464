use far_from_fatality::collision::{
    collision, CollisionEffect, CollisionRole, CollisionSide, DamageAmount, PushSpeed, Which,
};
use far_from_fatality::enemy::{follow_player, Enemy, Pace, Reaction};
use far_from_fatality::menus::{
    host_buttons, join_buttons, main_buttons, select_buttons, ButtonLook, ButtonResponse, GameStates, Interaction,
};
use far_from_fatality::player::{
    animate_melee, fire_projectile, key_direction, step_player, swing_melee, switch_player_color, walk_frame, Facing,
    ProjectileLook, WeaponType,
};

fn nothing() -> CollisionRole {
    CollisionRole {
        player: false,
        fake_player: false,
        has_velocity: false,
        has_health: false,
        button: false,
        door: false,
        fireball: false,
        enemy: None,
        melee: false,
        projectile: false,
    }
}

fn player() -> CollisionRole {
    CollisionRole { player: true, has_velocity: true, has_health: true, ..nothing() }
}

fn enemy(blocking: bool) -> CollisionRole {
    CollisionRole { enemy: Some(blocking), has_velocity: true, has_health: true, ..nothing() }
}

#[test]
fn player_presses_button() {
    let button = CollisionRole { button: true, ..nothing() };
    assert_eq!(collision(&player(), &button, CollisionSide::Left, 3), vec![CollisionEffect::PressButton(Which::Second)]);
    assert_eq!(collision(&button, &player(), CollisionSide::Top, 3), vec![CollisionEffect::PressButton(Which::First)]);
}

#[test]
fn fireball_hurts_player_and_vanishes() {
    let fireball = CollisionRole { fireball: true, ..nothing() };
    assert_eq!(
        collision(&player(), &fireball, CollisionSide::Inside, 3),
        vec![
            CollisionEffect::Damage { target: Which::First, amount: DamageAmount::One },
            CollisionEffect::Despawn(Which::Second)
        ]
    );
    assert_eq!(
        collision(&fireball, &player(), CollisionSide::Inside, 3),
        vec![
            CollisionEffect::Damage { target: Which::Second, amount: DamageAmount::One },
            CollisionEffect::Despawn(Which::First)
        ]
    );
}

#[test]
fn door_clears_room_and_last_door_ends_game() {
    let door = CollisionRole { door: true, ..nothing() };
    assert_eq!(collision(&player(), &door, CollisionSide::Top, 3), vec![CollisionEffect::RoomCleared]);
    assert_eq!(
        collision(&door, &player(), CollisionSide::Bottom, 14),
        vec![CollisionEffect::RoomCleared, CollisionEffect::ShowCredits]
    );
}

#[test]
fn walls_push_players_back() {
    let wall = nothing();
    assert_eq!(
        collision(&player(), &wall, CollisionSide::Left, 0),
        vec![CollisionEffect::Push { target: Which::First, side: CollisionSide::Left, speed: PushSpeed::Player, stop: true }]
    );
    assert_eq!(
        collision(&wall, &player(), CollisionSide::Right, 0),
        vec![CollisionEffect::Push { target: Which::Second, side: CollisionSide::Right, speed: PushSpeed::Player, stop: false }]
    );
}

#[test]
fn players_pass_through_enemies_and_each_other() {
    let fake = CollisionRole { fake_player: true, ..nothing() };
    assert!(collision(&player(), &enemy(false), CollisionSide::Left, 0).is_empty());
    assert!(collision(&player(), &fake, CollisionSide::Left, 0).is_empty());
}

#[test]
fn weapons_hurt_enemies() {
    let arrow = CollisionRole { projectile: true, ..nothing() };
    let sword = CollisionRole { melee: true, ..nothing() };
    assert_eq!(
        collision(&enemy(false), &arrow, CollisionSide::Left, 0),
        vec![
            CollisionEffect::Damage { target: Which::First, amount: DamageAmount::Projectile },
            CollisionEffect::Despawn(Which::Second)
        ]
    );
    assert_eq!(
        collision(&sword, &enemy(false), CollisionSide::Left, 0),
        vec![CollisionEffect::Damage { target: Which::Second, amount: DamageAmount::Melee }]
    );
    assert_eq!(
        collision(&enemy(true), &sword, CollisionSide::Left, 0),
        vec![CollisionEffect::Damage { target: Which::First, amount: DamageAmount::BlockedMelee }]
    );
}

#[test]
fn a_player_swinging_at_itself_is_not_hurt() {
    let sword = CollisionRole { melee: true, ..nothing() };
    assert!(collision(&player(), &sword, CollisionSide::Inside, 0).is_empty());
}

#[test]
fn walls_push_enemies_back() {
    assert_eq!(
        collision(&enemy(false), &nothing(), CollisionSide::Bottom, 0),
        vec![CollisionEffect::Push { target: Which::First, side: CollisionSide::Bottom, speed: PushSpeed::Enemy, stop: false }]
    );
    let fireball = CollisionRole { fireball: true, ..nothing() };
    assert!(collision(&fireball, &enemy(false), CollisionSide::Bottom, 0).is_empty());
}

#[test]
fn shots_vanish_on_walls() {
    let fireball = CollisionRole { fireball: true, ..nothing() };
    let arrow = CollisionRole { projectile: true, ..nothing() };
    assert_eq!(collision(&fireball, &nothing(), CollisionSide::Left, 0), vec![CollisionEffect::Despawn(Which::First)]);
    assert_eq!(
        collision(&fireball, &arrow, CollisionSide::Left, 0),
        vec![CollisionEffect::Despawn(Which::First), CollisionEffect::Despawn(Which::Second)]
    );
    assert!(collision(&nothing(), &nothing(), CollisionSide::Left, 0).is_empty());
}

#[test]
fn enemy_blocks_up_close() {
    let mut e = Enemy::new(false);
    assert_eq!(e, Enemy { isboss: false, isblocking: false, isdodging: false });
    let r = follow_player(&mut e, true, false, false, true);
    assert_eq!(r, Reaction { enemy: Enemy { isboss: false, isblocking: true, isdodging: false }, boss_sprite: None, pace: Pace::Chase });
    assert_eq!(e, r.enemy);
    let r = follow_player(&mut e, false, false, false, false);
    assert_eq!(r.pace, Pace::Stay);
    assert!(!e.isblocking);
}

#[test]
fn boss_dodges_an_erratic_player() {
    let mut boss = Enemy::new(true);
    let r = follow_player(&mut boss, true, true, false, true);
    assert_eq!(r.boss_sprite, Some(1));
    assert_eq!(r.pace, Pace::Flee);
    assert!(boss.isdodging && boss.isblocking);
    // it keeps dodging until the player is out of range
    let r = follow_player(&mut boss, false, false, false, true);
    assert_eq!(r.boss_sprite, Some(0));
    assert_eq!(r.pace, Pace::Flee);
    let r = follow_player(&mut boss, false, false, true, true);
    assert_eq!(r.pace, Pace::Chase);
    assert!(!boss.isdodging);
}

#[test]
fn other_enemies_never_flee() {
    let mut e = Enemy::new(false);
    let r = follow_player(&mut e, true, true, false, true);
    assert!(e.isdodging);
    assert_eq!(r.pace, Pace::Chase);
}

#[test]
fn walking_sprites_keep_the_color() {
    assert_eq!(walk_frame(0, Facing::Right), 1);
    assert_eq!(walk_frame(5, Facing::Up), 6);
    assert_eq!(walk_frame(9, Facing::Down), 8);
    assert_eq!(walk_frame(13, Facing::Left), 15);
    assert_eq!(walk_frame(40, Facing::Left), 15);
}

#[test]
fn arrow_keys_pick_the_color() {
    assert_eq!(switch_player_color(5, false, false, false, false), 5);
    assert_eq!(switch_player_color(5, true, false, false, false), 0);
    assert_eq!(switch_player_color(5, true, true, false, false), 4);
    assert_eq!(switch_player_color(5, false, true, true, false), 8);
    assert_eq!(switch_player_color(5, true, true, true, true), 12);
}

#[test]
fn melee_swing_frames() {
    assert_eq!(animate_melee(0, 9), (1, false));
    assert_eq!(animate_melee(7, 9), (8, false));
    assert_eq!(animate_melee(8, 9), (0, true));
}

#[test]
fn weapons_in_use() {
    assert!(swing_melee(true, true, WeaponType::Sword));
    assert!(swing_melee(true, true, WeaponType::Axe));
    assert!(!swing_melee(true, true, WeaponType::Bow));
    assert!(!swing_melee(true, false, WeaponType::Sword));
    assert!(!swing_melee(false, true, WeaponType::Sword));
    assert_eq!(fire_projectile(true, true, WeaponType::Bow, true), Some(ProjectileLook::Arrow));
    assert_eq!(fire_projectile(true, true, WeaponType::Wand, true), Some(ProjectileLook::Magic));
    assert_eq!(fire_projectile(true, true, WeaponType::Wand, false), None);
    assert_eq!(fire_projectile(true, true, WeaponType::Axe, true), None);
    assert_eq!(fire_projectile(true, false, WeaponType::Bow, true), None);
}

#[test]
fn movement_keys() {
    assert_eq!(key_direction(true, false, true, false), (-1, 1));
    assert_eq!(key_direction(true, true, false, true), (0, -1));
    assert_eq!(key_direction(false, false, false, false), (0, 0));
    assert_eq!(step_player(true), (true, true));
    assert_eq!(step_player(false), (false, true));
}

#[test]
fn main_menu_buttons() {
    assert_eq!(
        main_buttons(Interaction::Pressed, true, false),
        ButtonResponse { next_state: Some(GameStates::JoinMenu), look: None }
    );
    assert_eq!(
        main_buttons(Interaction::Pressed, true, true),
        ButtonResponse { next_state: Some(GameStates::HostMenu), look: None }
    );
    assert_eq!(
        main_buttons(Interaction::Hovered, true, false),
        ButtonResponse { next_state: None, look: Some(ButtonLook::Hovered) }
    );
    assert_eq!(
        main_buttons(Interaction::Idle, false, true),
        ButtonResponse { next_state: None, look: Some(ButtonLook::Normal) }
    );
}

#[test]
fn play_buttons_start_the_game() {
    let start = ButtonResponse { next_state: Some(GameStates::Game), look: None };
    assert_eq!(join_buttons(Interaction::Pressed, true), start);
    assert_eq!(host_buttons(Interaction::Pressed, true), start);
    assert_eq!(select_buttons(Interaction::Pressed, true, false), start);
    assert_eq!(select_buttons(Interaction::Pressed, false, true), ButtonResponse { next_state: None, look: None });
    assert_eq!(
        select_buttons(Interaction::Idle, false, true),
        ButtonResponse { next_state: None, look: Some(ButtonLook::Clear) }
    );
    assert_eq!(
        select_buttons(Interaction::Idle, true, false),
        ButtonResponse { next_state: None, look: Some(ButtonLook::HoveredDark) }
    );
    assert_eq!(
        host_buttons(Interaction::Hovered, true),
        ButtonResponse { next_state: None, look: Some(ButtonLook::Hovered) }
    );
}
