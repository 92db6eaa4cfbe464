use std::collections::BTreeMap;
use far_from_fatality::network::{
    client_receive, client_send, key_name, last_index_with_id, move_entity, pressed_key, recv_input_data,
    send_game_data, Axis, ClientPacket, ClientPacketList, CurrentKey, Entry, EntityUpdate, Motion, MoveKey,
    ReceivingEntity, SyncedEntity, ENEMY_ID,
};
use far_from_fatality::ordered_keys::{first_key, sorted_keys};

#[test]
fn client_reports_one_key() {
    assert_eq!(pressed_key(true, true, true, true), Some(MoveKey::W));
    assert_eq!(pressed_key(false, true, true, false), Some(MoveKey::A));
    assert_eq!(pressed_key(false, false, true, true), Some(MoveKey::S));
    assert_eq!(pressed_key(false, false, false, true), Some(MoveKey::D));
    assert_eq!(pressed_key(false, false, false, false), None);
    assert_eq!(key_name(Some(MoveKey::S)), "S");
    assert_eq!(key_name(None), "");
}

#[test]
fn client_message_is_json() {
    assert_eq!(client_send(true, true, false, false, true), r#"{"client_id":0,"key":"W","mouse_pressed":true}"#);
    assert_eq!(client_send(false, false, false, true, false), r#"{"client_id":0,"key":"D","mouse_pressed":false}"#);
    assert_eq!(client_send(false, false, false, false, false), r#"{"client_id":0,"key":"","mouse_pressed":false}"#);
}

#[test]
fn server_moves_other_players() {
    assert_eq!(move_entity(Some(MoveKey::W)), Some(Motion { axis: Axis::Y, velocity: 1, shift: 1 }));
    assert_eq!(move_entity(Some(MoveKey::A)), Some(Motion { axis: Axis::X, velocity: -1, shift: 1 }));
    assert_eq!(move_entity(Some(MoveKey::S)), Some(Motion { axis: Axis::Y, velocity: -1, shift: 1 }));
    assert_eq!(move_entity(Some(MoveKey::D)), Some(Motion { axis: Axis::X, velocity: 1, shift: 1 }));
    assert_eq!(move_entity(None), None);
}

#[test]
fn inputs_of_one_client_in_order() {
    let packet = |client_id, key| ClientPacket { client_id, key: CurrentKey { key }, mouse_pressed: false };
    let list = ClientPacketList {
        packets: vec![
            packet(1, Some(MoveKey::D)),
            packet(2, Some(MoveKey::W)),
            packet(1, None),
            packet(1, Some(MoveKey::S)),
        ],
    };
    assert_eq!(
        recv_input_data(&list, 1),
        vec![Motion { axis: Axis::X, velocity: 1, shift: 1 }, Motion { axis: Axis::Y, velocity: -1, shift: 1 }]
    );
    assert_eq!(recv_input_data(&list, 3), vec![]);
}

#[test]
fn server_reports_players_enemies_and_button() {
    let entities = vec![
        SyncedEntity { player_id: Some(0), other_player_id: None, enemy: false, has_health: true, button: None },
        SyncedEntity { player_id: None, other_player_id: None, enemy: false, has_health: false, button: Some(true) },
        SyncedEntity { player_id: None, other_player_id: None, enemy: true, has_health: true, button: None },
        SyncedEntity { player_id: None, other_player_id: Some(2), enemy: false, has_health: false, button: None },
        SyncedEntity { player_id: None, other_player_id: None, enemy: false, has_health: false, button: Some(false) },
    ];
    let packet = send_game_data(&entities, 7);
    assert_eq!(packet.client_id, 7);
    assert_eq!(
        packet.positions,
        vec![
            Entry { id: 0, is_player: true, entity: 0 },
            Entry { id: ENEMY_ID, is_player: false, entity: 2 },
            Entry { id: 2, is_player: true, entity: 3 },
        ]
    );
    assert_eq!(
        packet.healths,
        vec![Entry { id: 0, is_player: true, entity: 0 }, Entry { id: ENEMY_ID, is_player: false, entity: 2 }]
    );
    // the last button decides
    assert!(!packet.button);
    assert!(send_game_data(&entities[..4].to_vec(), 7).button);
}

#[test]
fn last_matching_line_wins() {
    assert_eq!(last_index_with_id(&vec![3, 999, 3, 5], 3), Some(2));
    assert_eq!(last_index_with_id(&vec![3, 999], 4), None);
    assert_eq!(last_index_with_id(&vec![], 4), None);
}

#[test]
fn client_takes_its_entities_from_the_report() {
    let other = ReceivingEntity { other_player_id: Some(3), enemy: false, has_health: true, button: false };
    assert_eq!(
        client_receive(&other, &vec![3, 999, 3], &vec![999], true),
        EntityUpdate { position: Some(2), health: None, button: None }
    );
    let enemy = ReceivingEntity { other_player_id: None, enemy: true, has_health: true, button: false };
    assert_eq!(
        client_receive(&enemy, &vec![3, 999, 3], &vec![999, 1], false),
        EntityUpdate { position: Some(1), health: Some(0), button: None }
    );
    let button = ReceivingEntity { other_player_id: None, enemy: false, has_health: false, button: true };
    assert_eq!(
        client_receive(&button, &vec![], &vec![], true),
        EntityUpdate { position: None, health: None, button: Some(true) }
    );
    let unhealthy = ReceivingEntity { other_player_id: Some(1), enemy: false, has_health: false, button: false };
    assert_eq!(client_receive(&unhealthy, &vec![1], &vec![1], false).health, None);
}

#[test]
fn ordered_map_keys() {
    let mut m: BTreeMap<u64, &str> = BTreeMap::new();
    m.insert(5, "e");
    m.insert(1, "a");
    m.insert(3, "c");
    assert_eq!(sorted_keys(&m), vec![1, 3, 5]);
    assert_eq!(first_key(&m), Some(1));
    let empty: BTreeMap<u64, u8> = BTreeMap::new();
    assert_eq!(first_key(&empty), None);
    assert!(sorted_keys(&empty).is_empty());
}
