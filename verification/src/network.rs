//! What the players' machines tell each other: the key a client sends,
//! how the server moves the entity of another client, which entities the
//! server reports, and what a client takes from the server's report.

use vstd::prelude::*;

verus! {

/// The movement keys.
#[derive(PartialEq, Eq, Structural, Clone, Copy, Debug)]
pub enum MoveKey {
    W,
    A,
    S,
    D,
}

/// The key a client reports, when several are held: W first, then A, S
/// and D.
pub open spec fn pressed_key_spec(w: bool, a: bool, s: bool, d: bool) -> Option<MoveKey> {
    if w {
        Some(MoveKey::W)
    } else if a {
        Some(MoveKey::A)
    } else if s {
        Some(MoveKey::S)
    } else if d {
        Some(MoveKey::D)
    } else {
        None
    }
}

/// The key's name in a client's message; the empty text for no key.
pub open spec fn key_text(key: Option<MoveKey>) -> Seq<char> {
    match key {
        Some(MoveKey::W) => "W"@,
        Some(MoveKey::A) => "A"@,
        Some(MoveKey::S) => "S"@,
        Some(MoveKey::D) => "D"@,
        None => ""@,
    }
}

/// The compact JSON text of the object with the fields `client_id`,
/// `key` and `mouse_pressed`, as serde_json writes it.
pub uninterp spec fn client_json(client_id: u32, key: Seq<char>, mouse_pressed: bool) -> Seq<char>;

/// Writes the client's message with serde_json: an object of the three
/// fields, printed compactly. Its text is named, not spelled out.
#[verifier::external_body]
fn client_message_json(client_id: u32, key: &str, mouse_pressed: bool) -> (text: String)
    ensures
        text@ == client_json(client_id, key@, mouse_pressed),
{
    let mut object = serde_json::Map::new();
    object.insert("client_id".to_string(), serde_json::Value::from(client_id));
    object.insert("key".to_string(), serde_json::Value::from(key));
    object.insert("mouse_pressed".to_string(), serde_json::Value::from(mouse_pressed));
    serde_json::Value::Object(object).to_string()
}

/// The key a client reports, as `pressed_key_spec` describes.
pub fn pressed_key(w: bool, a: bool, s: bool, d: bool) -> (key: Option<MoveKey>)
    ensures
        key == pressed_key_spec(w, a, s, d),
{
    if w {
        Some(MoveKey::W)
    } else if a {
        Some(MoveKey::A)
    } else if s {
        Some(MoveKey::S)
    } else if d {
        Some(MoveKey::D)
    } else {
        None
    }
}

/// The key's name in a client's message.
pub fn key_name(key: Option<MoveKey>) -> (name: &'static str)
    ensures
        name@ == key_text(key),
{
    match key {
        Some(MoveKey::W) => "W",
        Some(MoveKey::A) => "A",
        Some(MoveKey::S) => "S",
        Some(MoveKey::D) => "D",
        None => "",
    }
}

/// The message a client sends each frame: client id 0, the key it reports
/// and whether the mouse button was just pressed, as JSON.
pub fn client_send(w: bool, a: bool, s: bool, d: bool, mouse_pressed: bool) -> (message: String)
    ensures
        message@ == client_json(0, key_text(pressed_key_spec(w, a, s, d)), mouse_pressed),
{
    let key = pressed_key(w, a, s, d);
    client_message_json(0, key_name(key), mouse_pressed)
}

/// An axis of the plane.
#[derive(PartialEq, Eq, Structural, Clone, Copy, Debug)]
pub enum Axis {
    X,
    Y,
}

/// A move of another client's entity: the velocity along `axis` is set to
/// `velocity`, and the entity shifts by `shift` along it.
#[derive(PartialEq, Eq, Structural, Clone, Copy, Debug)]
pub struct Motion {
    pub axis: Axis,
    pub velocity: i8,
    pub shift: i8,
}

/// The move for a key. W and D set a velocity of one up or right and
/// shift by it; A and S set a velocity of one left or down and shift by
/// its opposite, so every key shifts one step forward along its axis.
pub open spec fn key_motion(key: MoveKey) -> Motion {
    match key {
        MoveKey::W => Motion { axis: Axis::Y, velocity: 1, shift: 1 },
        MoveKey::A => Motion { axis: Axis::X, velocity: -1i8, shift: 1 },
        MoveKey::S => Motion { axis: Axis::Y, velocity: -1i8, shift: 1 },
        MoveKey::D => Motion { axis: Axis::X, velocity: 1, shift: 1 },
    }
}

/// The move for the key a client reported, if it reported one.
pub fn move_entity(key: Option<MoveKey>) -> (m: Option<Motion>)
    ensures
        m == match key {
            Some(k) => Some(key_motion(k)),
            None => None::<Motion>,
        },
{
    match key {
        Some(MoveKey::W) => Some(Motion { axis: Axis::Y, velocity: 1, shift: 1 }),
        Some(MoveKey::A) => Some(Motion { axis: Axis::X, velocity: -1, shift: 1 }),
        Some(MoveKey::S) => Some(Motion { axis: Axis::Y, velocity: -1, shift: 1 }),
        Some(MoveKey::D) => Some(Motion { axis: Axis::X, velocity: 1, shift: 1 }),
        None => None,
    }
}

/// The key a client holds: a movement key, or `None` for any other.
#[derive(PartialEq, Eq, Structural, Clone, Copy, Debug)]
pub struct CurrentKey {
    pub key: Option<MoveKey>,
}

/// What a client sends the server.
#[derive(PartialEq, Eq, Structural, Clone, Copy, Debug)]
pub struct ClientPacket {
    pub client_id: u32,
    pub key: CurrentKey,
    pub mouse_pressed: bool,
}

/// The packets that the server gathers from its clients.
#[derive(Clone, Debug)]
pub struct ClientPacketList {
    pub packets: Vec<ClientPacket>,
}

/// The moves that the packets make for client `id`, in order: one for each
/// of its packets that reports a key.
pub open spec fn motions_for(packets: Seq<ClientPacket>, id: u32) -> Seq<Motion>
    decreases packets.len(),
{
    if packets.len() == 0 {
        seq![]
    } else {
        let p = packets.last();
        motions_for(packets.drop_last(), id) + if p.client_id == id && p.key.key is Some {
            seq![key_motion(p.key.key->0)]
        } else {
            seq![]
        }
    }
}

/// The moves that the server makes for the entity of client `id`, from
/// the packets in the order they came.
pub fn recv_input_data(list: &ClientPacketList, id: u32) -> (motions: Vec<Motion>)
    ensures
        motions@ == motions_for(list.packets@, id),
{
    let packets = &list.packets;
    let mut motions: Vec<Motion> = Vec::new();
    let mut i: usize = 0;
    while i < packets.len()
        invariant
            i <= packets.len(),
            motions@ == motions_for(packets@.take(i as int), id),
        decreases packets.len() - i,
    {
        let p = packets[i];
        if p.client_id == id {
            if let Some(m) = move_entity(p.key.key) {
                motions.push(m);
            }
        }
        proof {
            assert(packets@.take(i + 1).drop_last() =~= packets@.take(i as int));
        }
        i += 1;
    }
    proof {
        assert(packets@.take(packets@.len() as int) =~= packets@);
    }
    motions
}

/// The id under which the server reports the enemy.
pub const ENEMY_ID: u32 = 999;

/// What the server reports of an entity.
#[derive(PartialEq, Eq, Structural, Clone, Copy, Debug)]
pub struct SyncedEntity {
    pub player_id: Option<u32>,
    pub other_player_id: Option<u32>,
    pub enemy: bool,
    pub has_health: bool,
    /// `Some(pressed)` for a button.
    pub button: Option<bool>,
}

/// One line of the server's report: an id, whether it is a player's, and
/// the entity whose position or health goes there.
#[derive(PartialEq, Eq, Structural, Clone, Copy, Debug)]
pub struct Entry {
    pub id: u32,
    pub is_player: bool,
    pub entity: usize,
}

/// The server's report, with entities where the positions and healths go.
#[derive(Clone, Debug)]
pub struct PacketPlan {
    pub client_id: u32,
    pub positions: Vec<Entry>,
    pub healths: Vec<Entry>,
    pub button: bool,
}

/// The lines that entity `i` adds: one for it as the player, one as
/// another client's player, one as the enemy; each line of position goes
/// with a line of health when the entity has health.
pub open spec fn entity_lines(e: SyncedEntity, i: usize, health: bool) -> Seq<Entry> {
    let take = !health || e.has_health;
    (if e.player_id is Some && take { seq![Entry { id: e.player_id->0, is_player: true, entity: i }] } else { seq![] })
        + (if e.other_player_id is Some && take {
        seq![Entry { id: e.other_player_id->0, is_player: true, entity: i }]
    } else {
        seq![]
    }) + (if e.enemy && take { seq![Entry { id: ENEMY_ID, is_player: false, entity: i }] } else { seq![] })
}

/// The lines of the first `n` entities.
pub open spec fn report_lines(entities: Seq<SyncedEntity>, n: int, health: bool) -> Seq<Entry>
    decreases n,
{
    if n <= 0 {
        seq![]
    } else {
        report_lines(entities, n - 1, health) + entity_lines(entities[n - 1], (n - 1) as usize, health)
    }
}

/// The state of the last button among the first `n` entities; not
/// pressed when there is none.
pub open spec fn report_button(entities: Seq<SyncedEntity>, n: int) -> bool
    decreases n,
{
    if n <= 0 {
        false
    } else {
        match entities[n - 1].button {
            Some(pressed) => pressed,
            None => report_button(entities, n - 1),
        }
    }
}

fn push_lines(out: &mut Vec<Entry>, e: &SyncedEntity, i: usize, health: bool)
    ensures
        final(out)@ == old(out)@ + entity_lines(*e, i, health),
{
    let take = !health || e.has_health;
    if let Some(id) = e.player_id {
        if take {
            out.push(Entry { id, is_player: true, entity: i });
        }
    }
    if let Some(id) = e.other_player_id {
        if take {
            out.push(Entry { id, is_player: true, entity: i });
        }
    }
    if e.enemy && take {
        out.push(Entry { id: ENEMY_ID, is_player: false, entity: i });
    }
    proof {
        assert(final(out)@ =~= old(out)@ + entity_lines(*e, i, health));
    }
}

/// The server's report on the entities for `client_id`.
pub fn send_game_data(entities: &Vec<SyncedEntity>, client_id: u32) -> (packet: PacketPlan)
    ensures
        packet.client_id == client_id,
        packet.positions@ == report_lines(entities@, entities@.len() as int, false),
        packet.healths@ == report_lines(entities@, entities@.len() as int, true),
        packet.button == report_button(entities@, entities@.len() as int),
{
    let mut packet = PacketPlan { client_id, positions: Vec::new(), healths: Vec::new(), button: false };
    let mut i: usize = 0;
    while i < entities.len()
        invariant
            i <= entities.len(),
            packet.client_id == client_id,
            packet.positions@ == report_lines(entities@, i as int, false),
            packet.healths@ == report_lines(entities@, i as int, true),
            packet.button == report_button(entities@, i as int),
        decreases entities.len() - i,
    {
        let e = entities[i];
        push_lines(&mut packet.positions, &e, i, false);
        push_lines(&mut packet.healths, &e, i, true);
        if let Some(pressed) = e.button {
            packet.button = pressed;
        }
        i += 1;
    }
    packet
}

/// The last place of `id` among `ids`, if it occurs.
pub open spec fn last_with(ids: Seq<u32>, id: u32) -> Option<usize>
    decreases ids.len(),
{
    if ids.len() == 0 {
        None
    } else if ids.last() == id {
        Some((ids.len() - 1) as usize)
    } else {
        last_with(ids.drop_last(), id)
    }
}

/// The last place of `id` among `ids`, if it occurs.
pub fn last_index_with_id(ids: &Vec<u32>, id: u32) -> (r: Option<usize>)
    ensures
        r == last_with(ids@, id),
{
    let mut i = ids.len();
    proof {
        assert(ids@.take(i as int) =~= ids@);
    }
    while i > 0
        invariant
            i <= ids.len(),
            last_with(ids@, id) == last_with(ids@.take(i as int), id),
        decreases i,
    {
        proof {
            assert(ids@.take(i as int).drop_last() =~= ids@.take(i - 1));
        }
        if ids[i - 1] == id {
            return Some(i - 1);
        }
        i -= 1;
    }
    None
}

/// What a client's entity takes from the server's report.
#[derive(PartialEq, Eq, Structural, Clone, Copy, Debug)]
pub struct ReceivingEntity {
    /// The id of the client whose player this is, if it is one.
    pub other_player_id: Option<u32>,
    pub enemy: bool,
    pub has_health: bool,
    pub button: bool,
}

/// The lines of the report that an entity takes its position and health
/// from, and the state it takes as a button.
#[derive(PartialEq, Eq, Structural, Clone, Copy, Debug)]
pub struct EntityUpdate {
    pub position: Option<usize>,
    pub health: Option<usize>,
    pub button: Option<bool>,
}

/// The line an entity takes among lines with `ids`: the last one of the
/// enemy's id for an enemy, if there is one; else the last one of its
/// client's id for another client's player.
pub open spec fn pick_line(e: ReceivingEntity, ids: Seq<u32>) -> Option<usize> {
    if e.enemy && last_with(ids, ENEMY_ID) is Some {
        last_with(ids, ENEMY_ID)
    } else {
        match e.other_player_id {
            Some(id) => last_with(ids, id),
            None => None,
        }
    }
}

/// What the entity takes from a report with positions of `position_ids`,
/// healths of `health_ids` and button state `button`.
pub fn client_receive(e: &ReceivingEntity, position_ids: &Vec<u32>, health_ids: &Vec<u32>, button: bool) -> (u: EntityUpdate)
    ensures
        u.position == pick_line(*e, position_ids@),
        u.health == if e.has_health { pick_line(*e, health_ids@) } else { None },
        u.button == if e.button { Some(button) } else { None },
{
    let mut position: Option<usize> = None;
    if let Some(id) = e.other_player_id {
        position = last_index_with_id(position_ids, id);
    }
    if e.enemy {
        if let Some(i) = last_index_with_id(position_ids, ENEMY_ID) {
            position = Some(i);
        }
    }
    let mut health: Option<usize> = None;
    if e.has_health {
        if let Some(id) = e.other_player_id {
            health = last_index_with_id(health_ids, id);
        }
        if e.enemy {
            if let Some(i) = last_index_with_id(health_ids, ENEMY_ID) {
                health = Some(i);
            }
        }
    }
    let button = if e.button { Some(button) } else { None };
    EntityUpdate { position, health, button }
}

/// Entity `i` of `es` has health.
pub open spec fn entry_has_health(es: Seq<SyncedEntity>, l: Entry) -> bool {
    l.entity < es.len() && es[l.entity as int].has_health
}

/// Line `l` reports entity `l.entity` of `es`: as its player, as another
/// client's player, or as the enemy.
pub open spec fn line_of(es: Seq<SyncedEntity>, l: Entry) -> bool {
    let e = es[l.entity as int];
    &&& l.entity < es.len()
    &&& ((l.is_player && e.player_id == Some(l.id)) || (l.is_player && e.other_player_id == Some(l.id)) || (
    !l.is_player && e.enemy && l.id == ENEMY_ID))
}

proof fn lemma_filter_all(s: Seq<Entry>, p: spec_fn(Entry) -> bool, keep: bool)
    requires
        forall|i: int| 0 <= i < s.len() ==> p(#[trigger] s[i]) == keep,
    ensures
        s.filter(p) == if keep { s } else { Seq::<Entry>::empty() },
    decreases s.len(),
{
    reveal(Seq::filter);
    if s.len() > 0 {
        lemma_filter_all(s.drop_last(), p, keep);
        assert(p(s.last()) == keep);
        if keep {
            assert(s.drop_last().push(s.last()) =~= s);
        }
    } else {
        assert(s.filter(p) =~= Seq::<Entry>::empty());
    }
}

proof fn lemma_report_filter(es: Seq<SyncedEntity>, n: int)
    requires
        0 <= n <= es.len() <= usize::MAX,
    ensures
        report_lines(es, n, true) == report_lines(es, n, false).filter(|l: Entry| entry_has_health(es, l)),
    decreases n,
{
    let p = |l: Entry| entry_has_health(es, l);
    if n == 0 {
        lemma_filter_all(Seq::<Entry>::empty(), p, true);
    } else {
        lemma_report_filter(es, n - 1);
        let e = es[n - 1];
        let i = (n - 1) as usize;
        let before = report_lines(es, n - 1, false);
        let lines = entity_lines(e, i, false);
        let healthy = entity_lines(e, i, true);
        assert(report_lines(es, n, false) == before + lines);
        assert(report_lines(es, n, true) == report_lines(es, n - 1, true) + healthy);
        lemma_entity_lines_filter(es, e, i);
        Seq::filter_distributes_over_add(before, lines, p);
    }
}

proof fn lemma_entity_lines_filter(es: Seq<SyncedEntity>, e: SyncedEntity, i: usize)
    requires
        i < es.len(),
        es[i as int] == e,
    ensures
        entity_lines(e, i, false).filter(|l: Entry| entry_has_health(es, l)) == entity_lines(e, i, true),
{
    let p = |l: Entry| entry_has_health(es, l);
    let lines = entity_lines(e, i, false);
    assert forall|k: int| 0 <= k < lines.len() implies p(#[trigger] lines[k]) == e.has_health by {
        assert(lines[k].entity == i);
    }
    lemma_filter_all(lines, p, e.has_health);
    if e.has_health {
        assert(entity_lines(e, i, true) =~= lines);
    } else {
        assert(entity_lines(e, i, true) =~= Seq::<Entry>::empty());
    }
}

proof fn lemma_report_lines_of(es: Seq<SyncedEntity>, n: int)
    requires
        0 <= n <= es.len() <= usize::MAX,
    ensures
        forall|k: int| 0 <= k < report_lines(es, n, false).len() ==> #[trigger] report_lines(es, n, false)[k].entity < n
            && line_of(es, report_lines(es, n, false)[k]),
    decreases n,
{
    if n > 0 {
        lemma_report_lines_of(es, n - 1);
        let e = es[n - 1];
        let i = (n - 1) as usize;
        let before = report_lines(es, n - 1, false);
        let lines = entity_lines(e, i, false);
        let all = report_lines(es, n, false);
        assert forall|k: int| 0 <= k < all.len() implies #[trigger] all[k].entity < n && line_of(es, all[k]) by {
            if k < before.len() {
                assert(all[k] == before[k]);
            } else {
                assert(all[k] == lines[k - before.len()]);
            }
        }
    }
}

proof fn lemma_report_has(es: Seq<SyncedEntity>, n: int, j: int)
    requires
        0 <= j < n <= es.len() <= usize::MAX,
    ensures
        es[j].player_id is Some ==> report_lines(es, n, false).contains(
            Entry { id: es[j].player_id->0, is_player: true, entity: j as usize },
        ),
        es[j].other_player_id is Some ==> report_lines(es, n, false).contains(
            Entry { id: es[j].other_player_id->0, is_player: true, entity: j as usize },
        ),
        es[j].enemy ==> report_lines(es, n, false).contains(Entry { id: ENEMY_ID, is_player: false, entity: j as usize }),
    decreases n,
{
    let before = report_lines(es, n - 1, false);
    let lines = entity_lines(es[n - 1], (n - 1) as usize, false);
    let all = report_lines(es, n, false);
    if j < n - 1 {
        lemma_report_has(es, n - 1, j);
        assert forall|x: Entry| before.contains(x) implies all.contains(x) by {
            let k = choose|k: int| 0 <= k < before.len() && before[k] == x;
            assert(all[k] == before[k]);
        }
    } else {
        assert forall|k: int| 0 <= k < lines.len() implies all.contains(#[trigger] lines[k]) by {
            assert(all[before.len() + k] == lines[k]);
        }
        let e = es[j];
        if e.player_id is Some {
            assert(lines[0] == Entry { id: e.player_id->0, is_player: true, entity: j as usize });
        }
        let a = if e.player_id is Some { 1int } else { 0int };
        if e.other_player_id is Some {
            assert(lines[a] == Entry { id: e.other_player_id->0, is_player: true, entity: j as usize });
        }
        let b = a + if e.other_player_id is Some { 1int } else { 0int };
        if e.enemy {
            assert(lines[b] == Entry { id: ENEMY_ID, is_player: false, entity: j as usize });
        }
    }
}

/// The server's report, over all entities: each entity's player id,
/// another client's id and the enemy each give a line of position, and
/// every line of position is one of those; the lines of health are the
/// lines of position of the entities that have health, in the same order.
pub proof fn lemma_report(es: Seq<SyncedEntity>)
    requires
        es.len() <= usize::MAX,
    ensures
        ({
            let positions = report_lines(es, es.len() as int, false);
            let healths = report_lines(es, es.len() as int, true);
            &&& healths == positions.filter(|l: Entry| entry_has_health(es, l))
            &&& forall|k: int| 0 <= k < positions.len() ==> line_of(es, #[trigger] positions[k])
            &&& forall|j: int|
                0 <= j < es.len() ==> {
                    &&& (#[trigger] es[j]).player_id is Some ==> positions.contains(
                        Entry { id: es[j].player_id->0, is_player: true, entity: j as usize },
                    )
                    &&& es[j].other_player_id is Some ==> positions.contains(
                        Entry { id: es[j].other_player_id->0, is_player: true, entity: j as usize },
                    )
                    &&& es[j].enemy ==> positions.contains(Entry { id: ENEMY_ID, is_player: false, entity: j as usize })
                }
        }),
{
    lemma_report_filter(es, es.len() as int);
    lemma_report_lines_of(es, es.len() as int);
    assert forall|j: int| 0 <= j < es.len() implies {
        &&& (#[trigger] es[j]).player_id is Some ==> report_lines(es, es.len() as int, false).contains(
            Entry { id: es[j].player_id->0, is_player: true, entity: j as usize },
        )
        &&& es[j].other_player_id is Some ==> report_lines(es, es.len() as int, false).contains(
            Entry { id: es[j].other_player_id->0, is_player: true, entity: j as usize },
        )
        &&& es[j].enemy ==> report_lines(es, es.len() as int, false).contains(
            Entry { id: ENEMY_ID, is_player: false, entity: j as usize },
        )
    } by {
        lemma_report_has(es, es.len() as int, j);
    }
}

/// `k` is the last place of `id` among `ids`.
pub open spec fn last_place(ids: Seq<u32>, id: u32, k: int) -> bool {
    &&& 0 <= k < ids.len()
    &&& ids[k] == id
    &&& forall|j: int| k < j < ids.len() ==> ids[j] != id
}

proof fn lemma_last_with(ids: Seq<u32>, id: u32)
    requires
        ids.len() <= usize::MAX,
    ensures
        last_with(ids, id) matches Some(k) ==> last_place(ids, id, k as int),
        last_with(ids, id) is None ==> forall|j: int| 0 <= j < ids.len() ==> ids[j] != id,
    decreases ids.len(),
{
    if ids.len() > 0 && ids.last() != id {
        lemma_last_with(ids.drop_last(), id);
        assert forall|j: int| 0 <= j < ids.len() - 1 implies ids[j] == ids.drop_last()[j] by {}
    }
}

/// What a client's entity takes from a report, over all reports: an enemy
/// takes the last line of the enemy's id when there is one; otherwise
/// another client's player takes the last line of its client's id, and
/// nothing when there is none; any other entity takes nothing. Its health
/// comes the same way from the lines of health, and only when it has
/// health; a button takes the reported button state.
pub proof fn lemma_client_receive(e: ReceivingEntity, ids: Seq<u32>)
    requires
        ids.len() <= usize::MAX,
    ensures
        (e.enemy && exists|j: int| 0 <= j < ids.len() && ids[j] == ENEMY_ID) ==> (pick_line(e, ids) matches Some(k)
            && last_place(ids, ENEMY_ID, k as int)),
        !(e.enemy && exists|j: int| 0 <= j < ids.len() && ids[j] == ENEMY_ID) ==> match e.other_player_id {
            Some(id) => (pick_line(e, ids) matches Some(k) && last_place(ids, id, k as int)) || (pick_line(e, ids) is None
                && forall|j: int| 0 <= j < ids.len() ==> ids[j] != id),
            None => pick_line(e, ids) is None,
        },
{
    lemma_last_with(ids, ENEMY_ID);
    if let Some(id) = e.other_player_id {
        lemma_last_with(ids, id);
    }
    if e.enemy && exists|j: int| 0 <= j < ids.len() && ids[j] == ENEMY_ID {
        let j = choose|j: int| 0 <= j < ids.len() && ids[j] == ENEMY_ID;
        assert(ids[j] == ENEMY_ID);
    }
}

} // verus!
