//! Aircraft tracks and their labels.
//!
//! A `World` holds every aircraft in a slot that its `EntityId` names, and the
//! labels that describe them. A label refers to its aircraft by handle only:
//! it does not own it, and it may outlive it.
use vstd::prelude::*;
use crate::text::{
    MAX_SPEED_UNITS, altitude_text, flight_level_label, flight_level_text, ground_speed_knots,
    is_rounded_root, lemma_ground_speed_knots, lemma_rounded_root_scaled, padded_decimal,
    speed_text,
};
use crate::units::{
    UNITS_PER_FOOT, UNITS_PER_KNOT, UNITS_PER_NAUTICAL_MILE, feet_to_units,
    knots_to_units_per_tick, lemma_round_half_even_cancel, nautical_miles_to_units,
    round_half_even,
};

verus! {

/// The handle of an aircraft: the index of its slot. Slots are never reused,
/// so a handle names at most one aircraft over the world's life.
#[derive(Clone, Copy, Debug, PartialEq, Eq, Structural)]
pub struct EntityId {
    pub index: usize,
}

/// A position in length units (1/22500 m); `z` is the altitude.
#[derive(Clone, Copy, Debug, PartialEq, Eq, Structural)]
pub struct Position {
    pub x: i64,
    pub y: i64,
    pub z: i64,
}

/// A velocity in length units per tick.
#[derive(Clone, Copy, Debug, PartialEq, Eq, Structural)]
pub struct Velocity {
    pub x: i64,
    pub y: i64,
    pub z: i64,
}

/// The flight identifier of an aircraft.
#[derive(Debug)]
pub struct FlightNumber(pub String);

/// The state of one aircraft.
#[derive(Debug)]
pub struct Aircraft {
    pub flight_number: FlightNumber,
    pub position: Position,
    pub velocity: Velocity,
}

/// What a label shows of its aircraft.
#[derive(Clone, Copy, Debug, PartialEq, Eq, Structural)]
pub enum LabelKind {
    /// The flight identifier.
    FlightNumber,
    /// The flight level, such as `FL100`.
    Altitude,
    /// The ground speed in knots, such as `180`.
    GroundSpeed,
}

/// A label: what it shows, of which aircraft, and its current text.
#[derive(Debug)]
pub struct Label {
    pub kind: LabelKind,
    pub parent: EntityId,
    pub text: String,
}

/// A request made to the world.
#[derive(Debug)]
pub enum AircraftEvent {
    /// Create an aircraft at `position` (nautical miles), moving at
    /// `ground_speed` (knots), at `altitude` (feet).
    Spawn { flight_number: String, position: (i32, i32), ground_speed: (i32, i32), altitude: i32 },
}

/// All aircraft, by slot (`None` once removed), and all labels.
#[derive(Debug)]
pub struct World {
    pub aircraft: Vec<Option<Aircraft>>,
    pub labels: Vec<Label>,
}

/// The position of an aircraft spawned at `position` nautical miles and
/// `altitude` feet.
pub open spec fn spawn_position(position: (i32, i32), altitude: i32) -> Position {
    Position {
        x: (position.0 * UNITS_PER_NAUTICAL_MILE) as i64,
        y: (position.1 * UNITS_PER_NAUTICAL_MILE) as i64,
        z: (altitude * UNITS_PER_FOOT) as i64,
    }
}

/// The velocity of an aircraft spawned with `ground_speed` knots; it keeps
/// its altitude.
pub open spec fn spawn_velocity(ground_speed: (i32, i32)) -> Velocity {
    Velocity {
        x: (ground_speed.0 * UNITS_PER_KNOT) as i64,
        y: (ground_speed.1 * UNITS_PER_KNOT) as i64,
        z: 0,
    }
}

/// `a` is the aircraft that a spawn request with these values creates.
pub open spec fn spawned(
    a: Aircraft,
    flight_number: Seq<char>,
    position: (i32, i32),
    ground_speed: (i32, i32),
    altitude: i32,
) -> bool {
    &&& a.flight_number.0@ == flight_number
    &&& a.position == spawn_position(position, altitude)
    &&& a.velocity == spawn_velocity(ground_speed)
}

/// `a` is the aircraft that `event` creates.
pub open spec fn spawned_by(a: Aircraft, event: AircraftEvent) -> bool {
    match event {
        AircraftEvent::Spawn { flight_number, position, ground_speed, altitude } => spawned(
            a,
            flight_number@,
            position,
            ground_speed,
            altitude,
        ),
    }
}

/// The text that a label of `kind` shows for aircraft `a`.
pub open spec fn label_text(kind: LabelKind, a: Aircraft) -> Seq<char> {
    match kind {
        LabelKind::FlightNumber => a.flight_number.0@,
        LabelKind::Altitude => altitude_text(a.position.z as int),
        LabelKind::GroundSpeed => speed_text(
            ground_speed_knots(a.velocity.x as int, a.velocity.y as int),
        ),
    }
}

/// A velocity that a spawn can give: horizontal, each component that of a
/// whole number of knots that fits an `i32`.
pub open spec fn velocity_in_range(v: Velocity) -> bool {
    &&& -MAX_SPEED_UNITS <= v.x <= MAX_SPEED_UNITS
    &&& -MAX_SPEED_UNITS <= v.y <= MAX_SPEED_UNITS
    &&& v.z == 0
}

/// The three labels of aircraft `id` start at `at` in `labels`, in the order
/// flight number, altitude, ground speed, each showing `a`.
pub open spec fn labels_of(labels: Seq<Label>, at: int, id: EntityId, a: Aircraft) -> bool {
    &&& 0 <= at && at + 3 <= labels.len()
    &&& labels[at].kind == LabelKind::FlightNumber
    &&& labels[at + 1].kind == LabelKind::Altitude
    &&& labels[at + 2].kind == LabelKind::GroundSpeed
    &&& forall|j: int| at <= j < at + 3 ==> #[trigger] labels[j].parent == id
    &&& forall|j: int| at <= j < at + 3 ==> #[trigger] labels[j].text@ == label_text(labels[j].kind, a)
}


/// `p` moved by `v` for one tick, in unbounded arithmetic.
pub open spec fn moved(p: Position, v: Velocity) -> (int, int, int) {
    (p.x + v.x, p.y + v.y, p.z + v.z)
}

/// `a` can move for one tick without leaving the range of `i64`.
pub open spec fn can_move(a: Aircraft) -> bool {
    let m = moved(a.position, a.velocity);
    &&& i64::MIN <= m.0 <= i64::MAX
    &&& i64::MIN <= m.1 <= i64::MAX
    &&& i64::MIN <= m.2 <= i64::MAX
}

/// `b` is `a` after one tick: its position advanced by its velocity, all else kept.
pub open spec fn advanced(a: Aircraft, b: Aircraft) -> bool {
    let m = moved(a.position, a.velocity);
    &&& b.position.x == m.0
    &&& b.position.y == m.1
    &&& b.position.z == m.2
    &&& b.velocity == a.velocity
    &&& b.flight_number == a.flight_number
}

/// Slot `new` is slot `old` after one tick: an aircraft that can move is
/// advanced, one that would leave the range of `i64` stays as it was.
pub open spec fn slot_ticked(old: Option<Aircraft>, new: Option<Aircraft>) -> bool {
    match old {
        Some(a) => new is Some && if can_move(a) {
            advanced(a, new->0)
        } else {
            new->0 == a
        },
        None => new is None,
    }
}

/// Every live aircraft of `w` can move for one tick.
pub open spec fn all_can_move(w: World) -> bool {
    forall|i: int|
        0 <= i < w.aircraft@.len() && #[trigger] w.aircraft@[i] is Some ==> can_move(
            w.aircraft@[i]->0,
        )
}

/// `new` is `old` after one tick, each slot on its own.
pub open spec fn ticked(old: World, new: World) -> bool {
    &&& new.aircraft@.len() == old.aircraft@.len()
    &&& forall|i: int|
        0 <= i < old.aircraft@.len() ==> slot_ticked(
            #[trigger] old.aircraft@[i],
            new.aircraft@[i],
        )
    &&& new.labels@ == old.labels@
}

/// The text that label `l` shows after a synchronization of the labels of
/// `kind` in `w`: that of its aircraft where it is a label of `kind` and its
/// aircraft still exists, else the text it had.
pub open spec fn synced_text(w: World, l: Label, kind: LabelKind) -> Seq<char> {
    if l.kind == kind && l.parent.index < w.aircraft@.len() && w.aircraft@[l.parent.index as int] is Some {
        label_text(kind, w.aircraft@[l.parent.index as int]->0)
    } else {
        l.text@
    }
}

/// `new` is `old` after a synchronization of the labels of `kind`.
pub open spec fn synced(old: World, new: World, kind: LabelKind) -> bool {
    &&& new.aircraft@ == old.aircraft@
    &&& new.labels@.len() == old.labels@.len()
    &&& forall|j: int|
        0 <= j < old.labels@.len() ==> {
            &&& (#[trigger] new.labels@[j]).kind == old.labels@[j].kind
            &&& new.labels@[j].parent == old.labels@[j].parent
            &&& new.labels@[j].text@ == synced_text(old, old.labels@[j], kind)
        }
}

/// Whether a label refers to an aircraft other than `id`.
pub open spec fn refers_elsewhere(id: EntityId) -> spec_fn(Label) -> bool {
    |l: Label| l.parent != id
}

/// After any run of ticks in which an aircraft could move each time, it
/// stands at its first position plus the number of ticks times its velocity,
/// which has not changed, whatever the other aircraft did.
pub proof fn lemma_integration(worlds: Seq<World>, i: int)
    requires
        worlds.len() >= 1,
        forall|t: int| 0 <= t < worlds.len() - 1 ==> ticked(#[trigger] worlds[t], worlds[t + 1]),
        forall|t: int|
            0 <= t < worlds.len() - 1 ==> can_move(#[trigger] worlds[t].aircraft@[i]->0),
        0 <= i < worlds[0].aircraft@.len(),
        worlds[0].aircraft@[i] is Some,
    ensures
        i < worlds.last().aircraft@.len(),
        worlds.last().aircraft@[i] is Some,
        ({
            let a = worlds[0].aircraft@[i]->0;
            let b = worlds.last().aircraft@[i]->0;
            let n = worlds.len() - 1;
            &&& b.velocity == a.velocity
            &&& b.flight_number == a.flight_number
            &&& b.position.x == a.position.x + n * a.velocity.x
            &&& b.position.y == a.position.y + n * a.velocity.y
            &&& b.position.z == a.position.z + n * a.velocity.z
        }),
    decreases worlds.len(),
{
    if worlds.len() > 1 {
        let prefix = worlds.drop_last();
        assert forall|t: int| 0 <= t < prefix.len() - 1 implies ticked(
            #[trigger] prefix[t],
            prefix[t + 1],
        ) by {
            assert(ticked(worlds[t], worlds[t + 1]));
        }
        assert forall|t: int| 0 <= t < prefix.len() - 1 implies can_move(
            #[trigger] prefix[t].aircraft@[i]->0,
        ) by {
            assert(can_move(worlds[t].aircraft@[i]->0));
        }
        lemma_integration(prefix, i);
        let m = worlds.len() - 2;
        assert(ticked(worlds[m], worlds[m + 1]));
        assert(can_move(worlds[m].aircraft@[i]->0));
        assert(slot_ticked(worlds[m].aircraft@[i], worlds[m + 1].aircraft@[i]));
        let a = worlds[0].aircraft@[i]->0;
        let n = worlds.len() - 1;
        let vx = a.velocity.x as int;
        let vy = a.velocity.y as int;
        let vz = a.velocity.z as int;
        assert((n - 1) * vx + vx == n * vx && (n - 1) * vy + vy == n * vy && (n - 1) * vz + vz
            == n * vz) by (nonlinear_arith);
    }
}

/// Ticks never change what an aircraft's labels show: its identifier,
/// altitude and velocity stay, so each label text after any run of ticks is
/// the one it had at the start, and so the one given at spawn.
pub proof fn lemma_label_texts_survive_ticks(worlds: Seq<World>, i: int, kind: LabelKind)
    requires
        worlds.len() >= 1,
        worlds[0].wf(),
        forall|t: int| 0 <= t < worlds.len() - 1 ==> ticked(#[trigger] worlds[t], worlds[t + 1]),
        0 <= i < worlds[0].aircraft@.len(),
        worlds[0].aircraft@[i] is Some,
    ensures
        i < worlds.last().aircraft@.len(),
        worlds.last().aircraft@[i] is Some,
        worlds.last().aircraft@[i]->0.position.z == worlds[0].aircraft@[i]->0.position.z,
        worlds.last().aircraft@[i]->0.velocity == worlds[0].aircraft@[i]->0.velocity,
        label_text(kind, worlds.last().aircraft@[i]->0) == label_text(
            kind,
            worlds[0].aircraft@[i]->0,
        ),
    decreases worlds.len(),
{
    if worlds.len() > 1 {
        let prefix = worlds.drop_last();
        assert forall|t: int| 0 <= t < prefix.len() - 1 implies ticked(
            #[trigger] prefix[t],
            prefix[t + 1],
        ) by {
            assert(ticked(worlds[t], worlds[t + 1]));
        }
        lemma_label_texts_survive_ticks(prefix, i, kind);
        let m = worlds.len() - 2;
        assert(ticked(worlds[m], worlds[m + 1]));
        assert(slot_ticked(worlds[m].aircraft@[i], worlds[m + 1].aircraft@[i]));
        assert(velocity_in_range(worlds[0].aircraft@[i]->0.velocity));
    }
}

/// The labels of a spawned aircraft show what its request asked for: the
/// identifier, the flight level of the altitude in hundreds of feet rounded to
/// the nearest (exact halves to even, signed below zero), and the magnitude of the ground speed in whole knots rounded
/// to the nearest.
pub proof fn lemma_spawn_labels(
    a: Aircraft,
    flight_number: Seq<char>,
    position: (i32, i32),
    ground_speed: (i32, i32),
    altitude: i32,
    knots: int,
)
    requires
        spawned(a, flight_number, position, ground_speed, altitude),
        is_rounded_root(
            knots,
            ground_speed.0 * ground_speed.0 + ground_speed.1 * ground_speed.1,
            1,
        ),
    ensures
        label_text(LabelKind::FlightNumber, a) == flight_number,
        label_text(LabelKind::Altitude, a) == flight_level_text(
            altitude < 0,
            round_half_even(
                if altitude < 0 {
                    -altitude
                } else {
                    altitude as int
                },
                100,
            ) as nat,
        ),
        label_text(LabelKind::GroundSpeed, a) == speed_text(knots),
{
    let m: int = if altitude < 0 {
        -altitude
    } else {
        altitude as int
    };
    lemma_round_half_even_cancel(m, 100, UNITS_PER_FOOT as int);
    assert(a.position.z < 0 <==> altitude < 0);
    assert((if a.position.z < 0 { -a.position.z } else { a.position.z as int }) == m * UNITS_PER_FOOT);
    let k = UNITS_PER_KNOT as int;
    lemma_rounded_root_scaled(knots, ground_speed.0 as int, ground_speed.1 as int, k);
    lemma_ground_speed_knots(knots, a.velocity.x as int, a.velocity.y as int);
}

/// After a synchronization of the labels of `kind`, every such label whose
/// aircraft exists shows that aircraft's current state.
pub proof fn lemma_labels_converge(old: World, new: World, kind: LabelKind, j: int)
    requires
        synced(old, new, kind),
        0 <= j < new.labels@.len(),
        new.labels@[j].kind == kind,
        new.labels@[j].parent.index < new.aircraft@.len(),
        new.aircraft@[new.labels@[j].parent.index as int] is Some,
    ensures
        new.labels@[j].text@ == label_text(
            kind,
            new.aircraft@[new.labels@[j].parent.index as int]->0,
        ),
{
}

/// A label whose aircraft is gone keeps its last text through a
/// synchronization.
pub proof fn lemma_dangling_label_keeps_text(old: World, new: World, kind: LabelKind, j: int)
    requires
        synced(old, new, kind),
        0 <= j < old.labels@.len(),
        old.labels@[j].parent.index >= old.aircraft@.len()
            || old.aircraft@[old.labels@[j].parent.index as int] is None,
    ensures
        new.labels@[j].text@ == old.labels@[j].text@,
{
}

/// A tick moves each aircraft by its own state alone: two worlds that agree
/// on slot `i` agree on it after a tick, whatever their other aircraft.
pub proof fn lemma_tick_per_aircraft(w1: World, n1: World, w2: World, n2: World, i: int)
    requires
        ticked(w1, n1),
        ticked(w2, n2),
        0 <= i < w1.aircraft@.len(),
        0 <= i < w2.aircraft@.len(),
        w1.aircraft@[i] == w2.aircraft@[i],
    ensures
        n1.aircraft@[i] == n2.aircraft@[i],
{
    assert(slot_ticked(w1.aircraft@[i], n1.aircraft@[i]));
    assert(slot_ticked(w2.aircraft@[i], n2.aircraft@[i]));
    if w1.aircraft@[i] is Some {
        let b1 = n1.aircraft@[i]->0;
        let b2 = n2.aircraft@[i]->0;
        assert(b1.position == b2.position);
        assert(b1 == b2);
    }
}

/// A synchronization sets each label from that label and its own aircraft
/// alone: two labels that are equal, in worlds that agree on their aircraft's
/// slot, show the same text afterwards.
pub proof fn lemma_sync_per_label(
    w1: World,
    n1: World,
    w2: World,
    n2: World,
    kind: LabelKind,
    j1: int,
    j2: int,
)
    requires
        synced(w1, n1, kind),
        synced(w2, n2, kind),
        0 <= j1 < w1.labels@.len(),
        0 <= j2 < w2.labels@.len(),
        w1.labels@[j1] == w2.labels@[j2],
        w1.aircraft@.len() == w2.aircraft@.len(),
        w1.labels@[j1].parent.index < w1.aircraft@.len() ==> w1.aircraft@[w1.labels@[j1].parent.index as int]
            == w2.aircraft@[w1.labels@[j1].parent.index as int],
    ensures
        n1.labels@[j1].text@ == n2.labels@[j2].text@,
{
}

impl World {
    /// Every live aircraft moves horizontally within the speeds a spawn can
    /// give, and every label refers to a slot of the world.
    pub open spec fn wf(&self) -> bool {
        &&& forall|i: int|
            0 <= i < self.aircraft@.len() && #[trigger] self.aircraft@[i] is Some
                ==> velocity_in_range(self.aircraft@[i]->0.velocity)
        &&& forall|j: int|
            0 <= j < self.labels@.len() ==> (#[trigger] self.labels@[j]).parent.index
                < self.aircraft@.len()
    }

    /// An empty world.
    pub fn new() -> (w: World)
        ensures
            w.wf(),
            w.aircraft@.len() == 0,
            w.labels@.len() == 0,
    {
        World { aircraft: Vec::new(), labels: Vec::new() }
    }

    /// Creates an aircraft from a spawn request, with its three labels showing
    /// its state, and returns its handle. Earlier aircraft and labels are
    /// kept as they were.
    pub fn spawn(
        &mut self,
        flight_number: String,
        position: (i32, i32),
        ground_speed: (i32, i32),
        altitude: i32,
    ) -> (id: EntityId)
        requires
            old(self).wf(),
            old(self).aircraft@.len() < usize::MAX,
            old(self).labels@.len() + 3 <= usize::MAX,
        ensures
            final(self).wf(),
            id.index == old(self).aircraft@.len(),
            final(self).aircraft@.len() == old(self).aircraft@.len() + 1,
            final(self).aircraft@.subrange(0, id.index as int) == old(self).aircraft@,
            final(self).aircraft@[id.index as int] is Some,
            spawned(
                final(self).aircraft@[id.index as int]->0,
                flight_number@,
                position,
                ground_speed,
                altitude,
            ),
            final(self).labels@.len() == old(self).labels@.len() + 3,
            final(self).labels@.subrange(0, old(self).labels@.len() as int) == old(self).labels@,
            labels_of(
                final(self).labels@,
                old(self).labels@.len() as int,
                id,
                final(self).aircraft@[id.index as int]->0,
            ),
    {
        let pos = Position {
            x: nautical_miles_to_units(position.0),
            y: nautical_miles_to_units(position.1),
            z: feet_to_units(altitude),
        };
        let vel = Velocity {
            x: knots_to_units_per_tick(ground_speed.0),
            y: knots_to_units_per_tick(ground_speed.1),
            z: 0,
        };
        let id = EntityId { index: self.aircraft.len() };
        let name_text = flight_number.clone();
        let altitude_text = flight_level_label(pos.z);
        let speed = crate::text::ground_speed(vel.x, vel.y);
        let speed_label = padded_decimal(speed);
        let a = Aircraft { flight_number: FlightNumber(flight_number), position: pos, velocity: vel };
        proof {
            assert(name_text@ == label_text(LabelKind::FlightNumber, a));
            assert(altitude_text@ == label_text(LabelKind::Altitude, a));
            assert(speed_label@ == label_text(LabelKind::GroundSpeed, a));
        }
        self.aircraft.push(Some(a));
        self.labels.push(Label { kind: LabelKind::FlightNumber, parent: id, text: name_text });
        self.labels.push(Label { kind: LabelKind::Altitude, parent: id, text: altitude_text });
        self.labels.push(Label { kind: LabelKind::GroundSpeed, parent: id, text: speed_label });
        proof {
            assert(self.aircraft@.subrange(0, id.index as int) =~= old(self).aircraft@);
            assert(self.labels@.subrange(0, old(self).labels@.len() as int) =~= old(self).labels@);
        }
        id
    }
    /// One fixed tick: moves every live aircraft by its velocity, each on its
    /// own. One that would leave the range of `i64` stays where it is; the
    /// result says whether every aircraft moved.
    pub fn update_aircraft_position_fixed(&mut self) -> (moved: bool)
        requires
            old(self).wf(),
        ensures
            final(self).wf(),
            moved == all_can_move(*old(self)),
            ticked(*old(self), *final(self)),
    {
        let ghost start = *self;
        let n = self.aircraft.len();
        let mut moved = true;
        let mut i: usize = 0;
        while i < n
            invariant
                n == self.aircraft@.len(),
                n == start.aircraft@.len(),
                i <= n,
                start.wf(),
                self.labels@ == start.labels@,
                moved == (forall|j: int|
                    0 <= j < i && #[trigger] start.aircraft@[j] is Some ==> can_move(
                        start.aircraft@[j]->0,
                    )),
                forall|j: int|
                    0 <= j < i ==> slot_ticked(#[trigger] start.aircraft@[j], self.aircraft@[j]),
                forall|j: int| i <= j < n ==> #[trigger] self.aircraft@[j] == start.aircraft@[j],
            decreases n - i,
        {
            match &mut self.aircraft[i] {
                Some(a) => {
                    let x = a.position.x.checked_add(a.velocity.x);
                    let y = a.position.y.checked_add(a.velocity.y);
                    let z = a.position.z.checked_add(a.velocity.z);
                    match (x, y, z) {
                        (Some(x), Some(y), Some(z)) => {
                            a.position = Position { x, y, z };
                        },
                        _ => {
                            moved = false;
                        },
                    }
                },
                None => {},
            }
            proof {
                if !moved {
                    assert(!(forall|j: int|
                        0 <= j < i + 1 && #[trigger] start.aircraft@[j] is Some ==> can_move(
                            start.aircraft@[j]->0,
                        ))) by {
                        if start.aircraft@[i as int] is Some && !can_move(start.aircraft@[i as int]->0) {
                        } else {
                            let w = choose|j: int|
                                !(0 <= j < i && #[trigger] start.aircraft@[j] is Some ==> can_move(
                                    start.aircraft@[j]->0,
                                ));
                            assert(!(0 <= w < i + 1 && start.aircraft@[w] is Some ==> can_move(
                                start.aircraft@[w]->0,
                            )));
                        }
                    }
                }
            }
            i += 1;
        }
        proof {
            assert forall|j: int|
                0 <= j < self.aircraft@.len() && #[trigger] self.aircraft@[j] is Some implies velocity_in_range(
                self.aircraft@[j]->0.velocity,
            ) by {
                assert(slot_ticked(start.aircraft@[j], self.aircraft@[j]));
            }
        }
        moved
    }

    /// Removes aircraft `id`, where it exists, and says whether it did. Its
    /// labels stay, showing their last text.
    pub fn despawn(&mut self, id: EntityId) -> (removed: bool)
        requires
            old(self).wf(),
        ensures
            final(self).wf(),
            removed == (id.index < old(self).aircraft@.len()
                && old(self).aircraft@[id.index as int] is Some),
            removed ==> final(self).aircraft@ == old(self).aircraft@.update(id.index as int, None),
            !removed ==> final(self).aircraft@ == old(self).aircraft@,
            final(self).labels@ == old(self).labels@,
    {
        if id.index < self.aircraft.len() && self.aircraft[id.index].is_some() {
            self.aircraft.set(id.index, None);
            true
        } else {
            false
        }
    }

    /// Removes aircraft `id`, where it exists, as `despawn` does, and with it
    /// every label that refers to it; the other labels keep their order.
    pub fn despawn_with_labels(&mut self, id: EntityId) -> (removed: bool)
        requires
            old(self).wf(),
        ensures
            final(self).wf(),
            removed == (id.index < old(self).aircraft@.len()
                && old(self).aircraft@[id.index as int] is Some),
            removed ==> final(self).aircraft@ == old(self).aircraft@.update(id.index as int, None),
            !removed ==> final(self).aircraft@ == old(self).aircraft@,
            final(self).labels@ == old(self).labels@.filter(refers_elsewhere(id)),
    {
        let removed = self.despawn(id);
        let ghost start = self.labels@;
        let mut kept: Vec<Label> = Vec::new();
        let mut j: usize = 0;
        while j < self.labels.len()
            invariant
                self.wf(),
                self.labels@ == start,
                j <= start.len(),
                kept@ == start.subrange(0, j as int).filter(refers_elsewhere(id)),
                forall|k: int|
                    0 <= k < kept@.len() ==> (#[trigger] kept@[k]).parent.index
                        < self.aircraft@.len(),
            decreases start.len() - j,
        {
            let l = &self.labels[j];
            if l.parent != id {
                let copy = Label { kind: l.kind, parent: l.parent, text: l.text.clone() };
                assert(copy == start[j as int]);
                kept.push(copy);
            }
            proof {
                let pre = start.subrange(0, j + 1);
                assert(pre.drop_last() =~= start.subrange(0, j as int));
                assert(pre.last() == start[j as int]);
                reveal(Seq::filter);
                assert(pre.filter(refers_elsewhere(id)) == if refers_elsewhere(id)(pre.last()) {
                    pre.drop_last().filter(refers_elsewhere(id)).push(pre.last())
                } else {
                    pre.drop_last().filter(refers_elsewhere(id))
                });
            }
            j += 1;
        }
        proof {
            assert(start.subrange(0, start.len() as int) =~= start);
        }
        self.labels = kept;
        assert(self.labels@ == start.filter(refers_elsewhere(id)));
        removed
    }

    fn sync_labels(&mut self, kind: LabelKind)
        requires
            old(self).wf(),
        ensures
            final(self).wf(),
            synced(*old(self), *final(self), kind),
    {
        let ghost start = *self;
        let n = self.labels.len();
        let mut j: usize = 0;
        while j < n
            invariant
                n == self.labels@.len(),
                n == start.labels@.len(),
                j <= n,
                start.wf(),
                self.aircraft@ == start.aircraft@,
                forall|k: int|
                    0 <= k < n ==> {
                        &&& (#[trigger] self.labels@[k]).kind == start.labels@[k].kind
                        &&& self.labels@[k].parent == start.labels@[k].parent
                    },
                forall|k: int|
                    0 <= k < j ==> (#[trigger] self.labels@[k]).text@ == synced_text(
                        start,
                        start.labels@[k],
                        kind,
                    ),
                forall|k: int| j <= k < n ==> (#[trigger] self.labels@[k]).text == start.labels@[k].text,
            decreases n - j,
        {
            let parent = self.labels[j].parent.index;
            if self.labels[j].kind == kind && parent < self.aircraft.len() {
                let text = match &self.aircraft[parent] {
                    Some(a) => {
                        assert(velocity_in_range(start.aircraft@[parent as int]->0.velocity));
                        Some(
                            match kind {
                                LabelKind::FlightNumber => a.flight_number.0.clone(),
                                LabelKind::Altitude => flight_level_label(a.position.z),
                                LabelKind::GroundSpeed => padded_decimal(
                                    crate::text::ground_speed(a.velocity.x, a.velocity.y),
                                ),
                            },
                        )
                    },
                    None => None,
                };
                match text {
                    Some(t) => {
                        self.labels[j].text = t;
                    },
                    None => {},
                }
            }
            j += 1;
        }
    }

    /// Shows in every flight-number label the identifier of its aircraft;
    /// a label whose aircraft is gone keeps its text.
    pub fn update_flight_number_labels(&mut self)
        requires
            old(self).wf(),
        ensures
            final(self).wf(),
            synced(*old(self), *final(self), LabelKind::FlightNumber),
    {
        self.sync_labels(LabelKind::FlightNumber);
    }

    /// Shows in every altitude label the flight level of its aircraft; a
    /// label whose aircraft is gone keeps its text.
    pub fn update_altitude_labels(&mut self)
        requires
            old(self).wf(),
        ensures
            final(self).wf(),
            synced(*old(self), *final(self), LabelKind::Altitude),
    {
        self.sync_labels(LabelKind::Altitude);
    }

    /// Shows in every ground-speed label the ground speed of its aircraft;
    /// a label whose aircraft is gone keeps its text.
    pub fn update_ground_speed_labels(&mut self)
        requires
            old(self).wf(),
        ensures
            final(self).wf(),
            synced(*old(self), *final(self), LabelKind::GroundSpeed),
    {
        self.sync_labels(LabelKind::GroundSpeed);
    }
    /// Applies every spawn request of `events`, in order, and returns the
    /// handles of the aircraft created, one per request.
    pub fn process_aircraft_events(&mut self, events: &Vec<AircraftEvent>) -> (ids: Vec<EntityId>)
        requires
            old(self).wf(),
            old(self).aircraft@.len() + events@.len() < usize::MAX,
            old(self).labels@.len() + 3 * events@.len() <= usize::MAX,
        ensures
            final(self).wf(),
            ids@.len() == events@.len(),
            final(self).aircraft@.len() == old(self).aircraft@.len() + events@.len(),
            final(self).aircraft@.subrange(0, old(self).aircraft@.len() as int)
                == old(self).aircraft@,
            final(self).labels@.len() == old(self).labels@.len() + 3 * events@.len(),
            final(self).labels@.subrange(0, old(self).labels@.len() as int) == old(self).labels@,
            forall|k: int|
                0 <= k < events@.len() ==> {
                    let i = old(self).aircraft@.len() + k;
                    &&& (#[trigger] ids@[k]).index == i
                    &&& final(self).aircraft@[i] is Some
                    &&& spawned_by(final(self).aircraft@[i]->0, events@[k])
                    &&& labels_of(
                        final(self).labels@,
                        old(self).labels@.len() + 3 * k,
                        ids@[k],
                        final(self).aircraft@[i]->0,
                    )
                },
    {
        let ghost start = *self;
        let mut ids: Vec<EntityId> = Vec::new();
        let mut k: usize = 0;
        while k < events.len()
            invariant
                self.wf(),
                k <= events@.len(),
                ids@.len() == k,
                start.aircraft@.len() + events@.len() < usize::MAX,
                start.labels@.len() + 3 * events@.len() <= usize::MAX,
                self.aircraft@.len() == start.aircraft@.len() + k,
                self.aircraft@.subrange(0, start.aircraft@.len() as int) == start.aircraft@,
                self.labels@.len() == start.labels@.len() + 3 * k,
                self.labels@.subrange(0, start.labels@.len() as int) == start.labels@,
                forall|q: int|
                    0 <= q < k ==> {
                        let i = start.aircraft@.len() + q;
                        &&& (#[trigger] ids@[q]).index == i
                        &&& self.aircraft@[i] is Some
                        &&& spawned_by(self.aircraft@[i]->0, events@[q])
                        &&& labels_of(
                            self.labels@,
                            start.labels@.len() + 3 * q,
                            ids@[q],
                            self.aircraft@[i]->0,
                        )
                    },
            decreases events@.len() - k,
        {
            let ghost before = *self;
            let ghost ids_before = ids@;
            match &events[k] {
                AircraftEvent::Spawn { flight_number, position, ground_speed, altitude } => {
                    let id = self.spawn(flight_number.clone(), *position, *ground_speed, *altitude);
                    ids.push(id);
                },
            }
            proof {
                assert(self.aircraft@.subrange(0, start.aircraft@.len() as int) =~= start.aircraft@) by {
                    assert(self.aircraft@.subrange(0, before.aircraft@.len() as int) == before.aircraft@);
                    assert forall|t: int| 0 <= t < start.aircraft@.len() implies self.aircraft@[t] == start.aircraft@[t] by {
                        assert(self.aircraft@[t] == self.aircraft@.subrange(0, before.aircraft@.len() as int)[t]);
                        assert(before.aircraft@[t] == before.aircraft@.subrange(0, start.aircraft@.len() as int)[t]);
                    }
                }
                assert(self.labels@.subrange(0, start.labels@.len() as int) =~= start.labels@) by {
                    assert(self.labels@.subrange(0, before.labels@.len() as int) == before.labels@);
                    assert forall|t: int| 0 <= t < start.labels@.len() implies self.labels@[t] == start.labels@[t] by {
                        assert(self.labels@[t] == self.labels@.subrange(0, before.labels@.len() as int)[t]);
                        assert(before.labels@[t] == before.labels@.subrange(0, start.labels@.len() as int)[t]);
                    }
                }
                assert forall|q: int|
                    0 <= q < k + 1 implies {
                        let i = start.aircraft@.len() + q;
                        &&& (#[trigger] ids@[q]).index == i
                        &&& self.aircraft@[i] is Some
                        &&& spawned_by(self.aircraft@[i]->0, events@[q])
                        &&& labels_of(
                            self.labels@,
                            start.labels@.len() + 3 * q,
                            ids@[q],
                            self.aircraft@[i]->0,
                        )
                    } by {
                    let i = start.aircraft@.len() + q;
                    let at = start.labels@.len() + 3 * q;
                    if q < k {
                        assert(ids@[q] == ids_before[q]);
                        assert(self.aircraft@[i] == self.aircraft@.subrange(0, before.aircraft@.len() as int)[i]);
                        assert(labels_of(before.labels@, at, ids@[q], before.aircraft@[i]->0));
                        assert forall|j: int| at <= j < at + 3 implies self.labels@[j] == before.labels@[j] by {
                            assert(self.labels@[j] == self.labels@.subrange(0, before.labels@.len() as int)[j]);
                        }
                    } else {
                        assert(ids@[q] == ids@[k as int]);
                        assert(ids@[k as int].index == before.aircraft@.len());
                        assert(at == before.labels@.len());
                    }
                }
            }
            k += 1;
        }
        ids
    }
}

} // verus!
