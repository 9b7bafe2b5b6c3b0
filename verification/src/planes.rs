//! The planes on the globe, and how a flight record changes them.
//!
//! The renderer keeps one entity for each plane. Each frame it asks the feed
//! for records, one after the other, and lets this module decide for each
//! what happens: planes that carry the record's identifier move, and where
//! there is none a new plane joins the list and is called for. The list
//! holds the planes that are called for from the moment of the call, so no
//! identifier is ever called for twice.

use crate::flight::{FlightInfo, FlightRecord};
use vstd::prelude::*;

verus! {

/// How many records one frame takes in before it leaves the rest to the next.
pub const FLIGHTS_PER_FRAME: usize = 50;

/// A plane on the globe. Its place is given by the coordinates last
/// reported for it, from which the renderer derives position and
/// orientation.
#[derive(Clone, Debug, PartialEq, Eq)]
pub struct Plane {
    pub uuid: String,
    pub landed: bool,
    pub latitude: String,
    pub longitude: String,
}

/// What a `Plane` holds, as plain text.
pub struct PlaneView {
    pub uuid: Seq<char>,
    pub landed: bool,
    pub latitude: Seq<char>,
    pub longitude: Seq<char>,
}

impl View for Plane {
    type V = PlaneView;

    open spec fn view(&self) -> PlaneView {
        PlaneView {
            uuid: self.uuid@,
            landed: self.landed,
            latitude: self.latitude@,
            longitude: self.longitude@,
        }
    }
}

/// The call for a new plane.
#[derive(Clone, Debug, PartialEq, Eq)]
pub struct NewPlaneEvent {
    pub uuid: String,
    pub latitude: String,
    pub longitude: String,
}

/// What a `NewPlaneEvent` holds, as plain text.
pub struct NewPlaneView {
    pub uuid: Seq<char>,
    pub latitude: Seq<char>,
    pub longitude: Seq<char>,
}

impl View for NewPlaneEvent {
    type V = NewPlaneView;

    open spec fn view(&self) -> NewPlaneView {
        NewPlaneView { uuid: self.uuid@, latitude: self.latitude@, longitude: self.longitude@ }
    }
}

/// What the renderer has to do for one record.
#[derive(Clone, Debug, PartialEq, Eq)]
pub enum Update {
    /// The marked planes, by their place in the list, have moved: their
    /// entities are to be placed anew.
    Moved(Vec<bool>),
    /// No plane carried the identifier: a new one has joined the list, as
    /// its last, and its entity is called for.
    Spawn(NewPlaneEvent),
}

/// The planes of a list, each by its view.
pub open spec fn fleet(planes: Seq<Plane>) -> Seq<PlaneView> {
    planes.map_values(|plane: Plane| plane@)
}

/// Some plane of the list carries the identifier.
pub open spec fn known(planes: Seq<PlaneView>, uuid: Seq<char>) -> bool {
    exists|i: int| 0 <= i < planes.len() && (#[trigger] planes[i]).uuid == uuid
}

/// For each plane of the list, whether it carries the identifier.
pub open spec fn marked(planes: Seq<PlaneView>, uuid: Seq<char>) -> Seq<bool> {
    Seq::new(planes.len(), |i: int| planes[i].uuid == uuid)
}

/// No two planes of the list carry the same identifier.
pub open spec fn distinct(planes: Seq<PlaneView>) -> bool {
    forall|i: int, j: int|
        0 <= i < j < planes.len() ==> (#[trigger] planes[i]).uuid != (#[trigger] planes[j]).uuid
}

/// A plane after a record: one that carries the record's identifier takes
/// its coordinates and its flag, any other stays as it is.
pub open spec fn moved(plane: PlaneView, flight: FlightRecord) -> PlaneView {
    if plane.uuid == flight.uuid {
        PlaneView {
            uuid: plane.uuid,
            landed: flight.landed,
            latitude: flight.latitude,
            longitude: flight.longitude,
        }
    } else {
        plane
    }
}

/// The planes of a list after a record: every plane that carries the
/// identifier has moved, not the first one only.
pub open spec fn reconciled(planes: Seq<PlaneView>, flight: FlightRecord) -> Seq<PlaneView> {
    Seq::new(planes.len(), |i: int| moved(planes[i], flight))
}

/// The call for a plane that a record gives rise to.
pub open spec fn event_for(flight: FlightRecord) -> NewPlaneView {
    NewPlaneView { uuid: flight.uuid, latitude: flight.latitude, longitude: flight.longitude }
}

/// The plane that answers a call: in the air, at the place called for.
pub open spec fn spawned(event: NewPlaneView) -> PlaneView {
    PlaneView {
        uuid: event.uuid,
        landed: false,
        latitude: event.latitude,
        longitude: event.longitude,
    }
}

/// The list after a call: the plane called for joins it as its last, unless
/// a plane carries the identifier already; then nothing changes.
pub open spec fn after_call(planes: Seq<PlaneView>, event: NewPlaneView) -> Seq<PlaneView> {
    if known(planes, event.uuid) {
        planes
    } else {
        planes.push(spawned(event))
    }
}

/// The list after a record: the planes that carry its identifier have
/// moved, and where there was none the plane that the record calls for has
/// joined.
pub open spec fn after_flight(planes: Seq<PlaneView>, flight: FlightRecord) -> Seq<PlaneView> {
    if known(planes, flight.uuid) {
        reconciled(planes, flight)
    } else {
        planes.push(spawned(event_for(flight)))
    }
}

/// `update` is the answer to a record that meets the list `planes`: the
/// marks of the planes that carry its identifier where there are any, the
/// call for one new plane where there is none.
pub open spec fn answers(update: Update, planes: Seq<PlaneView>, flight: FlightRecord) -> bool {
    match update {
        Update::Moved(marks) => known(planes, flight.uuid) && marks@ == marked(
            planes,
            flight.uuid,
        ),
        Update::Spawn(event) => !known(planes, flight.uuid) && event@ == event_for(flight),
    }
}

/// The list after the records of a frame, taken in one after the other.
pub open spec fn after_flights(planes: Seq<PlaneView>, flights: Seq<FlightRecord>) -> Seq<
    PlaneView,
>
    decreases flights.len(),
{
    if flights.len() == 0 {
        planes
    } else {
        after_flights(after_flight(planes, flights[0]), flights.drop_first())
    }
}

/// The calls that the records of a frame give rise to, in their order.
pub open spec fn calls(planes: Seq<PlaneView>, flights: Seq<FlightRecord>) -> Seq<NewPlaneView>
    decreases flights.len(),
{
    if flights.len() == 0 {
        Seq::empty()
    } else {
        let rest = calls(after_flight(planes, flights[0]), flights.drop_first());
        if known(planes, flights[0].uuid) {
            rest
        } else {
            seq![event_for(flights[0])] + rest
        }
    }
}

/// A record whose identifier some plane carries creates no plane; one whose
/// identifier none carries creates exactly one, which carries it. Either
/// way the planes that were there keep their identifiers, and the
/// identifier is known afterwards.
pub proof fn lemma_flight_creates_at_most_one(planes: Seq<PlaneView>, flight: FlightRecord)
    ensures
        known(planes, flight.uuid) ==> after_flight(planes, flight).len() == planes.len(),
        !known(planes, flight.uuid) ==> after_flight(planes, flight).len() == planes.len() + 1
            && after_flight(planes, flight).last().uuid == flight.uuid,
        forall|i: int|
            0 <= i < planes.len() ==> (#[trigger] after_flight(planes, flight)[i]).uuid
                == planes[i].uuid,
        known(after_flight(planes, flight), flight.uuid),
{
    let after = after_flight(planes, flight);
    if known(planes, flight.uuid) {
        let i = choose|i: int| 0 <= i < planes.len() && (#[trigger] planes[i]).uuid == flight.uuid;
        assert(after[i].uuid == flight.uuid);
    } else {
        assert(after[planes.len() as int].uuid == flight.uuid);
    }
}

/// Where no two planes carry the same identifier, none do after a record.
pub proof fn lemma_flight_keeps_distinct(planes: Seq<PlaneView>, flight: FlightRecord)
    requires
        distinct(planes),
    ensures
        distinct(after_flight(planes, flight)),
{
    lemma_flight_creates_at_most_one(planes, flight);
    let after = after_flight(planes, flight);
    assert forall|i: int, j: int| 0 <= i < j < after.len() implies (#[trigger] after[i]).uuid != (
    #[trigger] after[j]).uuid by {
        if j < planes.len() {
            assert(planes[i].uuid != planes[j].uuid);
        } else {
            assert(planes[i].uuid != flight.uuid);
        }
    }
}

/// Where no two planes carry the same identifier, none do after a call.
pub proof fn lemma_call_keeps_distinct(planes: Seq<PlaneView>, event: NewPlaneView)
    requires
        distinct(planes),
    ensures
        distinct(after_call(planes, event)),
{
    let after = after_call(planes, event);
    assert forall|i: int, j: int| 0 <= i < j < after.len() implies (#[trigger] after[i]).uuid != (
    #[trigger] after[j]).uuid by {
        if j < planes.len() {
            assert(planes[i].uuid != planes[j].uuid);
        } else {
            assert(planes[i].uuid != event.uuid);
        }
    }
}

/// Whatever records a frame takes in, and however often an identifier
/// comes among them: no call is for an identifier that a plane carried
/// before the frame, no two calls are for the same identifier, and every
/// plane that was there is still there under its identifier. Where no two
/// planes carried the same identifier before the frame, none do after it.
pub proof fn lemma_frame_calls_once(planes: Seq<PlaneView>, flights: Seq<FlightRecord>)
    ensures
        forall|k: int|
            0 <= k < calls(planes, flights).len() ==> !known(
                planes,
                (#[trigger] calls(planes, flights)[k]).uuid,
            ),
        forall|j: int, k: int|
            0 <= j < k < calls(planes, flights).len() ==> (#[trigger] calls(planes, flights)[j]).uuid
                != (#[trigger] calls(planes, flights)[k]).uuid,
        after_flights(planes, flights).len() == planes.len() + calls(planes, flights).len(),
        forall|i: int|
            0 <= i < planes.len() ==> (#[trigger] after_flights(planes, flights)[i]).uuid
                == planes[i].uuid,
        distinct(planes) ==> distinct(after_flights(planes, flights)),
    decreases flights.len(),
{
    if flights.len() > 0 {
        let first = flights[0];
        let next = after_flight(planes, first);
        let rest = calls(next, flights.drop_first());
        let all = calls(planes, flights);
        lemma_flight_creates_at_most_one(planes, first);
        lemma_frame_calls_once(next, flights.drop_first());
        if distinct(planes) {
            lemma_flight_keeps_distinct(planes, first);
        }
        assert forall|k: int| 0 <= k < rest.len() implies !known(planes, (#[trigger] rest[k]).uuid)
            && rest[k].uuid != first.uuid by {
            if known(planes, rest[k].uuid) {
                let i = choose|i: int|
                    0 <= i < planes.len() && (#[trigger] planes[i]).uuid == rest[k].uuid;
                assert(next[i].uuid == rest[k].uuid);
            }
        }
        if !known(planes, first.uuid) {
            assert forall|k: int| 0 <= k < all.len() implies !known(
                planes,
                (#[trigger] all[k]).uuid,
            ) by {
                if k > 0 {
                    assert(all[k] == rest[k - 1]);
                }
            }
            assert forall|j: int, k: int| 0 <= j < k < all.len() implies (#[trigger] all[j]).uuid
                != (#[trigger] all[k]).uuid by {
                assert(all[k] == rest[k - 1]);
                if j > 0 {
                    assert(all[j] == rest[j - 1]);
                }
            }
        }
        assert forall|i: int| 0 <= i < planes.len() implies (#[trigger] after_flights(
            planes,
            flights,
        )[i]).uuid == planes[i].uuid by {
            assert(next[i].uuid == planes[i].uuid);
        }
    }
}

/// The call for a plane `uuid` at longitude `x` and latitude `y`.
pub fn new_plane_event(uuid: String, x: String, y: String) -> (event: NewPlaneEvent)
    ensures
        event@ == (NewPlaneView { uuid: uuid@, latitude: y@, longitude: x@ }),
{
    NewPlaneEvent { uuid: uuid, longitude: x, latitude: y }
}

/// Takes one record into the list. Every plane that carries its identifier
/// moves to its coordinates and takes its flag; the result marks them.
/// Where no plane carries it, one joins the list as its last, in the air
/// at the record's coordinates, and the result is the call for it. A list
/// without two planes of one identifier stays such a list.
pub fn reconcile(planes: &mut Vec<Plane>, flight: &FlightInfo) -> (update: Update)
    ensures
        fleet(final(planes)@) == after_flight(fleet(old(planes)@), flight@),
        answers(update, fleet(old(planes)@), flight@),
        final(planes)@.len() == old(planes)@.len() + if update is Spawn {
            1int
        } else {
            0int
        },
        distinct(fleet(old(planes)@)) ==> distinct(fleet(final(planes)@)),
{
    let ghost before = fleet(planes@);
    let ghost uuid = flight@.uuid;
    let mut marks: Vec<bool> = Vec::new();
    let mut found: bool = false;
    let mut i: usize = 0;
    while i < planes.len()
        invariant
            0 <= i <= planes@.len(),
            planes@.len() == before.len(),
            uuid == flight@.uuid,
            marks@ == marked(before, uuid).take(i as int),
            found == known(before.take(i as int), uuid),
            forall|j: int| 0 <= j < i ==> (#[trigger] planes@[j])@ == moved(before[j], flight@),
            forall|j: int| i <= j < planes@.len() ==> (#[trigger] planes@[j])@ == before[j],
        decreases planes@.len() - i,
    {
        let hit: bool = planes[i].uuid == flight.uuid;
        if hit {
            planes[i].landed = flight.landed;
            planes[i].latitude = flight.latitude.clone();
            planes[i].longitude = flight.longitude.clone();
            found = true;
        }
        marks.push(hit);
        proof {
            assert(marked(before, uuid).take(i + 1) =~= marked(before, uuid).take(i as int).push(
                hit,
            ));
            if hit {
                assert(before.take(i + 1)[i as int].uuid == uuid);
            } else if known(before.take(i + 1), uuid) {
                let k = choose|k: int|
                    0 <= k < i + 1 && (#[trigger] before.take(i + 1)[k]).uuid == uuid;
                assert(before.take(i as int)[k].uuid == uuid);
            } else if found {
                let k = choose|k: int|
                    0 <= k < i && (#[trigger] before.take(i as int)[k]).uuid == uuid;
                assert(before.take(i + 1)[k].uuid == uuid);
            }
        }
        i += 1;
    }
    proof {
        assert(before.take(i as int) =~= before);
        assert(marked(before, uuid).take(i as int) =~= marked(before, uuid));
        assert(fleet(planes@) =~= reconciled(before, flight@));
        if distinct(before) {
            lemma_flight_keeps_distinct(before, flight@);
        }
    }
    if found {
        Update::Moved(marks)
    } else {
        proof {
            assert forall|j: int| 0 <= j < before.len() implies moved(before[j], flight@)
                == before[j] by {
                assert(before[j].uuid != uuid);
            }
            assert(fleet(planes@) =~= before);
        }
        planes.push(
            Plane {
                uuid: flight.uuid.clone(),
                landed: false,
                latitude: flight.latitude.clone(),
                longitude: flight.longitude.clone(),
            },
        );
        assert(fleet(planes@) =~= before.push(spawned(event_for(flight@))));
        Update::Spawn(
            new_plane_event(
                flight.uuid.clone(),
                flight.longitude.clone(),
                flight.latitude.clone(),
            ),
        )
    }
}

/// One step of a frame's polling. `handled` counts the records that this
/// frame has taken in and `flight` is what the feed gave when asked once
/// more. Polling ends, with nothing changed, when the feed gave nothing or
/// the frame has had its share: what the feed gave is then dropped.
/// Otherwise the record is taken into the list, as `reconcile` does.
pub fn update_planes(handled: &mut usize, planes: &mut Vec<Plane>, flight: Option<&FlightInfo>) -> (update:
    Option<Update>)
    ensures
        match update {
            None => {
                &&& *old(handled) >= FLIGHTS_PER_FRAME || flight is None
                &&& *final(handled) == *old(handled)
                &&& *final(planes) == *old(planes)
            },
            Some(update) => {
                &&& *old(handled) < FLIGHTS_PER_FRAME
                &&& flight is Some
                &&& *final(handled) == *old(handled) + 1
                &&& fleet(final(planes)@) == after_flight(fleet(old(planes)@), flight->0@)
                &&& answers(update, fleet(old(planes)@), flight->0@)
                &&& final(planes)@.len() == old(planes)@.len() + if update is Spawn {
                    1int
                } else {
                    0int
                }
            },
        },
        distinct(fleet(old(planes)@)) ==> distinct(fleet(final(planes)@)),
{
    if *handled >= FLIGHTS_PER_FRAME {
        return None;
    }
    match flight {
        None => None,
        Some(flight) => {
            let update = reconcile(planes, flight);
            *handled = *handled + 1;
            Some(update)
        },
    }
}

/// Answers a call. Where no plane carries the identifier called for, the
/// plane joins the list as its last, in the air, and the result is `true`.
/// Where one does, the call comes too late: nothing changes, and the
/// result is `false`. A list without two planes of one identifier stays
/// such a list.
pub fn spawn_plane(planes: &mut Vec<Plane>, event: &NewPlaneEvent) -> (joined: bool)
    ensures
        joined == !known(fleet(old(planes)@), event@.uuid),
        fleet(final(planes)@) == after_call(fleet(old(planes)@), event@),
        distinct(fleet(old(planes)@)) ==> distinct(fleet(final(planes)@)),
{
    let ghost before = fleet(planes@);
    let mut i: usize = 0;
    while i < planes.len()
        invariant
            0 <= i <= planes@.len(),
            before == fleet(planes@),
            !known(before.take(i as int), event@.uuid),
        decreases planes@.len() - i,
    {
        if planes[i].uuid == event.uuid {
            assert(before[i as int].uuid == event@.uuid);
            return false;
        }
        proof {
            if known(before.take(i + 1), event@.uuid) {
                let k = choose|k: int|
                    0 <= k < i + 1 && (#[trigger] before.take(i + 1)[k]).uuid == event@.uuid;
                assert(before.take(i as int)[k].uuid == event@.uuid);
            }
        }
        i += 1;
    }
    proof {
        assert(before.take(i as int) =~= before);
        if distinct(before) {
            lemma_call_keeps_distinct(before, event@);
        }
    }
    planes.push(
        Plane {
            uuid: event.uuid.clone(),
            landed: false,
            latitude: event.latitude.clone(),
            longitude: event.longitude.clone(),
        },
    );
    assert(fleet(planes@) =~= before.push(spawned(event@)));
    true
}

} // verus!
