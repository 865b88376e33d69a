//! Rooms, reservations, query windows and the rule that decides whether a
//! reservation blocks a window.

use crate::text::{first_position, lemma_first_position_is};
use vstd::prelude::*;

verus! {

/// A booked interval `[start, end)` in seconds since local midnight.
#[derive(Clone, Copy, Debug, PartialEq, Eq, Structural)]
pub struct Reservation {
    pub start: u32,
    pub end: u32,
}

/// The interval a caller asks about, in seconds since local midnight.
///
/// Nothing requires `end > start`: a window that runs backwards is judged by
/// the same comparisons as any other.
#[derive(Clone, Copy, Debug, PartialEq, Eq, Structural)]
pub struct QueryWindow {
    pub start: u32,
    pub end: u32,
}

impl Reservation {
    /// A reservation is proper when it ends after it starts.
    pub open spec fn is_proper(self) -> bool {
        self.start < self.end
    }

    /// The blocking rule: the window starts strictly inside the reservation,
    /// or ends strictly inside it, or strictly contains it.
    pub open spec fn blocks(self, window: QueryWindow) -> bool {
        ||| self.start < window.start < self.end
        ||| self.start < window.end < self.end
        ||| window.start < self.start && self.end < window.end
    }

    pub fn new(start: u32, end: u32) -> (reservation: Reservation)
        ensures
            reservation.start == start,
            reservation.end == end,
    {
        Reservation { start, end }
    }

    /// Whether this reservation blocks `window`.
    pub fn conflicts_with(&self, window: &QueryWindow) -> (blocked: bool)
        ensures
            blocked == self.blocks(*window),
    {
        (window.start > self.start && window.start < self.end)
            || (window.end > self.start && window.end < self.end)
            || (window.start < self.start && window.end > self.end)
    }
}

impl QueryWindow {
    /// A window is proper when it ends after it starts.
    pub open spec fn is_proper(self) -> bool {
        self.start < self.end
    }

    pub fn new(start: u32, end: u32) -> (window: QueryWindow)
        ensures
            window.start == start,
            window.end == end,
    {
        QueryWindow { start, end }
    }
}

/// A meeting room with the reservations booked for it.
#[derive(Clone, Debug, PartialEq, Eq)]
pub struct Room {
    pub name: String,
    pub floor: i32,
    pub size: u32,
    pub reservations: Vec<Reservation>,
}

/// What a room is, as plain mathematical values.
pub struct RoomModel {
    pub name: Seq<char>,
    pub floor: int,
    pub size: nat,
    pub reservations: Seq<Reservation>,
}

impl View for Room {
    type V = RoomModel;

    open spec fn view(&self) -> RoomModel {
        RoomModel {
            name: self.name@,
            floor: self.floor as int,
            size: self.size as nat,
            reservations: self.reservations@,
        }
    }
}

impl RoomModel {
    /// A room is free for a window when none of its reservations blocks it.
    pub open spec fn is_free(self, window: QueryWindow) -> bool {
        forall|i: int|
            0 <= i < self.reservations.len() ==> !(#[trigger] self.reservations[i]).blocks(window)
    }

    /// The room with one more reservation, booked last.
    pub open spec fn with_reservation(self, reservation: Reservation) -> RoomModel {
        RoomModel {
            name: self.name,
            floor: self.floor,
            size: self.size,
            reservations: self.reservations.push(reservation),
        }
    }
}

/// The models of a sequence of rooms, in order.
pub open spec fn models_of(rooms: Seq<Room>) -> Seq<RoomModel> {
    rooms.map_values(|room: Room| room@)
}

/// The models of a sequence of borrowed rooms, in order.
pub open spec fn models_of_borrowed(rooms: Seq<&Room>) -> Seq<RoomModel> {
    rooms.map_values(|room: &Room| room@)
}

/// The names of a sequence of rooms, in order.
pub open spec fn names_of(rooms: Seq<RoomModel>) -> Seq<Seq<char>> {
    rooms.map_values(|room: RoomModel| room.name)
}

/// No two rooms share a name.
pub open spec fn distinct_names(rooms: Seq<RoomModel>) -> bool {
    forall|i: int, j: int|
        0 <= i < j < rooms.len() ==> (#[trigger] rooms[i]).name != (#[trigger] rooms[j]).name
}

/// Where the room called `name` stands: the index of the first room of that
/// name, or the number of rooms where none has it.
pub open spec fn position_of(rooms: Seq<RoomModel>, name: Seq<char>) -> int {
    first_position(names_of(rooms), name)
}

/// The rooms that are free for `window`, in their order.
pub open spec fn free_among(rooms: Seq<RoomModel>, window: QueryWindow) -> Seq<RoomModel> {
    rooms.filter(|room: RoomModel| room.is_free(window))
}

/// The reservation as seen when time runs backwards from the last second
/// that a `u32` can hold: its end becomes its start.
pub open spec fn mirrored_reservation(r: Reservation) -> Reservation {
    Reservation { start: (u32::MAX - r.end) as u32, end: (u32::MAX - r.start) as u32 }
}

/// The window as seen when time runs backwards.
pub open spec fn mirrored_window(w: QueryWindow) -> QueryWindow {
    QueryWindow { start: (u32::MAX - w.end) as u32, end: (u32::MAX - w.start) as u32 }
}

/// The rule treats the two ends alike: a reservation blocks a window exactly
/// when, with time running backwards, it still does.
pub proof fn lemma_blocks_mirrored(r: Reservation, w: QueryWindow)
    ensures
        mirrored_reservation(r).blocks(mirrored_window(w)) == r.blocks(w),
{
}

/// Where neither runs backwards, a window that only touches a reservation,
/// or lies apart from it, is not blocked by it.
pub proof fn lemma_touching_is_free(r: Reservation, w: QueryWindow)
    requires
        r.start <= r.end,
        w.start <= w.end,
        w.end <= r.start || r.end <= w.start,
    ensures
        !r.blocks(w),
{
}

/// Between a proper reservation and a proper window the rule finds every
/// overlap but one kind: it misses a window that covers the reservation and
/// shares an end with it. It never reports a window that does not overlap.
pub proof fn lemma_blocks_exactly(r: Reservation, w: QueryWindow)
    requires
        r.is_proper(),
        w.is_proper(),
    ensures
        r.blocks(w) <==> {
            &&& w.start < r.end && r.start < w.end
            &&& !(w.start <= r.start && r.end <= w.end && (w.start == r.start || w.end == r.end))
        },
{
}

/// A room without reservations is free for every window.
pub proof fn lemma_unbooked_is_free(room: RoomModel, w: QueryWindow)
    requires
        room.reservations.len() == 0,
    ensures
        room.is_free(w),
{
}

/// One more reservation leaves a room free exactly when the room was free
/// and the new reservation does not block the window.
pub proof fn lemma_free_with_reservation(room: RoomModel, r: Reservation, w: QueryWindow)
    ensures
        room.with_reservation(r).is_free(w) <==> room.is_free(w) && !r.blocks(w),
{
    let more = room.with_reservation(r);
    if room.is_free(w) && !r.blocks(w) {
        assert forall|i: int| 0 <= i < more.reservations.len() implies !(
        #[trigger] more.reservations[i]).blocks(w) by {
            if i < room.reservations.len() {
                assert(more.reservations[i] == room.reservations[i]);
            }
        }
    }
    if more.is_free(w) {
        assert(more.reservations[room.reservations.len() as int] == r);
        assert forall|i: int| 0 <= i < room.reservations.len() implies !(
        #[trigger] room.reservations[i]).blocks(w) by {
            assert(more.reservations[i] == room.reservations[i]);
        }
    }
}

/// Every room among the free ones is free, and is one of the rooms.
pub proof fn lemma_free_among_sound(rooms: Seq<RoomModel>, w: QueryWindow, i: int)
    requires
        0 <= i < free_among(rooms, w).len(),
    ensures
        free_among(rooms, w)[i].is_free(w),
        rooms.contains(free_among(rooms, w)[i]),
{
    let accepts = |room: RoomModel| room.is_free(w);
    let kept = rooms.filter(accepts);
    rooms.lemma_filter_pred(accepts, i);
    assert(kept.contains(kept[i]));
    rooms.lemma_filter_contains_rev(accepts, kept[i]);
}

/// Every free room is among the free ones.
pub proof fn lemma_free_among_complete(rooms: Seq<RoomModel>, w: QueryWindow, i: int)
    requires
        0 <= i < rooms.len(),
        rooms[i].is_free(w),
    ensures
        free_among(rooms, w).contains(rooms[i]),
{
    let accepts = |room: RoomModel| room.is_free(w);
    assert(accepts(rooms[i]));
    rooms.lemma_filter_contains(accepts, i);
}

/// Selecting the free rooms from the free rooms changes nothing.
pub proof fn lemma_free_among_idempotent(rooms: Seq<RoomModel>, w: QueryWindow)
    ensures
        free_among(free_among(rooms, w), w) == free_among(rooms, w),
    decreases rooms.len(),
{
    let accepts = |room: RoomModel| room.is_free(w);
    reveal(Seq::filter);
    if rooms.len() > 0 {
        let head = rooms.drop_last();
        lemma_free_among_idempotent(head, w);
        if accepts(rooms.last()) {
            let kept = head.filter(accepts);
            assert(kept.push(rooms.last()).drop_last() =~= kept);
            assert(kept.push(rooms.last()).last() == rooms.last());
        }
    }
}

/// The free rooms are a function of the rooms and the window: two answers to
/// the same question hold the same rooms in the same order.
pub proof fn lemma_free_rooms_deterministic(
    rooms: Seq<Room>,
    w: QueryWindow,
    first: Seq<&Room>,
    second: Seq<&Room>,
)
    requires
        models_of_borrowed(first) == free_among(models_of(rooms), w),
        models_of_borrowed(second) == free_among(models_of(rooms), w),
    ensures
        models_of_borrowed(first) == models_of_borrowed(second),
{
}

impl Room {
    /// A room without reservations.
    pub fn new(name: String, floor: i32, size: u32) -> (room: Room)
        ensures
            room@ == (RoomModel {
                name: name@,
                floor: floor as int,
                size: size as nat,
                reservations: Seq::empty(),
            }),
    {
        Room { name, floor, size, reservations: Vec::new() }
    }

    /// Books one more reservation for this room.
    pub fn reserve(&mut self, reservation: Reservation)
        ensures
            final(self)@ == old(self)@.with_reservation(reservation),
    {
        self.reservations.push(reservation);
    }

    /// Whether no reservation of this room blocks `window`. The scan stops at
    /// the first reservation that does.
    pub fn is_free(&self, window: &QueryWindow) -> (free: bool)
        ensures
            free == self@.is_free(*window),
    {
        let mut i: usize = 0;
        while i < self.reservations.len()
            invariant
                0 <= i <= self.reservations.len(),
                forall|j: int| 0 <= j < i ==> !(#[trigger] self.reservations@[j]).blocks(*window),
            decreases self.reservations.len() - i,
        {
            if self.reservations[i].conflicts_with(window) {
                assert(self@.reservations[i as int].blocks(*window));
                return false;
            }
            i += 1;
        }
        true
    }
}

/// The index of the room called `name`, if there is one.
pub fn find_room(rooms: &Vec<Room>, name: &str) -> (at: Option<usize>)
    ensures
        at is Some <==> position_of(models_of(rooms@), name@) < rooms.len(),
        at matches Some(i) ==> i == position_of(models_of(rooms@), name@),
{
    let ghost names = names_of(models_of(rooms@));
    let wanted = name.to_owned();
    let mut i: usize = 0;
    while i < rooms.len()
        invariant
            0 <= i <= rooms.len(),
            names == names_of(models_of(rooms@)),
            wanted@ == name@,
            forall|j: int| 0 <= j < i ==> names[j] != name@,
        decreases rooms.len() - i,
    {
        if rooms[i].name == wanted {
            proof {
                lemma_first_position_is(names, name@, i as int);
            }
            return Some(i);
        }
        i += 1;
    }
    proof {
        lemma_first_position_is(names, name@, i as int);
    }
    None
}

/// The rooms that are free for `window`, in the order in which `rooms` holds
/// them.
pub fn free_rooms<'a>(rooms: &'a Vec<Room>, window: &QueryWindow) -> (free: Vec<&'a Room>)
    ensures
        models_of_borrowed(free@) == free_among(models_of(rooms@), *window),
{
    let ghost accepts = |room: RoomModel| room.is_free(*window);
    let mut free: Vec<&Room> = Vec::new();
    let mut i: usize = 0;
    proof {
        reveal(Seq::filter);
        assert(models_of(rooms@).take(0) =~= Seq::<RoomModel>::empty());
        assert(models_of_borrowed(free@) =~= Seq::<RoomModel>::empty());
    }
    while i < rooms.len()
        invariant
            0 <= i <= rooms.len(),
            accepts == |room: RoomModel| room.is_free(*window),
            models_of_borrowed(free@) == models_of(rooms@).take(i as int).filter(accepts),
        decreases rooms.len() - i,
    {
        let room = &rooms[i];
        let ghost before = free@;
        proof {
            reveal(Seq::filter);
            let prefix = models_of(rooms@).take(i + 1);
            assert(prefix.drop_last() =~= models_of(rooms@).take(i as int));
            assert(prefix.last() == room@);
        }
        if room.is_free(window) {
            free.push(room);
            assert(models_of_borrowed(free@) =~= models_of_borrowed(before).push(room@));
        }
        i += 1;
    }
    assert(models_of(rooms@).take(i as int) =~= models_of(rooms@));
    free
}

} // verus!
