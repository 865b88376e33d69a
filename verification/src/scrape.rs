//! From the timeline page to rooms with their reservations.
//!
//! The page lists the rooms as rows of a table and the reservations as
//! elements that name their room, give their start in seconds since
//! midnight, and show their length as the width of the element. The raw
//! texts come from `markup`; this module turns them into `Room`s, or says
//! which field of the page was at fault.

use crate::availability::{
    distinct_names, find_room, models_of, names_of, position_of, Reservation, Room, RoomModel,
};
use crate::decimal::{
    clamped_u32, float_literal, lemma_sum_truncated, lemma_whole_part, pow10, read_number,
    sum_truncated, truncated, DecimalModel, Number, NumberModel,
};
use crate::duration::{decode_duration_seconds, duration_seconds};
use crate::markup::{
    reservation_attributes, room_cells, select_reservation_attributes, select_room_cells,
    RawReservation, RawReservationModel, RawRoom, RawRoomModel, FLOOR_CELL, MAX_DOCUMENT_BYTES,
    NAME_CELL, RESERVED, ROOM_NAME_KEY, ROOM_ROWS, SECONDS_KEY, SIZE_CELL, SORT_KEY, STYLE_KEY,
};
use crate::text::{
    char_index_at_byte, chars_of, find_byte_offset, find_marker, first_occurrence,
    lemma_first_position, read_i32, read_u32, signed_literal, unsigned_literal,
};
use vstd::prelude::*;
use vstd::slice::*;

verus! {

broadcast use vstd::slice::group_slice_axioms;

/// What follows the width in a reservation's style.
pub const WIDTH_MARKER: &'static str = "px;";

/// The number of bytes, in UTF-8, in front of the width in a reservation's
/// style.
pub const WIDTH_OFFSET: usize = 7;

/// A field of the page.
#[derive(Clone, Copy, Debug, PartialEq, Eq, Structural)]
pub enum Field {
    Name,
    Floor,
    Size,
    RoomName,
    Seconds,
    Width,
}

/// Why a page could not be read.
#[derive(Clone, Copy, Debug, PartialEq, Eq, Structural)]
pub enum ScrapeError {
    /// The document is larger than `MAX_DOCUMENT_BYTES`.
    DocumentTooLarge,
    /// The markup reader rejects one of the selectors.
    Selector,
    /// A row of the room table has no cell for the field.
    MissingCell(Field),
    /// The element that carries the field lacks the field's attribute.
    MissingAttribute(Field),
    /// A reservation's style has no width: the marker that ends the width is
    /// absent, or stands in front of the place where the width begins, or no
    /// character begins at that place.
    MissingWidth,
    /// The field's text is not a number of the field's kind.
    InvalidNumber(Field),
}

/// The room that a row of the table describes. The three cells are looked
/// for first, then the name is read, then the floor, then the size.
pub open spec fn room_of(raw: RawRoomModel) -> Result<RoomModel, ScrapeError> {
    if raw.name is None {
        Err(ScrapeError::MissingCell(Field::Name))
    } else if raw.floor is None {
        Err(ScrapeError::MissingCell(Field::Floor))
    } else if raw.size is None {
        Err(ScrapeError::MissingCell(Field::Size))
    } else if raw.name->0 is None {
        Err(ScrapeError::MissingAttribute(Field::Name))
    } else if raw.floor->0 is None {
        Err(ScrapeError::MissingAttribute(Field::Floor))
    } else if signed_literal(raw.floor->0->0) is None {
        Err(ScrapeError::InvalidNumber(Field::Floor))
    } else if raw.size->0 is None {
        Err(ScrapeError::MissingAttribute(Field::Size))
    } else if unsigned_literal(raw.size->0->0, u32::MAX as nat) is None {
        Err(ScrapeError::InvalidNumber(Field::Size))
    } else {
        Ok(
            RoomModel {
                name: raw.name->0->0,
                floor: signed_literal(raw.floor->0->0)->0,
                size: unsigned_literal(raw.size->0->0, u32::MAX as nat)->0,
                reservations: Seq::empty(),
            },
        )
    }
}

/// The rooms with `room` among them: in the place of the room of the same
/// name where there is one, else behind all others.
pub open spec fn with_room(rooms: Seq<RoomModel>, room: RoomModel) -> Seq<RoomModel> {
    let at = position_of(rooms, room.name);
    if at < rooms.len() {
        rooms.update(at, room)
    } else {
        rooms.push(room)
    }
}

/// The rooms that the rows of the table describe, or the fault of the first
/// row that has one.
pub open spec fn rooms_of(raws: Seq<RawRoomModel>) -> Result<Seq<RoomModel>, ScrapeError>
    decreases raws.len(),
{
    if raws.len() == 0 {
        Ok(Seq::empty())
    } else {
        match rooms_of(raws.drop_last()) {
            Err(fault) => Err(fault),
            Ok(rooms) => match room_of(raws.last()) {
                Err(fault) => Err(fault),
                Ok(room) => Ok(with_room(rooms, room)),
            },
        }
    }
}

/// The text of the width in a reservation's style: what stands between the
/// byte at the fixed offset and the first marker. There is none where the
/// style holds no marker, where the marker begins in front of the offset, or
/// where no character begins at the offset.
pub open spec fn width_text(style: Seq<char>) -> Option<Seq<char>> {
    match first_occurrence(style, WIDTH_MARKER@) {
        Some(end) => {
            let begin = char_index_at_byte(style, WIDTH_OFFSET as int);
            if begin <= end {
                Some(style.subrange(begin, end))
            } else {
                None
            }
        },
        None => None,
    }
}

/// The length of a reservation in seconds, as far as its width tells it.
pub enum Span {
    NotANumber,
    Infinite { negative: bool },
    Finite(int),
}

/// The length that a width stands for. A width that is no number gives a
/// length that is none, an infinite width an infinite length.
pub open spec fn span_of(width: NumberModel) -> Span {
    match width {
        NumberModel::NotANumber => Span::NotANumber,
        NumberModel::Infinite { negative } => Span::Infinite { negative },
        NumberModel::Finite(decimal) => Span::Finite(duration_seconds(decimal)),
    }
}

/// The end of the range of `u32` that an infinity is brought to.
pub open spec fn edge_of(negative: bool) -> int {
    if negative {
        0
    } else {
        u32::MAX as int
    }
}

/// The second at which a reservation starts: the start without what stands
/// behind its point, brought into the range of `u32`; zero for a start that
/// is no number.
pub open spec fn start_of(seconds: NumberModel) -> int {
    match seconds {
        NumberModel::NotANumber => 0,
        NumberModel::Infinite { negative } => edge_of(negative),
        NumberModel::Finite(decimal) => clamped_u32(
            truncated(decimal.numerator(), pow10(decimal.scale()) as int),
        ),
    }
}

/// The second at which a reservation ends: start plus length, without what
/// stands behind the point of the sum, brought into the range of `u32`. The
/// sum of two opposite infinities is no number, and what is no number gives
/// zero.
pub open spec fn end_of(seconds: NumberModel, span: Span) -> int {
    match seconds {
        NumberModel::NotANumber => 0,
        NumberModel::Infinite { negative } => match span {
            Span::NotANumber => 0,
            Span::Infinite { negative: other } => if negative == other {
                edge_of(negative)
            } else {
                0
            },
            Span::Finite(_) => edge_of(negative),
        },
        NumberModel::Finite(decimal) => match span {
            Span::NotANumber => 0,
            Span::Infinite { negative } => edge_of(negative),
            Span::Finite(length) => clamped_u32(sum_truncated(decimal, length)),
        },
    }
}

/// The reservation that starts `seconds` after midnight and is drawn `width`
/// pixels wide.
pub open spec fn reservation_of(seconds: NumberModel, width: NumberModel) -> Reservation {
    Reservation {
        start: start_of(seconds) as u32,
        end: end_of(seconds, span_of(width)) as u32,
    }
}

/// The room name and the reservation that a reservation element describes.
/// The room name is read first, then the start, then the width.
pub open spec fn booking_of(raw: RawReservationModel) -> Result<
    (Seq<char>, Reservation),
    ScrapeError,
> {
    if raw.room_name is None {
        Err(ScrapeError::MissingAttribute(Field::RoomName))
    } else if raw.seconds is None {
        Err(ScrapeError::MissingAttribute(Field::Seconds))
    } else if float_literal(raw.seconds->0) is None {
        Err(ScrapeError::InvalidNumber(Field::Seconds))
    } else if raw.style is None {
        Err(ScrapeError::MissingAttribute(Field::Width))
    } else if width_text(raw.style->0) is None {
        Err(ScrapeError::MissingWidth)
    } else if float_literal(width_text(raw.style->0)->0) is None {
        Err(ScrapeError::InvalidNumber(Field::Width))
    } else {
        Ok(
            (
                raw.room_name->0,
                reservation_of(
                    float_literal(raw.seconds->0)->0,
                    float_literal(width_text(raw.style->0)->0)->0,
                ),
            ),
        )
    }
}

/// The rooms after `reservation` is booked for the room called `name`; the
/// rooms unchanged where no room has that name.
pub open spec fn booked(rooms: Seq<RoomModel>, name: Seq<char>, reservation: Reservation) -> Seq<
    RoomModel,
> {
    let at = position_of(rooms, name);
    if at < rooms.len() {
        rooms.update(at, rooms[at].with_reservation(reservation))
    } else {
        rooms
    }
}

/// The rooms after all reservation elements are booked in order, or the
/// fault of the first element that has one.
pub open spec fn with_bookings(rooms: Seq<RoomModel>, raws: Seq<RawReservationModel>) -> Result<
    Seq<RoomModel>,
    ScrapeError,
>
    decreases raws.len(),
{
    if raws.len() == 0 {
        Ok(rooms)
    } else {
        match with_bookings(rooms, raws.drop_last()) {
            Err(fault) => Err(fault),
            Ok(sofar) => match booking_of(raws.last()) {
                Err(fault) => Err(fault),
                Ok(booking) => Ok(booked(sofar, booking.0, booking.1)),
            },
        }
    }
}

/// The rooms of a page with their reservations, from the raw texts of the
/// page. A fault in the room table comes before any fault in a reservation.
pub open spec fn timeline_of(
    raw_rooms: Seq<RawRoomModel>,
    raw_reservations: Seq<RawReservationModel>,
) -> Result<Seq<RoomModel>, ScrapeError> {
    match rooms_of(raw_rooms) {
        Err(fault) => Err(fault),
        Ok(rooms) => with_bookings(rooms, raw_reservations),
    }
}

/// What reading a page gave, with the rooms as models.
pub open spec fn outcome_of(result: Result<Vec<Room>, ScrapeError>) -> Result<
    Seq<RoomModel>,
    ScrapeError,
> {
    match result {
        Ok(rooms) => Ok(models_of(rooms@)),
        Err(fault) => Err(fault),
    }
}

/// What the page `html` holds: the rooms with their reservations, or the
/// first fault.
pub open spec fn page_of(html: &str) -> Result<Seq<RoomModel>, ScrapeError> {
    if html.len() > MAX_DOCUMENT_BYTES {
        Err(ScrapeError::DocumentTooLarge)
    } else {
        match room_cells(html@, ROOM_ROWS@, NAME_CELL@, FLOOR_CELL@, SIZE_CELL@, SORT_KEY@) {
            None => Err(ScrapeError::Selector),
            Some(raw_rooms) => match rooms_of(raw_rooms) {
                Err(fault) => Err(fault),
                Ok(rooms) => match reservation_attributes(
                    html@,
                    RESERVED@,
                    ROOM_NAME_KEY@,
                    SECONDS_KEY@,
                    STYLE_KEY@,
                ) {
                    None => Err(ScrapeError::Selector),
                    Some(raw_reservations) => with_bookings(rooms, raw_reservations),
                },
            },
        }
    }
}

/// A reservation whose start is finite and not negative, whose length is at
/// least one second, and whose end lies within the range of `u32`, ends its
/// decoded length after the whole second of its start, and so is proper.
pub proof fn lemma_reservation_spans_duration(seconds: DecimalModel, width: DecimalModel)
    requires
        !seconds.negative,
        duration_seconds(width) > 0,
        seconds.whole + duration_seconds(width) <= u32::MAX,
    ensures
        ({
            let r = reservation_of(NumberModel::Finite(seconds), NumberModel::Finite(width));
            &&& r.start == seconds.whole
            &&& r.end == r.start + duration_seconds(width)
            &&& r.is_proper()
        }),
{
    lemma_whole_part(seconds);
    lemma_sum_truncated(seconds, duration_seconds(width));
}

/// Putting a room among rooms of distinct names leaves the names distinct.
pub proof fn lemma_with_room_distinct(rooms: Seq<RoomModel>, room: RoomModel)
    requires
        distinct_names(rooms),
    ensures
        distinct_names(with_room(rooms, room)),
{
    let names = names_of(rooms);
    lemma_first_position(names, room.name);
    let at = position_of(rooms, room.name);
    let after = with_room(rooms, room);
    assert forall|i: int, j: int| 0 <= i < j < after.len() implies (#[trigger] after[i]).name != (
    #[trigger] after[j]).name by {
        if at < rooms.len() {
            assert(names[at] == room.name);
            assert(rooms[at].name == room.name);
            assert(after[i].name == rooms[i].name);
            assert(after[j].name == rooms[j].name);
        } else {
            if j == rooms.len() {
                assert(names[i] != room.name);
            }
        }
    }
}

/// Booking a reservation changes no name.
pub proof fn lemma_booked_names(rooms: Seq<RoomModel>, name: Seq<char>, reservation: Reservation)
    ensures
        names_of(booked(rooms, name, reservation)) == names_of(rooms),
{
    lemma_first_position(names_of(rooms), name);
    assert(names_of(booked(rooms, name, reservation)) =~= names_of(rooms));
}

/// The rooms that a room table describes have distinct names.
pub proof fn lemma_rooms_of_distinct(raws: Seq<RawRoomModel>)
    ensures
        rooms_of(raws) matches Ok(rooms) ==> distinct_names(rooms),
    decreases raws.len(),
{
    if raws.len() > 0 {
        lemma_rooms_of_distinct(raws.drop_last());
        if let Ok(rooms) = rooms_of(raws.drop_last()) {
            if let Ok(room) = room_of(raws.last()) {
                lemma_with_room_distinct(rooms, room);
            }
        }
    }
}

/// Booking reservation elements keeps the names of the rooms, and so their
/// distinctness.
pub proof fn lemma_with_bookings_names(rooms: Seq<RoomModel>, raws: Seq<RawReservationModel>)
    ensures
        with_bookings(rooms, raws) matches Ok(after) ==> names_of(after) == names_of(rooms),
    decreases raws.len(),
{
    if raws.len() > 0 {
        lemma_with_bookings_names(rooms, raws.drop_last());
        if let Ok(sofar) = with_bookings(rooms, raws.drop_last()) {
            if let Ok(booking) = booking_of(raws.last()) {
                lemma_booked_names(sofar, booking.0, booking.1);
            }
        }
    }
}

/// Once a row is at fault, more rows do not change the fault.
pub proof fn lemma_rooms_of_fault_stays(raws: Seq<RawRoomModel>, n: int)
    requires
        0 <= n <= raws.len(),
        rooms_of(raws.take(n)) is Err,
    ensures
        rooms_of(raws) == rooms_of(raws.take(n)),
    decreases raws.len(),
{
    if n == raws.len() {
        assert(raws.take(n) =~= raws);
    } else {
        assert(raws.drop_last().take(n) =~= raws.take(n));
        lemma_rooms_of_fault_stays(raws.drop_last(), n);
    }
}

/// Once a reservation element is at fault, more elements do not change the
/// fault.
pub proof fn lemma_with_bookings_fault_stays(
    rooms: Seq<RoomModel>,
    raws: Seq<RawReservationModel>,
    n: int,
)
    requires
        0 <= n <= raws.len(),
        with_bookings(rooms, raws.take(n)) is Err,
    ensures
        with_bookings(rooms, raws) == with_bookings(rooms, raws.take(n)),
    decreases raws.len(),
{
    if n == raws.len() {
        assert(raws.take(n) =~= raws);
    } else {
        assert(raws.drop_last().take(n) =~= raws.take(n));
        lemma_with_bookings_fault_stays(rooms, raws.drop_last(), n);
    }
}

/// Reads one row of the room table.
pub fn read_room(raw: &RawRoom) -> (result: Result<Room, ScrapeError>)
    ensures
        match result {
            Ok(room) => room_of(raw.deep_view()) == Ok::<RoomModel, ScrapeError>(room@),
            Err(fault) => room_of(raw.deep_view()) == Err::<RoomModel, ScrapeError>(fault),
        },
{
    let name_cell = match &raw.name {
        Some(cell) => cell,
        None => {
            return Err(ScrapeError::MissingCell(Field::Name));
        },
    };
    let floor_cell = match &raw.floor {
        Some(cell) => cell,
        None => {
            return Err(ScrapeError::MissingCell(Field::Floor));
        },
    };
    let size_cell = match &raw.size {
        Some(cell) => cell,
        None => {
            return Err(ScrapeError::MissingCell(Field::Size));
        },
    };
    let name = match name_cell {
        Some(text) => text,
        None => {
            return Err(ScrapeError::MissingAttribute(Field::Name));
        },
    };
    let floor_text = match floor_cell {
        Some(text) => chars_of(text.as_str()),
        None => {
            return Err(ScrapeError::MissingAttribute(Field::Floor));
        },
    };
    let floor = match read_i32(floor_text.as_slice()) {
        Some(floor) => floor,
        None => {
            return Err(ScrapeError::InvalidNumber(Field::Floor));
        },
    };
    let size_text = match size_cell {
        Some(text) => chars_of(text.as_str()),
        None => {
            return Err(ScrapeError::MissingAttribute(Field::Size));
        },
    };
    let size = match read_u32(size_text.as_slice()) {
        Some(size) => size,
        None => {
            return Err(ScrapeError::InvalidNumber(Field::Size));
        },
    };
    Ok(Room::new(name.clone(), floor, size))
}

/// Puts `room` among `rooms`: in the place of the room of the same name
/// where there is one, else behind all others.
pub fn put_room(rooms: &mut Vec<Room>, room: Room)
    ensures
        models_of(final(rooms)@) == with_room(models_of(old(rooms)@), room@),
{
    match find_room(rooms, room.name.as_str()) {
        Some(at) => {
            rooms[at] = room;
            assert(models_of(rooms@) =~= with_room(models_of(old(rooms)@), room@));
        },
        None => {
            rooms.push(room);
            assert(models_of(rooms@) =~= with_room(models_of(old(rooms)@), room@));
        },
    }
}

/// Reads the rows of the room table into rooms without reservations.
pub fn collect_rooms(raws: &Vec<RawRoom>) -> (result: Result<Vec<Room>, ScrapeError>)
    ensures
        outcome_of(result) == rooms_of(raws.deep_view()),
        result matches Ok(rooms) ==> distinct_names(models_of(rooms@)),
{
    let mut rooms: Vec<Room> = Vec::new();
    let mut i: usize = 0;
    assert(models_of(rooms@) =~= Seq::<RoomModel>::empty());
    assert(raws.deep_view().take(0) =~= Seq::<RawRoomModel>::empty());
    while i < raws.len()
        invariant
            0 <= i <= raws.len(),
            rooms_of(raws.deep_view().take(i as int)) == Ok::<Seq<RoomModel>, ScrapeError>(
                models_of(rooms@),
            ),
        decreases raws.len() - i,
    {
        proof {
            let prefix = raws.deep_view().take(i + 1);
            assert(prefix.drop_last() =~= raws.deep_view().take(i as int));
            assert(prefix.last() == raws[i as int].deep_view());
        }
        match read_room(&raws[i]) {
            Ok(room) => {
                put_room(&mut rooms, room);
            },
            Err(fault) => {
                proof {
                    lemma_rooms_of_fault_stays(raws.deep_view(), i + 1);
                }
                return Err(fault);
            },
        }
        i += 1;
    }
    proof {
        assert(raws.deep_view().take(i as int) =~= raws.deep_view());
        lemma_rooms_of_distinct(raws.deep_view());
    }
    Ok(rooms)
}

/// The reservation that starts at `seconds` after midnight and is drawn
/// `width` pixels wide.
pub fn reservation_from(seconds: &Number, width: &Number) -> (reservation: Reservation)
    ensures
        reservation == reservation_of(seconds@, width@),
{
    let start: u32 = match seconds {
        Number::NotANumber => 0,
        Number::Infinite { negative } => if *negative {
            0
        } else {
            0xffff_ffff
        },
        Number::Finite(decimal) => decimal.whole_clamped(),
    };
    let end: u32 = match seconds {
        Number::NotANumber => 0,
        Number::Infinite { negative } => match width {
            Number::NotANumber => 0,
            Number::Infinite { negative: other } => if *negative == *other && !*negative {
                0xffff_ffff
            } else {
                0
            },
            Number::Finite(_) => if *negative {
                0
            } else {
                0xffff_ffff
            },
        },
        Number::Finite(decimal) => match width {
            Number::NotANumber => 0,
            Number::Infinite { negative } => if *negative {
                0
            } else {
                0xffff_ffff
            },
            Number::Finite(pixels) => decimal.plus_clamped(decode_duration_seconds(pixels)),
        },
    };
    Reservation { start, end }
}

/// Reads the width out of a reservation's style.
pub fn read_width(style: &str) -> (result: Result<Number, ScrapeError>)
    ensures
        match result {
            Ok(width) => width_text(style@) is Some && float_literal(width_text(style@)->0)
                == Some(width@),
            Err(fault) => if width_text(style@) is None {
                fault == ScrapeError::MissingWidth
            } else {
                fault == ScrapeError::InvalidNumber(Field::Width) && float_literal(
                    width_text(style@)->0,
                ) is None
            },
        },
{
    let chars = chars_of(style);
    let marker = chars_of(WIDTH_MARKER);
    let end = match find_marker(chars.as_slice(), marker.as_slice()) {
        Some(end) => end,
        None => {
            return Err(ScrapeError::MissingWidth);
        },
    };
    let begin = match find_byte_offset(chars.as_slice(), WIDTH_OFFSET) {
        Some(begin) => begin,
        None => {
            return Err(ScrapeError::MissingWidth);
        },
    };
    if end < begin {
        return Err(ScrapeError::MissingWidth);
    }
    match read_number(slice_subrange(chars.as_slice(), begin, end)) {
        Some(width) => Ok(width),
        None => Err(ScrapeError::InvalidNumber(Field::Width)),
    }
}

/// Reads one reservation element: the name of its room and the reservation.
pub fn read_booking(raw: &RawReservation) -> (result: Result<(String, Reservation), ScrapeError>)
    ensures
        match result {
            Ok(booking) => booking_of(raw.deep_view()) == Ok::<
                (Seq<char>, Reservation),
                ScrapeError,
            >((booking.0@, booking.1)),
            Err(fault) => booking_of(raw.deep_view()) == Err::<
                (Seq<char>, Reservation),
                ScrapeError,
            >(fault),
        },
{
    let room_name = match &raw.room_name {
        Some(text) => text,
        None => {
            return Err(ScrapeError::MissingAttribute(Field::RoomName));
        },
    };
    let seconds_text = match &raw.seconds {
        Some(text) => chars_of(text.as_str()),
        None => {
            return Err(ScrapeError::MissingAttribute(Field::Seconds));
        },
    };
    let seconds = match read_number(seconds_text.as_slice()) {
        Some(seconds) => seconds,
        None => {
            return Err(ScrapeError::InvalidNumber(Field::Seconds));
        },
    };
    let style = match &raw.style {
        Some(text) => text,
        None => {
            return Err(ScrapeError::MissingAttribute(Field::Width));
        },
    };
    let width = match read_width(style.as_str()) {
        Ok(width) => width,
        Err(fault) => {
            return Err(fault);
        },
    };
    Ok((room_name.clone(), reservation_from(&seconds, &width)))
}

/// Books `reservation` for the room called `name`; does nothing where no
/// room has that name.
pub fn book(rooms: &mut Vec<Room>, name: &str, reservation: Reservation)
    ensures
        models_of(final(rooms)@) == booked(models_of(old(rooms)@), name@, reservation),
{
    match find_room(rooms, name) {
        Some(at) => {
            rooms[at].reserve(reservation);
            assert(models_of(rooms@) =~= booked(models_of(old(rooms)@), name@, reservation));
        },
        None => {},
    }
}

/// Reads one reservation element and books what it describes; leaves the
/// rooms as they are where the element is at fault.
fn book_element(rooms: &mut Vec<Room>, raw: &RawReservation) -> (result: Result<(), ScrapeError>)
    ensures
        result is Err ==> final(rooms)@ == old(rooms)@,
        match result {
            Ok(_) => booking_of(raw.deep_view()) is Ok && models_of(final(rooms)@) == booked(
                models_of(old(rooms)@),
                booking_of(raw.deep_view())->Ok_0.0,
                booking_of(raw.deep_view())->Ok_0.1,
            ),
            Err(fault) => booking_of(raw.deep_view()) == Err::<
                (Seq<char>, Reservation),
                ScrapeError,
            >(fault),
        },
{
    match read_booking(raw) {
        Ok(booking) => {
            book(rooms, booking.0.as_str(), booking.1);
            Ok(())
        },
        Err(fault) => Err(fault),
    }
}

/// Booking one more element: the bookings so far, then that element's.
pub proof fn lemma_with_bookings_step(
    rooms: Seq<RoomModel>,
    raws: Seq<RawReservationModel>,
    n: int,
)
    requires
        0 <= n < raws.len(),
    ensures
        with_bookings(rooms, raws.take(n + 1)) == match with_bookings(rooms, raws.take(n)) {
            Err(fault) => Err(fault),
            Ok(sofar) => match booking_of(raws[n]) {
                Err(fault) => Err(fault),
                Ok(booking) => Ok(booked(sofar, booking.0, booking.1)),
            },
        },
{
    let prefix = raws.take(n + 1);
    assert(prefix.drop_last() =~= raws.take(n));
    assert(prefix.last() == raws[n]);
}

/// Books all reservation elements, in order.
pub fn attach_reservations(rooms: Vec<Room>, raws: &Vec<RawReservation>) -> (result: Result<
    Vec<Room>,
    ScrapeError,
>)
    ensures
        outcome_of(result) == with_bookings(models_of(rooms@), raws.deep_view()),
        result matches Ok(after) ==> names_of(models_of(after@)) == names_of(models_of(rooms@)),
{
    let ghost before = models_of(rooms@);
    let ghost all = raws.deep_view();
    let mut list = rooms;
    let mut i: usize = 0;
    assert(all.take(0) =~= Seq::<RawReservationModel>::empty());
    while i < raws.len()
        invariant
            0 <= i <= raws.len(),
            all == raws.deep_view(),
            before == models_of(rooms@),
            with_bookings(before, all.take(i as int)) == Ok::<Seq<RoomModel>, ScrapeError>(
                models_of(list@),
            ),
        decreases raws.len() - i,
    {
        proof {
            lemma_with_bookings_step(before, all, i as int);
            assert(all[i as int] == raws[i as int].deep_view());
        }
        match book_element(&mut list, &raws[i]) {
            Ok(_) => {},
            Err(fault) => {
                proof {
                    lemma_with_bookings_fault_stays(before, all, i + 1);
                }
                return Err(fault);
            },
        }
        i += 1;
    }
    proof {
        assert(all.take(i as int) =~= all);
        lemma_with_bookings_names(before, all);
    }
    Ok(list)
}

/// Whether names are distinct depends on the names alone.
pub proof fn lemma_distinct_by_names(a: Seq<RoomModel>, b: Seq<RoomModel>)
    requires
        names_of(a) == names_of(b),
        distinct_names(b),
    ensures
        distinct_names(a),
{
    assert(a.len() == names_of(a).len());
    assert(b.len() == names_of(b).len());
    assert forall|i: int, j: int| 0 <= i < j < a.len() implies (#[trigger] a[i]).name != (
    #[trigger] a[j]).name by {
        assert(names_of(a)[i] == a[i].name);
        assert(names_of(a)[j] == a[j].name);
        assert(names_of(b)[i] == b[i].name);
        assert(names_of(b)[j] == b[j].name);
    }
}

/// Turns the raw texts of a page into rooms with their reservations.
pub fn assemble_timeline(raw_rooms: &Vec<RawRoom>, raw_reservations: &Vec<RawReservation>) -> (result:
    Result<Vec<Room>, ScrapeError>)
    ensures
        outcome_of(result) == timeline_of(raw_rooms.deep_view(), raw_reservations.deep_view()),
        result matches Ok(rooms) ==> distinct_names(models_of(rooms@)),
{
    let rooms = match collect_rooms(raw_rooms) {
        Ok(rooms) => rooms,
        Err(fault) => {
            return Err(fault);
        },
    };
    let ghost bare = models_of(rooms@);
    let result = attach_reservations(rooms, raw_reservations);
    proof {
        if result is Ok {
            lemma_distinct_by_names(models_of(result->Ok_0@), bare);
        }
    }
    result
}

/// Reads the rooms and their reservations out of the timeline page `html`.
pub fn scrape_rooms(html: &str) -> (result: Result<Vec<Room>, ScrapeError>)
    ensures
        outcome_of(result) == page_of(html),
        result matches Ok(rooms) ==> distinct_names(models_of(rooms@)),
{
    if html.len() > MAX_DOCUMENT_BYTES {
        return Err(ScrapeError::DocumentTooLarge);
    }
    let raw_rooms = match select_room_cells(
        html,
        ROOM_ROWS,
        NAME_CELL,
        FLOOR_CELL,
        SIZE_CELL,
        SORT_KEY,
    ) {
        Some(raw_rooms) => raw_rooms,
        None => {
            return Err(ScrapeError::Selector);
        },
    };
    let rooms = match collect_rooms(&raw_rooms) {
        Ok(rooms) => rooms,
        Err(fault) => {
            return Err(fault);
        },
    };
    let raw_reservations = match select_reservation_attributes(
        html,
        RESERVED,
        ROOM_NAME_KEY,
        SECONDS_KEY,
        STYLE_KEY,
    ) {
        Some(raw_reservations) => raw_reservations,
        None => {
            return Err(ScrapeError::Selector);
        },
    };
    let ghost bare = models_of(rooms@);
    let result = attach_reservations(rooms, &raw_reservations);
    proof {
        if result is Ok {
            lemma_distinct_by_names(models_of(result->Ok_0@), bare);
        }
    }
    result
}

} // verus!
