//! What the timeline page holds, as the `scraper` crate reads it.
//!
//! Parsing HTML and matching CSS selectors is the work of `scraper`. This
//! module hands it text and takes text back: for each row of the room table
//! the sort keys of its cells, and for each reservation element its
//! attributes. Where these stand in the page is written down here, as the
//! selectors and attribute names of the page's layout. Nothing here is
//! verified; the two functions state what is taken on trust.

use scraper::{ElementRef, Html, Selector};
use vstd::prelude::*;

verus! {

/// The largest document, in bytes, that is handed to the markup reader.
///
/// The reader keeps its texts in buffers whose capacity is a power of two
/// that fits in a `u32`, so no buffer grows beyond 2^31 bytes, and it may
/// write three bytes for one byte of the document. A document of this size
/// stays below a third of that limit.
pub const MAX_DOCUMENT_BYTES: usize = 0x2000_0000;

/// The rows of the room table.
pub const ROOM_ROWS: &'static str = "table#timeline tbody tr";

/// Within a row, the cell that holds the room's name.
pub const NAME_CELL: &'static str = "td.name";

/// Within a row, the cell that holds the room's floor.
pub const FLOOR_CELL: &'static str = "td.floor";

/// Within a row, the cell that holds the room's size.
pub const SIZE_CELL: &'static str = "td.size";

/// The attribute of a cell that holds the cell's value.
pub const SORT_KEY: &'static str = "data-sort";

/// The elements that stand for reservations.
pub const RESERVED: &'static str = "div.reserved";

/// The attribute of a reservation that names its room.
pub const ROOM_NAME_KEY: &'static str = "room_name";

/// The attribute of a reservation that holds its start.
pub const SECONDS_KEY: &'static str = "seconds";

/// The attribute of a reservation that holds its width.
pub const STYLE_KEY: &'static str = "style";


/// The cells of one row of the room table, as found in the page. For each
/// field: `None` where the row has no such cell, `Some(None)` where the cell
/// lacks the attribute, else the attribute's text.
#[derive(Clone, Debug, PartialEq, Eq)]
pub struct RawRoom {
    pub name: Option<Option<String>>,
    pub floor: Option<Option<String>>,
    pub size: Option<Option<String>>,
}

/// The attributes of one reservation element, as found in the page; `None`
/// for an attribute that the element lacks.
#[derive(Clone, Debug, PartialEq, Eq)]
pub struct RawReservation {
    pub room_name: Option<String>,
    pub seconds: Option<String>,
    pub style: Option<String>,
}

/// A `RawRoom` as plain mathematical values.
pub struct RawRoomModel {
    pub name: Option<Option<Seq<char>>>,
    pub floor: Option<Option<Seq<char>>>,
    pub size: Option<Option<Seq<char>>>,
}

/// A `RawReservation` as plain mathematical values.
pub struct RawReservationModel {
    pub room_name: Option<Seq<char>>,
    pub seconds: Option<Seq<char>>,
    pub style: Option<Seq<char>>,
}

impl DeepView for RawRoom {
    type V = RawRoomModel;

    open spec fn deep_view(&self) -> RawRoomModel {
        RawRoomModel {
            name: self.name.deep_view(),
            floor: self.floor.deep_view(),
            size: self.size.deep_view(),
        }
    }
}

impl DeepView for RawReservation {
    type V = RawReservationModel;

    open spec fn deep_view(&self) -> RawReservationModel {
        RawReservationModel {
            room_name: self.room_name.deep_view(),
            seconds: self.seconds.deep_view(),
            style: self.style.deep_view(),
        }
    }
}

/// What `scraper` finds in the document `html` for the room table: one entry
/// for each element that matches the selector `rows`, in the order in which
/// `Html::select` yields them. In an entry, each field is read from the first
/// descendant of the row that matches the field's selector, and is the value
/// of that element's attribute `key`. `None` where `scraper` rejects one of
/// the four selectors.
pub uninterp spec fn room_cells(
    html: Seq<char>,
    rows: Seq<char>,
    name: Seq<char>,
    floor: Seq<char>,
    size: Seq<char>,
    key: Seq<char>,
) -> Option<Seq<RawRoomModel>>;

/// What `scraper` finds in the document `html` for the reservations: one
/// entry for each element that matches `selector`, in the order in which
/// `Html::select` yields them, with the values of the element's attributes
/// `room_name`, `seconds` and `style`. `None` where `scraper` rejects the
/// selector.
pub uninterp spec fn reservation_attributes(
    html: Seq<char>,
    selector: Seq<char>,
    room_name: Seq<char>,
    seconds: Seq<char>,
    style: Seq<char>,
) -> Option<Seq<RawReservationModel>>;

/// Reads the room table out of a document with `scraper`: `Selector::parse`
/// on the four selectors, `Html::parse_document` on `html`, `Html::select`
/// for the rows, and for each row and field `ElementRef::select` and
/// `Element::attr`.
///
/// Taken on trust: the result depends on the six texts alone, so it has the
/// name `room_cells`; nothing is claimed about what that is.
///
/// The function is for the selectors and the attribute of the page's layout
/// alone: `Selector::parse` goes one call deeper for each level of nesting
/// in a selector, and these have none. The size bound keeps the parser's
/// buffers from growing beyond their limit of 2^31 bytes: an appended text
/// panics there, and a NUL byte of the document is written as three bytes.
#[verifier::external_body]
pub(crate) fn select_room_cells(
    html: &str,
    rows: &str,
    name: &str,
    floor: &str,
    size: &str,
    key: &str,
) -> (found: Option<Vec<RawRoom>>)
    requires
        html.len() <= MAX_DOCUMENT_BYTES,
        rows@ == ROOM_ROWS@,
        name@ == NAME_CELL@,
        floor@ == FLOOR_CELL@,
        size@ == SIZE_CELL@,
        key@ == SORT_KEY@,
    ensures
        found.deep_view() == room_cells(html@, rows@, name@, floor@, size@, key@),
{
    let rows = Selector::parse(rows).ok()?;
    let name = Selector::parse(name).ok()?;
    let floor = Selector::parse(floor).ok()?;
    let size = Selector::parse(size).ok()?;
    let document = Html::parse_document(html);
    let cell = |row: ElementRef, field: &Selector| {
        row.select(field).next().map(|cell| cell.value().attr(key).map(str::to_owned))
    };
    let read = |row: ElementRef| RawRoom {
        name: cell(row, &name),
        floor: cell(row, &floor),
        size: cell(row, &size),
    };
    Some(document.select(&rows).map(read).collect())
}

/// Reads the reservation elements out of a document with `scraper`:
/// `Selector::parse` on the selector, `Html::parse_document` on `html`,
/// `Html::select` for the elements, and `Element::attr` for each of the three
/// attributes.
///
/// Taken on trust: the result depends on the five texts alone, so it has the
/// name `reservation_attributes`; nothing is claimed about what that is. The
/// function is for the selector and the attributes of the page's layout
/// alone, and for documents within the size bound, for the reasons given at
/// `select_room_cells`.
#[verifier::external_body]
pub(crate) fn select_reservation_attributes(
    html: &str,
    selector: &str,
    room_name: &str,
    seconds: &str,
    style: &str,
) -> (found: Option<Vec<RawReservation>>)
    requires
        html.len() <= MAX_DOCUMENT_BYTES,
        selector@ == RESERVED@,
        room_name@ == ROOM_NAME_KEY@,
        seconds@ == SECONDS_KEY@,
        style@ == STYLE_KEY@,
    ensures
        found.deep_view() == reservation_attributes(
            html@,
            selector@,
            room_name@,
            seconds@,
            style@,
        ),
{
    let selector = Selector::parse(selector).ok()?;
    let document = Html::parse_document(html);
    let attribute = |element: ElementRef, key: &str| element.value().attr(key).map(str::to_owned);
    let read = |element: ElementRef| RawReservation {
        room_name: attribute(element, room_name),
        seconds: attribute(element, seconds),
        style: attribute(element, style),
    };
    Some(document.select(&selector).map(read).collect())
}

} // verus!
