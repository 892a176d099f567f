//! CSV file source integration

use vstd::prelude::*;
use vstd::string::{StrSliceExecFns, StringExecFns};

use super::{FieldsConfiguration, PositionsSource};
use crate::generator::day::{parse_rfc3339, rfc3339_nanos};
use crate::generator::grouping::batch_view;
use crate::generator::position::{Coordinates, DevicePosition, DevicePositionView};
use crate::generator::text::{
    chars_of, holds, joined, lower_case, only_at, only_place, to_lower_case, trim_text,
    trimmed, white_space,
};

verus! {

/// Field to index map
#[derive(Clone, Copy, Debug, PartialEq, Eq)]
pub struct FieldsIndex {
    pub device: usize,
    pub coordinates: usize,
    pub time: usize,
    pub route: Option<usize>,
    pub speed: Option<usize>,
    pub elevation: Option<usize>,
}

/// The cells of a record as character sequences.
pub open spec fn cells_view(cells: Seq<String>) -> Seq<Seq<char>> {
    cells.map_values(|c: String| c@)
}

/// The cells of a record, each without the white space around it.
pub open spec fn trimmed_cells(cells: Seq<Seq<char>>) -> Seq<Seq<char>> {
    cells.map_values(|c: Seq<char>| trimmed(c))
}

/// The names of the columns that a header gives: its cells, trimmed and in
/// lower case.
pub open spec fn column_names(header: Seq<Seq<char>>) -> Seq<Seq<char>> {
    header.map_values(|c: Seq<char>| lower_case(trimmed(c)))
}

/// `StringRecord::trim` of the crate `csv`, on a record made of the cells and
/// read back cell by cell: every cell without its leading and trailing white
/// space, as `str::trim` removes it.
#[verifier::external_body]
fn trim_record(cells: &Vec<String>) -> (out: Vec<String>)
    ensures
        cells_view(out@) == trimmed_cells(cells_view(cells@)),
{
    let mut record = csv::StringRecord::from(cells.as_slice());
    record.trim();
    record.iter().map(|c| c.to_string()).collect()
}

/// How the crate `csv` shows a record of the given cells to a developer.
pub uninterp spec fn record_text(cells: Seq<Seq<char>>) -> Seq<char>;

/// The `Debug` text of a `StringRecord` of the crate `csv` that is made of the
/// cells.
#[verifier::external_body]
fn show_record(cells: &Vec<String>) -> (text: String)
    ensures
        text@ == record_text(cells_view(cells@)),
{
    format!("{:?}", csv::StringRecord::from(cells.as_slice()))
}

/// Whether `place` is where a column of the name `name` stands first among
/// `names`: the first index that holds the name, and none where none does.
pub open spec fn is_column(names: Seq<Seq<char>>, name: Seq<char>, place: Option<usize>) -> bool {
    match place {
        Some(at) => at < names.len() && names[at as int] == name && forall|k: int|
            0 <= k < at ==> names[k] != name,
        None => forall|k: int| 0 <= k < names.len() ==> names[k] != name,
    }
}

/// Whether `index` maps the fields to the columns that `names` gives them.
pub open spec fn is_index(
    index: FieldsIndex,
    names: Seq<Seq<char>>,
    fields: super::FieldsConfigurationView,
) -> bool {
    &&& is_column(names, fields.device_id, Some(index.device))
    &&& is_column(names, fields.coordinates, Some(index.coordinates))
    &&& is_column(names, fields.time, Some(index.time))
    &&& is_column(names, fields.route, index.route)
    &&& is_column(names, fields.speed, index.speed)
    &&& is_column(names, fields.elevation, index.elevation)
}

/// Why a header is of no use, if it is of none: the first of device,
/// coordinates and time that has no column among `names`.
pub open spec fn header_failure(
    names: Seq<Seq<char>>,
    fields: super::FieldsConfigurationView,
) -> Option<Seq<char>> {
    if !names.contains(fields.device_id) {
        Some("Device header not found"@)
    } else if !names.contains(fields.coordinates) {
        Some("Coordinates header not found"@)
    } else if !names.contains(fields.time) {
        Some("Time header not found"@)
    } else {
        None
    }
}

/// The first column of the name `name`.
fn find_column(names: &Vec<String>, name: &String) -> (place: Option<usize>)
    ensures
        is_column(cells_view(names@), name@, place),
{
    let mut i: usize = 0;
    while i < names.len()
        invariant
            i <= names.len(),
            forall|k: int| 0 <= k < i ==> cells_view(names@)[k] != name@,
        decreases names.len() - i,
    {
        if names[i] == *name {
            return Some(i);
        }
        i = i + 1;
    }
    None
}

/// The columns of the fields in a header. The cells of the header are
/// trimmed, and stay so, and are taken in lower case; each field goes by the
/// first column of its name. Device, coordinates and time must have a column.
pub fn parse_header(fields: &FieldsConfiguration, header: &mut Vec<String>) -> (index: Result<
    FieldsIndex,
    String,
>)
    ensures
        cells_view(final(header)@) == trimmed_cells(cells_view(old(header)@)),
        match index {
            Ok(index) => is_index(index, column_names(cells_view(old(header)@)), fields@)
                && header_failure(column_names(cells_view(old(header)@)), fields@) is None,
            Err(e) => header_failure(column_names(cells_view(old(header)@)), fields@) == Some(
                e@,
            ),
        },
{
    let ghost raw = cells_view(old(header)@);
    let trimmed_header = trim_record(header);
    *header = trimmed_header;
    let cells: &Vec<String> = header;
    let mut names: Vec<String> = Vec::new();
    let mut i: usize = 0;
    proof {
        assert(cells_view(cells@).len() == cells.len());
        assert(trimmed_cells(raw).len() == raw.len());
    }
    while i < cells.len()
        invariant
            i <= cells.len(),
            cells.len() == raw.len(),
            cells_view(cells@) == trimmed_cells(raw),
            names.len() == i,
            forall|k: int| 0 <= k < i ==> (#[trigger] names[k])@ == lower_case(trimmed(raw[k])),
        decreases cells.len() - i,
    {
        proof {
            assert(cells_view(cells@)[i as int] == trimmed(raw[i as int]));
        }
        let lower = to_lower_case(cells[i].as_str());
        names.push(lower);
        i = i + 1;
    }
    proof {
        assert(cells_view(names@) =~= column_names(raw));
    }
    let ghost all = cells_view(names@);
    let device = match find_column(&names, &fields.device_id) {
        Some(p) => p,
        None => {
            return Err(String::from_str("Device header not found"));
        },
    };
    proof {
        assert(all[device as int] == fields@.device_id);
    }
    let coordinates = match find_column(&names, &fields.coordinates) {
        Some(p) => p,
        None => {
            return Err(String::from_str("Coordinates header not found"));
        },
    };
    proof {
        assert(all[coordinates as int] == fields@.coordinates);
    }
    let time = match find_column(&names, &fields.time) {
        Some(p) => p,
        None => {
            return Err(String::from_str("Time header not found"));
        },
    };
    proof {
        assert(all[time as int] == fields@.time);
    }
    let route = find_column(&names, &fields.route);
    let speed = find_column(&names, &fields.speed);
    let elevation = find_column(&names, &fields.elevation);
    Ok(FieldsIndex { device, coordinates, time, route, speed, elevation })
}

/// The character that parts the two coordinates of a cell: a comma where the
/// cell holds one, else a semicolon where it holds one, else a space.
pub open spec fn separator_of(raw: Seq<char>) -> char {
    if raw.contains(',') {
        ','
    } else if raw.contains(';') {
        ';'
    } else {
        ' '
    }
}

/// Whether a cell holds two coordinates: its separator stands at exactly one
/// place.
pub open spec fn is_pair(raw: Seq<char>) -> bool {
    exists|at: int| only_at(raw, separator_of(raw), at)
}

/// Whether a cell holds the two texts as its coordinates: what stands before
/// its only separator and what stands behind it, each trimmed.
pub open spec fn is_pair_of(raw: Seq<char>, first: Seq<char>, second: Seq<char>) -> bool {
    exists|at: int|
        only_at(raw, separator_of(raw), at) && first == trimmed(raw.take(at)) && second == trimmed(
            raw.skip(at + 1),
        )
}

/// The two coordinates of a cell, as texts; `None` where the cell does not
/// hold exactly two.
pub fn split_coordinates(raw: &str) -> (pair: Option<(String, String)>)
    ensures
        match pair {
            Some((first, second)) => is_pair_of(raw@, first@, second@),
            None => !is_pair(raw@),
        },
{
    let chars = chars_of(raw);
    let separator: char = if holds(&chars, ',') {
        ','
    } else if holds(&chars, ';') {
        ';'
    } else {
        ' '
    };
    match only_place(&chars, separator) {
        None => None,
        Some(at) => {
            let first = trim_text(raw.substring_char(0, at));
            let second = trim_text(raw.substring_char(at + 1, chars.len()));
            let pair = (String::from_str(first), String::from_str(second));
            proof {
                assert(raw@.subrange(0, at as int) =~= raw@.take(at as int));
                assert(raw@.subrange(at + 1, chars.len() as int) =~= raw@.skip(at + 1));
                assert(separator == separator_of(raw@));
                assert(only_at(raw@, separator_of(raw@), at as int));
                assert(pair.0@ == trimmed(raw@.take(at as int)));
                assert(pair.1@ == trimmed(raw@.skip(at + 1)));
                assert(is_pair_of(raw@, pair.0@, pair.1@));
            }
            Some(pair)
        },
    }
}

/// Whether the parser of numbers can read `text` as `bits`.
pub open spec fn reads_as<N: Fn(&str) -> Result<u64, String>>(
    numbers: N,
    text: Seq<char>,
    bits: u64,
) -> bool {
    exists|s: &str| s@ == text && #[trigger] call_ensures(numbers, (s,), Ok::<u64, String>(bits))
}

/// Whether the parser of numbers can read `text`.
pub open spec fn readable<N: Fn(&str) -> Result<u64, String>>(numbers: N, text: Seq<char>) -> bool {
    exists|bits: u64| reads_as(numbers, text, bits)
}

/// Whether the parser of numbers can refuse `text`, saying `why`.
pub open spec fn fails_on<N: Fn(&str) -> Result<u64, String>>(
    numbers: N,
    text: Seq<char>,
    why: Seq<char>,
) -> bool {
    exists|s: &str, e: String|
        s@ == text && e@ == why && #[trigger] call_ensures(numbers, (s,), Err::<u64, String>(e))
}

/// Whether `e` says why a record with the coordinates `lat_text` and
/// `lng_text` gives no position: the latitude is no number; or it is one and
/// the longitude is none; or both are numbers and the record has no cell for
/// the time, or one that is no timestamp of RFC 3339.
pub open spec fn is_pair_refusal<N: Fn(&str) -> Result<u64, String>>(
    numbers: N,
    index: FieldsIndex,
    cells: Seq<Seq<char>>,
    lat_text: Seq<char>,
    lng_text: Seq<char>,
    e: Seq<char>,
) -> bool {
    ||| exists|why: Seq<char>| #[trigger]
        fails_on(numbers, lat_text, why) && e == "Invalid latitude format: "@ + why
    ||| readable(numbers, lat_text) && exists|why: Seq<char>| #[trigger]
        fails_on(numbers, lng_text, why) && e == "Invalid longitude format: "@ + why
    ||| readable(numbers, lat_text) && readable(numbers, lng_text) && if index.time
        >= cells.len() {
        e == "Time field not found"@
    } else {
        rfc3339_nanos(cells[index.time as int]) is Err && e == "Failed on parse the time: "@
            + rfc3339_nanos(cells[index.time as int])->Err_0
    }
}

/// Whether `e` says why the trimmed cells of a record give no position
/// though they should: the record has no cell for the device or for the
/// coordinates, or it holds two coordinates and [`is_pair_refusal`] applies
/// to them, latitude behind longitude, or the other way round where the
/// order is flipped.
pub open spec fn is_row_refusal<N: Fn(&str) -> Result<u64, String>>(
    numbers: N,
    index: FieldsIndex,
    flip_coordinates: bool,
    cells: Seq<Seq<char>>,
    e: Seq<char>,
) -> bool {
    if index.device >= cells.len() {
        e == "Device field not found"@
    } else if index.coordinates >= cells.len() {
        e == "Coordinates field not found"@
    } else {
        exists|first: Seq<char>, second: Seq<char>| #[trigger]
            is_pair_of(cells[index.coordinates as int], first, second) && is_pair_refusal(
                numbers,
                index,
                cells,
                if flip_coordinates {
                    first
                } else {
                    second
                },
                if flip_coordinates {
                    second
                } else {
                    first
                },
                e,
            )
    }
}

/// Whether `value` is what the parser of numbers makes of the cell of an
/// optional column: the number that it reads, none where it reads none, and
/// none where the record has no such cell.
pub open spec fn reads_cell<N: Fn(&str) -> Result<u64, String>>(
    numbers: N,
    column: Option<usize>,
    cells: Seq<Seq<char>>,
    value: Option<u64>,
) -> bool {
    match column {
        Some(c) => if c < cells.len() {
            exists|s: &str, out: Result<u64, String>|
                s@ == cells[c as int] && #[trigger] call_ensures(numbers, (s,), out) && value
                    == out.ok()
        } else {
            value is None
        },
        None => value is None,
    }
}

/// The route label of a record: the cell of the route's column where the
/// record has one that is not empty.
pub open spec fn label_of(column: Option<usize>, cells: Seq<Seq<char>>) -> Option<Seq<char>> {
    match column {
        Some(c) => if c < cells.len() && cells[c as int].len() > 0 {
            Some(cells[c as int])
        } else {
            None
        },
        None => None,
    }
}

/// Whether `p` is the position that the trimmed cells of a record give.
pub open spec fn is_row_position<N: Fn(&str) -> Result<u64, String>>(
    numbers: N,
    index: FieldsIndex,
    flip_coordinates: bool,
    cells: Seq<Seq<char>>,
    p: DevicePositionView,
) -> bool {
    &&& index.device < cells.len()
    &&& index.coordinates < cells.len()
    &&& index.time < cells.len()
    &&& p.device_id == cells[index.device as int]
    &&& exists|first: Seq<char>, second: Seq<char>| #[trigger]
        is_pair_of(cells[index.coordinates as int], first, second) && reads_as(
            numbers,
            if flip_coordinates {
                first
            } else {
                second
            },
            p.pos.coordinates.lat,
        ) && reads_as(
            numbers,
            if flip_coordinates {
                second
            } else {
                first
            },
            p.pos.coordinates.lng,
        )
    &&& rfc3339_nanos(cells[index.time as int]) == Ok::<int, Seq<char>>(p.pos.time as int)
    &&& p.route_name == label_of(index.route, cells)
    &&& p.tracker is None
    &&& p.pos.precision is None
    &&& reads_cell(numbers, index.speed, cells, p.pos.speed)
    &&& reads_cell(numbers, index.elevation, cells, p.pos.altitude)
}

/// The number in the cell of an optional column.
fn read_cell<N: Fn(&str) -> Result<u64, String>>(
    numbers: &N,
    column: Option<usize>,
    cells: &Vec<String>,
) -> (value: Option<u64>)
    requires
        forall|s: &str| call_requires(*numbers, (s,)),
    ensures
        reads_cell(*numbers, column, cells_view(cells@), value),
{
    match column {
        Some(c) => {
            if c < cells.len() {
                let text = cells[c].as_str();
                let out = numbers(text);
                proof {
                    assert(text@ == cells_view(cells@)[c as int]);
                    assert(call_ensures(*numbers, (text,), out));
                }
                match out {
                    Ok(bits) => Some(bits),
                    Err(_) => None,
                }
            } else {
                None
            }
        },
        None => None,
    }
}

/// The position of a record. The cells are trimmed first, and stay so.
///
/// A record whose cell of coordinates does not hold exactly two gives no
/// position. A record without a cell for the device, the coordinates or the
/// time fails, and so does one with a coordinate that is no number or a time
/// that is no timestamp of RFC 3339.
pub fn parse_row<N: Fn(&str) -> Result<u64, String>>(
    header: &FieldsIndex,
    fields: &FieldsConfiguration,
    row: &mut Vec<String>,
    numbers: &N,
) -> (position: Result<Option<DevicePosition>, String>)
    requires
        forall|s: &str| call_requires(*numbers, (s,)),
    ensures
        cells_view(final(row)@) == trimmed_cells(cells_view(old(row)@)),
        match position {
            Ok(Some(p)) => is_row_position(
                *numbers,
                *header,
                fields.flip_coordinates,
                cells_view(final(row)@),
                p@,
            ),
            Ok(None) => header.device < old(row).len() && header.coordinates < old(row).len()
                && !is_pair(cells_view(final(row)@)[header.coordinates as int]),
            Err(e) => is_row_refusal(
                *numbers,
                *header,
                fields.flip_coordinates,
                cells_view(final(row)@),
                e@,
            ),
        },
{
    let trimmed_row = trim_record(row);
    *row = trimmed_row;
    let ghost cells = cells_view(row@);
    proof {
        assert(cells.len() == row.len());
        assert(trimmed_cells(cells_view(old(row)@)).len() == old(row).len());
    }
    if header.device >= row.len() {
        return Err(String::from_str("Device field not found"));
    }
    let device_id = row[header.device].clone();
    if header.coordinates >= row.len() {
        return Err(String::from_str("Coordinates field not found"));
    }
    let pair = split_coordinates(row[header.coordinates].as_str());
    proof {
        assert(row[header.coordinates as int]@ == cells[header.coordinates as int]);
    }
    let (first, second) = match pair {
        Some(pair) => pair,
        None => {
            return Ok(None);
        },
    };
    proof {
        assert(is_pair(cells[header.coordinates as int]));
        assert(is_pair_of(cells[header.coordinates as int], first@, second@));
    }
    let ghost pair_first = first@;
    let ghost pair_second = second@;
    let (lat_text, lng_text) = if fields.flip_coordinates {
        (first, second)
    } else {
        (second, first)
    };
    let lat_cell: &str = lat_text.as_str();
    let lat: u64 = match numbers(lat_cell) {
        Ok(bits) => bits,
        Err(e) => {
            let text = joined("Invalid latitude format: ", e.as_str());
            proof {
                assert(fails_on(*numbers, lat_text@, e@)) by {
                    assert(call_ensures(*numbers, (lat_cell,), Err::<u64, String>(e)));
                }
                assert(is_pair_refusal(*numbers, *header, cells, lat_text@, lng_text@, text@));
                assert(is_pair_of(cells[header.coordinates as int], pair_first, pair_second));
            }
            return Err(text);
        },
    };
    proof {
        assert(reads_as(*numbers, lat_text@, lat)) by {
            assert(call_ensures(*numbers, (lat_cell,), Ok::<u64, String>(lat)));
        }
        assert(readable(*numbers, lat_text@));
    }
    let lng_cell: &str = lng_text.as_str();
    let lng: u64 = match numbers(lng_cell) {
        Ok(bits) => bits,
        Err(e) => {
            let text = joined("Invalid longitude format: ", e.as_str());
            proof {
                assert(fails_on(*numbers, lng_text@, e@)) by {
                    assert(call_ensures(*numbers, (lng_cell,), Err::<u64, String>(e)));
                }
                assert(is_pair_refusal(*numbers, *header, cells, lat_text@, lng_text@, text@));
                assert(is_pair_of(cells[header.coordinates as int], pair_first, pair_second));
            }
            return Err(text);
        },
    };
    proof {
        assert(reads_as(*numbers, lng_text@, lng)) by {
            assert(call_ensures(*numbers, (lng_cell,), Ok::<u64, String>(lng)));
        }
        assert(readable(*numbers, lng_text@));
    }
    if header.time >= row.len() {
        let text = String::from_str("Time field not found");
        proof {
            assert(is_pair_refusal(*numbers, *header, cells, lat_text@, lng_text@, text@));
            assert(is_pair_of(cells[header.coordinates as int], pair_first, pair_second));
        }
        return Err(text);
    }
    let time: i128 = match parse_rfc3339(row[header.time].as_str()) {
        Ok(nanos) => nanos,
        Err(e) => {
            let text = joined("Failed on parse the time: ", e.as_str());
            proof {
                assert(row[header.time as int]@ == cells[header.time as int]);
                assert(is_pair_refusal(*numbers, *header, cells, lat_text@, lng_text@, text@));
                assert(is_pair_of(cells[header.coordinates as int], pair_first, pair_second));
            }
            return Err(text);
        },
    };
    let mut dpos = DevicePosition::basic(device_id, Coordinates::new(lng, lat), time);
    match header.route {
        Some(c) => {
            if c < row.len() {
                let label = trim_text(row[c].as_str());
                if !label.is_empty() {
                    dpos.route_name = Some(String::from_str(label));
                }
                proof {
                    lemma_trimmed_twice(old(row)@[c as int]@);
                    assert(cells[c as int] == trimmed(old(row)@[c as int]@));
                }
            }
        },
        None => {},
    }
    let speed = read_cell(numbers, header.speed, row);
    let altitude = read_cell(numbers, header.elevation, row);
    dpos.pos.speed = speed;
    dpos.pos.altitude = altitude;
    proof {
        assert(is_pair_of(cells[header.coordinates as int], first@, second@));
    }
    Ok(Some(dpos))
}

/// Trimming a trimmed text changes nothing.
proof fn lemma_trimmed_twice(text: Seq<char>)
    ensures
        trimmed(trimmed(text)) == trimmed(text),
    decreases text.len(),
{
    if text.len() > 0 && white_space(text[0]) {
        lemma_trimmed_twice(text.drop_first());
    } else if text.len() > 0 && white_space(text.last()) {
        lemma_trimmed_twice(text.drop_last());
    }
}

/// CSV tracks source: the records of a CSV file as they were read, and the
/// place up to which they have been fetched.
///
/// The header and each record are held as reading gave them: the cells, or
/// the message of the failure to read. Numbers are read by `numbers`, which
/// gives the bit pattern of the binary64 number that a text denotes, or says
/// why it denotes none.
pub struct CsvSource<N: Fn(&str) -> Result<u64, String>> {
    header: Result<Vec<String>, String>,
    rows: Vec<Result<Vec<String>, String>>,
    next: usize,
    fields: FieldsConfiguration,
    numbers: N,
}

/// What reading a record gave, with texts as character sequences.
pub open spec fn record_view(record: Result<Vec<String>, String>) -> Result<
    Seq<Seq<char>>,
    Seq<char>,
> {
    match record {
        Ok(cells) => Ok(cells_view(cells@)),
        Err(e) => Err(e@),
    }
}

/// Whether `e` is the message with which fetching stops at a record that was
/// read as `handed`: that of the failure to read it, or one that shows the
/// trimmed record, of three cells or more, and says why it gives no position
/// though it should.
pub open spec fn is_row_failure<N: Fn(&str) -> Result<u64, String>>(
    numbers: N,
    index: FieldsIndex,
    flip_coordinates: bool,
    handed: Result<Seq<Seq<char>>, Seq<char>>,
    e: Seq<char>,
) -> bool {
    match handed {
        Err(why) => e == "Failed on read some row: "@ + why,
        Ok(cells) => cells.len() >= 3 && exists|why: Seq<char>| #[trigger]
            is_row_refusal(numbers, index, flip_coordinates, trimmed_cells(cells), why) && e
                == "Error with row "@ + record_text(trimmed_cells(cells)) + ": "@ + why,
    }
}

/// Whether `out` is what a record gives that was read as `handed`: nothing
/// where it has less than three cells or its cell of coordinates does not
/// hold exactly two, and else its position.
pub open spec fn row_gives<N: Fn(&str) -> Result<u64, String>>(
    numbers: N,
    index: FieldsIndex,
    flip_coordinates: bool,
    handed: Result<Seq<Seq<char>>, Seq<char>>,
    out: Option<DevicePositionView>,
) -> bool {
    handed is Ok && {
        let cells = trimmed_cells(handed->Ok_0);
        if cells.len() < 3 {
            out is None
        } else {
            match out {
                Some(p) => is_row_position(numbers, index, flip_coordinates, cells, p),
                None => index.device < cells.len() && index.coordinates < cells.len() && !is_pair(
                    cells[index.coordinates as int],
                ),
            }
        }
    }
}

/// Of what records give, one after the other, the positions with an instant
/// neither before `start` nor after `end`.
pub open spec fn kept(outs: Seq<Option<DevicePositionView>>, start: i128, end: i128) -> Seq<
    DevicePositionView,
>
    decreases outs.len(),
{
    if outs.len() == 0 {
        Seq::empty()
    } else {
        let init = kept(outs.drop_last(), start, end);
        match outs.last() {
            Some(p) => if start <= p.pos.time <= end {
                init.push(p)
            } else {
                init
            },
            None => init,
        }
    }
}

/// Whether `positions` are fetched from the records from `first` on, under a
/// header of the cells `header`: every one of these records gives its
/// position or nothing, and `positions` are the positions that they give with
/// an instant neither before `start` nor after `end`, in the order of the
/// records.
pub open spec fn is_fetch_of<N: Fn(&str) -> Result<u64, String>>(
    numbers: N,
    header: Seq<Seq<char>>,
    fields: super::FieldsConfigurationView,
    rows: Seq<Result<Seq<Seq<char>>, Seq<char>>>,
    first: nat,
    start: i128,
    end: i128,
    positions: Seq<DevicePosition>,
) -> bool {
    exists|index: FieldsIndex, outs: Seq<Option<DevicePositionView>>| #[trigger]
        are_outcomes(numbers, index, fields.flip_coordinates, rows, first, outs) && first
            + outs.len() == rows.len() && is_index(index, column_names(header), fields)
            && batch_view(positions) == kept(outs, start, end)
}

/// Whether `outs` are what the records from `first` on give, one for one.
pub open spec fn are_outcomes<N: Fn(&str) -> Result<u64, String>>(
    numbers: N,
    index: FieldsIndex,
    flip_coordinates: bool,
    rows: Seq<Result<Seq<Seq<char>>, Seq<char>>>,
    first: nat,
    outs: Seq<Option<DevicePositionView>>,
) -> bool {
    &&& first + outs.len() <= rows.len()
    &&& forall|r: int|
        0 <= r < outs.len() ==> row_gives(
            numbers,
            index,
            flip_coordinates,
            rows[first + r],
            #[trigger] outs[r],
        )
}

/// Positions that are kept have an instant neither before `start` nor after
/// `end`.
pub proof fn lemma_kept_within(outs: Seq<Option<DevicePositionView>>, start: i128, end: i128)
    ensures
        forall|k: int|
            0 <= k < kept(outs, start, end).len() ==> start <= (#[trigger] kept(
                outs,
                start,
                end,
            )[k]).pos.time <= end,
    decreases outs.len(),
{
    if outs.len() > 0 {
        lemma_kept_within(outs.drop_last(), start, end);
    }
}

/// Whether fetching from the records from `first` on, under a header of the
/// cells `header`, stops with the message `e` and `now` records fetched: the
/// records before the last of those give their position or nothing, and the
/// last of them fails with `e`.
pub open spec fn is_stop_of<N: Fn(&str) -> Result<u64, String>>(
    numbers: N,
    header: Seq<Seq<char>>,
    fields: super::FieldsConfigurationView,
    rows: Seq<Result<Seq<Seq<char>>, Seq<char>>>,
    first: nat,
    now: nat,
    e: Seq<char>,
) -> bool {
    exists|index: FieldsIndex, outs: Seq<Option<DevicePositionView>>| #[trigger]
        are_outcomes(numbers, index, fields.flip_coordinates, rows, first, outs) && first
            + outs.len() + 1 == now && now <= rows.len() && is_index(
            index,
            column_names(header),
            fields,
        ) && is_row_failure(numbers, index, fields.flip_coordinates, rows[now - 1], e)
}

impl<N: Fn(&str) -> Result<u64, String>> CsvSource<N> {
    #[verifier::type_invariant]
    spec fn well_formed(self) -> bool {
        &&& self.next <= self.rows.len()
        &&& forall|s: &str| call_requires(self.numbers, (s,))
    }

    /// What reading the header gave.
    pub closed spec fn header(self) -> Result<Seq<Seq<char>>, Seq<char>> {
        record_view(self.header)
    }

    /// What reading the records gave, record by record.
    pub closed spec fn rows(self) -> Seq<Result<Seq<Seq<char>>, Seq<char>>> {
        self.rows@.map_values(|r: Result<Vec<String>, String>| record_view(r))
    }

    /// How many of the records have been fetched.
    pub closed spec fn fetched(self) -> nat {
        self.next as nat
    }

    /// The names of the fields.
    pub closed spec fn fields(self) -> super::FieldsConfigurationView {
        self.fields@
    }

    /// The parser of numbers.
    pub closed spec fn numbers(self) -> N {
        self.numbers
    }

    /// A source of the records of a file, none of them fetched yet; the
    /// fields go by their usual names where none are given.
    pub fn new(
        header: Result<Vec<String>, String>,
        rows: Vec<Result<Vec<String>, String>>,
        fields: Option<FieldsConfiguration>,
        numbers: N,
    ) -> (source: Self)
        requires
            forall|s: &str| call_requires(numbers, (s,)),
        ensures
            source.header() == record_view(header),
            source.rows() == rows@.map_values(|r: Result<Vec<String>, String>| record_view(r)),
            source.fetched() == 0,
            source.fields() == match fields {
                Some(f) => f@,
                None => super::default_fields(),
            },
            source.numbers() == numbers,
    {
        Self {
            header,
            rows,
            next: 0,
            fields: match fields {
                Some(f) => f,
                None => FieldsConfiguration::default(),
            },
            numbers,
        }
    }

    /// Whether a fetch of the positions between `start` and `end` that finds
    /// the source as it is may leave it as `after` and answer `found`.
    ///
    /// Header, records, fields and parser stay. Where the header could not be
    /// read or lacks a column, the answer is that failure and no record is
    /// fetched. Else the records are taken one by one from the first that had
    /// not been fetched: where each of them gives its position or nothing, all
    /// count as fetched and the answer holds the positions of the period in
    /// the order of the records; and where one does not, the records up to
    /// that one count as fetched and the answer is its failure.
    pub open spec fn fetches(
        self,
        after: Self,
        start: i128,
        end: i128,
        found: Result<Vec<DevicePosition>, String>,
    ) -> bool {
        &&& after.header() == self.header()
        &&& after.rows() == self.rows()
        &&& after.fields() == self.fields()
        &&& after.numbers() == self.numbers()
        &&& self.fetched() <= after.fetched() <= self.rows().len()
        &&& match self.header() {
            Err(why) => found is Err && found->Err_0@ == "Failed on read the header: "@ + why
                && after.fetched() == self.fetched(),
            Ok(header) => match header_failure(column_names(header), self.fields()) {
                Some(why) => found is Err && found->Err_0@ == why && after.fetched()
                    == self.fetched(),
                None => match found {
                    Ok(positions) => after.fetched() == self.rows().len() && is_fetch_of(
                        self.numbers(),
                        header,
                        self.fields(),
                        self.rows(),
                        self.fetched(),
                        start,
                        end,
                        positions@,
                    ) && forall|k: int|
                        0 <= k < positions.len() ==> start <= (#[trigger] positions[k]).pos.time
                            <= end,
                    Err(e) => is_stop_of(
                        self.numbers(),
                        header,
                        self.fields(),
                        self.rows(),
                        self.fetched(),
                        after.fetched(),
                        e@,
                    ),
                },
            },
        }
    }

    /// The positions of the records that have not been fetched yet and whose
    /// instant is neither before `start` nor after `end`, in the order of the
    /// records. Records of less than three cells, and records whose cell of
    /// coordinates does not hold exactly two, are passed over.
    ///
    /// It fails where the header could not be read or lacks a column, and at
    /// the first record that could not be read or gives no position though it
    /// has the cells for one. All records up to that one count as fetched.
    pub fn positions(&mut self, start: i128, end: i128) -> (found: Result<
        Vec<DevicePosition>,
        String,
    >)
        ensures
            old(self).fetches(*final(self), start, end, found),
    {
        proof {
            use_type_invariant(&*self);
        }
        let mut header: Vec<String> = match &self.header {
            Ok(h) => h.clone(),
            Err(e) => {
                return Err(joined("Failed on read the header: ", e.as_str()));
            },
        };
        proof {
            assert(cells_view(header@) =~= self.header()->Ok_0);
        }
        let index = match parse_header(&self.fields, &mut header) {
            Ok(i) => i,
            Err(e) => {
                return Err(e);
            },
        };
        let ghost first = self.next as nat;
        let ghost all = self.rows();
        let ghost mut outs: Seq<Option<DevicePositionView>> = Seq::empty();
        let mut pos: Vec<DevicePosition> = Vec::new();
        let mut i: usize = self.next;
        let mut failure: Option<String> = None;
        proof {
            assert(batch_view(pos@) =~= kept(outs, start, end));
        }
        while i < self.rows.len() && failure.is_none()
            invariant
                first <= i <= self.rows.len(),
                all == self.rows(),
                *self == *old(self),
                old(self).header() is Ok,
                is_index(index, column_names(old(self).header()->Ok_0), old(self).fields()),
                forall|s: &str| call_requires(self.numbers, (s,)),
                failure is None ==> first + outs.len() == i,
                failure is Some ==> first + outs.len() + 1 == i && is_row_failure(
                    self.numbers,
                    index,
                    self.fields.flip_coordinates,
                    all[i - 1],
                    failure->Some_0@,
                ),
                are_outcomes(self.numbers, index, self.fields.flip_coordinates, all, first, outs),
                batch_view(pos@) == kept(outs, start, end),
                forall|k: int| 0 <= k < pos.len() ==> start <= (#[trigger] pos[k]).pos.time <= end,
            decreases self.rows.len() - i + (if failure is None { 1int } else { 0int }),
        {
            let ghost before = outs;
            let ghost held = batch_view(pos@);
            match &self.rows[i] {
                Err(e) => {
                    failure = Some(joined("Failed on read some row: ", e.as_str()));
                },
                Ok(cells) => {
                    proof {
                        assert(all[i as int] == record_view(self.rows[i as int]));
                        assert(trimmed_cells(cells_view(cells@)).len() == cells.len());
                    }
                    if cells.len() >= 3 {
                        let mut rec = trim_record(cells);
                        proof {
                            lemma_trimmed_cells_twice(cells_view(cells@));
                        }
                        match parse_row(&index, &self.fields, &mut rec, &self.numbers) {
                            Err(e) => {
                                let shown = show_record(&rec);
                                let mut text = joined("Error with row ", shown.as_str());
                                text.append(": ");
                                text.append(e.as_str());
                                proof {
                                    assert(is_row_refusal(
                                        self.numbers,
                                        index,
                                        self.fields.flip_coordinates,
                                        trimmed_cells(cells_view(cells@)),
                                        e@,
                                    ));
                                }
                                failure = Some(text);
                            },
                            Ok(None) => {
                                proof {
                                    outs = before.push(None);
                                }
                            },
                            Ok(Some(dpos)) => {
                                proof {
                                    outs = before.push(Some(dpos@));
                                }
                                if start <= dpos.pos.time && dpos.pos.time <= end {
                                    pos.push(dpos);
                                    proof {
                                        assert(batch_view(pos@) =~= held.push(dpos@));
                                    }
                                }
                            },
                        }
                    } else {
                        proof {
                            outs = before.push(None);
                        }
                    }
                },
            }
            proof {
                if failure is None {
                    assert(outs.drop_last() =~= before);
                    assert forall|r: int| 0 <= r < outs.len() implies row_gives(
                        self.numbers,
                        index,
                        self.fields.flip_coordinates,
                        all[first + r],
                        #[trigger] outs[r],
                    ) by {
                        if r < before.len() {
                            assert(outs[r] == before[r]);
                        }
                    }
                }
            }
            i = i + 1;
        }
        self.next = i;
        proof {
            assert(self.rows() == old(self).rows());
            assert(is_index(index, column_names(old(self).header()->Ok_0), old(self).fields()));
            if failure is Some {
                let read = old(self).rows();
                assert(are_outcomes(
                    old(self).numbers(),
                    index,
                    old(self).fields().flip_coordinates,
                    read,
                    old(self).fetched(),
                    outs,
                ));
                assert(is_stop_of(
                    old(self).numbers(),
                    old(self).header()->Ok_0,
                    old(self).fields(),
                    read,
                    old(self).fetched(),
                    i as nat,
                    failure->Some_0@,
                ));
            }
            if failure is None {
                let read = old(self).rows();
                assert(are_outcomes(
                    old(self).numbers(),
                    index,
                    old(self).fields().flip_coordinates,
                    read,
                    old(self).fetched(),
                    outs,
                )) by {
                    assert forall|r: int| 0 <= r < outs.len() implies row_gives(
                        old(self).numbers(),
                        index,
                        old(self).fields().flip_coordinates,
                        read[first + r],
                        #[trigger] outs[r],
                    ) by {
                        assert(read[first + r] == all[first + r]);
                    }
                }
                assert(is_fetch_of(
                    old(self).numbers(),
                    old(self).header()->Ok_0,
                    old(self).fields(),
                    read,
                    old(self).fetched(),
                    start,
                    end,
                    pos@,
                ));
            }
        }
        match failure {
            Some(e) => Err(e),
            None => Ok(pos),
        }
    }
}

/// Trimming trimmed cells changes nothing.
proof fn lemma_trimmed_cells_twice(cells: Seq<Seq<char>>)
    ensures
        trimmed_cells(trimmed_cells(cells)) == trimmed_cells(cells),
{
    assert forall|i: int| 0 <= i < cells.len() implies trimmed(trimmed(cells[i])) == trimmed(
        cells[i],
    ) by {
        lemma_trimmed_twice(cells[i]);
    }
    assert(trimmed_cells(trimmed_cells(cells)) =~= trimmed_cells(cells));
}

impl<N: Fn(&str) -> Result<u64, String>> PositionsSource for CsvSource<N> {
    /// The answers of a fetch: those that [`CsvSource::fetches`] allows.
    open spec fn answers(
        &self,
        start: i128,
        end: i128,
        found: Result<Vec<DevicePosition>, String>,
    ) -> bool {
        exists|after: Self| self.fetches(after, start, end, found)
    }

    /// Fetch the positions of the records that have not been fetched yet and
    /// whose instant is neither before `start` nor after `end`, as
    /// [`CsvSource::positions`] does.
    fn fetch(&mut self, start: i128, end: i128) -> (found: Result<Vec<DevicePosition>, String>)
        ensures
            old(self).fetches(*final(self), start, end, found),
    {
        self.positions(start, end)
    }
}

} // verus!
