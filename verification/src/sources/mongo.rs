//! Mongodb source integration: documents as a source hands them over, and the
//! positions that they hold

use vstd::prelude::*;
use vstd::string::StringExecFns;

use super::numbers::{binary64_of_int, decimal, decimal_of, double_of_int};
use super::{FieldsConfiguration, FieldsConfigurationView};
use crate::generator::day::{parse_rfc3339, rfc3339_nanos};
use crate::generator::text::joined;
use crate::generator::position::{
    text_view, Coordinates, DevicePosition, DevicePositionView, RawPosition,
};

verus! {

/// An element of an array
pub enum Item {
    Text(String),
    Int32(i32),
    /// A binary64 number, as its bit pattern
    Double(u64),
    /// Anything else
    Other,
}

/// The value of a field of a document
pub enum Value {
    Text(String),
    Int32(i32),
    Int64(i64),
    /// A binary64 number: its bit pattern, and the text that shows it
    Double(u64, String),
    /// An instant, in nanoseconds since the Unix epoch
    DateTime(i128),
    /// An instant, in whole seconds since the Unix epoch
    Timestamp(u32),
    Array(Vec<Item>),
    /// Anything else
    Other,
}

/// A field of a document
pub struct Field {
    pub name: String,
    pub value: Value,
}

/// A document as the store handed it over: its identifier as a text, or the
/// message of the failure to get it, and its fields in their order
pub struct StoredDocument {
    pub id: Result<String, String>,
    pub fields: Vec<Field>,
}

/// The value of the first field of the name `name`.
pub open spec fn value_of(fields: Seq<Field>, name: Seq<char>) -> Option<Value>
    decreases fields.len(),
{
    if fields.len() == 0 {
        None
    } else if fields[0].name@ == name {
        Some(fields[0].value)
    } else {
        value_of(fields.drop_first(), name)
    }
}

/// The value of the first field of the name `name`.
pub fn get<'a>(fields: &'a Vec<Field>, name: &String) -> (value: Option<&'a Value>)
    ensures
        value_of(fields@, name@) == match value {
            Some(v) => Some(*v),
            None => None::<Value>,
        },
{
    let mut i: usize = 0;
    proof {
        assert(fields@.skip(0) =~= fields@);
    }
    while i < fields.len()
        invariant
            i <= fields.len(),
            value_of(fields@, name@) == value_of(fields@.skip(i as int), name@),
        decreases fields.len() - i,
    {
        proof {
            assert(fields@.skip(i as int)[0] == fields[i as int]);
            assert(fields@.skip(i as int).drop_first() =~= fields@.skip(i + 1));
        }
        if fields[i].name == *name {
            return Some(&fields[i].value);
        }
        i = i + 1;
    }
    None
}

/// The device of a document: the text of its device field, or the number
/// there as a text.
pub open spec fn device_in(value: Option<Value>) -> Result<Seq<char>, Seq<char>> {
    match value {
        Some(Value::Text(t)) => Ok(t@),
        Some(Value::Int32(n)) => Ok(decimal(n as int)),
        Some(Value::Int64(n)) => Ok(decimal(n as int)),
        Some(Value::Double(_, shown)) => Ok(shown@),
        Some(_) => Err("Device field type not supported"@),
        None => Err("Device field not found"@),
    }
}

/// The message for an array that a document does not hold: the words of the
/// crate `bson` for a field that is there but no array, and for one that is
/// not there.
pub open spec fn access_failure(present: bool) -> Seq<char> {
    if present {
        "field does not have the expected type"@
    } else {
        "field is not present"@
    }
}

/// The `Display` text of `ValueAccessError::UnexpectedType` of the crate
/// `bson`, with which its `Document::get_array` fails on a field that is no
/// array.
#[verifier::external_body]
fn unexpected_type_text() -> (text: String)
    ensures
        text@ == access_failure(true),
{
    bson::document::ValueAccessError::UnexpectedType.to_string()
}

/// The `Display` text of `ValueAccessError::NotPresent` of the crate `bson`,
/// with which its `Document::get_array` fails on a field that is not there.
#[verifier::external_body]
fn not_present_text() -> (text: String)
    ensures
        text@ == access_failure(false),
{
    bson::document::ValueAccessError::NotPresent.to_string()
}

/// The coordinates of a document: the two binary64 numbers of the array in
/// its coordinates field, latitude behind longitude, or the other way round
/// where the order is flipped.
pub open spec fn coordinates_in(value: Option<Value>, flip_coordinates: bool) -> Result<
    Coordinates,
    Seq<char>,
> {
    match value {
        Some(Value::Array(items)) => {
            if items@.len() != 2 {
                Err("Coordinates size invalid"@)
            } else {
                let (lat, lng) = if flip_coordinates {
                    (items@[0], items@[1])
                } else {
                    (items@[1], items@[0])
                };
                match lat {
                    Item::Double(lat) => match lng {
                        Item::Double(lng) => Ok(Coordinates { lng, lat }),
                        _ => Err("Invalid type of longitude"@),
                    },
                    _ => Err("Invalid type of latitude"@),
                }
            }
        },
        Some(_) => Err(
            "Failed on access the `coordinates`: "@ + access_failure(true),
        ),
        None => Err(
            "Failed on access the `coordinates`: "@ + access_failure(false),
        ),
    }
}

/// The instant of a document: that of the timestamp of RFC 3339 in its time
/// field, or the instant there.
pub open spec fn instant_in(value: Option<Value>) -> Result<int, Seq<char>> {
    match value {
        Some(Value::Text(t)) => match rfc3339_nanos(t@) {
            Ok(nanos) => Ok(nanos),
            Err(why) => Err("Failed on parse the time: "@ + why),
        },
        Some(Value::DateTime(nanos)) => Ok(nanos as int),
        Some(Value::Timestamp(seconds)) => Ok(seconds * 1_000_000_000),
        Some(_) => Err("Time field type not supported"@),
        None => Err("Time field not found"@),
    }
}

/// The route of a document: the text or the number in its route field, or
/// the first of them where the field holds an array.
pub open spec fn route_in(value: Option<Value>) -> Option<Seq<char>> {
    match value {
        Some(Value::Text(t)) => Some(t@),
        Some(Value::Int32(n)) => Some(decimal(n as int)),
        Some(Value::Array(items)) => if items@.len() > 0 {
            match items@[0] {
                Item::Text(t) => Some(t@),
                Item::Int32(n) => Some(decimal(n as int)),
                _ => None,
            }
        } else {
            None
        },
        _ => None,
    }
}

/// The number in a field of a document, as a binary64 number.
pub open spec fn number_in(value: Option<Value>) -> Option<u64> {
    match value {
        Some(Value::Int32(n)) => Some(binary64_of_int(n as int) as u64),
        Some(Value::Double(bits, _)) => Some(bits),
        _ => None,
    }
}

/// The position that a document holds, or why it holds none.
pub open spec fn position_in(fields: FieldsConfigurationView, doc: Seq<Field>) -> Result<
    DevicePositionView,
    Seq<char>,
> {
    match device_in(value_of(doc, fields.device_id)) {
        Err(why) => Err(why),
        Ok(device_id) => match coordinates_in(
            value_of(doc, fields.coordinates),
            fields.flip_coordinates,
        ) {
            Err(why) => Err(why),
            Ok(coordinates) => match instant_in(value_of(doc, fields.time)) {
                Err(why) => Err(why),
                Ok(time) => Ok(
                    DevicePositionView {
                        device_id,
                        pos: RawPosition {
                            coordinates,
                            time: time as i128,
                            speed: number_in(value_of(doc, fields.speed)),
                            precision: None,
                            altitude: number_in(value_of(doc, fields.elevation)),
                        },
                        route_name: route_in(value_of(doc, fields.route)),
                        tracker: None,
                    },
                ),
            },
        },
    }
}

/// Whether `found` is what parsing makes of a document that holds `held`: the
/// position that it holds, or a failure with the reason why it holds none.
pub open spec fn is_parsed(
    found: Result<DevicePosition, String>,
    held: Result<DevicePositionView, Seq<char>>,
) -> bool {
    match held {
        Ok(p) => found is Ok && found->Ok_0@ == p,
        Err(why) => found is Err && found->Err_0@ == why,
    }
}

/// The coordinates in the array of a document.
fn read_coordinates(value: Option<&Value>, flip_coordinates: bool) -> (found: Result<
    Coordinates,
    String,
>)
    ensures
        match coordinates_in(
            match value {
                Some(v) => Some(*v),
                None => None::<Value>,
            },
            flip_coordinates,
        ) {
            Ok(c) => found == Ok::<Coordinates, String>(c),
            Err(why) => found is Err && found->Err_0@ == why,
        },
{
    let items: &Vec<Item> = match value {
        Some(Value::Array(items)) => items,
        Some(_) => {
            return Err(
                joined("Failed on access the `coordinates`: ", unexpected_type_text().as_str()),
            );
        },
        None => {
            return Err(
                joined("Failed on access the `coordinates`: ", not_present_text().as_str()),
            );
        },
    };
    if items.len() != 2 {
        return Err(String::from_str("Coordinates size invalid"));
    }
    let mut ilat: usize = 1;
    let mut ilng: usize = 0;
    if flip_coordinates {
        ilat = 0;
        ilng = 1;
    }
    let lat: u64 = match &items[ilat] {
        Item::Double(l) => *l,
        _ => {
            return Err(String::from_str("Invalid type of latitude"));
        },
    };
    let lng: u64 = match &items[ilng] {
        Item::Double(l) => *l,
        _ => {
            return Err(String::from_str("Invalid type of longitude"));
        },
    };
    Ok(Coordinates { lng, lat })
}

/// The number in a field of a document.
fn read_number(value: Option<&Value>) -> (number: Option<u64>)
    ensures
        number == number_in(
            match value {
                Some(v) => Some(*v),
                None => None::<Value>,
            },
        ),
{
    match value {
        Some(Value::Int32(n)) => Some(double_of_int(*n)),
        Some(Value::Double(bits, _)) => Some(*bits),
        _ => None,
    }
}

/// The route in a field of a document.
fn read_route(value: Option<&Value>) -> (route: Option<String>)
    ensures
        text_view(route) == route_in(
            match value {
                Some(v) => Some(*v),
                None => None::<Value>,
            },
        ),
{
    match value {
        Some(Value::Text(t)) => Some(t.clone()),
        Some(Value::Int32(n)) => Some(decimal_of(*n as i64)),
        Some(Value::Array(items)) => {
            if items.len() > 0 {
                match &items[0] {
                    Item::Text(t) => Some(t.clone()),
                    Item::Int32(n) => Some(decimal_of(*n as i64)),
                    _ => None,
                }
            } else {
                None
            }
        },
        _ => None,
    }
}

/// The position that a document holds.
///
/// The device may be a text or a number, which then counts as its text. The
/// coordinates are an array of two binary64 numbers. The time is a
/// timestamp of RFC 3339 or an instant. Route, speed and elevation may be
/// missing. A document without device, coordinates or time fails, and so
/// does one that holds them in another form.
pub fn parse_doc(fields: &FieldsConfiguration, doc: &Vec<Field>) -> (found: Result<
    DevicePosition,
    String,
>)
    ensures
        is_parsed(found, position_in(fields@, doc@)),
{
    let device_id: String = match get(doc, &fields.device_id) {
        Some(Value::Text(di)) => di.clone(),
        Some(Value::Int32(di)) => decimal_of(*di as i64),
        Some(Value::Int64(di)) => decimal_of(*di),
        Some(Value::Double(_, shown)) => shown.clone(),
        Some(_) => {
            return Err(String::from_str("Device field type not supported"));
        },
        None => {
            return Err(String::from_str("Device field not found"));
        },
    };
    let array = get(doc, &fields.coordinates);
    let coordinates = match read_coordinates(array, fields.flip_coordinates) {
        Ok(c) => c,
        Err(e) => {
            return Err(e);
        },
    };
    let time: i128 = match get(doc, &fields.time) {
        Some(Value::Text(tm)) => match parse_rfc3339(tm.as_str()) {
            Ok(nanos) => nanos,
            Err(e) => {
                return Err(joined("Failed on parse the time: ", e.as_str()));
            },
        },
        Some(Value::DateTime(nanos)) => *nanos,
        Some(Value::Timestamp(seconds)) => (*seconds as i128) * 1_000_000_000,
        Some(_) => {
            return Err(String::from_str("Time field type not supported"));
        },
        None => {
            return Err(String::from_str("Time field not found"));
        },
    };
    let mut dpos = DevicePosition::basic(device_id, coordinates, time);
    dpos.route_name = read_route(get(doc, &fields.route));
    dpos.pos.speed = read_number(get(doc, &fields.speed));
    dpos.pos.altitude = read_number(get(doc, &fields.elevation));
    Ok(dpos)
}

/// The message with which reading stops at what the store handed over for a
/// document; `None` where it holds a position.
pub open spec fn stop_at(
    fields: FieldsConfigurationView,
    handed: Result<StoredDocument, String>,
) -> Option<Seq<char>> {
    match handed {
        Err(e) => Some("Failed on read some doc: "@ + e@),
        Ok(doc) => match doc.id {
            Err(e) => Some("Failed on access the doc id: "@ + e@),
            Ok(id) => match position_in(fields, doc.fields@) {
                Ok(_) => None,
                Err(why) => Some("Error with doc "@ + id@ + ": "@ + why),
            },
        },
    }
}

/// Whether `found` is what reading makes of the documents: the positions
/// that they hold, one for each in their order, where each holds one, and
/// else the failure of the first that holds none.
pub open spec fn is_read(
    found: Result<Vec<DevicePosition>, String>,
    fields: FieldsConfigurationView,
    docs: Seq<Result<StoredDocument, String>>,
) -> bool {
    match found {
        Ok(positions) => positions@.len() == docs.len() && forall|i: int|
            0 <= i < docs.len() ==> stop_at(fields, #[trigger] docs[i]) is None && positions@[i]@
                == position_in(fields, docs[i]->Ok_0.fields@)->Ok_0,
        Err(e) => exists|k: int|
            0 <= k < docs.len() && (forall|i: int|
                0 <= i < k ==> stop_at(fields, #[trigger] docs[i]) is None) && stop_at(
                fields,
                #[trigger] docs[k],
            ) == Some(e@),
    }
}

/// The message for a document that holds no position.
fn refused(id: &str, why: &str) -> (text: String)
    ensures
        text@ == "Error with doc "@ + id@ + ": "@ + why@,
{
    let mut text = joined("Error with doc ", id);
    text.append(": ");
    text.append(why);
    text
}

/// The positions that documents hold, in the order of the documents. It
/// fails at the first document that could not be read, has no identifier, or
/// holds no position.
pub fn read_documents(
    fields: &FieldsConfiguration,
    docs: &Vec<Result<StoredDocument, String>>,
) -> (found: Result<Vec<DevicePosition>, String>)
    ensures
        is_read(found, fields@, docs@),
{
    let mut pos: Vec<DevicePosition> = Vec::new();
    let mut i: usize = 0;
    while i < docs.len()
        invariant
            i <= docs.len(),
            pos.len() == i,
            forall|k: int|
                0 <= k < i ==> stop_at(fields@, #[trigger] docs[k]) is None && pos[k]@
                    == position_in(fields@, docs[k]->Ok_0.fields@)->Ok_0,
        decreases docs.len() - i,
    {
        let doc: &StoredDocument = match &docs[i] {
            Ok(doc) => doc,
            Err(e) => {
                let failure = Err(joined("Failed on read some doc: ", e.as_str()));
                proof {
                    assert(stop_at(fields@, docs[i as int]) is Some);
                }
                return failure;
            },
        };
        let id: &String = match &doc.id {
            Ok(id) => id,
            Err(e) => {
                let failure = Err(joined("Failed on access the doc id: ", e.as_str()));
                proof {
                    assert(stop_at(fields@, docs[i as int]) is Some);
                }
                return failure;
            },
        };
        match parse_doc(fields, &doc.fields) {
            Ok(dpos) => {
                pos.push(dpos);
            },
            Err(e) => {
                let text = refused(id.as_str(), e.as_str());
                proof {
                    assert(stop_at(fields@, docs[i as int]) is Some);
                }
                return Err(text);
            },
        }
        i = i + 1;
    }
    Ok(pos)
}

} // verus!
