//! End-to-end tests of the definition pipeline: loading text into typed
//! records and serializing them back.

use schema_loader::engine::{build_definition, definition_to_value, serialize_definition};
use schema_loader::schema::Schematize;
use schema_loader::records::{Data, DataType, InnerData, ParserData, Wrapper};
use schema_loader::value::SchemaValue;

#[test]
fn loads_a_flat_record() {
    let def = build_definition::<Data>("{ point: [1, 2, 3] }").unwrap();
    assert_eq!(def.get_definition().point, [1, 2, 3]);
}

#[test]
fn serializes_a_flat_record_exactly() {
    let def = build_definition::<Data>("{ point: [1, 2, 3] }").unwrap();
    let text = serialize_definition(&def);
    assert_eq!(text, "{\n  point: [\n    1,\n    2,\n    3\n  ]\n}");
}

#[test]
fn loads_nested_records_and_strings() {
    let text = "{\n  s: \"hello\"\n  inner: { flag: true, type_enum: Secondary }\n  point: [ [ \"a\", \"bc\" ], [] ]\n  inners: [ [ { flag: false, type_enum: Primary } ] ]\n}";
    let def = build_definition::<ParserData>(text).unwrap();
    let record = def.get_definition();
    let block = def.get_block_handle();
    assert_eq!(record.s.as_str(block).unwrap(), "hello");
    assert!(record.inner.flag);
    assert!(matches!(record.inner.type_enum, DataType::Secondary));
    let rows = record.point.as_slice(block).unwrap();
    assert_eq!(rows.len(), 2);
    let first_row = rows[0].as_slice(block).unwrap();
    assert_eq!(first_row.len(), 2);
    assert_eq!(first_row[0].as_str(block).unwrap(), "a");
    assert_eq!(first_row[1].as_str(block).unwrap(), "bc");
    assert!(rows[1].as_slice(block).is_none());
    assert_eq!(rows[1].len(), 0);
    let inner_rows = record.inners.as_slice(block).unwrap();
    let inner_row = inner_rows[0].as_slice(block).unwrap();
    assert_eq!(inner_row.len(), 1);
    assert!(!inner_row[0].flag);
    assert!(matches!(inner_row[0].type_enum, DataType::Primary));
}

#[test]
fn loads_enum_payloads() {
    let text = "{ flag: true, type_enum: Tertiary { { string: [ { s: \"x\" }, { s: \"yz\" } ] } } }";
    let def = build_definition::<InnerData>(text).unwrap();
    let record = def.get_definition();
    let block = def.get_block_handle();
    match &record.type_enum {
        DataType::Tertiary(payload) => {
            let wrappers = payload.string.as_slice(block).unwrap();
            assert_eq!(wrappers.len(), 2);
            assert_eq!(wrappers[0].s.as_str(block).unwrap(), "x");
            assert_eq!(wrappers[1].s.as_str(block).unwrap(), "yz");
        },
        _ => panic!("expected the payload-carrying variant"),
    }
}

#[test]
fn round_trips_text_to_a_fixed_point() {
    let text = "{\n  s: \"hello there\"\n  inner: { flag: true, type_enum: Tertiary { { string: [ { s: \"abc\" } ] } } }\n  point: [ [ \"a\" ], [ \"b\", \"c\" ] ]\n  inners: [ [ { flag: false, type_enum: Primary }, { flag: true, type_enum: Secondary } ] ]\n}";
    let first = build_definition::<ParserData>(text).unwrap();
    let once = serialize_definition(&first);
    let second = build_definition::<ParserData>(&once).unwrap();
    let twice = serialize_definition(&second);
    assert_eq!(once, twice);
}

#[test]
fn round_trips_every_scalar_field_value() {
    let text = "{ point: [ -5, 0, 2147483647 ] }";
    // negative literals never tokenize, so build the record another way:
    // integers from the text stay nonnegative, the round trip is exact
    let positive = "{ point: [ 5, 0, 2147483647 ] }";
    assert!(build_definition::<Data>(text).is_err());
    let def = build_definition::<Data>(positive).unwrap();
    let reloaded = build_definition::<Data>(&serialize_definition(&def)).unwrap();
    assert_eq!(def.get_definition().point, reloaded.get_definition().point);
}

#[test]
fn non_ascii_strings_survive_the_arena() {
    let def = build_definition::<Wrapper>("{ s: \"να ζει κανείς\" }").unwrap();
    let text = serialize_definition(&def);
    assert_eq!(text, "{\n  s: \"να ζει κανείς\"\n}");
    assert_eq!(
        def.get_definition().s.as_str(def.get_block_handle()).unwrap(),
        "να ζει κανείς"
    );
}

#[test]
fn empty_string_makes_a_null_view() {
    let def = build_definition::<Wrapper>("{ s: \"\" }").unwrap();
    assert!(def.get_definition().s.as_str(def.get_block_handle()).is_none());
}

#[test]
fn definition_value_reads_back_the_parsed_shape() {
    let def = build_definition::<InnerData>("{ flag: false, type_enum: Primary }").unwrap();
    let value = definition_to_value(&def, 64);
    match value {
        SchemaValue::Object(fields) => {
            assert_eq!(fields.len(), 2);
            assert_eq!(fields[0].0, "flag");
            assert!(matches!(fields[0].1, SchemaValue::Bool(false)));
            assert_eq!(fields[1].0, "type_enum");
            match &fields[1].1 {
                SchemaValue::EnumVariant(name, payload) => {
                    assert_eq!(name, "Primary");
                    assert!(matches!(**payload, SchemaValue::Null));
                },
                _ => panic!("expected an enum variant"),
            }
        },
        _ => panic!("expected an object"),
    }
}

#[test]
fn default_records_honor_field_overrides() {
    let record = InnerData::schema_default();
    assert!(!record.flag);
    assert!(matches!(record.type_enum, DataType::Secondary));
    let data = Data::schema_default();
    assert_eq!(data.point, [0, 0, 0]);
}
