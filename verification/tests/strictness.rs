//! Tests of the writing pass's validation: structural strictness, bounds
//! checking, fixed-size arrays, enum fidelity and empty containers.

use schema_loader::block::allocate_block;
use schema_loader::layout::Layout;
use schema_loader::records::{Data, DataType, InnerData};
use schema_loader::schema::{DeserializeContext, Schematize};
use schema_loader::schema_array::SchemaArray;
use schema_loader::schema_string::SchemaString;
use schema_loader::value::{SchemaError, SchemaValue};

fn fresh_context() -> DeserializeContext {
    DeserializeContext {
        block: allocate_block(Layout { size: 256, align: 8 }),
        offsets: Vec::new(),
        offset_index: 0,
        path: Vec::new(),
    }
}

fn object(fields: Vec<(&str, SchemaValue)>) -> SchemaValue {
    SchemaValue::Object(
        fields.into_iter().map(|(name, value)| (name.to_string(), value)).collect(),
    )
}

#[test]
fn missing_field_is_rejected() {
    let mut context = fresh_context();
    let value = object(vec![("flag", SchemaValue::Bool(true))]);
    let outcome = <InnerData as Schematize>::deserialize(&value, &mut context);
    assert_eq!(outcome.err(), Some(SchemaError::MissingField));
}

#[test]
fn extra_field_is_rejected() {
    let mut context = fresh_context();
    let value = object(vec![
        ("flag", SchemaValue::Bool(true)),
        (
            "type_enum",
            SchemaValue::EnumVariant("Primary".to_string(), Box::new(SchemaValue::Null)),
        ),
        ("surplus", SchemaValue::Integer(3)),
    ]);
    let outcome = <InnerData as Schematize>::deserialize(&value, &mut context);
    assert_eq!(outcome.err(), Some(SchemaError::UnknownIdentifier));
}

#[test]
fn exact_fields_are_accepted() {
    let mut context = fresh_context();
    let value = object(vec![
        ("flag", SchemaValue::Bool(true)),
        (
            "type_enum",
            SchemaValue::EnumVariant("Primary".to_string(), Box::new(SchemaValue::Null)),
        ),
    ]);
    let record = <InnerData as Schematize>::deserialize(&value, &mut context).unwrap();
    assert!(record.flag);
    assert!(matches!(record.type_enum, DataType::Primary));
}

#[test]
fn eight_bit_bounds_are_checked() {
    let mut context = fresh_context();
    let over = <u8 as Schematize>::deserialize(&SchemaValue::Integer(300), &mut context);
    assert_eq!(over.err(), Some(SchemaError::NumberOutOfBounds));
    let fits = <u8 as Schematize>::deserialize(&SchemaValue::Integer(200), &mut context);
    assert_eq!(fits, Ok(200u8));
    let negative = <u8 as Schematize>::deserialize(&SchemaValue::Integer(-1), &mut context);
    assert_eq!(negative.err(), Some(SchemaError::NumberOutOfBounds));
    let top = <u8 as Schematize>::deserialize(&SchemaValue::Integer(255), &mut context);
    assert_eq!(top, Ok(255u8));
    let past = <u8 as Schematize>::deserialize(&SchemaValue::Integer(256), &mut context);
    assert_eq!(past.err(), Some(SchemaError::NumberOutOfBounds));
}

#[test]
fn decimal_literals_fit_no_integer_field() {
    let mut context = fresh_context();
    let outcome = <i32 as Schematize>::deserialize(
        &SchemaValue::Decimal("3.5".to_string()),
        &mut context,
    );
    assert_eq!(outcome.err(), Some(SchemaError::WrongSchemaValue));
}

#[test]
fn thirty_two_bit_bounds_are_checked() {
    let mut context = fresh_context();
    let over = <i32 as Schematize>::deserialize(
        &SchemaValue::Integer(2_147_483_648),
        &mut context,
    );
    assert_eq!(over.err(), Some(SchemaError::NumberOutOfBounds));
    let fits = <i32 as Schematize>::deserialize(
        &SchemaValue::Integer(-2_147_483_648),
        &mut context,
    );
    assert_eq!(fits, Ok(i32::MIN));
}

#[test]
fn wrong_value_kind_is_rejected() {
    let mut context = fresh_context();
    let not_a_bool = <bool as Schematize>::deserialize(&SchemaValue::Integer(1), &mut context);
    assert_eq!(not_a_bool.err(), Some(SchemaError::WrongSchemaValue));
    let not_a_string = <SchemaString as Schematize>::deserialize(
        &SchemaValue::Integer(1),
        &mut context,
    );
    assert_eq!(not_a_string.err(), Some(SchemaError::WrongSchemaValue));
}

#[test]
fn wrong_sized_fixed_array_is_rejected() {
    let mut context = fresh_context();
    let two = SchemaValue::Array(vec![SchemaValue::Integer(1), SchemaValue::Integer(2)]);
    let outcome = <[i32; 3] as Schematize>::deserialize(&two, &mut context);
    assert_eq!(outcome.err(), Some(SchemaError::WrongSizedArray));
    let text = "{ point: [1, 2] }";
    assert!(build_fails(text));
}

fn build_fails(text: &str) -> bool {
    schema_loader::engine::build_definition::<Data>(text).is_err()
}

#[test]
fn known_enum_variant_is_accepted() {
    let mut context = fresh_context();
    let value = SchemaValue::EnumVariant("Secondary".to_string(), Box::new(SchemaValue::Null));
    let variant = <DataType as Schematize>::deserialize(&value, &mut context).unwrap();
    assert!(matches!(variant, DataType::Secondary));
}

#[test]
fn unknown_enum_variant_is_rejected() {
    let mut context = fresh_context();
    let value = SchemaValue::EnumVariant("Bogus".to_string(), Box::new(SchemaValue::Null));
    let outcome = <DataType as Schematize>::deserialize(&value, &mut context);
    assert_eq!(outcome.err(), Some(SchemaError::UnknownIdentifier));
}

#[test]
fn empty_array_consumes_no_arena_bytes_and_no_table_entry() {
    // sizing: an empty array extends nothing and appends no offset
    let empty = SchemaValue::Array(Vec::new());
    let base = Layout { size: 40, align: 8 };
    let mut offsets: Vec<usize> = Vec::new();
    let sized = <SchemaArray<SchemaString> as Schematize>::build_layout(
        &empty,
        base,
        &mut offsets,
    )
    .unwrap();
    assert_eq!(sized, base);
    assert_eq!(offsets.len(), 0);
    // writing: an empty array deserializes to the zero-length null view
    let mut context = fresh_context();
    let view = <SchemaArray<SchemaString> as Schematize>::deserialize(&empty, &mut context)
        .unwrap();
    assert_eq!(view.len(), 0);
    assert_eq!(context.offset_index, 0);
    assert!(view.as_slice(&context.block).is_none());
}

#[test]
fn field_errors_carry_a_dotted_path() {
    let mut context = fresh_context();
    context.path.push(".inner".to_string());
    context.path.push(".point".to_string());
    context.path.push("[2]".to_string());
    assert_eq!(context.get_path(), "inner.point[2]");
}
