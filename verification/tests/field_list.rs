use ecs_core::field_list::parse_schema;
use ecs_core::FieldType;

#[test]
fn parses_mixed_field_list_in_order() {
    let schema = parse_schema("Stats", "base:f32,flat:i32, count : u16 ,alive:bool").ok().unwrap().build();
    assert_eq!(schema.name, "Stats");
    assert_eq!(schema.fields.len(), 4);
    assert_eq!(schema.fields[0].name, "base");
    assert_eq!(schema.fields[0].field_type, FieldType::F32);
    assert_eq!(schema.fields[0].offset, 0);
    assert_eq!(schema.fields[1].name, "flat");
    assert_eq!(schema.fields[1].field_type, FieldType::I32);
    assert_eq!(schema.fields[1].offset, 4);
    assert_eq!(schema.fields[2].name, "count");
    assert_eq!(schema.fields[2].field_type, FieldType::U16);
    assert_eq!(schema.fields[2].offset, 8);
    assert_eq!(schema.fields[3].name, "alive");
    assert_eq!(schema.fields[3].field_type, FieldType::Bool);
    assert_eq!(schema.fields[3].offset, 10);
    assert_eq!(schema.size, 11);
}

#[test]
fn entity_reference_relation() {
    let schema = parse_schema("Owner", "id:u32,generation:u32").ok().unwrap().build();
    assert_eq!(schema.size, 8);
    assert_eq!(schema.fields[1].name, "generation");
    assert_eq!(schema.fields[1].offset, 4);
}

#[test]
fn missing_type_defaults_to_f32() {
    let schema = parse_schema("Health", "value").ok().unwrap().build();
    assert_eq!(schema.fields.len(), 1);
    assert_eq!(schema.fields[0].name, "value");
    assert_eq!(schema.fields[0].field_type, FieldType::F32);
    assert_eq!(schema.size, 4);
}

#[test]
fn empty_entries_and_white_space_are_skipped() {
    let schema = parse_schema("P", " ,x:f64,, \t ,y:u8,").ok().unwrap().build();
    assert_eq!(schema.fields.len(), 2);
    assert_eq!(schema.fields[0].name, "x");
    assert_eq!(schema.fields[0].field_type, FieldType::F64);
    assert_eq!(schema.fields[1].name, "y");
    assert_eq!(schema.fields[1].field_type, FieldType::U8);
    assert_eq!(schema.fields[1].offset, 8);
    assert_eq!(schema.size, 9);
}

#[test]
fn empty_list_has_no_fields() {
    let schema = parse_schema("Tag", "").ok().unwrap().build();
    assert_eq!(schema.fields.len(), 0);
    assert_eq!(schema.size, 0);
}

#[test]
fn only_the_first_colon_separates_name_and_type() {
    let e = parse_schema("Odd", "a:u8:u8").err().unwrap();
    assert_eq!(e.field, "a");
    assert_eq!(e.given, "u8:u8");
}

#[test]
fn unknown_type_reports_the_first_bad_entry() {
    let e = parse_schema("Bad", "ok:u64, speed : float ,later:vec3").err().unwrap();
    assert_eq!(e.field, "speed");
    assert_eq!(e.given, "float");
}

#[test]
fn every_known_type_name() {
    let schema = parse_schema("All", "a:f32,b:f64,c:i8,d:i16,e:i32,f:i64,g:u8,h:u16,i:u32,j:u64,k:bool").ok().unwrap().build();
    let types: Vec<FieldType> = schema.fields.iter().map(|f| f.field_type).collect();
    assert_eq!(
        types,
        vec![
            FieldType::F32,
            FieldType::F64,
            FieldType::I8,
            FieldType::I16,
            FieldType::I32,
            FieldType::I64,
            FieldType::U8,
            FieldType::U16,
            FieldType::U32,
            FieldType::U64,
            FieldType::Bool
        ]
    );
    assert_eq!(schema.size, 4 + 8 + 1 + 2 + 4 + 8 + 1 + 2 + 4 + 8 + 1);
}
