use fixed_record::schema::{
    collect_field_meta, extract_fixed_len, parse_clear_byte, parse_decimal, parse_macro_args, ClearByteArg,
    FieldInput, FieldTypeArg, LenArg, MacroArg, MacroName, MacroOptions, SchemaError, StructInput, TypeArgs,
};

fn fixed(digits: &str) -> FieldTypeArg {
    FieldTypeArg::Path {
        last: Some("Fixed".to_string()),
        args: TypeArgs::Const(LenArg::Int { negative: false, digits: digits.to_string() }),
    }
}

fn field(name: &str, ty: FieldTypeArg) -> FieldInput {
    FieldInput { name: Some(name.to_string()), ty }
}

#[test]
fn clear_byte_names_and_literals() {
    assert_eq!(parse_clear_byte(&ClearByteArg::Name("ZERO".to_string())), Ok(0));
    assert_eq!(parse_clear_byte(&ClearByteArg::Name("SPACE".to_string())), Ok(b' '));
    assert_eq!(
        parse_clear_byte(&ClearByteArg::Name("TAB".to_string())),
        Err(SchemaError::ClearByteKind)
    );
    assert_eq!(parse_clear_byte(&ClearByteArg::OtherPath), Err(SchemaError::ClearByteKind));
    assert_eq!(parse_clear_byte(&ClearByteArg::Byte(b'*')), Ok(b'*'));
    assert_eq!(parse_clear_byte(&ClearByteArg::Int("0".to_string())), Ok(0));
    assert_eq!(parse_clear_byte(&ClearByteArg::Int("255".to_string())), Ok(255));
    assert_eq!(
        parse_clear_byte(&ClearByteArg::Int("256".to_string())),
        Err(SchemaError::ClearByteValue)
    );
    assert_eq!(parse_clear_byte(&ClearByteArg::Other), Err(SchemaError::ClearByteKind));
}

#[test]
fn macro_args_default_and_last_clear_byte_wins() {
    assert_eq!(parse_macro_args(&Vec::new(), b' '), Ok(MacroOptions { clear_byte: b' ' }));
    assert_eq!(MacroOptions::default(), MacroOptions { clear_byte: b' ' });
    let args = vec![
        MacroArg { name: "clear_byte".to_string(), value: ClearByteArg::Name("ZERO".to_string()) },
        MacroArg { name: "clear_byte".to_string(), value: ClearByteArg::Int("42".to_string()) },
    ];
    assert_eq!(parse_macro_args(&args, b' '), Ok(MacroOptions { clear_byte: 42 }));
    let bad = vec![MacroArg { name: "fill".to_string(), value: ClearByteArg::Byte(0) }];
    assert_eq!(parse_macro_args(&bad, 0), Err(SchemaError::UnsupportedOption));
    assert_eq!(SchemaError::UnsupportedOption.message(MacroName::FixedRecord), "unsupported fixed_record option");
}

#[test]
fn fixed_lengths_and_their_errors() {
    assert_eq!(extract_fixed_len(&fixed("8")), Ok(8));
    assert_eq!(extract_fixed_len(&fixed("0")), Err(SchemaError::ZeroLength));
    assert_eq!(
        extract_fixed_len(&fixed("99999999999999999999999")),
        Err(SchemaError::InvalidLength)
    );
    assert_eq!(extract_fixed_len(&FieldTypeArg::Other), Err(SchemaError::NotFixed));
    assert_eq!(
        extract_fixed_len(&FieldTypeArg::Path { last: Some("u8".to_string()), args: TypeArgs::Absent }),
        Err(SchemaError::NotFixed)
    );
    assert_eq!(
        extract_fixed_len(&FieldTypeArg::Path { last: Some("Fixed".to_string()), args: TypeArgs::Absent }),
        Err(SchemaError::MissingLength)
    );
    assert_eq!(
        extract_fixed_len(&FieldTypeArg::Path { last: Some("Fixed".to_string()), args: TypeArgs::NotConst }),
        Err(SchemaError::LengthNotLiteral)
    );
    assert_eq!(
        extract_fixed_len(&FieldTypeArg::Path {
            last: Some("Fixed".to_string()),
            args: TypeArgs::Const(LenArg::Negated),
        }),
        Err(SchemaError::NegativeLength)
    );
    assert_eq!(
        extract_fixed_len(&FieldTypeArg::Path {
            last: Some("Fixed".to_string()),
            args: TypeArgs::Const(LenArg::Int { negative: true, digits: "3".to_string() }),
        }),
        Err(SchemaError::NegativeLength)
    );
}

#[test]
fn field_meta_offsets_and_variant_names() {
    let input = StructInput::Named(vec![
        field("user_id", fixed("8")),
        field("name", fixed("16")),
        field("age", fixed("3")),
    ]);
    let metas = collect_field_meta(&input).unwrap();
    let offsets: Vec<usize> = metas.iter().map(|m| m.offset).collect();
    let sizes: Vec<usize> = metas.iter().map(|m| m.size).collect();
    let variants: Vec<String> = metas.iter().map(|m| m.variant.clone()).collect();
    assert_eq!(offsets, vec![0, 8, 24]);
    assert_eq!(sizes, vec![8, 16, 3]);
    assert_eq!(variants, vec!["UserId", "Name", "Age"]);
    assert_eq!(metas[0].name, "user_id");
}

#[test]
fn field_meta_reports_the_first_refused_field() {
    let input = StructInput::Named(vec![
        field("a", fixed("2")),
        field("b", FieldTypeArg::Other),
        FieldInput { name: None, ty: fixed("1") },
    ]);
    assert!(matches!(collect_field_meta(&input), Err(SchemaError::NotFixed)));
    assert!(matches!(collect_field_meta(&StructInput::Unnamed), Err(SchemaError::NotNamedFields)));
    assert!(matches!(collect_field_meta(&StructInput::NotStruct), Err(SchemaError::NotStruct)));
    let unnamed = StructInput::Named(vec![FieldInput { name: None, ty: fixed("1") }]);
    assert!(matches!(collect_field_meta(&unnamed), Err(SchemaError::UnnamedField)));
}

#[test]
fn decimal_parsing_limits() {
    assert_eq!(parse_decimal(b"0042", 255), Some(42));
    assert_eq!(parse_decimal(b"", 255), None);
    assert_eq!(parse_decimal(b"4x", 255), None);
    assert_eq!(parse_decimal(b"18446744073709551615", u64::MAX), Some(u64::MAX));
    assert_eq!(parse_decimal(b"18446744073709551616", u64::MAX), None);
}

fn user_with(ty: FieldTypeArg) -> StructInput {
    StructInput::Named(vec![field("id", ty)])
}

fn fixed_with(args: TypeArgs) -> FieldTypeArg {
    FieldTypeArg::Path { last: Some("Fixed".to_string()), args }
}

// Record declarations that the schema refuses, each with its own error.
// Misuse of the list API or of private items is refused by the type checker
// and has no schema counterpart.
#[test]
fn fixed_record_reports_friendly_input_errors() {
    // an enum in place of a struct
    assert!(matches!(collect_field_meta(&StructInput::NotStruct), Err(SchemaError::NotStruct)));
    // a tuple struct
    assert!(matches!(collect_field_meta(&StructInput::Unnamed), Err(SchemaError::NotNamedFields)));
    // `id: String`
    let string_field = FieldTypeArg::Path { last: Some("String".to_string()), args: TypeArgs::Absent };
    assert!(matches!(collect_field_meta(&user_with(string_field)), Err(SchemaError::NotFixed)));
    // `Fixed<{ 8 }>`
    let block_len = fixed_with(TypeArgs::Const(LenArg::Other));
    assert!(matches!(collect_field_meta(&user_with(block_len)), Err(SchemaError::LengthNotLiteral)));
    // `Fixed<0>`
    assert!(matches!(collect_field_meta(&user_with(fixed("0"))), Err(SchemaError::ZeroLength)));
    // `Fixed<-1>`
    let negative = fixed_with(TypeArgs::Const(LenArg::Negated));
    assert!(matches!(collect_field_meta(&user_with(negative)), Err(SchemaError::NegativeLength)));
    // `clear_byte = TAB`
    let tab = vec![MacroArg { name: "clear_byte".to_string(), value: ClearByteArg::Name("TAB".to_string()) }];
    assert_eq!(parse_macro_args(&tab, b' '), Err(SchemaError::ClearByteKind));
    // a well-formed declaration is accepted
    let metas = collect_field_meta(&user_with(fixed("8"))).unwrap();
    assert_eq!(metas.len(), 1);
    assert_eq!(metas[0].size, 8);
}

#[test]
fn fixed_record_main_reports_friendly_input_errors() {
    assert!(matches!(collect_field_meta(&StructInput::NotStruct), Err(SchemaError::NotStruct)));
    assert!(matches!(collect_field_meta(&StructInput::Unnamed), Err(SchemaError::NotNamedFields)));
    let string_field = FieldTypeArg::Path { last: Some("String".to_string()), args: TypeArgs::Absent };
    assert!(matches!(collect_field_meta(&user_with(string_field)), Err(SchemaError::NotFixed)));
    let block_len = fixed_with(TypeArgs::Const(LenArg::Other));
    assert!(matches!(collect_field_meta(&user_with(block_len)), Err(SchemaError::LengthNotLiteral)));
    // the same options parse with the zero default of this variant
    assert_eq!(parse_macro_args(&Vec::new(), 0), Ok(MacroOptions { clear_byte: 0 }));
}

#[test]
fn overflow_messages_carry_the_parse_reason() {
    assert_eq!(
        SchemaError::ClearByteValue.message(MacroName::FixedRecord),
        "invalid clear_byte value: number too large to fit in target type"
    );
    assert_eq!(
        SchemaError::InvalidLength.message(MacroName::FixedRecordMain),
        "invalid Fixed<N> length: number too large to fit in target type"
    );
}

#[test]
fn messages_name_the_macro_they_come_from() {
    assert_eq!(SchemaError::NotFixed.message(MacroName::FixedRecordMain), "fixed_record_main fields must be Fixed<N>");
    assert_eq!(SchemaError::NotFixed.message(MacroName::FixedRecord), "fixed_record fields must be Fixed<N>");
    assert_eq!(
        SchemaError::NotStruct.message(MacroName::FixedRecordMain),
        "fixed_record_main can only be used on structs"
    );
    assert_eq!(SchemaError::ZeroLength.message(MacroName::FixedRecordMain), "Fixed<N> length must be greater than 0");
    assert_eq!(
        SchemaError::MissingLength.message(MacroName::FixedRecord),
        "Fixed field must specify a byte length, for example Fixed<8>"
    );
}
