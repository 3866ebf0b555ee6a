use fragstrings::codec::{decode, encode, frag_format, frag_parse, EncodeError, Field, FormatError, Value};
use fragstrings::fmt_strings::{
    compile_descriptor, has_optional_items, rebuild_format_string, DescriptorError, FormatEnding,
    FormatItem, FormatItemOpt, FormatItemType, FormatString,
};

fn schema_for(fmt: &str) -> FormatString {
    compile_descriptor(fmt).expect("a valid descriptor")
}

fn text(s: &str) -> Value {
    Value::Str(s.to_string())
}

#[test]
fn round_trip_all_mandatory() {
    let schema = schema_for("%s%d%s%d");
    let values = vec![text("alpha"), Value::Int(-17), text(""), Value::Int(i64::MAX)];
    let encoded = encode(&schema, &values).unwrap();
    assert_eq!(encoded, "%s%d%s%d__alpha__-17____9223372036854775807");
    assert_eq!(
        decode(&schema, &encoded),
        Some(vec![
            Field::Str("alpha".to_string()),
            Field::Int(-17),
            Field::Str(String::new()),
            Field::Int(i64::MAX)
        ])
    );
}

#[test]
fn round_trip_extreme_integers() {
    let schema = schema_for("%d%d%d");
    let values = vec![Value::Int(i64::MIN), Value::Int(0), Value::Int(-1)];
    let encoded = encode(&schema, &values).unwrap();
    assert_eq!(encoded, "%d%d%d__-9223372036854775808__0__-1");
    assert_eq!(
        decode(&schema, &encoded),
        Some(vec![Field::Int(i64::MIN), Field::Int(0), Field::Int(-1)])
    );
}

#[test]
fn round_trip_breaks_on_trailing_underscore() {
    // a string value that ends in `_` merges with the delimiter after it
    let schema = schema_for("%s%s");
    let encoded = encode(&schema, &vec![text("a_"), text("b")]).unwrap();
    assert_eq!(encoded, "%s%s__a___b");
    assert_eq!(
        decode(&schema, &encoded),
        Some(vec![Field::Str("a".to_string()), Field::Str("_b".to_string())])
    );
}

#[test]
fn compile_errors() {
    assert_eq!(compile_descriptor(""), Err(DescriptorError::Empty));
    assert_eq!(compile_descriptor("%s?"), Err(DescriptorError::LeadingOptional));
    assert_eq!(compile_descriptor("%s?%d"), Err(DescriptorError::MandatoryAfterOptional));
    assert_eq!(compile_descriptor("%x"), Err(DescriptorError::InvalidCharacter));
    assert_eq!(compile_descriptor("%"), Err(DescriptorError::InvalidCharacter));
    assert_eq!(compile_descriptor("%s "), Err(DescriptorError::InvalidCharacter));
    assert_eq!(compile_descriptor("*%s"), Err(DescriptorError::MisplacedWildcard));
    assert_eq!(compile_descriptor("%s**"), Err(DescriptorError::MisplacedWildcard));
    assert_eq!(compile_descriptor("*"), Err(DescriptorError::WildcardWithNoItems));
}

#[test]
fn compile_open_descriptor() {
    let schema = schema_for("%s%d*");
    assert_eq!(
        schema,
        FormatString(
            vec![
                FormatItem(FormatItemType::Str, FormatItemOpt::Mandatory),
                FormatItem(FormatItemType::Int, FormatItemOpt::Mandatory)
            ],
            FormatEnding::Open
        )
    );
}

#[test]
fn decode_single_integer() {
    let schema = schema_for("%d");
    assert_eq!(decode(&schema, "%d__42"), Some(vec![Field::Int(42)]));
    assert_eq!(decode(&schema, "%d__"), None);
    assert_eq!(decode(&schema, "%d__foo"), None);
    assert_eq!(decode(&schema, "%d__+7"), Some(vec![Field::Int(7)]));
    assert_eq!(decode(&schema, "%d__-0"), Some(vec![Field::Int(0)]));
    assert_eq!(decode(&schema, "%d__-"), None);
    assert_eq!(decode(&schema, "%d__9223372036854775808"), None);
    assert_eq!(decode(&schema, "%d__-9223372036854775809"), None);
    assert_eq!(decode(&schema, "%d__ 1"), None);
}

#[test]
fn decode_field_count() {
    let schema = schema_for("%d%s");
    assert_eq!(decode(&schema, "%d%s__42"), None);
    assert_eq!(decode(&schema, "%d%s__42__foo__bar"), None);
    assert_eq!(
        decode(&schema, "%d%s__42__foo"),
        Some(vec![Field::Int(42), Field::Str("foo".to_string())])
    );
}

#[test]
fn decode_open_ending() {
    let schema = schema_for("%s%d*");
    assert_eq!(
        decode(&schema, "%s%d%s%s__a__1__b__c"),
        Some(vec![Field::Str("a".to_string()), Field::Int(1)])
    );
}

#[test]
fn decode_optional() {
    let schema = schema_for("%s%d?");
    assert_eq!(decode(&schema, "%s__a"), Some(vec![Field::Str("a".to_string()), Field::Absent]));
    assert_eq!(
        decode(&schema, "%s%d__a__5"),
        Some(vec![Field::Str("a".to_string()), Field::Present(Value::Int(5))])
    );
    // an optional integer that does not read as one fails the whole decode
    assert_eq!(decode(&schema, "%s%d__a__x"), None);
}

#[test]
fn decode_pattern_is_a_prefix_when_relaxed() {
    // with optional items the first fragment need only start with the prefix
    let schema = schema_for("%s%d?");
    assert_eq!(
        decode(&schema, "%s%s__a__7"),
        Some(vec![Field::Str("a".to_string()), Field::Present(Value::Int(7))])
    );
    assert_eq!(decode(&schema, "%d__a"), None);
    // without them it must be equal
    assert_eq!(decode(&schema_for("%s"), "%s%s__a"), None);
}

#[test]
fn encode_optional_slots() {
    let schema = schema_for("%s%d?");
    assert_eq!(encode(&schema, &vec![text("a"), Value::Int(5)]), Ok("%s__a__5".to_string()));
    assert_eq!(encode(&schema, &vec![text("a")]), Err(EncodeError::ArgCountMismatch));
}

#[test]
fn encode_errors() {
    let schema = schema_for("%s%d");
    assert_eq!(encode(&schema, &vec![]), Err(EncodeError::ArgCountMismatch));
    assert_eq!(
        encode(&schema, &vec![text("a"), Value::Int(1), Value::Int(2)]),
        Err(EncodeError::ArgCountMismatch)
    );
    assert_eq!(
        encode(&schema, &vec![Value::Int(1), Value::Int(2)]),
        Err(EncodeError::TypeConversionFailed)
    );
    assert_eq!(
        encode(&schema, &vec![text("a"), text("b")]),
        Err(EncodeError::TypeConversionFailed)
    );
}

#[test]
fn encode_open_descriptor() {
    assert_eq!(frag_format("%d*", &vec![Value::Int(42)]), Ok("%d__42".to_string()));
}

#[test]
fn frag_format_errors() {
    assert_eq!(
        frag_format("%q", &vec![Value::Int(1)]),
        Err(FormatError::Descriptor(DescriptorError::InvalidCharacter))
    );
    assert_eq!(
        frag_format("%d%d", &vec![Value::Int(42)]),
        Err(FormatError::Encode(EncodeError::ArgCountMismatch))
    );
}

#[test]
fn frag_parse_errors() {
    assert_eq!(frag_parse("", "%s__a"), Err(DescriptorError::Empty));
    assert_eq!(frag_parse("%s", "%s__a"), Ok(Some(vec![Field::Str("a".to_string())])));
    assert_eq!(frag_parse("%s", "%d__a"), Ok(None));
}

#[test]
fn mandatory_prefix_and_optional_flag() {
    let schema = schema_for("%d%s%s?%d?*");
    assert_eq!(rebuild_format_string(&schema.0), "%d%s");
    assert!(has_optional_items(&schema.0));
    let schema = schema_for("%d%s");
    assert_eq!(rebuild_format_string(&schema.0), "%d%s");
    assert!(!has_optional_items(&schema.0));
}

#[test]
fn non_ascii_text_round_trips() {
    let schema = schema_for("%s%d");
    let encoded = encode(&schema, &vec![text("héllo wörld"), Value::Int(3)]).unwrap();
    assert_eq!(encoded, "%s%d__héllo wörld__3");
    assert_eq!(
        decode(&schema, &encoded),
        Some(vec![Field::Str("héllo wörld".to_string()), Field::Int(3)])
    );
}
