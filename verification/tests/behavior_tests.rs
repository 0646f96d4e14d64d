use bench_tasks::json_parse::driver::run_round_trip_task;
use bench_tasks::json_parse::generator::{generate_json_records, linear_congruential_generator};
use bench_tasks::json_parse::hash::fnv1a_hash_records;
use bench_tasks::json_parse::parser::{parse_json_number, parse_json_string};
use bench_tasks::json_parse::serializer::serialize_to_json;
use bench_tasks::json_parse::types::{JsonRecord, ParseError};

#[test]
fn test_lcg_exact_value() {
    // 12345 * 1664525 + 1013904223 (mod 2^32)
    let mut seed = 12345;
    let drawn = linear_congruential_generator(&mut seed);
    assert_eq!(drawn, 87628868);
    assert_eq!(seed, 87628868);
}

#[test]
fn test_parser_error_cases() {
    // A structural failure: no array at all.
    assert!(matches!(
        parse_json_string("invalid"),
        Err(ParseError::InvalidArrayFormat)
    ));

    // A record missing fields names the first absent one.
    assert!(matches!(
        parse_json_string(r#"[{"id":1}]"#),
        Err(ParseError::MissingField { field: "value" })
    ));
    assert!(matches!(
        parse_json_string(r#"[{"value":1,"flag":true,"name":"x"}]"#),
        Err(ParseError::MissingField { field: "id" })
    ));

    // An unknown key is reported with its name.
    match parse_json_string(r#"[{"bogus":1}]"#) {
        Err(ParseError::UnknownField { field }) => assert_eq!(field, "bogus"),
        other => panic!("expected unknown-field error, got {:?}", other),
    }

    // A trailing comma directly before `]` is accepted.
    let records = parse_json_string(r#"[{"id":1,"value":2,"flag":true,"name":"a1"},]"#)
        .expect("trailing comma should be accepted");
    assert_eq!(records.len(), 1);

    // An empty object is rejected.
    assert!(matches!(
        parse_json_string("[{}]"),
        Err(ParseError::InvalidObjectFormat)
    ));

    // An unterminated string is rejected.
    assert!(matches!(
        parse_json_string(r#"[{"id":1,"value":2,"flag":true,"name":"a1]"#),
        Err(ParseError::InvalidString { .. })
    ));

    // An unsupported escape is rejected.
    assert!(matches!(
        parse_json_string(r#"[{"id":1,"value":2,"flag":true,"name":"a\qb"}]"#),
        Err(ParseError::InvalidString { .. })
    ));

    // An invalid boolean literal is rejected.
    assert!(matches!(
        parse_json_string(r#"[{"id":1,"value":2,"flag":yes,"name":"a1"}]"#),
        Err(ParseError::InvalidBoolean)
    ));
}

#[test]
fn test_number_overflow() {
    // A literal past the signed 32-bit range fails, never wraps.
    let mut pos = 0;
    assert!(matches!(
        parse_json_number(b"2147483648", &mut pos),
        Err(ParseError::InvalidNumber { .. })
    ));

    // Far past 64-bit accumulation as well.
    let mut pos = 0;
    assert!(matches!(
        parse_json_number(b"999999999999999999999999999", &mut pos),
        Err(ParseError::InvalidNumber { .. })
    ));

    // The extremes of the range are accepted exactly.
    let mut pos = 0;
    assert_eq!(parse_json_number(b"2147483647", &mut pos), Ok(2147483647));
    let mut pos = 0;
    assert_eq!(parse_json_number(b"-2147483648", &mut pos), Ok(-2147483648));

    // Inside a record the overflow is reported the same way.
    assert!(matches!(
        parse_json_string(r#"[{"id":1,"value":2147483648,"flag":true,"name":"a1"}]"#),
        Err(ParseError::InvalidNumber { .. })
    ));
}

#[test]
fn test_whitespace_tolerance() {
    let json = " [ {\t\"id\" : 1 ,\n\"value\" : -7 , \"flag\" : false , \"name\" : \"a1\" } ,\r {\"id\":2,\"value\":8,\"flag\":true,\"name\":\"a2\"} ] ";
    let records = parse_json_string(json).expect("whitespace should be tolerated");
    assert_eq!(records.len(), 2);
    assert_eq!(records[0].id, 1);
    assert_eq!(records[0].value, -7);
    assert!(!records[0].flag);
    assert_eq!(records[0].name, "a1");
    assert_eq!(records[1].id, 2);
}

#[test]
fn test_escape_decoding() {
    // The five supported escapes decode to their characters.
    let json = r#"[{"id":1,"value":2,"flag":true,"name":"a\"b\\c\nd\re\tf"}]"#;
    let records = parse_json_string(json).expect("escapes should decode");
    assert_eq!(records[0].name, "a\"b\\c\nd\re\tf");
}

#[test]
fn test_serialize_number_forms() {
    // Zero renders as a single digit, negatives carry one minus sign.
    let records = vec![
        JsonRecord {
            id: 0,
            value: 0,
            flag: true,
            name: "z".to_string(),
        },
        JsonRecord {
            id: 4294967295,
            value: -2147483648,
            flag: false,
            name: "m".to_string(),
        },
    ];
    let json = serialize_to_json(&records);
    assert_eq!(
        json,
        r#"[{"id":0,"value":0,"flag":true,"name":"z"},{"id":4294967295,"value":-2147483648,"flag":false,"name":"m"}]"#
    );
}

#[test]
fn test_hash_field_sensitivity() {
    let base = JsonRecord {
        id: 7,
        value: 55,
        flag: true,
        name: "a7".to_string(),
    };
    let h = fnv1a_hash_records(&[base.clone()]);

    let mut changed = base.clone();
    changed.id = 8;
    assert_ne!(h, fnv1a_hash_records(&[changed]));

    let mut changed = base.clone();
    changed.value = 56;
    assert_ne!(h, fnv1a_hash_records(&[changed]));

    let mut changed = base.clone();
    changed.flag = false;
    assert_ne!(h, fnv1a_hash_records(&[changed]));

    let mut changed = base.clone();
    changed.name = "a8".to_string();
    assert_ne!(h, fnv1a_hash_records(&[changed]));
}

#[test]
fn test_round_trip_task_hash() {
    // The driver's hash equals hashing the generated records directly.
    let records = generate_json_records(5, 123);
    let expected = fnv1a_hash_records(&records);

    let h1 = run_round_trip_task(5, 123);
    let h2 = run_round_trip_task(5, 123);
    assert_eq!(h1, expected);
    assert_eq!(h1, h2);
    assert_ne!(h1, 0);

    // A different seed gives a different hash.
    let h3 = run_round_trip_task(5, 456);
    assert_ne!(h1, h3);

    // Zero records hash to the FNV offset basis.
    assert_eq!(run_round_trip_task(0, 42), 2166136261);
}

#[test]
fn test_generated_sequence_round_trips() {
    // Round trip across several counts, empty included.
    for count in [0usize, 1, 2, 10] {
        let records = generate_json_records(count, 9876);
        let json = serialize_to_json(&records);
        let parsed = parse_json_string(&json).expect("generated text must parse");
        assert_eq!(parsed, records);
    }
    assert_eq!(serialize_to_json(&[]), "[]");
    assert_eq!(parse_json_string("[]").expect("empty array").len(), 0);
}
