use keryx_core::codec::canonical::{
    canonicalize_map_order, len_of, parse_fields, read_varint, reinterpret, unzigzag, write_field,
    write_key, write_len_field, write_varint, WIRE_I32, WIRE_I64, WIRE_LEN, WIRE_VARINT,
};
use keryx_core::codec::layout::{FieldLayout, FieldSlot, MessageLayout};
use keryx_core::descriptor::model::MapKey;
use keryx_core::codec::canonical_text::{split_name, split_top, strip};

#[test]
fn read_and_write_varint_round_trip() {
    for value in [0u64, 1, 127, 128, 300, 1 << 63, u64::MAX] {
        let mut buf = Vec::new();
        write_varint(&mut buf, value);
        assert_eq!(read_varint(&buf).expect("round-trips"), (value, buf.len()));
    }
}

#[test]
fn split_top_respects_braces_and_strings() {
    assert_eq!(split_top("a,b,c", ','), vec!["a", "b", "c"]);
    assert_eq!(split_top("a{b,c},d", ','), vec!["a{b,c}", "d"]);
    assert_eq!(split_top(r#"a:"x,y",b:1"#, ','), vec![r#"a:"x,y""#, "b:1"]);
}

#[test]
fn a_varint_is_seven_bits_a_byte_least_significant_first() {
    let mut buf = Vec::new();
    write_varint(&mut buf, 300);
    assert_eq!(buf, vec![0xAC, 0x02]);
    assert_eq!(read_varint(&[0xAC, 0x02, 0xFF]), Some((300, 2)));
    assert_eq!(read_varint(&[0x80]), None);
    assert_eq!(read_varint(&[]), None);
    assert_eq!(read_varint(&[0xFF; 11]), None);
    let mut max = Vec::new();
    write_varint(&mut max, u64::MAX);
    assert_eq!(max.len(), 10);
}

#[test]
fn keys_and_fields_are_written_as_the_wire_spells_them() {
    let mut buf = Vec::new();
    write_key(&mut buf, 1, WIRE_VARINT);
    assert_eq!(buf, vec![0x08]);
    let mut buf = Vec::new();
    write_len_field(&mut buf, 2, b"hi");
    assert_eq!(buf, vec![0x12, 0x02, b'h', b'i']);
    assert_eq!(len_of(b"abc"), 3);
    let fields = parse_fields(&buf).expect("well-formed");
    assert_eq!(fields.len(), 1);
    assert_eq!((fields[0].number, fields[0].wire, fields[0].payload), (2, WIRE_LEN, &b"hi"[..]));
    let mut again = Vec::new();
    write_field(&mut again, &fields[0]);
    assert_eq!(again, buf);
}

#[test]
fn a_run_of_fields_parses_every_wire_type_and_refuses_groups_and_truncation() {
    let mut buf = Vec::new();
    write_key(&mut buf, 1, WIRE_VARINT);
    write_varint(&mut buf, 150);
    write_key(&mut buf, 2, WIRE_I64);
    buf.extend_from_slice(&[1, 2, 3, 4, 5, 6, 7, 8]);
    write_key(&mut buf, 3, WIRE_I32);
    buf.extend_from_slice(&[9, 9, 9, 9]);
    write_len_field(&mut buf, 4, b"xyz");
    let fields = parse_fields(&buf).expect("well-formed");
    let shape: Vec<(u32, u8, Vec<u8>)> = fields
        .iter()
        .map(|f| (f.number, f.wire, f.payload.to_vec()))
        .collect();
    assert_eq!(
        shape,
        vec![
            (1, WIRE_VARINT, vec![0x96, 0x01]),
            (2, WIRE_I64, vec![1, 2, 3, 4, 5, 6, 7, 8]),
            (3, WIRE_I32, vec![9, 9, 9, 9]),
            (4, WIRE_LEN, b"xyz".to_vec()),
        ]
    );
    assert!(parse_fields(&[0x0B]).is_none(), "a group start is refused");
    assert!(parse_fields(&[0x12, 0x05, b'a']).is_none(), "a truncated run is refused");
    assert_eq!(parse_fields(&[]).expect("empty").len(), 0);
}

#[test]
fn key_values_are_reinterpreted_and_unzigzagged() {
    assert_eq!(reinterpret(5), 5);
    assert_eq!(reinterpret(u64::MAX), -1);
    assert_eq!(reinterpret(1 << 63), i64::MIN);
    assert_eq!(unzigzag(0), 0);
    assert_eq!(unzigzag(1), -1);
    assert_eq!(unzigzag(2), 1);
    assert_eq!(unzigzag(3), -2);
    assert_eq!(unzigzag(u64::MAX), i64::MIN);
}

#[test]
fn a_field_name_splits_at_its_first_top_level_separator() {
    assert_eq!(split_name("m:[{key:1}]"), Some(("m", ':', ":[{key:1}]")));
    assert_eq!(split_name("child{a:1}"), Some(("child", '{', "{a:1}")));
    assert_eq!(split_name("\"a:b\""), None);
    assert_eq!(strip("{a}", '{', '}'), Some("a"));
    assert_eq!(strip("{", '{', '}'), None);
    assert_eq!(strip("[a}", '{', '}'), None);
    assert_eq!(split_top("", ','), Vec::<&str>::new());
}

const MAP_ENTRY_KEY: u32 = 1;
const MAP_ENTRY_VALUE: u32 = 2;

/// The layout of `M { map<int32, int32> m = 1; }`.
fn int_map_layout() -> Vec<MessageLayout> {
    vec![MessageLayout {
        fields: vec![FieldSlot {
            number: 1,
            name: "m".to_owned(),
            layout: FieldLayout::Mapped {
                key: Some(MapKey::Int32),
                value: None,
            },
        }],
    }]
}

/// Encode a `map<int32, int32>` field (number 1) with `entries` in the given order.
fn map_bytes(entries: &[(i64, i64)]) -> Vec<u8> {
    let mut out = Vec::new();
    for &(key, value) in entries {
        let mut entry = Vec::new();
        write_key(&mut entry, MAP_ENTRY_KEY, WIRE_VARINT);
        write_varint(&mut entry, u64::from_ne_bytes(key.to_ne_bytes()));
        write_key(&mut entry, MAP_ENTRY_VALUE, WIRE_VARINT);
        write_varint(&mut entry, u64::from_ne_bytes(value.to_ne_bytes()));
        write_len_field(&mut out, 1, &entry);
    }
    out
}

/// The map field's entry keys, in wire order, decoded as `int32`s.
fn keys_in_order(bytes: &[u8]) -> Vec<i64> {
    parse_fields(bytes)
        .expect("well-formed")
        .into_iter()
        .filter(|field| field.number == 1)
        .map(|entry| {
            let inner = parse_fields(entry.payload).expect("a map entry parses");
            let key = inner
                .iter()
                .find(|field| field.number == MAP_ENTRY_KEY)
                .expect("an entry carries its key");
            reinterpret(read_varint(key.payload).expect("a varint key").0)
        })
        .collect()
}

#[test]
fn map_entries_are_reordered_to_key_order_deterministically() {
    let layouts = int_map_layout();
    let one = map_bytes(&[(3, 30), (1, 10), (2, 20)]);
    let other = map_bytes(&[(2, 20), (3, 30), (1, 10)]);
    let canon_one = canonicalize_map_order(&one, &layouts, 0);
    let canon_other = canonicalize_map_order(&other, &layouts, 0);
    assert_eq!(
        canon_one, canon_other,
        "any input order canonicalises identically"
    );
    assert_eq!(
        keys_in_order(&canon_one),
        vec![1, 2, 3],
        "entries ascend by key"
    );
}

#[test]
fn negative_int_keys_sort_by_value_not_by_encoding() {
    let layouts = int_map_layout();
    let canon = canonicalize_map_order(&map_bytes(&[(5, 1), (-1, 2), (0, 3)]), &layouts, 0);
    assert_eq!(keys_in_order(&canon), vec![-1, 0, 5]);
}

#[test]
fn a_message_with_no_map_field_is_unchanged() {
    let layouts = int_map_layout();
    let mut bytes = Vec::new();
    write_key(&mut bytes, 7, WIRE_VARINT);
    write_varint(&mut bytes, 42);
    assert_eq!(canonicalize_map_order(&bytes, &layouts, 0), bytes);
}

#[test]
fn fields_are_grouped_by_number_each_group_in_arrival_order() {
    let layouts = vec![MessageLayout { fields: Vec::new() }];
    let mut bytes = Vec::new();
    write_key(&mut bytes, 3, WIRE_VARINT);
    write_varint(&mut bytes, 1);
    write_key(&mut bytes, 1, WIRE_VARINT);
    write_varint(&mut bytes, 2);
    write_key(&mut bytes, 3, WIRE_VARINT);
    write_varint(&mut bytes, 3);
    let canon = canonicalize_map_order(&bytes, &layouts, 0);
    assert_eq!(canon, vec![0x08, 0x02, 0x18, 0x01, 0x18, 0x03]);
}

#[test]
fn a_truncated_run_is_left_unchanged() {
    let layouts = int_map_layout();
    let bytes = vec![0x0A, 0x05, 0x08];
    assert_eq!(canonicalize_map_order(&bytes, &layouts, 0), bytes);
}

#[test]
fn nested_and_message_valued_maps_are_ordered_too() {
    // Outer { Inner inner = 2; map<string, Inner> by_name = 3; }, Inner { map<sint32, int32> m = 1; }
    let layouts = vec![
        MessageLayout {
            fields: vec![
                FieldSlot {
                    number: 2,
                    name: "inner".to_owned(),
                    layout: FieldLayout::Message(1),
                },
                FieldSlot {
                    number: 3,
                    name: "by_name".to_owned(),
                    layout: FieldLayout::Mapped {
                        key: Some(MapKey::String),
                        value: Some(1),
                    },
                },
            ],
        },
        MessageLayout {
            fields: vec![FieldSlot {
                number: 1,
                name: "m".to_owned(),
                layout: FieldLayout::Mapped {
                    key: Some(MapKey::Sint32),
                    value: None,
                },
            }],
        },
    ];
    let zigzag_entry = |key: u64| {
        let mut entry = Vec::new();
        write_key(&mut entry, MAP_ENTRY_KEY, WIRE_VARINT);
        write_varint(&mut entry, key);
        entry
    };
    // Inner with sint32 keys 1 (zigzag 2) and -1 (zigzag 1), in that order.
    let mut inner = Vec::new();
    write_len_field(&mut inner, 1, &zigzag_entry(2));
    write_len_field(&mut inner, 1, &zigzag_entry(1));
    let mut sorted_inner = Vec::new();
    write_len_field(&mut sorted_inner, 1, &zigzag_entry(1));
    write_len_field(&mut sorted_inner, 1, &zigzag_entry(2));
    let string_entry = |key: &str, value: &[u8]| {
        let mut entry = Vec::new();
        write_len_field(&mut entry, MAP_ENTRY_KEY, key.as_bytes());
        write_len_field(&mut entry, MAP_ENTRY_VALUE, value);
        entry
    };
    let mut bytes = Vec::new();
    write_len_field(&mut bytes, 3, &string_entry("b", &inner));
    write_len_field(&mut bytes, 2, &inner);
    write_len_field(&mut bytes, 3, &string_entry("a", &inner));
    let mut expected = Vec::new();
    write_len_field(&mut expected, 2, &sorted_inner);
    write_len_field(&mut expected, 3, &string_entry("a", &sorted_inner));
    write_len_field(&mut expected, 3, &string_entry("b", &sorted_inner));
    assert_eq!(canonicalize_map_order(&bytes, &layouts, 0), expected);
}

#[test]
fn an_entry_without_a_key_sorts_as_the_default_key() {
    let layouts = int_map_layout();
    let mut out = Vec::new();
    let mut keyed = Vec::new();
    write_key(&mut keyed, MAP_ENTRY_KEY, WIRE_VARINT);
    write_varint(&mut keyed, u64::from_ne_bytes((-3i64).to_ne_bytes()));
    let mut keyless = Vec::new();
    write_key(&mut keyless, MAP_ENTRY_VALUE, WIRE_VARINT);
    write_varint(&mut keyless, 9);
    write_len_field(&mut out, 1, &keyless);
    write_len_field(&mut out, 1, &keyed);
    let mut expected = Vec::new();
    write_len_field(&mut expected, 1, &keyed);
    write_len_field(&mut expected, 1, &keyless);
    assert_eq!(canonicalize_map_order(&out, &layouts, 0), expected);
}
