use keryx_core::codec::canonical_text::{canonicalize_text, entry_key, text_key_of, TextKey};
use keryx_core::codec::layout::{FieldLayout, FieldSlot, MessageLayout};
use keryx_core::descriptor::model::MapKey;
use prost_reflect::{DescriptorPool, DynamicMessage, MapKey as ReflectKey, MessageDescriptor, Value};
use protox::file::{File, FileResolver};
use protox::Compiler;

/// One in-memory `.proto` file, `t.proto`.
struct OneFile(&'static str);

impl FileResolver for OneFile {
    fn open_file(&self, name: &str) -> Result<File, protox::Error> {
        if name == "t.proto" {
            File::from_source(name, self.0)
        } else {
            Err(protox::Error::file_not_found(name))
        }
    }
}

/// A `MessageDescriptor` for `M { map<int32, int32> m = 1; string s = 2; }`.
fn descriptor_of() -> MessageDescriptor {
    let mut compiler = Compiler::with_file_resolver(OneFile(
        "syntax = \"proto3\"; package t; message M { map<int32, int32> m = 1; string s = 2; }",
    ));
    compiler.open_file("t.proto").expect("the source compiles");
    let set = compiler.encode_file_descriptor_set();
    let pool = DescriptorPool::decode(set.as_slice()).expect("the set decodes");
    pool.get_message_by_name("t.M").expect("M is in the pool")
}

/// The layout of that `M`, as the canonical text order reads it.
fn layout_of() -> Vec<MessageLayout> {
    vec![MessageLayout {
        fields: vec![
            FieldSlot {
                number: 1,
                name: "m".to_owned(),
                layout: FieldLayout::Mapped { key: Some(MapKey::Int32), value: None },
            },
            FieldSlot { number: 2, name: "s".to_owned(), layout: FieldLayout::Plain },
        ],
    }]
}

/// The compact text form of `M` with `m = {entries}` and `s = "z"`, in the given entry order.
fn text_of(descriptor: &MessageDescriptor, entries: &[(i32, i32)]) -> String {
    let mut message = DynamicMessage::new(descriptor.clone());
    message
        .try_set_field_by_number(
            1,
            Value::Map(entries.iter().map(|&(k, v)| (ReflectKey::I32(k), Value::I32(v))).collect()),
        )
        .expect("the map fits");
    message.try_set_field_by_number(2, Value::String("z".to_owned())).expect("the string fits");
    message.to_text_format()
}

#[test]
fn map_entries_are_ordered_by_key_deterministically() {
    // The same map, two `HashMap` orders, canonicalise to identical text with keys ascending.
    let descriptor = descriptor_of();
    let layouts = layout_of();
    let one = canonicalize_text(&text_of(&descriptor, &[(3, 30), (1, 10), (2, 20)]), &layouts, 0);
    let other = canonicalize_text(&text_of(&descriptor, &[(2, 20), (3, 30), (1, 10)]), &layouts, 0);
    assert_eq!(one, other, "any input order canonicalises identically");
    // Keys ascend: `1` before `2` before `3` in the text.
    let at = |k: &str| one.find(&format!("key:{k}")).expect("the key is present");
    assert!(at("1") < at("2") && at("2") < at("3"), "entries ascend by key: {one}");
}

#[test]
fn negative_keys_order_by_value_not_by_token() {
    // A negative key's token (`-1`) sorts after `5` as text but before it as a number.
    let descriptor = descriptor_of();
    let layouts = layout_of();
    let text = canonicalize_text(&text_of(&descriptor, &[(5, 1), (-1, 2), (0, 3)]), &layouts, 0);
    let at = |k: &str| text.find(&format!("key:{k}")).expect("present");
    assert!(at("-1") < at("0") && at("0") < at("5"), "ascend by value: {text}");
}

#[test]
fn text_without_a_map_field_is_unchanged() {
    let layouts = layout_of();
    assert_eq!(canonicalize_text("s:\"hello\"", &layouts, 0), "s:\"hello\"");
    // A quoted comma is not a field separator.
    assert_eq!(canonicalize_text("s:\"a,b\"", &layouts, 0), "s:\"a,b\"");
}

#[test]
fn a_hand_written_map_is_reordered_and_a_scalar_kept() {
    let layouts = layout_of();
    assert_eq!(
        canonicalize_text("m:[{key:3,value:30},{key:-2},{value:7},{key:1,value:10}],s:\"q\"", &layouts, 0),
        "m:[{key:-2},{key:1,value:10},{key:3,value:30},{value:7}],s:\"q\""
    );
}

#[test]
fn nested_and_message_valued_text_maps_are_ordered_too() {
    // Outer { map<string, Inner> by = 1; Inner one = 2; repeated Inner many = 3; }
    // Inner { map<int64, string> tags = 1; }
    let layouts = vec![
        MessageLayout {
            fields: vec![
                FieldSlot {
                    number: 1,
                    name: "by".to_owned(),
                    layout: FieldLayout::Mapped { key: Some(MapKey::String), value: Some(1) },
                },
                FieldSlot { number: 2, name: "one".to_owned(), layout: FieldLayout::Message(1) },
                FieldSlot { number: 3, name: "many".to_owned(), layout: FieldLayout::Message(1) },
            ],
        },
        MessageLayout {
            fields: vec![FieldSlot {
                number: 1,
                name: "tags".to_owned(),
                layout: FieldLayout::Mapped { key: Some(MapKey::Int64), value: None },
            }],
        },
    ];
    let text = "by:[{key:\"b\",value{tags:[{key:9,value:\"x\"},{key:2,value:\"y\"}]}},{key:\"a\"}],\
                one{tags:[{key:5},{key:4}]},many:[{tags:[{key:8},{key:7}]},{}]";
    assert_eq!(
        canonicalize_text(text, &layouts, 0),
        "by:[{key:\"a\"},{key:\"b\",value{tags:[{key:2,value:\"y\"},{key:9,value:\"x\"}]}}],\
         one{tags:[{key:4},{key:5}]},many:[{tags:[{key:7},{key:8}]},{}]"
    );
}

#[test]
fn a_shape_outside_the_grammar_is_left_unchanged() {
    let layouts = layout_of();
    // An unknown field name, an unbalanced list, and a field with no separator.
    for text in ["q:[1,2]", "m:[{key:1}", "m", "m:[{key:2},3]"] {
        assert_eq!(canonicalize_text(text, &layouts, 0), text);
    }
}

#[test]
fn a_key_reads_as_an_i128_or_stays_a_token() {
    assert_eq!(text_key_of("42"), TextKey::Number(42));
    assert_eq!(text_key_of("-7"), TextKey::Number(-7));
    assert_eq!(text_key_of("+7"), TextKey::Number(7));
    assert_eq!(text_key_of("-170141183460469231731687303715884105728"), TextKey::Number(i128::MIN));
    assert_eq!(text_key_of("170141183460469231731687303715884105727"), TextKey::Number(i128::MAX));
    assert_eq!(
        text_key_of("170141183460469231731687303715884105728"),
        TextKey::Token("170141183460469231731687303715884105728".to_owned())
    );
    assert_eq!(text_key_of("\"a\""), TextKey::Token("\"a\"".to_owned()));
    assert_eq!(text_key_of("-"), TextKey::Token("-".to_owned()));
    assert_eq!(text_key_of(""), TextKey::Token(String::new()));
    assert_eq!(entry_key("{value:1,key:-3}"), Some(TextKey::Number(-3)));
    assert_eq!(entry_key("{value:1}"), Some(TextKey::Token(String::new())));
    assert_eq!(entry_key("key:1"), None);
}

#[test]
fn a_map_field_written_as_one_entry_reads_against_its_entry_message() {
    let layouts = vec![
        MessageLayout {
            fields: vec![FieldSlot {
                number: 1,
                name: "by".to_owned(),
                layout: FieldLayout::Mapped { key: Some(MapKey::String), value: Some(1) },
            }],
        },
        MessageLayout {
            fields: vec![FieldSlot {
                number: 1,
                name: "tags".to_owned(),
                layout: FieldLayout::Mapped { key: Some(MapKey::Int64), value: None },
            }],
        },
    ];
    assert_eq!(
        canonicalize_text("by{key:\"a\",value{tags:[{key:2},{key:1}]}}", &layouts, 0),
        "by{key:\"a\",value{tags:[{key:1},{key:2}]}}"
    );
    // The entry has no field but its key and value.
    assert_eq!(canonicalize_text("by{other:1}", &layouts, 0), "by{other:1}");
    // A scalar-valued entry keeps its scalars.
    assert_eq!(canonicalize_text("tags{key:3,value:\"x\"}", &layouts, 1), "tags{key:3,value:\"x\"}");
}
