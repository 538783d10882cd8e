use yron::{convert, convert_node, value_eq, OrderedMap, YamlNode, YamlSerialize};

fn s(t: &str) -> String {
    t.to_string()
}

fn node(entries: Vec<(YamlSerialize, YamlSerialize)>) -> YamlSerialize {
    YamlSerialize::Node(OrderedMap { entries })
}

#[test]
fn totality_every_variant_converts() {
    let doc = vec![
        YamlNode::Real(s("2.75")),
        YamlNode::Integer(7),
        YamlNode::String(s("hello")),
        YamlNode::Boolean(true),
        YamlNode::Array(vec![YamlNode::Integer(1)]),
        YamlNode::Hash(vec![(YamlNode::String(s("k")), YamlNode::Integer(2))]),
        YamlNode::Alias(9),
        YamlNode::Null,
        YamlNode::BadValue,
    ];
    let out = convert(doc);
    assert_eq!(out.len(), 9);
    assert!(matches!(out[0], YamlSerialize::Real(_)));
    assert!(matches!(out[1], YamlSerialize::Integer(_)));
    assert!(matches!(out[2], YamlSerialize::String(_)));
    assert!(matches!(out[3], YamlSerialize::Boolean(_)));
    assert!(matches!(out[4], YamlSerialize::Array(_)));
    assert!(matches!(out[5], YamlSerialize::Node(_)));
    assert!(matches!(out[6], YamlSerialize::Alias(_)));
    assert!(matches!(out[7], YamlSerialize::Null));
    assert!(matches!(out[8], YamlSerialize::BadValue));
}

#[test]
fn count_and_order_preserved() {
    let doc = vec![
        YamlNode::Integer(10),
        YamlNode::String(s("middle")),
        YamlNode::Boolean(false),
    ];
    let out = convert(doc);
    assert_eq!(
        out,
        vec![
            YamlSerialize::Integer(10),
            YamlSerialize::String(s("middle")),
            YamlSerialize::Boolean(false),
        ]
    );
}

#[test]
fn map_order_preserved() {
    let doc = vec![YamlNode::Hash(vec![
        (YamlNode::String(s("a")), YamlNode::Integer(1)),
        (YamlNode::String(s("b")), YamlNode::Integer(2)),
        (YamlNode::String(s("c")), YamlNode::Integer(3)),
    ])];
    let out = convert(doc);
    let expected = node(vec![
        (YamlSerialize::String(s("a")), YamlSerialize::Integer(1)),
        (YamlSerialize::String(s("b")), YamlSerialize::Integer(2)),
        (YamlSerialize::String(s("c")), YamlSerialize::Integer(3)),
    ]);
    assert_eq!(out, vec![expected]);
}

#[test]
fn last_write_wins_on_converted_key_collision() {
    // Two distinct source keys that convert to the same canonical key: a map
    // with a repeated entry collapses under conversion, so these two source
    // maps both canonicalize to {null: 2}.
    let key1 = YamlNode::Hash(vec![
        (YamlNode::Null, YamlNode::Integer(1)),
        (YamlNode::Null, YamlNode::Integer(2)),
    ]);
    let key2 = YamlNode::Hash(vec![(YamlNode::Null, YamlNode::Integer(2))]);
    assert_ne!(key1, key2);
    let doc = vec![YamlNode::Hash(vec![
        (key1, YamlNode::String(s("first"))),
        (key2, YamlNode::String(s("second"))),
    ])];
    let out = convert(doc);
    let canonical_key = node(vec![(YamlSerialize::Null, YamlSerialize::Integer(2))]);
    let expected = node(vec![(canonical_key, YamlSerialize::String(s("second")))]);
    assert_eq!(out, vec![expected]);
}

#[test]
fn last_write_wins_keeps_key_position() {
    let doc = vec![YamlNode::Hash(vec![
        (YamlNode::String(s("a")), YamlNode::Integer(1)),
        (YamlNode::String(s("b")), YamlNode::Integer(2)),
        (YamlNode::String(s("a")), YamlNode::Integer(3)),
    ])];
    let out = convert(doc);
    let expected = node(vec![
        (YamlSerialize::String(s("a")), YamlSerialize::Integer(3)),
        (YamlSerialize::String(s("b")), YamlSerialize::Integer(2)),
    ]);
    assert_eq!(out, vec![expected]);
}

#[test]
fn real_text_kept_exactly() {
    let out = convert(vec![YamlNode::Real(s("1.50"))]);
    assert_eq!(out, vec![YamlSerialize::Real(s("1.50"))]);
    assert_ne!(out, vec![YamlSerialize::Real(s("1.5"))]);
}

#[test]
fn textually_different_reals_stay_distinct() {
    let a = convert_node(&YamlNode::Real(s("1.0")));
    let b = convert_node(&YamlNode::Real(s("1.00")));
    assert!(!value_eq(&a, &b));
    assert_ne!(a, b);
}

#[test]
fn nested_sequence_structure_kept() {
    let doc = vec![YamlNode::Array(vec![
        YamlNode::Integer(1),
        YamlNode::Array(vec![YamlNode::Boolean(true), YamlNode::Null]),
    ])];
    let out = convert(doc);
    let expected = YamlSerialize::Array(vec![
        YamlSerialize::Integer(1),
        YamlSerialize::Array(vec![YamlSerialize::Boolean(true), YamlSerialize::Null]),
    ]);
    assert_eq!(out, vec![expected]);
}

#[test]
fn alias_kept_opaque() {
    let out = convert(vec![YamlNode::Alias(3)]);
    assert_eq!(out, vec![YamlSerialize::Alias(3)]);
}

#[test]
fn invalid_passes_through_and_is_not_null() {
    let out = convert(vec![YamlNode::BadValue]);
    assert_eq!(out, vec![YamlSerialize::BadValue]);
    assert_ne!(out, vec![YamlSerialize::Null]);
    assert!(!value_eq(&out[0], &YamlSerialize::Null));
}

#[test]
fn empty_document_converts_to_empty() {
    let out = convert(Vec::new());
    assert!(out.is_empty());
}

#[test]
fn empty_containers_convert() {
    let doc = vec![YamlNode::Array(Vec::new()), YamlNode::Hash(Vec::new())];
    let out = convert(doc);
    assert_eq!(out, vec![YamlSerialize::Array(Vec::new()), node(Vec::new())]);
}

#[test]
fn integer_extremes_pass_through() {
    let doc = vec![YamlNode::Integer(i64::MAX), YamlNode::Integer(i64::MIN)];
    let out = convert(doc);
    assert_eq!(
        out,
        vec![
            YamlSerialize::Integer(i64::MAX),
            YamlSerialize::Integer(i64::MIN),
        ]
    );
}

#[test]
fn value_eq_agrees_on_nested_values() {
    let a = convert_node(&YamlNode::Hash(vec![(
        YamlNode::Array(vec![YamlNode::Real(s("0.5"))]),
        YamlNode::Boolean(false),
    )]));
    let b = convert_node(&YamlNode::Hash(vec![(
        YamlNode::Array(vec![YamlNode::Real(s("0.5"))]),
        YamlNode::Boolean(false),
    )]));
    assert!(value_eq(&a, &b));
    assert_eq!(a, b);
    let c = convert_node(&YamlNode::Hash(vec![(
        YamlNode::Array(vec![YamlNode::Real(s("0.5"))]),
        YamlNode::Boolean(true),
    )]));
    assert!(!value_eq(&a, &c));
}

#[test]
fn value_eq_distinguishes_null_kinds() {
    assert!(!value_eq(&YamlSerialize::Null, &YamlSerialize::BadValue));
    assert!(value_eq(&YamlSerialize::Null, &YamlSerialize::Null));
    assert!(value_eq(&YamlSerialize::BadValue, &YamlSerialize::BadValue));
}

#[test]
fn ordered_map_insert_overwrites_in_place() {
    let mut m = OrderedMap::new();
    m.insert(YamlSerialize::String(s("x")), YamlSerialize::Integer(1));
    m.insert(YamlSerialize::String(s("y")), YamlSerialize::Integer(2));
    m.insert(YamlSerialize::String(s("x")), YamlSerialize::Integer(3));
    assert_eq!(m.len(), 2);
    assert_eq!(
        m.entries,
        vec![
            (YamlSerialize::String(s("x")), YamlSerialize::Integer(3)),
            (YamlSerialize::String(s("y")), YamlSerialize::Integer(2)),
        ]
    );
}
