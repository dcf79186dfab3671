use zone_editor::codec::{parse_zone_file, serialize_zone_file};
use zone_editor::zone_file::{CustomProp, CustomPropsMap, TransformSimple, Vec3, ZoneEntity,
    ZoneFile};

fn chars(s: &str) -> Vec<char> {
    s.chars().collect()
}

fn text(v: &[char]) -> String {
    v.iter().collect()
}

fn vec3(x: f32, y: f32, z: f32) -> Vec3 {
    Vec3 { x: x.to_bits(), y: y.to_bits(), z: z.to_bits() }
}

fn transform(t: Vec3, r: Vec3, s: Vec3) -> TransformSimple {
    TransformSimple { translation: t, rotation: r, scale: s }
}

fn simple_entity(name: &str) -> ZoneEntity {
    ZoneEntity {
        name: name.to_string(),
        transform: transform(vec3(1.0, 2.0, 3.0), vec3(0.0, 0.0, 0.0), vec3(1.0, 1.0, 1.0)),
        custom_props: None,
    }
}

#[test]
fn serialize_empty_zone() {
    let file = ZoneFile { entities: Vec::new() };
    let out = serialize_zone_file(&file);
    assert_eq!(text(&out), "(entities:[])");
}

#[test]
fn serialize_one_entity_exact_text() {
    let entity = ZoneEntity {
        name: "torch".to_string(),
        transform: transform(vec3(1.0, 2.0, 3.0), vec3(0.0, 0.0, 0.0), vec3(1.0, 1.0, 1.0)),
        custom_props: None,
    };
    let file = ZoneFile { entities: vec![entity] };
    let out = serialize_zone_file(&file);
    let one = 1.0f32.to_bits();
    let expected = format!(
        "(entities:[(name:\"torch\",transform:(translation:(x:{},y:{},z:{}),rotation:(x:0,y:0,z:0),scale:(x:{},y:{},z:{})),custom_props:None)])",
        one,
        2.0f32.to_bits(),
        3.0f32.to_bits(),
        one,
        one,
        one,
    );
    assert_eq!(text(&out), expected);
}

#[test]
fn round_trip_two_entities_with_props() {
    let mut props = CustomPropsMap { entries: Vec::new() };
    props.entries.push(("power".to_string(), CustomProp::Integer(-5)));
    props.entries.push(("label".to_string(), CustomProp::Text("he said \"hi\"\\".to_string())));
    props.entries.push(("lit".to_string(), CustomProp::Boolean(true)));
    props.entries.push(("offset".to_string(), CustomProp::Vec3(vec3(0.5, -0.5, 9.75))));
    props.entries.push(("scale_bias".to_string(), CustomProp::Float(1.25f32.to_bits())));
    props.entries.push(("spare".to_string(), CustomProp::EmptyProp));
    let first = ZoneEntity {
        name: "torch".to_string(),
        transform: transform(vec3(10.0, -4.5, 3.25), vec3(0.25, 0.5, 0.75), vec3(2.0, 2.0, 2.0)),
        custom_props: Some(props),
    };
    let second = simple_entity("rock");
    let file = ZoneFile { entities: vec![first, second] };
    let out = serialize_zone_file(&file);

    let parsed = parse_zone_file(&out).expect("the serialized zone must parse");
    assert_eq!(parsed.entities.len(), 2);
    assert_eq!(parsed.entities[0].name, "torch");
    assert_eq!(parsed.entities[1].name, "rock");
    let props = parsed.entities[0].custom_props.as_ref().expect("props kept");
    assert_eq!(props.entries.len(), 6);
    assert_eq!(props.entries[0].0, "power");
    assert!(matches!(props.entries[0].1, CustomProp::Integer(-5)));
    assert_eq!(props.entries[1].0, "label");
    match &props.entries[1].1 {
        CustomProp::Text(s) => assert_eq!(s, "he said \"hi\"\\"),
        other => panic!("wrong prop: {:?}", other),
    }
    assert!(matches!(props.entries[2].1, CustomProp::Boolean(true)));
    match &props.entries[3].1 {
        CustomProp::Vec3(v) => {
            assert_eq!(v.x, 0.5f32.to_bits());
            assert_eq!(v.y, (-0.5f32).to_bits());
            assert_eq!(v.z, 9.75f32.to_bits());
        }
        other => panic!("wrong prop: {:?}", other),
    }
    match &props.entries[4].1 {
        CustomProp::Float(b) => assert_eq!(*b, 1.25f32.to_bits()),
        other => panic!("wrong prop: {:?}", other),
    }
    assert!(matches!(props.entries[5].1, CustomProp::EmptyProp));

    // a second serialization reproduces the text exactly
    let again = serialize_zone_file(&parsed);
    assert_eq!(out, again);
}

#[test]
fn rotation_bits_survive_round_trip() {
    let rotation = vec3(1.5707964, -3.1415927, 0.7853982);
    let entity = ZoneEntity {
        name: "gimbal".to_string(),
        transform: transform(vec3(0.0, 0.0, 0.0), rotation, vec3(1.0, 1.0, 1.0)),
        custom_props: None,
    };
    let file = ZoneFile { entities: vec![entity] };
    let out = serialize_zone_file(&file);
    let parsed = parse_zone_file(&out).expect("parses");
    let back = parsed.entities[0].get_rotation_euler();
    assert_eq!(back.x, 1.5707964f32.to_bits());
    assert_eq!(back.y, (-3.1415927f32).to_bits());
    assert_eq!(back.z, 0.7853982f32.to_bits());
}

#[test]
fn parse_rejects_malformed_text() {
    assert!(parse_zone_file(&chars("")).is_none());
    assert!(parse_zone_file(&chars("(entities:[")).is_none());
    assert!(parse_zone_file(&chars("(entities:[])x")).is_none());
    assert!(parse_zone_file(&chars("entities:[]")).is_none());
    assert!(parse_zone_file(&chars("(entities:[],)")).is_none());
    assert!(parse_zone_file(&chars("(entities:[(name:\"a\")])")).is_none());
}

#[test]
fn parse_rejects_non_canonical_numbers() {
    // a leading zero is not the canonical rendering of any number
    let text_ok = "(entities:[(name:\"a\",transform:(translation:(x:0,y:0,z:0),rotation:(x:0,y:0,z:0),scale:(x:0,y:0,z:0)),custom_props:None)])";
    assert!(parse_zone_file(&chars(text_ok)).is_some());
    let text_bad = text_ok.replace("(x:0,y:0,z:0),rotation", "(x:00,y:0,z:0),rotation");
    assert!(parse_zone_file(&chars(&text_bad)).is_none());
}

#[test]
fn parse_rejects_bad_escape() {
    let bad = "(entities:[(name:\"a\\x\",transform:(translation:(x:0,y:0,z:0),rotation:(x:0,y:0,z:0),scale:(x:0,y:0,z:0)),custom_props:None)])";
    assert!(parse_zone_file(&chars(bad)).is_none());
}

#[test]
fn extreme_component_values_round_trip() {
    let entity = ZoneEntity {
        name: String::new(),
        transform: transform(
            Vec3 { x: u32::MAX, y: 0, z: 1 },
            Vec3 { x: 4294967295, y: 2147483648, z: 7 },
            Vec3 { x: 0, y: 0, z: 0 },
        ),
        custom_props: Some(CustomPropsMap {
            entries: vec![
                ("min".to_string(), CustomProp::Integer(i32::MIN)),
                ("max".to_string(), CustomProp::Integer(i32::MAX)),
                ("zero".to_string(), CustomProp::Integer(0)),
            ],
        }),
    };
    let file = ZoneFile { entities: vec![entity] };
    let out = serialize_zone_file(&file);
    let parsed = parse_zone_file(&out).expect("parses");
    assert_eq!(parsed.entities[0].name, "");
    assert_eq!(parsed.entities[0].get_position().x, u32::MAX);
    let props = parsed.entities[0].get_custom_props().as_ref().expect("props");
    assert!(matches!(props.entries[0].1, CustomProp::Integer(i32::MIN)));
    assert!(matches!(props.entries[1].1, CustomProp::Integer(i32::MAX)));
    assert!(matches!(props.entries[2].1, CustomProp::Integer(0)));
}

#[test]
fn zone_file_new_skips_absent_candidates() {
    let candidates = vec![
        Some(simple_entity("a")),
        None,
        Some(simple_entity("b")),
        None,
    ];
    let file = ZoneFile::new(candidates);
    assert_eq!(file.entities.len(), 2);
    assert_eq!(file.entities[0].name, "a");
    assert_eq!(file.entities[1].name, "b");
}

#[test]
fn names_beyond_ascii_round_trip() {
    let entity = ZoneEntity {
        name: "für Überläufer — 木".to_string(),
        transform: transform(vec3(0.0, 0.0, 0.0), vec3(0.0, 0.0, 0.0), vec3(1.0, 1.0, 1.0)),
        custom_props: None,
    };
    let file = ZoneFile { entities: vec![entity] };
    let out = serialize_zone_file(&file);
    let parsed = parse_zone_file(&out).expect("parses");
    assert_eq!(parsed.entities[0].name, "für Überläufer — 木");
}
