use zone_editor::manifest::{ColorRgba, CubeShapeDefinition, DoodadDefinition, DoodadManifest,
    RenderableType};
use zone_editor::manifest_codec::{parse_doodad_manifest, serialize_doodad_manifest};
use zone_editor::zone_file::{CustomProp, CustomPropsMap, Vec2};

fn chars(s: &str) -> Vec<char> {
    s.chars().collect()
}

fn text(v: &[char]) -> String {
    v.iter().collect()
}

fn sample_manifest() -> DoodadManifest {
    let torch = DoodadDefinition {
        model: RenderableType::GltfModel("models/torch.glb".to_string()),
        initial_custom_props: Some(CustomPropsMap {
            entries: vec![("lit".to_string(), CustomProp::Boolean(false))],
        }),
        tags: Some(vec!["light".to_string(), "decor".to_string()]),
        snap_dimensions: Some(Vec2 { x: 1.0f32.to_bits(), y: 1.0f32.to_bits() }),
    };
    let block = DoodadDefinition {
        model: RenderableType::CubeShape(CubeShapeDefinition {
            color: ColorRgba { r: 200, g: 100, b: 50, a: 255 },
            wireframe: false,
        }),
        initial_custom_props: None,
        tags: None,
        snap_dimensions: None,
    };
    let flame = DoodadDefinition {
        model: RenderableType::MagicFx("flame_small".to_string()),
        initial_custom_props: None,
        tags: Some(vec!["light".to_string()]),
        snap_dimensions: None,
    };
    let pond = DoodadDefinition {
        model: RenderableType::LiquidPlane("pond".to_string()),
        initial_custom_props: None,
        tags: None,
        snap_dimensions: None,
    };
    DoodadManifest {
        doodad_tags: vec!["light".to_string(), "decor".to_string()],
        doodad_definitions: vec![
            ("torch".to_string(), torch),
            ("block".to_string(), block),
            ("flame".to_string(), flame),
            ("pond".to_string(), pond),
        ],
    }
}

#[test]
fn lookup_finds_present_names_only() {
    let m = sample_manifest();
    let found = m.get_doodad_definition_by_name("torch").expect("present");
    assert!(matches!(found.model, RenderableType::GltfModel(p) if p == "models/torch.glb"));
    assert!(m.get_doodad_definition_by_name("anvil").is_none());
    assert!(m.get_doodad_definition_by_name("").is_none());
}

#[test]
fn manifest_round_trips_through_its_text_form() {
    let m = sample_manifest();
    let out = serialize_doodad_manifest(&m);
    let parsed = parse_doodad_manifest(&out).expect("the serialized manifest must parse");
    assert_eq!(parsed.doodad_tags, vec!["light".to_string(), "decor".to_string()]);
    assert_eq!(parsed.doodad_definitions.len(), 4);
    assert_eq!(parsed.doodad_definitions[0].0, "torch");
    let torch = &parsed.doodad_definitions[0].1;
    assert!(matches!(&torch.model, RenderableType::GltfModel(p) if p == "models/torch.glb"));
    assert_eq!(
        torch.tags.as_ref().expect("tags kept"),
        &vec!["light".to_string(), "decor".to_string()],
    );
    let snap = torch.snap_dimensions.expect("snap kept");
    assert_eq!(snap.x, 1.0f32.to_bits());
    let props = torch.initial_custom_props.as_ref().expect("props kept");
    assert_eq!(props.entries[0].0, "lit");
    assert!(matches!(props.entries[0].1, CustomProp::Boolean(false)));
    let block = &parsed.doodad_definitions[1].1;
    match &block.model {
        RenderableType::CubeShape(c) => {
            assert_eq!(c.color, ColorRgba { r: 200, g: 100, b: 50, a: 255 });
            assert!(!c.wireframe);
        }
        other => panic!("wrong renderable: {:?}", other),
    }
    let again = serialize_doodad_manifest(&parsed);
    assert_eq!(out, again);
}

#[test]
fn empty_manifest_has_a_fixed_text_form() {
    let m = DoodadManifest { doodad_tags: Vec::new(), doodad_definitions: Vec::new() };
    let out = serialize_doodad_manifest(&m);
    assert_eq!(text(&out), "(doodad_tags:[],doodad_definitions:{})");
    let parsed = parse_doodad_manifest(&out).expect("parses");
    assert!(parsed.doodad_tags.is_empty());
    assert!(parsed.doodad_definitions.is_empty());
}

#[test]
fn malformed_manifest_text_is_rejected() {
    assert!(parse_doodad_manifest(&chars("")).is_none());
    assert!(parse_doodad_manifest(&chars("(doodad_tags:[]")).is_none());
    assert!(parse_doodad_manifest(&chars("(doodad_tags:[],doodad_definitions:{})extra")).is_none());
    assert!(parse_doodad_manifest(&chars("(doodad_tags:[],doodad_definitions:{\"a\"})")).is_none());
}

#[test]
fn color_channels_above_range_are_rejected() {
    let good = "(doodad_tags:[],doodad_definitions:{\"b\":(model:CubeShape((color:(r:1,g:2,b:3,a:4),wireframe:true)),initial_custom_props:None,tags:None,snap_dimensions:None)})";
    assert!(parse_doodad_manifest(&chars(good)).is_some());
    let bad = good.replace("(r:1,", "(r:300,");
    assert!(parse_doodad_manifest(&chars(&bad)).is_none());
}
