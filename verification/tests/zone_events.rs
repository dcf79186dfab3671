use zone_editor::codec::serialize_zone_file;
use zone_editor::zone_file::{TransformSimple, Vec3, ZoneEntity, ZoneFile};
use zone_editor::zones::{PlaceDoodadRequest, ZoneLoadError, ZoneResource, placement_requests,
    plan_zone_load, plan_zone_save};

fn chars(s: &str) -> Vec<char> {
    s.chars().collect()
}

fn vec3(x: u32, y: u32, z: u32) -> Vec3 {
    Vec3 { x, y, z }
}

fn entity(name: &str, t: Vec3, r: Vec3, s: Vec3) -> ZoneEntity {
    ZoneEntity {
        name: name.to_string(),
        transform: TransformSimple { translation: t, rotation: r, scale: s },
        custom_props: None,
    }
}

#[test]
fn primary_zone_is_set_and_reset() {
    let mut resource = ZoneResource::default();
    assert!(resource.primary_zone.is_none());
    resource.set_primary(17);
    assert_eq!(resource.primary_zone, Some(17));
    resource.set_primary(4);
    assert_eq!(resource.primary_zone, Some(4));
    resource.reset_primary();
    assert!(resource.primary_zone.is_none());
}

#[test]
fn placement_requests_carry_every_field() {
    let file = ZoneFile {
        entities: vec![
            entity("torch", vec3(1, 2, 3), vec3(4, 5, 6), vec3(7, 8, 9)),
            entity("rock", vec3(10, 11, 12), vec3(13, 14, 15), vec3(16, 17, 18)),
        ],
    };
    let requests = placement_requests(&file, 42);
    assert_eq!(requests.len(), 2);
    let first: &PlaceDoodadRequest = &requests[0];
    assert_eq!(first.doodad_name, "torch");
    assert_eq!(first.position, vec3(1, 2, 3));
    assert_eq!(first.rotation_euler, Some(vec3(4, 5, 6)));
    assert_eq!(first.scale, Some(vec3(7, 8, 9)));
    assert!(first.custom_props.is_none());
    assert_eq!(first.zone, Some(42));
    assert_eq!(requests[1].doodad_name, "rock");
    assert_eq!(requests[1].zone, Some(42));
}

#[test]
fn saving_names_the_file_and_renders_the_zone() {
    let file = ZoneFile { entities: Vec::new() };
    let (path, text) = plan_zone_save("forest.zone.ron", &file);
    assert_eq!(path, "assets/zones/forest.zone.ron");
    let rendered: String = text.iter().collect();
    assert_eq!(rendered, "(entities:[])");
    let (path2, _) = plan_zone_save("forest", &file);
    assert_eq!(path2, "assets/zones/forest.zone.ron");
}

#[test]
fn loading_turns_entities_into_requests() {
    let file = ZoneFile {
        entities: vec![entity("torch", vec3(1, 2, 3), vec3(0, 0, 0), vec3(1, 1, 1))],
    };
    let text = serialize_zone_file(&file);
    let requests = plan_zone_load(&text, 9).expect("well-formed text loads");
    assert_eq!(requests.len(), 1);
    assert_eq!(requests[0].doodad_name, "torch");
    assert_eq!(requests[0].zone, Some(9));
}

#[test]
fn loading_malformed_text_aborts_whole() {
    let bad = plan_zone_load(&chars("(entities:[(na"), 9);
    assert!(matches!(bad, Err(ZoneLoadError::MalformedZoneFile)));
    let also_bad = plan_zone_load(&chars("(entities:[])trailing"), 9);
    assert!(matches!(also_bad, Err(ZoneLoadError::MalformedZoneFile)));
}
