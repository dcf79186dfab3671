use zone_editor::manifest::{DoodadDefinition, DoodadManifest, RenderableType};
use zone_editor::tags::build_doodad_tag_map;

fn definition(tags: Option<Vec<&str>>) -> DoodadDefinition {
    DoodadDefinition {
        model: RenderableType::GltfModel("models/cube.glb".to_string()),
        initial_custom_props: None,
        tags: tags.map(|t| t.into_iter().map(|s| s.to_string()).collect()),
        snap_dimensions: None,
    }
}

fn manifest(defs: Vec<(&str, DoodadDefinition)>) -> DoodadManifest {
    DoodadManifest {
        doodad_tags: Vec::new(),
        doodad_definitions: defs.into_iter().map(|(n, d)| (n.to_string(), d)).collect(),
    }
}

fn entry<'a>(
    map: &'a [(String, Vec<String>)],
    key: &str,
) -> Option<&'a Vec<String>> {
    map.iter().find(|(k, _)| k == key).map(|(_, v)| v)
}

#[test]
fn torch_and_rock_scenario() {
    // "torch" tagged light, "rock" untagged: the index holds exactly
    // all_doodads -> [rock, torch] and light -> [torch]
    let m = manifest(vec![
        ("torch", definition(Some(vec!["light"]))),
        ("rock", definition(Some(vec![]))),
    ]);
    let map = build_doodad_tag_map(&m);
    assert_eq!(map.entries.len(), 2);
    assert_eq!(map.entries[0].0, "all_doodads");
    assert_eq!(map.entries[0].1, vec!["rock".to_string(), "torch".to_string()]);
    assert_eq!(map.entries[1].0, "light");
    assert_eq!(map.entries[1].1, vec!["torch".to_string()]);
}

#[test]
fn missing_tags_field_counts_as_untagged() {
    let m = manifest(vec![("rock", definition(None))]);
    let map = build_doodad_tag_map(&m);
    assert_eq!(map.entries.len(), 1);
    assert_eq!(map.entries[0].0, "all_doodads");
    assert_eq!(map.entries[0].1, vec!["rock".to_string()]);
}

#[test]
fn keys_and_name_lists_come_out_sorted() {
    let m = manifest(vec![
        ("willow", definition(Some(vec!["tree", "bush"]))),
        ("oak", definition(Some(vec!["tree"]))),
        ("fern", definition(Some(vec!["bush"]))),
    ]);
    let map = build_doodad_tag_map(&m);
    let keys: Vec<&str> = map.entries.iter().map(|(k, _)| k.as_str()).collect();
    assert_eq!(keys, vec!["all_doodads", "bush", "tree"]);
    assert_eq!(
        entry(&map.entries, "all_doodads").unwrap(),
        &vec!["fern".to_string(), "oak".to_string(), "willow".to_string()],
    );
    assert_eq!(
        entry(&map.entries, "bush").unwrap(),
        &vec!["fern".to_string(), "willow".to_string()],
    );
    assert_eq!(
        entry(&map.entries, "tree").unwrap(),
        &vec!["oak".to_string(), "willow".to_string()],
    );
}

#[test]
fn every_name_appears_under_all_doodads_and_its_tags() {
    let m = manifest(vec![
        ("a", definition(Some(vec!["x", "y"]))),
        ("b", definition(Some(vec!["y"]))),
        ("c", definition(None)),
    ]);
    let map = build_doodad_tag_map(&m);
    let all = entry(&map.entries, "all_doodads").unwrap();
    for name in ["a", "b", "c"] {
        assert!(all.iter().any(|n| n == name));
    }
    assert!(entry(&map.entries, "x").unwrap().iter().any(|n| n == "a"));
    assert!(entry(&map.entries, "y").unwrap().iter().any(|n| n == "a"));
    assert!(entry(&map.entries, "y").unwrap().iter().any(|n| n == "b"));
    assert!(!entry(&map.entries, "x").unwrap().iter().any(|n| n == "b"));
    assert!(entry(&map.entries, "z").is_none());
}

#[test]
fn empty_manifest_gives_empty_index() {
    let m = manifest(Vec::new());
    let map = build_doodad_tag_map(&m);
    assert!(map.entries.is_empty());
}

#[test]
fn a_tag_listed_twice_counts_once() {
    // lists are de-duplicated: repeating a tag does not repeat the name
    let m = manifest(vec![("torch", definition(Some(vec!["light", "light"])))]);
    let map = build_doodad_tag_map(&m);
    assert_eq!(entry(&map.entries, "light").unwrap(), &vec!["torch".to_string()]);
    assert_eq!(entry(&map.entries, "all_doodads").unwrap(), &vec!["torch".to_string()]);
}
