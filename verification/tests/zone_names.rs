use zone_editor::names::{normalize_zone_name, zone_file_path, zone_file_stem};

#[test]
fn plain_name_is_kept() {
    assert_eq!(normalize_zone_name("forest"), "forest");
}

#[test]
fn stale_suffixes_are_stripped() {
    assert_eq!(normalize_zone_name("forest.zone.ron"), "forest");
    assert_eq!(normalize_zone_name("forest.zone"), "forest");
}

#[test]
fn only_the_trailing_segment_is_stripped() {
    assert_eq!(normalize_zone_name("my.cave.zone"), "my.cave");
    assert_eq!(normalize_zone_name("my.cave.zone.ron"), "my.cave");
    assert_eq!(zone_file_path("my.cave.zone"), "assets/zones/my.cave.zone.ron");
}

#[test]
fn name_merely_ending_in_zone_is_kept() {
    assert_eq!(normalize_zone_name("myzone"), "myzone");
    assert_eq!(normalize_zone_name("myzone.ron"), "myzone.ron");
}

#[test]
fn save_path_has_no_double_suffix() {
    // saving "forest.zone.ron" and saving "forest" write the same file
    assert_eq!(zone_file_path("forest.zone.ron"), "assets/zones/forest.zone.ron");
    assert_eq!(zone_file_path("forest"), "assets/zones/forest.zone.ron");
}

#[test]
fn normalization_is_idempotent_on_suffixed_names() {
    for base in ["swamp", "my.cave", "deep.blue.zone"] {
        let once = normalize_zone_name(base);
        let again = normalize_zone_name(&format!("{}.zone.ron", once));
        assert_eq!(once, again);
    }
}

#[test]
fn zone_file_stem_filters_directory_entries() {
    assert_eq!(zone_file_stem("forest.zone.ron"), Some("forest.zone".to_string()));
    assert_eq!(zone_file_stem("a.ron"), Some("a".to_string()));
    assert_eq!(zone_file_stem("notes.txt"), None);
    assert_eq!(zone_file_stem(".ron"), None);
    assert_eq!(zone_file_stem(""), None);
}
