use zone_editor::manifest::DoodadPlacementComponent;
use zone_editor::scene::{SceneNode, find_node_by_name};
use zone_editor::tools::{AssetLoadState, BrushType, EditingTool, EditorToolsState,
    LinearPixelColor, TerrainBrushEvent, ToolMode, brush_types_for};

fn leaf(name: Option<&str>) -> SceneNode {
    SceneNode { name: name.map(|n| n.to_string()), children: Vec::new() }
}

#[test]
fn finds_a_named_node_deep_in_the_tree() {
    let tree = SceneNode {
        name: Some("root".to_string()),
        children: vec![
            leaf(None),
            SceneNode {
                name: None,
                children: vec![leaf(Some("collision_volumes")), leaf(Some("mesh"))],
            },
        ],
    };
    let path = find_node_by_name(&tree, "collision_volumes").expect("present");
    assert_eq!(path, vec![1, 0]);
    assert!(find_node_by_name(&tree, "absent").is_none());
}

#[test]
fn the_first_match_in_preorder_wins() {
    // two nodes carry the name; the earlier subtree's node is returned
    let tree = SceneNode {
        name: None,
        children: vec![
            SceneNode { name: None, children: vec![leaf(Some("lamp"))] },
            leaf(Some("lamp")),
        ],
    };
    let path = find_node_by_name(&tree, "lamp").expect("present");
    assert_eq!(path, vec![0, 0]);
}

#[test]
fn finding_the_root_gives_the_empty_path() {
    let tree = leaf(Some("root"));
    let path = find_node_by_name(&tree, "root").expect("present");
    assert!(path.is_empty());
}

#[test]
fn brush_labels_match_the_panel() {
    assert_eq!(BrushType::SetExact.to_string(), "Set Exact");
    assert_eq!(BrushType::Smooth.to_string(), "Smooth");
    assert_eq!(BrushType::Noise.to_string(), "Noise");
    assert_eq!(BrushType::EyeDropper.to_string(), "Eyedropper");
    assert_eq!(ToolMode::Height.to_string(), "Height");
    assert_eq!(ToolMode::Regions.to_string(), "Regions");
}

#[test]
fn defaults_are_the_editor_start_state() {
    let state = EditorToolsState::default();
    assert_eq!(state.tool_mode, ToolMode::Height);
    assert_eq!(state.brush_type, BrushType::SetExact);
    assert_eq!(state.brush_radius, 0);
    assert_eq!(state.color, LinearPixelColor { r: 0, g: 0, b: 0, a: 0 });
}

#[test]
fn tool_state_compiles_to_the_matching_command() {
    let mut state = EditorToolsState::default();
    state.color = LinearPixelColor { r: 300, g: 200, b: 100, a: 0 };
    state.tool_mode = ToolMode::Height;
    assert_eq!(EditingTool::from_state(&state), Some(EditingTool::SetHeightMap { height: 300 }));
    state.tool_mode = ToolMode::Splat;
    assert_eq!(
        EditingTool::from_state(&state),
        Some(EditingTool::SetSplatMap { r: 44, g: 200, b: 100 }),
    );
    state.tool_mode = ToolMode::Foliage;
    assert_eq!(EditingTool::from_state(&state), None);
    state.tool_mode = ToolMode::Regions;
    assert_eq!(EditingTool::from_state(&state), None);
}

#[test]
fn asset_loading_walks_its_stages_in_order() {
    let s0 = AssetLoadState::default();
    assert_eq!(s0, AssetLoadState::Init);
    let s1 = s0.advance();
    assert_eq!(s1, AssetLoadState::FundamentalAssetsLoad);
    let s2 = s1.advance();
    assert_eq!(s2, AssetLoadState::ShadersLoad);
    let s3 = s2.advance();
    assert_eq!(s3, AssetLoadState::Complete);
    assert_eq!(s3.advance(), AssetLoadState::Complete);
}

#[test]
fn placement_preview_follows_the_selection() {
    let mut preview = DoodadPlacementComponent { preview_doodad_name: None };
    let torch = "torch".to_string();
    preview.update_preview(Some(&torch));
    assert_eq!(preview.preview_doodad_name, Some("torch".to_string()));
    preview.update_preview(Some(&torch));
    assert_eq!(preview.preview_doodad_name, Some("torch".to_string()));
    let rock = "rock".to_string();
    preview.update_preview(Some(&rock));
    assert_eq!(preview.preview_doodad_name, Some("rock".to_string()));
    preview.update_preview(None);
    assert_eq!(preview.preview_doodad_name, None);
}

#[test]
fn each_mode_offers_its_brushes() {
    assert_eq!(
        brush_types_for(&ToolMode::Height),
        vec![BrushType::SetExact, BrushType::Smooth, BrushType::Noise, BrushType::EyeDropper],
    );
    for mode in [ToolMode::Splat, ToolMode::Foliage, ToolMode::Regions] {
        assert_eq!(brush_types_for(&mode), vec![BrushType::SetExact, BrushType::EyeDropper]);
    }
}

#[test]
fn eyedropper_samples_land_in_the_brush_color() {
    let mut state = EditorToolsState::default();
    state.color.a = 9;
    state.apply_brush_event(&TerrainBrushEvent::EyeDropTerrainHeight { height: 777 });
    assert_eq!(state.color, LinearPixelColor { r: 777, g: 0, b: 0, a: 9 });
    state.apply_brush_event(&TerrainBrushEvent::EyeDropSplatMap { r: 1, g: 2, b: 3 });
    assert_eq!(state.color, LinearPixelColor { r: 1, g: 2, b: 3, a: 9 });
    assert_eq!(state.tool_mode, ToolMode::Height);
}
