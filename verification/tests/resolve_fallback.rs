use zone_editor::manifest::{ColorRgba, CubeShapeDefinition, DoodadDefinition, RenderableType};
use zone_editor::resolve::{LoadedGltfAssets, ResolvedRenderable, missing_model_color,
    resolve_renderable};

fn definition(model: RenderableType) -> DoodadDefinition {
    DoodadDefinition { model, initial_custom_props: None, tags: None, snap_dimensions: None }
}

fn registry(keys: &[&str]) -> LoadedGltfAssets {
    LoadedGltfAssets { gltf_models: keys.iter().map(|k| k.to_string()).collect() }
}

#[test]
fn unregistered_model_degrades_to_placeholder_cube() {
    let def = definition(RenderableType::GltfModel("models/ghost.glb".to_string()));
    let loaded = registry(&["models/tree.glb"]);
    match resolve_renderable(&def, &loaded) {
        ResolvedRenderable::Cube(cube) => {
            assert_eq!(cube.color, missing_model_color());
            assert!(!cube.wireframe);
        }
        other => panic!("expected the placeholder cube, got {:?}", other),
    }
}

#[test]
fn registered_model_resolves_to_itself() {
    let def = definition(RenderableType::GltfModel("models/tree.glb".to_string()));
    let loaded = registry(&["models/rock.glb", "models/tree.glb"]);
    match resolve_renderable(&def, &loaded) {
        ResolvedRenderable::Model(key) => assert_eq!(key, "models/tree.glb"),
        other => panic!("expected the model, got {:?}", other),
    }
}

#[test]
fn cube_shape_keeps_its_own_look() {
    let cube = CubeShapeDefinition {
        color: ColorRgba { r: 10, g: 20, b: 30, a: 255 },
        wireframe: true,
    };
    let def = definition(RenderableType::CubeShape(cube));
    let loaded = registry(&[]);
    match resolve_renderable(&def, &loaded) {
        ResolvedRenderable::Cube(c) => {
            assert_eq!(c.color, ColorRgba { r: 10, g: 20, b: 30, a: 255 });
            assert!(c.wireframe);
        }
        other => panic!("expected the cube, got {:?}", other),
    }
}

#[test]
fn effect_and_liquid_pass_their_names_through() {
    let loaded = registry(&[]);
    match resolve_renderable(&definition(RenderableType::MagicFx("flame".to_string())), &loaded) {
        ResolvedRenderable::Fx(n) => assert_eq!(n, "flame"),
        other => panic!("expected the effect, got {:?}", other),
    }
    match resolve_renderable(
        &definition(RenderableType::LiquidPlane("pond".to_string())),
        &loaded,
    ) {
        ResolvedRenderable::Liquid(n) => assert_eq!(n, "pond"),
        other => panic!("expected the liquid plane, got {:?}", other),
    }
}

#[test]
fn missing_model_color_is_the_designated_one() {
    let c = missing_model_color();
    assert_eq!((c.r, c.g, c.b, c.a), (230, 102, 230, 255));
}
