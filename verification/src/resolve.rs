//! Doodad resolution: turning a definition's abstract renderable into what
//! the scene actually shows.
//!
//! A model reference whose geometry has not been registered never fails the
//! caller: it degrades to a unit cube in the designated missing-asset color,
//! so the scene always shows a placeholder.

use vstd::prelude::*;
use crate::manifest::{ColorRgba, CubeShapeDefinition, DoodadDefinition, RenderableType,
    RenderableTypeView, strings_view};
use crate::text::str_eq;

verus! {

/// The registry of model keys whose geometry the asset pipeline has loaded;
/// the loaded geometry itself stays with the engine.
#[derive(Debug)]
pub struct LoadedGltfAssets {
    pub gltf_models: Vec<String>,
}

impl LoadedGltfAssets {
    /// A model key is registered.
    pub open spec fn spec_contains(&self, key: Seq<char>) -> bool {
        strings_view(self.gltf_models@).contains(key)
    }

    /// Tells whether a model key is registered.
    pub fn contains_model(&self, key: &str) -> (r: bool)
        ensures
            r == self.spec_contains(key@),
    {
        let n = self.gltf_models.len();
        let mut k: usize = 0;
        while k < n
            invariant
                n == self.gltf_models@.len(),
                k <= n,
                forall|t: int| 0 <= t < k ==> strings_view(self.gltf_models@)[t] != key@,
            decreases n - k,
        {
            if str_eq(self.gltf_models[k].as_str(), key) {
                proof {
                    assert(strings_view(self.gltf_models@)[k as int] == key@);
                }
                return true;
            }
            k += 1;
        }
        proof {
            if strings_view(self.gltf_models@).contains(key@) {
                let t = choose|t: int|
                    0 <= t < strings_view(self.gltf_models@).len() && strings_view(
                        self.gltf_models@,
                    )[t] == key@;
            }
        }
        false
    }
}

/// What a doodad is concretely realized as.
#[derive(Debug)]
pub enum ResolvedRenderable {
    /// A registered model, by its key.
    Model(String),
    /// A unit cube with the given look.
    Cube(CubeShapeDefinition),
    /// A visual effect, by its name.
    Fx(String),
    /// A liquid plane, by its name.
    Liquid(String),
}

/// The mathematical value of a resolved renderable.
#[verifier::ext_equal]
pub enum ResolvedRenderableView {
    Model(Seq<char>),
    Cube(CubeShapeDefinition),
    Fx(Seq<char>),
    Liquid(Seq<char>),
}

impl View for ResolvedRenderable {
    type V = ResolvedRenderableView;

    open spec fn view(&self) -> ResolvedRenderableView {
        match self {
            ResolvedRenderable::Model(k) => ResolvedRenderableView::Model(k@),
            ResolvedRenderable::Cube(c) => ResolvedRenderableView::Cube(*c),
            ResolvedRenderable::Fx(n) => ResolvedRenderableView::Fx(n@),
            ResolvedRenderable::Liquid(n) => ResolvedRenderableView::Liquid(n@),
        }
    }
}

/// The designated missing-asset color.
pub open spec fn spec_missing_model_color() -> ColorRgba {
    ColorRgba { r: 230, g: 102, b: 230, a: 255 }
}

/// The placeholder shown for a model whose geometry is not registered.
pub open spec fn spec_fallback_cube() -> CubeShapeDefinition {
    CubeShapeDefinition { color: spec_missing_model_color(), wireframe: false }
}

/// The designated missing-asset color, as a value.
pub fn missing_model_color() -> (r: ColorRgba)
    ensures
        r == spec_missing_model_color(),
{
    ColorRgba { r: 230, g: 102, b: 230, a: 255 }
}

/// Resolves a doodad definition against the model registry. Resolution is
/// total: a model key without registered geometry yields the placeholder
/// cube in the missing-asset color instead of an error.
pub fn resolve_renderable(def: &DoodadDefinition, loaded: &LoadedGltfAssets) -> (r:
    ResolvedRenderable)
    ensures
        r@ == match def.model@ {
            RenderableTypeView::GltfModel(key) => if loaded.spec_contains(key) {
                ResolvedRenderableView::Model(key)
            } else {
                ResolvedRenderableView::Cube(spec_fallback_cube())
            },
            RenderableTypeView::CubeShape(c) => ResolvedRenderableView::Cube(c),
            RenderableTypeView::MagicFx(n) => ResolvedRenderableView::Fx(n),
            RenderableTypeView::LiquidPlane(n) => ResolvedRenderableView::Liquid(n),
        },
{
    match &def.model {
        RenderableType::GltfModel(key) => {
            if loaded.contains_model(key.as_str()) {
                ResolvedRenderable::Model(key.clone())
            } else {
                ResolvedRenderable::Cube(
                    CubeShapeDefinition { color: missing_model_color(), wireframe: false },
                )
            }
        },
        RenderableType::CubeShape(c) => ResolvedRenderable::Cube(*c),
        RenderableType::MagicFx(n) => ResolvedRenderable::Fx(n.clone()),
        RenderableType::LiquidPlane(n) => ResolvedRenderable::Liquid(n.clone()),
    }
}

} // verus!
