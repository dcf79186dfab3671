//! The doodad manifest: the registry of every placeable doodad, keyed by
//! its unique name, with the renderable each one resolves to and the tags
//! it is listed under.

use vstd::prelude::*;
use crate::text::str_eq;
use crate::zone_file::{CustomProp, CustomPropView, CustomPropsMap, Vec2};

verus! {

/// A color with four 8-bit channels.
#[derive(Clone, Copy, PartialEq, Eq, Structural, Debug)]
pub struct ColorRgba {
    pub r: u8,
    pub g: u8,
    pub b: u8,
    pub a: u8,
}

/// How a cube-shaped doodad is realized: a color, optionally drawn as a
/// wireframe.
#[derive(Clone, Copy, PartialEq, Eq, Structural, Debug)]
pub struct CubeShapeDefinition {
    pub color: ColorRgba,
    pub wireframe: bool,
}

/// How a doodad is visually realized.
#[derive(Debug)]
pub enum RenderableType {
    GltfModel(String),
    CubeShape(CubeShapeDefinition),
    MagicFx(String),
    LiquidPlane(String),
}

/// The mathematical value of a renderable.
#[verifier::ext_equal]
pub enum RenderableTypeView {
    GltfModel(Seq<char>),
    CubeShape(CubeShapeDefinition),
    MagicFx(Seq<char>),
    LiquidPlane(Seq<char>),
}

impl View for RenderableType {
    type V = RenderableTypeView;

    open spec fn view(&self) -> RenderableTypeView {
        match self {
            RenderableType::GltfModel(p) => RenderableTypeView::GltfModel(p@),
            RenderableType::CubeShape(c) => RenderableTypeView::CubeShape(*c),
            RenderableType::MagicFx(n) => RenderableTypeView::MagicFx(n@),
            RenderableType::LiquidPlane(n) => RenderableTypeView::LiquidPlane(n@),
        }
    }
}

impl Clone for RenderableType {
    fn clone(&self) -> (r: Self)
        ensures
            r@ == self@,
    {
        match self {
            RenderableType::GltfModel(p) => RenderableType::GltfModel(p.clone()),
            RenderableType::CubeShape(c) => RenderableType::CubeShape(*c),
            RenderableType::MagicFx(n) => RenderableType::MagicFx(n.clone()),
            RenderableType::LiquidPlane(n) => RenderableType::LiquidPlane(n.clone()),
        }
    }
}

/// The mathematical value of a list of strings.
pub open spec fn strings_view(v: Seq<String>) -> Seq<Seq<char>> {
    v.map_values(|s: String| s@)
}

/// Clones a list of strings.
pub fn clone_strings(v: &Vec<String>) -> (r: Vec<String>)
    ensures
        strings_view(r@) == strings_view(v@),
{
    let mut r: Vec<String> = Vec::new();
    let n = v.len();
    let mut k: usize = 0;
    while k < n
        invariant
            n == v@.len(),
            k <= n,
            r@.len() == k,
            forall|t: int| 0 <= t < k ==> (#[trigger] r@[t])@ == v@[t]@,
        decreases n - k,
    {
        r.push(v[k].clone());
        k += 1;
    }
    proof {
        assert(strings_view(r@) =~= strings_view(v@));
    }
    r
}

/// One doodad definition: its renderable, the properties a fresh instance
/// starts with, the tags it is listed under, and its snapping grid.
#[derive(Debug)]
pub struct DoodadDefinition {
    pub model: RenderableType,
    pub initial_custom_props: Option<CustomPropsMap>,
    pub tags: Option<Vec<String>>,
    pub snap_dimensions: Option<Vec2>,
}

/// The mathematical value of a doodad definition.
#[verifier::ext_equal]
pub struct DoodadDefinitionView {
    pub model: RenderableTypeView,
    pub initial_custom_props: Option<Seq<(Seq<char>, CustomPropView)>>,
    pub tags: Option<Seq<Seq<char>>>,
    pub snap_dimensions: Option<Vec2>,
}

impl View for DoodadDefinition {
    type V = DoodadDefinitionView;

    open spec fn view(&self) -> DoodadDefinitionView {
        DoodadDefinitionView {
            model: self.model@,
            initial_custom_props: match &self.initial_custom_props {
                Some(m) => Some(m@),
                None => None,
            },
            tags: match &self.tags {
                Some(t) => Some(strings_view(t@)),
                None => None,
            },
            snap_dimensions: self.snap_dimensions,
        }
    }
}

impl Clone for DoodadDefinition {
    fn clone(&self) -> (r: Self)
        ensures
            r@ == self@,
    {
        let r = DoodadDefinition {
            model: self.model.clone(),
            initial_custom_props: match &self.initial_custom_props {
                Some(m) => Some(m.clone()),
                None => None,
            },
            tags: match &self.tags {
                Some(t) => Some(clone_strings(t)),
                None => None,
            },
            snap_dimensions: self.snap_dimensions,
        };
        proof {
            assert(r@ =~= self@);
        }
        r
    }
}

/// The mathematical value of the definition table.
pub open spec fn defs_view(v: Seq<(String, DoodadDefinition)>) -> Seq<
    (Seq<char>, DoodadDefinitionView),
> {
    v.map_values(|p: (String, DoodadDefinition)| (p.0@, p.1@))
}

/// The manifest: the known tags and every doodad definition, keyed by the
/// doodad's unique name.
#[derive(Debug)]
pub struct DoodadManifest {
    pub doodad_tags: Vec<String>,
    pub doodad_definitions: Vec<(String, DoodadDefinition)>,
}

impl DoodadManifest {
    /// Doodad names are unique keys of the definition table.
    pub open spec fn wf(&self) -> bool {
        forall|k1: int, k2: int|
            0 <= k1 < k2 < self.doodad_definitions@.len()
                ==> (#[trigger] self.doodad_definitions@[k1]).0@ != (
            #[trigger] self.doodad_definitions@[k2]).0@
    }
}

/// The first definition stored under a name, if any.
pub open spec fn spec_lookup(
    defs: Seq<(Seq<char>, DoodadDefinitionView)>,
    name: Seq<char>,
) -> Option<DoodadDefinitionView>
    decreases defs.len(),
{
    if defs.len() == 0 {
        None
    } else if defs[0].0 == name {
        Some(defs[0].1)
    } else {
        spec_lookup(defs.skip(1), name)
    }
}

/// A name is found exactly when some entry carries it.
pub proof fn lemma_lookup_contains(defs: Seq<(Seq<char>, DoodadDefinitionView)>, name: Seq<char>)
    ensures
        (spec_lookup(defs, name) is Some) <==> (exists|k: int|
            0 <= k < defs.len() && (#[trigger] defs[k]).0 == name),
        spec_lookup(defs, name) matches Some(d) ==> exists|k: int|
            0 <= k < defs.len() && (#[trigger] defs[k]).0 == name && defs[k].1 == d,
    decreases defs.len(),
{
    if defs.len() > 0 {
        lemma_lookup_contains(defs.skip(1), name);
        if defs[0].0 != name {
            if spec_lookup(defs.skip(1), name) is Some {
                let k = choose|k: int|
                    0 <= k < defs.skip(1).len() && (#[trigger] defs.skip(1)[k]).0 == name;
                assert(defs[k + 1] == defs.skip(1)[k]);
            }
            if exists|k: int| 0 <= k < defs.len() && (#[trigger] defs[k]).0 == name {
                let k = choose|k: int| 0 <= k < defs.len() && (#[trigger] defs[k]).0 == name;
                assert(defs.skip(1)[k - 1] == defs[k]);
            }
            if spec_lookup(defs.skip(1), name) is Some {
                let d = spec_lookup(defs.skip(1), name)->Some_0;
                let k = choose|k: int|
                    0 <= k < defs.skip(1).len() && (#[trigger] defs.skip(1)[k]).0 == name
                        && defs.skip(1)[k].1 == d;
                assert(defs[k + 1] == defs.skip(1)[k]);
            }
        }
    }
}

impl DoodadManifest {
    /// Looks the definition of a doodad up by its name; absent names yield
    /// nothing.
    pub fn get_doodad_definition_by_name(&self, name: &str) -> (r: Option<DoodadDefinition>)
        ensures
            r matches Some(d) ==> spec_lookup(defs_view(self.doodad_definitions@), name@) == Some(
                d@,
            ),
            r is None <==> spec_lookup(defs_view(self.doodad_definitions@), name@) is None,
            (r is Some) <==> (exists|k: int|
                0 <= k < self.doodad_definitions@.len() && (#[trigger] defs_view(
                    self.doodad_definitions@,
                )[k]).0 == name@),
    {
        proof {
            lemma_lookup_contains(defs_view(self.doodad_definitions@), name@);
        }
        let n = self.doodad_definitions.len();
        let mut k: usize = 0;
        proof {
            assert(defs_view(self.doodad_definitions@).skip(0) =~= defs_view(
                self.doodad_definitions@,
            ));
        }
        while k < n
            invariant
                n == self.doodad_definitions@.len(),
                k <= n,
                spec_lookup(defs_view(self.doodad_definitions@), name@) == spec_lookup(
                    defs_view(self.doodad_definitions@).skip(k as int),
                    name@,
                ),
            decreases n - k,
        {
            let ghost defs = defs_view(self.doodad_definitions@);
            let (entry_name, entry_def) = &self.doodad_definitions[k];
            proof {
                assert(defs.skip(k as int)[0] == defs[k as int]);
                assert(defs.skip(k as int).skip(1) =~= defs.skip(k + 1));
            }
            if str_eq(entry_name.as_str(), name) {
                let d = entry_def.clone();
                return Some(d);
            }
            k += 1;
        }
        proof {
            assert(defs_view(self.doodad_definitions@).skip(n as int).len() == 0);
        }
        None
    }
}

/// Marks a doodad entity that received its collision volumes.
#[derive(Debug)]
pub struct DoodadColliderMarker {}

/// The definition a placed doodad was spawned from, attached to its scene
/// entity.
#[derive(Debug)]
pub struct DoodadComponent {
    pub definition: DoodadDefinition,
}

impl DoodadComponent {
    /// Wraps a definition for attachment to a freshly placed doodad.
    pub fn from_definition(definition: &DoodadDefinition) -> (r: Self)
        ensures
            r.definition@ == definition@,
    {
        DoodadComponent { definition: definition.clone() }
    }
}

/// The manifest as held by the editor once loaded, beside the tag index
/// derived from it.
#[derive(Debug)]
pub struct DoodadManifestResource {
    pub manifest: Option<DoodadManifest>,
    pub doodad_tag_map: crate::tags::DoodadTagMap,
}

/// The placement preview: which doodad, if any, hovers under the cursor
/// waiting to be placed.
#[derive(Debug)]
pub struct DoodadPlacementComponent {
    pub preview_doodad_name: Option<String>,
}

impl DoodadPlacementComponent {
    /// Follows the selected doodad: the preview shows the selection's name,
    /// or nothing when nothing is selected.
    pub fn update_preview(&mut self, selected: Option<&String>)
        ensures
            match selected {
                Some(name) => (final(self).preview_doodad_name matches Some(n) && n@ == name@),
                None => final(self).preview_doodad_name is None,
            },
    {
        match selected {
            Some(name) => {
                let changed = match &self.preview_doodad_name {
                    Some(current) => !str_eq(current.as_str(), name.as_str()),
                    None => true,
                };
                if changed {
                    self.preview_doodad_name = Some(name.clone());
                }
            },
            None => {
                self.preview_doodad_name = None;
            },
        }
    }
}

} // verus!
