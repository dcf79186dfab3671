//! Editor tool state: the brush parameters the tool panels edit, and the
//! terrain editing command they compile to. The asset pipeline's loading
//! states live here too.

use vstd::prelude::*;

verus! {

/// A pixel color with one 16-bit channel each, as the brush panels edit it.
#[derive(Clone, Copy, PartialEq, Eq, Structural, Debug)]
pub struct LinearPixelColor {
    pub r: u16,
    pub g: u16,
    pub b: u16,
    pub a: u16,
}

impl Default for LinearPixelColor {
    fn default() -> (r: Self)
        ensures
            r == (LinearPixelColor { r: 0, g: 0, b: 0, a: 0 }),
    {
        LinearPixelColor { r: 0, g: 0, b: 0, a: 0 }
    }
}

/// The shape of brush stroke being applied.
#[derive(Clone, Copy, PartialEq, Eq, Structural, Debug)]
pub enum BrushType {
    SetExact,
    Smooth,
    Noise,
    EyeDropper,
}

impl BrushType {
    /// The label shown for the brush in the tool panel.
    pub fn to_string(&self) -> (r: String)
        ensures
            self is SetExact ==> r@ == "Set Exact"@,
            self is Smooth ==> r@ == "Smooth"@,
            self is Noise ==> r@ == "Noise"@,
            self is EyeDropper ==> r@ == "Eyedropper"@,
    {
        match self {
            BrushType::SetExact => "Set Exact".to_owned(),
            BrushType::Smooth => "Smooth".to_owned(),
            BrushType::Noise => "Noise".to_owned(),
            BrushType::EyeDropper => "Eyedropper".to_owned(),
        }
    }
}

impl Default for BrushType {
    fn default() -> (r: Self)
        ensures
            r is SetExact,
    {
        BrushType::SetExact
    }
}

/// Which layer of the world the tools are editing.
#[derive(Clone, Copy, PartialEq, Eq, Structural, Debug)]
pub enum ToolMode {
    Height,
    Splat,
    Foliage,
    Regions,
}

impl ToolMode {
    /// The label shown for the mode in the tool panel.
    pub fn to_string(&self) -> (r: String)
        ensures
            self is Height ==> r@ == "Height"@,
            self is Splat ==> r@ == "Splat"@,
            self is Foliage ==> r@ == "Foliage"@,
            self is Regions ==> r@ == "Regions"@,
    {
        match self {
            ToolMode::Height => "Height".to_owned(),
            ToolMode::Splat => "Splat".to_owned(),
            ToolMode::Foliage => "Foliage".to_owned(),
            ToolMode::Regions => "Regions".to_owned(),
        }
    }
}

impl Default for ToolMode {
    fn default() -> (r: Self)
        ensures
            r is Height,
    {
        ToolMode::Height
    }
}

/// The brush parameters the tool panels edit.
#[derive(Clone, Copy, PartialEq, Eq, Structural, Debug)]
pub struct EditorToolsState {
    pub tool_mode: ToolMode,
    pub brush_type: BrushType,
    pub brush_radius: u32,
    pub brush_hardness: u32,
    pub color: LinearPixelColor,
}

impl Default for EditorToolsState {
    fn default() -> (r: Self)
        ensures
            r.tool_mode is Height,
            r.brush_type is SetExact,
            r.brush_radius == 0,
            r.brush_hardness == 0,
            r.color == (LinearPixelColor { r: 0, g: 0, b: 0, a: 0 }),
    {
        EditorToolsState {
            tool_mode: ToolMode::Height,
            brush_type: BrushType::SetExact,
            brush_radius: 0,
            brush_hardness: 0,
            color: LinearPixelColor { r: 0, g: 0, b: 0, a: 0 },
        }
    }
}

/// The terrain editing command a brush stroke applies.
#[derive(Clone, Copy, PartialEq, Eq, Structural, Debug)]
pub enum EditingTool {
    /// Sets the height map to an exact height.
    SetHeightMap { height: u16 },
    /// Sets the splat map's texture channels.
    SetSplatMap { r: u8, g: u8, b: u8 },
}

impl EditingTool {
    /// The editing command the current tool state stands for: the height
    /// channel in height mode, the three texture channels in splat mode;
    /// foliage and region modes carry no terrain command.
    pub fn from_state(state: &EditorToolsState) -> (r: Option<EditingTool>)
        ensures
            state.tool_mode is Height ==> r == Some(
                EditingTool::SetHeightMap { height: state.color.r },
            ),
            state.tool_mode is Splat ==> r == Some(
                EditingTool::SetSplatMap {
                    r: state.color.r as u8,
                    g: state.color.g as u8,
                    b: state.color.b as u8,
                },
            ),
            (state.tool_mode is Foliage || state.tool_mode is Regions) ==> r is None,
    {
        match state.tool_mode {
            ToolMode::Height => Some(EditingTool::SetHeightMap { height: state.color.r }),
            ToolMode::Splat => Some(
                EditingTool::SetSplatMap {
                    r: #[verifier::truncate] (state.color.r as u8),
                    g: #[verifier::truncate] (state.color.g as u8),
                    b: #[verifier::truncate] (state.color.b as u8),
                },
            ),
            ToolMode::Foliage => None,
            ToolMode::Regions => None,
        }
    }
}

/// The asset pipeline's loading stages, in the order they are entered.
#[derive(Clone, Copy, PartialEq, Eq, Structural, Debug, Hash)]
pub enum AssetLoadState {
    Init,
    FundamentalAssetsLoad,
    ShadersLoad,
    Complete,
}

impl AssetLoadState {
    /// The stage entered when the current one finishes; the final stage is
    /// terminal.
    pub fn advance(&self) -> (r: AssetLoadState)
        ensures
            self is Init ==> r is FundamentalAssetsLoad,
            self is FundamentalAssetsLoad ==> r is ShadersLoad,
            self is ShadersLoad ==> r is Complete,
            self is Complete ==> r is Complete,
    {
        match self {
            AssetLoadState::Init => AssetLoadState::FundamentalAssetsLoad,
            AssetLoadState::FundamentalAssetsLoad => AssetLoadState::ShadersLoad,
            AssetLoadState::ShadersLoad => AssetLoadState::Complete,
            AssetLoadState::Complete => AssetLoadState::Complete,
        }
    }
}

impl Default for AssetLoadState {
    fn default() -> (r: Self)
        ensures
            r is Init,
    {
        AssetLoadState::Init
    }
}

/// The brush shapes the tool panel offers in a given mode: height editing
/// offers every brush; the paint-like modes offer exact setting and the
/// eyedropper.
pub fn brush_types_for(mode: &ToolMode) -> (r: Vec<BrushType>)
    ensures
        mode is Height ==> r@ == seq![
            BrushType::SetExact,
            BrushType::Smooth,
            BrushType::Noise,
            BrushType::EyeDropper,
        ],
        !(mode is Height) ==> r@ == seq![BrushType::SetExact, BrushType::EyeDropper],
{
    let mut r: Vec<BrushType> = Vec::new();
    r.push(BrushType::SetExact);
    match mode {
        ToolMode::Height => {
            r.push(BrushType::Smooth);
            r.push(BrushType::Noise);
            r.push(BrushType::EyeDropper);
            proof {
                assert(r@ =~= seq![
                    BrushType::SetExact,
                    BrushType::Smooth,
                    BrushType::Noise,
                    BrushType::EyeDropper,
                ]);
            }
        },
        ToolMode::Splat => {
            r.push(BrushType::EyeDropper);
            proof {
                assert(r@ =~= seq![BrushType::SetExact, BrushType::EyeDropper]);
            }
        },
        ToolMode::Foliage => {
            r.push(BrushType::EyeDropper);
            proof {
                assert(r@ =~= seq![BrushType::SetExact, BrushType::EyeDropper]);
            }
        },
        ToolMode::Regions => {
            r.push(BrushType::EyeDropper);
            proof {
                assert(r@ =~= seq![BrushType::SetExact, BrushType::EyeDropper]);
            }
        },
    }
    r
}

/// What the terrain reports back when an eyedropper stroke samples it.
#[derive(Clone, Copy, PartialEq, Eq, Structural, Debug)]
pub enum TerrainBrushEvent {
    EyeDropTerrainHeight { height: u16 },
    EyeDropSplatMap { r: u8, g: u8, b: u8 },
}

impl EditorToolsState {
    /// Takes a sampled value into the brush color: a sampled height lands
    /// in the first channel; sampled splat channels land in all three.
    pub fn apply_brush_event(&mut self, event: &TerrainBrushEvent)
        ensures
            match event {
                TerrainBrushEvent::EyeDropTerrainHeight { height } => final(self).color == (
                LinearPixelColor {
                    r: *height,
                    g: old(self).color.g,
                    b: old(self).color.b,
                    a: old(self).color.a,
                }),
                TerrainBrushEvent::EyeDropSplatMap { r, g, b } => final(self).color == (
                LinearPixelColor { r: *r as u16, g: *g as u16, b: *b as u16, a: old(self).color.a }),
            },
            final(self).tool_mode == old(self).tool_mode,
            final(self).brush_type == old(self).brush_type,
            final(self).brush_radius == old(self).brush_radius,
            final(self).brush_hardness == old(self).brush_hardness,
    {
        match event {
            TerrainBrushEvent::EyeDropTerrainHeight { height } => {
                self.color.r = *height;
            },
            TerrainBrushEvent::EyeDropSplatMap { r, g, b } => {
                self.color.r = *r as u16;
                self.color.g = *g as u16;
                self.color.b = *b as u16;
            },
        }
    }
}

} // verus!
