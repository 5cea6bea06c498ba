//! The tools in the palette, their settings and their names.
//!
//! Lengths and factors are binary32 bit patterns.

use crate::sample::{doubled, is_nan, larger, less, lt, max_sample, min_sample, negated, num_eq, smaller};
use vstd::prelude::*;

verus! {

/// The shapes of the cookie cutter.
#[derive(Copy, Clone, Debug, PartialEq, Eq, Structural)]
pub enum CutterFamily {
    Circle,
    Square,
    Hexagon,
    Star5,
}

/// The tool in hand.
#[derive(Copy, Clone, Debug, PartialEq, Eq, Structural)]
pub enum ToolKind {
    /// A sphere that adds or removes clay.
    Clay,
    /// A finger that displaces clay and keeps its volume.
    Press,
    /// A finger that draws clay out and keeps its volume.
    Pull,
    /// A blade that cuts a shallow kerf.
    Knife,
    /// A shape that punches through.
    Cutter(CutterFamily),
    /// A plane that cuts through, drawn from one point to another.
    WireCutter,
    /// A brush that irons out detail.
    Smooth,
    /// A disk that presses flats.
    Paddle,
    /// Picks a piece.
    Select,
    /// Picks a piece and moves it.
    Move,
}

/// The name of a tool in messages.
pub open spec fn label_of(kind: ToolKind) -> Seq<char> {
    match kind {
        ToolKind::Clay => "add/remove"@,
        ToolKind::Press => "press"@,
        ToolKind::Pull => "pull"@,
        ToolKind::Knife => "knife"@,
        ToolKind::Cutter(CutterFamily::Circle) => "cutter/circle"@,
        ToolKind::Cutter(CutterFamily::Square) => "cutter/square"@,
        ToolKind::Cutter(CutterFamily::Hexagon) => "cutter/hexagon"@,
        ToolKind::Cutter(CutterFamily::Star5) => "cutter/star"@,
        ToolKind::WireCutter => "wire cutter"@,
        ToolKind::Smooth => "smooth"@,
        ToolKind::Paddle => "paddle"@,
        ToolKind::Select => "select"@,
        ToolKind::Move => "move"@,
    }
}

/// The name of a tool in messages.
pub fn tool_label(kind: ToolKind) -> (r: &'static str)
    ensures
        r@ == label_of(kind),
{
    match kind {
        ToolKind::Clay => "add/remove",
        ToolKind::Press => "press",
        ToolKind::Pull => "pull",
        ToolKind::Knife => "knife",
        ToolKind::Cutter(CutterFamily::Circle) => "cutter/circle",
        ToolKind::Cutter(CutterFamily::Square) => "cutter/square",
        ToolKind::Cutter(CutterFamily::Hexagon) => "cutter/hexagon",
        ToolKind::Cutter(CutterFamily::Star5) => "cutter/star",
        ToolKind::WireCutter => "wire cutter",
        ToolKind::Smooth => "smooth",
        ToolKind::Paddle => "paddle",
        ToolKind::Select => "select",
        ToolKind::Move => "move",
    }
}

/// The name of a tool in the palette.
pub open spec fn short_label_of(kind: ToolKind) -> Seq<char> {
    match kind {
        ToolKind::Clay => "Add/Remove"@,
        ToolKind::Press => "Press"@,
        ToolKind::Pull => "Pull"@,
        ToolKind::Knife => "Knife"@,
        ToolKind::Cutter(CutterFamily::Circle) => "Circle cutter"@,
        ToolKind::Cutter(CutterFamily::Square) => "Square cutter"@,
        ToolKind::Cutter(CutterFamily::Hexagon) => "Hex cutter"@,
        ToolKind::Cutter(CutterFamily::Star5) => "Star cutter"@,
        ToolKind::WireCutter => "Wire cutter"@,
        ToolKind::Smooth => "Smooth"@,
        ToolKind::Paddle => "Paddle"@,
        ToolKind::Select => "Select"@,
        ToolKind::Move => "Move"@,
    }
}

/// The name of a tool in the palette.
pub fn short_label(kind: ToolKind) -> (r: &'static str)
    ensures
        r@ == short_label_of(kind),
{
    match kind {
        ToolKind::Clay => "Add/Remove",
        ToolKind::Press => "Press",
        ToolKind::Pull => "Pull",
        ToolKind::Knife => "Knife",
        ToolKind::Cutter(CutterFamily::Circle) => "Circle cutter",
        ToolKind::Cutter(CutterFamily::Square) => "Square cutter",
        ToolKind::Cutter(CutterFamily::Hexagon) => "Hex cutter",
        ToolKind::Cutter(CutterFamily::Star5) => "Star cutter",
        ToolKind::WireCutter => "Wire cutter",
        ToolKind::Smooth => "Smooth",
        ToolKind::Paddle => "Paddle",
        ToolKind::Select => "Select",
        ToolKind::Move => "Move",
    }
}

/// What the palette says about using a tool.
pub open spec fn hint_of(kind: ToolKind) -> Seq<char> {
    match kind {
        ToolKind::Clay => "LMB remove · Shift+LMB add\nShift+LMB on an empty bench builds up.\nShift+scroll or [ / ] resize.\nRight-drag orbits · Q / E turntable.\nSideways add + Q/E draws a ring."@,
        ToolKind::Press => "Hold LMB to press — clay displaces into a rim.\nVolume is conserved (not carved away).\nShift+scroll or [ / ] resize · Advance sets bite."@,
        ToolKind::Pull => "Hold LMB to pull — surface grows, rim thins.\nVolume is conserved (drawn from surroundings).\nEmpty bench: use Add/Remove to deposit coils."@,
        ToolKind::Knife => "Hold LMB and drag to cut a shallow kerf.\nRemoves clay (no rim recruitment).\nFor a through-slice use the Wire cutter."@,
        ToolKind::Cutter(_) => "Click punches a hole.\nShift+scroll or [ / ] resize.\nRight-drag orbits · Q / E turntable."@,
        ToolKind::WireCutter => "Drag through the workpiece to slice.\nRelease completes the cut."@,
        ToolKind::Smooth => "Hold LMB to polish detail.\nShift+scroll or [ / ] resize."@,
        ToolKind::Paddle => "Hold LMB to press a flat — clay squeezes to a rim.\nVolume is conserved (displace, not carve).\nShift+scroll or [ / ] resize · Advance sets depth."@,
        ToolKind::Select => "LMB picks the piece under the cursor.\nThe selected piece is boxed in yellow.\nDel  removes the selected piece.\nA    active-only sculpt (other pieces stay).\nCtrl+G  drop every floating piece."@,
        ToolKind::Move => "Pick a piece (LMB) or use the current selection.\nGrab a red / green / blue arrow and drag along it\nfor a live preview; release to commit.\nOr type X / Y / Z nudges (mm) and Apply.\nAll moves snap to whole voxels."@,
    }
}

/// What the palette says about using a tool.
pub fn tool_palette_hint(kind: ToolKind) -> (r: &'static str)
    ensures
        r@ == hint_of(kind),
{
    match kind {
        ToolKind::Clay => "LMB remove · Shift+LMB add\nShift+LMB on an empty bench builds up.\nShift+scroll or [ / ] resize.\nRight-drag orbits · Q / E turntable.\nSideways add + Q/E draws a ring.",
        ToolKind::Press => "Hold LMB to press — clay displaces into a rim.\nVolume is conserved (not carved away).\nShift+scroll or [ / ] resize · Advance sets bite.",
        ToolKind::Pull => "Hold LMB to pull — surface grows, rim thins.\nVolume is conserved (drawn from surroundings).\nEmpty bench: use Add/Remove to deposit coils.",
        ToolKind::Knife => "Hold LMB and drag to cut a shallow kerf.\nRemoves clay (no rim recruitment).\nFor a through-slice use the Wire cutter.",
        ToolKind::Cutter(_) => "Click punches a hole.\nShift+scroll or [ / ] resize.\nRight-drag orbits · Q / E turntable.",
        ToolKind::WireCutter => "Drag through the workpiece to slice.\nRelease completes the cut.",
        ToolKind::Smooth => "Hold LMB to polish detail.\nShift+scroll or [ / ] resize.",
        ToolKind::Paddle => "Hold LMB to press a flat — clay squeezes to a rim.\nVolume is conserved (displace, not carve).\nShift+scroll or [ / ] resize · Advance sets depth.",
        ToolKind::Select => "LMB picks the piece under the cursor.\nThe selected piece is boxed in yellow.\nDel  removes the selected piece.\nA    active-only sculpt (other pieces stay).\nCtrl+G  drop every floating piece.",
        ToolKind::Move => "Pick a piece (LMB) or use the current selection.\nGrab a red / green / blue arrow and drag along it\nfor a live preview; release to commit.\nOr type X / Y / Z nudges (mm) and Apply.\nAll moves snap to whole voxels.",
    }
}

/// The tools in palette order.
pub open spec fn palette() -> Seq<ToolKind> {
    seq![
        ToolKind::Clay,
        ToolKind::Press,
        ToolKind::Pull,
        ToolKind::Knife,
        ToolKind::Cutter(CutterFamily::Circle),
        ToolKind::Cutter(CutterFamily::Square),
        ToolKind::Cutter(CutterFamily::Hexagon),
        ToolKind::Cutter(CutterFamily::Star5),
        ToolKind::WireCutter,
        ToolKind::Smooth,
        ToolKind::Paddle,
        ToolKind::Select,
        ToolKind::Move,
    ]
}

/// The keys that pick up the tools, in palette order.
pub open spec fn palette_keys() -> Seq<char> {
    seq!['1', 'P', 'L', 'K', '2', '3', '4', '5', '6', '7', '8', '9', '0']
}

/// The palette: each tool with the key that picks it up.
pub fn tool_palette_order() -> (r: Vec<(char, ToolKind)>)
    ensures
        r@.len() == palette().len(),
        forall|i: int|
            0 <= i < r@.len() ==> (#[trigger] r@[i]).0 == palette_keys()[i] && r@[i].1 == palette()[i],
{
    let mut r: Vec<(char, ToolKind)> = Vec::new();
    r.push(('1', ToolKind::Clay));
    r.push(('P', ToolKind::Press));
    r.push(('L', ToolKind::Pull));
    r.push(('K', ToolKind::Knife));
    r.push(('2', ToolKind::Cutter(CutterFamily::Circle)));
    r.push(('3', ToolKind::Cutter(CutterFamily::Square)));
    r.push(('4', ToolKind::Cutter(CutterFamily::Hexagon)));
    r.push(('5', ToolKind::Cutter(CutterFamily::Star5)));
    r.push(('6', ToolKind::WireCutter));
    r.push(('7', ToolKind::Smooth));
    r.push(('8', ToolKind::Paddle));
    r.push(('9', ToolKind::Select));
    r.push(('0', ToolKind::Move));
    r
}

/// Every tool is in the palette, once.
pub proof fn law_palette_is_complete(kind: ToolKind)
    ensures
        palette().contains(kind),
        forall|i: int, j: int|
            0 <= i < j < palette().len() ==> #[trigger] palette()[i] != #[trigger] palette()[j],
{
    let p = palette();
    let i: int = match kind {
        ToolKind::Clay => 0,
        ToolKind::Press => 1,
        ToolKind::Pull => 2,
        ToolKind::Knife => 3,
        ToolKind::Cutter(CutterFamily::Circle) => 4,
        ToolKind::Cutter(CutterFamily::Square) => 5,
        ToolKind::Cutter(CutterFamily::Hexagon) => 6,
        ToolKind::Cutter(CutterFamily::Star5) => 7,
        ToolKind::WireCutter => 8,
        ToolKind::Smooth => 9,
        ToolKind::Paddle => 10,
        ToolKind::Select => 11,
        ToolKind::Move => 12,
    };
    assert(p[i] == kind);
}

/// Shape tweaks for circle and square cutters.
#[derive(Copy, Clone, Debug, PartialEq, Eq, Structural)]
pub struct CutterParams {
    /// Fillet of the corners of a square; zero is sharp.
    pub corner_radius: u32,
    /// Height of the waves of a circle, as a part of its size; zero is smooth.
    pub wave_amp: u32,
    /// Number of waves around a circle.
    pub wave_freq: u32,
}

/// The number 6.
pub const SIX: u32 = 0x40c0_0000;

impl Default for CutterParams {
    fn default() -> (r: CutterParams)
        ensures
            r.corner_radius == 0,
            r.wave_amp == 0,
            r.wave_freq == SIX,
    {
        CutterParams { corner_radius: 0, wave_amp: 0, wave_freq: SIX }
    }
}

/// The outline of a cutter.
#[derive(Copy, Clone, Debug, PartialEq, Eq, Structural)]
pub enum Profile {
    Circle { radius: u32 },
    WavyCircle { radius: u32, amp: u32, freq: u32 },
    Square { half_side: u32 },
    RoundedSquare { half_side: u32, corner_r: u32 },
    Hexagon { radius: u32 },
    Star5 { outer: u32, inner_ratio: u32 },
}

impl Profile {
    /// The name of an outline.
    pub open spec fn name(self) -> Seq<char> {
        match self {
            Profile::Circle { .. } => "circle"@,
            Profile::WavyCircle { .. } => "circle"@,
            Profile::Square { .. } => "square"@,
            Profile::RoundedSquare { .. } => "square"@,
            Profile::Hexagon { .. } => "hexagon"@,
            Profile::Star5 { .. } => "star"@,
        }
    }

    /// The name of an outline.
    pub fn label(self) -> (r: &'static str)
        ensures
            r@ == self.name(),
    {
        match self {
            Profile::Circle { .. } => "circle",
            Profile::WavyCircle { .. } => "circle",
            Profile::Square { .. } => "square",
            Profile::RoundedSquare { .. } => "square",
            Profile::Hexagon { .. } => "hexagon",
            Profile::Star5 { .. } => "star",
        }
    }
}

/// A number held between two others.
pub open spec fn clamped(s: u32, lo: u32, hi: u32) -> u32 {
    if lt(s, lo) {
        lo
    } else if lt(hi, s) {
        hi
    } else {
        s
    }
}

/// Hold a number between two others.
pub fn clamp(s: u32, lo: u32, hi: u32) -> (r: u32)
    ensures
        r == clamped(s, lo, hi),
{
    if less(s, lo) {
        lo
    } else if less(hi, s) {
        hi
    } else {
        s
    }
}

/// The number 1e-4, up to which a tweak does not show.
pub const PLAIN: u32 = 0x38d1_b717;

/// The number 0.45, the highest wave.
pub const WAVE_MAX: u32 = 0x3ee6_6666;

/// The numbers 2 and 24, the fewest and most waves.
pub const FREQ_MIN: u32 = 0x4000_0000;

pub const FREQ_MAX: u32 = 0x41c0_0000;

/// The number 0.4, by which a star's inner corners are drawn in.
pub const STAR_INNER: u32 = 0x3ecc_cccd;

/// The outline of a cutter of a family. `amp` is the wave height times the size, and
/// `widest` the largest corner radius that the size allows.
pub open spec fn profile_of(
    family: CutterFamily,
    size: u32,
    params: CutterParams,
    amp: u32,
    widest: u32,
) -> Profile {
    match family {
        CutterFamily::Circle => if lt(PLAIN, clamped(params.wave_amp, 0, WAVE_MAX)) {
            Profile::WavyCircle {
                radius: size,
                amp,
                freq: clamped(params.wave_freq, FREQ_MIN, FREQ_MAX),
            }
        } else {
            Profile::Circle { radius: size }
        },
        CutterFamily::Square => if lt(PLAIN, clamped(params.corner_radius, 0, widest)) {
            Profile::RoundedSquare {
                half_side: size,
                corner_r: clamped(params.corner_radius, 0, widest),
            }
        } else {
            Profile::Square { half_side: size }
        },
        CutterFamily::Hexagon => Profile::Hexagon { radius: size },
        CutterFamily::Star5 => Profile::Star5 { outer: size, inner_ratio: STAR_INNER },
    }
}

impl CutterFamily {
    /// The outline of a cutter of this family. `amp` is the wave height, held to what
    /// a cutter can have, times the size, and `widest` the largest corner radius that
    /// the size allows.
    pub fn profile(self, size: u32, params: CutterParams, amp: u32, widest: u32) -> (r: Profile)
        ensures
            r == profile_of(self, size, params, amp, widest),
    {
        match self {
            CutterFamily::Circle => {
                let wave: u32 = clamp(params.wave_amp, 0, WAVE_MAX);
                if less(PLAIN, wave) {
                    Profile::WavyCircle {
                        radius: size,
                        amp,
                        freq: clamp(params.wave_freq, FREQ_MIN, FREQ_MAX),
                    }
                } else {
                    Profile::Circle { radius: size }
                }
            },
            CutterFamily::Square => {
                let corner_r: u32 = clamp(params.corner_radius, 0, widest);
                if less(PLAIN, corner_r) {
                    Profile::RoundedSquare { half_side: size, corner_r }
                } else {
                    Profile::Square { half_side: size }
                }
            },
            CutterFamily::Hexagon => Profile::Hexagon { radius: size },
            CutterFamily::Star5 => Profile::Star5 { outer: size, inner_ratio: STAR_INNER },
        }
    }
}

/// The smallest and the largest tool, 2 mm and 60 mm.
pub const SIZE_MIN: u32 = 0x4000_0000;

pub const SIZE_MAX: u32 = 0x4270_0000;

/// The tool in hand with its settings.
#[derive(Copy, Clone, Debug, PartialEq, Eq, Structural)]
pub struct SculptTool {
    pub kind: ToolKind,
    /// Radius of what the tool touches.
    pub size: u32,
    /// How far a stamp goes in.
    pub advance_per_step: u32,
    /// Clay that is removed bulges out beside the tool.
    pub displace: bool,
    /// How much of the blur a smoothing stamp takes over.
    pub smooth_strength: u32,
    pub cutter_params: CutterParams,
}

impl Default for SculptTool {
    fn default() -> (r: SculptTool)
        ensures
            r.kind == ToolKind::Clay,
            r.size == 0x4140_0000,
            r.advance_per_step == 0x3f19_999a,
            r.displace,
            r.smooth_strength == 0x3eb3_3333,
            r.cutter_params == (CutterParams { corner_radius: 0, wave_amp: 0, wave_freq: SIX }),
    {
        SculptTool {
            kind: ToolKind::Clay,
            size: 0x4140_0000,
            advance_per_step: 0x3f19_999a,
            displace: true,
            smooth_strength: 0x3eb3_3333,
            cutter_params: CutterParams { corner_radius: 0, wave_amp: 0, wave_freq: SIX },
        }
    }
}

/// How the size of a tool changes. The sizes are what the change would come to if
/// there were no limit.
#[derive(Copy, Clone, Debug, PartialEq, Eq, Structural)]
pub enum Resize {
    /// One step down.
    Shrink(u32),
    /// One step up.
    Grow(u32),
    /// By the wheel.
    Scroll(u32),
}

impl SculptTool {
    /// The size after a change.
    pub open spec fn resized(change: Resize) -> u32 {
        match change {
            Resize::Shrink(s) => max_sample(s, SIZE_MIN),
            Resize::Grow(s) => min_sample(s, SIZE_MAX),
            Resize::Scroll(s) => clamped(s, SIZE_MIN, SIZE_MAX),
        }
    }

    /// Change the size of the tool, within its limits.
    pub fn resize(&mut self, change: Resize)
        ensures
            *final(self) == (SculptTool { size: Self::resized(change), ..*old(self) }),
    {
        self.size = match change {
            Resize::Shrink(s) => larger(s, SIZE_MIN),
            Resize::Grow(s) => smaller(s, SIZE_MAX),
            Resize::Scroll(s) => clamp(s, SIZE_MIN, SIZE_MAX),
        };
    }
}

/// Whether stamps are mirrored across the plane through the middle of the piece.
#[derive(Copy, Clone, Debug, PartialEq, Eq, Structural)]
pub struct SculptSymmetry {
    pub enabled: bool,
}

impl Default for SculptSymmetry {
    fn default() -> (r: SculptSymmetry)
        ensures
            r.enabled,
    {
        SculptSymmetry { enabled: true }
    }
}

/// The shapes that can be inserted.
#[derive(Copy, Clone, Debug, PartialEq, Eq, Structural)]
pub enum PrimitiveShape {
    Sphere,
    Cube,
    Cylinder,
    Torus,
}

impl PrimitiveShape {
    /// The name of a shape.
    pub open spec fn name(self) -> Seq<char> {
        match self {
            PrimitiveShape::Sphere => "Sphere"@,
            PrimitiveShape::Cube => "Cube"@,
            PrimitiveShape::Cylinder => "Cylinder"@,
            PrimitiveShape::Torus => "Torus"@,
        }
    }

    /// The name of a shape.
    pub fn label(self) -> (r: &'static str)
        ensures
            r@ == self.name(),
    {
        match self {
            PrimitiveShape::Sphere => "Sphere",
            PrimitiveShape::Cube => "Cube",
            PrimitiveShape::Cylinder => "Cylinder",
            PrimitiveShape::Torus => "Torus",
        }
    }
}

/// The standard views.
#[derive(Copy, Clone, Debug, PartialEq, Eq, Structural)]
pub enum ViewPreset {
    Perspective,
    Top,
    Bottom,
    Front,
    Back,
    Left,
    Right,
}

impl ViewPreset {
    /// The name of a view.
    pub open spec fn name(self) -> Seq<char> {
        match self {
            ViewPreset::Perspective => "Perspective"@,
            ViewPreset::Top => "Top"@,
            ViewPreset::Bottom => "Bottom"@,
            ViewPreset::Front => "Front"@,
            ViewPreset::Back => "Back"@,
            ViewPreset::Left => "Left"@,
            ViewPreset::Right => "Right"@,
        }
    }

    /// The name of a view.
    pub fn label(self) -> (r: &'static str)
        ensures
            r@ == self.name(),
    {
        match self {
            ViewPreset::Perspective => "Perspective",
            ViewPreset::Top => "Top",
            ViewPreset::Bottom => "Bottom",
            ViewPreset::Front => "Front",
            ViewPreset::Back => "Back",
            ViewPreset::Left => "Left",
            ViewPreset::Right => "Right",
        }
    }

    /// Yaw and pitch of a view, in radians.
    pub open spec fn angles(self) -> (u32, u32) {
        match self {
            ViewPreset::Perspective => (0x3f19_999a, 0x3eb3_3333),
            ViewPreset::Top => (0, 0x3fc8_ef16),
            ViewPreset::Bottom => (0, 0xbfc8_ef16),
            ViewPreset::Front => (0x4049_0fdb, 0),
            ViewPreset::Back => (0, 0),
            ViewPreset::Right => (0x3fc9_0fdb, 0),
            ViewPreset::Left => (0xbfc9_0fdb, 0),
        }
    }

    /// Yaw and pitch of a view, in radians.
    pub fn yaw_pitch(self) -> (r: (u32, u32))
        ensures
            r == self.angles(),
    {
        match self {
            ViewPreset::Perspective => (0x3f19_999a, 0x3eb3_3333),
            ViewPreset::Top => (0, 0x3fc8_ef16),
            ViewPreset::Bottom => (0, 0xbfc8_ef16),
            ViewPreset::Front => (0x4049_0fdb, 0),
            ViewPreset::Back => (0, 0),
            ViewPreset::Right => (0x3fc9_0fdb, 0),
            ViewPreset::Left => (0xbfc9_0fdb, 0),
        }
    }
}

/// The looks of the clay.
#[derive(Copy, Clone, Debug, PartialEq, Eq, Structural)]
pub enum MatcapPreset {
    Clay,
    SoftGrey,
    Porcelain,
    Slate,
}

impl MatcapPreset {
    /// The name of a look.
    pub open spec fn name(self) -> Seq<char> {
        match self {
            MatcapPreset::Clay => "Clay"@,
            MatcapPreset::SoftGrey => "Soft grey"@,
            MatcapPreset::Porcelain => "Porcelain"@,
            MatcapPreset::Slate => "Slate"@,
        }
    }

    /// The name of a look.
    pub fn label(self) -> (r: &'static str)
        ensures
            r@ == self.name(),
    {
        match self {
            MatcapPreset::Clay => "Clay",
            MatcapPreset::SoftGrey => "Soft grey",
            MatcapPreset::Porcelain => "Porcelain",
            MatcapPreset::Slate => "Slate",
        }
    }

    /// Every look, in menu order.
    pub fn all() -> (r: [MatcapPreset; 4])
        ensures
            r@ == seq![
                MatcapPreset::Clay,
                MatcapPreset::SoftGrey,
                MatcapPreset::Porcelain,
                MatcapPreset::Slate,
            ],
    {
        let r = [
            MatcapPreset::Clay,
            MatcapPreset::SoftGrey,
            MatcapPreset::Porcelain,
            MatcapPreset::Slate,
        ];
        assert(r@ =~= seq![
            MatcapPreset::Clay,
            MatcapPreset::SoftGrey,
            MatcapPreset::Porcelain,
            MatcapPreset::Slate,
        ]);
        r
    }
}

/// A number that is held between two others lies between them, and one that does already stays.
pub proof fn law_clamped_lies_between(s: u32, lo: u32, hi: u32)
    requires
        !is_nan(s),
        !is_nan(lo),
        !is_nan(hi),
        !lt(hi, lo),
    ensures
        !lt(clamped(s, lo, hi), lo),
        !lt(hi, clamped(s, lo, hi)),
        !lt(s, lo) && !lt(hi, s) ==> clamped(s, lo, hi) == s,
        clamped(s, lo, hi) == s || clamped(s, lo, hi) == lo || clamped(s, lo, hi) == hi,
        clamped(clamped(s, lo, hi), lo, hi) == clamped(s, lo, hi),
{
}

/// A tool stays between 2 mm and 60 mm: a step down ends at the smallest size, a step up at the
/// largest, and the wheel at either; in between the size is the one that was asked for.
pub proof fn law_tool_keeps_its_limits(s: u32)
    requires
        !is_nan(s),
    ensures
        !lt(SculptTool::resized(Resize::Shrink(s)), SIZE_MIN),
        !lt(SIZE_MAX, SculptTool::resized(Resize::Grow(s))),
        !lt(SculptTool::resized(Resize::Scroll(s)), SIZE_MIN),
        !lt(SIZE_MAX, SculptTool::resized(Resize::Scroll(s))),
        !lt(s, SIZE_MIN) && !lt(SIZE_MAX, s) ==> {
            &&& num_eq(SculptTool::resized(Resize::Shrink(s)), s)
            &&& num_eq(SculptTool::resized(Resize::Grow(s)), s)
            &&& num_eq(SculptTool::resized(Resize::Scroll(s)), s)
        },
        lt(SIZE_MIN, SIZE_MAX),
{
}

/// Opposite sides are looked at from opposite directions: left and right, and top and bottom,
/// by the same angle to either side; from the front by twice the angle of the right side, and
/// from the back by none.
pub proof fn law_views_face_each_other()
    ensures
        ViewPreset::Left.angles().0 == negated(ViewPreset::Right.angles().0),
        ViewPreset::Left.angles().1 == ViewPreset::Right.angles().1,
        ViewPreset::Bottom.angles().1 == negated(ViewPreset::Top.angles().1),
        ViewPreset::Bottom.angles().0 == ViewPreset::Top.angles().0,
        ViewPreset::Front.angles().0 == doubled(ViewPreset::Right.angles().0),
        ViewPreset::Back.angles() == (0u32, 0u32),
        ViewPreset::Front.angles().1 == 0,
        ViewPreset::Right.angles().1 == 0,
        lt(0, ViewPreset::Right.angles().0),
        lt(0, ViewPreset::Top.angles().1),
        lt(ViewPreset::Top.angles().1, ViewPreset::Right.angles().0),
{
}

/// The outline of a cutter is that of its family and of its size. Waves and fillets show only
/// where they are asked for, and the fillet is never wider than allowed.
pub proof fn law_outline_follows_the_family(
    family: CutterFamily,
    size: u32,
    params: CutterParams,
    amp: u32,
    widest: u32,
)
    ensures
        match profile_of(family, size, params, amp, widest) {
            Profile::Circle { radius } => family == CutterFamily::Circle && radius == size && !lt(
                PLAIN,
                clamped(params.wave_amp, 0, WAVE_MAX),
            ),
            Profile::WavyCircle { radius, amp: a, freq } => {
                &&& family == CutterFamily::Circle
                &&& radius == size
                &&& a == amp
                &&& lt(PLAIN, params.wave_amp)
                &&& !lt(freq, FREQ_MIN)
                &&& !lt(FREQ_MAX, freq)
            },
            Profile::Square { half_side } => family == CutterFamily::Square && half_side == size,
            Profile::RoundedSquare { half_side, corner_r } => {
                &&& family == CutterFamily::Square
                &&& half_side == size
                &&& lt(PLAIN, corner_r)
                &&& !is_nan(widest) && !lt(widest, 0) ==> !lt(widest, corner_r)
            },
            Profile::Hexagon { radius } => family == CutterFamily::Hexagon && radius == size,
            Profile::Star5 { outer, .. } => family == CutterFamily::Star5 && outer == size,
        },
{
}

} // verus!
