//! What the keyboard and the menus ask for.

use crate::sculpt::SculptStroke;
use crate::tool::{clamp, clamped, palette, palette_keys, CutterFamily, MatcapPreset, PrimitiveShape, SculptSymmetry, SculptTool, ToolKind, ViewPreset};
use crate::vec3::BitVec3;
use vstd::prelude::*;

verus! {

/// A command. Keys and menus give the same commands, so that each does one thing.
pub enum AppAction {
    /// Take a tool in hand.
    SelectTool(ToolKind),
    /// Mirror stamps, or stop doing so.
    ToggleSymmetry,
    /// Let removed clay bulge out, or stop doing so.
    ToggleMagicClay,
    /// Clear the worktable.
    NewWorkpiece,
    /// Ask for a primitive.
    ShowInsertPrimitiveDialog,
    /// Insert a primitive of a size.
    InsertPrimitive(PrimitiveShape, u32),
    /// Save under a name made from the moment.
    SaveProject,
    /// Save under a name.
    SaveProjectAs(String),
    /// Load the newest project.
    LoadNewestProject,
    /// Load a project.
    OpenProject(String),
    /// Ask for a name to save under.
    ShowSaveAsDialog,
    /// Ask for a project to load.
    ShowOpenDialog,
    /// Export under a name made from the moment.
    ExportStl,
    /// Export under a name.
    ExportStlAs(String),
    /// Ask for a name to export under.
    ShowExportStlDialog,
    /// Remove the selected piece.
    DeleteSelection,
    /// Let tools change the selected piece only, or stop doing so.
    ToggleActiveOnly,
    /// Drop every piece onto the bench.
    RestPiecesOnBench,
    /// Set the selected piece on the bench.
    SnapSelectionToWorkbench,
    /// Ask for a softness.
    ShowSettleDialog,
    /// Let the layer settle at a softness.
    SettlePlastic(u32),
    /// Show the bench grid, or hide it.
    ToggleWorkbenchGrid,
    /// Show or hide the bench grid.
    SetWorkbenchGrid(bool),
    /// Show the settings of the tool.
    ShowToolSettingsDialog,
    /// Show the preferences.
    ShowPreferencesDialog,
    /// Look from a standard side.
    SetView(ViewPreset),
    /// Give the clay another look.
    SetMatcap(MatcapPreset),
    /// Save the pose of the camera.
    SaveCameraBookmark,
    /// Go to a saved pose.
    RestoreCameraBookmark(usize),
    /// Forget all saved poses.
    ClearCameraBookmarks,
    /// Move the selected piece by an offset in millimetres.
    MoveSelection(BitVec3),
    /// Turn the selected piece by angles in degrees about each axis.
    RotateSelection(BitVec3),
    /// Make a layer active.
    SetActiveLayer(usize),
    /// Show or hide a layer.
    SetLayerVisible(usize, bool),
    /// Delete a layer.
    DeleteLayer(usize),
    /// Merge the active layer into the one below.
    MergeDown,
    /// Leave.
    Quit,
}

/// The keys that mean something.
#[derive(Copy, Clone, Debug, PartialEq, Eq, Structural)]
pub enum Key {
    Digit0,
    Digit1,
    Digit2,
    Digit3,
    Digit4,
    Digit5,
    Digit6,
    Digit7,
    Digit8,
    Digit9,
    A,
    E,
    G,
    K,
    L,
    M,
    N,
    O,
    P,
    S,
    Y,
    Z,
    Delete,
    Backspace,
    Escape,
}

/// The keys that are held while another goes down.
#[derive(Copy, Clone, Debug, PartialEq, Eq, Structural)]
pub struct Modifiers {
    pub ctrl: bool,
    pub command: bool,
    pub shift: bool,
}

impl Modifiers {
    /// A key for commands is held.
    pub open spec fn commands(self) -> bool {
        self.ctrl || self.command
    }
}

/// The tool that a key takes in hand.
pub open spec fn tool_of(key: Key) -> Option<ToolKind> {
    match key {
        Key::Digit1 => Some(ToolKind::Clay),
        Key::P => Some(ToolKind::Press),
        Key::L => Some(ToolKind::Pull),
        Key::K => Some(ToolKind::Knife),
        Key::Digit2 => Some(ToolKind::Cutter(CutterFamily::Circle)),
        Key::Digit3 => Some(ToolKind::Cutter(CutterFamily::Square)),
        Key::Digit4 => Some(ToolKind::Cutter(CutterFamily::Hexagon)),
        Key::Digit5 => Some(ToolKind::Cutter(CutterFamily::Star5)),
        Key::Digit6 => Some(ToolKind::WireCutter),
        Key::Digit7 => Some(ToolKind::Smooth),
        Key::Digit8 => Some(ToolKind::Paddle),
        Key::Digit9 => Some(ToolKind::Select),
        Key::Digit0 => Some(ToolKind::Move),
        _ => None,
    }
}

/// The command that a key gives.
pub open spec fn action_of(key: Key, m: Modifiers) -> Option<AppAction> {
    match key {
        Key::A => if m.commands() {
            None
        } else {
            Some(AppAction::ToggleActiveOnly)
        },
        Key::E => if !m.commands() {
            None
        } else if m.shift {
            Some(AppAction::ShowExportStlDialog)
        } else {
            Some(AppAction::ExportStl)
        },
        Key::G => if !m.commands() {
            None
        } else if m.shift {
            Some(AppAction::ShowSettleDialog)
        } else {
            Some(AppAction::RestPiecesOnBench)
        },
        Key::M => Some(AppAction::ToggleMagicClay),
        Key::N => if m.shift {
            Some(AppAction::ShowInsertPrimitiveDialog)
        } else if m.commands() {
            Some(AppAction::NewWorkpiece)
        } else {
            None
        },
        Key::O => if !m.commands() {
            None
        } else if m.shift {
            Some(AppAction::LoadNewestProject)
        } else {
            Some(AppAction::ShowOpenDialog)
        },
        Key::S => if !m.commands() {
            Some(AppAction::ToggleSymmetry)
        } else if m.shift {
            Some(AppAction::ShowSaveAsDialog)
        } else {
            Some(AppAction::SaveProject)
        },
        Key::Y | Key::Z => None,
        Key::Delete | Key::Backspace => Some(AppAction::DeleteSelection),
        Key::Escape => Some(AppAction::Quit),
        _ => Some(AppAction::SelectTool(tool_of(key)->0)),
    }
}

fn tool_key(key: Key) -> (r: Option<ToolKind>)
    ensures
        r == tool_of(key),
{
    match key {
        Key::Digit1 => Some(ToolKind::Clay),
        Key::P => Some(ToolKind::Press),
        Key::L => Some(ToolKind::Pull),
        Key::K => Some(ToolKind::Knife),
        Key::Digit2 => Some(ToolKind::Cutter(CutterFamily::Circle)),
        Key::Digit3 => Some(ToolKind::Cutter(CutterFamily::Square)),
        Key::Digit4 => Some(ToolKind::Cutter(CutterFamily::Hexagon)),
        Key::Digit5 => Some(ToolKind::Cutter(CutterFamily::Star5)),
        Key::Digit6 => Some(ToolKind::WireCutter),
        Key::Digit7 => Some(ToolKind::Smooth),
        Key::Digit8 => Some(ToolKind::Paddle),
        Key::Digit9 => Some(ToolKind::Select),
        Key::Digit0 => Some(ToolKind::Move),
        _ => None,
    }
}

/// The command that a key gives, unless the panels have the keyboard.
pub fn key_action(key: Key, m: Modifiers, captured: bool) -> (r: Option<AppAction>)
    ensures
        r == (if captured {
            None
        } else {
            action_of(key, m)
        }),
{
    if captured {
        return None;
    }
    let command: bool = m.ctrl || m.command;
    match key {
        Key::A => if command {
            None
        } else {
            Some(AppAction::ToggleActiveOnly)
        },
        Key::E => if !command {
            None
        } else if m.shift {
            Some(AppAction::ShowExportStlDialog)
        } else {
            Some(AppAction::ExportStl)
        },
        Key::G => if !command {
            None
        } else if m.shift {
            Some(AppAction::ShowSettleDialog)
        } else {
            Some(AppAction::RestPiecesOnBench)
        },
        Key::M => Some(AppAction::ToggleMagicClay),
        Key::N => if m.shift {
            Some(AppAction::ShowInsertPrimitiveDialog)
        } else if command {
            Some(AppAction::NewWorkpiece)
        } else {
            None
        },
        Key::O => if !command {
            None
        } else if m.shift {
            Some(AppAction::LoadNewestProject)
        } else {
            Some(AppAction::ShowOpenDialog)
        },
        Key::S => if !command {
            Some(AppAction::ToggleSymmetry)
        } else if m.shift {
            Some(AppAction::ShowSaveAsDialog)
        } else {
            Some(AppAction::SaveProject)
        },
        Key::Y | Key::Z => None,
        Key::Delete | Key::Backspace => Some(AppAction::DeleteSelection),
        Key::Escape => Some(AppAction::Quit),
        _ => match tool_key(key) {
            Some(kind) => Some(AppAction::SelectTool(kind)),
            None => None,
        },
    }
}

/// A step through the history.
#[derive(Copy, Clone, Debug, PartialEq, Eq, Structural)]
pub enum HistoryStep {
    Undo,
    Redo,
}

/// The step through the history that a key asks for, unless the panels have the
/// keyboard.
pub fn history_step(key: Key, m: Modifiers, captured: bool) -> (r: Option<HistoryStep>)
    ensures
        r == (if captured || !m.ctrl {
            None
        } else if key == Key::Z && !m.shift {
            Some(HistoryStep::Undo)
        } else if key == Key::Y || key == Key::Z {
            Some(HistoryStep::Redo)
        } else {
            None
        }),
{
    if captured || !m.ctrl {
        return None;
    }
    match key {
        Key::Z => if m.shift {
            Some(HistoryStep::Redo)
        } else {
            Some(HistoryStep::Undo)
        },
        Key::Y => Some(HistoryStep::Redo),
        _ => None,
    }
}

/// No key means two things: one that steps through the history gives no command.
pub proof fn law_history_keys_give_no_command(key: Key, m: Modifiers)
    requires
        key == Key::Y || key == Key::Z,
    ensures
        action_of(key, m) is None,
{
}

/// Take a tool in hand. A stroke in progress is dropped if it is another one.
pub fn select_tool(tool: &mut SculptTool, stroke: &mut SculptStroke, kind: ToolKind)
    ensures
        *final(tool) == (SculptTool { kind, ..*old(tool) }),
        old(tool).kind != kind ==> final(stroke).is_idle(),
        old(tool).kind == kind ==> *final(stroke) == *old(stroke),
{
    if tool.kind != kind {
        tool.kind = kind;
        stroke.discard_live();
    }
}

/// Mirror stamps, or stop doing so.
pub fn toggle_symmetry(symmetry: &mut SculptSymmetry)
    ensures
        final(symmetry).enabled == !old(symmetry).enabled,
{
    symmetry.enabled = !symmetry.enabled;
}

/// Let removed clay bulge out, or stop doing so.
pub fn toggle_magic_clay(tool: &mut SculptTool)
    ensures
        *final(tool) == (SculptTool { displace: !old(tool).displace, ..*old(tool) }),
{
    tool.displace = !tool.displace;
}

/// General preferences.
#[derive(Copy, Clone, Debug, PartialEq, Eq, Structural)]
pub struct AppSettings {
    /// Seconds for one turn of the table.
    pub turntable_period_secs: u32,
    /// The softness that the settle dialog starts with.
    pub default_plasticity: u32,
}

impl Default for AppSettings {
    fn default() -> (r: AppSettings)
        ensures
            r.turntable_period_secs == 0x40d0_0000,
            r.default_plasticity == 0x3f33_3333,
    {
        AppSettings { turntable_period_secs: 0x40d0_0000, default_plasticity: 0x3f33_3333 }
    }
}

/// The softness dialog.
#[derive(Copy, Clone, Debug, PartialEq, Eq, Structural)]
pub struct SettleDialogState {
    pub open: bool,
    pub plasticity: u32,
}

impl Default for SettleDialogState {
    fn default() -> (r: SettleDialogState)
        ensures
            !r.open,
            r.plasticity == 0x3f33_3333,
    {
        SettleDialogState { open: false, plasticity: 0x3f33_3333 }
    }
}

impl SettleDialogState {
    /// Close the dialog and take over a softness, held between zero and one. The
    /// result is that softness.
    pub fn commit(&mut self, plasticity: u32) -> (r: u32)
        ensures
            r == clamped(plasticity, 0, 0x3f80_0000),
            *final(self) == (SettleDialogState { open: false, plasticity: r }),
    {
        let p: u32 = clamp(plasticity, 0, 0x3f80_0000);
        self.plasticity = p;
        self.open = false;
        p
    }
}

/// The settings windows.
#[derive(Copy, Clone, Debug, PartialEq, Eq, Structural)]
pub struct SettingsDialogState {
    pub tool_open: bool,
    pub prefs_open: bool,
}

impl SettingsDialogState {
    /// Both are closed.
    pub fn new() -> (r: SettingsDialogState)
        ensures
            !r.tool_open,
            !r.prefs_open,
    {
        SettingsDialogState { tool_open: false, prefs_open: false }
    }

    /// Whether a window is open.
    pub fn any_open(&self) -> (r: bool)
        ensures
            r == (self.tool_open || self.prefs_open),
    {
        self.tool_open || self.prefs_open
    }

    /// Open the window with the settings of the tool, and close the other.
    pub fn show_tool(&mut self)
        ensures
            final(self).tool_open,
            !final(self).prefs_open,
    {
        self.tool_open = true;
        self.prefs_open = false;
    }

    /// Open the window with the preferences, and close the other.
    pub fn show_preferences(&mut self)
        ensures
            final(self).prefs_open,
            !final(self).tool_open,
    {
        self.prefs_open = true;
        self.tool_open = false;
    }

    /// Close both.
    pub fn close(&mut self)
        ensures
            !final(self).tool_open,
            !final(self).prefs_open,
    {
        self.tool_open = false;
        self.prefs_open = false;
    }
}

/// What is printed on a key, for the keys that have a letter or a digit.
pub open spec fn print_on(key: Key) -> Option<char> {
    match key {
        Key::Digit0 => Some('0'),
        Key::Digit1 => Some('1'),
        Key::Digit2 => Some('2'),
        Key::Digit3 => Some('3'),
        Key::Digit4 => Some('4'),
        Key::Digit5 => Some('5'),
        Key::Digit6 => Some('6'),
        Key::Digit7 => Some('7'),
        Key::Digit8 => Some('8'),
        Key::Digit9 => Some('9'),
        Key::A => Some('A'),
        Key::E => Some('E'),
        Key::G => Some('G'),
        Key::K => Some('K'),
        Key::L => Some('L'),
        Key::M => Some('M'),
        Key::N => Some('N'),
        Key::O => Some('O'),
        Key::P => Some('P'),
        Key::S => Some('S'),
        Key::Y => Some('Y'),
        Key::Z => Some('Z'),
        Key::Delete | Key::Backspace | Key::Escape => None,
    }
}

/// The key that the palette shows for a tool takes that tool in hand, whatever else is held.
pub proof fn law_palette_keys_take_their_tool(key: Key, m: Modifiers, i: int)
    requires
        0 <= i < palette_keys().len(),
        print_on(key) == Some(palette_keys()[i]),
    ensures
        palette_keys().len() == palette().len(),
        action_of(key, m) == Some(AppAction::SelectTool(palette()[i])),
{
    let (k, p) = (palette_keys(), palette());
    assert(k.len() == 13 && p.len() == 13);
    assert(k[0] == '1' && p[0] == ToolKind::Clay);
    assert(k[1] == 'P' && p[1] == ToolKind::Press);
    assert(k[2] == 'L' && p[2] == ToolKind::Pull);
    assert(k[3] == 'K' && p[3] == ToolKind::Knife);
    assert(k[4] == '2' && p[4] == ToolKind::Cutter(CutterFamily::Circle));
    assert(k[5] == '3' && p[5] == ToolKind::Cutter(CutterFamily::Square));
    assert(k[6] == '4' && p[6] == ToolKind::Cutter(CutterFamily::Hexagon));
    assert(k[7] == '5' && p[7] == ToolKind::Cutter(CutterFamily::Star5));
    assert(k[8] == '6' && p[8] == ToolKind::WireCutter);
    assert(k[9] == '7' && p[9] == ToolKind::Smooth);
    assert(k[10] == '8' && p[10] == ToolKind::Paddle);
    assert(k[11] == '9' && p[11] == ToolKind::Select);
    assert(k[12] == '0' && p[12] == ToolKind::Move);
}

/// What touches files, or the whole workpiece, needs a key for commands to be held; with shift
/// it asks first, except that it loads the newest project.
pub proof fn law_commands_need_their_key(key: Key, m: Modifiers)
    ensures
        match action_of(key, m) {
            Some(
                AppAction::SaveProject
                | AppAction::ExportStl
                | AppAction::RestPiecesOnBench
                | AppAction::NewWorkpiece
                | AppAction::ShowOpenDialog,
            ) => (m.ctrl || m.command) && !m.shift,
            Some(
                AppAction::ShowSaveAsDialog
                | AppAction::ShowExportStlDialog
                | AppAction::ShowSettleDialog
                | AppAction::LoadNewestProject,
            ) => (m.ctrl || m.command) && m.shift,
            Some(AppAction::ToggleSymmetry | AppAction::ToggleActiveOnly) => !(m.ctrl || m.command),
            Some(AppAction::DeleteSelection) => key == Key::Delete || key == Key::Backspace,
            Some(AppAction::Quit) => key == Key::Escape,
            Some(AppAction::ShowInsertPrimitiveDialog) => m.shift,
            _ => true,
        },
{
}

} // verus!
