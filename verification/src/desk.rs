//! Commands to the desk: the dialogs, the bench grid and the camera.

use crate::actions::{AppAction, AppSettings, SettingsDialogState, SettleDialogState};
use crate::bookmarks::{is_saved, CameraBookmark, CameraBookmarks, Pose};
use crate::panels::{FileDialogState, InsertPrimitiveDialog, PrimitiveDialogState};
use crate::tool::PrimitiveShape;
use vstd::prelude::*;

verus! {

/// Whether lines are drawn on the bench.
#[derive(Copy, Clone, Debug, PartialEq, Eq, Structural)]
pub struct WorkbenchGridState {
    pub visible: bool,
}

impl Default for WorkbenchGridState {
    fn default() -> (r: WorkbenchGridState)
        ensures
            r.visible,
    {
        WorkbenchGridState { visible: true }
    }
}

/// What a command comes to for the camera.
#[derive(Copy, Clone, Debug, PartialEq, Eq, Structural)]
pub struct ViewStep {
    /// The pose to take, if it changes.
    pub pose: Option<Pose>,
    /// The bookmarks changed and are to be stored.
    pub store: bool,
}

/// The pose that a command asks for, from a pose and the bookmarks. A view turns the
/// camera and leaves where it looks and from how far.
pub open spec fn asked_pose(action: AppAction, pose: Pose, slots: Seq<CameraBookmark>) -> Option<
    Pose,
> {
    match action {
        AppAction::SetView(preset) => Some(
            Pose { yaw: preset.angles().0, pitch: preset.angles().1, ..pose },
        ),
        AppAction::RestoreCameraBookmark(i) => if i < slots.len() {
            Some(slots[i as int].pose)
        } else {
            None
        },
        _ => None,
    }
}

/// Whether the bench has lines after a command.
pub open spec fn lines_after(action: AppAction, visible: bool) -> bool {
    match action {
        AppAction::ToggleWorkbenchGrid => !visible,
        AppAction::SetWorkbenchGrid(on) => on,
        _ => visible,
    }
}

/// Carry out a command to the bench grid or the camera; other commands change nothing.
pub fn view_action(
    action: &AppAction,
    pose: Pose,
    grid: &mut WorkbenchGridState,
    bookmarks: &mut CameraBookmarks,
) -> (r: ViewStep)
    requires
        old(bookmarks).slots@.len() <= 0x7fff_ffff,
    ensures
        r.pose == asked_pose(*action, pose, old(bookmarks).slots@),
        final(grid).visible == lines_after(*action, old(grid).visible),
        match *action {
            AppAction::SaveCameraBookmark => {
                &&& r.store
                &&& is_saved(old(bookmarks).slots@, final(bookmarks).slots@, pose)
            },
            AppAction::ClearCameraBookmarks => r.store && final(bookmarks).slots@.len() == 0,
            _ => !r.store && *final(bookmarks) == *old(bookmarks),
        },
{
    match action {
        AppAction::ToggleWorkbenchGrid => {
            grid.visible = !grid.visible;
            ViewStep { pose: None, store: false }
        },
        AppAction::SetWorkbenchGrid(on) => {
            grid.visible = *on;
            ViewStep { pose: None, store: false }
        },
        AppAction::SetView(preset) => {
            let (yaw, pitch) = preset.yaw_pitch();
            ViewStep { pose: Some(Pose { yaw, pitch, ..pose }), store: false }
        },
        AppAction::SaveCameraBookmark => {
            bookmarks.save_current(pose);
            ViewStep { pose: None, store: true }
        },
        AppAction::RestoreCameraBookmark(i) => {
            ViewStep { pose: bookmarks.pose(*i), store: false }
        },
        AppAction::ClearCameraBookmarks => {
            bookmarks.clear();
            ViewStep { pose: None, store: true }
        },
        _ => ViewStep { pose: None, store: false },
    }
}

/// Carry out a command that opens a dialog; other commands change nothing. The result
/// says whether the dialog that lists projects is to open, once they are listed.
pub fn dialog_action(
    action: &AppAction,
    files: &mut FileDialogState,
    primitive: &mut PrimitiveDialogState,
    settle: &mut SettleDialogState,
    settings: &mut SettingsDialogState,
    preferences: &AppSettings,
) -> (lists: bool)
    ensures
        lists == (*action is ShowOpenDialog),
        match *action {
            AppAction::ShowSaveAsDialog => {
                &&& final(files).at_most_one()
                &&& final(files).save_as matches Some(name) && name@ == ""@
            },
            AppAction::ShowExportStlDialog => {
                &&& final(files).at_most_one()
                &&& final(files).export_stl matches Some(name) && name@ == ""@
            },
            _ => *final(files) == *old(files),
        },
        *final(primitive) == (if *action is ShowInsertPrimitiveDialog {
            PrimitiveDialogState {
                open: Some(
                    InsertPrimitiveDialog { shape: PrimitiveShape::Sphere, size_mm: 0x41a0_0000 },
                ),
            }
        } else {
            *old(primitive)
        }),
        *final(settle) == (if *action is ShowSettleDialog {
            SettleDialogState { open: true, plasticity: preferences.default_plasticity }
        } else {
            *old(settle)
        }),
        *final(settings) == (match *action {
            AppAction::ShowToolSettingsDialog => SettingsDialogState {
                tool_open: true,
                prefs_open: false,
            },
            AppAction::ShowPreferencesDialog => SettingsDialogState {
                tool_open: false,
                prefs_open: true,
            },
            _ => *old(settings),
        }),
{
    match action {
        AppAction::ShowSaveAsDialog => {
            files.show_save_as();
            false
        },
        AppAction::ShowExportStlDialog => {
            files.show_export();
            false
        },
        AppAction::ShowInsertPrimitiveDialog => {
            primitive.show();
            false
        },
        AppAction::ShowSettleDialog => {
            *settle = SettleDialogState { open: true, plasticity: preferences.default_plasticity };
            false
        },
        AppAction::ShowToolSettingsDialog => {
            settings.show_tool();
            false
        },
        AppAction::ShowPreferencesDialog => {
            settings.show_preferences();
            false
        },
        AppAction::ShowOpenDialog => true,
        _ => false,
    }
}

/// A saved pose comes back: going to the bookmark that was saved last gives the pose it
/// was saved from, whatever was looked at in between.
pub proof fn law_saved_pose_comes_back(
    before: Seq<CameraBookmark>,
    after: Seq<CameraBookmark>,
    pose: Pose,
    elsewhere: Pose,
)
    requires
        is_saved(before, after, pose),
    ensures
        asked_pose(AppAction::RestoreCameraBookmark(0), elsewhere, after) == Some(pose),
{
}

/// The lines of the bench change by their own commands only: toggling twice leaves them as they
/// were, and setting them leaves them as asked.
pub proof fn law_lines_follow_their_commands(action: AppAction, visible: bool, on: bool)
    ensures
        lines_after(AppAction::ToggleWorkbenchGrid, visible) != visible,
        lines_after(
            AppAction::ToggleWorkbenchGrid,
            lines_after(AppAction::ToggleWorkbenchGrid, visible),
        ) == visible,
        lines_after(AppAction::SetWorkbenchGrid(on), visible) == on,
        action !is ToggleWorkbenchGrid && action !is SetWorkbenchGrid ==> lines_after(action, visible)
            == visible,
{
}

/// A standard view turns the camera and does nothing else to it; a saved view comes back whole,
/// and other commands leave the camera alone.
pub proof fn law_views_turn_the_camera(action: AppAction, pose: Pose, slots: Seq<CameraBookmark>)
    ensures
        match action {
            AppAction::SetView(preset) => asked_pose(action, pose, slots) matches Some(p) && (Pose {
                yaw: pose.yaw,
                pitch: pose.pitch,
                ..p
            }) == pose && (p.yaw, p.pitch) == preset.angles(),
            AppAction::RestoreCameraBookmark(i) => (asked_pose(action, pose, slots) is Some <==> i
                < slots.len()) && (i < slots.len() ==> asked_pose(action, pose, slots) == Some(
                slots[i as int].pose,
            )),
            _ => asked_pose(action, pose, slots) is None,
        },
{
}

} // verus!
