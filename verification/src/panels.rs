//! What the panels and dialogs show and decide.

use crate::actions::{AppAction, SettingsDialogState, SettleDialogState};
use crate::layers::{LayerModel, LayersModel, LayersState};
use crate::paths::{finalise_export_path, finalise_save_path, typed_path};
use crate::text::{decimal, digit, is_white, push_decimal, trimmed};
use crate::timestamp::{is_moment, DateTime};
use crate::tool::PrimitiveShape;
use vstd::prelude::*;
use vstd::string::StringExecFns;

verus! {

/// The list of projects to load from.
pub struct OpenDialog {
    pub files: Vec<String>,
    pub selected: Option<usize>,
}

/// The dialogs about files. The names are what was typed so far.
pub struct FileDialogState {
    pub save_as: Option<String>,
    pub open: Option<OpenDialog>,
    pub export_stl: Option<String>,
}

/// What a dialog with a typed name did.
#[derive(Copy, Clone, Debug, PartialEq, Eq, Structural)]
pub enum Answer {
    /// Nothing yet.
    Waiting,
    /// The name was accepted.
    Accept,
    /// The dialog was given up.
    Cancel,
}

impl FileDialogState {
    /// No dialog is open.
    pub open spec fn is_closed(&self) -> bool {
        self.save_as is None && self.open is None && self.export_stl is None
    }

    /// At most one dialog is open.
    pub open spec fn at_most_one(&self) -> bool {
        &&& self.save_as is None || self.open is None
        &&& self.save_as is None || self.export_stl is None
        &&& self.open is None || self.export_stl is None
    }

    /// No dialog.
    pub fn new() -> (r: FileDialogState)
        ensures
            r.is_closed(),
            r.at_most_one(),
    {
        FileDialogState { save_as: None, open: None, export_stl: None }
    }

    /// Whether a dialog is open.
    pub fn any_open(&self) -> (r: bool)
        ensures
            r == !self.is_closed(),
    {
        self.save_as.is_some() || self.open.is_some() || self.export_stl.is_some()
    }

    /// Ask for a name to save under. The other dialogs close.
    pub fn show_save_as(&mut self)
        ensures
            final(self).at_most_one(),
            final(self).save_as matches Some(name) && name@ == ""@,
    {
        self.save_as = Some(String::from_str(""));
        self.open = None;
        self.export_stl = None;
    }

    /// Ask for a project to load. The other dialogs close.
    pub fn show_open(&mut self, files: Vec<String>)
        ensures
            final(self).at_most_one(),
            final(self).open matches Some(d) && d.files == files && d.selected is None,
    {
        self.open = Some(OpenDialog { files, selected: None });
        self.save_as = None;
        self.export_stl = None;
    }

    /// Ask for a name to export under. The other dialogs close.
    pub fn show_export(&mut self)
        ensures
            final(self).at_most_one(),
            final(self).export_stl matches Some(name) && name@ == ""@,
    {
        self.export_stl = Some(String::from_str(""));
        self.save_as = None;
        self.open = None;
    }

    /// Act on the answer to the save dialog, so many seconds after the start of 1970.
    pub fn answer_save_as(&mut self, answer: Answer, secs: u64) -> (r: Option<AppAction>)
        ensures
            final(self).open == old(self).open,
            final(self).export_stl == old(self).export_stl,
            old(self).save_as is None || answer == Answer::Waiting ==> r is None && final(self).save_as
                == old(self).save_as,
            old(self).save_as is Some && answer != Answer::Waiting ==> final(self).save_as is None,
            old(self).save_as is Some && answer == Answer::Cancel ==> r is None,
            old(self).save_as is Some && answer == Answer::Accept ==> exists|t: DateTime| #[trigger]
                is_moment(t, secs) && (r matches Some(AppAction::SaveProjectAs(name)) && name@
                    == typed_path(old(self).save_as->0@, ".mudclay"@, t)),
    {
        match answer {
            Answer::Waiting => None,
            Answer::Cancel => {
                self.save_as = None;
                None
            },
            Answer::Accept => match self.save_as.take() {
                Some(name) => Some(
                    AppAction::SaveProjectAs(finalise_save_path(name.as_str(), secs)),
                ),
                None => None,
            },
        }
    }

    /// Act on the answer to the export dialog, so many seconds after the start of
    /// 1970.
    pub fn answer_export(&mut self, answer: Answer, secs: u64) -> (r: Option<AppAction>)
        ensures
            final(self).open == old(self).open,
            final(self).save_as == old(self).save_as,
            old(self).export_stl is None || answer == Answer::Waiting ==> r is None
                && final(self).export_stl == old(self).export_stl,
            old(self).export_stl is Some && answer != Answer::Waiting ==> final(self).export_stl is None,
            old(self).export_stl is Some && answer == Answer::Cancel ==> r is None,
            old(self).export_stl is Some && answer == Answer::Accept ==> exists|t: DateTime| #[trigger]
                is_moment(t, secs) && (r matches Some(AppAction::ExportStlAs(name)) && name@
                    == typed_path(old(self).export_stl->0@, ".stl"@, t)),
    {
        match answer {
            Answer::Waiting => None,
            Answer::Cancel => {
                self.export_stl = None;
                None
            },
            Answer::Accept => match self.export_stl.take() {
                Some(name) => Some(
                    AppAction::ExportStlAs(finalise_export_path(name.as_str(), secs)),
                ),
                None => None,
            },
        }
    }

    /// Select a project in the open dialog.
    pub fn select_file(&mut self, index: usize)
        ensures
            final(self).save_as == old(self).save_as,
            final(self).export_stl == old(self).export_stl,
            final(self).open is Some <==> old(self).open is Some,
            final(self).open matches Some(d) ==> d.files == old(self).open->0.files && d.selected == (
            if index < d.files@.len() {
                Some(index)
            } else {
                old(self).open->0.selected
            }),
    {
        match self.open.take() {
            Some(d) => {
                let selected = if index < d.files.len() {
                    Some(index)
                } else {
                    d.selected
                };
                self.open = Some(OpenDialog { files: d.files, selected });
            },
            None => {},
        }
    }

    /// Act on the answer to the open dialog: load the selected project, if one is
    /// selected. The dialog cannot be accepted without a selection.
    pub fn answer_open(&mut self, answer: Answer) -> (r: Option<AppAction>)
        requires
            old(self).open matches Some(d) ==> (d.selected matches Some(i) ==> i < d.files@.len()),
        ensures
            final(self).save_as == old(self).save_as,
            final(self).export_stl == old(self).export_stl,
            answer == Answer::Waiting ==> r is None && final(self).open == old(self).open,
            answer == Answer::Cancel ==> r is None && final(self).open is None,
            answer == Answer::Accept ==> (match old(self).open {
                Some(d) => match d.selected {
                    Some(i) => final(self).open is None && (r matches Some(
                        AppAction::OpenProject(name),
                    ) && name@ == d.files@[i as int]@),
                    None => r is None && final(self).open == old(self).open,
                },
                None => r is None && final(self).open is None,
            }),
    {
        match answer {
            Answer::Waiting => None,
            Answer::Cancel => {
                self.open = None;
                None
            },
            Answer::Accept => match self.open.take() {
                Some(d) => match d.selected {
                    Some(i) => Some(
                        AppAction::OpenProject(String::from_str(d.files[i].as_str())),
                    ),
                    None => {
                        self.open = Some(d);
                        None
                    },
                },
                None => None,
            },
        }
    }
}

/// The dialog that asks for a primitive.
#[derive(Copy, Clone, Debug, PartialEq, Eq, Structural)]
pub struct InsertPrimitiveDialog {
    pub shape: PrimitiveShape,
    pub size_mm: u32,
}

impl Default for InsertPrimitiveDialog {
    fn default() -> (r: InsertPrimitiveDialog)
        ensures
            r.shape == PrimitiveShape::Sphere,
            r.size_mm == 0x41a0_0000,
    {
        InsertPrimitiveDialog { shape: PrimitiveShape::Sphere, size_mm: 0x41a0_0000 }
    }
}

/// Whether the dialog that asks for a primitive is open.
#[derive(Copy, Clone, Debug, PartialEq, Eq, Structural)]
pub struct PrimitiveDialogState {
    pub open: Option<InsertPrimitiveDialog>,
}

impl PrimitiveDialogState {
    /// Open the dialog anew.
    pub fn show(&mut self)
        ensures
            final(self).open == Some(
                InsertPrimitiveDialog { shape: PrimitiveShape::Sphere, size_mm: 0x41a0_0000 },
            ),
    {
        self.open = Some(
            InsertPrimitiveDialog { shape: PrimitiveShape::Sphere, size_mm: 0x41a0_0000 },
        );
    }

    /// Act on the answer to the dialog.
    pub fn answer(&mut self, answer: Answer) -> (r: Option<AppAction>)
        ensures
            answer == Answer::Waiting ==> r is None && *final(self) == *old(self),
            answer == Answer::Cancel ==> r is None && final(self).open is None,
            answer == Answer::Accept ==> final(self).open is None && (match old(self).open {
                Some(d) => r == Some(AppAction::InsertPrimitive(d.shape, d.size_mm)),
                None => r is None,
            }),
    {
        match answer {
            Answer::Waiting => None,
            Answer::Cancel => {
                self.open = None;
                None
            },
            Answer::Accept => {
                let d = self.open;
                self.open = None;
                match d {
                    Some(d) => Some(AppAction::InsertPrimitive(d.shape, d.size_mm)),
                    None => None,
                }
            },
        }
    }
}

/// Act on the answer to the softness dialog. It closes when the settle runs, or when
/// it is given up.
pub fn answer_settle(dialog: &mut SettleDialogState, answer: Answer) -> (r: Option<AppAction>)
    ensures
        r == (if old(dialog).open && answer == Answer::Accept {
            Some(AppAction::SettlePlastic(old(dialog).plasticity))
        } else {
            None
        }),
        final(dialog).plasticity == old(dialog).plasticity,
        final(dialog).open == (old(dialog).open && answer != Answer::Cancel),
{
    if !dialog.open {
        return None;
    }
    match answer {
        Answer::Waiting => None,
        Answer::Cancel => {
            dialog.open = false;
            None
        },
        Answer::Accept => Some(AppAction::SettlePlastic(dialog.plasticity)),
    }
}

/// What the panels take for themselves.
#[derive(Copy, Clone, Debug, PartialEq, Eq, Structural)]
pub struct UiCapturesInput {
    pub pointer: bool,
    pub keyboard: bool,
}

/// What the toolkit of the panels reports.
#[derive(Copy, Clone, Debug, PartialEq, Eq, Structural)]
pub struct UiReport {
    pub wants_pointer: bool,
    pub pointer_over_area: bool,
    pub wants_keyboard: bool,
    pub any_popup_open: bool,
}

/// What the panels take for themselves: everything while a dialog is open.
pub fn publish_ui_capture(
    files: &FileDialogState,
    primitive: &PrimitiveDialogState,
    settle: &SettleDialogState,
    settings: &SettingsDialogState,
    report: UiReport,
) -> (r: UiCapturesInput)
    ensures
        ({
            let modal = !files.is_closed() || primitive.open is Some || settle.open
                || settings.tool_open || settings.prefs_open;
            r == (UiCapturesInput {
                pointer: modal || report.wants_pointer || report.pointer_over_area,
                keyboard: modal || report.wants_keyboard || report.any_popup_open,
            })
        }),
{
    let modal: bool = files.any_open() || primitive.open.is_some() || settle.open
        || settings.any_open();
    UiCapturesInput {
        pointer: modal || report.wants_pointer || report.pointer_over_area,
        keyboard: modal || report.wants_keyboard || report.any_popup_open,
    }
}

/// A row of the layers panel.
pub struct LayerRow {
    pub index: usize,
    pub name: String,
    pub visible: bool,
    pub active: bool,
}

/// What the layers panel shows.
pub struct LayersPanel {
    /// The layers, top layer first.
    pub rows: Vec<LayerRow>,
    /// A layer can be deleted.
    pub can_delete: bool,
    /// The active layer can be merged down.
    pub can_merge: bool,
}

/// The row of layer `i`.
pub open spec fn is_row(row: LayerRow, m: LayersModel, i: int) -> bool {
    &&& row.index == i
    &&& row.name@ == m.layers[i].name
    &&& row.visible == m.layers[i].visible
    &&& row.active == (i == m.active)
}

/// What the layers panel shows.
pub fn layers_panel(state: &LayersState) -> (r: LayersPanel)
    requires
        state.wf(),
    ensures
        r.rows@.len() == state@.layers.len(),
        forall|k: int|
            0 <= k < r.rows@.len() ==> is_row(
                #[trigger] r.rows@[k],
                state@,
                state@.layers.len() - 1 - k,
            ),
        r.can_delete == (state@.layers.len() > 1),
        r.can_merge == (state@.active > 0),
{
    let n: usize = state.layers.len();
    let mut rows: Vec<LayerRow> = Vec::new();
    let mut k: usize = 0;
    while k < n
        invariant
            k <= n,
            n == state@.layers.len(),
            n == state.layers@.len(),
            rows.len() == k,
            forall|j: int|
                0 <= j < k ==> is_row(#[trigger] rows@[j], state@, n - 1 - j),
        decreases n - k,
    {
        let i: usize = n - 1 - k;
        assert(state@.layers[i as int] == state.layers@[i as int]@);
        rows.push(
            LayerRow {
                index: i,
                name: String::from_str(state.layers[i].name.as_str()),
                visible: state.layers[i].visible,
                active: i == state.active,
            },
        );
        k = k + 1;
    }
    LayersPanel { rows, can_delete: n > 1, can_merge: state.active > 0 }
}

/// The name of a layer that was given none.
pub open spec fn plain_name(idx: nat) -> Seq<char> {
    "Layer "@ + decimal(idx + 1)
}

proof fn lemma_plain_name(idx: nat)
    ensures
        plain_name(idx).len() > 0,
        trimmed(plain_name(idx)) == plain_name(idx),
{
    reveal_strlit("Layer ");
    let s = plain_name(idx);
    let n = idx + 1;
    assert(decimal(n).len() > 0);
    assert(decimal(n).last() == digit(n % 10));
    assert(s.last() == decimal(n).last());
    assert(s[0] == 'L');
    assert(!is_white(s[0]));
    assert(!is_white(s.last()));
}

/// Take over the name that was typed for a layer. A blank one becomes the number of
/// its place. The result says whether there is such a layer.
pub fn finish_rename(state: &mut LayersState, idx: usize, name: &str) -> (r: bool)
    requires
        old(state).wf(),
        idx < usize::MAX,
    ensures
        final(state).wf(),
        final(state).res() == old(state).res(),
        r == (idx < old(state)@.layers.len()),
        !r ==> final(state)@ == old(state)@,
        r ==> {
            let typed = trimmed(name@);
            let l = old(state)@.layers[idx as int];
            final(state)@ == (LayersModel {
                layers: old(state)@.layers.update(
                    idx as int,
                    LayerModel {
                        name: if typed.len() > 0 {
                            typed
                        } else {
                            plain_name(idx as nat)
                        },
                        ..l
                    },
                ),
                ..old(state)@
            })
        },
{
    if state.rename_layer(idx, name) {
        return true;
    }
    if idx >= state.layers.len() {
        return false;
    }
    let mut plain = String::from_str("Layer ");
    push_decimal(&mut plain, idx as u64 + 1);
    proof {
        lemma_plain_name(idx as nat);
    }
    state.rename_layer(idx, plain.as_str())
}

/// The line about the active layer in the status strip.
pub open spec fn layer_status_of(m: LayersModel) -> Seq<char> {
    "Layer "@ + decimal((m.active + 1) as nat) + "/"@ + decimal(m.layers.len()) + " \u{b7} "@
        + m.layers[m.active].name
}

/// The line about the active layer in the status strip.
pub fn layer_status(state: &LayersState) -> (r: String)
    requires
        state.wf(),
    ensures
        r@ == layer_status_of(state@),
{
    let n: usize = state.layers.len();
    let mut r = String::from_str("Layer ");
    push_decimal(&mut r, (state.active + 1) as u64);
    r.append("/");
    push_decimal(&mut r, n as u64);
    r.append(" \u{b7} ");
    r.append(state.layers[state.active].name.as_str());
    assert(r@ =~= layer_status_of(state@));
    r
}

} // verus!
