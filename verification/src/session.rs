//! Saving, loading and clearing the workpiece, and what the layers panel does.

use crate::bench::deselected;
use crate::grid::GridView;
use crate::layers::{all_chunks, LayerModel, LayerSnapshot, LayersModel, LayersState};
use crate::merge::{merged, MergeDownRecord};
use crate::project::{describes, file_error, read_project_scene, LayerView, ProjectLayer, ProjectScene, ReadError, SceneView, WriteError};
use crate::project_write::{is_stack, law_exact_round_trip, law_written_file_is_readable, names_counted, scene_bytes, scene_error, shares_domain, write_project_scene};
use crate::sample::law_unmoved_from_itself;
use crate::scene::{all_entities, fits, loaded, misfit, next_free, retired_from, scene_swap_error, GridSwapError, SceneLayer};
use crate::sculpt::SculptStroke;
use crate::selection::Selection;
use crate::layers::shown;
use crate::undo::{capped, DeleteLayerEntry, UndoEntry, UndoHistory};
use vstd::prelude::*;

verus! {

/// What is saved of a stack of layers.
pub open spec fn scene_of(m: LayersModel) -> SceneView {
    SceneView {
        layers: Seq::new(
            m.layers.len(),
            |i: int|
                LayerView {
                    id: m.layers[i].id,
                    name: m.layers[i].name,
                    visible: m.layers[i].visible,
                    grid: m.layers[i].grid,
                },
        ),
        active: m.active,
    }
}

/// The scene of the workpiece.
pub fn scene_from_workpiece(state: &LayersState) -> (r: ProjectScene)
    requires
        state.wf(),
    ensures
        r.wf(),
        r@ == scene_of(state@),
{
    let mut layers: Vec<ProjectLayer> = Vec::new();
    let mut i: usize = 0;
    while i < state.layers.len()
        invariant
            i <= state.layers.len(),
            state.wf(),
            layers.len() == i,
            forall|k: int|
                0 <= k < i ==> (#[trigger] layers@[k]).grid.wf() && layers@[k]@ == scene_of(
                    state@,
                ).layers[k],
        decreases state.layers.len() - i,
    {
        let snap = LayerSnapshot::from_layer(&state.layers[i]);
        assert(state.layers@[i as int]@ == state@.layers[i as int]);
        layers.push(
            ProjectLayer { id: snap.id, name: snap.name, visible: snap.visible, grid: snap.grid },
        );
        i = i + 1;
    }
    let r = ProjectScene { layers, active: state.active };
    assert(r@.layers =~= scene_of(state@).layers);
    r
}

/// The bytes of the project file of the workpiece.
pub fn save_project(state: &LayersState) -> (r: Result<Vec<u8>, WriteError>)
    requires
        state.wf(),
    ensures
        r is Err <==> scene_error(scene_of(state@)) is Some,
        r matches Err(e) ==> scene_error(scene_of(state@)) == Some(e),
        r matches Ok(b) ==> b@ == scene_bytes(scene_of(state@)),
        r is Ok && names_counted(scene_of(state@)) ==> file_error(scene_bytes(scene_of(state@))) is None,
{
    let scene = scene_from_workpiece(state);
    write_project_scene(&scene)
}

/// Why a project could not be loaded.
#[derive(Copy, Clone, Debug, PartialEq, Eq, Structural)]
pub enum LoadError {
    /// The file could not be read.
    Read(ReadError),
    /// The scene does not fit the workpiece.
    Swap(GridSwapError),
}

/// What a list of loaded layers holds.
pub open spec fn scene_view(layers: Seq<SceneLayer>, active: usize) -> SceneView {
    SceneView {
        layers: Seq::new(
            layers.len(),
            |i: int|
                LayerView {
                    id: layers[i].0,
                    name: layers[i].1@,
                    visible: layers[i].2,
                    grid: layers[i].3@,
                },
        ),
        active: active as int,
    }
}

fn into_layers(scene: ProjectScene) -> (r: Vec<SceneLayer>)
    requires
        scene.wf(),
    ensures
        scene_view(r@, scene.active) == scene@,
        forall|i: int| 0 <= i < r@.len() ==> (#[trigger] r@[i]).3.wf(),
{
    let ghost all = scene.layers@;
    let ghost was = scene@;
    let mut rest = scene.layers;
    let mut out: Vec<SceneLayer> = Vec::new();
    while rest.len() > 0
        invariant
            rest@.len() + out@.len() == all.len(),
            forall|i: int| 0 <= i < rest@.len() ==> rest@[i] == #[trigger] all[i + out@.len()],
            forall|i: int| 0 <= i < out@.len() ==> tuple_of(#[trigger] out@[i], all[i]),
            forall|i: int| 0 <= i < all.len() ==> (#[trigger] all[i]).grid.wf(),
        decreases rest@.len(),
    {
        let ghost n = out@.len() as int;
        assert(rest@[0] == all[0 + n]);
        let layer = rest.remove(0);
        let ghost before = out@;
        out.push((layer.id, layer.name, layer.visible, layer.grid));
        proof {
            assert forall|i: int| 0 <= i < rest@.len() implies rest@[i] == #[trigger] all[i
                + out@.len()] by {
                assert(all[(i + 1) + n] == all[i + out@.len()]);
            }
            assert forall|i: int| 0 <= i < out@.len() implies tuple_of(#[trigger] out@[i], all[i]) by {
                if i < n {
                    assert(out@[i] == before[i]);
                }
            }
        }
    }
    proof {
        assert forall|i: int| 0 <= i < out@.len() implies (#[trigger] out@[i]).3.wf() by {
            assert(tuple_of(out@[i], all[i]));
        }
        assert(scene_view(out@, scene.active).layers =~= was.layers) by {
            assert forall|i: int| 0 <= i < out@.len() implies scene_view(out@, scene.active).layers[i]
                == was.layers[i] by {
                assert(tuple_of(out@[i], all[i]));
            }
        }
    }
    out
}

/// The same layer, once as a tuple.
spec fn tuple_of(t: SceneLayer, l: ProjectLayer) -> bool {
    t.0 == l.id && t.1 == l.name && t.2 == l.visible && t.3 == l.grid
}

/// The stack after a scene was loaded.
pub open spec fn loaded_stack(m: LayersModel, layers: Seq<SceneLayer>, active: usize) -> LayersModel {
    LayersModel {
        layers: Seq::new(
            layers.len(),
            |i: int| loaded(layers[i], m.layers[m.active].material),
        ),
        active: active as int,
        next_id: next_free(layers, layers.len()),
        pending: m.pending + all_entities(m.layers, m.layers.len()),
    }
}

/// Load the bytes of a project file in place of the workpiece. The history is gone
/// then; the selection is gone either way. On success the result is the number of
/// layers.
pub fn load_project(
    bytes: &[u8],
    state: &mut LayersState,
    history: &mut UndoHistory,
    stroke: &mut SculptStroke,
    selection: &mut Selection,
) -> (r: Result<usize, LoadError>)
    requires
        old(state).wf(),
    ensures
        final(state).wf(),
        final(state).res() == old(state).res(),
        deselected(*old(selection), *final(selection)),
        r is Err ==> final(state)@ == old(state)@ && *final(history) == *old(history)
            && *final(stroke) == *old(stroke),
        r is Ok ==> final(history).undo@.len() == 0 && final(history).redo@.len() == 0
            && final(stroke).is_idle(),
        match file_error(bytes@) {
            Some(e) => r == Err::<usize, LoadError>(LoadError::Read(e)),
            None => exists|layers: Seq<SceneLayer>, active: usize| #[trigger]
                describes(bytes@, scene_view(layers, active)) && (match scene_swap_error(
                    old(state)@.layers[old(state)@.active].grid,
                    layers,
                    active,
                ) {
                    Some(e) => r == Err::<usize, LoadError>(LoadError::Swap(e)),
                    None => {
                        &&& r matches Ok(n) && n == layers.len()
                        &&& final(state)@ == loaded_stack(old(state)@, layers, active)
                    },
                }),
        },
{
    let ghost m = state@;
    selection.reset();
    let scene = match read_project_scene(bytes) {
        Ok(scene) => scene,
        Err(e) => {
            return Err(LoadError::Read(e));
        },
    };
    let active: usize = scene.active;
    let layers = into_layers(scene);
    let count: usize = layers.len();
    let ghost all = layers@;
    assert(describes(bytes@, scene_view(all, active)));
    match state.replace_from_scene(layers, active) {
        Ok(()) => {
            history.clear();
            stroke.discard_live();
            assert(state@ == loaded_stack(m, all, active));
            Ok(count)
        },
        Err(e) => Err(LoadError::Swap(e)),
    }
}

proof fn lemma_all_fit(layers: Seq<SceneLayer>, n: nat)
    requires
        n <= layers.len(),
        forall|i: int| 0 <= i < layers.len() ==> fits(layers[0].3@, (#[trigger] layers[i]).3@),
    ensures
        misfit(layers, n) is None,
    decreases n,
{
    if n > 0 {
        lemma_all_fit(layers, (n - 1) as nat);
        assert(fits(layers[0].3@, layers[n - 1].3@));
    }
}

/// What is saved is what is loaded: the file of a stack whose layers have one domain
/// can be loaded into that stack, and brings back each layer with its number, name,
/// visibility and samples, and the active layer.
pub proof fn law_save_then_load(m: LayersModel, layers: Seq<SceneLayer>, active: usize)
    requires
        0 <= m.active < m.layers.len(),
        is_stack(scene_of(m)),
        scene_error(scene_of(m)) is None,
        names_counted(scene_of(m)),
        forall|i: int|
            0 <= i < m.layers.len() ==> (#[trigger] m.layers[i]).grid.same_domain(m.layers[0].grid),
        describes(scene_bytes(scene_of(m)), scene_view(layers, active)),
    ensures
        file_error(scene_bytes(scene_of(m))) is None,
        scene_swap_error(m.layers[m.active].grid, layers, active) is None,
        scene_of(loaded_stack(m, layers, active)) == scene_of(m),
{
    let s = scene_of(m);
    let t = scene_view(layers, active);
    assert forall|i: int| 0 <= i < s.layers.len() implies (#[trigger] s.layers[i]).grid.same_domain(
        s.layers[0].grid,
    ) by {
        assert(m.layers[i].grid.same_domain(m.layers[0].grid));
    }
    law_written_file_is_readable(s);
    law_exact_round_trip(s, t);
    assert(t.layers.len() == m.layers.len());
    assert forall|i: int| 0 <= i < layers.len() implies #[trigger] layers[i].3@ == m.layers[i].grid
        && layers[i].0 == m.layers[i].id && layers[i].1@ == m.layers[i].name && layers[i].2
        == m.layers[i].visible by {
        assert(t.layers[i] == s.layers[i]);
    }
    law_unmoved_from_itself(m.layers[0].grid.voxel_size);
    assert(shares_domain(s.layers[0].grid, s.layers[0].grid));
    assert forall|i: int| 0 <= i < layers.len() implies fits(
        layers[0].3@,
        (#[trigger] layers[i]).3@,
    ) by {
        assert(m.layers[i].grid.same_domain(m.layers[0].grid));
    }
    lemma_all_fit(layers, layers.len());
    assert(m.layers[m.active].grid.same_domain(m.layers[0].grid));
    assert(scene_of(loaded_stack(m, layers, active)).layers =~= s.layers) by {
        assert forall|i: int| 0 <= i < layers.len() implies scene_of(
            loaded_stack(m, layers, active),
        ).layers[i] == s.layers[i] by {
            assert(layers[i].3@ == m.layers[i].grid);
        }
    }
}

/// An empty worktable: one empty layer, no history, no stroke, nothing selected.
pub fn clear_worktable(
    state: &mut LayersState,
    history: &mut UndoHistory,
    stroke: &mut SculptStroke,
    selection: &mut Selection,
)
    requires
        old(state).wf(),
    ensures
        final(state).wf(),
        final(state).res() == old(state).res(),
        final(history).undo@.len() == 0,
        final(history).redo@.len() == 0,
        final(stroke).is_idle(),
        deselected(*old(selection), *final(selection)),
        ({
            let first = old(state)@.layers[0];
            &&& final(state)@.layers == seq![
                LayerModel {
                    name: "Layer 1"@,
                    visible: true,
                    grid: GridView { tiles: Map::empty(), ..first.grid },
                    dirty: all_chunks(first.grid.res),
                    ..first
                },
            ]
            &&& final(state)@.active == 0
            &&& final(state)@.next_id == old(state)@.next_id
            &&& final(state)@.pending == old(state)@.pending + retired_from(old(state)@.layers, 1)
        }),
{
    state.reset_to_empty_single_layer();
    history.clear();
    stroke.discard_live();
    selection.reset();
}

/// Make a layer active, if there is one at that place. Another active layer drops the
/// selection and the stroke.
pub fn activate_layer(
    state: &mut LayersState,
    stroke: &mut SculptStroke,
    selection: &mut Selection,
    idx: usize,
)
    requires
        old(state).wf(),
    ensures
        final(state).wf(),
        final(state).res() == old(state).res(),
        final(state)@ == (LayersModel {
            active: if idx < old(state)@.layers.len() {
                idx as int
            } else {
                old(state)@.active
            },
            ..old(state)@
        }),
        final(state)@.active != old(state)@.active ==> final(stroke).is_idle() && deselected(
            *old(selection),
            *final(selection),
        ),
        final(state)@.active == old(state)@.active ==> *final(stroke) == *old(stroke)
            && *final(selection) == *old(selection),
{
    let before: usize = state.active_index();
    state.set_active_index(idx);
    if state.active_index() != before {
        selection.reset();
        stroke.discard_live();
    }
}

/// Show or hide a layer, if there is one at that place. Labels are stale then.
pub fn show_layer(state: &mut LayersState, selection: &mut Selection, idx: usize, visible: bool)
    requires
        old(state).wf(),
    ensures
        final(state).wf(),
        final(state).res() == old(state).res(),
        final(selection).picked_voxel == old(selection).picked_voxel,
        final(selection).active_only == old(selection).active_only,
        idx >= old(state)@.layers.len() ==> final(state)@ == old(state)@ && final(selection).labels
            == old(selection).labels,
        idx < old(state)@.layers.len() ==> final(selection).labels is None && final(state)@ == (
        LayersModel {
            layers: old(state)@.layers.update(
                idx as int,
                shown(old(state)@.layers[idx as int], visible),
            ),
            ..old(state)@
        }),
{
    if state.set_visible(idx, visible) {
        selection.invalidate_labels();
    }
}

/// Delete a layer, as one unit of undo. The last layer and a place without a layer are
/// refused. The result says whether a layer was deleted.
pub fn delete_layer_now(
    state: &mut LayersState,
    history: &mut UndoHistory,
    stroke: &mut SculptStroke,
    selection: &mut Selection,
    idx: usize,
) -> (r: bool)
    requires
        old(state).wf(),
        old(history).wf(old(state).res()),
    ensures
        final(state).wf(),
        final(state).res() == old(state).res(),
        final(history).wf(old(state).res()),
        r == (old(state)@.layers.len() > 1 && idx < old(state)@.layers.len()),
        !r ==> final(state)@ == old(state)@ && *final(history) == *old(history) && *final(stroke)
            == *old(stroke) && *final(selection) == *old(selection),
        r ==> {
            &&& final(state)@ == old(state)@.without(idx as int)
            &&& final(stroke).is_idle()
            &&& deselected(*old(selection), *final(selection))
            &&& final(history).redo@.len() == 0
            &&& exists|e: DeleteLayerEntry| #[trigger]
                deletes(e, old(state)@, idx as int) && final(history).undo@ == capped(
                    old(history).undo@.push(UndoEntry::DeleteLayer(e)),
                )
        },
{
    let ghost m = state@;
    match state.delete_layer(idx) {
        Some((layer, previous_active)) => {
            stroke.discard_live();
            let entry = DeleteLayerEntry { index: idx, previous_active, layer };
            assert(deletes(entry, m, idx as int));
            history.push_delete_layer(entry);
            selection.reset();
            true
        },
        None => false,
    }
}

/// The entry of deleting layer `idx` of `m`.
pub open spec fn deletes(e: DeleteLayerEntry, m: LayersModel, idx: int) -> bool {
    &&& e.index == idx
    &&& e.previous_active == m.active
    &&& e.layer@ == m.layers[idx].snapshot()
}

/// Merge the active layer into the one below, as one unit of undo. The bottom layer is
/// refused. The result says whether there was a merge.
pub fn merge_down_now(
    state: &mut LayersState,
    history: &mut UndoHistory,
    stroke: &mut SculptStroke,
    selection: &mut Selection,
) -> (r: bool)
    requires
        old(state).wf(),
        old(history).wf(old(state).res()),
    ensures
        final(state).wf(),
        final(state).res() == old(state).res(),
        final(history).wf(old(state).res()),
        r == (old(state)@.active > 0),
        !r ==> final(state)@ == old(state)@ && *final(history) == *old(history) && *final(stroke)
            == *old(stroke) && *final(selection) == *old(selection),
        r ==> {
            &&& final(stroke).is_idle()
            &&& deselected(*old(selection), *final(selection))
            &&& final(history).redo@.len() == 0
            &&& exists|rec: MergeDownRecord| #[trigger]
                merged(old(state)@, final(state)@, rec) && final(history).undo@ == capped(
                    old(history).undo@.push(UndoEntry::MergeDown(rec)),
                )
        },
{
    let ghost m = state@;
    match state.merge_down_active() {
        Some(record) => {
            stroke.discard_live();
            assert(merged(m, state@, record));
            history.push_merge_down(record);
            selection.reset();
            true
        },
        None => false,
    }
}

} // verus!
