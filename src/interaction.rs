use vstd::prelude::*;

use crate::armature::{Bone, delete_bone, find_bone_idx, well_formed, parent_at, unique_ids};

verus! {

/// `selected_bone` when no bone is selected.
pub const NO_SELECTION: usize = usize::MAX;

/// `hovered_bone` when the cursor is over no bone.
pub const NO_HOVER: i32 = -1;

/// Frames a button must be held before a press counts as a drag.
pub const DRAG_FRAMES: i32 = 5;

/// What dragging the cursor over the scene does to the selected bone.
#[derive(Clone, Copy, Debug, PartialEq, Eq, Structural)]
pub enum OpMode {
    Translate,
    Rotate,
    Scale,
}

/// What a cursor movement should do.
#[derive(Clone, Copy, Debug, PartialEq, Eq, Structural)]
pub enum MotionAction {
    /// Nothing: the button is not held long enough, or the cursor is on the UI.
    Ignore,
    /// Nothing is selected: the camera follows the cursor.
    PanCamera,
    /// The bone at this position is edited in the given mode.
    Edit(usize, OpMode),
}

/// Selection, hover and pointer state of the editor.
pub struct Interaction {
    pub selected_bone: usize,
    pub hovered_bone: i32,
    pub mouse_pressed: bool,
    pub mouse_pressed_frames: i32,
    pub op_mode: OpMode,
    pub dragging: bool,
}

/// Id of the last bone, in store order, whose box holds the cursor, or
/// `NO_HOVER` when there is none or when hover is suspended.
pub open spec fn hovered<P>(s: Seq<Bone<P>>, hits: Seq<bool>, suspended: bool, r: i32) -> bool {
    if suspended || forall|i: int| 0 <= i < hits.len() ==> !#[trigger] hits[i] {
        r == NO_HOVER
    } else {
        exists|i: int|
            0 <= i < hits.len() && #[trigger] hits[i] && s[i].id == r && forall|j: int|
                i < j < hits.len() ==> !#[trigger] hits[j]
    }
}

/// Position that a hovered id selects: the first bone with that id, or
/// `NO_SELECTION` when there is none.
pub open spec fn selection_of<P>(s: Seq<Bone<P>>, id: i32, r: usize) -> bool {
    if exists|k: int| 0 <= k < s.len() && s[k].id == id {
        r < s.len() && s[r as int].id == id && forall|k: int| 0 <= k < r ==> s[k].id != id
    } else {
        r == NO_SELECTION
    }
}

/// Picks the bone under the cursor. `hits[i]` tells whether the cursor lies
/// inside the box of the bone at `i`; later bones are drawn on top, so the
/// last hit wins. Hover is suspended while a button has been held for
/// `DRAG_FRAMES` frames or more, or while the cursor is over the UI.
pub fn pick_hovered<P>(bones: &Vec<Bone<P>>, hits: &Vec<bool>, pressed_frames: i32, over_ui: bool) -> (r: i32)
    requires
        hits@.len() == bones@.len(),
    ensures
        hovered(bones@, hits@, pressed_frames >= DRAG_FRAMES || over_ui, r),
{
    if pressed_frames >= DRAG_FRAMES || over_ui {
        return NO_HOVER;
    }
    let mut i: usize = hits.len();
    while i > 0
        invariant
            i <= hits@.len(),
            hits@.len() == bones@.len(),
            !(pressed_frames >= DRAG_FRAMES || over_ui),
            forall|j: int| i <= j < hits@.len() ==> !#[trigger] hits@[j],
        decreases i,
    {
        i -= 1;
        if hits[i] {
            return bones[i].id;
        }
    }
    NO_HOVER
}

/// Position of the bone with identity `id`, or `NO_SELECTION`.
fn select_id<P>(bones: &Vec<Bone<P>>, id: i32) -> (r: usize)
    requires
        bones@.len() <= i32::MAX,
    ensures
        selection_of(bones@, id, r),
{
    let idx = find_bone_idx(bones, id);
    if idx < 0 {
        NO_SELECTION
    } else {
        idx as usize
    }
}

impl Interaction {
    /// Nothing selected or hovered, no button held, translate mode.
    pub fn new() -> (r: Interaction)
        ensures
            r.selected_bone == NO_SELECTION,
            r.hovered_bone == NO_HOVER,
            !r.mouse_pressed,
            r.mouse_pressed_frames == 0,
            r.op_mode == OpMode::Translate,
            !r.dragging,
    {
        Interaction {
            selected_bone: NO_SELECTION,
            hovered_bone: NO_HOVER,
            mouse_pressed: false,
            mouse_pressed_frames: 0,
            op_mode: OpMode::Translate,
            dragging: false,
        }
    }

    /// Counts the frames during which a button is held; resets when released.
    pub fn tick(&mut self)
        ensures
            final(self).mouse_pressed_frames == (if old(self).mouse_pressed {
                if old(self).mouse_pressed_frames < i32::MAX {
                    old(self).mouse_pressed_frames + 1
                } else {
                    i32::MAX as int
                }
            } else {
                0
            }),
            final(self).selected_bone == old(self).selected_bone,
            final(self).hovered_bone == old(self).hovered_bone,
            final(self).mouse_pressed == old(self).mouse_pressed,
            final(self).op_mode == old(self).op_mode,
            final(self).dragging == old(self).dragging,
    {
        if self.mouse_pressed {
            if self.mouse_pressed_frames < i32::MAX {
                self.mouse_pressed_frames = self.mouse_pressed_frames + 1;
            }
        } else {
            self.mouse_pressed_frames = 0;
        }
    }

    /// A button goes down: when nothing is selected, the hovered bone (if any)
    /// becomes selected at once.
    pub fn mouse_button_down<P>(&mut self, bones: &Vec<Bone<P>>)
        requires
            bones@.len() <= i32::MAX,
        ensures
            final(self).mouse_pressed,
            old(self).hovered_bone != NO_HOVER && old(self).selected_bone == NO_SELECTION
                ==> selection_of(bones@, old(self).hovered_bone, final(self).selected_bone),
            !(old(self).hovered_bone != NO_HOVER && old(self).selected_bone == NO_SELECTION)
                ==> final(self).selected_bone == old(self).selected_bone,
            final(self).hovered_bone == old(self).hovered_bone,
            final(self).mouse_pressed_frames == old(self).mouse_pressed_frames,
            final(self).op_mode == old(self).op_mode,
            final(self).dragging == old(self).dragging,
    {
        self.mouse_pressed = true;
        if self.hovered_bone != NO_HOVER && self.selected_bone == NO_SELECTION {
            self.selected_bone = select_id(bones, self.hovered_bone);
        }
    }

    /// A button comes up. Unless the cursor is over the UI or the press was a
    /// drag (held more than `DRAG_FRAMES` frames), the hovered bone becomes
    /// the selection, or nothing when no bone is hovered.
    pub fn mouse_button_up<P>(&mut self, bones: &Vec<Bone<P>>, over_ui: bool)
        requires
            bones@.len() <= i32::MAX,
        ensures
            !final(self).mouse_pressed,
            (over_ui || old(self).mouse_pressed_frames > DRAG_FRAMES) ==> final(self).selected_bone
                == old(self).selected_bone,
            !(over_ui || old(self).mouse_pressed_frames > DRAG_FRAMES) && old(self).hovered_bone
                == NO_HOVER ==> final(self).selected_bone == NO_SELECTION,
            !(over_ui || old(self).mouse_pressed_frames > DRAG_FRAMES) && old(self).hovered_bone
                != NO_HOVER ==> selection_of(
                bones@,
                old(self).hovered_bone,
                final(self).selected_bone,
            ),
            final(self).hovered_bone == old(self).hovered_bone,
            final(self).mouse_pressed_frames == old(self).mouse_pressed_frames,
            final(self).op_mode == old(self).op_mode,
            final(self).dragging == old(self).dragging,
    {
        self.mouse_pressed = false;
        if over_ui || self.mouse_pressed_frames > DRAG_FRAMES {
            return;
        }
        if self.hovered_bone == NO_HOVER {
            self.selected_bone = NO_SELECTION;
        } else {
            self.selected_bone = select_id(bones, self.hovered_bone);
        }
    }

    /// What a cursor movement does: nothing until the button has been held
    /// `DRAG_FRAMES` frames or while over the UI, else pan the camera when
    /// nothing is selected, else edit the selected bone in the current mode.
    pub fn motion_action(&self, over_ui: bool) -> (r: MotionAction)
        ensures
            r == (if self.mouse_pressed_frames < DRAG_FRAMES || over_ui {
                MotionAction::Ignore
            } else if self.selected_bone == NO_SELECTION {
                MotionAction::PanCamera
            } else {
                MotionAction::Edit(self.selected_bone, self.op_mode)
            }),
    {
        if self.mouse_pressed_frames < DRAG_FRAMES || over_ui {
            MotionAction::Ignore
        } else if self.selected_bone == NO_SELECTION {
            MotionAction::PanCamera
        } else {
            MotionAction::Edit(self.selected_bone, self.op_mode)
        }
    }

    /// Deletes the selected bone and clears the selection.
    pub fn delete_selected<P>(&mut self, bones: &mut Vec<Bone<P>>)
        requires
            old(self).selected_bone < old(bones)@.len(),
        ensures
            final(bones)@ == old(bones)@.remove(old(self).selected_bone as int),
            unique_ids(old(bones)@) ==> unique_ids(final(bones)@),
            well_formed(old(bones)@) && (forall|i: int|
                !#[trigger] parent_at(old(bones)@, old(self).selected_bone as int, i))
                ==> well_formed(final(bones)@),
            final(self).selected_bone == NO_SELECTION,
            final(self).hovered_bone == old(self).hovered_bone,
            final(self).mouse_pressed == old(self).mouse_pressed,
            final(self).mouse_pressed_frames == old(self).mouse_pressed_frames,
            final(self).op_mode == old(self).op_mode,
            final(self).dragging == old(self).dragging,
    {
        delete_bone(bones, self.selected_bone);
        self.selected_bone = NO_SELECTION;
    }
}

} // verus!
