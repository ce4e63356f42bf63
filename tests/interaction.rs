use skelform::armature::{create_bone, Bone};
use skelform::interaction::{
    pick_hovered, Interaction, MotionAction, OpMode, NO_HOVER, NO_SELECTION,
};

fn store(n: usize) -> Vec<Bone<()>> {
    let mut bones: Vec<Bone<()>> = Vec::new();
    for _ in 0..n {
        create_bone(&mut bones, ());
    }
    bones
}

#[test]
fn later_bone_wins_overlap() {
    let bones = store(3);
    assert_eq!(pick_hovered(&bones, &vec![true, false, true], 0, false), 2);
    assert_eq!(pick_hovered(&bones, &vec![true, true, false], 0, false), 1);
    assert_eq!(pick_hovered(&bones, &vec![true, false, false], 4, false), 0);
    assert_eq!(pick_hovered(&bones, &vec![false, false, false], 0, false), NO_HOVER);
}

#[test]
fn hover_suspended_while_dragging_or_on_ui() {
    let bones = store(2);
    assert_eq!(pick_hovered(&bones, &vec![true, true], 5, false), NO_HOVER);
    assert_eq!(pick_hovered(&bones, &vec![true, true], 0, true), NO_HOVER);
    let empty: Vec<Bone<()>> = Vec::new();
    assert_eq!(pick_hovered(&empty, &vec![], 0, false), NO_HOVER);
}

#[test]
fn press_selects_hovered_when_nothing_selected() {
    let bones = store(3);
    let mut st = Interaction::new();
    st.hovered_bone = 2;
    st.mouse_button_down(&bones);
    assert!(st.mouse_pressed);
    assert_eq!(st.selected_bone, 2);
    st.hovered_bone = 1;
    st.mouse_button_down(&bones);
    assert_eq!(st.selected_bone, 2);
}

#[test]
fn release_selects_hovered_or_clears() {
    let bones = store(3);
    let mut st = Interaction::new();
    st.hovered_bone = 1;
    st.mouse_button_up(&bones, false);
    assert!(!st.mouse_pressed);
    assert_eq!(st.selected_bone, 1);
    st.hovered_bone = NO_HOVER;
    st.mouse_button_up(&bones, true);
    assert_eq!(st.selected_bone, 1);
    st.mouse_pressed_frames = 6;
    st.mouse_button_up(&bones, false);
    assert_eq!(st.selected_bone, 1);
    st.mouse_pressed_frames = 5;
    st.mouse_button_up(&bones, false);
    assert_eq!(st.selected_bone, NO_SELECTION);
    st.hovered_bone = 9;
    st.mouse_button_up(&bones, false);
    assert_eq!(st.selected_bone, NO_SELECTION);
}

#[test]
fn tick_counts_held_frames() {
    let mut st = Interaction::new();
    st.tick();
    assert_eq!(st.mouse_pressed_frames, 0);
    st.mouse_pressed = true;
    st.tick();
    st.tick();
    assert_eq!(st.mouse_pressed_frames, 2);
    st.mouse_pressed_frames = i32::MAX;
    st.tick();
    assert_eq!(st.mouse_pressed_frames, i32::MAX);
    st.mouse_pressed = false;
    st.tick();
    assert_eq!(st.mouse_pressed_frames, 0);
}

#[test]
fn motion_depends_on_hold_and_selection() {
    let mut st = Interaction::new();
    st.mouse_pressed_frames = 4;
    assert_eq!(st.motion_action(false), MotionAction::Ignore);
    st.mouse_pressed_frames = 5;
    assert_eq!(st.motion_action(true), MotionAction::Ignore);
    assert_eq!(st.motion_action(false), MotionAction::PanCamera);
    st.selected_bone = 1;
    st.op_mode = OpMode::Rotate;
    assert_eq!(st.motion_action(false), MotionAction::Edit(1, OpMode::Rotate));
}

#[test]
fn delete_selected_clears_selection() {
    let mut bones = store(3);
    let mut st = Interaction::new();
    st.selected_bone = 0;
    st.delete_selected(&mut bones);
    assert_eq!(st.selected_bone, NO_SELECTION);
    assert_eq!(bones.iter().map(|b| b.id).collect::<Vec<_>>(), vec![1, 2]);
}
