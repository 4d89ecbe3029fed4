use scene_graph::control::{
    apply_event, camera_step, drain_frame_input, flow_after, CameraOffset, CameraStep, Flow, InputEvent,
};
use scene_graph::input::{InputState, Key};

#[test]
fn presses_and_releases_leave_the_difference_held() {
    let mut s = InputState::new();
    for k in [Key::W, Key::A, Key::Up, Key::Other(42)] {
        s.press(k);
    }
    for k in [Key::A, Key::Other(42)] {
        s.release(k);
    }
    assert_eq!(s.pressed_keys(), &vec![Key::W, Key::Up]);
    assert!(s.is_pressed(Key::W));
    assert!(!s.is_pressed(Key::A));
}

#[test]
fn pressing_a_held_key_again_changes_nothing() {
    let mut s = InputState::new();
    s.press(Key::S);
    s.press(Key::D);
    s.press(Key::S);
    assert_eq!(s.pressed_keys(), &vec![Key::S, Key::D]);
}

#[test]
fn releasing_a_key_not_held_changes_nothing() {
    let mut s = InputState::new();
    s.press(Key::E);
    s.release(Key::Q);
    assert_eq!(s.pressed_keys(), &vec![Key::E]);
}

#[test]
fn pointer_motion_adds_up_until_taken() {
    let mut s = InputState::new();
    s.add_pointer_motion(3, -4);
    s.add_pointer_motion(-10, 7);
    assert_eq!(s.pointer_delta(), (-7, 3));
    assert_eq!(s.take_pointer_delta(), (-7, 3));
    assert_eq!(s.pointer_delta(), (0, 0));
}

#[test]
fn events_update_the_state() {
    let mut s = InputState::new();
    apply_event(&mut s, InputEvent::KeyPressed(Key::Left));
    apply_event(&mut s, InputEvent::PointerMoved(5, 6));
    apply_event(&mut s, InputEvent::PointerMoved(1, 1));
    apply_event(&mut s, InputEvent::Other);
    assert_eq!(s.pressed_keys(), &vec![Key::Left]);
    assert_eq!(s.pointer_delta(), (6, 7));
    apply_event(&mut s, InputEvent::KeyReleased(Key::Left));
    assert!(s.pressed_keys().is_empty());
}

#[test]
fn exit_on_close_escape_or_dead_renderer() {
    assert_eq!(flow_after(InputEvent::CloseRequested, true), Flow::Exit);
    assert_eq!(flow_after(InputEvent::KeyPressed(Key::Escape), true), Flow::Exit);
    assert_eq!(flow_after(InputEvent::KeyReleased(Key::Escape), true), Flow::Exit);
    assert_eq!(flow_after(InputEvent::KeyPressed(Key::W), false), Flow::Exit);
    assert_eq!(flow_after(InputEvent::KeyPressed(Key::W), true), Flow::Continue);
    assert_eq!(flow_after(InputEvent::PointerMoved(1, 2), true), Flow::Continue);
    assert_eq!(flow_after(InputEvent::Other, true), Flow::Continue);
}

#[test]
fn camera_step_reads_each_held_key_once() {
    let mut s = InputState::new();
    for k in [Key::A, Key::E, Key::S, Key::Down, Key::Left] {
        s.press(k);
    }
    assert_eq!(camera_step(&s), CameraStep { dx: 1, dy: 1, dz: -1, pitch: -1, yaw: 1 });
    for k in [Key::D, Key::Q, Key::W, Key::Up, Key::Right] {
        s.press(k);
    }
    assert_eq!(camera_step(&s), CameraStep { dx: 0, dy: 0, dz: 0, pitch: 0, yaw: 0 });
}

#[test]
fn holding_w_moves_the_camera_one_unit_per_frame() {
    let speed: f32 = 1.0;
    let delta_time: f32 = 1.0;
    let mut s = InputState::new();
    s.press(Key::W);
    let mut camera = CameraOffset::start();
    let before = camera.z as f32 * speed;
    let frame = drain_frame_input(&mut s);
    camera.apply(frame.step);
    let after = camera.z as f32 * speed;
    assert_eq!(camera, CameraOffset { x: 0, y: 0, z: -2 });
    assert_eq!(after - before, 1.0);
    assert_eq!(frame.step.pitch as f32 * delta_time, 0.0);
}

#[test]
fn draining_a_frame_resets_the_pointer_and_keeps_keys() {
    let mut s = InputState::new();
    s.press(Key::Right);
    s.add_pointer_motion(2, 2);
    let frame = drain_frame_input(&mut s);
    assert_eq!((frame.pointer_dx, frame.pointer_dy), (2, 2));
    assert_eq!(frame.step.yaw, -1);
    assert_eq!(s.pointer_delta(), (0, 0));
    assert_eq!(s.pressed_keys(), &vec![Key::Right]);
}
