use vstd::prelude::*;
use crate::input::{InputState, Key, accumulate, after_press, after_release};

verus! {

/// A window event, as far as the input state and the event loop care.
#[derive(Clone, Copy, Debug, PartialEq, Eq, Structural)]
pub enum InputEvent {
    CloseRequested,
    KeyPressed(Key),
    KeyReleased(Key),
    PointerMoved(i64, i64),
    Other,
}

/// Whether the event loop keeps waiting for events or shuts down.
#[derive(Clone, Copy, Debug, PartialEq, Eq, Structural)]
pub enum Flow {
    Continue,
    Exit,
}

/// The event loop shuts down when the window is asked to close, when the
/// escape key goes down or up, or once the render side has died.
pub open spec fn must_exit(event: InputEvent, renderer_alive: bool) -> bool {
    ||| !renderer_alive
    ||| event == InputEvent::CloseRequested
    ||| event == InputEvent::KeyPressed(Key::Escape)
    ||| event == InputEvent::KeyReleased(Key::Escape)
}

/// Decides, on each event, whether the event loop goes on.
pub fn flow_after(event: InputEvent, renderer_alive: bool) -> (f: Flow)
    ensures
        f == (if must_exit(event, renderer_alive) { Flow::Exit } else { Flow::Continue }),
{
    if !renderer_alive {
        return Flow::Exit;
    }
    match event {
        InputEvent::CloseRequested => Flow::Exit,
        InputEvent::KeyPressed(Key::Escape) => Flow::Exit,
        InputEvent::KeyReleased(Key::Escape) => Flow::Exit,
        _ => Flow::Continue,
    }
}

/// Whether the pointer motion of `event`, if any, can be added to what `s`
/// has gathered without leaving the range of `i64`.
pub open spec fn motion_fits(s: InputState, event: InputEvent) -> bool {
    event matches InputEvent::PointerMoved(dx, dy) ==> {
        &&& i64::MIN <= s.pointer().0 + dx <= i64::MAX
        &&& i64::MIN <= s.pointer().1 + dy <= i64::MAX
    }
}

/// Records an event in the input state: keys going down or up, pointer
/// motion; other events leave it as it is.
pub fn apply_event(s: &mut InputState, event: InputEvent)
    requires
        old(s).wf(),
        motion_fits(*old(s), event),
    ensures
        final(s).wf(),
        final(s).keys() == match event {
            InputEvent::KeyPressed(k) => after_press(old(s).keys(), k),
            InputEvent::KeyReleased(k) => after_release(old(s).keys(), k),
            _ => old(s).keys(),
        },
        final(s).pointer() == match event {
            InputEvent::PointerMoved(dx, dy) => accumulate(old(s).pointer(), dx as int, dy as int),
            _ => old(s).pointer(),
        },
{
    match event {
        InputEvent::KeyPressed(k) => s.press(k),
        InputEvent::KeyReleased(k) => s.release(k),
        InputEvent::PointerMoved(dx, dy) => s.add_pointer_motion(dx, dy),
        _ => {},
    }
}

/// What the held keys ask of the camera on one frame. Moves count in units
/// of the camera speed, turns in units of the frame's elapsed time: each
/// held key acts once per frame, whatever the time the frame took.
#[derive(Clone, Copy, Debug, PartialEq, Eq, Structural)]
pub struct CameraStep {
    pub dx: i64,
    pub dy: i64,
    pub dz: i64,
    pub pitch: i64,
    pub yaw: i64,
}

/// One when `k` is among `keys`, else zero.
pub open spec fn held(keys: Seq<Key>, k: Key) -> int {
    if keys.contains(k) {
        1
    } else {
        0
    }
}

/// The camera step for the held keys: A and D move along x, E and Q along
/// y, W and S along z; Up and Down turn about x, Left and Right about y.
pub open spec fn step_for(keys: Seq<Key>) -> CameraStep {
    CameraStep {
        dx: (held(keys, Key::A) - held(keys, Key::D)) as i64,
        dy: (held(keys, Key::E) - held(keys, Key::Q)) as i64,
        dz: (held(keys, Key::W) - held(keys, Key::S)) as i64,
        pitch: (held(keys, Key::Up) - held(keys, Key::Down)) as i64,
        yaw: (held(keys, Key::Left) - held(keys, Key::Right)) as i64,
    }
}

fn held_exec(s: &InputState, k: Key) -> (r: i64)
    ensures
        r == held(s.keys(), k),
{
    if s.is_pressed(k) {
        1
    } else {
        0
    }
}

/// The camera step that the keys held in `s` ask for.
pub fn camera_step(s: &InputState) -> (step: CameraStep)
    ensures
        step == step_for(s.keys()),
{
    CameraStep {
        dx: held_exec(s, Key::A) - held_exec(s, Key::D),
        dy: held_exec(s, Key::E) - held_exec(s, Key::Q),
        dz: held_exec(s, Key::W) - held_exec(s, Key::S),
        pitch: held_exec(s, Key::Up) - held_exec(s, Key::Down),
        yaw: held_exec(s, Key::Left) - held_exec(s, Key::Right),
    }
}

/// What a frame takes from the input state: the camera step of the held
/// keys and the pointer motion gathered since the last frame.
#[derive(Clone, Copy, Debug, PartialEq, Eq, Structural)]
pub struct FrameInput {
    pub step: CameraStep,
    pub pointer_dx: i64,
    pub pointer_dy: i64,
}

/// Takes a frame's input: the held keys stay held, the pointer motion is
/// handed out and starts again from none.
pub fn drain_frame_input(s: &mut InputState) -> (fi: FrameInput)
    requires
        old(s).wf(),
    ensures
        final(s).wf(),
        fi.step == step_for(old(s).keys()),
        (fi.pointer_dx as int, fi.pointer_dy as int) == old(s).pointer(),
        final(s).keys() == old(s).keys(),
        final(s).pointer() == (0int, 0int),
{
    let step = camera_step(s);
    let (pointer_dx, pointer_dy) = s.take_pointer_delta();
    FrameInput { step, pointer_dx, pointer_dy }
}

/// The camera offset, in units of the camera speed.
#[derive(Clone, Copy, Debug, PartialEq, Eq, Structural)]
pub struct CameraOffset {
    pub x: i64,
    pub y: i64,
    pub z: i64,
}

impl CameraOffset {
    /// Where the camera starts: three units back along z.
    pub fn start() -> (c: CameraOffset)
        ensures
            c.x == 0 && c.y == 0 && c.z == -3,
    {
        CameraOffset { x: 0, y: 0, z: -3 }
    }

    /// Whether one more step keeps every coordinate in the range of `i64`.
    pub open spec fn can_take(&self, step: CameraStep) -> bool {
        &&& i64::MIN <= self.x + step.dx <= i64::MAX
        &&& i64::MIN <= self.y + step.dy <= i64::MAX
        &&& i64::MIN <= self.z + step.dz <= i64::MAX
    }

    /// Moves the camera by one step.
    pub fn apply(&mut self, step: CameraStep)
        requires
            old(self).can_take(step),
        ensures
            final(self).x == old(self).x + step.dx,
            final(self).y == old(self).y + step.dy,
            final(self).z == old(self).z + step.dz,
    {
        self.x = self.x + step.dx;
        self.y = self.y + step.dy;
        self.z = self.z + step.dz;
    }
}

} // verus!
