//! The viewer's control state: which camera drives, what the brush does, and
//! which keys are held.

use vstd::prelude::*;

verus! {

/// Largest edit-brush radius (voxels); a radius-`r` sphere is about `(2r+1)³`
/// voxels.
pub const MAX_BRUSH_RADIUS: u32 = 12;

/// Which camera is driving the view.
#[derive(Debug, Clone, Copy, PartialEq, Eq, Structural)]
pub enum CamMode {
    /// Deterministic turntable (default; used by scripted profiling).
    Orbit,
    /// Interactive free-fly camera.
    Free,
}

impl CamMode {
    /// Short upper-case label for the HUD.
    #[must_use]
    pub fn label(self) -> (r: &'static str)
        ensures
            r@ == match self {
                CamMode::Orbit => "ORBIT"@,
                CamMode::Free => "FREE"@,
            },
    {
        match self {
            CamMode::Orbit => "ORBIT",
            CamMode::Free => "FREE",
        }
    }
}

/// The movement and modifier keys currently held.
#[derive(Debug, Clone, Copy, PartialEq, Eq, Structural)]
pub struct Held {
    /// Move along the forward direction.
    pub forward: bool,
    /// Move opposite the forward direction.
    pub back: bool,
    /// Strafe left.
    pub left: bool,
    /// Strafe right.
    pub right: bool,
    /// Rise.
    pub up: bool,
    /// Descend.
    pub down: bool,
    /// Apply the movement speed boost.
    pub boost: bool,
}

impl Default for Held {
    fn default() -> (r: Self)
        ensures
            r == (Held {
                forward: false,
                back: false,
                left: false,
                right: false,
                up: false,
                down: false,
                boost: false,
            }),
    {
        Held {
            forward: false,
            back: false,
            left: false,
            right: false,
            up: false,
            down: false,
            boost: false,
        }
    }
}

/// A key, by what it does.
#[derive(Debug, Clone, Copy, PartialEq, Eq, Structural)]
pub enum Key {
    /// `W`.
    Forward,
    /// `S`.
    Back,
    /// `A`.
    Left,
    /// `D`.
    Right,
    /// `E` or space.
    Up,
    /// `Q` or left control.
    Down,
    /// Either shift.
    Boost,
    /// Tab: toggle the camera.
    Mode,
    /// `H`: toggle the HUD.
    Hud,
    /// `B`: toggle add and remove.
    Brush,
    /// `[`: a smaller brush.
    Smaller,
    /// `]`: a larger brush.
    Larger,
    /// Escape.
    Quit,
    /// Any other key.
    Other,
}

impl Key {
    /// A key that moves the camera.
    pub open spec fn moves(self) -> bool {
        self == Key::Forward || self == Key::Back || self == Key::Left || self == Key::Right || self
            == Key::Up || self == Key::Down
    }
}

/// What the caller has to do after an input.
#[derive(Debug, Clone, Copy, PartialEq, Eq, Structural)]
pub enum Effect {
    /// Nothing.
    Nothing,
    /// The free camera took over from the orbit: seed it from the orbit pose, so
    /// the view does not jump.
    SeedFree,
    /// Stamp the brush at the cursor.
    Stamp,
    /// Leave.
    Exit,
}

/// The control state.
#[derive(Debug, Clone, Copy, PartialEq, Eq, Structural)]
pub struct Controls {
    /// Which camera is driving.
    pub mode: CamMode,
    /// Whether the HUD is shown.
    pub show_hud: bool,
    /// Whether dragging looks around.
    pub mouse_look: bool,
    /// Whether the brush adds (or removes).
    pub brush_add: bool,
    /// The brush radius.
    pub brush_radius: u32,
    /// The held keys.
    pub held: Held,
}

impl Default for Controls {
    fn default() -> (r: Self)
        ensures
            r.mode == CamMode::Orbit,
            r.show_hud,
            !r.mouse_look,
            r.brush_add,
            r.brush_radius == 3,
            r.held == (Held {
                forward: false,
                back: false,
                left: false,
                right: false,
                up: false,
                down: false,
                boost: false,
            }),
    {
        Controls {
            mode: CamMode::Orbit,
            show_hud: true,
            mouse_look: false,
            brush_add: true,
            brush_radius: 3,
            held: Held::default(),
        }
    }
}

impl Controls {
    /// The held keys after one is pressed or released.
    pub open spec fn held_after(self, key: Key, pressed: bool) -> Held {
        match key {
            Key::Forward => Held { forward: pressed, ..self.held },
            Key::Back => Held { back: pressed, ..self.held },
            Key::Left => Held { left: pressed, ..self.held },
            Key::Right => Held { right: pressed, ..self.held },
            Key::Up => Held { up: pressed, ..self.held },
            Key::Down => Held { down: pressed, ..self.held },
            Key::Boost => Held { boost: pressed, ..self.held },
            _ => self.held,
        }
    }

    /// What pressing a key that does not move the camera does.
    pub open spec fn after_press(self, key: Key) -> Controls {
        match key {
            Key::Mode => Controls {
                mode: match self.mode {
                    CamMode::Orbit => CamMode::Free,
                    CamMode::Free => CamMode::Orbit,
                },
                ..self
            },
            Key::Hud => Controls { show_hud: !self.show_hud, ..self },
            Key::Brush => Controls { brush_add: !self.brush_add, ..self },
            Key::Smaller => Controls {
                brush_radius: if self.brush_radius == 0 {
                    0
                } else {
                    (self.brush_radius - 1) as u32
                },
                ..self
            },
            Key::Larger => Controls {
                brush_radius: if self.brush_radius + 1 < MAX_BRUSH_RADIUS {
                    (self.brush_radius + 1) as u32
                } else {
                    MAX_BRUSH_RADIUS
                },
                ..self
            },
            _ => self,
        }
    }

    /// The state after a key event. Movement keys hand control to the free
    /// camera on press; other keys do not.
    pub open spec fn after_key(self, key: Key, pressed: bool) -> Controls {
        let s = Controls { held: self.held_after(key, pressed), ..self };
        if !pressed {
            s
        } else if key.moves() {
            Controls { mode: CamMode::Free, ..s }
        } else {
            s.after_press(key)
        }
    }

    /// Whether the free camera took over.
    pub open spec fn took_over(self, next: Controls) -> bool {
        self.mode == CamMode::Orbit && next.mode == CamMode::Free
    }

    /// What a key event asks of the caller.
    pub open spec fn key_effect(self, key: Key, pressed: bool) -> Effect {
        if pressed && key == Key::Quit {
            Effect::Exit
        } else if self.took_over(self.after_key(key, pressed)) {
            Effect::SeedFree
        } else {
            Effect::Nothing
        }
    }

    /// The state after a left-button event.
    pub open spec fn after_left(self, pressed: bool) -> Controls {
        Controls {
            mouse_look: pressed,
            mode: if pressed {
                CamMode::Free
            } else {
                self.mode
            },
            ..self
        }
    }

    /// What a left-button event asks of the caller.
    pub open spec fn left_effect(self, pressed: bool) -> Effect {
        if self.took_over(self.after_left(pressed)) {
            Effect::SeedFree
        } else {
            Effect::Nothing
        }
    }

    /// Hands control to the free camera.
    fn ensure_free(&mut self) -> (r: Effect)
        ensures
            *final(self) == (Controls { mode: CamMode::Free, ..*old(self) }),
            r == if old(self).mode == CamMode::Orbit {
                Effect::SeedFree
            } else {
                Effect::Nothing
            },
    {
        if self.mode == CamMode::Orbit {
            self.mode = CamMode::Free;
            Effect::SeedFree
        } else {
            Effect::Nothing
        }
    }

    /// Toggles between the cameras.
    pub fn toggle_mode(&mut self) -> (r: Effect)
        ensures
            *final(self) == (Controls {
                mode: match old(self).mode {
                    CamMode::Orbit => CamMode::Free,
                    CamMode::Free => CamMode::Orbit,
                },
                ..*old(self)
            }),
            r == if old(self).mode == CamMode::Orbit {
                Effect::SeedFree
            } else {
                Effect::Nothing
            },
    {
        match self.mode {
            CamMode::Orbit => self.ensure_free(),
            CamMode::Free => {
                self.mode = CamMode::Orbit;
                Effect::Nothing
            },
        }
    }

    /// Records a held key; says whether it moves the camera.
    fn hold(&mut self, key: Key, pressed: bool) -> (r: bool)
        ensures
            *final(self) == (Controls { held: old(self).held_after(key, pressed), ..*old(self) }),
            r == key.moves(),
    {
        match key {
            Key::Forward => {
                self.held.forward = pressed;
                true
            },
            Key::Back => {
                self.held.back = pressed;
                true
            },
            Key::Left => {
                self.held.left = pressed;
                true
            },
            Key::Right => {
                self.held.right = pressed;
                true
            },
            Key::Up => {
                self.held.up = pressed;
                true
            },
            Key::Down => {
                self.held.down = pressed;
                true
            },
            Key::Boost => {
                self.held.boost = pressed;
                false
            },
            _ => false,
        }
    }

    /// Acts on the press of a key that does not move the camera.
    fn press(&mut self, key: Key) -> (r: Effect)
        requires
            !key.moves(),
        ensures
            *final(self) == old(self).after_press(key),
            r == if key == Key::Quit {
                Effect::Exit
            } else if old(self).took_over(*final(self)) {
                Effect::SeedFree
            } else {
                Effect::Nothing
            },
    {
        match key {
            Key::Mode => self.toggle_mode(),
            Key::Hud => {
                self.show_hud = !self.show_hud;
                Effect::Nothing
            },
            Key::Brush => {
                self.brush_add = !self.brush_add;
                Effect::Nothing
            },
            Key::Smaller => {
                if self.brush_radius > 0 {
                    self.brush_radius = self.brush_radius - 1;
                }
                Effect::Nothing
            },
            Key::Larger => {
                self.brush_radius = if self.brush_radius < MAX_BRUSH_RADIUS - 1 {
                    self.brush_radius + 1
                } else {
                    MAX_BRUSH_RADIUS
                };
                Effect::Nothing
            },
            Key::Quit => Effect::Exit,
            _ => Effect::Nothing,
        }
    }

    /// Takes a key event.
    pub fn on_key(&mut self, key: Key, pressed: bool) -> (r: Effect)
        ensures
            *final(self) == old(self).after_key(key, pressed),
            r == old(self).key_effect(key, pressed),
    {
        let moves: bool = self.hold(key, pressed);
        if !pressed {
            Effect::Nothing
        } else if moves {
            self.ensure_free()
        } else {
            self.press(key)
        }
    }

    /// Takes a left-button event: dragging looks around, and hands control to
    /// the free camera.
    pub fn on_left_button(&mut self, pressed: bool) -> (r: Effect)
        ensures
            *final(self) == old(self).after_left(pressed),
            r == old(self).left_effect(pressed),
    {
        self.mouse_look = pressed;
        if pressed {
            self.ensure_free()
        } else {
            Effect::Nothing
        }
    }

    /// Takes a right-button event: a press stamps the brush at the cursor.
    #[must_use]
    pub fn on_right_button(&self, pressed: bool) -> (r: Effect)
        ensures
            r == if pressed {
                Effect::Stamp
            } else {
                Effect::Nothing
            },
    {
        if pressed {
            Effect::Stamp
        } else {
            Effect::Nothing
        }
    }
}

/// The brush radius stays within its bound, whatever is pressed.
pub proof fn law_brush_radius_bounded(s: Controls, key: Key, pressed: bool)
    requires
        s.brush_radius <= MAX_BRUSH_RADIUS,
    ensures
        s.after_key(key, pressed).brush_radius <= MAX_BRUSH_RADIUS,
{
}

/// Toggling the camera, the HUD or the brush mode twice changes nothing.
pub proof fn law_toggles_undo(s: Controls, key: Key)
    requires
        key == Key::Mode || key == Key::Hud || key == Key::Brush,
    ensures
        s.after_key(key, true).after_key(key, true) == s,
{
}

/// Each held flag follows its own key and no other: after a key event it says
/// whether the key is down where the key is the flag's, and is as before where
/// it is not.
pub proof fn law_flags_follow_their_keys(s: Controls, key: Key, pressed: bool)
    ensures
        ({
            let held = s.after_key(key, pressed).held;
            &&& held.forward == if key == Key::Forward { pressed } else { s.held.forward }
            &&& held.back == if key == Key::Back { pressed } else { s.held.back }
            &&& held.left == if key == Key::Left { pressed } else { s.held.left }
            &&& held.right == if key == Key::Right { pressed } else { s.held.right }
            &&& held.up == if key == Key::Up { pressed } else { s.held.up }
            &&& held.down == if key == Key::Down { pressed } else { s.held.down }
            &&& held.boost == if key == Key::Boost { pressed } else { s.held.boost }
        }),
{
}

/// Letting a key go changes nothing but its flag.
pub proof fn law_release_only_lifts(s: Controls, key: Key)
    ensures
        s.after_key(key, false) == (Controls { held: s.after_key(key, false).held, ..s }),
{
}

/// A key let go right after it was pressed is not held, as if it had only been
/// let go.
pub proof fn law_press_and_release(s: Controls, key: Key)
    ensures
        s.after_key(key, true).after_key(key, false).held == s.after_key(key, false).held,
{
    let t = s.after_key(key, true);
    assert(t.held == s.held_after(key, true)) by {
        lemma_pressed_held(s, key);
    }
    lemma_release_held(s.held_after(key, true), s, t, key);
}

proof fn lemma_pressed_held(s: Controls, key: Key)
    ensures
        s.after_key(key, true).held == s.held_after(key, true),
{
}

proof fn lemma_release_held(h: Held, s: Controls, t: Controls, key: Key)
    requires
        h == s.held_after(key, true),
        t.held == h,
    ensures
        t.held_after(key, false) == s.held_after(key, false),
{
}

/// What is not held changes on a press of its own key alone: the HUD on `H`, the
/// brush mode on `B`, the radius on `[` and `]`. Looking around is the mouse's.
pub proof fn law_settings_follow_their_keys(s: Controls, key: Key, pressed: bool)
    ensures
        ({
            let n = s.after_key(key, pressed);
            &&& n.show_hud != s.show_hud <==> pressed && key == Key::Hud
            &&& n.brush_add != s.brush_add <==> pressed && key == Key::Brush
            &&& n.brush_radius != s.brush_radius ==> pressed && (key == Key::Smaller || key
                == Key::Larger)
            &&& n.mouse_look == s.mouse_look
        }),
{
}

/// The camera after a key event: a press of a key that moves hands over to the
/// free camera, a press of the mode key goes to the other one, and nothing else
/// changes it.
pub proof fn law_camera_follows_its_keys(s: Controls, key: Key, pressed: bool)
    ensures
        ({
            let n = s.after_key(key, pressed);
            let moves = key == Key::Forward || key == Key::Back || key == Key::Left || key
                == Key::Right || key == Key::Up || key == Key::Down;
            &&& pressed && moves ==> n.mode == CamMode::Free
            &&& pressed && key == Key::Mode ==> n.mode != s.mode
            &&& !pressed || !(moves || key == Key::Mode) ==> n.mode == s.mode
        }),
{
}

/// The brush grows and shrinks by one voxel, and the two undo each other, but at
/// the ends: no brush is smaller than nothing or larger than twelve.
pub proof fn law_brush_steps_by_one(s: Controls)
    requires
        s.brush_radius <= 12,
    ensures
        s.brush_radius < 12 ==> s.after_key(Key::Larger, true).brush_radius
            == s.brush_radius + 1 && s.after_key(Key::Larger, true).after_key(Key::Smaller, true)
            == s,
        s.brush_radius > 0 ==> s.after_key(Key::Smaller, true).brush_radius == s.brush_radius - 1
            && s.after_key(Key::Smaller, true).after_key(Key::Larger, true) == s,
        s.brush_radius == 12 ==> s.after_key(Key::Larger, true) == s,
        s.brush_radius == 0 ==> s.after_key(Key::Smaller, true) == s,
{
}

/// What a key event asks of the caller: to leave on a press of escape, to seed
/// the free camera exactly where it takes over, and never to stamp.
pub proof fn law_key_effects(s: Controls, key: Key, pressed: bool)
    ensures
        s.key_effect(key, pressed) == Effect::Exit <==> pressed && key == Key::Quit,
        s.key_effect(key, pressed) == Effect::SeedFree <==> s.mode == CamMode::Orbit
            && s.after_key(key, pressed).mode == CamMode::Free,
        s.key_effect(key, pressed) != Effect::Stamp,
{
}

/// The left button looks around while it is down and touches nothing else but
/// the camera: pressed it is the free one's, let go it stays where it was. The
/// free camera is seeded exactly where it takes over.
pub proof fn law_left_button_looks(s: Controls, pressed: bool)
    ensures
        ({
            let n = s.after_left(pressed);
            &&& n.mouse_look == pressed
            &&& n == (Controls { mouse_look: n.mouse_look, mode: n.mode, ..s })
            &&& pressed ==> n.mode == CamMode::Free
            &&& !pressed ==> n.mode == s.mode && s.left_effect(pressed) == Effect::Nothing
            &&& s.left_effect(pressed) == Effect::SeedFree <==> s.mode == CamMode::Orbit && n.mode
                == CamMode::Free
            &&& s.left_effect(pressed) == Effect::SeedFree || s.left_effect(pressed)
                == Effect::Nothing
        }),
{
}

/// A press of the right button stamps, and nothing else does.
pub proof fn law_right_button_stamps(s: Controls, pressed: bool, r: Effect)
    requires
        call_ensures(Controls::on_right_button, (&s, pressed), r),
    ensures
        r == Effect::Stamp <==> pressed,
        r == Effect::Nothing <==> !pressed,
{
}

/// Whether the configured frame budget (if any) has been rendered.
#[must_use]
pub fn done(max_frames: u32, frames_total: u32) -> (r: bool)
    ensures
        r == (max_frames != 0 && frames_total >= max_frames),
{
    max_frames != 0 && frames_total >= max_frames
}

/// A key event, as the caller sees it: the state is the one after the key, flag
/// by flag, and the effect is the key's.
pub proof fn law_key_event(c: &mut Controls, key: Key, pressed: bool, r: Effect)
    requires
        call_ensures(Controls::on_key, (c, key, pressed), r),
    ensures
        *final(c) == old(c).after_key(key, pressed),
        r == old(c).key_effect(key, pressed),
        ({
            let (was, held) = (old(c).held, final(c).held);
            &&& held.forward == (if key == Key::Forward { pressed } else { was.forward })
            &&& held.back == (if key == Key::Back { pressed } else { was.back })
            &&& held.left == (if key == Key::Left { pressed } else { was.left })
            &&& held.right == (if key == Key::Right { pressed } else { was.right })
            &&& held.up == (if key == Key::Up { pressed } else { was.up })
            &&& held.down == (if key == Key::Down { pressed } else { was.down })
            &&& held.boost == (if key == Key::Boost { pressed } else { was.boost })
        }),
{
}

/// A left-button event, as the caller sees it.
pub proof fn law_left_button_event(c: &mut Controls, pressed: bool, r: Effect)
    requires
        call_ensures(Controls::on_left_button, (c, pressed), r),
    ensures
        *final(c) == old(c).after_left(pressed),
        r == old(c).left_effect(pressed),
{
}

/// Toggling goes to the other camera and nothing else changes; toggling again
/// undoes it. The free camera is seeded each time it takes over.
pub proof fn law_toggle_mode_undoes(
    c: &mut Controls,
    d: &mut Controls,
    r: Effect,
    s: Effect,
)
    requires
        call_ensures(Controls::toggle_mode, (c,), r),
        call_ensures(Controls::toggle_mode, (d,), s),
        *old(d) == *final(c),
    ensures
        final(c).mode != old(c).mode,
        *final(d) == *old(c),
        r == Effect::SeedFree <==> final(c).mode == CamMode::Free,
        r == Effect::SeedFree || r == Effect::Nothing,
{
}

/// A run ends after its frames, and one without a budget never does.
pub proof fn law_done_at_budget(max_frames: u32, frames: u32, more: u32, now: bool, later: bool)
    requires
        frames <= more,
        call_ensures(done, (max_frames, frames), now),
        call_ensures(done, (max_frames, more), later),
    ensures
        max_frames == 0 ==> !now,
        max_frames > 0 ==> (now <==> !(frames < max_frames)),
        now ==> later,
{
}

/// A session starts on the turntable with the HUD shown, a brush that adds and is
/// within its bound, and no key or button held; a first press of a key that moves
/// seeds the free camera.
pub proof fn law_session_start(c: Controls, h: Held, key: Key)
    requires
        call_ensures(Controls::default, (), c),
        call_ensures(Held::default, (), h),
    ensures
        c.mode == CamMode::Orbit && c.show_hud && c.brush_add && !c.mouse_look,
        c.brush_radius == 3,
        c.held == h,
        !h.forward && !h.back && !h.left && !h.right && !h.up && !h.down && !h.boost,
        key.moves() ==> c.key_effect(key, true) == Effect::SeedFree,
{
}

/// A camera's label is its own.
pub proof fn law_camera_labels(m: CamMode, s: &'static str)
    requires
        call_ensures(CamMode::label, (m,), s),
    ensures
        m == CamMode::Orbit <==> s@ == "ORBIT"@,
        m == CamMode::Free <==> s@ == "FREE"@,
{
    reveal_strlit("ORBIT");
    reveal_strlit("FREE");
    assert("ORBIT"@.len() == 5 && "FREE"@.len() == 4);
}

} // verus!
