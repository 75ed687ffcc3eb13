//! Keyboard, mouse and touch state as the scripts see it: which keys are
//! held, which went down this frame, the mouse buttons, and the movement
//! axes derived from WASD and the arrow keys.
use vstd::prelude::*;

use crate::text::{copy_str, str_eq};

verus! {

/// The physical keys the engine tracks; every other key is `Other`.
#[derive(Clone, Copy, PartialEq, Eq, Structural)]
pub enum Key {
    Space,
    KeyW,
    KeyA,
    KeyS,
    KeyD,
    KeyQ,
    KeyE,
    KeyR,
    ArrowUp,
    ArrowDown,
    ArrowLeft,
    ArrowRight,
    Other,
}

/// The name scripts use for a tracked key.
pub open spec fn key_name(k: Key) -> Option<Seq<char>> {
    match k {
        Key::Space => Some("Space"@),
        Key::KeyW => Some("KeyW"@),
        Key::KeyA => Some("KeyA"@),
        Key::KeyS => Some("KeyS"@),
        Key::KeyD => Some("KeyD"@),
        Key::KeyQ => Some("KeyQ"@),
        Key::KeyE => Some("KeyE"@),
        Key::KeyR => Some("KeyR"@),
        Key::ArrowUp => Some("ArrowUp"@),
        Key::ArrowDown => Some("ArrowDown"@),
        Key::ArrowLeft => Some("ArrowLeft"@),
        Key::ArrowRight => Some("ArrowRight"@),
        Key::Other => None,
    }
}

/// The name of a tracked key.
pub fn match_key_code(k: Key) -> (r: Option<String>)
    ensures
        match r {
            Some(s) => key_name(k) == Some(s@),
            None => key_name(k) is None,
        },
{
    match k {
        Key::Space => Some(copy_str("Space")),
        Key::KeyW => Some(copy_str("KeyW")),
        Key::KeyA => Some(copy_str("KeyA")),
        Key::KeyS => Some(copy_str("KeyS")),
        Key::KeyD => Some(copy_str("KeyD")),
        Key::KeyQ => Some(copy_str("KeyQ")),
        Key::KeyE => Some(copy_str("KeyE")),
        Key::KeyR => Some(copy_str("KeyR")),
        Key::ArrowUp => Some(copy_str("ArrowUp")),
        Key::ArrowDown => Some(copy_str("ArrowDown")),
        Key::ArrowLeft => Some(copy_str("ArrowLeft")),
        Key::ArrowRight => Some(copy_str("ArrowRight")),
        Key::Other => None,
    }
}

/// A mouse button; buttons other than the first three count as the left one.
#[derive(Clone, Copy)]
pub enum MouseButton {
    Left,
    Right,
    Middle,
    Other,
}

pub open spec fn button_index(b: MouseButton) -> int {
    match b {
        MouseButton::Left => 0,
        MouseButton::Right => 1,
        MouseButton::Middle => 2,
        MouseButton::Other => 0,
    }
}

/// The phase of a touch.
#[derive(Clone, Copy)]
pub enum TouchPhase {
    Started,
    Moved,
    Ended,
    Cancelled,
}

/// The window events that change input state. Cursor and touch positions are
/// kept by the window layer.
#[derive(Clone, Copy)]
pub enum InputEvent {
    /// A key went down (`pressed`) or up.
    Keyboard { key: Key, pressed: bool },
    /// The cursor moved.
    CursorMoved,
    /// A mouse button went down (`pressed`) or up.
    MouseInput { button: MouseButton, pressed: bool },
    /// A touch, which acts on the left mouse button.
    Touch { phase: TouchPhase },
    /// Any other window event.
    Other,
}

/// The abstract input state.
pub struct InputModel {
    pub keys_down: Seq<Seq<char>>,
    pub keys_just_pressed: Seq<Seq<char>>,
    pub mouse_down: Seq<bool>,
    pub mouse_pressed: Seq<bool>,
    pub move_x: int,
    pub move_y: int,
}

/// 1 when `keys` holds `a` or `b`, else 0.
pub open spec fn held(keys: Seq<Seq<char>>, a: Seq<char>, b: Seq<char>) -> int {
    if keys.contains(a) || keys.contains(b) { 1 } else { 0 }
}

/// The horizontal axis: +1 for D or Right, -1 for A or Left.
pub open spec fn axis_x(keys: Seq<Seq<char>>) -> int {
    held(keys, "KeyD"@, "ArrowRight"@) - held(keys, "KeyA"@, "ArrowLeft"@)
}

/// The vertical axis: +1 for W or Up, -1 for S or Down.
pub open spec fn axis_y(keys: Seq<Seq<char>>) -> int {
    held(keys, "KeyW"@, "ArrowUp"@) - held(keys, "KeyS"@, "ArrowDown"@)
}

/// A consistent input state: three mouse buttons, no key held twice, and
/// the axes match the held keys.
pub open spec fn model_wf(m: InputModel) -> bool {
    &&& m.mouse_down.len() == 3
    &&& m.mouse_pressed.len() == 3
    &&& m.keys_down.no_duplicates()
    &&& m.move_x == axis_x(m.keys_down)
    &&& m.move_y == axis_y(m.keys_down)
}

/// `keys` without `name`.
pub open spec fn without(keys: Seq<Seq<char>>, name: Seq<char>) -> Seq<Seq<char>> {
    keys.filter(other_than(name))
}

/// The test "is not `name`".
pub open spec fn other_than(name: Seq<char>) -> spec_fn(Seq<char>) -> bool {
    |k: Seq<char>| k != name
}

/// The held keys after a key event.
pub open spec fn keys_after(keys: Seq<Seq<char>>, name: Seq<char>, pressed: bool) -> Seq<Seq<char>> {
    if pressed {
        if keys.contains(name) { keys } else { keys.push(name) }
    } else {
        without(keys, name)
    }
}

/// The state after one event.
pub open spec fn next_state(m: InputModel, e: InputEvent) -> InputModel {
    match e {
        InputEvent::Keyboard { key, pressed } => {
            let (down, just) = match key_name(key) {
                Some(n) => (
                    keys_after(m.keys_down, n, pressed),
                    if pressed && !m.keys_down.contains(n) { m.keys_just_pressed.push(n) } else { m.keys_just_pressed },
                ),
                None => (m.keys_down, m.keys_just_pressed),
            };
            InputModel { keys_down: down, keys_just_pressed: just, move_x: axis_x(down), move_y: axis_y(down), ..m }
        },
        InputEvent::MouseInput { button, pressed } => {
            let i = button_index(button);
            InputModel {
                mouse_down: m.mouse_down.update(i, pressed),
                mouse_pressed: if pressed && !m.mouse_down[i] { m.mouse_pressed.update(i, true) } else { m.mouse_pressed },
                ..m
            }
        },
        InputEvent::Touch { phase } => match phase {
            TouchPhase::Started => InputModel {
                mouse_down: m.mouse_down.update(0, true),
                mouse_pressed: if !m.mouse_down[0] { m.mouse_pressed.update(0, true) } else { m.mouse_pressed },
                ..m
            },
            TouchPhase::Moved => InputModel { mouse_down: m.mouse_down.update(0, true), ..m },
            _ => InputModel { mouse_down: m.mouse_down.update(0, false), ..m },
        },
        _ => m,
    }
}

/// Input state: held keys, keys that went down this frame, mouse buttons
/// held and pressed this frame, and the movement axes (-1, 0 or 1).
pub struct InputState {
    move_x: i8,
    move_y: i8,
    keys_down: Vec<String>,
    keys_just_pressed: Vec<String>,
    mouse_button_down: [bool; 3],
    mouse_button_pressed: [bool; 3],
}

pub open spec fn names(v: Seq<String>) -> Seq<Seq<char>> {
    v.map_values(|s: String| s@)
}

fn with_flag(a: [bool; 3], i: usize, v: bool) -> (r: [bool; 3])
    requires
        i < 3,
    ensures
        r@ == a@.update(i as int, v),
{
    let r = [if i == 0 { v } else { a[0] }, if i == 1 { v } else { a[1] }, if i == 2 { v } else { a[2] }];
    assert(r@ =~= a@.update(i as int, v));
    r
}

fn index_of_name(keys: &Vec<String>, name: &str) -> (r: Option<usize>)
    ensures
        match r {
            Some(i) => i < keys.len() && keys@[i as int]@ == name@ && names(keys@).contains(name@),
            None => !names(keys@).contains(name@),
        },
{
    let mut i: usize = 0;
    while i < keys.len()
        invariant
            i <= keys.len(),
            forall|j: int| 0 <= j < i ==> keys@[j]@ != name@,
        decreases keys.len() - i,
    {
        if str_eq(keys[i].as_str(), name) {
            assert(names(keys@)[i as int] == keys@[i as int]@);
            return Some(i);
        }
        i = i + 1;
    }
    assert forall|j: int| 0 <= j < names(keys@).len() implies names(keys@)[j] != name@ by {
        assert(names(keys@)[j] == keys@[j]@);
    }
    None
}

impl View for InputState {
    type V = InputModel;

    closed spec fn view(&self) -> InputModel {
        InputModel {
            keys_down: names(self.keys_down@),
            keys_just_pressed: names(self.keys_just_pressed@),
            mouse_down: self.mouse_button_down@,
            mouse_pressed: self.mouse_button_pressed@,
            move_x: self.move_x as int,
            move_y: self.move_y as int,
        }
    }
}

impl InputState {
    /// No key or button held, axes at rest.
    pub fn new() -> (r: Self)
        ensures
            model_wf(r@),
            r@.keys_down.len() == 0,
            r@.keys_just_pressed.len() == 0,
            r@.mouse_down == seq![false, false, false],
            r@.mouse_pressed == seq![false, false, false],
    {
        let r = InputState {
            move_x: 0,
            move_y: 0,
            keys_down: Vec::new(),
            keys_just_pressed: Vec::new(),
            mouse_button_down: [false, false, false],
            mouse_button_pressed: [false, false, false],
        };
        assert(r@.keys_down =~= Seq::<Seq<char>>::empty());
        assert(r@.mouse_down =~= seq![false, false, false]);
        assert(r@.mouse_pressed =~= seq![false, false, false]);
        r
    }

    /// Ends a frame: forgets which keys and buttons went down during it.
    pub fn reset_frame_input(&mut self)
        ensures
            final(self)@ == (InputModel {
                keys_just_pressed: Seq::empty(),
                mouse_pressed: seq![false, false, false],
                ..old(self)@
            }),
    {
        self.keys_just_pressed = Vec::new();
        self.mouse_button_pressed = [false, false, false];
        assert(self@.keys_just_pressed =~= Seq::<Seq<char>>::empty());
        assert(self@.mouse_pressed =~= seq![false, false, false]);
    }

    fn holds(&self, name: &str) -> (b: bool)
        ensures
            b == names(self.keys_down@).contains(name@),
    {
        index_of_name(&self.keys_down, name).is_some()
    }

    /// Recomputes the axes from the held keys.
    fn recalculate_axes(&mut self)
        ensures
            final(self)@ == (InputModel { move_x: axis_x(old(self)@.keys_down), move_y: axis_y(old(self)@.keys_down), ..old(self)@ }),
    {
        let mut mx: i8 = 0;
        let mut my: i8 = 0;
        if self.holds("KeyD") || self.holds("ArrowRight") {
            mx = mx + 1;
        }
        if self.holds("KeyA") || self.holds("ArrowLeft") {
            mx = mx - 1;
        }
        if self.holds("KeyW") || self.holds("ArrowUp") {
            my = my + 1;
        }
        if self.holds("KeyS") || self.holds("ArrowDown") {
            my = my - 1;
        }
        self.move_x = mx;
        self.move_y = my;
    }

    fn release_key(&mut self, name: &str)
        ensures
            final(self)@ == (InputModel { keys_down: without(old(self)@.keys_down, name@), ..old(self)@ }),
    {
        let mut kept: Vec<String> = Vec::new();
        let mut i: usize = 0;
        let ghost pred = other_than(name@);
        while i < self.keys_down.len()
            invariant
                i <= self.keys_down.len(),
                pred == other_than(name@),
                names(kept@) == names(self.keys_down@).subrange(0, i as int).filter(pred),
            decreases self.keys_down.len() - i,
        {
            let ghost all = names(self.keys_down@);
            assert(all.subrange(0, i + 1).drop_last() =~= all.subrange(0, i as int));
            assert(all.subrange(0, i + 1).last() == self.keys_down@[i as int]@);
            reveal_with_fuel(Seq::<_>::filter, 1);
            if !str_eq(self.keys_down[i].as_str(), name) {
                let ghost before = names(kept@);
                kept.push(copy_str(self.keys_down[i].as_str()));
                assert(names(kept@) =~= before.push(self.keys_down@[i as int]@));
            }
            i = i + 1;
        }
        assert(names(self.keys_down@).subrange(0, i as int) =~= names(self.keys_down@));
        self.keys_down = kept;
    }

    /// Applies one window event.
    pub fn process_event(&mut self, event: InputEvent)
        ensures
            final(self)@ == next_state(old(self)@, event),
            model_wf(old(self)@) ==> model_wf(final(self)@),
    {
        proof {
            if model_wf(self@) {
                lemma_next_state_wf(self@, event);
            }
        }
        match event {
            InputEvent::Keyboard { key, pressed } => {
                match match_key_code(key) {
                    Some(name) => {
                        if pressed {
                            if !self.holds(name.as_str()) {
                                let ghost d = self@.keys_down;
                                self.keys_down.push(copy_str(name.as_str()));
                                self.keys_just_pressed.push(name);
                                assert(self@.keys_down =~= d.push(key_name(key)->0));
                            }
                        } else {
                            self.release_key(name.as_str());
                        }
                    },
                    None => {},
                }
                self.recalculate_axes();
                assert(self@.keys_just_pressed =~= next_state(old(self)@, event).keys_just_pressed);
                assert(self@.keys_down =~= next_state(old(self)@, event).keys_down);
            },
            InputEvent::MouseInput { button, pressed } => {
                let idx: usize = match button {
                    MouseButton::Left => 0,
                    MouseButton::Right => 1,
                    MouseButton::Middle => 2,
                    MouseButton::Other => 0,
                };
                let down = self.mouse_button_down;
                if pressed && !down[idx] {
                    self.mouse_button_pressed = with_flag(self.mouse_button_pressed, idx, true);
                }
                self.mouse_button_down = with_flag(down, idx, pressed);
            },
            InputEvent::Touch { phase } => {
                let down = self.mouse_button_down;
                match phase {
                    TouchPhase::Started => {
                        if !down[0] {
                            self.mouse_button_pressed = with_flag(self.mouse_button_pressed, 0, true);
                        }
                        self.mouse_button_down = with_flag(down, 0, true);
                    },
                    TouchPhase::Moved => {
                        self.mouse_button_down = with_flag(down, 0, true);
                    },
                    TouchPhase::Ended | TouchPhase::Cancelled => {
                        self.mouse_button_down = with_flag(down, 0, false);
                    },
                }
            },
            InputEvent::CursorMoved | InputEvent::Other => {},
        }
    }

    /// The value of a movement axis: `Horizontal`, `Vertical`, 0 otherwise.
    pub fn axis(&self, name: &str) -> (r: i8)
        ensures
            r == (if name@ == "Horizontal"@ { self@.move_x } else if name@ == "Vertical"@ { self@.move_y } else { 0 }),
    {
        if str_eq(name, "Horizontal") {
            self.move_x
        } else if str_eq(name, "Vertical") {
            self.move_y
        } else {
            0
        }
    }

    /// Whether the key named `name` is held.
    pub fn is_key_down(&self, name: &str) -> (r: bool)
        ensures
            r == self@.keys_down.contains(name@),
    {
        self.holds(name)
    }

    /// Whether the key named `name` went down this frame.
    pub fn is_key_pressed(&self, name: &str) -> (r: bool)
        ensures
            r == self@.keys_just_pressed.contains(name@),
    {
        index_of_name(&self.keys_just_pressed, name).is_some()
    }

    /// Whether mouse button `button` (0 left, 1 right, 2 middle) is held;
    /// `false` for any other number.
    pub fn is_mouse_down(&self, button: usize) -> (r: bool)
        ensures
            r == (button < 3 && self@.mouse_down[button as int]),
    {
        button < 3 && self.mouse_button_down[button]
    }

    /// Whether mouse button `button` went down this frame; `false` for a
    /// number other than 0, 1, 2.
    pub fn is_mouse_pressed(&self, button: usize) -> (r: bool)
        ensures
            r == (button < 3 && self@.mouse_pressed[button as int]),
    {
        button < 3 && self.mouse_button_pressed[button]
    }
}

// ---------------------------------------------------------------------------
// Laws
// ---------------------------------------------------------------------------

proof fn lemma_filter_no_duplicates(keys: Seq<Seq<char>>, pred: spec_fn(Seq<char>) -> bool)
    requires
        keys.no_duplicates(),
    ensures
        keys.filter(pred).no_duplicates(),
    decreases keys.len(),
{
    reveal_with_fuel(Seq::<_>::filter, 1);
    if keys.len() > 0 {
        let front = keys.drop_last();
        assert(front.no_duplicates()) by {
            assert forall|i: int, j: int| 0 <= i < j < front.len() implies front[i] != front[j] by {
                assert(front[i] == keys[i] && front[j] == keys[j]);
            }
        }
        lemma_filter_no_duplicates(front, pred);
        let f = front.filter(pred);
        if pred(keys.last()) {
            assert(!f.contains(keys.last())) by {
                if f.contains(keys.last()) {
                    front.lemma_filter_contains_rev(pred, keys.last());
                    let i = choose|i: int| 0 <= i < front.len() && front[i] == keys.last();
                    assert(keys[i] == keys[keys.len() - 1]);
                }
            }
            assert forall|i: int, j: int| 0 <= i < j < f.push(keys.last()).len() implies f.push(keys.last())[i] != f.push(keys.last())[j] by {
                if j == f.len() {
                    assert(f.push(keys.last())[i] == f[i]);
                    assert(f.contains(f[i]));
                }
            }
        }
    }
}

proof fn lemma_without_no_duplicates(keys: Seq<Seq<char>>, name: Seq<char>)
    requires
        keys.no_duplicates(),
    ensures
        without(keys, name).no_duplicates(),
        !without(keys, name).contains(name),
        forall|k: Seq<char>| k != name ==> (without(keys, name).contains(k) <==> keys.contains(k)),
{
    let pred = other_than(name);
    lemma_filter_no_duplicates(keys, pred);
    assert forall|k: Seq<char>| k != name implies (without(keys, name).contains(k) <==> keys.contains(k)) by {
        if keys.contains(k) {
            let i = choose|i: int| 0 <= i < keys.len() && keys[i] == k;
            keys.lemma_filter_contains(pred, i);
        }
        if without(keys, name).contains(k) {
            keys.lemma_filter_contains_rev(pred, k);
        }
    }
    if without(keys, name).contains(name) {
        let i = choose|i: int| 0 <= i < without(keys, name).len() && without(keys, name)[i] == name;
        keys.lemma_filter_pred(pred, i);
    }
}

/// Every event keeps the input state consistent: three mouse buttons, no key
/// held twice, axes that match the held keys.
pub proof fn lemma_next_state_wf(m: InputModel, e: InputEvent)
    requires
        model_wf(m),
    ensures
        model_wf(next_state(m, e)),
{
    if let InputEvent::Keyboard { key, pressed } = e {
        if let Some(n) = key_name(key) {
            if pressed && !m.keys_down.contains(n) {
                assert(m.keys_down.push(n).no_duplicates()) by {
                    assert forall|i: int, j: int| 0 <= i < j < m.keys_down.len() + 1 implies m.keys_down.push(n)[i] != m.keys_down.push(n)[j] by {
                        if j == m.keys_down.len() {
                            assert(m.keys_down.push(n)[i] == m.keys_down[i]);
                        }
                    }
                }
            }
            if !pressed {
                lemma_without_no_duplicates(m.keys_down, n);
            }
        }
    }
}

/// Releasing a key that was pressed leaves it no longer held, and every other
/// key as it was.
pub proof fn law_press_then_release(m: InputModel, key: Key)
    requires
        model_wf(m),
        key_name(key) is Some,
    ensures
        ({
            let n = key_name(key)->0;
            let after = next_state(next_state(m, InputEvent::Keyboard { key, pressed: true }), InputEvent::Keyboard { key, pressed: false });
            &&& !after.keys_down.contains(n)
            &&& forall|k: Seq<char>| k != n ==> (after.keys_down.contains(k) <==> m.keys_down.contains(k))
            &&& model_wf(after)
        }),
{
    let n = key_name(key)->0;
    let pressed = next_state(m, InputEvent::Keyboard { key, pressed: true });
    lemma_next_state_wf(m, InputEvent::Keyboard { key, pressed: true });
    lemma_next_state_wf(pressed, InputEvent::Keyboard { key, pressed: false });
    lemma_without_no_duplicates(pressed.keys_down, n);
    assert forall|k: Seq<char>| k != n implies (pressed.keys_down.contains(k) <==> m.keys_down.contains(k)) by {
        if !m.keys_down.contains(n) {
            if m.keys_down.push(n).contains(k) {
                let i = choose|i: int| 0 <= i < m.keys_down.push(n).len() && m.keys_down.push(n)[i] == k;
                assert(m.keys_down[i] == k);
            }
            if m.keys_down.contains(k) {
                let i = choose|i: int| 0 <= i < m.keys_down.len() && m.keys_down[i] == k;
                assert(m.keys_down.push(n)[i] == k);
            }
        }
    }
}

/// A key that went down shows as pressed until the end of the frame, and no
/// key or button shows as pressed after it.
pub proof fn law_press_visible_until_frame_end(m: InputModel, key: Key)
    requires
        model_wf(m),
        key_name(key) is Some,
        !m.keys_down.contains(key_name(key)->0),
    ensures
        next_state(m, InputEvent::Keyboard { key, pressed: true }).keys_just_pressed.contains(key_name(key)->0),
        next_state(m, InputEvent::Keyboard { key, pressed: true }).keys_down.contains(key_name(key)->0),
{
    let n = key_name(key)->0;
    assert(m.keys_just_pressed.push(n)[m.keys_just_pressed.len() as int] == n);
    assert(m.keys_down.push(n)[m.keys_down.len() as int] == n);
}

/// Pressing a key that is already held changes nothing.
pub proof fn law_repeat_press_is_ignored(m: InputModel, key: Key)
    requires
        model_wf(m),
        key_name(key) is Some,
        m.keys_down.contains(key_name(key)->0),
    ensures
        next_state(m, InputEvent::Keyboard { key, pressed: true }) == m,
{
}

/// A click (button down, then up) leaves the button released and marked as
/// pressed this frame when it was not held before.
pub proof fn law_click(m: InputModel, button: MouseButton)
    requires
        model_wf(m),
        !m.mouse_down[button_index(button)],
    ensures
        ({
            let after = next_state(next_state(m, InputEvent::MouseInput { button, pressed: true }), InputEvent::MouseInput { button, pressed: false });
            &&& !after.mouse_down[button_index(button)]
            &&& after.mouse_pressed[button_index(button)]
        }),
{
}

/// A touch acts on the left mouse button: putting a finger down presses it
/// and lifting (or cancelling) releases it, exactly as the button would; a
/// finger moving on the screen keeps it held and changes nothing else, so a
/// drag holds the button from start to end.
pub proof fn law_touch_is_left_button(m: InputModel)
    requires
        model_wf(m),
    ensures
        next_state(m, InputEvent::Touch { phase: TouchPhase::Started }) == next_state(
            m,
            InputEvent::MouseInput { button: MouseButton::Left, pressed: true },
        ),
        next_state(m, InputEvent::Touch { phase: TouchPhase::Ended }) == next_state(
            m,
            InputEvent::MouseInput { button: MouseButton::Left, pressed: false },
        ),
        next_state(m, InputEvent::Touch { phase: TouchPhase::Cancelled }) == next_state(
            m,
            InputEvent::MouseInput { button: MouseButton::Left, pressed: false },
        ),
        next_state(m, InputEvent::Touch { phase: TouchPhase::Moved }).mouse_down[0],
        next_state(m, InputEvent::Touch { phase: TouchPhase::Moved }).mouse_down[1] == m.mouse_down[1],
        next_state(m, InputEvent::Touch { phase: TouchPhase::Moved }).mouse_down[2] == m.mouse_down[2],
        next_state(m, InputEvent::Touch { phase: TouchPhase::Moved }).mouse_pressed == m.mouse_pressed,
        next_state(m, InputEvent::Touch { phase: TouchPhase::Moved }).keys_down == m.keys_down,
        next_state(m, InputEvent::Touch { phase: TouchPhase::Moved }).keys_just_pressed == m.keys_just_pressed,
        m.mouse_down[0] ==> next_state(m, InputEvent::Touch { phase: TouchPhase::Moved }) == m,
        next_state(
            next_state(m, InputEvent::Touch { phase: TouchPhase::Started }),
            InputEvent::Touch { phase: TouchPhase::Moved },
        ).mouse_down[0],
{
    if m.mouse_down[0] {
        assert(m.mouse_down.update(0, true) =~= m.mouse_down);
    }
}

} // verus!
