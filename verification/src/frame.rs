//! The decisions of the main loop: the order in which sprites are drawn, and
//! what the loop does for each window-system event.
use vstd::prelude::*;

verus! {

// ---------------------------------------------------------------------------
// Draw order of 2D sprites
// ---------------------------------------------------------------------------

/// Sprite `a` is drawn before sprite `b`: it sits on a lower layer, or on the
/// same layer and came first.
pub open spec fn draws_before(layers: Seq<i32>, a: int, b: int) -> bool {
    layers[a] < layers[b] || (layers[a] == layers[b] && a < b)
}

/// `order` lists the sprites (by index into `layers`) in drawing order: lower
/// layers first, and sprites on one layer in the order they came.
pub open spec fn is_draw_order(layers: Seq<i32>, order: Seq<usize>) -> bool {
    &&& order.len() == layers.len()
    &&& forall|i: int| 0 <= i < order.len() ==> #[trigger] order[i] < layers.len()
    &&& forall|i: int, j: int| 0 <= i < j < order.len() ==> draws_before(layers, #[trigger] order[i] as int, #[trigger] order[j] as int)
}

/// The order in which sprites on the given layers are drawn: every sprite
/// once, lower layers first, ties kept in their original order (a stable
/// sort by layer).
pub fn sprite_draw_order(layers: &Vec<i32>) -> (order: Vec<usize>)
    ensures
        is_draw_order(layers@, order@),
        forall|k: int| 0 <= k < layers.len() ==> #[trigger] order@.contains(k as usize),
{
    let mut order: Vec<usize> = Vec::new();
    let n = layers.len();
    let mut i: usize = 0;
    while i < n
        invariant
            n == layers.len(),
            i <= n,
            order.len() == i,
            forall|q: int| 0 <= q < order.len() ==> #[trigger] order@[q] < i,
            forall|a: int, b: int| 0 <= a < b < order.len() ==> draws_before(layers@, #[trigger] order@[a] as int, #[trigger] order@[b] as int),
            forall|k: int| 0 <= k < i ==> #[trigger] order@.contains(k as usize),
        decreases n - i,
    {
        let layer = layers[i];
        let mut p: usize = 0;
        while p < order.len() && layers[order[p]] <= layer
            invariant
                n == layers.len(),
                i < n,
                layer == layers@[i as int],
                order.len() == i,
                p <= order.len(),
                forall|q: int| 0 <= q < order.len() ==> #[trigger] order@[q] < i,
                forall|q: int| 0 <= q < p ==> layers@[#[trigger] order@[q] as int] <= layer,
            decreases order.len() - p,
        {
            p = p + 1;
        }
        let ghost before = order@;
        proof {
            assert forall|q: int| p <= q < before.len() implies layer < layers@[#[trigger] before[q] as int] by {
                assert(layers@[before[p as int] as int] > layer);
                if q > p {
                    assert(draws_before(layers@, before[p as int] as int, before[q] as int));
                }
            }
        }
        order.insert(p, i);
        proof {
            assert(order@ == before.insert(p as int, i));
            assert forall|a: int, b: int| 0 <= a < b < order.len() implies draws_before(layers@, #[trigger] order@[a] as int, #[trigger] order@[b] as int) by {
                if b < p {
                    assert(order@[a] == before[a] && order@[b] == before[b]);
                } else if b == p {
                    assert(order@[a] == before[a]);
                    assert(layers@[before[a] as int] <= layer);
                } else if a < p {
                    assert(order@[a] == before[a] && order@[b] == before[b - 1]);
                } else if a == p {
                    assert(order@[b] == before[b - 1]);
                    assert(layer < layers@[before[b - 1] as int]);
                } else {
                    assert(order@[a] == before[a - 1] && order@[b] == before[b - 1]);
                }
            }
            assert forall|k: int| 0 <= k < i + 1 implies #[trigger] order@.contains(k as usize) by {
                if k == i {
                    assert(order@[p as int] == i);
                } else {
                    assert(before.contains(k as usize));
                    let w = choose|w: int| 0 <= w < before.len() && before[w] == k as usize;
                    if w < p {
                        assert(order@[w] == before[w]);
                    } else {
                        assert(order@[w + 1] == before[w]);
                    }
                }
            }
            assert forall|q: int| 0 <= q < order.len() implies #[trigger] order@[q] < i + 1 by {
                if q < p {
                    assert(order@[q] == before[q]);
                } else if q > p {
                    assert(order@[q] == before[q - 1]);
                }
            }
        }
        i = i + 1;
    }
    order
}

// ---------------------------------------------------------------------------
// The event loop
// ---------------------------------------------------------------------------

/// An event of the window system, as far as the main loop tells them apart.
pub enum LoopEvent {
    /// The application was resumed; the size is that of the existing surface
    /// (zero when there is none yet).
    Resumed { width: u32, height: u32 },
    /// The application was suspended.
    Suspended,
    /// An event of the game's own window.
    Window(WindowEventKind),
    /// An event of some other window.
    ForeignWindow,
    /// The event queue is drained for now.
    AboutToWait,
    /// Anything else.
    Other,
}

/// The kinds of window event the loop reacts to.
pub enum WindowEventKind {
    CloseRequested,
    Resized,
    RedrawRequested,
    Other,
}

/// What the loop does for one event. Each action on a window event
/// (`Exit`, `ResizeToWindow`, `RunFrame`, `InputOnly`) first hands the event
/// to the input state.
pub enum LoopAction {
    /// Ignore the event.
    Nothing,
    /// Create the GPU state for the current native window, the world and the
    /// script host, spawn the initial scene and apply its camera.
    CreateRenderState,
    /// Drop the render state: the native window and its surface are gone.
    DropRenderState,
    /// Reconfigure the surface at its current size.
    ResizeSurface,
    /// Ask the window for a redraw.
    RequestRedraw,
    /// Leave the loop.
    Exit,
    /// Resize the surface to the window and fit the cameras to it.
    ResizeToWindow,
    /// Run the scripts, clear the per-frame input and draw a frame.
    RunFrame,
    /// Only hand the event to the input state.
    InputOnly,
}

/// Whether the action hands the window event to the input state.
pub open spec fn forwards_input(action: LoopAction) -> bool {
    match action {
        LoopAction::Exit | LoopAction::ResizeToWindow | LoopAction::RunFrame | LoopAction::InputOnly => true,
        _ => false,
    }
}

/// The action for `event` when the render state does (`ready`) or does not
/// exist. A resume creates the render state when there is none (at the start,
/// and again after every suspend, since the native window is new); a suspend
/// drops it.
pub open spec fn loop_action(ready: bool, event: LoopEvent) -> LoopAction {
    match event {
        LoopEvent::Resumed { width, height } => if !ready {
            LoopAction::CreateRenderState
        } else if width > 0 && height > 0 {
            LoopAction::ResizeSurface
        } else {
            LoopAction::Nothing
        },
        LoopEvent::Suspended => if ready {
            LoopAction::DropRenderState
        } else {
            LoopAction::Nothing
        },
        LoopEvent::Window(kind) => if !ready {
            LoopAction::Nothing
        } else {
            match kind {
                WindowEventKind::CloseRequested => LoopAction::Exit,
                WindowEventKind::Resized => LoopAction::ResizeToWindow,
                WindowEventKind::RedrawRequested => LoopAction::RunFrame,
                WindowEventKind::Other => LoopAction::InputOnly,
            }
        },
        LoopEvent::AboutToWait => LoopAction::RequestRedraw,
        _ => LoopAction::Nothing,
    }
}

/// Whether the render state exists after `event`.
pub open spec fn ready_after(ready: bool, event: LoopEvent) -> bool {
    match event {
        LoopEvent::Resumed { .. } => true,
        LoopEvent::Suspended => false,
        _ => ready,
    }
}

/// Whether the render state exists once the first `n` of `events` have been
/// handled, starting with or without one.
pub open spec fn ready_upto(ready: bool, events: Seq<LoopEvent>, n: int) -> bool
    decreases n,
{
    if n <= 0 {
        ready
    } else {
        ready_after(ready_upto(ready, events, n - 1), events[n - 1])
    }
}

/// The actions the loop takes for `events`, one each, starting with or
/// without a render state.
pub open spec fn run_actions(ready: bool, events: Seq<LoopEvent>) -> Seq<LoopAction> {
    Seq::new(events.len(), |i: int| loop_action(ready_upto(ready, events, i), events[i]))
}

/// The main loop's own state: whether the render state exists.
pub struct MainLoop {
    ready: bool,
}

impl MainLoop {
    /// Whether the render state exists.
    pub closed spec fn is_ready(&self) -> bool {
        self.ready
    }

    /// A loop that has not created its render state yet.
    pub fn new() -> (r: Self)
        ensures
            !r.is_ready(),
    {
        MainLoop { ready: false }
    }

    /// Whether the render state exists.
    pub fn ready(&self) -> (r: bool)
        ensures
            r == self.is_ready(),
    {
        self.ready
    }

    /// Decides what to do for `event` and records whether the render state
    /// exists afterwards.
    pub fn step(&mut self, event: LoopEvent) -> (action: LoopAction)
        ensures
            action == loop_action(old(self).is_ready(), event),
            final(self).is_ready() == ready_after(old(self).is_ready(), event),
    {
        let ready = self.ready;
        match event {
            LoopEvent::Resumed { width, height } => {
                self.ready = true;
                if !ready {
                    LoopAction::CreateRenderState
                } else if width > 0 && height > 0 {
                    LoopAction::ResizeSurface
                } else {
                    LoopAction::Nothing
                }
            },
            LoopEvent::Suspended => {
                self.ready = false;
                if ready {
                    LoopAction::DropRenderState
                } else {
                    LoopAction::Nothing
                }
            },
            LoopEvent::Window(kind) => if !ready {
                LoopAction::Nothing
            } else {
                match kind {
                    WindowEventKind::CloseRequested => LoopAction::Exit,
                    WindowEventKind::Resized => LoopAction::ResizeToWindow,
                    WindowEventKind::RedrawRequested => LoopAction::RunFrame,
                    WindowEventKind::Other => LoopAction::InputOnly,
                }
            },
            LoopEvent::AboutToWait => LoopAction::RequestRedraw,
            _ => LoopAction::Nothing,
        }
    }
}

/// Starting without a render state, it exists after the first `n` events
/// exactly when one of them was a resume with no suspend after it.
proof fn lemma_ready_upto(events: Seq<LoopEvent>, n: int)
    requires
        0 <= n <= events.len(),
    ensures
        ready_upto(false, events, n) <==> exists|j: int|
            0 <= j < n && #[trigger] events[j] is Resumed && forall|k: int| j < k < n ==> !(#[trigger] events[k] is Suspended),
    decreases n,
{
    if n > 0 {
        lemma_ready_upto(events, n - 1);
        let e = events[n - 1];
        if e is Resumed {
            assert(events[n - 1] is Resumed);
        } else if e is Suspended {
            if exists|j: int| 0 <= j < n && #[trigger] events[j] is Resumed && forall|k: int| j < k < n ==> !(#[trigger] events[k] is Suspended) {
                let j = choose|j: int| 0 <= j < n && #[trigger] events[j] is Resumed && forall|k: int| j < k < n ==> !(#[trigger] events[k] is Suspended);
                assert(j != n - 1);
                assert(!(events[n - 1] is Suspended));
            }
        } else {
            if ready_upto(false, events, n - 1) {
                let j = choose|j: int| 0 <= j < n - 1 && #[trigger] events[j] is Resumed && forall|k: int| j < k < n - 1 ==> !(#[trigger] events[k] is Suspended);
                assert forall|k: int| j < k < n implies !(#[trigger] events[k] is Suspended) by {
                    if k < n - 1 {
                    }
                }
            }
            if exists|j: int| 0 <= j < n && #[trigger] events[j] is Resumed && forall|k: int| j < k < n ==> !(#[trigger] events[k] is Suspended) {
                let j = choose|j: int| 0 <= j < n && #[trigger] events[j] is Resumed && forall|k: int| j < k < n ==> !(#[trigger] events[k] is Suspended);
                assert(j < n - 1);
                assert forall|k: int| j < k < n - 1 implies !(#[trigger] events[k] is Suspended) by {
                    assert(j < k < n);
                }
            }
        }
    }
}

/// Over any run of the loop from its start:
/// - a resume creates the render state exactly when none exists, which is
///   the case at the first resume and at every resume that follows a
///   suspend; a suspend drops an existing render state;
/// - two creations always have a suspend between them;
/// - a window event reaches the game only while the render state exists,
///   that is after a resume with no suspend since.
pub proof fn law_render_state_lifecycle(events: Seq<LoopEvent>)
    ensures
        forall|i: int| 0 <= i < events.len() ==> (#[trigger] run_actions(false, events)[i] is CreateRenderState <==> (events[i] is Resumed && !ready_upto(false, events, i))),
        forall|i: int| 0 <= i < events.len() ==> (#[trigger] run_actions(false, events)[i] is DropRenderState <==> (events[i] is Suspended && ready_upto(false, events, i))),
        forall|i: int| 0 <= i < events.len() && #[trigger] events[i] is Resumed && (forall|k: int| 0 <= k < i ==> !(#[trigger] events[k] is Resumed)) ==> run_actions(false, events)[i] is CreateRenderState,
        forall|i: int, j: int| 0 <= j < i < events.len() && #[trigger] events[j] is Suspended && #[trigger] events[i] is Resumed && (forall|k: int| j < k < i ==> !(#[trigger] events[k] is Resumed)) ==> run_actions(false, events)[i] is CreateRenderState,
        forall|i: int, j: int| 0 <= i < j < events.len() && #[trigger] run_actions(false, events)[i] is CreateRenderState && #[trigger] run_actions(false, events)[j] is CreateRenderState ==> exists|k: int| i < k < j && #[trigger] events[k] is Suspended,
        forall|i: int| 0 <= i < events.len() && forwards_input(#[trigger] run_actions(false, events)[i]) ==> exists|j: int| 0 <= j < i && #[trigger] events[j] is Resumed && forall|k: int| j < k < i ==> !(#[trigger] events[k] is Suspended),
{
    let acts = run_actions(false, events);
    assert forall|i: int| 0 <= i < events.len() && #[trigger] events[i] is Resumed && (forall|k: int| 0 <= k < i ==> !(#[trigger] events[k] is Resumed)) implies acts[i] is CreateRenderState by {
        lemma_ready_upto(events, i);
    }
    assert forall|i: int, j: int| 0 <= j < i < events.len() && #[trigger] events[j] is Suspended && #[trigger] events[i] is Resumed && (forall|k: int| j < k < i ==> !(#[trigger] events[k] is Resumed)) implies acts[i] is CreateRenderState by {
        lemma_ready_upto(events, i);
        if ready_upto(false, events, i) {
            let r = choose|r: int| 0 <= r < i && #[trigger] events[r] is Resumed && forall|k: int| r < k < i ==> !(#[trigger] events[k] is Suspended);
            if r < j {
                assert(!(events[j] is Suspended));
            } else {
                assert(r != j);
                assert(!(events[r] is Resumed));
            }
        }
    }
    assert forall|i: int, j: int| 0 <= i < j < events.len() && #[trigger] acts[i] is CreateRenderState && #[trigger] acts[j] is CreateRenderState implies exists|k: int| i < k < j && #[trigger] events[k] is Suspended by {
        lemma_ready_upto(events, j);
        if !exists|k: int| i < k < j && #[trigger] events[k] is Suspended {
            assert(events[i] is Resumed);
            assert forall|k: int| i < k < j implies !(#[trigger] events[k] is Suspended) by {
                assert(!(i < k < j && events[k] is Suspended));
            }
            assert(ready_upto(false, events, j));
        }
    }
    assert forall|i: int| 0 <= i < events.len() && forwards_input(#[trigger] acts[i]) implies exists|j: int| 0 <= j < i && #[trigger] events[j] is Resumed && forall|k: int| j < k < i ==> !(#[trigger] events[k] is Suspended) by {
        lemma_ready_upto(events, i);
    }
}

/// Draining the event queue always asks the window for a redraw, whether or
/// not the render state exists, and leaves the render state as it was; so
/// once the game runs, frames keep coming.
pub proof fn law_drained_queue_requests_redraw(ready: bool, events: Seq<LoopEvent>)
    ensures
        loop_action(ready, LoopEvent::AboutToWait) is RequestRedraw,
        ready_after(ready, LoopEvent::AboutToWait) == ready,
        forall|i: int| 0 <= i < events.len() && #[trigger] events[i] is AboutToWait ==> run_actions(ready, events)[i] is RequestRedraw,
{
}

// ---------------------------------------------------------------------------
// Acquiring the frame's surface texture
// ---------------------------------------------------------------------------

/// How acquiring the surface texture for a frame went.
pub enum SurfaceStatus {
    Acquired,
    Lost,
    OutOfMemory,
    OtherError,
}

/// What the frame does after trying to acquire the surface texture.
pub enum SurfaceAction {
    /// Record and present the frame.
    Draw,
    /// Reconfigure the surface and skip the frame.
    ResizeAndSkip,
    /// Leave the loop and skip the frame.
    ExitAndSkip,
    /// Report the error and skip the frame.
    ReportAndSkip,
}

/// A lost surface is reconfigured, running out of memory ends the loop, any
/// other error is reported; each of them skips the frame.
pub fn surface_action(status: SurfaceStatus) -> (r: SurfaceAction)
    ensures
        r == (match status {
            SurfaceStatus::Acquired => SurfaceAction::Draw,
            SurfaceStatus::Lost => SurfaceAction::ResizeAndSkip,
            SurfaceStatus::OutOfMemory => SurfaceAction::ExitAndSkip,
            SurfaceStatus::OtherError => SurfaceAction::ReportAndSkip,
        }),
{
    match status {
        SurfaceStatus::Acquired => SurfaceAction::Draw,
        SurfaceStatus::Lost => SurfaceAction::ResizeAndSkip,
        SurfaceStatus::OutOfMemory => SurfaceAction::ExitAndSkip,
        SurfaceStatus::OtherError => SurfaceAction::ReportAndSkip,
    }
}

} // verus!
