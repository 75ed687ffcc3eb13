use groot::frame::{
    sprite_draw_order, surface_action, LoopAction, LoopEvent, MainLoop, SurfaceAction, SurfaceStatus,
    WindowEventKind,
};

#[test]
fn sprites_are_drawn_by_layer_keeping_ties_in_order() {
    assert_eq!(sprite_draw_order(&vec![3, -1, 3, 0, -1]), vec![1, 4, 3, 0, 2]);
    assert_eq!(sprite_draw_order(&vec![0, 0, 0]), vec![0, 1, 2]);
    assert_eq!(sprite_draw_order(&vec![5, 4, 3, 2, 1]), vec![4, 3, 2, 1, 0]);
    assert_eq!(sprite_draw_order(&vec![]), Vec::<usize>::new());
}

#[test]
fn background_layer_is_drawn_before_pipes_and_ground() {
    // background -10, pipes 0, bird 1, ground 5: ground covers the pipes' bottoms.
    let layers = vec![1, 0, 5, -10, 0];
    assert_eq!(sprite_draw_order(&layers), vec![3, 1, 4, 0, 2]);
}

#[test]
fn render_state_is_created_on_first_resume_and_after_each_suspend() {
    let mut main_loop = MainLoop::new();
    assert!(!main_loop.ready());
    assert!(matches!(main_loop.step(LoopEvent::Window(WindowEventKind::RedrawRequested)), LoopAction::Nothing));
    assert!(matches!(main_loop.step(LoopEvent::AboutToWait), LoopAction::RequestRedraw));
    assert!(matches!(main_loop.step(LoopEvent::Suspended), LoopAction::Nothing));
    assert!(matches!(main_loop.step(LoopEvent::Resumed { width: 0, height: 0 }), LoopAction::CreateRenderState));
    assert!(main_loop.ready());
    assert!(matches!(main_loop.step(LoopEvent::Resumed { width: 0, height: 600 }), LoopAction::Nothing));
    assert!(matches!(main_loop.step(LoopEvent::Resumed { width: 800, height: 600 }), LoopAction::ResizeSurface));
    assert!(matches!(main_loop.step(LoopEvent::Suspended), LoopAction::DropRenderState));
    assert!(!main_loop.ready());
    assert!(matches!(main_loop.step(LoopEvent::Window(WindowEventKind::RedrawRequested)), LoopAction::Nothing));
    assert!(matches!(main_loop.step(LoopEvent::Resumed { width: 800, height: 600 }), LoopAction::CreateRenderState));
    assert!(main_loop.ready());
    assert!(matches!(main_loop.step(LoopEvent::Window(WindowEventKind::RedrawRequested)), LoopAction::RunFrame));
}

#[test]
fn window_events_after_creation() {
    let mut main_loop = MainLoop::new();
    main_loop.step(LoopEvent::Resumed { width: 0, height: 0 });
    assert!(matches!(main_loop.step(LoopEvent::Window(WindowEventKind::Resized)), LoopAction::ResizeToWindow));
    assert!(matches!(main_loop.step(LoopEvent::Window(WindowEventKind::RedrawRequested)), LoopAction::RunFrame));
    assert!(matches!(main_loop.step(LoopEvent::Window(WindowEventKind::Other)), LoopAction::InputOnly));
    assert!(matches!(main_loop.step(LoopEvent::ForeignWindow), LoopAction::Nothing));
    assert!(matches!(main_loop.step(LoopEvent::Other), LoopAction::Nothing));
    assert!(matches!(main_loop.step(LoopEvent::Window(WindowEventKind::CloseRequested)), LoopAction::Exit));
}

#[test]
fn surface_errors_skip_the_frame() {
    assert!(matches!(surface_action(SurfaceStatus::Acquired), SurfaceAction::Draw));
    assert!(matches!(surface_action(SurfaceStatus::Lost), SurfaceAction::ResizeAndSkip));
    assert!(matches!(surface_action(SurfaceStatus::OutOfMemory), SurfaceAction::ExitAndSkip));
    assert!(matches!(surface_action(SurfaceStatus::OtherError), SurfaceAction::ReportAndSkip));
}
