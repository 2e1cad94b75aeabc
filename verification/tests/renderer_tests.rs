use epaper_todo::frame::{FrameBuffer, Plane, BYTES_PER_ROW, PLANE_BYTES};
use epaper_todo::renderer::{layout_lines, CycleAction, DriverError, RenderConfig, Renderer};
use epaper_todo::task::Task;

fn task(id: &str, title: &str, category: Option<&str>) -> Task {
    Task::new(id.to_string(), title.to_string(), category.map(|c| c.to_string()), None)
}

fn commits(action: &CycleAction) -> usize {
    match action {
        CycleAction::Commit => 1,
        CycleAction::Sleep => 0,
    }
}

#[test]
fn single_work_task_renders_one_line_at_offset_zero() {
    let tasks = vec![task("1", "Write report", Some("Work"))];
    let lines = layout_lines(&tasks, 30);
    assert_eq!(lines.len(), 1);
    assert_eq!(lines[0].0, "Work: Write report");
    assert_eq!(lines[0].1, 0);
}

#[test]
fn three_tasks_render_in_order_at_spaced_offsets() {
    let tasks = vec![
        task("1", "first", None),
        task("2", "second", None),
        task("3", "third", None),
    ];
    let spacing = 30usize;
    let lines = layout_lines(&tasks, spacing);
    assert_eq!(lines.len(), 3);
    assert_eq!(lines[0], ("first".to_string(), 0));
    assert_eq!(lines[1], ("second".to_string(), spacing));
    assert_eq!(lines[2], ("third".to_string(), 2 * spacing));
}

#[test]
fn rendering_the_same_list_twice_commits_exactly_once() {
    let mut r = Renderer::new(RenderConfig::standard());
    let a = vec![task("1", "alpha", None), task("2", "beta", None)];
    let mut count = 0usize;
    let action = r.begin_cycle(a.clone());
    count += commits(&action);
    if let CycleAction::Commit = action {
        r.end_cycle(Ok(()));
    }
    let action = r.begin_cycle(a.clone());
    count += commits(&action);
    if let CycleAction::Commit = action {
        r.end_cycle(Ok(()));
    }
    assert_eq!(count, 1);
}

#[test]
fn rendering_two_distinct_lists_commits_twice() {
    let mut r = Renderer::new(RenderConfig::standard());
    let a = vec![task("1", "alpha", None)];
    let b = vec![task("1", "alpha", None), task("2", "beta", None)];
    let mut count = 0usize;
    let action = r.begin_cycle(a);
    count += commits(&action);
    if let CycleAction::Commit = action {
        r.end_cycle(Ok(()));
    }
    let action = r.begin_cycle(b);
    count += commits(&action);
    if let CycleAction::Commit = action {
        r.end_cycle(Ok(()));
    }
    assert_eq!(count, 2);
}

#[test]
fn a_failed_commit_is_reattempted_with_the_same_content() {
    let mut r = Renderer::new(RenderConfig::standard());
    let a = vec![task("1", "alpha", None)];
    let action = r.begin_cycle(a.clone());
    assert!(matches!(action, CycleAction::Commit));
    r.end_cycle(Err(DriverError));
    // The failure did not advance the last-rendered pointer: the same
    // content is offered for commit again instead of being treated as shown.
    let action = r.begin_cycle(a);
    assert!(matches!(action, CycleAction::Commit));
}

#[test]
fn an_unchanged_empty_list_triggers_no_redraw() {
    let mut r = Renderer::new(RenderConfig::standard());
    let action = r.begin_cycle(Vec::new());
    assert!(matches!(action, CycleAction::Sleep));
}

#[test]
fn category_changes_alone_do_not_redraw() {
    // The list-equality rule deliberately compares titles only.
    let mut r = Renderer::new(RenderConfig::standard());
    let action = r.begin_cycle(vec![task("1", "same", Some("Work"))]);
    assert!(matches!(action, CycleAction::Commit));
    r.end_cycle(Ok(()));
    let action = r.begin_cycle(vec![task("1", "same", Some("Home"))]);
    assert!(matches!(action, CycleAction::Sleep));
}

#[test]
fn a_fresh_frame_is_all_zero() {
    let f = FrameBuffer::new();
    assert_eq!(f.plane(Plane::Achromatic).len(), PLANE_BYTES);
    assert_eq!(f.plane(Plane::Chromatic).len(), PLANE_BYTES);
    assert!(f.plane(Plane::Achromatic).iter().all(|b| *b == 0));
    assert!(f.plane(Plane::Chromatic).iter().all(|b| *b == 0));
}

#[test]
fn clear_fills_one_plane_and_spares_the_other() {
    let mut f = FrameBuffer::new();
    f.clear(Plane::Achromatic, true);
    assert!(f.plane(Plane::Achromatic).iter().all(|b| *b == 0xff));
    assert!(f.plane(Plane::Chromatic).iter().all(|b| *b == 0));
}

#[test]
fn set_pixel_writes_the_exact_bit() {
    let mut f = FrameBuffer::new();
    f.set_pixel(Plane::Achromatic, 5, 3, true);
    let p = f.plane(Plane::Achromatic);
    // Pixel (5, 3): byte 3 * BYTES_PER_ROW, bit 7 - 5 = 2.
    assert_eq!(p[3 * BYTES_PER_ROW], 0b0000_0100);
    assert_eq!(p.iter().filter(|b| **b != 0).count(), 1);
    f.set_pixel(Plane::Achromatic, 5, 3, false);
    assert!(f.plane(Plane::Achromatic).iter().all(|b| *b == 0));
}

#[test]
fn out_of_bounds_pixels_are_ignored() {
    let mut f = FrameBuffer::new();
    f.set_pixel(Plane::Achromatic, 800, 0, true);
    f.set_pixel(Plane::Achromatic, 0, 480, true);
    f.set_pixel(Plane::Chromatic, usize::MAX, usize::MAX, true);
    assert!(f.plane(Plane::Achromatic).iter().all(|b| *b == 0));
    assert!(f.plane(Plane::Chromatic).iter().all(|b| *b == 0));
}

#[test]
fn drawn_text_inks_pixels_on_the_achromatic_plane_only() {
    let mut f = FrameBuffer::new();
    f.draw_text("W", 0, 0, true);
    // The font really inks pixels: the plane must differ from a blank one.
    assert!(f.plane(Plane::Achromatic).iter().any(|b| *b != 0));
    assert!(f.plane(Plane::Chromatic).iter().all(|b| *b == 0));
}

#[test]
fn drawing_is_deterministic() {
    let mut f = FrameBuffer::new();
    let mut g = FrameBuffer::new();
    f.draw_text("Work: Write report", 0, 60, true);
    g.draw_text("Work: Write report", 0, 60, true);
    assert_eq!(f.plane(Plane::Achromatic), g.plane(Plane::Achromatic));
}

#[test]
fn text_below_the_panel_is_clipped() {
    let mut f = FrameBuffer::new();
    f.draw_text("hidden", 0, 480, true);
    f.draw_text("also hidden", 800, 100, true);
    assert!(f.plane(Plane::Achromatic).iter().all(|b| *b == 0));
}

#[test]
fn a_commit_cycle_composes_a_non_blank_frame() {
    let mut r = Renderer::new(RenderConfig::standard());
    let action = r.begin_cycle(vec![task("1", "Write report", Some("Work"))]);
    assert!(matches!(action, CycleAction::Commit));
    // Dark-on-light: the background is lit, the glyphs unlit, so the plane
    // holds both 0xff bytes and others.
    let p = r.frame().plane(Plane::Achromatic);
    assert!(p.iter().any(|b| *b == 0xff));
    assert!(p.iter().any(|b| *b != 0xff));
    r.end_cycle(Ok(()));
}
