//! The renderer: the diff-and-refresh state machine. Each cycle compares a
//! snapshot of the shared store against the last list that reached the
//! display; only when they differ is the frame recomposed and a commit
//! commanded, because committing a frame to a bi-stable panel is orders of
//! magnitude slower and more power-hungry than the comparison.

use vstd::prelude::*;

use crate::frame::{
    pixel_lit, plane_filled, plane_sel, plane_wf, text_lit_at, text_stamped, FrameBuffer,
    FrameView, Plane, PANEL_HEIGHT, PANEL_WIDTH,
};
use crate::task::{display_line, line_of, lists_equal, task_views, tasks_equal, Task, TaskView};

verus! {

/// Which of the two pixel values the text takes, the background taking the
/// other one.
#[derive(Clone, Copy)]
pub enum ColorScheme {
    DarkOnLight,
    LightOnDark,
}

/// The pixel value the scheme inks text with.
pub open spec fn ink_lit(scheme: ColorScheme) -> bool {
    match scheme {
        ColorScheme::DarkOnLight => false,
        ColorScheme::LightOnDark => true,
    }
}

/// The pixel value the scheme paints the background with.
pub open spec fn background_lit(scheme: ColorScheme) -> bool {
    !ink_lit(scheme)
}

/// The renderer's one knob set: line spacing, the poll interval between
/// cycles that found no change, and the color scheme.
pub struct RenderConfig {
    pub line_spacing: usize,
    pub poll_ticks: u32,
    pub scheme: ColorScheme,
}

impl RenderConfig {
    /// The line spacing is positive and no taller than the panel.
    pub open spec fn wf(&self) -> bool {
        0 < self.line_spacing <= PANEL_HEIGHT
    }

    /// The reference configuration: 30 pixels per line, a thousand ticks
    /// between polls, dark text on a light background.
    pub fn standard() -> (c: RenderConfig)
        ensures
            c.wf(),
            c.line_spacing == 30,
            c.poll_ticks == 1000,
            c.scheme is DarkOnLight,
    {
        RenderConfig { line_spacing: 30, poll_ticks: 1000, scheme: ColorScheme::DarkOnLight }
    }
}

/// States of the render cycle. `Rendering` is passed through while the frame
/// is being composed; between calls the renderer rests in `Idle` or, with a
/// composed frame awaiting the driver's verdict, in `Committing`.
pub enum RenderState {
    Idle,
    Rendering,
    Committing,
}

/// What the caller must do after a cycle began: nothing but wait, or push the
/// frame to the display driver and report the verdict.
pub enum CycleAction {
    Sleep,
    Commit,
}

/// A failed display commit: the panel did not refresh. Recoverable — the
/// renderer re-attempts on its next cycle.
pub struct DriverError;

/// Whether a cycle repaints: exactly when the snapshot and the last-rendered
/// list differ under the list-equality rule.
pub open spec fn cycle_commits(last: Seq<TaskView>, snapshot: Seq<TaskView>) -> bool {
    !lists_equal(snapshot, last)
}

/// The last-rendered list after a full cycle: it advances to the snapshot
/// exactly when the cycle repainted and the commit succeeded.
pub open spec fn last_after_cycle(
    last: Seq<TaskView>,
    snapshot: Seq<TaskView>,
    commit_ok: bool,
) -> Seq<TaskView> {
    if cycle_commits(last, snapshot) && commit_ok {
        snapshot
    } else {
        last
    }
}

/// How many commits one cycle contributes: one when it repaints, none when
/// the snapshot already matches the display.
pub open spec fn commit_count(last: Seq<TaskView>, snapshot: Seq<TaskView>) -> int {
    if cycle_commits(last, snapshot) {
        1
    } else {
        0
    }
}

/// Law: no redundant redraw. After a cycle with list `a` whose commit (if one
/// was commanded) succeeded, an immediately repeated cycle with `a` commands
/// no commit: the pair of cycles commits exactly once when `a` differed from
/// what the display showed, and not at all otherwise.
pub proof fn lemma_no_redundant_redraw(last: Seq<TaskView>, a: Seq<TaskView>)
    ensures
        !cycle_commits(last_after_cycle(last, a, true), a),
        commit_count(last, a) + commit_count(last_after_cycle(last, a, true), a) == commit_count(
            last,
            a,
        ),
        cycle_commits(last, a) ==> commit_count(last, a) + commit_count(
            last_after_cycle(last, a, true),
            a,
        ) == 1,
{
}

/// Law: two successive renders of lists that differ in at least one title or
/// in length trigger two distinct commits: the first cycle repaints `a`, and
/// after its successful commit the cycle with `b` repaints again.
pub proof fn lemma_distinct_lists_redraw(last: Seq<TaskView>, a: Seq<TaskView>, b: Seq<TaskView>)
    requires
        cycle_commits(last, a),
        !lists_equal(b, a),
    ensures
        cycle_commits(last_after_cycle(last, a, true), b),
        commit_count(last, a) + commit_count(last_after_cycle(last, a, true), b) == 2,
{
}

/// Law: a failed commit does not advance the last-rendered pointer, so the
/// next cycle re-attempts the same content instead of silently treating it as
/// shown.
pub proof fn lemma_failed_commit_retries(last: Seq<TaskView>, a: Seq<TaskView>)
    requires
        cycle_commits(last, a),
    ensures
        last_after_cycle(last, a, false) == last,
        cycle_commits(last_after_cycle(last, a, false), a),
{
}

/// Whether the composed frame for `tasks` inks pixel (px, py): task k's line
/// of text starts at the left edge, `k * spacing` pixels down.
pub open spec fn tasks_lit_at(tasks: Seq<TaskView>, spacing: int, px: int, py: int) -> bool
    decreases tasks.len(),
{
    if tasks.len() == 0 {
        false
    } else {
        tasks_lit_at(tasks.drop_last(), spacing, px, py) || text_lit_at(
            line_of(tasks.last()),
            0,
            (tasks.len() - 1) * spacing,
            px,
            py,
        )
    }
}

/// The achromatic plane shows exactly the task list under the scheme: pixels
/// the lines of text ink show the ink value, all others the background.
pub open spec fn frame_shows(
    ach: Seq<u8>,
    tasks: Seq<TaskView>,
    spacing: int,
    scheme: ColorScheme,
) -> bool {
    forall|px: int, py: int|
        0 <= px < PANEL_WIDTH && 0 <= py < PANEL_HEIGHT ==> #[trigger] pixel_lit(ach, px, py) == (
        if tasks_lit_at(tasks, spacing, px, py) {
            ink_lit(scheme)
        } else {
            background_lit(scheme)
        })
}

/// A cleared plane shows the empty prefix of any task list.
proof fn lemma_compose_zero(ach: Seq<u8>, tasks: Seq<TaskView>, spacing: int, scheme: ColorScheme)
    requires
        plane_filled(ach, background_lit(scheme)),
    ensures
        frame_shows(ach, tasks.take(0), spacing, scheme),
{
    assert(tasks.take(0) =~= Seq::<TaskView>::empty());
    assert forall|px: int, py: int|
        0 <= px < PANEL_WIDTH && 0 <= py < PANEL_HEIGHT implies #[trigger] pixel_lit(ach, px, py)
        == (if tasks_lit_at(tasks.take(0), spacing, px, py) {
        ink_lit(scheme)
    } else {
        background_lit(scheme)
    }) by {
        assert(!tasks_lit_at(tasks.take(0), spacing, px, py));
        assert(pixel_lit(ach, px, py) == background_lit(scheme));
    }
}

/// Drawing task k's line onto a plane that shows the first k tasks yields a
/// plane that shows the first k + 1.
proof fn lemma_compose_step(
    prev: Seq<u8>,
    cur: Seq<u8>,
    tasks: Seq<TaskView>,
    spacing: int,
    scheme: ColorScheme,
    k: int,
)
    requires
        0 <= k < tasks.len(),
        frame_shows(prev, tasks.take(k), spacing, scheme),
        text_stamped(prev, cur, line_of(tasks[k]), 0, k * spacing, ink_lit(scheme)),
    ensures
        frame_shows(cur, tasks.take(k + 1), spacing, scheme),
{
    assert(tasks.take(k + 1).drop_last() =~= tasks.take(k));
    assert(tasks.take(k + 1).last() == tasks[k]);
    assert forall|px: int, py: int|
        0 <= px < PANEL_WIDTH && 0 <= py < PANEL_HEIGHT implies #[trigger] pixel_lit(cur, px, py)
        == (if tasks_lit_at(tasks.take(k + 1), spacing, px, py) {
        ink_lit(scheme)
    } else {
        background_lit(scheme)
    }) by {
        assert(pixel_lit(cur, px, py) == (if text_lit_at(
            line_of(tasks[k]),
            0,
            k * spacing,
            px,
            py,
        ) {
            ink_lit(scheme)
        } else {
            pixel_lit(prev, px, py)
        }));
        assert(pixel_lit(prev, px, py) == (if tasks_lit_at(tasks.take(k), spacing, px, py) {
            ink_lit(scheme)
        } else {
            background_lit(scheme)
        }));
        assert(tasks_lit_at(tasks.take(k + 1), spacing, px, py) == (tasks_lit_at(
            tasks.take(k),
            spacing,
            px,
            py,
        ) || text_lit_at(line_of(tasks[k]), 0, k * spacing, px, py)));
    }
}

/// Tasks from position k on all start at or below the bottom of the panel
/// when task k's line already does, so they ink no in-panel pixel.
proof fn lemma_tasks_lit_clipped(tasks: Seq<TaskView>, spacing: int, k: int)
    requires
        0 <= k <= tasks.len(),
        spacing > 0,
        k * spacing >= PANEL_HEIGHT,
    ensures
        forall|px: int, py: int|
            0 <= px < PANEL_WIDTH && 0 <= py < PANEL_HEIGHT ==> tasks_lit_at(
                tasks,
                spacing,
                px,
                py,
            ) == tasks_lit_at(tasks.take(k), spacing, px, py),
    decreases tasks.len() - k,
{
    if k == tasks.len() {
        assert(tasks.take(k) =~= tasks);
    } else {
        assert(tasks.take(k + 1).drop_last() =~= tasks.take(k));
        assert(tasks.take(k + 1).last() == tasks[k]);
        assert((k + 1) * spacing >= k * spacing + spacing) by {
            vstd::arithmetic::mul::lemma_mul_is_distributive_add_other_way(spacing, k, 1);
        }
        lemma_tasks_lit_clipped(tasks, spacing, k + 1);
        crate::frame::lemma_text_lit_oob(line_of(tasks[k]), 0, k * spacing);
        assert forall|px: int, py: int|
            0 <= px < PANEL_WIDTH && 0 <= py < PANEL_HEIGHT implies tasks_lit_at(
            tasks,
            spacing,
            px,
            py,
        ) == tasks_lit_at(tasks.take(k), spacing, px, py) by {
            assert(!text_lit_at(line_of(tasks[k]), 0, k * spacing, px, py));
            assert(tasks_lit_at(tasks.take(k + 1), spacing, px, py) == (tasks_lit_at(
                tasks.take(k),
                spacing,
                px,
                py,
            ) || text_lit_at(line_of(tasks[k]), 0, k * spacing, px, py)));
            assert(tasks_lit_at(tasks, spacing, px, py) == tasks_lit_at(
                tasks.take(k + 1),
                spacing,
                px,
                py,
            ));
        }
    }
}

/// A plane that shows the first k tasks shows the whole list when the tasks
/// from k on ink no in-panel pixel.
proof fn lemma_compose_weaken(
    cur: Seq<u8>,
    tasks: Seq<TaskView>,
    spacing: int,
    scheme: ColorScheme,
    k: int,
)
    requires
        0 <= k <= tasks.len(),
        frame_shows(cur, tasks.take(k), spacing, scheme),
        forall|px: int, py: int|
            0 <= px < PANEL_WIDTH && 0 <= py < PANEL_HEIGHT ==> tasks_lit_at(
                tasks,
                spacing,
                px,
                py,
            ) == tasks_lit_at(tasks.take(k), spacing, px, py),
    ensures
        frame_shows(cur, tasks, spacing, scheme),
{
    assert forall|px: int, py: int|
        0 <= px < PANEL_WIDTH && 0 <= py < PANEL_HEIGHT implies #[trigger] pixel_lit(cur, px, py)
        == (if tasks_lit_at(tasks, spacing, px, py) {
        ink_lit(scheme)
    } else {
        background_lit(scheme)
    }) by {
        assert(pixel_lit(cur, px, py) == (if tasks_lit_at(tasks.take(k), spacing, px, py) {
            ink_lit(scheme)
        } else {
            background_lit(scheme)
        }));
        assert(tasks_lit_at(tasks, spacing, px, py) == tasks_lit_at(tasks.take(k), spacing, px, py));
    }
}

/// Clears the achromatic plane to the scheme's background and draws one line
/// per task, in list order, at vertical offsets 0, spacing, 2 * spacing, ...
/// — no re-sorting, no wrapping; lines past the bottom edge are clipped.
fn compose(frame: &mut FrameBuffer, tasks: &Vec<Task>, spacing: usize, scheme: ColorScheme)
    requires
        old(frame).wf(),
        0 < spacing <= PANEL_HEIGHT,
    ensures
        final(frame).wf(),
        final(frame)@.chromatic == old(frame)@.chromatic,
        frame_shows(final(frame)@.achromatic, task_views(tasks@), spacing as int, scheme),
{
    let bg: bool = match scheme {
        ColorScheme::DarkOnLight => true,
        ColorScheme::LightOnDark => false,
    };
    frame.clear(Plane::Achromatic, bg);
    let ghost views = task_views(tasks@);
    proof {
        assert(plane_sel(frame@, Plane::Achromatic) == frame@.achromatic);
        assert(bg == background_lit(scheme));
        lemma_compose_zero(frame@.achromatic, views, spacing as int, scheme);
    }
    let mut k: usize = 0;
    let mut y: usize = 0;
    while k < tasks.len() && y < PANEL_HEIGHT
        invariant
            k <= tasks.len(),
            views == task_views(tasks@),
            0 < spacing <= PANEL_HEIGHT,
            y == k * spacing,
            frame.wf(),
            frame@.chromatic == old(frame)@.chromatic,
            frame_shows(frame@.achromatic, views.take(k as int), spacing as int, scheme),
        decreases tasks.len() - k,
    {
        let line = display_line(&tasks[k]);
        let ghost prevp = frame@.achromatic;
        let ink: bool = match scheme {
            ColorScheme::DarkOnLight => false,
            ColorScheme::LightOnDark => true,
        };
        frame.draw_text(line.as_str(), 0, y, ink);
        proof {
            assert(views[k as int] == tasks@[k as int]@);
            assert(line@ == line_of(views[k as int]));
            lemma_compose_step(
                prevp,
                frame@.achromatic,
                views,
                spacing as int,
                scheme,
                k as int,
            );
        }
        k = k + 1;
        proof {
            assert(k * spacing == (k - 1) * spacing + spacing) by {
                vstd::arithmetic::mul::lemma_mul_is_distributive_sub_other_way(
                    spacing as int,
                    k as int,
                    1,
                );
            }
        }
        y = y + spacing;
    }
    proof {
        if k == tasks.len() {
            assert(views.take(views.len() as int) =~= views);
        } else {
            lemma_tasks_lit_clipped(views, spacing as int, k as int);
            lemma_compose_weaken(
                frame@.achromatic,
                views,
                spacing as int,
                scheme,
                k as int,
            );
        }
    }
}

/// The lines a task list renders, without touching a frame: one line of text
/// per task, in the original list order, each at vertical offset
/// index * spacing.
pub fn layout_lines(tasks: &Vec<Task>, spacing: usize) -> (lines: Vec<(String, usize)>)
    requires
        tasks@.len() * spacing <= usize::MAX,
    ensures
        lines@.len() == tasks@.len(),
        forall|i: int|
            0 <= i < lines@.len() ==> (#[trigger] lines@[i]).0@ == line_of(tasks@[i]@)
                && lines@[i].1 == i * spacing,
{
    let mut lines: Vec<(String, usize)> = Vec::new();
    let mut k: usize = 0;
    let mut y: usize = 0;
    while k < tasks.len()
        invariant
            k <= tasks.len(),
            tasks@.len() * spacing <= usize::MAX,
            y == k * spacing,
            lines@.len() == k,
            forall|i: int|
                0 <= i < k ==> (#[trigger] lines@[i]).0@ == line_of(tasks@[i]@) && lines@[i].1 == i
                    * spacing,
        decreases tasks.len() - k,
    {
        let line = display_line(&tasks[k]);
        lines.push((line, y));
        k = k + 1;
        proof {
            assert(k * spacing == (k - 1) * spacing + spacing) by {
                vstd::arithmetic::mul::lemma_mul_is_distributive_sub_other_way(
                    spacing as int,
                    k as int,
                    1,
                );
            }
            assert(k * spacing <= tasks@.len() * spacing) by {
                vstd::arithmetic::mul::lemma_mul_inequality(
                    k as int,
                    tasks@.len() as int,
                    spacing as int,
                );
            }
        }
        y = y + spacing;
    }
    lines
}

/// The renderer: owns the frame buffer, remembers the last list that reached
/// the display, and holds, while a commit is pending, the list the composed
/// frame shows.
pub struct Renderer {
    config: RenderConfig,
    state: RenderState,
    last_rendered: Vec<Task>,
    pending: Option<Vec<Task>>,
    frame: FrameBuffer,
}

impl Renderer {
    /// The last list that reached the display.
    pub closed spec fn last(&self) -> Seq<TaskView> {
        task_views(self.last_rendered@)
    }

    /// The list the composed frame shows while a commit is pending.
    pub closed spec fn pending_list(&self) -> Option<Seq<TaskView>> {
        match self.pending {
            Some(v) => Some(task_views(v@)),
            None => None,
        }
    }

    /// The configuration fixed at construction.
    pub closed spec fn cfg(&self) -> RenderConfig {
        self.config
    }

    /// Where the cycle stands.
    pub closed spec fn state_of(&self) -> RenderState {
        self.state
    }

    /// The frame buffer's image.
    pub closed spec fn frame_view(&self) -> FrameView {
        self.frame@
    }

    /// Between calls the renderer rests in `Idle` or `Committing`; a pending
    /// list exists exactly in `Committing`, and while one exists the frame
    /// shows it.
    pub open spec fn wf(&self) -> bool {
        &&& self.cfg().wf()
        &&& plane_wf(self.frame_view().achromatic)
        &&& plane_wf(self.frame_view().chromatic)
        &&& !(self.state_of() is Rendering)
        &&& (self.state_of() is Committing <==> self.pending_list() is Some)
        &&& (match self.pending_list() {
            Some(p) => frame_shows(
                self.frame_view().achromatic,
                p,
                self.cfg().line_spacing as int,
                self.cfg().scheme,
            ),
            None => true,
        })
    }

    /// The frame buffer, for pushing its planes to a display driver.
    pub fn frame(&self) -> (f: &FrameBuffer)
        ensures
            f@ == self.frame_view(),
    {
        &self.frame
    }

    /// The poll interval for cycles that found no change.
    pub fn poll_ticks(&self) -> (t: u32)
        ensures
            t == self.cfg().poll_ticks,
    {
        self.config.poll_ticks
    }

    /// A fresh renderer: nothing rendered yet, frame blank, idle.
    pub fn new(config: RenderConfig) -> (r: Renderer)
        requires
            config.wf(),
        ensures
            r.wf(),
            r.cfg() == config,
            r.state_of() is Idle,
            r.last() == Seq::<TaskView>::empty(),
    {
        let r = Renderer {
            config,
            state: RenderState::Idle,
            last_rendered: Vec::new(),
            pending: None,
            frame: FrameBuffer::new(),
        };
        proof {
            assert(r.last() =~= Seq::<TaskView>::empty());
        }
        r
    }

    /// One cycle up to the hand-off: compares the snapshot against the last
    /// rendered list; when equal, nothing to do but sleep; when different,
    /// composes the frame for the snapshot and asks for a commit. The last
    /// rendered list never changes here — only a successful commit advances
    /// it.
    pub fn begin_cycle(&mut self, snapshot: Vec<Task>) -> (action: CycleAction)
        requires
            old(self).wf(),
            old(self).state_of() is Idle,
        ensures
            final(self).wf(),
            final(self).cfg() == old(self).cfg(),
            final(self).last() == old(self).last(),
            (action is Commit) == cycle_commits(old(self).last(), task_views(snapshot@)),
            match action {
                CycleAction::Sleep => final(self).state_of() is Idle && final(self).pending_list()
                    is None && final(self).frame_view() == old(self).frame_view(),
                CycleAction::Commit => final(self).state_of() is Committing
                    && final(self).pending_list() == Some(task_views(snapshot@)),
            },
    {
        if tasks_equal(&snapshot, &self.last_rendered) {
            return CycleAction::Sleep;
        }
        self.state = RenderState::Rendering;
        compose(&mut self.frame, &snapshot, self.config.line_spacing, self.config.scheme);
        self.pending = Some(snapshot);
        self.state = RenderState::Committing;
        CycleAction::Commit
    }

    /// The driver's verdict on the commanded commit. On success the pending
    /// list becomes the last rendered one; on failure the last rendered list
    /// stays, so the next cycle re-attempts the same content.
    pub fn end_cycle(&mut self, outcome: Result<(), DriverError>)
        requires
            old(self).wf(),
            old(self).state_of() is Committing,
        ensures
            final(self).wf(),
            final(self).cfg() == old(self).cfg(),
            final(self).state_of() is Idle,
            final(self).pending_list() is None,
            final(self).frame_view() == old(self).frame_view(),
            final(self).last() == (if outcome is Ok {
                old(self).pending_list()->Some_0
            } else {
                old(self).last()
            }),
    {
        let pending = self.pending.take();
        if outcome.is_ok() {
            match pending {
                Some(v) => self.last_rendered = v,
                None => (),
            }
        }
        self.state = RenderState::Idle;
    }
}

} // verus!
