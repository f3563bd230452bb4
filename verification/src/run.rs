//! The run command: from the selection of an editor to what its session
//! executes.
use std::ops::Range;

use vstd::prelude::*;

use crate::buffer::BufferSnapshot;
use crate::kernel::KernelSpecification;
use crate::point::Point;
use crate::runnable::{
    next_cell, ranges_to_run, run_place, runnable_ranges, Injection, ReplRunMode,
};
use crate::session::{worktree_id_for_editor, worktree_of, EditorState, ReplError};
use crate::statement::lands;

verus! {

/// The ranges that a run command runs.
#[derive(Debug)]
pub struct RunRanges {
    pub worktree_id: u64,
    pub ranges: Vec<Range<Point>>,
    /// Where the cursor can go on.
    pub next_cell: Option<Point>,
}

/// What a run command begins with.
#[derive(Clone, Copy, Debug, PartialEq, Eq, Structural)]
pub enum RunStart {
    /// Nothing: sessions are switched off, and the command is over.
    Nothing,
    /// See to it that the kernels are known. The editor and the languages of the
    /// kernels are read after that.
    EnsureKernelspecs,
}

/// The session that something runs in.
#[derive(Clone, Copy, Debug, PartialEq, Eq, Structural)]
pub enum SessionRef {
    /// The session that the editor had.
    Existing(u64),
    /// The one that this run started.
    Started,
}

/// A piece of code for a session to execute.
#[derive(Debug)]
pub struct Execution {
    pub session: SessionRef,
    pub code: String,
    /// Where the code is in the buffer.
    pub range: Range<Point>,
    /// Where the cursor can go on.
    pub next_cursor: Option<Point>,
    /// Whether the cursor moves.
    pub move_down: bool,
}

/// One thing that a run command does.
#[derive(Debug)]
pub enum RunAction {
    /// Start a session for the editor, watch for its end, and record it as the
    /// session of the editor.
    StartSession(KernelSpecification),
    Execute(Execution),
}

/// What a run command does, and how it ends.
#[derive(Debug)]
pub struct RunOutcome {
    pub actions: Vec<RunAction>,
    pub result: Result<(), ReplError>,
}

/// An action, with the code that it executes as a text.
pub enum RunStep {
    StartSession(KernelSpecification),
    Execute {
        session: SessionRef,
        code: Seq<char>,
        range: Range<Point>,
        next_cursor: Option<Point>,
        move_down: bool,
    },
}

impl View for RunAction {
    type V = RunStep;

    open spec fn view(&self) -> RunStep {
        match *self {
            RunAction::StartSession(kernel) => RunStep::StartSession(kernel),
            RunAction::Execute(e) => RunStep::Execute {
                session: e.session,
                code: e.code@,
                range: e.range,
                next_cursor: e.next_cursor,
                move_down: e.move_down,
            },
        }
    }
}

impl RunOutcome {
    /// The actions, with the code that they execute as texts.
    pub open spec fn steps(self) -> Seq<RunStep> {
        Seq::new(self.actions@.len(), |i: int| self.actions@[i]@)
    }
}

/// Whether a range is in any language.
pub open spec fn has_language(buffer: BufferSnapshot, range: Range<Point>) -> bool {
    buffer.language_of(range.start) is Some
}

/// Whether range `i` is in a language without a kernel.
pub open spec fn lacks_kernel(
    buffer: BufferSnapshot,
    ranges: Seq<Range<Point>>,
    kernels: Seq<Option<KernelSpecification>>,
    i: int,
) -> bool {
    has_language(buffer, ranges[i]) && kernels[i] is None
}

/// The first range, from `i` on, in a language without a kernel, or the number
/// of ranges.
pub open spec fn first_lacking(
    buffer: BufferSnapshot,
    ranges: Seq<Range<Point>>,
    kernels: Seq<Option<KernelSpecification>>,
    i: int,
) -> int
    decreases ranges.len() - i,
{
    if i >= ranges.len() || lacks_kernel(buffer, ranges, kernels, i) {
        i
    } else {
        first_lacking(buffer, ranges, kernels, i + 1)
    }
}

/// The execution of a range.
pub open spec fn execute_step(
    buffer: BufferSnapshot,
    range: Range<Point>,
    next_cell: Option<Point>,
    session: Option<u64>,
    move_down: bool,
) -> RunStep {
    RunStep::Execute {
        session: match session {
            Some(id) => SessionRef::Existing(id),
            None => SessionRef::Started,
        },
        code: buffer.range_text(range),
        range,
        next_cursor: next_cell,
        move_down,
    }
}

/// What runs the first `n` ranges, all of which have a kernel or no language.
/// Ranges in no language are left out; the first of the others starts a session
/// if there is none.
pub open spec fn run_steps(
    buffer: BufferSnapshot,
    ranges: Seq<Range<Point>>,
    next_cell: Option<Point>,
    kernels: Seq<Option<KernelSpecification>>,
    session: Option<u64>,
    move_down: bool,
    n: int,
) -> Seq<RunStep>
    decreases n,
{
    if n <= 0 {
        Seq::empty()
    } else {
        let before = run_steps(buffer, ranges, next_cell, kernels, session, move_down, n - 1);
        let execute = execute_step(buffer, ranges[n - 1], next_cell, session, move_down);
        if !has_language(buffer, ranges[n - 1]) {
            before
        } else if session is None && before.len() == 0 {
            seq![RunStep::StartSession(kernels[n - 1]->0), execute]
        } else {
            before.push(execute)
        }
    }
}

/// Begins a run command.
pub fn begin_run(store_enabled: bool) -> (r: RunStart)
    ensures
        r == (if store_enabled {
            RunStart::EnsureKernelspecs
        } else {
            RunStart::Nothing
        }),
{
    if store_enabled {
        RunStart::EnsureKernelspecs
    } else {
        RunStart::Nothing
    }
}

/// The ranges that a run command runs for the newest selection of an editor,
/// after what it begins with is done. There is nothing to run where the command
/// is over, and in an editor that does not show one file of a project.
///
/// `injections` are the injections of the buffer that meet the selection, and
/// `kernel_languages` the languages of all kernels. `node` is the number of the
/// node at which the parser's cursor ends on its way to the byte at `run_offset`.
/// `None` stands for an editor that was dropped.
pub fn run(
    start: RunStart,
    editor: Option<&EditorState>,
    injections: &Vec<Injection>,
    kernel_languages: &Vec<String>,
    repl_run_mode: ReplRunMode,
    node: Option<usize>,
) -> (r: Result<Option<RunRanges>, ReplError>)
    requires
        editor matches Some(e) ==> e.wf() && lands(
            e.snapshot,
            run_place(e.snapshot, e.selection, repl_run_mode),
            node,
        ),
    ensures
        start == RunStart::Nothing ==> r == Ok::<Option<RunRanges>, ReplError>(None),
        start == RunStart::EnsureKernelspecs ==> match editor {
            None => r == Err::<Option<RunRanges>, ReplError>(ReplError::EditorDropped),
            Some(e) => r matches Ok(found) && (match worktree_of(Some(&e.file)) {
                Some(worktree_id) => found matches Some(plan) && plan.worktree_id == worktree_id
                    && plan.ranges@ == ranges_to_run(
                    e.snapshot,
                    e.selection,
                    injections@,
                    kernel_languages@,
                    repl_run_mode,
                    node,
                ) && plan.next_cell == next_cell(e.snapshot, e.selection, repl_run_mode),
                None => found is None,
            }),
        },
{
    match start {
        RunStart::Nothing => {
            return Ok(None);
        },
        RunStart::EnsureKernelspecs => {},
    }
    let editor = match editor {
        Some(editor) => editor,
        None => {
            return Err(ReplError::EditorDropped);
        },
    };
    let worktree_id: u64 = match worktree_id_for_editor(Some(&editor.file)) {
        Some(worktree_id) => worktree_id,
        None => {
            return Ok(None);
        },
    };
    let selection = Range { start: editor.selection.start, end: editor.selection.end };
    let (ranges, next) = runnable_ranges(
        &editor.snapshot,
        selection,
        injections,
        kernel_languages,
        repl_run_mode,
        node,
    );
    Ok(Some(RunRanges { worktree_id, ranges, next_cell: next }))
}

/// Runs the ranges of a plan, one after the other.
///
/// `kernels` gives for each range the kernel that is active for its language, if
/// there is one, and `session` is the session of the editor. A range in no
/// language is left out. At a range whose language has no kernel the command
/// fails; what it did before stays done.
pub fn run_ranges(
    buffer: &BufferSnapshot,
    plan: &RunRanges,
    kernels: &Vec<Option<KernelSpecification>>,
    session: Option<u64>,
    move_down: bool,
) -> (r: RunOutcome)
    requires
        buffer.wf(),
        kernels@.len() == plan.ranges@.len(),
    ensures
        ({
            let ranges = plan.ranges@;
            let stop = first_lacking(*buffer, ranges, kernels@, 0);
            &&& r.steps() == run_steps(
                *buffer,
                ranges,
                plan.next_cell,
                kernels@,
                session,
                move_down,
                stop,
            )
            &&& r.result == (if stop < ranges.len() {
                Err::<(), ReplError>(
                    ReplError::NoKernel(buffer.language_of(ranges[stop].start)->0.name),
                )
            } else {
                Ok(())
            })
        }),
{
    let mut actions: Vec<RunAction> = Vec::new();
    let reference = match session {
        Some(id) => SessionRef::Existing(id),
        None => SessionRef::Started,
    };
    let mut started: bool = session.is_some();
    let mut i: usize = 0;
    let ghost ranges = plan.ranges@;
    assert(Seq::new(actions@.len(), |k: int| actions@[k]@) =~= Seq::<RunStep>::empty());
    while i < plan.ranges.len()
        invariant
            buffer.wf(),
            ranges == plan.ranges@,
            kernels@.len() == ranges.len(),
            i <= ranges.len(),
            reference == (match session {
                Some(id) => SessionRef::Existing(id),
                None => SessionRef::Started,
            }),
            started == (session is Some || actions@.len() > 0),
            first_lacking(*buffer, ranges, kernels@, 0) == first_lacking(
                *buffer,
                ranges,
                kernels@,
                i as int,
            ),
            Seq::new(actions@.len(), |k: int| actions@[k]@) == run_steps(
                *buffer,
                ranges,
                plan.next_cell,
                kernels@,
                session,
                move_down,
                i as int,
            ),
        decreases ranges.len() - i,
    {
        let ghost before = Seq::new(actions@.len(), |k: int| actions@[k]@);
        let range = Range { start: plan.ranges[i].start, end: plan.ranges[i].end };
        let language = match buffer.language_at(range.start) {
            Some(language) => language,
            None => {
                i += 1;
                continue;
            },
        };
        let kernel = match &kernels[i] {
            Some(kernel) => kernel,
            None => {
                return RunOutcome { actions, result: Err(ReplError::NoKernel(language.name())) };
            },
        };
        if !started {
            actions.push(RunAction::StartSession(kernel.clone()));
            started = true;
        }
        let code = buffer.text_for_range(&range);
        actions.push(
            RunAction::Execute(
                Execution {
                    session: reference,
                    code,
                    range,
                    next_cursor: plan.next_cell,
                    move_down,
                },
            ),
        );
        i += 1;
        assert(Seq::new(actions@.len(), |k: int| actions@[k]@) =~= run_steps(
            *buffer,
            ranges,
            plan.next_cell,
            kernels@,
            session,
            move_down,
            i as int,
        ));
    }
    RunOutcome { actions, result: Ok(()) }
}

/// A run starts a session only if the editor has none, and then only one, before
/// anything is executed.
pub proof fn law_run_starts_one_session(
    buffer: BufferSnapshot,
    ranges: Seq<Range<Point>>,
    next_cell: Option<Point>,
    kernels: Seq<Option<KernelSpecification>>,
    session: Option<u64>,
    move_down: bool,
    n: int,
)
    ensures
        ({
            let steps = run_steps(buffer, ranges, next_cell, kernels, session, move_down, n);
            &&& forall|i: int|
                0 <= i < steps.len() ==> ((#[trigger] steps[i]) is StartSession <==> session is None
                    && i == 0)
            &&& steps.len() != 1 || session is Some
        }),
    decreases n,
{
    if n > 0 {
        law_run_starts_one_session(
            buffer,
            ranges,
            next_cell,
            kernels,
            session,
            move_down,
            n - 1,
        );
    }
}

/// Where every range is in a language that has a kernel, each range is executed
/// once, in order, with its own text, and the command succeeds.
pub proof fn law_run_executes_every_range(
    buffer: BufferSnapshot,
    ranges: Seq<Range<Point>>,
    next_cell: Option<Point>,
    kernels: Seq<Option<KernelSpecification>>,
    session: Option<u64>,
    move_down: bool,
)
    requires
        kernels.len() == ranges.len(),
        forall|i: int| 0 <= i < ranges.len() ==> has_language(buffer, #[trigger] ranges[i]),
        forall|i: int| 0 <= i < ranges.len() ==> (#[trigger] kernels[i]) is Some,
    ensures
        first_lacking(buffer, ranges, kernels, 0) == ranges.len(),
        ({
            let steps = run_steps(
                buffer,
                ranges,
                next_cell,
                kernels,
                session,
                move_down,
                ranges.len() as int,
            );
            let skip: int = if session is None && ranges.len() > 0 {
                1
            } else {
                0
            };
            &&& steps.len() == ranges.len() + skip
            &&& forall|i: int|
                0 <= i < ranges.len() ==> steps[i + skip] == execute_step(
                    buffer,
                    #[trigger] ranges[i],
                    next_cell,
                    session,
                    move_down,
                )
        }),
{
    lemma_first_lacking(buffer, ranges, kernels, 0);
    lemma_steps_of_all(
        buffer,
        ranges,
        next_cell,
        kernels,
        session,
        move_down,
        ranges.len() as int,
    );
}

proof fn lemma_steps_of_all(
    buffer: BufferSnapshot,
    ranges: Seq<Range<Point>>,
    next_cell: Option<Point>,
    kernels: Seq<Option<KernelSpecification>>,
    session: Option<u64>,
    move_down: bool,
    n: int,
)
    requires
        0 <= n <= ranges.len(),
        forall|i: int| 0 <= i < ranges.len() ==> has_language(buffer, #[trigger] ranges[i]),
    ensures
        ({
            let steps = run_steps(buffer, ranges, next_cell, kernels, session, move_down, n);
            let skip: int = if session is None && n > 0 {
                1
            } else {
                0
            };
            &&& steps.len() == n + skip
            &&& forall|i: int|
                0 <= i < n ==> steps[i + skip] == execute_step(
                    buffer,
                    #[trigger] ranges[i],
                    next_cell,
                    session,
                    move_down,
                )
        }),
    decreases n,
{
    if n > 0 {
        lemma_steps_of_all(buffer, ranges, next_cell, kernels, session, move_down, n - 1);
        assert(has_language(buffer, ranges[n - 1]));
    }
}

/// A run command fails at the first range whose language has no kernel, and what
/// it does up to there does not depend on anything behind it.
pub proof fn law_failed_run_keeps_earlier_ranges(
    buffer: BufferSnapshot,
    ranges: Seq<Range<Point>>,
    next_cell: Option<Point>,
    kernels: Seq<Option<KernelSpecification>>,
    session: Option<u64>,
    move_down: bool,
)
    requires
        kernels.len() == ranges.len(),
    ensures
        ({
            let stop = first_lacking(buffer, ranges, kernels, 0);
            &&& 0 <= stop <= ranges.len()
            &&& stop < ranges.len() ==> lacks_kernel(buffer, ranges, kernels, stop)
            &&& forall|i: int|
                0 <= i < stop ==> !#[trigger] lacks_kernel(buffer, ranges, kernels, i)
            &&& run_steps(buffer, ranges, next_cell, kernels, session, move_down, stop)
                == run_steps(
                buffer,
                ranges.take(stop),
                next_cell,
                kernels.take(stop),
                session,
                move_down,
                stop,
            )
        }),
{
    lemma_first_lacking(buffer, ranges, kernels, 0);
    let stop = first_lacking(buffer, ranges, kernels, 0);
    lemma_steps_of_prefix(
        buffer,
        ranges,
        next_cell,
        kernels,
        session,
        move_down,
        stop,
        stop,
    );
}

proof fn lemma_first_lacking(
    buffer: BufferSnapshot,
    ranges: Seq<Range<Point>>,
    kernels: Seq<Option<KernelSpecification>>,
    i: int,
)
    requires
        0 <= i <= ranges.len(),
    ensures
        i <= first_lacking(buffer, ranges, kernels, i) <= ranges.len(),
        first_lacking(buffer, ranges, kernels, i) < ranges.len() ==> lacks_kernel(
            buffer,
            ranges,
            kernels,
            first_lacking(buffer, ranges, kernels, i),
        ),
        forall|k: int|
            i <= k < first_lacking(buffer, ranges, kernels, i) ==> !#[trigger] lacks_kernel(
                buffer,
                ranges,
                kernels,
                k,
            ),
    decreases ranges.len() - i,
{
    if i < ranges.len() && !lacks_kernel(buffer, ranges, kernels, i) {
        lemma_first_lacking(buffer, ranges, kernels, i + 1);
    }
}

proof fn lemma_steps_of_prefix(
    buffer: BufferSnapshot,
    ranges: Seq<Range<Point>>,
    next_cell: Option<Point>,
    kernels: Seq<Option<KernelSpecification>>,
    session: Option<u64>,
    move_down: bool,
    n: int,
    m: int,
)
    requires
        0 <= m <= n <= ranges.len(),
        kernels.len() == ranges.len(),
    ensures
        run_steps(buffer, ranges, next_cell, kernels, session, move_down, m) == run_steps(
            buffer,
            ranges.take(n),
            next_cell,
            kernels.take(n),
            session,
            move_down,
            m,
        ),
    decreases m,
{
    if m > 0 {
        lemma_steps_of_prefix(buffer, ranges, next_cell, kernels, session, move_down, n, m - 1);
    }
}

/// Where every range is in a language that has a kernel, what the session gets for
/// each range, in order, is the text of the buffer between the two ends of that
/// range, with the range itself, the place where the cursor can go on and whether
/// it moves. It goes to the session of the editor; if there is none, a session
/// with the kernel of the first range starts before.
pub proof fn law_each_range_runs_its_own_text(
    buffer: BufferSnapshot,
    ranges: Seq<Range<Point>>,
    next_cell: Option<Point>,
    kernels: Seq<Option<KernelSpecification>>,
    session: Option<u64>,
    move_down: bool,
    i: int,
)
    requires
        kernels.len() == ranges.len(),
        forall|k: int|
            0 <= k < ranges.len() ==> buffer.language_of((#[trigger] ranges[k]).start) is Some,
        forall|k: int| 0 <= k < ranges.len() ==> (#[trigger] kernels[k]) is Some,
        0 <= i < ranges.len(),
    ensures
        first_lacking(buffer, ranges, kernels, 0) == ranges.len(),
        ({
            let steps = run_steps(
                buffer,
                ranges,
                next_cell,
                kernels,
                session,
                move_down,
                ranges.len() as int,
            );
            match session {
                Some(id) => {
                    &&& steps.len() == ranges.len()
                    &&& steps[i] == (RunStep::Execute {
                        session: SessionRef::Existing(id),
                        code: buffer.range_text(ranges[i]),
                        range: ranges[i],
                        next_cursor: next_cell,
                        move_down,
                    })
                },
                None => {
                    &&& steps.len() == ranges.len() + 1
                    &&& steps[0] == RunStep::StartSession(kernels[0]->0)
                    &&& steps[i + 1] == (RunStep::Execute {
                        session: SessionRef::Started,
                        code: buffer.range_text(ranges[i]),
                        range: ranges[i],
                        next_cursor: next_cell,
                        move_down,
                    })
                },
            }
        }),
{
    assert forall|k: int| 0 <= k < ranges.len() implies has_language(
        buffer,
        #[trigger] ranges[k],
    ) by {}
    law_run_executes_every_range(buffer, ranges, next_cell, kernels, session, move_down);
    let steps = run_steps(
        buffer,
        ranges,
        next_cell,
        kernels,
        session,
        move_down,
        ranges.len() as int,
    );
    let own = ranges[i];
    if session is None {
        assert(steps[i + 1] == execute_step(buffer, own, next_cell, session, move_down));
        lemma_first_step(
            buffer,
            ranges,
            next_cell,
            kernels,
            move_down,
            ranges.len() as int,
        );
    } else {
        assert(steps[i + 0] == execute_step(buffer, own, next_cell, session, move_down));
    }
}

proof fn lemma_first_step(
    buffer: BufferSnapshot,
    ranges: Seq<Range<Point>>,
    next_cell: Option<Point>,
    kernels: Seq<Option<KernelSpecification>>,
    move_down: bool,
    n: int,
)
    requires
        0 < n <= ranges.len(),
        has_language(buffer, ranges[0]),
    ensures
        ({
            let steps = run_steps(buffer, ranges, next_cell, kernels, None, move_down, n);
            steps.len() > 1 && steps[0] == RunStep::StartSession(kernels[0]->0)
        }),
    decreases n,
{
    reveal_with_fuel(run_steps, 2);
    if n > 1 {
        lemma_first_step(buffer, ranges, next_cell, kernels, move_down, n - 1);
    }
}

/// A range in no language is left out: the command does what it would do without
/// that range.
pub proof fn law_range_without_language_is_left_out(
    buffer: BufferSnapshot,
    ranges: Seq<Range<Point>>,
    next_cell: Option<Point>,
    kernels: Seq<Option<KernelSpecification>>,
    session: Option<u64>,
    move_down: bool,
    i: int,
    n: int,
)
    requires
        kernels.len() == ranges.len(),
        0 <= i < n <= ranges.len(),
        buffer.language_of(ranges[i].start) is None,
    ensures
        run_steps(buffer, ranges, next_cell, kernels, session, move_down, n) == run_steps(
            buffer,
            ranges.remove(i),
            next_cell,
            kernels.remove(i),
            session,
            move_down,
            n - 1,
        ),
        !lacks_kernel(buffer, ranges, kernels, i),
    decreases n,
{
    if n == i + 1 {
        lemma_steps_agree(
            buffer,
            ranges,
            ranges.remove(i),
            next_cell,
            kernels,
            kernels.remove(i),
            session,
            move_down,
            i,
        );
    } else {
        law_range_without_language_is_left_out(
            buffer,
            ranges,
            next_cell,
            kernels,
            session,
            move_down,
            i,
            n - 1,
        );
        assert(ranges.remove(i)[n - 2] == ranges[n - 1]);
        assert(kernels.remove(i)[n - 2] == kernels[n - 1]);
    }
}

proof fn lemma_steps_agree(
    buffer: BufferSnapshot,
    a: Seq<Range<Point>>,
    b: Seq<Range<Point>>,
    next_cell: Option<Point>,
    p: Seq<Option<KernelSpecification>>,
    q: Seq<Option<KernelSpecification>>,
    session: Option<u64>,
    move_down: bool,
    n: int,
)
    requires
        forall|k: int| 0 <= k < n ==> #[trigger] a[k] == b[k],
        forall|k: int| 0 <= k < n ==> #[trigger] p[k] == q[k],
    ensures
        run_steps(buffer, a, next_cell, p, session, move_down, n) == run_steps(
            buffer,
            b,
            next_cell,
            q,
            session,
            move_down,
            n,
        ),
    decreases n,
{
    if n > 0 {
        lemma_steps_agree(buffer, a, b, next_cell, p, q, session, move_down, n - 1);
        assert(a[n - 1] == b[n - 1] && p[n - 1] == q[n - 1]);
    }
}

/// The run stops at a range if and only if it is the first whose language is
/// known and has no kernel.
pub proof fn law_run_stops_at_first_missing_kernel(
    buffer: BufferSnapshot,
    ranges: Seq<Range<Point>>,
    kernels: Seq<Option<KernelSpecification>>,
    stop: int,
)
    requires
        kernels.len() == ranges.len(),
        0 <= stop <= ranges.len(),
        forall|k: int|
            0 <= k < stop ==> buffer.language_of((#[trigger] ranges[k]).start) is None
                || kernels[k] is Some,
        stop < ranges.len() ==> buffer.language_of(ranges[stop].start) is Some && kernels[stop]
            is None,
    ensures
        first_lacking(buffer, ranges, kernels, 0) == stop,
{
    lemma_first_lacking(buffer, ranges, kernels, 0);
    let found = first_lacking(buffer, ranges, kernels, 0);
    if found < stop {
        assert(lacks_kernel(buffer, ranges, kernels, found));
        assert(buffer.language_of(ranges[found].start) is None || kernels[found] is Some);
    } else if found > stop {
        assert(!lacks_kernel(buffer, ranges, kernels, stop));
    }
}

} // verus!
