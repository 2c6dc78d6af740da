use vstd::prelude::*;

use crate::numtext::{format_i64, signed_decimal};
use crate::naming::names_view;
use crate::order::{BenchmarkOrderEntry, entries_view, sorted_by_id, with_id, sort_benchmarks};
use crate::text::{join, lemma_join_push, owned, push_chars, push_str};

verus! {

// ---------------------------------------------------------------------------
// The benchmark pipeline as a state machine.
//
// The caller performs each action (file copies, launching the benchmark
// program, waiting on the simulator) and reports what happened as an event;
// the machine decides what comes next.
// ---------------------------------------------------------------------------

/// Why the pipeline stopped before it had worked through every benchmark.
pub enum PipelineError {
    NoBenchmarks,
    BackupFailed { detail: String },
    CanceledBeforeBenchmark { id: i32 },
    CopyFailed { detail: String },
    GroupFolderFailed { detail: String },
    IniCopyFailed { detail: String },
    OutputFolderFailed { detail: String },
    RunsFolderFailed { detail: String },
    Canceled,
    RunFailed { id: i32, run: i32, detail: String },
    StopAfterRun { id: i32 },
    StopAfterLastRun,
    BenchmarkFailed { id: i32 },
}

/// A pipeline error with its texts as character sequences.
pub enum ErrorView {
    NoBenchmarks,
    BackupFailed(Seq<char>),
    CanceledBeforeBenchmark(i32),
    CopyFailed(Seq<char>),
    GroupFolderFailed(Seq<char>),
    IniCopyFailed(Seq<char>),
    OutputFolderFailed(Seq<char>),
    RunsFolderFailed(Seq<char>),
    Canceled,
    RunFailed(i32, i32, Seq<char>),
    StopAfterRun(i32),
    StopAfterLastRun,
    BenchmarkFailed(i32),
}

impl View for PipelineError {
    type V = ErrorView;

    open spec fn view(&self) -> ErrorView {
        match self {
            PipelineError::NoBenchmarks => ErrorView::NoBenchmarks,
            PipelineError::BackupFailed { detail } => ErrorView::BackupFailed(detail@),
            PipelineError::CanceledBeforeBenchmark { id } => ErrorView::CanceledBeforeBenchmark(*id),
            PipelineError::CopyFailed { detail } => ErrorView::CopyFailed(detail@),
            PipelineError::GroupFolderFailed { detail } => ErrorView::GroupFolderFailed(detail@),
            PipelineError::IniCopyFailed { detail } => ErrorView::IniCopyFailed(detail@),
            PipelineError::OutputFolderFailed { detail } => ErrorView::OutputFolderFailed(detail@),
            PipelineError::RunsFolderFailed { detail } => ErrorView::RunsFolderFailed(detail@),
            PipelineError::Canceled => ErrorView::Canceled,
            PipelineError::RunFailed { id, run, detail } => ErrorView::RunFailed(*id, *run, detail@),
            PipelineError::StopAfterRun { id } => ErrorView::StopAfterRun(*id),
            PipelineError::StopAfterLastRun => ErrorView::StopAfterLastRun,
            PipelineError::BenchmarkFailed { id } => ErrorView::BenchmarkFailed(*id),
        }
    }
}

/// Where the pipeline stands.
#[derive(Clone, Copy, PartialEq, Eq, Structural)]
pub enum Phase {
    /// Looking for the next benchmark to run.
    Selecting,
    /// A benchmark was handed out: its files are being copied, the simulator
    /// connected and the output folders made.
    Preparing,
    /// A run of the current benchmark is in progress.
    Running,
    /// All runs of the current benchmark are done.
    Finishing,
    /// Waiting for the simulator to close after a benchmark.
    Disconnecting,
    /// Nothing more to do.
    Ended,
}

/// What the caller does next.
pub enum Action {
    /// The benchmark is at or below the stored current id: report progress
    /// 0 and go on (`Event::Proceed`).
    Skip { id: i32 },
    /// Prepare the benchmark with this id and order-file path.
    StartBench { id: i32, path: String },
    /// Perform run `run` of `total` of the benchmark.
    StartRun { id: i32, run: i32, total: i32 },
    /// Store the benchmark id as done and check the stop-after-last-run
    /// request.
    FinishBench { id: i32 },
    /// Wait until the simulator has disconnected.
    WaitDisconnect { id: i32 },
    /// Every benchmark was handled: reset the id file, restore the backup
    /// and open the report.
    Complete,
    /// Stop with this error.
    Abort { error: PipelineError },
}

/// An action with its texts as character sequences.
pub enum ActionView {
    Skip(i32),
    StartBench(i32, Seq<char>),
    StartRun(i32, i32, i32),
    FinishBench(i32),
    WaitDisconnect(i32),
    Complete,
    Abort(ErrorView),
}

impl View for Action {
    type V = ActionView;

    open spec fn view(&self) -> ActionView {
        match self {
            Action::Skip { id } => ActionView::Skip(*id),
            Action::StartBench { id, path } => ActionView::StartBench(*id, path@),
            Action::StartRun { id, run, total } => ActionView::StartRun(*id, *run, *total),
            Action::FinishBench { id } => ActionView::FinishBench(*id),
            Action::WaitDisconnect { id } => ActionView::WaitDisconnect(*id),
            Action::Complete => ActionView::Complete,
            Action::Abort { error } => ActionView::Abort(error@),
        }
    }
}

/// What the caller reports after performing an action.
pub enum Event {
    /// After `Skip` (or to begin): go on.
    Proceed,
    /// The user canceled.
    Canceled,
    /// The benchmark's input folder does not exist.
    FolderMissing,
    CopyFailed { detail: String },
    /// The simulator could not be reached for the benchmark.
    SetupFailed,
    GroupFolderFailed { detail: String },
    IniCopyFailed { detail: String },
    OutputFolderFailed { detail: String },
    RunsFolderFailed { detail: String },
    /// The benchmark is ready for its runs.
    Prepared,
    /// The run finished; `stop_after_run` tells whether the user asked to
    /// stop after it.
    RunSucceeded { stop_after_run: bool },
    RunFailed { detail: String },
    /// The id was stored; `stop_after_last_run` tells whether the user asked
    /// to stop after this benchmark.
    Finished { stop_after_last_run: bool },
    Disconnected,
    DisconnectFailed,
}

/// The events that each phase takes.
pub open spec fn accepts_spec(phase: Phase, e: Event) -> bool {
    match phase {
        Phase::Selecting => e is Proceed,
        Phase::Preparing => {
            ||| e is Canceled
            ||| e is FolderMissing
            ||| e is CopyFailed
            ||| e is SetupFailed
            ||| e is GroupFolderFailed
            ||| e is IniCopyFailed
            ||| e is OutputFolderFailed
            ||| e is RunsFolderFailed
            ||| e is Prepared
        },
        Phase::Running => e is Canceled || e is RunSucceeded || e is RunFailed,
        Phase::Finishing => e is Finished,
        Phase::Disconnecting => e is Disconnected || e is DisconnectFailed,
        Phase::Ended => false,
    }
}

/// The pipeline in the abstract: the benchmarks (id and path, sorted by id),
/// the stored id of the last finished benchmark, the number of runs per
/// benchmark, the benchmark at hand, the run at hand and the phase.
pub struct PipelineState {
    pub benches: Seq<(i32, Seq<char>)>,
    pub current_bench_id: i32,
    pub num_runs: i32,
    pub index: int,
    pub run: int,
    pub phase: Phase,
}

/// What every reachable state satisfies.
pub open spec fn state_wf(s: PipelineState) -> bool {
    &&& sorted_by_id(s.benches)
    &&& 0 <= s.index <= s.benches.len()
    &&& (s.phase is Preparing || s.phase is Running || s.phase is Finishing
        || s.phase is Disconnecting) ==> s.index < s.benches.len()
    &&& s.phase is Running ==> 1 <= s.run <= s.num_runs
}

/// The id of the benchmark at hand.
pub open spec fn current_id(s: PipelineState) -> i32 {
    s.benches[s.index].0
}

/// The state with the phase replaced.
pub open spec fn with_phase(s: PipelineState, phase: Phase) -> PipelineState {
    PipelineState { phase, ..s }
}

/// Looking for the next benchmark from `s.index` on: none is left, the one
/// at hand is skipped, or it is handed out.
pub open spec fn select(s: PipelineState) -> (PipelineState, ActionView) {
    if s.index >= s.benches.len() {
        (with_phase(s, Phase::Ended), ActionView::Complete)
    } else if current_id(s) <= s.current_bench_id {
        (
            PipelineState { index: s.index + 1, phase: Phase::Selecting, ..s },
            ActionView::Skip(current_id(s)),
        )
    } else {
        (
            with_phase(s, Phase::Preparing),
            ActionView::StartBench(current_id(s), s.benches[s.index].1),
        )
    }
}

/// Stopping with an error.
pub open spec fn abort(s: PipelineState, e: ErrorView) -> (PipelineState, ActionView) {
    (with_phase(s, Phase::Ended), ActionView::Abort(e))
}

/// The next state and action after event `e` in state `s`.
pub open spec fn next(s: PipelineState, e: Event) -> (PipelineState, ActionView) {
    match s.phase {
        Phase::Selecting => select(s),
        Phase::Preparing => match e {
            Event::Canceled => abort(s, ErrorView::CanceledBeforeBenchmark(current_id(s))),
            Event::FolderMissing => select(
                PipelineState { index: s.index + 1, phase: Phase::Selecting, ..s },
            ),
            Event::CopyFailed { detail } => abort(s, ErrorView::CopyFailed(detail@)),
            Event::SetupFailed => abort(s, ErrorView::BenchmarkFailed(current_id(s))),
            Event::GroupFolderFailed { detail } => abort(s, ErrorView::GroupFolderFailed(detail@)),
            Event::IniCopyFailed { detail } => abort(s, ErrorView::IniCopyFailed(detail@)),
            Event::OutputFolderFailed { detail } => abort(s, ErrorView::OutputFolderFailed(detail@)),
            Event::RunsFolderFailed { detail } => abort(s, ErrorView::RunsFolderFailed(detail@)),
            _ => if s.num_runs >= 1 {
                (
                    PipelineState { run: 1, phase: Phase::Running, ..s },
                    ActionView::StartRun(current_id(s), 1, s.num_runs),
                )
            } else {
                (with_phase(s, Phase::Finishing), ActionView::FinishBench(current_id(s)))
            },
        },
        Phase::Running => match e {
            Event::Canceled => abort(s, ErrorView::Canceled),
            Event::RunFailed { detail } => abort(
                s,
                ErrorView::RunFailed(current_id(s), s.run as i32, detail@),
            ),
            Event::RunSucceeded { stop_after_run } => if stop_after_run {
                abort(s, ErrorView::StopAfterRun(current_id(s)))
            } else if s.run < s.num_runs {
                (
                    PipelineState { run: s.run + 1, ..s },
                    ActionView::StartRun(current_id(s), (s.run + 1) as i32, s.num_runs),
                )
            } else {
                (with_phase(s, Phase::Finishing), ActionView::FinishBench(current_id(s)))
            },
            _ => (s, ActionView::Complete),
        },
        Phase::Finishing => match e {
            Event::Finished { stop_after_last_run } => if stop_after_last_run {
                abort(s, ErrorView::StopAfterLastRun)
            } else {
                (with_phase(s, Phase::Disconnecting), ActionView::WaitDisconnect(current_id(s)))
            },
            _ => (s, ActionView::Complete),
        },
        Phase::Disconnecting => match e {
            Event::Disconnected => select(
                PipelineState { index: s.index + 1, phase: Phase::Selecting, ..s },
            ),
            _ => abort(s, ErrorView::BenchmarkFailed(current_id(s))),
        },
        Phase::Ended => (s, ActionView::Complete),
    }
}

/// The pipeline: the sorted benchmarks and where it stands.
pub struct Pipeline {
    benches: Vec<BenchmarkOrderEntry>,
    current_bench_id: i32,
    num_runs: i32,
    index: usize,
    run: i32,
    phase: Phase,
}

impl View for Pipeline {
    type V = PipelineState;

    closed spec fn view(&self) -> PipelineState {
        PipelineState {
            benches: entries_view(self.benches@),
            current_bench_id: self.current_bench_id,
            num_runs: self.num_runs,
            index: self.index as int,
            run: self.run as int,
            phase: self.phase,
        }
    }
}

impl Pipeline {
    /// Well-formed: the abstract state satisfies `state_wf`.
    pub closed spec fn wf(&self) -> bool {
        &&& state_wf(self@)
        &&& self.benches@.len() == self@.benches.len()
    }

    /// A pipeline over the benchmarks of the order file, sorted by id, that
    /// skips every benchmark whose id is at or below `current_bench_id`.
    /// An empty order file is an error.
    pub fn new(entries: Vec<BenchmarkOrderEntry>, current_bench_id: i32, num_runs: i32) -> (r:
        Result<Pipeline, PipelineError>)
        ensures
            match r {
                Ok(p) => {
                    &&& entries@.len() > 0
                    &&& p.wf()
                    &&& sorted_by_id(p@.benches)
                    &&& forall|k: i32|
                        with_id(p@.benches, k) == with_id(entries_view(entries@), k)
                    &&& p@.current_bench_id == current_bench_id
                    &&& p@.num_runs == num_runs
                    &&& p@.index == 0
                    &&& p@.phase == Phase::Selecting
                },
                Err(e) => entries@.len() == 0 && e@ == ErrorView::NoBenchmarks,
            },
    {
        let benches = sort_benchmarks(entries);
        if benches.len() == 0 {
            return Err(PipelineError::NoBenchmarks);
        }
        let p = Pipeline {
            benches,
            current_bench_id,
            num_runs,
            index: 0,
            run: 0,
            phase: Phase::Selecting,
        };
        Ok(p)
    }

    /// The events that the pipeline takes in its present phase.
    pub fn accepts(&self, e: &Event) -> (r: bool)
        ensures
            r == accepts_spec(self@.phase, *e),
    {
        match self.phase {
            Phase::Selecting => matches!(e, Event::Proceed),
            Phase::Preparing => matches!(
                e,
                Event::Canceled | Event::FolderMissing | Event::CopyFailed { .. }
                    | Event::SetupFailed | Event::GroupFolderFailed { .. }
                    | Event::IniCopyFailed { .. } | Event::OutputFolderFailed { .. }
                    | Event::RunsFolderFailed { .. } | Event::Prepared
            ),
            Phase::Running => matches!(
                e,
                Event::Canceled | Event::RunSucceeded { .. } | Event::RunFailed { .. }
            ),
            Phase::Finishing => matches!(e, Event::Finished { .. }),
            Phase::Disconnecting => matches!(e, Event::Disconnected | Event::DisconnectFailed),
            Phase::Ended => false,
        }
    }

    /// `select` on the pipeline.
    fn select_next(&mut self) -> (a: Action)
        requires
            old(self).wf(),
            old(self)@.phase == Phase::Selecting,
        ensures
            final(self).wf(),
            final(self)@ == select(old(self)@).0,
            a@ == select(old(self)@).1,
    {
        if self.index >= self.benches.len() {
            self.phase = Phase::Ended;
            Action::Complete
        } else {
            let id = self.benches[self.index].id;
            if id <= self.current_bench_id {
                self.index = self.index + 1;
                Action::Skip { id }
            } else {
                self.phase = Phase::Preparing;
                Action::StartBench { id, path: self.benches[self.index].path.clone() }
            }
        }
    }

    /// Stops with `error`.
    fn abort_with(&mut self, error: PipelineError) -> (a: Action)
        requires
            old(self).wf(),
        ensures
            final(self).wf(),
            final(self)@ == with_phase(old(self)@, Phase::Ended),
            a@ == ActionView::Abort(error@),
    {
        self.phase = Phase::Ended;
        Action::Abort { error }
    }

    /// Takes the outcome `e` of the last action and returns the next one.
    pub fn step(&mut self, e: Event) -> (a: Action)
        requires
            old(self).wf(),
            accepts_spec(old(self)@.phase, e),
        ensures
            final(self).wf(),
            final(self)@ == next(old(self)@, e).0,
            a@ == next(old(self)@, e).1,
    {
        match self.phase {
            Phase::Selecting => self.select_next(),
            Phase::Preparing => {
                let id = self.benches[self.index].id;
                match e {
                    Event::Canceled => self.abort_with(PipelineError::CanceledBeforeBenchmark { id }),
                    Event::FolderMissing => {
                        let count = self.benches.len();
                        assert(self.index < count);
                        self.index = self.index + 1;
                        self.phase = Phase::Selecting;
                        self.select_next()
                    },
                    Event::CopyFailed { detail } => self.abort_with(
                        PipelineError::CopyFailed { detail },
                    ),
                    Event::SetupFailed => self.abort_with(PipelineError::BenchmarkFailed { id }),
                    Event::GroupFolderFailed { detail } => self.abort_with(
                        PipelineError::GroupFolderFailed { detail },
                    ),
                    Event::IniCopyFailed { detail } => self.abort_with(
                        PipelineError::IniCopyFailed { detail },
                    ),
                    Event::OutputFolderFailed { detail } => self.abort_with(
                        PipelineError::OutputFolderFailed { detail },
                    ),
                    Event::RunsFolderFailed { detail } => self.abort_with(
                        PipelineError::RunsFolderFailed { detail },
                    ),
                    _ => {
                        if self.num_runs >= 1 {
                            self.run = 1;
                            self.phase = Phase::Running;
                            Action::StartRun { id, run: 1, total: self.num_runs }
                        } else {
                            self.phase = Phase::Finishing;
                            Action::FinishBench { id }
                        }
                    },
                }
            },
            Phase::Running => {
                let id = self.benches[self.index].id;
                match e {
                    Event::Canceled => self.abort_with(PipelineError::Canceled),
                    Event::RunFailed { detail } => {
                        let run = self.run;
                        self.abort_with(PipelineError::RunFailed { id, run, detail })
                    },
                    Event::RunSucceeded { stop_after_run } => {
                        if stop_after_run {
                            self.abort_with(PipelineError::StopAfterRun { id })
                        } else if self.run < self.num_runs {
                            self.run = self.run + 1;
                            Action::StartRun { id, run: self.run, total: self.num_runs }
                        } else {
                            self.phase = Phase::Finishing;
                            Action::FinishBench { id }
                        }
                    },
                    _ => Action::Complete,
                }
            },
            Phase::Finishing => {
                let id = self.benches[self.index].id;
                match e {
                    Event::Finished { stop_after_last_run } => {
                        if stop_after_last_run {
                            self.abort_with(PipelineError::StopAfterLastRun)
                        } else {
                            self.phase = Phase::Disconnecting;
                            Action::WaitDisconnect { id }
                        }
                    },
                    _ => Action::Complete,
                }
            },
            Phase::Disconnecting => {
                let id = self.benches[self.index].id;
                match e {
                    Event::Disconnected => {
                        let count = self.benches.len();
                        assert(self.index < count);
                        self.index = self.index + 1;
                        self.phase = Phase::Selecting;
                        self.select_next()
                    },
                    _ => self.abort_with(PipelineError::BenchmarkFailed { id }),
                }
            },
            Phase::Ended => Action::Complete,
        }
    }
}

// ---------------------------------------------------------------------------
// What the caller does around the machine
// ---------------------------------------------------------------------------

/// The clean-up that comes with an error: whether the ready status is sent,
/// the current-id file reset and the report opened.
pub struct Cleanup {
    pub send_ready: bool,
    pub reset_bench_id: bool,
    pub open_report: bool,
}

/// The clean-up for each error, as (send ready, reset id, open report).
pub open spec fn cleanup_spec(e: ErrorView) -> (bool, bool, bool) {
    match e {
        ErrorView::NoBenchmarks => (false, false, false),
        ErrorView::BackupFailed(_) => (false, false, false),
        ErrorView::CanceledBeforeBenchmark(_) => (true, false, false),
        ErrorView::CopyFailed(_) => (true, false, false),
        ErrorView::GroupFolderFailed(_) => (false, false, false),
        ErrorView::IniCopyFailed(_) => (false, false, false),
        ErrorView::OutputFolderFailed(_) => (true, false, false),
        ErrorView::RunsFolderFailed(_) => (true, false, false),
        ErrorView::Canceled => (true, true, false),
        ErrorView::RunFailed(_, _, _) => (true, true, false),
        ErrorView::StopAfterRun(_) => (true, true, false),
        ErrorView::StopAfterLastRun => (true, true, false),
        ErrorView::BenchmarkFailed(_) => (true, true, true),
    }
}

/// The clean-up that the pipeline performs when it stops with `e`.
pub fn cleanup_for(e: &PipelineError) -> (r: Cleanup)
    ensures
        (r.send_ready, r.reset_bench_id, r.open_report) == cleanup_spec(e@),
{
    match e {
        PipelineError::NoBenchmarks | PipelineError::BackupFailed { .. }
        | PipelineError::GroupFolderFailed { .. } | PipelineError::IniCopyFailed { .. } => Cleanup {
            send_ready: false,
            reset_bench_id: false,
            open_report: false,
        },
        PipelineError::CanceledBeforeBenchmark { .. } | PipelineError::CopyFailed { .. }
        | PipelineError::OutputFolderFailed { .. } | PipelineError::RunsFolderFailed { .. } => Cleanup {
            send_ready: true,
            reset_bench_id: false,
            open_report: false,
        },
        PipelineError::Canceled | PipelineError::RunFailed { .. } | PipelineError::StopAfterRun { .. }
        | PipelineError::StopAfterLastRun => Cleanup {
            send_ready: true,
            reset_bench_id: true,
            open_report: false,
        },
        PipelineError::BenchmarkFailed { .. } => Cleanup {
            send_ready: true,
            reset_bench_id: true,
            open_report: true,
        },
    }
}

/// The text of a pipeline error.
pub open spec fn error_text(e: ErrorView) -> Seq<char> {
    match e {
        ErrorView::NoBenchmarks => "No benchmarks found in the order file"@,
        ErrorView::BackupFailed(d) => "Failed to back up iRacing ini files: "@ + d,
        ErrorView::CanceledBeforeBenchmark(id) => "Benchmark canceled by user before starting benchmark "@
            + signed_decimal(id as int),
        ErrorView::CopyFailed(d) => "Failed to copy benchmark files: "@ + d,
        ErrorView::GroupFolderFailed(d) => "Failed to create output group folder: "@ + d,
        ErrorView::IniCopyFailed(d) => "Warning: failed copying iRacing INI files: "@ + d,
        ErrorView::OutputFolderFailed(d) => "Failed to create benchmark output folder: "@ + d,
        ErrorView::RunsFolderFailed(d) => "Failed to create benchmark runs output folder: "@ + d,
        ErrorView::Canceled => "Benchmark canceled by user"@,
        ErrorView::RunFailed(id, run, d) => "Benchmark "@ + signed_decimal(id as int) + " run "@
            + signed_decimal(run as int) + " failed: "@ + d,
        ErrorView::StopAfterRun(id) => "Stop requested after current run for benchmark "@
            + signed_decimal(id as int),
        ErrorView::StopAfterLastRun => "Stop requested after the last run of the current benchmark"@,
        ErrorView::BenchmarkFailed(id) => "Benchmark "@ + signed_decimal(id as int) + " failed"@,
    }
}

/// Appends the decimal form of `n`.
fn push_int(out: &mut String, n: i32)
    ensures
        final(out)@ == old(out)@ + signed_decimal(n as int),
{
    push_chars(out, &format_i64(n as i64));
}

/// The message of a pipeline error.
pub fn pipeline_error_message(e: &PipelineError) -> (r: String)
    ensures
        r@ == error_text(e@),
{
    let mut out = String::new();
    match e {
        PipelineError::NoBenchmarks => {
            push_str(&mut out, "No benchmarks found in the order file");
        },
        PipelineError::BackupFailed { detail } => {
            push_str(&mut out, "Failed to back up iRacing ini files: ");
            push_str(&mut out, detail.as_str());
        },
        PipelineError::CanceledBeforeBenchmark { id } => {
            push_str(&mut out, "Benchmark canceled by user before starting benchmark ");
            push_int(&mut out, *id);
        },
        PipelineError::CopyFailed { detail } => {
            push_str(&mut out, "Failed to copy benchmark files: ");
            push_str(&mut out, detail.as_str());
        },
        PipelineError::GroupFolderFailed { detail } => {
            push_str(&mut out, "Failed to create output group folder: ");
            push_str(&mut out, detail.as_str());
        },
        PipelineError::IniCopyFailed { detail } => {
            push_str(&mut out, "Warning: failed copying iRacing INI files: ");
            push_str(&mut out, detail.as_str());
        },
        PipelineError::OutputFolderFailed { detail } => {
            push_str(&mut out, "Failed to create benchmark output folder: ");
            push_str(&mut out, detail.as_str());
        },
        PipelineError::RunsFolderFailed { detail } => {
            push_str(&mut out, "Failed to create benchmark runs output folder: ");
            push_str(&mut out, detail.as_str());
        },
        PipelineError::Canceled => {
            push_str(&mut out, "Benchmark canceled by user");
        },
        PipelineError::RunFailed { id, run, detail } => {
            push_str(&mut out, "Benchmark ");
            push_int(&mut out, *id);
            push_str(&mut out, " run ");
            push_int(&mut out, *run);
            push_str(&mut out, " failed: ");
            push_str(&mut out, detail.as_str());
        },
        PipelineError::StopAfterRun { id } => {
            push_str(&mut out, "Stop requested after current run for benchmark ");
            push_int(&mut out, *id);
        },
        PipelineError::StopAfterLastRun => {
            push_str(&mut out, "Stop requested after the last run of the current benchmark");
        },
        PipelineError::BenchmarkFailed { id } => {
            push_str(&mut out, "Benchmark ");
            push_int(&mut out, *id);
            push_str(&mut out, " failed");
        },
    }
    assert(out@ =~= error_text(e@));
    out
}

/// `Benchmark pipeline failed: <detail>`, the closing message of a failed
/// pipeline.
pub fn pipeline_failed_message(detail: &str) -> (r: String)
    ensures
        r@ == "Benchmark pipeline failed: "@ + detail@,
{
    let mut out = owned("Benchmark pipeline failed: ");
    push_str(&mut out, detail);
    out
}

/// The name of the output file of a run:
/// `<timestamp>_run-<run>-of-<total>.csv`.
pub fn run_output_file_name(timestamp: &str, run: i32, total: i32) -> (r: String)
    ensures
        r@ == timestamp@ + "_run-"@ + signed_decimal(run as int) + "-of-"@ + signed_decimal(
            total as int,
        ) + ".csv"@,
{
    let mut out = owned(timestamp);
    push_str(&mut out, "_run-");
    push_int(&mut out, run);
    push_str(&mut out, "-of-");
    push_int(&mut out, total);
    push_str(&mut out, ".csv");
    out
}

/// The name of a benchmark's output folder: `<timestamp> <folder name>`.
pub fn benchmark_output_folder_name(timestamp: &str, folder_name: &str) -> (r: String)
    ensures
        r@ == timestamp@ + " "@ + folder_name@,
{
    let mut out = owned(timestamp);
    push_str(&mut out, " ");
    push_str(&mut out, folder_name);
    out
}

/// The log line before a run: `Starting benchmark <id> run <run>/<total>...`.
pub fn run_start_message(id: i32, run: i32, total: i32) -> (r: String)
    ensures
        r@ == "Starting benchmark "@ + signed_decimal(id as int) + " run "@ + signed_decimal(
            run as int,
        ) + "/"@ + signed_decimal(total as int) + "..."@,
{
    let mut out = owned("Starting benchmark ");
    push_int(&mut out, id);
    push_str(&mut out, " run ");
    push_int(&mut out, run);
    push_str(&mut out, "/");
    push_int(&mut out, total);
    push_str(&mut out, "...");
    out
}

/// The log line once a benchmark is prepared.
pub fn bench_ready_message(id: i32) -> (r: String)
    ensures
        r@ == "Benchmark "@ + signed_decimal(id as int) + " setup completed, starting runs..."@,
{
    let mut out = owned("Benchmark ");
    push_int(&mut out, id);
    push_str(&mut out, " setup completed, starting runs...");
    out
}

/// The note written beside a benchmark's output.
pub fn creation_note(time: &str) -> (r: String)
    ensures
        r@ == "Created by ir-bench-gui at "@ + time@,
{
    let mut out = owned("Created by ir-bench-gui at ");
    push_str(&mut out, time);
    out
}

/// The strings of `parts` with `sep` between each two (`[String]::join`).
pub fn join_strings(parts: &Vec<String>, sep: &str) -> (r: String)
    ensures
        r@ == join(names_view(parts@), sep@),
{
    let mut out = String::new();
    let mut i: usize = 0;
    while i < parts.len()
        invariant
            i <= parts.len(),
            out@ == join(names_view(parts@).take(i as int), sep@),
        decreases parts.len() - i,
    {
        let ghost before = names_view(parts@).take(i as int);
        proof {
            lemma_join_push(before, parts@[i as int]@, sep@);
            assert(names_view(parts@).take(i + 1) =~= before.push(parts@[i as int]@));
        }
        if i > 0 {
            push_str(&mut out, sep);
        }
        push_str(&mut out, parts[i].as_str());
        i = i + 1;
    }
    assert(names_view(parts@).take(parts.len() as int) =~= names_view(parts@));
    out
}

/// The process that the benchmark program watches when none is configured.
pub open spec fn default_process_name() -> Seq<char> {
    "iRacingSim64DX11"@
}

/// The arguments that start the benchmark program:
/// `--process_name <name> --output_file <path>`, with the default process
/// name when none is configured.
pub fn start_program_args(process_name: &str, output_path: &str) -> (r: Vec<String>)
    ensures
        names_view(r@) == seq![
            "--process_name"@,
            if process_name@.len() == 0 { default_process_name() } else { process_name@ },
            "--output_file"@,
            output_path@,
        ],
{
    let mut r: Vec<String> = Vec::new();
    r.push(owned("--process_name"));
    if process_name.unicode_len() == 0 {
        r.push(owned("iRacingSim64DX11"));
    } else {
        r.push(owned(process_name));
    }
    r.push(owned("--output_file"));
    r.push(owned(output_path));
    assert(names_view(r@) =~= seq![
        "--process_name"@,
        if process_name@.len() == 0 { default_process_name() } else { process_name@ },
        "--output_file"@,
        output_path@,
    ]);
    r
}

/// The arguments that stop the benchmark program:
/// `--process_name <name> <terminate arguments joined by spaces>`.
pub fn stop_program_args(process_name: &str, terminate_args: &Vec<String>) -> (r: Vec<String>)
    ensures
        names_view(r@) == seq![
            "--process_name"@,
            process_name@,
            join(names_view(terminate_args@), " "@),
        ],
{
    let mut r: Vec<String> = Vec::new();
    r.push(owned("--process_name"));
    r.push(owned(process_name));
    r.push(join_strings(terminate_args, " "));
    assert(names_view(r@) =~= seq![
        "--process_name"@,
        process_name@,
        join(names_view(terminate_args@), " "@),
    ]);
    r
}

/// The log line before the benchmark program is launched:
/// `Launching benchmark program: <program> <arguments joined by spaces>`.
pub fn launch_message(program: &str, args: &Vec<String>) -> (r: String)
    ensures
        r@ == "Launching benchmark program: "@ + program@ + " "@ + join(names_view(args@), " "@),
{
    let mut out = owned("Launching benchmark program: ");
    push_str(&mut out, program);
    push_str(&mut out, " ");
    let joined = join_strings(args, " ");
    push_str(&mut out, joined.as_str());
    out
}

// ---------------------------------------------------------------------------
// Properties of the machine
// ---------------------------------------------------------------------------

/// The work per benchmark in the measure below: one unit for selecting,
/// preparing, finishing and disconnecting each, one per run, and one spare.
pub open spec fn per_bench(s: PipelineState) -> int {
    (if s.num_runs > 0 { s.num_runs as int } else { 0 }) + 5
}

/// The work left: it falls with every step and is 0 only at the end.
pub open spec fn work_left(s: PipelineState) -> int {
    let k = per_bench(s);
    let rest = s.benches.len() - s.index - 1;
    match s.phase {
        Phase::Ended => 0,
        Phase::Selecting => 1 + (rest + 1) * k,
        Phase::Preparing => (rest + 1) * k,
        Phase::Running => 1 + rest * k + (k - 2 - s.run),
        Phase::Finishing => 1 + rest * k + 2,
        Phase::Disconnecting => 1 + rest * k + 1,
    }
}

proof fn lemma_block(n: int, k: int)
    requires
        n >= 0,
        k >= 5,
    ensures
        (n + 1) * k == n * k + k,
        n * k >= 0,
{
    assert((n + 1) * k == n * k + k) by (nonlinear_arith);
    assert(n * k >= 0) by (nonlinear_arith)
        requires
            n >= 0,
            k >= 5,
    ;
}

/// Selecting from a well-formed state gives less work than it started
/// with.
proof fn lemma_select_progress(s: PipelineState)
    requires
        state_wf(s),
        s.phase == Phase::Selecting,
    ensures
        state_wf(select(s).0),
        0 <= work_left(select(s).0) < work_left(s),
{
    let k = per_bench(s);
    if s.index < s.benches.len() {
        let rest = s.benches.len() - s.index - 1;
        lemma_block(rest, k);
    }
}

/// The pipeline always ends: every step lowers the work left, which is
/// never negative, so no more steps can follow than the work left at the
/// start.
pub proof fn lemma_step_progress(s: PipelineState, e: Event)
    requires
        state_wf(s),
        accepts_spec(s.phase, e),
    ensures
        state_wf(next(s, e).0),
        0 <= work_left(next(s, e).0) < work_left(s),
{
    let k = per_bench(s);
    let rest = s.benches.len() - s.index - 1;
    match s.phase {
        Phase::Selecting => {
            lemma_select_progress(s);
        },
        Phase::Preparing => {
            lemma_block(rest, k);
            if e is FolderMissing {
                let t = PipelineState { index: s.index + 1, phase: Phase::Selecting, ..s };
                lemma_select_progress(t);
            }
        },
        Phase::Running => {
            lemma_block(rest, k);
        },
        Phase::Finishing => {
            lemma_block(rest, k);
        },
        Phase::Disconnecting => {
            lemma_block(rest, k);
            if e is Disconnected {
                let t = PipelineState { index: s.index + 1, phase: Phase::Selecting, ..s };
                lemma_select_progress(t);
            }
        },
        Phase::Ended => {},
    }
}

/// The ended pipeline takes no event; every other phase takes some.
pub proof fn lemma_only_end_is_final(s: PipelineState)
    ensures
        s.phase == Phase::Ended <==> forall|e: Event| !accepts_spec(s.phase, e),
{
    if s.phase != Phase::Ended {
        let e = match s.phase {
            Phase::Selecting => Event::Proceed,
            Phase::Preparing => Event::Prepared,
            Phase::Running => Event::Canceled,
            Phase::Finishing => Event::Finished { stop_after_last_run: false },
            _ => Event::Disconnected,
        };
        assert(accepts_spec(s.phase, e));
    }
}

/// A step never goes back in the order, and never changes the benchmarks,
/// the stored id or the number of runs. With the benchmarks sorted by id,
/// they are therefore taken up in ascending order of their ids.
pub proof fn lemma_step_moves_forward(s: PipelineState, e: Event)
    requires
        state_wf(s),
        accepts_spec(s.phase, e),
    ensures
        next(s, e).0.index >= s.index,
        next(s, e).0.benches == s.benches,
        next(s, e).0.current_bench_id == s.current_bench_id,
        next(s, e).0.num_runs == s.num_runs,
{
}

/// A benchmark is handed out only when its id is above the stored id of the
/// last finished benchmark; a benchmark at or below it is skipped.
pub proof fn lemma_start_only_above_current(s: PipelineState, e: Event)
    requires
        state_wf(s),
        accepts_spec(s.phase, e),
    ensures
        match next(s, e).1 {
            ActionView::StartBench(id, path) => {
                &&& id > s.current_bench_id
                &&& next(s, e).0.index < s.benches.len()
                &&& s.benches[next(s, e).0.index] == (id, path)
            },
            ActionView::Skip(id) => id <= s.current_bench_id,
            _ => true,
        },
{
}

/// The runs of a benchmark are numbered 1, 2, ... up to the number of runs,
/// each following the one before it; the benchmark is finished only after
/// its last run (or at once when it has no runs).
pub proof fn lemma_runs_in_sequence(s: PipelineState, e: Event)
    requires
        state_wf(s),
        accepts_spec(s.phase, e),
    ensures
        match next(s, e).1 {
            ActionView::StartRun(id, run, total) => {
                &&& id == current_id(s)
                &&& total == s.num_runs
                &&& 1 <= run <= total
                &&& s.phase == Phase::Preparing ==> run == 1
                &&& s.phase == Phase::Running ==> run == s.run + 1
            },
            ActionView::FinishBench(id) => {
                &&& id == current_id(s)
                &&& s.phase == Phase::Running ==> s.run == s.num_runs
                &&& s.phase == Phase::Preparing ==> s.num_runs < 1
            },
            _ => true,
        },
{
}

/// The state after the events `es`, one after another, from `s`.
pub open spec fn run_events(s: PipelineState, es: Seq<Event>) -> PipelineState
    decreases es.len(),
{
    if es.len() == 0 {
        s
    } else {
        next(run_events(s, es.drop_last()), es.last()).0
    }
}

/// From state `t` on, nothing goes back before benchmark `i`: the pipeline
/// is past it, or still working on it.
pub open spec fn past_or_at(t: PipelineState, i: int) -> bool {
    t.index > i || (t.index == i && t.phase != Phase::Selecting)
}

/// One step keeps `past_or_at`, and a benchmark handed out in it lies past
/// benchmark `i`.
proof fn lemma_step_past_or_at(t: PipelineState, e: Event, i: int)
    requires
        state_wf(t),
        accepts_spec(t.phase, e),
        past_or_at(t, i),
    ensures
        state_wf(next(t, e).0),
        past_or_at(next(t, e).0, i),
        next(t, e).1 is StartBench ==> next(t, e).0.index > i,
{
    lemma_step_progress(t, e);
}

/// Along any run of accepted events, every state stays well-formed and at
/// or past the benchmark handed out at the start.
proof fn lemma_run_past_or_at(s: PipelineState, es: Seq<Event>, k: int)
    requires
        state_wf(s),
        s.phase == Phase::Preparing,
        0 <= k <= es.len(),
        forall|j: int| 0 <= j < es.len() ==> accepts_spec(#[trigger] run_events(s, es.take(j)).phase, es[j]),
    ensures
        state_wf(run_events(s, es.take(k))),
        past_or_at(run_events(s, es.take(k)), s.index),
    decreases k,
{
    if k == 0 {
        assert(es.take(0) =~= Seq::<Event>::empty());
    } else {
        lemma_run_past_or_at(s, es, k - 1);
        let t = run_events(s, es.take(k - 1));
        assert(es.take(k).drop_last() =~= es.take(k - 1));
        assert(es.take(k).last() == es[k - 1]);
        assert(accepts_spec(run_events(s, es.take(k - 1)).phase, es[k - 1]));
        lemma_step_past_or_at(t, es[k - 1], s.index);
    }
}

/// Each benchmark is handed out at most once: after benchmark `i` was
/// handed out, every benchmark handed out later lies past it in the order.
/// With the benchmarks sorted by id, they are handed out in ascending order
/// of their ids.
pub proof fn lemma_each_benchmark_once(s: PipelineState, es: Seq<Event>, k: int)
    requires
        state_wf(s),
        s.phase == Phase::Preparing,
        0 <= k < es.len(),
        forall|j: int| 0 <= j < es.len() ==> accepts_spec(#[trigger] run_events(s, es.take(j)).phase, es[j]),
        next(run_events(s, es.take(k)), es[k]).1 is StartBench,
    ensures
        run_events(s, es.take(k + 1)).index > s.index,
        s.benches[s.index].0 <= s.benches[run_events(s, es.take(k + 1)).index].0,
{
    lemma_run_past_or_at(s, es, k);
    let t = run_events(s, es.take(k));
    assert(es.take(k + 1).drop_last() =~= es.take(k));
    assert(es.take(k + 1).last() == es[k]);
    assert(accepts_spec(run_events(s, es.take(k)).phase, es[k]));
    lemma_step_past_or_at(t, es[k], s.index);
    lemma_step_moves_forward(t, es[k]);
    lemma_run_keeps_benches(s, es, k);
}

/// The benchmarks, the stored id and the number of runs never change along
/// a run of accepted events.
proof fn lemma_run_keeps_benches(s: PipelineState, es: Seq<Event>, k: int)
    requires
        state_wf(s),
        s.phase == Phase::Preparing,
        0 <= k <= es.len(),
        forall|j: int| 0 <= j < es.len() ==> accepts_spec(#[trigger] run_events(s, es.take(j)).phase, es[j]),
    ensures
        run_events(s, es.take(k)).benches == s.benches,
        k < es.len() ==> next(run_events(s, es.take(k)), es[k]).0.benches == s.benches,
    decreases k,
{
    lemma_run_past_or_at(s, es, k);
    if k > 0 {
        lemma_run_keeps_benches(s, es, k - 1);
        assert(es.take(k).drop_last() =~= es.take(k - 1));
        assert(es.take(k).last() == es[k - 1]);
        assert(accepts_spec(run_events(s, es.take(k - 1)).phase, es[k - 1]));
        lemma_run_past_or_at(s, es, k - 1);
        lemma_step_moves_forward(run_events(s, es.take(k - 1)), es[k - 1]);
    } else {
        assert(es.take(0) =~= Seq::<Event>::empty());
    }
    if k < es.len() {
        assert(accepts_spec(run_events(s, es.take(k)).phase, es[k]));
        lemma_step_moves_forward(run_events(s, es.take(k)), es[k]);
    }
}

/// A missing input folder skips only the benchmark at hand: the pipeline
/// goes on with the next one in order, handing it out when its id is above
/// the stored id (always so when the skipped one's was, the ids being
/// sorted), skipping it otherwise, and completes only when no benchmark is
/// left after the skipped one.
pub proof fn lemma_missing_folder_skips_one(s: PipelineState)
    requires
        state_wf(s),
        s.phase == Phase::Preparing,
    ensures
        ({
            let (t, a) = next(s, Event::FolderMissing);
            let k = s.index + 1;
            &&& t.benches == s.benches
            &&& t.current_bench_id == s.current_bench_id
            &&& t.num_runs == s.num_runs
            &&& (k < s.benches.len() && s.benches[k].0 > s.current_bench_id ==> {
                &&& a == ActionView::StartBench(s.benches[k].0, s.benches[k].1)
                &&& t.index == k
                &&& t.phase == Phase::Preparing
            })
            &&& (k < s.benches.len() && s.benches[k].0 <= s.current_bench_id ==> {
                &&& a == ActionView::Skip(s.benches[k].0)
                &&& t.index == k + 1
                &&& t.phase == Phase::Selecting
            })
            &&& (k < s.benches.len() && s.benches[s.index].0 > s.current_bench_id ==> a
                is StartBench)
            &&& (k >= s.benches.len() <==> a == ActionView::Complete)
            &&& (k >= s.benches.len() ==> t.phase == Phase::Ended)
        }),
{
    let k = s.index + 1;
    if k < s.benches.len() {
        assert(s.benches[s.index].0 <= s.benches[k].0);
    }
}

} // verus!
