use ir_bench::order::{sort_benchmarks, BenchmarkOrderEntry};
use ir_bench::pipeline::{
    benchmark_output_folder_name, bench_ready_message, cleanup_for, creation_note, join_strings,
    launch_message, pipeline_error_message, pipeline_failed_message, run_output_file_name,
    run_start_message, start_program_args, stop_program_args, Action, Event, Phase, Pipeline,
    PipelineError,
};

fn entry(id: i32, path: &str) -> BenchmarkOrderEntry {
    BenchmarkOrderEntry { id, path: path.to_string() }
}

#[test]
fn order_is_by_id_and_stable() {
    let sorted = sort_benchmarks(vec![entry(3, "c"), entry(1, "a"), entry(3, "c2"), entry(2, "b")]);
    let ids: Vec<(i32, String)> = sorted.into_iter().map(|e| (e.id, e.path)).collect();
    assert_eq!(
        ids,
        vec![(1, "a".to_string()), (2, "b".to_string()), (3, "c".to_string()), (3, "c2".to_string())]
    );
}

#[test]
fn empty_order_file_is_an_error() {
    match Pipeline::new(Vec::new(), -1, 3) {
        Err(PipelineError::NoBenchmarks) => {}
        _ => panic!("expected no benchmarks"),
    }
    assert_eq!(
        pipeline_error_message(&PipelineError::NoBenchmarks),
        "No benchmarks found in the order file"
    );
}

#[test]
fn runs_benchmarks_above_current_id() {
    let mut p = match Pipeline::new(vec![entry(3, "in/c"), entry(1, "in/a"), entry(2, "in/b")], 1, 2) {
        Ok(p) => p,
        Err(_) => panic!("pipeline"),
    };
    assert!(p.accepts(&Event::Proceed));
    assert!(matches!(p.step(Event::Proceed), Action::Skip { id: 1 }));
    match p.step(Event::Proceed) {
        Action::StartBench { id, path } => {
            assert_eq!(id, 2);
            assert_eq!(path, "in/b");
        }
        _ => panic!("expected benchmark 2"),
    }
    assert!(!p.accepts(&Event::Proceed));
    assert!(matches!(p.step(Event::Prepared), Action::StartRun { id: 2, run: 1, total: 2 }));
    assert!(matches!(
        p.step(Event::RunSucceeded { stop_after_run: false }),
        Action::StartRun { id: 2, run: 2, total: 2 }
    ));
    assert!(matches!(
        p.step(Event::RunSucceeded { stop_after_run: false }),
        Action::FinishBench { id: 2 }
    ));
    assert!(matches!(
        p.step(Event::Finished { stop_after_last_run: false }),
        Action::WaitDisconnect { id: 2 }
    ));
    match p.step(Event::Disconnected) {
        Action::StartBench { id, path } => {
            assert_eq!(id, 3);
            assert_eq!(path, "in/c");
        }
        _ => panic!("expected benchmark 3"),
    }
    assert!(matches!(p.step(Event::FolderMissing), Action::Complete));
    assert!(!p.accepts(&Event::Proceed));
    assert!(!p.accepts(&Event::Disconnected));
}

#[test]
fn no_runs_goes_straight_to_finish() {
    let mut p = match Pipeline::new(vec![entry(5, "x")], -1, 0) {
        Ok(p) => p,
        Err(_) => panic!("pipeline"),
    };
    assert!(matches!(p.step(Event::Proceed), Action::StartBench { id: 5, .. }));
    assert!(matches!(p.step(Event::Prepared), Action::FinishBench { id: 5 }));
}

fn started(runs: i32) -> Pipeline {
    let mut p = match Pipeline::new(vec![entry(4, "d")], 0, runs) {
        Ok(p) => p,
        Err(_) => panic!("pipeline"),
    };
    assert!(matches!(p.step(Event::Proceed), Action::StartBench { id: 4, .. }));
    p
}

fn aborted(a: Action) -> PipelineError {
    match a {
        Action::Abort { error } => error,
        _ => panic!("expected an abort"),
    }
}

#[test]
fn errors_while_preparing() {
    let e = aborted(started(1).step(Event::Canceled));
    assert!(matches!(e, PipelineError::CanceledBeforeBenchmark { id: 4 }));
    assert_eq!(pipeline_error_message(&e), "Benchmark canceled by user before starting benchmark 4");
    let c = cleanup_for(&e);
    assert!(c.send_ready && !c.reset_bench_id && !c.open_report);

    let e = aborted(started(1).step(Event::CopyFailed { detail: "denied".to_string() }));
    assert_eq!(pipeline_error_message(&e), "Failed to copy benchmark files: denied");

    let e = aborted(started(1).step(Event::SetupFailed));
    assert!(matches!(e, PipelineError::BenchmarkFailed { id: 4 }));
    assert_eq!(pipeline_error_message(&e), "Benchmark 4 failed");
    let c = cleanup_for(&e);
    assert!(c.send_ready && c.reset_bench_id && c.open_report);

    let e = aborted(started(1).step(Event::GroupFolderFailed { detail: "x".to_string() }));
    assert_eq!(pipeline_error_message(&e), "Failed to create output group folder: x");
    let c = cleanup_for(&e);
    assert!(!c.send_ready && !c.reset_bench_id && !c.open_report);

    let e = aborted(started(1).step(Event::IniCopyFailed { detail: "y".to_string() }));
    assert_eq!(pipeline_error_message(&e), "Warning: failed copying iRacing INI files: y");

    let e = aborted(started(1).step(Event::OutputFolderFailed { detail: "z".to_string() }));
    assert_eq!(pipeline_error_message(&e), "Failed to create benchmark output folder: z");

    let e = aborted(started(1).step(Event::RunsFolderFailed { detail: "w".to_string() }));
    assert_eq!(pipeline_error_message(&e), "Failed to create benchmark runs output folder: w");
    assert!(cleanup_for(&e).send_ready);
}

#[test]
fn errors_while_running() {
    let mut p = started(3);
    assert!(matches!(p.step(Event::Prepared), Action::StartRun { run: 1, .. }));
    let e = aborted(p.step(Event::RunFailed { detail: "crash".to_string() }));
    assert!(matches!(e, PipelineError::RunFailed { id: 4, run: 1, .. }));
    assert_eq!(pipeline_error_message(&e), "Benchmark 4 run 1 failed: crash");
    let c = cleanup_for(&e);
    assert!(c.send_ready && c.reset_bench_id && !c.open_report);

    let mut p = started(3);
    p.step(Event::Prepared);
    let e = aborted(p.step(Event::Canceled));
    assert_eq!(pipeline_error_message(&e), "Benchmark canceled by user");

    let mut p = started(3);
    p.step(Event::Prepared);
    p.step(Event::RunSucceeded { stop_after_run: false });
    let e = aborted(p.step(Event::RunSucceeded { stop_after_run: true }));
    assert!(matches!(e, PipelineError::StopAfterRun { id: 4 }));
    assert_eq!(pipeline_error_message(&e), "Stop requested after current run for benchmark 4");

    let mut p = started(1);
    p.step(Event::Prepared);
    p.step(Event::RunSucceeded { stop_after_run: false });
    let e = aborted(p.step(Event::Finished { stop_after_last_run: true }));
    assert_eq!(
        pipeline_error_message(&e),
        "Stop requested after the last run of the current benchmark"
    );

    let mut p = started(1);
    p.step(Event::Prepared);
    p.step(Event::RunSucceeded { stop_after_run: false });
    p.step(Event::Finished { stop_after_last_run: false });
    let e = aborted(p.step(Event::DisconnectFailed));
    assert!(matches!(e, PipelineError::BenchmarkFailed { id: 4 }));
    assert!(!p.accepts(&Event::Disconnected));
}

#[test]
fn phase_is_comparable() {
    assert!(Phase::Selecting == Phase::Selecting);
    assert!(Phase::Running != Phase::Ended);
}

#[test]
fn output_names_and_messages() {
    assert_eq!(run_output_file_name("2025-01-01_10.00.00", 2, 3), "2025-01-01_10.00.00_run-2-of-3.csv");
    assert_eq!(benchmark_output_folder_name("2025-01-01_10.00.00", "bench_a"), "2025-01-01_10.00.00 bench_a");
    assert_eq!(run_start_message(4, 1, 3), "Starting benchmark 4 run 1/3...");
    assert_eq!(bench_ready_message(4), "Benchmark 4 setup completed, starting runs...");
    assert_eq!(creation_note("2025-01-01T10:00:00+00:00"), "Created by ir-bench-gui at 2025-01-01T10:00:00+00:00");
    assert_eq!(pipeline_failed_message("boom"), "Benchmark pipeline failed: boom");
    assert_eq!(
        pipeline_error_message(&PipelineError::BackupFailed { detail: "io".to_string() }),
        "Failed to back up iRacing ini files: io"
    );
}

#[test]
fn program_arguments() {
    assert_eq!(
        start_program_args("", "/out/run.csv"),
        vec!["--process_name", "iRacingSim64DX11", "--output_file", "/out/run.csv"]
    );
    assert_eq!(
        start_program_args("game", "o.csv"),
        vec!["--process_name", "game", "--output_file", "o.csv"]
    );
    let stop = stop_program_args("game", &vec!["--terminate_existing_session".to_string(), "--x".to_string()]);
    assert_eq!(stop, vec!["--process_name", "game", "--terminate_existing_session --x"]);
    assert_eq!(stop_program_args("", &Vec::new()), vec!["--process_name", "", ""]);
    assert_eq!(join_strings(&vec!["a".to_string(), "b".to_string(), "c".to_string()], ", "), "a, b, c");
    assert_eq!(join_strings(&Vec::new(), ", "), "");
    assert_eq!(
        launch_message("/bin/cap", &start_program_args("", "f.csv")),
        "Launching benchmark program: /bin/cap --process_name iRacingSim64DX11 --output_file f.csv"
    );
}
