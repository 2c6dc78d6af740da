use ir_bench::config::{
    absolute_path_str_to_string, bench_folder_name, bench_folder_name_with, bench_id_override,
    bench_id_text, check_iracing_folder, classify_group_file, config_error_message,
    find_column, get_absolute_path, get_config_path, is_bench_config_file, is_group_folder_name,
    is_run_csv_file, parse_bench_id, resolve_path_with, resolve_relative_path,
    sanitize_config_paths, select_bench_config_files, terminate_args_from_text,
    terminate_args_or_default, validate_pipeline_config, ConfigData, ConfigError, GroupFileKind,
};

#[test]
fn default_settings() {
    let c = ConfigData::default();
    assert_eq!(c.output_folder, "");
    assert_eq!(c.num_runs, 3);
    assert_eq!(c.play_speed, 1);
    assert_eq!(c.connection_timeout, 120);
    assert!(!c.verbose);
    assert_eq!(c.current_bench_id_override, 0);
    assert_eq!(c.benchmark_terminate_args, vec!["--terminate_existing_session".to_string()]);
}

#[test]
fn absolute_paths_against_app_root() {
    assert_eq!(get_absolute_path("/app", ""), None);
    assert_eq!(get_absolute_path("/app", "/data/out"), Some("/data/out".to_string()));
    assert_eq!(get_absolute_path("/app", "out/runs"), Some("/app/out/runs".to_string()));
    assert_eq!(absolute_path_str_to_string("/app", ""), "");
    assert_eq!(absolute_path_str_to_string("/app", "x"), "/app/x");
    assert_eq!(get_config_path("/app"), "/app/config/config.json5");
    assert_eq!(resolve_relative_path("/base", "rel/id.txt"), "/base/rel/id.txt");
    assert_eq!(resolve_relative_path("/base", "/abs/id.txt"), "/abs/id.txt");
}

#[test]
fn resolve_choice() {
    assert_eq!(resolve_path_with("p", true, "j"), "p");
    assert_eq!(resolve_path_with("p", false, "j"), "j");
}

#[test]
fn sanitizes_only_paths() {
    let mut c = ConfigData::default();
    c.output_folder = "out".to_string();
    c.iracing_folder = "/sim".to_string();
    c.bench_run_folder_name = "runs".to_string();
    c.process_name = "proc".to_string();
    sanitize_config_paths(&mut c, "/app");
    assert_eq!(c.output_folder, "/app/out");
    assert_eq!(c.iracing_folder, "/sim");
    assert_eq!(c.input_file, "");
    assert_eq!(c.benchmark_program, "");
    assert_eq!(c.bench_run_folder_name, "runs");
    assert_eq!(c.process_name, "proc");
    assert_eq!(c.num_runs, 3);
}

#[test]
fn benchmark_folder_names() {
    assert_eq!(bench_folder_name("inputs/bench_a"), "bench_a");
    assert_eq!(bench_folder_name("bench_b"), "bench_b");
    assert_eq!(bench_folder_name(""), "");
    assert_eq!(bench_folder_name_with("a/..", None), "a/..");
    assert_eq!(bench_folder_name_with("a/b", Some("b")), "b");
}

#[test]
fn validation_reports_first_missing_setting() {
    let mut c = ConfigData::default();
    assert!(matches!(validate_pipeline_config(&c), Err(ConfigError::BenchmarkProgramNotConfigured)));
    c.benchmark_program = "/bin/capture".to_string();
    assert!(matches!(validate_pipeline_config(&c), Err(ConfigError::IracingFolderNotConfigured)));
    assert!(matches!(check_iracing_folder(&c), Err(ConfigError::IracingFolderNotConfigured)));
    c.iracing_folder = "/sim".to_string();
    assert!(check_iracing_folder(&c).is_ok());
    assert!(matches!(validate_pipeline_config(&c), Err(ConfigError::OutputFolderNotConfigured)));
    c.output_folder = "/out".to_string();
    assert!(validate_pipeline_config(&c).is_ok());
}

#[test]
fn setting_error_messages() {
    assert_eq!(
        config_error_message(&ConfigError::BenchmarkProgramNotConfigured),
        "Benchmark program not configured"
    );
    assert_eq!(
        config_error_message(&ConfigError::IracingFolderNotConfigured),
        "iRacing folder not configured"
    );
    assert_eq!(
        config_error_message(&ConfigError::OutputFolderNotConfigured),
        "Output folder not configured"
    );
}

#[test]
fn bench_id_override_only_when_positive() {
    let mut c = ConfigData::default();
    assert_eq!(bench_id_override(&c), None);
    c.current_bench_id_override = -3;
    assert_eq!(bench_id_override(&c), None);
    c.current_bench_id_override = 4;
    assert_eq!(bench_id_override(&c), Some(4));
}

#[test]
fn bench_id_file_round_trip() {
    for id in [0, 7, -1, i32::MAX, i32::MIN] {
        assert_eq!(parse_bench_id(&bench_id_text(id)), id);
    }
    assert_eq!(parse_bench_id("  12\n"), 12);
    assert_eq!(parse_bench_id("abc"), -1);
    assert_eq!(parse_bench_id(""), -1);
    assert_eq!(bench_id_text(-5), "-5");
}

#[test]
fn bench_config_files() {
    assert!(is_bench_config_file("RENDERER.INI"));
    assert!(is_bench_config_file("ÄÖÜ.IR_BENCH.MD"));
    assert!(is_bench_config_file("Renderer.Ini"));
    assert!(is_bench_config_file("notes.IR_BENCH.md"));
    assert!(!is_bench_config_file("readme.txt"));
    assert!(!is_bench_config_file("x.ini.bak"));
    let names = vec![
        "a.ini".to_string(),
        "b.txt".to_string(),
        "c.ir_bench.md".to_string(),
        "D.INI".to_string(),
    ];
    assert_eq!(
        select_bench_config_files(&names),
        vec!["a.ini".to_string(), "c.ir_bench.md".to_string(), "D.INI".to_string()]
    );
}

#[test]
fn run_files_and_group_folders() {
    assert!(is_run_csv_file("2025_run-1-of-3.csv", "run-"));
    assert!(!is_run_csv_file("2025_run-1-of-3.txt", "run-"));
    assert!(!is_run_csv_file("summary.csv", "run-"));
    assert!(is_group_folder_name("2025-01-01 test"));
    assert!(!is_group_folder_name(".backup"));
    assert!(is_group_folder_name(""));
}

#[test]
fn group_file_kinds() {
    assert!(matches!(classify_group_file("app.ini"), GroupFileKind::Ini));
    assert!(matches!(classify_group_file("comments.IR_BENCH.md"), GroupFileKind::Note));
    assert!(matches!(classify_group_file("x_run-1-of-2.csv"), GroupFileKind::RunCsv));
    assert!(matches!(classify_group_file("other.csv"), GroupFileKind::Other));
    assert!(matches!(classify_group_file("APP.INI"), GroupFileKind::Other));
}

#[test]
fn csv_column_lookup() {
    let headers = vec!["Application".to_string(), "MsBetweenPresents".to_string()];
    assert_eq!(find_column(&headers, "MsBetweenPresents"), Some(1));
    assert_eq!(find_column(&headers, "Missing"), None);
}

#[test]
fn terminate_arguments_from_settings_text() {
    assert_eq!(
        terminate_args_from_text("[\"--a\", \"--b\"]"),
        vec!["--a".to_string(), "--b".to_string()]
    );
    assert_eq!(terminate_args_from_text("['--x',]"), vec!["--x".to_string()]);
    assert_eq!(
        terminate_args_from_text("--terminate"),
        vec!["--terminate_existing_session".to_string()]
    );
    assert_eq!(terminate_args_or_default(None), vec!["--terminate_existing_session".to_string()]);
    assert_eq!(terminate_args_or_default(Some(vec![])), Vec::<String>::new());
}

#[test]
fn relative_paths_always_join() {
    assert_eq!(resolve_relative_path("/base/", "x"), "/base/x");
    assert_eq!(resolve_relative_path("", "x"), "x");
    assert_eq!(get_absolute_path("/app", "a/b"), Some("/app/a/b".to_string()));
}

#[test]
fn sanitizing_twice_is_sanitizing_once() {
    let mut c = ConfigData::default();
    c.output_folder = "out".to_string();
    c.input_file = "/abs/order.json5".to_string();
    c.iracing_folder = "sim/dir".to_string();
    sanitize_config_paths(&mut c, "/app");
    let once = (c.output_folder.clone(), c.input_file.clone(), c.iracing_folder.clone(), c.benchmark_program.clone());
    sanitize_config_paths(&mut c, "/app");
    assert_eq!((c.output_folder.clone(), c.input_file.clone(), c.iracing_folder.clone(), c.benchmark_program.clone()), once);
    assert_eq!(once.0, "/app/out");
    assert_eq!(once.3, "");
    assert_eq!(get_absolute_path("/app", &once.0), Some(once.0.clone()));
}
