use vstd::prelude::*;

use crate::naming::names_view;
use crate::numtext::{format_i64, parse_i32_spec, parse_i32_chars, signed_decimal, lemma_parse_signed_decimal, parse_int};
use crate::text::{
    ascii_lower_seq, ascii_lowercase_chars, chars_contain, chars_end_with, chars_of,
    chars_start_with, contains, ends_with, join, owned, push_str, starts_with, string_of, trim,
    trim_chars, to_lowercase, unicode_lowercase,
};

verus! {

// ---------------------------------------------------------------------------
// The benchmark settings
// ---------------------------------------------------------------------------

/// The settings of the benchmark window, as its configuration file holds
/// them.
pub struct ConfigData {
    pub output_folder: String,
    pub bench_vis_input_folder: String,
    pub bench_run_folder_name: String,
    pub input_file: String,
    pub current_bench_id_file: String,
    pub current_bench_id_override: i32,
    pub benchmark_program: String,
    pub sim_name: String,
    pub process_name: String,
    pub iracing_folder: String,
    pub num_runs: i32,
    pub play_speed: i32,
    pub connection_timeout: i32,
    pub verbose: bool,
    pub benchmark_terminate_args: Vec<String>,
}

/// The terminate flag that stops a running capture session.
pub open spec fn default_terminate_arg() -> Seq<char> {
    "--terminate_existing_session"@
}

/// The settings before any are made: no folders or programs, three runs at
/// normal speed, a two-minute connection timeout, quiet, and the flag that
/// ends an existing capture session.
pub open spec fn is_default_config(c: ConfigData) -> bool {
    &&& c.output_folder@.len() == 0
    &&& c.bench_vis_input_folder@.len() == 0
    &&& c.bench_run_folder_name@.len() == 0
    &&& c.input_file@.len() == 0
    &&& c.current_bench_id_file@.len() == 0
    &&& c.current_bench_id_override == 0
    &&& c.benchmark_program@.len() == 0
    &&& c.sim_name@.len() == 0
    &&& c.process_name@.len() == 0
    &&& c.iracing_folder@.len() == 0
    &&& c.num_runs == 3
    &&& c.play_speed == 1
    &&& c.connection_timeout == 120
    &&& !c.verbose
    &&& names_view(c.benchmark_terminate_args@) == seq![default_terminate_arg()]
}

impl Default for ConfigData {
    fn default() -> (r: ConfigData)
        ensures
            is_default_config(r),
    {
        let mut args: Vec<String> = Vec::new();
        args.push(owned("--terminate_existing_session"));
        let r = ConfigData {
            output_folder: String::new(),
            bench_vis_input_folder: String::new(),
            bench_run_folder_name: String::new(),
            input_file: String::new(),
            current_bench_id_file: String::new(),
            current_bench_id_override: 0,
            benchmark_program: String::new(),
            sim_name: String::new(),
            process_name: String::new(),
            iracing_folder: String::new(),
            num_runs: 3,
            play_speed: 1,
            connection_timeout: 120,
            verbose: false,
            benchmark_terminate_args: args,
        };
        assert(names_view(r.benchmark_terminate_args@) =~= seq![default_terminate_arg()]);
        r
    }
}

// ---------------------------------------------------------------------------
// Terminate arguments typed in the settings
// ---------------------------------------------------------------------------

/// What `json5::from_str::<Vec<String>>` gives for a text: its strings when
/// the text is a JSON5 array of strings, none otherwise.
pub uninterp spec fn json5_string_list(text: Seq<char>) -> Option<Seq<Seq<char>>>;

/// `json5::from_str::<Vec<String>>`: the strings of a JSON5 array, or none
/// when the text is no such array. Which texts are arrays of strings is the
/// JSON5 grammar, named here and not restated.
#[verifier::external_body]
fn parse_json5_strings(text: &str) -> (r: Option<Vec<String>>)
    ensures
        match r {
            Some(v) => json5_string_list(text@) == Some(names_view(v@)),
            None => json5_string_list(text@) is None,
        },
{
    json5::from_str::<Vec<String>>(text).ok()
}

/// The terminate arguments of the settings: the parsed list, or the default
/// flag alone when the text did not parse.
pub fn terminate_args_or_default(parsed: Option<Vec<String>>) -> (r: Vec<String>)
    ensures
        names_view(r@) == match parsed {
            Some(v) => names_view(v@),
            None => seq![default_terminate_arg()],
        },
{
    match parsed {
        Some(v) => v,
        None => {
            let mut args: Vec<String> = Vec::new();
            args.push(owned("--terminate_existing_session"));
            assert(names_view(args@) =~= seq![default_terminate_arg()]);
            args
        },
    }
}

/// The terminate arguments typed in the settings (a JSON5 list of strings),
/// or the default flag when the text is not such a list.
pub fn terminate_args_from_text(text: &str) -> (r: Vec<String>)
    ensures
        names_view(r@) == match json5_string_list(text@) {
            Some(v) => v,
            None => seq![default_terminate_arg()],
        },
{
    terminate_args_or_default(parse_json5_strings(text))
}

// ---------------------------------------------------------------------------
// Paths
// ---------------------------------------------------------------------------

/// Whether `Path::is_absolute` holds of a path. The rule is the one of the
/// platform the library is built for (a leading root on Unix; a drive or
/// share prefix with a root on Windows); within one build it depends on the
/// text alone, and it is named here rather than restated.
pub uninterp spec fn absolute_path(path: Seq<char>) -> bool;

/// The text of what `Path::join` of `path` onto `base` gives, read back with
/// `Path::to_string_lossy`. The separator and the handling of roots and
/// prefixes are those of the platform the library is built for, named here
/// rather than restated.
pub uninterp spec fn joined_path(base: Seq<char>, path: Seq<char>) -> Seq<char>;

/// `Path::is_absolute` on `path`.
#[verifier::external_body]
fn path_is_absolute(path: &str) -> (r: bool)
    ensures
        r == absolute_path(path@),
{
    std::path::Path::new(path).is_absolute()
}

/// `Path::join` of `path` onto `base`, read back as text with
/// `Path::to_string_lossy`, which always gives a string (a part that is not
/// UTF-8 would read as U+FFFD; two joined strings have none).
///
/// Onto an absolute base, the join stays absolute unless `path` is relative
/// and holds a `:`. `PathBuf::push` replaces the base with an absolute
/// `path`; a relative `path` is added after the base, except that on Windows
/// one with a root keeps only the base's prefix, and one with a drive prefix
/// but no root (`D:foo`, the only relative form with a prefix, and the case
/// left out) replaces the base.
#[verifier::external_body]
fn path_join(base: &str, path: &str) -> (r: String)
    ensures
        r@ == joined_path(base@, path@),
        absolute_path(base@) && path_resolvable(path@) ==> absolute_path(r@),
{
    std::path::Path::new(base).join(path).to_string_lossy().into_owned()
}

/// A path that joins onto an absolute base as an absolute path: one that is
/// absolute already, or one without a `:` (which rules out a drive-relative
/// Windows path such as `D:foo`).
pub open spec fn path_resolvable(path: Seq<char>) -> bool {
    absolute_path(path) || !path.contains(':')
}

/// A setting that making absolute leaves as it is: empty, or absolute.
pub open spec fn path_settled(path: Seq<char>) -> bool {
    path.len() == 0 || absolute_path(path)
}

/// A setting made absolute against the application folder: `after` is
/// `before` resolved, and when the folder is absolute and `before` joins
/// onto it as an absolute path, `after` is settled (empty or absolute), so
/// resolving it again leaves it as it is.
pub open spec fn setting_made_absolute(app_root: Seq<char>, before: Seq<char>, after: Seq<
    char,
>) -> bool {
    &&& after == absolute_setting(app_root, before)
    &&& absolute_path(app_root) && path_resolvable(before) ==> path_settled(after)
}

/// Making a setting absolute twice is making it absolute once, when the
/// application folder is absolute and the setting joins onto it as an
/// absolute path (so for each path setting of `sanitize_config_paths`).
pub proof fn lemma_made_absolute_twice(
    app_root: Seq<char>,
    before: Seq<char>,
    once: Seq<char>,
    twice: Seq<char>,
)
    requires
        absolute_path(app_root),
        path_resolvable(before),
        setting_made_absolute(app_root, before, once),
        setting_made_absolute(app_root, once, twice),
    ensures
        twice == once,
{
    lemma_settled_path_unchanged(app_root, once);
}

/// Making a settled setting absolute again changes nothing.
pub proof fn lemma_settled_path_unchanged(app_root: Seq<char>, path: Seq<char>)
    requires
        path_settled(path),
    ensures
        absolute_setting(app_root, path) == path,
{
}

/// A path made absolute against `base`: kept when it is absolute, else
/// joined onto `base`.
pub open spec fn resolved_against(base: Seq<char>, path: Seq<char>) -> Seq<char> {
    resolved_path_spec(path, absolute_path(path), joined_path(base, path))
}

/// A configured path made absolute against the application folder, as
/// text: empty when the setting is empty.
pub open spec fn absolute_setting(app_root: Seq<char>, path: Seq<char>) -> Seq<char> {
    if path.len() == 0 {
        Seq::empty()
    } else {
        resolved_against(app_root, path)
    }
}

/// The configuration file's path text under the application folder.
pub open spec fn config_path_spec(app_root: Seq<char>) -> Seq<char> {
    joined_path(app_root, "config/config.json5"@)
}

/// A path kept as it is when it is absolute, else the path joined onto
/// its base (`joined`).
pub open spec fn resolved_path_spec(path: Seq<char>, is_absolute: bool, joined: Seq<char>) -> Seq<
    char,
> {
    if is_absolute {
        path
    } else {
        joined
    }
}

/// Chooses between a path and the path joined onto its base.
pub fn resolve_path_with(path: &str, is_absolute: bool, joined: &str) -> (r: String)
    ensures
        r@ == resolved_path_spec(path@, is_absolute, joined@),
{
    if is_absolute {
        owned(path)
    } else {
        owned(joined)
    }
}

/// `path` when it is absolute, else `path` under `base`.
pub fn resolve_relative_path(base: &str, path: &str) -> (r: String)
    ensures
        r@ == resolved_against(base@, path@),
        absolute_path(base@) && path_resolvable(path@) ==> absolute_path(r@),
{
    let absolute = path_is_absolute(path);
    if absolute {
        return resolve_path_with(path, true, "");
    }
    let joined = path_join(base, path);
    resolve_path_with(path, false, joined.as_str())
}

/// The configuration file, `config/config.json5` under the application
/// folder.
pub fn get_config_path(app_root: &str) -> (r: String)
    ensures
        r@ == config_path_spec(app_root@),
{
    path_join(app_root, "config/config.json5")
}

/// A configured path made absolute against the application folder; none
/// for an empty path.
pub fn get_absolute_path(app_root: &str, path: &str) -> (r: Option<String>)
    ensures
        r is None <==> path@.len() == 0,
        match r {
            Some(p) => {
                &&& p@ == resolved_against(app_root@, path@)
                &&& absolute_path(app_root@) && path_resolvable(path@) ==> absolute_path(p@)
            },
            None => true,
        },
{
    if path.is_empty() {
        return None;
    }
    Some(resolve_relative_path(app_root, path))
}

/// A configured path made absolute, as text; empty for an empty path.
pub fn absolute_path_str_to_string(app_root: &str, path: &str) -> (r: String)
    ensures
        setting_made_absolute(app_root@, path@, r@),
{
    match get_absolute_path(app_root, path) {
        Some(p) => p,
        None => String::new(),
    }
}

/// Makes the configured folders, files and programs absolute against the
/// application folder; the other settings stay as they are.
pub fn sanitize_config_paths(cfg: &mut ConfigData, app_root: &str)
    ensures
        setting_made_absolute(app_root@, old(cfg).output_folder@, final(cfg).output_folder@),
        setting_made_absolute(app_root@, old(cfg).bench_vis_input_folder@, final(cfg).bench_vis_input_folder@),
        setting_made_absolute(app_root@, old(cfg).input_file@, final(cfg).input_file@),
        setting_made_absolute(app_root@, old(cfg).current_bench_id_file@, final(cfg).current_bench_id_file@),
        setting_made_absolute(app_root@, old(cfg).benchmark_program@, final(cfg).benchmark_program@),
        setting_made_absolute(app_root@, old(cfg).iracing_folder@, final(cfg).iracing_folder@),
        final(cfg).bench_run_folder_name == old(cfg).bench_run_folder_name,
        final(cfg).current_bench_id_override == old(cfg).current_bench_id_override,
        final(cfg).sim_name == old(cfg).sim_name,
        final(cfg).process_name == old(cfg).process_name,
        final(cfg).num_runs == old(cfg).num_runs,
        final(cfg).play_speed == old(cfg).play_speed,
        final(cfg).connection_timeout == old(cfg).connection_timeout,
        final(cfg).verbose == old(cfg).verbose,
        final(cfg).benchmark_terminate_args == old(cfg).benchmark_terminate_args,
{
    cfg.output_folder = absolute_path_str_to_string(app_root, cfg.output_folder.as_str());
    cfg.bench_vis_input_folder = absolute_path_str_to_string(
        app_root,
        cfg.bench_vis_input_folder.as_str(),
    );
    cfg.input_file = absolute_path_str_to_string(app_root, cfg.input_file.as_str());
    cfg.current_bench_id_file = absolute_path_str_to_string(
        app_root,
        cfg.current_bench_id_file.as_str(),
    );
    cfg.benchmark_program = absolute_path_str_to_string(app_root, cfg.benchmark_program.as_str());
    cfg.iracing_folder = absolute_path_str_to_string(app_root, cfg.iracing_folder.as_str());
}

/// What `Path::file_name` gives for a path, read as UTF-8: its final
/// component, none when the path ends in `..` or has no final component
/// (an empty path, a root) or that component is not UTF-8. The separators are those of the platform the
/// library is built for, named here rather than restated.
pub uninterp spec fn final_component(path: Seq<char>) -> Option<Seq<char>>;

/// `Path::file_name` of `path`, read as UTF-8.
#[verifier::external_body]
fn path_file_name(path: &str) -> (r: Option<String>)
    ensures
        match r {
            Some(n) => final_component(path@) == Some(n@),
            None => final_component(path@) is None,
        },
{
    std::path::Path::new(path).file_name().and_then(|n| n.to_str()).map(|s| s.to_string())
}

/// The folder name of a benchmark: the last component of its path, or the
/// path itself when it has none.
pub fn bench_folder_name_with(path: &str, file_name: Option<&str>) -> (r: String)
    ensures
        r@ == match file_name {
            Some(n) => n@,
            None => path@,
        },
{
    match file_name {
        Some(n) => owned(n),
        None => owned(path),
    }
}

/// The folder name of a benchmark entry's path.
pub fn bench_folder_name(path: &str) -> (r: String)
    ensures
        r@ == match final_component(path@) {
            Some(n) => n,
            None => path@,
        },
{
    match path_file_name(path) {
        Some(n) => bench_folder_name_with(path, Some(n.as_str())),
        None => bench_folder_name_with(path, None),
    }
}

// ---------------------------------------------------------------------------
// Checks before a benchmark
// ---------------------------------------------------------------------------

/// Why the benchmark cannot start with the settings.
pub enum ConfigError {
    BenchmarkProgramNotConfigured,
    IracingFolderNotConfigured,
    OutputFolderNotConfigured,
}

/// The first setting that a benchmark needs and lacks: the benchmark
/// program, then the simulator folder, then the output folder.
pub open spec fn config_check_spec(c: ConfigData) -> Option<ConfigError> {
    if c.benchmark_program@.len() == 0 {
        Some(ConfigError::BenchmarkProgramNotConfigured)
    } else if c.iracing_folder@.len() == 0 {
        Some(ConfigError::IracingFolderNotConfigured)
    } else if c.output_folder@.len() == 0 {
        Some(ConfigError::OutputFolderNotConfigured)
    } else {
        None
    }
}

/// Checks that the settings name the benchmark program and the folders.
pub fn validate_pipeline_config(cfg: &ConfigData) -> (r: Result<(), ConfigError>)
    ensures
        match config_check_spec(*cfg) {
            Some(e) => r == Err::<(), ConfigError>(e),
            None => r is Ok,
        },
{
    if cfg.benchmark_program.as_str().is_empty() {
        return Err(ConfigError::BenchmarkProgramNotConfigured);
    }
    if cfg.iracing_folder.as_str().is_empty() {
        return Err(ConfigError::IracingFolderNotConfigured);
    }
    if cfg.output_folder.as_str().is_empty() {
        return Err(ConfigError::OutputFolderNotConfigured);
    }
    Ok(())
}

/// Checks that the settings name the simulator folder, which the file
/// copies need.
pub fn check_iracing_folder(cfg: &ConfigData) -> (r: Result<(), ConfigError>)
    ensures
        r is Ok <==> cfg.iracing_folder@.len() > 0,
        r is Err ==> r == Err::<(), ConfigError>(ConfigError::IracingFolderNotConfigured),
{
    if cfg.iracing_folder.as_str().is_empty() {
        Err(ConfigError::IracingFolderNotConfigured)
    } else {
        Ok(())
    }
}

/// The message of a settings error.
pub fn config_error_message(e: &ConfigError) -> (r: String)
    ensures
        r@ == match e {
            ConfigError::BenchmarkProgramNotConfigured => "Benchmark program not configured"@,
            ConfigError::IracingFolderNotConfigured => "iRacing folder not configured"@,
            ConfigError::OutputFolderNotConfigured => "Output folder not configured"@,
        },
{
    match e {
        ConfigError::BenchmarkProgramNotConfigured => owned("Benchmark program not configured"),
        ConfigError::IracingFolderNotConfigured => owned("iRacing folder not configured"),
        ConfigError::OutputFolderNotConfigured => owned("Output folder not configured"),
    }
}

/// The benchmark id that the settings force, when they force one (a
/// positive override).
pub fn bench_id_override(cfg: &ConfigData) -> (r: Option<i32>)
    ensures
        r == if cfg.current_bench_id_override > 0 {
            Some(cfg.current_bench_id_override)
        } else {
            None::<i32>
        },
{
    if cfg.current_bench_id_override > 0 {
        Some(cfg.current_bench_id_override)
    } else {
        None
    }
}

// ---------------------------------------------------------------------------
// The current-benchmark file
// ---------------------------------------------------------------------------

/// The benchmark id that the current-benchmark file holds: its trimmed text
/// read as an `i32`, or -1 when it is not one.
pub open spec fn bench_id_from_text(content: Seq<char>) -> i32 {
    match parse_i32_spec(trim(content)) {
        Some(v) => v,
        None => -1i32,
    }
}

/// Reads the id of the last finished benchmark from the file's text.
pub fn parse_bench_id(content: &str) -> (r: i32)
    ensures
        r == bench_id_from_text(content@),
{
    let s = chars_of(content);
    let t = trim_chars(&s);
    match parse_i32_chars(&t) {
        Some(v) => v,
        None => -1,
    }
}

/// The text written to the current-benchmark file for an id.
pub fn bench_id_text(bench_id: i32) -> (r: String)
    ensures
        r@ == signed_decimal(bench_id as int),
{
    string_of(&format_i64(bench_id as i64))
}

/// Reading the current-benchmark file gives back the id that was written
/// to it.
pub proof fn lemma_bench_id_roundtrip(bench_id: i32)
    ensures
        bench_id_from_text(signed_decimal(bench_id as int)) == bench_id,
{
    lemma_parse_signed_decimal(bench_id as int);
    crate::numtext::lemma_decimal_digits(if bench_id < 0 {
        (-bench_id) as nat
    } else {
        bench_id as nat
    });
    lemma_trim_no_space(signed_decimal(bench_id as int));
}

/// A decimal number has no white space to trim.
proof fn lemma_trim_no_space(s: Seq<char>)
    requires
        s.len() > 0,
        forall|i: int| 0 <= i < s.len() ==> s[i] == '-' || crate::numtext::is_digit(s[i]),
    ensures
        trim(s) == s,
{
    assert(crate::text::trim_start(s) == s);
    assert(crate::text::trim_end(s) == s);
}

// ---------------------------------------------------------------------------
// Files that a benchmark run uses
// ---------------------------------------------------------------------------

/// A simulator settings file or a benchmark file: its name, lower-cased,
/// ends with `.ini` or holds `.ir_bench.`.
pub open spec fn is_bench_config_file_spec(file_name: Seq<char>) -> bool {
    let lower = unicode_lowercase(file_name);
    ends_with(lower, ".ini"@) || contains(lower, ".ir_bench."@)
}

/// Whether a file is copied into, out of, or backed up from the simulator
/// folder.
pub fn is_bench_config_file(file_name: &str) -> (r: bool)
    ensures
        r == is_bench_config_file_spec(file_name@),
{
    let lower = to_lowercase(file_name);
    let l = chars_of(lower.as_str());
    chars_end_with(&l, &chars_of(".ini")) || chars_contain(&l, &chars_of(".ir_bench."))
}

/// The files among `file_names` (the plain files of a folder) that a copy of
/// the settings takes, in their order.
pub fn select_bench_config_files(file_names: &Vec<String>) -> (r: Vec<String>)
    ensures
        names_view(r@) == names_view(file_names@).filter(
            |n: Seq<char>| is_bench_config_file_spec(n),
        ),
{
    let ghost f = |n: Seq<char>| is_bench_config_file_spec(n);
    let mut r: Vec<String> = Vec::new();
    let mut i: usize = 0;
    while i < file_names.len()
        invariant
            i <= file_names.len(),
            f == (|n: Seq<char>| is_bench_config_file_spec(n)),
            names_view(r@) == names_view(file_names@).take(i as int).filter(f),
        decreases file_names.len() - i,
    {
        let ghost t = names_view(file_names@).take(i + 1);
        assert(t.drop_last() =~= names_view(file_names@).take(i as int));
        assert(t.last() == file_names@[i as int]@);
        let ghost before = names_view(r@);
        let keep = is_bench_config_file(file_names[i].as_str());
        if keep {
            r.push(owned(file_names[i].as_str()));
            assert(names_view(r@) =~= before.push(t.last()));
        } else {
            assert(names_view(r@) =~= before);
        }
        assert(keep == f(t.last()));
        proof {
            assert(t.filter(f) == t.drop_last().filter(f) + if f(t.last()) {
                seq![t.last()]
            } else {
                Seq::<Seq<char>>::empty()
            }) by {
                reveal(Seq::filter);
            }
            assert(names_view(r@) =~= t.filter(f));
        }
        i = i + 1;
    }
    assert(names_view(file_names@).take(file_names.len() as int) =~= names_view(file_names@));
    r
}

/// A run recording: a CSV file whose name holds the run marker.
pub open spec fn is_run_csv_spec(file_name: Seq<char>, marker: Seq<char>) -> bool {
    ends_with(file_name, ".csv"@) && contains(file_name, marker)
}

/// Whether a file is a run recording.
pub fn is_run_csv_file(file_name: &str, marker: &str) -> (r: bool)
    ensures
        r == is_run_csv_spec(file_name@, marker@),
{
    let n = chars_of(file_name);
    chars_end_with(&n, &chars_of(".csv")) && chars_contain(&n, &chars_of(marker))
}

/// A result group folder: one whose name does not begin with a dot.
pub fn is_group_folder_name(folder_name: &str) -> (r: bool)
    ensures
        r == !(folder_name@.len() > 0 && folder_name@[0] == '.'),
{
    let n = chars_of(folder_name);
    !(n.len() > 0 && n[0] == '.')
}

/// What a file of a result group holds.
pub enum GroupFileKind {
    /// Simulator settings (`*.ini`).
    Ini,
    /// A benchmark note (`*.ir_bench.*`, any case).
    Note,
    /// A run recording (`*.csv` with `run-` in the name).
    RunCsv,
    /// Anything else.
    Other,
}

/// How a result group reads a file, by its name: settings first, then
/// notes, then run recordings.
pub open spec fn group_file_kind_spec(file_name: Seq<char>) -> GroupFileKind {
    if ends_with(file_name, ".ini"@) {
        GroupFileKind::Ini
    } else if contains(ascii_lower_seq(file_name), ".ir_bench."@) {
        GroupFileKind::Note
    } else if is_run_csv_spec(file_name, "run-"@) {
        GroupFileKind::RunCsv
    } else {
        GroupFileKind::Other
    }
}

/// What a file of a result group holds, by its name.
pub fn classify_group_file(file_name: &str) -> (r: GroupFileKind)
    ensures
        r == group_file_kind_spec(file_name@),
{
    let n = chars_of(file_name);
    if chars_end_with(&n, &chars_of(".ini")) {
        return GroupFileKind::Ini;
    }
    let lower = ascii_lowercase_chars(&n);
    if chars_contain(&lower, &chars_of(".ir_bench.")) {
        return GroupFileKind::Note;
    }
    if is_run_csv_file(file_name, "run-") {
        return GroupFileKind::RunCsv;
    }
    GroupFileKind::Other
}

/// The position of column `name` among the header fields.
pub fn find_column(headers: &Vec<String>, name: &str) -> (r: Option<usize>)
    ensures
        match r {
            Some(i) => i < headers@.len() && headers@[i as int]@ == name@ && forall|j: int|
                0 <= j < i ==> headers@[j]@ != name@,
            None => forall|j: int| 0 <= j < headers@.len() ==> headers@[j]@ != name@,
        },
{
    let mut i: usize = 0;
    while i < headers.len()
        invariant
            i <= headers.len(),
            forall|j: int| 0 <= j < i ==> headers@[j]@ != name@,
        decreases headers.len() - i,
    {
        if crate::text::str_equal(headers[i].as_str(), name) {
            return Some(i);
        }
        i = i + 1;
    }
    None
}

} // verus!
