use ir_bench::naming::{
    build_group_color_map, get_subfolder_datetime_part, palette_color, palette_colors,
    results_output_file_name, rgba, sanitize_filename_part, sorted_distinct,
    split_group_name_parts,
};

#[test]
fn group_name_splits_at_first_space() {
    assert_eq!(
        split_group_name_parts("2025-01-01_10.00.00 my bench run"),
        ("2025-01-01_10.00.00".to_string(), "my bench run".to_string())
    );
    assert_eq!(split_group_name_parts("single"), ("single".to_string(), String::new()));
}

#[test]
fn subfolder_datetime() {
    assert_eq!(get_subfolder_datetime_part(" 2025-01-01 x"), Some(String::new()));
    assert_eq!(get_subfolder_datetime_part("2025-01-01 x y"), Some("2025-01-01".to_string()));
    assert_eq!(get_subfolder_datetime_part("nodate"), None);
}

#[test]
fn sanitizes_file_name_parts() {
    assert_eq!(sanitize_filename_part(Some("a:b c")), Some("a_b_c".to_string()));
    assert_eq!(sanitize_filename_part(Some("x<y>|z?*")), Some("x_y__z__".to_string()));
    assert_eq!(sanitize_filename_part(Some("  two   words ")), Some("two_words".to_string()));
    assert_eq!(sanitize_filename_part(Some("   ")), Some("unknown".to_string()));
    assert_eq!(sanitize_filename_part(None), None);
}

#[test]
fn results_file_name_uses_latest_and_earliest() {
    let names = vec![
        "2025-01-02_10.00.00 x".to_string(),
        "2025-01-01_09.00.00 y".to_string(),
        "nodate".to_string(),
        "2025-01-03_08.00.00 z".to_string(),
    ];
    assert_eq!(
        results_output_file_name(&names),
        "2025-01-03_08.00.00_2025-01-01_09.00.00_results.ir_bench.rs.html"
    );
    assert_eq!(results_output_file_name(&vec!["plain".to_string()]), "results.ir_bench.rs.html");
    assert_eq!(results_output_file_name(&Vec::new()), "results.ir_bench.rs.html");
}

#[test]
fn palette_and_colors() {
    let p = palette_colors();
    assert_eq!(p.len(), 8);
    assert_eq!(p[0], "#636EFA");
    assert_eq!(palette_color(9), "#EF553B");
    assert_eq!(rgba("#636EFA", "0.18"), "rgba(99,110,250,0.18)");
    assert_eq!(rgba("00CC96", "0.35"), "rgba(0,204,150,0.35)");
    assert_eq!(rgba("#12345", "0.5"), "rgba(255,255,255,0.5)");
    assert_eq!(rgba("#zz0000", "1"), "rgba(255,0,0,1)");
}

#[test]
fn color_map_follows_sorted_names() {
    let map = build_group_color_map(vec!["b".to_string(), "a".to_string(), "b".to_string()]);
    assert_eq!(map.names, vec!["a".to_string(), "b".to_string()]);
    assert_eq!(map.get("a"), Some("#636EFA".to_string()));
    assert_eq!(map.get("b"), Some("#EF553B".to_string()));
    assert_eq!(map.get("c"), None);
}

#[test]
fn sorted_distinct_names() {
    let v = vec!["c".to_string(), "a".to_string(), "c".to_string(), "b".to_string()];
    assert_eq!(sorted_distinct(&v), vec!["a".to_string(), "b".to_string(), "c".to_string()]);
}

#[test]
fn results_file_name_is_clean() {
    let names = vec!["2025/01:02 a".to_string(), "  x y".to_string(), "*? z".to_string()];
    let name = results_output_file_name(&names);
    assert!(!name.chars().any(|c| "<>:\"/\\|?*".contains(c) || c.is_whitespace()));
    assert_eq!(name, "2025_01_02_unknown_results.ir_bench.rs.html");
}
