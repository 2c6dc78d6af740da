use ir_bench::ini::parse_ini_text;
use ir_bench::naming::build_group_color_map;
use ir_bench::report::{
    build_ini_comparison_table_html, build_ini_link_legend_html, build_notes_rows_html,
    cell_style_of, choose_diff_color, find_number, format_elapsed, get_ini_all_keys,
    group_name_list, group_name_of_run, insert_named, metric_indicator, sort_groups_by_name,
    summary_baseline, summary_state_and_background, DiffColor, GroupReport, Named, NumKey,
    NumberEntry, build_summary_row_html, SummaryCell,
};

fn esc(s: &str) -> String {
    s.replace('&', "&amp;")
        .replace('<', "&lt;")
        .replace('>', "&gt;")
        .replace('"', "&quot;")
        .replace('\'', "&#39;")
}

fn group(name: &str) -> GroupReport {
    GroupReport::new(name.to_string())
}

#[test]
fn diff_colors() {
    let n = |k: i64| Some(NumKey::Ordered(k));
    assert!(choose_diff_color("", "x", None, None) == DiffColor::Better);
    assert!(choose_diff_color("x", "", None, None) == DiffColor::Worse);
    assert!(choose_diff_color("1", "2", n(1), n(2)) == DiffColor::Better);
    assert!(choose_diff_color("2", "1", n(2), n(1)) == DiffColor::Worse);
    assert!(choose_diff_color("1.0", "1", n(1), n(1)) == DiffColor::Equal);
    assert!(choose_diff_color("NaN", "1", Some(NumKey::Unordered), n(1)) == DiffColor::Equal);
    assert!(choose_diff_color("abc", "abc", None, None) == DiffColor::Equal);
    assert!(choose_diff_color("abc", "abd", None, None) == DiffColor::Worse);
    assert!(choose_diff_color("1", "abc", n(1), None) == DiffColor::Worse);
    assert!(choose_diff_color("", "", None, None) == DiffColor::Equal);
}

#[test]
fn cell_styles() {
    assert_eq!(cell_style_of(true, DiffColor::Worse).1, "baseline");
    let (c, s, d, _) = cell_style_of(false, DiffColor::Better);
    assert_eq!((c, s, d), ("#a5f09d", "changed", "better"));
    let (c, s, d, _) = cell_style_of(false, DiffColor::Equal);
    assert_eq!((c, s, d), ("#8ec7ff", "equal", "equal"));
}

#[test]
fn numbers_are_found_by_text() {
    let numbers = vec![
        NumberEntry { text: "1".to_string(), key: NumKey::Ordered(10) },
        NumberEntry { text: "NaN".to_string(), key: NumKey::Unordered },
    ];
    assert!(find_number(&numbers, "1") == Some(NumKey::Ordered(10)));
    assert!(find_number(&numbers, "NaN") == Some(NumKey::Unordered));
    assert!(find_number(&numbers, "x") == None);
}

#[test]
fn summary_states() {
    let k = |v: i64| Some(NumKey::Ordered(v));
    assert_eq!(summary_state_and_background(k(5), k(9), true).0, "baseline");
    assert_eq!(summary_state_and_background(k(5), k(9), false).0, "better");
    assert_eq!(summary_state_and_background(k(9), k(5), false).0, "worse");
    assert_eq!(summary_state_and_background(k(5), k(5), false).0, "equal");
    assert_eq!(summary_state_and_background(None, k(5), false).0, "equal");
    assert_eq!(metric_indicator(NumKey::Ordered(1), k(2)), ("better", "\u{25b2}"));
    assert_eq!(metric_indicator(NumKey::Ordered(3), k(2)), ("worse", "\u{25bc}"));
    assert_eq!(metric_indicator(NumKey::Ordered(2), None), ("equal", "="));
    assert_eq!(summary_baseline(&vec![false, true, true]), Some(1));
    assert_eq!(summary_baseline(&vec![false, false]), Some(0));
    assert_eq!(summary_baseline(&Vec::new()), None);
}

#[test]
fn elapsed_times() {
    assert_eq!(format_elapsed(0), "0ms");
    assert_eq!(format_elapsed(999), "999ms");
    assert_eq!(format_elapsed(1000), "1.000s");
    assert_eq!(format_elapsed(61_005), "61.005s");
}

#[test]
fn run_group_names() {
    let a = vec![Some("runs".to_string()), Some("2025 bench".to_string()), Some("top".to_string())];
    assert_eq!(group_name_of_run(&a, "runs"), Some("2025 bench".to_string()));
    assert_eq!(group_name_of_run(&a, "other"), Some("runs".to_string()));
    let b = vec![Some("runs".to_string()), None];
    assert_eq!(group_name_of_run(&b, "runs"), Some("unknown".to_string()));
    let c = vec![Some("runs".to_string())];
    assert_eq!(group_name_of_run(&c, "runs"), None);
    assert_eq!(group_name_of_run(&Vec::new(), "runs"), None);
}

#[test]
fn named_lists_stay_sorted() {
    let mut v: Vec<Named<i32>> = Vec::new();
    insert_named(&mut v, "b".to_string(), 1);
    insert_named(&mut v, "a".to_string(), 2);
    insert_named(&mut v, "c".to_string(), 3);
    insert_named(&mut v, "b".to_string(), 4);
    let got: Vec<(String, i32)> = v.into_iter().map(|e| (e.name, e.value)).collect();
    assert_eq!(got, vec![("a".to_string(), 2), ("b".to_string(), 4), ("c".to_string(), 3)]);
}

#[test]
fn group_files_are_taken_in() {
    let mut g = group("2025 g");
    g.add_file("b.ini".to_string(), "/r/g/b.ini".to_string(), Some("k=1".to_string()));
    g.add_file("a.ini".to_string(), "/r/g/a.ini".to_string(), None);
    g.add_file("n.ir_bench.md".to_string(), "/r/g/n.ir_bench.md".to_string(), Some("  hi \n".to_string()));
    g.add_file("e.ir_bench.txt".to_string(), "/r/g/e.ir_bench.txt".to_string(), Some("   ".to_string()));
    g.add_file("x_run-1-of-1.csv".to_string(), "/r/g/x.csv".to_string(), Some("a,b".to_string()));
    let links: Vec<(String, String)> = g.ini_links.iter().map(|e| (e.name.clone(), e.value.clone())).collect();
    assert_eq!(
        links,
        vec![("a.ini".to_string(), "/r/g/a.ini".to_string()), ("b.ini".to_string(), "/r/g/b.ini".to_string())]
    );
    assert_eq!(g.ini_files.len(), 1);
    assert_eq!(g.ini_files[0].name, "b.ini");
    assert_eq!(g.ini_files[0].value.value_of("k"), Some("1".to_string()));
    assert_eq!(g.notes.len(), 1);
    assert_eq!(g.notes[0].name, "n.ir_bench.md");
    assert_eq!(g.notes[0].value, "hi");
}

#[test]
fn groups_sorted_by_name() {
    let groups = vec![group("b"), group("a"), group("c"), group("a")];
    let sorted = sort_groups_by_name(groups);
    assert_eq!(group_name_list(&sorted), vec!["a", "a", "b", "c"]);
}

#[test]
fn notes_rows() {
    let mut g1 = group("2025-01-01 base");
    g1.add_file("notes.ir_bench.MD".to_string(), "p".to_string(), Some("first <note>".to_string()));
    let g2 = group("2025-01-02 test");
    let groups = vec![g1, g2];
    let all = group_name_list(&groups);
    let html = build_notes_rows_html(&groups, &all);
    let expected = format!(
        "<tr class=\"notes-collapsible-row\"><td class=\"key-cell notes-file-key-cell\">{}</td><td class=\"comment-cell notes-file-comment-cell\"><span class=\"notes-entry-kind\">{}</span></td>\
<td class=\"value-cell notes-row-cell\" data-group=\"{}\"><details class=\"notes-file-details\"><summary class=\"notes-file-summary\"><span>View</span><span class=\"notes-row-preview\">{}</span></summary><pre class=\"notes-body\">{}</pre></details></td>\
<td class=\"value-cell notes-row-cell\" data-group=\"{}\"><span class=\"notes-empty\">-</span></td></tr>",
        "notes.ir_bench.MD",
        "Markdown",
        "2025-01-01 base",
        esc("first <note>"),
        esc("first <note>"),
        "2025-01-02 test"
    );
    assert_eq!(html, expected);

    let empty = build_notes_rows_html(&vec![group("x")], &vec!["x".to_string()]);
    assert_eq!(
        empty,
        "<tr><td class=\"notes-row-cell\" colspan=\"3\"><span class=\"notes-empty\">No *.ir_bench.* files found.</span></td></tr>"
    );
}

#[test]
fn legend_links_groups_with_two_ini_files() {
    let mut g1 = group("2025-01-01 base");
    g1.add_file("b.ini".to_string(), "C:\\r\\b.ini".to_string(), None);
    g1.add_file("a.ini".to_string(), "C:\\r\\a.ini".to_string(), None);
    g1.add_file("c.ini".to_string(), "C:\\r\\c.ini".to_string(), None);
    let mut g2 = group("2025-01-02 one");
    g2.add_file("a.ini".to_string(), "/x/a.ini".to_string(), None);
    let groups = vec![g1, g2];
    let colors = build_group_color_map(group_name_list(&groups));
    let html = build_ini_link_legend_html(&groups, &colors);
    let links = "<a href=\"file:///C:/r/a.ini\" target=\"_blank\" rel=\"noopener noreferrer\">a.ini</a> <a href=\"file:///C:/r/b.ini\" target=\"_blank\" rel=\"noopener noreferrer\">b.ini</a>";
    let expected = format!(
        "<div class=\"linked-legend-controls\"><button type=\"button\" id=\"linked-legend-check-all\" class=\"legend-bulk-button\">check all</button><button type=\"button\" id=\"linked-legend-uncheck-all\" class=\"legend-bulk-button\">uncheck all</button></div><div class='linked-legend'>\
<div class=\"legend-row\" data-group=\"{group}\" draggable=\"true\"><input type=\"checkbox\" class=\"group-visibility-checkbox group-pane-checkbox\" data-group=\"{group}\" checked style=\"accent-color:{color};\"><div class=\"legend-content\"><div class=\"legend-name-row\"><span class=\"legend-name\"><span class=\"legend-name-rest\">{rest}</span><span class=\"legend-name-datetime\">{datetime}</span></span></div><span class=\"legend-links\">{links}</span></div></div></div>",
        group = "2025-01-01 base",
        color = "#636EFA",
        rest = "base",
        datetime = "2025-01-01",
        links = links
    );
    assert_eq!(html, expected);

    let none = build_ini_link_legend_html(&vec![group("z")], &colors);
    assert_eq!(none, "<div class=\"no-differences\">No INI files found for linked legend entries.</div>");
}

fn value_cell(group: &str, value: &str, style: (&str, &str, &str, &str)) -> String {
    format!(
        "<td class=\"value-cell\" data-group=\"{}\" data-diff-state=\"{}\" data-diff-direction=\"{}\" data-has-value=\"{}\" data-raw-value=\"{}\" style=\"color:{}; background:{};\">{}</td>",
        esc(group),
        style.1,
        style.2,
        !value.trim().is_empty(),
        esc(value),
        style.0,
        style.3,
        esc(value).replace("\r\n", "\n").replace('\r', "\n").replace('\n', "<br>")
    )
}

#[test]
fn comparison_table() {
    let mut g1 = group("2025-01-01 base");
    g1.add_file("app.ini".to_string(), "p1".to_string(), Some("width=1920 ; pixels\nvsync=1".to_string()));
    let mut g2 = group("2025-01-02 test");
    g2.add_file("app.ini".to_string(), "p2".to_string(), Some("width=2560\nmsaa=4".to_string()));
    let groups = vec![g1, g2];
    let all = group_name_list(&groups);
    assert_eq!(
        get_ini_all_keys(&groups, &all, "app.ini"),
        vec!["msaa".to_string(), "vsync".to_string(), "width".to_string()]
    );
    let colors = build_group_color_map(all.clone());
    let numbers = vec![
        NumberEntry { text: "1920".to_string(), key: NumKey::Ordered(1920) },
        NumberEntry { text: "2560".to_string(), key: NumKey::Ordered(2560) },
        NumberEntry { text: "1".to_string(), key: NumKey::Ordered(1) },
        NumberEntry { text: "4".to_string(), key: NumKey::Ordered(4) },
    ];
    let html = build_ini_comparison_table_html(&groups, &colors, "<tr>S</tr>", &numbers);

    let base = cell_style_of(true, DiffColor::Equal);
    let better = cell_style_of(false, DiffColor::Better);
    let worse = cell_style_of(false, DiffColor::Worse);
    let mut e = String::new();
    e.push_str("<table class=\"ini-comparison-table\"><thead><tr><th>Key</th><th>Comment</th>");
    for (g, color, dt, rest) in [
        ("2025-01-01 base", "#636EFA", "2025-01-01", "base"),
        ("2025-01-02 test", "#EF553B", "2025-01-02", "test"),
    ] {
        e.push_str(&format!(
            "<th class=\"group-column-header\" data-group=\"{}\"><span class=\"diff-header-name\"><span class=\"diff-header-name-rest\" style=\"color:{};\">{}</span><span class=\"diff-header-name-datetime\">{}</span></span></th>",
            esc(g), color, esc(rest), esc(dt)
        ));
    }
    e.push_str("</tr></thead><tbody>");
    e.push_str("<tr class=\"table-section-row table-major-section-row\"><td colspan=\"4\">Benchmark Notes</td></tr>");
    e.push_str("<tr><td class=\"notes-row-cell\" colspan=\"4\"><span class=\"notes-empty\">No *.ir_bench.* files found.</span></td></tr>");
    e.push_str("<tr class=\"table-section-row table-major-section-row\"><td colspan=\"4\">Performance Summary</td></tr>");
    e.push_str("<tr>S</tr>");
    e.push_str("<tr class=\"table-section-row table-major-section-row\"><td colspan=\"4\">INI Differences</td></tr>");
    e.push_str("<tr class=\"table-section-row table-subsection-row\"><td colspan=\"4\"><span class=\"ini-section-header\"><span class=\"ini-section-name\">app.ini</span><span class=\"ini-section-count\" data-visible-row-count>0 rows</span></span></td></tr>");
    let rows = [
        ("msaa", "", "", "4", better),
        ("vsync", "", "1", "", worse),
        ("width", "pixels", "1920", "2560", better),
    ];
    for (key, comment, v1, v2, style2) in rows {
        e.push_str("<tr class=\"changed-row\">");
        e.push_str(&format!("<td class=\"key-cell\">{}</td>", esc(key)));
        e.push_str(&format!("<td class=\"comment-cell\">{}</td>", esc(comment)));
        e.push_str(&value_cell("2025-01-01 base", v1, base));
        e.push_str(&value_cell("2025-01-02 test", v2, style2));
        e.push_str("</tr>");
    }
    e.push_str("</tbody></table>");
    let expected = format!("<div class=\"ini-comparison-tables\">{}</div>", e);
    assert_eq!(html, expected);
}

#[test]
fn comparison_table_without_ini_files() {
    let groups = vec![group("a"), group("b")];
    let colors = build_group_color_map(group_name_list(&groups));
    assert_eq!(
        build_ini_comparison_table_html(&groups, &colors, "", &Vec::new()),
        "<div class=\"no-differences\">No INI file differences found.</div>"
    );
}

#[test]
fn comparison_table_with_empty_ini_file() {
    let mut g = group("a");
    g.add_file("empty.ini".to_string(), "p".to_string(), Some("; nothing".to_string()));
    let groups = vec![g];
    let colors = build_group_color_map(group_name_list(&groups));
    let html = build_ini_comparison_table_html(&groups, &colors, "", &Vec::new());
    assert!(html.contains("<span class=\"ini-section-name\">empty.ini</span>"));
    assert!(html.ends_with(
        "<tr><td class=\"notes-row-cell\" colspan=\"3\"><span class=\"notes-empty\">No INI file differences found.</span></td></tr></tbody></table></div>"
    ));
}

#[test]
fn summary_row_marks_baseline_and_better_group() {
    let cells = vec![
        SummaryCell {
            group: "a<b".to_string(),
            current: Some(NumKey::Ordered(10)),
            frametime_attr: " data-frametime-ms=\"10.00000000\"".to_string(),
            metric_html: "M1".to_string(),
        },
        SummaryCell {
            group: "c".to_string(),
            current: Some(NumKey::Ordered(5)),
            frametime_attr: String::new(),
            metric_html: "M2".to_string(),
        },
    ];
    let row = build_summary_row_html("Average", "x\ny", "avg", Some(NumKey::Ordered(10)), "a<b", &cells);
    assert_eq!(
        row,
        "<tr><td class=\"key-cell\">Average</td><td class=\"comment-cell summary-comment-cell\">x<br>y</td>\
<td class=\"value-cell stat-value\" data-group=\"a&lt;b\" data-metric-key=\"avg\" data-summary-state=\"baseline\" data-frametime-ms=\"10.00000000\" style=\"background:linear-gradient(90deg, rgba(107, 163, 208, 0.24), rgba(107, 163, 208, 0.07));\">M1</td>\
<td class=\"value-cell stat-value\" data-group=\"c\" data-metric-key=\"avg\" data-summary-state=\"better\" style=\"background:linear-gradient(90deg, rgba(124, 197, 118, 0.32), rgba(124, 197, 118, 0.09));\">M2</td></tr>"
    );
    let empty = build_summary_row_html("1% Low", "", "p99", None, "", &Vec::new());
    assert_eq!(empty, "<tr><td class=\"key-cell\">1% Low</td><td class=\"comment-cell summary-comment-cell\"></td></tr>");
}
