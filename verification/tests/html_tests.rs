use ir_bench::html::{
    build_combined_analysis_page, build_control_config_json, build_inline_css_tag,
    build_inline_js_tag, build_note_preview, chart_control_config, escape_html,
    escape_html_with_line_breaks, inject_chart_hover_title_hiding,
    inject_hidden_unified_hover_title, ChartControlConfig,
};

#[test]
fn escapes_html_special_characters() {
    assert_eq!(escape_html("a<b>&\"c\"'d'"), "a&lt;b&gt;&amp;&quot;c&quot;&#39;d&#39;");
    assert_eq!(escape_html("plain text"), "plain text");
    assert_eq!(escape_html(""), "");
}

#[test]
fn escaped_text_has_no_markup_characters() {
    let out = escape_html("<script>alert('x & y')</script>");
    assert!(!out.contains('<') && !out.contains('>') && !out.contains('"') && !out.contains('\''));
}

#[test]
fn line_breaks_become_br() {
    assert_eq!(escape_html_with_line_breaks("a\r\nb\rc\nd<"), "a<br>b<br>c<br>d&lt;");
}

#[test]
fn note_preview_collapses_and_cuts() {
    assert_eq!(build_note_preview("  hello \n\t world  "), "hello world");
    assert_eq!(build_note_preview("   "), "");
    let long = "word ".repeat(40);
    let preview = build_note_preview(&long);
    assert_eq!(preview.chars().count(), 123);
    assert!(preview.ends_with("..."));
    assert_eq!(&preview[..120], &long.trim_end()[..120]);
}

const LAYOUT: &str = "{\"hovermode\":\"x unified\",\"xaxis\":{\"title\":\"ms\"}}";

#[test]
fn hover_title_is_injected_once() {
    let once = inject_hidden_unified_hover_title(LAYOUT);
    assert_eq!(
        once,
        "{\"hovermode\":\"x unified\",\"xaxis\":{\"unifiedhovertitle\":{\"text\":\"<span style='font-size:0em;'>%{x}</span>\"},\"title\":\"ms\"}}"
    );
    let twice = inject_hidden_unified_hover_title(&once);
    assert_eq!(twice, once);
}

#[test]
fn layout_without_target_is_unchanged() {
    assert_eq!(inject_hidden_unified_hover_title("<div>no layout</div>"), "<div>no layout</div>");
}

#[test]
fn hover_hiding_adds_style_and_script() {
    let out = inject_chart_hover_title_hiding(LAYOUT, "frame_rate_plot", true);
    let layout = inject_hidden_unified_hover_title(LAYOUT);
    assert!(out.starts_with(&layout));
    assert!(out.contains(
        "<style>#frame_rate_plot .hoverlayer text.legendtitletext { display: none !important; }</style>"
    ));
    assert!(out.contains("document.getElementById('frame_rate_plot')"));
    assert!(out.contains("var shouldShow = true && index === 0;"));
    assert!(out.ends_with("})();\n</script>"));
    let again = inject_chart_hover_title_hiding(&out, "frame_rate_plot", true);
    assert_eq!(again, out);
}

#[test]
fn hover_hiding_flag_false() {
    let out = inject_chart_hover_title_hiding("<div></div>", "frame_time_plot", false);
    assert!(out.contains("var shouldShow = false && index === 0;"));
}

#[test]
fn page_fills_placeholders() {
    let template = "<html>{{x}} \\\"q\\\" {__INLINE_CSS__}|{__INLINE_HTML_FRAME_TIME_CHART__}|{__INLINE_HTML_FRAME_RATE_CHART__}|{__INLINE_HTML_LINKED_LEGEND__}|{__INLINE_HTML_DIFF_TABLE_PANEL__}|{__INLINE_JS__}</html>";
    let page = build_combined_analysis_page(template, "FT", "FR", "LG", "TB", "CSS", "JS");
    assert_eq!(
        page,
        "<html>{x} \"q\" CSS|FT|FR|LG|<div id=\"diff-table-panel\" class=\"panel\" tabindex=\"-1\"><h2>Comparison Table</h2>TB</div>|JS</html>"
    );
    let empty_table = build_combined_analysis_page("{__INLINE_HTML_DIFF_TABLE_PANEL__}", "", "", "", "", "", "");
    assert_eq!(empty_table, "");
}

#[test]
fn inline_css_tag() {
    assert_eq!(build_inline_css_tag("body{}"), "<style>\nbody{}\n</style>");
}

#[test]
fn control_config_as_json() {
    let cfg = chart_control_config(1);
    assert_eq!(cfg.min_max_trace_indices, vec![1]);
    assert_eq!(cfg.mean_fill_trace_indices, vec![3]);
    assert_eq!(cfg.fps_shape_indices, (0..8).collect::<Vec<usize>>());
    assert_eq!(cfg.min_max_fill_colors, vec!["rgba(99,110,250,0.18)".to_string()]);
    assert_eq!(cfg.min_max_line_colors, vec!["rgba(99,110,250,0.35)".to_string()]);
    assert_eq!(cfg.mean_fill_colors, vec!["rgba(99,110,250,0.22)".to_string()]);
    assert_eq!(
        build_control_config_json(&cfg),
        "{\"fps_annotation_indices\":[0,1,2,3,4,5,6,7],\"fps_shape_indices\":[0,1,2,3,4,5,6,7],\"mean_fill_colors\":[\"rgba(99,110,250,0.22)\"],\"mean_fill_trace_indices\":[3],\"min_max_fill_colors\":[\"rgba(99,110,250,0.18)\"],\"min_max_line_colors\":[\"rgba(99,110,250,0.35)\"],\"min_max_trace_indices\":[1]}"
    );
}

#[test]
fn control_config_for_several_groups() {
    let cfg = chart_control_config(9);
    assert_eq!(cfg.min_max_trace_indices, vec![1, 4, 7, 10, 13, 16, 19, 22, 25]);
    assert_eq!(cfg.mean_fill_trace_indices, vec![3, 6, 9, 12, 15, 18, 21, 24, 27]);
    assert_eq!(cfg.min_max_fill_colors[1], "rgba(239,85,59,0.18)");
    assert_eq!(cfg.min_max_fill_colors[8], cfg.min_max_fill_colors[0]);
}

#[test]
fn empty_control_config_json() {
    let cfg = ChartControlConfig::new();
    assert_eq!(
        build_control_config_json(&cfg),
        "{\"fps_annotation_indices\":[],\"fps_shape_indices\":[],\"mean_fill_colors\":[],\"mean_fill_trace_indices\":[],\"min_max_fill_colors\":[],\"min_max_line_colors\":[],\"min_max_trace_indices\":[]}"
    );
}

#[test]
fn inline_js_fills_config_and_escapes_script_end() {
    let cfg = ChartControlConfig::new();
    let out = build_inline_js_tag(&cfg, "var c = __CONTROL_CONFIG_JSON__; // </script>");
    assert_eq!(
        out,
        format!(
            "<script>\nvar c = {}; // <\\/script>\n</script>",
            build_control_config_json(&cfg)
        )
    );
}

#[test]
fn control_config_json_escapes_strings() {
    let mut cfg = ChartControlConfig::new();
    cfg.mean_fill_colors = vec!["a\"b\\c\nd\u{1}é".to_string(), String::new()];
    cfg.fps_shape_indices = vec![10, 205];
    assert_eq!(
        build_control_config_json(&cfg),
        "{\"fps_annotation_indices\":[],\"fps_shape_indices\":[10,205],\"mean_fill_colors\":[\"a\\\"b\\\\c\\nd\\u0001é\",\"\"],\"mean_fill_trace_indices\":[],\"min_max_fill_colors\":[],\"min_max_line_colors\":[],\"min_max_trace_indices\":[]}"
    );
}
