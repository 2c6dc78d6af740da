use vstd::prelude::*;

use crate::numtext::decimal;
use crate::naming::{lemma_palette_rgba_ok, palette_colors, palette_spec, rgba, rgba_spec};
use crate::text::{
    chars_contain, chars_of, concat_chars, contains, first_occurrence, join, join_words, occurs_at,
    owned, push_chars,
    push_str, replace_all, replace_chars, replace_first, replace_first_chars, slice_chars,
    string_of, words,
};

verus! {

// ---------------------------------------------------------------------------
// Escaping
// ---------------------------------------------------------------------------

/// The HTML form of one character: `&`, `<`, `>`, `"` and `'` become
/// entities, every other character stays.
pub open spec fn escape_char(c: char) -> Seq<char> {
    if c == '&' {
        seq!['&', 'a', 'm', 'p', ';']
    } else if c == '<' {
        seq!['&', 'l', 't', ';']
    } else if c == '>' {
        seq!['&', 'g', 't', ';']
    } else if c == '"' {
        seq!['&', 'q', 'u', 'o', 't', ';']
    } else if c == '\'' {
        seq!['&', '#', '3', '9', ';']
    } else {
        seq![c]
    }
}

/// `s` with every character escaped for HTML text and attribute values.
pub open spec fn escape_html_spec(s: Seq<char>) -> Seq<char>
    decreases s.len(),
{
    if s.len() == 0 {
        seq![]
    } else {
        escape_html_spec(s.drop_last()) + escape_char(s.last())
    }
}

/// Appends the escaped form of `c`.
fn push_escaped(out: &mut Vec<char>, c: char)
    ensures
        final(out)@ == old(out)@ + escape_char(c),
{
    let ghost before = out@;
    if c == '&' {
        out.push('&');
        out.push('a');
        out.push('m');
        out.push('p');
        out.push(';');
    } else if c == '<' {
        out.push('&');
        out.push('l');
        out.push('t');
        out.push(';');
    } else if c == '>' {
        out.push('&');
        out.push('g');
        out.push('t');
        out.push(';');
    } else if c == '"' {
        out.push('&');
        out.push('q');
        out.push('u');
        out.push('o');
        out.push('t');
        out.push(';');
    } else if c == '\'' {
        out.push('&');
        out.push('#');
        out.push('3');
        out.push('9');
        out.push(';');
    } else {
        out.push(c);
    }
    assert(out@ =~= before + escape_char(c));
}

/// The characters of `s` escaped for HTML.
pub fn escape_html_chars(s: &Vec<char>) -> (r: Vec<char>)
    ensures
        r@ == escape_html_spec(s@),
{
    let mut out: Vec<char> = Vec::new();
    let mut i: usize = 0;
    while i < s.len()
        invariant
            i <= s.len(),
            out@ == escape_html_spec(s@.take(i as int)),
        decreases s.len() - i,
    {
        assert(s@.take(i + 1).drop_last() =~= s@.take(i as int));
        push_escaped(&mut out, s[i]);
        i = i + 1;
    }
    assert(s@.take(s.len() as int) =~= s@);
    out
}

/// Escapes text for HTML (`&`, `<`, `>`, `"`, `'`).
pub fn escape_html(text: &str) -> (r: String)
    ensures
        r@ == escape_html_spec(text@),
{
    let s = chars_of(text);
    string_of(&escape_html_chars(&s))
}

/// Escaped text holds none of `<`, `>`, `"` and `'`.
pub proof fn lemma_escape_html_safe(s: Seq<char>)
    ensures
        forall|i: int|
            0 <= i < escape_html_spec(s).len() ==> {
                let c = #[trigger] escape_html_spec(s)[i];
                c != '<' && c != '>' && c != '"' && c != '\''
            },
    decreases s.len(),
{
    if s.len() > 0 {
        lemma_escape_html_safe(s.drop_last());
        let a = escape_html_spec(s.drop_last());
        let b = escape_char(s.last());
        assert forall|i: int| 0 <= i < escape_html_spec(s).len() implies {
            let c = #[trigger] escape_html_spec(s)[i];
            c != '<' && c != '>' && c != '"' && c != '\''
        } by {
            if i < a.len() {
                assert(escape_html_spec(s)[i] == a[i]);
            } else {
                assert(escape_html_spec(s)[i] == b[i - a.len()]);
            }
        }
    }
}

/// Text without special characters is its own escaped form.
pub proof fn lemma_escape_html_plain(s: Seq<char>)
    requires
        forall|i: int|
            0 <= i < s.len() ==> {
                let c = #[trigger] s[i];
                c != '&' && c != '<' && c != '>' && c != '"' && c != '\''
            },
    ensures
        escape_html_spec(s) == s,
    decreases s.len(),
{
    if s.len() > 0 {
        lemma_escape_html_plain(s.drop_last());
        assert(s.drop_last() + seq![s.last()] =~= s);
    }
}

/// Line breaks written as `<br>`: `\r\n`, a lone `\r` and `\n` each become
/// one `<br>`.
pub open spec fn html_line_breaks(s: Seq<char>) -> Seq<char>
    decreases s.len(),
{
    if s.len() == 0 {
        seq![]
    } else if s.len() >= 2 && s[0] == '\r' && s[1] == '\n' {
        seq!['<', 'b', 'r', '>'] + html_line_breaks(s.skip(2))
    } else if s[0] == '\r' || s[0] == '\n' {
        seq!['<', 'b', 'r', '>'] + html_line_breaks(s.drop_first())
    } else {
        seq![s[0]] + html_line_breaks(s.drop_first())
    }
}

/// Escapes text for HTML and writes its line breaks as `<br>`.
pub fn escape_html_with_line_breaks(text: &str) -> (r: String)
    ensures
        r@ == html_line_breaks(escape_html_spec(text@)),
{
    let s = escape_html_chars(&chars_of(text));
    let mut out: Vec<char> = Vec::new();
    let mut i: usize = 0;
    assert(s@.skip(0) =~= s@);
    while i < s.len()
        invariant
            i <= s.len(),
            html_line_breaks(s@) == out@ + html_line_breaks(s@.skip(i as int)),
        decreases s.len() - i,
    {
        let ghost rest = s@.skip(i as int);
        let ghost before = out@;
        if i + 1 < s.len() && s[i] == '\r' && s[i + 1] == '\n' {
            out.push('<');
            out.push('b');
            out.push('r');
            out.push('>');
            assert(rest.skip(2) =~= s@.skip(i + 2));
            assert(out@ =~= before + seq!['<', 'b', 'r', '>']);
            i = i + 2;
        } else if s[i] == '\r' || s[i] == '\n' {
            out.push('<');
            out.push('b');
            out.push('r');
            out.push('>');
            assert(rest.drop_first() =~= s@.skip(i + 1));
            assert(out@ =~= before + seq!['<', 'b', 'r', '>']);
            i = i + 1;
        } else {
            out.push(s[i]);
            assert(rest.drop_first() =~= s@.skip(i + 1));
            assert(out@ =~= before + seq![s@[i as int]]);
            i = i + 1;
        }
    }
    assert(s@.skip(i as int) =~= Seq::<char>::empty());
    assert(out@ + Seq::<char>::empty() =~= out@);
    string_of(&out)
}

// ---------------------------------------------------------------------------
// Note previews
// ---------------------------------------------------------------------------

/// The longest preview, in characters.
pub const MAX_PREVIEW_CHARS: usize = 120;

/// The one-line preview of a note: its words joined by single spaces, cut
/// to 120 characters and marked with `...` when longer.
pub open spec fn note_preview_spec(text: Seq<char>) -> Seq<char> {
    let collapsed = join(words(text), seq![' ']);
    if collapsed.len() <= 120 {
        collapsed
    } else {
        collapsed.take(120) + seq!['.', '.', '.']
    }
}

/// The preview of a note.
pub fn build_note_preview(text: &str) -> (r: String)
    ensures
        r@ == note_preview_spec(text@),
{
    let s = chars_of(text);
    let mut sep: Vec<char> = Vec::new();
    sep.push(' ');
    assert(sep@ =~= seq![' ']);
    let collapsed = join_words(&s, &sep);
    if collapsed.len() <= MAX_PREVIEW_CHARS {
        return string_of(&collapsed);
    }
    let mut preview = slice_chars(&collapsed, 0, MAX_PREVIEW_CHARS);
    preview.push('.');
    preview.push('.');
    preview.push('.');
    assert(collapsed@.subrange(0, 120) =~= collapsed@.take(120));
    assert(preview@ =~= collapsed@.take(120) + seq!['.', '.', '.']);
    string_of(&preview)
}

// ---------------------------------------------------------------------------
// Hover titles of the charts
// ---------------------------------------------------------------------------

/// The key whose presence shows that the layout already sets the unified
/// hover title.
pub open spec fn unified_title_key() -> Seq<char> {
    "\"unifiedhovertitle\":"@
}

/// The part of the chart layout after which the hover title is set.
pub open spec fn hover_layout_target() -> Seq<char> {
    "\"hovermode\":\"x unified\",\"xaxis\":{"@
}

/// The same part with an empty-looking unified hover title set.
pub open spec fn hover_layout_replacement() -> Seq<char> {
    "\"hovermode\":\"x unified\",\"xaxis\":{\"unifiedhovertitle\":{\"text\":\"<span style='font-size:0em;'>%{x}</span>\"},"@
}

/// The chart with a hidden unified hover title set in its layout, unless
/// the layout sets one already.
pub open spec fn hidden_hover_title_spec(chart_html: Seq<char>) -> Seq<char> {
    if contains(chart_html, unified_title_key()) {
        chart_html
    } else {
        replace_first(chart_html, hover_layout_target(), hover_layout_replacement())
    }
}

/// Sets a hidden unified hover title in the layout of a chart.
pub fn inject_hidden_unified_hover_title(chart_html: &str) -> (r: String)
    ensures
        r@ == hidden_hover_title_spec(chart_html@),
{
    let s = chars_of(chart_html);
    let key = chars_of("\"unifiedhovertitle\":");
    if chars_contain(&s, &key) {
        return string_of(&s);
    }
    let target = chars_of("\"hovermode\":\"x unified\",\"xaxis\":{");
    let replacement = chars_of(
        "\"hovermode\":\"x unified\",\"xaxis\":{\"unifiedhovertitle\":{\"text\":\"<span style='font-size:0em;'>%{x}</span>\"},",
    );
    string_of(&replace_first_chars(&s, &target, &replacement))
}

/// Setting the hidden hover title twice is setting it once: once set, the
/// layout carries the key, and a layout without the target stays as it is.
pub proof fn lemma_hidden_hover_title_idempotent(chart_html: Seq<char>)
    ensures
        hidden_hover_title_spec(hidden_hover_title_spec(chart_html)) == hidden_hover_title_spec(
            chart_html,
        ),
{
    if !contains(chart_html, unified_title_key()) {
        let i = first_occurrence(chart_html, hover_layout_target());
        if i >= 0 {
            let repl = hover_layout_replacement();
            let key = unified_title_key();
            let a = chart_html.take(i);
            let c = chart_html.skip(i + hover_layout_target().len());
            let y = a + repl + c;
            assert(occurs_at(repl, key, 33)) by {
                reveal_strlit("\"hovermode\":\"x unified\",\"xaxis\":{\"unifiedhovertitle\":{\"text\":\"<span style='font-size:0em;'>%{x}</span>\"},");
                reveal_strlit("\"unifiedhovertitle\":");
                assert(repl.subrange(33, 33 + key.len() as int) =~= key);
            }
            let at = a.len() as int + 33;
            assert(y.subrange(at, at + key.len() as int) =~= repl.subrange(33, 33 + key.len() as int));
            assert(occurs_at(y, key, at));
        }
    }
}

/// The mark that the script which hides hover titles leaves on the page.
pub open spec fn hide_marker() -> Seq<char> {
    "__IR_BENCH_HIDE_X_UNIFIED_TITLE__"@
}

/// The style rule that hides the unified hover title of chart `plot_id`.
pub open spec fn fallback_style_spec(plot_id: Seq<char>) -> Seq<char> {
    "<style>#"@ + plot_id + " .hoverlayer text.legendtitletext { display: none !important; }</style>"@
}

/// The script text before the chart id.
pub open spec fn script_head() -> Seq<char> {
    "<script>\n;(function() {\n  var gd = document.getElementById('"@
}

/// The script text between the chart id and the keep-first flag.
pub open spec fn script_middle() -> Seq<char> {
    "');\n  if (!gd) return;\n\n  function hideUnifiedXTitle() {\n    var root = gd.querySelector('.hoverlayer');\n    if (!root) return;\n\n        var nodes = root.querySelectorAll('text.legendtitletext');\n        nodes.forEach(function(node, index) {\n            var shouldShow = "@
}

/// The script text after the keep-first flag.
pub open spec fn script_tail() -> Seq<char> {
    " && index === 0;\n            node.style.display = shouldShow ? '' : 'none';\n            node.setAttribute('data-ir-bench', shouldShow ? '__IR_BENCH_KEEP_X_UNIFIED_TITLE__' : '__IR_BENCH_HIDE_X_UNIFIED_TITLE__');\n        });\n  }\n\n  gd.on && gd.on('plotly_hover', hideUnifiedXTitle);\n  gd.on && gd.on('plotly_relayout', hideUnifiedXTitle);\n  gd.on && gd.on('plotly_afterplot', hideUnifiedXTitle);\n\n  hideUnifiedXTitle();\n})();\n</script>"@
}

/// `true` or `false`, as a script writes it.
pub open spec fn js_bool(b: bool) -> Seq<char> {
    if b {
        "true"@
    } else {
        "false"@
    }
}

/// The script that hides the unified hover titles of chart `plot_id` (all of
/// them, or all but the first).
pub open spec fn fallback_script_spec(plot_id: Seq<char>, keep_first_title_only: bool) -> Seq<char> {
    script_head() + plot_id + script_middle() + js_bool(keep_first_title_only) + script_tail()
}

/// A chart with its unified hover title hidden: in the layout, and, unless
/// the page already carries it, by a style rule and a script.
pub open spec fn hover_title_hiding_spec(
    chart_html: Seq<char>,
    plot_id: Seq<char>,
    keep_first_title_only: bool,
) -> Seq<char> {
    let with_layout = hidden_hover_title_spec(chart_html);
    if contains(with_layout, hide_marker()) {
        with_layout
    } else {
        with_layout + fallback_style_spec(plot_id) + fallback_script_spec(
            plot_id,
            keep_first_title_only,
        )
    }
}

/// Hides the unified hover title of a chart.
pub fn inject_chart_hover_title_hiding(
    chart_html: &str,
    plot_id: &str,
    keep_first_title_only: bool,
) -> (r: String)
    ensures
        r@ == hover_title_hiding_spec(chart_html@, plot_id@, keep_first_title_only),
{
    let with_layout = inject_hidden_unified_hover_title(chart_html);
    let wl = chars_of(with_layout.as_str());
    let marker = chars_of("__IR_BENCH_HIDE_X_UNIFIED_TITLE__");
    if chars_contain(&wl, &marker) {
        return with_layout;
    }
    let mut out = with_layout;
    push_str(&mut out, "<style>#");
    push_str(&mut out, plot_id);
    push_str(&mut out, " .hoverlayer text.legendtitletext { display: none !important; }</style>");
    push_str(&mut out, "<script>\n;(function() {\n  var gd = document.getElementById('");
    push_str(&mut out, plot_id);
    push_str(
        &mut out,
        "');\n  if (!gd) return;\n\n  function hideUnifiedXTitle() {\n    var root = gd.querySelector('.hoverlayer');\n    if (!root) return;\n\n        var nodes = root.querySelectorAll('text.legendtitletext');\n        nodes.forEach(function(node, index) {\n            var shouldShow = ",
    );
    if keep_first_title_only {
        push_str(&mut out, "true");
    } else {
        push_str(&mut out, "false");
    }
    push_str(
        &mut out,
        " && index === 0;\n            node.style.display = shouldShow ? '' : 'none';\n            node.setAttribute('data-ir-bench', shouldShow ? '__IR_BENCH_KEEP_X_UNIFIED_TITLE__' : '__IR_BENCH_HIDE_X_UNIFIED_TITLE__');\n        });\n  }\n\n  gd.on && gd.on('plotly_hover', hideUnifiedXTitle);\n  gd.on && gd.on('plotly_relayout', hideUnifiedXTitle);\n  gd.on && gd.on('plotly_afterplot', hideUnifiedXTitle);\n\n  hideUnifiedXTitle();\n})();\n</script>",
    );
    assert(out@ =~= hover_title_hiding_spec(chart_html@, plot_id@, keep_first_title_only));
    out
}

// ---------------------------------------------------------------------------
// The report page
// ---------------------------------------------------------------------------

/// The page template with its escapes undone: `\"` read as `"`, `{{` as `{`
/// and `}}` as `}`.
pub open spec fn unescaped_template(raw: Seq<char>) -> Seq<char> {
    replace_all(replace_all(replace_all(raw, "\\\""@, "\""@), "{{"@, "{"@), "}}"@, "}"@)
}

/// The comparison panel around the comparison table; nothing when there is
/// no table.
pub open spec fn diff_table_panel_spec(table: Seq<char>) -> Seq<char> {
    if table.len() == 0 {
        seq![]
    } else {
        "<div id=\"diff-table-panel\" class=\"panel\" tabindex=\"-1\"><h2>Comparison Table</h2>"@
            + table + "</div>"@
    }
}

/// The report page: the template with its placeholders filled, in order.
pub open spec fn analysis_page_spec(
    raw_template: Seq<char>,
    frame_time_chart_html: Seq<char>,
    frame_rate_chart_html: Seq<char>,
    linked_legend_html: Seq<char>,
    comparison_table_html: Seq<char>,
    inline_css_html: Seq<char>,
    inline_js_html: Seq<char>,
) -> Seq<char> {
    let t = unescaped_template(raw_template);
    let t1 = replace_all(t, "{__INLINE_HTML_FRAME_TIME_CHART__}"@, frame_time_chart_html);
    let t2 = replace_all(t1, "{__INLINE_HTML_FRAME_RATE_CHART__}"@, frame_rate_chart_html);
    let t3 = replace_all(t2, "{__INLINE_HTML_LINKED_LEGEND__}"@, linked_legend_html);
    let t4 = replace_all(
        t3,
        "{__INLINE_HTML_DIFF_TABLE_PANEL__}"@,
        diff_table_panel_spec(comparison_table_html),
    );
    let t5 = replace_all(t4, "{__INLINE_CSS__}"@, inline_css_html);
    replace_all(t5, "{__INLINE_JS__}"@, inline_js_html)
}

/// `s` with every `from` replaced by `to`, on strings.
fn replace_str(s: &Vec<char>, from: &str, to: &Vec<char>) -> (r: Vec<char>)
    requires
        from@.len() > 0,
    ensures
        r@ == replace_all(s@, from@, to@),
{
    let f = chars_of(from);
    replace_chars(s, &f, to)
}

/// Builds the report page from its template (as the page asset holds it)
/// and its parts.
pub fn build_combined_analysis_page(
    raw_template: &str,
    frame_time_chart_html: &str,
    frame_rate_chart_html: &str,
    linked_legend_html: &str,
    comparison_table_html: &str,
    inline_css_html: &str,
    inline_js_html: &str,
) -> (r: String)
    ensures
        r@ == analysis_page_spec(
            raw_template@,
            frame_time_chart_html@,
            frame_rate_chart_html@,
            linked_legend_html@,
            comparison_table_html@,
            inline_css_html@,
            inline_js_html@,
        ),
{
    proof {
        reveal_strlit("\\\"");
        reveal_strlit("{{");
        reveal_strlit("}}");
        reveal_strlit("{__INLINE_HTML_FRAME_TIME_CHART__}");
        reveal_strlit("{__INLINE_HTML_FRAME_RATE_CHART__}");
        reveal_strlit("{__INLINE_HTML_LINKED_LEGEND__}");
        reveal_strlit("{__INLINE_HTML_DIFF_TABLE_PANEL__}");
        reveal_strlit("{__INLINE_CSS__}");
        reveal_strlit("{__INLINE_JS__}");
    }
    let table = chars_of(comparison_table_html);
    let panel = if table.len() == 0 {
        Vec::new()
    } else {
        let mut p = String::new();
        push_str(
            &mut p,
            "<div id=\"diff-table-panel\" class=\"panel\" tabindex=\"-1\"><h2>Comparison Table</h2>",
        );
        push_str(&mut p, comparison_table_html);
        push_str(&mut p, "</div>");
        chars_of(p.as_str())
    };
    assert(panel@ =~= diff_table_panel_spec(comparison_table_html@));
    let raw = chars_of(raw_template);
    let t = replace_str(&raw, "\\\"", &chars_of("\""));
    let t = replace_str(&t, "{{", &chars_of("{"));
    let t = replace_str(&t, "}}", &chars_of("}"));
    let t = replace_str(&t, "{__INLINE_HTML_FRAME_TIME_CHART__}", &chars_of(frame_time_chart_html));
    let t = replace_str(&t, "{__INLINE_HTML_FRAME_RATE_CHART__}", &chars_of(frame_rate_chart_html));
    let t = replace_str(&t, "{__INLINE_HTML_LINKED_LEGEND__}", &chars_of(linked_legend_html));
    let t = replace_str(&t, "{__INLINE_HTML_DIFF_TABLE_PANEL__}", &panel);
    let t = replace_str(&t, "{__INLINE_CSS__}", &chars_of(inline_css_html));
    let t = replace_str(&t, "{__INLINE_JS__}", &chars_of(inline_js_html));
    string_of(&t)
}

/// The style sheet of the report as an inline `<style>` element.
pub fn build_inline_css_tag(css: &str) -> (r: String)
    ensures
        r@ == "<style>\n"@ + css@ + "\n</style>"@,
{
    let mut out = String::new();
    push_str(&mut out, "<style>\n");
    push_str(&mut out, css);
    push_str(&mut out, "\n</style>");
    out
}

// ---------------------------------------------------------------------------
// The chart controls
// ---------------------------------------------------------------------------

/// Which chart traces, shapes and annotations the page's controls act on,
/// and the colors they restore.
pub struct ChartControlConfig {
    pub min_max_trace_indices: Vec<usize>,
    pub min_max_fill_colors: Vec<String>,
    pub min_max_line_colors: Vec<String>,
    pub fps_shape_indices: Vec<usize>,
    pub fps_annotation_indices: Vec<usize>,
    pub mean_fill_trace_indices: Vec<usize>,
    pub mean_fill_colors: Vec<String>,
}

impl ChartControlConfig {
    /// No controls.
    pub fn new() -> (r: ChartControlConfig)
        ensures
            r.min_max_trace_indices@.len() == 0,
            r.min_max_fill_colors@.len() == 0,
            r.min_max_line_colors@.len() == 0,
            r.fps_shape_indices@.len() == 0,
            r.fps_annotation_indices@.len() == 0,
            r.mean_fill_trace_indices@.len() == 0,
            r.mean_fill_colors@.len() == 0,
    {
        ChartControlConfig {
            min_max_trace_indices: Vec::new(),
            min_max_fill_colors: Vec::new(),
            min_max_line_colors: Vec::new(),
            fps_shape_indices: Vec::new(),
            fps_annotation_indices: Vec::new(),
            mean_fill_trace_indices: Vec::new(),
            mean_fill_colors: Vec::new(),
        }
    }
}

/// A JSON array as `serde_json` writes it in compact form: the items
/// separated by commas, between brackets.
pub open spec fn json_array(items: Seq<Seq<char>>) -> Seq<char> {
    "["@ + join(items, ","@) + "]"@
}

/// What `serde_json::to_string` writes for a list of indices: an array of
/// their decimal forms.
pub open spec fn json_index_list(v: Seq<usize>) -> Seq<char> {
    json_array(v.map_values(|i: usize| decimal(i as nat)))
}

/// A lowercase hexadecimal digit.
pub open spec fn hex_digit(n: int) -> char {
    seq!['0', '1', '2', '3', '4', '5', '6', '7', '8', '9', 'a', 'b', 'c', 'd', 'e', 'f'][n]
}

/// How `serde_json` writes one character inside a string: a quote and a
/// backslash behind a backslash; backspace, tab, line feed, form feed and
/// carriage return as `\b`, `\t`, `\n`, `\f`, `\r`; the other characters
/// below U+0020 as `\u00` and two hexadecimal digits; every other character
/// as it is.
pub open spec fn json_char(c: char) -> Seq<char> {
    if c == '"' {
        seq!['\\', '"']
    } else if c == '\\' {
        seq!['\\', '\\']
    } else if c == '\u{8}' {
        seq!['\\', 'b']
    } else if c == '\t' {
        seq!['\\', 't']
    } else if c == '\n' {
        seq!['\\', 'n']
    } else if c == '\u{c}' {
        seq!['\\', 'f']
    } else if c == '\r' {
        seq!['\\', 'r']
    } else if (c as int) < 0x20 {
        seq!['\\', 'u', '0', '0', hex_digit((c as int) / 16), hex_digit((c as int) % 16)]
    } else {
        seq![c]
    }
}

/// The characters of a string as `serde_json` writes them between quotes.
pub open spec fn json_escaped(s: Seq<char>) -> Seq<char>
    decreases s.len(),
{
    if s.len() == 0 {
        seq![]
    } else {
        json_escaped(s.drop_last()) + json_char(s.last())
    }
}

/// What `serde_json::to_string` writes for a list of strings: an array of
/// the strings, each between quotes with its characters escaped.
pub open spec fn json_string_list(v: Seq<Seq<char>>) -> Seq<char> {
    json_array(v.map_values(|s: Seq<char>| "\""@ + json_escaped(s) + "\""@))
}

/// The views of a list of strings.
pub open spec fn strings_view(v: Seq<String>) -> Seq<Seq<char>> {
    v.map_values(|s: String| s@)
}

/// `serde_json::to_string` on a list of indices: `[`, the decimal form of
/// each index with `,` between, `]` (the compact formatter's array and
/// integer writing). Serializing a `Vec<usize>` cannot fail (the crate fails
/// only on a failing `Serialize` impl or a map with non-string keys), so this
/// returns the JSON text.
#[verifier::external_body]
fn json_of_indices(v: &Vec<usize>) -> (r: String)
    ensures
        r@ == json_index_list(v@),
{
    serde_json::to_string(v).unwrap_or_default()
}

/// `serde_json::to_string` on a list of strings: an array as for indices,
/// each string between quotes with the bytes of the crate's escape table
/// (`"`, `\\` and those below 0x20) escaped and the rest written as they
/// are; as for indices, this cannot fail.
#[verifier::external_body]
fn json_of_strings(v: &Vec<String>) -> (r: String)
    ensures
        r@ == json_string_list(strings_view(v@)),
{
    serde_json::to_string(v).unwrap_or_default()
}

/// The JSON object of the chart controls, as `serde_json` writes an object:
/// without spaces and with its keys in sorted order.
pub open spec fn control_config_json_spec(c: ChartControlConfig) -> Seq<char> {
    "{\"fps_annotation_indices\":"@ + json_index_list(c.fps_annotation_indices@)
        + ",\"fps_shape_indices\":"@ + json_index_list(c.fps_shape_indices@)
        + ",\"mean_fill_colors\":"@ + json_string_list(strings_view(c.mean_fill_colors@))
        + ",\"mean_fill_trace_indices\":"@ + json_index_list(c.mean_fill_trace_indices@)
        + ",\"min_max_fill_colors\":"@ + json_string_list(strings_view(c.min_max_fill_colors@))
        + ",\"min_max_line_colors\":"@ + json_string_list(strings_view(c.min_max_line_colors@))
        + ",\"min_max_trace_indices\":"@ + json_index_list(c.min_max_trace_indices@) + "}"@
}

/// The chart controls as the JSON object that the page script reads.
pub fn build_control_config_json(config: &ChartControlConfig) -> (r: String)
    ensures
        r@ == control_config_json_spec(*config),
{
    let mut out = String::new();
    push_str(&mut out, "{\"fps_annotation_indices\":");
    push_str(&mut out, json_of_indices(&config.fps_annotation_indices).as_str());
    push_str(&mut out, ",\"fps_shape_indices\":");
    push_str(&mut out, json_of_indices(&config.fps_shape_indices).as_str());
    push_str(&mut out, ",\"mean_fill_colors\":");
    push_str(&mut out, json_of_strings(&config.mean_fill_colors).as_str());
    push_str(&mut out, ",\"mean_fill_trace_indices\":");
    push_str(&mut out, json_of_indices(&config.mean_fill_trace_indices).as_str());
    push_str(&mut out, ",\"min_max_fill_colors\":");
    push_str(&mut out, json_of_strings(&config.min_max_fill_colors).as_str());
    push_str(&mut out, ",\"min_max_line_colors\":");
    push_str(&mut out, json_of_strings(&config.min_max_line_colors).as_str());
    push_str(&mut out, ",\"min_max_trace_indices\":");
    push_str(&mut out, json_of_indices(&config.min_max_trace_indices).as_str());
    push_str(&mut out, "}");
    assert(out@ =~= control_config_json_spec(*config));
    out
}

/// The page script as an inline `<script>` element: the controls filled in,
/// and any `</script>` in it written as `<\/script>`.
pub open spec fn inline_js_spec(js: Seq<char>, config_json: Seq<char>) -> Seq<char> {
    "<script>\n"@ + replace_all(
        replace_all(js, "__CONTROL_CONFIG_JSON__"@, config_json),
        "</script>"@,
        "<\\/script>"@,
    ) + "\n</script>"@
}

/// The page script with the chart controls as an inline `<script>` element.
pub fn build_inline_js_tag(config: &ChartControlConfig, js: &str) -> (r: String)
    ensures
        r@ == inline_js_spec(js@, control_config_json_spec(*config)),
{
    proof {
        reveal_strlit("__CONTROL_CONFIG_JSON__");
        reveal_strlit("</script>");
    }
    let json = build_control_config_json(config);
    let s = chars_of(js);
    let t = replace_str(&s, "__CONTROL_CONFIG_JSON__", &chars_of(json.as_str()));
    let t = replace_str(&t, "</script>", &chars_of("<\\/script>"));
    let mut out = String::new();
    push_str(&mut out, "<script>\n");
    push_chars(&mut out, &t);
    push_str(&mut out, "\n</script>");
    out
}


/// The controls for a frame-time chart of `num_groups` groups: after the
/// hover anchor (trace 0), each group `i` draws its min/max band (trace
/// `1 + 3i`), its mean line and its mean fill (trace `3 + 3i`); the band
/// takes the group's palette color at opacity 0.18 (fill) and 0.35 (line),
/// the mean fill at 0.22; the eight refresh-rate lines are shapes and
/// annotations 0 to 7.
pub open spec fn chart_control_spec(num_groups: nat, c: ChartControlConfig) -> bool {
    &&& c.min_max_trace_indices@ == Seq::new(num_groups, |i: int| (1 + 3 * i) as usize)
    &&& c.mean_fill_trace_indices@ == Seq::new(num_groups, |i: int| (3 + 3 * i) as usize)
    &&& c.fps_shape_indices@ == Seq::new(8, |i: int| i as usize)
    &&& c.fps_annotation_indices@ == Seq::new(8, |i: int| i as usize)
    &&& c.min_max_fill_colors@.len() == num_groups
    &&& c.min_max_line_colors@.len() == num_groups
    &&& c.mean_fill_colors@.len() == num_groups
    &&& forall|i: int|
        0 <= i < num_groups ==> {
            let hex = vstd::utf8::encode_utf8(palette_spec()[i % 8]);
            &&& (#[trigger] c.min_max_fill_colors@[i])@ == rgba_spec(hex, "0.18"@)
            &&& c.min_max_line_colors@[i]@ == rgba_spec(hex, "0.35"@)
            &&& c.mean_fill_colors@[i]@ == rgba_spec(hex, "0.22"@)
        }
}

/// The controls for a frame-time chart of `num_groups` groups.
pub fn chart_control_config(num_groups: usize) -> (r: ChartControlConfig)
    requires
        num_groups < usize::MAX / 4,
    ensures
        chart_control_spec(num_groups as nat, r),
{
    let mut c = ChartControlConfig::new();
    let palette = palette_colors();
    let mut i: usize = 0;
    while i < num_groups
        invariant
            num_groups < usize::MAX / 4,
            i <= num_groups,
            palette@.len() == 8,
            forall|k: int| 0 <= k < 8 ==> (#[trigger] palette@[k])@ == palette_spec()[k],
            c.min_max_trace_indices@ == Seq::new(i as nat, |j: int| (1 + 3 * j) as usize),
            c.mean_fill_trace_indices@ == Seq::new(i as nat, |j: int| (3 + 3 * j) as usize),
            c.fps_shape_indices@.len() == 0,
            c.fps_annotation_indices@.len() == 0,
            c.min_max_fill_colors@.len() == i,
            c.min_max_line_colors@.len() == i,
            c.mean_fill_colors@.len() == i,
            forall|j: int|
                0 <= j < i ==> {
                    let hex = vstd::utf8::encode_utf8(palette_spec()[j % 8]);
                    &&& (#[trigger] c.min_max_fill_colors@[j])@ == rgba_spec(hex, "0.18"@)
                    &&& c.min_max_line_colors@[j]@ == rgba_spec(hex, "0.35"@)
                    &&& c.mean_fill_colors@[j]@ == rgba_spec(hex, "0.22"@)
                },
        decreases num_groups - i,
    {
        let color = palette[i % 8];
        proof {
            lemma_palette_rgba_ok((i % 8) as int);
        }
        c.min_max_trace_indices.push(1 + 3 * i);
        c.min_max_fill_colors.push(rgba(color, "0.18"));
        c.min_max_line_colors.push(rgba(color, "0.35"));
        c.mean_fill_trace_indices.push(3 + 3 * i);
        c.mean_fill_colors.push(rgba(color, "0.22"));
        i = i + 1;
        assert(c.min_max_trace_indices@ =~= Seq::new(i as nat, |j: int| (1 + 3 * j) as usize));
        assert(c.mean_fill_trace_indices@ =~= Seq::new(i as nat, |j: int| (3 + 3 * j) as usize));
    }
    let mut k: usize = 0;
    while k < 8
        invariant
            k <= 8,
            c.fps_shape_indices@ == Seq::new(k as nat, |j: int| j as usize),
            c.fps_annotation_indices@ == Seq::new(k as nat, |j: int| j as usize),
            c.min_max_trace_indices@ == Seq::new(num_groups as nat, |j: int| (1 + 3 * j) as usize),
            c.mean_fill_trace_indices@ == Seq::new(num_groups as nat, |j: int| (3 + 3 * j) as usize),
            c.min_max_fill_colors@.len() == num_groups,
            c.min_max_line_colors@.len() == num_groups,
            c.mean_fill_colors@.len() == num_groups,
            forall|j: int|
                0 <= j < num_groups ==> {
                    let hex = vstd::utf8::encode_utf8(palette_spec()[j % 8]);
                    &&& (#[trigger] c.min_max_fill_colors@[j])@ == rgba_spec(hex, "0.18"@)
                    &&& c.min_max_line_colors@[j]@ == rgba_spec(hex, "0.35"@)
                    &&& c.mean_fill_colors@[j]@ == rgba_spec(hex, "0.22"@)
                },
        decreases 8 - k,
    {
        c.fps_shape_indices.push(k);
        c.fps_annotation_indices.push(k);
        k = k + 1;
        assert(c.fps_shape_indices@ =~= Seq::new(k as nat, |j: int| j as usize));
        assert(c.fps_annotation_indices@ =~= Seq::new(k as nat, |j: int| j as usize));
    }
    c
}

} // verus!
