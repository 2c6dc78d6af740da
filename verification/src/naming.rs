use vstd::prelude::*;

use vstd::string::StringSliceAdditionalSpecFns;

use crate::numtext::{decimal, format_u128};
use crate::text::{
    chars_less, chars_of, is_space, join, lemma_seq_less_total, lemma_seq_less_trans,
    lemma_word_len, owned, push_chars, push_str, seq_less, split_once, split_once_chars, string_of,
    str_equal, trim, trim_chars, trim_end, trim_start, word_len, words, join_words, str_less,
};

verus! {

// ---------------------------------------------------------------------------
// Sorted lists of distinct names (the order of `BTreeSet<String>`)
// ---------------------------------------------------------------------------

/// The character sequences of a list of strings.
pub open spec fn names_view(v: Seq<String>) -> Seq<Seq<char>> {
    v.map_values(|s: String| s@)
}

/// Each name comes before the next one: sorted, and no name twice.
pub open spec fn strictly_sorted(s: Seq<Seq<char>>) -> bool {
    forall|i: int, j: int| 0 <= i < j < s.len() ==> seq_less(s[i], s[j])
}

/// `x` is one of the names of `s`.
pub open spec fn has_name(s: Seq<Seq<char>>, x: Seq<char>) -> bool {
    exists|i: int| 0 <= i < s.len() && s[i] == x
}

/// The sorted list of the distinct names of a finite set (what a
/// `BTreeSet<String>` holding them yields).
pub open spec fn sorted_names(names: Set<Seq<char>>) -> Seq<Seq<char>> {
    choose|v: Seq<Seq<char>>|
        strictly_sorted(v) && forall|x: Seq<char>| has_name(v, x) <==> names.contains(x)
}

/// Two sorted lists of distinct names with the same names are equal.
pub proof fn lemma_sorted_unique(v: Seq<Seq<char>>, w: Seq<Seq<char>>)
    requires
        strictly_sorted(v),
        strictly_sorted(w),
        forall|x: Seq<char>| has_name(v, x) <==> has_name(w, x),
    ensures
        v == w,
    decreases v.len(),
{
    if v.len() == 0 {
        if w.len() > 0 {
            assert(has_name(w, w[0]));
        }
    } else if w.len() == 0 {
        assert(has_name(v, v[0]));
    } else {
        assert(has_name(v, v[0]));
        assert(has_name(w, w[0]));
        let j = choose|j: int| 0 <= j < w.len() && w[j] == v[0];
        let i = choose|i: int| 0 <= i < v.len() && v[i] == w[0];
        lemma_seq_less_total(v[0], w[0]);
        if i > 0 && j > 0 {
            assert(seq_less(v[0], v[i]));
            assert(seq_less(w[0], w[j]));
        }
        assert(v[0] == w[0]);
        let v1 = v.drop_first();
        let w1 = w.drop_first();
        assert forall|x: Seq<char>| has_name(v1, x) <==> has_name(w1, x) by {
            if has_name(v1, x) {
                let a = choose|a: int| 0 <= a < v1.len() && v1[a] == x;
                assert(v[a + 1] == x);
                assert(has_name(v, x));
                let b = choose|b: int| 0 <= b < w.len() && w[b] == x;
                assert(seq_less(v[0], v[a + 1]));
                lemma_seq_less_total(x, x);
                assert(b != 0);
                assert(w1[b - 1] == x);
            }
            if has_name(w1, x) {
                let a = choose|a: int| 0 <= a < w1.len() && w1[a] == x;
                assert(w[a + 1] == x);
                assert(has_name(w, x));
                let b = choose|b: int| 0 <= b < v.len() && v[b] == x;
                assert(seq_less(w[0], w[a + 1]));
                lemma_seq_less_total(x, x);
                assert(b != 0);
                assert(v1[b - 1] == x);
            }
        }
        lemma_sorted_unique(v1, w1);
        assert(v =~= seq![v[0]] + v1);
        assert(w =~= seq![w[0]] + w1);
    }
}

/// A sorted list of distinct names is the sorted list of its set of names.
pub proof fn lemma_sorted_names(v: Seq<Seq<char>>, names: Set<Seq<char>>)
    requires
        strictly_sorted(v),
        forall|x: Seq<char>| has_name(v, x) <==> names.contains(x),
    ensures
        sorted_names(names) == v,
{
    let w = sorted_names(names);
    assert(strictly_sorted(w) && forall|x: Seq<char>| has_name(w, x) <==> names.contains(x));
    lemma_sorted_unique(v, w);
}

/// Adds `name` to a sorted list of distinct names, at its place, unless it
/// is there already.
pub fn insert_sorted(v: &mut Vec<String>, name: String)
    requires
        strictly_sorted(names_view(old(v)@)),
    ensures
        strictly_sorted(names_view(final(v)@)),
        forall|x: Seq<char>|
            has_name(names_view(final(v)@), x) <==> (has_name(names_view(old(v)@), x) || x
                == name@),
{
    let ghost old_names = names_view(v@);
    let mut i: usize = 0;
    while i < v.len() && str_less(v[i].as_str(), name.as_str())
        invariant
            v@ == old(v)@,
            old_names == names_view(v@),
            i <= v.len(),
            forall|j: int| 0 <= j < i ==> seq_less(old_names[j], name@),
        decreases v.len() - i,
    {
        assert(old_names[i as int] == v@[i as int]@);
        i = i + 1;
    }
    if i < v.len() && str_equal(v[i].as_str(), name.as_str()) {
        assert(old_names[i as int] == name@);
        return;
    }
    proof {
        if i < v.len() {
            assert(old_names[i as int] == v@[i as int]@);
            lemma_seq_less_total(old_names[i as int], name@);
            assert(seq_less(name@, old_names[i as int]));
        }
    }
    v.insert(i, name);
    let ghost new_names = names_view(v@);
    assert(new_names =~= old_names.insert(i as int, name@));
    assert forall|a: int, b: int| 0 <= a < b < new_names.len() implies seq_less(
        new_names[a],
        new_names[b],
    ) by {
        if b < i {
        } else if b == i {
        } else if a < i {
            if b - 1 > i {
                lemma_seq_less_trans(name@, old_names[i as int], old_names[b - 1]);
            }
            lemma_seq_less_trans(old_names[a], name@, old_names[b - 1]);
        } else if a == i {
            if b - 1 > i {
                lemma_seq_less_trans(name@, old_names[i as int], old_names[b - 1]);
            }
        } else {
        }
    }
    assert forall|x: Seq<char>| has_name(new_names, x) <==> (has_name(old_names, x) || x
        == name@) by {
        if has_name(new_names, x) {
            let k = choose|k: int| 0 <= k < new_names.len() && new_names[k] == x;
            if k < i {
                assert(old_names[k] == x);
            } else if k > i {
                assert(old_names[k - 1] == x);
            }
        }
        if has_name(old_names, x) {
            let k = choose|k: int| 0 <= k < old_names.len() && old_names[k] == x;
            if k < i {
                assert(new_names[k] == x);
            } else {
                assert(new_names[k + 1] == x);
            }
        }
        if x == name@ {
            assert(new_names[i as int] == x);
        }
    }
}

/// The distinct names of `names`, sorted.
pub fn sorted_distinct(names: &Vec<String>) -> (r: Vec<String>)
    ensures
        strictly_sorted(names_view(r@)),
        forall|x: Seq<char>| has_name(names_view(r@), x) <==> has_name(names_view(names@), x),
{
    let mut r: Vec<String> = Vec::new();
    let mut i: usize = 0;
    while i < names.len()
        invariant
            i <= names.len(),
            strictly_sorted(names_view(r@)),
            forall|x: Seq<char>|
                has_name(names_view(r@), x) <==> has_name(names_view(names@).take(i as int), x),
        decreases names.len() - i,
    {
        let ghost before = r@;
        insert_sorted(&mut r, owned(names[i].as_str()));
        proof {
            let t = names_view(names@).take(i + 1);
            assert forall|x: Seq<char>| has_name(names_view(r@), x) <==> has_name(t, x) by {
                if has_name(names_view(names@).take(i as int), x) {
                    let k = choose|k: int|
                        0 <= k < names_view(names@).take(i as int).len() && names_view(
                            names@,
                        ).take(i as int)[k] == x;
                    assert(t[k] == x);
                }
                if has_name(t, x) {
                    let k = choose|k: int| 0 <= k < t.len() && t[k] == x;
                    if k < i {
                        assert(names_view(names@).take(i as int)[k] == x);
                    }
                }
                assert(t[i as int] == names@[i as int]@);
            }
        }
        i = i + 1;
    }
    assert(names_view(names@).take(names.len() as int) =~= names_view(names@));
    r
}

// ---------------------------------------------------------------------------
// Group and folder names
// ---------------------------------------------------------------------------

/// A group name splits at its first space into the date-time before it and
/// the rest after it (`splitn(2, ' ')`); without a space, all of it is the
/// date-time and the rest is empty.
pub open spec fn group_name_parts_spec(name: Seq<char>) -> (Seq<char>, Seq<char>) {
    match split_once(name, ' ') {
        Some((a, b)) => (a, b),
        None => (name, Seq::<char>::empty()),
    }
}

/// The date-time part and the rest of a group name.
pub fn split_group_name_parts(group_name: &str) -> (r: (String, String))
    ensures
        (r.0@, r.1@) == group_name_parts_spec(group_name@),
{
    let s = chars_of(group_name);
    match split_once_chars(&s, ' ') {
        Some((a, b)) => (string_of(&a), string_of(&b)),
        None => (string_of(&s), String::new()),
    }
}

/// The date-time part of a result subfolder name: what comes before its
/// first space, trimmed; none without a space.
pub open spec fn subfolder_datetime_spec(name: Seq<char>) -> Option<Seq<char>> {
    match split_once(name, ' ') {
        Some((a, _)) => Some(trim(a)),
        None => None,
    }
}

/// The date-time part of a result subfolder name.
pub fn get_subfolder_datetime_part(subfolder_name: &str) -> (r: Option<String>)
    ensures
        match r {
            Some(s) => subfolder_datetime_spec(subfolder_name@) == Some(s@),
            None => subfolder_datetime_spec(subfolder_name@) is None,
        },
{
    let s = chars_of(subfolder_name);
    match split_once_chars(&s, ' ') {
        Some((a, _)) => Some(string_of(&trim_chars(&a))),
        None => None,
    }
}

/// A character that a file name cannot hold on Windows.
pub open spec fn is_invalid_file_char(c: char) -> bool {
    c == '<' || c == '>' || c == ':' || c == '"' || c == '/' || c == '\\' || c == '|' || c
        == '?' || c == '*'
}

/// `s` with every character that a file name cannot hold replaced by `_`.
pub open spec fn replace_invalid_file_chars(s: Seq<char>) -> Seq<char> {
    s.map_values(|c: char| if is_invalid_file_char(c) { '_' } else { c })
}

/// The file-name-safe form of a text: invalid characters as `_`, runs of
/// white space as one `_` (none at either end), and `unknown` when nothing
/// is left.
pub open spec fn sanitize_spec(v: Seq<char>) -> Seq<char> {
    let squashed = trim(join(words(replace_invalid_file_chars(v)), seq!['_']));
    if squashed.len() == 0 {
        "unknown"@
    } else {
        squashed
    }
}

/// The file-name-safe form of a text, when there is one.
pub fn sanitize_filename_part(value: Option<&str>) -> (r: Option<String>)
    ensures
        match value {
            Some(v) => r is Some && r.unwrap()@ == sanitize_spec(v@),
            None => r is None,
        },
{
    match value {
        None => None,
        Some(v) => {
            let s = chars_of(v);
            let mut cleaned: Vec<char> = Vec::new();
            let mut i: usize = 0;
            while i < s.len()
                invariant
                    i <= s.len(),
                    cleaned@ == replace_invalid_file_chars(s@.take(i as int)),
                decreases s.len() - i,
            {
                let c = s[i];
                if c == '<' || c == '>' || c == ':' || c == '"' || c == '/' || c == '\\' || c
                    == '|' || c == '?' || c == '*' {
                    cleaned.push('_');
                } else {
                    cleaned.push(c);
                }
                i = i + 1;
                assert(cleaned@ =~= replace_invalid_file_chars(s@.take(i as int)));
            }
            assert(s@.take(s.len() as int) =~= s@);
            let mut sep: Vec<char> = Vec::new();
            sep.push('_');
            assert(sep@ =~= seq!['_']);
            let joined = join_words(&cleaned, &sep);
            let squashed = trim_chars(&joined);
            if squashed.len() == 0 {
                Some(owned("unknown"))
            } else {
                Some(string_of(&squashed))
            }
        },
    }
}

/// A character that a file name part can hold: no invalid character and
/// no white space.
pub open spec fn is_clean_char(c: char) -> bool {
    !is_invalid_file_char(c) && !is_space(c)
}

/// Every character of `s` can stand in a file name part.
pub open spec fn all_clean(s: Seq<char>) -> bool {
    forall|i: int| 0 <= i < s.len() ==> is_clean_char(#[trigger] s[i])
}

/// The words of a text without invalid characters are clean.
proof fn lemma_words_clean(s: Seq<char>)
    requires
        forall|i: int| 0 <= i < s.len() ==> !is_invalid_file_char(#[trigger] s[i]),
    ensures
        forall|i: int| 0 <= i < words(s).len() ==> all_clean(#[trigger] words(s)[i]),
    decreases s.len(),
{
    if s.len() == 0 {
        assert(words(s).len() == 0);
    } else if is_space(s[0]) {
        lemma_words_clean(s.drop_first());
        assert(words(s) == words(s.drop_first()));
    } else {
        lemma_word_len(s);
        let w = s.take(word_len(s) as int);
        let rest = s.skip(word_len(s) as int);
        lemma_words_clean(rest);
        assert(words(s) == seq![w] + words(rest));
        assert(all_clean(w)) by {
            assert forall|k: int| 0 <= k < w.len() implies is_clean_char(#[trigger] w[k]) by {
                assert(w[k] == s[k]);
            }
        }
        assert forall|i: int| 0 <= i < words(s).len() implies all_clean(#[trigger] words(s)[i]) by {
            if i > 0 {
                assert(words(s)[i] == words(rest)[i - 1]);
            }
        }
    }
}

/// Clean pieces joined by a clean separator are clean.
proof fn lemma_join_clean(ws: Seq<Seq<char>>, sep: Seq<char>)
    requires
        forall|i: int| 0 <= i < ws.len() ==> all_clean(#[trigger] ws[i]),
        all_clean(sep),
    ensures
        all_clean(join(ws, sep)),
    decreases ws.len(),
{
    if ws.len() > 1 {
        lemma_join_clean(ws.drop_last(), sep);
        let a = join(ws.drop_last(), sep);
        let b = ws.last();
        assert(ws[ws.len() - 1] == b);
        assert forall|k: int| 0 <= k < (a + sep + b).len() implies is_clean_char(
            #[trigger] (a + sep + b)[k],
        ) by {
            if k < a.len() {
            } else if k < a.len() + sep.len() {
                assert((a + sep + b)[k] == sep[k - a.len()]);
            } else {
                assert((a + sep + b)[k] == b[k - a.len() - sep.len()]);
            }
        }
    } else if ws.len() == 1 {
        assert(ws[0] == join(ws, sep));
    }
}

/// A text without white space has none to trim.
proof fn lemma_trim_clean(s: Seq<char>)
    requires
        all_clean(s),
    ensures
        trim(s) == s,
{
    assert(trim_start(s) == s) by {
        if s.len() > 0 {
            assert(is_clean_char(s[0]));
        }
    }
    assert(trim_end(s) == s) by {
        if s.len() > 0 {
            assert(is_clean_char(s[s.len() - 1]));
        }
    }
}

/// The file-name-safe form of a text is never empty and holds neither a
/// character that a file name cannot hold nor white space.
pub proof fn lemma_sanitize_clean(v: Seq<char>)
    ensures
        sanitize_spec(v).len() > 0,
        all_clean(sanitize_spec(v)),
{
    let r = replace_invalid_file_chars(v);
    assert forall|i: int| 0 <= i < r.len() implies !is_invalid_file_char(#[trigger] r[i]) by {}
    lemma_words_clean(r);
    assert(all_clean(seq!['_'])) by {
        assert(seq!['_'][0] == '_');
    }
    lemma_join_clean(words(r), seq!['_']);
    lemma_trim_clean(join(words(r), seq!['_']));
    reveal_strlit("unknown");
    assert(all_clean("unknown"@)) by {
        assert forall|k: int| 0 <= k < 7 implies is_clean_char(#[trigger] "unknown"@[k]) by {}
    }
}

/// The report's file name holds neither a character that a file name
/// cannot hold nor white space.
pub proof fn lemma_results_file_name_clean(subfolders: Seq<Seq<char>>)
    ensures
        all_clean(results_file_name_spec(subfolders)),
{
    reveal_strlit("results.ir_bench.rs.html");
    let tail = "results.ir_bench.rs.html"@;
    assert(all_clean(tail)) by {
        assert forall|k: int| 0 <= k < tail.len() implies is_clean_char(#[trigger] tail[k]) by {}
    }
    let d = dated_names(subfolders);
    if d.len() > 0 {
        let a = sanitize_spec(subfolder_datetime_spec(max_name(d)).unwrap());
        let b = sanitize_spec(subfolder_datetime_spec(min_name(d)).unwrap());
        lemma_sanitize_clean(subfolder_datetime_spec(max_name(d)).unwrap());
        lemma_sanitize_clean(subfolder_datetime_spec(min_name(d)).unwrap());
        let u = seq!['_'];
        let all = a + u + b + u + tail;
        assert forall|k: int| 0 <= k < all.len() implies is_clean_char(#[trigger] all[k]) by {
            if k < a.len() {
                assert(all[k] == a[k]);
            } else if k < a.len() + 1 {
                assert(all[k] == '_');
            } else if k < a.len() + 1 + b.len() {
                assert(all[k] == b[k - a.len() - 1]);
            } else if k < a.len() + 2 + b.len() {
                assert(all[k] == '_');
            } else {
                assert(all[k] == tail[k - a.len() - 2 - b.len()]);
            }
        }
    }
}

/// The smallest name of a non-empty list.
pub open spec fn min_name(s: Seq<Seq<char>>) -> Seq<char>
    decreases s.len(),
{
    if s.len() <= 1 {
        s[0]
    } else {
        let m = min_name(s.drop_last());
        if seq_less(s.last(), m) {
            s.last()
        } else {
            m
        }
    }
}

/// The largest name of a non-empty list.
pub open spec fn max_name(s: Seq<Seq<char>>) -> Seq<char>
    decreases s.len(),
{
    if s.len() <= 1 {
        s[0]
    } else {
        let m = max_name(s.drop_last());
        if seq_less(m, s.last()) {
            s.last()
        } else {
            m
        }
    }
}

/// The names of `s` that hold a space (the result subfolders).
pub open spec fn dated_names(s: Seq<Seq<char>>) -> Seq<Seq<char>> {
    s.filter(|n: Seq<char>| subfolder_datetime_spec(n) is Some)
}

/// The file name of the report for a results directory whose subfolders are
/// `subfolders`: `<latest>_<earliest>_results.ir_bench.rs.html`, from the
/// date-times of the last and first dated subfolder in sorted order, or
/// `results.ir_bench.rs.html` when no subfolder is dated.
pub open spec fn results_file_name_spec(subfolders: Seq<Seq<char>>) -> Seq<char> {
    let d = dated_names(subfolders);
    if d.len() == 0 {
        "results.ir_bench.rs.html"@
    } else {
        sanitize_spec(subfolder_datetime_spec(max_name(d)).unwrap()) + seq!['_'] + sanitize_spec(
            subfolder_datetime_spec(min_name(d)).unwrap(),
        ) + seq!['_'] + "results.ir_bench.rs.html"@
    }
}

/// The file name of the report, from the names of the subfolders of the
/// results directory.
pub fn results_output_file_name(subfolder_names: &Vec<String>) -> (r: String)
    ensures
        r@ == results_file_name_spec(names_view(subfolder_names@)),
{
    let ghost all = names_view(subfolder_names@);
    let mut dated: Vec<String> = Vec::new();
    let mut i: usize = 0;
    while i < subfolder_names.len()
        invariant
            i <= subfolder_names.len(),
            all == names_view(subfolder_names@),
            names_view(dated@) == dated_names(all.take(i as int)),
        decreases subfolder_names.len() - i,
    {
        let ghost t = all.take(i + 1);
        assert(t.drop_last() =~= all.take(i as int));
        assert(t.last() == subfolder_names@[i as int]@);
        let keep = match get_subfolder_datetime_part(subfolder_names[i].as_str()) {
            Some(_) => true,
            None => false,
        };
        if keep {
            dated.push(owned(subfolder_names[i].as_str()));
        }
        proof {
            let f = |n: Seq<char>| subfolder_datetime_spec(n) is Some;
            assert(t.filter(f) == t.drop_last().filter(f) + if f(t.last()) {
                seq![t.last()]
            } else {
                Seq::<Seq<char>>::empty()
            }) by {
                reveal(Seq::filter);
            }
            assert(names_view(dated@) =~= dated_names(t));
        }
        i = i + 1;
    }
    assert(all.take(subfolder_names.len() as int) =~= all);
    if dated.len() == 0 {
        return owned("results.ir_bench.rs.html");
    }
    let mut lo: usize = 0;
    let mut hi: usize = 0;
    let mut k: usize = 1;
    let ghost d = names_view(dated@);
    assert(d.take(1).len() == 1);
    while k < dated.len()
        invariant
            d == names_view(dated@),
            1 <= k <= dated.len(),
            lo < k,
            hi < k,
            d[lo as int] == min_name(d.take(k as int)),
            d[hi as int] == max_name(d.take(k as int)),
        decreases dated.len() - k,
    {
        let ghost t = d.take(k + 1);
        assert(t.drop_last() =~= d.take(k as int));
        assert(t.last() == d[k as int]);
        let ck = chars_of(dated[k].as_str());
        let cl = chars_of(dated[lo].as_str());
        let ch = chars_of(dated[hi].as_str());
        if chars_less(&ck, &cl) {
            lo = k;
        }
        if chars_less(&ch, &ck) {
            hi = k;
        }
        k = k + 1;
    }
    assert(d.take(dated.len() as int) =~= d);
    let latest = get_subfolder_datetime_part(dated[hi].as_str());
    let earliest = get_subfolder_datetime_part(dated[lo].as_str());
    let (latest, earliest) = match (latest, earliest) {
        (Some(a), Some(b)) => (a, b),
        _ => {
            proof {
                assert(d.contains(d[hi as int]));
                assert(d.contains(d[lo as int]));
                lemma_filter_contains(all, d[hi as int]);
                lemma_filter_contains(all, d[lo as int]);
            }
            return owned("results.ir_bench.rs.html");
        },
    };
    proof {
        lemma_filter_contains(all, d[hi as int]);
        lemma_filter_contains(all, d[lo as int]);
        assert(d.contains(d[hi as int]));
        assert(d.contains(d[lo as int]));
    }
    let a = sanitize_filename_part(Some(latest.as_str()));
    let b = sanitize_filename_part(Some(earliest.as_str()));
    let mut out = String::new();
    match (a, b) {
        (Some(a), Some(b)) => {
            push_str(&mut out, a.as_str());
            push_str(&mut out, "_");
            push_str(&mut out, b.as_str());
            push_str(&mut out, "_");
        },
        _ => {},
    }
    push_str(&mut out, "results.ir_bench.rs.html");
    proof {
        reveal_strlit("_");
    }
    assert(out@ =~= results_file_name_spec(all));
    out
}

/// What a dated list holds is dated.
proof fn lemma_filter_contains(all: Seq<Seq<char>>, x: Seq<char>)
    ensures
        dated_names(all).contains(x) ==> subfolder_datetime_spec(x) is Some,
{
    let f = |n: Seq<char>| subfolder_datetime_spec(n) is Some;
    if dated_names(all).contains(x) {
        let i = choose|i: int| 0 <= i < dated_names(all).len() && dated_names(all)[i] == x;
        all.lemma_filter_pred(f, i);
    }
}

// ---------------------------------------------------------------------------
// Colors
// ---------------------------------------------------------------------------

/// The colors that groups take in turn.
pub open spec fn palette_spec() -> Seq<Seq<char>> {
    seq![
        "#636EFA"@,
        "#EF553B"@,
        "#00CC96"@,
        "#AB63FA"@,
        "#FFA15A"@,
        "#19D3F3"@,
        "#FF6692"@,
        "#B6E880"@,
    ]
}

/// The colors that groups take in turn.
pub fn palette_colors() -> (r: Vec<&'static str>)
    ensures
        r@.len() == 8,
        forall|i: int| 0 <= i < 8 ==> (#[trigger] r@[i])@ == palette_spec()[i],
{
    let mut r: Vec<&'static str> = Vec::new();
    r.push("#636EFA");
    r.push("#EF553B");
    r.push("#00CC96");
    r.push("#AB63FA");
    r.push("#FFA15A");
    r.push("#19D3F3");
    r.push("#FF6692");
    r.push("#B6E880");
    r
}

/// The palette color for position `index`.
pub fn palette_color(index: usize) -> (r: String)
    ensures
        r@ == palette_spec()[(index % 8) as int],
{
    let p = palette_colors();
    owned(p[index % 8])
}

/// The colors of the groups, by group name.
pub struct GroupColorMap {
    pub names: Vec<String>,
    pub colors: Vec<String>,
}

/// Each group, taken in sorted order, gets the next palette color.
pub open spec fn group_color_map_wf(m: GroupColorMap) -> bool {
    &&& strictly_sorted(names_view(m.names@))
    &&& m.colors@.len() == m.names@.len()
    &&& forall|i: int| 0 <= i < m.names@.len() ==> (#[trigger] m.colors@[i])@ == palette_spec()[i % 8]
}

/// Colors for the distinct names of `group_names`, given in sorted order
/// from the palette, in turn.
pub fn build_group_color_map(group_names: Vec<String>) -> (r: GroupColorMap)
    ensures
        group_color_map_wf(r),
        forall|x: Seq<char>|
            has_name(names_view(r.names@), x) <==> has_name(names_view(group_names@), x),
{
    let names = sorted_distinct(&group_names);
    let mut colors: Vec<String> = Vec::new();
    let mut i: usize = 0;
    while i < names.len()
        invariant
            i <= names.len(),
            colors@.len() == i,
            forall|j: int| 0 <= j < i ==> (#[trigger] colors@[j])@ == palette_spec()[j % 8],
        decreases names.len() - i,
    {
        colors.push(palette_color(i));
        i = i + 1;
    }
    GroupColorMap { names, colors }
}

/// The place of `name` among the names of the map.
pub open spec fn name_index(m: GroupColorMap, name: Seq<char>) -> int {
    choose|i: int| 0 <= i < m.names@.len() && m.names@[i]@ == name
}

/// The color of group `name`: the palette color of its place in the sorted
/// names, if it is there.
pub open spec fn map_color(m: GroupColorMap, name: Seq<char>) -> Option<Seq<char>> {
    if has_name(names_view(m.names@), name) {
        Some(palette_spec()[name_index(m, name) % 8])
    } else {
        None
    }
}

impl GroupColorMap {
    /// The color of group `name`.
    pub fn get(&self, name: &str) -> (r: Option<String>)
        requires
            group_color_map_wf(*self),
        ensures
            match r {
                Some(c) => map_color(*self, name@) == Some(c@),
                None => map_color(*self, name@) is None,
            },
    {
        let mut i: usize = 0;
        while i < self.names.len()
            invariant
                group_color_map_wf(*self),
                i <= self.names.len(),
                forall|j: int| 0 <= j < i ==> self.names@[j]@ != name@,
            decreases self.names.len() - i,
        {
            if str_equal(self.names[i].as_str(), name) {
                assert(self.colors@[i as int]@ == palette_spec()[(i as int) % 8]);
                proof {
                    assert(names_view(self.names@)[i as int] == name@);
                    assert(has_name(names_view(self.names@), name@));
                    let k = name_index(*self, name@);
                    if k != i {
                        if k < i {
                            assert(seq_less(names_view(self.names@)[k], names_view(self.names@)[i as int]));
                        } else {
                            assert(seq_less(names_view(self.names@)[i as int], names_view(self.names@)[k]));
                        }
                        lemma_seq_less_total(name@, name@);
                    }
                }
                return Some(owned(self.colors[i].as_str()));
            }
            i = i + 1;
        }
        proof {
            if has_name(names_view(self.names@), name@) {
                let k = choose|k: int|
                    0 <= k < names_view(self.names@).len() && names_view(self.names@)[k] == name@;
                assert(self.names@[k]@ == name@);
            }
        }
        None
    }
}


/// The color code after its leading `#` characters, as bytes.
pub open spec fn strip_hashes(b: Seq<u8>) -> Seq<u8>
    decreases b.len(),
{
    if b.len() > 0 && b[0] == 0x23 {
        strip_hashes(b.drop_first())
    } else {
        b
    }
}

/// The value of a hexadecimal digit byte.
pub open spec fn hex_digit(b: u8) -> Option<u8> {
    if 0x30 <= b <= 0x39 {
        Some((b - 0x30) as u8)
    } else if 0x61 <= b <= 0x66 {
        Some((b - 0x61 + 10) as u8)
    } else if 0x41 <= b <= 0x46 {
        Some((b - 0x41 + 10) as u8)
    } else {
        None
    }
}

/// What `u8::from_str_radix(text, 16)` gives for a two-byte text: two
/// hexadecimal digits, or `+` and one digit.
pub open spec fn hex_pair(b0: u8, b1: u8) -> Option<u8> {
    if b0 == 0x2b {
        hex_digit(b1)
    } else {
        match (hex_digit(b0), hex_digit(b1)) {
            (Some(x), Some(y)) => Some((x * 16 + y) as u8),
            _ => None,
        }
    }
}

/// One color channel of a six-digit code, 255 when it does not read.
pub open spec fn channel(h: Seq<u8>, i: int) -> u8 {
    match hex_pair(h[i], h[i + 1]) {
        Some(v) => v,
        None => 255,
    }
}

/// `rgba(r,g,b,alpha)` for a `#RRGGBB` color, white when the code does not
/// have six bytes after its `#`s.
pub open spec fn rgba_spec(hex: Seq<u8>, alpha: Seq<char>) -> Seq<char> {
    let h = strip_hashes(hex);
    if h.len() != 6 {
        "rgba(255,255,255,"@ + alpha + ")"@
    } else {
        "rgba("@ + decimal(channel(h, 0) as nat) + ","@ + decimal(channel(h, 2) as nat) + ","@
            + decimal(channel(h, 4) as nat) + ","@ + alpha + ")"@
    }
}

/// Slicing the code into channels cuts no character in two: the slices are
/// taken at bytes 2 and 4 only when there are six bytes.
pub open spec fn rgba_slices_whole(hex: Seq<u8>) -> bool {
    let h = strip_hashes(hex);
    h.len() == 6 ==> !vstd::utf8::is_continuation_byte(h[2]) && !vstd::utf8::is_continuation_byte(
        h[4],
    )
}

/// The value of a hexadecimal digit byte.
fn hex_digit_value(b: u8) -> (r: Option<u8>)
    ensures
        r == hex_digit(b),
{
    if 0x30 <= b && b <= 0x39 {
        Some(b - 0x30)
    } else if 0x61 <= b && b <= 0x66 {
        Some(b - 0x61 + 10)
    } else if 0x41 <= b && b <= 0x46 {
        Some(b - 0x41 + 10)
    } else {
        None
    }
}

/// One color channel from two bytes.
fn channel_value(b0: u8, b1: u8) -> (r: u8)
    ensures
        r == match hex_pair(b0, b1) {
            Some(v) => v,
            None => 255u8,
        },
{
    if b0 == 0x2b {
        match hex_digit_value(b1) {
            Some(v) => v,
            None => 255,
        }
    } else {
        match (hex_digit_value(b0), hex_digit_value(b1)) {
            (Some(x), Some(y)) => x * 16 + y,
            _ => 255,
        }
    }
}

/// A `#RRGGBB` color with an opacity, as CSS `rgba(...)`; the opacity is
/// given as the text that goes into the color.
pub fn rgba(hex_color: &str, alpha: &str) -> (r: String)
    requires
        rgba_slices_whole(hex_color.spec_bytes()),
    ensures
        r@ == rgba_spec(hex_color.spec_bytes(), alpha@),
{
    let bytes = hex_color.as_bytes();
    let mut k: usize = 0;
    assert(bytes@.skip(0) =~= bytes@);
    while k < bytes.len() && bytes[k] == 0x23
        invariant
            k <= bytes.len(),
            strip_hashes(bytes@) == strip_hashes(bytes@.skip(k as int)),
        decreases bytes.len() - k,
    {
        assert(bytes@.skip(k as int).drop_first() =~= bytes@.skip(k + 1));
        k = k + 1;
    }
    let ghost h = bytes@.skip(k as int);
    assert(strip_hashes(h) == h);
    let mut out = String::new();
    if bytes.len() - k != 6 {
        push_str(&mut out, "rgba(255,255,255,");
        push_str(&mut out, alpha);
        push_str(&mut out, ")");
        return out;
    }
    let r = channel_value(bytes[k], bytes[k + 1]);
    let g = channel_value(bytes[k + 2], bytes[k + 3]);
    let b = channel_value(bytes[k + 4], bytes[k + 5]);
    assert(h[0] == bytes@[k as int] && h[1] == bytes@[k + 1]);
    assert(h[2] == bytes@[k + 2] && h[3] == bytes@[k + 3]);
    assert(h[4] == bytes@[k + 4] && h[5] == bytes@[k + 5]);
    push_str(&mut out, "rgba(");
    push_chars(&mut out, &format_u128(r as u128));
    push_str(&mut out, ",");
    push_chars(&mut out, &format_u128(g as u128));
    push_str(&mut out, ",");
    push_chars(&mut out, &format_u128(b as u128));
    push_str(&mut out, ",");
    push_str(&mut out, alpha);
    push_str(&mut out, ")");
    out
}


/// The palette colors are plain `#RRGGBB` codes, which `rgba` takes.
pub proof fn lemma_palette_rgba_ok(k: int)
    requires
        0 <= k < 8,
    ensures
        rgba_slices_whole(vstd::utf8::encode_utf8(palette_spec()[k])),
        strip_hashes(vstd::utf8::encode_utf8(palette_spec()[k])).len() == 6,
{
    reveal_strlit("#636EFA");
    reveal_strlit("#EF553B");
    reveal_strlit("#00CC96");
    reveal_strlit("#AB63FA");
    reveal_strlit("#FFA15A");
    reveal_strlit("#19D3F3");
    reveal_strlit("#FF6692");
    reveal_strlit("#B6E880");
    let c = palette_spec()[k];
    assert(c.len() == 7);
    assert(c[0] == '#');
    assert(c[1] != '#');
    assert(vstd::utf8::is_ascii_chars(c));
    vstd::utf8::is_ascii_chars_encode_utf8(c);
    let b = vstd::utf8::encode_utf8(c);
    assert(b[0] == 0x23u8);
    assert(b[1] != 0x23u8);
    assert(strip_hashes(b.drop_first()) == b.drop_first());
    assert(strip_hashes(b) == b.drop_first());
}

} // verus!
