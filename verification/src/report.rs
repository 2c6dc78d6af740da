use vstd::prelude::*;

use crate::html::{
    build_note_preview, escape_html, escape_html_spec, escape_html_with_line_breaks,
    html_line_breaks, note_preview_spec,
};
use crate::config::{GroupFileKind, classify_group_file, group_file_kind_spec};
use crate::ini::{IniData, ini_map, parse_ini_text};
use crate::naming::{
    GroupColorMap, group_color_map_wf, group_name_parts_spec, has_name, insert_sorted,
    lemma_sorted_names, map_color, names_view, sorted_names, split_group_name_parts,
    strictly_sorted,
};
use crate::text::{lemma_seq_less_total, lemma_seq_less_trans, seq_less, str_less};
use crate::numtext::{decimal, format_u128, format_u128_padded, zero_pad};
use crate::text::{
    ascii_lower_seq, ascii_lowercase_chars, chars_end_with, chars_of, concat, ends_with,
    contains, lemma_concat_contains_part, lemma_concat_push, lemma_contains_self, lemma_contains_trans, lemma_contains_within, owned, push_chars, push_str, replace_all, replace_chars, str_equal, string_of,
    trim, trim_chars,
};

verus! {

// ---------------------------------------------------------------------------
// What the report knows of each result group
// ---------------------------------------------------------------------------

/// An entry of a list kept by name (the order of a `BTreeMap<String, _>`):
/// a note file with its text, an INI file with its path, or a parsed INI
/// file.
pub struct Named<T> {
    pub name: String,
    pub value: T,
}

/// One result group: its folder name, its INI files with their paths, its
/// parsed INI files and its notes with their texts, each list kept by file
/// name.
pub struct GroupReport {
    pub group_name: String,
    pub ini_links: Vec<Named<String>>,
    pub ini_files: Vec<Named<IniData>>,
    pub notes: Vec<Named<String>>,
}

/// The value of entry `name` of a list (the first with that name).
pub open spec fn named_lookup<T>(v: Seq<Named<T>>, name: Seq<char>) -> Option<T>
    decreases v.len(),
{
    if v.len() == 0 {
        None
    } else if v[0].name@ == name {
        Some(v[0].value)
    } else {
        named_lookup(v.drop_first(), name)
    }
}

/// The names of the entries of a list.
pub open spec fn entry_names<T>(v: Seq<Named<T>>) -> Seq<Seq<char>> {
    v.map_values(|e: Named<T>| e.name@)
}

/// The lookup finds the first entry of the name, or none when no entry has
/// it.
proof fn lemma_named_lookup<T>(v: Seq<Named<T>>, name: Seq<char>)
    ensures
        match named_lookup(v, name) {
            Some(t) => exists|i: int|
                0 <= i < v.len() && v[i].name@ == name && v[i].value == t && forall|j: int|
                    0 <= j < i ==> v[j].name@ != name,
            None => forall|j: int| 0 <= j < v.len() ==> v[j].name@ != name,
        },
    decreases v.len(),
{
    if v.len() > 0 && v[0].name@ != name {
        lemma_named_lookup(v.drop_first(), name);
        match named_lookup(v, name) {
            Some(t) => {
                let i = choose|i: int|
                    0 <= i < v.drop_first().len() && v.drop_first()[i].name@ == name
                        && v.drop_first()[i].value == t && forall|j: int|
                        0 <= j < i ==> v.drop_first()[j].name@ != name;
                assert forall|j: int| 0 <= j < i + 1 implies v[j].name@ != name by {
                    if j > 0 {
                        assert(v[j] == v.drop_first()[j - 1]);
                    }
                }
                assert(v[i + 1] == v.drop_first()[i]);
            },
            None => {
                assert forall|j: int| 0 <= j < v.len() implies v[j].name@ != name by {
                    if j > 0 {
                        assert(v[j] == v.drop_first()[j - 1]);
                    }
                }
            },
        }
    }
}

/// The lookup at the first entry of a name.
proof fn lemma_named_lookup_at<T>(v: Seq<Named<T>>, name: Seq<char>, i: int)
    requires
        0 <= i < v.len(),
        v[i].name@ == name,
        forall|j: int| 0 <= j < i ==> v[j].name@ != name,
    ensures
        named_lookup(v, name) == Some(v[i].value),
{
    lemma_named_lookup(v, name);
    match named_lookup(v, name) {
        Some(t) => {
            let k = choose|k: int|
                0 <= k < v.len() && v[k].name@ == name && v[k].value == t && forall|j: int|
                    0 <= j < k ==> v[j].name@ != name;
            if k < i {
            } else if i < k {
            }
        },
        None => {},
    }
}

/// The lookup for a name that no entry has.
proof fn lemma_named_lookup_none<T>(v: Seq<Named<T>>, name: Seq<char>)
    requires
        forall|j: int| 0 <= j < v.len() ==> v[j].name@ != name,
    ensures
        named_lookup(v, name) is None,
{
    lemma_named_lookup(v, name);
}

/// Texts found by name are the views of the values found.
proof fn lemma_named_text(v: Seq<Named<String>>, name: Seq<char>)
    ensures
        named_text(v, name) == match named_lookup(v, name) {
            Some(t) => Some(t@),
            None => None,
        },
    decreases v.len(),
{
    if v.len() > 0 {
        lemma_named_text(v.drop_first(), name);
    }
}

/// Parsed files found by name are the views of the values found.
proof fn lemma_file_data(v: Seq<Named<IniData>>, name: Seq<char>)
    ensures
        file_data(v, name) == match named_lookup(v, name) {
            Some(d) => Some(d@),
            None => None,
        },
    decreases v.len(),
{
    if v.len() > 0 {
        lemma_file_data(v.drop_first(), name);
    }
}

/// Sets entry `name` of a list kept by name to `value`: in the place of an
/// entry of that name, or at its place in the order of names.
pub fn insert_named<T>(v: &mut Vec<Named<T>>, name: String, value: T)
    ensures
        named_lookup(final(v)@, name@) == Some(value),
        forall|x: Seq<char>| x != name@ ==> named_lookup(final(v)@, x) == named_lookup(old(v)@, x),
        strictly_sorted(entry_names(old(v)@)) ==> strictly_sorted(entry_names(final(v)@)),
{
    let ghost old_v = v@;
    let ghost nm = name@;
    let mut p: usize = 0;
    while p < v.len()
        invariant
            v@ == old_v,
            nm == name@,
            p <= v.len(),
            forall|j: int| 0 <= j < p ==> seq_less(#[trigger] old_v[j].name@, nm),
        ensures
            p < v.len() ==> !seq_less(old_v[p as int].name@, nm),
        decreases v.len() - p,
    {
        let before = str_less(v[p].name.as_str(), name.as_str());
        if !before {
            break;
        }
        p = p + 1;
    }
    proof {
        assert forall|j: int| 0 <= j < p implies old_v[j].name@ != nm by {
            lemma_seq_less_total(nm, nm);
            assert(seq_less(old_v[j].name@, nm));
        }
    }
    if p < v.len() && str_equal(v[p].name.as_str(), name.as_str()) {
        v.set(p, Named { name, value });
        proof {
            lemma_named_lookup_at(v@, nm, p as int);
            assert forall|x: Seq<char>| x != nm implies named_lookup(v@, x) == named_lookup(
                old_v,
                x,
            ) by {
                lemma_named_lookup(old_v, x);
                match named_lookup(old_v, x) {
                    Some(t) => {
                        let i = choose|i: int|
                            0 <= i < old_v.len() && old_v[i].name@ == x && old_v[i].value == t
                                && forall|j: int| 0 <= j < i ==> old_v[j].name@ != x;
                        assert(i != p);
                        assert forall|j: int| 0 <= j < i implies v@[j].name@ != x by {
                            if j != p {
                                assert(v@[j] == old_v[j]);
                            }
                        }
                        assert(v@[i] == old_v[i]);
                        lemma_named_lookup_at(v@, x, i);
                    },
                    None => {
                        assert forall|j: int| 0 <= j < v@.len() implies v@[j].name@ != x by {
                            if j != p {
                                assert(v@[j] == old_v[j]);
                            }
                        }
                        lemma_named_lookup_none(v@, x);
                    },
                }
            }
            assert(entry_names(v@) =~= entry_names(old_v));
        }
    } else {
        proof {
            if p < old_v.len() && strictly_sorted(entry_names(old_v)) {
                lemma_seq_less_total(old_v[p as int].name@, nm);
            }
        }
        v.insert(p, Named { name, value });
        proof {
            assert forall|j: int| 0 <= j < p implies v@[j].name@ != nm by {
                assert(v@[j] == old_v[j]);
            }
            lemma_named_lookup_at(v@, nm, p as int);
            assert forall|x: Seq<char>| x != nm implies named_lookup(v@, x) == named_lookup(
                old_v,
                x,
            ) by {
                lemma_named_lookup(old_v, x);
                match named_lookup(old_v, x) {
                    Some(t) => {
                        let i = choose|i: int|
                            0 <= i < old_v.len() && old_v[i].name@ == x && old_v[i].value == t
                                && forall|j: int| 0 <= j < i ==> old_v[j].name@ != x;
                        let k = if i < p { i } else { i + 1 };
                        assert(v@[k] == old_v[i]);
                        assert forall|j: int| 0 <= j < k implies v@[j].name@ != x by {
                            if j < p {
                                assert(v@[j] == old_v[j]);
                            } else if j > p {
                                assert(v@[j] == old_v[j - 1]);
                            }
                        }
                        lemma_named_lookup_at(v@, x, k);
                    },
                    None => {
                        assert forall|j: int| 0 <= j < v@.len() implies v@[j].name@ != x by {
                            if j < p {
                                assert(v@[j] == old_v[j]);
                            } else if j > p {
                                assert(v@[j] == old_v[j - 1]);
                            }
                        }
                        lemma_named_lookup_none(v@, x);
                    },
                }
            }
            if strictly_sorted(entry_names(old_v)) {
                let on = entry_names(old_v);
                let vn = entry_names(v@);
                assert forall|a: int, b: int| 0 <= a < b < vn.len() implies seq_less(
                    vn[a],
                    vn[b],
                ) by {
                    if b < p {
                        assert(vn[a] == on[a] && vn[b] == on[b]);
                    } else if b == p {
                        assert(vn[a] == on[a]);
                        assert(seq_less(old_v[a].name@, nm));
                    } else if a < p {
                        assert(vn[a] == on[a] && vn[b] == on[b - 1]);
                        assert(seq_less(on[a], nm));
                        if b - 1 > p {
                            lemma_seq_less_trans(nm, on[p as int], on[b - 1]);
                        }
                        lemma_seq_less_trans(on[a], nm, on[b - 1]);
                    } else if a == p {
                        assert(vn[b] == on[b - 1]);
                        if b - 1 > p {
                            lemma_seq_less_trans(nm, on[p as int], on[b - 1]);
                        }
                    } else {
                        assert(vn[a] == on[a - 1] && vn[b] == on[b - 1]);
                    }
                }
            }
        }
    }
}

/// The text kept of a note file: its trimmed content, when not blank.
pub open spec fn note_content(content: Seq<char>) -> Option<Seq<char>> {
    if trim(content).len() > 0 {
        Some(trim(content))
    } else {
        None
    }
}

/// Sets the text of entry `name` of a list of texts.
fn insert_text(v: &mut Vec<Named<String>>, name: String, text: String)
    ensures
        named_text(final(v)@, name@) == Some(text@),
        forall|x: Seq<char>| x != name@ ==> named_text(final(v)@, x) == named_text(old(v)@, x),
        strictly_sorted(entry_names(old(v)@)) ==> strictly_sorted(entry_names(final(v)@)),
{
    let ghost nm = name@;
    let ghost before = v@;
    insert_named(v, name, text);
    proof {
        lemma_named_text(v@, nm);
        assert forall|x: Seq<char>| x != nm implies named_text(v@, x) == named_text(before, x) by {
            lemma_named_text(v@, x);
            lemma_named_text(before, x);
        }
    }
}

impl GroupReport {
    /// A group with no files yet.
    pub fn new(group_name: String) -> (r: GroupReport)
        ensures
            r.group_name@ == group_name@,
            r.ini_links@.len() == 0,
            r.ini_files@.len() == 0,
            r.notes@.len() == 0,
    {
        GroupReport { group_name, ini_links: Vec::new(), ini_files: Vec::new(), notes: Vec::new() }
    }

    /// Takes in one file of the group's folder, given its name, its path and
    /// its content when it could be read. An INI file is linked by its path
    /// and, when read, parsed; a note is kept with its trimmed text when that
    /// is not blank; other files are not kept here. Each list stays in the
    /// order of the names.
    pub fn add_file(&mut self, file_name: String, path: String, content: Option<String>)
        ensures
            final(self).group_name == old(self).group_name,
            strictly_sorted(entry_names(old(self).ini_links@)) ==> strictly_sorted(
                entry_names(final(self).ini_links@),
            ),
            strictly_sorted(entry_names(old(self).ini_files@)) ==> strictly_sorted(
                entry_names(final(self).ini_files@),
            ),
            strictly_sorted(entry_names(old(self).notes@)) ==> strictly_sorted(
                entry_names(final(self).notes@),
            ),
            match group_file_kind_spec(file_name@) {
                GroupFileKind::Ini => {
                    &&& named_text(final(self).ini_links@, file_name@) == Some(path@)
                    &&& forall|x: Seq<char>|
                        x != file_name@ ==> named_text(final(self).ini_links@, x) == named_text(
                            old(self).ini_links@,
                            x,
                        )
                    &&& match content {
                        Some(c) => {
                            &&& file_data(final(self).ini_files@, file_name@) == Some(ini_map(c@))
                            &&& forall|x: Seq<char>|
                                x != file_name@ ==> file_data(final(self).ini_files@, x) == file_data(
                                    old(self).ini_files@,
                                    x,
                                )
                        },
                        None => final(self).ini_files == old(self).ini_files,
                    }
                    &&& final(self).notes == old(self).notes
                },
                GroupFileKind::Note => {
                    &&& final(self).ini_links == old(self).ini_links
                    &&& final(self).ini_files == old(self).ini_files
                    &&& match content {
                        Some(c) => match note_content(c@) {
                            Some(t) => {
                                &&& named_text(final(self).notes@, file_name@) == Some(t)
                                &&& forall|x: Seq<char>|
                                    x != file_name@ ==> named_text(final(self).notes@, x)
                                        == named_text(old(self).notes@, x)
                            },
                            None => final(self).notes == old(self).notes,
                        },
                        None => final(self).notes == old(self).notes,
                    }
                },
                _ => {
                    &&& final(self).ini_links == old(self).ini_links
                    &&& final(self).ini_files == old(self).ini_files
                    &&& final(self).notes == old(self).notes
                },
            },
    {
        match classify_group_file(file_name.as_str()) {
            GroupFileKind::Ini => {
                let ghost nm = file_name@;
                let key = owned(file_name.as_str());
                insert_text(&mut self.ini_links, key, path);
                match content {
                    Some(c) => {
                        let data = parse_ini_text(c.as_str());
                        let ghost before = self.ini_files@;
                        insert_named(&mut self.ini_files, file_name, data);
                        proof {
                            lemma_file_data(self.ini_files@, nm);
                            assert forall|x: Seq<char>| x != nm implies file_data(
                                self.ini_files@,
                                x,
                            ) == file_data(before, x) by {
                                lemma_file_data(self.ini_files@, x);
                                lemma_file_data(before, x);
                            }
                        }
                    },
                    None => {},
                }
            },
            GroupFileKind::Note => {
                match content {
                    Some(c) => {
                        let t = trim_chars(&chars_of(c.as_str()));
                        if t.len() > 0 {
                            insert_text(&mut self.notes, file_name, string_of(&t));
                        }
                    },
                    None => {},
                }
            },
            _ => {},
        }
    }
}

/// The label of a folder: its name, or `unknown` for a folder without one.
pub open spec fn folder_label(name: Option<Seq<char>>) -> Seq<char> {
    match name {
        Some(n) => n,
        None => "unknown"@,
    }
}

/// The group of a run recording, given the names of the folders above it,
/// nearest first: the label of the nearest folder that is not the runs
/// folder; none when there is no such folder.
pub open spec fn group_of_run_spec(ancestors: Seq<Option<Seq<char>>>, runs_folder: Seq<char>) -> Option<
    Seq<char>,
>
    decreases ancestors.len(),
{
    if ancestors.len() == 0 {
        None
    } else if folder_label(ancestors[0]) != runs_folder {
        Some(folder_label(ancestors[0]))
    } else {
        group_of_run_spec(ancestors.drop_first(), runs_folder)
    }
}

/// The names of folders as character sequences.
pub open spec fn folder_names_view(v: Seq<Option<String>>) -> Seq<Option<Seq<char>>> {
    v.map_values(
        |o: Option<String>|
            match o {
                Some(s) => Some(s@),
                None => None,
            },
    )
}

/// The group name of a run recording, from the names of the folders above
/// it (nearest first); none when all of them are the runs folder.
pub fn group_name_of_run(ancestors: &Vec<Option<String>>, runs_folder: &str) -> (r: Option<String>)
    ensures
        match r {
            Some(g) => group_of_run_spec(folder_names_view(ancestors@), runs_folder@) == Some(g@),
            None => group_of_run_spec(folder_names_view(ancestors@), runs_folder@) is None,
        },
{
    let ghost names = folder_names_view(ancestors@);
    let mut i: usize = 0;
    assert(names.skip(0) =~= names);
    while i < ancestors.len()
        invariant
            i <= ancestors.len(),
            names == folder_names_view(ancestors@),
            group_of_run_spec(names, runs_folder@) == group_of_run_spec(names.skip(i as int), runs_folder@),
        decreases ancestors.len() - i,
    {
        let label = match &ancestors[i] {
            Some(n) => owned(n.as_str()),
            None => owned("unknown"),
        };
        assert(names.skip(i as int)[0] == names[i as int]);
        assert(label@ == folder_label(names[i as int]));
        if !str_equal(label.as_str(), runs_folder) {
            return Some(label);
        }
        assert(names.skip(i as int).drop_first() =~= names.skip(i + 1));
        i = i + 1;
    }
    None
}

/// The names of the groups, in order.
pub open spec fn group_names(groups: Seq<GroupReport>) -> Seq<Seq<char>> {
    groups.map_values(|g: GroupReport| g.group_name@)
}

/// The names of the groups.
pub fn group_name_list(groups: &Vec<GroupReport>) -> (r: Vec<String>)
    ensures
        names_view(r@) == group_names(groups@),
{
    let mut r: Vec<String> = Vec::new();
    let mut i: usize = 0;
    while i < groups.len()
        invariant
            i <= groups.len(),
            r@.len() == i,
            forall|j: int| 0 <= j < i ==> (#[trigger] r@[j])@ == groups@[j].group_name@,
        decreases groups.len() - i,
    {
        r.push(owned(groups[i].group_name.as_str()));
        i = i + 1;
    }
    assert(names_view(r@) =~= group_names(groups@));
    r
}

// ---------------------------------------------------------------------------
// Ordering the groups by name
// ---------------------------------------------------------------------------

/// The names never decrease along `s`.
pub open spec fn names_ascending(s: Seq<GroupReport>) -> bool {
    forall|i: int, j: int| 0 <= i < j < s.len() ==> !seq_less(s[j].group_name@, s[i].group_name@)
}

/// The groups of `s` named `k`, in their order.
pub open spec fn with_name(s: Seq<GroupReport>, k: Seq<char>) -> Seq<GroupReport> {
    s.filter(|g: GroupReport| g.group_name@ == k)
}

proof fn lemma_with_name_none(s: Seq<GroupReport>, k: Seq<char>)
    requires
        forall|i: int| 0 <= i < s.len() ==> s[i].group_name@ != k,
    ensures
        with_name(s, k) == Seq::<GroupReport>::empty(),
    decreases s.len(),
{
    reveal(Seq::filter);
    if s.len() > 0 {
        lemma_with_name_none(s.drop_last(), k);
    }
}

proof fn lemma_with_name_push(s: Seq<GroupReport>, e: GroupReport, k: Seq<char>)
    ensures
        with_name(s.push(e), k) == if e.group_name@ == k {
            with_name(s, k).push(e)
        } else {
            with_name(s, k)
        },
{
    reveal(Seq::filter);
    assert(s.push(e).drop_last() =~= s);
}

proof fn lemma_with_name_add(a: Seq<GroupReport>, b: Seq<GroupReport>, k: Seq<char>)
    ensures
        with_name(a + b, k) == with_name(a, k) + with_name(b, k),
    decreases b.len(),
{
    if b.len() == 0 {
        assert(a + b =~= a);
        lemma_with_name_none(b, k);
        assert(with_name(a, k) + with_name(b, k) =~= with_name(a, k));
    } else {
        let c = b.drop_last();
        let e = b.last();
        lemma_with_name_add(a, c, k);
        assert(b =~= c.push(e));
        assert(a + b =~= (a + c).push(e));
        lemma_with_name_push(a + c, e, k);
        lemma_with_name_push(c, e, k);
        if e.group_name@ == k {
            assert(with_name(a, k) + with_name(c, k).push(e) =~= (with_name(a, k) + with_name(
                c,
                k,
            )).push(e));
        }
    }
}

/// Before one name and not after another means before the other.
proof fn lemma_less_then_not_less(e: Seq<char>, a: Seq<char>, b: Seq<char>)
    requires
        seq_less(e, a),
        !seq_less(b, a),
    ensures
        seq_less(e, b),
{
    lemma_seq_less_total(a, b);
    if a != b {
        lemma_seq_less_trans(e, a, b);
    }
}

/// The groups in order of their names; groups of the same name keep their
/// order (`sort_by` on the name, a stable sort).
pub fn sort_groups_by_name(groups: Vec<GroupReport>) -> (r: Vec<GroupReport>)
    ensures
        r@.len() == groups@.len(),
        names_ascending(r@),
        forall|k: Seq<char>| with_name(r@, k) == with_name(groups@, k),
{
    let ghost input = groups@;
    let mut rest = groups;
    let n = rest.len();
    let mut items: Vec<GroupReport> = Vec::new();
    while rest.len() > 0
        invariant
            items@.len() + rest@.len() == n,
            forall|j: int| 0 <= j < items@.len() ==> items@[j] == input[n - 1 - j],
            forall|j: int| 0 <= j < rest@.len() ==> rest@[j] == input[j],
            input.len() == n,
        decreases rest.len(),
    {
        let e = rest.pop().unwrap();
        items.push(e);
    }
    let mut r: Vec<GroupReport> = Vec::new();
    let mut m: usize = items.len();
    while m > 0
        invariant
            items@.len() == m,
            m <= n,
            input.len() == n,
            forall|j: int| 0 <= j < m ==> items@[j] == input[n - 1 - j],
            names_ascending(r@),
            r@.len() == n - m,
            forall|q: Seq<char>| with_name(r@, q) == with_name(input.take(n - m), q),
        decreases m,
    {
        let e = items.pop().unwrap();
        m = m - 1;
        assert(e == input[n - 1 - m]);
        let ghost en = e.group_name@;
        let mut p: usize = 0;
        while p < r.len()
            invariant
                p <= r@.len(),
                en == e.group_name@,
                forall|j: int| 0 <= j < p ==> !seq_less(en, #[trigger] r@[j].group_name@),
            ensures
                p < r@.len() ==> seq_less(en, r@[p as int].group_name@),
            decreases r@.len() - p,
        {
            if str_less(e.group_name.as_str(), r[p].group_name.as_str()) {
                break;
            }
            p = p + 1;
        }
        let ghost old_r = r@;
        proof {
            assert forall|j: int| p <= j < old_r.len() implies old_r[j].group_name@ != en
                && seq_less(en, old_r[j].group_name@) by {
                if j > p {
                    lemma_less_then_not_less(en, old_r[p as int].group_name@, old_r[j].group_name@);
                }
                lemma_seq_less_total(en, en);
            }
        }
        r.insert(p, e);
        let ghost new_r = r@;
        assert(new_r =~= old_r.take(p as int) + seq![e] + old_r.skip(p as int));
        assert(old_r =~= old_r.take(p as int) + old_r.skip(p as int));
        assert(input.take(n - m) =~= input.take(n - 1 - m).push(e));
        assert forall|q: Seq<char>| with_name(new_r, q) == with_name(input.take(n - m), q) by {
            let a = old_r.take(p as int);
            let b = old_r.skip(p as int);
            lemma_with_name_add(a + seq![e], b, q);
            lemma_with_name_add(a, seq![e], q);
            lemma_with_name_add(a, b, q);
            lemma_with_name_push(input.take(n - 1 - m), e, q);
            lemma_with_name_push(Seq::<GroupReport>::empty(), e, q);
            assert(Seq::<GroupReport>::empty().push(e) =~= seq![e]);
            if en == q {
                assert forall|j: int| 0 <= j < b.len() implies b[j].group_name@ != q by {
                    assert(b[j] == old_r[p + j]);
                }
                lemma_with_name_none(b, q);
                assert(with_name(old_r, q) =~= with_name(a, q));
                assert(with_name(new_r, q) =~= with_name(a, q).push(e));
            } else {
                lemma_with_name_none(Seq::<GroupReport>::empty(), q);
                assert(with_name(seq![e], q) =~= Seq::<GroupReport>::empty());
                assert(with_name(new_r, q) =~= with_name(a, q) + with_name(b, q));
            }
        }
        assert forall|x: int, y: int| 0 <= x < y < new_r.len() implies !seq_less(
            new_r[y].group_name@,
            new_r[x].group_name@,
        ) by {
            if x < p && y > p {
                assert(new_r[y] == old_r[y - 1]);
                assert(new_r[x] == old_r[x]);
            } else if x < p && y < p {
                assert(new_r[y] == old_r[y] && new_r[x] == old_r[x]);
            } else if x < p && y == p {
                assert(new_r[x] == old_r[x]);
            } else if x == p && y > p {
                assert(new_r[y] == old_r[y - 1]);
                lemma_seq_less_total(en, old_r[y - 1].group_name@);
            } else if x > p {
                assert(new_r[x] == old_r[x - 1]);
                assert(new_r[y] == old_r[y - 1]);
            }
        }
    }
    assert(input.take(n as int) =~= input);
    r
}

/// The text of entry `name` of a list (the first with that name).
pub open spec fn named_text(notes: Seq<Named<String>>, name: Seq<char>) -> Option<Seq<char>>
    decreases notes.len(),
{
    if notes.len() == 0 {
        None
    } else if notes[0].name@ == name {
        Some(notes[0].value@)
    } else {
        named_text(notes.drop_first(), name)
    }
}

/// The text of note `name` of group `group` (the first group of that name).
pub open spec fn group_note(groups: Seq<GroupReport>, group: Seq<char>, name: Seq<char>) -> Option<
    Seq<char>,
>
    decreases groups.len(),
{
    if groups.len() == 0 {
        None
    } else if groups[0].group_name@ == group {
        named_text(groups[0].notes@, name)
    } else {
        group_note(groups.drop_first(), group, name)
    }
}

/// The names of all notes of all groups.
pub open spec fn note_names(groups: Seq<GroupReport>) -> Set<Seq<char>> {
    Set::new(
        |x: Seq<char>|
            exists|i: int, j: int|
                0 <= i < groups.len() && 0 <= j < groups[i].notes@.len() && groups[i].notes@[j].name@
                    == x,
    )
}

/// The text of note `name` of group `group`, looked up.
fn find_group_note(groups: &Vec<GroupReport>, group: &str, name: &str) -> (r: Option<String>)
    ensures
        match r {
            Some(t) => group_note(groups@, group@, name@) == Some(t@),
            None => group_note(groups@, group@, name@) is None,
        },
{
    let mut i: usize = 0;
    assert(groups@.skip(0) =~= groups@);
    while i < groups.len()
        invariant
            i <= groups.len(),
            group_note(groups@, group@, name@) == group_note(groups@.skip(i as int), group@, name@),
        decreases groups.len() - i,
    {
        assert(groups@.skip(i as int)[0] == groups@[i as int]);
        if str_equal(groups[i].group_name.as_str(), group) {
            let notes = &groups[i].notes;
            let mut j: usize = 0;
            assert(notes@.skip(0) =~= notes@);
            while j < notes.len()
                invariant
                    j <= notes.len(),
                    group_note(groups@, group@, name@) == named_text(notes@.skip(j as int), name@),
                decreases notes.len() - j,
            {
                assert(notes@.skip(j as int)[0] == notes@[j as int]);
                if str_equal(notes[j].name.as_str(), name) {
                    return Some(owned(notes[j].value.as_str()));
                }
                assert(notes@.skip(j as int).drop_first() =~= notes@.skip(j + 1));
                j = j + 1;
            }
            return None;
        }
        assert(groups@.skip(i as int).drop_first() =~= groups@.skip(i + 1));
        i = i + 1;
    }
    None
}

/// The names of all notes, sorted, each once.
fn sorted_note_names(groups: &Vec<GroupReport>) -> (r: Vec<String>)
    ensures
        names_view(r@) == sorted_names(note_names(groups@)),
{
    let mut r: Vec<String> = Vec::new();
    let mut i: usize = 0;
    while i < groups.len()
        invariant
            i <= groups.len(),
            strictly_sorted(names_view(r@)),
            forall|x: Seq<char>|
                has_name(names_view(r@), x) <==> exists|a: int, b: int|
                    0 <= a < i && 0 <= b < groups@[a].notes@.len() && groups@[a].notes@[b].name@
                        == x,
        decreases groups.len() - i,
    {
        let notes = &groups[i].notes;
        let mut j: usize = 0;
        while j < notes.len()
            invariant
                i < groups.len(),
                notes == &groups@[i as int].notes,
                j <= notes.len(),
                strictly_sorted(names_view(r@)),
                forall|x: Seq<char>|
                    has_name(names_view(r@), x) <==> (exists|a: int, b: int|
                        0 <= a < i && 0 <= b < groups@[a].notes@.len()
                            && groups@[a].notes@[b].name@ == x) || (exists|b: int|
                        0 <= b < j && notes@[b].name@ == x),
            decreases notes.len() - j,
        {
            let ghost before = names_view(r@);
            insert_sorted(&mut r, owned(notes[j].name.as_str()));
            proof {
                assert forall|x: Seq<char>|
                    has_name(names_view(r@), x) <==> (exists|a: int, b: int|
                        0 <= a < i && 0 <= b < groups@[a].notes@.len()
                            && groups@[a].notes@[b].name@ == x) || (exists|b: int|
                        0 <= b < j + 1 && notes@[b].name@ == x) by {
                    if exists|b: int| 0 <= b < j + 1 && notes@[b].name@ == x {
                        let b = choose|b: int| 0 <= b < j + 1 && notes@[b].name@ == x;
                        if b < j {
                            assert(exists|b: int| 0 <= b < j && notes@[b].name@ == x);
                        }
                    }
                    if x == notes@[j as int].name@ {
                        assert(exists|b: int| 0 <= b < j + 1 && notes@[b].name@ == x);
                    }
                }
            }
            j = j + 1;
        }
        proof {
            assert forall|x: Seq<char>|
                has_name(names_view(r@), x) <==> exists|a: int, b: int|
                    0 <= a < i + 1 && 0 <= b < groups@[a].notes@.len()
                        && groups@[a].notes@[b].name@ == x by {
                if exists|a: int, b: int|
                    0 <= a < i + 1 && 0 <= b < groups@[a].notes@.len()
                        && groups@[a].notes@[b].name@ == x {
                    let (a, b) = choose|a: int, b: int|
                        0 <= a < i + 1 && 0 <= b < groups@[a].notes@.len()
                            && groups@[a].notes@[b].name@ == x;
                    if a == i {
                        assert(exists|b: int| 0 <= b < notes@.len() && notes@[b].name@ == x);
                    } else {
                        assert(exists|a: int, b: int|
                            0 <= a < i && 0 <= b < groups@[a].notes@.len()
                                && groups@[a].notes@[b].name@ == x);
                    }
                }
            }
        }
        i = i + 1;
    }
    proof {
        assert forall|x: Seq<char>| has_name(names_view(r@), x) <==> note_names(groups@).contains(x) by {
        }
        lemma_sorted_names(names_view(r@), note_names(groups@));
    }
    r
}

// ---------------------------------------------------------------------------
// Note rows of the comparison table
// ---------------------------------------------------------------------------

/// The kind shown for a note file: Markdown for `.md` (in any case),
/// otherwise text.
pub open spec fn note_kind(name: Seq<char>) -> Seq<char> {
    if ends_with(ascii_lower_seq(name), ".md"@) {
        "Markdown"@
    } else {
        "Text"@
    }
}

/// The cell of one group in a note row: the note, folded, with its preview,
/// or a dash when the group has no such note.
pub open spec fn note_cell(group: Seq<char>, text: Option<Seq<char>>) -> Seq<char> {
    match text {
        Some(t) => "<td class=\"value-cell notes-row-cell\" data-group=\""@ + escape_html_spec(group)
            + "\"><details class=\"notes-file-details\"><summary class=\"notes-file-summary\"><span>View</span><span class=\"notes-row-preview\">"@
            + escape_html_spec(note_preview_spec(t)) + "</span></summary><pre class=\"notes-body\">"@
            + escape_html_spec(t) + "</pre></details></td>"@,
        None => "<td class=\"value-cell notes-row-cell\" data-group=\""@ + escape_html_spec(group)
            + "\"><span class=\"notes-empty\">-</span></td>"@,
    }
}

/// The cells of a note row, one per group.
pub open spec fn note_cells(groups: Seq<GroupReport>, all_groups: Seq<Seq<char>>, name: Seq<char>) -> Seq<
    char,
> {
    concat(all_groups.map_values(|g: Seq<char>| note_cell(g, group_note(groups, g, name))))
}

/// The row of one note file.
pub open spec fn note_row(groups: Seq<GroupReport>, all_groups: Seq<Seq<char>>, name: Seq<char>) -> Seq<
    char,
> {
    "<tr class=\"notes-collapsible-row\"><td class=\"key-cell notes-file-key-cell\">"@
        + escape_html_spec(name)
        + "</td><td class=\"comment-cell notes-file-comment-cell\"><span class=\"notes-entry-kind\">"@
        + note_kind(name) + "</span></td>"@ + note_cells(groups, all_groups, name) + "</tr>"@
}

/// The note rows: one per note file name of any group, in sorted order, or
/// one row that says that there are none.
pub open spec fn notes_rows_spec(groups: Seq<GroupReport>, all_groups: Seq<Seq<char>>) -> Seq<char> {
    let names = sorted_names(note_names(groups));
    if names.len() == 0 {
        "<tr><td class=\"notes-row-cell\" colspan=\""@ + decimal(all_groups.len() + 2)
            + "\"><span class=\"notes-empty\">No *.ir_bench.* files found.</span></td></tr>"@
    } else {
        concat(names.map_values(|n: Seq<char>| note_row(groups, all_groups, n)))
    }
}

/// The kind shown for a note file.
fn note_kind_text(name: &str) -> (r: &'static str)
    ensures
        r@ == note_kind(name@),
{
    let lower = ascii_lowercase_chars(&chars_of(name));
    if chars_end_with(&lower, &chars_of(".md")) {
        "Markdown"
    } else {
        "Text"
    }
}

/// The cell of one group in a note row.
fn note_cell_html(group: &str, text: &Option<String>) -> (r: String)
    ensures
        r@ == note_cell(
            group@,
            match text {
                Some(t) => Some(t@),
                None => None,
            },
        ),
{
    let mut out = String::new();
    match text {
        Some(t) => {
            push_str(&mut out, "<td class=\"value-cell notes-row-cell\" data-group=\"");
            push_str(&mut out, escape_html(group).as_str());
            push_str(
                &mut out,
                "\"><details class=\"notes-file-details\"><summary class=\"notes-file-summary\"><span>View</span><span class=\"notes-row-preview\">",
            );
            let preview = build_note_preview(t.as_str());
            push_str(&mut out, escape_html(preview.as_str()).as_str());
            push_str(&mut out, "</span></summary><pre class=\"notes-body\">");
            push_str(&mut out, escape_html(t.as_str()).as_str());
            push_str(&mut out, "</pre></details></td>");
        },
        None => {
            push_str(&mut out, "<td class=\"value-cell notes-row-cell\" data-group=\"");
            push_str(&mut out, escape_html(group).as_str());
            push_str(&mut out, "\"><span class=\"notes-empty\">-</span></td>");
        },
    }
    out
}

/// The rows of the note files in the comparison table.
pub fn build_notes_rows_html(groups: &Vec<GroupReport>, all_groups: &Vec<String>) -> (r: String)
    ensures
        r@ == notes_rows_spec(groups@, names_view(all_groups@)),
{
    let names = sorted_note_names(groups);
    let ghost gs = names_view(all_groups@);
    if names.len() == 0 {
        let mut out = owned("<tr><td class=\"notes-row-cell\" colspan=\"");
        push_chars(&mut out, &format_u128((all_groups.len() as u128) + 2));
        push_str(&mut out, "\"><span class=\"notes-empty\">No *.ir_bench.* files found.</span></td></tr>");
        return out;
    }
    let ghost rows = names_view(names@).map_values(|n: Seq<char>| note_row(groups@, gs, n));
    let mut out = String::new();
    let mut i: usize = 0;
    while i < names.len()
        invariant
            i <= names.len(),
            rows == names_view(names@).map_values(|n: Seq<char>| note_row(groups@, gs, n)),
            gs == names_view(all_groups@),
            out@ == concat(rows.take(i as int)),
        decreases names.len() - i,
    {
        let name = names[i].as_str();
        let ghost cells = gs.map_values(|g: Seq<char>| note_cell(g, group_note(groups@, g, name@)));
        let mut row = owned("<tr class=\"notes-collapsible-row\"><td class=\"key-cell notes-file-key-cell\">");
        push_str(&mut row, escape_html(name).as_str());
        push_str(
            &mut row,
            "</td><td class=\"comment-cell notes-file-comment-cell\"><span class=\"notes-entry-kind\">",
        );
        push_str(&mut row, note_kind_text(name));
        push_str(&mut row, "</span></td>");
        let ghost head = row@;
        let mut k: usize = 0;
        while k < all_groups.len()
            invariant
                k <= all_groups.len(),
                gs == names_view(all_groups@),
                cells == gs.map_values(|g: Seq<char>| note_cell(g, group_note(groups@, g, name@))),
                row@ == head + concat(cells.take(k as int)),
            decreases all_groups.len() - k,
        {
            let g = all_groups[k].as_str();
            let text = find_group_note(groups, g, name);
            let cell = note_cell_html(g, &text);
            proof {
                lemma_concat_push(cells.take(k as int), cell@);
                assert(cells.take(k + 1) =~= cells.take(k as int).push(cell@));
            }
            push_str(&mut row, cell.as_str());
            k = k + 1;
        }
        push_str(&mut row, "</tr>");
        proof {
            assert(cells.take(all_groups.len() as int) =~= cells);
            assert(row@ =~= note_row(groups@, gs, name@));
            lemma_concat_push(rows.take(i as int), row@);
            assert(rows.take(i + 1) =~= rows.take(i as int).push(row@));
        }
        push_str(&mut out, row.as_str());
        i = i + 1;
    }
    assert(rows.take(names.len() as int) =~= rows);
    out
}

// ---------------------------------------------------------------------------
// The legend that links each group's INI files
// ---------------------------------------------------------------------------

/// The legend color of a group: its map color, or grey.
pub open spec fn legend_color(colors: GroupColorMap, name: Seq<char>) -> Seq<char> {
    match map_color(colors, name) {
        Some(c) => c,
        None => "#999999"@,
    }
}

/// A link to an INI file, with the path's backslashes written as slashes.
pub open spec fn legend_link(l: Named<String>) -> Seq<char> {
    "<a href=\"file:///"@ + replace_all(l.value@, "\\"@, "/"@)
        + "\" target=\"_blank\" rel=\"noopener noreferrer\">"@ + escape_html_spec(l.name@) + "</a>"@
}

/// The legend entry of a group: its check box in the group's color, its
/// name split into the rest and the date-time, and links to its first two
/// INI files.
pub open spec fn legend_section(g: GroupReport, colors: GroupColorMap) -> Seq<char> {
    let name = escape_html_spec(g.group_name@);
    let parts = group_name_parts_spec(g.group_name@);
    "<div class=\"legend-row\" data-group=\""@ + name
        + "\" draggable=\"true\"><input type=\"checkbox\" class=\"group-visibility-checkbox group-pane-checkbox\" data-group=\""@
        + name + "\" checked style=\"accent-color:"@ + legend_color(colors, g.group_name@)
        + ";\"><div class=\"legend-content\"><div class=\"legend-name-row\"><span class=\"legend-name\"><span class=\"legend-name-rest\">"@
        + escape_html_spec(parts.1) + "</span><span class=\"legend-name-datetime\">"@
        + escape_html_spec(parts.0) + "</span></span></div><span class=\"legend-links\">"@
        + legend_link(g.ini_links@[0]) + " "@ + legend_link(g.ini_links@[1]) + "</span></div></div>"@
}

/// The legend entries of the groups with at least two INI files.
pub open spec fn legend_body(groups: Seq<GroupReport>, colors: GroupColorMap) -> Seq<char>
    decreases groups.len(),
{
    if groups.len() == 0 {
        seq![]
    } else {
        legend_body(groups.drop_last(), colors) + if groups.last().ini_links@.len() >= 2 {
            legend_section(groups.last(), colors)
        } else {
            seq![]
        }
    }
}

/// Whether some group has at least two INI files.
pub open spec fn has_legend_entry(groups: Seq<GroupReport>) -> bool {
    exists|i: int| 0 <= i < groups.len() && groups[i].ini_links@.len() >= 2
}

/// The linked legend: the bulk buttons and an entry per group with at least
/// two INI files, or a note that there is none.
pub open spec fn legend_spec(groups: Seq<GroupReport>, colors: GroupColorMap) -> Seq<char> {
    if has_legend_entry(groups) {
        "<div class=\"linked-legend-controls\"><button type=\"button\" id=\"linked-legend-check-all\" class=\"legend-bulk-button\">check all</button><button type=\"button\" id=\"linked-legend-uncheck-all\" class=\"legend-bulk-button\">uncheck all</button></div><div class='linked-legend'>"@
            + legend_body(groups, colors) + "</div>"@
    } else {
        "<div class=\"no-differences\">No INI files found for linked legend entries.</div>"@
    }
}

/// A link to an INI file.
fn legend_link_html(l: &Named<String>) -> (r: String)
    ensures
        r@ == legend_link(*l),
{
    let mut out = owned("<a href=\"file:///");
    proof {
        reveal_strlit("\\");
    }
    let path = replace_chars(&chars_of(l.value.as_str()), &chars_of("\\"), &chars_of("/"));
    push_chars(&mut out, &path);
    push_str(&mut out, "\" target=\"_blank\" rel=\"noopener noreferrer\">");
    push_str(&mut out, escape_html(l.name.as_str()).as_str());
    push_str(&mut out, "</a>");
    out
}

/// The legend entry of a group with at least two INI files.
fn legend_section_html(g: &GroupReport, colors: &GroupColorMap) -> (r: String)
    requires
        group_color_map_wf(*colors),
        g.ini_links@.len() >= 2,
    ensures
        r@ == legend_section(*g, *colors),
{
    let name = escape_html(g.group_name.as_str());
    let (datetime, rest) = split_group_name_parts(g.group_name.as_str());
    let color = match colors.get(g.group_name.as_str()) {
        Some(c) => c,
        None => owned("#999999"),
    };
    let mut out = owned("<div class=\"legend-row\" data-group=\"");
    push_str(&mut out, name.as_str());
    push_str(
        &mut out,
        "\" draggable=\"true\"><input type=\"checkbox\" class=\"group-visibility-checkbox group-pane-checkbox\" data-group=\"",
    );
    push_str(&mut out, name.as_str());
    push_str(&mut out, "\" checked style=\"accent-color:");
    push_str(&mut out, color.as_str());
    push_str(
        &mut out,
        ";\"><div class=\"legend-content\"><div class=\"legend-name-row\"><span class=\"legend-name\"><span class=\"legend-name-rest\">",
    );
    push_str(&mut out, escape_html(rest.as_str()).as_str());
    push_str(&mut out, "</span><span class=\"legend-name-datetime\">");
    push_str(&mut out, escape_html(datetime.as_str()).as_str());
    push_str(&mut out, "</span></span></div><span class=\"legend-links\">");
    push_str(&mut out, legend_link_html(&g.ini_links[0]).as_str());
    push_str(&mut out, " ");
    push_str(&mut out, legend_link_html(&g.ini_links[1]).as_str());
    push_str(&mut out, "</span></div></div>");
    out
}

/// The legend that links the INI files of each group.
pub fn build_ini_link_legend_html(groups: &Vec<GroupReport>, colors: &GroupColorMap) -> (r: String)
    requires
        group_color_map_wf(*colors),
    ensures
        r@ == legend_spec(groups@, *colors),
{
    let mut body = String::new();
    let mut any = false;
    let mut i: usize = 0;
    while i < groups.len()
        invariant
            i <= groups.len(),
            group_color_map_wf(*colors),
            body@ == legend_body(groups@.take(i as int), *colors),
            any == has_legend_entry(groups@.take(i as int)),
        decreases groups.len() - i,
    {
        let ghost t = groups@.take(i + 1);
        assert(t.drop_last() =~= groups@.take(i as int));
        assert(t.last() == groups@[i as int]);
        if groups[i].ini_links.len() >= 2 {
            push_str(&mut body, legend_section_html(&groups[i], colors).as_str());
            any = true;
            assert(has_legend_entry(t)) by {
                assert(t[i as int].ini_links@.len() >= 2);
            }
        } else {
            assert(body@ =~= legend_body(t, *colors));
            assert(has_legend_entry(t) == has_legend_entry(groups@.take(i as int))) by {
                if has_legend_entry(t) {
                    let k = choose|k: int| 0 <= k < t.len() && t[k].ini_links@.len() >= 2;
                    assert(groups@.take(i as int)[k] == t[k]);
                }
                if has_legend_entry(groups@.take(i as int)) {
                    let k = choose|k: int|
                        0 <= k < groups@.take(i as int).len() && groups@.take(
                            i as int,
                        )[k].ini_links@.len() >= 2;
                    assert(groups@.take(i as int)[k] == t[k]);
                }
            }
        }
        i = i + 1;
    }
    assert(groups@.take(groups.len() as int) =~= groups@);
    if !any {
        return owned("<div class=\"no-differences\">No INI files found for linked legend entries.</div>");
    }
    let mut out = owned(
        "<div class=\"linked-legend-controls\"><button type=\"button\" id=\"linked-legend-check-all\" class=\"legend-bulk-button\">check all</button><button type=\"button\" id=\"linked-legend-uncheck-all\" class=\"legend-bulk-button\">uncheck all</button></div><div class='linked-legend'>",
    );
    push_str(&mut out, body.as_str());
    push_str(&mut out, "</div>");
    out
}

// ---------------------------------------------------------------------------
// Comparing INI values
// ---------------------------------------------------------------------------

/// What a value text reads as when taken as a number (`str::parse::<f64>`):
/// not a number at all, or a key that orders as the number does (`Unordered`
/// for NaN, which is neither below nor above any number).
#[derive(Clone, Copy, PartialEq, Eq, Structural)]
pub enum NumKey {
    Unordered,
    Ordered(i64),
}

/// A value text that reads as a number, with its key.
pub struct NumberEntry {
    pub text: String,
    pub key: NumKey,
}

/// The number that `text` reads as: the key of its first entry, none when
/// it has none (it is no number).
pub open spec fn number_of(numbers: Seq<NumberEntry>, text: Seq<char>) -> Option<NumKey>
    decreases numbers.len(),
{
    if numbers.len() == 0 {
        None
    } else if numbers[0].text@ == text {
        Some(numbers[0].key)
    } else {
        number_of(numbers.drop_first(), text)
    }
}

/// The number that `text` reads as, looked up.
pub fn find_number(numbers: &Vec<NumberEntry>, text: &str) -> (r: Option<NumKey>)
    ensures
        r == number_of(numbers@, text@),
{
    let mut i: usize = 0;
    assert(numbers@.skip(0) =~= numbers@);
    while i < numbers.len()
        invariant
            i <= numbers.len(),
            number_of(numbers@, text@) == number_of(numbers@.skip(i as int), text@),
        decreases numbers.len() - i,
    {
        assert(numbers@.skip(i as int)[0] == numbers@[i as int]);
        if str_equal(numbers[i].text.as_str(), text) {
            return Some(numbers[i].key);
        }
        assert(numbers@.skip(i as int).drop_first() =~= numbers@.skip(i + 1));
        i = i + 1;
    }
    None
}

/// How a value compares with the baseline's.
#[derive(Clone, Copy, PartialEq, Eq, Structural)]
pub enum DiffColor {
    /// Shown green: a value where the baseline has none, or a larger number.
    Better,
    /// Shown red: a missing value, a smaller number, or another text.
    Worse,
    /// Shown blue: the same value, or numbers that are not larger or
    /// smaller.
    Equal,
}

/// The comparison of a value with the baseline value, given what each reads
/// as as a number.
pub open spec fn diff_color_spec(
    baseline: Seq<char>,
    current: Seq<char>,
    baseline_number: Option<NumKey>,
    current_number: Option<NumKey>,
) -> DiffColor {
    if baseline.len() == 0 && current.len() > 0 {
        DiffColor::Better
    } else if baseline.len() > 0 && current.len() == 0 {
        DiffColor::Worse
    } else if baseline_number is Some && current_number is Some {
        match (baseline_number, current_number) {
            (Some(NumKey::Ordered(b)), Some(NumKey::Ordered(c))) => if c > b {
                DiffColor::Better
            } else if c < b {
                DiffColor::Worse
            } else {
                DiffColor::Equal
            },
            _ => DiffColor::Equal,
        }
    } else if baseline == current {
        DiffColor::Equal
    } else {
        DiffColor::Worse
    }
}

/// Compares a value with the baseline value.
pub fn choose_diff_color(
    baseline: &str,
    current: &str,
    baseline_number: Option<NumKey>,
    current_number: Option<NumKey>,
) -> (r: DiffColor)
    ensures
        r == diff_color_spec(baseline@, current@, baseline_number, current_number),
{
    let b_empty = baseline.unicode_len() == 0;
    let c_empty = current.unicode_len() == 0;
    if b_empty && !c_empty {
        return DiffColor::Better;
    }
    if !b_empty && c_empty {
        return DiffColor::Worse;
    }
    match (baseline_number, current_number) {
        (Some(b), Some(c)) => {
            match (b, c) {
                (NumKey::Ordered(x), NumKey::Ordered(y)) => {
                    if y > x {
                        DiffColor::Better
                    } else if y < x {
                        DiffColor::Worse
                    } else {
                        DiffColor::Equal
                    }
                },
                _ => DiffColor::Equal,
            }
        },
        _ => {
            if str_equal(baseline, current) {
                DiffColor::Equal
            } else {
                DiffColor::Worse
            }
        },
    }
}

/// The look of a value cell: text color, diff state, direction and
/// background. The baseline column has a look of its own.
pub open spec fn cell_style(is_baseline: bool, c: DiffColor) -> (
    Seq<char>,
    Seq<char>,
    Seq<char>,
    Seq<char>,
) {
    if is_baseline {
        (
            "#9ccfff"@,
            "baseline"@,
            "baseline"@,
            "linear-gradient(90deg, rgba(107, 163, 208, 0.24), rgba(107, 163, 208, 0.07))"@,
        )
    } else {
        match c {
            DiffColor::Better => (
                "#a5f09d"@,
                "changed"@,
                "better"@,
                "linear-gradient(90deg, rgba(124, 197, 118, 0.32), rgba(124, 197, 118, 0.09))"@,
            ),
            DiffColor::Worse => (
                "#ff9f9f"@,
                "changed"@,
                "worse"@,
                "linear-gradient(90deg, rgba(255, 107, 107, 0.32), rgba(255, 107, 107, 0.09))"@,
            ),
            DiffColor::Equal => (
                "#8ec7ff"@,
                "equal"@,
                "equal"@,
                "linear-gradient(90deg, rgba(107, 163, 208, 0.22), rgba(107, 163, 208, 0.06))"@,
            ),
        }
    }
}

/// The look of a value cell.
pub fn cell_style_of(is_baseline: bool, c: DiffColor) -> (r: (
    &'static str,
    &'static str,
    &'static str,
    &'static str,
))
    ensures
        (r.0@, r.1@, r.2@, r.3@) == cell_style(is_baseline, c),
{
    if is_baseline {
        (
            "#9ccfff",
            "baseline",
            "baseline",
            "linear-gradient(90deg, rgba(107, 163, 208, 0.24), rgba(107, 163, 208, 0.07))",
        )
    } else {
        match c {
            DiffColor::Better => (
                "#a5f09d",
                "changed",
                "better",
                "linear-gradient(90deg, rgba(124, 197, 118, 0.32), rgba(124, 197, 118, 0.09))",
            ),
            DiffColor::Worse => (
                "#ff9f9f",
                "changed",
                "worse",
                "linear-gradient(90deg, rgba(255, 107, 107, 0.32), rgba(255, 107, 107, 0.09))",
            ),
            DiffColor::Equal => (
                "#8ec7ff",
                "equal",
                "equal",
                "linear-gradient(90deg, rgba(107, 163, 208, 0.22), rgba(107, 163, 208, 0.06))",
            ),
        }
    }
}

// ---------------------------------------------------------------------------
// The INI files of the groups
// ---------------------------------------------------------------------------

/// The parsed file `name` of a group's list (the first of that name).
pub open spec fn file_data(files: Seq<Named<IniData>>, name: Seq<char>) -> Option<
    Map<Seq<char>, (Seq<char>, Seq<char>)>,
>
    decreases files.len(),
{
    if files.len() == 0 {
        None
    } else if files[0].name@ == name {
        Some(files[0].value@)
    } else {
        file_data(files.drop_first(), name)
    }
}

/// File `file` of group `group`: of the groups of that name which have the
/// file, the last one's.
pub open spec fn ini_of(groups: Seq<GroupReport>, group: Seq<char>, file: Seq<char>) -> Option<
    Map<Seq<char>, (Seq<char>, Seq<char>)>,
>
    decreases groups.len(),
{
    if groups.len() == 0 {
        None
    } else if groups.last().group_name@ == group && file_data(groups.last().ini_files@, file) is Some {
        file_data(groups.last().ini_files@, file)
    } else {
        ini_of(groups.drop_last(), group, file)
    }
}

/// The names of the parsed INI files of all groups.
pub open spec fn ini_file_names(groups: Seq<GroupReport>) -> Set<Seq<char>> {
    Set::new(
        |x: Seq<char>|
            exists|i: int, j: int|
                0 <= i < groups.len() && 0 <= j < groups[i].ini_files@.len()
                    && groups[i].ini_files@[j].name@ == x,
    )
}

/// The baseline of file `file`: the first group, in table order, that has
/// it.
pub open spec fn baseline_of(groups: Seq<GroupReport>, all_groups: Seq<Seq<char>>, file: Seq<char>) -> Option<
    Seq<char>,
>
    decreases all_groups.len(),
{
    if all_groups.len() == 0 {
        None
    } else if ini_of(groups, all_groups[0], file) is Some {
        Some(all_groups[0])
    } else {
        baseline_of(groups, all_groups.drop_first(), file)
    }
}

/// The keys of file `file` in any group.
pub open spec fn ini_keys_of(groups: Seq<GroupReport>, all_groups: Seq<Seq<char>>, file: Seq<char>) -> Set<
    Seq<char>,
> {
    Set::new(
        |k: Seq<char>|
            exists|i: int|
                0 <= i < all_groups.len() && #[trigger] ini_of(groups, all_groups[i], file) is Some
                    && ini_of(groups, all_groups[i], file)->0.dom().contains(k),
    )
}

/// The value of `key` in a file, or empty.
pub open spec fn value_in(m: Option<Map<Seq<char>, (Seq<char>, Seq<char>)>>, key: Seq<char>) -> Seq<
    char,
> {
    match m {
        Some(m) => if m.dom().contains(key) {
            m[key].0
        } else {
            seq![]
        },
        None => seq![],
    }
}

/// The comment of `key` in a file, or empty.
pub open spec fn comment_in(m: Option<Map<Seq<char>, (Seq<char>, Seq<char>)>>, key: Seq<char>) -> Seq<
    char,
> {
    match m {
        Some(m) => if m.dom().contains(key) {
            m[key].1
        } else {
            seq![]
        },
        None => seq![],
    }
}

/// Where file `file` of group `group` stands: the group's and the file's
/// places.
fn find_ini(groups: &Vec<GroupReport>, group: &str, file: &str) -> (r: Option<(usize, usize)>)
    ensures
        match r {
            Some((g, f)) => g < groups@.len() && f < groups@[g as int].ini_files@.len()
                && ini_of(groups@, group@, file@) == Some(groups@[g as int].ini_files@[f as int].value@),
            None => ini_of(groups@, group@, file@) is None,
        },
{
    let mut i: usize = groups.len();
    assert(groups@.take(i as int) =~= groups@);
    while i > 0
        invariant
            i <= groups.len(),
            ini_of(groups@, group@, file@) == ini_of(groups@.take(i as int), group@, file@),
        decreases i,
    {
        let ghost t = groups@.take(i as int);
        assert(t.last() == groups@[i - 1]);
        assert(t.drop_last() =~= groups@.take(i - 1));
        if str_equal(groups[i - 1].group_name.as_str(), group) {
            let files = &groups[i - 1].ini_files;
            let mut j: usize = 0;
            assert(files@.skip(0) =~= files@);
            while j < files.len()
                invariant
                    0 < i <= groups.len(),
                    files == &groups@[i - 1].ini_files,
                    groups@[i - 1].group_name@ == group@,
                    ini_of(groups@, group@, file@) == ini_of(groups@.take(i as int), group@, file@),
                    groups@.take(i as int).last() == groups@[i - 1],
                    j <= files.len(),
                    file_data(files@, file@) == file_data(files@.skip(j as int), file@),
                decreases files.len() - j,
            {
                assert(files@.skip(j as int)[0] == files@[j as int]);
                if str_equal(files[j].name.as_str(), file) {
                    return Some((i - 1, j));
                }
                assert(files@.skip(j as int).drop_first() =~= files@.skip(j + 1));
                j = j + 1;
            }
            assert(files@.skip(j as int) =~= Seq::<Named<IniData>>::empty());
        }
        i = i - 1;
    }
    None
}

/// The sorted, distinct names of the parsed INI files of all groups.
fn sorted_ini_file_names(groups: &Vec<GroupReport>) -> (r: Vec<String>)
    ensures
        names_view(r@) == sorted_names(ini_file_names(groups@)),
{
    let mut r: Vec<String> = Vec::new();
    let mut i: usize = 0;
    while i < groups.len()
        invariant
            i <= groups.len(),
            strictly_sorted(names_view(r@)),
            forall|x: Seq<char>|
                has_name(names_view(r@), x) <==> exists|a: int, b: int|
                    0 <= a < i && 0 <= b < groups@[a].ini_files@.len()
                        && groups@[a].ini_files@[b].name@ == x,
        decreases groups.len() - i,
    {
        let files = &groups[i].ini_files;
        let mut j: usize = 0;
        while j < files.len()
            invariant
                i < groups.len(),
                files == &groups@[i as int].ini_files,
                j <= files.len(),
                strictly_sorted(names_view(r@)),
                forall|x: Seq<char>|
                    has_name(names_view(r@), x) <==> (exists|a: int, b: int|
                        0 <= a < i && 0 <= b < groups@[a].ini_files@.len()
                            && groups@[a].ini_files@[b].name@ == x) || (exists|b: int|
                        0 <= b < j && files@[b].name@ == x),
            decreases files.len() - j,
        {
            insert_sorted(&mut r, owned(files[j].name.as_str()));
            proof {
                assert forall|x: Seq<char>|
                    has_name(names_view(r@), x) <==> (exists|a: int, b: int|
                        0 <= a < i && 0 <= b < groups@[a].ini_files@.len()
                            && groups@[a].ini_files@[b].name@ == x) || (exists|b: int|
                        0 <= b < j + 1 && files@[b].name@ == x) by {
                    if exists|b: int| 0 <= b < j + 1 && files@[b].name@ == x {
                        let b = choose|b: int| 0 <= b < j + 1 && files@[b].name@ == x;
                        if b < j {
                            assert(exists|b: int| 0 <= b < j && files@[b].name@ == x);
                        }
                    }
                    if x == files@[j as int].name@ {
                        assert(exists|b: int| 0 <= b < j + 1 && files@[b].name@ == x);
                    }
                }
            }
            j = j + 1;
        }
        proof {
            assert forall|x: Seq<char>|
                has_name(names_view(r@), x) <==> exists|a: int, b: int|
                    0 <= a < i + 1 && 0 <= b < groups@[a].ini_files@.len()
                        && groups@[a].ini_files@[b].name@ == x by {
                if exists|a: int, b: int|
                    0 <= a < i + 1 && 0 <= b < groups@[a].ini_files@.len()
                        && groups@[a].ini_files@[b].name@ == x {
                    let (a, b) = choose|a: int, b: int|
                        0 <= a < i + 1 && 0 <= b < groups@[a].ini_files@.len()
                            && groups@[a].ini_files@[b].name@ == x;
                    if a == i {
                        assert(exists|b: int| 0 <= b < files@.len() && files@[b].name@ == x);
                    } else {
                        assert(exists|a: int, b: int|
                            0 <= a < i && 0 <= b < groups@[a].ini_files@.len()
                                && groups@[a].ini_files@[b].name@ == x);
                    }
                }
            }
        }
        i = i + 1;
    }
    proof {
        assert forall|x: Seq<char>| has_name(names_view(r@), x) <==> ini_file_names(groups@).contains(
            x,
        ) by {}
        lemma_sorted_names(names_view(r@), ini_file_names(groups@));
    }
    r
}

/// The keys of file `file` over all groups, sorted, each once.
pub fn get_ini_all_keys(groups: &Vec<GroupReport>, all_groups: &Vec<String>, file: &str) -> (r: Vec<
    String,
>)
    ensures
        names_view(r@) == sorted_names(ini_keys_of(groups@, names_view(all_groups@), file@)),
{
    let ghost gs = names_view(all_groups@);
    let mut r: Vec<String> = Vec::new();
    let mut i: usize = 0;
    while i < all_groups.len()
        invariant
            i <= all_groups.len(),
            gs == names_view(all_groups@),
            strictly_sorted(names_view(r@)),
            forall|k: Seq<char>|
                has_name(names_view(r@), k) <==> exists|a: int|
                    0 <= a < i && #[trigger] ini_of(groups@, gs[a], file@) is Some && ini_of(
                        groups@,
                        gs[a],
                        file@,
                    )->0.dom().contains(k),
        decreases all_groups.len() - i,
    {
        let ghost g = gs[i as int];
        match find_ini(groups, all_groups[i].as_str(), file) {
            None => {
                proof {
                    assert forall|k: Seq<char>|
                        has_name(names_view(r@), k) <==> exists|a: int|
                            0 <= a < i + 1 && #[trigger] ini_of(groups@, gs[a], file@) is Some
                                && ini_of(groups@, gs[a], file@)->0.dom().contains(k) by {
                        if exists|a: int|
                            0 <= a < i + 1 && #[trigger] ini_of(groups@, gs[a], file@) is Some
                                && ini_of(groups@, gs[a], file@)->0.dom().contains(k) {
                            let a = choose|a: int|
                                0 <= a < i + 1 && #[trigger] ini_of(groups@, gs[a], file@) is Some
                                    && ini_of(groups@, gs[a], file@)->0.dom().contains(k);
                            assert(a != i);
                        }
                    }
                }
            },
            Some((gi, fi)) => {
                let data = &groups[gi].ini_files[fi].value;
                let keys = data.keys();
                let mut j: usize = 0;
                while j < keys.len()
                    invariant
                        i < all_groups.len(),
                        gs == names_view(all_groups@),
                        g == gs[i as int],
                        ini_of(groups@, g, file@) == Some(data@),
                        forall|q: int| 0 <= q < keys@.len() ==> data@.dom().contains(#[trigger] keys@[q]@),
                        forall|k: Seq<char>|
                            data@.dom().contains(k) ==> exists|q: int| 0 <= q < keys@.len() && keys@[q]@ == k,
                        j <= keys.len(),
                        strictly_sorted(names_view(r@)),
                        forall|k: Seq<char>|
                            has_name(names_view(r@), k) <==> (exists|a: int|
                                0 <= a < i && #[trigger] ini_of(groups@, gs[a], file@) is Some
                                    && ini_of(groups@, gs[a], file@)->0.dom().contains(k)) || (exists|q: int|
                                0 <= q < j && keys@[q]@ == k),
                    decreases keys.len() - j,
                {
                    insert_sorted(&mut r, owned(keys[j].as_str()));
                    proof {
                        assert forall|k: Seq<char>|
                            has_name(names_view(r@), k) <==> (exists|a: int|
                                0 <= a < i && #[trigger] ini_of(groups@, gs[a], file@) is Some
                                    && ini_of(groups@, gs[a], file@)->0.dom().contains(k)) || (exists|q: int|
                                0 <= q < j + 1 && keys@[q]@ == k) by {
                            if exists|q: int| 0 <= q < j + 1 && keys@[q]@ == k {
                                let q = choose|q: int| 0 <= q < j + 1 && keys@[q]@ == k;
                                if q < j {
                                    assert(exists|q: int| 0 <= q < j && keys@[q]@ == k);
                                }
                            }
                            if k == keys@[j as int]@ {
                                assert(exists|q: int| 0 <= q < j + 1 && keys@[q]@ == k);
                            }
                        }
                    }
                    j = j + 1;
                }
                proof {
                    assert forall|k: Seq<char>|
                        has_name(names_view(r@), k) <==> exists|a: int|
                            0 <= a < i + 1 && #[trigger] ini_of(groups@, gs[a], file@) is Some
                                && ini_of(groups@, gs[a], file@)->0.dom().contains(k) by {
                        if exists|a: int|
                            0 <= a < i + 1 && #[trigger] ini_of(groups@, gs[a], file@) is Some
                                && ini_of(groups@, gs[a], file@)->0.dom().contains(k) {
                            let a = choose|a: int|
                                0 <= a < i + 1 && #[trigger] ini_of(groups@, gs[a], file@) is Some
                                    && ini_of(groups@, gs[a], file@)->0.dom().contains(k);
                            if a == i {
                                assert(data@.dom().contains(k));
                                let q = choose|q: int| 0 <= q < keys@.len() && keys@[q]@ == k;
                                assert(exists|q: int| 0 <= q < keys@.len() && keys@[q]@ == k);
                            } else {
                                assert(exists|a: int|
                                    0 <= a < i && #[trigger] ini_of(groups@, gs[a], file@) is Some
                                        && ini_of(groups@, gs[a], file@)->0.dom().contains(k));
                            }
                        }
                        if exists|q: int| 0 <= q < keys@.len() && keys@[q]@ == k {
                            let q = choose|q: int| 0 <= q < keys@.len() && keys@[q]@ == k;
                            assert(data@.dom().contains(keys@[q]@));
                            assert(ini_of(groups@, gs[i as int], file@) is Some);
                        }
                    }
                }
            },
        }
        i = i + 1;
    }
    proof {
        assert forall|k: Seq<char>|
            has_name(names_view(r@), k) <==> ini_keys_of(groups@, gs, file@).contains(k) by {}
        lemma_sorted_names(names_view(r@), ini_keys_of(groups@, gs, file@));
    }
    r
}

// ---------------------------------------------------------------------------
// The comparison table
// ---------------------------------------------------------------------------

/// `true` or `false`, as `Display` writes a `bool`.
pub open spec fn bool_text(b: bool) -> Seq<char> {
    if b {
        "true"@
    } else {
        "false"@
    }
}

/// The cell of one group's value, with its look.
pub open spec fn value_cell(
    group: Seq<char>,
    value: Seq<char>,
    style: (Seq<char>, Seq<char>, Seq<char>, Seq<char>),
) -> Seq<char> {
    "<td class=\"value-cell\" data-group=\""@ + escape_html_spec(group) + "\" data-diff-state=\""@
        + style.1 + "\" data-diff-direction=\""@ + style.2 + "\" data-has-value=\""@ + bool_text(
        trim(value).len() > 0,
    ) + "\" data-raw-value=\""@ + escape_html_spec(value) + "\" style=\"color:"@ + style.0
        + "; background:"@ + style.3 + ";\">"@ + html_line_breaks(escape_html_spec(value))
        + "</td>"@
}

/// The cell of group `g` in the row of `key` of file `file`, compared with
/// baseline group `b`.
pub open spec fn group_cell(
    groups: Seq<GroupReport>,
    numbers: Seq<NumberEntry>,
    b: Seq<char>,
    file: Seq<char>,
    key: Seq<char>,
    g: Seq<char>,
) -> Seq<char> {
    let bv = value_in(ini_of(groups, b, file), key);
    let v = value_in(ini_of(groups, g, file), key);
    value_cell(
        g,
        v,
        cell_style(g == b, diff_color_spec(bv, v, number_of(numbers, bv), number_of(numbers, v))),
    )
}

/// The row of `key` of file `file`: the key, the baseline's comment and a
/// cell per group.
pub open spec fn key_row(
    groups: Seq<GroupReport>,
    all_groups: Seq<Seq<char>>,
    numbers: Seq<NumberEntry>,
    b: Seq<char>,
    file: Seq<char>,
    key: Seq<char>,
) -> Seq<char> {
    "<tr class=\"changed-row\"><td class=\"key-cell\">"@ + escape_html_spec(key)
        + "</td><td class=\"comment-cell\">"@ + html_line_breaks(
        escape_html_spec(comment_in(ini_of(groups, b, file), key)),
    ) + "</td>"@ + concat(
        all_groups.map_values(|g: Seq<char>| group_cell(groups, numbers, b, file, key, g)),
    ) + "</tr>"@
}

/// The heading row of file `file`.
pub open spec fn file_header(n: nat, file: Seq<char>) -> Seq<char> {
    "<tr class=\"table-section-row table-subsection-row\"><td colspan=\""@ + decimal(n + 2)
        + "\"><span class=\"ini-section-header\"><span class=\"ini-section-name\">"@
        + escape_html_spec(file)
        + "</span><span class=\"ini-section-count\" data-visible-row-count>0 rows</span></span></td></tr>"@
}

/// The rows of file `file`: its heading and a row per key, sorted, when
/// some group has it.
pub open spec fn file_section(
    groups: Seq<GroupReport>,
    all_groups: Seq<Seq<char>>,
    numbers: Seq<NumberEntry>,
    file: Seq<char>,
) -> Seq<char> {
    match baseline_of(groups, all_groups, file) {
        None => seq![],
        Some(b) => file_header(all_groups.len(), file) + concat(
            sorted_names(ini_keys_of(groups, all_groups, file)).map_values(
                |k: Seq<char>| key_row(groups, all_groups, numbers, b, file, k),
            ),
        ),
    }
}

/// Whether file `file` gives any key row.
pub open spec fn file_has_rows(groups: Seq<GroupReport>, all_groups: Seq<Seq<char>>, file: Seq<char>) -> bool {
    baseline_of(groups, all_groups, file) is Some && sorted_names(
        ini_keys_of(groups, all_groups, file),
    ).len() > 0
}

/// The color of a group's column heading: its map color, or light grey.
pub open spec fn header_color(colors: GroupColorMap, name: Seq<char>) -> Seq<char> {
    match map_color(colors, name) {
        Some(c) => c,
        None => "#f2f2f2"@,
    }
}

/// The heading cell of a group's column.
pub open spec fn header_cell(colors: GroupColorMap, g: Seq<char>) -> Seq<char> {
    let parts = group_name_parts_spec(g);
    "<th class=\"group-column-header\" data-group=\""@ + escape_html_spec(g)
        + "\"><span class=\"diff-header-name\"><span class=\"diff-header-name-rest\" style=\"color:"@
        + header_color(colors, g) + ";\">"@ + escape_html_spec(parts.1)
        + "</span><span class=\"diff-header-name-datetime\">"@ + escape_html_spec(parts.0)
        + "</span></span></th>"@
}

/// A row that heads a part of the table.
pub open spec fn major_row(n: nat, title: Seq<char>) -> Seq<char> {
    "<tr class=\"table-section-row table-major-section-row\"><td colspan=\""@ + decimal(n + 2) + "\">"@
        + title + "</td></tr>"@
}

/// The row that says that no file gave a key row.
pub open spec fn no_diff_row(n: nat) -> Seq<char> {
    "<tr><td class=\"notes-row-cell\" colspan=\""@ + decimal(n + 2)
        + "\"><span class=\"notes-empty\">No INI file differences found.</span></td></tr>"@
}

/// The comparison table: a column per group; the notes, the performance
/// summary rows given, and for each INI file (sorted) a row per key
/// comparing each group's value with the baseline's; or a note when no
/// group has a parsed INI file.
pub open spec fn comparison_table_spec(
    groups: Seq<GroupReport>,
    colors: GroupColorMap,
    summary_rows: Seq<char>,
    numbers: Seq<NumberEntry>,
) -> Seq<char> {
    let gs = group_names(groups);
    let n = gs.len();
    let files = sorted_names(ini_file_names(groups));
    if files.len() == 0 {
        "<div class=\"no-differences\">No INI file differences found.</div>"@
    } else {
        "<div class=\"ini-comparison-tables\"><table class=\"ini-comparison-table\"><thead><tr><th>Key</th><th>Comment</th>"@
            + concat(gs.map_values(|g: Seq<char>| header_cell(colors, g)))
            + "</tr></thead><tbody>"@ + major_row(n, "Benchmark Notes"@) + notes_rows_spec(groups, gs)
            + major_row(n, "Performance Summary"@) + summary_rows + major_row(n, "INI Differences"@)
            + concat(files.map_values(|f: Seq<char>| file_section(groups, gs, numbers, f))) + if exists|i: int|
            0 <= i < files.len() && file_has_rows(groups, gs, #[trigger] files[i]) {
            seq![]
        } else {
            no_diff_row(n)
        } + "</tbody></table></div>"@
    }
}

/// The baseline of a file, as its place among the groups of the table.
fn find_baseline(groups: &Vec<GroupReport>, all_groups: &Vec<String>, file: &str) -> (r: Option<usize>)
    ensures
        match r {
            Some(b) => b < all_groups@.len() && baseline_of(groups@, names_view(all_groups@), file@)
                == Some(all_groups@[b as int]@),
            None => baseline_of(groups@, names_view(all_groups@), file@) is None,
        },
{
    let ghost gs = names_view(all_groups@);
    let mut i: usize = 0;
    assert(gs.skip(0) =~= gs);
    while i < all_groups.len()
        invariant
            i <= all_groups.len(),
            gs == names_view(all_groups@),
            baseline_of(groups@, gs, file@) == baseline_of(groups@, gs.skip(i as int), file@),
        decreases all_groups.len() - i,
    {
        assert(gs.skip(i as int)[0] == all_groups@[i as int]@);
        if find_ini(groups, all_groups[i].as_str(), file).is_some() {
            return Some(i);
        }
        assert(gs.skip(i as int).drop_first() =~= gs.skip(i + 1));
        i = i + 1;
    }
    None
}

/// The value and comment of `key` in file `file` of group `group`, or empty
/// texts.
fn lookup_entry(groups: &Vec<GroupReport>, group: &str, file: &str, key: &str) -> (r: (String, String))
    ensures
        r.0@ == value_in(ini_of(groups@, group@, file@), key@),
        r.1@ == comment_in(ini_of(groups@, group@, file@), key@),
{
    match find_ini(groups, group, file) {
        None => (String::new(), String::new()),
        Some((g, f)) => match groups[g].ini_files[f].value.get(key) {
            Some((v, c)) => (v, c),
            None => (String::new(), String::new()),
        },
    }
}

/// The cell of one group's value.
fn value_cell_html(
    group: &str,
    value: &str,
    style: (&'static str, &'static str, &'static str, &'static str),
) -> (r: String)
    ensures
        r@ == value_cell(group@, value@, (style.0@, style.1@, style.2@, style.3@)),
{
    let has_value = trim_chars(&chars_of(value)).len() > 0;
    let mut out = owned("<td class=\"value-cell\" data-group=\"");
    push_str(&mut out, escape_html(group).as_str());
    push_str(&mut out, "\" data-diff-state=\"");
    push_str(&mut out, style.1);
    push_str(&mut out, "\" data-diff-direction=\"");
    push_str(&mut out, style.2);
    push_str(&mut out, "\" data-has-value=\"");
    push_str(&mut out, if has_value { "true" } else { "false" });
    push_str(&mut out, "\" data-raw-value=\"");
    push_str(&mut out, escape_html(value).as_str());
    push_str(&mut out, "\" style=\"color:");
    push_str(&mut out, style.0);
    push_str(&mut out, "; background:");
    push_str(&mut out, style.3);
    push_str(&mut out, ";\">");
    push_str(&mut out, escape_html_with_line_breaks(value).as_str());
    push_str(&mut out, "</td>");
    out
}

/// The row of `key` of file `file`, with baseline group `b`.
fn key_row_html(
    groups: &Vec<GroupReport>,
    all_groups: &Vec<String>,
    numbers: &Vec<NumberEntry>,
    b: &str,
    file: &str,
    key: &str,
) -> (r: String)
    ensures
        r@ == key_row(groups@, names_view(all_groups@), numbers@, b@, file@, key@),
{
    let ghost gs = names_view(all_groups@);
    let (baseline_value, comment) = lookup_entry(groups, b, file, key);
    let baseline_number = find_number(numbers, baseline_value.as_str());
    let mut row = owned("<tr class=\"changed-row\"><td class=\"key-cell\">");
    push_str(&mut row, escape_html(key).as_str());
    push_str(&mut row, "</td><td class=\"comment-cell\">");
    push_str(&mut row, escape_html_with_line_breaks(comment.as_str()).as_str());
    push_str(&mut row, "</td>");
    let ghost head = row@;
    let ghost cells = gs.map_values(
        |g: Seq<char>| group_cell(groups@, numbers@, b@, file@, key@, g),
    );
    let mut k: usize = 0;
    while k < all_groups.len()
        invariant
            k <= all_groups.len(),
            gs == names_view(all_groups@),
            cells == gs.map_values(|g: Seq<char>| group_cell(groups@, numbers@, b@, file@, key@, g)),
            baseline_value@ == value_in(ini_of(groups@, b@, file@), key@),
            baseline_number == number_of(numbers@, baseline_value@),
            row@ == head + concat(cells.take(k as int)),
        decreases all_groups.len() - k,
    {
        let g = all_groups[k].as_str();
        let (value, _) = lookup_entry(groups, g, file, key);
        let current_number = find_number(numbers, value.as_str());
        let is_baseline = str_equal(g, b);
        let color = choose_diff_color(
            baseline_value.as_str(),
            value.as_str(),
            baseline_number,
            current_number,
        );
        let style = cell_style_of(is_baseline, color);
        let cell = value_cell_html(g, value.as_str(), style);
        proof {
            assert(cell@ == cells[k as int]);
            lemma_concat_push(cells.take(k as int), cell@);
            assert(cells.take(k + 1) =~= cells.take(k as int).push(cell@));
        }
        push_str(&mut row, cell.as_str());
        k = k + 1;
    }
    push_str(&mut row, "</tr>");
    assert(cells.take(all_groups.len() as int) =~= cells);
    row
}

/// The rows of file `file`, and whether it gave any key row.
fn file_section_html(
    groups: &Vec<GroupReport>,
    all_groups: &Vec<String>,
    numbers: &Vec<NumberEntry>,
    file: &str,
) -> (r: (String, bool))
    ensures
        r.0@ == file_section(groups@, names_view(all_groups@), numbers@, file@),
        r.1 == file_has_rows(groups@, names_view(all_groups@), file@),
{
    let ghost gs = names_view(all_groups@);
    let b = match find_baseline(groups, all_groups, file) {
        None => {
            return (String::new(), false);
        },
        Some(b) => b,
    };
    let bname = all_groups[b].as_str();
    let keys = get_ini_all_keys(groups, all_groups, file);
    let mut out = owned("<tr class=\"table-section-row table-subsection-row\"><td colspan=\"");
    push_chars(&mut out, &format_u128((all_groups.len() as u128) + 2));
    push_str(&mut out, "\"><span class=\"ini-section-header\"><span class=\"ini-section-name\">");
    push_str(&mut out, escape_html(file).as_str());
    push_str(
        &mut out,
        "</span><span class=\"ini-section-count\" data-visible-row-count>0 rows</span></span></td></tr>",
    );
    let ghost head = out@;
    let ghost rows = names_view(keys@).map_values(
        |k: Seq<char>| key_row(groups@, gs, numbers@, bname@, file@, k),
    );
    let mut i: usize = 0;
    while i < keys.len()
        invariant
            i <= keys.len(),
            gs == names_view(all_groups@),
            rows == names_view(keys@).map_values(
                |k: Seq<char>| key_row(groups@, gs, numbers@, bname@, file@, k),
            ),
            out@ == head + concat(rows.take(i as int)),
        decreases keys.len() - i,
    {
        let row = key_row_html(groups, all_groups, numbers, bname, file, keys[i].as_str());
        proof {
            assert(row@ == rows[i as int]);
            lemma_concat_push(rows.take(i as int), row@);
            assert(rows.take(i + 1) =~= rows.take(i as int).push(row@));
        }
        push_str(&mut out, row.as_str());
        i = i + 1;
    }
    assert(rows.take(keys.len() as int) =~= rows);
    (out, keys.len() > 0)
}

/// The opening row of a part of the table.
fn major_row_html(n: usize, title: &str) -> (r: String)
    ensures
        r@ == major_row(n as nat, title@),
{
    let mut out = owned("<tr class=\"table-section-row table-major-section-row\"><td colspan=\"");
    push_chars(&mut out, &format_u128((n as u128) + 2));
    push_str(&mut out, "\">");
    push_str(&mut out, title);
    push_str(&mut out, "</td></tr>");
    out
}

/// The heading cell of a group's column.
fn header_cell_html(colors: &GroupColorMap, g: &str) -> (r: String)
    requires
        group_color_map_wf(*colors),
    ensures
        r@ == header_cell(*colors, g@),
{
    let (datetime, rest) = split_group_name_parts(g);
    let color = match colors.get(g) {
        Some(c) => c,
        None => owned("#f2f2f2"),
    };
    let mut out = owned("<th class=\"group-column-header\" data-group=\"");
    push_str(&mut out, escape_html(g).as_str());
    push_str(
        &mut out,
        "\"><span class=\"diff-header-name\"><span class=\"diff-header-name-rest\" style=\"color:",
    );
    push_str(&mut out, color.as_str());
    push_str(&mut out, ";\">");
    push_str(&mut out, escape_html(rest.as_str()).as_str());
    push_str(&mut out, "</span><span class=\"diff-header-name-datetime\">");
    push_str(&mut out, escape_html(datetime.as_str()).as_str());
    push_str(&mut out, "</span></span></th>");
    out
}

/// The table that compares the groups: notes, performance summary (given as
/// its rows) and INI values.
#[verifier::rlimit(40)]
pub fn build_ini_comparison_table_html(
    groups: &Vec<GroupReport>,
    colors: &GroupColorMap,
    summary_rows: &str,
    numbers: &Vec<NumberEntry>,
) -> (r: String)
    requires
        group_color_map_wf(*colors),
    ensures
        r@ == comparison_table_spec(groups@, *colors, summary_rows@, numbers@),
{
    let all_groups = group_name_list(groups);
    let ghost gs = names_view(all_groups@);
    let files = sorted_ini_file_names(groups);
    if files.len() == 0 {
        return owned("<div class=\"no-differences\">No INI file differences found.</div>");
    }
    let n = all_groups.len();
    let mut out = owned(
        "<div class=\"ini-comparison-tables\"><table class=\"ini-comparison-table\"><thead><tr><th>Key</th><th>Comment</th>",
    );
    let ghost start = out@;
    let ghost headers = gs.map_values(|g: Seq<char>| header_cell(*colors, g));
    let mut i: usize = 0;
    while i < all_groups.len()
        invariant
            i <= all_groups.len(),
            group_color_map_wf(*colors),
            gs == names_view(all_groups@),
            headers == gs.map_values(|g: Seq<char>| header_cell(*colors, g)),
            out@ == start + concat(headers.take(i as int)),
        decreases all_groups.len() - i,
    {
        let cell = header_cell_html(colors, all_groups[i].as_str());
        proof {
            assert(cell@ == headers[i as int]);
            lemma_concat_push(headers.take(i as int), cell@);
            assert(headers.take(i + 1) =~= headers.take(i as int).push(cell@));
        }
        push_str(&mut out, cell.as_str());
        i = i + 1;
    }
    assert(headers.take(all_groups.len() as int) =~= headers);
    push_str(&mut out, "</tr></thead><tbody>");
    push_str(&mut out, major_row_html(n, "Benchmark Notes").as_str());
    push_str(&mut out, build_notes_rows_html(groups, &all_groups).as_str());
    push_str(&mut out, major_row_html(n, "Performance Summary").as_str());
    push_str(&mut out, summary_rows);
    push_str(&mut out, major_row_html(n, "INI Differences").as_str());
    let ghost mid = out@;
    let ghost fv = names_view(files@);
    let ghost sections = fv.map_values(|f: Seq<char>| file_section(groups@, gs, numbers@, f));
    let mut any_rows = false;
    let mut j: usize = 0;
    while j < files.len()
        invariant
            j <= files.len(),
            gs == names_view(all_groups@),
            fv == names_view(files@),
            sections == fv.map_values(|f: Seq<char>| file_section(groups@, gs, numbers@, f)),
            out@ == mid + concat(sections.take(j as int)),
            any_rows == exists|q: int| 0 <= q < j && file_has_rows(groups@, gs, #[trigger] fv[q]),
        decreases files.len() - j,
    {
        let (section, has_rows) = file_section_html(groups, &all_groups, numbers, files[j].as_str());
        proof {
            assert(section@ == sections[j as int]);
            lemma_concat_push(sections.take(j as int), section@);
            assert(sections.take(j + 1) =~= sections.take(j as int).push(section@));
            assert(has_rows == file_has_rows(groups@, gs, fv[j as int]));
        }
        push_str(&mut out, section.as_str());
        any_rows = any_rows || has_rows;
        j = j + 1;
    }
    assert(sections.take(files.len() as int) =~= sections);
    if !any_rows {
        let mut row = owned("<tr><td class=\"notes-row-cell\" colspan=\"");
        push_chars(&mut row, &format_u128((n as u128) + 2));
        push_str(
            &mut row,
            "\"><span class=\"notes-empty\">No INI file differences found.</span></td></tr>",
        );
        push_str(&mut out, row.as_str());
    }
    push_str(&mut out, "</tbody></table></div>");
    proof {
        assert(group_names(groups@) == gs);
        assert(sorted_names(ini_file_names(groups@)) == fv);
    }
    out
}

// ---------------------------------------------------------------------------
// The performance summary rows
// ---------------------------------------------------------------------------

/// The place of the summary's baseline group, given for each group whether
/// it has any metric.
pub fn summary_baseline(has_metrics: &Vec<bool>) -> (r: Option<usize>)
    ensures
        match r {
            Some(i) => {
                &&& i < has_metrics@.len()
                &&& (has_metrics@[i as int] || (i == 0 && forall|j: int| 0 <= j < has_metrics@.len() ==> !has_metrics@[j]))
                &&& forall|j: int| 0 <= j < i ==> !has_metrics@[j]
            },
            None => has_metrics@.len() == 0,
        },
{
    let mut i: usize = 0;
    while i < has_metrics.len()
        invariant
            i <= has_metrics.len(),
            forall|j: int| 0 <= j < i ==> !has_metrics@[j],
        decreases has_metrics.len() - i,
    {
        if has_metrics[i] {
            return Some(i);
        }
        i = i + 1;
    }
    if has_metrics.len() > 0 {
        Some(0)
    } else {
        None
    }
}

/// The state and background of a summary cell. `current` and `baseline`
/// are the group's and the baseline's frame times as keys that order as the
/// times do; a shorter frame time is better.
pub open spec fn summary_state_spec(
    current: Option<NumKey>,
    baseline: Option<NumKey>,
    is_baseline_group: bool,
) -> (Seq<char>, Seq<char>) {
    if is_baseline_group {
        (
            "baseline"@,
            "linear-gradient(90deg, rgba(107, 163, 208, 0.24), rgba(107, 163, 208, 0.07))"@,
        )
    } else {
        match (current, baseline) {
            (Some(NumKey::Ordered(c)), Some(NumKey::Ordered(b))) => if c < b {
                (
                    "better"@,
                    "linear-gradient(90deg, rgba(124, 197, 118, 0.32), rgba(124, 197, 118, 0.09))"@,
                )
            } else if c > b {
                (
                    "worse"@,
                    "linear-gradient(90deg, rgba(255, 107, 107, 0.32), rgba(255, 107, 107, 0.09))"@,
                )
            } else {
                (
                    "equal"@,
                    "linear-gradient(90deg, rgba(107, 163, 208, 0.22), rgba(107, 163, 208, 0.06))"@,
                )
            },
            _ => (
                "equal"@,
                "linear-gradient(90deg, rgba(107, 163, 208, 0.22), rgba(107, 163, 208, 0.06))"@,
            ),
        }
    }
}

/// The state and background of a summary cell.
pub fn summary_state_and_background(
    current: Option<NumKey>,
    baseline: Option<NumKey>,
    is_baseline_group: bool,
) -> (r: (&'static str, &'static str))
    ensures
        (r.0@, r.1@) == summary_state_spec(current, baseline, is_baseline_group),
{
    if is_baseline_group {
        return (
            "baseline",
            "linear-gradient(90deg, rgba(107, 163, 208, 0.24), rgba(107, 163, 208, 0.07))",
        );
    }
    match (current, baseline) {
        (Some(NumKey::Ordered(c)), Some(NumKey::Ordered(b))) => {
            if c < b {
                (
                    "better",
                    "linear-gradient(90deg, rgba(124, 197, 118, 0.32), rgba(124, 197, 118, 0.09))",
                )
            } else if c > b {
                (
                    "worse",
                    "linear-gradient(90deg, rgba(255, 107, 107, 0.32), rgba(255, 107, 107, 0.09))",
                )
            } else {
                (
                    "equal",
                    "linear-gradient(90deg, rgba(107, 163, 208, 0.22), rgba(107, 163, 208, 0.06))",
                )
            }
        },
        _ => (
            "equal",
            "linear-gradient(90deg, rgba(107, 163, 208, 0.22), rgba(107, 163, 208, 0.06))",
        ),
    }
}

/// One group's cell of a summary row. The texts that come from floating
/// point numbers are formatted by the caller: `frametime_attr` (the
/// ` data-frametime-ms` attribute, or empty) and `metric_html` (the metric
/// block); `current` is the group's frame time as a key, when it has one.
pub struct SummaryCell {
    pub group: String,
    pub current: Option<NumKey>,
    pub frametime_attr: String,
    pub metric_html: String,
}

/// The table cell of one group for the metric `metric_key`, against the
/// baseline's frame time and the baseline group's name.
pub open spec fn summary_cell_spec(
    c: SummaryCell,
    metric_key: Seq<char>,
    baseline: Option<NumKey>,
    baseline_group: Seq<char>,
) -> Seq<char> {
    let st = summary_state_spec(c.current, baseline, c.group@ == baseline_group);
    "<td class=\"value-cell stat-value\" data-group=\""@ + escape_html_spec(c.group@)
        + "\" data-metric-key=\""@ + metric_key + "\" data-summary-state=\""@ + st.0 + "\""@
        + c.frametime_attr@ + " style=\"background:"@ + st.1 + ";\">"@ + c.metric_html@
        + "</td>"@
}

/// The cells of a summary row, one per group in order.
pub open spec fn summary_cells_spec(
    cells: Seq<SummaryCell>,
    metric_key: Seq<char>,
    baseline: Option<NumKey>,
    baseline_group: Seq<char>,
) -> Seq<char>
    decreases cells.len(),
{
    if cells.len() == 0 {
        seq![]
    } else {
        summary_cells_spec(cells.drop_last(), metric_key, baseline, baseline_group)
            + summary_cell_spec(cells.last(), metric_key, baseline, baseline_group)
    }
}

/// A row of the performance summary: the metric's name, its description
/// (escaped, line breaks as `<br>`), then the cell of each group.
pub open spec fn summary_row_spec(
    metric_name: Seq<char>,
    description: Seq<char>,
    metric_key: Seq<char>,
    baseline: Option<NumKey>,
    baseline_group: Seq<char>,
    cells: Seq<SummaryCell>,
) -> Seq<char> {
    "<tr><td class=\"key-cell\">"@ + metric_name
        + "</td><td class=\"comment-cell summary-comment-cell\">"@
        + html_line_breaks(escape_html_spec(description)) + "</td>"@
        + summary_cells_spec(cells, metric_key, baseline, baseline_group) + "</tr>"@
}

/// The cell of one group in a summary row.
fn build_summary_cell_html(
    cell: &SummaryCell,
    metric_key: &str,
    baseline: Option<NumKey>,
    baseline_group: &str,
) -> (r: String)
    ensures
        r@ == summary_cell_spec(*cell, metric_key@, baseline, baseline_group@),
{
    let mut out = String::new();
    let (state, background) = summary_state_and_background(
        cell.current,
        baseline,
        str_equal(cell.group.as_str(), baseline_group),
    );
    push_str(&mut out, "<td class=\"value-cell stat-value\" data-group=\"");
    push_str(&mut out, escape_html(cell.group.as_str()).as_str());
    push_str(&mut out, "\" data-metric-key=\"");
    push_str(&mut out, metric_key);
    push_str(&mut out, "\" data-summary-state=\"");
    push_str(&mut out, state);
    push_str(&mut out, "\"");
    push_str(&mut out, cell.frametime_attr.as_str());
    push_str(&mut out, " style=\"background:");
    push_str(&mut out, background);
    push_str(&mut out, ";\">");
    push_str(&mut out, cell.metric_html.as_str());
    push_str(&mut out, "</td>");
    proof {
        assert(out@ =~= summary_cell_spec(*cell, metric_key@, baseline, baseline_group@));
    }
    out
}

/// One row of the performance summary table.
pub fn build_summary_row_html(
    metric_name: &str,
    description: &str,
    metric_key: &str,
    baseline: Option<NumKey>,
    baseline_group: &str,
    cells: &Vec<SummaryCell>,
) -> (r: String)
    ensures
        r@ == summary_row_spec(
            metric_name@,
            description@,
            metric_key@,
            baseline,
            baseline_group@,
            cells@,
        ),
{
    let mut out = owned("<tr><td class=\"key-cell\">");
    push_str(&mut out, metric_name);
    push_str(&mut out, "</td><td class=\"comment-cell summary-comment-cell\">");
    push_str(&mut out, escape_html_with_line_breaks(description).as_str());
    push_str(&mut out, "</td>");
    let ghost head = out@;
    let mut i: usize = 0;
    while i < cells.len()
        invariant
            i <= cells.len(),
            out@ == head + summary_cells_spec(
                cells@.take(i as int),
                metric_key@,
                baseline,
                baseline_group@,
            ),
        decreases cells.len() - i,
    {
        let cell_html = build_summary_cell_html(&cells[i], metric_key, baseline, baseline_group);
        push_str(&mut out, cell_html.as_str());
        proof {
            assert(cells@.take(i + 1).drop_last() =~= cells@.take(i as int));
        }
        i = i + 1;
    }
    push_str(&mut out, "</tr>");
    assert(cells@.take(cells.len() as int) =~= cells@);
    out
}

/// The indicator class and marker of a summary metric against the
/// baseline: up for a shorter frame time, down for a longer one.
pub open spec fn metric_indicator_spec(current: NumKey, baseline: Option<NumKey>) -> (Seq<char>, Seq<char>) {
    match (current, baseline) {
        (NumKey::Ordered(c), Some(NumKey::Ordered(b))) => if c < b {
            ("better"@, "\u{25b2}"@)
        } else if c > b {
            ("worse"@, "\u{25bc}"@)
        } else {
            ("equal"@, "="@)
        },
        _ => ("equal"@, "="@),
    }
}

/// The indicator class and marker of a summary metric.
pub fn metric_indicator(current: NumKey, baseline: Option<NumKey>) -> (r: (&'static str, &'static str))
    ensures
        (r.0@, r.1@) == metric_indicator_spec(current, baseline),
{
    match (current, baseline) {
        (NumKey::Ordered(c), Some(NumKey::Ordered(b))) => {
            if c < b {
                ("better", "\u{25b2}")
            } else if c > b {
                ("worse", "\u{25bc}")
            } else {
                ("equal", "=")
            }
        },
        _ => ("equal", "="),
    }
}

// ---------------------------------------------------------------------------
// Elapsed time
// ---------------------------------------------------------------------------

/// An elapsed time in milliseconds as the tool prints it: seconds with three
/// decimals and `s` from one second on, else milliseconds and `ms`.
pub open spec fn elapsed_spec(total_millis: nat) -> Seq<char> {
    let seconds = total_millis / 1000;
    let millis = total_millis % 1000;
    if seconds > 0 {
        decimal(seconds) + "."@ + zero_pad(decimal(millis), 3) + "s"@
    } else {
        decimal(millis) + "ms"@
    }
}

/// Formats an elapsed time given in milliseconds.
pub fn format_elapsed(total_millis: u128) -> (r: String)
    ensures
        r@ == elapsed_spec(total_millis as nat),
{
    let seconds = total_millis / 1000;
    let millis = total_millis % 1000;
    let mut out = String::new();
    if seconds > 0 {
        push_chars(&mut out, &format_u128(seconds));
        push_str(&mut out, ".");
        push_chars(&mut out, &format_u128_padded(millis, 3));
        push_str(&mut out, "s");
    } else {
        push_chars(&mut out, &format_u128(millis));
        push_str(&mut out, "ms");
    }
    out
}

// ---------------------------------------------------------------------------
// Laws of the summary marks
// ---------------------------------------------------------------------------

/// The red background of a summary cell slower than the baseline.
pub open spec fn worse_background() -> Seq<char> {
    "linear-gradient(90deg, rgba(255, 107, 107, 0.32), rgba(255, 107, 107, 0.09))"@
}

/// A group that is not the baseline and whose frame time is above the
/// baseline's is marked worse on the red background; one whose frame time
/// is below is marked better, on a background that is not red: the two
/// never look alike.
pub proof fn lemma_slower_group_is_red(c: i64, b: i64, c2: i64, b2: i64)
    requires
        c > b,
        c2 < b2,
    ensures
        summary_state_spec(Some(NumKey::Ordered(c)), Some(NumKey::Ordered(b)), false)
            == ("worse"@, worse_background()),
        summary_state_spec(Some(NumKey::Ordered(c2)), Some(NumKey::Ordered(b2)), false).0
            == "better"@,
        summary_state_spec(Some(NumKey::Ordered(c2)), Some(NumKey::Ordered(b2)), false).1
            != worse_background(),
        summary_state_spec(Some(NumKey::Ordered(c)), Some(NumKey::Ordered(c)), false).1
            != worse_background(),
{
    let better = "linear-gradient(90deg, rgba(124, 197, 118, 0.32), rgba(124, 197, 118, 0.09))"@;
    let equal = "linear-gradient(90deg, rgba(107, 163, 208, 0.22), rgba(107, 163, 208, 0.06))"@;
    reveal_strlit("linear-gradient(90deg, rgba(255, 107, 107, 0.32), rgba(255, 107, 107, 0.09))");
    reveal_strlit("linear-gradient(90deg, rgba(124, 197, 118, 0.32), rgba(124, 197, 118, 0.09))");
    reveal_strlit("linear-gradient(90deg, rgba(107, 163, 208, 0.22), rgba(107, 163, 208, 0.06))");
    assert(better[28] != worse_background()[28]);
    assert(equal[29] != worse_background()[29]);
}

// ---------------------------------------------------------------------------
// Laws of the linked legend
// ---------------------------------------------------------------------------

/// The groups that get a legend entry: those with two INI links or more, in
/// their order.
pub open spec fn linked_groups(groups: Seq<GroupReport>) -> Seq<GroupReport> {
    groups.filter(|g: GroupReport| g.ini_links@.len() >= 2)
}

/// The legend's entries are one entry for each group with at least two INI
/// links, in group order, and nothing else; so the legend holds the entry of
/// every such group.
pub proof fn lemma_legend_entry_per_linked_group(groups: Seq<GroupReport>, colors: GroupColorMap)
    ensures
        legend_body(groups, colors) == concat(
            linked_groups(groups).map_values(|g: GroupReport| legend_section(g, colors)),
        ),
        forall|i: int|
            0 <= i < groups.len() && groups[i].ini_links@.len() >= 2 ==> contains(
                legend_spec(groups, colors),
                legend_section(groups[i], colors),
            ),
    decreases groups.len(),
{
    let f = |g: GroupReport| legend_section(g, colors);
    let p = |g: GroupReport| g.ini_links@.len() >= 2;
    if groups.len() > 0 {
        let init = groups.drop_last();
        lemma_legend_entry_per_linked_group(init, colors);
        reveal_with_fuel(Seq::<_>::filter, 1);
        assert(linked_groups(groups) == if groups.last().ini_links@.len() >= 2 {
            linked_groups(init).push(groups.last())
        } else {
            linked_groups(init)
        });
        if groups.last().ini_links@.len() >= 2 {
            assert(linked_groups(groups).map_values(f) =~= linked_groups(init).map_values(f).push(
                f(groups.last()),
            ));
            lemma_concat_push(linked_groups(init).map_values(f), f(groups.last()));
        } else {
            assert(linked_groups(groups).map_values(f) =~= linked_groups(init).map_values(f));
        }
    } else {
        reveal_with_fuel(Seq::<_>::filter, 1);
        assert(linked_groups(groups).map_values(f) =~= Seq::<Seq<char>>::empty());
    }
    assert forall|i: int|
        0 <= i < groups.len() && groups[i].ini_links@.len() >= 2 implies contains(
        legend_spec(groups, colors),
        legend_section(groups[i], colors),
    ) by {
        let parts = linked_groups(groups).map_values(f);
        groups.lemma_filter_contains(p, i);
        let k = choose|k: int| 0 <= k < linked_groups(groups).len() && linked_groups(groups)[k] == groups[i];
        assert(has_legend_entry(groups));
        lemma_concat_contains_part(parts, k);
        lemma_contains_within(
            "<div class=\"linked-legend-controls\"><button type=\"button\" id=\"linked-legend-check-all\" class=\"legend-bulk-button\">check all</button><button type=\"button\" id=\"linked-legend-uncheck-all\" class=\"legend-bulk-button\">uncheck all</button></div><div class='linked-legend'>"@,
            legend_body(groups, colors),
            "</div>"@,
            legend_section(groups[i], colors),
        );
    }
}

// ---------------------------------------------------------------------------
// Laws of the comparison table
// ---------------------------------------------------------------------------

/// A group's list has the file named `name` when one of its entries has
/// that name.
proof fn lemma_file_data_found(files: Seq<Named<IniData>>, j: int, name: Seq<char>)
    requires
        0 <= j < files.len(),
        files[j].name@ == name,
    ensures
        file_data(files, name) is Some,
    decreases files.len(),
{
    if files[0].name@ != name {
        assert(files.drop_first()[j - 1] == files[j]);
        lemma_file_data_found(files.drop_first(), j - 1, name);
    }
}

/// A group that has a file gives its name a file of that name.
proof fn lemma_ini_of_found(groups: Seq<GroupReport>, i: int, file: Seq<char>)
    requires
        0 <= i < groups.len(),
        file_data(groups[i].ini_files@, file) is Some,
    ensures
        ini_of(groups, groups[i].group_name@, file) is Some,
    decreases groups.len(),
{
    if i < groups.len() - 1 {
        let g = groups[i].group_name@;
        if !(groups.last().group_name@ == g && file_data(groups.last().ini_files@, file) is Some) {
            assert(groups.drop_last()[i] == groups[i]);
            lemma_ini_of_found(groups.drop_last(), i, file);
        }
    }
}

/// A file that some group of the table has has a baseline.
proof fn lemma_baseline_found(
    groups: Seq<GroupReport>,
    gs: Seq<Seq<char>>,
    k: int,
    file: Seq<char>,
)
    requires
        0 <= k < gs.len(),
        ini_of(groups, gs[k], file) is Some,
    ensures
        baseline_of(groups, gs, file) is Some,
    decreases gs.len(),
{
    if k > 0 && ini_of(groups, gs[0], file) is None {
        assert(gs.drop_first()[k - 1] == gs[k]);
        lemma_baseline_found(groups, gs.drop_first(), k - 1, file);
    }
}

/// A strictly sorted list of names with one more name added, at its place,
/// exists.
proof fn lemma_sorted_insert_exists(v: Seq<Seq<char>>, x: Seq<char>)
    requires
        strictly_sorted(v),
    ensures
        exists|w: Seq<Seq<char>>|
            strictly_sorted(w) && forall|y: Seq<char>| has_name(w, y) <==> (has_name(v, y) || y == x),
    decreases v.len(),
{
    if v.len() == 0 {
        let w = seq![x];
        assert(w[0] == x);
        assert(has_name(w, x));
        assert forall|y: Seq<char>| has_name(w, y) implies y == x by {
            let k = choose|k: int| 0 <= k < w.len() && w[k] == y;
            assert(k == 0);
        }
        assert(strictly_sorted(w) && forall|y: Seq<char>| has_name(w, y) <==> (has_name(v, y) || y == x));
    } else if has_name(v, x) {
        assert(strictly_sorted(v) && forall|y: Seq<char>| has_name(v, y) <==> (has_name(v, y) || y == x));
    } else {
        lemma_seq_less_total(v[0], x);
        assert(v[0] != x);
        if seq_less(x, v[0]) {
            let w = seq![x] + v;
            assert forall|a: int, b: int| 0 <= a < b < w.len() implies seq_less(w[a], w[b]) by {
                if a == 0 {
                    if b > 1 {
                        lemma_seq_less_trans(x, v[0], v[b - 1]);
                    }
                } else {
                    assert(w[a] == v[a - 1] && w[b] == v[b - 1]);
                }
            }
            assert forall|y: Seq<char>| has_name(w, y) <==> (has_name(v, y) || y == x) by {
                if has_name(w, y) {
                    let k = choose|k: int| 0 <= k < w.len() && w[k] == y;
                    if k > 0 {
                        assert(v[k - 1] == y);
                    }
                }
                if has_name(v, y) {
                    let k = choose|k: int| 0 <= k < v.len() && v[k] == y;
                    assert(w[k + 1] == y);
                }
                if y == x {
                    assert(w[0] == y);
                }
            }
            assert(strictly_sorted(w) && forall|y: Seq<char>| has_name(w, y) <==> (has_name(v, y) || y == x));
        } else {
            let t = v.drop_first();
            assert forall|a: int, b: int| 0 <= a < b < t.len() implies seq_less(t[a], t[b]) by {
                assert(t[a] == v[a + 1] && t[b] == v[b + 1]);
            }
            lemma_sorted_insert_exists(t, x);
            let w2 = choose|w2: Seq<Seq<char>>|
                strictly_sorted(w2) && forall|y: Seq<char>| has_name(w2, y) <==> (has_name(t, y) || y == x);
            let w = seq![v[0]] + w2;
            assert forall|k: int| 0 <= k < w2.len() implies seq_less(v[0], #[trigger] w2[k]) by {
                assert(has_name(w2, w2[k]));
                if w2[k] != x {
                    let m = choose|m: int| 0 <= m < t.len() && t[m] == w2[k];
                    assert(v[m + 1] == w2[k]);
                }
            }
            assert forall|a: int, b: int| 0 <= a < b < w.len() implies seq_less(w[a], w[b]) by {
                if a == 0 {
                    assert(w[b] == w2[b - 1]);
                } else {
                    assert(w[a] == w2[a - 1] && w[b] == w2[b - 1]);
                }
            }
            assert forall|y: Seq<char>| has_name(w, y) <==> (has_name(v, y) || y == x) by {
                if has_name(w, y) {
                    let k = choose|k: int| 0 <= k < w.len() && w[k] == y;
                    if k > 0 {
                        assert(w2[k - 1] == y);
                        assert(has_name(w2, y));
                        if y != x {
                            let m = choose|m: int| 0 <= m < t.len() && t[m] == y;
                            assert(v[m + 1] == y);
                        }
                    } else {
                        assert(v[0] == y);
                    }
                }
                if has_name(v, y) {
                    let k = choose|k: int| 0 <= k < v.len() && v[k] == y;
                    if k == 0 {
                        assert(w[0] == y);
                    } else {
                        assert(t[k - 1] == y);
                        assert(has_name(t, y));
                        let m = choose|m: int| 0 <= m < w2.len() && w2[m] == y;
                        assert(w[m + 1] == y);
                    }
                }
                if y == x {
                    assert(has_name(w2, y));
                    let m = choose|m: int| 0 <= m < w2.len() && w2[m] == y;
                    assert(w[m + 1] == y);
                }
            }
            assert(strictly_sorted(w) && forall|y: Seq<char>| has_name(w, y) <==> (has_name(v, y) || y == x));
        }
    }
}

/// The names of the INI files of the first `n` groups and of the first
/// `m` files of group `n`, in a sorted list without repeats, exist.
proof fn lemma_sorted_file_names_exist_upto(groups: Seq<GroupReport>, n: int, m: int)
    requires
        0 <= n <= groups.len(),
        n < groups.len() ==> 0 <= m <= groups[n].ini_files@.len(),
        n == groups.len() ==> m == 0,
    ensures
        exists|w: Seq<Seq<char>>|
            strictly_sorted(w) && forall|y: Seq<char>|
                has_name(w, y) <==> ((exists|i: int, j: int|
                    0 <= i < n && 0 <= j < groups[i].ini_files@.len()
                        && groups[i].ini_files@[j].name@ == y) || (exists|j: int|
                    0 <= j < m && groups[n].ini_files@[j].name@ == y)),
    decreases n, m,
{
    if m > 0 {
        lemma_sorted_file_names_exist_upto(groups, n, m - 1);
        let v = choose|w: Seq<Seq<char>>|
            strictly_sorted(w) && forall|y: Seq<char>|
                has_name(w, y) <==> ((exists|i: int, j: int|
                    0 <= i < n && 0 <= j < groups[i].ini_files@.len()
                        && groups[i].ini_files@[j].name@ == y) || (exists|j: int|
                    0 <= j < m - 1 && groups[n].ini_files@[j].name@ == y));
        let x = groups[n].ini_files@[m - 1].name@;
        lemma_sorted_insert_exists(v, x);
        let w = choose|w: Seq<Seq<char>>|
            strictly_sorted(w) && forall|y: Seq<char>| has_name(w, y) <==> (has_name(v, y) || y == x);
        assert forall|y: Seq<char>|
            has_name(w, y) <==> ((exists|i: int, j: int|
                0 <= i < n && 0 <= j < groups[i].ini_files@.len()
                    && groups[i].ini_files@[j].name@ == y) || (exists|j: int|
                0 <= j < m && groups[n].ini_files@[j].name@ == y)) by {
            if exists|j: int| 0 <= j < m && groups[n].ini_files@[j].name@ == y {
                let j = choose|j: int| 0 <= j < m && groups[n].ini_files@[j].name@ == y;
                if j < m - 1 {
                    assert(exists|j: int| 0 <= j < m - 1 && groups[n].ini_files@[j].name@ == y);
                }
            }
            if y == x {
                assert(exists|j: int| 0 <= j < m && groups[n].ini_files@[j].name@ == y);
            }
            if exists|j: int| 0 <= j < m - 1 && groups[n].ini_files@[j].name@ == y {
                let j = choose|j: int| 0 <= j < m - 1 && groups[n].ini_files@[j].name@ == y;
                assert(exists|j: int| 0 <= j < m && groups[n].ini_files@[j].name@ == y);
            }
        }
        assert(strictly_sorted(w));
    } else if n > 0 {
        let p: int = n - 1;
        lemma_sorted_file_names_exist_upto(groups, p, groups[p].ini_files@.len() as int);
        let v = choose|w: Seq<Seq<char>>|
            strictly_sorted(w) && forall|y: Seq<char>|
                has_name(w, y) <==> ((exists|i: int, j: int|
                    0 <= i < p && 0 <= j < groups[i].ini_files@.len()
                        && groups[i].ini_files@[j].name@ == y) || (exists|j: int|
                    0 <= j < groups[p].ini_files@.len() && groups[p].ini_files@[j].name@ == y));
        assert forall|y: Seq<char>|
            has_name(v, y) <==> ((exists|i: int, j: int|
                0 <= i < n && 0 <= j < groups[i].ini_files@.len()
                    && groups[i].ini_files@[j].name@ == y) || (exists|j: int|
                0 <= j < m && groups[n].ini_files@[j].name@ == y)) by {
            if exists|i: int, j: int|
                0 <= i < n && 0 <= j < groups[i].ini_files@.len() && groups[i].ini_files@[j].name@ == y {
                let (i, j) = choose|i: int, j: int|
                    0 <= i < n && 0 <= j < groups[i].ini_files@.len() && groups[i].ini_files@[j].name@ == y;
                if i == p {
                    assert(exists|j: int|
                        0 <= j < groups[p].ini_files@.len() && groups[p].ini_files@[j].name@ == y);
                } else {
                    assert(exists|i: int, j: int|
                        0 <= i < p && 0 <= j < groups[i].ini_files@.len()
                            && groups[i].ini_files@[j].name@ == y);
                }
            }
        }
        assert(strictly_sorted(v));
    } else {
        let w = Seq::<Seq<char>>::empty();
        assert(strictly_sorted(w) && forall|y: Seq<char>|
            has_name(w, y) <==> ((exists|i: int, j: int|
                0 <= i < n && 0 <= j < groups[i].ini_files@.len()
                    && groups[i].ini_files@[j].name@ == y) || (exists|j: int|
                0 <= j < m && groups[n].ini_files@[j].name@ == y)));
    }
}

/// The sorted list of the INI file names of the groups holds exactly those
/// names.
proof fn lemma_sorted_file_names(groups: Seq<GroupReport>)
    ensures
        strictly_sorted(sorted_names(ini_file_names(groups))),
        forall|y: Seq<char>|
            has_name(sorted_names(ini_file_names(groups)), y) <==> ini_file_names(groups).contains(y),
{
    lemma_sorted_file_names_exist_upto(groups, groups.len() as int, 0);
    let w = choose|w: Seq<Seq<char>>|
        strictly_sorted(w) && forall|y: Seq<char>|
            has_name(w, y) <==> ((exists|i: int, j: int|
                0 <= i < groups.len() && 0 <= j < groups[i].ini_files@.len()
                    && groups[i].ini_files@[j].name@ == y) || (exists|j: int|
                0 <= j < 0 && groups[groups.len() as int].ini_files@[j].name@ == y));
    assert forall|y: Seq<char>| has_name(w, y) <==> ini_file_names(groups).contains(y) by {}
    lemma_sorted_names(w, ini_file_names(groups));
}

/// Every INI file that some group has gets its section in the comparison
/// table: a heading row with its name, and the row of every key that the
/// file has in any group, compared with the file's baseline group (which
/// exists).
pub proof fn lemma_table_has_every_file(
    groups: Seq<GroupReport>,
    colors: GroupColorMap,
    summary_rows: Seq<char>,
    numbers: Seq<NumberEntry>,
)
    ensures
        forall|f: Seq<char>|
            #[trigger] ini_file_names(groups).contains(f) ==> {
                &&& baseline_of(groups, group_names(groups), f) is Some
                &&& contains(
                    comparison_table_spec(groups, colors, summary_rows, numbers),
                    file_header(groups.len(), f),
                )
            },
        forall|f: Seq<char>, k: Seq<char>|
            ini_file_names(groups).contains(f) && #[trigger] has_name(
                sorted_names(ini_keys_of(groups, group_names(groups), f)),
                k,
            ) ==> contains(
                comparison_table_spec(groups, colors, summary_rows, numbers),
                key_row(
                    groups,
                    group_names(groups),
                    numbers,
                    baseline_of(groups, group_names(groups), f)->0,
                    f,
                    k,
                ),
            ),
{
    let gs = group_names(groups);
    let n = gs.len();
    lemma_sorted_file_names(groups);
    let files = sorted_names(ini_file_names(groups));
    let table = comparison_table_spec(groups, colors, summary_rows, numbers);
    let sec = |f: Seq<char>| file_section(groups, gs, numbers, f);
    let sections = files.map_values(sec);
    assert forall|f: Seq<char>| ini_file_names(groups).contains(f) implies {
        &&& baseline_of(groups, gs, f) is Some
        &&& contains(table, sec(f))
    } by {
        let (i, j) = choose|i: int, j: int|
            0 <= i < groups.len() && 0 <= j < groups[i].ini_files@.len()
                && groups[i].ini_files@[j].name@ == f;
        lemma_file_data_found(groups[i].ini_files@, j, f);
        lemma_ini_of_found(groups, i, f);
        assert(gs[i] == groups[i].group_name@);
        lemma_baseline_found(groups, gs, i, f);
        assert(has_name(files, f));
        let t = choose|t: int| 0 <= t < files.len() && files[t] == f;
        lemma_concat_contains_part(sections, t);
        assert(files.len() > 0);
        let prefix = "<div class=\"ini-comparison-tables\"><table class=\"ini-comparison-table\"><thead><tr><th>Key</th><th>Comment</th>"@
            + concat(gs.map_values(|g: Seq<char>| header_cell(colors, g)))
            + "</tr></thead><tbody>"@ + major_row(n, "Benchmark Notes"@) + notes_rows_spec(groups, gs)
            + major_row(n, "Performance Summary"@) + summary_rows + major_row(n, "INI Differences"@);
        let rest = table.skip((prefix.len() + concat(sections).len()) as int);
        assert(table =~= prefix + concat(sections) + rest);
        lemma_contains_within(prefix, concat(sections), rest, sec(f));
    }
    assert forall|f: Seq<char>| #[trigger] ini_file_names(groups).contains(f) implies {
        &&& baseline_of(groups, gs, f) is Some
        &&& contains(table, file_header(groups.len(), f))
    } by {
        let b = baseline_of(groups, gs, f)->0;
        let rows = concat(
            sorted_names(ini_keys_of(groups, gs, f)).map_values(
                |k: Seq<char>| key_row(groups, gs, numbers, b, f, k),
            ),
        );
        assert(sec(f) == file_header(n, f) + rows);
        lemma_contains_self(file_header(n, f));
        lemma_contains_within(seq![], file_header(n, f), rows, file_header(n, f));
        assert(seq![] + file_header(n, f) + rows =~= sec(f));
        lemma_contains_trans(table, sec(f), file_header(n, f));
    }
    assert forall|f: Seq<char>, k: Seq<char>|
        ini_file_names(groups).contains(f) && #[trigger] has_name(
            sorted_names(ini_keys_of(groups, gs, f)),
            k,
        ) implies contains(table, key_row(groups, gs, numbers, baseline_of(groups, gs, f)->0, f, k)) by {
        let b = baseline_of(groups, gs, f)->0;
        let keys = sorted_names(ini_keys_of(groups, gs, f));
        let row = |k: Seq<char>| key_row(groups, gs, numbers, b, f, k);
        let q = choose|q: int| 0 <= q < keys.len() && keys[q] == k;
        lemma_concat_contains_part(keys.map_values(row), q);
        assert(sec(f) == file_header(n, f) + concat(keys.map_values(row)));
        lemma_contains_within(file_header(n, f), concat(keys.map_values(row)), seq![], row(k));
        assert(file_header(n, f) + concat(keys.map_values(row)) + seq![] =~= sec(f));
        lemma_contains_trans(table, sec(f), row(k));
    }
}

} // verus!
