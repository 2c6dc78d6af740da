use vstd::prelude::*;

use crate::text::{
    chars_of, find_char_from, index_of, lemma_index_of, owned, slice_chars, split_once,
    split_once_chars, str_equal, string_of, trim, trim_chars,
};

verus! {

// ---------------------------------------------------------------------------
// The INI format read by the comparison report
// ---------------------------------------------------------------------------

/// The pieces of `s` between line feeds, in order (an empty `s` is one
/// empty piece). After `str::trim`, each piece equals what `str::lines`
/// yields for it (a trailing carriage return is white space), and the extra
/// pieces (an empty last one) are blank and carry no entry.
pub open spec fn split_lines(s: Seq<char>) -> Seq<Seq<char>>
    decreases s.len(),
{
    let i = index_of(s, '\n');
    if i < 0 {
        seq![s]
    } else {
        proof {
            lemma_index_of(s, '\n');
        }
        seq![s.take(i)] + split_lines(s.skip(i + 1))
    }
}

/// The entry one line holds: its key, value and comment, all trimmed.
/// Blank lines, `;` comment lines, `[section]` lines, lines without `=`
/// and lines with an empty key hold none. The comment is what follows the
/// first `;` after the `=`, or empty.
pub open spec fn parse_ini_line(line: Seq<char>) -> Option<(Seq<char>, Seq<char>, Seq<char>)> {
    let t = trim(line);
    if t.len() == 0 || t[0] == ';' || t[0] == '[' {
        None
    } else {
        match split_once(t, '=') {
            None => None,
            Some((key_raw, remainder)) => {
                let key = trim(key_raw);
                if key.len() == 0 {
                    None
                } else {
                    match split_once(remainder, ';') {
                        Some((v, c)) => Some((key, trim(v), trim(c))),
                        None => Some((key, trim(remainder), Seq::<char>::empty())),
                    }
                }
            },
        }
    }
}

/// The key-to-(value, comment) map after reading one more line: a later
/// line sets a key again and wins.
pub open spec fn apply_ini_line(
    m: Map<Seq<char>, (Seq<char>, Seq<char>)>,
    line: Seq<char>,
) -> Map<Seq<char>, (Seq<char>, Seq<char>)> {
    match parse_ini_line(line) {
        Some((k, v, c)) => m.insert(k, (v, c)),
        None => m,
    }
}

/// The map after reading `lines` in order, starting from `m`.
pub open spec fn apply_ini_lines(
    m: Map<Seq<char>, (Seq<char>, Seq<char>)>,
    lines: Seq<Seq<char>>,
) -> Map<Seq<char>, (Seq<char>, Seq<char>)>
    decreases lines.len(),
{
    if lines.len() == 0 {
        m
    } else {
        apply_ini_lines(apply_ini_line(m, lines[0]), lines.drop_first())
    }
}

/// What an INI text means: each key mapped to the value and comment of its
/// last assignment.
pub open spec fn ini_map(content: Seq<char>) -> Map<Seq<char>, (Seq<char>, Seq<char>)> {
    apply_ini_lines(Map::empty(), split_lines(content))
}

// ---------------------------------------------------------------------------
// Parsed INI data
// ---------------------------------------------------------------------------

/// One key of an INI file with its value and comment.
pub struct IniEntry {
    pub key: String,
    pub value: String,
    pub comment: String,
}

/// The map that a list of entries stands for (a later entry wins).
pub open spec fn entries_map(es: Seq<IniEntry>) -> Map<Seq<char>, (Seq<char>, Seq<char>)>
    decreases es.len(),
{
    if es.len() == 0 {
        Map::empty()
    } else {
        entries_map(es.drop_last()).insert(
            es.last().key@,
            (es.last().value@, es.last().comment@),
        )
    }
}

/// No key occurs twice.
pub open spec fn keys_distinct(es: Seq<IniEntry>) -> bool {
    forall|i: int, j: int| 0 <= i < j < es.len() ==> es[i].key@ != es[j].key@
}

/// The keys of an INI file with their values and comments.
pub struct IniData {
    entries: Vec<IniEntry>,
}

impl View for IniData {
    type V = Map<Seq<char>, (Seq<char>, Seq<char>)>;

    closed spec fn view(&self) -> Self::V {
        entries_map(self.entries@)
    }
}

/// Every key of `es` is in the domain of its map.
pub proof fn lemma_entries_map_dom(es: Seq<IniEntry>)
    ensures
        forall|i: int| 0 <= i < es.len() ==> entries_map(es).dom().contains(#[trigger] es[i].key@),
        forall|k: Seq<char>|
            entries_map(es).dom().contains(k) ==> exists|i: int| 0 <= i < es.len() && es[i].key@ == k,
    decreases es.len(),
{
    if es.len() > 0 {
        lemma_entries_map_dom(es.drop_last());
        assert forall|i: int| 0 <= i < es.len() implies entries_map(es).dom().contains(
            #[trigger] es[i].key@,
        ) by {
            if i < es.len() - 1 {
                assert(es[i] == es.drop_last()[i]);
            }
        }
        assert forall|k: Seq<char>| entries_map(es).dom().contains(k) implies exists|i: int|
            0 <= i < es.len() && es[i].key@ == k by {
            if k != es.last().key@ {
                assert(entries_map(es.drop_last()).dom().contains(k));
                let i = choose|i: int| 0 <= i < es.drop_last().len() && es.drop_last()[i].key@ == k;
                assert(es[i] == es.drop_last()[i]);
            } else {
                assert(es[es.len() - 1].key@ == k);
            }
        }
    }
}

/// With distinct keys, the map gives each entry's own value.
pub proof fn lemma_entries_map_value(es: Seq<IniEntry>, i: int)
    requires
        keys_distinct(es),
        0 <= i < es.len(),
    ensures
        entries_map(es)[es[i].key@] == (es[i].value@, es[i].comment@),
    decreases es.len(),
{
    if i < es.len() - 1 {
        lemma_entries_map_value(es.drop_last(), i);
        assert(es[i] == es.drop_last()[i]);
    }
}

/// Replacing the entry of an existing key updates that key in the map.
pub proof fn lemma_entries_map_update(es: Seq<IniEntry>, k: int, e: IniEntry)
    requires
        keys_distinct(es),
        0 <= k < es.len(),
        e.key@ == es[k].key@,
    ensures
        entries_map(es.update(k, e)) == entries_map(es).insert(e.key@, (e.value@, e.comment@)),
        keys_distinct(es.update(k, e)),
    decreases es.len(),
{
    let es2 = es.update(k, e);
    if k == es.len() - 1 {
        assert(es2.drop_last() =~= es.drop_last());
        assert(entries_map(es2) =~= entries_map(es).insert(e.key@, (e.value@, e.comment@)));
    } else {
        assert(es2.drop_last() =~= es.drop_last().update(k, e));
        lemma_entries_map_update(es.drop_last(), k, e);
        assert(es[k] == es.drop_last()[k]);
        assert(es.last().key@ != e.key@);
        assert(entries_map(es2) =~= entries_map(es).insert(e.key@, (e.value@, e.comment@)));
    }
}

impl IniData {
    /// The data holds no key twice.
    #[verifier::type_invariant]
    spec fn keys_unique(self) -> bool {
        keys_distinct(self.entries@)
    }

    /// No keys.
    pub fn new() -> (r: IniData)
        ensures
            r@ == Map::<Seq<char>, (Seq<char>, Seq<char>)>::empty(),
    {
        IniData { entries: Vec::new() }
    }

    /// Sets `key` to `value` and `comment`, replacing what the key held
    /// when it is already there.
    pub fn insert(&mut self, key: String, value: String, comment: String)
        ensures
            final(self)@ == old(self)@.insert(key@, (value@, comment@)),
    {
        proof {
            use_type_invariant(&*self);
        }
        let mut entries: Vec<IniEntry> = Vec::new();
        std::mem::swap(&mut entries, &mut self.entries);
        let ghost before = entries@;
        let mut i: usize = 0;
        while i < entries.len()
            invariant
                i <= entries.len(),
                keys_distinct(entries@),
                entries@ == before,
                before == old(self).entries@,
                forall|j: int| 0 <= j < i ==> entries@[j].key@ != key@,
            decreases entries.len() - i,
        {
            if entries[i].key == key {
                let e = IniEntry { key, value, comment };
                proof {
                    lemma_entries_map_update(entries@, i as int, e);
                }
                entries.set(i, e);
                self.entries = entries;
                return;
            }
            i = i + 1;
        }
        entries.push(IniEntry { key, value, comment });
        assert(entries@.drop_last() =~= before);
        self.entries = entries;
    }

    /// The value and comment of `key`, when it is there.
    pub fn get(&self, key: &str) -> (r: Option<(String, String)>)
        ensures
            match r {
                Some((v, c)) => self@.dom().contains(key@) && self@[key@] == (v@, c@),
                None => !self@.dom().contains(key@),
            },
    {
        proof {
            use_type_invariant(self);
            lemma_entries_map_dom(self.entries@);
        }
        let mut i: usize = 0;
        while i < self.entries.len()
            invariant
                keys_distinct(self.entries@),
                i <= self.entries.len(),
                forall|j: int| 0 <= j < i ==> self.entries@[j].key@ != key@,
            decreases self.entries.len() - i,
        {
            if str_equal(self.entries[i].key.as_str(), key) {
                proof {
                    lemma_entries_map_value(self.entries@, i as int);
                    lemma_entries_map_dom(self.entries@);
                    assert(self.entries@[i as int].key@ == key@);
                }
                let v = owned(self.entries[i].value.as_str());
                let c = owned(self.entries[i].comment.as_str());
                return Some((v, c));
            }
            i = i + 1;
        }
        None
    }

    /// The value of `key` (`values_by_key.get(key)`).
    pub fn value_of(&self, key: &str) -> (r: Option<String>)
        ensures
            match r {
                Some(v) => self@.dom().contains(key@) && self@[key@].0 == v@,
                None => !self@.dom().contains(key@),
            },
    {
        match self.get(key) {
            Some((v, _)) => Some(v),
            None => None,
        }
    }

    /// The comment of `key` (`comments_by_key.get(key)`).
    pub fn comment_of(&self, key: &str) -> (r: Option<String>)
        ensures
            match r {
                Some(c) => self@.dom().contains(key@) && self@[key@].1 == c@,
                None => !self@.dom().contains(key@),
            },
    {
        match self.get(key) {
            Some((_, c)) => Some(c),
            None => None,
        }
    }

    /// The keys, each once. Their order is left open, as a hash map's
    /// would be.
    pub fn keys(&self) -> (r: Vec<String>)
        ensures
            forall|i: int| 0 <= i < r@.len() ==> self@.dom().contains(#[trigger] r@[i]@),
            forall|k: Seq<char>|
                self@.dom().contains(k) ==> exists|i: int| 0 <= i < r@.len() && r@[i]@ == k,
            forall|i: int, j: int| 0 <= i < j < r@.len() ==> r@[i]@ != r@[j]@,
    {
        proof {
            use_type_invariant(self);
            lemma_entries_map_dom(self.entries@);
        }
        let mut r: Vec<String> = Vec::new();
        let mut i: usize = 0;
        while i < self.entries.len()
            invariant
                i <= self.entries.len(),
                r@.len() == i,
                forall|j: int| 0 <= j < i ==> (#[trigger] r@[j])@ == self.entries@[j].key@,
            decreases self.entries.len() - i,
        {
            r.push(owned(self.entries[i].key.as_str()));
            i = i + 1;
        }
        assert forall|k: Seq<char>| self@.dom().contains(k) implies exists|i: int|
            0 <= i < r@.len() && r@[i]@ == k by {
            let i = choose|i: int| 0 <= i < self.entries@.len() && self.entries@[i].key@ == k;
            assert(r@[i]@ == k);
        }
        r
    }

    /// The number of keys.
    pub fn len(&self) -> (r: usize)
        ensures
            r == self@.dom().len(),
    {
        proof {
            use_type_invariant(self);
            lemma_distinct_keys_len(self.entries@);
        }
        self.entries.len()
    }
}

/// With distinct keys, the map has one key per entry.
pub proof fn lemma_distinct_keys_len(es: Seq<IniEntry>)
    requires
        keys_distinct(es),
    ensures
        entries_map(es).dom().finite(),
        entries_map(es).dom().len() == es.len(),
    decreases es.len(),
{
    if es.len() > 0 {
        lemma_distinct_keys_len(es.drop_last());
        lemma_entries_map_dom(es.drop_last());
        if entries_map(es.drop_last()).dom().contains(es.last().key@) {
            let i = choose|i: int|
                0 <= i < es.drop_last().len() && es.drop_last()[i].key@ == es.last().key@;
            assert(es[i] == es.drop_last()[i]);
        }
    }
}

/// Reads one line (`s[start..end]`) into `data`.
fn read_ini_line(data: &mut IniData, s: &Vec<char>, start: usize, end: usize)
    requires
        start <= end <= s.len(),
    ensures
        final(data)@ == apply_ini_line(old(data)@, s@.subrange(start as int, end as int)),
{
    let line = slice_chars(s, start, end);
    let t = trim_chars(&line);
    if t.len() == 0 || t[0] == ';' || t[0] == '[' {
        return;
    }
    match split_once_chars(&t, '=') {
        None => {},
        Some((key_raw, remainder)) => {
            let key = trim_chars(&key_raw);
            if key.len() == 0 {
                return;
            }
            let (value, comment) = match split_once_chars(&remainder, ';') {
                Some((v, c)) => (trim_chars(&v), trim_chars(&c)),
                None => (trim_chars(&remainder), Vec::new()),
            };
            assert(comment@ =~= Seq::<char>::empty() || split_once(remainder@, ';') is Some);
            data.insert(string_of(&key), string_of(&value), string_of(&comment));
        },
    }
}

/// Parses INI text: every `key = value ; comment` line, trimmed, with later
/// lines setting a key again.
pub fn parse_ini_text(content: &str) -> (r: IniData)
    ensures
        r@ == ini_map(content@),
{
    let s = chars_of(content);
    let mut data = IniData::new();
    let mut pos: usize = 0;
    assert(s@.skip(0) =~= s@);
    loop
        invariant
            s@ == content@,
            pos <= s.len(),
            ini_map(s@) == apply_ini_lines(data@, split_lines(s@.skip(pos as int))),
        decreases s.len() - pos,
    {
        let ghost rest = s@.skip(pos as int);
        match find_char_from(&s, '\n', pos) {
            None => {
                assert(split_lines(rest) == seq![rest]);
                assert(rest =~= s@.subrange(pos as int, s.len() as int));
                let ghost m0 = data@;
                read_ini_line(&mut data, &s, pos, s.len());
                assert(seq![rest].drop_first() =~= Seq::<Seq<char>>::empty());
                assert(seq![rest][0] == rest);
                assert(apply_ini_lines(m0, seq![rest]) == apply_ini_lines(
                    apply_ini_line(m0, rest),
                    Seq::<Seq<char>>::empty(),
                ));
                assert(apply_ini_lines(apply_ini_line(m0, rest), Seq::<Seq<char>>::empty())
                    == apply_ini_line(m0, rest));
                assert(data@ == apply_ini_line(m0, rest));
                return data;
            },
            Some(i) => {
                proof {
                    lemma_index_of(rest, '\n');
                }
                assert(rest.take(i - pos) =~= s@.subrange(pos as int, i as int));
                assert(rest.skip(i - pos + 1) =~= s@.skip(i + 1));
                let ghost lines = split_lines(rest);
                assert(lines == seq![rest.take(i - pos)] + split_lines(rest.skip(i - pos + 1)));
                assert(lines.drop_first() =~= split_lines(s@.skip(i + 1)));
                read_ini_line(&mut data, &s, pos, i);
                pos = i + 1;
            },
        }
    }
}

// ---------------------------------------------------------------------------
// Reading one text after another
// ---------------------------------------------------------------------------

/// `index_of` is the first position of `c`, or -1 when `c` does not occur.
proof fn lemma_index_of_first(s: Seq<char>, c: char, i: int)
    requires
        -1 <= i <= s.len(),
        i >= 0 ==> i < s.len() && s[i] == c,
        forall|j: int| 0 <= j < s.len() && (i < 0 || j < i) ==> s[j] != c,
    ensures
        index_of(s, c) == i,
{
    lemma_index_of(s, c);
    let k = index_of(s, c);
    if k >= 0 && i >= 0 {
        if k < i {
            assert(s[k] != c);
        } else if i < k {
            assert(s[i] != c);
        }
    } else if k >= 0 {
        assert(s[k] != c);
    } else if i >= 0 {
        assert(s[i] != c);
    }
}

/// The lines of `a`, a line feed and `b` are the lines of `a` followed by
/// those of `b`.
proof fn lemma_split_lines_join(a: Seq<char>, b: Seq<char>)
    ensures
        split_lines(a + seq!['\n'] + b) == split_lines(a) + split_lines(b),
    decreases a.len(),
{
    let w = a + seq!['\n'] + b;
    lemma_index_of(a, '\n');
    let i = index_of(a, '\n');
    if i < 0 {
        lemma_index_of_first(w, '\n', a.len() as int);
        assert(w.take(a.len() as int) =~= a);
        assert(w.skip(a.len() as int + 1) =~= b);
        assert(split_lines(a) == seq![a]);
    } else {
        lemma_index_of_first(w, '\n', i);
        let rest = a.skip(i + 1);
        lemma_split_lines_join(rest, b);
        assert(w.take(i) =~= a.take(i));
        assert(w.skip(i + 1) =~= rest + seq!['\n'] + b);
        assert(split_lines(a) == seq![a.take(i)] + split_lines(rest));
        assert(seq![a.take(i)] + (split_lines(rest) + split_lines(b)) =~= seq![a.take(i)]
            + split_lines(rest) + split_lines(b));
    }
}

/// Reading lines onto a map gives the map overridden by what the lines
/// alone give.
proof fn lemma_apply_lines_union(m: Map<Seq<char>, (Seq<char>, Seq<char>)>, lines: Seq<Seq<char>>)
    ensures
        apply_ini_lines(m, lines) == m.union_prefer_right(apply_ini_lines(Map::empty(), lines)),
    decreases lines.len(),
{
    if lines.len() == 0 {
        assert(m.union_prefer_right(Map::empty()) =~= m);
    } else {
        let l = lines[0];
        let rest = lines.drop_first();
        let m1 = apply_ini_line(m, l);
        let e1 = apply_ini_line(Map::empty(), l);
        lemma_apply_lines_union(m1, rest);
        lemma_apply_lines_union(e1, rest);
        let x = apply_ini_lines(Map::empty(), rest);
        assert(m1 =~= m.union_prefer_right(e1));
        assert(m1.union_prefer_right(x) =~= m.union_prefer_right(e1.union_prefer_right(x)));
    }
}

/// Reading lines in two parts is reading them all.
proof fn lemma_apply_lines_append(
    m: Map<Seq<char>, (Seq<char>, Seq<char>)>,
    x: Seq<Seq<char>>,
    y: Seq<Seq<char>>,
)
    ensures
        apply_ini_lines(m, x + y) == apply_ini_lines(apply_ini_lines(m, x), y),
    decreases x.len(),
{
    if x.len() == 0 {
        assert(x + y =~= y);
    } else {
        assert((x + y).drop_first() =~= x.drop_first() + y);
        assert((x + y)[0] == x[0]);
        lemma_apply_lines_append(apply_ini_line(m, x[0]), x.drop_first(), y);
    }
}

/// INI text read after other INI text (on a line of its own) overrides it:
/// each key takes the value and comment that the later text gives it, and
/// keeps those of the earlier text otherwise.
pub proof fn lemma_later_text_overrides(a: Seq<char>, b: Seq<char>)
    ensures
        ini_map(a + seq!['\n'] + b) == ini_map(a).union_prefer_right(ini_map(b)),
{
    lemma_split_lines_join(a, b);
    lemma_apply_lines_append(Map::empty(), split_lines(a), split_lines(b));
    lemma_apply_lines_union(ini_map(a), split_lines(b));
}

} // verus!
