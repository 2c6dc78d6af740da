use vstd::prelude::*;

verus! {

// ---------------------------------------------------------------------------
// Characters
// ---------------------------------------------------------------------------

/// The Unicode `White_Space` property, which `char::is_whitespace` tests.
pub open spec fn is_space(c: char) -> bool {
    let u = c as u32;
    ||| 0x09 <= u <= 0x0d
    ||| u == 0x20
    ||| u == 0x85
    ||| u == 0xa0
    ||| u == 0x1680
    ||| 0x2000 <= u <= 0x200a
    ||| u == 0x2028
    ||| u == 0x2029
    ||| u == 0x202f
    ||| u == 0x205f
    ||| u == 0x3000
}

/// Whether `c` is white space in the sense of [`is_space`].
pub fn char_is_space(c: char) -> (r: bool)
    ensures
        r == is_space(c),
{
    let u = c as u32;
    (0x09 <= u && u <= 0x0d) || u == 0x20 || u == 0x85 || u == 0xa0 || u == 0x1680 || (0x2000
        <= u && u <= 0x200a) || u == 0x2028 || u == 0x2029 || u == 0x202f || u == 0x205f || u
        == 0x3000
}

/// The ASCII lower-case form of a character (`char::to_ascii_lowercase`).
pub open spec fn ascii_lower(c: char) -> char {
    if 'A' <= c && c <= 'Z' {
        ((c as u32) + 32) as char
    } else {
        c
    }
}

/// The ASCII lower-case form of every character of `s`.
pub open spec fn ascii_lower_seq(s: Seq<char>) -> Seq<char> {
    s.map_values(|c: char| ascii_lower(c))
}

// ---------------------------------------------------------------------------
// Conversions between `str`/`String` and character vectors
// ---------------------------------------------------------------------------

/// The characters of `s`, in order.
pub fn chars_of(s: &str) -> (r: Vec<char>)
    ensures
        r@ == s@,
{
    let mut r: Vec<char> = Vec::new();
    for c in it: s.chars()
        invariant
            r@ == it.seq().take(it.index()),
            it.seq() == s@,
    {
        r.push(c);
    }
    r
}

/// Appends one character to a string (`String::push`).
#[verifier::external_body]
pub(crate) fn push_char(s: &mut String, c: char)
    ensures
        final(s)@ == old(s)@.push(c),
{
    s.push(c);
}

/// Appends the characters of `v` to `out`.
pub fn push_chars(out: &mut String, v: &Vec<char>)
    ensures
        final(out)@ == old(out)@ + v@,
{
    let mut i: usize = 0;
    while i < v.len()
        invariant
            i <= v.len(),
            out@ == old(out)@ + v@.take(i as int),
        decreases v.len() - i,
    {
        proof {
            assert(v@.take(i + 1) =~= v@.take(i as int).push(v@[i as int]));
        }
        push_char(out, v[i]);
        i = i + 1;
    }
    assert(v@.take(v.len() as int) =~= v@);
}

/// Appends a string slice to `out`.
pub fn push_str(out: &mut String, s: &str)
    ensures
        final(out)@ == old(out)@ + s@,
{
    out.append(s);
}

/// A `String` holding the characters of `v`.
pub fn string_of(v: &Vec<char>) -> (r: String)
    ensures
        r@ == v@,
{
    let mut r = String::new();
    push_chars(&mut r, v);
    r
}

/// A `String` holding the characters of `s`.
pub fn owned(s: &str) -> (r: String)
    ensures
        r@ == s@,
{
    let mut r = String::new();
    push_str(&mut r, s);
    r
}

/// The characters of `v` from `start` (inclusive) to `end` (exclusive).
pub fn slice_chars(v: &Vec<char>, start: usize, end: usize) -> (r: Vec<char>)
    requires
        start <= end <= v.len(),
    ensures
        r@ == v@.subrange(start as int, end as int),
{
    let mut r: Vec<char> = Vec::new();
    let mut i = start;
    while i < end
        invariant
            start <= i <= end <= v.len(),
            r@ == v@.subrange(start as int, i as int),
        decreases end - i,
    {
        r.push(v[i]);
        i = i + 1;
        assert(r@ =~= v@.subrange(start as int, i as int));
    }
    r
}

/// The concatenation of two character vectors.
pub fn concat_chars(a: &Vec<char>, b: &Vec<char>) -> (r: Vec<char>)
    ensures
        r@ == a@ + b@,
{
    let mut r: Vec<char> = Vec::new();
    let mut i: usize = 0;
    while i < a.len()
        invariant
            i <= a.len(),
            r@ == a@.take(i as int),
        decreases a.len() - i,
    {
        r.push(a[i]);
        i = i + 1;
        assert(r@ =~= a@.take(i as int));
    }
    let mut j: usize = 0;
    while j < b.len()
        invariant
            i == a.len(),
            j <= b.len(),
            r@ == a@ + b@.take(j as int),
        decreases b.len() - j,
    {
        r.push(b[j]);
        j = j + 1;
        assert(r@ =~= a@ + b@.take(j as int));
    }
    assert(a@.take(a.len() as int) =~= a@);
    assert(b@.take(b.len() as int) =~= b@);
    r
}

/// Whether two character vectors hold the same characters.
pub fn chars_equal(a: &Vec<char>, b: &Vec<char>) -> (r: bool)
    ensures
        r == (a@ == b@),
{
    if a.len() != b.len() {
        return false;
    }
    let mut i: usize = 0;
    while i < a.len()
        invariant
            a.len() == b.len(),
            i <= a.len(),
            a@.take(i as int) == b@.take(i as int),
        decreases a.len() - i,
    {
        if a[i] != b[i] {
            return false;
        }
        i = i + 1;
        assert(a@.take(i as int) =~= a@.take(i - 1).push(a@[i - 1]));
        assert(b@.take(i as int) =~= b@.take(i - 1).push(b@[i - 1]));
    }
    assert(a@ =~= a@.take(a.len() as int));
    assert(b@ =~= b@.take(b.len() as int));
    true
}

/// Whether two string slices hold the same characters.
pub fn str_equal(a: &str, b: &str) -> (r: bool)
    ensures
        r == (a@ == b@),
{
    let x = chars_of(a);
    let y = chars_of(b);
    chars_equal(&x, &y)
}

// ---------------------------------------------------------------------------
// Trimming (`str::trim`)
// ---------------------------------------------------------------------------

/// `s` without its leading white space.
pub open spec fn trim_start(s: Seq<char>) -> Seq<char>
    decreases s.len(),
{
    if s.len() > 0 && is_space(s[0]) {
        trim_start(s.drop_first())
    } else {
        s
    }
}

/// `s` without its trailing white space.
pub open spec fn trim_end(s: Seq<char>) -> Seq<char>
    decreases s.len(),
{
    if s.len() > 0 && is_space(s.last()) {
        trim_end(s.drop_last())
    } else {
        s
    }
}

/// `s` without leading and trailing white space, as `str::trim` gives it.
pub open spec fn trim(s: Seq<char>) -> Seq<char> {
    trim_end(trim_start(s))
}

/// The position of the first character of `s` that is not white space, and
/// the position just after the last one: `s[start..end]` is `trim(s)`.
pub fn trim_bounds(s: &Vec<char>) -> (r: (usize, usize))
    ensures
        r.0 <= r.1 <= s.len(),
        s@.subrange(r.0 as int, r.1 as int) == trim(s@),
        trim_start(s@) == s@.skip(r.0 as int),
{
    let mut i: usize = 0;
    assert(s@.skip(0) =~= s@);
    while i < s.len() && char_is_space(s[i])
        invariant
            i <= s.len(),
            trim_start(s@) == trim_start(s@.skip(i as int)),
        decreases s.len() - i,
    {
        assert(s@.skip(i as int).drop_first() =~= s@.skip(i + 1));
        i = i + 1;
    }
    assert(trim_start(s@.skip(i as int)) == s@.skip(i as int));
    let mut j: usize = s.len();
    while j > i && char_is_space(s[j - 1])
        invariant
            i <= j <= s.len(),
            trim_end(s@.skip(i as int)) == trim_end(s@.subrange(i as int, j as int)),
        decreases j,
    {
        assert(s@.subrange(i as int, j as int).drop_last() =~= s@.subrange(i as int, j - 1));
        j = j - 1;
    }
    assert(trim_end(s@.subrange(i as int, j as int)) == s@.subrange(i as int, j as int));
    (i, j)
}

/// The characters of `s` without leading and trailing white space.
pub fn trim_chars(s: &Vec<char>) -> (r: Vec<char>)
    ensures
        r@ == trim(s@),
{
    let (a, b) = trim_bounds(s);
    slice_chars(s, a, b)
}

/// Trimming is idempotent.
pub proof fn lemma_trim_start_idempotent(s: Seq<char>)
    ensures
        trim_start(trim_start(s)) == trim_start(s),
        trim_start(s).len() > 0 ==> !is_space(trim_start(s)[0]),
    decreases s.len(),
{
    if s.len() > 0 && is_space(s[0]) {
        lemma_trim_start_idempotent(s.drop_first());
    }
}

/// The result of `trim_end` has no trailing white space.
pub proof fn lemma_trim_end_last(s: Seq<char>)
    ensures
        trim_end(s).len() > 0 ==> !is_space(trim_end(s).last()),
        trim_end(s).len() <= s.len(),
        trim_end(s) == s.take(trim_end(s).len() as int),
    decreases s.len(),
{
    if s.len() > 0 && is_space(s.last()) {
        lemma_trim_end_last(s.drop_last());
        assert(s.drop_last().take(trim_end(s).len() as int) =~= s.take(trim_end(s).len() as int));
    } else {
        assert(s.take(s.len() as int) =~= s);
    }
}

// ---------------------------------------------------------------------------
// Searching
// ---------------------------------------------------------------------------

/// The position of the first `c` in `s`, or -1 when there is none.
pub open spec fn index_of(s: Seq<char>, c: char) -> int
    decreases s.len(),
{
    if s.len() == 0 {
        -1
    } else if s[0] == c {
        0
    } else {
        let r = index_of(s.drop_first(), c);
        if r < 0 {
            -1
        } else {
            r + 1
        }
    }
}

/// What `index_of` means.
pub proof fn lemma_index_of(s: Seq<char>, c: char)
    ensures
        -1 <= index_of(s, c) < s.len(),
        index_of(s, c) >= 0 ==> s[index_of(s, c)] == c,
        forall|j: int| 0 <= j < s.len() && (index_of(s, c) < 0 || j < index_of(s, c)) ==> s[j] != c,
    decreases s.len(),
{
    if s.len() > 0 && s[0] != c {
        lemma_index_of(s.drop_first(), c);
        assert forall|j: int|
            0 <= j < s.len() && (index_of(s, c) < 0 || j < index_of(s, c)) implies s[j] != c by {
            if j > 0 {
                assert(s[j] == s.drop_first()[j - 1]);
            }
        }
    }
}

/// The position of the first `c` in `s`.
pub fn find_char(s: &Vec<char>, c: char) -> (r: Option<usize>)
    ensures
        match r {
            Some(i) => i as int == index_of(s@, c),
            None => index_of(s@, c) < 0,
        },
{
    proof {
        lemma_index_of(s@, c);
    }
    let mut i: usize = 0;
    while i < s.len()
        invariant
            i <= s.len(),
            forall|j: int| 0 <= j < i ==> s@[j] != c,
            -1 <= index_of(s@, c) < s.len(),
            index_of(s@, c) >= 0 ==> s@[index_of(s@, c)] == c,
            forall|j: int|
                0 <= j < s.len() && (index_of(s@, c) < 0 || j < index_of(s@, c)) ==> s@[j] != c,
        decreases s.len() - i,
    {
        if s[i] == c {
            return Some(i);
        }
        i = i + 1;
    }
    None
}

/// The position of the first `c` in `s` at or after `from`.
pub fn find_char_from(s: &Vec<char>, c: char, from: usize) -> (r: Option<usize>)
    requires
        from <= s.len(),
    ensures
        match r {
            Some(i) => from <= i < s.len() && (i - from) as int == index_of(s@.skip(from as int), c),
            None => index_of(s@.skip(from as int), c) < 0,
        },
{
    let ghost t = s@.skip(from as int);
    proof {
        lemma_index_of(t, c);
    }
    let mut i = from;
    while i < s.len()
        invariant
            from <= i <= s.len(),
            t == s@.skip(from as int),
            forall|j: int| from <= j < i ==> s@[j] != c,
            -1 <= index_of(t, c) < t.len(),
            index_of(t, c) >= 0 ==> t[index_of(t, c)] == c,
            forall|j: int| 0 <= j < t.len() && (index_of(t, c) < 0 || j < index_of(t, c)) ==> t[j] != c,
        decreases s.len() - i,
    {
        if s[i] == c {
            assert(t[i - from] == c);
            return Some(i);
        }
        i = i + 1;
    }
    proof {
        if index_of(t, c) >= 0 {
            assert(t[index_of(t, c)] == s@[from + index_of(t, c)]);
        }
    }
    None
}

/// `s` splits at its first `c` into the part before and the part after it
/// (`str::split_once` with a character pattern).
pub open spec fn split_once(s: Seq<char>, c: char) -> Option<(Seq<char>, Seq<char>)> {
    let i = index_of(s, c);
    if i < 0 {
        None
    } else {
        Some((s.take(i), s.skip(i + 1)))
    }
}

/// Splits `s` at its first `c`.
pub fn split_once_chars(s: &Vec<char>, c: char) -> (r: Option<(Vec<char>, Vec<char>)>)
    ensures
        match r {
            Some((a, b)) => split_once(s@, c) == Some((a@, b@)),
            None => split_once(s@, c) is None,
        },
{
    match find_char(s, c) {
        Some(i) => {
            proof {
                lemma_index_of(s@, c);
            }
            assert(i < s.len());
            let a = slice_chars(s, 0, i);
            let b = slice_chars(s, i + 1, s.len());
            Some((a, b))
        },
        None => None,
    }
}

/// `s` begins with `p`.
pub open spec fn starts_with(s: Seq<char>, p: Seq<char>) -> bool {
    p.len() <= s.len() && s.take(p.len() as int) == p
}

/// `s` ends with `p`.
pub open spec fn ends_with(s: Seq<char>, p: Seq<char>) -> bool {
    p.len() <= s.len() && s.skip(s.len() - p.len()) == p
}

/// `p` occurs in `s` at position `i`.
pub open spec fn occurs_at(s: Seq<char>, p: Seq<char>, i: int) -> bool {
    0 <= i && i + p.len() <= s.len() && s.subrange(i, i + p.len()) == p
}

/// `p` occurs somewhere in `s`.
pub open spec fn contains(s: Seq<char>, p: Seq<char>) -> bool {
    exists|i: int| occurs_at(s, p, i)
}

/// Whether `p` occurs in `s` at position `i`.
pub fn matches_at(s: &Vec<char>, p: &Vec<char>, i: usize) -> (r: bool)
    requires
        i <= s.len(),
    ensures
        r == occurs_at(s@, p@, i as int),
{
    if p.len() > s.len() - i {
        return false;
    }
    let mut k: usize = 0;
    while k < p.len()
        invariant
            i + p.len() <= s.len(),
            k <= p.len(),
            forall|m: int| 0 <= m < k ==> s@[i + m] == p@[m],
        decreases p.len() - k,
    {
        if s[i + k] != p[k] {
            assert(s@.subrange(i as int, i + p.len())[k as int] != p@[k as int]);
            return false;
        }
        k = k + 1;
    }
    assert(s@.subrange(i as int, i + p.len()) =~= p@);
    true
}

/// Whether `s` begins with `p`.
pub fn chars_start_with(s: &Vec<char>, p: &Vec<char>) -> (r: bool)
    ensures
        r == starts_with(s@, p@),
{
    let r = matches_at(s, p, 0);
    assert(s@.subrange(0, p@.len() as int) =~= s@.take(p@.len() as int));
    r
}

/// Whether `s` ends with `p`.
pub fn chars_end_with(s: &Vec<char>, p: &Vec<char>) -> (r: bool)
    ensures
        r == ends_with(s@, p@),
{
    if p.len() > s.len() {
        return false;
    }
    let r = matches_at(s, p, s.len() - p.len());
    assert(s@.subrange(s.len() - p.len(), s.len() as int) =~= s@.skip(s.len() - p.len()));
    r
}

/// The first position at which `p` occurs in `s`, at or after `from`.
pub fn find_from(s: &Vec<char>, p: &Vec<char>, from: usize) -> (r: Option<usize>)
    requires
        from <= s.len(),
    ensures
        match r {
            Some(i) => from <= i && occurs_at(s@, p@, i as int) && forall|j: int|
                from <= j < i ==> !occurs_at(s@, p@, j),
            None => forall|j: int| from <= j ==> !occurs_at(s@, p@, j),
        },
{
    let mut i = from;
    while i < s.len()
        invariant
            from <= i <= s.len(),
            forall|j: int| from <= j < i ==> !occurs_at(s@, p@, j),
        decreases s.len() - i,
    {
        if matches_at(s, p, i) {
            return Some(i);
        }
        i = i + 1;
    }
    if matches_at(s, p, i) {
        return Some(i);
    }
    None
}

/// Whether `p` occurs in `s`.
pub fn chars_contain(s: &Vec<char>, p: &Vec<char>) -> (r: bool)
    ensures
        r == contains(s@, p@),
{
    match find_from(s, p, 0) {
        Some(i) => true,
        None => false,
    }
}


// ---------------------------------------------------------------------------
// Replacing (`str::replace`, `str::replacen`)
// ---------------------------------------------------------------------------

/// `s` with every occurrence of `from` replaced by `to`, matches taken from
/// left to right without overlapping, as `str::replace` does for a non-empty
/// pattern.
pub open spec fn replace_all(s: Seq<char>, from: Seq<char>, to: Seq<char>) -> Seq<char>
    decreases s.len(),
{
    if from.len() == 0 || s.len() < from.len() {
        s
    } else if s.take(from.len() as int) == from {
        to + replace_all(s.skip(from.len() as int), from, to)
    } else {
        seq![s[0]] + replace_all(s.drop_first(), from, to)
    }
}

/// `s` with every occurrence of `from` replaced by `to`.
pub fn replace_chars(s: &Vec<char>, from: &Vec<char>, to: &Vec<char>) -> (r: Vec<char>)
    requires
        from.len() > 0,
    ensures
        r@ == replace_all(s@, from@, to@),
{
    let mut out: Vec<char> = Vec::new();
    let mut i: usize = 0;
    assert(s@.skip(0) =~= s@);
    while i < s.len()
        invariant
            from.len() > 0,
            i <= s.len(),
            replace_all(s@, from@, to@) == out@ + replace_all(s@.skip(i as int), from@, to@),
        decreases s.len() - i,
    {
        let ghost rest = s@.skip(i as int);
        if s.len() - i < from.len() {
            assert(replace_all(rest, from@, to@) == rest);
            while i < s.len()
                invariant
                    i <= s.len(),
                    replace_all(s@, from@, to@) == out@ + s@.skip(i as int),
                decreases s.len() - i,
            {
                assert(s@.skip(i as int) =~= seq![s@[i as int]] + s@.skip(i + 1));
                out.push(s[i]);
                i = i + 1;
            }
            assert(s@.skip(i as int) =~= Seq::<char>::empty());
            assert(out@ + Seq::<char>::empty() =~= out@);
            return out;
        }
        if matches_at(s, from, i) {
            assert(rest.take(from.len() as int) =~= s@.subrange(i as int, i + from.len()));
            assert(rest.skip(from.len() as int) =~= s@.skip(i + from.len()));
            let mut k: usize = 0;
            let ghost before = out@;
            while k < to.len()
                invariant
                    k <= to.len(),
                    out@ == before + to@.take(k as int),
                decreases to.len() - k,
            {
                out.push(to[k]);
                k = k + 1;
                assert(out@ =~= before + to@.take(k as int));
            }
            assert(to@.take(to.len() as int) =~= to@);
            assert(before + (to@ + replace_all(s@.skip(i + from.len()), from@, to@)) =~= out@
                + replace_all(s@.skip(i + from.len()), from@, to@));
            i = i + from.len();
        } else {
            assert(rest.take(from.len() as int) =~= s@.subrange(i as int, i + from.len()));
            assert(rest.drop_first() =~= s@.skip(i + 1));
            let ghost before = out@;
            out.push(s[i]);
            assert(before + (seq![s@[i as int]] + replace_all(s@.skip(i + 1), from@, to@)) =~= out@
                + replace_all(s@.skip(i + 1), from@, to@));
            i = i + 1;
        }
    }
    assert(s@.skip(i as int) =~= Seq::<char>::empty());
    assert(out@ + Seq::<char>::empty() =~= out@);
    out
}

/// The first position at which `p` occurs in `s`, or -1 when it does not.
pub open spec fn first_occurrence(s: Seq<char>, p: Seq<char>) -> int {
    if contains(s, p) {
        choose|i: int| occurs_at(s, p, i) && forall|j: int| 0 <= j < i ==> !occurs_at(s, p, j)
    } else {
        -1
    }
}

/// `s` with its first occurrence of `from` replaced by `to`
/// (`str::replacen` with a count of one).
pub open spec fn replace_first(s: Seq<char>, from: Seq<char>, to: Seq<char>) -> Seq<char> {
    let i = first_occurrence(s, from);
    if i < 0 {
        s
    } else {
        s.take(i) + to + s.skip(i + from.len())
    }
}

/// The first position at which `p` occurs in `s`.
pub fn find_first(s: &Vec<char>, p: &Vec<char>) -> (r: Option<usize>)
    ensures
        match r {
            Some(i) => i as int == first_occurrence(s@, p@) && occurs_at(s@, p@, i as int),
            None => first_occurrence(s@, p@) == -1 && !contains(s@, p@),
        },
{
    match find_from(s, p, 0) {
        Some(i) => {
            proof {
                assert(occurs_at(s@, p@, i as int));
                let k = first_occurrence(s@, p@);
                assert(occurs_at(s@, p@, k) && forall|j: int| 0 <= j < k ==> !occurs_at(s@, p@, j));
                if k < i {
                } else if k > i {
                }
            }
            Some(i)
        },
        None => {
            proof {
                assert forall|j: int| !occurs_at(s@, p@, j) by {
                    if j >= 0 {
                    }
                }
            }
            None
        },
    }
}

/// `s` with the first occurrence of `from` replaced by `to`.
pub fn replace_first_chars(s: &Vec<char>, from: &Vec<char>, to: &Vec<char>) -> (r: Vec<char>)
    ensures
        r@ == replace_first(s@, from@, to@),
{
    match find_first(s, from) {
        Some(i) => {
            let head = slice_chars(s, 0, i);
            let tail = slice_chars(s, i + from.len(), s.len());
            let with_to = concat_chars(&head, to);
            concat_chars(&with_to, &tail)
        },
        None => slice_chars(s, 0, s.len()),
    }
}

// ---------------------------------------------------------------------------
// Words (`str::split_whitespace`) and joining
// ---------------------------------------------------------------------------

/// The number of characters before the first white space of `s`.
pub open spec fn word_len(s: Seq<char>) -> nat
    decreases s.len(),
{
    if s.len() == 0 || is_space(s[0]) {
        0
    } else {
        1 + word_len(s.drop_first())
    }
}

pub proof fn lemma_word_len(s: Seq<char>)
    ensures
        word_len(s) <= s.len(),
        forall|k: int| 0 <= k < word_len(s) ==> !is_space(s[k]),
        word_len(s) < s.len() ==> is_space(s[word_len(s) as int]),
    decreases s.len(),
{
    if s.len() > 0 && !is_space(s[0]) {
        lemma_word_len(s.drop_first());
        assert forall|k: int| 0 <= k < word_len(s) implies !is_space(s[k]) by {
            if k > 0 {
                assert(s[k] == s.drop_first()[k - 1]);
            }
        }
    }
}

/// The maximal runs of non-white-space characters of `s`, in order
/// (what `str::split_whitespace` yields).
pub open spec fn words(s: Seq<char>) -> Seq<Seq<char>>
    decreases s.len(),
{
    if s.len() == 0 {
        seq![]
    } else if is_space(s[0]) {
        words(s.drop_first())
    } else {
        proof {
            lemma_word_len(s);
        }
        seq![s.take(word_len(s) as int)] + words(s.skip(word_len(s) as int))
    }
}

/// The pieces of `ws`, with `sep` between each two of them
/// (`[&str]::join`).
pub open spec fn join(ws: Seq<Seq<char>>, sep: Seq<char>) -> Seq<char>
    decreases ws.len(),
{
    if ws.len() == 0 {
        seq![]
    } else if ws.len() == 1 {
        ws[0]
    } else {
        join(ws.drop_last(), sep) + sep + ws.last()
    }
}

/// Joining one more piece.
pub proof fn lemma_join_push(ws: Seq<Seq<char>>, w: Seq<char>, sep: Seq<char>)
    ensures
        join(ws.push(w), sep) == if ws.len() == 0 {
            w
        } else {
            join(ws, sep) + sep + w
        },
{
    assert(ws.push(w).drop_last() =~= ws);
}

/// Every word is non-empty and holds no white space.
pub proof fn lemma_words_shape(s: Seq<char>)
    ensures
        forall|i: int|
            0 <= i < words(s).len() ==> words(s)[i].len() > 0 && forall|k: int|
                0 <= k < words(s)[i].len() ==> !is_space(#[trigger] words(s)[i][k]),
    decreases s.len(),
{
    if s.len() == 0 {
    } else if is_space(s[0]) {
        lemma_words_shape(s.drop_first());
        assert(words(s) == words(s.drop_first()));
    } else {
        lemma_word_len(s);
        lemma_words_shape(s.skip(word_len(s) as int));
        let w = s.take(word_len(s) as int);
        let rest = words(s.skip(word_len(s) as int));
        assert(words(s) == seq![w] + rest);
        assert forall|i: int|
            0 <= i < words(s).len() implies words(s)[i].len() > 0 && forall|k: int|
                0 <= k < words(s)[i].len() ==> !is_space(#[trigger] words(s)[i][k]) by {
            if i == 0 {
                assert(words(s)[0] == w);
                assert(word_len(s) == 1 + word_len(s.drop_first()));
                assert forall|k: int| 0 <= k < w.len() implies !is_space(#[trigger] w[k]) by {
                    assert(w[k] == s[k]);
                }
            } else {
                assert(words(s)[i] == rest[i - 1]);
            }
        }
    }
}

/// The pieces of `parts` one after another.
pub open spec fn concat(parts: Seq<Seq<char>>) -> Seq<char>
    decreases parts.len(),
{
    if parts.len() == 0 {
        seq![]
    } else {
        concat(parts.drop_last()) + parts.last()
    }
}

/// Concatenating one more piece.
pub proof fn lemma_concat_push(parts: Seq<Seq<char>>, p: Seq<char>)
    ensures
        concat(parts.push(p)) == concat(parts) + p,
{
    assert(parts.push(p).drop_last() =~= parts);
}

/// Each part of a concatenation occurs in it.
pub proof fn lemma_concat_contains_part(parts: Seq<Seq<char>>, i: int)
    requires
        0 <= i < parts.len(),
    ensures
        contains(concat(parts), parts[i]),
    decreases parts.len(),
{
    let c = concat(parts);
    let d = concat(parts.drop_last());
    if i == parts.len() - 1 {
        let k: int = d.len() as int;
        assert(c.subrange(k, k + parts[i].len()) =~= parts[i]);
        assert(occurs_at(c, parts[i], k));
    } else {
        lemma_concat_contains_part(parts.drop_last(), i);
        assert(parts.drop_last()[i] == parts[i]);
        let j = choose|j: int| occurs_at(d, parts[i], j);
        assert(c.subrange(j, j + parts[i].len()) =~= d.subrange(j, j + parts[i].len()));
        assert(occurs_at(c, parts[i], j));
    }
}

/// What occurs in a piece occurs in any text around that piece.
pub proof fn lemma_contains_within(a: Seq<char>, x: Seq<char>, b: Seq<char>, y: Seq<char>)
    requires
        contains(x, y),
    ensures
        contains(a + x + b, y),
{
    let j = choose|j: int| occurs_at(x, y, j);
    let s = a + x + b;
    let k: int = a.len() + j;
    assert(s.subrange(k, k + y.len()) =~= x.subrange(j, j + y.len()));
    assert(occurs_at(s, y, k));
}

/// What occurs in a part of a text occurs in the text.
pub proof fn lemma_contains_trans(x: Seq<char>, y: Seq<char>, z: Seq<char>)
    requires
        contains(x, y),
        contains(y, z),
    ensures
        contains(x, z),
{
    let i = choose|i: int| occurs_at(x, y, i);
    let j = choose|j: int| occurs_at(y, z, j);
    assert(x.subrange(i + j, i + j + z.len()) =~= y.subrange(j, j + z.len()));
    assert(occurs_at(x, z, i + j));
}

/// A text occurs in itself.
pub proof fn lemma_contains_self(x: Seq<char>)
    ensures
        contains(x, x),
{
    assert(x.subrange(0, x.len() as int) =~= x);
    assert(occurs_at(x, x, 0));
}

/// The words of `s`, joined by `sep`
/// (`s.split_whitespace().collect::<Vec<_>>().join(sep)`).
pub fn join_words(s: &Vec<char>, sep: &Vec<char>) -> (r: Vec<char>)
    ensures
        r@ == join(words(s@), sep@),
{
    let mut out: Vec<char> = Vec::new();
    let ghost mut emitted: Seq<Seq<char>> = seq![];
    let mut i: usize = 0;
    assert(s@.skip(0) =~= s@);
    while i < s.len()
        invariant
            i <= s.len(),
            words(s@) == emitted + words(s@.skip(i as int)),
            out@ == join(emitted, sep@),
            (out@.len() == 0) == (emitted.len() == 0),
            forall|m: int| 0 <= m < emitted.len() ==> emitted[m].len() > 0,
        decreases s.len() - i,
    {
        if char_is_space(s[i]) {
            assert(s@.skip(i as int).drop_first() =~= s@.skip(i + 1));
            i = i + 1;
        } else {
            let ghost rest = s@.skip(i as int);
            let mut j = i;
            while j < s.len() && !char_is_space(s[j])
                invariant
                    i <= j <= s.len(),
                    rest == s@.skip(i as int),
                    word_len(rest) == (j - i) + word_len(s@.skip(j as int)),
                decreases s.len() - j,
            {
                assert(s@.skip(j as int).drop_first() =~= s@.skip(j + 1));
                j = j + 1;
            }
            assert(word_len(s@.skip(j as int)) == 0);
            let w = slice_chars(s, i, j);
            assert(w@ =~= rest.take(word_len(rest) as int));
            assert(rest.skip(word_len(rest) as int) =~= s@.skip(j as int));
            assert(words(rest) == seq![w@] + words(s@.skip(j as int)));
            proof {
                lemma_join_push(emitted, w@, sep@);
            }
            if out.len() != 0 {
                let mut k: usize = 0;
                let ghost before = out@;
                while k < sep.len()
                    invariant
                        k <= sep.len(),
                        out@ == before + sep@.take(k as int),
                    decreases sep.len() - k,
                {
                    out.push(sep[k]);
                    k = k + 1;
                    assert(out@ =~= before + sep@.take(k as int));
                }
                assert(sep@.take(sep.len() as int) =~= sep@);
            }
            let ghost before2 = out@;
            let mut k: usize = 0;
            while k < w.len()
                invariant
                    k <= w.len(),
                    out@ == before2 + w@.take(k as int),
                decreases w.len() - k,
            {
                out.push(w[k]);
                k = k + 1;
                assert(out@ =~= before2 + w@.take(k as int));
            }
            assert(w@.take(w.len() as int) =~= w@);
            proof {
                assert(emitted.push(w@) + words(s@.skip(j as int)) =~= emitted + (seq![w@]
                    + words(s@.skip(j as int))));
                emitted = emitted.push(w@);
            }
            i = j;
        }
    }
    assert(s@.skip(i as int) =~= Seq::<char>::empty());
    assert(emitted + Seq::<Seq<char>>::empty() =~= emitted);
    out
}

// ---------------------------------------------------------------------------
// Ordering of strings (the order of `String` and `str`)
// ---------------------------------------------------------------------------

/// `a` comes before `b` in the lexicographic order of code points, which is
/// the order of `str` (UTF-8 byte order agrees with code point order).
pub open spec fn seq_less(a: Seq<char>, b: Seq<char>) -> bool
    decreases a.len(),
{
    if a.len() == 0 {
        b.len() > 0
    } else if b.len() == 0 {
        false
    } else if a[0] != b[0] {
        a[0] < b[0]
    } else {
        seq_less(a.drop_first(), b.drop_first())
    }
}

/// The order of strings is a strict total order.
pub proof fn lemma_seq_less_total(a: Seq<char>, b: Seq<char>)
    ensures
        !seq_less(a, a),
        seq_less(a, b) ==> !seq_less(b, a),
        a != b ==> seq_less(a, b) || seq_less(b, a),
    decreases a.len(),
{
    if a.len() > 0 && b.len() > 0 {
        lemma_seq_less_total(a.drop_first(), b.drop_first());
        lemma_seq_less_total(a.drop_first(), a.drop_first());
        if a[0] == b[0] && a != b {
            assert(a =~= seq![a[0]] + a.drop_first());
            assert(b =~= seq![b[0]] + b.drop_first());
        }
    } else if a.len() > 0 {
        lemma_seq_less_total(a.drop_first(), a.drop_first());
    } else if b.len() == 0 {
        assert(a =~= b);
    }
}

/// The order of strings is transitive.
pub proof fn lemma_seq_less_trans(a: Seq<char>, b: Seq<char>, c: Seq<char>)
    requires
        seq_less(a, b),
        seq_less(b, c),
    ensures
        seq_less(a, c),
    decreases a.len(),
{
    if a.len() > 0 && b.len() > 0 && c.len() > 0 {
        if a[0] == b[0] && b[0] == c[0] {
            lemma_seq_less_trans(a.drop_first(), b.drop_first(), c.drop_first());
        }
    }
}

/// Whether `a` comes before `b`.
pub fn chars_less(a: &Vec<char>, b: &Vec<char>) -> (r: bool)
    ensures
        r == seq_less(a@, b@),
{
    let mut i: usize = 0;
    assert(a@.skip(0) =~= a@);
    assert(b@.skip(0) =~= b@);
    while i < a.len() && i < b.len()
        invariant
            i <= a.len(),
            i <= b.len(),
            a@.take(i as int) == b@.take(i as int),
            seq_less(a@, b@) == seq_less(a@.skip(i as int), b@.skip(i as int)),
        decreases a.len() - i,
    {
        if a[i] != b[i] {
            return a[i] < b[i];
        }
        assert(a@.skip(i as int).drop_first() =~= a@.skip(i + 1));
        assert(b@.skip(i as int).drop_first() =~= b@.skip(i + 1));
        assert(a@.take(i + 1) =~= a@.take(i as int).push(a@[i as int]));
        assert(b@.take(i + 1) =~= b@.take(i as int).push(b@[i as int]));
        i = i + 1;
    }
    i < b.len()
}

/// Whether `a` comes before `b`, on string slices.
pub fn str_less(a: &str, b: &str) -> (r: bool)
    ensures
        r == seq_less(a@, b@),
{
    let x = chars_of(a);
    let y = chars_of(b);
    chars_less(&x, &y)
}

// ---------------------------------------------------------------------------
// Case
// ---------------------------------------------------------------------------

/// What `str::to_lowercase` returns for a string: the full Unicode
/// lower-case mapping, which takes tables to state.
pub uninterp spec fn unicode_lowercase(s: Seq<char>) -> Seq<char>;

/// `str::to_lowercase`.
#[verifier::external_body]
pub(crate) fn to_lowercase(s: &str) -> (r: String)
    ensures
        r@ == unicode_lowercase(s@),
{
    s.to_lowercase()
}

/// The ASCII lower-case form of every character of `s`
/// (`str::to_ascii_lowercase`).
pub fn ascii_lowercase_chars(s: &Vec<char>) -> (r: Vec<char>)
    ensures
        r@ == ascii_lower_seq(s@),
{
    let mut r: Vec<char> = Vec::new();
    let mut i: usize = 0;
    while i < s.len()
        invariant
            i <= s.len(),
            r@ == ascii_lower_seq(s@.take(i as int)),
        decreases s.len() - i,
    {
        let c = s[i];
        let l = if 'A' <= c && c <= 'Z' {
            char_from_code((c as u32) + 32)
        } else {
            c
        };
        r.push(l);
        i = i + 1;
        assert(r@ =~= ascii_lower_seq(s@.take(i as int)));
    }
    assert(s@.take(s.len() as int) =~= s@);
    r
}

/// The character with code `u`, for a code in the ASCII range.
pub fn char_from_code(u: u32) -> (c: char)
    requires
        u < 128,
    ensures
        c as u32 == u,
{
    let b = u as u8;
    b as char
}

} // verus!
