use vstd::prelude::*;

use crate::numtext::{
    all_digits, decimal, digits_value, format_i64, format_u128, format_u128_padded, is_digit,
    lemma_decimal_digits, lemma_parse_signed_decimal, parse_i32_chars, parse_i32_spec,
    parse_i64_chars, parse_i64_spec, parse_int, signed_decimal, zero_pad,
};
use crate::naming::names_view;
use crate::text::{
    chars_of, chars_start_with, concat_chars, index_of, lemma_index_of, owned, push_chars,
    push_str, slice_chars, split_once, split_once_chars, starts_with, string_of,
};

verus! {

// ---------------------------------------------------------------------------
// The messages that the benchmark worker sends to the window
// ---------------------------------------------------------------------------

/// The text before the first `c` of `s`, or all of `s` when there is no
/// `c` (the first item of `s.split(c)`).
pub open spec fn first_field(s: Seq<char>, c: char) -> Seq<char> {
    match split_once(s, c) {
        Some((a, _)) => a,
        None => s,
    }
}

/// A message from the worker, as the window reads it.
pub enum UiMessage {
    /// `PROGRESS:<current>/<total>` with two integers.
    Progress { current: i32, total: i32 },
    /// `PROGRESS:<a>/<b>` whose parts are not both integers: the window
    /// drops it.
    Ignored,
    /// `STATUS:<text>`: the new status line.
    Status { text: String },
    /// `TIMEOUT_REMAINING:<minutes>:<seconds>:<percentage>`, the minutes and
    /// seconds read as integers where they are, the percentage left as text.
    Timeout { minutes: Option<i64>, seconds: Option<i64>, percentage: String },
    /// Anything else: a line for the log.
    Log { text: String },
}

/// The meaning of a message, with strings as character sequences.
pub enum UiMessageView {
    Progress { current: i32, total: i32 },
    Ignored,
    Status { text: Seq<char> },
    Timeout { minutes: Option<i64>, seconds: Option<i64>, percentage: Seq<char> },
    Log { text: Seq<char> },
}

impl View for UiMessage {
    type V = UiMessageView;

    open spec fn view(&self) -> UiMessageView {
        match self {
            UiMessage::Progress { current, total } => UiMessageView::Progress {
                current: *current,
                total: *total,
            },
            UiMessage::Ignored => UiMessageView::Ignored,
            UiMessage::Status { text } => UiMessageView::Status { text: text@ },
            UiMessage::Timeout { minutes, seconds, percentage } => UiMessageView::Timeout {
                minutes: *minutes,
                seconds: *seconds,
                percentage: percentage@,
            },
            UiMessage::Log { text } => UiMessageView::Log { text: text@ },
        }
    }
}

pub open spec fn progress_prefix() -> Seq<char> {
    seq!['P', 'R', 'O', 'G', 'R', 'E', 'S', 'S', ':']
}

pub open spec fn status_prefix() -> Seq<char> {
    seq!['S', 'T', 'A', 'T', 'U', 'S', ':']
}

pub open spec fn timeout_prefix() -> Seq<char> {
    seq!['T', 'I', 'M', 'E', 'O', 'U', 'T', '_', 'R', 'E', 'M', 'A', 'I', 'N', 'I', 'N', 'G', ':']
}

/// How the window reads a message: a `PROGRESS:` message with a `/` is a
/// progress report (dropped unless both parts are `i32`), a `STATUS:`
/// message sets the status, a `TIMEOUT_REMAINING:` message with three
/// `:`-separated fields sets the countdown, and everything else is logged.
pub open spec fn decode_spec(msg: Seq<char>) -> UiMessageView {
    let pp = progress_prefix();
    let sp = status_prefix();
    let tp = timeout_prefix();
    if starts_with(msg, pp) && split_once(msg.skip(pp.len() as int), '/') is Some {
        let (cur, after) = split_once(msg.skip(pp.len() as int), '/').unwrap();
        let total = first_field(after, '/');
        match (parse_i32_spec(cur), parse_i32_spec(total)) {
            (Some(c), Some(t)) => UiMessageView::Progress { current: c, total: t },
            _ => UiMessageView::Ignored,
        }
    } else if starts_with(msg, sp) {
        UiMessageView::Status { text: msg.skip(sp.len() as int) }
    } else if starts_with(msg, tp) && split_once(msg.skip(tp.len() as int), ':') is Some
        && split_once(split_once(msg.skip(tp.len() as int), ':').unwrap().1, ':') is Some {
        let (m, after_m) = split_once(msg.skip(tp.len() as int), ':').unwrap();
        let (s, after_s) = split_once(after_m, ':').unwrap();
        UiMessageView::Timeout {
            minutes: parse_i64_spec(m),
            seconds: parse_i64_spec(s),
            percentage: first_field(after_s, ':'),
        }
    } else {
        UiMessageView::Log { text: msg }
    }
}

/// The characters of a prefix.
fn prefix_chars(which: u8) -> (r: Vec<char>)
    requires
        which < 3,
    ensures
        which == 0 ==> r@ == progress_prefix(),
        which == 1 ==> r@ == status_prefix(),
        which == 2 ==> r@ == timeout_prefix(),
{
    let mut r: Vec<char> = Vec::new();
    if which == 0 {
        r.push('P');
        r.push('R');
        r.push('O');
        r.push('G');
        r.push('R');
        r.push('E');
        r.push('S');
        r.push('S');
        r.push(':');
        assert(r@ =~= progress_prefix());
    } else if which == 1 {
        r.push('S');
        r.push('T');
        r.push('A');
        r.push('T');
        r.push('U');
        r.push('S');
        r.push(':');
        assert(r@ =~= status_prefix());
    } else {
        r.push('T');
        r.push('I');
        r.push('M');
        r.push('E');
        r.push('O');
        r.push('U');
        r.push('T');
        r.push('_');
        r.push('R');
        r.push('E');
        r.push('M');
        r.push('A');
        r.push('I');
        r.push('N');
        r.push('I');
        r.push('N');
        r.push('G');
        r.push(':');
        assert(r@ =~= timeout_prefix());
    }
    r
}

/// The text before the first `c`, or all of `s`.
fn first_field_chars(s: &Vec<char>, c: char) -> (r: Vec<char>)
    ensures
        r@ == first_field(s@, c),
{
    match split_once_chars(s, c) {
        Some((a, _)) => a,
        None => slice_chars(s, 0, s.len()),
    }
}

/// Reads one message from the worker (the decisions of the window's message
/// poll).
pub fn decode_ui_message(msg: &str) -> (r: UiMessage)
    ensures
        r@ == decode_spec(msg@),
{
    let s = chars_of(msg);
    let pp = prefix_chars(0);
    let sp = prefix_chars(1);
    let tp = prefix_chars(2);
    if chars_start_with(&s, &pp) {
        let rest = slice_chars(&s, pp.len(), s.len());
        if let Some((cur, after)) = split_once_chars(&rest, '/') {
            let total = first_field_chars(&after, '/');
            return match (parse_i32_chars(&cur), parse_i32_chars(&total)) {
                (Some(c), Some(t)) => UiMessage::Progress { current: c, total: t },
                _ => UiMessage::Ignored,
            };
        }
    }
    if chars_start_with(&s, &sp) {
        let rest = slice_chars(&s, sp.len(), s.len());
        return UiMessage::Status { text: string_of(&rest) };
    }
    if chars_start_with(&s, &tp) {
        let rest = slice_chars(&s, tp.len(), s.len());
        if let Some((m, after_m)) = split_once_chars(&rest, ':') {
            if let Some((sec, after_s)) = split_once_chars(&after_m, ':') {
                let pct = first_field_chars(&after_s, ':');
                return UiMessage::Timeout {
                    minutes: parse_i64_chars(&m),
                    seconds: parse_i64_chars(&sec),
                    percentage: string_of(&pct),
                };
            }
        }
    }
    UiMessage::Log { text: string_of(&s) }
}

// ---------------------------------------------------------------------------
// Writing messages
// ---------------------------------------------------------------------------

/// `PROGRESS:<current>/<total>`.
pub open spec fn progress_message_spec(current: i32, total: i32) -> Seq<char> {
    progress_prefix() + signed_decimal(current as int) + seq!['/'] + signed_decimal(total as int)
}

/// The progress report `format!("PROGRESS:{}/{}", current, total)`.
pub fn progress_message(current: i32, total: i32) -> (r: String)
    ensures
        r@ == progress_message_spec(current, total),
{
    let mut out = String::new();
    push_chars(&mut out, &prefix_chars(0));
    push_chars(&mut out, &format_i64(current as i64));
    push_str(&mut out, "/");
    push_chars(&mut out, &format_i64(total as i64));
    proof {
        reveal_strlit("/");
    }
    assert(out@ =~= progress_message_spec(current, total));
    out
}

/// `STATUS:<text>`.
pub open spec fn status_message_spec(text: Seq<char>) -> Seq<char> {
    status_prefix() + text
}

/// The status line `format!("STATUS:{}", text)`.
pub fn status_message(text: &str) -> (r: String)
    ensures
        r@ == status_message_spec(text@),
{
    let mut out = String::new();
    push_chars(&mut out, &prefix_chars(1));
    push_str(&mut out, text);
    out
}

/// `TIMEOUT_REMAINING:<minutes>:<seconds, two digits>:<percentage>`.
pub open spec fn timeout_message_spec(minutes: u64, seconds: u64, percentage: Seq<char>) -> Seq<
    char,
> {
    timeout_prefix() + decimal(minutes as nat) + seq![':'] + zero_pad(decimal(seconds as nat), 2)
        + seq![':'] + percentage
}

/// The countdown report `format!("TIMEOUT_REMAINING:{}:{:02}:{}", ...)`, the
/// percentage given as the text that the worker formatted.
pub fn timeout_message(minutes: u64, seconds: u64, percentage: &str) -> (r: String)
    ensures
        r@ == timeout_message_spec(minutes, seconds, percentage@),
{
    let mut out = String::new();
    push_chars(&mut out, &prefix_chars(2));
    push_chars(&mut out, &format_u128(minutes as u128));
    push_str(&mut out, ":");
    push_chars(&mut out, &format_u128_padded(seconds as u128, 2));
    push_str(&mut out, ":");
    push_str(&mut out, percentage);
    proof {
        reveal_strlit(":");
    }
    assert(out@ =~= timeout_message_spec(minutes, seconds, percentage@));
    out
}

/// The report that the countdown has stopped: `TIMEOUT_REMAINING:-:-:0.0`.
pub fn timeout_stopped_message() -> (r: String)
    ensures
        r@ == timeout_prefix() + seq!['-', ':', '-', ':', '0', '.', '0'],
{
    let mut out = String::new();
    push_chars(&mut out, &prefix_chars(2));
    push_str(&mut out, "-:-:0.0");
    proof {
        reveal_strlit("-:-:0.0");
    }
    assert(out@ =~= timeout_prefix() + seq!['-', ':', '-', ':', '0', '.', '0']);
    out
}

// ---------------------------------------------------------------------------
// The countdown display
// ---------------------------------------------------------------------------

/// What the window could make of the percentage text of a countdown report.
pub enum PercentReading {
    /// Not a number.
    Invalid,
    /// A number from 0 to 1.
    InRange,
    /// A number outside 0 to 1.
    OutOfRange,
}

/// What the window does with its countdown percentage.
pub enum PercentUpdate {
    /// Leaves it as it is.
    Keep,
    /// Sets it to the number that the report holds.
    SetReported,
    /// Sets it to zero.
    SetZero,
}

/// The countdown text and percentage update for a countdown report: the
/// time as `<minutes>:<seconds, two digits>` when both are non-negative
/// integers and the percentage is a number from 0 to 1, and `-` otherwise.
pub open spec fn countdown_spec(
    minutes: Option<i64>,
    seconds: Option<i64>,
    pct: PercentReading,
) -> (Seq<char>, PercentUpdate) {
    match (minutes, seconds, pct) {
        (Some(m), Some(s), PercentReading::InRange) if m >= 0 && s >= 0 => (
            decimal(m as nat) + seq![':'] + zero_pad(decimal(s as nat), 2),
            PercentUpdate::SetReported,
        ),
        (None, None, PercentReading::InRange) => (seq!['-'], PercentUpdate::SetReported),
        (None, None, PercentReading::OutOfRange) => (seq!['-'], PercentUpdate::SetReported),
        (None, None, PercentReading::Invalid) => (seq!['-'], PercentUpdate::SetZero),
        _ => (seq!['-'], PercentUpdate::Keep),
    }
}

/// The countdown text and percentage update for a countdown report.
pub fn countdown_display(minutes: Option<i64>, seconds: Option<i64>, pct: PercentReading) -> (r: (
    String,
    PercentUpdate,
))
    ensures
        (r.0@, r.1) == countdown_spec(minutes, seconds, pct),
{
    match (minutes, seconds, pct) {
        (Some(m), Some(s), PercentReading::InRange) if m >= 0 && s >= 0 => {
            let mut out = String::new();
            push_chars(&mut out, &format_u128(m as u128));
            push_str(&mut out, ":");
            push_chars(&mut out, &format_u128_padded(s as u128, 2));
            proof {
                reveal_strlit(":");
            }
            assert(out@ =~= decimal(m as nat) + seq![':'] + zero_pad(decimal(s as nat), 2));
            (out, PercentUpdate::SetReported)
        },
        (None, None, PercentReading::Invalid) => (dash(), PercentUpdate::SetZero),
        (None, None, _) => (dash(), PercentUpdate::SetReported),
        _ => (dash(), PercentUpdate::Keep),
    }
}

fn dash() -> (r: String)
    ensures
        r@ == seq!['-'],
{
    let mut out = String::new();
    crate::text::push_char(&mut out, '-');
    assert(out@ =~= seq!['-']);
    out
}

// ---------------------------------------------------------------------------
// Laws of the message protocol
// ---------------------------------------------------------------------------

/// Zeros in front of digits do not change their value.
pub proof fn lemma_leading_zeros(z: Seq<char>, d: Seq<char>)
    requires
        forall|i: int| 0 <= i < z.len() ==> z[i] == '0',
    ensures
        digits_value(z + d) == digits_value(d),
    decreases d.len(),
{
    if d.len() == 0 {
        assert(z + d =~= z);
        lemma_zeros_value(z);
    } else {
        assert((z + d).drop_last() =~= z + d.drop_last());
        lemma_leading_zeros(z, d.drop_last());
    }
}

proof fn lemma_zeros_value(z: Seq<char>)
    requires
        forall|i: int| 0 <= i < z.len() ==> z[i] == '0',
    ensures
        digits_value(z) == 0,
    decreases z.len(),
{
    if z.len() > 0 {
        lemma_zeros_value(z.drop_last());
    }
}

/// A zero-padded number reads back as the number.
pub proof fn lemma_parse_zero_padded(n: nat, w: nat)
    ensures
        parse_int(zero_pad(decimal(n), w)) == Some(n as int),
        index_of(zero_pad(decimal(n), w), ':') < 0,
{
    lemma_decimal_digits(n);
    let d = decimal(n);
    let p = zero_pad(d, w);
    if d.len() < w {
        let z = Seq::new((w - d.len()) as nat, |i: int| '0');
        lemma_leading_zeros(z, d);
        assert(p == z + d);
        assert forall|i: int| 0 <= i < p.len() implies is_digit(#[trigger] p[i]) by {
            if i >= z.len() {
                assert(p[i] == d[i - z.len()]);
            }
        }
    }
    lemma_digits_no_char(p, ':');
}

/// Digits hold no other character.
pub proof fn lemma_digits_no_char(s: Seq<char>, c: char)
    requires
        all_digits(s),
        !is_digit(c),
    ensures
        index_of(s, c) < 0,
{
    lemma_index_of(s, c);
    if index_of(s, c) >= 0 {
        assert(is_digit(s[index_of(s, c)]));
    }
}

/// Splitting `a + [c] + b` at its first `c`, when `a` holds no `c`.
pub proof fn lemma_split_once_concat(a: Seq<char>, c: char, b: Seq<char>)
    requires
        index_of(a, c) < 0,
    ensures
        split_once(a + seq![c] + b, c) == Some((a, b)),
{
    let s = a + seq![c] + b;
    lemma_index_of(a, c);
    lemma_index_of(s, c);
    let i = index_of(s, c);
    assert(s[a.len() as int] == c);
    if i < a.len() {
        assert(s[i] == a[i]);
    }
    assert(i == a.len());
    assert(s.take(i) =~= a);
    assert(s.skip(i + 1) =~= b);
}

/// A decimal number holds no `c` that is not a digit.
proof fn lemma_signed_decimal_no(n: int, c: char)
    requires
        !is_digit(c),
        c != '-',
    ensures
        index_of(signed_decimal(n), c) < 0,
{
    if n < 0 {
        let m = (-n) as nat;
        lemma_decimal_digits(m);
        let s = signed_decimal(n);
        lemma_index_of(s, c);
        if index_of(s, c) >= 0 {
            let i = index_of(s, c);
            if i > 0 {
                assert(s[i] == decimal(m)[i - 1]);
            }
        }
    } else {
        lemma_decimal_digits(n as nat);
        lemma_digits_no_char(decimal(n as nat), c);
    }
}

/// The window reads a progress report as the progress that was sent.
pub proof fn lemma_progress_roundtrip(current: i32, total: i32)
    ensures
        decode_spec(progress_message_spec(current, total)) == (UiMessageView::Progress {
            current,
            total,
        }),
{
    let msg = progress_message_spec(current, total);
    let pp = progress_prefix();
    let a = signed_decimal(current as int);
    let b = signed_decimal(total as int);
    assert(msg.take(pp.len() as int) =~= pp);
    assert(msg.skip(pp.len() as int) =~= a + seq!['/'] + b);
    lemma_signed_decimal_no(current as int, '/');
    lemma_signed_decimal_no(total as int, '/');
    lemma_split_once_concat(a, '/', b);
    lemma_parse_signed_decimal(current as int);
    lemma_parse_signed_decimal(total as int);
}

/// The window reads a status line as the status that was sent.
pub proof fn lemma_status_roundtrip(text: Seq<char>)
    ensures
        decode_spec(status_message_spec(text)) == (UiMessageView::Status { text }),
{
    let msg = status_message_spec(text);
    let pp = progress_prefix();
    let sp = status_prefix();
    assert(msg.take(sp.len() as int) =~= sp);
    assert(msg.skip(sp.len() as int) =~= text);
    assert(msg[0] == 'S');
    assert(pp[0] == 'P');
    if starts_with(msg, pp) {
        assert(msg.take(pp.len() as int)[0] == msg[0]);
    }
}

/// The window reads a countdown report as the minutes and seconds that were
/// sent, and the percentage text up to any `:` in it.
pub proof fn lemma_timeout_roundtrip(minutes: u64, seconds: u64, percentage: Seq<char>)
    requires
        minutes <= i64::MAX,
        seconds <= i64::MAX,
    ensures
        decode_spec(timeout_message_spec(minutes, seconds, percentage)) == (UiMessageView::Timeout {
            minutes: Some(minutes as i64),
            seconds: Some(seconds as i64),
            percentage: first_field(percentage, ':'),
        }),
{
    let msg = timeout_message_spec(minutes, seconds, percentage);
    let pp = progress_prefix();
    let sp = status_prefix();
    let tp = timeout_prefix();
    let m = decimal(minutes as nat);
    let s = zero_pad(decimal(seconds as nat), 2);
    assert(msg.take(tp.len() as int) =~= tp);
    assert(msg.skip(tp.len() as int) =~= m + seq![':'] + (s + seq![':'] + percentage));
    lemma_decimal_digits(minutes as nat);
    lemma_digits_no_char(m, ':');
    lemma_split_once_concat(m, ':', s + seq![':'] + percentage);
    lemma_parse_zero_padded(seconds as nat, 2);
    lemma_split_once_concat(s, ':', percentage);
    assert(msg[0] == 'T');
    if starts_with(msg, pp) {
        assert(msg.take(pp.len() as int)[0] == msg[0]);
    }
    if starts_with(msg, sp) {
        assert(msg.take(sp.len() as int)[0] == msg[0]);
    }
    assert(parse_int(m) == Some(minutes as int));
}

// ---------------------------------------------------------------------------
// The window log
// ---------------------------------------------------------------------------

/// A clock time as `%H:%M:%S` writes it: hours, minutes and seconds, each
/// with at least two digits.
pub open spec fn clock_text_spec(hour: u32, minute: u32, second: u32) -> Seq<char> {
    zero_pad(decimal(hour as nat), 2) + seq![':'] + zero_pad(decimal(minute as nat), 2) + seq![
        ':',
    ] + zero_pad(decimal(second as nat), 2)
}

/// The time of a log entry, as `HH:MM:SS`.
pub fn clock_text(hour: u32, minute: u32, second: u32) -> (r: String)
    ensures
        r@ == clock_text_spec(hour, minute, second),
{
    let mut out = String::new();
    push_chars(&mut out, &format_u128_padded(hour as u128, 2));
    push_str(&mut out, ":");
    push_chars(&mut out, &format_u128_padded(minute as u128, 2));
    push_str(&mut out, ":");
    push_chars(&mut out, &format_u128_padded(second as u128, 2));
    proof {
        reveal_strlit(":");
        assert(out@ =~= clock_text_spec(hour, minute, second));
    }
    out
}

/// One entry of the window log: the time in brackets, two spaces, the
/// message, then a blank line.
pub open spec fn log_entry_spec(time: Seq<char>, msg: Seq<char>) -> Seq<char> {
    "[ "@ + time + " ]  "@ + msg + "\n\n"@
}

/// The log entry of a message received at `time`.
pub fn log_entry(time: &str, msg: &str) -> (r: String)
    ensures
        r@ == log_entry_spec(time@, msg@),
{
    let mut out = owned("[ ");
    push_str(&mut out, time);
    push_str(&mut out, " ]  ");
    push_str(&mut out, msg);
    push_str(&mut out, "\n\n");
    out
}

/// Entries in the order they came, written newest first.
pub open spec fn newest_first(entries: Seq<Seq<char>>) -> Seq<char>
    decreases entries.len(),
{
    if entries.len() == 0 {
        seq![]
    } else {
        newest_first(entries.drop_first()) + entries[0]
    }
}

/// The log after a batch of entries (in the order they came): the batch,
/// newest first, above what the log held.
pub fn prepend_log_entries(current: &str, entries: &Vec<String>) -> (r: String)
    ensures
        r@ == newest_first(names_view(entries@)) + current@,
{
    let ghost es = names_view(entries@);
    let mut out = String::new();
    let mut i: usize = entries.len();
    while i > 0
        invariant
            i <= entries.len(),
            es == names_view(entries@),
            out@ == newest_first(es.subrange(i as int, es.len() as int)),
        decreases i,
    {
        i = i - 1;
        push_str(&mut out, entries[i].as_str());
        proof {
            let t = es.subrange(i as int, es.len() as int);
            assert(t.drop_first() =~= es.subrange(i + 1, es.len() as int));
            assert(t[0] == entries@[i as int]@);
        }
    }
    assert(es.subrange(0, es.len() as int) =~= es);
    push_str(&mut out, current);
    out
}

/// Two batches written one after the other leave the log as one batch of
/// both would: the later batch on top, each newest first.
pub proof fn lemma_log_batches_compose(a: Seq<Seq<char>>, b: Seq<Seq<char>>, current: Seq<char>)
    ensures
        newest_first(b) + (newest_first(a) + current) == newest_first(a + b) + current,
    decreases a.len(),
{
    if a.len() == 0 {
        assert(a + b =~= b);
        assert(newest_first(a) =~= Seq::<char>::empty());
        assert(newest_first(b) + (newest_first(a) + current) =~= newest_first(b) + current);
    } else {
        assert((a + b).drop_first() =~= a.drop_first() + b);
        assert((a + b)[0] == a[0]);
        assert(newest_first(b) + (newest_first(a) + current) =~= newest_first(b) + (
        newest_first(a.drop_first()) + (a[0] + current)));
        lemma_log_batches_compose(a.drop_first(), b, a[0] + current);
        assert(newest_first(a + b) + current =~= newest_first(a.drop_first() + b) + (a[0] + current));
    }
}

// ---------------------------------------------------------------------------
// The countdown text reads back
// ---------------------------------------------------------------------------

/// A number below 100 has at most two digits.
proof fn lemma_decimal_below_100(n: nat)
    requires
        n < 100,
    ensures
        decimal(n).len() <= 2,
{
    if n >= 10 {
        assert(decimal(n / 10).len() == 1);
    }
}

/// The countdown of non-negative minutes and seconds with a reported
/// percentage in range splits at its first `:` into two parts that read
/// back as the minutes and the seconds; the minutes part has exactly the
/// minutes' digits, and the seconds part has exactly two characters when
/// the seconds are below 100 and no more than the seconds' digits
/// otherwise. The reported percentage is taken.
pub proof fn lemma_countdown_reads_back(m: i64, s: i64)
    requires
        m >= 0,
        s >= 0,
    ensures
        ({
            let (text, update) = countdown_spec(Some(m), Some(s), PercentReading::InRange);
            &&& update == PercentUpdate::SetReported
            &&& split_once(text, ':') matches Some((a, b)) && {
                &&& parse_int(a) == Some(m as int)
                &&& parse_int(b) == Some(s as int)
                &&& a.len() == decimal(m as nat).len()
                &&& (s < 100 ==> b.len() == 2)
                &&& (s >= 100 ==> b.len() == decimal(s as nat).len())
            }
        }),
{
    let d = decimal(m as nat);
    let z = zero_pad(decimal(s as nat), 2);
    lemma_decimal_digits(m as nat);
    lemma_decimal_digits(s as nat);
    lemma_digits_no_char(d, ':');
    lemma_split_once_concat(d, ':', z);
    lemma_parse_zero_padded(s as nat, 2);
    assert(parse_int(d) == Some(m as int));
    if s < 100 {
        lemma_decimal_below_100(s as nat);
    } else {
        assert(decimal(s as nat).len() >= 2) by {
            assert(decimal((s / 10) as nat).len() >= 1);
        }
    }
}

} // verus!
