//! What a line of the log says, read back from its text.

use vstd::prelude::*;
use crate::dates::{days_from_civil, Civil};
use crate::text::{
    all_digits, clipped, decimal, lemma_clipped, lemma_decimal_reads, lemma_padded_len,
    lemma_padded_reads, padded, text_width, value_of,
};
use super::grab::{unquoted, FieldGrab};
use super::logfmt::{
    area_of, clock_text, date_is, date_text, escaped, escaped_char, escaped_text, field,
    has_special, hex_digit, is_control, is_special, last_segment, line_of, local_secs,
    plain_field, segment_start, stamp, tag_of, zone_text, Level, LogfmtVisitor, VALUE_CAP,
};
use super::{chained, Diagnostics, ErrorEvent, Step};

verus! {

/// The value of a hexadecimal digit.
pub open spec fn hex_value(c: char) -> int {
    if (c as u32) < 0x3A {
        c as u32 - 0x30
    } else {
        c as u32 - 0x57
    }
}

/// The character that stands behind a backslash.
pub open spec fn unescaped_char(c: char) -> char {
    if c == 'n' {
        '\n'
    } else if c == 'r' {
        '\r'
    } else if c == 't' {
        '\t'
    } else {
        c
    }
}

/// The text that stands between quotes.
pub open spec fn unescaped(s: Seq<char>) -> Seq<char>
    decreases s.len(),
{
    if s.len() == 0 {
        Seq::empty()
    } else if s[0] != '\\' {
        seq![s[0]] + unescaped(s.skip(1))
    } else if s.len() >= 6 && s[1] == 'u' {
        seq![(16 * hex_value(s[4]) + hex_value(s[5])) as char] + unescaped(s.skip(6))
    } else if s.len() >= 2 {
        seq![unescaped_char(s[1])] + unescaped(s.skip(2))
    } else {
        Seq::empty()
    }
}

proof fn lemma_escaped_head(c: char, rest: Seq<char>)
    ensures
        escaped_text(seq![c] + rest) == escaped_char(c) + escaped_text(rest),
    decreases rest.len(),
{
    let s = seq![c] + rest;
    if rest.len() == 0 {
        assert(escaped_text(s.drop_last()).len() == 0);
        assert(escaped_text(rest).len() == 0);
        assert(s.last() == c);
        assert(escaped_text(s) =~= escaped_char(c) + escaped_text(rest));
    } else {
        assert(s.drop_last() =~= seq![c] + rest.drop_last());
        assert(s.last() == rest.last());
        lemma_escaped_head(c, rest.drop_last());
        assert(escaped_text(s) =~= escaped_char(c) + escaped_text(rest));
    }
}

proof fn lemma_unescaped_head(c: char, t: Seq<char>)
    ensures
        unescaped(escaped_char(c) + t) == seq![c] + unescaped(t),
{
    let e = escaped_char(c);
    let s = e + t;
    if c == '"' || c == '\\' || c == '\n' || c == '\r' || c == '\t' {
        assert(s[0] == '\\' && s[1] == e[1]);
        assert(s.skip(2) =~= t);
        assert(s[1] != 'u');
        assert(unescaped_char(s[1]) == c);
    } else if is_control(c) {
        assert(s[0] == '\\' && s[1] == 'u' && s[4] == e[4] && s[5] == e[5]);
        assert(s.skip(6) =~= t);
        let hi = c as int / 16;
        let lo = c as int % 16;
        assert(0 <= hi < 16 && 0 <= lo < 16);
        assert(hex_value(hex_digit(hi)) == hi);
        assert(hex_value(hex_digit(lo)) == lo);
        assert(16 * hex_value(s[4]) + hex_value(s[5]) == c as int);
    } else {
        assert(s[0] == c);
        assert(s.skip(1) =~= t);
    }
}

/// What stands between the quotes of a value is the value, escaped.
pub proof fn lemma_escaped_reads_back(s: Seq<char>)
    ensures
        unescaped(escaped_text(s)) == s,
    decreases s.len(),
{
    if s.len() > 0 {
        let rest = s.skip(1);
        assert(s =~= seq![s[0]] + rest);
        lemma_escaped_head(s[0], rest);
        lemma_unescaped_head(s[0], escaped_text(rest));
        lemma_escaped_reads_back(rest);
    } else {
        assert(unescaped(escaped_text(s)) =~= s);
    }
}

/// A value that is short, not empty and holds nothing special stands as it is;
/// any other that is short stands between quotes and reads back.
pub proof fn lemma_value_reads_back(value: Seq<char>)
    requires
        text_width(value) <= 1024,
    ensures
        value.len() > 0 && !has_special(value) ==> escaped(value) == value,
        value.len() == 0 || has_special(value) ==> {
            let e = escaped(value);
            &&& e.len() >= 2
            &&& e[0] == '"' && e.last() == '"'
            &&& unescaped(e.subrange(1, e.len() - 1)) == value
        },
{
    lemma_clipped(value, VALUE_CAP as int);
    lemma_escaped_reads_back(value);
    if value.len() == 0 || has_special(value) {
        let e = escaped(value);
        assert(e.subrange(1, e.len() - 1) =~= escaped_text(value));
    }
}

/// A long value is cut to what fits 1024 bytes and marked with an ellipsis
/// inside its quotes.
pub proof fn lemma_long_value_is_cut(value: Seq<char>)
    requires
        text_width(value) > 1024,
    ensures
        ({
            let e = escaped(value);
            let kept = clipped(value, 1024);
            &&& e.len() >= 3
            &&& e[0] == '"' && e.last() == '"'
            &&& e[e.len() - 2] == '\u{2026}'
            &&& unescaped(e.subrange(1, e.len() - 2)) == kept
            &&& kept == value.take(kept.len() as int)
            &&& text_width(kept) <= 1024
            &&& kept.len() < value.len() ==> text_width(value.take(kept.len() as int + 1)) > 1024
        }),
{
    lemma_clipped(value, 1024);
    let kept = clipped(value, 1024);
    lemma_escaped_reads_back(kept);
    let e = escaped(value);
    assert(e.subrange(1, e.len() - 2) =~= escaped_text(kept));
}

proof fn lemma_segment(path: Seq<char>, n: int)
    requires
        0 <= n <= path.len(),
    ensures
        0 <= segment_start(path, n) <= n,
        segment_start(path, n) > 0 ==> segment_start(path, n) >= 2 && path[segment_start(path, n)
            - 2] == ':' && path[segment_start(path, n) - 1] == ':',
        forall|k: int|
            segment_start(path, n) < k <= n && k >= 2 ==> !(path[k - 2] == ':' && #[trigger] path[k
                - 1] == ':'),
    decreases n,
{
    if n >= 2 && !(path[n - 2] == ':' && path[n - 1] == ':') {
        lemma_segment(path, n - 1);
    }
}

/// The last segment of a path is what stands behind its last double colon, and
/// all of it where there is none.
pub proof fn lemma_last_segment(path: Seq<char>)
    ensures
        ({
            let tail = last_segment(path);
            let at = path.len() - tail.len();
            &&& 0 <= at
            &&& tail == path.skip(at)
            &&& at == 0 || (at >= 2 && path[at - 2] == ':' && path[at - 1] == ':')
            &&& forall|k: int|
                0 <= k < tail.len() - 1 ==> !((#[trigger] tail[k]) == ':' && tail[k + 1] == ':')
        }),
{
    let n = path.len() as int;
    lemma_segment(path, n);
    let at = segment_start(path, n);
    let tail = last_segment(path);
    assert forall|k: int| 0 <= k < tail.len() - 1 implies !((#[trigger] tail[k]) == ':' && tail[k
        + 1] == ':') by {
        assert(tail[k] == path[at + k]);
        assert(tail[k + 1] == path[at + k + 1]);
        let m = at + k + 2;
        assert(path[m - 1] == path[at + k + 1]);
    }
}

/// The tags are five characters each, and no two are the same.
pub proof fn lemma_tags_apart(a: Level, b: Level)
    ensures
        tag_of(a).len() == 5,
        tag_of(a) == tag_of(b) <==> a == b,
        a == Level::Error ==> tag_of(a)[0] == 'E',
        a == Level::Warn ==> tag_of(a)[0] == 'W',
        a == Level::Info ==> tag_of(a)[0] == 'I',
        a == Level::Debug ==> tag_of(a)[0] == 'D',
        a == Level::Trace ==> tag_of(a)[0] == 'T',
{
    reveal_strlit("ERROR");
    reveal_strlit("WARN ");
    reveal_strlit("INFO ");
    reveal_strlit("DEBUG");
    reveal_strlit("TRACE");
    if a != b {
        assert(tag_of(a)[0] != tag_of(b)[0]);
    }
}

/// A line begins with its time and its tag and names its area; what the spans
/// say stands before what the event says, and the message stands last.
pub proof fn lemma_line_in_order(
    ts: Seq<char>,
    level: Level,
    target: Seq<char>,
    spans: Seq<char>,
    event: LogfmtVisitor,
)
    ensures
        ({
            let line = line_of(ts, level, target, spans, event);
            let n = ts.len() as int;
            let area = escaped(area_of(event, target));
            let at = n + 12 + area.len();
            &&& line.len() >= at + spans.len() + event.fields@.len()
            &&& line.take(n) == ts
            &&& line[n] == ' '
            &&& line.subrange(n + 1, n + 6) == tag_of(level)
            &&& line.subrange(n + 6, n + 12) == seq![' ', 'a', 'r', 'e', 'a', '=']
            &&& line.subrange(n + 12, at) == area
            &&& line.subrange(at, at + spans.len()) == spans
            &&& line.subrange(at + spans.len(), at + spans.len() + event.fields@.len())
                == event.fields@
            &&& event.message is None ==> line.len() == at + spans.len() + event.fields@.len()
            &&& event.message matches Some(m) ==> line.skip(
                at + spans.len() + event.fields@.len(),
            ) == seq![' ', 'm', 's', 'g', '='] + escaped(m@)
        }),
{
    reveal_strlit(" area=");
    reveal_strlit(" msg=");
    lemma_tags_apart(level, level);
    let line = line_of(ts, level, target, spans, event);
    let n = ts.len() as int;
    let area = escaped(area_of(event, target));
    let at = n + 12 + area.len();
    let end = at + spans.len() + event.fields@.len();
    assert(line.take(n) =~= ts);
    assert(line.subrange(n + 1, n + 6) =~= tag_of(level));
    assert(line.subrange(n + 6, n + 12) =~= seq![' ', 'a', 'r', 'e', 'a', '=']);
    assert(line.subrange(n + 12, at) =~= area);
    assert(line.subrange(at, at + spans.len()) =~= spans);
    assert(line.subrange(at + spans.len(), end) =~= event.fields@);
    match event.message {
        Some(m) => {
            assert(line.skip(end) =~= seq![' ', 'm', 's', 'g', '='] + escaped(m@));
        },
        None => {},
    }
}

proof fn lemma_two(n: nat)
    requires
        n < 100,
    ensures
        padded(n, 2).len() == 2,
        value_of(padded(n, 2)) == n,
        all_digits(padded(n, 2)),
{
    vstd::arithmetic::power::lemma_pow1(10);
    vstd::arithmetic::power::lemma_pow_adds(10, 1, 1);
    lemma_padded_len(n, 2);
    lemma_padded_reads(n, 2);
}

proof fn lemma_three(n: nat)
    requires
        n < 1000,
    ensures
        padded(n, 3).len() == 3,
        value_of(padded(n, 3)) == n,
{
    vstd::arithmetic::power::lemma_pow1(10);
    vstd::arithmetic::power::lemma_pow_adds(10, 1, 1);
    vstd::arithmetic::power::lemma_pow_adds(10, 2, 1);
    lemma_padded_len(n, 3);
    lemma_padded_reads(n, 3);
}

proof fn lemma_four(n: nat)
    requires
        n < 10000,
    ensures
        padded(n, 4).len() == 4,
        value_of(padded(n, 4)) == n,
{
    vstd::arithmetic::power::lemma_pow1(10);
    vstd::arithmetic::power::lemma_pow_adds(10, 1, 1);
    vstd::arithmetic::power::lemma_pow_adds(10, 2, 1);
    vstd::arithmetic::power::lemma_pow_adds(10, 3, 1);
    lemma_padded_len(n, 4);
    lemma_padded_reads(n, 4);
}

/// The clock of a stamp reads hours, minutes, seconds and milliseconds of the
/// day, each in its own place.
pub proof fn lemma_clock_reads(tod: int, millis: u32)
    requires
        0 <= tod < 86_400,
        millis < 1000,
    ensures
        ({
            let s = clock_text(tod, millis);
            let h = value_of(s.subrange(0, 2));
            let m = value_of(s.subrange(3, 5));
            let sec = value_of(s.subrange(6, 8));
            &&& s.len() == 12
            &&& s[2] == ':' && s[5] == ':' && s[8] == '.'
            &&& 3600 * h + 60 * m + sec == tod
            &&& 0 <= m < 60 && 0 <= sec < 60
            &&& value_of(s.subrange(9, 12)) == millis
        }),
{
    let s = clock_text(tod, millis);
    let h = (tod / 3600) as nat;
    let m = (tod % 3600 / 60) as nat;
    let sec = (tod % 60) as nat;
    lemma_two(h);
    lemma_two(m);
    lemma_two(sec);
    lemma_three(millis as nat);
    assert(s.subrange(0, 2) =~= padded(h, 2));
    assert(s.subrange(3, 5) =~= padded(m, 2));
    assert(s.subrange(6, 8) =~= padded(sec, 2));
    assert(s.subrange(9, 12) =~= padded(millis as nat, 3));
    assert(tod % 60 == tod % 3600 % 60);
}

/// The date of a stamp reads year, month and day, each in its own place.
pub proof fn lemma_date_reads(c: Civil)
    requires
        0 <= c.y <= 9999,
        c.m < 100,
        c.d < 100,
    ensures
        ({
            let s = date_text(c);
            &&& s.len() == 10
            &&& s[4] == '-' && s[7] == '-'
            &&& value_of(s.subrange(0, 4)) == c.y
            &&& value_of(s.subrange(5, 7)) == c.m
            &&& value_of(s.subrange(8, 10)) == c.d
        }),
{
    let s = date_text(c);
    lemma_four(c.y as nat);
    lemma_two(c.m as nat);
    lemma_two(c.d as nat);
    assert(s.subrange(0, 4) =~= padded(c.y as nat, 4));
    assert(s.subrange(5, 7) =~= padded(c.m as nat, 2));
    assert(s.subrange(8, 10) =~= padded(c.d as nat, 2));
}

/// The zone of a stamp reads hours and minutes ahead of or behind UTC.
pub proof fn lemma_zone_reads(offset_min: i32)
    requires
        -1440 <= offset_min <= 1440,
    ensures
        ({
            let s = zone_text(offset_min);
            let minutes = 60 * value_of(s.subrange(1, 3)) + value_of(s.subrange(4, 6));
            &&& s.len() == 6
            &&& s[3] == ':'
            &&& offset_min >= 0 ==> s[0] == '+' && minutes == offset_min
            &&& offset_min < 0 ==> s[0] == '-' && minutes == -offset_min
            &&& 0 <= value_of(s.subrange(4, 6)) < 60
        }),
{
    let s = zone_text(offset_min);
    let z = super::logfmt::zone_minutes(offset_min);
    lemma_two((z / 60) as nat);
    lemma_two((z % 60) as nat);
    assert(s.subrange(1, 3) =~= padded((z / 60) as nat, 2));
    assert(s.subrange(4, 6) =~= padded((z % 60) as nat, 2));
}

/// A chain of errors names every cause in its order, each behind the same
/// words.
pub proof fn lemma_chain_names_causes(causes: Seq<String>, cause: String)
    ensures
        causes.len() == 0 ==> chained(causes.push(cause)) == cause@,
        causes.len() > 0 ==> chained(causes.push(cause)) == chained(causes)
            + " \u{2014} caused by: "@ + cause@,
{
    assert(causes.push(cause).drop_last() =~= causes);
}

/// Nothing but quotes stands before `a` and from `b` on.
pub open spec fn quotes_around(s: Seq<char>, a: int, b: int) -> bool {
    &&& 0 <= a <= b <= s.len()
    &&& forall|i: int| 0 <= i < a ==> (#[trigger] s[i]) == '"'
    &&& forall|i: int| b <= i < s.len() ==> (#[trigger] s[i]) == '"'
}

proof fn lemma_quote_before(s: Seq<char>, a: int, b: int)
    requires
        s.len() > 0,
        s[0] == '"',
        quotes_around(s.skip(1), a, b),
    ensures
        quotes_around(s, a + 1, b + 1),
        s.subrange(a + 1, b + 1) == s.skip(1).subrange(a, b),
{
    let t = s.skip(1);
    assert(s.subrange(a + 1, b + 1) =~= t.subrange(a, b));
    assert forall|i: int| 0 <= i < a + 1 implies (#[trigger] s[i]) == '"' by {
        if i > 0 {
            assert(t[i - 1] == '"');
        }
    }
    assert forall|i: int| b + 1 <= i < s.len() implies (#[trigger] s[i]) == '"' by {
        assert(t[i - 1] == '"');
    }
}

proof fn lemma_quote_behind(s: Seq<char>, a: int, b: int)
    requires
        s.len() > 0,
        s.last() == '"',
        quotes_around(s.drop_last(), a, b),
    ensures
        quotes_around(s, a, b),
        s.subrange(a, b) == s.drop_last().subrange(a, b),
{
    let t = s.drop_last();
    assert(s.subrange(a, b) =~= t.subrange(a, b));
    assert forall|i: int| 0 <= i < a implies (#[trigger] s[i]) == '"' by {
        assert(t[i] == '"');
    }
    assert forall|i: int| b <= i < s.len() implies (#[trigger] s[i]) == '"' by {
        if i < t.len() {
            assert(t[i] == '"');
        }
    }
}

/// What is left of a text without its quotes begins and ends with none, and
/// only quotes were taken off its ends.
pub proof fn lemma_unquoted(s: Seq<char>) -> (at: (int, int))
    ensures
        unquoted(s).len() > 0 ==> unquoted(s)[0] != '"' && unquoted(s).last() != '"',
        quotes_around(s, at.0, at.1),
        unquoted(s) == s.subrange(at.0, at.1),
    decreases s.len(),
{
    if s.len() > 0 && s[0] == '"' {
        let (a, b) = lemma_unquoted(s.skip(1));
        lemma_quote_before(s, a, b);
        (a + 1, b + 1)
    } else if s.len() > 0 && s.last() == '"' {
        let (a, b) = lemma_unquoted(s.drop_last());
        lemma_quote_behind(s, a, b);
        (a, b)
    } else {
        assert(s.subrange(0, s.len() as int) =~= s);
        (0, s.len() as int)
    }
}

/// A number in a field reads back.
pub proof fn lemma_number_reads(n: u64)
    ensures
        value_of(decimal(n as nat)) == n,
        all_digits(decimal(n as nat)),
{
    lemma_decimal_reads(n as nat);
}

/// A stamp reads the second it was made at: its date and its clock, less its
/// zone, are the seconds since 1970.
pub proof fn lemma_stamp_reads(secs: u64, millis: u32, offset_min: i32, c: Civil)
    requires
        date_is(local_secs(secs, offset_min), c),
        0 <= c.y <= 9999,
        millis < 1000,
        -1440 <= offset_min <= 1440,
    ensures
        ({
            let s = stamp(c, local_secs(secs, offset_min), millis, offset_min);
            let h = value_of(s.subrange(11, 13));
            let m = value_of(s.subrange(14, 16));
            let sec = value_of(s.subrange(17, 19));
            let zone = 60 * value_of(s.subrange(24, 26)) + value_of(s.subrange(27, 29));
            let days = days_from_civil(
                value_of(s.subrange(0, 4)),
                value_of(s.subrange(5, 7)),
                value_of(s.subrange(8, 10)),
            );
            let ahead = if s[23] == '+' {
                zone
            } else {
                -zone
            };
            &&& s.len() == 29
            &&& s[10] == 'T'
            &&& s[23] == '+' || s[23] == '-'
            &&& 86_400 * days + 3600 * h + 60 * m + sec - 60 * ahead == secs
            &&& value_of(s.subrange(20, 23)) == millis
        }),
{
    let local = local_secs(secs, offset_min);
    let tod = local % 86_400;
    let s = stamp(c, local, millis, offset_min);
    let a = date_text(c);
    let b = clock_text(tod, millis);
    let z = zone_text(offset_min);
    lemma_date_reads(c);
    lemma_clock_reads(tod, millis);
    lemma_zone_reads(offset_min);
    assert(s =~= a + seq!['T'] + b + z);
    assert(s.subrange(0, 4) =~= a.subrange(0, 4));
    assert(s.subrange(5, 7) =~= a.subrange(5, 7));
    assert(s.subrange(8, 10) =~= a.subrange(8, 10));
    assert(s.subrange(11, 13) =~= b.subrange(0, 2));
    assert(s.subrange(14, 16) =~= b.subrange(3, 5));
    assert(s.subrange(17, 19) =~= b.subrange(6, 8));
    assert(s.subrange(20, 23) =~= b.subrange(9, 12));
    assert(s.subrange(24, 26) =~= z.subrange(1, 3));
    assert(s.subrange(27, 29) =~= z.subrange(4, 6));
    assert(s[23] == z[0]);
    assert(local == 86_400 * (local / 86_400) + tod);
}

/// What needs quotes: blanks, equal signs, quotes, backslashes and control
/// characters, and nothing else.
pub proof fn lemma_special_chars(c: char)
    ensures
        is_special(c) <==> c as u32 <= 0x20 || c == '=' || c == '"' || c == '\\' || c as u32
            == 0x7F,
{
}

/// A bare field is a blank, its key, an equal sign and its text.
pub proof fn lemma_plain_field_reads(key: Seq<char>, text: Seq<char>)
    ensures
        ({
            let f = plain_field(key, text);
            let n = key.len() as int;
            &&& f.len() == n + text.len() + 2
            &&& f[0] == ' ' && f[n + 1] == '='
            &&& f.subrange(1, n + 1) == key
            &&& f.skip(n + 2) == text
        }),
        ({
            let f = field(key, text);
            let n = key.len() as int;
            &&& f[0] == ' ' && f[n + 1] == '='
            &&& f.subrange(1, n + 1) == key
            &&& f.skip(n + 2) == escaped(text)
        }),
{
    let n = key.len() as int;
    let f = plain_field(key, text);
    let g = field(key, text);
    assert(f.subrange(1, n + 1) =~= key);
    assert(f.skip(n + 2) =~= text);
    assert(g.subrange(1, n + 1) =~= key);
    assert(g.skip(n + 2) =~= escaped(text));
}

/// A grabbed field goes where its name says, and one of another name nowhere.
pub proof fn lemma_grab_sorts(
    before: &FieldGrab,
    after: &FieldGrab,
    name: Seq<char>,
    message: Seq<char>,
    tag: Seq<char>,
)
    requires
        before.took(after, name, message, tag),
    ensures
        name == "message"@ ==> after.message@ == message,
        name == "volume"@ ==> after.volume is Some && after.volume->Some_0@ == tag,
        name == "area"@ ==> after.area is Some && after.area->Some_0@ == tag,
        name != "message"@ ==> after.message == before.message,
        name != "volume"@ ==> after.volume == before.volume,
        name != "area"@ ==> after.area == before.area,
{
    reveal_strlit("message");
    reveal_strlit("volume");
    reveal_strlit("area");
    assert("message"@.len() == 7 && "volume"@.len() == 6 && "area"@.len() == 4);
}

/// What is recorded comes last in the ring, under the next number; a full ring
/// of 128 forgets its oldest event and no other.
pub proof fn lemma_recorded(before: &Diagnostics, event: ErrorEvent, after: &Diagnostics)
    requires
        before.wf(),
        before.steps_to(Step::Record(event), after),
    ensures
        after.events().len() > 0,
        after.events().last() == event,
        event.seq == before.upcoming(),
        after.upcoming() == before.upcoming() + 1,
        before.events().len() < 128 ==> after.events().drop_last() == before.events(),
        before.events().len() == 128 ==> after.events().len() == 128 && after.events().drop_last()
            == before.events().skip(1),
        forall|i: int|
            0 <= i < before.events().len() ==> (#[trigger] before.events()[i]).seq < event.seq,
        after.listeners() == before.listeners(),
{
    if before.events().len() < 128 {
        assert(after.events().drop_last() =~= before.events());
    } else {
        assert(after.events().drop_last() =~= before.events().skip(1));
    }
}

} // verus!
