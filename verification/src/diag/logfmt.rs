//! The format of the log: one line of `key=value` pairs per event.

use vstd::prelude::*;
use crate::clock::{shows_unix, unix_present};
use crate::dates::{civil_from_days, days_from_civil, is_civil, Civil};
use crate::text::{
    chars_of, clip_len, clipped, decimal, lemma_clipped, lemma_padded_len, padded, push_char,
    push_chars, push_decimal, push_padded, text_width,
};
use super::Severity;

verus! {

/// How many bytes of a value are logged.
pub const VALUE_CAP: usize = 1024;

/// Seconds of a day.
pub const DAY_SECS: i64 = 86_400;

/// The last second that a timestamp can be made of.
pub const LAST_SECOND: u64 = 0x7FFF_FFFF_FFFE_0000;

/// How important a line of the log is.
#[derive(Clone, Copy, Debug, PartialEq, Eq, Structural)]
pub enum Level {
    /// A failure.
    Error,
    /// A degraded path.
    Warn,
    /// What happened.
    Info,
    /// Details.
    Debug,
    /// Everything.
    Trace,
}

/// The tag of a level, five characters wide.
pub open spec fn tag_of(level: Level) -> Seq<char> {
    match level {
        Level::Error => "ERROR"@,
        Level::Warn => "WARN "@,
        Level::Info => "INFO "@,
        Level::Debug => "DEBUG"@,
        Level::Trace => "TRACE"@,
    }
}

/// The tag of a level, five characters wide.
pub fn level_tag(level: Level) -> (r: &'static str)
    ensures
        r@ == tag_of(level),
{
    match level {
        Level::Error => "ERROR",
        Level::Warn => "WARN ",
        Level::Info => "INFO ",
        Level::Debug => "DEBUG",
        Level::Trace => "TRACE",
    }
}

/// The severity under which a line of the log goes into the ring; nothing
/// for lines below a warning.
pub fn severity_of(level: Level, target: &str) -> (r: Option<Severity>)
    ensures
        r == match level {
            Level::Error | Level::Warn => Some(
                if target@ == "panic"@ {
                    Severity::Panic
                } else if level == Level::Error {
                    Severity::Error
                } else {
                    Severity::Warn
                },
            ),
            _ => None,
        },
{
    if level != Level::Error && level != Level::Warn {
        return None;
    }
    if target.to_owned() == "panic".to_owned() {
        Some(Severity::Panic)
    } else if level == Level::Error {
        Some(Severity::Error)
    } else {
        Some(Severity::Warn)
    }
}

/// A control character: one byte below the space, or the one behind `~`.
pub open spec fn is_control(c: char) -> bool {
    (c as u32) < 0x20 || (c as u32) == 0x7F
}

/// A character that a value cannot hold outside quotes.
pub open spec fn is_special(c: char) -> bool {
    c == ' ' || c == '=' || c == '"' || c == '\\' || is_control(c)
}

/// A hexadecimal digit in lower case.
pub open spec fn hex_digit(n: int) -> char {
    if n < 10 {
        (0x30 + n) as char
    } else {
        (0x57 + n) as char
    }
}

/// A character inside quotes.
pub open spec fn escaped_char(c: char) -> Seq<char> {
    if c == '"' {
        seq!['\\', '"']
    } else if c == '\\' {
        seq!['\\', '\\']
    } else if c == '\n' {
        seq!['\\', 'n']
    } else if c == '\r' {
        seq!['\\', 'r']
    } else if c == '\t' {
        seq!['\\', 't']
    } else if is_control(c) {
        seq!['\\', 'u', '0', '0', hex_digit(c as int / 16), hex_digit(c as int % 16)]
    } else {
        seq![c]
    }
}

/// A text inside quotes.
pub open spec fn escaped_text(s: Seq<char>) -> Seq<char>
    decreases s.len(),
{
    if s.len() == 0 {
        Seq::empty()
    } else {
        escaped_text(s.drop_last()) + escaped_char(s.last())
    }
}

/// The text has a character that needs quotes.
pub open spec fn has_special(s: Seq<char>) -> bool {
    exists|i: int| 0 <= i < s.len() && is_special(#[trigger] s[i])
}

/// A value as it is logged: bare where that is safe, else quoted and escaped,
/// and cut where it is long.
pub open spec fn escaped(value: Seq<char>) -> Seq<char> {
    let kept = clipped(value, VALUE_CAP as int);
    let cut = text_width(value) > VALUE_CAP;
    if !cut && value.len() > 0 && !has_special(value) {
        value
    } else {
        seq!['"'] + escaped_text(kept) + (if cut {
            seq!['\u{2026}']
        } else {
            Seq::empty()
        }) + seq!['"']
    }
}

fn push_escaped_char(out: &mut String, c: char)
    ensures
        final(out)@ == old(out)@ + escaped_char(c),
{
    let ghost start = out@;
    let p: u32 = c as u32;
    if c == '"' || c == '\\' {
        push_char(out, '\\');
        push_char(out, c);
    } else if c == '\n' {
        push_char(out, '\\');
        push_char(out, 'n');
    } else if c == '\r' {
        push_char(out, '\\');
        push_char(out, 'r');
    } else if c == '\t' {
        push_char(out, '\\');
        push_char(out, 't');
    } else if p < 0x20 || p == 0x7F {
        push_char(out, '\\');
        push_char(out, 'u');
        push_char(out, '0');
        push_char(out, '0');
        push_char(out, hex_digit_of((p / 16) as u8));
        push_char(out, hex_digit_of((p % 16) as u8));
    } else {
        push_char(out, c);
    }
    assert(out@ =~= start + escaped_char(c));
}

fn hex_digit_of(n: u8) -> (r: char)
    requires
        n < 16,
    ensures
        r == hex_digit(n as int),
{
    if n < 10 {
        (0x30 + n) as char
    } else {
        (0x57 + n) as char
    }
}

/// Append a value: bare where that is safe, else quoted and escaped, and cut
/// where it is long.
pub fn escape_value(out: &mut String, value: &str)
    ensures
        final(out)@ == old(out)@ + escaped(value@),
{
    let ghost start = out@;
    let chars: Vec<char> = chars_of(value);
    let kept: usize = clip_len(chars.as_slice(), VALUE_CAP);
    let cut: bool = kept < chars.len();
    let mut special: bool = false;
    let mut i: usize = 0;
    while i < chars.len()
        invariant
            i <= chars@.len(),
            special == exists|k: int| 0 <= k < i && is_special(#[trigger] chars@[k]),
        decreases chars@.len() - i,
    {
        let c: char = chars[i];
        if c == ' ' || c == '=' || c == '"' || c == '\\' || (c as u32) < 0x20 || c as u32 == 0x7F {
            assert(is_special(chars@[i as int]));
            special = true;
        }
        i = i + 1;
    }
    assert(special == has_special(value@));
    if !cut && chars.len() > 0 && !special {
        out.append(value);
        return;
    }
    push_char(out, '"');
    let ghost opened = start + seq!['"'];
    assert(out@ =~= opened + escaped_text(chars@.take(0)));
    i = 0;
    while i < kept
        invariant
            i <= kept <= chars@.len(),
            out@ == opened + escaped_text(chars@.take(i as int)),
        decreases kept - i,
    {
        push_escaped_char(out, chars[i]);
        assert(chars@.take(i + 1).drop_last() =~= chars@.take(i as int));
        assert(out@ =~= opened + escaped_text(chars@.take(i + 1)));
        i = i + 1;
    }
    if cut {
        push_char(out, '\u{2026}');
    }
    push_char(out, '"');
    assert(out@ =~= start + escaped(value@));
}

/// Every character can stand in one line of the log: none is a control
/// character.
pub open spec fn one_line(s: Seq<char>) -> bool {
    forall|i: int| 0 <= i < s.len() ==> !is_control(#[trigger] s[i])
}

/// The digits stand for the numbers that they are made of.
proof fn lemma_hex_digit(n: int)
    requires
        0 <= n < 16,
    ensures
        hex_digit(n) as u32 == if n < 10 {
            0x30 + n
        } else {
            0x57 + n
        },
        !is_control(hex_digit(n)),
{
    if n < 10 {
        assert(((0x30 + n) as char) as u32 == 0x30 + n);
    } else {
        assert(((0x57 + n) as char) as u32 == 0x57 + n);
    }
}

proof fn lemma_escaped_char_one_line(c: char)
    ensures
        one_line(escaped_char(c)),
{
    if is_control(c) {
        lemma_hex_digit(c as int / 16);
        lemma_hex_digit(c as int % 16);
    }
}

proof fn lemma_escaped_text_one_line(s: Seq<char>)
    ensures
        one_line(escaped_text(s)),
    decreases s.len(),
{
    if s.len() > 0 {
        lemma_escaped_text_one_line(s.drop_last());
        lemma_escaped_char_one_line(s.last());
    }
}

/// A logged value never holds a control character, so that no value can
/// start a line of its own.
pub proof fn lemma_escaped_one_line(value: Seq<char>)
    ensures
        one_line(escaped(value)),
{
    lemma_escaped_text_one_line(clipped(value, VALUE_CAP as int));
    let cut = text_width(value) > VALUE_CAP;
    if !cut && value.len() > 0 && !has_special(value) {
        assert forall|i: int| 0 <= i < value.len() implies !is_control(#[trigger] value[i]) by {
            assert(!is_special(value[i]));
        }
    }
}

/// The first character of a text is escaped first.
proof fn lemma_escaped_text_front(s: Seq<char>)
    requires
        s.len() > 0,
    ensures
        escaped_text(s) == escaped_char(s[0]) + escaped_text(s.skip(1)),
    decreases s.len(),
{
    if s.len() == 1 {
        assert(s.drop_last() =~= Seq::empty());
        assert(s.skip(1) =~= Seq::empty());
        assert(escaped_text(s.drop_last()) =~= Seq::empty());
        assert(escaped_text(s) =~= escaped_char(s[0]) + escaped_text(s.skip(1)));
    } else {
        let d = s.drop_last();
        lemma_escaped_text_front(d);
        assert(d.skip(1) =~= s.skip(1).drop_last());
        assert(s.skip(1).last() == s.last());
        assert(escaped_text(s) =~= escaped_char(s[0]) + escaped_text(s.skip(1)));
    }
}

/// What a text starts with when it is escaped tells its first character.
proof fn lemma_escaped_chars_differ(c: char, d: char, x: Seq<char>, y: Seq<char>)
    requires
        escaped_char(c) + x == escaped_char(d) + y,
    ensures
        c == d,
{
    let t = escaped_char(c) + x;
    let u = escaped_char(d) + y;
    assert(t[0] == escaped_char(c)[0] && u[0] == escaped_char(d)[0]);
    if escaped_char(c).len() > 1 && escaped_char(d).len() > 1 {
        assert(t[1] == escaped_char(c)[1] && u[1] == escaped_char(d)[1]);
    }
    if escaped_char(c).len() == 6 && escaped_char(d).len() == 6 {
        assert(t[4] == escaped_char(c)[4] && u[4] == escaped_char(d)[4]);
        assert(t[5] == escaped_char(c)[5] && u[5] == escaped_char(d)[5]);
        lemma_hex_digit(c as int / 16);
        lemma_hex_digit(c as int % 16);
        lemma_hex_digit(d as int / 16);
        lemma_hex_digit(d as int % 16);
        assert(c as int == d as int);
    }
}

proof fn lemma_escaped_texts_differ(a: Seq<char>, b: Seq<char>)
    requires
        escaped_text(a) == escaped_text(b),
    ensures
        a == b,
    decreases a.len(),
{
    if a.len() > 0 {
        lemma_escaped_text_front(a);
    }
    if b.len() > 0 {
        lemma_escaped_text_front(b);
    }
    if a.len() > 0 && b.len() > 0 {
        let x = escaped_text(a.skip(1));
        let y = escaped_text(b.skip(1));
        let e = escaped_char(a[0]);
        lemma_escaped_chars_differ(a[0], b[0], x, y);
        assert(x =~= (e + x).skip(e.len() as int));
        assert(y =~= (e + y).skip(e.len() as int));
        lemma_escaped_texts_differ(a.skip(1), b.skip(1));
        assert(a =~= seq![a[0]] + a.skip(1));
        assert(b =~= seq![b[0]] + b.skip(1));
    } else if a.len() > 0 {
        assert(escaped_text(b).len() == 0);
        assert(escaped_text(a).len() > 0);
    } else if b.len() > 0 {
        assert(escaped_text(a).len() == 0);
        assert(escaped_text(b).len() > 0);
    } else {
        assert(a =~= b);
    }
}

/// Different values that are not cut are logged differently, so that a value
/// can be read back from the log.
pub proof fn lemma_escaped_differ(a: Seq<char>, b: Seq<char>)
    requires
        text_width(a) <= VALUE_CAP,
        text_width(b) <= VALUE_CAP,
        a != b,
    ensures
        escaped(a) != escaped(b),
{
    lemma_clipped(a, VALUE_CAP as int);
    lemma_clipped(b, VALUE_CAP as int);
    let bare_a = a.len() > 0 && !has_special(a);
    let bare_b = b.len() > 0 && !has_special(b);
    if escaped(a) == escaped(b) {
        if bare_a && !bare_b {
            assert(is_special(escaped(b)[0]));
            assert(!is_special(a[0]));
        } else if bare_b && !bare_a {
            assert(is_special(escaped(a)[0]));
            assert(!is_special(b[0]));
        } else if !bare_a {
            let n = escaped(a).len() as int;
            assert(escaped_text(a) =~= escaped(a).subrange(1, n - 1));
            assert(escaped_text(b) =~= escaped(b).subrange(1, n - 1));
            lemma_escaped_texts_differ(a, b);
        }
    }
}

/// A key and a value, with a space in front.
pub open spec fn field(key: Seq<char>, value: Seq<char>) -> Seq<char> {
    seq![' '] + key + seq!['='] + escaped(value)
}

/// Append a key and a value, with a space in front.
pub fn push_field(out: &mut String, key: &str, value: &str)
    ensures
        final(out)@ == old(out)@ + field(key@, value@),
{
    let ghost start = out@;
    push_char(out, ' ');
    out.append(key);
    push_char(out, '=');
    escape_value(out, value);
    assert(out@ =~= start + field(key@, value@));
}

/// A key and a text that needs no quotes, with a space in front.
pub open spec fn plain_field(key: Seq<char>, text: Seq<char>) -> Seq<char> {
    seq![' '] + key + seq!['='] + text
}

/// The fields of a line, or of a span around lines.
///
/// Of a line, the message and the area stand at places of their own.
#[derive(Debug)]
pub struct LogfmtVisitor {
    /// The message and the area are kept apart.
    pub reserve: bool,
    /// The message.
    pub message: Option<String>,
    /// The area.
    pub area: Option<String>,
    /// The other fields, each with a space in front.
    pub fields: String,
}

impl LogfmtVisitor {
    /// No fields of a line yet.
    pub fn event() -> (r: LogfmtVisitor)
        ensures
            r.reserve,
            r.message is None,
            r.area is None,
            r.fields@ == Seq::<char>::empty(),
    {
        LogfmtVisitor { reserve: true, message: None, area: None, fields: String::new() }
    }

    /// No fields of a span yet.
    pub fn span() -> (r: LogfmtVisitor)
        ensures
            !r.reserve,
            r.message is None,
            r.area is None,
            r.fields@ == Seq::<char>::empty(),
    {
        LogfmtVisitor { reserve: false, message: None, area: None, fields: String::new() }
    }

    /// Add a text.
    pub fn put(&mut self, name: &str, value: &str)
        ensures
            final(self).reserve == old(self).reserve,
            if old(self).reserve && name@ == "message"@ {
                &&& final(self).message matches Some(m) && m@ == value@
                &&& final(self).area == old(self).area
                &&& final(self).fields == old(self).fields
            } else if old(self).reserve && name@ == "area"@ {
                &&& final(self).message == old(self).message
                &&& final(self).area matches Some(a) && a@ == value@
                &&& final(self).fields == old(self).fields
            } else {
                &&& final(self).message == old(self).message
                &&& final(self).area == old(self).area
                &&& final(self).fields@ == old(self).fields@ + field(name@, value@)
            },
    {
        let owned: String = name.to_owned();
        if self.reserve && owned == "message".to_owned() {
            self.message = Some(value.to_owned());
        } else if self.reserve && owned == "area".to_owned() {
            self.area = Some(value.to_owned());
        } else {
            push_field(&mut self.fields, name, value);
        }
    }

    /// Add a text that needs no quotes, such as a number.
    pub fn put_display(&mut self, name: &str, text: &str)
        ensures
            final(self).reserve == old(self).reserve,
            final(self).message == old(self).message,
            final(self).area == old(self).area,
            final(self).fields@ == old(self).fields@ + plain_field(name@, text@),
    {
        let ghost start = self.fields@;
        push_char(&mut self.fields, ' ');
        self.fields.append(name);
        push_char(&mut self.fields, '=');
        self.fields.append(text);
        assert(self.fields@ =~= start + plain_field(name@, text@));
    }

    /// Add a number.
    pub fn put_number(&mut self, name: &str, n: u64)
        ensures
            final(self).reserve == old(self).reserve,
            final(self).message == old(self).message,
            final(self).area == old(self).area,
            final(self).fields@ == old(self).fields@ + plain_field(name@, decimal(n as nat)),
    {
        let mut text: String = String::new();
        push_decimal(&mut text, n);
        assert(text@ =~= decimal(n as nat));
        self.put_display(name, text.as_str());
    }
}

/// Where the last segment of a module path starts, looking at its first `n`
/// characters.
pub open spec fn segment_start(path: Seq<char>, n: int) -> int
    decreases n,
{
    if n < 2 {
        0
    } else if path[n - 2] == ':' && path[n - 1] == ':' {
        n
    } else {
        segment_start(path, n - 1)
    }
}

/// The last segment of a module path.
pub open spec fn last_segment(path: Seq<char>) -> Seq<char> {
    path.skip(segment_start(path, path.len() as int))
}

fn last_segment_of(target: &str) -> (r: String)
    ensures
        r@ == last_segment(target@),
{
    let chars: Vec<char> = chars_of(target);
    let mut n: usize = chars.len();
    while n >= 2 && !(chars[n - 2] == ':' && chars[n - 1] == ':')
        invariant
            n <= chars@.len(),
            segment_start(chars@, chars@.len() as int) == segment_start(chars@, n as int),
        decreases n,
    {
        n = n - 1;
    }
    let start: usize = if n >= 2 {
        n
    } else {
        0
    };
    assert(start == segment_start(chars@, chars@.len() as int));
    let mut r: String = String::new();
    push_chars(&mut r, vstd::slice::slice_subrange(chars.as_slice(), start, chars.len()));
    assert(r@ =~= last_segment(target@));
    r
}

/// The area of a line: the one it names, else the last segment of its module
/// path.
pub open spec fn area_of(event: LogfmtVisitor, target: Seq<char>) -> Seq<char> {
    match event.area {
        Some(area) => area@,
        None => last_segment(target),
    }
}

/// A line of the log: time, level, area, the fields around it, its own
/// fields, and the message last.
pub open spec fn line_of(
    ts: Seq<char>,
    level: Level,
    target: Seq<char>,
    spans: Seq<char>,
    event: LogfmtVisitor,
) -> Seq<char> {
    ts + seq![' '] + tag_of(level) + " area="@ + escaped(area_of(event, target)) + spans
        + event.fields@ + (match event.message {
        Some(message) => " msg="@ + escaped(message@),
        None => Seq::empty(),
    })
}

/// Append a line of the log behind its time.
pub fn finish_line(out: &mut String, level: Level, target: &str, spans: &str, event: &LogfmtVisitor)
    ensures
        final(out)@ == line_of(old(out)@, level, target@, spans@, *event),
{
    let ghost ts = out@;
    push_char(out, ' ');
    out.append(level_tag(level));
    out.append(" area=");
    match &event.area {
        Some(area) => {
            escape_value(out, area.as_str());
        },
        None => {
            let area: String = last_segment_of(target);
            escape_value(out, area.as_str());
        },
    }
    out.append(spans);
    out.append(event.fields.as_str());
    if let Some(message) = &event.message {
        out.append(" msg=");
        escape_value(out, message.as_str());
    }
    assert(out@ =~= line_of(ts, level, target@, spans@, *event));
}

proof fn lemma_tag_one_line(level: Level)
    ensures
        one_line(tag_of(level)),
        one_line(" area="@),
        one_line(" msg="@),
{
    reveal_strlit("ERROR");
    reveal_strlit("WARN ");
    reveal_strlit("INFO ");
    reveal_strlit("DEBUG");
    reveal_strlit("TRACE");
    reveal_strlit(" area=");
    reveal_strlit(" msg=");
}

/// Whatever the message and the area hold, a line of the log is one line.
pub proof fn lemma_line_is_one_line(
    ts: Seq<char>,
    level: Level,
    target: Seq<char>,
    spans: Seq<char>,
    event: LogfmtVisitor,
)
    requires
        one_line(ts),
        one_line(spans),
        one_line(event.fields@),
    ensures
        one_line(line_of(ts, level, target, spans, event)),
{
    lemma_tag_one_line(level);
    lemma_escaped_one_line(area_of(event, target));
    if let Some(message) = event.message {
        lemma_escaped_one_line(message@);
    }
}

/// A field whose key is in one line is in one line, whatever its value.
pub proof fn lemma_field_one_line(key: Seq<char>, value: Seq<char>)
    requires
        one_line(key),
    ensures
        one_line(field(key, value)),
{
    lemma_escaped_one_line(value);
}

/// The seconds, counted from 1970, that a clock in the zone shows.
pub open spec fn local_secs(secs: u64, offset_min: i32) -> int {
    secs + offset_min * 60
}

/// `(y, m, d)` is the date of the second.
pub open spec fn date_is(local: int, c: Civil) -> bool {
    is_civil(c.y as int, c.m as int, c.d as int) && days_from_civil(
        c.y as int,
        c.m as int,
        c.d as int,
    ) == local / (DAY_SECS as int)
}

/// A date, as in `2026-06-30`.
pub open spec fn date_text(c: Civil) -> Seq<char> {
    padded(c.y as nat, 4) + seq!['-'] + padded(c.m as nat, 2) + seq!['-'] + padded(c.d as nat, 2)
}

/// A time of day, as in `12:34:56.789`.
pub open spec fn clock_text(tod: int, millis: u32) -> Seq<char> {
    padded((tod / 3600) as nat, 2) + seq![':'] + padded((tod % 3600 / 60) as nat, 2) + seq![':']
        + padded((tod % 60) as nat, 2) + seq!['.'] + padded(millis as nat, 3)
}

/// The minutes from the zone to UTC, without the sign.
pub open spec fn zone_minutes(offset_min: i32) -> int {
    if offset_min >= 0 {
        offset_min as int
    } else {
        -offset_min
    }
}

/// A zone, as in `+09:00`.
pub open spec fn zone_text(offset_min: i32) -> Seq<char> {
    seq![
        if offset_min >= 0 {
            '+'
        } else {
            '-'
        },
    ] + padded((zone_minutes(offset_min) / 60) as nat, 2) + seq![':'] + padded(
        (zone_minutes(offset_min) % 60) as nat,
        2,
    )
}

/// A date and a time of day with the zone, as in
/// `2026-06-30T12:34:56.789+09:00`.
pub open spec fn stamp(c: Civil, local: int, millis: u32, offset_min: i32) -> Seq<char> {
    date_text(c) + seq!['T'] + clock_text(local % (DAY_SECS as int), millis) + zone_text(offset_min)
}

/// The text is the timestamp of a second.
pub open spec fn stamps(text: Seq<char>, secs: u64, millis: u32, offset_min: i32) -> bool {
    exists|c: Civil| #[trigger]
        date_is(local_secs(secs, offset_min), c) && text == stamp(
            c,
            local_secs(secs, offset_min),
            millis,
            offset_min,
        )
}

proof fn lemma_year_positive(local: int, c: Civil)
    requires
        date_is(local, c),
        local >= -(DAY_SECS as int),
    ensures
        c.y >= 1969,
{
    if c.y < 1969 {
        let march_year = if c.m <= 2 {
            c.y - 1
        } else {
            c.y as int
        };
        assert(march_year <= 1968);
        assert(march_year / 4 - march_year / 100 + march_year / 400 <= 477) by {
            if march_year < 0 {
                assert(march_year / 4 <= 0);
            }
        }
    }
}

fn push_date(out: &mut String, c: Civil)
    requires
        c.y >= 0,
    ensures
        final(out)@ == old(out)@ + date_text(c),
{
    let ghost start = out@;
    push_padded(out, c.y as u64, 4);
    push_char(out, '-');
    push_padded(out, c.m as u64, 2);
    push_char(out, '-');
    push_padded(out, c.d as u64, 2);
    assert(out@ =~= start + date_text(c));
}

fn push_clock(out: &mut String, tod: u64, millis: u32)
    ensures
        final(out)@ == old(out)@ + clock_text(tod as int, millis),
{
    let ghost start = out@;
    push_padded(out, tod / 3600, 2);
    push_char(out, ':');
    push_padded(out, tod % 3600 / 60, 2);
    push_char(out, ':');
    push_padded(out, tod % 60, 2);
    push_char(out, '.');
    push_padded(out, millis as u64, 3);
    assert(out@ =~= start + clock_text(tod as int, millis));
}

fn push_zone(out: &mut String, offset_min: i32)
    requires
        -1440 <= offset_min <= 1440,
    ensures
        final(out)@ == old(out)@ + zone_text(offset_min),
{
    let ghost start = out@;
    let off: u64 = if offset_min >= 0 {
        offset_min as u64
    } else {
        (-offset_min) as u64
    };
    if offset_min >= 0 {
        push_char(out, '+');
    } else {
        push_char(out, '-');
    }
    push_padded(out, off / 60, 2);
    push_char(out, ':');
    push_padded(out, off % 60, 2);
    assert(out@ =~= start + zone_text(offset_min));
}

/// Append the timestamp of a second in a zone.
pub fn write_stamp(out: &mut String, secs: u64, millis: u32, offset_min: i32)
    requires
        secs <= LAST_SECOND,
        millis < 1000,
        -1440 <= offset_min <= 1440,
    ensures
        exists|text: Seq<char>| #[trigger]
            stamps(text, secs, millis, offset_min) && final(out)@ == old(out)@ + text,
{
    let ghost start = out@;
    let local: i64 = secs as i64 + offset_min as i64 * 60;
    let (day, tod): (i64, i64) = if local < 0 {
        (-1, local + DAY_SECS)
    } else {
        (local / DAY_SECS, local % DAY_SECS)
    };
    assert(day == local as int / (DAY_SECS as int) && tod == local as int % (DAY_SECS as int));
    let c: Civil = civil_from_days(day);
    proof {
        lemma_year_positive(local as int, c);
    }
    push_date(out, c);
    push_char(out, 'T');
    push_clock(out, tod as u64, millis);
    push_zone(out, offset_min);
    proof {
        let text = stamp(c, local_secs(secs, offset_min), millis, offset_min);
        assert(out@ =~= start + text);
        assert(date_is(local_secs(secs, offset_min), c));
        assert(stamps(text, secs, millis, offset_min));
    }
}

/// The clock may have given this as the time since 1970.
pub closed spec fn clock_gives(secs: u64, millis: u32) -> bool {
    shows_unix(secs, millis)
}

/// The second that is written for one the clock gave: the last that can be
/// where that is later.
pub open spec fn written_second(secs: u64) -> u64 {
    if secs > LAST_SECOND {
        LAST_SECOND
    } else {
        secs
    }
}

/// `text` is the timestamp, in a zone, of a time that the clock gave.
pub open spec fn stamps_clock(text: Seq<char>, offset_min: i32) -> bool {
    exists|secs: u64, millis: u32| #[trigger]
        clock_gives(secs, millis) && millis < 1000 && stamps(
            text,
            written_second(secs),
            millis,
            offset_min,
        )
}

/// Append the time of the clock in a zone. Which time that is, the clock
/// decides.
pub fn write_ts(out: &mut String, offset_min: i32)
    requires
        -1440 <= offset_min <= 1440,
    ensures
        exists|text: Seq<char>| #[trigger]
            stamps_clock(text, offset_min) && final(out)@ == old(out)@ + text,
{
    let ghost start = out@;
    let (now, millis): (u64, u32) = unix_present();
    let secs: u64 = if now > LAST_SECOND {
        LAST_SECOND
    } else {
        now
    };
    write_stamp(out, secs, millis, offset_min);
    proof {
        let text = choose|text: Seq<char>| #[trigger]
            stamps(text, secs, millis, offset_min) && out@ == start + text;
        assert(clock_gives(now, millis));
        assert(stamps_clock(text, offset_min));
    }
}

/// Up to the year 9999 a timestamp has 29 characters.
pub proof fn lemma_stamp_len(c: Civil, local: int, millis: u32, offset_min: i32)
    requires
        date_is(local, c),
        0 <= c.y <= 9999,
        millis < 1000,
        -1440 <= offset_min <= 1440,
    ensures
        stamp(c, local, millis, offset_min).len() == 29,
{
    let tod = local % (DAY_SECS as int);
    let off = zone_minutes(offset_min);
    assert(vstd::arithmetic::power::pow(10, 2) == 100 && vstd::arithmetic::power::pow(10, 3) == 1000
        && vstd::arithmetic::power::pow(10, 4) == 10000) by {
        reveal_with_fuel(vstd::arithmetic::power::pow, 5);
    }
    lemma_padded_len(c.y as nat, 4);
    lemma_padded_len(c.m as nat, 2);
    lemma_padded_len(c.d as nat, 2);
    lemma_padded_len((tod / 3600) as nat, 2);
    lemma_padded_len((tod % 3600 / 60) as nat, 2);
    lemma_padded_len((tod % 60) as nat, 2);
    lemma_padded_len(millis as nat, 3);
    lemma_padded_len((off / 60) as nat, 2);
    lemma_padded_len((off % 60) as nat, 2);
}

} // verus!
