//! The diagnostics ring and the log format.

use fmf_core::dates::{civil_from_days, Civil};
use fmf_core::diag::grab::FieldGrab;
use fmf_core::diag::logfmt::{
    escape_value, finish_line, level_tag, push_field, severity_of, write_stamp, write_ts, Level,
    LogfmtVisitor, VALUE_CAP,
};
use fmf_core::diag::{
    error_chain, log_query_served, resolve_log_dir, Diagnostics, Severity, ERROR_CHAIN_CAP,
    RING_CAP,
};
use fmf_core::metrics::QueryTrace;
use std::path::{Path, PathBuf};

#[test]
fn log_dir_defaults_next_to_the_index_never_machine_wide() {
    let index = Path::new("some").join("writable").join("index");

    // Default: the log co-locates under the caller's index dir, so it
    // inherits the index's writability and pollution domain.
    assert_eq!(resolve_log_dir(None, &index), index.join("logs"));

    // An explicit override (config/CLI) always wins.
    let explicit = PathBuf::from("elsewhere").join("logs");
    assert_eq!(resolve_log_dir(Some(explicit.clone()), &index), explicit);

    // Never falls back to a hard-coded machine-wide ProgramData path.
    assert!(!resolve_log_dir(None, &index).to_string_lossy().contains("ProgramData"));
}

#[test]
fn escape_value_leaves_safe_values_bare() {
    for safe in ["C:", "query-served_7f3a", "1240", "C:,D:"] {
        let mut s = String::new();
        escape_value(&mut s, safe);
        assert_eq!(s, safe);
    }
}

#[test]
fn escape_value_quotes_and_escapes() {
    let cases = [
        ("a b", "\"a b\""),
        ("k=v", "\"k=v\""),
        ("say \"hi\"", "\"say \\\"hi\\\"\""),
        ("back\\slash", "\"back\\\\slash\""),
        ("", "\"\""),
        ("tab\there", "\"tab\\there\""),
    ];
    for (input, want) in cases {
        let mut s = String::new();
        escape_value(&mut s, input);
        assert_eq!(s, want, "input {input:?}");
    }
}

#[test]
fn escape_value_neutralises_log_injection() {
    // CR/LF must fold onto one line so a crafted value cannot forge a
    // second log record.
    let mut s = String::new();
    escape_value(&mut s, "real\r\nFAKE level=ERROR msg=pwned");
    assert!(!s.contains('\n') && !s.contains('\r'), "got {s}");
    assert!(s.contains("\\r\\n"), "got {s}");

    // A bare control char becomes \u00XX.
    let mut s = String::new();
    escape_value(&mut s, "x\u{0007}y");
    assert_eq!(s, "\"x\\u0007y\"");
    let mut s = String::new();
    escape_value(&mut s, "\u{001f}");
    assert_eq!(s, "\"\\u001f\"");
    let mut s = String::new();
    escape_value(&mut s, "\u{007f}");
    assert_eq!(s, "\"\\u007f\"");
}

#[test]
fn escape_value_caps_long_values_on_a_char_boundary() {
    // Multibyte input so the cap lands mid-character and must back up.
    let long = "あ".repeat(VALUE_CAP);
    let mut s = String::new();
    escape_value(&mut s, &long);
    assert!(s.ends_with("…\""), "should be marked truncated");
    assert!(s.len() < long.len(), "should be shorter than the source");
    assert!(s.starts_with('"'));
    assert_eq!(s, format!("\"{}…\"", "あ".repeat(VALUE_CAP / 3)));
    let exact = "x".repeat(VALUE_CAP);
    let mut s = String::new();
    escape_value(&mut s, &exact);
    assert_eq!(s, exact);
}

#[test]
fn write_ts_is_rfc3339_with_offset() {
    let mut s = String::new();
    write_ts(&mut s, 0);
    // e.g. 2026-06-30T12:34:56.789+09:00
    assert_eq!(s.len(), 29, "got {s:?}");
    assert_eq!(&s[4..5], "-");
    assert_eq!(&s[10..11], "T");
    assert_eq!(&s[19..20], ".");
    assert!(matches!(&s[23..24], "+" | "-"), "offset sign in {s}");
    assert_eq!(&s[26..27], ":");
}

#[test]
fn stamps_are_exact() {
    let cases = [
        (1_782_790_496, 789, 540, "2026-06-30T12:34:56.789+09:00"),
        (0, 0, 0, "1970-01-01T00:00:00.000+00:00"),
        (0, 7, -90, "1969-12-31T22:30:00.007-01:30"),
        (951_782_400, 1, 0, "2000-02-29T00:00:00.001+00:00"),
    ];
    for (secs, millis, offset, want) in cases {
        let mut s = String::new();
        write_stamp(&mut s, secs, millis, offset);
        assert_eq!(s, want);
    }
}

#[test]
fn days_become_dates() {
    for (days, y, m, d) in [
        (0, 1970, 1, 1),
        (-1, 1969, 12, 31),
        (11_016, 2000, 2, 29),
        (11_017, 2000, 3, 1),
        (-719_468, 0, 3, 1),
        (-25_509, 1900, 2, 28),
        (-25_508, 1900, 3, 1),
    ] {
        assert_eq!(civil_from_days(days), Civil { y, m, d });
    }
}

#[test]
fn logfmt_line_orders_fields_and_carries_span_qid() {
    let mut span = LogfmtVisitor::span();
    span.put("qid", "7f3a");
    let mut event = LogfmtVisitor::event();
    event.put("area", "query");
    event.put("vol", "C:");
    event.put_number("hits", 1240);
    event.put_number("dur_ms", 8);
    event.put("message", "query served");
    let mut line = String::from("TS");
    finish_line(&mut line, Level::Info, "fmf_core::diag", &span.fields, &event);
    assert!(line.contains(" INFO  area=query"), "level+area: {line}");
    assert!(line.contains(" qid=7f3a"), "span qid: {line}");
    assert!(line.contains(" vol=C: hits=1240 dur_ms=8 "), "event fields: {line}");
    assert!(line.ends_with(" msg=\"query served\""), "msg last: {line}");
    assert!(
        line.find("qid=").unwrap() < line.find("hits=").unwrap(),
        "span field should come before event fields: {line}"
    );

    // Without an area of its own a line has that of its module.
    let mut line = String::from("TS");
    finish_line(&mut line, Level::Warn, "fmf_core::diag", "", &LogfmtVisitor::event());
    assert_eq!(line, "TS WARN  area=diag");
    let mut line = String::new();
    finish_line(&mut line, Level::Error, "panic", "", &LogfmtVisitor::event());
    assert_eq!(line, " ERROR area=panic");
}

#[test]
fn a_span_keeps_message_and_area_as_fields() {
    let mut span = LogfmtVisitor::span();
    span.put("message", "m");
    span.put("area", "a b");
    span.put_display("on", "true");
    assert_eq!(span.fields, " message=m area=\"a b\" on=true");
    assert!(span.message.is_none() && span.area.is_none());
    let mut out = String::new();
    push_field(&mut out, "k", "v w");
    assert_eq!(out, " k=\"v w\"");
}

#[test]
fn levels_have_tags_and_severities() {
    let cases = [
        (Level::Error, "ERROR", Some(Severity::Error)),
        (Level::Warn, "WARN ", Some(Severity::Warn)),
        (Level::Info, "INFO ", None),
        (Level::Debug, "DEBUG", None),
        (Level::Trace, "TRACE", None),
    ];
    for (level, tag, severity) in cases {
        assert_eq!(level_tag(level), tag);
        assert_eq!(severity_of(level, "fmf_core"), severity);
    }
    assert_eq!(severity_of(Level::Error, "panic"), Some(Severity::Panic));
    assert_eq!(severity_of(Level::Info, "panic"), None);
    assert_eq!(
        [Severity::Warn.as_u64(), Severity::Error.as_u64(), Severity::Panic.as_u64()],
        [1, 2, 3]
    );
}

#[test]
fn the_ring_keeps_the_newest_events_in_order() {
    let mut d = Diagnostics::new();
    let first = d.register_sink();
    let second = d.register_sink();
    assert_eq!(d.sinks(), &vec![first.id(), second.id()]);
    for i in 0..RING_CAP as u64 + 3 {
        let ev = d.record(
            Severity::Warn,
            "pipe",
            Some("C:".to_string()),
            format!("event {i}"),
            i,
        );
        assert_eq!((ev.seq, ev.uptime_ms), (i + 1, i));
    }
    let ring = d.recent_errors();
    assert_eq!(ring.len(), RING_CAP);
    assert_eq!(ring[0].message, "event 3");
    assert_eq!(ring[0].area, "pipe");
    assert_eq!(ring[0].volume.as_deref(), Some("C:"));
    assert!(ring.windows(2).all(|w| w[0].seq < w[1].seq));
    d.unregister_sink(&first);
    assert_eq!(d.sinks(), &vec![second.id()]);
    let third = d.register_sink();
    assert!(third.id() > second.id());
}

#[test]
fn chains_of_causes_are_joined_and_cut() {
    let chain = error_chain(&["a".to_string(), "b".to_string(), "c".to_string()]);
    assert_eq!(chain, "a — caused by: b — caused by: c");
    assert_eq!(error_chain(&["only".to_string()]), "only");
    let long = error_chain(&["あ".repeat(2000)]);
    assert_eq!(long, format!("{}…", "あ".repeat((ERROR_CHAIN_CAP - 3) / 3)));
    let long = error_chain(&["x".repeat(ERROR_CHAIN_CAP + 1)]);
    assert_eq!(long, format!("{}…", "x".repeat(ERROR_CHAIN_CAP - 3)));
    assert_eq!(long.len(), ERROR_CHAIN_CAP);
    let exact = "x".repeat(ERROR_CHAIN_CAP);
    assert_eq!(error_chain(&[exact.clone()]), exact);
}

#[test]
fn served_queries_tell_their_length_and_not_their_text() {
    let trace = QueryTrace {
        query: "日本".to_string(),
        driver: "pool scan".to_string(),
        cache: "miss".to_string(),
        hits: 12,
        total_us: 345,
        volumes: 2,
        ..Default::default()
    };
    let line = log_query_served(7, &trace).unwrap();
    assert_eq!(line.area.as_deref(), Some("query"));
    assert_eq!(line.message.as_deref(), Some("query served"));
    assert_eq!(
        line.fields,
        " rid=7 hits=12 qlen=2 dur_us=345 volumes=2 driver=\"pool scan\" cache=miss"
    );
    let unchanged = QueryTrace { unchanged: true, ..trace };
    assert!(log_query_served(7, &unchanged).is_none());
}

#[test]
fn the_ring_takes_three_fields_of_an_event() {
    let mut grab = FieldGrab::new();
    assert_eq!(grab.area_or("fmf_core::diag"), "fmf_core::diag");
    grab.put("message", "\"as it is\"");
    grab.put_debug("volume", "\"C:\"");
    grab.put_debug("area", "pipe");
    grab.put("other", "x");
    assert_eq!(grab.message, "\"as it is\"");
    assert_eq!(grab.volume.as_deref(), Some("C:"));
    assert_eq!(grab.area_or("fmf_core::diag"), "pipe");
    grab.put_debug("message", "\"quoted\"");
    assert_eq!(grab.message, "\"quoted\"");
    grab.put_debug("volume", "\"\"\"");
    assert_eq!(grab.volume.as_deref(), Some(""));
    grab.put("area", "\"kept\"");
    assert_eq!(grab.area_or(""), "\"kept\"");
}

#[test]
fn different_values_are_written_differently() {
    let values = [
        "", "a", "a b", "a\\ b", "\"", "\\\"", "\n", "\\n", "\r", "\t", "\u{1}", "\u{7f}", "\\u0001",
        "\"a\"", "a=b", "日本",
    ];
    let mut written = Vec::new();
    for v in values {
        let mut out = String::new();
        escape_value(&mut out, v);
        assert!(!written.contains(&out), "{v:?}");
        written.push(out);
    }
}

#[test]
fn a_listener_is_told_until_its_registration_ends() {
    let mut d = Diagnostics::new();
    assert!(d.can_register() && d.can_record());
    let first = d.register_sink();
    let second = d.register_sink();
    let mut told: Vec<(u64, u64)> = Vec::new();
    let mut record = |d: &mut Diagnostics| {
        let event = d.record(Severity::Error, "x", None, "m".to_string(), 0);
        for id in d.sinks() {
            told.push((*id, event.seq));
        }
    };
    record(&mut d);
    d.unregister_sink(&first);
    record(&mut d);
    d.unregister_sink(&first);
    record(&mut d);
    let (a, b) = (first.id(), second.id());
    assert_eq!(told, vec![(a, 1), (b, 1), (b, 2), (b, 3)]);
}
