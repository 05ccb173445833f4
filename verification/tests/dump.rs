use egfx_codecs::dump::{
    build_file_name, build_meta_line, clear_cap, prog_cap, DumpCaps, DumpCounters, DumpRecord,
};
use egfx_codecs::text::{chars_of, json_escape, parse_u64, push_decimal, push_decimal4};

fn record<'a>(codec: &'a str, context_id: Option<u32>, error: Option<&'a str>) -> DumpRecord<'a> {
    DumpRecord {
        codec,
        surface_id: 1,
        width: 2560,
        height: 1466,
        context_id,
        caps: "V10_7 \"x\"",
        data: &[1, 2, 3],
        error,
    }
}

#[test]
fn caps_and_their_overrides() {
    assert_eq!(clear_cap(None), 40);
    assert_eq!(prog_cap(None), 2000);
    assert_eq!(clear_cap(Some("7")), 7);
    assert_eq!(prog_cap(Some("12345")), 12345);
    assert_eq!(prog_cap(Some("")), 2000);
    assert_eq!(prog_cap(Some(" 5")), 2000);
    assert_eq!(clear_cap(Some("-1")), 40);
}

#[test]
fn numbers_are_read_as_std_reads_them() {
    for s in [
        "", "0", "+", "-", "+0", "-0", "++1", "1+", "007", "+12", "1_000", "0x10", "12a", "\u{0661}",
        "18446744073709551615", "18446744073709551616", "+18446744073709551615",
        "000000000000000000000000000000001", "99999999999999999999999999", "\n1", "1 ",
    ] {
        assert_eq!(parse_u64(s), s.parse::<u64>().ok(), "{s:?}");
    }
}

#[test]
fn numbers_are_written_as_std_writes_them() {
    for n in [0, 7, 9, 10, 42, 99, 100, 999, 1000, 9999, 10000, 123456789, u64::MAX] {
        let mut s = String::from("x");
        push_decimal(&mut s, n);
        assert_eq!(s, format!("x{n}"));
        let mut s = String::from("x");
        push_decimal4(&mut s, n);
        assert_eq!(s, format!("x{n:04}"));
        assert_eq!(parse_u64(&n.to_string()), Some(n));
    }
}

#[test]
fn characters_of_a_text() {
    assert_eq!(chars_of("a\u{e9}\u{1F600}"), vec!['a', '\u{e9}', '\u{1F600}']);
}

#[test]
fn escapes() {
    assert_eq!(json_escape("plain \u{e9}\u{1}"), "plain \u{e9}\u{1}");
    assert_eq!(json_escape("\"\\\n\r\t"), "\\\"\\\\\\n\\r\\t");
    assert_eq!(json_escape(""), "");
}

#[test]
fn file_names() {
    assert_eq!(
        build_file_name(&record("progressive", Some(0), None), 7),
        "0007_progressive_s1_w2560_h1466_ctx0.bin"
    );
    assert_eq!(
        build_file_name(&record("clearcodec", None, None), 12345),
        "12345_clearcodec_s1_w2560_h1466.bin"
    );
}

#[test]
fn file_names_sort_in_capture_order() {
    let a = record("progressive", Some(3), None);
    let b = record("clearcodec", None, None);
    let mut names = Vec::new();
    for n in 0..2040 {
        names.push(build_file_name(if n % 3 == 0 { &b } else { &a }, n));
    }
    let mut sorted = names.clone();
    sorted.sort();
    assert_eq!(names, sorted);
    sorted.dedup();
    assert_eq!(names.len(), sorted.len());
}

#[test]
fn meta_lines() {
    assert_eq!(
        build_meta_line(&record("progressive", Some(9), None), 7),
        "{\"seq\":7,\"file\":\"0007_progressive_s1_w2560_h1466_ctx9.bin\",\"codec\":\"progressive\",\
         \"surface\":1,\"width\":2560,\"height\":1466,\"context_id\":9,\"caps\":\"V10_7 \\\"x\\\"\",\
         \"bytes\":3,\"error\":null}\n"
    );
    assert_eq!(
        build_meta_line(&record("clearcodec", None, Some("bad\nband")), 0),
        "{\"seq\":0,\"file\":\"0000_clearcodec_s1_w2560_h1466.bin\",\"codec\":\"clearcodec\",\
         \"surface\":1,\"width\":2560,\"height\":1466,\"context_id\":null,\"caps\":\"V10_7 \\\"x\\\"\",\
         \"bytes\":3,\"error\":\"bad\\nband\"}\n"
    );
}

#[test]
fn meta_is_one_line() {
    let line = build_meta_line(&record("clearcodec", None, Some("a\nb\r\nc\n")), 1);
    assert_eq!(line.lines().count(), 1);
    assert!(line.ends_with('\n'));
}

#[test]
fn first_payloads_are_captured() {
    let caps = DumpCaps { clear: 2, prog: 3 };
    let clear = record("clearcodec", None, None);
    let prog = record("progressive", Some(0), None);
    let mut counters = DumpCounters::new();
    let mut files = Vec::new();
    for i in 0..10 {
        let rec = if i % 2 == 0 { &clear } else { &prog };
        if let Some(entry) = counters.dump(&caps, rec) {
            files.push(entry.file[..6].to_string());
            assert!(entry.line.starts_with(&format!("{{\"seq\":{},", files.len() - 1)));
        }
    }
    assert_eq!(files, vec!["0000_c", "0001_p", "0002_c", "0003_p", "0004_p"]);
    assert_eq!((counters.seq, counters.clear_n, counters.prog_n), (5, 5, 5));
}

#[test]
fn any_other_codec_counts_as_progressive() {
    let caps = DumpCaps { clear: 0, prog: 1 };
    let mut counters = DumpCounters::new();
    assert!(counters.dump(&caps, &record("clearcodec", None, None)).is_none());
    assert!(counters.dump(&caps, &record("Clearcodec", None, None)).is_some());
    assert!(counters.dump(&caps, &record("progressive", None, None)).is_none());
}

#[test]
fn counters_start_over() {
    let caps = DumpCaps { clear: 5, prog: 5 };
    let mut counters = DumpCounters { seq: u64::MAX, clear_n: 0, prog_n: u64::MAX };
    assert!(counters.dump(&caps, &record("progressive", None, None)).is_none());
    assert_eq!(counters.prog_n, 0);
    assert!(counters.dump(&caps, &record("clearcodec", None, None)).is_some());
    assert_eq!(counters.seq, 0);
}
