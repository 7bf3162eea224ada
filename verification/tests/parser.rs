use lrc::document::parse_lrc;
use lrc::line::parse_line;
use lrc::model::LyricLine;
use lrc::time_tag::parse_time;

fn entry(l: &LyricLine) -> (usize, usize, &[u8]) {
    assert_eq!(l.words.len(), 1);
    (
        l.words[0].start_time,
        l.words[0].end_time,
        l.words[0].word.as_slice(),
    )
}

#[test]
fn time_test() {
    assert_eq!(parse_time(b"[00:01.12]"), Some((10, 1120)));
    assert_eq!(parse_time(b"[00:10.254]"), Some((11, 10254)));
    assert_eq!(parse_time(b"[01:10.1]"), Some((9, 70100)));
    assert_eq!(parse_time(b"[168:10.254]"), Some((12, 10090254)));
    assert!(parse_time(b"[168:10.254233]").is_none());
}

#[test]
fn lyric_line_test() {
    let (rest, lines) = parse_line(b"[00:01.12] test LyRiC").unwrap();
    assert_eq!(rest, 21);
    assert_eq!(lines.len(), 1);
    assert_eq!(entry(&lines[0]), (1120, 0, b" test LyRiC".as_slice()));

    let src = b"[00:10.254][00:10.254] sssxxx\nrestline";
    let (rest, lines) = parse_line(src).unwrap();
    assert_eq!(&src[rest..], b"restline");
    assert_eq!(lines.len(), 2);
    assert_eq!(entry(&lines[0]), (10254, 0, b" sssxxx".as_slice()));
    assert_eq!(entry(&lines[1]), (10254, 0, b" sssxxx".as_slice()));

    let (rest, lines) = parse_line(b"[01:10.1]").unwrap();
    assert_eq!(rest, 9);
    assert_eq!(lines.len(), 1);
    assert_eq!(entry(&lines[0]), (70100, 0, b"".as_slice()));
}

#[test]
fn lrc_bench_test() {
    let mut times = Vec::with_capacity(1024);
    for _ in 0..1024 {
        let t = std::time::Instant::now();
        let _l = parse_lrc(b"[00:01.12] test LyRiC");
        times.push(t.elapsed());
    }
    let times = times.into_iter().map(|x| x.as_micros()).collect::<Vec<_>>();
    println!("used {} us", times.iter().sum::<u128>());
    println!(
        "average {} us",
        times.iter().sum::<u128>() / times.len() as u128
    );
}

#[test]
fn single_entry_document() {
    let out = parse_lrc(b"[00:01.12] test LyRiC");
    assert_eq!(out.len(), 1);
    assert_eq!(entry(&out[0]), (1120, 1120, b" test LyRiC".as_slice()));
}

#[test]
fn repeated_tag_and_untimed_line() {
    let out = parse_lrc(b"[00:10.254][00:10.254] sssxxx\nrestline");
    assert_eq!(out.len(), 2);
    assert_eq!(entry(&out[0]), (10254, 10254, b" sssxxx".as_slice()));
    assert_eq!(entry(&out[1]), (10254, 10254, b" sssxxx".as_slice()));
}

#[test]
fn tag_with_empty_text() {
    let out = parse_lrc(b"[01:10.1]");
    assert_eq!(out.len(), 1);
    assert_eq!(entry(&out[0]), (70100, 70100, b"".as_slice()));
}

#[test]
fn empty_and_untimed_documents() {
    assert!(parse_lrc(b"").is_empty());
    assert!(parse_lrc(b"no tags here\n\n[broken\nla la la").is_empty());
}

#[test]
fn fraction_scaling() {
    assert_eq!(parse_time(b"[00:00.2]"), Some((9, 200)));
    assert_eq!(parse_time(b"[00:00.02]"), Some((10, 20)));
    assert_eq!(parse_time(b"[00:00.002]"), Some((11, 2)));
    assert_eq!(parse_time(b"[00:99.9]"), Some((9, 99900)));
}

#[test]
fn malformed_tags() {
    assert!(parse_time(b"00:01.12]").is_none());
    assert!(parse_time(b"[0001.12]").is_none());
    assert!(parse_time(b"[00:0112]").is_none());
    assert!(parse_time(b"[00:01.12").is_none());
    assert!(parse_time(b"[0a:01.12]").is_none());
    assert!(parse_time(b"[00:01.]").is_none());
    assert!(parse_time(b"[:01.1]").is_none());
    assert!(parse_time(b"").is_none());
}

#[test]
fn untimed_line_fails() {
    assert!(parse_line(b"just some words").is_none());
    assert!(parse_line(b"").is_none());
}

#[test]
fn sorting_and_end_times() {
    let out = parse_lrc(b"[00:02.0]b\n[00:01.0]a\n[00:03.0]c");
    assert_eq!(out.len(), 3);
    assert_eq!(entry(&out[0]), (1000, 2000, b"a".as_slice()));
    assert_eq!(entry(&out[1]), (2000, 3000, b"b".as_slice()));
    assert_eq!(entry(&out[2]), (3000, 3000, b"c".as_slice()));
}

#[test]
fn equal_starts_keep_document_order() {
    let out = parse_lrc(b"[00:01.0]first\n[00:01.0]second");
    assert_eq!(out.len(), 2);
    assert_eq!(entry(&out[0]), (1000, 1000, b"first".as_slice()));
    assert_eq!(entry(&out[1]), (1000, 1000, b"second".as_slice()));
}

#[test]
fn multiple_tags_sorted_apart() {
    let out = parse_lrc(b"[00:03.0][00:01.0]x\n[00:02.0]y");
    assert_eq!(out.len(), 3);
    assert_eq!(entry(&out[0]), (1000, 2000, b"x".as_slice()));
    assert_eq!(entry(&out[1]), (2000, 3000, b"y".as_slice()));
    assert_eq!(entry(&out[2]), (3000, 3000, b"x".as_slice()));
}

#[test]
fn untimed_lines_do_not_abort() {
    let out = parse_lrc(b"[ti:title]\n[00:01.0]a\nplain\n[00:02.0]b");
    assert_eq!(out.len(), 2);
    assert_eq!(entry(&out[0]), (1000, 2000, b"a".as_slice()));
    assert_eq!(entry(&out[1]), (2000, 2000, b"b".as_slice()));
}

#[test]
fn crlf_line_endings() {
    let out = parse_lrc(b"[00:01.0]a\r\n[00:02.0]b\r\n");
    assert_eq!(out.len(), 2);
    assert_eq!(entry(&out[0]), (1000, 2000, b"a".as_slice()));
    assert_eq!(entry(&out[1]), (2000, 2000, b"b".as_slice()));
}

#[test]
fn overlong_minutes_are_rejected() {
    // A tag whose offset cannot fit a machine word is treated as malformed.
    assert!(parse_time(b"[99999999999999999999:00.0]").is_none());
    assert_eq!(parse_time(b"[000000168:10.254]"), Some((18, 10090254)));
}
