use cns_rust::tools::{
    bytes_contains, bytes_contains2, find_from, find_subsequence, get_proxy_host, is_http_header,
    locate_proxy_host,
};

#[test]
fn bytes_contains_test() {
    assert!(bytes_contains(
        "Hello, world".as_bytes(),
        ", wor".as_bytes()
    ));
    assert!(bytes_contains("Hello, world".as_bytes(), ", ".as_bytes()));
    assert!(bytes_contains(
        "Hello, world".as_bytes(),
        "Hello".as_bytes()
    ));
    assert!(!bytes_contains("Hello, world".as_bytes(), "la".as_bytes()));
}

#[test]
fn get_proxy_host_test() {
    let buf = "Meng:   m.quanye.org\r\nla";
    assert!(get_proxy_host(buf.as_bytes()).unwrap().eq("m.quanye.org"));
    let buf = "abcMeng:   m.quanye.org\r\nla";
    assert!(get_proxy_host(buf.as_bytes()).unwrap().eq("m.quanye.org"));
    let buf = "abcMeng:   m.quanye.org\r\n\r\n";
    assert!(get_proxy_host(buf.as_bytes()).unwrap().eq("m.quanye.org"));
}

#[test]
fn bytes_contains_finds_a_match_that_overlaps_a_failed_one() {
    assert!(bytes_contains(b"aab", b"ab"));
    assert!(bytes_contains2(b"aab", b"ab"));
    assert!(bytes_contains(b"xhttpUhttpUDP", b"httpUDP"));
    assert!(bytes_contains2(b"xhttpUhttpUDP", b"httpUDP"));
}

#[test]
fn bytes_contains_edges() {
    assert!(bytes_contains(b"", b""));
    assert!(bytes_contains(b"abc", b""));
    assert!(!bytes_contains(b"", b"a"));
    assert!(!bytes_contains(b"ab", b"abc"));
    assert!(bytes_contains(b"abc", b"abc"));
    assert!(bytes_contains(b"abc", b"c"));
    assert!(bytes_contains2(b"", b""));
    assert!(bytes_contains2(b"abc", b""));
    assert!(!bytes_contains2(b"", b"a"));
    assert!(!bytes_contains2(b"ab", b"abc"));
    assert!(bytes_contains2(b"abc", b"abc"));
    assert!(bytes_contains2(b"abc", b"c"));
}

#[test]
fn both_searches_agree() {
    let hay = b"GET / HTTP/1.1\r\nMeng: abc\r\nUpgrade: WebSocket\r\n\r\n";
    for needle in [&b"WebSocket"[..], b"CON", b"httpUDP", b"\r\n\r\n", b"Meng:", b"G", b"\n", b"zz"] {
        assert_eq!(bytes_contains(hay, needle), bytes_contains2(hay, needle));
        assert_eq!(
            bytes_contains(hay, needle),
            hay.windows(needle.len()).any(|w| w == needle)
        );
    }
}

#[test]
fn find_subsequence_gives_the_first_index() {
    assert_eq!(find_subsequence(b"Hello, world", b", wor"), Some(5));
    assert_eq!(find_subsequence(b"abcabc", b"bc"), Some(1));
    assert_eq!(find_subsequence(b"abcabc", b"abc"), Some(0));
    assert_eq!(find_subsequence(b"abcabc", b"cab"), Some(2));
    assert_eq!(find_subsequence(b"abcabc", b"d"), None);
    assert_eq!(find_subsequence(b"abc", b""), Some(0));
    assert_eq!(find_subsequence(b"", b""), Some(0));
    assert_eq!(find_subsequence(b"", b"a"), None);
    assert_eq!(find_subsequence(b"ab", b"abc"), None);
}

#[test]
fn find_from_starts_where_it_is_told() {
    assert_eq!(find_from(b"abcabc", b"bc", 0), Some(1));
    assert_eq!(find_from(b"abcabc", b"bc", 1), Some(1));
    assert_eq!(find_from(b"abcabc", b"bc", 2), Some(4));
    assert_eq!(find_from(b"abcabc", b"bc", 5), None);
    assert_eq!(find_from(b"abcabc", b"bc", 100), None);
    assert_eq!(find_from(b"abc", b"", 3), Some(3));
    assert_eq!(find_from(b"abc", b"", 4), None);
}

#[test]
fn is_http_header_knows_every_method() {
    for verb in [
        "GET", "POST", "HEAD", "PUT", "COPY", "DELETE", "MOVE", "OPTIONS", "LINK", "UNLINK",
        "TRACE", "PATCH", "WRAPPED",
    ] {
        assert!(is_http_header(verb.as_bytes()));
        assert!(is_http_header(format!("{} / HTTP/1.1\r\n\r\n", verb).as_bytes()));
        assert!(!is_http_header(format!(" {}", verb).as_bytes()));
        assert!(!is_http_header(verb.to_lowercase().as_bytes()));
        assert!(!is_http_header(&verb.as_bytes()[..verb.len() - 1]));
    }
}

#[test]
fn is_http_header_rejects_other_beginnings() {
    assert!(!is_http_header(b""));
    assert!(!is_http_header(b"GE"));
    assert!(!is_http_header(b"CONNECT example.com:443 HTTP/1.1\r\n"));
    assert!(!is_http_header(b"\x05\x00\x00\x00\x00\x01"));
    assert!(!is_http_header(b"xGET"));
    assert!(!is_http_header(b"\r\nGET"));
    assert!(is_http_header(b"GETX"));
    assert!(is_http_header(b"PUT\xff\xfe"));
}

#[test]
fn is_http_header_agrees_with_the_method_pattern() {
    let pattern = regex::bytes::Regex::new(
        r"^GET|^POST|^HEAD|^PUT|^COPY|^DELETE|^MOVE|^OPTIONS|^LINK|^UNLINK|^TRACE|^PATCH|^WRAPPED",
    )
    .unwrap();
    let samples: [&[u8]; 16] = [
        b"",
        b"G",
        b"GET",
        b"GET / HTTP/1.1\r\n",
        b"POST /x",
        b"POS",
        b"HEADER",
        b"UNLINK /",
        b"LINK",
        b"UNLIN",
        b"WRAPPED\x00\x01",
        b"wrapped",
        b"\nGET",
        b"xx\nGET /",
        b"OPTIONS * HTTP/1.1",
        b"\xff\xfeGET",
    ];
    for sample in samples {
        assert_eq!(is_http_header(sample), pattern.is_match(sample));
    }
}

#[test]
fn get_proxy_host_needs_token_and_carriage_return() {
    assert_eq!(get_proxy_host(b""), None);
    assert_eq!(get_proxy_host(b"GET / HTTP/1.1\r\nHost: a\r\n\r\n"), None);
    assert_eq!(get_proxy_host(b"Meng: abc"), None);
    assert_eq!(get_proxy_host(b"Meng: abc\n"), None);
    assert_eq!(get_proxy_host(b"meng: abc\r\n"), None);
    assert_eq!(get_proxy_host(b"\rMeng: abc"), None);
    assert_eq!(get_proxy_host(b"Meng:"), None);
}

#[test]
fn get_proxy_host_reads_up_to_the_first_carriage_return() {
    assert_eq!(get_proxy_host(b"Meng: abc\rdef\r\n").as_deref(), Some("abc"));
    assert_eq!(get_proxy_host(b"Meng:abc\r").as_deref(), Some("abc"));
    assert_eq!(get_proxy_host(b"Meng:\r\n").as_deref(), Some(""));
    assert_eq!(get_proxy_host(b"Meng:   \r\n").as_deref(), Some(""));
    assert_eq!(get_proxy_host(b"Meng: a b \r\n").as_deref(), Some("a b "));
    assert_eq!(get_proxy_host(b"Meng: one\r\nMeng: two\r\n").as_deref(), Some("one"));
    assert_eq!(get_proxy_host(b"Meng: Meng: x\r\n").as_deref(), Some("Meng: x"));
}

#[test]
fn get_proxy_host_skips_blanks_but_no_carriage_return() {
    assert_eq!(get_proxy_host(b"Meng: \t\n\x0b\x0c abc\r\n").as_deref(), Some("abc"));
    assert_eq!(get_proxy_host(b"Meng: \r\nHost: x\r\n").as_deref(), Some(""));
    assert_eq!(get_proxy_host(b"Meng:\x00abc\r\n").as_deref(), Some("\x00abc"));
}

#[test]
fn get_proxy_host_wants_utf8() {
    assert_eq!(get_proxy_host(b"Meng: \xff\xfe\r\n"), None);
    assert_eq!(get_proxy_host(b"Meng: \xc3\r\n"), None);
    assert_eq!(get_proxy_host(b"Meng: \xed\xa0\x80\r\n"), None);
    assert_eq!(get_proxy_host("Meng: h\u{e9}te\r\n".as_bytes()).as_deref(), Some("h\u{e9}te"));
    assert_eq!(get_proxy_host(b"\xff\xffMeng: ok\r\xff").as_deref(), Some("ok"));
}

#[test]
fn locate_proxy_host_gives_the_span_of_the_value() {
    assert_eq!(locate_proxy_host(b"abcMeng:   m.quanye.org\r\nla"), Some((11, 23)));
    assert_eq!(locate_proxy_host(b"Meng:\r"), Some((5, 5)));
    assert_eq!(locate_proxy_host(b"Meng:  "), None);
    assert_eq!(locate_proxy_host(b"Men g: x\r"), None);
}

#[test]
fn get_proxy_host_agrees_with_the_header_pattern_on_plain_requests() {
    let pattern = regex::bytes::Regex::new(r"Meng:\s*(.*)\r").unwrap();
    let samples: [&[u8]; 5] = [
        b"Meng:   m.quanye.org\r\nla",
        b"abcMeng:   m.quanye.org\r\nla",
        b"abcMeng:   m.quanye.org\r\n\r\n",
        b"GET / HTTP/1.1\r\nMeng: YWJj\r\n",
        b"GET / HTTP/1.1\r\nHost: x\r\n\r\n",
    ];
    for sample in samples {
        let expected = pattern
            .captures(sample)
            .and_then(|c| c.get(1))
            .map(|m| String::from_utf8(m.as_bytes().to_vec()).unwrap());
        assert_eq!(get_proxy_host(sample), expected);
    }
}
