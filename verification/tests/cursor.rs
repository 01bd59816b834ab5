use trie::experiment8_trie_cursor::cursor::{
    find_last_dot, make_match_patterns, HostIterator, HttpCursor, MatchPattern, MatchPatternType,
};
use trie::matcher::Matcher;

#[test]
fn host_iterator() {
    let mut h1 = HostIterator::new(&b"api.example.com"[..]);
    h1.advance(4);
    h1.advance(5);
    h1.advance(3);

    assert!(!h1.at_end());

    h1.advance(3);

    assert!(h1.at_end());
}

#[test]
fn prefix() {
    let mut h1 = HostIterator::new(&b"api.example.com"[..]);
    let prefix = &b".com"[..];
    assert_eq!(None, h1.match_prefix(prefix));
    if h1.len() >= prefix.len() {
        h1.advance(prefix.len());
    }
    assert!(!h1.at_end());

    let prefix = &b"xample"[..];
    assert_eq!(None, h1.match_prefix(prefix));
    if h1.len() >= prefix.len() {
        h1.advance(prefix.len());
    }
    assert!(!h1.at_end());

    let prefix = &b".e"[..];
    assert_eq!(None, h1.match_prefix(prefix));
    if h1.len() >= prefix.len() {
        h1.advance(prefix.len());
    }
    assert!(!h1.at_end());

    assert!(h1.match_sni_wildcard());
}

#[test]
fn regex() {
    let mut h1 = HostIterator::new(&b"js.cdn1.example.com"[..]);
    let prefix = &b".example.com"[..];
    assert_eq!(None, h1.match_prefix(prefix));
    if h1.len() >= prefix.len() {
        h1.advance(prefix.len());
    }
    assert!(!h1.at_end());

    let r = Matcher::new("cdn[0-9]+").unwrap();
    assert_eq!(Some(4), h1.match_regex(&r));

    h1.advance(4);

    let prefix = &b"js."[..];
    assert_eq!(None, h1.match_prefix(prefix));
    if h1.len() >= prefix.len() {
        h1.advance(prefix.len());
    }
    assert!(h1.at_end());
}

#[test]
fn next_pattern() {
    let mut c = HttpCursor::new(&b"cdn12.example.com"[..], &b"/hello/world"[..]);
    let pat = c.next_pattern().unwrap();
    assert_eq!(pat, (17, MatchPattern::Prefix(b"cdn12.example.com".to_vec())));

    c.advance(17);
    let pat = c.next_pattern().unwrap();
    assert_eq!(pat, (12, MatchPattern::Prefix(b"/hello/world".to_vec())));

    let mut c2 = HttpCursor::new(&b"*.example.com"[..], &b"~/(abc|def)"[..]);
    let pat = c2.next_pattern().unwrap();
    assert_eq!(pat, (12, MatchPattern::Prefix(b".example.com".to_vec())));

    c2.advance(12);
    let pat = c2.next_pattern().unwrap();
    assert_eq!(pat, (1, MatchPattern::SniWildcard));

    c2.advance(1);
    let pat = c2.next_pattern().unwrap();
    assert_eq!(pat, (10, MatchPattern::Regex(Matcher::new("/(abc|def)").unwrap())));
}

#[test]
fn patterns() {
    let c = HttpCursor::new(&b"cdn12.example.com"[..], &b"/hello/world"[..]);

    let patterns = make_match_patterns(&b"cdn12.example.com"[..], Some(&b"/"[..]), None).unwrap();
    let mut c1 = c.clone();
    for pattern in patterns.iter() {
        assert!(c1.match_pattern(pattern));
    }
    assert!(!c1.in_host());
    assert_eq!(c1.current_slice(), &b"hello/world"[..]);

    let patterns =
        make_match_patterns(&b"*.example.com"[..], None, Some("^/h(ello|allo)")).unwrap();
    let mut c2 = c.clone();
    for pattern in patterns.iter() {
        assert!(c2.match_pattern(pattern));
    }
    assert!(!c2.in_host());
    assert_eq!(c2.current_slice(), &b"/hello/world"[..]);

    let patterns =
        make_match_patterns(&b"/cdn[a-z0-9]+/.example.com"[..], None, Some("^/h(ello|allo)"))
            .unwrap();
    let mut c3 = c.clone();
    for pattern in patterns.iter() {
        assert!(c3.match_pattern(pattern));
    }
    assert!(!c3.in_host());
    assert_eq!(c3.current_slice(), &b"/hello/world"[..]);
}

#[test]
fn patterns_by_label() {
    let patterns = make_match_patterns(b"cdn./a[0-9]*/.example.com", None, None).unwrap();
    assert_eq!(patterns.len(), 5);
    assert_eq!(patterns[0], MatchPattern::Prefix(b".com".to_vec()));
    assert_eq!(patterns[1], MatchPattern::Prefix(b".example".to_vec()));
    assert_eq!(patterns[2], MatchPattern::Regex(Matcher::new("a[0-9]*").unwrap()));
    assert_eq!(patterns[3], MatchPattern::Prefix(b".".to_vec()));
    assert_eq!(patterns[4], MatchPattern::Prefix(b"cdn".to_vec()));

    let mut c = HttpCursor::new(b"cdn.a7.example.com", b"/");
    for pattern in patterns.iter() {
        assert!(c.match_pattern(pattern));
    }
    assert!(!c.in_host());

    assert!(make_match_patterns(b"", None, None).is_none());
    assert!(make_match_patterns(b"a.com", Some(b"/"), Some("^/")).is_none());
    assert!(make_match_patterns(b"a*.com", None, None).is_none());
    assert!(make_match_patterns(b"a/.com", None, None).is_none());
    assert!(make_match_patterns(b"/(/.com", None, None).is_none());
    assert!(make_match_patterns(b"a.com", None, Some("(")).is_none());
}

#[test]
fn last_dot_is_found() {
    assert_eq!(find_last_dot(b"api.example.com"), Some(11));
    assert_eq!(find_last_dot(b"."), Some(0));
    assert_eq!(find_last_dot(b"localhost"), None);
    assert_eq!(find_last_dot(b""), None);
}

#[test]
fn cursor_advances_across_the_boundary() {
    let mut c = HttpCursor::new(b"a.b", b"/xy");
    assert!(!c.at_end());
    assert!(c.advance(2));
    assert!(c.in_host());
    assert_eq!(c.current_slice(), b"a");
    assert_eq!(c.next_char(), b'a');
    assert!(c.advance(2));
    assert!(!c.in_host());
    assert_eq!(c.current_slice(), b"xy");
    assert!(!c.advance(3));
    assert_eq!(c.current_slice(), b"xy");
    assert!(c.advance(2));
    assert!(c.at_end());
    assert!(c.next_pattern().is_none());
}

#[test]
fn cursor_classifies_what_comes_next() {
    let c = HttpCursor::new(b"*.example.com", b"~^/a");
    assert_eq!(c.next_pattern_type(), MatchPatternType::Prefix(b'm'));
    assert!(c.is_next_pattern_prefix());
    let mut c = c;
    assert!(c.advance(12));
    assert_eq!(c.next_pattern_type(), MatchPatternType::SniWildcard);
    assert!(c.is_next_pattern_wildcard());
    assert!(!c.is_next_pattern_regex());
    assert!(c.advance(1));
    assert_eq!(c.next_pattern_type(), MatchPatternType::Regex);
    assert!(c.is_next_pattern_regex());
    assert!(!c.is_next_pattern_wildcard());

    let h = HostIterator::new(b"js./cdn[0-9]+/");
    assert_eq!(h.next_pattern_type(), MatchPatternType::Regex);
    assert!(h.is_next_pattern_regex());
    assert!(!h.is_next_pattern_prefix());
    assert!(!h.is_next_pattern_wildcard());
    assert_eq!(
        h.next_pattern(),
        Some((11, MatchPattern::Regex(Matcher::new("cdn[0-9]+").unwrap())))
    );
    assert_eq!(h.next_char(), b'/');
    assert_eq!(h.match_next_char(b"ab/"), Some(2));
    assert_eq!(h.match_next_char(b"ab"), None);
    assert!(HostIterator::new(b"a/").next_pattern().is_none());
    assert!(HostIterator::new(b"/(/").next_pattern().is_none());
}

#[test]
fn cursor_matches_prefixes() {
    let mut c = HttpCursor::new(b"api.example.com", b"/v1/users");
    assert!(!c.match_prefix(b".org"));
    assert_eq!(c.current_slice(), b"api.example.com");
    assert!(c.match_prefix(b".com"));
    assert_eq!(c.current_slice(), b"api.example");
    assert_eq!(c.match_prefix_position(b"www.example"), Some(8));
    assert_eq!(c.current_slice(), b"api");
    assert!(c.match_sni_wildcard());
    assert!(!c.in_host());
    assert!(!c.match_sni_wildcard());
    assert_eq!(c.match_prefix_position(b"/v2"), Some(2));
    assert_eq!(c.current_slice(), b"1/users");
    assert!(c.match_prefix(b"1/"));
    assert_eq!(c.match_prefix_position(b"users/more"), None);
    assert!(c.at_end());

    let mut h = HostIterator::new(b"api.example.com");
    assert_eq!(h.match_prefix(b".org"), Some(0));
    assert_eq!(h.match_prefix(b"x.com"), Some(4));
    assert_eq!(h.match_prefix_position(b"x.com"), Some(4));
    assert_eq!(h.host, b"api.example");
    assert!(!h.match_sni_wildcard());

    let mut w = HttpCursor::new(b"b.a", b"/");
    assert!(!w.match_sni_wildcard());
    assert!(w.match_regex(&Matcher::new("^a$").unwrap()));
    assert_eq!(w.current_slice(), b"b.");
    assert!(!w.match_regex(&Matcher::new("^b$").unwrap()));
    assert_eq!(w.match_run(b".bx"), 2);
    assert!(w.match_regex(&Matcher::new("^/$").unwrap()));
    assert_eq!(w.current_slice(), b"/");
}
