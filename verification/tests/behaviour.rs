use robotparser_rs::protocol::{dispatch, query_is_well_formed, request_is_well_formed, run_query};
use robotparser_rs::text::{format_i64, format_u64};
use robotparser_rs::url::{normalize_path, normalize, request_target};
use robotparser_rs::{RequestRate, RobotFileParser};

fn parsed(text: &str) -> RobotFileParser {
    let mut rp = RobotFileParser::new("http://example.com/robots.txt");
    let lines: Vec<&str> = text.split('\n').collect();
    rp.parse(&lines);
    rp
}

#[test]
fn readme_example() {
    let mut rp = RobotFileParser::new("http://example.com/robots.txt");
    rp.parse(&["User-agent: *", "Disallow: /private", "Allow: /private/ok", "Crawl-delay: 5"]);
    assert_eq!(rp.can_fetch("MyBot", "http://example.com/public"), Ok(true));
    assert_eq!(rp.can_fetch("MyBot", "http://example.com/private/x"), Ok(false));
    assert_eq!(rp.crawl_delay("MyBot"), Some(5));
}

#[test]
fn url_host_and_path_are_cached() {
    let rp = RobotFileParser::new("http://example.com/robots.txt");
    assert_eq!(rp.url(), "http://example.com/robots.txt");
    assert_eq!(rp.host(), "example.com");
    assert_eq!(rp.path(), "/robots.txt");
    assert!(!rp.mtime());
}

#[test]
fn malformed_robots_url_leaves_host_and_path_empty() {
    let mut rp = RobotFileParser::new("");
    rp.set_url("http://[::1/robots.txt");
    assert_eq!(rp.url(), "http://[::1/robots.txt");
    assert_eq!(rp.host(), "");
    assert_eq!(rp.path(), "");
}

#[test]
fn parse_and_modified_mark_parsed() {
    let mut rp = RobotFileParser::new("http://example.com/robots.txt");
    rp.modified();
    assert!(rp.mtime());
    let rp = parsed("");
    assert!(rp.mtime());
}

#[test]
fn malformed_url_is_an_error() {
    let rp = parsed("User-agent: *\nDisallow: /x");
    assert_eq!(
        rp.can_fetch("Bot", "http://[::1/x").unwrap_err().message,
        "Invalid IPv6 URL".to_string()
    );
    // before parsing the answer comes first
    let fresh = RobotFileParser::new("http://example.com/robots.txt");
    assert_eq!(fresh.can_fetch("Bot", "http://[::1/x"), Ok(false));
}

#[test]
fn first_catch_all_entry_is_the_default() {
    let rp = parsed("User-agent: *\nDisallow: /a\n\nUser-agent: *\nDisallow: /b");
    assert_eq!(rp.can_fetch("Bot", "http://example.com/a"), Ok(false));
    assert_eq!(rp.can_fetch("Bot", "http://example.com/b"), Ok(true));
}

#[test]
fn specific_entry_checked_before_default_wherever_it_stands() {
    let rp = parsed("User-agent: *\nDisallow: /\n\nUser-agent: FriendlyBot\nAllow: /");
    assert_eq!(rp.can_fetch("FriendlyBot/2.1", "http://example.com/x"), Ok(true));
    assert_eq!(rp.can_fetch("Other", "http://example.com/x"), Ok(false));
}

#[test]
fn agent_matching_is_case_insensitive_substring_of_token() {
    let rp = parsed("User-agent: figtree\nDisallow: /tmp");
    assert_eq!(rp.can_fetch("FigTree/1.0 Robot", "http://example.com/tmp/a"), Ok(false));
    assert_eq!(rp.can_fetch("MyFigTreeBot", "http://example.com/tmp/a"), Ok(false));
    // only the part before the first '/' is matched
    assert_eq!(rp.can_fetch("Robot/figtree", "http://example.com/tmp/a"), Ok(true));
}

#[test]
fn agent_without_rules_is_dropped_at_blank_line() {
    let rp = parsed("User-agent: A\n\nUser-agent: B\nDisallow: /");
    assert_eq!(rp.can_fetch("A", "http://example.com/x"), Ok(true));
    assert_eq!(rp.can_fetch("B", "http://example.com/x"), Ok(false));
}

#[test]
fn rules_before_any_agent_are_ignored() {
    let rp = parsed("Disallow: /\nUser-agent: *\nAllow: /");
    assert_eq!(rp.can_fetch("Bot", "http://example.com/x"), Ok(true));
}

#[test]
fn comments_whitespace_and_key_case() {
    let rp = parsed("  USER-AGENT :  *  # everyone\n\tdisallow:\t/p # private\nno colon here");
    assert_eq!(rp.can_fetch("Bot", "http://example.com/p/q"), Ok(false));
    assert_eq!(rp.can_fetch("Bot", "http://example.com/q"), Ok(true));
}

#[test]
fn star_rule_is_quoted_like_any_path() {
    // `*` is percent-encoded by normalization, so such a rule matches only paths that
    // start with `%2A`.
    let rp = parsed("User-agent: *\nDisallow: *");
    assert_eq!(rp.can_fetch("Bot", "http://example.com/anything"), Ok(true));
    assert_eq!(rp.can_fetch("Bot", "*abc"), Ok(false));
}

#[test]
fn paths_compared_after_normalization() {
    let rp = parsed("User-agent: *\nDisallow: /a%3cd.html\nDisallow: /~joe");
    assert_eq!(rp.can_fetch("Bot", "http://example.com/a<d.html"), Ok(false));
    assert_eq!(rp.can_fetch("Bot", "http://example.com/a%3Cd.html"), Ok(false));
    assert_eq!(rp.can_fetch("Bot", "http://example.com/%7Ejoe/index.html"), Ok(false));
}

#[test]
fn empty_url_path_is_root() {
    let rp = parsed("User-agent: *\nDisallow: /");
    assert_eq!(rp.can_fetch("Bot", "http://example.com"), Ok(false));
    assert_eq!(rp.can_fetch_components("Bot", "", "", ""), false);
}

#[test]
fn unknown_agent_without_default_is_allowed() {
    let rp = parsed("User-agent: Special\nDisallow: /");
    assert_eq!(rp.can_fetch("Other", "http://example.com/x"), Ok(true));
    assert_eq!(rp.crawl_delay("Other"), None);
    assert_eq!(rp.request_rate("Other"), None);
}

#[test]
fn bad_crawl_delay_and_request_rate_values_are_ignored() {
    let rp = parsed("User-agent: *\nCrawl-delay: 1.5\nRequest-rate: 3/x\nDisallow: /");
    assert_eq!(rp.crawl_delay("Bot"), None);
    assert_eq!(rp.request_rate("Bot"), None);
    let rp = parsed("User-agent: *\nCrawl-delay: 99999999999999999999\nRequest-rate: 1/2/3");
    assert_eq!(rp.crawl_delay("Bot"), None);
    assert_eq!(rp.request_rate("Bot"), None);
    let rp = parsed("User-agent: *\nRequest-rate:  7 / 60 ");
    assert_eq!(rp.request_rate("Bot"), Some(RequestRate { requests: 7, seconds: 60 }));
}

#[test]
fn delay_and_rate_unset_before_parsing() {
    let rp = RobotFileParser::new("http://example.com/robots.txt");
    assert_eq!(rp.crawl_delay("Bot"), None);
    assert_eq!(rp.request_rate("Bot"), None);
    assert_eq!(rp.site_maps(), None);
}

#[test]
fn sitemaps_collected_in_order_anywhere() {
    let rp = parsed("Sitemap: a\nUser-agent: x\nSitemap: b\nDisallow: /\n\nSitemap: c");
    let expected = vec!["a".to_string(), "b".to_string(), "c".to_string()];
    assert_eq!(rp.site_maps(), Some(&expected[..]));
}

#[test]
fn text_form() {
    let rp = parsed(
        "User-agent: *\nDisallow: /d\n\nUser-agent: A\nUser-agent: B\nCrawl-delay: 3\nRequest-rate: 1/5\nAllow: /x\nDisallow:",
    );
    assert_eq!(
        rp.to_string(),
        "User-agent: A\nUser-agent: B\nCrawl-delay: 3\nRequest-rate: 1/5\nAllow: /x\nAllow: \n\nUser-agent: *\nDisallow: /d"
    );
}

#[test]
fn normalization_values() {
    assert_eq!(normalize("/a%7e b"), "/a~%20b");
    assert_eq!(normalize("/%zz%4"), "/%25zz%254");
    assert_eq!(normalize("/caf\u{e9}"), "/caf%C3%A9");
    assert_eq!(normalize_path("/p?a b=c&&d%2f"), "/p?a%20b=c&&d/");
    assert_eq!(normalize_path("/p?x%3D1"), "/p?x%3D1");
    assert_eq!(normalize_path(""), "");
}

#[test]
fn normalization_is_idempotent_on_examples() {
    for p in ["/a b/%7E?x=%41&y", "/%%%", "/\u{e9}?q=\u{e9}=&", ""] {
        let once = normalize_path(p);
        assert_eq!(normalize_path(&once), once);
        let once = normalize(p);
        assert_eq!(normalize(&once), once);
    }
}

#[test]
fn request_path_rebuilds_relative_url() {
    assert_eq!(request_target("//a", "q", "f"), "////a?q%23f");
    assert_eq!(request_target("/x", "", ""), "/x");
    assert_eq!(request_target("", "", ""), "/");
}

#[test]
fn number_formatting() {
    assert_eq!(format_u64(0), "0");
    assert_eq!(format_u64(18446744073709551615), "18446744073709551615");
    assert_eq!(format_i64(-42), "-42");
    assert_eq!(format_i64(i64::MIN), "-9223372036854775808");
}

#[test]
fn protocol_round_trip() {
    let line = "User-agent: *\u{1f}Disallow: /p\u{1f}Crawl-delay: 4\u{1f}Sitemap: s1\tCF\u{1f}Bot\u{1f}http://example.com/p\tCF\u{1f}Bot\u{1f}http://[::1/\tCD\u{1f}Bot\tRR\u{1f}Bot\tSM\tSTR";
    assert!(request_is_well_formed(line));
    assert_eq!(
        dispatch(line),
        "False\u{1e}ERR\u{1e}4\u{1e}None\u{1e}s1\u{1e}User-agent: *\u{1f}Crawl-delay: 4\u{1f}Disallow: /p"
    );
}

#[test]
fn protocol_queries() {
    assert!(query_is_well_formed("SM"));
    assert!(!query_is_well_formed("CF\u{1f}Bot"));
    assert!(!query_is_well_formed("XX"));
    assert!(!request_is_well_formed("doc\tCD"));
    let rp = parsed("User-agent: *\nRequest-rate: 2/9");
    assert_eq!(run_query(&rp, "RR\u{1f}Bot"), "2/9");
    assert_eq!(run_query(&rp, "CF\u{1f}Bot\u{1f}http://example.com/"), "True");
}

#[test]
fn whitespace_set_agrees_with_std() {
    for n in 0u32..=0x10FFFF {
        if let Some(c) = char::from_u32(n) {
            assert_eq!(robotparser_rs::text::is_whitespace(c), c.is_whitespace(), "{n:#x}");
        }
    }
}

#[test]
fn parse_accepts_owned_lines() {
    let mut rp = RobotFileParser::new("http://example.com/robots.txt");
    let lines: Vec<String> = vec!["User-agent: *".to_string(), "Disallow: /x".to_string()];
    rp.parse(&lines);
    assert_eq!(rp.can_fetch("Bot", "http://example.com/x/y"), Ok(false));
}

#[test]
fn set_url_keeps_answers() {
    let mut rp = parsed("User-agent: *\nDisallow: /x\nCrawl-delay: 2\nSitemap: s");
    let before = (
        rp.can_fetch("Bot", "http://example.com/x"),
        rp.can_fetch("Bot", "http://[::1/"),
        rp.crawl_delay("Bot"),
        rp.to_string(),
    );
    rp.set_url("http://other.example/robots.txt");
    let after = (
        rp.can_fetch("Bot", "http://example.com/x"),
        rp.can_fetch("Bot", "http://[::1/"),
        rp.crawl_delay("Bot"),
        rp.to_string(),
    );
    assert_eq!(before, after);
    assert_eq!(rp.host(), "other.example");
}

#[test]
fn parsing_twice_is_parsing_joined_with_a_blank_line() {
    let mut p1 = RobotFileParser::new("http://example.com/robots.txt");
    p1.parse(&["User-agent: A", "Disallow: /a"]);
    p1.parse(&["Allow: /b", "User-agent: *", "Disallow: /c"]);
    let mut p2 = RobotFileParser::new("http://example.com/robots.txt");
    p2.parse(&["User-agent: A", "Disallow: /a", "", "Allow: /b", "User-agent: *", "Disallow: /c"]);
    assert_eq!(p1.to_string(), p2.to_string());
    for a in ["A", "B"] {
        for x in ["http://example.com/a", "http://example.com/b", "http://example.com/c"] {
            assert_eq!(p1.can_fetch(a, x), p2.can_fetch(a, x));
        }
    }
}

#[test]
fn inert_lines_change_nothing() {
    let full = parsed("User-agent: A\n# note\nHost: x\nnonsense\nSitemap: s\nDisallow: /a");
    let fewer = parsed("User-agent: A\nDisallow: /a");
    assert_eq!(full.to_string(), fewer.to_string());
    assert_eq!(
        full.can_fetch("A", "http://example.com/a"),
        fewer.can_fetch("A", "http://example.com/a")
    );
}
