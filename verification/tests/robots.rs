use robotparser_rs::{RequestRate, RobotFileParser};

fn parsed(text: &str) -> RobotFileParser {
    let mut rp = RobotFileParser::new("http://example.com/robots.txt");
    let lines: Vec<&str> = text.split('\n').collect();
    rp.parse(&lines);
    rp
}

#[test]
fn basic_allow_disallow() {
    let rp = parsed("User-agent: *\nDisallow: /private\nAllow: /private/ok");
    assert_eq!(rp.can_fetch("Bot", "http://example.com/public"), Ok(true));
    assert_eq!(rp.can_fetch("Bot", "http://example.com/private/x"), Ok(false));
    // First-match wins: /private matches before /private/ok is considered.
    assert_eq!(rp.can_fetch("Bot", "http://example.com/private/ok"), Ok(false));
}

#[test]
fn empty_disallow_allows_all() {
    let rp = parsed("User-agent: *\nDisallow:");
    assert_eq!(rp.can_fetch("Bot", "http://example.com/anything"), Ok(true));
}

#[test]
fn not_parsed_denies() {
    let rp = RobotFileParser::new("http://example.com/robots.txt");
    assert_eq!(rp.can_fetch("Bot", "http://example.com/"), Ok(false));
}

#[test]
fn agent_specific_overrides_default() {
    let rp = parsed("User-agent: BadBot\nDisallow: /\n\nUser-agent: *\nDisallow: /admin");
    assert_eq!(rp.can_fetch("BadBot", "http://example.com/x"), Ok(false));
    assert_eq!(rp.can_fetch("GoodBot", "http://example.com/x"), Ok(true));
    assert_eq!(rp.can_fetch("GoodBot", "http://example.com/admin"), Ok(false));
}

#[test]
fn crawl_delay_and_request_rate() {
    let rp = parsed("User-agent: *\nCrawl-delay: 10\nRequest-rate: 1/5");
    assert_eq!(rp.crawl_delay("Bot"), Some(10));
    assert_eq!(rp.request_rate("Bot"), Some(RequestRate { requests: 1, seconds: 5 }));
}

#[test]
fn sitemaps() {
    let rp = parsed("Sitemap: http://example.com/sitemap.xml\nUser-agent: *\nDisallow:");
    assert_eq!(rp.site_maps(), Some(&["http://example.com/sitemap.xml".to_string()][..]));
}
