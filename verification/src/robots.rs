//! The parser: reading a robots.txt file and answering `can_fetch`, `crawl_delay`,
//! `request_rate` and `site_maps`.

use vstd::prelude::*;

use crate::model::{
    add_entry, after_blank, agent_applies, agent_token, apply_directive, delay_for, delay_value,
    directive, empty_entry, empty_parser, entry_applies, fetch_outcome, first_match, is_catch_all,
    parse_document, parse_line, parse_lines, parse_start, path_allowed, rate_for, rate_value,
    rule_applies, rule_model, select_entry, selected_entry, well_formed, with_url, EntryModel,
    ParseState, ParserModel, RequestRate, RuleModel,
};
use crate::text::{
    char_pos, chars_of, contains, contains_text, find_char, has_prefix, is_text, lemma_map_push, lowercase_chars,
    parse_decimal, slice_of, str_eq, string_of, trim_chars, unicode_lowercase,
};
use crate::url::{
    canonical_path, invalid_url, normalize_path, request_path, request_target, urlsplit, InvalidUrl,
};

verus! {

/// The first rule that applies decides, and with no such rule the path is allowed.
proof fn lemma_first_match_decided(rules: Seq<RuleModel>, filename: Seq<char>)
    ensures
        forall|k: int|
            0 <= k < rules.len() && rule_applies(rules[k], filename) && (forall|j: int|
                0 <= j < k ==> !rule_applies(#[trigger] rules[j], filename)) ==> first_match(
                rules,
                filename,
            ) == rules[k].allowance,
        (forall|j: int| 0 <= j < rules.len() ==> !rule_applies(#[trigger] rules[j], filename))
            ==> first_match(rules, filename),
{
    assert forall|k: int|
        0 <= k < rules.len() && rule_applies(rules[k], filename) && (forall|j: int|
            0 <= j < k ==> !rule_applies(#[trigger] rules[j], filename)) implies first_match(
        rules,
        filename,
    ) == rules[k].allowance by {
        crate::laws::law_first_applicable_rule_decides(rules, filename, k);
    }
    if forall|j: int| 0 <= j < rules.len() ==> !rule_applies(#[trigger] rules[j], filename) {
        crate::laws::law_no_applicable_rule_allows(rules, filename);
    }
}

/// A single `Allow:`/`Disallow:` rule.
#[derive(Debug, Clone)]
struct RuleLine {
    path: String,
    allowance: bool,
}

impl View for RuleLine {
    type V = RuleModel;

    closed spec fn view(&self) -> RuleModel {
        RuleModel { path: self.path@, allowance: self.allowance }
    }
}

impl RuleLine {
    /// The rule for an `Allow:` (`allowance`) or `Disallow:` line with value `path`.
    fn new(path: &str, allowance: bool) -> (res: RuleLine)
        ensures
            res@ == rule_model(path@, allowance),
            res@.path == canonical_path(path@),
            res@.allowance == (allowance || path@.len() == 0),
    {
        // An empty `Disallow:` value means allow all.
        let allowance = if path.is_empty() && !allowance {
            true
        } else {
            allowance
        };
        RuleLine { path: normalize_path(path), allowance }
    }

    /// Whether this rule applies to `filename`.
    fn applies_to(&self, filename: &Vec<char>) -> (res: bool)
        ensures
            res == rule_applies(self@, filename@),
    {
        let path = chars_of(self.path.as_str());
        is_text(&path, "*") || has_prefix(filename, &path)
    }
}

/// One or more user-agents and their rules, delay and rate.
#[derive(Debug, Clone)]
struct Entry {
    useragents: Vec<String>,
    rulelines: Vec<RuleLine>,
    delay: Option<i64>,
    req_rate: Option<RequestRate>,
}

impl View for Entry {
    type V = EntryModel;

    closed spec fn view(&self) -> EntryModel {
        EntryModel {
            useragents: self.useragents@.map_values(|a: String| a@),
            rulelines: self.rulelines@.map_values(|r: RuleLine| r@),
            delay: self.delay,
            req_rate: self.req_rate,
        }
    }
}

/// The model of an optional entry.
spec fn entry_option(e: Option<Entry>) -> Option<EntryModel> {
    match e {
        Some(e) => Some(e@),
        None => None,
    }
}

impl Entry {
    /// An entry with nothing in it.
    fn empty() -> (res: Entry)
        ensures
            res@ == empty_entry(),
    {
        let res = Entry { useragents: Vec::new(), rulelines: Vec::new(), delay: None, req_rate: None };
        assert(res@.useragents =~= Seq::<Seq<char>>::empty());
        assert(res@.rulelines =~= Seq::<RuleModel>::empty());
        res
    }

    /// Whether this entry applies to `useragent`: the agent token (before the first
    /// `/`, lowercased) contains one of the entry's agents, lowercased, or the entry has
    /// the catch-all `*`.
    fn applies_to(&self, useragent: &str) -> (res: bool)
        ensures
            res == entry_applies(self@, useragent@),
            res == exists|i: int|
                0 <= i < self@.useragents.len() && (self@.useragents[i] == "*"@ || contains_text(
                    unicode_lowercase(useragent@.take(char_pos(useragent@, '/') as int)),
                    unicode_lowercase(self@.useragents[i]),
                )),
    {
        let ua = chars_of(useragent);
        let slash = find_char(&ua, '/');
        let head = slice_of(&ua, 0, slash);
        let token = lowercase_chars(&head);
        assert(token@ == agent_token(useragent@));
        let mut i: usize = 0;
        while i < self.useragents.len()
            invariant
                i <= self.useragents.len(),
                token@ == agent_token(useragent@),
                forall|j: int|
                    0 <= j < i ==> !agent_applies(#[trigger] self@.useragents[j], useragent@),
            decreases self.useragents.len() - i,
        {
            let agent = chars_of(self.useragents[i].as_str());
            assert(agent@ == self@.useragents[i as int]);
            if is_text(&agent, "*") {
                return true;
            }
            let lowered = lowercase_chars(&agent);
            if contains(&token, &lowered) {
                return true;
            }
            i += 1;
        }
        false
    }

    /// The allowance of the first rule that matches `filename`; allowed when none does.
    fn allowance(&self, filename: &Vec<char>) -> (res: bool)
        ensures
            res == first_match(self@.rulelines, filename@),
            forall|k: int|
                0 <= k < self@.rulelines.len() && rule_applies(self@.rulelines[k], filename@) && (
                forall|j: int|
                    0 <= j < k ==> !rule_applies(#[trigger] self@.rulelines[j], filename@)) ==> res
                    == self@.rulelines[k].allowance,
            (forall|j: int|
                0 <= j < self@.rulelines.len() ==> !rule_applies(
                    #[trigger] self@.rulelines[j],
                    filename@,
                )) ==> res,
    {
        proof {
            lemma_first_match_decided(self@.rulelines, filename@);
        }
        let mut i: usize = 0;
        assert(self@.rulelines.skip(0) =~= self@.rulelines);
        while i < self.rulelines.len()
            invariant
                i <= self.rulelines.len(),
                first_match(self@.rulelines, filename@) == first_match(
                    self@.rulelines.skip(i as int),
                    filename@,
                ),
            decreases self.rulelines.len() - i,
        {
            proof {
                assert(self@.rulelines.skip(i as int).drop_first() =~= self@.rulelines.skip(
                    i + 1,
                ));
                assert(self@.rulelines.skip(i as int)[0] == self.rulelines[i as int]@);
            }
            if self.rulelines[i].applies_to(filename) {
                proof {
                    lemma_first_match_decided(self@.rulelines, filename@);
                }
                return self.rulelines[i].allowance;
            }
            i += 1;
        }
        true
    }

    /// Whether this entry names the catch-all agent `*`.
    fn is_catch_all(&self) -> (res: bool)
        ensures
            res == is_catch_all(self@),
    {
        let mut i: usize = 0;
        while i < self.useragents.len()
            invariant
                i <= self.useragents.len(),
                forall|j: int| 0 <= j < i ==> self@.useragents[j] != "*"@,
            decreases self.useragents.len() - i,
        {
            if str_eq(self.useragents[i].as_str(), "*") {
                assert(self@.useragents[i as int] == "*"@);
                return true;
            }
            i += 1;
        }
        false
    }
}

/// Reads, parses and answers questions about a single robots.txt file.
#[derive(Debug, Clone)]
pub struct RobotFileParser {
    entries: Vec<Entry>,
    sitemaps: Vec<String>,
    default_entry: Option<Entry>,
    disallow_all: bool,
    allow_all: bool,
    url: String,
    host: String,
    path: String,
    // Only whether a file has been parsed is tracked, not when.
    last_checked: bool,
}

impl View for RobotFileParser {
    type V = ParserModel;

    closed spec fn view(&self) -> ParserModel {
        ParserModel {
            entries: self.entries@.map_values(|e: Entry| e@),
            sitemaps: self.sitemaps@.map_values(|s: String| s@),
            default_entry: entry_option(self.default_entry),
            disallow_all: self.disallow_all,
            allow_all: self.allow_all,
            url: self.url@,
            host: self.host@,
            path: self.path@,
            last_checked: self.last_checked,
        }
    }
}

impl Default for RobotFileParser {
    /// A parser with no URL and nothing parsed.
    fn default() -> (res: RobotFileParser)
        ensures
            res@ == empty_parser(),
            well_formed(res@),
    {
        let res = RobotFileParser {
            entries: Vec::new(),
            sitemaps: Vec::new(),
            default_entry: None,
            disallow_all: false,
            allow_all: false,
            url: String::new(),
            host: String::new(),
            path: String::new(),
            last_checked: false,
        };
        assert(res@.entries =~= Seq::<EntryModel>::empty());
        assert(res@.sitemaps =~= Seq::<Seq<char>>::empty());
        res
    }
}

impl RobotFileParser {
    /// A parser for the robots.txt at `url` (pass `""` for none).
    pub fn new(url: &str) -> (res: RobotFileParser)
        ensures
            res@ == with_url(empty_parser(), url@),
            well_formed(res@),
    {
        let mut rp = RobotFileParser::default();
        rp.set_url(url);
        rp
    }

    /// Whether a file has been parsed yet.
    pub fn mtime(&self) -> (res: bool)
        ensures
            res == self@.last_checked,
    {
        self.last_checked
    }

    /// Marks the file as just parsed.
    pub fn modified(&mut self)
        ensures
            final(self)@ == (ParserModel { last_checked: true, ..old(self)@ }),
            well_formed(old(self)@) ==> well_formed(final(self)@),
    {
        self.last_checked = true;
    }

    /// Sets the robots.txt URL, caching its host and path; a malformed authority leaves
    /// both empty.
    pub fn set_url(&mut self, url: &str)
        ensures
            final(self)@ == with_url(old(self)@, url@),
            well_formed(old(self)@) ==> well_formed(final(self)@),
    {
        self.url = url.to_owned();
        let empty = "";
        proof {
            reveal_strlit("");
            assert(empty@ =~= Seq::<char>::empty());
        }
        match urlsplit(url, empty, true) {
            Ok(parts) => {
                self.host = parts.netloc;
                self.path = parts.path;
            },
            Err(_) => {
                self.host = String::new();
                self.path = String::new();
            },
        }
    }

    /// The robots.txt URL.
    pub fn url(&self) -> (res: &str)
        ensures
            res@ == self@.url,
    {
        self.url.as_str()
    }

    /// The host of the robots.txt URL.
    pub fn host(&self) -> (res: &str)
        ensures
            res@ == self@.host,
    {
        self.host.as_str()
    }

    /// The path of the robots.txt URL.
    pub fn path(&self) -> (res: &str)
        ensures
            res@ == self@.path,
    {
        self.path.as_str()
    }

    /// Adds a finished entry: the first catch-all entry becomes the default, later ones
    /// are dropped, and any other entry is appended.
    fn add_entry(&mut self, entry: Entry)
        ensures
            final(self)@ == add_entry(old(self)@, entry@),
            is_catch_all(entry@) ==> final(self)@.entries == old(self)@.entries
                && final(self)@.default_entry == (if old(self)@.default_entry is Some {
                old(self)@.default_entry
            } else {
                Some(entry@)
            }),
            !is_catch_all(entry@) ==> final(self)@.entries == old(self)@.entries.push(entry@)
                && final(self)@.default_entry == old(self)@.default_entry,
            final(self)@.sitemaps == old(self)@.sitemaps,
            final(self)@.url == old(self)@.url,
            final(self)@.host == old(self)@.host,
            final(self)@.path == old(self)@.path,
            final(self)@.disallow_all == old(self)@.disallow_all,
            final(self)@.allow_all == old(self)@.allow_all,
            final(self)@.last_checked == old(self)@.last_checked,
    {
        if entry.is_catch_all() {
            if self.default_entry.is_none() {
                self.default_entry = Some(entry);
            }
        } else {
            self.entries.push(entry);
            assert(self@.entries =~= old(self)@.entries.push(entry@));
        }
    }
}

/// The key (trimmed, lowercased) and value (trimmed) of a raw line, once its comment is
/// cut off and it is trimmed; `None` when it has no `:`.
fn directive_of(raw: &str) -> (res: Option<(Vec<char>, Vec<char>)>)
    ensures
        match res {
            Some((key, value)) => directive(raw@) == Some((key@, value@)),
            None => directive(raw@) is None,
        },
{
    let chars = chars_of(raw);
    let hash = find_char(&chars, '#');
    let before = slice_of(&chars, 0, hash);
    assert(before@ =~= raw@.take(char_pos(raw@, '#') as int));
    let line = trim_chars(&before);
    let colon = find_char(&line, ':');
    if line.len() == 0 || colon == line.len() {
        return None;
    }
    let key_part = slice_of(&line, 0, colon);
    assert(key_part@ =~= line@.take(colon as int));
    let key = lowercase_chars(&trim_chars(&key_part));
    let value_part = slice_of(&line, colon + 1, line.len());
    assert(value_part@ =~= line@.skip(colon + 1));
    let value = trim_chars(&value_part);
    Some((key, value))
}

/// The crawl delay that a `Crawl-delay:` value gives.
fn delay_of(value: &Vec<char>) -> (res: Option<i64>)
    ensures
        res == delay_value(value@),
{
    match parse_decimal(value, 9223372036854775807u64) {
        Some(n) => Some(n as i64),
        None => None,
    }
}

/// The request rate that a `Request-rate:` value gives.
fn rate_of(value: &Vec<char>) -> (res: Option<RequestRate>)
    ensures
        res == rate_value(value@),
{
    let slash = find_char(value, '/');
    if slash == value.len() {
        return None;
    }
    let rest = slice_of(value, slash + 1, value.len());
    assert(rest@ =~= value@.skip(slash + 1));
    if find_char(&rest, '/') < rest.len() {
        return None;
    }
    let head = slice_of(value, 0, slash);
    assert(head@ =~= value@.take(slash as int));
    let requests = trim_chars(&head);
    let seconds = trim_chars(&rest);
    match (parse_decimal(&requests, 18446744073709551615u64), parse_decimal(&seconds, 18446744073709551615u64)) {
        (Some(r), Some(s)) => Some(RequestRate { requests: r, seconds: s }),
        _ => None,
    }
}

/// The model of the parse state held in these variables.
spec fn state_of(m: ParserModel, state: u8, entry: Entry) -> ParseState {
    ParseState { model: m, state: state, entry: entry@ }
}

/// A line of a robots.txt file as handed to `parse`: a string slice or an owned
/// string.
pub trait LineText {
    /// The characters of the line.
    spec fn text(&self) -> Seq<char>;

    /// The line as a string slice.
    fn as_text(&self) -> (res: &str)
        ensures
            res@ == self.text(),
    ;
}

impl<'a> LineText for &'a str {
    open spec fn text(&self) -> Seq<char> {
        (*self)@
    }

    fn as_text(&self) -> (res: &str) {
        *self
    }
}

impl LineText for String {
    open spec fn text(&self) -> Seq<char> {
        self@
    }

    fn as_text(&self) -> (res: &str) {
        self.as_str()
    }
}

/// The lines of a file as character sequences.
pub open spec fn lines_model<S: LineText>(lines: &[S]) -> Seq<Seq<char>> {
    lines@.map_values(|l: S| l.text())
}

impl RobotFileParser {
    /// Ends the entry being built and adds it; leaves an empty one.
    fn finish_entry(&mut self, entry: &mut Entry)
        ensures
            final(self)@ == add_entry(old(self)@, old(entry)@),
            final(entry)@ == empty_entry(),
    {
        let mut done = Entry::empty();
        std::mem::swap(entry, &mut done);
        self.add_entry(done);
    }

    /// Applies a line with a key and a value.
    fn apply_directive(&mut self, state: &mut u8, entry: &mut Entry, key: &Vec<char>, value: &Vec<char>)
        ensures
            state_of(final(self)@, *final(state), *final(entry)) == apply_directive(
                state_of(old(self)@, *old(state), *old(entry)),
                key@,
                value@,
            ),
    {
        if is_text(key, "user-agent") {
            if *state == 2 {
                self.finish_entry(entry);
            }
            let agent = string_of(value, 0, value.len());
            assert(agent@ =~= value@);
            let ghost before = entry@;
            entry.useragents.push(agent);
            assert(entry@.useragents =~= before.useragents.push(value@));
            *state = 1;
        } else if is_text(key, "disallow") {
            if *state != 0 {
                let v = string_of(value, 0, value.len());
                assert(v@ =~= value@);
                let ghost before = entry@;
                entry.rulelines.push(RuleLine::new(v.as_str(), false));
                assert(entry@.rulelines =~= before.rulelines.push(rule_model(value@, false)));
                *state = 2;
            }
        } else if is_text(key, "allow") {
            if *state != 0 {
                let v = string_of(value, 0, value.len());
                assert(v@ =~= value@);
                let ghost before = entry@;
                entry.rulelines.push(RuleLine::new(v.as_str(), true));
                assert(entry@.rulelines =~= before.rulelines.push(rule_model(value@, true)));
                *state = 2;
            }
        } else if is_text(key, "crawl-delay") {
            if *state != 0 {
                match delay_of(value) {
                    Some(n) => {
                        entry.delay = Some(n);
                    },
                    None => {},
                }
                *state = 2;
            }
        } else if is_text(key, "request-rate") {
            if *state != 0 {
                match rate_of(value) {
                    Some(r) => {
                        entry.req_rate = Some(r);
                    },
                    None => {},
                }
                *state = 2;
            }
        } else if is_text(key, "sitemap") {
            let v = string_of(value, 0, value.len());
            assert(v@ =~= value@);
            let ghost before = self@;
            self.sitemaps.push(v);
            assert(self@.sitemaps =~= before.sitemaps.push(value@));
        }
    }

    /// Applies one raw line.
    fn parse_line(&mut self, state: &mut u8, entry: &mut Entry, raw: &str)
        ensures
            state_of(final(self)@, *final(state), *final(entry)) == parse_line(
                state_of(old(self)@, *old(state), *old(entry)),
                raw@,
            ),
    {
        if raw.is_empty() {
            if *state == 1 {
                *entry = Entry::empty();
                *state = 0;
            } else if *state == 2 {
                self.finish_entry(entry);
                *state = 0;
            }
        }
        assert(state_of(self@, *state, *entry) == after_blank(
            state_of(old(self)@, *old(state), *old(entry)),
            raw@,
        ));
        match directive_of(raw) {
            Some((key, value)) => {
                self.apply_directive(state, entry, &key, &value);
            },
            None => {},
        }
    }

    /// Parses the lines of a robots.txt file (already split into lines, without line
    /// ends).
    pub fn parse<S: LineText>(&mut self, lines: &[S])
        ensures
            final(self)@ == parse_document(old(self)@, lines_model(lines)),
            well_formed(old(self)@) ==> well_formed(final(self)@),
    {
        proof {
            if well_formed(self@) {
                crate::laws::law_parse_well_formed(self@, lines_model(lines));
            }
        }
        // states: 0 start, 1 saw user-agent, 2 saw a rule line
        let mut state: u8 = 0;
        let mut entry = Entry::empty();
        self.modified();
        let ghost all = lines_model(lines);
        let mut i: usize = 0;
        assert(all.skip(0) =~= all);
        while i < lines.len()
            invariant
                i <= lines.len(),
                all == lines_model(lines),
                parse_lines(parse_start(old(self)@), all) == parse_lines(
                    state_of(self@, state, entry),
                    all.skip(i as int),
                ),
            decreases lines.len() - i,
        {
            proof {
                assert(all.skip(i as int).drop_first() =~= all.skip(i + 1));
                assert(all.skip(i as int)[0] == lines@[i as int].text());
            }
            self.parse_line(&mut state, &mut entry, lines[i].as_text());
            i += 1;
        }
        assert(all.skip(lines.len() as int) =~= Seq::<Seq<char>>::empty());
        if state == 2 {
            self.add_entry(entry);
        }
    }
}

impl RobotFileParser {
    /// The entry that answers for `useragent`: the first specific entry that applies,
    /// else the default entry.
    fn select(&self, useragent: &str) -> (res: Option<&Entry>)
        ensures
            match res {
                Some(e) => selected_entry(self@, useragent@) == Some(e@),
                None => selected_entry(self@, useragent@) is None,
            },
    {
        let ghost entries = self@.entries;
        let mut i: usize = 0;
        assert(entries.skip(0) =~= entries);
        while i < self.entries.len()
            invariant
                i <= self.entries.len(),
                entries == self@.entries,
                selected_entry(self@, useragent@) == select_entry(
                    entries.skip(i as int),
                    self@.default_entry,
                    useragent@,
                ),
            decreases self.entries.len() - i,
        {
            proof {
                assert(entries.skip(i as int).drop_first() =~= entries.skip(i + 1));
                assert(entries.skip(i as int)[0] == self.entries[i as int]@);
            }
            if self.entries[i].applies_to(useragent) {
                return Some(&self.entries[i]);
            }
            i += 1;
        }
        assert(entries.skip(i as int) =~= Seq::<EntryModel>::empty());
        match &self.default_entry {
            Some(e) => Some(e),
            None => None,
        }
    }

    /// Decides whether `useragent` may fetch `url`. Before a file is parsed nothing is
    /// allowed; `Err`, carrying `urlsplit`'s message, only when the URL's authority is
    /// malformed.
    pub fn can_fetch(&self, useragent: &str, url: &str) -> (res: Result<bool, InvalidUrl>)
        ensures
            match fetch_outcome(self@, useragent@, url@) {
                Ok(allowed) => res == Ok::<bool, InvalidUrl>(allowed),
                Err(message) => res matches Err(e) && e.message@ == message,
            },
    {
        if self.disallow_all {
            return Ok(false);
        }
        if self.allow_all {
            return Ok(true);
        }
        // Until the file has been parsed, assume nothing is allowed.
        if !self.last_checked {
            return Ok(false);
        }
        let empty = "";
        proof {
            reveal_strlit("");
            assert(empty@ =~= Seq::<char>::empty());
        }
        match urlsplit(url, empty, true) {
            Ok(parts) => Ok(
                self.can_fetch_components(
                    useragent,
                    parts.path.as_str(),
                    parts.query.as_str(),
                    parts.fragment.as_str(),
                ),
            ),
            Err(e) => Err(invalid_url(e)),
        }
    }

    /// Decides whether `useragent` may fetch the URL with this path, query and fragment
    /// (as split from it), once a file is parsed: the selected entry's first matching
    /// rule decides, and access is granted when no entry or no rule applies.
    pub fn can_fetch_components(&self, useragent: &str, path: &str, query: &str, fragment: &str) -> (res: bool)
        ensures
            res == path_allowed(self@, useragent@, request_path(path@, query@, fragment@)),
    {
        let target = request_target(path, query, fragment);
        let filename = chars_of(target.as_str());
        match self.select(useragent) {
            Some(e) => e.allowance(&filename),
            // agent not found ==> access granted
            None => true,
        }
    }

    /// The `Crawl-delay` for `useragent`, or `None`.
    pub fn crawl_delay(&self, useragent: &str) -> (res: Option<i64>)
        ensures
            res == delay_for(self@, useragent@),
    {
        if !self.last_checked {
            return None;
        }
        match self.select(useragent) {
            Some(e) => e.delay,
            None => None,
        }
    }

    /// The `Request-rate` for `useragent`, or `None`.
    pub fn request_rate(&self, useragent: &str) -> (res: Option<RequestRate>)
        ensures
            res == rate_for(self@, useragent@),
    {
        if !self.last_checked {
            return None;
        }
        match self.select(useragent) {
            Some(e) => e.req_rate,
            None => None,
        }
    }

    /// The `Sitemap` URLs, in file order, or `None` if there were none.
    pub fn site_maps(&self) -> (res: Option<&[String]>)
        ensures
            match res {
                Some(maps) => self@.sitemaps.len() > 0 && maps@.map_values(|s: String| s@)
                    == self@.sitemaps,
                None => self@.sitemaps.len() == 0,
            },
    {
        if self.sitemaps.len() == 0 {
            None
        } else {
            Some(self.sitemaps.as_slice())
        }
    }
}

impl RuleLine {
    /// The rule as a line.
    fn render(&self) -> (res: String)
        ensures
            res@ == crate::model::rule_text(self@),
    {
        let mut res = String::new();
        if self.allowance {
            res.append("Allow: ");
        } else {
            res.append("Disallow: ");
        }
        res.append(self.path.as_str());
        res
    }
}

impl Entry {
    /// The entry as text: one line per agent, the delay and rate when set, one line per
    /// rule.
    fn render(&self) -> (res: String)
        ensures
            res@ == crate::model::entry_text(self@),
    {
        let ghost e = self@;
        let mut parts: Vec<String> = Vec::new();
        let mut i: usize = 0;
        while i < self.useragents.len()
            invariant
                i <= self.useragents.len(),
                e == self@,
                parts@.map_values(|s: String| s@) == e.useragents.take(i as int).map_values(
                    |a: Seq<char>| "User-agent: "@ + a,
                ),
            decreases self.useragents.len() - i,
        {
            let mut line = String::new();
            line.append("User-agent: ");
            line.append(self.useragents[i].as_str());
            let ghost before = parts@;
            parts.push(line);
            proof {
                lemma_map_push(before, line, |s: String| s@);
                assert(e.useragents[i as int] == self.useragents@[i as int]@);
                assert(e.useragents.take(i + 1) =~= e.useragents.take(i as int).push(
                    e.useragents[i as int],
                ));
                lemma_map_push(
                    e.useragents.take(i as int),
                    e.useragents[i as int],
                    |a: Seq<char>| "User-agent: "@ + a,
                );
            }
            i += 1;
        }
        assert(e.useragents.take(self.useragents.len() as int) =~= e.useragents);
        let ghost agents = parts@.map_values(|s: String| s@);
        match self.delay {
            Some(d) => {
                let mut line = String::new();
                line.append("Crawl-delay: ");
                let n = crate::text::format_i64(d);
                line.append(n.as_str());
                parts.push(line);
            },
            None => {},
        }
        let ghost with_delay = parts@.map_values(|s: String| s@);
        match self.req_rate {
            Some(r) => {
                let mut line = String::new();
                line.append("Request-rate: ");
                let a = crate::text::format_u64(r.requests);
                line.append(a.as_str());
                line.append("/");
                let b = crate::text::format_u64(r.seconds);
                line.append(b.as_str());
                parts.push(line);
            },
            None => {},
        }
        let ghost with_rate = parts@.map_values(|s: String| s@);
        let ghost head_len = parts.len();
        let mut j: usize = 0;
        while j < self.rulelines.len()
            invariant
                j <= self.rulelines.len(),
                e == self@,
                parts.len() == head_len + j,
                parts@.map_values(|s: String| s@) == with_rate + e.rulelines.take(
                    j as int,
                ).map_values(|r: RuleModel| crate::model::rule_text(r)),
            decreases self.rulelines.len() - j,
        {
            let line = self.rulelines[j].render();
            let ghost before = parts@;
            parts.push(line);
            proof {
                lemma_map_push(before, line, |s: String| s@);
                assert(e.rulelines[j as int] == self.rulelines@[j as int]@);
                assert(e.rulelines.take(j + 1) =~= e.rulelines.take(j as int).push(
                    e.rulelines[j as int],
                ));
                lemma_map_push(
                    e.rulelines.take(j as int),
                    e.rulelines[j as int],
                    |r: RuleModel| crate::model::rule_text(r),
                );
                assert(parts@.map_values(|s: String| s@) =~= with_rate + e.rulelines.take(
                    j + 1,
                ).map_values(|r: RuleModel| crate::model::rule_text(r)));
            }
            j += 1;
        }
        assert(e.rulelines.take(self.rulelines.len() as int) =~= e.rulelines);
        assert(parts@.map_values(|s: String| s@) =~= crate::model::entry_lines(e));
        crate::text::join_texts(parts.as_slice(), "\n")
    }
}

impl RobotFileParser {
    /// The parsed file as text: the entries in the order they are consulted (the default
    /// entry last), separated by blank lines.
    pub fn to_string(&self) -> (res: String)
        ensures
            res@ == crate::model::parser_text(self@),
    {
        let ghost m = self@;
        let ghost order = crate::model::consulted_entries(m);
        let mut parts: Vec<String> = Vec::new();
        let mut i: usize = 0;
        while i < self.entries.len()
            invariant
                i <= self.entries.len(),
                m == self@,
                parts@.map_values(|s: String| s@) == m.entries.take(i as int).map_values(
                    |e: EntryModel| crate::model::entry_text(e),
                ),
            decreases self.entries.len() - i,
        {
            let text = self.entries[i].render();
            let ghost before = parts@;
            parts.push(text);
            proof {
                lemma_map_push(before, text, |s: String| s@);
                assert(m.entries[i as int] == self.entries@[i as int]@);
                assert(m.entries.take(i + 1) =~= m.entries.take(i as int).push(m.entries[i as int]));
                lemma_map_push(
                    m.entries.take(i as int),
                    m.entries[i as int],
                    |e: EntryModel| crate::model::entry_text(e),
                );
            }
            i += 1;
        }
        assert(m.entries.take(self.entries.len() as int) =~= m.entries);
        let ghost before = parts@;
        match &self.default_entry {
            Some(d) => {
                let text = d.render();
                parts.push(text);
                proof {
                    lemma_map_push(before, text, |s: String| s@);
                    lemma_map_push(m.entries, d@, |e: EntryModel| crate::model::entry_text(e));
                }
            },
            None => {},
        }
        assert(parts@.map_values(|s: String| s@) =~= order.map_values(
            |e: EntryModel| crate::model::entry_text(e),
        ));
        crate::text::join_texts(parts.as_slice(), "\n\n")
    }
}

} // verus!
