//! The mathematical model of a parsed robots.txt file and of the questions asked of
//! it: what each rule, entry and parser holds, how a file is parsed line by line, and
//! how a request is judged.

use vstd::prelude::*;

use crate::text::{
    decimal_digits, signed_decimal, all_digits, char_pos, contains_text, decimal_value, starts_with, trim, unicode_lowercase,
};
use crate::url::{canonical_path, request_path, split_url};

verus! {

/// A `Request-rate` directive: `requests` per `seconds`.
#[derive(Debug, Clone, Copy, PartialEq, Eq, Structural)]
pub struct RequestRate {
    pub requests: u64,
    pub seconds: u64,
}

/// An `Allow:` or `Disallow:` rule: a normalized path and whether it allows.
pub struct RuleModel {
    pub path: Seq<char>,
    pub allowance: bool,
}

/// A group of user-agents with their rules, crawl delay and request rate.
pub struct EntryModel {
    pub useragents: Seq<Seq<char>>,
    pub rulelines: Seq<RuleModel>,
    pub delay: Option<i64>,
    pub req_rate: Option<RequestRate>,
}

/// Everything a parser holds.
pub struct ParserModel {
    /// The entries for specific user-agents, in file order.
    pub entries: Seq<EntryModel>,
    /// The `Sitemap:` values, in file order.
    pub sitemaps: Seq<Seq<char>>,
    /// The first entry that names the catch-all agent `*`.
    pub default_entry: Option<EntryModel>,
    pub disallow_all: bool,
    pub allow_all: bool,
    /// The robots.txt URL, and its host and path.
    pub url: Seq<char>,
    pub host: Seq<char>,
    pub path: Seq<char>,
    /// Whether a file has been parsed (or the parser marked as modified).
    pub last_checked: bool,
}

// ---------------------------------------------------------------------------
// Rules and entries
// ---------------------------------------------------------------------------

/// The rule that an `Allow:` (`allow`) or `Disallow:` line with this value makes: its
/// path normalized; an empty `Disallow:` allows everything.
pub open spec fn rule_model(value: Seq<char>, allow: bool) -> RuleModel {
    RuleModel {
        path: canonical_path(value),
        allowance: if value.len() == 0 && !allow {
            true
        } else {
            allow
        },
    }
}

/// A rule applies to a path when its path is `*` or a prefix of the path.
pub open spec fn rule_applies(rule: RuleModel, filename: Seq<char>) -> bool {
    rule.path == "*"@ || starts_with(filename, rule.path)
}

/// The allowance of the first rule that applies to `filename`; `true` when none does.
pub open spec fn first_match(rules: Seq<RuleModel>, filename: Seq<char>) -> bool
    decreases rules.len(),
{
    if rules.len() == 0 {
        true
    } else if rule_applies(rules[0], filename) {
        rules[0].allowance
    } else {
        first_match(rules.drop_first(), filename)
    }
}

/// The part of a user-agent string that is matched: what comes before the first `/`,
/// lowercased.
pub open spec fn agent_token(useragent: Seq<char>) -> Seq<char> {
    unicode_lowercase(useragent.take(char_pos(useragent, '/') as int))
}

/// An entry's agent matches a user-agent when it is `*`, or when its lowercase occurs in
/// the user-agent's token.
pub open spec fn agent_applies(agent: Seq<char>, useragent: Seq<char>) -> bool {
    agent == "*"@ || contains_text(agent_token(useragent), unicode_lowercase(agent))
}

/// An entry applies to a user-agent when one of its agents matches it.
pub open spec fn entry_applies(entry: EntryModel, useragent: Seq<char>) -> bool {
    exists|i: int| 0 <= i < entry.useragents.len() && agent_applies(entry.useragents[i], useragent)
}

/// Whether an entry names the catch-all agent `*`.
pub open spec fn is_catch_all(entry: EntryModel) -> bool {
    entry.useragents.contains("*"@)
}

/// The first of `entries` that applies to the user-agent; `default` when none does.
pub open spec fn select_entry(
    entries: Seq<EntryModel>,
    default: Option<EntryModel>,
    useragent: Seq<char>,
) -> Option<EntryModel>
    decreases entries.len(),
{
    if entries.len() == 0 {
        default
    } else if entry_applies(entries[0], useragent) {
        Some(entries[0])
    } else {
        select_entry(entries.drop_first(), default, useragent)
    }
}

/// The entry that answers for a user-agent: the first specific entry that applies, else
/// the default entry, if any.
pub open spec fn selected_entry(m: ParserModel, useragent: Seq<char>) -> Option<EntryModel> {
    select_entry(m.entries, m.default_entry, useragent)
}

/// Whether the user-agent may fetch a (normalized) path: the selected entry's first
/// matching rule decides; with no entry, or no matching rule, access is granted.
pub open spec fn path_allowed(m: ParserModel, useragent: Seq<char>, filename: Seq<char>) -> bool {
    match selected_entry(m, useragent) {
        Some(e) => first_match(e.rulelines, filename),
        None => true,
    }
}

/// What `can_fetch` answers: `Ok(allowed)`, or `Err` with the message of the refusal
/// when the URL's authority is malformed. Before a file is parsed nothing is allowed.
pub open spec fn fetch_outcome(m: ParserModel, useragent: Seq<char>, url: Seq<char>) -> Result<
    bool,
    Seq<char>,
> {
    if m.disallow_all {
        Ok(false)
    } else if m.allow_all {
        Ok(true)
    } else if !m.last_checked {
        Ok(false)
    } else {
        match split_url(url, Seq::empty(), true) {
            Ok(parts) => Ok(path_allowed(m, useragent, request_path(parts.2, parts.3, parts.4))),
            Err(message) => Err(message),
        }
    }
}

/// The crawl delay for a user-agent: that of the selected entry, once a file is parsed.
pub open spec fn delay_for(m: ParserModel, useragent: Seq<char>) -> Option<i64> {
    if !m.last_checked {
        None
    } else {
        match selected_entry(m, useragent) {
            Some(e) => e.delay,
            None => None,
        }
    }
}

/// The request rate for a user-agent: that of the selected entry, once a file is parsed.
pub open spec fn rate_for(m: ParserModel, useragent: Seq<char>) -> Option<RequestRate> {
    if !m.last_checked {
        None
    } else {
        match selected_entry(m, useragent) {
            Some(e) => e.req_rate,
            None => None,
        }
    }
}

// ---------------------------------------------------------------------------
// Construction
// ---------------------------------------------------------------------------

/// An entry with no agents, rules, delay or rate.
pub open spec fn empty_entry() -> EntryModel {
    EntryModel {
        useragents: Seq::empty(),
        rulelines: Seq::empty(),
        delay: None,
        req_rate: None,
    }
}

/// A parser with nothing set.
pub open spec fn empty_parser() -> ParserModel {
    ParserModel {
        entries: Seq::empty(),
        sitemaps: Seq::empty(),
        default_entry: None,
        disallow_all: false,
        allow_all: false,
        url: Seq::empty(),
        host: Seq::empty(),
        path: Seq::empty(),
        last_checked: false,
    }
}

/// The parser after its URL is set: the URL kept, and its host and path cached (both
/// empty when the URL's authority is malformed).
pub open spec fn with_url(m: ParserModel, url: Seq<char>) -> ParserModel {
    match split_url(url, Seq::empty(), true) {
        Ok(parts) => ParserModel { url: url, host: parts.1, path: parts.2, ..m },
        Err(_) => ParserModel { url: url, host: Seq::empty(), path: Seq::empty(), ..m },
    }
}

/// Adding a finished entry: the first catch-all entry becomes the default (later ones
/// are dropped); any other entry is appended to the specific entries.
pub open spec fn add_entry(m: ParserModel, e: EntryModel) -> ParserModel {
    if is_catch_all(e) {
        if m.default_entry is None {
            ParserModel { default_entry: Some(e), ..m }
        } else {
            m
        }
    } else {
        ParserModel { entries: m.entries.push(e), ..m }
    }
}

/// A parser is well formed when every specific entry names at least one agent and not
/// the catch-all `*`, and the default entry, if any, names `*`.
pub open spec fn well_formed(m: ParserModel) -> bool {
    &&& forall|i: int|
        0 <= i < m.entries.len() ==> !is_catch_all(#[trigger] m.entries[i])
            && m.entries[i].useragents.len() > 0
    &&& m.default_entry matches Some(d) ==> is_catch_all(d)
}

// ---------------------------------------------------------------------------
// Parsing
// ---------------------------------------------------------------------------

/// Where the parser stands between lines: the parser so far, the state (0: start,
/// 1: after a `User-agent:` line, 2: after a rule line), and the entry being built.
pub struct ParseState {
    pub model: ParserModel,
    pub state: u8,
    pub entry: EntryModel,
}

/// The key and value of a line: the comment after `#` removed, the line trimmed, then
/// split at its first `:`; the key trimmed and lowercased, the value trimmed. `None`
/// for a line with no `:`.
pub open spec fn directive(raw: Seq<char>) -> Option<(Seq<char>, Seq<char>)> {
    let line = trim(raw.take(char_pos(raw, '#') as int));
    let colon = char_pos(line, ':');
    if line.len() == 0 || colon == line.len() {
        None
    } else {
        Some((unicode_lowercase(trim(line.take(colon as int))), trim(line.skip(colon + 1int))))
    }
}

/// The crawl delay that a `Crawl-delay:` value gives: only an all-digit value that fits
/// an `i64`.
pub open spec fn delay_value(value: Seq<char>) -> Option<i64> {
    if all_digits(value) && decimal_value(value) <= i64::MAX {
        Some(decimal_value(value) as i64)
    } else {
        None
    }
}

/// The request rate that a `Request-rate:` value gives: only a value with exactly one
/// `/`, whose two sides, trimmed, are all-digit numbers that fit a `u64`.
pub open spec fn rate_value(value: Seq<char>) -> Option<RequestRate> {
    let slash = char_pos(value, '/');
    let rest = value.skip(slash + 1int);
    let requests = trim(value.take(slash as int));
    let seconds = trim(rest);
    if slash == value.len() || char_pos(rest, '/') < rest.len() {
        None
    } else if all_digits(requests) && all_digits(seconds) && decimal_value(requests)
        <= u64::MAX && decimal_value(seconds) <= u64::MAX {
        Some(
            RequestRate {
                requests: decimal_value(requests) as u64,
                seconds: decimal_value(seconds) as u64,
            },
        )
    } else {
        None
    }
}

/// What an empty line does: it ends the entry being built (discarding one that has
/// agents but no rule lines).
pub open spec fn after_blank(st: ParseState, raw: Seq<char>) -> ParseState {
    if raw.len() == 0 && st.state == 1 {
        ParseState { model: st.model, state: 0, entry: empty_entry() }
    } else if raw.len() == 0 && st.state == 2 {
        ParseState { model: add_entry(st.model, st.entry), state: 0, entry: empty_entry() }
    } else {
        st
    }
}

/// What a line with a key and a value does.
pub open spec fn apply_directive(st: ParseState, key: Seq<char>, value: Seq<char>) -> ParseState {
    if key == "user-agent"@ {
        let model = if st.state == 2 {
            add_entry(st.model, st.entry)
        } else {
            st.model
        };
        let entry = if st.state == 2 {
            empty_entry()
        } else {
            st.entry
        };
        ParseState {
            model: model,
            state: 1,
            entry: EntryModel { useragents: entry.useragents.push(value), ..entry },
        }
    } else if key == "disallow"@ {
        if st.state != 0 {
            ParseState {
                state: 2,
                entry: EntryModel {
                    rulelines: st.entry.rulelines.push(rule_model(value, false)),
                    ..st.entry
                },
                ..st
            }
        } else {
            st
        }
    } else if key == "allow"@ {
        if st.state != 0 {
            ParseState {
                state: 2,
                entry: EntryModel {
                    rulelines: st.entry.rulelines.push(rule_model(value, true)),
                    ..st.entry
                },
                ..st
            }
        } else {
            st
        }
    } else if key == "crawl-delay"@ {
        if st.state != 0 {
            ParseState {
                state: 2,
                entry: EntryModel {
                    delay: if delay_value(value) is Some {
                        delay_value(value)
                    } else {
                        st.entry.delay
                    },
                    ..st.entry
                },
                ..st
            }
        } else {
            st
        }
    } else if key == "request-rate"@ {
        if st.state != 0 {
            ParseState {
                state: 2,
                entry: EntryModel {
                    req_rate: if rate_value(value) is Some {
                        rate_value(value)
                    } else {
                        st.entry.req_rate
                    },
                    ..st.entry
                },
                ..st
            }
        } else {
            st
        }
    } else if key == "sitemap"@ {
        ParseState { model: ParserModel { sitemaps: st.model.sitemaps.push(value), ..st.model }, ..st }
    } else {
        st
    }
}

/// What one raw line does.
pub open spec fn parse_line(st: ParseState, raw: Seq<char>) -> ParseState {
    let st1 = after_blank(st, raw);
    match directive(raw) {
        Some((key, value)) => apply_directive(st1, key, value),
        None => st1,
    }
}

/// What a run of raw lines does, in order.
pub open spec fn parse_lines(st: ParseState, lines: Seq<Seq<char>>) -> ParseState
    decreases lines.len(),
{
    if lines.len() == 0 {
        st
    } else {
        parse_lines(parse_line(st, lines[0]), lines.drop_first())
    }
}

/// Where parsing starts: the parser marked as parsed, state 0, an empty entry.
pub open spec fn parse_start(m: ParserModel) -> ParseState {
    ParseState { model: ParserModel { last_checked: true, ..m }, state: 0, entry: empty_entry() }
}

/// The parser after it has parsed the lines of a file: every line applied in order, then
/// an entry that has rule lines added.
pub open spec fn parse_document(m: ParserModel, lines: Seq<Seq<char>>) -> ParserModel {
    let end = parse_lines(parse_start(m), lines);
    if end.state == 2 {
        add_entry(end.model, end.entry)
    } else {
        end.model
    }
}

// ---------------------------------------------------------------------------
// Text form
// ---------------------------------------------------------------------------

/// `parts` joined with `sep` between consecutive parts.
pub open spec fn join_with(parts: Seq<Seq<char>>, sep: Seq<char>) -> Seq<char>
    decreases parts.len(),
{
    if parts.len() == 0 {
        Seq::empty()
    } else if parts.len() == 1 {
        parts[0]
    } else {
        join_with(parts.drop_last(), sep) + sep + parts.last()
    }
}

/// A rule as a line: `Allow: <path>` or `Disallow: <path>`.
pub open spec fn rule_text(rule: RuleModel) -> Seq<char> {
    (if rule.allowance {
        "Allow: "@
    } else {
        "Disallow: "@
    }) + rule.path
}

/// The lines of an entry: its agents, its crawl delay and request rate when set, then
/// its rules.
pub open spec fn entry_lines(e: EntryModel) -> Seq<Seq<char>> {
    let agents = e.useragents.map_values(|a: Seq<char>| "User-agent: "@ + a);
    let delay = match e.delay {
        Some(d) => seq!["Crawl-delay: "@ + signed_decimal(d as int)],
        None => Seq::empty(),
    };
    let rate = match e.req_rate {
        Some(r) => seq![
            "Request-rate: "@ + decimal_digits(r.requests as nat) + "/"@ + decimal_digits(
                r.seconds as nat,
            ),
        ],
        None => Seq::empty(),
    };
    agents + delay + rate + e.rulelines.map_values(|r: RuleModel| rule_text(r))
}

/// An entry as text: its lines joined by newlines.
pub open spec fn entry_text(e: EntryModel) -> Seq<char> {
    join_with(entry_lines(e), "\n"@)
}

/// The entries in the order they are consulted: the specific ones, then the default.
pub open spec fn consulted_entries(m: ParserModel) -> Seq<EntryModel> {
    match m.default_entry {
        Some(d) => m.entries.push(d),
        None => m.entries,
    }
}

/// A parser as text: its entries, in the order they are consulted, separated by blank
/// lines.
pub open spec fn parser_text(m: ParserModel) -> Seq<char> {
    join_with(consulted_entries(m).map_values(|e: EntryModel| entry_text(e)), "\n\n"@)
}

} // verus!
