//! Properties of the library as a whole, proved over the model.

use vstd::prelude::*;
use vstd::utf8::encode_utf8;
use vstd::utf8::is_ascii_chars;
use vstd::utf8::is_ascii_chars_encode_utf8;

use crate::model::{
    entry_text, join_with,
    consulted_entries, delay_for, parser_text, rate_for,
    add_entry, after_blank, agent_applies, agent_token, apply_directive, delay_value, directive, empty_entry,
    empty_parser, entry_applies, fetch_outcome, first_match, is_catch_all, parse_document,
    parse_line, parse_lines, parse_start, path_allowed, rate_value, rule_applies, rule_model,
    select_entry, selected_entry, well_formed, with_url, EntryModel, ParseState, ParserModel,
    RequestRate, RuleModel,
};
use crate::text::{all_digits, decimal_value};
use crate::url::{
    split_url,
    canonical, canonical_path, canonical_query, hex_upper, hex_value, is_query_sep, percent_decode,
    percent_encode, quote_byte, run_len,
};

verus! {

// ---------------------------------------------------------------------------
// Normalization
// ---------------------------------------------------------------------------

/// The bytes of an ASCII character sequence.
pub open spec fn ascii_bytes(s: Seq<char>) -> Seq<u8> {
    s.map_values(|c: char| c as u8)
}

/// Each upper-case hex digit reads back as its value.
proof fn lemma_hex_digit_value(n: int)
    requires
        0 <= n < 16,
    ensures
        hex_value(hex_upper()[n] as u8) == Some(n as u8),
        is_ascii_chars(seq![hex_upper()[n]]),
        hex_upper()[n] != '%',
        hex_upper()[n] != '?' && !is_query_sep(hex_upper()[n]),
{
    let h = hex_upper();
    if n == 0 {
        assert(h[0] == '0');
    } else if n == 1 {
        assert(h[1] == '1');
    } else if n == 2 {
        assert(h[2] == '2');
    } else if n == 3 {
        assert(h[3] == '3');
    } else if n == 4 {
        assert(h[4] == '4');
    } else if n == 5 {
        assert(h[5] == '5');
    } else if n == 6 {
        assert(h[6] == '6');
    } else if n == 7 {
        assert(h[7] == '7');
    } else if n == 8 {
        assert(h[8] == '8');
    } else if n == 9 {
        assert(h[9] == '9');
    } else if n == 10 {
        assert(h[10] == 'A');
    } else if n == 11 {
        assert(h[11] == 'B');
    } else if n == 12 {
        assert(h[12] == 'C');
    } else if n == 13 {
        assert(h[13] == 'D');
    } else if n == 14 {
        assert(h[14] == 'E');
    } else {
        assert(h[15] == 'F');
    }
}

/// The quoting of one byte is ASCII, and decoding it, followed by anything, gives the
/// byte back first.
proof fn lemma_quote_byte_decodes(b: u8, safe: Seq<char>, rest: Seq<u8>)
    requires
        !safe.contains('%'),
    ensures
        is_ascii_chars(quote_byte(b, safe)),
        percent_decode(ascii_bytes(quote_byte(b, safe)) + rest) == seq![b] + percent_decode(rest),
{
    let q = quote_byte(b, safe);
    let all = ascii_bytes(q) + rest;
    if b < 128 && (always_safe_or_listed(b, safe)) {
        assert(q == seq![b as char]);
        assert(b != 37) by {
            if b == 37 {
                assert(safe.contains(b as char));
            }
        }
        assert(all[0] == b);
        assert(all.drop_first() =~= rest);
    } else {
        lemma_hex_digit_value((b / 16) as int);
        lemma_hex_digit_value((b % 16) as int);
        assert(all[0] == 37);
        assert(all.skip(3) =~= rest);
        assert((b / 16) * 16 + b % 16 == b);
        assert(seq![((b / 16) as u8 * 16 + (b % 16) as u8) as u8] =~= seq![b]);
    }
}

/// Whether `quote_byte` keeps the byte as a character.
spec fn always_safe_or_listed(b: u8, safe: Seq<char>) -> bool {
    crate::url::always_safe(b) || safe.contains(b as char)
}

/// Percent-encoding yields ASCII, and percent-decoding its bytes gives the same
/// bytes back, as long as `%` is not among the safe characters.
pub proof fn law_decode_after_encode(bytes: Seq<u8>, safe: Seq<char>)
    requires
        !safe.contains('%'),
    ensures
        is_ascii_chars(percent_encode(bytes, safe)),
        percent_decode(ascii_bytes(percent_encode(bytes, safe))) == bytes,
    decreases bytes.len(),
{
    if bytes.len() == 0 {
        assert(ascii_bytes(Seq::<char>::empty()) =~= Seq::<u8>::empty());
    } else {
        let head = quote_byte(bytes[0], safe);
        let tail = percent_encode(bytes.drop_first(), safe);
        law_decode_after_encode(bytes.drop_first(), safe);
        lemma_quote_byte_decodes(bytes[0], safe, ascii_bytes(tail));
        assert(ascii_bytes(head + tail) =~= ascii_bytes(head) + ascii_bytes(tail));
        assert(is_ascii_chars(head + tail)) by {
            assert forall|i: int| 0 <= i < (head + tail).len() implies '\0' <= #[trigger] (head
                + tail)[i] <= '\u{7f}' by {
                if i < head.len() {
                    assert((head + tail)[i] == head[i]);
                } else {
                    assert((head + tail)[i] == tail[i - head.len()]);
                }
            }
        }
        assert(seq![bytes[0]] + bytes.drop_first() =~= bytes);
    }
}

/// Normalization is idempotent: a normalized path is already in canonical form.
pub proof fn law_canonical_idempotent(path: Seq<char>)
    ensures
        canonical(canonical(path)) == canonical(path),
{
    let bytes = percent_decode(encode_utf8(path));
    let safe = seq!['/'];
    assert(!safe.contains('%')) by {
        if safe.contains('%') {
            let i = choose|i: int| 0 <= i < safe.len() && safe[i] == '%';
            assert(safe[0] == '/');
        }
    }
    let e = percent_encode(bytes, safe);
    law_decode_after_encode(bytes, safe);
    is_ascii_chars_encode_utf8(e);
    assert(encode_utf8(e) =~= ascii_bytes(e));
}

/// No `?`, `=` or `&` in a text.
pub open spec fn free_of_delimiters(s: Seq<char>) -> bool {
    forall|j: int| 0 <= j < s.len() ==> s[j] != '?' && !is_query_sep(#[trigger] s[j])
}

/// Percent-encoding leaves no `?`, `=` or `&` when none of them is safe.
proof fn lemma_encode_free_of_delimiters(bytes: Seq<u8>, safe: Seq<char>)
    requires
        free_of_delimiters(safe),
    ensures
        free_of_delimiters(percent_encode(bytes, safe)),
    decreases bytes.len(),
{
    if bytes.len() > 0 {
        let b = bytes[0];
        let head = quote_byte(b, safe);
        let tail = percent_encode(bytes.drop_first(), safe);
        lemma_encode_free_of_delimiters(bytes.drop_first(), safe);
        assert(free_of_delimiters(head)) by {
            if b < 128 && (crate::url::always_safe(b) || safe.contains(b as char)) {
                if safe.contains(b as char) {
                    let k = choose|k: int| 0 <= k < safe.len() && safe[k] == b as char;
                    assert(safe[k] != '?' && !is_query_sep(safe[k]));
                }
            } else {
                lemma_hex_digit_value((b / 16) as int);
                lemma_hex_digit_value((b % 16) as int);
            }
        }
        assert forall|j: int| 0 <= j < (head + tail).len() implies (head + tail)[j] != '?'
            && !is_query_sep(#[trigger] (head + tail)[j]) by {
            if j < head.len() {
                assert((head + tail)[j] == head[j]);
            } else {
                assert((head + tail)[j] == tail[j - head.len()]);
            }
        }
    }
}

/// A canonical text holds no `?`, `=` or `&`.
proof fn lemma_canonical_free_of_delimiters(path: Seq<char>)
    ensures
        free_of_delimiters(canonical(path)),
{
    lemma_encode_free_of_delimiters(percent_decode(encode_utf8(path)), seq!['/']);
}

/// A run is made of non-separators, and ends at a separator or at the end.
proof fn lemma_run_len_spec(q: Seq<char>)
    ensures
        run_len(q) <= q.len(),
        forall|j: int| 0 <= j < run_len(q) ==> !is_query_sep(#[trigger] q[j]),
        run_len(q) < q.len() ==> is_query_sep(q[run_len(q) as int]),
    decreases q.len(),
{
    if q.len() > 0 && !is_query_sep(q[0]) {
        lemma_run_len_spec(q.drop_first());
        assert forall|j: int| 0 <= j < run_len(q) implies !is_query_sep(#[trigger] q[j]) by {
            if j > 0 {
                assert(q[j] == q.drop_first()[j - 1]);
            }
        }
    }
}

/// A canonical query is empty or starts with a separator, when the query is.
proof fn lemma_canonical_query_head(q: Seq<char>)
    requires
        q.len() > 0 ==> is_query_sep(q[0]),
    ensures
        canonical_query(q).len() > 0 ==> is_query_sep(canonical_query(q)[0]),
{
}

/// Canonicalizing a query twice is canonicalizing it once.
proof fn lemma_canonical_query_idempotent(q: Seq<char>)
    ensures
        canonical_query(canonical_query(q)) == canonical_query(q),
    decreases q.len(),
{
    if q.len() == 0 {
    } else if is_query_sep(q[0]) {
        let x = canonical_query(q.drop_first());
        lemma_canonical_query_idempotent(q.drop_first());
        assert((seq![q[0]] + x).drop_first() =~= x);
    } else {
        let n = run_len(q);
        crate::url::lemma_run_len_bound(q);
        lemma_run_len_spec(q);
        let a = canonical(q.take(n as int));
        let rest = q.skip(n as int);
        let b = canonical_query(rest);
        lemma_canonical_query_idempotent(rest);
        lemma_canonical_query_head(rest);
        lemma_canonical_free_of_delimiters(q.take(n as int));
        law_canonical_idempotent(q.take(n as int));
        let y = a + b;
        if a.len() == 0 {
            assert(y =~= b);
        } else {
            crate::url::lemma_run_len(y, a.len() as int);
            assert(y.take(a.len() as int) =~= a);
            assert(y.skip(a.len() as int) =~= b);
        }
    }
}

/// Path normalization is idempotent: a normalized request path is already in canonical
/// form, query included.
pub proof fn law_canonical_path_idempotent(p: Seq<char>)
    ensures
        canonical_path(canonical_path(p)) == canonical_path(p),
{
    let i = crate::text::char_pos(p, '?');
    crate::text::lemma_char_pos(p, '?', 0);
    if i == p.len() {
        let x = canonical(p);
        lemma_canonical_free_of_delimiters(p);
        law_canonical_idempotent(p);
        crate::text::lemma_char_pos(x, '?', x.len() as int);
    } else {
        let a = canonical(p.take(i as int));
        let q = canonical_query(p.skip(i + 1int));
        let x = a + seq!['?'] + q;
        lemma_canonical_free_of_delimiters(p.take(i as int));
        law_canonical_idempotent(p.take(i as int));
        lemma_canonical_query_idempotent(p.skip(i + 1int));
        crate::text::lemma_char_pos(x, '?', a.len() as int);
        assert(x.take(a.len() as int) =~= a);
        assert(x.skip(a.len() + 1int) =~= q);
    }
}

// ---------------------------------------------------------------------------
// Parsing
// ---------------------------------------------------------------------------

/// The sitemap URL that a line declares, if it is a `Sitemap:` line.
pub open spec fn sitemap_of(raw: Seq<char>) -> Seq<Seq<char>> {
    match directive(raw) {
        Some((key, value)) => if key == "sitemap"@ {
            seq![value]
        } else {
            Seq::empty()
        },
        None => Seq::empty(),
    }
}

/// The sitemap URLs that the `Sitemap:` lines declare, in order.
pub open spec fn sitemap_values(lines: Seq<Seq<char>>) -> Seq<Seq<char>>
    decreases lines.len(),
{
    if lines.len() == 0 {
        Seq::empty()
    } else {
        sitemap_of(lines[0]) + sitemap_values(lines.drop_first())
    }
}

/// What parsing leaves alone: the URL, host and path, the flags, a default entry once
/// chosen, and the entries already there (more may follow).
pub open spec fn unchanged_by_parsing(before: ParserModel, after: ParserModel) -> bool {
    &&& after.url == before.url
    &&& after.host == before.host
    &&& after.path == before.path
    &&& after.disallow_all == before.disallow_all
    &&& after.allow_all == before.allow_all
    &&& after.last_checked == before.last_checked
    &&& before.default_entry is Some ==> after.default_entry == before.default_entry
    &&& before.entries.is_prefix_of(after.entries)
}

/// Between lines: the state is 0, 1 or 2; in state 0 the entry being built is empty,
/// otherwise it names an agent; and the parser is well formed.
pub open spec fn state_ok(st: ParseState) -> bool {
    &&& state_sound(st)
    &&& st.state != 0 ==> st.entry.useragents.len() > 0
    &&& well_formed(st.model)
}

/// The state is 0, 1 or 2, and in state 0 the entry being built is empty.
pub open spec fn state_sound(st: ParseState) -> bool {
    &&& st.state <= 2
    &&& st.state == 0 ==> st.entry == empty_entry()
}

/// The directive keys are distinct strings.
proof fn lemma_keys_distinct()
    ensures
        "user-agent"@.len() == 10,
        "disallow"@.len() == 8,
        "allow"@.len() == 5,
        "crawl-delay"@.len() == 11,
        "request-rate"@.len() == 12,
        "sitemap"@.len() == 7,
{
    reveal_strlit("user-agent");
    reveal_strlit("disallow");
    reveal_strlit("allow");
    reveal_strlit("crawl-delay");
    reveal_strlit("request-rate");
    reveal_strlit("sitemap");
}

/// Adding an entry changes only the entries and the default entry, and keeps a parser
/// well formed when the entry names an agent.
proof fn lemma_add_entry(m: ParserModel, e: EntryModel)
    ensures
        unchanged_by_parsing(m, add_entry(m, e)),
        add_entry(m, e).sitemaps == m.sitemaps,
        well_formed(m) && e.useragents.len() > 0 ==> well_formed(add_entry(m, e)),
{
    let m2 = add_entry(m, e);
    assert(m.entries.is_prefix_of(m2.entries)) by {
        assert(m2.entries.subrange(0, m.entries.len() as int) =~= m.entries);
    }
    if well_formed(m) && e.useragents.len() > 0 && !is_catch_all(e) {
        assert forall|i: int| 0 <= i < m2.entries.len() implies !is_catch_all(
            #[trigger] m2.entries[i],
        ) && m2.entries[i].useragents.len() > 0 by {
            if i < m.entries.len() {
                assert(m2.entries[i] == m.entries[i]);
            }
        }
    }
}

/// `unchanged_by_parsing` composes.
proof fn lemma_unchanged_trans(a: ParserModel, b: ParserModel, c: ParserModel)
    requires
        unchanged_by_parsing(a, b),
        unchanged_by_parsing(b, c),
    ensures
        unchanged_by_parsing(a, c),
{
    assert(c.entries.subrange(0, a.entries.len() as int) =~= b.entries.subrange(
        0,
        a.entries.len() as int,
    ));
}

/// What one line does to the parser, and that it keeps the parse state sound.
proof fn lemma_parse_line(st: ParseState, raw: Seq<char>)
    ensures
        unchanged_by_parsing(st.model, parse_line(st, raw).model),
        parse_line(st, raw).model.sitemaps == st.model.sitemaps + sitemap_of(raw),
        state_ok(st) ==> state_ok(parse_line(st, raw)),
        state_sound(st) ==> state_sound(parse_line(st, raw)),
{
    let st1 = after_blank(st, raw);
    lemma_add_entry(st.model, st.entry);
    assert(unchanged_by_parsing(st.model, st1.model)) by {
        assert(st.model.entries.subrange(0, st.model.entries.len() as int) =~= st.model.entries);
    }
    assert(st1.model.sitemaps == st.model.sitemaps);
    match directive(raw) {
        Some((key, value)) => {
            lemma_keys_distinct();
            lemma_add_entry(st1.model, st1.entry);
            let st2 = apply_directive(st1, key, value);
            assert(unchanged_by_parsing(st1.model, st2.model)) by {
                assert(st1.model.entries.subrange(0, st1.model.entries.len() as int)
                    =~= st1.model.entries);
            }
            lemma_unchanged_trans(st.model, st1.model, st2.model);
            assert(st2.model.sitemaps =~= st.model.sitemaps + sitemap_of(raw));
        },
        None => {
            assert(st1.model.sitemaps =~= st.model.sitemaps + sitemap_of(raw));
        },
    }
}

/// What a run of lines does to the parser.
proof fn lemma_parse_lines(st: ParseState, lines: Seq<Seq<char>>)
    ensures
        unchanged_by_parsing(st.model, parse_lines(st, lines).model),
        parse_lines(st, lines).model.sitemaps == st.model.sitemaps + sitemap_values(lines),
        state_ok(st) ==> state_ok(parse_lines(st, lines)),
        state_sound(st) ==> state_sound(parse_lines(st, lines)),
    decreases lines.len(),
{
    if lines.len() == 0 {
        assert(st.model.entries.subrange(0, st.model.entries.len() as int) =~= st.model.entries);
        assert(st.model.sitemaps + Seq::<Seq<char>>::empty() =~= st.model.sitemaps);
    } else {
        let next = parse_line(st, lines[0]);
        lemma_parse_line(st, lines[0]);
        lemma_parse_lines(next, lines.drop_first());
        lemma_unchanged_trans(st.model, next.model, parse_lines(next, lines.drop_first()).model);
        assert(st.model.sitemaps + sitemap_values(lines) =~= st.model.sitemaps + sitemap_of(
            lines[0],
        ) + sitemap_values(lines.drop_first()));
    }
}

/// Parsing marks the parser as parsed, leaves its URL, host, path and flags alone, keeps
/// the entries and the default entry it already had, and appends to its sitemaps
/// exactly the values of the `Sitemap:` lines, in order, whatever user-agent group they
/// stand in.
pub proof fn law_parse_frame(m: ParserModel, lines: Seq<Seq<char>>)
    ensures
        parse_document(m, lines).last_checked,
        unchanged_by_parsing(ParserModel { last_checked: true, ..m }, parse_document(m, lines)),
        parse_document(m, lines).sitemaps == m.sitemaps + sitemap_values(lines),
{
    let start = parse_start(m);
    let end = parse_lines(start, lines);
    lemma_parse_lines(start, lines);
    lemma_add_entry(end.model, end.entry);
    if end.state == 2 {
        lemma_unchanged_trans(start.model, end.model, add_entry(end.model, end.entry));
    }
}

/// Parsing keeps a parser well formed: every specific entry names an agent and never
/// `*`, and the default entry names `*`.
pub proof fn law_parse_well_formed(m: ParserModel, lines: Seq<Seq<char>>)
    requires
        well_formed(m),
    ensures
        well_formed(parse_document(m, lines)),
{
    let start = parse_start(m);
    assert(start.entry == empty_entry());
    lemma_parse_lines(start, lines);
    let end = parse_lines(start, lines);
    lemma_add_entry(end.model, end.entry);
}

/// Running two runs of lines one after the other is running them joined.
proof fn lemma_parse_lines_append(st: ParseState, a: Seq<Seq<char>>, b: Seq<Seq<char>>)
    ensures
        parse_lines(st, a + b) == parse_lines(parse_lines(st, a), b),
    decreases a.len(),
{
    if a.len() > 0 {
        assert((a + b).drop_first() =~= a.drop_first() + b);
        assert((a + b)[0] == a[0]);
        lemma_parse_lines_append(parse_line(st, a[0]), a.drop_first(), b);
    } else {
        assert(a + b =~= b);
    }
}

/// An empty line yields no directive.
proof fn lemma_empty_line_no_directive()
    ensures
        directive(Seq::<char>::empty()) is None,
{
    let e = Seq::<char>::empty();
    assert(e.take(0) =~= e);
}

/// Parsing two files one after the other gives the parser that parsing them as one
/// file, with an empty line between, gives: groups end with each file and accumulate.
pub proof fn law_parse_twice(m: ParserModel, first: Seq<Seq<char>>, second: Seq<Seq<char>>)
    ensures
        parse_document(parse_document(m, first), second) == parse_document(
            m,
            first + seq![Seq::<char>::empty()] + second,
        ),
{
    let st0 = parse_start(m);
    let end1 = parse_lines(st0, first);
    let m1 = parse_document(m, first);
    let blank = seq![Seq::<char>::empty()];
    lemma_parse_lines(st0, first);
    law_parse_frame(m, first);
    lemma_parse_lines_append(st0, first + blank, second);
    lemma_parse_lines_append(st0, first, blank);
    lemma_empty_line_no_directive();
    assert(blank.drop_first() =~= Seq::<Seq<char>>::empty());
    assert(blank[0] == Seq::<char>::empty());
    let after = parse_line(end1, Seq::empty());
    assert(parse_lines(after, Seq::<Seq<char>>::empty()) == after);
    assert(parse_lines(end1, blank) == after);
    assert(parse_line(end1, Seq::empty()) == parse_start(m1));
}

/// A line that changes nothing but the sitemaps: not empty, and either without a
/// key and value or with a key other than `user-agent`, `disallow`, `allow`,
/// `crawl-delay` and `request-rate`.
pub open spec fn inert_line(raw: Seq<char>) -> bool {
    &&& raw.len() > 0
    &&& match directive(raw) {
        None => true,
        Some((key, _)) => key != "user-agent"@ && key != "disallow"@ && key != "allow"@ && key
            != "crawl-delay"@ && key != "request-rate"@,
    }
}

/// `fewer` is `lines` with some inert lines taken out.
pub open spec fn drops_inert(lines: Seq<Seq<char>>, fewer: Seq<Seq<char>>) -> bool
    decreases lines.len(),
{
    if lines.len() == 0 {
        fewer.len() == 0
    } else {
        ||| fewer.len() > 0 && fewer[0] == lines[0] && drops_inert(
            lines.drop_first(),
            fewer.drop_first(),
        )
        ||| inert_line(lines[0]) && drops_inert(lines.drop_first(), fewer)
    }
}

/// A parser with its sitemaps set aside.
pub open spec fn without_sitemaps(m: ParserModel) -> ParserModel {
    ParserModel { sitemaps: Seq::empty(), ..m }
}

/// Two parse states that differ at most in the sitemaps gathered.
pub open spec fn same_but_sitemaps(s1: ParseState, s2: ParseState) -> bool {
    &&& s1.state == s2.state
    &&& s1.entry == s2.entry
    &&& without_sitemaps(s1.model) == without_sitemaps(s2.model)
}

/// Adding an entry does not look at the sitemaps.
proof fn lemma_add_entry_ignores_sitemaps(m1: ParserModel, m2: ParserModel, e: EntryModel)
    requires
        without_sitemaps(m1) == without_sitemaps(m2),
    ensures
        without_sitemaps(add_entry(m1, e)) == without_sitemaps(add_entry(m2, e)),
{
    assert(m1.entries == without_sitemaps(m1).entries);
    assert(m2.entries == without_sitemaps(m2).entries);
    assert(m1.default_entry == without_sitemaps(m1).default_entry);
    assert(m2.default_entry == without_sitemaps(m2).default_entry);
}

/// A line does the same to two states that differ only in their sitemaps.
proof fn lemma_parse_line_ignores_sitemaps(s1: ParseState, s2: ParseState, raw: Seq<char>)
    requires
        same_but_sitemaps(s1, s2),
    ensures
        same_but_sitemaps(parse_line(s1, raw), parse_line(s2, raw)),
{
    lemma_add_entry_ignores_sitemaps(s1.model, s2.model, s1.entry);
    let a1 = after_blank(s1, raw);
    let a2 = after_blank(s2, raw);
    assert(same_but_sitemaps(a1, a2));
    lemma_add_entry_ignores_sitemaps(a1.model, a2.model, a1.entry);
}

/// An inert line changes nothing but the sitemaps.
proof fn lemma_inert_line(st: ParseState, raw: Seq<char>)
    requires
        inert_line(raw),
    ensures
        same_but_sitemaps(parse_line(st, raw), st),
{
    lemma_keys_distinct();
    match directive(raw) {
        Some((key, value)) => {
            if key == "sitemap"@ {
                assert(without_sitemaps(parse_line(st, raw).model) == without_sitemaps(st.model));
            }
        },
        None => {},
    }
}

/// Taking inert lines out of a run changes nothing but the sitemaps.
proof fn lemma_drops_inert(
    s1: ParseState,
    s2: ParseState,
    lines: Seq<Seq<char>>,
    fewer: Seq<Seq<char>>,
)
    requires
        same_but_sitemaps(s1, s2),
        drops_inert(lines, fewer),
    ensures
        same_but_sitemaps(parse_lines(s1, lines), parse_lines(s2, fewer)),
    decreases lines.len(),
{
    if lines.len() > 0 {
        if fewer.len() > 0 && fewer[0] == lines[0] && drops_inert(
            lines.drop_first(),
            fewer.drop_first(),
        ) {
            lemma_parse_line_ignores_sitemaps(s1, s2, lines[0]);
            lemma_drops_inert(
                parse_line(s1, lines[0]),
                parse_line(s2, lines[0]),
                lines.drop_first(),
                fewer.drop_first(),
            );
        } else {
            lemma_inert_line(s1, lines[0]);
            lemma_drops_inert(parse_line(s1, lines[0]), s2, lines.drop_first(), fewer);
        }
    }
}

/// Whatever differs only in the sitemaps gets the same answers and the same text.
pub proof fn law_answers_ignore_sitemaps(
    m1: ParserModel,
    m2: ParserModel,
    useragent: Seq<char>,
    url: Seq<char>,
)
    requires
        without_sitemaps(m1) == without_sitemaps(m2),
    ensures
        fetch_outcome(m1, useragent, url) == fetch_outcome(m2, useragent, url),
        delay_for(m1, useragent) == delay_for(m2, useragent),
        rate_for(m1, useragent) == rate_for(m2, useragent),
        parser_text(m1) == parser_text(m2),
        m1.last_checked == m2.last_checked,
{
    let w1 = without_sitemaps(m1);
    let w2 = without_sitemaps(m2);
    assert(m1.entries == w1.entries && m2.entries == w2.entries);
    assert(m1.default_entry == w1.default_entry && m2.default_entry == w2.default_entry);
    assert(m1.disallow_all == w1.disallow_all && m2.disallow_all == w2.disallow_all);
    assert(m1.allow_all == w1.allow_all && m2.allow_all == w2.allow_all);
    assert(m1.last_checked == w1.last_checked && m2.last_checked == w2.last_checked);
    assert(consulted_entries(m1) == consulted_entries(m2));
}

/// Taking out of a file lines that are not empty and hold no user-agent, rule,
/// crawl-delay or request-rate directive (comments, lines without `:`, unknown keys,
/// sitemaps) changes nothing but the sitemaps: every answer and the text form stay.
pub proof fn law_inert_lines_change_nothing(
    m: ParserModel,
    lines: Seq<Seq<char>>,
    fewer: Seq<Seq<char>>,
    useragent: Seq<char>,
    url: Seq<char>,
)
    requires
        drops_inert(lines, fewer),
    ensures
        without_sitemaps(parse_document(m, lines)) == without_sitemaps(parse_document(m, fewer)),
        fetch_outcome(parse_document(m, lines), useragent, url) == fetch_outcome(
            parse_document(m, fewer),
            useragent,
            url,
        ),
        delay_for(parse_document(m, lines), useragent) == delay_for(
            parse_document(m, fewer),
            useragent,
        ),
        rate_for(parse_document(m, lines), useragent) == rate_for(
            parse_document(m, fewer),
            useragent,
        ),
        parser_text(parse_document(m, lines)) == parser_text(parse_document(m, fewer)),
{
    let st = parse_start(m);
    lemma_drops_inert(st, st, lines, fewer);
    let e1 = parse_lines(st, lines);
    let e2 = parse_lines(st, fewer);
    lemma_add_entry_ignores_sitemaps(e1.model, e2.model, e1.entry);
    law_answers_ignore_sitemaps(parse_document(m, lines), parse_document(m, fewer), useragent, url);
}

/// Setting the URL changes no answer: `can_fetch`, the crawl delay, the request rate,
/// the sitemaps, the text form and whether a file was parsed all stay.
pub proof fn law_set_url_keeps_answers(
    m: ParserModel,
    robots_url: Seq<char>,
    useragent: Seq<char>,
    url: Seq<char>,
)
    ensures
        fetch_outcome(with_url(m, robots_url), useragent, url) == fetch_outcome(m, useragent, url),
        delay_for(with_url(m, robots_url), useragent) == delay_for(m, useragent),
        rate_for(with_url(m, robots_url), useragent) == rate_for(m, useragent),
        with_url(m, robots_url).sitemaps == m.sitemaps,
        parser_text(with_url(m, robots_url)) == parser_text(m),
        with_url(m, robots_url).last_checked == m.last_checked,
{
    assert(consulted_entries(with_url(m, robots_url)) == consulted_entries(m));
}

// ---------------------------------------------------------------------------
// Groups, answers and the text form
// ---------------------------------------------------------------------------

/// A group of one agent and one `Disallow:` rule with value `value`.
pub open spec fn single_rule_group(agent: Seq<char>, value: Seq<char>) -> EntryModel {
    EntryModel {
        useragents: seq![agent],
        rulelines: seq![RuleModel { path: canonical_path(value), allowance: value.len() == 0 }],
        delay: None,
        req_rate: None,
    }
}

/// The four lines `User-agent: a`, `Disallow: p`, `User-agent: b`, `Disallow: q` (each
/// non-empty, with these keys and values).
pub open spec fn two_groups_lines(lines: Seq<Seq<char>>, a: Seq<char>, p: Seq<char>, b: Seq<char>, q: Seq<char>) -> bool {
    &&& lines.len() == 4
    &&& forall|i: int| 0 <= i < 4 ==> #[trigger] lines[i].len() > 0
    &&& directive(lines[0]) == Some(("user-agent"@, a))
    &&& directive(lines[1]) == Some(("disallow"@, p))
    &&& directive(lines[2]) == Some(("user-agent"@, b))
    &&& directive(lines[3]) == Some(("disallow"@, q))
}

/// What parsing those four lines does, step by step.
proof fn lemma_two_groups_steps(
    m: ParserModel,
    lines: Seq<Seq<char>>,
    a: Seq<char>,
    p: Seq<char>,
    b: Seq<char>,
    q: Seq<char>,
)
    requires
        two_groups_lines(lines, a, p, b, q),
    ensures
        ({
            let m0 = ParserModel { last_checked: true, ..m };
            let end = parse_lines(parse_start(m), lines);
            &&& end.state == 2
            &&& end.model == add_entry(m0, single_rule_group(a, p))
            &&& end.entry == single_rule_group(b, q)
        }),
{
    lemma_keys_distinct();
    assert(lines[0].len() > 0 && lines[1].len() > 0 && lines[2].len() > 0 && lines[3].len() > 0);
    let s0 = parse_start(m);
    let s1 = parse_line(s0, lines[0]);
    let s2 = parse_line(s1, lines[1]);
    let s3 = parse_line(s2, lines[2]);
    let s4 = parse_line(s3, lines[3]);
    assert(s1.state == 1 && s1.entry.useragents =~= seq![a] && s1.model == s0.model);
    assert(s2.state == 2 && s2.model == s0.model);
    assert(s2.entry == single_rule_group(a, p)) by {
        assert(s2.entry.rulelines =~= seq![RuleModel { path: canonical_path(p), allowance: p.len() == 0 }]);
        assert(s2.entry.useragents =~= seq![a]);
    }
    assert(s3.state == 1 && s3.model == add_entry(s0.model, s2.entry));
    assert(s3.entry.useragents =~= seq![b]);
    assert(s4.entry == single_rule_group(b, q)) by {
        assert(s4.entry.rulelines =~= seq![RuleModel { path: canonical_path(q), allowance: q.len() == 0 }]);
        assert(s4.entry.useragents =~= seq![b]);
    }
    let d1 = lines.drop_first();
    let d2 = d1.drop_first();
    let d3 = d2.drop_first();
    let d4 = d3.drop_first();
    assert(d4 =~= Seq::<Seq<char>>::empty());
    assert(d1[0] == lines[1]);
    assert(d2[0] == lines[2]);
    assert(d3[0] == lines[3]);
    assert(parse_lines(s0, lines) == parse_lines(s1, d1));
    assert(parse_lines(s1, d1) == parse_lines(s2, d2));
    assert(parse_lines(s2, d2) == parse_lines(s3, d3));
    assert(parse_lines(s3, d3) == parse_lines(s4, d4));
    assert(parse_lines(s4, Seq::<Seq<char>>::empty()) == s4);
}

/// A `User-agent:` line that follows a rule line closes the group built so far: parsing
/// `User-agent: a`, `Disallow: p`, `User-agent: b`, `Disallow: q` (neither agent `*`)
/// adds two groups after the existing ones, `a` with only the rule for `p` and `b` with
/// only the rule for `q`, and leaves the default group alone.
pub proof fn law_user_agent_after_rule_starts_group(
    m: ParserModel,
    lines: Seq<Seq<char>>,
    a: Seq<char>,
    p: Seq<char>,
    b: Seq<char>,
    q: Seq<char>,
)
    requires
        two_groups_lines(lines, a, p, b, q),
        a != "*"@,
        b != "*"@,
    ensures
        parse_document(m, lines).entries == m.entries + seq![
            single_rule_group(a, p),
            single_rule_group(b, q),
        ],
        parse_document(m, lines).default_entry == m.default_entry,
{
    lemma_two_groups_steps(m, lines, a, p, b, q);
    assert(!single_rule_group(a, p).useragents.contains("*"@)) by {
        assert(single_rule_group(a, p).useragents[0] == a);
    }
    assert(!single_rule_group(b, q).useragents.contains("*"@)) by {
        assert(single_rule_group(b, q).useragents[0] == b);
    }
    assert(m.entries.push(single_rule_group(a, p)).push(single_rule_group(b, q)) =~= m.entries
        + seq![single_rule_group(a, p), single_rule_group(b, q)]);
}

/// A `User-agent: *` line after another group's rule starts the default group rather
/// than joining that group: parsing `User-agent: a`, `Disallow: p`, `User-agent: *`,
/// `Disallow: q` into a parser with no default group makes `a`'s group a specific
/// entry with only `p`, and the default group `*` with only `q`.
pub proof fn law_catch_all_after_rule_starts_default(
    m: ParserModel,
    lines: Seq<Seq<char>>,
    a: Seq<char>,
    p: Seq<char>,
    q: Seq<char>,
)
    requires
        two_groups_lines(lines, a, p, "*"@, q),
        a != "*"@,
        m.default_entry is None,
    ensures
        parse_document(m, lines).entries == m.entries.push(single_rule_group(a, p)),
        parse_document(m, lines).default_entry == Some(single_rule_group("*"@, q)),
{
    lemma_two_groups_steps(m, lines, a, p, "*"@, q);
    assert(!single_rule_group(a, p).useragents.contains("*"@)) by {
        assert(single_rule_group(a, p).useragents[0] == a);
    }
    assert(single_rule_group("*"@, q).useragents[0] == "*"@);
}

/// A canonical path that holds a `?` is not empty.
proof fn lemma_canonical_path_with_query(path: Seq<char>, query: Seq<char>)
    ensures
        canonical_path(path + seq!['?'] + query).len() > 0,
{
    let x = path + seq!['?'] + query;
    crate::text::lemma_char_pos(x, '?', 0);
    assert(x[path.len() as int] == '?');
}

/// The query counts: once a file is parsed, a URL whose path (not starting with `//`)
/// and non-empty query, joined by `?` and normalized, start with the path of the first
/// rule of the selected group that applies to it, and that rule disallows, is refused.
pub proof fn law_query_is_judged(
    m: ParserModel,
    useragent: Seq<char>,
    url: Seq<char>,
    e: EntryModel,
    k: int,
)
    requires
        m.last_checked,
        !m.disallow_all,
        !m.allow_all,
        split_url(url, Seq::empty(), true) matches Ok(parts) && {
            let target = canonical_path(parts.2 + seq!['?'] + parts.3);
            &&& parts.3.len() > 0
            &&& parts.4.len() == 0
            &&& !crate::text::starts_with(parts.2, seq!['/', '/'])
            &&& 0 <= k < e.rulelines.len()
            &&& !e.rulelines[k].allowance
            &&& crate::text::starts_with(target, e.rulelines[k].path)
            &&& forall|j: int| 0 <= j < k ==> !rule_applies(#[trigger] e.rulelines[j], target)
        },
        selected_entry(m, useragent) == Some(e),
    ensures
        fetch_outcome(m, useragent, url) == Ok::<bool, Seq<char>>(false),
{
    let parts = split_url(url, Seq::empty(), true)->Ok_0;
    let target = canonical_path(parts.2 + seq!['?'] + parts.3);
    lemma_canonical_path_with_query(parts.2, parts.3);
    assert(crate::url::unsplit_relative(parts.2, parts.3, parts.4) =~= parts.2 + seq!['?']
        + parts.3);
    assert(crate::url::request_path(parts.2, parts.3, parts.4) == target);
    law_first_applicable_rule_decides(e.rulelines, target, k);
}

/// Once a file is parsed, the crawl delay for a user-agent is that of the first specific
/// group that applies to it, `None` included: the default group is not consulted then.
pub proof fn law_delay_of_first_applicable_group(m: ParserModel, useragent: Seq<char>, k: int)
    requires
        m.last_checked,
        0 <= k < m.entries.len(),
        entry_applies(m.entries[k], useragent),
        forall|j: int| 0 <= j < k ==> !entry_applies(#[trigger] m.entries[j], useragent),
    ensures
        delay_for(m, useragent) == m.entries[k].delay,
{
    lemma_select_first(m.entries, m.default_entry, useragent, k);
}

/// Once a file is parsed, a user-agent that no specific group applies to gets the
/// default group's crawl delay, and `None` without a default group.
pub proof fn law_delay_falls_back_on_default(m: ParserModel, useragent: Seq<char>)
    requires
        m.last_checked,
        forall|j: int| 0 <= j < m.entries.len() ==> !entry_applies(#[trigger] m.entries[j], useragent),
    ensures
        delay_for(m, useragent) == match m.default_entry {
            Some(d) => d.delay,
            None => None,
        },
{
    lemma_select_default(m.entries, m.default_entry, useragent);
}

/// Once a file is parsed, the request rate for a user-agent is that of the first
/// specific group that applies to it, `None` included.
pub proof fn law_rate_of_first_applicable_group(m: ParserModel, useragent: Seq<char>, k: int)
    requires
        m.last_checked,
        0 <= k < m.entries.len(),
        entry_applies(m.entries[k], useragent),
        forall|j: int| 0 <= j < k ==> !entry_applies(#[trigger] m.entries[j], useragent),
    ensures
        rate_for(m, useragent) == m.entries[k].req_rate,
{
    lemma_select_first(m.entries, m.default_entry, useragent, k);
}

/// Once a file is parsed, a user-agent that no specific group applies to gets the
/// default group's request rate, and `None` without a default group.
pub proof fn law_rate_falls_back_on_default(m: ParserModel, useragent: Seq<char>)
    requires
        m.last_checked,
        forall|j: int| 0 <= j < m.entries.len() ==> !entry_applies(#[trigger] m.entries[j], useragent),
    ensures
        rate_for(m, useragent) == match m.default_entry {
            Some(d) => d.req_rate,
            None => None,
        },
{
    lemma_select_default(m.entries, m.default_entry, useragent);
}

/// The blocks of the text form: block `k` is the text of specific group `k`, in file
/// order, and a last block holds the default group when there is one.
pub open spec fn text_blocks(m: ParserModel) -> Seq<Seq<char>> {
    let n = m.entries.len();
    Seq::new(
        if m.default_entry is Some {
            n + 1
        } else {
            n as nat
        },
        |k: int|
            if k < n {
                entry_text(m.entries[k])
            } else {
                entry_text(m.default_entry->0)
            },
    )
}

/// The text form is the groups' texts, the specific groups in file order and then the
/// default group, separated by blank lines.
pub proof fn law_text_lists_groups_in_order(m: ParserModel)
    ensures
        parser_text(m) == join_with(text_blocks(m), "\n\n"@),
{
    assert(consulted_entries(m).map_values(|e: EntryModel| entry_text(e)) =~= text_blocks(m));
}

// ---------------------------------------------------------------------------
// How lines make groups
// ---------------------------------------------------------------------------

/// Whether `raw` is a non-empty line that holds the directive `key: value`.
pub open spec fn line_holds(raw: Seq<char>, key: Seq<char>, value: Seq<char>) -> bool {
    raw.len() > 0 && directive(raw) == Some((key, value))
}

/// Whether `heads` are `User-agent:` lines that name `agents`, one each, in order.
pub open spec fn agent_lines(heads: Seq<Seq<char>>, agents: Seq<Seq<char>>) -> bool {
    &&& heads.len() == agents.len()
    &&& forall|i: int| 0 <= i < heads.len() ==> line_holds(#[trigger] heads[i], "user-agent"@, agents[i])
}

/// Whether `raw` is a non-empty `Allow:` or `Disallow:` line.
pub open spec fn is_rule_line(raw: Seq<char>) -> bool {
    &&& raw.len() > 0
    &&& match directive(raw) {
        Some((key, _)) => key == "allow"@ || key == "disallow"@,
        None => false,
    }
}

/// The rule that a rule line gives: its value normalized, allowing when the key is
/// `allow` or the value is empty.
pub open spec fn rule_of_line(raw: Seq<char>) -> RuleModel {
    match directive(raw) {
        Some((key, value)) => RuleModel {
            path: canonical_path(value),
            allowance: key == "allow"@ || value.len() == 0,
        },
        None => RuleModel { path: Seq::empty(), allowance: true },
    }
}

/// The group that `User-agent:` lines naming `agents` and then the rule lines `body`
/// make: those agents, one rule per rule line in file order, no delay and no rate.
pub open spec fn rule_group(agents: Seq<Seq<char>>, body: Seq<Seq<char>>) -> EntryModel {
    EntryModel {
        useragents: agents,
        rulelines: body.map_values(|l: Seq<char>| rule_of_line(l)),
        delay: None,
        req_rate: None,
    }
}

/// What `User-agent:` lines do from the start of a group (or from within the agent
/// lines of one): they add their agents to the group being built, in order.
proof fn lemma_agent_lines(st: ParseState, heads: Seq<Seq<char>>, agents: Seq<Seq<char>>)
    requires
        agent_lines(heads, agents),
        st.state <= 1,
        st.state == 0 ==> st.entry == empty_entry(),
    ensures
        parse_lines(st, heads).model == st.model,
        heads.len() > 0 ==> parse_lines(st, heads).state == 1,
        heads.len() == 0 ==> parse_lines(st, heads) == st,
        parse_lines(st, heads).entry == (EntryModel {
            useragents: st.entry.useragents + agents,
            ..st.entry
        }),
    decreases heads.len(),
{
    if heads.len() == 0 {
        assert(st.entry.useragents + agents =~= st.entry.useragents);
    } else {
        lemma_keys_distinct();
        assert(line_holds(heads[0], "user-agent"@, agents[0]));
        let next = parse_line(st, heads[0]);
        assert(next.state == 1 && next.model == st.model);
        assert(next.entry == (EntryModel {
            useragents: st.entry.useragents.push(agents[0]),
            ..st.entry
        }));
        assert(agent_lines(heads.drop_first(), agents.drop_first())) by {
            assert forall|i: int| 0 <= i < heads.drop_first().len() implies line_holds(
                #[trigger] heads.drop_first()[i],
                "user-agent"@,
                agents.drop_first()[i],
            ) by {
                assert(line_holds(heads[i + 1], "user-agent"@, agents[i + 1]));
            }
        }
        lemma_agent_lines(next, heads.drop_first(), agents.drop_first());
        assert(st.entry.useragents.push(agents[0]) + agents.drop_first() =~= st.entry.useragents
            + agents);
    }
}

/// What rule lines do inside a group: they append their rules, in order, and leave
/// the parser in state 2.
proof fn lemma_rule_lines(st: ParseState, body: Seq<Seq<char>>)
    requires
        st.state != 0,
        forall|i: int| 0 <= i < body.len() ==> is_rule_line(#[trigger] body[i]),
    ensures
        parse_lines(st, body).model == st.model,
        body.len() > 0 ==> parse_lines(st, body).state == 2,
        body.len() == 0 ==> parse_lines(st, body) == st,
        parse_lines(st, body).entry == (EntryModel {
            rulelines: st.entry.rulelines + body.map_values(|l: Seq<char>| rule_of_line(l)),
            ..st.entry
        }),
    decreases body.len(),
{
    if body.len() == 0 {
        assert(st.entry.rulelines + body.map_values(|l: Seq<char>| rule_of_line(l))
            =~= st.entry.rulelines);
    } else {
        lemma_keys_distinct();
        let raw = body[0];
        assert(is_rule_line(raw));
        let next = parse_line(st, raw);
        assert(next.state == 2 && next.model == st.model);
        assert(next.entry == (EntryModel {
            rulelines: st.entry.rulelines.push(rule_of_line(raw)),
            ..st.entry
        }));
        let rest = body.drop_first();
        assert(forall|i: int| 0 <= i < rest.len() ==> is_rule_line(#[trigger] rest[i])) by {
            assert forall|i: int| 0 <= i < rest.len() implies is_rule_line(#[trigger] rest[i]) by {
                assert(rest[i] == body[i + 1]);
            }
        }
        lemma_rule_lines(next, rest);
        assert(st.entry.rulelines.push(rule_of_line(raw)) + rest.map_values(
            |l: Seq<char>| rule_of_line(l),
        ) =~= st.entry.rulelines + body.map_values(|l: Seq<char>| rule_of_line(l)));
    }
}

/// Where agent lines and then rule lines leave the parser: in state 2, the parser as it
/// was, with the group of those agents and rules being built.
proof fn lemma_group_lines(m: ParserModel, heads: Seq<Seq<char>>, agents: Seq<Seq<char>>, body: Seq<Seq<char>>)
    requires
        agent_lines(heads, agents),
        agents.len() > 0,
        body.len() > 0,
        forall|i: int| 0 <= i < body.len() ==> is_rule_line(#[trigger] body[i]),
    ensures
        parse_lines(parse_start(m), heads + body) == (ParseState {
            model: parse_start(m).model,
            state: 2,
            entry: rule_group(agents, body),
        }),
{
    let st0 = parse_start(m);
    lemma_parse_lines_append(st0, heads, body);
    lemma_agent_lines(st0, heads, agents);
    let mid = parse_lines(st0, heads);
    assert(Seq::<Seq<char>>::empty() + agents =~= agents);
    lemma_rule_lines(mid, body);
    assert(Seq::<RuleModel>::empty() + body.map_values(|l: Seq<char>| rule_of_line(l))
        =~= body.map_values(|l: Seq<char>| rule_of_line(l)));
}

/// A group is its run of `User-agent:` lines and the `Allow:` and `Disallow:` lines that
/// follow: parsing agent lines naming `agents`, then rule lines, makes one group that
/// names those agents in order and holds one rule per rule line, in file order (an
/// `Allow:` rule allows, a `Disallow:` rule disallows unless its value is empty). A
/// group without `*` is added after the existing groups; one with `*` becomes the
/// default group if there is none yet, and is dropped otherwise.
pub proof fn law_group_is_agents_and_rules(
    m: ParserModel,
    heads: Seq<Seq<char>>,
    agents: Seq<Seq<char>>,
    body: Seq<Seq<char>>,
)
    requires
        agent_lines(heads, agents),
        agents.len() > 0,
        body.len() > 0,
        forall|i: int| 0 <= i < body.len() ==> is_rule_line(#[trigger] body[i]),
    ensures
        ({
            let g = rule_group(agents, body);
            let d = parse_document(m, heads + body);
            if agents.contains("*"@) {
                &&& d.entries == m.entries
                &&& d.default_entry == if m.default_entry is None {
                    Some(g)
                } else {
                    m.default_entry
                }
            } else {
                &&& d.entries == m.entries.push(g)
                &&& d.default_entry == m.default_entry
            }
        }),
{
    lemma_group_lines(m, heads, agents, body);
}

/// Whether a line holds a `User-agent:` directive.
pub open spec fn names_agent(raw: Seq<char>) -> bool {
    match directive(raw) {
        Some((key, _)) => key == "user-agent"@,
        None => false,
    }
}

/// Whether none of `lines` holds a `User-agent:` directive.
pub open spec fn no_agent_line(lines: Seq<Seq<char>>) -> bool {
    forall|i: int| 0 <= i < lines.len() ==> !names_agent(#[trigger] lines[i])
}

/// Outside any group, lines without a `User-agent:` directive stay outside: the state
/// stays 0 with nothing being built, and the parser changes in its sitemaps only.
proof fn lemma_lines_without_agents(st: ParseState, lines: Seq<Seq<char>>)
    requires
        st.state == 0,
        st.entry == empty_entry(),
        no_agent_line(lines),
    ensures
        parse_lines(st, lines).state == 0,
        parse_lines(st, lines).entry == empty_entry(),
        without_sitemaps(parse_lines(st, lines).model) == without_sitemaps(st.model),
    decreases lines.len(),
{
    if lines.len() > 0 {
        lemma_keys_distinct();
        let raw = lines[0];
        assert(!names_agent(raw));
        let next = parse_line(st, raw);
        assert(after_blank(st, raw) == st);
        assert(next.state == 0 && next.entry == empty_entry());
        assert(without_sitemaps(next.model) == without_sitemaps(st.model));
        let rest = lines.drop_first();
        assert(no_agent_line(rest)) by {
            assert forall|i: int| 0 <= i < rest.len() implies !names_agent(#[trigger] rest[i]) by {
                assert(rest[i] == lines[i + 1]);
            }
        }
        lemma_lines_without_agents(next, rest);
    }
}

/// Two states that differ only in their sitemaps stay so, line after line.
proof fn lemma_lines_ignore_sitemaps(s1: ParseState, s2: ParseState, lines: Seq<Seq<char>>)
    requires
        same_but_sitemaps(s1, s2),
    ensures
        same_but_sitemaps(parse_lines(s1, lines), parse_lines(s2, lines)),
    decreases lines.len(),
{
    if lines.len() > 0 {
        lemma_parse_line_ignores_sitemaps(s1, s2, lines[0]);
        lemma_lines_ignore_sitemaps(
            parse_line(s1, lines[0]),
            parse_line(s2, lines[0]),
            lines.drop_first(),
        );
    }
}

/// Parsing from two states that differ only in their sitemaps ends in parsers that
/// differ only in their sitemaps.
proof fn lemma_finish_ignores_sitemaps(s1: ParseState, s2: ParseState, lines: Seq<Seq<char>>)
    requires
        same_but_sitemaps(s1, s2),
    ensures
        ({
            let e1 = parse_lines(s1, lines);
            let e2 = parse_lines(s2, lines);
            let d1 = if e1.state == 2 {
                add_entry(e1.model, e1.entry)
            } else {
                e1.model
            };
            let d2 = if e2.state == 2 {
                add_entry(e2.model, e2.entry)
            } else {
                e2.model
            };
            without_sitemaps(d1) == without_sitemaps(d2)
        }),
{
    lemma_lines_ignore_sitemaps(s1, s2, lines);
    let e1 = parse_lines(s1, lines);
    let e2 = parse_lines(s2, lines);
    lemma_add_entry_ignores_sitemaps(e1.model, e2.model, e1.entry);
}

/// Lines before the first `User-agent:` line belong to no group: taking them off the
/// front of a file changes nothing but the sitemaps, whatever rule, crawl-delay or
/// request-rate lines they hold.
pub proof fn law_lines_before_first_agent_ignored(
    m: ParserModel,
    pre: Seq<Seq<char>>,
    rest: Seq<Seq<char>>,
)
    requires
        no_agent_line(pre),
    ensures
        without_sitemaps(parse_document(m, pre + rest)) == without_sitemaps(
            parse_document(m, rest),
        ),
{
    let st0 = parse_start(m);
    lemma_parse_lines_append(st0, pre, rest);
    lemma_lines_without_agents(st0, pre);
    let mid = parse_lines(st0, pre);
    assert(same_but_sitemaps(mid, st0));
    lemma_finish_ignores_sitemaps(mid, st0, rest);
}

/// A file without a `User-agent:` line adds no group and leaves the default group
/// alone.
pub proof fn law_no_agent_no_group(m: ParserModel, lines: Seq<Seq<char>>)
    requires
        no_agent_line(lines),
    ensures
        parse_document(m, lines).entries == m.entries,
        parse_document(m, lines).default_entry == m.default_entry,
{
    let st0 = parse_start(m);
    lemma_lines_without_agents(st0, lines);
    let end = parse_lines(st0, lines);
    assert(end.model.entries == without_sitemaps(end.model).entries);
    assert(st0.model.entries == without_sitemaps(st0.model).entries);
    assert(end.model.default_entry == without_sitemaps(end.model).default_entry);
    assert(st0.model.default_entry == without_sitemaps(st0.model).default_entry);
}

/// An empty line ends a group: after agent lines naming `agents` (none `*`) and rule
/// lines, an empty line closes the group, which is added after the existing groups,
/// and the lines after it up to the next `User-agent:` line belong to no group.
pub proof fn law_empty_line_ends_group(
    m: ParserModel,
    heads: Seq<Seq<char>>,
    agents: Seq<Seq<char>>,
    body: Seq<Seq<char>>,
    rest: Seq<Seq<char>>,
)
    requires
        agent_lines(heads, agents),
        agents.len() > 0,
        !agents.contains("*"@),
        body.len() > 0,
        forall|i: int| 0 <= i < body.len() ==> is_rule_line(#[trigger] body[i]),
        no_agent_line(rest),
    ensures
        parse_document(m, heads + body + seq![Seq::<char>::empty()] + rest).entries
            == m.entries.push(rule_group(agents, body)),
        parse_document(m, heads + body + seq![Seq::<char>::empty()] + rest).default_entry
            == m.default_entry,
{
    let st0 = parse_start(m);
    let blank = seq![Seq::<char>::empty()];
    lemma_group_lines(m, heads, agents, body);
    let grp = parse_lines(st0, heads + body);
    lemma_parse_lines_append(st0, heads + body, blank);
    lemma_parse_lines_append(st0, heads + body + blank, rest);
    lemma_empty_line_no_directive();
    assert(blank.drop_first() =~= Seq::<Seq<char>>::empty());
    assert(blank[0] == Seq::<char>::empty());
    let after = parse_line(grp, Seq::empty());
    assert(parse_lines(after, Seq::<Seq<char>>::empty()) == after);
    assert(parse_lines(grp, blank) == after);
    assert(!rule_group(agents, body).useragents.contains("*"@));
    assert(after.state == 0 && after.entry == empty_entry());
    assert(after.model == add_entry(st0.model, rule_group(agents, body)));
    lemma_lines_without_agents(after, rest);
    let end = parse_lines(after, rest);
    assert(end.model.entries == without_sitemaps(end.model).entries);
    assert(after.model.entries == without_sitemaps(after.model).entries);
    assert(end.model.default_entry == without_sitemaps(end.model).default_entry);
    assert(after.model.default_entry == without_sitemaps(after.model).default_entry);
}

/// A group with no rule line is dropped: agent lines followed by an empty line, and
/// then lines without a `User-agent:` line, add no group and leave the default group
/// alone.
pub proof fn law_group_without_rules_dropped(
    m: ParserModel,
    heads: Seq<Seq<char>>,
    agents: Seq<Seq<char>>,
    rest: Seq<Seq<char>>,
)
    requires
        agent_lines(heads, agents),
        no_agent_line(rest),
    ensures
        parse_document(m, heads + seq![Seq::<char>::empty()] + rest).entries == m.entries,
        parse_document(m, heads + seq![Seq::<char>::empty()] + rest).default_entry
            == m.default_entry,
{
    let st0 = parse_start(m);
    let blank = seq![Seq::<char>::empty()];
    lemma_agent_lines(st0, heads, agents);
    let grp = parse_lines(st0, heads);
    lemma_parse_lines_append(st0, heads, blank);
    lemma_parse_lines_append(st0, heads + blank, rest);
    lemma_empty_line_no_directive();
    assert(blank.drop_first() =~= Seq::<Seq<char>>::empty());
    assert(blank[0] == Seq::<char>::empty());
    let after = parse_line(grp, Seq::empty());
    assert(parse_lines(after, Seq::<Seq<char>>::empty()) == after);
    assert(parse_lines(grp, blank) == after);
    assert(after.state == 0 && after.entry == empty_entry());
    assert(after.model == st0.model);
    lemma_lines_without_agents(after, rest);
    let end = parse_lines(after, rest);
    assert(end.model.entries == without_sitemaps(end.model).entries);
    assert(after.model.entries == without_sitemaps(after.model).entries);
    assert(end.model.default_entry == without_sitemaps(end.model).default_entry);
    assert(after.model.default_entry == without_sitemaps(after.model).default_entry);
}

/// Whether `raw` is a non-empty `Crawl-delay:` or `Request-rate:` line.
pub open spec fn is_setting_line(raw: Seq<char>) -> bool {
    &&& raw.len() > 0
    &&& match directive(raw) {
        Some((key, _)) => key == "crawl-delay"@ || key == "request-rate"@,
        None => false,
    }
}

/// The delay of the last `Crawl-delay:` line of `lines` whose value gives one.
pub open spec fn last_valid_delay(lines: Seq<Seq<char>>) -> Option<i64>
    decreases lines.len(),
{
    if lines.len() == 0 {
        None
    } else {
        match directive(lines.last()) {
            Some((key, value)) => if key == "crawl-delay"@ && delay_value(value) is Some {
                delay_value(value)
            } else {
                last_valid_delay(lines.drop_last())
            },
            None => last_valid_delay(lines.drop_last()),
        }
    }
}

/// The rate of the last `Request-rate:` line of `lines` whose value gives one.
pub open spec fn last_valid_rate(lines: Seq<Seq<char>>) -> Option<RequestRate>
    decreases lines.len(),
{
    if lines.len() == 0 {
        None
    } else {
        match directive(lines.last()) {
            Some((key, value)) => if key == "request-rate"@ && rate_value(value) is Some {
                rate_value(value)
            } else {
                last_valid_rate(lines.drop_last())
            },
            None => last_valid_rate(lines.drop_last()),
        }
    }
}

/// What `Crawl-delay:` and `Request-rate:` lines do inside a group: the last valid
/// value of each is kept (an invalid one keeps what was there), no rule is added, and
/// the parser is left in state 2.
proof fn lemma_setting_lines(st: ParseState, body: Seq<Seq<char>>)
    requires
        st.state != 0,
        forall|i: int| 0 <= i < body.len() ==> is_setting_line(#[trigger] body[i]),
    ensures
        parse_lines(st, body).model == st.model,
        body.len() > 0 ==> parse_lines(st, body).state == 2,
        body.len() == 0 ==> parse_lines(st, body) == st,
        parse_lines(st, body).entry == (EntryModel {
            delay: if last_valid_delay(body) is Some {
                last_valid_delay(body)
            } else {
                st.entry.delay
            },
            req_rate: if last_valid_rate(body) is Some {
                last_valid_rate(body)
            } else {
                st.entry.req_rate
            },
            ..st.entry
        }),
    decreases body.len(),
{
    if body.len() > 0 {
        lemma_keys_distinct();
        let init = body.drop_last();
        let raw = body.last();
        assert(forall|i: int| 0 <= i < init.len() ==> is_setting_line(#[trigger] init[i])) by {
            assert forall|i: int| 0 <= i < init.len() implies is_setting_line(#[trigger] init[i]) by {
                assert(init[i] == body[i]);
            }
        }
        lemma_setting_lines(st, init);
        lemma_parse_lines_append(st, init, seq![raw]);
        assert(init + seq![raw] =~= body);
        let mid = parse_lines(st, init);
        assert(mid.state != 0);
        let next = parse_line(mid, raw);
        assert(seq![raw].drop_first() =~= Seq::<Seq<char>>::empty());
        assert(seq![raw][0] == raw);
        assert(parse_lines(next, Seq::<Seq<char>>::empty()) == next);
        assert(parse_lines(mid, seq![raw]) == next);
        assert(is_setting_line(body[body.len() - 1]));
        assert(next.state == 2 && next.model == mid.model);
    }
}

/// A group's crawl delay and request rate are the last valid ones it gives: parsing
/// agent lines naming `agents` (none `*`), then `Crawl-delay:` and `Request-rate:` lines,
/// adds after the existing groups a group that names those agents, has no rules, and
/// holds the delay of the last `Crawl-delay:` line whose value is a number and the rate
/// of the last `Request-rate:` line whose value is two numbers (`None` where there is no
/// such line).
pub proof fn law_last_valid_setting_wins(
    m: ParserModel,
    heads: Seq<Seq<char>>,
    agents: Seq<Seq<char>>,
    body: Seq<Seq<char>>,
)
    requires
        agent_lines(heads, agents),
        agents.len() > 0,
        !agents.contains("*"@),
        body.len() > 0,
        forall|i: int| 0 <= i < body.len() ==> is_setting_line(#[trigger] body[i]),
    ensures
        parse_document(m, heads + body).entries == m.entries.push(
            EntryModel {
                useragents: agents,
                rulelines: Seq::empty(),
                delay: last_valid_delay(body),
                req_rate: last_valid_rate(body),
            },
        ),
        parse_document(m, heads + body).default_entry == m.default_entry,
{
    let st0 = parse_start(m);
    lemma_parse_lines_append(st0, heads, body);
    lemma_agent_lines(st0, heads, agents);
    let mid = parse_lines(st0, heads);
    assert(Seq::<Seq<char>>::empty() + agents =~= agents);
    lemma_setting_lines(mid, body);
    let g = EntryModel {
        useragents: agents,
        rulelines: Seq::empty(),
        delay: last_valid_delay(body),
        req_rate: last_valid_rate(body),
    };
    assert(parse_lines(st0, heads + body).entry == g);
    assert(!g.useragents.contains("*"@));
}

/// A new parser is well formed.
pub proof fn law_new_well_formed(url: Seq<char>)
    ensures
        well_formed(with_url(empty_parser(), url)),
{
}

// ---------------------------------------------------------------------------
// Matching
// ---------------------------------------------------------------------------

/// First match wins: when rule `k` is the first that applies to a path, its allowance
/// decides, whatever the later rules say.
pub proof fn law_first_applicable_rule_decides(rules: Seq<RuleModel>, filename: Seq<char>, k: int)
    requires
        0 <= k < rules.len(),
        rule_applies(rules[k], filename),
        forall|j: int| 0 <= j < k ==> !rule_applies(#[trigger] rules[j], filename),
    ensures
        first_match(rules, filename) == rules[k].allowance,
    decreases k,
{
    if k > 0 {
        assert(rules.drop_first()[k - 1] == rules[k]);
        assert forall|j: int| 0 <= j < k - 1 implies !rule_applies(
            #[trigger] rules.drop_first()[j],
            filename,
        ) by {
            assert(rules.drop_first()[j] == rules[j + 1]);
        }
        assert(!rule_applies(rules[0], filename));
        law_first_applicable_rule_decides(rules.drop_first(), filename, k - 1);
    }
}

/// When no rule applies to a path, it is allowed.
pub proof fn law_no_applicable_rule_allows(rules: Seq<RuleModel>, filename: Seq<char>)
    requires
        forall|j: int| 0 <= j < rules.len() ==> !rule_applies(#[trigger] rules[j], filename),
    ensures
        first_match(rules, filename),
    decreases rules.len(),
{
    if rules.len() > 0 {
        assert(!rule_applies(rules[0], filename));
        assert forall|j: int| 0 <= j < rules.len() - 1 implies !rule_applies(
            #[trigger] rules.drop_first()[j],
            filename,
        ) by {
            assert(rules.drop_first()[j] == rules[j + 1]);
        }
        law_no_applicable_rule_allows(rules.drop_first(), filename);
    }
}

/// A rule applies to every path that starts with its path.
pub proof fn law_rule_matches_by_prefix(rule: RuleModel, rest: Seq<char>)
    ensures
        rule_applies(rule, rule.path + rest),
{
    assert((rule.path + rest).subrange(0, rule.path.len() as int) =~= rule.path);
}

/// An empty `Disallow:` allows everything: its rule applies to every path and allows.
pub proof fn law_empty_disallow_allows(filename: Seq<char>)
    ensures
        rule_applies(rule_model(Seq::empty(), false), filename),
        rule_model(Seq::empty(), false).allowance,
{
    let r = rule_model(Seq::empty(), false);
    let e = Seq::<char>::empty();
    assert(encode_utf8(e) =~= Seq::<u8>::empty());
    assert(percent_decode(Seq::<u8>::empty()) =~= Seq::<u8>::empty());
    assert(canonical(e) =~= e);
    assert(canonical_path(e) =~= e);
    assert(filename.subrange(0, 0) =~= e);
}

/// The first specific entry that applies to a user-agent answers for it; the default
/// entry is considered only after all specific ones.
pub proof fn law_specific_entry_first(m: ParserModel, useragent: Seq<char>, k: int)
    requires
        0 <= k < m.entries.len(),
        entry_applies(m.entries[k], useragent),
        forall|j: int| 0 <= j < k ==> !entry_applies(#[trigger] m.entries[j], useragent),
    ensures
        selected_entry(m, useragent) == Some(m.entries[k]),
{
    lemma_select_first(m.entries, m.default_entry, useragent, k);
}

/// `select_entry` picks the first entry that applies.
proof fn lemma_select_first(
    entries: Seq<EntryModel>,
    default: Option<EntryModel>,
    useragent: Seq<char>,
    k: int,
)
    requires
        0 <= k < entries.len(),
        entry_applies(entries[k], useragent),
        forall|j: int| 0 <= j < k ==> !entry_applies(#[trigger] entries[j], useragent),
    ensures
        select_entry(entries, default, useragent) == Some(entries[k]),
    decreases k,
{
    if k > 0 {
        assert(!entry_applies(entries[0], useragent));
        assert forall|j: int| 0 <= j < k - 1 implies !entry_applies(
            #[trigger] entries.drop_first()[j],
            useragent,
        ) by {
            assert(entries.drop_first()[j] == entries[j + 1]);
        }
        assert(entries.drop_first()[k - 1] == entries[k]);
        lemma_select_first(entries.drop_first(), default, useragent, k - 1);
    }
}

/// `select_entry` falls back on the default when no entry applies.
proof fn lemma_select_default(
    entries: Seq<EntryModel>,
    default: Option<EntryModel>,
    useragent: Seq<char>,
)
    requires
        forall|j: int| 0 <= j < entries.len() ==> !entry_applies(#[trigger] entries[j], useragent),
    ensures
        select_entry(entries, default, useragent) == default,
    decreases entries.len(),
{
    if entries.len() > 0 {
        assert(!entry_applies(entries[0], useragent));
        assert forall|j: int| 0 <= j < entries.len() - 1 implies !entry_applies(
            #[trigger] entries.drop_first()[j],
            useragent,
        ) by {
            assert(entries.drop_first()[j] == entries[j + 1]);
        }
        lemma_select_default(entries.drop_first(), default, useragent);
    }
}

/// When no specific entry applies to a user-agent, the default entry (if any) answers.
pub proof fn law_default_entry_last(m: ParserModel, useragent: Seq<char>)
    requires
        forall|j: int| 0 <= j < m.entries.len() ==> !entry_applies(#[trigger] m.entries[j], useragent),
    ensures
        selected_entry(m, useragent) == m.default_entry,
{
    lemma_select_default(m.entries, m.default_entry, useragent);
}

/// The catch-all agent `*` matches every user-agent.
pub proof fn law_catch_all_matches(useragent: Seq<char>)
    ensures
        agent_applies("*"@, useragent),
{
}

/// Only the name before the first `/` of a user-agent counts: a version after it
/// changes no match, so each group, the selected group, and every answer are the same
/// for `name` and for `name/version`.
pub proof fn law_agent_version_ignored(
    m: ParserModel,
    name: Seq<char>,
    version: Seq<char>,
    url: Seq<char>,
)
    requires
        !name.contains('/'),
    ensures
        agent_token(name + seq!['/'] + version) == agent_token(name),
        forall|e: EntryModel| #[trigger] entry_applies(e, name + seq!['/'] + version) == entry_applies(e, name),
        fetch_outcome(m, name + seq!['/'] + version, url) == fetch_outcome(m, name, url),
        delay_for(m, name + seq!['/'] + version) == delay_for(m, name),
        rate_for(m, name + seq!['/'] + version) == rate_for(m, name),
{
    let full = name + seq!['/'] + version;
    crate::text::lemma_char_pos(full, '/', name.len() as int);
    crate::text::lemma_char_pos(name, '/', name.len() as int);
    assert(forall|j: int| 0 <= j < name.len() ==> full[j] == name[j]);
    assert(full[name.len() as int] == '/');
    assert(full.take(name.len() as int) =~= name);
    assert(name.take(name.len() as int) =~= name);
    assert(agent_token(full) == agent_token(name));
    assert forall|e: EntryModel| #[trigger] entry_applies(e, full) == entry_applies(e, name) by {
        assert forall|i: int| 0 <= i < e.useragents.len() implies agent_applies(
            #[trigger] e.useragents[i],
            full,
        ) == agent_applies(e.useragents[i], name) by {}
    }
    lemma_select_same(m.entries, m.default_entry, full, name);
}

/// Two user-agents that every entry matches alike select the same entry.
proof fn lemma_select_same(
    entries: Seq<EntryModel>,
    default: Option<EntryModel>,
    u1: Seq<char>,
    u2: Seq<char>,
)
    requires
        forall|e: EntryModel| #[trigger] entry_applies(e, u1) == entry_applies(e, u2),
    ensures
        select_entry(entries, default, u1) == select_entry(entries, default, u2),
    decreases entries.len(),
{
    if entries.len() > 0 {
        assert(entry_applies(entries[0], u1) == entry_applies(entries[0], u2));
        lemma_select_same(entries.drop_first(), default, u1, u2);
    }
}

/// A user-agent that no entry answers for may fetch every path.
pub proof fn law_unknown_agent_allowed(m: ParserModel, useragent: Seq<char>, filename: Seq<char>)
    requires
        selected_entry(m, useragent) is None,
    ensures
        path_allowed(m, useragent, filename),
{
}

/// Before a file is parsed, nothing may be fetched (unless everything is allowed).
pub proof fn law_unparsed_denies(m: ParserModel, useragent: Seq<char>, url: Seq<char>)
    requires
        !m.last_checked,
        !m.allow_all,
    ensures
        fetch_outcome(m, useragent, url) == Ok::<bool, Seq<char>>(false),
{
}

/// A new parser denies every request until a file is parsed.
pub proof fn law_new_parser_denies(robots_url: Seq<char>, useragent: Seq<char>, url: Seq<char>)
    ensures
        fetch_outcome(with_url(empty_parser(), robots_url), useragent, url) == Ok::<
            bool,
            Seq<char>,
        >(false),
{
}

/// A `Crawl-delay:` value counts only when it is all digits (and fits an `i64`), and
/// then it is read in base ten.
pub proof fn law_delay_needs_digits(value: Seq<char>)
    ensures
        delay_value(value) is Some <==> all_digits(value) && decimal_value(value) <= i64::MAX,
        delay_value(value) matches Some(d) ==> d == decimal_value(value),
{
}

/// A `Request-rate:` value counts only when it is two all-digit numbers around a single
/// `/`.
pub proof fn law_rate_needs_two_numbers(value: Seq<char>)
    ensures
        rate_value(value) matches Some(r) ==> {
            let slash = crate::text::char_pos(value, '/');
            &&& slash < value.len()
            &&& all_digits(crate::text::trim(value.take(slash as int)))
            &&& all_digits(crate::text::trim(value.skip(slash + 1int)))
            &&& r.requests == decimal_value(crate::text::trim(value.take(slash as int)))
            &&& r.seconds == decimal_value(crate::text::trim(value.skip(slash + 1int)))
        },
{
    crate::text::lemma_char_pos(value, '/', 0);
}

} // verus!
