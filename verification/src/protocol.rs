//! A line protocol for comparing the parser with another implementation: each request
//! line carries a robots.txt document and queries, and is answered by one line.
//!
//! A request line is tab-separated: field 0 is the document (its lines joined by
//! U+001F) and each further field is a query, itself U+001F-separated: `CF<agent><url>`
//! (`can_fetch`), `CD<agent>` (`crawl_delay`), `RR<agent>` (`request_rate`), `SM`
//! (`site_maps`), `STR` (the text form). The answers are joined by U+001E: `True`,
//! `False` or `ERR`; an integer or `None`; `requests/seconds` or `None`; the sitemaps
//! joined by U+001F or `None`; the text form with newlines mapped to U+001F.

use vstd::prelude::*;

use crate::model::{
    delay_for, empty_parser, fetch_outcome, join_with, parse_document, parser_text, rate_for,
    with_url, ParserModel,
};
use crate::robots::{lines_model, RobotFileParser};
use crate::text::{
    char_pos, chars_of, decimal_digits, format_i64, format_u64, is_text, join_texts,
    lemma_char_pos, lemma_map_push, push_char, signed_decimal, string_of,
};

verus! {

/// Separates the fields of a query and the lines of a document.
pub const UNIT_SEP: char = '\u{1f}';

/// Separates the answers on an output line.
pub const RECORD_SEP: char = '\u{1e}';

/// Separates the document and the queries on a request line.
pub const FIELD_SEP: char = '\t';

/// `s` split at every `sep` (always at least one piece).
pub open spec fn split_on(s: Seq<char>, sep: char) -> Seq<Seq<char>>
    decreases s.len(),
{
    let p = char_pos(s, sep);
    proof {
        lemma_char_pos(s, sep, 0);
    }
    if p >= s.len() {
        seq![s]
    } else {
        seq![s.take(p as int)] + split_on(s.skip(p + 1int), sep)
    }
}

/// Splitting gives at least one piece.
pub proof fn lemma_split_nonempty(s: Seq<char>, sep: char)
    ensures
        split_on(s, sep).len() >= 1,
{
    lemma_char_pos(s, sep, 0);
}

/// `s` with every `from` replaced by `to`.
pub open spec fn replace_char(s: Seq<char>, from: char, to: char) -> Seq<char> {
    s.map_values(|c: char| if c == from { to } else { c })
}

/// A query that can be answered: a known kind with the fields it needs.
pub open spec fn query_ok(q: Seq<char>) -> bool {
    let f = split_on(q, UNIT_SEP);
    ||| f[0] == "CF"@ && f.len() >= 3
    ||| f[0] == "CD"@ && f.len() >= 2
    ||| f[0] == "RR"@ && f.len() >= 2
    ||| f[0] == "SM"@
    ||| f[0] == "STR"@
}

/// The answer to one query.
pub open spec fn query_answer(m: ParserModel, q: Seq<char>) -> Seq<char> {
    let f = split_on(q, UNIT_SEP);
    if f[0] == "CF"@ {
        match fetch_outcome(m, f[1], f[2]) {
            Ok(true) => "True"@,
            Ok(false) => "False"@,
            Err(_) => "ERR"@,
        }
    } else if f[0] == "CD"@ {
        match delay_for(m, f[1]) {
            Some(n) => signed_decimal(n as int),
            None => "None"@,
        }
    } else if f[0] == "RR"@ {
        match rate_for(m, f[1]) {
            Some(r) => decimal_digits(r.requests as nat) + "/"@ + decimal_digits(r.seconds as nat),
            None => "None"@,
        }
    } else if f[0] == "SM"@ {
        if m.sitemaps.len() == 0 {
            "None"@
        } else {
            join_with(m.sitemaps, seq![UNIT_SEP])
        }
    } else {
        replace_char(parser_text(m), '\n', UNIT_SEP)
    }
}

/// A request line whose queries can all be answered.
pub open spec fn request_ok(line: Seq<char>) -> bool {
    let fields = split_on(line, FIELD_SEP);
    forall|i: int| 1 <= i < fields.len() ==> query_ok(#[trigger] fields[i])
}

/// The parser that a request line's document gives.
pub open spec fn request_parser(line: Seq<char>) -> ParserModel {
    let fields = split_on(line, FIELD_SEP);
    parse_document(
        with_url(empty_parser(), "http://example.com/robots.txt"@),
        split_on(fields[0], UNIT_SEP),
    )
}

/// The answer line to a request line.
pub open spec fn response(line: Seq<char>) -> Seq<char> {
    let fields = split_on(line, FIELD_SEP);
    let m = request_parser(line);
    join_with(fields.skip(1).map_values(|q: Seq<char>| query_answer(m, q)), seq![RECORD_SEP])
}

/// `s` split at every `sep`.
pub fn split_text(s: &str, sep: char) -> (res: Vec<String>)
    ensures
        res@.map_values(|p: String| p@) == split_on(s@, sep),
        res.len() >= 1,
{
    let v = chars_of(s);
    let mut pieces: Vec<String> = Vec::new();
    let mut start: usize = 0;
    let mut i: usize = 0;
    assert(v@.skip(0) =~= v@);
    while i < v.len()
        invariant
            start <= i <= v.len(),
            forall|j: int| start <= j < i ==> v@[j] != sep,
            pieces@.map_values(|p: String| p@) + split_on(v@.skip(start as int), sep) == split_on(
                v@,
                sep,
            ),
        decreases v.len() - i,
    {
        if v[i] == sep {
            let piece = string_of(&v, start, i);
            let ghost rest = v@.skip(start as int);
            proof {
                lemma_char_pos(rest, sep, i - start);
                assert(rest.take(i - start) =~= piece@);
                assert(rest.skip(i - start + 1) =~= v@.skip(i + 1));
            }
            let ghost before = pieces@;
            pieces.push(piece);
            assert(pieces@.map_values(|p: String| p@) =~= before.map_values(|p: String| p@).push(
                piece@,
            ));
            assert(pieces@.map_values(|p: String| p@) + split_on(v@.skip(i + 1), sep)
                =~= split_on(v@, sep));
            start = i + 1;
        }
        i += 1;
    }
    let piece = string_of(&v, start, v.len());
    let ghost rest = v@.skip(start as int);
    proof {
        lemma_char_pos(rest, sep, rest.len() as int);
        assert(rest =~= piece@);
    }
    let ghost before = pieces@;
    pieces.push(piece);
    assert(pieces@.map_values(|p: String| p@) =~= before.map_values(|p: String| p@).push(piece@));
    pieces
}

/// `s` with every `from` replaced by `to`.
pub fn replace_text(s: &str, from: char, to: char) -> (res: String)
    ensures
        res@ == replace_char(s@, from, to),
{
    let v = chars_of(s);
    let mut out = String::new();
    let mut i: usize = 0;
    while i < v.len()
        invariant
            i <= v.len(),
            out@ == replace_char(v@.take(i as int), from, to),
        decreases v.len() - i,
    {
        if v[i] == from {
            push_char(&mut out, to);
        } else {
            push_char(&mut out, v[i]);
        }
        i += 1;
        assert(out@ =~= replace_char(v@.take(i as int), from, to));
    }
    assert(v@.take(v.len() as int) =~= v@);
    out
}

/// A `String` holding the one character `c`.
fn char_string(c: char) -> (res: String)
    ensures
        res@ == seq![c],
{
    let mut s = String::new();
    push_char(&mut s, c);
    assert(s@ =~= seq![c]);
    s
}

/// Whether a query can be answered.
pub fn query_is_well_formed(q: &str) -> (res: bool)
    ensures
        res == query_ok(q@),
{
    let f = split_text(q, UNIT_SEP);
    let ghost fm = f@.map_values(|p: String| p@);
    assert(fm[0] == f@[0]@);
    let kind = chars_of(f[0].as_str());
    (is_text(&kind, "CF") && f.len() >= 3) || (is_text(&kind, "CD") && f.len() >= 2) || (
    is_text(&kind, "RR") && f.len() >= 2) || is_text(&kind, "SM") || is_text(&kind, "STR")
}

/// Answers one query about a parsed document.
pub fn run_query(rp: &RobotFileParser, q: &str) -> (res: String)
    requires
        query_ok(q@),
    ensures
        res@ == query_answer(rp@, q@),
{
    let f = split_text(q, UNIT_SEP);
    let ghost fm = f@.map_values(|p: String| p@);
    assert(fm == split_on(q@, UNIT_SEP));
    assert(fm[0] == f@[0]@);
    let kind = chars_of(f[0].as_str());
    proof {
        reveal_strlit("CF");
        reveal_strlit("CD");
        reveal_strlit("RR");
        reveal_strlit("SM");
        reveal_strlit("STR");
        assert("CF"@[1] != "CD"@[1] && "CF"@[1] != "SM"@[1]);
        assert("CD"@[0] != "RR"@[0] && "CD"@[0] != "SM"@[0] && "CD"@[0] != "STR"@[0]);
        assert("RR"@[0] != "SM"@[0] && "RR"@[0] != "STR"@[0] && "RR"@[0] != "CF"@[0]);
        assert("CF"@.len() != "STR"@.len());
        assert("CF"@ != "STR"@ && "CF"@ != "SM"@ && "CF"@ != "CD"@);
        assert("CD"@ != "STR"@ && "CD"@ != "SM"@ && "CD"@ != "RR"@);
        assert("RR"@ != "STR"@ && "RR"@ != "SM"@ && "RR"@ != "CF"@);
    }
    if is_text(&kind, "CF") {
        assert(fm[1] == f@[1]@ && fm[2] == f@[2]@);
        match rp.can_fetch(f[1].as_str(), f[2].as_str()) {
            Ok(true) => "True".to_owned(),
            Ok(false) => "False".to_owned(),
            Err(_) => "ERR".to_owned(),
        }
    } else if is_text(&kind, "CD") {
        assert(fm[1] == f@[1]@);
        match rp.crawl_delay(f[1].as_str()) {
            Some(n) => format_i64(n),
            None => "None".to_owned(),
        }
    } else if is_text(&kind, "RR") {
        assert(fm[1] == f@[1]@);
        match rp.request_rate(f[1].as_str()) {
            Some(r) => {
                let mut out = format_u64(r.requests);
                out.append("/");
                let s = format_u64(r.seconds);
                out.append(s.as_str());
                out
            },
            None => "None".to_owned(),
        }
    } else if is_text(&kind, "SM") {
        match rp.site_maps() {
            Some(s) => {
                let sep = char_string(UNIT_SEP);
                join_texts(s, sep.as_str())
            },
            None => "None".to_owned(),
        }
    } else {
        let text = rp.to_string();
        replace_text(text.as_str(), '\n', UNIT_SEP)
    }
}

/// Whether every query of a request line can be answered.
pub fn request_is_well_formed(line: &str) -> (res: bool)
    ensures
        res == request_ok(line@),
{
    let fields = split_text(line, FIELD_SEP);
    let ghost fm = fields@.map_values(|p: String| p@);
    let mut i: usize = 1;
    while i < fields.len()
        invariant
            1 <= i,
            fm == fields@.map_values(|p: String| p@),
            fm == split_on(line@, FIELD_SEP),
            forall|j: int| 1 <= j < i && j < fm.len() ==> query_ok(#[trigger] fm[j]),
        decreases fields.len() - i,
    {
        assert(fm[i as int] == fields@[i as int]@);
        if !query_is_well_formed(fields[i].as_str()) {
            return false;
        }
        i += 1;
    }
    true
}

/// Parses the document of a request line and answers each of its queries.
pub fn dispatch(line: &str) -> (res: String)
    requires
        request_ok(line@),
    ensures
        res@ == response(line@),
{
    let fields = split_text(line, FIELD_SEP);
    let ghost fm = fields@.map_values(|p: String| p@);
    assert(fm[0] == fields@[0]@);
    let doc_lines = split_text(fields[0].as_str(), UNIT_SEP);
    let robots_url = "http://example.com/robots.txt";
    let mut rp = RobotFileParser::new(robots_url);
    let lines = doc_lines.as_slice();
    rp.parse(lines);
    assert(lines_model(lines) =~= split_on(fm[0], UNIT_SEP));
    let ghost m = rp@;
    let mut answers: Vec<String> = Vec::new();
    let mut i: usize = 1;
    while i < fields.len()
        invariant
            1 <= i <= fields.len(),
            fm == fields@.map_values(|p: String| p@),
            fm == split_on(line@, FIELD_SEP),
            request_ok(line@),
            m == rp@,
            answers@.map_values(|a: String| a@) == fm.subrange(1, i as int).map_values(
                |q: Seq<char>| query_answer(m, q),
            ),
        decreases fields.len() - i,
    {
        assert(fm[i as int] == fields@[i as int]@);
        assert(query_ok(fm[i as int]));
        let answer = run_query(&rp, fields[i].as_str());
        let ghost before = answers@;
        answers.push(answer);
        proof {
            lemma_map_push(before, answer, |a: String| a@);
            assert(fm.subrange(1, i + 1) =~= fm.subrange(1, i as int).push(fm[i as int]));
            lemma_map_push(fm.subrange(1, i as int), fm[i as int], |q: Seq<char>| query_answer(m, q));
        }
        i += 1;
    }
    assert(fm.subrange(1, fields.len() as int) =~= fm.skip(1));
    let sep = char_string(RECORD_SEP);
    join_texts(answers.as_slice(), sep.as_str())
}

} // verus!
