//! Find and replace in the Markdown source, and the blank lines that make an
//! inserted block a paragraph of its own.
//!
//! Matching is done by the `regex` crate; a plain query is escaped first, so
//! both modes go through the same engine and give UTF-8 byte ranges that can
//! be handed to `String::replace_range` directly.

use crate::diff_editor::ranges_model;
use crate::text::{at_boundary, byte_len, char_index_of, copy_range};
use std::ops::Range;
use vstd::prelude::*;

verus! {

#[verifier::external_type_specification]
#[verifier::external_body]
pub struct ExRegexError(regex::Error);

/// The characters that `regex::escape` puts a backslash before.
pub open spec fn is_regex_meta(c: char) -> bool {
    c == '\\' || c == '.' || c == '+' || c == '*' || c == '?' || c == '(' || c == ')' || c == '|'
        || c == '[' || c == ']' || c == '{' || c == '}' || c == '^' || c == '$' || c == '#' || c == '&'
        || c == '-' || c == '~'
}

/// `s` with a backslash before every meta character.
pub open spec fn regex_escaped(s: Seq<char>) -> Seq<char>
    decreases s.len(),
{
    if s.len() == 0 {
        seq![]
    } else {
        regex_escaped(s.drop_last()) + if is_regex_meta(s.last()) {
            seq!['\\', s.last()]
        } else {
            seq![s.last()]
        }
    }
}

/// Whether `pattern` compiles, ASCII and Unicode case folded or not.
pub uninterp spec fn regex_compiles(pattern: Seq<char>, case_insensitive: bool) -> bool;

/// The successive non-overlapping matches of `pattern` in `text`, as byte
/// ranges.
pub uninterp spec fn regex_matches(pattern: Seq<char>, case_insensitive: bool, text: Seq<char>) -> Seq<(nat, nat)>;

/// Byte ranges of `s` in order, not overlapping, each on character
/// boundaries.
pub open spec fn ordered_boundary_ranges(s: Seq<char>, rs: Seq<(nat, nat)>) -> bool {
    &&& forall|i: int|
        0 <= i < rs.len() ==> #[trigger] rs[i].0 <= rs[i].1 <= byte_len(s) && at_boundary(s, rs[i].0)
            && at_boundary(s, rs[i].1)
    &&& forall|i: int, j: int| 0 <= i < j < rs.len() ==> #[trigger] rs[i].1 <= #[trigger] rs[j].0
}

/// `regex::escape`: the source puts a backslash before each meta character
/// (`\ . + * ? ( ) | [ ] { } ^ $ # & - ~`) and copies every other character;
/// that is what the contract states.
#[verifier::external_body]
fn escape_pattern(query: &str) -> (r: String)
    ensures
        r@ == regex_escaped(query@),
{
    regex::escape(query)
}

/// Compiles `pattern` with `regex::RegexBuilder` (case folding as asked) and
/// collects the ranges of `Regex::find_iter` over `text`. The contract
/// names whether the pattern compiles and which matches it finds, and states
/// what the crate documents of every match: successive, non-overlapping,
/// `start <= end`, both on character boundaries of the text.
#[verifier::external_body]
fn regex_find_all(pattern: &str, case_insensitive: bool, text: &str) -> (r: Result<Vec<Range<usize>>, regex::Error>)
    ensures
        r is Ok <==> regex_compiles(pattern@, case_insensitive),
        r matches Ok(v) ==> ranges_model(v@) == regex_matches(pattern@, case_insensitive, text@)
            && ordered_boundary_ranges(text@, ranges_model(v@)),
{
    match regex::RegexBuilder::new(pattern).case_insensitive(case_insensitive).build() {
        Ok(regex) => Ok(regex.find_iter(text).map(|found| found.start()..found.end()).collect()),
        Err(error) => Err(error),
    }
}

/// The message of a compile error, as `Display` writes it. Nothing is
/// stated of the text.
#[verifier::external_body]
fn regex_error_message(error: &regex::Error) -> (r: String) {
    error.to_string()
}

/// The match `Regex::captures_at` finds searching from byte `start`, as a
/// byte range.
pub uninterp spec fn regex_match_at(pattern: Seq<char>, case_insensitive: bool, text: Seq<char>, start: nat) -> Option<(nat, nat)>;

/// What `Captures::expand` writes for `replacement` with the captures of that
/// match.
pub uninterp spec fn regex_expansion(
    pattern: Seq<char>,
    case_insensitive: bool,
    text: Seq<char>,
    start: nat,
    replacement: Seq<char>,
) -> Seq<char>;

/// Compiles `pattern` with `regex::RegexBuilder`, runs `Regex::captures_at`
/// from `start` and expands `replacement` with `Captures::expand`. `None`
/// when the pattern does not compile (the same test as `regex_find_all`
/// makes); `Some(None)` when nothing matches from `start` on. The contract
/// names the match and the expansion and states what the crate documents: the
/// match lies in the text at or after `start`. `captures_at` panics when
/// `start` is past the end of the text, which `requires` leaves out.
#[verifier::external_body]
fn regex_expand_at(pattern: &str, case_insensitive: bool, text: &str, start: usize, replacement: &str) -> (r: Option<
    Option<(Range<usize>, String)>,
>)
    requires
        start <= byte_len(text@),
    ensures
        r is Some <==> regex_compiles(pattern@, case_insensitive),
        r matches Some(found) ==> match found {
            Some((range, expanded)) => regex_match_at(pattern@, case_insensitive, text@, start as nat) == Some(
                (range.start as nat, range.end as nat),
            ) && expanded@ == regex_expansion(pattern@, case_insensitive, text@, start as nat, replacement@)
                && start <= range.start <= range.end <= byte_len(text@),
            None => regex_match_at(pattern@, case_insensitive, text@, start as nat) is None,
        },
{
    match regex::RegexBuilder::new(pattern).case_insensitive(case_insensitive).build() {
        Ok(regex) => match regex.captures_at(text, start) {
            Some(captures) => {
                let mut expanded = String::new();
                captures.expand(replacement, &mut expanded);
                Some(Some((captures.get_match().range(), expanded)))
            },
            None => Some(None),
        },
        Err(_) => None,
    }
}

/// The text that replaces the match at byte range `m` (see
/// `expanded_replacement`).
pub open spec fn expanded_model(
    text: Seq<char>,
    query: Seq<char>,
    replacement: Seq<char>,
    case_sensitive: bool,
    regex_mode: bool,
    m: (nat, nat),
) -> Seq<char> {
    if !regex_mode || !regex_compiles(query, !case_sensitive) {
        replacement
    } else {
        match regex_match_at(query, !case_sensitive, text, m.0) {
            Some((a, b)) => if a == m.0 && b == m.1 {
                regex_expansion(query, !case_sensitive, text, m.0, replacement)
            } else {
                replacement
            },
            None => replacement,
        }
    }
}

/// The text that replaces the match at `range`: in regex mode the
/// replacement with `$name` / `$1` references expanded from the captures of
/// the match that starts the search at `range.start`, when that match is
/// exactly `range`; otherwise the replacement as written.
pub fn expanded_replacement(
    text: &str,
    query: &str,
    replacement: &str,
    case_sensitive: bool,
    regex_mode: bool,
    range: &Range<usize>,
) -> (r: String)
    requires
        range.start <= byte_len(text@),
    ensures
        r@ == expanded_model(text@, query@, replacement@, case_sensitive, regex_mode, (range.start as nat, range.end as nat)),
{
    if !regex_mode {
        return replacement.to_owned();
    }
    match regex_expand_at(query, !case_sensitive, text, range.start, replacement) {
        Some(Some((found, expanded))) => {
            if found.start == range.start && found.end == range.end {
                expanded
            } else {
                replacement.to_owned()
            }
        },
        _ => replacement.to_owned(),
    }
}

/// The pattern a query stands for: itself in regex mode, else escaped.
pub open spec fn query_pattern(query: Seq<char>, regex_mode: bool) -> Seq<char> {
    if regex_mode {
        query
    } else {
        regex_escaped(query)
    }
}

/// Non-overlapping matches of `query`, as plain text or as a regular
/// expression; a pattern that does not compile gives its error message.
pub fn markdown_matches_mode(text: &str, query: &str, case_sensitive: bool, regex_mode: bool) -> (r: Result<
    Vec<Range<usize>>,
    String,
>)
    ensures
        query@.len() == 0 ==> (r matches Ok(v) && v.len() == 0),
        query@.len() > 0 ==> (r is Ok <==> regex_compiles(query_pattern(query@, regex_mode), !case_sensitive)),
        query@.len() > 0 ==> (r matches Ok(v) ==> ranges_model(v@) == regex_matches(
            query_pattern(query@, regex_mode),
            !case_sensitive,
            text@,
        )),
        r matches Ok(v) ==> ordered_boundary_ranges(text@, ranges_model(v@)),
{
    if query.is_empty() {
        let none: Vec<Range<usize>> = Vec::new();
        assert(ordered_boundary_ranges(text@, ranges_model(none@)));
        return Ok(none);
    }
    let pattern = if regex_mode {
        query.to_owned()
    } else {
        escape_pattern(query)
    };
    match regex_find_all(pattern.as_str(), !case_sensitive, text) {
        Ok(ranges) => Ok(ranges),
        Err(error) => Err(regex_error_message(&error)),
    }
}

/// Non-overlapping matches of a plain-text query; none when the query is
/// empty or cannot be searched for.
pub fn markdown_matches(text: &str, query: &str, case_sensitive: bool) -> (r: Vec<Range<usize>>)
    ensures
        query@.len() == 0 ==> r.len() == 0,
        query@.len() > 0 ==> ranges_model(r@) == if regex_compiles(regex_escaped(query@), !case_sensitive) {
            regex_matches(regex_escaped(query@), !case_sensitive, text@)
        } else {
            Seq::empty()
        },
        ordered_boundary_ranges(text@, ranges_model(r@)),
{
    match markdown_matches_mode(text, query, case_sensitive, false) {
        Ok(ranges) => ranges,
        Err(_) => {
            let none: Vec<Range<usize>> = Vec::new();
            assert(ranges_model(none@) =~= Seq::<(nat, nat)>::empty());
            none
        },
    }
}

/// How many newlines to add on one side of an insertion point so that an
/// inserted block stands as its own paragraph: `before` looks at the text
/// before the point (and pads after it), otherwise at the text after it.
pub open spec fn padding_for(side: Seq<char>, before: bool) -> Seq<char> {
    let one = if before {
        side.len() >= 1 && side.last() == '\n'
    } else {
        side.len() >= 1 && side[0] == '\n'
    };
    let two = if before {
        side.len() >= 2 && side[side.len() - 1] == '\n' && side[side.len() - 2] == '\n'
    } else {
        side.len() >= 2 && side[0] == '\n' && side[1] == '\n'
    };
    if side.len() == 0 || two {
        seq![]
    } else if one {
        seq!['\n']
    } else {
        seq!['\n', '\n']
    }
}

/// The newlines that make an inserted block a paragraph of its own, on one
/// side of the insertion point; none at the very start or end.
pub fn blank_line_padding(side: &str, before: bool) -> (r: &'static str)
    ensures
        r@ == padding_for(side@, before),
{
    let v = crate::text::chars_of(side);
    let n = v.len();
    if n == 0 {
        proof {
            reveal_strlit("");
        }
        return "";
    }
    let (one, two) = if before {
        (v[n - 1] == '\n', n >= 2 && v[n - 1] == '\n' && v[n - 2] == '\n')
    } else {
        (v[0] == '\n', n >= 2 && v[0] == '\n' && v[1] == '\n')
    };
    proof {
        reveal_strlit("");
        reveal_strlit("\n");
        reveal_strlit("\n\n");
    }
    if two {
        ""
    } else if one {
        "\n"
    } else {
        "\n\n"
    }
}

// ---------------------------------------------------------------------------
// The find bar's actions.

/// What `Regex::replace_all` gives for `replacement` over `text`.
pub uninterp spec fn regex_replaced(pattern: Seq<char>, case_insensitive: bool, text: Seq<char>, replacement: Seq<char>) -> Seq<char>;

/// Compiles `pattern` with `regex::RegexBuilder` (case folding as asked) and
/// runs `Regex::replace_all` over `text`. `None` when the pattern does not
/// compile (the same test as `regex_find_all` makes). The contract names
/// the result; `replace_all` expands `$name` / `$1` in every match, which
/// takes the crate's own rules to state.
#[verifier::external_body]
fn regex_replace_all(pattern: &str, case_insensitive: bool, text: &str, replacement: &str) -> (r: Option<String>)
    ensures
        r is Some <==> regex_compiles(pattern@, case_insensitive),
        r matches Some(out) ==> out@ == regex_replaced(pattern@, case_insensitive, text@, replacement@),
{
    match regex::RegexBuilder::new(pattern).case_insensitive(case_insensitive).build() {
        Ok(regex) => Some(regex.replace_all(text, replacement).into_owned()),
        Err(_) => None,
    }
}

/// The buttons of the find bar.
#[derive(Clone, Copy, Debug, PartialEq, Eq, Structural)]
pub enum FindAction {
    Previous,
    Next,
    Replace,
    ReplaceAll,
}

/// The character bounds of byte range `m` of `s`.
pub open spec fn char_span(s: Seq<char>, m: (nat, nat)) -> (int, int) {
    (char_index_of(s, m.0), char_index_of(s, m.1))
}

pub open spec fn char_spans(s: Seq<char>, ms: Seq<(nat, nat)>) -> Seq<(int, int)> {
    ms.map_values(|m: (nat, nat)| char_span(s, m))
}

/// `s` with the characters `span` replaced by `rep`.
pub open spec fn spliced(s: Seq<char>, span: (int, int), rep: Seq<char>) -> Seq<char> {
    s.take(span.0) + rep + s.skip(span.1)
}

/// `s` with every span of `cs` (in order, not overlapping) replaced by
/// `rep`.
pub open spec fn all_replaced(s: Seq<char>, cs: Seq<(int, int)>, rep: Seq<char>) -> Seq<char>
    decreases cs.len(),
{
    if cs.len() == 0 {
        s
    } else {
        all_replaced(s.take(cs.last().0), cs.drop_last(), rep) + rep + s.skip(cs.last().1)
    }
}

/// The matches the bar shows for `query` in `text`: none for an empty query
/// or a pattern that does not compile.
pub open spec fn shown_matches(text: Seq<char>, query: Seq<char>, case_sensitive: bool, regex_mode: bool) -> Seq<(nat, nat)> {
    if query.len() == 0 || !regex_compiles(query_pattern(query, regex_mode), !case_sensitive) {
        seq![]
    } else {
        regex_matches(query_pattern(query, regex_mode), !case_sensitive, text)
    }
}

/// The first match from index `k` on that starts at or after `offset`.
pub open spec fn first_from(ms: Seq<(nat, nat)>, offset: nat, k: int) -> Option<int>
    decreases ms.len() - k,
{
    if k < 0 || k >= ms.len() {
        None
    } else if ms[k].0 >= offset {
        Some(k)
    } else {
        first_from(ms, offset, k + 1)
    }
}

/// The index of the first match starting at or after `offset`, or 0.
pub open spec fn first_at_or_after(ms: Seq<(nat, nat)>, offset: nat) -> nat {
    match first_from(ms, offset, 0) {
        Some(k) => k as nat,
        None => 0,
    }
}

pub open spec fn match_at(ms: Seq<(nat, nat)>, i: nat) -> Option<(nat, nat)> {
    if i < ms.len() {
        Some(ms[i as int])
    } else {
        None
    }
}

pub open spec fn opt_range_model(r: Option<Range<usize>>) -> Option<(nat, nat)> {
    match r {
        Some(x) => Some((x.start as nat, x.end as nat)),
        None => None,
    }
}

/// The current match after stepping back: from the first to the last.
pub open spec fn step_back(current: nat, len: nat) -> nat {
    if current == 0 {
        (len - 1) as nat
    } else {
        (current - 1) as nat
    }
}

/// What a button of the find bar does to the text `s` with the matches
/// `ms`, the current match `current`: the new text, the new current match,
/// and the match to select.
pub open spec fn find_action_model(
    s: Seq<char>,
    current: nat,
    action: FindAction,
    ms: Seq<(nat, nat)>,
    query: Seq<char>,
    replacement: Seq<char>,
    case_sensitive: bool,
    regex_mode: bool,
) -> (Seq<char>, nat, Option<(nat, nat)>) {
    if ms.len() == 0 {
        (s, current, None)
    } else {
        match action {
            FindAction::Previous => (s, step_back(current, ms.len()), match_at(ms, step_back(current, ms.len()))),
            FindAction::Next => (s, ((current + 1) % ms.len()) as nat, match_at(ms, ((current + 1) % ms.len()) as nat)),
            FindAction::Replace => {
                let m = ms[current as int];
                let rep = expanded_model(s, query, replacement, case_sensitive, regex_mode, m);
                let t = spliced(s, char_span(s, m), rep);
                let fresh = shown_matches(t, query, case_sensitive, regex_mode);
                let next = first_at_or_after(fresh, m.0 + byte_len(rep));
                (t, next, match_at(fresh, next))
            },
            FindAction::ReplaceAll => {
                let t = if regex_mode {
                    if regex_compiles(query, !case_sensitive) {
                        regex_replaced(query, !case_sensitive, s, replacement)
                    } else {
                        s
                    }
                } else {
                    all_replaced(s, char_spans(s, ms), replacement)
                };
                (t, 0, None)
            },
        }
    }
}

/// The character indices of two boundaries keep their byte order.
proof fn lemma_char_index_order(s: Seq<char>, x: nat, y: nat)
    requires
        at_boundary(s, x),
        at_boundary(s, y),
        x <= y,
    ensures
        0 <= char_index_of(s, x) <= char_index_of(s, y) <= s.len(),
        byte_len(s.take(char_index_of(s, x))) == x,
        byte_len(s.take(char_index_of(s, y))) == y,
{
    let a = char_index_of(s, x);
    let b = char_index_of(s, y);
    if a > b {
        crate::text::lemma_byte_len_take_mono(s, b, a);
    }
}

/// Adding text after the last span changes nothing before it.
proof fn lemma_all_replaced_extend(t: Seq<char>, u: Seq<char>, cs: Seq<(int, int)>, rep: Seq<char>)
    requires
        forall|i: int| 0 <= i < cs.len() ==> 0 <= (#[trigger] cs[i]).0 <= cs[i].1 <= t.len(),
    ensures
        all_replaced(t + u, cs, rep) == all_replaced(t, cs, rep) + u,
    decreases cs.len(),
{
    if cs.len() == 0 {
    } else {
        let l = cs.last();
        assert(l == cs[cs.len() - 1]);
        let d = cs.drop_last();
        assert((t + u).take(l.0) =~= t.take(l.0));
        assert((t + u).skip(l.1) =~= t.skip(l.1) + u);
        assert(all_replaced(t + u, cs, rep) =~= all_replaced(t.take(l.0), d, rep) + rep + (t.skip(l.1) + u));
        assert(all_replaced(t, cs, rep) + u =~= all_replaced(t.take(l.0), d, rep) + rep + (t.skip(l.1) + u));
    }
}

/// The characters of `v` with `v[a..b]` replaced by `rep`.
fn splice_chars(v: &Vec<char>, a: usize, b: usize, rep: &Vec<char>) -> (r: Vec<char>)
    requires
        a <= b <= v.len(),
    ensures
        r@ == spliced(v@, (a as int, b as int), rep@),
{
    let mut out = copy_range(v, 0, a);
    let mut mid = copy_range(rep, 0, rep.len());
    out.append(&mut mid);
    let mut tail = copy_range(v, b, v.len());
    out.append(&mut tail);
    assert(v@.subrange(0, a as int) =~= v@.take(a as int));
    assert(rep@.subrange(0, rep.len() as int) =~= rep@);
    assert(v@.subrange(b as int, v.len() as int) =~= v@.skip(b as int));
    out
}

/// The character index at a byte offset known to fall between characters.
fn boundary_index(v: &Vec<char>, byte: usize) -> (r: usize)
    requires
        byte_len(v@) <= usize::MAX,
        at_boundary(v@, byte as nat),
    ensures
        r == char_index_of(v@, byte as nat),
        r <= v.len(),
        byte_len(v@.take(r as int)) == byte,
{
    match crate::text::char_at_byte(v, byte) {
        Some(k) => k,
        None => 0,
    }
}

#[verifier::rlimit(40)]
fn replace_all_plain(v: &Vec<char>, matches: &Vec<Range<usize>>, rep: &Vec<char>) -> (r: Vec<char>)
    requires
        byte_len(v@) <= usize::MAX,
        ordered_boundary_ranges(v@, ranges_model(matches@)),
    ensures
        r@ == all_replaced(v@, char_spans(v@, ranges_model(matches@)), rep@),
{
    let ghost s = v@;
    let ghost ms = ranges_model(matches@);
    let ghost cs = char_spans(s, ms);
    let mut out: Vec<char> = Vec::new();
    let mut pos: usize = 0;
    let mut k: usize = 0;
    proof {
        assert(cs.take(0) =~= Seq::<(int, int)>::empty());
        assert(s.take(0) =~= Seq::<char>::empty());
    }
    while k < matches.len()
        invariant
            k <= matches.len(),
            s == v@,
            ms == ranges_model(matches@),
            cs == char_spans(s, ms),
            byte_len(v@) <= usize::MAX,
            ordered_boundary_ranges(s, ms),
            pos <= v.len(),
            k == 0 ==> pos == 0,
            k > 0 ==> pos as int == cs[k - 1].1 && byte_len(s.take(pos as int)) == ms[k - 1].1,
            out@ == all_replaced(s.take(pos as int), cs.take(k as int), rep@),
            forall|i: int| 0 <= i < k ==> 0 <= (#[trigger] cs[i]).0 <= cs[i].1 <= pos,
        decreases matches.len() - k,
    {
        let m = matches[k].start..matches[k].end;
        proof {
            assert(ms[k as int] == (matches@[k as int].start as nat, matches@[k as int].end as nat));
            assert(ms[k as int].0 <= ms[k as int].1 <= byte_len(s) && at_boundary(s, ms[k as int].0) && at_boundary(s, ms[k as int].1));
            lemma_char_index_order(s, m.start as nat, m.end as nat);
            if k > 0 {
                assert(ms[k - 1].1 <= ms[k as int].0);
                assert(at_boundary(s, ms[k - 1].1));
                lemma_char_index_order(s, ms[k - 1].1, m.start as nat);
                crate::text::lemma_char_index_of(s, pos as int);
            } else {
                assert(s.take(0) =~= Seq::<char>::empty());
                crate::text::lemma_char_index_of(s, 0);
                lemma_char_index_order(s, 0, m.start as nat);
            }
        }
        let a = boundary_index(v, m.start);
        let b = boundary_index(v, m.end);
        let ghost before = out@;
        let mut gap = copy_range(v, pos, a);
        out.append(&mut gap);
        let mut r = copy_range(rep, 0, rep.len());
        out.append(&mut r);
        proof {
            assert(cs[k as int] == (a as int, b as int));
            assert(rep@.subrange(0, rep.len() as int) =~= rep@);
            let t = s.take(pos as int);
            let u = s.subrange(pos as int, a as int);
            assert(t + u =~= s.take(a as int));
            lemma_all_replaced_extend(t, u, cs.take(k as int), rep@);
            let c2 = cs.take(k + 1);
            assert(c2.drop_last() =~= cs.take(k as int));
            assert(c2.last() == (a as int, b as int));
            assert(s.take(b as int).take(a as int) =~= s.take(a as int));
            assert(s.take(b as int).skip(b as int) =~= Seq::<char>::empty());
            assert(out@ =~= all_replaced(s.take(b as int), c2, rep@));
        }
        pos = b;
        k += 1;
    }
    let mut tail = copy_range(v, pos, v.len());
    out.append(&mut tail);
    proof {
        assert(cs.take(matches.len() as int) =~= cs);
        let t = s.take(pos as int);
        let u = s.subrange(pos as int, s.len() as int);
        assert(t + u =~= s);
        lemma_all_replaced_extend(t, u, cs, rep@);
    }
    out
}

fn first_starting_at(ms: &Vec<Range<usize>>, offset: usize) -> (r: usize)
    ensures
        r == first_at_or_after(ranges_model(ms@), offset as nat),
{
    let ghost rm = ranges_model(ms@);
    let mut k: usize = 0;
    while k < ms.len()
        invariant
            k <= ms.len(),
            rm == ranges_model(ms@),
            first_from(rm, offset as nat, 0) == first_from(rm, offset as nat, k as int),
        decreases ms.len() - k,
    {
        assert(rm[k as int].0 == ms@[k as int].start);
        if ms[k].start >= offset {
            return k;
        }
        k += 1;
    }
    0
}

fn match_at_exec(ms: &Vec<Range<usize>>, i: usize) -> (r: Option<Range<usize>>)
    ensures
        opt_range_model(r) == match_at(ranges_model(ms@), i as nat),
{
    if i < ms.len() {
        Some(ms[i].start..ms[i].end)
    } else {
        None
    }
}

/// Run a button of the find bar on the text, given the matches the bar
/// shows and the current one: step to the previous or next match (going
/// round), replace the current match and go on to the first match after the
/// replacement, or replace every match (in regex mode by the regex crate over
/// the whole text). Returns the match to select.
#[verifier::spinoff_prover]
#[verifier::rlimit(40)]
pub fn run_find_action(
    text: &mut String,
    current: &mut usize,
    action: FindAction,
    matches: &Vec<Range<usize>>,
    query: &str,
    replacement: &str,
    case_sensitive: bool,
    regex_mode: bool,
) -> (selected: Option<Range<usize>>)
    requires
        ordered_boundary_ranges(old(text)@, ranges_model(matches@)),
        matches.len() > 0 && action == FindAction::Replace ==> *old(current) < matches.len(),
        matches.len() > 0 && action == FindAction::Next ==> *old(current) < usize::MAX,
    ensures
        ({
            let m = find_action_model(
                old(text)@,
                *old(current) as nat,
                action,
                ranges_model(matches@),
                query@,
                replacement@,
                case_sensitive,
                regex_mode,
            );
            &&& final(text)@ == m.0
            &&& *final(current) as nat == m.1
            &&& opt_range_model(selected) == m.2
        }),
{
    let ghost s = text@;
    let ghost ms = ranges_model(matches@);
    if matches.len() == 0 {
        return None;
    }
    match action {
        FindAction::Previous => {
            *current = if *current == 0 {
                matches.len() - 1
            } else {
                *current - 1
            };
            match_at_exec(matches, *current)
        },
        FindAction::Next => {
            *current = (*current + 1) % matches.len();
            match_at_exec(matches, *current)
        },
        FindAction::Replace => {
            let m = matches[*current].start..matches[*current].end;
            crate::text::str_bytes_fit(text.as_str());
            let v = crate::text::chars_of(text.as_str());
            proof {
                assert(ms[*current as int] == (m.start as nat, m.end as nat));
                assert(ms[*current as int].0 <= ms[*current as int].1 <= byte_len(s) && at_boundary(s, ms[*current as int].0) && at_boundary(s, ms[*current as int].1));
                lemma_char_index_order(s, m.start as nat, m.end as nat);
                crate::text::lemma_byte_len_take_le(s, char_index_of(s, m.start as nat));
            }
            let rep = expanded_replacement(text.as_str(), query, replacement, case_sensitive, regex_mode, &m);
            let a = boundary_index(&v, m.start);
            let b = boundary_index(&v, m.end);
            let rc = crate::text::chars_of(rep.as_str());
            let nv = splice_chars(&v, a, b, &rc);
            assert(nv.len() == a + rc.len() + (v.len() - b));
            *text = crate::text::string_of(&nv);
            crate::text::str_bytes_fit(text.as_str());
            proof {
                assert(nv@.take(a + rc.len()) =~= s.take(a as int) + rc@);
                crate::text::lemma_byte_len_concat(s.take(a as int), rc@);
                crate::text::lemma_byte_len_take_le(nv@, a + rc.len());
            }
            let next_offset = crate::text::prefix_bytes(&nv, a + rc.len());
            let fresh = match markdown_matches_mode(text.as_str(), query, case_sensitive, regex_mode) {
                Ok(found) => found,
                Err(_) => Vec::new(),
            };
            proof {
                let f = shown_matches(text@, query@, case_sensitive, regex_mode);
                if query@.len() == 0 || !regex_compiles(query_pattern(query@, regex_mode), !case_sensitive) {
                    assert(ranges_model(fresh@) =~= f);
                }
            }
            *current = first_starting_at(&fresh, next_offset);
            match_at_exec(&fresh, *current)
        },
        FindAction::ReplaceAll => {
            if regex_mode {
                match regex_replace_all(query, !case_sensitive, text.as_str(), replacement) {
                    Some(replaced) => {
                        *text = replaced;
                    },
                    None => {},
                }
            } else {
                crate::text::str_bytes_fit(text.as_str());
                let v = crate::text::chars_of(text.as_str());
                let rc = crate::text::chars_of(replacement);
                let nv = replace_all_plain(&v, matches, &rc);
                *text = crate::text::string_of(&nv);
            }
            *current = 0;
            None
        },
    }
}

/// `first_from` picks the first match from `k` on that starts at or after
/// `offset`, and finds none only when every match from `k` on starts
/// earlier.
proof fn lemma_first_from(ms: Seq<(nat, nat)>, offset: nat, k: int)
    requires
        0 <= k <= ms.len(),
    ensures
        match first_from(ms, offset, k) {
            Some(r) => {
                &&& k <= r < ms.len()
                &&& ms[r].0 >= offset
                &&& forall|j: int| k <= j < r ==> (#[trigger] ms[j]).0 < offset
            },
            None => forall|j: int| k <= j < ms.len() ==> (#[trigger] ms[j]).0 < offset,
        },
    decreases ms.len() - k,
{
    if k < ms.len() && ms[k].0 < offset {
        lemma_first_from(ms, offset, k + 1);
    }
}

/// After Replace the bar selects the first match of the new text that starts
/// at or after the end of the inserted replacement: every match before it
/// starts earlier, and one starting exactly at that end is the one selected.
/// When no match starts that late it goes back to the first match.
pub proof fn lemma_replace_selects_next(
    s: Seq<char>,
    current: nat,
    ms: Seq<(nat, nat)>,
    query: Seq<char>,
    replacement: Seq<char>,
    case_sensitive: bool,
    regex_mode: bool,
)
    requires
        current < ms.len(),
    ensures
        ({
            let m = ms[current as int];
            let rep = expanded_model(s, query, replacement, case_sensitive, regex_mode, m);
            let t = spliced(s, char_span(s, m), rep);
            let fresh = shown_matches(t, query, case_sensitive, regex_mode);
            let offset = m.0 + byte_len(rep);
            let out = find_action_model(s, current, FindAction::Replace, ms, query, replacement, case_sensitive, regex_mode);
            &&& out.0 == t
            &&& (exists|i: int| 0 <= i < fresh.len() && (#[trigger] fresh[i]).0 >= offset) ==> {
                &&& out.1 < fresh.len()
                &&& out.2 == Some(fresh[out.1 as int])
                &&& fresh[out.1 as int].0 >= offset
                &&& forall|j: int| 0 <= j < out.1 ==> (#[trigger] fresh[j]).0 < offset
            }
            &&& !(exists|i: int| 0 <= i < fresh.len() && (#[trigger] fresh[i]).0 >= offset) ==> {
                &&& out.1 == 0
                &&& out.2 == (if fresh.len() > 0 { Some(fresh[0]) } else { None::<(nat, nat)> })
            }
        }),
{
    let m = ms[current as int];
    let rep = expanded_model(s, query, replacement, case_sensitive, regex_mode, m);
    let t = spliced(s, char_span(s, m), rep);
    let fresh = shown_matches(t, query, case_sensitive, regex_mode);
    let offset = m.0 + byte_len(rep);
    lemma_first_from(fresh, offset, 0);
}

/// Previous undoes Next and Next undoes Previous: stepping one way and back
/// returns to the same match and selects it again, going round at either
/// end; neither step changes the text.
pub proof fn lemma_step_round_trip(
    s: Seq<char>,
    current: nat,
    ms: Seq<(nat, nat)>,
    query: Seq<char>,
    replacement: Seq<char>,
    case_sensitive: bool,
    regex_mode: bool,
)
    requires
        current < ms.len(),
    ensures
        ({
            let n = find_action_model(s, current, FindAction::Next, ms, query, replacement, case_sensitive, regex_mode);
            let back = find_action_model(n.0, n.1, FindAction::Previous, ms, query, replacement, case_sensitive, regex_mode);
            &&& n.0 == s
            &&& n.1 < ms.len()
            &&& n.2 == Some(ms[n.1 as int])
            &&& back.0 == s
            &&& back.1 == current
            &&& back.2 == Some(ms[current as int])
        }),
        ({
            let p = find_action_model(s, current, FindAction::Previous, ms, query, replacement, case_sensitive, regex_mode);
            let fwd = find_action_model(p.0, p.1, FindAction::Next, ms, query, replacement, case_sensitive, regex_mode);
            &&& p.0 == s
            &&& p.1 < ms.len()
            &&& p.2 == Some(ms[p.1 as int])
            &&& fwd.0 == s
            &&& fwd.1 == current
            &&& fwd.2 == Some(ms[current as int])
        }),
{
    let len = ms.len();
    if current + 1 < len {
        vstd::arithmetic::div_mod::lemma_small_mod((current + 1) as nat, len);
    } else {
        vstd::arithmetic::div_mod::lemma_mod_self_0(len as int);
    }
    let b = step_back(current, len);
    if b + 1 < len {
        vstd::arithmetic::div_mod::lemma_small_mod((b + 1) as nat, len);
    } else {
        vstd::arithmetic::div_mod::lemma_mod_self_0(len as int);
    }
}

} // verus!
