//! Text primitives over the character view of strings.
//!
//! Every `&str`/`String` is seen through its `Seq<char>` view; byte offsets are
//! the UTF-8 widths of the characters before a position.

use vstd::prelude::*;
use vstd::std_specs::iter::IteratorSpec;

verus! {

/// `String::push` appends one character.
pub assume_specification[ String::push ](s: &mut String, ch: char)
    ensures
        final(s)@ == old(s)@.push(ch),
;

/// `Range::clone`, used by the derived `Clone` of the diff results; nothing
/// about the copy is stated.
pub assume_specification<Idx: Clone>[ <std::ops::Range<Idx> as Clone>::clone ](
    r: &std::ops::Range<Idx>,
) -> std::ops::Range<Idx>;

/// Number of bytes that `c` takes in UTF-8.
pub open spec fn utf8_width(c: char) -> nat {
    if (c as u32) < 0x80 {
        1
    } else if (c as u32) < 0x800 {
        2
    } else if (c as u32) < 0x10000 {
        3
    } else {
        4
    }
}

/// Number of bytes that `s` takes in UTF-8.
pub open spec fn byte_len(s: Seq<char>) -> nat
    decreases s.len(),
{
    if s.len() == 0 {
        0
    } else {
        byte_len(s.drop_last()) + utf8_width(s.last())
    }
}

pub proof fn lemma_byte_len_concat(a: Seq<char>, b: Seq<char>)
    ensures
        byte_len(a + b) == byte_len(a) + byte_len(b),
    decreases b.len(),
{
    if b.len() == 0 {
        assert(a + b =~= a);
    } else {
        lemma_byte_len_concat(a, b.drop_last());
        assert((a + b).drop_last() =~= a + b.drop_last());
    }
}

pub proof fn lemma_byte_len_ge_len(s: Seq<char>)
    ensures
        byte_len(s) >= s.len(),
    decreases s.len(),
{
    if s.len() > 0 {
        lemma_byte_len_ge_len(s.drop_last());
    }
}

proof fn lemma_width_is_encoding(c: char)
    ensures
        vstd::utf8::encode_scalar(c as u32).len() == utf8_width(c),
{
    broadcast use vstd::utf8::char_is_scalar;

    assert(vstd::utf8::is_scalar(c as u32));
}

/// The character view's byte length agrees with the UTF-8 encoding, so it is
/// the `len()` of the string.
pub proof fn lemma_byte_len_is_encoding(s: Seq<char>)
    ensures
        byte_len(s) == vstd::utf8::encode_utf8(s).len(),
    decreases s.len(),
{
    if s.len() > 0 {
        lemma_byte_len_is_encoding(s.drop_first());
        lemma_byte_len_concat(seq![s[0]], s.drop_first());
        assert(seq![s[0]] + s.drop_first() =~= s);
        assert(seq![s[0]].drop_last() =~= Seq::<char>::empty());
        assert(seq![s[0]].last() == s[0]);
        assert(byte_len(Seq::<char>::empty()) == 0);
        assert(byte_len(seq![s[0]]) == utf8_width(s[0]));
        lemma_width_is_encoding(s[0]);
        assert(vstd::utf8::encode_utf8(s) == vstd::utf8::encode_scalar(s[0] as u32)
            + vstd::utf8::encode_utf8(s.drop_first()));
    }
}

/// The byte length of a string slice fits in `usize`.
pub fn str_bytes_fit(s: &str)
    ensures
        byte_len(s@) <= usize::MAX,
{
    let b = s.as_bytes();
    proof {
        vstd::slice::axiom_spec_len(b);
        lemma_byte_len_is_encoding(s@);
    }
}

/// UTF-8 width of one character.
pub fn char_width(c: char) -> (w: usize)
    ensures
        w == utf8_width(c),
{
    let u = c as u32;
    if u < 0x80 {
        1
    } else if u < 0x800 {
        2
    } else if u < 0x10000 {
        3
    } else {
        4
    }
}

/// The characters of `s`, in order.
pub fn chars_of(s: &str) -> (v: Vec<char>)
    ensures
        v@ == s@,
{
    broadcast use vstd::string::group_string_axioms;
    let mut v: Vec<char> = Vec::new();
    let mut it = s.chars();
    let ghost all = s@;
    loop
        invariant
            it.obeys_prophetic_iter_laws(),
            all == s@,
            it.remaining() == all.skip(v.len() as int),
            v.len() <= all.len(),
            v@ == all.take(v.len() as int),
        decreases all.len() - v.len(),
    {
        match it.next() {
            Some(c) => {
                assert(all.skip(v.len() as int)[0] == all[v.len() as int]);
                v.push(c);
                assert(all.skip((v.len() - 1) as int).drop_first() =~= all.skip(v.len() as int));
                assert(v@ =~= all.take(v.len() as int));
            },
            None => {
                assert(all.skip(v.len() as int).len() == 0);
                assert(v.len() == all.len());
                assert(v@ =~= all);
                assert(all == s@);
                return v;
            },
        }
    }
}

/// A `String` holding exactly the characters of `v[lo..hi]`.
pub fn string_of_range(v: &Vec<char>, lo: usize, hi: usize) -> (s: String)
    requires
        lo <= hi <= v.len(),
    ensures
        s@ == v@.subrange(lo as int, hi as int),
{
    let mut s = String::new();
    let mut i = lo;
    while i < hi
        invariant
            lo <= i <= hi <= v.len(),
            s@ == v@.subrange(lo as int, i as int),
        decreases hi - i,
    {
        s.push(v[i]);
        i += 1;
        assert(s@ =~= v@.subrange(lo as int, i as int));
    }
    s
}

/// A `String` holding exactly the characters of `v`.
pub fn string_of(v: &Vec<char>) -> (s: String)
    ensures
        s@ == v@,
{
    let s = string_of_range(v, 0, v.len());
    assert(v@.subrange(0, v.len() as int) =~= v@);
    s
}


/// Unicode `White_Space`, the set that `char::is_whitespace` and `str::trim` use.
pub open spec fn is_ws(c: char) -> bool {
    let u = c as u32;
    (0x09 <= u <= 0x0d) || u == 0x20 || u == 0x85 || u == 0xa0 || u == 0x1680 || (0x2000 <= u
        <= 0x200a) || u == 0x2028 || u == 0x2029 || u == 0x202f || u == 0x205f || u == 0x3000
}

pub fn is_whitespace(c: char) -> (r: bool)
    ensures
        r == is_ws(c),
{
    let u = c as u32;
    (0x09 <= u && u <= 0x0d) || u == 0x20 || u == 0x85 || u == 0xa0 || u == 0x1680 || (0x2000 <= u
        && u <= 0x200a) || u == 0x2028 || u == 0x2029 || u == 0x202f || u == 0x205f || u == 0x3000
}

pub open spec fn is_digit(c: char) -> bool {
    '0' <= c <= '9'
}

pub open spec fn is_alnum(c: char) -> bool {
    ('0' <= c <= '9') || ('a' <= c <= 'z') || ('A' <= c <= 'Z')
}

pub fn is_ascii_digit(c: char) -> (r: bool)
    ensures
        r == is_digit(c),
{
    '0' <= c && c <= '9'
}

pub fn is_ascii_alnum(c: char) -> (r: bool)
    ensures
        r == is_alnum(c),
{
    ('0' <= c && c <= '9') || ('a' <= c && c <= 'z') || ('A' <= c && c <= 'Z')
}

/// `s` without its leading whitespace.
pub open spec fn trim_start(s: Seq<char>) -> Seq<char>
    decreases s.len(),
{
    if s.len() > 0 && is_ws(s[0]) {
        trim_start(s.drop_first())
    } else {
        s
    }
}

/// `s` without its trailing whitespace.
pub open spec fn trim_end(s: Seq<char>) -> Seq<char>
    decreases s.len(),
{
    if s.len() > 0 && is_ws(s.last()) {
        trim_end(s.drop_last())
    } else {
        s
    }
}

/// `s` without leading and trailing whitespace, as `str::trim` gives it.
pub open spec fn trim(s: Seq<char>) -> Seq<char> {
    trim_end(trim_start(s))
}

/// Whether `s` holds only whitespace (the empty sequence included).
pub open spec fn is_blank(s: Seq<char>) -> bool {
    forall|k: int| 0 <= k < s.len() ==> is_ws(#[trigger] s[k])
}

pub proof fn lemma_trim_empty_iff_blank(s: Seq<char>)
    ensures
        (trim(s).len() == 0) == is_blank(s),
        (trim_start(s).len() == 0) == is_blank(s),
    decreases s.len(),
{
    if s.len() > 0 {
        lemma_trim_empty_iff_blank(s.drop_first());
        if is_ws(s[0]) {
            assert forall|k: int| 0 <= k < s.len() && is_blank(s.drop_first()) implies is_ws(
                #[trigger] s[k],
            ) by {
                if k > 0 {
                    assert(s[k] == s.drop_first()[k - 1]);
                }
            }
            assert(is_blank(s) ==> is_blank(s.drop_first())) by {
                if is_blank(s) {
                    assert forall|k: int| 0 <= k < s.drop_first().len() implies is_ws(
                        #[trigger] s.drop_first()[k],
                    ) by {
                        assert(s.drop_first()[k] == s[k + 1]);
                    }
                }
            }
        } else {
            lemma_trim_end_nonempty(s);
        }
    }
}

proof fn lemma_trim_end_nonempty(s: Seq<char>)
    requires
        s.len() > 0,
        !is_ws(s[0]),
    ensures
        trim_end(s).len() > 0,
    decreases s.len(),
{
    if is_ws(s.last()) {
        assert(s.len() > 1);
        assert(s.drop_last()[0] == s[0]);
        lemma_trim_end_nonempty(s.drop_last());
    }
}

/// The bounds of the trimmed part of `v[lo..hi]`.
pub fn trim_bounds(v: &Vec<char>, lo: usize, hi: usize) -> (r: (usize, usize))
    requires
        lo <= hi <= v.len(),
    ensures
        lo <= r.0 <= r.1 <= hi,
        v@.subrange(r.0 as int, r.1 as int) == trim(v@.subrange(lo as int, hi as int)),
        v@.subrange(r.0 as int, hi as int) == trim_start(v@.subrange(lo as int, hi as int)),
{
    let mut l = lo;
    while l < hi && is_whitespace(v[l])
        invariant
            lo <= l <= hi <= v.len(),
            trim_start(v@.subrange(l as int, hi as int)) == trim_start(
                v@.subrange(lo as int, hi as int),
            ),
        decreases hi - l,
    {
        assert(v@.subrange(l as int, hi as int).drop_first() =~= v@.subrange(l + 1, hi as int));
        l += 1;
    }
    assert(trim_start(v@.subrange(l as int, hi as int)) == v@.subrange(l as int, hi as int));
    let mut h = hi;
    while h > l && is_whitespace(v[h - 1])
        invariant
            lo <= l <= h <= hi <= v.len(),
            trim_end(v@.subrange(l as int, h as int)) == trim_end(v@.subrange(l as int, hi as int)),
        decreases h,
    {
        assert(v@.subrange(l as int, h as int).drop_last() =~= v@.subrange(l as int, h - 1));
        h -= 1;
    }
    assert(trim_end(v@.subrange(l as int, h as int)) == v@.subrange(l as int, h as int));
    (l, h)
}

/// `s` cut at every `'\n'`, as `str::split('\n')` cuts it: `k` newlines give
/// `k + 1` pieces, empty ones included.
pub open spec fn split_nl(s: Seq<char>) -> Seq<Seq<char>>
    decreases s.len(),
{
    if s.len() == 0 {
        seq![seq![]]
    } else {
        let prev = split_nl(s.drop_last());
        if s.last() == '\n' {
            prev.push(seq![])
        } else {
            prev.update(prev.len() - 1, prev.last().push(s.last()))
        }
    }
}

pub proof fn lemma_split_nl_nonempty(s: Seq<char>)
    ensures
        split_nl(s).len() >= 1,
    decreases s.len(),
{
    if s.len() > 0 {
        lemma_split_nl_nonempty(s.drop_last());
    }
}

/// A line without its trailing `'\r'`.
pub open spec fn strip_cr(s: Seq<char>) -> Seq<char> {
    if s.len() > 0 && s.last() == '\r' {
        s.drop_last()
    } else {
        s
    }
}


/// Whether `s` begins with `p`.
pub open spec fn starts_with(s: Seq<char>, p: Seq<char>) -> bool {
    p.len() <= s.len() && s.take(p.len() as int) == p
}

/// Whether `v[at..hi]` begins with `p`.
pub fn has_prefix_at(v: &Vec<char>, at: usize, hi: usize, p: &[char]) -> (r: bool)
    requires
        at <= hi <= v.len(),
    ensures
        r == starts_with(v@.subrange(at as int, hi as int), p@),
{
    if p.len() > hi - at {
        return false;
    }
    let mut k: usize = 0;
    while k < p.len()
        invariant
            at <= hi <= v.len(),
            p.len() <= hi - at,
            0 <= k <= p.len(),
            forall|t: int| 0 <= t < k ==> v@[at + t] == p@[t],
        decreases p.len() - k,
    {
        if v[at + k] != p[k] {
            assert(v@.subrange(at as int, hi as int).take(p@.len() as int)[k as int] != p@[k as int]);
            return false;
        }
        k += 1;
    }
    assert(v@.subrange(at as int, hi as int).take(p@.len() as int) =~= p@);
    true
}

/// Whether `v[at..hi]` begins with the character `c`.
pub fn has_prefix1(v: &Vec<char>, at: usize, hi: usize, c: char) -> (r: bool)
    requires
        at <= hi <= v.len(),
    ensures
        r == starts_with(v@.subrange(at as int, hi as int), seq![c]),
{
    let r = at < hi && v[at] == c;
    proof {
        if at < hi {
            assert(v@.subrange(at as int, hi as int).take(1)[0] == v@[at as int]);
            if v@[at as int] == c {
                assert(v@.subrange(at as int, hi as int).take(1) =~= seq![c]);
            }
        }
    }
    r
}

/// Whether `v[at..hi]` begins with the characters `c1`, `c2`.
pub fn has_prefix2(v: &Vec<char>, at: usize, hi: usize, c1: char, c2: char) -> (r: bool)
    requires
        at <= hi <= v.len(),
    ensures
        r == starts_with(v@.subrange(at as int, hi as int), seq![c1, c2]),
{
    let r = hi - at >= 2 && v[at] == c1 && v[at + 1] == c2;
    proof {
        let t = v@.subrange(at as int, hi as int);
        if hi - at >= 2 {
            assert(t.take(2)[0] == v@[at as int]);
            assert(t.take(2)[1] == v@[at + 1]);
            if v@[at as int] == c1 && v@[at + 1] == c2 {
                assert(t.take(2) =~= seq![c1, c2]);
            }
        }
    }
    r
}

/// Number of leading ASCII digits of `s`.
pub open spec fn digit_run(s: Seq<char>) -> nat
    decreases s.len(),
{
    if s.len() > 0 && is_digit(s[0]) {
        1 + digit_run(s.drop_first())
    } else {
        0
    }
}

pub proof fn lemma_digit_run_bound(s: Seq<char>)
    ensures
        digit_run(s) <= s.len(),
        forall|k: int| 0 <= k < digit_run(s) ==> is_digit(#[trigger] s[k]),
        digit_run(s) < s.len() ==> !is_digit(s[digit_run(s) as int]),
    decreases s.len(),
{
    if s.len() > 0 && is_digit(s[0]) {
        lemma_digit_run_bound(s.drop_first());
        assert forall|k: int| 0 <= k < digit_run(s) implies is_digit(#[trigger] s[k]) by {
            if k > 0 {
                assert(s[k] == s.drop_first()[k - 1]);
            }
        }
    }
}

/// Index just past the run of ASCII letters and digits that starts at `i`.
pub open spec fn alnum_end(s: Seq<char>, i: int) -> int
    decreases s.len() - i,
{
    if 0 <= i < s.len() && is_alnum(s[i]) {
        alnum_end(s, i + 1)
    } else {
        i
    }
}

pub proof fn lemma_alnum_end(s: Seq<char>, i: int)
    requires
        0 <= i <= s.len(),
    ensures
        i <= alnum_end(s, i) <= s.len(),
        forall|k: int| i <= k < alnum_end(s, i) ==> is_alnum(#[trigger] s[k]),
        alnum_end(s, i) < s.len() ==> !is_alnum(s[alnum_end(s, i)]),
    decreases s.len() - i,
{
    if i < s.len() && is_alnum(s[i]) {
        lemma_alnum_end(s, i + 1);
    }
}

/// Append the characters of `v` to `s`.
pub fn push_chars(s: &mut String, v: &Vec<char>)
    ensures
        final(s)@ == old(s)@ + v@,
{
    let mut i: usize = 0;
    while i < v.len()
        invariant
            0 <= i <= v.len(),
            s@ == old(s)@ + v@.take(i as int),
        decreases v.len() - i,
    {
        s.push(v[i]);
        i += 1;
        assert(s@ =~= old(s)@ + v@.take(i as int));
    }
    assert(v@.take(v.len() as int) =~= v@);
}

/// Append `t` to `s`.
pub fn push_str(s: &mut String, t: &str)
    ensures
        final(s)@ == old(s)@ + t@,
{
    let v = chars_of(t);
    push_chars(s, &v);
}

/// A copy of `v[lo..hi]`.
pub fn copy_range(v: &Vec<char>, lo: usize, hi: usize) -> (r: Vec<char>)
    requires
        lo <= hi <= v.len(),
    ensures
        r@ == v@.subrange(lo as int, hi as int),
{
    let mut r: Vec<char> = Vec::new();
    let mut i = lo;
    while i < hi
        invariant
            lo <= i <= hi <= v.len(),
            r@ == v@.subrange(lo as int, i as int),
        decreases hi - i,
    {
        r.push(v[i]);
        i += 1;
        assert(r@ =~= v@.subrange(lo as int, i as int));
    }
    r
}

/// A prefix takes no more bytes than the whole.
pub proof fn lemma_byte_len_take_le(s: Seq<char>, i: int)
    requires
        0 <= i <= s.len(),
    ensures
        byte_len(s.take(i)) <= byte_len(s),
{
    lemma_byte_len_concat(s.take(i), s.skip(i));
    assert(s.take(i) + s.skip(i) =~= s);
}

/// A stretch takes no more bytes than the whole.
pub proof fn lemma_byte_len_subrange_le(s: Seq<char>, i: int, j: int)
    requires
        0 <= i <= j <= s.len(),
    ensures
        byte_len(s.subrange(i, j)) <= byte_len(s),
{
    lemma_byte_len_take_le(s.skip(i), j - i);
    assert(s.skip(i).take(j - i) =~= s.subrange(i, j));
    lemma_byte_len_concat(s.take(i), s.skip(i));
    assert(s.take(i) + s.skip(i) =~= s);
}

/// Byte length of the first `c` characters.
pub fn prefix_bytes(v: &Vec<char>, c: usize) -> (r: usize)
    requires
        c <= v.len(),
        byte_len(v@.take(c as int)) <= usize::MAX,
    ensures
        r == byte_len(v@.take(c as int)),
{
    let mut r: usize = 0;
    let mut k: usize = 0;
    proof {
        assert(v@.take(0) =~= Seq::<char>::empty());
    }
    while k < c
        invariant
            k <= c <= v.len(),
            byte_len(v@.take(c as int)) <= usize::MAX,
            r == byte_len(v@.take(k as int)),
        decreases c - k,
    {
        proof {
            assert(v@.take(k + 1).drop_last() =~= v@.take(k as int));
            assert(v@.take(k + 1).last() == v@[k as int]);
            lemma_byte_len_take_le(v@.take(c as int), k + 1);
            assert(v@.take(c as int).take(k + 1) =~= v@.take(k + 1));
        }
        r = r + char_width(v[k]);
        k += 1;
    }
    r
}

/// `parts` joined with `sep` between neighbours.
pub open spec fn join_text(parts: Seq<Seq<char>>, sep: Seq<char>) -> Seq<char>
    decreases parts.len(),
{
    if parts.len() == 0 {
        seq![]
    } else if parts.len() == 1 {
        parts[0]
    } else {
        join_text(parts.drop_last(), sep) + sep + parts.last()
    }
}

pub open spec fn strings_model(v: Seq<String>) -> Seq<Seq<char>> {
    v.map_values(|s: String| s@)
}

/// Append the characters of `t` to `s`.
pub fn join_strings(parts: &Vec<String>, sep: &str) -> (r: String)
    ensures
        r@ == join_text(strings_model(parts@), sep@),
{
    let mut r = String::new();
    let mut k: usize = 0;
    while k < parts.len()
        invariant
            0 <= k <= parts.len(),
            r@ == join_text(strings_model(parts@.take(k as int)), sep@),
        decreases parts.len() - k,
    {
        if k > 0 {
            push_str(&mut r, sep);
        }
        push_str(&mut r, parts[k].as_str());
        proof {
            let ps = strings_model(parts@.take(k + 1));
            assert(ps.drop_last() =~= strings_model(parts@.take(k as int)));
            assert(ps.last() == parts@[k as int]@);
            if k == 0 {
                assert(r@ =~= ps[0]);
            } else {
                assert(r@ =~= join_text(ps, sep@));
            }
        }
        k += 1;
    }
    assert(parts@.take(parts.len() as int) =~= parts@);
    r
}

/// `s` cut at every `sep`, as `str::split(sep)` cuts it: `k` separators give
/// `k + 1` pieces, empty ones included.
pub open spec fn split_at_char(s: Seq<char>, sep: char) -> Seq<Seq<char>>
    decreases s.len(),
{
    if s.len() == 0 {
        seq![seq![]]
    } else {
        let prev = split_at_char(s.drop_last(), sep);
        if s.last() == sep {
            prev.push(seq![])
        } else {
            prev.update(prev.len() - 1, prev.last().push(s.last()))
        }
    }
}

pub proof fn lemma_split_at_char_nonempty(s: Seq<char>, sep: char)
    ensures
        split_at_char(s, sep).len() >= 1,
    decreases s.len(),
{
    if s.len() > 0 {
        lemma_split_at_char_nonempty(s.drop_last(), sep);
    }
}

/// The pieces of `v[lo..hi]` between separators `sep`, each trimmed.
pub fn split_trimmed(v: &Vec<char>, lo: usize, hi: usize, sep: char) -> (r: Vec<String>)
    requires
        lo <= hi <= v.len(),
    ensures
        strings_model(r@) == split_at_char(v@.subrange(lo as int, hi as int), sep).map_values(
            |p: Seq<char>| trim(p),
        ),
{
    let ghost t = v@.subrange(lo as int, hi as int);
    let mut out: Vec<String> = Vec::new();
    let mut piece: usize = lo;
    let mut p: usize = lo;
    proof {
        assert(t.take(0) =~= Seq::<char>::empty());
        assert(v@.subrange(lo as int, lo as int) =~= Seq::<char>::empty());
    }
    loop
        invariant
            lo <= piece <= p <= hi <= v.len(),
            t == v@.subrange(lo as int, hi as int),
            split_at_char(t.take(p - lo), sep).len() == out.len() + 1,
            split_at_char(t.take(p - lo), sep).last() == v@.subrange(piece as int, p as int),
            forall|k: int| 0 <= k < out.len() ==> #[trigger] strings_model(out@)[k] == trim(
                split_at_char(t.take(p - lo), sep)[k],
            ),
        decreases hi - p,
    {
        let ghost ps = split_at_char(t.take(p - lo), sep);
        if p == hi || v[p] == sep {
            let (a, b) = trim_bounds(v, piece, p);
            let cell = string_of_range(v, a, b);
            let ghost before = out@;
            out.push(cell);
            if p == hi {
                proof {
                    assert(t.take(p - lo) =~= t);
                    let target = split_at_char(t, sep).map_values(|q: Seq<char>| trim(q));
                    assert forall|k: int| 0 <= k < out.len() implies #[trigger] strings_model(out@)[k] == target[k] by {
                        if k < before.len() {
                            assert(strings_model(out@)[k] == strings_model(before)[k]);
                        }
                    }
                    assert(strings_model(out@) =~= target);
                }
                return out;
            }
            proof {
                let t2 = t.take(p + 1 - lo);
                assert(t2.drop_last() =~= t.take(p - lo));
                assert(t2.last() == v@[p as int]);
                let ps2 = split_at_char(t2, sep);
                assert(ps2 == ps.push(seq![]));
                assert forall|k: int| 0 <= k < out.len() implies #[trigger] strings_model(out@)[k] == trim(ps2[k]) by {
                    if k < before.len() {
                        assert(strings_model(out@)[k] == strings_model(before)[k]);
                    }
                }
                assert(v@.subrange(p + 1, p + 1) =~= Seq::<char>::empty());
            }
            p += 1;
            piece = p;
        } else {
            proof {
                let t2 = t.take(p + 1 - lo);
                assert(t2.drop_last() =~= t.take(p - lo));
                assert(t2.last() == v@[p as int]);
                let ps2 = split_at_char(t2, sep);
                assert(ps2 == ps.update(ps.len() - 1, ps.last().push(v@[p as int])));
                assert(v@.subrange(piece as int, p + 1) =~= v@.subrange(piece as int, p as int).push(v@[p as int]));
                assert forall|k: int| 0 <= k < out.len() implies #[trigger] strings_model(out@)[k] == trim(ps2[k]) by {
                    assert(ps2[k] == ps[k]);
                }
            }
            p += 1;
        }
    }
}

/// The pieces of `v[lo..hi]` between separators `sep`.
pub fn split_pieces(v: &Vec<char>, lo: usize, hi: usize, sep: char) -> (r: Vec<String>)
    requires
        lo <= hi <= v.len(),
    ensures
        strings_model(r@) == split_at_char(v@.subrange(lo as int, hi as int), sep),
{
    let ghost t = v@.subrange(lo as int, hi as int);
    let mut out: Vec<String> = Vec::new();
    let mut piece: usize = lo;
    let mut p: usize = lo;
    proof {
        assert(t.take(0) =~= Seq::<char>::empty());
        assert(v@.subrange(lo as int, lo as int) =~= Seq::<char>::empty());
    }
    loop
        invariant
            lo <= piece <= p <= hi <= v.len(),
            t == v@.subrange(lo as int, hi as int),
            split_at_char(t.take(p - lo), sep).len() == out.len() + 1,
            split_at_char(t.take(p - lo), sep).last() == v@.subrange(piece as int, p as int),
            forall|k: int| 0 <= k < out.len() ==> #[trigger] strings_model(out@)[k] == split_at_char(
                t.take(p - lo),
                sep,
            )[k],
        decreases hi - p,
    {
        let ghost ps = split_at_char(t.take(p - lo), sep);
        if p == hi || v[p] == sep {
            let cell = string_of_range(v, piece, p);
            let ghost before = out@;
            out.push(cell);
            if p == hi {
                proof {
                    assert(t.take(p - lo) =~= t);
                    let target = split_at_char(t, sep);
                    assert forall|k: int| 0 <= k < out.len() implies #[trigger] strings_model(out@)[k] == target[k] by {
                        if k < before.len() {
                            assert(strings_model(out@)[k] == strings_model(before)[k]);
                        }
                    }
                    assert(strings_model(out@) =~= target);
                }
                return out;
            }
            proof {
                let t2 = t.take(p + 1 - lo);
                assert(t2.drop_last() =~= t.take(p - lo));
                assert(t2.last() == v@[p as int]);
                let ps2 = split_at_char(t2, sep);
                assert(ps2 == ps.push(seq![]));
                assert forall|k: int| 0 <= k < out.len() implies #[trigger] strings_model(out@)[k] == ps2[k] by {
                    if k < before.len() {
                        assert(strings_model(out@)[k] == strings_model(before)[k]);
                    }
                }
                assert(v@.subrange(p + 1, p + 1) =~= Seq::<char>::empty());
            }
            p += 1;
            piece = p;
        } else {
            proof {
                let t2 = t.take(p + 1 - lo);
                assert(t2.drop_last() =~= t.take(p - lo));
                assert(t2.last() == v@[p as int]);
                let ps2 = split_at_char(t2, sep);
                assert(ps2 == ps.update(ps.len() - 1, ps.last().push(v@[p as int])));
                assert(v@.subrange(piece as int, p + 1) =~= v@.subrange(piece as int, p as int).push(v@[p as int]));
                assert forall|k: int| 0 <= k < out.len() implies #[trigger] strings_model(out@)[k] == ps2[k] by {
                    assert(ps2[k] == ps[k]);
                }
            }
            p += 1;
        }
    }
}

/// Whether byte offset `b` of `s` falls between two characters.
pub open spec fn at_boundary(s: Seq<char>, b: nat) -> bool {
    exists|k: int| 0 <= k <= s.len() && byte_len(s.take(k)) == b
}

/// The character index at byte offset `b` of `s`, when it falls between two
/// characters.
pub open spec fn char_index_of(s: Seq<char>, b: nat) -> int {
    choose|k: int| 0 <= k <= s.len() && byte_len(s.take(k)) == b
}

/// Byte offsets grow with character indices.
pub proof fn lemma_byte_len_take_mono(s: Seq<char>, i: int, j: int)
    requires
        0 <= i < j <= s.len(),
    ensures
        byte_len(s.take(i)) < byte_len(s.take(j)),
    decreases j - i,
{
    if j - 1 > i {
        lemma_byte_len_take_mono(s, i, j - 1);
    }
    assert(s.take(j).drop_last() =~= s.take(j - 1));
}

/// The character index of a boundary is the only one with that offset.
pub proof fn lemma_char_index_of(s: Seq<char>, k: int)
    requires
        0 <= k <= s.len(),
    ensures
        at_boundary(s, byte_len(s.take(k))),
        char_index_of(s, byte_len(s.take(k))) == k,
{
    let b = byte_len(s.take(k));
    assert(0 <= k <= s.len() && byte_len(s.take(k)) == b);
    let c = char_index_of(s, b);
    if c < k {
        lemma_byte_len_take_mono(s, c, k);
    } else if c > k {
        lemma_byte_len_take_mono(s, k, c);
    }
}

/// The character index at byte offset `byte`, if it falls between two
/// characters.
pub fn char_at_byte(v: &Vec<char>, byte: usize) -> (r: Option<usize>)
    requires
        byte_len(v@) <= usize::MAX,
    ensures
        match r {
            Some(k) => k <= v.len() && byte_len(v@.take(k as int)) == byte && at_boundary(v@, byte as nat)
                && char_index_of(v@, byte as nat) == k,
            None => !at_boundary(v@, byte as nat),
        },
{
    let mut k: usize = 0;
    let mut pos: usize = 0;
    assert(v@.take(0) =~= Seq::<char>::empty());
    while k < v.len() && pos < byte
        invariant
            k <= v.len(),
            byte_len(v@) <= usize::MAX,
            pos == byte_len(v@.take(k as int)),
            forall|t: int| 0 <= t < k ==> byte_len(#[trigger] v@.take(t)) < byte,
        decreases v.len() - k,
    {
        proof {
            assert(v@.take(k + 1).drop_last() =~= v@.take(k as int));
            lemma_byte_len_take_le(v@, k + 1);
        }
        pos = pos + char_width(v[k]);
        k += 1;
    }
    if pos == byte {
        proof {
            lemma_char_index_of(v@, k as int);
        }
        return Some(k);
    }
    proof {
        if at_boundary(v@, byte as nat) {
            let c = choose|c: int| 0 <= c <= v@.len() && byte_len(v@.take(c)) == byte;
            if c < k {
                assert(byte_len(v@.take(c)) < byte);
            } else if c > k {
                lemma_byte_len_take_mono(v@, k as int, c);
                if k == v.len() {
                    assert(false);
                }
            }
        }
    }
    None
}

/// The lines of `s` as `str::lines` gives them: cut at `'\n'`, a `'\r'`
/// before a `'\n'` dropped, and no empty last line after a final newline
/// (no line at all for an empty text).
pub open spec fn str_lines(s: Seq<char>) -> Seq<Seq<char>> {
    let ps = split_nl(s);
    let body = Seq::new((ps.len() - 1) as nat, |k: int| strip_cr(ps[k]));
    if ps.len() == 0 || ps.last().len() == 0 {
        body
    } else {
        body.push(ps.last())
    }
}

/// The lines of a text, as `str::lines` gives them.
pub fn lines_of(v: &Vec<char>) -> (r: Vec<Vec<char>>)
    ensures
        r.deep_view() == str_lines(v@),
{
    let pieces = split_pieces(v, 0, v.len(), '\n');
    let ghost ps = split_at_char(v@, '\n');
    proof {
        assert(v@.subrange(0, v.len() as int) =~= v@);
        lemma_split_at_char_nonempty(v@, '\n');
        lemma_split_nl_is_split(v@);
    }
    let n = pieces.len();
    let mut out: Vec<Vec<char>> = Vec::new();
    let mut k: usize = 0;
    while k + 1 < n
        invariant
            n == pieces.len(),
            n >= 1,
            strings_model(pieces@) == ps,
            ps == split_nl(v@),
            k + 1 <= n,
            out.deep_view() == Seq::new(k as nat, |t: int| strip_cr(ps[t])),
        decreases n - k,
    {
        let c = chars_of(pieces[k].as_str());
        let m = c.len();
        let line = if m > 0 && c[m - 1] == '\r' {
            copy_range(&c, 0, m - 1)
        } else {
            copy_range(&c, 0, m)
        };
        proof {
            assert(ps[k as int] == pieces@[k as int]@);
            if m > 0 && c@[m - 1] == '\r' {
                assert(c@.subrange(0, m - 1) =~= c@.drop_last());
            } else {
                assert(c@.subrange(0, m as int) =~= c@);
            }
        }
        let ghost before = out.deep_view();
        out.push(line);
        proof {
            assert(out.deep_view() =~= before.push(strip_cr(ps[k as int]))) by {
                assert forall|t: int| 0 <= t < out.len() implies out.deep_view()[t] == before.push(strip_cr(ps[k as int]))[t] by {
                    if t < k {
                        assert(out@[t] == out@[t]);
                    }
                }
            }
            assert(out.deep_view() =~= Seq::new((k + 1) as nat, |t: int| strip_cr(ps[t])));
        }
        k += 1;
    }
    let last = chars_of(pieces[n - 1].as_str());
    proof {
        assert(ps[n - 1] == pieces@[n - 1]@);
    }
    if last.len() > 0 {
        let ghost before = out.deep_view();
        out.push(last);
        proof {
            assert(out.deep_view() =~= before.push(ps.last())) by {
                assert forall|t: int| 0 <= t < out.len() implies out.deep_view()[t] == before.push(ps.last())[t] by {
                    if t < before.len() {
                        assert(out@[t] == out@[t]);
                    } else {
                        assert(out@[t] == last);
                    }
                }
            }
        }
    }
    out
}

proof fn lemma_split_nl_is_split(s: Seq<char>)
    ensures
        split_at_char(s, '\n') == split_nl(s),
    decreases s.len(),
{
    if s.len() > 0 {
        lemma_split_nl_is_split(s.drop_last());
    }
}

pub open spec fn digit_char(d: nat) -> char {
    if d == 0 {
        '0'
    } else if d == 1 {
        '1'
    } else if d == 2 {
        '2'
    } else if d == 3 {
        '3'
    } else if d == 4 {
        '4'
    } else if d == 5 {
        '5'
    } else if d == 6 {
        '6'
    } else if d == 7 {
        '7'
    } else if d == 8 {
        '8'
    } else {
        '9'
    }
}

/// Decimal digits of `n`, as `to_string` writes them.
#[verifier::opaque]
pub open spec fn decimal_digits(n: nat) -> Seq<char>
    decreases n,
{
    if n < 10 {
        seq![digit_char(n)]
    } else {
        decimal_digits(n / 10).push(digit_char(n % 10))
    }
}

pub fn push_decimal(out: &mut String, n: u64)
    ensures
        final(out)@ == old(out)@ + decimal_digits(n as nat),
    decreases n,
{
    if n >= 10 {
        push_decimal(out, n / 10);
    }
    let d = n % 10;
    let c = if d == 0 {
        '0'
    } else if d == 1 {
        '1'
    } else if d == 2 {
        '2'
    } else if d == 3 {
        '3'
    } else if d == 4 {
        '4'
    } else if d == 5 {
        '5'
    } else if d == 6 {
        '6'
    } else if d == 7 {
        '7'
    } else if d == 8 {
        '8'
    } else {
        '9'
    };
    let ghost mid = out@;
    out.push(c);
    proof {
        reveal(decimal_digits);
        if n >= 10 {
            assert(out@ =~= old(out)@ + decimal_digits(n as nat));
        } else {
            assert(out@ =~= old(out)@ + decimal_digits(n as nat));
        }
    }
}

/// The decimal digits of `n`, as `to_string` writes them.
pub fn decimal(n: u64) -> (r: String)
    ensures
        r@ == decimal_digits(n as nat),
{
    let mut r = String::new();
    push_decimal(&mut r, n);
    assert(r@ =~= decimal_digits(n as nat));
    r
}

/// Different numbers have different decimal digits.
pub proof fn lemma_decimal_digits_injective(a: nat, b: nat)
    requires
        decimal_digits(a) == decimal_digits(b),
    ensures
        a == b,
    decreases a + b,
{
    reveal(decimal_digits);
    if a < 10 && b < 10 {
        assert(decimal_digits(a)[0] == digit_char(a));
        assert(decimal_digits(b)[0] == digit_char(b));
    } else if a < 10 {
        lemma_decimal_digits_len(b);
        assert(decimal_digits(a).len() == 1);
    } else if b < 10 {
        lemma_decimal_digits_len(a);
        assert(decimal_digits(b).len() == 1);
    } else {
        let da = decimal_digits(a);
        let db = decimal_digits(b);
        assert(da.drop_last() == decimal_digits(a / 10));
        assert(db.drop_last() == decimal_digits(b / 10));
        assert(da.last() == digit_char(a % 10));
        assert(db.last() == digit_char(b % 10));
        lemma_decimal_digits_injective(a / 10, b / 10);
        assert(a == 10 * (a / 10) + a % 10);
        assert(b == 10 * (b / 10) + b % 10);
    }
}

proof fn lemma_decimal_digits_len(n: nat)
    ensures
        decimal_digits(n).len() >= 1,
        n >= 10 ==> decimal_digits(n).len() >= 2,
    decreases n,
{
    reveal(decimal_digits);
    if n >= 10 {
        lemma_decimal_digits_len(n / 10);
    }
}

/// Names made of `base`, `sep` and a number differ for different numbers.
pub proof fn lemma_numbered_names_differ(base: Seq<char>, sep: Seq<char>, i: nat, j: nat)
    requires
        base + sep + decimal_digits(i) == base + sep + decimal_digits(j),
    ensures
        i == j,
{
    let p = base + sep;
    assert((p + decimal_digits(i)).skip(p.len() as int) =~= decimal_digits(i));
    assert((p + decimal_digits(j)).skip(p.len() as int) =~= decimal_digits(j));
    lemma_decimal_digits_injective(i, j);
}

/// Among the numbered names `base + sep + 2`, ..., `base + sep + (n + 2)`,
/// one is missing from any `n` names.
pub proof fn lemma_free_numbered_name(pool: Seq<Seq<char>>, base: Seq<char>, sep: Seq<char>)
    ensures
        exists|i: int| 2 <= i <= pool.len() + 2 && !pool.contains(#[trigger] (base + sep + decimal_digits(i as nat))),
{
    let n = pool.len() as int;
    if forall|i: int| 2 <= i <= n + 2 ==> pool.contains(#[trigger] (base + sep + decimal_digits(i as nat))) {
        let f = |i: int| base + sep + decimal_digits(i as nat);
        let x = vstd::set_lib::set_int_range(2, n + 3);
        vstd::set_lib::lemma_int_range(2, n + 3);
        assert(vstd::relations::injective_on(f, x)) by {
            assert forall|i: int, j: int| x.contains(i) && x.contains(j) && #[trigger] f(i) == #[trigger] f(j) implies i == j by {
                lemma_numbered_names_differ(base, sep, i as nat, j as nat);
            }
        }
        let y = x.map(f);
        vstd::set_lib::lemma_map_size(x, y, f);
        let names = pool.to_set();
        assert(y.subset_of(names)) by {
            assert forall|c: Seq<char>| y.contains(c) implies names.contains(c) by {
                let i = choose|i: int| x.contains(i) && f(i) == c;
                assert(pool.contains(base + sep + decimal_digits(i as nat)));
            }
        }
        pool.lemma_cardinality_of_set();
        vstd::seq_lib::seq_to_set_is_finite(pool);
        vstd::set_lib::lemma_len_subset(y, names);
        assert(false);
    }
}

} // verus!
