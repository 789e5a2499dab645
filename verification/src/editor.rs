//! Positions shared by the source editor and the page preview: the anchor of
//! a block clicked in the preview, and the source line of a cursor.

use crate::text::{at_boundary, byte_len, chars_of, char_at_byte, char_index_of, str_bytes_fit};
use std::ops::Range;
use vstd::prelude::*;

verus! {

/// A block clicked in the preview: its byte range in the Markdown and the
/// text that range held when it was clicked.
pub struct PreviewAnchor {
    pub range: Range<usize>,
    pub text: String,
}

/// Whether the byte range `lo..hi` of `s` lies on character boundaries and
/// holds `t`.
pub open spec fn range_holds(s: Seq<char>, lo: nat, hi: nat, t: Seq<char>) -> bool {
    &&& lo <= hi
    &&& at_boundary(s, lo)
    &&& at_boundary(s, hi)
    &&& s.subrange(char_index_of(s, lo), char_index_of(s, hi)) == t
}

impl PreviewAnchor {
    /// The range, while it still points at the same text: after an edit the
    /// old byte range may run past the end, cut a character in two, or hold
    /// something else, and then there is no range.
    pub fn range_in(&self, text: &str) -> (r: Option<Range<usize>>)
        ensures
            r is Some <==> range_holds(text@, self.range.start as nat, self.range.end as nat, self.text@),
            r matches Some(x) ==> x == self.range,
    {
        str_bytes_fit(text);
        let v = chars_of(text);
        if self.range.start > self.range.end {
            return None;
        }
        let a = match char_at_byte(&v, self.range.start) {
            Some(k) => k,
            None => {
                return None;
            },
        };
        let b = match char_at_byte(&v, self.range.end) {
            Some(k) => k,
            None => {
                return None;
            },
        };
        proof {
            if a > b {
                crate::text::lemma_byte_len_take_mono(v@, b as int, a as int);
            }
        }
        let own = chars_of(self.text.as_str());
        if own.len() != b - a {
            return None;
        }
        let mut k: usize = 0;
        while k < own.len()
            invariant
                a <= b <= v.len(),
                v@ == text@,
                own@ == self.text@,
                a == char_index_of(v@, self.range.start as nat),
                b == char_index_of(v@, self.range.end as nat),
                own.len() == b - a,
                k <= own.len(),
                forall|t: int| 0 <= t < k ==> own@[t] == v@[a + t],
            decreases own.len() - k,
        {
            if own[k] != v[a + k] {
                assert(v@.subrange(a as int, b as int)[k as int] != own@[k as int]);
                return None;
            }
            k += 1;
        }
        assert(v@.subrange(a as int, b as int) =~= own@);
        Some(self.range.start..self.range.end)
    }
}

/// Number of `'\n'` among the first `k` characters of `s`.
pub open spec fn newlines_before(s: Seq<char>, k: int) -> nat
    decreases k,
{
    if k <= 0 {
        0
    } else {
        newlines_before(s, k - 1) + if s[k - 1] == '\n' {
            1nat
        } else {
            0nat
        }
    }
}

/// The source line (0-based) that character `char_index` stands on; past
/// the end, the last line.
pub fn source_line_at_char(text: &str, char_index: usize) -> (r: usize)
    ensures
        r == newlines_before(text@, if char_index < text@.len() { char_index as int } else { text@.len() as int }),
{
    let v = chars_of(text);
    let end = if char_index < v.len() {
        char_index
    } else {
        v.len()
    };
    let mut count: usize = 0;
    let mut k: usize = 0;
    while k < end
        invariant
            k <= end <= v.len(),
            count == newlines_before(v@, k as int),
            count <= k,
        decreases end - k,
    {
        if v[k] == '\n' {
            count += 1;
        }
        k += 1;
    }
    count
}

} // verus!
