//! State of the comparison view shared by the drafting page and the
//! manuscript manager: folding, the focused change, and the texts shown in
//! field tables. Drawing lives with the caller; this is what it reads and
//! updates.

use crate::text::{is_blank, is_whitespace, is_ws, lemma_trim_empty_iff_blank};
use std::collections::BTreeSet;
use std::ops::Range;
use vstd::prelude::*;

verus! {

/// Interactive state of a comparison view.
pub struct DiffViewState {
    /// Show the changes only; when off, unchanged paragraphs are laid out too.
    pub only_changes: bool,
    /// Folded stretches opened by hand (by their index among the blocks).
    pub expanded: BTreeSet<usize>,
    /// The focused change (0-based), for previous / next navigation.
    pub focus: usize,
    /// Scroll the focused change into view on the next frame.
    pub scroll_to_focus: bool,
}

impl Default for DiffViewState {
    /// Changes only: an official document runs to dozens of paragraphs, and
    /// laying them all out leaves the reader to search.
    fn default() -> (r: Self)
        ensures
            r.only_changes,
            r.expanded@ == Set::<usize>::empty(),
            r.focus == 0,
            !r.scroll_to_focus,
    {
        DiffViewState { only_changes: true, expanded: BTreeSet::new(), focus: 0, scroll_to_focus: false }
    }
}

/// The focus after one step, wrapping at both ends.
pub open spec fn stepped(focus: usize, forward: bool, total: usize) -> int {
    let current: int = if focus < total - 1 {
        focus as int
    } else {
        total - 1
    };
    if forward {
        (current + 1) % (total as int)
    } else {
        (current + total - 1) % (total as int)
    }
}

impl DiffViewState {
    /// Reset when the compared pair changes, so that folding does not stick
    /// to the wrong content.
    pub fn reset(&mut self)
        ensures
            final(self).only_changes == old(self).only_changes,
            final(self).expanded@ == Set::<usize>::empty(),
            final(self).focus == 0,
            !final(self).scroll_to_focus,
    {
        self.expanded.clear();
        self.focus = 0;
        self.scroll_to_focus = false;
    }

    /// The focused change (0-based).
    pub fn focus(&self) -> (r: usize)
        ensures
            r == self.focus,
    {
        self.focus
    }

    /// Focus change `index`; with `scroll`, bring it into view next frame.
    pub fn set_focus(&mut self, index: usize, scroll: bool)
        ensures
            final(self).focus == index,
            final(self).scroll_to_focus == (old(self).scroll_to_focus || scroll),
            final(self).only_changes == old(self).only_changes,
            final(self).expanded@ == old(self).expanded@,
    {
        self.focus = index;
        self.scroll_to_focus = self.scroll_to_focus || scroll;
    }

    /// Previous / next change, wrapping at both ends.
    pub fn step(&mut self, forward: bool, total: usize)
        requires
            total > 0 && !forward ==> (if old(self).focus < total - 1 {
                old(self).focus as int
            } else {
                total - 1
            }) + total <= usize::MAX,
        ensures
            total == 0 ==> *final(self) == *old(self),
            total > 0 ==> final(self).focus == stepped(old(self).focus, forward, total)
                && final(self).scroll_to_focus,
            final(self).only_changes == old(self).only_changes,
            final(self).expanded@ == old(self).expanded@,
    {
        if total == 0 {
            return;
        }
        let current = if self.focus < total - 1 {
            self.focus
        } else {
            total - 1
        };
        self.focus = if forward {
            (current + 1) % total
        } else {
            (current + total - 1) % total
        };
        self.scroll_to_focus = true;
    }
}

/// Stepping keeps the focus on a change, and a step back undoes a step
/// forward (and the other way round) from any focused change.
pub proof fn lemma_step_round_trip(focus: usize, total: usize)
    requires
        0 < total,
        focus < total,
        2 * total <= usize::MAX + 1,
    ensures
        0 <= stepped(focus, true, total) < total,
        0 <= stepped(focus, false, total) < total,
        stepped(stepped(focus, true, total) as usize, false, total) == focus,
        stepped(stepped(focus, false, total) as usize, true, total) == focus,
{
    let f = stepped(focus, true, total);
    let b = stepped(focus, false, total);
    if focus + 1 < total {
        vstd::arithmetic::div_mod::lemma_small_mod((focus + 1) as nat, total as nat);
        assert(f == focus + 1);
    } else {
        vstd::arithmetic::div_mod::lemma_mod_self_0(total as int);
        assert(f == 0);
    }
    if focus > 0 {
        assert((focus + total - 1) % (total as int) == focus - 1) by {
            vstd::arithmetic::div_mod::lemma_mod_add_multiples_vanish(focus - 1, total as int);
            vstd::arithmetic::div_mod::lemma_small_mod((focus - 1) as nat, total as nat);
        }
    } else {
        vstd::arithmetic::div_mod::lemma_small_mod((total - 1) as nat, total as nat);
    }
    if focus > 0 {
        assert(b == focus - 1);
        vstd::arithmetic::div_mod::lemma_small_mod(focus as nat, total as nat);
        assert(stepped(b as usize, true, total) == focus);
    } else {
        assert(b == total - 1);
        vstd::arithmetic::div_mod::lemma_mod_self_0(total as int);
        assert(stepped(b as usize, true, total) == focus);
    }
    if f > 0 {
        assert((f + total - 1) % (total as int) == f - 1) by {
            vstd::arithmetic::div_mod::lemma_mod_add_multiples_vanish(f - 1, total as int);
            vstd::arithmetic::div_mod::lemma_small_mod((f - 1) as nat, total as nat);
        }
    } else {
        vstd::arithmetic::div_mod::lemma_small_mod((total - 1) as nat, total as nat);
    }
}

/// Presentation of one comparison.
pub struct DiffViewConfig<'a> {
    /// Heading of the left column, such as `v3（已提交）`.
    pub old_label: &'a str,
    /// Heading of the right column, such as `当前（未提交）`.
    pub new_label: &'a str,
}

/// What the unified view reports from one frame.
#[derive(Debug, Default)]
pub struct UnifiedOutput {
    /// The change clicked.
    pub clicked_change: Option<usize>,
    /// The change under the pointer.
    pub hovered_change: Option<usize>,
    /// Byte range in the new source of the unchanged line clicked.
    pub clicked_context: Option<Range<usize>>,
    /// An unchanged line double-clicked, to be edited in the source.
    pub edit_source: Option<Range<usize>>,
    /// A change double-clicked, to be edited in the source.
    pub edit_change: Option<usize>,
}

// ---------------------------------------------------------------------------
// Texts of the field tables.

/// The words of `s` (maximal runs of non-whitespace) joined by single spaces.
pub open spec fn collapse_ws(s: Seq<char>) -> Seq<char>
    decreases s.len(),
{
    if s.len() == 0 {
        seq![]
    } else {
        let prev = collapse_ws(s.drop_last());
        let c = s.last();
        if is_ws(c) {
            prev
        } else if s.len() >= 2 && is_ws(s[s.len() - 2]) && prev.len() > 0 {
            prev + seq![' ', c]
        } else {
            prev.push(c)
        }
    }
}

proof fn lemma_collapse_empty_iff_blank(s: Seq<char>)
    ensures
        (collapse_ws(s).len() == 0) == is_blank(s),
    decreases s.len(),
{
    if s.len() > 0 {
        lemma_collapse_empty_iff_blank(s.drop_last());
        if !is_ws(s.last()) {
            assert(!is_ws(s[s.len() - 1]));
        } else {
            if is_blank(s.drop_last()) {
                assert forall|k: int| 0 <= k < s.len() implies is_ws(#[trigger] s[k]) by {
                    if k < s.len() - 1 {
                        assert(s[k] == s.drop_last()[k]);
                    }
                }
            } else {
                let k = choose|k: int| 0 <= k < s.len() - 1 && !is_ws(#[trigger] s.drop_last()[k]);
                assert(s[k] == s.drop_last()[k]);
            }
        }
    }
}

/// A value as a table cell shows it: on one line, at most 48 characters and
/// an ellipsis; a dash for an empty value.
pub open spec fn cell_text_model(s: Seq<char>) -> Seq<char> {
    if is_blank(s) {
        "—"@
    } else if collapse_ws(s).len() > 48 {
        collapse_ws(s).take(48).push('…')
    } else {
        collapse_ws(s)
    }
}

/// The words of a text joined by single spaces, as
/// `split_whitespace().join(" ")` gives them.
pub fn collapsed(text: &str) -> (r: String)
    ensures
        r@ == collapse_ws(text@),
{
    let chars = crate::text::chars_of(text);
    let mut flat: Vec<char> = Vec::new();
    let mut p: usize = 0;
    proof {
        assert(chars@.take(0) =~= Seq::<char>::empty());
    }
    while p < chars.len()
        invariant
            p <= chars.len(),
            flat@ == collapse_ws(chars@.take(p as int)),
        decreases chars.len() - p,
    {
        let c = chars[p];
        proof {
            assert(chars@.take(p + 1).drop_last() =~= chars@.take(p as int));
            assert(chars@.take(p + 1).last() == c);
            if p >= 1 {
                assert(chars@.take(p + 1)[p - 1] == chars@[p - 1]);
            }
        }
        if !is_whitespace(c) {
            if p >= 1 && is_whitespace(chars[p - 1]) && flat.len() > 0 {
                flat.push(' ');
            }
            flat.push(c);
        }
        proof {
            assert(flat@ =~= collapse_ws(chars@.take(p + 1)));
        }
        p += 1;
    }
    assert(chars@.take(chars.len() as int) =~= chars@);
    crate::text::string_of(&flat)
}

/// Whitespace runs folded to one space, at most 48 characters.
pub fn cell_text(text: &str) -> (r: String)
    ensures
        r@ == cell_text_model(text@),
{
    let folded = collapsed(text);
    let flat = crate::text::chars_of(folded.as_str());
    proof {
        lemma_collapse_empty_iff_blank(text@);
    }
    if flat.len() == 0 {
        return "—".to_owned();
    }
    let mut out = if flat.len() > 48 {
        crate::text::string_of_range(&flat, 0, 48)
    } else {
        crate::text::string_of(&flat)
    };
    if flat.len() > 48 {
        out.push('…');
        assert(flat@.subrange(0, 48) =~= flat@.take(48));
    }
    out
}

/// A value as its hover shows it: at most 600 characters and an ellipsis;
/// a note for an empty value.
pub open spec fn cell_hover_model(s: Seq<char>) -> Seq<char> {
    if is_blank(s) {
        "（空）"@
    } else if s.len() > 600 {
        s.take(600).push('…')
    } else {
        s
    }
}

/// The full value for a hover, cut at 600 characters.
pub fn cell_hover(text: &str) -> (r: String)
    ensures
        r@ == cell_hover_model(text@),
{
    let chars = crate::text::chars_of(text);
    let mut k: usize = 0;
    while k < chars.len()
        invariant
            k <= chars.len(),
            forall|t: int| 0 <= t < k ==> is_ws(#[trigger] chars@[t]),
        ensures
            k <= chars.len(),
            forall|t: int| 0 <= t < k ==> is_ws(#[trigger] chars@[t]),
            k < chars.len() ==> !is_ws(chars@[k as int]),
        decreases chars.len() - k,
    {
        if !is_whitespace(chars[k]) {
            break;
        }
        k += 1;
    }
    if k == chars.len() {
        return "（空）".to_owned();
    }
    let mut out = if chars.len() > 600 {
        crate::text::string_of_range(&chars, 0, 600)
    } else {
        crate::text::string_of(&chars)
    };
    if chars.len() > 600 {
        out.push('…');
        assert(chars@.subrange(0, 600) =~= chars@.take(600));
    }
    out
}

} // verus!
