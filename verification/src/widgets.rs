//! Texts the interface shows: placeholders for empty values, joined and
//! shortened strings, the options of the unit pickers, the indentation of
//! the vocabulary tree, and the names given to new versions and entries.

use crate::diff_view::collapse_ws;
use crate::models::{VocabularyCategory, VocabularyEntry};
use crate::text::{
    chars_of, copy_range, decimal, decimal_digits, is_blank, is_whitespace, is_ws, join_strings, join_text,
    lemma_trim_empty_iff_blank, lemma_free_numbered_name, push_chars, push_str, string_of, string_of_range, strings_model, trim,
    trim_bounds,
};
use vstd::prelude::*;

verus! {

/// A value, or a dash when it is blank.
pub fn present_or_dash<'a>(value: &'a str) -> (r: &'a str)
    ensures
        r@ == if is_blank(value@) {
            "—"@
        } else {
            value@
        },
{
    let v = chars_of(value);
    let (a, b) = trim_bounds(&v, 0, v.len());
    assert(v@.subrange(0, v.len() as int) =~= v@);
    proof {
        lemma_trim_empty_iff_blank(value@);
    }
    if a == b {
        "—"
    } else {
        value
    }
}

/// Trimmed, non-blank values of the first `k`, in order.
pub open spec fn kept_values(values: Seq<Seq<char>>, k: int) -> Seq<Seq<char>>
    decreases k,
{
    if k <= 0 {
        seq![]
    } else {
        let prev = kept_values(values, k - 1);
        let t = trim(values[k - 1]);
        if t.len() > 0 {
            prev.push(t)
        } else {
            prev
        }
    }
}

/// Metadata values on one line: the non-blank ones trimmed and joined by
/// ` · `, or a dash when all are blank.
pub fn joined_metadata(values: &[&str]) -> (r: String)
    ensures
        r@ == if kept_values(values@.map_values(|v: &str| v@), values@.len() as int).len() == 0 {
            "—"@
        } else {
            join_text(kept_values(values@.map_values(|v: &str| v@), values@.len() as int), " · "@)
        },
{
    let ghost vs = values@.map_values(|v: &str| v@);
    let mut kept: Vec<String> = Vec::new();
    let mut k: usize = 0;
    while k < values.len()
        invariant
            k <= values.len(),
            vs == values@.map_values(|v: &str| v@),
            strings_model(kept@) == kept_values(vs, k as int),
        decreases values.len() - k,
    {
        let v = chars_of(values[k]);
        let (a, b) = trim_bounds(&v, 0, v.len());
        assert(v@.subrange(0, v.len() as int) =~= v@);
        assert(vs[k as int] == values@[k as int]@);
        if a < b {
            let ghost before = kept@;
            kept.push(string_of_range(&v, a, b));
            assert(strings_model(kept@) =~= strings_model(before).push(trim(vs[k as int])));
        }
        k += 1;
    }
    if kept.len() == 0 {
        return "—".to_owned();
    }
    join_strings(&kept, " · ")
}

/// How a date is listed: a dash when empty, a Chinese date as it is, else
/// its first ten characters (the `YYYY-MM-DD` of an ISO timestamp).
pub open spec fn short_date_text(value: Seq<char>) -> Seq<char> {
    let t = trim(value);
    if t.len() == 0 {
        "—"@
    } else if t.contains('年') {
        t
    } else if t.len() > 10 {
        t.take(10)
    } else {
        t
    }
}

/// A date as lists show it.
pub fn short_date(value: &str) -> (r: String)
    ensures
        r@ == short_date_text(value@),
{
    let v = chars_of(value);
    let (a, b) = trim_bounds(&v, 0, v.len());
    assert(v@.subrange(0, v.len() as int) =~= v@);
    let ghost t = v@.subrange(a as int, b as int);
    if a == b {
        return "—".to_owned();
    }
    let mut k = a;
    while k < b
        invariant
            a <= k <= b <= v.len(),
            t == v@.subrange(a as int, b as int),
            t == trim(value@),
            forall|i: int| a <= i < k ==> v@[i] != '年',
        decreases b - k,
    {
        if v[k] == '年' {
            assert(t[k - a] == '年');
            return string_of_range(&v, a, b);
        }
        k += 1;
    }
    proof {
        if t.contains('年') {
            let i = choose|i: int| 0 <= i < t.len() && t[i] == '年';
            assert(v@[a + i] == '年');
        }
    }
    if b - a > 10 {
        assert(t.take(10) =~= v@.subrange(a as int, a + 10));
        string_of_range(&v, a, a + 10)
    } else {
        string_of_range(&v, a, b)
    }
}

/// A text cut in the middle to `max` characters: the head, an ellipsis, the
/// tail (a title carries its subject at the head and its kind at the tail).
pub open spec fn middle_cut(s: Seq<char>, max: nat) -> Seq<char> {
    if s.len() <= max {
        s
    } else {
        let head = (max + 1) / 2 - 1;
        let tail = max - head - 1;
        s.take(head) + seq!['…'] + s.skip(s.len() - tail)
    }
}

/// Shorten a text to `max` characters by cutting out its middle.
pub fn truncate_middle(text: &str, max: usize) -> (r: String)
    requires
        text@.len() > max ==> max >= 1,
    ensures
        r@ == middle_cut(text@, max as nat),
{
    let chars = chars_of(text);
    if chars.len() <= max {
        return text.to_owned();
    }
    let head = (max / 2 + max % 2) - 1;
    assert((max + 1) / 2 == max / 2 + max % 2) by (nonlinear_arith);
    let tail = max - head - 1;
    let mut out = string_of_range(&chars, 0, head);
    out.push('…');
    let rest = copy_range(&chars, chars.len() - tail, chars.len());
    push_chars(&mut out, &rest);
    assert(chars@.subrange(0, head as int) =~= chars@.take(head as int));
    assert(chars@.subrange((chars.len() - tail) as int, chars.len() as int) =~= chars@.skip(chars.len() - tail));
    out
}

/// A text cut to `max` characters, with an ellipsis when cut.
pub open spec fn end_cut(s: Seq<char>, max: nat) -> Seq<char> {
    if s.len() <= max {
        s
    } else {
        s.take(max as int).push('…')
    }
}

/// Shorten a text to `max` characters and an ellipsis.
pub fn truncate(text: &str, max: usize) -> (r: String)
    ensures
        r@ == end_cut(text@, max as nat),
{
    let chars = chars_of(text);
    if chars.len() <= max {
        return text.to_owned();
    }
    let mut out = string_of_range(&chars, 0, max);
    out.push('…');
    assert(chars@.subrange(0, max as int) =~= chars@.take(max as int));
    out
}

/// A one-line summary of a text: runs of whitespace made one space, then
/// cut to `max` characters.
pub fn summarize(text: &str, max: usize) -> (r: String)
    ensures
        r@ == end_cut(collapse_ws(text@), max as nat),
{
    let flat = crate::diff_view::collapsed(text);
    truncate(flat.as_str(), max)
}

/// An option of a picker.
#[derive(Debug, Clone)]
pub struct SelectOption {
    /// The value written to the settings: the canonical name.
    pub value: String,
    /// The text shown in the list.
    pub label: String,
    /// The full name, shown once picked.
    pub full: String,
    /// The canonical name of the parent unit; empty at the top.
    pub parent: String,
    /// Indentation level, counted among the parents present in the list.
    pub depth: usize,
}

pub struct OptionModel {
    pub value: Seq<char>,
    pub label: Seq<char>,
    pub full: Seq<char>,
    pub parent: Seq<char>,
    pub depth: nat,
}

impl SelectOption {
    pub open spec fn model(&self) -> OptionModel {
        OptionModel {
            value: self.value@,
            label: self.label@,
            full: self.full@,
            parent: self.parent@,
            depth: self.depth as nat,
        }
    }
}

pub open spec fn options_model(v: Seq<SelectOption>) -> Seq<OptionModel> {
    v.map_values(|o: SelectOption| o.model())
}

/// Options without levels: every label is the value itself.
pub fn plain_options(values: &[String]) -> (r: Vec<SelectOption>)
    ensures
        options_model(r@) == values@.map_values(
            |v: String| OptionModel { value: v@, label: v@, full: v@, parent: seq![], depth: 0 },
        ),
{
    let mut out: Vec<SelectOption> = Vec::new();
    let mut k: usize = 0;
    while k < values.len()
        invariant
            k <= values.len(),
            options_model(out@) == values@.take(k as int).map_values(
                |v: String| OptionModel { value: v@, label: v@, full: v@, parent: seq![], depth: 0 },
            ),
        decreases values.len() - k,
    {
        let v = &values[k];
        let ghost before = options_model(out@);
        let option = SelectOption {
            value: v.clone(),
            label: v.clone(),
            full: v.clone(),
            parent: String::new(),
            depth: 0,
        };
        assert(option.model() == OptionModel { value: v@, label: v@, full: v@, parent: seq![], depth: 0 });
        out.push(option);
        assert(options_model(out@) =~= before.push(option.model()));
        assert(values@.take(k + 1) =~= values@.take(k as int).push(values@[k as int]));
        assert(options_model(out@) =~= values@.take(k + 1).map_values(
            |v: String| OptionModel { value: v@, label: v@, full: v@, parent: seq![], depth: 0 },
        ));
        k += 1;
    }
    assert(values@.take(values.len() as int) =~= values@);
    out
}

/// The first option of `pool` whose value is `v`, or -1.
pub open spec fn value_index(pool: Seq<OptionModel>, v: Seq<char>) -> int
    decreases pool.len(),
{
    if pool.len() == 0 {
        -1
    } else if pool[0].value == v {
        0
    } else {
        let k = value_index(pool.drop_first(), v);
        if k < 0 {
            -1
        } else {
            k + 1
        }
    }
}

/// Following parents from `a` through `pool` stops within `fuel` steps: at
/// an empty name, a name the pool lacks, or an option that is its own parent.
pub open spec fn walk_ends(pool: Seq<OptionModel>, a: Seq<char>, fuel: nat) -> bool
    decreases fuel,
{
    let k = value_index(pool, a);
    a.len() == 0 || k < 0 || pool[k].parent == a || (fuel > 0 && walk_ends(pool, pool[k].parent, (fuel - 1) as nat))
}

/// The depth of the nearest ancestor of `a` already placed, walking up the
/// parents through the pool; `None` when the walk ends without one.
pub open spec fn ancestor_depth(pool: Seq<OptionModel>, placed: Seq<OptionModel>, a: Seq<char>, fuel: nat) -> Option<nat>
    decreases fuel,
{
    let p = value_index(placed, a);
    let k = value_index(pool, a);
    if a.len() == 0 {
        None
    } else if p >= 0 {
        Some(placed[p].depth)
    } else if k < 0 || pool[k].parent == a || fuel == 0 {
        None
    } else {
        ancestor_depth(pool, placed, pool[k].parent, (fuel - 1) as nat)
    }
}

/// Whether a value is among the allowed ones (compared trimmed); every value
/// is when there is no list.
pub open spec fn allowed_in(allowed: Option<Seq<Seq<char>>>, v: Seq<char>) -> bool {
    match allowed {
        None => true,
        Some(a) => lists_trimmed(a, v),
    }
}

/// Whether one of `items`, trimmed, is `v`.
pub open spec fn lists_trimmed(items: Seq<Seq<char>>, v: Seq<char>) -> bool {
    exists|k: int| 0 <= k < items.len() && trim(#[trigger] items[k]) == v
}

/// The first `k` options of the pool laid out: the allowed ones, each
/// indented one level under its nearest ancestor in the list and showing its
/// own label, or at the top showing its full name.
pub open spec fn layout_fold(pool: Seq<OptionModel>, allowed: Option<Seq<Seq<char>>>, k: int) -> Seq<OptionModel>
    decreases k,
{
    if k <= 0 {
        seq![]
    } else {
        let placed = layout_fold(pool, allowed, k - 1);
        let o = pool[k - 1];
        if !allowed_in(allowed, o.value) {
            placed
        } else {
            match ancestor_depth(pool, placed, o.parent, pool.len()) {
                Some(d) => placed.push(OptionModel { value: o.value, label: o.label, full: o.full, parent: o.parent, depth: d + 1 }),
                None => placed.push(OptionModel { value: o.value, label: o.full, full: o.full, parent: o.parent, depth: 0 }),
            }
        }
    }
}

proof fn lemma_value_index(pool: Seq<OptionModel>, v: Seq<char>, k: int)
    requires
        0 <= k <= pool.len(),
        forall|t: int| 0 <= t < k ==> (#[trigger] pool[t]).value != v,
    ensures
        k < pool.len() && pool[k].value == v ==> value_index(pool, v) == k,
        k == pool.len() ==> value_index(pool, v) == -1,
    decreases k,
{
    if k > 0 {
        assert(pool[0].value != v);
        assert forall|t: int| 0 <= t < k - 1 implies (#[trigger] pool.drop_first()[t]).value != v by {
            assert(pool.drop_first()[t] == pool[t + 1]);
        }
        lemma_value_index(pool.drop_first(), v, k - 1);
        if k < pool.len() {
            assert(pool.drop_first()[k - 1] == pool[k]);
        }
    }
}

fn find_value(pool: &[SelectOption], v: &String) -> (r: Option<usize>)
    ensures
        match r {
            Some(k) => k < pool.len() && value_index(options_model(pool@), v@) == k,
            None => value_index(options_model(pool@), v@) == -1,
        },
{
    let ghost om = options_model(pool@);
    let mut k: usize = 0;
    while k < pool.len()
        invariant
            k <= pool.len(),
            om == options_model(pool@),
            forall|t: int| 0 <= t < k ==> (#[trigger] om[t]).value != v@,
        decreases pool.len() - k,
    {
        assert(om[k as int] == pool@[k as int].model());
        if pool[k].value == *v {
            proof {
                lemma_value_index(om, v@, k as int);
            }
            return Some(k);
        }
        k += 1;
    }
    proof {
        lemma_value_index(om, v@, pool.len() as int);
    }
    None
}

fn is_allowed(allowed: Option<&[String]>, v: &String) -> (r: bool)
    ensures
        r == allowed_in(
            match allowed {
                Some(a) => Some(strings_model(a@)),
                None => None,
            },
            v@,
        ),
{
    match allowed {
        None => true,
        Some(a) => {
            let ghost am = strings_model(a@);
            let mut k: usize = 0;
            while k < a.len()
                invariant
                    k <= a.len(),
                    allowed == Some(a),
                    am == strings_model(a@),
                    forall|t: int| 0 <= t < k ==> trim(#[trigger] am[t]) != v@,
                    am.len() == a.len(),
                decreases a.len() - k,
            {
                let c = chars_of(a[k].as_str());
                let n = c.len();
                let (lo, hi) = trim_bounds(&c, 0, n);
                assert(c@.subrange(0, n as int) =~= c@);
                assert(am[k as int] == a@[k as int]@);
                let t = string_of_range(&c, lo, hi);
                if t == *v {
                    assert(t@ == trim(am[k as int]));
                    assert(am.len() == a.len());
                    assert(trim(am[k as int]) == v@);
                    assert(lists_trimmed(am, v@));
                    return true;
                }
                k += 1;
            }
            false
        },
    }
}

/// Lay the options of a unit picker out by levels; with `allowed`, only the
/// values it lists (trimmed) stay. An option is indented one level under its
/// nearest ancestor still in the list and shows its own label; one without
/// such an ancestor stands at the top and shows its full name, so no option
/// is left indented under nothing.
fn ancestor_depth_exec(pool: &[SelectOption], placed: &[SelectOption], start: &String) -> (r: Option<usize>)
    requires
        walk_ends(options_model(pool@), start@, pool.len() as nat),
    ensures
        match r {
            Some(x) => ancestor_depth(options_model(pool@), options_model(placed@), start@, pool.len() as nat) == Some(
                x as nat,
            ),
            None => ancestor_depth(options_model(pool@), options_model(placed@), start@, pool.len() as nat) is None,
        },
{
    let ghost om = options_model(pool@);
    let ghost pm = options_model(placed@);
    let mut ancestor = start.clone();
    let mut fuel: usize = pool.len();
    while !ancestor.as_str().is_empty()
        invariant
            om == options_model(pool@),
            pm == options_model(placed@),
            fuel <= pool.len(),
            walk_ends(om, ancestor@, fuel as nat),
            ancestor_depth(om, pm, start@, pool.len() as nat) == ancestor_depth(om, pm, ancestor@, fuel as nat),
        decreases fuel,
    {
        match find_value(placed, &ancestor) {
            Some(p) => {
                assert(pm[p as int] == placed@[p as int].model());
                return Some(placed[p].depth);
            },
            None => {},
        }
        let next = match find_value(pool, &ancestor) {
            Some(n) => n,
            None => {
                return None;
            },
        };
        assert(om[next as int] == pool@[next as int].model());
        if pool[next].parent == ancestor {
            return None;
        }
        ancestor = pool[next].parent.clone();
        fuel = fuel - 1;
    }
    None
}

/// Lay the options of a unit picker out by levels; with `allowed`, only the
/// values it lists (trimmed) stay. An option is indented one level under its
/// nearest ancestor still in the list and shows its own label; one without
/// such an ancestor stands at the top and shows its full name, so no option
/// is left indented under nothing.
pub fn layout_options(pool: &[SelectOption], allowed: Option<&[String]>) -> (r: Vec<SelectOption>)
    requires
        forall|t: int|
            0 <= t < pool.len() && allowed_in(
                match allowed {
                    Some(a) => Some(strings_model(a@)),
                    None => None,
                },
                pool@[t].value@,
            ) ==> walk_ends(options_model(pool@), #[trigger] pool@[t].parent@, pool.len() as nat),
    ensures
        options_model(r@) == layout_fold(
            options_model(pool@),
            match allowed {
                Some(a) => Some(strings_model(a@)),
                None => None,
            },
            pool.len() as int,
        ),
{
    let ghost om = options_model(pool@);
    let ghost am = match allowed {
        Some(a) => Some(strings_model(a@)),
        None => None,
    };
    let mut placed: Vec<SelectOption> = Vec::new();
    let mut k: usize = 0;
    while k < pool.len()
        invariant
            k <= pool.len(),
            om == options_model(pool@),
            am == match allowed {
                Some(a) => Some(strings_model(a@)),
                None => None,
            },
            forall|t: int|
                0 <= t < pool.len() && allowed_in(am, pool@[t].value@) ==> walk_ends(om, #[trigger] pool@[t].parent@, pool.len() as nat),
            options_model(placed@) == layout_fold(om, am, k as int),
            placed.len() <= k,
            forall|t: int| 0 <= t < placed.len() ==> (#[trigger] placed@[t]).depth < placed.len(),
        decreases pool.len() - k,
    {
        let option = &pool[k];
        assert(om[k as int] == option.model());
        if is_allowed(allowed, &option.value) {
            let ghost pm = options_model(placed@);
            let sl = placed.as_slice();
            assert(sl@ == placed@);
            let parent_depth = ancestor_depth_exec(pool, sl, &option.parent);
            proof {
                if let Some(x) = parent_depth {
                    lemma_placed_depth(om, pm, option.parent@, pool.len() as nat);
                }
            }
            let ghost before = placed@;
            let laid = match parent_depth {
                Some(depth) => SelectOption {
                    value: option.value.clone(),
                    label: option.label.clone(),
                    full: option.full.clone(),
                    parent: option.parent.clone(),
                    depth: depth + 1,
                },
                None => SelectOption {
                    value: option.value.clone(),
                    label: option.full.clone(),
                    full: option.full.clone(),
                    parent: option.parent.clone(),
                    depth: 0,
                },
            };
            placed.push(laid);
            proof {
                assert(options_model(placed@) =~= pm.push(laid.model()));
                assert forall|t: int| 0 <= t < placed.len() implies (#[trigger] placed@[t]).depth < placed.len() by {
                    if t < placed.len() - 1 {
                        assert(placed@[t] == before[t]);
                    }
                }
            }
        }
        k += 1;
    }
    placed
}

/// What `ancestor_depth` finds is the depth of some placed option.
proof fn lemma_placed_depth(pool: Seq<OptionModel>, placed: Seq<OptionModel>, a: Seq<char>, fuel: nat)
    ensures
        ancestor_depth(pool, placed, a, fuel) matches Some(d) ==> exists|t: int| 0 <= t < placed.len() && placed[t].depth == d,
    decreases fuel,
{
    let p = value_index(placed, a);
    let k = value_index(pool, a);
    lemma_value_index_bound(placed, a);
    if a.len() == 0 {
    } else if p >= 0 {
        assert(placed[p].depth == placed[p].depth);
    } else if k < 0 || pool[k].parent == a || fuel == 0 {
    } else {
        lemma_placed_depth(pool, placed, pool[k].parent, (fuel - 1) as nat);
    }
}

proof fn lemma_value_index_bound(pool: Seq<OptionModel>, v: Seq<char>)
    ensures
        -1 <= value_index(pool, v) < pool.len(),
    decreases pool.len(),
{
    if pool.len() > 0 {
        lemma_value_index_bound(pool.drop_first(), v);
    }
}

/// What `str::to_lowercase` gives: every character mapped by its Unicode
/// lowercase mapping.
pub uninterp spec fn lowercased(s: Seq<char>) -> Seq<char>;

/// `str::to_lowercase`. Its documentation defines the result by the Unicode
/// lowercase mapping of each character, which takes tables to state; the
/// contract names it. The mapping depends on the text alone.
#[verifier::external_body]
fn to_lowercase(s: &str) -> (r: String)
    ensures
        r@ == lowercased(s@),
{
    s.to_lowercase()
}

/// Whether `needle` occurs in `hay`.
pub open spec fn contains_text(hay: Seq<char>, needle: Seq<char>) -> bool {
    exists|i: int| 0 <= i && i + needle.len() <= hay.len() && #[trigger] hay.subrange(i, i + needle.len()) == needle
}

/// The searchable text of a vocabulary entry: its fields, the aliases, and
/// 代章 when it seals for its parent, separated by spaces.
pub open spec fn entry_search_text(e: VocabularyEntry) -> Seq<char> {
    e.code@ + " "@ + e.canonical@ + " "@ + e.external_name@ + " "@ + e.abbr@ + " "@ + e.department_code@ + " "@
        + e.parent@ + " "@ + e.unit@ + " "@ + join_text(strings_model(e.aliases@), " "@) + " "@ + e.note@ + " "@
        + e.phone@ + " "@ + e.position@ + " "@ + if e.seal_on_behalf {
        "代章"@
    } else {
        seq![]
    }
}

fn find_text(hay: &Vec<char>, needle: &Vec<char>) -> (r: bool)
    ensures
        r == contains_text(hay@, needle@),
{
    if needle.len() > hay.len() {
        return false;
    }
    let mut i: usize = 0;
    let last = hay.len() - needle.len();
    while i <= last
        invariant
            needle.len() <= hay.len(),
            last == hay.len() - needle.len(),
            i <= last + 1,
            forall|t: int| 0 <= t < i ==> #[trigger] hay@.subrange(t, t + needle.len()) != needle@,
        decreases hay.len() - i,
    {
        let mut k: usize = 0;
        while k < needle.len() && hay[i + k] == needle[k]
            invariant
                k <= needle.len(),
                i + needle.len() <= hay.len(),
                forall|t: int| 0 <= t < k ==> hay@[i + t] == needle@[t],
            decreases needle.len() - k,
        {
            k += 1;
        }
        if k == needle.len() {
            assert(hay@.subrange(i as int, i + needle.len()) =~= needle@);
            return true;
        }
        assert(hay@.subrange(i as int, i + needle.len())[k as int] != needle@[k as int]);
        i += 1;
    }
    assert forall|t: int| 0 <= t && t + needle.len() <= hay.len() implies #[trigger] hay@.subrange(t, t + needle.len()) != needle@ by {
        assert(t < i);
    }
    false
}

/// Whether a vocabulary entry matches a filter typed in the list: an empty
/// filter matches every entry; else the filter must occur in the entry's
/// searchable text lowercased.
pub fn vocabulary_matches(entry: &VocabularyEntry, filter: &str) -> (r: bool)
    ensures
        r == (filter@.len() == 0 || contains_text(lowercased(entry_search_text(*entry)), filter@)),
{
    if filter.is_empty() {
        return true;
    }
    let mut text = String::new();
    push_str(&mut text, entry.code.as_str());
    push_str(&mut text, " ");
    push_str(&mut text, entry.canonical.as_str());
    push_str(&mut text, " ");
    push_str(&mut text, entry.external_name.as_str());
    push_str(&mut text, " ");
    push_str(&mut text, entry.abbr.as_str());
    push_str(&mut text, " ");
    push_str(&mut text, entry.department_code.as_str());
    push_str(&mut text, " ");
    push_str(&mut text, entry.parent.as_str());
    push_str(&mut text, " ");
    push_str(&mut text, entry.unit.as_str());
    push_str(&mut text, " ");
    let aliases = join_strings(&entry.aliases, " ");
    push_str(&mut text, aliases.as_str());
    push_str(&mut text, " ");
    push_str(&mut text, entry.note.as_str());
    push_str(&mut text, " ");
    push_str(&mut text, entry.phone.as_str());
    push_str(&mut text, " ");
    push_str(&mut text, entry.position.as_str());
    push_str(&mut text, " ");
    if entry.seal_on_behalf {
        push_str(&mut text, "代章");
    }
    assert(text@ =~= entry_search_text(*entry));
    let lower = to_lowercase(text.as_str());
    let hay = chars_of(lower.as_str());
    let needle = chars_of(filter);
    find_text(&hay, &needle)
}

/// An option as the list shows it: one ideographic space per level, then
/// its label.
pub fn indented_label(option: &SelectOption) -> (r: String)
    ensures
        r@ == Seq::new(option.depth as nat, |k: int| '　') + option.label@,
{
    let mut out = String::new();
    let mut k: usize = 0;
    while k < option.depth
        invariant
            k <= option.depth,
            out@ == Seq::new(k as nat, |t: int| '　'),
        decreases option.depth - k,
    {
        out.push('　');
        k += 1;
        assert(out@ =~= Seq::new(k as nat, |t: int| '　'));
    }
    push_str(&mut out, option.label.as_str());
    out
}

/// The PowerShell command that prints a file through the shell's print
/// verb; a single quote in the path is doubled, as a single-quoted
/// PowerShell string requires.
pub open spec fn print_script_text(path: Seq<char>) -> Seq<char> {
    "Start-Process -FilePath '"@ + quotes_doubled(path) + "' -Verb Print"@
}

/// `s` with every `'` written twice.
pub open spec fn quotes_doubled(s: Seq<char>) -> Seq<char>
    decreases s.len(),
{
    if s.len() == 0 {
        seq![]
    } else {
        quotes_doubled(s.drop_last()) + if s.last() == '\'' {
            seq!['\'', '\'']
        } else {
            seq![s.last()]
        }
    }
}

/// The Windows print command for the file at `path` (the path as shown).
pub fn print_verb_script(path: &str) -> (r: String)
    ensures
        r@ == print_script_text(path@),
{
    let v = chars_of(path);
    let mut quoted = String::new();
    let mut k: usize = 0;
    assert(v@.take(0) =~= Seq::<char>::empty());
    while k < v.len()
        invariant
            k <= v.len(),
            quoted@ == quotes_doubled(v@.take(k as int)),
        decreases v.len() - k,
    {
        let ghost before = quoted@;
        if v[k] == '\'' {
            quoted.push('\'');
            quoted.push('\'');
        } else {
            quoted.push(v[k]);
        }
        assert(v@.take(k + 1).drop_last() =~= v@.take(k as int));
        assert(quoted@ =~= quotes_doubled(v@.take(k + 1)));
        k += 1;
    }
    assert(v@.take(v.len() as int) =~= v@);
    let mut out = "Start-Process -FilePath '".to_owned();
    push_str(&mut out, quoted.as_str());
    push_str(&mut out, "' -Verb Print");
    out
}


// ---------------------------------------------------------------------------
// Names for new versions and entries.

/// The first free name among `base`, then `base + sep + 2`, `base + sep + 3`,
/// ...: `r` is it when `taken` (a property of names) holds of none before it.
pub open spec fn first_free_name(taken: spec_fn(Seq<char>) -> bool, base: Seq<char>, sep: Seq<char>, r: Seq<char>) -> bool {
    if !taken(base) {
        r == base
    } else {
        exists|i: nat|
            2 <= i && r == #[trigger] (base + sep + decimal_digits(i)) && !taken(r) && forall|j: nat|
                2 <= j < i ==> #[trigger] taken(base + sep + decimal_digits(j))
    }
}

fn contains_string(names: &[String], candidate: &String) -> (r: bool)
    ensures
        r == names@.map_values(|s: String| s@).contains(candidate@),
{
    let ghost m = names@.map_values(|s: String| s@);
    let mut k: usize = 0;
    while k < names.len()
        invariant
            k <= names.len(),
            m == names@.map_values(|s: String| s@),
            forall|t: int| 0 <= t < k ==> m[t] != candidate@,
        decreases names.len() - k,
    {
        if names[k] == *candidate {
            assert(m[k as int] == names@[k as int]@);
            return true;
        }
        assert(m[k as int] == names@[k as int]@);
        k += 1;
    }
    false
}

/// One version of a manuscript as the version list shows it.
#[derive(Clone, Debug)]
pub struct VersionRow {
    pub version_number: u64,
    pub name: String,
    pub comment: String,
    pub title: String,
    pub doc_number: String,
    pub doc_date: String,
    pub created_at: String,
}

/// A value, or a dash when it is empty.
pub open spec fn or_dash(s: Seq<char>) -> Seq<char> {
    if s.len() == 0 {
        "—"@
    } else {
        s
    }
}

/// The hover text of a row of the version list: number and name, the
/// comment when there is one, then the title, document number, date of
/// issue and when the version was committed.
pub open spec fn version_hover_text(row: VersionRow) -> Seq<char> {
    "v"@ + decimal_digits(row.version_number as nat) + " · "@ + row.name@ + "\n"@ + (if row.comment@.len() > 0 {
        "注释："@ + row.comment@ + "\n"@
    } else {
        Seq::<char>::empty()
    }) + "该版标题："@ + row.title@ + "\n文号："@ + or_dash(row.doc_number@) + "\n成文日期："@ + or_dash(row.doc_date@)
        + "\n提交于 "@ + short_date_text(row.created_at@)
}

fn push_or_dash(out: &mut String, value: &str)
    ensures
        final(out)@ == old(out)@ + or_dash(value@),
{
    let v = chars_of(value);
    if v.len() == 0 {
        push_str(out, "—");
    } else {
        push_str(out, value);
    }
}

/// The details shown when hovering a row of the version list.
pub fn version_hover(row: &VersionRow) -> (r: String)
    ensures
        r@ == version_hover_text(*row),
{
    let mut out = String::new();
    push_str(&mut out, "v");
    crate::text::push_decimal(&mut out, row.version_number);
    push_str(&mut out, " · ");
    push_str(&mut out, row.name.as_str());
    push_str(&mut out, "\n");
    let ghost head = out@;
    let comment = chars_of(row.comment.as_str());
    if comment.len() > 0 {
        push_str(&mut out, "注释：");
        push_str(&mut out, row.comment.as_str());
        push_str(&mut out, "\n");
    }
    push_str(&mut out, "该版标题：");
    push_str(&mut out, row.title.as_str());
    push_str(&mut out, "\n文号：");
    push_or_dash(&mut out, row.doc_number.as_str());
    push_str(&mut out, "\n成文日期：");
    push_or_dash(&mut out, row.doc_date.as_str());
    push_str(&mut out, "\n提交于 ");
    let date = short_date(row.created_at.as_str());
    push_str(&mut out, date.as_str());
    assert(out@ =~= version_hover_text(*row));
    out
}

/// `base`, or the first of `base-2`, `base-3`, ... that no existing version
/// carries.
pub fn unique_version_name(existing: &[String], base: &str) -> (r: String)
    requires
        existing@.len() < 0x7fff_fffd,
    ensures
        first_free_name(|c: Seq<char>| existing@.map_values(|s: String| s@).contains(c), base@, "-"@, r@),
{
    let ghost pool = existing@.map_values(|s: String| s@);
    let b = base.to_owned();
    if !contains_string(existing, &b) {
        return b;
    }
    proof {
        lemma_free_numbered_name(pool, base@, "-"@);
    }
    let mut index: u64 = 2;
    loop
        invariant
            2 <= index <= pool.len() + 2,
            pool == existing@.map_values(|s: String| s@),
            pool.contains(base@),
            existing@.len() < 0x7fff_fffd,
            exists|i: int| 2 <= i <= pool.len() + 2 && !pool.contains(#[trigger] (base@ + "-"@ + decimal_digits(i as nat))),
            forall|j: nat| 2 <= j < index ==> pool.contains(#[trigger] (base@ + "-"@ + decimal_digits(j))),
        decreases pool.len() + 2 - index,
    {
        let mut candidate = base.to_owned();
        push_str(&mut candidate, "-");
        let digits = decimal(index);
        push_str(&mut candidate, digits.as_str());
        if !contains_string(existing, &candidate) {
            proof {
                let taken = |c: Seq<char>| existing@.map_values(|s: String| s@).contains(c);
                assert(candidate@ == base@ + "-"@ + decimal_digits(index as nat));
                assert(!taken(candidate@));
                assert(taken(base@));
                assert forall|j: nat| 2 <= j < index implies #[trigger] taken(base@ + "-"@ + decimal_digits(j)) by {
                    assert(pool.contains(base@ + "-"@ + decimal_digits(j)));
                }
                assert(first_free_name(taken, base@, "-"@, candidate@));
            }
            return candidate;
        }
        proof {
            if index == pool.len() + 2 {
                let i = choose|i: int| 2 <= i <= pool.len() + 2 && !pool.contains(#[trigger] (base@ + "-"@ + decimal_digits(i as nat)));
                if i < index {
                    assert(pool.contains(base@ + "-"@ + decimal_digits(i as nat)));
                }
            }
        }
        index += 1;
    }
}

/// Trimmed canonical names of the entries of `category`.
pub open spec fn category_names(vocab: Seq<VocabularyEntry>, category: VocabularyCategory) -> spec_fn(Seq<char>) -> bool {
    |c: Seq<char>| exists|k: int| 0 <= k < vocab.len() && #[trigger] vocab[k].category == category && trim(vocab[k].canonical@) == c
}

fn name_taken(vocab: &[VocabularyEntry], category: VocabularyCategory, candidate: &Vec<char>) -> (r: bool)
    ensures
        r == (category_names(vocab@, category))(candidate@),
{
    let mut k: usize = 0;
    while k < vocab.len()
        invariant
            k <= vocab.len(),
            forall|t: int| 0 <= t < k ==> !(#[trigger] vocab@[t].category == category && trim(vocab@[t].canonical@) == candidate@),
        decreases vocab.len() - k,
    {
        let entry = &vocab[k];
        if entry.category == category {
            let c = chars_of(entry.canonical.as_str());
            let (a, b) = trim_bounds(&c, 0, c.len());
            assert(c@.subrange(0, c.len() as int) =~= c@);
            let t = copy_range(&c, a, b);
            if crate::lcs::chars_eq(&t, candidate) {
                return true;
            }
        }
        k += 1;
    }
    false
}

/// A placeholder name for a new entry: `base`, or the first of `base2`,
/// `base3`, ... that no entry of the same category carries.
pub fn unique_name(vocab: &[VocabularyEntry], category: VocabularyCategory, base: &str) -> (r: String)
    requires
        vocab@.len() < 0x7fff_fffd,
    ensures
        first_free_name(category_names(vocab@, category), base@, ""@, r@),
{
    let ghost taken = category_names(vocab@, category);
    let b = chars_of(base);
    if !name_taken(vocab, category, &b) {
        return base.to_owned();
    }
    let ghost pool = vocab@.map_values(|e: VocabularyEntry| trim(e.canonical@));
    proof {
        lemma_free_numbered_name(pool, base@, ""@);
        assert forall|c: Seq<char>| #[trigger] taken(c) implies pool.contains(c) by {
            let k = choose|k: int| 0 <= k < vocab@.len() && #[trigger] vocab@[k].category == category && trim(vocab@[k].canonical@) == c;
            assert(pool[k] == c);
        }
    }
    let mut index: u64 = 2;
    loop
        invariant
            2 <= index <= pool.len() + 2,
            pool == vocab@.map_values(|e: VocabularyEntry| trim(e.canonical@)),
            taken == category_names(vocab@, category),
            taken(base@),
            vocab@.len() < 0x7fff_fffd,
            forall|c: Seq<char>| #[trigger] taken(c) ==> pool.contains(c),
            exists|i: int| 2 <= i <= pool.len() + 2 && !pool.contains(#[trigger] (base@ + ""@ + decimal_digits(i as nat))),
            forall|j: nat| 2 <= j < index ==> taken(#[trigger] (base@ + ""@ + decimal_digits(j))),
        decreases pool.len() + 2 - index,
    {
        let mut candidate = base.to_owned();
        let digits = decimal(index);
        push_str(&mut candidate, digits.as_str());
        let cv = chars_of(candidate.as_str());
        proof {
            reveal_strlit("");
        }
        assert(candidate@ =~= base@ + ""@ + decimal_digits(index as nat));
        if !name_taken(vocab, category, &cv) {
            proof {
                assert(!taken(candidate@));
                assert forall|j: nat| 2 <= j < index implies #[trigger] taken(base@ + ""@ + decimal_digits(j)) by {
                    assert(taken(base@ + ""@ + decimal_digits(j)));
                }
                assert(first_free_name(taken, base@, ""@, candidate@));
            }
            return candidate;
        }
        proof {
            if index == pool.len() + 2 {
                let i = choose|i: int| 2 <= i <= pool.len() + 2 && !pool.contains(#[trigger] (base@ + ""@ + decimal_digits(i as nat)));
                if i < index {
                    assert(taken(base@ + ""@ + decimal_digits(i as nat)));
                }
            }
        }
        index += 1;
    }
}


// ---------------------------------------------------------------------------
// The vocabulary tree.

/// The depth recorded last for a unit code, if any.
pub open spec fn lookup_depth(table: Seq<(Seq<char>, nat)>, key: Seq<char>) -> Option<nat>
    decreases table.len(),
{
    if table.len() == 0 {
        None
    } else if table.last().0 == key {
        Some(table.last().1)
    } else {
        lookup_depth(table.drop_last(), key)
    }
}

/// One level below the depth recorded for `key`, or the top level.
pub open spec fn below(table: Seq<(Seq<char>, nat)>, key: Seq<char>) -> nat {
    match lookup_depth(table, key) {
        Some(d) => d + 1,
        None => 0,
    }
}

/// Depths of the first `k` entries, and the depth recorded for each unit
/// code so far: a unit sits one level below its parent unit, a person one
/// below the unit it belongs to, and either at the top when that unit has
/// not come up yet.
pub open spec fn depths_fold(vocab: Seq<VocabularyEntry>, k: int) -> (Seq<nat>, Seq<(Seq<char>, nat)>)
    decreases k,
{
    if k <= 0 {
        (seq![], seq![])
    } else {
        let (ds, table) = depths_fold(vocab, k - 1);
        let e = vocab[k - 1];
        if e.category == VocabularyCategory::Unit {
            let parent = trim(e.parent@);
            let d = if parent.len() == 0 {
                0
            } else {
                below(table, parent)
            };
            (ds.push(d), table.push((trim(e.code@), d)))
        } else {
            (ds.push(below(table, trim(e.unit@))), table)
        }
    }
}

fn trimmed_chars(s: &String) -> (r: Vec<char>)
    ensures
        r@ == trim(s@),
{
    let c = chars_of(s.as_str());
    let (a, b) = trim_bounds(&c, 0, c.len());
    assert(c@.subrange(0, c.len() as int) =~= c@);
    copy_range(&c, a, b)
}

fn find_depth(table: &Vec<(Vec<char>, usize)>, key: &Vec<char>) -> (r: Option<usize>)
    ensures
        match r {
            Some(d) => lookup_depth(table_model(table@), key@) == Some(d as nat),
            None => lookup_depth(table_model(table@), key@) is None,
        },
{
    let ghost tm = table_model(table@);
    let mut k = table.len();
    assert(tm.take(k as int) =~= tm);
    while k > 0
        invariant
            k <= table.len(),
            tm == table_model(table@),
            lookup_depth(tm.take(k as int), key@) == lookup_depth(tm, key@),
        decreases k,
    {
        assert(tm.take(k as int).drop_last() =~= tm.take(k - 1));
        assert(tm.take(k as int).last() == (table@[k - 1].0@, table@[k - 1].1 as nat));
        if crate::lcs::chars_eq(&table[k - 1].0, key) {
            return Some(table[k - 1].1);
        }
        k -= 1;
    }
    None
}

pub open spec fn table_model(t: Seq<(Vec<char>, usize)>) -> Seq<(Seq<char>, nat)> {
    t.map_values(|p: (Vec<char>, usize)| (p.0@, p.1 as nat))
}

/// The indentation of every entry of the vocabulary tree. Units hang below
/// their parent by code, persons below their unit by code, so equal names
/// do not disturb the tree.
pub fn vocabulary_depths(vocab: &[VocabularyEntry]) -> (r: Vec<usize>)
    ensures
        r@.map_values(|d: usize| d as nat) == depths_fold(vocab@, vocab@.len() as int).0,
{
    let mut table: Vec<(Vec<char>, usize)> = Vec::new();
    let mut out: Vec<usize> = Vec::new();
    let mut k: usize = 0;
    while k < vocab.len()
        invariant
            k <= vocab.len(),
            out@.map_values(|d: usize| d as nat) == depths_fold(vocab@, k as int).0,
            table_model(table@) == depths_fold(vocab@, k as int).1,
            forall|t: int| 0 <= t < table.len() ==> #[trigger] table@[t].1 <= k,
            table.len() <= k,
            out.len() == k,
        decreases vocab.len() - k,
    {
        let entry = &vocab[k];
        let ghost before_out = out@;
        let ghost before_table = table@;
        if entry.category == VocabularyCategory::Unit {
            let parent = trimmed_chars(&entry.parent);
            let depth = if parent.len() == 0 {
                0
            } else {
                match find_depth(&table, &parent) {
                    Some(d) => {
                        proof {
                            lemma_lookup_depth_bound(table@, parent@, k as nat);
                        }
                        d + 1
                    },
                    None => 0,
                }
            };
            let code = trimmed_chars(&entry.code);
            table.push((code, depth));
            out.push(depth);
            proof {
                assert(table_model(table@) =~= table_model(before_table).push((trim(entry.code@), depth as nat)));
            }
        } else {
            let unit = trimmed_chars(&entry.unit);
            let depth = match find_depth(&table, &unit) {
                Some(d) => {
                    proof {
                        lemma_lookup_depth_bound(table@, unit@, k as nat);
                    }
                    d + 1
                },
                None => 0,
            };
            out.push(depth);
        }
        proof {
            assert(out@.map_values(|d: usize| d as nat) =~= before_out.map_values(|d: usize| d as nat).push(
                out@[k as int] as nat,
            ));
        }
        k += 1;
    }
    out
}

proof fn lemma_lookup_depth_bound(table: Seq<(Vec<char>, usize)>, key: Seq<char>, bound: nat)
    requires
        forall|t: int| 0 <= t < table.len() ==> #[trigger] table[t].1 <= bound,
    ensures
        lookup_depth(table_model(table), key) matches Some(d) ==> d <= bound,
    decreases table.len(),
{
    if table.len() > 0 {
        let tm = table_model(table);
        assert(tm.drop_last() =~= table_model(table.drop_last()));
        assert(tm.last() == (table.last().0@, table.last().1 as nat));
        assert(table.last().1 == table[table.len() - 1].1);
        lemma_lookup_depth_bound(table.drop_last(), key, bound);
    }
}


// ---------------------------------------------------------------------------
// Vocabulary order.

/// Position of the first option whose value is `v`, or `usize::MAX` when
/// none is.
pub open spec fn option_position(opts: Seq<OptionModel>, v: Seq<char>) -> nat
    decreases opts.len(),
{
    if opts.len() == 0 {
        usize::MAX as nat
    } else {
        let rest = option_position(opts.drop_first(), v);
        if opts[0].value == v {
            0
        } else if rest == usize::MAX as nat {
            rest
        } else {
            rest + 1
        }
    }
}

/// `sorted` with `x` placed after every entry whose key is at most its own.
pub open spec fn insert_keyed<T>(sorted: Seq<(nat, T)>, x: (nat, T)) -> Seq<(nat, T)>
    decreases sorted.len(),
{
    if sorted.len() == 0 || sorted.last().0 <= x.0 {
        sorted.push(x)
    } else {
        insert_keyed(sorted.drop_last(), x).push(sorted.last())
    }
}

/// The entries ordered by key, entries with equal keys kept in their order.
pub open spec fn keyed_sort<T>(v: Seq<(nat, T)>) -> Seq<(nat, T)>
    decreases v.len(),
{
    if v.len() == 0 {
        v
    } else {
        insert_keyed(keyed_sort(v.drop_last()), v.last())
    }
}

/// Units in the order of the options (the vocabulary order); units without
/// an option keep their order at the end.
pub open spec fn vocabulary_order(units: Seq<Seq<char>>, opts: Seq<OptionModel>) -> Seq<Seq<char>> {
    keyed_sort(units.map_values(|u: Seq<char>| (option_position(opts, u), u))).map_values(
        |p: (nat, Seq<char>)| p.1,
    )
}

proof fn lemma_insert_keyed_at<T>(s: Seq<(nat, T)>, x: (nat, T), p: int)
    requires
        0 <= p <= s.len(),
        forall|i: int| p <= i < s.len() ==> #[trigger] s[i].0 > x.0,
        p > 0 ==> s[p - 1].0 <= x.0,
    ensures
        insert_keyed(s, x) == s.take(p) + seq![x] + s.skip(p),
    decreases s.len(),
{
    if s.len() == 0 || s.last().0 <= x.0 {
        if p < s.len() {
            assert(s[s.len() - 1].0 > x.0);
        }
        assert(s.push(x) =~= s.take(p) + seq![x] + s.skip(p));
    } else {
        let d = s.drop_last();
        assert forall|i: int| p <= i < d.len() implies #[trigger] d[i].0 > x.0 by {
            assert(d[i] == s[i]);
        }
        lemma_insert_keyed_at(d, x, p);
        assert(d.take(p) + seq![x] + d.skip(p) + seq![s.last()] =~= s.take(p) + seq![x] + s.skip(p));
    }
}

proof fn lemma_option_position(om: Seq<OptionModel>, v: Seq<char>, k: int)
    requires
        0 <= k <= om.len(),
        om.len() <= usize::MAX,
        forall|t: int| 0 <= t < k ==> #[trigger] om[t].value != v,
        k < om.len() ==> om[k].value == v,
    ensures
        option_position(om, v) == if k < om.len() {
            k as nat
        } else {
            usize::MAX as nat
        },
    decreases om.len(),
{
    if om.len() > 0 && k > 0 {
        let d = om.drop_first();
        assert forall|t: int| 0 <= t < k - 1 implies #[trigger] d[t].value != v by {
            assert(d[t] == om[t + 1]);
        }
        assert(om[0].value != v);
        lemma_option_position(d, v, k - 1);
    }
}

fn position_in_options(options: &[SelectOption], item: &String) -> (r: usize)
    ensures
        r as nat == option_position(options_model(options@), item@),
{
    let ghost om = options_model(options@);
    let mut k: usize = 0;
    while k < options.len()
        invariant
            k <= options.len(),
            om == options_model(options@),
            forall|t: int| 0 <= t < k ==> #[trigger] om[t].value != item@,
        decreases options.len() - k,
    {
        assert(om[k as int] == options@[k as int].model());
        if options[k].value == *item {
            proof {
                lemma_option_position(om, item@, k as int);
            }
            return k;
        }
        k += 1;
    }
    proof {
        lemma_option_position(om, item@, options.len() as int);
    }
    usize::MAX
}

pub open spec fn keyed_model(v: Seq<(usize, String)>) -> Seq<(nat, Seq<char>)> {
    v.map_values(|p: (usize, String)| (p.0 as nat, p.1@))
}

/// Order picked units as the vocabulary lists them; values the vocabulary
/// no longer has keep their order at the end.
pub fn sort_by_vocabulary(units: Vec<String>, options: &[SelectOption]) -> (r: Vec<String>)
    ensures
        strings_model(r@) == vocabulary_order(strings_model(units@), options_model(options@)),
{
    let ghost u0 = strings_model(units@);
    let ghost om = options_model(options@);
    let ghost keyed0 = u0.map_values(|u: Seq<char>| (option_position(om, u), u));
    let mut src = units;
    let mut rev: Vec<String> = Vec::new();
    let ghost s0 = src@;
    while src.len() > 0
        invariant
            s0 == src@ + rev@.reverse(),
        decreases src.len(),
    {
        let ghost before = rev@;
        let item = src.pop().unwrap();
        rev.push(item);
        assert(rev@.reverse() =~= seq![item] + before.reverse());
    }
    assert(src@ + rev@.reverse() =~= rev@.reverse());
    let n = rev.len();
    let mut out: Vec<(usize, String)> = Vec::new();
    proof {
        assert(rev@ =~= s0.skip(0).reverse());
        assert(keyed0.take(0) =~= Seq::<(nat, Seq<char>)>::empty());
        assert(keyed_model(out@) =~= keyed_sort(keyed0.take(0)));
    }
    while rev.len() > 0
        invariant
            n == s0.len(),
            u0 == strings_model(s0),
            om == options_model(options@),
            keyed0 == u0.map_values(|u: Seq<char>| (option_position(om, u), u)),
            rev.len() <= n,
            rev@ == s0.skip(n - rev.len()).reverse(),
            keyed_model(out@) == keyed_sort(keyed0.take(n - rev.len())),
        decreases rev.len(),
    {
        let ghost k = n - rev.len();
        let item = rev.pop().unwrap();
        assert(item == s0[k]) by {
            assert(s0.skip(k).reverse().last() == s0.skip(k)[0]);
        }
        let key = position_in_options(options, &item);
        let mut p = out.len();
        while p > 0 && out[p - 1].0 > key
            invariant
                p <= out.len(),
                forall|i: int| p <= i < out.len() ==> out@[i].0 > key,
            decreases p,
        {
            p -= 1;
        }
        proof {
            let m = keyed_model(out@);
            let x = (key as nat, item@);
            assert forall|i: int| p <= i < m.len() implies #[trigger] m[i].0 > x.0 by {}
            lemma_insert_keyed_at(m, x, p as int);
            assert(keyed0.take(k + 1).drop_last() =~= keyed0.take(k));
            assert(keyed0.take(k + 1).last() == x);
            assert(s0.skip(k + 1).reverse() =~= s0.skip(k).reverse().drop_last());
        }
        let ghost before = out@;
        out.insert(p, (key, item));
        assert(keyed_model(out@) =~= keyed_model(before).take(p as int) + seq![(key as nat, item@)]
            + keyed_model(before).skip(p as int));
    }
    assert(keyed0.take(n as int) =~= keyed0);
    let ghost sm = keyed_model(out@).map_values(|p: (nat, Seq<char>)| p.1);
    let mut pairs = out;
    let mut rev_strings: Vec<String> = Vec::new();
    assert(sm =~= keyed_model(pairs@).map_values(|p: (nat, Seq<char>)| p.1) + strings_model(rev_strings@).reverse());
    while pairs.len() > 0
        invariant
            sm == keyed_model(pairs@).map_values(|p: (nat, Seq<char>)| p.1) + strings_model(rev_strings@).reverse(),
        decreases pairs.len(),
    {
        let ghost before_pairs = pairs@;
        let ghost before_rev = rev_strings@;
        let (_, item) = pairs.pop().unwrap();
        rev_strings.push(item);
        assert(keyed_model(before_pairs).map_values(|p: (nat, Seq<char>)| p.1) =~= keyed_model(pairs@).map_values(
            |p: (nat, Seq<char>)| p.1,
        ).push(item@));
        assert(strings_model(rev_strings@).reverse() =~= seq![item@] + strings_model(before_rev).reverse());
    }
    let mut result: Vec<String> = Vec::new();
    assert(sm =~= strings_model(result@) + strings_model(rev_strings@).reverse());
    while rev_strings.len() > 0
        invariant
            sm == strings_model(result@) + strings_model(rev_strings@).reverse(),
        decreases rev_strings.len(),
    {
        let ghost before_rev = rev_strings@;
        let ghost before_res = result@;
        let item = rev_strings.pop().unwrap();
        result.push(item);
        assert(strings_model(before_rev).reverse() =~= seq![item@] + strings_model(rev_strings@).reverse());
        assert(strings_model(result@) =~= strings_model(before_res).push(item@));
    }
    assert(strings_model(result@) + strings_model(rev_strings@).reverse() =~= strings_model(result@));
    result
}

/// Shortening keeps a text that fits as it is. A longer one is cut to `max`
/// characters and an ellipsis at the end; cut in the middle it keeps `max`
/// characters in all, the ellipsis among them, the head keeping the smaller
/// half of the others and the tail the larger.
pub proof fn lemma_cuts_keep_ends(s: Seq<char>, max: nat)
    ensures
        s.len() <= max ==> end_cut(s, max) == s && middle_cut(s, max) == s,
        s.len() > max ==> {
            &&& end_cut(s, max).len() == max + 1
            &&& end_cut(s, max).take(max as int) == s.take(max as int)
            &&& end_cut(s, max).last() == '…'
        },
        s.len() > max >= 1 ==> {
            let h = (max - 1) / 2;
            let t = max - 1 - h;
            &&& h <= t <= h + 1
            &&& middle_cut(s, max).len() == max
            &&& middle_cut(s, max) == s.take(h) + seq!['…'] + s.skip(s.len() - t)
        },
{
    if s.len() > max {
        assert(end_cut(s, max).take(max as int) =~= s.take(max as int));
        if max >= 1 {
            assert((max + 1) / 2 - 1 == (max - 1) / 2);
        }
    }
}

} // verus!
