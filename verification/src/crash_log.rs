//! Crash reports: what a report says, how its file is named, and which old
//! reports make room for a new one. Writing the files, the panic hook and the
//! marker of an unseen report are the program's side.

use crate::text::{chars_of, push_str, starts_with, string_of, string_of_range, strings_model};
use vstd::prelude::*;

verus! {

/// At most this many reports are kept; older ones go when a new one is written.
pub const MAX_REPORTS: usize = 20;

/// Name of the marker a written report leaves for the next start; it holds
/// the path of the newest report.
pub const UNSEEN_MARKER: &'static str = ".unseen-crash";

/// Report files are named `crash-<time stamp>.log`.
pub const REPORT_PREFIX: &'static str = "crash-";

pub open spec fn ends_with(s: Seq<char>, p: Seq<char>) -> bool {
    p.len() <= s.len() && s.skip(s.len() - p.len()) == p
}

/// Whether a file name is a report's.
pub open spec fn is_report(name: Seq<char>) -> bool {
    starts_with(name, "crash-"@) && ends_with(name, ".log"@)
}

/// Whether a file of the log directory is a crash report.
pub fn is_report_name(name: &str) -> (r: bool)
    ensures
        r == is_report(name@),
{
    proof {
        reveal_strlit("crash-");
        reveal_strlit(".log");
    }
    let v = chars_of(name);
    let n = v.len();
    let prefix = ['c', 'r', 'a', 's', 'h', '-'];
    let suffix = ['.', 'l', 'o', 'g'];
    assert(prefix@ =~= "crash-"@);
    assert(suffix@ =~= ".log"@);
    assert(v@.subrange(0, n as int) =~= v@);
    let head = crate::text::has_prefix_at(&v, 0, n, &prefix);
    if !head || n < 4 {
        return false;
    }
    let mut k: usize = 0;
    while k < 4
        invariant
            k <= 4,
            n == v.len() >= 4,
            v@ == name@,
            suffix@ =~= ".log"@,
            forall|t: int| 0 <= t < k ==> v@[n - 4 + t] == suffix@[t],
        decreases 4 - k,
    {
        if v[n - 4 + k] != suffix[k] {
            assert(v@.skip(n - 4)[k as int] == v@[n - 4 + k]);
            assert(v@.skip(n - 4)[k as int] != ".log"@[k as int]);
            assert(v@.skip(n - 4) != ".log"@);
            return false;
        }
        k += 1;
    }
    assert(v@.skip(n - 4) =~= ".log"@);
    true
}

/// The file name of a report written at `stamp`.
pub fn report_file_name(stamp: &str) -> (r: String)
    ensures
        r@ == "crash-"@ + stamp@ + ".log"@,
{
    let mut r = String::new();
    push_str(&mut r, REPORT_PREFIX);
    push_str(&mut r, stamp);
    push_str(&mut r, ".log");
    r
}

// ---------------------------------------------------------------------------
// Pruning.

/// `a` before `b` in the order of their characters (the order of their
/// UTF-8 bytes), a prefix first.
pub open spec fn lex_lt(a: Seq<char>, b: Seq<char>) -> bool
    decreases a.len(),
{
    if a.len() == 0 {
        b.len() > 0
    } else if b.len() == 0 {
        false
    } else if a[0] < b[0] {
        true
    } else if a[0] == b[0] {
        lex_lt(a.drop_first(), b.drop_first())
    } else {
        false
    }
}

pub open spec fn lex_le(a: Seq<char>, b: Seq<char>) -> bool {
    !lex_lt(b, a)
}

/// Where a name goes in a sorted list: after every name not after it.
pub open spec fn name_pos(s: Seq<Seq<char>>, x: Seq<char>) -> int
    decreases s.len(),
{
    if s.len() > 0 && lex_le(s[0], x) {
        1 + name_pos(s.drop_first(), x)
    } else {
        0
    }
}

/// The names sorted, as `sort` orders them.
pub open spec fn sorted_names(s: Seq<Seq<char>>) -> Seq<Seq<char>>
    decreases s.len(),
{
    if s.len() == 0 {
        s
    } else {
        let p = sorted_names(s.drop_last());
        p.insert(name_pos(p, s.last()), s.last())
    }
}

/// The report names among `names`, in their order.
pub open spec fn report_names(names: Seq<Seq<char>>) -> Seq<Seq<char>>
    decreases names.len(),
{
    if names.len() == 0 {
        names
    } else {
        report_names(names.drop_last()) + if is_report(names.last()) {
            seq![names.last()]
        } else {
            seq![]
        }
    }
}

/// The reports to delete from a directory holding `names`: beyond
/// `MAX_REPORTS` reports, the oldest ones, which sort first by their time
/// stamps.
pub open spec fn pruned(names: Seq<Seq<char>>) -> Seq<Seq<char>> {
    let reports = sorted_names(report_names(names));
    if reports.len() <= MAX_REPORTS {
        seq![]
    } else {
        reports.take(reports.len() - MAX_REPORTS)
    }
}

pub(crate) fn lex_lt_exec(a: &Vec<char>, b: &Vec<char>) -> (r: bool)
    ensures
        r == lex_lt(a@, b@),
{
    let mut k: usize = 0;
    assert(a@.skip(0) =~= a@);
    assert(b@.skip(0) =~= b@);
    while k < a.len() && k < b.len() && a[k] == b[k]
        invariant
            k <= a.len(),
            k <= b.len(),
            lex_lt(a@, b@) == lex_lt(a@.skip(k as int), b@.skip(k as int)),
        decreases a.len() - k,
    {
        proof {
            assert(a@.skip(k as int)[0] == a@[k as int]);
            assert(b@.skip(k as int)[0] == b@[k as int]);
            assert(a@.skip(k as int).drop_first() =~= a@.skip(k + 1));
            assert(b@.skip(k as int).drop_first() =~= b@.skip(k + 1));
        }
        k += 1;
    }
    proof {
        if k < a.len() {
            assert(a@.skip(k as int)[0] == a@[k as int]);
        }
        if k < b.len() {
            assert(b@.skip(k as int)[0] == b@[k as int]);
        }
    }
    if k == a.len() {
        k < b.len()
    } else if k == b.len() {
        false
    } else {
        a[k] < b[k]
    }
}

proof fn lemma_name_pos_skip(s: Seq<Seq<char>>, x: Seq<char>, k: int)
    requires
        0 <= k <= s.len(),
        forall|t: int| 0 <= t < k ==> lex_le(#[trigger] s[t], x),
    ensures
        name_pos(s, x) == k + name_pos(s.skip(k), x),
    decreases k,
{
    if k > 0 {
        assert(lex_le(s[0], x));
        assert forall|t: int| 0 <= t < k - 1 implies lex_le(#[trigger] s.drop_first()[t], x) by {
            assert(s.drop_first()[t] == s[t + 1]);
        }
        lemma_name_pos_skip(s.drop_first(), x, k - 1);
        assert(s.drop_first().skip(k - 1) =~= s.skip(k));
    } else {
        assert(s.skip(0) =~= s);
    }
}

/// Sort names as `sort` does.
pub(crate) fn sort_names(names: &Vec<Vec<char>>) -> (r: Vec<Vec<char>>)
    ensures
        r.deep_view() == sorted_names(names.deep_view()),
{
    let ghost src = names.deep_view();
    let mut out: Vec<Vec<char>> = Vec::new();
    let mut k: usize = 0;
    while k < names.len()
        invariant
            k <= names.len(),
            src == names.deep_view(),
            out.deep_view() == sorted_names(src.take(k as int)),
        decreases names.len() - k,
    {
        let x = crate::text::copy_range(&names[k], 0, names[k].len());
        assert(names[k as int]@.subrange(0, names[k as int].len() as int) =~= names[k as int]@);
        let ghost ov = out.deep_view();
        let mut p: usize = 0;
        while p < out.len() && !lex_lt_exec(&x, &out[p])
            invariant
                p <= out.len(),
                ov == out.deep_view(),
                forall|t: int| 0 <= t < p ==> lex_le(#[trigger] ov[t], x@),
            decreases out.len() - p,
        {
            assert(ov[p as int] == out@[p as int]@);
            p += 1;
        }
        proof {
            lemma_name_pos_skip(ov, x@, p as int);
            if p < out.len() {
                assert(ov.skip(p as int)[0] == ov[p as int]);
                assert(ov[p as int] == out@[p as int]@);
            }
            assert(name_pos(ov.skip(p as int), x@) == 0);
            assert(src.take(k + 1).drop_last() =~= src.take(k as int));
            assert(src.take(k + 1).last() == x@);
        }
        out.insert(p, x);
        assert(out.deep_view() =~= ov.insert(p as int, x@));
        k += 1;
    }
    assert(src.take(names.len() as int) =~= src);
    out
}

/// The reports to delete from a directory of `names` so that the newest
/// `MAX_REPORTS` stay: none while there are no more than that, else the
/// oldest ones, in order.
pub fn reports_to_prune(names: &[String]) -> (r: Vec<String>)
    ensures
        strings_model(r@) == pruned(strings_model(names@)),
{
    let ghost all = strings_model(names@);
    let mut reports: Vec<Vec<char>> = Vec::new();
    let mut k: usize = 0;
    while k < names.len()
        invariant
            k <= names.len(),
            all == strings_model(names@),
            reports.deep_view() == report_names(all.take(k as int)),
        decreases names.len() - k,
    {
        assert(all.take(k + 1).drop_last() =~= all.take(k as int));
        assert(all.take(k + 1).last() == names@[k as int]@);
        let ghost before = reports.deep_view();
        if is_report_name(names[k].as_str()) {
            let x = chars_of(names[k].as_str());
            assert(x.deep_view() =~= x@);
            let ghost prev = reports@;
            reports.push(x);
            assert(reports.deep_view() =~= before.push(names@[k as int]@)) by {
                assert forall|t: int| 0 <= t < reports.len() implies reports.deep_view()[t] == before.push(names@[k as int]@)[t] by {
                    if t < reports.len() - 1 {
                        assert(reports@[t] == prev[t]);
                    }
                }
            }
        }
        assert(reports.deep_view() =~= report_names(all.take(k + 1)));
        k += 1;
    }
    assert(all.take(names.len() as int) =~= all);
    let sorted = sort_names(&reports);
    let mut out: Vec<String> = Vec::new();
    if sorted.len() <= MAX_REPORTS {
        assert(strings_model(out@) =~= pruned(all));
        return out;
    }
    let cut = sorted.len() - MAX_REPORTS;
    let mut k: usize = 0;
    while k < cut
        invariant
            k <= cut <= sorted.len(),
            out.len() == k,
            strings_model(out@) == sorted.deep_view().take(k as int),
        decreases cut - k,
    {
        let piece = string_of(&sorted[k]);
        assert(sorted.deep_view()[k as int] == sorted@[k as int]@);
        let ghost prev = out@;
        out.push(piece);
        assert(strings_model(out@) =~= sorted.deep_view().take(k + 1)) by {
            assert forall|t: int| 0 <= t < out.len() implies strings_model(out@)[t] == sorted.deep_view().take(k + 1)[t] by {
                if t < k {
                    assert(out@[t] == prev[t]);
                    assert(strings_model(prev)[t] == sorted.deep_view().take(k as int)[t]);
                }
            }
        }
        k += 1;
    }
    out
}

pub(crate) proof fn lemma_lex_irreflexive(a: Seq<char>)
    ensures
        !lex_lt(a, a),
    decreases a.len(),
{
    if a.len() > 0 {
        lemma_lex_irreflexive(a.drop_first());
    }
}

pub(crate) proof fn lemma_lex_trichotomy(a: Seq<char>, b: Seq<char>)
    ensures
        a == b || lex_lt(a, b) || lex_lt(b, a),
    decreases a.len(),
{
    if a.len() > 0 && b.len() > 0 {
        if a[0] == b[0] {
            lemma_lex_trichotomy(a.drop_first(), b.drop_first());
            if a.drop_first() == b.drop_first() {
                assert(a =~= seq![a[0]] + a.drop_first());
                assert(b =~= seq![b[0]] + b.drop_first());
            }
        }
    } else if a.len() == 0 && b.len() == 0 {
        assert(a =~= b);
    }
}

pub(crate) proof fn lemma_lex_transitive(a: Seq<char>, b: Seq<char>, c: Seq<char>)
    requires
        lex_lt(a, b),
        lex_lt(b, c),
    ensures
        lex_lt(a, c),
    decreases a.len(),
{
    if a.len() > 0 && a[0] == b[0] && b[0] == c[0] {
        lemma_lex_transitive(a.drop_first(), b.drop_first(), c.drop_first());
    }
}

pub(crate) proof fn lemma_lex_le_total(a: Seq<char>, b: Seq<char>)
    ensures
        lex_le(a, b) || lex_le(b, a),
{
    if lex_lt(a, b) && lex_lt(b, a) {
        lemma_lex_transitive(a, b, a);
        lemma_lex_irreflexive(a);
    }
}

pub(crate) proof fn lemma_lex_le_transitive(a: Seq<char>, b: Seq<char>, c: Seq<char>)
    requires
        lex_le(a, b),
        lex_le(b, c),
    ensures
        lex_le(a, c),
{
    if lex_lt(c, a) {
        lemma_lex_trichotomy(a, b);
        if lex_lt(a, b) {
            lemma_lex_transitive(c, a, b);
        }
    }
}

/// Every pair of names in order.
pub open spec fn names_sorted(s: Seq<Seq<char>>) -> bool {
    forall|i: int, j: int| 0 <= i < j < s.len() ==> lex_le(#[trigger] s[i], #[trigger] s[j])
}

proof fn lemma_name_pos(s: Seq<Seq<char>>, x: Seq<char>)
    ensures
        0 <= name_pos(s, x) <= s.len(),
        forall|t: int| 0 <= t < name_pos(s, x) ==> lex_le(#[trigger] s[t], x),
        name_pos(s, x) < s.len() ==> !lex_le(s[name_pos(s, x)], x),
    decreases s.len(),
{
    if s.len() > 0 && lex_le(s[0], x) {
        lemma_name_pos(s.drop_first(), x);
        assert forall|t: int| 0 <= t < name_pos(s, x) implies lex_le(#[trigger] s[t], x) by {
            if t > 0 {
                assert(s[t] == s.drop_first()[t - 1]);
            }
        }
        if name_pos(s, x) < s.len() {
            assert(s[name_pos(s, x)] == s.drop_first()[name_pos(s.drop_first(), x)]);
        }
    }
}

proof fn lemma_sorted_insert(p: Seq<Seq<char>>, x: Seq<char>)
    requires
        names_sorted(p),
    ensures
        names_sorted(p.insert(name_pos(p, x), x)),
{
    lemma_name_pos(p, x);
    let k = name_pos(p, x);
    let q = p.insert(k, x);
    assert forall|i: int, j: int| 0 <= i < j < q.len() implies lex_le(#[trigger] q[i], #[trigger] q[j]) by {
        if j < k {
            assert(q[i] == p[i] && q[j] == p[j]);
        } else if j == k {
            assert(q[i] == p[i]);
        } else if i < k {
            assert(q[i] == p[i] && q[j] == p[j - 1]);
            assert(lex_le(p[i], x));
            lemma_lex_le_total(p[k], x);
            lemma_lex_le_transitive(p[i], x, p[k]);
            if k < j - 1 {
                lemma_lex_le_transitive(p[i], p[k], p[j - 1]);
            }
        } else if i == k {
            assert(q[j] == p[j - 1]);
            lemma_lex_le_total(p[k], x);
            if k < j - 1 {
                lemma_lex_le_transitive(x, p[k], p[j - 1]);
            }
        } else {
            assert(q[i] == p[i - 1] && q[j] == p[j - 1]);
        }
    }
}

pub(crate) proof fn lemma_sorted_names(s: Seq<Seq<char>>)
    ensures
        names_sorted(sorted_names(s)),
        sorted_names(s).to_multiset() == s.to_multiset(),
        sorted_names(s).len() == s.len(),
    decreases s.len(),
{
    broadcast use vstd::seq_lib::to_multiset_insert, vstd::seq_lib::to_multiset_build;
    if s.len() > 0 {
        let p = sorted_names(s.drop_last());
        lemma_sorted_names(s.drop_last());
        lemma_name_pos(p, s.last());
        lemma_sorted_insert(p, s.last());
        assert(s.drop_last().push(s.last()) =~= s);
    }
}

/// Pruning keeps the newest reports: the reports it deletes and the ones it
/// keeps are together exactly the reports of the directory, no more than
/// `MAX_REPORTS` are kept, and every deleted report's name sorts before
/// every kept one's, so none is newer.
pub proof fn lemma_pruning_keeps_the_newest(names: Seq<Seq<char>>)
    ensures
        ({
            let reports = report_names(names);
            let sorted = sorted_names(reports);
            let gone = pruned(names);
            let kept = sorted.skip(gone.len() as int);
            &&& gone + kept == sorted
            &&& sorted.to_multiset() == reports.to_multiset()
            &&& kept.len() == if reports.len() <= MAX_REPORTS { reports.len() } else { MAX_REPORTS as nat }
            &&& forall|i: int, j: int| 0 <= i < gone.len() && 0 <= j < kept.len() ==> lex_le(#[trigger] gone[i], #[trigger] kept[j])
        }),
{
    let reports = report_names(names);
    let sorted = sorted_names(reports);
    lemma_sorted_names(reports);
    let gone = pruned(names);
    let kept = sorted.skip(gone.len() as int);
    assert(gone + kept =~= sorted);
    assert forall|i: int, j: int| 0 <= i < gone.len() && 0 <= j < kept.len() implies lex_le(#[trigger] gone[i], #[trigger] kept[j]) by {
        assert(gone[i] == sorted[i]);
        assert(kept[j] == sorted[gone.len() + j]);
    }
}

// ---------------------------------------------------------------------------
// The report.

/// One `key=value` line per environment variable that was set.
pub open spec fn env_lines(vars: Seq<(Seq<char>, Seq<char>)>) -> Seq<char>
    decreases vars.len(),
{
    if vars.len() == 0 {
        seq![]
    } else {
        env_lines(vars.drop_last()) + vars.last().0 + "="@ + vars.last().1 + "\n"@
    }
}

/// The text of a report: its kind, the time, the program's version, the
/// platform, the system's name and the program's path when known, the
/// graphics-related environment, then the detail.
pub open spec fn report_text(
    kind: Seq<char>,
    detail: Seq<char>,
    time: Seq<char>,
    version: Seq<char>,
    os: Seq<char>,
    arch: Seq<char>,
    system: Option<Seq<char>>,
    program: Option<Seq<char>>,
    vars: Seq<(Seq<char>, Seq<char>)>,
) -> Seq<char> {
    "公文助手崩溃日志\n"@ + "类型："@ + kind + "\n"@ + "时间："@ + time + "\n"@ + "版本："@ + version + "\n"@
        + "平台："@ + os + " / "@ + arch + "\n"@ + match system {
        Some(name) => "系统："@ + name + "\n"@,
        None => seq![],
    } + match program {
        Some(path) => "程序："@ + path + "\n"@,
        None => seq![],
    } + env_lines(vars) + "\n"@ + detail + "\n"@
}

pub open spec fn vars_model(vars: Seq<(String, String)>) -> Seq<(Seq<char>, Seq<char>)> {
    vars.map_values(|p: (String, String)| (p.0@, p.1@))
}

/// Lay out a crash report.
pub fn render_report(
    kind: &str,
    detail: &str,
    time: &str,
    version: &str,
    os: &str,
    arch: &str,
    system: Option<&str>,
    program: Option<&str>,
    vars: &[(String, String)],
) -> (r: String)
    ensures
        r@ == report_text(
            kind@,
            detail@,
            time@,
            version@,
            os@,
            arch@,
            match system {
                Some(s) => Some(s@),
                None => None,
            },
            match program {
                Some(p) => Some(p@),
                None => None,
            },
            vars_model(vars@),
        ),
{
    let mut text = String::new();
    push_str(&mut text, "公文助手崩溃日志\n");
    push_str(&mut text, "类型：");
    push_str(&mut text, kind);
    push_str(&mut text, "\n");
    push_str(&mut text, "时间：");
    push_str(&mut text, time);
    push_str(&mut text, "\n");
    push_str(&mut text, "版本：");
    push_str(&mut text, version);
    push_str(&mut text, "\n");
    push_str(&mut text, "平台：");
    push_str(&mut text, os);
    push_str(&mut text, " / ");
    push_str(&mut text, arch);
    push_str(&mut text, "\n");
    let ghost head = text@;
    match system {
        Some(name) => {
            push_str(&mut text, "系统：");
            push_str(&mut text, name);
            push_str(&mut text, "\n");
        },
        None => {},
    }
    let ghost with_system = text@;
    match program {
        Some(path) => {
            push_str(&mut text, "程序：");
            push_str(&mut text, path);
            push_str(&mut text, "\n");
        },
        None => {},
    }
    let ghost before_vars = text@;
    let ghost vm = vars_model(vars@);
    let mut k: usize = 0;
    while k < vars.len()
        invariant
            k <= vars.len(),
            vm == vars_model(vars@),
            text@ == before_vars + env_lines(vm.take(k as int)),
        decreases vars.len() - k,
    {
        assert(vm.take(k + 1).drop_last() =~= vm.take(k as int));
        assert(vm.take(k + 1).last() == (vars@[k as int].0@, vars@[k as int].1@));
        push_str(&mut text, vars[k].0.as_str());
        push_str(&mut text, "=");
        push_str(&mut text, vars[k].1.as_str());
        push_str(&mut text, "\n");
        k += 1;
    }
    assert(vm.take(vars.len() as int) =~= vm);
    push_str(&mut text, "\n");
    push_str(&mut text, detail);
    push_str(&mut text, "\n");
    text
}

/// `s` without its leading and trailing double quotes.
pub open spec fn unquoted(s: Seq<char>) -> Seq<char>
    decreases s.len(),
{
    if s.len() > 0 && s[0] == '"' {
        unquoted(s.drop_first())
    } else if s.len() > 0 && s.last() == '"' {
        unquoted(s.drop_last())
    } else {
        s
    }
}

/// The `PRETTY_NAME` of an os-release file: the first line that starts with
/// `PRETTY_NAME=`, its value without the quotes around it.
pub open spec fn pretty_name_of(lines: Seq<Seq<char>>) -> Option<Seq<char>>
    decreases lines.len(),
{
    if lines.len() == 0 {
        None
    } else if starts_with(lines[0], "PRETTY_NAME="@) {
        Some(unquoted(lines[0].skip(12)))
    } else {
        pretty_name_of(lines.drop_first())
    }
}

/// The system's name from the text of `/etc/os-release`.
pub fn pretty_name(os_release: &str) -> (r: Option<String>)
    ensures
        match r {
            Some(name) => pretty_name_of(crate::text::str_lines(os_release@)) == Some(name@),
            None => pretty_name_of(crate::text::str_lines(os_release@)) is None,
        },
{
    proof {
        reveal_strlit("PRETTY_NAME=");
    }
    let v = chars_of(os_release);
    let lines = crate::text::lines_of(&v);
    let ghost ls = lines.deep_view();
    let key = ['P', 'R', 'E', 'T', 'T', 'Y', '_', 'N', 'A', 'M', 'E', '='];
    assert(key@ =~= "PRETTY_NAME="@);
    let mut k: usize = 0;
    assert(ls.skip(0) =~= ls);
    while k < lines.len()
        invariant
            k <= lines.len(),
            ls == lines.deep_view(),
            ls == crate::text::str_lines(os_release@),
            key@ =~= "PRETTY_NAME="@,
            pretty_name_of(ls) == pretty_name_of(ls.skip(k as int)),
        decreases lines.len() - k,
    {
        let line = &lines[k];
        let n = line.len();
        assert(ls[k as int] == line@);
        assert(line@.subrange(0, n as int) =~= line@);
        assert(ls.skip(k as int)[0] == ls[k as int]);
        if crate::text::has_prefix_at(line, 0, n, &key) {
            let mut a: usize = 12;
            let mut b: usize = n;
            assert(line@.subrange(a as int, b as int) =~= line@.skip(12));
            while a < b && (line[a] == '"' || line[b - 1] == '"')
                invariant
                    12 <= a <= b <= n == line.len(),
                    unquoted(line@.subrange(a as int, b as int)) == unquoted(line@.skip(12)),
                decreases b - a,
            {
                let ghost sub = line@.subrange(a as int, b as int);
                if line[a] == '"' {
                    assert(sub.drop_first() =~= line@.subrange(a + 1, b as int));
                    a += 1;
                } else {
                    assert(sub.drop_last() =~= line@.subrange(a as int, b - 1));
                    b -= 1;
                }
            }
            proof {
                let sub = line@.subrange(a as int, b as int);
                if a < b {
                    assert(sub[0] == line@[a as int]);
                    assert(sub.last() == line@[b - 1]);
                }
                assert(unquoted(sub) == sub);
            }
            return Some(string_of_range(line, a, b));
        }
        assert(ls.skip(k as int).drop_first() =~= ls.skip(k + 1));
        k += 1;
    }
    None
}

} // verus!
