//! Importing text from existing documents: which files are read as they
//! are and which go through the converter, tidying the Markdown a converter
//! gives back, and the frontmatter of a research report folder.
//!
//! Reading files and calling the converter happen at the edge; what is
//! decided about the text is here.

use crate::models::ResearchMetadata;
use crate::table::no_sep;
use crate::text::{
    lemma_split_nl_nonempty, split_nl, strip_cr,
    chars_of, copy_range, is_ws, join_strings, join_text, lines_of, str_lines, string_of, string_of_range,
    strings_model, trim, trim_bounds, trim_end,
};
use vstd::prelude::*;

verus! {

// ---------------------------------------------------------------------------
// Supported formats.

/// Labels of the groups of the file dialog, in order.
pub open spec fn filter_labels() -> Seq<Seq<char>> {
    seq![
        "Word 文档"@,
        "Excel 工作簿"@,
        "PowerPoint 演示文稿"@,
        "OpenDocument"@,
        "RTF / EPUB / CSV"@,
        "纯文本 / Markdown"@,
    ]
}

/// The supported formats as the interface lists them.
pub fn supported_summary() -> (r: String)
    ensures
        r@ == join_text(filter_labels(), "、"@),
{
    let labels: Vec<String> = vec![
        "Word 文档".to_owned(),
        "Excel 工作簿".to_owned(),
        "PowerPoint 演示文稿".to_owned(),
        "OpenDocument".to_owned(),
        "RTF / EPUB / CSV".to_owned(),
        "纯文本 / Markdown".to_owned(),
    ];
    assert(strings_model(labels@) =~= filter_labels());
    join_strings(&labels, "、")
}

/// How a file with a given (lower-case) extension is brought in.
#[derive(Debug, Clone, Copy, PartialEq, Eq, Structural)]
pub enum ImportSource {
    /// PDF keeps layout, not structure: refused with the reason.
    Pdf,
    /// Already text: read as UTF-8.
    Plain,
    /// Converted to Markdown.
    Converted,
    /// Not supported.
    Unsupported,
}

/// Extensions read as they are.
pub open spec fn plain_extensions() -> Seq<Seq<char>> {
    seq!["md"@, "markdown"@, "txt"@]
}

/// Extensions that go through the converter.
pub open spec fn converted_extensions() -> Seq<Seq<char>> {
    seq![
        "docx"@, "doc"@, "docm"@, "xlsx"@, "xls"@, "xlsm"@, "xlsb"@, "pptx"@, "ppt"@, "pptm"@, "ppsx"@,
        "ppsm"@, "pps"@, "pot"@, "odt"@, "ods"@, "odp"@, "rtf"@, "epub"@, "csv"@,
    ]
}

pub open spec fn import_source_of(ext: Seq<char>) -> ImportSource {
    if ext == "pdf"@ {
        ImportSource::Pdf
    } else if plain_extensions().contains(ext) {
        ImportSource::Plain
    } else if converted_extensions().contains(ext) {
        ImportSource::Converted
    } else {
        ImportSource::Unsupported
    }
}

pub(crate) fn str_eq(a: &str, b: &str) -> (r: bool)
    ensures
        r == (a@ == b@),
{
    let x = chars_of(a);
    let y = chars_of(b);
    crate::lcs::chars_eq(&x, &y)
}

fn among(ext: &str, list: &Vec<&str>) -> (r: bool)
    ensures
        r == exists|k: int| 0 <= k < list.len() && list@[k]@ == ext@,
{
    let mut k: usize = 0;
    while k < list.len()
        invariant
            k <= list.len(),
            forall|t: int| 0 <= t < k ==> list@[t]@ != ext@,
        decreases list.len() - k,
    {
        if str_eq(list[k], ext) {
            return true;
        }
        k += 1;
    }
    false
}

/// How a file with extension `extension` (already in lower case) is
/// imported.
pub fn import_source(extension: &str) -> (r: ImportSource)
    ensures
        r == import_source_of(extension@),
{
    if str_eq(extension, "pdf") {
        return ImportSource::Pdf;
    }
    let plain: Vec<&str> = vec!["md", "markdown", "txt"];
    let converted: Vec<&str> = vec![
        "docx", "doc", "docm", "xlsx", "xls", "xlsm", "xlsb", "pptx", "ppt", "pptm", "ppsx", "ppsm",
        "pps", "pot", "odt", "ods", "odp", "rtf", "epub", "csv",
    ];
    proof {
        assert(plain@.map_values(|s: &str| s@) =~= plain_extensions());
        assert(converted@.map_values(|s: &str| s@) =~= converted_extensions());
        if plain_extensions().contains(extension@) {
            let k = choose|k: int| 0 <= k < plain_extensions().len() && plain_extensions()[k] == extension@;
            assert(plain@.map_values(|s: &str| s@)[k] == plain@[k]@);
        }
        if converted_extensions().contains(extension@) {
            let k = choose|k: int| 0 <= k < converted_extensions().len() && converted_extensions()[k] == extension@;
            assert(converted@.map_values(|s: &str| s@)[k] == converted@[k]@);
        }
    }
    if among(extension, &plain) {
        proof {
            let k = choose|k: int| 0 <= k < plain.len() && plain@[k]@ == extension@;
            assert(plain@.map_values(|s: &str| s@)[k] == plain@[k]@);
        }
        return ImportSource::Plain;
    }
    if among(extension, &converted) {
        proof {
            let k = choose|k: int| 0 <= k < converted.len() && converted@[k]@ == extension@;
            assert(converted@.map_values(|s: &str| s@)[k] == converted@[k]@);
        }
        return ImportSource::Converted;
    }
    ImportSource::Unsupported
}

// ---------------------------------------------------------------------------
// Tidying converted text.

/// `s` with every `"\r\n"`, then every remaining `'\r'`, turned into `'\n'`.
pub open spec fn unify_newlines(s: Seq<char>) -> Seq<char>
    decreases s.len(),
{
    if s.len() == 0 {
        seq![]
    } else if s[0] == '\r' && s.len() >= 2 && s[1] == '\n' {
        seq!['\n'] + unify_newlines(s.skip(2))
    } else if s[0] == '\r' {
        seq!['\n'] + unify_newlines(s.skip(1))
    } else {
        seq![s[0]] + unify_newlines(s.skip(1))
    }
}

/// The first `k` lines with trailing whitespace taken off, a blank line
/// dropped when the line kept before it is blank too.
pub open spec fn collapse_blank_lines(ls: Seq<Seq<char>>, k: int) -> Seq<Seq<char>>
    decreases k,
{
    if k <= 0 {
        seq![]
    } else {
        let prev = collapse_blank_lines(ls, k - 1);
        let t = trim_end(ls[k - 1]);
        if t.len() == 0 && prev.len() > 0 && prev.last().len() == 0 {
            prev
        } else {
            prev.push(t)
        }
    }
}

/// Converted text tidied: line breaks unified, trailing spaces gone, runs of
/// blank lines made one, and no blank space at either end.
pub open spec fn normalized(s: Seq<char>) -> Seq<char> {
    let ls = str_lines(unify_newlines(s));
    trim(join_text(collapse_blank_lines(ls, ls.len() as int), "\n"@))
}

fn unify(v: &Vec<char>) -> (r: Vec<char>)
    ensures
        r@ == unify_newlines(v@),
{
    let mut out: Vec<char> = Vec::new();
    let mut i: usize = 0;
    assert(v@.skip(0) =~= v@);
    assert(out@ + unify_newlines(v@) =~= unify_newlines(v@));
    while i < v.len()
        invariant
            i <= v.len(),
            out@ + unify_newlines(v@.skip(i as int)) == unify_newlines(v@),
        decreases v.len() - i,
    {
        let ghost rest = v@.skip(i as int);
        let ghost before = out@;
        if v[i] == '\r' {
            out.push('\n');
            if i + 1 < v.len() && v[i + 1] == '\n' {
                assert(rest.skip(2) =~= v@.skip(i + 2));
                i += 2;
            } else {
                assert(rest.skip(1) =~= v@.skip(i + 1));
                i += 1;
            }
        } else {
            out.push(v[i]);
            assert(rest.skip(1) =~= v@.skip(i + 1));
            i += 1;
        }
        assert(out@ + unify_newlines(v@.skip(i as int)) =~= before + unify_newlines(rest));
    }
    assert(v@.skip(v.len() as int) =~= Seq::<char>::empty());
    assert(out@ + Seq::<char>::empty() =~= out@);
    out
}

/// The bound of `v[..hi]` with its trailing whitespace left out.
fn trim_end_at(v: &Vec<char>) -> (r: usize)
    ensures
        r <= v.len(),
        v@.subrange(0, r as int) == trim_end(v@),
{
    let mut h = v.len();
    assert(v@.subrange(0, h as int) =~= v@);
    while h > 0 && crate::text::is_whitespace(v[h - 1])
        invariant
            h <= v.len(),
            trim_end(v@.subrange(0, h as int)) == trim_end(v@),
        decreases h,
    {
        assert(v@.subrange(0, h as int).drop_last() =~= v@.subrange(0, h - 1));
        h -= 1;
    }
    h
}

/// Tidy converted Markdown: unify line breaks, drop trailing spaces, merge
/// runs of blank lines, trim both ends.
pub fn normalize(markdown: &str) -> (r: String)
    ensures
        r@ == normalized(markdown@),
{
    let v = chars_of(markdown);
    let u = unify(&v);
    let ls = lines_of(&u);
    let ghost lm = ls.deep_view();
    let mut kept: Vec<String> = Vec::new();
    let mut k: usize = 0;
    while k < ls.len()
        invariant
            k <= ls.len(),
            lm == ls.deep_view(),
            strings_model(kept@) == collapse_blank_lines(lm, k as int),
        decreases ls.len() - k,
    {
        let h = trim_end_at(&ls[k]);
        proof {
            assert(lm[k as int] == ls@[k as int]@);
        }
        let blank_run = h == 0 && kept.len() > 0 && kept[kept.len() - 1].as_str().is_empty();
        proof {
            if kept.len() > 0 {
                assert(strings_model(kept@).last() == kept@[kept.len() - 1]@);
            }
        }
        if !blank_run {
            let ghost before = kept@;
            kept.push(string_of_range(&ls[k], 0, h));
            assert(strings_model(kept@) =~= strings_model(before).push(trim_end(lm[k as int])));
        }
        k += 1;
    }
    let joined = join_strings(&kept, "\n");
    let jc = chars_of(joined.as_str());
    let (a, b) = trim_bounds(&jc, 0, jc.len());
    assert(jc@.subrange(0, jc.len() as int) =~= jc@);
    string_of_range(&jc, a, b)
}


// ---------------------------------------------------------------------------
// Frontmatter of a research report.

/// Position of the first `':'` or `'：'` of `s` at or after `i`, or -1.
pub open spec fn colon_from(s: Seq<char>, i: int) -> int
    decreases s.len() - i,
{
    if i < 0 || i >= s.len() {
        -1
    } else if s[i] == ':' || s[i] == '：' {
        i
    } else {
        colon_from(s, i + 1)
    }
}

/// A frontmatter key: something besides whitespace, and none of the
/// characters that mark Markdown (`## 标题: 副题` is no key).
pub open spec fn frontmatter_key(key: Seq<char>) -> bool {
    &&& trim(key).len() > 0
    &&& !key.contains(' ')
    &&& !key.contains('#')
    &&& !key.contains('*')
    &&& !key.contains('-')
    &&& !key.contains('>')
}

/// Whether the lines from `i` on reach a closing `---` passing only
/// `key: value` lines and blank lines.
pub open spec fn fence_closes(ls: Seq<Seq<char>>, i: int) -> bool
    decreases ls.len() - i,
{
    if i < 0 || i >= ls.len() {
        false
    } else {
        let t = trim(ls[i]);
        if t == "---"@ {
            true
        } else if t.len() == 0 {
            fence_closes(ls, i + 1)
        } else {
            let c = colon_from(t, 0);
            if c < 0 || !frontmatter_key(t.take(c)) {
                false
            } else {
                fence_closes(ls, i + 1)
            }
        }
    }
}

/// Whether a Markdown text begins with a frontmatter: a `---` line, then
/// only `key: value` and blank lines up to another `---`.
pub open spec fn begins_with_frontmatter(s: Seq<char>) -> bool {
    let ls = str_lines(s);
    ls.len() > 0 && trim(ls[0]) == "---"@ && fence_closes(ls, 1)
}

fn trimmed_bounds(v: &Vec<char>) -> (r: (usize, usize))
    ensures
        r.0 <= r.1 <= v.len(),
        v@.subrange(r.0 as int, r.1 as int) == trim(v@),
{
    let r = trim_bounds(v, 0, v.len());
    assert(v@.subrange(0, v.len() as int) =~= v@);
    r
}

fn find_colon(v: &Vec<char>, lo: usize, hi: usize) -> (r: Option<usize>)
    requires
        lo <= hi <= v.len(),
    ensures
        match r {
            Some(c) => lo <= c < hi && colon_from(v@.subrange(lo as int, hi as int), 0) == c - lo,
            None => colon_from(v@.subrange(lo as int, hi as int), 0) == -1,
        },
{
    let ghost t = v@.subrange(lo as int, hi as int);
    let mut k = lo;
    while k < hi
        invariant
            lo <= k <= hi <= v.len(),
            t == v@.subrange(lo as int, hi as int),
            colon_from(t, (k - lo) as int) == colon_from(t, 0),
        decreases hi - k,
    {
        assert(t[k - lo] == v@[k as int]);
        if v[k] == ':' || v[k] == '：' {
            return Some(k);
        }
        k += 1;
    }
    None
}

fn has_char(v: &Vec<char>, lo: usize, hi: usize, c: char) -> (r: bool)
    requires
        lo <= hi <= v.len(),
    ensures
        r == v@.subrange(lo as int, hi as int).contains(c),
{
    let mut k = lo;
    while k < hi
        invariant
            lo <= k <= hi <= v.len(),
            forall|t: int| lo <= t < k ==> v@[t] != c,
        decreases hi - k,
    {
        if v[k] == c {
            assert(v@.subrange(lo as int, hi as int)[k - lo] == c);
            return true;
        }
        k += 1;
    }
    proof {
        if v@.subrange(lo as int, hi as int).contains(c) {
            let t = choose|t: int| 0 <= t < hi - lo && v@.subrange(lo as int, hi as int)[t] == c;
            assert(v@[lo + t] == c);
        }
    }
    false
}

/// Whether a Markdown text begins with a frontmatter. A `---` line alone is
/// not enough (a chapter may open with a rule): every line up to the
/// closing `---` has to be `key: value` or blank.
pub fn starts_with_frontmatter(content: &str) -> (r: bool)
    ensures
        r == begins_with_frontmatter(content@),
{
    let v = chars_of(content);
    let ls = lines_of(&v);
    let ghost lm = ls.deep_view();
    if ls.len() == 0 {
        return false;
    }
    let (a, b) = trimmed_bounds(&ls[0]);
    let first = copy_range(&ls[0], a, b);
    proof {
        assert(lm[0] == ls@[0]@);
    }
    if !is_fence(&first) {
        return false;
    }
    assert(v@ == content@);
    let mut i: usize = 1;
    while i < ls.len()
        invariant
            1 <= i <= ls.len(),
            lm == ls.deep_view(),
            lm == str_lines(content@),
            trim(lm[0]) == "---"@,
            fence_closes(lm, i as int) == fence_closes(lm, 1),
        decreases ls.len() - i,
    {
        let line = &ls[i];
        proof {
            assert(lm[i as int] == line@);
        }
        let (a, b) = trimmed_bounds(line);
        let t = copy_range(line, a, b);
        if is_fence(&t) {
            return true;
        }
        if t.len() == 0 {
            i += 1;
            continue;
        }
        match find_colon(&t, 0, t.len()) {
            None => {
                assert(t@.subrange(0, t.len() as int) =~= t@);
                return false;
            },
            Some(c) => {
                assert(t@.subrange(0, t.len() as int) =~= t@);
                let (ka, kb) = trim_bounds(&t, 0, c);
                assert(t@.subrange(0, c as int) =~= t@.take(c as int));
                if ka == kb || has_char(&t, 0, c, ' ') || has_char(&t, 0, c, '#') || has_char(&t, 0, c, '*')
                    || has_char(&t, 0, c, '-') || has_char(&t, 0, c, '>') {
                    return false;
                }
            },
        }
        i += 1;
    }
    false
}

/// Whether `v` is `---`.
fn is_fence(v: &Vec<char>) -> (r: bool)
    ensures
        r == (v@ == "---"@),
{
    proof {
        reveal_strlit("---");
    }
    let r = v.len() == 3 && v[0] == '-' && v[1] == '-' && v[2] == '-';
    proof {
        if v.len() == 3 && v@[0] == '-' && v@[1] == '-' && v@[2] == '-' {
            assert(v@ =~= "---"@);
        }
    }
    r
}

/// Which element a frontmatter key sets.
#[derive(Debug, Clone, Copy, PartialEq, Eq, Structural)]
pub enum FrontKey {
    Security,
    Years,
    FileType,
    FileNumber,
    Version,
    Institution,
    Date,
    Ident,
    Byline,
    Original,
    Title,
    Bibliography,
    Other,
}

pub open spec fn front_key(k: Seq<char>) -> FrontKey {
    if seq!["密级"@, "security"@].contains(k) {
        FrontKey::Security
    } else if seq!["年限"@, "保密年限"@, "保密期限"@, "years"@].contains(k) {
        FrontKey::Years
    } else if seq!["文件类型"@, "类型"@, "doctype"@].contains(k) {
        FrontKey::FileType
    } else if seq!["文件编号"@, "编号"@, "number"@].contains(k) {
        FrontKey::FileNumber
    } else if seq!["文件版本号"@, "版本"@, "version"@].contains(k) {
        FrontKey::Version
    } else if seq!["撰写单位"@, "单位"@, "institution"@].contains(k) {
        FrontKey::Institution
    } else if seq!["撰写时间"@, "时间"@, "日期"@, "date"@].contains(k) {
        FrontKey::Date
    } else if seq!["标识行"@, "期号"@, "项目编号"@, "课题编号"@, "原文出处"@, "ident"@].contains(k) {
        FrontKey::Ident
    } else if seq!["署名"@, "署名行"@, "课题组"@, "byline"@].contains(k) {
        FrontKey::Byline
    } else if seq!["外文原题"@, "原文题名"@, "original"@].contains(k) {
        FrontKey::Original
    } else if seq!["文件名称"@, "标题"@, "title"@].contains(k) {
        FrontKey::Title
    } else if seq!["bibliography"@].contains(k) {
        FrontKey::Bibliography
    } else {
        FrontKey::Other
    }
}

fn key_in(k: &Vec<char>, names: Vec<&str>) -> (r: bool)
    ensures
        r == names@.map_values(|s: &str| s@).contains(k@),
{
    let mut i: usize = 0;
    while i < names.len()
        invariant
            i <= names.len(),
            forall|t: int| 0 <= t < i ==> names@[t]@ != k@,
        decreases names.len() - i,
    {
        let n = chars_of(names[i]);
        if crate::lcs::chars_eq(&n, k) {
            assert(names@.map_values(|s: &str| s@)[i as int] == names@[i as int]@);
            return true;
        }
        i += 1;
    }
    proof {
        let m = names@.map_values(|s: &str| s@);
        if m.contains(k@) {
            let t = choose|t: int| 0 <= t < m.len() && #[trigger] m[t] == k@;
            assert(m[t] == names@[t]@);
        }
    }
    false
}

fn front_key_of(k: &Vec<char>) -> (r: FrontKey)
    ensures
        r == front_key(k@),
{
    let names = vec!["密级", "security"];
    assert(names@.map_values(|s: &str| s@) =~= seq!["密级"@, "security"@]);
    if key_in(k, names) {
        return FrontKey::Security;
    }
    let names = vec!["年限", "保密年限", "保密期限", "years"];
    assert(names@.map_values(|s: &str| s@) =~= seq!["年限"@, "保密年限"@, "保密期限"@, "years"@]);
    if key_in(k, names) {
        return FrontKey::Years;
    }
    let names = vec!["文件类型", "类型", "doctype"];
    assert(names@.map_values(|s: &str| s@) =~= seq!["文件类型"@, "类型"@, "doctype"@]);
    if key_in(k, names) {
        return FrontKey::FileType;
    }
    let names = vec!["文件编号", "编号", "number"];
    assert(names@.map_values(|s: &str| s@) =~= seq!["文件编号"@, "编号"@, "number"@]);
    if key_in(k, names) {
        return FrontKey::FileNumber;
    }
    let names = vec!["文件版本号", "版本", "version"];
    assert(names@.map_values(|s: &str| s@) =~= seq!["文件版本号"@, "版本"@, "version"@]);
    if key_in(k, names) {
        return FrontKey::Version;
    }
    let names = vec!["撰写单位", "单位", "institution"];
    assert(names@.map_values(|s: &str| s@) =~= seq!["撰写单位"@, "单位"@, "institution"@]);
    if key_in(k, names) {
        return FrontKey::Institution;
    }
    let names = vec!["撰写时间", "时间", "日期", "date"];
    assert(names@.map_values(|s: &str| s@) =~= seq!["撰写时间"@, "时间"@, "日期"@, "date"@]);
    if key_in(k, names) {
        return FrontKey::Date;
    }
    let names = vec!["标识行", "期号", "项目编号", "课题编号", "原文出处", "ident"];
    assert(names@.map_values(|s: &str| s@) =~= seq!["标识行"@, "期号"@, "项目编号"@, "课题编号"@, "原文出处"@, "ident"@]);
    if key_in(k, names) {
        return FrontKey::Ident;
    }
    let names = vec!["署名", "署名行", "课题组", "byline"];
    assert(names@.map_values(|s: &str| s@) =~= seq!["署名"@, "署名行"@, "课题组"@, "byline"@]);
    if key_in(k, names) {
        return FrontKey::Byline;
    }
    let names = vec!["外文原题", "原文题名", "original"];
    assert(names@.map_values(|s: &str| s@) =~= seq!["外文原题"@, "原文题名"@, "original"@]);
    if key_in(k, names) {
        return FrontKey::Original;
    }
    let names = vec!["文件名称", "标题", "title"];
    assert(names@.map_values(|s: &str| s@) =~= seq!["文件名称"@, "标题"@, "title"@]);
    if key_in(k, names) {
        return FrontKey::Title;
    }
    let names = vec!["bibliography"];
    assert(names@.map_values(|s: &str| s@) =~= seq!["bibliography"@]);
    if key_in(k, names) {
        return FrontKey::Bibliography;
    }
    FrontKey::Other
}

pub struct MetaModel {
    pub security: Seq<char>,
    pub security_years: Seq<char>,
    pub file_type: Seq<char>,
    pub file_number: Seq<char>,
    pub version: Seq<char>,
    pub institution: Seq<char>,
    pub date: Seq<char>,
    pub ident: Seq<char>,
    pub byline: Seq<char>,
    pub original_title: Seq<char>,
    pub bibliography_name: Seq<char>,
    pub bibliography_content: Seq<char>,
}

pub open spec fn meta_model(m: ResearchMetadata) -> MetaModel {
    MetaModel {
        security: m.security@,
        security_years: m.security_years@,
        file_type: m.file_type@,
        file_number: m.file_number@,
        version: m.version@,
        institution: m.institution@,
        date: m.date@,
        ident: m.ident@,
        byline: m.byline@,
        original_title: m.original_title@,
        bibliography_name: m.bibliography_name@,
        bibliography_content: m.bibliography_content@,
    }
}

pub open spec fn empty_meta() -> MetaModel {
    MetaModel {
        security: seq![],
        security_years: seq![],
        file_type: seq![],
        file_number: seq![],
        version: seq![],
        institution: seq![],
        date: seq![],
        ident: seq![],
        byline: seq![],
        original_title: seq![],
        bibliography_name: seq![],
        bibliography_content: seq![],
    }
}

/// What a frontmatter has set so far: the elements, the title and the
/// bibliography file.
pub struct FrontModel {
    pub meta: MetaModel,
    pub title: Option<Seq<char>>,
    pub bib: Option<Seq<char>>,
}

pub open spec fn front_apply(st: FrontModel, key: FrontKey, value: Seq<char>) -> FrontModel {
    match key {
        FrontKey::Security => FrontModel { meta: MetaModel { security: value, ..st.meta }, ..st },
        FrontKey::Years => FrontModel { meta: MetaModel { security_years: value, ..st.meta }, ..st },
        FrontKey::FileType => FrontModel { meta: MetaModel { file_type: value, ..st.meta }, ..st },
        FrontKey::FileNumber => FrontModel { meta: MetaModel { file_number: value, ..st.meta }, ..st },
        FrontKey::Version => FrontModel { meta: MetaModel { version: value, ..st.meta }, ..st },
        FrontKey::Institution => FrontModel { meta: MetaModel { institution: value, ..st.meta }, ..st },
        FrontKey::Date => FrontModel { meta: MetaModel { date: value, ..st.meta }, ..st },
        FrontKey::Ident => FrontModel { meta: MetaModel { ident: value, ..st.meta }, ..st },
        FrontKey::Byline => FrontModel { meta: MetaModel { byline: value, ..st.meta }, ..st },
        FrontKey::Original => FrontModel { meta: MetaModel { original_title: value, ..st.meta }, ..st },
        FrontKey::Title => FrontModel { title: Some(value), ..st },
        FrontKey::Bibliography => FrontModel { bib: Some(value), ..st },
        FrontKey::Other => st,
    }
}

/// One frontmatter line: `key: value` with a non-empty value sets what the
/// key names; anything else changes nothing.
pub open spec fn front_step(st: FrontModel, line: Seq<char>) -> FrontModel {
    let t = trim(line);
    let c = colon_from(t, 0);
    if c < 0 {
        st
    } else {
        let value = trim(t.skip(c + 1));
        if value.len() == 0 {
            st
        } else {
            front_apply(st, front_key(trim(t.take(c))), value)
        }
    }
}

/// The frontmatter lines `1..k` read in order.
pub open spec fn front_fold(ls: Seq<Seq<char>>, k: int) -> FrontModel
    decreases k,
{
    if k <= 1 {
        FrontModel { meta: empty_meta(), title: None, bib: None }
    } else {
        front_step(front_fold(ls, k - 1), ls[k - 1])
    }
}

/// The first line at or after `i` that is `---`, or -1.
pub open spec fn closing_fence(ls: Seq<Seq<char>>, i: int) -> int
    decreases ls.len() - i,
{
    if i < 0 || i >= ls.len() {
        -1
    } else if trim(ls[i]) == "---"@ {
        i
    } else {
        closing_fence(ls, i + 1)
    }
}

/// A research report split into its frontmatter elements, title,
/// bibliography file and body. Without a frontmatter closed by `---` the
/// whole text is the body.
pub open spec fn research_front(s: Seq<char>) -> (MetaModel, Option<Seq<char>>, Option<Seq<char>>, Seq<char>) {
    let ls = str_lines(s);
    if ls.len() == 0 || trim(ls[0]) != "---"@ || closing_fence(ls, 1) < 0 {
        (empty_meta(), None, None, s)
    } else {
        let j = closing_fence(ls, 1);
        let st = front_fold(ls, j);
        (st.meta, st.title, st.bib, join_text(ls.skip(j + 1), "\n"@))
    }
}


pub open spec fn opt_text(o: Option<String>) -> Option<Seq<char>> {
    match o {
        Some(s) => Some(s@),
        None => None,
    }
}

pub open spec fn front_of(meta: ResearchMetadata, title: Option<String>, bib: Option<String>) -> FrontModel {
    FrontModel { meta: meta_model(meta), title: opt_text(title), bib: opt_text(bib) }
}

fn apply_front(
    meta: &mut ResearchMetadata,
    title: &mut Option<String>,
    bib: &mut Option<String>,
    key: FrontKey,
    value: String,
)
    ensures
        front_of(*final(meta), *final(title), *final(bib)) == front_apply(front_of(*old(meta), *old(title), *old(bib)), key, value@),
{
    match key {
        FrontKey::Security => meta.security = value,
        FrontKey::Years => meta.security_years = value,
        FrontKey::FileType => meta.file_type = value,
        FrontKey::FileNumber => meta.file_number = value,
        FrontKey::Version => meta.version = value,
        FrontKey::Institution => meta.institution = value,
        FrontKey::Date => meta.date = value,
        FrontKey::Ident => meta.ident = value,
        FrontKey::Byline => meta.byline = value,
        FrontKey::Original => meta.original_title = value,
        FrontKey::Title => *title = Some(value),
        FrontKey::Bibliography => *bib = Some(value),
        FrontKey::Other => {},
    }
}

/// Split a research report into the elements of its frontmatter, the title
/// and the bibliography file it names, and the body after it. Without a
/// frontmatter closed by `---`, the elements stay empty and the whole text
/// is the body.
pub fn parse_research_frontmatter(content: &str) -> (r: (ResearchMetadata, Option<String>, Option<String>, String))
    ensures
        (meta_model(r.0), opt_text(r.1), opt_text(r.2), r.3@) == research_front(content@),
{
    let v = chars_of(content);
    let ls = lines_of(&v);
    let ghost lm = ls.deep_view();
    if ls.len() == 0 {
        return (ResearchMetadata::default(), None, None, content.to_owned());
    }
    let (a, b) = trimmed_bounds(&ls[0]);
    let first = copy_range(&ls[0], a, b);
    proof {
        assert(lm[0] == ls@[0]@);
    }
    if !is_fence(&first) {
        return (ResearchMetadata::default(), None, None, content.to_owned());
    }
    let mut meta = ResearchMetadata::default();
    let mut title: Option<String> = None;
    let mut bib: Option<String> = None;
    let mut i: usize = 1;
    let mut closed = false;
    assert(front_of(meta, title, bib) == front_fold(lm, 1));
    while i < ls.len()
        invariant_except_break
            1 <= i <= ls.len(),
            lm == ls.deep_view(),
            lm == str_lines(content@),
            !closed,
            closing_fence(lm, i as int) == closing_fence(lm, 1),
            front_of(meta, title, bib) == front_fold(lm, i as int),
        ensures
            1 <= i <= ls.len(),
            lm == ls.deep_view(),
            lm == str_lines(content@),
            closed ==> i < ls.len() && closing_fence(lm, 1) == i,
            !closed ==> closing_fence(lm, 1) == -1,
            front_of(meta, title, bib) == front_fold(lm, i as int),
        decreases ls.len() - i,
    {
        let line = &ls[i];
        proof {
            assert(lm[i as int] == line@);
        }
        let (a, b) = trimmed_bounds(line);
        let t = copy_range(line, a, b);
        if is_fence(&t) {
            closed = true;
            break;
        }
        let ghost before = front_of(meta, title, bib);
        match find_colon(&t, 0, t.len()) {
            None => {
                assert(t@.subrange(0, t.len() as int) =~= t@);
            },
            Some(c) => {
                assert(t@.subrange(0, t.len() as int) =~= t@);
                let (va, vb) = trim_bounds(&t, c + 1, t.len());
                assert(t@.subrange(c + 1, t.len() as int) =~= t@.skip(c + 1));
                if va < vb {
                    let (ka, kb) = trim_bounds(&t, 0, c);
                    assert(t@.subrange(0, c as int) =~= t@.take(c as int));
                    let key = copy_range(&t, ka, kb);
                    let value = string_of_range(&t, va, vb);
                    let k = front_key_of(&key);
                    apply_front(&mut meta, &mut title, &mut bib, k, value);
                }
            },
        }
        assert(front_of(meta, title, bib) == front_step(before, lm[i as int]));
        i += 1;
    }
    if !closed {
        return (ResearchMetadata::default(), None, None, content.to_owned());
    }
    let mut rest: Vec<String> = Vec::new();
    let mut k = i + 1;
    proof {
        assert(strings_model(rest@) =~= lm.subrange(i + 1, k as int));
    }
    while k < ls.len()
        invariant
            i + 1 <= k <= ls.len(),
            lm == ls.deep_view(),
            strings_model(rest@) == lm.subrange(i + 1, k as int),
        decreases ls.len() - k,
    {
        let ghost before = rest@;
        rest.push(string_of(&ls[k]));
        proof {
            assert(lm[k as int] == ls@[k as int]@);
            assert(strings_model(rest@) =~= strings_model(before).push(lm[k as int]));
            assert(lm.subrange(i + 1, k + 1) =~= lm.subrange(i + 1, k as int).push(lm[k as int]));
        }
        k += 1;
    }
    assert(lm.subrange(i + 1, ls.len() as int) =~= lm.skip(i + 1));
    let body = join_strings(&rest, "\n");
    (meta, title, bib, body)
}


/// The first line at or after `i` that opens with `"# "`, or -1.
pub open spec fn first_h1_line(ls: Seq<Seq<char>>, i: int) -> int
    decreases ls.len() - i,
{
    if i < 0 || i >= ls.len() {
        -1
    } else if crate::text::starts_with(ls[i], "# "@) {
        i
    } else {
        first_h1_line(ls, i + 1)
    }
}

/// The text without its first level-one heading line, trimmed.
pub open spec fn without_first_h1(s: Seq<char>) -> Seq<char> {
    let ls = str_lines(s);
    let j = first_h1_line(ls, 0);
    let kept = if j < 0 {
        ls
    } else {
        ls.remove(j)
    };
    trim(join_text(kept, "\n"@))
}

/// Drop the first level-one heading line (the title goes on the cover).
pub fn remove_first_h1(content: &str) -> (r: String)
    ensures
        r@ == without_first_h1(content@),
{
    let v = chars_of(content);
    let ls = lines_of(&v);
    let ghost lm = ls.deep_view();
    let mut kept: Vec<String> = Vec::new();
    let mut removed = false;
    let mut k: usize = 0;
    proof {
        reveal_strlit("# ");
    }
    while k < ls.len()
        invariant
            k <= ls.len(),
            lm == ls.deep_view(),
            removed ==> first_h1_line(lm, 0) >= 0 && first_h1_line(lm, 0) < k
                && strings_model(kept@) == lm.take(k as int).remove(first_h1_line(lm, 0)),
            !removed ==> first_h1_line(lm, 0) == first_h1_line(lm, k as int) && strings_model(kept@) == lm.take(k as int),
        decreases ls.len() - k,
    {
        let line = &ls[k];
        proof {
            assert(lm[k as int] == line@);
        }
        let opens = line.len() >= 2 && line[0] == '#' && line[1] == ' ';
        proof {
            reveal_strlit("# ");
            assert("# "@.len() == 2);
            if line.len() >= 2 {
                if line@[0] == '#' && line@[1] == ' ' {
                    assert(line@.take(2) =~= "# "@);
                } else {
                    assert(line@.take(2)[0] == line@[0] && line@.take(2)[1] == line@[1]);
                }
            }
        }
        let ghost before = kept@;
        if !removed && opens {
            removed = true;
            assert(lm.take(k + 1).remove(k as int) =~= lm.take(k as int));
        } else {
            kept.push(string_of(line));
            proof {
                assert(strings_model(kept@) =~= strings_model(before).push(lm[k as int]));
                if removed {
                    let j = first_h1_line(lm, 0);
                    assert(lm.take(k + 1).remove(j) =~= lm.take(k as int).remove(j).push(lm[k as int]));
                } else {
                    assert(lm.take(k + 1) =~= lm.take(k as int).push(lm[k as int]));
                }
            }
        }
        k += 1;
    }
    assert(lm.take(ls.len() as int) =~= lm);
    let joined = join_strings(&kept, "\n");
    let jc = chars_of(joined.as_str());
    let (a, b) = trimmed_bounds(&jc);
    string_of_range(&jc, a, b)
}


// ---------------------------------------------------------------------------
// Tidying twice.

/// Lines as collapsing leaves them: no trailing whitespace, no line break or
/// carriage return inside, and no blank line right after another.
pub open spec fn collapsed_form(ls: Seq<Seq<char>>) -> bool {
    &&& forall|k: int| 0 <= k < ls.len() ==> trim_end(#[trigger] ls[k]) == ls[k]
    &&& forall|k: int| 0 <= k < ls.len() ==> no_sep(#[trigger] ls[k], '\n') && no_sep(ls[k], '\r')
    &&& forall|k: int| 1 <= k < ls.len() && (#[trigger] ls[k]).len() == 0 ==> ls[k - 1].len() > 0
}

/// Lines as tidying leaves them: collapsed, and neither blank at the start
/// nor at the end.
pub open spec fn normal_form(ls: Seq<Seq<char>>) -> bool {
    &&& collapsed_form(ls)
    &&& ls.len() > 0 ==> ls[0].len() > 0 && !is_ws(ls[0][0]) && ls.last().len() > 0
}

proof fn lemma_unify_no_cr(s: Seq<char>)
    ensures
        no_sep(unify_newlines(s), '\r'),
    decreases s.len(),
{
    if s.len() > 0 {
        let rest = if s[0] == '\r' && s.len() >= 2 && s[1] == '\n' {
            s.skip(2)
        } else {
            s.skip(1)
        };
        lemma_unify_no_cr(rest);
        let head = if s[0] == '\r' { '\n' } else { s[0] };
        let u = unify_newlines(s);
        assert(u == seq![head] + unify_newlines(rest));
        assert forall|j: int| 0 <= j < u.len() implies #[trigger] u[j] != '\r' by {
            if j > 0 {
                assert(u[j] == unify_newlines(rest)[j - 1]);
            }
        }
    }
}

proof fn lemma_unify_plain(s: Seq<char>)
    requires
        no_sep(s, '\r'),
    ensures
        unify_newlines(s) == s,
    decreases s.len(),
{
    if s.len() > 0 {
        assert(no_sep(s.skip(1), '\r')) by {
            assert forall|j: int| 0 <= j < s.skip(1).len() implies #[trigger] s.skip(1)[j] != '\r' by {
                assert(s.skip(1)[j] == s[j + 1]);
            }
        }
        lemma_unify_plain(s.skip(1));
        assert(seq![s[0]] + s.skip(1) =~= s);
    } else {
        assert(unify_newlines(s) =~= s);
    }
}

/// The lines of a text without carriage returns hold neither a line break
/// nor a carriage return.
proof fn lemma_str_lines_plain(u: Seq<char>)
    requires
        no_sep(u, '\r'),
    ensures
        forall|k: int| 0 <= k < str_lines(u).len() ==> no_sep(#[trigger] str_lines(u)[k], '\n') && no_sep(str_lines(u)[k], '\r'),
        forall|k: int| 0 <= k < str_lines(u).len() ==> #[trigger] str_lines(u)[k] == split_nl(u)[k],
{
    let ps = split_nl(u);
    lemma_split_nl_nonempty(u);
    assert forall|k: int| 0 <= k < ps.len() implies no_sep(#[trigger] ps[k], '\n') && no_sep(ps[k], '\r') by {
        crate::markdown::lemma_split_nl_piece_no_newline(u, k);
        crate::hunks::lemma_split_nl_piece(u, k);
        let c = crate::hunks::char_start(ps, k);
        assert forall|j: int| 0 <= j < ps[k].len() implies #[trigger] ps[k][j] != '\r' by {
            assert(ps[k][j] == u.subrange(c, c + ps[k].len())[j]);
        }
    }
    let ls = str_lines(u);
    assert forall|k: int| 0 <= k < ls.len() implies #[trigger] ls[k] == ps[k] by {
        if k < ps.len() - 1 {
            assert(ps[k].len() == 0 || ps[k].last() != '\r');
        }
    }
}

/// What collapsing keeps is in collapsed form.
proof fn lemma_collapse_form(ls: Seq<Seq<char>>, k: int)
    requires
        0 <= k <= ls.len(),
        forall|t: int| 0 <= t < ls.len() ==> no_sep(#[trigger] ls[t], '\n') && no_sep(ls[t], '\r'),
    ensures
        collapsed_form(collapse_blank_lines(ls, k)),
    decreases k,
{
    if k > 0 {
        lemma_collapse_form(ls, k - 1);
        let prev = collapse_blank_lines(ls, k - 1);
        let t = trim_end(ls[k - 1]);
        crate::markdown::lemma_trim_end_idem(ls[k - 1]);
        assert(no_sep(ls[k - 1], '\n') && no_sep(ls[k - 1], '\r'));
        assert(no_sep(t, '\n') && no_sep(t, '\r')) by {
            assert forall|j: int| 0 <= j < t.len() implies #[trigger] t[j] != '\n' && t[j] != '\r' by {
                assert(t[j] == ls[k - 1][j]);
            }
        }
        let res = collapse_blank_lines(ls, k);
        assert forall|j: int| 0 <= j < res.len() implies trim_end(#[trigger] res[j]) == res[j]
            && no_sep(res[j], '\n') && no_sep(res[j], '\r') by {
            if j < prev.len() {
                assert(res[j] == prev[j]);
            }
        }
        assert forall|j: int| 1 <= j < res.len() && (#[trigger] res[j]).len() == 0 implies res[j - 1].len() > 0 by {
            if j < prev.len() {
                assert(res[j] == prev[j] && res[j - 1] == prev[j - 1]);
            }
        }
    }
}

/// Lines already in collapsed form come out of collapsing as they are.
proof fn lemma_collapse_fixed(ls: Seq<Seq<char>>, k: int)
    requires
        0 <= k <= ls.len(),
        collapsed_form(ls),
    ensures
        collapse_blank_lines(ls, k) == ls.take(k),
    decreases k,
{
    if k > 0 {
        lemma_collapse_fixed(ls, k - 1);
        assert(trim_end(ls[k - 1]) == ls[k - 1]);
        if k >= 2 && ls[k - 1].len() == 0 {
            assert(ls[k - 2].len() > 0);
        }
        assert(ls.take(k - 1).push(ls[k - 1]) =~= ls.take(k));
    } else {
        assert(ls.take(0) =~= Seq::<Seq<char>>::empty());
    }
}

/// A join of two or more lines is the first line, the separator, and the
/// join of the others.
proof fn lemma_join_cons(a: Seq<Seq<char>>, sep: Seq<char>)
    requires
        a.len() >= 2,
    ensures
        join_text(a, sep) == a[0] + sep + join_text(a.drop_first(), sep),
    decreases a.len(),
{
    if a.len() > 2 {
        lemma_join_cons(a.drop_last(), sep);
        assert(a.drop_last().drop_first() =~= a.drop_first().drop_last());
        assert(a.drop_first().last() == a.last());
        assert(a.drop_last()[0] == a[0]);
        let j1 = join_text(a.drop_first().drop_last(), sep);
        assert(join_text(a.drop_first(), sep) == j1 + sep + a.last());
        assert(join_text(a.drop_last(), sep) == a[0] + sep + j1);
        assert(join_text(a, sep) == join_text(a.drop_last(), sep) + sep + a.last());
        assert(join_text(a, sep) =~= a[0] + sep + (j1 + sep + a.last()));
    } else {
        assert(a.drop_first() =~= seq![a[1]]);
        assert(a.drop_last() =~= seq![a[0]]);
        assert(join_text(a.drop_last(), sep) == a[0]);
        assert(join_text(a.drop_first(), sep) == a[1]);
    }
}

/// The first and last characters of a join are those of its first and last
/// lines, when these are not empty.
proof fn lemma_join_ends(a: Seq<Seq<char>>, sep: Seq<char>)
    requires
        a.len() > 0,
    ensures
        a[0].len() > 0 ==> join_text(a, sep).len() > 0 && join_text(a, sep)[0] == a[0][0],
        a.last().len() > 0 ==> join_text(a, sep).len() > 0 && join_text(a, sep).last() == a.last().last(),
    decreases a.len(),
{
    if a.len() > 1 {
        lemma_join_ends(a.drop_last(), sep);
        assert(a.drop_last()[0] == a[0]);
    }
}

/// A character that no line holds and the separator does not hold is not
/// in the join either.
proof fn lemma_join_no_sep(a: Seq<Seq<char>>, sep: Seq<char>, c: char)
    requires
        forall|k: int| 0 <= k < a.len() ==> no_sep(#[trigger] a[k], c),
        no_sep(sep, c),
    ensures
        no_sep(join_text(a, sep), c),
    decreases a.len(),
{
    if a.len() > 1 {
        assert forall|k: int| 0 <= k < a.drop_last().len() implies no_sep(#[trigger] a.drop_last()[k], c) by {
            assert(a.drop_last()[k] == a[k]);
        }
        lemma_join_no_sep(a.drop_last(), sep, c);
        let j = join_text(a.drop_last(), sep);
        assert(no_sep(a.last(), c));
        assert forall|i: int| 0 <= i < join_text(a, sep).len() implies #[trigger] join_text(a, sep)[i] != c by {
            assert(join_text(a, sep) == j + sep + a.last());
            if i < j.len() {
                assert(join_text(a, sep)[i] == j[i]);
            } else if i < j.len() + sep.len() {
                assert(join_text(a, sep)[i] == sep[i - j.len()]);
            } else {
                assert(join_text(a, sep)[i] == a.last()[i - j.len() - sep.len()]);
            }
        }
    } else if a.len() == 1 {
        assert(no_sep(a[0], c));
    }
}

/// Trimming the front of `x + y` stays inside `x` when `x` ends with a
/// character that is not whitespace.
proof fn lemma_trim_start_concat(x: Seq<char>, y: Seq<char>)
    requires
        x.len() > 0,
        !is_ws(x.last()),
    ensures
        crate::text::trim_start(x + y) == crate::text::trim_start(x) + y,
    decreases x.len(),
{
    if is_ws(x[0]) {
        assert(x.len() >= 2);
        lemma_trim_start_concat(x.drop_first(), y);
        assert((x + y).drop_first() =~= x.drop_first() + y);
        assert((x + y)[0] == x[0]);
    } else {
        assert((x + y)[0] == x[0]);
    }
}

/// Trimming the front of a line that ends with a character other than
/// whitespace leaves a non-empty tail of it, starting and ending with
/// characters other than whitespace.
proof fn lemma_trim_start_tail(x: Seq<char>)
    requires
        x.len() > 0,
        !is_ws(x.last()),
    ensures
        crate::text::trim_start(x).len() > 0,
        !is_ws(crate::text::trim_start(x)[0]),
        crate::text::trim_start(x).last() == x.last(),
        crate::text::trim_start(x).len() <= x.len(),
        crate::text::trim_start(x) == x.skip(x.len() - crate::text::trim_start(x).len()),
    decreases x.len(),
{
    if is_ws(x[0]) {
        lemma_trim_start_tail(x.drop_first());
        let t = crate::text::trim_start(x.drop_first());
        assert(x.drop_first().skip(x.drop_first().len() - t.len()) =~= x.skip(x.len() - t.len()));
    } else {
        assert(x.skip(0) =~= x);
    }
}

/// A line ending with a character other than whitespace trims at the end to
/// itself.
proof fn lemma_trim_end_plain(x: Seq<char>)
    requires
        x.len() > 0,
        !is_ws(x.last()),
    ensures
        trim_end(x) == x,
{
}

/// Collapsed form survives dropping the first or the last line.
proof fn lemma_collapsed_sub(c: Seq<Seq<char>>)
    requires
        collapsed_form(c),
        c.len() > 0,
    ensures
        collapsed_form(c.drop_first()),
        collapsed_form(c.drop_last()),
{
    let f = c.drop_first();
    let l = c.drop_last();
    assert forall|k: int| 0 <= k < f.len() implies trim_end(#[trigger] f[k]) == f[k] && no_sep(f[k], '\n') && no_sep(f[k], '\r') by {
        assert(f[k] == c[k + 1]);
    }
    assert forall|k: int| 1 <= k < f.len() && (#[trigger] f[k]).len() == 0 implies f[k - 1].len() > 0 by {
        assert(f[k] == c[k + 1] && f[k - 1] == c[k]);
    }
    assert forall|k: int| 0 <= k < l.len() implies trim_end(#[trigger] l[k]) == l[k] && no_sep(l[k], '\n') && no_sep(l[k], '\r') by {
        assert(l[k] == c[k]);
    }
    assert forall|k: int| 1 <= k < l.len() && (#[trigger] l[k]).len() == 0 implies l[k - 1].len() > 0 by {
        assert(l[k] == c[k] && l[k - 1] == c[k - 1]);
    }
}

/// A non-empty line with no trailing whitespace ends with a character other
/// than whitespace.
proof fn lemma_line_ends_plain(x: Seq<char>)
    requires
        trim_end(x) == x,
        x.len() > 0,
    ensures
        !is_ws(x.last()),
{
    if is_ws(x.last()) {
        crate::markdown::lemma_trim_end_idem(x.drop_last());
        assert(trim_end(x) == trim_end(x.drop_last()));
    }
}

/// Trimming the front of the joined lines trims the front of the first
/// line, when that line is not blank.
proof fn lemma_trim_start_join(c: Seq<Seq<char>>)
    requires
        collapsed_form(c),
        c.len() > 0,
        c[0].len() > 0,
    ensures
        crate::text::trim_start(join_text(c, seq!['\n'])) == join_text(c.update(0, crate::text::trim_start(c[0])), seq!['\n']),
{
    let sep = seq!['\n'];
    lemma_line_ends_plain(c[0]);
    let e = c.update(0, crate::text::trim_start(c[0]));
    if c.len() == 1 {
        assert(join_text(e, sep) == e[0]);
    } else {
        lemma_join_cons(c, sep);
        lemma_join_cons(e, sep);
        assert(e.drop_first() =~= c.drop_first());
        lemma_trim_start_concat(c[0], sep + join_text(c.drop_first(), sep));
        assert(c[0] + sep + join_text(c.drop_first(), sep) =~= c[0] + (sep + join_text(c.drop_first(), sep)));
        assert(e[0] + sep + join_text(e.drop_first(), sep) =~= e[0] + (sep + join_text(c.drop_first(), sep)));
    }
}

/// The lines of the trimmed join of lines in collapsed form: a blank first
/// and a blank last line dropped, and the first line trimmed at the front.
spec fn trimmed_lines(c: Seq<Seq<char>>) -> Seq<Seq<char>> {
    let c1 = if c.len() > 0 && c[0].len() == 0 { c.drop_first() } else { c };
    let c2 = if c1.len() > 0 && c1.last().len() == 0 { c1.drop_last() } else { c1 };
    if c2.len() == 0 {
        c2
    } else {
        c2.update(0, crate::text::trim_start(c2[0]))
    }
}

/// Trimming the front of the first line keeps lines in collapsed form.
proof fn lemma_collapsed_first_trimmed(c: Seq<Seq<char>>)
    requires
        collapsed_form(c),
        c.len() > 0,
        c[0].len() > 0,
    ensures
        collapsed_form(c.update(0, crate::text::trim_start(c[0]))),
        c.update(0, crate::text::trim_start(c[0]))[0].len() > 0,
        !is_ws(c.update(0, crate::text::trim_start(c[0]))[0][0]),
        !is_ws(c.update(0, crate::text::trim_start(c[0]))[0].last()),
{
    let x = c[0];
    lemma_line_ends_plain(x);
    lemma_trim_start_tail(x);
    let t = crate::text::trim_start(x);
    let e = c.update(0, t);
    lemma_trim_end_plain(t);
    assert(no_sep(t, '\n') && no_sep(t, '\r')) by {
        assert(no_sep(x, '\n') && no_sep(x, '\r'));
        assert forall|j: int| 0 <= j < t.len() implies #[trigger] t[j] != '\n' && t[j] != '\r' by {
            assert(t[j] == x[x.len() - t.len() + j]);
        }
    }
    assert forall|k: int| 0 <= k < e.len() implies trim_end(#[trigger] e[k]) == e[k] && no_sep(e[k], '\n') && no_sep(e[k], '\r') by {
        if k > 0 {
            assert(e[k] == c[k]);
        }
    }
    assert forall|k: int| 1 <= k < e.len() && (#[trigger] e[k]).len() == 0 implies e[k - 1].len() > 0 by {
        assert(e[k] == c[k]);
        if k > 1 {
            assert(e[k - 1] == c[k - 1]);
        }
    }
}

/// Trimming the joined lines gives the join of `trimmed_lines`, which are in
/// normal form.
#[verifier::spinoff_prover]
#[verifier::rlimit(30)]
proof fn lemma_trim_join(c: Seq<Seq<char>>)
    requires
        collapsed_form(c),
    ensures
        trim(join_text(c, seq!['\n'])) == join_text(trimmed_lines(c), seq!['\n']),
        normal_form(trimmed_lines(c)),
{
    let sep = seq!['\n'];
    let c1 = if c.len() > 0 && c[0].len() == 0 { c.drop_first() } else { c };
    assert(crate::text::trim_start(join_text(c, sep)) == crate::text::trim_start(join_text(c1, sep))
        && collapsed_form(c1) && (c1.len() > 0 ==> c1[0].len() > 0)) by {
        if c.len() > 0 && c[0].len() == 0 {
            lemma_collapsed_sub(c);
            if c.len() == 1 {
                assert(c1 =~= Seq::<Seq<char>>::empty());
                assert(join_text(c, sep) =~= join_text(c1, sep));
            } else {
                lemma_join_cons(c, sep);
                assert(join_text(c, sep) =~= sep + join_text(c1, sep));
                assert((sep + join_text(c1, sep))[0] == '\n');
                assert((sep + join_text(c1, sep)).drop_first() =~= join_text(c1, sep));
                assert(c[1].len() > 0);
                assert(c1[0] == c[1]);
            }
        }
    }
    if c1.len() == 0 {
        assert(trimmed_lines(c) =~= Seq::<Seq<char>>::empty());
        assert(join_text(c1, sep) =~= Seq::<char>::empty());
    } else {
        let e = c1.update(0, crate::text::trim_start(c1[0]));
        lemma_trim_start_join(c1);
        lemma_collapsed_first_trimmed(c1);
        if c1.last().len() == 0 {
            assert(c1.len() >= 2);
            let d = e.drop_last();
            assert(trimmed_lines(c) =~= d);
            assert(join_text(e, sep) == join_text(d, sep) + sep + e.last());
            assert(e.last() == c1.last());
            assert(join_text(e, sep) =~= join_text(d, sep) + sep);
            assert(trim_end(join_text(d, sep) + sep) == trim_end((join_text(d, sep) + sep).drop_last()));
            assert((join_text(d, sep) + sep).drop_last() =~= join_text(d, sep));
            lemma_collapsed_sub(e);
            if d.len() > 1 {
                assert(d.last() == c1[c1.len() - 2]);
                assert(c1[c1.len() - 2].len() > 0);
                lemma_line_ends_plain(d.last());
            } else {
                assert(d.last() == e[0]);
            }
            lemma_join_ends(d, sep);
            lemma_trim_end_plain(join_text(d, sep));
        } else {
            assert(trimmed_lines(c) =~= e);
            if e.len() > 1 {
                assert(e.last() == c1.last());
                lemma_line_ends_plain(e.last());
            }
            lemma_join_ends(e, sep);
            lemma_trim_end_plain(join_text(e, sep));
        }
    }
}

/// Joined lines in normal form are left as they are by tidying.
#[verifier::spinoff_prover]
proof fn lemma_normal_fixed(d: Seq<Seq<char>>)
    requires
        normal_form(d),
    ensures
        normalized(join_text(d, seq!['\n'])) == join_text(d, seq!['\n']),
{
    reveal_strlit("\n");
    let sep = seq!['\n'];
    assert("\n"@ =~= sep);
    let x = join_text(d, sep);
    assert forall|k: int| 0 <= k < d.len() implies no_sep(#[trigger] d[k], '\r') by {}
    lemma_join_no_sep(d, sep, '\r');
    lemma_unify_plain(x);
    if d.len() == 0 {
        assert(x =~= Seq::<char>::empty());
        assert(split_nl(x) =~= seq![Seq::<char>::empty()]);
        assert(str_lines(x) =~= Seq::<Seq<char>>::empty());
        assert(collapse_blank_lines(str_lines(x), 0) =~= Seq::<Seq<char>>::empty());
    } else {
        assert forall|k: int| 0 <= k < d.len() implies crate::table::no_sep(#[trigger] d[k], '\n') by {}
        crate::table::lemma_split_join_sep(d, '\n');
        crate::markdown::lemma_split_nl_is_split_at_char(x);
        assert(split_nl(x) == d);
        assert forall|k: int| 0 <= k < d.len() - 1 implies #[trigger] strip_cr(d[k]) == d[k] by {
            assert(no_sep(d[k], '\r'));
            if d[k].len() > 0 {
                assert(d[k].last() != '\r');
            }
        }
        assert(str_lines(x) =~= d);
        lemma_collapse_fixed(d, d.len() as int);
        assert(d.take(d.len() as int) =~= d);
        lemma_join_ends(d, sep);
        lemma_line_ends_plain(d.last());
        lemma_trim_end_plain(x);
        assert(crate::text::trim_start(x) == x);
    }
}

/// Tidying converted text twice is tidying it once: what the importer
/// writes comes back unchanged when tidied again.
pub proof fn lemma_normalize_twice(s: Seq<char>)
    ensures
        normalized(normalized(s)) == normalized(s),
{
    reveal_strlit("\n");
    assert("\n"@ =~= seq!['\n']);
    let u = unify_newlines(s);
    lemma_unify_no_cr(s);
    let ls = str_lines(u);
    lemma_str_lines_plain(u);
    lemma_collapse_form(ls, ls.len() as int);
    let c = collapse_blank_lines(ls, ls.len() as int);
    lemma_trim_join(c);
    lemma_normal_fixed(trimmed_lines(c));
}

// ---------------------------------------------------------------------------
// Merging the files of a research report folder.

/// The order the files of a folder are merged in: by file name.
pub fn research_file_order(labels: &Vec<String>) -> (r: Vec<String>)
    ensures
        strings_model(r@) == crate::crash_log::sorted_names(strings_model(labels@)),
{
    let mut names: Vec<Vec<char>> = Vec::new();
    let mut k: usize = 0;
    while k < labels.len()
        invariant
            k <= labels.len(),
            names.len() == k,
            names.deep_view() == strings_model(labels@).take(k as int),
        decreases labels.len() - k,
    {
        let ghost before = names.deep_view();
        let c = chars_of(labels[k].as_str());
        names.push(c);
        proof {
            assert forall|i: int| 0 <= i < k + 1 implies #[trigger] names.deep_view()[i] == strings_model(labels@).take(k + 1)[i] by {
                if i < k {
                    assert(names.deep_view()[i] == before[i]);
                } else {
                    assert(names.deep_view()[i] == names@[i]@);
                }
            }
            assert(names.deep_view() =~= strings_model(labels@).take(k + 1));
        }
        k += 1;
    }
    assert(strings_model(labels@).take(labels.len() as int) =~= strings_model(labels@));
    let sorted = crate::crash_log::sort_names(&names);
    let mut out: Vec<String> = Vec::new();
    let mut j: usize = 0;
    while j < sorted.len()
        invariant
            j <= sorted.len(),
            strings_model(out@) == sorted.deep_view().take(j as int),
        decreases sorted.len() - j,
    {
        let ghost before = out@;
        let st = string_of(&sorted[j]);
        out.push(st);
        proof {
            assert(sorted.deep_view()[j as int] == sorted@[j as int]@);
            assert(strings_model(out@) =~= strings_model(before).push(st@));
            assert(sorted.deep_view().take(j + 1) =~= sorted.deep_view().take(j as int).push(sorted.deep_view()[j as int]));
        }
        j += 1;
    }
    assert(sorted.deep_view().take(sorted.len() as int) =~= sorted.deep_view());
    out
}

/// `s` without its leading byte-order marks.
pub open spec fn without_bom(s: Seq<char>) -> Seq<char>
    decreases s.len(),
{
    if s.len() > 0 && s[0] == '\u{feff}' {
        without_bom(s.drop_first())
    } else {
        s
    }
}

/// The first index from `k` on whose file, byte-order marks taken off,
/// starts with a frontmatter.
pub open spec fn frontmatter_from(chunks: Seq<Seq<char>>, k: int) -> Option<nat>
    decreases chunks.len() - k,
{
    if k < 0 || k >= chunks.len() {
        None
    } else if begins_with_frontmatter(without_bom(chunks[k])) {
        Some(k as nat)
    } else {
        frontmatter_from(chunks, k + 1)
    }
}

/// The files of a folder merged, in order: byte-order marks taken off and a
/// blank line between files; `Err(k)` when file `k`, not the first, carries a
/// frontmatter of its own (only the first may fill in the elements).
pub open spec fn research_merge(chunks: Seq<Seq<char>>) -> Result<Seq<char>, nat> {
    match frontmatter_from(chunks, 1) {
        Some(k) => Err(k),
        None => Ok(join_text(chunks.map_values(|c: Seq<char>| without_bom(c)), "\n\n"@)),
    }
}

fn strip_bom(s: &str) -> (r: String)
    ensures
        r@ == without_bom(s@),
{
    let v = chars_of(s);
    let mut k: usize = 0;
    assert(v@.skip(0) =~= v@);
    while k < v.len() && v[k] == '\u{feff}'
        invariant
            k <= v.len(),
            without_bom(v@.skip(k as int)) == without_bom(v@),
        decreases v.len() - k,
    {
        assert(v@.skip(k as int).drop_first() =~= v@.skip(k + 1));
        k += 1;
    }
    assert(v@.subrange(k as int, v.len() as int) =~= v@.skip(k as int));
    string_of_range(&v, k, v.len())
}

/// Merge the contents of the files of a research folder, already in merge
/// order.
pub fn merge_research_files(chunks: &Vec<String>) -> (r: Result<String, usize>)
    ensures
        match r {
            Ok(m) => research_merge(strings_model(chunks@)) == Ok::<Seq<char>, nat>(m@),
            Err(k) => research_merge(strings_model(chunks@)) == Err::<Seq<char>, nat>(k as nat),
        },
{
    let ghost cs = strings_model(chunks@);
    let mut parts: Vec<String> = Vec::new();
    let mut k: usize = 0;
    while k < chunks.len()
        invariant
            k <= chunks.len(),
            cs == strings_model(chunks@),
            strings_model(parts@) == cs.take(k as int).map_values(|c: Seq<char>| without_bom(c)),
            frontmatter_from(cs, 1) == if k <= 1 { frontmatter_from(cs, 1) } else { frontmatter_from(cs, k as int) },
            k >= 1 ==> frontmatter_from(cs, 1) == frontmatter_from(cs, k as int),
        decreases chunks.len() - k,
    {
        let part = strip_bom(chunks[k].as_str());
        assert(cs[k as int] == chunks@[k as int]@);
        if k > 0 && starts_with_frontmatter(part.as_str()) {
            return Err(k);
        }
        let ghost before = parts@;
        parts.push(part);
        proof {
            assert(strings_model(parts@) =~= strings_model(before).push(part@));
            assert(cs.take(k + 1) =~= cs.take(k as int).push(cs[k as int]));
            assert(cs.take(k + 1).map_values(|c: Seq<char>| without_bom(c)) =~= cs.take(k as int).map_values(
                |c: Seq<char>| without_bom(c),
            ).push(without_bom(cs[k as int])));
        }
        k += 1;
    }
    assert(cs.take(chunks.len() as int) =~= cs);
    Ok(join_strings(&parts, "\n\n"))
}

/// A frontmatter among the files from `k` on, one more file added at the
/// end: the one found before, else the new file when it has one.
proof fn lemma_frontmatter_from_push(cs: Seq<Seq<char>>, c: Seq<char>, k: int)
    requires
        0 <= k,
    ensures
        frontmatter_from(cs.push(c), k) == (match frontmatter_from(cs, k) {
            Some(i) => Some(i),
            None => if k <= cs.len() && begins_with_frontmatter(without_bom(c)) {
                Some(cs.len())
            } else {
                None::<nat>
            },
        }),
    decreases cs.len() + 1 - k,
{
    if k < cs.len() {
        assert(cs.push(c)[k] == cs[k]);
        lemma_frontmatter_from_push(cs, c, k + 1);
    } else if k == cs.len() {
        assert(cs.push(c)[k] == c);
        assert(frontmatter_from(cs, k) == None::<nat>);
        assert(frontmatter_from(cs.push(c), k + 1) == None::<nat>);
    } else {
        assert(frontmatter_from(cs, k) == None::<nat>);
        assert(frontmatter_from(cs.push(c), k) == None::<nat>);
    }
}

/// Merging goes file by file: when the files so far merge to `m` and one
/// more file, its byte-order marks taken off, does not begin with a
/// frontmatter, all of them merge to `m`, a blank line, and that file.
pub proof fn lemma_merge_appends_file(cs: Seq<Seq<char>>, c: Seq<char>, m: Seq<char>)
    requires
        cs.len() >= 1,
        research_merge(cs) == Ok::<Seq<char>, nat>(m),
        !begins_with_frontmatter(without_bom(c)),
    ensures
        research_merge(cs.push(c)) == Ok::<Seq<char>, nat>(m + seq!['\n', '\n'] + without_bom(c)),
{
    reveal_strlit("\n\n");
    lemma_frontmatter_from_push(cs, c, 1);
    let parts = cs.map_values(|x: Seq<char>| without_bom(x));
    let all = cs.push(c).map_values(|x: Seq<char>| without_bom(x));
    assert(all =~= parts.push(without_bom(c)));
    assert(all.drop_last() =~= parts);
    assert("\n\n"@ =~= seq!['\n', '\n']);
}

/// Two files, the second without a frontmatter of its own, merge to the
/// first and the second, byte-order marks taken off, with a blank line
/// between them.
pub proof fn lemma_merge_two_files(a: Seq<char>, b: Seq<char>)
    requires
        !begins_with_frontmatter(without_bom(b)),
    ensures
        research_merge(seq![a, b]) == Ok::<Seq<char>, nat>(without_bom(a) + seq!['\n', '\n'] + without_bom(b)),
{
    let one = seq![a];
    assert(frontmatter_from(one, 1) == None::<nat>);
    assert(one.map_values(|x: Seq<char>| without_bom(x)) =~= seq![without_bom(a)]);
    assert(research_merge(one) == Ok::<Seq<char>, nat>(without_bom(a)));
    assert(one.push(b) =~= seq![a, b]);
    lemma_merge_appends_file(one, b, without_bom(a));
}

/// `frontmatter_from` finds the first file from `k` on that begins with a
/// frontmatter, and finds none only when no file from `k` on does.
proof fn lemma_frontmatter_from_first(cs: Seq<Seq<char>>, k: int)
    requires
        0 <= k <= cs.len(),
    ensures
        match frontmatter_from(cs, k) {
            Some(i) => {
                &&& k <= i < cs.len()
                &&& begins_with_frontmatter(without_bom(cs[i as int]))
                &&& forall|j: int| k <= j < i ==> !begins_with_frontmatter(without_bom(#[trigger] cs[j]))
            },
            None => forall|j: int| k <= j < cs.len() ==> !begins_with_frontmatter(without_bom(#[trigger] cs[j])),
        },
    decreases cs.len() - k,
{
    if k < cs.len() && !begins_with_frontmatter(without_bom(cs[k])) {
        lemma_frontmatter_from_first(cs, k + 1);
    }
}

/// A merge is refused exactly when a file after the first, its byte-order
/// marks taken off, begins with a frontmatter, and then it names the first
/// such file; the first file may carry one.
pub proof fn lemma_merge_refuses_later_frontmatter(cs: Seq<Seq<char>>)
    ensures
        research_merge(cs) is Err <==> exists|k: int|
            1 <= k < cs.len() && begins_with_frontmatter(without_bom(#[trigger] cs[k])),
        research_merge(cs) matches Err(k) ==> {
            &&& 1 <= k < cs.len()
            &&& begins_with_frontmatter(without_bom(cs[k as int]))
            &&& forall|j: int| 1 <= j < k ==> !begins_with_frontmatter(without_bom(#[trigger] cs[j]))
        },
{
    if cs.len() >= 1 {
        lemma_frontmatter_from_first(cs, 1);
    }
}

/// The files of a research folder are merged in the order of their names:
/// every name once, each no later than the next.
pub proof fn lemma_research_files_by_name(labels: Seq<Seq<char>>)
    ensures
        ({
            let o = crate::crash_log::sorted_names(labels);
            &&& o.to_multiset() == labels.to_multiset()
            &&& forall|i: int, j: int| 0 <= i < j < o.len() ==> !crate::crash_log::lex_lt(#[trigger] o[j], #[trigger] o[i])
        }),
{
    crate::crash_log::lemma_sorted_names(labels);
}

} // verus!
