//! The symbol extractor: pattern-driven extraction of functions, types and
//! imports from source text, plus its pure helpers — language detection by
//! file extension, byte-offset to line number conversion, and
//! parameter-list display simplification.
//!
//! The pattern matching itself runs in the regex crate behind trusted
//! wrappers; everything built from the matches — names, ids, line numbers,
//! display signatures — is verified against the capture records the
//! wrappers hand back.

use vstd::prelude::*;
use vstd::string::StringSliceAdditionalSpecFns;

use crate::chunker::{line_count, newline_positions};

verus! {

/// What kind of program construct a symbol is.
#[derive(Clone, Copy, Debug, PartialEq, Eq, Structural)]
pub enum SymbolKind {
    Function,
    Struct,
    Enum,
    Trait,
    Class,
    Interface,
    Type,
}

/// One extracted symbol: where it lives and how to display it.
pub struct Symbol {
    pub id: String,
    pub name: String,
    pub file: String,
    pub line: usize,
    pub kind: SymbolKind,
    pub signature: String,
    pub summary: String,
    pub depends_on: Vec<String>,
    pub depended_by: Vec<String>,
    pub embedding: Vec<i32>,
}

/// Everything extracted from one source file.
pub struct ParsedFile {
    pub path: String,
    pub language: String,
    pub symbols: Vec<Symbol>,
    pub imports: Vec<String>,
    pub lines: usize,
}

/// Index of the `.` starting the extension of `s`, or -1 when the last
/// path segment has none.
pub open spec fn ext_start(s: Seq<char>) -> int
    decreases s.len(),
{
    if s.len() == 0 {
        -1
    } else if s.last() == '.' {
        s.len() - 1
    } else if s.last() == '/' {
        -1
    } else {
        ext_start(s.drop_last())
    }
}

/// The extension of path `s` (no dot), empty when there is none.
pub open spec fn extension_of(s: Seq<char>) -> Seq<char> {
    if ext_start(s) >= 0 {
        s.skip(ext_start(s) + 1)
    } else {
        Seq::empty()
    }
}

/// The language a file extension selects.
pub open spec fn language_for(e: Seq<char>) -> Seq<char> {
    if e == "rs"@ {
        "rust"@
    } else if e == "ts"@ || e == "tsx"@ {
        "typescript"@
    } else if e == "js"@ || e == "jsx"@ || e == "mjs"@ {
        "javascript"@
    } else if e == "py"@ {
        "python"@
    } else if e == "go"@ {
        "go"@
    } else if e == "java"@ {
        "java"@
    } else if e == "cpp"@ || e == "cc"@ || e == "cxx"@ || e == "hpp"@ || e == "h"@ {
        "cpp"@
    } else if e == "c"@ {
        "c"@
    } else if e == "rb"@ {
        "ruby"@
    } else if e == "php"@ {
        "php"@
    } else if e == "swift"@ {
        "swift"@
    } else if e == "kt"@ || e == "kts"@ {
        "kotlin"@
    } else if e == "scala"@ {
        "scala"@
    } else if e == "zig"@ {
        "zig"@
    } else {
        "unknown"@
    }
}

/// Whether two string slices hold the same characters.
fn str_eq(a: &str, b: &str) -> (r: bool)
    ensures
        r == (a@ == b@),
{
    let an = a.unicode_len();
    let bn = b.unicode_len();
    if an != bn {
        return false;
    }
    let mut i: usize = 0;
    while i < an
        invariant
            a@.len() == an,
            b@.len() == bn,
            an == bn,
            i <= an,
            forall|k: int| 0 <= k < i ==> a@[k] == b@[k],
        decreases an - i,
    {
        if a.get_char(i) != b.get_char(i) {
            return false;
        }
        i = i + 1;
    }
    proof {
        assert(a@ =~= b@);
    }
    true
}

/// The language of a file, selected by its path's extension.
pub fn detect_language(path: &str) -> (lang: String)
    ensures
        lang@ == language_for(extension_of(path@)),
{
    let n = path.unicode_len();
    let mut i: usize = n;
    let mut ext: &str = "";
    let mut found: bool = false;
    proof {
        assert(path@.take(n as int) =~= path@);
        reveal_strlit("");
        assert(ext@ =~= Seq::<char>::empty());
    }
    while i > 0 && !found
        invariant
            i <= n,
            n == path@.len(),
            ext_start(path@) == ext_start(path@.take(i as int)),
            found ==> ext_start(path@) == i as int - 1 && i >= 1,
            found ==> ext@ == extension_of(path@),
            !found ==> ext@ == Seq::<char>::empty(),
        decreases i + (if found { 0int } else { 1int }),
    {
        let c = path.get_char(i - 1);
        proof {
            assert(path@.take(i as int).drop_last() =~= path@.take(i as int - 1));
            assert(path@.take(i as int).last() == path@[i as int - 1]);
        }
        if c == '.' {
            found = true;
            ext = path.substring_char(i, n);
            proof {
                assert(ext_start(path@) == i as int - 1);
                assert(ext@ =~= path@.skip(i as int));
            }
        } else if c == '/' {
            proof {
                assert(ext_start(path@) == -1);
            }
            i = 0;
        } else {
            i = i - 1;
        }
    }
    proof {
        if !found {
            assert(i == 0);
            assert(path@.take(0) =~= Seq::<char>::empty());
            assert(ext_start(path@) == -1);
            reveal_strlit("");
            assert(ext@ =~= extension_of(path@));
        }
    }
    let lang: &str = if str_eq(ext, "rs") {
        "rust"
    } else if str_eq(ext, "ts") || str_eq(ext, "tsx") {
        "typescript"
    } else if str_eq(ext, "js") || str_eq(ext, "jsx") || str_eq(ext, "mjs") {
        "javascript"
    } else if str_eq(ext, "py") {
        "python"
    } else if str_eq(ext, "go") {
        "go"
    } else if str_eq(ext, "java") {
        "java"
    } else if str_eq(ext, "cpp") || str_eq(ext, "cc") || str_eq(ext, "cxx") || str_eq(ext, "hpp")
        || str_eq(ext, "h") {
        "cpp"
    } else if str_eq(ext, "c") {
        "c"
    } else if str_eq(ext, "rb") {
        "ruby"
    } else if str_eq(ext, "php") {
        "php"
    } else if str_eq(ext, "swift") {
        "swift"
    } else if str_eq(ext, "kt") || str_eq(ext, "kts") {
        "kotlin"
    } else if str_eq(ext, "scala") {
        "scala"
    } else if str_eq(ext, "zig") {
        "zig"
    } else {
        "unknown"
    };
    lang.to_owned()
}

/// The 1-based line number at byte offset `byte_offset` of `content`:
/// one more than the number of newlines before it.
pub fn find_line_number(content: &[u8], byte_offset: usize) -> (line: usize)
    requires
        byte_offset <= content@.len(),
        byte_offset < usize::MAX,
    ensures
        line == newline_positions(content@.take(byte_offset as int)).len() + 1,
{
    let mut count: usize = 0;
    let mut i: usize = 0;
    while i < byte_offset
        invariant
            i <= byte_offset,
            byte_offset <= content@.len(),
            count == newline_positions(content@.take(i as int)).len(),
            count <= i,
        decreases byte_offset - i,
    {
        proof {
            assert(content@.take(i as int + 1).drop_last() =~= content@.take(i as int));
            assert(content@.take(i as int + 1).last() == content@[i as int]);
        }
        if content[i] == 10u8 {
            count = count + 1;
        }
        i = i + 1;
    }
    count + 1
}

/// A whitespace character for trimming: the Unicode `White_Space` set,
/// the set the standard library's trimming uses.
pub open spec fn is_ws(c: char) -> bool {
    ||| c == '\u{9}'
    ||| c == '\u{A}'
    ||| c == '\u{B}'
    ||| c == '\u{C}'
    ||| c == '\u{D}'
    ||| c == ' '
    ||| c == '\u{85}'
    ||| c == '\u{A0}'
    ||| c == '\u{1680}'
    ||| c == '\u{2000}'
    ||| c == '\u{2001}'
    ||| c == '\u{2002}'
    ||| c == '\u{2003}'
    ||| c == '\u{2004}'
    ||| c == '\u{2005}'
    ||| c == '\u{2006}'
    ||| c == '\u{2007}'
    ||| c == '\u{2008}'
    ||| c == '\u{2009}'
    ||| c == '\u{200A}'
    ||| c == '\u{2028}'
    ||| c == '\u{2029}'
    ||| c == '\u{202F}'
    ||| c == '\u{205F}'
    ||| c == '\u{3000}'
}

/// Length of the leading whitespace run.
pub open spec fn trim_start_idx(s: Seq<char>) -> int
    decreases s.len(),
{
    if s.len() == 0 {
        0
    } else if is_ws(s[0]) {
        1 + trim_start_idx(s.skip(1))
    } else {
        0
    }
}

/// End of the content once trailing whitespace is dropped.
pub open spec fn trim_end_idx(s: Seq<char>) -> int
    decreases s.len(),
{
    if s.len() == 0 {
        0
    } else if is_ws(s.last()) {
        trim_end_idx(s.drop_last())
    } else {
        s.len() as int
    }
}

/// `s` with leading and trailing whitespace removed.
pub open spec fn trimmed(s: Seq<char>) -> Seq<char> {
    if trim_start_idx(s) <= trim_end_idx(s) {
        s.subrange(trim_start_idx(s), trim_end_idx(s))
    } else {
        Seq::empty()
    }
}

/// Number of occurrences of `c` in `s`.
pub open spec fn count_char(s: Seq<char>, c: char) -> int
    decreases s.len(),
{
    if s.len() == 0 {
        0
    } else {
        count_char(s.drop_last(), c) + if s.last() == c {
            1int
        } else {
            0int
        }
    }
}

/// The decimal digit character of `d`.
pub open spec fn digit_char(d: int) -> char {
    if d == 0 {
        '0'
    } else if d == 1 {
        '1'
    } else if d == 2 {
        '2'
    } else if d == 3 {
        '3'
    } else if d == 4 {
        '4'
    } else if d == 5 {
        '5'
    } else if d == 6 {
        '6'
    } else if d == 7 {
        '7'
    } else if d == 8 {
        '8'
    } else {
        '9'
    }
}

/// The decimal digits of `n`.
pub open spec fn dec_digits(n: int) -> Seq<char>
    decreases n,
{
    if n < 10 {
        seq![digit_char(n)]
    } else {
        dec_digits(n / 10).push(digit_char(n % 10))
    }
}

/// What `simplify_params` displays: a long parameter list of more than
/// three parameters collapses to its count and an ellipsis; anything else
/// is only trimmed. The length is counted in characters, which on an
/// ASCII parameter list equals its byte length.
pub open spec fn simplified_params(s: Seq<char>) -> Seq<char> {
    let t = trimmed(s);
    if t.len() > 50 && count_char(t, ',') + 1 > 3 {
        dec_digits(count_char(t, ',') + 1).add("..."@)
    } else {
        t
    }
}

/// Whether `c` is whitespace, for trimming.
fn ws_char(c: char) -> (r: bool)
    ensures
        r == is_ws(c),
{
    c == '\u{9}' || c == '\u{A}' || c == '\u{B}' || c == '\u{C}' || c == '\u{D}' || c == ' '
        || c == '\u{85}' || c == '\u{A0}' || c == '\u{1680}'
        || ('\u{2000}' <= c && c <= '\u{200A}') || c == '\u{2028}' || c == '\u{2029}'
        || c == '\u{202F}' || c == '\u{205F}' || c == '\u{3000}'
}

/// Append the decimal digits of `v`.
fn push_decimal(s: &mut String, v: u128)
    ensures
        final(s)@ == old(s)@ + dec_digits(v as int),
    decreases v,
{
    if v >= 10 {
        push_decimal(s, v / 10);
    }
    let d = v % 10;
    proof {
        reveal_strlit("0");
        reveal_strlit("1");
        reveal_strlit("2");
        reveal_strlit("3");
        reveal_strlit("4");
        reveal_strlit("5");
        reveal_strlit("6");
        reveal_strlit("7");
        reveal_strlit("8");
        reveal_strlit("9");
    }
    if d == 0 {
        s.append("0");
    } else if d == 1 {
        s.append("1");
    } else if d == 2 {
        s.append("2");
    } else if d == 3 {
        s.append("3");
    } else if d == 4 {
        s.append("4");
    } else if d == 5 {
        s.append("5");
    } else if d == 6 {
        s.append("6");
    } else if d == 7 {
        s.append("7");
    } else if d == 8 {
        s.append("8");
    } else {
        s.append("9");
    }
    proof {
        if v < 10 {
            assert(old(s)@ + dec_digits(v as int) =~= s@);
        } else {
            assert(old(s)@ + dec_digits(v as int) =~= s@);
        }
    }
}

/// Shorten a long parameter list for display: more than 50 characters and
/// more than three parameters become "<count>..."; otherwise the trimmed
/// list is returned unchanged.
pub fn simplify_params(params: &str) -> (r: String)
    ensures
        r@ == simplified_params(params@),
{
    let n = params.unicode_len();
    let mut a: usize = 0;
    proof {
        assert(params@.skip(0) =~= params@);
    }
    while a < n && ws_char(params.get_char(a))
        invariant
            a <= n,
            n == params@.len(),
            trim_start_idx(params@) == a + trim_start_idx(params@.skip(a as int)),
        decreases n - a,
    {
        proof {
            assert(params@.skip(a as int)[0] == params@[a as int]);
            assert(params@.skip(a as int).skip(1) =~= params@.skip(a as int + 1));
        }
        a = a + 1;
    }
    proof {
        if a < n {
            assert(params@.skip(a as int)[0] == params@[a as int]);
        } else {
            assert(params@.skip(a as int) =~= Seq::<char>::empty());
        }
        assert(trim_start_idx(params@) == a as int);
    }
    let mut b: usize = n;
    proof {
        assert(params@.take(n as int) =~= params@);
    }
    while b > a && ws_char(params.get_char(b - 1))
        invariant
            a <= b <= n,
            n == params@.len(),
            trim_start_idx(params@) == a as int,
            trim_end_idx(params@) == trim_end_idx(params@.take(b as int)),
        decreases b,
    {
        proof {
            assert(params@.take(b as int).last() == params@[b as int - 1]);
            assert(params@.take(b as int).drop_last() =~= params@.take(b as int - 1));
        }
        b = b - 1;
    }
    proof {
        lemma_trim_bounds(params@);
        if b > a {
            assert(params@.take(b as int).last() == params@[b as int - 1]);
            assert(trim_end_idx(params@) == b as int);
        } else {
            assert(trim_end_idx(params@) <= b as int) by {
                lemma_trim_end_le(params@, b as int);
            }
        }
    }
    if a >= b {
        proof {
            assert(trimmed(params@) =~= Seq::<char>::empty());
            reveal_strlit("");
        }
        let r = "".to_owned();
        proof {
            assert(r@ =~= simplified_params(params@));
        }
        return r;
    }
    let t = params.substring_char(a, b);
    proof {
        assert(t@ =~= trimmed(params@));
    }
    let tn = b - a;
    let mut commas: usize = 0;
    let mut i: usize = 0;
    while i < tn
        invariant
            i <= tn,
            tn == t@.len(),
            commas == count_char(t@.take(i as int), ','),
            commas <= i,
        decreases tn - i,
    {
        proof {
            assert(t@.take(i as int + 1).drop_last() =~= t@.take(i as int));
            assert(t@.take(i as int + 1).last() == t@[i as int]);
        }
        if t.get_char(i) == ',' {
            commas = commas + 1;
        }
        i = i + 1;
    }
    proof {
        assert(t@.take(tn as int) =~= t@);
    }
    if tn > 50 && commas >= 3 {
        let mut out = String::new();
        push_decimal(&mut out, (commas as u128) + 1);
        proof {
            reveal_strlit("...");
        }
        out.append("...");
        proof {
            assert(out@ =~= simplified_params(params@));
        }
        out
    } else {
        t.to_owned()
    }
}

/// The end of trimmed content never exceeds the length scanned to.
proof fn lemma_trim_end_le(s: Seq<char>, b: int)
    requires
        0 <= b <= s.len(),
        trim_end_idx(s) == trim_end_idx(s.take(b)),
    ensures
        trim_end_idx(s) <= b,
{
    lemma_trim_end_bound(s.take(b));
}

/// `trim_end_idx` lies within the sequence.
proof fn lemma_trim_end_bound(s: Seq<char>)
    ensures
        0 <= trim_end_idx(s) <= s.len(),
    decreases s.len(),
{
    if s.len() > 0 && is_ws(s.last()) {
        lemma_trim_end_bound(s.drop_last());
    }
}

/// Trim indices are ordered and within the sequence.
proof fn lemma_trim_bounds(s: Seq<char>)
    ensures
        0 <= trim_start_idx(s) <= s.len(),
        0 <= trim_end_idx(s) <= s.len(),
    decreases s.len(),
{
    lemma_trim_end_bound(s);
    lemma_trim_start_bound(s);
}

/// `trim_start_idx` lies within the sequence.
proof fn lemma_trim_start_bound(s: Seq<char>)
    ensures
        0 <= trim_start_idx(s) <= s.len(),
    decreases s.len(),
{
    if s.len() > 0 && is_ws(s[0]) {
        lemma_trim_start_bound(s.skip(1));
    }
}


/// One pattern match: the byte offset where it starts, and the text of its
/// capture groups (group 1 onward).
pub struct CaptureRec {
    pub start: usize,
    pub groups: Vec<Option<String>>,
}

/// Mathematical value of a `CaptureRec`.
pub ghost struct CaptureModel {
    pub start: int,
    pub groups: Seq<Option<Seq<char>>>,
}

impl View for CaptureRec {
    type V = CaptureModel;

    open spec fn view(&self) -> CaptureModel {
        CaptureModel {
            start: self.start as int,
            groups: self.groups@.map_values(
                |o: Option<String>| match o {
                    Option::Some(s) => Option::Some(s@),
                    Option::None => Option::<Seq<char>>::None,
                },
            ),
        }
    }
}

#[verifier::external_type_specification]
#[verifier::external_body]
pub struct ExRegex(regex::Regex);

/// Relies on regex::Regex::new: compiles the pattern, or fails on an
/// invalid one.
#[verifier::external_body]
fn compile(pattern: &str) -> (r: Option<regex::Regex>) {
    match regex::Regex::new(pattern) {
        Ok(re) => Some(re),
        Err(_) => None,
    }
}

/// Relies on regex::Regex::captures_iter: yields the successive
/// non-overlapping matches of the haystack in order, and on Match::start:
/// a match's byte offset always lies within the haystack. Group text comes
/// from Captures::get.
#[verifier::external_body]
fn capture_records(re: &regex::Regex, text: &str) -> (out: Vec<CaptureRec>)
    ensures
        forall|i: int| 0 <= i < out@.len() ==> (#[trigger] out@[i])@.start <= text.spec_bytes().len(),
{
    let mut out = Vec::new();
    for caps in re.captures_iter(text) {
        let mut groups: Vec<Option<String>> = Vec::new();
        let mut k: usize = 1;
        while k < caps.len() {
            groups.push(caps.get(k).map(|m| m.as_str().to_string()));
            k += 1;
        }
        out.push(CaptureRec { start: caps.get_match().start(), groups });
    }
    out
}

/// Text of group `k`, or the default when the group is absent.
pub open spec fn spec_group_or(rec: CaptureModel, k: int, default: Seq<char>) -> Seq<char> {
    if 0 <= k < rec.groups.len() && rec.groups[k] is Some {
        rec.groups[k]->0
    } else {
        default
    }
}

/// Text of group `k`, or `default` when absent.
fn group_or<'a>(rec: &'a CaptureRec, k: usize, default: &'a str) -> (r: &'a str)
    ensures
        r@ == spec_group_or(rec@, k as int, default@),
{
    if k < rec.groups.len() {
        match &rec.groups[k] {
            Some(s) => s.as_str(),
            None => default,
        }
    } else {
        default
    }
}

/// How a symbol's one-line display signature is put together.
#[derive(Clone, Copy, Debug, PartialEq, Eq, Structural)]
pub enum SigStyle {
    /// `name(params) -> ret`, ret defaulting to `()`.
    RustFn,
    /// `name(params): ret`, ret defaulting to `void`.
    TsFn,
    /// `name = () => ...`.
    Arrow,
    /// `class name` or `class name extends parent`.
    TsClass,
    /// `def name(params) -> ret`, ret defaulting to `None`.
    PyFn,
    /// `class name` or `class name(bases)`.
    PyClass,
    /// `func name(params)` or `func name(params) ret`; the return is group
    /// 3 or group 4.
    GoFn,
    /// `type name struct`.
    GoStruct,
    /// `type name interface`.
    GoInterface,
    /// `keyword name`: the keyword is the group after the name, e.g.
    /// `struct name`.
    Keyword,
}

/// The keyword a `Keyword`-style signature starts with.
pub open spec fn spec_kind_keyword(kind: SymbolKind) -> Seq<char> {
    match kind {
        SymbolKind::Function => "fn"@,
        SymbolKind::Struct => "struct"@,
        SymbolKind::Enum => "enum"@,
        SymbolKind::Trait => "trait"@,
        SymbolKind::Class => "class"@,
        SymbolKind::Interface => "interface"@,
        SymbolKind::Type => "type"@,
    }
}

/// The display signature a capture record yields under a style.
pub open spec fn spec_signature(style: SigStyle, kind: SymbolKind, rec: CaptureModel) -> Seq<char> {
    let name = spec_group_or(rec, 0, ""@);
    match style {
        SigStyle::RustFn => name + "("@ + simplified_params(spec_group_or(rec, 1, ""@)) + ") -> "@
            + trimmed(spec_group_or(rec, 2, "()"@)),
        SigStyle::TsFn => name + "("@ + simplified_params(spec_group_or(rec, 1, ""@)) + "): "@
            + trimmed(spec_group_or(rec, 2, "void"@)),
        SigStyle::Arrow => name + " = () => ..."@,
        SigStyle::TsClass => if rec.groups.len() > 1 && rec.groups[1] is Some {
            "class "@ + name + " extends "@ + rec.groups[1]->0
        } else {
            "class "@ + name
        },
        SigStyle::PyFn => "def "@ + name + "("@ + simplified_params(spec_group_or(rec, 1, ""@))
            + ") -> "@ + trimmed(spec_group_or(rec, 2, "None"@)),
        SigStyle::PyClass => if rec.groups.len() > 1 && rec.groups[1] is Some {
            "class "@ + name + "("@ + rec.groups[1]->0 + ")"@
        } else {
            "class "@ + name
        },
        SigStyle::GoFn => {
            let ret = trimmed(
                if rec.groups.len() > 2 && rec.groups[2] is Some {
                    rec.groups[2]->0
                } else {
                    spec_group_or(rec, 3, ""@)
                },
            );
            if ret.len() == 0 {
                "func "@ + name + "("@ + simplified_params(spec_group_or(rec, 1, ""@)) + ")"@
            } else {
                "func "@ + name + "("@ + simplified_params(spec_group_or(rec, 1, ""@)) + ") "@
                    + ret
            }
        },
        SigStyle::GoStruct => "type "@ + name + " struct"@,
        SigStyle::GoInterface => "type "@ + name + " interface"@,
        SigStyle::Keyword => spec_kind_keyword(kind) + " "@ + name,
    }
}

/// The symbol a capture record yields: the summary, dependency and
/// embedding fields start empty; later passes fill them.
pub open spec fn spec_symbol(
    path: Seq<char>,
    content: Seq<u8>,
    kind: SymbolKind,
    style: SigStyle,
    rec: CaptureModel,
) -> SymbolModel {
    SymbolModel {
        id: path + ":"@ + spec_group_or(rec, 0, ""@),
        name: spec_group_or(rec, 0, ""@),
        file: path,
        line: newline_positions(content.take(rec.start)).len() as int + 1,
        kind,
        signature: spec_signature(style, kind, rec),
        summary: Seq::empty(),
        depends_on: Seq::empty(),
        depended_by: Seq::empty(),
        embedding: Seq::empty(),
    }
}

/// Mathematical value of a `Symbol`.
pub ghost struct SymbolModel {
    pub id: Seq<char>,
    pub name: Seq<char>,
    pub file: Seq<char>,
    pub line: int,
    pub kind: SymbolKind,
    pub signature: Seq<char>,
    pub summary: Seq<char>,
    pub depends_on: Seq<Seq<char>>,
    pub depended_by: Seq<Seq<char>>,
    pub embedding: Seq<i32>,
}

impl View for Symbol {
    type V = SymbolModel;

    open spec fn view(&self) -> SymbolModel {
        SymbolModel {
            id: self.id@,
            name: self.name@,
            file: self.file@,
            line: self.line as int,
            kind: self.kind,
            signature: self.signature@,
            summary: self.summary@,
            depends_on: self.depends_on@.map_values(|x: String| x@),
            depended_by: self.depended_by@.map_values(|x: String| x@),
            embedding: self.embedding@,
        }
    }
}

/// What holds of every symbol the extractor emits, whatever was matched:
/// it belongs to the parsed file, its id is `path:name`, its line is
/// 1-based, and its summary, dependency and embedding fields are empty.
pub open spec fn extracted_symbol(m: SymbolModel, path: Seq<char>) -> bool {
    &&& m.file == path
    &&& m.id == path + ":"@ + m.name
    &&& m.line >= 1
    &&& m.summary == Seq::<char>::empty()
    &&& m.depends_on == Seq::<Seq<char>>::empty()
    &&& m.depended_by == Seq::<Seq<char>>::empty()
    &&& m.embedding == Seq::<i32>::empty()
}

/// Every `spec_symbol` satisfies the extractor's field invariants.
pub proof fn lemma_spec_symbol_extracted(
    path: Seq<char>,
    content: Seq<u8>,
    kind: SymbolKind,
    style: SigStyle,
    rec: CaptureModel,
)
    ensures
        extracted_symbol(spec_symbol(path, content, kind, style, rec), path),
{
}

/// `s` with surrounding whitespace removed, as an owned string.
pub fn trim_text(s: &str) -> (r: String)
    ensures
        r@ == trimmed(s@),
{
    let n = s.unicode_len();
    let mut a: usize = 0;
    proof {
        assert(s@.skip(0) =~= s@);
    }
    while a < n && ws_char(s.get_char(a))
        invariant
            a <= n,
            n == s@.len(),
            trim_start_idx(s@) == a + trim_start_idx(s@.skip(a as int)),
        decreases n - a,
    {
        proof {
            assert(s@.skip(a as int)[0] == s@[a as int]);
            assert(s@.skip(a as int).skip(1) =~= s@.skip(a as int + 1));
        }
        a = a + 1;
    }
    proof {
        if a < n {
            assert(s@.skip(a as int)[0] == s@[a as int]);
        } else {
            assert(s@.skip(a as int) =~= Seq::<char>::empty());
        }
        assert(trim_start_idx(s@) == a as int);
    }
    let mut b: usize = n;
    proof {
        assert(s@.take(n as int) =~= s@);
    }
    while b > a && ws_char(s.get_char(b - 1))
        invariant
            a <= b <= n,
            n == s@.len(),
            trim_start_idx(s@) == a as int,
            trim_end_idx(s@) == trim_end_idx(s@.take(b as int)),
        decreases b,
    {
        proof {
            assert(s@.take(b as int).last() == s@[b as int - 1]);
            assert(s@.take(b as int).drop_last() =~= s@.take(b as int - 1));
        }
        b = b - 1;
    }
    proof {
        lemma_trim_bounds(s@);
        if b > a {
            assert(s@.take(b as int).last() == s@[b as int - 1]);
            assert(trim_end_idx(s@) == b as int);
        } else {
            assert(trim_end_idx(s@) <= b as int) by {
                lemma_trim_end_le(s@, b as int);
            }
        }
    }
    if a >= b {
        proof {
            assert(trimmed(s@) =~= Seq::<char>::empty());
            reveal_strlit("");
        }
        let r = "".to_owned();
        proof {
            assert(r@ =~= trimmed(s@));
        }
        return r;
    }
    let t = s.substring_char(a, b);
    proof {
        assert(t@ =~= trimmed(s@));
    }
    t.to_owned()
}

/// Build the display signature for one capture record.
fn build_signature(style: SigStyle, kind: SymbolKind, rec: &CaptureRec) -> (r: String)
    ensures
        r@ == spec_signature(style, kind, rec@),
{
    let name = group_or(rec, 0, "");
    match style {
        SigStyle::RustFn => {
            let mut out = name.to_owned();
            out.append("(");
            let p = simplify_params(group_or(rec, 1, ""));
            out.append(p.as_str());
            out.append(") -> ");
            let ret = trim_text(group_or(rec, 2, "()"));
            out.append(ret.as_str());
            out
        },
        SigStyle::TsFn => {
            let mut out = name.to_owned();
            out.append("(");
            let p = simplify_params(group_or(rec, 1, ""));
            out.append(p.as_str());
            out.append("): ");
            let ret = trim_text(group_or(rec, 2, "void"));
            out.append(ret.as_str());
            out
        },
        SigStyle::Arrow => {
            let mut out = name.to_owned();
            out.append(" = () => ...");
            out
        },
        SigStyle::TsClass => {
            let mut out = "class ".to_owned();
            out.append(name);
            if rec.groups.len() > 1 {
                match &rec.groups[1] {
                    Some(parent) => {
                        out.append(" extends ");
                        out.append(parent.as_str());
                    },
                    None => {},
                }
            }
            out
        },
        SigStyle::PyFn => {
            let mut out = "def ".to_owned();
            out.append(name);
            out.append("(");
            let p = simplify_params(group_or(rec, 1, ""));
            out.append(p.as_str());
            out.append(") -> ");
            let ret = trim_text(group_or(rec, 2, "None"));
            out.append(ret.as_str());
            out
        },
        SigStyle::PyClass => {
            let mut out = "class ".to_owned();
            out.append(name);
            if rec.groups.len() > 1 {
                match &rec.groups[1] {
                    Some(bases) => {
                        out.append("(");
                        out.append(bases.as_str());
                        out.append(")");
                    },
                    None => {},
                }
            }
            out
        },
        SigStyle::GoFn => {
            let mut has2 = false;
            if rec.groups.len() > 2 {
                match &rec.groups[2] {
                    Some(_) => {
                        has2 = true;
                    },
                    None => {},
                }
            }
            let raw: &str = if has2 {
                match &rec.groups[2] {
                    Some(s) => s.as_str(),
                    None => "",
                }
            } else {
                group_or(rec, 3, "")
            };
            let ret = trim_text(raw);
            let mut out = "func ".to_owned();
            out.append(name);
            out.append("(");
            let p = simplify_params(group_or(rec, 1, ""));
            out.append(p.as_str());
            if ret.as_str().unicode_len() == 0 {
                out.append(")");
            } else {
                out.append(") ");
                out.append(ret.as_str());
            }
            out
        },
        SigStyle::GoStruct => {
            let mut out = "type ".to_owned();
            out.append(name);
            out.append(" struct");
            out
        },
        SigStyle::GoInterface => {
            let mut out = "type ".to_owned();
            out.append(name);
            out.append(" interface");
            out
        },
        SigStyle::Keyword => {
            let kw: &str = match kind {
                SymbolKind::Function => "fn",
                SymbolKind::Struct => "struct",
                SymbolKind::Enum => "enum",
                SymbolKind::Trait => "trait",
                SymbolKind::Class => "class",
                SymbolKind::Interface => "interface",
                SymbolKind::Type => "type",
            };
            let mut out = kw.to_owned();
            out.append(" ");
            out.append(name);
            out
        },
    }
}

/// Append one symbol per capture record: name from group 1 of the match,
/// id `path:name`, 1-based line from the match offset, and the style's
/// display signature. Symbols already collected stay untouched.
pub fn symbols_from_captures(
    out: &mut Vec<Symbol>,
    path: &str,
    content: &[u8],
    caps: &Vec<CaptureRec>,
    kind: SymbolKind,
    style: SigStyle,
)
    requires
        content@.len() < usize::MAX,
        forall|i: int| 0 <= i < caps@.len() ==> (#[trigger] caps@[i])@.start <= content@.len(),
    ensures
        final(out)@.len() == old(out)@.len() + caps@.len(),
        forall|i: int| 0 <= i < old(out)@.len() ==> #[trigger] final(out)@[i] == old(out)@[i],
        forall|i: int|
            0 <= i < caps@.len() ==> (#[trigger] final(out)@[old(out)@.len() + i])@ == spec_symbol(
                path@,
                content@,
                kind,
                style,
                caps@[i]@,
            ),
{
    let base = out.len();
    let mut i: usize = 0;
    while i < caps.len()
        invariant
            i <= caps@.len(),
            content@.len() < usize::MAX,
            base == old(out)@.len(),
            forall|k: int| 0 <= k < caps@.len() ==> (#[trigger] caps@[k])@.start <= content@.len(),
            out@.len() == base + i,
            forall|k: int| 0 <= k < base ==> #[trigger] out@[k] == old(out)@[k],
            forall|k: int|
                0 <= k < i ==> (#[trigger] out@[base + k])@ == spec_symbol(
                    path@,
                    content@,
                    kind,
                    style,
                    caps@[k]@,
                ),
        decreases caps@.len() - i,
    {
        let rec = &caps[i];
        let name = group_or(rec, 0, "");
        let mut id = path.to_owned();
        id.append(":");
        id.append(name);
        let line = find_line_number(content, rec.start);
        let signature = build_signature(style, kind, rec);
        out.push(
            Symbol {
                id,
                name: name.to_owned(),
                file: path.to_owned(),
                line,
                kind,
                signature,
                summary: String::new(),
                depends_on: Vec::new(),
                depended_by: Vec::new(),
                embedding: Vec::new(),
            },
        );
        proof {
            let m = out@[out@.len() - 1]@;
            assert(m.depends_on =~= Seq::<Seq<char>>::empty());
            assert(m.depended_by =~= Seq::<Seq<char>>::empty());
            assert(m.embedding =~= Seq::<i32>::empty());
            assert(m == spec_symbol(path@, content@, kind, style, caps@[i as int]@));
        }
        i = i + 1;
    }
}

/// The import text `t` came from group `primary` or group `fallback` of
/// some capture record.
pub open spec fn import_from(
    t: Seq<char>,
    caps: Seq<CaptureModel>,
    primary: int,
    fallback: int,
) -> bool {
    exists|k: int|
        0 <= k < caps.len() && (t == spec_group_or(#[trigger] caps[k], primary, ""@) || t
            == spec_group_or(caps[k], fallback, ""@))
}

/// The symbols a capture-record sequence yields, in match order, under a
/// fixed kind and style.
pub open spec fn symbols_for(
    path: Seq<char>,
    content: Seq<u8>,
    kind: SymbolKind,
    style: SigStyle,
    recs: Seq<CaptureModel>,
) -> Seq<SymbolModel> {
    Seq::new(recs.len(), |i: int| spec_symbol(path, content, kind, style, recs[i]))
}

/// The segment is exactly the symbols of some capture-record sequence, in
/// match order, under the given kind and style.
pub open spec fn block_from_captures(
    seg: Seq<SymbolModel>,
    path: Seq<char>,
    content: Seq<u8>,
    kind: SymbolKind,
    style: SigStyle,
) -> bool {
    exists|recs: Seq<CaptureModel>| seg == #[trigger] symbols_for(path, content, kind, style, recs)
}

/// Every text of `seg` is an import payload of some record of `recs`.
pub open spec fn all_imports_from(
    seg: Seq<Seq<char>>,
    recs: Seq<CaptureModel>,
    primary: int,
    fallback: int,
) -> bool {
    forall|i: int| 0 <= i < seg.len() ==> import_from(#[trigger] seg[i], recs, primary, fallback)
}

/// The appended imports all come from one capture-record sequence.
pub open spec fn imports_appended(seg: Seq<Seq<char>>, primary: int, fallback: int) -> bool {
    exists|recs: Seq<CaptureModel>| #[trigger] all_imports_from(seg, recs, primary, fallback)
}

/// The mathematical values of a symbol vector.
pub open spec fn sym_models(v: Seq<Symbol>) -> Seq<SymbolModel> {
    v.map_values(|x: Symbol| x@)
}

/// The mathematical values of an import vector.
pub open spec fn imp_models(v: Seq<String>) -> Seq<Seq<char>> {
    v.map_values(|x: String| x@)
}

/// What Rust extraction appends: function symbols (Rust signature form),
/// then structs, enums and traits in keyword form, each group in match
/// order.
pub open spec fn rust_symbol_blocks(seg: Seq<SymbolModel>, path: Seq<char>, content: Seq<u8>) -> bool {
    exists|a: int, b: int, c: int|
        #![trigger seg.subrange(0, a), seg.subrange(a, b), seg.subrange(b, c)]
        0 <= a <= b <= c <= seg.len() && block_from_captures(
            seg.subrange(0, a),
            path,
            content,
            SymbolKind::Function,
            SigStyle::RustFn,
        ) && block_from_captures(
            seg.subrange(a, b),
            path,
            content,
            SymbolKind::Struct,
            SigStyle::Keyword,
        ) && block_from_captures(
            seg.subrange(b, c),
            path,
            content,
            SymbolKind::Enum,
            SigStyle::Keyword,
        ) && block_from_captures(
            seg.subrange(c, seg.len() as int),
            path,
            content,
            SymbolKind::Trait,
            SigStyle::Keyword,
        )
}

/// What TypeScript/JavaScript extraction appends: function declarations,
/// arrow functions, classes, interfaces, then type aliases, each group in
/// match order.
pub open spec fn ts_symbol_blocks(seg: Seq<SymbolModel>, path: Seq<char>, content: Seq<u8>) -> bool {
    exists|a: int, b: int, c: int, d: int|
        #![trigger seg.subrange(0, a), seg.subrange(a, b), seg.subrange(b, c), seg.subrange(c, d)]
        0 <= a <= b <= c <= d <= seg.len() && block_from_captures(
            seg.subrange(0, a),
            path,
            content,
            SymbolKind::Function,
            SigStyle::TsFn,
        ) && block_from_captures(
            seg.subrange(a, b),
            path,
            content,
            SymbolKind::Function,
            SigStyle::Arrow,
        ) && block_from_captures(
            seg.subrange(b, c),
            path,
            content,
            SymbolKind::Class,
            SigStyle::TsClass,
        ) && block_from_captures(
            seg.subrange(c, d),
            path,
            content,
            SymbolKind::Interface,
            SigStyle::Keyword,
        ) && block_from_captures(
            seg.subrange(d, seg.len() as int),
            path,
            content,
            SymbolKind::Type,
            SigStyle::Keyword,
        )
}

/// What Python extraction appends: functions, then classes, each group in
/// match order.
pub open spec fn py_symbol_blocks(seg: Seq<SymbolModel>, path: Seq<char>, content: Seq<u8>) -> bool {
    exists|a: int|
        #![trigger seg.subrange(0, a)]
        0 <= a <= seg.len() && block_from_captures(
            seg.subrange(0, a),
            path,
            content,
            SymbolKind::Function,
            SigStyle::PyFn,
        ) && block_from_captures(
            seg.subrange(a, seg.len() as int),
            path,
            content,
            SymbolKind::Class,
            SigStyle::PyClass,
        )
}

/// What Go extraction appends: functions, struct types, then interface
/// types, each group in match order.
pub open spec fn go_symbol_blocks(seg: Seq<SymbolModel>, path: Seq<char>, content: Seq<u8>) -> bool {
    exists|a: int, b: int|
        #![trigger seg.subrange(0, a), seg.subrange(a, b)]
        0 <= a <= b <= seg.len() && block_from_captures(
            seg.subrange(0, a),
            path,
            content,
            SymbolKind::Function,
            SigStyle::GoFn,
        ) && block_from_captures(
            seg.subrange(a, b),
            path,
            content,
            SymbolKind::Struct,
            SigStyle::GoStruct,
        ) && block_from_captures(
            seg.subrange(b, seg.len() as int),
            path,
            content,
            SymbolKind::Interface,
            SigStyle::GoInterface,
        )
}

/// Collect the import texts: group `primary` of each record, or group
/// `fallback` where the primary is absent; records with neither are
/// skipped.
pub fn imports_from_captures(caps: &Vec<CaptureRec>, primary: usize, fallback: usize) -> (out: Vec<
    String,
>)
    ensures
        forall|i: int|
            0 <= i < out@.len() ==> import_from(
                (#[trigger] out@[i])@,
                caps@.map_values(|c: CaptureRec| c@),
                primary as int,
                fallback as int,
            ),
{
    let ghost cm = caps@.map_values(|c: CaptureRec| c@);
    let mut out: Vec<String> = Vec::new();
    let mut i: usize = 0;
    while i < caps.len()
        invariant
            i <= caps@.len(),
            cm == caps@.map_values(|c: CaptureRec| c@),
            forall|t: int|
                0 <= t < out@.len() ==> import_from(
                    (#[trigger] out@[t])@,
                    cm,
                    primary as int,
                    fallback as int,
                ),
        decreases caps@.len() - i,
    {
        let rec = &caps[i];
        let mut picked: Option<String> = None;
        if primary < rec.groups.len() {
            match &rec.groups[primary] {
                Some(s) => {
                    picked = Some(s.as_str().to_owned());
                    proof {
                        assert(picked->0@ == spec_group_or(caps@[i as int]@, primary as int, ""@));
                    }
                },
                None => {},
            }
        }
        if picked.is_none() && fallback < rec.groups.len() {
            match &rec.groups[fallback] {
                Some(s) => {
                    picked = Some(s.as_str().to_owned());
                    proof {
                        assert(picked->0@ == spec_group_or(caps@[i as int]@, fallback as int, ""@));
                    }
                },
                None => {},
            }
        }
        let ghost oldout = out@;
        match picked {
            Some(text) => {
                out.push(text);
                proof {
                    assert forall|t: int|
                        0 <= t < out@.len() implies import_from(
                        (#[trigger] out@[t])@,
                        cm,
                        primary as int,
                        fallback as int,
                    ) by {
                        if t < oldout.len() {
                            assert(out@[t] == oldout[t]);
                            assert(import_from(oldout[t]@, cm, primary as int, fallback as int));
                        } else {
                            assert(cm[i as int] == caps@[i as int]@);
                            assert(out@[t]@ == spec_group_or(cm[i as int], primary as int, ""@)
                                || out@[t]@ == spec_group_or(cm[i as int], fallback as int, ""@));
                        }
                    }
                }
            },
            None => {},
        }
        i = i + 1;
    }
    out
}


/// The pattern set of the symbol extractor, one compiled expression per
/// construct and language.
pub struct SymbolParser {
    rust_fn: regex::Regex,
    rust_struct: regex::Regex,
    rust_enum: regex::Regex,
    rust_trait: regex::Regex,
    rust_use: regex::Regex,
    ts_fn: regex::Regex,
    ts_arrow: regex::Regex,
    ts_class: regex::Regex,
    ts_interface: regex::Regex,
    ts_type: regex::Regex,
    ts_import: regex::Regex,
    py_fn: regex::Regex,
    py_class: regex::Regex,
    py_import: regex::Regex,
    go_fn: regex::Regex,
    go_struct: regex::Regex,
    go_interface: regex::Regex,
}

impl SymbolParser {
    /// Compile the pattern set; `None` when any pattern is rejected by the
    /// regex engine.
    pub fn new() -> (r: Option<SymbolParser>)
    {
        let rust_fn = match compile(
            r"(?m)^\s*(?:pub\s+)?(?:async\s+)?fn\s+(\w+)\s*(?:<[^>]*>)?\s*\(([^)]*)\)(?:\s*->\s*([^\{]+))?\s*\{",
        ) {
            Some(re) => re,
            None => {
                return None;
            },
        };
        let rust_struct = match compile(r"(?m)^\s*(?:pub\s+)?struct\s+(\w+)(?:<[^>]*>)?") {
            Some(re) => re,
            None => {
                return None;
            },
        };
        let rust_enum = match compile(r"(?m)^\s*(?:pub\s+)?enum\s+(\w+)(?:<[^>]*>)?") {
            Some(re) => re,
            None => {
                return None;
            },
        };
        let rust_trait = match compile(r"(?m)^\s*(?:pub\s+)?trait\s+(\w+)(?:<[^>]*>)?") {
            Some(re) => re,
            None => {
                return None;
            },
        };
        let rust_use = match compile(r"(?m)^\s*use\s+([^;]+);") {
            Some(re) => re,
            None => {
                return None;
            },
        };
        let ts_fn = match compile(
            r"(?m)^\s*(?:export\s+)?(?:async\s+)?function\s+(\w+)\s*(?:<[^>]*>)?\s*\(([^)]*)\)(?:\s*:\s*([^\{]+))?\s*\{",
        ) {
            Some(re) => re,
            None => {
                return None;
            },
        };
        let ts_arrow = match compile(
            r"(?m)^\s*(?:export\s+)?(?:const|let)\s+(\w+)\s*(?::\s*[^=]+)?\s*=\s*(?:async\s+)?\([^)]*\)\s*(?::\s*[^=]+)?\s*=>",
        ) {
            Some(re) => re,
            None => {
                return None;
            },
        };
        let ts_class = match compile(
            r"(?m)^\s*(?:export\s+)?class\s+(\w+)(?:\s+extends\s+(\w+))?(?:\s+implements\s+([^{]+))?\s*\{",
        ) {
            Some(re) => re,
            None => {
                return None;
            },
        };
        let ts_interface = match compile(
            r"(?m)^\s*(?:export\s+)?interface\s+(\w+)(?:<[^>]*>)?(?:\s+extends\s+([^{]+))?\s*\{",
        ) {
            Some(re) => re,
            None => {
                return None;
            },
        };
        let ts_type = match compile(r"(?m)^\s*(?:export\s+)?type\s+(\w+)(?:<[^>]*>)?\s*=") {
            Some(re) => re,
            None => {
                return None;
            },
        };
        let ts_import = match compile(
            "(?m)^\\s*import\\s+(?:\\{[^}]+\\}|[^;]+)\\s+from\\s+['\"]([^'\"]+)['\"]",
        ) {
            Some(re) => re,
            None => {
                return None;
            },
        };
        let py_fn = match compile(
            r"(?m)^(?:async\s+)?def\s+(\w+)\s*\(([^)]*)\)(?:\s*->\s*([^:]+))?:",
        ) {
            Some(re) => re,
            None => {
                return None;
            },
        };
        let py_class = match compile(r"(?m)^class\s+(\w+)(?:\(([^)]*)\))?:") {
            Some(re) => re,
            None => {
                return None;
            },
        };
        let py_import = match compile(r"(?m)^(?:from\s+(\S+)\s+)?import\s+(.+)$") {
            Some(re) => re,
            None => {
                return None;
            },
        };
        let go_fn = match compile(
            r"(?m)^func\s+(?:\([^)]+\)\s+)?(\w+)\s*\(([^)]*)\)(?:\s*\(([^)]+)\)|\s*(\w+))?\s*\{",
        ) {
            Some(re) => re,
            None => {
                return None;
            },
        };
        let go_struct = match compile(r"(?m)^type\s+(\w+)\s+struct\s*\{") {
            Some(re) => re,
            None => {
                return None;
            },
        };
        let go_interface = match compile(r"(?m)^type\s+(\w+)\s+interface\s*\{") {
            Some(re) => re,
            None => {
                return None;
            },
        };
        Some(
            SymbolParser {
                rust_fn,
                rust_struct,
                rust_enum,
                rust_trait,
                rust_use,
                ts_fn,
                ts_arrow,
                ts_class,
                ts_interface,
                ts_type,
                ts_import,
                py_fn,
                py_class,
                py_import,
                go_fn,
                go_struct,
                go_interface,
            },
        )
    }

    /// Extract symbols and imports from one file, by the language its
    /// extension selects. Every symbol belongs to this file, carries the
    /// `path:name` id, a 1-based line, and empty summary, dependency and
    /// embedding fields; the symbol list follows the language's pattern
    /// groups in match order; an unsupported language yields no symbols
    /// and no imports.
    #[verifier::rlimit(100)]
    pub fn parse_file(&self, path: &str, content: &str) -> (r: ParsedFile)
        requires
            content.spec_bytes().len() < usize::MAX,
        ensures
            r.path@ == path@,
            r.language@ == language_for(extension_of(path@)),
            r.lines as int == line_count(content.spec_bytes()),
            forall|i: int|
                0 <= i < r.symbols@.len() ==> extracted_symbol(
                    (#[trigger] r.symbols@[i])@,
                    path@,
                ),
            !(r.language@ == "rust"@ || r.language@ == "typescript"@ || r.language@
                == "javascript"@ || r.language@ == "python"@ || r.language@ == "go"@)
                ==> r.symbols@.len() == 0 && r.imports@.len() == 0,
            r.language@ == "rust"@ ==> rust_symbol_blocks(
                sym_models(r.symbols@),
                path@,
                content.spec_bytes(),
            ) && imports_appended(imp_models(r.imports@), 0, 0),
            r.language@ == "typescript"@ || r.language@ == "javascript"@ ==> ts_symbol_blocks(
                sym_models(r.symbols@),
                path@,
                content.spec_bytes(),
            ) && imports_appended(imp_models(r.imports@), 0, 0),
            r.language@ == "python"@ ==> py_symbol_blocks(
                sym_models(r.symbols@),
                path@,
                content.spec_bytes(),
            ) && imports_appended(imp_models(r.imports@), 0, 1),
            r.language@ == "go"@ ==> go_symbol_blocks(
                sym_models(r.symbols@),
                path@,
                content.spec_bytes(),
            ) && r.imports@.len() == 0,
    {
        let lang = detect_language(path);
        proof {
            reveal_strlit("rust");
            reveal_strlit("typescript");
            reveal_strlit("javascript");
            reveal_strlit("python");
            reveal_strlit("go");
            assert("rust"@.len() == 4);
            assert("typescript"@.len() == 10);
            assert("javascript"@.len() == 10);
            assert("python"@.len() == 6);
            assert("go"@.len() == 2);
        }
        let mut symbols: Vec<Symbol> = Vec::new();
        let mut imports: Vec<String> = Vec::new();
        if str_eq(lang.as_str(), "rust") {
            self.parse_rust(path, content, &mut symbols, &mut imports);
            proof {
                assert(sym_models(symbols@).subrange(0, symbols@.len() as int) =~= sym_models(
                    symbols@,
                ));
                assert(imp_models(imports@).subrange(0, imports@.len() as int) =~= imp_models(
                    imports@,
                ));
                assert(rust_symbol_blocks(sym_models(symbols@), path@, content.spec_bytes()));
                assert(imports_appended(imp_models(imports@), 0, 0));
            }
        } else if str_eq(lang.as_str(), "typescript") || str_eq(lang.as_str(), "javascript") {
            self.parse_typescript(path, content, &mut symbols, &mut imports);
            proof {
                assert(sym_models(symbols@).subrange(0, symbols@.len() as int) =~= sym_models(
                    symbols@,
                ));
                assert(imp_models(imports@).subrange(0, imports@.len() as int) =~= imp_models(
                    imports@,
                ));
                assert(ts_symbol_blocks(sym_models(symbols@), path@, content.spec_bytes()));
                assert(imports_appended(imp_models(imports@), 0, 0));
            }
        } else if str_eq(lang.as_str(), "python") {
            self.parse_python(path, content, &mut symbols, &mut imports);
            proof {
                assert(sym_models(symbols@).subrange(0, symbols@.len() as int) =~= sym_models(
                    symbols@,
                ));
                assert(imp_models(imports@).subrange(0, imports@.len() as int) =~= imp_models(
                    imports@,
                ));
                assert(py_symbol_blocks(sym_models(symbols@), path@, content.spec_bytes()));
                assert(imports_appended(imp_models(imports@), 0, 1));
            }
        } else if str_eq(lang.as_str(), "go") {
            self.parse_go(path, content, &mut symbols, &mut imports);
            proof {
                assert(sym_models(symbols@).subrange(0, symbols@.len() as int) =~= sym_models(
                    symbols@,
                ));
                assert(go_symbol_blocks(sym_models(symbols@), path@, content.spec_bytes()));
                assert(imports@.len() == 0);
            }
        }
        let lines = count_lines(content.as_bytes());
        ParsedFile { path: path.to_owned(), language: lang, symbols, imports, lines }
    }

    /// Rust: functions, structs, enums, traits; `use` imports.
    #[verifier::rlimit(100)]
    fn parse_rust(
        &self,
        path: &str,
        content: &str,
        symbols: &mut Vec<Symbol>,
        imports: &mut Vec<String>,
    )
        requires
            content.spec_bytes().len() < usize::MAX,
        ensures
            final(symbols)@.len() >= old(symbols)@.len(),
            forall|i: int|
                0 <= i < old(symbols)@.len() ==> #[trigger] final(symbols)@[i] == old(
                symbols)@[i],
            forall|i: int|
                old(symbols)@.len() <= i < final(symbols)@.len() ==> extracted_symbol(
                    (#[trigger] final(symbols)@[i])@,
                    path@,
                ),
            rust_symbol_blocks(
                sym_models(final(symbols)@).subrange(
                    old(symbols)@.len() as int,
                    final(symbols)@.len() as int,
                ),
                path@,
                content.spec_bytes(),
            ),
            final(imports)@.len() >= old(imports)@.len(),
            forall|i: int|
                0 <= i < old(imports)@.len() ==> #[trigger] final(imports)@[i] == old(
                imports)@[i],
            imports_appended(
                imp_models(final(imports)@).subrange(
                    old(imports)@.len() as int,
                    final(imports)@.len() as int,
                ),
                0,
                0,
            ),
    {
        let bytes = content.as_bytes();
        let fc = capture_records(&self.rust_fn, content);
        symbols_from_captures(symbols, path, bytes, &fc, SymbolKind::Function, SigStyle::RustFn);
        let ghost v1 = symbols@;
        let sc = capture_records(&self.rust_struct, content);
        symbols_from_captures(symbols, path, bytes, &sc, SymbolKind::Struct, SigStyle::Keyword);
        let ghost v2 = symbols@;
        let ec = capture_records(&self.rust_enum, content);
        symbols_from_captures(symbols, path, bytes, &ec, SymbolKind::Enum, SigStyle::Keyword);
        let ghost v3 = symbols@;
        let tc = capture_records(&self.rust_trait, content);
        symbols_from_captures(symbols, path, bytes, &tc, SymbolKind::Trait, SigStyle::Keyword);
        let ghost v4 = symbols@;
        let uc = capture_records(&self.rust_use, content);
        let mut found = imports_from_captures(&uc, 0, 0);
        let ghost f0 = found@;
        move_strings(imports, &mut found);
        proof {
            let cb = content.spec_bytes();
            assert(bytes@ == cb);
            let n0 = old(symbols)@.len() as int;
            let n1 = v1.len() as int;
            let n2 = v2.len() as int;
            let n3 = v3.len() as int;
            let n4 = v4.len() as int;
            assert(symbols@ == v4);
            let m = sym_models(symbols@);
            let seg = m.subrange(n0, n4);
            let c1 = fc@.map_values(|r: CaptureRec| r@);
            let c2 = sc@.map_values(|r: CaptureRec| r@);
            let c3 = ec@.map_values(|r: CaptureRec| r@);
            let c4 = tc@.map_values(|r: CaptureRec| r@);
            assert forall|k: int| 0 <= k < n0 implies #[trigger] symbols@[k] == old(symbols)@[k] by {
                assert(v4[k] == v3[k]);
                assert(v3[k] == v2[k]);
                assert(v2[k] == v1[k]);
            }
            assert(seg.subrange(0, n1 - n0) =~= symbols_for(path@, cb, SymbolKind::Function, SigStyle::RustFn, c1)) by {
                assert(seg.subrange(0, n1 - n0).len() == c1.len());
                assert forall|i: int| 0 <= i < c1.len() implies seg.subrange(0, n1 - n0)[i] == symbols_for(path@, cb, SymbolKind::Function, SigStyle::RustFn, c1)[i] by {
                    assert(seg.subrange(0, n1 - n0)[i] == m[n0 + i]);
                    assert(m[n0 + i] == symbols@[n0 + i]@);
                    assert(v4[n0 + i] == v3[n0 + i]);
                    assert(v3[n0 + i] == v2[n0 + i]);
                    assert(v2[n0 + i] == v1[n0 + i]);
                    assert(v1[n0 + i]@ == spec_symbol(path@, bytes@, SymbolKind::Function, SigStyle::RustFn, fc@[i]@));
                    assert(c1[i] == fc@[i]@);
                }
            }
            assert(block_from_captures(seg.subrange(0, n1 - n0), path@, cb, SymbolKind::Function, SigStyle::RustFn));
            assert(seg.subrange(n1 - n0, n2 - n0) =~= symbols_for(path@, cb, SymbolKind::Struct, SigStyle::Keyword, c2)) by {
                assert(seg.subrange(n1 - n0, n2 - n0).len() == c2.len());
                assert forall|i: int| 0 <= i < c2.len() implies seg.subrange(n1 - n0, n2 - n0)[i] == symbols_for(path@, cb, SymbolKind::Struct, SigStyle::Keyword, c2)[i] by {
                    assert(seg.subrange(n1 - n0, n2 - n0)[i] == m[n1 + i]);
                    assert(m[n1 + i] == symbols@[n1 + i]@);
                    assert(v4[n1 + i] == v3[n1 + i]);
                    assert(v3[n1 + i] == v2[n1 + i]);
                    assert(v2[n1 + i]@ == spec_symbol(path@, bytes@, SymbolKind::Struct, SigStyle::Keyword, sc@[i]@));
                    assert(c2[i] == sc@[i]@);
                }
            }
            assert(block_from_captures(seg.subrange(n1 - n0, n2 - n0), path@, cb, SymbolKind::Struct, SigStyle::Keyword));
            assert(seg.subrange(n2 - n0, n3 - n0) =~= symbols_for(path@, cb, SymbolKind::Enum, SigStyle::Keyword, c3)) by {
                assert(seg.subrange(n2 - n0, n3 - n0).len() == c3.len());
                assert forall|i: int| 0 <= i < c3.len() implies seg.subrange(n2 - n0, n3 - n0)[i] == symbols_for(path@, cb, SymbolKind::Enum, SigStyle::Keyword, c3)[i] by {
                    assert(seg.subrange(n2 - n0, n3 - n0)[i] == m[n2 + i]);
                    assert(m[n2 + i] == symbols@[n2 + i]@);
                    assert(v4[n2 + i] == v3[n2 + i]);
                    assert(v3[n2 + i]@ == spec_symbol(path@, bytes@, SymbolKind::Enum, SigStyle::Keyword, ec@[i]@));
                    assert(c3[i] == ec@[i]@);
                }
            }
            assert(block_from_captures(seg.subrange(n2 - n0, n3 - n0), path@, cb, SymbolKind::Enum, SigStyle::Keyword));
            assert(seg.subrange(n3 - n0, n4 - n0) =~= symbols_for(path@, cb, SymbolKind::Trait, SigStyle::Keyword, c4)) by {
                assert(seg.subrange(n3 - n0, n4 - n0).len() == c4.len());
                assert forall|i: int| 0 <= i < c4.len() implies seg.subrange(n3 - n0, n4 - n0)[i] == symbols_for(path@, cb, SymbolKind::Trait, SigStyle::Keyword, c4)[i] by {
                    assert(seg.subrange(n3 - n0, n4 - n0)[i] == m[n3 + i]);
                    assert(m[n3 + i] == symbols@[n3 + i]@);
                    assert(v4[n3 + i]@ == spec_symbol(path@, bytes@, SymbolKind::Trait, SigStyle::Keyword, tc@[i]@));
                    assert(c4[i] == tc@[i]@);
                }
            }
            assert(block_from_captures(seg.subrange(n3 - n0, n4 - n0), path@, cb, SymbolKind::Trait, SigStyle::Keyword));
            assert(rust_symbol_blocks(seg, path@, cb)) by {
                assert(seg.len() == n4 - n0);
                assert(block_from_captures(seg.subrange(0, n1 - n0), path@, cb, SymbolKind::Function, SigStyle::RustFn));
                assert(block_from_captures(seg.subrange(n1 - n0, n2 - n0), path@, cb, SymbolKind::Struct, SigStyle::Keyword));
                assert(block_from_captures(seg.subrange(n2 - n0, n3 - n0), path@, cb, SymbolKind::Enum, SigStyle::Keyword));
                assert(block_from_captures(seg.subrange(n3 - n0, n4 - n0), path@, cb, SymbolKind::Trait, SigStyle::Keyword));
            }
            assert forall|i: int| n0 <= i < n4 implies extracted_symbol((#[trigger] symbols@[i])@, path@) by {
                if i < n1 {
                    let j = i - (n0);
                    assert(v4[n0 + j] == v3[n0 + j]);
                    assert(v3[n0 + j] == v2[n0 + j]);
                    assert(v2[n0 + j] == v1[n0 + j]);
                    assert(v1[n0 + j]@ == spec_symbol(path@, bytes@, SymbolKind::Function, SigStyle::RustFn, fc@[j]@));
                    lemma_spec_symbol_extracted(path@, bytes@, SymbolKind::Function, SigStyle::RustFn, fc@[j]@);
                    assert(symbols@[i] == v4[n0 + j]);
                }
                else if i < n2 {
                    let j = i - (n1);
                    assert(v4[n1 + j] == v3[n1 + j]);
                    assert(v3[n1 + j] == v2[n1 + j]);
                    assert(v2[n1 + j]@ == spec_symbol(path@, bytes@, SymbolKind::Struct, SigStyle::Keyword, sc@[j]@));
                    lemma_spec_symbol_extracted(path@, bytes@, SymbolKind::Struct, SigStyle::Keyword, sc@[j]@);
                    assert(symbols@[i] == v4[n1 + j]);
                }
                else if i < n3 {
                    let j = i - (n2);
                    assert(v4[n2 + j] == v3[n2 + j]);
                    assert(v3[n2 + j]@ == spec_symbol(path@, bytes@, SymbolKind::Enum, SigStyle::Keyword, ec@[j]@));
                    lemma_spec_symbol_extracted(path@, bytes@, SymbolKind::Enum, SigStyle::Keyword, ec@[j]@);
                    assert(symbols@[i] == v4[n2 + j]);
                }
                else if i < n4 {
                    let j = i - (n3);
                    assert(v4[n3 + j]@ == spec_symbol(path@, bytes@, SymbolKind::Trait, SigStyle::Keyword, tc@[j]@));
                    lemma_spec_symbol_extracted(path@, bytes@, SymbolKind::Trait, SigStyle::Keyword, tc@[j]@);
                    assert(symbols@[i] == v4[n3 + j]);
                }
            }
            let m0 = old(imports)@.len() as int;
            let im = imp_models(imports@);
            let iseg = im.subrange(m0, imports@.len() as int);
            let ucm = uc@.map_values(|r: CaptureRec| r@);
            assert(all_imports_from(iseg, ucm, 0, 0)) by {
                assert forall|i: int| 0 <= i < iseg.len() implies import_from(#[trigger] iseg[i], ucm, 0, 0) by {
                    assert(iseg[i] == im[m0 + i]);
                    assert(im[m0 + i] == imports@[m0 + i]@);
                    assert(imports@[m0 + i]@ == f0[i]@);
                    assert(import_from(f0[i]@, ucm, 0, 0));
                }
            }
            assert(imports_appended(iseg, 0, 0));
        }
    }

    /// TypeScript and JavaScript: functions, arrow functions, classes,
    /// interfaces, type aliases; module imports.
    #[verifier::rlimit(100)]
    fn parse_typescript(
        &self,
        path: &str,
        content: &str,
        symbols: &mut Vec<Symbol>,
        imports: &mut Vec<String>,
    )
        requires
            content.spec_bytes().len() < usize::MAX,
        ensures
            final(symbols)@.len() >= old(symbols)@.len(),
            forall|i: int|
                0 <= i < old(symbols)@.len() ==> #[trigger] final(symbols)@[i] == old(
                symbols)@[i],
            forall|i: int|
                old(symbols)@.len() <= i < final(symbols)@.len() ==> extracted_symbol(
                    (#[trigger] final(symbols)@[i])@,
                    path@,
                ),
            ts_symbol_blocks(
                sym_models(final(symbols)@).subrange(
                    old(symbols)@.len() as int,
                    final(symbols)@.len() as int,
                ),
                path@,
                content.spec_bytes(),
            ),
            final(imports)@.len() >= old(imports)@.len(),
            forall|i: int|
                0 <= i < old(imports)@.len() ==> #[trigger] final(imports)@[i] == old(
                imports)@[i],
            imports_appended(
                imp_models(final(imports)@).subrange(
                    old(imports)@.len() as int,
                    final(imports)@.len() as int,
                ),
                0,
                0,
            ),
    {
        let bytes = content.as_bytes();
        let fc = capture_records(&self.ts_fn, content);
        symbols_from_captures(symbols, path, bytes, &fc, SymbolKind::Function, SigStyle::TsFn);
        let ghost v1 = symbols@;
        let ac = capture_records(&self.ts_arrow, content);
        symbols_from_captures(symbols, path, bytes, &ac, SymbolKind::Function, SigStyle::Arrow);
        let ghost v2 = symbols@;
        let cc = capture_records(&self.ts_class, content);
        symbols_from_captures(symbols, path, bytes, &cc, SymbolKind::Class, SigStyle::TsClass);
        let ghost v3 = symbols@;
        let ic = capture_records(&self.ts_interface, content);
        symbols_from_captures(symbols, path, bytes, &ic, SymbolKind::Interface, SigStyle::Keyword);
        let ghost v4 = symbols@;
        let yc = capture_records(&self.ts_type, content);
        symbols_from_captures(symbols, path, bytes, &yc, SymbolKind::Type, SigStyle::Keyword);
        let ghost v5 = symbols@;
        let uc = capture_records(&self.ts_import, content);
        let mut found = imports_from_captures(&uc, 0, 0);
        let ghost f0 = found@;
        move_strings(imports, &mut found);
        proof {
            let cb = content.spec_bytes();
            assert(bytes@ == cb);
            let n0 = old(symbols)@.len() as int;
            let n1 = v1.len() as int;
            let n2 = v2.len() as int;
            let n3 = v3.len() as int;
            let n4 = v4.len() as int;
            let n5 = v5.len() as int;
            assert(symbols@ == v5);
            let m = sym_models(symbols@);
            let seg = m.subrange(n0, n5);
            let c1 = fc@.map_values(|r: CaptureRec| r@);
            let c2 = ac@.map_values(|r: CaptureRec| r@);
            let c3 = cc@.map_values(|r: CaptureRec| r@);
            let c4 = ic@.map_values(|r: CaptureRec| r@);
            let c5 = yc@.map_values(|r: CaptureRec| r@);
            assert forall|k: int| 0 <= k < n0 implies #[trigger] symbols@[k] == old(symbols)@[k] by {
                assert(v5[k] == v4[k]);
                assert(v4[k] == v3[k]);
                assert(v3[k] == v2[k]);
                assert(v2[k] == v1[k]);
            }
            assert(seg.subrange(0, n1 - n0) =~= symbols_for(path@, cb, SymbolKind::Function, SigStyle::TsFn, c1)) by {
                assert(seg.subrange(0, n1 - n0).len() == c1.len());
                assert forall|i: int| 0 <= i < c1.len() implies seg.subrange(0, n1 - n0)[i] == symbols_for(path@, cb, SymbolKind::Function, SigStyle::TsFn, c1)[i] by {
                    assert(seg.subrange(0, n1 - n0)[i] == m[n0 + i]);
                    assert(m[n0 + i] == symbols@[n0 + i]@);
                    assert(v5[n0 + i] == v4[n0 + i]);
                    assert(v4[n0 + i] == v3[n0 + i]);
                    assert(v3[n0 + i] == v2[n0 + i]);
                    assert(v2[n0 + i] == v1[n0 + i]);
                    assert(v1[n0 + i]@ == spec_symbol(path@, bytes@, SymbolKind::Function, SigStyle::TsFn, fc@[i]@));
                    assert(c1[i] == fc@[i]@);
                }
            }
            assert(block_from_captures(seg.subrange(0, n1 - n0), path@, cb, SymbolKind::Function, SigStyle::TsFn));
            assert(seg.subrange(n1 - n0, n2 - n0) =~= symbols_for(path@, cb, SymbolKind::Function, SigStyle::Arrow, c2)) by {
                assert(seg.subrange(n1 - n0, n2 - n0).len() == c2.len());
                assert forall|i: int| 0 <= i < c2.len() implies seg.subrange(n1 - n0, n2 - n0)[i] == symbols_for(path@, cb, SymbolKind::Function, SigStyle::Arrow, c2)[i] by {
                    assert(seg.subrange(n1 - n0, n2 - n0)[i] == m[n1 + i]);
                    assert(m[n1 + i] == symbols@[n1 + i]@);
                    assert(v5[n1 + i] == v4[n1 + i]);
                    assert(v4[n1 + i] == v3[n1 + i]);
                    assert(v3[n1 + i] == v2[n1 + i]);
                    assert(v2[n1 + i]@ == spec_symbol(path@, bytes@, SymbolKind::Function, SigStyle::Arrow, ac@[i]@));
                    assert(c2[i] == ac@[i]@);
                }
            }
            assert(block_from_captures(seg.subrange(n1 - n0, n2 - n0), path@, cb, SymbolKind::Function, SigStyle::Arrow));
            assert(seg.subrange(n2 - n0, n3 - n0) =~= symbols_for(path@, cb, SymbolKind::Class, SigStyle::TsClass, c3)) by {
                assert(seg.subrange(n2 - n0, n3 - n0).len() == c3.len());
                assert forall|i: int| 0 <= i < c3.len() implies seg.subrange(n2 - n0, n3 - n0)[i] == symbols_for(path@, cb, SymbolKind::Class, SigStyle::TsClass, c3)[i] by {
                    assert(seg.subrange(n2 - n0, n3 - n0)[i] == m[n2 + i]);
                    assert(m[n2 + i] == symbols@[n2 + i]@);
                    assert(v5[n2 + i] == v4[n2 + i]);
                    assert(v4[n2 + i] == v3[n2 + i]);
                    assert(v3[n2 + i]@ == spec_symbol(path@, bytes@, SymbolKind::Class, SigStyle::TsClass, cc@[i]@));
                    assert(c3[i] == cc@[i]@);
                }
            }
            assert(block_from_captures(seg.subrange(n2 - n0, n3 - n0), path@, cb, SymbolKind::Class, SigStyle::TsClass));
            assert(seg.subrange(n3 - n0, n4 - n0) =~= symbols_for(path@, cb, SymbolKind::Interface, SigStyle::Keyword, c4)) by {
                assert(seg.subrange(n3 - n0, n4 - n0).len() == c4.len());
                assert forall|i: int| 0 <= i < c4.len() implies seg.subrange(n3 - n0, n4 - n0)[i] == symbols_for(path@, cb, SymbolKind::Interface, SigStyle::Keyword, c4)[i] by {
                    assert(seg.subrange(n3 - n0, n4 - n0)[i] == m[n3 + i]);
                    assert(m[n3 + i] == symbols@[n3 + i]@);
                    assert(v5[n3 + i] == v4[n3 + i]);
                    assert(v4[n3 + i]@ == spec_symbol(path@, bytes@, SymbolKind::Interface, SigStyle::Keyword, ic@[i]@));
                    assert(c4[i] == ic@[i]@);
                }
            }
            assert(block_from_captures(seg.subrange(n3 - n0, n4 - n0), path@, cb, SymbolKind::Interface, SigStyle::Keyword));
            assert(seg.subrange(n4 - n0, n5 - n0) =~= symbols_for(path@, cb, SymbolKind::Type, SigStyle::Keyword, c5)) by {
                assert(seg.subrange(n4 - n0, n5 - n0).len() == c5.len());
                assert forall|i: int| 0 <= i < c5.len() implies seg.subrange(n4 - n0, n5 - n0)[i] == symbols_for(path@, cb, SymbolKind::Type, SigStyle::Keyword, c5)[i] by {
                    assert(seg.subrange(n4 - n0, n5 - n0)[i] == m[n4 + i]);
                    assert(m[n4 + i] == symbols@[n4 + i]@);
                    assert(v5[n4 + i]@ == spec_symbol(path@, bytes@, SymbolKind::Type, SigStyle::Keyword, yc@[i]@));
                    assert(c5[i] == yc@[i]@);
                }
            }
            assert(block_from_captures(seg.subrange(n4 - n0, n5 - n0), path@, cb, SymbolKind::Type, SigStyle::Keyword));
            assert(ts_symbol_blocks(seg, path@, cb)) by {
                assert(seg.len() == n5 - n0);
                assert(block_from_captures(seg.subrange(0, n1 - n0), path@, cb, SymbolKind::Function, SigStyle::TsFn));
                assert(block_from_captures(seg.subrange(n1 - n0, n2 - n0), path@, cb, SymbolKind::Function, SigStyle::Arrow));
                assert(block_from_captures(seg.subrange(n2 - n0, n3 - n0), path@, cb, SymbolKind::Class, SigStyle::TsClass));
                assert(block_from_captures(seg.subrange(n3 - n0, n4 - n0), path@, cb, SymbolKind::Interface, SigStyle::Keyword));
                assert(block_from_captures(seg.subrange(n4 - n0, n5 - n0), path@, cb, SymbolKind::Type, SigStyle::Keyword));
            }
            assert forall|i: int| n0 <= i < n5 implies extracted_symbol((#[trigger] symbols@[i])@, path@) by {
                if i < n1 {
                    let j = i - (n0);
                    assert(v5[n0 + j] == v4[n0 + j]);
                    assert(v4[n0 + j] == v3[n0 + j]);
                    assert(v3[n0 + j] == v2[n0 + j]);
                    assert(v2[n0 + j] == v1[n0 + j]);
                    assert(v1[n0 + j]@ == spec_symbol(path@, bytes@, SymbolKind::Function, SigStyle::TsFn, fc@[j]@));
                    lemma_spec_symbol_extracted(path@, bytes@, SymbolKind::Function, SigStyle::TsFn, fc@[j]@);
                    assert(symbols@[i] == v5[n0 + j]);
                }
                else if i < n2 {
                    let j = i - (n1);
                    assert(v5[n1 + j] == v4[n1 + j]);
                    assert(v4[n1 + j] == v3[n1 + j]);
                    assert(v3[n1 + j] == v2[n1 + j]);
                    assert(v2[n1 + j]@ == spec_symbol(path@, bytes@, SymbolKind::Function, SigStyle::Arrow, ac@[j]@));
                    lemma_spec_symbol_extracted(path@, bytes@, SymbolKind::Function, SigStyle::Arrow, ac@[j]@);
                    assert(symbols@[i] == v5[n1 + j]);
                }
                else if i < n3 {
                    let j = i - (n2);
                    assert(v5[n2 + j] == v4[n2 + j]);
                    assert(v4[n2 + j] == v3[n2 + j]);
                    assert(v3[n2 + j]@ == spec_symbol(path@, bytes@, SymbolKind::Class, SigStyle::TsClass, cc@[j]@));
                    lemma_spec_symbol_extracted(path@, bytes@, SymbolKind::Class, SigStyle::TsClass, cc@[j]@);
                    assert(symbols@[i] == v5[n2 + j]);
                }
                else if i < n4 {
                    let j = i - (n3);
                    assert(v5[n3 + j] == v4[n3 + j]);
                    assert(v4[n3 + j]@ == spec_symbol(path@, bytes@, SymbolKind::Interface, SigStyle::Keyword, ic@[j]@));
                    lemma_spec_symbol_extracted(path@, bytes@, SymbolKind::Interface, SigStyle::Keyword, ic@[j]@);
                    assert(symbols@[i] == v5[n3 + j]);
                }
                else if i < n5 {
                    let j = i - (n4);
                    assert(v5[n4 + j]@ == spec_symbol(path@, bytes@, SymbolKind::Type, SigStyle::Keyword, yc@[j]@));
                    lemma_spec_symbol_extracted(path@, bytes@, SymbolKind::Type, SigStyle::Keyword, yc@[j]@);
                    assert(symbols@[i] == v5[n4 + j]);
                }
            }
            let m0 = old(imports)@.len() as int;
            let im = imp_models(imports@);
            let iseg = im.subrange(m0, imports@.len() as int);
            let ucm = uc@.map_values(|r: CaptureRec| r@);
            assert(all_imports_from(iseg, ucm, 0, 0)) by {
                assert forall|i: int| 0 <= i < iseg.len() implies import_from(#[trigger] iseg[i], ucm, 0, 0) by {
                    assert(iseg[i] == im[m0 + i]);
                    assert(im[m0 + i] == imports@[m0 + i]@);
                    assert(imports@[m0 + i]@ == f0[i]@);
                    assert(import_from(f0[i]@, ucm, 0, 0));
                }
            }
            assert(imports_appended(iseg, 0, 0));
        }
    }

    /// Python: functions and classes; `import` and `from ... import`.
    #[verifier::rlimit(100)]
    fn parse_python(
        &self,
        path: &str,
        content: &str,
        symbols: &mut Vec<Symbol>,
        imports: &mut Vec<String>,
    )
        requires
            content.spec_bytes().len() < usize::MAX,
        ensures
            final(symbols)@.len() >= old(symbols)@.len(),
            forall|i: int|
                0 <= i < old(symbols)@.len() ==> #[trigger] final(symbols)@[i] == old(
                symbols)@[i],
            forall|i: int|
                old(symbols)@.len() <= i < final(symbols)@.len() ==> extracted_symbol(
                    (#[trigger] final(symbols)@[i])@,
                    path@,
                ),
            py_symbol_blocks(
                sym_models(final(symbols)@).subrange(
                    old(symbols)@.len() as int,
                    final(symbols)@.len() as int,
                ),
                path@,
                content.spec_bytes(),
            ),
            final(imports)@.len() >= old(imports)@.len(),
            forall|i: int|
                0 <= i < old(imports)@.len() ==> #[trigger] final(imports)@[i] == old(
                imports)@[i],
            imports_appended(
                imp_models(final(imports)@).subrange(
                    old(imports)@.len() as int,
                    final(imports)@.len() as int,
                ),
                0,
                1,
            ),
    {
        let bytes = content.as_bytes();
        let fc = capture_records(&self.py_fn, content);
        symbols_from_captures(symbols, path, bytes, &fc, SymbolKind::Function, SigStyle::PyFn);
        let ghost v1 = symbols@;
        let cc = capture_records(&self.py_class, content);
        symbols_from_captures(symbols, path, bytes, &cc, SymbolKind::Class, SigStyle::PyClass);
        let ghost v2 = symbols@;
        let uc = capture_records(&self.py_import, content);
        let mut found = imports_from_captures(&uc, 0, 1);
        let ghost f0 = found@;
        move_strings(imports, &mut found);
        proof {
            let cb = content.spec_bytes();
            assert(bytes@ == cb);
            let n0 = old(symbols)@.len() as int;
            let n1 = v1.len() as int;
            let n2 = v2.len() as int;
            assert(symbols@ == v2);
            let m = sym_models(symbols@);
            let seg = m.subrange(n0, n2);
            let c1 = fc@.map_values(|r: CaptureRec| r@);
            let c2 = cc@.map_values(|r: CaptureRec| r@);
            assert forall|k: int| 0 <= k < n0 implies #[trigger] symbols@[k] == old(symbols)@[k] by {
                assert(v2[k] == v1[k]);
            }
            assert(seg.subrange(0, n1 - n0) =~= symbols_for(path@, cb, SymbolKind::Function, SigStyle::PyFn, c1)) by {
                assert(seg.subrange(0, n1 - n0).len() == c1.len());
                assert forall|i: int| 0 <= i < c1.len() implies seg.subrange(0, n1 - n0)[i] == symbols_for(path@, cb, SymbolKind::Function, SigStyle::PyFn, c1)[i] by {
                    assert(seg.subrange(0, n1 - n0)[i] == m[n0 + i]);
                    assert(m[n0 + i] == symbols@[n0 + i]@);
                    assert(v2[n0 + i] == v1[n0 + i]);
                    assert(v1[n0 + i]@ == spec_symbol(path@, bytes@, SymbolKind::Function, SigStyle::PyFn, fc@[i]@));
                    assert(c1[i] == fc@[i]@);
                }
            }
            assert(block_from_captures(seg.subrange(0, n1 - n0), path@, cb, SymbolKind::Function, SigStyle::PyFn));
            assert(seg.subrange(n1 - n0, n2 - n0) =~= symbols_for(path@, cb, SymbolKind::Class, SigStyle::PyClass, c2)) by {
                assert(seg.subrange(n1 - n0, n2 - n0).len() == c2.len());
                assert forall|i: int| 0 <= i < c2.len() implies seg.subrange(n1 - n0, n2 - n0)[i] == symbols_for(path@, cb, SymbolKind::Class, SigStyle::PyClass, c2)[i] by {
                    assert(seg.subrange(n1 - n0, n2 - n0)[i] == m[n1 + i]);
                    assert(m[n1 + i] == symbols@[n1 + i]@);
                    assert(v2[n1 + i]@ == spec_symbol(path@, bytes@, SymbolKind::Class, SigStyle::PyClass, cc@[i]@));
                    assert(c2[i] == cc@[i]@);
                }
            }
            assert(block_from_captures(seg.subrange(n1 - n0, n2 - n0), path@, cb, SymbolKind::Class, SigStyle::PyClass));
            assert(py_symbol_blocks(seg, path@, cb)) by {
                assert(seg.len() == n2 - n0);
                assert(block_from_captures(seg.subrange(0, n1 - n0), path@, cb, SymbolKind::Function, SigStyle::PyFn));
                assert(block_from_captures(seg.subrange(n1 - n0, n2 - n0), path@, cb, SymbolKind::Class, SigStyle::PyClass));
            }
            assert forall|i: int| n0 <= i < n2 implies extracted_symbol((#[trigger] symbols@[i])@, path@) by {
                if i < n1 {
                    let j = i - (n0);
                    assert(v2[n0 + j] == v1[n0 + j]);
                    assert(v1[n0 + j]@ == spec_symbol(path@, bytes@, SymbolKind::Function, SigStyle::PyFn, fc@[j]@));
                    lemma_spec_symbol_extracted(path@, bytes@, SymbolKind::Function, SigStyle::PyFn, fc@[j]@);
                    assert(symbols@[i] == v2[n0 + j]);
                }
                else if i < n2 {
                    let j = i - (n1);
                    assert(v2[n1 + j]@ == spec_symbol(path@, bytes@, SymbolKind::Class, SigStyle::PyClass, cc@[j]@));
                    lemma_spec_symbol_extracted(path@, bytes@, SymbolKind::Class, SigStyle::PyClass, cc@[j]@);
                    assert(symbols@[i] == v2[n1 + j]);
                }
            }
            let m0 = old(imports)@.len() as int;
            let im = imp_models(imports@);
            let iseg = im.subrange(m0, imports@.len() as int);
            let ucm = uc@.map_values(|r: CaptureRec| r@);
            assert(all_imports_from(iseg, ucm, 0, 1)) by {
                assert forall|i: int| 0 <= i < iseg.len() implies import_from(#[trigger] iseg[i], ucm, 0, 1) by {
                    assert(iseg[i] == im[m0 + i]);
                    assert(im[m0 + i] == imports@[m0 + i]@);
                    assert(imports@[m0 + i]@ == f0[i]@);
                    assert(import_from(f0[i]@, ucm, 0, 1));
                }
            }
            assert(imports_appended(iseg, 0, 1));
        }
    }

    /// Go: functions, struct types and interface types; Go imports are not
    /// collected, so the import vector is untouched.
    #[verifier::rlimit(100)]
    fn parse_go(
        &self,
        path: &str,
        content: &str,
        symbols: &mut Vec<Symbol>,
        imports: &mut Vec<String>,
    )
        requires
            content.spec_bytes().len() < usize::MAX,
        ensures
            final(symbols)@.len() >= old(symbols)@.len(),
            forall|i: int|
                0 <= i < old(symbols)@.len() ==> #[trigger] final(symbols)@[i] == old(
                symbols)@[i],
            forall|i: int|
                old(symbols)@.len() <= i < final(symbols)@.len() ==> extracted_symbol(
                    (#[trigger] final(symbols)@[i])@,
                    path@,
                ),
            go_symbol_blocks(
                sym_models(final(symbols)@).subrange(
                    old(symbols)@.len() as int,
                    final(symbols)@.len() as int,
                ),
                path@,
                content.spec_bytes(),
            ),
            final(imports)@ == old(imports)@,
    {
        let bytes = content.as_bytes();
        let fc = capture_records(&self.go_fn, content);
        symbols_from_captures(symbols, path, bytes, &fc, SymbolKind::Function, SigStyle::GoFn);
        let ghost v1 = symbols@;
        let sc = capture_records(&self.go_struct, content);
        symbols_from_captures(symbols, path, bytes, &sc, SymbolKind::Struct, SigStyle::GoStruct);
        let ghost v2 = symbols@;
        let ic = capture_records(&self.go_interface, content);
        symbols_from_captures(symbols, path, bytes, &ic, SymbolKind::Interface, SigStyle::GoInterface);
        let ghost v3 = symbols@;
        proof {
            let cb = content.spec_bytes();
            assert(bytes@ == cb);
            let n0 = old(symbols)@.len() as int;
            let n1 = v1.len() as int;
            let n2 = v2.len() as int;
            let n3 = v3.len() as int;
            assert(symbols@ == v3);
            let m = sym_models(symbols@);
            let seg = m.subrange(n0, n3);
            let c1 = fc@.map_values(|r: CaptureRec| r@);
            let c2 = sc@.map_values(|r: CaptureRec| r@);
            let c3 = ic@.map_values(|r: CaptureRec| r@);
            assert forall|k: int| 0 <= k < n0 implies #[trigger] symbols@[k] == old(symbols)@[k] by {
                assert(v3[k] == v2[k]);
                assert(v2[k] == v1[k]);
            }
            assert(seg.subrange(0, n1 - n0) =~= symbols_for(path@, cb, SymbolKind::Function, SigStyle::GoFn, c1)) by {
                assert(seg.subrange(0, n1 - n0).len() == c1.len());
                assert forall|i: int| 0 <= i < c1.len() implies seg.subrange(0, n1 - n0)[i] == symbols_for(path@, cb, SymbolKind::Function, SigStyle::GoFn, c1)[i] by {
                    assert(seg.subrange(0, n1 - n0)[i] == m[n0 + i]);
                    assert(m[n0 + i] == symbols@[n0 + i]@);
                    assert(v3[n0 + i] == v2[n0 + i]);
                    assert(v2[n0 + i] == v1[n0 + i]);
                    assert(v1[n0 + i]@ == spec_symbol(path@, bytes@, SymbolKind::Function, SigStyle::GoFn, fc@[i]@));
                    assert(c1[i] == fc@[i]@);
                }
            }
            assert(block_from_captures(seg.subrange(0, n1 - n0), path@, cb, SymbolKind::Function, SigStyle::GoFn));
            assert(seg.subrange(n1 - n0, n2 - n0) =~= symbols_for(path@, cb, SymbolKind::Struct, SigStyle::GoStruct, c2)) by {
                assert(seg.subrange(n1 - n0, n2 - n0).len() == c2.len());
                assert forall|i: int| 0 <= i < c2.len() implies seg.subrange(n1 - n0, n2 - n0)[i] == symbols_for(path@, cb, SymbolKind::Struct, SigStyle::GoStruct, c2)[i] by {
                    assert(seg.subrange(n1 - n0, n2 - n0)[i] == m[n1 + i]);
                    assert(m[n1 + i] == symbols@[n1 + i]@);
                    assert(v3[n1 + i] == v2[n1 + i]);
                    assert(v2[n1 + i]@ == spec_symbol(path@, bytes@, SymbolKind::Struct, SigStyle::GoStruct, sc@[i]@));
                    assert(c2[i] == sc@[i]@);
                }
            }
            assert(block_from_captures(seg.subrange(n1 - n0, n2 - n0), path@, cb, SymbolKind::Struct, SigStyle::GoStruct));
            assert(seg.subrange(n2 - n0, n3 - n0) =~= symbols_for(path@, cb, SymbolKind::Interface, SigStyle::GoInterface, c3)) by {
                assert(seg.subrange(n2 - n0, n3 - n0).len() == c3.len());
                assert forall|i: int| 0 <= i < c3.len() implies seg.subrange(n2 - n0, n3 - n0)[i] == symbols_for(path@, cb, SymbolKind::Interface, SigStyle::GoInterface, c3)[i] by {
                    assert(seg.subrange(n2 - n0, n3 - n0)[i] == m[n2 + i]);
                    assert(m[n2 + i] == symbols@[n2 + i]@);
                    assert(v3[n2 + i]@ == spec_symbol(path@, bytes@, SymbolKind::Interface, SigStyle::GoInterface, ic@[i]@));
                    assert(c3[i] == ic@[i]@);
                }
            }
            assert(block_from_captures(seg.subrange(n2 - n0, n3 - n0), path@, cb, SymbolKind::Interface, SigStyle::GoInterface));
            assert(go_symbol_blocks(seg, path@, cb)) by {
                assert(seg.len() == n3 - n0);
                assert(block_from_captures(seg.subrange(0, n1 - n0), path@, cb, SymbolKind::Function, SigStyle::GoFn));
                assert(block_from_captures(seg.subrange(n1 - n0, n2 - n0), path@, cb, SymbolKind::Struct, SigStyle::GoStruct));
                assert(block_from_captures(seg.subrange(n2 - n0, n3 - n0), path@, cb, SymbolKind::Interface, SigStyle::GoInterface));
            }
            assert forall|i: int| n0 <= i < n3 implies extracted_symbol((#[trigger] symbols@[i])@, path@) by {
                if i < n1 {
                    let j = i - (n0);
                    assert(v3[n0 + j] == v2[n0 + j]);
                    assert(v2[n0 + j] == v1[n0 + j]);
                    assert(v1[n0 + j]@ == spec_symbol(path@, bytes@, SymbolKind::Function, SigStyle::GoFn, fc@[j]@));
                    lemma_spec_symbol_extracted(path@, bytes@, SymbolKind::Function, SigStyle::GoFn, fc@[j]@);
                    assert(symbols@[i] == v3[n0 + j]);
                }
                else if i < n2 {
                    let j = i - (n1);
                    assert(v3[n1 + j] == v2[n1 + j]);
                    assert(v2[n1 + j]@ == spec_symbol(path@, bytes@, SymbolKind::Struct, SigStyle::GoStruct, sc@[j]@));
                    lemma_spec_symbol_extracted(path@, bytes@, SymbolKind::Struct, SigStyle::GoStruct, sc@[j]@);
                    assert(symbols@[i] == v3[n1 + j]);
                }
                else if i < n3 {
                    let j = i - (n2);
                    assert(v3[n2 + j]@ == spec_symbol(path@, bytes@, SymbolKind::Interface, SigStyle::GoInterface, ic@[j]@));
                    lemma_spec_symbol_extracted(path@, bytes@, SymbolKind::Interface, SigStyle::GoInterface, ic@[j]@);
                    assert(symbols@[i] == v3[n2 + j]);
                }
            }
        }
    }
}

/// Move every string of `src` to the end of `dst`, in order.
fn move_strings(dst: &mut Vec<String>, src: &mut Vec<String>)
    ensures
        final(dst)@.len() == old(dst)@.len() + old(src)@.len(),
        forall|i: int| 0 <= i < old(dst)@.len() ==> #[trigger] final(dst)@[i] == old(dst)@[i],
        forall|i: int|
            0 <= i < old(src)@.len() ==> (#[trigger] final(dst)@[old(dst)@.len() + i])@
                == old(src)@[i]@,
{
    let mut i: usize = 0;
    let n = src.len();
    while i < n
        invariant
            i <= n,
            n == old(src)@.len(),
            src@ == old(src)@,
            dst@.len() == old(dst)@.len() + i,
            forall|k: int| 0 <= k < old(dst)@.len() ==> #[trigger] dst@[k] == old(dst)@[k],
            forall|k: int|
                0 <= k < i ==> (#[trigger] dst@[old(dst)@.len() + k])@ == old(src)@[k]@,
        decreases n - i,
    {
        let text = copy_string(&src[i]);
        dst.push(text);
        i = i + 1;
    }
}

/// A value-equal copy of a string.
fn copy_string(s: &String) -> (r: String)
    ensures
        r@ == s@,
{
    s.as_str().to_owned()
}

/// Number of lines of `bytes`: one per newline, plus a trailing line when
/// the content does not end in one.
pub fn count_lines(bytes: &[u8]) -> (n: usize)
    ensures
        n as int == line_count(bytes@),
{
    let mut count: usize = 0;
    let mut i: usize = 0;
    proof {
        crate::chunker::lemma_newline_positions(bytes@);
    }
    while i < bytes.len()
        invariant
            i <= bytes@.len(),
            count == newline_positions(bytes@.take(i as int)).len(),
            count <= i,
        decreases bytes@.len() - i,
    {
        proof {
            assert(bytes@.take(i as int + 1).drop_last() =~= bytes@.take(i as int));
            assert(bytes@.take(i as int + 1).last() == bytes@[i as int]);
        }
        if bytes[i] == 10u8 {
            count = count + 1;
        }
        i = i + 1;
    }
    proof {
        assert(bytes@.take(bytes@.len() as int) =~= bytes@);
    }
    if bytes.len() > 0 && bytes[bytes.len() - 1] != 10u8 {
        count + 1
    } else {
        count
    }
}

} // verus!
