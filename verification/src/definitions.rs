//! The definition language of tags, namespaces and metrics, as the
//! `define_tags!`, `define_namespaces!` and `define_metrics!` procedural
//! macros read it: its grammar over the token trees the compiler hands a
//! macro, flattened into a token list, and what a metric definition expands
//! to. Parsed items refer back to the tokens by position.

use vstd::prelude::*;

use crate::naming::{snake_case, to_snake_case};
use crate::schema::MetricType;

verus! {

// ---------------------------------------------------------------------------
// Tokens
// ---------------------------------------------------------------------------

/// The delimiter of a token group.
#[derive(Clone, Copy, Debug, PartialEq, Eq, Structural)]
pub enum Delim {
    Paren,
    Bracket,
    Brace,
}

/// One token of a macro's input, with groups flattened into an opening
/// token, their contents and a closing token.
#[derive(Clone, Debug)]
pub enum Tok {
    /// An identifier or keyword.
    Ident(String),
    /// A string literal, by its contents.
    Lit(String),
    /// A punctuation character, and whether it is joined to the next one
    /// (as `=` is in `=>`).
    Punct(char, bool),
    Open(Delim),
    Close(Delim),
}

/// Whether the token at `i` is an identifier.
pub open spec fn ident_at(t: Seq<Tok>, i: int) -> bool {
    0 <= i < t.len() && t[i] is Ident
}

/// Whether the token at `i` is the identifier `w`.
pub open spec fn word_at(t: Seq<Tok>, i: int, w: Seq<char>) -> bool {
    &&& 0 <= i < t.len()
    &&& t[i] matches Tok::Ident(s) && s@ == w
}

/// Whether the token at `i` is a string literal.
pub open spec fn lit_at(t: Seq<Tok>, i: int) -> bool {
    0 <= i < t.len() && t[i] is Lit
}

/// Whether the token at `i` is the punctuation character `c`.
pub open spec fn punct_at(t: Seq<Tok>, i: int, c: char) -> bool {
    &&& 0 <= i < t.len()
    &&& t[i] matches Tok::Punct(d, _) && d == c
}

/// Whether the token at `i` is `c` joined to the next token.
pub open spec fn joint_at(t: Seq<Tok>, i: int, c: char) -> bool {
    &&& 0 <= i < t.len()
    &&& t[i] matches Tok::Punct(d, j) && d == c && j
}

/// Whether the token at `i` opens a group with delimiter `d`.
pub open spec fn open_at(t: Seq<Tok>, i: int, d: Delim) -> bool {
    &&& 0 <= i < t.len()
    &&& t[i] matches Tok::Open(e) && e == d
}

/// Whether the token at `i` closes a group with delimiter `d`.
pub open spec fn close_at(t: Seq<Tok>, i: int, d: Delim) -> bool {
    &&& 0 <= i < t.len()
    &&& t[i] matches Tok::Close(e) && e == d
}

/// `=>` at `i`.
pub open spec fn fat_arrow_at(t: Seq<Tok>, i: int) -> bool {
    joint_at(t, i, '=') && punct_at(t, i + 1, '>')
}

/// `::` at `i`.
pub open spec fn colons_at(t: Seq<Tok>, i: int) -> bool {
    joint_at(t, i, ':') && punct_at(t, i + 1, ':')
}

/// `+=` at `i`.
pub open spec fn plus_eq_at(t: Seq<Tok>, i: int) -> bool {
    joint_at(t, i, '+') && punct_at(t, i + 1, '=')
}

/// The text of the identifier or literal at `i`.
pub open spec fn text_at(t: Seq<Tok>, i: int) -> Seq<char> {
    if 0 <= i < t.len() {
        match t[i] {
            Tok::Ident(s) => s@,
            Tok::Lit(s) => s@,
            _ => Seq::empty(),
        }
    } else {
        Seq::empty()
    }
}

/// Whether two texts are the same.
pub fn text_eq(a: &str, b: &str) -> (r: bool)
    ensures
        r == (a@ == b@),
{
    let la = a.unicode_len();
    let lb = b.unicode_len();
    if la != lb {
        return false;
    }
    let mut i: usize = 0;
    while i < la
        invariant
            la == a@.len(),
            lb == b@.len(),
            la == lb,
            i <= la,
            a@.take(i as int) == b@.take(i as int),
        decreases la - i,
    {
        if a.get_char(i) != b.get_char(i) {
            assert(a@[i as int] != b@[i as int]);
            return false;
        }
        assert(a@.take(i as int + 1) =~= a@.take(i as int).push(a@[i as int]));
        assert(b@.take(i as int + 1) =~= b@.take(i as int).push(b@[i as int]));
        i = i + 1;
    }
    assert(a@.take(la as int) =~= a@);
    assert(b@.take(lb as int) =~= b@);
    true
}

fn is_word(t: &Vec<Tok>, i: usize, w: &str) -> (r: bool)
    ensures
        r == word_at(t@, i as int, w@),
{
    if i < t.len() {
        match &t[i] {
            Tok::Ident(s) => text_eq(s.as_str(), w),
            _ => false,
        }
    } else {
        false
    }
}

fn is_ident(t: &Vec<Tok>, i: usize) -> (r: bool)
    ensures
        r == ident_at(t@, i as int),
{
    i < t.len() && matches!(t[i], Tok::Ident(_))
}

fn is_lit(t: &Vec<Tok>, i: usize) -> (r: bool)
    ensures
        r == lit_at(t@, i as int),
{
    i < t.len() && matches!(t[i], Tok::Lit(_))
}

fn is_punct(t: &Vec<Tok>, i: usize, c: char) -> (r: bool)
    ensures
        r == punct_at(t@, i as int, c),
{
    if i < t.len() {
        match &t[i] {
            Tok::Punct(d, _) => *d == c,
            _ => false,
        }
    } else {
        false
    }
}

fn is_joint(t: &Vec<Tok>, i: usize, c: char) -> (r: bool)
    ensures
        r == joint_at(t@, i as int, c),
{
    if i < t.len() {
        match &t[i] {
            Tok::Punct(d, j) => *d == c && *j,
            _ => false,
        }
    } else {
        false
    }
}

fn is_open(t: &Vec<Tok>, i: usize, d: Delim) -> (r: bool)
    ensures
        r == open_at(t@, i as int, d),
{
    if i < t.len() {
        match &t[i] {
            Tok::Open(e) => *e == d,
            _ => false,
        }
    } else {
        false
    }
}

fn is_close(t: &Vec<Tok>, i: usize, d: Delim) -> (r: bool)
    ensures
        r == close_at(t@, i as int, d),
{
    if i < t.len() {
        match &t[i] {
            Tok::Close(e) => *e == d,
            _ => false,
        }
    } else {
        false
    }
}

fn is_fat_arrow(t: &Vec<Tok>, i: usize) -> (r: bool)
    requires
        i < usize::MAX,
    ensures
        r == fat_arrow_at(t@, i as int),
{
    is_joint(t, i, '=') && is_punct(t, i + 1, '>')
}

fn is_colons(t: &Vec<Tok>, i: usize) -> (r: bool)
    requires
        i < usize::MAX,
    ensures
        r == colons_at(t@, i as int),
{
    is_joint(t, i, ':') && is_punct(t, i + 1, ':')
}

fn is_plus_eq(t: &Vec<Tok>, i: usize) -> (r: bool)
    requires
        i < usize::MAX,
    ensures
        r == plus_eq_at(t@, i as int),
{
    is_joint(t, i, '+') && is_punct(t, i + 1, '=')
}

// ---------------------------------------------------------------------------
// Keywords and parse errors
// ---------------------------------------------------------------------------

/// The keywords of Rust 2021, strict and reserved: an identifier token
/// with one of these texts is not a name.
pub open spec fn rust_keywords() -> Seq<Seq<char>> {
    seq![
        "as"@, "async"@, "await"@, "break"@, "const"@, "continue"@, "crate"@, "dyn"@, "else"@,
        "enum"@, "extern"@, "false"@, "fn"@, "for"@, "if"@, "impl"@, "in"@, "let"@, "loop"@,
        "match"@, "mod"@, "move"@, "mut"@, "pub"@, "ref"@, "return"@, "self"@, "Self"@,
        "static"@, "struct"@, "super"@, "trait"@, "true"@, "type"@, "unsafe"@, "use"@,
        "where"@, "while"@, "abstract"@, "become"@, "box"@, "do"@, "final"@, "macro"@,
        "override"@, "priv"@, "try"@, "typeof"@, "unsized"@, "virtual"@, "yield"@,
    ]
}

/// An identifier at `i` that is not a keyword: a name.
pub open spec fn name_at(t: Seq<Tok>, i: int) -> bool {
    ident_at(t, i) && !rust_keywords().contains(text_at(t, i))
}

/// A path segment at `i`: a name, or one of `crate`, `self`, `super` and
/// `Self`.
pub open spec fn segment_at(t: Seq<Tok>, i: int) -> bool {
    name_at(t, i) || word_at(t, i, "crate"@) || word_at(t, i, "self"@) || word_at(t, i, "super"@)
        || word_at(t, i, "Self"@)
}

fn keyword_list() -> (v: Vec<&'static str>)
    ensures
        v@.map_values(|s: &str| s@) == rust_keywords(),
{
    let v = vec![
        "as", "async", "await", "break", "const", "continue", "crate", "dyn", "else", "enum",
        "extern", "false", "fn", "for", "if", "impl", "in", "let", "loop", "match", "mod", "move",
        "mut", "pub", "ref", "return", "self", "Self", "static", "struct", "super", "trait", "true",
        "type", "unsafe", "use", "where", "while", "abstract", "become", "box", "do", "final",
        "macro", "override", "priv", "try", "typeof", "unsized", "virtual", "yield",
    ];
    assert(v@.map_values(|s: &str| s@) =~= rust_keywords());
    v
}

fn is_keyword(s: &str) -> (r: bool)
    ensures
        r == rust_keywords().contains(s@),
{
    let kws = keyword_list();
    let ghost ks = kws@.map_values(|k: &str| k@);
    let mut j: usize = 0;
    while j < kws.len()
        invariant
            ks == kws@.map_values(|k: &str| k@),
            ks == rust_keywords(),
            j <= kws@.len(),
            forall|m: int| 0 <= m < j ==> ks[m] != s@,
        decreases kws@.len() - j,
    {
        if text_eq(s, kws[j]) {
            assert(ks[j as int] == s@);
            return true;
        }
        j = j + 1;
    }
    false
}

fn is_name(t: &Vec<Tok>, i: usize) -> (r: bool)
    ensures
        r == name_at(t@, i as int),
{
    if i >= t.len() {
        return false;
    }
    match &t[i] {
        Tok::Ident(s) => !is_keyword(s.as_str()),
        _ => false,
    }
}

fn is_segment(t: &Vec<Tok>, i: usize) -> (r: bool)
    ensures
        r == segment_at(t@, i as int),
{
    is_name(t, i) || is_word(t, i, "crate") || is_word(t, i, "self") || is_word(t, i, "super")
        || is_word(t, i, "Self")
}

/// What the parser expected where it stopped.
#[derive(Clone, Copy, Debug, PartialEq, Eq, Structural)]
pub enum Expected {
    Ident,
    Path,
    Literal,
    FatArrow,
    PlusEq,
    Equals,
    Comma,
    Semicolon,
    MetricKind,
    GroupArg,
    Group,
    Parent,
    OpenParen,
    CloseParen,
    OpenBracket,
    OpenBrace,
}

/// Where parsing stopped (a token position, or the end of the input) and
/// what was expected there.
#[derive(Clone, Copy, Debug, PartialEq, Eq, Structural)]
pub struct ParseError {
    pub at: usize,
    pub expected: Expected,
}

/// The error at position `i`.
pub open spec fn err(i: int, e: Expected) -> ParseError {
    ParseError { at: i as usize, expected: e }
}

/// The message for what was expected.
pub open spec fn expected_text(e: Expected) -> Seq<char> {
    match e {
        Expected::Ident => "expected identifier"@,
        Expected::Path => "expected path"@,
        Expected::Literal => "expected string literal"@,
        Expected::FatArrow => "expected `=>`"@,
        Expected::PlusEq => "expected `+=`"@,
        Expected::Equals => "expected `=`"@,
        Expected::Comma => "expected `,`"@,
        Expected::Semicolon => "expected `;`"@,
        Expected::MetricKind => "expected metric type `count`, `gauge`, or `histogram`"@,
        Expected::GroupArg => "expected `namespace = ...` or `tags = [...]`"@,
        Expected::Group => "expected `group`"@,
        Expected::Parent => "expected `parent`"@,
        Expected::OpenParen => "expected parentheses"@,
        Expected::CloseParen => "expected `)`"@,
        Expected::OpenBracket => "expected square brackets"@,
        Expected::OpenBrace => "expected curly braces"@,
    }
}

impl ParseError {
    /// The error's message.
    pub fn message(&self) -> (s: &'static str)
        ensures
            s@ == expected_text(self.expected),
    {
        match self.expected {
            Expected::Ident => "expected identifier",
            Expected::Path => "expected path",
            Expected::Literal => "expected string literal",
            Expected::FatArrow => "expected `=>`",
            Expected::PlusEq => "expected `+=`",
            Expected::Equals => "expected `=`",
            Expected::Comma => "expected `,`",
            Expected::Semicolon => "expected `;`",
            Expected::MetricKind => "expected metric type `count`, `gauge`, or `histogram`",
            Expected::GroupArg => "expected `namespace = ...` or `tags = [...]`",
            Expected::Group => "expected `group`",
            Expected::Parent => "expected `parent`",
            Expected::OpenParen => "expected parentheses",
            Expected::CloseParen => "expected `)`",
            Expected::OpenBracket => "expected square brackets",
            Expected::OpenBrace => "expected curly braces",
        }
    }
}

// ---------------------------------------------------------------------------
// Paths, visibility, tag references
// ---------------------------------------------------------------------------

/// A run of tokens, from `start` up to but not including `end`.
#[derive(Clone, Copy, Debug, PartialEq, Eq, Structural)]
pub struct Span {
    pub start: usize,
    pub end: usize,
}

/// The rest of a path after a segment at `j - 1`: more `:: segment`s.
pub open spec fn path_tail(t: Seq<Tok>, j: int) -> Result<int, ParseError>
    decreases t.len() - j,
{
    if colons_at(t, j) {
        if segment_at(t, j + 2) {
            path_tail(t, j + 3)
        } else {
            Err(err(j + 2, Expected::Ident))
        }
    } else {
        Ok(j)
    }
}

/// A path at `i`: an optional leading `::`, then segments separated by
/// `::`. Gives where it ends.
pub open spec fn path_end(t: Seq<Tok>, i: int) -> Result<int, ParseError> {
    let j = if colons_at(t, i) { i + 2 } else { i };
    if segment_at(t, j) {
        path_tail(t, j + 1)
    } else {
        Err(err(j, Expected::Path))
    }
}

fn parse_path(t: &Vec<Tok>, i: usize) -> (r: Result<usize, ParseError>)
    requires
        t@.len() < usize::MAX - 16,
        i <= t@.len(),
    ensures
        path_end(t@, i as int) == match r {
            Ok(e) => Ok(e as int),
            Err(x) => Err(x),
        },
{
    let j = if is_colons(t, i) { i + 2 } else { i };
    if !is_segment(t, j) {
        return Err(ParseError { at: j, expected: Expected::Path });
    }
    let mut k = j + 1;
    while is_colons(t, k)
        invariant
            t@.len() < usize::MAX - 16,
            j < k <= t@.len(),
            path_end(t@, i as int) == path_tail(t@, k as int),
        decreases t@.len() - k,
    {
        if !is_segment(t, k + 2) {
            return Err(ParseError { at: k + 2, expected: Expected::Ident });
        }
        k = k + 3;
    }
    Ok(k)
}

/// Where a visibility at `i` ends: `pub`, `pub(crate)`, `pub(self)`,
/// `pub(super)` or `pub(in path)`, or nothing at all.
pub open spec fn vis_end(t: Seq<Tok>, i: int) -> int {
    if word_at(t, i, "pub"@) {
        if open_at(t, i + 1, Delim::Paren) && (word_at(t, i + 2, "crate"@) || word_at(t, i + 2, "self"@)
            || word_at(t, i + 2, "super"@)) && close_at(t, i + 3, Delim::Paren) {
            i + 4
        } else if open_at(t, i + 1, Delim::Paren) && word_at(t, i + 2, "in"@) && (path_end(t, i + 3) matches Ok(
            e,
        ) && close_at(t, e, Delim::Paren)) {
            path_end(t, i + 3)->Ok_0 + 1
        } else {
            i + 1
        }
    } else {
        i
    }
}

fn parse_vis(t: &Vec<Tok>, i: usize) -> (e: usize)
    requires
        t@.len() < usize::MAX - 16,
        i <= t@.len(),
    ensures
        e as int == vis_end(t@, i as int),
        e <= t@.len(),
{
    if is_word(t, i, "pub") {
        if is_open(t, i + 1, Delim::Paren) && (is_word(t, i + 2, "crate") || is_word(t, i + 2, "self")
            || is_word(t, i + 2, "super")) && is_close(t, i + 3, Delim::Paren) {
            i + 4
        } else if is_open(t, i + 1, Delim::Paren) && is_word(t, i + 2, "in") {
            match parse_path(t, i + 3) {
                Ok(e) => if is_close(t, e, Delim::Paren) {
                    e + 1
                } else {
                    i + 1
                },
                Err(_) => i + 1,
            }
        } else {
            i + 1
        }
    } else {
        i
    }
}

/// A tag used by a metric: whether it is optional, the path of its type,
/// and the position of its alias, if it has one.
#[derive(Clone, Copy, Debug, PartialEq, Eq, Structural)]
pub struct TagRefAt {
    pub optional: bool,
    pub ty: Span,
    pub alias: Option<usize>,
}

/// A tag reference at `i`: `[optional] Path [as alias]`.
pub open spec fn tag_ref_at(t: Seq<Tok>, i: int) -> Result<(TagRefAt, int), ParseError> {
    let optional = word_at(t, i, "optional"@);
    let j = if optional { i + 1 } else { i };
    match path_end(t, j) {
        Err(x) => Err(x),
        Ok(e) => {
            let ty = Span { start: j as usize, end: e as usize };
            if word_at(t, e, "as"@) {
                if name_at(t, e + 1) {
                    Ok((TagRefAt { optional, ty, alias: Some((e + 1) as usize) }, e + 2))
                } else {
                    Err(err(e + 1, Expected::Ident))
                }
            } else {
                Ok((TagRefAt { optional, ty, alias: None }, e))
            }
        },
    }
}

fn parse_tag_ref(t: &Vec<Tok>, i: usize) -> (r: Result<(TagRefAt, usize), ParseError>)
    requires
        t@.len() < usize::MAX - 16,
        i <= t@.len(),
    ensures
        tag_ref_at(t@, i as int) == match r {
            Ok((x, e)) => Ok((x, e as int)),
            Err(x) => Err(x),
        },
{
    let optional = is_word(t, i, "optional");
    let j = if optional { i + 1 } else { i };
    match parse_path(t, j) {
        Err(x) => Err(x),
        Ok(e) => {
            let ty = Span { start: j, end: e };
            if is_word(t, e, "as") {
                if is_name(t, e + 1) {
                    Ok((TagRefAt { optional, ty, alias: Some(e + 1) }, e + 2))
                } else {
                    Err(ParseError { at: e + 1, expected: Expected::Ident })
                }
            } else {
                Ok((TagRefAt { optional, ty, alias: None }, e))
            }
        },
    }
}

/// The rest of a tag list from `j`, after the tags `acc`: tags separated by
/// commas, a trailing comma allowed, up to the closing `]`.
pub open spec fn tag_items(t: Seq<Tok>, j: int, acc: Seq<TagRefAt>) -> Result<(Seq<TagRefAt>, int), ParseError>
    decreases t.len() - j,
{
    if close_at(t, j, Delim::Bracket) {
        Ok((acc, j + 1))
    } else {
        match tag_ref_at(t, j) {
            Err(x) => Err(x),
            Ok((r, k)) => {
                if close_at(t, k, Delim::Bracket) {
                    Ok((acc.push(r), k + 1))
                } else if punct_at(t, k, ',') && j < k {
                    tag_items(t, k + 1, acc.push(r))
                } else {
                    Err(err(k, Expected::Comma))
                }
            },
        }
    }
}

/// A bracketed tag list at `i`: `[tag, tag, ...]`.
pub open spec fn tag_list_at(t: Seq<Tok>, i: int) -> Result<(Seq<TagRefAt>, int), ParseError> {
    if open_at(t, i, Delim::Bracket) {
        tag_items(t, i + 1, Seq::empty())
    } else {
        Err(err(i, Expected::OpenBracket))
    }
}

fn parse_tag_list(t: &Vec<Tok>, i: usize) -> (r: Result<(Vec<TagRefAt>, usize), ParseError>)
    requires
        t@.len() < usize::MAX - 16,
        i <= t@.len(),
    ensures
        tag_list_at(t@, i as int) == match r {
            Ok((v, e)) => Ok((v@, e as int)),
            Err(x) => Err(x),
        },
{
    if !is_open(t, i, Delim::Bracket) {
        return Err(ParseError { at: i, expected: Expected::OpenBracket });
    }
    let mut acc: Vec<TagRefAt> = Vec::new();
    let mut j = i + 1;
    loop
        invariant
            t@.len() < usize::MAX - 16,
            j <= t@.len(),
            tag_list_at(t@, i as int) == tag_items(t@, j as int, acc@),
        decreases t@.len() - j,
    {
        if is_close(t, j, Delim::Bracket) {
            return Ok((acc, j + 1));
        }
        match parse_tag_ref(t, j) {
            Err(x) => {
                return Err(x);
            },
            Ok((r, k)) => {
                if is_close(t, k, Delim::Bracket) {
                    acc.push(r);
                    return Ok((acc, k + 1));
                } else if is_punct(t, k, ',') && j < k {
                    acc.push(r);
                    j = k + 1;
                } else {
                    return Err(ParseError { at: k, expected: Expected::Comma });
                }
            },
        }
    }
}

// ---------------------------------------------------------------------------
// Metric definitions
// ---------------------------------------------------------------------------

/// A metric definition: `vis kind Ident => "name", "description"` with
/// optional extra tags `, tags += [...]`, ended by `;`. Positions point at
/// the tokens.
#[derive(Debug)]
pub struct MetricAt {
    pub vis: Span,
    pub kind: MetricType,
    pub ident: usize,
    pub name: usize,
    pub description: usize,
    pub extra_tags: Vec<TagRefAt>,
}

/// A metric definition as a value.
pub struct MetricDef {
    pub vis: Span,
    pub kind: MetricType,
    pub ident: usize,
    pub name: usize,
    pub description: usize,
    pub extra_tags: Seq<TagRefAt>,
}

impl View for MetricAt {
    type V = MetricDef;

    open spec fn view(&self) -> MetricDef {
        MetricDef {
            vis: self.vis,
            kind: self.kind,
            ident: self.ident,
            name: self.name,
            description: self.description,
            extra_tags: self.extra_tags@,
        }
    }
}

/// The metric kind an identifier names: `count`, `gauge` or `histogram`.
pub open spec fn kind_at(t: Seq<Tok>, i: int) -> Result<MetricType, ParseError> {
    if !name_at(t, i) {
        Err(err(i, Expected::Ident))
    } else if word_at(t, i, "count"@) {
        Ok(MetricType::Count)
    } else if word_at(t, i, "gauge"@) {
        Ok(MetricType::Gauge)
    } else if word_at(t, i, "histogram"@) {
        Ok(MetricType::Histogram)
    } else {
        Err(err(i, Expected::MetricKind))
    }
}

/// A metric definition at `i`.
pub open spec fn metric_at(t: Seq<Tok>, i: int) -> Result<(MetricDef, int), ParseError> {
    let v = vis_end(t, i);
    match kind_at(t, v) {
        Err(x) => Err(x),
        Ok(kind) => {
            if !name_at(t, v + 1) {
                Err(err(v + 1, Expected::Ident))
            } else if !fat_arrow_at(t, v + 2) {
                Err(err(v + 2, Expected::FatArrow))
            } else if !lit_at(t, v + 4) {
                Err(err(v + 4, Expected::Literal))
            } else if !punct_at(t, v + 5, ',') {
                Err(err(v + 5, Expected::Comma))
            } else if !lit_at(t, v + 6) {
                Err(err(v + 6, Expected::Literal))
            } else {
                let m = MetricDef {
                    vis: Span { start: i as usize, end: v as usize },
                    kind,
                    ident: (v + 1) as usize,
                    name: (v + 4) as usize,
                    description: (v + 6) as usize,
                    extra_tags: Seq::empty(),
                };
                let p = v + 7;
                if punct_at(t, p, ',') {
                    if word_at(t, p + 1, "tags"@) {
                        if plus_eq_at(t, p + 2) {
                            match tag_list_at(t, p + 4) {
                                Ok((extra, e)) => if punct_at(t, e, ';') {
                                    Ok((MetricDef { extra_tags: extra, ..m }, e + 1))
                                } else {
                                    Err(err(e, Expected::Semicolon))
                                },
                                Err(x) => Err(x),
                            }
                        } else {
                            Err(err(p + 2, Expected::PlusEq))
                        }
                    } else if punct_at(t, p + 1, ';') {
                        Ok((m, p + 2))
                    } else {
                        Err(err(p + 1, Expected::Semicolon))
                    }
                } else if punct_at(t, p, ';') {
                    Ok((m, p + 1))
                } else {
                    Err(err(p, Expected::Semicolon))
                }
            }
        },
    }
}

fn parse_kind(t: &Vec<Tok>, i: usize) -> (r: Result<MetricType, ParseError>)
    ensures
        r == kind_at(t@, i as int),
{
    if !is_name(t, i) {
        Err(ParseError { at: i, expected: Expected::Ident })
    } else if is_word(t, i, "count") {
        Ok(MetricType::Count)
    } else if is_word(t, i, "gauge") {
        Ok(MetricType::Gauge)
    } else if is_word(t, i, "histogram") {
        Ok(MetricType::Histogram)
    } else {
        Err(ParseError { at: i, expected: Expected::MetricKind })
    }
}

fn parse_metric(t: &Vec<Tok>, i: usize) -> (r: Result<(MetricAt, usize), ParseError>)
    requires
        t@.len() < usize::MAX - 16,
        i <= t@.len(),
    ensures
        metric_at(t@, i as int) == match r {
            Ok((m, e)) => Ok((m@, e as int)),
            Err(x) => Err(x),
        },
{
    let v = parse_vis(t, i);
    let kind = match parse_kind(t, v) {
        Err(x) => {
            return Err(x);
        },
        Ok(k) => k,
    };
    if !is_name(t, v + 1) {
        return Err(ParseError { at: v + 1, expected: Expected::Ident });
    }
    if !is_fat_arrow(t, v + 2) {
        return Err(ParseError { at: v + 2, expected: Expected::FatArrow });
    }
    if !is_lit(t, v + 4) {
        return Err(ParseError { at: v + 4, expected: Expected::Literal });
    }
    if !is_punct(t, v + 5, ',') {
        return Err(ParseError { at: v + 5, expected: Expected::Comma });
    }
    if !is_lit(t, v + 6) {
        return Err(ParseError { at: v + 6, expected: Expected::Literal });
    }
    let p = v + 7;
    let mut m = MetricAt {
        vis: Span { start: i, end: v },
        kind,
        ident: v + 1,
        name: v + 4,
        description: v + 6,
        extra_tags: Vec::new(),
    };
    assert(m@.extra_tags =~= Seq::<TagRefAt>::empty());
    if is_punct(t, p, ',') {
        if is_word(t, p + 1, "tags") {
            if is_plus_eq(t, p + 2) {
                match parse_tag_list(t, p + 4) {
                    Ok((extra, e)) => {
                        if is_punct(t, e, ';') {
                            m.extra_tags = extra;
                            Ok((m, e + 1))
                        } else {
                            Err(ParseError { at: e, expected: Expected::Semicolon })
                        }
                    },
                    Err(x) => Err(x),
                }
            } else {
                Err(ParseError { at: p + 2, expected: Expected::PlusEq })
            }
        } else if is_punct(t, p + 1, ';') {
            Ok((m, p + 2))
        } else {
            Err(ParseError { at: p + 1, expected: Expected::Semicolon })
        }
    } else if is_punct(t, p, ';') {
        Ok((m, p + 1))
    } else {
        Err(ParseError { at: p, expected: Expected::Semicolon })
    }
}

// ---------------------------------------------------------------------------
// Groups and the metrics input
// ---------------------------------------------------------------------------

/// A group of metric definitions: `group(namespace = Path, tags = [...])
/// { metric; ... }`. Both arguments may be left out; without tags the
/// group has none.
#[derive(Debug)]
pub struct GroupAt {
    pub namespace: Option<Span>,
    pub tags: Vec<TagRefAt>,
    pub metrics: Vec<MetricAt>,
}

/// A group of metric definitions as a value.
pub struct GroupDef {
    pub namespace: Option<Span>,
    pub tags: Seq<TagRefAt>,
    pub metrics: Seq<MetricDef>,
}

impl View for GroupAt {
    type V = GroupDef;

    open spec fn view(&self) -> GroupDef {
        GroupDef {
            namespace: self.namespace,
            tags: self.tags@,
            metrics: self.metrics@.map_values(|m: MetricAt| m@),
        }
    }
}

/// The rest of a group's arguments from `j`, after those seen so far:
/// `namespace = Path` and `tags = [...]` in any order, each optionally
/// followed by a comma, up to the closing `)`. A later argument replaces
/// an earlier one of the same name.
pub open spec fn group_args(
    t: Seq<Tok>,
    j: int,
    ns: Option<Span>,
    tags: Option<Seq<TagRefAt>>,
) -> Result<(Option<Span>, Option<Seq<TagRefAt>>, int), ParseError>
    decreases t.len() - j,
{
    if close_at(t, j, Delim::Paren) {
        Ok((ns, tags, j + 1))
    } else if word_at(t, j, "namespace"@) {
        if !punct_at(t, j + 1, '=') {
            Err(err(j + 1, Expected::Equals))
        } else {
            match path_end(t, j + 2) {
                Err(x) => Err(x),
                Ok(e) => {
                    let k = if punct_at(t, e, ',') { e + 1 } else { e };
                    if j < k <= t.len() {
                        group_args(t, k, Some(Span { start: (j + 2) as usize, end: e as usize }), tags)
                    } else {
                        Err(err(j, Expected::GroupArg))
                    }
                },
            }
        }
    } else if word_at(t, j, "tags"@) {
        if !punct_at(t, j + 1, '=') {
            Err(err(j + 1, Expected::Equals))
        } else {
            match tag_list_at(t, j + 2) {
                Err(x) => Err(x),
                Ok((l, e)) => {
                    let k = if punct_at(t, e, ',') { e + 1 } else { e };
                    if j < k <= t.len() {
                        group_args(t, k, ns, Some(l))
                    } else {
                        Err(err(j, Expected::GroupArg))
                    }
                },
            }
        }
    } else {
        Err(err(j, Expected::GroupArg))
    }
}

/// The rest of a group's metric definitions from `j`, after `acc`, up to
/// the closing `}`.
pub open spec fn group_metrics(t: Seq<Tok>, j: int, acc: Seq<MetricDef>) -> Result<(Seq<MetricDef>, int), ParseError>
    decreases t.len() - j,
{
    if close_at(t, j, Delim::Brace) {
        Ok((acc, j + 1))
    } else {
        match metric_at(t, j) {
            Ok((m, k)) => if j < k <= t.len() {
                group_metrics(t, k, acc.push(m))
            } else {
                Err(err(j, Expected::Ident))
            },
            Err(x) => Err(x),
        }
    }
}

/// A group at `i`.
pub open spec fn group_at(t: Seq<Tok>, i: int) -> Result<(GroupDef, int), ParseError> {
    if !word_at(t, i, "group"@) {
        Err(err(i, Expected::Group))
    } else if !open_at(t, i + 1, Delim::Paren) {
        Err(err(i + 1, Expected::OpenParen))
    } else {
        match group_args(t, i + 2, None, None) {
            Err(x) => Err(x),
            Ok((ns, tags, a)) => if open_at(t, a, Delim::Brace) {
                match group_metrics(t, a + 1, Seq::empty()) {
                    Err(x) => Err(x),
                    Ok((ms, e)) => Ok((
                        GroupDef {
                            namespace: ns,
                            tags: match tags {
                                Some(l) => l,
                                None => Seq::empty(),
                            },
                            metrics: ms,
                        },
                        e,
                    )),
                }
            } else {
                Err(err(a, Expected::OpenBrace))
            },
        }
    }
}

/// The groups from `j` to the end of the input, after `acc`.
pub open spec fn groups_from(t: Seq<Tok>, j: int, acc: Seq<GroupDef>) -> Result<Seq<GroupDef>, ParseError>
    decreases t.len() - j,
{
    if j >= t.len() {
        Ok(acc)
    } else {
        match group_at(t, j) {
            Ok((g, k)) => if j < k <= t.len() {
                groups_from(t, k, acc.push(g))
            } else {
                Err(err(j, Expected::Group))
            },
            Err(x) => Err(x),
        }
    }
}

/// The whole input of `define_metrics!`: groups up to the end.
pub open spec fn metrics_input(t: Seq<Tok>) -> Result<Seq<GroupDef>, ParseError> {
    groups_from(t, 0, Seq::empty())
}

/// The values of parsed metric definitions.
pub open spec fn metric_defs(v: Seq<MetricAt>) -> Seq<MetricDef> {
    v.map_values(|m: MetricAt| m@)
}

/// The values of parsed groups.
pub open spec fn group_defs(v: Seq<GroupAt>) -> Seq<GroupDef> {
    v.map_values(|g: GroupAt| g@)
}

spec fn tags_view(o: Option<Vec<TagRefAt>>) -> Option<Seq<TagRefAt>> {
    match o {
        Some(v) => Some(v@),
        None => None,
    }
}

fn parse_group(t: &Vec<Tok>, i: usize) -> (r: Result<(GroupAt, usize), ParseError>)
    requires
        t@.len() < usize::MAX - 16,
        i <= t@.len(),
    ensures
        group_at(t@, i as int) == match r {
            Ok((g, e)) => Ok((g@, e as int)),
            Err(x) => Err(x),
        },
{
    if !is_word(t, i, "group") {
        return Err(ParseError { at: i, expected: Expected::Group });
    }
    if !is_open(t, i + 1, Delim::Paren) {
        return Err(ParseError { at: i + 1, expected: Expected::OpenParen });
    }
    let mut ns: Option<Span> = None;
    let mut tags: Option<Vec<TagRefAt>> = None;
    let mut j = i + 2;
    while !is_close(t, j, Delim::Paren)
        invariant
            t@.len() < usize::MAX - 16,
            j <= t@.len(),
            group_args(t@, i + 2, None, None) == group_args(t@, j as int, ns, tags_view(tags)),
            word_at(t@, i as int, "group"@),
            open_at(t@, i + 1, Delim::Paren),
        decreases t@.len() - j,
    {
        if is_word(t, j, "namespace") {
            if !is_punct(t, j + 1, '=') {
                return Err(ParseError { at: j + 1, expected: Expected::Equals });
            }
            match parse_path(t, j + 2) {
                Err(x) => {
                    return Err(x);
                },
                Ok(e) => {
                    let k = if is_punct(t, e, ',') { e + 1 } else { e };
                    if j < k && k <= t.len() {
                        ns = Some(Span { start: j + 2, end: e });
                        j = k;
                    } else {
                        return Err(ParseError { at: j, expected: Expected::GroupArg });
                    }
                },
            }
        } else if is_word(t, j, "tags") {
            if !is_punct(t, j + 1, '=') {
                return Err(ParseError { at: j + 1, expected: Expected::Equals });
            }
            match parse_tag_list(t, j + 2) {
                Err(x) => {
                    return Err(x);
                },
                Ok((l, e)) => {
                    let k = if is_punct(t, e, ',') { e + 1 } else { e };
                    if j < k && k <= t.len() {
                        tags = Some(l);
                        j = k;
                    } else {
                        return Err(ParseError { at: j, expected: Expected::GroupArg });
                    }
                },
            }
        } else {
            return Err(ParseError { at: j, expected: Expected::GroupArg });
        }
    }
    let a = j + 1;
    if !is_open(t, a, Delim::Brace) {
        return Err(ParseError { at: a, expected: Expected::OpenBrace });
    }
    let mut metrics: Vec<MetricAt> = Vec::new();
    let mut j = a + 1;
    assert(metric_defs(metrics@) =~= Seq::<MetricDef>::empty());
    while !is_close(t, j, Delim::Brace)
        invariant
            t@.len() < usize::MAX - 16,
            j <= t@.len(),
            group_metrics(t@, a + 1, Seq::empty()) == group_metrics(t@, j as int, metric_defs(metrics@)),
            word_at(t@, i as int, "group"@),
            open_at(t@, i + 1, Delim::Paren),
            open_at(t@, a as int, Delim::Brace),
            group_args(t@, i + 2, None, None) == Ok::<_, ParseError>((ns, tags_view(tags), a as int)),
        decreases t@.len() - j,
    {
        match parse_metric(t, j) {
            Ok((m, k)) => {
                if j < k && k <= t.len() {
                    let ghost before = metrics@;
                    metrics.push(m);
                    assert(metric_defs(metrics@) =~= metric_defs(before).push(m@));
                    j = k;
                } else {
                    return Err(ParseError { at: j, expected: Expected::Ident });
                }
            },
            Err(x) => {
                return Err(x);
            },
        }
    }
    let ghost tv = tags_view(tags);
    let tags = match tags {
        Some(l) => l,
        None => Vec::new(),
    };
    let g = GroupAt { namespace: ns, tags, metrics };
    assert(g@.metrics =~= metric_defs(g.metrics@));
    assert(g@.tags =~= match tv {
        Some(l) => l,
        None => Seq::<TagRefAt>::empty(),
    });
    Ok((g, j + 1))
}

/// Read the input of `define_metrics!`: groups of metric definitions up to
/// the end of the tokens. On tokens that do not follow the grammar, the
/// error says where and what was expected there.
pub fn parse_metrics_input(t: &Vec<Tok>) -> (r: Result<Vec<GroupAt>, ParseError>)
    requires
        t@.len() < usize::MAX - 16,
    ensures
        metrics_input(t@) == match r {
            Ok(v) => Ok(group_defs(v@)),
            Err(x) => Err(x),
        },
{
    let mut groups: Vec<GroupAt> = Vec::new();
    let mut j: usize = 0;
    assert(group_defs(groups@) =~= Seq::<GroupDef>::empty());
    while j < t.len()
        invariant
            t@.len() < usize::MAX - 16,
            j <= t@.len(),
            metrics_input(t@) == groups_from(t@, j as int, group_defs(groups@)),
        decreases t@.len() - j,
    {
        match parse_group(t, j) {
            Ok((g, k)) => {
                if j < k && k <= t.len() {
                    let ghost before = groups@;
                    groups.push(g);
                    assert(group_defs(groups@) =~= group_defs(before).push(g@));
                    j = k;
                } else {
                    return Err(ParseError { at: j, expected: Expected::Group });
                }
            },
            Err(x) => {
                return Err(x);
            },
        }
    }
    Ok(groups)
}

// ---------------------------------------------------------------------------
// Tags and namespaces
// ---------------------------------------------------------------------------

/// A tag definition: `vis Ident => "export_name"`, then either the enum
/// values `{ Variant => "value", ... }` or `;` for a free-form string tag.
#[derive(Debug)]
pub struct TagDefAt {
    pub vis: Span,
    pub ident: usize,
    pub export_name: usize,
    /// For an enum tag, the positions of each variant and its value.
    pub values: Option<Vec<(usize, usize)>>,
}

/// A tag definition as a value.
pub struct TagDef {
    pub vis: Span,
    pub ident: usize,
    pub export_name: usize,
    pub values: Option<Seq<(usize, usize)>>,
}

impl View for TagDefAt {
    type V = TagDef;

    open spec fn view(&self) -> TagDef {
        TagDef {
            vis: self.vis,
            ident: self.ident,
            export_name: self.export_name,
            values: match self.values {
                Some(v) => Some(v@),
                None => None,
            },
        }
    }
}

/// The rest of an enum tag's values from `j`, after `acc`: `Variant =>
/// "value"` each, optionally followed by a comma, up to the closing `}`.
pub open spec fn tag_values(t: Seq<Tok>, j: int, acc: Seq<(usize, usize)>) -> Result<(Seq<(usize, usize)>, int), ParseError>
    decreases t.len() - j,
{
    if close_at(t, j, Delim::Brace) {
        Ok((acc, j + 1))
    } else if !name_at(t, j) {
        Err(err(j, Expected::Ident))
    } else if !fat_arrow_at(t, j + 1) {
        Err(err(j + 1, Expected::FatArrow))
    } else if !lit_at(t, j + 3) {
        Err(err(j + 3, Expected::Literal))
    } else {
        let k = if punct_at(t, j + 4, ',') { j + 5 } else { j + 4 };
        if k <= t.len() {
            tag_values(t, k, acc.push((j as usize, (j + 3) as usize)))
        } else {
            Err(err(j, Expected::Ident))
        }
    }
}

/// A tag definition at `i`.
pub open spec fn tag_def_at(t: Seq<Tok>, i: int) -> Result<(TagDef, int), ParseError> {
    let v = vis_end(t, i);
    if !name_at(t, v) {
        Err(err(v, Expected::Ident))
    } else if !fat_arrow_at(t, v + 1) {
        Err(err(v + 1, Expected::FatArrow))
    } else if !lit_at(t, v + 3) {
        Err(err(v + 3, Expected::Literal))
    } else {
        let d = TagDef {
            vis: Span { start: i as usize, end: v as usize },
            ident: v as usize,
            export_name: (v + 3) as usize,
            values: None,
        };
        if open_at(t, v + 4, Delim::Brace) {
            match tag_values(t, v + 5, Seq::empty()) {
                Ok((vals, e)) => Ok((TagDef { values: Some(vals), ..d }, e)),
                Err(x) => Err(x),
            }
        } else if punct_at(t, v + 4, ';') {
            Ok((d, v + 5))
        } else {
            Err(err(v + 4, Expected::Semicolon))
        }
    }
}

/// The tag definitions from `j` to the end, after `acc`; each optionally
/// followed by a comma.
pub open spec fn tag_defs_from(t: Seq<Tok>, j: int, acc: Seq<TagDef>) -> Result<Seq<TagDef>, ParseError>
    decreases t.len() - j,
{
    if j >= t.len() {
        Ok(acc)
    } else {
        match tag_def_at(t, j) {
            Ok((d, k)) => {
                let k2 = if punct_at(t, k, ',') { k + 1 } else { k };
                if j < k2 <= t.len() {
                    tag_defs_from(t, k2, acc.push(d))
                } else {
                    Err(err(j, Expected::Ident))
                }
            },
            Err(x) => Err(x),
        }
    }
}

/// The whole input of `define_tags!`.
pub open spec fn tags_input(t: Seq<Tok>) -> Result<Seq<TagDef>, ParseError> {
    tag_defs_from(t, 0, Seq::empty())
}

/// The tokens of one enum value, `Variant => "value"`.
pub open spec fn value_item_toks(v: (String, String)) -> Seq<Tok> {
    seq![Tok::Ident(v.0), Tok::Punct('=', true), Tok::Punct('>', false), Tok::Lit(v.1)]
}

/// The tokens of a list of enum values separated by commas, with a comma
/// after the last one when `trailing` is set.
pub open spec fn value_list_toks(vals: Seq<(String, String)>, trailing: bool) -> Seq<Tok>
    decreases vals.len(),
{
    if vals.len() == 0 {
        Seq::empty()
    } else {
        value_item_toks(vals[0]) + (if vals.len() > 1 || trailing {
            seq![Tok::Punct(',', false)]
        } else {
            Seq::empty()
        }) + value_list_toks(vals.drop_first(), trailing)
    }
}

/// Where the values of such a list sit when it starts at `j`: the `i`-th
/// variant at `j + 5i`, its value three tokens later.
pub open spec fn value_positions(j: int, n: nat) -> Seq<(usize, usize)> {
    Seq::new(n, |i: int| ((j + 5 * i) as usize, (j + 5 * i + 3) as usize))
}

proof fn lemma_tag_values_list(
    t: Seq<Tok>,
    j: int,
    vals: Seq<(String, String)>,
    trailing: bool,
    acc: Seq<(usize, usize)>,
)
    requires
        0 <= j,
        j + value_list_toks(vals, trailing).len() < t.len(),
        t.subrange(j, j + value_list_toks(vals, trailing).len()) == value_list_toks(vals, trailing),
        close_at(t, j + value_list_toks(vals, trailing).len(), Delim::Brace),
        forall|i: int| 0 <= i < vals.len() ==> !rust_keywords().contains((#[trigger] vals[i]).0@),
    ensures
        tag_values(t, j, acc) == Ok::<(Seq<(usize, usize)>, int), ParseError>(
            (acc + value_positions(j, vals.len()), j + value_list_toks(vals, trailing).len() + 1),
        ),
    decreases vals.len(),
{
    let vl = value_list_toks(vals, trailing);
    if vals.len() == 0 {
        assert(acc + value_positions(j, 0) =~= acc);
    } else {
        let item = value_item_toks(vals[0]);
        let sep: Seq<Tok> = if vals.len() > 1 || trailing {
            seq![Tok::Punct(',', false)]
        } else {
            Seq::empty()
        };
        let rest = vals.drop_first();
        let rl = value_list_toks(rest, trailing);
        assert(vl == item + sep + rl);
        assert forall|i: int| 0 <= i < vl.len() implies t[j + i] == vl[i] by {
            assert(t.subrange(j, j + vl.len())[i] == t[j + i]);
        }
        assert(t[j] == vl[0]);
        assert(t[j + 1] == vl[1]);
        assert(t[j + 2] == vl[2]);
        assert(t[j + 3] == vl[3]);
        assert(!rust_keywords().contains(vals[0].0@));
        assert(text_at(t, j) == vals[0].0@);
        let k = j + 4 + sep.len();
        if sep.len() == 1 {
            assert(t[j + 4] == vl[4]);
        } else {
            assert(rl.len() == 0) by {
                assert(rest.len() == 0);
            }
            assert(vl.len() == 4);
        }
        assert(t.subrange(k, k + rl.len()) =~= rl) by {
            assert forall|i: int| 0 <= i < rl.len() implies t.subrange(k, k + rl.len())[i] == rl[i] by {
                assert(vl[4 + sep.len() + i] == rl[i]);
                assert(t[j + 4 + sep.len() + i] == vl[4 + sep.len() + i]);
            }
        }
        assert forall|i: int| 0 <= i < rest.len() implies !rust_keywords().contains(
            (#[trigger] rest[i]).0@,
        ) by {
            assert(rest[i] == vals[i + 1]);
        }
        let acc2 = acc.push((j as usize, (j + 3) as usize));
        lemma_tag_values_list(t, k, rest, trailing, acc2);
        assert(acc2 + value_positions(k, rest.len()) =~= acc + value_positions(j, vals.len()));
    }
}

/// Enum tag values are `Variant => "value"` items separated by commas, and
/// the comma after the last one is optional: an input of `define_tags!`
/// that defines one enum tag (with or without `pub`) parses into that one
/// tag with exactly the given values, in order, whether or not a comma
/// follows the last value.
pub proof fn lemma_enum_tag_parses(
    t: Seq<Tok>,
    public: bool,
    pub_word: String,
    tag: String,
    export: String,
    vals: Seq<(String, String)>,
    trailing: bool,
)
    requires
        pub_word@ == "pub"@,
        !rust_keywords().contains(tag@),
        forall|i: int| 0 <= i < vals.len() ==> !rust_keywords().contains((#[trigger] vals[i]).0@),
        t == (if public { seq![Tok::Ident(pub_word)] } else { Seq::empty() }) + seq![
            Tok::Ident(tag),
            Tok::Punct('=', true),
            Tok::Punct('>', false),
            Tok::Lit(export),
            Tok::Open(Delim::Brace),
        ] + value_list_toks(vals, trailing) + seq![Tok::Close(Delim::Brace)],
    ensures
        ({
            let p: int = if public { 1 } else { 0 };
            tags_input(t) == Ok::<Seq<TagDef>, ParseError>(
                seq![
                    TagDef {
                        vis: Span { start: 0, end: p as usize },
                        ident: p as usize,
                        export_name: (p + 3) as usize,
                        values: Some(value_positions(p + 5, vals.len())),
                    },
                ],
            )
        }),
{
    reveal_strlit("pub");
    let p: int = if public { 1 } else { 0 };
    let vl = value_list_toks(vals, trailing);
    let pre: Seq<Tok> = if public { seq![Tok::Ident(pub_word)] } else { Seq::empty() };
    let head = seq![
        Tok::Ident(tag),
        Tok::Punct('=', true),
        Tok::Punct('>', false),
        Tok::Lit(export),
        Tok::Open(Delim::Brace),
    ];
    assert(pre.len() == p);
    assert(t.len() == p + 5 + vl.len() + 1);
    assert(t[p] == Tok::Ident(tag));
    assert(t[p + 1] == Tok::Punct('=', true));
    assert(t[p + 2] == Tok::Punct('>', false));
    assert(t[p + 3] == Tok::Lit(export));
    assert(t[p + 4] == Tok::Open(Delim::Brace));
    assert(t[p + 5 + vl.len()] == Tok::Close(Delim::Brace));
    if public {
        assert(t[0] == Tok::Ident(pub_word));
        assert(word_at(t, 0, "pub"@));
        assert(!open_at(t, 1, Delim::Paren));
        assert(vis_end(t, 0) == 1);
    } else {
        assert(!word_at(t, 0, "pub"@)) by {
            if word_at(t, 0, "pub"@) {
                assert(tag@ == "pub"@);
                assert(rust_keywords()[23] == "pub"@);
            }
        }
        assert(vis_end(t, 0) == 0);
    }
    assert(t.subrange(p + 5, p + 5 + vl.len()) =~= vl) by {
        assert forall|i: int| 0 <= i < vl.len() implies t.subrange(p + 5, p + 5 + vl.len())[i] == vl[i] by {
            assert(t[p + 5 + i] == vl[i]);
        }
    }
    lemma_tag_values_list(t, p + 5, vals, trailing, Seq::empty());
    assert(Seq::<(usize, usize)>::empty() + value_positions(p + 5, vals.len()) =~= value_positions(
        p + 5,
        vals.len(),
    ));
    let e = p + 5 + vl.len() + 1;
    assert(e == t.len());
    assert(!punct_at(t, e, ','));
    assert(tag_defs_from(t, e, seq![
        TagDef {
            vis: Span { start: 0, end: p as usize },
            ident: p as usize,
            export_name: (p + 3) as usize,
            values: Some(value_positions(p + 5, vals.len())),
        },
    ]) == Ok::<Seq<TagDef>, ParseError>(seq![
        TagDef {
            vis: Span { start: 0, end: p as usize },
            ident: p as usize,
            export_name: (p + 3) as usize,
            values: Some(value_positions(p + 5, vals.len())),
        },
    ]));
    assert(Seq::<TagDef>::empty().push(TagDef {
        vis: Span { start: 0, end: p as usize },
        ident: p as usize,
        export_name: (p + 3) as usize,
        values: Some(value_positions(p + 5, vals.len())),
    }) =~= seq![
        TagDef {
            vis: Span { start: 0, end: p as usize },
            ident: p as usize,
            export_name: (p + 3) as usize,
            values: Some(value_positions(p + 5, vals.len())),
        },
    ]);
}

/// The values of parsed tag definitions.
pub open spec fn tag_defs(v: Seq<TagDefAt>) -> Seq<TagDef> {
    v.map_values(|d: TagDefAt| d@)
}

fn parse_tag_def(t: &Vec<Tok>, i: usize) -> (r: Result<(TagDefAt, usize), ParseError>)
    requires
        t@.len() < usize::MAX - 16,
        i <= t@.len(),
    ensures
        tag_def_at(t@, i as int) == match r {
            Ok((d, e)) => Ok((d@, e as int)),
            Err(x) => Err(x),
        },
{
    let v = parse_vis(t, i);
    if !is_name(t, v) {
        return Err(ParseError { at: v, expected: Expected::Ident });
    }
    if !is_fat_arrow(t, v + 1) {
        return Err(ParseError { at: v + 1, expected: Expected::FatArrow });
    }
    if !is_lit(t, v + 3) {
        return Err(ParseError { at: v + 3, expected: Expected::Literal });
    }
    if is_open(t, v + 4, Delim::Brace) {
        let mut vals: Vec<(usize, usize)> = Vec::new();
        let mut j = v + 5;
        while !is_close(t, j, Delim::Brace)
            invariant
                t@.len() < usize::MAX - 16,
                j <= t@.len(),
                tag_values(t@, v + 5, Seq::empty()) == tag_values(t@, j as int, vals@),
                v as int == vis_end(t@, i as int),
                name_at(t@, v as int),
                fat_arrow_at(t@, v + 1),
                lit_at(t@, v + 3),
                open_at(t@, v + 4, Delim::Brace),
            decreases t@.len() - j,
        {
            if !is_name(t, j) {
                return Err(ParseError { at: j, expected: Expected::Ident });
            }
            if !is_fat_arrow(t, j + 1) {
                return Err(ParseError { at: j + 1, expected: Expected::FatArrow });
            }
            if !is_lit(t, j + 3) {
                return Err(ParseError { at: j + 3, expected: Expected::Literal });
            }
            let k = if is_punct(t, j + 4, ',') { j + 5 } else { j + 4 };
            if k <= t.len() {
                vals.push((j, j + 3));
                j = k;
            } else {
                return Err(ParseError { at: j, expected: Expected::Ident });
            }
        }
        let d = TagDefAt { vis: Span { start: i, end: v }, ident: v, export_name: v + 3, values: Some(vals) };
        Ok((d, j + 1))
    } else if is_punct(t, v + 4, ';') {
        Ok((TagDefAt { vis: Span { start: i, end: v }, ident: v, export_name: v + 3, values: None }, v + 5))
    } else {
        Err(ParseError { at: v + 4, expected: Expected::Semicolon })
    }
}

/// Read the input of `define_tags!`. On tokens that do not follow the
/// grammar, the error says where and what was expected there.
pub fn parse_tags_input(t: &Vec<Tok>) -> (r: Result<Vec<TagDefAt>, ParseError>)
    requires
        t@.len() < usize::MAX - 16,
    ensures
        tags_input(t@) == match r {
            Ok(v) => Ok(tag_defs(v@)),
            Err(x) => Err(x),
        },
{
    let mut defs: Vec<TagDefAt> = Vec::new();
    let mut j: usize = 0;
    assert(tag_defs(defs@) =~= Seq::<TagDef>::empty());
    while j < t.len()
        invariant
            t@.len() < usize::MAX - 16,
            j <= t@.len(),
            tags_input(t@) == tag_defs_from(t@, j as int, tag_defs(defs@)),
        decreases t@.len() - j,
    {
        match parse_tag_def(t, j) {
            Ok((d, k)) => {
                let k2 = if is_punct(t, k, ',') { k + 1 } else { k };
                if j < k2 && k2 <= t.len() {
                    let ghost before = defs@;
                    defs.push(d);
                    assert(tag_defs(defs@) =~= tag_defs(before).push(d@));
                    j = k2;
                } else {
                    return Err(ParseError { at: j, expected: Expected::Ident });
                }
            },
            Err(x) => {
                return Err(x);
            },
        }
    }
    Ok(defs)
}

/// A namespace definition: `vis Ident [(parent = Path)] => "segment";`.
#[derive(Clone, Copy, Debug, PartialEq, Eq, Structural)]
pub struct NamespaceDefAt {
    pub vis: Span,
    pub ident: usize,
    pub parent: Option<Span>,
    pub segment: usize,
}

/// The optional parent of a namespace at `p`, and where it ends.
pub open spec fn parent_at(t: Seq<Tok>, p: int) -> Result<(Option<Span>, int), ParseError> {
    if open_at(t, p, Delim::Paren) {
        if !word_at(t, p + 1, "parent"@) {
            Err(err(p + 1, Expected::Parent))
        } else if !punct_at(t, p + 2, '=') {
            Err(err(p + 2, Expected::Equals))
        } else {
            match path_end(t, p + 3) {
                Ok(e) => if close_at(t, e, Delim::Paren) {
                    Ok((Some(Span { start: (p + 3) as usize, end: e as usize }), e + 1))
                } else {
                    Err(err(e, Expected::CloseParen))
                },
                Err(x) => Err(x),
            }
        }
    } else {
        Ok((None, p))
    }
}

/// A namespace definition at `i`.
pub open spec fn namespace_def_at(t: Seq<Tok>, i: int) -> Result<(NamespaceDefAt, int), ParseError> {
    let v = vis_end(t, i);
    if !name_at(t, v) {
        Err(err(v, Expected::Ident))
    } else {
        match parent_at(t, v + 1) {
            Err(x) => Err(x),
            Ok((parent, q)) => if !fat_arrow_at(t, q) {
                Err(err(q, Expected::FatArrow))
            } else if !lit_at(t, q + 2) {
                Err(err(q + 2, Expected::Literal))
            } else if !punct_at(t, q + 3, ';') {
                Err(err(q + 3, Expected::Semicolon))
            } else {
                Ok((
                    NamespaceDefAt {
                        vis: Span { start: i as usize, end: v as usize },
                        ident: v as usize,
                        parent,
                        segment: (q + 2) as usize,
                    },
                    q + 4,
                ))
            },
        }
    }
}

/// The namespace definitions from `j` to the end, after `acc`.
pub open spec fn namespace_defs_from(t: Seq<Tok>, j: int, acc: Seq<NamespaceDefAt>) -> Result<Seq<NamespaceDefAt>, ParseError>
    decreases t.len() - j,
{
    if j >= t.len() {
        Ok(acc)
    } else {
        match namespace_def_at(t, j) {
            Ok((d, k)) => if j < k <= t.len() {
                namespace_defs_from(t, k, acc.push(d))
            } else {
                Err(err(j, Expected::Ident))
            },
            Err(x) => Err(x),
        }
    }
}

/// The whole input of `define_namespaces!`.
pub open spec fn namespaces_input(t: Seq<Tok>) -> Result<Seq<NamespaceDefAt>, ParseError> {
    namespace_defs_from(t, 0, Seq::empty())
}

fn parse_namespace_def(t: &Vec<Tok>, i: usize) -> (r: Result<(NamespaceDefAt, usize), ParseError>)
    requires
        t@.len() < usize::MAX - 16,
        i <= t@.len(),
    ensures
        namespace_def_at(t@, i as int) == match r {
            Ok((d, e)) => Ok((d, e as int)),
            Err(x) => Err(x),
        },
{
    let v = parse_vis(t, i);
    if !is_name(t, v) {
        return Err(ParseError { at: v, expected: Expected::Ident });
    }
    let p = v + 1;
    let (parent, q) = if is_open(t, p, Delim::Paren) {
        if !is_word(t, p + 1, "parent") {
            return Err(ParseError { at: p + 1, expected: Expected::Parent });
        }
        if !is_punct(t, p + 2, '=') {
            return Err(ParseError { at: p + 2, expected: Expected::Equals });
        }
        match parse_path(t, p + 3) {
            Ok(e) => {
                if is_close(t, e, Delim::Paren) {
                    (Some(Span { start: p + 3, end: e }), e + 1)
                } else {
                    return Err(ParseError { at: e, expected: Expected::CloseParen });
                }
            },
            Err(x) => {
                return Err(x);
            },
        }
    } else {
        (None, p)
    };
    if !is_fat_arrow(t, q) {
        return Err(ParseError { at: q, expected: Expected::FatArrow });
    }
    if !is_lit(t, q + 2) {
        return Err(ParseError { at: q + 2, expected: Expected::Literal });
    }
    if !is_punct(t, q + 3, ';') {
        return Err(ParseError { at: q + 3, expected: Expected::Semicolon });
    }
    Ok((NamespaceDefAt { vis: Span { start: i, end: v }, ident: v, parent, segment: q + 2 }, q + 4))
}

/// Read the input of `define_namespaces!`. On tokens that do not follow
/// the grammar, the error says where and what was expected there.
pub fn parse_namespaces_input(t: &Vec<Tok>) -> (r: Result<Vec<NamespaceDefAt>, ParseError>)
    requires
        t@.len() < usize::MAX - 16,
    ensures
        namespaces_input(t@) == match r {
            Ok(v) => Ok(v@),
            Err(x) => Err(x),
        },
{
    let mut defs: Vec<NamespaceDefAt> = Vec::new();
    let mut j: usize = 0;
    while j < t.len()
        invariant
            t@.len() < usize::MAX - 16,
            j <= t@.len(),
            namespaces_input(t@) == namespace_defs_from(t@, j as int, defs@),
        decreases t@.len() - j,
    {
        match parse_namespace_def(t, j) {
            Ok((d, k)) => {
                if j < k && k <= t.len() {
                    defs.push(d);
                    j = k;
                } else {
                    return Err(ParseError { at: j, expected: Expected::Ident });
                }
            },
            Err(x) => {
                return Err(x);
            },
        }
    }
    Ok(defs)
}

// ---------------------------------------------------------------------------
// What a metric definition expands to
// ---------------------------------------------------------------------------

/// Where the export key of a metric's tag field comes from: the alias it
/// was given (at this position), or the tag type's own export name.
#[derive(Clone, Copy, Debug, PartialEq, Eq, Structural)]
pub enum ExportKey {
    Alias(usize),
    OfTag(Span),
}

/// One field of a generated metric struct: its name, the path of its tag
/// type, whether it is an `Option`, and where its export key comes from.
#[derive(Debug)]
pub struct FieldPlan {
    pub field: String,
    pub ty: Span,
    pub optional: bool,
    pub key: ExportKey,
}

/// What a metric definition expands to: a struct named by the token at
/// `ident` with the given visibility and documentation, its `NAME` (the
/// literal at `name`), its namespace marker (`None` for top-level), its
/// recording kind, and its tag fields in order.
#[derive(Debug)]
pub struct MetricPlan {
    pub vis: Span,
    pub kind: MetricType,
    pub ident: usize,
    pub name: usize,
    pub doc: String,
    pub namespace: Option<Span>,
    pub fields: Vec<FieldPlan>,
}

/// A field's name: its alias, or else the last segment of its tag type in
/// snake case.
pub open spec fn field_name(t: Seq<Tok>, r: TagRefAt) -> Seq<char> {
    match r.alias {
        Some(a) => text_at(t, a as int),
        None => snake_case(text_at(t, r.ty.end - 1)),
    }
}

/// Where a field's export key comes from.
pub open spec fn export_key(r: TagRefAt) -> ExportKey {
    match r.alias {
        Some(a) => ExportKey::Alias(a),
        None => ExportKey::OfTag(r.ty),
    }
}

/// Whether `f` is the field for tag reference `r`.
pub open spec fn field_fits(t: Seq<Tok>, f: FieldPlan, r: TagRefAt) -> bool {
    &&& f.field@ == field_name(t, r)
    &&& f.ty == r.ty
    &&& f.optional == r.optional
    &&& f.key == export_key(r)
}

/// The name of a metric kind.
pub open spec fn kind_text(k: MetricType) -> Seq<char> {
    match k {
        MetricType::Count => "count"@,
        MetricType::Gauge => "gauge"@,
        MetricType::Histogram => "histogram"@,
    }
}

/// A metric's documentation: its description, then its kind in brackets.
pub open spec fn metric_doc(t: Seq<Tok>, m: MetricDef) -> Seq<char> {
    text_at(t, m.description as int) + " ("@ + kind_text(m.kind) + ")"@
}

/// Whether `p` is what metric `m` of group `g` expands to: the group's
/// tags followed by the metric's own become its fields.
pub open spec fn plan_fits(t: Seq<Tok>, p: MetricPlan, g: GroupDef, m: MetricDef) -> bool {
    &&& p.vis == m.vis
    &&& p.kind == m.kind
    &&& p.ident == m.ident
    &&& p.name == m.name
    &&& p.doc@ == metric_doc(t, m)
    &&& p.namespace == g.namespace
    &&& p.fields@.len() == g.tags.len() + m.extra_tags.len()
    &&& forall|j: int|
        0 <= j < p.fields@.len() ==> field_fits(t, #[trigger] p.fields@[j], (g.tags + m.extra_tags)[j])
}

/// Every metric with its group, in definition order.
pub open spec fn flat_metrics(gs: Seq<GroupDef>) -> Seq<(GroupDef, MetricDef)>
    decreases gs.len(),
{
    if gs.len() == 0 {
        Seq::empty()
    } else {
        let g = gs.last();
        flat_metrics(gs.drop_last()) + g.metrics.map_values(|m: MetricDef| (g, m))
    }
}

/// The text of the identifier or literal at `i`, owned.
pub fn token_text(t: &Vec<Tok>, i: usize) -> (r: String)
    ensures
        r@ == text_at(t@, i as int),
{
    if i < t.len() {
        match &t[i] {
            Tok::Ident(s) => s.clone(),
            Tok::Lit(s) => s.clone(),
            _ => String::new(),
        }
    } else {
        String::new()
    }
}

fn plan_field(t: &Vec<Tok>, r: &TagRefAt) -> (f: FieldPlan)
    ensures
        field_fits(t@, f, *r),
{
    let field = match r.alias {
        Some(a) => token_text(t, a),
        None => {
            if r.ty.end == 0 {
                let empty = String::new();
                assert(snake_case(empty@) =~= Seq::<char>::empty());
                assert(text_at(t@, -1) =~= Seq::<char>::empty());
                empty
            } else {
                let last = token_text(t, r.ty.end - 1);
                to_snake_case(last.as_str())
            }
        },
    };
    let key = match r.alias {
        Some(a) => ExportKey::Alias(a),
        None => ExportKey::OfTag(r.ty),
    };
    FieldPlan { field, ty: r.ty, optional: r.optional, key }
}

fn kind_name(k: MetricType) -> (s: &'static str)
    ensures
        s@ == kind_text(k),
{
    match k {
        MetricType::Count => "count",
        MetricType::Gauge => "gauge",
        MetricType::Histogram => "histogram",
    }
}

fn plan_metric(t: &Vec<Tok>, g: &GroupAt, m: &MetricAt) -> (p: MetricPlan)
    ensures
        plan_fits(t@, p, g@, m@),
{
    let mut doc = token_text(t, m.description);
    doc.append(" (");
    doc.append(kind_name(m.kind));
    doc.append(")");
    let mut fields: Vec<FieldPlan> = Vec::new();
    let ghost all = g@.tags + m@.extra_tags;
    let mut i: usize = 0;
    while i < g.tags.len()
        invariant
            all == g@.tags + m@.extra_tags,
            i <= g.tags@.len(),
            fields@.len() == i,
            forall|j: int| 0 <= j < i ==> field_fits(t@, #[trigger] fields@[j], all[j]),
        decreases g.tags@.len() - i,
    {
        fields.push(plan_field(t, &g.tags[i]));
        i = i + 1;
    }
    let mut k: usize = 0;
    while k < m.extra_tags.len()
        invariant
            all == g@.tags + m@.extra_tags,
            k <= m.extra_tags@.len(),
            fields@.len() == g.tags@.len() + k,
            forall|j: int| 0 <= j < fields@.len() ==> field_fits(t@, #[trigger] fields@[j], all[j]),
        decreases m.extra_tags@.len() - k,
    {
        assert(all[g.tags@.len() + k] == m.extra_tags@[k as int]);
        fields.push(plan_field(t, &m.extra_tags[k]));
        k = k + 1;
    }
    let p = MetricPlan {
        vis: m.vis,
        kind: m.kind,
        ident: m.ident,
        name: m.name,
        doc,
        namespace: g.namespace,
        fields,
    };
    assert(p.doc@ =~= metric_doc(t@, m@));
    p
}

/// What every metric of the parsed groups expands to, in definition order.
pub fn plan_metrics(t: &Vec<Tok>, groups: &Vec<GroupAt>) -> (r: Vec<MetricPlan>)
    ensures
        r@.len() == flat_metrics(group_defs(groups@)).len(),
        forall|k: int|
            0 <= k < r@.len() ==> plan_fits(
                t@,
                #[trigger] r@[k],
                flat_metrics(group_defs(groups@))[k].0,
                flat_metrics(group_defs(groups@))[k].1,
            ),
{
    let ghost gs = group_defs(groups@);
    let mut out: Vec<MetricPlan> = Vec::new();
    let mut gi: usize = 0;
    while gi < groups.len()
        invariant
            gs == group_defs(groups@),
            gi <= groups@.len(),
            out@.len() == flat_metrics(gs.take(gi as int)).len(),
            forall|k: int|
                0 <= k < out@.len() ==> plan_fits(
                    t@,
                    #[trigger] out@[k],
                    flat_metrics(gs.take(gi as int))[k].0,
                    flat_metrics(gs.take(gi as int))[k].1,
                ),
        decreases groups@.len() - gi,
    {
        let g = &groups[gi];
        let ghost before = flat_metrics(gs.take(gi as int));
        let ghost gd = gs[gi as int];
        assert(gd == g@);
        let mut mi: usize = 0;
        while mi < g.metrics.len()
            invariant
                gd == g@,
                mi <= g.metrics@.len(),
                out@.len() == before.len() + mi,
                forall|k: int|
                    0 <= k < out@.len() ==> plan_fits(
                        t@,
                        #[trigger] out@[k],
                        (before + gd.metrics.map_values(|m: MetricDef| (gd, m)))[k].0,
                        (before + gd.metrics.map_values(|m: MetricDef| (gd, m)))[k].1,
                    ),
            decreases g.metrics@.len() - mi,
        {
            let p = plan_metric(t, g, &g.metrics[mi]);
            assert(gd.metrics[mi as int] == g.metrics@[mi as int]@);
            out.push(p);
            mi = mi + 1;
        }
        proof {
            assert(gs.take(gi as int + 1).drop_last() =~= gs.take(gi as int));
            assert(gs.take(gi as int + 1).last() == gd);
        }
        gi = gi + 1;
    }
    assert(gs.take(groups@.len() as int) =~= gs);
    out
}

} // verus!
