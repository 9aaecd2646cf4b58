//! The text of a module: how it is parsed, and what it loads.

use starlark::codemap::{CodeMap, ResolvedSpan};
use starlark::errors::EvalMessage;
use starlark::syntax::ast::StmtP;
use starlark::syntax::{AstModule, Dialect};
use starlark_syntax::lexer::Lexer;
use starlark_syntax::syntax::top_level_stmts::top_level_stmts;
use vstd::prelude::*;

use crate::diagnostic::SourceSpan;
use crate::text::{chars_of, same, texts};

verus! {

// ---------------------------------------------------------------------------------------------
// How deep a text is nested

/// The tokens of a text up to the first that `starlark_syntax::lexer::Lexer` refuses, each in the words
/// of its `Display`.
pub uninterp spec fn tokens_of(contents: Seq<char>) -> Seq<Seq<char>>;

/// The number of characters that a text can have: positions in it are counted in bytes and have 32
/// bits.
pub const TEXT_LIMIT: usize = 0x3FFF_FFFF;

/// `starlark_syntax::lexer::Lexer`, by its name.
#[verifier::external_body]
fn lex(contents: &str) -> (r: Vec<String>)
    requires
        contents@.len() <= TEXT_LIMIT,
    ensures
        texts(r@) == tokens_of(contents@),
{
    let codemap = CodeMap::new(String::new(), contents.to_owned());
    let lexer = Lexer::new(contents, &Dialect::Extended, codemap);
    lexer.map_while(|token| token.ok()).map(|token| token.1.to_string()).collect()
}

/// Whether a token begins a bracket or an expression in a string.
pub open spec fn opens(t: Seq<char>) -> bool {
    t == "symbol '('"@ || t == "symbol '['"@ || t == "symbol '{'"@ || t
        == "f-string expression start '{'"@
}

/// Whether a token begins a block.
pub open spec fn indents(t: Seq<char>) -> bool {
    t == "new indentation block"@
}

/// Whether a token ends a bracket, an expression in a string, or a block.
pub open spec fn closes(t: Seq<char>) -> bool {
    t == "symbol ')'"@ || t == "symbol ']'"@ || t == "symbol '}'"@ || t
        == "f-string expression end '}'"@ || t == "end of indentation block"@
}

/// Whether a token parts what stands side by side.
pub open spec fn parts(t: Seq<char>) -> bool {
    t == "symbol ','"@ || t == "symbol ';'"@ || t == "new line"@
}

/// Whether a token takes in what comes after it, up to the end of the bracket or block.
pub open spec fn takes_in(t: Seq<char>) -> bool {
    t == "keyword 'lambda'"@ || t == "keyword 'elif'"@
}

/// Whether a token takes in the operand after it.
pub open spec fn is_prefix(t: Seq<char>) -> bool {
    t == "symbol '-'"@ || t == "symbol '+'"@ || t == "symbol '~'"@ || t == "keyword 'not'"@ || t
        == "keyword 'if'"@ || t == "keyword 'else'"@
}

/// How deep a text is nested at a token, in measures of what a parser has to keep.
pub ghost struct Nesting {
    /// Where each bracket and block that is open begins, and the text itself.
    pub levels: Seq<int>,
    pub now: int,
    /// The deepest up to here.
    pub most: int,
}

/// The nesting after one more token.
pub open spec fn nested(n: Nesting, t: Seq<char>) -> Nesting {
    let (levels, now) = if opens(t) {
        (n.levels.push(n.now + 40), n.now + 40)
    } else if indents(t) {
        (n.levels.push(n.now + 25), n.now + 25)
    } else if closes(t) {
        if n.levels.len() > 1 {
            (n.levels.drop_last(), n.levels.last())
        } else {
            (n.levels, n.now)
        }
    } else if parts(t) {
        (n.levels, n.levels.last())
    } else if takes_in(t) {
        (n.levels.update(n.levels.len() - 1, n.levels.last() + 20), n.now + 20)
    } else if is_prefix(t) {
        (n.levels, n.now + 5)
    } else {
        (n.levels, n.now + 1)
    };
    Nesting {
        levels,
        now,
        most: if now > n.most {
            now
        } else {
            n.most
        },
    }
}

/// The nesting after some tokens.
pub open spec fn nesting(tokens: Seq<Seq<char>>) -> Nesting
    decreases tokens.len(),
{
    if tokens.len() == 0 {
        Nesting { levels: seq![0], now: 0, most: 0 }
    } else {
        nested(nesting(tokens.drop_last()), tokens.last())
    }
}

/// How deep a text may be nested. The parser calls itself for what is nested; a measure stands for half
/// a kilobyte of stack at most, so the two megabytes of a thread hold this many.
pub const NESTING_LIMIT: usize = 4000;

/// Whether a text can be parsed within the limits of the machine.
pub open spec fn fits(contents: Seq<char>) -> bool {
    contents.len() <= TEXT_LIMIT && nesting(tokens_of(contents)).most <= NESTING_LIMIT
}

/// Levels grow from one to the next, and what is open now stands at the last or deeper.
proof fn lemma_nesting(tokens: Seq<Seq<char>>)
    ensures
        nesting(tokens).levels.len() >= 1,
        forall|j: int, k: int|
            0 <= j <= k < nesting(tokens).levels.len() ==> 0 <= #[trigger] nesting(tokens).levels[j]
                <= #[trigger] nesting(tokens).levels[k],
        nesting(tokens).levels.last() <= nesting(tokens).now <= nesting(tokens).most,
    decreases tokens.len(),
{
    if tokens.len() > 0 {
        lemma_nesting(tokens.drop_last());
        let a = nesting(tokens.drop_last()).levels;
        let b = nesting(tokens).levels;
        assert forall|j: int, k: int| 0 <= j <= k < b.len() implies 0 <= #[trigger] b[j] <= #[trigger] b[k] by {
            assert(0 <= a[0]);
            if k < a.len() {
                assert(0 <= a[j] <= a[k]);
            } else if j < a.len() {
                assert(a[j] <= a[a.len() - 1]);
            }
        }
        assert(a.last() == a[a.len() - 1]);
        if b.len() < a.len() {
            assert(b.last() == a[b.len() - 1]);
            assert(a[b.len() - 1] <= a[a.len() - 1]);
        }
    }
}

/// A text does not become less deep by what comes after.
proof fn lemma_deepest(tokens: Seq<Seq<char>>, k: int)
    requires
        0 <= k <= tokens.len(),
    ensures
        nesting(tokens.take(k)).most <= nesting(tokens).most,
    decreases tokens.len(),
{
    if k == tokens.len() {
        assert(tokens.take(k) =~= tokens);
    } else {
        assert(tokens.drop_last().take(k) =~= tokens.take(k));
        lemma_deepest(tokens.drop_last(), k);
    }
}

/// The kinds of tokens that nesting goes by.
#[derive(Clone, Copy, PartialEq, Eq, Structural, Debug)]
enum TokenKind {
    Opens,
    Indents,
    Closes,
    Parts,
    TakesIn,
    Prefix,
    Plain,
}

/// The kind of a token.
closed spec fn kind_of(t: Seq<char>) -> TokenKind {
    if opens(t) {
        TokenKind::Opens
    } else if indents(t) {
        TokenKind::Indents
    } else if closes(t) {
        TokenKind::Closes
    } else if parts(t) {
        TokenKind::Parts
    } else if takes_in(t) {
        TokenKind::TakesIn
    } else if is_prefix(t) {
        TokenKind::Prefix
    } else {
        TokenKind::Plain
    }
}

/// Finds the kind of a token.
fn kind(t: &str) -> (r: TokenKind)
    ensures
        r == kind_of(t@),
{
    if same(t, "symbol '('") || same(t, "symbol '['") || same(t, "symbol '{'") || same(
        t,
        "f-string expression start '{'",
    ) {
        TokenKind::Opens
    } else if same(t, "new indentation block") {
        TokenKind::Indents
    } else if same(t, "symbol ')'") || same(t, "symbol ']'") || same(t, "symbol '}'") || same(
        t,
        "f-string expression end '}'",
    ) || same(t, "end of indentation block") {
        TokenKind::Closes
    } else if same(t, "symbol ','") || same(t, "symbol ';'") || same(t, "new line") {
        TokenKind::Parts
    } else if same(t, "keyword 'lambda'") || same(t, "keyword 'elif'") {
        TokenKind::TakesIn
    } else if same(t, "symbol '-'") || same(t, "symbol '+'") || same(t, "symbol '~'") || same(
        t,
        "keyword 'not'",
    ) || same(t, "keyword 'if'") || same(t, "keyword 'else'") {
        TokenKind::Prefix
    } else {
        TokenKind::Plain
    }
}

/// The numbers of a list.
spec fn numbers(v: Seq<usize>) -> Seq<int> {
    Seq::new(v.len(), |i: int| v[i] as int)
}

/// Whether tokens are nested no deeper than the limit.
fn is_shallow(tokens: &Vec<String>) -> (r: bool)
    ensures
        r == (nesting(texts(tokens@)).most <= NESTING_LIMIT),
{
    let ghost all = texts(tokens@);
    let mut levels: Vec<usize> = Vec::new();
    levels.push(0);
    let mut now: usize = 0;
    let mut i: usize = 0;
    proof {
        assert(all.take(0) =~= Seq::<Seq<char>>::empty());
        assert(numbers(levels@) =~= seq![0int]);
    }
    while i < tokens.len()
        invariant
            i <= tokens@.len(),
            all == texts(tokens@),
            numbers(levels@) == nesting(all.take(i as int)).levels,
            now == nesting(all.take(i as int)).now,
            nesting(all.take(i as int)).most <= NESTING_LIMIT,
        decreases tokens@.len() - i,
    {
        let ghost n = nesting(all.take(i as int));
        let ghost before = levels@;
        proof {
            assert(all.take(i + 1).drop_last() =~= all.take(i as int));
            assert(all.take(i + 1).last() == tokens@[i as int]@);
            lemma_nesting(all.take(i as int));
            assert(n.levels.len() == levels@.len());
            assert(n.levels.last() == levels@[levels@.len() - 1]);
        }
        let last: usize = levels[levels.len() - 1];
        match kind(tokens[i].as_str()) {
            TokenKind::Opens => {
                now = now + 40;
                levels.push(now);
            },
            TokenKind::Indents => {
                now = now + 25;
                levels.push(now);
            },
            TokenKind::Closes => {
                if levels.len() > 1 {
                    let _ = levels.pop();
                    now = last;
                }
            },
            TokenKind::Parts => {
                now = last;
            },
            TokenKind::TakesIn => {
                let _ = levels.pop();
                levels.push(last + 20);
                now = now + 20;
            },
            TokenKind::Prefix => {
                now = now + 5;
            },
            TokenKind::Plain => {
                now = now + 1;
            },
        }
        proof {
            assert(numbers(levels@) =~= nested(n, tokens@[i as int]@).levels);
            lemma_deepest(all, i + 1);
        }
        if now > NESTING_LIMIT {
            return false;
        }
        i += 1;
    }
    proof {
        assert(all.take(all.len() as int) =~= all);
    }
    true
}

// ---------------------------------------------------------------------------------------------
// Parsing

/// The tree of a module, for those who run it.
#[verifier::external_type_specification]
#[verifier::external_body]
pub struct ExAstModule(AstModule);

/// A `load()` statement of a text.
pub struct LoadAt {
    /// The load path.
    pub path: String,
    /// The names that it asks for, as they are called in the module that is loaded.
    pub names: Vec<String>,
    /// Where the load path is written.
    pub path_span: SourceSpan,
    /// Where the statement is written.
    pub span: SourceSpan,
}

/// The contents of a `load()` statement.
pub type LoadAtView = (Seq<char>, Seq<Seq<char>>, SourceSpan, SourceSpan);

impl View for LoadAt {
    type V = LoadAtView;

    open spec fn view(&self) -> LoadAtView {
        (self.path@, texts(self.names@), self.path_span, self.span)
    }
}

impl LoadAt {
    /// A `load()` statement.
    pub fn new(path: String, names: Vec<String>, path_span: SourceSpan, span: SourceSpan) -> (r:
        LoadAt)
        ensures
            r@ == (path@, texts(names@), path_span, span),
    {
        LoadAt { path, names, path_span, span }
    }
}

/// The contents of statements, `load()` or other.
pub open spec fn statement_views(v: Seq<Option<LoadAt>>) -> Seq<Option<LoadAtView>> {
    Seq::new(
        v.len(),
        |i: int|
            match v[i] {
                Some(load) => Some(load@),
                None => None,
            },
    )
}

/// What is wrong with a text, and where.
pub struct SourceFault {
    pub message: String,
    pub span: Option<SourceSpan>,
}

impl View for SourceFault {
    type V = (Seq<char>, Option<SourceSpan>);

    open spec fn view(&self) -> (Seq<char>, Option<SourceSpan>) {
        (self.message@, self.span)
    }
}

/// The statements at the top of a module that `starlark::syntax::AstModule::parse` reads from a text, in
/// order, `load()` or other; `None` where it refuses the text.
pub uninterp spec fn starlark_parsed(path: Seq<char>, contents: Seq<char>, f_strings: bool) -> Option<
    Seq<Option<(Seq<char>, Seq<Seq<char>>, SourceSpan, SourceSpan)>>,
>;

/// What `starlark::errors::EvalMessage::from_error` makes of the error with which
/// `starlark::syntax::AstModule::parse` refuses a text: the description and the place.
pub uninterp spec fn starlark_fault(path: Seq<char>, contents: Seq<char>, f_strings: bool) -> (
    Seq<char>,
    Option<SourceSpan>,
);

/// The contents of what came of parsing.
pub open spec fn parse_view(r: Option<(AstModule, Vec<Option<LoadAt>>)>) -> Option<
    Seq<Option<LoadAtView>>,
> {
    match r {
        Some((_, v)) => Some(statement_views(v@)),
        None => None,
    }
}

/// `starlark::syntax::AstModule::parse` in the extended dialect, with `f""` strings or without, by its
/// name: the statements are those of `top_level_stmts`, and their places are those of
/// `FileSpan::resolve_span`. Of the tree nothing is said; it is carried to those who run it.
#[verifier::external_body]
fn parse_text(path: &str, contents: &str, f_strings: bool) -> (r: Option<
    (AstModule, Vec<Option<LoadAt>>),
>)
    requires
        fits(contents@),
    ensures
        parse_view(r) == starlark_parsed(path@, contents@, f_strings),
{
    let ast = AstModule::parse(path, contents.to_owned(),
        &Dialect { enable_f_strings: f_strings, ..Dialect::Extended }).ok()?;
    let at = |span| {
        let r = ast.file_span(span).resolve_span();
        SourceSpan::between(r.begin.line, r.begin.column, r.end.line, r.end.column)
    };
    let v = top_level_stmts(ast.statement()).into_iter().map(|s| match &s.node {
        StmtP::Load(l) => Some(LoadAt::new(l.module.node.clone(),
            l.args.iter().map(|a| a.their.node.clone()).collect(), at(l.module.span), at(s.span))),
        _ => None
    }).collect();
    Some((ast, v))
}

/// `starlark::errors::EvalMessage::from_error` on the error with which
/// `starlark::syntax::AstModule::parse` refuses a text, by its name.
#[verifier::external_body]
fn explain_fault(path: &str, contents: &str, f_strings: bool) -> (r: SourceFault)
    requires
        fits(contents@),
        starlark_parsed(path@, contents@, f_strings) is None,
    ensures
        r@ == starlark_fault(path@, contents@, f_strings),
{
    let dialect = Dialect { enable_f_strings: f_strings, ..Dialect::Extended };
    let error = AstModule::parse(path, contents.to_owned(), &dialect).unwrap_err();
    let m = EvalMessage::from_error(path.as_ref(), &error);
    let at = |r: ResolvedSpan| SourceSpan::between(
        r.begin.line,
        r.begin.column,
        r.end.line,
        r.end.column,
    );
    SourceFault { message: m.description, span: m.span.map(at) }
}

/// What comes of parsing a text: its statements, or what is wrong with it. A text that is too long or
/// nested too deep is wrong.
pub open spec fn source_outcome(path: Seq<char>, contents: Seq<char>) -> Result<
    Seq<Option<LoadAtView>>,
    (Seq<char>, Option<SourceSpan>),
> {
    if contents.len() > TEXT_LIMIT {
        Err(("Source is too long"@, None))
    } else if !fits(contents) {
        Err(("Source is nested too deep"@, None))
    } else {
        match starlark_parsed(path, contents, true) {
            Some(v) => Ok(v),
            None => Err(starlark_fault(path, contents, true)),
        }
    }
}

/// A text that was parsed.
pub struct ParsedSource {
    pub path: String,
    pub contents: String,
    pub ast: AstModule,
    /// The statements at the top, `load()` or other.
    pub statements: Vec<Option<LoadAt>>,
}

impl ParsedSource {
    /// The invariant: the statements are those of the text.
    pub open spec fn wf(&self) -> bool {
        source_outcome(self.path@, self.contents@) == Ok::<
            Seq<Option<LoadAtView>>,
            (Seq<char>, Option<SourceSpan>),
        >(statement_views(self.statements@))
    }
}

/// Parses a text.
pub fn parse_ast(path: &str, contents: String) -> (r: Result<ParsedSource, SourceFault>)
    ensures
        match (r, source_outcome(path@, contents@)) {
            (Ok(p), Ok(_)) => p.wf() && p.path@ == path@ && p.contents@ == contents@,
            (Err(e), Err(f)) => e@ == f,
            _ => false,
        },
{
    if contents.as_str().unicode_len() > TEXT_LIMIT {
        return Err(SourceFault { message: "Source is too long".to_owned(), span: None });
    }
    let tokens = lex(contents.as_str());
    if !is_shallow(&tokens) {
        return Err(SourceFault { message: "Source is nested too deep".to_owned(), span: None });
    }
    match parse_text(path, contents.as_str(), true) {
        Some((ast, statements)) => Ok(
            ParsedSource { path: path.to_owned(), contents, ast, statements },
        ),
        None => Err(explain_fault(path, contents.as_str(), true)),
    }
}

// ---------------------------------------------------------------------------------------------
// Bytes, rows and columns

/// The number of bytes of a character in UTF-8.
pub open spec fn width(c: char) -> int {
    if (c as u32) < 0x80 {
        1
    } else if (c as u32) < 0x800 {
        2
    } else if (c as u32) < 0x10000 {
        3
    } else {
        4
    }
}

/// The number of bytes of a text in UTF-8.
pub open spec fn byte_len(s: Seq<char>) -> int
    decreases s.len(),
{
    if s.len() == 0 {
        0
    } else {
        byte_len(s.drop_last()) + width(s.last())
    }
}

/// The row that a text ends in.
pub open spec fn row_after(s: Seq<char>) -> int
    decreases s.len(),
{
    if s.len() == 0 {
        0
    } else if s.last() == '\n' {
        row_after(s.drop_last()) + 1
    } else {
        row_after(s.drop_last())
    }
}

/// The column that a text ends in, in characters.
pub open spec fn col_after(s: Seq<char>) -> int
    decreases s.len(),
{
    if s.len() == 0 || s.last() == '\n' {
        0
    } else {
        col_after(s.drop_last()) + 1
    }
}

/// Whether a byte of a text begins a character or ends the text.
pub open spec fn is_boundary(s: Seq<char>, at: int) -> bool {
    exists|i: int| 0 <= i <= s.len() && byte_len(#[trigger] s.take(i)) == at
}

/// Whether a place is that of a byte in a text.
pub open spec fn is_place_of(s: Seq<char>, at: int, row: int, col: int) -> bool {
    exists|i: int|
        0 <= i <= s.len() && byte_len(#[trigger] s.take(i)) == at && row == row_after(s.take(i))
            && col == col_after(s.take(i))
}

/// The longer the beginning of a text, the more bytes it has.
proof fn lemma_bytes_grow(s: Seq<char>, i: int, j: int)
    requires
        0 <= i <= j <= s.len(),
    ensures
        byte_len(s.take(j)) >= byte_len(s.take(i)) + (j - i),
        byte_len(s.take(i)) >= 0,
    decreases j,
{
    if i < j {
        assert(s.take(j).drop_last() =~= s.take(j - 1));
        lemma_bytes_grow(s, i, j - 1);
    } else if i > 0 {
        assert(s.take(i).drop_last() =~= s.take(i - 1));
        lemma_bytes_grow(s, i - 1, i - 1);
    }
}

/// A byte of a text has one place.
pub proof fn law_place_is_unique(s: Seq<char>, at: int, row: int, col: int, row2: int, col2: int)
    requires
        is_place_of(s, at, row, col),
        is_place_of(s, at, row2, col2),
    ensures
        row == row2 && col == col2,
{
    let i = choose|i: int|
        0 <= i <= s.len() && byte_len(#[trigger] s.take(i)) == at && row == row_after(s.take(i))
            && col == col_after(s.take(i));
    let j = choose|j: int|
        0 <= j <= s.len() && byte_len(#[trigger] s.take(j)) == at && row2 == row_after(s.take(j))
            && col2 == col_after(s.take(j));
    if i < j {
        lemma_bytes_grow(s, i, j);
    } else {
        lemma_bytes_grow(s, j, i);
    }
}

/// Finds the row and the column of a byte.
fn find_place(source: &str, at: usize) -> (r: (usize, usize))
    requires
        is_boundary(source@, at as int),
    ensures
        is_place_of(source@, at as int, r.0 as int, r.1 as int),
{
    let ghost s = source@;
    let chars = chars_of(source);
    let n: usize = chars.len();
    let mut i: usize = 0;
    let mut bytes: usize = 0;
    let mut row: usize = 0;
    let mut col: usize = 0;
    let ghost goal = choose|k: int| 0 <= k <= s.len() && byte_len(#[trigger] s.take(k)) == at;
    proof {
        assert(s.take(0) =~= Seq::<char>::empty());
        assert(byte_len(s.take(0)) == 0);
        lemma_bytes_grow(s, 0, goal);
    }
    while bytes < at
        invariant
            s == chars@,
            n == s.len(),
            0 <= goal <= s.len(),
            byte_len(s.take(goal)) == at,
            i <= goal,
            bytes == byte_len(s.take(i as int)),
            bytes <= at,
            row == row_after(s.take(i as int)),
            col == col_after(s.take(i as int)),
            row <= i,
            col <= i,
        decreases at - bytes,
    {
        proof {
            lemma_bytes_grow(s, i as int, goal);
            assert(i < goal);
            assert(s.take(i + 1).drop_last() =~= s.take(i as int));
            assert(s.take(i + 1).last() == s[i as int]);
            lemma_bytes_grow(s, i + 1, goal);
        }
        let c = chars[i];
        let w: usize = if (c as u32) < 0x80 {
            1
        } else if (c as u32) < 0x800 {
            2
        } else if (c as u32) < 0x10000 {
            3
        } else {
            4
        };
        if c == '\n' {
            row = row + 1;
            col = 0;
        } else {
            col = col + 1;
        }
        bytes = bytes + w;
        i = i + 1;
    }
    (row, col)
}

/// Whether a span is the one from a byte of a text to another.
pub open spec fn is_span_of(s: Seq<char>, begin: int, end: int, r: SourceSpan) -> bool {
    is_place_of(s, begin, r.begin_row as int, r.begin_col as int) && is_place_of(
        s,
        end,
        r.end_row as int,
        r.end_col as int,
    )
}

/// The span from a byte of a text to another, in rows and columns.
pub fn resolved_span_from_byte_span(source: &str, begin: usize, end: usize) -> (r: SourceSpan)
    requires
        begin <= end,
        is_boundary(source@, begin as int),
        is_boundary(source@, end as int),
    ensures
        is_span_of(source@, begin as int, end as int, r),
{
    let (begin_row, begin_col) = find_place(source, begin);
    let (end_row, end_col) = find_place(source, end);
    SourceSpan::between(begin_row, begin_col, end_row, end_col)
}

} // verus!
