use vstd::prelude::*;

use crate::text::{alphanumeric, chars_of, is_alphanumeric, string_of};
use vstd::string::StrSliceExecFns;

verus! {

broadcast use vstd::string::group_string_axioms;

// ---------------------------------------------------------------------------
// Data model
// ---------------------------------------------------------------------------

/// One piece of a string value, as the resolver sees it.
pub enum Fragment {
    Literal(Seq<char>),
    Reference(Seq<char>),
}

/// A variable definition, as the resolver sees it.
pub struct VarDef {
    pub internal: bool,
    pub name: Seq<Fragment>,
    pub value: Seq<Fragment>,
}

/// A parsed configuration file, as the resolver sees it.
pub struct DocModel {
    pub ignore_parents: bool,
    pub allow_shell_exec: bool,
    pub variables: Seq<VarDef>,
}

/// A literal run of text, or a reference to another variable's value.
#[derive(Debug, PartialEq, Eq, Clone)]
pub enum StringPart {
    Literal(String),
    Variable(String),
}

impl View for StringPart {
    type V = Fragment;

    open spec fn view(&self) -> Fragment {
        match self {
            StringPart::Literal(s) => Fragment::Literal(s@),
            StringPart::Variable(s) => Fragment::Reference(s@),
        }
    }
}

/// A string value: the concatenation of its parts once each is resolved.
#[derive(Debug, PartialEq, Eq, Clone)]
pub struct StringRef {
    pub parts: Vec<StringPart>,
}

impl View for StringRef {
    type V = Seq<Fragment>;

    open spec fn view(&self) -> Seq<Fragment> {
        self.parts@.map_values(|p: StringPart| p@)
    }
}

/// One assignment of a configuration file.
#[derive(Debug, PartialEq, Eq, Clone)]
pub struct DrivenVar {
    pub internal: bool,
    pub name: StringRef,
    pub value: StringRef,
}

impl View for DrivenVar {
    type V = VarDef;

    open spec fn view(&self) -> VarDef {
        VarDef { internal: self.internal, name: self.name@, value: self.value@ }
    }
}

/// A configuration file that has been parsed but whose variables are not
/// resolved yet: they may refer to variables of other files.
#[derive(Debug, PartialEq, Eq, Clone)]
pub struct DrivenFile {
    pub ignore_parents: bool,
    pub allow_shell_exec: bool,
    pub variables: Vec<DrivenVar>,
}

impl View for DrivenFile {
    type V = DocModel;

    open spec fn view(&self) -> DocModel {
        DocModel {
            ignore_parents: self.ignore_parents,
            allow_shell_exec: self.allow_shell_exec,
            variables: self.variables@.map_values(|v: DrivenVar| v@),
        }
    }
}

/// What went wrong while parsing.
#[derive(Debug, PartialEq, Eq, Clone, Copy)]
pub enum ParseErrorKind {
    BadEscape,
    UnterminatedString,
    ExpectedName,
    ExpectedEquals,
    ExpectedValue,
}

/// A parse failure: its kind and the character offset where it was found.
#[derive(Debug, PartialEq, Eq, Clone, Copy)]
pub struct ParseError {
    pub kind: ParseErrorKind,
    pub pos: usize,
}

pub open spec fn perr(kind: ParseErrorKind, pos: int) -> ParseError {
    ParseError { kind, pos: pos as usize }
}

// ---------------------------------------------------------------------------
// Grammar
// ---------------------------------------------------------------------------

/// The character that `\c` stands for inside a quoted string.
pub open spec fn unescape(c: char) -> Option<char> {
    if c == 'n' {
        Some('\n')
    } else if c == '"' {
        Some('"')
    } else if c == '$' {
        Some('$')
    } else if c == '\\' {
        Some('\\')
    } else {
        None
    }
}

/// The text of a string body starting at `i`, with escapes replaced, up to the
/// first unescaped `"` or the end of input; and the position where it stops.
pub open spec fn str_body(s: Seq<char>, i: int) -> Result<(Seq<char>, int), ParseError>
    decreases s.len() - i,
{
    if i >= s.len() || s[i] == '"' {
        Ok((Seq::empty(), i))
    } else if s[i] == '\\' {
        if i + 1 >= s.len() {
            Err(perr(ParseErrorKind::BadEscape, i + 1))
        } else {
            match unescape(s[i + 1]) {
                None => Err(perr(ParseErrorKind::BadEscape, i + 1)),
                Some(c) => prepend(seq![c], str_body(s, i + 2)),
            }
        }
    } else {
        prepend(seq![s[i]], str_body(s, i + 1))
    }
}

/// `r` with `pre` put in front of its text.
pub open spec fn prepend(pre: Seq<char>, r: Result<(Seq<char>, int), ParseError>) -> Result<
    (Seq<char>, int),
    ParseError,
> {
    match r {
        Ok((t, e)) => Ok((pre + t, e)),
        Err(x) => Err(x),
    }
}

/// A quoted string at `i`: its text and the position after the closing quote.
pub open spec fn quoted(s: Seq<char>, i: int) -> Result<(Seq<char>, int), ParseError> {
    if 0 <= i < s.len() && s[i] == '"' {
        match str_body(s, i + 1) {
            Ok((t, e)) => if e < s.len() {
                Ok((t, e + 1))
            } else {
                Err(perr(ParseErrorKind::UnterminatedString, e))
            },
            Err(x) => Err(x),
        }
    } else {
        Err(perr(ParseErrorKind::ExpectedValue, i))
    }
}


/// The characters that may form an unquoted variable name: letters, digits
/// and `_`; never whitespace, a quote, a backslash or `=`.
pub open spec fn is_name_char(c: char) -> bool {
    &&& alphanumeric(c) || c == '_'
    &&& !is_space(c, true)
    &&& c != '"' && c != '\\' && c != '='
}

/// Horizontal whitespace; with `newlines`, also line breaks.
pub open spec fn is_space(c: char, newlines: bool) -> bool {
    c == ' ' || c == '\t' || (newlines && (c == '\n' || c == '\r'))
}

/// The first position at or after `i` that holds no whitespace.
pub open spec fn skip(s: Seq<char>, i: int, newlines: bool) -> int
    decreases s.len() - i,
{
    if 0 <= i < s.len() && is_space(s[i], newlines) {
        skip(s, i + 1, newlines)
    } else {
        i
    }
}

/// The end of the run of name characters that starts at `i`.
pub open spec fn name_end(s: Seq<char>, i: int) -> int
    decreases s.len() - i,
{
    if 0 <= i < s.len() && is_name_char(s[i]) {
        name_end(s, i + 1)
    } else {
        i
    }
}

/// A variable name at `i`, unquoted or quoted: its text and where it ends.
pub open spec fn name(s: Seq<char>, i: int) -> Result<(Seq<char>, int), ParseError> {
    if 0 <= i < s.len() && is_name_char(s[i]) {
        Ok((s.subrange(i, name_end(s, i)), name_end(s, i)))
    } else if 0 <= i < s.len() && s[i] == '"' {
        quoted(s, i)
    } else {
        Err(perr(ParseErrorKind::ExpectedName, i))
    }
}

pub open spec fn internal_word() -> Seq<char> {
    seq!['i', 'n', 't', 'e', 'r', 'n', 'a', 'l']
}

/// At `i` stands the keyword `internal`, then whitespace, then the start of a
/// name.
pub open spec fn internal_prefix(s: Seq<char>, i: int) -> bool {
    &&& 0 <= i
    &&& i + 8 < s.len()
    &&& s.subrange(i, i + 8) == internal_word()
    &&& is_space(s[i + 8], false)
    &&& skip(s, i + 8, false) < s.len()
    &&& (is_name_char(s[skip(s, i + 8, false)]) || s[skip(s, i + 8, false)] == '"')
}

/// The definition of one literal name with one literal value.
pub open spec fn lit_def(internal: bool, n: Seq<char>, v: Seq<char>) -> VarDef {
    VarDef { internal, name: seq![Fragment::Literal(n)], value: seq![Fragment::Literal(v)] }
}

/// One assignment `[internal] name = "value"` at `i`, and where it ends.
pub open spec fn assignment(s: Seq<char>, i: int) -> Result<(VarDef, int), ParseError> {
    let internal = internal_prefix(s, i);
    let j = if internal {
        skip(s, i + 8, false)
    } else {
        i
    };
    match name(s, j) {
        Err(x) => Err(x),
        Ok((n, k)) => {
            let q = skip(s, k, false);
            if q < s.len() && s[q] == '=' {
                match quoted(s, skip(s, q + 1, false)) {
                    Ok((v, e)) => Ok((lit_def(internal, n, v), e)),
                    Err(x) => Err(x),
                }
            } else {
                Err(perr(ParseErrorKind::ExpectedEquals, q))
            }
        },
    }
}

/// The assignments from `i` to the end of input, separated by any whitespace.
pub open spec fn statements(s: Seq<char>, i: int) -> Result<Seq<VarDef>, ParseError>
    decreases s.len() - i,
{
    let j = skip(s, i, true);
    if j >= s.len() {
        Ok(Seq::empty())
    } else {
        match assignment(s, j) {
            Err(x) => Err(x),
            // an assignment always consumes input; the test keeps the
            // recursion well founded
            Ok((d, k)) => if k > i {
                match statements(s, k) {
                    Ok(ds) => Ok(seq![d] + ds),
                    Err(x) => Err(x),
                }
            } else {
                Err(perr(ParseErrorKind::ExpectedName, j))
            },
        }
    }
}

/// A whole configuration file.
pub open spec fn document(s: Seq<char>) -> Result<DocModel, ParseError> {
    match statements(s, 0) {
        Ok(vs) => Ok(DocModel { ignore_parents: false, allow_shell_exec: false, variables: vs }),
        Err(x) => Err(x),
    }
}

// ---------------------------------------------------------------------------
// Parsers
// ---------------------------------------------------------------------------

pub open spec fn text_view(r: Result<(Vec<char>, usize), ParseError>) -> Result<
    (Seq<char>, int),
    ParseError,
> {
    match r {
        Ok((t, e)) => Ok((t@, e as int)),
        Err(x) => Err(x),
    }
}

proof fn lemma_prepend_twice(a: Seq<char>, b: Seq<char>, r: Result<(Seq<char>, int), ParseError>)
    ensures
        prepend(a, prepend(b, r)) == prepend(a + b, r),
{
    if let Ok((t, e)) = r {
        assert(a + (b + t) =~= (a + b) + t);
    }
}

fn parse_str_body(s: &Vec<char>, i: usize) -> (r: Result<(Vec<char>, usize), ParseError>)
    requires
        i <= s.len(),
    ensures
        text_view(r) == str_body(s@, i as int),
        r is Ok ==> i <= r->Ok_0.1 <= s.len(),
        r is Err ==> r->Err_0.pos <= s.len(),
{
    let mut acc: Vec<char> = Vec::new();
    let mut j: usize = i;
    while j < s.len() && s[j] != '"'
        invariant
            i <= j <= s.len(),
            str_body(s@, i as int) == prepend(acc@, str_body(s@, j as int)),
        decreases s.len() - j,
    {
        if s[j] == '\\' {
            if j + 1 >= s.len() {
                return Err(ParseError { kind: ParseErrorKind::BadEscape, pos: j + 1 });
            }
            let c = s[j + 1];
            let u = if c == 'n' {
                '\n'
            } else if c == '"' {
                '"'
            } else if c == '$' {
                '$'
            } else if c == '\\' {
                '\\'
            } else {
                return Err(ParseError { kind: ParseErrorKind::BadEscape, pos: j + 1 });
            };
            proof {
                lemma_prepend_twice(acc@, seq![u], str_body(s@, j + 2));
                assert(acc@ + seq![u] =~= acc@.push(u));
            }
            acc.push(u);
            j = j + 2;
        } else {
            let c = s[j];
            proof {
                lemma_prepend_twice(acc@, seq![c], str_body(s@, j + 1));
                assert(acc@ + seq![c] =~= acc@.push(c));
            }
            acc.push(c);
            j = j + 1;
        }
    }
    proof {
        assert(acc@ + Seq::<char>::empty() =~= acc@);
    }
    Ok((acc, j))
}

fn parse_quoted(s: &Vec<char>, i: usize) -> (r: Result<(Vec<char>, usize), ParseError>)
    requires
        i <= s.len(),
    ensures
        text_view(r) == quoted(s@, i as int),
        r is Ok ==> i < r->Ok_0.1 <= s.len(),
        r is Err ==> r->Err_0.pos <= s.len(),
{
    if i < s.len() && s[i] == '"' {
        match parse_str_body(s, i + 1) {
            Ok((t, e)) => if e < s.len() {
                Ok((t, e + 1))
            } else {
                Err(ParseError { kind: ParseErrorKind::UnterminatedString, pos: e })
            },
            Err(x) => Err(x),
        }
    } else {
        Err(ParseError { kind: ParseErrorKind::ExpectedValue, pos: i })
    }
}

fn skip_space(s: &Vec<char>, i: usize, newlines: bool) -> (j: usize)
    requires
        i <= s.len(),
    ensures
        j == skip(s@, i as int, newlines),
        i <= j <= s.len(),
{
    let mut j: usize = i;
    while j < s.len() && (s[j] == ' ' || s[j] == '\t' || (newlines && (s[j] == '\n' || s[j]
        == '\r')))
        invariant
            i <= j <= s.len(),
            skip(s@, i as int, newlines) == skip(s@, j as int, newlines),
        decreases s.len() - j,
    {
        j = j + 1;
    }
    j
}

fn parse_name(s: &Vec<char>, i: usize) -> (r: Result<(Vec<char>, usize), ParseError>)
    requires
        i <= s.len(),
    ensures
        text_view(r) == name(s@, i as int),
        r is Ok ==> i < r->Ok_0.1 <= s.len(),
        r is Err ==> r->Err_0.pos <= s.len(),
{
    if i < s.len() && (is_alphanumeric(s[i]) || s[i] == '_') {
        let mut j: usize = i;
        while j < s.len() && (is_alphanumeric(s[j]) || s[j] == '_')
            invariant
                i <= j <= s.len(),
                name_end(s@, i as int) == name_end(s@, j as int),
            decreases s.len() - j,
        {
            j = j + 1;
        }
        let mut t: Vec<char> = Vec::new();
        let mut k: usize = i;
        while k < j
            invariant
                i <= k <= j <= s.len(),
                t@ == s@.subrange(i as int, k as int),
            decreases j - k,
        {
            t.push(s[k]);
            k = k + 1;
            proof {
                assert(t@ =~= s@.subrange(i as int, k as int));
            }
        }
        Ok((t, j))
    } else if i < s.len() && s[i] == '"' {
        parse_quoted(s, i)
    } else {
        Err(ParseError { kind: ParseErrorKind::ExpectedName, pos: i })
    }
}


fn at_internal(s: &Vec<char>, i: usize) -> (r: bool)
    requires
        i <= s.len(),
    ensures
        r == internal_prefix(s@, i as int),
{
    if s.len() - i > 8 && s[i] == 'i' && s[i + 1] == 'n' && s[i + 2] == 't' && s[i + 3] == 'e'
        && s[i + 4] == 'r' && s[i + 5] == 'n' && s[i + 6] == 'a' && s[i + 7] == 'l' && (s[i + 8]
        == ' ' || s[i + 8] == '\t') {
        proof {
            assert(s@.subrange(i as int, i + 8) =~= internal_word());
        }
        let j = skip_space(s, i + 8, false);
        j < s.len() && (is_alphanumeric(s[j]) || s[j] == '_' || s[j] == '"')
    } else {
        proof {
            if i + 8 < s.len() && s@.subrange(i as int, i + 8) == internal_word() {
                let w = s@.subrange(i as int, i + 8);
                assert(w[0] == s@[i as int] && w[1] == s@[i + 1] && w[2] == s@[i + 2] && w[3]
                    == s@[i + 3]);
                assert(w[4] == s@[i + 4] && w[5] == s@[i + 5] && w[6] == s@[i + 6] && w[7]
                    == s@[i + 7]);
            }
        }
        false
    }
}

/// A string value made of one literal part.
fn literal_ref(t: &Vec<char>) -> (r: StringRef)
    ensures
        r@ == seq![Fragment::Literal(t@)],
{
    let r = StringRef { parts: vec![StringPart::Literal(string_of(t.as_slice()))] };
    proof {
        assert(r@ =~= seq![Fragment::Literal(t@)]);
    }
    r
}

pub open spec fn def_view(r: Result<(DrivenVar, usize), ParseError>) -> Result<
    (VarDef, int),
    ParseError,
> {
    match r {
        Ok((d, e)) => Ok((d@, e as int)),
        Err(x) => Err(x),
    }
}

fn parse_assignment(s: &Vec<char>, i: usize) -> (r: Result<(DrivenVar, usize), ParseError>)
    requires
        i <= s.len(),
    ensures
        def_view(r) == assignment(s@, i as int),
        r is Ok ==> i < r->Ok_0.1 <= s.len(),
        r is Err ==> r->Err_0.pos <= s.len(),
{
    let internal = at_internal(s, i);
    let j = if internal {
        skip_space(s, i + 8, false)
    } else {
        i
    };
    let (n, k) = match parse_name(s, j) {
        Ok(p) => p,
        Err(x) => {
            return Err(x);
        },
    };
    let q = skip_space(s, k, false);
    if q < s.len() && s[q] == '=' {
        let v0 = skip_space(s, q + 1, false);
        match parse_quoted(s, v0) {
            Ok((v, e)) => {
                let d = DrivenVar { internal, name: literal_ref(&n), value: literal_ref(&v) };
                Ok((d, e))
            },
            Err(x) => Err(x),
        }
    } else {
        Err(ParseError { kind: ParseErrorKind::ExpectedEquals, pos: q })
    }
}

pub open spec fn defs_view(v: Seq<DrivenVar>) -> Seq<VarDef> {
    v.map_values(|d: DrivenVar| d@)
}

pub open spec fn prepend_defs(pre: Seq<VarDef>, r: Result<Seq<VarDef>, ParseError>) -> Result<
    Seq<VarDef>,
    ParseError,
> {
    match r {
        Ok(ds) => Ok(pre + ds),
        Err(x) => Err(x),
    }
}

fn parse_statements(s: &Vec<char>) -> (r: Result<Vec<DrivenVar>, ParseError>)
    ensures
        match r {
            Ok(v) => statements(s@, 0) == Ok::<Seq<VarDef>, ParseError>(defs_view(v@)),
            Err(x) => statements(s@, 0) == Err::<Seq<VarDef>, ParseError>(x),
        },
        r is Err ==> r->Err_0.pos <= s.len(),
{
    let mut out: Vec<DrivenVar> = Vec::new();
    let mut i: usize = 0;
    loop
        invariant
            i <= s.len(),
            statements(s@, 0) == prepend_defs(defs_view(out@), statements(s@, i as int)),
        decreases s.len() - i,
    {
        let j = skip_space(s, i, true);
        if j >= s.len() {
            proof {
                assert(defs_view(out@) + Seq::<VarDef>::empty() =~= defs_view(out@));
            }
            return Ok(out);
        }
        match parse_assignment(s, j) {
            Err(x) => {
                return Err(x);
            },
            Ok((d, k)) => {
                proof {
                    let r = statements(s@, k as int);
                    if let Ok(ds) = r {
                        assert(defs_view(out@) + (seq![d@] + ds) =~= defs_view(out@.push(d))
                            + ds);
                    }
                }
                out.push(d);
                i = k;
            },
        }
    }
}

/// Parses the text of a configuration file.
pub fn parse(text: &str) -> (r: Result<DrivenFile, ParseError>)
    ensures
        match r {
            Ok(f) => document(text@) == Ok::<DocModel, ParseError>(f@),
            Err(x) => document(text@) == Err::<DocModel, ParseError>(x),
        },
        r is Err ==> r->Err_0.pos <= text@.len(),
{
    let s = chars_of(text);
    match parse_statements(&s) {
        Ok(variables) => Ok(DrivenFile { ignore_parents: false, allow_shell_exec: false, variables }),
        Err(x) => Err(x),
    }
}


/// The part of `text` that starts at character `from`.
fn rest_of<'a>(text: &'a str, from: usize) -> (r: &'a str)
    requires
        from <= text@.len(),
    ensures
        r@ == text@.subrange(from as int, text@.len() as int),
{
    let n = text.unicode_len();
    text.substring_char(from, n)
}

/// The text of a string body at the start of `i`, up to an unescaped `"` or
/// the end of input, with what is left of the input.
pub fn str_part<'a>(i: &'a str) -> (r: Result<(&'a str, StringPart), ParseError>)
    ensures
        match (r, str_body(i@, 0)) {
            (Ok((rest, p)), Ok((t, e))) => p@ == Fragment::Literal(t) && rest@ == i@.subrange(
                e,
                i@.len() as int,
            ),
            (Err(x), Err(y)) => x == y,
            _ => false,
        },
{
    let s = chars_of(i);
    match parse_str_body(&s, 0) {
        Ok((t, e)) => Ok((rest_of(i, e), StringPart::Literal(string_of(t.as_slice())))),
        Err(x) => Err(x),
    }
}

/// A quoted string at the start of `i`, with what is left of the input.
pub fn quoted_string<'a>(i: &'a str) -> (r: Result<(&'a str, StringRef), ParseError>)
    ensures
        match (r, quoted(i@, 0)) {
            (Ok((rest, v)), Ok((t, e))) => v@ == seq![Fragment::Literal(t)] && rest@
                == i@.subrange(e, i@.len() as int),
            (Err(x), Err(y)) => x == y,
            _ => false,
        },
{
    let s = chars_of(i);
    match parse_quoted(&s, 0) {
        Ok((t, e)) => Ok((rest_of(i, e), literal_ref(&t))),
        Err(x) => Err(x),
    }
}

/// One assignment at the start of `i`, with whitespace before and after it
/// skipped, and what is left of the input.
pub fn variable_assignment<'a>(i: &'a str) -> (r: Result<(&'a str, DrivenVar), ParseError>)
    ensures
        match (r, assignment(i@, skip(i@, 0, true))) {
            (Ok((rest, d)), Ok((v, e))) => d@ == v && rest@ == i@.subrange(
                skip(i@, e, true),
                i@.len() as int,
            ),
            (Err(x), Err(y)) => x == y,
            _ => false,
        },
{
    let s = chars_of(i);
    let j = skip_space(&s, 0, true);
    match parse_assignment(&s, j) {
        Ok((d, e)) => {
            let k = skip_space(&s, e, true);
            Ok((rest_of(i, k), d))
        },
        Err(x) => Err(x),
    }
}

/// A literal part holding `s`.
pub fn litpart(s: &str) -> (r: StringPart)
    ensures
        r@ == Fragment::Literal(s@),
{
    StringPart::Literal(String::from_str(s))
}

/// A string value of one literal part holding `s`.
pub fn lit(s: &str) -> (r: StringRef)
    ensures
        r@ == seq![Fragment::Literal(s@)],
{
    let r = StringRef { parts: vec![litpart(s)] };
    proof {
        assert(r@ =~= seq![Fragment::Literal(s@)]);
    }
    r
}

/// What a parse error of kind `k` says.
pub open spec fn description(k: ParseErrorKind) -> Seq<char> {
    match k {
        ParseErrorKind::BadEscape => "expected a valid backslash escape character"@,
        ParseErrorKind::UnterminatedString => "missing closing quote"@,
        ParseErrorKind::ExpectedName => "expected an identifier or a quoted name"@,
        ParseErrorKind::ExpectedEquals => "expected '=' after the variable name"@,
        ParseErrorKind::ExpectedValue => "expected an opening quote"@,
    }
}

/// What was being parsed when an error of kind `k` was found.
pub open spec fn context(k: ParseErrorKind) -> Seq<char> {
    match k {
        ParseErrorKind::BadEscape => "string"@,
        ParseErrorKind::UnterminatedString => "string"@,
        ParseErrorKind::ExpectedName => "variable name"@,
        ParseErrorKind::ExpectedEquals => "assignment"@,
        ParseErrorKind::ExpectedValue => "string"@,
    }
}

/// The diagnostic for error `x` found in `input`: what was expected, what
/// was being parsed, and the input from the place of the error on.
pub open spec fn error_message(x: ParseError, input: Seq<char>) -> Seq<char> {
    description(x.kind) + " in "@ + context(x.kind) + " at: "@ + input.subrange(
        x.pos as int,
        input.len() as int,
    )
}

impl ParseErrorKind {
    pub fn description(&self) -> (r: &'static str)
        ensures
            r@ == description(*self),
    {
        match self {
            ParseErrorKind::BadEscape => "expected a valid backslash escape character",
            ParseErrorKind::UnterminatedString => "missing closing quote",
            ParseErrorKind::ExpectedName => "expected an identifier or a quoted name",
            ParseErrorKind::ExpectedEquals => "expected '=' after the variable name",
            ParseErrorKind::ExpectedValue => "expected an opening quote",
        }
    }

    pub fn context(&self) -> (r: &'static str)
        ensures
            r@ == context(*self),
    {
        match self {
            ParseErrorKind::BadEscape => "string",
            ParseErrorKind::UnterminatedString => "string",
            ParseErrorKind::ExpectedName => "variable name",
            ParseErrorKind::ExpectedEquals => "assignment",
            ParseErrorKind::ExpectedValue => "string",
        }
    }
}

impl ParseError {
    /// The diagnostic for this error: what was expected, what was being
    /// parsed, and the input from the place where it was found.
    pub fn message(&self, input: &str) -> (r: String)
        requires
            self.pos <= input@.len(),
        ensures
            r@ == error_message(*self, input@),
    {
        let mut m = String::from_str(self.kind.description());
        m.append(" in ");
        m.append(self.kind.context());
        m.append(" at: ");
        m.append(rest_of(input, self.pos));
        m
    }
}

/// Parses the text of a configuration file; a failure comes back as its
/// diagnostic.
pub fn drivenfile(i: &str) -> (r: Result<DrivenFile, String>)
    ensures
        match (r, document(i@)) {
            (Ok(f), Ok(d)) => f@ == d,
            (Err(m), Err(x)) => m@ == error_message(x, i@),
            _ => false,
        },
{
    match parse(i) {
        Ok(f) => Ok(f),
        Err(x) => Err(x.message(i)),
    }
}

} // verus!
