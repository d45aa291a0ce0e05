use vstd::prelude::*;

use crate::parser::{
    assignment, internal_prefix, internal_word, is_name_char, is_space, lit_def, name, name_end,
    perr, prepend, quoted, skip, str_body, unescape, ParseError, VarDef,
    ParseErrorKind,
};

verus! {

/// Text with no quote and no backslash.
pub open spec fn plain(t: Seq<char>) -> bool {
    forall|k: int| 0 <= k < t.len() ==> t[k] != '"' && t[k] != '\\'
}

/// Text made of horizontal whitespace only.
pub open spec fn blank(w: Seq<char>) -> bool {
    forall|k: int| 0 <= k < w.len() ==> is_space(#[trigger] w[k], false)
}

/// A non-empty run of name characters.
pub open spec fn identifier(n: Seq<char>) -> bool {
    n.len() > 0 && forall|k: int| 0 <= k < n.len() ==> is_name_char(#[trigger] n[k])
}

/// `t` between double quotes.
pub open spec fn quote(t: Seq<char>) -> Seq<char> {
    seq!['"'] + t + seq!['"']
}

proof fn lemma_skip_run(s: Seq<char>, i: int, m: int, nl: bool)
    requires
        0 <= i <= m <= s.len(),
        forall|k: int| i <= k < m ==> is_space(#[trigger] s[k], nl),
        m == s.len() || !is_space(s[m], nl),
    ensures
        skip(s, i, nl) == m,
    decreases m - i,
{
    if i < m {
        lemma_skip_run(s, i + 1, m, nl);
    }
}

proof fn lemma_name_run(s: Seq<char>, i: int, m: int)
    requires
        0 <= i <= m <= s.len(),
        forall|k: int| i <= k < m ==> is_name_char(#[trigger] s[k]),
        m == s.len() || !is_name_char(s[m]),
    ensures
        name_end(s, i) == m,
    decreases m - i,
{
    if i < m {
        lemma_name_run(s, i + 1, m);
    }
}

proof fn lemma_plain_run(s: Seq<char>, i: int, m: int)
    requires
        0 <= i <= m <= s.len(),
        forall|k: int| i <= k < m ==> (#[trigger] s[k]) != '"' && s[k] != '\\',
    ensures
        str_body(s, i) == prepend(s.subrange(i, m), str_body(s, m)),
    decreases m - i,
{
    if i < m {
        lemma_plain_run(s, i + 1, m);
        let r = str_body(s, m);
        if let Ok((t, e)) = r {
            assert(seq![s[i]] + (s.subrange(i + 1, m) + t) =~= s.subrange(i, m) + t);
        }
    } else {
        if let Ok((t, e)) = str_body(s, m) {
            assert(s.subrange(i, m) + t =~= t);
        }
    }
}

/// A quoted plain text at `f` in `s` parses back to that text.
proof fn lemma_quoted_at(s: Seq<char>, f: int, t: Seq<char>)
    requires
        plain(t),
        0 <= f,
        f + t.len() as int + 2 <= s.len(),
        s.subrange(f, f + t.len() as int + 2) == quote(t),
    ensures
        quoted(s, f) == Ok::<(Seq<char>, int), ParseError>((t, f + t.len() as int + 2)),
{
    let q = quote(t);
    assert(s[f] == q[0]);
    assert forall|k: int| f + 1 <= k < f + 1 + t.len() implies (#[trigger] s[k]) != '"' && s[k]
        != '\\' by {
        assert(s[k] == q[k - f]);
        assert(q[k - f] == t[k - f - 1]);
    }
    lemma_plain_run(s, f + 1, f + 1 + t.len() as int);
    assert(s[f + 1 + t.len() as int] == q[t.len() as int + 1]);
    assert(s.subrange(f + 1, f + 1 + t.len()) =~= t) by {
        assert forall|k: int| 0 <= k < t.len() implies s.subrange(f + 1, f + 1 + t.len())[k]
            == t[k] by {
            assert(s[f + 1 + k] == q[k + 1]);
        }
    }
    assert(t + Seq::<char>::empty() =~= t);
}

/// Escape round trip, first half: a double-quoted text with no quote and no
/// backslash in it parses to exactly that text.
pub proof fn lemma_plain_string(t: Seq<char>)
    requires
        plain(t),
    ensures
        quoted(quote(t), 0) == Ok::<(Seq<char>, int), ParseError>((t, t.len() as int + 2)),
{
    assert(quote(t).subrange(0, t.len() as int + 2) =~= quote(t));
    lemma_quoted_at(quote(t), 0, t);
}

/// Escape round trip, second half: each recognised escape pair between
/// double quotes parses to the one character it stands for.
pub proof fn lemma_escape_pair(c: char)
    requires
        unescape(c) is Some,
    ensures
        quoted(seq!['"', '\\', c, '"'], 0) == Ok::<(Seq<char>, int), ParseError>(
            (seq![unescape(c)->Some_0], 4),
        ),
{
    let s = seq!['"', '\\', c, '"'];
    assert(str_body(s, 3) == Ok::<(Seq<char>, int), ParseError>((Seq::<char>::empty(), 3)));
    assert(seq![unescape(c)->Some_0] + Seq::<char>::empty() =~= seq![unescape(c)->Some_0]);
}

/// Escape round trip in a string body: a recognised escape pair consumes
/// exactly its two characters and stands for its one character; plain text
/// after it comes through unchanged.
pub proof fn lemma_escape_then_plain(c: char, r: Seq<char>)
    requires
        unescape(c) is Some,
        plain(r),
    ensures
        str_body(seq!['\\', c] + r, 0) == Ok::<(Seq<char>, int), ParseError>(
            (seq![unescape(c)->Some_0] + r, r.len() as int + 2),
        ),
{
    let s = seq!['\\', c] + r;
    assert forall|k: int| 2 <= k < s.len() implies (#[trigger] s[k]) != '"' && s[k] != '\\' by {
        assert(s[k] == r[k - 2]);
    }
    lemma_plain_run(s, 2, s.len() as int);
    assert(s.subrange(2, s.len() as int) =~= r);
    assert(r + Seq::<char>::empty() =~= r);
    assert(s[0] == '\\' && s[1] == c);
}

/// Escape rejection in a string body: after plain text, a backslash
/// followed by a character that names no escape fails with an escape error
/// at that character; the backslash is neither dropped nor kept.
pub proof fn lemma_bad_escape_in_body(t: Seq<char>, c: char, rest: Seq<char>)
    requires
        plain(t),
        unescape(c) is None,
    ensures
        str_body(t + seq!['\\', c] + rest, 0) == Err::<(Seq<char>, int), ParseError>(
            perr(ParseErrorKind::BadEscape, t.len() as int + 1),
        ),
{
    let s = t + seq!['\\', c] + rest;
    assert forall|k: int| 0 <= k < t.len() implies (#[trigger] s[k]) != '"' && s[k] != '\\' by {
        assert(s[k] == t[k]);
    }
    lemma_plain_run(s, 0, t.len() as int);
    assert(s[t.len() as int] == '\\');
    assert(s[t.len() as int + 1] == c);
}

/// Escape rejection: a backslash followed by a character that names no
/// escape fails the string with an escape error at that character, whatever
/// plain text comes before it and whatever follows.
pub proof fn lemma_bad_escape(t: Seq<char>, c: char, rest: Seq<char>)
    requires
        plain(t),
        unescape(c) is None,
    ensures
        quoted(seq!['"'] + t + seq!['\\', c] + rest, 0) == Err::<(Seq<char>, int), ParseError>(
            perr(ParseErrorKind::BadEscape, t.len() as int + 2),
        ),
{
    let s = seq!['"'] + t + seq!['\\', c] + rest;
    assert forall|k: int| 1 <= k < 1 + t.len() implies (#[trigger] s[k]) != '"' && s[k]
        != '\\' by {
        assert(s[k] == t[k - 1]);
    }
    lemma_plain_run(s, 1, 1 + t.len() as int);
    assert(s[1 + t.len() as int] == '\\');
    assert(s[2 + t.len() as int] == c);
}


/// The name token `tok` stands for the name `n`: an identifier written as
/// itself, or a plain text between quotes.
pub open spec fn name_token(tok: Seq<char>, n: Seq<char>) -> bool {
    (identifier(n) && tok == n) || (plain(n) && tok == quote(n))
}

/// The keyword that marks a definition internal, with its separating space.
pub open spec fn keyword(internal: bool) -> Seq<char> {
    if internal {
        internal_word() + seq![' ']
    } else {
        Seq::empty()
    }
}

/// An assignment written out with the given whitespace around its tokens.
pub open spec fn layout(
    internal: bool,
    tok: Seq<char>,
    v: Seq<char>,
    h1: Seq<char>,
    h2: Seq<char>,
    h3: Seq<char>,
    h4: Seq<char>,
) -> Seq<char> {
    h1 + keyword(internal) + tok + h2 + seq!['='] + h3 + quote(v) + h4
}

proof fn lemma_layout_indices(
    internal: bool,
    tok: Seq<char>,
    v: Seq<char>,
    h1: Seq<char>,
    h2: Seq<char>,
    h3: Seq<char>,
    h4: Seq<char>,
)
    ensures
        ({
            let s = layout(internal, tok, v, h1, h2, h3, h4);
            let kw = keyword(internal);
            let a = h1.len() as int;
            let b = a + kw.len();
            let c = b + tok.len();
            let d = c + h2.len();
            let f = d + 1 + h3.len();
            let g = f + v.len() + 2;
            &&& s.len() == g + h4.len()
            &&& forall|k: int| 0 <= k < a ==> #[trigger] s[k] == h1[k]
            &&& forall|k: int| a <= k < b ==> #[trigger] s[k] == kw[k - a]
            &&& forall|k: int| b <= k < c ==> #[trigger] s[k] == tok[k - b]
            &&& forall|k: int| c <= k < d ==> #[trigger] s[k] == h2[k - c]
            &&& s[d] == '='
            &&& forall|k: int| d + 1 <= k < f ==> #[trigger] s[k] == h3[k - d - 1]
            &&& forall|k: int| f <= k < g ==> #[trigger] s[k] == quote(v)[k - f]
            &&& forall|k: int| g <= k < s.len() ==> #[trigger] s[k] == h4[k - g]
        }),
{
}

/// Without the keyword, a name token followed by whitespace and `=` never
/// reads as the keyword form.
proof fn lemma_no_keyword(s: Seq<char>, a: int, tok: Seq<char>, n: Seq<char>, d: int)
    requires
        name_token(tok, n),
        0 <= a,
        a + tok.len() <= d < s.len(),
        forall|k: int| a <= k < a + tok.len() ==> #[trigger] s[k] == tok[k - a],
        forall|k: int| a + tok.len() <= k < d ==> is_space(#[trigger] s[k], false),
        s[d] == '=',
    ensures
        !internal_prefix(s, a),
{
    let c = a + tok.len();
    lemma_skip_run(s, c, d, false);
    if internal_prefix(s, a) {
        let w = internal_word();
        assert(s[a] == s.subrange(a, a + 8)[0]);
        assert(tok[0] == 'i');
        assert(identifier(n) && tok == n) by {
            if !(identifier(n) && tok == n) {
                assert(tok[0] == '"');
            }
        }
        let len = tok.len() as int;
        if len > 8 {
            assert(s[a + 8] == tok[8]);
        } else if len < 8 {
            assert(s[c] == s.subrange(a, a + 8)[len]);
            assert(w[len] != ' ' && w[len] != '\t' && w[len] != '=');
        } else {
            assert(s[skip(s, a + 8, false)] == '=');
        }
    }
}

/// The common start of an assignment: leading whitespace, the optional
/// keyword, the name token and the whitespace up to `=` at `d`.
proof fn lemma_head(s: Seq<char>, internal: bool, tok: Seq<char>, n: Seq<char>, a: int, d: int)
    requires
        name_token(tok, n),
        0 <= a,
        a + keyword(internal).len() + tok.len() <= d < s.len(),
        forall|k: int| 0 <= k < a ==> is_space(#[trigger] s[k], true),
        forall|k: int|
            a <= k < a + keyword(internal).len() ==> #[trigger] s[k] == keyword(internal)[k - a],
        forall|k: int|
            a + keyword(internal).len() <= k < a + keyword(internal).len() + tok.len()
                ==> #[trigger] s[k] == tok[k - a - keyword(internal).len()],
        forall|k: int|
            a + keyword(internal).len() + tok.len() <= k < d ==> is_space(#[trigger] s[k], false),
        s[d] == '=',
    ensures
        skip(s, 0, true) == a,
        internal_prefix(s, a) == internal,
        (if internal {
            skip(s, a + 8, false)
        } else {
            a
        }) == a + keyword(internal).len(),
        name(s, a + keyword(internal).len()) == Ok::<(Seq<char>, int), ParseError>(
            (n, a + keyword(internal).len() + tok.len()),
        ),
        skip(s, a + keyword(internal).len() + tok.len(), false) == d,
{
    let kw = keyword(internal);
    let b = a + kw.len();
    let c = b + tok.len();
    assert(tok.len() > 0 && (is_name_char(tok[0]) || tok[0] == '"')) by {
        if !identifier(n) || tok != n {
            assert(tok[0] == '"');
        }
    }
    // the statement starts after the leading whitespace
    assert(!is_space(s[a], true)) by {
        if internal {
            assert(s[a] == kw[0]);
        } else {
            assert(s[a] == tok[0]);
        }
    }
    lemma_skip_run(s, 0, a, true);
    // the text between the name and `=` is skipped
    lemma_skip_run(s, c, d, false);
    // the keyword is recognised exactly when it was written
    if internal {
        assert(s.subrange(a, a + 8) =~= internal_word());
        assert(s[a + 8] == ' ');
        assert(s[b] == tok[0]);
        lemma_skip_run(s, a + 8, b, false);
        assert(internal_prefix(s, a));
    } else {
        lemma_no_keyword(s, a, tok, n, d);
    }
    // the name
    if identifier(n) && tok == n {
        assert(!is_name_char(s[c])) by {
            if c < d {
                assert(is_space(s[c], false));
            }
        }
        assert forall|k: int| b <= k < c implies is_name_char(#[trigger] s[k]) by {
            assert(s[k] == tok[k - b]);
        }
        lemma_name_run(s, b, c);
        assert(s.subrange(b, c) =~= n);
    } else {
        assert(s.subrange(b, b + n.len() + 2) =~= quote(n));
        lemma_quoted_at(s, b, n);
    }
}

proof fn lemma_assignment_at(
    s: Seq<char>,
    internal: bool,
    tok: Seq<char>,
    n: Seq<char>,
    v: Seq<char>,
    a: int,
    d: int,
    f: int,
)
    requires
        name_token(tok, n),
        plain(v),
        0 <= a,
        a + keyword(internal).len() + tok.len() <= d,
        d + 1 <= f,
        f + v.len() + 2 <= s.len(),
        forall|k: int| 0 <= k < a ==> is_space(#[trigger] s[k], true),
        forall|k: int|
            a <= k < a + keyword(internal).len() ==> #[trigger] s[k] == keyword(internal)[k - a],
        forall|k: int|
            a + keyword(internal).len() <= k < a + keyword(internal).len() + tok.len()
                ==> #[trigger] s[k] == tok[k - a - keyword(internal).len()],
        forall|k: int|
            a + keyword(internal).len() + tok.len() <= k < d ==> is_space(#[trigger] s[k], false),
        s[d] == '=',
        forall|k: int| d + 1 <= k < f ==> is_space(#[trigger] s[k], false),
        s.subrange(f, f + v.len() + 2) == quote(v),
        forall|k: int| f + v.len() + 2 <= k < s.len() ==> is_space(#[trigger] s[k], true),
    ensures
        assignment(s, skip(s, 0, true)) == Ok::<(VarDef, int), ParseError>(
            (lit_def(internal, n, v), f + v.len() + 2),
        ),
        skip(s, f + v.len() + 2, true) == s.len(),
        skip(s, 0, true) == a,
{
    let g = f + v.len() + 2;
    lemma_head(s, internal, tok, n, a, d);
    assert(s[f] == s.subrange(f, g)[0]);
    lemma_skip_run(s, d + 1, f, false);
    lemma_quoted_at(s, f, v);
    lemma_skip_run(s, g, s.len() as int, true);
}

/// Assignment round trip: `name="value"` parses to a definition of that
/// name with that value, exported; with `internal ` in front, to the same
/// definition marked internal. The name is an identifier or a quoted text.
proof fn lemma_bare_indices(internal: bool, tok: Seq<char>, v: Seq<char>)
    ensures
        ({
            let s = keyword(internal) + tok + seq!['='] + quote(v);
            let kw = keyword(internal);
            let d = kw.len() + tok.len() as int;
            &&& s.len() == d + 1 + v.len() + 2
            &&& forall|k: int| 0 <= k < kw.len() ==> #[trigger] s[k] == kw[k - 0]
            &&& forall|k: int| kw.len() <= k < d ==> #[trigger] s[k] == tok[k - 0 - kw.len()]
            &&& s[d] == '='
            &&& s.subrange(d + 1, d + 1 + v.len() + 2) == quote(v)
        }),
{
    let s = keyword(internal) + tok + seq!['='] + quote(v);
    let d = keyword(internal).len() + tok.len() as int;
    assert(s.subrange(d + 1, d + 1 + v.len() + 2) =~= quote(v));
}

/// Assignment round trip: `name="value"` parses to a definition of that
/// name with that value, exported; with `internal ` in front, to the same
/// definition marked internal. The name is an identifier or a quoted text.
#[verifier::spinoff_prover]
pub proof fn lemma_assignment_round_trip(internal: bool, tok: Seq<char>, n: Seq<char>, v: Seq<char>)
    requires
        name_token(tok, n),
        plain(v),
    ensures
        ({
            let s = keyword(internal) + tok + seq!['='] + quote(v);
            assignment(s, 0) == Ok::<(VarDef, int), ParseError>(
                (lit_def(internal, n, v), s.len() as int),
            )
        }),
{
    let s = keyword(internal) + tok + seq!['='] + quote(v);
    let d = keyword(internal).len() + tok.len() as int;
    lemma_bare_indices(internal, tok, v);
    lemma_assignment_at(s, internal, tok, n, v, 0, d, d + 1);
}

/// A line break between `=` and the value is rejected: the value is missing
/// at the line break.
pub proof fn lemma_newline_before_value(tok: Seq<char>, n: Seq<char>, v: Seq<char>)
    requires
        name_token(tok, n),
    ensures
        ({
            let s = tok + seq!['=', '\n'] + quote(v);
            assignment(s, skip(s, 0, true)) == Err::<(VarDef, int), ParseError>(
                perr(ParseErrorKind::ExpectedValue, tok.len() as int + 1),
            )
        }),
{
    let s = tok + seq!['=', '\n'] + quote(v);
    let d = tok.len() as int;
    assert(keyword(false).len() == 0);
    assert forall|k: int| 0 <= k < tok.len() implies #[trigger] s[k] == tok[k - 0
        - keyword(false).len()] by {}
    assert(s[d] == '=');
    lemma_head(s, false, tok, n, 0, d);
    assert(s[d + 1] == '\n');
    lemma_skip_run(s, d + 1, d + 1, false);
}

/// Whitespace tolerance: horizontal whitespace before the statement, around
/// the name, around `=` and after the value changes nothing in what an
/// assignment parses to, and the trailing whitespace is consumed.
#[verifier::rlimit(50)]
#[verifier::spinoff_prover]
pub proof fn lemma_assignment_layout(
    internal: bool,
    tok: Seq<char>,
    n: Seq<char>,
    v: Seq<char>,
    h1: Seq<char>,
    h2: Seq<char>,
    h3: Seq<char>,
    h4: Seq<char>,
)
    requires
        name_token(tok, n),
        plain(v),
        blank(h1),
        blank(h2),
        blank(h3),
        blank(h4),
    ensures
        ({
            let s = layout(internal, tok, v, h1, h2, h3, h4);
            let e = s.len() - h4.len();
            &&& assignment(s, skip(s, 0, true)) == Ok::<(VarDef, int), ParseError>(
                (lit_def(internal, n, v), e),
            )
            &&& skip(s, e, true) == s.len()
        }),
{
    let s = layout(internal, tok, v, h1, h2, h3, h4);
    let kw = keyword(internal);
    let a = h1.len() as int;
    let b = a + kw.len();
    let c = b + tok.len();
    let d = c + h2.len();
    let f = d + 1 + h3.len();
    let g = f + v.len() + 2;
    lemma_layout_indices(internal, tok, v, h1, h2, h3, h4);
    assert forall|k: int| 0 <= k < a implies is_space(#[trigger] s[k], true) by {
        assert(s[k] == h1[k]);
    }
    assert forall|k: int| c <= k < d implies is_space(#[trigger] s[k], false) by {
        assert(s[k] == h2[k - c]);
    }
    assert forall|k: int| d + 1 <= k < f implies is_space(#[trigger] s[k], false) by {
        assert(s[k] == h3[k - d - 1]);
    }
    assert forall|k: int| g <= k < s.len() implies is_space(#[trigger] s[k], true) by {
        assert(s[k] == h4[k - g]);
    }
    assert(s.subrange(f, g) =~= quote(v));
    lemma_assignment_at(s, internal, tok, n, v, a, d, f);
}

} // verus!
