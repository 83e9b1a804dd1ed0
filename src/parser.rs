//! The query language: a lexer from characters to tokens and a parser from
//! tokens to an expression tree.
//!
//! Tokens: `"..."` (with the escapes `\t`, `\u`, `\n`, `\"`), `(`, `)`,
//! `AND`/`and`/`&&`, `OR`/`or`/`||`, and identifiers (any other run of
//! characters that are not quotes, parentheses or whitespace).
//!
//! Grammar, with `AND` the outer level:
//! `and = and AND or | or`, `or = or OR atom | atom`,
//! `atom = literal | "(" and ")"`, `literal = quoted | ident+`.
use vstd::prelude::*;
use crate::query::{DynamicQuery, IntersectingPhraseQuery, IntersectingQuery, KeywordsQuery, PhraseQuery, UnionQuery};
use crate::term_map::{FrozenTermMap, phrase_terms};

verus! {

/// What a token is, with its text as a character sequence.
pub enum Tok {
    Quoted(Seq<char>),
    Ident(Seq<char>),
    Open,
    Close,
    And,
    Or,
}

pub enum QueryToken {
    QuotedString(Vec<char>),
    Ident(Vec<char>),
    ParenOpen,
    ParenClose,
    And,
    Or,
}

impl View for QueryToken {
    type V = Tok;

    open spec fn view(&self) -> Tok {
        match self {
            QueryToken::QuotedString(s) => Tok::Quoted(s@),
            QueryToken::Ident(s) => Tok::Ident(s@),
            QueryToken::ParenOpen => Tok::Open,
            QueryToken::ParenClose => Tok::Close,
            QueryToken::And => Tok::And,
            QueryToken::Or => Tok::Or,
        }
    }
}

#[derive(Clone, Copy, Debug, PartialEq, Eq, Structural)]
pub enum LexicalError {
    InvalidToken,
}

pub open spec fn is_space(c: char) -> bool {
    c == ' ' || c == '\t' || c == '\n' || c == '\r' || c == '\u{0b}' || c == '\u{0c}'
}

/// A character that can be part of an identifier.
pub open spec fn is_ident_char(c: char) -> bool {
    !is_space(c) && c != '"' && c != '(' && c != ')'
}

/// The escapes a quoted string may hold after a backslash.
pub open spec fn is_escape(c: char) -> bool {
    c == 't' || c == 'u' || c == 'n' || c == '"'
}

/// The position of the quote that closes a quoted string whose contents
/// start at `k`, or `None` if it is never closed or holds a bad escape.
pub open spec fn quoted_end(s: Seq<char>, k: int) -> Option<int>
    decreases s.len() - k,
{
    if k < 0 || k >= s.len() {
        None
    } else if s[k] == '"' {
        Some(k)
    } else if s[k] == '\\' {
        if k + 1 < s.len() && is_escape(s[k + 1]) {
            quoted_end(s, k + 2)
        } else {
            None
        }
    } else {
        quoted_end(s, k + 1)
    }
}

/// The end of the identifier run starting at `k`.
pub open spec fn ident_end(s: Seq<char>, k: int) -> int
    decreases s.len() - k,
{
    if k < 0 || k >= s.len() || !is_ident_char(s[k]) {
        k
    } else {
        ident_end(s, k + 1)
    }
}

/// An identifier run is an operator when it spells one, else an identifier.
pub open spec fn classify(word: Seq<char>) -> Tok {
    if word == seq!['A', 'N', 'D'] || word == seq!['a', 'n', 'd'] || word == seq!['&', '&'] {
        Tok::And
    } else if word == seq!['O', 'R'] || word == seq!['o', 'r'] || word == seq!['|', '|'] {
        Tok::Or
    } else {
        Tok::Ident(word)
    }
}

/// The tokens of `s` from position `i` on, or `None` on a lexical error.
pub open spec fn lex_from(s: Seq<char>, i: int) -> Option<Seq<Tok>>
    decreases s.len() - i,
{
    if i < 0 || i >= s.len() {
        Some(Seq::empty())
    } else {
        let c = s[i];
        if is_space(c) {
            lex_from(s, i + 1)
        } else if c == '(' {
            match lex_from(s, i + 1) {
                Some(t) => Some(seq![Tok::Open] + t),
                None => None,
            }
        } else if c == ')' {
            match lex_from(s, i + 1) {
                Some(t) => Some(seq![Tok::Close] + t),
                None => None,
            }
        } else if c == '"' {
            match quoted_end(s, i + 1) {
                Some(j) => if i < j < s.len() {
                    match lex_from(s, j + 1) {
                        Some(t) => Some(seq![Tok::Quoted(s.subrange(i + 1, j))] + t),
                        None => None,
                    }
                } else {
                    None
                },
                None => None,
            }
        } else {
            let j = ident_end(s, i);
            if j <= i || j > s.len() {
                None
            } else {
                match lex_from(s, j) {
                    Some(t) => Some(seq![classify(s.subrange(i, j))] + t),
                    None => None,
                }
            }
        }
    }
}

pub open spec fn lex(s: Seq<char>) -> Option<Seq<Tok>> {
    lex_from(s, 0)
}

/// Relies on `str::chars`: the characters of `s`, in order.
#[verifier::external_body]
fn chars_of(s: &str) -> (r: Vec<char>)
    ensures
        r@ == s@,
{
    s.chars().collect()
}

proof fn lemma_quoted_end_bounds(s: Seq<char>, k: int)
    ensures
        quoted_end(s, k) matches Some(j) ==> k <= j < s.len(),
    decreases s.len() - k,
{
    if 0 <= k < s.len() && s[k] != '"' {
        if s[k] == '\\' {
            if k + 1 < s.len() && is_escape(s[k + 1]) {
                lemma_quoted_end_bounds(s, k + 2);
            }
        } else {
            lemma_quoted_end_bounds(s, k + 1);
        }
    }
}

proof fn lemma_ident_end_bounds(s: Seq<char>, k: int)
    requires
        0 <= k <= s.len(),
    ensures
        k <= ident_end(s, k) <= s.len(),
    decreases s.len() - k,
{
    if k < s.len() && is_ident_char(s[k]) {
        lemma_ident_end_bounds(s, k + 1);
    }
}

/// Finds the closing quote of a quoted string whose contents start at `k`.
fn scan_quoted(s: &Vec<char>, k: usize) -> (r: Option<usize>)
    requires
        k <= s@.len(),
    ensures
        match r {
            Some(j) => quoted_end(s@, k as int) == Some(j as int),
            None => quoted_end(s@, k as int) is None,
        },
{
    let n = s.len();
    let mut p = k;
    while p < n
        invariant
            n == s@.len(),
            k <= p,
            quoted_end(s@, k as int) == quoted_end(s@, p as int),
        decreases n - p,
    {
        if s[p] == '"' {
            return Some(p);
        }
        if s[p] == '\\' {
            if p + 1 < n && (s[p + 1] == 't' || s[p + 1] == 'u' || s[p + 1] == 'n' || s[p + 1] == '"') {
                p = p + 2;
            } else {
                return None;
            }
        } else {
            p = p + 1;
        }
    }
    None
}

fn is_space_char(c: char) -> (r: bool)
    ensures
        r == is_space(c),
{
    c == ' ' || c == '\t' || c == '\n' || c == '\r' || c == '\u{0b}' || c == '\u{0c}'
}

fn copy_chars(s: &Vec<char>, from: usize, to: usize) -> (r: Vec<char>)
    requires
        from <= to <= s@.len(),
    ensures
        r@ == s@.subrange(from as int, to as int),
{
    let mut out: Vec<char> = Vec::new();
    let mut k = from;
    while k < to
        invariant
            from <= k <= to <= s@.len(),
            out@ == s@.subrange(from as int, k as int),
        decreases to - k,
    {
        out.push(s[k]);
        assert(out@ =~= s@.subrange(from as int, k + 1));
        k = k + 1;
    }
    out
}

fn classify_word(s: &Vec<char>, from: usize, to: usize) -> (r: QueryToken)
    requires
        from <= to <= s@.len(),
    ensures
        r@ == classify(s@.subrange(from as int, to as int)),
{
    let word = copy_chars(s, from, to);
    let n = to - from;
    let ghost w = s@.subrange(from as int, to as int);
    if n == 3 && ((word[0] == 'A' && word[1] == 'N' && word[2] == 'D') || (word[0] == 'a' && word[1] == 'n' && word[2] == 'd')) {
        assert(w =~= seq!['A', 'N', 'D'] || w =~= seq!['a', 'n', 'd']);
        return QueryToken::And;
    }
    if n == 2 && word[0] == '&' && word[1] == '&' {
        assert(w =~= seq!['&', '&']);
        return QueryToken::And;
    }
    if n == 2 && ((word[0] == 'O' && word[1] == 'R') || (word[0] == 'o' && word[1] == 'r') || (word[0] == '|' && word[1] == '|')) {
        assert(w =~= seq!['O', 'R'] || w =~= seq!['o', 'r'] || w =~= seq!['|', '|']);
        assert(!(w =~= seq!['A', 'N', 'D']) && !(w =~= seq!['a', 'n', 'd']));
        assert(w != seq!['&', '&']) by {
            if w == seq!['&', '&'] {
                assert(w[0] == '&');
            }
        }
        return QueryToken::Or;
    }
    proof {
        if w == seq!['A', 'N', 'D'] || w == seq!['a', 'n', 'd'] {
            assert(w.len() == 3 && (w[0] == 'A' || w[0] == 'a'));
        }
        if w == seq!['&', '&'] {
            assert(w.len() == 2 && w[0] == '&' && w[1] == '&');
        }
        if w == seq!['O', 'R'] || w == seq!['o', 'r'] || w == seq!['|', '|'] {
            assert(w.len() == 2 && w[0] == word[0] && w[1] == word[1]);
        }
    }
    QueryToken::Ident(word)
}

/// Splits a query string into tokens.
pub fn lex_query(query: &str) -> (r: Result<Vec<QueryToken>, LexicalError>)
    ensures
        match r {
            Ok(toks) => lex(query@) == Some(toks@.map_values(|t: QueryToken| t@)),
            Err(_) => lex(query@) is None,
        },
{
    let s = chars_of(query);
    let n = s.len();
    let mut toks: Vec<QueryToken> = Vec::new();
    let mut i: usize = 0;
    while i < n
        invariant
            n == s@.len(),
            s@ == query@,
            0 <= i <= n,
            lex(s@) == match lex_from(s@, i as int) {
                Some(t) => Some(toks@.map_values(|t: QueryToken| t@) + t),
                None => None::<Seq<Tok>>,
            },
        decreases n - i,
    {
        let c = s[i];
        let ghost before = toks@.map_values(|t: QueryToken| t@);
        if is_space_char(c) {
            i = i + 1;
        } else if c == '(' || c == ')' {
            let t = if c == '(' { QueryToken::ParenOpen } else { QueryToken::ParenClose };
            toks.push(t);
            proof {
                assert(toks@.map_values(|t: QueryToken| t@) =~= before.push(t@));
                match lex_from(s@, i + 1) {
                    Some(rest) => {
                        assert(before + (seq![t@] + rest) =~= before.push(t@) + rest);
                    },
                    None => {},
                }
            }
            i = i + 1;
        } else if c == '"' {
            let found = scan_quoted(&s, i + 1);
            let k = match found {
                Some(k) => k,
                None => {
                    return Err(LexicalError::InvalidToken);
                },
            };
            proof {
                lemma_quoted_end_bounds(s@, i + 1);
            }
            let t = QueryToken::QuotedString(copy_chars(&s, i + 1, k));
            toks.push(t);
            proof {
                assert(toks@.map_values(|t: QueryToken| t@) =~= before.push(t@));
                match lex_from(s@, k + 1) {
                    Some(rest) => {
                        assert(before + (seq![t@] + rest) =~= before.push(t@) + rest);
                    },
                    None => {},
                }
            }
            i = k + 1;
        } else {
            let mut j = i;
            while j < n && !is_space_char(s[j]) && s[j] != '"' && s[j] != '(' && s[j] != ')'
                invariant
                    n == s@.len(),
                    i <= j <= n,
                    ident_end(s@, i as int) == ident_end(s@, j as int),
                decreases n - j,
            {
                j = j + 1;
            }
            let t = classify_word(&s, i, j);
            toks.push(t);
            proof {
                assert(ident_end(s@, j as int) == j);
                lemma_ident_end_bounds(s@, i as int);
                assert(toks@.map_values(|t: QueryToken| t@) =~= before.push(t@));
                match lex_from(s@, j as int) {
                    Some(rest) => {
                        assert(before + (seq![t@] + rest) =~= before.push(t@) + rest);
                    },
                    None => {},
                }
            }
            i = j;
        }
    }
    assert(toks@.map_values(|t: QueryToken| t@) + Seq::<Tok>::empty() =~= toks@.map_values(|t: QueryToken| t@));
    Ok(toks)
}

/// A parsed query, with the text of each literal.
pub enum Expr {
    Lit(Seq<char>),
    And(Box<Expr>, Box<Expr>),
    Or(Box<Expr>, Box<Expr>),
}

pub enum Expression {
    Literal(Vec<char>),
    And(Box<Expression>, Box<Expression>),
    Or(Box<Expression>, Box<Expression>),
}

impl View for Expression {
    type V = Expr;

    open spec fn view(&self) -> Expr
        decreases self,
    {
        match self {
            Expression::Literal(s) => Expr::Lit(s@),
            Expression::And(l, r) => Expr::And(Box::new((**l).view()), Box::new((**r).view())),
            Expression::Or(l, r) => Expr::Or(Box::new((**l).view()), Box::new((**r).view())),
        }
    }
}

pub open spec fn is_ident_tok(t: Tok) -> bool {
    t is Ident
}

/// The end of the run of identifier tokens starting at `p`.
pub open spec fn ident_run_end(toks: Seq<Tok>, p: int) -> int
    decreases toks.len() - p,
{
    if p < 0 || p >= toks.len() || !is_ident_tok(toks[p]) {
        p
    } else {
        ident_run_end(toks, p + 1)
    }
}

/// The identifiers `toks[p..e]` joined with single spaces.
pub open spec fn join_idents(toks: Seq<Tok>, p: int, e: int) -> Seq<char>
    decreases e - p,
{
    if p >= e || p < 0 || p >= toks.len() {
        Seq::empty()
    } else {
        let w = match toks[p] {
            Tok::Ident(w) => w,
            _ => Seq::empty(),
        };
        if p + 1 >= e {
            w
        } else {
            w + seq![' '] + join_idents(toks, p + 1, e)
        }
    }
}

pub open spec fn parse_atom(toks: Seq<Tok>, p: int) -> Option<(Expr, int)>
    decreases toks.len() - p, 0int,
{
    if p < 0 || p >= toks.len() {
        None
    } else {
        match toks[p] {
            Tok::Quoted(s) => Some((Expr::Lit(s), p + 1)),
            Tok::Ident(_) => {
                let e = ident_run_end(toks, p);
                Some((Expr::Lit(join_idents(toks, p, e)), e))
            },
            Tok::Open => match parse_and(toks, p + 1) {
                Some((x, q)) => if p < q < toks.len() && toks[q] is Close {
                    Some((x, q + 1))
                } else {
                    None
                },
                None => None,
            },
            _ => None,
        }
    }
}

pub open spec fn or_tail(toks: Seq<Tok>, left: Expr, p: int) -> Option<(Expr, int)>
    decreases toks.len() - p, 1int,
{
    if 0 <= p < toks.len() && toks[p] is Or {
        match parse_atom(toks, p + 1) {
            Some((r, q)) => if p < q <= toks.len() {
                or_tail(toks, Expr::Or(Box::new(left), Box::new(r)), q)
            } else {
                Some((left, p))
            },
            None => Some((left, p)),
        }
    } else {
        Some((left, p))
    }
}

pub open spec fn parse_or(toks: Seq<Tok>, p: int) -> Option<(Expr, int)>
    decreases toks.len() - p, 2int,
{
    match parse_atom(toks, p) {
        Some((x, q)) => if p <= q <= toks.len() {
            or_tail(toks, x, q)
        } else {
            None
        },
        None => None,
    }
}

pub open spec fn and_tail(toks: Seq<Tok>, left: Expr, p: int) -> Option<(Expr, int)>
    decreases toks.len() - p, 3int,
{
    if 0 <= p < toks.len() && toks[p] is And {
        match parse_or(toks, p + 1) {
            Some((r, q)) => if p < q <= toks.len() {
                and_tail(toks, Expr::And(Box::new(left), Box::new(r)), q)
            } else {
                Some((left, p))
            },
            None => Some((left, p)),
        }
    } else {
        Some((left, p))
    }
}

pub open spec fn parse_and(toks: Seq<Tok>, p: int) -> Option<(Expr, int)>
    decreases toks.len() - p, 4int,
{
    match parse_or(toks, p) {
        Some((x, q)) => if p <= q <= toks.len() {
            and_tail(toks, x, q)
        } else {
            None
        },
        None => None,
    }
}

/// The expression that the whole token list forms, if it forms one.
pub open spec fn parse_tokens(toks: Seq<Tok>) -> Option<Expr> {
    match parse_and(toks, 0) {
        Some((e, q)) => if q == toks.len() {
            Some(e)
        } else {
            None
        },
        None => None,
    }
}

pub open spec fn views(toks: Seq<QueryToken>) -> Seq<Tok> {
    toks.map_values(|t: QueryToken| t@)
}

fn ident_text(t: &QueryToken) -> (r: Vec<char>)
    requires
        t@ is Ident,
    ensures
        t@ == Tok::Ident(r@),
{
    match t {
        QueryToken::Ident(w) => {
            let mut out: Vec<char> = Vec::new();
            let mut k: usize = 0;
            while k < w.len()
                invariant
                    0 <= k <= w@.len(),
                    out@ == w@.subrange(0, k as int),
                decreases w@.len() - k,
            {
                out.push(w[k]);
                assert(out@ =~= w@.subrange(0, k + 1));
                k = k + 1;
            }
            assert(out@ =~= w@);
            out
        },
        _ => Vec::new(),
    }
}

fn copy_text(w: &Vec<char>) -> (r: Vec<char>)
    ensures
        r@ == w@,
{
    let mut out: Vec<char> = Vec::new();
    let mut k: usize = 0;
    while k < w.len()
        invariant
            0 <= k <= w@.len(),
            out@ == w@.subrange(0, k as int),
        decreases w@.len() - k,
    {
        out.push(w[k]);
        assert(out@ =~= w@.subrange(0, k + 1));
        k = k + 1;
    }
    assert(out@ =~= w@);
    out
}

fn is_ident_token(t: &QueryToken) -> (r: bool)
    ensures
        r == is_ident_tok(t@),
{
    match t {
        QueryToken::Ident(_) => true,
        _ => false,
    }
}

/// Joins the run of identifiers starting at `p`; returns the text and the
/// end of the run.
fn literal_run(toks: &Vec<QueryToken>, p: usize) -> (r: (Vec<char>, usize))
    requires
        p < toks@.len(),
        toks@[p as int]@ is Ident,
    ensures
        r.1 == ident_run_end(views(toks@), p as int),
        r.0@ == join_idents(views(toks@), p as int, r.1 as int),
        p < r.1 <= toks@.len(),
{
    let ghost vs = views(toks@);
    let n = toks.len();
    let mut e = p + 1;
    while e < n && is_ident_token(&toks[e])
        invariant
            n == toks@.len(),
            vs == views(toks@),
            p < e <= n,
            ident_run_end(vs, p as int) == ident_run_end(vs, e as int),
            forall|q: int| p <= q < e ==> is_ident_tok(#[trigger] vs[q]),
        decreases n - e,
    {
        e = e + 1;
    }
    // build the text back to front
    let mut k = e - 1;
    proof {
        assert(vs[k as int] == toks@[k as int]@);
        assert(is_ident_tok(vs[k as int]));
    }
    let mut text = ident_text(&toks[k]);
    proof {
        assert(join_idents(vs, k as int, e as int) == text@);
    }
    while k > p
        invariant
            n == toks@.len(),
            vs == views(toks@),
            p <= k < e <= n,
            forall|q: int| p <= q < e ==> is_ident_tok(#[trigger] vs[q]),
            text@ == join_idents(vs, k as int, e as int),
        decreases k - p,
    {
        k = k - 1;
        proof {
            assert(vs[k as int] == toks@[k as int]@);
            assert(is_ident_tok(vs[k as int]));
        }
        let mut w = ident_text(&toks[k]);
        w.push(' ');
        let mut j: usize = 0;
        let ghost w0 = w@;
        while j < text.len()
            invariant
                0 <= j <= text@.len(),
                w@ == w0 + text@.subrange(0, j as int),
            decreases text@.len() - j,
        {
            w.push(text[j]);
            assert(w@ =~= w0 + text@.subrange(0, j + 1));
            j = j + 1;
        }
        assert(text@.subrange(0, j as int) =~= text@);
        assert(w@ == join_idents(vs, k as int, e as int));
        text = w;
    }
    (text, e)
}

fn parse_atom_exec(toks: &Vec<QueryToken>, p: usize) -> (r: Option<(Expression, usize)>)
    requires
        p <= toks@.len(),
    ensures
        match r {
            Some((e, q)) => parse_atom(views(toks@), p as int) == Some((e@, q as int)) && q <= toks@.len(),
            None => parse_atom(views(toks@), p as int) is None,
        },
    decreases toks@.len() - p, 0int,
{
    let ghost vs = views(toks@);
    if p >= toks.len() {
        return None;
    }
    proof {
        assert(vs[p as int] == toks@[p as int]@);
    }
    match &toks[p] {
        QueryToken::QuotedString(s) => {
            let text = copy_text(s);
            let e = Expression::Literal(text);
            assert(e@ == Expr::Lit(text@));
            Some((e, p + 1))
        },
        QueryToken::Ident(_) => {
            let (text, e) = literal_run(toks, p);
            let x = Expression::Literal(text);
            assert(x@ == Expr::Lit(text@));
            Some((x, e))
        },
        QueryToken::ParenOpen => {
            match parse_and_exec(toks, p + 1) {
                Some((x, q)) => {
                    if p < q && q < toks.len() && matches!(toks[q], QueryToken::ParenClose) {
                        proof {
                            assert(vs[q as int] == toks@[q as int]@);
                        }
                        Some((x, q + 1))
                    } else {
                        proof {
                            if q < toks.len() {
                                assert(vs[q as int] == toks@[q as int]@);
                            }
                        }
                        None
                    }
                },
                None => None,
            }
        },
        _ => None,
    }
}

fn or_tail_exec(toks: &Vec<QueryToken>, left: Expression, p: usize) -> (r: Option<(Expression, usize)>)
    requires
        p <= toks@.len(),
    ensures
        match r {
            Some((e, q)) => or_tail(views(toks@), left@, p as int) == Some((e@, q as int)) && q <= toks@.len(),
            None => or_tail(views(toks@), left@, p as int) is None,
        },
    decreases toks@.len() - p, 1int,
{
    let ghost vs = views(toks@);
    if p < toks.len() && matches!(toks[p], QueryToken::Or) {
        proof {
            assert(vs[p as int] == toks@[p as int]@);
        }
        let ghost lv = left@;
        match parse_atom_exec(toks, p + 1) {
            Some((r, q)) => {
                if p < q {
                    let joined = Expression::Or(Box::new(left), Box::new(r));
                    or_tail_exec(toks, joined, q)
                } else {
                    Some((left, p))
                }
            },
            None => Some((left, p)),
        }
    } else {
        proof {
            if p < toks.len() {
                assert(vs[p as int] == toks@[p as int]@);
            }
        }
        Some((left, p))
    }
}

fn parse_or_exec(toks: &Vec<QueryToken>, p: usize) -> (r: Option<(Expression, usize)>)
    requires
        p <= toks@.len(),
    ensures
        match r {
            Some((e, q)) => parse_or(views(toks@), p as int) == Some((e@, q as int)) && q <= toks@.len(),
            None => parse_or(views(toks@), p as int) is None,
        },
    decreases toks@.len() - p, 2int,
{
    match parse_atom_exec(toks, p) {
        Some((x, q)) => {
            if p <= q {
                or_tail_exec(toks, x, q)
            } else {
                None
            }
        },
        None => None,
    }
}

fn and_tail_exec(toks: &Vec<QueryToken>, left: Expression, p: usize) -> (r: Option<(Expression, usize)>)
    requires
        p <= toks@.len(),
    ensures
        match r {
            Some((e, q)) => and_tail(views(toks@), left@, p as int) == Some((e@, q as int)) && q <= toks@.len(),
            None => and_tail(views(toks@), left@, p as int) is None,
        },
    decreases toks@.len() - p, 3int,
{
    let ghost vs = views(toks@);
    if p < toks.len() && matches!(toks[p], QueryToken::And) {
        proof {
            assert(vs[p as int] == toks@[p as int]@);
        }
        match parse_or_exec(toks, p + 1) {
            Some((r, q)) => {
                if p < q {
                    let joined = Expression::And(Box::new(left), Box::new(r));
                    and_tail_exec(toks, joined, q)
                } else {
                    Some((left, p))
                }
            },
            None => Some((left, p)),
        }
    } else {
        proof {
            if p < toks.len() {
                assert(vs[p as int] == toks@[p as int]@);
            }
        }
        Some((left, p))
    }
}

fn parse_and_exec(toks: &Vec<QueryToken>, p: usize) -> (r: Option<(Expression, usize)>)
    requires
        p <= toks@.len(),
    ensures
        match r {
            Some((e, q)) => parse_and(views(toks@), p as int) == Some((e@, q as int)) && q <= toks@.len(),
            None => parse_and(views(toks@), p as int) is None,
        },
    decreases toks@.len() - p, 4int,
{
    match parse_or_exec(toks, p) {
        Some((x, q)) => {
            if p <= q {
                and_tail_exec(toks, x, q)
            } else {
                None
            }
        },
        None => None,
    }
}

/// Parses a whole token list into an expression.
pub fn parse_expression(toks: &Vec<QueryToken>) -> (r: Option<Expression>)
    ensures
        match r {
            Some(e) => parse_tokens(views(toks@)) == Some(e@),
            None => parse_tokens(views(toks@)) is None,
        },
{
    match parse_and_exec(toks, 0) {
        Some((e, q)) => {
            if q == toks.len() {
                Some(e)
            } else {
                None
            }
        },
        None => None,
    }
}

/// Lexes and parses a query string; `None` if either fails.
pub fn parse_query_text(query: &str) -> (r: Option<Expression>)
    ensures
        match r {
            Some(e) => lex(query@) matches Some(t) && parse_tokens(t) == Some(e@),
            None => lex(query@) is None || parse_tokens(lex(query@)->Some_0) is None,
        },
{
    match lex_query(query) {
        Ok(toks) => parse_expression(&toks),
        Err(_) => None,
    }
}

/// Relies on `String: FromIterator<char>`: the string of these characters.
#[verifier::external_body]
fn string_of(chars: &Vec<char>) -> (r: String)
    ensures
        r@ == chars@,
{
    chars.iter().collect()
}

/// `p` is the phrase query for `terms` with filter `df`.
pub open spec fn phrase_is<DF>(p: PhraseQuery<DF>, terms: Seq<u32>, df: DF) -> bool {
    p.phrase@ == terms && p.document_filter == df
}

/// `q` is what an expression compiles to under dictionary `m`, filter `df`
/// and the `optimize` switch:
/// - a literal is a phrase query for its words;
/// - `a AND b` of two literals, optimized, is one intersection of both
///   phrases' posting lists; otherwise an intersection of the two parts;
/// - `a OR b` of two one-word literals, optimized, is a keyword query;
///   otherwise a union of the two parts.
pub open spec fn compiles_to<DF>(q: DynamicQuery<DF>, e: Expr, m: Map<Seq<char>, u32>, df: DF, optimize: bool) -> bool
    decreases e,
{
    match e {
        Expr::Lit(s) => q matches DynamicQuery::Phrase(p) && phrase_is(p, phrase_terms(m, s), df),
        Expr::And(l, r) => if optimize && (*l is Lit) && (*r is Lit) {
            q matches DynamicQuery::PhraseIntersection(pi) && pi.queries@.len() == 2 && pi.document_filter == df
                && phrase_is(pi.queries@[0], phrase_terms(m, l->Lit_0), df)
                && phrase_is(pi.queries@[1], phrase_terms(m, r->Lit_0), df)
        } else {
            q matches DynamicQuery::Intersection(iq) && iq.queries@.len() == 2 && iq.document_filter == df
                && compiles_to(iq.queries@[0], *l, m, df, optimize) && compiles_to(iq.queries@[1], *r, m, df, optimize)
        },
        Expr::Or(l, r) => if optimize && (*l is Lit) && (*r is Lit) && phrase_terms(m, l->Lit_0).len() == 1
            && phrase_terms(m, r->Lit_0).len() == 1 {
            q matches DynamicQuery::Keywords(k) && k.document_filter == df
                && k.keywords@ == seq![phrase_terms(m, l->Lit_0)[0], phrase_terms(m, r->Lit_0)[0]]
        } else {
            q matches DynamicQuery::Union(uq) && uq.queries@.len() == 2 && compiles_to(uq.queries@[0], *l, m, df, optimize)
                && compiles_to(uq.queries@[1], *r, m, df, optimize)
        },
    }
}

fn phrase_of<DF: Copy>(text: &Vec<char>, terms: &FrozenTermMap, doc_filter: DF) -> (r: PhraseQuery<DF>)
    requires
        terms.wf(),
    ensures
        r.wf(),
        phrase_is(r, phrase_terms(terms@, text@), doc_filter),
{
    let s = string_of(text);
    let ids = terms.tokenize_phrase(s.as_str());
    PhraseQuery::new(ids.as_slice(), doc_filter)
}

impl Expression {
    /// Compiles the expression into a query over the dictionary `terms`,
    /// every part filtered by `doc_filter`.
    pub fn parse<DF: Copy>(self, terms: &FrozenTermMap, doc_filter: DF, optimize: bool) -> (r: DynamicQuery<DF>)
        requires
            terms.wf(),
        ensures
            r.wf(),
            compiles_to(r, self@, terms@, doc_filter, optimize),
        decreases self,
    {
        let ghost sv = self@;
        match self {
            Expression::Literal(v) => DynamicQuery::Phrase(phrase_of(&v, terms, doc_filter)),
            Expression::And(l, r) => {
                let lb = *l;
                let rb = *r;
                proof {
                    assert(sv == Expr::And(Box::new(lb@), Box::new(rb@)));
                }
                match (lb, rb) {
                    (Expression::Literal(lt), Expression::Literal(rt)) => {
                        let lhs = phrase_of(&lt, terms, doc_filter);
                        let rhs = phrase_of(&rt, terms, doc_filter);
                        if optimize {
                            let mut queries: Vec<PhraseQuery<DF>> = Vec::new();
                            queries.push(lhs);
                            queries.push(rhs);
                            let q = DynamicQuery::PhraseIntersection(IntersectingPhraseQuery { queries, document_filter: doc_filter });
                            proof {
                                assert(q.wf());
                                assert(compiles_to(q, sv, terms@, doc_filter, optimize));
                            }
                            q
                        } else {
                            let mut queries: Vec<DynamicQuery<DF>> = Vec::new();
                            queries.push(DynamicQuery::Phrase(lhs));
                            queries.push(DynamicQuery::Phrase(rhs));
                            let q = DynamicQuery::Intersection(IntersectingQuery { queries, document_filter: doc_filter });
                            proof {
                                assert(queries@[0].wf() && queries@[1].wf());
                                assert(compiles_to(queries@[0], Expr::Lit(lt@), terms@, doc_filter, optimize));
                                assert(compiles_to(queries@[1], Expr::Lit(rt@), terms@, doc_filter, optimize));
                                assert(q.wf());
                                assert(compiles_to(q, sv, terms@, doc_filter, optimize));
                            }
                            q
                        }
                    },
                    (lb, rb) => {
                        let lhs = lb.parse(terms, doc_filter, optimize);
                        let rhs = rb.parse(terms, doc_filter, optimize);
                        let mut queries: Vec<DynamicQuery<DF>> = Vec::new();
                        queries.push(lhs);
                        queries.push(rhs);
                        let q = DynamicQuery::Intersection(IntersectingQuery { queries, document_filter: doc_filter });
                        proof {
                            assert(queries@[0].wf() && queries@[1].wf());
                            assert(q.wf());
                            assert(compiles_to(q, sv, terms@, doc_filter, optimize));
                        }
                        q
                    },
                }
            },
            Expression::Or(l, r) => {
                let lb = *l;
                let rb = *r;
                proof {
                    assert(sv == Expr::Or(Box::new(lb@), Box::new(rb@)));
                }
                match (lb, rb) {
                    (Expression::Literal(lt), Expression::Literal(rt)) => {
                        let ls = string_of(&lt);
                        let rs = string_of(&rt);
                        let lhs_terms = terms.tokenize_phrase(ls.as_str());
                        let rhs_terms = terms.tokenize_phrase(rs.as_str());
                        if optimize && lhs_terms.len() == 1 && rhs_terms.len() == 1 {
                            let mut kws: Vec<u32> = Vec::new();
                            kws.push(lhs_terms[0]);
                            kws.push(rhs_terms[0]);
                            proof {
                                assert(kws@ =~= seq![lhs_terms@[0], rhs_terms@[0]]);
                            }
                            DynamicQuery::Keywords(KeywordsQuery::new(kws.as_slice(), doc_filter))
                        } else {
                            let lhs = PhraseQuery::new(lhs_terms.as_slice(), doc_filter);
                            let rhs = PhraseQuery::new(rhs_terms.as_slice(), doc_filter);
                            let mut queries: Vec<DynamicQuery<DF>> = Vec::new();
                            queries.push(DynamicQuery::Phrase(lhs));
                            queries.push(DynamicQuery::Phrase(rhs));
                            let q = DynamicQuery::Union(UnionQuery { queries });
                            proof {
                                assert(queries@[0].wf() && queries@[1].wf());
                                assert(compiles_to(queries@[0], Expr::Lit(lt@), terms@, doc_filter, optimize));
                                assert(compiles_to(queries@[1], Expr::Lit(rt@), terms@, doc_filter, optimize));
                                assert(q.wf());
                                assert(compiles_to(q, sv, terms@, doc_filter, optimize));
                            }
                            q
                        }
                    },
                    (lb, rb) => {
                        let lhs = lb.parse(terms, doc_filter, optimize);
                        let rhs = rb.parse(terms, doc_filter, optimize);
                        let mut queries: Vec<DynamicQuery<DF>> = Vec::new();
                        queries.push(lhs);
                        queries.push(rhs);
                        let q = DynamicQuery::Union(UnionQuery { queries });
                        proof {
                            assert(queries@[0].wf() && queries@[1].wf());
                            assert(q.wf());
                            assert(compiles_to(q, sv, terms@, doc_filter, optimize));
                        }
                        q
                    },
                }
            },
        }
    }
}

} // verus!
