//! Turning text into tokens: whitespace and `#` comments are skipped,
//! numbers, identifiers, operators and parentheses become tokens, and any
//! other character stops the lexer.

use vstd::prelude::*;
use crate::expression::{Decimal, Failure, ParseError, digits_eq, is_digit_seq, num_wf};
use crate::render::{num_text, string_of};

verus! {

/// The model of a token.
pub enum Tok {
    Eof,
    Ident(Seq<char>),
    Num(Seq<u8>, Seq<u8>),
    Op(char),
    Open,
    Close,
}

#[derive(Debug)]
pub enum Token {
    Eof,
    Ident(Vec<char>),
    Literal(Decimal),
    Op(char),
    ParenOpen,
    ParenClose,
}

fn copy_chars(v: &Vec<char>) -> (r: Vec<char>)
    ensures
        r@ == v@,
{
    let mut r: Vec<char> = Vec::new();
    let mut i: usize = 0;
    while i < v.len()
        invariant
            i <= v.len(),
            r@ == v@.subrange(0, i as int),
        decreases v.len() - i,
    {
        r.push(v[i]);
        i = i + 1;
        assert(r@ =~= v@.subrange(0, i as int));
    }
    assert(r@ =~= v@);
    r
}

impl Token {
    /// A copy of this token, equal to it in the model.
    pub fn deep_copy(&self) -> (r: Token)
        ensures
            r@ == self@,
    {
        match self {
            Token::Eof => Token::Eof,
            Token::Ident(n) => Token::Ident(copy_chars(n)),
            Token::Literal(d) => Token::Literal(d.deep_copy()),
            Token::Op(c) => Token::Op(*c),
            Token::ParenOpen => Token::ParenOpen,
            Token::ParenClose => Token::ParenClose,
        }
    }

    pub open spec fn view(&self) -> Tok {
        match self {
            Token::Eof => Tok::Eof,
            Token::Ident(n) => Tok::Ident(n@),
            Token::Literal(d) => Tok::Num(d.whole@, d.frac@),
            Token::Op(c) => Tok::Op(*c),
            Token::ParenOpen => Tok::Open,
            Token::ParenClose => Tok::Close,
        }
    }
}

pub open spec fn is_ws(c: char) -> bool {
    c == ' ' || c == '\t' || c == '\r' || c == '\n'
}

pub open spec fn is_digit(c: char) -> bool {
    '0' <= c <= '9'
}

pub open spec fn is_alpha(c: char) -> bool {
    ('a' <= c <= 'z') || ('A' <= c <= 'Z')
}

pub open spec fn is_ident_tail(c: char) -> bool {
    is_alpha(c) || is_digit(c) || c == '_' || c == '\''
}

pub open spec fn is_op_char(c: char) -> bool {
    c == '+' || c == '-' || c == '*' || c == '/' || c == '^' || c == '='
}

pub open spec fn digit_val(c: char) -> u8 {
    (c as u32 - 48) as u8
}

/// The end of the run of digits that starts at `i`.
pub open spec fn scan_digits(s: Seq<char>, i: int) -> int
    decreases s.len() - i,
{
    if 0 <= i < s.len() && is_digit(s[i]) {
        scan_digits(s, i + 1)
    } else {
        i
    }
}

/// The end of the run of identifier characters that starts at `i`.
pub open spec fn scan_ident(s: Seq<char>, i: int) -> int
    decreases s.len() - i,
{
    if 0 <= i < s.len() && is_ident_tail(s[i]) {
        scan_ident(s, i + 1)
    } else {
        i
    }
}

/// The end of a comment's text: the next line break, or the end.
pub open spec fn scan_comment(s: Seq<char>, i: int) -> int
    decreases s.len() - i,
{
    if 0 <= i < s.len() && s[i] != '\n' {
        scan_comment(s, i + 1)
    } else {
        i
    }
}

pub open spec fn digits_of(cs: Seq<char>) -> Seq<u8> {
    Seq::new(cs.len(), |k: int| digit_val(cs[k]))
}

pub open spec fn first_nonzero(d: Seq<u8>, k: int) -> int
    decreases d.len() - k,
{
    if 0 <= k < d.len() && d[k] == 0 {
        first_nonzero(d, k + 1)
    } else {
        k
    }
}

pub open spec fn trailing_end(d: Seq<u8>, k: int) -> int
    decreases k,
{
    if 0 < k <= d.len() && d[k - 1] == 0 {
        trailing_end(d, k - 1)
    } else {
        k
    }
}

/// Digits without leading zeros.
pub open spec fn strip_leading(d: Seq<u8>) -> Seq<u8> {
    d.subrange(first_nonzero(d, 0), d.len() as int)
}

/// Digits without trailing zeros.
pub open spec fn strip_trailing(d: Seq<u8>) -> Seq<u8> {
    d.subrange(0, trailing_end(d, d.len() as int))
}

/// The number token that starts at `i` (a digit), and where it ends:
/// digits, then optionally a point and more digits.
pub open spec fn number_at(s: Seq<char>, i: int) -> (Tok, int) {
    let j = scan_digits(s, i);
    let whole = strip_leading(digits_of(s.subrange(i, j)));
    if j < s.len() && s[j] == '.' {
        let k = scan_digits(s, j + 1);
        (Tok::Num(whole, strip_trailing(digits_of(s.subrange(j + 1, k)))), k)
    } else {
        (Tok::Num(whole, Seq::empty()), j)
    }
}

/// The tokens of `s` from `i` on, and the character that stopped the lexer,
/// if one did.
pub open spec fn lex_from(s: Seq<char>, i: int) -> (Seq<Tok>, Option<char>)
    decreases s.len() - i,
{
    if i < 0 || i >= s.len() {
        (Seq::empty(), None)
    } else {
        let c = s[i];
        if is_ws(c) {
            lex_from(s, i + 1)
        } else if c == '#' {
            let j = scan_comment(s, i + 1);
            if i < j <= s.len() {
                lex_from(s, j)
            } else {
                (Seq::empty(), None)
            }
        } else if is_digit(c) {
            let (t, j) = number_at(s, i);
            if i < j <= s.len() {
                let r = lex_from(s, j);
                (seq![t] + r.0, r.1)
            } else {
                (Seq::empty(), None)
            }
        } else if is_alpha(c) {
            let j = scan_ident(s, i + 1);
            if i < j <= s.len() {
                let r = lex_from(s, j);
                (seq![Tok::Ident(s.subrange(i, j))] + r.0, r.1)
            } else {
                (Seq::empty(), None)
            }
        } else if is_op_char(c) || c == '(' || c == ')' {
            let t = if c == '(' {
                Tok::Open
            } else if c == ')' {
                Tok::Close
            } else {
                Tok::Op(c)
            };
            let r = lex_from(s, i + 1);
            (seq![t] + r.0, r.1)
        } else {
            (Seq::empty(), Some(c))
        }
    }
}

/// The tokens of `s`, and the character that stopped the lexer, if one did.
pub open spec fn lex(s: Seq<char>) -> (Seq<Tok>, Option<char>) {
    lex_from(s, 0)
}

pub open spec fn end_of_input_text() -> Seq<char> {
    seq!['e', 'n', 'd', ' ', 'o', 'f', ' ', 'i', 'n', 'p', 'u', 't']
}

/// How an unexpected token is named in an error.
pub open spec fn describe(t: Tok) -> Seq<char> {
    match t {
        Tok::Eof => end_of_input_text(),
        Tok::Ident(n) => n,
        Tok::Num(w, f) => num_text(w, f),
        Tok::Op(c) => seq![c],
        Tok::Open => seq!['('],
        Tok::Close => seq![')'],
    }
}

fn is_ws_exec(c: char) -> (r: bool)
    ensures
        r == is_ws(c),
{
    c == ' ' || c == '\t' || c == '\r' || c == '\n'
}

fn is_digit_exec(c: char) -> (r: bool)
    ensures
        r == is_digit(c),
{
    '0' <= c && c <= '9'
}

fn is_alpha_exec(c: char) -> (r: bool)
    ensures
        r == is_alpha(c),
{
    ('a' <= c && c <= 'z') || ('A' <= c && c <= 'Z')
}

fn is_ident_tail_exec(c: char) -> (r: bool)
    ensures
        r == is_ident_tail(c),
{
    is_alpha_exec(c) || is_digit_exec(c) || c == '_' || c == '\''
}

fn scan_digits_exec(s: &Vec<char>, i: usize) -> (j: usize)
    requires
        i <= s.len(),
    ensures
        j as int == scan_digits(s@, i as int),
        i <= j <= s.len(),
{
    let mut j = i;
    while j < s.len() && is_digit_exec(s[j])
        invariant
            i <= j <= s.len(),
            scan_digits(s@, j as int) == scan_digits(s@, i as int),
        decreases s.len() - j,
    {
        j = j + 1;
    }
    j
}

fn scan_ident_exec(s: &Vec<char>, i: usize) -> (j: usize)
    requires
        i <= s.len(),
    ensures
        j as int == scan_ident(s@, i as int),
        i <= j <= s.len(),
{
    let mut j = i;
    while j < s.len() && is_ident_tail_exec(s[j])
        invariant
            i <= j <= s.len(),
            scan_ident(s@, j as int) == scan_ident(s@, i as int),
        decreases s.len() - j,
    {
        j = j + 1;
    }
    j
}

fn scan_comment_exec(s: &Vec<char>, i: usize) -> (j: usize)
    requires
        i <= s.len(),
    ensures
        j as int == scan_comment(s@, i as int),
        i <= j <= s.len(),
{
    let mut j = i;
    while j < s.len() && s[j] != '\n'
        invariant
            i <= j <= s.len(),
            scan_comment(s@, j as int) == scan_comment(s@, i as int),
        decreases s.len() - j,
    {
        j = j + 1;
    }
    j
}

/// The digit values of `s[from..to]`, without leading zeros.
fn whole_digits(s: &Vec<char>, from: usize, to: usize) -> (r: Vec<u8>)
    requires
        from <= to <= s.len(),
        forall|k: int| from <= k < to ==> is_digit(#[trigger] s@[k]),
    ensures
        r@ == strip_leading(digits_of(s@.subrange(from as int, to as int))),
{
    let ghost d = digits_of(s@.subrange(from as int, to as int));
    let mut k = from;
    while k < to && s[k] == '0'
        invariant
            from <= k <= to,
            to <= s.len(),
            d == digits_of(s@.subrange(from as int, to as int)),
            first_nonzero(d, k - from) == first_nonzero(d, 0),
        decreases to - k,
    {
        assert(d[k - from] == 0);
        k = k + 1;
    }
    proof {
        if k < to {
            assert(d[k - from] != 0);
        }
    }
    let mut r: Vec<u8> = Vec::new();
    let mut m = k;
    while m < to
        invariant
            k <= m <= to,
            from <= k,
            to <= s.len(),
            forall|q: int| from <= q < to ==> is_digit(#[trigger] s@[q]),
            d == digits_of(s@.subrange(from as int, to as int)),
            r@ == d.subrange(k - from, m - from),
        decreases to - m,
    {
        r.push((s[m] as u32 - 48) as u8);
        m = m + 1;
        assert(r@ =~= d.subrange(k - from, m - from));
    }
    r
}

/// The digit values of `s[from..to]`, without trailing zeros.
fn frac_digits(s: &Vec<char>, from: usize, to: usize) -> (r: Vec<u8>)
    requires
        from <= to <= s.len(),
        forall|k: int| from <= k < to ==> is_digit(#[trigger] s@[k]),
    ensures
        r@ == strip_trailing(digits_of(s@.subrange(from as int, to as int))),
{
    let ghost d = digits_of(s@.subrange(from as int, to as int));
    let mut k = to;
    while k > from && s[k - 1] == '0'
        invariant
            from <= k <= to,
            to <= s.len(),
            d == digits_of(s@.subrange(from as int, to as int)),
            trailing_end(d, k - from) == trailing_end(d, d.len() as int),
        decreases k - from,
    {
        assert(d[k - from - 1] == 0);
        k = k - 1;
    }
    proof {
        if k > from {
            assert(d[k - from - 1] != 0);
        }
    }
    let mut r: Vec<u8> = Vec::new();
    let mut m = from;
    while m < k
        invariant
            from <= m <= k,
            k <= to,
            to <= s.len(),
            forall|q: int| from <= q < to ==> is_digit(#[trigger] s@[q]),
            d == digits_of(s@.subrange(from as int, to as int)),
            r@ == d.subrange(0, m - from),
        decreases k - m,
    {
        r.push((s[m] as u32 - 48) as u8);
        m = m + 1;
        assert(r@ =~= d.subrange(0, m - from));
    }
    r
}

pub proof fn lemma_scan_digits(s: Seq<char>, i: int)
    requires
        0 <= i <= s.len(),
    ensures
        i <= scan_digits(s, i) <= s.len(),
        forall|k: int| i <= k < scan_digits(s, i) ==> is_digit(#[trigger] s[k]),
    decreases s.len() - i,
{
    if i < s.len() && is_digit(s[i]) {
        lemma_scan_digits(s, i + 1);
    }
}

fn number_exec(s: &Vec<char>, i: usize) -> (r: (Token, usize))
    requires
        i < s.len(),
        is_digit(s@[i as int]),
    ensures
        (r.0@, r.1 as int) == number_at(s@, i as int),
        i < r.1 <= s.len(),
{
    let j = scan_digits_exec(s, i);
    proof {
        lemma_scan_digits(s@, i as int);
        lemma_scan_digits(s@, i + 1);
    }
    let whole = whole_digits(s, i, j);
    if j < s.len() && s[j] == '.' {
        let k = scan_digits_exec(s, j + 1);
        proof {
            lemma_scan_digits(s@, j + 1);
        }
        let frac = frac_digits(s, j + 1, k);
        (Token::Literal(Decimal { whole, frac }), k)
    } else {
        (Token::Literal(Decimal { whole, frac: Vec::new() }), j)
    }
}

/// The characters of `s`, one by one.
pub fn chars_of(s: &str) -> (r: Vec<char>)
    ensures
        r@ == s@,
{
    let n = s.unicode_len();
    let mut r: Vec<char> = Vec::new();
    let mut i: usize = 0;
    while i < n
        invariant
            n == s@.len(),
            i <= n,
            r@ == s@.subrange(0, i as int),
        decreases n - i,
    {
        r.push(s.get_char(i));
        i = i + 1;
        assert(r@ =~= s@.subrange(0, i as int));
    }
    assert(r@ =~= s@);
    r
}

/// A token stream over the text, with a current position. The text is
/// split into tokens up to the first character that starts none.
pub struct Lexer {
    pub toks: Vec<Token>,
    pub bad: Option<char>,
    pub pos: usize,
    pub eof: Token,
}

/// The model of a token stream: its tokens and the character that stopped
/// the lexer, if one did.
pub struct Lexed {
    pub toks: Seq<Tok>,
    pub bad: Option<char>,
}

/// The token at position `p`, or the end of input.
pub open spec fn cur_tok(l: Lexed, p: int) -> Tok {
    if 0 <= p < l.toks.len() { l.toks[p] } else { Tok::Eof }
}

/// Moving past the token at `p`: fails where the next token is the
/// character that stopped the lexer.
pub open spec fn advance(l: Lexed, p: int) -> Result<int, Failure> {
    if p + 1 == l.toks.len() && l.bad is Some {
        Err(Failure::BadToken(seq![l.bad->0]))
    } else {
        Ok(p + 1)
    }
}

/// Moving past the token at `p` if it is `t`: whether it was, and the new
/// position.
pub open spec fn accept(l: Lexed, p: int, t: Tok) -> Result<(bool, int), Failure> {
    if cur_tok(l, p) == t {
        match advance(l, p) {
            Ok(q) => Ok((true, q)),
            Err(e) => Err(e),
        }
    } else {
        Ok((false, p))
    }
}

pub open spec fn toks_view(v: Seq<Token>) -> Seq<Tok> {
    Seq::new(v.len(), |i: int| v[i]@)
}

impl Lexer {
    pub open spec fn lexed(&self) -> Lexed {
        Lexed { toks: toks_view(self.toks@), bad: self.bad }
    }

    /// Same tokens and stopping character as `other`.
    pub open spec fn same_stream(&self, other: Lexer) -> bool {
        &&& self.toks@ == other.toks@
        &&& self.bad == other.bad
        &&& self.eof == other.eof
    }

    pub open spec fn wf(&self) -> bool {
        &&& self.pos <= self.toks.len()
        &&& self.eof@ == Tok::Eof
    }

    /// Splits `s` into tokens and stands on the first one. Fails where the
    /// first token is a character that starts none.
    pub fn new(s: &str) -> (r: Result<Lexer, ParseError>)
        ensures
            match r {
                Ok(l) => l.wf() && l.pos == 0 && (l.lexed().toks, l.lexed().bad) == lex(s@)
                    && !(l.toks.len() == 0 && l.bad is Some),
                Err(e) => lex(s@).0.len() == 0 && lex(s@).1 is Some && e@ == Failure::BadToken(
                    seq![lex(s@).1->0],
                ),
            },
    {
        let cs = chars_of(s);
        let n = cs.len();
        let mut toks: Vec<Token> = Vec::new();
        let mut bad: Option<char> = None;
        let mut i: usize = 0;
        while bad.is_none() && i < n
            invariant
                n == cs@.len(),
                i <= n,
                bad is None ==> lex(cs@).0 == Seq::new(toks.len() as nat, |k: int| toks[k]@) + lex_from(cs@, i as int).0,
                bad is None ==> lex(cs@).1 == lex_from(cs@, i as int).1,
                bad is Some ==> lex(cs@).0 == Seq::new(toks.len() as nat, |k: int| toks[k]@),
                bad is Some ==> lex(cs@).1 == bad,
            decreases n - i + if bad is None { 1int } else { 0int },
        {
            let ghost acc = Seq::new(toks.len() as nat, |k: int| toks[k]@);
            let c = cs[i];
            if is_ws_exec(c) {
                i = i + 1;
            } else if c == '#' {
                i = scan_comment_exec(&cs, i + 1);
            } else if is_digit_exec(c) {
                let (t, j) = number_exec(&cs, i);
                let ghost tv = t@;
                toks.push(t);
                i = j;
                assert(Seq::new(toks.len() as nat, |k: int| toks[k]@) =~= acc + seq![tv]);
            } else if is_alpha_exec(c) {
                let j = scan_ident_exec(&cs, i + 1);
                let mut name: Vec<char> = Vec::new();
                let mut m = i;
                while m < j
                    invariant
                        i <= m <= j,
                        j <= cs.len(),
                        name@ == cs@.subrange(i as int, m as int),
                    decreases j - m,
                {
                    name.push(cs[m]);
                    m = m + 1;
                    assert(name@ =~= cs@.subrange(i as int, m as int));
                }
                toks.push(Token::Ident(name));
                let ghost tv = Tok::Ident(cs@.subrange(i as int, j as int));
                i = j;
                assert(Seq::new(toks.len() as nat, |k: int| toks[k]@) =~= acc + seq![tv]);
            } else if c == '+' || c == '-' || c == '*' || c == '/' || c == '^' || c == '=' || c == '('
                || c == ')' {
                let t = if c == '(' {
                    Token::ParenOpen
                } else if c == ')' {
                    Token::ParenClose
                } else {
                    Token::Op(c)
                };
                let ghost tv = t@;
                toks.push(t);
                i = i + 1;
                assert(Seq::new(toks.len() as nat, |k: int| toks[k]@) =~= acc + seq![tv]);
            } else {
                bad = Some(c);
                assert(acc + lex_from(cs@, i as int).0 =~= acc);
            }
        }
        proof {
            if bad is None {
                assert(lex(cs@).0 =~= Seq::new(toks.len() as nat, |k: int| toks[k]@));
            }
        }
        if toks.len() == 0 {
            if let Some(c) = bad {
                let mut msg: Vec<char> = Vec::new();
                msg.push(c);
                assert(msg@ =~= seq![c]);
                return Err(ParseError::BadToken(string_of(&msg)));
            }
        }
        let l = Lexer { toks, bad, pos: 0, eof: Token::Eof };
        assert(l.lexed().toks =~= lex(s@).0);
        Ok(l)
    }

    /// The current token.
    pub fn cur(&self) -> (r: &Token)
        requires
            self.wf(),
        ensures
            r@ == cur_tok(self.lexed(), self.pos as int),
    {
        if self.pos < self.toks.len() {
            &self.toks[self.pos]
        } else {
            &self.eof
        }
    }

    /// Moves past the current token, which is not the end of input, and
    /// hands that token back.
    pub fn consume(&mut self) -> (r: Result<Token, ParseError>)
        requires
            old(self).wf(),
            old(self).pos < old(self).toks.len(),
        ensures
            final(self).wf(),
            final(self).same_stream(*old(self)),
            match advance(old(self).lexed(), old(self).pos as int) {
                Ok(q) => r is Ok && final(self).pos == q && r->Ok_0@ == cur_tok(
                    old(self).lexed(),
                    old(self).pos as int,
                ),
                Err(e) => r is Err && r->Err_0@ == e,
            },
    {
        if self.pos + 1 == self.toks.len() {
            if let Some(c) = self.bad {
                let mut msg: Vec<char> = Vec::new();
                msg.push(c);
                assert(msg@ =~= seq![c]);
                return Err(ParseError::BadToken(string_of(&msg)));
            }
        }
        let t = self.toks[self.pos].deep_copy();
        self.pos = self.pos + 1;
        Ok(t)
    }

    /// Moves past the current token if it is `t`, and says whether it did.
    pub fn consume_if(&mut self, t: &Token) -> (r: Result<bool, ParseError>)
        requires
            old(self).wf(),
            t@ != Tok::Eof,
        ensures
            final(self).wf(),
            final(self).same_stream(*old(self)),
            match accept(old(self).lexed(), old(self).pos as int, t@) {
                Ok((b, q)) => r == Ok::<bool, ParseError>(b) && final(self).pos == q,
                Err(e) => r is Err && r->Err_0@ == e,
            },
    {
        let here = self.cur();
        if same_token(here, t) {
            match self.consume() {
                Ok(_) => Ok(true),
                Err(e) => Err(e),
            }
        } else {
            Ok(false)
        }
    }
}

fn chars_eq(a: &Vec<char>, b: &Vec<char>) -> (r: bool)
    ensures
        r == (a@ == b@),
{
    if a.len() != b.len() {
        return false;
    }
    let mut i: usize = 0;
    while i < a.len()
        invariant
            a.len() == b.len(),
            i <= a.len(),
            a@.subrange(0, i as int) == b@.subrange(0, i as int),
        decreases a.len() - i,
    {
        if a[i] != b[i] {
            assert(a@[i as int] != b@[i as int]);
            return false;
        }
        assert(a@.subrange(0, i + 1) =~= a@.subrange(0, i as int).push(a@[i as int]));
        assert(b@.subrange(0, i + 1) =~= b@.subrange(0, i as int).push(b@[i as int]));
        i = i + 1;
    }
    assert(a@ =~= a@.subrange(0, i as int));
    assert(b@ =~= b@.subrange(0, i as int));
    true
}

/// Whether the two tokens are the same in the model.
pub fn same_token(a: &Token, b: &Token) -> (r: bool)
    ensures
        r == (a@ == b@),
{
    match (a, b) {
        (Token::Eof, Token::Eof) => true,
        (Token::Ident(x), Token::Ident(y)) => chars_eq(x, y),
        (Token::Literal(x), Token::Literal(y)) => digits_eq(&x.whole, &y.whole) && digits_eq(
            &x.frac,
            &y.frac,
        ),
        (Token::Op(x), Token::Op(y)) => *x == *y,
        (Token::ParenOpen, Token::ParenOpen) => true,
        (Token::ParenClose, Token::ParenClose) => true,
        _ => false,
    }
}

/// A token as the lexer makes them: names are not empty and numbers are in
/// canonical form.
/// An identifier: a letter, then letters, digits, `_` and `'`.
pub open spec fn is_name(n: Seq<char>) -> bool {
    &&& n.len() > 0
    &&& is_alpha(n[0])
    &&& forall|k: int| 1 <= k < n.len() ==> is_ident_tail(#[trigger] n[k])
}

pub open spec fn tok_good(t: Tok) -> bool {
    match t {
        Tok::Ident(n) => is_name(n),
        Tok::Num(w, f) => num_wf(w, f),
        _ => true,
    }
}

pub open spec fn toks_good(ts: Seq<Tok>) -> bool {
    forall|i: int| 0 <= i < ts.len() ==> tok_good(#[trigger] ts[i])
}

pub proof fn lemma_scan_ident(s: Seq<char>, i: int)
    requires
        0 <= i <= s.len(),
    ensures
        i <= scan_ident(s, i) <= s.len(),
        forall|k: int| i <= k < scan_ident(s, i) ==> is_ident_tail(#[trigger] s[k]),
    decreases s.len() - i,
{
    if i < s.len() && is_ident_tail(s[i]) {
        lemma_scan_ident(s, i + 1);
    }
}

proof fn lemma_first_nonzero(d: Seq<u8>, k: int)
    requires
        0 <= k <= d.len(),
    ensures
        k <= first_nonzero(d, k) <= d.len(),
        first_nonzero(d, k) < d.len() ==> d[first_nonzero(d, k)] != 0,
    decreases d.len() - k,
{
    if k < d.len() && d[k] == 0 {
        lemma_first_nonzero(d, k + 1);
    }
}

proof fn lemma_trailing_end(d: Seq<u8>, k: int)
    requires
        0 <= k <= d.len(),
    ensures
        0 <= trailing_end(d, k) <= k,
        trailing_end(d, k) > 0 ==> d[trailing_end(d, k) - 1] != 0,
    decreases k,
{
    if 0 < k && d[k - 1] == 0 {
        lemma_trailing_end(d, k - 1);
    }
}

proof fn lemma_digits_of(s: Seq<char>, i: int, j: int)
    requires
        0 <= i <= j <= s.len(),
        forall|k: int| i <= k < j ==> is_digit(#[trigger] s[k]),
    ensures
        is_digit_seq(digits_of(s.subrange(i, j))),
{
    assert forall|k: int| 0 <= k < j - i implies digits_of(s.subrange(i, j))[k] < 10 by {
        assert(is_digit(s[i + k]));
    }
}

proof fn lemma_number_good(s: Seq<char>, i: int)
    requires
        0 <= i < s.len(),
        is_digit(s[i]),
    ensures
        tok_good(number_at(s, i).0),
{
    let j = scan_digits(s, i);
    lemma_scan_digits(s, i);
    lemma_digits_of(s, i, j);
    let d = digits_of(s.subrange(i, j));
    lemma_first_nonzero(d, 0);
    if j < s.len() && s[j] == '.' {
        let k = scan_digits(s, j + 1);
        lemma_scan_digits(s, j + 1);
        lemma_digits_of(s, j + 1, k);
        let g = digits_of(s.subrange(j + 1, k));
        lemma_trailing_end(g, g.len() as int);
    }
}

/// Every token of `s` from `i` on is good.
pub proof fn lemma_lex_good(s: Seq<char>, i: int)
    ensures
        toks_good(lex_from(s, i).0),
    decreases s.len() - i,
{
    if 0 <= i < s.len() {
        let c = s[i];
        if is_ws(c) {
            lemma_lex_good(s, i + 1);
        } else if c == '#' {
            let j = scan_comment(s, i + 1);
            if i < j <= s.len() {
                lemma_lex_good(s, j);
            }
        } else if is_digit(c) {
            let (t, j) = number_at(s, i);
            if i < j <= s.len() {
                lemma_lex_good(s, j);
                lemma_number_good(s, i);
                let r = lex_from(s, j);
                assert(lex_from(s, i).0 == seq![t] + r.0);
                assert forall|k: int| 0 <= k < lex_from(s, i).0.len() implies tok_good(
                    #[trigger] lex_from(s, i).0[k],
                ) by {
                    if k > 0 {
                        assert(lex_from(s, i).0[k] == r.0[k - 1]);
                    }
                }
            }
        } else if is_alpha(c) {
            let j = scan_ident(s, i + 1);
            if i < j <= s.len() {
                lemma_lex_good(s, j);
                lemma_scan_ident(s, i + 1);
                let r = lex_from(s, j);
                let t = Tok::Ident(s.subrange(i, j));
                assert(is_name(s.subrange(i, j))) by {
                    assert forall|k: int| 1 <= k < j - i implies is_ident_tail(#[trigger] s.subrange(i, j)[k]) by {
                        assert(s.subrange(i, j)[k] == s[i + k]);
                    }
                }
                assert(lex_from(s, i).0 == seq![t] + r.0);
                assert forall|k: int| 0 <= k < lex_from(s, i).0.len() implies tok_good(
                    #[trigger] lex_from(s, i).0[k],
                ) by {
                    if k > 0 {
                        assert(lex_from(s, i).0[k] == r.0[k - 1]);
                    }
                }
            }
        } else if is_op_char(c) || c == '(' || c == ')' {
            lemma_lex_good(s, i + 1);
            let r = lex_from(s, i + 1);
            assert forall|k: int| 0 <= k < lex_from(s, i).0.len() implies tok_good(
                #[trigger] lex_from(s, i).0[k],
            ) by {
                if k > 0 {
                    assert(lex_from(s, i).0[k] == r.0[k - 1]);
                }
            }
        }
    }
}

pub proof fn lemma_scan_digits_shift(a: Seq<char>, b: Seq<char>, j: int)
    requires
        0 <= j <= b.len(),
    ensures
        scan_digits(a + b, a.len() + j) == a.len() + scan_digits(b, j),
    decreases b.len() - j,
{
    if j < b.len() {
        assert((a + b)[a.len() + j] == b[j]);
        lemma_scan_digits_shift(a, b, j + 1);
    }
}

pub proof fn lemma_scan_ident_shift(a: Seq<char>, b: Seq<char>, j: int)
    requires
        0 <= j <= b.len(),
    ensures
        scan_ident(a + b, a.len() + j) == a.len() + scan_ident(b, j),
    decreases b.len() - j,
{
    if j < b.len() {
        assert((a + b)[a.len() + j] == b[j]);
        lemma_scan_ident_shift(a, b, j + 1);
    }
}

pub proof fn lemma_scan_comment_shift(a: Seq<char>, b: Seq<char>, j: int)
    requires
        0 <= j <= b.len(),
    ensures
        scan_comment(a + b, a.len() + j) == a.len() + scan_comment(b, j),
    decreases b.len() - j,
{
    if j < b.len() {
        assert((a + b)[a.len() + j] == b[j]);
        lemma_scan_comment_shift(a, b, j + 1);
    }
}

/// Lexing from inside `a + b`, past `a`, is lexing `b`.
pub proof fn lemma_lex_shift(a: Seq<char>, b: Seq<char>, j: int)
    requires
        0 <= j,
    ensures
        lex_from(a + b, a.len() + j) == lex_from(b, j),
    decreases b.len() - j,
{
    let s = a + b;
    let i = a.len() + j;
    if j < b.len() {
        let c = b[j];
        assert(s[i] == c);
        if is_ws(c) {
            lemma_lex_shift(a, b, j + 1);
        } else if c == '#' {
            lemma_scan_comment_shift(a, b, j + 1);
            let jj = scan_comment(b, j + 1);
            if j < jj <= b.len() {
                lemma_lex_shift(a, b, jj);
            }
        } else if is_digit(c) {
            lemma_scan_digits_shift(a, b, j);
            let e = scan_digits(b, j);
            lemma_scan_digits(b, j);
            assert(s.subrange(i, a.len() + e) =~= b.subrange(j, e));
            if e < b.len() && b[e] == '.' {
                assert(s[a.len() + e] == b[e]);
                lemma_scan_digits_shift(a, b, e + 1);
                let k = scan_digits(b, e + 1);
                lemma_scan_digits(b, e + 1);
                assert(s.subrange(a.len() + e + 1, a.len() + k) =~= b.subrange(e + 1, k));
            } else if e < b.len() {
                assert(s[a.len() + e] == b[e]);
            }
            let (t, jj) = number_at(b, j);
            assert(number_at(s, i) == (t, a.len() + jj));
            if j < jj <= b.len() {
                lemma_lex_shift(a, b, jj);
            }
        } else if is_alpha(c) {
            lemma_scan_ident_shift(a, b, j + 1);
            let jj = scan_ident(b, j + 1);
            lemma_scan_ident(b, j + 1);
            assert(s.subrange(i, a.len() + jj) =~= b.subrange(j, jj));
            if j < jj <= b.len() {
                lemma_lex_shift(a, b, jj);
            }
        } else if is_op_char(c) || c == '(' || c == ')' {
            lemma_lex_shift(a, b, j + 1);
        }
    }
}

/// A run of identifier characters from `i` that ends at `e` scans to `e`.
pub proof fn lemma_scan_ident_exact(s: Seq<char>, i: int, e: int)
    requires
        0 <= i <= e <= s.len(),
        forall|k: int| i <= k < e ==> is_ident_tail(#[trigger] s[k]),
        e == s.len() || !is_ident_tail(s[e]),
    ensures
        scan_ident(s, i) == e,
    decreases e - i,
{
    if i < e {
        lemma_scan_ident_exact(s, i + 1, e);
    }
}

/// A run of digits from `i` that ends at `e` scans to `e`.
pub proof fn lemma_scan_digits_exact(s: Seq<char>, i: int, e: int)
    requires
        0 <= i <= e <= s.len(),
        forall|k: int| i <= k < e ==> is_digit(#[trigger] s[k]),
        e == s.len() || !is_digit(s[e]),
    ensures
        scan_digits(s, i) == e,
    decreases e - i,
{
    if i < e {
        lemma_scan_digits_exact(s, i + 1, e);
    }
}

} // verus!
