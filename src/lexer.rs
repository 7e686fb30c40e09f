//! Tokens of the source language and the lexer that produces them.
use vstd::prelude::*;
use vstd::string::*;

verus! {

/// A token of the source language.
#[derive(Debug, Clone)]
pub enum Token {
    If,
    Else,
    Plus,
    Minus,
    Star,
    Slash,
    LParen,
    RParen,
    Comma,
    Equals,
    Gt,
    Lt,
    EqComp,
    Colon,
    Semicolon,
    Number(i64),
    Ident(String),
    Eof,
}

/// A token as a mathematical value.
pub enum TokenV {
    If,
    Else,
    Plus,
    Minus,
    Star,
    Slash,
    LParen,
    RParen,
    Comma,
    Equals,
    Gt,
    Lt,
    EqComp,
    Colon,
    Semicolon,
    Number(i64),
    Ident(Seq<char>),
    Eof,
}

impl View for Token {
    type V = TokenV;

    open spec fn view(&self) -> TokenV {
        match self {
            Token::If => TokenV::If,
            Token::Else => TokenV::Else,
            Token::Plus => TokenV::Plus,
            Token::Minus => TokenV::Minus,
            Token::Star => TokenV::Star,
            Token::Slash => TokenV::Slash,
            Token::LParen => TokenV::LParen,
            Token::RParen => TokenV::RParen,
            Token::Comma => TokenV::Comma,
            Token::Equals => TokenV::Equals,
            Token::Gt => TokenV::Gt,
            Token::Lt => TokenV::Lt,
            Token::EqComp => TokenV::EqComp,
            Token::Colon => TokenV::Colon,
            Token::Semicolon => TokenV::Semicolon,
            Token::Number(n) => TokenV::Number(*n),
            Token::Ident(s) => TokenV::Ident(s@),
            Token::Eof => TokenV::Eof,
        }
    }
}

pub open spec fn tokens_view(s: Seq<Token>) -> Seq<TokenV> {
    s.map_values(|t: Token| t@)
}

pub open spec fn ident_start(c: char) -> bool {
    ('a' <= c && c <= 'z') || ('A' <= c && c <= 'Z') || c == '_'
}

pub open spec fn is_digit(c: char) -> bool {
    '0' <= c && c <= '9'
}

pub open spec fn ident_continue(c: char) -> bool {
    ident_start(c) || is_digit(c)
}

/// Whether `c` can start an identifier.
pub fn is_ident_start(c: char) -> (r: bool)
    ensures
        r == ident_start(c),
{
    ('a' <= c && c <= 'z') || ('A' <= c && c <= 'Z') || c == '_'
}

/// Whether `c` can continue an identifier.
pub fn is_ident_continue(c: char) -> (r: bool)
    ensures
        r == ident_continue(c),
{
    is_ident_start(c) || ('0' <= c && c <= '9')
}

/// The length of the longest prefix of `s` whose characters all satisfy the
/// class: digits where `digits`, identifier characters otherwise.
pub open spec fn run_len(s: Seq<char>, digits: bool) -> nat
    decreases s.len(),
{
    if s.len() > 0 && (if digits {
        is_digit(s[0])
    } else {
        ident_continue(s[0])
    }) {
        1 + run_len(s.subrange(1, s.len() as int), digits)
    } else {
        0
    }
}

/// The length of a comment: everything up to, not including, the next line
/// break.
pub open spec fn comment_len(s: Seq<char>) -> nat
    decreases s.len(),
{
    if s.len() > 0 && s[0] != '\n' {
        1 + comment_len(s.subrange(1, s.len() as int))
    } else {
        0
    }
}

/// The value of a run of decimal digits, wrapping into 64 bits.
pub open spec fn digits_value(ds: Seq<char>) -> i64
    decreases ds.len(),
{
    if ds.len() == 0 {
        0
    } else {
        digits_value(ds.drop_last()).wrapping_mul(10).wrapping_add((ds.last() as u32 - '0' as u32) as i64)
    }
}

/// The token for a single punctuation character, if it is one.
pub open spec fn punct(c: char) -> Option<TokenV> {
    if c == ';' {
        Some(TokenV::Semicolon)
    } else if c == ':' {
        Some(TokenV::Colon)
    } else if c == '>' {
        Some(TokenV::Gt)
    } else if c == '<' {
        Some(TokenV::Lt)
    } else if c == '+' {
        Some(TokenV::Plus)
    } else if c == '-' {
        Some(TokenV::Minus)
    } else if c == '*' {
        Some(TokenV::Star)
    } else if c == '/' {
        Some(TokenV::Slash)
    } else if c == '(' {
        Some(TokenV::LParen)
    } else if c == ')' {
        Some(TokenV::RParen)
    } else if c == ',' {
        Some(TokenV::Comma)
    } else {
        None
    }
}

pub open spec fn word_token(w: Seq<char>) -> TokenV {
    if w == seq!['i', 'f'] {
        TokenV::If
    } else if w == seq!['e', 'l', 's', 'e'] {
        TokenV::Else
    } else {
        TokenV::Ident(w)
    }
}

/// One step of the lexer on the rest of the input: the tokens it produces
/// and how many characters it consumes (at least one). Blanks and comments
/// produce nothing; `==` is one token; digits and identifiers are taken as
/// long as they go; any other character is skipped.
pub open spec fn lex_step(s: Seq<char>) -> (Seq<TokenV>, nat)
    recommends
        s.len() > 0,
{
    let c = s[0];
    if c == ' ' || c == '\t' || c == '\n' || c == '\r' {
        (seq![], 1)
    } else if c == '#' {
        (seq![], comment_len(s))
    } else if c == '=' {
        if s.len() > 1 && s[1] == '=' {
            (seq![TokenV::EqComp], 2)
        } else {
            (seq![TokenV::Equals], 1)
        }
    } else if punct(c) is Some {
        (seq![punct(c)->Some_0], 1)
    } else if is_digit(c) {
        let k = run_len(s, true);
        (seq![TokenV::Number(digits_value(s.subrange(0, k as int)))], k)
    } else if ident_start(c) {
        let k = run_len(s, false);
        (seq![word_token(s.subrange(0, k as int))], k)
    } else {
        (seq![], 1)
    }
}

pub proof fn lemma_run_len(s: Seq<char>, digits: bool)
    ensures
        run_len(s, digits) <= s.len(),
        forall|i: int|
            0 <= i < run_len(s, digits) ==> (if digits {
                is_digit(#[trigger] s[i])
            } else {
                ident_continue(s[i])
            }),
        run_len(s, digits) < s.len() ==> !(if digits {
            is_digit(s[run_len(s, digits) as int])
        } else {
            ident_continue(s[run_len(s, digits) as int])
        }),
    decreases s.len(),
{
    if s.len() > 0 && (if digits {
        is_digit(s[0])
    } else {
        ident_continue(s[0])
    }) {
        let t = s.subrange(1, s.len() as int);
        lemma_run_len(t, digits);
        assert forall|i: int| 0 < i < run_len(s, digits) implies (if digits {
            is_digit(#[trigger] s[i])
        } else {
            ident_continue(s[i])
        }) by {
            assert(s[i] == t[i - 1]);
        }
        if run_len(s, digits) < s.len() {
            assert(s[run_len(s, digits) as int] == t[run_len(t, digits) as int]);
        }
    }
}

pub proof fn lemma_comment_len(s: Seq<char>)
    ensures
        comment_len(s) <= s.len(),
        forall|i: int| 0 <= i < comment_len(s) ==> #[trigger] s[i] != '\n',
        comment_len(s) < s.len() ==> s[comment_len(s) as int] == '\n',
    decreases s.len(),
{
    if s.len() > 0 && s[0] != '\n' {
        let t = s.subrange(1, s.len() as int);
        lemma_comment_len(t);
        assert forall|i: int| 0 < i < comment_len(s) implies #[trigger] s[i] != '\n' by {
            assert(s[i] == t[i - 1]);
        }
        if comment_len(s) < s.len() {
            assert(s[comment_len(s) as int] == t[comment_len(t) as int]);
        }
    }
}

/// The tokens of the rest of the input.
pub open spec fn lex_from(s: Seq<char>) -> Seq<TokenV>
    decreases s.len(),
{
    if s.len() == 0 {
        seq![]
    } else {
        let (toks, k) = lex_step(s);
        if 0 < k <= s.len() {
            toks + lex_from(s.subrange(k as int, s.len() as int))
        } else {
            toks
        }
    }
}

/// The tokens of a whole input: those of `lex_from`, then `Eof`.
pub open spec fn lex_spec(s: Seq<char>) -> Seq<TokenV> {
    lex_from(s).push(TokenV::Eof)
}

fn in_class(c: char, digits: bool) -> (r: bool)
    ensures
        r == (if digits {
            is_digit(c)
        } else {
            ident_continue(c)
        }),
{
    if digits {
        '0' <= c && c <= '9'
    } else {
        is_ident_continue(c)
    }
}

/// The end of a run starting at `i`.
fn scan_run(chars: &Vec<char>, i: usize, digits: bool) -> (j: usize)
    requires
        i <= chars@.len(),
    ensures
        j == i + run_len(chars@.subrange(i as int, chars@.len() as int), digits),
{
    let ghost s = chars@.subrange(i as int, chars@.len() as int);
    proof {
        lemma_run_len(s, digits);
    }
    let mut j: usize = i;
    while j < chars.len() && in_class(chars[j], digits)
        invariant
            i <= j <= i + run_len(s, digits),
            s == chars@.subrange(i as int, chars@.len() as int),
            run_len(s, digits) <= s.len(),
            forall|k: int|
                0 <= k < run_len(s, digits) ==> (if digits {
                    is_digit(#[trigger] s[k])
                } else {
                    ident_continue(s[k])
                }),
            run_len(s, digits) < s.len() ==> !(if digits {
                is_digit(s[run_len(s, digits) as int])
            } else {
                ident_continue(s[run_len(s, digits) as int])
            }),
        decreases chars@.len() - j,
    {
        proof {
            if j == i + run_len(s, digits) {
                assert(s[j - i] == chars@[j as int]);
            }
        }
        j = j + 1;
    }
    proof {
        if j < i + run_len(s, digits) {
            assert(s[j - i] == chars@[j as int]);
        }
    }
    j
}

fn scan_comment(chars: &Vec<char>, i: usize) -> (j: usize)
    requires
        i <= chars@.len(),
    ensures
        j == i + comment_len(chars@.subrange(i as int, chars@.len() as int)),
{
    let ghost s = chars@.subrange(i as int, chars@.len() as int);
    proof {
        lemma_comment_len(s);
    }
    let mut j: usize = i;
    while j < chars.len() && chars[j] != '\n'
        invariant
            i <= j <= i + comment_len(s),
            s == chars@.subrange(i as int, chars@.len() as int),
            comment_len(s) <= s.len(),
            forall|k: int| 0 <= k < comment_len(s) ==> #[trigger] s[k] != '\n',
            comment_len(s) < s.len() ==> s[comment_len(s) as int] == '\n',
        decreases chars@.len() - j,
    {
        proof {
            if j == i + comment_len(s) {
                assert(s[j - i] == chars@[j as int]);
            }
        }
        j = j + 1;
    }
    proof {
        if j < i + comment_len(s) {
            assert(s[j - i] == chars@[j as int]);
        }
    }
    j
}


/// The value of the digits in `[i, j)`.
fn scan_number(chars: &Vec<char>, i: usize, j: usize) -> (v: i64)
    requires
        i <= j <= chars@.len(),
        forall|k: int| i <= k < j ==> is_digit(#[trigger] chars@[k]),
    ensures
        v == digits_value(chars@.subrange(i as int, j as int)),
{
    let mut v: i64 = 0;
    let mut m: usize = i;
    proof {
        assert(chars@.subrange(i as int, i as int) =~= Seq::<char>::empty());
    }
    while m < j
        invariant
            i <= m <= j,
            j <= chars@.len(),
            forall|k: int| i <= k < j ==> is_digit(#[trigger] chars@[k]),
            v == digits_value(chars@.subrange(i as int, m as int)),
        decreases j - m,
    {
        let c = chars[m];
        proof {
            let t = chars@.subrange(i as int, m + 1);
            assert(t.drop_last() =~= chars@.subrange(i as int, m as int));
            assert(t.last() == c);
            assert(is_digit(chars@[m as int]));
        }
        v = v.wrapping_mul(10).wrapping_add((c as u32 - '0' as u32) as i64);
        m = m + 1;
    }
    v
}

/// The token for one punctuation character.
fn punct_token(c: char) -> (r: Option<Token>)
    ensures
        match punct(c) {
            Some(t) => r matches Some(x) && x@ == t,
            None => r is None,
        },
{
    if c == ';' {
        Some(Token::Semicolon)
    } else if c == ':' {
        Some(Token::Colon)
    } else if c == '>' {
        Some(Token::Gt)
    } else if c == '<' {
        Some(Token::Lt)
    } else if c == '+' {
        Some(Token::Plus)
    } else if c == '-' {
        Some(Token::Minus)
    } else if c == '*' {
        Some(Token::Star)
    } else if c == '/' {
        Some(Token::Slash)
    } else if c == '(' {
        Some(Token::LParen)
    } else if c == ')' {
        Some(Token::RParen)
    } else if c == ',' {
        Some(Token::Comma)
    } else {
        None
    }
}

/// The token for a word: a keyword or an identifier.
fn word(w: String) -> (r: Token)
    ensures
        r@ == word_token(w@),
{
    proof {
        reveal_strlit("if");
        reveal_strlit("else");
        assert("if"@ =~= seq!['i', 'f']);
        assert("else"@ =~= seq!['e', 'l', 's', 'e']);
    }
    if w == String::from_str("if") {
        Token::If
    } else if w == String::from_str("else") {
        Token::Else
    } else {
        Token::Ident(w)
    }
}

fn push_token(out: &mut Vec<Token>, t: Token)
    ensures
        tokens_view(final(out)@) == tokens_view(old(out)@) + seq![t@],
{
    out.push(t);
    proof {
        assert(tokens_view(out@) =~= tokens_view(old(out)@) + seq![t@]);
    }
}

/// Splits source text into tokens, ending with `Eof`.
pub fn lex(input: &str) -> (r: Vec<Token>)
    ensures
        tokens_view(r@) == lex_spec(input@),
{
    let n = input.unicode_len();
    let mut chars: Vec<char> = Vec::new();
    let mut i: usize = 0;
    while i < n
        invariant
            i <= n,
            n == input@.len(),
            chars@ == input@.subrange(0, i as int),
        decreases n - i,
    {
        chars.push(input.get_char(i));
        i = i + 1;
        proof {
            assert(chars@ =~= input@.subrange(0, i as int));
        }
    }
    proof {
        assert(chars@ =~= input@);
    }
    let mut out: Vec<Token> = Vec::new();
    let mut i: usize = 0;
    proof {
        assert(input@.subrange(0, n as int) =~= input@);
        assert(tokens_view(out@) + lex_from(input@) =~= lex_from(input@));
    }
    while i < n
        invariant
            i <= n,
            n == input@.len(),
            chars@ == input@,
            lex_from(input@) == tokens_view(out@) + lex_from(input@.subrange(i as int, n as int)),
        decreases n - i,
    {
        let ghost s = input@.subrange(i as int, n as int);
        let ghost before = tokens_view(out@);
        let c = chars[i];
        proof {
            assert(s[0] == c);
            lemma_run_len(s, true);
            lemma_run_len(s, false);
            lemma_comment_len(s);
        }
        let next: usize;
        if c == ' ' || c == '\t' || c == '\n' || c == '\r' {
            next = i + 1;
        } else if c == '#' {
            next = scan_comment(&chars, i);
        } else if c == '=' {
            if i + 1 < n && chars[i + 1] == '=' {
                proof {
                    assert(s[1] == chars@[i + 1]);
                }
                push_token(&mut out, Token::EqComp);
                next = i + 2;
            } else {
                proof {
                    if s.len() > 1 {
                        assert(s[1] == chars@[i + 1]);
                    }
                }
                push_token(&mut out, Token::Equals);
                next = i + 1;
            }
        } else if let Some(t) = punct_token(c) {
            push_token(&mut out, t);
            next = i + 1;
        } else if '0' <= c && c <= '9' {
            let j = scan_run(&chars, i, true);
            proof {
                assert forall|k: int| i <= k < j implies is_digit(#[trigger] chars@[k]) by {
                    assert(chars@[k] == s[k - i]);
                }
                assert(chars@.subrange(i as int, j as int) =~= s.subrange(0, j - i));
            }
            let v = scan_number(&chars, i, j);
            push_token(&mut out, Token::Number(v));
            next = j;
        } else if is_ident_start(c) {
            let j = scan_run(&chars, i, false);
            let w = String::from_str(input.substring_char(i, j));
            proof {
                assert(w@ =~= s.subrange(0, j - i));
            }
            push_token(&mut out, word(w));
            next = j;
        } else {
            next = i + 1;
        }
        proof {
            let (toks, k) = lex_step(s);
            assert(next == i + k);
            assert(0 < k <= s.len());
            assert(tokens_view(out@) == before + toks);
            assert(s.subrange(k as int, s.len() as int) =~= input@.subrange(next as int, n as int));
            assert(before + toks + lex_from(input@.subrange(next as int, n as int)) =~= before + (toks
                + lex_from(input@.subrange(next as int, n as int))));
        }
        i = next;
    }
    proof {
        assert(input@.subrange(n as int, n as int) =~= Seq::<char>::empty());
        assert(tokens_view(out@) + Seq::<TokenV>::empty() =~= tokens_view(out@));
    }
    push_token(&mut out, Token::Eof);
    proof {
        assert(tokens_view(out@) =~= lex_spec(input@));
    }
    out
}

} // verus!
