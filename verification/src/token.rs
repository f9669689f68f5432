//! Lexical analysis: turns raw source text into a stream of tokens.
//!
//! Tokens are the words that make up program source code. The tokenizer skips
//! horizontal whitespace (spaces and tabs) between tokens, but a line break is
//! itself a token, because the grammar uses it as a statement terminator.
//!
//! At each position the rules are tried in priority order: integer literal,
//! boolean literal, keyword-or-identifier, punctuation. Among punctuation,
//! `==` is matched before `=`, so `==` is never read as two assignment tokens.

use vstd::pervasive::unreached;
use vstd::prelude::*;

verus! {

/// The mathematical value of a [`Token`]: identifier names are character
/// sequences.
pub enum SpecToken {
    Identifier(Seq<char>),
    Int(i32),
    Bool(bool),
    Let,
    If,
    Print,
    Assign,
    LParen,
    RParen,
    LCurly,
    RCurly,
    GT,
    Eq,
    Plus,
    Newline,
}

/// One lexical unit: an identifier, a literal, a keyword, punctuation, or a
/// line break.
#[derive(PartialEq, Eq, Clone, Debug, Hash)]
pub enum Token {
    Identifier(String),
    Int(i32),
    Bool(bool),
    // Keywords
    Let,
    If,
    Print,
    // Punctuation
    Assign,
    LParen,
    RParen,
    LCurly,
    RCurly,
    GT,
    Eq,
    Plus,
    Newline,
}

impl View for Token {
    type V = SpecToken;

    open spec fn view(&self) -> SpecToken {
        match self {
            Token::Identifier(s) => SpecToken::Identifier(s@),
            Token::Int(i) => SpecToken::Int(*i),
            Token::Bool(b) => SpecToken::Bool(*b),
            Token::Let => SpecToken::Let,
            Token::If => SpecToken::If,
            Token::Print => SpecToken::Print,
            Token::Assign => SpecToken::Assign,
            Token::LParen => SpecToken::LParen,
            Token::RParen => SpecToken::RParen,
            Token::LCurly => SpecToken::LCurly,
            Token::RCurly => SpecToken::RCurly,
            Token::GT => SpecToken::GT,
            Token::Eq => SpecToken::Eq,
            Token::Plus => SpecToken::Plus,
            Token::Newline => SpecToken::Newline,
        }
    }
}

/// The views of a token sequence, in order.
pub open spec fn tokens_view(ts: Seq<Token>) -> Seq<SpecToken> {
    ts.map_values(|t: Token| t@)
}

impl Token {
    /// The payload of an integer token.
    pub fn int_value(&self) -> (r: i32)
        requires
            self is Int,
        ensures
            self@ == SpecToken::Int(r),
    {
        if let Token::Int(x) = self {
            *x
        } else {
            unreached()
        }
    }

    /// The payload of an identifier token.
    pub fn identifier(&self) -> (r: String)
        requires
            self is Identifier,
        ensures
            self@ == SpecToken::Identifier(r@),
    {
        if let Token::Identifier(s) = self {
            s.clone()
        } else {
            unreached()
        }
    }

    /// The payload of a boolean token.
    pub fn bool(&self) -> (r: bool)
        requires
            self is Bool,
        ensures
            self@ == SpecToken::Bool(r),
    {
        if let Token::Bool(b) = self {
            *b
        } else {
            unreached()
        }
    }
}

/// A lexical failure: the input was not consumed to its end. `pos` is where
/// the last complete token (with its trailing spaces) ended; at the first
/// non-space position from there on, no token rule matches.
#[derive(Clone, Copy, PartialEq, Eq, Structural, Debug)]
pub struct LexError {
    pub pos: usize,
}

// ---------------------------------------------------------------------------
// Character classes
// ---------------------------------------------------------------------------
pub open spec fn is_space_char(c: char) -> bool {
    c == ' ' || c == '\t'
}

pub open spec fn is_digit_char(c: char) -> bool {
    48 <= c as u32 && c as u32 <= 57
}

pub open spec fn is_onenine_char(c: char) -> bool {
    49 <= c as u32 && c as u32 <= 57
}

pub open spec fn is_alpha_char(c: char) -> bool {
    (65 <= c as u32 && c as u32 <= 90) || (97 <= c as u32 && c as u32 <= 122)
}

pub open spec fn is_alnum_char(c: char) -> bool {
    is_alpha_char(c) || is_digit_char(c)
}

/// The numeric value of a digit character.
pub open spec fn digit_val(c: char) -> int {
    c as u32 - 48
}

// ---------------------------------------------------------------------------
// The token rules as mathematical functions
// ---------------------------------------------------------------------------
/// The first position at or after `i` that does not hold a space or tab.
pub open spec fn skip_spaces(s: Seq<char>, i: int) -> int
    decreases s.len() - i,
{
    if 0 <= i && i < s.len() && is_space_char(s[i]) {
        skip_spaces(s, i + 1)
    } else {
        i
    }
}

/// The first position at or after `i` that does not hold a digit.
pub open spec fn digits_end(s: Seq<char>, i: int) -> int
    decreases s.len() - i,
{
    if 0 <= i && i < s.len() && is_digit_char(s[i]) {
        digits_end(s, i + 1)
    } else {
        i
    }
}

/// The first position at or after `i` that does not hold a letter or digit.
pub open spec fn alnum_end(s: Seq<char>, i: int) -> int
    decreases s.len() - i,
{
    if 0 <= i && i < s.len() && is_alnum_char(s[i]) {
        alnum_end(s, i + 1)
    } else {
        i
    }
}

/// The decimal value of the digit run `s[i..j]`.
pub open spec fn digits_val(s: Seq<char>, i: int, j: int) -> int
    decreases j - i,
{
    if j <= i {
        0
    } else {
        digits_val(s, i, j - 1) * 10 + digit_val(s[j - 1])
    }
}

/// `s` holds the word `w` starting at position `i`.
pub open spec fn starts_with_at(s: Seq<char>, i: int, w: Seq<char>) -> bool {
    &&& 0 <= i
    &&& i + w.len() <= s.len()
    &&& forall|m: int| 0 <= m < w.len() ==> s[i + m] == w[m]
}

pub open spec fn word_let() -> Seq<char> {
    seq!['l', 'e', 't']
}

pub open spec fn word_if() -> Seq<char> {
    seq!['i', 'f']
}

pub open spec fn word_print() -> Seq<char> {
    seq!['p', 'r', 'i', 'n', 't']
}

pub open spec fn word_true() -> Seq<char> {
    seq!['t', 'r', 'u', 'e']
}

pub open spec fn word_false() -> Seq<char> {
    seq!['f', 'a', 'l', 's', 'e']
}

/// Integer literal rule: a lone `0`, or a nonzero-leading digit run whose
/// value fits in a signed 32-bit integer.
pub open spec fn try_int(s: Seq<char>, i: int) -> Option<(SpecToken, int)> {
    if 0 <= i && i < s.len() && s[i] == '0' {
        Some((SpecToken::Int(0), i + 1))
    } else if 0 <= i && i < s.len() && is_onenine_char(s[i]) {
        let j = digits_end(s, i);
        let v = digits_val(s, i, j);
        if i < j && j <= s.len() && 0 <= v && v <= 0x7fff_ffff {
            Some((SpecToken::Int(v as i32), j))
        } else {
            None
        }
    } else {
        None
    }
}

/// Boolean literal rule: the word `true` or `false` as a prefix of the rest
/// of the input.
pub open spec fn try_bool(s: Seq<char>, i: int) -> Option<(SpecToken, int)> {
    if starts_with_at(s, i, word_true()) {
        Some((SpecToken::Bool(true), i + 4))
    } else if starts_with_at(s, i, word_false()) {
        Some((SpecToken::Bool(false), i + 5))
    } else {
        None
    }
}

/// The token a completed word stands for: a keyword token if the word exactly
/// matches a reserved keyword, an identifier token otherwise.
pub open spec fn word_token(w: Seq<char>) -> SpecToken {
    if w == word_let() {
        SpecToken::Let
    } else if w == word_if() {
        SpecToken::If
    } else if w == word_print() {
        SpecToken::Print
    } else {
        SpecToken::Identifier(w)
    }
}

/// Keyword-or-identifier rule: an alphabetic character followed by zero or
/// more alphanumeric characters.
pub open spec fn try_word(s: Seq<char>, i: int) -> Option<(SpecToken, int)> {
    if 0 <= i && i < s.len() && is_alpha_char(s[i]) {
        let j = alnum_end(s, i);
        if i < j && j <= s.len() {
            Some((word_token(s.subrange(i, j)), j))
        } else {
            None
        }
    } else {
        None
    }
}

/// Punctuation rule, longest match first: `==` before `=`; a line break is
/// either a bare `\n` or `\r\n`.
pub open spec fn try_punct(s: Seq<char>, i: int) -> Option<(SpecToken, int)> {
    if starts_with_at(s, i, seq!['=', '=']) {
        Some((SpecToken::Eq, i + 2))
    } else if 0 <= i && i < s.len() && s[i] == '=' {
        Some((SpecToken::Assign, i + 1))
    } else if 0 <= i && i < s.len() && s[i] == '(' {
        Some((SpecToken::LParen, i + 1))
    } else if 0 <= i && i < s.len() && s[i] == ')' {
        Some((SpecToken::RParen, i + 1))
    } else if 0 <= i && i < s.len() && s[i] == '{' {
        Some((SpecToken::LCurly, i + 1))
    } else if 0 <= i && i < s.len() && s[i] == '}' {
        Some((SpecToken::RCurly, i + 1))
    } else if 0 <= i && i < s.len() && s[i] == '>' {
        Some((SpecToken::GT, i + 1))
    } else if 0 <= i && i < s.len() && s[i] == '+' {
        Some((SpecToken::Plus, i + 1))
    } else if 0 <= i && i < s.len() && s[i] == '\n' {
        Some((SpecToken::Newline, i + 1))
    } else if starts_with_at(s, i, seq!['\r', '\n']) {
        Some((SpecToken::Newline, i + 2))
    } else {
        None
    }
}

/// The next token at position `i`, by the priority order of the rules.
pub open spec fn spec_next_token(s: Seq<char>, i: int) -> Option<(SpecToken, int)> {
    match try_int(s, i) {
        Some(r) => Some(r),
        None => match try_bool(s, i) {
            Some(r) => Some(r),
            None => match try_word(s, i) {
                Some(r) => Some(r),
                None => try_punct(s, i),
            },
        },
    }
}

/// The complete tokenization of `s` from position `i` on, or the position of
/// the first failure. Spaces and tabs are skipped around each token; a failed
/// match does not consume the spaces before it, so the failure position is
/// where the last complete token ended.
pub open spec fn spec_tokenize_from(s: Seq<char>, i: int) -> Result<Seq<SpecToken>, int>
    decreases s.len() - i,
{
    let j = skip_spaces(s, i);
    match spec_next_token(s, j) {
        Some((t, k)) => {
            let k2 = skip_spaces(s, k);
            if i <= j && j < k && k <= k2 && k2 <= s.len() {
                match spec_tokenize_from(s, k2) {
                    Ok(ts) => Ok(seq![t] + ts),
                    Err(p) => Err(p),
                }
            } else {
                Err(i)
            }
        },
        None => if i == s.len() {
            Ok(Seq::empty())
        } else {
            Err(i)
        },
    }
}

/// The complete tokenization of a source text, or the position of the first
/// lexical failure.
pub open spec fn spec_tokenize(s: Seq<char>) -> Result<Seq<SpecToken>, int> {
    spec_tokenize_from(s, 0)
}

// ---------------------------------------------------------------------------
// Executable lexer
// ---------------------------------------------------------------------------
/// Relies on `str::chars`: yields exactly the characters of the string, in
/// order (specified by vstd).
fn chars_of(input: &str) -> (v: Vec<char>)
    ensures
        v@ == input@,
{
    let mut v: Vec<char> = Vec::new();
    for c in it: input.chars()
        invariant
            it.seq() == input@,
            v@ == it.seq().subrange(0, it.index() as int),
    {
        v.push(c);
    }
    assert(v@ =~= input@);
    v
}

/// Relies on `String`'s `FromIterator` implementation: collecting characters
/// yields the string of exactly those characters, in order.
#[verifier::external_body]
pub(crate) fn string_from_chars(v: &Vec<char>) -> (s: String)
    ensures
        s@ == v@,
{
    v.iter().collect()
}

fn skip_spaces_exec(s: &Vec<char>, i: usize) -> (r: usize)
    requires
        i <= s.len(),
    ensures
        r as int == skip_spaces(s@, i as int),
        i <= r <= s.len(),
{
    let mut k: usize = i;
    while k < s.len() && (s[k] == ' ' || s[k] == '\t')
        invariant
            i <= k <= s.len(),
            skip_spaces(s@, i as int) == skip_spaces(s@, k as int),
        decreases s.len() - k,
    {
        proof {
            assert(skip_spaces(s@, k as int) == skip_spaces(s@, k + 1));
        }
        k = k + 1;
    }
    k
}

/// Scans the digit run starting at `i`; reports its end, its value, and
/// whether the value exceeds the signed 32-bit range.
fn scan_digits(s: &Vec<char>, i: usize) -> (r: (usize, u64, bool))
    requires
        i <= s.len(),
    ensures
        r.0 as int == digits_end(s@, i as int),
        i <= r.0 <= s.len(),
        i < s.len() && is_digit_char(s@[i as int]) ==> i < r.0,
        !r.2 ==> r.1 as int == digits_val(s@, i as int, r.0 as int) && r.1 <= 0x7fff_ffff,
        r.2 ==> digits_val(s@, i as int, r.0 as int) > 0x7fff_ffff,
{
    let mut k: usize = i;
    let mut acc: u64 = 0;
    let mut over: bool = false;
    while k < s.len() && 48 <= (s[k] as u32) && (s[k] as u32) <= 57
        invariant
            i <= k <= s.len(),
            digits_end(s@, i as int) == digits_end(s@, k as int),
            !over ==> acc as int == digits_val(s@, i as int, k as int) && acc <= 0x7fff_ffff,
            over ==> digits_val(s@, i as int, k as int) > 0x7fff_ffff,
        decreases s.len() - k,
    {
        let d: u64 = (s[k] as u32 - 48) as u64;
        proof {
            assert(digits_end(s@, k as int) == digits_end(s@, k + 1));
            assert(digits_val(s@, i as int, k + 1) == digits_val(s@, i as int, k as int) * 10
                + digit_val(s@[k as int]));
        }
        if over {
            proof {
                assert(digits_val(s@, i as int, k as int) * 10 >= digits_val(
                    s@,
                    i as int,
                    k as int,
                ));
            }
        } else {
            let next: u64 = acc * 10 + d;
            if next > 0x7fff_ffff {
                over = true;
            } else {
                acc = next;
            }
        }
        k = k + 1;
    }
    (k, acc, over)
}

/// If the current character cannot start `true` or `false`, the boolean rule
/// fails.
pub(crate) proof fn lemma_not_bool(s: Seq<char>, i: int)
    requires
        0 <= i < s.len(),
        s[i] != 't',
        s[i] != 'f',
    ensures
        try_bool(s, i) is None,
{
    if starts_with_at(s, i, word_true()) {
        assert(s[i + 0] == word_true()[0]);
    }
    if starts_with_at(s, i, word_false()) {
        assert(s[i + 0] == word_false()[0]);
    }
}

/// The next token of `s` at position `i`, by the priority order of the
/// rules, or nothing if no rule matches there.
fn next_token(s: &Vec<char>, i: usize) -> (r: Option<(Token, usize)>)
    requires
        i <= s.len(),
    ensures
        match r {
            Some((t, k)) => spec_next_token(s@, i as int) == Some((t@, k as int)) && i < k
                && k <= s.len(),
            None => spec_next_token(s@, i as int) is None,
        },
{
    if i >= s.len() {
        return None;
    }
    let c = s[i];
    let cu = c as u32;
    // Integer literal
    if c == '0' {
        return Some((Token::Int(0), i + 1));
    }
    if 49 <= cu && cu <= 57 {
        let (end, v, over) = scan_digits(s, i);
        if over {
            proof {
                lemma_not_bool(s@, i as int);
            }
            return None;
        } else {
            return Some((Token::Int(v as i32), end));
        }
    }
    // Boolean literal
    if s.len() - i >= 4 && c == 't' && s[i + 1] == 'r' && s[i + 2] == 'u' && s[i + 3] == 'e' {
        proof {
            assert(starts_with_at(s@, i as int, word_true()));
        }
        return Some((Token::Bool(true), i + 4));
    }
    if s.len() - i >= 5 && c == 'f' && s[i + 1] == 'a' && s[i + 2] == 'l' && s[i + 3] == 's' && s[i
        + 4] == 'e' {
        proof {
            if starts_with_at(s@, i as int, word_true()) {
                assert(s@[i + 0] == word_true()[0]);
                assert(s@[i + 1] == word_true()[1]);
                assert(s@[i + 2] == word_true()[2]);
                assert(s@[i + 3] == word_true()[3]);
            }
            assert(starts_with_at(s@, i as int, word_false()));
        }
        return Some((Token::Bool(false), i + 5));
    }
    proof {
        if starts_with_at(s@, i as int, word_true()) {
            assert(s@[i + 0] == word_true()[0]);
            assert(s@[i + 1] == word_true()[1]);
            assert(s@[i + 2] == word_true()[2]);
            assert(s@[i + 3] == word_true()[3]);
        }
        if starts_with_at(s@, i as int, word_false()) {
            assert(s@[i + 0] == word_false()[0]);
            assert(s@[i + 1] == word_false()[1]);
            assert(s@[i + 2] == word_false()[2]);
            assert(s@[i + 3] == word_false()[3]);
            assert(s@[i + 4] == word_false()[4]);
        }
    }
    // Keyword or identifier
    if (65 <= cu && cu <= 90) || (97 <= cu && cu <= 122) {
        let mut j: usize = i + 1;
        while j < s.len() && ((65 <= (s[j] as u32) && (s[j] as u32) <= 90) || (97 <= (s[j] as u32)
            && (s[j] as u32) <= 122) || (48 <= (s[j] as u32) && (s[j] as u32) <= 57))
            invariant
                i < j <= s.len(),
                alnum_end(s@, i as int) == alnum_end(s@, j as int),
            decreases s.len() - j,
        {
            proof {
                assert(alnum_end(s@, j as int) == alnum_end(s@, j + 1));
            }
            j = j + 1;
        }
        proof {
            assert(alnum_end(s@, i as int) == alnum_end(s@, i + 1));
        }
        let mut word: Vec<char> = Vec::new();
        let mut k: usize = i;
        while k < j
            invariant
                i <= k <= j <= s.len(),
                word@ == s@.subrange(i as int, k as int),
            decreases j - k,
        {
            word.push(s[k]);
            proof {
                assert(word@ =~= s@.subrange(i as int, k + 1));
            }
            k = k + 1;
        }
        let ghost w = s@.subrange(i as int, j as int);
        if word.len() == 3 && word[0] == 'l' && word[1] == 'e' && word[2] == 't' {
            proof {
                assert(w =~= word_let());
            }
            return Some((Token::Let, j));
        }
        if word.len() == 2 && word[0] == 'i' && word[1] == 'f' {
            proof {
                assert(w =~= word_if());
            }
            return Some((Token::If, j));
        }
        if word.len() == 5 && word[0] == 'p' && word[1] == 'r' && word[2] == 'i' && word[3] == 'n'
            && word[4] == 't' {
            proof {
                assert(w =~= word_print());
            }
            return Some((Token::Print, j));
        }
        let name = string_from_chars(&word);
        proof {
            if w == word_let() {
                assert(word@[0] == word_let()[0]);
            }
            if w == word_if() {
                assert(word@[0] == word_if()[0]);
                assert(word@[1] == word_if()[1]);
            }
            if w == word_print() {
                assert(word@[0] == word_print()[0]);
                assert(word@[1] == word_print()[1]);
                assert(word@[2] == word_print()[2]);
                assert(word@[3] == word_print()[3]);
                assert(word@[4] == word_print()[4]);
            }
        }
        return Some((Token::Identifier(name), j));
    }
    // Punctuation
    proof {
        lemma_not_bool(s@, i as int);
    }
    if c == '=' {
        if s.len() - i >= 2 && s[i + 1] == '=' {
            proof {
                assert(starts_with_at(s@, i as int, seq!['=', '=']));
            }
            return Some((Token::Eq, i + 2));
        }
        proof {
            if starts_with_at(s@, i as int, seq!['=', '=']) {
                assert(s@[i + 1] == seq!['=', '='][1]);
            }
        }
        return Some((Token::Assign, i + 1));
    }
    proof {
        if starts_with_at(s@, i as int, seq!['=', '=']) {
            assert(s@[i + 0] == seq!['=', '='][0]);
        }
    }
    if c == '(' {
        return Some((Token::LParen, i + 1));
    }
    if c == ')' {
        return Some((Token::RParen, i + 1));
    }
    if c == '{' {
        return Some((Token::LCurly, i + 1));
    }
    if c == '}' {
        return Some((Token::RCurly, i + 1));
    }
    if c == '>' {
        return Some((Token::GT, i + 1));
    }
    if c == '+' {
        return Some((Token::Plus, i + 1));
    }
    if c == '\n' {
        return Some((Token::Newline, i + 1));
    }
    if c == '\r' && s.len() - i >= 2 && s[i + 1] == '\n' {
        proof {
            assert(starts_with_at(s@, i as int, seq!['\r', '\n']));
        }
        return Some((Token::Newline, i + 2));
    }
    proof {
        if starts_with_at(s@, i as int, seq!['\r', '\n']) {
            assert(s@[i + 0] == seq!['\r', '\n'][0]);
            assert(s@[i + 1] == seq!['\r', '\n'][1]);
        }
    }
    None
}

/// Prepending already-lexed tokens to the outcome of lexing the rest.
pub open spec fn lex_compose(
    pre: Seq<SpecToken>,
    rest: Result<Seq<SpecToken>, int>,
) -> Result<Seq<SpecToken>, int> {
    match rest {
        Ok(ts) => Ok(pre + ts),
        Err(p) => Err(p),
    }
}

proof fn lemma_lex_compose_assoc(a: Seq<SpecToken>, b: Seq<SpecToken>, rest: Result<
    Seq<SpecToken>,
    int,
>)
    ensures
        lex_compose(a, lex_compose(b, rest)) == lex_compose(a + b, rest),
{
    match rest {
        Ok(ts) => {
            assert(a + (b + ts) =~= (a + b) + ts);
        },
        Err(_) => {},
    }
}

/// Converts source text into the complete token sequence, or reports the
/// position of the first lexical failure. The whole input must be consumed:
/// any position matching no token rule aborts the entire pass.
pub fn token_stream(input: &str) -> (r: Result<Vec<Token>, LexError>)
    ensures
        match r {
            Ok(toks) => spec_tokenize(input@) == Ok::<Seq<SpecToken>, int>(tokens_view(toks@)),
            Err(e) => spec_tokenize(input@) == Err::<Seq<SpecToken>, int>(e.pos as int),
        },
{
    let s = chars_of(input);
    let mut toks: Vec<Token> = Vec::new();
    let mut i: usize = 0;
    loop
        invariant
            i <= s.len(),
            s@ == input@,
            spec_tokenize(input@) == lex_compose(
                tokens_view(toks@),
                spec_tokenize_from(s@, i as int),
            ),
        decreases s.len() - i,
    {
        let j = skip_spaces_exec(&s, i);
        match next_token(&s, j) {
            Some((t, k)) => {
                let k2 = skip_spaces_exec(&s, k);
                proof {
                    assert(spec_tokenize_from(s@, i as int) == lex_compose(
                        seq![t@],
                        spec_tokenize_from(s@, k2 as int),
                    ));
                    lemma_lex_compose_assoc(
                        tokens_view(toks@),
                        seq![t@],
                        spec_tokenize_from(s@, k2 as int),
                    );
                    assert(tokens_view(toks@.push(t)) =~= tokens_view(toks@) + seq![t@]);
                }
                toks.push(t);
                i = k2;
            },
            None => {
                if i == s.len() {
                    proof {
                        assert(tokens_view(toks@) + Seq::<SpecToken>::empty() =~= tokens_view(
                            toks@,
                        ));
                    }
                    return Ok(toks);
                } else {
                    return Err(LexError { pos: i });
                }
            },
        }
    }
}

} // verus!
