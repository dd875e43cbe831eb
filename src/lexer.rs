use vstd::prelude::*;
use vstd::slice::{slice_subrange, slice_to_vec};
use vstd::utf8::{
    encode_utf8, encode_utf8_decode_utf8, encode_utf8_valid_utf8, is_ascii_chars,
    is_ascii_chars_encode_utf8, valid_utf8,
};
use crate::source::string_from_utf8;
use vstd::arithmetic::div_mod::{lemma_add_mod_noop, lemma_mod_twice, lemma_mul_mod_noop_left, lemma_small_mod,
};
use crate::token::{
    Keywords, Literals, LexError, LexFailure, Token, TokenView, result_view, tokens_view,
};

verus! {

/// The most digits an integer literal may have.
pub const MAX_LITERAL_LEN: usize = 16;

/// The most letters and digits an identifier may have.
pub const MAX_IDENTIFIER_LEN: usize = 32;

/// Relies on nom::character::is_digit: true exactly for the bytes `0` to `9`.
pub assume_specification[ nom::character::is_digit ](chr: u8) -> (r: bool)
    ensures
        r == (0x30 <= chr && chr <= 0x39),
;

/// Relies on nom::character::is_alphanumeric: true exactly for the ASCII letters and digits.
pub assume_specification[ nom::character::is_alphanumeric ](chr: u8) -> (r: bool)
    ensures
        r == ((0x30 <= chr && chr <= 0x39) || (0x41 <= chr && chr <= 0x5A) || (0x61 <= chr
            && chr <= 0x7A)),
;

/// Whitespace between tokens: space, tab, newline and carriage return.
pub open spec fn is_space(b: u8) -> bool {
    b == 0x20 || b == 0x09 || b == 0x0A || b == 0x0D
}

pub open spec fn is_digit_byte(b: u8) -> bool {
    0x30 <= b <= 0x39
}

pub open spec fn is_alnum_byte(b: u8) -> bool {
    is_digit_byte(b) || (0x41 <= b <= 0x5A) || (0x61 <= b <= 0x7A)
}

/// The classes of bytes whose runs the scanner measures.
#[derive(Clone, Copy)]
pub enum ByteClass {
    Space,
    Digit,
    Alnum,
}

pub open spec fn in_class(c: ByteClass, b: u8) -> bool {
    match c {
        ByteClass::Space => is_space(b),
        ByteClass::Digit => is_digit_byte(b),
        ByteClass::Alnum => is_alnum_byte(b),
    }
}

/// The length of the longest prefix of `s` whose bytes are all in class `c`.
pub open spec fn run_len(s: Seq<u8>, c: ByteClass) -> nat
    decreases s.len(),
{
    if s.len() > 0 && in_class(c, s[0]) {
        1 + run_len(s.drop_first(), c)
    } else {
        0
    }
}

/// The number base ten that a sequence of digit bytes writes.
pub open spec fn decimal_value(d: Seq<u8>) -> nat
    decreases d.len(),
{
    if d.len() == 0 {
        0
    } else {
        decimal_value(d.drop_last()) * 10 + (d.last() - 0x30) as nat
    }
}

/// The value of a literal: its decimal value reduced modulo 2^32.
pub open spec fn literal_value(d: Seq<u8>) -> u32 {
    (decimal_value(d) % 0x1_0000_0000) as u32
}

/// The characters of a sequence of ASCII bytes.
pub open spec fn ascii_text(b: Seq<u8>) -> Seq<char> {
    b.map_values(|x: u8| x as char)
}

/// The spelling of each keyword: `int` and `return`.
pub open spec fn keyword_text(k: Keywords) -> Seq<u8> {
    match k {
        Keywords::Int => seq![0x69u8, 0x6Eu8, 0x74u8],
        Keywords::Return => seq![0x72u8, 0x65u8, 0x74u8, 0x75u8, 0x72u8, 0x6Eu8],
    }
}

/// One token at the start of `t`, which is not empty and starts with no
/// whitespace, with the number of bytes it spans; `pos` is where `t` starts
/// in the source. The rules are tried in order and the first that applies wins.
pub open spec fn scan_token(t: Seq<u8>, pos: nat) -> Result<(TokenView, nat), LexFailure> {
    let b = t[0];
    let word = run_len(t, ByteClass::Alnum);
    let digits = run_len(t, ByteClass::Digit);
    if b == 0x7B {
        Ok((TokenView::OpenBrace, 1))
    } else if b == 0x7D {
        Ok((TokenView::CloseBrace, 1))
    } else if b == 0x28 {
        Ok((TokenView::OpenParen, 1))
    } else if b == 0x29 {
        Ok((TokenView::CloseParen, 1))
    } else if b == 0x3B {
        Ok((TokenView::Semicolon, 1))
    } else if t.take(word as int) == keyword_text(Keywords::Int) {
        Ok((TokenView::Keyword(Keywords::Int), word))
    } else if t.take(word as int) == keyword_text(Keywords::Return) {
        Ok((TokenView::Keyword(Keywords::Return), word))
    } else if digits > 0 {
        if digits > MAX_LITERAL_LEN {
            Err(LexFailure::LiteralTooLong { position: pos })
        } else {
            Ok((TokenView::Literal(Literals::Int(literal_value(t.take(digits as int)))), digits))
        }
    } else if word > 0 {
        if word > MAX_IDENTIFIER_LEN {
            Err(LexFailure::IdentifierTooLong { position: pos })
        } else {
            Ok((TokenView::Identifier(ascii_text(t.take(word as int))), word))
        }
    } else {
        Err(LexFailure::UnrecognizedInput { position: pos, remaining: t })
    }
}

/// The tokens of `s`, a suffix of the source that starts at byte offset `pos`.
pub open spec fn lex_suffix(s: Seq<u8>, pos: nat) -> Result<Seq<TokenView>, LexFailure>
    decreases s.len(),
{
    let w = run_len(s, ByteClass::Space);
    let t = s.skip(w as int);
    proof {
        lemma_run_len_bounds(s, ByteClass::Space);
    }
    if t.len() == 0 {
        Ok(Seq::empty())
    } else {
        match scan_token(t, pos + w) {
            Err(e) => Err(e),
            Ok((tok, n)) => {
                proof {
                    lemma_scan_token_advances(t, pos + w);
                }
                match lex_suffix(t.skip(n as int), pos + w + n) {
                    Ok(rest) => Ok(seq![tok] + rest),
                    Err(e) => Err(e),
                }
            },
        }
    }
}

/// The tokens of the source `s`, or the error that stops the scan.
pub open spec fn tokenize(s: Seq<u8>) -> Result<Seq<TokenView>, LexFailure> {
    lex_suffix(s, 0)
}

/// `ts` in front of the tokens of `r`, if `r` succeeded.
pub open spec fn prepend(ts: Seq<TokenView>, r: Result<Seq<TokenView>, LexFailure>) -> Result<
    Seq<TokenView>,
    LexFailure,
> {
    match r {
        Ok(rest) => Ok(ts + rest),
        Err(e) => Err(e),
    }
}

/// The view of one scanning step's outcome.
pub open spec fn step_view(r: Result<(Token, usize), LexError>) -> Result<
    (TokenView, nat),
    LexFailure,
> {
    match r {
        Ok((tok, n)) => Ok((tok@, n as nat)),
        Err(e) => Err(e@),
    }
}

pub proof fn lemma_run_len_bounds(s: Seq<u8>, c: ByteClass)
    ensures
        run_len(s, c) <= s.len(),
        forall|j: int| 0 <= j < run_len(s, c) ==> in_class(c, #[trigger] s[j]),
        run_len(s, c) < s.len() ==> !in_class(c, s[run_len(s, c) as int]),
    decreases s.len(),
{
    if s.len() > 0 && in_class(c, s[0]) {
        lemma_run_len_bounds(s.drop_first(), c);
        assert forall|j: int| 0 <= j < run_len(s, c) implies in_class(c, #[trigger] s[j]) by {
            if j > 0 {
                assert(s[j] == s.drop_first()[j - 1]);
            }
        }
    }
}

/// A run is `k` long when its first `k` bytes are in the class and the next is not.
pub proof fn lemma_run_len_exact(s: Seq<u8>, c: ByteClass, k: nat)
    requires
        k <= s.len(),
        forall|j: int| 0 <= j < k ==> in_class(c, #[trigger] s[j]),
        k == s.len() || !in_class(c, s[k as int]),
    ensures
        run_len(s, c) == k,
    decreases k,
{
    if k > 0 {
        let r = s.drop_first();
        assert forall|j: int| 0 <= j < k - 1 implies in_class(c, #[trigger] r[j]) by {
            assert(r[j] == s[j + 1]);
        }
        if k < s.len() {
            assert(r[k - 1] == s[k as int]);
        }
        lemma_run_len_exact(r, c, (k - 1) as nat);
    }
}

pub proof fn lemma_scan_token_advances(t: Seq<u8>, pos: nat)
    requires
        t.len() > 0,
    ensures
        scan_token(t, pos) matches Ok((_, n)) ==> 1 <= n <= t.len(),
{
    lemma_run_len_bounds(t, ByteClass::Alnum);
    lemma_run_len_bounds(t, ByteClass::Digit);
    let word = run_len(t, ByteClass::Alnum);
    if t.take(word as int) == keyword_text(Keywords::Int) {
        assert(t.take(word as int).len() == 3);
    }
    if t.take(word as int) == keyword_text(Keywords::Return) {
        assert(t.take(word as int).len() == 6);
    }
}

/// Skipping the leading whitespace of a suffix changes none of its tokens.
pub proof fn lemma_lex_suffix_trim(s: Seq<u8>, pos: nat)
    ensures
        lex_suffix(s, pos) == lex_suffix(
            s.skip(run_len(s, ByteClass::Space) as int),
            pos + run_len(s, ByteClass::Space),
        ),
{
    let w = run_len(s, ByteClass::Space);
    let t = s.skip(w as int);
    lemma_run_len_bounds(s, ByteClass::Space);
    if t.len() > 0 {
        assert(t[0] == s[w as int]);
    }
    lemma_run_len_exact(t, ByteClass::Space, 0);
    assert(t.skip(0) =~= t);
}

fn byte_in_class(c: ByteClass, b: u8) -> (r: bool)
    ensures
        r == in_class(c, b),
{
    match c {
        ByteClass::Space => b == 0x20 || b == 0x09 || b == 0x0A || b == 0x0D,
        ByteClass::Digit => nom::character::is_digit(b),
        ByteClass::Alnum => nom::character::is_alphanumeric(b),
    }
}

/// The length of the run of bytes of class `c` at the start of `s`.
pub fn run_length(s: &[u8], c: ByteClass) -> (n: usize)
    ensures
        n == run_len(s@, c),
{
    let mut k: usize = 0;
    while k < s.len() && byte_in_class(c, s[k])
        invariant
            k <= s@.len(),
            forall|j: int| 0 <= j < k ==> in_class(c, #[trigger] s@[j]),
        decreases s@.len() - k,
    {
        k = k + 1;
    }
    proof {
        lemma_run_len_exact(s@, c, k as nat);
    }
    k
}

/// The input with its leading whitespace removed.
pub fn trim_leading_whitespace(input: &[u8]) -> (r: &[u8])
    ensures
        r@ == input@.skip(run_len(input@, ByteClass::Space) as int),
{
    let n = run_length(input, ByteClass::Space);
    proof {
        lemma_run_len_bounds(input@, ByteClass::Space);
    }
    slice_subrange(input, n, input.len())
}

proof fn lemma_fold_digit(v: int, d: int)
    requires
        0 <= v,
        0 <= d < 10,
    ensures
        (((v % 0x1_0000_0000) * 10) % 0x1_0000_0000 + d) % 0x1_0000_0000 == (v * 10 + d)
            % 0x1_0000_0000,
{
    let m: int = 0x1_0000_0000;
    lemma_mul_mod_noop_left(v, 10, m);
    lemma_small_mod(d as nat, m as nat);
    lemma_add_mod_noop(v * 10, d, m);
    lemma_add_mod_noop((v % m) * 10 % m, d, m);
    lemma_mod_twice((v % m) * 10, m);
}

/// The value of a run of digits, folded left to right as `value * 10 + digit`
/// in 32-bit arithmetic that wraps on overflow.
pub fn parse_int(input: &[u8]) -> (r: u32)
    requires
        forall|j: int| 0 <= j < input@.len() ==> is_digit_byte(#[trigger] input@[j]),
    ensures
        r == literal_value(input@),
{
    let mut result: u32 = 0;
    let mut k: usize = 0;
    while k < input.len()
        invariant
            k <= input@.len(),
            forall|j: int| 0 <= j < input@.len() ==> is_digit_byte(#[trigger] input@[j]),
            result == literal_value(input@.take(k as int)),
        decreases input@.len() - k,
    {
        let d = input[k] - 0x30;
        let next = result.wrapping_mul(10).wrapping_add(d as u32);
        proof {
            let before = input@.take(k as int);
            let after = input@.take(k + 1);
            assert(after.drop_last() =~= before);
            assert(after.last() == input@[k as int]);
            lemma_fold_digit(decimal_value(before) as int, d as int);
        }
        result = next;
        k = k + 1;
    }
    proof {
        assert(input@.take(input@.len() as int) =~= input@);
    }
    result
}

/// The characters of bytes that are all ASCII are the bytes themselves, and
/// they are valid UTF-8.
proof fn lemma_ascii_text_encoding(b: Seq<u8>)
    requires
        forall|j: int| 0 <= j < b.len() ==> #[trigger] b[j] < 0x80,
    ensures
        valid_utf8(b),
        forall|c: Seq<char>| encode_utf8(c) == b ==> c == ascii_text(b),
{
    let c = ascii_text(b);
    assert(is_ascii_chars(c));
    is_ascii_chars_encode_utf8(c);
    assert(encode_utf8(c) =~= b);
    encode_utf8_valid_utf8(c);
    assert forall|d: Seq<char>| encode_utf8(d) == b implies d == ascii_text(b) by {
        encode_utf8_decode_utf8(d);
        encode_utf8_decode_utf8(c);
    }
}

/// Scans the token at the start of `t`, which starts at byte offset `pos` of
/// the source, by the rules of `scan_token`.
fn lex_token(t: &[u8], pos: usize) -> (r: Result<(Token, usize), LexError>)
    requires
        t@.len() > 0,
    ensures
        step_view(r) == scan_token(t@, pos as nat),
{
    let b = t[0];
    if b == 0x7B {
        return Ok((Token::OpenBrace, 1));
    } else if b == 0x7D {
        return Ok((Token::CloseBrace, 1));
    } else if b == 0x28 {
        return Ok((Token::OpenParen, 1));
    } else if b == 0x29 {
        return Ok((Token::CloseParen, 1));
    } else if b == 0x3B {
        return Ok((Token::Semicolon, 1));
    }
    let word = run_length(t, ByteClass::Alnum);
    proof {
        lemma_run_len_bounds(t@, ByteClass::Alnum);
    }
    if let Some(k) = lex_keyword(t, word) {
        return Ok((Token::Keyword(k), word));
    }
    let digits = run_length(t, ByteClass::Digit);
    proof {
        lemma_run_len_bounds(t@, ByteClass::Digit);
    }
    if digits > 0 {
        lex_integer_literal(t, digits, pos)
    } else if word > 0 {
        lex_identifier(t, word, pos)
    } else {
        Err(LexError::UnrecognizedInput { position: pos, remaining: slice_to_vec(t) })
    }
}

/// The keyword spelled by the first `word` bytes of `t`, if any.
fn lex_keyword(t: &[u8], word: usize) -> (r: Option<Keywords>)
    requires
        word <= t@.len(),
    ensures
        r == Some(Keywords::Int) <==> t@.take(word as int) == keyword_text(Keywords::Int),
        r == Some(Keywords::Return) <==> t@.take(word as int) == keyword_text(Keywords::Return),
        r is None ==> t@.take(word as int) != keyword_text(Keywords::Int) && t@.take(word as int)
            != keyword_text(Keywords::Return),
{
    let ghost w = t@.take(word as int);
    if word == 3 && t[0] == 0x69 && t[1] == 0x6E && t[2] == 0x74 {
        assert(w =~= keyword_text(Keywords::Int));
        return Some(Keywords::Int);
    }
    if word == 6 && t[0] == 0x72 && t[1] == 0x65 && t[2] == 0x74 && t[3] == 0x75 && t[4] == 0x72
        && t[5] == 0x6E {
        assert(w =~= keyword_text(Keywords::Return));
        return Some(Keywords::Return);
    }
    proof {
        if word == 3 {
            assert(w[0] == t@[0] && w[1] == t@[1] && w[2] == t@[2]);
            assert(w != keyword_text(Keywords::Int));
        }
        if word == 6 {
            assert(w[0] == t@[0] && w[1] == t@[1] && w[2] == t@[2] && w[3] == t@[3] && w[4]
                == t@[4] && w[5] == t@[5]);
            assert(w != keyword_text(Keywords::Return));
        }
    }
    None
}

/// The literal written by the `digits` digits at the start of `t`.
fn lex_integer_literal(t: &[u8], digits: usize, pos: usize) -> (r: Result<(Token, usize), LexError>)
    requires
        0 < digits <= t@.len(),
        forall|j: int| 0 <= j < digits ==> is_digit_byte(#[trigger] t@[j]),
    ensures
        digits > MAX_LITERAL_LEN ==> r == Err::<(Token, usize), LexError>(
            LexError::LiteralTooLong { position: pos },
        ),
        digits <= MAX_LITERAL_LEN ==> step_view(r) == Ok::<(TokenView, nat), LexFailure>(
            (TokenView::Literal(Literals::Int(literal_value(t@.take(digits as int)))), digits as nat),
        ),
{
    if digits > MAX_LITERAL_LEN {
        return Err(LexError::LiteralTooLong { position: pos });
    }
    let text = slice_subrange(t, 0, digits);
    let value = parse_int(text);
    Ok((Token::Literal(Literals::Int(value)), digits))
}

/// The identifier spelled by the `word` letters and digits at the start of `t`.
fn lex_identifier(t: &[u8], word: usize, pos: usize) -> (r: Result<(Token, usize), LexError>)
    requires
        0 < word <= t@.len(),
        forall|j: int| 0 <= j < word ==> is_alnum_byte(#[trigger] t@[j]),
    ensures
        word > MAX_IDENTIFIER_LEN ==> r == Err::<(Token, usize), LexError>(
            LexError::IdentifierTooLong { position: pos },
        ),
        word <= MAX_IDENTIFIER_LEN ==> step_view(r) == Ok::<(TokenView, nat), LexFailure>(
            (TokenView::Identifier(ascii_text(t@.take(word as int))), word as nat),
        ),
{
    if word > MAX_IDENTIFIER_LEN {
        return Err(LexError::IdentifierTooLong { position: pos });
    }
    let text = slice_to_vec(slice_subrange(t, 0, word));
    proof {
        lemma_ascii_text_encoding(text@);
    }
    let name = string_from_utf8(text).unwrap();
    Ok((Token::Identifier(name), word))
}

/// The tokens of the source bytes `input`, or the error that stops the scan.
pub fn lex_bytes(input: &[u8]) -> (r: Result<Vec<Token>, LexError>)
    ensures
        result_view(r) == tokenize(input@),
{
    let mut tokens: Vec<Token> = Vec::new();
    let mut rest = trim_leading_whitespace(input);
    proof {
        lemma_run_len_bounds(input@, ByteClass::Space);
    }
    let mut pos: usize = input.len() - rest.len();
    proof {
        lemma_lex_suffix_trim(input@, 0);
        lemma_run_len_bounds(rest@, ByteClass::Space);
        if rest@.len() > 0 {
            assert(rest@[0] == input@[pos as int]);
        }
        lemma_run_len_exact(rest@, ByteClass::Space, 0);
        assert(tokens_view(tokens@) =~= Seq::<TokenView>::empty());
        assert(prepend(Seq::empty(), lex_suffix(rest@, pos as nat)) =~= lex_suffix(rest@, pos as nat));
    }
    while rest.len() > 0
        invariant
            pos + rest@.len() == input@.len(),
            run_len(rest@, ByteClass::Space) == 0,
            tokenize(input@) == prepend(tokens_view(tokens@), lex_suffix(rest@, pos as nat)),
        decreases rest@.len(),
    {
        proof {
            assert(rest@.skip(0) =~= rest@);
        }
        let step = lex_token(rest, pos);
        match step {
            Err(e) => {
                return Err(e);
            },
            Ok((token, n)) => {
                proof {
                    lemma_scan_token_advances(rest@, pos as nat);
                }
                let after = slice_subrange(rest, n, rest.len());
                let next = trim_leading_whitespace(after);
                let ghost old_tokens = tokens@;
                let ghost tok = token@;
                proof {
                    lemma_lex_suffix_trim(after@, (pos + n) as nat);
                    lemma_run_len_bounds(after@, ByteClass::Space);
                    lemma_run_len_bounds(next@, ByteClass::Space);
                    if next@.len() > 0 {
                        assert(next@[0] == after@[run_len(after@, ByteClass::Space) as int]);
                    }
                    lemma_run_len_exact(next@, ByteClass::Space, 0);
                    assert(rest@.skip(n as int) =~= after@);
                }
                tokens.push(token);
                proof {
                    assert(tokens_view(tokens@) =~= tokens_view(old_tokens).push(tok));
                    let tail = lex_suffix(next@, (input@.len() - next@.len()) as nat);
                    match tail {
                        Ok(x) => {
                            assert(tokens_view(old_tokens) + (seq![tok] + x)
                                =~= tokens_view(tokens@) + x);
                        },
                        Err(_) => {},
                    }
                }
                pos = input.len() - next.len();
                rest = next;
            },
        }
    }
    proof {
        assert(tokens_view(tokens@) + Seq::<TokenView>::empty() =~= tokens_view(tokens@));
    }
    Ok(tokens)
}

/// The tokens of `input`, or the error that stops the scan. Positions in an
/// error are byte offsets into the UTF-8 encoding of `input`.
pub fn lex(input: &String) -> (r: Result<Vec<Token>, LexError>)
    ensures
        result_view(r) == tokenize(encode_utf8(input@)),
{
    lex_bytes(input.as_str().as_bytes())
}

} // verus!
