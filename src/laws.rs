use vstd::prelude::*;
use crate::lexer::{
    ByteClass, MAX_IDENTIFIER_LEN, MAX_LITERAL_LEN, ascii_text, is_alnum_byte, is_digit_byte,
    is_space, keyword_text, lemma_lex_suffix_trim, lemma_run_len_bounds, lemma_run_len_exact,
    lemma_scan_token_advances, lex_suffix, literal_value, prepend, run_len, scan_token, tokenize,
};
use crate::token::{Keywords, LexFailure, Literals, TokenView};

verus! {

/// Where a suffix scans without error, where it starts in the source does not
/// change its tokens.
proof fn lemma_lex_ok_any_pos(s: Seq<u8>, p: nat, q: nat)
    requires
        lex_suffix(s, p) is Ok,
    ensures
        lex_suffix(s, q) == lex_suffix(s, p),
    decreases s.len(),
{
    let w = run_len(s, ByteClass::Space);
    let t = s.skip(w as int);
    lemma_run_len_bounds(s, ByteClass::Space);
    if t.len() > 0 {
        lemma_scan_token_advances(t, p + w);
        if let Ok((tok, n)) = scan_token(t, p + w) {
            assert(scan_token(t, q + w) == scan_token(t, p + w));
            lemma_lex_ok_any_pos(t.skip(n as int), p + w + n, q + w + n);
        }
    }
}

/// A token that a whitespace byte follows is scanned as if the input ended there.
proof fn lemma_scan_concat(u: Seq<u8>, y: Seq<u8>, pos: nat)
    requires
        u.len() > 0,
        y.len() > 0,
        is_space(y[0]),
        scan_token(u, pos) is Ok,
    ensures
        scan_token(u + y, pos) == scan_token(u, pos),
{
    let v = u + y;
    assert(v[0] == u[0]);
    lemma_run_len_bounds(u, ByteClass::Alnum);
    lemma_run_len_bounds(u, ByteClass::Digit);
    let word = run_len(u, ByteClass::Alnum);
    let digits = run_len(u, ByteClass::Digit);
    assert forall|j: int| 0 <= j < word implies is_alnum_byte(#[trigger] v[j]) by {
        assert(v[j] == u[j]);
    }
    assert forall|j: int| 0 <= j < digits implies is_digit_byte(#[trigger] v[j]) by {
        assert(v[j] == u[j]);
    }
    if word < u.len() {
        assert(v[word as int] == u[word as int]);
    } else {
        assert(v[word as int] == y[0]);
    }
    if digits < u.len() {
        assert(v[digits as int] == u[digits as int]);
    } else {
        assert(v[digits as int] == y[0]);
    }
    lemma_run_len_exact(v, ByteClass::Alnum, word);
    lemma_run_len_exact(v, ByteClass::Digit, digits);
    assert(v.take(word as int) =~= u.take(word as int));
    assert(v.take(digits as int) =~= u.take(digits as int));
}

/// Leading whitespace only moves where the rest of the input starts.
proof fn lemma_space_prefix(w: Seq<u8>, b: Seq<u8>, p: nat)
    requires
        forall|j: int| 0 <= j < w.len() ==> is_space(#[trigger] w[j]),
    ensures
        lex_suffix(w + b, p) == lex_suffix(b, p + w.len()),
{
    let v = w + b;
    let rb = run_len(b, ByteClass::Space);
    lemma_run_len_bounds(b, ByteClass::Space);
    assert forall|j: int| 0 <= j < w.len() + rb implies is_space(#[trigger] v[j]) by {
        if j < w.len() {
            assert(v[j] == w[j]);
        } else {
            assert(v[j] == b[j - w.len()]);
        }
    }
    if rb < b.len() {
        assert(v[(w.len() + rb) as int] == b[rb as int]);
    }
    lemma_run_len_exact(v, ByteClass::Space, w.len() + rb);
    assert(v.skip((w.len() + rb) as int) =~= b.skip(rb as int));
    lemma_lex_suffix_trim(v, p);
    lemma_lex_suffix_trim(b, p + w.len());
}

/// A source that scans without error, followed by input that starts with
/// whitespace, gives its tokens followed by those of the rest.
proof fn lemma_concat(x: Seq<u8>, y: Seq<u8>, p: nat)
    requires
        lex_suffix(x, p) is Ok,
        y.len() > 0,
        is_space(y[0]),
    ensures
        lex_suffix(x + y, p) == prepend(lex_suffix(x, p)->Ok_0, lex_suffix(y, p + x.len())),
    decreases x.len(),
{
    let w = run_len(x, ByteClass::Space);
    lemma_run_len_bounds(x, ByteClass::Space);
    if w == x.len() {
        lemma_space_prefix(x, y, p);
        assert(x.skip(w as int).len() == 0);
        assert(lex_suffix(x, p)->Ok_0 =~= Seq::<TokenView>::empty());
        match lex_suffix(y, p + x.len()) {
            Ok(r) => {
                assert(Seq::<TokenView>::empty() + r =~= r);
            },
            Err(_) => {},
        }
    } else {
        let v = x + y;
        let u = x.skip(w as int);
        assert forall|j: int| 0 <= j < w implies is_space(#[trigger] v[j]) by {
            assert(v[j] == x[j]);
        }
        assert(v[w as int] == x[w as int]);
        lemma_run_len_exact(v, ByteClass::Space, w);
        assert(v.skip(w as int) =~= u + y);
        lemma_scan_token_advances(u, p + w);
        lemma_scan_concat(u, y, p + w);
        if let Ok((tok, n)) = scan_token(u, p + w) {
            assert((u + y).skip(n as int) =~= u.skip(n as int) + y);
            let rest = lex_suffix(u.skip(n as int), p + w + n)->Ok_0;
            lemma_concat(u.skip(n as int), y, p + w + n);
            assert(p + w + n + u.skip(n as int).len() == p + x.len());
            match lex_suffix(y, p + x.len()) {
                Ok(r) => {
                    assert(seq![tok] + (rest + r) =~= (seq![tok] + rest) + r);
                },
                Err(_) => {},
            }
        }
    }
}

/// Whitespace inserted between tokens changes nothing: where splitting the
/// source `a + b` between `a` and `b` splits its tokens, any run of whitespace
/// put at that point leaves the tokens as they were.
pub proof fn law_whitespace_insertion(a: Seq<u8>, w: Seq<u8>, b: Seq<u8>)
    requires
        tokenize(a) is Ok,
        tokenize(b) is Ok,
        tokenize(a + b) == Ok::<Seq<TokenView>, LexFailure>(
            tokenize(a)->Ok_0 + tokenize(b)->Ok_0,
        ),
        forall|j: int| 0 <= j < w.len() ==> is_space(#[trigger] w[j]),
    ensures
        tokenize(a + w + b) == tokenize(a + b),
{
    if w.len() == 0 {
        assert(a + w + b =~= a + b);
    } else {
        assert(a + w + b =~= a + (w + b));
        assert((w + b)[0] == w[0]);
        lemma_concat(a, w + b, 0);
        lemma_space_prefix(w, b, a.len());
        lemma_lex_ok_any_pos(b, 0, a.len() + w.len());
    }
}

/// A run of digits alone: up to sixteen digits are one integer literal, whose
/// value is the run's decimal value modulo 2^32; more fail at the first digit.
pub proof fn law_literal_bound(d: Seq<u8>)
    requires
        d.len() > 0,
        forall|j: int| 0 <= j < d.len() ==> is_digit_byte(#[trigger] d[j]),
    ensures
        d.len() <= MAX_LITERAL_LEN ==> tokenize(d) == Ok::<Seq<TokenView>, LexFailure>(
            seq![TokenView::Literal(Literals::Int(literal_value(d)))],
        ),
        d.len() > MAX_LITERAL_LEN ==> tokenize(d) == Err::<Seq<TokenView>, LexFailure>(
            LexFailure::LiteralTooLong { position: 0 },
        ),
{
    lemma_run_len_exact(d, ByteClass::Space, 0);
    assert(d.skip(0) =~= d);
    assert forall|j: int| 0 <= j < d.len() implies is_alnum_byte(#[trigger] d[j]) by {}
    lemma_run_len_exact(d, ByteClass::Alnum, d.len());
    lemma_run_len_exact(d, ByteClass::Digit, d.len());
    assert(d.take(d.len() as int) =~= d);
    assert(keyword_text(Keywords::Int)[0] == 0x69);
    assert(keyword_text(Keywords::Return)[0] == 0x72);
    let e = d.skip(d.len() as int);
    assert(e.len() == 0);
    lemma_run_len_exact(e, ByteClass::Space, 0);
    assert(lex_suffix(e, d.len()) == Ok::<Seq<TokenView>, LexFailure>(Seq::empty()));
    assert(seq![TokenView::Literal(Literals::Int(literal_value(d)))] + Seq::<TokenView>::empty()
        =~= seq![TokenView::Literal(Literals::Int(literal_value(d)))]);
}

/// A run of letters and digits alone that starts with a letter and is no
/// keyword: up to thirty-two bytes are one identifier with those characters;
/// more fail at the first byte.
pub proof fn law_identifier_bound(s: Seq<u8>)
    requires
        s.len() > 0,
        forall|j: int| 0 <= j < s.len() ==> is_alnum_byte(#[trigger] s[j]),
        !is_digit_byte(s[0]),
        s != keyword_text(Keywords::Int),
        s != keyword_text(Keywords::Return),
    ensures
        s.len() <= MAX_IDENTIFIER_LEN ==> tokenize(s) == Ok::<Seq<TokenView>, LexFailure>(
            seq![TokenView::Identifier(ascii_text(s))],
        ),
        s.len() > MAX_IDENTIFIER_LEN ==> tokenize(s) == Err::<Seq<TokenView>, LexFailure>(
            LexFailure::IdentifierTooLong { position: 0 },
        ),
{
    lemma_run_len_exact(s, ByteClass::Space, 0);
    assert(s.skip(0) =~= s);
    lemma_run_len_exact(s, ByteClass::Alnum, s.len());
    lemma_run_len_exact(s, ByteClass::Digit, 0);
    assert(s.take(s.len() as int) =~= s);
    let e = s.skip(s.len() as int);
    assert(e.len() == 0);
    lemma_run_len_exact(e, ByteClass::Space, 0);
    assert(lex_suffix(e, s.len()) == Ok::<Seq<TokenView>, LexFailure>(Seq::empty()));
    assert(seq![TokenView::Identifier(ascii_text(s))] + Seq::<TokenView>::empty() =~= seq![
        TokenView::Identifier(ascii_text(s)),
    ]);
}

} // verus!
