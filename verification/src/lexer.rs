//! The lexer: source characters to tokens.
use vstd::prelude::*;
use crate::core_types::{Tok, TokenType, toks_view};
use crate::text::{decimal, digit_char, push_char, string_from_range};

verus! {

// ---------------------------------------------------------------------------
// Character classes
// ---------------------------------------------------------------------------

/// The characters with the Unicode `White_Space` property, of which `char::is_whitespace`
/// holds: tab, line feed, vertical tab, form feed, carriage return, space, next line,
/// no-break space, ogham space mark, the spaces from en quad to hair space, line separator,
/// paragraph separator, narrow no-break space, medium mathematical space and ideographic space.
pub open spec fn char_is_whitespace(c: char) -> bool {
    ||| ('\u{9}' <= c && c <= '\u{D}')
    ||| c == ' '
    ||| c == '\u{85}'
    ||| c == '\u{A0}'
    ||| c == '\u{1680}'
    ||| ('\u{2000}' <= c && c <= '\u{200A}')
    ||| c == '\u{2028}'
    ||| c == '\u{2029}'
    ||| c == '\u{202F}'
    ||| c == '\u{205F}'
    ||| c == '\u{3000}'
}

/// Whether `char::is_alphanumeric` holds of `c` (Unicode `Alphabetic` or `Numeric`).
pub uninterp spec fn char_is_alphanumeric(c: char) -> bool;

/// Whether `c` is an ASCII letter or digit.
pub open spec fn is_ascii_alnum(c: char) -> bool {
    ('a' <= c && c <= 'z') || ('A' <= c && c <= 'Z') || ('0' <= c && c <= '9')
}

/// `char::is_whitespace`: whether `c` has the Unicode `White_Space` property, whose
/// characters `char_is_whitespace` lists.
#[verifier::external_body]
fn is_whitespace(c: char) -> (b: bool)
    ensures
        b == char_is_whitespace(c),
{
    c.is_whitespace()
}

/// `char::is_alphanumeric`. Its result is named `char_is_alphanumeric`. Among the ASCII
/// characters it holds of the letters and digits only (they are the ASCII characters that are
/// Unicode `Alphabetic` or `Numeric`); beyond ASCII the Unicode tables decide, which is left
/// unsaid here.
#[verifier::external_body]
fn is_alphanumeric(c: char) -> (b: bool)
    ensures
        b == char_is_alphanumeric(c),
        (c as u32) < 128 ==> (b <==> is_ascii_alnum(c)),
{
    c.is_alphanumeric()
}

pub open spec fn is_digit(c: char) -> bool {
    '0' <= c && c <= '9'
}

/// The characters that may start an identifier.
pub open spec fn is_ident_start(c: char) -> bool {
    ('a' <= c && c <= 'z') || ('A' <= c && c <= 'Z') || c == '_'
}

/// The characters that may continue an identifier.
pub open spec fn is_ident_char(c: char) -> bool {
    if (c as u32) < 128 {
        is_ascii_alnum(c) || c == '_'
    } else {
        char_is_alphanumeric(c) || c == '_'
    }
}

// ---------------------------------------------------------------------------
// The lexical grammar
// ---------------------------------------------------------------------------

/// The length of the longest prefix of `s` made of ASCII digits.
pub open spec fn digit_run(s: Seq<char>) -> nat
    decreases s.len(),
{
    if s.len() > 0 && is_digit(s[0]) {
        1 + digit_run(s.drop_first())
    } else {
        0
    }
}

/// The length of the longest prefix of `s` made of identifier characters.
pub open spec fn ident_run(s: Seq<char>) -> nat
    decreases s.len(),
{
    if s.len() > 0 && is_ident_char(s[0]) {
        1 + ident_run(s.drop_first())
    } else {
        0
    }
}

/// The length of a line comment at the start of `s`: up to and including the first line
/// feed, or all of `s` where there is none.
pub open spec fn comment_len(s: Seq<char>) -> nat
    decreases s.len(),
{
    if s.len() == 0 {
        0
    } else if s[0] == '\n' {
        1
    } else {
        1 + comment_len(s.drop_first())
    }
}

/// Whether `s` starts a line comment.
pub open spec fn starts_comment(s: Seq<char>) -> bool {
    s.len() > 1 && s[0] == '/' && s[1] == '/'
}

/// The number of characters of whitespace and comments at the start of `s`.
pub open spec fn skip_len(s: Seq<char>) -> nat
    decreases s.len(),
{
    if s.len() == 0 {
        0
    } else if char_is_whitespace(s[0]) {
        1 + skip_len(s.drop_first())
    } else if starts_comment(s) {
        proof {
            lemma_comment_len(s);
        }
        comment_len(s) + skip_len(s.skip(comment_len(s) as int))
    } else {
        0
    }
}

/// The value of a sequence of decimal digits.
pub open spec fn decimal_value(ds: Seq<char>) -> nat
    decreases ds.len(),
{
    if ds.len() == 0 {
        0
    } else {
        decimal_value(ds.drop_last()) * 10 + (ds.last() as nat - '0' as nat) as nat
    }
}

/// Whether the digits at the start of `s` go on with a `.` and a digit.
pub open spec fn has_fraction(s: Seq<char>) -> bool {
    let a = digit_run(s);
    a + 1 < s.len() && s[a as int] == '.' && is_digit(s[a + 1int])
}

/// The length of the number literal at the start of `s`: digits, and then, where a `.` and a
/// digit follow them, the `.` and the digits after it.
pub open spec fn number_len(s: Seq<char>) -> nat {
    let a = digit_run(s);
    if has_fraction(s) {
        a + 1 + digit_run(s.skip(a + 1int))
    } else {
        a
    }
}

/// The character that the escape `\c` stands for.
pub open spec fn escape_char(c: char) -> char {
    if c == 'n' {
        '\n'
    } else if c == 'r' {
        '\r'
    } else if c == 't' {
        '\t'
    } else {
        c
    }
}

/// The body of a string literal whose opening quote has been read: its characters, escapes
/// resolved, and the number of characters read, up to and including the closing quote. An
/// unterminated literal runs to the end of the input.
pub open spec fn string_body(s: Seq<char>) -> (Seq<char>, nat)
    decreases s.len(),
{
    if s.len() == 0 {
        (Seq::empty(), 0)
    } else if s[0] == '"' {
        (Seq::empty(), 1)
    } else if s[0] == '\\' {
        if s.len() == 1 {
            (Seq::empty(), 1)
        } else {
            let r = string_body(s.skip(2));
            (seq![escape_char(s[1])] + r.0, r.1 + 2)
        }
    } else {
        let r = string_body(s.drop_first());
        (seq![s[0]] + r.0, r.1 + 1)
    }
}

/// The token a word stands for: a keyword, or else an identifier.
pub open spec fn word_token(w: Seq<char>) -> Tok {
    if w == seq!['e', 'm', 'i', 't'] {
        Tok::Emit
    } else if w == seq!['w', 'h', 'e', 'n'] {
        Tok::When
    } else if w == seq!['o', 't', 'h', 'e', 'r', 'w', 'i', 's', 'e'] {
        Tok::Otherwise
    } else if w == seq!['d', 'u', 'r', 'i', 'n', 'g'] {
        Tok::During
    } else if w == seq!['p', 'r', 'o', 'c'] {
        Tok::Proc
    } else if w == seq!['y', 'i', 'e', 'l', 'd'] {
        Tok::Yield
    } else if w == seq!['l', 'a', 'y', 'o', 'u', 't'] {
        Tok::Layout
    } else if w == seq!['s', 'l', 'o', 't'] {
        Tok::Slot
    } else if w == seq!['c', 'l', 'a', 'i', 'm'] {
        Tok::Claim
    } else if w == seq!['p', 'u', 'r', 'g', 'e'] {
        Tok::Purge
    } else if w == seq!['y', 'e', 's'] {
        Tok::Yes
    } else if w == seq!['n', 'o'] {
        Tok::No
    } else if w == seq!['n', 'u', 'm'] {
        Tok::TypeNum
    } else if w == seq!['i', 'n', 't'] {
        Tok::TypeInt
    } else if w == seq!['f', 'l', 'a', 'g'] {
        Tok::TypeFlag
    } else if w == seq!['t', 'e', 'x', 't'] {
        Tok::TypeText
    } else if w == seq!['n', 'o', 'n', 'e'] {
        Tok::TypeNone
    } else {
        Tok::Identifier(w)
    }
}

/// The token that an operator character `c` starts, given whether the next character is `=`.
pub open spec fn with_equal(c: char, eq: bool) -> Tok {
    if c == '!' {
        if eq { Tok::BangEqual } else { Tok::Bang }
    } else if c == '=' {
        if eq { Tok::EqualEqual } else { Tok::Equal }
    } else if c == '<' {
        if eq { Tok::LessEqual } else { Tok::Less }
    } else {
        if eq { Tok::GreaterEqual } else { Tok::Greater }
    }
}

/// The token of a character that is a token by itself.
pub open spec fn single_token(c: char) -> Option<Tok> {
    if c == '(' {
        Some(Tok::LeftParen)
    } else if c == ')' {
        Some(Tok::RightParen)
    } else if c == '{' {
        Some(Tok::LeftBrace)
    } else if c == '}' {
        Some(Tok::RightBrace)
    } else if c == '[' {
        Some(Tok::LeftBracket)
    } else if c == ']' {
        Some(Tok::RightBracket)
    } else if c == ';' {
        Some(Tok::Semicolon)
    } else if c == ':' {
        Some(Tok::Colon)
    } else if c == ',' {
        Some(Tok::Comma)
    } else if c == '.' {
        Some(Tok::Dot)
    } else if c == '+' {
        Some(Tok::Plus)
    } else if c == '*' {
        Some(Tok::Star)
    } else if c == '/' {
        Some(Tok::Slash)
    } else if c == '%' {
        Some(Tok::Percent)
    } else {
        None
    }
}

/// The number literal at the start of `s` and its length: a `num` literal, kept as its text,
/// where it has a fraction, else an `int` literal, or `None` where that is too large for `i64`.
pub open spec fn number_token(s: Seq<char>) -> Option<(Tok, nat)> {
    if has_fraction(s) {
        Some((Tok::Number(s.take(number_len(s) as int)), number_len(s)))
    } else {
        let v = decimal_value(s.take(digit_run(s) as int));
        if v <= i64::MAX {
            Some((Tok::IntNumber(v as i64), digit_run(s)))
        } else {
            None
        }
    }
}

/// The word at the start of `s`, whose first character starts an identifier, and its length.
pub open spec fn word_at(s: Seq<char>) -> (Tok, nat) {
    let n = 1 + ident_run(s.drop_first());
    (word_token(s.take(n as int)), n)
}

/// The token at the start of the nonempty `s` and its length in characters, or `None` where
/// no token starts there (a lone `|`, an integer literal too large for `i64`, or a character
/// that starts no token).
pub open spec fn scan_token(s: Seq<char>) -> Option<(Tok, nat)>
    recommends
        s.len() > 0,
{
    let c = s[0];
    let next_is = |d: char| s.len() > 1 && s[1] == d;
    if single_token(c) is Some {
        Some((single_token(c)->0, 1))
    } else if c == '&' {
        if next_is('&') {
            Some((Tok::AmpAmp, 2))
        } else {
            Some((Tok::Ampersand, 1))
        }
    } else if c == '|' {
        if next_is('|') {
            Some((Tok::PipePipe, 2))
        } else {
            None
        }
    } else if c == '!' || c == '=' || c == '<' || c == '>' {
        if next_is('=') {
            Some((with_equal(c, true), 2))
        } else {
            Some((with_equal(c, false), 1))
        }
    } else if c == '-' {
        if next_is('>') {
            Some((Tok::Arrow, 2))
        } else {
            Some((Tok::Minus, 1))
        }
    } else if c == '"' {
        let (body, n) = string_body(s.drop_first());
        Some((Tok::StringLit(body), n + 1))
    } else if is_digit(c) {
        number_token(s)
    } else if is_ident_start(c) {
        Some(word_at(s))
    } else {
        None
    }
}

/// The tokens of `s`, ending with `Eof`; `None` where some character starts no token.
pub open spec fn lex(s: Seq<char>) -> Option<Seq<Tok>>
    decreases s.len(),
{
    proof {
        lemma_skip_len(s);
    }
    let t = s.skip(skip_len(s) as int);
    if t.len() == 0 {
        Some(seq![Tok::Eof])
    } else {
        proof {
            lemma_scan_token_len(t);
        }
        match scan_token(t) {
            Some((tok, n)) => match lex(t.skip(n as int)) {
                Some(rest) => Some(seq![tok] + rest),
                None => None,
            },
            None => None,
        }
    }
}

// ---------------------------------------------------------------------------
// Lemmas on the grammar
// ---------------------------------------------------------------------------

pub proof fn lemma_comment_len(s: Seq<char>)
    ensures
        comment_len(s) <= s.len(),
        s.len() > 0 ==> comment_len(s) >= 1,
    decreases s.len(),
{
    if s.len() > 0 && s[0] != '\n' {
        lemma_comment_len(s.drop_first());
    }
}

pub proof fn lemma_skip_len(s: Seq<char>)
    ensures
        skip_len(s) <= s.len(),
        ({
            let t = s.skip(skip_len(s) as int);
            t.len() == 0 || (!char_is_whitespace(t[0]) && !starts_comment(t))
        }),
    decreases s.len(),
{
    if s.len() > 0 {
        if char_is_whitespace(s[0]) {
            lemma_skip_len(s.drop_first());
            assert(s.skip(skip_len(s) as int) =~= s.drop_first().skip(skip_len(s.drop_first()) as int));
        } else if starts_comment(s) {
            lemma_comment_len(s);
            let u = s.skip(comment_len(s) as int);
            lemma_skip_len(u);
            assert(s.skip(skip_len(s) as int) =~= u.skip(skip_len(u) as int));
        }
    }
}

pub proof fn lemma_digit_run(s: Seq<char>)
    ensures
        digit_run(s) <= s.len(),
        forall|i: int| 0 <= i < digit_run(s) ==> is_digit(#[trigger] s[i]),
        digit_run(s) < s.len() ==> !is_digit(s[digit_run(s) as int]),
    decreases s.len(),
{
    if s.len() > 0 && is_digit(s[0]) {
        lemma_digit_run(s.drop_first());
        assert forall|i: int| 0 <= i < digit_run(s) implies is_digit(#[trigger] s[i]) by {
            if i > 0 {
                assert(s[i] == s.drop_first()[i - 1]);
            }
        }
    }
}

pub proof fn lemma_ident_run(s: Seq<char>)
    ensures
        ident_run(s) <= s.len(),
        forall|i: int| 0 <= i < ident_run(s) ==> is_ident_char(#[trigger] s[i]),
        ident_run(s) < s.len() ==> !is_ident_char(s[ident_run(s) as int]),
    decreases s.len(),
{
    if s.len() > 0 && is_ident_char(s[0]) {
        lemma_ident_run(s.drop_first());
        assert forall|i: int| 0 <= i < ident_run(s) implies is_ident_char(#[trigger] s[i]) by {
            if i > 0 {
                assert(s[i] == s.drop_first()[i - 1]);
            }
        }
    }
}

pub proof fn lemma_string_body(s: Seq<char>)
    ensures
        string_body(s).1 <= s.len(),
        s.len() > 0 ==> string_body(s).1 >= 1,
    decreases s.len(),
{
    if s.len() > 0 && s[0] != '"' {
        if s[0] == '\\' {
            if s.len() > 1 {
                lemma_string_body(s.skip(2));
            }
        } else {
            lemma_string_body(s.drop_first());
        }
    }
}

pub proof fn lemma_scan_token_len(s: Seq<char>)
    requires
        s.len() > 0,
    ensures
        scan_token(s) matches Some((_, n)) ==> 1 <= n <= s.len(),
{
    lemma_string_body(s.drop_first());
    lemma_digit_run(s);
    lemma_digit_run(s.skip(digit_run(s) + 1int));
    lemma_ident_run(s.drop_first());
}

/// The tokens of a text end with the end-of-input token, and no other token is one.
pub proof fn lemma_lex_ends_with_eof(s: Seq<char>)
    requires
        lex(s) is Some,
    ensures
        ({
            let ts = lex(s)->0;
            &&& ts.len() >= 1
            &&& ts.last() == Tok::Eof
            &&& forall|i: int| 0 <= i < ts.len() - 1 ==> ts[i] != Tok::Eof
        }),
    decreases s.len(),
{
    lemma_skip_len(s);
    let t = s.skip(skip_len(s) as int);
    if t.len() > 0 {
        lemma_scan_token_len(t);
        let (tok, n) = scan_token(t)->0;
        lemma_lex_ends_with_eof(t.skip(n as int));
        let rest = lex(t.skip(n as int))->0;
        assert(tok != Tok::Eof);
        assert forall|i: int| 0 <= i < rest.len() implies (seq![tok] + rest)[i + 1] == rest[i] by {}
    }
}

/// Whitespace before a text changes none of its tokens, nor whether it lexes.
pub proof fn lemma_lex_skips_whitespace(c: char, s: Seq<char>)
    requires
        char_is_whitespace(c),
    ensures
        lex(seq![c] + s) == lex(s),
{
    let u = seq![c] + s;
    assert(u.drop_first() =~= s);
    lemma_skip_len(s);
    assert(skip_len(u) == 1 + skip_len(s));
    assert(u.skip(skip_len(u) as int) =~= s.skip(skip_len(s) as int));
}

/// Whether `w` is made only of whitespace and of whole line comments, each `//` up to and
/// including a line feed.
pub open spec fn is_blank(w: Seq<char>) -> bool
    decreases w.len(),
{
    if w.len() == 0 {
        true
    } else if char_is_whitespace(w[0]) {
        is_blank(w.drop_first())
    } else if starts_comment(w) {
        proof {
            lemma_comment_len(w);
        }
        w[comment_len(w) - 1] == '\n' && is_blank(w.skip(comment_len(w) as int))
    } else {
        false
    }
}

proof fn lemma_comment_len_prefix(w: Seq<char>, s: Seq<char>)
    requires
        w.len() > 0,
        w[comment_len(w) - 1] == '\n',
    ensures
        comment_len(w + s) == comment_len(w),
    decreases w.len(),
{
    lemma_comment_len(w);
    if w[0] != '\n' {
        let w1 = w.drop_first();
        lemma_comment_len(w1);
        assert((w + s).drop_first() =~= w1 + s);
        if w1.len() > 0 {
            assert(w1[comment_len(w1) - 1] == w[comment_len(w) - 1]);
            lemma_comment_len_prefix(w1, s);
        }
    }
}

proof fn lemma_blank_skip_len(w: Seq<char>, s: Seq<char>)
    requires
        is_blank(w),
    ensures
        skip_len(w + s) == w.len() + skip_len(s),
    decreases w.len(),
{
    if w.len() == 0 {
        assert(w + s =~= s);
    } else if char_is_whitespace(w[0]) {
        assert((w + s).drop_first() =~= w.drop_first() + s);
        lemma_blank_skip_len(w.drop_first(), s);
    } else {
        lemma_comment_len(w);
        let k = comment_len(w);
        lemma_comment_len_prefix(w, s);
        assert((w + s).skip(k as int) =~= w.skip(k as int) + s);
        lemma_blank_skip_len(w.skip(k as int), s);
    }
}

/// Whitespace and whole line comments before a text change none of its tokens, nor whether
/// it lexes.
pub proof fn lemma_lex_skips_blank(w: Seq<char>, s: Seq<char>)
    requires
        is_blank(w),
    ensures
        lex(w + s) == lex(s),
{
    lemma_blank_skip_len(w, s);
    lemma_skip_len(s);
    assert((w + s).skip(skip_len(w + s) as int) =~= s.skip(skip_len(s) as int));
}

/// Whether `c` is an ASCII letter, digit or underscore.
pub open spec fn is_word_char(c: char) -> bool {
    ('a' <= c && c <= 'z') || ('A' <= c && c <= 'Z') || ('0' <= c && c <= '9') || c == '_'
}

proof fn lemma_ident_run_all(s: Seq<char>)
    requires
        forall|i: int| 0 <= i < s.len() ==> is_word_char(#[trigger] s[i]),
    ensures
        ident_run(s) == s.len(),
    decreases s.len(),
{
    if s.len() > 0 {
        assert(is_word_char(s[0]));
        assert forall|i: int| 0 <= i < s.drop_first().len() implies is_word_char(#[trigger] s.drop_first()[i]) by {
            assert(s.drop_first()[i] == s[i + 1]);
        }
        lemma_ident_run_all(s.drop_first());
    }
}

/// A word of ASCII letters, digits and underscores that starts with a letter or an underscore
/// is read whole as one token (an identifier, or the keyword it spells), whatever follows it
/// that cannot continue a word.
pub proof fn lemma_lex_word(w: Seq<char>, rest: Seq<char>)
    requires
        w.len() > 0,
        is_ident_start(w[0]),
        forall|i: int| 0 <= i < w.len() ==> is_word_char(#[trigger] w[i]),
        rest.len() == 0 || !is_ident_char(rest[0]),
    ensures
        lex(w + rest) == prepend(seq![word_token(w)], lex(rest)),
{
    let s = w + rest;
    assert(s[0] == w[0]);
    assert(!char_is_whitespace(s[0]));
    assert(skip_len(s) == 0);
    assert(s.skip(0) =~= s);
    lemma_skip_len(s);
    let d = w.drop_first();
    assert forall|i: int| 0 <= i < d.len() implies is_word_char(#[trigger] d[i]) by {
        assert(d[i] == w[i + 1]);
    }
    lemma_ident_run_all(d);
    assert(s.drop_first() =~= d + rest);
    lemma_ident_run_prefix(d, rest);
    assert(word_at(s).1 == w.len());
    assert(s.take(w.len() as int) =~= w);
    assert(s.skip(w.len() as int) =~= rest);
    lemma_scan_token_len(s);
}

proof fn lemma_ident_run_prefix(d: Seq<char>, rest: Seq<char>)
    requires
        ident_run(d) == d.len(),
        rest.len() == 0 || !is_ident_char(rest[0]),
    ensures
        ident_run(d + rest) == d.len(),
    decreases d.len(),
{
    if d.len() == 0 {
        assert(d + rest =~= rest);
    } else {
        assert((d + rest).drop_first() =~= d.drop_first() + rest);
        assert((d + rest)[0] == d[0]);
        lemma_ident_run_prefix(d.drop_first(), rest);
    }
}

/// The decimal digits of a number read back as that number.
pub proof fn lemma_decimal_reads_back(n: nat)
    ensures
        decimal_value(decimal(n)) == n,
        forall|i: int| 0 <= i < decimal(n).len() ==> is_digit(#[trigger] decimal(n)[i]),
    decreases n,
{
    if n < 10 {
        assert(decimal(n).drop_last() =~= Seq::<char>::empty());
        assert(decimal(n).last() == digit_char(n));
        assert(digit_char(n) as nat - '0' as nat == n);
        assert(decimal_value(Seq::<char>::empty()) == 0);
        assert(decimal_value(decimal(n)) == decimal_value(decimal(n).drop_last()) * 10 + n);
    } else {
        lemma_decimal_reads_back(n / 10);
        let d = decimal(n / 10);
        assert(decimal(n).drop_last() =~= d);
        assert(digit_char(n % 10) as nat - '0' as nat == n % 10);
        assert(decimal(n).last() == digit_char(n % 10));
        assert(decimal_value(decimal(n)) == decimal_value(d) * 10 + n % 10);
        assert(n == (n / 10) * 10 + n % 10) by (nonlinear_arith);
        assert(decimal_value(d) == n / 10);
        assert(decimal_value(decimal(n)) == n);
        assert forall|i: int| 0 <= i < decimal(n).len() implies is_digit(#[trigger] decimal(n)[i]) by {
            if i < d.len() {
                assert(decimal(n)[i] == d[i]);
            }
        }
    }
}

/// In a string literal, the escape `\n` stands for the line feed (U+000A), `\r` for the
/// carriage return (U+000D) and `\t` for the tab (U+0009); a backslash before any other
/// character stands for that character. The literal goes on after the escape.
pub proof fn lemma_string_escape(c: char, s: Seq<char>)
    ensures
        string_body(seq!['\\', c] + s) == (
            seq![
                if c == 'n' {
                    '\u{A}'
                } else if c == 'r' {
                    '\u{D}'
                } else if c == 't' {
                    '\u{9}'
                } else {
                    c
                },
            ] + string_body(s).0,
            string_body(s).1 + 2,
        ),
{
    let u = seq!['\\', c] + s;
    assert(u[0] == '\\');
    assert(u.skip(2) =~= s);
}

/// A character of a string literal other than a quote or a backslash stands for itself.
pub proof fn lemma_string_plain(c: char, s: Seq<char>)
    requires
        c != '"',
        c != '\\',
    ensures
        string_body(seq![c] + s) == (seq![c] + string_body(s).0, string_body(s).1 + 1),
{
    let u = seq![c] + s;
    assert(u[0] == c);
    assert(u.drop_first() =~= s);
}

/// `prefix` before the tokens of `r`, where there are any.
pub open spec fn prepend(prefix: Seq<Tok>, r: Option<Seq<Tok>>) -> Option<Seq<Tok>> {
    match r {
        Some(ts) => Some(prefix + ts),
        None => None,
    }
}

// ---------------------------------------------------------------------------
// The lexer
// ---------------------------------------------------------------------------

/// A cursor over the characters of a source text.
pub struct Lexer {
    chars: Vec<char>,
    pos: usize,
}

impl Lexer {
    /// The characters of the source.
    pub closed spec fn chars(&self) -> Seq<char> {
        self.chars@
    }

    /// The index of the next character to read.
    pub closed spec fn pos(&self) -> int {
        self.pos as int
    }

    /// The characters not read yet.
    pub closed spec fn rest(&self) -> Seq<char> {
        self.chars@.skip(self.pos as int)
    }

    /// The cursor never stands past the end.
    pub closed spec fn wf(&self) -> bool {
        self.pos <= self.chars.len()
    }

    /// The characters not read yet are those after the cursor, and a well-formed cursor stands
    /// within the characters or just after their end.
    pub proof fn lemma_cursor(&self)
        ensures
            self.rest() == self.chars().skip(self.pos()),
            self.wf() <==> 0 <= self.pos() <= self.chars().len(),
    {
    }

    pub fn new(input: &str) -> (r: Self)
        ensures
            r.wf(),
            r.chars() == input@,
            r.pos() == 0,
            r.rest() == input@,
    {
        let mut chars: Vec<char> = Vec::new();
        for c in it: input.chars()
            invariant
                chars@ == it.seq().take(it.index() as int),
        {
            chars.push(c);
        }
        assert(chars@ == input@);
        let r = Lexer { chars, pos: 0 };
        proof {
            assert(r.chars@.skip(0) =~= r.chars@);
        }
        r
    }

    /// The next character, if any, without moving.
    pub fn peek(&self) -> (r: Option<char>)
        requires
            self.wf(),
        ensures
            r == (if self.pos() < self.chars().len() {
                Some(self.chars()[self.pos()])
            } else {
                None
            }),
    {
        if self.pos < self.chars.len() {
            Some(self.chars[self.pos])
        } else {
            None
        }
    }

    /// The character after the next one, if any.
    pub fn peek_next(&self) -> (r: Option<char>)
        requires
            self.wf(),
        ensures
            r == (if self.pos() + 1 < self.chars().len() {
                Some(self.chars()[self.pos() + 1])
            } else {
                None
            }),
    {
        if self.pos < self.chars.len() && self.pos + 1 < self.chars.len() {
            Some(self.chars[self.pos + 1])
        } else {
            None
        }
    }

    /// Reads the next character, if any, and moves past it.
    pub fn advance(&mut self) -> (r: Option<char>)
        requires
            old(self).wf(),
        ensures
            final(self).wf(),
            final(self).chars() == old(self).chars(),
            old(self).pos() < old(self).chars().len() ==> r == Some(old(self).chars()[old(
                self,
            ).pos()]) && final(self).pos() == old(self).pos() + 1,
            old(self).pos() >= old(self).chars().len() ==> r is None && final(self).pos() == old(
                self,
            ).pos(),
    {
        if self.pos < self.chars.len() {
            let c = self.chars[self.pos];
            self.pos += 1;
            Some(c)
        } else {
            None
        }
    }

    /// Reads the body of a string literal whose opening quote has been read.
    fn scan_string(&mut self) -> (r: String)
        requires
            old(self).wf(),
        ensures
            final(self).wf(),
            final(self).chars() == old(self).chars(),
            r@ == string_body(old(self).rest()).0,
            final(self).pos() == old(self).pos() + string_body(old(self).rest()).1,
    {
        let ghost start = self.pos;
        let ghost s0 = self.rest();
        let mut s = String::new();
        loop
            invariant_except_break
                string_body(s0).0 == s@ + string_body(self.rest()).0,
                string_body(s0).1 == (self.pos - start) + string_body(self.rest()).1,
            invariant
                self.wf(),
                self.chars@ == old(self).chars@,
                self.chars@.skip(start as int) == s0,
                start <= self.pos,
            ensures
                self.wf(),
                self.chars@ == old(self).chars@,
                string_body(s0).0 == s@,
                string_body(s0).1 == self.pos - start,
            decreases self.chars@.len() - self.pos,
        {
            let sc = match self.peek() {
                Some(sc) => sc,
                None => break,
            };
            let ghost r = self.rest();
            proof {
                assert(r[0] == sc);
                assert(r.drop_first() =~= self.chars@.skip(self.pos + 1));
                if r.len() >= 2 {
                    assert(r.skip(2) =~= self.chars@.skip(self.pos + 2));
                }
            }
            self.advance();
            if sc == '"' {
                break;
            }
            if sc == '\\' {
                match self.advance() {
                    Some(esc) => {
                        let e = if esc == 'n' {
                            '\n'
                        } else if esc == 'r' {
                            '\r'
                        } else if esc == 't' {
                            '\t'
                        } else {
                            esc
                        };
                        let ghost prev = s@;
                        push_char(&mut s, e);
                        proof {
                            assert(s@ + string_body(self.rest()).0 =~= prev + (seq![
                                escape_char(esc),
                            ] + string_body(self.rest()).0));
                        }
                    },
                    None => {},
                }
            } else {
                let ghost prev = s@;
                push_char(&mut s, sc);
                proof {
                    assert(s@ + string_body(self.rest()).0 =~= prev + (seq![sc] + string_body(
                        self.rest(),
                    ).0));
                }
            }
        }
        s
    }

    /// Reads a number literal; the next character is a digit.
    fn scan_number(&mut self) -> (r: Option<TokenType>)
        requires
            old(self).wf(),
            old(self).rest().len() > 0,
            is_digit(old(self).rest()[0]),
        ensures
            final(self).wf(),
            final(self).chars() == old(self).chars(),
            match number_token(old(self).rest()) {
                Some((t, n)) => r matches Some(tok) && tok@ == t && final(self).pos() == old(
                    self,
                ).pos() + n,
                None => r is None,
            },
    {
        let start = self.pos;
        let ghost s0 = self.rest();
        let mut value: i64 = 0;
        let mut overflow = false;
        proof {
            lemma_digit_run(s0);
            assert(self.chars@.subrange(start as int, start as int) =~= Seq::<char>::empty());
        }
        while self.pos < self.chars.len() && '0' <= self.chars[self.pos] && self.chars[self.pos]
            <= '9'
            invariant
                self.wf(),
                self.chars@ == old(self).chars@,
                self.chars@.skip(start as int) == s0,
                start <= self.pos,
                self.pos - start <= digit_run(s0),
                digit_run(s0) == (self.pos - start) + digit_run(self.rest()),
                !overflow ==> value == decimal_value(self.chars@.subrange(start as int, self.pos as int)),
                overflow <==> decimal_value(self.chars@.subrange(start as int, self.pos as int)) > i64::MAX,
            decreases self.chars@.len() - self.pos,
        {
            let c = self.chars[self.pos];
            let ghost prevs = self.chars@.subrange(start as int, self.pos as int);
            proof {
                let r = self.rest();
                assert(r[0] == c);
                assert(r.drop_first() =~= self.chars@.skip(self.pos + 1));
                let nexts = self.chars@.subrange(start as int, self.pos + 1);
                assert(nexts.drop_last() =~= prevs);
            }
            let d = (c as u32 - '0' as u32) as i64;
            if !overflow {
                match value.checked_mul(10) {
                    Some(v10) => match v10.checked_add(d) {
                        Some(v) => {
                            value = v;
                        },
                        None => {
                            overflow = true;
                        },
                    },
                    None => {
                        overflow = true;
                    },
                }
            }
            self.pos = self.pos + 1;
        }
        let int_end = self.pos;
        proof {
            assert(int_end - start == digit_run(s0));
            assert(self.chars@.subrange(start as int, int_end as int) =~= s0.take(
                digit_run(s0) as int,
            ));
        }
        if self.pos < self.chars.len() && self.pos + 1 < self.chars.len() && self.chars[self.pos] == '.' && '0'
            <= self.chars[self.pos + 1] && self.chars[self.pos + 1] <= '9' {
            proof {
                assert(has_fraction(s0));
                assert(s0.skip(digit_run(s0) + 1int) =~= self.chars@.skip(self.pos + 1));
                lemma_digit_run(s0.skip(digit_run(s0) + 1int));
            }
            self.pos = self.pos + 1;
            let frac_start = self.pos;
            let ghost f0 = self.rest();
            while self.pos < self.chars.len() && '0' <= self.chars[self.pos] && self.chars[self.pos]
                <= '9'
                invariant
                    self.wf(),
                    self.chars@ == old(self).chars@,
                    self.chars@.skip(frac_start as int) == f0,
                    frac_start <= self.pos,
                    digit_run(f0) == (self.pos - frac_start) + digit_run(self.rest()),
                decreases self.chars@.len() - self.pos,
            {
                proof {
                    let r = self.rest();
                    assert(r.drop_first() =~= self.chars@.skip(self.pos + 1));
                }
                self.pos = self.pos + 1;
            }
            let text = string_from_range(&self.chars, start, self.pos);
            proof {
                assert(self.chars@.subrange(start as int, self.pos as int) =~= s0.take(
                    number_len(s0) as int,
                ));
            }
            Some(TokenType::Number(text))
        } else {
            proof {
                assert(!has_fraction(s0));
            }
            if overflow {
                None
            } else {
                Some(TokenType::IntNumber(value))
            }
        }
    }

    /// Whether the characters `from..to` spell `word`.
    fn word_is(&self, from: usize, to: usize, word: &[char]) -> (b: bool)
        requires
            from <= to <= self.chars@.len(),
        ensures
            b == (self.chars@.subrange(from as int, to as int) == word@),
    {
        if to - from != word.len() {
            return false;
        }
        let mut i: usize = 0;
        while i < word.len()
            invariant
                from <= to <= self.chars@.len(),
                to - from == word@.len(),
                i <= word@.len(),
                forall|j: int| 0 <= j < i ==> self.chars@[from + j] == word@[j],
            decreases word.len() - i,
        {
            if self.chars[from + i] != word[i] {
                proof {
                    assert(self.chars@.subrange(from as int, to as int)[i as int] != word@[i as int]);
                }
                return false;
            }
            i = i + 1;
        }
        proof {
            assert(self.chars@.subrange(from as int, to as int) =~= word@);
        }
        true
    }

    /// The token of the word `from..to`: a keyword, or else an identifier.
    fn word_token_of(&self, from: usize, to: usize) -> (t: TokenType)
        requires
            from <= to <= self.chars@.len(),
        ensures
            t@ == word_token(self.chars@.subrange(from as int, to as int)),
    {
        if self.word_is(from, to, &['e', 'm', 'i', 't']) {
            TokenType::Emit
        } else if self.word_is(from, to, &['w', 'h', 'e', 'n']) {
            TokenType::When
        } else if self.word_is(from, to, &['o', 't', 'h', 'e', 'r', 'w', 'i', 's', 'e']) {
            TokenType::Otherwise
        } else if self.word_is(from, to, &['d', 'u', 'r', 'i', 'n', 'g']) {
            TokenType::During
        } else if self.word_is(from, to, &['p', 'r', 'o', 'c']) {
            TokenType::Proc
        } else if self.word_is(from, to, &['y', 'i', 'e', 'l', 'd']) {
            TokenType::Yield
        } else if self.word_is(from, to, &['l', 'a', 'y', 'o', 'u', 't']) {
            TokenType::Layout
        } else if self.word_is(from, to, &['s', 'l', 'o', 't']) {
            TokenType::Slot
        } else if self.word_is(from, to, &['c', 'l', 'a', 'i', 'm']) {
            TokenType::Claim
        } else if self.word_is(from, to, &['p', 'u', 'r', 'g', 'e']) {
            TokenType::Purge
        } else if self.word_is(from, to, &['y', 'e', 's']) {
            TokenType::Yes
        } else if self.word_is(from, to, &['n', 'o']) {
            TokenType::No
        } else if self.word_is(from, to, &['n', 'u', 'm']) {
            TokenType::TypeNum
        } else if self.word_is(from, to, &['i', 'n', 't']) {
            TokenType::TypeInt
        } else if self.word_is(from, to, &['f', 'l', 'a', 'g']) {
            TokenType::TypeFlag
        } else if self.word_is(from, to, &['t', 'e', 'x', 't']) {
            TokenType::TypeText
        } else if self.word_is(from, to, &['n', 'o', 'n', 'e']) {
            TokenType::TypeNone
        } else {
            TokenType::Identifier(string_from_range(&self.chars, from, to))
        }
    }

    /// Reads a word; the next character starts an identifier.
    fn scan_word(&mut self) -> (r: TokenType)
        requires
            old(self).wf(),
            old(self).rest().len() > 0,
            is_ident_start(old(self).rest()[0]),
        ensures
            final(self).wf(),
            final(self).chars() == old(self).chars(),
            r@ == word_at(old(self).rest()).0,
            final(self).pos() == old(self).pos() + word_at(old(self).rest()).1,
    {
        let start = self.pos;
        let ghost s0 = self.rest();
        self.pos = self.pos + 1;
        proof {
            assert(s0.drop_first() =~= self.chars@.skip(self.pos as int));
        }
        loop
            invariant
                self.wf(),
                self.chars@ == old(self).chars@,
                self.chars@.skip(start as int) == s0,
                start < self.pos,
                ident_run(s0.drop_first()) == (self.pos - start - 1) + ident_run(self.rest()),
            ensures
                self.wf(),
                self.chars@ == old(self).chars@,
                self.pos == start + 1 + ident_run(s0.drop_first()),
            decreases self.chars@.len() - self.pos,
        {
            if self.pos >= self.chars.len() {
                break;
            }
            let nc = self.chars[self.pos];
            let ghost r = self.rest();
            proof {
                assert(r[0] == nc);
                assert(r.drop_first() =~= self.chars@.skip(self.pos + 1));
            }
            if is_alphanumeric(nc) || nc == '_' {
                self.pos = self.pos + 1;
            } else {
                break;
            }
        }
        proof {
            assert(self.chars@.subrange(start as int, self.pos as int) =~= s0.take(
                word_at(s0).1 as int,
            ));
        }
        self.word_token_of(start, self.pos)
    }

    /// Reads the token at the cursor, which stands on a character.
    fn next_token(&mut self) -> (r: Option<TokenType>)
        requires
            old(self).wf(),
            old(self).rest().len() > 0,
        ensures
            final(self).wf(),
            final(self).chars() == old(self).chars(),
            match scan_token(old(self).rest()) {
                Some((t, n)) => r matches Some(tok) && tok@ == t && final(self).pos() == old(
                    self,
                ).pos() + n,
                None => r is None,
            },
    {
        let ghost s0 = self.rest();
        let c = self.chars[self.pos];
        proof {
            assert(s0[0] == c);
            if s0.len() > 1 {
                assert(s0[1] == self.chars@[self.pos + 1]);
            }
            assert(s0.drop_first() =~= self.chars@.skip(self.pos + 1));
        }
        match c {
            '(' => { self.advance(); Some(TokenType::LeftParen) },
            ')' => { self.advance(); Some(TokenType::RightParen) },
            '{' => { self.advance(); Some(TokenType::LeftBrace) },
            '}' => { self.advance(); Some(TokenType::RightBrace) },
            '[' => { self.advance(); Some(TokenType::LeftBracket) },
            ']' => { self.advance(); Some(TokenType::RightBracket) },
            ';' => { self.advance(); Some(TokenType::Semicolon) },
            ':' => { self.advance(); Some(TokenType::Colon) },
            ',' => { self.advance(); Some(TokenType::Comma) },
            '.' => { self.advance(); Some(TokenType::Dot) },
            '+' => { self.advance(); Some(TokenType::Plus) },
            '*' => { self.advance(); Some(TokenType::Star) },
            '/' => { self.advance(); Some(TokenType::Slash) },
            '%' => { self.advance(); Some(TokenType::Percent) },
            '&' => {
                self.advance();
                if self.peek() == Some('&') {
                    self.advance();
                    Some(TokenType::AmpAmp)
                } else {
                    Some(TokenType::Ampersand)
                }
            },
            '|' => {
                self.advance();
                if self.peek() == Some('|') {
                    self.advance();
                    Some(TokenType::PipePipe)
                } else {
                    None
                }
            },
            '!' => {
                self.advance();
                if self.peek() == Some('=') {
                    self.advance();
                    Some(TokenType::BangEqual)
                } else {
                    Some(TokenType::Bang)
                }
            },
            '=' => {
                self.advance();
                if self.peek() == Some('=') {
                    self.advance();
                    Some(TokenType::EqualEqual)
                } else {
                    Some(TokenType::Equal)
                }
            },
            '<' => {
                self.advance();
                if self.peek() == Some('=') {
                    self.advance();
                    Some(TokenType::LessEqual)
                } else {
                    Some(TokenType::Less)
                }
            },
            '>' => {
                self.advance();
                if self.peek() == Some('=') {
                    self.advance();
                    Some(TokenType::GreaterEqual)
                } else {
                    Some(TokenType::Greater)
                }
            },
            '-' => {
                self.advance();
                if self.peek() == Some('>') {
                    self.advance();
                    Some(TokenType::Arrow)
                } else {
                    Some(TokenType::Minus)
                }
            },
            '"' => {
                self.advance();
                let body = self.scan_string();
                Some(TokenType::StringLit(body))
            },
            '0'..='9' => self.scan_number(),
            'a'..='z' | 'A'..='Z' | '_' => Some(self.scan_word()),
            _ => None,
        }
    }

    /// The tokens of the characters not read yet, ending with `Eof`, or `None` where some
    /// character starts no token (a lone `|`, an integer literal too large for `i64`, or a
    /// character that starts no token). On success the cursor stands at the end.
    pub fn tokenize_checked(&mut self) -> (r: Option<Vec<TokenType>>)
        requires
            old(self).wf(),
        ensures
            final(self).wf(),
            final(self).chars() == old(self).chars(),
            match lex(old(self).rest()) {
                Some(ts) => r matches Some(v) && toks_view(v@) == ts && final(self).pos()
                    == final(self).chars().len() && final(self).rest().len() == 0,
                None => r is None,
            },
    {
        let ghost s0 = self.rest();
        let mut tokens: Vec<TokenType> = Vec::new();
        loop
            invariant
                self.wf(),
                self.chars@ == old(self).chars@,
                s0 == old(self).rest(),
                lex(s0) == prepend(toks_view(tokens@), lex(self.rest())),
            ensures
                self.wf(),
                self.chars@ == old(self).chars@,
                lex(s0) == prepend(toks_view(tokens@), Some(seq![Tok::Eof])),
                self.pos == self.chars@.len(),
            decreases self.chars@.len() - self.pos,
        {
            let ghost s = self.rest();
            self.skip_whitespace_and_comments();
            let ghost t = self.rest();
            proof {
                lemma_skip_len(s);
                assert(t =~= s.skip(skip_len(s) as int));
            }
            if self.pos >= self.chars.len() {
                break;
            }
            let ghost prev = tokens@;
            proof {
                lemma_scan_token_len(t);
            }
            match self.next_token() {
                Some(tok) => {
                    proof {
                        let (_, n) = scan_token(t)->0;
                        assert(t.skip(n as int) =~= self.rest());
                    }
                    tokens.push(tok);
                    proof {
                        assert(toks_view(tokens@) =~= toks_view(prev) + seq![tok@]);
                        assert(lex(s) == prepend(seq![tok@], lex(self.rest())));
                        match lex(self.rest()) {
                            Some(ts) => {
                                assert(toks_view(prev) + (seq![tok@] + ts) =~= toks_view(tokens@) + ts);
                            },
                            None => {},
                        }
                    }
                },
                None => {
                    proof {
                        assert(lex(s) is None);
                        assert(lex(s0) is None);
                    }
                    return None;
                },
            }
        }
        tokens.push(TokenType::Eof);
        proof {
            assert(toks_view(tokens@) =~= toks_view(tokens@.drop_last()) + seq![Tok::Eof]);
        }
        Some(tokens)
    }

    /// The tokens of the characters not read yet, ending with `Eof`. The source must lex (see
    /// `tokenize_checked` for a version that reports a failure).
    pub fn tokenize(&mut self) -> (r: Vec<TokenType>)
        requires
            old(self).wf(),
            lex(old(self).rest()) is Some,
        ensures
            final(self).wf(),
            final(self).chars() == old(self).chars(),
            toks_view(r@) == lex(old(self).rest())->0,
            final(self).pos() == final(self).chars().len(),
            final(self).rest().len() == 0,
    {
        self.tokenize_checked().unwrap()
    }

    /// Moves past the whitespace and line comments at the cursor.
    pub fn skip_whitespace_and_comments(&mut self)
        requires
            old(self).wf(),
        ensures
            final(self).wf(),
            final(self).chars() == old(self).chars(),
            final(self).pos() == old(self).pos() + skip_len(old(self).rest()),
            final(self).rest() == old(self).rest().skip(skip_len(old(self).rest()) as int),
            final(self).rest().len() == 0 || (!char_is_whitespace(final(self).rest()[0])
                && !starts_comment(final(self).rest())),
    {
        let ghost start = self.pos;
        let ghost s0 = self.rest();
        loop
            invariant
                self.wf(),
                self.chars@.skip(start as int) == s0,
                self.chars@ == old(self).chars@,
                start <= self.pos,
                skip_len(s0) == (self.pos - start) + skip_len(self.rest()),
            ensures
                self.wf(),
                self.chars@ == old(self).chars@,
                skip_len(s0) == self.pos - start,
            decreases self.chars@.len() - self.pos,
        {
            let c = match self.peek() {
                Some(c) => c,
                None => break,
            };
            let ghost s = self.rest();
            proof {
                assert(s[0] == c);
                assert(s.drop_first() =~= self.chars@.skip(self.pos + 1));
            }
            if is_whitespace(c) {
                self.advance();
            } else if c == '/' && self.peek_next() == Some('/') {
                let ghost cstart = self.pos;
                proof {
                    assert(starts_comment(s));
                    lemma_comment_len(s);
                    lemma_skip_len(s);
                }
                loop
                    invariant_except_break
                        comment_len(s) == (self.pos - cstart) + comment_len(self.rest()),
                    invariant
                        self.wf(),
                        self.chars@.skip(cstart as int) == s,
                        self.chars@ == old(self).chars@,
                        cstart <= self.pos,
                    ensures
                        self.wf(),
                        self.chars@.skip(cstart as int) == s,
                        self.chars@ == old(self).chars@,
                        comment_len(s) == self.pos - cstart,
                    decreases self.chars@.len() - self.pos,
                {
                    let nc = match self.peek() {
                        Some(nc) => nc,
                        None => break,
                    };
                    let ghost r = self.rest();
                    proof {
                        assert(r[0] == nc);
                        assert(r.drop_first() =~= self.chars@.skip(self.pos + 1));
                    }
                    self.advance();
                    if nc == '\n' {
                        break;
                    }
                }
                proof {
                    assert(self.chars@.skip(cstart as int).skip(comment_len(s) as int)
                        =~= self.rest());
                }
            } else {
                break;
            }
        }
    }
}

} // verus!
