//! The lexer: turns source text into tokens, skipping whitespace.
use vstd::prelude::*;
use crate::error::{Error, ErrorView};

verus! {

/// A token. An integer keeps its digits as written, without a sign: turning
/// them into an `i64` is the parser's work, so that the magnitude of
/// `i64::MIN` can be lexed too.
#[derive(Debug, Clone, PartialEq, Eq)]
pub enum Token {
    Integer(String),
    Bool(bool),
    Plus,
    Minus,
    Star,
    Less,
    If,
    Then,
    Else,
    LeftParen,
    RightParen,
}

/// The mathematical model of a [`Token`].
pub enum TokenView {
    Integer(Seq<char>),
    Bool(bool),
    Plus,
    Minus,
    Star,
    Less,
    If,
    Then,
    Else,
    LeftParen,
    RightParen,
}

impl View for Token {
    type V = TokenView;

    open spec fn view(&self) -> TokenView {
        match self {
            Token::Integer(s) => TokenView::Integer(s@),
            Token::Bool(b) => TokenView::Bool(*b),
            Token::Plus => TokenView::Plus,
            Token::Minus => TokenView::Minus,
            Token::Star => TokenView::Star,
            Token::Less => TokenView::Less,
            Token::If => TokenView::If,
            Token::Then => TokenView::Then,
            Token::Else => TokenView::Else,
            Token::LeftParen => TokenView::LeftParen,
            Token::RightParen => TokenView::RightParen,
        }
    }
}

/// The models of a sequence of tokens.
pub open spec fn tokens_view(ts: Seq<Token>) -> Seq<TokenView> {
    ts.map_values(|t: Token| t@)
}

/// Whether a character has Unicode's White_Space property, which
/// `char::is_whitespace` answers: the 25 code points U+0009–U+000D, U+0020,
/// U+0085, U+00A0, U+1680, U+2000–U+200A, U+2028, U+2029, U+202F, U+205F and
/// U+3000.
pub open spec fn white_space(c: char) -> bool {
    ||| '\u{9}' <= c <= '\u{d}'
    ||| c == ' '
    ||| c == '\u{85}'
    ||| c == '\u{a0}'
    ||| c == '\u{1680}'
    ||| '\u{2000}' <= c <= '\u{200a}'
    ||| c == '\u{2028}'
    ||| c == '\u{2029}'
    ||| c == '\u{202f}'
    ||| c == '\u{205f}'
    ||| c == '\u{3000}'
}

/// Whether a character beyond ASCII is Unicode alphabetic or numeric, as
/// `char::is_alphanumeric` answers.
pub uninterp spec fn non_ascii_alphanumeric(c: char) -> bool;

/// Whether a character is Unicode alphabetic or numeric: within ASCII the
/// letters and the digits are, and nothing else; beyond ASCII the named
/// property decides.
pub open spec fn alphanumeric(c: char) -> bool {
    if c <= '\u{7f}' {
        ('a' <= c <= 'z') || ('A' <= c <= 'Z') || ('0' <= c <= '9')
    } else {
        non_ascii_alphanumeric(c)
    }
}

/// Calls `char::is_whitespace`. Trusted to return whether the character has
/// the White_Space property, stated by `white_space`.
#[verifier::external_body]
fn is_whitespace(c: char) -> (r: bool)
    ensures
        r == white_space(c),
{
    c.is_whitespace()
}

/// Calls `char::is_alphanumeric`. Trusted to return whether the character is
/// alphabetic or numeric: within ASCII exactly the letters and digits, beyond
/// ASCII the Unicode properties, named `non_ascii_alphanumeric`, whose extent
/// is not stated.
#[verifier::external_body]
fn is_alphanumeric(c: char) -> (r: bool)
    ensures
        r == alphanumeric(c),
        c > '\u{7f}' ==> r == non_ascii_alphanumeric(c),
{
    c.is_alphanumeric()
}

/// `String::push` appends the character to the end of the string.
pub assume_specification[ String::push ](s: &mut String, ch: char)
    ensures
        final(s)@ == old(s)@.push(ch),
;

/// An ASCII decimal digit.
pub open spec fn is_digit(c: char) -> bool {
    '0' <= c <= '9'
}

/// A character that may start a word: an ASCII letter or `_`.
pub open spec fn is_word_start(c: char) -> bool {
    ('a' <= c <= 'z') || ('A' <= c <= 'Z') || c == '_'
}

/// A character that may continue a word: alphanumeric in Unicode's sense, or `_`.
pub open spec fn is_word_char(c: char) -> bool {
    alphanumeric(c) || c == '_'
}

/// The end of the run of digits that starts at `i`.
pub open spec fn digits_end(s: Seq<char>, i: int) -> int
    decreases s.len() - i,
{
    if 0 <= i < s.len() && is_digit(s[i]) {
        digits_end(s, i + 1)
    } else {
        i
    }
}

/// The end of the run of word characters that starts at `i`.
pub open spec fn word_end(s: Seq<char>, i: int) -> int
    decreases s.len() - i,
{
    if 0 <= i < s.len() && is_word_char(s[i]) {
        word_end(s, i + 1)
    } else {
        i
    }
}

/// The token a word stands for, if it is a keyword or a boolean literal.
pub open spec fn keyword(w: Seq<char>) -> Option<TokenView> {
    if w == "if"@ {
        Some(TokenView::If)
    } else if w == "then"@ {
        Some(TokenView::Then)
    } else if w == "else"@ {
        Some(TokenView::Else)
    } else if w == "true"@ {
        Some(TokenView::Bool(true))
    } else if w == "false"@ {
        Some(TokenView::Bool(false))
    } else {
        None
    }
}

/// The token a single symbol character stands for.
pub open spec fn symbol(c: char) -> Option<TokenView> {
    if c == '+' {
        Some(TokenView::Plus)
    } else if c == '-' {
        Some(TokenView::Minus)
    } else if c == '*' {
        Some(TokenView::Star)
    } else if c == '<' {
        Some(TokenView::Less)
    } else if c == '(' {
        Some(TokenView::LeftParen)
    } else if c == ')' {
        Some(TokenView::RightParen)
    } else {
        None
    }
}

/// Puts `prefix` in front of the tokens of a successful result.
pub open spec fn prepend(prefix: Seq<TokenView>, r: Result<Seq<TokenView>, ErrorView>) -> Result<
    Seq<TokenView>,
    ErrorView,
> {
    match r {
        Ok(rest) => Ok(prefix + rest),
        Err(e) => Err(e),
    }
}

/// A run of digits never ends before it starts, nor after the text.
pub proof fn lemma_digits_end_bounds(s: Seq<char>, i: int)
    requires
        0 <= i <= s.len(),
    ensures
        i <= digits_end(s, i) <= s.len(),
    decreases s.len() - i,
{
    if i < s.len() && is_digit(s[i]) {
        lemma_digits_end_bounds(s, i + 1);
    }
}

/// A run of word characters never ends before it starts, nor after the text.
pub proof fn lemma_word_end_bounds(s: Seq<char>, i: int)
    requires
        0 <= i <= s.len(),
    ensures
        i <= word_end(s, i) <= s.len(),
    decreases s.len() - i,
{
    if i < s.len() && is_word_char(s[i]) {
        lemma_word_end_bounds(s, i + 1);
    }
}

/// The tokens of `s` from position `i` on. Whitespace is skipped; a digit
/// starts an integer that takes every following digit; an ASCII letter or `_`
/// starts a word that takes every following alphanumeric character or `_`,
/// and the word must be a keyword or a boolean; the six symbols stand alone.
/// Anything else is an error, and the first error in the text is the one given.
pub open spec fn lex_from(s: Seq<char>, i: int) -> Result<Seq<TokenView>, ErrorView>
    decreases s.len() - i,
{
    if i < 0 || i >= s.len() {
        Ok(seq![])
    } else {
        let c = s[i];
        if white_space(c) {
            lex_from(s, i + 1)
        } else if is_digit(c) {
            let j = digits_end(s, i + 1);
            proof {
                lemma_digits_end_bounds(s, i + 1);
            }
            prepend(seq![TokenView::Integer(s.subrange(i, j))], lex_from(s, j))
        } else if is_word_start(c) {
            let j = word_end(s, i + 1);
            proof {
                lemma_word_end_bounds(s, i + 1);
            }
            let w = s.subrange(i, j);
            match keyword(w) {
                Some(t) => prepend(seq![t], lex_from(s, j)),
                None => Err(ErrorView::Lex("未知の単語: "@ + w)),
            }
        } else {
            match symbol(c) {
                Some(t) => prepend(seq![t], lex_from(s, i + 1)),
                None => Err(ErrorView::Lex("未知の文字: "@ + seq![c])),
            }
        }
    }
}

/// The tokens of a whole text.
pub open spec fn lex_spec(s: Seq<char>) -> Result<Seq<TokenView>, ErrorView> {
    lex_from(s, 0)
}

/// A lexer result taken by its model.
pub open spec fn lex_outcome(r: Result<Vec<Token>, Error>) -> Result<Seq<TokenView>, ErrorView> {
    match r {
        Ok(ts) => Ok(tokens_view(ts@)),
        Err(e) => Err(e@),
    }
}

/// The characters of a text, in order.
pub(crate) fn chars_of(source: &str) -> (v: Vec<char>)
    ensures
        v@ == source@,
{
    broadcast use vstd::string::group_string_axioms;

    let mut v: Vec<char> = Vec::new();
    for c in it: source.chars()
        invariant
            v.len() == it.index(),
            it.seq() == source@,
            forall|k: int| 0 <= k < v.len() ==> v@[k] == it.seq()[k],
    {
        v.push(c);
    }
    assert(v@ =~= source@);
    v
}

/// The characters `from..to` of `chars`, as a string.
fn string_of(chars: &Vec<char>, from: usize, to: usize) -> (s: String)
    requires
        from <= to <= chars.len(),
    ensures
        s@ == chars@.subrange(from as int, to as int),
{
    let mut s = String::new();
    let mut k = from;
    while k < to
        invariant
            from <= k <= to <= chars.len(),
            s@ == chars@.subrange(from as int, k as int),
        decreases to - k,
    {
        s.push(chars[k]);
        k += 1;
        assert(s@ =~= chars@.subrange(from as int, k as int));
    }
    s
}

/// Whether a character is an ASCII decimal digit, as `char::is_ascii_digit` answers.
pub(crate) fn is_ascii_digit(c: char) -> (r: bool)
    ensures
        r == is_digit(c),
{
    '0' <= c && c <= '9'
}

/// Skips whitespace and turns digit runs, keywords and symbols into tokens.
/// A sign is a token of its own. Succeeds, with the tokens `lex_spec` gives,
/// exactly when `lex_spec` succeeds, and fails with its error otherwise.
pub fn lex(source: &str) -> (r: Result<Vec<Token>, Error>)
    ensures
        lex_outcome(r) == lex_spec(source@),
{
    let chars = chars_of(source);
    let n = chars.len();
    let mut tokens: Vec<Token> = Vec::new();
    let mut i: usize = 0;
    while i < n
        invariant
            chars@ == source@,
            n == chars.len(),
            i <= n,
            lex_spec(chars@) == prepend(tokens_view(tokens@), lex_from(chars@, i as int)),
        decreases n - i,
    {
        let ghost s = chars@;
        let ghost before = tokens_view(tokens@);
        let c = chars[i];
        if is_whitespace(c) {
            i += 1;
        } else {
            let token;
            let mut end = i + 1;
            if is_ascii_digit(c) {
                while end < n && is_ascii_digit(chars[end])
                    invariant
                        chars@ == s,
                        n == chars.len(),
                        i < end <= n,
                        digits_end(s, i + 1) == digits_end(s, end as int),
                    decreases n - end,
                {
                    end += 1;
                }
                token = Token::Integer(string_of(&chars, i, end));
            } else if ('a' <= c && c <= 'z') || ('A' <= c && c <= 'Z') || c == '_' {
                while end < n && (is_alphanumeric(chars[end]) || chars[end] == '_')
                    invariant
                        chars@ == s,
                        n == chars.len(),
                        i < end <= n,
                        word_end(s, i + 1) == word_end(s, end as int),
                    decreases n - end,
                {
                    end += 1;
                }
                let word = string_of(&chars, i, end);
                if word == "if".to_owned() {
                    token = Token::If;
                } else if word == "then".to_owned() {
                    token = Token::Then;
                } else if word == "else".to_owned() {
                    token = Token::Else;
                } else if word == "true".to_owned() {
                    token = Token::Bool(true);
                } else if word == "false".to_owned() {
                    token = Token::Bool(false);
                } else {
                    let mut message = "未知の単語: ".to_owned();
                    message.append(word.as_str());
                    return Err(Error::Lex(message));
                }
            } else if c == '+' {
                token = Token::Plus;
            } else if c == '-' {
                token = Token::Minus;
            } else if c == '*' {
                token = Token::Star;
            } else if c == '<' {
                token = Token::Less;
            } else if c == '(' {
                token = Token::LeftParen;
            } else if c == ')' {
                token = Token::RightParen;
            } else {
                let mut message = "未知の文字: ".to_owned();
                message.push(c);
                assert(message@ =~= "未知の文字: "@ + seq![c]);
                return Err(Error::Lex(message));
            }
            tokens.push(token);
            proof {
                assert(tokens_view(tokens@) =~= before + seq![token@]);
                assert(before + (seq![token@] + lex_from(s, end as int)->Ok_0)
                    =~= before + seq![token@] + lex_from(s, end as int)->Ok_0);
            }
            i = end;
        }
    }
    assert(tokens_view(tokens@) + seq![] =~= tokens_view(tokens@));
    Ok(tokens)
}


/// Text made of whitespace only, the empty text included, has no tokens.
pub proof fn lemma_blank_text_has_no_tokens(s: Seq<char>)
    requires
        forall|k: int| 0 <= k < s.len() ==> white_space(#[trigger] s[k]),
    ensures
        lex_spec(s) == Ok::<Seq<TokenView>, ErrorView>(seq![]),
{
    lemma_blank_from(s, 0);
}

/// The whitespace-only tail of a text from `i` on has no tokens.
proof fn lemma_blank_from(s: Seq<char>, i: int)
    requires
        0 <= i,
        forall|k: int| 0 <= k < s.len() ==> white_space(#[trigger] s[k]),
    ensures
        lex_from(s, i) == Ok::<Seq<TokenView>, ErrorView>(seq![]),
    decreases s.len() - i,
{
    if i < s.len() {
        assert(white_space(s[i]));
        lemma_blank_from(s, i + 1);
    }
}


/// A run of digits in the tail `s` of a text `p + s` ends where it ends in `s`.
proof fn lemma_digits_end_shift(p: Seq<char>, s: Seq<char>, j: int)
    requires
        0 <= j <= s.len(),
    ensures
        digits_end(p + s, p.len() + j) == p.len() + digits_end(s, j),
    decreases s.len() - j,
{
    if j < s.len() {
        assert((p + s)[p.len() + j] == s[j]);
        lemma_digits_end_shift(p, s, j + 1);
    }
}

/// A run of word characters in the tail `s` of a text `p + s` ends where it
/// ends in `s`.
proof fn lemma_word_end_shift(p: Seq<char>, s: Seq<char>, j: int)
    requires
        0 <= j <= s.len(),
    ensures
        word_end(p + s, p.len() + j) == p.len() + word_end(s, j),
    decreases s.len() - j,
{
    if j < s.len() {
        assert((p + s)[p.len() + j] == s[j]);
        lemma_word_end_shift(p, s, j + 1);
    }
}

/// Lexing the tail `s` of a text `p + s` does not look back at `p`.
proof fn lemma_lex_shift(p: Seq<char>, s: Seq<char>, j: int)
    requires
        0 <= j,
    ensures
        lex_from(p + s, p.len() + j) == lex_from(s, j),
    decreases s.len() - j,
{
    let t = p + s;
    let k = p.len() + j;
    if j < s.len() {
        let c = s[j];
        assert(t[k] == c);
        if white_space(c) {
            lemma_lex_shift(p, s, j + 1);
        } else if is_digit(c) {
            lemma_digits_end_bounds(s, j + 1);
            lemma_digits_end_shift(p, s, j + 1);
            let e = digits_end(s, j + 1);
            assert(t.subrange(k, p.len() + e) =~= s.subrange(j, e));
            lemma_lex_shift(p, s, e);
        } else if is_word_start(c) {
            lemma_word_end_bounds(s, j + 1);
            lemma_word_end_shift(p, s, j + 1);
            let e = word_end(s, j + 1);
            assert(t.subrange(k, p.len() + e) =~= s.subrange(j, e));
            lemma_lex_shift(p, s, e);
        } else {
            lemma_lex_shift(p, s, j + 1);
        }
    }
}

/// The tokens of a text followed by the result of lexing what comes after a
/// separating space: the first error, if any, wins.
pub open spec fn then_lex(
    first: Result<Seq<TokenView>, ErrorView>,
    second: Result<Seq<TokenView>, ErrorView>,
) -> Result<Seq<TokenView>, ErrorView> {
    match first {
        Err(x) => Err(x),
        Ok(a) => prepend(a, second),
    }
}

/// In `s1 + " " + s2`, a run of digits that starts in `s1` ends where it ends in `s1`.
proof fn lemma_digits_end_before_space(s1: Seq<char>, s2: Seq<char>, k: int)
    requires
        0 <= k <= s1.len(),
    ensures
        digits_end(s1 + seq![' '] + s2, k) == digits_end(s1, k),
    decreases s1.len() - k,
{
    let t = s1 + seq![' '] + s2;
    if k < s1.len() {
        assert(t[k] == s1[k]);
        lemma_digits_end_before_space(s1, s2, k + 1);
    } else {
        assert(t[k] == ' ');
    }
}

/// In `s1 + " " + s2`, a run of word characters that starts in `s1` ends where
/// it ends in `s1`.
proof fn lemma_word_end_before_space(s1: Seq<char>, s2: Seq<char>, k: int)
    requires
        0 <= k <= s1.len(),
    ensures
        word_end(s1 + seq![' '] + s2, k) == word_end(s1, k),
    decreases s1.len() - k,
{
    let t = s1 + seq![' '] + s2;
    if k < s1.len() {
        assert(t[k] == s1[k]);
        lemma_word_end_before_space(s1, s2, k + 1);
    } else {
        assert(t[k] == ' ');
    }
}

/// `then_lex` after a token in front is that token in front of `then_lex`.
proof fn lemma_then_lex_prepend(
    x: Seq<TokenView>,
    r: Result<Seq<TokenView>, ErrorView>,
    second: Result<Seq<TokenView>, ErrorView>,
)
    ensures
        then_lex(prepend(x, r), second) == prepend(x, then_lex(r, second)),
{
    if let Ok(a) = r {
        if let Ok(b) = second {
            assert((x + a) + b =~= x + (a + b));
        }
    }
}

/// Lexing `s1 + " " + s2` from a position `i` in `s1`.
proof fn lemma_lex_join_from(s1: Seq<char>, s2: Seq<char>, i: int)
    requires
        0 <= i <= s1.len(),
    ensures
        lex_from(s1 + seq![' '] + s2, i) == then_lex(lex_from(s1, i), lex_spec(s2)),
    decreases s1.len() - i,
{
    let t = s1 + seq![' '] + s2;
    let rest = lex_spec(s2);
    if i == s1.len() {
        assert(t[i] == ' ');
        assert(white_space(' '));
        lemma_lex_shift(s1 + seq![' '], s2, 0);
        assert(lex_from(t, i) == lex_from(t, i + 1));
        if let Ok(b) = rest {
            assert(Seq::<TokenView>::empty() + b =~= b);
        }
    } else {
        let c = s1[i];
        assert(t[i] == c);
        if white_space(c) {
            lemma_lex_join_from(s1, s2, i + 1);
        } else if is_digit(c) {
            lemma_digits_end_bounds(s1, i + 1);
            lemma_digits_end_before_space(s1, s2, i + 1);
            let e = digits_end(s1, i + 1);
            assert(t.subrange(i, e) =~= s1.subrange(i, e));
            lemma_lex_join_from(s1, s2, e);
            lemma_then_lex_prepend(seq![TokenView::Integer(s1.subrange(i, e))], lex_from(s1, e), rest);
        } else if is_word_start(c) {
            lemma_word_end_bounds(s1, i + 1);
            lemma_word_end_before_space(s1, s2, i + 1);
            let e = word_end(s1, i + 1);
            assert(t.subrange(i, e) =~= s1.subrange(i, e));
            lemma_lex_join_from(s1, s2, e);
            if let Some(tok) = keyword(s1.subrange(i, e)) {
                lemma_then_lex_prepend(seq![tok], lex_from(s1, e), rest);
            }
        } else {
            lemma_lex_join_from(s1, s2, i + 1);
            if let Some(tok) = symbol(c) {
                lemma_then_lex_prepend(seq![tok], lex_from(s1, i + 1), rest);
            }
        }
    }
}

/// Lexing two texts joined by a space gives the tokens of the first and then
/// those of the second; an error in the first text wins over one in the second.
pub proof fn lemma_lex_join(s1: Seq<char>, s2: Seq<char>)
    ensures
        lex_spec(s1 + seq![' '] + s2) == then_lex(lex_spec(s1), lex_spec(s2)),
{
    lemma_lex_join_from(s1, s2, 0);
}


/// How a token is written in source text: an integer by its digits, the
/// others by their keyword or symbol.
pub open spec fn token_source(t: TokenView) -> Seq<char> {
    match t {
        TokenView::Integer(d) => d,
        TokenView::Bool(b) => if b {
            "true"@
        } else {
            "false"@
        },
        TokenView::Plus => "+"@,
        TokenView::Minus => "-"@,
        TokenView::Star => "*"@,
        TokenView::Less => "<"@,
        TokenView::If => "if"@,
        TokenView::Then => "then"@,
        TokenView::Else => "else"@,
        TokenView::LeftParen => "("@,
        TokenView::RightParen => ")"@,
    }
}

/// A sequence of tokens written out, one space between each two.
pub open spec fn spaced_source(ts: Seq<TokenView>) -> Seq<char>
    decreases ts.len(),
{
    if ts.len() == 0 {
        seq![]
    } else if ts.len() == 1 {
        token_source(ts[0])
    } else {
        spaced_source(ts.drop_last()) + seq![' '] + token_source(ts.last())
    }
}

/// A token that the lexer can give: an integer's digits are a non-empty run
/// of ASCII digits.
pub open spec fn lexable(t: TokenView) -> bool {
    t matches TokenView::Integer(d) ==> d.len() > 0 && forall|k: int|
        0 <= k < d.len() ==> is_digit(#[trigger] d[k])
}

/// A run of ASCII digits lasts to the end of a text made of digits only.
proof fn lemma_digits_end_all(d: Seq<char>, k: int)
    requires
        0 <= k <= d.len(),
        forall|j: int| 0 <= j < d.len() ==> is_digit(#[trigger] d[j]),
    ensures
        digits_end(d, k) == d.len(),
    decreases d.len() - k,
{
    if k < d.len() {
        assert(is_digit(d[k]));
        lemma_digits_end_all(d, k + 1);
    }
}

/// A keyword written alone lexes to its token.
proof fn lemma_lex_word(w: Seq<char>, t: TokenView)
    requires
        w.len() > 0,
        forall|k: int| 0 <= k < w.len() ==> 'a' <= #[trigger] w[k] <= 'z',
        keyword(w) == Some(t),
    ensures
        lex_spec(w) == Ok::<Seq<TokenView>, ErrorView>(seq![t]),
{
    assert('a' <= w[0] <= 'z');
    assert forall|k: int| 1 <= k <= w.len() implies word_end(w, k) == w.len() by {
        lemma_word_end_letters(w, k);
    }
    assert(w.subrange(0, w.len() as int) =~= w);
    assert(!white_space(w[0]));
    assert(lex_from(w, w.len() as int) == Ok::<Seq<TokenView>, ErrorView>(seq![]));
    assert(lex_from(w, 0) == prepend(seq![t], lex_from(w, w.len() as int)));
    assert(seq![t] + Seq::<TokenView>::empty() =~= seq![t]);
}

/// A run of word characters lasts to the end of a text made of ASCII letters.
proof fn lemma_word_end_letters(w: Seq<char>, k: int)
    requires
        0 <= k <= w.len(),
        forall|j: int| 0 <= j < w.len() ==> 'a' <= #[trigger] w[j] <= 'z',
    ensures
        word_end(w, k) == w.len(),
    decreases w.len() - k,
{
    if k < w.len() {
        assert('a' <= w[k] <= 'z');
        lemma_word_end_letters(w, k + 1);
    }
}

/// A symbol written alone lexes to its token.
proof fn lemma_lex_symbol(s: Seq<char>, t: TokenView)
    requires
        s.len() == 1,
        !white_space(s[0]),
        !is_digit(s[0]),
        !is_word_start(s[0]),
        symbol(s[0]) == Some(t),
    ensures
        lex_spec(s) == Ok::<Seq<TokenView>, ErrorView>(seq![t]),
{
    assert(lex_from(s, 1) == Ok::<Seq<TokenView>, ErrorView>(seq![]));
    assert(lex_from(s, 0) == prepend(seq![t], lex_from(s, 1)));
    assert(seq![t] + Seq::<TokenView>::empty() =~= seq![t]);
}

/// A lexable token written alone lexes to itself.
proof fn lemma_lex_token_source(t: TokenView)
    requires
        lexable(t),
    ensures
        lex_spec(token_source(t)) == Ok::<Seq<TokenView>, ErrorView>(seq![t]),
{
    reveal_strlit("true");
    reveal_strlit("false");
    reveal_strlit("if");
    reveal_strlit("then");
    reveal_strlit("else");
    reveal_strlit("+");
    reveal_strlit("-");
    reveal_strlit("*");
    reveal_strlit("<");
    reveal_strlit("(");
    reveal_strlit(")");
    let s = token_source(t);
    match t {
        TokenView::Integer(d) => {
            assert(is_digit(d[0]));
            lemma_digits_end_all(d, 1);
            assert(d.subrange(0, d.len() as int) =~= d);
            assert(!white_space(d[0]));
            assert(lex_from(d, d.len() as int) == Ok::<Seq<TokenView>, ErrorView>(seq![]));
            assert(lex_from(d, 0) == prepend(seq![t], lex_from(d, d.len() as int)));
            assert(seq![t] + Seq::<TokenView>::empty() =~= seq![t]);
        },
        TokenView::Bool(b) => {
            if b {
                assert(s =~= seq!['t', 'r', 'u', 'e']);
            } else {
                assert(s =~= seq!['f', 'a', 'l', 's', 'e']);
            }
            lemma_lex_word(s, t);
        },
        TokenView::If => {
            assert(s =~= seq!['i', 'f']);
            lemma_lex_word(s, t);
        },
        TokenView::Then => {
            assert(s =~= seq!['t', 'h', 'e', 'n']);
            lemma_lex_word(s, t);
        },
        TokenView::Else => {
            assert(s =~= seq!['e', 'l', 's', 'e']);
            lemma_lex_word(s, t);
        },
        _ => {
            lemma_lex_symbol(s, t);
        },
    }
}

/// Tokens written out with one space between each two lex back to themselves.
pub proof fn lemma_spaced_tokens_lex_back(ts: Seq<TokenView>)
    requires
        forall|k: int| 0 <= k < ts.len() ==> lexable(#[trigger] ts[k]),
    ensures
        lex_spec(spaced_source(ts)) == Ok::<Seq<TokenView>, ErrorView>(ts),
    decreases ts.len(),
{
    if ts.len() == 0 {
        assert(lex_spec(seq![]) == Ok::<Seq<TokenView>, ErrorView>(seq![]));
        assert(ts =~= seq![]);
    } else if ts.len() == 1 {
        assert(lexable(ts[0]));
        lemma_lex_token_source(ts[0]);
        assert(ts =~= seq![ts[0]]);
    } else {
        let init = ts.drop_last();
        assert forall|k: int| 0 <= k < init.len() implies lexable(#[trigger] init[k]) by {
            assert(init[k] == ts[k]);
        }
        lemma_spaced_tokens_lex_back(init);
        assert(lexable(ts[ts.len() - 1]));
        lemma_lex_token_source(ts.last());
        lemma_lex_join(spaced_source(init), token_source(ts.last()));
        assert(init + seq![ts.last()] =~= ts);
    }
}


/// Every symbol character lexes to its own token, whatever follows it.
pub proof fn lemma_symbol_is_a_token(s: Seq<char>, i: int)
    requires
        0 <= i < s.len(),
    ensures
        s[i] == '+' ==> lex_from(s, i) == prepend(seq![TokenView::Plus], lex_from(s, i + 1)),
        s[i] == '-' ==> lex_from(s, i) == prepend(seq![TokenView::Minus], lex_from(s, i + 1)),
        s[i] == '*' ==> lex_from(s, i) == prepend(seq![TokenView::Star], lex_from(s, i + 1)),
        s[i] == '<' ==> lex_from(s, i) == prepend(seq![TokenView::Less], lex_from(s, i + 1)),
        s[i] == '(' ==> lex_from(s, i) == prepend(seq![TokenView::LeftParen], lex_from(s, i + 1)),
        s[i] == ')' ==> lex_from(s, i) == prepend(
            seq![TokenView::RightParen],
            lex_from(s, i + 1),
        ),
{
}

/// A run of digits from `k` that stops at a non-digit at `end` ends there.
proof fn lemma_digits_end_at(t: Seq<char>, k: int, end: int)
    requires
        0 <= k <= end < t.len(),
        forall|j: int| k <= j < end ==> is_digit(#[trigger] t[j]),
        !is_digit(t[end]),
    ensures
        digits_end(t, k) == end,
    decreases end - k,
{
    if k < end {
        lemma_digits_end_at(t, k + 1, end);
    }
}

/// The symbol token of a symbol character, as a table.
pub open spec fn symbol_token(c: char) -> TokenView {
    if c == '+' {
        TokenView::Plus
    } else if c == '-' {
        TokenView::Minus
    } else if c == '*' {
        TokenView::Star
    } else if c == '<' {
        TokenView::Less
    } else if c == '(' {
        TokenView::LeftParen
    } else {
        TokenView::RightParen
    }
}

/// Symbols need no spaces around them: two integers written with a symbol
/// between them and no whitespace lex to the integer, the symbol and the integer.
pub proof fn lemma_symbol_between_integers(a: Seq<char>, c: char, b: Seq<char>)
    requires
        a.len() > 0,
        forall|k: int| 0 <= k < a.len() ==> is_digit(#[trigger] a[k]),
        b.len() > 0,
        forall|k: int| 0 <= k < b.len() ==> is_digit(#[trigger] b[k]),
        c == '+' || c == '-' || c == '*' || c == '<' || c == '(' || c == ')',
    ensures
        lex_spec(a + seq![c] + b) == Ok::<Seq<TokenView>, ErrorView>(
            seq![TokenView::Integer(a), symbol_token(c), TokenView::Integer(b)],
        ),
{
    let t = a + seq![c] + b;
    let n = a.len() as int;
    assert forall|j: int| 1 <= j < n implies is_digit(#[trigger] t[j]) by {
        assert(t[j] == a[j]);
    }
    assert(t[0] == a[0]);
    assert(is_digit(a[0]));
    assert(t[n] == c);
    lemma_digits_end_at(t, 1, n);
    assert(t.subrange(0, n) =~= a);
    lemma_lex_shift(a + seq![c], b, 0);
    assert((a + seq![c]).len() == n + 1);
    lemma_lex_token_source(TokenView::Integer(b));
    assert(lex_from(t, n + 1) == Ok::<Seq<TokenView>, ErrorView>(seq![TokenView::Integer(b)]));
    assert(lex_from(t, n) == prepend(seq![symbol_token(c)], lex_from(t, n + 1)));
    assert(seq![symbol_token(c)] + seq![TokenView::Integer(b)] =~= seq![
        symbol_token(c),
        TokenView::Integer(b),
    ]);
    assert(seq![TokenView::Integer(a)] + seq![symbol_token(c), TokenView::Integer(b)] =~= seq![
        TokenView::Integer(a),
        symbol_token(c),
        TokenView::Integer(b),
    ]);
}

/// Whitespace in front of a text changes nothing.
pub proof fn lemma_leading_whitespace_skipped(w: char, s: Seq<char>)
    requires
        white_space(w),
    ensures
        lex_spec(seq![w] + s) == lex_spec(s),
{
    lemma_lex_shift(seq![w], s, 0);
    assert((seq![w] + s)[0] == w);
}

/// A text that starts with a character that is neither whitespace, a digit,
/// the start of a word nor a symbol is an error that names the character,
/// whatever follows.
pub proof fn lemma_unknown_character(c: char, s: Seq<char>)
    requires
        !white_space(c),
        !('0' <= c <= '9'),
        !(('a' <= c <= 'z') || ('A' <= c <= 'Z') || c == '_'),
        c != '+' && c != '-' && c != '*' && c != '<' && c != '(' && c != ')',
    ensures
        lex_spec(seq![c] + s) == Err::<Seq<TokenView>, ErrorView>(
            ErrorView::Lex("未知の文字: "@ + seq![c]),
        ),
{
    assert((seq![c] + s)[0] == c);
}

/// A word of lowercase ASCII letters that is no keyword and no boolean is an
/// error that names the word.
pub proof fn lemma_unknown_word(w: Seq<char>)
    requires
        w.len() > 0,
        forall|k: int| 0 <= k < w.len() ==> 'a' <= #[trigger] w[k] <= 'z',
        w != "if"@ && w != "then"@ && w != "else"@ && w != "true"@ && w != "false"@,
    ensures
        lex_spec(w) == Err::<Seq<TokenView>, ErrorView>(ErrorView::Lex("未知の単語: "@ + w)),
{
    assert('a' <= w[0] <= 'z');
    lemma_word_end_letters(w, 1);
    assert(w.subrange(0, w.len() as int) =~= w);
}


/// Whitespace anywhere in a text is skipped.
pub proof fn lemma_whitespace_is_skipped(s: Seq<char>, i: int)
    requires
        0 <= i < s.len(),
        white_space(s[i]),
    ensures
        lex_from(s, i) == lex_from(s, i + 1),
{
}

/// A run of digits from `k` that stops at position `end`, at the end of the
/// text or before a non-digit, ends there.
proof fn lemma_digits_end_is(s: Seq<char>, k: int, end: int)
    requires
        0 <= k <= end <= s.len(),
        forall|j: int| k <= j < end ==> '0' <= #[trigger] s[j] <= '9',
        end < s.len() ==> !('0' <= s[end] <= '9'),
    ensures
        digits_end(s, k) == end,
    decreases end - k,
{
    if k < end {
        lemma_digits_end_is(s, k + 1, end);
    }
}

/// A run of word characters from `k` that stops at position `end`, at the end
/// of the text or before a character that cannot continue a word, ends there.
proof fn lemma_word_end_is(s: Seq<char>, k: int, end: int)
    requires
        0 <= k <= end <= s.len(),
        forall|j: int| k <= j < end ==> is_word_char(#[trigger] s[j]),
        end < s.len() ==> !is_word_char(s[end]),
    ensures
        word_end(s, k) == end,
    decreases end - k,
{
    if k < end {
        lemma_word_end_is(s, k + 1, end);
    }
}

/// An integer token takes the whole run of digits: when `s[i..j]` are digits
/// and no digit follows, the tokens from `i` are the integer `s[i..j]` and
/// then the tokens from `j`.
pub proof fn lemma_integer_takes_all_digits(s: Seq<char>, i: int, j: int)
    requires
        0 <= i < j <= s.len(),
        forall|k: int| i <= k < j ==> '0' <= #[trigger] s[k] <= '9',
        j < s.len() ==> !('0' <= s[j] <= '9'),
    ensures
        lex_from(s, i) == prepend(seq![TokenView::Integer(s.subrange(i, j))], lex_from(s, j)),
{
    assert('0' <= s[i] <= '9');
    lemma_digits_end_is(s, i + 1, j);
}

/// A word takes every following letter, digit or `_`: when `s[i..j]` is such
/// a word and no word character follows, the tokens from `i` are the word's
/// keyword or boolean and then the tokens from `j`; any other word is an
/// error that names it.
pub proof fn lemma_word_takes_all_word_characters(s: Seq<char>, i: int, j: int)
    requires
        0 <= i < j <= s.len(),
        ('a' <= s[i] <= 'z') || ('A' <= s[i] <= 'Z') || s[i] == '_',
        forall|k: int| i < k < j ==> alphanumeric(#[trigger] s[k]) || s[k] == '_',
        j < s.len() ==> !(alphanumeric(s[j]) || s[j] == '_'),
    ensures
        ({
            let w = s.subrange(i, j);
            let rest = lex_from(s, j);
            &&& w == "if"@ ==> lex_from(s, i) == prepend(seq![TokenView::If], rest)
            &&& w == "then"@ ==> lex_from(s, i) == prepend(seq![TokenView::Then], rest)
            &&& w == "else"@ ==> lex_from(s, i) == prepend(seq![TokenView::Else], rest)
            &&& w == "true"@ ==> lex_from(s, i) == prepend(seq![TokenView::Bool(true)], rest)
            &&& w == "false"@ ==> lex_from(s, i) == prepend(seq![TokenView::Bool(false)], rest)
            &&& (w != "if"@ && w != "then"@ && w != "else"@ && w != "true"@ && w != "false"@)
                ==> lex_from(s, i) == Err::<Seq<TokenView>, ErrorView>(
                ErrorView::Lex("未知の単語: "@ + w),
            )
        }),
{
    reveal_strlit("if");
    reveal_strlit("then");
    reveal_strlit("else");
    reveal_strlit("true");
    reveal_strlit("false");
    assert(!white_space(s[i]));
    assert(!is_digit(s[i]));
    assert forall|k: int| i + 1 <= k < j implies is_word_char(#[trigger] s[k]) by {}
    lemma_word_end_is(s, i + 1, j);
    let w = s.subrange(i, j);
    assert(lex_from(s, i) == match keyword(w) {
        Some(t) => prepend(seq![t], lex_from(s, j)),
        None => Err(ErrorView::Lex("未知の単語: "@ + w)),
    });
    assert("if"@ =~= seq!['i', 'f']);
    assert("then"@ =~= seq!['t', 'h', 'e', 'n']);
    assert("else"@ =~= seq!['e', 'l', 's', 'e']);
    assert("true"@ =~= seq!['t', 'r', 'u', 'e']);
    assert("false"@ =~= seq!['f', 'a', 'l', 's', 'e']);
    assert("then"@[0] != "else"@[0] && "true"@[1] != "then"@[1] && "true"@[0] != "else"@[0]);
}

} // verus!
