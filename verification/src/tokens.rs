//! The tokenizer: raw definition text to a flat sequence of lexical tokens.

use vstd::prelude::*;

verus! {

/// A punctuation mark of the definition grammar.
#[derive(PartialEq, Eq, Structural, Clone, Copy, Debug)]
pub enum Symbol {
    /// `{`
    OpenCurlyBrace,
    /// `}`
    CloseCurlyBrace,
    /// `[`
    OpenBrace,
    /// `]`
    CloseBrace,
    /// `,`
    Comma,
    /// `:`
    Colon,
}

/// A lexical unit of definition text.
pub enum Token {
    /// A literal identifier (a field name or an enum variant tag).
    Identifier(String),
    /// A string literal's contents, quotes stripped.
    Strg(String),
    /// An integer literal.
    Integer(i64),
    /// A decimal literal, kept as its digit text (digits and one period).
    Decimal(String),
    /// A punctuation mark.
    Punctuation(Symbol),
}

/// Specification-level token: the model of [`Token`].
pub enum Tok {
    /// A literal identifier.
    Identifier(Seq<char>),
    /// A string literal's contents.
    Strg(Seq<char>),
    /// An integer literal.
    Integer(int),
    /// A decimal literal's digit text.
    Decimal(Seq<char>),
    /// A punctuation mark.
    Punctuation(Symbol),
}

impl View for Token {
    type V = Tok;

    open spec fn view(&self) -> Tok {
        match *self {
            Token::Identifier(s) => Tok::Identifier(s@),
            Token::Strg(s) => Tok::Strg(s@),
            Token::Integer(n) => Tok::Integer(n as int),
            Token::Decimal(s) => Tok::Decimal(s@),
            Token::Punctuation(sym) => Tok::Punctuation(sym),
        }
    }
}

/// The model of a token vector, token by token.
pub open spec fn toks_model(tokens: Seq<Token>) -> Seq<Tok> {
    tokens.map(|i: int, t: Token| t@)
}

/// An error of the tokenizer or the parser, with the place it stopped at:
/// a character position for the tokenizer, a token index for the parser.
#[derive(Debug)]
pub struct ParseError {
    /// A human-readable description of the error.
    pub message: &'static str,
    /// Where the error occurred.
    pub index: usize,
}

/// Result type of the tokenizer and the parser.
pub type ParseResult<T> = Result<T, ParseError>;

impl Symbol {
    /// The punctuation mark a character stands for, if any.
    pub fn from_char(ch: char) -> (r: Option<Symbol>)
        ensures
            r == spec_symbol_of(ch),
    {
        match ch {
            '{' => Some(Symbol::OpenCurlyBrace),
            '}' => Some(Symbol::CloseCurlyBrace),
            '[' => Some(Symbol::OpenBrace),
            ']' => Some(Symbol::CloseBrace),
            ',' => Some(Symbol::Comma),
            ':' => Some(Symbol::Colon),
            _ => None,
        }
    }
}

/// The punctuation mark a character stands for, if any.
pub open spec fn spec_symbol_of(ch: char) -> Option<Symbol> {
    if ch == '{' {
        Some(Symbol::OpenCurlyBrace)
    } else if ch == '}' {
        Some(Symbol::CloseCurlyBrace)
    } else if ch == '[' {
        Some(Symbol::OpenBrace)
    } else if ch == ']' {
        Some(Symbol::CloseBrace)
    } else if ch == ',' {
        Some(Symbol::Comma)
    } else if ch == ':' {
        Some(Symbol::Colon)
    } else {
        None
    }
}

/// Whitespace skipped between tokens: the Unicode white-space characters.
pub open spec fn spec_is_ws(c: char) -> bool {
    ||| c == '\u{0009}'
    ||| c == '\u{000A}'
    ||| c == '\u{000B}'
    ||| c == '\u{000C}'
    ||| c == '\u{000D}'
    ||| c == ' '
    ||| c == '\u{0085}'
    ||| c == '\u{00A0}'
    ||| c == '\u{1680}'
    ||| ('\u{2000}' <= c && c <= '\u{200A}')
    ||| c == '\u{2028}'
    ||| c == '\u{2029}'
    ||| c == '\u{202F}'
    ||| c == '\u{205F}'
    ||| c == '\u{3000}'
}

/// A decimal digit.
pub open spec fn spec_is_digit(c: char) -> bool {
    '0' <= c && c <= '9'
}

/// A letter, as a token's leading character.
pub open spec fn spec_is_alpha(c: char) -> bool {
    ('a' <= c && c <= 'z') || ('A' <= c && c <= 'Z')
}

/// A character that may continue an identifier.
pub open spec fn spec_is_ident_char(c: char) -> bool {
    spec_is_alpha(c) || spec_is_digit(c) || c == '_'
}

/// A character that may continue a number literal.
pub open spec fn spec_is_number_char(c: char) -> bool {
    spec_is_digit(c) || c == '.'
}

/// First position at or after `i` that cannot continue a number literal.
pub open spec fn number_end(s: Seq<char>, i: nat) -> nat
    decreases s.len() - i,
{
    if i < s.len() && spec_is_number_char(s[i as int]) {
        number_end(s, i + 1)
    } else {
        i
    }
}

/// First position at or after `i` that cannot continue an identifier.
pub open spec fn ident_end(s: Seq<char>, i: nat) -> nat
    decreases s.len() - i,
{
    if i < s.len() && spec_is_ident_char(s[i as int]) {
        ident_end(s, i + 1)
    } else {
        i
    }
}

/// First position at or after `i` holding a closing quote; the text's
/// length when there is none.
pub open spec fn string_end(s: Seq<char>, i: nat) -> nat
    decreases s.len() - i,
{
    if i < s.len() {
        if s[i as int] == '"' {
            i
        } else {
            string_end(s, i + 1)
        }
    } else {
        i
    }
}

/// Number of periods in a scanned number literal.
pub open spec fn dot_count(text: Seq<char>) -> nat
    decreases text,
{
    if text.len() == 0 {
        0
    } else {
        dot_count(text.drop_last()) + if text.last() == '.' {
            1nat
        } else {
            0nat
        }
    }
}

/// Value of a sequence of decimal digits.
pub open spec fn digits_value(text: Seq<char>) -> int
    decreases text,
{
    if text.len() == 0 {
        0
    } else {
        digits_value(text.drop_last()) * 10 + (text.last() as int - '0' as int)
    }
}

/// The token a scanned number literal stands for: an integer that fits
/// 64 signed bits, or a decimal with exactly one period; anything else
/// is a tokenizing error.
pub open spec fn number_token(text: Seq<char>) -> Option<Tok> {
    if dot_count(text) == 0 {
        if digits_value(text) <= i64::MAX as int {
            Some(Tok::Integer(digits_value(text)))
        } else {
            None
        }
    } else if dot_count(text) == 1 {
        Some(Tok::Decimal(text))
    } else {
        None
    }
}

/// Bounds of the scan-end positions: each lies between its start and the
/// text's end, and moves forward when the leading character fits its class.
pub proof fn lemma_scan_ends(s: Seq<char>, i: nat)
    requires
        i <= s.len(),
    ensures
        i <= number_end(s, i) <= s.len(),
        i <= ident_end(s, i) <= s.len(),
        i <= string_end(s, i) <= s.len(),
        i < s.len() && spec_is_number_char(s[i as int]) ==> number_end(s, i) > i,
        i < s.len() && spec_is_ident_char(s[i as int]) ==> ident_end(s, i) > i,
        string_end(s, i) < s.len() ==> s[string_end(s, i) as int] == '"',
    decreases s.len() - i,
{
    if i < s.len() {
        lemma_scan_ends(s, i + 1);
    }
}

#[via_fn]
proof fn spec_tokenize_decreases(s: Seq<char>, i: nat) {
    if i < s.len() {
        lemma_scan_ends(s, i);
        lemma_scan_ends(s, i + 1);
    }
}

/// The token sequence of the text from position `i` on; `None` when the
/// text does not tokenize (unexpected character, unterminated string,
/// a second period in a number, integer overflow).
pub open spec fn spec_tokenize(s: Seq<char>, i: nat) -> Option<Seq<Tok>>
    decreases s.len() - i,
    via spec_tokenize_decreases
{
    if i >= s.len() {
        Some(Seq::empty())
    } else {
        let c = s[i as int];
        if spec_is_ws(c) {
            spec_tokenize(s, i + 1)
        } else if spec_is_digit(c) {
            let j = number_end(s, i);
            match number_token(s.subrange(i as int, j as int)) {
                Some(t) => match spec_tokenize(s, j) {
                    Some(rest) => Some(seq![t] + rest),
                    None => None,
                },
                None => None,
            }
        } else if spec_is_alpha(c) {
            let j = ident_end(s, i);
            match spec_tokenize(s, j) {
                Some(rest) => Some(seq![Tok::Identifier(s.subrange(i as int, j as int))] + rest),
                None => None,
            }
        } else if c == '"' {
            let j = string_end(s, i + 1);
            if j >= s.len() {
                None
            } else {
                match spec_tokenize(s, j + 1) {
                    Some(rest) => Some(
                        seq![Tok::Strg(s.subrange(i + 1 as int, j as int))] + rest,
                    ),
                    None => None,
                }
            }
        } else {
            match spec_symbol_of(c) {
                Some(sym) => match spec_tokenize(s, i + 1) {
                    Some(rest) => Some(seq![Tok::Punctuation(sym)] + rest),
                    None => None,
                },
                None => None,
            }
        }
    }
}

/// All characters of a text are decimal digits.
pub open spec fn all_digits(t: Seq<char>) -> bool {
    forall|k: int| 0 <= k < t.len() ==> spec_is_digit(#[trigger] t[k])
}

/// Every character scanned over by `number_end` can continue a number.
pub proof fn lemma_number_chars(s: Seq<char>, i: nat, k: int)
    requires
        i <= s.len(),
        i <= k < number_end(s, i),
    ensures
        spec_is_number_char(s[k]),
    decreases k - i,
{
    lemma_scan_ends(s, i);
    if k > i {
        lemma_number_chars(s, i + 1, k);
    }
}

/// A text without periods consists of digits alone whenever each of its
/// characters can continue a number.
pub proof fn lemma_no_dots_all_digits(t: Seq<char>)
    requires
        dot_count(t) == 0,
        forall|k: int| 0 <= k < t.len() ==> spec_is_number_char(#[trigger] t[k]),
    ensures
        all_digits(t),
    decreases t,
{
    if t.len() > 0 {
        assert(forall|k: int|
            0 <= k < t.drop_last().len() ==> spec_is_number_char(#[trigger] t.drop_last()[k]));
        lemma_no_dots_all_digits(t.drop_last());
        assert(t.last() != '.');
        assert(forall|k: int| 0 <= k < t.len() - 1 ==> t[k] == t.drop_last()[k]);
    }
}

/// The model of a token vector, after one more token.
pub proof fn lemma_toks_model_push(ts: Seq<Token>, t: Token)
    ensures
        toks_model(ts.push(t)) =~= toks_model(ts).push(t@),
{
}

/// A digit sequence's value is nonnegative and at least the value of any
/// of its prefixes.
pub proof fn lemma_digits_value_mono(t: Seq<char>, k: int)
    requires
        all_digits(t),
        0 <= k <= t.len(),
    ensures
        0 <= digits_value(t.subrange(0, k)) <= digits_value(t),
    decreases t.len() - k,
{
    if k == t.len() {
        assert(t.subrange(0, k) =~= t);
        lemma_digits_value_nonneg(t);
    } else {
        lemma_digits_value_mono(t, k + 1);
        let p = t.subrange(0, k + 1);
        assert(p.drop_last() =~= t.subrange(0, k));
        lemma_digits_value_nonneg(t.subrange(0, k));
    }
}

/// A digit sequence's value is nonnegative.
pub proof fn lemma_digits_value_nonneg(t: Seq<char>)
    requires
        all_digits(t),
    ensures
        digits_value(t) >= 0,
    decreases t,
{
    if t.len() > 0 {
        assert(all_digits(t.drop_last()));
        lemma_digits_value_nonneg(t.drop_last());
    }
}

/// Joins an already-scanned token prefix with the outcome of tokenizing
/// the rest of the text.
pub open spec fn opt_concat(pre: Seq<Tok>, rest: Option<Seq<Tok>>) -> Option<Seq<Tok>> {
    match rest {
        Some(ts) => Some(pre + ts),
        None => None,
    }
}

fn is_ws_char(c: char) -> (r: bool)
    ensures
        r == spec_is_ws(c),
{
    c == '\u{0009}' || c == '\u{000A}' || c == '\u{000B}' || c == '\u{000C}' || c == '\u{000D}'
        || c == ' ' || c == '\u{0085}' || c == '\u{00A0}' || c == '\u{1680}' || ('\u{2000}' <= c
        && c <= '\u{200A}') || c == '\u{2028}' || c == '\u{2029}' || c == '\u{202F}' || c
        == '\u{205F}' || c == '\u{3000}'
}

fn is_digit_char(c: char) -> (r: bool)
    ensures
        r == spec_is_digit(c),
{
    '0' <= c && c <= '9'
}

fn is_alpha_char(c: char) -> (r: bool)
    ensures
        r == spec_is_alpha(c),
{
    ('a' <= c && c <= 'z') || ('A' <= c && c <= 'Z')
}

fn is_ident_char(c: char) -> (r: bool)
    ensures
        r == spec_is_ident_char(c),
{
    is_alpha_char(c) || is_digit_char(c) || c == '_'
}

fn is_number_char(c: char) -> (r: bool)
    ensures
        r == spec_is_number_char(c),
{
    is_digit_char(c) || c == '.'
}

fn scan_number_to_end(contents: &str, j: usize) -> (r: usize)
    requires
        j <= contents@.len(),
        contents@.len() <= usize::MAX,
    ensures
        r as nat == number_end(contents@, j as nat),
        j <= r <= contents@.len(),
    decreases contents@.len() - j,
{
    if j < contents.unicode_len() {
        let c = contents.get_char(j);
        if is_number_char(c) {
            scan_number_to_end(contents, j + 1)
        } else {
            j
        }
    } else {
        j
    }
}

fn scan_ident_to_end(contents: &str, j: usize) -> (r: usize)
    requires
        j <= contents@.len(),
        contents@.len() <= usize::MAX,
    ensures
        r as nat == ident_end(contents@, j as nat),
        j <= r <= contents@.len(),
    decreases contents@.len() - j,
{
    if j < contents.unicode_len() {
        let c = contents.get_char(j);
        if is_ident_char(c) {
            scan_ident_to_end(contents, j + 1)
        } else {
            j
        }
    } else {
        j
    }
}

fn scan_string_to_end(contents: &str, j: usize) -> (r: usize)
    requires
        j <= contents@.len(),
        contents@.len() <= usize::MAX,
    ensures
        r as nat == string_end(contents@, j as nat),
        j <= r <= contents@.len(),
    decreases contents@.len() - j,
{
    if j < contents.unicode_len() {
        let c = contents.get_char(j);
        if c == '"' {
            j
        } else {
            scan_string_to_end(contents, j + 1)
        }
    } else {
        j
    }
}

/// Number of periods in a scanned number literal's text.
fn count_dots(text: &str) -> (n: usize)
    requires
        text@.len() <= usize::MAX,
    ensures
        n as nat == dot_count(text@),
{
    let len = text.unicode_len();
    let mut k: usize = 0;
    let mut dots: usize = 0;
    while k < len
        invariant
            k <= len,
            len == text@.len(),
            dots as nat == dot_count(text@.subrange(0, k as int)),
            dots <= k,
        decreases len - k,
    {
        let c = text.get_char(k);
        proof {
            assert(text@.subrange(0, k + 1).drop_last() =~= text@.subrange(0, k as int));
        }
        if c == '.' {
            dots = dots + 1;
        }
        k = k + 1;
    }
    proof {
        assert(text@.subrange(0, len as int) =~= text@);
    }
    dots
}

/// Value of a digit-only literal, when it fits a 64-bit signed integer.
fn digits_to_integer(text: &str) -> (r: Option<i64>)
    requires
        text@.len() <= usize::MAX,
        all_digits(text@),
    ensures
        match r {
            Some(n) => n as int == digits_value(text@) && digits_value(text@) <= i64::MAX as int,
            None => digits_value(text@) > i64::MAX as int,
        },
{
    let len = text.unicode_len();
    let mut k: usize = 0;
    let mut acc: i64 = 0;
    while k < len
        invariant
            k <= len,
            len == text@.len(),
            all_digits(text@),
            0 <= acc,
            acc as int == digits_value(text@.subrange(0, k as int)),
        decreases len - k,
    {
        let c = text.get_char(k);
        let d = (c as u32 - '0' as u32) as i64;
        proof {
            assert(text@.subrange(0, k + 1).drop_last() =~= text@.subrange(0, k as int));
            lemma_digits_value_mono(text@, k + 1);
        }
        if acc > (i64::MAX - d) / 10 {
            return None;
        }
        acc = acc * 10 + d;
        k = k + 1;
    }
    proof {
        assert(text@.subrange(0, len as int) =~= text@);
    }
    Some(acc)
}

/// Converts raw definition text into a flat sequence of lexical tokens.
///
/// Pure function of the input: succeeds exactly when the text tokenizes,
/// and then yields exactly the tokens of the specification.
pub fn string_to_tokens(contents: &str) -> (r: ParseResult<Vec<Token>>)
    ensures
        r is Ok <==> spec_tokenize(contents@, 0) is Some,
        r is Ok ==> toks_model(r.unwrap()@) == spec_tokenize(contents@, 0).unwrap(),
{
    let ghost s = contents@;
    let len = contents.unicode_len();
    let mut i: usize = 0;
    let mut tokens: Vec<Token> = Vec::new();
    while i < len
        invariant
            i <= len,
            len == s.len(),
            s == contents@,
            spec_tokenize(s, 0) == opt_concat(toks_model(tokens@), spec_tokenize(s, i as nat)),
        decreases len - i,
    {
        let ghost pre = toks_model(tokens@);
        let ghost toks0 = tokens@;
        proof {
            lemma_scan_ends(s, i as nat);
        }
        let c = contents.get_char(i);
        if is_ws_char(c) {
            i = i + 1;
        } else if is_digit_char(c) {
            let j = scan_number_to_end(contents, i);
            let text = contents.substring_char(i, j);
            let dots = count_dots(text);
            if dots == 0 {
                proof {
                    assert forall|k: int| 0 <= k < text@.len() implies spec_is_number_char(
                        #[trigger] text@[k],
                    ) by {
                        lemma_number_chars(s, i as nat, i + k);
                    }
                    lemma_no_dots_all_digits(text@);
                }
                match digits_to_integer(text) {
                    Some(n) => {
                        let ghost t = Tok::Integer(n as int);
                        tokens.push(Token::Integer(n));
                        proof {
                            lemma_toks_model_push(toks0, Token::Integer(n));
                            assert(spec_tokenize(s, i as nat) == opt_concat(
                                seq![t],
                                spec_tokenize(s, j as nat),
                            ));
                            lemma_push_token(pre, t, s, j as nat);
                        }
                        i = j;
                    },
                    None => {
                        assert(spec_tokenize(s, i as nat) is None);
                        return Err(ParseError { message: "Failed to parse integer", index: i });
                    },
                }
            } else if dots == 1 {
                let ghost t = Tok::Decimal(text@);
                let token = Token::Decimal(text.to_owned());
                let ghost token_model = token;
                tokens.push(token);
                proof {
                    lemma_toks_model_push(toks0, token_model);
                    assert(spec_tokenize(s, i as nat) == opt_concat(
                        seq![t],
                        spec_tokenize(s, j as nat),
                    ));
                    lemma_push_token(pre, t, s, j as nat);
                }
                i = j;
            } else {
                assert(spec_tokenize(s, i as nat) is None);
                return Err(
                    ParseError {
                        message: "Hit a second period while parsing decimal number.",
                        index: i,
                    },
                );
            }
        } else if is_alpha_char(c) {
            let j = scan_ident_to_end(contents, i);
            let text = contents.substring_char(i, j);
            let ghost t = Tok::Identifier(text@);
            let token = Token::Identifier(text.to_owned());
            let ghost token_model = token;
            tokens.push(token);
            proof {
                lemma_toks_model_push(toks0, token_model);
                assert(spec_tokenize(s, i as nat) == opt_concat(
                    seq![t],
                    spec_tokenize(s, j as nat),
                ));
                lemma_push_token(pre, t, s, j as nat);
            }
            i = j;
        } else if c == '"' {
            let j = scan_string_to_end(contents, i + 1);
            if j >= len {
                assert(spec_tokenize(s, i as nat) is None);
                return Err(
                    ParseError {
                        message:
                            "Hit end of file while reading string, expected closing quotation mark.",
                        index: i,
                    },
                );
            }
            let text = contents.substring_char(i + 1, j);
            let ghost t = Tok::Strg(text@);
            let token = Token::Strg(text.to_owned());
            let ghost token_model = token;
            tokens.push(token);
            proof {
                lemma_toks_model_push(toks0, token_model);
                assert(spec_tokenize(s, i as nat) == opt_concat(
                    seq![t],
                    spec_tokenize(s, (j + 1) as nat),
                ));
                lemma_push_token(pre, t, s, (j + 1) as nat);
            }
            i = j + 1;
        } else {
            match Symbol::from_char(c) {
                Some(symbol) => {
                    let ghost t = Tok::Punctuation(symbol);
                    tokens.push(Token::Punctuation(symbol));
                    proof {
                        lemma_toks_model_push(toks0, Token::Punctuation(symbol));
                        assert(spec_tokenize(s, i as nat) == opt_concat(
                            seq![t],
                            spec_tokenize(s, (i + 1) as nat),
                        ));
                        lemma_push_token(pre, t, s, (i + 1) as nat);
                    }
                    i = i + 1;
                },
                None => {
                    assert(spec_tokenize(s, i as nat) is None);
                    return Err(
                        ParseError {
                            message: "Hit unexpected character while parsing block definition",
                            index: i,
                        },
                    );
                },
            }
        }
    }
    proof {
        assert(toks_model(tokens@) + Seq::<Tok>::empty() =~= toks_model(tokens@));
    }
    Ok(tokens)
}

/// Pushing one scanned token onto the prefix keeps the global tokenizing
/// equation intact.
proof fn lemma_push_token(pre: Seq<Tok>, t: Tok, s: Seq<char>, j: nat)
    ensures
        opt_concat(pre, opt_concat(seq![t], spec_tokenize(s, j))) == opt_concat(
            pre.push(t),
            spec_tokenize(s, j),
        ),
{
    match spec_tokenize(s, j) {
        Some(rest) => {
            assert(pre + (seq![t] + rest) =~= pre.push(t) + rest);
        },
        None => {},
    }
}

} // verus!
