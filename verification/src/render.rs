//! Rendering a token sequence as an indented dump with one token marked:
//! the diagnostic a caller may show when parsing stops at a token index.

use vstd::prelude::*;
use vstd::string::StringExecFns;

use crate::digits::spec_int_digits;
use crate::tokens::{Symbol, Tok, Token};

verus! {

/// The character a punctuation mark renders as.
pub open spec fn spec_symbol_char(s: Symbol) -> char {
    match s {
        Symbol::OpenCurlyBrace => '{',
        Symbol::CloseCurlyBrace => '}',
        Symbol::OpenBrace => '[',
        Symbol::CloseBrace => ']',
        Symbol::Comma => ',',
        Symbol::Colon => ':',
    }
}

/// The text one token renders as: identifiers and decimals as their text,
/// strings quoted, integers in decimal, punctuation as its character.
pub open spec fn spec_token_text(t: Tok) -> Seq<char> {
    match t {
        Tok::Identifier(s) => s,
        Tok::Strg(s) => seq!['"'] + s + seq!['"'],
        Tok::Integer(n) => spec_int_digits(n),
        Tok::Decimal(s) => s,
        Tok::Punctuation(sym) => seq![spec_symbol_char(sym)],
    }
}

/// The character a punctuation mark renders as.
pub fn symbol_text(s: &Symbol) -> (r: &'static str)
    ensures
        r@ == seq![spec_symbol_char(*s)],
{
    proof {
        reveal_strlit("{");
        reveal_strlit("}");
        reveal_strlit("[");
        reveal_strlit("]");
        reveal_strlit(",");
        reveal_strlit(":");
        assert("{"@ =~= seq!['{']);
        assert("}"@ =~= seq!['}']);
        assert("["@ =~= seq!['[']);
        assert("]"@ =~= seq![']']);
        assert(","@ =~= seq![',']);
        assert(":"@ =~= seq![':']);
    }
    match s {
        Symbol::OpenCurlyBrace => "{",
        Symbol::CloseCurlyBrace => "}",
        Symbol::OpenBrace => "[",
        Symbol::CloseBrace => "]",
        Symbol::Comma => ",",
        Symbol::Colon => ":",
    }
}

/// The text one token renders as.
pub fn token_text(t: &Token) -> (r: String)
    ensures
        r@ == spec_token_text(t@),
{
    match t {
        Token::Identifier(s) => s.clone(),
        Token::Strg(s) => {
            proof {
                reveal_strlit("\"");
                assert("\""@ =~= seq!['"']);
            }
            let mut out = "\"".to_owned();
            out.append(s.as_str());
            out.append("\"");
            out
        },
        Token::Integer(n) => crate::digits::i64_to_string(*n),
        Token::Decimal(s) => s.clone(),
        Token::Punctuation(sym) => symbol_text(sym).to_owned(),
    }
}

/// One indentation level deeper, saturating at the platform limit.
pub open spec fn spec_indent_inc(tabs: int) -> int {
    if tabs < i64::MAX {
        tabs + 1
    } else {
        tabs
    }
}

/// One indentation level back, saturating at the platform limit.
pub open spec fn spec_indent_dec(tabs: int) -> int {
    if tabs > i64::MIN {
        tabs - 1
    } else {
        tabs
    }
}

/// A line break followed by the indentation, which may have gone negative
/// on unbalanced braces and then indents nothing.
pub open spec fn spec_newline(tabs: int) -> Seq<char> {
    seq!['\n'] + crate::schema::spec_tabs(
        if tabs < 0 {
            0
        } else {
            tabs as nat
        },
    )
}

/// The dump of the tokens from index `i` on: identifiers begin new
/// indented lines, braces adjust the indentation, the token at the error
/// index is highlighted.
pub open spec fn spec_render(ts: Seq<Tok>, err: int, i: int, tabs: int) -> Seq<char>
    decreases ts.len() - i,
{
    if i < 0 || i >= ts.len() {
        Seq::empty()
    } else {
        let t = ts[i];
        let lead = match t {
            Tok::Identifier(_) => spec_newline(tabs),
            Tok::Punctuation(sym) => if sym == Symbol::CloseCurlyBrace {
                spec_newline(spec_indent_dec(tabs))
            } else {
                Seq::empty()
            },
            _ => Seq::empty(),
        };
        let next_tabs = match t {
            Tok::Punctuation(sym) => if sym == Symbol::CloseCurlyBrace {
                spec_indent_dec(tabs)
            } else if sym == Symbol::OpenCurlyBrace {
                spec_indent_inc(tabs)
            } else {
                tabs
            },
            _ => tabs,
        };
        let shown = if i == err {
            " ERROR<< "@ + spec_token_text(t) + " >> "@
        } else {
            " "@ + spec_token_text(t) + " "@
        };
        let trail = match t {
            Tok::Punctuation(sym) => if sym == Symbol::CloseCurlyBrace {
                seq!['\n']
            } else {
                Seq::empty()
            },
            _ => Seq::empty(),
        };
        lead + shown + trail + spec_render(ts, err, i + 1, next_tabs)
    }
}

/// Appends a line break and the current indentation.
fn render_newline(tabs: i64, out: &mut String)
    ensures
        final(out)@ == old(out)@ + spec_newline(tabs as int),
{
    proof {
        reveal_strlit("\n");
        assert("\n"@ =~= seq!['\n']);
    }
    out.append("\n");
    let mut k: i64 = 0;
    while k < tabs
        invariant
            0 <= k,
            k <= (if tabs < 0 {
                0i64
            } else {
                tabs
            }),
            out@ == old(out)@ + seq!['\n'] + crate::schema::spec_tabs(k as nat),
        decreases tabs - k,
    {
        proof {
            reveal_strlit("  ");
            assert("  "@ =~= seq![' ', ' ']);
        }
        out.append("  ");
        k = k + 1;
    }
    proof {
        assert(final(out)@ =~= old(out)@ + spec_newline(tabs as int));
    }
}

/// Appends the dump of the tokens from index `i` on.
#[verifier::rlimit(100)]
fn render_from(tokens: &Vec<Token>, error_index: usize, i: usize, tabs: i64, out: &mut String)
    requires
        i <= tokens@.len(),
    ensures
        final(out)@ == old(out)@ + spec_render(
            crate::tokens::toks_model(tokens@),
            error_index as int,
            i as int,
            tabs as int,
        ),
    decreases tokens@.len() - i,
{
    let ghost ts = crate::tokens::toks_model(tokens@);
    if i >= tokens.len() {
        proof {
            assert(old(out)@ + Seq::<char>::empty() =~= old(out)@);
        }
        return ;
    }
    proof {
        assert(ts[i as int] == tokens@[i as int]@);
    }
    let token = &tokens[i];
    let is_close = match token {
        Token::Punctuation(sym) => *sym == Symbol::CloseCurlyBrace,
        _ => false,
    };
    let is_open = match token {
        Token::Punctuation(sym) => *sym == Symbol::OpenCurlyBrace,
        _ => false,
    };
    let is_ident = match token {
        Token::Identifier(_) => true,
        _ => false,
    };
    let next_tabs: i64 = if is_close {
        if tabs > i64::MIN {
            tabs - 1
        } else {
            tabs
        }
    } else if is_open {
        if tabs < i64::MAX {
            tabs + 1
        } else {
            tabs
        }
    } else {
        tabs
    };
    if is_ident {
        render_newline(tabs, out);
    } else if is_close {
        render_newline(next_tabs, out);
    }
    let text = token_text(token);
    if i == error_index {
        out.append(" ERROR<< ");
        out.append(text.as_str());
        out.append(" >> ");
    } else {
        out.append(" ");
        out.append(text.as_str());
        out.append(" ");
    }
    if is_close {
        proof {
            reveal_strlit("\n");
            assert("\n"@ =~= seq!['\n']);
        }
        out.append("\n");
    }
    let ghost mid = out@;
    render_from(tokens, error_index, i + 1, next_tabs, out);
    proof {
        assert(final(out)@ =~= old(out)@ + spec_render(
            ts,
            error_index as int,
            i as int,
            tabs as int,
        ));
    }
}

/// Renders a formatted dump of a token sequence, highlighting the token
/// parsing stopped at: the diagnostic counterpart of a parse error's index.
pub fn render_tokens(tokens: &Vec<Token>, error_index: usize) -> (r: String)
    ensures
        r@ == "Parsing of schema failed:"@ + spec_render(
            crate::tokens::toks_model(tokens@),
            error_index as int,
            0,
            0,
        ),
{
    let mut out = "Parsing of schema failed:".to_owned();
    render_from(tokens, error_index, 0, 0, &mut out);
    out
}

} // verus!
