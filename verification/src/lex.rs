//! Lexer: turns a raw command line into an ordered sequence of tokens.
//!
//! Rules, applied left to right over the characters of the line:
//! - runs of ordinary characters accumulate into the current word;
//! - a space ends the current word (a non-empty pending word is emitted);
//! - `|`, `>`, `<` and `&` end the current word and emit the operator token;
//! - a backslash escapes the next character into the current word; a trailing
//!   backslash with nothing after it is a lexer error;
//! - a double quote toggles raw mode, in which operators and spaces lose their
//!   special meaning; the quotes themselves are not part of the word;
//! - a newline ends the current word; a NUL character stops the scan;
//! - the end of the input flushes any pending word.
//! No emitted word is ever empty.

use vstd::prelude::*;

verus! {

/// One token of a command line.
#[derive(Debug, PartialEq)]
pub enum Token {
    /// A word: a program name, argument, or redirect target.
    Str(String),
    /// The pipeline operator `|`.
    Pipe,
    /// The output-redirect operator `>`.
    RightRedirect,
    /// The input-redirect operator `<`.
    LeftRedirect,
    /// The background marker `&`.
    Background,
}

/// Mathematical model of a token: a word is a sequence of characters.
pub enum SpecToken {
    Word(Seq<char>),
    Pipe,
    RightRedirect,
    LeftRedirect,
    Background,
}

impl View for Token {
    type V = SpecToken;

    open spec fn view(&self) -> SpecToken {
        match self {
            Token::Str(w) => SpecToken::Word(w@),
            Token::Pipe => SpecToken::Pipe,
            Token::RightRedirect => SpecToken::RightRedirect,
            Token::LeftRedirect => SpecToken::LeftRedirect,
            Token::Background => SpecToken::Background,
        }
    }
}

/// The models of a sequence of tokens.
pub open spec fn tokens_view(ts: Seq<Token>) -> Seq<SpecToken> {
    ts.map_values(|t: Token| t@)
}

/// Emitting a pending word: a non-empty word is appended, an empty one is not.
pub open spec fn spec_flush(acc: Seq<SpecToken>, cur: Seq<char>) -> Seq<SpecToken> {
    if cur.len() > 0 {
        acc.push(SpecToken::Word(cur))
    } else {
        acc
    }
}

/// The lexer as a character machine over the remaining input `s`, with the
/// pending word `cur`, the raw-mode flag `raw`, and the tokens emitted so far
/// `acc`. `None` is the lexer error: a trailing backslash.
pub open spec fn spec_lex_rest(
    s: Seq<char>,
    cur: Seq<char>,
    raw: bool,
    acc: Seq<SpecToken>,
) -> Option<Seq<SpecToken>>
    decreases s.len(),
{
    if s.len() == 0 {
        Some(spec_flush(acc, cur))
    } else {
        let c = s[0];
        if c == '\n' {
            spec_lex_rest(s.drop_first(), Seq::empty(), raw, spec_flush(acc, cur))
        } else if c == '\\' {
            if s.len() < 2 {
                None
            } else {
                spec_lex_rest(s.skip(2), cur.push(s[1]), raw, acc)
            }
        } else if c == '"' {
            spec_lex_rest(s.drop_first(), cur, !raw, acc)
        } else if raw {
            spec_lex_rest(s.drop_first(), cur.push(c), true, acc)
        } else if c == ' ' {
            spec_lex_rest(s.drop_first(), Seq::empty(), false, spec_flush(acc, cur))
        } else if c == '|' {
            spec_lex_rest(s.drop_first(), Seq::empty(), false, spec_flush(acc, cur).push(SpecToken::Pipe))
        } else if c == '>' {
            spec_lex_rest(
                s.drop_first(),
                Seq::empty(),
                false,
                spec_flush(acc, cur).push(SpecToken::RightRedirect),
            )
        } else if c == '<' {
            spec_lex_rest(
                s.drop_first(),
                Seq::empty(),
                false,
                spec_flush(acc, cur).push(SpecToken::LeftRedirect),
            )
        } else if c == '&' {
            spec_lex_rest(
                s.drop_first(),
                Seq::empty(),
                false,
                spec_flush(acc, cur).push(SpecToken::Background),
            )
        } else if c == '\0' {
            Some(spec_flush(acc, cur))
        } else {
            spec_lex_rest(s.drop_first(), cur.push(c), false, acc)
        }
    }
}

/// What the lexer yields on a whole line.
pub open spec fn spec_lex(s: Seq<char>) -> Option<Seq<SpecToken>> {
    spec_lex_rest(s, Seq::empty(), false, Seq::empty())
}

/// A character with no special meaning to the lexer.
pub open spec fn plain_char(c: char) -> bool {
    c != '\n' && c != '\\' && c != '"' && c != ' ' && c != '|' && c != '>' && c != '<' && c != '&'
        && c != '\0'
}

/// A token rendered back to text.
pub open spec fn token_text(t: SpecToken) -> Seq<char> {
    match t {
        SpecToken::Word(w) => w,
        SpecToken::Pipe => seq!['|'],
        SpecToken::RightRedirect => seq!['>'],
        SpecToken::LeftRedirect => seq!['<'],
        SpecToken::Background => seq!['&'],
    }
}

/// A token as the lexer emits it from a line with no quotes and no escapes:
/// an operator, or a non-empty word of plain characters.
pub open spec fn plain_token(t: SpecToken) -> bool {
    match t {
        SpecToken::Word(w) => w.len() > 0 && (forall|j: int|
            0 <= j < w.len() ==> plain_char(#[trigger] w[j])),
        _ => true,
    }
}

/// Tokens rendered back to one line, joined with single spaces.
pub open spec fn render(ts: Seq<SpecToken>) -> Seq<char>
    decreases ts.len(),
{
    if ts.len() == 0 {
        Seq::empty()
    } else if ts.len() == 1 {
        token_text(ts[0])
    } else {
        token_text(ts[0]) + seq![' '] + render(ts.drop_first())
    }
}

/// Scanning a run of plain characters only accumulates them onto the
/// pending word.
proof fn lemma_lex_word(w: Seq<char>, s2: Seq<char>, cur: Seq<char>, acc: Seq<SpecToken>)
    requires
        forall|j: int| 0 <= j < w.len() ==> plain_char(#[trigger] w[j]),
    ensures
        spec_lex_rest(w + s2, cur, false, acc) == spec_lex_rest(s2, cur + w, false, acc),
    decreases w.len(),
{
    if w.len() == 0 {
        assert(w + s2 =~= s2);
        assert(cur + w =~= cur);
    } else {
        let c = w[0];
        assert((w + s2)[0] == c);
        assert(plain_char(c));
        assert((w + s2).len() > 0);
        assert((w + s2).drop_first() =~= w.drop_first() + s2);
        lemma_lex_word(w.drop_first(), s2, cur.push(c), acc);
        assert(cur.push(c) + w.drop_first() =~= cur + w);
    }
}

/// Lexing the rendering of plain tokens, starting with no pending word,
/// appends exactly those tokens.
proof fn lemma_lex_render(ts: Seq<SpecToken>, acc: Seq<SpecToken>)
    requires
        forall|k: int| 0 <= k < ts.len() ==> plain_token(#[trigger] ts[k]),
    ensures
        spec_lex_rest(render(ts), Seq::empty(), false, acc) == Some(acc + ts),
    decreases ts.len(),
{
    if ts.len() == 0 {
        assert(acc + ts =~= acc);
    } else if ts.len() == 1 {
        let t0 = ts[0];
        assert(plain_token(t0));
        match t0 {
            SpecToken::Word(w) => {
                assert(render(ts) == w);
                assert(w =~= w + Seq::<char>::empty());
                lemma_lex_word(w, Seq::empty(), Seq::empty(), acc);
                assert(Seq::<char>::empty() + w =~= w);
                assert(spec_lex_rest(Seq::empty(), w, false, acc) == Some(spec_flush(acc, w)));
                assert(spec_flush(acc, w) =~= acc + ts);
            },
            _ => {
                let c = token_text(t0)[0];
                assert(render(ts) == token_text(t0));
                assert(render(ts).len() == 1);
                assert(render(ts).drop_first() =~= Seq::<char>::empty());
                assert(spec_lex_rest(render(ts), Seq::empty(), false, acc) == spec_lex_rest(
                    Seq::empty(),
                    Seq::empty(),
                    false,
                    acc.push(t0),
                ));
                assert(acc.push(t0) =~= acc + ts);
            },
        }
    } else {
        let t0 = ts[0];
        let rest = ts.drop_first();
        assert(forall|k: int| 0 <= k < rest.len() ==> plain_token(#[trigger] rest[k])) by {
            assert(forall|k: int| 0 <= k < rest.len() ==> rest[k] == ts[k + 1]);
        }
        match t0 {
            SpecToken::Word(w) => {
                let tail = seq![' '] + render(rest);
                assert(render(ts) =~= w + tail);
                lemma_lex_word(w, tail, Seq::empty(), acc);
                assert(Seq::<char>::empty() + w =~= w);
                assert(tail[0] == ' ');
                assert(tail.drop_first() =~= render(rest));
                assert(spec_lex_rest(tail, w, false, acc) == spec_lex_rest(
                    render(rest),
                    Seq::empty(),
                    false,
                    spec_flush(acc, w),
                ));
                assert(w.len() > 0);
                lemma_lex_render(rest, acc.push(SpecToken::Word(w)));
                assert(acc.push(SpecToken::Word(w)) + rest =~= acc + ts);
            },
            _ => {
                assert(render(ts)[0] == token_text(t0)[0]);
                assert(render(ts).drop_first() =~= seq![' '] + render(rest));
                let tail = seq![' '] + render(rest);
                assert(spec_lex_rest(render(ts), Seq::empty(), false, acc) == spec_lex_rest(
                    tail,
                    Seq::empty(),
                    false,
                    acc.push(t0),
                ));
                assert(tail[0] == ' ');
                assert(tail.drop_first() =~= render(rest));
                lemma_lex_render(rest, acc.push(t0));
                assert(acc.push(t0) + rest =~= acc + ts);
            },
        }
    }
}

/// Every token the lexer emits from a line with no quotes and no escapes is
/// plain: an operator, or a non-empty word of plain characters.
proof fn lemma_lex_plain(s: Seq<char>, cur: Seq<char>, acc: Seq<SpecToken>, ts: Seq<SpecToken>)
    requires
        forall|i: int| 0 <= i < s.len() ==> (#[trigger] s[i] != '"' && s[i] != '\\'),
        forall|j: int| 0 <= j < cur.len() ==> plain_char(#[trigger] cur[j]),
        forall|k: int| 0 <= k < acc.len() ==> plain_token(#[trigger] acc[k]),
        spec_lex_rest(s, cur, false, acc) == Some(ts),
    ensures
        forall|k: int| 0 <= k < ts.len() ==> plain_token(#[trigger] ts[k]),
    decreases s.len(),
{
    let fl = spec_flush(acc, cur);
    assert(forall|k: int| 0 <= k < fl.len() ==> plain_token(#[trigger] fl[k])) by {
        if cur.len() > 0 {
            assert(forall|k: int| 0 <= k < acc.len() ==> fl[k] == acc[k]);
            assert(fl[acc.len() as int] == SpecToken::Word(cur));
        }
    }
    if s.len() > 0 {
        let c = s[0];
        let d = s.drop_first();
        assert(forall|i: int| 0 <= i < d.len() ==> (#[trigger] d[i] != '"' && d[i] != '\\')) by {
            assert(forall|i: int| 0 <= i < d.len() ==> d[i] == s[i + 1]);
        }
        if c == '\n' || c == ' ' {
            lemma_lex_plain(d, Seq::empty(), fl, ts);
        } else if c == '|' {
            lemma_push_plain(fl, SpecToken::Pipe);
            lemma_lex_plain(d, Seq::empty(), fl.push(SpecToken::Pipe), ts);
        } else if c == '>' {
            lemma_push_plain(fl, SpecToken::RightRedirect);
            lemma_lex_plain(d, Seq::empty(), fl.push(SpecToken::RightRedirect), ts);
        } else if c == '<' {
            lemma_push_plain(fl, SpecToken::LeftRedirect);
            lemma_lex_plain(d, Seq::empty(), fl.push(SpecToken::LeftRedirect), ts);
        } else if c == '&' {
            lemma_push_plain(fl, SpecToken::Background);
            lemma_lex_plain(d, Seq::empty(), fl.push(SpecToken::Background), ts);
        } else if c == '\0' {
            // the scan stops; the flushed tokens are plain
        } else {
            assert(plain_char(c));
            assert(forall|j: int| 0 <= j < cur.push(c).len() ==> plain_char(
                #[trigger] cur.push(c)[j],
            ));
            lemma_lex_plain(d, cur.push(c), acc, ts);
        }
    }
}

proof fn lemma_push_plain(acc: Seq<SpecToken>, t: SpecToken)
    requires
        forall|k: int| 0 <= k < acc.len() ==> plain_token(#[trigger] acc[k]),
        plain_token(t),
    ensures
        forall|k: int| 0 <= k < acc.push(t).len() ==> plain_token(#[trigger] acc.push(t)[k]),
{
    assert(forall|k: int| 0 <= k < acc.len() ==> acc.push(t)[k] == acc[k]);
    assert(acc.push(t)[acc.len() as int] == t);
}

/// Law: the lexer is idempotent under re-rendering. On a line with no
/// quotes and no escapes, re-joining the lexed tokens' texts with single
/// spaces and lexing that line again yields the same token sequence.
pub proof fn lemma_lex_round_trip(line: Seq<char>, ts: Seq<SpecToken>)
    requires
        forall|i: int| 0 <= i < line.len() ==> (#[trigger] line[i] != '"' && line[i] != '\\'),
        spec_lex(line) == Some(ts),
    ensures
        spec_lex(render(ts)) == Some(ts),
{
    lemma_lex_plain(line, Seq::empty(), Seq::empty(), ts);
    lemma_lex_render(ts, Seq::empty());
    assert(Seq::<SpecToken>::empty() + ts =~= ts);
}

/// Relies on `String::push`: appends one character at the end of the string.
#[verifier::external_body]
fn push_char(s: &mut String, c: char)
    ensures
        final(s)@ == old(s)@.push(c),
{
    s.push(c);
}

proof fn lemma_tokens_view_push(ts: Seq<Token>, t: Token)
    ensures
        tokens_view(ts.push(t)) == tokens_view(ts).push(t@),
{
    assert(tokens_view(ts.push(t)) =~= tokens_view(ts).push(t@));
}

/// Emits the pending word, if any, and clears it.
fn push_str(toks: &mut Vec<Token>, cur: &mut String)
    ensures
        tokens_view(final(toks)@) == spec_flush(tokens_view(old(toks)@), old(cur)@),
        final(cur)@ == Seq::<char>::empty(),
{
    if !cur.as_str().is_empty() {
        let w = cur.clone();
        proof {
            lemma_tokens_view_push(toks@, Token::Str(w));
        }
        toks.push(Token::Str(w));
        *cur = String::new();
    }
}

/// Tokenizes one line. `None` reports the lexer error: a trailing backslash
/// with no character after it.
pub fn lex(line: &String) -> (r: Option<Vec<Token>>)
    ensures
        match r {
            Some(toks) => spec_lex(line@) == Some(tokens_view(toks@)),
            None => spec_lex(line@) is None,
        },
{
    let s = line.as_str();
    let n = s.unicode_len();
    let mut toks: Vec<Token> = Vec::new();
    let mut cur = String::new();
    let mut raw = false;
    let mut i: usize = 0;
    proof {
        assert(tokens_view(Seq::<Token>::empty()) =~= Seq::<SpecToken>::empty());
        assert(s@.skip(0) =~= s@);
    }
    while i < n
        invariant
            n == s@.len(),
            s@ == line@,
            i <= n,
            spec_lex(line@) == spec_lex_rest(s@.skip(i as int), cur@, raw, tokens_view(toks@)),
        decreases n - i,
    {
        let ghost rest = s@.skip(i as int);
        proof {
            assert(rest.len() == n - i);
            assert(rest[0] == s@[i as int]);
            assert(rest.drop_first() =~= s@.skip(i as int + 1));
        }
        let c = s.get_char(i);
        if c == '\n' {
            push_str(&mut toks, &mut cur);
            i = i + 1;
        } else if c == '\\' {
            if i + 1 >= n {
                return None;
            }
            proof {
                assert(rest[1] == s@[i as int + 1]);
                assert(rest.skip(2) =~= s@.skip(i as int + 2));
            }
            let cn = s.get_char(i + 1);
            push_char(&mut cur, cn);
            i = i + 2;
        } else if c == '"' {
            raw = !raw;
            i = i + 1;
        } else if raw {
            push_char(&mut cur, c);
            i = i + 1;
        } else if c == ' ' {
            push_str(&mut toks, &mut cur);
            i = i + 1;
        } else if c == '|' {
            push_str(&mut toks, &mut cur);
            proof {
                lemma_tokens_view_push(toks@, Token::Pipe);
            }
            toks.push(Token::Pipe);
            i = i + 1;
        } else if c == '>' {
            push_str(&mut toks, &mut cur);
            proof {
                lemma_tokens_view_push(toks@, Token::RightRedirect);
            }
            toks.push(Token::RightRedirect);
            i = i + 1;
        } else if c == '<' {
            push_str(&mut toks, &mut cur);
            proof {
                lemma_tokens_view_push(toks@, Token::LeftRedirect);
            }
            toks.push(Token::LeftRedirect);
            i = i + 1;
        } else if c == '&' {
            push_str(&mut toks, &mut cur);
            proof {
                lemma_tokens_view_push(toks@, Token::Background);
            }
            toks.push(Token::Background);
            i = i + 1;
        } else if c == '\0' {
            push_str(&mut toks, &mut cur);
            return Some(toks);
        } else {
            push_char(&mut cur, c);
            i = i + 1;
        }
    }
    proof {
        assert(s@.skip(n as int) =~= Seq::<char>::empty());
    }
    push_str(&mut toks, &mut cur);
    Some(toks)
}

} // verus!
