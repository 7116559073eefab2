//! The quote-and-escape-aware tokenizer: it turns one raw input line into a
//! command name and an ordered argument vector.
//!
//! The behaviour is specified by a character-at-a-time state machine
//! (`tok_step`) over an abstract state (`TokState`), and the executable
//! tokenizer is proved to compute exactly what that machine computes.
use crate::text::{chars_of, string_from_chars};
use vstd::prelude::*;

verus! {

/// The quoting mode at a tokenizer position: exactly one of unquoted,
/// inside single quotes, or inside double quotes.
pub enum QuoteKind {
    Unquoted,
    InSingle,
    InDouble,
}

/// The abstract tokenizer state: the arguments already emitted, the
/// characters of the argument being accumulated, the quoting mode, and
/// whether a backslash is waiting for the character it escapes.
pub struct TokState {
    pub done: Seq<Seq<char>>,
    pub cur: Seq<char>,
    pub quote: QuoteKind,
    pub pending: bool,
}

/// The state before any character has been read.
pub open spec fn tok_init() -> TokState {
    TokState { done: Seq::empty(), cur: Seq::empty(), quote: QuoteKind::Unquoted, pending: false }
}

/// One step of the tokenizer on character `c`.
///
/// - Outside quotes a backslash escapes the next character literally.
/// - Inside single quotes nothing is special except the closing quote.
/// - Inside double quotes a backslash escapes only `\`, `$` and `"`; for any
///   other character the backslash is kept together with that character.
/// - An unquoted space ends the current argument; runs of spaces emit no
///   empty arguments.
pub open spec fn tok_step(st: TokState, c: char) -> TokState {
    if st.pending {
        match st.quote {
            QuoteKind::InDouble => if c == '\\' || c == '$' || c == '"' {
                TokState { cur: st.cur.push(c), pending: false, ..st }
            } else {
                TokState { cur: st.cur.push('\\').push(c), pending: false, ..st }
            },
            _ => TokState { cur: st.cur.push(c), pending: false, ..st },
        }
    } else if c == '"' {
        match st.quote {
            QuoteKind::InSingle => TokState { cur: st.cur.push(c), ..st },
            QuoteKind::InDouble => TokState { quote: QuoteKind::Unquoted, ..st },
            QuoteKind::Unquoted => TokState { quote: QuoteKind::InDouble, ..st },
        }
    } else if c == '\'' {
        match st.quote {
            QuoteKind::InDouble => TokState { cur: st.cur.push(c), ..st },
            QuoteKind::InSingle => TokState { quote: QuoteKind::Unquoted, ..st },
            QuoteKind::Unquoted => TokState { quote: QuoteKind::InSingle, ..st },
        }
    } else if c == ' ' {
        match st.quote {
            QuoteKind::Unquoted => if st.cur.len() > 0 {
                TokState { done: st.done.push(st.cur), cur: Seq::empty(), ..st }
            } else {
                st
            },
            _ => TokState { cur: st.cur.push(c), ..st },
        }
    } else if c == '\\' {
        match st.quote {
            QuoteKind::InSingle => TokState { cur: st.cur.push(c), ..st },
            _ => TokState { pending: true, ..st },
        }
    } else {
        TokState { cur: st.cur.push(c), ..st }
    }
}

/// The state after running the tokenizer over `s`, starting from `st`.
pub open spec fn tok_run_from(st: TokState, s: Seq<char>) -> TokState
    decreases s.len(),
{
    if s.len() == 0 {
        st
    } else {
        tok_step(tok_run_from(st, s.drop_last()), s.last())
    }
}

/// The state after running the tokenizer over the whole line `s`.
pub open spec fn tok_run(s: Seq<char>) -> TokState {
    tok_run_from(tok_init(), s)
}

/// At end of input any non-empty accumulated argument is flushed.
pub open spec fn tok_finish(st: TokState) -> Seq<Seq<char>> {
    if st.cur.len() > 0 {
        st.done.push(st.cur)
    } else {
        st.done
    }
}

/// The token sequence of a whole line.
pub open spec fn tokens_of(s: Seq<char>) -> Seq<Seq<char>> {
    tok_finish(tok_run(s))
}

/// The command name of a line: its first token, or the empty string for a
/// line with no tokens.
pub open spec fn command_name_of(s: Seq<char>) -> Seq<char> {
    if tokens_of(s).len() == 0 {
        Seq::empty()
    } else {
        tokens_of(s)[0]
    }
}

/// The arguments of a line: every token after the first.
pub open spec fn command_args_of(s: Seq<char>) -> Seq<Seq<char>> {
    if tokens_of(s).len() == 0 {
        Seq::empty()
    } else {
        tokens_of(s).drop_first()
    }
}

/// A parsed input line: the command name and the arguments, in order.
pub struct ShellCommand {
    pub name: String,
    pub args: Vec<String>,
}

/// Tokenizes one input line, honoring single/double quoting and backslash
/// escaping. An empty line yields an empty command name and no arguments;
/// an unterminated quote is recovered permissively, not rejected.
pub fn parse_command_args(input: &str) -> (r: ShellCommand)
    ensures
        r.name@ == command_name_of(input@),
        r.args.deep_view() == command_args_of(input@),
{
    let chars = chars_of(input);
    let n = chars.len();
    let mut done: Vec<String> = Vec::new();
    let mut cur: Vec<char> = Vec::new();
    let mut quote = QuoteKind::Unquoted;
    let mut pending = false;
    let mut i: usize = 0;
    while i < n
        invariant
            n == chars.len(),
            chars@ == input@,
            i <= n,
            done.deep_view() == tok_run(input@.subrange(0, i as int)).done,
            cur@ == tok_run(input@.subrange(0, i as int)).cur,
            quote == tok_run(input@.subrange(0, i as int)).quote,
            pending == tok_run(input@.subrange(0, i as int)).pending,
        decreases n - i,
    {
        let ghost pre = tok_run(input@.subrange(0, i as int));
        let c = chars[i];
        proof {
            assert(input@.subrange(0, i + 1int).drop_last() =~= input@.subrange(0, i as int));
            assert(input@.subrange(0, i + 1int).last() == input@[i as int]);
            assert(tok_run(input@.subrange(0, i + 1int)) == tok_step(pre, c));
        }
        if pending {
            match quote {
                QuoteKind::InDouble => {
                    if c == '\\' || c == '$' || c == '"' {
                        cur.push(c);
                    } else {
                        cur.push('\\');
                        cur.push(c);
                    }
                },
                _ => {
                    cur.push(c);
                },
            }
            pending = false;
        } else if c == '"' {
            match quote {
                QuoteKind::InSingle => {
                    cur.push(c);
                },
                QuoteKind::InDouble => {
                    quote = QuoteKind::Unquoted;
                },
                QuoteKind::Unquoted => {
                    quote = QuoteKind::InDouble;
                },
            }
        } else if c == '\'' {
            match quote {
                QuoteKind::InDouble => {
                    cur.push(c);
                },
                QuoteKind::InSingle => {
                    quote = QuoteKind::Unquoted;
                },
                QuoteKind::Unquoted => {
                    quote = QuoteKind::InSingle;
                },
            }
        } else if c == ' ' {
            match quote {
                QuoteKind::Unquoted => {
                    if cur.len() > 0 {
                        let arg = string_from_chars(&cur);
                        done.push(arg);
                        cur.clear();
                        proof {
                            assert(done.deep_view() =~~= pre.done.push(pre.cur));
                        }
                    }
                },
                _ => {
                    cur.push(c);
                },
            }
        } else if c == '\\' {
            match quote {
                QuoteKind::InSingle => {
                    cur.push(c);
                },
                _ => {
                    pending = true;
                },
            }
        } else {
            cur.push(c);
        }
        i += 1;
    }
    proof {
        assert(input@.subrange(0, n as int) =~= input@);
    }
    if cur.len() > 0 {
        let arg = string_from_chars(&cur);
        done.push(arg);
        proof {
            assert(done.deep_view() =~~= tokens_of(input@));
        }
    }
    if done.len() == 0 {
        let r = ShellCommand { name: String::new(), args: Vec::new() };
        assert(r.args.deep_view() =~~= command_args_of(input@));
        r
    } else {
        let mut rest = done;
        let name = rest.remove(0);
        proof {
            assert(rest.deep_view() =~~= command_args_of(input@));
        }
        ShellCommand { name, args: rest }
    }
}

/// A character that the tokenizer never treats specially.
pub open spec fn plain_char(c: char) -> bool {
    c != ' ' && c != '"' && c != '\'' && c != '\\'
}

/// A non-empty token made only of characters the tokenizer never treats
/// specially: such a token survives rejoining and retokenizing unchanged.
pub open spec fn plain_word(w: Seq<char>) -> bool {
    w.len() > 0 && forall|i: int| 0 <= i < w.len() ==> plain_char(w[i])
}

/// The words joined with one space between each pair.
pub open spec fn join_spaces(ws: Seq<Seq<char>>) -> Seq<char>
    decreases ws.len(),
{
    if ws.len() == 0 {
        Seq::empty()
    } else if ws.len() == 1 {
        ws[0]
    } else {
        ws[0] + seq![' '] + join_spaces(ws.drop_first())
    }
}

/// Joining one more word appends a space and the word.
pub proof fn lemma_join_spaces_push(ws: Seq<Seq<char>>, w: Seq<char>)
    ensures
        join_spaces(ws.push(w)) == if ws.len() == 0 {
            w
        } else {
            join_spaces(ws) + seq![' '] + w
        },
    decreases ws.len(),
{
    let p = ws.push(w);
    if ws.len() == 0 {
        assert(p[0] == w);
    } else if ws.len() == 1 {
        assert(p[0] == ws[0]);
        assert(p.drop_first() =~= seq![w]);
        assert(join_spaces(seq![w]) == w);
        assert(join_spaces(ws) == ws[0]);
    } else {
        assert(p.drop_first() =~= ws.drop_first().push(w));
        lemma_join_spaces_push(ws.drop_first(), w);
        assert(p[0] == ws[0]);
        assert(ws[0] + seq![' '] + (join_spaces(ws.drop_first()) + seq![' '] + w) =~= (ws[0]
            + seq![' '] + join_spaces(ws.drop_first())) + seq![' '] + w);
    }
}

/// Running the tokenizer over a concatenation runs it over each part in turn.
proof fn lemma_tok_run_from_append(st: TokState, a: Seq<char>, b: Seq<char>)
    ensures
        tok_run_from(st, a + b) == tok_run_from(tok_run_from(st, a), b),
    decreases b.len(),
{
    if b.len() == 0 {
        assert(a + b =~= a);
    } else {
        assert((a + b).drop_last() =~= a + b.drop_last());
        assert((a + b).last() == b.last());
        lemma_tok_run_from_append(st, a, b.drop_last());
    }
}

/// From an unquoted state with no pending backslash, a run of plain
/// characters is simply appended to the current argument.
proof fn lemma_tok_run_plain(st: TokState, w: Seq<char>)
    requires
        st.quote is Unquoted,
        !st.pending,
        forall|i: int| 0 <= i < w.len() ==> plain_char(w[i]),
    ensures
        tok_run_from(st, w) == (TokState { cur: st.cur + w, ..st }),
    decreases w.len(),
{
    if w.len() == 0 {
        assert(st.cur + w =~= st.cur);
        assert(tok_run_from(st, w) =~= st);
    } else {
        lemma_tok_run_plain(st, w.drop_last());
        assert(plain_char(w.last()));
        assert((st.cur + w.drop_last()).push(w.last()) =~= st.cur + w);
    }
}

/// Running the tokenizer over joined plain words, from an unquoted state
/// with an empty current argument, emits every word but the last and leaves
/// the last accumulated.
proof fn lemma_tok_run_join(done: Seq<Seq<char>>, ws: Seq<Seq<char>>)
    requires
        ws.len() > 0,
        forall|i: int| 0 <= i < ws.len() ==> plain_word(ws[i]),
    ensures
        tok_run_from(
            TokState { done, cur: Seq::empty(), quote: QuoteKind::Unquoted, pending: false },
            join_spaces(ws),
        ) == (TokState {
            done: done + ws.drop_last(),
            cur: ws.last(),
            quote: QuoteKind::Unquoted,
            pending: false,
        }),
    decreases ws.len(),
{
    let st0 = TokState { done, cur: Seq::empty(), quote: QuoteKind::Unquoted, pending: false };
    if ws.len() == 1 {
        lemma_tok_run_plain(st0, ws[0]);
        assert(Seq::<char>::empty() + ws[0] =~= ws[0]);
        assert(done + ws.drop_last() =~= done);
    } else {
        let rest = ws.drop_first();
        assert(join_spaces(ws) == ws[0] + seq![' '] + join_spaces(rest));
        lemma_tok_run_from_append(st0, ws[0] + seq![' '], join_spaces(rest));
        lemma_tok_run_from_append(st0, ws[0], seq![' ']);
        assert(ws[0] + seq![' '] + join_spaces(rest) =~= (ws[0] + seq![' ']) + join_spaces(rest));
        lemma_tok_run_plain(st0, ws[0]);
        let st1 = tok_run_from(st0, ws[0]);
        assert(st1.cur =~= ws[0]) by {
            assert(Seq::<char>::empty() + ws[0] =~= ws[0]);
        }
        // One space flushes the accumulated word.
        let st2 = tok_run_from(st1, seq![' ']);
        assert(seq![' '].drop_last().len() == 0);
        assert(seq![' '].last() == ' ');
        assert(tok_run_from(st1, seq![' '].drop_last()) == st1);
        assert(st2 == tok_step(st1, ' ')) by {
            reveal_with_fuel(tok_run_from, 2);
        }
        assert(plain_word(ws[0]));
        assert(st2 == (TokState {
            done: done.push(ws[0]),
            cur: Seq::<char>::empty(),
            quote: QuoteKind::Unquoted,
            pending: false,
        }));
        lemma_tok_run_join(done.push(ws[0]), rest);
        assert(done.push(ws[0]) + rest.drop_last() =~= done + ws.drop_last());
        assert(rest.last() == ws.last());
    }
}

/// Joining any sequence of plain words with single spaces and tokenizing
/// gives back exactly those words.
pub proof fn lemma_retokenize_after_join(ws: Seq<Seq<char>>)
    requires
        forall|i: int| 0 <= i < ws.len() ==> plain_word(ws[i]),
    ensures
        tokens_of(join_spaces(ws)) == ws,
{
    if ws.len() == 0 {
        assert(tok_run_from(tok_init(), join_spaces(ws)) == tok_init());
        assert(tokens_of(join_spaces(ws)) =~= ws);
    } else {
        lemma_tok_run_join(Seq::empty(), ws);
        assert(tok_init() == (TokState {
            done: Seq::<Seq<char>>::empty(),
            cur: Seq::<char>::empty(),
            quote: QuoteKind::Unquoted,
            pending: false,
        }));
        assert(plain_word(ws.last()));
        assert((Seq::empty() + ws.drop_last()).push(ws.last()) =~= ws);
    }
}

/// Tokenizing is idempotent under simple inputs: when every token of a line
/// is a non-empty word without spaces, quotes or backslashes, rejoining the
/// tokens with single spaces and tokenizing again yields the same tokens.
pub proof fn lemma_tokenize_idempotent(input: Seq<char>)
    requires
        forall|i: int| 0 <= i < tokens_of(input).len() ==> plain_word(tokens_of(input)[i]),
    ensures
        tokens_of(join_spaces(tokens_of(input))) == tokens_of(input),
{
    lemma_retokenize_after_join(tokens_of(input));
}

} // verus!
