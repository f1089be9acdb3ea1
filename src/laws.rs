use vstd::prelude::*;
use crate::lexer::{TokenType, TokenView, flush, is_skipped, keyword_kind, lex, lex_from, punct_kind};
use crate::parser::{first_match, matches_at, parse_all, parse_from};

verus! {

/// The text of the keyword `thread`.
pub open spec fn thread_text() -> Seq<char> {
    seq!['t', 'h', 'r', 'e', 'a', 'd']
}

/// No token whose text is `thread` is an identifier: outside string literals
/// that text is always the keyword.
pub open spec fn keyword_respected(ts: Seq<TokenView>) -> bool {
    forall|k: int|
        0 <= k < ts.len() && (#[trigger] ts[k]).1 == thread_text() ==> ts[k].0 == TokenType::KwThread
            || ts[k].0 == TokenType::String
}

/// Every token carries text.
pub open spec fn all_have_text(ts: Seq<TokenView>) -> bool {
    forall|k: int| 0 <= k < ts.len() ==> (#[trigger] ts[k]).1.len() > 0
}

/// The number of lexical units in `s` from `i` on, for text without string
/// literals: each punctuation symbol is one, and so is each run of other
/// characters that no space or punctuation interrupts (newlines and tabs
/// inside a run do not end it). `in_word` says that a run is already open.
pub open spec fn units_from(s: Seq<char>, i: int, in_word: bool) -> int
    decreases s.len() - i,
{
    if i < 0 || i >= s.len() {
        0
    } else {
        let c = s[i];
        if punct_kind(c) is Some {
            1 + units_from(s, i + 1, false)
        } else if c == ' ' {
            units_from(s, i + 1, false)
        } else if is_skipped(c) {
            units_from(s, i + 1, in_word)
        } else {
            (if in_word { 0int } else { 1int }) + units_from(s, i + 1, true)
        }
    }
}

/// The canonical text of a token: its text, re-quoted for a string literal.
pub open spec fn text_of(t: TokenView) -> Seq<char> {
    if t.0 == TokenType::String {
        seq!['"'] + t.1 + seq!['"']
    } else {
        t.1
    }
}

/// The canonical texts of a token sequence, concatenated.
pub open spec fn render(ts: Seq<TokenView>) -> Seq<char>
    decreases ts.len(),
{
    if ts.len() == 0 {
        seq![]
    } else {
        render(ts.drop_last()) + text_of(ts.last())
    }
}

/// The text of `s` from `i` on with the whitespace (spaces, newlines, tabs)
/// outside string literals removed; `in_string` says that a literal is open.
pub open spec fn strip_from(s: Seq<char>, i: int, in_string: bool) -> Seq<char>
    decreases s.len() - i,
{
    if i < 0 || i >= s.len() {
        seq![]
    } else {
        let c = s[i];
        if in_string {
            seq![c] + strip_from(s, i + 1, c != '"')
        } else if c == '"' {
            seq![c] + strip_from(s, i + 1, true)
        } else if c == ' ' || is_skipped(c) {
            strip_from(s, i + 1, false)
        } else {
            seq![c] + strip_from(s, i + 1, false)
        }
    }
}

/// The whitespace-normalized form of a source text.
pub open spec fn normalized(s: Seq<char>) -> Seq<char> {
    strip_from(s, 0, false)
}

proof fn lemma_render_push(ts: Seq<TokenView>, t: TokenView)
    ensures
        render(ts.push(t)) == render(ts) + text_of(t),
{
    assert(ts.push(t).drop_last() =~= ts);
}

proof fn lemma_render_flush(buf: Seq<char>, acc: Seq<TokenView>)
    ensures
        render(flush(buf, acc)) == render(acc) + buf,
{
    if buf.len() == 0 {
        assert(render(acc) + buf =~= render(acc));
    } else {
        lemma_render_push(acc, (keyword_kind(buf), buf));
    }
}

proof fn lemma_keyword_from(
    s: Seq<char>,
    i: int,
    quote: Option<int>,
    buf: Seq<char>,
    acc: Seq<TokenView>,
)
    requires
        keyword_respected(acc),
    ensures
        lex_from(s, i, quote, buf, acc) is Ok ==> keyword_respected(
            lex_from(s, i, quote, buf, acc)->Ok_0,
        ),
    decreases s.len() - i,
{
    let fl = flush(buf, acc);
    assert(keyword_respected(fl)) by {
        if buf.len() > 0 {
            assert forall|k: int|
                0 <= k < fl.len() && (#[trigger] fl[k]).1 == thread_text() implies fl[k].0
                == TokenType::KwThread || fl[k].0 == TokenType::String by {
                if k < acc.len() {
                    assert(fl[k] == acc[k]);
                }
            }
        }
    }
    if i < s.len() {
        let c = s[i];
        match quote {
            Some(q) => if c == '"' {
                let next = acc.push((TokenType::String, buf));
                assert forall|k: int|
                    0 <= k < next.len() && (#[trigger] next[k]).1 == thread_text() implies next[k].0
                    == TokenType::KwThread || next[k].0 == TokenType::String by {
                    if k < acc.len() {
                        assert(next[k] == acc[k]);
                    }
                }
                lemma_keyword_from(s, i + 1, None, seq![], next);
            } else {
                lemma_keyword_from(s, i + 1, Some(q), buf.push(c), acc);
            },
            None => if c == '"' {
                lemma_keyword_from(s, i + 1, Some(i), seq![], fl);
            } else if c == ' ' {
                lemma_keyword_from(s, i + 1, None, seq![], fl);
            } else if punct_kind(c) is Some {
                let next = fl.push((punct_kind(c)->0, seq![c]));
                assert(seq![c].len() == 1);
                assert forall|k: int|
                    0 <= k < next.len() && (#[trigger] next[k]).1 == thread_text() implies next[k].0
                    == TokenType::KwThread || next[k].0 == TokenType::String by {
                    if k < fl.len() {
                        assert(next[k] == fl[k]);
                    } else {
                        assert(next[k].1.len() == 1);
                    }
                }
                lemma_keyword_from(s, i + 1, None, seq![], next);
            } else if is_skipped(c) {
                lemma_keyword_from(s, i + 1, None, buf, acc);
            } else {
                lemma_keyword_from(s, i + 1, None, buf.push(c), acc);
            },
        }
    }
}

/// Keyword precedence: in the tokens of any source text, a token whose text
/// is `thread` is the keyword, never an identifier (only a string literal
/// may hold that text otherwise).
pub proof fn lemma_thread_is_keyword(s: Seq<char>)
    ensures
        lex(s) is Ok ==> keyword_respected(lex(s)->Ok_0),
{
    lemma_keyword_from(s, 0, None, seq![], seq![]);
}

proof fn lemma_units_from(s: Seq<char>, i: int, buf: Seq<char>, acc: Seq<TokenView>)
    requires
        0 <= i,
        forall|j: int| i <= j < s.len() ==> s[j] != '"',
        all_have_text(acc),
    ensures
        lex_from(s, i, None, buf, acc) is Ok,
        lex_from(s, i, None, buf, acc)->Ok_0.len() == acc.len() + (if buf.len() > 0 {
            1int
        } else {
            0int
        }) + units_from(s, i, buf.len() > 0),
        all_have_text(lex_from(s, i, None, buf, acc)->Ok_0),
    decreases s.len() - i,
{
    let fl = flush(buf, acc);
    assert(all_have_text(fl)) by {
        if buf.len() > 0 {
            assert forall|k: int| 0 <= k < fl.len() implies (#[trigger] fl[k]).1.len() > 0 by {
                if k < acc.len() {
                    assert(fl[k] == acc[k]);
                }
            }
        }
    }
    if i < s.len() {
        let c = s[i];
        if c == ' ' {
            lemma_units_from(s, i + 1, seq![], fl);
        } else if punct_kind(c) is Some {
            let next = fl.push((punct_kind(c)->0, seq![c]));
            assert forall|k: int| 0 <= k < next.len() implies (#[trigger] next[k]).1.len() > 0 by {
                if k < fl.len() {
                    assert(next[k] == fl[k]);
                }
            }
            lemma_units_from(s, i + 1, seq![], next);
        } else if is_skipped(c) {
            lemma_units_from(s, i + 1, buf, acc);
        } else {
            lemma_units_from(s, i + 1, buf.push(c), acc);
        }
    }
}

/// For source text without string literals, tokenizing succeeds, yields one
/// token per lexical unit, and never yields a token without text.
pub proof fn lemma_token_count(s: Seq<char>)
    requires
        forall|j: int| 0 <= j < s.len() ==> s[j] != '"',
    ensures
        lex(s) is Ok,
        lex(s)->Ok_0.len() == units_from(s, 0, false),
        all_have_text(lex(s)->Ok_0),
{
    lemma_units_from(s, 0, seq![], seq![]);
}

/// What an open literal or a pending lexeme contributes to the rendered text.
pub open spec fn pending_text(quote: Option<int>, buf: Seq<char>) -> Seq<char> {
    match quote {
        Some(_) => seq!['"'] + buf,
        None => buf,
    }
}

proof fn lemma_render_from(
    s: Seq<char>,
    i: int,
    quote: Option<int>,
    buf: Seq<char>,
    acc: Seq<TokenView>,
)
    requires
        0 <= i,
    ensures
        lex_from(s, i, quote, buf, acc) is Ok ==> render(lex_from(s, i, quote, buf, acc)->Ok_0)
            == render(acc) + pending_text(quote, buf) + strip_from(s, i, quote is Some),
    decreases s.len() - i,
{
    let fl = flush(buf, acc);
    lemma_render_flush(buf, acc);
    if i >= s.len() {
        assert(render(acc) + buf + seq![] =~= render(acc) + buf);
    } else {
        let c = s[i];
        match quote {
            Some(q) => if c == '"' {
                let t = (TokenType::String, buf);
                lemma_render_push(acc, t);
                lemma_render_from(s, i + 1, None, seq![], acc.push(t));
                assert(render(acc) + text_of(t) + seq![] + strip_from(s, i + 1, false) =~= render(acc)
                    + (seq!['"'] + buf) + (seq![c] + strip_from(s, i + 1, false)));
            } else {
                lemma_render_from(s, i + 1, Some(q), buf.push(c), acc);
                assert(render(acc) + (seq!['"'] + buf.push(c)) + strip_from(s, i + 1, true) =~= render(acc)
                    + (seq!['"'] + buf) + (seq![c] + strip_from(s, i + 1, true)));
            },
            None => if c == '"' {
                lemma_render_from(s, i + 1, Some(i), seq![], fl);
                assert(render(acc) + buf + (seq!['"'] + seq![]) + strip_from(s, i + 1, true) =~= render(
                    acc,
                ) + buf + (seq![c] + strip_from(s, i + 1, true)));
            } else if c == ' ' {
                lemma_render_from(s, i + 1, None, seq![], fl);
                assert(render(acc) + buf + seq![] + strip_from(s, i + 1, false) =~= render(acc) + buf
                    + strip_from(s, i + 1, false));
            } else if punct_kind(c) is Some {
                let t = (punct_kind(c)->0, seq![c]);
                lemma_render_push(fl, t);
                lemma_render_from(s, i + 1, None, seq![], fl.push(t));
                assert(render(acc) + buf + text_of(t) + seq![] + strip_from(s, i + 1, false) =~= render(
                    acc,
                ) + buf + (seq![c] + strip_from(s, i + 1, false)));
            } else if is_skipped(c) {
                lemma_render_from(s, i + 1, None, buf, acc);
            } else {
                lemma_render_from(s, i + 1, None, buf.push(c), acc);
                assert(render(acc) + buf.push(c) + strip_from(s, i + 1, false) =~= render(acc) + buf + (
                seq![c] + strip_from(s, i + 1, false)));
            },
        }
    }
}

/// Round trip: concatenating the canonical texts of the tokens of a source
/// text (string literals re-quoted) gives back that text with the whitespace
/// outside string literals removed.
pub proof fn lemma_round_trip(s: Seq<char>)
    ensures
        lex(s) is Ok ==> render(lex(s)->Ok_0) == normalized(s),
{
    lemma_render_from(s, 0, None, seq![], seq![]);
    assert(render(seq![]) + pending_text(None, seq![]) + normalized(s) =~= normalized(s));
}

/// Tokenizing is a function of the text alone: two runs on equal texts give
/// the same tokens, or the same error.
pub proof fn lemma_tokenize_deterministic(a: Seq<char>, b: Seq<char>)
    requires
        a == b,
    ensures
        lex(a) == lex(b),
{
}

/// Where the last of the matches `ms` ends (0 for none).
pub open spec fn end_of(rules: Seq<Seq<TokenType>>, ms: Seq<(int, int)>) -> int {
    if ms.len() == 0 {
        0
    } else {
        ms.last().1 + rules[ms.last().0].len()
    }
}

/// The matches `ms` are consecutive runs from the first token on, each
/// chosen by the first rule that matches at its start.
pub open spec fn chained(ks: Seq<TokenType>, rules: Seq<Seq<TokenType>>, ms: Seq<(int, int)>) -> bool {
    &&& ms.len() > 0 ==> ms[0].1 == 0
    &&& forall|k: int|
        0 <= k < ms.len() ==> first_match(ks, (#[trigger] ms[k]).1, rules, 0) == Some(ms[k].0)
    &&& forall|k: int|
        0 < k < ms.len() ==> (#[trigger] ms[k]).1 == ms[k - 1].1 + rules[ms[k - 1].0].len()
}

proof fn lemma_first_match_from(ks: Seq<TokenType>, pos: int, rules: Seq<Seq<TokenType>>, r: int)
    requires
        0 <= r,
    ensures
        first_match(ks, pos, rules, r) matches Some(f) ==> {
            &&& r <= f < rules.len()
            &&& matches_at(ks, pos, rules[f])
            &&& forall|g: int| r <= g < f ==> !matches_at(ks, pos, #[trigger] rules[g])
        },
        first_match(ks, pos, rules, r) is None ==> forall|g: int|
            r <= g < rules.len() ==> !matches_at(ks, pos, #[trigger] rules[g]),
    decreases rules.len() - r,
{
    if r < rules.len() && !matches_at(ks, pos, rules[r]) {
        lemma_first_match_from(ks, pos, rules, r + 1);
    }
}

/// Ordered choice: the rule chosen at a cursor matches there in full, and no
/// rule before it in the list does; when none is chosen, no rule matches.
pub proof fn lemma_first_rule_wins(ks: Seq<TokenType>, pos: int, rules: Seq<Seq<TokenType>>)
    ensures
        first_match(ks, pos, rules, 0) matches Some(f) ==> {
            &&& 0 <= f < rules.len()
            &&& matches_at(ks, pos, rules[f])
            &&& forall|g: int| 0 <= g < f ==> !matches_at(ks, pos, #[trigger] rules[g])
        },
        first_match(ks, pos, rules, 0) is None ==> forall|g: int|
            0 <= g < rules.len() ==> !matches_at(ks, pos, #[trigger] rules[g]),
{
    lemma_first_match_from(ks, pos, rules, 0);
}

proof fn lemma_parse_chain(
    ks: Seq<TokenType>,
    rules: Seq<Seq<TokenType>>,
    pos: int,
    acc: Seq<(int, int)>,
)
    requires
        0 <= pos <= ks.len(),
        chained(ks, rules, acc),
        end_of(rules, acc) == pos,
    ensures
        parse_from(ks, rules, pos, acc) matches Ok(ms) ==> chained(ks, rules, ms) && end_of(rules, ms)
            == ks.len(),
    decreases ks.len() - pos,
{
    if pos < ks.len() {
        if let Some(r) = first_match(ks, pos, rules, 0) {
            lemma_first_match_from(ks, pos, rules, 0);
            let next = pos + rules[r].len();
            if pos < next <= ks.len() {
                let acc2 = acc.push((r, pos));
                assert forall|k: int| 0 < k < acc2.len() implies (#[trigger] acc2[k]).1 == acc2[k
                    - 1].1 + rules[acc2[k - 1].0].len() by {
                    if k < acc.len() {
                        assert(acc2[k] == acc[k]);
                    }
                    assert(acc2[k - 1] == acc[k - 1]);
                }
                assert forall|k: int| 0 <= k < acc2.len() implies first_match(
                    ks,
                    (#[trigger] acc2[k]).1,
                    rules,
                    0,
                ) == Some(acc2[k].0) by {
                    if k < acc.len() {
                        assert(acc2[k] == acc[k]);
                    }
                }
                lemma_parse_chain(ks, rules, next, acc2);
            }
        }
    }
}

/// A successful parse splits the tokens into consecutive runs that start at
/// the first token and end exactly at the last; each run is the one that the
/// first matching rule, in list order, covers at its start.
pub proof fn lemma_parse_covers_tokens(ks: Seq<TokenType>, rules: Seq<Seq<TokenType>>)
    ensures
        parse_all(ks, rules) matches Ok(ms) ==> chained(ks, rules, ms) && end_of(rules, ms) == ks.len(),
{
    lemma_parse_chain(ks, rules, 0, seq![]);
}

} // verus!
