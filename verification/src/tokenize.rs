//! Splitting a log line into tokens.
//!
//! Tokens are delimited by spaces, except inside double quotes. A `>` is a
//! token of its own, and so is a `-` that follows a space or precedes a `>`.

use vstd::prelude::*;
use crate::text::{chars_of, push_char, string_of_char, strings_view};

verus! {

/// `res` with `token` appended when `token` is not empty.
pub open spec fn flush(res: Seq<Seq<char>>, token: Seq<char>) -> Seq<Seq<char>> {
    if token.len() > 0 {
        res.push(token)
    } else {
        res
    }
}

/// The tokenizer's state after the character at index `i` of `s`, given its
/// state `st` before it: the tokens so far, the token being built, and whether
/// the scan is inside double quotes.
pub open spec fn tok_step(s: Seq<char>, i: int, st: (Seq<Seq<char>>, Seq<char>, bool)) -> (
    Seq<Seq<char>>,
    Seq<char>,
    bool,
) {
    let (res, token, in_string) = st;
    let c = s[i];
    if !in_string {
        if c == ' ' {
            (flush(res, token), seq![], false)
        } else if c == '-' {
            if (i > 0 && s[i - 1] == ' ') || (i + 1 < s.len() && s[i + 1] == '>') {
                (flush(res, token).push(seq!['-']), seq![], false)
            } else {
                (res, token.push(c), false)
            }
        } else if c == '>' {
            (flush(res, token).push(seq!['>']), seq![], false)
        } else {
            (res, token.push(c), c == '"')
        }
    } else {
        (res, token.push(c), c != '"')
    }
}

/// The tokenizer's state after the first `k` characters of `s`.
pub open spec fn tok_state(s: Seq<char>, k: int) -> (Seq<Seq<char>>, Seq<char>, bool)
    decreases k,
{
    if k <= 0 {
        (seq![], seq![], false)
    } else {
        tok_step(s, k - 1, tok_state(s, k - 1))
    }
}

/// The tokens of `s`.
pub open spec fn tokenize_spec(s: Seq<char>) -> Seq<Seq<char>> {
    let st = tok_state(s, s.len() as int);
    flush(st.0, st.1)
}

/// Whether tokenizing a line with characters `s` and UTF-8 length `byte_len`
/// runs to its end. It does not where the last character is a `-` outside
/// quotes that follows no space and the byte length exceeds the character
/// count: the look-ahead for a `>` is bounded by the byte length and then
/// reads past the last character.
pub open spec fn tokenize_defined(s: Seq<char>, byte_len: int) -> bool {
    let n = s.len() as int;
    !(n > 0 && s[n - 1] == '-' && !tok_state(s, n - 1).2 && !(n - 1 > 0 && s[n - 2] == ' ') && n
        - 1 < byte_len - 1)
}

/// The characters of the first `k` characters of `s` that are kept in tokens:
/// all but the spaces outside quotes.
pub open spec fn kept_chars(s: Seq<char>, k: int) -> Seq<char>
    decreases k,
{
    if k <= 0 {
        seq![]
    } else if s[k - 1] == ' ' && !tok_state(s, k - 1).2 {
        kept_chars(s, k - 1)
    } else {
        kept_chars(s, k - 1).push(s[k - 1])
    }
}

/// The concatenation of `ts`.
pub open spec fn concat(ts: Seq<Seq<char>>) -> Seq<char>
    decreases ts.len(),
{
    if ts.len() == 0 {
        seq![]
    } else {
        concat(ts.drop_last()) + ts.last()
    }
}

proof fn lemma_concat_push(ts: Seq<Seq<char>>, t: Seq<char>)
    ensures
        concat(ts.push(t)) == concat(ts) + t,
{
    assert(ts.push(t).drop_last() =~= ts);
}

proof fn lemma_concat_flush(ts: Seq<Seq<char>>, t: Seq<char>)
    ensures
        concat(flush(ts, t)) == concat(ts) + t,
{
    if t.len() > 0 {
        lemma_concat_push(ts, t);
    } else {
        assert(concat(ts) + t =~= concat(ts));
    }
}

/// Every token of the state after `k` characters is non-empty, and the tokens
/// and the token being built hold exactly the kept characters.
proof fn lemma_tok_state(s: Seq<char>, k: int)
    requires
        0 <= k <= s.len(),
    ensures
        forall|j: int|
            0 <= j < tok_state(s, k).0.len() ==> #[trigger] tok_state(s, k).0[j].len() > 0,
        concat(tok_state(s, k).0) + tok_state(s, k).1 == kept_chars(s, k),
    decreases k,
{
    if k > 0 {
        lemma_tok_state(s, k - 1);
        let (res, token, in_string) = tok_state(s, k - 1);
        let c = s[k - 1];
        lemma_concat_flush(res, token);
        lemma_concat_push(flush(res, token), seq!['-']);
        lemma_concat_push(flush(res, token), seq!['>']);
        let st = tok_state(s, k);
        assert(concat(st.0) + st.1 =~= kept_chars(s, k));
    } else {
        assert(concat(tok_state(s, k).0) + tok_state(s, k).1 =~= kept_chars(s, k));
    }
}

/// A law of the tokenizer: no token is empty, and the tokens, concatenated,
/// give back the line without the spaces that delimit them (those outside
/// double quotes); no other character is lost, added or moved.
pub proof fn lemma_tokens_keep_all_but_delimiting_spaces(s: Seq<char>)
    ensures
        forall|j: int|
            0 <= j < tokenize_spec(s).len() ==> #[trigger] tokenize_spec(s)[j].len() > 0,
        concat(tokenize_spec(s)) == kept_chars(s, s.len() as int),
{
    lemma_tok_state(s, s.len() as int);
    let st = tok_state(s, s.len() as int);
    lemma_concat_flush(st.0, st.1);
}

proof fn lemma_utf8_len(s: Seq<char>)
    ensures
        vstd::utf8::encode_utf8(s).len() >= s.len(),
    decreases s.len(),
{
    if s.len() > 0 {
        lemma_utf8_len(s.drop_first());
    }
}

/// Splits `line` into tokens: spaces outside double quotes delimit tokens, a
/// `>` outside quotes is a token of its own, and so is a `-` outside quotes
/// that follows a space or precedes a `>`.
pub fn tokenize(line: &str) -> (result: Vec<String>)
    requires
        tokenize_defined(line@, vstd::utf8::encode_utf8(line@).len() as int),
    ensures
        strings_view(result@) == tokenize_spec(line@),
{
    let chars = chars_of(line);
    let byte_len = line.as_bytes().len();
    let n = chars.len();
    let ghost s = line@;
    proof {
        lemma_utf8_len(s);
    }
    let mut result: Vec<String> = Vec::new();
    let mut token = String::new();
    let mut in_string = false;
    let mut i: usize = 0;
    while i < n
        invariant
            i <= n,
            n == s.len(),
            chars@ == s,
            byte_len >= n,
            tokenize_defined(s, byte_len as int),
            strings_view(result@) == tok_state(s, i as int).0,
            token@ == tok_state(s, i as int).1,
            in_string == tok_state(s, i as int).2,
        decreases n - i,
    {
        let c = chars[i];
        if !in_string {
            if c == ' ' {
                if !token.as_str().is_empty() {
                    result.push(token);
                    token = String::new();
                }
            } else if c == '-' {
                if (i > 0 && chars[i - 1] == ' ') || (i + 1 < byte_len && chars[i + 1] == '>') {
                    if !token.as_str().is_empty() {
                        result.push(token);
                        token = String::new();
                    }
                    result.push(string_of_char('-'));
                } else {
                    push_char(&mut token, c);
                }
            } else if c == '>' {
                if !token.as_str().is_empty() {
                    result.push(token);
                    token = String::new();
                }
                result.push(string_of_char('>'));
            } else {
                if c == '"' {
                    in_string = true;
                }
                push_char(&mut token, c);
            }
        } else {
            if c == '"' {
                in_string = false;
            }
            push_char(&mut token, c);
        }
        proof {
            assert(strings_view(result@) =~= tok_state(s, i + 1).0);
        }
        i = i + 1;
    }
    if !token.as_str().is_empty() {
        result.push(token);
    }
    proof {
        assert(strings_view(result@) =~= tokenize_spec(s));
    }
    result
}


/// Whether `tokenize` is defined on `line` (see `tokenize_defined`).
pub fn tokenize_is_defined(line: &str) -> (b: bool)
    ensures
        b == tokenize_defined(line@, vstd::utf8::encode_utf8(line@).len() as int),
{
    let chars = chars_of(line);
    let byte_len = line.as_bytes().len();
    let n = chars.len();
    if n == 0 {
        return true;
    }
    let ghost s = line@;
    let mut in_string = false;
    let mut i: usize = 0;
    while i < n - 1
        invariant
            i <= n - 1,
            n == s.len(),
            chars@ == s,
            in_string == tok_state(s, i as int).2,
        decreases n - 1 - i,
    {
        let c = chars[i];
        if !in_string {
            in_string = c == '"';
        } else {
            in_string = c != '"';
        }
        i = i + 1;
    }
    let last = n - 1;
    !(chars[last] == '-' && !in_string && !(last > 0 && chars[last - 1] == ' ') && last + 1
        < byte_len)
}


/// A law of the tokenizer: it is defined on every ASCII line (its
/// look-ahead can run past the last character only where some character takes
/// more than one byte).
pub proof fn lemma_ascii_lines_tokenize(s: Seq<char>)
    requires
        vstd::utf8::is_ascii_chars(s),
    ensures
        tokenize_defined(s, vstd::utf8::encode_utf8(s).len() as int),
{
    vstd::utf8::is_ascii_chars_encode_utf8(s);
}


proof fn lemma_flush_prefix(res: Seq<Seq<char>>, r: Seq<Seq<char>>, t: Seq<char>, x: Seq<char>)
    ensures
        flush(res + r, t) == res + flush(r, t),
        (res + r).push(x) == res + r.push(x),
        (res + flush(r, t)).push(x) == res + flush(r, t).push(x),
{
    assert((res + r).push(t) =~= res + r.push(t));
    assert((res + r).push(x) =~= res + r.push(x));
    assert((res + flush(r, t)).push(x) =~= res + flush(r, t).push(x));
}

/// The tokenizer reads the characters after a space, from a state with no
/// token under way, as it reads them on their own: what it has found before
/// stays in front. (A `-` right after the space would be read differently,
/// as it follows a space.)
pub proof fn lemma_tok_shift(
    s: Seq<char>,
    start: int,
    t: Seq<char>,
    res: Seq<Seq<char>>,
    j: int,
)
    requires
        0 < start,
        start + t.len() == s.len(),
        s.subrange(start, s.len() as int) == t,
        s[start - 1] == ' ',
        t.len() > 0 ==> t[0] != '-',
        tok_state(s, start) == (res, Seq::<char>::empty(), false),
        0 <= j <= t.len(),
    ensures
        tok_state(s, start + j) == (
            res + tok_state(t, j).0,
            tok_state(t, j).1,
            tok_state(t, j).2,
        ),
    decreases j,
{
    if j == 0 {
        assert(res + Seq::<Seq<char>>::empty() =~= res);
    } else {
        lemma_tok_shift(s, start, t, res, j - 1);
        let i = start + j - 1;
        let (r, tk, ins) = tok_state(t, j - 1);
        assert(s[i] == t[j - 1]) by {
            assert(s.subrange(start, s.len() as int)[j - 1] == s[i]);
        }
        if j - 1 > 0 {
            assert(s[i - 1] == t[j - 2]) by {
                assert(s.subrange(start, s.len() as int)[j - 2] == s[i - 1]);
            }
        }
        if j < t.len() {
            assert(s[i + 1] == t[j]) by {
                assert(s.subrange(start, s.len() as int)[j] == s[i + 1]);
            }
        }
        lemma_flush_prefix(res, r, tk, seq!['-']);
        lemma_flush_prefix(res, r, tk, seq!['>']);
    }
}

/// The tokens of a line `prefix + t`, where `prefix` ends in a space and
/// leaves no token under way, are the tokens found in `prefix` followed by
/// the tokens of `t` on its own (`t` not starting with `-`).
pub proof fn lemma_tokenize_suffix(s: Seq<char>, start: int, t: Seq<char>, res: Seq<Seq<char>>)
    requires
        0 < start,
        start + t.len() == s.len(),
        s.subrange(start, s.len() as int) == t,
        s[start - 1] == ' ',
        t.len() > 0 ==> t[0] != '-',
        tok_state(s, start) == (res, Seq::<char>::empty(), false),
    ensures
        tokenize_spec(s) == res + tokenize_spec(t),
        tok_state(s, s.len() - 1).2 == tok_state(t, t.len() - 1).2 || t.len() == 0,
{
    lemma_tok_shift(s, start, t, res, t.len() as int);
    let st = tok_state(t, t.len() as int);
    lemma_flush_prefix(res, st.0, st.1, seq![]);
    if t.len() > 0 {
        lemma_tok_shift(s, start, t, res, t.len() - 1);
    }
}

} // verus!
