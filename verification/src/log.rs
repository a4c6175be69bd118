//! The log line syntax: cleaning a token, reading `graph:node` names, and
//! parsing a line into a log entry.
//!
//! A line is either a name (`graph:node` or `node`), which registers that
//! node, or a message: `sender -> receiver`, or `sender -arg1 arg2-> receiver`,
//! optionally followed by `...` when the message was received.

use vstd::prelude::*;
use crate::text::{
    all_white_space, lemma_trim_padded, chars_of, is_white_space, join, join_parts, push_char, string_of, string_of_char, strings_view,
    trim, trim_end, trim_start, trimmed,
};
use crate::tokenize::{
    flush, lemma_tokenize_suffix, tok_state, tokenize, tokenize_defined, tokenize_is_defined,
    tokenize_spec,
};

verus! {

/// Whether cleaning `t` is defined: after trimming, `t` must keep at least one
/// character, and not be a lone quote character (whose removal as a pair of
/// quotes would have nothing to remove from).
pub open spec fn cleanup_defined(t: Seq<char>) -> bool {
    let r = trim(t);
    r.len() > 0 && !(r.len() == 1 && (r[0] == '"' || r[0] == '\''))
}

/// `t` trimmed of white space, and then of one pair of enclosing double or
/// single quotes.
pub open spec fn cleanup_spec(t: Seq<char>) -> Seq<char> {
    let r = trim(t);
    if (r[0] == '"' && r.last() == '"') || (r[0] == '\'' && r.last() == '\'') {
        r.subrange(1, r.len() - 1)
    } else {
        r
    }
}

/// Trims `token` of white space, and then of one pair of enclosing double or
/// single quotes.
pub fn cleanup(token: &str) -> (res: String)
    requires
        cleanup_defined(token@),
    ensures
        res@ == cleanup_spec(token@),
{
    let cs = chars_of(token);
    let result = trimmed(cs.as_slice());
    let n = result.len();
    if result[0] == '"' && result[n - 1] == '"' || result[0] == '\'' && result[n - 1] == '\'' {
        let mut inner: Vec<char> = Vec::new();
        let mut i: usize = 1;
        while i < n - 1
            invariant
                1 <= i <= n - 1,
                n == result@.len(),
                inner@ == result@.subrange(1, i as int),
            decreases n - 1 - i,
        {
            inner.push(result[i]);
            assert(result@.subrange(1, i + 1) =~= result@.subrange(1, i as int).push(result@[i as int]));
            i = i + 1;
        }
        string_of(inner.as_slice())
    } else {
        string_of(result.as_slice())
    }
}

/// The name of the graph that holds a node named without a graph.
pub open spec fn top_level() -> Seq<char> {
    seq!['t', 'o', 'p', '-', 'l', 'e', 'v', 'e', 'l']
}

/// The parts of `s` between the colons, as `str::split(':')` gives them.
pub open spec fn split_colon(s: Seq<char>) -> Seq<Seq<char>>
    decreases s.len(),
{
    if s.len() == 0 {
        seq![seq![]]
    } else {
        let p = split_colon(s.drop_last());
        if s.last() == ':' {
            p.push(seq![])
        } else {
            p.update(p.len() - 1, p.last().push(s.last()))
        }
    }
}

/// The `(graph, node)` pair that a name stands for: `graph:node` names a node
/// of a graph; a name without a colon names a node of the `top-level` graph;
/// of a name with more colons, the graph is the first part and the node the
/// parts after it but the last, joined with colons.
pub open spec fn to_tuple_spec(s: Seq<char>) -> (Seq<char>, Seq<char>) {
    let parts = split_colon(s);
    if parts.len() == 2 {
        (parts[0], parts[1])
    } else if parts.len() == 1 {
        (top_level(), parts[0])
    } else {
        (parts[0], join(parts.subrange(1, parts.len() - 1), seq![':']))
    }
}

proof fn lemma_split_colon_len(s: Seq<char>)
    ensures
        split_colon(s).len() >= 1,
    decreases s.len(),
{
    if s.len() > 0 {
        lemma_split_colon_len(s.drop_last());
    }
}

/// Splits `s` on colons.
fn split_on_colons(s: &[char]) -> (parts: Vec<String>)
    ensures
        strings_view(parts@) == split_colon(s@),
{
    let mut parts: Vec<String> = Vec::new();
    let mut cur = String::new();
    let mut i: usize = 0;
    while i < s.len()
        invariant
            i <= s@.len(),
            strings_view(parts@).push(cur@) == split_colon(s@.take(i as int)),
        decreases s@.len() - i,
    {
        let c = s[i];
        proof {
            assert(s@.take(i + 1).drop_last() =~= s@.take(i as int));
            lemma_split_colon_len(s@.take(i as int));
        }
        if c == ':' {
            parts.push(cur);
            cur = String::new();
            assert(strings_view(parts@).push(cur@) =~= split_colon(s@.take(i + 1)));
        } else {
            push_char(&mut cur, c);
            assert(strings_view(parts@).push(cur@) =~= split_colon(s@.take(i + 1)));
        }
        i = i + 1;
    }
    assert(s@.take(s@.len() as int) =~= s@);
    parts.push(cur);
    assert(strings_view(parts@) =~= split_colon(s@));
    parts
}

/// The graph and node that `token` names: `graph:node`, or `node` for a node
/// of the `top-level` graph.
pub fn to_tuple(token: &str) -> (res: (String, String))
    ensures
        (res.0@, res.1@) == to_tuple_spec(token@),
{
    let cs = chars_of(token);
    let tokens = split_on_colons(cs.as_slice());
    proof {
        lemma_split_colon_len(token@);
    }
    let n = tokens.len();
    if n == 2 {
        (tokens[0].clone(), tokens[1].clone())
    } else if n == 1 {
        let top = "top-level".to_owned();
        proof {
            reveal_strlit("top-level");
            assert(top@ =~= top_level());
        }
        (top, tokens[0].clone())
    } else {
        (tokens[0].clone(), join_parts(&tokens, 1, n - 1, ':'))
    }
}


/// Whether `s` holds no colon.
pub open spec fn colon_free(s: Seq<char>) -> bool {
    forall|i: int| 0 <= i < s.len() ==> s[i] != ':'
}

proof fn lemma_split_colon_free(s: Seq<char>)
    requires
        colon_free(s),
    ensures
        split_colon(s) == seq![s],
    decreases s.len(),
{
    if s.len() > 0 {
        lemma_split_colon_free(s.drop_last());
        assert(s.drop_last().push(s.last()) =~= s);
        assert(split_colon(s) =~= seq![s]);
    } else {
        assert(s =~= seq![]);
    }
}

proof fn lemma_split_colon_append(p: Seq<char>, b: Seq<char>)
    requires
        colon_free(b),
    ensures
        split_colon(p + b) == split_colon(p).update(
            split_colon(p).len() - 1,
            split_colon(p).last() + b,
        ),
    decreases b.len(),
{
    lemma_split_colon_len(p);
    if b.len() == 0 {
        assert(p + b =~= p);
        assert(split_colon(p).last() + b =~= split_colon(p).last());
        assert(split_colon(p).update(split_colon(p).len() - 1, split_colon(p).last())
            =~= split_colon(p));
    } else {
        lemma_split_colon_append(p, b.drop_last());
        assert((p + b).drop_last() =~= p + b.drop_last());
        assert((p + b).last() == b[b.len() - 1]);
        assert(b[b.len() - 1] != ':');
        let sp = split_colon(p);
        let prev = split_colon(p + b.drop_last());
        assert(prev.len() == sp.len());
        assert(prev.last() == sp.last() + b.drop_last());
        assert((sp.last() + b.drop_last()).push(b.last()) =~= sp.last() + b);
        assert(split_colon(p + b) =~= split_colon(p).update(
            split_colon(p).len() - 1,
            split_colon(p).last() + b,
        ));
    }
}

/// A law of names: a name without a colon names a node of the `top-level`
/// graph.
pub proof fn lemma_to_tuple_plain_name(n: Seq<char>)
    requires
        colon_free(n),
    ensures
        to_tuple_spec(n) == (top_level(), n),
{
    lemma_split_colon_free(n);
}

/// A law of names: `graph:node`, with a graph and a node name that hold no
/// colon, names that node of that graph.
pub proof fn lemma_to_tuple_qualified_name(g: Seq<char>, n: Seq<char>)
    requires
        colon_free(g),
        colon_free(n),
    ensures
        to_tuple_spec(g + seq![':'] + n) == (g, n),
{
    let p = g + seq![':'];
    lemma_split_colon_free(g);
    assert(p.drop_last() =~= g);
    assert(split_colon(p) =~= seq![g, seq![]]);
    lemma_split_colon_append(p, n);
    assert(seq![] + n =~= n);
    assert(split_colon(p + n) =~= seq![g, n]);
}


/// An entry of the log.
#[derive(Debug)]
pub enum Log {
    /// `sender -args-> receiver [...]`: a message from the sender node to the
    /// receiver node with its arguments, and whether it was received (`...`).
    Send((String, String), (String, String), Vec<String>, bool),
    /// `graph:node` or `node`: the node is registered in its graph.
    Register((String, String)),
}

/// A log entry with its strings taken as character sequences.
pub enum LogView {
    Send((Seq<char>, Seq<char>), (Seq<char>, Seq<char>), Seq<Seq<char>>, bool),
    Register((Seq<char>, Seq<char>)),
}

impl View for Log {
    type V = LogView;

    open spec fn view(&self) -> LogView {
        match self {
            Log::Send(s, r, args, received) => LogView::Send(
                (s.0@, s.1@),
                (r.0@, r.1@),
                strings_view(args@),
                *received,
            ),
            Log::Register(n) => LogView::Register((n.0@, n.1@)),
        }
    }
}

/// The view of an optional log entry.
pub open spec fn log_option_view(o: Option<Log>) -> Option<LogView> {
    match o {
        Some(l) => Some(l@),
        None => None,
    }
}

/// The token `-`.
pub open spec fn dash() -> Seq<char> {
    seq!['-']
}

/// The token `>`.
pub open spec fn arrow_head() -> Seq<char> {
    seq!['>']
}

/// The token `...`, which marks a message as received.
pub open spec fn dots() -> Seq<char> {
    seq!['.', '.', '.']
}

/// The index of the first `-` token of `toks` at or after `i`, or the number
/// of tokens where there is none.
pub open spec fn first_dash(toks: Seq<Seq<char>>, i: int) -> int
    decreases toks.len() - i,
{
    if i >= toks.len() {
        toks.len() as int
    } else if toks[i] == dash() {
        i
    } else {
        first_dash(toks, i + 1)
    }
}

proof fn lemma_first_dash(toks: Seq<Seq<char>>, i: int)
    requires
        0 <= i <= toks.len(),
    ensures
        i <= first_dash(toks, i) <= toks.len(),
        first_dash(toks, i) < toks.len() ==> toks[first_dash(toks, i)] == dash(),
        forall|j: int| i <= j < first_dash(toks, i) ==> toks[j] != dash(),
    decreases toks.len() - i,
{
    if i < toks.len() && toks[i] != dash() {
        lemma_first_dash(toks, i + 1);
    }
}

/// The log entry that a line with tokens `toks` stands for, if any.
pub open spec fn parse_tokens_spec(toks: Seq<Seq<char>>) -> Option<LogView> {
    let n = toks.len();
    if n == 0 {
        None
    } else {
        let name = to_tuple_spec(cleanup_spec(toks[0]));
        if n > 1 && toks[1] == dash() {
            if toks[2] == arrow_head() {
                let received = n == 5 && toks[4] == dots();
                if !received && n != 4 {
                    None
                } else {
                    Some(
                        LogView::Send(
                            name,
                            to_tuple_spec(cleanup_spec(toks[3])),
                            seq![],
                            received,
                        ),
                    )
                }
            } else {
                let d = first_dash(toks, 2);
                if d >= n || !(d + 2 < n && toks[d + 1] == arrow_head()) {
                    None
                } else {
                    let ri = d + 2;
                    let received = n == ri + 2 && toks[ri + 1] == dots();
                    if !received && n != ri + 1 {
                        None
                    } else {
                        Some(
                            LogView::Send(
                                name,
                                to_tuple_spec(cleanup_spec(toks[ri])),
                                toks.subrange(2, d).map_values(|t: Seq<char>| cleanup_spec(t)),
                                received,
                            ),
                        )
                    }
                }
            }
        } else if n == 1 {
            Some(LogView::Register(name))
        } else {
            None
        }
    }
}

/// Whether parsing a line with tokens `toks` is defined: every token that is
/// cleaned on the way can be cleaned, and a line whose second token is `-`
/// has a third.
pub open spec fn parse_tokens_defined(toks: Seq<Seq<char>>) -> bool {
    let n = toks.len();
    &&& n > 0 ==> cleanup_defined(toks[0])
    &&& (n > 1 && toks[1] == dash()) ==> {
        &&& n > 2
        &&& if toks[2] == arrow_head() {
            let received = n == 5 && toks[4] == dots();
            (received || n == 4) ==> cleanup_defined(toks[3])
        } else {
            let d = first_dash(toks, 2);
            &&& forall|j: int| 2 <= j < d ==> #[trigger] cleanup_defined(toks[j])
            &&& (d < n && d + 2 < n && toks[d + 1] == arrow_head() && ((n == d + 4 && toks[d
                + 3] == dots()) || n == d + 3)) ==> cleanup_defined(toks[d + 2])
        }
    }
}

/// Whether parsing the line `s` is defined.
pub open spec fn parse_defined(s: Seq<char>) -> bool {
    &&& tokenize_defined(s, vstd::utf8::encode_utf8(s).len() as int)
    &&& parse_tokens_defined(tokenize_spec(s))
}

/// The log entry that the line `s` stands for, if any.
pub open spec fn parse_spec(s: Seq<char>) -> Option<LogView> {
    parse_tokens_spec(tokenize_spec(s))
}

fn three_dots() -> (res: String)
    ensures
        res@ == dots(),
{
    let mut res = String::new();
    push_char(&mut res, '.');
    push_char(&mut res, '.');
    push_char(&mut res, '.');
    assert(res@ =~= dots());
    res
}

/// Parses a log line: a single name registers a node; `sender -> receiver`
/// and `sender -arg1 arg2-> receiver` are messages, received when followed by
/// `...`. Any other line gives `None`.
pub fn parse(line: &str) -> (res: Option<Log>)
    requires
        parse_defined(line@),
    ensures
        log_option_view(res) == parse_spec(line@),
{
    let tokens = tokenize(line);
    let ghost toks = tokenize_spec(line@);
    let n = tokens.len();
    if n == 0 {
        return None;
    }
    let name = to_tuple(cleanup(tokens[0].as_str()).as_str());
    let dash_token = string_of_char('-');
    let arrow_token = string_of_char('>');
    let dots_token = three_dots();
    if n > 1 && tokens[1] == dash_token {
        if tokens[2] == arrow_token {
            let received = n == 5 && tokens[4] == dots_token;
            if !received && n != 4 {
                return None;
            }
            let receiver = to_tuple(cleanup(tokens[3].as_str()).as_str());
            let no_args: Vec<String> = Vec::new();
            assert(strings_view(no_args@) =~= seq![]);
            Some(Log::Send(name, receiver, no_args, received))
        } else {
            let mut args: Vec<String> = Vec::new();
            let mut receiver_index: usize = 0;
            let mut found = false;
            let mut i: usize = 2;
            proof {
                lemma_first_dash(toks, 2);
            }
            while i < n && !found
                invariant
                    2 <= i <= n,
                    n > 2,
                    n == toks.len(),
                    toks == tokenize_spec(line@),
                    strings_view(tokens@) == toks,
                    dash_token@ == dash(),
                    arrow_token@ == arrow_head(),
                    parse_tokens_defined(toks),
                    toks[1] == dash(),
                    toks[2] != arrow_head(),
                    2 <= first_dash(toks, 2) <= n,
                    forall|j: int| 2 <= j < first_dash(toks, 2) ==> toks[j] != dash(),
                    first_dash(toks, 2) < n ==> toks[first_dash(toks, 2)] == dash(),
                    strings_view(args@) == toks.subrange(2, i as int).map_values(
                        |t: Seq<char>| cleanup_spec(t),
                    ),
                    !found ==> i <= first_dash(toks, 2) && receiver_index == 0,
                    found ==> {
                        &&& i == first_dash(toks, 2)
                        &&& i + 2 < n
                        &&& toks[i as int] == dash()
                        &&& toks[i + 1] == arrow_head()
                        &&& receiver_index == i + 2
                    },
                decreases n - i + (if found { 0int } else { 1int }),
            {
                assert(toks[i as int] == tokens@[i as int]@);
                assert(i + 1 < n ==> toks[i + 1] == tokens@[i + 1]@);
                if tokens[i] == dash_token {
                    if i < n - 2 && tokens[i + 1] == arrow_token {
                        receiver_index = i + 2;
                        found = true;
                    } else {
                        return None;
                    }
                } else {
                    let ghost before = strings_view(args@);
                    let arg = cleanup(tokens[i].as_str());
                    args.push(arg);
                    proof {
                        let f = |t: Seq<char>| cleanup_spec(t);
                        assert(strings_view(args@) =~= before.push(arg@));
                        assert(toks.subrange(2, i + 1).map_values(f) =~= toks.subrange(
                            2,
                            i as int,
                        ).map_values(f).push(cleanup_spec(toks[i as int])));
                    }
                    i = i + 1;
                }
            }
            let received = n - receiver_index == 2 && tokens[receiver_index + 1] == dots_token;
            if !received && n - receiver_index != 1 {
                return None;
            }
            let receiver = to_tuple(cleanup(tokens[receiver_index].as_str()).as_str());
            Some(Log::Send(name, receiver, args, received))
        }
    } else {
        if n == 1 {
            Some(Log::Register(name))
        } else {
            None
        }
    }
}


/// Whether `cleanup` is defined on `token`.
pub fn cleanup_is_defined(token: &str) -> (b: bool)
    ensures
        b == cleanup_defined(token@),
{
    let cs = chars_of(token);
    let r = trimmed(cs.as_slice());
    r.len() > 0 && !(r.len() == 1 && (r[0] == '"' || r[0] == '\''))
}

/// Whether `parse` is defined on `line`: where it is not, the tokenizer reads
/// past the end of the line, a token to be cleaned is blank or a lone quote,
/// or a line whose second token is `-` ends there.
pub fn parse_is_defined(line: &str) -> (b: bool)
    ensures
        b == parse_defined(line@),
{
    if !tokenize_is_defined(line) {
        return false;
    }
    let tokens = tokenize(line);
    let ghost toks = tokenize_spec(line@);
    let n = tokens.len();
    if n == 0 {
        return true;
    }
    if !cleanup_is_defined(tokens[0].as_str()) {
        return false;
    }
    let dash_token = string_of_char('-');
    let arrow_token = string_of_char('>');
    let dots_token = three_dots();
    if !(n > 1 && tokens[1] == dash_token) {
        return true;
    }
    if n <= 2 {
        return false;
    }
    if tokens[2] == arrow_token {
        let received = n == 5 && tokens[4] == dots_token;
        if received || n == 4 {
            return cleanup_is_defined(tokens[3].as_str());
        }
        return true;
    }
    let mut i: usize = 2;
    proof {
        lemma_first_dash(toks, 2);
    }
    while i < n && !(tokens[i] == dash_token)
        invariant
            2 <= i <= n,
            n > 2,
            n == toks.len(),
            toks == tokenize_spec(line@),
            tokenize_defined(line@, vstd::utf8::encode_utf8(line@).len() as int),
            cleanup_defined(toks[0]),
            toks[1] == dash(),
            toks[2] != arrow_head(),
            strings_view(tokens@) == toks,
            dash_token@ == dash(),
            i <= first_dash(toks, 2) <= n,
            forall|j: int| 2 <= j < first_dash(toks, 2) ==> toks[j] != dash(),
            first_dash(toks, 2) < n ==> toks[first_dash(toks, 2)] == dash(),
            forall|j: int| 2 <= j < i ==> #[trigger] cleanup_defined(toks[j]),
        decreases n - i,
    {
        assert(toks[i as int] == tokens@[i as int]@);
        if !cleanup_is_defined(tokens[i].as_str()) {
            assert(!cleanup_defined(toks[i as int]));
            return false;
        }
        i = i + 1;
    }
    assert(i < n ==> toks[i as int] == tokens@[i as int]@);
    assert(i == first_dash(toks, 2));
    if i < n && i < n - 2 && tokens[i + 1] == arrow_token {
        assert(toks[i + 1] == tokens@[i + 1]@);
        assert(i + 3 < n ==> toks[i + 3] == tokens@[i + 3]@);
        let ri = i + 2;
        let received = n - ri == 2 && tokens[ri + 1] == dots_token;
        if received || n - ri == 1 {
            return cleanup_is_defined(tokens[ri].as_str());
        }
    }
    true
}


/// A word that the tokenizer and `cleanup` take as it is: not empty, and
/// without white space, `-`, `>` or quotes.
pub open spec fn plain_word(w: Seq<char>) -> bool {
    &&& w.len() > 0
    &&& forall|i: int|
        0 <= i < w.len() ==> !is_white_space(#[trigger] w[i]) && w[i] != '-' && w[i] != '>'
            && w[i] != '"' && w[i] != '\''
}

/// While the tokenizer reads a plain word, it builds it up as its token.
proof fn lemma_word_run(
    s: Seq<char>,
    start: int,
    w: Seq<char>,
    res: Seq<Seq<char>>,
    j: int,
)
    requires
        plain_word(w),
        0 <= start,
        start + w.len() <= s.len(),
        s.subrange(start, start + w.len()) == w,
        tok_state(s, start) == (res, Seq::<char>::empty(), false),
        0 <= j <= w.len(),
    ensures
        tok_state(s, start + j) == (res, w.take(j), false),
    decreases j,
{
    if j == 0 {
        assert(w.take(0) =~= Seq::<char>::empty());
    } else {
        lemma_word_run(s, start, w, res, j - 1);
        let i = start + j - 1;
        assert(s[i] == w[j - 1]) by {
            assert(s.subrange(start, start + w.len())[j - 1] == s[i]);
        }
        assert(w.take(j - 1).push(w[j - 1]) =~= w.take(j));
    }
}

proof fn lemma_plain_word_cleanup(w: Seq<char>)
    requires
        plain_word(w),
    ensures
        cleanup_defined(w),
        cleanup_spec(w) == w,
{
    assert(!is_white_space(w[0]));
    assert(!is_white_space(w.last()));
    assert(trim_start(w) == w);
    assert(trim_end(w) == w);
}

/// A law of the line syntax: a line that is one plain word registers the
/// node it names.
pub proof fn lemma_parse_register_line(w: Seq<char>)
    requires
        plain_word(w),
    ensures
        parse_defined(w),
        parse_spec(w) == Some(LogView::Register(to_tuple_spec(w))),
{
    assert(w.subrange(0, w.len() as int) =~= w);
    lemma_word_run(w, 0, w, seq![], w.len() as int);
    assert(w.take(w.len() as int) =~= w);
    lemma_plain_word_cleanup(w);
    assert(tokenize_spec(w) =~= seq![w]);
    assert(w[w.len() - 1] != '-');
}

/// A law of the line syntax: `sender -> receiver`, and `sender -> receiver
/// ...`, with plain words for the sender and the receiver, parse to a message
/// without arguments from the sender to the receiver, received exactly when
/// the line ends in `...`.
pub proof fn lemma_parse_message_line(a: Seq<char>, b: Seq<char>, received: bool)
    requires
        plain_word(a),
        plain_word(b),
    ensures
        ({
            let line = a + seq![' ', '-', '>', ' '] + b + (if received {
                seq![' ', '.', '.', '.']
            } else {
                seq![]
            });
            &&& parse_defined(line)
            &&& parse_spec(line) == Some(
                LogView::Send(to_tuple_spec(a), to_tuple_spec(b), seq![], received),
            )
        }),
{
    let tail: Seq<char> = if received {
        seq![' ', '.', '.', '.']
    } else {
        seq![]
    };
    let s = a + seq![' ', '-', '>', ' '] + b + tail;
    let la = a.len() as int;
    let lb = b.len() as int;
    assert(s.subrange(0, la) =~= a);
    lemma_word_run(s, 0, a, seq![], la);
    assert(a.take(la) =~= a);
    let r1: Seq<Seq<char>> = seq![a];
    assert(s[la] == ' ');
    assert(tok_state(s, la + 1) == (r1, Seq::<char>::empty(), false));
    assert(s[la + 1] == '-');
    let r2 = r1.push(seq!['-']);
    assert(tok_state(s, la + 2) == (r2, Seq::<char>::empty(), false));
    assert(s[la + 2] == '>');
    let r3 = r2.push(seq!['>']);
    assert(flush(r2, Seq::<char>::empty()) == r2);
    assert(tok_state(s, la + 3) == (r3, Seq::<char>::empty(), false));
    assert(s[la + 3] == ' ');
    assert(tok_state(s, la + 4) == (r3, Seq::<char>::empty(), false));
    assert(s.subrange(la + 4, la + 4 + lb) =~= b);
    lemma_word_run(s, la + 4, b, r3, lb);
    assert(b.take(lb) =~= b);
    let r4 = r3.push(b);
    let d: Seq<char> = seq!['.', '.', '.'];
    if received {
        assert(s.len() == la + 4 + lb + 4);
        assert(s[la + 4 + lb] == ' ');
        assert(tok_state(s, la + 5 + lb) == (r4, Seq::<char>::empty(), false));
        assert(plain_word(d));
        assert(s.subrange(la + 5 + lb, la + 5 + lb + 3) =~= d);
        lemma_word_run(s, la + 5 + lb, d, r4, 3);
        assert(d.take(3) =~= d);
        assert(tokenize_spec(s) =~= r4.push(d));
        assert(s[s.len() - 1] == '.');
    } else {
        assert(s.len() == la + 4 + lb);
        assert(tokenize_spec(s) =~= r4);
        assert(s[s.len() - 1] == b[lb - 1]);
    }
    lemma_plain_word_cleanup(a);
    lemma_plain_word_cleanup(b);
}


/// Every word of `ws` is plain.
pub open spec fn plain_words(ws: Seq<Seq<char>>) -> bool {
    forall|i: int| 0 <= i < ws.len() ==> plain_word(#[trigger] ws[i])
}

proof fn lemma_join_take(ws: Seq<Seq<char>>, sep: Seq<char>, m: int)
    requires
        1 <= m < ws.len(),
    ensures
        join(ws.take(m + 1), sep) == join(ws.take(m), sep) + sep + ws[m],
{
    assert(ws.take(m + 1).drop_last() =~= ws.take(m));
}

proof fn lemma_join_prefix(ws: Seq<Seq<char>>, sep: Seq<char>, m: int)
    requires
        1 <= m <= ws.len(),
    ensures
        join(ws.take(m), sep).len() <= join(ws, sep).len(),
        join(ws, sep).subrange(0, join(ws.take(m), sep).len() as int) == join(ws.take(m), sep),
    decreases ws.len() - m,
{
    if m == ws.len() {
        assert(ws.take(m) =~= ws);
        assert(join(ws, sep).subrange(0, join(ws, sep).len() as int) =~= join(ws, sep));
    } else {
        lemma_join_prefix(ws, sep, m + 1);
        lemma_join_take(ws, sep, m);
        let jm = join(ws.take(m), sep);
        let jm1 = join(ws.take(m + 1), sep);
        assert(jm1.subrange(0, jm.len() as int) =~= jm);
        assert(join(ws, sep).subrange(0, jm.len() as int) =~= jm1.subrange(0, jm.len() as int));
    }
}

/// While the tokenizer reads plain words separated by single spaces, each
/// space closes a word as a token.
proof fn lemma_words_run(
    s: Seq<char>,
    start: int,
    ws: Seq<Seq<char>>,
    res: Seq<Seq<char>>,
    m: int,
)
    requires
        plain_words(ws),
        1 <= m <= ws.len(),
        0 <= start,
        start + join(ws, seq![' ']).len() <= s.len(),
        s.subrange(start, start + join(ws, seq![' ']).len()) == join(ws, seq![' ']),
        tok_state(s, start) == (res, Seq::<char>::empty(), false),
    ensures
        tok_state(s, start + join(ws.take(m), seq![' ']).len()) == (
            res + ws.take(m - 1),
            ws[m - 1],
            false,
        ),
    decreases m,
{
    let sep = seq![' '];
    let all = join(ws, sep);
    lemma_join_prefix(ws, sep, m);
    let jm = join(ws.take(m), sep);
    assert(s.subrange(start, start + jm.len()) =~= jm) by {
        assert(s.subrange(start, start + jm.len()) =~= s.subrange(start, start + all.len()).subrange(
            0,
            jm.len() as int,
        ));
    }
    if m == 1 {
        assert(ws.take(1) =~= seq![ws[0]]);
        assert(jm == ws[0]);
        assert(plain_word(ws[0]));
        lemma_word_run(s, start, ws[0], res, ws[0].len() as int);
        assert(ws[0].take(ws[0].len() as int) =~= ws[0]);
        assert(res + ws.take(0) =~= res);
    } else {
        lemma_words_run(s, start, ws, res, m - 1);
        lemma_join_take(ws, sep, m - 1);
        let jp = join(ws.take(m - 1), sep);
        let q = start + jp.len();
        assert(s[q] == ' ') by {
            assert(jm[jp.len() as int] == ' ');
            assert(s.subrange(start, start + jm.len())[jp.len() as int] == s[q]);
        }
        assert(plain_word(ws[m - 2]));
        assert(tok_state(s, q + 1) == (res + ws.take(m - 1), Seq::<char>::empty(), false)) by {
            assert((res + ws.take(m - 2)).push(ws[m - 2]) =~= res + ws.take(m - 1));
        }
        assert(plain_word(ws[m - 1]));
        assert(s.subrange(q + 1, q + 1 + ws[m - 1].len()) =~= ws[m - 1]) by {
            assert forall|t: int| 0 <= t < ws[m - 1].len() implies s[q + 1 + t] == #[trigger] ws[m - 1][t] by {
                assert(jm[jp.len() + 1 + t] == ws[m - 1][t]);
                assert(s.subrange(start, start + jm.len())[jp.len() + 1 + t] == s[q + 1 + t]);
            }
        }
        lemma_word_run(s, q + 1, ws[m - 1], res + ws.take(m - 1), ws[m - 1].len() as int);
        assert(ws[m - 1].take(ws[m - 1].len() as int) =~= ws[m - 1]);
    }
}

/// A law of the line syntax: `sender -arg1 arg2-> receiver`, and the same
/// followed by ` ...`, with plain words for the sender, the receiver and
/// the one or more arguments (separated by single spaces), parse to a message
/// from the sender to the receiver with those arguments, received exactly
/// when the line ends in `...`.
pub proof fn lemma_parse_message_with_args_line(
    a: Seq<char>,
    args: Seq<Seq<char>>,
    b: Seq<char>,
    received: bool,
)
    requires
        plain_word(a),
        plain_word(b),
        args.len() >= 1,
        plain_words(args),
    ensures
        ({
            let line = a + seq![' ', '-'] + join(args, seq![' ']) + seq!['-', '>', ' '] + b + (
            if received {
                seq![' ', '.', '.', '.']
            } else {
                seq![]
            });
            &&& parse_defined(line)
            &&& parse_spec(line) == Some(
                LogView::Send(to_tuple_spec(a), to_tuple_spec(b), args, received),
            )
        }),
{
    let sep = seq![' '];
    let tail: Seq<char> = if received {
        seq![' ', '.', '.', '.']
    } else {
        seq![]
    };
    let ja = join(args, sep);
    let s = a + seq![' ', '-'] + ja + seq!['-', '>', ' '] + b + tail;
    let la = a.len() as int;
    let lb = b.len() as int;
    let k = args.len() as int;
    let lj = ja.len() as int;
    assert(s.subrange(0, la) =~= a);
    lemma_word_run(s, 0, a, seq![], la);
    assert(a.take(la) =~= a);
    let r1: Seq<Seq<char>> = seq![a];
    assert(s[la] == ' ');
    assert(tok_state(s, la + 1) == (r1, Seq::<char>::empty(), false));
    assert(s[la + 1] == '-');
    let r2 = r1.push(seq!['-']);
    assert(tok_state(s, la + 2) == (r2, Seq::<char>::empty(), false));
    assert(s.subrange(la + 2, la + 2 + lj) =~= ja);
    lemma_words_run(s, la + 2, args, r2, k);
    assert(args.take(k) =~= args);
    let p = la + 2 + lj;
    assert(plain_word(args[k - 1]));
    assert(s[p] == '-');
    assert(s[p + 1] == '>');
    let r3 = (r2 + args.take(k - 1)).push(args[k - 1]);
    assert(r3 =~= r2 + args);
    let r4 = r3.push(seq!['-']);
    assert(tok_state(s, p + 1) == (r4, Seq::<char>::empty(), false));
    let r5 = r4.push(seq!['>']);
    assert(flush(r4, Seq::<char>::empty()) == r4);
    assert(tok_state(s, p + 2) == (r5, Seq::<char>::empty(), false));
    assert(s[p + 2] == ' ');
    assert(tok_state(s, p + 3) == (r5, Seq::<char>::empty(), false));
    assert(s.subrange(p + 3, p + 3 + lb) =~= b);
    lemma_word_run(s, p + 3, b, r5, lb);
    assert(b.take(lb) =~= b);
    let r6 = r5.push(b);
    let d: Seq<char> = seq!['.', '.', '.'];
    let toks = tokenize_spec(s);
    if received {
        assert(s.len() == p + 3 + lb + 4);
        assert(s[p + 3 + lb] == ' ');
        assert(tok_state(s, p + 4 + lb) == (r6, Seq::<char>::empty(), false));
        assert(plain_word(d));
        assert(s.subrange(p + 4 + lb, p + 4 + lb + 3) =~= d);
        lemma_word_run(s, p + 4 + lb, d, r6, 3);
        assert(d.take(3) =~= d);
        assert(toks =~= r6.push(d));
        assert(s[s.len() - 1] == '.');
    } else {
        assert(s.len() == p + 3 + lb);
        assert(toks =~= r6);
        assert(s[s.len() - 1] == b[lb - 1]);
    }
    assert(toks[0] == a);
    assert(toks[1] == dash());
    assert(toks[2] == args[0]);
    assert(plain_word(args[0]));
    assert(args[0] != arrow_head()) by {
        if args[0] == arrow_head() {
            assert(args[0][0] == '>');
        }
    }
    assert forall|j: int| 2 <= j < 2 + k implies toks[j] == args[j - 2] && toks[j] != dash() by {
        assert(plain_word(args[j - 2]));
        if args[j - 2] == dash() {
            assert(args[j - 2][0] == '-');
        }
    }
    assert(toks[2 + k] == dash());
    assert(toks[3 + k] == arrow_head());
    assert(toks[4 + k] == b);
    lemma_first_dash(toks, 2);
    let fd = first_dash(toks, 2);
    if fd < 2 + k {
        assert(toks[fd] != dash());
    }
    assert(fd == 2 + k);
    lemma_plain_word_cleanup(a);
    lemma_plain_word_cleanup(b);
    assert forall|j: int| 2 <= j < fd implies #[trigger] cleanup_defined(toks[j]) by {
        lemma_plain_word_cleanup(args[j - 2]);
    }
    assert(toks.subrange(2, fd).map_values(|t: Seq<char>| cleanup_spec(t)) =~= args) by {
        assert forall|j: int| 0 <= j < k implies cleanup_spec(toks[2 + j]) == args[j] by {
            lemma_plain_word_cleanup(args[j]);
        }
    }
}


/// The characters that follow a receiver on a received message: ` ...`.
pub open spec fn received_tail(received: bool) -> Seq<char> {
    if received {
        seq![' ', '.', '.', '.']
    } else {
        seq![]
    }
}

/// A law of the line syntax: the receiver of `sender -> t` (and of
/// `sender -> t ...`) is read from the token `t` exactly as the node of a
/// line `t` alone is: trimmed, unquoted, then read as `graph:node`. Here `t`
/// is any text that the tokenizer takes as one token `u` (a quoted name with
/// spaces, say), not starting with `-`, and that stays one token before
/// ` ...`; the sender is a plain word.
pub proof fn lemma_parse_message_receiver_is_register_name(
    a: Seq<char>,
    t: Seq<char>,
    u: Seq<char>,
    received: bool,
)
    requires
        plain_word(a),
        t.len() > 0,
        t[0] != '-',
        tokenize_spec(t) == seq![u],
        received ==> tokenize_spec(t + received_tail(true)) == seq![u, dots()],
    ensures
        parse_spec(t) == Some(LogView::Register(to_tuple_spec(cleanup_spec(u)))),
        parse_spec(a + seq![' ', '-', '>', ' '] + t + received_tail(received)) == Some(
            LogView::Send(to_tuple_spec(a), to_tuple_spec(cleanup_spec(u)), seq![], received),
        ),
{
    let t2 = t + received_tail(received);
    if !received {
        assert(t2 =~= t);
    }
    let s = a + seq![' ', '-', '>', ' '] + t2;
    assert(s =~= a + seq![' ', '-', '>', ' '] + t + received_tail(received));
    let la = a.len() as int;
    assert(s.subrange(0, la) =~= a);
    lemma_word_run(s, 0, a, seq![], la);
    assert(a.take(la) =~= a);
    let r1: Seq<Seq<char>> = seq![a];
    assert(s[la] == ' ');
    assert(tok_state(s, la + 1) == (r1, Seq::<char>::empty(), false));
    assert(s[la + 1] == '-');
    let r2 = r1.push(seq!['-']);
    assert(tok_state(s, la + 2) == (r2, Seq::<char>::empty(), false));
    assert(s[la + 2] == '>');
    let r3 = r2.push(seq!['>']);
    assert(flush(r2, Seq::<char>::empty()) == r2);
    assert(tok_state(s, la + 3) == (r3, Seq::<char>::empty(), false));
    assert(s[la + 3] == ' ');
    assert(tok_state(s, la + 4) == (r3, Seq::<char>::empty(), false));
    assert(s.subrange(la + 4, s.len() as int) =~= t2);
    assert(t2[0] == t[0]);
    lemma_tokenize_suffix(s, la + 4, t2, r3);
    let toks = tokenize_spec(s);
    if received {
        assert(toks =~= seq![a, dash(), arrow_head(), u, dots()]);
    } else {
        assert(toks =~= seq![a, dash(), arrow_head(), u]);
    }
    lemma_plain_word_cleanup(a);
}

/// A law of the line syntax: the receiver of `sender -arg1 arg2-> t` (and of
/// the same followed by ` ...`) is read from the token `t` exactly as the
/// node of a line `t` alone is, with `t` as in
/// `lemma_parse_message_receiver_is_register_name` and plain words for the
/// sender and the arguments.
pub proof fn lemma_parse_message_with_args_receiver_is_register_name(
    a: Seq<char>,
    args: Seq<Seq<char>>,
    t: Seq<char>,
    u: Seq<char>,
    received: bool,
)
    requires
        plain_word(a),
        args.len() >= 1,
        plain_words(args),
        t.len() > 0,
        t[0] != '-',
        tokenize_spec(t) == seq![u],
        received ==> tokenize_spec(t + received_tail(true)) == seq![u, dots()],
    ensures
        parse_spec(t) == Some(LogView::Register(to_tuple_spec(cleanup_spec(u)))),
        parse_spec(
            a + seq![' ', '-'] + join(args, seq![' ']) + seq!['-', '>', ' '] + t + received_tail(
                received,
            ),
        ) == Some(
            LogView::Send(to_tuple_spec(a), to_tuple_spec(cleanup_spec(u)), args, received),
        ),
{
    let sep = seq![' '];
    let t2 = t + received_tail(received);
    if !received {
        assert(t2 =~= t);
    }
    let ja = join(args, sep);
    let s = a + seq![' ', '-'] + ja + seq!['-', '>', ' '] + t2;
    assert(s =~= a + seq![' ', '-'] + ja + seq!['-', '>', ' '] + t + received_tail(received));
    let la = a.len() as int;
    let k = args.len() as int;
    let lj = ja.len() as int;
    assert(s.subrange(0, la) =~= a);
    lemma_word_run(s, 0, a, seq![], la);
    assert(a.take(la) =~= a);
    let r1: Seq<Seq<char>> = seq![a];
    assert(s[la] == ' ');
    assert(tok_state(s, la + 1) == (r1, Seq::<char>::empty(), false));
    assert(s[la + 1] == '-');
    let r2 = r1.push(seq!['-']);
    assert(tok_state(s, la + 2) == (r2, Seq::<char>::empty(), false));
    assert(s.subrange(la + 2, la + 2 + lj) =~= ja);
    lemma_words_run(s, la + 2, args, r2, k);
    assert(args.take(k) =~= args);
    let p = la + 2 + lj;
    assert(plain_word(args[k - 1]));
    assert(s[p] == '-');
    assert(s[p + 1] == '>');
    let r3 = (r2 + args.take(k - 1)).push(args[k - 1]);
    assert(r3 =~= r2 + args);
    let r4 = r3.push(seq!['-']);
    assert(tok_state(s, p + 1) == (r4, Seq::<char>::empty(), false));
    let r5 = r4.push(seq!['>']);
    assert(flush(r4, Seq::<char>::empty()) == r4);
    assert(tok_state(s, p + 2) == (r5, Seq::<char>::empty(), false));
    assert(s[p + 2] == ' ');
    assert(tok_state(s, p + 3) == (r5, Seq::<char>::empty(), false));
    assert(s.subrange(p + 3, s.len() as int) =~= t2);
    assert(t2[0] == t[0]);
    lemma_tokenize_suffix(s, p + 3, t2, r5);
    let toks = tokenize_spec(s);
    if received {
        assert(toks =~= r5 + seq![u, dots()]);
        assert(toks.len() == k + 6);
        assert(toks[k + 5] == dots());
    } else {
        assert(toks =~= r5 + seq![u]);
        assert(toks.len() == k + 5);
    }
    assert(toks[0] == a);
    assert(toks[1] == dash());
    assert(toks[2] == args[0]);
    assert(plain_word(args[0]));
    assert(args[0] != arrow_head()) by {
        if args[0] == arrow_head() {
            assert(args[0][0] == '>');
        }
    }
    assert forall|j: int| 2 <= j < 2 + k implies toks[j] == args[j - 2] && toks[j] != dash() by {
        assert(plain_word(args[j - 2]));
        if args[j - 2] == dash() {
            assert(args[j - 2][0] == '-');
        }
    }
    assert(toks[2 + k] == dash());
    assert(toks[3 + k] == arrow_head());
    assert(toks[4 + k] == u);
    lemma_first_dash(toks, 2);
    let fd = first_dash(toks, 2);
    if fd < 2 + k {
        assert(toks[fd] != dash());
    }
    assert(fd == 2 + k);
    lemma_plain_word_cleanup(a);
    assert(toks.subrange(2, fd).map_values(|x: Seq<char>| cleanup_spec(x)) =~= args) by {
        assert forall|j: int| 0 <= j < k implies cleanup_spec(toks[2 + j]) == args[j] by {
            lemma_plain_word_cleanup(args[j]);
        }
    }
}


/// Inside double quotes, the tokenizer adds every character but a double
/// quote to the token under way, spaces, `-` and `>` included.
proof fn lemma_string_run(
    s: Seq<char>,
    start: int,
    q: Seq<char>,
    res: Seq<Seq<char>>,
    token: Seq<char>,
    j: int,
)
    requires
        forall|i: int| 0 <= i < q.len() ==> #[trigger] q[i] != '"',
        0 <= start,
        start + q.len() <= s.len(),
        s.subrange(start, start + q.len()) == q,
        tok_state(s, start) == (res, token, true),
        0 <= j <= q.len(),
    ensures
        tok_state(s, start + j) == (res, token + q.take(j), true),
    decreases j,
{
    if j == 0 {
        assert(token + q.take(0) =~= token);
    } else {
        lemma_string_run(s, start, q, res, token, j - 1);
        assert(s[start + j - 1] == q[j - 1]) by {
            assert(s.subrange(start, start + q.len())[j - 1] == s[start + j - 1]);
        }
        assert((token + q.take(j - 1)).push(q[j - 1]) =~= token + q.take(j));
    }
}

/// A law of the tokenizer: a double quote outside quotes opens a string
/// wherever it stands in a token, and the spaces (and `-`, `>`) up to the
/// next double quote do not delimit: a plain word followed by a quoted text
/// without double quotes is one token, quotes and all.
pub proof fn lemma_quote_keeps_text_in_one_token(w: Seq<char>, q: Seq<char>)
    requires
        plain_word(w),
        forall|i: int| 0 <= i < q.len() ==> #[trigger] q[i] != '"',
    ensures
        tokenize_spec(w + seq!['"'] + q + seq!['"']) == seq![w + seq!['"'] + q + seq!['"']],
{
    let s = w + seq!['"'] + q + seq!['"'];
    let lw = w.len() as int;
    let lq = q.len() as int;
    assert(s.subrange(0, lw) =~= w);
    lemma_word_run(s, 0, w, seq![], lw);
    assert(w.take(lw) =~= w);
    assert(s[lw] == '"');
    let t1 = w.push('"');
    assert(tok_state(s, lw + 1) == (Seq::<Seq<char>>::empty(), t1, true));
    assert(s.subrange(lw + 1, lw + 1 + lq) =~= q);
    lemma_string_run(s, lw + 1, q, seq![], t1, lq);
    assert(q.take(lq) =~= q);
    assert(s[lw + 1 + lq] == '"');
    assert(s.len() == lw + 2 + lq);
    assert((t1 + q).push('"') =~= s);
    assert(tokenize_spec(s) =~= seq![s]);
}


/// A law of `cleanup`: a token made of a text `q` between a pair of equal
/// quotes (double or single), with only white space around them, cleans to
/// exactly `q`: the white space outside the quotes goes, the two quotes go,
/// and all of `q` stays, its own white space and quotes included.
pub proof fn lemma_cleanup_unquotes(l: Seq<char>, c: char, q: Seq<char>, r: Seq<char>)
    requires
        all_white_space(l),
        all_white_space(r),
        c == '"' || c == '\'',
    ensures
        cleanup_defined(l + seq![c] + q + seq![c] + r),
        cleanup_spec(l + seq![c] + q + seq![c] + r) == q,
{
    let x = seq![c] + q + seq![c];
    assert(l + seq![c] + q + seq![c] + r =~= l + x + r);
    assert(x[0] == c);
    assert(x.last() == c);
    lemma_trim_padded(l, x, r);
    assert(x.subrange(1, x.len() - 1) =~= q);
}

} // verus!
