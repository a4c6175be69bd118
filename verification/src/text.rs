//! Character-level helpers: the characters of a string, Unicode white space,
//! trimming and building strings.

use vstd::prelude::*;

verus! {

/// The characters of `s`, in order.
pub fn chars_of(s: &str) -> (res: Vec<char>)
    ensures
        res@ == s@,
{
    let mut res: Vec<char> = Vec::new();
    for c in it: s.chars()
        invariant
            res@ == it.seq().take(it.index() as int),
            it.seq() == s@,
    {
        res.push(c);
    }
    res
}

/// Appends `c` to `s` (`String::push`), which the standard library documents
/// as adding the character to the end of the string.
#[verifier::external_body]
pub(crate) fn push_char(s: &mut String, c: char)
    ensures
        final(s)@ == old(s)@.push(c),
{
    s.push(c);
}

/// A string holding exactly the characters of `cs`.
pub fn string_of(cs: &[char]) -> (res: String)
    ensures
        res@ == cs@,
{
    let mut res = String::new();
    for i in 0..cs.len()
        invariant
            res@ == cs@.take(i as int),
    {
        push_char(&mut res, cs[i]);
        assert(cs@.take(i + 1) =~= cs@.take(i as int).push(cs@[i as int]));
    }
    assert(cs@.take(cs@.len() as int) =~= cs@);
    res
}

/// A string holding the single character `c`.
pub fn string_of_char(c: char) -> (res: String)
    ensures
        res@ == seq![c],
{
    let mut res = String::new();
    push_char(&mut res, c);
    res
}

/// The characters that have the Unicode `White_Space` property, which is what
/// `char::is_whitespace` and `str::trim` go by.
pub open spec fn is_white_space(c: char) -> bool {
    ||| c == ' '
    ||| ('\u{9}' <= c && c <= '\u{d}')
    ||| c == '\u{85}'
    ||| c == '\u{a0}'
    ||| c == '\u{1680}'
    ||| ('\u{2000}' <= c && c <= '\u{200a}')
    ||| c == '\u{2028}'
    ||| c == '\u{2029}'
    ||| c == '\u{202f}'
    ||| c == '\u{205f}'
    ||| c == '\u{3000}'
}

/// Whether `c` is Unicode white space.
pub fn white_space(c: char) -> (b: bool)
    ensures
        b == is_white_space(c),
{
    c == ' ' || ('\u{9}' <= c && c <= '\u{d}') || c == '\u{85}' || c == '\u{a0}' || c
        == '\u{1680}' || ('\u{2000}' <= c && c <= '\u{200a}') || c == '\u{2028}' || c
        == '\u{2029}' || c == '\u{202f}' || c == '\u{205f}' || c == '\u{3000}'
}

/// `s` without its leading white space.
pub open spec fn trim_start(s: Seq<char>) -> Seq<char>
    decreases s.len(),
{
    if s.len() > 0 && is_white_space(s[0]) {
        trim_start(s.drop_first())
    } else {
        s
    }
}

/// `s` without its trailing white space.
pub open spec fn trim_end(s: Seq<char>) -> Seq<char>
    decreases s.len(),
{
    if s.len() > 0 && is_white_space(s.last()) {
        trim_end(s.drop_last())
    } else {
        s
    }
}

/// `s` without leading and trailing white space, as `str::trim` gives it.
pub open spec fn trim(s: Seq<char>) -> Seq<char> {
    trim_end(trim_start(s))
}

/// The characters of `s` without leading and trailing white space.
pub fn trimmed(s: &[char]) -> (res: Vec<char>)
    ensures
        res@ == trim(s@),
{
    let n = s.len();
    let mut lo: usize = 0;
    assert(s@.subrange(0, n as int) =~= s@);
    while lo < n && white_space(s[lo])
        invariant
            lo <= n,
            n == s@.len(),
            trim_start(s@) == trim_start(s@.subrange(lo as int, n as int)),
        decreases n - lo,
    {
        assert(s@.subrange(lo as int, n as int).drop_first() =~= s@.subrange(
            lo + 1,
            n as int,
        ));
        lo = lo + 1;
    }
    assert(trim_start(s@) == s@.subrange(lo as int, n as int));
    let mut hi: usize = n;
    while hi > lo && white_space(s[hi - 1])
        invariant
            lo <= hi <= n,
            n == s@.len(),
            trim(s@) == trim_end(s@.subrange(lo as int, hi as int)),
        decreases hi - lo,
    {
        assert(s@.subrange(lo as int, hi as int).drop_last() =~= s@.subrange(
            lo as int,
            hi - 1,
        ));
        hi = hi - 1;
    }
    let mut res: Vec<char> = Vec::new();
    let mut i = lo;
    while i < hi
        invariant
            lo <= i <= hi <= n,
            n == s@.len(),
            res@ == s@.subrange(lo as int, i as int),
        decreases hi - i,
    {
        res.push(s[i]);
        assert(s@.subrange(lo as int, i + 1) =~= s@.subrange(lo as int, i as int).push(s@[i as int]));
        i = i + 1;
    }
    res
}

/// The views of a sequence of strings.
pub open spec fn strings_view(v: Seq<String>) -> Seq<Seq<char>> {
    v.map_values(|t: String| t@)
}

/// The parts of `list` joined with `sep` between them.
pub open spec fn join(list: Seq<Seq<char>>, sep: Seq<char>) -> Seq<char>
    decreases list.len(),
{
    if list.len() == 0 {
        seq![]
    } else if list.len() == 1 {
        list[0]
    } else {
        join(list.drop_last(), sep) + sep + list.last()
    }
}

/// `parts[lo..hi]` joined with `sep` between them.
pub fn join_parts(parts: &Vec<String>, lo: usize, hi: usize, sep: char) -> (res: String)
    requires
        lo <= hi <= parts@.len(),
    ensures
        res@ == join(strings_view(parts@).subrange(lo as int, hi as int), seq![sep]),
{
    let ghost v = strings_view(parts@);
    let mut res = String::new();
    let mut i = lo;
    assert(v.subrange(lo as int, lo as int) =~= Seq::<Seq<char>>::empty());
    while i < hi
        invariant
            lo <= i <= hi <= parts@.len(),
            v == strings_view(parts@),
            res@ == join(v.subrange(lo as int, i as int), seq![sep]),
        decreases hi - i,
    {
        let ghost sub = v.subrange(lo as int, i + 1);
        assert(sub.drop_last() =~= v.subrange(lo as int, i as int));
        if i > lo {
            push_char(&mut res, sep);
        }
        let ghost start = res@;
        append_str(&mut res, parts[i].as_str());
        if i == lo {
            assert(start =~= seq![]);
            assert(res@ =~= join(sub, seq![sep]));
        } else {
            assert(res@ =~= join(sub, seq![sep]));
        }
        i = i + 1;
    }
    res
}


/// Appends the characters of `src` to `dst`.
pub fn append_str(dst: &mut String, src: &str)
    ensures
        final(dst)@ == old(dst)@ + src@,
{
    let cs = chars_of(src);
    let ghost start = dst@;
    let mut j: usize = 0;
    while j < cs.len()
        invariant
            j <= cs@.len(),
            cs@ == src@,
            dst@ == start + cs@.take(j as int),
        decreases cs@.len() - j,
    {
        push_char(dst, cs[j]);
        assert(cs@.take(j + 1) =~= cs@.take(j as int).push(cs@[j as int]));
        j = j + 1;
    }
    assert(cs@.take(cs@.len() as int) =~= cs@);
}


/// Whether every character of `s` is white space.
pub open spec fn all_white_space(s: Seq<char>) -> bool {
    forall|i: int| 0 <= i < s.len() ==> is_white_space(#[trigger] s[i])
}

/// Leading white space is what `trim_start` removes.
pub proof fn lemma_trim_start_pad(l: Seq<char>, x: Seq<char>)
    requires
        all_white_space(l),
    ensures
        trim_start(l + x) == trim_start(x),
    decreases l.len(),
{
    if l.len() > 0 {
        assert((l + x).drop_first() =~= l.drop_first() + x);
        assert(is_white_space(l[0]));
        lemma_trim_start_pad(l.drop_first(), x);
    } else {
        assert(l + x =~= x);
    }
}

/// Trailing white space is what `trim_end` removes.
pub proof fn lemma_trim_end_pad(x: Seq<char>, r: Seq<char>)
    requires
        all_white_space(r),
    ensures
        trim_end(x + r) == trim_end(x),
    decreases r.len(),
{
    if r.len() > 0 {
        assert((x + r).drop_last() =~= x + r.drop_last());
        assert(is_white_space(r[r.len() - 1]));
        lemma_trim_end_pad(x, r.drop_last());
    } else {
        assert(x + r =~= x);
    }
}

/// Trimming `l + x + r`, with white space `l` and `r` and an `x` that starts
/// and ends with other characters, gives `x`.
pub proof fn lemma_trim_padded(l: Seq<char>, x: Seq<char>, r: Seq<char>)
    requires
        all_white_space(l),
        all_white_space(r),
        x.len() > 0,
        !is_white_space(x[0]),
        !is_white_space(x.last()),
    ensures
        trim(l + x + r) == x,
{
    assert(l + x + r =~= l + (x + r));
    lemma_trim_start_pad(l, x + r);
    assert((x + r)[0] == x[0]);
    lemma_trim_end_pad(x, r);
}

} // verus!
