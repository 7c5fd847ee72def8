//! Characters and character sequences: whitespace, trimming, line feeds
//! that were written out, and the conversions between Rust strings and
//! vectors of characters.

use vstd::prelude::*;

verus! {

/// `String::push` of the standard library, taken on trust: afterwards the
/// string holds the characters it held before and `ch` behind them.
pub assume_specification[ String::push ](s: &mut String, ch: char)
    ensures
        final(s)@ == old(s)@.push(ch),
;

/// The characters that carry the Unicode property `White_Space`.
pub open spec fn is_whitespace(c: char) -> bool {
    ||| ('\u{9}' <= c && c <= '\u{d}')
    ||| c == ' '
    ||| c == '\u{85}'
    ||| c == '\u{a0}'
    ||| c == '\u{1680}'
    ||| ('\u{2000}' <= c && c <= '\u{200a}')
    ||| c == '\u{2028}'
    ||| c == '\u{2029}'
    ||| c == '\u{202f}'
    ||| c == '\u{205f}'
    ||| c == '\u{3000}'
}

/// `s` without its leading whitespace.
pub open spec fn trim_start(s: Seq<char>) -> Seq<char>
    decreases s.len(),
{
    if s.len() > 0 && is_whitespace(s.first()) {
        trim_start(s.drop_first())
    } else {
        s
    }
}

/// `s` without its trailing whitespace.
pub open spec fn trim_end(s: Seq<char>) -> Seq<char>
    decreases s.len(),
{
    if s.len() > 0 && is_whitespace(s.last()) {
        trim_end(s.drop_last())
    } else {
        s
    }
}

/// `s` without the whitespace that surrounds it.
pub open spec fn trim(s: Seq<char>) -> Seq<char> {
    trim_end(trim_start(s))
}

/// Whether `s` neither begins nor ends with whitespace.
pub open spec fn is_trimmed(s: Seq<char>) -> bool {
    trim(s) == s
}

/// `s` with a line feed in place of every backslash that the letter `n`
/// follows, and of that letter: the way back from a payload in which line
/// feeds were written out.
pub open spec fn unescaped(s: Seq<char>) -> Seq<char>
    decreases s.len(),
{
    if s.len() >= 2 && s[0] == '\\' && s[1] == 'n' {
        seq!['\n'] + unescaped(s.skip(2))
    } else if s.len() >= 1 {
        seq![s[0]] + unescaped(s.skip(1))
    } else {
        Seq::empty()
    }
}

/// What `trim_start` leaves does not begin with whitespace, and is the end
/// of `s`.
pub proof fn lemma_trim_start(s: Seq<char>)
    ensures
        trim_start(s).len() <= s.len(),
        trim_start(s) == s.skip(s.len() - trim_start(s).len()),
        trim_start(s).len() > 0 ==> !is_whitespace(trim_start(s).first()),
    decreases s.len(),
{
    if s.len() > 0 && is_whitespace(s.first()) {
        let t = s.drop_first();
        lemma_trim_start(t);
        assert(t.skip(t.len() - trim_start(t).len()) == s.skip(s.len() - trim_start(s).len()));
    } else {
        assert(s.skip(0) == s);
    }
}

/// What `trim_end` leaves does not end in whitespace, and is the beginning
/// of `s`.
pub proof fn lemma_trim_end(s: Seq<char>)
    ensures
        trim_end(s).len() <= s.len(),
        trim_end(s) == s.take(trim_end(s).len() as int),
        trim_end(s).len() > 0 ==> !is_whitespace(trim_end(s).last()),
    decreases s.len(),
{
    if s.len() > 0 && is_whitespace(s.last()) {
        let t = s.drop_last();
        lemma_trim_end(t);
        assert(t.take(trim_end(t).len() as int) == s.take(trim_end(s).len() as int));
    } else {
        assert(s.take(s.len() as int) == s);
    }
}

/// What `trim` leaves neither begins nor ends with whitespace.
pub proof fn lemma_trim(s: Seq<char>)
    ensures
        trim(s).len() > 0 ==> !is_whitespace(trim(s).first()) && !is_whitespace(trim(s).last()),
{
    let t = trim_start(s);
    lemma_trim_start(s);
    lemma_trim_end(t);
    if trim(s).len() > 0 {
        assert(trim(s).first() == t.first());
    }
}

/// To trim what was trimmed changes nothing.
pub proof fn lemma_trim_twice(s: Seq<char>)
    ensures
        trim(trim(s)) == trim(s),
{
    lemma_trim(s);
}

/// Whether `c` is whitespace.
pub fn whitespace(c: char) -> (b: bool)
    ensures
        b == is_whitespace(c),
{
    ('\u{9}' <= c && c <= '\u{d}') || c == ' ' || c == '\u{85}' || c == '\u{a0}' || c
        == '\u{1680}' || ('\u{2000}' <= c && c <= '\u{200a}') || c == '\u{2028}' || c
        == '\u{2029}' || c == '\u{202f}' || c == '\u{205f}' || c == '\u{3000}'
}

/// The bounds, within `v[from..to]`, of what `trim` leaves of that range.
pub fn trim_bounds(v: &Vec<char>, from: usize, to: usize) -> (r: (usize, usize))
    requires
        from <= to <= v.len(),
    ensures
        from <= r.0 <= r.1 <= to,
        v@.subrange(r.0 as int, r.1 as int) == trim(v@.subrange(from as int, to as int)),
{
    let mut a: usize = from;
    while a < to && whitespace(v[a])
        invariant
            from <= a <= to <= v.len(),
            trim_start(v@.subrange(a as int, to as int)) == trim_start(
                v@.subrange(from as int, to as int),
            ),
        decreases to - a,
    {
        assert(v@.subrange(a as int, to as int).drop_first() == v@.subrange(a + 1, to as int));
        a += 1;
    }
    let mut b: usize = to;
    while a < b && whitespace(v[b - 1])
        invariant
            a <= b <= to <= v.len(),
            trim_end(v@.subrange(a as int, b as int)) == trim_end(
                v@.subrange(a as int, to as int),
            ),
        decreases b - a,
    {
        assert(v@.subrange(a as int, b as int).drop_last() == v@.subrange(a as int, b - 1));
        b -= 1;
    }
    (a, b)
}

/// The characters of `s`, in order.
pub fn chars_of(s: &str) -> (v: Vec<char>)
    ensures
        v@ == s@,
{
    let mut v: Vec<char> = Vec::new();
    for c in it: s.chars()
        invariant
            v@ == it.seq().take(it.index()),
    {
        v.push(c);
    }
    v
}

/// The string made of the characters `v[from..to]`, in order.
pub fn string_of(v: &Vec<char>, from: usize, to: usize) -> (s: String)
    requires
        from <= to <= v.len(),
    ensures
        s@ == v@.subrange(from as int, to as int),
{
    let mut s = String::new();
    let mut i: usize = from;
    while i < to
        invariant
            from <= i <= to <= v.len(),
            s@ == v@.subrange(from as int, i as int),
        decreases to - i,
    {
        s.push(v[i]);
        i += 1;
    }
    s
}

/// Puts a line feed in place of every backslash that the letter `n` follows,
/// and of that letter.
pub fn unescape_line_feeds(raw: &str) -> (text: String)
    ensures
        text@ == unescaped(raw@),
{
    let v = chars_of(raw);
    let mut text = String::new();
    let mut i: usize = 0;
    assert(v@.skip(0) == v@);
    while i < v.len()
        invariant
            i <= v.len(),
            unescaped(v@) == text@ + unescaped(v@.skip(i as int)),
        decreases v.len() - i,
    {
        let ghost rest = v@.skip(i as int);
        let ghost before = text@;
        if v[i] == '\\' && i + 1 < v.len() && v[i + 1] == 'n' {
            text.push('\n');
            proof {
                assert(rest.skip(2) == v@.skip(i + 2));
                assert(before + (seq!['\n'] + unescaped(rest.skip(2))) == before.push('\n')
                    + unescaped(rest.skip(2)));
            }
            i += 2;
        } else {
            text.push(v[i]);
            proof {
                assert(rest.skip(1) == v@.skip(i + 1));
                assert(before + (seq![rest[0]] + unescaped(rest.skip(1))) == before.push(rest[0])
                    + unescaped(rest.skip(1)));
            }
            i += 1;
        }
    }
    assert(unescaped(v@.skip(i as int)) == Seq::<char>::empty());
    assert(text@ + Seq::<char>::empty() == text@);
    text
}

} // verus!
