//! Text transforms applied to free-text fields before substitution.
//!
//! The output format gives the ampersand a meaning of its own, so an
//! ampersand in menu text is written as a backslash followed by the ampersand.
//! Escaping is a single pass that leaves an ampersand alone when a backslash
//! already stands in front of it. Text that went through the pass is
//! therefore left unchanged by a second pass.

use vstd::prelude::*;

verus! {

/// `String::push` appends one character to the end of the string.
pub assume_specification[ String::push ](s: &mut String, ch: char)
    ensures
        final(s)@ == old(s)@.push(ch),
;

/// The escaped form of `s`: a backslash is put in front of each ampersand
/// that does not follow a backslash.
pub open spec fn escaped(s: Seq<char>) -> Seq<char>
    decreases s.len(),
{
    if s.len() == 0 {
        s
    } else {
        let head = s.drop_last();
        let c = s.last();
        if c == '&' && !(head.len() > 0 && head.last() == '\\') {
            escaped(head).push('\\').push('&')
        } else {
            escaped(head).push(c)
        }
    }
}

/// Every ampersand of `s` follows a backslash.
pub open spec fn is_escaped(s: Seq<char>) -> bool {
    forall|i: int| 0 <= i < s.len() && #[trigger] s[i] == '&' ==> i > 0 && s[i - 1] == '\\'
}

/// The characters with the Unicode property `White_Space`.
pub open spec fn is_whitespace(c: char) -> bool {
    ||| '\u{9}' <= c <= '\u{d}'
    ||| c == ' '
    ||| c == '\u{85}'
    ||| c == '\u{a0}'
    ||| c == '\u{1680}'
    ||| '\u{2000}' <= c <= '\u{200a}'
    ||| c == '\u{2028}'
    ||| c == '\u{2029}'
    ||| c == '\u{202f}'
    ||| c == '\u{205f}'
    ||| c == '\u{3000}'
}

/// `s` without its leading whitespace.
pub open spec fn strip_start(s: Seq<char>) -> Seq<char>
    decreases s.len(),
{
    if s.len() > 0 && is_whitespace(s[0]) {
        strip_start(s.drop_first())
    } else {
        s
    }
}

/// `s` without its trailing whitespace.
pub open spec fn strip_end(s: Seq<char>) -> Seq<char>
    decreases s.len(),
{
    if s.len() > 0 && is_whitespace(s.last()) {
        strip_end(s.drop_last())
    } else {
        s
    }
}

/// `s` without its leading and trailing whitespace.
pub open spec fn stripped(s: Seq<char>) -> Seq<char> {
    strip_end(strip_start(s))
}

/// The entity that stands for an ampersand in text escaped upstream.
pub open spec fn entity() -> Seq<char> {
    seq!['&', 'a', 'm', 'p', ';']
}

/// `s` begins with the ampersand entity.
pub open spec fn starts_with_entity(s: Seq<char>) -> bool {
    s.len() >= 5 && s.take(5) == entity()
}

/// `s` with each ampersand entity replaced by a plain ampersand, reading
/// from the left; what a replacement produces is not read again.
pub open spec fn unescaped(s: Seq<char>) -> Seq<char>
    decreases s.len(),
{
    if s.len() == 0 {
        s
    } else if starts_with_entity(s) {
        seq!['&'] + unescaped(s.skip(5))
    } else {
        seq![s[0]] + unescaped(s.drop_first())
    }
}

/// What the `trim` transform makes of `s`: whitespace is stripped from both
/// ends, ampersand entities are turned into ampersands, and the result is
/// escaped.
pub open spec fn trimmed(s: Seq<char>) -> Seq<char> {
    escaped(unescaped(stripped(s)))
}

/// A non-empty text and its escaped form end in the same character.
pub proof fn lemma_escaped_last(s: Seq<char>)
    requires
        s.len() > 0,
    ensures
        escaped(s).len() > 0,
        escaped(s).last() == s.last(),
{
}

/// Escaped text is made of the pieces that escaping produces: each of its
/// ampersands follows a backslash.
pub proof fn lemma_escaped_is_escaped(s: Seq<char>)
    ensures
        is_escaped(escaped(s)),
    decreases s.len(),
{
    if s.len() > 0 {
        let head = s.drop_last();
        lemma_escaped_is_escaped(head);
        if head.len() > 0 {
            lemma_escaped_last(head);
        }
    }
}

/// Escaping leaves text unchanged in which every ampersand already follows a
/// backslash.
pub proof fn lemma_escaped_fixes_escaped(s: Seq<char>)
    requires
        is_escaped(s),
    ensures
        escaped(s) == s,
    decreases s.len(),
{
    if s.len() > 0 {
        let head = s.drop_last();
        assert(is_escaped(head)) by {
            assert forall|i: int| 0 <= i < head.len() && #[trigger] head[i] == '&' implies i > 0
                && head[i - 1] == '\\' by {
                assert(s[i] == head[i]);
            }
        }
        lemma_escaped_fixes_escaped(head);
        assert(head.push(s.last()) == s);
    }
}

/// Escaping is idempotent: a second pass over escaped text changes nothing,
/// so no text is ever escaped twice.
pub proof fn lemma_escape_idempotent(s: Seq<char>)
    ensures
        escaped(escaped(s)) == escaped(s),
{
    lemma_escaped_is_escaped(s);
    lemma_escaped_fixes_escaped(escaped(s));
}

/// The escaping pass of the renderer leaves the result of `trim` as it is.
pub proof fn lemma_trimmed_survives_escaping(s: Seq<char>)
    ensures
        is_escaped(trimmed(s)),
        escaped(trimmed(s)) == trimmed(s),
{
    lemma_escaped_is_escaped(unescaped(stripped(s)));
    lemma_escape_idempotent(unescaped(stripped(s)));
}

/// The characters of `data`, in order.
pub(crate) fn chars_of(data: &str) -> (out: Vec<char>)
    ensures
        out@ == data@,
{
    let mut out: Vec<char> = Vec::new();
    for c in it: data.chars()
        invariant
            it.seq() == data@,
            out@ == data@.take(it.index()),
    {
        out.push(c);
    }
    proof {
        assert(data@.take(data@.len() as int) == data@);
    }
    out
}

/// Whether `c` has the Unicode property `White_Space`.
fn is_space(c: char) -> (b: bool)
    ensures
        b == is_whitespace(c),
{
    ('\u{9}' <= c && c <= '\u{d}') || c == ' ' || c == '\u{85}' || c == '\u{a0}' || c
        == '\u{1680}' || ('\u{2000}' <= c && c <= '\u{200a}') || c == '\u{2028}' || c
        == '\u{2029}' || c == '\u{202f}' || c == '\u{205f}' || c == '\u{3000}'
}

/// Rewrites the ampersand, the character with a special meaning in the output
/// format, to its literal form: a backslash is put in front of each ampersand
/// that does not already follow one.
///
/// The result is escaped text, which a second pass leaves as it is.
pub fn escape_strings(data: &str) -> (out: String)
    ensures
        out@ == escaped(data@),
        is_escaped(out@),
        escaped(out@) == out@,
{
    let mut out = String::new();
    let mut after_backslash = false;
    for c in it: data.chars()
        invariant
            it.seq() == data@,
            out@ == escaped(data@.take(it.index())),
            after_backslash == (it.index() > 0 && data@[it.index() - 1] == '\\'),
    {
        proof {
            let n = it.index();
            assert(data@.take(n + 1).drop_last() == data@.take(n));
        }
        if c == '&' && !after_backslash {
            out.push('\\');
        }
        out.push(c);
        after_backslash = c == '\\';
    }
    proof {
        assert(data@.take(data@.len() as int) == data@);
        lemma_escaped_is_escaped(data@);
        lemma_escape_idempotent(data@);
    }
    out
}

/// Removes the whitespace at both ends of `data`.
pub fn strip_whitespace(data: &str) -> (out: String)
    ensures
        out@ == stripped(data@),
{
    let chars = chars_of(data);
    let mut start: usize = 0;
    proof {
        assert(chars@.skip(0) == chars@);
    }
    while start < chars.len() && is_space(chars[start])
        invariant
            start <= chars.len(),
            strip_start(chars@.skip(start as int)) == strip_start(chars@),
        decreases chars.len() - start,
    {
        proof {
            assert(chars@.skip(start as int).drop_first() == chars@.skip(start + 1));
        }
        start = start + 1;
    }
    let ghost rest = chars@.skip(start as int);
    assert(strip_start(chars@) == rest);
    let mut end: usize = chars.len();
    while end > start && is_space(chars[end - 1])
        invariant
            start <= end <= chars.len(),
            rest == chars@.skip(start as int),
            strip_end(chars@.subrange(start as int, end as int)) == strip_end(rest),
        decreases end - start,
    {
        proof {
            assert(chars@.subrange(start as int, end as int).drop_last() == chars@.subrange(
                start as int,
                end - 1,
            ));
        }
        end = end - 1;
    }
    proof {
        assert(chars@.subrange(start as int, chars.len() as int) == rest);
    }
    let mut out = String::new();
    let mut i: usize = start;
    while i < end
        invariant
            start <= i <= end <= chars.len(),
            out@ == chars@.subrange(start as int, i as int),
        decreases end - i,
    {
        out.push(chars[i]);
        proof {
            assert(chars@.subrange(start as int, i + 1) == chars@.subrange(
                start as int,
                i as int,
            ).push(chars@[i as int]));
        }
        i = i + 1;
    }
    out
}

/// Replaces each ampersand entity in `data` by a plain ampersand.
pub fn unescape_entities(data: &str) -> (out: String)
    ensures
        out@ == unescaped(data@),
{
    let chars = chars_of(data);
    let mut out = String::new();
    let mut i: usize = 0;
    proof {
        assert(chars@.skip(0) == chars@);
    }
    while i < chars.len()
        invariant
            i <= chars.len(),
            out@ + unescaped(chars@.skip(i as int)) == unescaped(chars@),
        decreases chars.len() - i,
    {
        let ghost rest = chars@.skip(i as int);
        if chars.len() - i >= 5 && chars[i] == '&' && chars[i + 1] == 'a' && chars[i + 2] == 'm'
            && chars[i + 3] == 'p' && chars[i + 4] == ';' {
            proof {
                assert(rest.take(5) == entity());
                assert(rest.skip(5) == chars@.skip(i + 5));
            }
            out.push('&');
            i = i + 5;
        } else {
            proof {
                if rest.len() >= 5 && rest.take(5) == entity() {
                    assert(rest.take(5)[0] == '&' && rest.take(5)[1] == 'a' && rest.take(5)[2]
                        == 'm' && rest.take(5)[3] == 'p' && rest.take(5)[4] == ';');
                }
                assert(!starts_with_entity(rest));
                assert(rest.drop_first() == chars@.skip(i + 1));
            }
            out.push(chars[i]);
            i = i + 1;
        }
    }
    out
}

/// The `trim` transform of the template: strips the whitespace at both ends
/// of `data`, turns each ampersand entity left by an upstream escaping pass
/// back into an ampersand, and escapes the result.
pub fn trim(data: &str) -> (out: String)
    ensures
        out@ == trimmed(data@),
        escaped(out@) == out@,
{
    let bare = strip_whitespace(data);
    let plain = unescape_entities(bare.as_str());
    escape_strings(plain.as_str())
}

} // verus!
