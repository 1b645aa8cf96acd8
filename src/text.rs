//! Text helpers: whitespace trimming and removal of a markdown code fence
//! around a model's answer.

use vstd::prelude::*;

verus! {

/// The Unicode `White_Space` characters, which `char::is_whitespace` accepts.
pub open spec fn is_white_space(c: char) -> bool {
    let x = c as u32;
    (0x9 <= x <= 0xd) || x == 0x20 || x == 0x85 || x == 0xa0 || x == 0x1680 || (0x2000 <= x
        <= 0x200a) || x == 0x2028 || x == 0x2029 || x == 0x202f || x == 0x205f || x == 0x3000
}

/// Number of white-space characters at the start of `s`.
pub open spec fn leading_ws(s: Seq<char>) -> nat
    decreases s.len(),
{
    if s.len() > 0 && is_white_space(s[0]) {
        1 + leading_ws(s.drop_first())
    } else {
        0
    }
}

/// Number of white-space characters at the end of `s`.
pub open spec fn trailing_ws(s: Seq<char>) -> nat
    decreases s.len(),
{
    if s.len() > 0 && is_white_space(s.last()) {
        1 + trailing_ws(s.drop_last())
    } else {
        0
    }
}

/// `s` without its leading and trailing white space.
pub open spec fn trimmed(s: Seq<char>) -> Seq<char> {
    let rest = s.subrange(leading_ws(s) as int, s.len() as int);
    rest.subrange(0, rest.len() - trailing_ws(rest))
}

/// Relies on `str::trim`: the slice with leading and trailing white space
/// (Unicode `White_Space`) removed.
#[verifier::external_body]
pub(crate) fn trim_ws<'a>(s: &'a str) -> (r: &'a str)
    ensures
        r@ == trimmed(s@),
{
    s.trim()
}

proof fn lemma_leading_bound(s: Seq<char>)
    ensures
        leading_ws(s) <= s.len(),
        leading_ws(s) < s.len() ==> !is_white_space(s[leading_ws(s) as int]),
        forall|i: int| 0 <= i < leading_ws(s) ==> is_white_space(#[trigger] s[i]),
    decreases s.len(),
{
    if s.len() > 0 && is_white_space(s[0]) {
        lemma_leading_bound(s.drop_first());
        assert forall|i: int| 0 <= i < leading_ws(s) implies is_white_space(#[trigger] s[i]) by {
            if i > 0 {
                assert(s[i] == s.drop_first()[i - 1]);
            }
        }
    }
}

proof fn lemma_trailing_bound(s: Seq<char>)
    ensures
        trailing_ws(s) <= s.len(),
        trailing_ws(s) < s.len() ==> !is_white_space(s[s.len() - 1 - trailing_ws(s)]),
        forall|i: int| s.len() - trailing_ws(s) <= i < s.len() ==> is_white_space(#[trigger] s[i]),
    decreases s.len(),
{
    if s.len() > 0 && is_white_space(s.last()) {
        lemma_trailing_bound(s.drop_last());
        assert forall|i: int| s.len() - trailing_ws(s) <= i < s.len() implies is_white_space(#[trigger] s[i]) by {
            if i < s.len() - 1 {
                assert(s[i] == s.drop_last()[i]);
            }
        }
    }
}

/// A trimmed text is empty or has no white space at either end.
proof fn lemma_trimmed_ends(s: Seq<char>)
    ensures
        trimmed(s).len() <= s.len(),
        trimmed(s).len() > 0 ==> !is_white_space(trimmed(s)[0]) && !is_white_space(
            trimmed(s).last(),
        ),
{
    lemma_leading_bound(s);
    let rest = s.subrange(leading_ws(s) as int, s.len() as int);
    lemma_trailing_bound(rest);
    let t = trimmed(s);
    if t.len() > 0 {
        assert(t[0] == rest[0]);
        assert(rest[0] == s[leading_ws(s) as int]);
        assert(t.last() == rest[rest.len() - 1 - trailing_ws(rest)]);
    }
}

/// Trimming twice trims once.
pub proof fn lemma_trim_idempotent(s: Seq<char>)
    ensures
        trimmed(trimmed(s)) == trimmed(s),
{
    let t = trimmed(s);
    lemma_trimmed_ends(s);
    if t.len() > 0 {
        assert(leading_ws(t) == 0);
        let rest = t.subrange(0, t.len() as int);
        assert(rest =~= t);
        assert(trailing_ws(t) == 0);
    } else {
        assert(leading_ws(t) == 0);
        assert(t.subrange(0, 0) =~= t);
    }
    assert(trimmed(t) =~= t);
}

/// Relies on `char::is_alphanumeric`: the character is alphabetic or
/// numeric in Unicode. The result depends on the character alone.
pub uninterp spec fn alphanumeric(c: char) -> bool;

/// Relies on `char::is_alphanumeric`.
#[verifier::external_body]
fn is_alphanumeric_char(c: char) -> (r: bool)
    ensures
        r == alphanumeric(c),
{
    c.is_alphanumeric()
}

/// A character of a language tag: a Unicode letter or number, or `_`.
pub open spec fn word_char(c: char) -> bool {
    alphanumeric(c) || c == '_'
}

/// Executable form of `word_char`.
fn is_word_char(c: char) -> (r: bool)
    ensures
        r == word_char(c),
{
    c == '_' || is_alphanumeric_char(c)
}

/// Length of the run of word characters (the language tag) of `s` from index
/// `i`, stopping before index `end`.
pub open spec fn tag_run(s: Seq<char>, i: int, end: int) -> nat
    decreases end - i,
{
    if 0 <= i < end && i < s.len() && word_char(s[i]) {
        1 + tag_run(s, i + 1, end)
    } else {
        0
    }
}

pub open spec fn fence() -> Seq<char> {
    seq!['`', '`', '`']
}

/// Length of the language tag of a candidate block `t`.
pub open spec fn tag_len(t: Seq<char>) -> nat {
    tag_run(t, 3, t.len() - 4)
}

/// `t` is one fenced block: three backticks, an optional language tag of
/// word characters, a newline, the body, a newline and three backticks.
pub open spec fn is_fenced(t: Seq<char>) -> bool {
    &&& t.len() >= 8
    &&& t.subrange(0, 3) == fence()
    &&& t.subrange(t.len() - 3, t.len() as int) == fence()
    &&& t[t.len() - 4] == '\n'
    &&& 3 + tag_len(t) < t.len() - 4
    &&& t[3 + tag_len(t) as int] == '\n'
}

/// The body of a fenced block: between the newline after the opening fence
/// and its language tag, and the newline before the closing fence.
pub open spec fn fence_body(t: Seq<char>) -> Seq<char> {
    t.subrange(3 + tag_len(t) as int + 1, t.len() - 4)
}

/// The answer without surrounding white space and, where the whole answer is
/// one fenced block, the block's content without surrounding white space.
pub open spec fn stripped(s: Seq<char>) -> Seq<char> {
    let t = trimmed(s);
    if is_fenced(t) {
        trimmed(fence_body(t))
    } else {
        t
    }
}

/// Stripping an answer whose result is not itself fenced a second time
/// changes nothing; where the result is fenced, a second strip shortens it.
pub proof fn lemma_strip_idempotent(s: Seq<char>)
    ensures
        !is_fenced(stripped(s)) ==> stripped(stripped(s)) == stripped(s),
        is_fenced(stripped(s)) ==> stripped(stripped(s)).len() < stripped(s).len(),
{
    let t = trimmed(s);
    let u = stripped(s);
    if is_fenced(t) {
        lemma_trim_idempotent(fence_body(t));
    } else {
        lemma_trim_idempotent(s);
    }
    assert(trimmed(u) == u);
    if is_fenced(u) {
        lemma_trimmed_ends(fence_body(u));
    }
}

/// Whether the characters of `t` from `start` are three backticks.
fn fence_at(t: &str, start: usize) -> (r: bool)
    requires
        start + 3 <= t@.len() <= usize::MAX,
    ensures
        r == (t@.subrange(start as int, start + 3) == fence()),
{
    let a = t.get_char(start);
    let b = t.get_char(start + 1);
    let c = t.get_char(start + 2);
    let r = a == '`' && b == '`' && c == '`';
    assert(r == (t@.subrange(start as int, start + 3) =~= fence()));
    r
}

/// Removes a markdown code fence that spans the whole (trimmed) answer:
/// three backticks, an optional language tag, a newline, the body, a newline
/// and three backticks. The
/// body is returned without surrounding white space. Any other text is
/// returned trimmed.
pub fn strip_code_blocks(content: &str) -> (r: String)
    ensures
        r@ == stripped(content@),
{
    let t = trim_ws(content);
    let n = t.unicode_len();
    if n >= 8 && fence_at(t, 0) && fence_at(t, n - 3) && t.get_char(n - 4) == '\n' {
        let mut i: usize = 3;
        while i < n - 4 && is_word_char(t.get_char(i))
            invariant
                n == t@.len(),
                n >= 8,
                3 <= i <= n - 4,
                tag_len(t@) == (i - 3) + tag_run(t@, i as int, n - 4),
            decreases n - i,
        {
            i += 1;
        }
        assert(tag_run(t@, i as int, n - 4) == 0);
        if i < n - 4 && t.get_char(i) == '\n' {
            let body = t.substring_char(i + 1, n - 4);
            let b = trim_ws(body);
            return String::from_str(b);
        }
    }
    String::from_str(t)
}

} // verus!
