//! Comparing and cutting text.
use vstd::prelude::*;
use vstd::string::StrSliceExecFns;

verus! {

/// Whether `text` begins with `prefix`.
pub open spec fn has_prefix(text: Seq<char>, prefix: Seq<char>) -> bool {
    prefix.len() <= text.len() && text.subrange(0, prefix.len() as int) == prefix
}

/// Whether `text` ends with `suffix`.
pub open spec fn has_suffix(text: Seq<char>, suffix: Seq<char>) -> bool {
    suffix.len() <= text.len() && text.subrange(text.len() - suffix.len(), text.len() as int)
        == suffix
}

/// `text` without the character `c` at its beginning, however often it stands there.
pub open spec fn trimmed(text: Seq<char>, c: char) -> Seq<char>
    decreases text.len(),
{
    if text.len() > 0 && text[0] == c {
        trimmed(text.subrange(1, text.len() as int), c)
    } else {
        text
    }
}

/// Whether `part` stands in `text` from the character `at` on.
fn stands_at(text: &str, part: &str, at: usize) -> (r: bool)
    requires
        at + part@.len() <= text@.len(),
    ensures
        r == (text@.subrange(at as int, at + part@.len()) == part@),
{
    let n: usize = part.unicode_len();
    let total: usize = text.unicode_len();
    let mut i: usize = 0;
    while i < n
        invariant
            i <= n,
            n == part@.len(),
            at + n <= total,
            total == text@.len(),
            forall|k: int| 0 <= k < i ==> text@[at + k] == #[trigger] part@[k],
        decreases n - i,
    {
        if text.get_char(at + i) != part.get_char(i) {
            assert(text@.subrange(at as int, at + n)[i as int] != part@[i as int]);
            return false;
        }
        i = i + 1;
    }
    assert(text@.subrange(at as int, at + n) =~= part@);
    true
}

/// Whether two texts are the same.
pub fn same_text(a: &str, b: &str) -> (r: bool)
    ensures
        r == (a@ == b@),
{
    if a.unicode_len() != b.unicode_len() {
        return false;
    }
    assert(a@.subrange(0, b@.len() as int) =~= a@);
    stands_at(a, b, 0)
}

/// Whether `text` begins with `prefix`.
pub fn begins_with(text: &str, prefix: &str) -> (r: bool)
    ensures
        r == has_prefix(text@, prefix@),
{
    prefix.unicode_len() <= text.unicode_len() && stands_at(text, prefix, 0)
}

/// Whether `text` ends with `suffix`.
pub fn ends_in(text: &str, suffix: &str) -> (r: bool)
    ensures
        r == has_suffix(text@, suffix@),
{
    let n: usize = text.unicode_len();
    let m: usize = suffix.unicode_len();
    m <= n && stands_at(text, suffix, n - m)
}

/// `text` without its first `n` characters.
pub fn skip_chars(text: &str, n: usize) -> (r: &str)
    requires
        n <= text@.len(),
    ensures
        r@ == text@.subrange(n as int, text@.len() as int),
{
    text.substring_char(n, text.unicode_len())
}

/// `text` without the character `c` at its beginning, however often it stands there.
pub fn trim_start(text: &str, c: char) -> (r: &str)
    ensures
        r@ == trimmed(text@, c),
{
    let n: usize = text.unicode_len();
    let mut i: usize = 0;
    assert(text@.subrange(0, n as int) =~= text@);
    while i < n && text.get_char(i) == c
        invariant
            i <= n,
            n == text@.len(),
            trimmed(text@, c) == trimmed(text@.subrange(i as int, n as int), c),
        decreases n - i,
    {
        assert(text@.subrange(i as int, n as int).subrange(1, n - i) =~= text@.subrange(
            i + 1,
            n as int,
        ));
        i = i + 1;
    }
    text.substring_char(i, n)
}

/// What is trimmed from the beginning of a text is the character, and what is left does not begin
/// with it.
pub proof fn trimming_takes_only_the_character(text: Seq<char>, c: char)
    ensures
        trimmed(text, c).len() <= text.len(),
        text.subrange(text.len() - trimmed(text, c).len(), text.len() as int) == trimmed(text, c),
        forall|i: int|
            0 <= i < text.len() - trimmed(text, c).len() ==> #[trigger] text[i] == c,
        trimmed(text, c).len() > 0 ==> trimmed(text, c)[0] != c,
    decreases text.len(),
{
    let n = text.len() as int;
    if n > 0 && text[0] == c {
        let t = text.subrange(1, n);
        trimming_takes_only_the_character(t, c);
        let m = trimmed(t, c).len() as int;
        assert(text.subrange(n - m, n) =~= t.subrange(n - 1 - m, n - 1));
        assert forall|i: int| 0 <= i < n - m implies #[trigger] text[i] == c by {
            if i > 0 {
                assert(t[i - 1] == c);
            }
        }
    } else {
        assert(text.subrange(0, n) =~= text);
    }
}

}
