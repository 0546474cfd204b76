//! Characters and character sequences: the classes the scanner tells apart,
//! trimming, and the conversions between bytes, characters and strings.

use vstd::prelude::*;
use vstd::string::*;

verus! {

/// The characters with the Unicode property `White_Space`.
pub open spec fn is_space(c: char) -> bool {
    let n = c as u32;
    (9 <= n <= 13) || n == 0x20 || n == 0x85 || n == 0xA0 || n == 0x1680 || (0x2000 <= n
        <= 0x200A) || n == 0x2028 || n == 0x2029 || n == 0x202F || n == 0x205F || n == 0x3000
}

/// The first index at or after `i` that holds a character other than white
/// space, or the length of `s` if there is none.
pub open spec fn first_visible(s: Seq<char>, i: nat) -> nat
    decreases s.len() - i,
{
    if i < s.len() && is_space(s[i as int]) {
        first_visible(s, i + 1)
    } else {
        i
    }
}

/// The end of the last character other than white space in `s[lo..j]`, or
/// `lo` if there is none.
pub open spec fn last_visible(s: Seq<char>, lo: nat, j: nat) -> nat
    decreases j,
{
    if lo < j && j <= s.len() && is_space(s[j - 1]) {
        last_visible(s, lo, (j - 1) as nat)
    } else {
        j
    }
}

/// `s` without its leading and trailing white space.
pub open spec fn trim(s: Seq<char>) -> Seq<char> {
    let lo = first_visible(s, 0);
    let hi = last_visible(s, lo, s.len());
    s.subrange(lo as int, hi as int)
}

/// Each byte read as the character with the same number.
pub open spec fn widen(bytes: Seq<u8>) -> Seq<char> {
    Seq::new(bytes.len(), |i: int| bytes[i] as char)
}

/// `first_visible` moves forward and stays inside the sequence.
pub proof fn lemma_first_visible_bounds(s: Seq<char>, i: nat)
    requires
        i <= s.len(),
    ensures
        i <= first_visible(s, i) <= s.len(),
    decreases s.len() - i,
{
    if i < s.len() && is_space(s[i as int]) {
        lemma_first_visible_bounds(s, i + 1);
    }
}

/// `last_visible` moves backward and stays at or behind `lo`.
pub proof fn lemma_last_visible_bounds(s: Seq<char>, lo: nat, j: nat)
    requires
        lo <= j <= s.len(),
    ensures
        lo <= last_visible(s, lo, j) <= j,
    decreases j,
{
    if lo < j && is_space(s[j - 1]) {
        lemma_last_visible_bounds(s, lo, (j - 1) as nat);
    }
}

/// Trimming never lengthens a sequence.
pub proof fn lemma_trim_len(s: Seq<char>)
    ensures
        trim(s).len() <= s.len(),
{
    lemma_first_visible_bounds(s, 0);
    lemma_last_visible_bounds(s, first_visible(s, 0), s.len());
}

/// Whether `c` is white space.
pub fn is_space_char(c: char) -> (r: bool)
    ensures
        r == is_space(c),
{
    let n: u32 = c as u32;
    (9 <= n && n <= 13) || n == 0x20 || n == 0x85 || n == 0xA0 || n == 0x1680 || (0x2000 <= n
        && n <= 0x200A) || n == 0x2028 || n == 0x2029 || n == 0x202F || n == 0x205F || n
        == 0x3000
}

/// The bounds of `trim(feed@)` inside `feed`.
pub fn trim_bounds(feed: &Vec<char>) -> (r: (usize, usize))
    ensures
        r.0 <= r.1 <= feed.len(),
        r.0 == first_visible(feed@, 0),
        r.1 == last_visible(feed@, r.0 as nat, feed@.len()),
        feed@.subrange(r.0 as int, r.1 as int) == trim(feed@),
{
    let mut lo: usize = 0;
    while lo < feed.len() && is_space_char(feed[lo])
        invariant
            lo <= feed.len(),
            first_visible(feed@, 0) == first_visible(feed@, lo as nat),
        decreases feed.len() - lo,
    {
        lo += 1;
    }
    let mut hi: usize = feed.len();
    while lo < hi && is_space_char(feed[hi - 1])
        invariant
            lo <= hi <= feed.len(),
            last_visible(feed@, lo as nat, feed@.len()) == last_visible(feed@, lo as nat, hi as nat),
        decreases hi,
    {
        hi -= 1;
    }
    (lo, hi)
}

/// Calls `String::push` of std, which appends the character to the end of
/// the string. The contract says just that and is not proved.
#[verifier::external_body]
pub(crate) fn push_char(s: &mut String, c: char)
    ensures
        final(s)@ == old(s)@.push(c),
{
    s.push(c)
}

/// The characters `feed[lo..hi]` as a string.
pub fn text_of(feed: &Vec<char>, lo: usize, hi: usize) -> (s: String)
    requires
        lo <= hi <= feed.len(),
    ensures
        s@ == feed@.subrange(lo as int, hi as int),
{
    let mut s = String::new();
    let mut i: usize = lo;
    while i < hi
        invariant
            lo <= i <= hi <= feed.len(),
            s@ == feed@.subrange(lo as int, i as int),
        decreases hi - i,
    {
        push_char(&mut s, feed[i]);
        i += 1;
        assert(s@ =~= feed@.subrange(lo as int, i as int));
    }
    s
}

/// Whether `feed[lo..hi]` spells `word`.
pub fn spells(feed: &Vec<char>, lo: usize, hi: usize, word: &str) -> (r: bool)
    requires
        lo <= hi <= feed.len(),
    ensures
        r == (feed@.subrange(lo as int, hi as int) == word@),
{
    let n: usize = word.unicode_len();
    if hi - lo != n {
        return false;
    }
    let mut i: usize = 0;
    while i < n
        invariant
            lo <= hi <= feed.len(),
            n == hi - lo,
            n == word@.len(),
            i <= n,
            forall|k: int| 0 <= k < i ==> feed@[lo + k] == word@[k],
        decreases n - i,
    {
        if feed[lo + i] != word.get_char(i) {
            assert(feed@.subrange(lo as int, hi as int)[i as int] != word@[i as int]);
            return false;
        }
        i += 1;
    }
    assert(feed@.subrange(lo as int, hi as int) =~= word@);
    true
}

/// Whether two strings hold the same characters.
pub fn same_text(a: &str, b: &str) -> (r: bool)
    ensures
        r == (a@ == b@),
{
    let n: usize = a.unicode_len();
    if b.unicode_len() != n {
        return false;
    }
    let mut i: usize = 0;
    while i < n
        invariant
            n == a@.len(),
            n == b@.len(),
            i <= n,
            forall|k: int| 0 <= k < i ==> a@[k] == b@[k],
        decreases n - i,
    {
        if a.get_char(i) != b.get_char(i) {
            return false;
        }
        i += 1;
    }
    assert(a@ =~= b@);
    true
}

} // verus!
