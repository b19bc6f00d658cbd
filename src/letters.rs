//! Character-level helpers over words.

use vstd::prelude::*;
use vstd::string::StrSliceExecFns;

verus! {

/// The characters of `s`, in order.
pub fn chars_of(s: &str) -> (r: Vec<char>)
    ensures
        r@ == s@,
{
    let n = s.unicode_len();
    let mut r: Vec<char> = Vec::new();
    let mut i: usize = 0;
    while i < n
        invariant
            n == s@.len(),
            i <= n,
            r@ == s@.subrange(0, i as int),
        decreases n - i,
    {
        r.push(s.get_char(i));
        i = i + 1;
    }
    assert(r@ =~= s@);
    r
}

/// Whether `c` occurs anywhere in `s`.
pub fn contains_char(s: &Vec<char>, c: char) -> (r: bool)
    ensures
        r == s@.contains(c),
{
    let mut i: usize = 0;
    while i < s.len()
        invariant
            i <= s@.len(),
            forall|j: int| 0 <= j < i ==> s@[j] != c,
        decreases s@.len() - i,
    {
        if s[i] == c {
            return true;
        }
        i = i + 1;
    }
    false
}

/// Whether `a` and `b` hold the same characters in the same order.
pub fn same_chars(a: &Vec<char>, b: &Vec<char>) -> (r: bool)
    ensures
        r == (a@ == b@),
{
    if a.len() != b.len() {
        return false;
    }
    let mut i: usize = 0;
    while i < a.len()
        invariant
            a@.len() == b@.len(),
            i <= a@.len(),
            forall|j: int| 0 <= j < i ==> a@[j] == b@[j],
        decreases a@.len() - i,
    {
        if a[i] != b[i] {
            return false;
        }
        i = i + 1;
    }
    assert(a@ =~= b@);
    true
}

/// The words of `ws` that have `n` letters.
pub open spec fn of_length(ws: Seq<Seq<char>>, n: nat) -> Seq<Seq<char>> {
    ws.filter(|w: Seq<char>| w.len() == n)
}

/// The character sequences of some strings.
pub open spec fn views(ws: Seq<String>) -> Seq<Seq<char>> {
    ws.map_values(|w: String| w@)
}

/// The words of `words` that have `n` letters, in order.
pub fn words_of_length(words: &Vec<String>, n: usize) -> (r: Vec<String>)
    ensures
        views(r@) == of_length(views(words@), n as nat),
        forall|x: int| 0 <= x < r@.len() ==> (#[trigger] r@[x])@.len() == n,
{
    let ghost ws = words@;
    let ghost right_length = |w: Seq<char>| w.len() == n as nat;
    let mut r: Vec<String> = Vec::new();
    let mut i: usize = 0;
    while i < words.len()
        invariant
            words@ == ws,
            right_length == (|w: Seq<char>| w.len() == n as nat),
            i <= ws.len(),
            views(r@) == views(ws.subrange(0, i as int)).filter(right_length),
            forall|x: int| 0 <= x < r@.len() ==> (#[trigger] r@[x])@.len() == n,
        decreases ws.len() - i,
    {
        let ghost before = r@;
        if words[i].as_str().unicode_len() == n {
            let w = words[i].clone();
            r.push(w);
        }
        proof {
            assert(views(ws.subrange(0, i + 1)) =~= views(ws.subrange(0, i as int)).push(
                ws[i as int]@,
            ));
            views(ws.subrange(0, i as int)).lemma_filter_push(ws[i as int]@, right_length);
            if ws[i as int]@.len() == n {
                assert(views(r@) =~= views(before).push(ws[i as int]@));
            } else {
                assert(views(r@) =~= views(before));
            }
        }
        i = i + 1;
    }
    assert(ws.subrange(0, ws.len() as int) =~= ws);
    r
}

} // verus!
