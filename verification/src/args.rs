use vstd::prelude::*;

use crate::resolve::Quality;

verus! {

/// The program's command-line surface: flags, the optional player and
/// quality, and the stream to fetch.
#[derive(Debug, Clone)]
pub struct Args {
    pub help: bool,
    pub json: bool,
    pub player: Option<String>,
    pub quality: Option<Quality>,
    pub list: bool,
    pub stream: String,
}

/// The position right after the last `c` in `s`, if `c` occurs at all.
pub open spec fn find_last(s: Seq<char>, c: char) -> Option<int>
    decreases s.len(),
{
    if s.len() == 0 {
        None
    } else if s.last() == c {
        Some(s.len() - 1)
    } else {
        find_last(s.drop_last(), c)
    }
}

/// The channel a free-form input names: everything after the last slash,
/// or the whole input when it has none.
pub open spec fn spec_channel_name(s: Seq<char>) -> Seq<char> {
    match find_last(s, '/') {
        None => s,
        Some(i) => s.subrange(i + 1, s.len() as int),
    }
}

proof fn lemma_find_last_some(s: Seq<char>, c: char, k: int)
    requires
        0 <= k < s.len(),
        s[k] == c,
        forall|t: int| k < t < s.len() ==> s[t] != c,
    ensures
        find_last(s, c) == Some(k),
    decreases s.len(),
{
    if k < s.len() - 1 {
        assert(s.last() != c);
        assert forall|t: int| k < t < s.drop_last().len() implies s.drop_last()[t] != c by {
            assert(s.drop_last()[t] == s[t]);
        }
        lemma_find_last_some(s.drop_last(), c, k);
    }
}

proof fn lemma_find_last_none(s: Seq<char>, c: char)
    requires
        forall|t: int| 0 <= t < s.len() ==> s[t] != c,
    ensures
        find_last(s, c) is None,
    decreases s.len(),
{
    if s.len() > 0 {
        assert forall|t: int| 0 <= t < s.drop_last().len() implies s.drop_last()[t] != c by {
            assert(s.drop_last()[t] == s[t]);
        }
        lemma_find_last_none(s.drop_last(), c);
    }
}

/// Takes the trailing path segment of the input as the channel name.
pub fn get_channel_name(input: &str) -> (r: &str)
    ensures
        r@ == spec_channel_name(input@),
{
    let n = input.unicode_len();
    let mut i = n;
    while i > 0
        invariant
            0 <= i <= n,
            n == input@.len(),
            forall|t: int| i <= t < n ==> input@[t] != '/',
        decreases i,
    {
        if input.get_char(i - 1) == '/' {
            proof {
                lemma_find_last_some(input@, '/', i - 1);
            }
            return input.substring_char(i, n);
        }
        i -= 1;
    }
    proof {
        lemma_find_last_none(input@, '/');
    }
    input
}

} // verus!
