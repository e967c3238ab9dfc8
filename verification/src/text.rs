use vstd::prelude::*;

verus! {

// ---------------------------------------------------------------------------
// Substring search
// ---------------------------------------------------------------------------

/// The needle `m` occurs in `s` starting at position `i`.
pub open spec fn match_at(s: Seq<char>, m: Seq<char>, i: int) -> bool {
    &&& 0 <= i
    &&& i + m.len() <= s.len()
    &&& forall|j: int| 0 <= j < m.len() ==> s[i + j] == m[j]
}

/// The first position at or after `i` where `m` occurs in `s`, if any.
pub open spec fn find_from(s: Seq<char>, m: Seq<char>, i: int) -> Option<int>
    decreases s.len() - i,
{
    if i < 0 || i + m.len() > s.len() {
        None
    } else if match_at(s, m, i) {
        Some(i)
    } else {
        find_from(s, m, i + 1)
    }
}

pub proof fn lemma_find_from_none(s: Seq<char>, m: Seq<char>, i: int)
    requires
        forall|t: int| i <= t ==> !match_at(s, m, t),
    ensures
        find_from(s, m, i) is None,
    decreases s.len() - i,
{
    if !(i < 0 || i + m.len() > s.len()) {
        lemma_find_from_none(s, m, i + 1);
    }
}

pub proof fn lemma_find_from_some(s: Seq<char>, m: Seq<char>, i: int, k: int)
    requires
        0 <= i <= k,
        match_at(s, m, k),
        forall|t: int| i <= t < k ==> !match_at(s, m, t),
    ensures
        find_from(s, m, i) == Some(k),
    decreases k - i,
{
    if i < k {
        lemma_find_from_some(s, m, i + 1, k);
    }
}

/// What a successful or failed search means.
pub proof fn lemma_find_from_props(s: Seq<char>, m: Seq<char>, i: int)
    requires
        0 <= i,
    ensures
        find_from(s, m, i) matches Some(k) ==> i <= k && match_at(s, m, k) && (forall|t: int|
            i <= t < k ==> !match_at(s, m, t)),
        find_from(s, m, i) is None ==> forall|t: int| i <= t ==> !match_at(s, m, t),
    decreases s.len() - i,
{
    if i + m.len() > s.len() {
        assert(forall|t: int| i <= t ==> !match_at(s, m, t));
    } else if match_at(s, m, i) {
    } else {
        lemma_find_from_props(s, m, i + 1);
    }
}

/// Searches `s` for the first occurrence of `m` at or after `start`,
/// counting in characters.
pub fn find_substr_from(s: &str, m: &str, start: usize) -> (r: Option<usize>)
    requires
        start <= s@.len(),
    ensures
        r matches Some(k) ==> find_from(s@, m@, start as int) == Some(k as int),
        r is None ==> find_from(s@, m@, start as int) is None,
{
    let n = s.unicode_len();
    let k = m.unicode_len();
    if k > n || start > n - k {
        proof {
            assert(forall|t: int| start <= t ==> !match_at(s@, m@, t));
            lemma_find_from_none(s@, m@, start as int);
        }
        return None;
    }
    let mut i = start;
    while i <= n - k
        invariant
            start <= i,
            k <= n,
            n == s@.len(),
            k == m@.len(),
            forall|t: int| start <= t < i ==> !match_at(s@, m@, t),
        decreases n - k - i + 1,
    {
        let mut j: usize = 0;
        let mut ok = true;
        while ok && j < k
            invariant
                0 <= j <= k,
                i + k <= n,
                n == s@.len(),
                k == m@.len(),
                ok ==> forall|t: int| 0 <= t < j ==> s@[i + t] == m@[t],
                !ok ==> !match_at(s@, m@, i as int),
            decreases k - j + (if ok { 1int } else { 0int }),
        {
            if s.get_char(i + j) != m.get_char(j) {
                proof {
                    assert(s@[i + j] != m@[j as int]);
                }
                ok = false;
            } else {
                j += 1;
            }
        }
        if ok {
            proof {
                assert(match_at(s@, m@, i as int));
                lemma_find_from_some(s@, m@, start as int, i as int);
            }
            return Some(i);
        }
        i += 1;
    }
    proof {
        assert(forall|t: int| start <= t ==> !match_at(s@, m@, t));
        lemma_find_from_none(s@, m@, start as int);
    }
    None
}

// ---------------------------------------------------------------------------
// Splitting a document into lines
// ---------------------------------------------------------------------------

pub open spec fn newline() -> Seq<char> {
    seq!['\n']
}

/// One trailing carriage return is dropped from a line.
pub open spec fn chop_cr(l: Seq<char>) -> Seq<char> {
    if l.len() > 0 && l.last() == '\r' {
        l.drop_last()
    } else {
        l
    }
}

/// The lines of `s` from position `start` on: split at `'\n'`, each line
/// stripped of one trailing `'\r'`, and no empty line after a final `'\n'`.
pub open spec fn lines_from(s: Seq<char>, start: int) -> Seq<Seq<char>>
    decreases s.len() - start,
    via lines_from_decreases
{
    if start < 0 || start >= s.len() {
        Seq::empty()
    } else {
        match find_from(s, newline(), start) {
            None => seq![s.subrange(start, s.len() as int)],
            Some(i) => seq![chop_cr(s.subrange(start, i))] + lines_from(s, i + 1),
        }
    }
}

#[via_fn]
proof fn lines_from_decreases(s: Seq<char>, start: int) {
    if !(start < 0 || start >= s.len()) {
        lemma_find_from_props(s, newline(), start);
    }
}

pub open spec fn spec_lines(s: Seq<char>) -> Seq<Seq<char>> {
    lines_from(s, 0)
}

/// The views of a sequence of strings.
pub open spec fn string_views(v: Seq<String>) -> Seq<Seq<char>> {
    v.map_values(|x: String| x@)
}

pub fn split_lines(s: &str) -> (r: Vec<String>)
    ensures
        string_views(r@) == spec_lines(s@),
{
    let n = s.unicode_len();
    let mut out: Vec<String> = Vec::new();
    let mut start: usize = 0;
    let mut i: usize = 0;
    while i < n
        invariant
            0 <= start <= i <= n,
            n == s@.len(),
            spec_lines(s@) == string_views(out@) + lines_from(s@, start as int),
            forall|t: int| start <= t < i ==> s@[t] != '\n',
        decreases n - i,
    {
        if s.get_char(i) == '\n' {
            proof {
                assert(match_at(s@, newline(), i as int));
                assert(newline().len() == 1 && newline()[0] == '\n');
                assert forall|t: int| start <= t < i implies !match_at(s@, newline(), t) by {
                    if match_at(s@, newline(), t) {
                        assert(s@[t + 0] == newline()[0]);
                    }
                }
                lemma_find_from_some(s@, newline(), start as int, i as int);
            }
            let line: &str = if i > start && s.get_char(i - 1) == '\r' {
                s.substring_char(start, i - 1)
            } else {
                s.substring_char(start, i)
            };
            let owned = line.to_owned();
            proof {
                assert(line@ =~= chop_cr(s@.subrange(start as int, i as int)));
                assert(string_views(out@.push(owned)) =~= string_views(out@).push(line@));
                assert(string_views(out@).push(line@) + lines_from(s@, i + 1) =~= string_views(
                    out@,
                ) + lines_from(s@, start as int));
            }
            out.push(owned);
            start = i + 1;
        }
        i += 1;
    }
    if start < n {
        proof {
            assert(newline().len() == 1 && newline()[0] == '\n');
            assert forall|t: int| start <= t implies !match_at(s@, newline(), t) by {
                if match_at(s@, newline(), t) {
                    assert(s@[t + 0] == newline()[0]);
                }
            }
            lemma_find_from_none(s@, newline(), start as int);
        }
        let line = s.substring_char(start, n);
        let owned = line.to_owned();
        proof {
            assert(string_views(out@.push(owned)) =~= string_views(out@).push(line@));
            assert(line@ =~= s@.subrange(start as int, n as int));
        }
        out.push(owned);
    }
    proof {
        assert(string_views(out@) =~= spec_lines(s@));
    }
    out
}

// ---------------------------------------------------------------------------
// Character-wise string equality
// ---------------------------------------------------------------------------

pub fn str_eq(a: &str, b: &str) -> (r: bool)
    ensures
        r == (a@ == b@),
{
    let n = a.unicode_len();
    if n != b.unicode_len() {
        return false;
    }
    let mut i: usize = 0;
    while i < n
        invariant
            0 <= i <= n,
            n == a@.len(),
            n == b@.len(),
            forall|t: int| 0 <= t < i ==> a@[t] == b@[t],
        decreases n - i,
    {
        if a.get_char(i) != b.get_char(i) {
            proof {
                assert(a@[i as int] != b@[i as int]);
            }
            return false;
        }
        i += 1;
    }
    proof {
        assert(a@ =~= b@);
    }
    true
}

// ---------------------------------------------------------------------------
// Building strings one character at a time
// ---------------------------------------------------------------------------

/// Relies on String::push of std: it appends exactly the one character.
#[verifier::external_body]
pub(crate) fn push_char(s: &mut String, c: char)
    ensures
        final(s)@ == old(s)@.push(c),
{
    s.push(c);
}

// ---------------------------------------------------------------------------
// Removing double quotes
// ---------------------------------------------------------------------------

/// `s` with every `'"'` removed.
pub open spec fn strip_quotes(s: Seq<char>) -> Seq<char>
    decreases s.len(),
{
    if s.len() == 0 {
        Seq::empty()
    } else {
        strip_quotes(s.drop_last()) + (if s.last() == '"' {
            Seq::<char>::empty()
        } else {
            seq![s.last()]
        })
    }
}

pub fn remove_quotes(s: &str) -> (r: String)
    ensures
        r@ == strip_quotes(s@),
{
    let n = s.unicode_len();
    let mut r = String::new();
    let mut i: usize = 0;
    while i < n
        invariant
            0 <= i <= n,
            n == s@.len(),
            r@ =~= strip_quotes(s@.subrange(0, i as int)),
        decreases n - i,
    {
        let c = s.get_char(i);
        proof {
            let pre = s@.subrange(0, i + 1);
            assert(pre.drop_last() =~= s@.subrange(0, i as int));
            assert(pre.last() == s@[i as int]);
        }
        if c != '"' {
            push_char(&mut r, c);
        }
        i += 1;
    }
    proof {
        assert(s@.subrange(0, n as int) =~= s@);
    }
    r
}

// ---------------------------------------------------------------------------
// ASCII lowercasing
// ---------------------------------------------------------------------------

pub open spec fn lower_char(c: char) -> char {
    if 'A' <= c && c <= 'Z' {
        ((c as u32) + 32) as char
    } else {
        c
    }
}

pub open spec fn lower(s: Seq<char>) -> Seq<char> {
    Seq::new(s.len(), |i: int| lower_char(s[i]))
}

pub fn to_lowercase(s: &str) -> (r: String)
    ensures
        r@ == lower(s@),
{
    let n = s.unicode_len();
    let mut r = String::new();
    let mut i: usize = 0;
    while i < n
        invariant
            0 <= i <= n,
            n == s@.len(),
            r@ =~= lower(s@).subrange(0, i as int),
        decreases n - i,
    {
        let c = s.get_char(i);
        let u = c as u32;
        let l: char = if 65 <= u && u <= 90 {
            (((u + 32) as u8) as char)
        } else {
            c
        };
        proof {
            assert(l == lower_char(s@[i as int]));
        }
        push_char(&mut r, l);
        i += 1;
        proof {
            assert(r@ =~= lower(s@).subrange(0, i as int));
        }
    }
    proof {
        assert(lower(s@).subrange(0, n as int) =~= lower(s@));
    }
    r
}

// ---------------------------------------------------------------------------
// Decimal rendering of small numbers
// ---------------------------------------------------------------------------

pub open spec fn digit_char(d: int) -> char {
    ((d + 48) as u8) as char
}

/// The decimal digits of `n`, for `n` under 1000.
pub open spec fn spec_dec(n: u32) -> Seq<char> {
    if n < 10 {
        seq![digit_char(n as int)]
    } else if n < 100 {
        seq![digit_char(n as int / 10), digit_char(n as int % 10)]
    } else {
        seq![digit_char(n as int / 100), digit_char((n as int / 10) % 10), digit_char(n as int % 10)]
    }
}

fn digit_of(d: u32) -> (r: char)
    requires
        d < 10,
    ensures
        r == digit_char(d as int),
{
    ((d as u8) + 48) as char
}

pub fn dec_string(n: u32) -> (r: String)
    requires
        n < 1000,
    ensures
        r@ == spec_dec(n),
{
    let mut r = String::new();
    if n >= 100 {
        push_char(&mut r, digit_of(n / 100));
    }
    if n >= 10 {
        push_char(&mut r, digit_of((n / 10) % 10));
    }
    push_char(&mut r, digit_of(n % 10));
    proof {
        assert(r@ =~= spec_dec(n));
    }
    r
}

} // verus!
