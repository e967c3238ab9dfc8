use vstd::prelude::*;

use crate::error::Error;
use crate::playlist::{stream_views, SpecStream, Stream};
use crate::text::{lower, push_char, str_eq, to_lowercase};

verus! {

// ---------------------------------------------------------------------------
// The order on quality keys
// ---------------------------------------------------------------------------

/// Key `a` comes strictly before key `b`: the source bucket (`None`) first,
/// then the numeric ranks, highest first.
pub open spec fn rank_lt(a: Option<u32>, b: Option<u32>) -> bool {
    match (a, b) {
        (Option::None, Option::None) => false,
        (Option::None, Option::Some(_)) => true,
        (Option::Some(_), Option::None) => false,
        (Option::Some(x), Option::Some(y)) => x > y,
    }
}

pub open spec fn rank_le(a: Option<u32>, b: Option<u32>) -> bool {
    a == b || rank_lt(a, b)
}

/// Strictly descending by key: every key occurs at most once.
pub open spec fn strictly_ordered(s: Seq<SpecStream>) -> bool {
    forall|i: int, j: int| 0 <= i < j < s.len() ==> rank_lt(s[i].quality, s[j].quality)
}

/// Descending by key, equal keys allowed.
pub open spec fn ordered(s: Seq<SpecStream>) -> bool {
    forall|i: int, j: int| 0 <= i < j < s.len() ==> rank_le(s[i].quality, s[j].quality)
}

fn rank_lt_exec(a: Option<u32>, b: Option<u32>) -> (r: bool)
    ensures
        r == rank_lt(a, b),
{
    match (a, b) {
        (Option::None, Option::None) => false,
        (Option::None, Option::Some(_)) => true,
        (Option::Some(_), Option::None) => false,
        (Option::Some(x), Option::Some(y)) => x > y,
    }
}

fn key_eq(a: Option<u32>, b: Option<u32>) -> (r: bool)
    ensures
        r == (a == b),
{
    match (a, b) {
        (Option::None, Option::None) => true,
        (Option::Some(x), Option::Some(y)) => x == y,
        _ => false,
    }
}

// ---------------------------------------------------------------------------
// Deduplicating by key
// ---------------------------------------------------------------------------

/// Puts `v` into the keyed collection `s`: before the first entry whose key
/// does not come before `v`'s, replacing that entry when the keys are equal.
pub open spec fn insert_keyed(s: Seq<SpecStream>, v: SpecStream) -> Seq<SpecStream>
    decreases s.len(),
{
    if s.len() == 0 {
        seq![v]
    } else if rank_lt(v.quality, s[0].quality) {
        seq![v] + s
    } else if v.quality == s[0].quality {
        seq![v] + s.drop_first()
    } else {
        seq![s[0]] + insert_keyed(s.drop_first(), v)
    }
}

/// The deduplicated, ordered image of an emission sequence: variants keyed
/// by quality, a later emission under a key replacing an earlier one.
pub open spec fn spec_dedup(es: Seq<SpecStream>) -> Seq<SpecStream>
    decreases es.len(),
{
    if es.len() == 0 {
        Seq::empty()
    } else {
        insert_keyed(spec_dedup(es.drop_last()), es.last())
    }
}

/// Where `insert_keyed` lands when the insertion point is known.
proof fn lemma_insert_keyed_at(s: Seq<SpecStream>, v: SpecStream, j: int)
    requires
        0 <= j <= s.len(),
        forall|t: int| 0 <= t < j ==> rank_lt(#[trigger] s[t].quality, v.quality),
        j < s.len() ==> !rank_lt(s[j].quality, v.quality),
    ensures
        j < s.len() && s[j].quality == v.quality ==> insert_keyed(s, v) == s.subrange(0, j)
            + seq![v] + s.subrange(j + 1, s.len() as int),
        !(j < s.len() && s[j].quality == v.quality) ==> insert_keyed(s, v) == s.subrange(0, j)
            + seq![v] + s.subrange(j, s.len() as int),
    decreases j,
{
    if j == 0 {
        if s.len() == 0 {
            assert(insert_keyed(s, v) =~= s.subrange(0, 0) + seq![v] + s.subrange(0, 0));
        } else if s[0].quality == v.quality {
            assert(insert_keyed(s, v) =~= s.subrange(0, 0) + seq![v] + s.subrange(
                1,
                s.len() as int,
            ));
        } else {
            assert(rank_lt(v.quality, s[0].quality));
            assert(insert_keyed(s, v) =~= s.subrange(0, 0) + seq![v] + s.subrange(
                0,
                s.len() as int,
            ));
        }
    } else {
        assert(rank_lt(s[0].quality, v.quality));
        assert(!rank_lt(v.quality, s[0].quality));
        assert(v.quality != s[0].quality);
        let rest = s.drop_first();
        assert forall|t: int| 0 <= t < j - 1 implies rank_lt(
            #[trigger] rest[t].quality,
            v.quality,
        ) by {
            assert(rest[t] == s[t + 1]);
        }
        lemma_insert_keyed_at(rest, v, j - 1);
        if j < s.len() && s[j].quality == v.quality {
            assert(rest[j - 1].quality == v.quality);
            assert(insert_keyed(s, v) =~= s.subrange(0, j) + seq![v] + s.subrange(
                j + 1,
                s.len() as int,
            ));
        } else {
            assert(insert_keyed(s, v) =~= s.subrange(0, j) + seq![v] + s.subrange(
                j,
                s.len() as int,
            ));
        }
    }
}

/// Inserts `v` into the vector so that `insert_keyed` describes the result.
fn insert_keyed_exec(out: &mut Vec<Stream>, v: Stream)
    ensures
        stream_views(final(out)@) == insert_keyed(stream_views(old(out)@), v@),
{
    let ghost s = stream_views(old(out)@);
    let mut j: usize = 0;
    while j < out.len() && rank_lt_exec(out[j].quality, v.quality)
        invariant
            0 <= j <= out@.len(),
            out@ == old(out)@,
            s == stream_views(out@),
            forall|t: int| 0 <= t < j ==> rank_lt(#[trigger] s[t].quality, v.quality),
        decreases out@.len() - j,
    {
        proof {
            assert(s[j as int].quality == out@[j as int]@.quality);
        }
        j += 1;
    }
    proof {
        assert(j < s.len() ==> !rank_lt(s[j as int].quality, v.quality));
        lemma_insert_keyed_at(s, v@, j as int);
    }
    if j < out.len() && key_eq(out[j].quality, v.quality) {
        out.remove(j);
        out.insert(j, v);
        proof {
            assert(stream_views(out@) =~= s.subrange(0, j as int) + seq![v@] + s.subrange(
                j + 1,
                s.len() as int,
            ));
        }
    } else {
        out.insert(j, v);
        proof {
            assert(stream_views(out@) =~= s.subrange(0, j as int) + seq![v@] + s.subrange(
                j as int,
                s.len() as int,
            ));
        }
    }
}

/// Collapses an emission sequence to one variant per quality key, ordered
/// best-first; under one key the last emission wins.
pub fn dedup_streams(items: Vec<Stream>) -> (r: Vec<Stream>)
    ensures
        stream_views(r@) == spec_dedup(stream_views(items@)),
{
    let ghost all = stream_views(items@);
    let mut items = items;
    let mut out: Vec<Stream> = Vec::new();
    proof {
        assert(stream_views(out@) =~= spec_dedup(all.take(0)));
    }
    let n = items.len();
    let mut i: usize = 0;
    while i < n
        invariant
            0 <= i <= n,
            n == items@.len(),
            all == stream_views(items@),
            stream_views(out@) == spec_dedup(all.take(i as int)),
        decreases n - i,
    {
        let ghost out_pre = stream_views(out@);
        let s = items[i].clone();
        insert_keyed_exec(&mut out, s);
        proof {
            assert(all.take(i + 1).drop_last() =~= all.take(i as int));
            assert(all.take(i + 1).last() == all[i as int]);
            assert(all[i as int] == items@[i as int]@);
        }
        i += 1;
    }
    proof {
        assert(all.take(n as int) =~= all);
    }
    out
}

// ---------------------------------------------------------------------------
// Sorting a variant collection
// ---------------------------------------------------------------------------

/// Puts `v` before the first entry whose key comes after `v`'s; entries
/// under an equal key are kept, `v` going behind them.
pub open spec fn spec_insert(s: Seq<SpecStream>, v: SpecStream) -> Seq<SpecStream>
    decreases s.len(),
{
    if s.len() == 0 {
        seq![v]
    } else if rank_lt(v.quality, s[0].quality) {
        seq![v] + s
    } else {
        seq![s[0]] + spec_insert(s.drop_first(), v)
    }
}

/// Insertion sort by quality key, best first, stable.
pub open spec fn spec_sort(s: Seq<SpecStream>) -> Seq<SpecStream>
    decreases s.len(),
{
    if s.len() == 0 {
        Seq::empty()
    } else {
        spec_insert(spec_sort(s.drop_last()), s.last())
    }
}

proof fn lemma_insert_len(s: Seq<SpecStream>, v: SpecStream)
    ensures
        spec_insert(s, v).len() == s.len() + 1,
    decreases s.len(),
{
    if s.len() > 0 && !rank_lt(v.quality, s[0].quality) {
        lemma_insert_len(s.drop_first(), v);
    }
}

/// Sorting keeps the collection's size.
pub proof fn lemma_sort_len(s: Seq<SpecStream>)
    ensures
        spec_sort(s).len() == s.len(),
    decreases s.len(),
{
    if s.len() > 0 {
        lemma_sort_len(s.drop_last());
        lemma_insert_len(spec_sort(s.drop_last()), s.last());
    }
}

/// Where `spec_insert` lands when the insertion point is known.
proof fn lemma_insert_at(s: Seq<SpecStream>, v: SpecStream, j: int)
    requires
        0 <= j <= s.len(),
        forall|t: int| 0 <= t < j ==> !rank_lt(v.quality, #[trigger] s[t].quality),
        j < s.len() ==> rank_lt(v.quality, s[j].quality),
    ensures
        spec_insert(s, v) == s.subrange(0, j) + seq![v] + s.subrange(j, s.len() as int),
    decreases j,
{
    if j == 0 {
        if s.len() == 0 {
            assert(spec_insert(s, v) =~= s.subrange(0, 0) + seq![v] + s.subrange(0, 0));
        } else {
            assert(spec_insert(s, v) =~= s.subrange(0, 0) + seq![v] + s.subrange(
                0,
                s.len() as int,
            ));
        }
    } else {
        let rest = s.drop_first();
        assert forall|t: int| 0 <= t < j - 1 implies !rank_lt(
            v.quality,
            #[trigger] rest[t].quality,
        ) by {
            assert(rest[t] == s[t + 1]);
        }
        lemma_insert_at(rest, v, j - 1);
        assert(spec_insert(s, v) =~= s.subrange(0, j) + seq![v] + s.subrange(j, s.len() as int));
    }
}

fn insert_sorted_exec(out: &mut Vec<Stream>, v: Stream)
    ensures
        stream_views(final(out)@) == spec_insert(stream_views(old(out)@), v@),
{
    let ghost s = stream_views(old(out)@);
    let mut j: usize = 0;
    while j < out.len() && !rank_lt_exec(v.quality, out[j].quality)
        invariant
            0 <= j <= out@.len(),
            out@ == old(out)@,
            s == stream_views(out@),
            forall|t: int| 0 <= t < j ==> !rank_lt(v@.quality, #[trigger] s[t].quality),
        decreases out@.len() - j,
    {
        proof {
            assert(s[j as int].quality == out@[j as int]@.quality);
        }
        j += 1;
    }
    proof {
        assert(j < s.len() ==> rank_lt(v@.quality, s[j as int].quality));
        lemma_insert_at(s, v@, j as int);
    }
    out.insert(j, v);
    proof {
        assert(stream_views(out@) =~= s.subrange(0, j as int) + seq![v@] + s.subrange(
            j as int,
            s.len() as int,
        ));
    }
}

/// Sorts a variant collection best-first: the source variant before every
/// numeric rank, numeric ranks highest first, equal keys kept in their
/// given order.
pub fn order(streams: Vec<Stream>) -> (r: Vec<Stream>)
    ensures
        stream_views(r@) == spec_sort(stream_views(streams@)),
{
    let ghost all = stream_views(streams@);
    let streams = streams;
    let mut out: Vec<Stream> = Vec::new();
    proof {
        assert(stream_views(out@) =~= spec_sort(all.take(0)));
    }
    let n = streams.len();
    let mut i: usize = 0;
    while i < n
        invariant
            0 <= i <= n,
            n == streams@.len(),
            all == stream_views(streams@),
            stream_views(out@) == spec_sort(all.take(i as int)),
        decreases n - i,
    {
        let s = streams[i].clone();
        insert_sorted_exec(&mut out, s);
        proof {
            assert(all.take(i + 1).drop_last() =~= all.take(i as int));
            assert(all.take(i + 1).last() == all[i as int]);
            assert(all[i as int] == streams@[i as int]@);
        }
        i += 1;
    }
    proof {
        assert(all.take(n as int) =~= all);
    }
    out
}

// ---------------------------------------------------------------------------
// Quality policies
// ---------------------------------------------------------------------------

/// What the caller asks for: the best variant, the lowest numeric rank, or
/// one picked by its display label.
#[derive(Debug, Clone, PartialEq)]
pub enum Quality {
    Best,
    Lowest,
    Custom(String),
}

/// The policy a free-form input stands for, after lowercasing.
pub open spec fn quality_matches(input: Seq<char>, q: Quality) -> bool {
    let l = lower(input);
    if l == "best"@ || l == "highest"@ {
        q is Best
    } else if l == "worst"@ || l == "lowest"@ {
        q is Lowest
    } else {
        q matches Quality::Custom(c) && c@ == l
    }
}

impl Quality {
    /// Reads a policy from free-form input, case-insensitively; anything
    /// that is not a known policy word is taken as a custom label.
    pub fn from_str(s: &str) -> (r: Result<Quality, Error>)
        ensures
            r matches Ok(q) && quality_matches(s@, q),
    {
        let l = to_lowercase(s);
        if str_eq(l.as_str(), "best") || str_eq(l.as_str(), "highest") {
            Ok(Quality::Best)
        } else if str_eq(l.as_str(), "worst") || str_eq(l.as_str(), "lowest") {
            Ok(Quality::Lowest)
        } else {
            Ok(Quality::Custom(l))
        }
    }
}

// ---------------------------------------------------------------------------
// Selecting one variant
// ---------------------------------------------------------------------------

/// A custom label, normalized: lowercased, with `'p'` appended unless
/// already the last character.
pub open spec fn normalize_label(s: Seq<char>) -> Seq<char> {
    let l = lower(s);
    if l.len() > 0 && l.last() == 'p' {
        l
    } else {
        l.push('p')
    }
}

fn normalize(label: &str) -> (r: String)
    ensures
        r@ == normalize_label(label@),
{
    let mut l = to_lowercase(label);
    let n = l.as_str().unicode_len();
    if n == 0 || l.as_str().get_char(n - 1) != 'p' {
        push_char(&mut l, 'p');
    }
    l
}

/// Some variant carries exactly this label.
pub open spec fn has_label(vs: Seq<SpecStream>, want: Seq<char>) -> bool {
    exists|i: int| 0 <= i < vs.len() && vs[i].ty == want
}

/// What selecting by label returns: the first variant with the wanted
/// label, or `QualityUnavailable` carrying that label.
pub open spec fn custom_selection(
    vs: Seq<SpecStream>,
    want: Seq<char>,
    r: Result<Stream, Error>,
) -> bool {
    if has_label(vs, want) {
        r matches Ok(v) && (exists|i: int|
            0 <= i < vs.len() && #[trigger] vs[i].ty == want && v@ == vs[i] && (forall|t: int|
                0 <= t < i ==> vs[t].ty != want))
    } else {
        r matches Err(e) && e matches Error::QualityUnavailable(w) && w@ == want
    }
}

fn clone_streams(v: &Vec<Stream>) -> (r: Vec<Stream>)
    ensures
        stream_views(r@) == stream_views(v@),
{
    let mut r: Vec<Stream> = Vec::new();
    let mut i: usize = 0;
    while i < v.len()
        invariant
            0 <= i <= v@.len(),
            stream_views(r@) == stream_views(v@).take(i as int),
        decreases v@.len() - i,
    {
        let c = v[i].clone();
        proof {
            assert(stream_views(r@.push(c)) =~= stream_views(r@).push(c@));
            assert(stream_views(v@).take(i + 1) =~= stream_views(v@).take(i as int).push(
                stream_views(v@)[i as int],
            ));
        }
        r.push(c);
        i += 1;
    }
    proof {
        assert(stream_views(v@).take(v@.len() as int) =~= stream_views(v@));
    }
    r
}

/// Applies a quality policy to a variant collection. An empty collection
/// fails with `StreamOffline` under every policy; `Best` and `Lowest` pick
/// the first and last element of the sorted collection; a custom label is
/// normalized and looked up among the display labels.
#[verifier::loop_isolation(false)]
pub fn select(variants: &Vec<Stream>, quality: &Quality) -> (r: Result<Stream, Error>)
    ensures
        variants@.len() == 0 <==> (r matches Err(e) && e is StreamOffline),
        variants@.len() > 0 ==> match quality {
            Quality::Best => r matches Ok(v) && v@ == spec_sort(stream_views(variants@))[0],
            Quality::Lowest => r matches Ok(v) && v@ == spec_sort(stream_views(variants@)).last(),
            Quality::Custom(lbl) => custom_selection(
                stream_views(variants@),
                normalize_label(lbl@),
                r,
            ),
        },
{
    if variants.len() == 0 {
        return Err(Error::StreamOffline);
    }
    match quality {
        Quality::Best => {
            let ord = order(clone_streams(variants));
            proof {
                lemma_sort_len(stream_views(variants@));
            }
            Ok(ord[0].clone())
        },
        Quality::Lowest => {
            let ord = order(clone_streams(variants));
            proof {
                lemma_sort_len(stream_views(variants@));
            }
            Ok(ord[ord.len() - 1].clone())
        },
        Quality::Custom(lbl) => {
            let want = normalize(lbl.as_str());
            let ghost vs = stream_views(variants@);
            let mut i: usize = 0;
            while i < variants.len()
                invariant
                    0 <= i <= variants@.len(),
                    vs == stream_views(variants@),
                    want@ == normalize_label(lbl@),
                    forall|t: int| 0 <= t < i ==> #[trigger] vs[t].ty != want@,
                decreases variants@.len() - i,
            {
                if str_eq(variants[i].ty.as_str(), want.as_str()) {
                    let c = variants[i].clone();
                    proof {
                        let nl = normalize_label(lbl@);
                        assert(vs[i as int].ty == nl);
                        assert(c@ == vs[i as int]);
                        assert(exists|k: int|
                            0 <= k < vs.len() && #[trigger] vs[k].ty == nl && c@ == vs[k] && (
                            forall|t: int| 0 <= t < k ==> vs[t].ty != nl));
                        assert(custom_selection(vs, nl, Ok(c)));
                    }
                    return Ok(c);
                }
                proof {
                    assert(vs[i as int].ty != want@);
                }
                i += 1;
            }
            proof {
                let nl = normalize_label(lbl@);
                if has_label(vs, nl) {
                    let k = choose|k: int| 0 <= k < vs.len() && vs[k].ty == nl;
                    assert(vs[k].ty != nl);
                }
            }
            Err(Error::QualityUnavailable(want))
        },
    }
}

} // verus!
