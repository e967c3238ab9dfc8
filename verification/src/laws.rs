use vstd::prelude::*;

use crate::playlist::SpecStream;
use crate::resolve::{
    insert_keyed, normalize_label, ordered, rank_le, rank_lt, spec_dedup, spec_insert, spec_sort,
    strictly_ordered,
};
use crate::text::lower;
use vstd::seq_lib::lemma_multiset_commutative;

verus! {

// ---------------------------------------------------------------------------
// The key order is total, with the source bucket first
// ---------------------------------------------------------------------------

/// The order on quality keys is a total order, and the source bucket
/// (`None`) comes before every numeric rank.
pub proof fn lemma_rank_order_total(a: Option<u32>, b: Option<u32>, c: Option<u32>)
    ensures
        rank_le(a, a),
        rank_le(a, b) && rank_le(b, a) ==> a == b,
        rank_le(a, b) && rank_le(b, c) ==> rank_le(a, c),
        rank_le(a, b) || rank_le(b, a),
        rank_le(None::<u32>, b),
{
}

// ---------------------------------------------------------------------------
// Deduplication: one entry per key
// ---------------------------------------------------------------------------

/// Some entry carries this quality key.
pub open spec fn has_key(s: Seq<SpecStream>, k: Option<u32>) -> bool {
    exists|i: int| 0 <= i < s.len() && s[i].quality == k
}

proof fn lemma_insert_keyed_sorted(s: Seq<SpecStream>, v: SpecStream)
    requires
        strictly_ordered(s),
    ensures
        strictly_ordered(insert_keyed(s, v)),
    decreases s.len(),
{
    if s.len() == 0 {
    } else if rank_lt(v.quality, s[0].quality) {
        let r = seq![v] + s;
        assert forall|i: int, j: int| 0 <= i < j < r.len() implies rank_lt(
            r[i].quality,
            r[j].quality,
        ) by {
            if i > 0 {
                assert(r[i] == s[i - 1] && r[j] == s[j - 1]);
            } else if j > 1 {
                assert(r[j] == s[j - 1]);
                assert(rank_lt(s[0].quality, s[j - 1].quality));
            }
        }
    } else if v.quality == s[0].quality {
        let r = seq![v] + s.drop_first();
        assert forall|i: int, j: int| 0 <= i < j < r.len() implies rank_lt(
            r[i].quality,
            r[j].quality,
        ) by {
            if i > 0 {
                assert(r[i] == s[i] && r[j] == s[j]);
            } else {
                assert(r[j] == s[j]);
                assert(rank_lt(s[0].quality, s[j].quality));
            }
        }
    } else {
        let rest = s.drop_first();
        assert forall|i: int, j: int| 0 <= i < j < rest.len() implies rank_lt(
            rest[i].quality,
            rest[j].quality,
        ) by {
            assert(rest[i] == s[i + 1] && rest[j] == s[j + 1]);
        }
        lemma_insert_keyed_sorted(rest, v);
        lemma_insert_keyed_keys(rest, v);
        let r = seq![s[0]] + insert_keyed(rest, v);
        assert(rank_lt(s[0].quality, v.quality));
        assert forall|i: int, j: int| 0 <= i < j < r.len() implies rank_lt(
            r[i].quality,
            r[j].quality,
        ) by {
            if i > 0 {
                assert(r[i] == insert_keyed(rest, v)[i - 1] && r[j] == insert_keyed(rest, v)[j
                    - 1]);
            } else {
                let w = r[j];
                assert(insert_keyed(rest, v)[j - 1] == w);
                assert(has_key(insert_keyed(rest, v), w.quality));
                assert(has_key(rest, w.quality) || w.quality == v.quality);
                if has_key(rest, w.quality) {
                    let t = choose|t: int|
                        0 <= t < rest.len() && rest[t].quality == w.quality;
                    assert(rest[t] == s[t + 1]);
                    assert(rank_lt(s[0].quality, s[t + 1].quality));
                }
            }
        }
    }
}

/// After an insertion the keys are the old keys plus the new entry's key.
proof fn lemma_insert_keyed_keys(s: Seq<SpecStream>, v: SpecStream)
    ensures
        forall|k: Option<u32>| #[trigger]
            has_key(insert_keyed(s, v), k) <==> (has_key(s, k) || k == v.quality),
    decreases s.len(),
{
    if s.len() == 0 {
        assert forall|k: Option<u32>| #[trigger]
            has_key(insert_keyed(s, v), k) <==> (has_key(s, k) || k == v.quality) by {
            let r = insert_keyed(s, v);
            assert(r[0] == v);
            if has_key(r, k) {
                let i = choose|i: int| 0 <= i < r.len() && r[i].quality == k;
                assert(r[i] == v);
            }
        }
    } else if rank_lt(v.quality, s[0].quality) {
        let r = seq![v] + s;
        assert forall|k: Option<u32>| #[trigger]
            has_key(r, k) <==> (has_key(s, k) || k == v.quality) by {
            if has_key(r, k) {
                let i = choose|i: int| 0 <= i < r.len() && r[i].quality == k;
                if i > 0 {
                    assert(s[i - 1].quality == k);
                }
            }
            if has_key(s, k) {
                let i = choose|i: int| 0 <= i < s.len() && s[i].quality == k;
                assert(r[i + 1].quality == k);
            }
            if k == v.quality {
                assert(r[0].quality == k);
            }
        }
    } else if v.quality == s[0].quality {
        let r = seq![v] + s.drop_first();
        assert forall|k: Option<u32>| #[trigger]
            has_key(r, k) <==> (has_key(s, k) || k == v.quality) by {
            if has_key(r, k) {
                let i = choose|i: int| 0 <= i < r.len() && r[i].quality == k;
                if i > 0 {
                    assert(s[i].quality == k);
                }
            }
            if has_key(s, k) {
                let i = choose|i: int| 0 <= i < s.len() && s[i].quality == k;
                if i == 0 {
                    assert(r[0].quality == k);
                } else {
                    assert(r[i].quality == k);
                }
            }
            if k == v.quality {
                assert(r[0].quality == k);
            }
        }
    } else {
        let rest = s.drop_first();
        lemma_insert_keyed_keys(rest, v);
        let r = seq![s[0]] + insert_keyed(rest, v);
        assert forall|k: Option<u32>| #[trigger]
            has_key(r, k) <==> (has_key(s, k) || k == v.quality) by {
            if has_key(r, k) {
                let i = choose|i: int| 0 <= i < r.len() && r[i].quality == k;
                if i == 0 {
                    assert(s[0].quality == k);
                } else {
                    assert(insert_keyed(rest, v)[i - 1].quality == k);
                    assert(has_key(insert_keyed(rest, v), k));
                    if has_key(rest, k) {
                        let t = choose|t: int| 0 <= t < rest.len() && rest[t].quality == k;
                        assert(s[t + 1].quality == k);
                    }
                }
            }
            if has_key(s, k) {
                let i = choose|i: int| 0 <= i < s.len() && s[i].quality == k;
                if i == 0 {
                    assert(r[0].quality == k);
                } else {
                    assert(rest[i - 1].quality == k);
                    assert(has_key(rest, k));
                    assert(has_key(insert_keyed(rest, v), k));
                    let t = choose|t: int|
                        0 <= t < insert_keyed(rest, v).len() && insert_keyed(rest, v)[t].quality
                            == k;
                    assert(r[t + 1].quality == k);
                }
            }
            if k == v.quality {
                assert(has_key(insert_keyed(rest, v), k));
                let t = choose|t: int|
                    0 <= t < insert_keyed(rest, v).len() && insert_keyed(rest, v)[t].quality == k;
                assert(r[t + 1].quality == k);
            }
        }
    }
}

/// The deduplicated collection is strictly ordered: every key at most once.
pub proof fn lemma_dedup_sorted(es: Seq<SpecStream>)
    ensures
        strictly_ordered(spec_dedup(es)),
    decreases es.len(),
{
    if es.len() > 0 {
        lemma_dedup_sorted(es.drop_last());
        lemma_insert_keyed_sorted(spec_dedup(es.drop_last()), es.last());
    }
}

/// Deduplication keeps exactly the keys that were emitted.
pub proof fn lemma_dedup_keys(es: Seq<SpecStream>)
    ensures
        forall|k: Option<u32>| #[trigger] has_key(spec_dedup(es), k) <==> has_key(es, k),
    decreases es.len(),
{
    if es.len() == 0 {
        assert forall|k: Option<u32>| #[trigger]
            has_key(spec_dedup(es), k) <==> has_key(es, k) by {
            if has_key(spec_dedup(es), k) {
                let i = choose|i: int|
                    0 <= i < spec_dedup(es).len() && spec_dedup(es)[i].quality == k;
            }
            if has_key(es, k) {
                let i = choose|i: int| 0 <= i < es.len() && es[i].quality == k;
            }
        }
    } else {
        let head = es.drop_last();
        lemma_dedup_keys(head);
        lemma_insert_keyed_keys(spec_dedup(head), es.last());
        assert forall|k: Option<u32>| #[trigger]
            has_key(spec_dedup(es), k) <==> has_key(es, k) by {
            if has_key(es, k) {
                let i = choose|i: int| 0 <= i < es.len() && es[i].quality == k;
                if i < es.len() - 1 {
                    assert(head[i].quality == k);
                    assert(has_key(head, k));
                } else {
                    assert(k == es.last().quality);
                }
            }
            if has_key(head, k) {
                let i = choose|i: int| 0 <= i < head.len() && head[i].quality == k;
                assert(es[i].quality == k);
            }
            if k == es.last().quality {
                assert(es[es.len() - 1].quality == k);
            }
        }
    }
}

// ---------------------------------------------------------------------------
// The count of parsed variants
// ---------------------------------------------------------------------------

/// The set of quality keys occurring in a collection.
pub open spec fn quality_keys(es: Seq<SpecStream>) -> Set<Option<u32>> {
    es.map_values(|e: SpecStream| e.quality).to_set()
}

/// The parsed collection holds exactly one variant per distinct quality
/// key among the emitted attribute/URI pairs.
pub proof fn lemma_dedup_count(es: Seq<SpecStream>)
    ensures
        spec_dedup(es).len() == quality_keys(es).len(),
{
    let d = spec_dedup(es);
    let ks = d.map_values(|e: SpecStream| e.quality);
    lemma_dedup_sorted(es);
    assert forall|i: int, j: int| 0 <= i < j < ks.len() implies ks[i] != ks[j] by {
        assert(rank_lt(d[i].quality, d[j].quality));
    }
    assert(ks.no_duplicates());
    ks.unique_seq_to_set();
    lemma_dedup_keys(es);
    assert forall|k: Option<u32>| #[trigger]
        quality_keys(d).contains(k) <==> quality_keys(es).contains(k) by {
        let source = es.map_values(|e: SpecStream| e.quality);
        if quality_keys(d).contains(k) {
            let i = choose|i: int| 0 <= i < ks.len() && ks[i] == k;
            assert(has_key(d, k));
            assert(has_key(es, k));
            let t = choose|t: int| 0 <= t < es.len() && es[t].quality == k;
            assert(source[t] == k);
            assert(source.contains(k));
        }
        if quality_keys(es).contains(k) {
            let i = choose|i: int| 0 <= i < source.len() && source[i] == k;
            assert(es[i].quality == k);
            assert(has_key(es, k));
            assert(has_key(d, k));
            let t = choose|t: int| 0 <= t < d.len() && d[t].quality == k;
            assert(ks[t] == k);
            assert(ks.contains(k));
        }
    }
    assert(quality_keys(d) =~= quality_keys(es));
}

// ---------------------------------------------------------------------------
// The last emission under a key wins
// ---------------------------------------------------------------------------

/// The latest emission carrying this key.
pub open spec fn last_with_key(es: Seq<SpecStream>, k: Option<u32>) -> SpecStream
    recommends
        has_key(es, k),
    decreases es.len(),
{
    if es.len() == 0 {
        arbitrary()
    } else if es.last().quality == k {
        es.last()
    } else {
        last_with_key(es.drop_last(), k)
    }
}

proof fn lemma_insert_keyed_entries(s: Seq<SpecStream>, v: SpecStream)
    requires
        strictly_ordered(s),
    ensures
        forall|i: int|
            0 <= i < insert_keyed(s, v).len() ==> (#[trigger] insert_keyed(s, v)[i] == v || (
            insert_keyed(s, v)[i].quality != v.quality && s.contains(insert_keyed(s, v)[i]))),
    decreases s.len(),
{
    let r = insert_keyed(s, v);
    if s.len() == 0 {
        assert(r[0] == v);
    } else if rank_lt(v.quality, s[0].quality) {
        assert forall|i: int|
            0 <= i < r.len() implies (#[trigger] r[i] == v || (r[i].quality != v.quality
                && s.contains(r[i]))) by {
            if i > 0 {
                assert(r[i] == s[i - 1]);
                if i > 1 {
                    assert(rank_lt(s[0].quality, s[i - 1].quality));
                }
            }
        }
    } else if v.quality == s[0].quality {
        assert forall|i: int|
            0 <= i < r.len() implies (#[trigger] r[i] == v || (r[i].quality != v.quality
                && s.contains(r[i]))) by {
            if i > 0 {
                assert(r[i] == s[i]);
                assert(rank_lt(s[0].quality, s[i].quality));
            }
        }
    } else {
        let rest = s.drop_first();
        assert forall|i: int, j: int| 0 <= i < j < rest.len() implies rank_lt(
            rest[i].quality,
            rest[j].quality,
        ) by {
            assert(rest[i] == s[i + 1] && rest[j] == s[j + 1]);
        }
        lemma_insert_keyed_entries(rest, v);
        assert(rank_lt(s[0].quality, v.quality));
        assert forall|i: int|
            0 <= i < r.len() implies (#[trigger] r[i] == v || (r[i].quality != v.quality
                && s.contains(r[i]))) by {
            if i == 0 {
                assert(r[0] == s[0]);
                assert(s[0] == s[0] && 0 <= 0 < s.len());
                assert(s.contains(s[0]));
            } else {
                let w = insert_keyed(rest, v)[i - 1];
                assert(r[i] == w);
                if w != v {
                    assert(rest.contains(w));
                    let t = choose|t: int| 0 <= t < rest.len() && rest[t] == w;
                    assert(s[t + 1] == w);
                    assert(s.contains(w));
                }
            }
        }
    }
}

/// In the parsed collection, the variant under each key is the last
/// attribute/URI pair emitted under that key.
pub proof fn lemma_dedup_last_wins(es: Seq<SpecStream>)
    ensures
        forall|i: int|
            0 <= i < spec_dedup(es).len() ==> #[trigger] spec_dedup(es)[i] == last_with_key(
                es,
                spec_dedup(es)[i].quality,
            ),
    decreases es.len(),
{
    if es.len() > 0 {
        let head = es.drop_last();
        let v = es.last();
        let dd = spec_dedup(head);
        lemma_dedup_last_wins(head);
        lemma_dedup_sorted(head);
        lemma_insert_keyed_entries(dd, v);
        let d = spec_dedup(es);
        assert forall|i: int| 0 <= i < d.len() implies #[trigger] d[i] == last_with_key(
            es,
            d[i].quality,
        ) by {
            let e = d[i];
            if e == v {
                if e.quality == v.quality {
                    assert(last_with_key(es, e.quality) == v);
                }
            } else {
                assert(e.quality != v.quality && dd.contains(e));
                let t = choose|t: int| 0 <= t < dd.len() && dd[t] == e;
                assert(dd[t] == last_with_key(head, dd[t].quality));
                assert(last_with_key(es, e.quality) == last_with_key(head, e.quality));
            }
        }
    }
}

// ---------------------------------------------------------------------------
// The head of the ordered collection
// ---------------------------------------------------------------------------

proof fn lemma_sort_head(s: Seq<SpecStream>)
    requires
        s.len() > 0,
    ensures
        spec_sort(s).len() == s.len(),
        exists|i: int| 0 <= i < s.len() && s[i] == spec_sort(s)[0],
        forall|i: int|
            0 <= i < s.len() ==> rank_le(spec_sort(s)[0].quality, #[trigger] s[i].quality),
    decreases s.len(),
{
    crate::resolve::lemma_sort_len(s);
    let v = s.last();
    let t = spec_sort(s.drop_last());
    let head = spec_sort(s)[0];
    crate::resolve::lemma_sort_len(s.drop_last());
    if s.len() == 1 {
        assert(head == v);
        assert(s[0] == v);
    } else {
        lemma_sort_head(s.drop_last());
        let h0 = t[0];
        if !rank_lt(v.quality, h0.quality) {
            assert(head == h0);
            let w = choose|i: int| 0 <= i < s.drop_last().len() && s.drop_last()[i] == h0;
            assert(s[w] == h0);
            assert forall|i: int| 0 <= i < s.len() implies rank_le(
                head.quality,
                #[trigger] s[i].quality,
            ) by {
                if i < s.len() - 1 {
                    assert(s.drop_last()[i] == s[i]);
                } else {
                    lemma_rank_order_total(h0.quality, v.quality, v.quality);
                }
            }
        } else {
            assert(head == v);
            assert forall|i: int| 0 <= i < s.len() implies rank_le(
                head.quality,
                #[trigger] s[i].quality,
            ) by {
                if i < s.len() - 1 {
                    assert(s.drop_last()[i] == s[i]);
                    assert(rank_le(h0.quality, s[i].quality));
                    lemma_rank_order_total(v.quality, h0.quality, s[i].quality);
                }
            }
        }
    }
}

/// The first element of the ordered collection: the source variant when one
/// exists, else a variant of the maximum numeric rank.
pub proof fn lemma_order_first(s: Seq<SpecStream>)
    requires
        s.len() > 0,
    ensures
        spec_sort(s).len() == s.len(),
        exists|i: int| 0 <= i < s.len() && s[i] == spec_sort(s)[0],
        forall|i: int|
            0 <= i < s.len() ==> rank_le(spec_sort(s)[0].quality, #[trigger] s[i].quality),
        has_key(s, None::<u32>) ==> spec_sort(s)[0].quality is None,
        !has_key(s, None::<u32>) ==> spec_sort(s)[0].quality is Some && (forall|i: int|
            0 <= i < s.len() ==> (#[trigger] s[i].quality)->0 <= spec_sort(s)[0].quality->0),
{
    lemma_sort_head(s);
    let head = spec_sort(s)[0];
    if has_key(s, None::<u32>) {
        let i = choose|i: int| 0 <= i < s.len() && s[i].quality == None::<u32>;
        assert(rank_le(head.quality, s[i].quality));
    } else {
        let w = choose|i: int| 0 <= i < s.len() && s[i] == head;
        assert(s[w].quality == head.quality);
        assert(head.quality is Some);
        assert forall|i: int|
            0 <= i < s.len() implies (#[trigger] s[i].quality)->0 <= head.quality->0 by {
            assert(rank_le(head.quality, s[i].quality));
            assert(s[i].quality is Some);
        }
    }
}

// ---------------------------------------------------------------------------
// Sorting is an ordering permutation
// ---------------------------------------------------------------------------

proof fn lemma_insert_elems(s: Seq<SpecStream>, v: SpecStream)
    ensures
        forall|i: int|
            0 <= i < spec_insert(s, v).len() ==> (#[trigger] spec_insert(s, v)[i] == v
                || s.contains(spec_insert(s, v)[i])),
    decreases s.len(),
{
    let r = spec_insert(s, v);
    if s.len() == 0 {
        assert(r[0] == v);
    } else if rank_lt(v.quality, s[0].quality) {
        assert forall|i: int| 0 <= i < r.len() implies (#[trigger] r[i] == v || s.contains(
            r[i],
        )) by {
            if i > 0 {
                assert(r[i] == s[i - 1]);
            }
        }
    } else {
        let rest = s.drop_first();
        lemma_insert_elems(rest, v);
        assert forall|i: int| 0 <= i < r.len() implies (#[trigger] r[i] == v || s.contains(
            r[i],
        )) by {
            if i == 0 {
                assert(r[0] == s[0] && 0 <= 0 < s.len());
            } else {
                let w = spec_insert(rest, v)[i - 1];
                assert(r[i] == w);
                if w != v {
                    assert(rest.contains(w));
                    let t = choose|t: int| 0 <= t < rest.len() && rest[t] == w;
                    assert(s[t + 1] == w);
                }
            }
        }
    }
}

proof fn lemma_insert_ordered(s: Seq<SpecStream>, v: SpecStream)
    requires
        ordered(s),
    ensures
        ordered(spec_insert(s, v)),
    decreases s.len(),
{
    let r = spec_insert(s, v);
    if s.len() == 0 {
    } else if rank_lt(v.quality, s[0].quality) {
        assert forall|i: int, j: int| 0 <= i < j < r.len() implies rank_le(
            r[i].quality,
            r[j].quality,
        ) by {
            if i > 0 {
                assert(r[i] == s[i - 1] && r[j] == s[j - 1]);
            } else {
                assert(r[j] == s[j - 1]);
                if j > 1 {
                    assert(rank_le(s[0].quality, s[j - 1].quality));
                }
                lemma_rank_order_total(v.quality, s[0].quality, s[j - 1].quality);
            }
        }
    } else {
        let rest = s.drop_first();
        assert forall|i: int, j: int| 0 <= i < j < rest.len() implies rank_le(
            rest[i].quality,
            rest[j].quality,
        ) by {
            assert(rest[i] == s[i + 1] && rest[j] == s[j + 1]);
        }
        lemma_insert_ordered(rest, v);
        lemma_insert_elems(rest, v);
        lemma_rank_order_total(v.quality, s[0].quality, s[0].quality);
        assert(rank_le(s[0].quality, v.quality));
        assert forall|i: int, j: int| 0 <= i < j < r.len() implies rank_le(
            r[i].quality,
            r[j].quality,
        ) by {
            if i > 0 {
                assert(r[i] == spec_insert(rest, v)[i - 1] && r[j] == spec_insert(rest, v)[j - 1]);
            } else {
                let w = r[j];
                assert(spec_insert(rest, v)[j - 1] == w);
                if w == v {
                } else {
                    assert(rest.contains(w));
                    let t = choose|t: int| 0 <= t < rest.len() && rest[t] == w;
                    assert(rest[t] == s[t + 1]);
                    assert(rank_le(s[0].quality, s[t + 1].quality));
                }
            }
        }
    }
}

/// The sorted collection is descending by key throughout.
pub proof fn lemma_sort_ordered(s: Seq<SpecStream>)
    ensures
        ordered(spec_sort(s)),
    decreases s.len(),
{
    if s.len() > 0 {
        lemma_sort_ordered(s.drop_last());
        lemma_insert_ordered(spec_sort(s.drop_last()), s.last());
    }
}

proof fn lemma_insert_multiset(s: Seq<SpecStream>, v: SpecStream)
    ensures
        spec_insert(s, v).to_multiset() == s.to_multiset().insert(v),
    decreases s.len(),
{
    broadcast use vstd::seq_lib::group_to_multiset_ensures;

    if s.len() == 0 {
        assert(seq![v] =~= Seq::<SpecStream>::empty().push(v));
        assert(spec_insert(s, v).to_multiset() =~= s.to_multiset().insert(v));
    } else if rank_lt(v.quality, s[0].quality) {
        lemma_multiset_commutative(seq![v], s);
        assert(seq![v] =~= Seq::<SpecStream>::empty().push(v));
        assert(spec_insert(s, v).to_multiset() =~= s.to_multiset().insert(v));
    } else {
        let rest = s.drop_first();
        lemma_insert_multiset(rest, v);
        lemma_multiset_commutative(seq![s[0]], spec_insert(rest, v));
        lemma_multiset_commutative(seq![s[0]], rest);
        assert(seq![s[0]] + rest =~= s);
        assert(seq![s[0]] =~= Seq::<SpecStream>::empty().push(s[0]));
        assert(spec_insert(s, v).to_multiset() =~= s.to_multiset().insert(v));
    }
}

/// Sorting permutes the collection: nothing is added or dropped.
pub proof fn lemma_sort_permutes(s: Seq<SpecStream>)
    ensures
        spec_sort(s).to_multiset() == s.to_multiset(),
    decreases s.len(),
{
    broadcast use vstd::seq_lib::group_to_multiset_ensures;

    if s.len() > 0 {
        lemma_sort_permutes(s.drop_last());
        lemma_insert_multiset(spec_sort(s.drop_last()), s.last());
        assert(s =~= s.drop_last().push(s.last()));
        assert(spec_sort(s).to_multiset() =~= s.to_multiset());
    }
}

// ---------------------------------------------------------------------------
// Custom labels with and without the trailing letter
// ---------------------------------------------------------------------------

/// A label that does not already end in `'p'` after lowercasing selects the
/// same variant as the label with `'p'` appended: both normalize alike.
pub proof fn lemma_label_p_equiv(s: Seq<char>)
    requires
        !(lower(s).len() > 0 && lower(s).last() == 'p'),
    ensures
        normalize_label(s) == normalize_label(s.push('p')),
{
    assert(crate::text::lower_char('p') == 'p');
    assert(lower(s.push('p')) =~= lower(s).push('p'));
    assert(lower(s.push('p')).last() == 'p');
    assert(normalize_label(s.push('p')) == lower(s).push('p'));
}

} // verus!
