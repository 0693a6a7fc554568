//! The order of the files of a recovery set: ascending by id.
//!
//! The main packet lists the file ids in this order, and the input slices are
//! numbered in it, so that whoever reads the main packet knows which slice is
//! which.

use vstd::prelude::*;
use vstd::relations::{sorted_by, total_ordering};
use vstd::seq_lib::lemma_sorted_unique;

verus! {

/// Lexicographic order on byte strings of equal length.
pub open spec fn lex_leq(a: Seq<u8>, b: Seq<u8>) -> bool
    decreases a.len(),
{
    if a.len() == 0 {
        true
    } else if a[0] == b[0] {
        lex_leq(a.drop_first(), b.drop_first())
    } else {
        a[0] < b[0]
    }
}

/// The order of file ids: lexicographic.
pub open spec fn id_order() -> spec_fn([u8; 16], [u8; 16]) -> bool {
    |a: [u8; 16], b: [u8; 16]| lex_leq(a@, b@)
}

/// The ids in ascending order.
pub open spec fn sorted_ids(ids: Seq<[u8; 16]>) -> Seq<[u8; 16]> {
    ids.sort_by(id_order())
}

/// A file's id, and where the file stands among those given.
pub type FileKey = ([u8; 16], usize);

/// The order of files: by id, and files of the same id as they are given.
pub open spec fn key_order() -> spec_fn(FileKey, FileKey) -> bool {
    |a: FileKey, b: FileKey|
        if a.0 == b.0 {
            a.1 <= b.1
        } else {
            lex_leq(a.0@, b.0@)
        }
}

/// The ids with their places.
pub open spec fn keyed(ids: Seq<[u8; 16]>) -> Seq<FileKey> {
    Seq::new(ids.len(), |i: int| (ids[i], i as usize))
}

/// The places of the files in ascending order of their ids; files of the same
/// id keep the order in which they are given.
pub open spec fn file_order(ids: Seq<[u8; 16]>) -> Seq<usize> {
    keyed(ids).sort_by(key_order()).map_values(|k: FileKey| k.1)
}

proof fn lemma_lex_leq_orders(a: Seq<u8>, b: Seq<u8>, c: Seq<u8>)
    requires
        a.len() == b.len(),
        b.len() == c.len(),
    ensures
        lex_leq(a, a),
        lex_leq(a, b) || lex_leq(b, a),
        lex_leq(a, b) && lex_leq(b, a) ==> a == b,
        lex_leq(a, b) && lex_leq(b, c) ==> lex_leq(a, c),
    decreases a.len(),
{
    if a.len() > 0 {
        lemma_lex_leq_orders(a.drop_first(), b.drop_first(), c.drop_first());
        if lex_leq(a, b) && lex_leq(b, a) {
            assert(a =~= seq![a[0]] + a.drop_first());
            assert(b =~= seq![b[0]] + b.drop_first());
        }
    } else {
        assert(a =~= b);
    }
}

/// The order of file ids is total.
pub proof fn lemma_id_order_total()
    ensures
        total_ordering(id_order()),
{
    let leq = id_order();
    assert forall|x: [u8; 16]| #[trigger] leq(x, x) by {
        lemma_lex_leq_orders(x@, x@, x@);
    }
    assert forall|x: [u8; 16], y: [u8; 16]| #[trigger] leq(x, y) || #[trigger] leq(y, x) by {
        lemma_lex_leq_orders(x@, y@, x@);
    }
    assert forall|x: [u8; 16], y: [u8; 16]| #[trigger] leq(x, y) && #[trigger] leq(y, x) implies x
        == y by {
        lemma_lex_leq_orders(x@, y@, x@);
        assert(x =~= y);
    }
    assert forall|x: [u8; 16], y: [u8; 16], z: [u8; 16]| #[trigger]
        leq(x, y) && #[trigger] leq(y, z) implies leq(x, z) by {
        lemma_lex_leq_orders(x@, y@, z@);
    }
}

/// The order of files is total.
pub proof fn lemma_key_order_total()
    ensures
        total_ordering(key_order()),
{
    let leq = key_order();
    assert forall|x: FileKey, y: FileKey| #[trigger] leq(x, y) || #[trigger] leq(y, x) by {
        lemma_lex_leq_orders(x.0@, y.0@, x.0@);
    }
    assert forall|x: FileKey, y: FileKey| #[trigger] leq(x, y) && #[trigger] leq(y, x) implies x
        == y by {
        lemma_lex_leq_orders(x.0@, y.0@, x.0@);
        assert(x.0@ == y.0@ ==> x.0 =~= y.0);
    }
    assert forall|x: FileKey, y: FileKey, z: FileKey| #[trigger]
        leq(x, y) && #[trigger] leq(y, z) implies leq(x, z) by {
        lemma_lex_leq_orders(x.0@, y.0@, z.0@);
        lemma_lex_leq_orders(y.0@, x.0@, z.0@);
        lemma_lex_leq_orders(x.0@, y.0@, x.0@);
        if x.0 == z.0 && x.0 != y.0 {
            assert(x.0@ == y.0@);
            assert(x.0 =~= y.0);
        }
    }
}

/// Sequences of the same items contain the same items.
pub proof fn lemma_same_items<A>(x: Seq<A>, y: Seq<A>, a: A)
    requires
        x.to_multiset() == y.to_multiset(),
        x.contains(a),
    ensures
        y.contains(a),
{
    x.to_multiset_ensures();
    y.to_multiset_ensures();
    assert(x.to_multiset().count(a) > 0);
    assert(y.to_multiset().count(a) > 0);
}

/// Sequences of the same items have the same images.
pub proof fn lemma_map_multiset<A, B>(x: Seq<A>, y: Seq<A>, f: spec_fn(A) -> B)
    requires
        x.to_multiset() == y.to_multiset(),
    ensures
        x.map_values(f).to_multiset() == y.map_values(f).to_multiset(),
    decreases x.len(),
{
    x.to_multiset_ensures();
    y.to_multiset_ensures();
    if x.len() == 0 {
        assert(x.map_values(f) =~= y.map_values(f));
    } else {
        let n = x.len() - 1;
        let a = x[n];
        assert(x.contains(a));
        lemma_same_items(x, y, a);
        let j = choose|j: int| 0 <= j < y.len() && y[j] == a;
        let xr = x.remove(n);
        let yr = y.remove(j);
        lemma_map_multiset(xr, yr, f);
        let mx = x.map_values(f);
        let my = y.map_values(f);
        mx.to_multiset_ensures();
        my.to_multiset_ensures();
        assert(mx.remove(n) =~= xr.map_values(f));
        assert(my.remove(j) =~= yr.map_values(f));
        assert(mx[n] == f(a) && my[j] == f(a));
        assert(mx.contains(f(a)));
        assert(my.contains(f(a)));
        assert(mx.to_multiset().remove(f(a)).insert(f(a)) =~= mx.to_multiset());
        assert(my.to_multiset().remove(f(a)).insert(f(a)) =~= my.to_multiset());
    }
}

/// The sum of numbers.
pub open spec fn total_of(s: Seq<nat>) -> nat
    decreases s.len(),
{
    if s.len() == 0 {
        0
    } else {
        total_of(s.drop_last()) + s.last()
    }
}

proof fn lemma_total_remove(s: Seq<nat>, j: int)
    requires
        0 <= j < s.len(),
    ensures
        total_of(s) == total_of(s.remove(j)) + s[j],
    decreases s.len(),
{
    if j == s.len() - 1 {
        assert(s.remove(j) =~= s.drop_last());
    } else {
        lemma_total_remove(s.drop_last(), j);
        assert(s.remove(j).drop_last() =~= s.drop_last().remove(j));
        assert(s.remove(j).last() == s.last());
    }
}

/// The order of summands does not matter.
pub proof fn lemma_total_multiset(x: Seq<nat>, y: Seq<nat>)
    requires
        x.to_multiset() == y.to_multiset(),
    ensures
        total_of(x) == total_of(y),
    decreases x.len(),
{
    x.to_multiset_ensures();
    y.to_multiset_ensures();
    if x.len() > 0 {
        let n = x.len() - 1;
        assert(x.contains(x[n]));
        lemma_same_items(x, y, x[n]);
        let j = choose|j: int| 0 <= j < y.len() && y[j] == x[n];
        lemma_total_multiset(x.remove(n), y.remove(j));
        lemma_total_remove(x, n);
        lemma_total_remove(y, j);
    }
}

/// Sorting neither adds nor drops ids.
pub proof fn lemma_sorted_len(ids: Seq<[u8; 16]>)
    ensures
        sorted_ids(ids).len() == ids.len(),
{
    lemma_id_order_total();
    ids.lemma_sort_by_ensures(id_order());
    ids.to_multiset_ensures();
    sorted_ids(ids).to_multiset_ensures();
}

/// What the order of files is: a permutation of their places, in which the ids
/// ascend and files of the same id keep their order.
pub proof fn lemma_file_order(ids: Seq<[u8; 16]>)
    requires
        ids.len() <= usize::MAX,
    ensures
        file_order(ids).len() == ids.len(),
        forall|k: int|
            0 <= k < ids.len() ==> (#[trigger] file_order(ids)[k]) < ids.len()
                && ids[file_order(ids)[k] as int] == sorted_ids(ids)[k],
        forall|j: int, k: int|
            0 <= j < k < ids.len() ==> #[trigger] file_order(ids)[j] != #[trigger] file_order(
                ids,
            )[k],
        forall|j: int, k: int|
            0 <= j < k < ids.len() && ids[#[trigger] file_order(ids)[j] as int]
                == ids[#[trigger] file_order(ids)[k] as int] ==> file_order(ids)[j] < file_order(
                ids,
            )[k],
        forall|i: usize| i < ids.len() ==> #[trigger] file_order(ids).contains(i),
{
    let given = keyed(ids);
    let keys = given.sort_by(key_order());
    let order = file_order(ids);
    lemma_key_order_total();
    given.lemma_sort_by_ensures(key_order());
    given.to_multiset_ensures();
    keys.to_multiset_ensures();
    assert(keys.len() == ids.len());
    assert forall|k: int| 0 <= k < ids.len() implies (#[trigger] keys[k]).1 < ids.len() && keys[k]
        == given[keys[k].1 as int] by {
        assert(keys.contains(keys[k]));
        lemma_same_items(keys, given, keys[k]);
    }
    assert(given.no_duplicates()) by {
        assert forall|i: int, j: int| 0 <= i < given.len() && 0 <= j < given.len() && i
            != j implies given[i] != given[j] by {
            assert(given[i].1 == i && given[j].1 == j);
        }
    }
    given.lemma_multiset_has_no_duplicates();
    keys.lemma_multiset_has_no_duplicates_conv();
    assert forall|j: int, k: int| 0 <= j < k < ids.len() implies #[trigger] order[j]
        != #[trigger] order[k] by {
        assert(keys[j] != keys[k]);
        assert(keys[j] == given[keys[j].1 as int]);
        assert(keys[k] == given[keys[k].1 as int]);
    }
    // The ids of the sorted keys are the sorted ids.
    let first = |k: FileKey| k.0;
    lemma_map_multiset(given, keys, first);
    assert(given.map_values(first) =~= ids);
    lemma_id_order_total();
    ids.lemma_sort_by_ensures(id_order());
    assert forall|i: int, j: int| 0 <= i < j < keys.len() implies #[trigger] (id_order())(
        keys.map_values(first)[i],
        keys.map_values(first)[j],
    ) by {
        assert((key_order())(keys[i], keys[j]));
        lemma_lex_leq_orders(keys[i].0@, keys[i].0@, keys[i].0@);
    }
    lemma_sorted_unique(keys.map_values(first), sorted_ids(ids), id_order());
    assert forall|k: int| 0 <= k < ids.len() implies (#[trigger] order[k]) < ids.len()
        && ids[order[k] as int] == sorted_ids(ids)[k] by {
        assert(keys[k] == given[keys[k].1 as int]);
        assert(keys.map_values(first)[k] == keys[k].0);
    }
    assert forall|j: int, k: int|
        0 <= j < k < ids.len() && ids[#[trigger] order[j] as int]
            == ids[#[trigger] order[k] as int] implies order[j] < order[k] by {
        assert(keys[j] == given[keys[j].1 as int]);
        assert(keys[k] == given[keys[k].1 as int]);
        assert((key_order())(keys[j], keys[k]));
        assert(order[j] != order[k]);
    }
    assert forall|i: usize| i < ids.len() implies #[trigger] order.contains(i) by {
        assert(given.contains(given[i as int]));
        lemma_same_items(given, keys, given[i as int]);
        let k = choose|k: int| 0 <= k < keys.len() && keys[k] == given[i as int];
        assert(order[k] == i);
    }
}

/// A sum over all files is the same in the order of the files.
pub proof fn lemma_total_in_order(ids: Seq<[u8; 16]>, counts: Seq<nat>)
    requires
        ids.len() <= usize::MAX,
        counts.len() == ids.len(),
    ensures
        total_of(Seq::new(ids.len(), |k: int| counts[file_order(ids)[k] as int])) == total_of(
            counts,
        ),
{
    let given = keyed(ids);
    let keys = given.sort_by(key_order());
    let f = |k: FileKey| counts[k.1 as int];
    lemma_key_order_total();
    given.lemma_sort_by_ensures(key_order());
    given.to_multiset_ensures();
    keys.to_multiset_ensures();
    lemma_map_multiset(given, keys, f);
    assert(given.map_values(f) =~= counts);
    assert(keys.map_values(f) =~= Seq::new(
        ids.len(),
        |k: int| counts[file_order(ids)[k] as int],
    ));
    lemma_total_multiset(given.map_values(f), keys.map_values(f));
}

/// `slice::sort_unstable` on pairs of a byte array and a number: the items stay
/// the same, and they stand in the order of tuples: by the array, byte by byte,
/// and then by the number.
#[verifier::external_body]
fn sort_keys(keys: &mut Vec<([u8; 16], usize)>)
    ensures
        final(keys)@.to_multiset() == old(keys)@.to_multiset(),
        sorted_by(final(keys)@, key_order()),
{
    keys.sort_unstable();
}

/// The places of the files in ascending order of their ids.
pub fn order_files(ids: &[[u8; 16]]) -> (order: Vec<usize>)
    ensures
        order@ == file_order(ids@),
{
    let mut keys: Vec<([u8; 16], usize)> = Vec::new();
    let mut i: usize = 0;
    while i < ids.len()
        invariant
            i <= ids@.len(),
            keys@ == keyed(ids@).take(i as int),
        decreases ids@.len() - i,
    {
        keys.push((ids[i], i));
        i = i + 1;
        assert(keys@ =~= keyed(ids@).take(i as int));
    }
    assert(keys@ =~= keyed(ids@));
    sort_keys(&mut keys);
    proof {
        lemma_key_order_total();
        keyed(ids@).lemma_sort_by_ensures(key_order());
        lemma_sorted_unique(keys@, keyed(ids@).sort_by(key_order()), key_order());
    }
    let mut order: Vec<usize> = Vec::new();
    let mut k: usize = 0;
    while k < keys.len()
        invariant
            k <= keys@.len(),
            order@ == keys@.map_values(|key: FileKey| key.1).take(k as int),
        decreases keys@.len() - k,
    {
        order.push(keys[k].1);
        k = k + 1;
        assert(order@ =~= keys@.map_values(|key: FileKey| key.1).take(k as int));
    }
    assert(order@ =~= keys@.map_values(|key: FileKey| key.1));
    order
}

/// The order of ids: equal, or smaller in the first byte in which they differ.
pub proof fn law_id_order(a: [u8; 16], b: [u8; 16])
    ensures
        (id_order())(a, b) <==> a == b || exists|p: int|
            0 <= p < 16 && a@[p] < b@[p] && #[trigger] a@.take(p) == b@.take(p),
{
    lemma_first_difference(a@, b@);
    if a@ == b@ {
        assert(a =~= b);
    }
}

proof fn lemma_first_difference(a: Seq<u8>, b: Seq<u8>)
    requires
        a.len() == b.len(),
    ensures
        lex_leq(a, b) <==> a == b || exists|p: int|
            0 <= p < a.len() && a[p] < b[p] && #[trigger] a.take(p) == b.take(p),
    decreases a.len(),
{
    if a.len() == 0 {
        assert(a =~= b);
    } else {
        let x = a.drop_first();
        let y = b.drop_first();
        lemma_first_difference(x, y);
        if a[0] == b[0] {
            if lex_leq(a, b) {
                if x == y {
                    assert(a =~= seq![a[0]] + x);
                    assert(b =~= seq![b[0]] + y);
                } else {
                    let p = choose|p: int|
                        0 <= p < x.len() && x[p] < y[p] && #[trigger] x.take(p) == y.take(p);
                    assert forall|q: int| 0 <= q < p + 1 implies a[q] == b[q] by {
                        if q > 0 {
                            assert(x.take(p)[q - 1] == y.take(p)[q - 1]);
                        }
                    }
                    assert(a.take(p + 1) =~= b.take(p + 1));
                    assert(a[p + 1] < b[p + 1]);
                }
            } else {
                assert(a == b ==> x == y);
                assert forall|p: int| 0 <= p < a.len() && a[p] < b[p] implies #[trigger] a.take(p)
                    != b.take(p) by {
                    if a.take(p) == b.take(p) {
                        assert forall|q: int| 0 <= q < p - 1 implies x[q] == y[q] by {
                            assert(a.take(p)[q + 1] == b.take(p)[q + 1]);
                        }
                        assert(x.take(p - 1) =~= y.take(p - 1));
                        assert(x[p - 1] < y[p - 1]);
                    }
                }
            }
        } else {
            if a[0] < b[0] {
                assert(a.take(0) =~= b.take(0));
            } else {
                assert forall|p: int| 0 <= p < a.len() && a[p] < b[p] implies #[trigger] a.take(p)
                    != b.take(p) by {
                    if a.take(p) == b.take(p) {
                        assert(a.take(p)[0] == b.take(p)[0]);
                    }
                }
            }
        }
    }
}

/// Sorting keeps the ids and puts each before those that are larger in the first
/// byte in which they differ.
pub proof fn law_sorted_ids(ids: Seq<[u8; 16]>)
    ensures
        sorted_ids(ids).to_multiset() == ids.to_multiset(),
        sorted_ids(ids).len() == ids.len(),
        forall|j: int, k: int|
            #![trigger sorted_ids(ids)[j], sorted_ids(ids)[k]]
            0 <= j < k < ids.len() ==> sorted_ids(ids)[j] == sorted_ids(ids)[k] || exists|p: int|
                0 <= p < 16 && sorted_ids(ids)[j]@[p] < sorted_ids(ids)[k]@[p]
                    && #[trigger] sorted_ids(ids)[j]@.take(p) == sorted_ids(ids)[k]@.take(p),
{
    let s = sorted_ids(ids);
    lemma_id_order_total();
    ids.lemma_sort_by_ensures(id_order());
    lemma_sorted_len(ids);
    assert forall|j: int, k: int|
        #![trigger s[j], s[k]]
        0 <= j < k < ids.len() implies s[j] == s[k] || exists|p: int|
        0 <= p < 16 && s[j]@[p] < s[k]@[p] && #[trigger] s[j]@.take(p) == s[k]@.take(p) by {
        assert((id_order())(s[j], s[k]));
        law_id_order(s[j], s[k]);
    }
}

/// The order of the files: every file once, and of two files the one whose id is
/// smaller in the first byte in which the ids differ comes first, or the one given
/// first if the ids are the same.
pub proof fn law_file_order(ids: Seq<[u8; 16]>, j: int, k: int, i: usize)
    requires
        ids.len() <= usize::MAX,
    ensures
        file_order(ids).len() == ids.len(),
        i < ids.len() ==> exists|m: int| 0 <= m < ids.len() && #[trigger] file_order(ids)[m] == i,
        0 <= j < k < ids.len() ==> {
            let a = file_order(ids)[j];
            let b = file_order(ids)[k];
            &&& a < ids.len()
            &&& b < ids.len()
            &&& a != b
            &&& ids[a as int] == ids[b as int] ==> a < b
            &&& ids[a as int] != ids[b as int] ==> exists|p: int|
                0 <= p < 16 && ids[a as int]@[p] < ids[b as int]@[p] && #[trigger] ids[a as int]@.take(
                    p,
                ) == ids[b as int]@.take(p)
        },
{
    let order = file_order(ids);
    let sorted = sorted_ids(ids);
    lemma_file_order(ids);
    law_sorted_ids(ids);
    if i < ids.len() {
        assert(order.contains(i));
        let m = choose|m: int| 0 <= m < order.len() && order[m] == i;
        assert(order[m] == i);
    }
    if 0 <= j < k < ids.len() {
        assert(order[j] < ids.len() && ids[order[j] as int] == sorted[j]);
        assert(order[k] < ids.len() && ids[order[k] as int] == sorted[k]);
        assert(order[j] != order[k]);
        if sorted[j] != sorted[k] {
            let p = choose|p: int|
                0 <= p < 16 && sorted[j]@[p] < sorted[k]@[p] && #[trigger] sorted[j]@.take(p)
                    == sorted[k]@.take(p);
            assert(ids[order[j] as int]@.take(p) == ids[order[k] as int]@.take(p));
        }
    }
}

} // verus!
