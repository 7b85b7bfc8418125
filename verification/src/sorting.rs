//! A stable, descending insertion sort, specified generically over an
//! integer key. The executable sorts (over file records and over duplicate
//! groups) prove that they compute `sort_desc`; the lemmas here give its
//! properties: length, ordering, permutation, stability, and that a sorted
//! sequence is left unchanged.

use vstd::prelude::*;

verus! {

/// `s` is sorted descending by `key`.
pub open spec fn sorted_desc<T>(s: Seq<T>, key: spec_fn(T) -> int) -> bool {
    forall|i: int, j: int| 0 <= i <= j < s.len() ==> key(s[i]) >= key(s[j])
}

/// `x` placed into `s` directly before the longest suffix of elements whose
/// key is below `key(x)`; on a sorted sequence this is the stable position,
/// after every element of equal key.
pub open spec fn insert_desc<T>(s: Seq<T>, x: T, key: spec_fn(T) -> int) -> Seq<T>
    decreases s.len(),
{
    if s.len() == 0 {
        seq![x]
    } else if key(s.last()) >= key(x) {
        s.push(x)
    } else {
        insert_desc(s.drop_last(), x, key).push(s.last())
    }
}

/// The elements of `s` sorted stably, descending by `key`: each element in
/// input order is inserted after its equals.
pub open spec fn sort_desc<T>(s: Seq<T>, key: spec_fn(T) -> int) -> Seq<T>
    decreases s.len(),
{
    if s.len() == 0 {
        Seq::<T>::empty()
    } else {
        insert_desc(sort_desc(s.drop_last(), key), s.last(), key)
    }
}

pub proof fn lemma_insert_desc_len<T>(s: Seq<T>, x: T, key: spec_fn(T) -> int)
    ensures
        insert_desc(s, x, key).len() == s.len() + 1,
    decreases s.len(),
{
    if s.len() > 0 && !(key(s.last()) >= key(x)) {
        lemma_insert_desc_len(s.drop_last(), x, key);
    }
}

/// Inserting never lowers a lower bound on the keys.
proof fn lemma_insert_desc_lower_bound<T>(s: Seq<T>, x: T, key: spec_fn(T) -> int, b: int)
    requires
        forall|j: int| 0 <= j < s.len() ==> key(s[j]) >= b,
        key(x) >= b,
    ensures
        forall|j: int|
            0 <= j < insert_desc(s, x, key).len() ==> key(insert_desc(s, x, key)[j]) >= b,
    decreases s.len(),
{
    if s.len() == 0 {
        assert(insert_desc(s, x, key) =~= seq![x]);
    } else if key(s.last()) >= key(x) {
        assert(insert_desc(s, x, key) == s.push(x));
    } else {
        assert(forall|j: int| 0 <= j < s.drop_last().len() ==> key(s.drop_last()[j]) >= b);
        lemma_insert_desc_lower_bound(s.drop_last(), x, key, b);
        let ins = insert_desc(s.drop_last(), x, key);
        assert(insert_desc(s, x, key) == ins.push(s.last()));
        assert(key(s.last()) >= b);
    }
}

pub proof fn lemma_insert_desc_sorted<T>(s: Seq<T>, x: T, key: spec_fn(T) -> int)
    requires
        sorted_desc(s, key),
    ensures
        sorted_desc(insert_desc(s, x, key), key),
    decreases s.len(),
{
    if s.len() == 0 {
        assert(insert_desc(s, x, key) =~= seq![x]);
    } else if key(s.last()) >= key(x) {
        assert forall|i: int, j: int|
            0 <= i <= j < s.push(x).len() implies key(s.push(x)[i]) >= key(s.push(x)[j]) by {
            if j == s.len() && i < j {
                assert(key(s[i]) >= key(s.last()));
            }
        }
    } else {
        let dl = s.drop_last();
        assert(sorted_desc(dl, key));
        lemma_insert_desc_sorted(dl, x, key);
        assert(forall|j: int| 0 <= j < dl.len() ==> key(dl[j]) >= key(s.last()));
        lemma_insert_desc_lower_bound(dl, x, key, key(s.last()));
        let ins = insert_desc(dl, x, key);
        lemma_insert_desc_len(dl, x, key);
        assert forall|i: int, j: int|
            0 <= i <= j < ins.push(s.last()).len() implies key(ins.push(s.last())[i]) >= key(
            ins.push(s.last())[j],
        ) by {
            if j == ins.len() && i < j {
                assert(key(ins[i]) >= key(s.last()));
            }
        }
    }
}

pub proof fn lemma_insert_desc_multiset<T>(s: Seq<T>, x: T, key: spec_fn(T) -> int)
    ensures
        insert_desc(s, x, key).to_multiset() == s.to_multiset().insert(x),
    decreases s.len(),
{
    broadcast use vstd::multiset::group_multiset_axioms;

    if s.len() == 0 {
        Seq::<T>::empty().to_multiset_ensures();
        assert(seq![x] =~= Seq::<T>::empty().push(x));
        assert(Seq::<T>::empty().push(x).to_multiset() =~= Seq::<T>::empty().to_multiset().insert(
            x,
        ));
        assert(s =~= Seq::<T>::empty());
    } else if key(s.last()) >= key(x) {
        s.to_multiset_ensures();
    } else {
        let dl = s.drop_last();
        lemma_insert_desc_multiset(dl, x, key);
        let ins = insert_desc(dl, x, key);
        ins.to_multiset_ensures();
        dl.to_multiset_ensures();
        assert(dl.push(s.last()) =~= s);
        assert(ins.push(s.last()).to_multiset() =~= ins.to_multiset().insert(s.last()));
        assert(ins.to_multiset().insert(s.last()) =~= dl.to_multiset().insert(x).insert(s.last()));
        assert(dl.to_multiset().insert(x).insert(s.last()) =~= dl.to_multiset().insert(
            s.last(),
        ).insert(x));
        assert(dl.to_multiset().insert(s.last()) =~= s.to_multiset());
    }
}

/// Inserting keeps the subsequence of any key value, except that an element
/// of the inserted key goes to that subsequence's end: insertion is stable.
/// `pred` is the test for carrying the key value `v`.
pub proof fn lemma_insert_desc_filter<T>(
    s: Seq<T>,
    x: T,
    key: spec_fn(T) -> int,
    pred: spec_fn(T) -> bool,
    v: int,
)
    requires
        forall|t: T| #[trigger] pred(t) <==> key(t) == v,
    ensures
        insert_desc(s, x, key).filter(pred) == if key(x) == v {
            s.filter(pred).push(x)
        } else {
            s.filter(pred)
        },
    decreases s.len(),
{
    broadcast use Seq::lemma_filter_push;

    if s.len() == 0 {
        assert(seq![x] =~= Seq::<T>::empty().push(x));
        assert(Seq::<T>::empty().push(x).filter(pred) == if pred(x) {
            Seq::<T>::empty().filter(pred).push(x)
        } else {
            Seq::<T>::empty().filter(pred)
        });
        assert(Seq::<T>::empty().filter(pred) =~= Seq::<T>::empty());
        assert(s.filter(pred) == Seq::<T>::empty().filter(pred));
    } else if key(s.last()) >= key(x) {
        assert(s.push(x).filter(pred) == if pred(x) {
            s.filter(pred).push(x)
        } else {
            s.filter(pred)
        });
    } else {
        let dl = s.drop_last();
        let last = s.last();
        lemma_insert_desc_filter(dl, x, key, pred, v);
        let ins = insert_desc(dl, x, key);
        assert(dl.push(last) =~= s);
        assert(s.filter(pred) == dl.push(last).filter(pred));
        assert(ins.push(last).filter(pred) == if pred(last) {
            ins.filter(pred).push(last)
        } else {
            ins.filter(pred)
        });
        if key(x) == v {
            // then key(last) < key(x) means last does not carry v
            assert(!pred(last));
        } else {
            if pred(last) {
                assert(ins.push(last).filter(pred) == dl.filter(pred).push(last));
                assert(dl.push(last).filter(pred) == dl.filter(pred).push(last));
            }
        }
    }
}

/// Characterizes the insertion point: if everything from `i` on has a key
/// below `key(x)` and the element before `i` (if any) does not, the insert
/// lands exactly at `i`.
pub proof fn lemma_insert_desc_at<T>(s: Seq<T>, x: T, key: spec_fn(T) -> int, i: int)
    requires
        0 <= i <= s.len(),
        forall|j: int| i <= j < s.len() ==> key(s[j]) < key(x),
        i > 0 ==> key(s[i - 1]) >= key(x),
    ensures
        insert_desc(s, x, key) == s.insert(i, x),
    decreases s.len(),
{
    if s.len() == 0 {
        assert(insert_desc(s, x, key) =~= s.insert(0, x));
    } else if i == s.len() {
        assert(key(s.last()) >= key(x));
        assert(s.push(x) =~= s.insert(i, x));
    } else {
        assert(key(s.last()) < key(x));
        let dl = s.drop_last();
        lemma_insert_desc_at(dl, x, key, i);
        assert(dl.insert(i, x).push(s.last()) =~= s.insert(i, x));
    }
}

pub proof fn lemma_sort_desc_len<T>(s: Seq<T>, key: spec_fn(T) -> int)
    ensures
        sort_desc(s, key).len() == s.len(),
    decreases s.len(),
{
    if s.len() > 0 {
        lemma_sort_desc_len(s.drop_last(), key);
        lemma_insert_desc_len(sort_desc(s.drop_last(), key), s.last(), key);
    }
}

pub proof fn lemma_sort_desc_sorted<T>(s: Seq<T>, key: spec_fn(T) -> int)
    ensures
        sorted_desc(sort_desc(s, key), key),
    decreases s.len(),
{
    if s.len() > 0 {
        lemma_sort_desc_sorted(s.drop_last(), key);
        lemma_insert_desc_sorted(sort_desc(s.drop_last(), key), s.last(), key);
    }
}

/// The sort is a permutation: it keeps exactly the elements of `s`.
pub proof fn lemma_sort_desc_multiset<T>(s: Seq<T>, key: spec_fn(T) -> int)
    ensures
        sort_desc(s, key).to_multiset() == s.to_multiset(),
    decreases s.len(),
{
    broadcast use vstd::multiset::group_multiset_axioms;

    if s.len() > 0 {
        let dl = s.drop_last();
        lemma_sort_desc_multiset(dl, key);
        lemma_insert_desc_multiset(sort_desc(dl, key), s.last(), key);
        dl.to_multiset_ensures();
        assert(dl.push(s.last()) =~= s);
        assert(s.to_multiset() == dl.push(s.last()).to_multiset());
        assert(dl.push(s.last()).to_multiset() =~= dl.to_multiset().insert(s.last()));
        assert(sort_desc(s, key) == insert_desc(sort_desc(dl, key), s.last(), key));
        assert(sort_desc(s, key).to_multiset() == sort_desc(dl, key).to_multiset().insert(
            s.last(),
        ));
    } else {
        assert(s =~= Seq::<T>::empty());
    }
}

/// Stability: for every key value, the sort keeps the subsequence of
/// elements carrying that value exactly as it was. `pred` is the test for
/// carrying the key value `v`.
pub proof fn lemma_sort_desc_stable<T>(
    s: Seq<T>,
    key: spec_fn(T) -> int,
    pred: spec_fn(T) -> bool,
    v: int,
)
    requires
        forall|t: T| #[trigger] pred(t) <==> key(t) == v,
    ensures
        sort_desc(s, key).filter(pred) == s.filter(pred),
    decreases s.len(),
{
    broadcast use Seq::lemma_filter_push;

    if s.len() > 0 {
        let dl = s.drop_last();
        lemma_sort_desc_stable(dl, key, pred, v);
        lemma_insert_desc_filter(sort_desc(dl, key), s.last(), key, pred, v);
        assert(dl.push(s.last()) =~= s);
        assert(s.filter(pred) == if pred(s.last()) {
            dl.filter(pred).push(s.last())
        } else {
            dl.filter(pred)
        });
    }
}

/// Sorting a sequence that is already sorted descending gives it back.
pub proof fn lemma_sort_desc_identity<T>(s: Seq<T>, key: spec_fn(T) -> int)
    requires
        sorted_desc(s, key),
    ensures
        sort_desc(s, key) == s,
    decreases s.len(),
{
    if s.len() > 0 {
        let dl = s.drop_last();
        assert(sorted_desc(dl, key));
        lemma_sort_desc_identity(dl, key);
        assert(forall|j: int| (dl.len() as int) <= j < dl.len() ==> key(dl[j]) < key(s.last()));
        lemma_insert_desc_at(dl, s.last(), key, dl.len() as int);
        assert(dl.insert(dl.len() as int, s.last()) =~= s);
    }
}

} // verus!
