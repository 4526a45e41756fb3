//! Choosing the best candidate: the first one, in the order in which the
//! candidates are examined, whose score is the least.

use vstd::prelude::*;

verus! {

/// `i` is the first index whose key is the least among all present keys.
pub open spec fn is_first_min(keys: Seq<Option<int>>, i: int) -> bool {
    &&& 0 <= i < keys.len()
    &&& keys[i] is Some
    &&& forall|j: int|
        0 <= j < keys.len() && (#[trigger] keys[j]) is Some ==> keys[i]->0 <= keys[j]->0
    &&& forall|j: int| 0 <= j < i && (#[trigger] keys[j]) is Some ==> keys[i]->0 < keys[j]->0
}

/// No candidate has a key.
pub open spec fn no_key(keys: Seq<Option<int>>) -> bool {
    forall|j: int| 0 <= j < keys.len() ==> (#[trigger] keys[j]) is None
}

/// The first index with the least key, if any candidate has a key.
pub open spec fn first_min(keys: Seq<Option<int>>) -> Option<int> {
    if no_key(keys) {
        None
    } else {
        Some(choose|i: int| is_first_min(keys, i))
    }
}

/// At most one index is the first with the least key.
pub proof fn lemma_first_min_unique(keys: Seq<Option<int>>, i: int, j: int)
    requires
        is_first_min(keys, i),
        is_first_min(keys, j),
    ensures
        i == j,
{
    if i < j {
        assert(keys[j]->0 < keys[i]->0);
    } else if j < i {
        assert(keys[i]->0 < keys[j]->0);
    }
}

/// The running choice of a scan: `b` is the answer for the keys seen so far.
pub open spec fn tracks(keys: Seq<Option<int>>, b: Option<int>) -> bool {
    &&& b is None ==> no_key(keys)
    &&& b is Some ==> is_first_min(keys, b->0)
}

/// A tracked choice is `first_min`.
pub proof fn lemma_tracks_first_min(keys: Seq<Option<int>>, b: Option<int>)
    requires
        tracks(keys, b),
    ensures
        first_min(keys) == b,
{
    if b is Some {
        let i = b->0;
        assert(!no_key(keys)) by {
            assert(keys[i] is Some);
        }
        let c = choose|c: int| is_first_min(keys, c);
        assert(is_first_min(keys, c));
        lemma_first_min_unique(keys, i, c);
    }
}

/// Examining one more candidate: it becomes the choice exactly when it has
/// a key that is less than the key of the current choice.
pub proof fn lemma_tracks_push(keys: Seq<Option<int>>, b: Option<int>, k: Option<int>)
    requires
        tracks(keys, b),
    ensures
        tracks(
            keys.push(k),
            if k is Some && (b is None || k->0 < keys[b->0]->0) {
                Some(keys.len() as int)
            } else {
                b
            },
        ),
{
    let nk = keys.push(k);
    assert forall|j: int| 0 <= j < keys.len() implies nk[j] == keys[j] by {}
    assert(nk[keys.len() as int] == k);
}

/// A choice that tracks every key of the sequence.
proof fn lemma_tracker(keys: Seq<Option<int>>) -> (b: Option<int>)
    ensures
        tracks(keys, b),
    decreases keys.len(),
{
    if keys.len() == 0 {
        None
    } else {
        let init = keys.drop_last();
        let b0 = lemma_tracker(init);
        let k = keys.last();
        lemma_tracks_push(init, b0, k);
        assert(init.push(k) =~= keys);
        if k is Some && (b0 is None || k->0 < init[b0->0]->0) {
            Some(init.len() as int)
        } else {
            b0
        }
    }
}

/// When some candidate has a key, `first_min` names the first with the
/// least key.
pub proof fn lemma_first_min_exists(keys: Seq<Option<int>>)
    requires
        !no_key(keys),
    ensures
        first_min(keys) is Some,
        is_first_min(keys, first_min(keys)->0),
{
    let b = lemma_tracker(keys);
    lemma_tracks_first_min(keys, b);
}

} // verus!
