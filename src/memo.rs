//! Memoized calls: look a key up, and on a miss run the computation and store what it
//! returns on success.

use vstd::prelude::*;

use crate::document::{
    is_prefix, lemma_prefix_head, lemma_walk_then_store, node_at, stored, value_at, walked,
};
use crate::key::key_view;
use crate::store::{version_path, Store, StoreHandle};

verus! {

/// What a memoized call at `k` leaves behind, given the store `before` and `after` it and
/// its result `r`. A hit returns the cached value and the computation is not run; a miss
/// returns a result that the computation can give (`computed`). Either way the lookup
/// walk is done (`walked`); on a miss that succeeds the document is as after storing the
/// value at `k` (`stored`), and on a failure nothing more is written.
pub open spec fn memo_done<S: Store, E>(
    before: S,
    k: Seq<Seq<char>>,
    computed: bool,
    r: Result<String, E>,
    after: S,
) -> bool {
    match value_at(before.document(), k) {
        Some(v) => {
            &&& r matches Ok(s) && s@ == v
            &&& walked(before.document(), k, after.document())
        },
        None => {
            &&& computed
            &&& match r {
                Ok(s) => stored(before.document(), k, s@, after.document()),
                Err(_) => walked(before.document(), k, after.document()),
            }
        },
    }
}

/// Looks `key` up in `store`; on a miss runs `compute`, and stores its value if it
/// succeeded. A failure is handed back and nothing is stored.
pub fn memoized<S: Store, E, F: FnOnce() -> Result<String, E>>(
    store: &mut S,
    key: &Vec<String>,
    compute: F,
) -> (r: Result<String, E>)
    requires
        key@.len() >= 1,
        key_view(key@)[0] != "version"@,
        compute.requires(()),
    ensures
        memo_done(*old(store), key_view(key@), compute.ensures((), r), r, *final(store)),
{
    let ghost before = store.document();
    match store.try_get_cached(key) {
        Some(v) => Ok(v),
        None => {
            let r = compute();
            if let Ok(v) = &r {
                let ghost middle = store.document();
                store.put_cache(key, v.clone());
                proof {
                    lemma_walk_then_store(before, key_view(key@), middle, v@, store.document());
                }
            }
            r
        },
    }
}

/// A memoized call against the active store of `handle`, which must have been set.
pub fn memoized_call<S: Store, E, F: FnOnce() -> Result<String, E>>(
    handle: &mut StoreHandle<S>,
    key: &Vec<String>,
    compute: F,
) -> (r: Result<String, E>)
    requires
        key@.len() >= 1,
        key_view(key@)[0] != "version"@,
        compute.requires(()),
        old(handle).active() is Some,
    ensures
        final(handle).active() is Some,
        memo_done(
            old(handle).active()->Some_0,
            key_view(key@),
            compute.ensures((), r),
            r,
            final(handle).active()->Some_0,
        ),
{
    let mut store = crate::store::delete_global_store(handle).unwrap();
    let r = memoized(&mut store, key, compute);
    crate::store::set_global_store(handle, store);
    r
}

/// A memoized call whose computation fails on a key that missed leaves the key missing.
pub proof fn lemma_failure_not_cached<S: Store, E>(
    before: S,
    k: Seq<Seq<char>>,
    computed: bool,
    r: Result<String, E>,
    after: S,
)
    requires
        value_at(before.document(), k) is None,
        memo_done(before, k, computed, r, after),
        r is Err,
    ensures
        value_at(after.document(), k) is None,
{
}

/// A memoized call at a key that does not start at the version field keeps the version
/// field as it was.
pub proof fn lemma_memo_keeps_version<S: Store, E>(
    before: S,
    k: Seq<Seq<char>>,
    computed: bool,
    r: Result<String, E>,
    after: S,
)
    requires
        k.len() >= 1,
        k[0] != "version"@,
        memo_done(before, k, computed, r, after),
    ensures
        node_at(after.document(), version_path()) == node_at(before.document(), version_path()),
{
    let vp = version_path();
    if is_prefix(vp, k) {
        lemma_prefix_head(vp, k);
    }
    if is_prefix(k, vp) {
        lemma_prefix_head(k, vp);
    }
    if is_prefix(vp, k.drop_last()) {
        lemma_prefix_head(vp, k.drop_last());
    }
}

} // verus!
