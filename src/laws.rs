//! Laws relating the store's operations. `Engine::set` ensures `set_done`
//! on success and `Engine::del` ensures `del_done`; `Engine::get` returns
//! `Some(v)` exactly where the contents bind the key to `v`.
use vstd::prelude::*;
use crate::engine::{Engine, replay, set_done, del_done};

verus! {

/// After `set(k, v)` succeeds, `get(k)` returns `v`.
pub proof fn lemma_set_then_get(e0: Engine, e1: Engine, k: Seq<u8>, v: Seq<u8>, now: u64)
    requires
        set_done(e0, e1, k, v, now),
    ensures
        e1@.contains_key(k),
        e1@[k] == v,
{
}

/// After `set(k, v)` and then `del(k)` succeed, the deletion found the key
/// live (it returns `true`) and `get(k)` returns nothing.
pub proof fn lemma_set_del_then_get(
    e0: Engine,
    e1: Engine,
    e2: Engine,
    k: Seq<u8>,
    v: Seq<u8>,
    t1: u64,
    t2: u64,
)
    requires
        set_done(e0, e1, k, v, t1),
        del_done(e1, e2, k, t2),
    ensures
        e1@.contains_key(k),
        !e2@.contains_key(k),
{
}

/// After `set(k, v1)` and then `set(k, v2)` succeed, `get(k)` returns `v2`.
pub proof fn lemma_overwrite(
    e0: Engine,
    e1: Engine,
    e2: Engine,
    k: Seq<u8>,
    v1: Seq<u8>,
    v2: Seq<u8>,
    t1: u64,
    t2: u64,
)
    requires
        set_done(e0, e1, k, v1, t1),
        set_done(e1, e2, k, v2, t2),
    ensures
        e2@.contains_key(k),
        e2@[k] == v2,
{
}

/// The files of a store, handed to recovery, give back its contents:
/// `recover` returns the replay of the files it is given.
pub proof fn lemma_recover_restores(e: &Engine)
    requires
        e.wf(),
    ensures
        replay(e.file_views()) == e@,
{
    e.lemma_wf();
}

} // verus!
