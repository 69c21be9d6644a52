//! The SET and DEL commands: their arguments, their effect on the store and
//! the frames that carry them.
use vstd::prelude::*;
use vstd::string::StringSliceAdditionalSpecFns;
use crate::codec::push_all;
use crate::engine::{
    Engine, EngineError, set_done, unchanged, del_chain, del_step, dels_accepted, del_refused,
};
use crate::frame::{Frame, is_bulk};

verus! {

/// Bytes that hold valid UTF-8 text.
pub struct Utf8Bytes {
    bytes: Vec<u8>,
}

impl View for Utf8Bytes {
    type V = Seq<u8>;

    closed spec fn view(&self) -> Seq<u8> {
        self.bytes@
    }
}

impl Utf8Bytes {
    /// The UTF-8 bytes of `s`.
    pub fn from_str(s: &str) -> (r: Utf8Bytes)
        ensures
            r@ == s.spec_bytes(),
    {
        let mut bytes: Vec<u8> = Vec::new();
        push_all(&mut bytes, s.as_bytes());
        Utf8Bytes { bytes }
    }

    pub fn as_bytes(&self) -> (r: &[u8])
        ensures
            r@ == self@,
    {
        self.bytes.as_slice()
    }
}

/// The bytes `b"SET"`.
pub open spec fn set_word() -> Seq<u8> {
    seq![83u8, 69u8, 84u8]
}

/// The bytes `b"DEL"`.
pub open spec fn del_word() -> Seq<u8> {
    seq![68u8, 69u8, 76u8]
}

/// Arguments of SET.
pub struct SetCommand {
    /// The key to set a value to.
    key: Utf8Bytes,
    /// The value to be set.
    value: Vec<u8>,
}

impl SetCommand {
    pub closed spec fn key_spec(&self) -> Seq<u8> {
        self.key@
    }

    pub closed spec fn value_spec(&self) -> Seq<u8> {
        self.value@
    }

    pub fn new(key: Utf8Bytes, value: Vec<u8>) -> (r: SetCommand)
        ensures
            r.key_spec() == key@,
            r.value_spec() == value@,
    {
        SetCommand { key, value }
    }

    /// Sets the key's value; the reply is `+OK`.
    pub fn apply(self, storage: &mut Engine, now: u64) -> (r: Result<Frame, EngineError>)
        requires
            old(storage).wf(),
        ensures
            final(storage).wf(),
            match old(storage).set_error(self.key_spec(), self.value_spec()) {
                Some(e) => r == Err::<Frame, EngineError>(e) && unchanged(*old(storage), *final(storage)),
                None => r matches Ok(Frame::SimpleString(s)) && s@ == "OK"@ && set_done(
                    *old(storage),
                    *final(storage),
                    self.key_spec(),
                    self.value_spec(),
                    now,
                ),
            },
    {
        match storage.set(self.key.as_bytes(), self.value.as_slice(), now) {
            Ok(()) => {
                let ok = String::from_str("OK");
                proof {
                    reveal_strlit("OK");
                }
                Ok(Frame::SimpleString(ok))
            },
            Err(e) => Err(e),
        }
    }

    /// The request frame: `["SET", key, value]`.
    pub fn into_frame(self) -> (r: Frame)
        ensures
            r matches Frame::Array(items) && items@.len() == 3 && is_bulk(items@[0], set_word())
                && is_bulk(items@[1], self.key_spec()) && is_bulk(items@[2], self.value_spec()),
    {
        let mut key: Vec<u8> = Vec::new();
        push_all(&mut key, self.key.as_bytes());
        let mut items: Vec<Frame> = Vec::new();
        items.push(Frame::BulkString(vec![83u8, 69u8, 84u8]));
        items.push(Frame::BulkString(key));
        items.push(Frame::BulkString(self.value));
        assert(items@[0] matches Frame::BulkString(v) && v@ =~= set_word());
        Frame::Array(items)
    }
}

/// Deleting keys in order: the contents after, and how many were live.
pub open spec fn del_all(m: Map<Seq<u8>, Seq<u8>>, keys: Seq<Seq<u8>>) -> (Map<Seq<u8>, Seq<u8>>, nat)
    decreases keys.len(),
{
    if keys.len() == 0 {
        (m, 0)
    } else {
        let (m0, n0) = del_all(m, keys.drop_last());
        (m0.remove(keys.last()), if m0.contains_key(keys.last()) {
            n0 + 1
        } else {
            n0
        })
    }
}

/// Arguments of DEL.
pub struct Del {
    keys: Vec<Utf8Bytes>,
}

impl Del {
    pub closed spec fn keys_spec(&self) -> Seq<Seq<u8>> {
        self.keys@.map_values(|k: Utf8Bytes| k@)
    }

    /// DEL takes at least one key.
    pub fn new(keys: Vec<Utf8Bytes>) -> (r: Del)
        ensures
            r.keys_spec() == keys@.map_values(|k: Utf8Bytes| k@),
    {
        Del { keys }
    }

    /// Deletes the keys in order; the reply is the number that were live.
    /// The first refused deletion ends the command with its error, the
    /// deletions before it kept.
    pub fn apply(self, storage: &mut Engine, now: u64) -> (r: Result<Frame, EngineError>)
        requires
            old(storage).wf(),
            self.keys_spec().len() <= i64::MAX,
        ensures
            final(storage).wf(),
            r matches Ok(f) ==> {
                let (m, n) = del_all(old(storage)@, self.keys_spec());
                &&& final(storage)@ == m
                &&& f == Frame::Integer(n as i64)
                &&& dels_accepted(*old(storage), self.keys_spec(), now, *final(storage))
            },
            r matches Err(e) ==> exists|i: int|
                #[trigger] del_refused(*old(storage), self.keys_spec(), now, i, e, *final(storage))
                    && final(storage)@ == del_all(old(storage)@, self.keys_spec().subrange(0, i)).0,
    {
        let ghost ks = self.keys_spec();
        let ghost mut states: Seq<Engine> = seq![*storage];
        let mut count: i64 = 0;
        let mut i: usize = 0;
        while i < self.keys.len()
            invariant
                storage.wf(),
                ks == self.keys_spec(),
                ks.len() <= i64::MAX,
                i <= ks.len(),
                0 <= count <= i,
                (storage@, count as nat) == del_all(old(storage)@, ks.subrange(0, i as int)),
                del_chain(*old(storage), states, ks, now, i as int),
                states[i as int] == *storage,
            decreases ks.len() - i,
        {
            let ghost before = storage@;
            let ghost c0 = count as nat;
            assert(ks.subrange(0, i + 1).drop_last() =~= ks.subrange(0, i as int));
            assert(ks.subrange(0, i + 1).last() == ks[i as int]);
            assert(self.keys@[i as int]@ == ks[i as int]);
            let ghost si = *storage;
            match storage.del(self.keys[i].as_bytes(), now) {
                Ok(true) => {
                    count = count + 1;
                },
                Ok(false) => {},
                Err(e) => {
                    assert(storage@ == del_all(old(storage)@, ks.subrange(0, i as int)).0);
                    assert(unchanged(states[i as int], *storage));
                    assert(del_refused(*old(storage), ks, now, i as int, e, *storage));
                    return Err(e);
                },
            }
            proof {
                let prev = states;
                states = states.push(*storage);
                assert forall|j: int| 0 <= j < i + 1 implies #[trigger] del_step(states, ks, now, j) by {
                    if j < i {
                        assert(del_step(prev, ks, now, j));
                        assert(states[j] == prev[j]);
                        assert(states[j + 1] == prev[j + 1]);
                    } else {
                        assert(states[j] == si);
                        assert(states[j + 1] == *storage);
                    }
                }
            }
            assert(del_all(old(storage)@, ks.subrange(0, i + 1)) == (before.remove(ks[i as int]), if before.contains_key(ks[i as int]) { c0 + 1 } else { c0 }));
            i = i + 1;
        }
        assert(ks.subrange(0, ks.len() as int) =~= ks);
        assert(del_chain(*old(storage), states, ks, now, ks.len() as int) && unchanged(states.last(), *storage));
        assert(dels_accepted(*old(storage), ks, now, *storage));
        Ok(Frame::Integer(count))
    }

    /// The request frame: `["DEL", key...]`.
    pub fn into_frame(self) -> (r: Frame)
        ensures
            r matches Frame::Array(items) && items@.len() == self.keys_spec().len() + 1 && is_bulk(
                items@[0],
                del_word(),
            ) && forall|i: int|
                0 <= i < self.keys_spec().len() ==> is_bulk(#[trigger] items@[i + 1], self.keys_spec()[i]),
    {
        let ghost ks = self.keys_spec();
        let mut items: Vec<Frame> = Vec::new();
        items.push(Frame::BulkString(vec![68u8, 69u8, 76u8]));
        assert(items@[0] matches Frame::BulkString(v) && v@ =~= del_word());
        let mut i: usize = 0;
        while i < self.keys.len()
            invariant
                ks == self.keys_spec(),
                i <= ks.len(),
                items@.len() == i + 1,
                is_bulk(items@[0], del_word()),
                forall|j: int| 0 <= j < i ==> is_bulk(#[trigger] items@[j + 1], ks[j]),
            decreases ks.len() - i,
        {
            let mut key: Vec<u8> = Vec::new();
            push_all(&mut key, self.keys[i].as_bytes());
            assert(self.keys@[i as int]@ == ks[i as int]);
            items.push(Frame::BulkString(key));
            i = i + 1;
        }
        Frame::Array(items)
    }
}

} // verus!
