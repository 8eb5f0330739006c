//! A vector stored on a key-value store, one element per key. Removing an
//! element moves the last element into its place.
use vstd::prelude::*;

use crate::bytes::copy_bytes;
use crate::codec::Codec;
use crate::le_bytes::{
    encode_le, le_bytes, lemma_le_bytes_injective, lemma_le_bytes_len, lemma_pow256_widths,
};
use crate::state::State;

verus! {

/// The key of the element at `index` of the vector with prefix `prefix`: the
/// prefix followed by the eight bytes of `index`, least significant first.
pub open spec fn derive_key(prefix: Seq<u8>, index: u64) -> Seq<u8> {
    prefix + le_bytes(index as nat, 8)
}

/// The keys of the indices below `n`.
pub open spec fn keys_below(prefix: Seq<u8>, n: nat) -> Set<Seq<u8>> {
    Set::new(|k: Seq<u8>| exists|i: u64| i < n && k == #[trigger] derive_key(prefix, i))
}

/// Whether the element at `index` can be loaded from `store`: its key is
/// there and the bytes under it decode.
pub open spec fn loadable<T: Codec>(store: Map<Seq<u8>, Seq<u8>>, prefix: Seq<u8>, index: u64) -> bool {
    &&& store.contains_key(derive_key(prefix, index))
    &&& T::spec_decode(store[derive_key(prefix, index)]).is_some()
}

/// Whether every element below `n` can be loaded from `store`.
pub open spec fn all_loadable<T: Codec>(store: Map<Seq<u8>, Seq<u8>>, prefix: Seq<u8>, n: nat) -> bool {
    forall|i: u64| i < n ==> #[trigger] loadable::<T>(store, prefix, i)
}

/// The elements decoded from the keys of the indices below `n`, in index order.
pub open spec fn loaded_values<T: Codec>(
    store: Map<Seq<u8>, Seq<u8>>,
    prefix: Seq<u8>,
    n: nat,
) -> Seq<T> {
    Seq::new(n, |i: int| T::spec_decode(store[derive_key(prefix, i as u64)]).unwrap())
}

/// What writing `data` back under `prefix` puts in a store: the encoding of
/// each element under the key of its index.
pub open spec fn written<T: Codec>(prefix: Seq<u8>, data: Seq<T>) -> Map<Seq<u8>, Seq<u8>>
    decreases data.len(),
{
    if data.len() == 0 {
        Map::empty()
    } else {
        written(prefix, data.drop_last()).insert(
            derive_key(prefix, (data.len() - 1) as u64),
            T::spec_encode(data.last()),
        )
    }
}

/// Distinct indices have distinct keys under one prefix.
pub proof fn lemma_derive_key_injective(prefix: Seq<u8>, i: u64, j: u64)
    requires
        i != j,
    ensures
        derive_key(prefix, i) != derive_key(prefix, j),
{
    if derive_key(prefix, i) == derive_key(prefix, j) {
        let a = le_bytes(i as nat, 8);
        let b = le_bytes(j as nat, 8);
        lemma_le_bytes_len(i as nat, 8);
        lemma_le_bytes_len(j as nat, 8);
        let n = prefix.len() as int;
        assert((prefix + a).subrange(n, n + 8) =~= a);
        assert((prefix + b).subrange(n, n + 8) =~= b);
        lemma_pow256_widths();
        lemma_le_bytes_injective(i as nat, j as nat, 8);
    }
}

/// The key of index `n` is not among the keys below `n`.
proof fn lemma_key_not_below(prefix: Seq<u8>, n: u64)
    ensures
        !keys_below(prefix, n as nat).contains(derive_key(prefix, n)),
{
    if keys_below(prefix, n as nat).contains(derive_key(prefix, n)) {
        let i = choose|i: u64| i < n && derive_key(prefix, n) == #[trigger] derive_key(prefix, i);
        lemma_derive_key_injective(prefix, i, n);
    }
}

/// The keys below `n + 1` are those below `n` and the key of `n`.
proof fn lemma_keys_below_step(prefix: Seq<u8>, n: u64)
    ensures
        keys_below(prefix, n as nat + 1) == keys_below(prefix, n as nat).insert(
            derive_key(prefix, n),
        ),
{
    let next = keys_below(prefix, n as nat + 1);
    let grown = keys_below(prefix, n as nat).insert(derive_key(prefix, n));
    assert forall|k: Seq<u8>| next.contains(k) implies grown.contains(k) by {
        let i = choose|i: u64| i < n as nat + 1 && k == #[trigger] derive_key(prefix, i);
        if i < n {
            assert(keys_below(prefix, n as nat).contains(k));
        }
    }
    assert forall|k: Seq<u8>| grown.contains(k) implies next.contains(k) by {
        if k == derive_key(prefix, n) {
        } else {
            let i = choose|i: u64| i < n && k == #[trigger] derive_key(prefix, i);
        }
    }
    assert(next =~= grown);
}

/// The element at `i` of `data`, once written, sits under the key of `i`.
proof fn lemma_written_at<T: Codec>(prefix: Seq<u8>, data: Seq<T>, i: int)
    requires
        data.len() <= u64::MAX,
        0 <= i < data.len(),
    ensures
        written(prefix, data).contains_key(derive_key(prefix, i as u64)),
        written(prefix, data)[derive_key(prefix, i as u64)] == T::spec_encode(data[i]),
    decreases data.len(),
{
    let last = data.len() - 1;
    if i < last {
        lemma_written_at(prefix, data.drop_last(), i);
        lemma_derive_key_injective(prefix, i as u64, last as u64);
    }
}

/// Writing `data` into any store and loading as many elements from it gives
/// `data` back.
pub proof fn lemma_write_back_load<T: Codec>(
    prefix: Seq<u8>,
    data: Seq<T>,
    store: Map<Seq<u8>, Seq<u8>>,
)
    requires
        data.len() <= u64::MAX,
    ensures
        all_loadable::<T>(store.union_prefer_right(written(prefix, data)), prefix, data.len()),
        loaded_values::<T>(store.union_prefer_right(written(prefix, data)), prefix, data.len())
            == data,
{
    let stored = store.union_prefer_right(written(prefix, data));
    assert forall|i: u64| i < data.len() implies #[trigger] loadable::<T>(stored, prefix, i)
        && T::spec_decode(stored[derive_key(prefix, i)]) == Some(data[i as int]) by {
        lemma_written_at(prefix, data, i as int);
        T::lemma_decode_encode(data[i as int]);
    }
    assert(loaded_values::<T>(stored, prefix, data.len()) =~= data) by {
        assert forall|i: int| 0 <= i < data.len() implies #[trigger] loaded_values::<T>(
            stored,
            prefix,
            data.len(),
        )[i] == data[i] by {
            assert(loadable::<T>(stored, prefix, i as u64));
        }
    }
}

/// Appending `e` to a loaded vector, writing the vector into any store and
/// loading its `len + 1` elements from there gives back the old elements
/// followed by `e`, which comes back at index `len`.
pub proof fn lemma_append_write_back_load<T: Codec>(
    v: Vector<T>,
    e: T,
    store: Map<Seq<u8>, Seq<u8>>,
)
    requires
        v.is_loaded(),
        v.len < u64::MAX,
    ensures
        ({
            let data = v.data@.push(e);
            let stored = store.union_prefer_right(written(v.prefix@, data));
            &&& all_loadable::<T>(stored, v.prefix@, v.len as nat + 1)
            &&& loaded_values::<T>(stored, v.prefix@, v.len as nat + 1) == data
            &&& loaded_values::<T>(stored, v.prefix@, v.len as nat + 1)[v.len as int] == e
        }),
{
    lemma_write_back_load(v.prefix@, v.data@.push(e), store);
}

/// Loading no elements needs nothing of the store, yields nothing and takes
/// nothing out of it.
pub proof fn lemma_load_nothing<T: Codec>(prefix: Seq<u8>, store: Map<Seq<u8>, Seq<u8>>)
    ensures
        all_loadable::<T>(store, prefix, 0),
        loaded_values::<T>(store, prefix, 0) == Seq::<T>::empty(),
        store.remove_keys(keys_below(prefix, 0)) == store,
{
    assert(loaded_values::<T>(store, prefix, 0) =~= Seq::<T>::empty());
    assert(store.remove_keys(keys_below(prefix, 0)) =~= store);
}

/// Why a vector could not be loaded from a store.
#[derive(Debug, Clone, Copy, PartialEq, Eq, Structural)]
pub enum LoadError {
    /// The store holds no value under the key of this index.
    MissingKey { index: u64 },
    /// The bytes under the key of this index do not decode as an element.
    Undecodable { index: u64 },
}

/// A vector whose elements are stored under the keys `prefix ++ index`.
/// `len` counts the elements whether or not they are in memory; `data`
/// holds those that were loaded or appended.
pub struct Vector<T> {
    pub len: u64,
    pub prefix: Vec<u8>,
    pub data: Vec<T>,
}

impl<T> Vector<T> {
    /// Whether every element is in memory, the element at index `k` at
    /// position `k`.
    pub open spec fn is_loaded(&self) -> bool {
        self.data@.len() == self.len
    }

    /// The number of elements.
    pub fn len(&self) -> (r: u64)
        ensures
            r == self.len,
    {
        self.len
    }

    /// Whether the vector has no elements.
    pub fn is_empty(&self) -> (r: bool)
        ensures
            r == (self.len == 0),
    {
        self.len == 0
    }

    /// An empty vector whose keys start with `id`, which must not be the
    /// prefix of another vector on the same store.
    pub fn new(id: Vec<u8>) -> (r: Self)
        ensures
            r.len == 0,
            r.prefix@ == id@,
            r.data@ == Seq::<T>::empty(),
    {
        Vector { len: 0, prefix: id, data: Vec::new() }
    }

    /// The key of the element at `index`, for any `index`.
    pub fn index_to_lookup_key(&self, index: u64) -> (r: Vec<u8>)
        ensures
            r@ == derive_key(self.prefix@, index),
    {
        let mut r = copy_bytes(self.prefix.as_slice());
        let mut tail = encode_le(index as u128, 8);
        r.append(&mut tail);
        r
    }

    /// Adds `value` at index `len`.
    pub fn append(&mut self, value: T)
        requires
            old(self).len < u64::MAX,
        ensures
            final(self).len == old(self).len + 1,
            final(self).data@ == old(self).data@.push(value),
            final(self).prefix@ == old(self).prefix@,
    {
        self.data.push(value);
        self.len = self.len + 1;
    }

    /// Removes the element at `index` and returns it; the last element takes
    /// its place.
    pub fn remove(&mut self, index: u64) -> (r: T)
        requires
            index < old(self).len,
            old(self).is_loaded(),
        ensures
            r == old(self).data@[index as int],
            final(self).len == old(self).len - 1,
            final(self).data@ == old(self).data@.update(
                index as int,
                old(self).data@.last(),
            ).drop_last(),
            final(self).prefix@ == old(self).prefix@,
    {
        let n = self.data.len();
        assert(index < n);
        let r = self.data.swap_remove(index as usize);
        self.len = self.len - 1;
        r
    }
}

impl<T: Codec> Vector<T> {
    /// Takes the elements at indices `0 .. len` out of `state`, in that
    /// order, and adds them to the elements in memory. Stops at the first
    /// index whose key is missing or whose bytes do not decode; the
    /// elements in memory are then left as they were.
    pub fn parse(&mut self, state: &mut State) -> (r: Result<(), LoadError>)
        requires
            old(state).wf(),
        ensures
            final(state).wf(),
            final(self).len == old(self).len,
            final(self).prefix@ == old(self).prefix@,
            r.is_ok() == all_loadable::<T>(old(state)@, old(self).prefix@, old(self).len as nat),
            match r {
                Ok(()) => {
                    &&& final(self).data@ == old(self).data@ + loaded_values::<T>(
                        old(state)@,
                        old(self).prefix@,
                        old(self).len as nat,
                    )
                    &&& final(state)@ == old(state)@.remove_keys(
                        keys_below(old(self).prefix@, old(self).len as nat),
                    )
                },
                Err(LoadError::MissingKey { index }) => {
                    &&& index < old(self).len
                    &&& all_loadable::<T>(old(state)@, old(self).prefix@, index as nat)
                    &&& !old(state)@.contains_key(derive_key(old(self).prefix@, index))
                    &&& final(self).data@ == old(self).data@
                    &&& final(state)@ == old(state)@.remove_keys(
                        keys_below(old(self).prefix@, index as nat),
                    )
                },
                Err(LoadError::Undecodable { index }) => {
                    &&& index < old(self).len
                    &&& all_loadable::<T>(old(state)@, old(self).prefix@, index as nat)
                    &&& old(state)@.contains_key(derive_key(old(self).prefix@, index))
                    &&& T::spec_decode(old(state)@[derive_key(old(self).prefix@, index)]).is_none()
                    &&& final(self).data@ == old(self).data@
                    &&& final(state)@ == old(state)@.remove_keys(
                        keys_below(old(self).prefix@, index as nat + 1),
                    )
                },
            },
    {
        let ghost store = state@;
        let ghost prefix = self.prefix@;
        let mut values: Vec<T> = Vec::new();
        let mut i: u64 = 0;
        while i < self.len
            invariant
                state.wf(),
                store == old(state)@,
                prefix == old(self).prefix@,
                self.prefix@ == prefix,
                self.len == old(self).len,
                self.data@ == old(self).data@,
                i <= self.len,
                state@ == store.remove_keys(keys_below(prefix, i as nat)),
                all_loadable::<T>(store, prefix, i as nat),
                values@ == loaded_values::<T>(store, prefix, i as nat),
            decreases self.len - i,
        {
            let key = self.index_to_lookup_key(i);
            proof {
                lemma_key_not_below(prefix, i);
                lemma_keys_below_step(prefix, i);
                assert(store.remove_keys(keys_below(prefix, i as nat)).remove(key@) =~= store.remove_keys(
                    keys_below(prefix, i as nat + 1),
                ));
            }
            let ghost before = state@;
            let bytes = match state.remove(key.as_slice()) {
                Some(b) => b,
                None => {
                    assert(!loadable::<T>(store, prefix, i));
                    assert(state@ =~= before);
                    return Err(LoadError::MissingKey { index: i });
                },
            };
            let value = match T::decode(&bytes) {
                Some(v) => v,
                None => {
                    assert(!loadable::<T>(store, prefix, i));
                    return Err(LoadError::Undecodable { index: i });
                },
            };
            values.push(value);
            proof {
                assert forall|j: u64| j < i as nat + 1 implies #[trigger] loadable::<T>(
                    store,
                    prefix,
                    j,
                ) by {
                    if j < i {
                        assert(loadable::<T>(store, prefix, j));
                    }
                }
                assert(values@ =~= loaded_values::<T>(store, prefix, i as nat + 1));
            }
            i = i + 1;
        }
        self.data.append(&mut values);
        Ok(())
    }

    /// Writes every element in memory into `state` under the key of its
    /// index.
    pub fn write_back(&self, state: &mut State)
        requires
            old(state).wf(),
            self.is_loaded(),
        ensures
            final(state).wf(),
            final(state)@ == old(state)@.union_prefer_right(written::<T>(self.prefix@, self.data@)),
    {
        let n = self.data.len();
        let mut i: usize = 0;
        while i < n
            invariant
                state.wf(),
                n == self.data@.len(),
                n == self.len,
                i <= n,
                state@ == old(state)@.union_prefer_right(
                    written::<T>(self.prefix@, self.data@.take(i as int)),
                ),
            decreases n - i,
        {
            let key = self.index_to_lookup_key(i as u64);
            let bytes = self.data[i].encode();
            let ghost before = state@;
            state.set(key, bytes);
            proof {
                let done = self.data@.take(i + 1);
                assert(done.drop_last() =~= self.data@.take(i as int));
                assert(before.insert(key@, bytes@) =~= old(state)@.union_prefer_right(
                    written::<T>(self.prefix@, done),
                ));
            }
            i += 1;
        }
        assert(self.data@.take(n as int) =~= self.data@);
    }
}

} // verus!
