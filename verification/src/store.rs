//! The in-memory side of a collection, and the write pipeline's
//! bookkeeping.
//!
//! A `MapStore` or `SetStore` couples a collection identifier with a
//! sharded in-memory index. Every mutation updates the index and hands
//! back the byte image of the record — or the contiguous images of a
//! whole batch — that makes the mutation durable once appended to the
//! log; reading the log back is `replay`, and the selective clear's
//! rewrite is computed here as well. The file itself never appears: the
//! caller brings the log's bytes in and carries record images out.

use vstd::prelude::*;

use crate::config::{HashMapConfig, HashSetConfig};
use crate::index::{map_index_capacity, map_index_clear, map_index_get, map_index_insert,
    map_index_is_empty, map_index_len, map_index_new, map_index_pairs, map_index_remove,
    map_index_with_capacity_and_shard_amount, map_index_entries, set_index_capacity,
    set_index_clear, set_index_get, set_index_insert, set_index_is_empty, set_index_keys,
    set_index_len, set_index_new, set_index_remove, set_index_with_capacity, set_index_entries,
    ByteMap, ByteSet};
use crate::log::{clear_bytes, empty_map_state, empty_set_state, encode_log, filter_foreign,
    map_apply, map_fold_from, parse, set_apply, set_fold_from, lemma_encode_log_push,
    lemma_map_fold_from_push, lemma_set_fold_from_push};
use crate::record::{bytes_eq, clone_bytes, decode_record, encode_record, push_bytes, rec_bytes,
    DBEntry, DecodeError, Record, lemma_decode_used_bounds};

verus! {

/// The views of a sequence of key-value pairs.
pub open spec fn pairs_view(s: Seq<(Vec<u8>, Vec<u8>)>) -> Seq<(Seq<u8>, Seq<u8>)> {
    s.map_values(|p: (Vec<u8>, Vec<u8>)| (p.0@, p.1@))
}

/// The views of a sequence of keys.
pub open spec fn keys_view(s: Seq<Vec<u8>>) -> Seq<Seq<u8>> {
    s.map_values(|k: Vec<u8>| k@)
}

/// The insertion records a batch of key-value pairs appends for
/// collection `id`, in input order.
pub open spec fn map_insert_records(id: Seq<u8>, pairs: Seq<(Seq<u8>, Seq<u8>)>) -> Seq<Record> {
    pairs.map_values(|p: (Seq<u8>, Seq<u8>)| Record::MapInsert { id, key: p.0, value: p.1 })
}

/// What a batch removal does, walked key by key: the state it leaves,
/// the key-value pairs it removed in order, and the removal records it
/// appends for the keys that were present.
pub struct MapRemoveWalk {
    pub state: Map<Seq<u8>, Seq<u8>>,
    pub removed: Seq<(Seq<u8>, Seq<u8>)>,
    pub recs: Seq<Record>,
}

/// Walks a batch of keys over a map state, first to last: a present key
/// is removed and recorded, an absent one is passed over.
pub open spec fn map_remove_walk(
    m: Map<Seq<u8>, Seq<u8>>,
    keys: Seq<Seq<u8>>,
    id: Seq<u8>,
) -> MapRemoveWalk
    decreases keys.len(),
{
    if keys.len() == 0 {
        MapRemoveWalk { state: m, removed: Seq::empty(), recs: Seq::empty() }
    } else {
        let w = map_remove_walk(m, keys.drop_last(), id);
        let k = keys.last();
        if w.state.dom().contains(k) {
            MapRemoveWalk {
                state: w.state.remove(k),
                removed: w.removed.push((k, w.state[k])),
                recs: w.recs.push(Record::MapRemove { id, key: k }),
            }
        } else {
            w
        }
    }
}

/// A file-backed map collection's verified core: its identifier and its
/// sharded in-memory index.
pub struct MapStore {
    index: ByteMap,
    id: Vec<u8>,
}

impl MapStore {
    /// The key-value pairs the collection holds in memory.
    pub closed spec fn contents(self) -> Map<Seq<u8>, Seq<u8>> {
        map_index_entries(self.index)
    }

    /// The identifier the collection's records travel under.
    pub closed spec fn id_bytes(self) -> Seq<u8> {
        self.id@
    }

    /// Opens an empty map collection under the given identifier.
    pub fn new(id: Vec<u8>) -> (r: Self)
        ensures
            r.contents() == empty_map_state(),
            r.id_bytes() == id@,
    {
        MapStore { index: map_index_new(), id }
    }

    /// Opens an empty map collection with the given shard amount and
    /// pre-sized capacity. The index demands a shard amount that is a
    /// power of two greater than one.
    pub fn with_config(id: Vec<u8>, config: HashMapConfig) -> (r: Self)
        requires
            config.shard_amount >= 2,
            config.shard_amount & ((config.shard_amount - 1) as usize) == 0,
        ensures
            r.contents() == empty_map_state(),
            r.id_bytes() == id@,
    {
        MapStore {
            index: map_index_with_capacity_and_shard_amount(config.capacity, config.shard_amount),
            id,
        }
    }

    /// The value bound to `key`, if the collection holds the key.
    pub fn get(&self, key: &Vec<u8>) -> (r: Option<Vec<u8>>)
        ensures
            r matches Some(v) ==> self.contents().dom().contains(key@) && v@
                == self.contents()[key@],
            r is None ==> !self.contents().dom().contains(key@),
    {
        map_index_get(&self.index, key)
    }

    /// How many keys the collection holds.
    pub fn len(&self) -> (r: usize)
        ensures
            r == self.contents().dom().len(),
    {
        map_index_len(&self.index)
    }

    /// Whether the collection holds no key at all.
    pub fn is_empty(&self) -> (r: bool)
        ensures
            r == (self.contents().dom().len() == 0),
    {
        map_index_is_empty(&self.index)
    }

    /// How many pairs the index can hold without reallocating; the
    /// allocator decides the number.
    pub fn capacity(&self) -> usize {
        map_index_capacity(&self.index)
    }

    /// Binds `key` to `value` in memory. Returns the value the key was
    /// bound to before, and the image of the insertion record whose
    /// append makes the mutation durable.
    pub fn insert(&mut self, key: Vec<u8>, value: Vec<u8>) -> (r: (Option<Vec<u8>>, Vec<u8>))
        ensures
            final(self).id_bytes() == old(self).id_bytes(),
            final(self).contents() == old(self).contents().insert(key@, value@),
            r.1@ == rec_bytes(
                Record::MapInsert { id: old(self).id_bytes(), key: key@, value: value@ },
            ),
            r.0 matches Some(v) ==> old(self).contents().dom().contains(key@) && v@ == old(
                self,
            ).contents()[key@],
            r.0 is None ==> !old(self).contents().dom().contains(key@),
    {
        let rec = DBEntry::HashMapEntry(clone_bytes(&self.id), clone_bytes(&key), clone_bytes(
            &value,
        ));
        let bytes = encode_record(&rec);
        let prev = map_index_insert(&mut self.index, key, value);
        (prev, bytes)
    }

    /// Binds every pair of the batch in memory, in input order. Returns
    /// the previous values, position by position, and one contiguous
    /// byte image holding the batch's insertion records in input order,
    /// to be appended in a single piece.
    pub fn insert_batch(&mut self, entries: Vec<(Vec<u8>, Vec<u8>)>) -> (r: (
        Vec<Option<Vec<u8>>>,
        Vec<u8>,
    ))
        ensures
            final(self).id_bytes() == old(self).id_bytes(),
            final(self).contents() == map_fold_from(
                old(self).contents(),
                map_insert_records(old(self).id_bytes(), pairs_view(entries@)),
                old(self).id_bytes(),
            ),
            r.1@ == encode_log(map_insert_records(old(self).id_bytes(), pairs_view(entries@))),
            r.0@.len() == entries@.len(),
            forall|i: int|
                0 <= i < entries@.len() ==> {
                    let st = map_fold_from(
                        old(self).contents(),
                        map_insert_records(old(self).id_bytes(), pairs_view(entries@)).take(i),
                        old(self).id_bytes(),
                    );
                    &&& (#[trigger] r.0@[i] matches Some(v) ==> st.dom().contains(entries@[i].0@)
                        && v@ == st[entries@[i].0@])
                    &&& (r.0@[i] is None ==> !st.dom().contains(entries@[i].0@))
                },
    {
        let ghost recs = map_insert_records(old(self).id_bytes(), pairs_view(entries@));
        let mut olds: Vec<Option<Vec<u8>>> = Vec::new();
        let mut blob: Vec<u8> = Vec::new();
        let n: usize = entries.len();
        let mut i: usize = 0;
        proof {
            assert(recs.take(0) =~= Seq::<Record>::empty());
            assert(blob@ =~= encode_log(recs.take(0)));
        }
        while i < n
            invariant
                i <= n,
                n == entries@.len(),
                self.id@ == old(self).id_bytes(),
                recs == map_insert_records(old(self).id_bytes(), pairs_view(entries@)),
                self.contents() == map_fold_from(
                    old(self).contents(),
                    recs.take(i as int),
                    old(self).id_bytes(),
                ),
                blob@ == encode_log(recs.take(i as int)),
                olds@.len() == i,
                forall|j: int|
                    0 <= j < i ==> {
                        let st = map_fold_from(
                            old(self).contents(),
                            recs.take(j),
                            old(self).id_bytes(),
                        );
                        &&& (#[trigger] olds@[j] matches Some(v) ==> st.dom().contains(
                            entries@[j].0@,
                        ) && v@ == st[entries@[j].0@])
                        &&& (olds@[j] is None ==> !st.dom().contains(entries@[j].0@))
                    },
            decreases n - i,
        {
            let ghost st = map_fold_from(
                old(self).contents(),
                recs.take(i as int),
                old(self).id_bytes(),
            );
            let key = clone_bytes(&entries[i].0);
            let value = clone_bytes(&entries[i].1);
            let rec = DBEntry::HashMapEntry(clone_bytes(&self.id), clone_bytes(&key), clone_bytes(
                &value,
            ));
            let enc = encode_record(&rec);
            proof {
                assert(recs[i as int] == (Record::MapInsert {
                    id: old(self).id_bytes(),
                    key: entries@[i as int].0@,
                    value: entries@[i as int].1@,
                }));
                assert(recs.take(i as int).push(recs[i as int]) =~= recs.take(i + 1));
                lemma_encode_log_push(recs.take(i as int), recs[i as int]);
                lemma_map_fold_from_push(
                    old(self).contents(),
                    recs.take(i as int),
                    recs[i as int],
                    old(self).id_bytes(),
                );
            }
            push_bytes(&mut blob, &enc);
            let prev = map_index_insert(&mut self.index, key, value);
            olds.push(prev);
            i = i + 1;
        }
        proof {
            assert(recs.take(n as int) =~= recs);
        }
        (olds, blob)
    }

    /// Unbinds `key` in memory. If the key was bound, returns its value
    /// and the image of the removal record whose append makes the
    /// mutation durable; an absent key leaves memory and log alone.
    pub fn remove(&mut self, key: &Vec<u8>) -> (r: Option<(Vec<u8>, Vec<u8>)>)
        ensures
            final(self).id_bytes() == old(self).id_bytes(),
            final(self).contents() == old(self).contents().remove(key@),
            r matches Some(p) ==> old(self).contents().dom().contains(key@) && p.0@ == old(
                self,
            ).contents()[key@] && p.1@ == rec_bytes(
                Record::MapRemove { id: old(self).id_bytes(), key: key@ },
            ),
            r is None ==> !old(self).contents().dom().contains(key@),
    {
        match map_index_remove(&mut self.index, key) {
            Some((_, value)) => {
                let rec = DBEntry::RemoveHashMapEntry(clone_bytes(&self.id), clone_bytes(key));
                let bytes = encode_record(&rec);
                Some((value, bytes))
            },
            None => None,
        }
    }

    /// Unbinds every present key of the batch in memory, in input order.
    /// Returns the removed pairs and one contiguous byte image holding a
    /// removal record for each key that was present, in that order.
    pub fn remove_batch(&mut self, keys: Vec<Vec<u8>>) -> (r: (Vec<(Vec<u8>, Vec<u8>)>, Vec<u8>))
        ensures
            final(self).id_bytes() == old(self).id_bytes(),
            final(self).contents() == map_remove_walk(
                old(self).contents(),
                keys_view(keys@),
                old(self).id_bytes(),
            ).state,
            pairs_view(r.0@) == map_remove_walk(
                old(self).contents(),
                keys_view(keys@),
                old(self).id_bytes(),
            ).removed,
            r.1@ == encode_log(
                map_remove_walk(old(self).contents(), keys_view(keys@), old(self).id_bytes()).recs,
            ),
    {
        let ghost kv = keys_view(keys@);
        let mut removed: Vec<(Vec<u8>, Vec<u8>)> = Vec::new();
        let mut blob: Vec<u8> = Vec::new();
        let n: usize = keys.len();
        let mut i: usize = 0;
        proof {
            assert(kv.take(0) =~= Seq::<Seq<u8>>::empty());
            assert(encode_log(Seq::<Record>::empty()) == Seq::<u8>::empty());
            assert(pairs_view(removed@) =~= Seq::<(Seq<u8>, Seq<u8>)>::empty());
        }
        while i < n
            invariant
                i <= n,
                n == keys@.len(),
                kv == keys_view(keys@),
                self.id@ == old(self).id_bytes(),
                self.contents() == map_remove_walk(
                    old(self).contents(),
                    kv.take(i as int),
                    old(self).id_bytes(),
                ).state,
                pairs_view(removed@) == map_remove_walk(
                    old(self).contents(),
                    kv.take(i as int),
                    old(self).id_bytes(),
                ).removed,
                blob@ == encode_log(
                    map_remove_walk(
                        old(self).contents(),
                        kv.take(i as int),
                        old(self).id_bytes(),
                    ).recs,
                ),
            decreases n - i,
        {
            let ghost w = map_remove_walk(
                old(self).contents(),
                kv.take(i as int),
                old(self).id_bytes(),
            );
            proof {
                assert(kv.take(i + 1).drop_last() =~= kv.take(i as int));
                assert(kv.take(i + 1).last() == kv[i as int]);
                assert(kv[i as int] == keys@[i as int]@);
            }
            let key = clone_bytes(&keys[i]);
            match map_index_remove(&mut self.index, &key) {
                Some((stored, value)) => {
                    let rec = DBEntry::RemoveHashMapEntry(clone_bytes(&self.id), clone_bytes(
                        &key,
                    ));
                    let enc = encode_record(&rec);
                    proof {
                        lemma_encode_log_push(w.recs, Record::MapRemove {
                            id: old(self).id_bytes(),
                            key: kv[i as int],
                        });
                    }
                    push_bytes(&mut blob, &enc);
                    removed.push((stored, value));
                    proof {
                        assert(pairs_view(removed@) =~= w.removed.push(
                            (kv[i as int], w.state[kv[i as int]]),
                        ));
                    }
                },
                None => {
                },
            }
            i = i + 1;
        }
        proof {
            assert(kv.take(n as int) =~= kv);
        }
        (removed, blob)
    }

    /// Empties the collection in memory and computes the log rewrite of
    /// its selective clear: the bytes handed back hold, in order, every
    /// record of the log's parseable prefix that belongs to another
    /// collection, and nothing of this one.
    pub fn clear(&mut self, log: &Vec<u8>) -> (r: Vec<u8>)
        ensures
            final(self).id_bytes() == old(self).id_bytes(),
            final(self).contents() == empty_map_state(),
            r@ == clear_bytes(log@, old(self).id_bytes()),
    {
        map_index_clear(&mut self.index);
        filter_foreign(log, &self.id)
    }

    /// Computes the compacted log: every record of other collections,
    /// in order, followed by exactly one insertion record for each pair
    /// this collection currently holds in memory — tombstones and
    /// superseded insertions are gone. The pairs come out in the index's
    /// own walking order, which is not promised.
    pub fn compact_db(&self, log: &Vec<u8>) -> (r: Vec<u8>)
        ensures
            exists|pairs: Seq<(Seq<u8>, Seq<u8>)>|
                {
                    &&& r@ == clear_bytes(log@, self.id_bytes()) + encode_log(
                        #[trigger] map_insert_records(self.id_bytes(), pairs),
                    )
                    &&& pairs.len() == self.contents().dom().len()
                    &&& forall|i: int|
                        0 <= i < pairs.len() ==> self.contents().contains_pair(
                            #[trigger] pairs[i].0,
                            pairs[i].1,
                        )
                    &&& forall|k: Seq<u8>|
                        self.contents().dom().contains(k) ==> exists|i: int|
                            0 <= i < pairs.len() && #[trigger] pairs[i].0 == k
                    &&& forall|i: int, j: int| 0 <= i < j < pairs.len() ==> pairs[i].0 != pairs[j].0
                },
    {
        let mut out = filter_foreign(log, &self.id);
        let live = map_index_pairs(&self.index);
        let ghost pairs = pairs_view(live@);
        let ghost recs = map_insert_records(self.id_bytes(), pairs);
        let n: usize = live.len();
        let mut i: usize = 0;
        proof {
            assert(recs.take(0) =~= Seq::<Record>::empty());
            assert(encode_log(Seq::<Record>::empty()) == Seq::<u8>::empty());
            assert(out@ =~= clear_bytes(log@, self.id_bytes()) + encode_log(recs.take(0)));
        }
        while i < n
            invariant
                i <= n,
                n == live@.len(),
                pairs == pairs_view(live@),
                recs == map_insert_records(self.id_bytes(), pairs),
                out@ == clear_bytes(log@, self.id_bytes()) + encode_log(recs.take(i as int)),
            decreases n - i,
        {
            let rec = DBEntry::HashMapEntry(
                clone_bytes(&self.id),
                clone_bytes(&live[i].0),
                clone_bytes(&live[i].1),
            );
            let enc = encode_record(&rec);
            proof {
                assert(recs[i as int] == (Record::MapInsert {
                    id: self.id_bytes(),
                    key: pairs[i as int].0,
                    value: pairs[i as int].1,
                }));
                assert(recs.take(i as int).push(recs[i as int]) =~= recs.take(i + 1));
                lemma_encode_log_push(recs.take(i as int), recs[i as int]);
                assert(out@ + enc@ =~= clear_bytes(log@, self.id_bytes()) + encode_log(
                    recs.take(i + 1),
                ));
            }
            push_bytes(&mut out, &enc);
            i = i + 1;
        }
        proof {
            assert(recs.take(n as int) =~= recs);
            assert forall|k: Seq<u8>| self.contents().dom().contains(k) implies exists|i: int|
                0 <= i < pairs.len() && #[trigger] pairs[i].0 == k by {
                let j = choose|j: int| 0 <= j < live@.len() && #[trigger] live@[j].0@ == k;
                assert(pairs[j].0 == k);
            }
        }
        out
    }

    /// Rebuilds the collection from the log's bytes, folding its own
    /// records in order over what memory already holds: insertions
    /// overwrite, removals delete, and records of other collections or
    /// of the set kind are passed over. A torn tail ends the replay
    /// quietly; a byte that is no known tag fails it, leaving the fold
    /// of the records before it.
    pub fn replay(&mut self, buf: &Vec<u8>) -> (r: Result<(), DecodeError>)
        ensures
            final(self).id_bytes() == old(self).id_bytes(),
            final(self).contents() == map_fold_from(
                old(self).contents(),
                parse(buf@).recs,
                old(self).id_bytes(),
            ),
            r is Ok <==> !(parse(buf@).status is Malformed),
            r matches Err(e) ==> e is InvalidTag,
    {
        let mut pos: usize = 0;
        let len: usize = buf.len();
        let ghost mut done: Seq<Record> = Seq::empty();
        proof {
            assert(buf@.skip(0) =~= buf@);
        }
        while pos < len
            invariant
                pos <= len,
                len == buf@.len(),
                self.id@ == old(self).id_bytes(),
                parse(buf@).recs == done + parse(buf@.skip(pos as int)).recs,
                parse(buf@).status == parse(buf@.skip(pos as int)).status,
                self.contents() == map_fold_from(
                    old(self).contents(),
                    done,
                    old(self).id_bytes(),
                ),
            decreases len - pos,
        {
            let ghost t = buf@.skip(pos as int);
            match decode_record(buf, pos) {
                Ok((e, next)) => {
                    proof {
                        assert(t.len() > 0);
                        lemma_decode_used_bounds(t);
                        assert(t.skip(next - pos) =~= buf@.skip(next as int));
                        assert(parse(t).recs == seq![e@] + parse(buf@.skip(next as int)).recs);
                        assert(done + (seq![e@] + parse(buf@.skip(next as int)).recs) =~= done.push(
                            e@,
                        ) + parse(buf@.skip(next as int)).recs);
                        lemma_map_fold_from_push(
                            old(self).contents(),
                            done,
                            e@,
                            old(self).id_bytes(),
                        );
                    }
                    match e {
                        DBEntry::HashMapEntry(rid, key, value) => {
                            if bytes_eq(&rid, &self.id) {
                                map_index_insert(&mut self.index, key, value);
                            }
                        },
                        DBEntry::RemoveHashMapEntry(rid, key) => {
                            if bytes_eq(&rid, &self.id) {
                                map_index_remove(&mut self.index, &key);
                            }
                        },
                        _ => {
                        },
                    }
                    proof {
                        done = done.push(e@);
                    }
                    pos = next;
                },
                Err(DecodeError::UnexpectedEof) => {
                    proof {
                        assert(t.len() > 0);
                        assert(parse(t).recs =~= Seq::<Record>::empty());
                        assert(done + parse(t).recs =~= done);
                    }
                    return Ok(());
                },
                Err(e) => {
                    proof {
                        assert(t.len() > 0);
                        assert(parse(t).recs =~= Seq::<Record>::empty());
                        assert(done + parse(t).recs =~= done);
                    }
                    return Err(e);
                },
            }
        }
        proof {
            assert(buf@.skip(pos as int).len() == 0);
            assert(parse(buf@.skip(pos as int)).recs =~= Seq::<Record>::empty());
            assert(done + parse(buf@.skip(pos as int)).recs =~= done);
        }
        Ok(())
    }
}

/// The insertion records a batch of keys appends for collection `id`,
/// in input order.
pub open spec fn set_insert_records(id: Seq<u8>, keys: Seq<Seq<u8>>) -> Seq<Record> {
    keys.map_values(|k: Seq<u8>| Record::SetInsert { id, key: k })
}

/// What a batch removal does to a set, walked key by key: the state it
/// leaves, the keys it removed in order, and the removal records it
/// appends for the keys that were present.
pub struct SetRemoveWalk {
    pub state: Set<Seq<u8>>,
    pub removed: Seq<Seq<u8>>,
    pub recs: Seq<Record>,
}

/// Walks a batch of keys over a set state, first to last: a present key
/// is removed and recorded, an absent one is passed over.
pub open spec fn set_remove_walk(m: Set<Seq<u8>>, keys: Seq<Seq<u8>>, id: Seq<u8>) -> SetRemoveWalk
    decreases keys.len(),
{
    if keys.len() == 0 {
        SetRemoveWalk { state: m, removed: Seq::empty(), recs: Seq::empty() }
    } else {
        let w = set_remove_walk(m, keys.drop_last(), id);
        let k = keys.last();
        if w.state.contains(k) {
            SetRemoveWalk {
                state: w.state.remove(k),
                removed: w.removed.push(k),
                recs: w.recs.push(Record::SetRemove { id, key: k }),
            }
        } else {
            w
        }
    }
}

/// A file-backed set collection's verified core: its identifier and its
/// sharded in-memory index.
pub struct SetStore {
    index: ByteSet,
    id: Vec<u8>,
}

impl SetStore {
    /// The keys the collection holds in memory.
    pub closed spec fn contents(self) -> Set<Seq<u8>> {
        set_index_entries(self.index)
    }

    /// The identifier the collection's records travel under.
    pub closed spec fn id_bytes(self) -> Seq<u8> {
        self.id@
    }

    /// Opens an empty set collection under the given identifier.
    pub fn new(id: Vec<u8>) -> (r: Self)
        ensures
            r.contents() == empty_set_state(),
            r.id_bytes() == id@,
    {
        SetStore { index: set_index_new(), id }
    }

    /// Opens an empty set collection with the given pre-sized capacity.
    pub fn with_config(id: Vec<u8>, config: HashSetConfig) -> (r: Self)
        ensures
            r.contents() == empty_set_state(),
            r.id_bytes() == id@,
    {
        SetStore { index: set_index_with_capacity(config.capacity), id }
    }

    /// The stored key equal to `key`, if the collection holds it.
    pub fn get(&self, key: &Vec<u8>) -> (r: Option<Vec<u8>>)
        ensures
            r matches Some(k) ==> self.contents().contains(key@) && k@ == key@,
            r is None ==> !self.contents().contains(key@),
    {
        set_index_get(&self.index, key)
    }

    /// How many keys the collection holds.
    pub fn len(&self) -> (r: usize)
        ensures
            r == self.contents().len(),
    {
        set_index_len(&self.index)
    }

    /// Whether the collection holds no key at all.
    pub fn is_empty(&self) -> (r: bool)
        ensures
            r == (self.contents().len() == 0),
    {
        set_index_is_empty(&self.index)
    }

    /// How many keys the index can hold without reallocating; the
    /// allocator decides the number.
    pub fn capacity(&self) -> usize {
        set_index_capacity(&self.index)
    }

    /// Puts `key` into the collection in memory. Returns whether the key
    /// is new, and the image of the insertion record whose append makes
    /// the mutation durable — one record is appended whether or not the
    /// key was already there.
    pub fn insert(&mut self, key: Vec<u8>) -> (r: (bool, Vec<u8>))
        ensures
            final(self).id_bytes() == old(self).id_bytes(),
            final(self).contents() == old(self).contents().insert(key@),
            r.0 == !old(self).contents().contains(key@),
            r.1@ == rec_bytes(Record::SetInsert { id: old(self).id_bytes(), key: key@ }),
    {
        let rec = DBEntry::HashSetEntry(clone_bytes(&self.id), clone_bytes(&key));
        let bytes = encode_record(&rec);
        let fresh = set_index_insert(&mut self.index, key);
        (fresh, bytes)
    }

    /// Puts every key of the batch into the collection in memory, in
    /// input order. Returns, position by position, whether each key was
    /// new at its turn, and one contiguous byte image holding the
    /// batch's insertion records in input order.
    pub fn insert_batch(&mut self, keys: Vec<Vec<u8>>) -> (r: (Vec<bool>, Vec<u8>))
        ensures
            final(self).id_bytes() == old(self).id_bytes(),
            final(self).contents() == set_fold_from(
                old(self).contents(),
                set_insert_records(old(self).id_bytes(), keys_view(keys@)),
                old(self).id_bytes(),
            ),
            r.1@ == encode_log(set_insert_records(old(self).id_bytes(), keys_view(keys@))),
            r.0@.len() == keys@.len(),
            forall|i: int|
                0 <= i < keys@.len() ==> #[trigger] r.0@[i] == !set_fold_from(
                    old(self).contents(),
                    set_insert_records(old(self).id_bytes(), keys_view(keys@)).take(i),
                    old(self).id_bytes(),
                ).contains(keys@[i]@),
    {
        let ghost recs = set_insert_records(old(self).id_bytes(), keys_view(keys@));
        let mut fresh: Vec<bool> = Vec::new();
        let mut blob: Vec<u8> = Vec::new();
        let n: usize = keys.len();
        let mut i: usize = 0;
        proof {
            assert(recs.take(0) =~= Seq::<Record>::empty());
            assert(blob@ =~= encode_log(recs.take(0)));
        }
        while i < n
            invariant
                i <= n,
                n == keys@.len(),
                self.id@ == old(self).id_bytes(),
                recs == set_insert_records(old(self).id_bytes(), keys_view(keys@)),
                self.contents() == set_fold_from(
                    old(self).contents(),
                    recs.take(i as int),
                    old(self).id_bytes(),
                ),
                blob@ == encode_log(recs.take(i as int)),
                fresh@.len() == i,
                forall|j: int|
                    0 <= j < i ==> #[trigger] fresh@[j] == !set_fold_from(
                        old(self).contents(),
                        recs.take(j),
                        old(self).id_bytes(),
                    ).contains(keys@[j]@),
            decreases n - i,
        {
            let key = clone_bytes(&keys[i]);
            let rec = DBEntry::HashSetEntry(clone_bytes(&self.id), clone_bytes(&key));
            let enc = encode_record(&rec);
            proof {
                assert(recs[i as int] == (Record::SetInsert {
                    id: old(self).id_bytes(),
                    key: keys@[i as int]@,
                }));
                assert(recs.take(i as int).push(recs[i as int]) =~= recs.take(i + 1));
                lemma_encode_log_push(recs.take(i as int), recs[i as int]);
                lemma_set_fold_from_push(
                    old(self).contents(),
                    recs.take(i as int),
                    recs[i as int],
                    old(self).id_bytes(),
                );
            }
            push_bytes(&mut blob, &enc);
            let was_new = set_index_insert(&mut self.index, key);
            fresh.push(was_new);
            i = i + 1;
        }
        proof {
            assert(recs.take(n as int) =~= recs);
        }
        (fresh, blob)
    }

    /// Takes `key` out of the collection in memory. If it was there,
    /// returns the stored key and the image of the removal record whose
    /// append makes the mutation durable; an absent key leaves memory
    /// and log alone.
    pub fn remove(&mut self, key: &Vec<u8>) -> (r: Option<(Vec<u8>, Vec<u8>)>)
        ensures
            final(self).id_bytes() == old(self).id_bytes(),
            final(self).contents() == old(self).contents().remove(key@),
            r matches Some(p) ==> old(self).contents().contains(key@) && p.0@ == key@ && p.1@
                == rec_bytes(Record::SetRemove { id: old(self).id_bytes(), key: key@ }),
            r is None ==> !old(self).contents().contains(key@),
    {
        match set_index_remove(&mut self.index, key) {
            Some(stored) => {
                let rec = DBEntry::RemoveHashSetEntry(clone_bytes(&self.id), clone_bytes(key));
                let bytes = encode_record(&rec);
                Some((stored, bytes))
            },
            None => None,
        }
    }

    /// Takes every present key of the batch out of the collection, in
    /// input order. Returns the removed keys and one contiguous byte
    /// image holding a removal record for each key that was present, in
    /// that order.
    pub fn remove_batch(&mut self, keys: Vec<Vec<u8>>) -> (r: (Vec<Vec<u8>>, Vec<u8>))
        ensures
            final(self).id_bytes() == old(self).id_bytes(),
            final(self).contents() == set_remove_walk(
                old(self).contents(),
                keys_view(keys@),
                old(self).id_bytes(),
            ).state,
            keys_view(r.0@) == set_remove_walk(
                old(self).contents(),
                keys_view(keys@),
                old(self).id_bytes(),
            ).removed,
            r.1@ == encode_log(
                set_remove_walk(old(self).contents(), keys_view(keys@), old(self).id_bytes()).recs,
            ),
    {
        let ghost kv = keys_view(keys@);
        let mut removed: Vec<Vec<u8>> = Vec::new();
        let mut blob: Vec<u8> = Vec::new();
        let n: usize = keys.len();
        let mut i: usize = 0;
        proof {
            assert(kv.take(0) =~= Seq::<Seq<u8>>::empty());
            assert(encode_log(Seq::<Record>::empty()) == Seq::<u8>::empty());
            assert(keys_view(removed@) =~= Seq::<Seq<u8>>::empty());
        }
        while i < n
            invariant
                i <= n,
                n == keys@.len(),
                kv == keys_view(keys@),
                self.id@ == old(self).id_bytes(),
                self.contents() == set_remove_walk(
                    old(self).contents(),
                    kv.take(i as int),
                    old(self).id_bytes(),
                ).state,
                keys_view(removed@) == set_remove_walk(
                    old(self).contents(),
                    kv.take(i as int),
                    old(self).id_bytes(),
                ).removed,
                blob@ == encode_log(
                    set_remove_walk(
                        old(self).contents(),
                        kv.take(i as int),
                        old(self).id_bytes(),
                    ).recs,
                ),
            decreases n - i,
        {
            let ghost w = set_remove_walk(
                old(self).contents(),
                kv.take(i as int),
                old(self).id_bytes(),
            );
            proof {
                assert(kv.take(i + 1).drop_last() =~= kv.take(i as int));
                assert(kv.take(i + 1).last() == kv[i as int]);
                assert(kv[i as int] == keys@[i as int]@);
            }
            let key = clone_bytes(&keys[i]);
            match set_index_remove(&mut self.index, &key) {
                Some(stored) => {
                    let rec = DBEntry::RemoveHashSetEntry(clone_bytes(&self.id), clone_bytes(
                        &key,
                    ));
                    let enc = encode_record(&rec);
                    proof {
                        lemma_encode_log_push(w.recs, Record::SetRemove {
                            id: old(self).id_bytes(),
                            key: kv[i as int],
                        });
                    }
                    push_bytes(&mut blob, &enc);
                    removed.push(stored);
                    proof {
                        assert(keys_view(removed@) =~= w.removed.push(kv[i as int]));
                    }
                },
                None => {
                },
            }
            i = i + 1;
        }
        proof {
            assert(kv.take(n as int) =~= kv);
        }
        (removed, blob)
    }

    /// Empties the collection in memory and computes the log rewrite of
    /// its selective clear: the bytes handed back hold, in order, every
    /// record of the log's parseable prefix that belongs to another
    /// collection, and nothing of this one.
    pub fn clear(&mut self, log: &Vec<u8>) -> (r: Vec<u8>)
        ensures
            final(self).id_bytes() == old(self).id_bytes(),
            final(self).contents() == empty_set_state(),
            r@ == clear_bytes(log@, old(self).id_bytes()),
    {
        set_index_clear(&mut self.index);
        filter_foreign(log, &self.id)
    }

    /// Rebuilds the collection from the log's bytes, folding its own
    /// records in order over what memory already holds: insertions add,
    /// removals delete, and records of other collections or of the map
    /// kind are passed over. A torn tail ends the replay quietly; a
    /// byte that is no known tag fails it, leaving the fold of the
    /// records before it.
    pub fn replay(&mut self, buf: &Vec<u8>) -> (r: Result<(), DecodeError>)
        ensures
            final(self).id_bytes() == old(self).id_bytes(),
            final(self).contents() == set_fold_from(
                old(self).contents(),
                parse(buf@).recs,
                old(self).id_bytes(),
            ),
            r is Ok <==> !(parse(buf@).status is Malformed),
            r matches Err(e) ==> e is InvalidTag,
    {
        let mut pos: usize = 0;
        let len: usize = buf.len();
        let ghost mut done: Seq<Record> = Seq::empty();
        proof {
            assert(buf@.skip(0) =~= buf@);
        }
        while pos < len
            invariant
                pos <= len,
                len == buf@.len(),
                self.id@ == old(self).id_bytes(),
                parse(buf@).recs == done + parse(buf@.skip(pos as int)).recs,
                parse(buf@).status == parse(buf@.skip(pos as int)).status,
                self.contents() == set_fold_from(
                    old(self).contents(),
                    done,
                    old(self).id_bytes(),
                ),
            decreases len - pos,
        {
            let ghost t = buf@.skip(pos as int);
            match decode_record(buf, pos) {
                Ok((e, next)) => {
                    proof {
                        assert(t.len() > 0);
                        lemma_decode_used_bounds(t);
                        assert(t.skip(next - pos) =~= buf@.skip(next as int));
                        assert(parse(t).recs == seq![e@] + parse(buf@.skip(next as int)).recs);
                        assert(done + (seq![e@] + parse(buf@.skip(next as int)).recs) =~= done.push(
                            e@,
                        ) + parse(buf@.skip(next as int)).recs);
                        lemma_set_fold_from_push(
                            old(self).contents(),
                            done,
                            e@,
                            old(self).id_bytes(),
                        );
                    }
                    match e {
                        DBEntry::HashSetEntry(rid, key) => {
                            if bytes_eq(&rid, &self.id) {
                                set_index_insert(&mut self.index, key);
                            }
                        },
                        DBEntry::RemoveHashSetEntry(rid, key) => {
                            if bytes_eq(&rid, &self.id) {
                                set_index_remove(&mut self.index, &key);
                            }
                        },
                        _ => {
                        },
                    }
                    proof {
                        done = done.push(e@);
                    }
                    pos = next;
                },
                Err(DecodeError::UnexpectedEof) => {
                    proof {
                        assert(t.len() > 0);
                        assert(parse(t).recs =~= Seq::<Record>::empty());
                        assert(done + parse(t).recs =~= done);
                    }
                    return Ok(());
                },
                Err(e) => {
                    proof {
                        assert(t.len() > 0);
                        assert(parse(t).recs =~= Seq::<Record>::empty());
                        assert(done + parse(t).recs =~= done);
                    }
                    return Err(e);
                },
            }
        }
        proof {
            assert(buf@.skip(pos as int).len() == 0);
            assert(parse(buf@.skip(pos as int)).recs =~= Seq::<Record>::empty());
            assert(done + parse(buf@.skip(pos as int)).recs =~= done);
        }
        Ok(())
    }
}

} // verus!
