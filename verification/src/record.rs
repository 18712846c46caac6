//! Log records and their wire format.
//!
//! Every entry of the shared log file is one tagged record: a single tag
//! byte followed by two or three length-prefixed byte strings. The first
//! string is always the owning collection's identifier; map insertions also
//! carry a value. The tag is the discriminator, and an unknown tag is a
//! decode error. A record cut short by a torn tail is reported distinctly
//! from a malformed one, so replay can stop cleanly at the last complete
//! record.

use vstd::prelude::*;

use vstd::std_specs::cmp::PartialEqSpec;

use crate::wire::{le64, le64_val, lemma_le64_canonical, lemma_le64_round_trip, push_le64,
    read_le64};

verus! {

/// Tag byte of a map insertion record.
pub const TAG_MAP_INSERT: u8 = 0;

/// Tag byte of a map removal record.
pub const TAG_MAP_REMOVE: u8 = 1;

/// Tag byte of a set insertion record.
pub const TAG_SET_INSERT: u8 = 2;

/// Tag byte of a set removal record.
pub const TAG_SET_REMOVE: u8 = 3;

/// A log record as the specification sees it: one operation on a named
/// collection, every payload a plain byte string.
pub enum Record {
    MapInsert { id: Seq<u8>, key: Seq<u8>, value: Seq<u8> },
    MapRemove { id: Seq<u8>, key: Seq<u8> },
    SetInsert { id: Seq<u8>, key: Seq<u8> },
    SetRemove { id: Seq<u8>, key: Seq<u8> },
}

/// The identifier of the collection a record belongs to.
pub open spec fn rec_id(r: Record) -> Seq<u8> {
    match r {
        Record::MapInsert { id, .. } => id,
        Record::MapRemove { id, .. } => id,
        Record::SetInsert { id, .. } => id,
        Record::SetRemove { id, .. } => id,
    }
}

/// A record is well formed when each of its byte strings is short enough
/// for its length to travel as a 64-bit prefix.
pub open spec fn rec_wf(r: Record) -> bool {
    match r {
        Record::MapInsert { id, key, value } => id.len() <= u64::MAX && key.len() <= u64::MAX
            && value.len() <= u64::MAX,
        Record::MapRemove { id, key } => id.len() <= u64::MAX && key.len() <= u64::MAX,
        Record::SetInsert { id, key } => id.len() <= u64::MAX && key.len() <= u64::MAX,
        Record::SetRemove { id, key } => id.len() <= u64::MAX && key.len() <= u64::MAX,
    }
}

/// The wire image of one field: its length in eight little-endian bytes,
/// then its bytes.
pub open spec fn field_bytes(s: Seq<u8>) -> Seq<u8> {
    le64(s.len() as u64) + s
}

/// The wire image of a whole record: the tag byte, then each field in
/// order.
pub open spec fn rec_bytes(r: Record) -> Seq<u8> {
    match r {
        Record::MapInsert { id, key, value } => seq![TAG_MAP_INSERT] + field_bytes(id)
            + field_bytes(key) + field_bytes(value),
        Record::MapRemove { id, key } => seq![TAG_MAP_REMOVE] + field_bytes(id)
            + field_bytes(key),
        Record::SetInsert { id, key } => seq![TAG_SET_INSERT] + field_bytes(id)
            + field_bytes(key),
        Record::SetRemove { id, key } => seq![TAG_SET_REMOVE] + field_bytes(id)
            + field_bytes(key),
    }
}

/// An entry of the database log, carried in executable code. The byte
/// strings are, in order, the collection identifier, the key, and — for map
/// insertions — the value.
#[derive(Debug, Clone, Eq, Hash)]
pub enum DBEntry {
    /// A key bound to a value in a map.
    HashMapEntry(Vec<u8>, Vec<u8>, Vec<u8>),
    /// A key removed from a map.
    RemoveHashMapEntry(Vec<u8>, Vec<u8>),
    /// A key inserted into a set.
    HashSetEntry(Vec<u8>, Vec<u8>),
    /// A key removed from a set.
    RemoveHashSetEntry(Vec<u8>, Vec<u8>),
}

impl View for DBEntry {
    type V = Record;

    open spec fn view(&self) -> Record {
        match self {
            DBEntry::HashMapEntry(id, key, value) => Record::MapInsert {
                id: id@,
                key: key@,
                value: value@,
            },
            DBEntry::RemoveHashMapEntry(id, key) => Record::MapRemove { id: id@, key: key@ },
            DBEntry::HashSetEntry(id, key) => Record::SetInsert { id: id@, key: key@ },
            DBEntry::RemoveHashSetEntry(id, key) => Record::SetRemove { id: id@, key: key@ },
        }
    }
}

/// Element-wise equality of two byte vectors is equality of their views.
proof fn lemma_vec_u8_eq_spec(a: &Vec<u8>, b: &Vec<u8>)
    ensures
        a.eq_spec(b) <==> a@ == b@,
{
    if a.eq_spec(b) {
        assert(a@ =~= b@);
    }
}

impl PartialEq for DBEntry {
    fn eq(&self, other: &DBEntry) -> (r: bool) {
        proof {
            match (self, other) {
                (DBEntry::HashMapEntry(a1, a2, a3), DBEntry::HashMapEntry(b1, b2, b3)) => {
                    lemma_vec_u8_eq_spec(a1, b1);
                    lemma_vec_u8_eq_spec(a2, b2);
                    lemma_vec_u8_eq_spec(a3, b3);
                },
                (DBEntry::RemoveHashMapEntry(a1, a2), DBEntry::RemoveHashMapEntry(b1, b2)) => {
                    lemma_vec_u8_eq_spec(a1, b1);
                    lemma_vec_u8_eq_spec(a2, b2);
                },
                (DBEntry::HashSetEntry(a1, a2), DBEntry::HashSetEntry(b1, b2)) => {
                    lemma_vec_u8_eq_spec(a1, b1);
                    lemma_vec_u8_eq_spec(a2, b2);
                },
                (DBEntry::RemoveHashSetEntry(a1, a2), DBEntry::RemoveHashSetEntry(b1, b2)) => {
                    lemma_vec_u8_eq_spec(a1, b1);
                    lemma_vec_u8_eq_spec(a2, b2);
                },
                _ => {},
            }
        }
        match (self, other) {
            (DBEntry::HashMapEntry(a1, a2, a3), DBEntry::HashMapEntry(b1, b2, b3)) => a1 == b1
                && a2 == b2 && a3 == b3,
            (DBEntry::RemoveHashMapEntry(a1, a2), DBEntry::RemoveHashMapEntry(b1, b2)) => a1 == b1
                && a2 == b2,
            (DBEntry::HashSetEntry(a1, a2), DBEntry::HashSetEntry(b1, b2)) => a1 == b1 && a2 == b2,
            (DBEntry::RemoveHashSetEntry(a1, a2), DBEntry::RemoveHashSetEntry(b1, b2)) => a1 == b1
                && a2 == b2,
            _ => false,
        }
    }
}

impl vstd::std_specs::cmp::PartialEqSpecImpl for DBEntry {
    open spec fn obeys_eq_spec() -> bool {
        true
    }

    open spec fn eq_spec(&self, other: &DBEntry) -> bool {
        self@ == other@
    }
}

impl DBEntry {
    /// The identifier of the collection this entry belongs to.
    pub fn entry_id(&self) -> (r: &Vec<u8>)
        ensures
            r@ == rec_id(self@),
    {
        match self {
            DBEntry::HashMapEntry(id, _, _) => id,
            DBEntry::RemoveHashMapEntry(id, _) => id,
            DBEntry::HashSetEntry(id, _) => id,
            DBEntry::RemoveHashSetEntry(id, _) => id,
        }
    }
}

/// Copies a byte vector; the copy carries the same bytes.
pub fn clone_bytes(v: &Vec<u8>) -> (r: Vec<u8>)
    ensures
        r@ == v@,
{
    let r = v.clone();
    proof {
        assert forall|i: int| 0 <= i < v@.len() implies r@[i] == v@[i] by {
            assert(cloned::<u8>(v[i], r[i]));
        }
        assert(r@ =~= v@);
    }
    r
}

/// Compares two byte vectors, deciding equality of their views.
pub fn bytes_eq(a: &Vec<u8>, b: &Vec<u8>) -> (r: bool)
    ensures
        r == (a@ == b@),
{
    proof {
        lemma_vec_u8_eq_spec(a, b);
    }
    a == b
}

/// Appends every byte of `data` to `out`.
pub fn push_bytes(out: &mut Vec<u8>, data: &Vec<u8>)
    ensures
        final(out)@ == old(out)@ + data@,
{
    let n: usize = data.len();
    let mut i: usize = 0;
    while i < n
        invariant
            i <= n,
            n == data@.len(),
            out@ == old(out)@ + data@.take(i as int),
        decreases n - i,
    {
        out.push(data[i]);
        i = i + 1;
        assert(out@ =~= old(out)@ + data@.take(i as int));
    }
    assert(out@ =~= old(out)@ + data@);
}

/// Appends the wire image of one length-prefixed field to `out`.
fn push_field(out: &mut Vec<u8>, data: &Vec<u8>)
    ensures
        final(out)@ == old(out)@ + field_bytes(data@),
{
    push_le64(out, data.len() as u64);
    push_bytes(out, data);
    assert(out@ =~= old(out)@ + field_bytes(data@));
}

/// Serializes one record for the log: the tag byte, then each field with
/// its eight-byte little-endian length prefix.
pub fn encode_record(e: &DBEntry) -> (r: Vec<u8>)
    ensures
        r@ == rec_bytes(e@),
{
    let mut out: Vec<u8> = Vec::new();
    match e {
        DBEntry::HashMapEntry(id, key, value) => {
            out.push(TAG_MAP_INSERT);
            push_field(&mut out, id);
            push_field(&mut out, key);
            push_field(&mut out, value);
        },
        DBEntry::RemoveHashMapEntry(id, key) => {
            out.push(TAG_MAP_REMOVE);
            push_field(&mut out, id);
            push_field(&mut out, key);
        },
        DBEntry::HashSetEntry(id, key) => {
            out.push(TAG_SET_INSERT);
            push_field(&mut out, id);
            push_field(&mut out, key);
        },
        DBEntry::RemoveHashSetEntry(id, key) => {
            out.push(TAG_SET_REMOVE);
            push_field(&mut out, id);
            push_field(&mut out, key);
        },
    }
    assert(out@ =~= rec_bytes(e@));
    out
}

/// Why the next record could not be read.
#[derive(Debug, Clone, Copy, PartialEq, Eq, Structural)]
pub enum DecodeError {
    /// The bytes ran out inside a record: a torn tail.
    UnexpectedEof,
    /// The record begins with a byte that is not a known tag.
    InvalidTag(u8),
}

/// What reading one record off the front of a byte sequence yields.
pub enum DecodeOutcome {
    /// A complete record occupies the first `used` bytes.
    Found { rec: Record, used: int },
    /// The sequence ends inside a record.
    Incomplete,
    /// The first byte is not a known tag.
    Malformed,
}

/// Reads one length-prefixed field of `s` starting at `i`: `None` when the
/// bytes run out, otherwise the field and the position just after it.
pub open spec fn read_field(s: Seq<u8>, i: int) -> Option<(Seq<u8>, int)> {
    if i + 8 > s.len() {
        None
    } else {
        let n = le64_val(s.subrange(i, i + 8)) as int;
        if i + 8 + n > s.len() {
            None
        } else {
            Some((s.subrange(i + 8, i + 8 + n), i + 8 + n))
        }
    }
}

/// Reads one record off the front of `s`: the tag byte, then two or three
/// fields. An empty or short sequence is incomplete; an unknown tag is
/// malformed.
pub open spec fn decode_rec(s: Seq<u8>) -> DecodeOutcome {
    if s.len() == 0 {
        DecodeOutcome::Incomplete
    } else {
        let tag = s[0];
        if tag > TAG_SET_REMOVE {
            DecodeOutcome::Malformed
        } else {
            match read_field(s, 1) {
                None => DecodeOutcome::Incomplete,
                Some((id, p1)) => match read_field(s, p1) {
                    None => DecodeOutcome::Incomplete,
                    Some((key, p2)) => if tag == TAG_MAP_INSERT {
                        match read_field(s, p2) {
                            None => DecodeOutcome::Incomplete,
                            Some((value, p3)) => DecodeOutcome::Found {
                                rec: Record::MapInsert { id, key, value },
                                used: p3,
                            },
                        }
                    } else {
                        DecodeOutcome::Found {
                            rec: if tag == TAG_MAP_REMOVE {
                                Record::MapRemove { id, key }
                            } else if tag == TAG_SET_INSERT {
                                Record::SetInsert { id, key }
                            } else {
                                Record::SetRemove { id, key }
                            },
                            used: p2,
                        }
                    },
                },
            }
        }
    }
}

/// A found record always occupies at least its tag byte and never more
/// than the whole sequence.
pub proof fn lemma_decode_used_bounds(s: Seq<u8>)
    ensures
        decode_rec(s) matches DecodeOutcome::Found { used, .. } ==> 0 < used <= s.len(),
{
}

/// Reading a field of a suffix reads the same field of the whole sequence,
/// shifted.
proof fn lemma_read_field_skip(s: Seq<u8>, b: int, j: int)
    requires
        0 <= b <= s.len(),
        0 <= j,
    ensures
        read_field(s, b + j) is None ==> read_field(s.skip(b), j) is None,
        read_field(s, b + j) matches Some(p) ==> read_field(s.skip(b), j) == Some(
            (p.0, p.1 - b),
        ),
{
    let t = s.skip(b);
    if b + j + 8 <= s.len() {
        assert(t.subrange(j, j + 8) =~= s.subrange(b + j, b + j + 8));
        let n = le64_val(s.subrange(b + j, b + j + 8)) as int;
        if b + j + 8 + n <= s.len() {
            assert(t.subrange(j + 8, j + 8 + n) =~= s.subrange(b + j + 8, b + j + 8 + n));
        }
    }
}

/// Reads one length-prefixed field of `buf` starting at `pos`, copying its
/// bytes out; `None` when the buffer ends inside the length prefix or the
/// field.
fn take_field(buf: &Vec<u8>, pos: usize) -> (r: Option<(Vec<u8>, usize)>)
    requires
        pos <= buf@.len(),
    ensures
        match r {
            Some(p) => read_field(buf@, pos as int) == Some((p.0@, p.1 as int)) && pos + 8 <= p.1
                <= buf@.len(),
            None => read_field(buf@, pos as int) is None,
        },
{
    let len: usize = buf.len();
    if len - pos < 8 {
        return None;
    }
    let n64 = read_le64(buf, pos);
    let rem: usize = len - (pos + 8);
    if n64 > rem as u64 {
        return None;
    }
    let n = n64 as usize;
    let start = pos + 8;
    let mut f: Vec<u8> = Vec::new();
    let mut i: usize = 0;
    while i < n
        invariant
            i <= n,
            start + n <= buf@.len(),
            buf@.len() <= usize::MAX,
            f@ == buf@.subrange(start as int, start + i),
        decreases n - i,
    {
        f.push(buf[start + i]);
        i = i + 1;
        assert(f@ =~= buf@.subrange(start as int, start + i));
    }
    Some((f, start + n))
}

/// A sequence that carries `field_bytes(f)` at position `i` reads back as
/// the field `f`.
proof fn lemma_read_field_at(s: Seq<u8>, i: int, f: Seq<u8>)
    requires
        0 <= i,
        f.len() <= u64::MAX,
        i + 8 + f.len() <= s.len(),
        s.subrange(i, i + 8 + f.len()) == field_bytes(f),
    ensures
        read_field(s, i) == Some((f, i + 8 + f.len())),
{
    lemma_le64_round_trip(f.len() as u64);
    assert(s.subrange(i, i + 8) =~= field_bytes(f).subrange(0, 8));
    assert(field_bytes(f).subrange(0, 8) =~= le64(f.len() as u64));
    let n = le64_val(s.subrange(i, i + 8)) as int;
    assert(n == f.len());
    assert(s.subrange(i + 8, i + 8 + n) =~= field_bytes(f).subrange(8, 8 + n));
    assert(field_bytes(f).subrange(8, 8 + n) =~= f);
}

/// A field read back off the wire re-encodes to exactly the bytes it was
/// read from.
proof fn lemma_field_of_read(s: Seq<u8>, i: int)
    requires
        0 <= i,
        read_field(s, i) is Some,
    ensures
        read_field(s, i) matches Some((f, p)) ==> f.len() <= u64::MAX && p == i + 8 + f.len() && p
            <= s.len() && field_bytes(f) == s.subrange(i, p),
{
    let (f, p) = read_field(s, i)->Some_0;
    lemma_le64_canonical(s.subrange(i, i + 8));
    assert(field_bytes(f) =~= s.subrange(i, p));
}

/// Decoding the image of a well-formed record, whatever follows it, yields
/// that record and consumes exactly its image.
pub proof fn lemma_decode_of_encode(r: Record, rest: Seq<u8>)
    requires
        rec_wf(r),
    ensures
        decode_rec(rec_bytes(r) + rest) == (DecodeOutcome::Found {
            rec: r,
            used: rec_bytes(r).len() as int,
        }),
{
    let s = rec_bytes(r) + rest;
    match r {
        Record::MapInsert { id, key, value } => {
            let p1 = 1 + 8 + id.len() as int;
            let p2 = p1 + 8 + key.len() as int;
            let p3 = p2 + 8 + value.len() as int;
            assert(s[0] == TAG_MAP_INSERT);
            assert(s.subrange(1, p1) =~= field_bytes(id));
            lemma_read_field_at(s, 1, id);
            assert(s.subrange(p1, p2) =~= field_bytes(key));
            lemma_read_field_at(s, p1, key);
            assert(s.subrange(p2, p3) =~= field_bytes(value));
            lemma_read_field_at(s, p2, value);
            assert(p3 == rec_bytes(r).len());
        },
        Record::MapRemove { id, key } => {
            let p1 = 1 + 8 + id.len() as int;
            let p2 = p1 + 8 + key.len() as int;
            assert(s[0] == TAG_MAP_REMOVE);
            assert(s.subrange(1, p1) =~= field_bytes(id));
            lemma_read_field_at(s, 1, id);
            assert(s.subrange(p1, p2) =~= field_bytes(key));
            lemma_read_field_at(s, p1, key);
            assert(p2 == rec_bytes(r).len());
        },
        Record::SetInsert { id, key } => {
            let p1 = 1 + 8 + id.len() as int;
            let p2 = p1 + 8 + key.len() as int;
            assert(s[0] == TAG_SET_INSERT);
            assert(s.subrange(1, p1) =~= field_bytes(id));
            lemma_read_field_at(s, 1, id);
            assert(s.subrange(p1, p2) =~= field_bytes(key));
            lemma_read_field_at(s, p1, key);
            assert(p2 == rec_bytes(r).len());
        },
        Record::SetRemove { id, key } => {
            let p1 = 1 + 8 + id.len() as int;
            let p2 = p1 + 8 + key.len() as int;
            assert(s[0] == TAG_SET_REMOVE);
            assert(s.subrange(1, p1) =~= field_bytes(id));
            lemma_read_field_at(s, 1, id);
            assert(s.subrange(p1, p2) =~= field_bytes(key));
            lemma_read_field_at(s, p1, key);
            assert(p2 == rec_bytes(r).len());
        },
    }
}

/// A record read off the wire is well formed and re-encodes, byte for
/// byte, to the bytes it occupied: the wire format is canonical.
pub proof fn lemma_encode_of_decode(s: Seq<u8>)
    requires
        decode_rec(s) is Found,
    ensures
        decode_rec(s) matches DecodeOutcome::Found { rec, used } ==> rec_wf(rec) && 0 < used
            <= s.len() && rec_bytes(rec) == s.subrange(0, used),
{
    let tag = s[0];
    let (id, p1) = read_field(s, 1)->Some_0;
    lemma_field_of_read(s, 1);
    let (key, p2) = read_field(s, p1)->Some_0;
    lemma_field_of_read(s, p1);
    if tag == TAG_MAP_INSERT {
        let (value, p3) = read_field(s, p2)->Some_0;
        lemma_field_of_read(s, p2);
        let rec = Record::MapInsert { id, key, value };
        assert(rec_bytes(rec) =~= s.subrange(0, p3));
    } else {
        let rec = decode_rec(s)->Found_rec;
        assert(rec_bytes(rec) =~= s.subrange(0, p2));
    }
}

/// A complete record at the front of a sequence decodes the same however
/// the sequence is extended.
pub proof fn lemma_decode_extend(s: Seq<u8>, t: Seq<u8>)
    requires
        decode_rec(s) is Found,
    ensures
        decode_rec(s + t) == decode_rec(s),
{
    let rec = decode_rec(s)->Found_rec;
    let used = decode_rec(s)->Found_used;
    lemma_encode_of_decode(s);
    assert(s + t =~= rec_bytes(rec) + (s.subrange(used, s.len() as int) + t));
    lemma_decode_of_encode(rec, s.subrange(used, s.len() as int) + t);
}

/// Truncating a sequence either leaves a field read untouched — when the
/// whole field still fits — or turns it into a short read.
proof fn lemma_read_field_truncate(s: Seq<u8>, k: int, i: int)
    requires
        0 <= i <= k <= s.len(),
    ensures
        read_field(s, i) matches Some(p) ==> if p.1 <= k {
            read_field(s.take(k), i) == read_field(s, i)
        } else {
            read_field(s.take(k), i) is None
        },
        read_field(s, i) is None ==> read_field(s.take(k), i) is None,
{
    let t = s.take(k);
    if i + 8 <= k {
        assert(t.subrange(i, i + 8) =~= s.subrange(i, i + 8));
        let n = le64_val(s.subrange(i, i + 8)) as int;
        if i + 8 + n <= k {
            assert(t.subrange(i + 8, i + 8 + n) =~= s.subrange(i + 8, i + 8 + n));
        }
    }
}

/// Cutting a sequence at any point never invents a record: the cut either
/// preserves the record at the front, or leaves a torn tail; a bad tag
/// stays bad as long as it is still there to read.
pub proof fn lemma_decode_truncate(s: Seq<u8>, k: int)
    requires
        0 <= k <= s.len(),
    ensures
        decode_rec(s) matches DecodeOutcome::Found { used, .. } ==> if used <= k {
            decode_rec(s.take(k)) == decode_rec(s)
        } else {
            decode_rec(s.take(k)) is Incomplete
        },
        decode_rec(s) is Incomplete ==> decode_rec(s.take(k)) is Incomplete,
        decode_rec(s) is Malformed ==> (k == 0 ==> decode_rec(s.take(k)) is Incomplete) && (k
            >= 1 ==> decode_rec(s.take(k)) is Malformed),
{
    let t = s.take(k);
    if k == 0 {
        assert(t.len() == 0);
        if decode_rec(s) is Found {
            lemma_decode_used_bounds(s);
        }
    } else {
        assert(t[0] == s[0]);
        let tag = s[0];
        if tag <= TAG_SET_REMOVE {
            lemma_read_field_truncate(s, k, 1);
            match read_field(s, 1) {
                None => {},
                Some((id, p1)) => {
                    if p1 <= k {
                        lemma_read_field_truncate(s, k, p1);
                        match read_field(s, p1) {
                            None => {},
                            Some((key, p2)) => {
                                if tag == TAG_MAP_INSERT && p2 <= k {
                                    lemma_read_field_truncate(s, k, p2);
                                }
                            },
                        }
                    }
                },
            }
        }
    }
}

/// Deserializes the next record of `buf` starting at `pos`. A clean end of
/// the buffer must be told apart by the caller: at `pos == buf.len()` this
/// reports a torn tail.
pub fn decode_record(buf: &Vec<u8>, pos: usize) -> (r: Result<(DBEntry, usize), DecodeError>)
    requires
        pos <= buf@.len(),
    ensures
        match r {
            Ok(p) => decode_rec(buf@.skip(pos as int)) == (DecodeOutcome::Found {
                rec: p.0@,
                used: p.1 - pos,
            }) && pos < p.1 <= buf@.len(),
            Err(e) => match e {
                DecodeError::UnexpectedEof => decode_rec(buf@.skip(pos as int))
                    is Incomplete,
                DecodeError::InvalidTag(t) => decode_rec(buf@.skip(pos as int)) is Malformed
                    && buf@[pos as int] == t,
            },
        },
{
    let ghost t = buf@.skip(pos as int);
    let len: usize = buf.len();
    if len - pos < 1 {
        assert(t.len() == 0);
        return Err(DecodeError::UnexpectedEof);
    }
    let tag: u8 = buf[pos];
    proof {
        assert(t[0] == buf@[pos as int]);
    }
    if tag > TAG_SET_REMOVE {
        return Err(DecodeError::InvalidTag(tag));
    }
    proof {
        lemma_read_field_skip(buf@, pos as int, 1);
    }
    let r1 = take_field(buf, pos + 1);
    match r1 {
        None => Err(DecodeError::UnexpectedEof),
        Some((id, p1)) => {
            proof {
                lemma_read_field_skip(buf@, pos as int, p1 - pos as int);
            }
            let r2 = take_field(buf, p1);
            match r2 {
                None => Err(DecodeError::UnexpectedEof),
                Some((key, p2)) => {
                    if tag == TAG_MAP_INSERT {
                        proof {
                            lemma_read_field_skip(buf@, pos as int, p2 - pos as int);
                        }
                        let r3 = take_field(buf, p2);
                        match r3 {
                            None => Err(DecodeError::UnexpectedEof),
                            Some((value, p3)) => Ok((DBEntry::HashMapEntry(id, key, value), p3)),
                        }
                    } else if tag == TAG_MAP_REMOVE {
                        Ok((DBEntry::RemoveHashMapEntry(id, key), p2))
                    } else if tag == TAG_SET_INSERT {
                        Ok((DBEntry::HashSetEntry(id, key), p2))
                    } else {
                        Ok((DBEntry::RemoveHashSetEntry(id, key), p2))
                    }
                },
            }
        },
    }
}

} // verus!
