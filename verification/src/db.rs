//! Naming collections inside a shared database file.
//!
//! A collection's identifier is derived from its textual name: the name's
//! byte length in eight big-endian bytes, then the name's UTF-8 bytes.
//! Distinct names yield distinct identifiers, and no identifier is a
//! prefix of another, so identifiers stay self-delimited wherever they are
//! embedded.

use vstd::prelude::*;

use vstd::string::StringExecFnsIsAscii;
use vstd::utf8::{decode_utf8, encode_utf8, encode_utf8_decode_utf8};

use crate::wire::{be64, lemma_be64_injective, push_be64};
use crate::record::push_bytes;

verus! {

/// Names the file a database lives in, before the file is opened.
pub struct DBMaker {
    pub path: String,
}

impl DBMaker {
    /// Remembers the path of the file the database will live in.
    pub fn file_db(path: String) -> (r: Self)
        ensures
            r.path@ == path@,
    {
        DBMaker { path }
    }
}

/// The identifier derived from a collection's name: the name's byte
/// length in eight big-endian bytes, then the name's UTF-8 bytes.
pub open spec fn raw_id(name: Seq<char>) -> Seq<u8> {
    be64(encode_utf8(name).len() as u64) + encode_utf8(name)
}

/// Derives the byte identifier a collection of this name stores its
/// records under.
pub fn to_raw_id(id: String) -> (r: Vec<u8>)
    ensures
        r@ == raw_id(id@),
{
    let bytes: Vec<u8> = id.as_bytes_vec();
    let mut out: Vec<u8> = Vec::new();
    push_be64(&mut out, bytes.len() as u64);
    push_bytes(&mut out, &bytes);
    assert(out@ =~= raw_id(id@));
    out
}

/// Distinct names give distinct identifiers.
pub proof fn lemma_raw_id_injective(a: Seq<char>, b: Seq<char>)
    requires
        a != b,
    ensures
        raw_id(a) != raw_id(b),
{
    broadcast use encode_utf8_decode_utf8;

    let ea = encode_utf8(a);
    let eb = encode_utf8(b);
    if ea.len() == eb.len() {
        if raw_id(a) == raw_id(b) {
            assert(ea =~= eb) by {
                assert(forall|i: int|
                    0 <= i < ea.len() ==> #[trigger] ea[i] == raw_id(a)[8 + i] && eb[i] == raw_id(
                        b,
                    )[8 + i]);
            }
            assert(decode_utf8(encode_utf8(a)) == a);
            assert(decode_utf8(encode_utf8(b)) == b);
            assert(a == b);
        }
    } else {
        assert(raw_id(a).len() != raw_id(b).len());
    }
}

/// No identifier is a proper prefix of another: embedded back to back,
/// identifiers still delimit themselves.
pub proof fn lemma_raw_id_prefix_free(a: Seq<char>, b: Seq<char>)
    requires
        encode_utf8(a).len() <= u64::MAX,
        encode_utf8(b).len() <= u64::MAX,
        raw_id(a).len() <= raw_id(b).len(),
        raw_id(a) == raw_id(b).take(raw_id(a).len() as int),
    ensures
        raw_id(a) == raw_id(b),
{
    let ea = encode_utf8(a);
    let eb = encode_utf8(b);
    assert(raw_id(a).len() == 8 + ea.len());
    assert(raw_id(b).len() == 8 + eb.len());
    assert forall|i: int| 0 <= i < 8 implies raw_id(a)[i] == raw_id(b)[i] by {
        assert(raw_id(a)[i] == raw_id(b).take(raw_id(a).len() as int)[i]);
    }
    assert(be64(ea.len() as u64) =~= be64(eb.len() as u64)) by {
        assert(forall|i: int|
            0 <= i < 8 ==> #[trigger] be64(ea.len() as u64)[i] == raw_id(a)[i] && be64(
                eb.len() as u64,
            )[i] == raw_id(b)[i]);
    }
    lemma_be64_injective(ea.len() as u64, eb.len() as u64);
    assert(raw_id(a).len() == raw_id(b).len());
    assert(raw_id(a) =~= raw_id(b));
}

} // verus!
