//! The log as a sequence of records, and the folds that give it meaning.
//!
//! A log file is a plain concatenation of record images with no header and
//! no trailer. Parsing walks it from the front and stops at a clean record
//! boundary, at a torn tail left by an interrupted append, or at a byte
//! that is no known tag. A collection's state is the fold of its own
//! records, in log order, over the parsed sequence; records of other
//! collections, and records of the other collection kind under the same
//! identifier, leave the fold untouched.

use vstd::prelude::*;

use crate::record::{bytes_eq, decode_record, decode_rec, encode_record, push_bytes, rec_bytes,
    rec_id, rec_wf, DBEntry, DecodeError, DecodeOutcome, Record, lemma_decode_of_encode,
    lemma_decode_used_bounds, lemma_decode_extend, lemma_decode_truncate,
    lemma_encode_of_decode};

verus! {

/// How a walk over the log ended.
pub enum LogStatus {
    /// The last record ended exactly at the end of the bytes.
    Clean,
    /// The bytes ended inside a record: a torn tail.
    Torn,
    /// A byte that is no known tag was met.
    Malformed,
}

/// The records found at the front of a byte sequence, and how the walk
/// over it ended.
pub struct ParseResult {
    pub recs: Seq<Record>,
    pub status: LogStatus,
}

/// Walks the records at the front of `s`, collecting every complete one in
/// order until the bytes end cleanly, tear, or turn malformed.
pub open spec fn parse(s: Seq<u8>) -> ParseResult
    decreases s.len(),
{
    if s.len() == 0 {
        ParseResult { recs: Seq::empty(), status: LogStatus::Clean }
    } else {
        match decode_rec(s) {
            DecodeOutcome::Found { rec, used } => {
                if 0 < used <= s.len() {
                    let rest = parse(s.skip(used));
                    ParseResult { recs: seq![rec] + rest.recs, status: rest.status }
                } else {
                    // decoding never reports more bytes than it was given
                    ParseResult { recs: Seq::empty(), status: LogStatus::Malformed }
                }
            },
            DecodeOutcome::Incomplete => ParseResult {
                recs: Seq::empty(),
                status: LogStatus::Torn,
            },
            DecodeOutcome::Malformed => ParseResult {
                recs: Seq::empty(),
                status: LogStatus::Malformed,
            },
        }
    }
}

/// The state of a map collection that holds nothing.
pub open spec fn empty_map_state() -> Map<Seq<u8>, Seq<u8>> {
    Map::empty()
}

/// The state of a set collection that holds nothing.
pub open spec fn empty_set_state() -> Set<Seq<u8>> {
    Set::empty()
}

/// Every record carried by a sequence of entries, in order.
pub open spec fn entries_view(s: Seq<DBEntry>) -> Seq<Record> {
    s.map_values(|e: DBEntry| e@)
}

/// Every record of the sequence is well formed.
pub open spec fn recs_wf(recs: Seq<Record>) -> bool {
    forall|i: int| 0 <= i < recs.len() ==> rec_wf(#[trigger] recs[i])
}

/// The byte image of a whole log: each record's image, in order.
pub open spec fn encode_log(recs: Seq<Record>) -> Seq<u8>
    decreases recs.len(),
{
    if recs.len() == 0 {
        Seq::empty()
    } else {
        rec_bytes(recs.first()) + encode_log(recs.skip(1))
    }
}

/// One record applied to a map's state: an insertion binds the key, a
/// removal unbinds it, and every record of another identifier or of the
/// set kind leaves the state alone.
pub open spec fn map_apply(
    m: Map<Seq<u8>, Seq<u8>>,
    r: Record,
    id: Seq<u8>,
) -> Map<Seq<u8>, Seq<u8>> {
    match r {
        Record::MapInsert { id: rid, key, value } => if rid == id {
            m.insert(key, value)
        } else {
            m
        },
        Record::MapRemove { id: rid, key } => if rid == id {
            m.remove(key)
        } else {
            m
        },
        _ => m,
    }
}

/// The records applied to a map's state, first to last.
pub open spec fn map_fold_from(
    m: Map<Seq<u8>, Seq<u8>>,
    recs: Seq<Record>,
    id: Seq<u8>,
) -> Map<Seq<u8>, Seq<u8>>
    decreases recs.len(),
{
    if recs.len() == 0 {
        m
    } else {
        map_apply(map_fold_from(m, recs.drop_last(), id), recs.last(), id)
    }
}

/// The map state a record sequence builds from nothing.
pub open spec fn map_fold(recs: Seq<Record>, id: Seq<u8>) -> Map<Seq<u8>, Seq<u8>> {
    map_fold_from(Map::empty(), recs, id)
}

/// One record applied to a set's state.
pub open spec fn set_apply(m: Set<Seq<u8>>, r: Record, id: Seq<u8>) -> Set<Seq<u8>> {
    match r {
        Record::SetInsert { id: rid, key } => if rid == id {
            m.insert(key)
        } else {
            m
        },
        Record::SetRemove { id: rid, key } => if rid == id {
            m.remove(key)
        } else {
            m
        },
        _ => m,
    }
}

/// The records applied to a set's state, first to last.
pub open spec fn set_fold_from(m: Set<Seq<u8>>, recs: Seq<Record>, id: Seq<u8>) -> Set<Seq<u8>>
    decreases recs.len(),
{
    if recs.len() == 0 {
        m
    } else {
        set_apply(set_fold_from(m, recs.drop_last(), id), recs.last(), id)
    }
}

/// The set state a record sequence builds from nothing.
pub open spec fn set_fold(recs: Seq<Record>, id: Seq<u8>) -> Set<Seq<u8>> {
    set_fold_from(Set::empty(), recs, id)
}

/// The records of `recs` that belong to collections other than `id`, in
/// their original order.
pub open spec fn keep_other(recs: Seq<Record>, id: Seq<u8>) -> Seq<Record>
    decreases recs.len(),
{
    if recs.len() == 0 {
        Seq::empty()
    } else {
        let rest = keep_other(recs.drop_last(), id);
        if rec_id(recs.last()) != id {
            rest.push(recs.last())
        } else {
            rest
        }
    }
}

/// The bytes a selective clear of collection `id` leaves behind: the image
/// of every record of the parseable prefix whose identifier differs.
pub open spec fn clear_bytes(log: Seq<u8>, id: Seq<u8>) -> Seq<u8> {
    encode_log(keep_other(parse(log).recs, id))
}

/// The image of a log of well-formed records parses back to exactly those
/// records, ending cleanly.
#[verifier::rlimit(50)]
pub proof fn lemma_parse_encode_log(recs: Seq<Record>)
    requires
        recs_wf(recs),
    ensures
        parse(encode_log(recs)).recs == recs,
        parse(encode_log(recs)).status is Clean,
    decreases recs.len(),
{
    if recs.len() == 0 {
        assert(parse(encode_log(recs)).recs =~= recs);
    } else {
        let r0 = recs.first();
        let rest = recs.skip(1);
        let s = encode_log(recs);
        assert(rec_wf(r0));
        lemma_decode_of_encode(r0, encode_log(rest));
        let len0 = rec_bytes(r0).len() as int;
        assert(decode_rec(s) == (DecodeOutcome::Found { rec: r0, used: len0 }));
        assert(s.len() > 0);
        lemma_decode_used_bounds(s);
        assert(0 < len0 <= s.len());
        assert(parse(s).recs == seq![r0] + parse(s.skip(len0)).recs);
        assert(parse(s).status == parse(s.skip(len0)).status);
        assert(s.skip(len0) =~= encode_log(rest));
        assert forall|i: int| 0 <= i < rest.len() implies rec_wf(#[trigger] rest[i]) by {
            assert(rest[i] == recs[i + 1]);
        }
        lemma_parse_encode_log(rest);
        assert(parse(s).recs =~= recs);
    }
}

/// Whatever follows a cleanly parsed log parses on its own: the records of
/// the whole are those of the two parts in order, and the walk ends as it
/// ends on the second part.
pub proof fn lemma_parse_append(a: Seq<u8>, b: Seq<u8>)
    requires
        parse(a).status is Clean,
    ensures
        parse(a + b).recs == parse(a).recs + parse(b).recs,
        parse(a + b).status == parse(b).status,
    decreases a.len(),
{
    if a.len() == 0 {
        assert(a + b =~= b);
        assert(parse(a).recs + parse(b).recs =~= parse(b).recs);
    } else {
        match decode_rec(a) {
            DecodeOutcome::Found { rec, used } => {
                lemma_decode_used_bounds(a);
                lemma_decode_extend(a, b);
                assert((a + b).skip(used) =~= a.skip(used) + b);
                lemma_parse_append(a.skip(used), b);
                assert((a + b).len() > 0);
                assert(parse(a + b).recs =~= parse(a).recs + parse(b).recs);
            },
            DecodeOutcome::Incomplete => {
                assert(false);
            },
            DecodeOutcome::Malformed => {
                assert(false);
            },
        }
    }
}

/// Appending one record to a log appends its image to the log's image.
pub proof fn lemma_encode_log_push(recs: Seq<Record>, r: Record)
    ensures
        encode_log(recs.push(r)) == encode_log(recs) + rec_bytes(r),
    decreases recs.len(),
{
    if recs.len() == 0 {
        assert(recs.push(r).first() == r);
        assert(recs.push(r).skip(1) =~= Seq::<Record>::empty());
        assert(encode_log(Seq::<Record>::empty()) == Seq::<u8>::empty());
        assert(encode_log(recs.push(r)) == rec_bytes(r) + encode_log(Seq::<Record>::empty()));
        assert(encode_log(recs.push(r)) =~= rec_bytes(r));
        assert(encode_log(recs) + rec_bytes(r) =~= rec_bytes(r));
    } else {
        assert(recs.push(r).first() == recs.first());
        assert(recs.push(r).skip(1) =~= recs.skip(1).push(r));
        lemma_encode_log_push(recs.skip(1), r);
        assert(encode_log(recs.push(r)) =~= encode_log(recs) + rec_bytes(r));
    }
}

/// Every record a parse walk finds is well formed.
pub proof fn lemma_parse_wf(s: Seq<u8>)
    ensures
        recs_wf(parse(s).recs),
    decreases s.len(),
{
    if s.len() > 0 {
        match decode_rec(s) {
            DecodeOutcome::Found { rec, used } => {
                lemma_decode_used_bounds(s);
                lemma_encode_of_decode(s);
                lemma_parse_wf(s.skip(used));
                assert forall|i: int| 0 <= i < parse(s).recs.len() implies rec_wf(
                    #[trigger] parse(s).recs[i],
                ) by {
                    if i > 0 {
                        assert(parse(s).recs[i] == parse(s.skip(used)).recs[i - 1]);
                    }
                }
            },
            _ => {},
        }
    }
}

/// Walks the whole buffer and collects every complete record, in order.
/// A clean end and a torn tail both succeed with the records up to that
/// point; a byte that is no known tag fails.
pub fn parse_log(buf: &Vec<u8>) -> (r: Result<Vec<DBEntry>, DecodeError>)
    ensures
        match r {
            Ok(es) => entries_view(es@) == parse(buf@).recs && !(parse(buf@).status
                is Malformed),
            Err(e) => parse(buf@).status is Malformed && e is InvalidTag,
        },
{
    let mut out: Vec<DBEntry> = Vec::new();
    let mut pos: usize = 0;
    let len: usize = buf.len();
    proof {
        assert(buf@.skip(0) =~= buf@);
        assert(entries_view(out@) =~= Seq::<Record>::empty());
    }
    while pos < len
        invariant
            pos <= len,
            len == buf@.len(),
            parse(buf@).recs == entries_view(out@) + parse(buf@.skip(pos as int)).recs,
            parse(buf@).status == parse(buf@.skip(pos as int)).status,
        decreases len - pos,
    {
        let ghost t = buf@.skip(pos as int);
        match decode_record(buf, pos) {
            Ok((e, next)) => {
                proof {
                    assert(t.len() > 0);
                    lemma_decode_used_bounds(t);
                    assert(t.skip(next - pos) =~= buf@.skip(next as int));
                    assert(parse(t).recs == seq![e@] + parse(buf@.skip(next as int)).recs);
                    assert(entries_view(out@.push(e)) =~= entries_view(out@) + seq![e@]);
                    assert(entries_view(out@) + (seq![e@] + parse(buf@.skip(next as int)).recs)
                        =~= (entries_view(out@) + seq![e@]) + parse(
                        buf@.skip(next as int),
                    ).recs);
                }
                out.push(e);
                pos = next;
            },
            Err(DecodeError::UnexpectedEof) => {
                proof {
                    assert(t.len() > 0);
                    assert(parse(t).recs =~= Seq::<Record>::empty());
                    assert(entries_view(out@) + parse(t).recs =~= entries_view(out@));
                }
                return Ok(out);
            },
            Err(e) => {
                proof {
                    assert(t.len() > 0);
                }
                return Err(e);
            },
        }
    }
    proof {
        assert(buf@.skip(pos as int).len() == 0);
        assert(parse(buf@.skip(pos as int)).recs =~= Seq::<Record>::empty());
        assert(entries_view(out@) + parse(buf@.skip(pos as int)).recs =~= entries_view(out@));
    }
    Ok(out)
}

/// Rewrites a log for a selective clear: keeps, in order, the image of
/// every record of the parseable prefix whose identifier differs from
/// `id`, and drops the rest. A torn or malformed tail ends the walk, as
/// it ends replay.
pub fn filter_foreign(log: &Vec<u8>, id: &Vec<u8>) -> (r: Vec<u8>)
    ensures
        r@ == clear_bytes(log@, id@),
{
    let mut out: Vec<u8> = Vec::new();
    let mut pos: usize = 0;
    let len: usize = log.len();
    let ghost mut done: Seq<Record> = Seq::empty();
    proof {
        assert(log@.skip(0) =~= log@);
        assert(keep_other(done, id@) =~= Seq::<Record>::empty());
        assert(encode_log(Seq::<Record>::empty()) == Seq::<u8>::empty());
        assert(out@ =~= encode_log(keep_other(done, id@)));
    }
    while pos < len
        invariant
            pos <= len,
            len == log@.len(),
            parse(log@).recs == done + parse(log@.skip(pos as int)).recs,
            out@ == encode_log(keep_other(done, id@)),
        decreases len - pos,
    {
        let ghost t = log@.skip(pos as int);
        match decode_record(log, pos) {
            Ok((e, next)) => {
                proof {
                    assert(t.len() > 0);
                    lemma_decode_used_bounds(t);
                    assert(t.skip(next - pos) =~= log@.skip(next as int));
                    assert(parse(t).recs == seq![e@] + parse(log@.skip(next as int)).recs);
                    assert(done + (seq![e@] + parse(log@.skip(next as int)).recs) =~= done.push(
                        e@,
                    ) + parse(log@.skip(next as int)).recs);
                    assert(done.push(e@).drop_last() =~= done);
                    assert(done.push(e@).last() == e@);
                }
                if !bytes_eq(e.entry_id(), id) {
                    let enc = encode_record(&e);
                    proof {
                        assert(keep_other(done.push(e@), id@) == keep_other(done, id@).push(e@));
                        lemma_encode_log_push(keep_other(done, id@), e@);
                    }
                    push_bytes(&mut out, &enc);
                } else {
                    proof {
                        assert(keep_other(done.push(e@), id@) == keep_other(done, id@));
                    }
                }
                proof {
                    done = done.push(e@);
                }
                pos = next;
            },
            Err(_) => {
                proof {
                    assert(t.len() > 0);
                    assert(parse(t).recs =~= Seq::<Record>::empty());
                    assert(done + parse(t).recs =~= done);
                }
                return out;
            },
        }
    }
    proof {
        assert(log@.skip(pos as int).len() == 0);
        assert(parse(log@.skip(pos as int)).recs =~= Seq::<Record>::empty());
        assert(done + parse(log@.skip(pos as int)).recs =~= done);
    }
    out
}

/// Folding one more record is one application to the fold so far.
pub proof fn lemma_map_fold_from_push(
    m: Map<Seq<u8>, Seq<u8>>,
    recs: Seq<Record>,
    r: Record,
    id: Seq<u8>,
)
    ensures
        map_fold_from(m, recs.push(r), id) == map_apply(map_fold_from(m, recs, id), r, id),
{
    assert(recs.push(r).drop_last() =~= recs);
    assert(recs.push(r).last() == r);
}

/// Folding one more record is one application to the fold so far.
pub proof fn lemma_set_fold_from_push(m: Set<Seq<u8>>, recs: Seq<Record>, r: Record, id: Seq<u8>)
    ensures
        set_fold_from(m, recs.push(r), id) == set_apply(set_fold_from(m, recs, id), r, id),
{
    assert(recs.push(r).drop_last() =~= recs);
    assert(recs.push(r).last() == r);
}

/// A fold over two runs of records is the fold of the second from the
/// state the first one left.
pub proof fn lemma_map_fold_from_append(
    m: Map<Seq<u8>, Seq<u8>>,
    a: Seq<Record>,
    b: Seq<Record>,
    id: Seq<u8>,
)
    ensures
        map_fold_from(m, a + b, id) == map_fold_from(map_fold_from(m, a, id), b, id),
    decreases b.len(),
{
    if b.len() == 0 {
        assert(a + b =~= a);
    } else {
        assert((a + b).drop_last() =~= a + b.drop_last());
        assert((a + b).last() == b.last());
        lemma_map_fold_from_append(m, a, b.drop_last(), id);
    }
}

/// A fold over two runs of records is the fold of the second from the
/// state the first one left.
pub proof fn lemma_set_fold_from_append(m: Set<Seq<u8>>, a: Seq<Record>, b: Seq<Record>, id: Seq<u8>)
    ensures
        set_fold_from(m, a + b, id) == set_fold_from(set_fold_from(m, a, id), b, id),
    decreases b.len(),
{
    if b.len() == 0 {
        assert(a + b =~= a);
    } else {
        assert((a + b).drop_last() =~= a + b.drop_last());
        assert((a + b).last() == b.last());
        lemma_set_fold_from_append(m, a, b.drop_last(), id);
    }
}

/// Records of other collections leave a fold where it stands.
pub proof fn lemma_map_fold_foreign_noop(m: Map<Seq<u8>, Seq<u8>>, recs: Seq<Record>, id: Seq<u8>)
    requires
        forall|i: int| 0 <= i < recs.len() ==> rec_id(#[trigger] recs[i]) != id,
    ensures
        map_fold_from(m, recs, id) == m,
    decreases recs.len(),
{
    if recs.len() > 0 {
        assert(forall|i: int|
            0 <= i < recs.drop_last().len() ==> rec_id(#[trigger] recs.drop_last()[i]) != id);
        lemma_map_fold_foreign_noop(m, recs.drop_last(), id);
        assert(rec_id(recs.last()) != id);
    }
}

/// Records of other collections leave a fold where it stands.
pub proof fn lemma_set_fold_foreign_noop(m: Set<Seq<u8>>, recs: Seq<Record>, id: Seq<u8>)
    requires
        forall|i: int| 0 <= i < recs.len() ==> rec_id(#[trigger] recs[i]) != id,
    ensures
        set_fold_from(m, recs, id) == m,
    decreases recs.len(),
{
    if recs.len() > 0 {
        assert(forall|i: int|
            0 <= i < recs.drop_last().len() ==> rec_id(#[trigger] recs.drop_last()[i]) != id);
        lemma_set_fold_foreign_noop(m, recs.drop_last(), id);
        assert(rec_id(recs.last()) != id);
    }
}

/// What a selective clear keeps: only records of other collections, all of
/// them well formed when the cleared log's records were.
pub proof fn lemma_keep_other_props(recs: Seq<Record>, id: Seq<u8>)
    ensures
        forall|i: int|
            0 <= i < keep_other(recs, id).len() ==> rec_id(#[trigger] keep_other(recs, id)[i])
                != id,
        recs_wf(recs) ==> recs_wf(keep_other(recs, id)),
    decreases recs.len(),
{
    if recs.len() > 0 {
        let init = recs.drop_last();
        let l = recs.last();
        assert(forall|i: int| 0 <= i < init.len() ==> init[i] == recs[i]);
        lemma_keep_other_props(init, id);
        let kept_init = keep_other(init, id);
        let kept = keep_other(recs, id);
        if rec_id(l) != id {
            assert(kept == kept_init.push(l));
            assert forall|i: int| 0 <= i < kept.len() implies rec_id(#[trigger] kept[i]) != id by {
                if i < kept_init.len() {
                    assert(kept[i] == kept_init[i]);
                } else {
                    assert(kept[i] == l);
                }
            }
            if recs_wf(recs) {
                assert forall|i: int| 0 <= i < kept.len() implies rec_wf(#[trigger] kept[i]) by {
                    if i < kept_init.len() {
                        assert(kept[i] == kept_init[i]);
                    } else {
                        assert(kept[i] == l);
                    }
                }
            }
        }
    }
}

/// Clearing records that are already all foreign changes nothing.
pub proof fn lemma_keep_other_noop(recs: Seq<Record>, id: Seq<u8>)
    requires
        forall|i: int| 0 <= i < recs.len() ==> rec_id(#[trigger] recs[i]) != id,
    ensures
        keep_other(recs, id) == recs,
    decreases recs.len(),
{
    if recs.len() == 0 {
        assert(keep_other(recs, id) =~= recs);
    } else {
        let init = recs.drop_last();
        assert(forall|i: int| 0 <= i < init.len() ==> init[i] == recs[i]);
        lemma_keep_other_noop(init, id);
        assert(keep_other(recs, id) =~= recs);
    }
}

/// Dropping one collection's records does not change what any other
/// collection folds to.
pub proof fn lemma_fold_keep_other(recs: Seq<Record>, id_a: Seq<u8>, id_b: Seq<u8>)
    requires
        id_a != id_b,
    ensures
        map_fold(keep_other(recs, id_a), id_b) == map_fold(recs, id_b),
        set_fold(keep_other(recs, id_a), id_b) == set_fold(recs, id_b),
    decreases recs.len(),
{
    if recs.len() > 0 {
        let init = recs.drop_last();
        let l = recs.last();
        lemma_fold_keep_other(init, id_a, id_b);
        if rec_id(l) != id_a {
            lemma_map_fold_from_push(Map::empty(), keep_other(init, id_a), l, id_b);
            lemma_set_fold_from_push(Set::empty(), keep_other(init, id_a), l, id_b);
        }
    }
}

/// Replay equals fold: a log holding exactly the images of the records a
/// run of operations appended parses back cleanly to those records, so
/// replaying it from offset zero rebuilds, for every collection, precisely
/// the state the operations folded in memory.
pub proof fn lemma_replay_equals_fold(recs: Seq<Record>, id: Seq<u8>)
    requires
        recs_wf(recs),
    ensures
        parse(encode_log(recs)).status is Clean,
        map_fold(parse(encode_log(recs)).recs, id) == map_fold(recs, id),
        set_fold(parse(encode_log(recs)).recs, id) == set_fold(recs, id),
{
    lemma_parse_encode_log(recs);
}

/// Batch atomicity: a batch appended in one piece to a cleanly parsing log
/// occupies contiguous positions at its end, in input order, with nothing
/// interleaved.
pub proof fn lemma_batch_contiguous(log: Seq<u8>, batch: Seq<Record>)
    requires
        parse(log).status is Clean,
        recs_wf(batch),
    ensures
        parse(log + encode_log(batch)).status is Clean,
        parse(log + encode_log(batch)).recs == parse(log).recs + batch,
{
    lemma_parse_encode_log(batch);
    lemma_parse_append(log, encode_log(batch));
}

/// Operations on one collection never change what another folds to.
pub proof fn lemma_foreign_ops_invisible(recs: Seq<Record>, more: Seq<Record>, id: Seq<u8>)
    requires
        forall|i: int| 0 <= i < more.len() ==> rec_id(#[trigger] more[i]) != id,
    ensures
        map_fold(recs + more, id) == map_fold(recs, id),
        set_fold(recs + more, id) == set_fold(recs, id),
{
    lemma_map_fold_from_append(Map::empty(), recs, more, id);
    lemma_set_fold_from_append(Set::empty(), recs, more, id);
    lemma_map_fold_foreign_noop(map_fold(recs, id), more, id);
    lemma_set_fold_foreign_noop(set_fold(recs, id), more, id);
}

/// A selective clear of one collection leaves every other collection's
/// replay exactly as it was.
pub proof fn lemma_clear_preserves_others(log: Seq<u8>, id_a: Seq<u8>, id_b: Seq<u8>)
    requires
        id_a != id_b,
    ensures
        parse(clear_bytes(log, id_a)).status is Clean,
        map_fold(parse(clear_bytes(log, id_a)).recs, id_b) == map_fold(parse(log).recs, id_b),
        set_fold(parse(clear_bytes(log, id_a)).recs, id_b) == set_fold(parse(log).recs, id_b),
{
    lemma_parse_wf(log);
    let a = parse(log).recs;
    lemma_keep_other_props(a, id_a);
    lemma_parse_encode_log(keep_other(a, id_a));
    lemma_fold_keep_other(a, id_a, id_b);
}

/// A selective clear done twice leaves the very bytes one clear leaves.
pub proof fn lemma_clear_idempotent(log: Seq<u8>, id: Seq<u8>)
    ensures
        clear_bytes(clear_bytes(log, id), id) == clear_bytes(log, id),
{
    lemma_parse_wf(log);
    let kept = keep_other(parse(log).recs, id);
    lemma_keep_other_props(parse(log).recs, id);
    lemma_parse_encode_log(kept);
    lemma_keep_other_noop(kept, id);
}

/// How many whole records fit in the first `k` bytes of a log's image.
pub open spec fn complete_count(recs: Seq<Record>, k: int) -> int
    decreases recs.len(),
{
    if recs.len() == 0 {
        0
    } else {
        let len0 = rec_bytes(recs.first()).len() as int;
        if k >= len0 {
            1 + complete_count(recs.skip(1), k - len0)
        } else {
            0
        }
    }
}

/// Cutting a concatenation beyond its first part and dropping that part
/// is cutting the second part.
proof fn lemma_concat_take_skip(a: Seq<u8>, b: Seq<u8>, k: int)
    requires
        a.len() <= k <= a.len() + b.len(),
    ensures
        (a + b).take(k).skip(a.len() as int) == b.take(k - a.len()),
{
    assert((a + b).take(k).skip(a.len() as int) =~= b.take(k - a.len()));
}

/// A prefix of a non-empty sequence is its head followed by a prefix of
/// its tail.
proof fn lemma_take_cons(recs: Seq<Record>, cc: int)
    requires
        recs.len() > 0,
        0 <= cc <= recs.len() - 1,
    ensures
        recs.take(1 + cc) == seq![recs.first()] + recs.skip(1).take(cc),
{
    assert(recs.take(1 + cc) =~= seq![recs.first()] + recs.skip(1).take(cc));
}

/// The inductive step of torn-tail tolerance when the cut spares the
/// first record whole: its premises are the facts the induction supplies
/// for the remaining records.
#[verifier::rlimit(100)]
#[verifier::spinoff_prover]
proof fn lemma_torn_tail_step(recs: Seq<Record>, k: int)
    requires
        recs.len() > 0,
        recs_wf(recs),
        rec_bytes(recs.first()).len() <= k <= encode_log(recs).len(),
        decode_rec(encode_log(recs).take(k)) == (DecodeOutcome::Found {
            rec: recs.first(),
            used: rec_bytes(recs.first()).len() as int,
        }),
        0 <= complete_count(recs.skip(1), k - rec_bytes(recs.first()).len()) <= recs.skip(
            1,
        ).len(),
        parse(encode_log(recs.skip(1)).take(k - rec_bytes(recs.first()).len())).recs == recs.skip(
            1,
        ).take(complete_count(recs.skip(1), k - rec_bytes(recs.first()).len())),
        !(parse(encode_log(recs.skip(1)).take(k - rec_bytes(recs.first()).len())).status
            is Malformed),
    ensures
        0 <= complete_count(recs, k) <= recs.len(),
        parse(encode_log(recs).take(k)).recs == recs.take(complete_count(recs, k)),
        !(parse(encode_log(recs).take(k)).status is Malformed),
{
    let s = encode_log(recs);
    let t = s.take(k);
    let r0 = recs.first();
    let rest = recs.skip(1);
    let len0 = rec_bytes(r0).len() as int;
    assert(t.len() > 0);
    assert(s == rec_bytes(r0) + encode_log(rest));
    lemma_concat_take_skip(rec_bytes(r0), encode_log(rest), k);
    assert(t.skip(len0) == encode_log(rest).take(k - len0));
    let cc = complete_count(rest, k - len0);
    assert(complete_count(recs, k) == 1 + cc);
    assert(parse(t).recs == seq![r0] + parse(t.skip(len0)).recs);
    assert(parse(t).status == parse(t.skip(len0)).status);
    lemma_take_cons(recs, cc);
}

/// Torn-tail tolerance: a log image cut at any offset parses, without
/// turning malformed, to exactly the longest prefix of whole records that
/// the cut leaves intact.
#[verifier::rlimit(100)]
pub proof fn lemma_torn_tail(recs: Seq<Record>, k: int)
    requires
        recs_wf(recs),
        0 <= k <= encode_log(recs).len(),
    ensures
        0 <= complete_count(recs, k) <= recs.len(),
        parse(encode_log(recs).take(k)).recs == recs.take(complete_count(recs, k)),
        !(parse(encode_log(recs).take(k)).status is Malformed),
    decreases recs.len(),
{
    let s = encode_log(recs);
    let t = s.take(k);
    if recs.len() == 0 {
        assert(t =~= Seq::<u8>::empty());
        assert(recs.take(0) =~= recs);
    } else {
        let r0 = recs.first();
        let rest = recs.skip(1);
        let len0 = rec_bytes(r0).len() as int;
        assert(rec_wf(r0));
        lemma_decode_of_encode(r0, encode_log(rest));
        assert(decode_rec(s) == (DecodeOutcome::Found { rec: r0, used: len0 }));
        lemma_decode_used_bounds(s);
        lemma_decode_truncate(s, k);
        assert forall|i: int| 0 <= i < rest.len() implies rec_wf(#[trigger] rest[i]) by {
            assert(rest[i] == recs[i + 1]);
        }
        if k >= len0 {
            lemma_torn_tail(rest, k - len0);
            lemma_torn_tail_step(recs, k);
        } else {
            assert(complete_count(recs, k) == 0);
            assert(recs.take(0) =~= Seq::<Record>::empty());
            if k == 0 {
                assert(t.len() == 0);
            } else {
                assert(decode_rec(t) is Incomplete);
            }
        }
    }
}

} // verus!
