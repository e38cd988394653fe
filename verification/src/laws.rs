//! The store's laws, stated over the log model and proved once and for all.
//!
//! Each law speaks about the spec functions that the executable functions'
//! contracts use: `scan_model` is what `get` returns, `record_line` over
//! `T::encoded` is what `set` and `unset` append (for every backing medium
//! alike), and `codec_ok` is what the codec's `encode` guarantees of every
//! payload the store itself writes.
//!
//! The laws on raw logs ask for a log whose records are all terminated
//! (`line_closed`) and whose replay for the key at hand is clean: on a log
//! whose final record lacks its terminator an appended record would fuse
//! with it, and an earlier corrupt record claiming the same key keeps
//! surfacing its error past any later write. `lemma_replay_clean` shows
//! that every log built from a history of well-formed operations meets
//! both, and the history laws combine the two, assuming nothing of the
//! prior history beyond its legality.

use vstd::prelude::*;

use crate::codec::codec_ok;
use crate::codec::StoreValue;
use crate::keys::key_bytes;
use crate::keys::lemma_valid_key_byte_values;
use crate::keys::valid_key;
use crate::model::lemma_record_is_line;
use crate::model::lemma_record_parse;
use crate::model::lemma_split_lines_append;
use crate::model::line_closed;
use crate::model::line_key;
use crate::model::no_record_for;
use crate::model::record_line;
use crate::model::op_record;
use crate::model::replay;
use crate::model::scan_lines;
use crate::model::scan_model;
use crate::model::scan_step;
use crate::model::split_lines;
use crate::model::LogOp;
use crate::model::ScanOutcome;
use crate::model::COMMA;
use crate::model::NL;

verus! {

/// Appending one well-formed record extends a replay by one step: it
/// changes nothing of an already erring replay, and it applies the
/// record's own effect to a clean one.
pub proof fn lemma_scan_append_record<T: StoreValue>(
    c: Seq<u8>,
    key: Seq<u8>,
    rkey: Seq<u8>,
    payload: Seq<u8>,
)
    requires
        line_closed(c),
        forall|i: int| 0 <= i < rkey.len() ==> rkey[i] != NL && rkey[i] != COMMA,
        forall|i: int| 0 <= i < payload.len() ==> payload[i] != NL,
    ensures
        scan_model::<T>(c + record_line(rkey, payload), key) == (match scan_model::<T>(c, key) {
            ScanOutcome::Value(cur) => scan_step::<T>(
                cur,
                rkey + seq![COMMA] + payload,
                key,
                split_lines(c).len() as int,
            ),
            e => e,
        }),
        line_closed(c + record_line(rkey, payload)),
{
    let rec = record_line(rkey, payload);
    let body = rkey + seq![COMMA] + payload;
    lemma_record_is_line(rkey, payload);
    lemma_split_lines_append(c, rec);
    assert(split_lines(c + rec) =~= split_lines(c).push(body));
    assert(split_lines(c).push(body).drop_last() =~= split_lines(c));
    assert((c + rec).last() == rec.last());
}

/// Law: a value just written is the value read back. On a line-closed log
/// whose replay for `key` is clean, `set(key, v)` followed by `get(key)`
/// yields `Some(v)`.
pub proof fn lemma_set_then_get<T: StoreValue>(c: Seq<u8>, key: Seq<char>, v: T::V)
    requires
        line_closed(c),
        valid_key(key),
        codec_ok::<T>(Some(v)),
        scan_model::<T>(c, key_bytes(key)) is Value,
    ensures
        scan_model::<T>(
            c + record_line(key_bytes(key), T::encoded(Some(v))),
            key_bytes(key),
        ) == ScanOutcome::<T::V>::Value(Some(v)),
{
    let kb = key_bytes(key);
    let enc = T::encoded(Some(v));
    lemma_valid_key_byte_values(key);
    lemma_scan_append_record::<T>(c, kb, kb, enc);
    lemma_record_parse(kb, enc);
}

/// Law: the last write wins. On a line-closed log whose replay for `key`
/// is clean, `set(key, v1); set(key, v2)` followed by `get(key)` yields
/// `Some(v2)`, whatever `v1` was.
pub proof fn lemma_last_write_wins<T: StoreValue>(c: Seq<u8>, key: Seq<char>, v1: T::V, v2: T::V)
    requires
        line_closed(c),
        valid_key(key),
        codec_ok::<T>(Some(v1)),
        codec_ok::<T>(Some(v2)),
        scan_model::<T>(c, key_bytes(key)) is Value,
    ensures
        scan_model::<T>(
            c + record_line(key_bytes(key), T::encoded(Some(v1))) + record_line(
                key_bytes(key),
                T::encoded(Some(v2)),
            ),
            key_bytes(key),
        ) == ScanOutcome::<T::V>::Value(Some(v2)),
{
    let kb = key_bytes(key);
    lemma_valid_key_byte_values(key);
    lemma_scan_append_record::<T>(c, kb, kb, T::encoded(Some(v1)));
    lemma_record_parse(kb, T::encoded(Some(v1)));
    let c1 = c + record_line(kb, T::encoded(Some(v1)));
    lemma_scan_append_record::<T>(c1, kb, kb, T::encoded(Some(v2)));
    lemma_record_parse(kb, T::encoded(Some(v2)));
}

/// Law: a tombstone hides the value. On a line-closed log whose replay for
/// `key` is clean, `set(key, v); unset(key)` followed by `get(key)` yields
/// `None`.
pub proof fn lemma_tombstone<T: StoreValue>(c: Seq<u8>, key: Seq<char>, v: T::V)
    requires
        line_closed(c),
        valid_key(key),
        codec_ok::<T>(Some(v)),
        codec_ok::<T>(None),
        scan_model::<T>(c, key_bytes(key)) is Value,
    ensures
        scan_model::<T>(
            c + record_line(key_bytes(key), T::encoded(Some(v))) + record_line(
                key_bytes(key),
                T::encoded(None),
            ),
            key_bytes(key),
        ) == ScanOutcome::<T::V>::Value(None),
{
    let kb = key_bytes(key);
    lemma_valid_key_byte_values(key);
    lemma_scan_append_record::<T>(c, kb, kb, T::encoded(Some(v)));
    lemma_record_parse(kb, T::encoded(Some(v)));
    let c1 = c + record_line(kb, T::encoded(Some(v)));
    lemma_scan_append_record::<T>(c1, kb, kb, T::encoded(None));
    lemma_record_parse(kb, T::encoded(None));
}

/// Law: a key that no record claims resolves to `None`, never to an error,
/// whatever garbage the rest of the log holds.
pub proof fn lemma_absent_key<T: StoreValue>(c: Seq<u8>, key: Seq<u8>)
    requires
        no_record_for(c, key),
    ensures
        scan_model::<T>(c, key) == ScanOutcome::<T::V>::Value(None),
{
    lemma_scan_lines_no_match::<T>(split_lines(c), key);
}

proof fn lemma_scan_lines_no_match<T: StoreValue>(lines: Seq<Seq<u8>>, key: Seq<u8>)
    requires
        forall|i: int| 0 <= i < lines.len() ==> line_key(#[trigger] lines[i]) != key,
    ensures
        scan_lines::<T>(lines, key) == ScanOutcome::<T::V>::Value(None),
    decreases lines.len(),
{
    if lines.len() == 0 {
    } else {
        lemma_scan_lines_no_match::<T>(lines.drop_last(), key);
        assert(line_key(lines.last()) != key);
    }
}

/// A well-formed operation: its key's log bytes hold no line feed and no
/// comma (every valid key's bytes are such), and its payload's codec
/// round-trips — exactly what `set` and `unset` guarantee of every record
/// they append.
pub open spec fn op_ok<T: StoreValue>(op: LogOp<T::V>) -> bool {
    match op {
        LogOp::Put(kb, v) => clean_key(kb) && codec_ok::<T>(Some(v)),
        LogOp::Tombstone(kb) => clean_key(kb) && codec_ok::<T>(None),
    }
}

/// Key bytes free of the record delimiters.
pub open spec fn clean_key(kb: Seq<u8>) -> bool {
    forall|i: int| 0 <= i < kb.len() ==> kb[i] != NL && kb[i] != COMMA
}

/// A sequence of well-formed operations.
pub open spec fn ops_ok<T: StoreValue>(ops: Seq<LogOp<T::V>>) -> bool {
    forall|i: int| 0 <= i < ops.len() ==> op_ok::<T>(#[trigger] ops[i])
}

/// A log built by replaying well-formed operations is healthy: its records
/// are all terminated and resolving any key goes through cleanly — no
/// malformed record, no undecodable payload. This is the induction over an
/// operation history that discharges the healthy-log hypotheses of the
/// laws above for every legal history.
pub proof fn lemma_replay_clean<T: StoreValue>(ops: Seq<LogOp<T::V>>, key: Seq<u8>)
    requires
        ops_ok::<T>(ops),
    ensures
        line_closed(replay::<T>(ops)),
        scan_model::<T>(replay::<T>(ops), key) is Value,
    decreases ops.len(),
{
    if ops.len() == 0 {
        assert(split_lines(replay::<T>(ops)) == Seq::<Seq<u8>>::empty());
    } else {
        let front = ops.drop_last();
        let op = ops.last();
        assert(op_ok::<T>(op));
        assert forall|i: int| 0 <= i < front.len() implies op_ok::<T>(#[trigger] front[i]) by {
            assert(front[i] == ops[i]);
        }
        lemma_replay_clean::<T>(front, key);
        let rkey = match op {
            LogOp::Put(kb, v) => kb,
            LogOp::Tombstone(kb) => kb,
        };
        let payload = match op {
            LogOp::Put(kb, v) => T::encoded(Some(v)),
            LogOp::Tombstone(kb) => T::encoded(None),
        };
        lemma_scan_append_record::<T>(replay::<T>(front), key, rkey, payload);
        lemma_record_parse(rkey, payload);
        assert(replay::<T>(ops) == replay::<T>(front) + record_line(rkey, payload));
    }
}

/// Law over histories: after any legal history of operations, a `set` of
/// a valid key followed by a lookup of that key yields the value just set.
pub proof fn lemma_history_set_then_get<T: StoreValue>(
    ops: Seq<LogOp<T::V>>,
    key: Seq<char>,
    v: T::V,
)
    requires
        ops_ok::<T>(ops),
        valid_key(key),
        codec_ok::<T>(Some(v)),
    ensures
        scan_model::<T>(
            replay::<T>(ops.push(LogOp::Put(key_bytes(key), v))),
            key_bytes(key),
        ) == ScanOutcome::<T::V>::Value(Some(v)),
{
    let kb = key_bytes(key);
    lemma_valid_key_byte_values(key);
    lemma_replay_clean::<T>(ops, kb);
    lemma_replay_step::<T>(ops, LogOp::Put(kb, v));
    lemma_set_then_get::<T>(replay::<T>(ops), key, v);
}

/// Law over histories: after any legal history, two `set`s of one valid
/// key followed by a lookup yield the second value, whatever the first was.
pub proof fn lemma_history_last_write_wins<T: StoreValue>(
    ops: Seq<LogOp<T::V>>,
    key: Seq<char>,
    v1: T::V,
    v2: T::V,
)
    requires
        ops_ok::<T>(ops),
        valid_key(key),
        codec_ok::<T>(Some(v1)),
        codec_ok::<T>(Some(v2)),
    ensures
        scan_model::<T>(
            replay::<T>(ops.push(LogOp::Put(key_bytes(key), v1)).push(LogOp::Put(key_bytes(key), v2))),
            key_bytes(key),
        ) == ScanOutcome::<T::V>::Value(Some(v2)),
{
    let kb = key_bytes(key);
    lemma_valid_key_byte_values(key);
    lemma_replay_clean::<T>(ops, kb);
    lemma_replay_step::<T>(ops, LogOp::Put(kb, v1));
    lemma_replay_step::<T>(ops.push(LogOp::Put(kb, v1)), LogOp::Put(kb, v2));
    lemma_last_write_wins::<T>(replay::<T>(ops), key, v1, v2);
}

/// Law over histories: after any legal history, a `set` of a valid key and
/// then an `unset` of it followed by a lookup yield `None`.
pub proof fn lemma_history_tombstone<T: StoreValue>(ops: Seq<LogOp<T::V>>, key: Seq<char>, v: T::V)
    requires
        ops_ok::<T>(ops),
        valid_key(key),
        codec_ok::<T>(Some(v)),
        codec_ok::<T>(None),
    ensures
        scan_model::<T>(
            replay::<T>(ops.push(LogOp::Put(key_bytes(key), v)).push(LogOp::Tombstone(key_bytes(key)))),
            key_bytes(key),
        ) == ScanOutcome::<T::V>::Value(None),
{
    let kb = key_bytes(key);
    lemma_valid_key_byte_values(key);
    lemma_replay_clean::<T>(ops, kb);
    lemma_replay_step::<T>(ops, LogOp::Put(kb, v));
    lemma_replay_step::<T>(ops.push(LogOp::Put(kb, v)), LogOp::Tombstone(kb));
    lemma_tombstone::<T>(replay::<T>(ops), key, v);
}

/// One more operation extends a replay by exactly its record — the very
/// growth that `write_post` promises of a successful `set` or `unset` on
/// every backing medium, which is what lets a caller maintain
/// `content == replay(ops)` across a whole run of operations.
pub proof fn lemma_replay_step<T: StoreValue>(ops: Seq<LogOp<T::V>>, op: LogOp<T::V>)
    ensures
        replay::<T>(ops.push(op)) == replay::<T>(ops) + op_record::<T>(op),
{
    assert(ops.push(op).drop_last() =~= ops);
    assert(ops.push(op).last() == op);
}

/// Law: backends are equivalent. `set` and `unset` promise, for every
/// backing medium alike, that a successful operation appends exactly
/// `op_record` of the operation; so two stores driven by one sequence of
/// operations from an empty log hold the same bytes, and every lookup
/// resolves to the same outcome on both.
pub proof fn lemma_backend_equivalence<T: StoreValue>(
    ops: Seq<LogOp<T::V>>,
    c1: Seq<u8>,
    c2: Seq<u8>,
    key: Seq<u8>,
)
    requires
        c1 == replay::<T>(ops),
        c2 == replay::<T>(ops),
    ensures
        scan_model::<T>(c1, key) == scan_model::<T>(c2, key),
        ops_ok::<T>(ops) ==> scan_model::<T>(c1, key) is Value,
{
    if ops_ok::<T>(ops) {
        lemma_replay_clean::<T>(ops, key);
    }
}

} // verus!
