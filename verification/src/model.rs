//! The mathematical model of the record log.
//!
//! A log is a sequence of bytes. Its records are the byte runs between line
//! feeds; a record splits at its first comma into a candidate key and a
//! payload. Resolving a key replays the records in order and keeps the
//! decoded payload of the last record whose candidate key matches; a record
//! that cannot be split, or whose payload does not decode, surfaces an error
//! only when its own candidate key is the one being resolved.

use vstd::prelude::*;

use crate::codec::StoreValue;

verus! {

/// The line feed that terminates every well-formed record.
pub const NL: u8 = 10;

/// The comma that separates a record's key from its payload.
pub const COMMA: u8 = 44;

/// Index of the first occurrence of `x` in `s`, or `s.len()` when `x` does
/// not occur.
pub open spec fn find_index<A>(s: Seq<A>, x: A) -> int
    decreases s.len(),
{
    if s.len() == 0 {
        0
    } else if s[0] == x {
        0
    } else {
        1 + find_index(s.drop_first(), x)
    }
}

/// `find_index` points at the first occurrence: it stays within bounds,
/// nothing before it equals `x`, and it lands on `x` unless `x` is absent.
pub proof fn lemma_find_index<A>(s: Seq<A>, x: A)
    ensures
        0 <= find_index(s, x) <= s.len(),
        forall|i: int| 0 <= i < find_index(s, x) ==> s[i] != x,
        find_index(s, x) < s.len() ==> s[find_index(s, x)] == x,
    decreases s.len(),
{
    if s.len() == 0 {
    } else if s[0] == x {
    } else {
        let t = s.drop_first();
        lemma_find_index(t, x);
        assert forall|i: int| 0 <= i < find_index(s, x) implies s[i] != x by {
            if i > 0 {
                assert(t[i - 1] == s[i]);
            }
        }
        if find_index(s, x) < s.len() {
            assert(t[find_index(s, x) - 1] == s[find_index(s, x)]);
        }
    }
}

/// Any index with the first-occurrence properties is `find_index`.
pub proof fn lemma_find_index_unique<A>(s: Seq<A>, x: A, j: int)
    requires
        0 <= j <= s.len(),
        forall|i: int| 0 <= i < j ==> s[i] != x,
        j < s.len() ==> s[j] == x,
    ensures
        j == find_index(s, x),
    decreases s.len(),
{
    if s.len() == 0 {
    } else if s[0] == x {
        assert(j == 0);
    } else {
        let t = s.drop_first();
        assert(j >= 1) by {
            assert(j != 0);
        }
        assert forall|i: int| 0 <= i < j - 1 implies t[i] != x by {
            assert(t[i] == s[i + 1]);
        }
        if j - 1 < t.len() {
            assert(t[j - 1] == s[j]);
        }
        lemma_find_index_unique(t, x, j - 1);
    }
}

/// The records of a log: its content split at every line feed. A final
/// fragment without a terminator still counts as one (partial) record;
/// content that is empty holds no record at all.
pub open spec fn split_lines(content: Seq<u8>) -> Seq<Seq<u8>>
    decreases content.len(),
    via split_lines_decreases
{
    if content.len() == 0 {
        Seq::empty()
    } else {
        let i = find_index(content, NL);
        if i == content.len() {
            seq![content]
        } else {
            seq![content.subrange(0, i)] + split_lines(
                content.subrange(i + 1, content.len() as int),
            )
        }
    }
}

#[via_fn]
proof fn split_lines_decreases(content: Seq<u8>) {
    lemma_find_index(content, NL);
}

/// Splitting peels records off the front: when the first line feed of a
/// non-empty content sits at `j` (or there is none and `j` is the length),
/// the first record is everything before `j`.
pub proof fn lemma_split_lines_front(s: Seq<u8>, j: int)
    requires
        s.len() > 0,
        0 <= j <= s.len(),
        forall|m: int| 0 <= m < j ==> s[m] != NL,
        j < s.len() ==> s[j] == NL,
    ensures
        j == s.len() ==> split_lines(s) == seq![s],
        j < s.len() ==> split_lines(s) == seq![s.subrange(0, j)] + split_lines(
            s.subrange(j + 1, s.len() as int),
        ),
{
    lemma_find_index_unique(s, NL, j);
}

/// One record as the store writes it: key, comma, payload, line feed.
pub open spec fn record_line(key: Seq<u8>, payload: Seq<u8>) -> Seq<u8> {
    key + seq![COMMA] + payload + seq![NL]
}

/// The candidate key of a record: everything before its first comma, or
/// the whole record when it has no comma.
pub open spec fn line_key(line: Seq<u8>) -> Seq<u8> {
    line.subrange(0, find_index(line, COMMA))
}

/// Whether a record has a payload segment at all, that is, a comma.
pub open spec fn line_has_payload(line: Seq<u8>) -> bool {
    find_index(line, COMMA) < line.len()
}

/// The payload of a record: everything after its first comma.
pub open spec fn line_payload(line: Seq<u8>) -> Seq<u8> {
    line.subrange(find_index(line, COMMA) + 1, line.len() as int)
}

/// What resolving one key against a log comes to.
pub enum ScanOutcome<VV> {
    /// The replay went through; the payload of the last matching record,
    /// or `None` when no record matched or the last match was a tombstone.
    Value(Option<VV>),
    /// The record at this position claims the key but cannot be split
    /// into a key and a payload.
    Malformed(int),
    /// The record at this position claims the key but its payload does
    /// not decode.
    Undecodable(int),
}

/// One record's effect on a replay that so far carries `cur`.
pub open spec fn scan_step<T: StoreValue>(
    cur: Option<T::V>,
    line: Seq<u8>,
    key: Seq<u8>,
    idx: int,
) -> ScanOutcome<T::V> {
    if line_key(line) != key {
        ScanOutcome::Value(cur)
    } else if !line_has_payload(line) {
        ScanOutcome::Malformed(idx)
    } else {
        match T::decoded(line_payload(line)) {
            Some(ov) => ScanOutcome::Value(ov),
            None => ScanOutcome::Undecodable(idx),
        }
    }
}

/// Resolving a key against a sequence of records, in order; the earliest
/// error for that key wins, otherwise the last matching record does.
pub open spec fn scan_lines<T: StoreValue>(lines: Seq<Seq<u8>>, key: Seq<u8>) -> ScanOutcome<T::V>
    decreases lines.len(),
{
    if lines.len() == 0 {
        ScanOutcome::Value(None)
    } else {
        match scan_lines::<T>(lines.drop_last(), key) {
            ScanOutcome::Value(cur) => scan_step::<T>(cur, lines.last(), key, lines.len() - 1),
            e => e,
        }
    }
}

/// An error met early in the replay decides it: records after it change
/// nothing.
pub proof fn lemma_scan_lines_error_prefix<T: StoreValue>(
    l1: Seq<Seq<u8>>,
    l2: Seq<Seq<u8>>,
    key: Seq<u8>,
)
    requires
        !(scan_lines::<T>(l1, key) is Value),
    ensures
        scan_lines::<T>(l1 + l2, key) == scan_lines::<T>(l1, key),
    decreases l2.len(),
{
    if l2.len() == 0 {
        assert(l1 + l2 =~= l1);
    } else {
        lemma_scan_lines_error_prefix::<T>(l1, l2.drop_last(), key);
        assert((l1 + l2).drop_last() =~= l1 + l2.drop_last());
        assert((l1 + l2).last() == l2.last());
    }
}

/// Resolving a key against a whole log.
pub open spec fn scan_model<T: StoreValue>(content: Seq<u8>, key: Seq<u8>) -> ScanOutcome<T::V> {
    scan_lines::<T>(split_lines(content), key)
}

/// A record that a full materialization accepts: it splits, its payload
/// decodes, and its key is text.
pub open spec fn line_ok<T: StoreValue>(line: Seq<u8>) -> bool {
    &&& line_has_payload(line)
    &&& T::decoded(line_payload(line)) is Some
    &&& vstd::utf8::valid_utf8(line_key(line))
}

/// Whether a full materialization of the log goes through.
pub open spec fn scan_all_ok<T: StoreValue>(content: Seq<u8>) -> bool {
    forall|i: int|
        0 <= i < split_lines(content).len() ==> line_ok::<T>(#[trigger] split_lines(content)[i])
}

/// The logical key-to-value mapping of a sequence of records, keyed by the
/// keys' log bytes: for each key the decoded payload of its last record,
/// with a tombstone removing the key again. A record that does not split
/// or decode changes nothing here; a materialization rejects it instead.
pub open spec fn map_model<T: StoreValue>(lines: Seq<Seq<u8>>) -> Map<Seq<u8>, T::V>
    decreases lines.len(),
{
    if lines.len() == 0 {
        Map::empty()
    } else {
        let m = map_model::<T>(lines.drop_last());
        let line = lines.last();
        if !line_has_payload(line) {
            m
        } else {
            match T::decoded(line_payload(line)) {
                Some(Some(v)) => m.insert(line_key(line), v),
                Some(None) => m.remove(line_key(line)),
                None => m,
            }
        }
    }
}

/// Whether some record binds this key (by its log bytes) to this value.
pub open spec fn some_record_binds<T: StoreValue>(
    lines: Seq<Seq<u8>>,
    kb: Seq<u8>,
    vv: T::V,
) -> bool {
    exists|i: int|
        0 <= i < lines.len() && line_key(#[trigger] lines[i]) == kb && line_has_payload(lines[i])
            && T::decoded(line_payload(lines[i])) == Some(Some(vv))
}

/// A binding among some records still stands among those records plus one.
pub proof fn lemma_binds_push<T: StoreValue>(
    lines: Seq<Seq<u8>>,
    extra: Seq<u8>,
    kb: Seq<u8>,
    vv: T::V,
)
    requires
        some_record_binds::<T>(lines, kb, vv),
    ensures
        some_record_binds::<T>(lines.push(extra), kb, vv),
{
    let i = choose|i: int|
        0 <= i < lines.len() && line_key(#[trigger] lines[i]) == kb && line_has_payload(lines[i])
            && T::decoded(line_payload(lines[i])) == Some(Some(vv));
    assert(lines.push(extra)[i] == lines[i]);
}

/// No record in the log, well-formed or not, carries this candidate key.
pub open spec fn no_record_for(content: Seq<u8>, key: Seq<u8>) -> bool {
    forall|i: int|
        0 <= i < split_lines(content).len() ==> line_key(#[trigger] split_lines(content)[i]) != key
}

/// Content whose final record is terminated (or that is empty), so that an
/// appended record starts a record of its own.
pub open spec fn line_closed(content: Seq<u8>) -> bool {
    content.len() == 0 || content.last() == NL
}

/// Splitting distributes over appending to a log whose records are all
/// terminated: the new bytes' records simply follow the old ones.
pub proof fn lemma_split_lines_append(c: Seq<u8>, d: Seq<u8>)
    requires
        line_closed(c),
    ensures
        split_lines(c + d) == split_lines(c) + split_lines(d),
    decreases c.len(),
{
    if c.len() == 0 {
        assert(c + d =~= d);
        assert(split_lines(c) + split_lines(d) =~= split_lines(d));
    } else {
        lemma_find_index(c, NL);
        let i = find_index(c, NL);
        assert(i < c.len()) by {
            if i == c.len() {
                assert(c[c.len() - 1] == NL);
            }
        }
        assert forall|m: int| 0 <= m < i implies (c + d)[m] != NL by {
            assert((c + d)[m] == c[m]);
        }
        assert((c + d)[i] == c[i]);
        lemma_find_index_unique(c + d, NL, i);
        let c1 = c.subrange(i + 1, c.len() as int);
        assert((c + d).subrange(0, i) =~= c.subrange(0, i));
        assert((c + d).subrange(i + 1, (c + d).len() as int) =~= c1 + d);
        assert(line_closed(c1)) by {
            if c1.len() > 0 {
                assert(c1.last() == c.last());
            }
        }
        lemma_split_lines_append(c1, d);
        assert(split_lines(c + d) =~= split_lines(c) + split_lines(d));
    }
}

/// One written record is one record of the log: splitting it yields its
/// body alone, and it leaves the log line-closed.
pub proof fn lemma_record_is_line(key: Seq<u8>, payload: Seq<u8>)
    requires
        forall|i: int| 0 <= i < key.len() ==> key[i] != NL,
        forall|i: int| 0 <= i < payload.len() ==> payload[i] != NL,
    ensures
        split_lines(record_line(key, payload)) == seq![key + seq![COMMA] + payload],
        line_closed(record_line(key, payload)),
{
    let rec = record_line(key, payload);
    let body = key + seq![COMMA] + payload;
    assert forall|m: int| 0 <= m < body.len() implies rec[m] != NL by {
        if m < key.len() {
            assert(rec[m] == key[m]);
        } else if m == key.len() {
            assert(rec[m] == COMMA);
        } else {
            assert(rec[m] == payload[m - key.len() - 1]);
        }
    }
    assert(rec[body.len() as int] == NL);
    lemma_find_index_unique(rec, NL, body.len() as int);
    assert(rec.subrange(0, body.len() as int) =~= body);
    assert(rec.subrange(body.len() as int + 1, rec.len() as int).len() == 0);
    assert(split_lines(rec.subrange(body.len() as int + 1, rec.len() as int))
        == Seq::<Seq<u8>>::empty());
    assert(split_lines(rec) =~= seq![rec.subrange(0, body.len() as int)] + split_lines(
        rec.subrange(body.len() as int + 1, rec.len() as int),
    ));
    assert(split_lines(rec) =~= seq![body]);
    assert(rec.last() == NL);
}

/// A record's body parses back into the key and the payload it was written
/// from, provided the key holds no comma.
pub proof fn lemma_record_parse(key: Seq<u8>, payload: Seq<u8>)
    requires
        forall|i: int| 0 <= i < key.len() ==> key[i] != COMMA,
    ensures
        line_key(key + seq![COMMA] + payload) == key,
        line_has_payload(key + seq![COMMA] + payload),
        line_payload(key + seq![COMMA] + payload) == payload,
{
    let line = key + seq![COMMA] + payload;
    assert forall|m: int| 0 <= m < key.len() implies line[m] != COMMA by {
        assert(line[m] == key[m]);
    }
    assert(line[key.len() as int] == COMMA);
    lemma_find_index_unique(line, COMMA, key.len() as int);
    assert(line.subrange(0, key.len() as int) =~= key);
    assert(line.subrange(key.len() as int + 1, line.len() as int) =~= payload);
}

/// One store operation, as a replayable event: a binding or a tombstone
/// for a key's log bytes.
pub enum LogOp<VV> {
    Put(Seq<u8>, VV),
    Tombstone(Seq<u8>),
}

/// The record an operation appends.
pub open spec fn op_record<T: StoreValue>(op: LogOp<T::V>) -> Seq<u8> {
    match op {
        LogOp::Put(k, v) => record_line(k, T::encoded(Some(v))),
        LogOp::Tombstone(k) => record_line(k, T::encoded(None)),
    }
}

/// The bytes a fresh log holds after a sequence of operations: exactly the
/// operations' records, in order, whatever medium carries them.
pub open spec fn replay<T: StoreValue>(ops: Seq<LogOp<T::V>>) -> Seq<u8>
    decreases ops.len(),
{
    if ops.len() == 0 {
        Seq::empty()
    } else {
        replay::<T>(ops.drop_last()) + op_record::<T>(ops.last())
    }
}

} // verus!
