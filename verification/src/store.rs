//! The store: a sequential log engine, and a shared, lock-guarded facade.

use vstd::prelude::*;

use core::marker::PhantomData;

use crate::backing::Backing;
use crate::backing::MemBacking;
use crate::codec::codec_ok;
use crate::codec::StoreValue;
use crate::error::line_diag;
use crate::error::line_error;
use crate::error::lossy_text;
use crate::error::lossy_text_of;
use crate::error::read_err;
use crate::error::write_err;
use crate::error::Error;
use crate::keys::key_bytes;
use crate::keys::lemma_valid_key_bytes;
use crate::keys::valid_key;
use crate::keys::validate_key;
use crate::model::lemma_binds_push;
use crate::model::lemma_find_index_unique;
use crate::model::lemma_split_lines_front;
use crate::model::map_model;
use crate::model::some_record_binds;
use crate::model::line_has_payload;
use crate::model::line_key;
use crate::model::line_ok;
use crate::model::line_payload;
use crate::model::record_line;
use crate::model::scan_all_ok;
use crate::model::scan_model;
use crate::model::split_lines;
use crate::model::ScanOutcome;
use crate::model::COMMA;
use crate::model::NL;
use crate::scan::scan_content;
use vstd::slice::slice_index_get;
use vstd::slice::slice_subrange;
use vstd::slice::slice_to_vec;
use vstd::string::StringSliceAdditionalSpecFns;

verus! {

/// The hasher state of the maps that `to_map` hands out.
#[verifier::external_type_specification]
#[verifier::external_body]
pub struct ExFxBuildHasher(rustc_hash::FxBuildHasher);

/// Relies on String::from_utf8: it accepts exactly the valid UTF-8 byte
/// sequences, and the accepted string spells the given bytes.
#[verifier::external_body]
fn utf8_string(v: Vec<u8>) -> (r: Option<String>)
    ensures
        r is Some <==> vstd::utf8::valid_utf8(v@),
        r matches Some(s) ==> vstd::utf8::encode_utf8(s@) == v@,
{
    String::from_utf8(v).ok()
}

/// What a write (`set` or `unset`) leaves behind: on success the log grew
/// by exactly one record for the key; on failure the error names the write,
/// and the log kept its old content extended by at most a cut-short prefix
/// of that record. On a medium whose appends cannot fail, success is owed.
pub open spec fn write_post<T: StoreValue, B: Backing>(
    old_c: Seq<u8>,
    new_c: Seq<u8>,
    key: Seq<char>,
    v: Option<T::V>,
    r: Result<(), Error>,
) -> bool {
    let rec = record_line(key_bytes(key), T::encoded(v));
    &&& (r is Ok ==> new_c == old_c + rec)
    &&& (r matches Err(e) ==> (e matches Error::Write(_)) && exists|m: int|
        0 <= m <= rec.len() && new_c == old_c + rec.subrange(0, m))
    &&& (B::append_total() ==> r is Ok)
    &&& codec_ok::<T>(v)
}

/// What a lookup returns: a success carries exactly the value of the scan
/// model, a failure is a read error, and on a medium whose reads cannot
/// fail, the lookup fails exactly when the scan model does.
pub open spec fn get_post<T: StoreValue>(
    c: Seq<u8>,
    key: Seq<char>,
    r: Result<Option<T>, Error>,
    read_total: bool,
) -> bool {
    let out = scan_model::<T>(c, key_bytes(key));
    &&& (r matches Ok(v) ==> out == ScanOutcome::<T::V>::Value(v.deep_view()))
    &&& (r matches Err(e) ==> e matches Error::Read(_))
    &&& (read_total ==> match out {
        ScanOutcome::Value(ov) => r matches Ok(v) && v.deep_view() == ov,
        ScanOutcome::Malformed(i) => r matches Err(e) && (e matches Error::Read(m) && m@
            == line_diag(i, lossy_text_of(split_lines(c)[i]))),
        ScanOutcome::Undecodable(_) => r matches Err(e) && e matches Error::Read(_),
    })
}

/// A materialized map reflects a log's records when every logical binding
/// of the log is present in the map, under its key's text and with the
/// value of that key's last record, and every map entry is a binding that
/// some record made. (Which of several text values spelling the same key
/// bytes holds an entry is below the hash-table model's resolution, so the
/// map's entries are pinned through their views.)
pub open spec fn map_reflects<T: StoreValue>(m: Map<String, T>, lines: Seq<Seq<u8>>) -> bool {
    &&& forall|kb: Seq<u8>| #[trigger] map_model::<T>(lines).contains_key(kb) ==> exists|k: String|
        #[trigger] m.contains_key(k) && vstd::utf8::encode_utf8(k@) == kb && m[k].deep_view()
            == map_model::<T>(lines)[kb]
    &&& forall|k: String| #[trigger] m.contains_key(k) ==> some_record_binds::<T>(
        lines,
        vstd::utf8::encode_utf8(k@),
        m[k].deep_view(),
    )
}

/// Builds the record the log stores for `key` with an encoded `payload`.
fn build_record(key: &str, payload: &Vec<u8>) -> (rec: Vec<u8>)
    requires
        valid_key(key@),
    ensures
        rec@ == record_line(key_bytes(key@), payload@),
{
    proof {
        lemma_valid_key_bytes(key);
    }
    let kb: &[u8] = key.as_bytes();
    let mut rec: Vec<u8> = Vec::new();
    let mut i: usize = 0;
    while i < kb.len()
        invariant
            i <= kb@.len(),
            rec@ == kb@.subrange(0, i as int),
        decreases kb@.len() - i,
    {
        rec.push(*slice_index_get(kb, i));
        proof {
            assert(rec@ =~= kb@.subrange(0, i + 1));
        }
        i = i + 1;
    }
    proof {
        assert(kb@.subrange(0, kb@.len() as int) =~= kb@);
    }
    rec.push(COMMA);
    let mut p: usize = 0;
    while p < payload.len()
        invariant
            p <= payload@.len(),
            rec@ == key.spec_bytes() + seq![COMMA] + payload@.subrange(0, p as int),
        decreases payload@.len() - p,
    {
        rec.push(payload[p]);
        proof {
            assert(rec@ =~= key.spec_bytes() + seq![COMMA] + payload@.subrange(0, p + 1));
        }
        p = p + 1;
    }
    rec.push(NL);
    proof {
        lemma_valid_key_bytes(key);
        assert(payload@.subrange(0, payload@.len() as int) =~= payload@);
        assert(rec@ =~= record_line(key_bytes(key@), payload@));
    }
    rec
}

/// The sequential log engine: one backing medium, replayed and appended to
/// directly. All of the store's semantics lives here; the shared [`Store`]
/// facade only serializes access to one `Log` value.
pub struct Log<T: StoreValue, B: Backing> {
    backing: B,
    _values: PhantomData<T>,
}

impl<T: StoreValue, B: Backing> Log<T, B> {
    /// The log's byte content.
    pub closed spec fn content(&self) -> Seq<u8> {
        self.backing.content()
    }

    /// Wraps a backing medium that holds an existing log, or nothing yet.
    pub fn new(backing: B) -> (log: Self)
        ensures
            log.content() == backing.content(),
    {
        Log { backing, _values: PhantomData }
    }

    /// Appends one record binding `key` to `data`.
    pub fn set(&mut self, key: &str, data: &T) -> (r: Result<(), Error>)
        ensures
            !valid_key(key@) ==> (r matches Err(e) && e matches Error::InvalidKey(s) && s@
                == key@) && final (self).content() == old(self).content(),
            valid_key(key@) ==> write_post::<T, B>(
                old(self).content(),
                final (self).content(),
                key@,
                Some(data.deep_view()),
                r,
            ),
    {
        self.write(key, Some(data))
    }

    /// Appends one tombstone record for `key`. Whether `key` currently has
    /// a value is not checked: a tombstone for a never-set key is legal.
    pub fn unset(&mut self, key: &str) -> (r: Result<(), Error>)
        ensures
            !valid_key(key@) ==> (r matches Err(e) && e matches Error::InvalidKey(s) && s@
                == key@) && final (self).content() == old(self).content(),
            valid_key(key@) ==> write_post::<T, B>(
                old(self).content(),
                final (self).content(),
                key@,
                None,
                r,
            ),
    {
        self.write(key, None)
    }

    fn write(&mut self, key: &str, data: Option<&T>) -> (r: Result<(), Error>)
        ensures
            !valid_key(key@) ==> (r matches Err(e) && e matches Error::InvalidKey(s) && s@
                == key@) && final (self).content() == old(self).content(),
            valid_key(key@) ==> write_post::<T, B>(
                old(self).content(),
                final (self).content(),
                key@,
                data.deep_view(),
                r,
            ),
    {
        match validate_key(key) {
            Err(e) => {
                return Err(e);
            },
            Ok(_) => {},
        }
        let enc = T::encode(data);
        let rec = build_record(key, &enc);
        match self.backing.append(rec.as_slice()) {
            Ok(u) => Ok(u),
            Err(msg) => Err(write_err(msg)),
        }
    }

    /// Replays the log and resolves `key`: the last record with that key
    /// decides, a tombstone or a complete absence yields `None`, and only
    /// corruption in records claiming exactly `key` is an error.
    pub fn get(&mut self, key: &str) -> (r: Result<Option<T>, Error>)
        ensures
            final (self).content() == old(self).content(),
            !valid_key(key@) ==> (r matches Err(e) && e matches Error::InvalidKey(s) && s@
                == key@),
            valid_key(key@) ==> get_post::<T>(old(self).content(), key@, r, B::read_total()),
    {
        match validate_key(key) {
            Err(e) => {
                return Err(e);
            },
            Ok(_) => {},
        }
        let content = match self.backing.read_all() {
            Ok(v) => v,
            Err(msg) => {
                return Err(read_err(msg));
            },
        };
        proof {
            lemma_valid_key_bytes(key);
        }
        scan_content::<T>(&content, key)
    }

    /// Materializes the whole log into one map: for every key the value of
    /// its last record, with tombstoned keys removed again. Every record is
    /// decoded on the way, so corruption anywhere in the log is an error
    /// here, unlike under [`Log::get`].
    ///
    /// A returned map reflects the log's logical state, [`map_reflects`]:
    /// every live binding present with its key's text and its last value,
    /// nothing present that no record bound. That clause holds under the
    /// hash-table model's two standing hypotheses on the key type and the
    /// hasher (vstd leaves both uninterpreted for string keys); they are
    /// what ties a `HashMap`'s operations to its view.
    pub fn to_map(&mut self) -> (r: Result<rustc_hash::FxHashMap<String, T>, Error>)
        ensures
            final (self).content() == old(self).content(),
            r matches Err(e) ==> e matches Error::Read(_),
            r is Ok ==> scan_all_ok::<T>(old(self).content()),
            B::read_total() ==> (r is Ok <==> scan_all_ok::<T>(old(self).content())),
            r matches Ok(m) ==> (vstd::std_specs::hash::obeys_key_model::<String>()
                && vstd::std_specs::hash::builds_valid_hashers::<rustc_hash::FxBuildHasher>()
                ==> map_reflects::<T>(m@, split_lines(old(self).content()))),
    {
        let content = match self.backing.read_all() {
            Ok(v) => v,
            Err(msg) => {
                return Err(read_err(msg));
            },
        };
        let mut map: rustc_hash::FxHashMap<String, T> = rustc_hash::FxHashMap::default();
        let n = content.len();
        let mut pos: usize = 0;
        let mut idx: usize = 0;
        let ghost mut done: Seq<Seq<u8>> = Seq::empty();
        proof {
            assert(content@.subrange(0, n as int) =~= content@);
            assert(done + split_lines(content@) =~= split_lines(content@));
        }
        while pos < n
            invariant
                self.content() == old(self).content(),
                content@ == old(self).content(),
                n == content@.len(),
                pos <= n,
                idx <= pos,
                idx == done.len(),
                split_lines(content@) == done + split_lines(
                    content@.subrange(pos as int, n as int),
                ),
                forall|m: int| 0 <= m < done.len() ==> line_ok::<T>(#[trigger] done[m]),
                vstd::std_specs::hash::obeys_key_model::<String>()
                    && vstd::std_specs::hash::builds_valid_hashers::<
                    rustc_hash::FxBuildHasher,
                >() ==> map_reflects::<T>(map@, done),
            decreases n - pos,
        {
            let ghost suffix = content@.subrange(pos as int, n as int);
            let mut j: usize = pos;
            while j < n && content[j] != NL
                invariant
                    n == content@.len(),
                    pos <= j <= n,
                    forall|m: int| pos <= m < j ==> content@[m] != NL,
                decreases n - j,
            {
                j = j + 1;
            }
            let ghost line = content@.subrange(pos as int, j as int);
            proof {
                assert forall|m: int| 0 <= m < j - pos implies suffix[m] != NL by {
                    assert(suffix[m] == content@[pos + m]);
                }
                if (j as int) < n as int {
                    assert(suffix[j - pos] == content@[j as int]);
                }
                lemma_split_lines_front(suffix, j - pos);
                assert(suffix.subrange(0, j - pos) =~= line);
                if j < n {
                    assert(suffix.subrange(j - pos + 1, suffix.len() as int) =~= content@.subrange(
                        j + 1,
                        n as int,
                    ));
                    assert(split_lines(content@) =~= done.push(line) + split_lines(
                        content@.subrange(j + 1, n as int),
                    ));
                } else {
                    assert(split_lines(content@) =~= done.push(line) + Seq::<Seq<u8>>::empty());
                    assert(split_lines(content@) =~= done.push(line));
                }
                // this record is the one at position idx of the whole log
                assert(split_lines(content@)[idx as int] == line);
            }
            let mut ci: usize = pos;
            while ci < j && content[ci] != COMMA
                invariant
                    n == content@.len(),
                    pos <= ci <= j <= n,
                    forall|m: int| pos <= m < ci ==> content@[m] != COMMA,
                decreases j - ci,
            {
                ci = ci + 1;
            }
            proof {
                assert forall|m: int| 0 <= m < ci - pos implies line[m] != COMMA by {
                    assert(line[m] == content@[pos + m]);
                }
                if (ci as int) < j as int {
                    assert(line[ci - pos] == content@[ci as int]);
                }
                lemma_find_index_unique(line, COMMA, ci - pos);
            }
            if ci == j {
                proof {
                    assert(!line_has_payload(line));
                    assert(!line_ok::<T>(line));
                    assert(!scan_all_ok::<T>(content@));
                }
                let line_text = lossy_text(slice_subrange(content.as_slice(), pos, j));
                return Err(line_error(idx, line_text.as_str()));
            }
            proof {
                assert(line_has_payload(line));
                assert(line_key(line) =~= content@.subrange(pos as int, ci as int));
                assert(line_payload(line) =~= content@.subrange(ci + 1, j as int));
            }
            let payload = slice_subrange(content.as_slice(), ci + 1, j);
            let decoded = match T::decode(payload) {
                Ok(v) => v,
                Err(msg) => {
                    proof {
                        assert(!line_ok::<T>(line));
                        assert(!scan_all_ok::<T>(content@));
                    }
                    return Err(read_err(msg));
                },
            };
            let key_vec = slice_to_vec(slice_subrange(content.as_slice(), pos, ci));
            let key_text = match utf8_string(key_vec) {
                Some(s) => s,
                None => {
                    proof {
                        assert(!line_ok::<T>(line));
                        assert(!scan_all_ok::<T>(content@));
                    }
                    let line_text = lossy_text(slice_subrange(content.as_slice(), pos, j));
                    return Err(line_error(idx, line_text.as_str()));
                },
            };
            let ghost m0 = map@;
            let ghost kt = key_text;
            let ghost model0 = map_model::<T>(done);
            let ghost model1 = map_model::<T>(done.push(line));
            proof {
                assert(line_ok::<T>(line));
                assert(done.push(line).drop_last() =~= done);
                assert(done.push(line).last() == line);
                assert(vstd::utf8::encode_utf8(kt@) == line_key(line));
            }
            match decoded {
                Some(value) => {
                    let ghost val0 = value;
                    proof {
                        assert(T::decoded(line_payload(line)) == Some(Some(val0.deep_view())));
                        assert(model1 == model0.insert(line_key(line), val0.deep_view()));
                    }
                    map.insert(key_text, value);
                    proof {
                        if vstd::std_specs::hash::obeys_key_model::<String>()
                            && vstd::std_specs::hash::builds_valid_hashers::<
                            rustc_hash::FxBuildHasher,
                        >() {
                            assert(map@ == m0.insert(kt, val0));
                            lemma_map_step_set::<T>(m0, map@, done, line, kt, val0);
                        }
                    }
                },
                None => {
                    proof {
                        assert(T::decoded(line_payload(line)) == Some(None::<T::V>));
                        assert(model1 == model0.remove(line_key(line)));
                    }
                    map.remove(&key_text);
                    proof {
                        if vstd::std_specs::hash::obeys_key_model::<String>()
                            && vstd::std_specs::hash::builds_valid_hashers::<
                            rustc_hash::FxBuildHasher,
                        >() {
                            vstd::std_specs::hash::axiom_deref_key_removed::<String, T>(
                                m0,
                                map@,
                                &key_text,
                            );
                            assert(map@ == m0.remove(kt));
                            lemma_map_step_unset::<T>(m0, map@, done, line, kt);
                        }
                    }
                },
            }
            proof {
                done = done.push(line);
            }
            pos = if j < n {
                j + 1
            } else {
                n
            };
            idx = idx + 1;
        }
        proof {
            assert(content@.subrange(n as int, n as int).len() == 0);
            assert(split_lines(content@) =~= done);
        }
        Ok(map)
    }
}


/// One accepted record carrying a value extends a reflecting map by
/// exactly that binding.
proof fn lemma_map_step_set<T: StoreValue>(
    m0: Map<String, T>,
    m1: Map<String, T>,
    done: Seq<Seq<u8>>,
    line: Seq<u8>,
    kt: String,
    value: T,
)
    requires
        map_reflects::<T>(m0, done),
        line_has_payload(line),
        T::decoded(line_payload(line)) == Some(Some(value.deep_view())),
        vstd::utf8::encode_utf8(kt@) == line_key(line),
        m1 == m0.insert(kt, value),
    ensures
        map_reflects::<T>(m1, done.push(line)),
{
    let lines1 = done.push(line);
    assert(lines1.drop_last() =~= done);
    assert(lines1.last() == line);
    let model0 = map_model::<T>(done);
    let model1 = map_model::<T>(lines1);
    assert(model1 == model0.insert(line_key(line), value.deep_view()));
    assert forall|kb: Seq<u8>| #[trigger] model1.contains_key(kb) implies exists|k: String|
        #[trigger] m1.contains_key(k) && vstd::utf8::encode_utf8(k@) == kb && m1[k].deep_view()
            == model1[kb] by {
        if kb == line_key(line) {
            assert(m1.contains_key(kt) && vstd::utf8::encode_utf8(kt@) == kb
                && m1[kt].deep_view() == model1[kb]);
        } else {
            assert(map_model::<T>(done).contains_key(kb));
            let k1 = choose|k1: String|
                #[trigger] m0.contains_key(k1) && vstd::utf8::encode_utf8(k1@) == kb
                    && m0[k1].deep_view() == map_model::<T>(done)[kb];
            assert(k1 != kt) by {
                if k1 == kt {
                    assert(vstd::utf8::encode_utf8(k1@) == line_key(line));
                }
            }
            assert(m1.contains_key(k1) && vstd::utf8::encode_utf8(k1@) == kb
                && m1[k1].deep_view() == model1[kb]);
        }
    }
    assert forall|k: String| #[trigger] m1.contains_key(k) implies some_record_binds::<T>(
        lines1,
        vstd::utf8::encode_utf8(k@),
        m1[k].deep_view(),
    ) by {
        if k == kt {
            assert(lines1[done.len() as int] == line);
            assert(some_record_binds::<T>(lines1, vstd::utf8::encode_utf8(k@), m1[k].deep_view()));
        } else {
            assert(m0.contains_key(k) && m0[k] == m1[k]);
            lemma_binds_push::<T>(done, line, vstd::utf8::encode_utf8(k@), m1[k].deep_view());
        }
    }
}

/// One accepted tombstone record shrinks a reflecting map by at most its
/// key's binding.
proof fn lemma_map_step_unset<T: StoreValue>(
    m0: Map<String, T>,
    m1: Map<String, T>,
    done: Seq<Seq<u8>>,
    line: Seq<u8>,
    kt: String,
)
    requires
        map_reflects::<T>(m0, done),
        line_has_payload(line),
        T::decoded(line_payload(line)) == Some(None::<T::V>),
        vstd::utf8::encode_utf8(kt@) == line_key(line),
        m1 == m0.remove(kt),
    ensures
        map_reflects::<T>(m1, done.push(line)),
{
    let lines1 = done.push(line);
    assert(lines1.drop_last() =~= done);
    assert(lines1.last() == line);
    let model0 = map_model::<T>(done);
    let model1 = map_model::<T>(lines1);
    assert(model1 == model0.remove(line_key(line)));
    assert forall|kb: Seq<u8>| #[trigger] model1.contains_key(kb) implies exists|k: String|
        #[trigger] m1.contains_key(k) && vstd::utf8::encode_utf8(k@) == kb && m1[k].deep_view()
            == model1[kb] by {
        assert(map_model::<T>(done).contains_key(kb));
        assert(kb != line_key(line));
        let k1 = choose|k1: String|
            #[trigger] m0.contains_key(k1) && vstd::utf8::encode_utf8(k1@) == kb
                && m0[k1].deep_view() == map_model::<T>(done)[kb];
        assert(k1 != kt) by {
            if k1 == kt {
                assert(vstd::utf8::encode_utf8(k1@) == line_key(line));
            }
        }
        assert(m1.contains_key(k1) && vstd::utf8::encode_utf8(k1@) == kb && m1[k1].deep_view()
            == model1[kb]);
    }
    assert forall|k: String| #[trigger] m1.contains_key(k) implies some_record_binds::<T>(
        lines1,
        vstd::utf8::encode_utf8(k@),
        m1[k].deep_view(),
    ) by {
        assert(m0.contains_key(k) && m0[k] == m1[k]);
        lemma_binds_push::<T>(done, line, vstd::utf8::encode_utf8(k@), m1[k].deep_view());
    }
}

/// Relies on Arc::clone handing out a second pointer to the very same
/// allocation, so both handles carry the same value.
#[verifier::external_body]
fn arc_clone<A>(a: &std::sync::Arc<A>) -> (r: std::sync::Arc<A>)
    ensures
        r == *a,
{
    std::sync::Arc::clone(a)
}

/// The shared facade over one [`Log`]: a cheaply duplicated handle whose
/// copies all point at the same log behind the same mutual-exclusion lock,
/// so every operation sees a linearized view of the records.
///
/// The lock admits every log value: the log tolerates arbitrary content by
/// design, so the facade maintains no invariant beyond serialization. What
/// each operation computes against the content it finds under the lock is
/// stated on [`Log`], whose contracts the facade's methods go through.
#[verifier::reject_recursive_types(T)]
#[verifier::reject_recursive_types(B)]
pub struct Store<T: StoreValue, B: Backing> {
    inner: std::sync::Arc<vstd::rwlock::RwLock<Log<T, B>, spec_fn(Log<T, B>) -> bool>>,
}

impl<T: StoreValue, B: Backing> Store<T, B> {
    /// Every handle's lock admits every log value: the log tolerates
    /// arbitrary content by design, so handing a log back can never get
    /// stuck on an admission condition.
    #[verifier::type_invariant]
    spec fn wf(self) -> bool {
        forall|l: Log<T, B>| self.inner.inv(l)
    }
}

impl<T: StoreValue, B: Backing> Clone for Store<T, B> {
    /// Another handle to the same store: both share one log and one lock.
    fn clone(&self) -> (s: Self)
        ensures
            s == *self,
    {
        proof {
            use_type_invariant(self);
        }
        Store { inner: arc_clone(&self.inner) }
    }
}

impl<T: StoreValue, B: Backing> Store<T, B> {
    /// A store over a backing medium that holds an existing log, or
    /// nothing yet.
    pub fn new(backing: B) -> Store<T, B> {
        let log = Log::new(backing);
        let lock = vstd::rwlock::RwLock::new(log, Ghost(|l: Log<T, B>| true));
        proof {
            assert(forall|l: Log<T, B>| lock.inv(l));
        }
        Store { inner: std::sync::Arc::new(lock) }
    }

    /// Binds `key` to `data` by appending one record under the lock.
    pub fn set(&self, key: &str, data: &T) -> (r: Result<(), Error>)
        ensures
            !valid_key(key@) <==> (r matches Err(e) && e matches Error::InvalidKey(s) && s@
                == key@),
            r matches Err(e) ==> (e matches Error::InvalidKey(_) || e matches Error::Write(_)),
            valid_key(key@) && B::append_total() ==> r is Ok,
    {
        match validate_key(key) {
            Err(e) => {
                return Err(e);
            },
            Ok(_) => {},
        }
        proof {
            use_type_invariant(self);
        }
        let (mut log, handle) = self.inner.acquire_write();
        let r = log.set(key, data);
        handle.release_write(log);
        r
    }

    /// Appends a tombstone for `key` under the lock; unsetting a never-set
    /// key is legal and simply records a tombstone.
    pub fn unset(&self, key: &str) -> (r: Result<(), Error>)
        ensures
            !valid_key(key@) <==> (r matches Err(e) && e matches Error::InvalidKey(s) && s@
                == key@),
            r matches Err(e) ==> (e matches Error::InvalidKey(_) || e matches Error::Write(_)),
            valid_key(key@) && B::append_total() ==> r is Ok,
    {
        match validate_key(key) {
            Err(e) => {
                return Err(e);
            },
            Ok(_) => {},
        }
        proof {
            use_type_invariant(self);
        }
        let (mut log, handle) = self.inner.acquire_write();
        let r = log.unset(key);
        handle.release_write(log);
        r
    }

    /// Resolves `key` against the log under the lock. What the result is
    /// for the content found there is [`get_post`], stated on [`Log::get`];
    /// across handles only the lock's serialization orders the replays.
    pub fn get(&self, key: &str) -> (r: Result<Option<T>, Error>)
        ensures
            !valid_key(key@) <==> (r matches Err(e) && e matches Error::InvalidKey(s) && s@
                == key@),
            r matches Err(e) ==> (e matches Error::InvalidKey(_) || e matches Error::Read(_)),
    {
        match validate_key(key) {
            Err(e) => {
                return Err(e);
            },
            Ok(_) => {},
        }
        proof {
            use_type_invariant(self);
        }
        let (mut log, handle) = self.inner.acquire_write();
        let r = log.get(key);
        handle.release_write(log);
        r
    }

    /// Materializes the whole log under the lock, as [`Log::to_map`] does.
    pub fn to_map(&self) -> (r: Result<rustc_hash::FxHashMap<String, T>, Error>)
        ensures
            r matches Err(e) ==> e matches Error::Read(_),
    {
        proof {
            use_type_invariant(self);
        }
        let (mut log, handle) = self.inner.acquire_write();
        let r = log.to_map();
        handle.release_write(log);
        r
    }
}

impl<T: StoreValue> Store<T, MemBacking> {
    /// A store over a fresh, empty in-memory buffer; it always succeeds
    /// and its records live only as long as the store's last handle.
    pub fn in_memory() -> Store<T, MemBacking> {
        Store::new(MemBacking::new())
    }
}

} // verus!
