//! The scanner: replaying a whole log to resolve one key.

use vstd::prelude::*;

use crate::codec::StoreValue;
use crate::error::line_diag;
use crate::error::line_error;
use crate::error::lossy_text;
use crate::error::lossy_text_of;
use crate::error::read_err;
use crate::error::Error;
use crate::model::lemma_find_index_unique;
use crate::model::lemma_scan_lines_error_prefix;
use crate::model::lemma_split_lines_front;
use crate::model::line_has_payload;
use crate::model::line_key;
use crate::model::line_payload;
use crate::model::scan_lines;
use crate::model::scan_model;
use crate::model::scan_step;
use crate::model::split_lines;
use crate::model::ScanOutcome;
use crate::model::COMMA;
use crate::model::NL;
use vstd::slice::slice_index_get;
use vstd::slice::slice_subrange;
use vstd::string::StringSliceAdditionalSpecFns;

verus! {

/// Whether the bytes of `content` between `from` and `to` are exactly
/// `what`.
fn bytes_eq_at(content: &Vec<u8>, from: usize, to: usize, what: &[u8]) -> (r: bool)
    requires
        from <= to <= content@.len(),
    ensures
        r <==> content@.subrange(from as int, to as int) == what@,
{
    let ghost seg = content@.subrange(from as int, to as int);
    if to - from != what.len() {
        assert(seg.len() != what@.len());
        return false;
    }
    let mut t: usize = 0;
    while t < what.len()
        invariant
            from <= to <= content@.len(),
            to - from == what@.len(),
            t <= what@.len(),
            seg == content@.subrange(from as int, to as int),
            forall|m: int| 0 <= m < t ==> seg[m] == what@[m],
        decreases what@.len() - t,
    {
        let a = content[from + t];
        let b = *slice_index_get(what, t);
        if a != b {
            assert(seg[t as int] != what@[t as int]);
            return false;
        }
        t = t + 1;
    }
    assert(seg =~= what@);
    true
}

/// Resolves `key` against the log bytes `content`, as the scan model says:
/// the last record whose candidate key matches decides the value, and a
/// corrupt record surfaces an error only when its candidate key is exactly
/// the queried one.
pub fn scan_content<T: StoreValue>(content: &Vec<u8>, key: &str) -> (r: Result<Option<T>, Error>)
    ensures
        match scan_model::<T>(content@, key.spec_bytes()) {
            ScanOutcome::Value(ov) => r matches Ok(v) && v.deep_view() == ov,
            ScanOutcome::Malformed(i) => r matches Err(e) && (e matches Error::Read(m) && m@
                == line_diag(i, lossy_text_of(split_lines(content@)[i]))),
            ScanOutcome::Undecodable(_) => r matches Err(e) && e matches Error::Read(_),
        },
{
    let key_b: &[u8] = key.as_bytes();
    let n = content.len();
    let mut pos: usize = 0;
    let mut cur: Option<T> = None;
    let mut idx: usize = 0;
    let ghost mut done: Seq<Seq<u8>> = Seq::empty();
    proof {
        assert(content@.subrange(0, n as int) =~= content@);
        assert(done + split_lines(content@) =~= split_lines(content@));
    }
    while pos < n
        invariant
            n == content@.len(),
            pos <= n,
            idx <= pos,
            idx == done.len(),
            key_b@ == key.spec_bytes(),
            split_lines(content@) == done + split_lines(
                content@.subrange(pos as int, n as int),
            ),
            scan_lines::<T>(done, key_b@) == ScanOutcome::<T::V>::Value(cur.deep_view()),
        decreases n - pos,
    {
        let ghost suffix = content@.subrange(pos as int, n as int);
        // Find the end of this record: the next line feed, or the end.
        let mut j: usize = pos;
        while j < n && content[j] != NL
            invariant
                n == content@.len(),
                pos <= j <= n,
                forall|m: int| pos <= m < j ==> content@[m] != NL,
            decreases n - j,
        {
            j = j + 1;
        }
        let ghost line = content@.subrange(pos as int, j as int);
        proof {
            assert forall|m: int| 0 <= m < j - pos implies suffix[m] != NL by {
                assert(suffix[m] == content@[pos + m]);
            }
            if (j as int) < n as int {
                assert(suffix[j - pos] == content@[j as int]);
            }
            lemma_split_lines_front(suffix, j - pos);
            assert(suffix.subrange(0, j - pos) =~= line);
            if j < n {
                assert(suffix.subrange(j - pos + 1, suffix.len() as int) =~= content@.subrange(
                    j + 1,
                    n as int,
                ));
            }
            // After this record, the log's records are done + line + rest.
            if j < n {
                assert(split_lines(content@) =~= done.push(line) + split_lines(
                    content@.subrange(j + 1, n as int),
                ));
            } else {
                assert(split_lines(content@) =~= done.push(line) + Seq::<Seq<u8>>::empty());
                assert(split_lines(content@) =~= done.push(line));
            }
            assert(done.push(line).drop_last() =~= done);
        }
        // Find the record's first comma, if any.
        let mut ci: usize = pos;
        while ci < j && content[ci] != COMMA
            invariant
                n == content@.len(),
                pos <= ci <= j <= n,
                forall|m: int| pos <= m < ci ==> content@[m] != COMMA,
            decreases j - ci,
        {
            ci = ci + 1;
        }
        proof {
            assert forall|m: int| 0 <= m < ci - pos implies line[m] != COMMA by {
                assert(line[m] == content@[pos + m]);
            }
            if (ci as int) < j as int {
                assert(line[ci - pos] == content@[ci as int]);
            }
            lemma_find_index_unique(line, COMMA, ci - pos);
        }
        if ci == j {
            // No comma: the whole record is the candidate key, and it has
            // no payload. That is an error exactly for this key.
            proof {
                assert(!line_has_payload(line));
                assert(line_key(line) =~= line);
            }
            if bytes_eq_at(content, pos, j, key_b) {
                proof {
                    assert(scan_step::<T>(cur.deep_view(), line, key_b@, idx as int)
                        == ScanOutcome::<T::V>::Malformed(idx as int));
                    assert(scan_lines::<T>(done.push(line), key_b@)
                        == ScanOutcome::<T::V>::Malformed(idx as int));
                    if j < n {
                        lemma_scan_lines_error_prefix::<T>(
                            done.push(line),
                            split_lines(content@.subrange(j + 1, n as int)),
                            key_b@,
                        );
                    } else {
                        assert(done.push(line) + Seq::<Seq<u8>>::empty() =~= done.push(line));
                    }
                    assert(scan_model::<T>(content@, key_b@)
                        == ScanOutcome::<T::V>::Malformed(idx as int));
                    assert(split_lines(content@)[idx as int] == line);
                }
                let line_text = lossy_text(slice_subrange(content.as_slice(), pos, j));
                return Err(line_error(idx, line_text.as_str()));
            }
            proof {
                assert(line != key_b@);
                assert(line_key(line) != key_b@);
                assert(scan_step::<T>(cur.deep_view(), line, key_b@, idx as int)
                    == ScanOutcome::<T::V>::Value(cur.deep_view()));
                done = done.push(line);
            }
        } else {
            // A comma at ci: candidate key before it, payload after it.
            proof {
                assert(line_has_payload(line));
                assert(line_key(line) =~= content@.subrange(pos as int, ci as int));
                assert(line_payload(line) =~= content@.subrange(ci + 1, j as int));
            }
            if bytes_eq_at(content, pos, ci, key_b) {
                let payload = slice_subrange(content.as_slice(), ci + 1, j);
                match T::decode(payload) {
                    Ok(v) => {
                        proof {
                            assert(T::decoded(line_payload(line)) == Some(v.deep_view()));
                            assert(scan_step::<T>(cur.deep_view(), line, key_b@, idx as int)
                                == ScanOutcome::<T::V>::Value(v.deep_view()));
                            done = done.push(line);
                        }
                        cur = v;
                    },
                    Err(msg) => {
                        proof {
                            assert(T::decoded(line_payload(line)) is None);
                            assert(scan_step::<T>(cur.deep_view(), line, key_b@, idx as int)
                                == ScanOutcome::<T::V>::Undecodable(idx as int));
                            assert(scan_lines::<T>(done.push(line), key_b@)
                                == ScanOutcome::<T::V>::Undecodable(idx as int));
                            if j < n {
                                lemma_scan_lines_error_prefix::<T>(
                                    done.push(line),
                                    split_lines(content@.subrange(j + 1, n as int)),
                                    key_b@,
                                );
                            } else {
                                assert(done.push(line) + Seq::<Seq<u8>>::empty() =~= done.push(
                                    line,
                                ));
                            }
                            assert(scan_model::<T>(content@, key_b@)
                                == ScanOutcome::<T::V>::Undecodable(idx as int));
                        }
                        return Err(read_err(msg));
                    },
                }
            } else {
                proof {
                    assert(line_key(line) != key_b@);
                    assert(scan_step::<T>(cur.deep_view(), line, key_b@, idx as int)
                        == ScanOutcome::<T::V>::Value(cur.deep_view()));
                    done = done.push(line);
                }
            }
        }
        pos = if j < n {
            j + 1
        } else {
            n
        };
        idx = idx + 1;
    }
    proof {
        assert(content@.subrange(n as int, n as int).len() == 0);
        assert(split_lines(content@) =~= done);
    }
    Ok(cur)
}

} // verus!
