//! Lengths of the common bytes at two positions of a buffer
use vstd::prelude::*;

use crate::data::control::LONG_LENGTH_MAX;

verus! {

/// Width of the blocks that are compared at once
const USIZE_BYTES: usize = 8;

/// Width of the chunks that are compared at once
const LANES: usize = 16;

/// The `len` bytes at `a` equal the `len` bytes at `b`
pub open spec fn matches_for(buffer: Seq<u8>, a: int, b: int, len: int) -> bool {
    &&& 0 <= a
    &&& 0 <= b
    &&& 0 <= len
    &&& a + len <= buffer.len()
    &&& b + len <= buffer.len()
    &&& forall|k: int| 0 <= k < len ==> #[trigger] buffer[a + k] == buffer[b + k]
}

/// `r` is the number of bytes at `a` that equal those at `b`, counted up to
/// `max_len` and the end of the buffer
pub open spec fn is_match_length(buffer: Seq<u8>, a: int, b: int, max_len: int, r: int) -> bool {
    &&& r <= max_len
    &&& matches_for(buffer, a, b, r)
    &&& (r == max_len || a + r == buffer.len() || buffer[a + r] != buffer[b + r])
}

/// Index of the first byte where the two blocks differ, `None` if they are
/// equal
fn compare_block(src: &[u8], other: &[u8]) -> (r: Option<usize>)
    requires
        src@.len() == USIZE_BYTES,
        other@.len() == USIZE_BYTES,
    ensures
        r is None ==> src@ == other@,
        r matches Some(f) ==> f < USIZE_BYTES && src@[f as int] != other@[f as int] && forall|k: int|
            0 <= k < f ==> src@[k] == other@[k],
{
    let mut i: usize = 0;
    while i < USIZE_BYTES
        invariant
            i <= USIZE_BYTES,
            src@.len() == USIZE_BYTES,
            other@.len() == USIZE_BYTES,
            forall|k: int| 0 <= k < i ==> src@[k] == other@[k],
        decreases USIZE_BYTES - i,
    {
        if src[i] != other[i] {
            return Some(i);
        }
        i += 1;
    }
    assert(src@ =~= other@);
    None
}

/// Index of the first byte where the two chunks differ, `None` if they are
/// equal
fn match_length_blocks(src: &[u8], other: &[u8]) -> (r: Option<usize>)
    requires
        src@.len() == LANES,
        other@.len() == LANES,
    ensures
        r is None ==> forall|k: int| 0 <= k < LANES ==> src@[k] == other@[k],
        r matches Some(f) ==> f < LANES && src@[f as int] != other@[f as int] && forall|k: int|
            0 <= k < f ==> src@[k] == other@[k],
{
    let mut i: usize = 0;
    while i < LANES / USIZE_BYTES
        invariant
            i <= LANES / USIZE_BYTES,
            src@.len() == LANES,
            other@.len() == LANES,
            forall|k: int| 0 <= k < i * USIZE_BYTES ==> src@[k] == other@[k],
        decreases LANES / USIZE_BYTES - i,
    {
        let start = i * USIZE_BYTES;
        let s = &src[start..start + USIZE_BYTES];
        let c = &other[start..start + USIZE_BYTES];
        match compare_block(s, c) {
            Some(found) => {
                assert(s@[found as int] == src@[start + found]);
                assert forall|k: int| 0 <= k < start + found implies src@[k] == other@[k] by {
                    if k >= start {
                        assert(s@[k - start] == c@[k - start]);
                    }
                }
                return Some(start + found);
            },
            None => {
                assert forall|k: int| 0 <= k < start + USIZE_BYTES implies src@[k] == other@[k] by {
                    if k >= start {
                        assert(s@[k - start] == c@[k - start]);
                    }
                }
            },
        }
        i += 1;
    }
    None
}

/// Number of leading bytes that `a` and `b` have in common
fn count_equal_prefix(a: &[u8], b: &[u8]) -> (r: usize)
    ensures
        r <= a@.len(),
        r <= b@.len(),
        forall|k: int| 0 <= k < r ==> a@[k] == b@[k],
        r == a@.len() || r == b@.len() || a@[r as int] != b@[r as int],
{
    let mut i: usize = 0;
    while i < a.len() && i < b.len() && a[i] == b[i]
        invariant
            i <= a@.len(),
            i <= b@.len(),
            forall|k: int| 0 <= k < i ==> a@[k] == b@[k],
        decreases a@.len() - i,
    {
        i += 1;
    }
    i
}

proof fn lemma_chunk_in_bounds(c: int, len: int, lanes: int)
    requires
        lanes > 0,
        0 <= c < len / lanes,
        len >= 0,
    ensures
        c * lanes + lanes <= len,
{
    assert(c * lanes + lanes <= (len / lanes) * lanes) by (nonlinear_arith)
        requires
            c + 1 <= len / lanes,
            lanes > 0,
    ;
    vstd::arithmetic::div_mod::lemma_fundamental_div_mod(len, lanes);
}

/// Number of common bytes at `source` and `matched_pos`, up to `max_len`
/// and the end of the buffer, comparing whole blocks at a time
fn match_length_simd(buffer: &[u8], source: usize, matched_pos: usize, max_len: usize) -> (r: usize)
    requires
        matched_pos < source <= buffer@.len(),
    ensures
        is_match_length(buffer@, source as int, matched_pos as int, max_len as int, r as int),
{
    let ghost buf = buffer@;
    if buffer.len() - source > USIZE_BYTES {
        let first_src = &buffer[source..source + USIZE_BYTES];
        let first_other = &buffer[matched_pos..matched_pos + USIZE_BYTES];
        if let Some(found) = compare_block(first_src, first_other) {
            let r = if found < max_len {
                found
            } else {
                max_len
            };
            assert(matches_for(buf, source as int, matched_pos as int, r as int)) by {
                assert forall|k: int| 0 <= k < r implies #[trigger] buf[source + k] == buf[matched_pos
                    + k] by {
                    assert(first_src@[k] == first_other@[k]);
                }
            }
            assert(r == max_len || buf[source + r] != buf[matched_pos + r]) by {
                if r != max_len {
                    assert(first_src@[r as int] != first_other@[r as int]);
                    assert(first_src@[r as int] == buf[source + r]);
                    assert(first_other@[r as int] == buf[matched_pos + r]);
                }
            }
            return r;
        }
        assert forall|k: int| 0 <= k < USIZE_BYTES implies #[trigger] buf[source + k]
            == buf[matched_pos + k] by {
            assert(first_src@[k] == first_other@[k]);
        }
        if max_len <= USIZE_BYTES {
            return max_len;
        }
        let src_end = if max_len < buffer.len() - source {
            source + max_len
        } else {
            buffer.len()
        };
        let source_slice = &buffer[source + USIZE_BYTES..src_end];
        let match_slice = &buffer[matched_pos + USIZE_BYTES..buffer.len()];
        let chunks = source_slice.len() / LANES;
        let mut num = USIZE_BYTES;
        let mut c: usize = 0;
        while c < chunks
            invariant
                buf == buffer@,
                source_slice@ == buf.subrange(source + USIZE_BYTES, src_end as int),
                match_slice@ == buf.subrange(matched_pos + USIZE_BYTES, buf.len() as int),
                chunks == source_slice@.len() / (LANES as nat),
                matched_pos < source,
                source + USIZE_BYTES < buf.len(),
                source + USIZE_BYTES <= src_end <= buf.len(),
                src_end == source + max_len || src_end == buf.len(),
                src_end <= source + max_len,
                c <= chunks,
                num == USIZE_BYTES + c * LANES,
                num <= USIZE_BYTES + source_slice@.len(),
                matches_for(buf, source as int, matched_pos as int, num as int),
            decreases chunks - c,
        {
            proof {
                lemma_chunk_in_bounds(c as int, source_slice@.len() as int, LANES as int);
            }
            let start = c * LANES;
            let src = &source_slice[start..start + LANES];
            let other = &match_slice[start..start + LANES];
            assert forall|k: int| 0 <= k < LANES implies src@[k] == buf[source + num + k]
                && other@[k] == buf[matched_pos + num + k] by {}
            if let Some(found) = match_length_blocks(src, other) {
                let r = num + found;
                assert(matches_for(buf, source as int, matched_pos as int, r as int)) by {
                    assert forall|k: int| 0 <= k < r implies #[trigger] buf[source + k]
                        == buf[matched_pos + k] by {
                        if k >= num {
                            assert(src@[k - num] == other@[k - num]);
                        }
                    }
                }
                assert(src@[found as int] != other@[found as int]);
                assert(src@[found as int] == buf[source + r]);
                assert(other@[found as int] == buf[matched_pos + r]);
                assert(r < src_end - source);
                return r;
            }
            assert(matches_for(buf, source as int, matched_pos as int, num + LANES)) by {
                assert forall|k: int| 0 <= k < num + LANES implies #[trigger] buf[source + k]
                    == buf[matched_pos + k] by {
                    if k >= num {
                        assert(src@[k - num] == other@[k - num]);
                    }
                }
            }
            num += LANES;
            c += 1;
        }
        proof {
            vstd::arithmetic::div_mod::lemma_fundamental_div_mod(
                source_slice@.len() as int,
                LANES as int,
            );
            vstd::arithmetic::div_mod::lemma_mod_bound(
                source_slice@.len() as int,
                LANES as int,
            );
        }
        let rest_src = &source_slice[num - USIZE_BYTES..source_slice.len()];
        let rest_other = &match_slice[num - USIZE_BYTES..match_slice.len()];
        let count = count_equal_prefix(rest_src, rest_other);
        let r = count + num;
        assert forall|k: int| 0 <= k < rest_src@.len() implies rest_src@[k] == buf[source + num
            + k] by {}
        assert forall|k: int| 0 <= k < rest_other@.len() implies rest_other@[k] == buf[matched_pos
            + num + k] by {}
        assert(matches_for(buf, source as int, matched_pos as int, r as int)) by {
            assert forall|k: int| 0 <= k < r implies #[trigger] buf[source + k] == buf[matched_pos
                + k] by {
                if k >= num {
                    assert(rest_src@[k - num] == rest_other@[k - num]);
                }
            }
        }
        assert(r == max_len || source + r == buf.len() || buf[source + r] != buf[matched_pos + r])
            by {
            if count < rest_src@.len() && count < rest_other@.len() {
                assert(rest_src@[count as int] != rest_other@[count as int]);
            }
        }
        r
    } else {
        let src_end = if max_len < buffer.len() - source {
            source + max_len
        } else {
            buffer.len()
        };
        let source_slice = &buffer[source..src_end];
        let match_slice = &buffer[matched_pos..buffer.len()];
        let r = count_equal_prefix(source_slice, match_slice);
        assert(matches_for(buf, source as int, matched_pos as int, r as int)) by {
            assert forall|k: int| 0 <= k < r implies #[trigger] buf[source + k] == buf[matched_pos
                + k] by {
                assert(source_slice@[k] == match_slice@[k]);
            }
        }
        assert(r == max_len || source + r == buf.len() || buf[source + r] != buf[matched_pos + r])
            by {
            if r < source_slice@.len() {
                assert(source_slice@[r as int] != match_slice@[r as int]);
            }
        }
        r
    }
}

/// Find the number of common bytes between two positions in a buffer, up to
/// `max_len`, where the first `skip` bytes are taken to be common
pub fn match_length(
    buffer: &[u8],
    source: usize,
    matched_pos: usize,
    max_len: usize,
    skip: usize,
) -> (r: usize)
    requires
        matched_pos < source,
        skip <= max_len,
        source + skip <= buffer@.len(),
    ensures
        skip <= r,
        is_match_length(
            buffer@,
            source + skip,
            matched_pos + skip,
            max_len - skip,
            r - skip,
        ),
        matches_for(buffer@, source as int, matched_pos as int, skip as int) ==> is_match_length(
            buffer@,
            source as int,
            matched_pos as int,
            max_len as int,
            r as int,
        ),
{
    let _n = buffer.len();
    let r = match_length_simd(buffer, source + skip, matched_pos + skip, max_len - skip) + skip;
    proof {
        let buf = buffer@;
        if matches_for(buf, source as int, matched_pos as int, skip as int) {
            assert forall|k: int| 0 <= k < r implies #[trigger] buf[source + k] == buf[matched_pos
                + k] by {
                if k >= skip {
                    assert(buf[source + skip + (k - skip)] == buf[matched_pos + skip + (k - skip)]);
                }
            }
        }
    }
    r
}

/// Does the byte `skip` bytes after `source` equal the byte `skip` bytes
/// after `matched_pos`? `false` if the first is past the end of the buffer.
pub fn byte_offset_matches(buffer: &[u8], source: usize, matched_pos: usize, skip: usize) -> (r:
    bool)
    requires
        matched_pos < source,
    ensures
        r == (source + skip < buffer@.len() && buffer@[source + skip] == buffer@[matched_pos
            + skip]),
{
    if source >= buffer.len() || skip >= buffer.len() - source {
        return false;
    }
    let source_idx = source + skip;

    let match_idx = matched_pos + skip;

    buffer[source_idx] == buffer[match_idx]
}

/// Check for a sequence of bytes at `matched_pos` that matches exactly
/// `except_match_length` bytes with `source`.
///
/// For a position that matches exactly that many bytes and whose next byte
/// differs from the one after the same bytes at `bad_match_pos`, the result
/// is `except_match_length + 1`. Any other position gives its match length,
/// counted up to `except_match_length` bytes.
///
/// `skip` is the number of bytes already known to be matching
pub fn match_length_except(
    buffer: &[u8],
    source: usize,
    bad_match_pos: usize,
    matched_pos: usize,
    except_match_length: usize,
    skip: usize,
) -> (r: u16)
    requires
        matched_pos < source,
        matched_pos < bad_match_pos,
        skip <= except_match_length,
        except_match_length < usize::MAX,
        source + skip <= buffer@.len(),
    ensures
        ({
            let m = spec_match_length(buffer@, source as int, matched_pos as int, except_match_length + 1, skip as int);
            r == (if m == except_match_length {
                except_match_length + if bad_match_pos + except_match_length < buffer@.len()
                    && buffer@[bad_match_pos + except_match_length]
                    == buffer@[matched_pos + except_match_length] {
                    0int
                } else {
                    1int
                }
            } else if m < except_match_length {
                m
            } else {
                except_match_length as int
            }) as u16
        }),
{
    let match_len = match_length(buffer, source, matched_pos, except_match_length + 1, skip);
    proof {
        lemma_match_length_unique(buffer@, source as int, matched_pos as int, except_match_length + 1, skip as int, match_len as int);
    }
    (if match_len == except_match_length {
        except_match_length + if byte_offset_matches(
            buffer,
            bad_match_pos,
            matched_pos,
            except_match_length,
        ) {
            0
        } else {
            1
        }
    } else if match_len < except_match_length {
        match_len
    } else {
        except_match_length
    }) as u16
}

/// Check for a sequence of bytes at `matched_pos` that matches `source`, or
/// that matches it exactly `or_match_length` bytes and then goes on
/// differently from `or_match_pos`; in that case the result is one more than
/// the match length.
///
/// `skip` is the number of bytes already known to be matching
pub fn match_length_or(
    buffer: &[u8],
    source: usize,
    matched_pos: usize,
    or_match_pos: usize,
    or_match_length: usize,
    skip: usize,
) -> (r: u16)
    requires
        matched_pos < source,
        matched_pos < or_match_pos,
        skip <= LONG_LENGTH_MAX,
        source + skip <= buffer@.len(),
    ensures
        ({
            let m = spec_match_length(buffer@, source as int, matched_pos as int, LONG_LENGTH_MAX as int, skip as int);
            r == if m == or_match_length {
                m + if or_match_pos + m < buffer@.len() && buffer@[or_match_pos + m]
                    == buffer@[matched_pos + m] {
                    0int
                } else {
                    1int
                }
            } else {
                m
            }
        }),
{
    let match_len = match_length(buffer, source, matched_pos, LONG_LENGTH_MAX as usize, skip);
    proof {
        lemma_match_length_unique(buffer@, source as int, matched_pos as int, LONG_LENGTH_MAX as int, skip as int, match_len as int);
    }
    (if match_len == or_match_length {
        match_len + if byte_offset_matches(buffer, or_match_pos, matched_pos, match_len) {
            0
        } else {
            1
        }
    } else {
        match_len
    }) as u16
}

/// Number of leading bytes at `a` that equal those at `b`, counted up to
/// `max_len` and the end of the buffer
pub open spec fn run_length(buffer: Seq<u8>, a: int, b: int, max_len: int) -> int
    decreases max_len,
{
    if max_len <= 0 || a < 0 || b < 0 || a >= buffer.len() || b >= buffer.len() || buffer[a]
        != buffer[b] {
        0
    } else {
        1 + run_length(buffer, a + 1, b + 1, max_len - 1)
    }
}

/// The number of common bytes at `a` and `b` counted from `skip` bytes on, up
/// to `max_len` and the end of the buffer, plus `skip`
pub open spec fn spec_match_length(buffer: Seq<u8>, a: int, b: int, max_len: int, skip: int) -> int {
    skip + run_length(buffer, a + skip, b + skip, max_len - skip)
}

/// Law: a match length is the run length
pub proof fn lemma_is_match_length_run(buffer: Seq<u8>, a: int, b: int, max_len: int, r: int)
    requires
        b <= a,
        is_match_length(buffer, a, b, max_len, r),
    ensures
        r == run_length(buffer, a, b, max_len),
    decreases r,
{
    if r > 0 {
        assert(buffer[a + 0] == buffer[b + 0]);
        assert(is_match_length(buffer, a + 1, b + 1, max_len - 1, r - 1)) by {
            assert forall|k: int| 0 <= k < r - 1 implies #[trigger] buffer[(a + 1) + k] == buffer[(b
                + 1) + k] by {
                assert(buffer[a + (k + 1)] == buffer[b + (k + 1)]);
            }
        }
        lemma_is_match_length_run(buffer, a + 1, b + 1, max_len - 1, r - 1);
    }
}

/// The result of [match_length] is the one [spec_match_length] gives
proof fn lemma_match_length_unique(buffer: Seq<u8>, a: int, b: int, max_len: int, skip: int, r: int)
    requires
        b <= a,
        skip <= r,
        is_match_length(buffer, a + skip, b + skip, max_len - skip, r - skip),
    ensures
        spec_match_length(buffer, a, b, max_len, skip) == r,
{
    lemma_is_match_length_run(buffer, a + skip, b + skip, max_len - skip, r - skip);
}

/// The run length is a match length
pub proof fn lemma_run_length_is_match(buffer: Seq<u8>, a: int, b: int, max_len: int)
    requires
        0 <= b < a <= buffer.len(),
        max_len >= 0,
    ensures
        is_match_length(buffer, a, b, max_len, run_length(buffer, a, b, max_len)),
    decreases max_len,
{
    if max_len > 0 && a < buffer.len() && buffer[a] == buffer[b] {
        lemma_run_length_is_match(buffer, a + 1, b + 1, max_len - 1);
        let r = run_length(buffer, a, b, max_len);
        assert forall|k: int| 0 <= k < r implies #[trigger] buffer[a + k] == buffer[b + k] by {
            if k > 0 {
                assert(buffer[a + 1 + (k - 1)] == buffer[b + 1 + (k - 1)]);
            }
        }
    }
}

/// Law: when the first `skip` bytes match, [spec_match_length] is the match
/// length
pub proof fn lemma_spec_match_length(buffer: Seq<u8>, a: int, b: int, max_len: int, skip: int)
    requires
        0 <= b < a,
        0 <= skip <= max_len,
        a + skip <= buffer.len(),
        matches_for(buffer, a, b, skip),
    ensures
        is_match_length(buffer, a, b, max_len, spec_match_length(buffer, a, b, max_len, skip)),
{
    lemma_run_length_is_match(buffer, a + skip, b + skip, max_len - skip);
    let r = spec_match_length(buffer, a, b, max_len, skip);
    assert forall|k: int| 0 <= k < r implies #[trigger] buffer[a + k] == buffer[b + k] by {
        if k >= skip {
            assert(buffer[a + skip + (k - skip)] == buffer[b + skip + (k - skip)]);
        }
    }
}

} // verus!
