//! RLE-delta stage: encodes a byte stream as an initial value followed by
//! `(count, delta)` pairs over 8-bit wrap-around arithmetic.
//!
//! A run of equal consecutive deltas is stored as one pair; runs are capped
//! at a count of 255, so every count fits in one byte. The encoded stream
//! always has odd length: one leading byte plus two bytes per pair.

use vstd::prelude::*;

verus! {

/// Error cases of `rle_delta_compression`.
#[derive(Debug)]
pub enum RleCompressionError {
    /// The input was empty.
    EmptyInput,
}

/// Error cases of `rle_delta_decompression`.
#[derive(Debug)]
pub enum RleDecompressionError {
    /// The input was empty.
    EmptyInput,
    /// The input length is even or below three; carries that length.
    InvalidInputLength(usize),
}

/// Addition of a delta to a byte, wrapping modulo 256.
pub open spec fn wadd(a: u8, d: u8) -> u8 {
    ((a + d) % 256) as u8
}

/// Difference of two bytes, wrapping modulo 256.
pub open spec fn wsub(a: u8, b: u8) -> u8 {
    (((a - b) % 256 + 256) % 256) as u8
}

/// The wrap-around differences of consecutive bytes.
pub open spec fn deltas(x: Seq<u8>) -> Seq<u8>
    recommends
        x.len() >= 1,
{
    Seq::new((x.len() - 1) as nat, |i: int| wsub(x[i + 1], x[i]))
}

/// Pair encoding of a delta sequence, given the count and value of the
/// currently open run.
pub open spec fn rle_encode_pairs(ds: Seq<u8>, count: u8, prev: u8) -> Seq<u8>
    recommends
        1 <= count,
    decreases ds.len(),
{
    if ds.len() == 0 {
        seq![count, prev]
    } else if ds[0] == prev && count < 255 {
        rle_encode_pairs(ds.skip(1), (count + 1) as u8, prev)
    } else {
        seq![count, prev] + rle_encode_pairs(ds.skip(1), 1u8, ds[0])
    }
}

/// What `rle_delta_compression` returns on inputs of length at least two.
pub open spec fn rle_encode_spec(x: Seq<u8>) -> Seq<u8>
    recommends
        x.len() >= 2,
{
    seq![x[0]] + rle_encode_pairs(deltas(x).skip(1), 1u8, deltas(x)[0])
}

/// The bytes emitted by applying `delta` to `start` `count` times.
pub open spec fn run_spec(start: u8, delta: u8, count: int) -> Seq<u8>
    decreases count,
{
    if count <= 0 {
        Seq::empty()
    } else {
        seq![wadd(start, delta)] + run_spec(wadd(start, delta), delta, count - 1)
    }
}

/// The value reached after applying `delta` to `start` `count` times.
pub open spec fn run_end(start: u8, delta: u8, count: int) -> u8
    decreases count,
{
    if count <= 0 {
        start
    } else {
        run_end(wadd(start, delta), delta, count - 1)
    }
}

/// Expansion of a sequence of `(count, delta)` pairs from a current value.
pub open spec fn rle_decode_pairs(pairs: Seq<u8>, cur: u8) -> Seq<u8>
    decreases pairs.len(),
{
    if pairs.len() < 2 {
        Seq::empty()
    } else {
        run_spec(cur, pairs[1], pairs[0] as int) + rle_decode_pairs(
            pairs.skip(2),
            run_end(cur, pairs[1], pairs[0] as int),
        )
    }
}

/// What `rle_delta_decompression` returns, as a function of the input bytes.
pub open spec fn rle_decode_spec(data: Seq<u8>) -> Result<Seq<u8>, RleDecompressionError> {
    if data.len() == 0 {
        Err(RleDecompressionError::EmptyInput)
    } else if data.len() < 3 || data.len() % 2 != 1 {
        Err(RleDecompressionError::InvalidInputLength(data.len() as usize))
    } else {
        Ok(seq![data[0]] + rle_decode_pairs(data.skip(1), data[0]))
    }
}

/// Sum of the count bytes of a pair sequence.
pub open spec fn sum_counts(pairs: Seq<u8>) -> int
    decreases pairs.len(),
{
    if pairs.len() < 2 {
        0
    } else {
        pairs[0] as int + sum_counts(pairs.skip(2))
    }
}

proof fn lemma_wrap_inverse(a: u8, b: u8)
    ensures
        wadd(a, wsub(b, a)) == b,
{
    let d = wsub(b, a) as int;
    assert(d == (((b - a) % 256 + 256) % 256));
    assert((a + d) % 256 == b);
}

proof fn lemma_run_snoc(start: u8, delta: u8, c: int)
    requires
        c >= 0,
    ensures
        run_spec(start, delta, c + 1) == run_spec(start, delta, c).push(
            wadd(run_end(start, delta, c), delta),
        ),
        run_end(start, delta, c + 1) == wadd(run_end(start, delta, c), delta),
    decreases c,
{
    let s = wadd(start, delta);
    if c == 0 {
        assert(run_spec(s, delta, 0) =~= Seq::<u8>::empty());
        assert(run_end(s, delta, 0) == s);
        assert(run_end(start, delta, 1) == run_end(s, delta, 0));
        assert(run_spec(start, delta, 1) =~= run_spec(start, delta, 0).push(wadd(start, delta)));
    } else {
        lemma_run_snoc(s, delta, c - 1);
        assert(run_end(start, delta, c) == run_end(s, delta, c - 1));
        assert(run_end(start, delta, c + 1) == run_end(s, delta, c));
        assert(run_spec(start, delta, c + 1) =~= run_spec(start, delta, c).push(
            wadd(run_end(start, delta, c), delta),
        ));
    }
}

proof fn lemma_run_len(start: u8, delta: u8, c: int)
    requires
        c >= 0,
    ensures
        run_spec(start, delta, c).len() == c,
    decreases c,
{
    if c > 0 {
        lemma_run_len(wadd(start, delta), delta, c - 1);
    }
}

/// A run of equal deltas decodes to the matching segment of the source bytes.
proof fn lemma_run_matches(x: Seq<u8>, a: int, c: int, delta: u8)
    requires
        0 <= a,
        0 <= c,
        a + c <= x.len() - 1,
        forall|j: int| a <= j < a + c ==> deltas(x)[j] == delta,
    ensures
        run_spec(x[a], delta, c) == x.subrange(a + 1, a + c + 1),
        run_end(x[a], delta, c) == x[a + c],
    decreases c,
{
    if c == 0 {
        assert(run_spec(x[a], delta, 0) =~= x.subrange(a + 1, a + 1));
    } else {
        assert(deltas(x)[a] == delta);
        lemma_wrap_inverse(x[a], x[a + 1]);
        assert(wadd(x[a], delta) == x[a + 1]);
        lemma_run_matches(x, a + 1, c - 1, delta);
        assert(run_spec(x[a], delta, c) =~= x.subrange(a + 1, a + c + 1));
    }
}

proof fn lemma_encode_pairs_shape(ds: Seq<u8>, count: u8, prev: u8)
    ensures
        rle_encode_pairs(ds, count, prev).len() % 2 == 0,
        rle_encode_pairs(ds, count, prev).len() >= 2,
    decreases ds.len(),
{
    if ds.len() == 0 {
    } else if ds[0] == prev && count < 255 {
        lemma_encode_pairs_shape(ds.skip(1), (count + 1) as u8, prev);
    } else {
        lemma_encode_pairs_shape(ds.skip(1), 1u8, ds[0]);
    }
}

/// Decoding the encoding of the still-unprocessed deltas from the value at
/// the start of the open run recovers the matching suffix of the source.
proof fn lemma_rle_rt_aux(x: Seq<u8>, i: int, count: int, prev: u8)
    requires
        x.len() >= 2,
        1 <= count <= 255,
        count <= i <= x.len() - 1,
        forall|j: int| i - count <= j < i ==> deltas(x)[j] == prev,
    ensures
        rle_decode_pairs(rle_encode_pairs(deltas(x).skip(i), count as u8, prev), x[i - count])
            == x.skip(i - count + 1),
    decreases x.len() - 1 - i,
{
    let d = deltas(x);
    let m = x.len() - 1;
    if i == m {
        assert(d.skip(i) =~= Seq::<u8>::empty());
        let enc = seq![count as u8, prev];
        lemma_run_matches(x, i - count, count, prev);
        assert(enc.skip(2) =~= Seq::<u8>::empty());
        assert(rle_decode_pairs(enc, x[i - count]) == run_spec(x[i - count], prev, count)
            + rle_decode_pairs(Seq::<u8>::empty(), run_end(x[i - count], prev, count)));
        assert(x.subrange(i - count + 1, i + 1) + Seq::<u8>::empty() =~= x.skip(i - count + 1));
    } else {
        assert(d.skip(i)[0] == d[i]);
        assert(d.skip(i).skip(1) =~= d.skip(i + 1));
        if d[i] == prev && count < 255 {
            lemma_rle_rt_aux(x, i + 1, count + 1, prev);
        } else {
            lemma_rle_rt_aux(x, i + 1, 1, d[i]);
            lemma_run_matches(x, i - count, count, prev);
            let enc_rest = rle_encode_pairs(d.skip(i + 1), 1u8, d[i]);
            let enc = seq![count as u8, prev] + enc_rest;
            assert(rle_encode_pairs(d.skip(i), count as u8, prev) == enc);
            assert(enc[0] == count as u8);
            assert(enc[1] == prev);
            assert(enc.len() >= 2);
            assert(enc.skip(2) =~= enc_rest);
            assert(rle_decode_pairs(enc, x[i - count]) == run_spec(x[i - count], prev, count)
                + rle_decode_pairs(enc_rest, run_end(x[i - count], prev, count)));
            assert(x.subrange(i - count + 1, i + 1) + x.skip(i + 1) =~= x.skip(i - count + 1));
        }
    }
}

/// Decoding an RLE-delta encoding recovers the original bytes: the law that
/// `rle_delta_decompression` inverts `rle_delta_compression` on every input
/// of length at least two.
pub proof fn lemma_rle_round_trip(x: Seq<u8>)
    requires
        x.len() >= 2,
    ensures
        rle_decode_spec(rle_encode_spec(x)) == Ok::<_, RleDecompressionError>(x),
{
    let d = deltas(x);
    let enc = rle_encode_spec(x);
    lemma_encode_pairs_shape(d.skip(1), 1u8, d[0]);
    assert(enc.len() >= 3);
    assert(enc.len() % 2 == 1);
    lemma_rle_rt_aux(x, 1, 1, d[0]);
    assert(enc[0] == x[0]);
    assert(enc.skip(1) =~= rle_encode_pairs(d.skip(1), 1u8, d[0]));
    assert(seq![x[0]] + x.skip(1) =~= x);
}

/// The decoded length of a well-formed stream is one more than the sum of
/// its count bytes.
pub proof fn lemma_rle_decoded_length(data: Seq<u8>)
    requires
        data.len() >= 3,
        data.len() % 2 == 1,
    ensures
        rle_decode_spec(data) matches Ok(out) && out.len() == 1 + sum_counts(data.skip(1)),
{
    lemma_decode_pairs_len(data.skip(1), data[0]);
}

proof fn lemma_decode_pairs_len(pairs: Seq<u8>, cur: u8)
    ensures
        rle_decode_pairs(pairs, cur).len() == sum_counts(pairs),
    decreases pairs.len(),
{
    if pairs.len() < 2 {
    } else {
        lemma_run_len(cur, pairs[1], pairs[0] as int);
        lemma_decode_pairs_len(pairs.skip(2), run_end(cur, pairs[1], pairs[0] as int));
    }
}

fn wrap_add(a: u8, d: u8) -> (r: u8)
    ensures
        r == wadd(a, d),
{
    (((a as u16) + (d as u16)) % 256) as u8
}

fn wrap_sub(a: u8, b: u8) -> (r: u8)
    ensures
        r == wsub(a, b),
{
    (((a as u16) + 256 - (b as u16)) % 256) as u8
}

/// Encodes a byte stream as its first byte followed by `(count, delta)`
/// pairs, one pair per maximal run of equal wrap-around deltas, with counts
/// capped at 255.
///
/// The empty input is rejected; the single-byte input has no defined
/// encoding and is excluded by precondition.
pub fn rle_delta_compression(data: &Vec<u8>) -> (r: Result<Vec<u8>, RleCompressionError>)
    requires
        data@.len() != 1,
    ensures
        match r {
            Ok(out) => data@.len() >= 2 && out@ == rle_encode_spec(data@),
            Err(e) => data@.len() == 0 && e == RleCompressionError::EmptyInput,
        },
{
    if data.len() == 0 {
        return Err(RleCompressionError::EmptyInput);
    }
    let ghost d = deltas(data@);
    let mut encoded: Vec<u8> = Vec::new();
    encoded.push(data[0]);
    let mut count: u8 = 1;
    let mut prev_delta: u8 = wrap_sub(data[1], data[0]);
    let mut i: usize = 1;
    proof {
        assert(encoded@ =~= seq![data@[0]]);
    }
    while i < data.len() - 1
        invariant
            1 <= i <= data@.len() - 1,
            data@.len() >= 2,
            data@.len() <= usize::MAX,
            d == deltas(data@),
            1 <= count,
            rle_encode_spec(data@) == encoded@ + rle_encode_pairs(
                d.skip(i as int),
                count,
                prev_delta,
            ),
        decreases data@.len() - 1 - i,
    {
        let current_delta = wrap_sub(data[i + 1], data[i]);
        proof {
            assert(current_delta == d[i as int]);
            assert(d.skip(i as int)[0] == d[i as int]);
            assert(d.skip(i as int).skip(1) =~= d.skip(i as int + 1));
        }
        if current_delta == prev_delta && count < 255 {
            count = count + 1;
        } else {
            let ghost pre = encoded@;
            encoded.push(count);
            encoded.push(prev_delta);
            proof {
                assert(encoded@ =~= pre + seq![count, prev_delta]);
                assert(pre + (seq![count, prev_delta] + rle_encode_pairs(
                    d.skip(i as int + 1),
                    1u8,
                    d[i as int],
                )) =~= encoded@ + rle_encode_pairs(d.skip(i as int + 1), 1u8, d[i as int]));
            }
            count = 1;
            prev_delta = current_delta;
        }
        i += 1;
    }
    let ghost pre = encoded@;
    encoded.push(count);
    encoded.push(prev_delta);
    proof {
        assert(d.skip(data@.len() - 1) =~= Seq::<u8>::empty());
        assert(encoded@ =~= pre + seq![count, prev_delta]);
    }
    Ok(encoded)
}

/// Decodes a stream of one initial byte plus `(count, delta)` pairs, emitting
/// `count` successive wrap-around additions of `delta` for each pair.
///
/// The empty input, inputs shorter than three bytes, and inputs of even
/// length are rejected.
pub fn rle_delta_decompression(data: &Vec<u8>) -> (r: Result<Vec<u8>, RleDecompressionError>)
    ensures
        match r {
            Ok(out) => rle_decode_spec(data@) == Ok::<_, RleDecompressionError>(out@),
            Err(e) => rle_decode_spec(data@) == Err::<Seq<u8>, _>(e),
        },
{
    if data.len() == 0 {
        return Err(RleDecompressionError::EmptyInput);
    }
    if data.len() < 3 || data.len() % 2 != 1 {
        return Err(RleDecompressionError::InvalidInputLength(data.len()));
    }
    let mut decoded: Vec<u8> = Vec::new();
    decoded.push(data[0]);
    let mut current_value: u8 = data[0];
    let mut i: usize = 1;
    proof {
        assert(decoded@ =~= seq![data@[0]]);
    }
    while i < data.len()
        invariant
            1 <= i <= data@.len(),
            i % 2 == 1,
            data@.len() % 2 == 1,
            data@.len() >= 3,
            data@.len() <= usize::MAX,
            seq![data@[0]] + rle_decode_pairs(data@.skip(1), data@[0]) == decoded@
                + rle_decode_pairs(data@.skip(i as int), current_value),
        decreases data@.len() - i,
    {
        proof {
            assert(i as int + 1 < data@.len());
        }
        let count = data[i];
        let delta = data[i + 1];
        let ghost pre_cur = current_value;
        let ghost pre_dec = decoded@;
        proof {
            assert(data@.skip(i as int)[0] == data@[i as int]);
            assert(data@.skip(i as int)[1] == data@[i as int + 1]);
            assert(data@.skip(i as int).skip(2) =~= data@.skip(i as int + 2));
            assert(pre_dec + run_spec(pre_cur, delta, 0) =~= pre_dec);
        }
        let mut k: u8 = 0;
        while k < count
            invariant
                k <= count,
                decoded@ == pre_dec + run_spec(pre_cur, delta, k as int),
                current_value == run_end(pre_cur, delta, k as int),
            decreases count - k,
        {
            current_value = wrap_add(current_value, delta);
            decoded.push(current_value);
            proof {
                lemma_run_snoc(pre_cur, delta, k as int);
            }
            k += 1;
        }
        proof {
            assert(pre_dec + (run_spec(pre_cur, delta, count as int) + rle_decode_pairs(
                data@.skip(i as int + 2),
                run_end(pre_cur, delta, count as int),
            )) =~= decoded@ + rle_decode_pairs(
                data@.skip(i as int + 2),
                run_end(pre_cur, delta, count as int),
            ));
        }
        i += 2;
    }
    proof {
        assert(data@.skip(data@.len() as int) =~= Seq::<u8>::empty());
        assert(decoded@ + Seq::<u8>::empty() =~= decoded@);
    }
    Ok(decoded)
}

} // verus!
