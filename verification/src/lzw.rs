//! LZW stage: dictionary compression over fixed 16-bit little-endian codes.
//!
//! Codes 0..256 stand for the single bytes; codes 256..65535 are compound
//! dictionary entries assigned in encounter order. Each compound entry
//! extends the string of an earlier code by one byte, so the dictionary is
//! a sequence of `(prefix code, suffix byte)` pairs and the string of a code
//! is read off by following prefix links. Code 65535 is never assigned: when
//! a new entry would get it, the stream is rejected as saturated.

use vstd::prelude::*;

use crate::bytes::push_all;

verus! {

/// Error cases of `lzw_compression`.
#[derive(Debug)]
pub enum LzwCompressionError {
    /// The dictionary reached the maximum code value while input remained.
    DictionaryOverflow,
    /// The input cannot be processed because of its size.
    InputTooLarge,
}

/// Error cases of `lzw_decompression`.
#[derive(Debug)]
pub enum LzwDecompressionError {
    /// The stream ends in the middle of a 16-bit code; carries the byte
    /// position of the incomplete code.
    IncompleteCode { position: usize },
    /// A code refers to an entry the dictionary does not hold; carries the
    /// code and the dictionary size at that point.
    InvalidCode { code: usize, dict_size: usize },
    /// The dictionary reached the maximum code value while codes remained.
    DictionaryOverflow,
}

/// Well-formed compound entries: entry `j` (standing for code `256 + j`)
/// refers back to a strictly earlier code.
pub open spec fn wf_entries(es: Seq<(u16, u8)>) -> bool {
    forall|j: int| 0 <= j < es.len() ==> (es[j].0 as int) < 256 + j
}

/// The byte string a code stands for: a singleton below 256, otherwise the
/// parent's string extended by the entry's suffix byte.
pub open spec fn string_of(es: Seq<(u16, u8)>, code: int) -> Seq<u8>
    recommends
        wf_entries(es),
        0 <= code < 256 + es.len(),
    decreases code,
{
    if 0 <= code < 256 {
        seq![code as u8]
    } else if 256 <= code < 256 + es.len() && (es[code - 256].0 as int) < code {
        string_of(es, es[code - 256].0 as int) + seq![es[code - 256].1]
    } else {
        Seq::empty()
    }
}

/// First position at or after `j` whose entry equals `(cur, b)`.
pub open spec fn find_child_from(es: Seq<(u16, u8)>, cur: u16, b: u8, j: int) -> Option<int>
    decreases es.len() - j,
{
    if j < 0 || j >= es.len() {
        None
    } else if es[j] == (cur, b) {
        Some(j)
    } else {
        find_child_from(es, cur, b, j + 1)
    }
}

/// First entry extending code `cur` by byte `b`, if any.
pub open spec fn find_child(es: Seq<(u16, u8)>, cur: u16, b: u8) -> Option<int> {
    find_child_from(es, cur, b, 0)
}

/// The codes the encoder emits for the remaining input `s`, given the
/// dictionary built so far and the code of the current match; `None` when
/// the dictionary saturates first.
pub open spec fn lzw_enc_go(s: Seq<u8>, es: Seq<(u16, u8)>, cur: u16) -> Option<Seq<u16>>
    decreases s.len(),
{
    if s.len() == 0 {
        Some(seq![cur])
    } else {
        let b = s[0];
        match find_child(es, cur, b) {
            Some(j) => lzw_enc_go(s.skip(1), es, (256 + j) as u16),
            None => {
                if 256 + es.len() < 65535 {
                    match lzw_enc_go(s.skip(1), es.push((cur, b)), b as u16) {
                        Some(rest) => Some(seq![cur] + rest),
                        None => None,
                    }
                } else {
                    None
                }
            },
        }
    }
}

/// The code sequence `lzw_compression` emits, or `None` on saturation.
pub open spec fn lzw_encode_codes(x: Seq<u8>) -> Option<Seq<u16>> {
    if x.len() == 0 {
        Some(Seq::empty())
    } else {
        lzw_enc_go(x.skip(1), Seq::empty(), x[0] as u16)
    }
}

/// 16-bit codes packed as little-endian byte pairs.
pub open spec fn le_bytes_of_codes(cs: Seq<u16>) -> Seq<u8>
    decreases cs.len(),
{
    if cs.len() == 0 {
        Seq::empty()
    } else {
        seq![(cs[0] % 256) as u8, (cs[0] / 256) as u8] + le_bytes_of_codes(cs.skip(1))
    }
}

/// What `lzw_compression` returns: the packed code stream, or `None` when
/// the dictionary saturates.
pub open spec fn lzw_encode_spec(x: Seq<u8>) -> Option<Seq<u8>> {
    match lzw_encode_codes(x) {
        Some(cs) => Some(le_bytes_of_codes(cs)),
        None => None,
    }
}

/// The decoder's walk over the byte stream from position `pos`, given the
/// dictionary built so far and the previously read code.
pub open spec fn lzw_dec_go(data: Seq<u8>, pos: int, es: Seq<(u16, u8)>, prev: u16) -> Result<
    Seq<u8>,
    LzwDecompressionError,
>
    decreases data.len() - pos,
{
    if pos >= data.len() {
        Ok(Seq::empty())
    } else if pos + 1 >= data.len() {
        Err(LzwDecompressionError::IncompleteCode { position: pos as usize })
    } else {
        let c = data[pos] as int + 256 * (data[pos + 1] as int);
        let dlen = 256 + es.len() as int;
        if c < dlen || (c == dlen && dlen < 65535) {
            let cur_string = if c < dlen {
                string_of(es, c)
            } else {
                string_of(es, prev as int) + seq![string_of(es, prev as int)[0]]
            };
            if dlen < 65535 {
                match lzw_dec_go(data, pos + 2, es.push((prev, cur_string[0])), c as u16) {
                    Ok(rest) => Ok(cur_string + rest),
                    Err(e) => Err(e),
                }
            } else {
                Err(LzwDecompressionError::DictionaryOverflow)
            }
        } else {
            Err(LzwDecompressionError::InvalidCode { code: c as usize, dict_size: dlen as usize })
        }
    }
}

/// What `lzw_decompression` returns, as a function of the input bytes.
pub open spec fn lzw_decode_spec(data: Seq<u8>) -> Result<Seq<u8>, LzwDecompressionError> {
    if data.len() == 0 {
        Ok(Seq::empty())
    } else if data.len() == 1 {
        Err(LzwDecompressionError::IncompleteCode { position: 0 })
    } else {
        let c0 = data[0] as int + 256 * (data[1] as int);
        if c0 >= 256 {
            Err(LzwDecompressionError::InvalidCode { code: c0 as usize, dict_size: 256 })
        } else {
            match lzw_dec_go(data, 2, Seq::empty(), c0 as u16) {
                Ok(rest) => Ok(seq![c0 as u8] + rest),
                Err(e) => Err(e),
            }
        }
    }
}

proof fn lemma_string_of_nonempty(es: Seq<(u16, u8)>, code: int)
    requires
        wf_entries(es),
        0 <= code < 256 + es.len(),
    ensures
        string_of(es, code).len() >= 1,
    decreases code,
{
    if code < 256 {
    } else {
        lemma_string_of_nonempty(es, es[code - 256].0 as int);
    }
}

proof fn lemma_string_of_push(es: Seq<(u16, u8)>, e: (u16, u8), code: int)
    requires
        wf_entries(es),
        0 <= code < 256 + es.len(),
    ensures
        string_of(es.push(e), code) == string_of(es, code),
    decreases code,
{
    if code < 256 {
    } else {
        assert(es.push(e)[code - 256] == es[code - 256]);
        lemma_string_of_push(es, e, es[code - 256].0 as int);
    }
}

proof fn lemma_find_child_from_spec(es: Seq<(u16, u8)>, cur: u16, b: u8, j0: int)
    requires
        0 <= j0,
    ensures
        match find_child_from(es, cur, b, j0) {
            Some(j) => j0 <= j < es.len() && es[j] == (cur, b),
            None => forall|k: int| j0 <= k < es.len() ==> es[k] != (cur, b),
        },
    decreases es.len() - j0,
{
    if j0 >= es.len() {
    } else if es[j0] == (cur, b) {
    } else {
        lemma_find_child_from_spec(es, cur, b, j0 + 1);
    }
}

proof fn lemma_le_bytes_snoc(cs: Seq<u16>, c: u16)
    ensures
        le_bytes_of_codes(cs.push(c)) == le_bytes_of_codes(cs) + seq![
            (c % 256) as u8,
            (c / 256) as u8,
        ],
    decreases cs.len(),
{
    if cs.len() == 0 {
        assert(cs.push(c)[0] == c);
        assert(cs.push(c).skip(1) =~= Seq::<u16>::empty());
        assert(le_bytes_of_codes(Seq::<u16>::empty()) == Seq::<u8>::empty());
        assert(le_bytes_of_codes(cs.push(c)) == seq![(c % 256) as u8, (c / 256) as u8]
            + le_bytes_of_codes(cs.push(c).skip(1)));
        assert(le_bytes_of_codes(cs.push(c)) =~= le_bytes_of_codes(cs) + seq![
            (c % 256) as u8,
            (c / 256) as u8,
        ]);
    } else {
        assert(cs.push(c)[0] == cs[0]);
        assert(cs.push(c).skip(1) =~= cs.skip(1).push(c));
        lemma_le_bytes_snoc(cs.skip(1), c);
        assert(le_bytes_of_codes(cs.push(c)) =~= le_bytes_of_codes(cs) + seq![
            (c % 256) as u8,
            (c / 256) as u8,
        ]);
    }
}

proof fn lemma_le_bytes_len(cs: Seq<u16>)
    ensures
        le_bytes_of_codes(cs).len() == 2 * cs.len(),
    decreases cs.len(),
{
    if cs.len() > 0 {
        lemma_le_bytes_len(cs.skip(1));
    }
}

/// Every code the encoder emits is below the saturation sentinel 65535.
proof fn lemma_enc_codes_bound(s: Seq<u8>, es: Seq<(u16, u8)>, cur: u16, codes: Seq<u16>)
    requires
        (cur as int) < 256 + es.len(),
        256 + es.len() <= 65535,
        lzw_enc_go(s, es, cur) == Some(codes),
    ensures
        forall|i: int| 0 <= i < codes.len() ==> (codes[i] as int) < 65535,
    decreases s.len(),
{
    if s.len() == 0 {
    } else {
        let b = s[0];
        match find_child(es, cur, b) {
            Some(j) => {
                lemma_find_child_from_spec(es, cur, b, 0);
                lemma_enc_codes_bound(s.skip(1), es, (256 + j) as u16, codes);
            },
            None => {
                match lzw_enc_go(s.skip(1), es.push((cur, b)), b as u16) {
                    Some(rest) => {
                        lemma_enc_codes_bound(s.skip(1), es.push((cur, b)), b as u16, rest);
                        assert(forall|i: int|
                            1 <= i < codes.len() ==> codes[i] == rest[i - 1]);
                    },
                    None => {
                        assert(false);
                    },
                }
            },
        }
    }
}

/// The codes of a saturating-free encoding stay below 65535, so the
/// dictionary never assigns the sentinel code.
pub proof fn lemma_lzw_code_values(x: Seq<u8>)
    ensures
        lzw_encode_codes(x) matches Some(cs) ==> forall|i: int|
            0 <= i < cs.len() ==> (cs[i] as int) < 65535,
{
    if x.len() > 0 {
        if let Some(cs) = lzw_encode_codes(x) {
            lemma_enc_codes_bound(x.skip(1), Seq::empty(), x[0] as u16, cs);
        }
    }
}

/// Decoding from mid-stream: if the encoder, holding dictionary `es` and
/// current match `cur`, turns the remaining input `s` into `codes`, then the
/// decoder, holding one entry less and the previously emitted code, turns
/// the packed bytes of `codes` into the current match followed by `s`.
proof fn lemma_lzw_rt_aux(
    s: Seq<u8>,
    es: Seq<(u16, u8)>,
    cur: u16,
    prev: u16,
    data: Seq<u8>,
    pos: int,
    codes: Seq<u16>,
)
    requires
        wf_entries(es),
        es.len() >= 1,
        (cur as int) < 256 + es.len(),
        256 + es.len() <= 65535,
        es.last() == (prev, string_of(es, cur as int).first()),
        lzw_enc_go(s, es, cur) == Some(codes),
        0 <= pos <= data.len(),
        data.skip(pos) == le_bytes_of_codes(codes),
    ensures
        lzw_dec_go(data, pos, es.drop_last(), prev) == Ok::<_, LzwDecompressionError>(
            string_of(es, cur as int) + s,
        ),
    decreases s.len(),
{
    let ds = es.drop_last();
    let w = string_of(es, cur as int);
    lemma_string_of_nonempty(es, cur as int);
    let fb = w.first();
    let dlen = 256 + ds.len() as int;
    assert(wf_entries(ds)) by {
        assert(forall|j: int| 0 <= j < ds.len() ==> ds[j] == es[j]);
    }
    assert((prev as int) < dlen) by {
        assert(es[es.len() - 1] == es.last());
    }
    // The string the decoder computes for code `cur` equals `w`.
    assert((cur as int) <= dlen);
    if (cur as int) < dlen {
        assert(ds.push(es.last()) =~= es);
        lemma_string_of_push(ds, es.last(), cur as int);
        assert(string_of(ds, cur as int) == w);
    } else {
        // cur stands for the entry the decoder has not added yet.
        assert(es[cur - 256] == es.last());
        assert(w == string_of(es, prev as int) + seq![fb]);
        assert(ds.push(es.last()) =~= es);
        lemma_string_of_push(ds, es.last(), prev as int);
        lemma_string_of_nonempty(ds, prev as int);
        assert(string_of(es, prev as int).first() == fb) by {
            assert(w.first() == (string_of(es, prev as int) + seq![fb]).first());
        }
        assert(string_of(ds, prev as int) + seq![string_of(ds, prev as int)[0]] == w) by {
            assert(string_of(ds, prev as int)[0] == string_of(ds, prev as int).first());
            assert(string_of(ds, prev as int) + seq![string_of(ds, prev as int)[0]] =~= w);
        }
    }
    if s.len() == 0 {
        assert(codes == seq![cur]);
        assert(codes.skip(1) =~= Seq::<u16>::empty());
        assert(le_bytes_of_codes(Seq::<u16>::empty()) == Seq::<u8>::empty());
        assert(le_bytes_of_codes(codes) == seq![(cur % 256) as u8, (cur / 256) as u8]
            + le_bytes_of_codes(codes.skip(1)));
        assert(le_bytes_of_codes(codes) =~= seq![(cur % 256) as u8, (cur / 256) as u8]);
        assert(data.len() - pos == 2) by {
            assert(data.skip(pos).len() == 2);
        }
        assert(data[pos] == (cur % 256) as u8 && data[pos + 1] == (cur / 256) as u8) by {
            assert(data.skip(pos)[0] == data[pos]);
            assert(data.skip(pos)[1] == data[pos + 1]);
        }
        assert(data[pos] as int + 256 * (data[pos + 1] as int) == cur as int);
        assert(dlen < 65535);
        let es2 = ds.push((prev, w[0]));
        assert(lzw_dec_go(data, pos + 2, es2, cur) == Ok::<_, LzwDecompressionError>(
            Seq::<u8>::empty(),
        ));
        assert(w + Seq::<u8>::empty() =~= w + s);
    } else {
        let b = s[0];
        assert(s =~= seq![b] + s.skip(1));
        match find_child(es, cur, b) {
            Some(j) => {
                lemma_find_child_from_spec(es, cur, b, 0);
                assert(es[j] == (cur, b));
                let cur2 = (256 + j) as u16;
                assert(string_of(es, cur2 as int) == w + seq![b]);
                assert(string_of(es, cur2 as int).first() == fb) by {
                    assert((w + seq![b]).first() == w.first());
                }
                lemma_lzw_rt_aux(s.skip(1), es, cur2, prev, data, pos, codes);
                assert((w + seq![b]) + s.skip(1) =~= w + s);
            },
            None => {
                assert(256 + es.len() < 65535);
                let es2 = es.push((cur, b));
                match lzw_enc_go(s.skip(1), es2, b as u16) {
                    Some(rest) => {
                        assert(codes == seq![cur] + rest);
                        assert(codes.len() >= 1);
                        assert(codes[0] == cur);
                        assert(codes.skip(1) =~= rest);
                        // Unpack the first two bytes of the packed stream.
                        assert(le_bytes_of_codes(codes) == seq![
                            (cur % 256) as u8,
                            (cur / 256) as u8,
                        ] + le_bytes_of_codes(rest));
                        assert(data.len() - pos >= 2) by {
                            lemma_le_bytes_len(codes);
                        }
                        assert(data[pos] == (cur % 256) as u8 && data[pos + 1] == (cur
                            / 256) as u8) by {
                            assert(data.skip(pos)[0] == data[pos]);
                            assert(data.skip(pos)[1] == data[pos + 1]);
                        }
                        assert(data[pos] as int + 256 * (data[pos + 1] as int) == cur as int);
                        assert(data.skip(pos + 2) =~= le_bytes_of_codes(rest)) by {
                            assert(forall|k: int|
                                0 <= k < data.len() - pos - 2 ==> #[trigger] data.skip(pos + 2)[k]
                                    == data.skip(pos)[k + 2]);
                        }
                        assert(dlen < 65535);
                        // The decoder's insert recreates exactly the encoder's dictionary.
                        assert(ds.push((prev, w[0])) =~= es) by {
                            assert(w[0] == fb);
                        }
                        // Invariants for the recursive step.
                        assert(wf_entries(es2));
                        assert(string_of(es2, b as int) == seq![b]);
                        assert(es2.last() == (cur, string_of(es2, b as int).first()));
                        assert(es2.drop_last() =~= es);
                        lemma_lzw_rt_aux(s.skip(1), es2, b as u16, cur, data, pos + 2, rest);
                        assert(lzw_dec_go(data, pos + 2, es, cur) == Ok::<
                            _,
                            LzwDecompressionError,
                        >(seq![b] + s.skip(1)));
                        assert(w + (seq![b] + s.skip(1)) =~= w + s);
                    },
                    None => {
                        assert(false);
                    },
                }
            },
        }
    }
}

/// Decoding an LZW encoding recovers the original bytes: the law that
/// `lzw_decompression` inverts `lzw_compression` on every input the encoder
/// accepts.
pub proof fn lemma_lzw_round_trip(x: Seq<u8>)
    ensures
        lzw_encode_spec(x) matches Some(out) ==> lzw_decode_spec(out) == Ok::<
            _,
            LzwDecompressionError,
        >(x),
{
    if x.len() == 0 {
        assert(le_bytes_of_codes(Seq::<u16>::empty()) == Seq::<u8>::empty());
        if let Some(out) = lzw_encode_spec(x) {
            assert(out =~= Seq::<u8>::empty());
            assert(x =~= Seq::<u8>::empty());
            assert(lzw_decode_spec(out) == Ok::<_, LzwDecompressionError>(x));
        }
    } else if let Some(codes) = lzw_encode_codes(x) {
        let out = le_bytes_of_codes(codes);
        let c0v = x[0] as u16;
        if x.len() == 1 {
            assert(codes == seq![c0v]);
            assert(codes.skip(1) =~= Seq::<u16>::empty());
            assert(le_bytes_of_codes(Seq::<u16>::empty()) == Seq::<u8>::empty());
            assert(le_bytes_of_codes(codes) == seq![(c0v % 256) as u8, (c0v / 256) as u8]
                + le_bytes_of_codes(codes.skip(1)));
            assert(out =~= seq![(c0v % 256) as u8, (c0v / 256) as u8]);
            assert(out[0] as int + 256 * (out[1] as int) == c0v as int);
            assert(lzw_dec_go(out, 2, Seq::empty(), c0v) == Ok::<_, LzwDecompressionError>(
                Seq::<u8>::empty(),
            ));
            assert(seq![(c0v as int as u8)] + Seq::<u8>::empty() =~= x);
        } else {
            let b = x[1];
            assert(x.skip(1)[0] == b);
            assert(find_child(Seq::<(u16, u8)>::empty(), c0v, b) == None::<int>);
            let es2 = Seq::<(u16, u8)>::empty().push((c0v, b));
            match lzw_enc_go(x.skip(1).skip(1), es2, b as u16) {
                Some(rest) => {
                    assert(codes == seq![c0v] + rest);
                    assert(codes[0] == c0v);
                    assert(codes.skip(1) =~= rest);
                    assert(le_bytes_of_codes(codes) == seq![
                        (c0v % 256) as u8,
                        (c0v / 256) as u8,
                    ] + le_bytes_of_codes(rest));
                    lemma_le_bytes_len(codes);
                    assert(out[0] as int + 256 * (out[1] as int) == c0v as int) by {
                        assert(out[0] == (c0v % 256) as u8);
                        assert(out[1] == (c0v / 256) as u8);
                    }
                    assert(out.skip(2) =~= le_bytes_of_codes(rest)) by {
                        assert(forall|k: int|
                            0 <= k < out.len() - 2 ==> out.skip(2)[k] == out[k + 2]);
                    }
                    assert(wf_entries(es2));
                    assert(string_of(es2, b as int) == seq![b]);
                    assert(es2.last() == (c0v, string_of(es2, b as int).first()));
                    lemma_lzw_rt_aux(x.skip(1).skip(1), es2, b as u16, c0v, out, 2, rest);
                    assert(es2.drop_last() =~= Seq::<(u16, u8)>::empty());
                    assert(lzw_dec_go(out, 2, Seq::empty(), c0v) == Ok::<
                        _,
                        LzwDecompressionError,
                    >(seq![b] + x.skip(1).skip(1)));
                    assert(x.skip(1).skip(1) =~= x.skip(2));
                    assert(seq![b] + x.skip(2) =~= x.skip(1));
                    assert(seq![(c0v as int as u8)] + x.skip(1) =~= x);
                },
                None => {
                    assert(false);
                },
            }
        }
    }
}

fn find_child_exec(entries: &Vec<(u16, u8)>, cur: u16, b: u8) -> (r: Option<u16>)
    requires
        entries@.len() <= 65279,
    ensures
        match r {
            Some(code) => 256 <= (code as int) && (code as int) < 256 + entries@.len()
                && find_child(entries@, cur, b) == Some(code as int - 256),
            None => find_child(entries@, cur, b) == None::<int>,
        },
{
    let mut j: usize = 0;
    while j < entries.len()
        invariant
            j <= entries@.len(),
            entries@.len() <= 65279,
            find_child_from(entries@, cur, b, 0) == find_child_from(entries@, cur, b, j as int),
        decreases entries@.len() - j,
    {
        let e = entries[j];
        if e.0 == cur && e.1 == b {
            proof {
                assert(entries@[j as int] == (cur, b));
            }
            return Some((256 + j) as u16);
        }
        proof {
            assert(entries@[j as int] != (cur, b));
        }
        j += 1;
    }
    None
}

/// Compresses bytes with LZW: emits 16-bit little-endian codes, growing the
/// dictionary by one entry per emitted code until it saturates.
///
/// The empty input yields empty output; a stream that would assign code
/// 65535 is rejected with `DictionaryOverflow`.
pub fn lzw_compression(data: &Vec<u8>) -> (r: Result<Vec<u8>, LzwCompressionError>)
    ensures
        match r {
            Ok(out) => lzw_encode_spec(data@) == Some(out@),
            Err(e) => lzw_encode_spec(data@) == None::<Seq<u8>> && e
                == LzwCompressionError::DictionaryOverflow,
        },
{
    let mut result: Vec<u8> = Vec::new();
    if data.len() == 0 {
        return Ok(result);
    }
    let mut entries: Vec<(u16, u8)> = Vec::new();
    let mut cur: u16 = data[0] as u16;
    let ghost mut gcodes: Seq<u16> = Seq::empty();
    let mut i: usize = 1;
    proof {
        assert(le_bytes_of_codes(gcodes) =~= result@);
        if let Some(rest) = lzw_enc_go(data@.skip(1), entries@, cur) {
            assert(gcodes + rest =~= rest);
        }
    }
    while i < data.len()
        invariant
            1 <= i <= data@.len(),
            data@.len() >= 1,
            data@.len() <= usize::MAX,
            wf_entries(entries@),
            entries@.len() <= 65279,
            (cur as int) < 256 + entries@.len(),
            result@ == le_bytes_of_codes(gcodes),
            match lzw_enc_go(data@.skip(i as int), entries@, cur) {
                Some(rest) => lzw_encode_codes(data@) == Some(gcodes + rest),
                None => lzw_encode_codes(data@) == None::<Seq<u16>>,
            },
        decreases data@.len() - i,
    {
        let b = data[i];
        proof {
            assert(data@.skip(i as int)[0] == b);
            assert(data@.skip(i as int).skip(1) =~= data@.skip(i as int + 1));
        }
        match find_child_exec(&entries, cur, b) {
            Some(code) => {
                cur = code;
            },
            None => {
                let lo = (cur % 256) as u8;
                let hi = (cur / 256) as u8;
                let ghost pre = result@;
                let ghost pre_codes = gcodes;
                result.push(lo);
                result.push(hi);
                proof {
                    gcodes = gcodes.push(cur);
                    lemma_le_bytes_snoc(pre_codes, cur);
                    assert(result@ =~= pre + seq![lo, hi]);
                }
                if 256 + entries.len() < 65535 {
                    let ghost pre_entries = entries@;
                    let prev_code = cur;
                    entries.push((cur, b));
                    cur = b as u16;
                    proof {
                        if let Some(rest) = lzw_enc_go(
                            data@.skip(i as int + 1),
                            entries@,
                            cur,
                        ) {
                            assert(pre_codes + (seq![prev_code] + rest) =~= gcodes + rest);
                        }
                    }
                } else {
                    return Err(LzwCompressionError::DictionaryOverflow);
                }
            },
        }
        i += 1;
    }
    let lo = (cur % 256) as u8;
    let hi = (cur / 256) as u8;
    let ghost pre_codes = gcodes;
    result.push(lo);
    result.push(hi);
    proof {
        assert(data@.skip(data@.len() as int) =~= Seq::<u8>::empty());
        gcodes = gcodes.push(cur);
        lemma_le_bytes_snoc(pre_codes, cur);
        assert(pre_codes + seq![cur] =~= gcodes);
    }
    Ok(result)
}

fn get_string(entries: &Vec<(u16, u8)>, code: u16) -> (r: Vec<u8>)
    requires
        wf_entries(entries@),
        (code as int) < 256 + entries@.len(),
    ensures
        r@ == string_of(entries@, code as int),
        r@.len() >= 1,
{
    let ghost es = entries@;
    let mut rev: Vec<u8> = Vec::new();
    let ghost mut tail: Seq<u8> = Seq::empty();
    let mut c: u16 = code;
    proof {
        assert(string_of(es, code as int) =~= string_of(es, c as int) + tail);
    }
    while c >= 256
        invariant
            wf_entries(es),
            es == entries@,
            (c as int) < 256 + es.len(),
            rev@.len() == tail.len(),
            forall|m: int| 0 <= m < tail.len() ==> rev@[m] == tail[tail.len() - 1 - m],
            string_of(es, code as int) == string_of(es, c as int) + tail,
        decreases c,
    {
        let j = (c - 256) as usize;
        let e = entries[j];
        rev.push(e.1);
        proof {
            let pre_tail = tail;
            tail = seq![e.1] + tail;
            assert(string_of(es, c as int) == string_of(es, e.0 as int) + seq![e.1]);
            assert(string_of(es, e.0 as int) + tail =~= (string_of(es, e.0 as int) + seq![e.1])
                + pre_tail);
        }
        c = e.0;
    }
    let cb = c as u8;
    let mut out: Vec<u8> = Vec::new();
    out.push(cb);
    let n = rev.len();
    let mut k: usize = 0;
    while k < n
        invariant
            n == rev@.len(),
            k <= n,
            rev@.len() == tail.len(),
            forall|m: int| 0 <= m < tail.len() ==> rev@[m] == tail[tail.len() - 1 - m],
            out@.len() == 1 + k,
            out@[0] == cb,
            forall|m: int| 0 <= m < k ==> out@[1 + m] == tail[m],
        decreases n - k,
    {
        out.push(rev[n - 1 - k]);
        k += 1;
    }
    proof {
        assert(string_of(es, c as int) == seq![cb]);
        assert(out@ =~= seq![cb] + tail);
    }
    out
}

/// Decompresses an LZW code stream, rebuilding the dictionary one entry per
/// code and expanding each code by walking its prefix links.
///
/// The empty input yields empty output. A stream that ends inside a 16-bit
/// code, refers to an unassigned entry, or saturates the dictionary is
/// rejected with the matching error.
pub fn lzw_decompression(data: &Vec<u8>) -> (r: Result<Vec<u8>, LzwDecompressionError>)
    ensures
        match r {
            Ok(out) => lzw_decode_spec(data@) == Ok::<_, LzwDecompressionError>(out@),
            Err(e) => lzw_decode_spec(data@) == Err::<Seq<u8>, _>(e),
        },
{
    if data.len() == 0 {
        let empty_out: Vec<u8> = Vec::new();
        proof {
            assert(lzw_decode_spec(data@) == Ok::<_, LzwDecompressionError>(empty_out@)) by {
                assert(empty_out@ =~= Seq::<u8>::empty());
            }
        }
        return Ok(empty_out);
    }
    if data.len() < 2 {
        return Err(LzwDecompressionError::IncompleteCode { position: 0 });
    }
    let c0 = (data[0] as u16) + 256 * (data[1] as u16);
    if c0 >= 256 {
        return Err(LzwDecompressionError::InvalidCode { code: c0 as usize, dict_size: 256 });
    }
    let mut result: Vec<u8> = Vec::new();
    result.push(c0 as u8);
    let mut entries: Vec<(u16, u8)> = Vec::new();
    let mut prev: u16 = c0;
    let mut i: usize = 2;
    proof {
        if let Ok(rest) = lzw_dec_go(data@, 2, entries@, prev) {
            assert(result@ + rest =~= seq![(c0 as int as u8)] + rest);
        }
    }
    while i < data.len()
        invariant
            2 <= i <= data@.len(),
            i % 2 == 0,
            data@.len() >= 2,
            data@.len() <= usize::MAX,
            wf_entries(entries@),
            entries@.len() <= 65279,
            (prev as int) < 256 + entries@.len(),
            match lzw_dec_go(data@, i as int, entries@, prev) {
                Ok(rest) => lzw_decode_spec(data@) == Ok::<_, LzwDecompressionError>(
                    result@ + rest,
                ),
                Err(e) => lzw_decode_spec(data@) == Err::<Seq<u8>, _>(e),
            },
        decreases data@.len() - i,
    {
        if i + 1 >= data.len() {
            return Err(LzwDecompressionError::IncompleteCode { position: i });
        }
        let c = (data[i] as u16) + 256 * (data[i + 1] as u16);
        let dlen = 256 + entries.len();
        let cur_string: Vec<u8>;
        if (c as usize) < dlen {
            cur_string = get_string(&entries, c);
        } else if (c as usize) == dlen && dlen < 65535 {
            let mut s = get_string(&entries, prev);
            let first = s[0];
            s.push(first);
            cur_string = s;
            proof {
                assert(cur_string@ == string_of(entries@, prev as int) + seq![
                    string_of(entries@, prev as int)[0],
                ]) by {
                    assert(cur_string@ =~= string_of(entries@, prev as int) + seq![
                        string_of(entries@, prev as int)[0],
                    ]);
                }
            }
        } else {
            return Err(LzwDecompressionError::InvalidCode { code: c as usize, dict_size: dlen });
        }
        let ghost pre = result@;
        push_all(&mut result, &cur_string);
        if dlen < 65535 {
            let suffix = cur_string[0];
            entries.push((prev, suffix));
            proof {
                if let Ok(rest) = lzw_dec_go(data@, i as int + 2, entries@, c) {
                    assert(pre + (cur_string@ + rest) =~= result@ + rest);
                }
            }
            prev = c;
        } else {
            return Err(LzwDecompressionError::DictionaryOverflow);
        }
        i += 2;
    }
    proof {
        assert(result@ + Seq::<u8>::empty() =~= result@);
    }
    Ok(result)
}

} // verus!
