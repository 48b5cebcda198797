//! LZMA2 chunk framing: status bytes, chunk sizes, reset levels, and the
//! stream decoder that drives the symbol decoder chunk by chunk.
use vstd::prelude::*;
use crate::bigendian::{be16, read_be_u16};
use crate::rangecoder::{RangeDecoder, rc_init};
use crate::lzbuffer::LzBuffer;
use crate::decoder::{DecoderModel, DecoderState, model_wf, reset_model, process_spec};

verus! {

/// Why a stream cannot be decoded.
#[derive(Clone, Copy, Debug, PartialEq, Eq, Structural)]
pub enum Lzma2Error {
    /// A status byte, size field or property byte is missing.
    MalformedHeader,
    /// A status byte other than 0, 1, 2 or one with the high bit set.
    InvalidStatus(u8),
    /// A property byte of 225 or more, or one with `lc + lp > 4`.
    InvalidProperties(u8),
    /// A chunk's declared body runs past the end of the input, or a
    /// compressed body is too short to start the range decoder.
    TruncatedChunk,
    /// The compressed body does not decode to exactly the declared size.
    Decode,
}

/// `(lc, lp, pb)` from a property byte, or the error it gives.
pub open spec fn props_spec(b: u8) -> Result<(nat, nat, nat), Lzma2Error> {
    if b >= 225 {
        Err(Lzma2Error::InvalidProperties(b))
    } else {
        let lc = (b % 9) as nat;
        let lp = ((b / 9) % 5) as nat;
        let pb = (b / 45) as nat;
        if lc + lp > 4 {
            Err(Lzma2Error::InvalidProperties(b))
        } else {
            Ok((lc, lp, pb))
        }
    }
}

/// The reset level of a compressed chunk's status byte (bits 5 and 6).
pub open spec fn reset_level(status: u8) -> nat {
    ((status / 32) % 4) as nat
}

/// What an uncompressed chunk at `pos` (status 1 resets the dictionary,
/// 2 does not) leaves: the bytes it takes after the status byte, and the
/// output handed on and the history.
#[verifier::opaque]
pub open spec fn uncompressed_spec(input: Seq<u8>, pos: nat, flushed: Seq<u8>, hist: Seq<u8>) -> Result<(nat, Seq<u8>, Seq<u8>), Lzma2Error> {
    if pos + 3 > input.len() {
        Err(Lzma2Error::MalformedHeader)
    } else {
        let size = be16(input[pos + 1int], input[pos + 2int]) + 1;
        if pos + 3 + size > input.len() {
            Err(Lzma2Error::TruncatedChunk)
        } else {
            let (f1, h1) = if input[pos as int] == 1 { (flushed + hist, Seq::<u8>::empty()) } else { (flushed, hist) };
            Ok(((2 + size) as nat, f1, h1 + input.subrange(pos + 3int, pos + 3int + size)))
        }
    }
}

/// What a compressed chunk at `pos` leaves: the bytes it takes after the
/// status byte, the decoder, the output handed on and the history.
#[verifier::opaque]
pub open spec fn compressed_spec(input: Seq<u8>, pos: nat, d: DecoderModel, flushed: Seq<u8>, hist: Seq<u8>) -> Result<(nat, DecoderModel, Seq<u8>, Seq<u8>), Lzma2Error> {
    let status = input[pos as int];
    if status < 0x80 {
        Err(Lzma2Error::InvalidStatus(status))
    } else if pos + 5 > input.len() {
        Err(Lzma2Error::MalformedHeader)
    } else {
        let unpacked = (status % 32) as nat * 65536 + be16(input[pos + 1int], input[pos + 2int]) + 1;
        let packed = be16(input[pos + 3int], input[pos + 4int]) + 1;
        let level = reset_level(status);
        let (f1, h1) = if level == 3 { (flushed + hist, Seq::<u8>::empty()) } else { (flushed, hist) };
        let props: Result<(nat, DecoderModel), Lzma2Error> = if level == 3 {
            if pos + 6 > input.len() {
                Err(Lzma2Error::MalformedHeader)
            } else {
                match props_spec(input[pos + 5int]) {
                    Err(e) => Err(e),
                    Ok((lc, lp, pb)) => Ok((5nat, reset_model(lc, lp, pb))),
                }
            }
        } else if level >= 1 {
            Ok((4nat, reset_model(d.lc, d.lp, d.pb)))
        } else {
            Ok((4nat, d))
        };
        match props {
            Err(e) => Err(e),
            Ok((hdr, d1)) => {
                let start = pos + 1 + hdr;
                if start + packed > input.len() || packed < 5 {
                    Err(Lzma2Error::TruncatedChunk)
                } else {
                    let chunk = input.subrange(start as int, (start + packed) as int);
                    match process_spec(d1, h1, rc_init(chunk), chunk, unpacked) {
                        None => Err(Lzma2Error::Decode),
                        Some((d2, h2)) => Ok(((hdr + packed) as nat, d2, f1, h2)),
                    }
                }
            },
        }
    }
}

/// Decoding from the chunk at `pos` on: all output, or the first error.
pub open spec fn stream_spec(input: Seq<u8>, pos: nat, d: DecoderModel, flushed: Seq<u8>, hist: Seq<u8>) -> Result<Seq<u8>, Lzma2Error>
    decreases input.len() - pos,
{
    if pos >= input.len() {
        Err(Lzma2Error::MalformedHeader)
    } else if input[pos as int] == 0 {
        Ok(flushed + hist)
    } else {
        let chunk: Result<(nat, DecoderModel, Seq<u8>, Seq<u8>), Lzma2Error> = if input[pos as int] <= 2 {
            match uncompressed_spec(input, pos, flushed, hist) {
                Err(e) => Err(e),
                Ok((n, f1, h1)) => Ok((n, d, f1, h1)),
            }
        } else {
            compressed_spec(input, pos, d, flushed, hist)
        };
        match chunk {
            Err(e) => Err(e),
            Ok((n, d1, f1, h1)) => {
                if pos + 1 + n <= input.len() {
                    stream_spec(input, pos + 1 + n, d1, f1, h1)
                } else {
                    Err(Lzma2Error::TruncatedChunk)
                }
            },
        }
    }
}

/// What decoding the whole LZMA2 stream `input` gives.
pub open spec fn decode_spec(input: Seq<u8>) -> Result<Seq<u8>, Lzma2Error> {
    stream_spec(input, 0, reset_model(0, 0, 0), Seq::<u8>::empty(), Seq::<u8>::empty())
}

/// Decodes a property byte into `(lc, lp, pb)`.
pub fn decode_props(b: u8) -> (r: Result<(u32, u32, u32), Lzma2Error>)
    ensures
        match props_spec(b) {
            Ok((lc, lp, pb)) => r == Ok::<(u32, u32, u32), Lzma2Error>((lc as u32, lp as u32, pb as u32)),
            Err(e) => r == Err::<(u32, u32, u32), Lzma2Error>(e),
        },
        r is Ok ==> ({
            let (lc, lp, pb) = r->Ok_0;
            lc + lp <= 4 && pb <= 4
        }),
{
    if b >= 225 {
        return Err(Lzma2Error::InvalidProperties(b));
    }
    let lc = (b % 9) as u32;
    let lp = ((b / 9) % 5) as u32;
    let pb = (b / 45) as u32;
    if lc + lp > 4 {
        return Err(Lzma2Error::InvalidProperties(b));
    }
    Ok((lc, lp, pb))
}

fn parse_uncompressed(lz: &mut LzBuffer, stream: &[u8], pos: usize) -> (r: Result<usize, Lzma2Error>)
    requires
        pos < stream@.len(),
    ensures
        match uncompressed_spec(stream@, pos as nat, old(lz).flushed(), old(lz).hist()) {
            Ok((n, f1, h1)) => r is Ok && r->Ok_0 == n && final(lz).flushed() == f1 && final(lz).hist() == h1,
            Err(e) => r == Err::<usize, Lzma2Error>(e),
        },
{
    reveal(uncompressed_spec);
    if stream.len() - pos < 3 {
        return Err(Lzma2Error::MalformedHeader);
    }
    let size = read_be_u16(stream, pos + 1) as usize + 1;
    if stream.len() - pos - 3 < size {
        return Err(Lzma2Error::TruncatedChunk);
    }
    if stream[pos] == 1 {
        lz.reset();
    }
    lz.append_bytes(vstd::slice::slice_subrange(stream, pos + 3, pos + 3 + size));
    Ok(2 + size)
}

#[verifier::rlimit(60)]
fn parse_lzma(decoder: &mut DecoderState, lz: &mut LzBuffer, stream: &[u8], pos: usize) -> (r: Result<usize, Lzma2Error>)
    requires
        pos < stream@.len(),
        model_wf(old(decoder)@),
    ensures
        match compressed_spec(stream@, pos as nat, old(decoder)@, old(lz).flushed(), old(lz).hist()) {
            Ok((n, d1, f1, h1)) => r is Ok && r->Ok_0 == n && final(decoder)@ == d1
                && final(lz).flushed() == f1 && final(lz).hist() == h1,
            Err(e) => r == Err::<usize, Lzma2Error>(e),
        },
        model_wf(final(decoder)@),
{
    reveal(compressed_spec);
    let status = stream[pos];
    if status < 0x80 {
        return Err(Lzma2Error::InvalidStatus(status));
    }
    if stream.len() - pos < 5 {
        return Err(Lzma2Error::MalformedHeader);
    }
    let unpacked: u64 = (status % 32) as u64 * 65536 + read_be_u16(stream, pos + 1) as u64 + 1;
    let packed: usize = read_be_u16(stream, pos + 3) as usize + 1;
    let level = (status / 32) % 4;
    let hdr: usize;
    if level == 3 {
        if stream.len() - pos < 6 {
            return Err(Lzma2Error::MalformedHeader);
        }
        let (lc, lp, pb) = match decode_props(stream[pos + 5]) {
            Ok(p) => p,
            Err(e) => {
                return Err(e);
            },
        };
        lz.reset();
        decoder.reset_state(lc, lp, pb);
        hdr = 5;
    } else {
        if level >= 1 {
            let (lc, lp, pb) = (decoder.lc(), decoder.lp(), decoder.pb());
            decoder.reset_state(lc, lp, pb);
        }
        hdr = 4;
    }
    let start = pos + 1 + hdr;
    if stream.len() < start || stream.len() - start < packed || packed < 5 {
        return Err(Lzma2Error::TruncatedChunk);
    }
    let chunk = vstd::slice::slice_subrange(stream, start, start + packed);
    let mut rc = match RangeDecoder::new(chunk) {
        Some(rc) => rc,
        None => {
            return Err(Lzma2Error::TruncatedChunk);
        },
    };
    if !decoder.process(&mut rc, lz, chunk, unpacked) {
        return Err(Lzma2Error::Decode);
    }
    Ok(hdr + packed)
}

/// Decodes the LZMA2 stream `stream` and appends what it holds to `output`.
/// The stream ends at its first end marker; bytes after it are not read.
/// On an error `output` is left as it was.
pub fn decode_stream(stream: &[u8], output: &mut Vec<u8>) -> (r: Result<(), Lzma2Error>)
    ensures
        match decode_spec(stream@) {
            Ok(out) => r == Ok::<(), Lzma2Error>(()) && final(output)@ == old(output)@ + out,
            Err(e) => r == Err::<(), Lzma2Error>(e) && final(output)@ == old(output)@,
        },
{
    let mut decoder = DecoderState::new();
    let mut lz = LzBuffer::new();
    let mut pos: usize = 0;
    loop
        invariant
            pos <= stream@.len(),
            model_wf(decoder@),
            output@ == old(output)@,
            stream_spec(stream@, pos as nat, decoder@, lz.flushed(), lz.hist()) == decode_spec(stream@),
        decreases stream@.len() - pos,
    {
        if pos >= stream.len() {
            return Err(Lzma2Error::MalformedHeader);
        }
        let status = stream[pos];
        if status == 0 {
            let mut out = lz.finish();
            output.append(&mut out);
            return Ok(());
        }
        let ghost d_before = decoder@;
        let ghost f_before = lz.flushed();
        let ghost h_before = lz.hist();
        let taken = if status <= 2 {
            parse_uncompressed(&mut lz, stream, pos)
        } else {
            parse_lzma(&mut decoder, &mut lz, stream, pos)
        };
        let n = match taken {
            Ok(n) => n,
            Err(e) => {
                return Err(e);
            },
        };
        if stream.len() - pos - 1 < n {
            return Err(Lzma2Error::TruncatedChunk);
        }
        proof {
            let r0: Result<(nat, DecoderModel, Seq<u8>, Seq<u8>), Lzma2Error> = if status <= 2 {
                match uncompressed_spec(stream@, pos as nat, f_before, h_before) {
                    Err(x) => Err(x),
                    Ok((k, f1, h1)) => Ok((k, d_before, f1, h1)),
                }
            } else {
                compressed_spec(stream@, pos as nat, d_before, f_before, h_before)
            };
            assert(r0 == Ok::<(nat, DecoderModel, Seq<u8>, Seq<u8>), Lzma2Error>((n as nat, decoder@, lz.flushed(), lz.hist())));
        }
        pos = pos + 1 + n;
    }
}

/// `r` with `prefix` put in front of its output.
pub open spec fn prepend(prefix: Seq<u8>, r: Result<Seq<u8>, Lzma2Error>) -> Result<Seq<u8>, Lzma2Error> {
    match r {
        Ok(o) => Ok(prefix + o),
        Err(e) => Err(e),
    }
}

/// How an uncompressed chunk treats output handed on before it.
proof fn lemma_uncompressed_flushed(input: Seq<u8>, pos: nat, flushed: Seq<u8>, hist: Seq<u8>)
    requires
        pos < input.len(),
    ensures
        match uncompressed_spec(input, pos, Seq::<u8>::empty(), hist) {
            Err(e) => uncompressed_spec(input, pos, flushed, hist) == Err::<(nat, Seq<u8>, Seq<u8>), Lzma2Error>(e),
            Ok((n, f1, h1)) => uncompressed_spec(input, pos, flushed, hist)
                == Ok::<(nat, Seq<u8>, Seq<u8>), Lzma2Error>((n, flushed + f1, h1)),
        },
{
    reveal(uncompressed_spec);
    assert(Seq::<u8>::empty() + hist == hist);
    assert(flushed + Seq::<u8>::empty() == flushed);
}

/// How a compressed chunk treats output handed on before it.
proof fn lemma_compressed_flushed(input: Seq<u8>, pos: nat, d: DecoderModel, flushed: Seq<u8>, hist: Seq<u8>)
    requires
        pos < input.len(),
    ensures
        match compressed_spec(input, pos, d, Seq::<u8>::empty(), hist) {
            Err(e) => compressed_spec(input, pos, d, flushed, hist) == Err::<(nat, DecoderModel, Seq<u8>, Seq<u8>), Lzma2Error>(e),
            Ok((n, d1, f1, h1)) => compressed_spec(input, pos, d, flushed, hist)
                == Ok::<(nat, DecoderModel, Seq<u8>, Seq<u8>), Lzma2Error>((n, d1, flushed + f1, h1)),
        },
{
    reveal(compressed_spec);
    assert(Seq::<u8>::empty() + hist == hist);
    assert(flushed + Seq::<u8>::empty() == flushed);
}

/// Output handed on before a chunk is passed through unchanged: decoding
/// from a chunk on gives that output followed by what the rest decodes to.
pub proof fn law_flushed_output_is_kept(input: Seq<u8>, pos: nat, d: DecoderModel, flushed: Seq<u8>, hist: Seq<u8>)
    ensures
        stream_spec(input, pos, d, flushed, hist) == prepend(flushed, stream_spec(input, pos, d, Seq::<u8>::empty(), hist)),
    decreases input.len() - pos,
{
    let e = Seq::<u8>::empty();
    if pos >= input.len() {
    } else if input[pos as int] == 0 {
        assert(e + hist == hist);
    } else {
        let r0: Result<(nat, DecoderModel, Seq<u8>, Seq<u8>), Lzma2Error> = if input[pos as int] <= 2 {
            lemma_uncompressed_flushed(input, pos, flushed, hist);
            match uncompressed_spec(input, pos, e, hist) {
                Err(x) => Err(x),
                Ok((n, f1, h1)) => Ok((n, d, f1, h1)),
            }
        } else {
            lemma_compressed_flushed(input, pos, d, flushed, hist);
            compressed_spec(input, pos, d, e, hist)
        };
        match r0 {
            Err(_) => {},
            Ok((n, d1, f1, h1)) => {
                if pos + 1 + n <= input.len() {
                    law_flushed_output_is_kept(input, pos + 1 + n, d1, flushed + f1, h1);
                    law_flushed_output_is_kept(input, pos + 1 + n, d1, f1, h1);
                    match stream_spec(input, pos + 1 + n, d1, e, h1) {
                        Ok(o) => {
                            assert(flushed + (f1 + o) == (flushed + f1) + o);
                        },
                        Err(_) => {},
                    }
                }
            },
        }
    }
}

/// A compressed chunk that resets dictionary, state and properties (status
/// `0xE0` and up) decodes, with all that follows it, the same whatever came
/// before: the earlier probabilities, automaton state, rep distances and
/// history have no effect on it.
pub proof fn law_full_reset_isolates(input: Seq<u8>, pos: nat, d: DecoderModel, flushed: Seq<u8>, hist: Seq<u8>)
    requires
        pos < input.len(),
        input[pos as int] >= 0xE0,
    ensures
        stream_spec(input, pos, d, flushed, hist)
            == prepend(flushed + hist, stream_spec(input, pos, reset_model(0, 0, 0), Seq::<u8>::empty(), Seq::<u8>::empty())),
{
    let e = Seq::<u8>::empty();
    let d0 = reset_model(0, 0, 0);
    reveal(compressed_spec);
    assert(reset_level(input[pos as int]) == 3);
    match compressed_spec(input, pos, d, flushed, hist) {
        Err(_) => {
            assert(compressed_spec(input, pos, d0, e, e) == compressed_spec(input, pos, d, flushed, hist));
        },
        Ok((n, d1, f1, h1)) => {
            assert(e + e == e);
            assert(compressed_spec(input, pos, d0, e, e) == Ok::<(nat, DecoderModel, Seq<u8>, Seq<u8>), Lzma2Error>((n, d1, e, h1)));
            if pos + 1 + n <= input.len() {
                law_flushed_output_is_kept(input, pos + 1 + n, d1, flushed + hist, h1);
                law_flushed_output_is_kept(input, pos + 1 + n, d1, e, h1);
                assert(e + e == e);
                match stream_spec(input, pos + 1 + n, d1, e, h1) {
                    Ok(o) => {
                        assert(e + o == o);
                    },
                    Err(_) => {},
                }
            }
        },
    }
}

/// A property byte of 225 or more, or one with `lc + lp > 4`, ends decoding
/// with `InvalidProperties` as soon as it is read, before any compressed bit.
pub proof fn law_bad_properties_rejected(input: Seq<u8>, pos: nat, d: DecoderModel, flushed: Seq<u8>, hist: Seq<u8>)
    requires
        pos + 6 <= input.len(),
        input[pos as int] >= 0xE0,
        props_spec(input[pos + 5int]) is Err,
    ensures
        stream_spec(input, pos, d, flushed, hist) == Err::<Seq<u8>, Lzma2Error>(Lzma2Error::InvalidProperties(input[pos + 5int])),
{
    reveal(compressed_spec);
    assert(reset_level(input[pos as int]) == 3);
}

/// A compressed chunk whose declared packed body runs past the end of the
/// input never decodes: the stream fails, however the bytes that are there read.
pub proof fn law_truncated_body_fails(input: Seq<u8>, pos: nat, d: DecoderModel, flushed: Seq<u8>, hist: Seq<u8>)
    requires
        pos + 6 <= input.len(),
        input[pos as int] >= 0x80,
        pos + 1 + (if reset_level(input[pos as int]) == 3 { 5nat } else { 4nat }) + be16(input[pos + 3int], input[pos + 4int]) + 1
            > input.len(),
    ensures
        stream_spec(input, pos, d, flushed, hist) is Err,
{
    reveal(compressed_spec);
}

/// An uncompressed chunk that decodes in a prefix of the input decodes the
/// same in the whole input.
proof fn lemma_uncompressed_prefix(input: Seq<u8>, n: nat, pos: nat, flushed: Seq<u8>, hist: Seq<u8>)
    requires
        pos < n <= input.len(),
        uncompressed_spec(input.subrange(0, n as int), pos, flushed, hist) is Ok,
    ensures
        uncompressed_spec(input, pos, flushed, hist) == uncompressed_spec(input.subrange(0, n as int), pos, flushed, hist),
{
    reveal(uncompressed_spec);
    let p = input.subrange(0, n as int);
    assert(pos + 3 <= n);
    assert(p[pos as int] == input[pos as int]);
    assert(p[pos + 1int] == input[pos + 1int]);
    assert(p[pos + 2int] == input[pos + 2int]);
    let size = be16(input[pos + 1int], input[pos + 2int]) + 1;
    assert(pos + 3 + size <= n);
    assert(p.subrange(pos + 3int, pos + 3int + size) == input.subrange(pos + 3int, pos + 3int + size));
}

/// A compressed chunk that decodes in a prefix of the input decodes the
/// same in the whole input.
proof fn lemma_compressed_prefix(input: Seq<u8>, n: nat, pos: nat, d: DecoderModel, flushed: Seq<u8>, hist: Seq<u8>)
    requires
        pos < n <= input.len(),
        compressed_spec(input.subrange(0, n as int), pos, d, flushed, hist) is Ok,
    ensures
        compressed_spec(input, pos, d, flushed, hist) == compressed_spec(input.subrange(0, n as int), pos, d, flushed, hist),
{
    reveal(compressed_spec);
    let p = input.subrange(0, n as int);
    assert(p[pos as int] == input[pos as int]);
    assert(pos + 5 <= n);
    assert(p[pos + 1int] == input[pos + 1int]);
    assert(p[pos + 2int] == input[pos + 2int]);
    assert(p[pos + 3int] == input[pos + 3int]);
    assert(p[pos + 4int] == input[pos + 4int]);
    let level = reset_level(input[pos as int]);
    let hdr: nat = if level == 3 { 5 } else { 4 };
    if level == 3 {
        assert(pos + 6 <= n);
        assert(p[pos + 5int] == input[pos + 5int]);
    }
    let start = pos + 1 + hdr;
    let packed = be16(input[pos + 3int], input[pos + 4int]) + 1;
    assert(start + packed <= n);
    assert(p.subrange(start as int, (start + packed) as int) == input.subrange(start as int, (start + packed) as int));
}

/// Decoding that succeeds on a prefix of the input gives the same result on
/// the whole input.
proof fn lemma_stream_prefix(input: Seq<u8>, n: nat, pos: nat, d: DecoderModel, flushed: Seq<u8>, hist: Seq<u8>)
    requires
        n <= input.len(),
        stream_spec(input.subrange(0, n as int), pos, d, flushed, hist) is Ok,
    ensures
        stream_spec(input, pos, d, flushed, hist) == stream_spec(input.subrange(0, n as int), pos, d, flushed, hist),
    decreases n - pos,
{
    let p = input.subrange(0, n as int);
    assert(pos < n);
    assert(p[pos as int] == input[pos as int]);
    if input[pos as int] != 0 {
        let r: Result<(nat, DecoderModel, Seq<u8>, Seq<u8>), Lzma2Error> = if input[pos as int] <= 2 {
            lemma_uncompressed_prefix(input, n, pos, flushed, hist);
            match uncompressed_spec(p, pos, flushed, hist) {
                Err(x) => Err(x),
                Ok((k, f1, h1)) => Ok((k, d, f1, h1)),
            }
        } else {
            lemma_compressed_prefix(input, n, pos, d, flushed, hist);
            compressed_spec(p, pos, d, flushed, hist)
        };
        match r {
            Err(_) => {},
            Ok((k, d1, f1, h1)) => {
                assert(pos + 1 + k <= n);
                lemma_stream_prefix(input, n, pos + 1 + k, d1, f1, h1);
            },
        }
    }
}

/// A stream cut short either fails to decode or decodes to exactly what the
/// whole stream decodes to (the cut then lies after the end marker): no
/// truncation gives different output.
pub proof fn law_truncation_never_alters_output(input: Seq<u8>, n: nat)
    requires
        n <= input.len(),
    ensures
        decode_spec(input.subrange(0, n as int)) is Ok ==> decode_spec(input) == decode_spec(input.subrange(0, n as int)),
        decode_spec(input) is Err ==> decode_spec(input.subrange(0, n as int)) is Err,
{
    if decode_spec(input.subrange(0, n as int)) is Ok {
        lemma_stream_prefix(input, n, 0, reset_model(0, 0, 0), Seq::<u8>::empty(), Seq::<u8>::empty());
    }
}

} // verus!
