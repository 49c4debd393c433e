//! The bytes of a mono 16-bit PCM WAV file (Microsoft PCM, format tag 1).

use vstd::prelude::*;

use crate::error::PhonoPaperError;

verus! {

/// The little-endian bytes of a 16-bit value.
pub open spec fn le16(v: int) -> Seq<u8> {
    seq![(v % 256) as u8, ((v / 256) % 256) as u8]
}

/// The little-endian bytes of a 32-bit value.
pub open spec fn le32(v: int) -> Seq<u8> {
    seq![
        (v % 256) as u8,
        ((v / 256) % 256) as u8,
        ((v / 65536) % 256) as u8,
        ((v / 16777216) % 256) as u8,
    ]
}

/// The four ASCII bytes of a chunk identifier.
pub open spec fn tag(a: u8, b: u8, c: u8, d: u8) -> Seq<u8> {
    seq![a, b, c, d]
}

/// The 44-byte header of a mono 16-bit PCM WAV file holding `num_samples`
/// samples at `sample_rate` Hz: the RIFF header, a 16-byte `fmt ` chunk and
/// the header of the `data` chunk.
pub open spec fn spec_wav_header(num_samples: int, sample_rate: int) -> Seq<u8> {
    let data_bytes = 2 * num_samples;
    tag(0x52, 0x49, 0x46, 0x46) + le32(36 + data_bytes) + tag(0x57, 0x41, 0x56, 0x45) + tag(
        0x66,
        0x6D,
        0x74,
        0x20,
    ) + le32(16) + le16(1) + le16(1) + le32(sample_rate) + le32(2 * sample_rate) + le16(2) + le16(
        16,
    ) + tag(0x64, 0x61, 0x74, 0x61) + le32(data_bytes)
}

/// The 16-bit two's-complement little-endian encoding of the samples.
pub open spec fn spec_pcm_bytes(samples: Seq<i16>) -> Seq<u8>
    decreases samples.len(),
{
    if samples.len() == 0 {
        seq![]
    } else {
        let v = samples.last() as int;
        spec_pcm_bytes(samples.drop_last()) + le16(
            if v < 0 {
                v + 65536
            } else {
                v
            },
        )
    }
}

/// The largest number of samples whose byte sizes the WAV header can
/// record in its 32-bit fields: `(u32::MAX - 36) / 2`.
pub const MAX_WAV_SAMPLES: usize = 0x7FFF_FFED;

/// The largest number of samples whose byte sizes the WAV header can
/// record in its 32-bit fields.
pub open spec fn max_wav_samples() -> int {
    (0xFFFF_FFFF - 36) / 2
}

/// Append the little-endian bytes of a 16-bit value.
fn push_le16(out: &mut Vec<u8>, v: u32)
    requires
        v < 65536,
    ensures
        final(out)@ == old(out)@ + le16(v as int),
{
    out.push((v % 256) as u8);
    out.push((v / 256) as u8);
    proof {
        assert(final(out)@ =~= old(out)@ + le16(v as int));
    }
}

/// Append the little-endian bytes of a 32-bit value.
fn push_le32(out: &mut Vec<u8>, v: u32)
    ensures
        final(out)@ == old(out)@ + le32(v as int),
{
    out.push((v % 256) as u8);
    out.push(((v / 256) % 256) as u8);
    out.push(((v / 65536) % 256) as u8);
    out.push(((v / 16777216) % 256) as u8);
    proof {
        assert(final(out)@ =~= old(out)@ + le32(v as int));
    }
}

/// Append four tag bytes.
fn push_tag(out: &mut Vec<u8>, a: u8, b: u8, c: u8, d: u8)
    ensures
        final(out)@ == old(out)@ + tag(a, b, c, d),
{
    out.push(a);
    out.push(b);
    out.push(c);
    out.push(d);
    proof {
        assert(final(out)@ =~= old(out)@ + tag(a, b, c, d));
    }
}

/// The bytes of a mono 16-bit PCM WAV file holding `pcm` at `sample_rate`
/// Hz: the 44-byte header, then each sample as a little-endian 16-bit word.
///
/// A sample count whose byte size does not fit the header's 32-bit size
/// fields is an `InvalidFormat` error.
pub fn wav_bytes(pcm: &[i16], sample_rate: u32) -> (r: Result<Vec<u8>, PhonoPaperError>)
    requires
        pcm@.len() <= max_wav_samples() ==> sample_rate <= 0xFFFF_FFFFu32 / 2,
    ensures
        r is Ok <==> pcm@.len() <= max_wav_samples(),
        r matches Ok(bytes) ==> bytes@ == spec_wav_header(pcm@.len() as int, sample_rate as int)
            + spec_pcm_bytes(pcm@),
        r matches Err(e) ==> (e matches PhonoPaperError::InvalidFormat(m) && m@
            == "Sample buffer too large for WAV format (> 4 GiB)"@),
{
    if pcm.len() > MAX_WAV_SAMPLES {
        return Err(
            PhonoPaperError::InvalidFormat(
                "Sample buffer too large for WAV format (> 4 GiB)".to_string(),
            ),
        );
    }
    let num_samples = pcm.len() as u32;
    let data_bytes: u32 = num_samples * 2;
    let mut out: Vec<u8> = Vec::new();
    push_tag(&mut out, 0x52, 0x49, 0x46, 0x46);
    push_le32(&mut out, 36 + data_bytes);
    push_tag(&mut out, 0x57, 0x41, 0x56, 0x45);
    push_tag(&mut out, 0x66, 0x6D, 0x74, 0x20);
    push_le32(&mut out, 16);
    push_le16(&mut out, 1);
    push_le16(&mut out, 1);
    push_le32(&mut out, sample_rate);
    push_le32(&mut out, sample_rate * 2);
    push_le16(&mut out, 2);
    push_le16(&mut out, 16);
    push_tag(&mut out, 0x64, 0x61, 0x74, 0x61);
    push_le32(&mut out, data_bytes);
    let ghost header = out@;
    assert(header =~= spec_wav_header(pcm@.len() as int, sample_rate as int));
    let mut i: usize = 0;
    while i < pcm.len()
        invariant
            i <= pcm@.len(),
            out@ == header + spec_pcm_bytes(pcm@.take(i as int)),
        decreases pcm@.len() - i,
    {
        let s = pcm[i];
        let u: u32 = if s < 0 {
            (s as i32 + 65536) as u32
        } else {
            s as u32
        };
        push_le16(&mut out, u);
        proof {
            let t = pcm@.take(i + 1);
            assert(t.drop_last() =~= pcm@.take(i as int));
            assert(t.last() == s);
            assert(out@ =~= header + spec_pcm_bytes(t));
        }
        i += 1;
    }
    proof {
        assert(pcm@.take(pcm@.len() as int) =~= pcm@);
    }
    Ok(out)
}

/// The unsigned 32-bit value stored little-endian at `bytes[i..i + 4]`.
pub open spec fn read_le32(bytes: Seq<u8>, i: int) -> int {
    bytes[i] as int + 256 * bytes[i + 1] as int + 65536 * bytes[i + 2] as int + 16777216
        * bytes[i + 3] as int
}

/// The unsigned 16-bit value stored little-endian at `bytes[i..i + 2]`.
pub open spec fn read_le16(bytes: Seq<u8>, i: int) -> int {
    bytes[i] as int + 256 * bytes[i + 1] as int
}

/// A 32-bit value reads back from its little-endian bytes.
proof fn lemma_le32_reads_back(v: int)
    requires
        0 <= v <= u32::MAX,
    ensures
        read_le32(le32(v), 0) == v,
{
    let b = le32(v);
    let (q0, q1, q2) = (v / 256, v / 65536, v / 16777216);
    assert(q1 == q0 / 256 && q2 == q1 / 256) by {
        vstd::arithmetic::div_mod::lemma_div_denominator(v, 256, 256);
        vstd::arithmetic::div_mod::lemma_div_denominator(v, 65536, 256);
    }
    assert(q2 < 256);
    assert(b[0] as int == v % 256 && b[1] as int == q0 % 256 && b[2] as int == q1 % 256 && b[3]
        as int == q2);
    assert(v == v % 256 + 256 * q0 && q0 == q0 % 256 + 256 * q1 && q1 == q1 % 256 + 256 * q2);
}

/// A WAV reader finds in the header what the file holds: the RIFF size
/// (36 bytes plus the sample data), a 16-byte PCM format chunk with one
/// channel, `sample_rate` samples per second, 16 bits per sample, a block
/// of 2 bytes, a byte rate of the sample rate times the block size, and a
/// data chunk of two bytes per sample.
pub proof fn lemma_wav_header_fields(num_samples: int, sample_rate: int)
    requires
        0 <= num_samples <= max_wav_samples(),
        0 <= sample_rate <= u32::MAX / 2,
    ensures
        ({
            let h = spec_wav_header(num_samples, sample_rate);
            &&& h.len() == 44
            &&& read_le32(h, 4) == 36 + 2 * num_samples
            &&& read_le32(h, 16) == 16
            &&& read_le16(h, 20) == 1
            &&& read_le16(h, 22) == 1
            &&& read_le32(h, 24) == sample_rate
            &&& read_le16(h, 32) == 2
            &&& read_le32(h, 28) == read_le32(h, 24) * read_le16(h, 32)
            &&& read_le16(h, 34) == 16
            &&& read_le32(h, 40) == 2 * num_samples
        }),
{
    let h = spec_wav_header(num_samples, sample_rate);
    lemma_le32_reads_back(36 + 2 * num_samples);
    lemma_le32_reads_back(16);
    lemma_le32_reads_back(sample_rate);
    lemma_le32_reads_back(2 * sample_rate);
    lemma_le32_reads_back(2 * num_samples);
    let (a, b, c, d) = (le32(36 + 2 * num_samples), le32(sample_rate), le32(2 * sample_rate), le32(
        2 * num_samples,
    ));
    assert(h[4] == a[0] && h[5] == a[1] && h[6] == a[2] && h[7] == a[3]);
    assert(h[24] == b[0] && h[25] == b[1] && h[26] == b[2] && h[27] == b[3]);
    assert(h[28] == c[0] && h[29] == c[1] && h[30] == c[2] && h[31] == c[3]);
    assert(h[40] == d[0] && h[41] == d[1] && h[42] == d[2] && h[43] == d[3]);
}

} // verus!
