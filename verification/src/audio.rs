//! Sample-level audio helpers: 16-bit mono PCM, WAV framing, mixing and chaining.
//! (Synthesis itself works in floating point and stays with the application.)

use vstd::prelude::*;

verus! {

/// Sample rate of every synthesized sound, in Hz.
pub const RATE: u32 = 22050;

/// Little-endian bytes of a 16-bit unsigned value.
pub open spec fn le16(v: int) -> Seq<u8> {
    seq![(v % 256) as u8, ((v / 256) % 256) as u8]
}

/// Little-endian bytes of a 32-bit unsigned value.
pub open spec fn le32(v: int) -> Seq<u8> {
    seq![
        (v % 256) as u8,
        ((v / 256) % 256) as u8,
        ((v / 65536) % 256) as u8,
        ((v / 16777216) % 256) as u8,
    ]
}

/// The two's-complement bit pattern of a signed sample, as an unsigned value.
pub open spec fn sample_bits(s: i16) -> int {
    if s < 0 { s + 65536 } else { s as int }
}

/// The bytes of a run of samples, each in little-endian order.
pub open spec fn pcm_bytes(s: Seq<i16>) -> Seq<u8>
    decreases s.len(),
{
    if s.len() == 0 {
        Seq::empty()
    } else {
        pcm_bytes(s.drop_last()) + le16(sample_bits(s.last()))
    }
}

/// The 44-byte header of a mono 16-bit PCM WAV file holding `data_len` bytes of samples.
pub open spec fn wav_header(data_len: int) -> Seq<u8> {
    seq![0x52u8, 0x49, 0x46, 0x46] + le32(36 + data_len) // "RIFF"
    + seq![0x57u8, 0x41, 0x56, 0x45, 0x66, 0x6d, 0x74, 0x20] // "WAVEfmt "
    + le32(16) + le16(1) + le16(1) + le32(RATE as int) + le32(2 * RATE) + le16(2) + le16(16)
    + seq![0x64u8, 0x61, 0x74, 0x61] // "data"
    + le32(data_len)
}

fn push_le16(out: &mut Vec<u8>, v: u32)
    requires
        v < 65536,
    ensures
        final(out)@ == old(out)@ + le16(v as int),
{
    out.push((v % 256) as u8);
    out.push(((v / 256) % 256) as u8);
    assert(final(out)@ =~= old(out)@ + le16(v as int));
}

fn push_le32(out: &mut Vec<u8>, v: u32)
    ensures
        final(out)@ == old(out)@ + le32(v as int),
{
    out.push((v % 256) as u8);
    out.push(((v / 256) % 256) as u8);
    out.push(((v / 65536) % 256) as u8);
    out.push(((v / 16777216) % 256) as u8);
    assert(final(out)@ =~= old(out)@ + le32(v as int));
}

fn push_bytes(out: &mut Vec<u8>, b0: u8, b1: u8, b2: u8, b3: u8)
    ensures
        final(out)@ == old(out)@ + seq![b0, b1, b2, b3],
{
    out.push(b0);
    out.push(b1);
    out.push(b2);
    out.push(b3);
    assert(final(out)@ =~= old(out)@ + seq![b0, b1, b2, b3]);
}

/// Frames 16-bit mono samples at `RATE` as a complete WAV file.
pub fn wav_bytes(samples: &[i16]) -> (out: Vec<u8>)
    requires
        36 + 2 * samples@.len() <= u32::MAX,
    ensures
        out@ == wav_header(2 * samples@.len() as int) + pcm_bytes(samples@),
        out@.len() == 44 + 2 * samples@.len(),
{
    let data_len: u32 = (samples.len() * 2) as u32;
    let mut out: Vec<u8> = Vec::new();
    push_bytes(&mut out, 0x52, 0x49, 0x46, 0x46);
    push_le32(&mut out, 36 + data_len);
    push_bytes(&mut out, 0x57, 0x41, 0x56, 0x45);
    push_bytes(&mut out, 0x66, 0x6d, 0x74, 0x20);
    push_le32(&mut out, 16);
    push_le16(&mut out, 1);
    push_le16(&mut out, 1);
    push_le32(&mut out, RATE);
    push_le32(&mut out, RATE * 2);
    push_le16(&mut out, 2);
    push_le16(&mut out, 16);
    push_bytes(&mut out, 0x64, 0x61, 0x74, 0x61);
    push_le32(&mut out, data_len);
    let ghost header = out@;
    assert(header =~= wav_header(data_len as int));
    assert(samples@.take(0) =~= Seq::<i16>::empty());
    let mut i: usize = 0;
    while i < samples.len()
        invariant
            i <= samples@.len(),
            header == wav_header(data_len as int),
            data_len == 2 * samples@.len(),
            out@ == header + pcm_bytes(samples@.take(i as int)),
        decreases samples@.len() - i,
    {
        let s = samples[i];
        let bits: u32 = if s < 0 { (s as i32 + 65536) as u32 } else { s as u32 };
        push_le16(&mut out, bits);
        proof {
            assert(samples@.take(i + 1).drop_last() =~= samples@.take(i as int));
            assert(samples@.take(i + 1).last() == s);
        }
        i = i + 1;
    }
    assert(samples@.take(samples@.len() as int) =~= samples@);
    proof { lemma_pcm_len(samples@); }
    out
}

/// `pcm_bytes` spends two bytes per sample.
pub proof fn lemma_pcm_len(s: Seq<i16>)
    ensures
        pcm_bytes(s).len() == 2 * s.len(),
    decreases s.len(),
{
    if s.len() > 0 {
        lemma_pcm_len(s.drop_last());
    }
}

/// Sample `i` of a part, or silence past its end.
pub open spec fn sample_or_silence(p: Seq<i16>, i: int) -> int {
    if 0 <= i < p.len() { p[i] as int } else { 0 }
}

/// Sum of sample `i` over the first `k` parts.
pub open spec fn sum_at(parts: Seq<Seq<i16>>, i: int, k: int) -> int
    decreases k,
{
    if k <= 0 {
        0
    } else {
        sum_at(parts, i, k - 1) + sample_or_silence(parts[k - 1], i)
    }
}

/// Length of the longest of the first `k` parts.
pub open spec fn max_len(parts: Seq<Seq<i16>>, k: int) -> int
    decreases k,
{
    if k <= 0 {
        0
    } else {
        let m = max_len(parts, k - 1);
        if parts[k - 1].len() > m { parts[k - 1].len() as int } else { m }
    }
}

/// Saturation into the 16-bit sample range.
pub open spec fn clamp16(v: int) -> int {
    if v < -32768 { -32768 } else if v > 32767 { 32767 } else { v }
}

/// The views of a slice of vectors.
pub open spec fn views(parts: Seq<Vec<i16>>) -> Seq<Seq<i16>> {
    parts.map_values(|p: Vec<i16>| p@)
}

proof fn lemma_sum_bound(parts: Seq<Seq<i16>>, i: int, k: int)
    requires
        0 <= k <= parts.len(),
    ensures
        -32768 * k <= sum_at(parts, i, k) <= 32767 * k,
    decreases k,
{
    if k > 0 {
        lemma_sum_bound(parts, i, k - 1);
    }
}

proof fn lemma_max_len_bound(parts: Seq<Seq<i16>>, k: int, bound: int)
    requires
        0 <= k <= parts.len(),
        forall|j: int| 0 <= j < k ==> #[trigger] parts[j].len() <= bound,
        0 <= bound,
    ensures
        0 <= max_len(parts, k) <= bound,
    decreases k,
{
    if k > 0 {
        lemma_max_len_bound(parts, k - 1, bound);
    }
}

/// Overlays sounds: the result is as long as the longest part, and each
/// sample is the sum of the parts' samples there (silence past a part's
/// end), saturated to the 16-bit range. The sum is kept wide enough that
/// no number of parts can overflow it.
pub fn mix(parts: &[Vec<i16>]) -> (out: Vec<i16>)
    ensures
        out@.len() == max_len(views(parts@), parts@.len() as int),
        forall|i: int|
            0 <= i < out@.len() ==> #[trigger] out@[i] as int == clamp16(
                sum_at(views(parts@), i, parts@.len() as int),
            ),
{
    let ghost ps = views(parts@);
    let mut len: usize = 0;
    let mut k: usize = 0;
    while k < parts.len()
        invariant
            k <= parts@.len(),
            ps == views(parts@),
            len as int == max_len(ps, k as int),
        decreases parts@.len() - k,
    {
        if parts[k].len() > len {
            len = parts[k].len();
        }
        k = k + 1;
    }
    let mut out: Vec<i16> = Vec::new();
    let mut i: usize = 0;
    while i < len
        invariant
            i <= len,
            ps == views(parts@),
            len as int == max_len(ps, parts@.len() as int),
            out@.len() == i,
            forall|t: int|
                0 <= t < i ==> #[trigger] out@[t] as int == clamp16(
                    sum_at(ps, t, parts@.len() as int),
                ),
        decreases len - i,
    {
        let mut sum: i128 = 0;
        let mut j: usize = 0;
        let n: usize = parts.len();
        while j < n
            invariant
                j <= parts@.len(),
                parts@.len() == n,
                ps == views(parts@),
                sum as int == sum_at(ps, i as int, j as int),
            decreases parts@.len() - j,
        {
            proof {
                lemma_sum_bound(ps, i as int, j as int);
            }
            let p = &parts[j];
            let v: i128 = if i < p.len() { p[i] as i128 } else { 0 };
            assert(ps[j as int] == parts@[j as int]@);
            sum = sum + v;
            j = j + 1;
        }
        let c: i16 = if sum < -32768 { -32768 } else if sum > 32767 { 32767 } else { sum as i16 };
        out.push(c);
        i = i + 1;
    }
    out
}

/// Plays sounds one after another: the concatenation of the parts.
pub fn chain(parts: &[Vec<i16>]) -> (out: Vec<i16>)
    ensures
        out@ == views(parts@).flatten(),
{
    let ghost ps = views(parts@);
    let mut out: Vec<i16> = Vec::new();
    let mut k: usize = 0;
    assert(ps.take(0) =~= Seq::<Seq<i16>>::empty());
    while k < parts.len()
        invariant
            k <= parts@.len(),
            ps == views(parts@),
            out@ == ps.take(k as int).flatten(),
        decreases parts@.len() - k,
    {
        let p = &parts[k];
        let mut j: usize = 0;
        let ghost before = out@;
        while j < p.len()
            invariant
                j <= p@.len(),
                out@ == before + p@.take(j as int),
            decreases p@.len() - j,
        {
            out.push(p[j]);
            proof {
                assert(p@.take(j + 1) =~= p@.take(j as int).push(p@[j as int]));
            }
            j = j + 1;
        }
        proof {
            assert(p@.take(p@.len() as int) =~= p@);
            assert(ps.take(k + 1) =~= ps.take(k as int).push(ps[k as int]));
            assert(ps[k as int] == p@);
            ps.take(k as int).lemma_flatten_push(ps[k as int]);
        }
        k = k + 1;
    }
    assert(ps.take(parts@.len() as int) =~= ps);
    out
}

/// The next state of the sound generator's linear congruential noise:
/// `seed * 1664525 + 1013904223`, modulo 2^32.
pub fn lcg_step(seed: u32) -> (r: u32)
    ensures
        r == (seed * 1664525 + 1013904223) % 0x1_0000_0000,
{
    let r = seed.wrapping_mul(1664525).wrapping_add(1013904223);
    assert(r == (seed * 1664525 + 1013904223) % 0x1_0000_0000) by (nonlinear_arith)
        requires
            r == ((seed * 1664525) % 0x1_0000_0000 + 1013904223) % 0x1_0000_0000,
            0 <= seed < 0x1_0000_0000,
    ;
    r
}

} // verus!
