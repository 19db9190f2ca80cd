//! Assembly of the synthesized sound effects: mixing sample tracks and
//! framing them as a mono 16-bit PCM WAV file.

use vstd::prelude::*;

verus! {

/// Samples per second of every sound the game plays.
pub const SAMPLE_RATE: u32 = 44100;

/// Little-endian bytes of a 16-bit unsigned value.
pub open spec fn le_u16(x: nat) -> Seq<u8> {
    seq![(x % 256) as u8, ((x / 256) % 256) as u8]
}

/// Little-endian bytes of a 32-bit unsigned value.
pub open spec fn le_u32(x: nat) -> Seq<u8> {
    seq![
        (x % 256) as u8,
        ((x / 256) % 256) as u8,
        ((x / 65536) % 256) as u8,
        ((x / 16777216) % 256) as u8,
    ]
}

/// The two's-complement bit pattern of a sample, as an unsigned number.
pub open spec fn sample_bits(s: i16) -> nat {
    if s < 0 {
        (s + 65536) as nat
    } else {
        s as nat
    }
}

/// The PCM payload: each sample as two little-endian bytes, in order.
pub open spec fn pcm_data(samples: Seq<i16>) -> Seq<u8>
    decreases samples.len(),
{
    if samples.len() == 0 {
        Seq::empty()
    } else {
        pcm_data(samples.drop_last()) + le_u16(sample_bits(samples.last()))
    }
}

/// The 44-byte RIFF/WAVE header of a mono, 16-bit, 44.1 kHz file whose data
/// chunk holds `data_len` bytes: "RIFF", size, "WAVE", "fmt ", the format
/// chunk (PCM, one channel, rate, byte rate, block align, bits per sample),
/// "data" and the data size.
pub open spec fn wav_header(data_len: nat) -> Seq<u8> {
    seq![0x52u8, 0x49u8, 0x46u8, 0x46u8] + le_u32(36 + data_len) + seq![0x57u8, 0x41u8, 0x56u8, 0x45u8]
        + seq![0x66u8, 0x6du8, 0x74u8, 0x20u8] + le_u32(16) + le_u16(1) + le_u16(1) + le_u32(
        44100,
    ) + le_u32(88200) + le_u16(2) + le_u16(16) + seq![0x64u8, 0x61u8, 0x74u8, 0x61u8] + le_u32(
        data_len,
    )
}

/// The whole WAV file for a sample track.
pub open spec fn wav_bytes(samples: Seq<i16>) -> Seq<u8> {
    wav_header(2 * samples.len()) + pcm_data(samples)
}

fn push_le_u16(bytes: &mut Vec<u8>, x: u16)
    ensures
        final(bytes)@ == old(bytes)@ + le_u16(x as nat),
{
    bytes.push((x % 256) as u8);
    bytes.push((x / 256) as u8);
}

fn push_le_u32(bytes: &mut Vec<u8>, x: u32)
    ensures
        final(bytes)@ == old(bytes)@ + le_u32(x as nat),
{
    bytes.push((x % 256) as u8);
    bytes.push(((x / 256) % 256) as u8);
    bytes.push(((x / 65536) % 256) as u8);
    bytes.push((x / 16777216) as u8);
}

fn push_tag(bytes: &mut Vec<u8>, a: u8, b: u8, c: u8, d: u8)
    ensures
        final(bytes)@ == old(bytes)@ + seq![a, b, c, d],
{
    bytes.push(a);
    bytes.push(b);
    bytes.push(c);
    bytes.push(d);
}

/// Frames `samples` as a mono 16-bit PCM WAV file at 44.1 kHz.
pub fn build_wav_bytes(samples: &[i16]) -> (bytes: Vec<u8>)
    requires
        36 + 2 * samples@.len() <= u32::MAX,
    ensures
        bytes@ == wav_bytes(samples@),
        bytes@.len() == 44 + 2 * samples@.len(),
{
    let sample_rate: u32 = SAMPLE_RATE;
    let channels: u16 = 1;
    let bits_per_sample: u16 = 16;
    let block_align: u16 = channels * (bits_per_sample / 8);
    let byte_rate: u32 = sample_rate * (block_align as u32);
    let data_len: u32 = (samples.len() * 2) as u32;
    let mut bytes: Vec<u8> = Vec::new();

    push_tag(&mut bytes, 0x52, 0x49, 0x46, 0x46);
    push_le_u32(&mut bytes, 36 + data_len);
    push_tag(&mut bytes, 0x57, 0x41, 0x56, 0x45);
    push_tag(&mut bytes, 0x66, 0x6d, 0x74, 0x20);
    push_le_u32(&mut bytes, 16);
    push_le_u16(&mut bytes, 1);
    push_le_u16(&mut bytes, channels);
    push_le_u32(&mut bytes, sample_rate);
    push_le_u32(&mut bytes, byte_rate);
    push_le_u16(&mut bytes, block_align);
    push_le_u16(&mut bytes, bits_per_sample);
    push_tag(&mut bytes, 0x64, 0x61, 0x74, 0x61);
    push_le_u32(&mut bytes, data_len);
    assert(bytes@ == wav_header(2 * samples@.len()));
    let ghost header = bytes@;

    let mut i: usize = 0;
    while i < samples.len()
        invariant
            i <= samples@.len(),
            header == wav_header(2 * samples@.len()),
            bytes@ == header + pcm_data(samples@.subrange(0, i as int)),
        decreases samples@.len() - i,
    {
        let s: i16 = samples[i];
        let bits: u16 = if s < 0 {
            (s as i32 + 65536) as u16
        } else {
            s as u16
        };
        push_le_u16(&mut bytes, bits);
        proof {
            let pre = samples@.subrange(0, i as int);
            let next = samples@.subrange(0, i + 1);
            assert(next.drop_last() =~= pre);
            assert(next.last() == s);
        }
        i = i + 1;
    }
    proof {
        assert(samples@.subrange(0, samples@.len() as int) =~= samples@);
        lemma_pcm_data_len(samples@);
    }
    bytes
}

proof fn lemma_pcm_data_len(samples: Seq<i16>)
    ensures
        pcm_data(samples).len() == 2 * samples.len(),
    decreases samples.len(),
{
    if samples.len() > 0 {
        lemma_pcm_data_len(samples.drop_last());
    }
}

/// A sum of samples limited to the range of an `i16`.
pub open spec fn clamp_i16(v: int) -> i16 {
    if v < -32768 {
        -32768i16
    } else if v > 32767 {
        32767i16
    } else {
        v as i16
    }
}

/// The sample tracks held by a sequence of vectors.
pub open spec fn track_views(s: Seq<Vec<i16>>) -> Seq<Seq<i16>> {
    s.map_values(|v: Vec<i16>| v@)
}

/// The length of the longest track (0 when there is none).
pub open spec fn longest(tracks: Seq<Seq<i16>>) -> nat
    decreases tracks.len(),
{
    if tracks.len() == 0 {
        0
    } else {
        let rest = longest(tracks.drop_last());
        if tracks.last().len() > rest {
            tracks.last().len()
        } else {
            rest
        }
    }
}

/// `acc` with `track` added sample by sample, each sum limited to the
/// `i16` range; samples past the end of `track` are kept.
pub open spec fn mix_in(acc: Seq<i16>, track: Seq<i16>) -> Seq<i16> {
    Seq::new(
        acc.len(),
        |i: int|
            if i < track.len() {
                clamp_i16(acc[i] + track[i])
            } else {
                acc[i]
            },
    )
}

/// Silence of `len` samples with the tracks added one after the other.
pub open spec fn mixed(tracks: Seq<Seq<i16>>, len: nat) -> Seq<i16>
    decreases tracks.len(),
{
    if tracks.len() == 0 {
        Seq::new(len, |i: int| 0i16)
    } else {
        mix_in(mixed(tracks.drop_last(), len), tracks.last())
    }
}

/// The mix of the tracks: as long as the longest, each sample the sum of
/// the tracks' samples, limited to the `i16` range after each track is
/// added.
pub open spec fn mix(tracks: Seq<Seq<i16>>) -> Seq<i16> {
    mixed(tracks, longest(tracks))
}

proof fn lemma_longest_bounds(tracks: Seq<Seq<i16>>, k: int)
    requires
        0 <= k < tracks.len(),
    ensures
        tracks[k].len() <= longest(tracks),
    decreases tracks.len(),
{
    if k < tracks.len() - 1 {
        lemma_longest_bounds(tracks.drop_last(), k);
    }
}

/// A mix over `len` samples has `len` samples.
pub proof fn lemma_mixed_len(tracks: Seq<Seq<i16>>, len: nat)
    ensures
        mixed(tracks, len).len() == len,
    decreases tracks.len(),
{
    if tracks.len() > 0 {
        lemma_mixed_len(tracks.drop_last(), len);
    }
}

/// Mixes sample tracks into one, as long as the longest of them.
pub fn mix_segments(segments: &[Vec<i16>]) -> (out: Vec<i16>)
    ensures
        out@ == mix(track_views(segments@)),
        out@.len() == longest(track_views(segments@)),
{
    let ghost tracks = track_views(segments@);
    let mut len: usize = 0;
    let mut k: usize = 0;
    while k < segments.len()
        invariant
            k <= segments@.len(),
            tracks == track_views(segments@),
            len == longest(tracks.subrange(0, k as int)),
        decreases segments@.len() - k,
    {
        proof {
            assert(tracks.subrange(0, k + 1).drop_last() =~= tracks.subrange(0, k as int));
        }
        if segments[k].len() > len {
            len = segments[k].len();
        }
        k = k + 1;
    }
    proof {
        assert(tracks.subrange(0, segments@.len() as int) =~= tracks);
    }
    let mut out: Vec<i16> = vec![0i16; len];
    proof {
        assert(out@ =~= mixed(tracks.subrange(0, 0), len as nat));
    }
    let mut k: usize = 0;
    while k < segments.len()
        invariant
            k <= segments@.len(),
            tracks == track_views(segments@),
            len == longest(tracks),
            out@ == mixed(tracks.subrange(0, k as int), len as nat),
        decreases segments@.len() - k,
    {
        let segment = &segments[k];
        proof {
            lemma_longest_bounds(tracks, k as int);
            lemma_mixed_len(tracks.subrange(0, k as int), len as nat);
            assert(tracks.subrange(0, k + 1).drop_last() =~= tracks.subrange(0, k as int));
            assert(tracks[k as int] == segment@);
        }
        let ghost prev = out@;
        let mut i: usize = 0;
        while i < segment.len()
            invariant
                i <= segment@.len(),
                segment@.len() <= len,
                prev.len() == len,
                out@ == Seq::new(
                    len as nat,
                    |x: int|
                        if x < i {
                            clamp_i16(prev[x] + segment@[x])
                        } else {
                            prev[x]
                        },
                ),
            decreases segment@.len() - i,
        {
            let sum: i32 = out[i] as i32 + segment[i] as i32;
            let clamped: i16 = if sum < -32768 {
                -32768
            } else if sum > 32767 {
                32767
            } else {
                sum as i16
            };
            out.set(i, clamped);
            proof {
                assert(out@ =~= Seq::new(
                    len as nat,
                    |x: int|
                        if x < i + 1 {
                            clamp_i16(prev[x] + segment@[x])
                        } else {
                            prev[x]
                        },
                ));
            }
            i = i + 1;
        }
        proof {
            assert(out@ =~= mix_in(prev, segment@));
        }
        k = k + 1;
    }
    proof {
        lemma_mixed_len(tracks, len as nat);
    }
    out
}

/// Appends `tail` to `out`.
fn extend_samples(out: &mut Vec<i16>, tail: &Vec<i16>)
    ensures
        final(out)@ == old(out)@ + tail@,
{
    let ghost start = out@;
    let mut i: usize = 0;
    while i < tail.len()
        invariant
            i <= tail@.len(),
            out@ == start + tail@.subrange(0, i as int),
        decreases tail@.len() - i,
    {
        out.push(tail[i]);
        proof {
            assert(start + tail@.subrange(0, i + 1) =~= (start + tail@.subrange(0, i as int)).push(tail@[i as int]));
        }
        i = i + 1;
    }
    proof {
        assert(tail@.subrange(0, tail@.len() as int) =~= tail@);
    }
}

/// The jingle played when a wave is cleared: its three rising notes, one
/// after the other.
pub fn build_wave_clear(first: Vec<i16>, second: Vec<i16>, third: Vec<i16>) -> (out: Vec<i16>)
    ensures
        out@ == first@ + second@ + third@,
{
    let mut out = first;
    extend_samples(&mut out, &second);
    extend_samples(&mut out, &third);
    out
}

/// The game-over sting: its three falling notes, one after the other.
pub fn build_game_over(first: Vec<i16>, second: Vec<i16>, fall: Vec<i16>) -> (out: Vec<i16>)
    ensures
        out@ == first@ + second@ + fall@,
{
    let mut out = first;
    extend_samples(&mut out, &second);
    extend_samples(&mut out, &fall);
    out
}

/// One march step: the thud, crunch, scrape and click layers mixed.
fn build_march_crunch(thud: Vec<i16>, crunch: Vec<i16>, scrape: Vec<i16>, click: Vec<i16>) -> (out: Vec<i16>)
    ensures
        out@ == mix(seq![thud@, crunch@, scrape@, click@]),
{
    let layers = vec![thud, crunch, scrape, click];
    let out = mix_segments(layers.as_slice());
    proof {
        assert(track_views(layers@) =~= seq![layers@[0]@, layers@[1]@, layers@[2]@, layers@[3]@]);
    }
    out
}

/// The lower of the two alternating march steps, from its four layers.
pub fn build_march_low(thud: Vec<i16>, crunch: Vec<i16>, scrape: Vec<i16>, click: Vec<i16>) -> (out: Vec<i16>)
    ensures
        out@ == mix(seq![thud@, crunch@, scrape@, click@]),
{
    build_march_crunch(thud, crunch, scrape, click)
}

/// The higher of the two alternating march steps, from its four layers.
pub fn build_march_high(thud: Vec<i16>, crunch: Vec<i16>, scrape: Vec<i16>, click: Vec<i16>) -> (out: Vec<i16>)
    ensures
        out@ == mix(seq![thud@, crunch@, scrape@, click@]),
{
    build_march_crunch(thud, crunch, scrape, click)
}

/// The noise generator's step: the state times 1664525 plus 1013904223,
/// modulo 2^32.
pub open spec fn noise_step(state: u32) -> u32 {
    ((state * 1664525 + 1013904223) % 0x1_0000_0000) as u32
}

/// Advances the noise generator and answers the top 24 bits of the new
/// state, the noise level out of 2^24 - 1.
pub fn next_noise(state: &mut u32) -> (level: u32)
    ensures
        *final(state) == noise_step(*old(state)),
        level == noise_step(*old(state)) / 256,
{
    let s0: u32 = *state;
    let product: u32 = s0.wrapping_mul(1664525);
    let next: u32 = product.wrapping_add(1013904223);
    proof {
        let r: int = 0x1_0000_0000;
        let a: int = s0 as int * 1664525;
        assert(product as int == a % r);
        vstd::arithmetic::div_mod::lemma_add_mod_noop_right(1013904223, a, r);
        assert((1013904223 + a % r) % r == (1013904223 + a) % r);
        assert(1013904223 + a % r < 2 * r);
        assert(next as int == (a % r + 1013904223) % r);
    }
    *state = next;
    let level: u32 = next >> 8;
    assert(level == next / 256) by (bit_vector)
        requires
            level == next >> 8,
    ;
    level
}

} // verus!
