//! 16-bit PCM samples as bytes, and the WAV file that holds them.

use vstd::prelude::*;

verus! {

/// Sample rate of everything the program renders and plays.
pub const SR: u32 = 44100;

/// A sample's 16 bits read as an unsigned number (two's complement).
pub open spec fn sample_bits(s: i16) -> nat {
    if s < 0 {
        (s + 65536) as nat
    } else {
        s as nat
    }
}

/// Two bytes, least significant first.
pub open spec fn le16(v: nat) -> Seq<u8> {
    seq![(v % 256) as u8, ((v / 256) % 256) as u8]
}

/// Four bytes, least significant first.
pub open spec fn le32(v: nat) -> Seq<u8> {
    seq![
        (v % 256) as u8,
        ((v / 256) % 256) as u8,
        ((v / 65536) % 256) as u8,
        ((v / 16777216) % 256) as u8,
    ]
}

/// The samples as little-endian 16-bit words (raw `s16le`).
pub open spec fn pcm_bytes(pcm: Seq<i16>) -> Seq<u8>
    decreases pcm.len(),
{
    if pcm.len() == 0 {
        Seq::empty()
    } else {
        pcm_bytes(pcm.drop_last()) + le16(sample_bits(pcm.last()))
    }
}

/// The 44-byte header of a mono 16-bit 44.1 kHz WAV file of `data_len` bytes
/// of samples: `RIFF`, the RIFF size, `WAVE`, the `fmt ` chunk (PCM, one
/// channel, rate, byte rate, block align 2, 16 bits), `data` and its size.
pub open spec fn wav_header(data_len: nat) -> Seq<u8> {
    seq![82u8, 73, 70, 70] + le32(36 + data_len) + seq![87u8, 65, 86, 69] + seq![102u8, 109, 116, 32]
        + le32(16) + le16(1) + le16(1) + le32(44100) + le32(88200) + le16(2) + le16(16) + seq![
        100u8,
        97,
        116,
        97,
    ] + le32(data_len)
}

/// The size the data chunk records for `n` samples: `2 n` in 32 bits.
pub open spec fn data_size(n: nat) -> nat {
    (2 * n) % 0x1_0000_0000
}

/// A WAV file holding `pcm`.
pub open spec fn wav_file(pcm: Seq<i16>) -> Seq<u8> {
    wav_header(data_size(pcm.len())) + pcm_bytes(pcm)
}

fn push_le16(out: &mut Vec<u8>, v: u16)
    ensures
        final(out)@ == old(out)@ + le16(v as nat),
{
    out.push((v % 256) as u8);
    out.push((v / 256) as u8);
    assert(final(out)@ =~= old(out)@ + le16(v as nat));
}

fn push_le32(out: &mut Vec<u8>, v: u32)
    ensures
        final(out)@ == old(out)@ + le32(v as nat),
{
    out.push((v % 256) as u8);
    out.push(((v / 256) % 256) as u8);
    out.push(((v / 65536) % 256) as u8);
    out.push((v / 16777216) as u8);
    assert(final(out)@ =~= old(out)@ + le32(v as nat));
}

/// Appends the samples as little-endian 16-bit words.
fn push_pcm(out: &mut Vec<u8>, pcm: &[i16])
    ensures
        final(out)@ == old(out)@ + pcm_bytes(pcm@),
{
    let ghost start = out@;
    let mut i: usize = 0;
    assert(pcm@.take(0) =~= Seq::<i16>::empty());
    assert(start + pcm_bytes(Seq::<i16>::empty()) =~= start);
    while i < pcm.len()
        invariant
            i <= pcm@.len(),
            out@ == start + pcm_bytes(pcm@.take(i as int)),
        decreases pcm@.len() - i,
    {
        let s = pcm[i];
        let bits: u16 = if s < 0 {
            (s as i32 + 65536) as u16
        } else {
            s as u16
        };
        push_le16(out, bits);
        proof {
            assert(pcm@.take(i + 1).drop_last() =~= pcm@.take(i as int));
            assert(pcm@.take(i + 1).last() == s);
        }
        i = i + 1;
    }
    assert(pcm@.take(pcm@.len() as int) =~= pcm@);
}

/// The samples as raw little-endian 16-bit words, as a player reads them.
pub fn pcm_le_bytes(pcm: &[i16]) -> (r: Vec<u8>)
    ensures
        r@ == pcm_bytes(pcm@),
{
    let mut out: Vec<u8> = Vec::new();
    push_pcm(&mut out, pcm);
    assert(out@ =~= pcm_bytes(pcm@));
    out
}

/// The bytes of a mono 16-bit 44.1 kHz WAV file holding `pcm`.
pub fn wav_bytes(pcm: &[i16]) -> (r: Vec<u8>)
    requires
        pcm@.len() <= usize::MAX / 2,
        data_size(pcm@.len()) + 36 <= u32::MAX,
    ensures
        r@ == wav_file(pcm@),
{
    let data_len: u32 = ((pcm.len() as u64 * 2) % 0x1_0000_0000) as u32;
    let mut out: Vec<u8> = Vec::new();
    out.push(82);
    out.push(73);
    out.push(70);
    out.push(70);
    push_le32(&mut out, 36 + data_len);
    out.push(87);
    out.push(65);
    out.push(86);
    out.push(69);
    out.push(102);
    out.push(109);
    out.push(116);
    out.push(32);
    push_le32(&mut out, 16);
    push_le16(&mut out, 1);
    push_le16(&mut out, 1);
    push_le32(&mut out, SR);
    push_le32(&mut out, SR * 2);
    push_le16(&mut out, 2);
    push_le16(&mut out, 16);
    out.push(100);
    out.push(97);
    out.push(116);
    out.push(97);
    push_le32(&mut out, data_len);
    assert(out@ =~= wav_header(data_size(pcm@.len())));
    push_pcm(&mut out, pcm);
    out
}

/// The raw bytes hold each sample at `2 i`, low byte first: reading the word
/// back gives the sample's bits.
pub proof fn lemma_pcm_bytes(pcm: Seq<i16>)
    ensures
        pcm_bytes(pcm).len() == 2 * pcm.len(),
        forall|i: int|
            0 <= i < pcm.len() ==> pcm_bytes(pcm)[2 * i] + 256 * pcm_bytes(pcm)[2 * i + 1]
                == sample_bits(#[trigger] pcm[i]),
    decreases pcm.len(),
{
    if pcm.len() > 0 {
        let init = pcm.drop_last();
        lemma_pcm_bytes(init);
        let b = pcm_bytes(pcm);
        let v = sample_bits(pcm.last());
        assert(v < 65536);
        assert forall|i: int| 0 <= i < pcm.len() implies b[2 * i] + 256 * b[2 * i + 1]
            == sample_bits(#[trigger] pcm[i]) by {
            if i < init.len() {
                assert(pcm[i] == init[i]);
                assert(b[2 * i] == pcm_bytes(init)[2 * i]);
                assert(b[2 * i + 1] == pcm_bytes(init)[2 * i + 1]);
            } else {
                assert(b[2 * i] == (v % 256) as u8);
                assert(b[2 * i + 1] == ((v / 256) % 256) as u8);
            }
        }
    }
}

/// A WAV file is its 44-byte header and then the samples: its length is
/// `44 + 2 n`, the data size it records is `2 n` (in 32 bits), and each sample
/// reads back from its two bytes after the header.
pub proof fn lemma_wav_file(pcm: Seq<i16>)
    ensures
        wav_file(pcm).len() == 44 + 2 * pcm.len(),
        wav_file(pcm).subrange(40, 44) == le32(data_size(pcm.len())),
        forall|i: int|
            0 <= i < pcm.len() ==> wav_file(pcm)[44 + 2 * i] + 256 * wav_file(pcm)[45 + 2 * i]
                == sample_bits(#[trigger] pcm[i]),
{
    lemma_pcm_bytes(pcm);
    let h = wav_header(data_size(pcm.len()));
    assert(h.len() == 44);
    assert(wav_file(pcm).subrange(40, 44) =~= le32(data_size(pcm.len())));
    assert forall|i: int| 0 <= i < pcm.len() implies wav_file(pcm)[44 + 2 * i] + 256 * wav_file(
        pcm,
    )[45 + 2 * i] == sample_bits(#[trigger] pcm[i]) by {
        assert(wav_file(pcm)[44 + 2 * i] == pcm_bytes(pcm)[2 * i]);
        assert(wav_file(pcm)[45 + 2 * i] == pcm_bytes(pcm)[2 * i + 1]);
    }
}

} // verus!
