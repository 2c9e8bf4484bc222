use vstd::prelude::*;

verus! {

/// Size field written when the length of a stream is not known in advance.
pub const UNKNOWN_SIZE: u32 = 0xffff_ffff;

/// Format tag of IEEE floating-point samples.
pub const FORMAT_FLOAT: u16 = 3;

/// `v` as two little-endian bytes.
pub open spec fn le16(v: nat) -> Seq<u8> {
    seq![(v % 256) as u8, ((v / 256) % 256) as u8]
}

/// `v` as four little-endian bytes.
pub open spec fn le32(v: nat) -> Seq<u8> {
    seq![
        (v % 256) as u8,
        ((v / 256) % 256) as u8,
        ((v / 65536) % 256) as u8,
        ((v / 16777216) % 256) as u8,
    ]
}

/// The bytes of an ASCII tag.
pub open spec fn tag(a: char, b: char, c: char, d: char) -> Seq<u8> {
    seq![a as u8, b as u8, c as u8, d as u8]
}

/// Header of a float WAV stream of unknown length.
pub open spec fn stream_header(channels: nat, sample_rate: nat, bits: nat) -> Seq<u8> {
    tag('R', 'I', 'F', 'F') + le32(UNKNOWN_SIZE as nat) + tag('W', 'A', 'V', 'E') + tag(
        'f',
        'm',
        't',
        ' ',
    ) + le32(16) + le16(FORMAT_FLOAT as nat) + le16(channels) + le32(sample_rate) + le32(
        sample_rate * channels * (bits / 8),
    ) + le16(channels * (bits / 8)) + le16(bits) + tag('d', 'a', 't', 'a') + le32(
        UNKNOWN_SIZE as nat,
    )
}

fn push_le16(out: &mut Vec<u8>, v: u16)
    ensures
        final(out)@ == old(out)@ + le16(v as nat),
{
    out.push((v % 256) as u8);
    out.push(((v / 256) % 256) as u8);
    assert(final(out)@ =~= old(out)@ + le16(v as nat));
}

fn push_le32(out: &mut Vec<u8>, v: u32)
    ensures
        final(out)@ == old(out)@ + le32(v as nat),
{
    out.push((v % 256) as u8);
    out.push(((v / 256) % 256) as u8);
    out.push(((v / 65536) % 256) as u8);
    out.push(((v / 16777216) % 256) as u8);
    assert(final(out)@ =~= old(out)@ + le32(v as nat));
}

fn push_tag(out: &mut Vec<u8>, a: u8, b: u8, c: u8, d: u8)
    ensures
        final(out)@ == old(out)@ + seq![a, b, c, d],
{
    out.push(a);
    out.push(b);
    out.push(c);
    out.push(d);
    assert(final(out)@ =~= old(out)@ + seq![a, b, c, d]);
}

/// The 44-byte header that opens a WAV stream of float samples whose length is not known:
/// both size fields hold the largest value.
pub fn wav_stream_header(channels: u16, sample_rate: u32, bits_per_sample: u16) -> (r: Vec<u8>)
    requires
        sample_rate * channels * (bits_per_sample / 8) <= u32::MAX,
        channels * (bits_per_sample / 8) <= u16::MAX,
    ensures
        r@ == stream_header(channels as nat, sample_rate as nat, bits_per_sample as nat),
        r@.len() == 44,
{
    let bytes_per_sample: u16 = bits_per_sample / 8;
    let block_align: u16 = channels * bytes_per_sample;
    assert(sample_rate * (block_align as nat) == sample_rate * channels * (bits_per_sample / 8))
        by (nonlinear_arith)
        requires
            block_align == channels * bytes_per_sample,
            bytes_per_sample == bits_per_sample / 8,
    ;
    let byte_rate: u32 = sample_rate * (block_align as u32);
    let mut out: Vec<u8> = Vec::new();
    push_tag(&mut out, 82, 73, 70, 70);
    push_le32(&mut out, UNKNOWN_SIZE);
    push_tag(&mut out, 87, 65, 86, 69);
    push_tag(&mut out, 102, 109, 116, 32);
    push_le32(&mut out, 16);
    push_le16(&mut out, FORMAT_FLOAT);
    push_le16(&mut out, channels);
    push_le32(&mut out, sample_rate);
    push_le32(&mut out, byte_rate);
    push_le16(&mut out, block_align);
    push_le16(&mut out, bits_per_sample);
    push_tag(&mut out, 100, 97, 116, 97);
    push_le32(&mut out, UNKNOWN_SIZE);
    assert(out@ =~= stream_header(channels as nat, sample_rate as nat, bits_per_sample as nat));
    out
}

} // verus!
