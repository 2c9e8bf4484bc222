use kokoros::reorder::Resequencer;
use kokoros::audio::{concat_chunks, duplicate_channels, interleave_channels, output_samples};
use kokoros::wav::wav_stream_header;

#[test]
fn concatenation_keeps_order_and_length() {
    let chunks = vec![vec![1.0f32, 2.0], vec![], vec![3.0, 4.0, 5.0]];
    let out = concat_chunks(&chunks);
    assert_eq!(out, vec![1.0, 2.0, 3.0, 4.0, 5.0]);
    assert_eq!(out.len(), chunks.iter().map(|c| c.len()).sum::<usize>());
    assert!(concat_chunks::<f32>(&vec![]).is_empty());
}

#[test]
fn stereo_without_shift_duplicates() {
    assert_eq!(duplicate_channels(&vec![0.25f32, -1.0]), vec![0.25, 0.25, -1.0, -1.0]);
}

#[test]
fn stereo_with_shift_interleaves() {
    let left = vec![1.0f32, 2.0];
    let right = vec![-1.0f32, -2.0];
    assert_eq!(interleave_channels(&left, &right), vec![1.0, -1.0, 2.0, -2.0]);
}

#[test]
fn equal_channels_agree_with_duplication() {
    let a = vec![0.1f32, -0.7, 0.3];
    let x: Vec<u32> = interleave_channels(&a, &a).iter().map(|s| s.to_bits()).collect();
    let y: Vec<u32> = duplicate_channels(&a).iter().map(|s| s.to_bits()).collect();
    assert_eq!(x, y);
}

#[test]
fn output_samples_by_layout() {
    let a = vec![1.0f32, 2.0];
    let s = vec![9.0f32, 8.0];
    assert_eq!(output_samples(&a, true, Some(&s)), vec![1.0, 2.0]);
    assert_eq!(output_samples(&a, false, None), vec![1.0, 1.0, 2.0, 2.0]);
    assert_eq!(output_samples(&a, false, Some(&s)), vec![1.0, 9.0, 2.0, 8.0]);
}

#[test]
fn stream_header_bytes() {
    let h = wav_stream_header(1, 24000, 32);
    assert_eq!(h.len(), 44);
    assert_eq!(&h[0..4], b"RIFF");
    assert_eq!(&h[4..8], &[0xff, 0xff, 0xff, 0xff]);
    assert_eq!(&h[8..16], b"WAVEfmt ");
    assert_eq!(&h[16..20], &16u32.to_le_bytes());
    assert_eq!(&h[20..22], &3u16.to_le_bytes());
    assert_eq!(&h[22..24], &1u16.to_le_bytes());
    assert_eq!(&h[24..28], &24000u32.to_le_bytes());
    assert_eq!(&h[28..32], &96000u32.to_le_bytes());
    assert_eq!(&h[32..34], &4u16.to_le_bytes());
    assert_eq!(&h[34..36], &32u16.to_le_bytes());
    assert_eq!(&h[36..40], b"data");
    assert_eq!(&h[40..44], &[0xff, 0xff, 0xff, 0xff]);
    let s = wav_stream_header(2, 24000, 32);
    assert_eq!(&s[28..32], &192000u32.to_le_bytes());
}

#[test]
fn stream_writes_header_once_then_blocks_in_input_order() {
    let lines = ["first line", "second line", "third line"];
    let mut sink: Vec<Vec<u8>> = Vec::new();
    sink.push(wav_stream_header(1, 24000, 32));
    let mut order = Resequencer::new();
    for &i in &[1usize, 2, 0] {
        let samples: Vec<f32> = vec![i as f32; lines[i].len()];
        order.push(i, samples);
        while let Some(block) = order.pop_ready() {
            let bytes: Vec<u8> = block.iter().flat_map(|s| s.to_le_bytes()).collect();
            sink.push(bytes);
        }
    }
    assert_eq!(sink.len(), 4);
    assert_eq!(sink[0].len(), 44);
    for (k, line) in lines.iter().enumerate() {
        assert_eq!(sink[k + 1].len(), 4 * line.len());
        assert_eq!(&sink[k + 1][0..4], &(k as f32).to_le_bytes());
    }
}
