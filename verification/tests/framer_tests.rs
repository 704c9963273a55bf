use audio_snippet_detector::framer::SampleFramer;

fn pcm_bytes(samples: &[i16]) -> Vec<u8> {
    let mut out = Vec::new();
    for s in samples {
        out.extend_from_slice(&s.to_le_bytes());
    }
    out
}

#[test]
fn frame_after_160_samples() {
    let mut framer = SampleFramer::new();
    let samples: Vec<i16> = (1..=160).collect();
    let frames = framer.push_bytes(&pcm_bytes(&samples));
    assert_eq!(frames.len(), 1);
    assert_eq!(frames[0].len(), 400);
    // Cold start: the frame is zero-padded in front of the 160 samples.
    for k in 0..240 {
        assert_eq!(frames[0][k], 0);
    }
    for k in 0..160 {
        assert_eq!(frames[0][240 + k], samples[k]);
    }
}

#[test]
fn full_buffer_frame_is_in_write_order() {
    let mut framer = SampleFramer::new();
    let samples: Vec<i16> = (0..400).collect();
    let frames = framer.push_bytes(&pcm_bytes(&samples));
    // Emissions after samples 160, 320 and 400.
    assert_eq!(frames.len(), 3);
    // After exactly 400 samples the ring holds them all, oldest first.
    for k in 0..400 {
        assert_eq!(frames[2][k], samples[k]);
    }
}

#[test]
fn emission_skips_across_buffer_wrap() {
    // The write index is the sample count modulo 400, so emissions happen
    // at 160, 320, 400, 560, ...: none at 480.
    let mut framer = SampleFramer::new();
    let samples: Vec<i16> = vec![7; 480];
    let frames = framer.push_bytes(&pcm_bytes(&samples));
    assert_eq!(frames.len(), 3);
    let more: Vec<i16> = vec![7; 80];
    let frames2 = framer.push_bytes(&pcm_bytes(&more));
    assert_eq!(frames2.len(), 1);
}

#[test]
fn split_chunks_give_identical_frames() {
    let samples: Vec<i16> = (0..500).map(|x| (x * 37 % 2048) as i16 - 1024).collect();
    let bytes = pcm_bytes(&samples);

    let mut one = SampleFramer::new();
    let frames_one = one.push_bytes(&bytes);

    // The same bytes split so that a sample straddles two pushes.
    let mut two = SampleFramer::new();
    let mut frames_two = two.push_bytes(&bytes[..333].to_vec());
    frames_two.extend(two.push_bytes(&bytes[333..].to_vec()));

    assert_eq!(frames_one, frames_two);
}

#[test]
fn one_shot_framing_matches_incremental() {
    let samples: Vec<i16> = (0..450).map(|x| (x % 97) as i16).collect();
    let bytes = pcm_bytes(&samples);
    let batch = SampleFramer::frames_of_pcm(&bytes);
    let mut inc = SampleFramer::new();
    let streamed = inc.push_bytes(&bytes);
    assert_eq!(batch, streamed);
}

#[test]
fn negative_samples_decode_little_endian() {
    let mut framer = SampleFramer::new();
    let samples: Vec<i16> = {
        let mut v = vec![0i16; 159];
        v.push(-32768);
        v
    };
    let frames = framer.push_bytes(&pcm_bytes(&samples));
    assert_eq!(frames.len(), 1);
    assert_eq!(frames[0][399], -32768);
}
