use std::f32::consts::PI;
use std::sync::Arc;

use audio_snippet_detector::detector::{AudioSnippetDetector, NextResult};
use audio_snippet_detector::framer::SampleFramer;
use rustfft::num_complex::Complex;
use rustfft::{Fft, FftPlanner};

const SAMPLE_RATE: f32 = 16_000.0;
const WINDOW_SIZE: usize = 400;
const N_FILTERS: usize = 20;
/// Fixed-point scale for feature coefficients handed to the library.
const COEF_SCALE: f32 = 64.0;

fn hamming_window() -> Vec<f32> {
    (0..WINDOW_SIZE)
        .map(|n| 0.54 - 0.46 * (2.0 * PI * n as f32 / (WINDOW_SIZE as f32 - 1.0)).cos())
        .collect()
}

fn hz_to_mel(hz: f32) -> f32 {
    2595.0 * (1.0 + hz / 700.0).log10()
}

fn mel_to_hz(mel: f32) -> f32 {
    700.0 * (10_f32.powf(mel / 2595.0) - 1.0)
}

fn mel_filter_banks(power_spectrum: &[f32]) -> Vec<f32> {
    let fft_size = power_spectrum.len();
    let nyquist = SAMPLE_RATE / 2.0;
    let mel_max = hz_to_mel(nyquist);
    let mel_step = mel_max / (N_FILTERS + 1) as f32;
    let bin_points: Vec<usize> = (0..N_FILTERS + 2)
        .map(|i| {
            let freq = mel_to_hz(i as f32 * mel_step);
            let bin = (freq / SAMPLE_RATE * fft_size as f32).floor() as usize;
            bin.min(fft_size - 1)
        })
        .collect();
    let mut energies = vec![0.0f32; N_FILTERS];
    for m in 0..N_FILTERS {
        let (start, peak, end) = (bin_points[m], bin_points[m + 1], bin_points[m + 2]);
        for k in start..peak {
            energies[m] +=
                power_spectrum[k] * (k as f32 - start as f32) / (peak as f32 - start as f32);
        }
        for k in peak..=end {
            energies[m] +=
                power_spectrum[k] * (end as f32 - k as f32) / (end as f32 - peak as f32);
        }
    }
    energies
}

/// One raw frame into one quantized 20-coefficient feature row:
/// Hamming window, FFT, power spectrum, mel filterbank, log, DCT-II.
fn mfcc_row(frame: &[i16], fft: &Arc<dyn Fft<f32>>, hamming: &[f32]) -> Vec<i16> {
    let mut buffer: Vec<Complex<f32>> = frame
        .iter()
        .zip(hamming)
        .map(|(&s, &h)| Complex::new(s as f32 / 32768.0 * h, 0.0))
        .collect();
    fft.process(&mut buffer);
    let power: Vec<f32> = buffer.iter().map(|c| c.norm_sqr()).collect();
    let mut energies = mel_filter_banks(&power);
    for e in energies.iter_mut() {
        *e = (*e + 1e-10).ln();
    }
    (0..N_FILTERS)
        .map(|k| {
            let sum: f32 = energies
                .iter()
                .enumerate()
                .map(|(n, &x)| x * (PI / N_FILTERS as f32 * (n as f32 + 0.5) * k as f32).cos())
                .sum();
            (sum * COEF_SCALE) as i16
        })
        .collect()
}

/// The one-shot batch extraction: a whole PCM buffer into one fingerprint.
fn extract_fingerprint(pcm: &Vec<u8>) -> Vec<Vec<i16>> {
    let fft = FftPlanner::new().plan_fft_forward(WINDOW_SIZE);
    let hamming = hamming_window();
    SampleFramer::frames_of_pcm(pcm)
        .iter()
        .map(|frame| mfcc_row(frame, &fft, &hamming))
        .collect()
}

/// One second of a pure tone as little-endian 16-bit mono PCM at 16 kHz.
fn tone_pcm(freq: f32) -> Vec<u8> {
    let mut out = Vec::new();
    for n in 0..16_000 {
        let v = (2.0 * PI * freq * n as f32 / SAMPLE_RATE).sin();
        let s = (v * 0.4 * 32767.0) as i16;
        out.extend_from_slice(&s.to_le_bytes());
    }
    out
}

#[test]
fn extraction_is_deterministic() {
    let pcm = tone_pcm(440.0);
    let first = extract_fingerprint(&pcm);
    let second = extract_fingerprint(&pcm);
    assert!(!first.is_empty());
    assert_eq!(first, second);
}

#[test]
fn tone_stream_matches_enrolled_tone() {
    let mut det = AudioSnippetDetector::new();
    det.add_fingerprint("A".to_string(), extract_fingerprint(&tone_pcm(440.0)))
        .unwrap();
    det.add_fingerprint("B".to_string(), extract_fingerprint(&tone_pcm(880.0)))
        .unwrap();

    let fft = FftPlanner::new().plan_fft_forward(WINDOW_SIZE);
    let hamming = hamming_window();
    let stream = tone_pcm(440.0);
    // Chunks of an odd size, so samples straddle push boundaries.
    for chunk in stream.chunks(999) {
        let frames = det.write(chunk.to_vec()).unwrap();
        for frame in frames {
            det.ingest_feature(mfcc_row(&frame, &fft, &hamming));
        }
    }
    det.close();

    let mut best_a: i64 = -1;
    let mut best_b: i64 = -1;
    loop {
        match det.next() {
            NextResult::Match(qr) => {
                if qr.label == "A" && qr.score > best_a {
                    best_a = qr.score;
                }
                if qr.label == "B" && qr.score > best_b {
                    best_b = qr.score;
                }
            }
            NextResult::EndOfStream => break,
            NextResult::Pending => break,
        }
    }
    assert!(best_a > 900, "the 440 Hz stream must match its own fingerprint, got {}", best_a);
    assert!(best_b <= best_a, "the other tone may never score higher");
}
