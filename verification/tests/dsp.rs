use std::f32::consts::TAU;

use whitenoise::dsp::{
    fill_frames, frame_for, multiply_q15, ChainSettings, ColoredNoise, DspChain, FilterSettings,
    HighPass, LowPass, SIGNAL_ONE,
};

const COEFFICIENT_SCALE: f32 = 32_768.0;

fn to_q15(value: f32) -> i32 {
    (value * COEFFICIENT_SCALE) as i32
}

struct Controls {
    color: f32,
    high_pass_hz: f32,
    low_pass_hz: f32,
    volume: f32,
}

fn high_pass(cutoff_hz: f32, sample_rate: u32) -> FilterSettings {
    FilterSettings {
        alpha: to_q15(1.0 / (1.0 + TAU * cutoff_hz / sample_rate as f32)),
        bypassed: cutoff_hz <= 0.0,
    }
}

fn low_pass(cutoff_hz: f32, sample_rate: u32) -> FilterSettings {
    let bypassed = cutoff_hz <= 0.0;
    FilterSettings {
        alpha: if bypassed {
            32_768
        } else {
            to_q15(1.0 / (1.0 + sample_rate as f32 / (TAU * cutoff_hz)))
        },
        bypassed,
    }
}

fn settings(controls: &Controls, sample_rate: u32) -> ChainSettings {
    let max_cutoff = sample_rate as f32 * 0.45;
    ChainSettings {
        color_q15: to_q15(controls.color.clamp(0.0, 2.0)),
        gain_q15: to_q15(controls.volume.clamp(0.0, 1.0)),
        high_pass: high_pass(controls.high_pass_hz.clamp(0.0, max_cutoff), sample_rate),
        low_pass: low_pass(controls.low_pass_hz.clamp(0.0, max_cutoff), sample_rate),
    }
}

fn smoothing(sample_rate: u32) -> i32 {
    to_q15((460.0 / sample_rate as f32).clamp(0.0, 1.0))
}

fn chain(sample_rate: u32, seed: u32, controls: &Controls) -> DspChain {
    DspChain::new(seed, smoothing(sample_rate), settings(controls, sample_rate))
}

#[test]
fn output_is_deterministic_and_not_silent() {
    let parameters = Controls {
        color: 0.0,
        high_pass_hz: 0.0,
        low_pass_hz: 0.0,
        volume: 1.0,
    };
    let mut first = chain(48_000, 0x1234_5678, &parameters);
    let mut second = chain(48_000, 0x1234_5678, &parameters);
    let mut energy = 0_i64;

    for _ in 0..256 {
        let a = first.next_i16();
        let b = second.next_i16();
        assert_eq!(a, b);
        energy += i64::from(a).abs();
    }

    assert!(energy > 1_000_000);
}

#[test]
fn colors_become_progressively_smoother() {
    fn roughness(color: f32) -> i64 {
        let mut noise = ColoredNoise::new(0x1234_5678);
        let mut previous = 0;
        let mut sum = 0_i64;
        let color_q15 = to_q15(color);

        // Let the recursive filters settle before measuring sample-to-sample
        // energy, a useful proxy for high-frequency spectral content.
        for _ in 0..2_048 {
            previous = noise.next(color_q15);
        }
        for _ in 0..16_384 {
            let current = noise.next(color_q15);
            let difference = i64::from(current - previous);
            sum += difference * difference;
            previous = current;
        }
        sum
    }

    let white = roughness(0.0);
    let pink = roughness(1.0);
    let brown = roughness(2.0);

    assert!(white > pink, "white={white}, pink={pink}");
    assert!(pink > brown, "pink={pink}, brown={brown}");
}

#[test]
fn zero_volume_reaches_silence_without_clipping() {
    let controls = Controls {
        color: 2.0,
        high_pass_hz: 0.0,
        low_pass_hz: 0.0,
        volume: 1.0,
    };
    let mut chain = chain(48_000, 7, &controls);
    chain.set_settings(settings(
        &Controls {
            volume: 0.0,
            ..controls
        },
        48_000,
    ));

    for _ in 0..2_000 {
        let _ = chain.next_i16();
    }

    assert_eq!(chain.gain(), 0);
}

#[test]
fn high_pass_rejects_dc() {
    let mut filter = HighPass::new();
    filter.configure(high_pass(100.0, 48_000));

    let mut output = 0;
    for _ in 0..10_000 {
        output = filter.process(SIGNAL_ONE * 3 / 4);
    }

    assert!(output.abs() <= 1);
}

#[test]
fn low_pass_smooths_a_step() {
    let mut filter = LowPass::new();
    filter.configure(low_pass(1_000.0, 48_000));

    let first = filter.process(SIGNAL_ONE);
    let mut settled = first;
    for _ in 0..1_000 {
        settled = filter.process(SIGNAL_ONE);
    }

    assert!(first > 0 && first < SIGNAL_ONE / 5);
    assert!((settled - SIGNAL_ONE).abs() <= 8);
}

#[test]
fn q15_products_round_down_and_wrap() {
    assert_eq!(multiply_q15(4096, 16_384), 2048);
    assert_eq!(multiply_q15(-3, 16_384), -2);
    assert_eq!(multiply_q15(-1, 1), -1);
    assert_eq!(multiply_q15(100, 32_768), 100);
    // 200000 * 32730 overflows i32 and wraps before the shift.
    assert_eq!(multiply_q15(200_000, 32_730), -62_376);
}

#[test]
fn high_pass_coefficient_for_100_hz() {
    assert_eq!(high_pass(100.0, 48_000).alpha, 32_344);
}

#[test]
fn bypassed_filters_pass_samples_through() {
    let mut high = HighPass::new();
    let mut low = LowPass::new();
    for input in [0, 1, -7, 4095, -4096, 100_000] {
        assert_eq!(high.process(input), input);
        assert_eq!(low.process(input), input);
    }
}

#[test]
fn low_pass_never_overshoots_a_step() {
    let mut filter = LowPass::new();
    filter.configure(low_pass(5_000.0, 48_000));
    let mut previous = 0;
    for _ in 0..200 {
        let output = filter.process(SIGNAL_ONE);
        assert!(previous <= output && output <= SIGNAL_ONE);
        previous = output;
    }
}

#[test]
fn white_samples_are_q12_values_that_vary() {
    let mut white = ColoredNoise::new(3);
    let mut samples = Vec::new();
    for _ in 0..64 {
        let sample = white.next(0);
        assert!((-SIGNAL_ONE..SIGNAL_ONE).contains(&sample));
        samples.push(sample);
    }
    assert!(samples.iter().any(|s| *s != samples[0]));
}

#[test]
fn zero_seed_behaves_as_seed_one() {
    let mut zero = ColoredNoise::new(0);
    let mut one = ColoredNoise::new(1);
    for _ in 0..32 {
        assert_eq!(zero.next(16_384), one.next(16_384));
    }
}

#[test]
fn full_scale_is_clipped_to_16_bit_pcm() {
    // A brown stream at full gain stays within 16-bit PCM by saturation.
    let controls = Controls {
        color: 2.0,
        high_pass_hz: 0.0,
        low_pass_hz: 0.0,
        volume: 1.0,
    };
    let mut chain = chain(48_000, 11, &controls);
    for _ in 0..4_000 {
        let sample = chain.next_i16();
        assert!((-32_768..=32_760).contains(&sample));
        assert_eq!(sample % 8, 0);
    }
}

#[test]
fn frames_repeat_the_sample_in_both_slots() {
    assert_eq!(frame_for(0x1234), 0x1234_1234);
    assert_eq!(frame_for(-1), 0xffff_ffff);
    assert_eq!(frame_for(-32_768), 0x8000_8000);

    let controls = Controls {
        color: 1.0,
        high_pass_hz: 80.0,
        low_pass_hz: 14_000.0,
        volume: 0.2,
    };
    let mut by_frames = chain(48_000, 5, &controls);
    let mut by_samples = chain(48_000, 5, &controls);
    let mut frames = [0_u32; 32];
    fill_frames(&mut by_frames, &mut frames);
    for frame in frames {
        assert_eq!(frame, frame_for(by_samples.next_i16()));
    }
}

#[test]
fn filling_a_buffer_is_rendering_sample_by_sample() {
    let controls = Controls {
        color: 0.5,
        high_pass_hz: 120.0,
        low_pass_hz: 9_000.0,
        volume: 0.7,
    };
    let mut filled = chain(48_000, 99, &controls);
    let mut stepped = chain(48_000, 99, &controls);
    let mut buffer = [0_i16; 48];
    filled.fill_i16(&mut buffer[..20]);
    filled.fill_i16(&mut buffer[20..]);
    for sample in buffer {
        assert_eq!(sample, stepped.next_i16());
    }
}

#[test]
fn raised_gain_moves_up_without_overshoot() {
    let quiet = Controls {
        color: 1.0,
        high_pass_hz: 0.0,
        low_pass_hz: 0.0,
        volume: 0.0,
    };
    let mut chain = chain(48_000, 1, &quiet);
    let loud = Controls { volume: 0.5, ..quiet };
    chain.set_settings(settings(&loud, 48_000));
    let target = to_q15(0.5);
    let mut previous = chain.gain();
    for _ in 0..5_000 {
        let _ = chain.next_i16();
        assert!(previous <= chain.gain() && chain.gain() <= target);
        previous = chain.gain();
    }
    assert!(chain.gain() > target - 128);
}

#[test]
fn settings_validity_is_the_gain_range() {
    let valid = settings(
        &Controls {
            color: 1.0,
            high_pass_hz: 80.0,
            low_pass_hz: 14_000.0,
            volume: 0.2,
        },
        48_000,
    );
    assert!(valid.is_valid());
    assert!(!ChainSettings { gain_q15: 40_000, ..valid }.is_valid());
    assert!(!ChainSettings { gain_q15: -1, ..valid }.is_valid());
}
