use nnnoiseless::DenoiseState;
use rubato::{FftFixedIn, Resampler};
use voice_pipeline::denoise::{DenoiseStage, DENOISE_FRAME, PCM_SCALE};
use voice_pipeline::frame::{push_frame, take_frame};
use voice_pipeline::layout::{deinterleave, interleave};
use voice_pipeline::playback::playback_block;
use voice_pipeline::resample::ResamplerPlan;
use voice_pipeline::ring::{pipeline_ring, push_or_drop, SampleConsumer, SampleProducer};

struct ResampleWorker {
    resampler: FftFixedIn<f32>,
    channels: usize,
    frame: Vec<u32>,
    flat_in: Vec<f32>,
    planar_in: Vec<Vec<f32>>,
    planar_out: Vec<Vec<f32>>,
    flat_out: Vec<f32>,
    bits_out: Vec<u32>,
}

impl ResampleWorker {
    fn new(plan: ResamplerPlan) -> Self {
        let resampler = FftFixedIn::<f32>::new(
            plan.from_rate,
            plan.to_rate,
            plan.chunk,
            plan.sub_chunks,
            plan.channels,
        )
        .unwrap();
        let planar_in = resampler.input_buffer_allocate(true);
        let planar_out = resampler.output_buffer_allocate(true);
        let out_len = planar_out[0].len() * plan.channels;
        ResampleWorker {
            resampler,
            channels: plan.channels,
            frame: vec![0; plan.chunk * plan.channels],
            flat_in: vec![0.0; plan.chunk * plan.channels],
            planar_in,
            planar_out,
            flat_out: vec![0.0; out_len],
            bits_out: vec![0; out_len],
        }
    }

    fn step(&mut self, input: &mut SampleConsumer, output: &mut SampleProducer) -> bool {
        if !take_frame(input, &mut self.frame) {
            return false;
        }
        for (sample, bits) in self.flat_in.iter_mut().zip(self.frame.iter()) {
            *sample = f32::from_bits(*bits);
        }
        deinterleave(self.channels, &self.flat_in, &mut self.planar_in);
        let (_, produced) = self
            .resampler
            .process_into_buffer(&self.planar_in, &mut self.planar_out, None)
            .unwrap();
        interleave(&self.planar_out, &mut self.flat_out);
        let ready = produced * self.channels;
        for (bits, sample) in self.bits_out.iter_mut().zip(self.flat_out.iter()) {
            *bits = sample.to_bits();
        }
        push_frame(output, &self.bits_out[..ready]);
        true
    }
}

struct DenoiseWorker {
    state: Box<DenoiseState<'static>>,
    stage: DenoiseStage,
    frame: Vec<u32>,
    scaled: Vec<f32>,
    cleaned: Vec<f32>,
    bits_out: Vec<u32>,
}

impl DenoiseWorker {
    fn new() -> Self {
        DenoiseWorker {
            state: DenoiseState::new(),
            stage: DenoiseStage::new(),
            frame: vec![0; DENOISE_FRAME],
            scaled: vec![0.0; DENOISE_FRAME],
            cleaned: vec![0.0; DENOISE_FRAME],
            bits_out: vec![0; DENOISE_FRAME],
        }
    }

    fn step(&mut self, input: &mut SampleConsumer, output: &mut SampleProducer) -> bool {
        if !take_frame(input, &mut self.frame) {
            return false;
        }
        for (sample, bits) in self.scaled.iter_mut().zip(self.frame.iter()) {
            *sample = f32::from_bits(*bits) * PCM_SCALE as f32;
        }
        self.state.process_frame(&mut self.cleaned, &self.scaled);
        for (bits, sample) in self.bits_out.iter_mut().zip(self.cleaned.iter()) {
            *bits = (*sample / PCM_SCALE as f32).to_bits();
        }
        self.stage.emit(output, &self.bits_out);
        true
    }
}

/// Runs the loopback pipeline on `input`, an interleaved capture of
/// `in_channels` channels at `in_rate`, block by block as a device would
/// deliver it, and returns what playback on `out_channels` channels at
/// `out_rate` hears in the same time.
fn self_listen(
    input: &[f32],
    in_rate: u32,
    in_channels: usize,
    out_rate: u32,
    out_channels: usize,
) -> Vec<f32> {
    let (mut capture, mut captured) = pipeline_ring();
    let (mut to_core, mut at_core) = pipeline_ring();
    let (mut to_clean, mut clean) = pipeline_ring();
    let (mut to_device, mut at_device) = pipeline_ring();
    let mut resample_in = ResampleWorker::new(ResamplerPlan::capture_side(in_rate));
    let mut denoise = DenoiseWorker::new();
    let mut resample_out = ResampleWorker::new(ResamplerPlan::playback_side(out_rate));
    let block_in = (in_rate as usize / 100) * in_channels;
    let block_out = (out_rate as usize / 100) * out_channels;
    let mut heard: Vec<f32> = Vec::new();
    let mut block: Vec<u32> = vec![0; block_out];
    for delivered in input.chunks(block_in) {
        for frame in delivered.chunks(in_channels) {
            let mean = frame.iter().sum::<f32>() / in_channels as f32;
            push_or_drop(&mut capture, mean.to_bits());
        }
        loop {
            let mut busy = resample_in.step(&mut captured, &mut to_core);
            busy |= denoise.step(&mut at_core, &mut to_clean);
            busy |= resample_out.step(&mut clean, &mut to_device);
            if !busy {
                break;
            }
        }
        playback_block(&mut at_device, out_channels, &mut block);
        heard.extend(block.iter().map(|bits| f32::from_bits(*bits)));
    }
    heard
}

fn sine(rate: u32, frequency: f32, amplitude: f32, seconds: f32) -> Vec<f32> {
    let count = (rate as f32 * seconds) as usize;
    (0..count)
        .map(|i| {
            amplitude * (2.0 * std::f32::consts::PI * frequency * i as f32 / rate as f32).sin()
        })
        .collect()
}

/// The amplitude of `signal` at `frequency`, under a Hann window.
fn level_at(signal: &[f32], rate: u32, frequency: f64) -> f64 {
    let turn = 2.0 * std::f64::consts::PI;
    let coefficient = 2.0 * (turn * frequency / rate as f64).cos();
    let mut last = 0.0f64;
    let mut before_last = 0.0f64;
    let mut gain = 0.0f64;
    for (i, sample) in signal.iter().enumerate() {
        let window = 0.5 - 0.5 * (turn * i as f64 / signal.len() as f64).cos();
        gain += window;
        let next = *sample as f64 * window + coefficient * last - before_last;
        before_last = last;
        last = next;
    }
    let power = last * last + before_last * before_last - coefficient * last * before_last;
    2.0 * power.max(0.0).sqrt() / gain
}

/// The frequency between `low` and `high`, in steps of `step`, at which
/// `signal` is strongest, and its amplitude there.
fn strongest(signal: &[f32], rate: u32, low: f64, high: f64, step: f64) -> (f64, f64) {
    let mut best = (low, 0.0f64);
    let mut frequency = low;
    while frequency <= high {
        let level = level_at(signal, rate, frequency);
        if level > best.1 {
            best = (frequency, level);
        }
        frequency += step;
    }
    best
}

fn minus_6_dbfs() -> f32 {
    10f32.powf(-6.0 / 20.0)
}

#[test]
fn the_frame_sizes_are_those_of_the_suppressor_and_the_resampler() {
    assert_eq!(DENOISE_FRAME, DenoiseState::FRAME_SIZE);
    let plan = ResamplerPlan::capture_side(44100);
    let worker = ResampleWorker::new(plan);
    assert_eq!(worker.resampler.input_frames_next(), plan.chunk);
    assert_eq!(worker.resampler.nbr_channels(), plan.channels);
    assert_eq!(worker.planar_in.len(), 1);
    assert_eq!(worker.planar_in[0].len(), 960);
}

#[test]
fn silence_in_gives_silence_out() {
    let input: Vec<f32> = vec![0.0; 48000];
    let heard = self_listen(&input, 48000, 1, 48000, 1);
    assert_eq!(heard.len(), 48000);
    assert!(heard.iter().skip(2 * 480).all(|sample| sample.abs() < 1e-6));
}

#[test]
fn a_sine_passes_the_matched_rate_pipeline() {
    let input = sine(48000, 1000.0, minus_6_dbfs(), 1.0);
    let heard = self_listen(&input, 48000, 1, 48000, 1);
    assert_eq!(heard.len(), 48000);
    let settled = &heard[heard.len() - 16384..];
    let sent = level_at(&input[input.len() - 16384..], 48000, 1000.0);
    let (frequency, level) = strongest(settled, 48000, 900.0, 1100.0, 1.0);
    assert!((frequency - 1000.0).abs() <= 5.0);
    assert!(20.0 * (sent / level).log10() <= 3.0);
    let floor = 10f64.powf(-40.0 / 20.0);
    let (_, below) = strongest(settled, 48000, 0.0, 899.0, 2.5);
    let (_, above) = strongest(settled, 48000, 1101.0, 23999.0, 2.5);
    assert!(below < floor);
    assert!(above < floor);
}

#[test]
fn a_sine_keeps_its_pitch_across_a_rate_mismatch() {
    let input = sine(44100, 1000.0, minus_6_dbfs(), 1.0);
    let heard = self_listen(&input, 44100, 1, 48000, 1);
    let seconds = heard.len() as f64 / 48000.0;
    assert!((seconds - 1.0).abs() <= 0.001);
    let settled = &heard[heard.len() - 32768..];
    let (frequency, level) = strongest(settled, 48000, 990.0, 1010.0, 0.1);
    assert!((frequency - 1000.0).abs() <= 1.0);
    assert!(level > 0.25);
}

#[test]
fn start_up_takes_no_longer_than_200_ms() {
    let input = sine(44100, 1000.0, minus_6_dbfs(), 1.0);
    let heard = self_listen(&input, 44100, 1, 48000, 1);
    let first = heard.iter().position(|sample| *sample != 0.0).unwrap();
    assert!(first as f64 / 48000.0 <= 0.2);
}

#[test]
fn identical_channels_come_out_on_every_channel() {
    let mono = sine(48000, 440.0, 0.25, 0.5);
    let stereo: Vec<f32> = mono.iter().flat_map(|sample| [*sample, *sample]).collect();
    let heard_mono = self_listen(&mono, 48000, 1, 48000, 1);
    let heard_stereo = self_listen(&stereo, 48000, 2, 48000, 2);
    assert_eq!(heard_stereo.len(), 2 * heard_mono.len());
    for (i, sample) in heard_mono.iter().enumerate() {
        assert_eq!(heard_stereo[2 * i], *sample);
        assert_eq!(heard_stereo[2 * i + 1], *sample);
    }
    assert!(heard_mono.iter().any(|sample| *sample != 0.0));
}

#[test]
fn the_resampler_at_matched_rates_only_delays() {
    let mut worker = ResampleWorker::new(ResamplerPlan::capture_side(48000));
    let delay = worker.resampler.output_delay();
    let input = sine(48000, 1000.0, minus_6_dbfs(), 0.5);
    let (mut source, mut from_source) = pipeline_ring();
    let (mut to_sink, mut sink) = pipeline_ring();
    let mut output: Vec<f32> = Vec::new();
    let mut frame: Vec<u32> = vec![0; 960];
    for chunk in input.chunks(960) {
        for sample in chunk {
            assert!(push_or_drop(&mut source, sample.to_bits()));
        }
        assert!(worker.step(&mut from_source, &mut to_sink));
        assert!(take_frame(&mut sink, &mut frame));
        output.extend(frame.iter().map(|bits| f32::from_bits(*bits)));
    }
    assert_eq!(output.len(), input.len());
    assert!(delay <= 960);
    for i in 960..input.len() - delay {
        assert!((output[i + delay] - input[i]).abs() < 1e-4);
    }
}
