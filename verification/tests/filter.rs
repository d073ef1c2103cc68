use biquad::{Binary64, Biquad, BiquadCoefficients};

fn b(x: f64) -> Binary64 {
    Binary64::from_bits(x.to_bits())
}

fn f(x: Binary64) -> f64 {
    f64::from_bits(x.to_bits())
}

fn coefficients(a1: f64, a2: f64, b0: f64, b1: f64, b2: f64) -> BiquadCoefficients {
    BiquadCoefficients::new(b(a1), b(a2), b(b0), b(b1), b(b2))
}

fn sample_set() -> BiquadCoefficients {
    coefficients(0.1, 0.2, 0.3, 0.4, 0.5)
}

fn buffer(xs: &[f64]) -> Vec<Binary64> {
    xs.iter().map(|&x| b(x)).collect()
}

fn bits(xs: &[Binary64]) -> Vec<u64> {
    xs.iter().map(|x| x.to_bits()).collect()
}

/// The recurrence in the machine's own arithmetic.
fn reference(c: [f64; 5], xs: &[f64]) -> (Vec<f64>, f64, f64) {
    let (a1, a2, b0, b1, b2) = (c[0], c[1], c[2], c[3], c[4]);
    let mut s1 = 0.0_f64;
    let mut s2 = 0.0_f64;
    let mut out = Vec::new();
    for &x in xs {
        let y = s1 + b0 * x;
        let t1 = s2 + b1 * x - a1 * y;
        let t2 = b2 * x - a2 * y;
        s1 = t1;
        s2 = t2;
        out.push(y);
    }
    (out, s1, s2)
}

fn wave(n: usize) -> Vec<f64> {
    let mut state: u64 = 0x1234_5678_9abc_def1;
    let mut xs = Vec::new();
    for _ in 0..n {
        state ^= state << 13;
        state ^= state >> 7;
        state ^= state << 17;
        xs.push(((state >> 11) as f64) / ((1u64 << 53) as f64) * 2.0 - 1.0);
    }
    xs
}

#[test]
fn coefficients_are_stored_unchanged() {
    let c = sample_set();
    assert_eq!(f(c.a1), 0.1);
    assert_eq!(f(c.a2), 0.2);
    assert_eq!(f(c.b0), 0.3);
    assert_eq!(f(c.b1), 0.4);
    assert_eq!(f(c.b2), 0.5);
    let bq = Biquad::new(c);
    let kept = bq.coefficients();
    assert_eq!(kept.a1.to_bits(), c.a1.to_bits());
    assert_eq!(kept.a2.to_bits(), c.a2.to_bits());
    assert_eq!(kept.b0.to_bits(), c.b0.to_bits());
    assert_eq!(kept.b1.to_bits(), c.b1.to_bits());
    assert_eq!(kept.b2.to_bits(), c.b2.to_bits());
}

#[test]
fn a_new_filter_is_at_rest() {
    let bq = Biquad::new(sample_set());
    assert_eq!(bq.s1.to_bits(), 0);
    assert_eq!(bq.s2.to_bits(), 0);
}

#[test]
fn first_sample_of_a_unit_step() {
    let mut bq = Biquad::new(sample_set());
    let out = bq.process_single(b(1.0));
    assert_eq!(f(out), 0.3);
    assert_eq!(f(bq.s1), 0.4 * 1.0 - 0.1 * 0.3);
    assert_eq!(f(bq.s2), 0.5 * 1.0 - 0.2 * 0.3);
    assert!((f(bq.s1) - 0.37).abs() < 1e-15);
    assert!((f(bq.s2) - 0.44).abs() < 1e-15);
}

#[test]
fn second_sample_of_a_unit_step() {
    let mut bq = Biquad::new(sample_set());
    bq.process_single(b(1.0));
    let out = bq.process_single(b(1.0));
    let s1 = 0.4 * 1.0 - 0.1 * 0.3;
    assert_eq!(f(out), s1 + 0.3 * 1.0);
    assert!((f(out) - 0.67).abs() < 1e-15);
}

#[test]
fn a_buffer_of_ones_equals_sample_by_sample_processing() {
    let mut whole = Biquad::new(sample_set());
    let mut wf = vec![b(1.0); 1024];
    whole.process_waveform(&mut wf);

    let mut single = Biquad::new(sample_set());
    let mut collected = Vec::new();
    for _ in 0..1024 {
        collected.push(single.process_single(b(1.0)));
    }
    assert_eq!(wf.len(), 1024);
    assert_eq!(collected.len(), 1024);
    assert_eq!(bits(&wf), bits(&collected));
    assert_eq!(whole.s1.to_bits(), single.s1.to_bits());
    assert_eq!(whole.s2.to_bits(), single.s2.to_bits());
}

#[test]
fn a_buffer_of_ones_agrees_with_hardware_arithmetic() {
    let mut bq = Biquad::new(sample_set());
    let mut wf = vec![b(1.0); 1024];
    bq.process_waveform(&mut wf);
    let (expected, s1, s2) = reference([0.1, 0.2, 0.3, 0.4, 0.5], &vec![1.0; 1024]);
    for i in 0..1024 {
        assert_eq!(wf[i].to_bits(), expected[i].to_bits(), "sample {}", i);
    }
    assert_eq!(bq.s1.to_bits(), s1.to_bits());
    assert_eq!(bq.s2.to_bits(), s2.to_bits());
}

#[test]
fn a_noisy_waveform_agrees_with_hardware_arithmetic() {
    let c = [-1.8, 0.9, 0.02, 0.04, 0.02];
    let xs = wave(4096);
    let mut bq = Biquad::new(coefficients(c[0], c[1], c[2], c[3], c[4]));
    let mut wf = buffer(&xs);
    bq.process_waveform(&mut wf);
    let (expected, s1, s2) = reference(c, &xs);
    for i in 0..xs.len() {
        assert_eq!(wf[i].to_bits(), expected[i].to_bits(), "sample {}", i);
    }
    assert_eq!(bq.s1.to_bits(), s1.to_bits());
    assert_eq!(bq.s2.to_bits(), s2.to_bits());
}

#[test]
fn an_unstable_filter_diverges_as_hardware_arithmetic_does() {
    let c = [-2.5, 1.7, 1.0, 0.5, 0.25];
    let xs = vec![1.0; 3000];
    let mut bq = Biquad::new(coefficients(c[0], c[1], c[2], c[3], c[4]));
    let mut wf = buffer(&xs);
    bq.process_waveform(&mut wf);
    let (expected, _, _) = reference(c, &xs);
    let mut saw_non_finite = false;
    for i in 0..xs.len() {
        if expected[i].is_nan() {
            assert!(wf[i].is_nan(), "sample {}", i);
        } else {
            assert_eq!(wf[i].to_bits(), expected[i].to_bits(), "sample {}", i);
        }
        saw_non_finite = saw_non_finite || !expected[i].is_finite();
    }
    assert!(saw_non_finite);
}

#[test]
fn an_empty_waveform_changes_nothing() {
    let mut bq = Biquad::new(sample_set());
    bq.process_single(b(1.0));
    let (s1, s2) = (bq.s1.to_bits(), bq.s2.to_bits());
    let mut wf: Vec<Binary64> = Vec::new();
    bq.process_waveform(&mut wf);
    assert!(wf.is_empty());
    assert_eq!(bq.s1.to_bits(), s1);
    assert_eq!(bq.s2.to_bits(), s2);
}

#[test]
fn zero_input_gives_zero_output() {
    let mut bq = Biquad::new(coefficients(-1.3, 0.7, -0.25, 4.0, -9.5));
    let mut wf = buffer(&[0.0, -0.0, 0.0, 0.0, -0.0, -0.0, 0.0, 0.0]);
    bq.process_waveform(&mut wf);
    for y in wf.iter() {
        assert!(y.is_zero());
        assert_eq!(f(*y), 0.0);
    }
    assert!(bq.s1.is_zero());
    assert!(bq.s2.is_zero());
}

#[test]
fn zero_input_with_an_infinite_coefficient_gives_nan() {
    let mut bq = Biquad::new(coefficients(0.1, 0.2, f64::INFINITY, 0.4, 0.5));
    let out = bq.process_single(b(0.0));
    assert!(out.is_nan());
}

#[test]
fn the_same_input_gives_the_same_output_again() {
    let xs = wave(512);
    let mut first = Biquad::new(sample_set());
    let mut second = Biquad::new(sample_set());
    let mut one = buffer(&xs);
    let mut two = buffer(&xs);
    first.process_waveform(&mut one);
    second.process_waveform(&mut two);
    assert_eq!(bits(&one), bits(&two));
    assert_eq!(first.s1.to_bits(), second.s1.to_bits());
    assert_eq!(first.s2.to_bits(), second.s2.to_bits());
}

#[test]
fn splitting_a_waveform_does_not_change_the_output() {
    let xs = wave(300);
    let mut whole = Biquad::new(sample_set());
    let mut all = buffer(&xs);
    whole.process_waveform(&mut all);

    for cut in [0usize, 1, 7, 150, 299, 300] {
        let mut parts = Biquad::new(sample_set());
        let mut head = buffer(&xs[..cut]);
        let mut tail = buffer(&xs[cut..]);
        parts.process_waveform(&mut head);
        parts.process_waveform(&mut tail);
        head.extend(tail);
        assert_eq!(bits(&head), bits(&all), "cut at {}", cut);
        assert_eq!(parts.s1.to_bits(), whole.s1.to_bits());
        assert_eq!(parts.s2.to_bits(), whole.s2.to_bits());
    }
}

#[test]
fn identity_coefficients_pass_the_input_through() {
    let xs = wave(256);
    let mut bq = Biquad::new(coefficients(0.0, 0.0, 1.0, 0.0, 0.0));
    let mut wf = buffer(&xs);
    bq.process_waveform(&mut wf);
    assert_eq!(bits(&wf), bits(&buffer(&xs)));
    assert!(bq.s1.is_zero());
    assert!(bq.s2.is_zero());

    let mut edge = buffer(&[f64::MAX, -f64::MAX, f64::from_bits(1), -1.0e-310, 0.0, -0.0, 5.0]);
    let before: Vec<f64> = edge.iter().map(|x| f(*x)).collect();
    bq.process_waveform(&mut edge);
    for i in 0..edge.len() {
        assert_eq!(f(edge[i]), before[i]);
    }
    assert!(bq.s1.is_zero());
    assert!(bq.s2.is_zero());
}

#[test]
fn registers_reads_both_state_registers() {
    let mut bq = Biquad::new(sample_set());
    let (s1, s2) = bq.registers();
    assert_eq!((s1.to_bits(), s2.to_bits()), (0, 0));
    bq.process_single(b(1.0));
    let (s1, s2) = bq.registers();
    assert_eq!(s1.to_bits(), bq.s1.to_bits());
    assert_eq!(s2.to_bits(), bq.s2.to_bits());
    assert_eq!(f(s1), 0.4 - 0.1 * 0.3);
    assert_eq!(f(s2), 0.5 - 0.2 * 0.3);
}
