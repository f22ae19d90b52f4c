use chromaprint::audio::Downmix;
use chromaprint::pipeline::drive::{finish, process};

#[test]
fn downmix_stereo_to_mono() {
    let d = &mut Downmix::new(2);
    assert_eq!(process(d, &[1000, -1000, 2, 4]), vec![vec![0, 3]]);
}

#[test]
fn downmix_stereo_rounds_toward_zero() {
    let d = &mut Downmix::new(2);
    assert_eq!(process(d, &[-1, -2, 1, 2]), vec![vec![-1, 1]]);
}

#[test]
fn downmix_mono_passes_through() {
    let d = &mut Downmix::new(1);
    assert_eq!(process(d, &[5, -7, 9]), vec![vec![5, -7, 9]]);
    assert!(finish(d).is_empty());
}

#[test]
fn downmix_many_channels_floors_the_mean() {
    let d = &mut Downmix::new(3);
    assert_eq!(process(d, &[-1, 0, 0, 3, 3, 4, i16::MIN, i16::MIN, i16::MIN]), vec![vec![-1, 3, i16::MIN]]);
}

#[test]
fn downmix_extremes() {
    let d = &mut Downmix::new(2);
    assert_eq!(process(d, &[i16::MAX, i16::MAX, i16::MIN, i16::MIN]), vec![vec![i16::MAX, i16::MIN]]);
}

#[test]
fn downmix_keeps_one_sample_per_frame() {
    let d = &mut Downmix::new(4);
    let input: Vec<i16> = (0..40).collect();
    let out = process(d, &input);
    assert_eq!(out.len(), 1);
    assert_eq!(out[0].len(), input.len() / 4);
    assert_eq!(out[0][0], (0 + 1 + 2 + 3) / 4);
}
