use chromaprint::{Algorithm, Chromaprint};

#[test]
fn test2_parameters() {
    let a = Algorithm::Test2;
    assert_eq!(a.sample_rate(), 11025);
    assert_eq!(a.frame_size(), 4096);
    assert_eq!(a.frame_overlap(), 4096 - 4096 / 3);
    assert_eq!(a.item_duration(), 1365);
    assert_eq!(a.delay(), (4 + 15) * 1365 + 2731);
    assert_eq!(Chromaprint::new(a).algorithm(), Algorithm::Test2);
}
