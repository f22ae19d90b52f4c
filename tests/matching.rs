use chromaprint::fingerprint::alignment::{
    align_strip, best_offset_diff, bit_counts, build_histogram, build_offsets, find_best_alignment,
    overlap,
};
use chromaprint::fingerprint::PingPongIter;
use chromaprint::util::{count_ones, hamming_distance};

#[test]
fn iter() {
    let mut it = PingPongIter::new(&[1, 2, 3, 4, 5, 6, 7, 8, 9]);

    it.prev();
    it.prev();
    it.prev();

    assert_eq!(it.get(), 3);
    assert!(it.is_reverse());

    it.next();
    assert_eq!(it.get(), 2);
    assert!(it.is_reverse());

    it.next();
    assert_eq!(it.get(), 1);
    assert!(it.is_reverse());

    it.next();
    assert_eq!(it.get(), 1);
    assert!(!it.is_reverse());

    it.next();
    assert_eq!(it.get(), 2);
    assert!(!it.is_reverse());
}

#[test]
fn iter_turns_at_the_end() {
    let mut it = PingPongIter::new(&[1, 2]);
    it.next();
    assert_eq!((it.get(), it.pos(), it.is_reverse()), (2, 1, false));
    it.next();
    assert_eq!((it.get(), it.pos(), it.is_reverse()), (2, 1, true));
    it.next();
    assert_eq!((it.get(), it.pos(), it.is_reverse()), (1, 0, true));
}

#[test]
fn hamming_distance_counts_differing_bits() {
    assert_eq!(hamming_distance(0, 0), 0);
    assert_eq!(hamming_distance(0b1011, 0b0001), 2);
    assert_eq!(hamming_distance(0xffff_ffff, 0), 32);
    assert_eq!(hamming_distance(0x1234_5678, 0x1234_5678), 0);
    assert_eq!(hamming_distance(0xdead_beef, 0x0bad_f00d), hamming_distance(0x0bad_f00d, 0xdead_beef));
    assert_eq!(count_ones(0x8000_0001), 2);
}

#[test]
fn strip_keeps_top_twelve_bits() {
    assert_eq!(align_strip(0xabcd_ef01), 0xabc);
    assert_eq!(align_strip(0x000f_ffff), 0);
}

#[test]
fn offsets_are_sorted_entries() {
    let fp1 = [0x3000_0000u32, 0x1000_0000];
    let fp2 = [0x2000_0000u32];
    let o = build_offsets(&fp1, &fp2);
    assert_eq!(o, vec![0x1000_0001, 0x2008_0000, 0x3000_0000]);
}

#[test]
fn histogram_counts_equal_hashes() {
    let fp = [0x1000_0000u32, 0x2000_0000, 0x3000_0000];
    let o = build_offsets(&fp, &fp);
    let h = build_histogram(&o, 3, 3);
    assert_eq!(h, vec![0, 0, 0, 3, 0, 0]);
}

#[test]
fn best_alignment_picks_highest_first_peak() {
    assert_eq!(find_best_alignment(&[0, 2, 0, 3, 1, 3]), Some(3));
    assert_eq!(find_best_alignment(&[1, 1, 0]), None);
    assert_eq!(find_best_alignment(&[2, 2]), Some(0));
    assert_eq!(find_best_alignment(&[]), None);
}

#[test]
fn identical_fingerprints_align_at_their_length() {
    let fp: Vec<u32> = (0..50u32).map(|i| i.wrapping_mul(0x9e37_79b9)).collect();
    assert_eq!(best_offset_diff(&fp, &fp), Some(fp.len()));
    let (o1, o2, len) = overlap(fp.len(), fp.len(), fp.len());
    assert_eq!((o1, o2, len), (0, 0, fp.len()));
    assert!(bit_counts(&fp, &fp, o1, o2, len).iter().all(|&c| c == 0));
}

#[test]
fn overlap_of_shifted_fingerprints() {
    assert_eq!(overlap(10, 4, 6), (2, 0, 4));
    assert_eq!(overlap(10, 4, 1), (0, 3, 1));
    assert_eq!(bit_counts(&[0, 1, 3], &[3, 3], 1, 0, 2), vec![1, 0]);
}

#[test]
fn too_long_fingerprints_do_not_align() {
    let long = vec![0u32; 0x7ffff];
    assert_eq!(best_offset_diff(&long, &[0, 0]), None);
}
