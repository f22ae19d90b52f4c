use chromaprint::pipeline::drive::{collect, finish, process, process_all_flat, process_flat};
use chromaprint::pipeline::{inplace_then, Buf, Inplace, Step, Windows};

struct TestInplace;

impl Inplace<u8> for TestInplace {
    fn process(&mut self, in_out: &mut Vec<u8>) {
        for v in in_out.iter_mut() {
            *v += 1;
        }
    }
}

#[test]
fn then() {
    let pl = &mut chromaprint::pipeline::then(
        chromaprint::pipeline::then(Buf::with_capacity(3), Buf::with_capacity(2)),
        Buf::with_capacity(3),
    );

    assert!(process(pl, &[1, 2, 3, 4]).is_empty());
    assert_eq!(&process(pl, &[5, 6]), &[vec![1, 2, 3], vec![4, 5, 6]]);
    assert!(process(pl, &[7, 8, 9, 10]).is_empty());
    assert_eq!(&finish(pl), &[vec![7, 8, 9], vec![10]]);
}

#[test]
fn then_inplace() {
    let pl = &mut chromaprint::pipeline::then_inplace(Buf::with_capacity(3), TestInplace);

    assert_eq!(&process(pl, &[1u8, 2, 3, 4]), &[vec![2u8, 3, 4]]);
    assert_eq!(&finish(pl), &[vec![5u8]]);
}

#[test]
fn inplace_then_inplace() {
    let pl = &mut chromaprint::pipeline::then_inplace(
        chromaprint::pipeline::then_inplace(Buf::with_capacity(3), inplace_then(TestInplace, TestInplace)),
        TestInplace,
    );

    assert_eq!(&process(pl, &[1u8, 2, 3, 4]), &[vec![4u8, 5, 6]]);
    assert_eq!(&finish(pl), &[vec![7u8]]);
}

#[test]
fn indirect() {
    let b = &mut Buf::with_capacity(3);
    assert!(b.buffered().is_empty());

    assert!(process(b, &[1, 2]).is_empty());
    assert_eq!(&b.buffered(), &[1, 2]);

    assert_eq!(&process(b, &[3, 4, 5]), &[vec![1, 2, 3]]);
    assert_eq!(&b.buffered(), &[4, 5]);

    assert_eq!(&process(b, &[6, 7, 8, 9]), &[vec![4, 5, 6], vec![7, 8, 9]]);
    assert!(b.buffered().is_empty());

    assert!(process(b, &[10]).is_empty());
    assert_eq!(&b.buffered(), &[10]);

    assert_eq!(&finish(b), &[vec![10]]);
    assert!(b.buffered().is_empty());
}

#[test]
fn direct() {
    let b = &mut Buf::with_capacity(3);
    assert!(b.buffered().is_empty());

    assert_eq!(&process(b, &[1, 2, 3]), &[vec![1, 2, 3]]);
    assert!(b.buffered().is_empty());

    assert_eq!(&process(b, &[4, 5, 6, 7]), &[vec![4, 5, 6]]);
    assert_eq!(&b.buffered(), &[7]);

    assert_eq!(&process(b, &[8, 9]), &[vec![7, 8, 9]]);
    assert!(b.buffered().is_empty());

    assert_eq!(&process(b, &[9, 10, 11, 12, 13, 14]), &[vec![9, 10, 11], vec![12, 13, 14]]);
    assert!(b.buffered().is_empty());

    assert!(finish(b).is_empty());
    assert!(b.buffered().is_empty());
}

#[test]
fn windows_test() {
    let data: &[(&[i16], (usize, usize), &[&[usize]])] = &[(
        &[0, 1, 2, 3, 4, 5, 6, 7, 8, 9],
        (4, 2),
        &[
            &[1, 1, 1, 1, 1, 1, 1, 1, 1, 1],
            &[2, 2, 2, 2, 2],
            &[3, 3, 3, 1],
            &[10],
            &[1, 2, 3, 3, 1],
        ],
    )];

    for &(input, (len, step), chunk_seqs) in data {
        let mut expected = Vec::new();
        for i in (0..=input.len() - len).step_by(step) {
            expected.push(input[i..i + len].to_vec())
        }

        for &chunk_seq in chunk_seqs {
            let mut w = Windows::<i16>::new(len, step);

            let mut input = input;
            let mut actual: Vec<Vec<i16>> = Vec::new();

            for &chunk in chunk_seq {
                w.process(&input[..chunk], &mut actual);
                input = &input[chunk..];
            }

            assert_eq!(actual, expected);
        }
    }
}

#[test]
fn windows_finish_emits_the_rest() {
    let mut w = Windows::<i16>::new(4, 3);
    let mut out: Vec<Vec<i16>> = Vec::new();
    w.process(&[1, 2, 3, 4, 5, 6], &mut out);
    assert_eq!(out, vec![vec![1, 2, 3, 4]]);
    assert_eq!(w.available(), 3);
    w.finish(&mut out);
    assert_eq!(out, vec![vec![1, 2, 3, 4], vec![4, 5, 6]]);
    assert_eq!(w.available(), 0);
}

#[test]
fn drive_helpers_flatten() {
    let b = &mut Buf::with_capacity(2);
    assert_eq!(process_flat(b, &[1, 2, 3, 4, 5]), vec![1, 2, 3, 4]);
    let b2 = &mut Buf::with_capacity(2);
    assert_eq!(process_all_flat(b2, &[1, 2, 3]), vec![1, 2, 3]);
    let mut out: Vec<Vec<u8>> = Vec::new();
    collect(&mut out, &[7, 8]);
    assert_eq!(out, vec![vec![7u8, 8]]);
}
