use zip_squash::{zip_squash, SizedSource, VecSource, ZipSquash};

fn counting(len: usize) -> VecSource<usize> {
    VecSource::new((0..len).collect())
}

fn drain<I: SizedSource, J: SizedSource>(
    zipper: &mut ZipSquash<I, J>,
) -> Vec<(I::Item, J::Item)> {
    let mut pairs = Vec::new();
    while zipper.in_step() {
        match zipper.next() {
            Some(pair) => pairs.push(pair),
            None => break,
        }
    }
    pairs
}

fn run(a_len: usize, b_len: usize) -> Vec<(usize, usize)> {
    let mut zipper = zip_squash(counting(a_len), counting(b_len));
    drain(&mut zipper)
}

#[test]
fn ten_against_two_strides_by_five() {
    let mut zipper = zip_squash(counting(10), counting(2));
    assert!(zipper.is_paced());
    assert_eq!(zipper.size_hint(), (2, Some(2)));
    assert_eq!(zipper.next(), Some((0, 0)));
    assert_eq!(zipper.size_hint(), (1, Some(1)));
    assert_eq!(zipper.next(), Some((5, 1)));
    assert_eq!(zipper.size_hint(), (0, Some(0)));
    assert_eq!(zipper.next(), None);
    assert_eq!(zipper.next(), None);
}

#[test]
fn two_against_ten_strides_the_second_side() {
    assert_eq!(run(2, 10), vec![(0, 0), (1, 5)]);
}

#[test]
fn three_against_three_is_a_plain_zip() {
    let a = vec!['x', 'y', 'z'];
    let b = vec![7u8, 8, 9];
    let plain: Vec<(char, u8)> = a.iter().cloned().zip(b.iter().cloned()).collect();
    let mut zipper = zip_squash(VecSource::new(a), VecSource::new(b));
    assert!(zipper.is_paced());
    assert_eq!(drain(&mut zipper), plain);
    assert_eq!(plain.len(), 3);
}

#[test]
fn equal_lengths_pair_item_by_item() {
    for len in 0..40usize {
        let expected: Vec<(usize, usize)> = (0..len).map(|i| (i, i)).collect();
        assert_eq!(run(len, len), expected);
    }
}

#[test]
fn empty_against_five_yields_nothing() {
    let mut zipper = zip_squash(counting(0), counting(5));
    assert!(zipper.in_step());
    assert!(zipper.is_paced());
    assert_eq!(zipper.size_hint(), (0, Some(0)));
    assert_eq!(zipper.next(), None);
    assert_eq!(zipper.next(), None);
    assert!(zipper.in_step());
    assert_eq!(zipper.size_hint(), (0, Some(0)));
}

#[test]
fn five_against_empty_yields_nothing() {
    let mut zipper = zip_squash(counting(5), counting(0));
    assert!(zipper.in_step());
    assert_eq!(zipper.next(), None);
    assert_eq!(zipper.size_hint(), (0, Some(0)));
}

#[test]
fn empty_against_empty_yields_nothing() {
    let mut zipper = zip_squash(counting(0), counting(0));
    assert!(zipper.is_paced());
    assert_eq!(zipper.next(), None);
    assert_eq!(zipper.size_hint(), (0, Some(0)));
}

#[test]
fn one_against_many_pairs_the_first_items() {
    assert_eq!(run(1, 9), vec![(0, 0)]);
    assert_eq!(run(9, 1), vec![(0, 0)]);
}

#[test]
fn whole_ratios_stride_evenly() {
    assert_eq!(run(12, 4), vec![(0, 0), (3, 1), (6, 2), (9, 3)]);
    assert_eq!(run(3, 9), vec![(0, 0), (1, 3), (2, 6)]);
}

#[test]
fn fractional_ratios_follow_the_stride_formula() {
    assert_eq!(run(3, 2), vec![(0, 0), (2, 1)]);
    assert_eq!(run(5, 2), vec![(0, 0), (3, 1)]);
    assert_eq!(run(7, 3), vec![(0, 0), (3, 1), (6, 2)]);
    assert_eq!(run(32, 3), vec![(0, 0), (11, 1), (27, 2)]);
    assert_eq!(run(5, 44), vec![(0, 0), (1, 9), (2, 20), (3, 29), (4, 40)]);
}

#[test]
fn paced_runs_yield_as_many_pairs_as_the_shorter_side() {
    for (a_len, b_len) in [(3, 2), (7, 2), (8, 3), (13, 4), (16, 6), (30, 8), (4, 13), (6, 31)] {
        let mut zipper = zip_squash(counting(a_len), counting(b_len));
        assert!(zipper.is_paced());
        let pairs = drain(&mut zipper);
        assert_eq!(pairs.len(), a_len.min(b_len));
        assert!(zipper.in_step());
        assert_eq!(zipper.size_hint(), (0, Some(0)));
        assert_eq!(zipper.next(), None);
    }
}

#[test]
fn four_against_three_falls_out_of_step() {
    let mut zipper = zip_squash(counting(4), counting(3));
    assert!(!zipper.is_paced());
    assert!(zipper.in_step());
    assert_eq!(zipper.next(), Some((0, 0)));
    assert!(zipper.in_step());
    assert_eq!(zipper.next(), Some((2, 1)));
    assert!(!zipper.in_step());
    assert_eq!(zipper.size_hint(), (0, Some(0)));
}

#[test]
fn is_paced_agrees_with_the_run() {
    for a_len in 0..30usize {
        for b_len in 0..30usize {
            let mut zipper = zip_squash(counting(a_len), counting(b_len));
            let paced = zipper.is_paced();
            let pairs = drain(&mut zipper);
            assert_eq!(paced, zipper.in_step(), "{} against {}", a_len, b_len);
            if paced {
                assert_eq!(pairs.len(), a_len.min(b_len));
            }
        }
    }
}

#[test]
fn size_hint_counts_down_to_zero() {
    let mut zipper = zip_squash(counting(21), counting(5));
    assert!(zipper.is_paced());
    let mut last = zipper.size_hint().0;
    assert_eq!(last, 5);
    loop {
        let before = zipper.size_hint();
        assert_eq!(before.1, Some(before.0));
        let pair = zipper.next();
        let after = zipper.size_hint().0;
        assert!(after <= last);
        assert_eq!(pair.is_none(), before.0 == 0);
        if pair.is_none() {
            break;
        }
        assert_eq!(after, before.0 - 1);
        last = after;
    }
    assert_eq!(zipper.size_hint(), (0, Some(0)));
}

#[test]
fn same_inputs_give_the_same_pairs() {
    let first = run(30, 8);
    let second = run(30, 8);
    assert_eq!(first, second);
    assert_eq!(first.len(), 8);
}

#[test]
fn a_zipper_is_a_source_of_pairs() {
    let inner = zip_squash(counting(6), counting(3));
    assert!(inner.is_paced());
    assert_eq!(inner.remaining(), 3);
    let mut outer = zip_squash(inner, counting(3));
    assert_eq!(drain(&mut outer), vec![((0, 0), 0), ((2, 1), 1), ((4, 2), 2)]);
}

#[test]
fn a_zipper_discards_pairs_like_any_source() {
    let mut zipper = zip_squash(counting(12), counting(4));
    zipper.advance_by(2);
    assert_eq!(zipper.remaining(), 2);
    assert_eq!(zipper.pull(), Some((6, 2)));
    zipper.advance_by(7);
    assert_eq!(zipper.remaining(), 0);
    assert_eq!(zipper.pull(), None);
}
