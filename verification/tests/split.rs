use bth_rigging::layers::split::split_slings;

#[test]
fn split_four_onto_two() {
    assert_eq!(split_slings(2, 4), vec![2, 2]);
}

#[test]
fn split_five_onto_two_outer_bias() {
    assert_eq!(split_slings(2, 5), vec![3, 2]);
}

#[test]
fn split_three_onto_two() {
    assert_eq!(split_slings(2, 3), vec![2, 1]);
}

#[test]
fn split_remainder_goes_outer_first() {
    // 7 onto 4: base 1, remainder 3 → first, last, second.
    assert_eq!(split_slings(4, 7), vec![2, 2, 1, 2]);
    // 9 onto 5: base 1, remainder 4 → first, last, second, fourth.
    assert_eq!(split_slings(5, 9), vec![2, 2, 1, 2, 2]);
}

#[test]
fn split_treats_zero_as_one() {
    assert_eq!(split_slings(0, 3), vec![3]);
    assert_eq!(split_slings(3, 0), vec![1, 0, 0]);
    assert_eq!(split_slings(0, 0), vec![1]);
}

#[test]
fn split_conserves_slings() {
    for ends in 0u32..8 {
        for child in 0u32..20 {
            let s = split_slings(ends, child);
            assert_eq!(s.len() as u32, ends.max(1));
            assert_eq!(s.iter().sum::<u32>(), child.max(1));
            let base = child.max(1) / ends.max(1);
            assert!(s.iter().all(|&x| x == base || x == base + 1));
        }
    }
}

#[test]
fn split_more_ends_than_slings() {
    assert_eq!(split_slings(4, 2), vec![1, 0, 0, 1]);
}
