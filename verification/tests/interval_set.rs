use interval_set::interval::{ISpaceAdd, Interval, IntervalSet, LenSpace, NulSpace};

fn iv(beg: usize, end: usize) -> Interval {
    Interval { beg, end }
}

fn ivs_of<I: interval_set::interval::IntervalSpace>(s: &IntervalSet<I>) -> Vec<(usize, usize)> {
    let mut out = Vec::new();
    let mut i = 0;
    while i < s.len() {
        let e = s.get(i);
        out.push((e.beg, e.end));
        i += 1;
    }
    out
}

fn infos_of(s: &IntervalSet<LenSpace>) -> Vec<usize> {
    let mut out = Vec::new();
    let mut i = 0;
    while i < s.len() {
        out.push(*s.get_info(i));
        i += 1;
    }
    out
}

#[test]
fn interval_set_add() {
    let mut ivs = IntervalSet::new(NulSpace);
    ivs.extend(vec![iv(7, 9), iv(3, 5)]);
    assert_eq!(ivs_of(&ivs), vec![(3, 5), (7, 9)]);
    ivs.add(iv(5, 7));
    assert_eq!(ivs_of(&ivs), vec![(3, 9)]);
    ivs.extend(vec![iv(7, 8), iv(11, 13), iv(15, 16), iv(18, 19), iv(10, 17)]);
    assert_eq!(ivs_of(&ivs), vec![(3, 9), (10, 17), (18, 19)]);
}

#[test]
fn interval_set_space() {
    let mut ivs = IntervalSet::new(LenSpace);
    ivs.extend(vec![iv(3, 5), iv(7, 9)]);
    ivs.update_space(LenSpace, vec![ISpaceAdd { index: 7, size: 2 }], false);
    assert_eq!(ivs_of(&ivs), vec![(3, 5), (9, 11)]);
    assert_eq!(infos_of(&ivs), vec![2, 2]);
    ivs.update_space(LenSpace, vec![ISpaceAdd { index: 9, size: 2 }], true);
    assert_eq!(ivs_of(&ivs), vec![(3, 5), (9, 13)]);
    assert_eq!(infos_of(&ivs), vec![2, 4]);
    ivs.update_space(LenSpace, vec![ISpaceAdd { index: 10, size: 2 }], false);
    assert_eq!(ivs_of(&ivs), vec![(3, 5), (9, 10), (12, 15)]);
    assert_eq!(infos_of(&ivs), vec![2, 1, 3]);
}

#[test]
fn add_bridges_several_intervals() {
    let mut ivs = IntervalSet::new(NulSpace);
    ivs.extend(vec![iv(2, 3), iv(5, 7), iv(9, 10), iv(12, 13)]);
    assert_eq!(ivs_of(&ivs), vec![(2, 3), (5, 7), (9, 10), (12, 13)]);
    ivs.add(iv(4, 11));
    assert_eq!(ivs_of(&ivs), vec![(2, 3), (4, 11), (12, 13)]);
}

#[test]
fn add_touching_right_merges() {
    let mut ivs = IntervalSet::new(NulSpace);
    ivs.add(iv(7, 9));
    ivs.add(iv(5, 7));
    assert_eq!(ivs_of(&ivs), vec![(5, 9)]);
}

#[test]
fn add_touching_left_merges() {
    let mut ivs = IntervalSet::new(NulSpace);
    ivs.add(iv(3, 5));
    ivs.add(iv(5, 8));
    assert_eq!(ivs_of(&ivs), vec![(3, 8)]);
}

#[test]
fn add_empty_interval_is_noop() {
    let mut ivs = IntervalSet::new(NulSpace);
    ivs.add(iv(3, 5));
    ivs.add(iv(4, 4));
    assert_eq!(ivs_of(&ivs), vec![(3, 5)]);
}

#[test]
fn add_is_idempotent_on_values() {
    let mut once = IntervalSet::new(NulSpace);
    once.add(iv(3, 8));
    let mut twice = IntervalSet::new(NulSpace);
    twice.add(iv(3, 8));
    twice.add(iv(3, 8));
    assert_eq!(ivs_of(&once), ivs_of(&twice));
}

#[test]
fn add_order_does_not_matter() {
    let batch_one = vec![iv(7, 9), iv(3, 5), iv(5, 7), iv(11, 13), iv(10, 17)];
    let batch_two = vec![iv(10, 17), iv(11, 13), iv(5, 7), iv(3, 5), iv(7, 9)];
    let mut a = IntervalSet::new(NulSpace);
    a.extend(batch_one);
    let mut b = IntervalSet::new(NulSpace);
    b.extend(batch_two);
    assert_eq!(ivs_of(&a), ivs_of(&b));
    assert_eq!(ivs_of(&a), vec![(3, 9), (10, 17)]);
}

#[test]
fn add_covered_is_noop() {
    let mut ivs = IntervalSet::new(NulSpace);
    ivs.add(iv(3, 10));
    ivs.add(iv(4, 9));
    ivs.add(iv(3, 7));
    assert_eq!(ivs_of(&ivs), vec![(3, 10)]);
}

#[test]
fn add_exact_prefix_of_next_is_noop() {
    let mut ivs = IntervalSet::new(NulSpace);
    ivs.add(iv(5, 12));
    ivs.add(iv(5, 8));
    assert_eq!(ivs_of(&ivs), vec![(5, 12)]);
}

#[test]
fn add_exact_suffix_extends_nothing() {
    let mut ivs = IntervalSet::new(NulSpace);
    ivs.add(iv(5, 12));
    ivs.add(iv(9, 12));
    assert_eq!(ivs_of(&ivs), vec![(5, 12)]);
}

#[test]
fn update_space_with_no_events_keeps_everything() {
    let mut ivs = IntervalSet::new(LenSpace);
    ivs.extend(vec![iv(3, 5), iv(7, 9)]);
    ivs.update_space(LenSpace, vec![], false);
    assert_eq!(ivs_of(&ivs), vec![(3, 5), (7, 9)]);
    assert_eq!(infos_of(&ivs), vec![2, 2]);
}

#[test]
fn update_space_event_beyond_all_intervals() {
    let mut ivs = IntervalSet::new(LenSpace);
    ivs.extend(vec![iv(3, 5)]);
    ivs.update_space(LenSpace, vec![ISpaceAdd { index: 20, size: 4 }], false);
    assert_eq!(ivs_of(&ivs), vec![(3, 5)]);
    assert_eq!(infos_of(&ivs), vec![2]);
}

#[test]
fn update_space_shifts_everything_right_of_growth() {
    let mut ivs = IntervalSet::new(LenSpace);
    ivs.extend(vec![iv(3, 5), iv(7, 9)]);
    ivs.update_space(LenSpace, vec![ISpaceAdd { index: 0, size: 10 }], false);
    assert_eq!(ivs_of(&ivs), vec![(13, 15), (17, 19)]);
    assert_eq!(infos_of(&ivs), vec![2, 2]);
}

#[test]
fn update_space_extend_mode_grows_at_start() {
    let mut ivs = IntervalSet::new(LenSpace);
    ivs.extend(vec![iv(3, 5)]);
    ivs.update_space(LenSpace, vec![ISpaceAdd { index: 3, size: 2 }], true);
    assert_eq!(ivs_of(&ivs), vec![(3, 7)]);
    assert_eq!(infos_of(&ivs), vec![4]);
}

#[test]
fn update_space_extend_mode_grows_at_end() {
    let mut ivs = IntervalSet::new(LenSpace);
    ivs.extend(vec![iv(3, 5)]);
    ivs.update_space(LenSpace, vec![ISpaceAdd { index: 5, size: 3 }], true);
    assert_eq!(ivs_of(&ivs), vec![(3, 8)]);
    assert_eq!(infos_of(&ivs), vec![5]);
}

#[test]
fn update_space_split_piece_remerges_with_add() {
    let mut ivs = IntervalSet::new(LenSpace);
    ivs.extend(vec![iv(2, 8)]);
    ivs.update_space(LenSpace, vec![ISpaceAdd { index: 4, size: 3 }], false);
    assert_eq!(ivs_of(&ivs), vec![(2, 4), (7, 11)]);
    assert_eq!(infos_of(&ivs), vec![2, 4]);
}

#[test]
fn interval_shift_and_split() {
    let mut a = iv(5, 9);
    a.shift_right(3);
    assert_eq!(a, iv(8, 12));
    a.shift_left(2);
    assert_eq!(a, iv(6, 10));
    let right = a.split_off(8);
    assert_eq!(a, iv(6, 8));
    assert_eq!(right, iv(8, 10));
}

#[test]
fn get_space_returns_the_held_space() {
    let ivs = IntervalSet::new(NulSpace);
    let _s: &NulSpace = ivs.get_space();
    assert_eq!(ivs.len(), 0);
}
