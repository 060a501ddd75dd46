use rand::seq::SliceRandom;
use rand::Rng;
use skip_list::list::{SkipList, SkipListError};

fn values(list: &SkipList<i64>) -> Vec<i64> {
    list.elements().into_iter().copied().collect()
}

#[test]
fn new_list_is_empty() {
    let list: SkipList<i64> = SkipList::new();
    assert_eq!(list.len(), 0);
    assert!(list.is_empty());
    assert_eq!(list.level(), 1);
    assert!(values(&list).is_empty());
}

#[test]
fn default_list_is_empty() {
    let list: SkipList<u8> = SkipList::default();
    assert_eq!(list.len(), 0);
    assert!(list.is_empty());
    assert_eq!(list.first(), None);
}

#[test]
fn four_inserts_come_out_in_order() {
    let mut list: SkipList<i64> = SkipList::new();
    for v in [5, 1, 9, 3] {
        list.push(v);
    }
    assert_eq!(list.at_rank(1), Some(&1));
    assert_eq!(list.at_rank(2), Some(&3));
    assert_eq!(list.at_rank(3), Some(&5));
    assert_eq!(list.at_rank(4), Some(&9));
    assert_eq!(list.rank_of(&9), Some(4));
    assert_eq!(list.len(), 4);
    assert!(!list.is_empty());
    assert_eq!(list.first(), Some(&1));
    assert_eq!(list.last(), Some(&9));
    assert_eq!(values(&list), vec![1, 3, 5, 9]);
}

#[test]
fn one_of_three_equal_elements_is_removed() {
    let mut list: SkipList<i64> = SkipList::new();
    for v in [2, 2, 2] {
        list.push(v);
    }
    assert_eq!(list.remove(&2), Ok(2));
    assert_eq!(list.len(), 2);
    assert_eq!(values(&list), vec![2, 2]);
    assert_eq!(list.at_rank(1), Some(&2));
    assert_eq!(list.at_rank(2), Some(&2));
    assert_eq!(list.at_rank(3), None);
    assert_eq!(list.rank_of(&2), Some(1));
}

#[test]
fn empty_list_has_nothing_to_give() {
    let mut list: SkipList<i64> = SkipList::new();
    assert_eq!(list.first(), None);
    assert_eq!(list.last(), None);
    assert_eq!(list.at_rank(1), None);
    assert_eq!(list.at_rank(0), None);
    assert_eq!(list.rank_of(&7), None);
    assert_eq!(list.remove(&7), Err(SkipListError::NotFound));
    assert_eq!(list.remove(&0), Err(SkipListError::NotFound));
    assert_eq!(list.remove(&-1), Err(SkipListError::NotFound));
    assert_eq!(list.len(), 0);
    assert!(list.range(&i64::MIN, &i64::MAX).is_empty());
    assert!(list.elements_rev().is_empty());
}

#[test]
fn thousand_random_inserts_then_removes_leave_nothing() {
    let mut rng = rand::thread_rng();
    let mut list: SkipList<i64> = SkipList::new();
    let mut inserted: Vec<i64> = Vec::new();
    for _ in 0..1000 {
        let v: i64 = rng.gen_range(-500..500);
        list.push(v);
        inserted.push(v);
    }
    assert_eq!(list.len(), 1000);
    let mut expected = inserted.clone();
    expected.sort();
    assert_eq!(values(&list), expected);
    inserted.shuffle(&mut rng);
    let mut left = 1000;
    for v in inserted.iter() {
        assert_eq!(list.remove(v), Ok(*v));
        left -= 1;
        assert_eq!(list.len(), left);
    }
    assert_eq!(list.len(), 0);
    assert!(list.is_empty());
    assert_eq!(list.level(), 1);
    assert_eq!(list.first(), None);
    assert_eq!(list.last(), None);
    for level in 0..skip_list::level::MAX_LEVEL {
        assert_eq!(list.forward_at(0, level), None);
    }
    assert_eq!(list.levels_at(0), Some(1));
    assert_eq!(list.span_at(0, 0), Some(0));
}

#[test]
fn at_rank_outside_the_list_is_absent() {
    let mut list: SkipList<i64> = SkipList::new();
    for v in [10, 20, 30] {
        list.push(v);
    }
    assert_eq!(list.at_rank(0), None);
    assert_eq!(list.at_rank(1), Some(&10));
    assert_eq!(list.at_rank(3), Some(&30));
    assert_eq!(list.at_rank(4), None);
    assert_eq!(list.at_rank(usize::MAX), None);
}

#[test]
fn rank_of_finds_the_first_of_equal_elements() {
    let mut list: SkipList<i64> = SkipList::new();
    for v in [4, 7, 7, 7, 9, 1] {
        list.push(v);
    }
    assert_eq!(list.rank_of(&1), Some(1));
    assert_eq!(list.rank_of(&4), Some(2));
    assert_eq!(list.rank_of(&7), Some(3));
    assert_eq!(list.rank_of(&9), Some(6));
    assert_eq!(list.rank_of(&0), None);
    assert_eq!(list.rank_of(&5), None);
    assert_eq!(list.rank_of(&8), None);
    assert_eq!(list.rank_of(&10), None);
}

#[test]
fn rank_round_trip_on_distinct_elements() {
    let mut list: SkipList<i64> = SkipList::new();
    for v in [50, 10, 40, 20, 30, 60, 0] {
        list.push(v);
    }
    for r in 1..=list.len() {
        let e = *list.at_rank(r).unwrap();
        assert_eq!(list.rank_of(&e), Some(r));
    }
}

#[test]
fn remove_of_an_absent_element_changes_nothing() {
    let mut list: SkipList<i64> = SkipList::new();
    for v in [3, 1, 4, 1, 5, 9, 2, 6] {
        list.push(v);
    }
    let before = values(&list);
    let level = list.level();
    let mut spans: Vec<Option<usize>> = Vec::new();
    for rank in 0..=list.len() {
        for l in 0..level {
            spans.push(list.span_at(rank, l));
        }
    }
    assert_eq!(list.remove(&7), Err(SkipListError::NotFound));
    assert_eq!(list.remove(&0), Err(SkipListError::NotFound));
    assert_eq!(list.remove(&10), Err(SkipListError::NotFound));
    assert_eq!(list.len(), 8);
    assert_eq!(values(&list), before);
    assert_eq!(list.level(), level);
    let mut after: Vec<Option<usize>> = Vec::new();
    for rank in 0..=list.len() {
        for l in 0..level {
            after.push(list.span_at(rank, l));
        }
    }
    assert_eq!(after, spans);
}

#[test]
fn remove_takes_the_element_out() {
    let mut list: SkipList<i64> = SkipList::new();
    for v in [3, 1, 4, 1, 5] {
        list.push(v);
    }
    assert_eq!(list.remove(&4), Ok(4));
    assert_eq!(values(&list), vec![1, 1, 3, 5]);
    assert_eq!(list.remove(&1), Ok(1));
    assert_eq!(values(&list), vec![1, 3, 5]);
    assert_eq!(list.remove(&5), Ok(5));
    assert_eq!(values(&list), vec![1, 3]);
    assert_eq!(list.last(), Some(&3));
    assert_eq!(list.remove(&1), Ok(1));
    assert_eq!(list.first(), Some(&3));
    assert_eq!(list.remove(&3), Ok(3));
    assert!(list.is_empty());
    assert_eq!(list.remove(&3), Err(SkipListError::NotFound));
}

#[test]
fn released_slots_are_used_again() {
    let mut list: SkipList<i64> = SkipList::new();
    for round in 0..50 {
        for v in 0..20 {
            list.push(v * 3 + round);
        }
        for v in 0..20 {
            assert_eq!(list.remove(&(v * 3 + round)), Ok(v * 3 + round));
        }
        assert!(list.is_empty());
    }
    list.push(1);
    assert_eq!(values(&list), vec![1]);
}

#[test]
fn range_takes_both_bounds_in() {
    let mut list: SkipList<i64> = SkipList::new();
    for v in [10, 20, 20, 30, 40, 50] {
        list.push(v);
    }
    let got: Vec<i64> = list.range(&20, &40).into_iter().copied().collect();
    assert_eq!(got, vec![20, 20, 30, 40]);
    let got: Vec<i64> = list.range(&15, &45).into_iter().copied().collect();
    assert_eq!(got, vec![20, 20, 30, 40]);
    let got: Vec<i64> = list.range(&0, &100).into_iter().copied().collect();
    assert_eq!(got, vec![10, 20, 20, 30, 40, 50]);
    let got: Vec<i64> = list.range(&50, &50).into_iter().copied().collect();
    assert_eq!(got, vec![50]);
    let got: Vec<i64> = list.range(&21, &29).into_iter().copied().collect();
    assert!(got.is_empty());
    let got: Vec<i64> = list.range(&40, &20).into_iter().copied().collect();
    assert!(got.is_empty());
    let got: Vec<i64> = list.range(&51, &90).into_iter().copied().collect();
    assert!(got.is_empty());
    let got: Vec<i64> = list.range(&-5, &9).into_iter().copied().collect();
    assert!(got.is_empty());
}

#[test]
fn backward_walk_is_the_forward_walk_reversed() {
    let mut rng = rand::thread_rng();
    let mut list: SkipList<i64> = SkipList::new();
    for _ in 0..200 {
        list.push(rng.gen_range(0..50));
    }
    for v in 0..25 {
        let _ = list.remove(&v);
    }
    let forward = values(&list);
    let mut backward: Vec<i64> = list.elements_rev().into_iter().copied().collect();
    assert_eq!(backward.len(), list.len());
    backward.reverse();
    assert_eq!(backward, forward);
}

#[test]
fn traversal_is_sorted_and_as_long_as_len() {
    let mut rng = rand::thread_rng();
    let mut list: SkipList<i64> = SkipList::new();
    for step in 0..400 {
        if step % 3 == 2 {
            let _ = list.remove(&rng.gen_range(0..40));
        } else {
            list.push(rng.gen_range(0..40));
        }
        let seen = values(&list);
        assert_eq!(seen.len(), list.len());
        for pair in seen.windows(2) {
            assert!(pair[0] <= pair[1]);
        }
    }
}

#[test]
fn error_prints_and_compares() {
    assert_eq!(SkipListError::NotFound, SkipListError::NotFound);
    assert_eq!(format!("{:?}", SkipListError::NotFound), "NotFound");
}
