use rand::Rng;
use skip_list::level::MAX_LEVEL;
use skip_list::list::{SkipList, SkipListNode};

#[derive(Debug, Clone, Copy)]
struct Tagged {
    key: i32,
    tag: char,
}

impl PartialEq for Tagged {
    fn eq(&self, other: &Self) -> bool {
        self.key == other.key
    }
}

impl PartialOrd for Tagged {
    fn partial_cmp(&self, other: &Self) -> Option<std::cmp::Ordering> {
        self.key.partial_cmp(&other.key)
    }
}

fn tags(list: &SkipList<Tagged>) -> Vec<char> {
    list.elements().into_iter().map(|t| t.tag).collect()
}

/// Measures every span by walking the ranks, and compares.
fn check_spans(list: &SkipList<i64>) {
    let len = list.len();
    let mut heights: Vec<usize> = Vec::new();
    for rank in 0..=len {
        heights.push(list.levels_at(rank).unwrap());
    }
    assert_eq!(heights[0], list.level());
    for rank in 0..=len {
        assert!(heights[rank] >= 1);
        assert!(heights[rank] <= heights[0]);
        for level in 0..heights[rank] {
            let mut next = rank + 1;
            while next <= len && heights[next] <= level {
                next += 1;
            }
            if next <= len {
                assert_eq!(list.span_at(rank, level), Some(next - rank));
                assert_eq!(list.forward_at(rank, level), list.at_rank(next));
            } else {
                assert_eq!(list.span_at(rank, level), Some(len - rank));
                assert_eq!(list.forward_at(rank, level), None);
            }
        }
        assert_eq!(list.span_at(rank, heights[rank]), None);
        assert_eq!(list.forward_at(rank, heights[rank]), None);
    }
    assert_eq!(list.levels_at(len + 1), None);
    assert_eq!(list.span_at(len + 1, 0), None);
    if len > 0 {
        let tallest = heights[1..].iter().copied().max().unwrap();
        assert_eq!(heights[0], tallest);
    } else {
        assert_eq!(heights[0], 1);
    }
}

#[test]
fn node_new_has_blank_levels() {
    let node: SkipListNode<i64> = SkipListNode::new(3, Some(8));
    assert_eq!(node.element, Some(8));
    assert_eq!(node.backward, None);
    assert_eq!(node.level.len(), 3);
    for level in node.level.iter() {
        assert_eq!(level.forward, None);
        assert_eq!(level.span, 0);
    }
    let header: SkipListNode<i64> = SkipListNode::new(MAX_LEVEL, None);
    assert_eq!(header.element, None);
    assert_eq!(header.level.len(), 32);
}

#[test]
fn forced_heights_give_exact_spans() {
    let mut list: SkipList<i64> = SkipList::new();
    list.push_with_level(10, 1);
    list.push_with_level(30, 3);
    list.push_with_level(20, 2);
    list.push_with_level(40, 1);
    // ranks: 10 (1 level), 20 (2), 30 (3), 40 (1)
    assert_eq!(list.level(), 3);
    assert_eq!(list.levels_at(0), Some(3));
    assert_eq!(list.levels_at(1), Some(1));
    assert_eq!(list.levels_at(2), Some(2));
    assert_eq!(list.levels_at(3), Some(3));
    assert_eq!(list.levels_at(4), Some(1));
    assert_eq!(list.span_at(0, 0), Some(1));
    assert_eq!(list.span_at(0, 1), Some(2));
    assert_eq!(list.span_at(0, 2), Some(3));
    assert_eq!(list.span_at(0, 3), None);
    assert_eq!(list.span_at(1, 0), Some(1));
    assert_eq!(list.span_at(2, 0), Some(1));
    assert_eq!(list.span_at(2, 1), Some(1));
    assert_eq!(list.span_at(3, 0), Some(1));
    assert_eq!(list.span_at(3, 1), Some(1));
    assert_eq!(list.span_at(3, 2), Some(1));
    assert_eq!(list.span_at(4, 0), Some(0));
    assert_eq!(list.forward_at(0, 2), Some(&30));
    assert_eq!(list.forward_at(0, 1), Some(&20));
    assert_eq!(list.forward_at(2, 1), Some(&30));
    assert_eq!(list.forward_at(3, 1), None);
    assert_eq!(list.forward_at(4, 0), None);
    check_spans(&list);
}

#[test]
fn a_taller_node_raises_the_level_and_its_removal_lowers_it() {
    let mut list: SkipList<i64> = SkipList::new();
    list.push_with_level(1, 1);
    list.push_with_level(2, 2);
    assert_eq!(list.level(), 2);
    list.push_with_level(3, MAX_LEVEL);
    assert_eq!(list.level(), 32);
    assert_eq!(list.span_at(0, 31), Some(3));
    assert_eq!(list.forward_at(0, 31), Some(&3));
    assert_eq!(list.span_at(3, 31), Some(0));
    check_spans(&list);
    list.push_with_level(0, 1);
    assert_eq!(list.span_at(0, 31), Some(4));
    check_spans(&list);
    assert_eq!(list.remove(&3), Ok(3));
    assert_eq!(list.level(), 2);
    check_spans(&list);
    assert_eq!(list.remove(&2), Ok(2));
    assert_eq!(list.level(), 1);
    check_spans(&list);
    assert_eq!(list.remove(&0), Ok(0));
    assert_eq!(list.remove(&1), Ok(1));
    assert_eq!(list.level(), 1);
    check_spans(&list);
}

#[test]
fn spans_hold_after_every_mutation() {
    let mut rng = rand::thread_rng();
    let mut list: SkipList<i64> = SkipList::new();
    check_spans(&list);
    for step in 0..300 {
        if step % 4 == 3 {
            let _ = list.remove(&rng.gen_range(0..30));
        } else {
            list.push(rng.gen_range(0..30));
        }
        check_spans(&list);
    }
    while !list.is_empty() {
        let v = *list.first().unwrap();
        assert_eq!(list.remove(&v), Ok(v));
        check_spans(&list);
    }
}

#[test]
fn spans_hold_with_forced_heights() {
    let mut rng = rand::thread_rng();
    let mut list: SkipList<i64> = SkipList::new();
    for _ in 0..120 {
        let height = rng.gen_range(1..=6);
        list.push_with_level(rng.gen_range(0..40), height);
        check_spans(&list);
    }
    for v in 0..40 {
        let _ = list.remove(&v);
        check_spans(&list);
    }
}

#[test]
fn tied_elements_keep_their_order_of_arrival() {
    let mut list: SkipList<Tagged> = SkipList::new();
    list.push(Tagged { key: 2, tag: 'a' });
    list.push(Tagged { key: 2, tag: 'b' });
    list.push(Tagged { key: 1, tag: 'x' });
    list.push(Tagged { key: 2, tag: 'c' });
    list.push(Tagged { key: 3, tag: 'y' });
    assert_eq!(tags(&list), vec!['x', 'a', 'b', 'c', 'y']);
    assert_eq!(list.rank_of(&Tagged { key: 2, tag: '?' }), Some(2));
    let gone = list.remove(&Tagged { key: 2, tag: '?' }).unwrap();
    assert_eq!(gone.tag, 'a');
    assert_eq!(tags(&list), vec!['x', 'b', 'c', 'y']);
    list.push(Tagged { key: 2, tag: 'd' });
    assert_eq!(tags(&list), vec!['x', 'b', 'c', 'd', 'y']);
    let back: Vec<char> = list.elements_rev().into_iter().map(|t| t.tag).collect();
    assert_eq!(back, vec!['y', 'd', 'c', 'b', 'x']);
    let mid: Vec<char> = list
        .range(&Tagged { key: 2, tag: '?' }, &Tagged { key: 2, tag: '?' })
        .into_iter()
        .map(|t| t.tag)
        .collect();
    assert_eq!(mid, vec!['b', 'c', 'd']);
}

#[test]
fn tied_elements_keep_their_order_whatever_the_heights() {
    let mut list: SkipList<Tagged> = SkipList::new();
    list.push_with_level(Tagged { key: 5, tag: 'a' }, 4);
    list.push_with_level(Tagged { key: 5, tag: 'b' }, 1);
    list.push_with_level(Tagged { key: 5, tag: 'c' }, 7);
    list.push_with_level(Tagged { key: 5, tag: 'd' }, 2);
    assert_eq!(tags(&list), vec!['a', 'b', 'c', 'd']);
    assert_eq!(list.remove(&Tagged { key: 5, tag: '?' }).unwrap().tag, 'a');
    assert_eq!(list.remove(&Tagged { key: 5, tag: '?' }).unwrap().tag, 'b');
    assert_eq!(list.level(), 7);
    assert_eq!(list.remove(&Tagged { key: 5, tag: '?' }).unwrap().tag, 'c');
    assert_eq!(list.level(), 2);
    assert_eq!(tags(&list), vec!['d']);
}

#[test]
fn nodes_are_found_by_their_slot() {
    let mut list: SkipList<Tagged> = SkipList::new();
    list.push(Tagged { key: 7, tag: 'a' });
    list.push(Tagged { key: 7, tag: 'b' });
    list.push(Tagged { key: 7, tag: 'c' });
    list.push(Tagged { key: 3, tag: 'x' });
    for rank in 1..=list.len() {
        let node = list.node_at_rank(rank).unwrap();
        assert_eq!(list.rank_of_node(node), Some(rank));
    }
    assert_eq!(list.node_at_rank(0), None);
    assert_eq!(list.node_at_rank(5), None);
    assert_eq!(list.rank_of_node(0), None);
    assert_eq!(list.rank_of_node(1_000_000), None);
}

#[test]
fn a_node_is_removed_by_its_slot() {
    let mut list: SkipList<Tagged> = SkipList::new();
    list.push(Tagged { key: 7, tag: 'a' });
    list.push(Tagged { key: 7, tag: 'b' });
    list.push(Tagged { key: 7, tag: 'c' });
    list.push(Tagged { key: 9, tag: 'y' });
    let b = list.node_at_rank(2).unwrap();
    let c = list.node_at_rank(3).unwrap();
    let gone = list.remove_node(b).unwrap();
    assert_eq!(gone.tag, 'b');
    assert_eq!(tags(&list), vec!['a', 'c', 'y']);
    assert_eq!(list.rank_of_node(c), Some(2));
    assert_eq!(list.rank_of_node(b), None);
    assert!(list.remove_node(b).is_err());
    assert_eq!(list.remove_node(0).unwrap_err(), skip_list::list::SkipListError::NotFound);
    assert_eq!(list.remove_node(77).unwrap_err(), skip_list::list::SkipListError::NotFound);
    assert_eq!(tags(&list), vec!['a', 'c', 'y']);
    assert_eq!(list.remove_node(c).unwrap().tag, 'c');
    assert_eq!(tags(&list), vec!['a', 'y']);
    assert_eq!(list.len(), 2);
}

#[test]
fn removal_by_slot_keeps_the_spans_right() {
    let mut rng = rand::thread_rng();
    let mut list: SkipList<i64> = SkipList::new();
    for _ in 0..150 {
        list.push(rng.gen_range(0..20));
    }
    while !list.is_empty() {
        let rank = rng.gen_range(1..=list.len());
        let expected = *list.at_rank(rank).unwrap();
        let node = list.node_at_rank(rank).unwrap();
        let before = list.len();
        assert_eq!(list.remove_node(node), Ok(expected));
        assert_eq!(list.len(), before - 1);
        check_spans(&list);
    }
    assert_eq!(list.level(), 1);
}

#[test]
fn heights_stay_with_their_nodes() {
    let mut list: SkipList<i64> = SkipList::new();
    list.push_with_level(20, 2);
    list.push_with_level(40, 4);
    list.push_with_level(30, 3);
    list.push_with_level(10, 1);
    let heights: Vec<usize> = (1..=4).map(|r| list.levels_at(r).unwrap()).collect();
    assert_eq!(heights, vec![1, 2, 3, 4]);
    assert_eq!(list.remove(&30), Ok(30));
    let heights: Vec<usize> = (1..=3).map(|r| list.levels_at(r).unwrap()).collect();
    assert_eq!(heights, vec![1, 2, 4]);
    list.push_with_level(25, 5);
    let heights: Vec<usize> = (1..=4).map(|r| list.levels_at(r).unwrap()).collect();
    assert_eq!(heights, vec![1, 2, 5, 4]);
    assert_eq!(list.level(), 5);
}

#[test]
fn linking_and_unlinking_adjust_the_spans() {
    let mut list: SkipList<i64> = SkipList::new();
    list.push_with_level(10, 3);
    list.push_with_level(20, 1);
    list.push_with_level(30, 1);
    list.push_with_level(40, 3);
    assert_eq!(list.span_at(0, 0), Some(1));
    assert_eq!(list.span_at(0, 1), Some(1));
    assert_eq!(list.span_at(0, 2), Some(1));
    assert_eq!(list.span_at(1, 0), Some(1));
    assert_eq!(list.span_at(1, 1), Some(3));
    assert_eq!(list.span_at(1, 2), Some(3));
    assert_eq!(list.span_at(4, 2), Some(0));

    // 25 goes to rank 3 with two levels
    list.push_with_level(25, 2);
    assert_eq!(list.at_rank(3), Some(&25));
    assert_eq!(list.levels_at(3), Some(2));
    assert_eq!(list.span_at(3, 0), Some(1));
    assert_eq!(list.span_at(3, 1), Some(2));
    assert_eq!(list.forward_at(3, 0), Some(&30));
    assert_eq!(list.forward_at(3, 1), Some(&40));
    assert_eq!(list.span_at(2, 0), Some(1));
    assert_eq!(list.span_at(1, 1), Some(2));
    assert_eq!(list.forward_at(1, 1), Some(&25));
    assert_eq!(list.span_at(1, 2), Some(4));
    assert_eq!(list.forward_at(1, 2), Some(&40));
    check_spans(&list);

    // and out again
    assert_eq!(list.remove(&25), Ok(25));
    assert_eq!(list.span_at(1, 1), Some(3));
    assert_eq!(list.span_at(1, 2), Some(3));
    assert_eq!(list.span_at(2, 0), Some(1));
    assert_eq!(list.forward_at(2, 0), Some(&30));

    // without its first node the header reaches straight to 40
    assert_eq!(list.remove(&10), Ok(10));
    assert_eq!(list.span_at(0, 0), Some(1));
    assert_eq!(list.span_at(0, 1), Some(3));
    assert_eq!(list.span_at(0, 2), Some(3));
    assert_eq!(list.forward_at(0, 0), Some(&20));
    assert_eq!(list.forward_at(0, 2), Some(&40));
    check_spans(&list);

    // the last node gone, every link of the header ends nowhere
    assert_eq!(list.remove(&40), Ok(40));
    assert_eq!(list.level(), 1);
    assert_eq!(list.span_at(0, 0), Some(1));
    assert_eq!(list.span_at(2, 0), Some(0));
    assert_eq!(list.last(), Some(&30));
    check_spans(&list);
}

#[test]
fn a_new_top_level_spans_the_whole_list() {
    let mut list: SkipList<i64> = SkipList::new();
    for v in [1, 2, 3, 4, 5] {
        list.push_with_level(v, 1);
    }
    list.push_with_level(3, 4);
    // ranks: 1 2 3 3' 4 5, the tall node at rank 4
    assert_eq!(list.level(), 4);
    for level in 1..4 {
        assert_eq!(list.span_at(0, level), Some(4));
        assert_eq!(list.span_at(4, level), Some(2));
        assert_eq!(list.forward_at(4, level), None);
    }
    assert_eq!(list.span_at(4, 0), Some(1));
    check_spans(&list);
}
