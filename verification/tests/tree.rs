use stree8::bstack::BStackError;
use stree8::iter::{Address, STree8Iter};
use stree8::tree::{STree8, TreeError};

#[test]
fn can_insert() {
    let mut tree: STree8<i64> = STree8::new();
    let test_list = [4, 5, 2, 8, 6, 1];
    let mut count = 0;
    for value in test_list {
        let result = tree.insert(value);
        match result {
            Err(message) => {
                panic!("failed insertion {}", message);
            }
            Ok(node) => {
                assert!(node < 256);
                count += 1;
            }
        }
    }
    assert_eq!(count, test_list.len());
    let result = tree.peek(1);
    assert_eq!(Ok(Some(4)), result);
    let result = tree.peek(2);
    assert_eq!(Ok(Some(2)), result);
    let result = tree.peek(3);
    assert_eq!(Ok(Some(5)), result);
}

#[test]
fn test_depth() {
    let mut tree: STree8<i64> = STree8::new();
    assert_eq!(tree.depth(), 0);
    let _ = tree.insert(4);
    assert_eq!(tree.depth(), 1);
    let _ = tree.insert(5);
    assert_eq!(tree.depth(), 2);
    let _ = tree.insert(2);
    assert_eq!(tree.depth(), 2);
    let _ = tree.insert(8);
    assert_eq!(tree.depth(), 3);
    let _ = tree.insert(6);
    assert_eq!(tree.depth(), 4);
    let _ = tree.insert(1);
    assert_eq!(tree.depth(), 4);
}

#[test]
fn can_create_iterator() {
    let mut tree: STree8<i64> = STree8::new();
    let test_list = [4, 5, 2, 8, 6, 1];
    for value in test_list {
        let _result = tree.insert(value);
    }
    let mut iterator = STree8Iter::new(&tree);
    assert_eq!(iterator.stack().size(), 1);
    assert_eq!(iterator.pop(), Ok((1, Address::Enter)));
}

#[test]
fn can_extract_with_next_item() {
    let mut tree: STree8<i64> = STree8::new();
    let test_list = [4, 5, 2, 8, 6, 1];
    for value in test_list {
        let _result = tree.insert(value);
    }
    let mut iterator = STree8Iter::new(&tree);
    let mut result = iterator.next_item();
    assert_eq!(Ok(1), result);
    result = iterator.next_item();
    assert_eq!(Ok(2), result);
}

#[test]
fn sort_works() {
    let mut tree: STree8<i64> = STree8::new();
    let test_list = [4, 5, 2, 8, 6, 1];
    for value in test_list {
        let _result = tree.insert(value);
    }
    let expected = [1, 2, 4, 5, 6, 8];
    let mut count = 0;
    let mut iterator = tree.into_iter();
    let mut i = 0;
    while let Some(v) = iterator.next() {
        assert_eq!(v, expected[i]);
        count += 1;
        i += 1;
    }
    assert_eq!(count, test_list.len());
}

fn collect(tree: &STree8<i64>) -> Vec<i64> {
    let mut iterator = STree8Iter::new(tree);
    let mut out = Vec::new();
    loop {
        match iterator.next_item() {
            Ok(v) => out.push(v),
            Err(e) => {
                assert_eq!(e, TreeError::IteratorCompleted);
                break;
            }
        }
        assert!(out.len() <= 255);
    }
    assert_eq!(iterator.next_item(), Err(TreeError::IteratorCompleted));
    assert_eq!(iterator.stack().size(), 0);
    out
}

#[test]
fn insert_reports_the_slot() {
    let mut tree: STree8<i64> = STree8::new();
    assert_eq!(tree.insert(4), Ok(1));
    assert_eq!(tree.insert(5), Ok(3));
    assert_eq!(tree.insert(2), Ok(2));
    assert_eq!(tree.insert(8), Ok(7));
    assert_eq!(tree.insert(6), Ok(14));
    assert_eq!(tree.insert(1), Ok(4));
    assert_eq!(tree.peek(7), Ok(Some(8)));
    assert_eq!(tree.peek(14), Ok(Some(6)));
    assert_eq!(tree.peek(4), Ok(Some(1)));
    assert_eq!(tree.peek(0), Ok(None));
    assert_eq!(tree.peek(5), Ok(None));
}

#[test]
fn insert_twice_gives_the_same_slot() {
    let mut tree: STree8<i64> = STree8::new();
    for value in [4, 5, 2, 8, 6, 1] {
        let first = tree.insert(value);
        assert!(first.is_ok());
        assert_eq!(tree.insert(value), first);
    }
    let before = collect(&tree);
    assert_eq!(tree.insert(6), Ok(14));
    assert_eq!(tree.insert(4), Ok(1));
    assert_eq!(collect(&tree), before);
    assert_eq!(before.len(), 6);
    assert_eq!(tree.depth(), 4);
}

#[test]
fn ninth_level_is_refused() {
    let mut tree: STree8<i64> = STree8::new();
    let slots = [1, 3, 7, 15, 31, 63, 127, 255];
    for (i, slot) in slots.iter().enumerate() {
        assert_eq!(tree.insert(i as i64), Ok(*slot));
    }
    assert_eq!(tree.depth(), 8);
    assert_eq!(tree.insert(8), Err("level greater than 8"));
    assert_eq!(tree.insert(100), Err("level greater than 8"));
    assert_eq!(tree.insert(7), Ok(255));
    assert_eq!(tree.insert(-1), Ok(2));
    assert_eq!(collect(&tree), vec![-1, 0, 1, 2, 3, 4, 5, 6, 7]);
    assert_eq!(tree.depth(), 8);
}

#[test]
fn leftmost_branch_down_to_the_last_level() {
    let mut tree: STree8<i64> = STree8::new();
    let slots = [1, 2, 4, 8, 16, 32, 64, 128];
    for (i, slot) in slots.iter().enumerate() {
        assert_eq!(tree.insert(-(i as i64)), Ok(*slot));
    }
    assert_eq!(tree.insert(-8), Err("level greater than 8"));
    assert_eq!(collect(&tree), vec![-7, -6, -5, -4, -3, -2, -1, 0]);
}

#[test]
fn traversal_is_sorted_and_complete() {
    let mut tree: STree8<i64> = STree8::new();
    let values = [50, 20, 70, 10, 30, 60, 80, 25, 35, 65, 5, 15, 75, 85, 33];
    for value in values {
        assert!(tree.insert(value).is_ok());
    }
    let out = collect(&tree);
    assert_eq!(out.len(), values.len());
    for pair in out.windows(2) {
        assert!(pair[0] < pair[1]);
    }
    let mut sorted = values.to_vec();
    sorted.sort();
    assert_eq!(out, sorted);
}

#[test]
fn empty_tree_has_nothing_to_yield() {
    let tree: STree8<i64> = STree8::new();
    let mut iterator = STree8Iter::new(&tree);
    assert_eq!(iterator.stack().size(), 0);
    assert_eq!(iterator.next_item(), Err(TreeError::IteratorCompleted));
    assert_eq!(iterator.next_item(), Err(TreeError::IteratorCompleted));
    assert_eq!(iterator.next(), None);
    assert_eq!(tree.depth(), 0);
}

#[test]
fn pop_on_a_finished_traversal_is_a_stack_error() {
    let tree: STree8<i64> = STree8::new();
    let mut iterator = STree8Iter::new(&tree);
    assert_eq!(
        iterator.pop(),
        Err(TreeError::StackError(BStackError::EmptyStack))
    );
    assert_eq!(
        TreeError::from(BStackError::FullStack),
        TreeError::StackError(BStackError::FullStack)
    );
}

#[test]
fn peek_out_of_range() {
    let mut tree: STree8<i64> = STree8::new();
    assert_eq!(tree.peek(256), Err(TreeError::TreeOverflowCell));
    assert_eq!(tree.peek(usize::MAX), Err(TreeError::TreeOverflowCell));
    assert_eq!(tree.peek(255), Ok(None));
    let _ = tree.insert(3);
    assert_eq!(tree.peek(256), Err(TreeError::TreeOverflowCell));
    assert_eq!(tree.peek(1000), Err(TreeError::TreeOverflowCell));
    assert_eq!(tree.peek(1), Ok(Some(3)));
}

#[test]
fn single_node_traversal() {
    let mut tree: STree8<i64> = STree8::new();
    assert_eq!(tree.insert(9), Ok(1));
    let mut iterator = tree.into_iter();
    assert_eq!(iterator.next_item(), Ok(9));
    assert_eq!(iterator.stack().size(), 1);
    assert_eq!(iterator.next_item(), Err(TreeError::IteratorCompleted));
    assert_eq!(iterator.stack().size(), 0);
}

#[test]
fn pop_then_resume_skips_the_popped_node() {
    let mut tree: STree8<i64> = STree8::new();
    for value in [4, 2, 5] {
        let _ = tree.insert(value);
    }
    let mut iterator = STree8Iter::new(&tree);
    assert_eq!(iterator.next_item(), Ok(2));
    assert_eq!(iterator.pop(), Ok((2, Address::ValueYielded)));
    assert_eq!(iterator.stack().size(), 1);
    assert_eq!(iterator.next_item(), Ok(4));
    assert_eq!(iterator.next_item(), Ok(5));
    assert_eq!(iterator.next_item(), Err(TreeError::IteratorCompleted));
}

#[test]
fn full_tree_is_walked_in_order() {
    let mut tree: STree8<i64> = STree8::new();
    let mut slot = 1;
    let mut width = 128;
    while width >= 1 {
        let mut value = width;
        while value < 256 {
            assert_eq!(tree.insert(value), Ok(slot));
            slot += 1;
            value += 2 * width;
        }
        width /= 2;
    }
    assert_eq!(slot, 256);
    assert_eq!(tree.depth(), 8);
    assert_eq!(tree.insert(0), Err("level greater than 8"));
    assert_eq!(tree.insert(256), Err("level greater than 8"));
    let expected: Vec<i64> = (1..256).collect();
    assert_eq!(collect(&tree), expected);
    let mut count = 0;
    let mut iterator = tree.into_iter();
    while let Some(v) = iterator.next() {
        count += 1;
        assert_eq!(v, count);
    }
    assert_eq!(count, 255);
    assert_eq!(iterator.next(), None);
    assert_eq!(iterator.next(), None);
}

#[test]
fn depth_is_the_deepest_level() {
    let mut tree: STree8<i64> = STree8::new();
    for value in [10, 20, 5, 4, 3] {
        let _ = tree.insert(value);
    }
    assert_eq!(tree.peek(3), Ok(Some(20)));
    assert_eq!(tree.peek(8), Ok(Some(3)));
    assert_eq!(tree.depth(), 4);
    let _ = tree.insert(30);
    assert_eq!(tree.peek(7), Ok(Some(30)));
    assert_eq!(tree.depth(), 4);
    let _ = tree.insert(2);
    assert_eq!(tree.peek(16), Ok(Some(2)));
    assert_eq!(tree.depth(), 5);
}

#[test]
fn traversal_follows_the_path_of_slots() {
    let mut tree: STree8<i64> = STree8::new();
    for value in [4, 5, 2, 8, 6, 1] {
        let _ = tree.insert(value);
    }
    let mut iterator = STree8Iter::new(&tree);
    assert_eq!(iterator.stack().get_state(), 1);
    assert_eq!(iterator.next_item(), Ok(1));
    assert_eq!(iterator.stack().get_state(), 4);
    assert_eq!(iterator.next_item(), Ok(2));
    assert_eq!(iterator.stack().get_state(), 2);
    assert_eq!(iterator.next_item(), Ok(4));
    assert_eq!(iterator.stack().get_state(), 1);
    assert_eq!(iterator.next_item(), Ok(5));
    assert_eq!(iterator.stack().get_state(), 3);
    assert_eq!(iterator.next_item(), Ok(6));
    assert_eq!(iterator.stack().get_state(), 14);
    assert_eq!(iterator.stack().size(), 4);
    assert_eq!(iterator.next_item(), Ok(8));
    assert_eq!(iterator.stack().get_state(), 7);
    assert_eq!(iterator.next_item(), Err(TreeError::IteratorCompleted));
    assert_eq!(iterator.stack().get_state(), 0);
}
