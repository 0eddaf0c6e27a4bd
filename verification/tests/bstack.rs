use stree8::bstack::{BStack, BStackError};

#[test]
fn push_and_pop() {
    let mut stack = BStack::new();
    let _ = stack.push(false);
    let _ = stack.push(true);
    let result1 = stack.pop();
    let result2 = stack.pop();
    assert_eq!(result1, Ok(true));
    assert_eq!(result2, Ok(false));
}

#[test]
fn size_increase_when_push() {
    let mut stack = BStack::new();
    let _ = stack.push(false);
    let result1 = stack.size();
    let _ = stack.push(true);
    let result2 = stack.size();
    assert_eq!(result2, result1 + 1);
}

#[test]
fn push_and_top() {
    let mut stack = BStack::new();
    let _ = stack.push(false);
    let result1 = stack.top();
    let _ = stack.push(true);
    let result2 = stack.top();
    assert_eq!(result1, Ok(false));
    assert_eq!(result2, Ok(true));
}

#[test]
fn size_decreases_when_pop() {
    let mut stack = BStack::new();
    let _ = stack.push(false);
    let _ = stack.push(true);
    let result1 = stack.size();
    let _ = stack.pop();
    let result2 = stack.size();
    assert_eq!(result1, result2 + 1);
}

#[test]
fn empty_when_created() {
    let result = BStack::new().size();
    assert_eq!(result, 0);
}

#[test]
fn empty_does_not_pop() {
    let mut stack = BStack::new();
    let result = stack.pop();
    assert_eq!(result, Err(BStackError::EmptyStack));
}

#[test]
fn empty_has_no_top() {
    let stack = BStack::new();
    assert_eq!(stack.top(), Err(BStackError::EmptyStack));
    assert_eq!(stack.get_state(), 0);
}

#[test]
fn push_returns_the_pushed_bit() {
    let mut stack = BStack::new();
    assert_eq!(stack.push(true), Ok(true));
    assert_eq!(stack.push(false), Ok(false));
    assert_eq!(stack.size(), 2);
}

#[test]
fn pop_undoes_push() {
    let mut stack = BStack::new();
    let _ = stack.push(true);
    let _ = stack.push(true);
    for bit in [false, true] {
        let size = stack.size();
        let state = stack.get_state();
        assert_eq!(stack.push(bit), Ok(bit));
        assert_eq!(stack.size(), size + 1);
        assert_eq!(stack.top(), Ok(bit));
        assert_eq!(stack.pop(), Ok(bit));
        assert_eq!(stack.size(), size);
        assert_eq!(stack.get_state(), state);
    }
}

#[test]
fn top_leaves_the_stack_alone() {
    let mut stack = BStack::new();
    let _ = stack.push(true);
    let _ = stack.push(false);
    assert_eq!(stack.top(), Ok(false));
    assert_eq!(stack.top(), Ok(false));
    assert_eq!(stack.size(), 2);
    assert_eq!(stack.get_state(), 2);
}

#[test]
fn state_is_the_path_without_the_sentinel() {
    let mut stack = BStack::new();
    let _ = stack.push(true);
    assert_eq!(stack.get_state(), 1);
    let _ = stack.push(false);
    assert_eq!(stack.get_state(), 2);
    let _ = stack.push(true);
    assert_eq!(stack.get_state(), 5);
    let _ = stack.push(true);
    assert_eq!(stack.get_state(), 11);
    assert_eq!(stack.size(), 4);
}

#[test]
fn leading_clear_bits_do_not_count_in_the_state() {
    let mut stack = BStack::new();
    let _ = stack.push(false);
    let _ = stack.push(false);
    let _ = stack.push(true);
    assert_eq!(stack.size(), 3);
    assert_eq!(stack.get_state(), 1);
}

#[test]
fn full_stack_rejects_push() {
    let mut stack = BStack::new();
    let capacity = usize::BITS - 1;
    for i in 0..capacity {
        assert_eq!(stack.size(), i);
        assert_eq!(stack.push(i % 2 == 0), Ok(i % 2 == 0));
    }
    assert_eq!(stack.size(), capacity);
    let state = stack.get_state();
    let top = stack.top();
    assert_eq!(stack.push(true), Err(BStackError::FullStack));
    assert_eq!(stack.push(false), Err(BStackError::FullStack));
    assert_eq!(stack.size(), capacity);
    assert_eq!(stack.get_state(), state);
    assert_eq!(stack.top(), top);
    for i in (0..capacity).rev() {
        assert_eq!(stack.pop(), Ok(i % 2 == 0));
    }
    assert_eq!(stack.pop(), Err(BStackError::EmptyStack));
}
