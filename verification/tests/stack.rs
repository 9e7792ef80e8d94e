use algorithms::stack::array_stack::ArrayStack;
use algorithms::stack::linked_list_stack::LinkedListStack;
use algorithms::stack::Stack;

#[test]
fn array_stack_stack_push_pop() {
    let mut stack = ArrayStack::new(16);
    stack.push(42);
    assert_eq!(stack.count(), 1);
    assert_eq!(stack.peek(), 42);
    let item = stack.pop();
    assert_eq!(item, 42);
    assert_eq!(stack.count(), 0);
}

#[test]
fn capacity() {
    let mut stack = ArrayStack::new(2);
    stack.push(0);
    stack.push(1);
    assert_eq!(stack.capacity(), 2);
    assert_eq!(stack.count(), 2);
    stack.push(2);
    assert_eq!(stack.capacity(), 4);
    assert_eq!(stack.count(), 3);
    stack.pop();
    assert_eq!(stack.capacity(), 4);
    stack.pop();
    assert_eq!(stack.capacity(), 2);
}

#[test]
fn linked_list_stack_stack_push_pop() {
    let mut stack = LinkedListStack::new();
    stack.push(42);
    assert_eq!(stack.count(), 1);
    assert_eq!(stack.peek(), 42);
    let item = stack.pop();
    assert_eq!(item, 42);
    assert_eq!(stack.count(), 0);
}

#[test]
fn array_stack_is_last_in_first_out() {
    let mut stack = ArrayStack::new(1);
    for i in 0..100u32 {
        stack.push(i);
    }
    assert_eq!(stack.count(), 100);
    assert_eq!(stack.capacity(), 128);
    for i in (0..100u32).rev() {
        assert_eq!(stack.peek(), i);
        assert_eq!(stack.pop(), i);
    }
    assert_eq!(stack.count(), 0);
}

#[test]
fn array_stack_capacity_follows_the_count() {
    let mut stack = ArrayStack::new(4);
    assert_eq!(stack.capacity(), 4);
    for i in 0..5u8 {
        stack.push(i);
    }
    assert_eq!(stack.capacity(), 8);
    stack.pop();
    stack.pop();
    assert_eq!(stack.capacity(), 8);
    assert_eq!(stack.pop(), 2);
    assert_eq!(stack.capacity(), 4);
    assert_eq!(stack.pop(), 1);
    assert_eq!(stack.capacity(), 2);
    assert_eq!(stack.pop(), 0);
    assert_eq!(stack.capacity(), 1);
    assert_eq!(stack.count(), 0);
}

#[test]
fn linked_list_stack_is_last_in_first_out() {
    let mut stack = LinkedListStack::new();
    for word in ["a", "b", "c"] {
        stack.push(String::from(word));
    }
    assert_eq!(stack.count(), 3);
    assert_eq!(stack.peek(), "c");
    assert_eq!(stack.pop(), "c");
    assert_eq!(stack.pop(), "b");
    assert_eq!(stack.peek(), "a");
    assert_eq!(stack.count(), 1);
    assert_eq!(stack.pop(), "a");
    assert_eq!(stack.count(), 0);
}

#[test]
fn linked_list_stack_clone_is_independent() {
    let mut stack = LinkedListStack::new();
    stack.push(1);
    stack.push(2);
    let mut copy = stack.clone();
    assert_eq!(copy.pop(), 2);
    assert_eq!(copy.count(), 1);
    assert_eq!(stack.count(), 2);
    assert_eq!(stack.peek(), 2);
}
