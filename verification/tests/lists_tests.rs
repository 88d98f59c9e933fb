use regexp::lists::{doubly, nosafe, share, singly, stack};

#[test]
fn singly_basics() {
    let mut list = singly::List::new(); // []
    assert_eq!(list.pop(), None);

    list.push(1); // [1]
    list.push(2); // [2, 1]
    list.push(3); // [3, 2, 1]

    assert_eq!(list.pop(), Some(3));
    assert_eq!(list.pop(), Some(2));
    assert_eq!(list.pop(), Some(1));

    list.push(4); // [4]
    list.push(5); // [5, 4]

    assert_eq!(list.pop(), Some(5));
    assert_eq!(list.pop(), Some(4));
    assert_eq!(list.pop(), None);
}

#[test]
fn generic() {
    let mut list = singly::List::new(); // []
    assert_eq!(list.pop(), None);

    list.push(1); // [1]
    list.push(2); // [2, 1]
    list.push(3); // [3, 2, 1]
    assert_eq!(list.pop(), Some(3));
    assert_eq!(list.pop(), Some(2));
    assert_eq!(list.pop(), Some(1));

    let mut list = singly::List::new(); // []
    assert_eq!(list.pop(), None);

    list.push("hello".to_string()); // ["hello"]
    list.push("world".to_string()); // ["world", "hello"]
    list.push("!".to_string()); // ["!", "world", "hello"]
    assert_eq!(list.pop(), Some(String::from("!")));
    assert_eq!(list.pop(), Some(String::from("world")));
    assert_eq!(list.pop(), Some(String::from("hello")));
}

#[test]
fn singly_peek() {
    let mut list = singly::List::new(); // []
    assert_eq!(list.peek(), None);
    assert_eq!(list.peek_mut(), None);

    list.push(1); // [1]
    list.push(2); // [2, 1]
    list.push(3); // [3, 2, 1]

    assert_eq!(list.peek(), Some(&3));
    assert_eq!(list.peek_mut(), Some(&mut 3));

    list.peek_mut().map(|x| *x = 100);
    assert_eq!(list.peek(), Some(&100));
    assert_eq!(list.peek_mut(), Some(&mut 100));

    assert_eq!(list.pop(), Some(100));
    assert_eq!(list.pop(), Some(2));
    assert_eq!(list.pop(), Some(1));
}

#[test]
fn singly_into_iter() {
    let mut list = singly::List::new(); // []
    list.push(1); // [1]
    list.push(2); // [2, 1]
    list.push(3); // [3, 2, 1]

    let mut iter = list.into_iter();
    assert_eq!(iter.next(), Some(3));
    assert_eq!(iter.next(), Some(2));
    assert_eq!(iter.next(), Some(1));
    assert_eq!(iter.next(), None);

    let mut list = singly::List::new(); // []
    list.push("hello".to_string()); // ["hello"]
    list.push("world".to_string()); // ["world", "hello"]
    list.push("!".to_string()); // ["!", "world", "hello"]

    let expect = [
        String::from("!"),
        String::from("world"),
        String::from("hello"),
    ];
    let mut i = 0;
    let mut iter = list.into_iter();
    while let Some(x) = iter.next() {
        assert_eq!(x, expect[i]);
        i += 1;
    }
}

#[test]
fn singly_iter() {
    let mut list = singly::List::new(); // []
    list.push(1); // [1]
    list.push(2); // [2, 1]
    list.push(3); // [3, 2, 1]

    let mut iter = list.iter();
    assert_eq!(iter.next(), Some(&3));
    assert_eq!(iter.next(), Some(&2));
    assert_eq!(iter.next(), Some(&1));
    assert_eq!(iter.next(), None);

    let mut list = singly::List::new(); // []
    list.push("hello".to_string()); // ["hello"]
    list.push("world".to_string()); // ["world", "hello"]
    list.push("!".to_string()); // ["!", "world", "hello"]

    let expect = [
        String::from("!"),
        String::from("world"),
        String::from("hello"),
    ];
    let mut i = 0;
    let mut iter = list.iter();
    while let Some(x) = iter.next() {
        assert_eq!(x, &expect[i]);
        i += 1;
    }
}

#[test]
fn stack_basics() {
    let mut stack = stack::Stack::new(); // []
    assert_eq!(stack.pop(), None);

    stack.push(1); // [1]
    stack.push(2); // [2, 1]
    stack.push(3); // [3, 2, 1]

    assert_eq!(stack.pop(), Some(3));
    assert_eq!(stack.pop(), Some(2));
    assert_eq!(stack.pop(), Some(1));

    stack.push(4); // [4]
    stack.push(5); // [5, 4]

    assert_eq!(stack.pop(), Some(5));
    assert_eq!(stack.pop(), Some(4));
    assert_eq!(stack.pop(), None);
}

#[test]
fn stack_peek() {
    let mut stack = stack::Stack::new(); // []
    assert_eq!(stack.peek(), None);
    assert_eq!(stack.peek_mut(), None);

    stack.push(1); // [1]
    stack.push(2); // [2, 1]
    stack.push(3); // [3, 2, 1]

    assert_eq!(stack.peek(), Some(&3));
    assert_eq!(stack.peek_mut(), Some(&mut 3));

    stack.peek_mut().map(|x| *x = 100);
    assert_eq!(stack.peek(), Some(&100));
    assert_eq!(stack.peek_mut(), Some(&mut 100));

    assert_eq!(stack.pop(), Some(100));
    assert_eq!(stack.pop(), Some(2));
    assert_eq!(stack.pop(), Some(1));
}

#[test]
fn walk_aboot() {
    let mut deque = stack::Deque::new(); // [_]

    deque.push_left(0); // [0,_]
    deque.push_right(1); // [0, _, 1]
    assert_eq!(deque.peek_left(), Some(&0));
    assert_eq!(deque.peek_right(), Some(&1));

    deque.push_left(2); // [0, 2, _, 1]
    deque.push_left(3); // [0, 2, 3, _, 1]
    deque.push_right(4); // [0, 2, 3, _, 4, 1]

    while deque.go_left() {} // [_, 0, 2, 3, 4, 1]

    assert_eq!(deque.pop_left(), None);
    assert_eq!(deque.pop_right(), Some(0)); // [_, 2, 3, 4, 1]
    assert_eq!(deque.pop_right(), Some(2)); // [_, 3, 4, 1]

    deque.push_left(5); // [5, _, 3, 4, 1]
    assert_eq!(deque.pop_right(), Some(3)); // [5, _, 4, 1]
    assert_eq!(deque.pop_left(), Some(5)); // [_, 4, 1]
    assert_eq!(deque.pop_right(), Some(4)); // [_, 1]
    assert_eq!(deque.pop_right(), Some(1)); // [_]

    assert_eq!(deque.pop_right(), None);
    assert_eq!(deque.pop_left(), None);
}

#[test]
fn share_basics() {
    let mut list = share::List::new();
    assert_eq!(list.head(), None);

    let mut list = list.prepend(1).prepend(2).prepend(3); // [3, 2, 1]
    assert_eq!(list.head(), Some(&3));

    let mut list = list.tail(); // [2, 1]
    assert_eq!(list.head(), Some(&2));

    let list = list.tail().tail(); // []
    assert_eq!(list.head(), None);

    let mut list = share::List::new();
    assert_eq!(list.head(), None);

    let mut list = list
        .prepend("hello".to_string())
        .prepend("world".to_string()); // ["world", "hello"]
    assert_eq!(list.head(), Some(&String::from("world")));

    let mut list = list.tail(); // ["hello"]
    assert_eq!(list.head(), Some(&String::from("hello")));

    let list = list.tail(); // []
    assert_eq!(list.head(), None);
}

#[test]
fn share_iter() {
    let mut list = share::List::new(); // []
    let list = list.prepend(1).prepend(2).prepend(3); // [3, 2, 1]

    let mut iter = list.iter();
    assert_eq!(iter.next(), Some(&3));
    assert_eq!(iter.next(), Some(&2));
    assert_eq!(iter.next(), Some(&1));
    assert_eq!(iter.next(), None);

    let mut list = share::List::new(); // []
    let list = list.prepend("hello").prepend("world").prepend("!"); // ["!", "world", "hello"]

    let expect = ["!", "world", "hello"];
    let mut i = 0;
    let mut iter = list.iter();
    while let Some(x) = iter.next() {
        assert_eq!(*x, expect[i]);
        i += 1;
    }
}

#[test]
fn doubly_basics() {
    let mut list = doubly::List::new(); // []
    assert_eq!(list.pop_front(), None);

    list.push_front(1); // [1]
    list.push_front(2); // [2, 1]
    list.push_front(3); // [3, 2, 1]

    assert_eq!(list.pop_front(), Some(3));
    assert_eq!(list.pop_front(), Some(2));
    assert_eq!(list.pop_front(), Some(1));

    list.push_front(4); // [4]
    list.push_front(5); // [5, 4]

    assert_eq!(list.pop_front(), Some(5));
    assert_eq!(list.pop_front(), Some(4));
    assert_eq!(list.pop_front(), None);
}

#[test]
fn basics2() {
    let mut list = doubly::List::new(); // []
    assert_eq!(list.pop_back(), None);

    list.push_back(1); // [1]
    list.push_back(2); // [1, 2]
    list.push_back(3); // [1, 2, 3]

    assert_eq!(list.pop_back(), Some(3));
    assert_eq!(list.pop_front(), Some(1));
    assert_eq!(list.pop_back(), Some(2));
    assert_eq!(list.pop_back(), None);

    list.push_front(4); // [4]
    list.push_back(5); // [4, 5]

    assert_eq!(list.pop_front(), Some(4));
    assert_eq!(list.pop_back(), Some(5));
    assert_eq!(list.pop_front(), None);
}

#[test]
fn doubly_peek() {
    let mut list = doubly::List::new(); // []
    assert!(list.peek_front().is_none());

    list.push_front(1); // [1]
    list.push_front(2); // [2, 1]
    list.push_front(3); // [3, 2, 1]

    assert_eq!(*list.peek_front().unwrap(), 3);
    assert_eq!(list.pop_front(), Some(3));
    assert_eq!(*list.peek_front().unwrap(), 2);
    assert_eq!(list.pop_front(), Some(2));
    assert_eq!(*list.peek_front().unwrap(), 1);
    assert_eq!(list.pop_front(), Some(1));
    assert!(list.peek_front().is_none());
}

#[test]
fn peek2() {
    let mut list = doubly::List::new(); // []
    assert!(list.peek_front().is_none());

    list.push_front(1); // [1]
    list.push_back(2); // [1, 2]
    list.push_front(3); // [3, 1, 2]

    assert_eq!(*list.peek_back().unwrap(), 2);
    *list.peek_mut_back().unwrap() = 100; // [3, 1, 100]
    assert_eq!(*list.peek_back().unwrap(), 100);

    assert_eq!(list.pop_front(), Some(3)); // [1, 100]
    assert_eq!(*list.peek_front().unwrap(), 1);
    *list.peek_mut_front().unwrap() = 200; // [200, 100]
    assert_eq!(*list.peek_mut_front().unwrap(), 200);

    assert_eq!(list.pop_back(), Some(100)); // [200]
    assert_eq!(*list.peek_back().unwrap(), 200);
    assert_eq!(list.pop_back(), Some(200)); // []
    assert!(list.peek_front().is_none());
}

#[test]
fn doubly_iter() {
    let mut list = doubly::List::new(); // []
    list.push_front(1); // [1]
    list.push_back(2); // [1, 2]
    list.push_front(3); // [3, 1, 2]

    let mut iter = list.into_iter();
    assert_eq!(iter.next(), Some(3));
    assert_eq!(iter.next_back(), Some(2));
    assert_eq!(iter.next_back(), Some(1));
    assert_eq!(iter.next(), None);

    let mut list = doubly::List::new(); // []
    list.push_back("hello".to_string()); // ["hello"]
    list.push_back("world".to_string()); // ["hello", "world"]
    list.push_back("!".to_string()); // ["hello", "world", "!"]

    let expect = [
        String::from("hello"),
        String::from("world"),
        String::from("!"),
    ];
    let mut i = 0;
    let mut iter = list.into_iter();
    while let Some(x) = iter.next() {
        assert_eq!(x, expect[i]);
        i += 1;
    }
}

#[test]
fn nosafe_basics() {
    let mut list = nosafe::List::new(); // []
    assert_eq!(list.pop(), None);

    list.push(1); // [1]
    list.push(2); // [1, 2]
    list.push(3); // [1, 2, 3]

    assert_eq!(list.pop(), Some(1));
    assert_eq!(list.pop(), Some(2));
    assert_eq!(list.pop(), Some(3));

    list.push(4); // [4]
    list.push(5); // [4, 5]

    assert_eq!(list.pop(), Some(4));
    assert_eq!(list.pop(), Some(5));
    assert_eq!(list.pop(), None);
}

#[test]
fn nosafe_into_iter() {
    let mut list = nosafe::List::new(); // []
    list.push(1); // [1]
    list.push(2); // [1, 2]
    list.push(3); // [1, 2, 3]

    let mut iter = list.into_iter();
    assert_eq!(iter.next(), Some(1));
    assert_eq!(iter.next(), Some(2));
    assert_eq!(iter.next(), Some(3));
    assert_eq!(iter.next(), None);

    let mut list = nosafe::List::new(); // []
    list.push("hello".to_string()); // ["hello"]
    list.push("world".to_string()); // ["hello", "world"]
    list.push("!".to_string()); // ["hello", "world", "!"]

    let expect = [
        String::from("hello"),
        String::from("world"),
        String::from("!"),
    ];
    let mut i = 0;
    let mut iter = list.into_iter();
    while let Some(x) = iter.next() {
        assert_eq!(x, expect[i]);
        i += 1;
    }
}

#[test]
fn nosafe_iter() {
    let mut list = nosafe::List::new(); // []
    list.push(1); // [1]
    list.push(2); // [1, 2]
    list.push(3); // [1, 2, 3]

    let mut iter = list.iter();
    assert_eq!(iter.next(), Some(&1));
    assert_eq!(iter.next(), Some(&2));
    assert_eq!(iter.next(), Some(&3));
    assert_eq!(iter.next(), None);

    let mut list = nosafe::List::new(); // []
    list.push("hello".to_string()); // ["hello"]
    list.push("world".to_string()); // ["hello", "world"]
    list.push("!".to_string()); // ["hello", "world", "!"]

    let expect = [
        String::from("hello"),
        String::from("world"),
        String::from("!"),
    ];
    let mut i = 0;
    let mut iter = list.iter();
    while let Some(x) = iter.next() {
        assert_eq!(x, &expect[i]);
        i += 1;
    }
}
