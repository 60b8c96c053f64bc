use wstf::queue::CircularQueue;

#[test]
fn empty_queue() {
    let q = CircularQueue::<i32>::with_capacity(5);

    assert_eq!(q.iter().first(), None);
}

#[test]
fn partially_full_queue() {
    let mut q = CircularQueue::with_capacity(5);
    q.push(1);
    q.push(2);
    q.push(3);

    assert_eq!(q.len(), 3);

    let res: Vec<_> = q.iter();
    assert_eq!(res, [3, 2, 1]);
}

#[test]
fn full_queue() {
    let mut q = CircularQueue::with_capacity(5);
    q.push(1);
    q.push(2);
    q.push(3);
    q.push(4);
    q.push(5);

    assert_eq!(q.len(), 5);

    let res: Vec<_> = q.iter();
    assert_eq!(res, [5, 4, 3, 2, 1]);
}

#[test]
fn over_full_queue() {
    let mut q = CircularQueue::with_capacity(5);
    q.push(1);
    q.push(2);
    q.push(3);
    q.push(4);
    q.push(5);
    q.push(6);
    q.push(7);

    assert_eq!(q.len(), 5);

    let res: Vec<_> = q.iter();
    assert_eq!(res, [7, 6, 5, 4, 3]);
}

#[test]
fn clear() {
    let mut q = CircularQueue::with_capacity(5);
    q.push(1);
    q.push(2);
    q.push(3);
    q.push(4);
    q.push(5);
    q.push(6);
    q.push(7);

    q.clear();

    assert_eq!(q.len(), 0);
    assert_eq!(q.iter().first(), None);

    q.push(1);
    q.push(2);
    q.push(3);

    assert_eq!(q.len(), 3);

    let res: Vec<_> = q.iter();
    assert_eq!(res, [3, 2, 1]);
}

#[test]
fn popping_then_pushing() {
    let mut q = CircularQueue::with_capacity(5);
    q.push(1);
    q.push(2);
    q.push(3);
    q.push(4);
    q.push(5);
    q.push(6);
    q.push(7);

    let res = q.pop();
    assert_eq!(res, Some(7));
    let res = q.pop();
    assert_eq!(res, Some(6));
    let res = q.pop();
    assert_eq!(res, Some(5));
    let res = q.pop();
    assert_eq!(res, Some(4));
    let res = q.pop();
    assert_eq!(res, Some(3));
    let res = q.pop();
    assert_eq!(res, None);

    q.push(1);
    q.push(2);
    q.push(3);
    q.push(4);
    q.push(5);
    q.push(6);
    q.push(7);

    let res = q.pop();
    assert_eq!(res, Some(7));
    let res = q.pop();
    assert_eq!(res, Some(6));
    let res = q.pop();
    assert_eq!(res, Some(5));
    let res = q.pop();
    assert_eq!(res, Some(4));
    let res = q.pop();
    assert_eq!(res, Some(3));
    let res = q.pop();
    assert_eq!(res, None);
}

#[test]
fn popping() {
    let mut q = CircularQueue::with_capacity(5);
    q.push(1);
    q.push(2);
    q.push(3);
    q.push(4);
    q.push(5);
    q.push(6);
    q.push(7);

    let res = q.pop();
    assert_eq!(res, Some(7));
    let res = q.pop();
    assert_eq!(res, Some(6));
    let res = q.pop();
    assert_eq!(res, Some(5));
    let res = q.pop();
    assert_eq!(res, Some(4));
    let res = q.pop();
    assert_eq!(res, Some(3));
    let res = q.pop();
    assert_eq!(res, None);
}

#[test]
fn mutable_iterator() {
    let mut q = CircularQueue::with_capacity(5);
    q.push(1);
    q.push(2);
    q.push(3);
    q.push(4);
    q.push(5);
    q.push(6);
    q.push(7);

    q.iter_mut(&|x: &i32| *x * 2);

    let res: Vec<_> = q.iter();
    assert_eq!(res, [14, 12, 10, 8, 6]);
}

#[test]
fn indexed_get_and_set() {
    let mut q = CircularQueue::with_capacity(3);
    q.push(1);
    q.push(2);
    q.push(3);
    assert_eq!(q.get(0), 3);
    assert_eq!(q.get(2), 1);
    q.set(1, 9);
    let res: Vec<_> = q.iter();
    assert_eq!(res, [3, 9, 1]);
}

#[test]
fn zero_sized() {
    let mut q = CircularQueue::with_capacity(3);
    assert_eq!(q.capacity(), 3);

    q.push(());
    q.push(());
    q.push(());
    q.push(());

    assert_eq!(q.len(), 3);

    let it = q.iter();
    assert_eq!(it.len(), 3);
    assert_eq!(it.first(), Some(&()));
    assert_eq!(it.get(1), Some(&()));
    assert_eq!(it.get(2), Some(&()));
    assert_eq!(it.get(3), None);
}

#[test]
fn underfull_pop_then_push() {
    let mut q = CircularQueue::with_capacity(4);
    q.push(10);
    q.push(20);
    q.push(30);
    assert_eq!(q.pop(), Some(30));
    assert_eq!(q.pop(), Some(20));
    q.push(40);
    let res: Vec<_> = q.iter();
    assert_eq!(res, [40, 10]);
    assert_eq!(q.pop(), Some(40));
    assert_eq!(q.pop(), Some(10));
    assert_eq!(q.pop(), None);
}
