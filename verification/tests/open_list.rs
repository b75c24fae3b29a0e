use osm_view::frontier::Frontier;
use osm_view::trace::reversed;

#[test]
fn an_empty_queue_gives_nothing() {
    let mut queue = Frontier::new();
    assert_eq!(queue.len(), 0);
    assert_eq!(queue.pop(), None);
}

#[test]
fn entries_leave_by_priority_then_by_point() {
    let mut queue = Frontier::new();
    queue.push(5, 1);
    queue.push(3, 9);
    queue.push(3, 2);
    queue.push(7, 0);
    queue.push(3, 2);
    assert_eq!(queue.len(), 5);
    assert_eq!(queue.pop(), Some((3, 2)));
    assert_eq!(queue.pop(), Some((3, 2)));
    assert_eq!(queue.pop(), Some((3, 9)));
    assert_eq!(queue.pop(), Some((5, 1)));
    assert_eq!(queue.pop(), Some((7, 0)));
    assert_eq!(queue.pop(), None);
}

#[test]
fn entries_come_out_in_order_whatever_the_order_they_went_in() {
    let mut queue = Frontier::new();
    let mut x: u128 = 12345;
    let mut given: Vec<(u128, usize)> = Vec::new();
    for i in 0..200usize {
        x = (x * 1103515245 + 12345) % 2147483648;
        let e = (x % 50, i % 7);
        given.push(e);
        queue.push(e.0, e.1);
    }
    given.sort();
    let mut taken: Vec<(u128, usize)> = Vec::new();
    while let Some(e) = queue.pop() {
        taken.push(e);
    }
    assert_eq!(taken, given);
}

#[test]
fn reversed_turns_a_list_around() {
    assert_eq!(reversed(&vec![1, 2, 3]), vec![3, 2, 1]);
    assert_eq!(reversed(&Vec::new()), Vec::<usize>::new());
    assert_eq!(reversed(&vec![7]), vec![7]);
}
