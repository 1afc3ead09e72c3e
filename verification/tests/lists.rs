use bc_algo::exercises;
use bc_algo::linkedlist::one_way::OneWayLinkedList;
use bc_algo::linkedlist::two_way::TwoWayLinkedList;
use bc_algo::linklist::List;

#[test]
fn test() {
    let mut list = OneWayLinkedList::new();
    for x in 0..=99 {
        list.add(x);
    }
    assert_eq!(list.len(), 100);

    assert_eq!(Some(99), list.pop());
    assert_eq!(Some(98), list.pop());
    assert_eq!(Some(97), list.pop());
    assert_eq!(list.len(), 97);

    for x in 0..97 {
        assert_eq!(Some(96 - x), list.pop());
    }
    assert_eq!(list.len(), 0);
    assert_eq!(None, list.pop());

    println!("{}", list.stringify());
}

#[test]
fn one_way_linkedlist() {
    let mut list = exercises::one_way::OneWayLinkedList::new();
    for x in 0..=99 {
        list.add(x);
    }
    assert_eq!(list.len(), 100);

    assert_eq!(Some(99), list.pop());
    assert_eq!(Some(98), list.pop());
    assert_eq!(Some(97), list.pop());
    assert_eq!(list.len(), 97);

    for x in 0..97 {
        assert_eq!(Some(96 - x), list.pop());
    }
    assert_eq!(list.len(), 0);
    assert_eq!(None, list.pop());
    assert!(list.is_empty());

    for x in 0..=9 {
        list.add(x);
    }
    assert!(!list.is_empty());
}

#[test]
fn one_way_stringify_renders_newest_first() {
    let mut list = OneWayLinkedList::new();
    assert_eq!(list.stringify(), "Nil");
    list.add(1i32);
    list.add(2i32);
    list.add(-3i32);
    assert_eq!(list.stringify(), "-3==>2==>1==>Nil");
}

#[test]
fn two_way_both_ends() {
    let mut list = TwoWayLinkedList::new();
    for x in 0..=99 {
        list.prevadd(x);
    }
    for x in 1..=100 {
        list.backadd(-x);
    }
    assert_eq!(list.len(), 200);

    assert_eq!(Some(99), list.prevpop());
    assert_eq!(Some(98), list.prevpop());
    assert_eq!(Some(97), list.prevpop());
    assert_eq!(Some(-100), list.backpop());
    assert_eq!(Some(-99), list.backpop());
    assert_eq!(Some(-98), list.backpop());
    assert_eq!(list.len(), 194);
    assert_eq!(Some(96), list.prevpop());
    assert_eq!(Some(-97), list.backpop());

    println!("{}", list.stringify());
}

#[test]
fn two_way_stringify_renders_back_first() {
    let mut list = TwoWayLinkedList::new();
    list.prevadd(1i64);
    list.backadd(2i64);
    list.backadd(3i64);
    assert_eq!(list.stringify(), "3==>2==>1==>Nil");
}

#[test]
fn deque_list_front_and_back() {
    let mut list = bc_algo::linkedlist::one_way_multi_thread::List::new();
    for x in 0..=99 {
        list.prevadd(x);
    }
    for x in 1..=100 {
        list.backadd(-x);
    }
    assert_eq!(list.len(), 200);
    assert_eq!(Some(99), list.prevpop());
    assert_eq!(Some(-100), list.backpop());
    assert_eq!(Some(-99), list.backpop());
    assert_eq!(Some(-98), list.backpop());
    assert_eq!(list.len(), 196);
}

#[test]
fn cons_list_prepend_and_len() {
    let mut list = List::new();
    for x in 0..10u64 {
        list = list.prepend(x);
    }
    assert_eq!(list.len(), 10);
    assert_eq!(list.stringify(), "9==>8==>7==>6==>5==>4==>3==>2==>1==>0==>NULL");
}
