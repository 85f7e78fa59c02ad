use cursor_list::linked_list::LinkedList;

fn numbers(values: &[u32]) -> LinkedList<u32> {
    let mut list = LinkedList::<u32>::new();
    for v in values {
        list.append(*v);
    }
    list
}

#[test]
fn appended_values_drain_in_order() {
    let mut list = numbers(&[4, 8, 15, 16, 23, 42]);
    assert!(!list.is_empty());
    assert_eq!(list.next(), Some(4));
    assert_eq!(list.next(), Some(8));
    assert_eq!(list.next(), Some(15));
    assert_eq!(list.next(), Some(16));
    assert_eq!(list.next(), Some(23));
    assert_eq!(list.next(), Some(42));
    assert_eq!(list.next(), None);
    assert!(list.is_empty());
}

#[test]
fn drain_hands_out_everything() {
    let mut list = numbers(&[1, 2, 3]);
    assert_eq!(list.drain(), vec![1, 2, 3]);
    assert!(list.is_empty());
    assert_eq!(list.drain(), Vec::<u32>::new());
    assert_eq!(list.next(), None);
    assert_eq!(list.next_back(), None);
}

#[test]
fn appends_and_prepends_keep_their_order() {
    let mut list = LinkedList::<u32>::new();
    list.prepend(3);
    list.append(4);
    list.prepend(2);
    list.append(5);
    list.prepend(1);
    assert_eq!(list.elements(), vec![&1, &2, &3, &4, &5]);
    assert_eq!(list.drain(), vec![1, 2, 3, 4, 5]);
    assert!(list.is_empty());
}

#[test]
fn drained_from_the_front_is_empty() {
    let mut list = numbers(&[1, 2, 3]);
    while list.next().is_some() {}
    assert!(list.is_empty());
    assert_eq!(list.get(), None);
}

#[test]
fn drained_from_the_back_is_empty() {
    let mut list = numbers(&[1, 2, 3]);
    while list.next_back().is_some() {}
    assert!(list.is_empty());
    assert_eq!(list.get(), None);
    assert_eq!(list.get_mut(), None);
}

#[test]
fn drained_from_both_ends_is_empty() {
    let mut list = numbers(&[1, 2, 3, 4, 5]);
    assert_eq!(list.next(), Some(1));
    assert_eq!(list.next_back(), Some(5));
    assert_eq!(list.next_back(), Some(4));
    assert_eq!(list.next(), Some(2));
    assert_eq!(list.next(), Some(3));
    assert_eq!(list.next(), None);
    assert_eq!(list.next_back(), None);
    assert!(list.is_empty());
    assert_eq!(list.get(), None);
}

#[test]
fn new_list_is_empty() {
    let list = LinkedList::<String>::new();
    assert!(list.is_empty());
    assert_eq!(list.get(), None);
    assert_eq!(list.elements().len(), 0);
    assert_ne!(list.front_guard(), list.back_guard());
}

#[test]
fn new_list_can_be_dropped_at_once() {
    let list = LinkedList::<Vec<u8>>::new();
    drop(list);
    let mut other = LinkedList::<Vec<u8>>::new();
    assert_eq!(other.drain(), Vec::<Vec<u8>>::new());
    assert_eq!(other.next(), None);
    assert_eq!(other.next_back(), None);
    assert_eq!(other.remove(), None);
}

#[test]
fn exhausted_stays_exhausted() {
    let mut list = numbers(&[1]);
    assert_eq!(list.next(), Some(1));
    list.append(2);
    list.prepend(0);
    assert_eq!(list.elements(), vec![&0, &2]);
    assert_eq!(list.next(), None);
    assert_eq!(list.next_back(), None);
    assert_eq!(list.elements(), vec![&0, &2]);
}

#[test]
fn get_is_absent_on_a_guard() {
    let mut list = numbers(&[7, 8]);
    list.begin();
    assert_eq!(list.get(), None);
    assert_eq!(list.get_mut(), None);
    list.end();
    assert_eq!(list.get(), None);
    list.backward();
    assert_eq!(list.get(), Some(&8));
}

#[test]
fn get_mut_writes_in_place() {
    let mut list = numbers(&[7, 8, 9]);
    list.backward();
    if let Some(payload) = list.get_mut() {
        *payload = 80;
    }
    assert_eq!(list.get(), Some(&80));
    assert_eq!(list.elements(), vec![&7, &80, &9]);
}

#[test]
fn cursor_stops_at_the_guards() {
    let mut list = numbers(&[1, 2]);
    list.begin();
    list.backward();
    assert_eq!(list.cursor(), list.front_guard());
    list.forward();
    assert_eq!(list.get(), Some(&1));
    list.forward();
    assert_eq!(list.get(), Some(&2));
    list.forward();
    assert_eq!(list.cursor(), list.back_guard());
    list.forward();
    assert_eq!(list.cursor(), list.back_guard());
    list.backward();
    assert_eq!(list.get(), Some(&2));
}

#[test]
fn insert_goes_after_the_cursor() {
    let mut list = numbers(&[1, 3]);
    list.begin();
    list.forward();
    list.insert(2);
    assert_eq!(list.get(), Some(&2));
    assert_eq!(list.elements(), vec![&1, &2, &3]);
    list.begin();
    list.insert(0);
    assert_eq!(list.get(), Some(&0));
    assert_eq!(list.elements(), vec![&0, &1, &2, &3]);
}

#[test]
fn insert_before_and_after_a_node() {
    let mut list = numbers(&[10, 30]);
    list.begin();
    list.forward();
    let first = list.cursor();
    list.insert_after(first, 20);
    assert_eq!(list.get(), Some(&20));
    assert_eq!(list.elements(), vec![&10, &20, &30]);
    list.insert_before(first, 5);
    assert_eq!(list.get(), Some(&5));
    assert_eq!(list.elements(), vec![&5, &10, &20, &30]);
}

#[test]
fn insert_at_the_guards_inner_sides() {
    let mut list = LinkedList::<u32>::new();
    let front = list.front_guard();
    let back = list.back_guard();
    list.insert_before(back, 2);
    list.insert_after(front, 1);
    list.insert_before(back, 3);
    assert_eq!(list.elements(), vec![&1, &2, &3]);
    assert_eq!(list.front_guard(), front);
    assert_eq!(list.back_guard(), back);
}

#[test]
fn remove_moves_the_cursor_back() {
    let mut list = numbers(&[1, 2, 3]);
    list.backward();
    assert_eq!(list.remove(), Some(2));
    assert_eq!(list.get(), Some(&1));
    assert_eq!(list.elements(), vec![&1, &3]);
    assert_eq!(list.remove(), Some(1));
    assert_eq!(list.cursor(), list.front_guard());
    assert_eq!(list.remove(), None);
    assert_eq!(list.elements(), vec![&3]);
}

#[test]
fn remove_node_spares_the_guards() {
    let mut list = numbers(&[1, 2]);
    let front = list.front_guard();
    let back = list.back_guard();
    assert_eq!(list.remove_node(front), None);
    assert_eq!(list.remove_node(back), None);
    assert_eq!(list.elements(), vec![&1, &2]);
    let last = list.cursor();
    assert_eq!(list.remove_node(last), Some(2));
    assert_eq!(list.elements(), vec![&1]);
}

#[test]
fn a_mark_leaves_a_removed_node() {
    let mut list = numbers(&[1, 2, 3]);
    list.begin();
    list.forward();
    assert_eq!(list.remove(), Some(1));
    assert_eq!(list.next(), Some(2));
    list.end();
    list.backward();
    assert_eq!(list.remove(), Some(3));
    assert_eq!(list.next_back(), None);
    assert!(list.is_empty());
}

#[test]
fn draw_moves_the_cursor_before_the_drawn_node() {
    let mut list = numbers(&[1, 2, 3]);
    assert_eq!(list.next_back(), Some(3));
    assert_eq!(list.get(), Some(&2));
    assert_eq!(list.next(), Some(1));
    assert_eq!(list.cursor(), list.front_guard());
}

#[test]
fn a_list_filled_at_the_cursor_drains_from_its_appended_end() {
    let mut list = LinkedList::<u32>::new();
    list.insert(1);
    list.insert(2);
    list.append(3);
    assert_eq!(list.next_back(), Some(3));
    assert_eq!(list.next_back(), Some(2));
    assert_eq!(list.next_back(), Some(1));
    assert_eq!(list.next_back(), None);
    assert!(list.is_empty());
}

#[test]
fn edit_of_the_only_element_is_drawn_from_the_front() {
    let mut list = LinkedList::<u32>::new();
    list.append(1);
    list.edit(5);
    assert!(!list.is_empty());
    assert_eq!(list.next(), Some(5));
    assert_eq!(list.next(), None);
    assert!(list.is_empty());
}

#[test]
fn edit_of_the_only_element_is_drawn_from_the_back() {
    let mut list = LinkedList::<u32>::new();
    list.prepend(1);
    list.edit(5);
    assert_eq!(list.next_back(), Some(5));
    assert_eq!(list.next_back(), None);
    assert_eq!(list.next(), None);
    assert!(list.is_empty());
}

#[test]
fn edit_of_the_last_element_is_drawn_from_the_back() {
    let mut list = LinkedList::<char>::new();
    list.append('a');
    list.append('b');
    list.append('c');
    list.edit('z');
    assert_eq!(list.next_back(), Some('z'));
    assert_eq!(list.next_back(), Some('b'));
    assert_eq!(list.next_back(), Some('a'));
    assert_eq!(list.next_back(), None);
    assert!(list.is_empty());
}

#[test]
fn edit_of_the_first_element_is_drawn_from_the_front() {
    let mut list = numbers(&[1, 2, 3]);
    list.begin();
    list.forward();
    list.edit(10);
    assert_eq!(list.get(), Some(&10));
    assert_eq!(list.drain(), vec![10, 2, 3]);
    assert!(list.is_empty());
}

#[test]
fn edit_in_the_middle_drains_in_order() {
    let mut list = numbers(&[1, 2, 3, 4]);
    list.backward();
    list.edit(30);
    assert_eq!(list.next(), Some(1));
    assert_eq!(list.next_back(), Some(4));
    assert_eq!(list.next(), Some(2));
    assert_eq!(list.next_back(), Some(30));
    assert_eq!(list.next(), None);
    assert_eq!(list.next_back(), None);
}

#[test]
fn edit_on_a_guard_of_an_empty_list() {
    let mut list = LinkedList::<u32>::new();
    let front = list.front_guard();
    let back = list.back_guard();
    list.edit(1);
    assert!(list.is_empty());
    assert_eq!(list.cursor(), front);
    assert_eq!(list.front_guard(), front);
    assert_eq!(list.back_guard(), back);
    list.append(2);
    assert_eq!(list.drain(), vec![2]);
}

#[test]
fn drain_stops_between_the_marks() {
    let mut list = numbers(&[1, 2, 3]);
    list.insert(4);
    list.begin();
    list.insert(0);
    assert_eq!(list.elements(), vec![&0, &1, &2, &3, &4]);
    assert_eq!(list.drain(), vec![1, 2, 3]);
    assert_eq!(list.elements(), vec![&0, &4]);
    assert_eq!(list.next(), None);
    assert_eq!(list.next_back(), None);
}

#[test]
fn freed_slots_are_used_again() {
    let mut list = LinkedList::<u32>::new();
    for round in 0..50u32 {
        list.append(round);
        list.append(round + 100);
        assert_eq!(list.remove(), Some(round + 100));
        assert_eq!(list.remove(), Some(round));
        assert!(list.is_empty());
    }
    list.append(7);
    list.prepend(6);
    assert_eq!(list.elements(), vec![&6, &7]);
}
