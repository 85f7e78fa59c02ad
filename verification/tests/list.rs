use cursor_list::linked_list::LinkedList;
use cursor_list::render::render;

fn sample() -> LinkedList<char> {
    let mut list = LinkedList::<char>::new();
    list.append('b');
    list.append('c');
    list.append('d');
    list.append('e');
    list.prepend('a');
    list.append('f');
    list
}

fn shown(list: &LinkedList<char>) -> String {
    let parts: Vec<String> = list.elements().iter().map(|c| format!("{:?}", c)).collect();
    render(&parts)
}

#[test]
fn headeqcurr() {
    let list = LinkedList::<char>::new();
    assert_eq!(list.front_guard(), list.cursor())
}

#[test]
fn append() {
    let mut list = LinkedList::<char>::new();
    list.append('c');
    list.end();
    list.backward();
    assert_eq!(list.get(), Some(&'c'))
}

#[test]
fn prepend() {
    let mut list = LinkedList::<char>::new();
    list.prepend('c');
    list.begin();
    list.forward();
    assert_eq!(list.get(), Some(&'c'));
    list.prepend('d');
    list.begin();
    list.forward();
    assert_eq!(list.get(), Some(&'d'));
    list.forward();
    assert_eq!(list.get(), Some(&'c'))
}

#[test]
fn iterate_forward() {
    let mut list = sample();

    assert_eq!(list.next(), Some('a'));
    assert_eq!(list.next(), Some('b'));
    assert_eq!(list.next(), Some('c'));
    assert_eq!(list.next(), Some('d'));
    assert_eq!(list.next(), Some('e'));
    assert_eq!(list.next(), Some('f'));
    assert_eq!(list.next(), None);
}

#[test]
fn iterate_backward() {
    let mut list = sample();

    assert_eq!(list.next_back(), Some('f'));
    assert_eq!(list.next_back(), Some('e'));
    assert_eq!(list.next_back(), Some('d'));
    assert_eq!(list.next_back(), Some('c'));
    assert_eq!(list.next_back(), Some('b'));
    assert_eq!(list.next_back(), Some('a'));
    assert_eq!(list.next_back(), None);
}

#[test]
fn iteration() {
    let mut list = sample();

    assert_eq!(list.next_back(), Some('f'));
    assert_eq!(list.next(), Some('a'));
    assert_eq!(list.next_back(), Some('e'));
    assert_eq!(list.next(), Some('b'));
    assert_eq!(list.next_back(), Some('d'));
    assert_eq!(list.next(), Some('c'));
    assert_eq!(list.next_back(), None);
    assert_eq!(list.next(), None);
}

#[test]
fn edit() {
    let mut list = sample();

    list.edit('g');
    assert_eq!(list.get(), Some(&'g'));

    list.backward();
    list.edit('p');
    assert_eq!(list.get(), Some(&'p'));

    list.forward();
    list.edit('z');
    assert_eq!(list.get(), Some(&'z'));

    println!("{}", shown(&list));
}

#[test]
fn edit_leaves_the_rest() {
    let mut list = sample();
    list.edit('g');
    assert_eq!(shown(&list), "['a','b','c','d','e','g',]");
    list.backward();
    list.edit('p');
    assert_eq!(shown(&list), "['a','b','c','d','p','g',]");
    list.forward();
    list.edit('z');
    assert_eq!(shown(&list), "['a','b','c','d','p','z',]");
    assert_eq!(list.elements().len(), 6);
}

#[test]
fn edit_single_element() {
    let mut list = LinkedList::<u32>::new();
    list.append(5);
    assert_eq!(list.get(), Some(&5));
    list.edit(9);
    assert_eq!(list.get(), Some(&9));
    assert_eq!(list.elements(), vec![&9]);
}

#[test]
fn edit_on_a_guard_changes_nothing() {
    let mut list = sample();
    list.begin();
    list.edit('x');
    assert_eq!(list.elements(), vec![&'a', &'b', &'c', &'d', &'e', &'f']);
    assert_eq!(list.cursor(), list.front_guard());
    list.end();
    list.edit('y');
    assert_eq!(list.elements(), vec![&'a', &'b', &'c', &'d', &'e', &'f']);
    assert_eq!(list.cursor(), list.back_guard());
}

#[test]
fn render_sample() {
    let list = sample();
    assert_eq!(shown(&list), "['a','b','c','d','e','f',]");
}

#[test]
fn render_empty() {
    let list = LinkedList::<char>::new();
    assert_eq!(shown(&list), "[]");
    assert_eq!(render(&Vec::new()), "[]");
}

#[test]
fn render_joins_parts() {
    let parts = vec![String::from("1"), String::from("twenty"), String::from("")];
    assert_eq!(render(&parts), "[1,twenty,,]");
}
