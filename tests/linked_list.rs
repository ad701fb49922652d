use avl_tree::linked_list::LinkedList;

fn items(l: &LinkedList<i32>) -> Vec<i32> {
    let mut out = Vec::new();
    let mut it = l.iter();
    while let Some(v) = it.next() {
        out.push(*v);
    }
    out
}

#[test]
fn append_prepend_and_pop() {
    let mut l = LinkedList::new();
    l.append(2);
    l.append(3);
    l.prepend(1);
    assert_eq!(l.length, 3);
    assert_eq!(items(&l), vec![1, 2, 3]);
    assert_eq!(l.pop(), Some(1));
    assert_eq!(l.pop(), Some(2));
    assert_eq!(l.length, 1);
    assert_eq!(items(&l), vec![3]);
    assert_eq!(l.pop(), Some(3));
    assert_eq!(l.pop(), None);
    assert_eq!(l.length, 0);
}

#[test]
fn empty_list() {
    let mut l: LinkedList<i32> = LinkedList::new();
    assert_eq!(l.length, 0);
    assert_eq!(items(&l), Vec::<i32>::new());
    assert_eq!(l.pop(), None);
}

#[test]
fn prepend_only_reverses() {
    let mut l = LinkedList::new();
    for i in 0..5 {
        l.prepend(i);
    }
    assert_eq!(items(&l), vec![4, 3, 2, 1, 0]);
    l.append(9);
    assert_eq!(items(&l), vec![4, 3, 2, 1, 0, 9]);
}

#[test]
fn len_follows_appends_and_pops() {
    let mut l = LinkedList::new();
    assert_eq!(l.len(), 0);
    l.append(7);
    l.prepend(6);
    assert_eq!(l.len(), 2);
    l.pop();
    assert_eq!(l.len(), 1);
}
