use avl_tree::skip_list::{rises, SkipList};

fn level(list: &SkipList<String>, l: usize) -> Vec<(u64, String)> {
    let mut out = Vec::new();
    let mut it = list.iter_level(l);
    while let Some((id, v)) = it.next() {
        out.push((id, v.clone()));
    }
    out
}

fn filled(n: u64, max_level: usize) -> SkipList<String> {
    let mut list = SkipList::new(max_level);
    for i in 1..=n {
        list.append(format!("v{}", i));
    }
    list
}

#[test]
fn search_finds_every_id() {
    let list = filled(50, 4);
    assert_eq!(list.length, 50);
    for id in 1..=50u64 {
        assert_eq!(list.search(id), Some(&format!("v{}", id)));
    }
    assert_eq!(list.search(0), None);
    assert_eq!(list.search(51), None);
}

#[test]
fn search_empty_and_single() {
    let mut list: SkipList<String> = SkipList::new(3);
    assert_eq!(list.search(1), None);
    assert_eq!(level(&list, 0), Vec::new());
    list.append("only".to_string());
    assert_eq!(list.search(1), Some(&"only".to_string()));
    assert_eq!(list.search(2), None);
}

#[test]
fn level_zero_holds_everything_in_order() {
    let list = filled(10, 3);
    let expected: Vec<(u64, String)> = (1..=10u64).map(|i| (i, format!("v{}", i))).collect();
    assert_eq!(level(&list, 0), expected);
}

#[test]
fn higher_levels_are_nested_and_start_at_the_first() {
    let list = filled(64, 5);
    assert_eq!(list.max_level(), 5);
    let mut below: Vec<u64> = level(&list, 0).into_iter().map(|p| p.0).collect();
    for l in 1..=5 {
        let ids: Vec<u64> = level(&list, l).into_iter().map(|p| p.0).collect();
        assert_eq!(ids.first(), Some(&1));
        assert!(ids.windows(2).all(|w| w[0] < w[1]));
        assert!(ids.iter().all(|id| below.contains(id)));
        below = ids;
    }
}

#[test]
fn zero_max_level_is_a_plain_list() {
    let list = filled(5, 0);
    assert_eq!(level(&list, 0).len(), 5);
    assert_eq!(list.search(3), Some(&"v3".to_string()));
}

#[test]
fn len_counts_appends() {
    let list = filled(12, 2);
    assert_eq!(list.len(), 12);
    let empty: SkipList<String> = SkipList::new(2);
    assert_eq!(empty.len(), 0);
}

#[test]
fn rising_stops_on_false_draw_or_top_level() {
    assert!(rises(true, 0, 3));
    assert!(rises(true, 2, 3));
    assert!(!rises(true, 3, 3));
    assert!(!rises(false, 0, 3));
    assert!(!rises(true, 0, 0));
}

#[test]
fn describe_lists_levels_top_down() {
    let empty: SkipList<String> = SkipList::new(2);
    assert_eq!(empty.describe(), "The list is empty: []");
    let flat = filled(3, 0);
    assert_eq!(flat.describe(), "0: [1] [2] [3] \n");
    let single = filled(1, 1);
    assert_eq!(single.describe(), "1: [1] \n0: [1] \n");
}

#[test]
fn describe_writes_multi_digit_ids() {
    let flat = filled(12, 0);
    assert_eq!(
        flat.describe(),
        "0: [1] [2] [3] [4] [5] [6] [7] [8] [9] [10] [11] [12] \n"
    );
}
