use sos_intrusive::link::Link;
use sos_intrusive::list::{List, ListCursor, OwnedRef, Unique};
use sos_intrusive::region::Region;

type RegionList = List<Unique<Region>, Region>;

fn push_back_sizes(list: &mut RegionList, sizes: &[u64]) {
    for &s in sizes {
        list.push_back(Unique::from_raw(Region::new(s)));
    }
}

fn push_front_sizes(list: &mut RegionList, sizes: &[u64]) {
    for &s in sizes {
        list.push_front(Unique::from_raw(Region::new(s)));
    }
}

fn traverse(list: RegionList) -> (Vec<u64>, RegionList) {
    let mut cursor = list.cursor();
    let mut seen = Vec::new();
    loop {
        match cursor.peek_next() {
            Some(node) => seen.push(node.size),
            None => break,
        }
        cursor.next();
    }
    (seen, cursor.into_list())
}

#[test]
fn new_list_is_empty() {
    let list: RegionList = List::new();
    assert_eq!(list.len(), 0);
    assert!(list.is_empty());
    assert!(list.front().is_none());
    assert!(list.back().is_none());
    assert!(list.peek_front().is_none());
}

#[test]
fn len_tracks_pushes_and_pops() {
    let mut list: RegionList = List::new();
    list.push_back(Unique::from_raw(Region::new(1)));
    assert_eq!(list.len(), 1);
    assert!(!list.is_empty());
    list.push_front(Unique::from_raw(Region::new(2)));
    assert_eq!(list.len(), 2);
    list.push_back(Unique::from_raw(Region::new(3)));
    assert_eq!(list.len(), 3);
    assert!(list.pop_front().is_some());
    assert_eq!(list.len(), 2);
    assert!(list.pop_back().is_some());
    assert_eq!(list.len(), 1);
    assert!(list.pop_back().is_some());
    assert_eq!(list.len(), 0);
    assert!(list.is_empty());
    // a pop on the empty list removes nothing and changes nothing
    assert!(list.pop_front().is_none());
    assert_eq!(list.len(), 0);
    assert!(list.is_empty());
}

#[test]
fn round_trip_back() {
    let mut list: RegionList = List::new();
    push_back_sizes(&mut list, &[10, 20]);
    let before = list.len();
    list.push_back(Unique::from_raw(Region::new(99)));
    let handle = list.pop_back().expect("the pushed element is there");
    assert_eq!(handle.get().size, 99);
    assert_eq!(list.len(), before);
    assert_eq!(list.back().expect("two left").size, 20);
}

#[test]
fn round_trip_front() {
    let mut list: RegionList = List::new();
    push_back_sizes(&mut list, &[10, 20]);
    let before = list.len();
    list.push_front(Unique::from_raw(Region::new(99)));
    let handle = list.pop_front().expect("the pushed element is there");
    assert_eq!(handle.get().size, 99);
    assert_eq!(list.len(), before);
    assert_eq!(list.front().expect("two left").size, 10);
}

#[test]
fn fifo_order() {
    let mut list: RegionList = List::new();
    push_back_sizes(&mut list, &[1, 2, 3, 4, 5]);
    let mut seen = Vec::new();
    while let Some(handle) = list.pop_front() {
        seen.push(handle.get().size);
    }
    assert_eq!(seen, vec![1, 2, 3, 4, 5]);
    assert!(list.is_empty());
}

#[test]
fn push_front_reverses_order() {
    let mut list: RegionList = List::new();
    push_front_sizes(&mut list, &[1, 2, 3, 4, 5]);
    let mut seen = Vec::new();
    while let Some(handle) = list.pop_front() {
        seen.push(handle.get().size);
    }
    assert_eq!(seen, vec![5, 4, 3, 2, 1]);
}

#[test]
fn pop_back_reverses_fifo() {
    let mut list: RegionList = List::new();
    push_back_sizes(&mut list, &[1, 2, 3]);
    let mut seen = Vec::new();
    while let Some(handle) = list.pop_back() {
        seen.push(handle.get().size);
    }
    assert_eq!(seen, vec![3, 2, 1]);
}

#[test]
fn empty_pops_report_empty() {
    let mut list: RegionList = List::new();
    assert!(list.pop_front().is_none());
    assert!(list.pop_back().is_none());
    assert!(list.pop_front().is_none());
    assert_eq!(list.len(), 0);
}

#[test]
fn single_element_crosses_ends() {
    let mut list: RegionList = List::new();
    list.push_front(Unique::from_raw(Region::new(7)));
    let handle = list.pop_back().expect("the single element");
    assert_eq!(handle.get().size, 7);
    assert!(list.is_empty());

    list.push_back(Unique::from_raw(Region::new(8)));
    let handle = list.pop_front().expect("the single element");
    assert_eq!(handle.get().size, 8);
    assert!(list.is_empty());
}

#[test]
fn front_back_accessors() {
    let mut list: RegionList = List::new();
    push_back_sizes(&mut list, &[4, 5, 6]);
    assert_eq!(list.front().expect("non-empty").size, 4);
    assert_eq!(list.peek_front().expect("non-empty").size, 4);
    assert_eq!(list.back().expect("non-empty").size, 6);
    assert_eq!(list.len(), 3);
}

#[test]
fn returned_node_has_absent_links() {
    let mut list: RegionList = List::new();
    push_back_sizes(&mut list, &[1, 2, 3]);
    let handle = list.pop_front().expect("non-empty");
    assert!(sos_intrusive::list::Node::prev(handle.get()).is_none());
    assert!(sos_intrusive::list::Node::next(handle.get()).is_none());
}

#[test]
fn cursor_visits_in_order() {
    let mut list: RegionList = List::new();
    push_back_sizes(&mut list, &[1, 2, 3]);
    let (seen, list) = traverse(list);
    assert_eq!(seen, vec![1, 2, 3]);
    assert_eq!(list.len(), 3);
}

#[test]
fn cursor_remove_before_first_pops_front() {
    let mut list: RegionList = List::new();
    push_back_sizes(&mut list, &[1, 2, 3]);
    let mut cursor = list.cursor();
    let removed = cursor.remove().expect("non-empty");
    assert_eq!(removed.get().size, 1);
    let (seen, _list) = traverse(cursor.into_list());
    assert_eq!(seen, vec![2, 3]);
}

#[test]
fn cursor_repeated_remove_takes_successors() {
    let mut list: RegionList = List::new();
    push_back_sizes(&mut list, &[1, 2, 3]);
    let mut cursor = list.cursor();
    assert_eq!(cursor.next().expect("the head").size, 1);
    // the cursor stands on 1; each remove takes its current successor
    let removed = cursor.remove().expect("2 is ahead");
    assert_eq!(removed.get().size, 2);
    let removed = cursor.remove().expect("3 is now ahead");
    assert_eq!(removed.get().size, 3);
    assert!(cursor.remove().is_none());
    let (seen, list) = traverse(cursor.into_list());
    assert_eq!(seen, vec![1]);
    assert_eq!(list.len(), 1);
}

#[test]
fn cursor_next_wraps_past_tail() {
    let mut list: RegionList = List::new();
    push_back_sizes(&mut list, &[1, 2]);
    let mut cursor = list.cursor();
    assert_eq!(cursor.next().expect("the head").size, 1);
    assert_eq!(cursor.next().expect("its successor").size, 2);
    // past the tail: the step reports no node and returns to the start
    assert!(cursor.next().is_none());
    assert_eq!(cursor.peek_next().expect("front again").size, 1);
    let _ = cursor.into_list();
}

#[test]
fn find_and_remove_takes_exactly_the_match() {
    let mut list: RegionList = List::new();
    push_back_sizes(&mut list, &[1, 2, 3]);
    let mut cursor = list.cursor();
    let removed = cursor.find_and_remove(|n: &Region| n.size == 2);
    assert_eq!(removed.expect("2 is resident").get().size, 2);
    let (seen, list) = traverse(cursor.into_list());
    assert_eq!(seen, vec![1, 3]);
    assert_eq!(list.len(), 2);
}

#[test]
fn find_and_remove_misses_report_not_found() {
    let mut list: RegionList = List::new();
    push_back_sizes(&mut list, &[1, 2, 3]);
    let mut cursor = list.cursor();
    assert!(cursor.find_and_remove(|n: &Region| n.size == 42).is_none());
    let (seen, list) = traverse(cursor.into_list());
    assert_eq!(seen, vec![1, 2, 3]);
    assert_eq!(list.len(), 3);
}

#[test]
fn find_and_remove_takes_first_of_equal_matches() {
    let mut list: RegionList = List::new();
    push_back_sizes(&mut list, &[5, 7, 5]);
    let mut cursor = list.cursor();
    let removed = cursor.find_and_remove(|n: &Region| n.size == 5);
    assert_eq!(removed.expect("a 5 is resident").get().size, 5);
    let (seen, _list) = traverse(cursor.into_list());
    assert_eq!(seen, vec![7, 5]);
}

#[test]
fn find_and_remove_scans_from_cursor_position() {
    let mut list: RegionList = List::new();
    push_back_sizes(&mut list, &[9, 1, 9]);
    let mut cursor = list.cursor();
    assert_eq!(cursor.next().expect("the head").size, 9);
    // the cursor already passed the first 9: only the second matches ahead
    let removed = cursor.find_and_remove(|n: &Region| n.size == 9);
    assert_eq!(removed.expect("the second 9").get().size, 9);
    let (seen, _list) = traverse(cursor.into_list());
    assert_eq!(seen, vec![9, 1]);
}

#[test]
fn boxed_handles_round_trip() {
    let mut list: List<Box<Region>, Region> = List::new();
    let handle = <Box<Region> as OwnedRef<Region>>::from_raw(Region::new(11));
    assert_eq!(handle.get().size, 11);
    list.push_back(handle);
    list.push_back(<Box<Region> as OwnedRef<Region>>::from_raw(Region::new(12)));
    let back = list.pop_back().expect("non-empty");
    assert_eq!(back.get().size, 12);
    let node = OwnedRef::<Region>::take(back);
    assert_eq!(node.size, 12);
    let front = list.pop_front().expect("one left");
    assert_eq!(front.get().size, 11);
    assert!(list.is_empty());
}

#[test]
fn unique_handle_take_returns_the_node() {
    let handle = Unique::from_raw(Region::new(33));
    assert_eq!(handle.get().size, 33);
    let node = handle.take();
    assert_eq!(node.size, 33);
}

#[test]
fn links_construct_resolve_and_take() {
    let absent = Link::absent();
    assert!(absent.is_none());
    assert_eq!(absent.resolve(), None);
    let mut present = Link::present(4);
    assert!(!present.is_none());
    assert_eq!(present.resolve(), Some(4));
    let taken = present.take();
    assert_eq!(taken.resolve(), Some(4));
    assert!(present.is_none());
}

#[test]
fn interleaved_operations_keep_order() {
    let mut list: RegionList = List::new();
    list.push_back(Unique::from_raw(Region::new(2)));
    list.push_front(Unique::from_raw(Region::new(1)));
    list.push_back(Unique::from_raw(Region::new(3)));
    let (seen, mut list) = traverse(list);
    assert_eq!(seen, vec![1, 2, 3]);
    assert_eq!(list.pop_front().expect("first").get().size, 1);
    list.push_front(Unique::from_raw(Region::new(0)));
    let (seen, _list) = traverse(list);
    assert_eq!(seen, vec![0, 2, 3]);
}

#[test]
fn cursor_type_is_nameable() {
    let list: RegionList = List::new();
    let cursor: ListCursor<Unique<Region>, Region> = list.cursor();
    assert!(cursor.peek_next().is_none());
}

#[test]
fn scenario_three_regions() {
    let mut list: RegionList = List::new();
    push_back_sizes(&mut list, &[1, 2, 3]);
    let (seen, list) = traverse(list);
    assert_eq!(seen, vec![1, 2, 3]);
    let mut cursor = list.cursor();
    let removed = cursor.find_and_remove(|n: &Region| n.size == 2);
    assert_eq!(removed.expect("2 is resident").get().size, 2);
    let (seen, list) = traverse(cursor.into_list());
    assert_eq!(seen, vec![1, 3]);
    assert_eq!(list.len(), 2);
}
