use kernel_mm::arena::Arena;
use kernel_mm::linked_list::LinkedList;

#[test]
fn arena_reads_what_was_written() {
    let mut mem = Arena::new(0x1000, 0x100);
    assert_eq!(mem.base(), 0x1000);
    assert_eq!(mem.size(), 0x100);
    assert!(mem.holds(0x1000));
    assert!(mem.holds(0x10f8));
    assert!(!mem.holds(0x1100));
    assert!(!mem.holds(0x1004));
    assert!(!mem.holds(0xff8));
    assert_eq!(mem.read(0x1008), 0);
    mem.write(0x1008, 77);
    assert_eq!(mem.read(0x1008), 77);
    assert_eq!(mem.read(0x1000), 0);
    assert_eq!(mem.read(0x1010), 0);
}

#[test]
fn list_is_a_stack_threaded_through_the_arena() {
    let mut mem = Arena::new(0x1000, 0x100);
    let mut list = LinkedList::new();
    assert!(list.is_empty());
    assert_eq!(list.pop(&mem), None);
    list.push(&mut mem, 0x1010);
    list.push(&mut mem, 0x1040);
    list.push(&mut mem, 0x1020);
    assert!(!list.is_empty());
    assert_eq!(list.to_vec(&mem), vec![0x1020, 0x1040, 0x1010]);
    // the links stand in the nodes themselves
    assert_eq!(mem.read(0x1020), 0x1040);
    assert_eq!(mem.read(0x1040), 0x1010);
    assert_eq!(mem.read(0x1010), 0);
    assert_eq!(list.pop(&mem), Some(0x1020));
    assert_eq!(list.pop(&mem), Some(0x1040));
    assert_eq!(list.pop(&mem), Some(0x1010));
    assert_eq!(list.pop(&mem), None);
    assert!(list.is_empty());
}

#[test]
fn cursor_visits_the_nodes_in_order() {
    let mut mem = Arena::new(0x1000, 0x100);
    let mut list = LinkedList::new();
    list.push(&mut mem, 0x1010);
    list.push(&mut mem, 0x1040);
    let mut it = list.iter();
    assert_eq!(it.next(&mem), Some(0x1040));
    assert_eq!(it.next(&mem), Some(0x1010));
    assert_eq!(it.next(&mem), None);
    assert_eq!(it.next(&mem), None);
    assert_eq!(list.to_vec(&mem), vec![0x1040, 0x1010]);
}

#[test]
fn node_can_be_taken_out_of_the_middle() {
    let mut mem = Arena::new(0x1000, 0x100);
    let mut list = LinkedList::new();
    list.push(&mut mem, 0x1010);
    list.push(&mut mem, 0x1040);
    list.push(&mut mem, 0x1020);
    let mut it = list.iter_mut();
    let first = it.next(&mem).unwrap();
    assert_eq!(first.ptr(), 0x1020);
    assert_eq!(first.value(&mem), 0x1040);
    let second = it.next(&mem).unwrap();
    assert_eq!(second.ptr(), 0x1040);
    assert_eq!(second.pop(&mut list, &mut mem), 0x1040);
    assert_eq!(list.to_vec(&mem), vec![0x1020, 0x1010]);
    let node = list.find(&mem, 0x1020).unwrap();
    assert_eq!(node.pop(&mut list, &mut mem), 0x1020);
    assert_eq!(list.to_vec(&mem), vec![0x1010]);
    assert!(list.find(&mem, 0x1020).is_none());
    let node = list.find(&mem, 0x1010).unwrap();
    assert_eq!(node.pop(&mut list, &mut mem), 0x1010);
    assert!(list.is_empty());
}
