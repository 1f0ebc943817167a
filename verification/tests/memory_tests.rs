use immixcons::boxheap::{HeapArray, HeapString, Memory, Trace};

fn address_of<T>(object: &Box<T>) -> usize {
    std::ptr::from_ref(&**object).addr()
}

fn register_string(mem: &mut Memory<HeapString>, text: &str) -> usize {
    let object = Box::new(HeapString::from(text));
    let address = address_of(&object);
    mem.register(address, object);
    address
}

#[test]
fn test_new_memory_is_empty() {
    let mem: Memory<HeapString> = Memory::new();
    assert_eq!(mem.len(), 0);
    assert_eq!(mem.base(), 0xbeefbabe);
}

#[test]
fn test_heap_string_round_trip() {
    let s = HeapString::from("foosball");
    assert_eq!(s.as_str(), "foosball");
    let mut refs = vec![7usize];
    s.trace(&mut refs);
    assert_eq!(refs, vec![7]);
}

#[test]
fn test_heap_array_traces_its_items_in_order() {
    let mut array = HeapArray::new();
    array.push(0x1000);
    array.push(0x2000);
    array.push(0x1000);
    let mut refs = vec![5usize];
    array.trace(&mut refs);
    assert_eq!(refs, vec![5, 0x1000, 0x2000, 0x1000]);
}

#[test]
fn test_register_is_unmarked() {
    let mut mem = Memory::new();
    let foo = register_string(&mut mem, "foosball");
    assert_eq!(mem.len(), 1);
    assert!(mem.contains(foo));
    assert_eq!(mem.is_marked(foo), Some(false));
    assert_eq!(mem.is_marked(foo + 1), None);
    assert_eq!(mem.object(foo).map(|s| s.as_str()), Some("foosball"));
}

#[test]
fn test_gc_keeps_only_rooted_strings() {
    let mut mem = Memory::new();
    let foo = register_string(&mut mem, "foosball");
    let mut others = Vec::new();
    for _ in 0x0..0xF {
        others.push(register_string(&mut mem, "foobar"));
    }
    // the stack holds the address of foo among words that are no address
    let words = vec![0, foo, 0xbeefd00d, 1];
    let dropped = mem.gc(&words);
    others.sort();
    assert_eq!(dropped, others);
    assert_eq!(mem.len(), 1);
    assert_eq!(mem.is_marked(foo), Some(false));
    assert_eq!(mem.object(foo).map(|s| s.as_str()), Some("foosball"));

    // a second collection with no root drops foo too
    let dropped = mem.gc(&vec![0xbeefbabe]);
    assert_eq!(dropped, vec![foo]);
    assert_eq!(mem.len(), 0);
}

#[test]
fn test_mark_follows_references() {
    let mut mem: Memory<HeapArray> = Memory::new();
    let leaf = Box::new(HeapArray::new());
    let leaf_addr = address_of(&leaf);
    let mut middle = Box::new(HeapArray::new());
    middle.push(leaf_addr);
    let middle_addr = address_of(&middle);
    let mut root = Box::new(HeapArray::new());
    root.push(middle_addr);
    root.push(0x10);
    let root_addr = address_of(&root);
    let stray = Box::new(HeapArray::new());
    let stray_addr = address_of(&stray);
    mem.register(leaf_addr, leaf);
    mem.register(middle_addr, middle);
    mem.register(root_addr, root);
    mem.register(stray_addr, stray);

    mem.record_stack(&vec![root_addr, 3]);
    mem.mark();
    assert_eq!(mem.is_marked(root_addr), Some(true));
    assert_eq!(mem.is_marked(middle_addr), Some(true));
    assert_eq!(mem.is_marked(leaf_addr), Some(true));
    assert_eq!(mem.is_marked(stray_addr), Some(false));

    let dropped = mem.collect();
    assert_eq!(dropped, vec![stray_addr]);
    assert_eq!(mem.len(), 3);
    assert_eq!(mem.is_marked(root_addr), Some(false));
    assert_eq!(mem.is_marked(leaf_addr), Some(false));
}

#[test]
fn test_collect_without_marks_drops_all_in_order() {
    let mut mem = Memory::new();
    let mut all = Vec::new();
    for _ in 0..4 {
        all.push(register_string(&mut mem, "x"));
    }
    mem.clear_scan();
    let dropped = mem.collect();
    all.sort();
    assert_eq!(dropped, all);
    assert_eq!(mem.len(), 0);
}
