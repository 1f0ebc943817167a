use immixcons::safeptr::{MutatorScope, ScopedPtr, TaggedCellPtr, TaggedScopedPtr};
use immixcons::taggedptr::{TaggedPtr, Value};
use immixcons::trace::{GcScope, TraceVisitorProxy};

struct Guard;
impl MutatorScope for Guard {}

#[test]
fn test_number_round_trip() {
    let g = Guard;
    for n in [0isize, 1, -1, 42, -42, isize::MAX >> 2, isize::MIN >> 2] {
        let p = TaggedScopedPtr::number(&g, n);
        assert_eq!(p.value(), Value::Number(n));
    }
}

#[test]
fn test_nil() {
    let g = Guard;
    let p = TaggedScopedPtr::nil(&g);
    assert_eq!(p.value(), Value::Nil);
    assert!(TaggedPtr::nil().is_nil());
    assert!(!TaggedPtr::number(0).is_nil());
}

#[test]
fn test_tagged_values() {
    assert_eq!(TaggedPtr::from_word(0x1000).value(), Value::Symbol(0x1000));
    assert_eq!(TaggedPtr::from_word(0x1001).value(), Value::Pair(0x1000));
    assert_eq!(TaggedPtr::from_word(0x1002).value(), Value::Object(0x1000));
    assert_eq!(TaggedPtr::from_word(0x1007).value(), Value::Number(0x401));
}

#[test]
fn test_tagged_cell_set_get() {
    let g = Guard;
    let mut c = TaggedCellPtr::new_nil();
    assert!(c.is_nil());
    c.set(TaggedScopedPtr::number(&g, 7));
    assert!(!c.is_nil());
    assert_eq!(c.get(&g).value(), Value::Number(7));
    assert!(c.get(&g) == TaggedScopedPtr::number(&g, 7));
    c.set_to_nil();
    assert!(c.is_nil());
    c.set_to_ptr(&g, TaggedPtr::number(-3));
    assert_eq!(c.get_ptr(&g).value(), Value::Number(-3));
}

#[test]
fn test_tagged_cell_copies() {
    let g = Guard;
    let a = TaggedCellPtr::new_with(TaggedScopedPtr::number(&g, 11));
    let b = TaggedCellPtr::new_copy(&a);
    assert_eq!(b.get(&g).value(), Value::Number(11));
    let mut c = TaggedCellPtr::new_nil();
    c.copy_from(&g, &a);
    assert_eq!(c.get(&g).value(), Value::Number(11));
    let mut d = TaggedCellPtr::new_nil();
    a.copy_into(&g, &mut d);
    assert_eq!(d.get(&g).value(), Value::Number(11));
    let e: TaggedCellPtr = TaggedScopedPtr::number(&g, 5).into();
    assert_eq!(e.get(&g).value(), Value::Number(5));
    let f = e.clone();
    assert_eq!(f.get(&g).value(), Value::Number(5));
}

#[test]
fn test_scoped_ptr() {
    let g = Guard;
    let x = 99u32;
    let p = ScopedPtr::new(&g, &x);
    let q = p;
    assert_eq!(*q.as_ref(), 99);
    // a scoped pointer can serve as a scope itself
    let y = 5u8;
    let r = ScopedPtr::new(&p, &y);
    assert_eq!(*r.as_ref(), 5);
}

#[test]
fn test_trace_visitor_proxy_new() {
    let scope = GcScope;
    let _proxy = TraceVisitorProxy::new(&scope);
}
