use immixcons::pointerops::{get_tag, Tagged, TAG_NUMBER, TAG_OBJECT, TAG_PAIR, TAG_SYMBOL};
use immixcons::rawptr::RawPtr;

#[test]
fn test_as_ptr_addr_clone_eq_untyped_as_ref_on_copyable() {
    let x: usize = 0x1234_5678;
    let addr = std::ptr::from_ref(&x).addr();
    let rp: RawPtr<usize> = RawPtr::new(addr);

    // addr
    assert_eq!(rp.addr(), std::ptr::from_ref(&x).addr());

    // Clone and Copy behavior
    let rp2 = rp.clone();
    assert!(rp2 == rp);
    let rp3 = rp;
    assert!(rp3 == rp2);

    // as_untyped
    let untyped = rp.as_untyped();
    assert_eq!(untyped.addr(), rp.addr());
}

#[test]
fn test_as_ref_for_noncopy_types() {
    let s = String::from("hello world");
    let rp: RawPtr<String> = RawPtr::new(std::ptr::from_ref(&s).addr());

    // Also ensure addr points correctly
    assert_eq!(rp.addr(), std::ptr::from_ref(&s).addr());
}

#[test]
fn test_cast_keeps_address() {
    let rp: RawPtr<u32> = RawPtr::new(0x1000);
    let c: RawPtr<u64> = rp.cast::<u64>();
    assert_eq!(c.addr(), 0x1000);
    assert!(RawPtr::<u8>::new(8) != RawPtr::<u8>::new(16));
}

#[test]
fn test_get_tag() {
    assert_eq!(get_tag(0x1000), TAG_SYMBOL);
    assert_eq!(get_tag(0x1001), TAG_PAIR);
    assert_eq!(get_tag(0x1002), TAG_OBJECT);
    assert_eq!(get_tag(0x1003), TAG_NUMBER);
}

#[test]
fn test_tag_untag_round_trip() {
    let p: RawPtr<u64> = RawPtr::new(0x2000);
    let t = p.tag(TAG_PAIR);
    assert_eq!(t.addr(), 0x2001);
    assert_eq!(get_tag(t.addr()), TAG_PAIR);
    let u = <RawPtr<u64> as Tagged<u64>>::untag(t);
    assert_eq!(u.addr(), 0x2000);
}
