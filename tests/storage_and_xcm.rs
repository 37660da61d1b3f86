use provisioner::storage_value::StorageValue;
use provisioner::xcm::XcmContext;

#[test]
fn storage_value_round_trip() {
    let mut s: StorageValue<u32> = StorageValue::new([7u8; 32]);
    assert_eq!(s.hashed_key(), [7u8; 32]);
    assert!(!s.value_exists());
    assert_eq!(s.get(), None);
    assert_eq!(s.try_get(), Err(()));
    s.put(97);
    assert!(s.value_exists());
    assert_eq!(s.get(), Some(97));
    assert_eq!(s.try_get(), Ok(97));
    s.set(None);
    assert!(!s.value_exists());
    s.set(Some(3));
    assert_eq!(s.take(), Some(3));
    assert!(!s.value_exists());
    s.put(1);
    s.kill();
    assert_eq!(s.get(), None);
}

#[test]
fn storage_value_mutations() {
    let mut s: StorageValue<u32> = StorageValue::new([0u8; 32]);
    assert_eq!(s.mutate_extant(|v| (v + 1, v)), None);
    assert_eq!(s.get(), None);
    let r = s.mutate(|v| (Some(v.unwrap_or(10) * 2), "done"));
    assert_eq!(r, "done");
    assert_eq!(s.get(), Some(20));
    assert_eq!(s.mutate_extant(|v| (v + 1, v)), Some(20));
    assert_eq!(s.get(), Some(21));
    let r: Result<(), &str> = s.try_mutate(|_| Err("no"));
    assert_eq!(r, Err("no"));
    assert_eq!(s.get(), Some(21));
    let r: Result<u32, ()> = s.try_mutate(|v| Ok((v.map(|x| x + 4), 5)));
    assert_eq!(r, Ok(5));
    assert_eq!(s.get(), Some(25));
    s.mutate_exists(|_| (None, ()));
    assert!(!s.value_exists());
    let r: Result<(), ()> = s.try_mutate_exists(|v| Ok((v.or(Some(1)), ())));
    assert_eq!(r, Ok(()));
    assert_eq!(s.get(), Some(1));
}

#[test]
fn xcm_context_with_message_id() {
    let ctx = XcmContext::with_message_id([9u8; 32]);
    assert!(ctx.origin.is_none());
    assert!(ctx.topic.is_none());
    assert_eq!(ctx.message_id, [9u8; 32]);
}
