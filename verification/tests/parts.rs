use delocal_engine::parts::{differs, Changed};

#[test]
fn changed_keys_come_out_once_in_order_and_never_affect_equality() {
    let mut c = Changed::default();
    c.note(&3u64);
    c.note(&1u64);
    c.note(&3u64);
    assert_eq!(c, Changed::default());
    assert_eq!(c.take(), [1, 3]);
    assert!(c.take().is_empty());
}

#[test]
fn a_part_that_differs_is_named() {
    assert_eq!(differs("a", true), None);
    assert_eq!(differs("a", false), Some("a"));
}
