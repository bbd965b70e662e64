use delocal_engine::rules::Rules;

#[test]
fn defaults_match_the_design() {
    let r = Rules::default();
    assert_eq!(r.hold_count, 50);
    assert_eq!(r.hold_pct, 25);
    assert_eq!(r.hold_size, 21_474_836_480);
    assert_eq!(r.direct_limit, 1_073_741_824);
    assert_eq!(r.relay_limit, 52_428_800);
    assert_eq!(r.max_fetches_per_peer, 4);
    assert_eq!(r.max_fetches_per_folder, 16);
}
