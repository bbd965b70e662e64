use delocal_engine::VERSION;

#[test]
fn version_is_semver_shaped() {
    let parts: Vec<&str> = VERSION.split('.').collect();
    assert_eq!(parts.len(), 3, "expected major.minor.patch, got {VERSION}");
    for part in parts {
        part.parse::<u64>()
            .expect("each version component is a number");
    }
}
