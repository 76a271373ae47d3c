use zk_alloc::MapFailed;

#[test]
fn message_names_the_bytes() {
    for (bytes, text) in [
        (0, "failed to map 0 bytes from the kernel"),
        (7, "failed to map 7 bytes from the kernel"),
        (10, "failed to map 10 bytes from the kernel"),
        (1234567890, "failed to map 1234567890 bytes from the kernel"),
    ] {
        assert_eq!(MapFailed { bytes }.message(), text);
    }
    assert_eq!(
        MapFailed { bytes: usize::MAX }.message(),
        format!("failed to map {} bytes from the kernel", usize::MAX)
    );
}
