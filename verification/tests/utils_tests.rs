use marmoset::utils::{clamp, pretty_print};

#[test]
fn check_pretty_print() {
    assert_eq!(&pretty_print(0), "0");
    assert_eq!(&pretty_print(512), "512");
    assert_eq!(&pretty_print(1024), "1_024");
    assert_eq!(&pretty_print(16777216), "16_777_216");
}

#[test]
fn check_clamp() {
    let range = (0, 255);
    assert_eq!(clamp(-1, range), 0);
    assert_eq!(clamp(100, range), 100);
    assert_eq!(clamp(256, range), 255);
}

#[test]
fn check_pretty_print_boundaries() {
    assert_eq!(&pretty_print(999), "999");
    assert_eq!(&pretty_print(1000), "1_000");
    assert_eq!(&pretty_print(1001), "1_001");
    assert_eq!(&pretty_print(u64::MAX), "18_446_744_073_709_551_615");
}
