use kit_kernel::util::{align_down, align_up};

#[test]
fn align_up_power_of_two() {
    assert_eq!(align_up(990, 8), 992);
}

#[test]
fn align_up_large_power_of_two() {
    assert_eq!(align_up(2990, 1024), 3072);
}

#[test]
fn align_up_non_power_of_two() {
    assert_eq!(align_up(1003, 5), 1005);
}

#[test]
fn align_down_power_of_two() {
    assert_eq!(align_down(990, 8), 984);
}

#[test]
fn align_down_large_power_of_two() {
    assert_eq!(align_down(2990, 1024), 2048);
}

#[test]
fn align_down_non_power_of_two() {
    assert_eq!(align_down(1003, 5), 1000);
}

#[test]
fn align_exact_multiple_unchanged() {
    assert_eq!(align_up(4096, 4096), 4096);
    assert_eq!(align_down(4096, 4096), 4096);
    assert_eq!(align_up(10, 5), 10);
}
