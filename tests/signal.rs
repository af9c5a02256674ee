use bongo_modulator::signal::retain_signalled;

#[test]
fn undelivered_targets_are_dropped() {
    assert_eq!(retain_signalled(&vec![10, 20, 30], &vec![true, false, true]), vec![10, 30]);
    assert_eq!(retain_signalled(&vec![10, 20], &vec![false, false]), Vec::<u32>::new());
    assert_eq!(retain_signalled(&vec![], &vec![]), Vec::<u32>::new());
}
