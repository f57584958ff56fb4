use queues::judy::{JError_t, JU_ERRNO_CORRUPT, JU_ERRNO_FULL, JU_ERRNO_NFMAX, JU_ERRNO_NONE};

#[test]
fn a_new_error_record_reports_no_error() {
    let e = JError_t::new();
    assert_eq!(e.je_Errno, JU_ERRNO_NONE);
    assert_eq!(e.je_Errno, 0);
    assert_eq!(e.je_ErrID, 0);
    assert_eq!(e.je_reserved, [0u64; 4]);
    assert_eq!(JU_ERRNO_NFMAX, JU_ERRNO_FULL);
    assert_eq!(JU_ERRNO_CORRUPT, 9);
}
