use libcraft::threadutil::{copy_step, CopyStep};

#[test]
fn copy_steps() {
    assert_eq!(copy_step(None), CopyStep::ReadFailed);
    assert_eq!(copy_step(Some(0)), CopyStep::EndOfStream);
    assert_eq!(copy_step(Some(1)), CopyStep::Append);
    assert_eq!(copy_step(Some(2)), CopyStep::UnexpectedCount(2));
}
