use doc_pipeline::copying::{copy_step, CopyAction, ReadEvent};

#[test]
fn copy_step_decisions() {
    assert_eq!(copy_step(0, ReadEvent::Read(0)), CopyAction::Done { written: 0 });
    assert_eq!(copy_step(10, ReadEvent::Read(5)), CopyAction::Write { len: 5, written: 15 });
    assert_eq!(copy_step(10, ReadEvent::Interrupted), CopyAction::Retry);
    assert_eq!(copy_step(10, ReadEvent::Failed), CopyAction::Fail);
    assert_eq!(copy_step(15, ReadEvent::Read(0)), CopyAction::Done { written: 15 });
}

#[test]
fn shared_reference_is_stable() {
    let a = 5;
    let mut b = 7;
    assert!(!doc_pipeline::aliasing::increment_beside_shared(&a, &mut b));
    assert_eq!(b, 8);
    assert_eq!(a, 5);
}
