use std::sync::Arc;

use kvs::persist::{Persister, SimplePersister};

#[test]
fn test_object_safety() {
    let sp = SimplePersister::new();
    sp.save_raft_state(vec![111]);
    let obj: Box<dyn Persister> = Box::new(sp);
    assert_eq!(obj.raft_state(), vec![111]);
    obj.save_state_and_snapshot(vec![222], vec![123]);
    assert_eq!(obj.raft_state(), vec![222]);
    assert_eq!(obj.snapshot(), vec![123]);

    let cloneable_obj: Arc<dyn Persister> = Arc::from(obj);
    assert_eq!(cloneable_obj.raft_state(), vec![222]);
    assert_eq!(cloneable_obj.snapshot(), vec![123]);

    let cloneable_obj_ = cloneable_obj.clone();
    cloneable_obj.save_raft_state(vec![233]);
    assert_eq!(cloneable_obj_.raft_state(), vec![233]);
    assert_eq!(cloneable_obj_.snapshot(), vec![123]);

    let sp = SimplePersister::new();
    let obj: Arc<dyn Persister> = Arc::new(sp);
    let _box_obj: Box<dyn Persister> = Box::new(obj);
}

#[test]
fn simple_persister_starts_empty() {
    let sp = SimplePersister::new();
    assert_eq!(sp.raft_state(), Vec::<u8>::new());
    assert_eq!(sp.snapshot(), Vec::<u8>::new());
}
