use tick_scheduler::access::{Access, AccessMap, Accesses};
use tick_scheduler::scheduler::FIRST_USER_TAG;
use tick_scheduler::system::InnerStoredSystem;

fn unique_usize_system() -> InnerStoredSystem {
    let mut map = AccessMap::new();
    map.declare(FIRST_USER_TAG, Access::Unique);
    InnerStoredSystem::new_sync(Accesses::new(map, AccessMap::new()), false)
}

fn async_shared_system() -> InnerStoredSystem {
    let mut map = AccessMap::new();
    map.declare(FIRST_USER_TAG, Access::Shared);
    InnerStoredSystem::new_async(Accesses::new(map, AccessMap::new()), false)
}

#[test]
fn can_pass_criteria() {
    let runnable = unique_usize_system();
    let owned_resources = vec![FIRST_USER_TAG];
    assert!(runnable.criteria(&owned_resources));
}

#[test]
#[should_panic]
fn can_fail_criteria() {
    let runnable = unique_usize_system();
    let owned_resources: Vec<u64> = Vec::new();
    assert!(runnable.criteria(&owned_resources));
}

#[test]
fn can_access() {
    let runnable = unique_usize_system();
    let scheduler_side = runnable.accesses().scheduler();
    assert_eq!(scheduler_side.get(FIRST_USER_TAG), Some(Access::Unique));
    assert_eq!(scheduler_side.len(), 1);
    assert!(runnable.accesses().system().is_empty());
}

#[test]
fn mod_can_pass_criteria() {
    let runnable = async_shared_system();
    let owned_resources = vec![FIRST_USER_TAG];
    assert!(runnable.criteria(&owned_resources));
}

#[test]
#[should_panic]
fn mod_can_fail_criteria() {
    let runnable = async_shared_system();
    let owned_resources: Vec<u64> = Vec::new();
    assert!(runnable.criteria(&owned_resources));
}

#[test]
fn mod_can_access() {
    let runnable = async_shared_system();
    let scheduler_side = runnable.accesses().scheduler();
    assert_eq!(scheduler_side.get(FIRST_USER_TAG), Some(Access::Shared));
    assert_eq!(scheduler_side.len(), 1);
}

#[test]
fn declaring_conflicting_unique_access_is_refused() {
    let mut map = AccessMap::new();
    assert!(map.try_declare(FIRST_USER_TAG, Access::Unique));
    assert!(!map.try_declare(FIRST_USER_TAG, Access::Unique));
    assert!(!map.try_declare(FIRST_USER_TAG, Access::Shared));
    assert_eq!(map.len(), 1);
}

#[test]
fn shared_access_may_be_declared_twice() {
    let mut map = AccessMap::new();
    assert!(map.try_declare(FIRST_USER_TAG, Access::Shared));
    assert!(map.try_declare(FIRST_USER_TAG, Access::Shared));
    assert_eq!(map.get(FIRST_USER_TAG), Some(Access::Shared));
}

#[test]
fn conflict_needs_a_unique_side() {
    let mut a = AccessMap::new();
    a.declare(FIRST_USER_TAG, Access::Shared);
    let mut b = AccessMap::new();
    b.declare(FIRST_USER_TAG, Access::Shared);
    assert!(!a.conflicts(&b));
    let mut c = AccessMap::new();
    c.declare(FIRST_USER_TAG, Access::Unique);
    assert!(a.conflicts(&c));
    assert!(c.conflicts(&a));
    let mut d = AccessMap::new();
    d.declare(FIRST_USER_TAG + 1, Access::Unique);
    assert!(!a.conflicts(&d));
}
