use suspense_core::resource::{Outcome, Resource, ResourceState};
use suspense_core::runtime::Runtime;

#[test]
fn fresh_resource_is_idle() {
    let r = Resource::new(0);
    assert_eq!(r.read(), ResourceState::Idle);
}

#[test]
fn first_sync_starts_an_invocation() {
    let mut r = Resource::new(0);
    let started = r.sync_input(1);
    assert_eq!(started, Some(1));
    assert_eq!(r.read(), ResourceState::Pending);
}

#[test]
fn same_version_starts_no_duplicate() {
    let mut r = Resource::new(0);
    assert_eq!(r.sync_input(1), Some(1));
    assert_eq!(r.sync_input(1), None);
    assert_eq!(r.read(), ResourceState::Pending);
}

#[test]
fn completion_with_current_tag_is_written() {
    let mut r = Resource::new(0);
    let tag = r.sync_input(1).unwrap();
    assert!(r.complete(tag, Outcome::Value(42)));
    assert_eq!(r.read(), ResourceState::Ready(42));
}

#[test]
fn failure_completion_settles_as_failed() {
    let mut r = Resource::new(0);
    let tag = r.sync_input(1).unwrap();
    assert!(r.complete(tag, Outcome::Failure(7)));
    assert_eq!(r.read(), ResourceState::Failed(7));
}

#[test]
fn stale_completion_is_dropped() {
    let mut r = Resource::new(0);
    let tag1 = r.sync_input(1).unwrap();
    let tag2 = r.sync_input(2).unwrap();
    assert_ne!(tag1, tag2);
    // The newer invocation wins, whenever the older one lands.
    assert!(r.complete(tag2, Outcome::Value(2)));
    assert!(!r.complete(tag1, Outcome::Value(1)));
    assert_eq!(r.read(), ResourceState::Ready(2));
}

#[test]
fn completion_order_does_not_matter() {
    // The same pair of tagged completions, delivered in both orders,
    // settles the resource identically: only the latest tag is written.
    let mut a = Resource::new(0);
    let ta1 = a.sync_input(1).unwrap();
    let ta2 = a.sync_input(2).unwrap();
    a.complete(ta1, Outcome::Value(10));
    a.complete(ta2, Outcome::Value(20));

    let mut b = Resource::new(0);
    let tb1 = b.sync_input(1).unwrap();
    let tb2 = b.sync_input(2).unwrap();
    b.complete(tb2, Outcome::Value(20));
    b.complete(tb1, Outcome::Value(10));

    assert_eq!(a.read(), ResourceState::Ready(20));
    assert_eq!(b.read(), ResourceState::Ready(20));
}

#[test]
fn dependents_are_exactly_the_resources_keyed_by_the_cell() {
    let mut rt = Runtime::new();
    let c0 = rt.new_cell(0);
    let c1 = rt.new_cell(0);
    let r0 = rt.new_resource(c0);
    let r1 = rt.new_resource(c1);
    let r2 = rt.new_resource(c0);
    assert_eq!(rt.dependents_of(c0), vec![r0, r2]);
    assert_eq!(rt.dependents_of(c1), vec![r1]);
}

#[test]
fn runtime_refresh_reacts_to_input_versions() {
    let mut rt = Runtime::new();
    let c = rt.new_cell(5);
    let r = rt.new_resource(c);
    assert_eq!(rt.state_of(r), ResourceState::Idle);
    let tag = rt.refresh(r).unwrap();
    assert_eq!(rt.state_of(r), ResourceState::Pending);
    // No input change: no new invocation.
    assert_eq!(rt.refresh(r), None);
    assert!(rt.deliver(r, tag, Outcome::Value(5)));
    assert_eq!(rt.state_of(r), ResourceState::Ready(5));
    // An input change re-enters pending with a fresh tag.
    rt.set_input(c, 6);
    let tag2 = rt.refresh(r).unwrap();
    assert_ne!(tag, tag2);
    assert_eq!(rt.state_of(r), ResourceState::Pending);
}
