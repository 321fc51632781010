use stardust_staging::delta::Delta;
use stardust_staging::destroy_queue::DestroyQueue;
use stardust_staging::registry::Registry;
use stardust_staging::staging::ParameterStaging;

#[test]
fn delta_reports_each_change_once() {
    let mut d: Delta<u32> = Delta::new(0);
    d.set(5);
    assert_eq!(d.delta(), Some(5));
    assert_eq!(d.delta(), None);
    d.set(5);
    assert_eq!(d.delta(), None);
    d.set(7);
    assert_eq!(d.delta(), Some(7));
    assert_eq!(d.value(), 7);
}

#[test]
fn delta_initial_value_is_not_a_change() {
    let mut d: Delta<u32> = Delta::new(3);
    assert_eq!(d.delta(), None);
    d.set(4);
    d.set(3);
    assert_eq!(d.delta(), None);
}

#[test]
fn registry_snapshot_lists_live_members_once() {
    let mut r: Registry<&str> = Registry::new();
    let a = r.add("a");
    let b = r.add("b");
    let c = r.add("c");
    assert_eq!((a, b, c), (0, 1, 2));
    assert_eq!(r.get_valid_contents(), vec![0, 1, 2]);
    assert_eq!(r.remove(b), Some("b"));
    assert_eq!(r.remove(b), None);
    let snapshot = r.get_valid_contents();
    assert_eq!(snapshot, vec![0, 2]);
    assert_eq!(snapshot.len(), r.len());
    let d = r.add("d");
    assert_eq!(d, 3);
    assert_eq!(r.position(d), Some(2));
    assert_eq!(r.position(b), None);
    assert_eq!(*r.member(1), "c");
    *r.member_mut(0) = "z";
    assert_eq!(r.remove(a), Some("z"));
}

#[test]
fn registry_empty_snapshot() {
    let r: Registry<u8> = Registry::new();
    assert!(r.get_valid_contents().is_empty());
}

#[test]
fn destroy_queue_drains_in_order() {
    let mut q: DestroyQueue<u32> = DestroyQueue::new();
    q.add(3);
    q.add(1);
    q.add(2);
    assert_eq!(q.len(), 3);
    assert_eq!(q.drain(), vec![3, 1, 2]);
    assert_eq!(q.len(), 0);
    assert!(q.drain().is_empty());
}

#[test]
fn parameter_staging_keeps_one_write_per_key() {
    let mut s: ParameterStaging<i32> = ParameterStaging::new();
    s.set(0, "a".to_string(), 1);
    s.set(1, "a".to_string(), 2);
    s.set(0, "b".to_string(), 3);
    s.set(0, "a".to_string(), 4);
    assert_eq!(s.len(), 3);
    let all = s.take_all();
    assert_eq!(
        all,
        vec![(0, "a".to_string(), 4), (1, "a".to_string(), 2), (0, "b".to_string(), 3)]
    );
    assert_eq!(s.len(), 0);
}

#[test]
fn registry_handles_are_never_reused() {
    let mut r: Registry<u8> = Registry::new();
    assert!(r.can_add());
    let a = r.add(1);
    r.remove(a);
    let b = r.add(2);
    assert_ne!(a, b);
    assert_eq!(r.id_at(0), b);
}
