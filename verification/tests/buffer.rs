use beacon_pipeline::ble::BleInfoQueue;
use beacon_pipeline::observation::BleInfo;
use beacon_pipeline::queue::FixedQueue;

fn obs(address: &str, rssi: i32) -> BleInfo {
    BleInfo::new(
        address.to_string(),
        rssi,
        None,
        String::new(),
        "2024-01-01T00:00:00+00:00".to_string(),
    )
}

#[test]
fn empty_initial_state() {
    let q: FixedQueue<i32> = FixedQueue::new(5);
    assert_eq!(q.get_queue().len(), 0);
}

#[test]
fn eviction_order_concrete() {
    // capacity 2: push a, b, c leaves [b, c]
    let mut q: FixedQueue<&str> = FixedQueue::new(2);
    q.push("a");
    q.push("b");
    q.push("c");
    let v: Vec<&str> = q.get_queue().iter().cloned().collect();
    assert_eq!(v, vec!["b", "c"]);
}

#[test]
fn eviction_order_longer_run() {
    // capacity 3, seven pushes: the last three stay, in order
    let mut q: FixedQueue<u32> = FixedQueue::new(3);
    for x in 1..=7u32 {
        q.push(x);
    }
    let v: Vec<u32> = q.get_queue().iter().cloned().collect();
    assert_eq!(v, vec![5, 6, 7]);
}

#[test]
fn bounded_size_at_every_point() {
    let cap: usize = 4;
    let mut q: FixedQueue<usize> = FixedQueue::new(cap);
    for total in 1..=10usize {
        q.push(total);
        let expect = if total <= cap { total } else { cap };
        assert_eq!(q.get_queue().len(), expect);
    }
}

#[test]
fn capacity_one_keeps_latest() {
    let mut q: FixedQueue<u8> = FixedQueue::new(1);
    q.push(1);
    q.push(2);
    q.push(3);
    let v: Vec<u8> = q.get_queue().iter().cloned().collect();
    assert_eq!(v, vec![3]);
}

#[test]
fn snapshot_consistency_no_aliasing() {
    let mut h = BleInfoQueue::new("dev".to_string(), 3);
    h.push(obs("one", -10));
    h.push(obs("two", -20));
    let snap = h.snapshot();
    assert_eq!(snap.len(), 2);
    assert_eq!(snap[0].address(), "one");
    assert_eq!(snap[1].address(), "two");
    // later pushes leave the copy untouched
    h.push(obs("three", -30));
    h.push(obs("four", -40));
    assert_eq!(snap.len(), 2);
    assert_eq!(snap[0].address(), "one");
    assert_eq!(snap[1].address(), "two");
    // while the queue itself evicted its oldest entry
    let now = h.snapshot();
    assert_eq!(now.len(), 3);
    assert_eq!(now[0].address(), "two");
    assert_eq!(now[2].address(), "four");
}

#[test]
fn history_eviction_matches_queue() {
    let mut h = BleInfoQueue::new("dev".to_string(), 2);
    h.push(obs("a", -1));
    h.push(obs("b", -2));
    h.push(obs("c", -3));
    let snap = h.snapshot();
    assert_eq!(snap.len(), 2);
    assert_eq!(snap[0].address(), "b");
    assert_eq!(snap[1].address(), "c");
}

#[test]
fn observation_accessors() {
    let o = BleInfo::new(
        "aa:bb:cc".to_string(),
        -42,
        Some(vec![1, 2, 3]),
        "Beacon".to_string(),
        "2024-06-01T12:00:00+00:00".to_string(),
    );
    assert_eq!(o.address(), "aa:bb:cc");
    assert_eq!(o.rssi(), -42);
    assert_eq!(o.manufacture_id().as_ref().unwrap(), &vec![1, 2, 3]);
    assert_eq!(o.name(), "Beacon");
    assert_eq!(o.time(), "2024-06-01T12:00:00+00:00");
    let d = o.duplicate();
    assert_eq!(d.address(), "aa:bb:cc");
    assert_eq!(d.rssi(), -42);
    assert_eq!(d.manufacture_id().as_ref().unwrap(), &vec![1, 2, 3]);
    assert_eq!(d.name(), "Beacon");
    assert_eq!(d.time(), "2024-06-01T12:00:00+00:00");
}

#[test]
fn observed_at_renders_the_instant_like_the_clock() {
    // the observation's timestamp must be chrono's rendering of the
    // instant, not a copy of the inputs
    let o = BleInfo::observed_at("aa".to_string(), -1, None, String::new(), 1431648000, 0)
        .expect("in-range instant");
    let expect = chrono::DateTime::<chrono::Utc>::from_timestamp(1431648000, 0)
        .unwrap()
        .to_rfc3339();
    assert_eq!(o.time(), expect);
    assert_eq!(o.time(), "2015-05-15T00:00:00+00:00");
}

#[test]
fn observed_at_rejects_out_of_range_instants() {
    let r = BleInfo::observed_at("aa".to_string(), -1, None, String::new(), i64::MAX, 0);
    assert!(r.is_none());
}
