use beacon_pipeline::ble::BleInfoQueue;
use beacon_pipeline::bringup::{BringUpAction, BringUpController, BringUpEvent};
use beacon_pipeline::decoder::decode_snapshot;
use beacon_pipeline::observation::BleInfo;
use beacon_pipeline::scanner::{Delivery, ScanConfig, Scanner, SinkKind, FORWARD_FAILURE_DELAY_MS};
use beacon_pipeline::wifi::WifiSettings;

fn obs(address: &str, rssi: i32) -> BleInfo {
    BleInfo::new(
        address.to_string(),
        rssi,
        None,
        String::new(),
        "2024-01-01T00:00:00+00:00".to_string(),
    )
}

#[test]
fn bringup_passes_through_every_phase_in_order() {
    let mut c = BringUpController::new();
    assert!(!c.is_ready());
    let a = c.step(BringUpEvent::AssociationRequested);
    assert_eq!(a, BringUpAction::PollConnectivity);
    // connectivity that is not up yet is polled again, not an error
    assert_eq!(c.step(BringUpEvent::LinkUp(false)), BringUpAction::PollConnectivity);
    assert_eq!(c.step(BringUpEvent::LinkUp(false)), BringUpAction::PollConnectivity);
    assert_eq!(c.step(BringUpEvent::LinkUp(true)), BringUpAction::RequestTimeSync);
    assert!(!c.is_ready());
    assert_eq!(c.step(BringUpEvent::SyncRequested), BringUpAction::PollSync);
    assert_eq!(c.step(BringUpEvent::SyncDone(false)), BringUpAction::PollSync);
    assert_eq!(c.step(BringUpEvent::SyncDone(true)), BringUpAction::Run);
    assert!(c.is_ready());
}

#[test]
fn bringup_never_ready_without_connectivity() {
    // sync events before connectivity are ignored: the controller
    // cannot be talked into Ready without passing Connected
    let mut c = BringUpController::new();
    c.step(BringUpEvent::SyncDone(true));
    assert!(!c.is_ready());
    c.step(BringUpEvent::AssociationRequested);
    c.step(BringUpEvent::SyncDone(true));
    c.step(BringUpEvent::SyncRequested);
    assert!(!c.is_ready());
    // only the proper order reaches Ready
    c.step(BringUpEvent::LinkUp(true));
    c.step(BringUpEvent::SyncRequested);
    c.step(BringUpEvent::SyncDone(true));
    assert!(c.is_ready());
}

#[test]
fn scan_config_matches_device_settings() {
    let c = ScanConfig::device_default();
    assert!(c.active);
    assert_eq!(c.interval, 100);
    assert_eq!(c.window, 50);
    assert_eq!(c.session_ms, 10000);
    // every session is opened with the same configuration
    let s = Scanner::new(SinkKind::Buffer, "dev".to_string(), c);
    assert_eq!(s.session_config(), c);
}

#[test]
fn buffer_sink_appends_the_observation() {
    let s = Scanner::new(SinkKind::Buffer, "dev".to_string(), ScanConfig::device_default());
    match s.plan_report(obs("aa", -40)) {
        Delivery::Append(o) => {
            assert_eq!(o.address(), "aa");
            assert_eq!(o.rssi(), -40);
        },
        Delivery::Post(_) => panic!("a buffer sink never posts"),
    }
}

#[test]
fn forward_sink_posts_the_serialized_observation() {
    let s = Scanner::new(SinkKind::Forward, "dev".to_string(), ScanConfig::device_default());
    match s.plan_report(obs("aa", -40)) {
        Delivery::Post(body) => {
            assert_eq!(
                body,
                "{\"device_id\":\"dev\",\"address\":\"aa\",\"rssi\":-40,\
                 \"manufacture_id\":null,\"name\":\"\",\"time\":\"2024-01-01T00:00:00+00:00\"}"
            );
        },
        Delivery::Append(_) => panic!("a forward sink never appends"),
    }
}

#[test]
fn delivery_isolation_failure_penalizes_but_never_stops() {
    // a transport that always fails for X still lets Y through next
    let s = Scanner::new(SinkKind::Forward, "dev".to_string(), ScanConfig::device_default());
    let x = obs("x", -1);
    let y = obs("y", -2);
    let first = s.plan_report(x);
    assert!(matches!(first, Delivery::Post(_)));
    // the transport failed: fixed penalty, observation dropped
    assert_eq!(s.after_delivery(false), FORWARD_FAILURE_DELAY_MS);
    assert_eq!(FORWARD_FAILURE_DELAY_MS, 3000);
    // the next report is still planned, independent of the failure
    match s.plan_report(y) {
        Delivery::Post(body) => assert!(body.contains("\"address\":\"y\"")),
        Delivery::Append(_) => panic!("a forward sink never appends"),
    }
    // a success costs nothing
    assert_eq!(s.after_delivery(true), 0);
}

#[test]
fn end_to_end_capacity_three() {
    // capacity 3, four observations pushed in order: the oldest is
    // evicted and the query endpoint serves the remaining three
    let mut h = BleInfoQueue::new("dev".to_string(), 3);
    let scanner = Scanner::new(SinkKind::Buffer, "dev".to_string(), ScanConfig::device_default());
    for (address, rssi) in [("dev1", -40), ("dev2", -55), ("dev1", -42), ("dev3", -60)] {
        match scanner.plan_report(obs(address, rssi)) {
            Delivery::Append(o) => h.push(o),
            Delivery::Post(_) => panic!("a buffer sink never posts"),
        }
    }
    let (id, items) = decode_snapshot(&h.get_json()).expect("the endpoint's answer decodes");
    assert_eq!(id, "dev");
    let got: Vec<(String, i32)> =
        items.iter().map(|o| (o.address().to_string(), o.rssi())).collect();
    assert_eq!(
        got,
        vec![
            ("dev2".to_string(), -55),
            ("dev1".to_string(), -42),
            ("dev3".to_string(), -60),
        ]
    );
}

#[test]
fn wifi_settings_hold_credentials() {
    let w = WifiSettings::new("net", "secret");
    assert_eq!(w.ssid, "net");
    assert_eq!(w.password, "secret");
    assert!(w.fits_driver_limits());
}

#[test]
fn wifi_settings_reject_oversized_credentials() {
    let long_ssid = "123456789012345678901234567890123";
    assert_eq!(long_ssid.len(), 33);
    let w = WifiSettings::new(long_ssid, "pw");
    assert!(!w.fits_driver_limits());
    let w2 = WifiSettings::new("ok", "0123456789012345678901234567890123456789012345678901234567890123x");
    assert!(!w2.fits_driver_limits());
}
