use beacon_pipeline::ble::BleInfoQueue;
use beacon_pipeline::decoder::decode_snapshot;
use beacon_pipeline::observation::BleInfo;

fn rec(address: &str, rssi: i32, payload: Option<Vec<u8>>, name: &str, time: &str) -> BleInfo {
    BleInfo::new(address.to_string(), rssi, payload, name.to_string(), time.to_string())
}

#[test]
fn snapshot_json_exact_shape() {
    let mut h = BleInfoQueue::new("dev".to_string(), 2);
    h.push(rec("aa:bb", -40, Some(vec![1, 2]), "Beacon", "2024-01-01T00:00:00+00:00"));
    assert_eq!(
        h.get_json(),
        "{\"device_id\":\"dev\",\"ble\":[{\"address\":\"aa:bb\",\"rssi\":-40,\
         \"manufacture_id\":[1,2],\"name\":\"Beacon\",\"time\":\"2024-01-01T00:00:00+00:00\"}]}"
    );
}

#[test]
fn snapshot_json_empty_history() {
    let h = BleInfoQueue::new("node-7".to_string(), 5);
    assert_eq!(h.get_json(), "{\"device_id\":\"node-7\",\"ble\":[]}");
}

#[test]
fn snapshot_json_null_payload_and_empty_name() {
    let mut h = BleInfoQueue::new("d".to_string(), 2);
    h.push(rec("x", 0, None, "", "t"));
    assert_eq!(
        h.get_json(),
        "{\"device_id\":\"d\",\"ble\":[{\"address\":\"x\",\"rssi\":0,\
         \"manufacture_id\":null,\"name\":\"\",\"time\":\"t\"}]}"
    );
}

#[test]
fn forward_json_exact_shape() {
    let o = rec("aa", -55, None, "n", "2024-01-01T00:00:00+00:00");
    assert_eq!(
        o.get_json("dev"),
        "{\"device_id\":\"dev\",\"address\":\"aa\",\"rssi\":-55,\"manufacture_id\":null,\
         \"name\":\"n\",\"time\":\"2024-01-01T00:00:00+00:00\"}"
    );
}

#[test]
fn json_escaping_of_special_characters() {
    let mut h = BleInfoQueue::new("d".to_string(), 1);
    h.push(rec("a\"b\\c", -1, None, "line\nbreak\ttab", "t"));
    assert_eq!(
        h.get_json(),
        "{\"device_id\":\"d\",\"ble\":[{\"address\":\"a\\\"b\\\\c\",\"rssi\":-1,\
         \"manufacture_id\":null,\"name\":\"line\\u000abreak\\u0009tab\",\"time\":\"t\"}]}"
    );
}

#[test]
fn json_output_is_valid_json() {
    let mut h = BleInfoQueue::new("device \"7\"".to_string(), 3);
    h.push(rec("aa:bb", -40, Some(vec![0, 255]), "Bäcon ☃", "2024-01-01T00:00:00+00:00"));
    h.push(rec("cc\\dd", 12, Some(vec![]), "quote\"inside", "2024-01-01T00:00:01+00:00"));
    let text = h.get_json();
    let v: serde_json::Value = serde_json::from_str(&text).expect("well-formed JSON");
    assert_eq!(v["device_id"], serde_json::Value::String("device \"7\"".to_string()));
    let ble = v["ble"].as_array().expect("array");
    assert_eq!(ble.len(), 2);
    assert_eq!(ble[0]["address"], serde_json::Value::String("aa:bb".to_string()));
    assert_eq!(ble[0]["rssi"].as_i64().unwrap(), -40);
    assert_eq!(ble[0]["manufacture_id"].as_array().unwrap().len(), 2);
    assert_eq!(ble[0]["name"], serde_json::Value::String("Bäcon ☃".to_string()));
    assert_eq!(ble[1]["rssi"].as_i64().unwrap(), 12);
    assert_eq!(ble[1]["manufacture_id"].as_array().unwrap().len(), 0);
    assert_eq!(ble[1]["name"], serde_json::Value::String("quote\"inside".to_string()));
}

#[test]
fn round_trip_preserves_every_field() {
    let mut h = BleInfoQueue::new("device-1".to_string(), 4);
    h.push(rec("aa:bb", -40, Some(vec![1, 2, 3]), "Beacon", "2024-01-01T00:00:00+00:00"));
    h.push(rec("", i32::MIN, Some(vec![]), "", ""));
    h.push(rec("quote\" back\\ ctrl\u{1}", i32::MAX, None, "Bäcon ☃ 𝄞", "t"));
    let text = h.get_json();
    let (id, items) = decode_snapshot(&text).expect("the encoder's output decodes");
    assert_eq!(id, "device-1");
    assert_eq!(items.len(), 3);
    assert_eq!(items[0].address(), "aa:bb");
    assert_eq!(items[0].rssi(), -40);
    assert_eq!(items[0].manufacture_id().as_ref().unwrap(), &vec![1, 2, 3]);
    assert_eq!(items[0].name(), "Beacon");
    assert_eq!(items[0].time(), "2024-01-01T00:00:00+00:00");
    assert_eq!(items[1].address(), "");
    assert_eq!(items[1].rssi(), i32::MIN);
    assert_eq!(items[1].manufacture_id().as_ref().unwrap(), &Vec::<u8>::new());
    assert_eq!(items[1].name(), "");
    assert_eq!(items[1].time(), "");
    assert_eq!(items[2].address(), "quote\" back\\ ctrl\u{1}");
    assert_eq!(items[2].rssi(), i32::MAX);
    assert!(items[2].manufacture_id().is_none());
    assert_eq!(items[2].name(), "Bäcon ☃ 𝄞");
}

#[test]
fn round_trip_empty_snapshot() {
    let h = BleInfoQueue::new("d".to_string(), 1);
    let (id, items) = decode_snapshot(&h.get_json()).expect("decodes");
    assert_eq!(id, "d");
    assert!(items.is_empty());
}

#[test]
fn decode_accepts_only_the_canonical_shape() {
    // well-formed
    let good = "{\"device_id\":\"d\",\"ble\":[]}";
    assert!(decode_snapshot(good).is_some());
    // trailing garbage
    assert!(decode_snapshot("{\"device_id\":\"d\",\"ble\":[]} ").is_none());
    // wrong key order
    assert!(decode_snapshot("{\"ble\":[],\"device_id\":\"d\"}").is_none());
    // missing closing brace
    assert!(decode_snapshot("{\"device_id\":\"d\",\"ble\":[").is_none());
    // empty input
    assert!(decode_snapshot("").is_none());
}

#[test]
fn decode_rejects_non_canonical_numbers() {
    // leading zero
    let t1 = "{\"device_id\":\"d\",\"ble\":[{\"address\":\"a\",\"rssi\":01,\
              \"manufacture_id\":null,\"name\":\"\",\"time\":\"\"}]}";
    assert!(decode_snapshot(t1).is_none());
    // negative zero
    let t2 = "{\"device_id\":\"d\",\"ble\":[{\"address\":\"a\",\"rssi\":-0,\
              \"manufacture_id\":null,\"name\":\"\",\"time\":\"\"}]}";
    assert!(decode_snapshot(t2).is_none());
    // out of range for the signal field
    let t3 = "{\"device_id\":\"d\",\"ble\":[{\"address\":\"a\",\"rssi\":2147483648,\
              \"manufacture_id\":null,\"name\":\"\",\"time\":\"\"}]}";
    assert!(decode_snapshot(t3).is_none());
    // a payload byte above 255
    let t4 = "{\"device_id\":\"d\",\"ble\":[{\"address\":\"a\",\"rssi\":1,\
              \"manufacture_id\":[256],\"name\":\"\",\"time\":\"\"}]}";
    assert!(decode_snapshot(t4).is_none());
}

#[test]
fn decode_rejects_bad_escapes() {
    // raw control character inside a string
    let t1 = "{\"device_id\":\"d\u{1}\",\"ble\":[]}";
    assert!(decode_snapshot(t1).is_none());
    // unknown escape
    let t2 = "{\"device_id\":\"d\\q\",\"ble\":[]}";
    assert!(decode_snapshot(t2).is_none());
    // non-canonical unicode escape for a printable character
    let t3 = "{\"device_id\":\"\\u0041\",\"ble\":[]}";
    assert!(decode_snapshot(t3).is_none());
}

#[test]
fn decode_accepts_canonical_control_escape() {
    let t = "{\"device_id\":\"a\\u0001b\",\"ble\":[]}";
    let (id, items) = decode_snapshot(t).expect("canonical control escape decodes");
    assert_eq!(id, "a\u{1}b");
    assert!(items.is_empty());
}
