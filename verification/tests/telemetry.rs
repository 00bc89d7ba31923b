use item_registry::telemetry::make_system_data;

#[test]
fn reports_what_the_host_gave() {
    let d = make_system_data(Some("box".to_string()), Some((10, 20)));
    assert_eq!(d.host_name, "box");
    assert_eq!(d.uptime, "2:15");
    assert_eq!(d.rx_bytes, 10);
    assert_eq!(d.tx_bytes, 20);
}

#[test]
fn missing_host_name_falls_back_to_placeholder() {
    let d = make_system_data(None, Some((1, 2)));
    assert_eq!(d.host_name, "unknown");
    assert_eq!(d.rx_bytes, 1);
    assert_eq!(d.tx_bytes, 2);
}

#[test]
fn missing_interface_reports_zero_counters() {
    let d = make_system_data(Some("box".to_string()), None);
    assert_eq!(d.rx_bytes, 0);
    assert_eq!(d.tx_bytes, 0);
}
