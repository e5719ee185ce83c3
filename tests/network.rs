use smart_hosts::network::{AuthorizationStatus, InterfaceKind, Monitor, NetworkEvent, NetworkInfo};
use smart_hosts::ui::{toggle_theme, Window};

fn event_text(e: &NetworkEvent) -> String {
    e.summary()
}

#[test]
fn monitor_starts_unknown() {
    let m = Monitor::new();
    assert!(!m.is_permission_granted());
    assert!(matches!(m.get_network_info(), NetworkInfo::Unknown));
}

#[test]
fn defaults_know_nothing() {
    assert_eq!(NetworkInfo::default(), NetworkInfo::Unknown);
    let m = Monitor::default();
    assert!(!m.is_permission_granted());
    assert_eq!(m.get_network_info(), NetworkInfo::Unknown);
}

#[test]
fn interface_updates_info() {
    let mut m = Monitor::new();
    m.on_interface(InterfaceKind::Wired, "en0".to_string(), String::new());
    match m.get_network_info() {
        NetworkInfo::Wired { interface } => assert_eq!(interface, "en0"),
        other => panic!("unexpected {:?}", other),
    }
    m.on_interface(InterfaceKind::WiFi, "en1".to_string(), "home".to_string());
    match m.get_network_info() {
        NetworkInfo::WiFi { ssid, interface } => {
            assert_eq!(ssid, "home");
            assert_eq!(interface, "en1");
        }
        other => panic!("unexpected {:?}", other),
    }
    m.on_interface(InterfaceKind::Other, "utun0".to_string(), String::new());
    assert!(matches!(m.get_network_info(), NetworkInfo::Unknown));
}

#[test]
fn authorization_asks_for_missing_ssid() {
    let mut m = Monitor::new();
    m.on_interface(InterfaceKind::WiFi, "en0".to_string(), String::new());
    assert_eq!(m.on_authorization(AuthorizationStatus::Denied), None);
    assert!(!m.is_permission_granted());
    assert_eq!(m.on_authorization(AuthorizationStatus::AuthorizedWhenInUse), Some("en0".to_string()));
    assert!(m.is_permission_granted());
    m.on_interface(InterfaceKind::WiFi, "en0".to_string(), "office".to_string());
    assert_eq!(m.on_authorization(AuthorizationStatus::AuthorizedAlways), None);
    assert_eq!(m.on_authorization(AuthorizationStatus::NotDetermined), None);
    assert!(!m.is_permission_granted());
}

#[test]
fn authorization_on_cellular_asks_nothing() {
    let mut m = Monitor::new();
    m.on_interface(InterfaceKind::Cellular, "pdp_ip0".to_string(), String::new());
    assert_eq!(m.on_authorization(AuthorizationStatus::AuthorizedAlways), None);
    assert!(m.is_permission_granted());
}

#[test]
fn event_from_info_and_summary() {
    let e = NetworkEvent::from_info(NetworkInfo::WiFi {
        ssid: "home".to_string(),
        interface: "en0".to_string(),
    });
    assert_eq!(event_text(&e), "WiFI: home (en0)");
    let e = NetworkEvent::from_info(NetworkInfo::Cellular { interface: "pdp_ip0".to_string() });
    assert_eq!(event_text(&e), "Cellular (pdp_ip0)");
    let e = NetworkEvent::from_info(NetworkInfo::Wired { interface: "en5".to_string() });
    assert_eq!(event_text(&e), "Wired (en5)");
    let e = NetworkEvent::from_info(NetworkInfo::Unknown);
    assert_eq!(event_text(&e), "Unknown");
}

#[test]
fn window_labels() {
    assert_eq!(Window::Tray.as_str(), "Tray");
    assert_eq!(Window::Preferences.as_str(), "Preferences");
}

#[test]
fn theme_toggles() {
    let mut t = "light".to_string();
    toggle_theme(&mut t);
    assert_eq!(t, "night");
    toggle_theme(&mut t);
    assert_eq!(t, "light");
    let mut t = "cupcake".to_string();
    toggle_theme(&mut t);
    assert_eq!(t, "light");
}
