use emblem_swapper::broadcast::{selection_matches, Selection};
use emblem_swapper::commands::{png_data_url, NetworkInfo, StatusResponse};
use emblem_swapper::diagnostics::{
    check_firewall_rule, check_lan_ip, check_network_category, check_proxy_listening, shell_output,
};
use emblem_swapper::state::Mode;

#[test]
fn mode_names_round_trip() {
    for m in [Mode::Passthrough, Mode::Capture, Mode::Inject] {
        assert_eq!(Mode::from_internal_str(m.as_internal_str()), Some(m));
        assert_eq!(Mode::from_public_str(m.as_public_str()), Some(m));
    }
    assert_eq!(Mode::from_internal_str("  inject\n"), Some(Mode::Inject));
    assert_eq!(Mode::from_internal_str("bogus"), None);
    assert_eq!(Mode::from_public_str("off"), Some(Mode::Passthrough));
    assert_eq!(Mode::from_public_str("Off"), None);
    assert_eq!(Mode::Capture.as_public_str(), "capture");
    assert_eq!(Mode::Passthrough.as_internal_str(), "PASSTHROUGH");
}

#[test]
fn status_and_network_info_carry_their_values() {
    let sel = Selection { group: "001".to_string(), slot: 2 };
    let st = StatusResponse::new(Mode::Passthrough, Some(sel));
    assert_eq!(st.mode_name(), "off");
    assert_eq!(st.selection().as_ref().map(|s| s.slot), Some(2));
    let info = NetworkInfo::new(Some("192.168.1.5".to_string()));
    assert_eq!(info.port(), 8080);
    assert_eq!(info.lan_ip_str().as_deref(), Some("192.168.1.5"));
}

#[test]
fn selection_matches_only_its_own_emblem() {
    let sel = Selection { group: "001".to_string(), slot: 2 };
    assert!(selection_matches(&sel, "001", 2));
    assert!(!selection_matches(&sel, "001", 3));
    assert!(!selection_matches(&sel, "002", 2));
}

#[test]
fn data_urls_use_standard_base64() {
    assert_eq!(png_data_url(b""), "data:image/png;base64,");
    assert_eq!(png_data_url(b"hello world~"), "data:image/png;base64,aGVsbG8gd29ybGR+");
    assert_eq!(png_data_url(b"ab"), "data:image/png;base64,YWI=");
    assert_eq!(png_data_url(&[0xfb, 0xff]), "data:image/png;base64,+/8=");
}

#[test]
fn shell_output_is_trimmed_and_empty_means_none() {
    assert_eq!(shell_output(b"  2\r\n"), Some("2".to_string()));
    assert_eq!(shell_output(b" \r\n"), None);
}

#[test]
fn proxy_check_reports_the_port() {
    let ok = check_proxy_listening(true);
    assert_eq!(ok.status, "ok");
    assert_eq!(ok.detail, "Something is listening on port 8080.");
    let fail = check_proxy_listening(false);
    assert_eq!(fail.status, "fail");
    assert!(fail.detail.starts_with("Nothing is listening on port 8080 right now."));
}

#[test]
fn lan_check_warns_on_ties() {
    assert_eq!(check_lan_ip(None, None).status, "fail");
    let warn = check_lan_ip(Some("10.0.0.2"), Some("2"));
    assert_eq!(warn.status, "warn");
    assert!(warn.detail.starts_with("Currently showing 10.0.0.2, but 2 network interfaces are tied"));
    let ok = check_lan_ip(Some("10.0.0.2"), Some("1"));
    assert_eq!(ok.status, "ok");
    assert_eq!(ok.detail, "10.0.0.2, no ambiguity detected.");
    assert_eq!(check_lan_ip(Some("10.0.0.2"), Some("many")).status, "ok");
    assert_eq!(check_lan_ip(Some("10.0.0.2"), None).status, "ok");
}

#[test]
fn network_check_lists_public_interfaces() {
    assert_eq!(check_network_category(None).status, "unknown");
    let bad = check_network_category(Some("{ nope"));
    assert_eq!(bad.status, "unknown");
    assert_eq!(bad.detail, "Couldn't parse network category info.");
    let one = check_network_category(Some("{\"InterfaceAlias\":\"Ethernet\",\"NetworkCategory\":\"Private\"}"));
    assert_eq!(one.status, "ok");
    let two = check_network_category(Some(
        "[{\"InterfaceAlias\":\"Ethernet\",\"NetworkCategory\":\"Public\"},{\"InterfaceAlias\":\"Wi-Fi\",\"NetworkCategory\":\"Public\"},{\"InterfaceAlias\":\"vEthernet\",\"NetworkCategory\":\"Private\"}]",
    ));
    assert_eq!(two.status, "warn");
    assert!(two.detail.starts_with("Ethernet, Wi-Fi is set to Public."));
}

#[test]
fn firewall_check_needs_an_enabled_allow_rule() {
    assert_eq!(check_firewall_rule(None).status, "warn");
    let ok = check_firewall_rule(Some("{\"Enabled\":\"True\",\"Action\":\"ALLOW\",\"Profile\":\"Any\"}"));
    assert_eq!(ok.status, "ok");
    let ok2 = check_firewall_rule(Some("{\"Enabled\":true,\"Action\":\"Allow\"}"));
    assert_eq!(ok2.status, "ok");
    let off = check_firewall_rule(Some("{\"Enabled\":false,\"Action\":\"Allow\"}"));
    assert_eq!(off.status, "warn");
    assert!(off.detail.starts_with("A rule exists but isn't both Enabled"));
    assert_eq!(check_firewall_rule(Some("not json")).status, "warn");
    assert_eq!(check_firewall_rule(Some("[{\"Enabled\":true,\"Action\":\"Allow\"}]")).status, "warn");
}

#[test]
fn invalid_utf8_in_command_output_becomes_replacement_characters() {
    assert_eq!(shell_output(&[0x20, 0xff, 0x41, 0x0a]), Some("\u{FFFD}A".to_string()));
}
