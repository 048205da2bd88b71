use binarycookies::client::{CloseState, State};
use binarycookies::config::Config;
use binarycookies::settings::MacsploitSettings;
use binarycookies::bundle::rewrite_bundle_identifier;
use binarycookies::installer::archive_url;

#[test]
fn settings_defaults() {
    let s = MacsploitSettings::defaults();
    assert!(s.autoExecute);
    assert!(!s.autoInject);
    assert!(s.fileSystem);
    assert!(!s.dumpScripts);
    assert!(s.discordRpc);
    assert!(!s.sandbox);
}

#[test]
fn settings_from_text_reads_known_names() {
    let s = MacsploitSettings::from_text("autoInject true\nautoExecute false\r\n  sandbox   true  extra\nunknown true\nlogHttp\n\nnorbUnc yes\n");
    assert!(s.autoInject);
    assert!(!s.autoExecute);
    assert!(s.sandbox);
    assert!(s.logHttp);
    assert!(!s.norbUnc);
    assert!(s.fileSystem);
}

#[test]
fn settings_later_line_wins() {
    let s = MacsploitSettings::from_text("dumpScripts true\ndumpScripts false");
    assert!(!s.dumpScripts);
    let s = MacsploitSettings::from_text("");
    assert_eq!(s, MacsploitSettings::defaults());
}

#[test]
fn settings_text_round_trip() {
    let mut s = MacsploitSettings::defaults();
    s.autoInject = true;
    s.robloxRpc = false;
    let text = s.to_text();
    assert!(text.starts_with("autoExecute true\nautoInject true\nmultiInstance false\n"));
    assert!(text.ends_with("discordRpc true\nsandbox false\n"));
    assert_eq!(text.lines().count(), 18);
    assert_eq!(MacsploitSettings::from_text(&text), s);
}

#[test]
fn port_lines() {
    let id = "p1".to_string();
    let client = "Hydrogen".to_string();
    let st = State::from_output_line("[IPC] Listening to TCP 5.553", &id, 7, &client).unwrap();
    assert_eq!(st.port, Some(5553));
    assert_eq!(st.client.as_deref(), Some("MacSploit"));
    assert!(st.connected);
    assert_eq!(st.pid, 7);
    assert_eq!(st.profile_id, "p1");
    let st = State::from_output_line("Listening on localhost:6969", &id, 8, &client).unwrap();
    assert_eq!(st.port, Some(6969));
    assert_eq!(st.client.as_deref(), Some("Hydrogen"));
    assert!(State::from_output_line("hello", &id, 8, &client).is_none());
    assert!(State::from_output_line("Listening on localhost:99999", &id, 8, &client).is_none());
    assert!(State::from_output_line("Listening on localhost:", &id, 8, &client).is_none());
    assert_eq!(State::from_output_line("Listening on localhost:+80", &id, 8, &client).unwrap().port, Some(80));
}

#[test]
fn launch_and_close_states() {
    let st = State::launched("p".to_string(), 3);
    assert!(!st.connected);
    assert_eq!(st.port, None);
    assert_eq!(CloseState::after_wait("p".to_string(), 3, Some(Some(0))).exit_code, 0);
    assert_eq!(CloseState::after_wait("p".to_string(), 3, Some(None)).exit_code, -1);
    assert_eq!(CloseState::after_wait("p".to_string(), 3, None).exit_code, -2);
}

#[test]
fn initial_config() {
    let c = Config::initial();
    assert!(c.client.is_none());
    assert!(c.clients.is_empty());
    assert_eq!(c.decompiler, "medal");
}

#[test]
fn bundle_identifier_gets_profile_id() {
    let plist = "<key>CFBundleIdentifier</key>\n<string>com.roblox.RobloxPlayer</string>\n<key>X</key><string>com.roblox.RobloxPlayer</string>";
    let out = rewrite_bundle_identifier(plist, Some("abc123")).unwrap();
    assert_eq!(out, "<key>CFBundleIdentifier</key>\n<string>com.roblox.RobloxPlayer.abc123</string>\n<key>X</key><string>com.roblox.RobloxPlayer</string>");
    let back = rewrite_bundle_identifier(&out, None).unwrap();
    assert_eq!(back, plist);
}

#[test]
fn bundle_identifier_absent_leaves_text() {
    let plist = "<string>org.example</string>";
    assert_eq!(rewrite_bundle_identifier(plist, Some("p")).unwrap(), plist);
}

#[test]
fn archive_url_from_install_script() {
    let script = "#!/bin/sh\nHYDROGEN_M_URL=\"https://abc.ufs.sh/f/XyZ123\"\nRONIX_M_URL=\"https://def.ufs.sh/f/Q9\"\n";
    assert_eq!(archive_url("Hydrogen", script).as_deref(), Some("https://abc.ufs.sh/f/XyZ123"));
    assert_eq!(archive_url("Ronix", script).as_deref(), Some("https://def.ufs.sh/f/Q9"));
    assert_eq!(archive_url("Other", script), None);
}
