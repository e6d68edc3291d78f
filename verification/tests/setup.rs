use magic_paper::ap::{
    after_scan, join_code, list_network, show_calls, show_script, signal_bars, start_wifi, Network,
    Scanned, Show,
};
use magic_paper::framebuffer::FrameBuffer;
use magic_paper::gdeq0426t82::{Epd, Refresh};
use magic_paper::http::{
    check_length, credentials_reply, networks_reply, page_reply, routes, Admission, Handler,
    Method, Reply, WifiFormData,
};
use magic_paper::nvs::{
    choose_mode, clear_wifi_credentials, load_wifi_credentials, read_to_string,
    save_wifi_credentials, LoadError, Mode,
};
use magic_paper::script::{Action, Step};
use magic_paper::wifi::{access_point, AccessPoint};

fn text(s: &str) -> String {
    s.to_string()
}

#[test]
fn networks_are_joined_by_code() {
    assert_eq!(join_code("a", "b"), "WIFI:T:WPA;S:a;P:b;;");
}

#[test]
fn signal_strength_in_bars() {
    let bars: Vec<&str> =
        [127, -50, -51, -60, -61, -70, -71, -80, -81, -128].iter().map(|s| signal_bars(*s)).collect();
    assert_eq!(
        bars,
        vec!["****", "****", "***.", "***.", "**..", "**..", "*...", "*...", "....", "...."]
    );
}

fn network(ssid: &str, channel: u8, signal_strength: i8, protocols: &[&str], auth: Option<&str>) -> Network {
    Network {
        ssid: text(ssid),
        channel,
        signal_strength,
        protocols: protocols.iter().map(|p| text(p)).collect(),
        auth: auth.map(text),
    }
}

#[test]
fn networks_are_listed_in_columns() {
    let home = network("home", 6, -63, &["802.11b", "802.11n"], Some("WPA2 Personal"));
    assert_eq!(
        list_network(&home),
        format!(
            "{:<30} chan{:>2} {} ({}dbm) {} {}",
            "home", 6, "**..", -63, "802.11b,802.11n", "WPA2 Personal"
        )
    );
    let long = network("a name that is longer than its column", 165, 0, &[], None);
    assert_eq!(
        list_network(&long),
        format!(
            "{:<30} chan{:>2} {} ({}dbm) {} {}",
            "a name that is longer than its column", 165, "****", 0, "", "open"
        )
    );
    let accents = network("Münster", 11, -128, &["x"], None);
    assert_eq!(
        list_network(&accents),
        format!("{:<30} chan{:>2} {} ({}dbm) {} {}", "Münster", 11, "....", -128, "x", "open")
    );
}

#[test]
fn scans_are_repeated_until_one_succeeds() {
    let mut kept = vec![network("old", 9, -70, &[], None)];
    assert!(matches!(after_scan(&mut kept, None), Scanned::RetryAfter(10)));
    let names = |kept: &[Network]| -> Vec<String> { kept.iter().map(|n| n.ssid.clone()).collect() };
    assert_eq!(names(&kept), vec!["old"]);
    let found = vec![network("a", 1, -40, &[], None), network("b", 2, -90, &[], None)];
    match after_scan(&mut kept, Some(found)) {
        Scanned::List(lines) => {
            assert_eq!(lines.len(), 2);
            assert_eq!(lines[1], list_network(&network("b", 2, -90, &[], None)));
        }
        Scanned::RetryAfter(_) => panic!("no list"),
    }
    assert_eq!(names(&kept), vec!["a", "b"]);
    assert!(matches!(after_scan(&mut kept, Some(vec![])), Scanned::List(lines) if lines.is_empty()));
    assert!(kept.is_empty());
}

#[test]
fn the_setup_screen_is_put_up_and_the_panel_sleeps() {
    let calls = show_calls();
    assert_eq!(
        calls,
        vec![
            Show::Init,
            Show::Fill(0xFF),
            Show::Refresh(Refresh::Full),
            Show::Flush,
            Show::Refresh(Refresh::Full),
            Show::Sleep,
        ]
    );
    let frame = FrameBuffer::new();
    let (mut epd, _) = Epd::new();
    let mut firsts = Vec::new();
    for call in calls {
        let mut script = show_script(call, &frame, &mut epd);
        let mut sent = Vec::new();
        loop {
            match epd.advance(&mut script, Ok(())) {
                Step::Do(Action::Send(bytes)) => sent.push(bytes),
                Step::Do(_) => {}
                _ => break,
            }
        }
        firsts.push((sent[0].clone(), sent.len()));
    }
    assert_eq!(
        firsts,
        vec![
            (vec![0x12], 23),
            (vec![0x11], 982),
            (vec![0x21], 7),
            (vec![0x11], 982),
            (vec![0x21], 7),
            (vec![0x10], 2),
        ]
    );
}

#[test]
fn the_access_point_is_its_own_router() {
    let s = access_point();
    assert_eq!(s.gateway.to_be_bytes(), [192, 168, 71, 1]);
    assert_eq!(s.mask, 24);
    assert!(s.dhcp_enabled);
    assert_eq!(s.dns, Some(s.gateway));
    assert_eq!(s.secondary_dns, None);
    assert_eq!(AccessPoint {}, AccessPoint {});
    let ap = start_wifi();
    assert_eq!((ap.ssid, ap.password, ap.max_connections), ("magic-esp-wifi", "magic-esp-wifi-pw", 2));
}

#[test]
fn long_bodies_are_refused() {
    assert_eq!(check_length(None), Admission::Read(0));
    assert_eq!(check_length(Some(128)), Admission::Read(128));
    assert_eq!(
        check_length(Some(129)),
        Admission::Refuse(Reply { status: 413, body: text("Request too big") })
    );
}

#[test]
fn credentials_are_acknowledged() {
    let form = WifiFormData { ssid: text("home"), password: text("secret") };
    assert_eq!(
        credentials_reply(&Some(form)),
        Reply { status: 200, body: text("WIFI: home, secret") }
    );
    assert_eq!(credentials_reply(&None), Reply { status: 200, body: text("JSON error") });
}

#[test]
fn networks_are_a_list() {
    let body = |items: Vec<Option<String>>| networks_reply(&items).body;
    assert_eq!(body(vec![]), "[]");
    assert_eq!(body(vec![Some(text("{1}"))]), "[{1}]");
    assert_eq!(
        body(vec![Some(text("{1}")), Some(text("{2}")), Some(text("{3}"))]),
        "[{1}, {2}, {3}]"
    );
    assert_eq!(body(vec![Some(text("{1}")), None, Some(text("{3}"))]), "[{1}, JSON error{3}]");
    assert_eq!(page_reply("<html>"), Reply { status: 200, body: text("<html>") });
}

#[test]
fn the_page_is_served_last() {
    let all = routes();
    let listed: Vec<(&str, Method, Handler)> =
        all.iter().map(|r| (r.path, r.method, r.handler)).collect();
    assert_eq!(
        listed,
        vec![
            ("/wifi_credentials", Method::Post, Handler::Credentials),
            ("/wifi-networks", Method::Get, Handler::Networks),
            ("/*", Method::Get, Handler::Page),
        ]
    );
}

#[test]
fn saved_credentials_are_loaded() {
    let entries = save_wifi_credentials("Münster", "pässword");
    assert_eq!(entries[0].key, "ssid");
    assert_eq!(entries[1].key, "password");
    let ssid = Ok(Some(entries[0].value.clone()));
    let password = Ok(Some(entries[1].value.clone()));
    let loaded = load_wifi_credentials(&ssid, &password);
    assert_eq!(loaded, Ok(Some((text("Münster"), text("pässword")))));
    assert_eq!(choose_mode(&loaded), Mode::Main);
    assert_eq!(clear_wifi_credentials(), ["ssid", "password"]);
}

#[test]
fn incomplete_credentials_are_none() {
    let some = Ok(Some(b"x".to_vec()));
    assert_eq!(load_wifi_credentials(&some, &Ok(None)), Ok(None));
    assert_eq!(load_wifi_credentials(&Ok(None), &some), Ok(None));
    assert_eq!(choose_mode(&Ok(None)), Mode::Provisioning);
}

#[test]
fn unreadable_credentials_are_errors() {
    let some = Ok(Some(b"x".to_vec()));
    let garbled = Ok(Some(vec![0xC0, 0x20]));
    assert_eq!(read_to_string(&garbled), Err(LoadError::NotText));
    assert_eq!(load_wifi_credentials(&garbled, &Err(5)), Err(LoadError::NotText));
    assert_eq!(load_wifi_credentials(&some, &Err(5)), Err(LoadError::Storage(5)));
    assert_eq!(load_wifi_credentials(&Err(4), &garbled), Err(LoadError::Storage(4)));
    assert_eq!(choose_mode(&Err(LoadError::NotText)), Mode::Provisioning);
}
