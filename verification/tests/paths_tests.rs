use piercast::paths::{data_dir_from, default_data_dir, platform_data_dir, Platform};
use piercast::paths::{db_path, http_port_from, lock_path, pairing_path, parse_port, socket_path, DEFAULT_HTTP_PORT};

#[test]
fn data_dir_files() {
    assert_eq!(socket_path("/data"), "/data/piercast.sock");
    assert_eq!(pairing_path("/data/"), "/data/pairing.json");
    assert_eq!(db_path("/var/lib/piercast"), "/var/lib/piercast/registry.sqlite");
    assert_eq!(lock_path(""), "piercast.lock");
}

#[test]
fn port_parsing() {
    assert_eq!(parse_port("8080"), Some(8080));
    assert_eq!(parse_port("+80"), Some(80));
    assert_eq!(parse_port("0065535"), Some(65535));
    assert_eq!(parse_port("65536"), None);
    assert_eq!(parse_port(""), None);
    assert_eq!(parse_port("+"), None);
    assert_eq!(parse_port("-1"), None);
    assert_eq!(parse_port(" 80"), None);
    assert_eq!(parse_port("99999999999999999999"), None);
    // agrees with the standard parser
    for s in ["1", "+7", "x", "12a", "000", "70000", "-0"] {
        assert_eq!(parse_port(s), s.parse::<u16>().ok(), "{s}");
    }
}

#[test]
fn http_port_setting() {
    assert_eq!(DEFAULT_HTTP_PORT, 47923);
    assert_eq!(http_port_from(None), 47923);
    assert_eq!(http_port_from(Some("1234")), 1234);
    assert_eq!(http_port_from(Some("abc")), 47923);
}

#[test]
fn data_dir_follows_xdg_then_home() {
    assert_eq!(data_dir_from(Some("/x/data"), Some("/home/u")), "/x/data/piercast");
    assert_eq!(data_dir_from(None, Some("/home/u")), "/home/u/.local/share/piercast");
    assert_eq!(data_dir_from(None, None), "/tmp/piercast");
    assert_eq!(default_data_dir(Platform::Unix, Some("/xdg/")), "/xdg/piercast");
    assert!(default_data_dir(Platform::Unix, None).ends_with("piercast"));
    assert!(default_data_dir(Platform::MacOs, Some("/ignored")).ends_with("Library/Application Support/Piercast"));
    assert!(default_data_dir(Platform::Windows, None).ends_with("Piercast"));
}

#[test]
fn data_dir_per_platform() {
    assert_eq!(
        platform_data_dir(Platform::MacOs, Some("/x"), Some("/Users/u"), None),
        "/Users/u/Library/Application Support/Piercast"
    );
    assert_eq!(
        platform_data_dir(Platform::MacOs, None, None, None),
        "/tmp/Library/Application Support/Piercast"
    );
    assert_eq!(
        platform_data_dir(Platform::Windows, None, None, Some(r"C:\Users\u\AppData\Roaming")),
        r"C:\Users\u\AppData\Roaming\Piercast"
    );
    assert_eq!(platform_data_dir(Platform::Windows, None, None, None), r".\Piercast");
    assert_eq!(platform_data_dir(Platform::Windows, None, None, Some("C:")), "C:Piercast");
    assert_eq!(platform_data_dir(Platform::Unix, None, Some("/home/u"), Some("/x")), "/home/u/.local/share/piercast");
}
