use piercast::text::{decimal_string, replace_text, trim_text};

#[test]
fn decimal_notation() {
    assert_eq!(decimal_string(0), "0");
    assert_eq!(decimal_string(7), "7");
    assert_eq!(decimal_string(47923), "47923");
    assert_eq!(decimal_string(65535), "65535");
    for n in [1u16, 10, 99, 100, 1000, 3000, 65534] {
        assert_eq!(decimal_string(n), n.to_string());
    }
}

#[test]
fn replacement_matches_std() {
    for (s, p, r) in [
        ("a{port}b{port}", "{port}", "80"),
        ("aaaa", "aa", "b"),
        ("none", "x", "y"),
        ("", "x", "y"),
        ("xxx", "x", ""),
        ("ab", "", "x"),
        ("", "", "y"),
    ] {
        assert_eq!(replace_text(s, p, r), s.replace(p, r), "{s}");
    }
}

#[test]
fn trimming_matches_std() {
    for s in ["  a  ", "\u{85}x\u{2028}", "\u{200b}y", "", "\r\n"] {
        assert_eq!(trim_text(s), s.trim(), "{s:?}");
    }
}
