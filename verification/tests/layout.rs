use ganja_tui::component::layout::clip;

const FAMILY: &str = "\u{1f468}\u{200d}\u{1f469}\u{200d}\u{1f467}\u{200d}\u{1f466}";

#[test]
fn a_cut_keeps_its_first_cluster_whatever_the_width() {
    assert_eq!(clip(&format!("{FAMILY}xx"), 1), FAMILY);
    assert_eq!(clip(&format!("{FAMILY}xx"), 0), FAMILY);
    assert_eq!(clip("e\u{301}x", 0), "e\u{301}");
    assert_eq!(clip("\u{6f22}\u{5b57}", 1), "\u{6f22}");
}

#[test]
fn a_cut_keeps_what_fits() {
    assert_eq!(clip("abc", 2), "ab");
    assert_eq!(clip("abc", 3), "abc");
    assert_eq!(clip(&format!("a{FAMILY}b"), 3), format!("a{FAMILY}"));
    assert_eq!(clip(&format!("a{FAMILY}b"), 2), "a");
    assert_eq!(clip("", 0), "");
}
