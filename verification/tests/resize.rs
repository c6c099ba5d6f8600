use vyges_resize::job::glob_match;

#[test]
fn globs() {
    assert!(glob_match("clk_*", "clk_a"));
    assert!(glob_match("*_reg", "x_reg"));
    assert!(glob_match("*scan*", "u_scan_0"));
    assert!(glob_match("u1", "u1"));
    assert!(!glob_match("u1", "u2"));
    assert!(!glob_match("clk_*", "rst_a"));
}
