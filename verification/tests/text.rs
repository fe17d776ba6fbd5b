use server::text::trim;

#[test]
fn trim_removes_outer_whitespace() {
    assert_eq!(trim("  a b \t"), "a b");
    assert_eq!(trim(" \n "), "");
    assert_eq!(trim("x"), "x");
}
