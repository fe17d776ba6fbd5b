use server::items::{item_name_list, join_naturally, phrase_for};
use server::text::{chars_of, lowers_to, push_decimal, text_of, trim};

fn names(list: &[&str]) -> Vec<String> {
    list.iter().map(|name| name.to_string()).collect()
}

#[test]
fn one_item_is_a_thing() {
    assert_eq!(item_name_list(&names(&["stick"])), "a stick");
}

#[test]
fn several_of_a_name_are_counted() {
    assert_eq!(item_name_list(&names(&["stick", "stick"])), "2 sticks");
    assert_eq!(item_name_list(&names(&["stick"; 12])), "12 sticks");
    assert_eq!(item_name_list(&names(&["stick"; 100])), "100 sticks");
}

#[test]
fn groups_are_joined_as_a_list() {
    assert_eq!(item_name_list(&names(&[])), "");
    assert_eq!(item_name_list(&names(&["stick", "rock"])), "a stick and a rock");
    assert_eq!(item_name_list(&names(&["stick", "rock", "stick"])), "2 sticks and a rock");
    assert_eq!(
        item_name_list(&names(&["stick", "rock", "sword", "rock"])),
        "a stick, 2 rocks, and a sword"
    );
    assert_eq!(
        item_name_list(&names(&["a", "b", "c", "d"])),
        "a a, a b, a c, and a d"
    );
}

#[test]
fn names_are_grouped_as_written() {
    assert_eq!(item_name_list(&names(&["Stick", "stick"])), "a Stick and a stick");
}

#[test]
fn natural_join() {
    assert_eq!(join_naturally(&names(&[])), "");
    assert_eq!(join_naturally(&names(&["x"])), "x");
    assert_eq!(join_naturally(&names(&["x", "y"])), "x and y");
    assert_eq!(join_naturally(&names(&["x", "y", "z"])), "x, y, and z");
    assert_eq!(join_naturally(&names(&["w", "x", "y", "z"])), "w, x, y, and z");
}

#[test]
fn phrases() {
    assert_eq!(phrase_for("rock", 1), "a rock");
    assert_eq!(phrase_for("rock", 0), "0 rocks");
    assert_eq!(phrase_for("rock", 2), "2 rocks");
    assert_eq!(phrase_for("rock", 1234567890), "1234567890 rocks");
}

#[test]
fn decimal_numerals() {
    for n in [0usize, 1, 9, 10, 11, 99, 100, 101, 4096, usize::MAX] {
        let mut text = String::from("n=");
        push_decimal(&mut text, n);
        assert_eq!(text, format!("n={}", n));
    }
}

#[test]
fn trimming() {
    assert_eq!(trim(""), "");
    assert_eq!(trim("   "), "");
    assert_eq!(trim("a"), "a");
    assert_eq!(trim("  a b  "), "a b");
    assert_eq!(trim("\t\n a\u{00a0}\u{3000}"), "a");
    assert_eq!(trim("x  "), "x");
    assert_eq!(trim("  x"), "x");
    assert_eq!(trim(" \u{00e9}t\u{00e9} "), "\u{00e9}t\u{00e9}");
}

#[test]
fn characters_and_slices() {
    assert_eq!(chars_of("h\u{00e9}!"), vec!['h', '\u{00e9}', '!']);
    assert_eq!(chars_of(""), Vec::<char>::new());
    let v = chars_of("hello");
    assert_eq!(text_of(&v, 1, 4), "ell");
    assert_eq!(text_of(&v, 2, 2), "");
    assert_eq!(text_of(&v, 0, 5), "hello");
}

#[test]
fn comparing_in_lowercase() {
    assert!(lowers_to("STICK", &"stick".to_string()));
    assert!(lowers_to("stick", &"stick".to_string()));
    assert!(!lowers_to("stick", &"STICK".to_string()));
    assert!(!lowers_to("sticks", &"stick".to_string()));
    assert!(lowers_to("\u{00c9}T\u{00c9}", &"\u{00e9}t\u{00e9}".to_string()));
}
