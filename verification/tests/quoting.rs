//! Quoting for a shell.

use pail::cmd::quote;

#[test]
fn quote_leaves_alone_what_a_shell_would_read_the_same_way() {
    for plain in [
        "nail",
        "--allow-overwrite",
        "/home/jack/tools/bin/nail",
        "12.0",
        "a_b-c.d/e=f:g+h,i@j%k^l",
    ] {
        assert_eq!(quote(plain), plain);
    }
}

#[test]
fn quote_wraps_anything_a_shell_would_read_differently() {
    assert_eq!(quote(""), "''");
    assert_eq!(quote("two words"), "'two words'");
    assert_eq!(quote("a*b"), "'a*b'");
    assert_eq!(quote("$HOME"), "'$HOME'");
    assert_eq!(quote("a\nb"), "'a\nb'");
    assert_eq!(quote("a;rm -rf /"), "'a;rm -rf /'");
    assert_eq!(quote("~/x"), "'~/x'");
    assert_eq!(quote("café"), "'café'");
}

#[test]
fn quote_closes_and_reopens_around_a_single_quote() {
    // 'it'\''s' is the only way to get a literal quote inside single quotes
    assert_eq!(quote("it's"), r"'it'\''s'");
    assert_eq!(quote("'"), r"''\'''");
}
