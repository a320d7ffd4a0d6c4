use discovery::dns::{Name, Suffix};

#[test]
fn test_dns_name_parsing() {
    // Make sure `dns::Name`'s validation isn't too strict: names that are
    // almost all digits and dots are fine as long as the last label is not
    // all-numeric, and uppercase letters are normalized to lowercase.
    let valid: Vec<(&str, &str)> = vec![
        ("1.2.3.x", "1.2.3.x"),
        ("1.2.3.x", "1.2.3.x"),
        ("1.2.3.4A", "1.2.3.4a"),
        ("a.b.c.d", "a.b.c.d"),
        // Uppercase letters in labels
        ("A.b.c.d", "a.b.c.d"),
        ("a.mIddle.c", "a.middle.c"),
        ("a.b.c.D", "a.b.c.d"),
        // Absolute
        ("a.b.c.d.", "a.b.c.d."),
    ];
    for (input, output) in &valid {
        let name = Name::try_from(input.as_bytes());
        assert_eq!(name.as_ref().map(|x| x.as_bytes()), Ok(output.as_bytes()));
    }

    // These are not in the preferred name syntax: the last label only has
    // digits.
    let invalid: Vec<&str> = vec!["1.2.3.4", "a.1.2.3", "1.2.x.3"];
    for input in &invalid {
        assert!(Name::try_from(input.as_bytes()).is_err());
    }
}

#[test]
fn suffix_valid() {
    for (name, suffix) in &[
        ("a", "."),
        ("a.", "."),
        ("a.b", "."),
        ("a.b.", "."),
        ("b.c", "b.c"),
        ("b.c", "b.c"),
        ("a.b.c", "b.c"),
        ("a.b.c", "b.c."),
        ("a.b.c.", "b.c"),
        ("hacker.example.com", "example.com"),
    ] {
        let n = Name::try_from(name.as_bytes()).unwrap();
        let s = Suffix::try_from(suffix).unwrap();
        assert!(s.contains(&n), "{} should contain {}", suffix, name);
    }
}

#[test]
fn suffix_invalid() {
    for (name, suffix) in &[
        ("a", "b"),
        ("b", "a.b"),
        ("b.a", "b"),
        ("hackerexample.com", "example.com"),
    ] {
        let n = Name::try_from(name.as_bytes()).unwrap();
        let s = Suffix::try_from(suffix).unwrap();
        assert!(!s.contains(&n), "{} should not contain {}", suffix, name);
    }

    assert!(Suffix::try_from("").is_err(), "suffix must not be empty");
}

#[test]
fn name_normalization_is_idempotent() {
    for input in &["A.b-C.d", "WWW.Example.COM", "a.b.c.d."] {
        let once = Name::try_from(input.as_bytes()).unwrap();
        let twice = Name::try_from(once.as_bytes()).unwrap();
        assert_eq!(once.as_bytes(), twice.as_bytes());
        assert_eq!(once, twice);
    }
}

#[test]
fn name_rejects_bad_shapes() {
    for input in &[
        "",
        ".",
        "a..b",
        ".a",
        "-a.b",
        "a-.b",
        "a.b-",
        "a_b.c",
        "a b.c",
    ] {
        assert!(Name::try_from(input.as_bytes()).is_err(), "{:?} should be invalid", input);
    }
    // A 63-byte label is fine; a 64-byte one is not.
    let label_63 = "a".repeat(63);
    let label_64 = "a".repeat(64);
    assert!(Name::try_from(format!("{}.x", label_63).as_bytes()).is_ok());
    assert!(Name::try_from(format!("{}.x", label_64).as_bytes()).is_err());
}
