//! Names: the form in which they are kept, and their order.

use context_tabs::contexts::ContextState;

/// The kept form of a name, by the character classes of the standard library.
fn expected(raw: &str) -> Option<String> {
    let kept = raw
        .trim()
        .chars()
        .filter(|ch| !ch.is_control())
        .take(80)
        .collect::<String>();
    let trimmed = kept.trim();
    if trimmed.is_empty() {
        None
    } else {
        Some(trimmed.to_owned())
    }
}

#[test]
fn names_are_trimmed_and_freed_of_control_characters() {
    assert_eq!(ContextState::normalize_name("  kunden  ").as_deref(), Some("kunden"));
    assert_eq!(ContextState::normalize_name("ku\u{7}nd").as_deref(), Some("kund"));
    assert_eq!(ContextState::normalize_name("my context").as_deref(), Some("my context"));
    assert_eq!(ContextState::normalize_name(""), None);
    assert_eq!(ContextState::normalize_name(" \t\n"), None);
    assert_eq!(ContextState::normalize_name("\u{1}\u{2}"), None);
    // What a control character hid is trimmed as well.
    assert_eq!(ContextState::normalize_name("\u{1} a \u{1}").as_deref(), Some("a"));
    assert_eq!(ContextState::normalize_name("\u{1} \u{1}"), None);
}

#[test]
fn names_are_cut_to_eighty_characters() {
    let long = "\u{e5}".repeat(100);
    assert_eq!(ContextState::normalize_name(&long), Some("\u{e5}".repeat(80)));
    let exact = "x".repeat(80);
    assert_eq!(ContextState::normalize_name(&exact), Some(exact));
    // White space that the cut leaves at the end goes too.
    let spaced = format!("{} y", "x".repeat(79));
    assert_eq!(ContextState::normalize_name(&spaced), Some("x".repeat(79)));
    // Characters that are taken out do not count.
    let mixed = format!("{}\u{7}{}", "a".repeat(79), "bc");
    assert_eq!(ContextState::normalize_name(&mixed), Some(format!("{}b", "a".repeat(79))));
}

#[test]
fn character_classes_are_those_of_unicode() {
    for code in 0..=0x10ffffu32 {
        let Some(c) = char::from_u32(code) else {
            continue;
        };
        for raw in [format!("{c}x{c}y{c}"), c.to_string()] {
            assert_eq!(ContextState::normalize_name(&raw), expected(&raw), "{raw:?}");
        }
    }
}

#[test]
fn kept_names_are_kept_as_they_are() {
    for raw in ["  a  b ", "\u{85}x\u{3000}", "kund\u{0}", "\u{feff}bom", "e\u{301}"] {
        let name = ContextState::normalize_name(raw).expect("name");
        assert_eq!(ContextState::normalize_name(&name), Some(name.clone()));
        assert!(!name.chars().any(char::is_control));
        assert_eq!(name.trim(), name);
        assert!(name.chars().count() <= 80);
    }
}

#[test]
fn known_names_are_in_the_order_of_strings() {
    let mut names = vec![
        "b", "a", "ab", "B", "\u{e5}", "z", "\u{ffff}", "\u{10000}", "a b", "aa", "\u{7ff}",
        "\u{800}", "1", "10", "9",
    ];
    let mut state = ContextState::new(None, "default", None);
    for name in &names {
        assert!(state.add_known(name));
        assert!(!state.add_known(name));
    }
    names.sort();
    assert_eq!(state.known(), names);
}
