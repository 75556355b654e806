use task_explorer::text::{chars_of, contains_chars, ends_with_chars, first_word_of, is_whitespace, strip_chars, to_ascii_lowercase, to_lowercase, trim};

#[test]
fn whitespace_agrees_with_std_for_every_char() {
    for code in 0u32..=0x10FFFF {
        if let Some(c) = char::from_u32(code) {
            assert_eq!(is_whitespace(c), c.is_whitespace(), "U+{:04X}", code);
        }
    }
}

#[test]
fn trim_agrees_with_std() {
    let samples = [
        "", "   ", "abc", "  abc  ", "\tpid 42\n", "\u{3000}名前\u{2003}", "a b", " \u{85}x\u{a0} ", "\u{200b}zero\u{200b}",
    ];
    for s in samples {
        assert_eq!(trim(s), s.trim(), "{:?}", s);
    }
}

#[test]
fn ascii_lowercase_leaves_other_letters() {
    assert_eq!(to_ascii_lowercase("Chrome.EXE"), "chrome.exe");
    assert_eq!(to_ascii_lowercase("ÄBC"), "Äbc");
    assert_eq!(to_ascii_lowercase("123-_ZZ"), "123-_zz");
}

#[test]
fn unicode_lowercase_is_std() {
    assert_eq!(to_lowercase("ÄBC"), "äbc");
    assert_eq!(to_lowercase("ZOMBIE"), "zombie");
    assert_eq!(to_lowercase(""), "");
}

#[test]
fn substring_search() {
    let hay = chars_of("xmrig-miner");
    assert!(contains_chars(&hay, &chars_of("miner")));
    assert!(contains_chars(&hay, &chars_of("")));
    assert!(contains_chars(&hay, &chars_of("xmrig-miner")));
    assert!(!contains_chars(&hay, &chars_of("minerx")));
    assert!(ends_with_chars(&chars_of("svc.exe"), &chars_of("exe")));
    assert!(!ends_with_chars(&chars_of("ex"), &chars_of("exe")));
}

#[test]
fn quotes_and_words() {
    assert_eq!(strip_chars(&chars_of("\"\"C:\\a b\"\""), '"'), chars_of("C:\\a b"));
    assert_eq!(strip_chars(&chars_of("\"\"\""), '"'), Vec::<char>::new());
    assert_eq!(first_word_of(&chars_of("  run.exe --flag")), Some(chars_of("run.exe")));
    assert_eq!(first_word_of(&chars_of(" \t ")), None);
}
