use deunicode::{
    compact, deunicode, deunicode_char, deunicode_with_tofu, emojiname, merge_names, named_emoji,
    parse_codepoint_hex, single_codepoint, trim_colons, AsciiChars, AsciiCharsIter, CompactError,
    Table, TableError,
};

/// Replacements for the characters these tests use.
fn fixture_entries() -> Vec<(u32, String)> {
    let mut v: Vec<(u32, String)> = vec![
        (0xC6, "AE"),
        (0xE9, "e"),
        (0x5317, "Bei "),
        (0x4EB0, "Jing "),
        (0x4E2D, "Zhong "),
        (0x56FD, "Guo "),
        (0x1515, "sha"),
        (0x14C7, "na"),
        (0x1455, "ta"),
        (0x14D5, "li"),
        (0x140A, "a"),
        (0x1581, "qu"),
        (0x0726, "p"),
        (0x071B, "t"),
        (0x073D, "u"),
        (0x0710, "'"),
        (0x073A, "i"),
        (0x0905, "a"),
        (0x092D, "bh"),
        (0x093F, "i"),
        (0x091C, "j"),
        (0x0940, "ii"),
        (0x0924, "t"),
        (0x0985, "a"),
        (0x09AD, "bh"),
        (0x09BF, "i"),
        (0x099C, "j"),
        (0x09C0, "ii"),
        (0x09A4, "t"),
        (0x0D05, "a"),
        (0x0D2D, "bh"),
        (0x0D3F, "i"),
        (0x0D1C, "j"),
        (0x0D40, "ii"),
        (0x0D24, "t"),
        (0x0D2E, "m"),
        (0x0D32, "l"),
        (0x0D2F, "y"),
        (0x0D3E, "aa"),
        (0x0D4D, ""),
        (0x3052, "ge"),
        (0x3093, "n"),
        (0x307E, "ma"),
        (0x3044, "i"),
        (0x8336, "Cha "),
        (0x2623, "biohazard "),
        (0x2622, "radioactive "),
        (0x4EAC, "Jing "),
    ]
    .into_iter()
    .map(|(c, s)| (c, s.to_string()))
    .collect();
    v.push((0x1F984, emojiname("unicorn_face")));
    v
}

/// A raw table: ASCII maps to itself, the fixture entries are set, and every
/// other codepoint is unknown.
fn fixture_raw() -> Vec<Option<String>> {
    let entries = fixture_entries();
    let len = entries.iter().map(|e| e.0).max().unwrap() as usize + 1;
    let mut raw: Vec<Option<String>> = vec![None; len];
    for c in 0u8..128 {
        raw[c as usize] = Some((c as char).to_string());
    }
    for (c, s) in entries {
        raw[c as usize] = Some(s);
    }
    raw
}

fn fixture() -> Table {
    compact(&fixture_raw()).unwrap()
}

fn known_chunks(mut it: AsciiCharsIter) -> Vec<&str> {
    let mut out = Vec::new();
    while let Some(ch) = it.next() {
        if let Some(s) = ch {
            out.push(s);
        }
    }
    out
}

#[test]
fn iter_test() {
    let t = fixture();
    let chars = known_chunks(AsciiCharsIter::new(&t, "中国"));
    assert_eq!(&chars, &["Zhong ", "Guo"]);
    let chars = known_chunks("中国x".ascii_chars(&t));
    assert_eq!(&chars, &["Zhong ", "Guo ", "x"]);
    let chars = known_chunks("中 国".ascii_chars(&t));
    assert_eq!(&chars, &["Zhong", " ", "Guo"]);
}

#[test]
fn test_every_char_is_ascii() {
    let t = fixture();
    for i in 0..=0x10FFFF {
        if let Some(ch) = std::char::from_u32(i) {
            if let Some(c) = deunicode_char(&t, ch) {
                for ascii_ch in c.chars() {
                    let x = ascii_ch as u32;
                    if x > 127 {
                        panic!("Data contains non-ASCII character (Dec: {})", x);
                    }
                }
            }
        }
    }
}

#[test]
fn test_conversion() {
    let t = fixture();
    assert_eq!(deunicode(&t, "Æneid"), "AEneid");
    assert_eq!(deunicode(&t, "étude"), "etude");
    assert_eq!(deunicode(&t, "北亰"), "Bei Jing");
    assert_eq!(deunicode(&t, "北亰city"), "Bei Jing city");
    assert_eq!(deunicode(&t, "北亰 city"), "Bei Jing city");
    assert_eq!(deunicode(&t, "北 亰 city"), "Bei Jing city");
    assert_eq!(deunicode(&t, "北亰 city "), "Bei Jing city ");
    assert_eq!(deunicode(&t, "ᔕᓇᓇ"), "shanana");
    assert_eq!(deunicode(&t, "ᑕᓕᐊᖁ"), "taliaqu");
    assert_eq!(deunicode(&t, "ܦܛܽܐܺ"), "ptu'i");
    assert_eq!(deunicode(&t, "अभिजीत"), "abhijiit");
    assert_eq!(deunicode(&t, "অভিজীত"), "abhijiit");
    assert_eq!(deunicode(&t, "അഭിജീത"), "abhijiit");
    assert_eq!(deunicode(&t, "മലയാലമ്"), "mlyaalm");
    assert_eq!(deunicode(&t, "げんまい茶"), "genmaiCha");
    assert_eq!(deunicode(&t, "🦄☣"), "unicorn face biohazard");
    assert_eq!(deunicode(&t, "🦄 ☣"), "unicorn face biohazard");
    assert_eq!(deunicode(&t, " spaces "), " spaces ");
    assert_eq!(deunicode(&t, "  two  spaces  "), "  two  spaces  ");
    assert_eq!(
        deunicode(&t, &[std::char::from_u32(849).unwrap()].iter().collect::<String>()),
        "[?]"
    );
    assert_eq!(
        deunicode_with_tofu(
            &t,
            &[std::char::from_u32(849).unwrap()].iter().collect::<String>(),
            "tofu"
        ),
        "tofu"
    );
}

#[test]
fn test_deunicode_char() {
    let t = fixture();
    assert_eq!(deunicode_char(&t, 'Æ'), Some("AE"));
    assert_eq!(deunicode_char(&t, '北'), Some("Bei "));
    assert_eq!(deunicode_char(&t, '亰'), Some("Jing "));
    assert_eq!(deunicode_char(&t, 'ᔕ'), Some("sha"));
    assert_eq!(deunicode_char(&t, std::char::from_u32(849).unwrap()), None);
}

#[test]
fn ascii_maps_to_itself() {
    let t = fixture();
    for c in 0u8..128 {
        let ch = c as char;
        assert_eq!(deunicode_char(&t, ch), Some(ch.to_string().as_str()));
    }
}

#[test]
fn printable_ascii_text_is_unchanged() {
    let t = fixture();
    let s: String = (0x20u8..=0x7E).map(|c| c as char).collect();
    assert_eq!(deunicode(&t, &s), s);
    assert_eq!(deunicode(&t, "a  b ~ c!"), "a  b ~ c!");
    assert_eq!(deunicode(&t, ""), "");
}

#[test]
fn every_codepoint_round_trips() {
    let raw = fixture_raw();
    let t = compact(&raw).unwrap();
    assert_eq!(t.pointer_bytes().len(), 3 * raw.len());
    for (c, entry) in raw.iter().enumerate() {
        let ch = match std::char::from_u32(c as u32) {
            Some(ch) => ch,
            None => continue,
        };
        assert_eq!(deunicode_char(&t, ch), entry.as_deref(), "codepoint {}", c);
    }
    assert_eq!(deunicode_char(&t, '\u{10FFFF}'), None);
}

#[test]
fn pooled_entries_sit_at_their_offsets() {
    let raw = fixture_raw();
    let t = compact(&raw).unwrap();
    let p = t.pointer_bytes();
    let pool = t.mapping_text();
    for (c, entry) in raw.iter().enumerate() {
        if let Some(s) = entry {
            if s.len() > 2 {
                let off = p[3 * c] as usize | (p[3 * c + 1] as usize) << 8;
                let len = p[3 * c + 2] as usize;
                assert_eq!(&pool[off..off + len], s.as_str());
            }
        }
    }
}

#[test]
fn shared_text_is_pooled_once() {
    let t = fixture();
    let pool = t.mapping_text();
    assert_eq!(pool.matches("Jing ").count(), 1);
    assert!(pool.len() < 200);
}

#[test]
fn unknown_codepoint_gives_placeholder() {
    let t = fixture();
    let reserved = std::char::from_u32(0x0378).unwrap();
    assert_eq!(deunicode_char(&t, reserved), None);
    assert_eq!(deunicode(&t, "a\u{0378}b"), "a[?]b");
    assert_eq!(deunicode_with_tofu(&t, "a\u{0378}b", "?"), "a?b");
    assert_eq!(deunicode_char(&t, '\u{1F985}'), None);
}

#[test]
fn emoji_sequence_is_space_joined() {
    let t = fixture();
    assert_eq!(deunicode(&t, "🦄☣"), "unicorn face biohazard");
    assert_eq!(deunicode(&t, "☣☢"), "biohazard radioactive");
    assert_eq!(deunicode(&t, "☣"), "biohazard");
}

#[test]
fn separator_kept_before_unknown() {
    let t = fixture();
    assert_eq!(deunicode(&t, "北\u{0378}"), "Bei [?]");
    assert_eq!(deunicode_with_tofu(&t, "北\u{0378}", " x"), "Bei  x");
}

#[test]
fn iterator_reports_unknown_and_end() {
    let t = fixture();
    let mut it = "北\u{0378}".ascii_chars(&t);
    assert_eq!(it.next(), Some(Some("Bei ")));
    assert_eq!(it.next(), Some(None));
    assert_eq!(it.next(), None);
    assert_eq!(it.next(), None);
}

#[test]
fn lossy_conversion_of_strings() {
    let t = fixture();
    let s = String::from("北亰\u{0378}");
    assert_eq!(s.to_ascii_lossy(&t), "Bei Jing [?]");
    assert_eq!("é".to_ascii_lossy(&t), "e");
}

#[test]
fn compact_rejects_non_ascii() {
    let raw = vec![Some("a".to_string()), Some("é".to_string()), None];
    assert_eq!(compact(&raw).err(), Some(CompactError::NotAscii));
    let raw = vec![Some("abcé".to_string())];
    assert_eq!(compact(&raw).err(), Some(CompactError::NotAscii));
}

#[test]
fn compact_rejects_long_entries() {
    let raw = vec![Some("x".repeat(256))];
    assert_eq!(compact(&raw).err(), Some(CompactError::TooLong));
    let raw = vec![Some("x".repeat(255))];
    assert!(compact(&raw).is_ok());
}

#[test]
fn compact_rejects_oversized_pool() {
    let raw: Vec<Option<String>> =
        (0..300).map(|i| Some(format!("<{:04}>", i).repeat(42) + "xyz")).collect();
    assert_eq!(compact(&raw).err(), Some(CompactError::PoolTooLarge));
}

#[test]
fn compact_reuses_substrings() {
    let raw = vec![
        Some("abcdef".to_string()),
        Some("bcd".to_string()),
        Some("def".to_string()),
        Some("cde".to_string()),
        None,
        Some("".to_string()),
        Some("zz".to_string()),
    ];
    let t = compact(&raw).unwrap();
    assert_eq!(t.mapping_text(), "abcdef");
    assert_eq!(deunicode_char(&t, '\u{1}'), Some("bcd"));
    assert_eq!(deunicode_char(&t, '\u{2}'), Some("def"));
    assert_eq!(deunicode_char(&t, '\u{3}'), Some("cde"));
    assert_eq!(deunicode_char(&t, '\u{4}'), None);
    assert_eq!(deunicode_char(&t, '\u{5}'), Some(""));
    assert_eq!(deunicode_char(&t, '\u{6}'), Some("zz"));
    assert_eq!(deunicode_char(&t, '\u{7}'), None);
    assert_eq!(t.pointer_bytes()[12..15], [0xFF, 0xFF, 3]);
}

#[test]
fn more_frequent_text_is_placed_first() {
    let raw = vec![
        Some("xyz".to_string()),
        Some("abc".to_string()),
        Some("abc".to_string()),
        Some("abc".to_string()),
        Some("abc".to_string()),
    ];
    let t = compact(&raw).unwrap();
    assert_eq!(t.mapping_text(), "abcxyz");
}

#[test]
fn table_from_parts_checks_its_input() {
    assert_eq!(
        Table::from_parts(vec![0, 0], String::new()).err(),
        Some(TableError::PartialRecord)
    );
    assert_eq!(
        Table::from_parts(vec![200, 0, 1], String::new()).err(),
        Some(TableError::InlineNotAscii)
    );
    assert_eq!(
        Table::from_parts(vec![b'a', 200, 2], String::new()).err(),
        Some(TableError::InlineNotAscii)
    );
    assert_eq!(
        Table::from_parts(vec![0, 0, 3], "é".to_string()).err(),
        Some(TableError::PoolNotAscii)
    );
    assert_eq!(
        Table::from_parts(vec![0, 0, 3], "a".repeat(0xFFFF)).err(),
        Some(TableError::PoolTooLarge)
    );
    let t = Table::from_parts(vec![b'a', 200, 1, 1, 0, 3, 0xFF, 0xFF, 3, 2, 0, 9], "xabcd".to_string())
        .unwrap();
    assert_eq!(deunicode_char(&t, '\u{0}'), Some("a"));
    assert_eq!(deunicode_char(&t, '\u{1}'), Some("abc"));
    assert_eq!(deunicode_char(&t, '\u{2}'), None);
    assert_eq!(deunicode_char(&t, '\u{3}'), None);
    assert_eq!(deunicode_char(&t, '\u{4}'), None);
}

#[test]
fn emoji_names_become_replacements() {
    assert_eq!(emojiname("unicorn_face"), "unicorn face ");
    assert_eq!(emojiname("ok"), "ok ");
    assert_eq!(emojiname(""), " ");
}

#[test]
fn names_merge_into_curated_entries() {
    let base = vec![
        "a".to_string(),
        "[?]".to_string(),
        "[?] ".to_string(),
        "".to_string(),
        "long name ".to_string(),
    ];
    let names = vec![
        (1, "one ".to_string()),
        (3, "three ".to_string()),
        (4, "short ".to_string()),
        (4, "much longer name ".to_string()),
        (7, "seven ".to_string()),
    ];
    let raw = merge_names(&base, &names);
    assert_eq!(
        raw,
        vec![
            Some("a".to_string()),
            Some("one ".to_string()),
            None,
            Some("three ".to_string()),
            Some("short ".to_string()),
            Some("".to_string()),
            Some("".to_string()),
            Some("seven ".to_string()),
        ]
    );
}

#[test]
fn hex_codepoints_are_read() {
    assert_eq!(parse_codepoint_hex("1F984"), Some(0x1F984));
    assert_eq!(parse_codepoint_hex("2623"), Some(0x2623));
    assert_eq!(parse_codepoint_hex("00a9"), Some(0xA9));
    assert_eq!(parse_codepoint_hex("10FFFF"), Some(0x10FFFF));
    assert_eq!(parse_codepoint_hex("110000"), None);
    assert_eq!(parse_codepoint_hex("FFFFFFFFFFFFFFFFFFFF"), None);
    assert_eq!(parse_codepoint_hex("1F1E6-1F1E8"), None);
    assert_eq!(parse_codepoint_hex(""), None);
    assert_eq!(parse_codepoint_hex("g"), None);
}

#[test]
fn single_characters_give_codepoints() {
    assert_eq!(single_codepoint("☣"), Some(0x2623));
    assert_eq!(single_codepoint("a"), Some(0x61));
    assert_eq!(single_codepoint(""), None);
    assert_eq!(single_codepoint("👍🏽"), None);
}

#[test]
fn colons_are_trimmed() {
    assert_eq!(trim_colons(":smile:"), "smile");
    assert_eq!(trim_colons("::a:b::"), "a:b");
    assert_eq!(trim_colons(":::"), "");
    assert_eq!(trim_colons("plain"), "plain");
    assert_eq!(trim_colons(""), "");
}

#[test]
fn shorter_emoji_name_wins() {
    assert_eq!(
        named_emoji("🦄", "unicorn face", ":unicorn:"),
        Some((0x1F984, "unicorn ".to_string()))
    );
    assert_eq!(
        named_emoji("☣", "biohazard", ":biohazard_sign:"),
        Some((0x2623, "biohazard ".to_string()))
    );
    assert_eq!(named_emoji("☣", "", ":bio_hazard:"), Some((0x2623, " ".to_string())));
    assert_eq!(named_emoji("☣", "bio hazard sign", ":bio_hazard:"), Some((0x2623, "bio hazard ".to_string())));
    assert_eq!(named_emoji("☣", "", ""), None);
    assert_eq!(named_emoji("🇦🇨", "flag", ""), None);
}

#[test]
fn equal_candidates_order_by_text() {
    let raw = vec![Some("xyz".to_string()), Some("abc".to_string())];
    let t = compact(&raw).unwrap();
    assert_eq!(t.mapping_text(), "abcxyz");
    let raw = vec![Some("abc".to_string()), Some("abcd".to_string())];
    let t = compact(&raw).unwrap();
    assert_eq!(t.mapping_text(), "abcd");
}
