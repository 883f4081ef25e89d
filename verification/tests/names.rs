use filenamefix::names::stem_len;
use filenamefix::text::chars_of;
use filenamefix::{
    ext_name, number_name, number_name_at, replace_extension, space_name, NumberError,
};
use regex::Regex;

/// The number rule written as a regular expression.
fn number_by_pattern(name: &str, width: usize) -> Option<String> {
    let re = Regex::new(r"^([0-9]+)\W*(.+)$").unwrap();
    let caps = re.captures(name)?;
    let prefix = caps.get(1).map_or("", |m| m.as_str());
    let suffix = caps.get(2).map_or("", |m| m.as_str());
    let number: i32 = prefix.parse().ok()?;
    Some(format!("{}.{}", format!("{:0w$}", number, w = width), suffix))
}

/// The split into stem and extension written as a regular expression.
fn split_by_pattern(name: &str) -> (String, String) {
    let re = Regex::new(r"(.+?)(\.[^.]*$|$)").unwrap();
    let caps = re.captures(name).unwrap();
    (
        caps.get(1).map_or("", |m| m.as_str()).to_string(),
        caps.get(2).map_or("", |m| m.as_str()).to_string(),
    )
}

/// The last dot of `name` and what follows it.
fn extension(name: &str) -> &str {
    name.rfind('.').map_or("", |at| &name[at..])
}

fn ok(s: &str) -> Result<String, NumberError> {
    Ok(s.to_string())
}

#[test]
fn number_pads_a_short_number() {
    assert_eq!(number_name("7-report.txt", 2), ok("07.report.txt"));
}

#[test]
fn number_keeps_a_long_number() {
    assert_eq!(number_name("123-notes", 2), ok("123.notes"));
}

#[test]
fn number_pads_to_the_width_given() {
    assert_eq!(number_name("7a", 0), ok("7.a"));
    assert_eq!(number_name("7a", 1), ok("7.a"));
    assert_eq!(number_name("7a", 4), ok("0007.a"));
    assert_eq!(number_name("12345 x", 5), ok("12345.x"));
    assert_eq!(number_name("12345 x", 6), ok("012345.x"));
    assert_eq!(number_name("0 x", 3), ok("000.x"));
}

#[test]
fn number_drops_zeros_that_the_width_does_not_ask_for() {
    assert_eq!(number_name("001.txt", 2), ok("01.txt"));
    assert_eq!(number_name("000000000000000000000000000007 x", 2), ok("07.x"));
    assert_eq!(number_name("000-a", 2), ok("00.a"));
}

#[test]
fn number_skips_one_run_of_separators() {
    assert_eq!(number_name("7 - b", 2), ok("07.b"));
    assert_eq!(number_name("7...b", 2), ok("07.b"));
    assert_eq!(number_name("3.14.txt", 2), ok("03.14.txt"));
    assert_eq!(number_name("1 \u{2013} x", 2), ok("01.x"));
    assert_eq!(number_name("7\na", 2), ok("07.a"));
}

#[test]
fn number_takes_word_characters_for_the_remainder() {
    assert_eq!(number_name("7_b", 2), ok("07._b"));
    assert_eq!(number_name("7b", 2), ok("07.b"));
    assert_eq!(number_name("1\u{e9}", 2), ok("01.\u{e9}"));
    assert_eq!(number_name("1\u{663}", 2), ok("01.\u{663}"));
}

#[test]
fn number_leaves_one_character_for_the_remainder() {
    assert_eq!(number_name("42", 2), ok("04.2"));
    assert_eq!(number_name("1234", 2), ok("123.4"));
    assert_eq!(number_name("7-", 2), ok("07.-"));
    assert_eq!(number_name("7 . ", 2), ok("07. "));
}

#[test]
fn number_refuses_what_the_pattern_does_not_match() {
    assert_eq!(number_name("7", 2), Err(NumberError::PatternMismatch));
    assert_eq!(number_name("", 2), Err(NumberError::PatternMismatch));
    assert_eq!(number_name("abc", 2), Err(NumberError::PatternMismatch));
    assert_eq!(number_name("-7a", 2), Err(NumberError::PatternMismatch));
    assert_eq!(number_name("\u{663}a", 2), Err(NumberError::PatternMismatch));
    assert_eq!(number_name("7a\nb", 2), Err(NumberError::PatternMismatch));
    assert_eq!(number_name("7a\n", 2), Err(NumberError::PatternMismatch));
    assert_eq!(number_name("7\n", 2), Err(NumberError::PatternMismatch));
}

#[test]
fn number_refuses_a_number_above_the_limit() {
    assert_eq!(number_name("2147483647a", 2), ok("2147483647.a"));
    assert_eq!(number_name("2147483648a", 2), Err(NumberError::NumberTooLarge));
    assert_eq!(number_name("99999999999-x", 2), Err(NumberError::NumberTooLarge));
    assert_eq!(
        number_name("123456789012345678901234567890.txt", 2),
        Err(NumberError::NumberTooLarge)
    );
    assert_eq!(number_name("21474836470", 2), ok("2147483647.0"));
    assert_eq!(number_name("21474836480", 2), Err(NumberError::NumberTooLarge));
}

#[test]
fn number_mismatch_comes_before_too_large() {
    assert_eq!(number_name("99999999999a\n", 2), Err(NumberError::PatternMismatch));
}

#[test]
fn number_agrees_with_the_pattern() {
    let names = [
        "7-report.txt", "123-notes", "42", "7", "", "abc", "7-", "7 - b", "7_b", "001.txt",
        "2147483647a", "2147483648a", "7a\nb", "7\na", "7a\n", "1\u{e9}", "3.14.txt", "9 ", "9  ",
        "10", "100", "1-2-3", "5\u{3000}x", "5\u{200d}x", "5\u{301}x", "5\u{2040}x", "5\u{b2}x",
        "5\u{bd}", "8 \t\r\n x", "8\n\nx", "0", "00", "0a", "1.", "1..", "1.a.", "12 34 56",
        "6\u{2028}y", "6\u{1F600}", "6\u{1F600}z", "77\u{663}", "\u{663}x",
    ];
    for name in names {
        for width in [0usize, 1, 2, 3, 10] {
            assert_eq!(
                number_name(name, width).ok(),
                number_by_pattern(name, width),
                "name {:?}, width {}",
                name,
                width
            );
        }
    }
}

#[test]
fn number_at_takes_the_end_of_the_separators_as_given() {
    assert_eq!(number_name_at("7-r", 2, 2), ok("07.r"));
    assert_eq!(number_name_at("7-r", 1, 2), ok("07.-r"));
    assert_eq!(number_name_at("7-r", 3, 2), ok("07.r"));
    assert_eq!(number_name_at("77", 2, 2), ok("07.7"));
}

#[test]
fn space_joins_the_words_and_keeps_the_extension() {
    assert_eq!(space_name("my cool  file.TXT", "-"), "my-cool-file.TXT");
}

#[test]
fn space_trims_the_stem() {
    assert_eq!(space_name(" a  b .txt", "_"), "a_b.txt");
    assert_eq!(space_name("  .txt", "_"), ".txt");
    assert_eq!(space_name("   ", "_"), "");
}

#[test]
fn space_leaves_the_extension_as_it_is() {
    assert_eq!(space_name("a b.c d", "_"), "a_b.c d");
    assert_eq!(space_name("a b. TXT ", "_"), "a_b. TXT ");
    assert_eq!(space_name("a b.tar.GZ", "_"), "a_b.tar.GZ");
    assert_eq!(space_name("a b.", "_"), "a_b.");
}

#[test]
fn space_without_extension() {
    assert_eq!(space_name("a b", "_"), "a_b");
    assert_eq!(space_name("README", "_"), "README");
    assert_eq!(space_name("", "_"), "");
}

#[test]
fn space_knows_unicode_whitespace() {
    assert_eq!(space_name("a\tb\u{3000}c\u{a0}d.x", "+"), "a+b+c+d.x");
    assert_eq!(space_name("a\u{200b}b.x", "+"), "a\u{200b}b.x");
    assert_eq!(space_name("a\u{85}\u{1680}\u{2000}\u{200a}\u{2028}\u{2029}\u{202f}\u{205f}b", "+"), "a+b");
}

#[test]
fn space_takes_any_divider() {
    assert_eq!(space_name("a b c.txt", ""), "abc.txt");
    assert_eq!(space_name("a b c.txt", " - "), "a - b - c.txt");
    assert_eq!(space_name("a b c.txt", " "), "a b c.txt");
    assert_eq!(space_name("a b", "."), "a.b");
}

#[test]
fn space_agrees_with_split_whitespace() {
    let names = [
        "my cool  file.TXT", " a  b .txt", "a b.c d", "a b", "README", "x  y\tz.tar.gz",
        "a\u{3000}b.x", "trailing .", "a.b c.d e", "one", " lead", "trail ", "a  ..  b",
    ];
    for name in names {
        for divider in ["_", "-", "", " ", "--"] {
            let (stem, extension) = split_by_pattern(name);
            let words: Vec<&str> = stem.trim().split_whitespace().collect();
            let expected = format!("{}{}", words.join(divider), extension);
            assert_eq!(space_name(name, divider), expected, "name {:?}", name);
        }
    }
}

#[test]
fn ext_upper_and_lower() {
    assert_eq!(ext_name("Photo.JPG", true), Some("Photo.JPG".to_string()));
    assert_eq!(ext_name("Photo.JPG", false), Some("Photo.jpg".to_string()));
    assert_eq!(ext_name("x.MiXed", true), Some("x.MIXED".to_string()));
    assert_eq!(ext_name("x.MiXed", false), Some("x.mixed".to_string()));
}

#[test]
fn ext_leaves_a_name_without_extension_alone() {
    assert_eq!(ext_name("README", true), None);
    assert_eq!(ext_name("README", false), None);
    assert_eq!(ext_name("", false), None);
    assert_eq!(ext_name("a b", false), None);
}

#[test]
fn ext_takes_the_last_dot() {
    assert_eq!(ext_name("a.B.C", false), Some("a.B.c".to_string()));
    assert_eq!(ext_name("archive.TAR.GZ", false), Some("archive.TAR.gz".to_string()));
    assert_eq!(ext_name("trailing.", false), Some("trailing.".to_string()));
}

#[test]
fn ext_trims_the_stem() {
    assert_eq!(ext_name(" a .TXT", false), Some("a.txt".to_string()));
    assert_eq!(ext_name("a b .TXT", false), Some("a b.txt".to_string()));
    assert_eq!(ext_name(" .TXT", false), Some(".txt".to_string()));
}

#[test]
fn ext_maps_case_as_unicode_does() {
    assert_eq!(ext_name("s.\u{df}", true), Some("s.SS".to_string()));
    assert_eq!(ext_name("e.\u{c9}t\u{c9}", false), Some("e.\u{e9}t\u{e9}".to_string()));
    assert_eq!(ext_name("e.\u{e9}", true), Some("e.\u{c9}".to_string()));
}

#[test]
fn ext_twice_is_ext_once() {
    let names = [
        "Photo.JPG", "photo.jpg", "a.B.C", " a .TXT", "README", "s.\u{df}", "x.MiXed", "t.",
        "i.\u{130}", "sigma.\u{3a3}\u{3a3}", "n.\u{149}", "a b .T X",
    ];
    for name in names {
        for upper in [true, false] {
            let once = ext_name(name, upper).unwrap_or(name.to_string());
            let twice = ext_name(&once, upper).unwrap_or(once.clone());
            assert_eq!(twice, once, "name {:?}", name);
        }
    }
}

#[test]
fn ext_agrees_with_the_pattern() {
    let names = [
        "Photo.JPG", "a.B.C", " a .TXT", "README", "x.MiXed", "t.", "a b.c d", "a..B", "a. B ",
    ];
    for name in names {
        for upper in [true, false] {
            let (stem, extension) = split_by_pattern(name);
            let expected = if extension.is_empty() {
                None
            } else if upper {
                Some(format!("{}{}", stem.trim(), extension.to_uppercase()))
            } else {
                Some(format!("{}{}", stem.trim(), extension.to_lowercase()))
            };
            assert_eq!(ext_name(name, upper), expected, "name {:?}", name);
        }
    }
}

#[test]
fn replace_extension_puts_the_new_one_behind_the_trimmed_stem() {
    assert_eq!(replace_extension("Photo.JPG", ".jpg"), "Photo.jpg");
    assert_eq!(replace_extension(" a b .x", ".y.z"), "a b.y.z");
    assert_eq!(replace_extension("none", ".y"), "none.y");
    assert_eq!(replace_extension("a.b", ""), "a");
}

#[test]
fn stem_ends_at_the_last_dot() {
    assert_eq!(stem_len(&chars_of("a.b.c")), 3);
    assert_eq!(stem_len(&chars_of("abc")), 3);
    assert_eq!(stem_len(&chars_of(".abc")), 0);
    assert_eq!(stem_len(&chars_of("abc.")), 3);
    assert_eq!(stem_len(&chars_of("")), 0);
    assert_eq!(stem_len(&chars_of("\u{e9}\u{e9}.x")), 2);
}

#[test]
fn number_errors_have_a_message_each() {
    assert_eq!(NumberError::PatternMismatch.message(), "name is not a number followed by more");
    assert_eq!(
        NumberError::NumberTooLarge.message(),
        "number at the start of the name is too large"
    );
}

#[test]
fn space_twice_is_space_once() {
    let names = ["my cool  file.TXT", " a  b .txt", "a b.c d", "a b", "README", "  .txt", "a. b"];
    for name in names {
        for divider in ["_", "-", "", "--"] {
            let once = space_name(name, divider);
            assert_eq!(space_name(&once, divider), once, "name {:?}", name);
        }
    }
}

#[test]
fn space_keeps_the_extension_it_found() {
    let names = ["my cool  file.TXT", " a  b .txt", "a b.c d", "a b", "README", "x y.tar.gz", "a."];
    for name in names {
        for divider in ["_", "-", "", " ", "--"] {
            assert_eq!(extension(&space_name(name, divider)), extension(name), "name {:?}", name);
        }
    }
    for name in ["a b.c", "x.y z.w"] {
        assert_eq!(extension(&space_name(name, ".")), extension(name));
    }
    assert_eq!(extension(&space_name("a b", ".")), ".b");
}
