use dedupe::file_record::FileRecord;
use dedupe::lex::bytes_before;
use dedupe::number::parse_i64;
use dedupe::path::{FilePath, PathComponent};
use dedupe::report::{confirms, total_size};
use dedupe::text::{characters, white_space};
use std::path::{Component, Path};

fn file_path(id: usize, text: &str) -> FilePath {
    let components = Path::new(text)
        .components()
        .map(|c| match c {
            Component::Prefix(p) => {
                PathComponent::Prefix(p.as_os_str().as_encoded_bytes().to_vec())
            }
            Component::RootDir => PathComponent::RootDir,
            Component::CurDir => PathComponent::CurDir,
            Component::ParentDir => PathComponent::ParentDir,
            Component::Normal(n) => PathComponent::Normal(n.as_encoded_bytes().to_vec()),
        })
        .collect();
    FilePath {
        id,
        name: text.to_string(),
        unicode: true,
        components,
    }
}

const PATHS: [&str; 16] = [
    "", "/", "/a", "/a/b", "/a-c", "/a/bc", "/ab", "a", "a/b", "./a", "../a", "/a/../b", "/b",
    "/a/b/c", "/A/b", "/\u{e9}",
];

#[test]
fn paths_are_ordered_component_by_component() {
    for a in PATHS {
        for b in PATHS {
            assert_eq!(
                file_path(0, a).before(&file_path(1, b)),
                Path::new(a) < Path::new(b),
                "{:?} {:?}",
                a,
                b
            );
        }
    }
    assert!(file_path(0, "/a/b").before(&file_path(1, "/a-c")));
    assert!(!file_path(0, "/a-c").before(&file_path(1, "/a/b")));
}

#[test]
fn a_path_starts_with_whole_components() {
    for a in PATHS {
        for b in PATHS {
            assert_eq!(
                file_path(0, a).starts_with(&file_path(1, b)),
                Path::new(a).starts_with(b),
                "{:?} {:?}",
                a,
                b
            );
        }
    }
    assert!(file_path(0, "/a/b/c").starts_with(&file_path(1, "/a/b")));
    assert!(!file_path(0, "/a/bc").starts_with(&file_path(1, "/a/b")));
}

#[test]
fn a_copy_of_a_path_is_equal() {
    for a in PATHS {
        let path = file_path(7, a);
        let copy = path.clone();
        assert_eq!(copy, path);
        assert_eq!((copy.id, copy.unicode), (7, true));
        assert_eq!(copy.name, path.name);
        assert_eq!(copy.components, path.components);
    }
}

#[test]
fn bytes_compare_lexicographically() {
    let texts: [&[u8]; 6] = [b"", b"a", b"ab", b"b", b"a\xff", b"\x00"];
    for a in texts {
        for b in texts {
            assert_eq!(bytes_before(a, b), a < b);
        }
    }
}

#[test]
fn numbers_are_read_in_decimal() {
    let texts = [
        "", "0", "10", "-10", "+10", "+", "-", "+-1", "1+", " 1", "1 ", "007", "1_000", "0x10",
        "9223372036854775807", "9223372036854775808", "-9223372036854775808",
        "-9223372036854775809", "00000000000000000000000000000001",
        "99999999999999999999999999999999", "-0", "\u{661}",
    ];
    for text in texts {
        assert_eq!(parse_i64(&characters(text)), text.parse::<i64>().ok(), "{:?}", text);
    }
    assert_eq!(parse_i64(&['-', '4', '2']), Some(-42));
}

#[test]
fn characters_are_those_of_the_text() {
    assert_eq!(characters("a\u{e9}="), vec!['a', '\u{e9}', '=']);
    assert_eq!(characters(""), Vec::<char>::new());
}

#[test]
fn white_space_is_that_of_unicode() {
    for code in 0..=0x10ffffu32 {
        if let Some(c) = char::from_u32(code) {
            assert_eq!(white_space(c), c.is_whitespace(), "{:x}", code);
        }
    }
}

#[test]
fn only_the_letter_y_confirms() {
    for response in [
        "y", "Y", "y\n", " Y \r\n", "\u{3000}y", "", "\n", "n", "yes", "yy", "y y", "Y.", "\u{fd}",
    ] {
        assert_eq!(
            confirms(response),
            response.trim().to_lowercase() == "y",
            "{:?}",
            response
        );
    }
    assert!(confirms(" Y\n"));
    assert!(!confirms("yes\n"));
}

#[test]
fn no_other_letter_is_small_y() {
    for code in 0..=0x10ffffu32 {
        if let Some(c) = char::from_u32(code) {
            let text = c.to_string();
            assert_eq!(confirms(&text), text.trim().to_lowercase() == "y", "{:x}", code);
        }
    }
}

#[test]
fn sizes_add_up() {
    let file = |size: i64| FileRecord {
        path: file_path(0, "/a"),
        size,
        hash: None,
        hash_4096: None,
    };
    assert_eq!(total_size(&vec![]), 0);
    assert_eq!(total_size(&vec![file(3), file(4), file(-1)]), 6);
    assert_eq!(
        total_size(&vec![file(i64::MAX), file(i64::MAX)]),
        2 * (i64::MAX as i128)
    );
}

#[test]
fn the_name_of_a_record_is_the_shown_path() {
    let file = FileRecord {
        path: file_path(3, "/a/b.txt"),
        size: 1,
        hash: Some("h".to_string()),
        hash_4096: None,
    };
    assert_eq!(file.path_name(), "/a/b.txt");
    assert_eq!(file.clone(), file);
}

#[test]
fn paths_are_equal_where_their_components_are() {
    for (i, a) in PATHS.iter().enumerate() {
        for (j, b) in PATHS.iter().enumerate() {
            assert_eq!(
                file_path(i, a) == file_path(j, b),
                Path::new(a) == Path::new(b),
                "{:?} {:?}",
                a,
                b
            );
        }
    }
    assert_eq!(file_path(0, "/a//b"), file_path(1, "/a/b"));
    assert_eq!(file_path(0, "/a/b/"), file_path(1, "/a/./b"));
    assert_ne!(file_path(0, "/a/b"), file_path(0, "/a/b/c"));
}

#[test]
fn records_are_equal_where_they_say_the_same_of_one_path() {
    let record = |id, text: &str, size, hash: Option<&str>, hash_4096: Option<&str>| FileRecord {
        path: file_path(id, text),
        size,
        hash: hash.map(|h| h.to_string()),
        hash_4096: hash_4096.map(|h| h.to_string()),
    };
    let file = record(0, "/a/b", 5, Some("h"), None);
    assert_eq!(file, record(9, "/a//b", 5, Some("h"), None));
    assert_ne!(file, record(0, "/a/c", 5, Some("h"), None));
    assert_ne!(file, record(0, "/a/b", 6, Some("h"), None));
    assert_ne!(file, record(0, "/a/b", 5, Some("i"), None));
    assert_ne!(file, record(0, "/a/b", 5, None, None));
    assert_ne!(file, record(0, "/a/b", 5, Some("h"), Some("h")));
}
