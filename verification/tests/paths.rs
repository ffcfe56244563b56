use rift_core::path::FsPath;
use rift_core::text::{contains_line, starts_with, trim};

const PATHS: [&str; 40] = [
    "", "/", "//", "///", ".", "..", "./", "../", "/.", "/..", "a", "a/", "a//", "/a", "/a/", "//a",
    "a/b", "a//b", "a/./b", "a/../b", "./a", "./a/b", "../a", "a/.", "a/..", "/a/b/c", "/a/b/c/",
    "a.b", "a.b.c", ".a", ".a.b", "a.", "/x/.git", "/x/a.tmp", "x/..a", "x/a..", "...", "/...", " ",
    "é/ü.ö",
];

const NAMES: [&str; 10] = ["", "/", "x", "x/y", "/x", "x/", ".", "..", "a.b", "é"];

fn same(mine: &FsPath, other: &std::path::Path) -> bool {
    mine.to_text().unwrap() == other.to_str().unwrap()
}

#[test]
fn joining_is_that_of_std() {
    for base in PATHS {
        for name in NAMES {
            let mine = FsPath::from_text(base).join(name);
            assert!(same(&mine, &std::path::Path::new(base).join(name)), "{base:?} {name:?}");
        }
    }
}

#[test]
fn parents_and_names_are_those_of_std() {
    for text in PATHS {
        let mine = FsPath::from_text(text);
        let other = std::path::Path::new(text);
        match (mine.parent(), other.parent()) {
            (None, None) => {}
            (Some(mine), Some(other)) => assert!(same(&mine, other), "{text:?}"),
            _ => panic!("{text:?}"),
        }
        assert_eq!(
            mine.file_name(),
            other.file_name().map(|name| name.to_str().unwrap().as_bytes().to_vec()),
            "{text:?}"
        );
        for name in NAMES {
            assert_eq!(
                mine.is_named(name),
                other.file_name().and_then(|found| found.to_str()) == Some(name)
            );
        }
    }
}

#[test]
fn extensions_are_those_of_std() {
    for text in PATHS {
        for extension in ["tmp", "rift-restore-tmp", "a.b"] {
            let mine = FsPath::from_text(text).with_extension(extension);
            let mut other = std::path::PathBuf::from(text);
            other.set_extension(extension);
            assert!(same(&mine, &other), "{text:?}");
        }
    }
}

#[test]
fn comparison_is_that_of_std() {
    for a in PATHS {
        for b in PATHS {
            let (left, right) = (FsPath::from_text(a), FsPath::from_text(b));
            assert_eq!(left.same_place(&right), std::path::Path::new(a) == std::path::Path::new(b), "{a:?} {b:?}");
            assert_eq!(left == right, left.same_place(&right));
        }
    }
}

#[test]
fn climbing_is_that_of_std() {
    for text in PATHS {
        let climbs =
            std::path::Path::new(text).components().any(|part| matches!(part, std::path::Component::ParentDir));
        assert_eq!(FsPath::from_text(text).climbs(), climbs, "{text:?}");
    }
}

#[test]
fn names_are_appended_and_taken_away_again() {
    let base = FsPath::from_text("/a//b/");
    let longer = base.join("name");
    assert_eq!(longer.file_name(), Some(b"name".to_vec()));
    assert!(longer.parent().unwrap().same_place(&base));
    assert!(!longer.climbs());
    assert!(longer.with_extension("tmp").parent().unwrap().same_place(&base));
}

#[test]
fn bytes_that_are_no_text_are_kept_and_shown() {
    let odd = FsPath::from_bytes(vec![0x2f, 0x61, 0xff, 0xfe, 0x62]);
    assert_eq!(odd.to_text(), None);
    assert_eq!(odd.display(), "/a\u{fffd}\u{fffd}b");
    assert_eq!(odd.to_bytes(), vec![0x2f, 0x61, 0xff, 0xfe, 0x62]);
    assert_eq!(odd.join_bytes(&vec![0xff]).file_name(), Some(vec![0xff]));
    let plain = FsPath::from_text("/ä");
    assert_eq!(plain.to_text(), Some("/ä".to_owned()));
    assert_eq!(plain.display(), "/ä");
    assert_eq!(plain.clone().to_bytes(), "/ä".as_bytes().to_vec());
}

#[test]
fn trimming_is_that_of_std() {
    for code in 0..0x3100u32 {
        if let Some(c) = char::from_u32(code) {
            let text = format!("{c}a{c}b{c}");
            assert_eq!(trim(&text), text.trim(), "{code:x}");
        }
    }
    for text in ["", " ", "\n\t ", "a", " a", "a ", "\u{feff}a", "\u{200b}"] {
        assert_eq!(trim(text), text.trim());
    }
}

#[test]
fn lines_are_those_of_std() {
    let texts = ["", "\n", "x", "x\n", "a\nx", "a\r\nx\r\n", " x ", "a x", "\nx\n", "xx", "a\n\n x", "x\ry"];
    for text in texts {
        assert_eq!(
            contains_line(text, "x"),
            text.lines().any(|line| line.trim() == "x"),
            "{text:?}"
        );
    }
}

#[test]
fn prefixes_are_those_of_std() {
    for text in ["", "r", "ref:", "ref: ", "ref: x", " ref: ", "éf"] {
        for prefix in ["", "ref: ", "é", "r"] {
            assert_eq!(starts_with(text, prefix), text.starts_with(prefix));
        }
    }
    assert_eq!(rift_core::text::concat("a", "é"), "aé");
}
