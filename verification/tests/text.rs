use inventory_core::unix::{components_of, extended, file_name_of, joined_path, normalize_path_key, parent_of};
use inventory_core::windows;
use inventory_core::text::{
    chars, decimal_of, decimal_of_signed, is_lex_less, is_white_space, lowered, replaced, string, trimmed,
    words_of, Class,
};

#[test]
fn white_space_is_what_std_calls_white_space() {
    for u in 0..=0x10ffffu32 {
        if let Some(c) = char::from_u32(u) {
            assert_eq!(is_white_space(c), c.is_whitespace(), "{u:#x}");
        }
    }
}

#[test]
fn word_characters_are_what_std_calls_alphanumeric() {
    for u in 0..=0x10ffffu32 {
        if let Some(c) = char::from_u32(u) {
            assert_eq!(Class::NonWord.contains(c), !c.is_alphanumeric() && c != '_', "{u:#x}");
        }
    }
}

#[test]
fn text_survives_being_taken_apart() {
    for s in ["", "plain", "naïve — 日本 🦀", "a\u{0}b\r\n"] {
        assert_eq!(string(&chars(s)), s);
        assert_eq!(string(trimmed(&chars(s), Class::White)), s.trim());
        let expected: Vec<String> = s.split_whitespace().map(|w| w.to_string()).collect();
        let text = chars(s);
        let found: Vec<String> = words_of(&text, Class::White).into_iter().map(string).collect();
        assert_eq!(found, expected);
        assert_eq!(string(&lowered(&chars(s))), s.to_ascii_lowercase());
        assert_eq!(string(&replaced(&chars(s), '\n', ' ')), s.replace('\n', " "));
    }
    assert!(is_lex_less(&chars("a"), &chars("ab")));
    assert!(!is_lex_less(&chars("b"), &chars("ab")));
    assert_eq!("a" < "é", is_lex_less(&chars("a"), &chars("é")));
}

#[test]
fn numbers_are_written_as_std_writes_them() {
    for n in [0u64, 7, 10, 12345, u64::MAX] {
        assert_eq!(string(&decimal_of(n)), n.to_string());
    }
    for n in [0i64, -1, 42, i64::MAX, i64::MIN] {
        assert_eq!(string(&decimal_of_signed(n)), n.to_string());
    }
}

const PATHS: [&str; 22] = [
    "", "/", "//", "a", "a/", "a//", "/a", "/a/", "a/b", "a//b", "/a/b/", "./a", "a/.", "a/./b", ".", "..", "a/..",
    "/..", "a.b/c", "a/b.tar.gz", ".hidden", "a/.x.y",
];

#[test]
fn paths_are_taken_apart_as_std_does_it() {
    for p in PATHS {
        let path = std::path::Path::new(p);
        let text = chars(p);
        let parent = parent_of(&text).map(string);
        assert_eq!(parent.as_deref(), path.parent().and_then(|x| x.to_str()), "parent of {p:?}");
        let name = file_name_of(&text).map(string);
        assert_eq!(name.as_deref(), path.file_name().and_then(|x| x.to_str()), "name of {p:?}");
        let parts: Vec<String> = components_of(&text).into_iter().map(string).collect();
        let expected: Vec<String> =
            path.components().map(|c| c.as_os_str().to_str().unwrap().to_string()).collect();
        assert_eq!(parts, expected, "components of {p:?}");
        let other = string(&extended(&text, &chars("sealing")));
        assert_eq!(other, path.with_extension("sealing").to_str().unwrap(), "extension of {p:?}");
        for q in PATHS {
            let both = string(&joined_path(&text, &chars(q)));
            assert_eq!(both, path.join(q).to_str().unwrap(), "{p:?} with {q:?}");
        }
    }
}

#[test]
fn path_keys_are_settled() {
    let key = |p: &str| string(&normalize_path_key(&chars(p)));
    assert_eq!(key("/home/./dev//x/../api/"), "/home/dev/api");
    assert_eq!(key("a\\b"), "a/b");
    assert_eq!(key("../a"), "a");
    assert_eq!(key("/"), "");
    assert_eq!(key("/.."), "");
}

fn windows_parts(p: &str) -> Vec<String> {
    windows::components_of(&chars(p)).iter().map(|c| string(c)).collect()
}

#[test]
fn windows_paths_are_absolute_with_lead_and_root() {
    for p in [r"c:\windows", "C:/x", r"\\server\share", r"\\server\share\a", r"\\?\C:", r"\\.\NUL", r"\\?\x"] {
        assert!(windows::is_absolute(&chars(p)), "{p}");
    }
    for p in ["", r"c:temp", r"\temp", "/temp", "temp", "C:", r"\\server", r"\\", "1:\\x"] {
        assert!(!windows::is_absolute(&chars(p)), "{p}");
    }
}

#[test]
fn windows_paths_are_taken_apart() {
    assert_eq!(windows_parts(r"C:\a/b\\.\..\c"), vec!["C:", "\\", "a", "b", "..", "c"]);
    assert_eq!(windows_parts("C:a"), vec!["C:", "a"]);
    assert_eq!(windows_parts(r"C:.\a"), vec!["C:", "a"]);
    assert_eq!(windows_parts(r".\a\."), vec![".", "a"]);
    assert_eq!(windows_parts(r"\\server\share"), vec![r"\\server\share", "\\"]);
    assert_eq!(windows_parts("//server/share/a"), vec!["//server/share", "\\", "a"]);
    assert_eq!(windows_parts(r"\\?\C:\a/b\."), vec![r"\\?\C:", "\\", "a/b", "."]);
    assert_eq!(windows_parts(r"\\?\UNC\server\share\x"), vec![r"\\?\UNC\server\share", "\\", "x"]);
    assert_eq!(windows_parts(r"\\server"), vec!["\\", "server"]);
    assert_eq!(windows_parts(""), Vec::<String>::new());
    let parents = [
        (r"C:\a\b", Some(r"C:\a")),
        (r"C:\a", Some(r"C:\")),
        (r"C:\", None),
        ("C:a", Some("C:")),
        ("C:", None),
        (r"\\s\sh\a", Some(r"\\s\sh\")),
        (r"\\s\sh", None),
        (r"a\b/", Some("a")),
        (r"a/./b\.\", Some("a")),
        (".", Some("")),
        (r".\a", Some(".")),
        (r"\a", Some(r"\")),
        ("", None),
    ];
    for (p, parent) in parents {
        assert_eq!(windows::parent_of(&chars(p)).map(string).as_deref(), parent, "{p}");
    }
    let names = [
        (r"C:\a\b.rs", Some("b.rs")),
        ("C:b.rs", Some("b.rs")),
        (r"C:\", None),
        (r"a\..", None),
        (r"a/b\", Some("b")),
        (r"\\s\sh", None),
    ];
    for (p, name) in names {
        assert_eq!(windows::file_name_of(&chars(p)).map(string).as_deref(), name, "{p}");
    }
}

#[test]
fn windows_paths_are_put_together() {
    let joins = [
        ("C:", "foo", "C:foo"),
        (r"C:\a", r"\b", r"C:\b"),
        (r"C:\a", "/b", "C:/b"),
        (r"C:\a", "D:x", "D:x"),
        ("a", "b", r"a\b"),
        ("a/", "b", "a/b"),
        ("", "b", "b"),
        ("a", "", r"a\"),
        (r"\\s\sh", "x", r"\\s\sh\x"),
        (r"\\?\C:\a\b", r"..\c/.\d", r"\\?\C:\a\c\d"),
        (r"\\?\C:\a", r"\b", r"\\?\C:\b"),
        (r"\\?\C:\a", r"..\..", r"\\?\C:\"),
    ];
    for (a, b, both) in joins {
        assert_eq!(string(&windows::joined_path(&chars(a), &chars(b))), both, "{a} {b}");
    }
    let keys = [
        (r"C:\repo\.\src\..\x", "C:/repo/x"),
        ("c:/Repo/", "c:/Repo"),
        (r"C:\..\x", "C:/x"),
        (r"\\server\share\a\..", "//server/share"),
        (r"..\a", "a"),
        (r"C:a\..\..\b", "C:b"),
        (r"\\?\C:\a\..\b", "//?/C:/b"),
    ];
    for (p, key) in keys {
        assert_eq!(string(&windows::normalize_path_key(&chars(p))), key, "{p}");
    }
    let below = [
        (r"C:\repo\src\x.rs", r"C:\repo", Some("src/x.rs")),
        ("c:/repo//src/x.rs", r"C:\repo\", Some("src/x.rs")),
        (r"C:\repos\x.rs", r"C:\repo", None),
        (r"\\s\sh\x", "//s/sh", Some("x")),
        (r"\\?\C:\repo\x", r"C:\repo", None),
        (r"C:\repo\..\x", r"C:\repo", None),
        (r"C:\repo\a\..\x", r"C:\repo", Some("x")),
    ];
    for (p, base, key) in below {
        let found = windows::inside_key(&chars(p), &chars(base)).map(|k| string(&k));
        assert_eq!(found.as_deref(), key, "{p} below {base}");
    }
    let extensions = [(r"C:\da.ta\inv", r"C:\da.ta\inv.s"), (r"C:\a.db\", r"C:\a.s"), (r"C:\", r"C:\"), ("C:x.y", "C:x.s")];
    for (p, other) in extensions {
        assert_eq!(string(&windows::extended(&chars(p), &chars("s"))), other, "{p}");
    }
}
