use rpgrep::glob::glob_match;
use rpgrep::path::{
    component_list, extension, file_name, join, path_order, starts_with, strip_prefix,
};
use std::path::{Component, Path};

const PATHS: [&str; 26] = [
    "", ".", "..", "/", "//", "a", "a/", "a/.", "a/..", "./a", "././a", "/a", "/./a", "//a", "a//b",
    "a/./b", "a/b/", "a/b/.", "../a", ".git", "a.b", "a.", ".a.b", "a.b.c", "x/ñ.é", "a b/c.tar.gz",
];

#[test]
fn components_agree_with_std() {
    for p in PATHS {
        let expected: Vec<String> = Path::new(p)
            .components()
            .map(|c| match c {
                Component::RootDir => "/".to_string(),
                other => other.as_os_str().to_str().unwrap().to_string(),
            })
            .collect();
        assert_eq!(component_list(p), expected, "{p:?}");
    }
}

#[test]
fn names_and_extensions_agree_with_std() {
    for p in PATHS {
        let std_path = Path::new(p);
        assert_eq!(file_name(p).as_deref(), std_path.file_name().map(|s| s.to_str().unwrap()), "{p:?}");
        assert_eq!(extension(p).as_deref(), std_path.extension().map(|s| s.to_str().unwrap()), "{p:?}");
    }
}

#[test]
fn prefixes_agree_with_std() {
    for p in PATHS {
        for base in PATHS {
            let (a, b) = (Path::new(p), Path::new(base));
            assert_eq!(starts_with(p, base), a.starts_with(b), "{p:?} {base:?}");
            let expected = a.strip_prefix(b).map(|r| r.to_str().unwrap()).unwrap_or(p);
            assert_eq!(strip_prefix(p, base), expected, "{p:?} below {base:?}");
        }
    }
}

#[test]
fn joining_agrees_with_std() {
    for p in PATHS {
        for name in ["rpgrep.sock", "/abs", "", "x/y"] {
            assert_eq!(join(p, name), Path::new(p).join(name).to_str().unwrap(), "{p:?} {name:?}");
        }
    }
}

#[test]
fn order_agrees_with_std() {
    let list: Vec<String> = [
        "b", "a/b", "a.b", "ab", "a", "a/", "/z", "./m", "../m", "a/b/c", "a-b/c", "Z", "ñ", "a//b", "",
    ]
    .iter()
    .map(|s| s.to_string())
    .collect();
    let mut expected: Vec<&Path> = list.iter().map(|s| Path::new(s.as_str())).collect();
    expected.sort();
    let sorted: Vec<&str> = path_order(&list).into_iter().map(|i| list[i].as_str()).collect();
    let expected: Vec<&str> = expected.into_iter().map(|p| p.to_str().unwrap()).collect();
    assert_eq!(sorted, expected);
}

#[test]
fn glob_matches_whole_text() {
    let yes = [
        ("SUMMARIES.md", "SUMMARIES.md"),
        ("Cargo.lock", "*.lock"),
        ("gen_code.rs", "gen_*"),
        ("abcabc", "*abc"),
        ("abab", "ab*ab"),
        ("aab", "*ab"),
        ("", ""),
        ("", "*"),
        ("", "***"),
        ("a*b", "a*b"),
        ("src/x/gen.rs", "src/*/gen.rs"),
        ("xaxbxcx", "*a*b*c*"),
        ("añb", "a*b"),
        ("añb", "*ñ*"),
    ];
    let no = [
        ("SUMMARIES.md.bak", "SUMMARIES.md"),
        ("xSUMMARIES.md", "SUMMARIES.md"),
        ("Cargo.lock.x", "*.lock"),
        ("my_gen_x", "gen_*"),
        ("a", "a*a"),
        ("ab", "*abc*"),
        ("abc", ""),
        ("acb", "*a*b*c*"),
        ("abx", "ab*ab"),
        ("aba", "ab*ba"),
    ];
    for (text, pattern) in yes {
        assert!(glob_match(text, pattern), "{text:?} {pattern:?}");
    }
    for (text, pattern) in no {
        assert!(!glob_match(text, pattern), "{text:?} {pattern:?}");
    }
}

fn slow_match(text: &[u8], pattern: &[u8]) -> bool {
    match pattern.first() {
        None => text.is_empty(),
        Some(b'*') => (0..=text.len()).any(|n| slow_match(&text[n..], &pattern[1..])),
        Some(c) => text.first() == Some(c) && slow_match(&text[1..], &pattern[1..]),
    }
}

#[test]
fn glob_agrees_with_exhaustive_search() {
    let letters = [b'a', b'b', b'*'];
    let words = |n: usize, base: usize| -> Vec<Vec<u8>> {
        let mut all = vec![vec![]];
        let mut last = vec![vec![]];
        for _ in 0..n {
            let mut next = vec![];
            for w in &last {
                for c in &letters[..base] {
                    let mut v: Vec<u8> = w.clone();
                    v.push(*c);
                    next.push(v);
                }
            }
            all.extend(next.clone());
            last = next;
        }
        all
    };
    for text in words(5, 2) {
        for pattern in words(4, 3) {
            let t = String::from_utf8(text.clone()).unwrap();
            let p = String::from_utf8(pattern.clone()).unwrap();
            assert_eq!(glob_match(&t, &p), slow_match(&text, &pattern), "{t:?} {p:?}");
        }
    }
}
