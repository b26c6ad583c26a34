use rpgrep::chunk::{chunk_file, chunk_file_ast, chunk_id, chunk_lines, chunk_nodes, Chunk};
use rpgrep::syntax::{parse, Language, SyntaxNode, LONGEST_PARSED};
use std::collections::hash_map::DefaultHasher;
use std::hash::{Hash, Hasher};
use std::path::Path;

fn std_chunk_id(path: &str, start: usize) -> u64 {
    let mut h = DefaultHasher::new();
    Path::new(path).hash(&mut h);
    start.hash(&mut h);
    h.finish()
}

#[test]
fn chunks_overlap_correctly() {
    let body: String = (1..=100).map(|i| format!("line {i}\n")).collect();
    let chunks = chunk_file("/tmp/sample.txt", &body, 20, 5);
    assert!(!chunks.is_empty());
    assert!(chunks.len() >= 6);
    assert_eq!(chunks[0].start_line, 1);
    // A stride of 15: each chunk shares its last five lines with the next.
    let starts: Vec<usize> = chunks.iter().map(|c| c.start_line).collect();
    assert_eq!(starts, vec![1, 16, 31, 46, 61, 76, 91]);
    let ends: Vec<usize> = chunks.iter().map(|c| c.end_line).collect();
    assert_eq!(ends, vec![20, 35, 50, 65, 80, 95, 100]);
}

#[test]
fn ast_rust_extracts_top_level_items_intact() {
    let body = r#"
fn alpha(x: u32) -> u32 {
    x + 1
}

struct Beta {
    name: String,
    age: u8,
}

impl Beta {
    fn greet(&self) -> String {
        format!("hi {}", self.name)
    }
}

fn gamma() {
    println!("done");
}
"#;
    let chunks = chunk_file("/tmp/sample.rs", body, 40, 8);
    assert_eq!(chunks.len(), 4, "expected 4 chunks, got {chunks:?}");

    assert!(chunks[0].text.contains("fn alpha"));
    assert!(chunks[0].text.contains("x + 1"));
    assert!(chunks[1].text.contains("struct Beta"));
    assert!(chunks[1].text.contains("age: u8"));
    assert!(chunks[2].text.contains("impl Beta"));
    assert!(chunks[2].text.contains("greet"));
    assert!(chunks[3].text.contains("fn gamma"));

    for w in chunks.windows(2) {
        assert!(w[0].start_line < w[1].start_line, "chunks out of order");
    }
    assert_eq!((chunks[0].start_line, chunks[0].end_line), (2, 4));
    assert_eq!(chunks[0].id, std_chunk_id("/tmp/sample.rs", 1));
}

#[test]
fn ast_python_keeps_class_and_decorated_def_whole() {
    let body = r#"
def lonely_function(x):
    return x * 2

class MyClass:
    def __init__(self):
        self.value = 0

    def increment(self):
        self.value += 1

@decorator
def wrapped_function():
    pass
"#;
    let chunks = chunk_file("/tmp/sample.py", body, 40, 8);
    assert_eq!(chunks.len(), 3, "expected 3 chunks, got {chunks:?}");
    assert!(chunks[0].text.contains("def lonely_function"));
    assert!(chunks[1].text.contains("class MyClass"));
    assert!(chunks[1].text.contains("def increment"));
    assert!(chunks[2].text.contains("@decorator"));
    assert!(chunks[2].text.contains("def wrapped_function"));
}

#[test]
fn ast_javascript_extracts_function_and_class() {
    let body = r#"
function alpha(x) {
    return x + 1;
}

class Beta {
    constructor(name) {
        this.name = name;
    }
    greet() {
        return "hi " + this.name;
    }
}

const gamma = (x) => x * 2;
"#;
    let chunks = chunk_file("/tmp/sample.js", body, 40, 8);
    assert!(chunks.len() >= 3, "expected at least 3 chunks, got {chunks:?}");
    assert!(chunks.iter().any(|c| c.text.contains("function alpha")));
    assert!(chunks.iter().any(|c| c.text.contains("class Beta")));
    assert!(chunks.iter().any(|c| c.text.contains("greet()")));
}

#[test]
fn ast_dart_extracts_class_function_and_enum() {
    let body = r#"
import 'dart:async';

void main() {
    print('hello');
}

class Service {
    final int id;
    Service(this.id);
    void run() {}
}

enum Color { red, green, blue }

mixin Logger {}

extension StringX on String {
    bool get isBlank => trim().isEmpty;
}
"#;
    let chunks = chunk_file("/tmp/sample.dart", body, 40, 8);
    assert!(chunks.len() >= 5, "expected at least 5 chunks, got {chunks:?}");
    assert!(chunks.iter().any(|c| c.text.contains("void main()")));
    assert!(chunks.iter().any(|c| c.text.contains("class Service")));
    assert!(chunks.iter().any(|c| c.text.contains("enum Color")));
    assert!(chunks.iter().any(|c| c.text.contains("extension StringX")));
    assert!(
        !chunks.iter().any(|c| c.text.trim() == "import 'dart:async';"),
        "an import is no chunk"
    );
}

#[test]
fn ast_falls_back_to_line_based_when_no_top_level_items() {
    let body = "// just a comment\n// another\nuse std::io;\n";
    let chunks = chunk_file("/tmp/sample.rs", body, 40, 8);
    assert!(!chunks.is_empty());
    assert_eq!(chunks.len(), 1);
    assert_eq!(chunks[0].text, "// just a comment\n// another\nuse std::io;");
    assert!(chunk_file_ast("/tmp/sample.rs", body).is_none());
}

#[test]
fn chunk_id_stable_under_ast_reindex() {
    let body = "fn alpha() {}\nfn beta() {}\n";
    let a = chunk_file("/tmp/sample.rs", body, 40, 8);
    let b = chunk_file("/tmp/sample.rs", body, 40, 8);
    assert_eq!(a.len(), b.len());
    for (x, y) in a.iter().zip(b.iter()) {
        assert_eq!(x.id, y.id, "identifiers differ between two runs");
    }
}

#[test]
fn chunk_id_is_stable_across_reindex() {
    let body: String = (1..=120).map(|i| format!("line_marker_{i}\n")).collect();
    let pass_one = chunk_file("/tmp/plain", &body, 40, 8);
    let pass_two = chunk_file("/tmp/plain", &body, 40, 8);
    assert_eq!(pass_one.len(), pass_two.len());
    for (a, b) in pass_one.iter().zip(pass_two.iter()) {
        assert_eq!(a.id, b.id);
        assert_eq!(a.start_line, b.start_line);
        assert_eq!(a.end_line, b.end_line);
    }
}

#[test]
fn identifier_is_the_hash_of_path_and_line() {
    for path in [
        "a.rs", "src/a.rs", "/src/a.rs", "./src/a.rs", "src/./a.rs", "src//a.rs", "src/a.rs/",
        "src/a.rs/.", "../x/..", "/", "", ".", "./", "ñandú/日本.rs", ".//.", "a/b/c/d/e/f",
    ] {
        for start in [0usize, 1, 7, 40_000] {
            assert_eq!(chunk_id(path, start), std_chunk_id(path, start), "{path:?} {start}");
        }
    }
    assert_ne!(chunk_id("ab/c", 0), chunk_id("a/bc", 0));
}

#[test]
fn go_functions_and_types_are_chunks() {
    let body = "package main\n\nimport \"fmt\"\n\ntype Point struct {\n\tX int\n}\n\nfunc (p Point) Show() {\n\tfmt.Println(p.X)\n}\n\nfunc main() {}\n\nconst Answer = 42\n\nvar seen = 0\n";
    let chunks = chunk_file("/tmp/main.go", body, 40, 8);
    let firsts: Vec<&str> = chunks.iter().map(|c| c.text.lines().next().unwrap()).collect();
    assert_eq!(
        firsts,
        vec![
            "type Point struct {",
            "func (p Point) Show() {",
            "func main() {}",
            "const Answer = 42",
            "var seen = 0"
        ]
    );
}

#[test]
fn c_and_typescript_items_are_chunks() {
    let c = chunk_file(
        "/tmp/a.C",
        "#include <stdio.h>\nstruct P { int x; };\nint f(int a) { return a; }\n",
        40,
        8,
    );
    let texts: Vec<&str> = c.iter().map(|c| c.text.as_str()).collect();
    assert_eq!(texts, vec!["struct P { int x; }", "int f(int a) { return a; }"]);

    let ts = chunk_file(
        "/tmp/a.ts",
        "import x from 'y';\ninterface A { b: number }\ntype C = string;\nenum D { E }\n",
        40,
        8,
    );
    assert_eq!(ts.len(), 3);
    let tsx = chunk_file("/tmp/a.tsx", "function App() { return <b>hi</b>; }\n", 40, 8);
    assert_eq!(tsx.len(), 1);
    assert_eq!((tsx[0].start_line, tsx[0].end_line), (1, 1));
}

#[test]
fn language_goes_by_extension_in_any_case() {
    let known = [
        ("x.rs", Language::Rust),
        ("x.PY", Language::Python),
        ("x.js", Language::JavaScript),
        ("x.mjs", Language::JavaScript),
        ("x.cjs", Language::JavaScript),
        ("x.JSX", Language::JavaScript),
        ("x.ts", Language::TypeScript),
        ("x.mts", Language::TypeScript),
        ("x.cts", Language::TypeScript),
        ("x.tsx", Language::Tsx),
        ("x.dart", Language::Dart),
        ("x.c", Language::C),
        ("dir.d/x.H", Language::C),
        ("x.go", Language::Go),
    ];
    for (path, lang) in known {
        assert_eq!(Language::from_path(path), Some(lang), "{path}");
    }
    for path in ["x.txt", "rs", ".rs", "x.", "x.rs/..", ""] {
        assert_eq!(Language::from_path(path), None, "{path}");
    }
}

#[test]
fn each_grammar_finds_its_nodes() {
    let samples = [
        (Language::Rust, "fn a() {}\n", "function_item"),
        (Language::Python, "def a():\n  pass\n", "function_definition"),
        (Language::JavaScript, "function a() {}\n", "function_declaration"),
        (Language::TypeScript, "interface A {}\n", "interface_declaration"),
        (Language::Tsx, "const a = <b/>;\n", "lexical_declaration"),
        (Language::Dart, "class A {}\n", "class_declaration"),
        (Language::C, "int a(void) { return 0; }\n", "function_definition"),
        (Language::Go, "package p\n", "package_clause"),
    ];
    for (lang, text, kind) in samples {
        let nodes = parse(lang, text).unwrap();
        assert_eq!(nodes[0].kind, kind, "{lang:?}");
        assert_eq!((nodes[0].start_byte, nodes[0].start_row), (0, 0));
        assert!(nodes[0].end_byte >= text.trim_end().len() && nodes[0].end_byte <= text.len());
    }
}

#[test]
fn nodes_make_chunks_when_whole_and_wanted() {
    let content = "aé\nbcd";
    let kinds = vec!["want"];
    let node = |kind: &str, start_byte: usize, end_byte: usize| SyntaxNode {
        kind: kind.to_string(),
        start_row: 4,
        end_row: 6,
        start_byte,
        end_byte,
    };
    let nodes = vec![
        node("want", 0, 3),
        node("other", 0, 3),
        node("want", 3, 3),
        node("want", 0, 2),
        node("want", 2, 5),
        node("want", 4, 99),
        node("want", 99, 120),
    ];
    let chunks = chunk_nodes("f.rs", content, &kinds, &nodes);
    let texts: Vec<&str> = chunks.iter().map(|c| c.text.as_str()).collect();
    assert_eq!(texts, vec!["aé", "bcd"]);
    assert_eq!((chunks[0].start_line, chunks[0].end_line), (5, 7));
    assert_eq!(chunks[0].file, "f.rs");
    assert_eq!(chunks[0].id, std_chunk_id("f.rs", 4));
}

#[test]
fn lines_are_cut_as_lines() {
    let texts = |content: &str, n: usize, overlap: usize| -> Vec<String> {
        chunk_lines("x", content, n, overlap).into_iter().map(|c| c.text).collect()
    };
    assert_eq!(texts("a\r\nb\n\nc\r", 10, 0), vec!["a\nb\n\nc\r"]);
    assert_eq!(texts("a\nb\nc\n", 2, 0), vec!["a\nb", "c"]);
    assert_eq!(texts("a\nb\nc\n", 2, 1), vec!["a\nb", "b\nc"]);
    // An overlap as long as a chunk still moves on by one line.
    assert_eq!(texts("a\nb\nc", 2, 5), vec!["a\nb", "b\nc"]);
    assert_eq!(texts("\n", 5, 0), vec![""]);
    assert!(texts("", 5, 0).is_empty());
    // Chunks of no lines: one empty one per line.
    let empty = chunk_lines("x", "a\nb", 0, 3);
    assert_eq!(empty.len(), 2);
    assert_eq!((empty[1].start_line, empty[1].end_line), (2, 1));
    assert_eq!(texts("a\nb", usize::MAX, 0), vec!["a\nb"]);
    for content in ["x\ny\r\nz", "\r\n\r\n", "one", "a\n\r\nb\r"] {
        let all: Vec<&str> = content.lines().collect();
        assert_eq!(texts(content, 1000, 0), vec![all.join("\n")]);
    }
}

#[test]
fn every_line_is_in_some_chunk() {
    let body: String = (0..57).map(|i| format!("l{i}\n")).collect();
    for n in 1..12usize {
        for overlap in 0..14usize {
            let chunks = chunk_lines("x", &body, n, overlap);
            for line in 1..=57usize {
                assert!(chunks.iter().any(|c| c.start_line <= line && line <= c.end_line));
            }
        }
    }
}

#[test]
fn empty_content_has_no_chunks() {
    assert!(chunk_file("a.rs", "", 40, 8).is_empty());
    assert!(chunk_file("a.txt", "", 40, 8).is_empty());
}

#[test]
fn token_estimate_is_a_quarter_of_the_bytes() {
    let chunk = |text: &str| Chunk {
        id: 0,
        file: String::new(),
        start_line: 1,
        end_line: 1,
        text: text.to_string(),
    };
    assert_eq!(chunk("").token_estimate(), 1);
    assert_eq!(chunk("abc").token_estimate(), 1);
    assert_eq!(chunk("abcdefgh").token_estimate(), 2);
    assert_eq!(chunk("ñññññ").token_estimate(), 2);
    assert_eq!(chunk("abcdefgh").clone().text, "abcdefgh");
}

#[test]
fn nodes_lie_where_they_say() {
    let all = [
        Language::Rust,
        Language::Python,
        Language::JavaScript,
        Language::TypeScript,
        Language::Tsx,
        Language::Dart,
        Language::C,
        Language::Go,
    ];
    let texts = [
        "",
        "\n",
        "\n\n  \n",
        "fn a() {\n}\n\nstruct B { x: u8 }\r\nenum C {}\n// end",
        "def f(x):\n    return x\n\n\nclass A:\n  def g(self):\n    pass\n",
        "function f() { return 1 }\nconst b = () => {\n  2\n}\nexport { f }\n",
        "const a = 1\u{2003}\nconst b = 2",
        "int f(int x) {\n  return x;\n}\n\nstruct s { int y; };\n#define M(x) x\n",
        "package p\n\nfunc F() int {\n\treturn 1\n}\n\ntype T struct{}\n",
        "class A {\n  int get x => 1;\n}\nvoid main() {}\n",
        "\u{feff}fn é() {\n\"ñ\n\"\n}\n",
        "fn (((\n}}} let ; \0 \n 'x",
        "if (a {\n\n  \"unterminated\n",
        "x = '''\nabc\n'''\n  y\n\tz\n",
    ];
    for lang in all {
        for text in texts {
            let bytes = text.as_bytes();
            let rows = |at: usize| bytes[..at].iter().filter(|b| **b == b'\n').count();
            let mut behind = 0;
            for node in parse(lang, text).unwrap() {
                assert!(behind <= node.start_byte && node.start_byte <= node.end_byte);
                assert!(node.end_byte <= bytes.len(), "{lang:?} {text:?}");
                assert_eq!(node.start_row, rows(node.start_byte), "{lang:?} {text:?}");
                assert_eq!(node.end_row, rows(node.end_byte), "{lang:?} {text:?}");
                behind = node.end_byte;
            }
        }
    }
}

#[test]
fn deep_python_is_cut_by_lines() {
    let nested = |levels: usize| {
        let mut text = String::new();
        for i in 0..levels {
            text.push_str(&" ".repeat(i));
            text.push_str("if 1:\n");
        }
        text.push_str(&" ".repeat(levels));
        text.push_str("x = \"\"\n");
        text
    };
    let deep = nested(511);
    assert!(parse(Language::Python, &deep).is_none());
    assert!(chunk_file_ast("deep.py", &deep).is_none());
    let chunks = chunk_file("deep.py", &deep, 40, 8);
    let lines = chunk_lines("deep.py", &deep, 40, 8);
    assert_eq!(chunks.len(), lines.len());
    for (a, b) in chunks.iter().zip(lines.iter()) {
        assert_eq!((a.id, a.start_line, a.end_line), (b.id, b.start_line, b.end_line));
    }
    assert!(parse(Language::Python, &nested(383)).is_some());
    assert!(parse(Language::Python, &nested(384)).is_none());
    // Other languages do not mind.
    assert!(parse(Language::C, &deep).is_some());
}

#[test]
fn widths_that_open_lines_are_counted() {
    let takes = |text: &str| parse(Language::Python, text).is_some();
    // One wide line is no deep nesting, whatever its blanks.
    assert!(takes(&format!("x\n{}y", " ".repeat(383))));
    assert!(takes(&format!("x\n{}y", " ".repeat(5000))));
    assert!(takes(&format!("x\n{}y", "\t".repeat(48))));
    assert!(takes(&format!("x = \"\"\"\n{}y\n\"\"\"\n", " ".repeat(400))));
    assert!(takes(&format!("x = 1 {}# y", " ".repeat(1000))));
    // Many different widths may be, even within a string.
    let ladder = |widths: usize, step: usize| {
        let mut text = "x = \"\"\"\n".to_string();
        for i in 1..=widths {
            text.push_str(&" ".repeat(i * step));
            text.push_str("y\n");
        }
        text.push_str("\"\"\"\n");
        text
    };
    assert!(takes(&ladder(383, 1)));
    assert!(takes(&ladder(383, 2)));
    assert!(!takes(&ladder(384, 1)));
    assert!(!takes(&ladder(384, 2)));
    assert!(takes(&ladder(300, 2).repeat(3)));
    // Blank lines and lines that only break off do not count.
    assert!(takes(&format!("{}{}", ladder(383, 2), " ".repeat(999))));
    assert!(takes(&format!("{}{}\n", ladder(383, 2), " ".repeat(999))));
    assert!(takes(&format!("{}{}\r  \n", ladder(383, 2), " ".repeat(999))));
    assert!(!takes(&format!("{} y\0{}y\n", ladder(383, 2), " ".repeat(999))));
    // Behind a backslash blanks count on, and then only the columns decide.
    let half = " ".repeat(200);
    assert!(!takes(&format!("x\n{half}\\\n{half}y")));
    assert!(!takes(&format!("x\n{half}\\\r\n{half}y")));
    assert!(takes(&format!("x\n \\\n{half}y")));
    assert!(takes(&format!("x\n{half}\n{half}y")));
    assert!(takes(&format!("x\n{half}\r\n{half}y")));
    assert!(takes(&format!("x = 1 \\\n{half}{half}+ 2\n")));
}

#[test]
fn text_beyond_ascii_is_parsed() {
    for (lang, name, text) in [
        (Language::Rust, "a.rs", "// \u{f1}and\u{fa} \u{2014} caf\u{e9}\nfn first() {}\n\nfn second() {}\n"),
        (Language::JavaScript, "a.js", "// caf\u{e9}\nfunction first() {}\nfunction second() {}\n"),
        (Language::TypeScript, "a.ts", "// caf\u{e9}\nfunction first() {}\nfunction second() {}\n"),
        (Language::Tsx, "a.tsx", "// caf\u{e9}\nfunction first() {}\nfunction second() {}\n"),
    ] {
        assert_eq!(parse(lang, text).unwrap().len(), 3);
        let chunks = chunk_file_ast(name, text).unwrap();
        assert_eq!(chunks.len(), 2);
        assert_eq!(chunks[0].start_line, 2);
        assert!(chunks[1].text.contains("second"));
    }
}

#[test]
fn long_files_are_cut_by_lines() {
    let text = "fn a() {}\n".repeat(LONGEST_PARSED / 10 + 1);
    assert!(text.len() > LONGEST_PARSED);
    assert!(parse(Language::Rust, &text).is_none());
    assert_eq!(parse(Language::Rust, &text[..100]).unwrap().len(), 10);
}

#[test]
fn equal_lines_have_equal_identifiers() {
    let a = chunk_lines("f.txt", "one\ntwo\nthree\nfour\n", 2, 0);
    let b = chunk_lines("f.txt", "other\ntext\nhere\n", 1, 0);
    assert_eq!(a[1].start_line, b[2].start_line);
    assert_eq!(a[1].id, b[2].id);
    assert_ne!(a[0].id, b[2].id);
}
