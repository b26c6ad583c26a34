use rpgrep::chunk::chunk_file;
use rpgrep::cli::{
    dispatch, event_is_relevant, stats, watch_step, Change, Cli, Commands, Job, Report, WatchAction,
};
use rpgrep::index::archive::can_archive;
use rpgrep::index::files::{
    discover_files, eq_ignore_case, extension_matches, is_excluded_dir, is_excluded_path, pruned, Scope,
};
use rpgrep::index::frame::{find_section, frame, FrameError, Section};
use rpgrep::index::store::{IndexStore, SourceFile};
use rpgrep::single::Single;
use rpgrep::{PersistError, RpgrepError, SearchPipeline};

fn mean(total: u128, n: u32) -> Single {
    Single { bits: (total as f32 / n as f32).to_bits() }
}

fn strings(list: &[&str]) -> Vec<String> {
    list.iter().map(|s| s.to_string()).collect()
}

fn file(path: &str, content: &str) -> SourceFile {
    SourceFile { path: path.to_string(), content: Some(content.to_string()) }
}

#[test]
fn index_skips_node_modules_and_build_dirs() {
    let root = "/tmp/project";
    let at = |rel: &str| format!("{root}/{rel}");
    let files = vec![
        file(&at("src/auth/Login.ts"), "export function login() { return authenticate(); }"),
        file(&at("node_modules/react/index.js"), "module.exports = function login() {}"),
        file(&at("node_modules/typescript/lib.d.ts"), "declare function login(): void;"),
        file(&at("dist/bundle.js"), "function login(){return 0;}"),
        file(&at("target/debug/x.rs"), "fn login() {}"),
    ];
    let exts = strings(&["ts", "tsx", "js", "rs"]);
    let store = IndexStore::from_dir(root, true, &files, &exts, 40, 8, &mean).unwrap();
    assert!(!store.chunks.is_empty());
    for c in &store.chunks {
        assert!(
            !c.file.contains("node_modules")
                && !c.file.contains("/dist/")
                && !c.file.contains("/target/"),
            "indexed {}",
            c.file
        );
    }
    assert!(store.chunks.iter().any(|c| c.file.contains("src/auth/Login.ts")));
    assert_eq!(store.n_files(), 1);
}

#[test]
fn a_root_that_is_no_directory_is_an_error() {
    let r = IndexStore::from_dir("nowhere", false, &vec![], &vec![], 40, 8, &mean);
    match r {
        Err(RpgrepError::Index(msg)) => {
            assert_eq!(msg, "la ruta nowhere no es un directorio existente")
        }
        _ => panic!("accepted"),
    }
}

#[test]
fn an_index_holds_the_readable_files_in_path_order() {
    let files = vec![
        file("p/b.rs", "fn beta() {}\n"),
        SourceFile { path: "p/gone.rs".to_string(), content: None },
        file("p/a/z.rs", "fn zeta() {}\nfn eta() {}\n"),
        file("p/empty.rs", ""),
        file("p/c.txt", "gamma text"),
        file("p/gen_x.rs", "fn generated() {}\n"),
    ];
    let excludes = strings(&["gen_*"]);
    let store = IndexStore::from_dir_with_excludes(
        "p",
        true,
        &files,
        &strings(&["RS"]),
        40,
        8,
        &excludes,
        &mean,
    )
    .unwrap();
    let texts: Vec<&str> = store.chunks.iter().map(|c| c.text.as_str()).collect();
    assert_eq!(texts, vec!["fn zeta() {}", "fn eta() {}", "fn beta() {}"]);
    let direct = chunk_file("p/b.rs", "fn beta() {}\n", 40, 8);
    assert_eq!(store.chunks[2].id, direct[0].id);
    assert_eq!(store.n_files(), 2);
    assert_eq!(store.bm25.n_docs, 3);
    assert_eq!(store.minhash.len(), 3);
    assert!(store.bloom.candidates("zeta").contains(&"p/a/z.rs".to_string()));

    let all = IndexStore::from_dir("p", true, &files, &vec![], 40, 8, &mean).unwrap();
    assert_eq!(all.n_files(), 4);

    let report = stats(&store);
    assert_eq!((report.files, report.chunks, report.n_docs), (2, 3, 3));
    assert_eq!(report.vocabulary, store.bm25.doc_freq.len());
    assert_eq!(report.signatures, 3);
    assert_eq!(report.avg_doc_len, store.bm25.avg_doc_len);
}

#[test]
fn a_stored_index_comes_back() {
    let files = vec![file("p/b.rs", "fn beta() { alpha_call() }\n"), file("p/c.rs", "struct Gamma;\n")];
    let store = IndexStore::from_dir("p", true, &files, &vec![], 40, 8, &mean).unwrap();
    let back = IndexStore::from_payload(store.to_payload());
    let mut more = IndexStore::from_payload(store.to_payload());
    more.bloom.add_file("p/new.rs", "fn omega() {}");
    more.bloom.add_file("p/b.rs", "fn omega_too() {}");
    assert_eq!(more.n_files(), 3);
    assert!(more.bloom.candidates("omega").contains(&"p/new.rs".to_string()));
    assert_eq!(back.chunks.len(), store.chunks.len());
    for (a, b) in back.chunks.iter().zip(store.chunks.iter()) {
        assert_eq!((a.id, &a.file, &a.text), (b.id, &b.file, &b.text));
    }
    assert_eq!(back.bloom.candidates("beta"), store.bloom.candidates("beta"));
    assert_eq!(back.bm25.doc_freq, store.bm25.doc_freq);
    assert_eq!(back.bm25.term_freq, store.bm25.term_freq);
    for (id, sig) in &store.minhash {
        assert_eq!(back.minhash[id].sig, sig.sig);
    }
}

#[test]
fn a_framed_payload_is_found_again() {
    for payload in [vec![], vec![7u8], (0..255u8).collect::<Vec<u8>>()] {
        let mut bytes = frame(&payload);
        assert_eq!(&bytes[0..8], b"RPGRP003");
        assert_eq!(bytes[8..16], (payload.len() as u64).to_le_bytes());
        let section = Section { offset: 16, len: payload.len() };
        assert_eq!(find_section(&bytes), Ok(section));
        assert_eq!(&bytes[16..], &payload[..]);
        bytes.extend([1, 2, 3]);
        assert_eq!(find_section(&bytes), Ok(section));
    }
}

#[test]
fn files_that_are_no_index_are_told() {
    let good = frame(&[1, 2, 3, 4]);
    assert_eq!(find_section(&good[..15]), Err(FrameError::Truncated { len: 15 }));
    assert_eq!(find_section(&[]), Err(FrameError::Truncated { len: 0 }));
    let mut old = good.clone();
    old[7] = b'2';
    assert_eq!(find_section(&old), Err(FrameError::BadMagic));
    assert_eq!(
        find_section(&good[..19]),
        Err(FrameError::ShortPayload { total: 20, len: 19 })
    );
    let mut huge = good.clone();
    for b in &mut huge[8..16] {
        *b = 0xff;
    }
    assert_eq!(
        find_section(&huge),
        Err(FrameError::ShortPayload { total: usize::MAX, len: 20 })
    );
    for n in 0..good.len() {
        assert!(find_section(&good[..n]).is_err());
    }
}

#[test]
fn excluded_directories_prune_what_is_below() {
    assert!(is_excluded_dir(true, "node_modules"));
    assert!(is_excluded_dir(true, ".gradle"));
    assert!(!is_excluded_dir(false, "target"));
    assert!(!is_excluded_dir(true, "Target"));
    assert!(!is_excluded_dir(true, "src"));
    assert!(pruned("p/target/x.rs", "p"));
    assert!(pruned("p/a/.git/b/x.rs", "p/"));
    // The root itself counts, what stands above it does not.
    assert!(pruned("build/x.rs", "build"));
    assert!(!pruned("vendor/p/x.rs", "vendor/p"));
    // A file of that name is no directory.
    assert!(!pruned("p/target", "p"));
    assert!(!pruned("q/target/x.rs", "p"));
}

#[test]
fn patterns_go_by_relative_path_and_by_name() {
    let ex = |p: &str, pats: &[&str]| is_excluded_path(p, "root", &strings(pats));
    assert!(ex("root/docs/SUMMARIES.md", &["SUMMARIES.md"]));
    assert!(ex("root/a/b.lock", &["x", "*.lock"]));
    assert!(ex("root/src/gen/a.rs", &["src/gen/*"]));
    assert!(!ex("root/src/gen/a.rs", &["root/src/*"]));
    assert!(!ex("root/a.rs", &[]));
    assert!(!ex("root/a.rs", &["b.rs", "a"]));
}

#[test]
fn extensions_go_by_ascii_case() {
    assert!(extension_matches("a.RS", &strings(&["rs"])));
    assert!(extension_matches("a.md", &strings(&["rs", "MD"])));
    assert!(!extension_matches("a", &strings(&["rs"])));
    assert!(!extension_matches("a.txt", &strings(&["rs"])));
    assert!(extension_matches("a", &vec![]));
    assert!(eq_ignore_case("TsX", "tSx"));
    assert!(!eq_ignore_case("É", "é"));
    assert!(!eq_ignore_case("a", "ab"));
}

#[test]
fn discovery_filters_and_sorts() {
    let exts = strings(&["rs"]);
    let excludes = strings(&["skip*"]);
    let scope = Scope { root: "r", extensions: &exts, excludes: &excludes };
    let listing = strings(&[
        "r/b.rs", "r/a/z.rs", "r/a.rs", "r/target/t.rs", "r/skip_me.rs", "r/n.txt", "r/a-b/c.rs",
    ]);
    assert_eq!(
        discover_files(&scope, &listing),
        vec!["r/a/z.rs", "r/a-b/c.rs", "r/a.rs", "r/b.rs"]
    );
}

#[test]
fn commands_become_jobs() {
    let index = |ext: &[&str]| {
        dispatch(Cli {
            command: Commands::Index {
                path: "p".to_string(),
                out: "o".to_string(),
                lines: 40,
                overlap: 8,
                ext: strings(ext),
            },
        })
    };
    match index(&["rs", "md"]) {
        Job::Index(job) => {
            assert_eq!((job.path.as_str(), job.out.as_str()), ("p", "o"));
            assert_eq!((job.lines, job.overlap), (40, 8));
            assert_eq!(job.exts, strings(&["rs", "md"]));
        }
        other => panic!("{other:?}"),
    }
    // A single empty extension stands for all files.
    match index(&[""]) {
        Job::Index(job) => assert!(job.exts.is_empty()),
        other => panic!("{other:?}"),
    }
    match index(&["", "rs"]) {
        Job::Index(job) => assert_eq!(job.exts, strings(&["", "rs"])),
        other => panic!("{other:?}"),
    }
    let serve = |socket: Option<String>| {
        match dispatch(Cli { command: Commands::Serve { index: "i".to_string(), socket } }) {
            Job::Serve { index, socket } => (index, socket),
            other => panic!("{other:?}"),
        }
    };
    assert_eq!(serve(None), ("i".to_string(), "i/rpgrep.sock".to_string()));
    assert_eq!(serve(Some("/s".to_string())), ("i".to_string(), "/s".to_string()));
    let search = Commands::Search {
        query: "q".to_string(),
        budget: 1,
        index: "i".to_string(),
        topk: 2,
    };
    match dispatch(Cli { command: search }) {
        Job::Search { query, budget, index, topk } => {
            assert_eq!((query.as_str(), budget, index.as_str(), topk), ("q", 1, "i", 2))
        }
        other => panic!("{other:?}"),
    }
    let watch = Commands::Watch {
        path: "p".to_string(),
        out: "o".to_string(),
        lines: 1,
        overlap: 2,
        ext: strings(&["go"]),
        debounce_ms: 500,
    };
    match dispatch(Cli { command: watch }) {
        Job::Watch { job, debounce_ms } => {
            assert_eq!((job.lines, job.overlap, debounce_ms), (1, 2, 500));
            assert_eq!(job.exts, strings(&["go"]));
        }
        other => panic!("{other:?}"),
    }
    assert!(matches!(
        dispatch(Cli { command: Commands::Stats { index: "i".to_string() } }),
        Job::Stats { .. }
    ));
    assert!(matches!(dispatch(Cli { command: Commands::Version }), Job::Version));
}

#[test]
fn changes_are_acted_on_unless_they_are_our_own() {
    let change = |path: &str, canonical: Option<&str>| Change {
        path: path.to_string(),
        canonical: canonical.map(|s| s.to_string()),
    };
    let out = Some("/p/.rpgrep".to_string());
    let exts = strings(&["rs"]);
    let relevant = |c: &Change| event_is_relevant(c, &out, &exts);
    assert!(relevant(&change("/p/a.rs", Some("/p/a.rs"))));
    assert!(relevant(&change("/p/A.RS", None)));
    assert!(relevant(&change("/p/dir", Some("/p/dir"))));
    assert!(!relevant(&change("/p/a.md", Some("/p/a.md"))));
    assert!(!relevant(&change("/p/.rpgrep/x.rs", Some("/p/.rpgrep/x.rs"))));
    assert!(relevant(&change("/p/.rpgrepx/x.rs", Some("/p/.rpgrepx/x.rs"))));
    assert!(event_is_relevant(&change("/p/.rpgrep/x.rs", Some("/p/.rpgrep/x.rs")), &None, &exts));
    assert!(event_is_relevant(&change("/p/a.md", None), &out, &vec![]));

    let batch = |list: Vec<Change>| watch_step(&Report::Changes(list), &out, &exts);
    assert_eq!(batch(vec![]), WatchAction::Wait);
    assert_eq!(batch(vec![change("/p/a.md", None)]), WatchAction::Wait);
    assert_eq!(
        batch(vec![change("/p/a.rs", None), change("/p/a.md", None), change("/p/b.rs", None)]),
        WatchAction::Rebuild { changes: 2 }
    );
    assert_eq!(watch_step(&Report::Failure, &out, &exts), WatchAction::Complain);
}

fn sample() -> IndexStore {
    let files = vec![
        file("p/z.rs", "fn omega() { alpha_call() }\n"),
        file("p/b.rs", "fn beta() { alpha_call() }\n"),
        file("p/c.txt", "caf\u{e9} gamma\n"),
    ];
    let mut store = IndexStore::from_dir("p", true, &files, &vec![], 40, 8, &mean).unwrap();
    store.bloom.add_file("a first", "zeta eta theta");
    store
}

#[test]
fn a_saved_index_is_read_back() {
    let store = sample();
    let bytes = store.to_file_bytes().unwrap();
    assert_eq!(&bytes[0..8], b"RPGRP003");
    let announced = u64::from_le_bytes(bytes[8..16].try_into().unwrap());
    assert_eq!(announced as usize, bytes.len() - 16);
    let back = IndexStore::from_file_bytes(&bytes).unwrap();
    assert_eq!(back.chunks.len(), store.chunks.len());
    for (a, b) in back.chunks.iter().zip(store.chunks.iter()) {
        assert_eq!((a.id, &a.file, &a.text), (b.id, &b.file, &b.text));
        assert_eq!((a.start_line, a.end_line), (b.start_line, b.end_line));
    }
    assert_eq!(back.bm25.term_freq, store.bm25.term_freq);
    assert_eq!(back.bm25.doc_freq, store.bm25.doc_freq);
    assert_eq!(back.bm25.doc_len, store.bm25.doc_len);
    assert_eq!(back.bm25.avg_doc_len, store.bm25.avg_doc_len);
    assert_eq!(back.bm25.n_docs, store.bm25.n_docs);
    assert_eq!(back.minhash.len(), store.minhash.len());
    for (id, sig) in &store.minhash {
        assert_eq!(back.minhash[id].sig, sig.sig);
    }
    let paths: Vec<String> = back.to_payload().bloom_filters.into_iter().map(|e| e.path).collect();
    assert_eq!(paths, ["a first", "p/b.rs", "p/c.txt", "p/z.rs"]);
    for e in store.to_payload().bloom_filters {
        let same = back.to_payload().bloom_filters.into_iter().find(|b| b.path == e.path).unwrap();
        assert_eq!(same.filter.seed, e.filter.seed);
        assert_eq!(same.filter.block_length, e.filter.block_length);
        assert_eq!(same.filter.fingerprints, e.filter.fingerprints);
    }
    // Bytes that follow do no harm, wherever the file lies in memory.
    let mut shifted = vec![0u8; 3];
    shifted.extend_from_slice(&bytes);
    shifted.extend_from_slice(b"more");
    assert_eq!(IndexStore::from_file_bytes(&shifted[3..]).unwrap().n_files(), 4);
}

#[test]
fn an_empty_index_is_read_back() {
    let store = IndexStore::from_dir("p", true, &vec![], &vec![], 40, 8, &mean).unwrap();
    let back = IndexStore::from_file_bytes(&store.to_file_bytes().unwrap()).unwrap();
    assert_eq!((back.chunks.len(), back.n_files(), back.bm25.n_docs), (0, 0, 0));
    assert!(back.minhash.is_empty());
}

#[test]
fn files_that_are_no_index_are_refused() {
    let bytes = sample().to_file_bytes().unwrap();
    match IndexStore::from_file_bytes(&bytes[..10]) {
        Err(RpgrepError::Persist(PersistError::Frame(FrameError::Truncated { len }))) => {
            assert_eq!(len, 10)
        }
        _ => panic!("accepted"),
    }
    let mut other = bytes.clone();
    other[7] = b'2';
    assert!(matches!(
        SearchPipeline::from_file_bytes(&other),
        Err(RpgrepError::Persist(PersistError::Frame(FrameError::BadMagic)))
    ));
    match SearchPipeline::from_file_bytes(&bytes[..bytes.len() - 1]) {
        Err(RpgrepError::Persist(PersistError::Frame(FrameError::ShortPayload { total, len }))) => {
            assert_eq!((total, len), (bytes.len(), bytes.len() - 1))
        }
        _ => panic!("accepted"),
    }
    // Framed well, but no archive: the first offset points far out of the file.
    let mut broken = bytes.clone();
    let n = broken.len();
    for b in &mut broken[n - 76..n - 72] {
        *b = 0x7f;
    }
    match IndexStore::from_file_bytes(&broken) {
        Err(RpgrepError::Persist(PersistError::Codec(msg))) => {
            assert!(msg.starts_with("rkyv deserialize: "), "{msg}")
        }
        _ => panic!("accepted"),
    }
    match SearchPipeline::from_file_bytes(&broken) {
        Err(RpgrepError::Persist(PersistError::Codec(msg))) => {
            assert!(msg.starts_with("rkyv access: "), "{msg}")
        }
        _ => panic!("accepted"),
    }
    assert!(matches!(
        IndexStore::from_file_bytes(&frame(b"")),
        Err(RpgrepError::Persist(PersistError::Codec(_)))
    ));
}

#[test]
fn what_no_archive_can_hold_is_not_saved() {
    let mut store = sample();
    assert!(can_archive(&store.to_payload()));
    store.chunks[0].end_line = u32::MAX as usize;
    assert!(can_archive(&store.to_payload()));
    let back = IndexStore::from_file_bytes(&store.to_file_bytes().unwrap()).unwrap();
    assert_eq!(back.chunks[0].end_line, u32::MAX as usize);
    store.chunks[0].end_line = u32::MAX as usize + 1;
    assert!(!can_archive(&store.to_payload()));
    match store.to_file_bytes() {
        Err(RpgrepError::Persist(PersistError::Codec(msg))) => {
            assert!(msg.starts_with("rkyv serialize: "))
        }
        _ => panic!("accepted"),
    }
    assert!(matches!(
        SearchPipeline::try_from_store(store),
        Err(RpgrepError::Persist(PersistError::Codec(_)))
    ));
}
