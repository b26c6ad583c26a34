use crate::index::files;
use crate::path;
use crate::path::extension;
use crate::text;
use crate::text::{chars_of, same_text};
use vstd::prelude::*;
use vstd::utf8;

verus! {

/// A language with a grammar; files of every other kind are cut by lines.
#[derive(Clone, Copy, Debug, PartialEq, Eq, Structural)]
pub enum Language {
    Rust,
    Python,
    JavaScript,
    TypeScript,
    Tsx,
    Dart,
    C,
    Go,
}

/// The language that a lowercase file extension stands for.
pub open spec fn language_of(ext: Seq<char>) -> Option<Language> {
    if ext == "rs"@ {
        Some(Language::Rust)
    } else if ext == "py"@ {
        Some(Language::Python)
    } else if ext == "js"@ || ext == "mjs"@ || ext == "cjs"@ || ext == "jsx"@ {
        Some(Language::JavaScript)
    } else if ext == "ts"@ || ext == "mts"@ || ext == "cts"@ {
        Some(Language::TypeScript)
    } else if ext == "tsx"@ {
        Some(Language::Tsx)
    } else if ext == "dart"@ {
        Some(Language::Dart)
    } else if ext == "c"@ || ext == "h"@ {
        Some(Language::C)
    } else if ext == "go"@ {
        Some(Language::Go)
    } else {
        None
    }
}

/// The language of the file `p`, by its extension in whatever case.
pub open spec fn path_language(p: Seq<char>) -> Option<Language> {
    match path::extension_of(p) {
        Some(ext) => language_of(
            if text::is_ascii(ext) {
                text::in_small(ext)
            } else {
                text::lowercase(ext)
            },
        ),
        None => None,
    }
}

/// The kinds of syntax nodes that make a chunk of their own: whole functions,
/// types and the like. Imports and loose statements do not.
pub open spec fn kinds_of(lang: Language) -> Seq<Seq<char>> {
    match lang {
        Language::Rust => seq![
            "function_item"@,
            "struct_item"@,
            "enum_item"@,
            "impl_item"@,
            "trait_item"@,
            "mod_item"@,
            "const_item"@,
            "static_item"@,
            "macro_definition"@,
            "type_item"@,
        ],
        Language::Python => seq![
            "function_definition"@,
            "class_definition"@,
            "decorated_definition"@,
        ],
        Language::JavaScript => seq![
            "function_declaration"@,
            "class_declaration"@,
            "method_definition"@,
            "generator_function_declaration"@,
            "lexical_declaration"@,
            "export_statement"@,
        ],
        Language::TypeScript | Language::Tsx => seq![
            "function_declaration"@,
            "generator_function_declaration"@,
            "class_declaration"@,
            "abstract_class_declaration"@,
            "method_definition"@,
            "interface_declaration"@,
            "type_alias_declaration"@,
            "enum_declaration"@,
            "internal_module"@,
            "lexical_declaration"@,
            "export_statement"@,
        ],
        Language::C => seq![
            "function_definition"@,
            "struct_specifier"@,
            "enum_specifier"@,
            "union_specifier"@,
            "type_definition"@,
            "declaration"@,
            "preproc_function_def"@,
        ],
        Language::Dart => seq![
            "class_declaration"@,
            "function_declaration"@,
            "mixin_declaration"@,
            "enum_declaration"@,
            "extension_declaration"@,
            "getter_declaration"@,
            "setter_declaration"@,
            "type_alias"@,
            "top_level_variable_declaration"@,
        ],
        Language::Go => seq![
            "function_declaration"@,
            "method_declaration"@,
            "type_declaration"@,
            "var_declaration"@,
            "const_declaration"@,
        ],
    }
}

/// The texts of `list`.
pub open spec fn str_texts(list: Seq<&'static str>) -> Seq<Seq<char>> {
    list.map_values(|s: &'static str| s@)
}

impl Language {
    /// The language of a file, by its extension in whatever case.
    pub fn from_path(file: &str) -> (r: Option<Self>)
        ensures
            r == path_language(file@),
    {
        let ext: String = match extension(file) {
            Some(ext) => ext.as_str().to_lowercase(),
            None => {
                return None;
            },
        };
        let e: &str = ext.as_str();
        if same_text(e, "rs") {
            Some(Language::Rust)
        } else if same_text(e, "py") {
            Some(Language::Python)
        } else if same_text(e, "js")
            || same_text(e, "mjs")
            || same_text(e, "cjs")
            || same_text(e, "jsx") {
            Some(Language::JavaScript)
        } else if same_text(e, "ts") || same_text(e, "mts") || same_text(e, "cts") {
            Some(Language::TypeScript)
        } else if same_text(e, "tsx") {
            Some(Language::Tsx)
        } else if same_text(e, "dart") {
            Some(Language::Dart)
        } else if same_text(e, "c") || same_text(e, "h") {
            Some(Language::C)
        } else if same_text(e, "go") {
            Some(Language::Go)
        } else {
            None
        }
    }

    /// The kinds of syntax nodes of this language that make a chunk of their own.
    pub fn top_level_node_kinds(self) -> (r: Vec<&'static str>)
        ensures
            str_texts(r@) == kinds_of(self),
    {
        let r: Vec<&'static str> = match self {
            Language::Rust => vec![
                "function_item",
                "struct_item",
                "enum_item",
                "impl_item",
                "trait_item",
                "mod_item",
                "const_item",
                "static_item",
                "macro_definition",
                "type_item",
            ],
            Language::Python => vec![
                "function_definition",
                "class_definition",
                "decorated_definition",
            ],
            Language::JavaScript => vec![
                "function_declaration",
                "class_declaration",
                "method_definition",
                "generator_function_declaration",
                "lexical_declaration",
                "export_statement",
            ],
            Language::TypeScript | Language::Tsx => vec![
                "function_declaration",
                "generator_function_declaration",
                "class_declaration",
                "abstract_class_declaration",
                "method_definition",
                "interface_declaration",
                "type_alias_declaration",
                "enum_declaration",
                "internal_module",
                "lexical_declaration",
                "export_statement",
            ],
            Language::C => vec![
                "function_definition",
                "struct_specifier",
                "enum_specifier",
                "union_specifier",
                "type_definition",
                "declaration",
                "preproc_function_def",
            ],
            Language::Dart => vec![
                "class_declaration",
                "function_declaration",
                "mixin_declaration",
                "enum_declaration",
                "extension_declaration",
                "getter_declaration",
                "setter_declaration",
                "type_alias",
                "top_level_variable_declaration",
            ],
            Language::Go => vec![
                "function_declaration",
                "method_declaration",
                "type_declaration",
                "var_declaration",
                "const_declaration",
            ],
        };
        assert(str_texts(r@) =~= kinds_of(self));
        r
    }
}

/// A node right below the root of a syntax tree.
#[derive(Debug)]
pub struct SyntaxNode {
    pub kind: String,
    /// Line of the first byte, counted from 0.
    pub start_row: usize,
    /// Line of the end, counted from 0.
    pub end_row: usize,
    pub start_byte: usize,
    /// Offset just behind the last byte.
    pub end_byte: usize,
}

/// What a `SyntaxNode` holds.
#[verifier::ext_equal]
pub struct NodeView {
    pub kind: Seq<char>,
    pub start_row: usize,
    pub end_row: usize,
    pub start_byte: usize,
    pub end_byte: usize,
}

impl View for SyntaxNode {
    type V = NodeView;

    open spec fn view(&self) -> NodeView {
        NodeView {
            kind: self.kind@,
            start_row: self.start_row,
            end_row: self.end_row,
            start_byte: self.start_byte,
            end_byte: self.end_byte,
        }
    }
}

/// What a list of nodes holds.
pub open spec fn node_views(list: Seq<SyntaxNode>) -> Seq<NodeView> {
    list.map_values(|n: SyntaxNode| n@)
}

/// The line after each row of `list` can be counted.
pub open spec fn rows_countable(list: Seq<NodeView>) -> bool {
    forall|i: int|
        #![trigger list[i]]
        0 <= i < list.len() ==> list[i].start_row < usize::MAX && list[i].end_row < usize::MAX
}

/// How many line feeds there are among `bytes`.
pub open spec fn line_feeds(bytes: Seq<u8>) -> int
    decreases bytes.len(),
{
    if bytes.len() == 0 {
        0
    } else {
        line_feeds(bytes.drop_last()) + if bytes.last() == 0x0a {
            1int
        } else {
            0
        }
    }
}

/// The nodes lie within `content`, one behind the other, and their rows count
/// the line feeds before them.
pub open spec fn lie_in(list: Seq<NodeView>, content: Seq<char>) -> bool {
    let all = utf8::encode_utf8(content);
    &&& forall|i: int|
        #![trigger list[i]]
        0 <= i < list.len() ==> {
            &&& list[i].start_byte <= list[i].end_byte <= all.len()
            &&& list[i].start_row == line_feeds(all.take(list[i].start_byte as int))
            &&& list[i].end_row == line_feeds(all.take(list[i].end_byte as int))
        }
    &&& forall|i: int, j: int|
        #![trigger list[i], list[j]]
        0 <= i < j < list.len() ==> list[i].end_byte <= list[j].start_byte
}

/// The grammar asks the C library which characters are spaces, letters and
/// digits, and that goes by the locale of the process for all but ASCII.
pub open spec fn goes_by_locale(lang: Language) -> bool {
    lang is Rust || lang is JavaScript || lang is TypeScript || lang is Tsx
}

/// The parse of `content` depends on the language and the text alone.
pub open spec fn is_settled(lang: Language, content: Seq<char>) -> bool {
    !goes_by_locale(lang) || text::is_ascii(content)
}

/// The children of the root of the tree that `tree_sitter::Parser::parse`
/// builds from `content` with the grammar of `lang`, in order; nothing where
/// the parser does not take the grammar or builds no tree. `spaces`, `letters`
/// and `digits` are the characters beyond ASCII for which `iswspace`,
/// `iswalpha` and `iswdigit` of the C library say yes.
pub uninterp spec fn syntax_nodes(
    lang: Language,
    content: Seq<char>,
    spaces: Set<char>,
    letters: Set<char>,
    digits: Set<char>,
) -> Option<Seq<NodeView>>;

/// The parse of text to which the locale does not matter, given here as that
/// in a locale without spaces, letters and digits beyond ASCII.
pub open spec fn settled_nodes(lang: Language, content: Seq<char>) -> Option<Seq<NodeView>> {
    syntax_nodes(lang, content, Set::empty(), Set::empty(), Set::empty())
}

/// `r` is the parse of `content` in some locale.
pub open spec fn is_local_parse(
    lang: Language,
    content: Seq<char>,
    r: Option<Seq<NodeView>>,
) -> bool {
    exists|spaces: Set<char>, letters: Set<char>, digits: Set<char>|
        r == #[trigger] syntax_nodes(lang, content, spaces, letters, digits)
}

/// The longest text, in bytes, that is parsed. The parser adds up the cost of
/// errors in 32 bits: 500 to recover, 100 for a tree that is skipped, 30 for each
/// line and 1 for each byte of it. For texts up to this length 631 for each byte
/// fit.
pub const LONGEST_PARSED: usize = 6_806_604;

/// The least number of open levels that is too many for the Python grammar. Its
/// scanner keeps two bytes for each open level and one for each open string, 255
/// of them at most, in 1024 bytes. Each level is indented further than the one
/// around it, so that indentation by fewer columns opens fewer levels.
pub const TOO_MANY_LEVELS: u32 = 384;

/// How far a line is opened: whether only blanks came so far, whether it goes on
/// behind a backslash, and the columns that the blanks take.
pub struct Opening {
    pub open: bool,
    pub joined: bool,
    pub columns: int,
}

/// The opening with one more character. A tab takes 8 columns, a carriage return
/// or a form feed none, and a line feed behind a backslash lets the blanks of
/// the next line count on. A null character ends a comment as a line feed does.
pub open spec fn opened(o: Opening, c: char) -> Opening {
    if c == '\0' || (c == '\n' && !(o.open && o.joined)) {
        Opening { open: true, joined: false, columns: 0 }
    } else if !o.open {
        o
    } else if c == '\n' {
        Opening { open: true, joined: false, columns: o.columns }
    } else if c == ' ' {
        Opening { open: true, joined: false, columns: o.columns + 1 }
    } else if c == '\t' {
        Opening { open: true, joined: false, columns: o.columns + 8 }
    } else if c == '\\' {
        Opening { open: true, joined: true, columns: o.columns }
    } else if c == '\r' || c == '\u{c}' {
        o
    } else {
        Opening { open: false, joined: false, columns: 0 }
    }
}

/// How far the last line of `text` is opened.
pub open spec fn opening(text: Seq<char>) -> Opening
    decreases text.len(),
{
    if text.len() == 0 {
        Opening { open: true, joined: false, columns: 0 }
    } else {
        opened(opening(text.drop_last()), text.last())
    }
}

/// No line opens with as many columns of blanks as there are too many levels.
pub open spec fn is_shallow(content: Seq<char>) -> bool {
    forall|k: int|
        0 <= k <= content.len() ==> opening(#[trigger] content.take(k)).columns < TOO_MANY_LEVELS
}

/// What the lines of a text open with: whether the last one is still open and
/// goes on behind a backslash, the columns of its blanks since the last carriage
/// return or form feed, the columns of all lines that open with some, and whether
/// a line goes on behind a backslash with nothing but blanks before it.
pub struct Margins {
    pub open: bool,
    pub joined: bool,
    pub columns: int,
    pub depths: Set<int>,
    pub any_joined: bool,
}

/// The depths with that of a line that opens with `columns`.
pub open spec fn with_depth(depths: Set<int>, columns: int) -> Set<int> {
    if columns > 0 {
        depths.insert(columns)
    } else {
        depths
    }
}

/// The margins with one more character.
pub open spec fn widened(m: Margins, c: char) -> Margins {
    if c == '\n' {
        Margins {
            open: true,
            joined: false,
            columns: 0,
            depths: m.depths,
            any_joined: m.any_joined || (m.open && m.joined),
        }
    } else if c == '\0' {
        Margins {
            open: true,
            joined: false,
            columns: 0,
            depths: if m.open {
                with_depth(m.depths, m.columns)
            } else {
                m.depths
            },
            any_joined: m.any_joined,
        }
    } else if !m.open {
        m
    } else if c == ' ' {
        Margins { joined: false, columns: m.columns + 1, ..m }
    } else if c == '\t' {
        Margins { joined: false, columns: m.columns + 8, ..m }
    } else if c == '\r' || c == '\u{c}' {
        Margins { columns: 0, ..m }
    } else if c == '\\' {
        Margins { joined: true, ..m }
    } else {
        Margins { open: false, joined: false, depths: with_depth(m.depths, m.columns), ..m }
    }
}

/// The margins of `text`.
pub open spec fn margins(text: Seq<char>) -> Margins
    decreases text.len(),
{
    if text.len() == 0 {
        Margins {
            open: true,
            joined: false,
            columns: 0,
            depths: Set::empty(),
            any_joined: false,
        }
    } else {
        widened(margins(text.drop_last()), text.last())
    }
}

/// No blank line goes on behind a backslash, and the lines do not open with as
/// many different widths as there are too many levels.
pub open spec fn has_few_depths(content: Seq<char>) -> bool {
    &&& !margins(content).any_joined
    &&& margins(content).depths.len() < TOO_MANY_LEVELS
}

/// Too many levels cannot be open at once: levels that are open have different
/// depths, and none is deeper than the widest opening of a line.
pub open spec fn indents_are_few(content: Seq<char>) -> bool {
    is_shallow(content) || has_few_depths(content)
}

/// The parser can take `content`.
pub open spec fn is_parsable(lang: Language, content: Seq<char>) -> bool {
    &&& utf8::encode_utf8(content).len() <= LONGEST_PARSED
    &&& lang is Python ==> indents_are_few(content)
}

/// `r` is a parse of `content`: none where the parser cannot take it, and
/// otherwise that of the text in some locale, with nodes that lie where they say;
/// the one there is where it depends on the language and the text alone.
pub open spec fn is_parse(lang: Language, content: Seq<char>, r: Option<Seq<NodeView>>) -> bool {
    if is_parsable(lang, content) {
        &&& r is Some
        &&& is_local_parse(lang, content, r)
        &&& is_settled(lang, content) ==> r == settled_nodes(lang, content)
        &&& lie_in(r->0, content)
    } else {
        r is None
    }
}

/// There are no more line feeds than bytes.
proof fn lemma_line_feeds_bound(bytes: Seq<u8>)
    ensures
        0 <= line_feeds(bytes) <= bytes.len(),
    decreases bytes.len(),
{
    if bytes.len() > 0 {
        lemma_line_feeds_bound(bytes.drop_last());
    }
}

/// The rows of a parse can be counted.
pub proof fn lemma_rows_countable(lang: Language, content: Seq<char>, r: Option<Seq<NodeView>>)
    requires
        is_parse(lang, content, r),
    ensures
        r is Some ==> rows_countable(r->0),
{
    if r is Some {
        let list = r->0;
        let all = utf8::encode_utf8(content);
        assert forall|i: int| #![trigger list[i]] 0 <= i < list.len() implies list[i].start_row
            < usize::MAX && list[i].end_row < usize::MAX by {
            lemma_line_feeds_bound(all.take(list[i].start_byte as int));
            lemma_line_feeds_bound(all.take(list[i].end_byte as int));
        }
    }
}

/// Whether no line opens with too many columns of blanks.
fn shallow(content: &str) -> (r: bool)
    ensures
        r == is_shallow(content@),
{
    let chars: Vec<char> = chars_of(content);
    let mut open: bool = true;
    let mut joined: bool = false;
    let mut columns: u32 = 0;
    let mut i: usize = 0;
    assert(opening(content@.take(0)).columns == 0);
    while i < chars.len()
        invariant
            i <= chars.len(),
            chars@ == content@,
            columns < TOO_MANY_LEVELS,
            opening(content@.take(i as int)) == (Opening { open, joined, columns: columns as int }),
            forall|k: int|
                0 <= k <= i ==> opening(#[trigger] content@.take(k)).columns < TOO_MANY_LEVELS,
        decreases chars.len() - i,
    {
        let c: char = chars[i];
        assert(content@.take(i + 1).drop_last() =~= content@.take(i as int));
        if c == '\0' || (c == '\n' && !(open && joined)) {
            open = true;
            joined = false;
            columns = 0;
        } else if open {
            if c == '\n' {
                joined = false;
            } else if c == ' ' {
                joined = false;
                columns = columns + 1;
            } else if c == '\t' {
                joined = false;
                columns = columns + 8;
            } else if c == '\\' {
                joined = true;
            } else if c != '\r' && c != '\u{c}' {
                open = false;
                joined = false;
                columns = 0;
            }
        }
        i = i + 1;
        assert(opening(content@.take(i as int)) == (Opening {
            open,
            joined,
            columns: columns as int,
        }));
        if columns >= TOO_MANY_LEVELS {
            return false;
        }
    }
    true
}

/// Whether `list` contains `n`.
fn lists(list: &Vec<u32>, n: u32) -> (r: bool)
    ensures
        r == list@.contains(n),
{
    let mut i: usize = 0;
    while i < list.len()
        invariant
            i <= list.len(),
            forall|k: int| 0 <= k < i ==> list@[k] != n,
        decreases list.len() - i,
    {
        if list[i] == n {
            return true;
        }
        i = i + 1;
    }
    false
}

/// The depths that are listed.
spec fn listed(list: Seq<u32>) -> Set<int> {
    Set::new(|d: int| exists|k: int| 0 <= k < list.len() && #[trigger] list[k] == d)
}

/// A list without duplicates is as long as the set that it lists.
proof fn lemma_listed_len(list: Seq<u32>)
    requires
        list.no_duplicates(),
    ensures
        listed(list).finite(),
        listed(list).len() == list.len(),
    decreases list.len(),
{
    if list.len() == 0 {
        assert(listed(list) =~= Set::empty());
    } else {
        let init = list.drop_last();
        let last = list.last() as int;
        lemma_listed_len(init);
        assert(listed(list) =~= listed(init).insert(last)) by {
            assert forall|d: int| listed(list).contains(d) <==> listed(init).insert(
                last,
            ).contains(d) by {
                if listed(init).contains(d) {
                    let k = choose|k: int| 0 <= k < init.len() && #[trigger] init[k] == d;
                    assert(list[k] == d);
                }
                if d == last {
                    assert(list[list.len() - 1] == d);
                }
                if listed(list).contains(d) {
                    let k = choose|k: int| 0 <= k < list.len() && #[trigger] list[k] == d;
                    if k < init.len() {
                        assert(init[k] == d);
                    }
                }
            }
        }
        assert(!listed(init).contains(last)) by {
            if listed(init).contains(last) {
                let k = choose|k: int| 0 <= k < init.len() && #[trigger] init[k] == last;
                assert(list[k] == list[list.len() - 1]);
            }
        }
    }
}

/// Adds the depth of a line that opens with `columns`.
fn note_depth(depths: &mut Vec<u32>, columns: u32)
    requires
        old(depths)@.no_duplicates(),
    ensures
        final(depths)@.no_duplicates(),
        listed(final(depths)@) == with_depth(listed(old(depths)@), columns as int),
        final(depths)@.len() <= old(depths)@.len() + 1,
{
    if columns == 0 || lists(depths, columns) {
        proof {
            if columns > 0 {
                assert(listed(depths@).contains(columns as int));
                assert(listed(depths@).insert(columns as int) =~= listed(depths@));
            }
        }
        return;
    }
    let ghost before = depths@;
    depths.push(columns);
    proof {
        assert(depths@.drop_last() =~= before);
        assert forall|d: int| listed(depths@).contains(d) <==> listed(before).insert(
            columns as int,
        ).contains(d) by {
            if listed(before).contains(d) {
                let k = choose|k: int| 0 <= k < before.len() && #[trigger] before[k] == d;
                assert(depths@[k] == d);
            }
            if d == columns {
                assert(depths@[before.len() as int] == d);
            }
            if listed(depths@).contains(d) {
                let k = choose|k: int| 0 <= k < depths@.len() && #[trigger] depths@[k] == d;
                if k < before.len() {
                    assert(before[k] == d);
                }
            }
        }
        assert(listed(depths@) =~= listed(before).insert(columns as int));
    }
}

/// Depths and blank lines that go on are never taken back.
proof fn lemma_margins_grow(content: Seq<char>, k: int)
    requires
        0 <= k <= content.len(),
    ensures
        margins(content.take(k)).depths.subset_of(margins(content).depths),
        margins(content.take(k)).any_joined ==> margins(content).any_joined,
        margins(content).depths.finite(),
    decreases content.len(),
{
    if k == content.len() {
        assert(content.take(k) =~= content);
    }
    if content.len() > 0 {
        let init = content.drop_last();
        if k < content.len() {
            assert(content.take(k) =~= init.take(k));
            lemma_margins_grow(init, k);
        } else {
            lemma_margins_grow(init, init.len() as int);
        }
    }
}

/// Whether the lines open with few different widths.
fn few_depths(content: &str) -> (r: bool)
    requires
        utf8::encode_utf8(content@).len() <= LONGEST_PARSED,
    ensures
        r == has_few_depths(content@),
{
    let chars: Vec<char> = chars_of(content);
    let mut open: bool = true;
    let mut joined: bool = false;
    let mut columns: u32 = 0;
    let mut depths: Vec<u32> = Vec::new();
    let mut i: usize = 0;
    proof {
        lemma_no_more_chars(content@);
        assert(listed(depths@) =~= Set::empty());
    }
    while i < chars.len()
        invariant
            i <= chars.len(),
            chars@ == content@,
            chars.len() <= LONGEST_PARSED,
            columns <= 8 * i,
            depths@.no_duplicates(),
            depths@.len() < TOO_MANY_LEVELS,
            margins(content@.take(i as int)) == (Margins {
                open,
                joined,
                columns: columns as int,
                depths: listed(depths@),
                any_joined: false,
            }),
        decreases chars.len() - i,
    {
        let c: char = chars[i];
        proof {
            assert(content@.take(i + 1).drop_last() =~= content@.take(i as int));
            assert(content@.take(i + 1).last() == c);
        }
        if c == '\n' {
            if open && joined {
                proof {
                    lemma_margins_grow(content@, i + 1);
                }
                return false;
            }
            open = true;
            joined = false;
            columns = 0;
        } else if c == '\0' {
            if open {
                note_depth(&mut depths, columns);
            }
            open = true;
            joined = false;
            columns = 0;
        } else if open {
            if c == ' ' {
                joined = false;
                columns = columns + 1;
            } else if c == '\t' {
                joined = false;
                columns = columns + 8;
            } else if c == '\r' || c == '\u{c}' {
                columns = 0;
            } else if c == '\\' {
                joined = true;
            } else {
                note_depth(&mut depths, columns);
                open = false;
                joined = false;
            }
        }
        i = i + 1;
        assert(margins(content@.take(i as int)) == (Margins {
            open,
            joined,
            columns: columns as int,
            depths: listed(depths@),
            any_joined: false,
        }));
        if depths.len() >= TOO_MANY_LEVELS as usize {
            proof {
                lemma_listed_len(depths@);
                lemma_margins_grow(content@, i as int);
                vstd::set_lib::lemma_len_subset(listed(depths@), margins(content@).depths);
            }
            return false;
        }
    }
    proof {
        assert(content@.take(content@.len() as int) =~= content@);
        lemma_listed_len(depths@);
    }
    true
}

/// A text has no more characters than bytes.
proof fn lemma_no_more_chars(s: Seq<char>)
    ensures
        s.len() <= utf8::encode_utf8(s).len(),
    decreases s.len(),
{
    if s.len() > 0 {
        lemma_no_more_chars(s.drop_first());
    }
}

/// What a parse holds.
pub open spec fn found(r: Option<Vec<SyntaxNode>>) -> Option<Seq<NodeView>> {
    match r {
        Some(list) => Some(node_views(list@)),
        None => None,
    }
}

/// `tree_sitter::Parser::parse` with the Rust grammar, which this version of the
/// parser takes: there is a tree, and these are the children of its root as
/// plain values, in order and without overlap, with rows that count
/// line feeds. The scanner of the grammar asks `iswspace`, `iswalpha` and
/// `iswdigit` of the C library, so that they depend on the text and on what these
/// say of characters beyond ASCII, which is left open; of ASCII text they depend
/// on the text alone.
#[verifier::external_body]
fn parse_rust(content: &str) -> (r: Option<Vec<SyntaxNode>>)
    requires
        utf8::encode_utf8(content@).len() <= LONGEST_PARSED,
    ensures
        found(r) is Some,
        exists|spaces: Set<char>, letters: Set<char>, digits: Set<char>|
            found(r) == #[trigger] syntax_nodes(
                Language::Rust,
                content@,
                spaces,
                letters,
                digits,
            ),
        text::is_ascii(content@) ==> found(r) == settled_nodes(Language::Rust, content@),
        lie_in(found(r)->0, content@),
{
    let mut parser = tree_sitter::Parser::new();
    parser.set_language(&tree_sitter_rust::LANGUAGE.into()).ok()?;
    let tree = parser.parse(content, None)?;
    let root = tree.root_node();
    let mut cursor = root.walk();
    let nodes = root.children(&mut cursor).map(|n| SyntaxNode {
        kind: n.kind().to_owned(),
        start_row: n.start_position().row,
        end_row: n.end_position().row,
        start_byte: n.start_byte(),
        end_byte: n.end_byte(),
    });
    Some(nodes.collect())
}

/// `tree_sitter::Parser::parse` with the Python grammar, which this version of the
/// parser takes: there is a tree, and these are the children of its root as
/// plain values, in order and without overlap, with rows that count
/// line feeds. They depend on the text alone. More open levels than the text is
/// asked to have would not fit into the buffer for the state of the scanner.
#[verifier::external_body]
fn parse_python(content: &str) -> (r: Option<Vec<SyntaxNode>>)
    requires
        utf8::encode_utf8(content@).len() <= LONGEST_PARSED,
        indents_are_few(content@),
    ensures
        found(r) is Some,
        found(r) == syntax_nodes(
            Language::Python,
            content@,
            Set::empty(),
            Set::empty(),
            Set::empty(),
        ),
        lie_in(found(r)->0, content@),
{
    let mut parser = tree_sitter::Parser::new();
    parser.set_language(&tree_sitter_python::LANGUAGE.into()).ok()?;
    let tree = parser.parse(content, None)?;
    let root = tree.root_node();
    let mut cursor = root.walk();
    let nodes = root.children(&mut cursor).map(|n| SyntaxNode {
        kind: n.kind().to_owned(),
        start_row: n.start_position().row,
        end_row: n.end_position().row,
        start_byte: n.start_byte(),
        end_byte: n.end_byte(),
    });
    Some(nodes.collect())
}

/// `tree_sitter::Parser::parse` with the JavaScript grammar, which this version of the
/// parser takes: there is a tree, and these are the children of its root as
/// plain values, in order and without overlap, with rows that count
/// line feeds. The scanner of the grammar asks `iswspace`, `iswalpha` and
/// `iswdigit` of the C library, so that they depend on the text and on what these
/// say of characters beyond ASCII, which is left open; of ASCII text they depend
/// on the text alone.
#[verifier::external_body]
fn parse_javascript(content: &str) -> (r: Option<Vec<SyntaxNode>>)
    requires
        utf8::encode_utf8(content@).len() <= LONGEST_PARSED,
    ensures
        found(r) is Some,
        exists|spaces: Set<char>, letters: Set<char>, digits: Set<char>|
            found(r) == #[trigger] syntax_nodes(
                Language::JavaScript,
                content@,
                spaces,
                letters,
                digits,
            ),
        text::is_ascii(content@) ==> found(r) == settled_nodes(Language::JavaScript, content@),
        lie_in(found(r)->0, content@),
{
    let mut parser = tree_sitter::Parser::new();
    parser.set_language(&tree_sitter_javascript::LANGUAGE.into()).ok()?;
    let tree = parser.parse(content, None)?;
    let root = tree.root_node();
    let mut cursor = root.walk();
    let nodes = root.children(&mut cursor).map(|n| SyntaxNode {
        kind: n.kind().to_owned(),
        start_row: n.start_position().row,
        end_row: n.end_position().row,
        start_byte: n.start_byte(),
        end_byte: n.end_byte(),
    });
    Some(nodes.collect())
}

/// `tree_sitter::Parser::parse` with the TypeScript grammar, which this version of the
/// parser takes: there is a tree, and these are the children of its root as
/// plain values, in order and without overlap, with rows that count
/// line feeds. The scanner of the grammar asks `iswspace`, `iswalpha` and
/// `iswdigit` of the C library, so that they depend on the text and on what these
/// say of characters beyond ASCII, which is left open; of ASCII text they depend
/// on the text alone.
#[verifier::external_body]
fn parse_typescript(content: &str) -> (r: Option<Vec<SyntaxNode>>)
    requires
        utf8::encode_utf8(content@).len() <= LONGEST_PARSED,
    ensures
        found(r) is Some,
        exists|spaces: Set<char>, letters: Set<char>, digits: Set<char>|
            found(r) == #[trigger] syntax_nodes(
                Language::TypeScript,
                content@,
                spaces,
                letters,
                digits,
            ),
        text::is_ascii(content@) ==> found(r) == settled_nodes(Language::TypeScript, content@),
        lie_in(found(r)->0, content@),
{
    let mut parser = tree_sitter::Parser::new();
    parser.set_language(&tree_sitter_typescript::LANGUAGE_TYPESCRIPT.into()).ok()?;
    let tree = parser.parse(content, None)?;
    let root = tree.root_node();
    let mut cursor = root.walk();
    let nodes = root.children(&mut cursor).map(|n| SyntaxNode {
        kind: n.kind().to_owned(),
        start_row: n.start_position().row,
        end_row: n.end_position().row,
        start_byte: n.start_byte(),
        end_byte: n.end_byte(),
    });
    Some(nodes.collect())
}

/// `tree_sitter::Parser::parse` with the TSX grammar, which this version of the
/// parser takes: there is a tree, and these are the children of its root as
/// plain values, in order and without overlap, with rows that count
/// line feeds. The scanner of the grammar asks `iswspace`, `iswalpha` and
/// `iswdigit` of the C library, so that they depend on the text and on what these
/// say of characters beyond ASCII, which is left open; of ASCII text they depend
/// on the text alone.
#[verifier::external_body]
fn parse_tsx(content: &str) -> (r: Option<Vec<SyntaxNode>>)
    requires
        utf8::encode_utf8(content@).len() <= LONGEST_PARSED,
    ensures
        found(r) is Some,
        exists|spaces: Set<char>, letters: Set<char>, digits: Set<char>|
            found(r) == #[trigger] syntax_nodes(
                Language::Tsx,
                content@,
                spaces,
                letters,
                digits,
            ),
        text::is_ascii(content@) ==> found(r) == settled_nodes(Language::Tsx, content@),
        lie_in(found(r)->0, content@),
{
    let mut parser = tree_sitter::Parser::new();
    parser.set_language(&tree_sitter_typescript::LANGUAGE_TSX.into()).ok()?;
    let tree = parser.parse(content, None)?;
    let root = tree.root_node();
    let mut cursor = root.walk();
    let nodes = root.children(&mut cursor).map(|n| SyntaxNode {
        kind: n.kind().to_owned(),
        start_row: n.start_position().row,
        end_row: n.end_position().row,
        start_byte: n.start_byte(),
        end_byte: n.end_byte(),
    });
    Some(nodes.collect())
}

/// `tree_sitter::Parser::parse` with the Dart grammar, which this version of the
/// parser takes: there is a tree, and these are the children of its root as
/// plain values, in order and without overlap, with rows that count
/// line feeds. They depend on the text alone.
#[verifier::external_body]
fn parse_dart(content: &str) -> (r: Option<Vec<SyntaxNode>>)
    requires
        utf8::encode_utf8(content@).len() <= LONGEST_PARSED,
    ensures
        found(r) is Some,
        found(r) == syntax_nodes(
            Language::Dart,
            content@,
            Set::empty(),
            Set::empty(),
            Set::empty(),
        ),
        lie_in(found(r)->0, content@),
{
    let mut parser = tree_sitter::Parser::new();
    parser.set_language(&tree_sitter_dart::LANGUAGE.into()).ok()?;
    let tree = parser.parse(content, None)?;
    let root = tree.root_node();
    let mut cursor = root.walk();
    let nodes = root.children(&mut cursor).map(|n| SyntaxNode {
        kind: n.kind().to_owned(),
        start_row: n.start_position().row,
        end_row: n.end_position().row,
        start_byte: n.start_byte(),
        end_byte: n.end_byte(),
    });
    Some(nodes.collect())
}

/// `tree_sitter::Parser::parse` with the C grammar, which this version of the
/// parser takes: there is a tree, and these are the children of its root as
/// plain values, in order and without overlap, with rows that count
/// line feeds. They depend on the text alone.
#[verifier::external_body]
fn parse_c(content: &str) -> (r: Option<Vec<SyntaxNode>>)
    requires
        utf8::encode_utf8(content@).len() <= LONGEST_PARSED,
    ensures
        found(r) is Some,
        found(r) == syntax_nodes(
            Language::C,
            content@,
            Set::empty(),
            Set::empty(),
            Set::empty(),
        ),
        lie_in(found(r)->0, content@),
{
    let mut parser = tree_sitter::Parser::new();
    parser.set_language(&tree_sitter_c::LANGUAGE.into()).ok()?;
    let tree = parser.parse(content, None)?;
    let root = tree.root_node();
    let mut cursor = root.walk();
    let nodes = root.children(&mut cursor).map(|n| SyntaxNode {
        kind: n.kind().to_owned(),
        start_row: n.start_position().row,
        end_row: n.end_position().row,
        start_byte: n.start_byte(),
        end_byte: n.end_byte(),
    });
    Some(nodes.collect())
}

/// `tree_sitter::Parser::parse` with the Go grammar, which this version of the
/// parser takes: there is a tree, and these are the children of its root as
/// plain values, in order and without overlap, with rows that count
/// line feeds. They depend on the text alone.
#[verifier::external_body]
fn parse_go(content: &str) -> (r: Option<Vec<SyntaxNode>>)
    requires
        utf8::encode_utf8(content@).len() <= LONGEST_PARSED,
    ensures
        found(r) is Some,
        found(r) == syntax_nodes(
            Language::Go,
            content@,
            Set::empty(),
            Set::empty(),
            Set::empty(),
        ),
        lie_in(found(r)->0, content@),
{
    let mut parser = tree_sitter::Parser::new();
    parser.set_language(&tree_sitter_go::LANGUAGE.into()).ok()?;
    let tree = parser.parse(content, None)?;
    let root = tree.root_node();
    let mut cursor = root.walk();
    let nodes = root.children(&mut cursor).map(|n| SyntaxNode {
        kind: n.kind().to_owned(),
        start_row: n.start_position().row,
        end_row: n.end_position().row,
        start_byte: n.start_byte(),
        end_byte: n.end_byte(),
    });
    Some(nodes.collect())
}

/// The nodes right below the root of the syntax tree of `content`; none where
/// the parser cannot take it.
pub fn parse(lang: Language, content: &str) -> (r: Option<Vec<SyntaxNode>>)
    ensures
        is_parse(lang, content@, found(r)),
        found(r) is Some ==> rows_countable(found(r)->0),
{
    if content.as_bytes().len() > LONGEST_PARSED {
        return None;
    }
    if lang == Language::Python && !shallow(content) && !few_depths(content) {
        return None;
    }
    let r: Option<Vec<SyntaxNode>> = match lang {
        Language::Rust => parse_rust(content),
        Language::Python => parse_python(content),
        Language::JavaScript => parse_javascript(content),
        Language::TypeScript => parse_typescript(content),
        Language::Tsx => parse_tsx(content),
        Language::Dart => parse_dart(content),
        Language::C => parse_c(content),
        Language::Go => parse_go(content),
    };
    proof {
        lemma_rows_countable(lang, content@, found(r));
    }
    r
}

/// A node of this kind is a unit of its own in that language.
pub open spec fn stands_alone(lang: Language, kind: Seq<char>) -> bool {
    match lang {
        Language::Rust => {
            ||| kind == "function_item"@
            ||| kind == "struct_item"@
            ||| kind == "enum_item"@
            ||| kind == "impl_item"@
            ||| kind == "trait_item"@
            ||| kind == "mod_item"@
            ||| kind == "const_item"@
            ||| kind == "static_item"@
            ||| kind == "macro_definition"@
            ||| kind == "type_item"@
        },
        Language::Python => {
            ||| kind == "function_definition"@
            ||| kind == "class_definition"@
            ||| kind == "decorated_definition"@
        },
        Language::JavaScript => {
            ||| kind == "function_declaration"@
            ||| kind == "class_declaration"@
            ||| kind == "method_definition"@
            ||| kind == "generator_function_declaration"@
            ||| kind == "lexical_declaration"@
            ||| kind == "export_statement"@
        },
        Language::TypeScript | Language::Tsx => {
            ||| kind == "function_declaration"@
            ||| kind == "generator_function_declaration"@
            ||| kind == "class_declaration"@
            ||| kind == "abstract_class_declaration"@
            ||| kind == "method_definition"@
            ||| kind == "interface_declaration"@
            ||| kind == "type_alias_declaration"@
            ||| kind == "enum_declaration"@
            ||| kind == "internal_module"@
            ||| kind == "lexical_declaration"@
            ||| kind == "export_statement"@
        },
        Language::C => {
            ||| kind == "function_definition"@
            ||| kind == "struct_specifier"@
            ||| kind == "enum_specifier"@
            ||| kind == "union_specifier"@
            ||| kind == "type_definition"@
            ||| kind == "declaration"@
            ||| kind == "preproc_function_def"@
        },
        Language::Dart => {
            ||| kind == "class_declaration"@
            ||| kind == "function_declaration"@
            ||| kind == "mixin_declaration"@
            ||| kind == "enum_declaration"@
            ||| kind == "extension_declaration"@
            ||| kind == "getter_declaration"@
            ||| kind == "setter_declaration"@
            ||| kind == "type_alias"@
            ||| kind == "top_level_variable_declaration"@
        },
        Language::Go => {
            ||| kind == "function_declaration"@
            ||| kind == "method_declaration"@
            ||| kind == "type_declaration"@
            ||| kind == "var_declaration"@
            ||| kind == "const_declaration"@
        },
    }
}

/// The kinds that make a chunk are these and no others.
pub proof fn law_listed_kinds_are_these(lang: Language, kind: Seq<char>)
    ensures
        kinds_of(lang).contains(kind) <==> stands_alone(lang, kind),
{
    let all = kinds_of(lang);
    if stands_alone(lang, kind) {
        match lang {
            Language::Rust => {
                assert(all[0] == "function_item"@);
                assert(all[1] == "struct_item"@);
                assert(all[2] == "enum_item"@);
                assert(all[3] == "impl_item"@);
                assert(all[4] == "trait_item"@);
                assert(all[5] == "mod_item"@);
                assert(all[6] == "const_item"@);
                assert(all[7] == "static_item"@);
                assert(all[8] == "macro_definition"@);
                assert(all[9] == "type_item"@);
            },
            Language::Python => {
                assert(all[0] == "function_definition"@);
                assert(all[1] == "class_definition"@);
                assert(all[2] == "decorated_definition"@);
            },
            Language::JavaScript => {
                assert(all[0] == "function_declaration"@);
                assert(all[1] == "class_declaration"@);
                assert(all[2] == "method_definition"@);
                assert(all[3] == "generator_function_declaration"@);
                assert(all[4] == "lexical_declaration"@);
                assert(all[5] == "export_statement"@);
            },
            Language::TypeScript | Language::Tsx => {
                assert(all[0] == "function_declaration"@);
                assert(all[1] == "generator_function_declaration"@);
                assert(all[2] == "class_declaration"@);
                assert(all[3] == "abstract_class_declaration"@);
                assert(all[4] == "method_definition"@);
                assert(all[5] == "interface_declaration"@);
                assert(all[6] == "type_alias_declaration"@);
                assert(all[7] == "enum_declaration"@);
                assert(all[8] == "internal_module"@);
                assert(all[9] == "lexical_declaration"@);
                assert(all[10] == "export_statement"@);
            },
            Language::C => {
                assert(all[0] == "function_definition"@);
                assert(all[1] == "struct_specifier"@);
                assert(all[2] == "enum_specifier"@);
                assert(all[3] == "union_specifier"@);
                assert(all[4] == "type_definition"@);
                assert(all[5] == "declaration"@);
                assert(all[6] == "preproc_function_def"@);
            },
            Language::Dart => {
                assert(all[0] == "class_declaration"@);
                assert(all[1] == "function_declaration"@);
                assert(all[2] == "mixin_declaration"@);
                assert(all[3] == "enum_declaration"@);
                assert(all[4] == "extension_declaration"@);
                assert(all[5] == "getter_declaration"@);
                assert(all[6] == "setter_declaration"@);
                assert(all[7] == "type_alias"@);
                assert(all[8] == "top_level_variable_declaration"@);
            },
            Language::Go => {
                assert(all[0] == "function_declaration"@);
                assert(all[1] == "method_declaration"@);
                assert(all[2] == "type_declaration"@);
                assert(all[3] == "var_declaration"@);
                assert(all[4] == "const_declaration"@);
            },
        }
    }
    if all.contains(kind) {
        let i = choose|i: int| 0 <= i < all.len() && all[i] == kind;
        assert(all.len() <= 11);
        assert(i == 0 || i == 1 || i == 2 || i == 3 || i == 4 || i == 5 || i == 6 || i == 7 || i
            == 8 || i == 9 || i == 10);
    }
}

/// A text that differs from one in small letters by case alone is that one in
/// small letters.
proof fn lemma_in_small(ext: Seq<char>, e: Seq<char>)
    requires
        files::same_letters(ext, e),
        forall|i: int| 0 <= i < e.len() ==> 'a' <= #[trigger] e[i] && e[i] <= 'z',
    ensures
        text::is_ascii(ext),
        text::in_small(ext) == e,
{
    assert forall|i: int| 0 <= i < ext.len() implies (#[trigger] ext[i] as int) < 0x80
        && text::small(ext[i]) == e[i] by {
        assert('a' <= e[i] && e[i] <= 'z');
    }
    assert(text::in_small(ext) =~= e);
}

/// The extension stands for a language, in whatever case it is written.
pub open spec fn written_for(ext: Seq<char>, lang: Language) -> bool {
    match lang {
        Language::Rust => files::same_letters(ext, "rs"@),
        Language::Python => files::same_letters(ext, "py"@),
        Language::JavaScript => {
            ||| files::same_letters(ext, "js"@)
            ||| files::same_letters(ext, "mjs"@)
            ||| files::same_letters(ext, "cjs"@)
            ||| files::same_letters(ext, "jsx"@)
        },
        Language::TypeScript => {
            ||| files::same_letters(ext, "ts"@)
            ||| files::same_letters(ext, "mts"@)
            ||| files::same_letters(ext, "cts"@)
        },
        Language::Tsx => files::same_letters(ext, "tsx"@),
        Language::Dart => files::same_letters(ext, "dart"@),
        Language::C => files::same_letters(ext, "c"@) || files::same_letters(ext, "h"@),
        Language::Go => files::same_letters(ext, "go"@),
    }
}

/// The small letters of a text are its own, whatever their case.
proof fn lemma_own_letters(ext: Seq<char>)
    requires
        text::is_ascii(ext),
    ensures
        files::same_letters(ext, text::in_small(ext)),
{
    let low = text::in_small(ext);
    assert forall|i: int| #![trigger ext[i]] 0 <= i < ext.len() implies {
        ||| ext[i] == low[i]
        ||| 'a' <= ext[i] && ext[i] <= 'z' && ext[i] as int == low[i] as int + 32
        ||| 'a' <= low[i] && low[i] <= 'z' && low[i] as int == ext[i] as int + 32
    } by {
        assert(low[i] == text::small(ext[i]));
    }
}

/// A file is taken for the language its extension is written for, whatever the
/// case, and one with another extension in ASCII or without one for none.
pub proof fn law_extensions_tell_the_language(p: Seq<char>, lang: Language)
    ensures
        path::extension_of(p) is None ==> path_language(p) is None,
        path::extension_of(p) is Some && written_for(path::extension_of(p)->0, lang)
            ==> path_language(p) == Some(lang),
        path::extension_of(p) is Some && text::is_ascii(path::extension_of(p)->0) && path_language(p)
            == Some(lang) ==> written_for(path::extension_of(p)->0, lang),
{
    reveal_strlit("rs");
    reveal_strlit("py");
    reveal_strlit("js");
    reveal_strlit("mjs");
    reveal_strlit("cjs");
    reveal_strlit("jsx");
    reveal_strlit("ts");
    reveal_strlit("mts");
    reveal_strlit("cts");
    reveal_strlit("tsx");
    reveal_strlit("dart");
    reveal_strlit("c");
    reveal_strlit("h");
    reveal_strlit("go");
    if path::extension_of(p) is Some {
        let ext = path::extension_of(p)->0;
        if files::same_letters(ext, "rs"@) {
            lemma_in_small(ext, "rs"@);
        }
        if files::same_letters(ext, "py"@) {
            lemma_in_small(ext, "py"@);
        }
        if files::same_letters(ext, "js"@) {
            lemma_in_small(ext, "js"@);
        }
        if files::same_letters(ext, "mjs"@) {
            lemma_in_small(ext, "mjs"@);
        }
        if files::same_letters(ext, "cjs"@) {
            lemma_in_small(ext, "cjs"@);
        }
        if files::same_letters(ext, "jsx"@) {
            lemma_in_small(ext, "jsx"@);
        }
        if files::same_letters(ext, "ts"@) {
            lemma_in_small(ext, "ts"@);
        }
        if files::same_letters(ext, "mts"@) {
            lemma_in_small(ext, "mts"@);
        }
        if files::same_letters(ext, "cts"@) {
            lemma_in_small(ext, "cts"@);
        }
        if files::same_letters(ext, "tsx"@) {
            lemma_in_small(ext, "tsx"@);
        }
        if files::same_letters(ext, "dart"@) {
            lemma_in_small(ext, "dart"@);
        }
        if files::same_letters(ext, "c"@) {
            lemma_in_small(ext, "c"@);
        }
        if files::same_letters(ext, "h"@) {
            lemma_in_small(ext, "h"@);
        }
        if files::same_letters(ext, "go"@) {
            lemma_in_small(ext, "go"@);
        }
        if text::is_ascii(ext) {
            lemma_own_letters(ext);
        }
        lemma_extensions_differ();
    }
}

/// The extensions that have a language are all different.
proof fn lemma_extensions_differ()
    ensures
        language_of("rs"@) == Some(Language::Rust),
        language_of("py"@) == Some(Language::Python),
        language_of("js"@) == Some(Language::JavaScript),
        language_of("mjs"@) == Some(Language::JavaScript),
        language_of("cjs"@) == Some(Language::JavaScript),
        language_of("jsx"@) == Some(Language::JavaScript),
        language_of("ts"@) == Some(Language::TypeScript),
        language_of("mts"@) == Some(Language::TypeScript),
        language_of("cts"@) == Some(Language::TypeScript),
        language_of("tsx"@) == Some(Language::Tsx),
        language_of("dart"@) == Some(Language::Dart),
        language_of("c"@) == Some(Language::C),
        language_of("h"@) == Some(Language::C),
        language_of("go"@) == Some(Language::Go),
{
    reveal_strlit("rs");
    reveal_strlit("py");
    reveal_strlit("js");
    reveal_strlit("mjs");
    reveal_strlit("cjs");
    reveal_strlit("jsx");
    reveal_strlit("ts");
    reveal_strlit("mts");
    reveal_strlit("cts");
    reveal_strlit("tsx");
    reveal_strlit("dart");
    reveal_strlit("c");
    reveal_strlit("h");
    reveal_strlit("go");
    assert("rs"@.len() == 2);
    assert("py"@.len() == 2);
    assert("js"@.len() == 2);
    assert("mjs"@.len() == 3);
    assert("cjs"@.len() == 3);
    assert("jsx"@.len() == 3);
    assert("ts"@.len() == 2);
    assert("mts"@.len() == 3);
    assert("cts"@.len() == 3);
    assert("tsx"@.len() == 3);
    assert("dart"@.len() == 4);
    assert("c"@.len() == 1);
    assert("h"@.len() == 1);
    assert("go"@.len() == 2);
    assert("py"@[0] != "rs"@[0]);
    assert("js"@[0] != "rs"@[0]);
    assert("js"@[0] != "py"@[0]);
    assert("cjs"@[0] != "mjs"@[0]);
    assert("jsx"@[0] != "mjs"@[0]);
    assert("jsx"@[0] != "cjs"@[0]);
    assert("ts"@[0] != "rs"@[0]);
    assert("ts"@[0] != "py"@[0]);
    assert("ts"@[0] != "js"@[0]);
    assert("mts"@[1] != "mjs"@[1]);
    assert("mts"@[0] != "cjs"@[0]);
    assert("mts"@[0] != "jsx"@[0]);
    assert("cts"@[0] != "mjs"@[0]);
    assert("cts"@[1] != "cjs"@[1]);
    assert("cts"@[0] != "jsx"@[0]);
    assert("cts"@[0] != "mts"@[0]);
    assert("tsx"@[0] != "mjs"@[0]);
    assert("tsx"@[0] != "cjs"@[0]);
    assert("tsx"@[0] != "jsx"@[0]);
    assert("tsx"@[0] != "mts"@[0]);
    assert("tsx"@[0] != "cts"@[0]);
    assert("h"@[0] != "c"@[0]);
    assert("go"@[0] != "rs"@[0]);
    assert("go"@[0] != "py"@[0]);
    assert("go"@[0] != "js"@[0]);
    assert("go"@[0] != "ts"@[0]);
}

/// The same text has one parse in a language whose grammar does not ask for the
/// locale, and in every language where it is ASCII throughout.
pub proof fn law_same_text_same_parse(
    lang: Language,
    content: Seq<char>,
    r: Option<Seq<NodeView>>,
    s: Option<Seq<NodeView>>,
)
    requires
        is_parse(lang, content, r),
        is_parse(lang, content, s),
        lang is Python || lang is Dart || lang is C || lang is Go || forall|i: int|
            0 <= i < content.len() ==> (#[trigger] content[i] as int) < 128,
    ensures
        r == s,
{
}

/// A character that leaves the opening of a line open.
pub open spec fn may_open(c: char) -> bool {
    c == ' ' || c == '\t' || c == '\\' || c == '\r' || c == '\u{c}' || c == '\n'
}

/// Between `from` and `to` there is a character that ends the opening of a line.
pub open spec fn has_other(content: Seq<char>, from: int, to: int) -> bool {
    exists|j: int| from <= j < to && !may_open(#[trigger] content[j])
}

/// The columns that a line opens with come from the characters before, at most 8
/// from each.
proof fn lemma_columns_of_blanks(t: Seq<char>) -> (n: int)
    ensures
        0 <= n <= t.len(),
        forall|i: int| t.len() - n <= i < t.len() ==> may_open(#[trigger] t[i]),
        0 <= opening(t).columns <= 8 * n,
        !opening(t).open ==> opening(t).columns == 0,
    decreases t.len(),
{
    if t.len() == 0 {
        0
    } else {
        let init = t.drop_last();
        let n = lemma_columns_of_blanks(init);
        assert forall|i: int| init.len() - n <= i < init.len() implies may_open(#[trigger] t[i]) by {
            assert(init[i] == t[i]);
        }
        if opening(t).columns == 0 {
            0
        } else {
            n + 1
        }
    }
}

/// What is parsed: every text of up to 6806604 bytes, but of Python only where too
/// many levels cannot be open. That is so where no 48 characters in a row are all
/// blanks, backslashes and ends of lines.
pub proof fn law_what_is_parsed(lang: Language, content: Seq<char>, r: Option<Seq<NodeView>>)
    requires
        is_parse(lang, content, r),
    ensures
        utf8::encode_utf8(content).len() > 6_806_604 ==> r is None,
        !(lang is Python) && utf8::encode_utf8(content).len() <= 6_806_604 ==> r is Some,
        utf8::encode_utf8(content).len() <= 6_806_604 && (forall|i: int|
            0 <= i <= content.len() - 48 ==> #[trigger] has_other(content, i, i + 48))
            ==> r is Some,
{
    if utf8::encode_utf8(content).len() <= 6_806_604 && (forall|i: int|
        0 <= i <= content.len() - 48 ==> #[trigger] has_other(content, i, i + 48)) {
        assert forall|k: int| 0 <= k <= content.len() implies opening(
            #[trigger] content.take(k),
        ).columns < 384 by {
            let t = content.take(k);
            let n = lemma_columns_of_blanks(t);
            if n >= 48 {
                let i = k - 48;
                assert(has_other(content, i, i + 48));
                let j = choose|j: int| i <= j < i + 48 && !may_open(#[trigger] content[j]);
                assert(t[j] == content[j]);
            }
        }
        assert(is_shallow(content));
    }
}

/// The language of a file is the one its extension is written for, and the kinds
/// that are listed for it are those of its units.
pub proof fn law_language_and_its_kinds(
    file: &str,
    lang: Option<Language>,
    known: Language,
    kinds: Vec<&'static str>,
    kind: Seq<char>,
)
    requires
        call_ensures(Language::from_path, (file,), lang),
        call_ensures(Language::top_level_node_kinds, (known,), kinds),
    ensures
        path::extension_of(file@) is None ==> lang is None,
        path::extension_of(file@) is Some && written_for(path::extension_of(file@)->0, known)
            ==> lang == Some(known),
        str_texts(kinds@).contains(kind) <==> stands_alone(known, kind),
{
    law_extensions_tell_the_language(file@, known);
    law_listed_kinds_are_these(known, kind);
}

} // verus!
