use crate::path;
use crate::path::component_names;
use crate::syntax;
use crate::syntax::{parse, Language, SyntaxNode};
use crate::text;
use crate::text::{join_lines, same_text, split_lines};
use std::collections::hash_map::DefaultHasher;
use std::hash::Hasher;
use vstd::bytes;
use vstd::prelude::*;
use vstd::std_specs::hash::DefaultHasherAdditionalSpecFns;
use vstd::utf8;

verus! {

/// A stretch of a file that is indexed and returned as one unit.
#[derive(Debug)]
pub struct Chunk {
    pub id: u64,
    /// Path of the file it comes from.
    pub file: String,
    /// First line, counted from 1.
    pub start_line: usize,
    /// Last line, counted from 1.
    pub end_line: usize,
    pub text: String,
}

/// What a `Chunk` holds.
#[verifier::ext_equal]
pub struct ChunkView {
    pub id: u64,
    pub file: Seq<char>,
    pub start_line: usize,
    pub end_line: usize,
    pub text: Seq<char>,
}

impl View for Chunk {
    type V = ChunkView;

    open spec fn view(&self) -> ChunkView {
        ChunkView {
            id: self.id,
            file: self.file@,
            start_line: self.start_line,
            end_line: self.end_line,
            text: self.text@,
        }
    }
}

impl Clone for Chunk {
    fn clone(&self) -> (r: Self)
        ensures
            r@ == self@,
    {
        Chunk {
            id: self.id,
            file: self.file.clone(),
            start_line: self.start_line,
            end_line: self.end_line,
            text: self.text.clone(),
        }
    }
}

/// What a list of chunks holds.
pub open spec fn views(list: Seq<Chunk>) -> Seq<ChunkView> {
    list.map_values(|c: Chunk| c@)
}

/// About four bytes of code make a token; nothing counts as less than one.
pub open spec fn tokens_in(text: Seq<char>) -> int {
    let n = utf8::encode_utf8(text).len() as int / 4;
    if n > 1 {
        n
    } else {
        1
    }
}

impl Chunk {
    /// Estimate of the tokens the text takes, at about four bytes each.
    pub fn token_estimate(&self) -> (r: usize)
        ensures
            r == tokens_in(self.text@),
    {
        let n: usize = self.text.as_str().as_bytes().len() / 4;
        if n > 1 {
            n
        } else {
            1
        }
    }
}

/// Takes one more component of `len` bytes into the running length mix.
pub open spec fn mix_length(bits: u64, len: u64) -> u64 {
    let sum = bits.wrapping_add(len);
    (sum >> 2) | (sum << 62)
}

/// The length mix of a list of components.
pub open spec fn length_mix(names: Seq<Seq<char>>) -> u64
    decreases names.len(),
{
    if names.len() == 0 {
        0
    } else {
        mix_length(
            length_mix(names.drop_last()),
            utf8::encode_utf8(names.last()).len() as u64,
        )
    }
}

/// The bytes a hasher is fed for a path: every component, and then the mix of
/// their lengths, which tells `ab/c` from `a/bc`.
pub open spec fn path_writes(names: Seq<Seq<char>>) -> Seq<Seq<u8>> {
    names.map_values(|c: Seq<char>| utf8::encode_utf8(c)).push(
        bytes::spec_u64_to_le_bytes(length_mix(names)),
    )
}

/// The identifier of the chunk of `file` that starts on line `start`, counted
/// from 0.
pub open spec fn id_of(file: Seq<char>, start: usize) -> u64 {
    DefaultHasher::spec_finish(
        path_writes(path::names(file)).push(bytes::spec_u64_to_le_bytes(start as u64)),
    )
}

/// All of `list` comes from `file`, and each identifier is that of the file and
/// the first line, whatever else the file holds.
pub open spec fn named_by_line(list: Seq<ChunkView>, file: Seq<char>) -> bool {
    forall|k: int|
        #![trigger list[k]]
        0 <= k < list.len() ==> {
            &&& list[k].file == file
            &&& list[k].start_line >= 1
            &&& list[k].id == id_of(file, (list[k].start_line - 1) as usize)
        }
}

/// Identifier of the chunk that starts on line `start` (counted from 0) of
/// `file`: a hash of the components of the path and the line, so it does not
/// change from one run to the next.
pub fn chunk_id(file: &str, start: usize) -> (r: u64)
    ensures
        r == id_of(file@, start),
{
    let names: Vec<String> = component_names(file);
    let ghost all = path::names(file@);
    let mut h: DefaultHasher = DefaultHasher::new();
    let mut bits: u64 = 0;
    let mut i: usize = 0;
    while i < names.len()
        invariant
            i <= names.len(),
            all == text::texts(names@),
            bits == length_mix(all.take(i as int)),
            h@ == all.take(i as int).map_values(|c: Seq<char>| utf8::encode_utf8(c)),
        decreases names.len() - i,
    {
        let part: &[u8] = names[i].as_str().as_bytes();
        h.write(part);
        let sum: u64 = bits.wrapping_add(part.len() as u64);
        bits = (sum >> 2) | (sum << 62);
        proof {
            let next = all.take(i + 1);
            assert(next.drop_last() =~= all.take(i as int));
            assert(next.last() == names@[i as int]@);
            assert(h@ =~= next.map_values(|c: Seq<char>| utf8::encode_utf8(c)));
        }
        i = i + 1;
    }
    assert(all.take(all.len() as int) =~= all);
    let mix: Vec<u8> = bytes::u64_to_le_bytes(bits);
    h.write(mix.as_slice());
    let line: Vec<u8> = bytes::u64_to_le_bytes(start as u64);
    h.write(line.as_slice());
    h.finish()
}

/// The chunk that a syntax node of `content` makes. None where its kind is not
/// one of `kinds`, where it is empty, or where its bytes are not whole
/// characters.
pub open spec fn node_chunk(
    file: Seq<char>,
    content: Seq<char>,
    kinds: Seq<Seq<char>>,
    node: syntax::NodeView,
) -> Option<ChunkView> {
    let all = utf8::encode_utf8(content);
    let start = node.start_byte as int;
    let end = if node.end_byte < all.len() {
        node.end_byte as int
    } else {
        all.len() as int
    };
    if kinds.contains(node.kind) && start < end && utf8::is_char_boundary(all, start)
        && utf8::is_char_boundary(all, end) {
        Some(
            ChunkView {
                id: id_of(file, node.start_row),
                file,
                start_line: (node.start_row + 1) as usize,
                end_line: (node.end_row + 1) as usize,
                text: utf8::decode_utf8(all.subrange(start, end)),
            },
        )
    } else {
        None
    }
}

/// The chunks that the nodes of `content` make, in order.
pub open spec fn node_chunks(
    file: Seq<char>,
    content: Seq<char>,
    kinds: Seq<Seq<char>>,
    nodes: Seq<syntax::NodeView>,
) -> Seq<ChunkView>
    decreases nodes.len(),
{
    if nodes.len() == 0 {
        Seq::empty()
    } else {
        let before = node_chunks(file, content, kinds, nodes.drop_last());
        match node_chunk(file, content, kinds, nodes.last()) {
            Some(c) => before.push(c),
            None => before,
        }
    }
}

/// Whether `kind` is one of `kinds`.
fn is_kind(kinds: &Vec<&'static str>, kind: &str) -> (r: bool)
    ensures
        r == syntax::str_texts(kinds@).contains(kind@),
{
    let mut i: usize = 0;
    while i < kinds.len()
        invariant
            i <= kinds.len(),
            forall|k: int| 0 <= k < i ==> #[trigger] kinds@[k]@ != kind@,
        decreases kinds.len() - i,
    {
        if same_text(kinds[i], kind) {
            assert(syntax::str_texts(kinds@)[i as int] == kind@);
            return true;
        }
        i = i + 1;
    }
    assert forall|k: int| 0 <= k < kinds.len() implies syntax::str_texts(kinds@)[k] != kind@ by {
        assert(syntax::str_texts(kinds@)[k] == kinds@[k]@);
    }
    false
}

/// A boundary of a text is one of a prefix that holds the byte behind it.
proof fn lemma_boundary_of_prefix(all: Seq<u8>, start: int, end: int)
    requires
        utf8::valid_utf8(all),
        0 <= start < end <= all.len(),
        utf8::is_char_boundary(all, start),
        utf8::is_char_boundary(all, end),
    ensures
        utf8::valid_utf8(all.subrange(0, end)),
        utf8::is_char_boundary(all.subrange(0, end), start),
{
    utf8::valid_utf8_split(all, end);
    utf8::is_char_boundary_iff_not_is_continuation_byte(all, start);
    utf8::is_char_boundary_iff_not_is_continuation_byte(all.subrange(0, end), start);
    assert(all.subrange(0, end)[start] == all[start]);
}

/// The bytes of `content` from `start` to `end`, where these are whole characters.
fn slice_text(content: &str, start: usize, end: usize) -> (r: Option<String>)
    requires
        start < end <= utf8::encode_utf8(content@).len(),
    ensures
        ({
            let all = utf8::encode_utf8(content@);
            if utf8::is_char_boundary(all, start as int) && utf8::is_char_boundary(
                all,
                end as int,
            ) {
                r is Some && r->0@ == utf8::decode_utf8(all.subrange(start as int, end as int))
            } else {
                r is None
            }
        }),
{
    let ghost all = utf8::encode_utf8(content@);
    if !content.is_char_boundary(start) || !content.is_char_boundary(end) {
        return None;
    }
    proof {
        utf8::encode_utf8_valid_utf8(content@);
        lemma_boundary_of_prefix(all, start as int, end as int);
    }
    let head: &str = content.split_at(end).0;
    let part: &str = head.split_at(start).1;
    proof {
        assert(all.subrange(0, end as int).subrange(start as int, end as int) =~= all.subrange(
            start as int,
            end as int,
        ));
        utf8::encode_utf8_decode_utf8(part@);
    }
    Some(part.to_owned())
}

/// The chunks that the syntax nodes of `content` make: each node of one of
/// `kinds`, whole.
pub fn chunk_nodes(
    file: &str,
    content: &str,
    kinds: &Vec<&'static str>,
    nodes: &Vec<SyntaxNode>,
) -> (r: Vec<Chunk>)
    requires
        syntax::rows_countable(syntax::node_views(nodes@)),
    ensures
        views(r@) == node_chunks(
            file@,
            content@,
            syntax::str_texts(kinds@),
            syntax::node_views(nodes@),
        ),
{
    let ghost wanted = syntax::str_texts(kinds@);
    let ghost all = syntax::node_views(nodes@);
    let len: usize = content.as_bytes().len();
    let mut out: Vec<Chunk> = Vec::new();
    let mut i: usize = 0;
    assert(views(out@) =~= node_chunks(file@, content@, wanted, all.take(0)));
    while i < nodes.len()
        invariant
            i <= nodes.len(),
            wanted == syntax::str_texts(kinds@),
            all == syntax::node_views(nodes@),
            syntax::rows_countable(all),
            len == utf8::encode_utf8(content@).len(),
            views(out@) == node_chunks(file@, content@, wanted, all.take(i as int)),
        decreases nodes.len() - i,
    {
        let node: &SyntaxNode = &nodes[i];
        let ghost before = out@;
        proof {
            assert(all[i as int] == node@);
            assert(all.take(i + 1).drop_last() =~= all.take(i as int));
            assert(all.take(i + 1).last() == node@);
        }
        let end: usize = if node.end_byte < len {
            node.end_byte
        } else {
            len
        };
        if is_kind(kinds, node.kind.as_str()) && node.start_byte < end {
            match slice_text(content, node.start_byte, end) {
                Some(text) => {
                    let chunk = Chunk {
                        id: chunk_id(file, node.start_row),
                        file: file.to_owned(),
                        start_line: node.start_row + 1,
                        end_line: node.end_row + 1,
                        text,
                    };
                    out.push(chunk);
                    assert(views(out@) =~= views(before).push(chunk@));
                },
                None => {},
            }
        }
        i = i + 1;
    }
    assert(all.take(all.len() as int) =~= all);
    out
}

proof fn lemma_nodes_named(
    file: Seq<char>,
    content: Seq<char>,
    kinds: Seq<Seq<char>>,
    nodes: Seq<syntax::NodeView>,
)
    requires
        syntax::rows_countable(nodes),
    ensures
        named_by_line(node_chunks(file, content, kinds, nodes), file),
    decreases nodes.len(),
{
    if nodes.len() > 0 {
        let init = nodes.drop_last();
        assert forall|i: int| #![trigger init[i]] 0 <= i < init.len() implies init[i].start_row
            < usize::MAX && init[i].end_row < usize::MAX by {
            assert(init[i] == nodes[i]);
        }
        lemma_nodes_named(file, content, kinds, init);
        assert(nodes.last() == nodes[nodes.len() - 1]);
    }
}

/// The chunks that a parse of `content` makes; none where nothing in it makes a
/// chunk.
pub open spec fn parsed_chunks(
    file: Seq<char>,
    content: Seq<char>,
    lang: Language,
    parsed: Option<Seq<syntax::NodeView>>,
) -> Option<Seq<ChunkView>> {
    match parsed {
        Some(nodes) => {
            let list = node_chunks(file, content, syntax::kinds_of(lang), nodes);
            if list.len() > 0 {
                Some(list)
            } else {
                None
            }
        },
        None => None,
    }
}

/// `r` holds the chunks of `content` by syntax: those that a parse of it makes.
pub open spec fn is_syntax_cut(
    file: Seq<char>,
    content: Seq<char>,
    lang: Language,
    r: Option<Seq<ChunkView>>,
) -> bool {
    exists|parsed: Option<Seq<syntax::NodeView>>| #[trigger]
        syntax::is_parse(lang, content, parsed) && r == parsed_chunks(file, content, lang, parsed)
}

/// What an optional list of chunks holds.
pub open spec fn opt_views(r: Option<Vec<Chunk>>) -> Option<Seq<ChunkView>> {
    match r {
        Some(list) => Some(views(list@)),
        None => None,
    }
}

/// The chunks of `content` by the syntax of `lang`.
pub fn chunk_with_ast(file: &str, content: &str, lang: Language) -> (r: Option<Vec<Chunk>>)
    ensures
        is_syntax_cut(file@, content@, lang, opt_views(r)),
        r is Some ==> named_by_line(views(r->0@), file@),
{
    let parsed: Option<Vec<SyntaxNode>> = parse(lang, content);
    assert(syntax::is_parse(lang, content@, syntax::found(parsed)));
    match parsed {
        Some(nodes) => {
            let kinds: Vec<&'static str> = lang.top_level_node_kinds();
            let list: Vec<Chunk> = chunk_nodes(file, content, &kinds, &nodes);
            proof {
                assert(views(list@).len() == list@.len());
                lemma_nodes_named(
                    file@,
                    content@,
                    syntax::str_texts(kinds@),
                    syntax::node_views(nodes@),
                );
            }
            if list.len() == 0 {
                None
            } else {
                Some(list)
            }
        },
        None => None,
    }
}

/// The chunks of `content` by syntax; none where the file has no grammar or
/// nothing in it makes a chunk. Falling back is left to the caller.
pub fn chunk_file_ast(file: &str, content: &str) -> (r: Option<Vec<Chunk>>)
    ensures
        match syntax::path_language(file@) {
            Some(lang) => is_syntax_cut(file@, content@, lang, opt_views(r)),
            None => r is None,
        },
        r is Some ==> named_by_line(views(r->0@), file@),
{
    match Language::from_path(file) {
        Some(lang) => chunk_with_ast(file, content, lang),
        None => None,
    }
}

/// Where a window of `size` lines that starts on line `i` ends.
pub open spec fn window_end(count: int, size: int, i: int) -> int {
    if i + size < count {
        i + size
    } else {
        count
    }
}

/// How far one window starts behind the one before it.
pub open spec fn stride(size: int, overlap: int) -> int {
    if size - overlap > 1 {
        size - overlap
    } else {
        1
    }
}

/// The chunk of the window of `size` lines that starts on line `i`.
pub open spec fn window_chunk(
    file: Seq<char>,
    lines: Seq<Seq<char>>,
    size: int,
    i: int,
) -> ChunkView {
    let end = window_end(lines.len() as int, size, i);
    ChunkView {
        id: id_of(file, i as usize),
        file,
        start_line: (i + 1) as usize,
        end_line: end as usize,
        text: text::joined_lines(lines.subrange(i, end)),
    }
}

/// The windows from line `i` on: each starts `step` lines behind the one
/// before it, and the first that reaches the last line is the last.
pub open spec fn window_chunks(
    file: Seq<char>,
    lines: Seq<Seq<char>>,
    size: int,
    step: int,
    i: int,
) -> Seq<ChunkView>
    decreases vstd::math::max(lines.len() - i, 0),
{
    if i >= lines.len() || step < 1 {
        Seq::empty()
    } else if window_end(lines.len() as int, size, i) == lines.len() {
        seq![window_chunk(file, lines, size, i)]
    } else {
        seq![window_chunk(file, lines, size, i)] + window_chunks(file, lines, size, step, i + step)
    }
}

/// The chunks of `content` by lines: windows of `size` lines that share
/// `overlap` lines with the next.
pub open spec fn line_chunks(
    file: Seq<char>,
    content: Seq<char>,
    size: int,
    overlap: int,
) -> Seq<ChunkView> {
    window_chunks(file, text::lines(content), size, stride(size, overlap), 0)
}

proof fn lemma_windows_named(
    file: Seq<char>,
    lines: Seq<Seq<char>>,
    size: int,
    step: int,
    i: int,
)
    requires
        0 <= i,
        lines.len() <= usize::MAX,
    ensures
        named_by_line(window_chunks(file, lines, size, step, i), file),
    decreases vstd::math::max(lines.len() - i, 0),
{
    if i < lines.len() && step >= 1 && window_end(lines.len() as int, size, i) != lines.len() {
        lemma_windows_named(file, lines, size, step, i + step);
    }
}

/// Cuts `content` into windows of `lines_per_chunk` lines, each sharing
/// `overlap` lines with the next.
pub fn chunk_lines(file: &str, content: &str, lines_per_chunk: usize, overlap: usize) -> (r: Vec<
    Chunk,
>)
    ensures
        views(r@) == line_chunks(file@, content@, lines_per_chunk as int, overlap as int),
        named_by_line(views(r@), file@),
{
    let lines: Vec<String> = split_lines(content);
    let ghost all = text::lines(content@);
    let ghost size = lines_per_chunk as int;
    let step: usize = if lines_per_chunk > overlap && lines_per_chunk - overlap > 1 {
        lines_per_chunk - overlap
    } else {
        1
    };
    let mut out: Vec<Chunk> = Vec::new();
    let mut i: usize = 0;
    let mut done: bool = false;
    assert(text::texts(lines@).len() == lines@.len());
    assert(views(out@) + window_chunks(file@, all, size, step as int, 0) =~= window_chunks(
        file@,
        all,
        size,
        step as int,
        0,
    ));
    while !done && i < lines.len()
        invariant
            all == text::texts(lines@),
            all.len() == lines@.len(),
            size == lines_per_chunk,
            step == stride(size, overlap as int),
            i <= lines.len(),
            done ==> views(out@) == window_chunks(file@, all, size, step as int, 0),
            !done ==> views(out@) + window_chunks(file@, all, size, step as int, i as int)
                == window_chunks(file@, all, size, step as int, 0),
        decreases lines.len() - i + (if done { 0int } else { 1 }),
    {
        let end: usize = if lines_per_chunk < lines.len() - i {
            i + lines_per_chunk
        } else {
            lines.len()
        };
        assert(end == window_end(all.len() as int, size, i as int));
        let ghost before = out@;
        let chunk = Chunk {
            id: chunk_id(file, i),
            file: file.to_owned(),
            start_line: i + 1,
            end_line: end,
            text: join_lines(&lines, i, end),
        };
        out.push(chunk);
        proof {
            assert(chunk@ == window_chunk(file@, all, size, i as int));
            assert(views(out@) =~= views(before).push(chunk@));
        }
        if end == lines.len() {
            done = true;
            assert(views(out@) =~= views(before) + seq![chunk@]);
        } else {
            assert(views(before) + (seq![chunk@] + window_chunks(
                file@,
                all,
                size,
                step as int,
                i + step,
            )) =~= views(out@) + window_chunks(file@, all, size, step as int, i + step));
            i = i + step;
        }
    }
    proof {
        if !done {
            assert(views(out@) + window_chunks(file@, all, size, step as int, i as int) =~= views(
                out@,
            ));
        }
        lemma_windows_named(file@, all, size, step as int, 0);
    }
    out
}

/// The chunks by syntax where there are any, by lines otherwise.
pub open spec fn cut_or_lines(
    cut: Option<Seq<ChunkView>>,
    file: Seq<char>,
    content: Seq<char>,
    size: int,
    overlap: int,
) -> Seq<ChunkView> {
    match cut {
        Some(list) => list,
        None => line_chunks(file, content, size, overlap),
    }
}

/// `r` holds the chunks of a file: by syntax where there is a grammar and
/// something in the file makes a chunk, by lines otherwise.
pub open spec fn is_file_cut(
    file: Seq<char>,
    content: Seq<char>,
    size: int,
    overlap: int,
    r: Seq<ChunkView>,
) -> bool {
    if content.len() == 0 {
        r.len() == 0
    } else {
        match syntax::path_language(file) {
            Some(lang) => exists|cut: Option<Seq<ChunkView>>| #[trigger]
                is_syntax_cut(file, content, lang, cut) && r == cut_or_lines(
                    cut,
                    file,
                    content,
                    size,
                    overlap,
                ),
            None => r == line_chunks(file, content, size, overlap),
        }
    }
}

/// Cuts a file with the given content into chunks: by syntax where there is a
/// grammar and something in the file makes a chunk, by lines otherwise.
pub fn chunk_file(file: &str, content: &str, lines_per_chunk: usize, overlap: usize) -> (r: Vec<
    Chunk,
>)
    ensures
        is_file_cut(
            file@,
            content@,
            lines_per_chunk as int,
            overlap as int,
            views(r@),
        ),
        named_by_line(views(r@), file@),
{
    if content.is_empty() {
        let none: Vec<Chunk> = Vec::new();
        assert(views(none@) =~= Seq::<ChunkView>::empty());
        return none;
    }
    let cut: Option<Vec<Chunk>> = chunk_file_ast(file, content);
    let ghost by_syntax = opt_views(cut);
    let r: Vec<Chunk> = match cut {
        Some(list) => list,
        None => chunk_lines(file, content, lines_per_chunk, overlap),
    };
    proof {
        let size = lines_per_chunk as int;
        assert(views(r@) == cut_or_lines(by_syntax, file@, content@, size, overlap as int));
        if let Some(lang) = syntax::path_language(file@) {
            assert(is_syntax_cut(file@, content@, lang, by_syntax));
        }
    }
    r
}

/// Cutting a file again gives the same chunks where the parser depends on the
/// text alone: where the file has no grammar, one that does not go by the
/// locale of the process, or ASCII text.
pub proof fn law_same_content_same_chunks(
    file: Seq<char>,
    content: Seq<char>,
    size: int,
    overlap: int,
    a: Seq<ChunkView>,
    b: Seq<ChunkView>,
)
    requires
        is_file_cut(file, content, size, overlap, a),
        is_file_cut(file, content, size, overlap, b),
        match syntax::path_language(file) {
            Some(lang) => syntax::is_settled(lang, content),
            None => true,
        },
    ensures
        a == b,
{
    if content.len() == 0 {
        assert(a =~= b);
    }
}

/// Identifiers are stable: chunks of one file that start on the same line have
/// the same one, whatever content and sizes they come from.
pub proof fn law_same_line_same_id(
    file: Seq<char>,
    a: Seq<ChunkView>,
    b: Seq<ChunkView>,
    i: int,
    j: int,
)
    requires
        named_by_line(a, file),
        named_by_line(b, file),
        0 <= i < a.len(),
        0 <= j < b.len(),
        a[i].start_line == b[j].start_line,
    ensures
        a[i].id == b[j].id,
{
}

/// Where a chunk by syntax comes from: the node that makes it.
spec fn is_made_by(
    file: Seq<char>,
    content: Seq<char>,
    kinds: Seq<Seq<char>>,
    nodes: Seq<syntax::NodeView>,
    c: ChunkView,
    n: int,
) -> bool {
    0 <= n < nodes.len() && node_chunk(file, content, kinds, nodes[n]) == Some(c)
}

/// Each chunk by syntax is made by a node, and those of later chunks come later.
proof fn lemma_makers(
    file: Seq<char>,
    content: Seq<char>,
    kinds: Seq<Seq<char>>,
    nodes: Seq<syntax::NodeView>,
) -> (makers: Seq<int>)
    ensures
        makers.len() == node_chunks(file, content, kinds, nodes).len(),
        forall|k: int|
            #![trigger makers[k]]
            0 <= k < makers.len() ==> is_made_by(
                file,
                content,
                kinds,
                nodes,
                node_chunks(file, content, kinds, nodes)[k],
                makers[k],
            ),
        forall|k: int, l: int|
            #![trigger makers[k], makers[l]]
            0 <= k < l < makers.len() ==> makers[k] < makers[l],
    decreases nodes.len(),
{
    if nodes.len() == 0 {
        Seq::empty()
    } else {
        let init = nodes.drop_last();
        let before = lemma_makers(file, content, kinds, init);
        let list = node_chunks(file, content, kinds, nodes);
        let all = match node_chunk(file, content, kinds, nodes.last()) {
            Some(c) => before.push(nodes.len() - 1),
            None => before,
        };
        assert forall|k: int| #![trigger all[k]] 0 <= k < all.len() implies is_made_by(
            file,
            content,
            kinds,
            nodes,
            list[k],
            all[k],
        ) by {
            if k < before.len() {
                assert(all[k] == before[k]);
                assert(init[before[k]] == nodes[before[k]]);
            }
        }
        assert forall|k: int, l: int|
            #![trigger all[k], all[l]]
            0 <= k < l < all.len() implies all[k] < all[l] by {
            assert(all[k] == before[k]);
            assert(is_made_by(
                file,
                content,
                kinds,
                init,
                node_chunks(file, content, kinds, init)[k],
                before[k],
            ));
        }
        all
    }
}

/// The line of a later byte is not an earlier one.
proof fn lemma_line_feeds(bytes: Seq<u8>, a: int, b: int)
    requires
        0 <= a <= b <= bytes.len(),
    ensures
        0 <= syntax::line_feeds(bytes.take(a)) <= syntax::line_feeds(bytes.take(b)),
    decreases b,
{
    if b > 0 {
        assert(bytes.take(b).drop_last() =~= bytes.take(b - 1));
        if a < b {
            lemma_line_feeds(bytes, a, b - 1);
        } else {
            lemma_line_feeds(bytes, a - 1, b - 1);
        }
    }
}

/// Chunks by syntax come in the order of the text and do not overlap: none ends
/// before it starts, and each starts on the line where the one before it ends
/// or further down.
pub proof fn law_syntax_chunks_come_in_order(
    file: Seq<char>,
    content: Seq<char>,
    lang: Language,
    r: Seq<ChunkView>,
)
    requires
        is_syntax_cut(file, content, lang, Some(r)),
    ensures
        forall|k: int| 0 <= k < r.len() ==> (#[trigger] r[k]).start_line <= r[k].end_line,
        forall|k: int, l: int|
            #![trigger r[k], r[l]]
            0 <= k < l < r.len() ==> r[k].end_line <= r[l].start_line,
{
    let parsed = choose|parsed: Option<Seq<syntax::NodeView>>| #[trigger]
        syntax::is_parse(lang, content, parsed) && Some(r) == parsed_chunks(
            file,
            content,
            lang,
            parsed,
        );
    syntax::lemma_rows_countable(lang, content, parsed);
    let nodes = parsed->0;
    let kinds = syntax::kinds_of(lang);
    let all = utf8::encode_utf8(content);
    let makers = lemma_makers(file, content, kinds, nodes);
    assert forall|k: int| 0 <= k < r.len() implies (#[trigger] r[k]).start_line <= r[k].end_line by {
        let n = makers[k];
        assert(is_made_by(file, content, kinds, nodes, r[k], n));
        lemma_line_feeds(all, nodes[n].start_byte as int, nodes[n].end_byte as int);
    }
    assert forall|k: int, l: int| #![trigger r[k], r[l]] 0 <= k < l < r.len() implies r[k].end_line
        <= r[l].start_line by {
        let n = makers[k];
        let m = makers[l];
        assert(is_made_by(file, content, kinds, nodes, r[k], n));
        assert(is_made_by(file, content, kinds, nodes, r[l], m));
        assert(nodes[n].end_byte <= nodes[m].start_byte);
        lemma_line_feeds(all, nodes[n].end_byte as int, nodes[m].start_byte as int);
    }
}

/// Every line from `i` on is in a window.
proof fn lemma_windows_cover(
    file: Seq<char>,
    lines: Seq<Seq<char>>,
    size: int,
    step: int,
    i: int,
    line: int,
)
    requires
        1 <= step <= size,
        0 <= i <= line < lines.len() <= usize::MAX,
    ensures
        exists|k: int|
            0 <= k < window_chunks(file, lines, size, step, i).len() && #[trigger] window_chunks(
                file,
                lines,
                size,
                step,
                i,
            )[k].start_line <= line + 1 <= window_chunks(file, lines, size, step, i)[k].end_line,
    decreases lines.len() - i,
{
    let all = window_chunks(file, lines, size, step, i);
    let end = window_end(lines.len() as int, size, i);
    if line < end {
        assert(all[0] == window_chunk(file, lines, size, i));
        assert(all[0].start_line <= line + 1 <= all[0].end_line);
    } else {
        lemma_windows_cover(file, lines, size, step, i + step, line);
        let rest = window_chunks(file, lines, size, step, i + step);
        let k = choose|k: int|
            0 <= k < rest.len() && #[trigger] rest[k].start_line <= line + 1 <= rest[k].end_line;
        assert(all[k + 1] == rest[k]);
    }
}

/// Cutting by lines loses no line: every line of the content, counted from 0,
/// is in some chunk, as long as a chunk takes at least one line.
pub proof fn law_lines_are_covered(
    file: Seq<char>,
    content: Seq<char>,
    size: usize,
    overlap: usize,
    line: int,
)
    requires
        size >= 1,
        0 <= line < text::lines(content).len() <= usize::MAX,
    ensures
        exists|k: int|
            0 <= k < line_chunks(file, content, size as int, overlap as int).len()
                && #[trigger] line_chunks(file, content, size as int, overlap as int)[k].start_line
                <= line + 1 <= line_chunks(file, content, size as int, overlap as int)[k].end_line,
{
    let all = line_chunks(file, content, size as int, overlap as int);
    lemma_windows_cover(
        file,
        text::lines(content),
        size as int,
        stride(size as int, overlap as int),
        0,
        line,
    );
    let k = choose|k: int|
        0 <= k < all.len() && #[trigger] all[k].start_line <= line + 1 <= all[k].end_line;
    assert(all[k].start_line <= line + 1 <= all[k].end_line);
}

/// The `k`-th window starts `k` steps behind the first.
proof fn lemma_window_at(
    file: Seq<char>,
    lines: Seq<Seq<char>>,
    size: int,
    step: int,
    i: int,
    k: int,
)
    requires
        step >= 1,
        0 <= i,
        0 <= k < window_chunks(file, lines, size, step, i).len(),
    ensures
        i + k * step < lines.len(),
        window_chunks(file, lines, size, step, i)[k] == window_chunk(
            file,
            lines,
            size,
            i + k * step,
        ),
    decreases k,
{
    if k > 0 {
        lemma_window_at(file, lines, size, step, i + step, k - 1);
        assert(i + step + (k - 1) * step == i + k * step) by (nonlinear_arith);
        assert(window_chunks(file, lines, size, step, i)[k] == window_chunks(
            file,
            lines,
            size,
            step,
            i + step,
        )[k - 1]);
    } else {
        assert(0 * step == 0) by (nonlinear_arith);
    }
}

/// Chunks by lines stand at regular distances: each starts a stride behind the
/// one before it, and its identifier is that of its first line.
pub proof fn law_windows_are_regular(
    file: Seq<char>,
    content: Seq<char>,
    size: usize,
    overlap: usize,
    k: int,
)
    requires
        0 <= k < line_chunks(file, content, size as int, overlap as int).len(),
    ensures
        line_chunks(file, content, size as int, overlap as int)[k] == window_chunk(
            file,
            text::lines(content),
            size as int,
            k * stride(size as int, overlap as int),
        ),
{
    lemma_window_at(
        file,
        text::lines(content),
        size as int,
        stride(size as int, overlap as int),
        0,
        k,
    );
}

/// Line feeds of a stretch are those up to its end less those up to its start.
proof fn lemma_line_feeds_between(bytes: Seq<u8>, a: int, b: int)
    requires
        0 <= a <= b <= bytes.len(),
    ensures
        syntax::line_feeds(bytes.subrange(a, b)) == syntax::line_feeds(bytes.take(b))
            - syntax::line_feeds(bytes.take(a)),
    decreases b - a,
{
    if a == b {
        assert(bytes.subrange(a, b).len() == 0);
    } else {
        lemma_line_feeds_between(bytes, a, b - 1);
        assert(bytes.subrange(a, b).drop_last() =~= bytes.subrange(a, b - 1));
        assert(bytes.take(b).drop_last() =~= bytes.take(b - 1));
    }
}

/// A stretch between two boundaries holds whole characters.
proof fn lemma_stretch_is_valid(all: Seq<u8>, a: int, b: int)
    requires
        utf8::valid_utf8(all),
        0 <= a < b <= all.len(),
        utf8::is_char_boundary(all, a),
        utf8::is_char_boundary(all, b),
    ensures
        utf8::valid_utf8(all.subrange(a, b)),
{
    lemma_boundary_of_prefix(all, a, b);
    let head = all.subrange(0, b);
    utf8::valid_utf8_split(head, a);
    assert(head.subrange(a, head.len() as int) =~= all.subrange(a, b));
}

/// `c` is the stretch of the file that the node spans, whole: its bytes, its lines
/// from the first to the last, the file it comes from, and the identifier of the
/// file and the first line.
pub open spec fn is_whole_stretch(
    file: Seq<char>,
    content: Seq<char>,
    node: syntax::NodeView,
    c: ChunkView,
) -> bool {
    let all = utf8::encode_utf8(content);
    &&& 0 <= node.start_byte < node.end_byte <= all.len()
    &&& utf8::encode_utf8(c.text) == all.subrange(node.start_byte as int, node.end_byte as int)
    &&& c.start_line == syntax::line_feeds(all.take(node.start_byte as int)) + 1
    &&& c.end_line == syntax::line_feeds(all.take(node.end_byte as int)) + 1
    &&& syntax::line_feeds(utf8::encode_utf8(c.text)) == c.end_line - c.start_line
    &&& c.file == file
    &&& c.id == id_of(file, (c.start_line - 1) as usize)
}

/// The node is a unit of its own: its kind is listed, it is not empty, and it
/// starts and ends between characters.
pub open spec fn is_unit(content: Seq<char>, lang: Language, node: syntax::NodeView) -> bool {
    let all = utf8::encode_utf8(content);
    &&& syntax::kinds_of(lang).contains(node.kind)
    &&& node.start_byte < node.end_byte
    &&& utf8::is_char_boundary(all, node.start_byte as int)
    &&& utf8::is_char_boundary(all, node.end_byte as int)
}

/// Each of `nodes` that makes a chunk has it in the list.
proof fn lemma_node_has_chunk(
    file: Seq<char>,
    content: Seq<char>,
    kinds: Seq<Seq<char>>,
    nodes: Seq<syntax::NodeView>,
    n: int,
)
    requires
        0 <= n < nodes.len(),
        node_chunk(file, content, kinds, nodes[n]) is Some,
    ensures
        node_chunks(file, content, kinds, nodes).contains(
            node_chunk(file, content, kinds, nodes[n])->0,
        ),
    decreases nodes.len(),
{
    let init = nodes.drop_last();
    let list = node_chunks(file, content, kinds, nodes);
    let before = node_chunks(file, content, kinds, init);
    if n < init.len() {
        assert(init[n] == nodes[n]);
        lemma_node_has_chunk(file, content, kinds, init, n);
        let c = node_chunk(file, content, kinds, nodes[n])->0;
        let k = choose|k: int| 0 <= k < before.len() && before[k] == c;
        assert(list[k] == c);
    } else {
        assert(list[before.len() as int] == node_chunk(file, content, kinds, nodes[n])->0);
    }
}

/// What a node makes is the stretch that it spans, whole.
proof fn lemma_chunk_is_stretch(
    file: Seq<char>,
    content: Seq<char>,
    lang: Language,
    nodes: Seq<syntax::NodeView>,
    n: int,
)
    requires
        0 <= n < nodes.len(),
        syntax::lie_in(nodes, content),
        syntax::rows_countable(nodes),
    ensures
        node_chunk(file, content, syntax::kinds_of(lang), nodes[n]) is Some <==> is_unit(
            content,
            lang,
            nodes[n],
        ),
        is_unit(content, lang, nodes[n]) ==> is_whole_stretch(
            file,
            content,
            nodes[n],
            node_chunk(file, content, syntax::kinds_of(lang), nodes[n])->0,
        ),
{
    let all = utf8::encode_utf8(content);
    let node = nodes[n];
    let a = node.start_byte as int;
    let b = node.end_byte as int;
    utf8::encode_utf8_valid_utf8(content);
    if is_unit(content, lang, node) {
        lemma_stretch_is_valid(all, a, b);
        utf8::decode_utf8_encode_utf8(all.subrange(a, b));
        lemma_line_feeds_between(all, a, b);
    }
}

/// Files are cut into whole units: each chunk is the stretch that a unit of the
/// parse spans, byte for byte, with the lines that it takes, in the order of the
/// text.
pub proof fn law_units_are_cut_whole(
    file: Seq<char>,
    content: Seq<char>,
    lang: Language,
    r: Seq<ChunkView>,
)
    requires
        is_syntax_cut(file, content, lang, Some(r)),
    ensures
        exists|nodes: Seq<syntax::NodeView>, at: Seq<int>|
            {
                &&& #[trigger] syntax::is_parse(lang, content, Some(nodes))
                &&& #[trigger] at.len() == r.len()
                &&& forall|k: int|
                    #![trigger at[k]]
                    0 <= k < at.len() ==> {
                        &&& 0 <= at[k] < nodes.len()
                        &&& is_unit(content, lang, nodes[at[k]])
                        &&& is_whole_stretch(file, content, nodes[at[k]], r[k])
                    }
                &&& forall|k: int, l: int|
                    #![trigger at[k], at[l]]
                    0 <= k < l < at.len() ==> at[k] < at[l]
                &&& forall|n: int|
                    #![trigger nodes[n]]
                    0 <= n < nodes.len() && is_unit(content, lang, nodes[n]) ==> exists|k: int|
                        #![trigger r[k]]
                        0 <= k < r.len() && is_whole_stretch(file, content, nodes[n], r[k])
            },
{
    let parsed = choose|parsed: Option<Seq<syntax::NodeView>>| #[trigger]
        syntax::is_parse(lang, content, parsed) && Some(r) == parsed_chunks(
            file,
            content,
            lang,
            parsed,
        );
    syntax::lemma_rows_countable(lang, content, parsed);
    let nodes = parsed->0;
    let kinds = syntax::kinds_of(lang);
    let at = lemma_makers(file, content, kinds, nodes);
    assert forall|k: int| #![trigger at[k]] 0 <= k < at.len() implies {
        &&& 0 <= at[k] < nodes.len()
        &&& is_unit(content, lang, nodes[at[k]])
        &&& is_whole_stretch(file, content, nodes[at[k]], r[k])
    } by {
        assert(is_made_by(file, content, kinds, nodes, r[k], at[k]));
        lemma_chunk_is_stretch(file, content, lang, nodes, at[k]);
    }
    assert forall|n: int|
        #![trigger nodes[n]]
        0 <= n < nodes.len() && is_unit(content, lang, nodes[n]) implies exists|k: int|
        #![trigger r[k]]
        0 <= k < r.len() && is_whole_stretch(file, content, nodes[n], r[k]) by {
        lemma_chunk_is_stretch(file, content, lang, nodes, n);
        lemma_node_has_chunk(file, content, kinds, nodes, n);
        let c = node_chunk(file, content, kinds, nodes[n])->0;
        let k = choose|k: int| 0 <= k < r.len() && r[k] == c;
        assert(is_whole_stretch(file, content, nodes[n], r[k]));
    }
    assert(syntax::is_parse(lang, content, Some(nodes)));
    assert(at.len() == r.len());
}

/// A file is not cut by syntax only where the parser cannot take it, or where its
/// parse has no unit.
pub proof fn law_no_cut_without_reason(
    file: Seq<char>,
    content: Seq<char>,
    lang: Language,
)
    requires
        is_syntax_cut(file, content, lang, None),
        syntax::is_parsable(lang, content),
    ensures
        exists|nodes: Seq<syntax::NodeView>| #[trigger]
            syntax::is_parse(lang, content, Some(nodes)) && forall|n: int|
                0 <= n < nodes.len() ==> !is_unit(content, lang, #[trigger] nodes[n]),
{
    let parsed = choose|parsed: Option<Seq<syntax::NodeView>>| #[trigger]
        syntax::is_parse(lang, content, parsed) && None::<Seq<ChunkView>> == parsed_chunks(
            file,
            content,
            lang,
            parsed,
        );
    syntax::lemma_rows_countable(lang, content, parsed);
    let nodes = parsed->0;
    let kinds = syntax::kinds_of(lang);
    assert forall|n: int| 0 <= n < nodes.len() implies !is_unit(
        content,
        lang,
        #[trigger] nodes[n],
    ) by {
        lemma_chunk_is_stretch(file, content, lang, nodes, n);
        if is_unit(content, lang, nodes[n]) {
            lemma_node_has_chunk(file, content, kinds, nodes, n);
        }
    }
    assert(syntax::is_parse(lang, content, Some(nodes)));
}

/// A file is cut by syntax where that gives chunks, and by lines where it does not
/// or where the file has no grammar; an empty file has none.
pub proof fn law_syntax_comes_before_lines(
    file: Seq<char>,
    content: Seq<char>,
    size: int,
    overlap: int,
    r: Seq<ChunkView>,
)
    requires
        is_file_cut(file, content, size, overlap, r),
    ensures
        content.len() == 0 ==> r.len() == 0,
        content.len() > 0 && syntax::path_language(file) is None ==> r == line_chunks(
            file,
            content,
            size,
            overlap,
        ),
        content.len() > 0 && syntax::path_language(file) is Some ==> {
            ||| is_syntax_cut(file, content, syntax::path_language(file)->0, Some(r))
            ||| is_syntax_cut(file, content, syntax::path_language(file)->0, None) && r
                == line_chunks(file, content, size, overlap)
        },
{
    if content.len() > 0 && syntax::path_language(file) is Some {
        let lang = syntax::path_language(file)->0;
        let cut = choose|cut: Option<Seq<ChunkView>>| #[trigger]
            is_syntax_cut(file, content, lang, cut) && r == cut_or_lines(
                cut,
                file,
                content,
                size,
                overlap,
            );
        assert(is_syntax_cut(file, content, lang, cut));
    }
}

/// Chunks by lines are windows: the first starts on the first line, each next one
/// as many lines further as a window has beyond the overlap, and at least one.
/// Each takes `size` lines or what is left, and the text of these lines. Only the
/// last reaches the end.
pub proof fn law_windows_take_their_lines(
    file: Seq<char>,
    content: Seq<char>,
    size: usize,
    overlap: usize,
    k: int,
)
    requires
        text::lines(content).len() <= usize::MAX,
        0 <= k < line_chunks(file, content, size as int, overlap as int).len(),
    ensures
        ({
            let all = line_chunks(file, content, size as int, overlap as int);
            let n = text::lines(content).len() as int;
            let step = if size > overlap {
                size - overlap
            } else {
                1int
            };
            let from = k * step;
            let to = if from + size < n {
                from + size
            } else {
                n
            };
            &&& 0 <= from < n
            &&& all[k].file == file
            &&& all[k].id == id_of(file, from as usize)
            &&& all[k].start_line == from + 1
            &&& all[k].end_line == to
            &&& all[k].text == text::joined_lines(text::lines(content).subrange(from, to))
            &&& (k + 1 == all.len() <==> to == n || from + step >= n)
        }),
{
    let rows = text::lines(content);
    let n = rows.len() as int;
    let step = stride(size as int, overlap as int);
    lemma_window_at(file, rows, size as int, step, 0, k);
    assert(0 <= k * step) by (nonlinear_arith)
        requires
            0 <= k,
            1 <= step,
    ;
    lemma_window_count(file, rows, size as int, step, 0, k);
}

/// The last window is the first that reaches the end, or behind which none starts.
proof fn lemma_window_count(
    file: Seq<char>,
    lines: Seq<Seq<char>>,
    size: int,
    step: int,
    i: int,
    k: int,
)
    requires
        step >= 1,
        0 <= i,
        0 <= k < window_chunks(file, lines, size, step, i).len(),
    ensures
        k + 1 == window_chunks(file, lines, size, step, i).len() <==> window_end(
            lines.len() as int,
            size,
            i + k * step,
        ) == lines.len() || i + k * step + step >= lines.len(),
    decreases k,
{
    let all = window_chunks(file, lines, size, step, i);
    if k > 0 {
        lemma_window_count(file, lines, size, step, i + step, k - 1);
        assert(i + step + (k - 1) * step == i + k * step) by (nonlinear_arith);
    } else {
        assert(0 * step == 0) by (nonlinear_arith);
        let rest = window_chunks(file, lines, size, step, i + step);
        if window_end(lines.len() as int, size, i) != lines.len() && i + step < lines.len() {
            assert(rest.len() > 0);
        }
    }
}

/// A chunk counts a token for every four bytes that are full, and at least one.
pub proof fn law_four_bytes_make_a_token(t: Seq<char>)
    ensures
        utf8::encode_utf8(t).len() < 8 ==> tokens_in(t) == 1,
        utf8::encode_utf8(t).len() >= 8 ==> 4 * tokens_in(t) <= utf8::encode_utf8(t).len() < 4
            * tokens_in(t) + 4,
{
}

/// A file with lines has a chunk by lines.
pub proof fn law_lines_make_chunks(file: Seq<char>, content: Seq<char>, size: int, overlap: int)
    ensures
        text::lines(content).len() > 0 <==> line_chunks(file, content, size, overlap).len() > 0,
{
}

/// The identifier of a chunk is the hash of the components of its path, one after
/// the other, of a number made of their lengths, and of the line it starts on.
pub proof fn law_identifier_is_of_path_and_line(file: Seq<char>, start: usize)
    ensures
        ({
            let names = path::names(file);
            let n = names.len() as int;
            exists|fed: Seq<Seq<u8>>, mix: u64|
                {
                    &&& id_of(file, start) == #[trigger] DefaultHasher::spec_finish(fed)
                    &&& fed.len() == n + 2
                    &&& forall|i: int|
                        0 <= i < n ==> #[trigger] fed[i] == utf8::encode_utf8(names[i])
                    &&& #[trigger] bytes::spec_u64_to_le_bytes(mix) == fed[n]
                    &&& fed[n + 1] == bytes::spec_u64_to_le_bytes(start as u64)
                    &&& n == 0 ==> mix == 0
                    &&& n > 0 ==> {
                        let sum = length_mix(names.drop_last()).wrapping_add(
                            utf8::encode_utf8(names.last()).len() as u64,
                        );
                        mix == (sum >> 2) | (sum << 62)
                    }
                }
        }),
{
    let names = path::names(file);
    let fed = path_writes(names).push(bytes::spec_u64_to_le_bytes(start as u64));
    let mix = length_mix(names);
    assert(bytes::spec_u64_to_le_bytes(mix) == fed[names.len() as int]);
    assert(id_of(file, start) == DefaultHasher::spec_finish(fed));
}

/// `r` holds the units of the parse of a file, whole and in the order of the text.
pub open spec fn is_cut_by_units(
    file: Seq<char>,
    content: Seq<char>,
    lang: Language,
    r: Seq<ChunkView>,
) -> bool {
    exists|nodes: Seq<syntax::NodeView>, at: Seq<int>|
        {
            &&& #[trigger] syntax::is_parse(lang, content, Some(nodes))
            &&& #[trigger] at.len() == r.len()
            &&& forall|k: int|
                #![trigger at[k]]
                0 <= k < at.len() ==> {
                    &&& 0 <= at[k] < nodes.len()
                    &&& is_unit(content, lang, nodes[at[k]])
                    &&& is_whole_stretch(file, content, nodes[at[k]], r[k])
                }
            &&& forall|k: int, l: int|
                #![trigger at[k], at[l]]
                0 <= k < l < at.len() ==> at[k] < at[l]
            &&& forall|n: int|
                #![trigger nodes[n]]
                0 <= n < nodes.len() && is_unit(content, lang, nodes[n]) ==> exists|k: int|
                    #![trigger r[k]]
                    0 <= k < r.len() && is_whole_stretch(file, content, nodes[n], r[k])
        }
}

/// `c` is the window of `size` lines from line `from` on, or of what is left.
pub open spec fn is_window(
    file: Seq<char>,
    content: Seq<char>,
    size: int,
    from: int,
    c: ChunkView,
) -> bool {
    let n = text::lines(content).len() as int;
    let to = if from + size < n {
        from + size
    } else {
        n
    };
    &&& 0 <= from < n
    &&& c.file == file
    &&& c.id == id_of(file, from as usize)
    &&& c.start_line == from + 1
    &&& c.end_line == to
    &&& c.text == text::joined_lines(text::lines(content).subrange(from, to))
}

/// `r` holds windows over the lines of a file, each as far behind the one before
/// it as a window has lines beyond the overlap, and at least one; they go on until
/// one reaches the end.
pub open spec fn is_cut_by_lines(
    file: Seq<char>,
    content: Seq<char>,
    size: int,
    overlap: int,
    r: Seq<ChunkView>,
) -> bool {
    let n = text::lines(content).len() as int;
    let step = if size > overlap {
        size - overlap
    } else {
        1int
    };
    &&& n > 0 <==> r.len() > 0
    &&& forall|k: int|
        #![trigger r[k]]
        0 <= k < r.len() ==> {
            &&& is_window(file, content, size, k * step, r[k])
            &&& (k + 1 == r.len() <==> r[k].end_line == n || k * step + step >= n)
        }
}

/// Windows over the lines of a file are such.
proof fn lemma_cut_by_lines(file: Seq<char>, content: Seq<char>, size: usize, overlap: usize)
    requires
        text::lines(content).len() <= usize::MAX,
    ensures
        is_cut_by_lines(
            file,
            content,
            size as int,
            overlap as int,
            line_chunks(file, content, size as int, overlap as int),
        ),
{
    let r = line_chunks(file, content, size as int, overlap as int);
    let step = if size > overlap {
        size - overlap
    } else {
        1int
    };
    let n = text::lines(content).len() as int;
    law_lines_make_chunks(file, content, size as int, overlap as int);
    assert forall|k: int| #![trigger r[k]] 0 <= k < r.len() implies {
        &&& is_window(file, content, size as int, k * step, r[k])
        &&& (k + 1 == r.len() <==> r[k].end_line == n || k * step + step >= n)
    } by {
        law_windows_take_their_lines(file, content, size, overlap, k);
    }
}

/// A file is cut into its units, or by lines where it has no grammar, where the
/// parser cannot take it or where it has no unit; an empty file has no chunks.
pub proof fn law_files_are_cut_by_units_or_by_lines(
    file: &str,
    content: &str,
    size: usize,
    overlap: usize,
    r: Vec<Chunk>,
)
    requires
        call_ensures(chunk_file, (file, content, size, overlap), r),
        text::lines(content@).len() <= usize::MAX,
    ensures
        content@.len() == 0 ==> r@.len() == 0,
        content@.len() > 0 ==> {
            let lang = syntax::path_language(file@);
            ||| lang is Some && is_cut_by_units(file@, content@, lang->0, views(r@))
            ||| (lang is None || !syntax::is_parsable(lang->0, content@) || exists|
                nodes: Seq<syntax::NodeView>,
            | #[trigger]
                syntax::is_parse(lang->0, content@, Some(nodes)) && forall|n: int|
                    0 <= n < nodes.len() ==> !is_unit(content@, lang->0, #[trigger] nodes[n]))
                && is_cut_by_lines(file@, content@, size as int, overlap as int, views(r@))
        },
{
    let list = views(r@);
    assert(list.len() == r@.len());
    law_syntax_comes_before_lines(file@, content@, size as int, overlap as int, list);
    lemma_cut_by_lines(file@, content@, size, overlap);
    if content@.len() > 0 && syntax::path_language(file@) is Some {
        let lang = syntax::path_language(file@)->0;
        if is_syntax_cut(file@, content@, lang, Some(list)) {
            law_units_are_cut_whole(file@, content@, lang, list);
        } else if syntax::is_parsable(lang, content@) {
            law_no_cut_without_reason(file@, content@, lang);
        }
    }
}

/// Cutting by lines gives windows over the lines.
pub proof fn law_lines_are_cut_into_windows(
    file: &str,
    content: &str,
    size: usize,
    overlap: usize,
    r: Vec<Chunk>,
)
    requires
        call_ensures(chunk_lines, (file, content, size, overlap), r),
        text::lines(content@).len() <= usize::MAX,
    ensures
        is_cut_by_lines(file@, content@, size as int, overlap as int, views(r@)),
{
    lemma_cut_by_lines(file@, content@, size, overlap);
}

/// `c` is the stretch of one of the nodes, whole, and of a kind that is asked for.
pub open spec fn comes_from(
    file: Seq<char>,
    content: Seq<char>,
    kinds: Seq<Seq<char>>,
    nodes: Seq<syntax::NodeView>,
    c: ChunkView,
) -> bool {
    exists|n: int|
        #![trigger nodes[n]]
        0 <= n < nodes.len() && kinds.contains(nodes[n].kind) && is_whole_stretch(
            file,
            content,
            nodes[n],
            c,
        )
}

/// Each node whose kind is asked for, that is not empty and lies between
/// characters, gives a chunk with all its bytes and lines, and no other does.
pub proof fn law_nodes_give_whole_chunks(
    file: &str,
    content: &str,
    kinds: &Vec<&'static str>,
    nodes: &Vec<SyntaxNode>,
    r: Vec<Chunk>,
)
    requires
        call_ensures(chunk_nodes, (file, content, kinds, nodes), r),
        syntax::lie_in(syntax::node_views(nodes@), content@),
        syntax::rows_countable(syntax::node_views(nodes@)),
    ensures
        ({
            let all = utf8::encode_utf8(content@);
            let list = syntax::node_views(nodes@);
            &&& forall|n: int|
                #![trigger list[n]]
                0 <= n < list.len() && syntax::str_texts(kinds@).contains(list[n].kind)
                    && list[n].start_byte < list[n].end_byte && utf8::is_char_boundary(
                    all,
                    list[n].start_byte as int,
                ) && utf8::is_char_boundary(all, list[n].end_byte as int) ==> exists|k: int|
                    #![trigger views(r@)[k]]
                    0 <= k < r@.len() && is_whole_stretch(
                        file@,
                        content@,
                        list[n],
                        views(r@)[k],
                    )
        }),
        forall|k: int|
            #![trigger views(r@)[k]]
            0 <= k < r@.len() ==> comes_from(
                file@,
                content@,
                syntax::str_texts(kinds@),
                syntax::node_views(nodes@),
                views(r@)[k],
            ),
{
    let all = utf8::encode_utf8(content@);
    let list = syntax::node_views(nodes@);
    let chunks = views(r@);
    let wanted = syntax::str_texts(kinds@);
    assert(chunks.len() == r@.len());
    utf8::encode_utf8_valid_utf8(content@);
    assert forall|n: int|
        #![trigger list[n]]
        0 <= n < list.len() && wanted.contains(list[n].kind) && list[n].start_byte
            < list[n].end_byte && utf8::is_char_boundary(all, list[n].start_byte as int)
            && utf8::is_char_boundary(all, list[n].end_byte as int) implies exists|k: int|
        #![trigger views(r@)[k]]
        0 <= k < r@.len() && is_whole_stretch(file@, content@, list[n], views(r@)[k]) by {
        let a = list[n].start_byte as int;
        let b = list[n].end_byte as int;
        lemma_stretch_is_valid(all, a, b);
        utf8::decode_utf8_encode_utf8(all.subrange(a, b));
        lemma_line_feeds_between(all, a, b);
        lemma_node_has_chunk(file@, content@, wanted, list, n);
        let c = node_chunk(file@, content@, wanted, list[n])->0;
        let k = choose|k: int| 0 <= k < chunks.len() && chunks[k] == c;
        assert(is_whole_stretch(file@, content@, list[n], chunks[k]));
    }
    let at = lemma_makers(file@, content@, wanted, list);
    assert forall|k: int| #![trigger views(r@)[k]] 0 <= k < r@.len() implies comes_from(
        file@,
        content@,
        wanted,
        list,
        views(r@)[k],
    ) by {
        let n = at[k];
        assert(is_made_by(file@, content@, wanted, list, chunks[k], n));
        let a = list[n].start_byte as int;
        let b = list[n].end_byte as int;
        lemma_stretch_is_valid(all, a, b);
        utf8::decode_utf8_encode_utf8(all.subrange(a, b));
        lemma_line_feeds_between(all, a, b);
        assert(is_whole_stretch(file@, content@, list[n], chunks[k]));
    }
}

/// The estimate for a chunk is a token for every four bytes of its text that are
/// full, and at least one.
pub proof fn law_estimate_goes_by_the_bytes(c: &Chunk, r: usize)
    requires
        call_ensures(Chunk::token_estimate, (c,), r),
    ensures
        utf8::encode_utf8(c.text@).len() < 8 ==> r == 1,
        utf8::encode_utf8(c.text@).len() >= 8 ==> 4 * r <= utf8::encode_utf8(c.text@).len() < 4 * r
            + 4,
{
}

} // verus!
