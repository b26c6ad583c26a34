use crate::glob;
use crate::glob::glob_match;
use crate::path;
use crate::path::{component_list, extension, file_name, path_order, starts_with, strip_prefix};
use crate::text;
use crate::text::{chars_of, same_text};
use vstd::prelude::*;

verus! {

/// Names of the directories that are never indexed: dependencies, build
/// artifacts, version control data and the index itself.
pub open spec fn excluded_names() -> Seq<Seq<char>> {
    seq![
        "node_modules"@,
        ".git"@,
        ".hg"@,
        ".svn"@,
        "target"@,
        "dist"@,
        "build"@,
        ".next"@,
        ".nuxt"@,
        "coverage"@,
        ".rpgrep"@,
        ".cache"@,
        "vendor"@,
        "__pycache__"@,
        ".venv"@,
        ".dart_tool"@,
        "Pods"@,
        ".gradle"@,
    ]
}

/// The list of `excluded_names`.
fn excluded_dirs() -> (r: Vec<&'static str>)
    ensures
        r@.map_values(|s: &'static str| s@) == excluded_names(),
{
    let r: Vec<&'static str> = vec![
        "node_modules",
        ".git",
        ".hg",
        ".svn",
        "target",
        "dist",
        "build",
        ".next",
        ".nuxt",
        "coverage",
        ".rpgrep",
        ".cache",
        "vendor",
        "__pycache__",
        ".venv",
        ".dart_tool",
        "Pods",
        ".gradle",
    ];
    assert(r@.map_values(|s: &'static str| s@) =~= excluded_names());
    r
}

/// Whether a directory entry is a directory that is not to be entered.
pub fn is_excluded_dir(is_dir: bool, name: &str) -> (r: bool)
    ensures
        r == (is_dir && excluded_names().contains(name@)),
{
    if !is_dir {
        return false;
    }
    let list: Vec<&'static str> = excluded_dirs();
    let mut i: usize = 0;
    while i < list.len()
        invariant
            i <= list.len(),
            is_dir,
            list@.map_values(|s: &'static str| s@) == excluded_names(),
            forall|k: int| 0 <= k < i ==> #[trigger] excluded_names()[k] != name@,
        decreases list.len() - i,
    {
        assert(excluded_names()[i as int] == list@[i as int]@);
        if same_text(list[i], name) {
            return true;
        }
        i = i + 1;
    }
    assert(excluded_names().len() == list@.len());
    false
}

/// A component of `p` that is a directory below or at `root` has one of the
/// excluded names, so that a walk from `root` does not come to `p`.
pub open spec fn is_pruned(p: Seq<char>, root: Seq<char>) -> bool {
    let all = path::components(p);
    let k = path::components(root).len();
    &&& path::is_under(p, root)
    &&& exists|i: int|
        #![trigger all[i]]
        0 <= i && k - 1 <= i < all.len() - 1 && excluded_names().contains(all[i])
}

/// Whether a walk from `root` does not come to `p`.
pub fn pruned(p: &str, root: &str) -> (r: bool)
    ensures
        r == is_pruned(p@, root@),
{
    if !starts_with(p, root) {
        return false;
    }
    let all: Vec<String> = component_list(p);
    let base: Vec<String> = component_list(root);
    let ghost parts = path::components(p@);
    proof {
        assert(text::texts(all@).len() == all@.len());
        assert(text::texts(base@).len() == base@.len());
    }
    let start: usize = if base.len() > 0 {
        base.len() - 1
    } else {
        0
    };
    let mut i: usize = start;
    while i + 1 < all.len()
        invariant
            start <= i,
            i < usize::MAX,
            path::is_under(p@, root@),
            start == if path::components(root@).len() > 0 {
                path::components(root@).len() - 1
            } else {
                0
            },
            parts == path::components(p@),
            parts == text::texts(all@),
            parts.len() == all@.len(),
            forall|j: int|
                #![trigger parts[j]]
                start <= j < i ==> !excluded_names().contains(parts[j]),
        decreases all.len() - i,
    {
        assert(parts[i as int] == all@[i as int]@);
        if is_excluded_dir(true, all[i].as_str()) {
            return true;
        }
        i = i + 1;
    }
    false
}

/// The lowercase form of an ASCII letter; any other character stays.
pub open spec fn ascii_lower(c: char) -> int {
    if 'A' <= c && c <= 'Z' {
        c as int + 32
    } else {
        c as int
    }
}

/// The same text but for the case of ASCII letters.
pub open spec fn same_but_case(a: Seq<char>, b: Seq<char>) -> bool {
    &&& a.len() == b.len()
    &&& forall|i: int| 0 <= i < a.len() ==> ascii_lower(#[trigger] a[i]) == ascii_lower(b[i])
}

/// The lowercase form of an ASCII letter, as a number.
fn lower(c: char) -> (r: u32)
    ensures
        r == ascii_lower(c),
{
    proof {
        vstd::utf8::char_is_scalar(c);
    }
    if 'A' <= c && c <= 'Z' {
        c as u32 + 32
    } else {
        c as u32
    }
}

/// Whether two texts are the same but for the case of ASCII letters.
pub fn eq_ignore_case(a: &str, b: &str) -> (r: bool)
    ensures
        r == same_but_case(a@, b@),
{
    let x: Vec<char> = chars_of(a);
    let y: Vec<char> = chars_of(b);
    if x.len() != y.len() {
        return false;
    }
    let mut i: usize = 0;
    while i < x.len()
        invariant
            i <= x.len(),
            x.len() == y.len(),
            x@ == a@,
            y@ == b@,
            forall|k: int| 0 <= k < i ==> ascii_lower(#[trigger] x@[k]) == ascii_lower(y@[k]),
        decreases x.len() - i,
    {
        if lower(x[i]) != lower(y[i]) {
            return false;
        }
        i = i + 1;
    }
    true
}

/// `ext` is one of `allowed`, in whatever case.
pub open spec fn is_allowed(ext: Seq<char>, allowed: Seq<Seq<char>>) -> bool {
    exists|i: int| 0 <= i < allowed.len() && same_but_case(#[trigger] allowed[i], ext)
}

/// Whether `ext` is one of `allowed`, in whatever case.
pub fn allows(ext: &str, allowed: &Vec<String>) -> (r: bool)
    ensures
        r == is_allowed(ext@, text::texts(allowed@)),
{
    let mut i: usize = 0;
    while i < allowed.len()
        invariant
            i <= allowed.len(),
            forall|k: int|
                0 <= k < i ==> !same_but_case(#[trigger] text::texts(allowed@)[k], ext@),
        decreases allowed.len() - i,
    {
        assert(text::texts(allowed@)[i as int] == allowed@[i as int]@);
        if eq_ignore_case(allowed[i].as_str(), ext) {
            return true;
        }
        i = i + 1;
    }
    false
}

/// The file `p` has one of the extensions; any file will do if there are none.
pub open spec fn has_extension(p: Seq<char>, extensions: Seq<Seq<char>>) -> bool {
    extensions.len() == 0 || match path::extension_of(p) {
        Some(ext) => is_allowed(ext, extensions),
        None => false,
    }
}

/// Whether the file has one of the extensions.
pub fn extension_matches(p: &str, extensions: &Vec<String>) -> (r: bool)
    ensures
        r == has_extension(p@, text::texts(extensions@)),
{
    assert(text::texts(extensions@).len() == extensions@.len());
    if extensions.len() == 0 {
        return true;
    }
    match extension(p) {
        Some(ext) => allows(ext.as_str(), extensions),
        None => false,
    }
}

/// The file name of `p`, or nothing.
pub open spec fn name_or_empty(p: Seq<char>) -> Seq<char> {
    match path::file_name_of(p) {
        Some(name) => name,
        None => Seq::empty(),
    }
}

/// One of the patterns matches the part of `p` below `root`, or its file name.
pub open spec fn is_excluded(p: Seq<char>, root: Seq<char>, excludes: Seq<Seq<char>>) -> bool {
    exists|i: int|
        #![trigger excludes[i]]
        0 <= i < excludes.len() && (glob::matches(path::below(p, root), excludes[i])
            || glob::matches(name_or_empty(p), excludes[i]))
}

/// Whether a file is to be left out: one of the patterns matches its path
/// below `root` or its name.
pub fn is_excluded_path(p: &str, root: &str, excludes: &Vec<String>) -> (r: bool)
    ensures
        r == is_excluded(p@, root@, text::texts(excludes@)),
{
    if excludes.len() == 0 {
        return false;
    }
    let rel: String = strip_prefix(p, root);
    let name: String = match file_name(p) {
        Some(name) => name,
        None => String::new(),
    };
    assert(name@ =~= name_or_empty(p@));
    let ghost all = text::texts(excludes@);
    let mut i: usize = 0;
    while i < excludes.len()
        invariant
            i <= excludes.len(),
            all == text::texts(excludes@),
            rel@ == path::below(p@, root@),
            name@ == name_or_empty(p@),
            forall|k: int|
                #![trigger all[k]]
                0 <= k < i ==> !glob::matches(rel@, all[k]) && !glob::matches(name@, all[k]),
        decreases excludes.len() - i,
    {
        assert(all[i as int] == excludes@[i as int]@);
        if glob_match(rel.as_str(), excludes[i].as_str())
            || glob_match(name.as_str(), excludes[i].as_str()) {
            return true;
        }
        i = i + 1;
    }
    false
}

/// What is looked for below `root`.
pub struct Scope<'a> {
    pub root: &'a str,
    /// Extensions without their dot; none stand for all files.
    pub extensions: &'a Vec<String>,
    /// Patterns of the files to leave out.
    pub excludes: &'a Vec<String>,
}

impl<'a> Scope<'a> {
    /// `p` is to be indexed.
    pub open spec fn takes(&self, p: Seq<char>) -> bool {
        &&& !is_pruned(p, self.root@)
        &&& has_extension(p, text::texts(self.extensions@))
        &&& !is_excluded(p, self.root@, text::texts(self.excludes@))
    }

    /// Whether a file is to be indexed.
    pub fn accepts(&self, p: &str) -> (r: bool)
        ensures
            r == self.takes(p@),
    {
        !pruned(p, self.root) && extension_matches(p, self.extensions) && !is_excluded_path(
            p,
            self.root,
            self.excludes,
        )
    }
}

/// The positions of those of `paths` that are to be indexed, as they stand.
pub open spec fn taken<'a>(scope: &Scope<'a>, paths: Seq<Seq<char>>) -> Seq<int>
    decreases paths.len(),
{
    if paths.len() == 0 {
        Seq::empty()
    } else {
        let before = taken(scope, paths.drop_last());
        if scope.takes(paths.last()) {
            before.push(paths.len() - 1)
        } else {
            before
        }
    }
}

/// The members of `paths` at `positions`.
pub open spec fn at_positions(paths: Seq<Seq<char>>, positions: Seq<int>) -> Seq<Seq<char>> {
    positions.map_values(|i: int| paths[i])
}

/// `r` lists the positions of those of `paths` that are to be indexed, in path
/// order.
pub open spec fn is_selection<'a>(
    scope: &Scope<'a>,
    paths: Seq<Seq<char>>,
    r: Seq<usize>,
) -> bool {
    let kept = taken(scope, paths);
    exists|order: Seq<usize>| #[trigger]
        path::is_path_order(at_positions(paths, kept), order) && r.len() == order.len() && forall|
            i: int,
        |
            0 <= i < r.len() ==> #[trigger] r[i] == kept[order[i] as int]
}

/// Positions that are taken lie within the list and are distinct.
proof fn lemma_taken<'a>(scope: &Scope<'a>, paths: Seq<Seq<char>>)
    ensures
        taken(scope, paths).len() <= paths.len(),
        forall|i: int|
            #![trigger taken(scope, paths)[i]]
            0 <= i < taken(scope, paths).len() ==> 0 <= taken(scope, paths)[i] < paths.len()
                && scope.takes(paths[taken(scope, paths)[i]]),
        forall|i: int, j: int|
            #![trigger taken(scope, paths)[i], taken(scope, paths)[j]]
            0 <= i < j < taken(scope, paths).len() ==> taken(scope, paths)[i] < taken(
                scope,
                paths,
            )[j],
        forall|k: int|
            0 <= k < paths.len() && scope.takes(#[trigger] paths[k]) ==> taken(
                scope,
                paths,
            ).contains(k),
    decreases paths.len(),
{
    if paths.len() > 0 {
        let init = paths.drop_last();
        lemma_taken(scope, init);
        let before = taken(scope, init);
        let all = taken(scope, paths);
        assert forall|i: int| #![trigger all[i]] 0 <= i < all.len() implies 0 <= all[i]
            < paths.len() && scope.takes(paths[all[i]]) by {
            if i < before.len() {
                assert(all[i] == before[i]);
                assert(init[before[i]] == paths[before[i]]);
            }
        }
        assert forall|k: int| 0 <= k < paths.len() && scope.takes(#[trigger] paths[k]) implies {
            all.contains(k)
        } by {
            if k < init.len() {
                assert(init[k] == paths[k]);
                assert(before.contains(k));
                let i = choose|i: int| 0 <= i < before.len() && before[i] == k;
                assert(all[i] == k);
            } else {
                assert(all[before.len() as int] == k);
            }
        }
    }
}

/// The positions of those of `paths` that are to be indexed, in path order.
pub fn select_files<'a>(scope: &Scope<'a>, paths: &Vec<String>) -> (r: Vec<usize>)
    ensures
        is_selection(scope, text::texts(paths@), r@),
        forall|i: int| 0 <= i < r@.len() ==> #[trigger] r@[i] < paths@.len(),
{
    let ghost all = text::texts(paths@);
    let mut kept: Vec<usize> = Vec::new();
    let mut names: Vec<String> = Vec::new();
    let mut i: usize = 0;
    assert(taken(scope, all.take(0)) =~= Seq::<int>::empty());
    while i < paths.len()
        invariant
            i <= paths.len(),
            all == text::texts(paths@),
            kept@.map_values(|k: usize| k as int) =~= taken(scope, all.take(i as int)),
            names.len() == kept.len(),
            forall|k: int|
                #![trigger kept@[k]]
                0 <= k < kept@.len() ==> kept@[k] < i && names@[k]@ == all[kept@[k] as int],
        decreases paths.len() - i,
    {
        proof {
            assert(all.take(i + 1).drop_last() =~= all.take(i as int));
            assert(all[i as int] == paths@[i as int]@);
        }
        if scope.accepts(paths[i].as_str()) {
            kept.push(i);
            names.push(paths[i].clone());
        }
        i = i + 1;
    }
    assert(all.take(all.len() as int) =~= all);
    let order: Vec<usize> = path_order(&names);
    let mut out: Vec<usize> = Vec::new();
    let ghost positions = taken(scope, all);
    assert(text::texts(names@) =~= at_positions(all, positions)) by {
        assert forall|k: int| 0 <= k < names@.len() implies text::texts(names@)[k] == at_positions(
            all,
            positions,
        )[k] by {
            assert(kept@.map_values(|k: usize| k as int)[k] == positions[k]);
        }
        assert(kept@.map_values(|k: usize| k as int).len() == positions.len());
    }
    let mut j: usize = 0;
    while j < order.len()
        invariant
            j <= order.len(),
            out.len() == j,
            kept.len() == names.len(),
            all == text::texts(paths@),
            positions == taken(scope, all),
            kept@.map_values(|k: usize| k as int) == positions,
            forall|k: int| #![trigger kept@[k]] 0 <= k < kept@.len() ==> kept@[k] < paths@.len(),
            forall|k: int| 0 <= k < order@.len() ==> #[trigger] order@[k] < names@.len(),
            forall|k: int| 0 <= k < j ==> #[trigger] out@[k] == positions[order@[k] as int],
            forall|k: int| 0 <= k < j ==> #[trigger] out@[k] < paths@.len(),
        decreases order.len() - j,
    {
        let at: usize = kept[order[j]];
        assert(kept@.map_values(|k: usize| k as int)[order@[j as int] as int] == at);
        out.push(at);
        j = j + 1;
    }
    out
}

/// The files of a listing that are to be indexed, in path order.
pub fn discover_files<'a>(scope: &Scope<'a>, listing: &Vec<String>) -> (r: Vec<String>)
    ensures
        exists|at: Seq<usize>| #[trigger]
            is_selection(scope, text::texts(listing@), at) && at.len() == r@.len() && forall|i: int|
                0 <= i < r@.len() ==> #[trigger] r@[i]@ == text::texts(listing@)[at[i] as int],
{
    let at: Vec<usize> = select_files(scope, listing);
    let mut out: Vec<String> = Vec::new();
    let mut i: usize = 0;
    while i < at.len()
        invariant
            i <= at.len(),
            out.len() == i,
            forall|k: int| 0 <= k < at@.len() ==> #[trigger] at@[k] < listing@.len(),
            forall|k: int|
                0 <= k < i ==> #[trigger] out@[k]@ == text::texts(listing@)[at@[k] as int],
        decreases at.len() - i,
    {
        out.push(listing[at[i]].clone());
        i = i + 1;
    }
    assert(is_selection(scope, text::texts(listing@), at@));
    out
}

/// Every file of a listing that is to be indexed is selected, and nothing else.
pub proof fn law_selection_is_exact<'a>(
    scope: &Scope<'a>,
    paths: Seq<Seq<char>>,
    r: Seq<usize>,
    k: int,
)
    requires
        is_selection(scope, paths, r),
        paths.len() <= usize::MAX,
        0 <= k < paths.len(),
    ensures
        scope.takes(paths[k]) <==> r.contains(k as usize),
{
    let kept = taken(scope, paths);
    lemma_taken(scope, paths);
    let order = choose|order: Seq<usize>| #[trigger]
        path::is_path_order(at_positions(paths, kept), order) && r.len() == order.len() && forall|
            i: int,
        |
            0 <= i < r.len() ==> #[trigger] r[i] == kept[order[i] as int];
    if scope.takes(paths[k]) {
        let j = choose|j: int| 0 <= j < kept.len() && kept[j] == k;
        assert(order.contains(j as usize));
        let i = choose|i: int| 0 <= i < order.len() && order[i] == j as usize;
        assert(r[i] == k);
    }
    if r.contains(k as usize) {
        let i = choose|i: int| 0 <= i < r.len() && r[i] == k as usize;
        assert(r[i] == kept[order[i] as int]);
    }
}

/// No file below a directory with an excluded name is taken.
pub proof fn law_excluded_directories_are_left_out<'a>(
    scope: &Scope<'a>,
    p: Seq<char>,
    i: int,
)
    requires
        path::is_under(p, scope.root@),
        path::components(scope.root@).len() - 1 <= i < path::components(p).len() - 1,
        0 <= i,
        excluded_names().contains(path::components(p)[i]),
    ensures
        !scope.takes(p),
{
    assert(is_pruned(p, scope.root@));
}

/// The names that keep a directory from being entered.
pub open spec fn never_indexed(name: Seq<char>) -> bool {
    ||| name == "node_modules"@
    ||| name == ".git"@
    ||| name == ".hg"@
    ||| name == ".svn"@
    ||| name == "target"@
    ||| name == "dist"@
    ||| name == "build"@
    ||| name == ".next"@
    ||| name == ".nuxt"@
    ||| name == "coverage"@
    ||| name == ".rpgrep"@
    ||| name == ".cache"@
    ||| name == "vendor"@
    ||| name == "__pycache__"@
    ||| name == ".venv"@
    ||| name == ".dart_tool"@
    ||| name == "Pods"@
    ||| name == ".gradle"@
}

/// The listed names are these and no others.
pub proof fn law_listed_names_are_these(name: Seq<char>)
    ensures
        excluded_names().contains(name) <==> never_indexed(name),
{
    let all = excluded_names();
    assert(all.len() == 18);
    if never_indexed(name) {
        assert(all[0] == "node_modules"@);
        assert(all[1] == ".git"@);
        assert(all[2] == ".hg"@);
        assert(all[3] == ".svn"@);
        assert(all[4] == "target"@);
        assert(all[5] == "dist"@);
        assert(all[6] == "build"@);
        assert(all[7] == ".next"@);
        assert(all[8] == ".nuxt"@);
        assert(all[9] == "coverage"@);
        assert(all[10] == ".rpgrep"@);
        assert(all[11] == ".cache"@);
        assert(all[12] == "vendor"@);
        assert(all[13] == "__pycache__"@);
        assert(all[14] == ".venv"@);
        assert(all[15] == ".dart_tool"@);
        assert(all[16] == "Pods"@);
        assert(all[17] == ".gradle"@);
    }
    if all.contains(name) {
        let i = choose|i: int| 0 <= i < all.len() && all[i] == name;
        assert(i == 0 || i == 1 || i == 2 || i == 3 || i == 4 || i == 5 || i == 6 || i == 7 || i
            == 8 || i == 9 || i == 10 || i == 11 || i == 12 || i == 13 || i == 14 || i == 15 || i
            == 16 || i == 17);
    }
}

/// Nothing but the listed directories is passed over: a file is taken where none
/// of the directories from the root down to it has a listed name, it has one of
/// the extensions, and no pattern matches it.
pub proof fn law_nothing_else_is_passed_over<'a>(scope: &Scope<'a>, p: Seq<char>)
    requires
        forall|i: int|
            #![trigger path::components(p)[i]]
            0 <= i && path::components(scope.root@).len() - 1 <= i < path::components(p).len() - 1
                ==> !never_indexed(path::components(p)[i]),
        scope.extensions@.len() == 0 || (path::extension_of(p) is Some && exists|e: int|
            0 <= e < scope.extensions@.len() && same_letters(
                #[trigger] scope.extensions@[e]@,
                path::extension_of(p)->0,
            )),
        forall|k: int|
            #![trigger scope.excludes@[k]]
            0 <= k < scope.excludes@.len() ==> {
                &&& !glob::matches(path::below(p, scope.root@), scope.excludes@[k]@)
                &&& path::file_name_of(p) is Some ==> !glob::matches(
                    path::file_name_of(p)->0,
                    scope.excludes@[k]@,
                )
                &&& path::file_name_of(p) is None ==> !glob::matches(
                    Seq::empty(),
                    scope.excludes@[k]@,
                )
            },
    ensures
        scope.takes(p),
{
    let all = path::components(p);
    let exts = text::texts(scope.extensions@);
    let patterns = text::texts(scope.excludes@);
    assert forall|i: int|
        #![trigger all[i]]
        0 <= i && path::components(scope.root@).len() - 1 <= i < all.len() - 1 implies {
        !excluded_names().contains(all[i])
    } by {
        law_listed_names_are_these(all[i]);
    }
    if scope.extensions@.len() > 0 {
        let e = choose|e: int|
            0 <= e < scope.extensions@.len() && same_letters(
                #[trigger] scope.extensions@[e]@,
                path::extension_of(p)->0,
            );
        assert(exts[e] == scope.extensions@[e]@);
        law_case_does_not_matter(exts[e], path::extension_of(p)->0);
    }
    assert forall|k: int| #![trigger patterns[k]] 0 <= k < patterns.len() implies {
        !glob::matches(path::below(p, scope.root@), patterns[k]) && !glob::matches(
            name_or_empty(p),
            patterns[k],
        )
    } by {
        assert(patterns[k] == scope.excludes@[k]@);
    }
}

/// What is taken has one of the extensions, where any are given, and no pattern
/// matches its name or its path below the root.
pub proof fn law_what_is_taken_fits<'a>(scope: &Scope<'a>, p: Seq<char>)
    requires
        scope.takes(p),
    ensures
        scope.extensions@.len() > 0 ==> path::extension_of(p) is Some && exists|e: int|
            0 <= e < scope.extensions@.len() && same_letters(
                #[trigger] scope.extensions@[e]@,
                path::extension_of(p)->0,
            ),
        forall|k: int|
            #![trigger scope.excludes@[k]]
            0 <= k < scope.excludes@.len() ==> {
                &&& !glob::matches(path::below(p, scope.root@), scope.excludes@[k]@)
                &&& path::file_name_of(p) is Some ==> !glob::matches(
                    path::file_name_of(p)->0,
                    scope.excludes@[k]@,
                )
            },
{
    let exts = text::texts(scope.extensions@);
    let patterns = text::texts(scope.excludes@);
    if scope.extensions@.len() > 0 {
        assert(exts.len() == scope.extensions@.len());
        let ext = path::extension_of(p)->0;
        let e = choose|e: int| 0 <= e < exts.len() && same_but_case(#[trigger] exts[e], ext);
        assert(exts[e] == scope.extensions@[e]@);
        law_case_does_not_matter(exts[e], ext);
        assert(same_letters(scope.extensions@[e]@, ext));
    }
    assert forall|k: int|
        #![trigger scope.excludes@[k]]
        0 <= k < scope.excludes@.len() implies {
        &&& !glob::matches(path::below(p, scope.root@), scope.excludes@[k]@)
        &&& path::file_name_of(p) is Some ==> !glob::matches(
            path::file_name_of(p)->0,
            scope.excludes@[k]@,
        )
    } by {
        assert(patterns[k] == scope.excludes@[k]@);
    }
}

/// The same letters, of which an ASCII one may be small in one text and capital in
/// the other.
pub open spec fn same_letters(a: Seq<char>, b: Seq<char>) -> bool {
    &&& a.len() == b.len()
    &&& forall|i: int|
        #![trigger a[i]]
        0 <= i < a.len() ==> {
            ||| a[i] == b[i]
            ||| 'a' <= a[i] && a[i] <= 'z' && a[i] as int == b[i] as int + 32
            ||| 'a' <= b[i] && b[i] <= 'z' && b[i] as int == a[i] as int + 32
        }
}

/// Texts are told apart by more than the case of their ASCII letters.
pub proof fn law_case_does_not_matter(a: Seq<char>, b: Seq<char>)
    ensures
        same_but_case(a, b) <==> same_letters(a, b),
{
    assert forall|i: int| 0 <= i < a.len() && a.len() == b.len() implies (ascii_lower(
        #[trigger] a[i],
    ) == ascii_lower(b[i]) <==> (a[i] == b[i] || ('a' <= a[i] && a[i] <= 'z' && a[i] as int
        == b[i] as int + 32) || ('a' <= b[i] && b[i] <= 'z' && b[i] as int == a[i] as int + 32))) by {
        lemma_lower(a[i], b[i]);
    }
    if same_letters(a, b) {
        assert forall|i: int| 0 <= i < a.len() implies ascii_lower(#[trigger] a[i]) == ascii_lower(
            b[i],
        ) by {}
    }
    if same_but_case(a, b) {
        assert forall|i: int| #![trigger a[i]] 0 <= i < a.len() implies {
            ||| a[i] == b[i]
            ||| 'a' <= a[i] && a[i] <= 'z' && a[i] as int == b[i] as int + 32
            ||| 'a' <= b[i] && b[i] <= 'z' && b[i] as int == a[i] as int + 32
        } by {
            assert(ascii_lower(a[i]) == ascii_lower(b[i]));
        }
    }
}

/// Two characters have the same lowercase form where they are the same letter.
proof fn lemma_lower(c: char, d: char)
    ensures
        ascii_lower(c) == ascii_lower(d) <==> (c == d || ('a' <= c && c <= 'z' && c as int == d as int
            + 32) || ('a' <= d && d <= 'z' && d as int == c as int + 32)),
{
}

/// What is selected comes in path order, component by component, each file once,
/// and files with the same components as they stand.
pub proof fn law_selection_comes_in_path_order<'a>(
    scope: &Scope<'a>,
    paths: Seq<Seq<char>>,
    r: Seq<usize>,
    i: int,
    j: int,
    k: int,
)
    requires
        is_selection(scope, paths, r),
        paths.len() <= usize::MAX,
        0 <= i < j < r.len(),
    ensures
        r[i] < paths.len(),
        r[j] < paths.len(),
        r[i] != r[j],
        !path::listed_before(
            path::components(paths[r[j] as int]),
            path::components(paths[r[i] as int]),
            k,
        ),
        path::components(paths[r[i] as int]) == path::components(paths[r[j] as int]) ==> r[i]
            < r[j],
{
    let kept = taken(scope, paths);
    lemma_taken(scope, paths);
    let order = choose|order: Seq<usize>| #[trigger]
        path::is_path_order(at_positions(paths, kept), order) && r.len() == order.len() && forall|
            i: int,
        |
            0 <= i < r.len() ==> #[trigger] r[i] == kept[order[i] as int];
    path::law_paths_are_listed_component_by_component(at_positions(paths, kept), order, i, j, k);
    assert(r[i] == kept[order[i] as int]);
    assert(r[j] == kept[order[j] as int]);
}

/// What is discovered of a listing are the files to be indexed, all of them and no
/// others, in path order.
pub proof fn law_discovered_are_the_files_to_index<'a>(
    scope: &Scope<'a>,
    listing: &Vec<String>,
    r: Vec<String>,
)
    requires
        call_ensures(discover_files, (scope, listing), r),
        listing@.len() <= usize::MAX,
    ensures
        forall|k: int|
            #![trigger listing@[k]]
            0 <= k < listing@.len() && scope.takes(listing@[k]@) ==> text::texts(r@).contains(
                listing@[k]@,
            ),
        forall|i: int|
            #![trigger r@[i]]
            0 <= i < r@.len() ==> scope.takes(r@[i]@) && text::texts(listing@).contains(r@[i]@),
        forall|i: int, j: int, k: int|
            0 <= i < j < r@.len() ==> !#[trigger] path::listed_before(
                path::components(r@[j]@),
                path::components(r@[i]@),
                k,
            ),
{
    let paths = text::texts(listing@);
    let at = choose|at: Seq<usize>| #[trigger]
        is_selection(scope, paths, at) && at.len() == r@.len() && forall|i: int|
            0 <= i < r@.len() ==> #[trigger] r@[i]@ == paths[at[i] as int];
    assert(paths.len() == listing@.len());
    lemma_selected_are_taken(scope, paths, at);
    assert forall|k: int|
        #![trigger listing@[k]]
        0 <= k < listing@.len() && scope.takes(listing@[k]@) implies text::texts(r@).contains(
        listing@[k]@,
    ) by {
        assert(paths[k] == listing@[k]@);
        law_selection_is_exact(scope, paths, at, k);
        let i = choose|i: int| 0 <= i < at.len() && at[i] == k as usize;
        assert(r@[i]@ == paths[k]);
        assert(text::texts(r@)[i] == listing@[k]@);
    }
    assert forall|i: int| #![trigger r@[i]] 0 <= i < r@.len() implies scope.takes(r@[i]@)
        && paths.contains(r@[i]@) by {
        assert(r@[i]@ == paths[at[i] as int]);
    }
    assert forall|i: int, j: int, k: int|
        0 <= i < j < r@.len() implies !#[trigger] path::listed_before(
        path::components(r@[j]@),
        path::components(r@[i]@),
        k,
    ) by {
        assert(r@[i]@ == paths[at[i] as int]);
        assert(r@[j]@ == paths[at[j] as int]);
        law_selection_comes_in_path_order(scope, paths, at, i, j, k);
    }
}

/// What is selected is to be indexed.
pub proof fn lemma_selected_are_taken<'a>(scope: &Scope<'a>, paths: Seq<Seq<char>>, at: Seq<usize>)
    requires
        is_selection(scope, paths, at),
        paths.len() <= usize::MAX,
    ensures
        forall|i: int|
            #![trigger at[i]]
            0 <= i < at.len() ==> at[i] < paths.len() && scope.takes(paths[at[i] as int]),
{
    let kept = taken(scope, paths);
    lemma_taken(scope, paths);
    let order = choose|order: Seq<usize>| #[trigger]
        path::is_path_order(at_positions(paths, kept), order) && at.len() == order.len() && forall|
            i: int,
        |
            0 <= i < at.len() ==> #[trigger] at[i] == kept[order[i] as int];
    assert forall|i: int| #![trigger at[i]] 0 <= i < at.len() implies at[i] < paths.len()
        && scope.takes(paths[at[i] as int]) by {
        assert(at[i] == kept[order[i] as int]);
        assert(order[i] < kept.len());
    }
}

/// A file is accepted where it is to be indexed; only directories have names to be
/// passed over, and these are the listed ones.
pub proof fn law_accepted_is_what_is_to_be_indexed<'a>(
    scope: &Scope<'a>,
    p: &str,
    accepted: bool,
    is_dir: bool,
    name: &str,
    passed_over: bool,
)
    requires
        call_ensures(Scope::accepts, (scope, p), accepted),
        call_ensures(is_excluded_dir, (is_dir, name), passed_over),
    ensures
        accepted <==> scope.takes(p@),
        passed_over <==> is_dir && never_indexed(name@),
{
    law_listed_names_are_these(name@);
}

} // verus!
