//! Where an import may lead, going by the paths alone.
//!
//! An import names a file by a path that is relative to the importing file,
//! with or without an extension, or names a directory that holds an `init`
//! file. Which of the files that it may name exists is for the caller to find
//! out.

use crate::utils::{
    current_dir, normalize_path_with_current_dir, normalized, parent_dir, segment_end, texts,
};
use vstd::prelude::*;
use vstd::string::*;

verus! {

/// The index after the last separator among the first `upto` characters of
/// `path`; 0 if there is none.
pub open spec fn name_start(path: Seq<char>, upto: int) -> int
    decreases upto,
{
    if upto <= 0 || upto > path.len() {
        0
    } else if path[upto - 1] == '/' {
        upto
    } else {
        name_start(path, upto - 1)
    }
}

/// The last component of a normalized path.
pub open spec fn last_component(path: Seq<char>) -> Seq<char> {
    path.subrange(name_start(path, path.len() as int), path.len() as int)
}

/// The name of the file that a normalized path ends in; none if it ends in
/// the root, in `.` or in `..`.
pub open spec fn file_name(path: Seq<char>) -> Option<Seq<char>> {
    let name = last_component(path);
    if name.len() == 0 || name == current_dir() || name == parent_dir() {
        None
    } else {
        Some(name)
    }
}

/// The index of the last dot among the first `upto` characters of `name`; -1
/// if there is none.
pub open spec fn last_dot(name: Seq<char>, upto: int) -> int
    decreases upto,
{
    if upto <= 0 || upto > name.len() {
        -1
    } else if name[upto - 1] == '.' {
        upto - 1
    } else {
        last_dot(name, upto - 1)
    }
}

/// What follows the last dot of a file name; none if the name has no dot but
/// possibly a leading one.
pub open spec fn extension(name: Seq<char>) -> Option<Seq<char>> {
    let dot = last_dot(name, name.len() as int);
    if dot <= 0 {
        None
    } else {
        Some(name.subrange(dot + 1, name.len() as int))
    }
}

/// Whether a normalized path names a script by its extension.
pub open spec fn names_script(path: Seq<char>) -> bool {
    match file_name(path) {
        Some(name) => extension(name) == Some(seq!['l', 'u', 'a', 'u']) || extension(name) == Some(
            seq!['l', 'u', 'a'],
        ),
        None => false,
    }
}

/// The file `name` in the directory `directory`.
pub open spec fn inside(directory: Seq<char>, name: Seq<char>) -> Seq<char> {
    if directory.len() == 0 || directory.last() == '/' {
        directory + name
    } else {
        directory + seq!['/'] + name
    }
}

/// The files that a normalized path may name, in order of preference: the
/// path itself; unless it names a script by its extension, the path with the
/// extension `luau` and with `lua`, where it ends in a file name; and the
/// files `init`, `init.luau` and `init.lua` in the directory it names.
pub open spec fn candidates(path: Seq<char>) -> Seq<Seq<char>> {
    let init = inside(path, seq!['i', 'n', 'i', 't']);
    if names_script(path) {
        seq![path]
    } else if file_name(path) is Some {
        seq![
            path,
            path + seq!['.', 'l', 'u', 'a', 'u'],
            path + seq!['.', 'l', 'u', 'a'],
            init,
            init + seq!['.', 'l', 'u', 'a', 'u'],
            init + seq!['.', 'l', 'u', 'a'],
        ]
    } else {
        seq![
            path,
            init,
            init + seq!['.', 'l', 'u', 'a', 'u'],
            init + seq!['.', 'l', 'u', 'a'],
        ]
    }
}

/// Whether a path is relative to the importing file: it starts with the
/// component `.` or `..`.
pub open spec fn is_relative(path: Seq<char>) -> bool {
    let first = path.subrange(0, segment_end(path, 0));
    first == current_dir() || first == parent_dir()
}

/// The directory of the file `path`: `path` without its last component, and
/// without the separator before it unless that is the root.
pub open spec fn directory_of(path: Seq<char>) -> Seq<char> {
    let start = name_start(path, path.len() as int);
    if start <= 1 {
        path.subrange(0, start)
    } else {
        path.subrange(0, start - 1)
    }
}

/// The normalized path that the literal path `literal`, in the file
/// `source`, asks for: relative to the directory of `source` if it starts
/// with `.` or `..`, itself if it starts at the root. Any other literal goes
/// by a name that the paths alone do not explain.
pub open spec fn required_path(literal: Seq<char>, source: Seq<char>) -> Option<Seq<char>> {
    if is_relative(literal) {
        Some(normalized(inside(directory_of(source), literal), true))
    } else if literal.len() > 0 && literal[0] == '/' {
        Some(normalized(literal, true))
    } else {
        None
    }
}

/// The normalized forms of `paths`.
pub open spec fn all_normalized(paths: Seq<Seq<char>>) -> Seq<Seq<char>> {
    Seq::new(paths.len(), |i: int| normalized(paths[i], true))
}

/// The files that the import of `literal` in the file `source` may name, in
/// order of preference, each normalized; none where the literal is neither
/// relative to the importing file nor starts at the root.
pub open spec fn require_candidates(literal: Seq<char>, source: Seq<char>) -> Seq<Seq<char>> {
    match required_path(literal, source) {
        Some(path) => all_normalized(candidates(path)),
        None => Seq::empty(),
    }
}

/// The first of `files` that exists, going by `exists`, which says of each
/// whether it does.
pub open spec fn first_existing(files: Seq<Seq<char>>, exists: Seq<bool>, from: int) -> Option<
    Seq<char>,
>
    decreases files.len() - from,
{
    if from < 0 || from >= files.len() {
        None
    } else if from < exists.len() && exists[from] {
        Some(files[from])
    } else {
        first_existing(files, exists, from + 1)
    }
}

fn find_name_start(path: &str, length: usize) -> (start: usize)
    requires
        length == path@.len(),
    ensures
        start == name_start(path@, length as int),
        start <= length,
{
    let mut upto: usize = length;
    while upto > 0 && path.get_char(upto - 1) != '/'
        invariant
            upto <= length,
            length == path@.len(),
            name_start(path@, upto as int) == name_start(path@, length as int),
        decreases upto,
    {
        upto -= 1;
    }
    upto
}

fn find_last_dot(name: &str, length: usize) -> (dot: Option<usize>)
    requires
        length == name@.len(),
    ensures
        match dot {
            Some(index) => index == last_dot(name@, length as int) && index < length,
            None => last_dot(name@, length as int) == -1,
        },
{
    let mut upto: usize = length;
    while upto > 0
        invariant
            upto <= length,
            length == name@.len(),
            last_dot(name@, upto as int) == last_dot(name@, length as int),
        decreases upto,
    {
        if name.get_char(upto - 1) == '.' {
            return Some(upto - 1);
        }
        upto -= 1;
    }
    None
}

fn has_text(text: &str, wanted: &str) -> (same: bool)
    ensures
        same == (text@ == wanted@),
{
    String::from_str(text) == String::from_str(wanted)
}

fn ends_in_script_name(path: &str) -> (script: bool)
    ensures
        script == names_script(path@),
{
    proof {
        reveal_strlit("luau");
        reveal_strlit("lua");
        reveal_strlit(".");
        reveal_strlit("..");
    }
    assert("luau"@ =~= seq!['l', 'u', 'a', 'u']);
    assert("lua"@ =~= seq!['l', 'u', 'a']);
    let length = path.unicode_len();
    let start = find_name_start(path, length);
    let name = path.substring_char(start, length);
    let name_length = length - start;
    if name_length == 0 || has_text(name, ".") || has_text(name, "..") {
        return false;
    }
    match find_last_dot(name, name_length) {
        Some(dot) => {
            if dot == 0 {
                false
            } else {
                let found = name.substring_char(dot + 1, name_length);
                has_text(found, "luau") || has_text(found, "lua")
            }
        },
        None => false,
    }
}

fn ends_in_file_name(path: &str) -> (named: bool)
    ensures
        named == file_name(path@) is Some,
{
    proof {
        reveal_strlit(".");
        reveal_strlit("..");
    }
    assert("."@ =~= current_dir());
    assert(".."@ =~= parent_dir());
    let length = path.unicode_len();
    let start = find_name_start(path, length);
    let name = path.substring_char(start, length);
    !(length - start == 0 || has_text(name, ".") || has_text(name, ".."))
}

fn join_inside(directory: &str, name: &str) -> (joined: String)
    ensures
        joined@ == inside(directory@, name@),
{
    proof {
        reveal_strlit("/");
    }
    let length = directory.unicode_len();
    let mut joined = String::from_str(directory);
    if !(length == 0 || directory.get_char(length - 1) == '/') {
        joined.append("/");
    }
    joined.append(name);
    joined
}

fn with_suffix(path: &str, suffix: &str) -> (longer: String)
    ensures
        longer@ == path@ + suffix@,
{
    let mut longer = String::from_str(path);
    longer.append(suffix);
    longer
}

/// Computes [`candidates`].
pub fn find_require_paths(path: &str) -> (files: Vec<String>)
    ensures
        texts(files@) == candidates(path@),
{
    proof {
        reveal_strlit("init");
        reveal_strlit(".luau");
        reveal_strlit(".lua");
    }
    assert("init"@ =~= seq!['i', 'n', 'i', 't']);
    assert(".luau"@ =~= seq!['.', 'l', 'u', 'a', 'u']);
    assert(".lua"@ =~= seq!['.', 'l', 'u', 'a']);
    let mut files: Vec<String> = Vec::new();
    files.push(String::from_str(path));
    if ends_in_script_name(path) {
        return files;
    }
    if ends_in_file_name(path) {
        files.push(with_suffix(path, ".luau"));
        files.push(with_suffix(path, ".lua"));
    }
    let init = join_inside(path, "init");
    files.push(with_suffix(init.as_str(), ".luau"));
    files.push(with_suffix(init.as_str(), ".lua"));
    let last = files.len() - 2;
    files.insert(last, init);
    files
}

/// Computes [`is_relative`].
pub fn is_require_relative(path: &str) -> (relative: bool)
    ensures
        relative == is_relative(path@),
{
    proof {
        reveal_strlit(".");
        reveal_strlit("..");
    }
    assert("."@ =~= current_dir());
    assert(".."@ =~= parent_dir());
    let length = path.unicode_len();
    let mut end: usize = 0;
    while end < length && path.get_char(end) != '/'
        invariant
            end <= length,
            length == path@.len(),
            segment_end(path@, end as int) == segment_end(path@, 0),
        decreases length - end,
    {
        end += 1;
    }
    let first = path.substring_char(0, end);
    has_text(first, ".") || has_text(first, "..")
}

/// Computes [`directory_of`].
pub fn parent_directory(path: &str) -> (directory: String)
    ensures
        directory@ == directory_of(path@),
{
    let length = path.unicode_len();
    let start = find_name_start(path, length);
    if start <= 1 {
        String::from_str(path.substring_char(0, start))
    } else {
        String::from_str(path.substring_char(0, start - 1))
    }
}

/// The files that the import of `literal` in the file `source` may name, in
/// order of preference.
pub fn find_require_candidates(literal: &str, source: &str) -> (files: Vec<String>)
    ensures
        texts(files@) == require_candidates(literal@, source@),
{
    let path = if is_require_relative(literal) {
        let directory = parent_directory(source);
        normalize_path_with_current_dir(join_inside(directory.as_str(), literal).as_str())
    } else if literal.unicode_len() > 0 && literal.get_char(0) == '/' {
        normalize_path_with_current_dir(literal)
    } else {
        let files: Vec<String> = Vec::new();
        return files;
    };
    let found = find_require_paths(path.as_str());
    let mut files: Vec<String> = Vec::new();
    let mut i: usize = 0;
    while i < found.len()
        invariant
            i <= found@.len(),
            files@.len() == i,
            forall|j: int| 0 <= j < i ==> (#[trigger] files@[j])@ == normalized(found@[j]@, true),
        decreases found@.len() - i,
    {
        files.push(normalize_path_with_current_dir(found[i].as_str()));
        i += 1;
    }
    files
}

/// The first of `files` that exists, going by `exists`, which says of each
/// whether it does.
pub fn choose_existing(files: &Vec<String>, exists: &Vec<bool>) -> (file: Option<String>)
    ensures
        file is Some <==> first_existing(texts(files@), exists@, 0) is Some,
        file is Some ==> file->0@ == first_existing(texts(files@), exists@, 0)->0,
{
    let mut i: usize = 0;
    while i < files.len()
        invariant
            i <= files@.len(),
            first_existing(texts(files@), exists@, 0) == first_existing(
                texts(files@),
                exists@,
                i as int,
            ),
        decreases files@.len() - i,
    {
        if i < exists.len() && exists[i] {
            return Some(files[i].clone());
        }
        i += 1;
    }
    None
}

} // verus!
