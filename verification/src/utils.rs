//! Names of calls and lexical path normalisation.

use crate::nodes::{Expression, FieldExpression, FunctionCall};
use vstd::prelude::*;
use vstd::string::*;

verus! {

/// `left`, a dot, `right`.
pub open spec fn dotted(left: Seq<char>, right: Seq<char>) -> Seq<char> {
    left + seq!['.'] + right
}

/// The fully qualified name of a chain of field accesses that starts at an
/// identifier: `a.b.c` for the expression `a.b.c`. A chain that goes through
/// anything else (an index, a call, parentheses) has no name.
pub open spec fn fqn(field_expression: FieldExpression) -> Option<Seq<char>>
    decreases field_expression,
{
    match field_expression.prefix {
        Expression::Identifier(name) => Some(dotted(name@, field_expression.field@)),
        Expression::Field(inner) => match fqn(*inner) {
            Some(qualified) => Some(dotted(qualified, field_expression.field@)),
            None => None,
        },
        _ => None,
    }
}

/// The name a call goes by: the callee's identifier or its fully qualified
/// name. A method call, and a call whose callee is neither, has none.
pub open spec fn call_name(call: FunctionCall) -> Option<Seq<char>> {
    if call.method is Some {
        None
    } else {
        match call.prefix {
            Expression::Identifier(name) => Some(name@),
            Expression::Field(field) => fqn(*field),
            _ => None,
        }
    }
}

fn join_dotted(left: String, right: &String) -> (joined: String)
    ensures
        joined@ == dotted(left@, right@),
{
    proof {
        reveal_strlit(".");
    }
    let mut joined = left;
    joined.append(".");
    joined.append(right.as_str());
    joined
}

/// Computes [`fqn`].
pub fn get_fqn(field_expression: &FieldExpression) -> (name: Option<String>)
    ensures
        name is Some <==> fqn(*field_expression) is Some,
        name is Some ==> name->0@ == fqn(*field_expression)->0,
    decreases field_expression,
{
    match &field_expression.prefix {
        Expression::Identifier(prefix_ident) => Some(
            join_dotted(prefix_ident.clone(), &field_expression.field),
        ),
        Expression::Field(field) => match get_fqn(field) {
            Some(qualified) => Some(join_dotted(qualified, &field_expression.field)),
            None => None,
        },
        _ => None,
    }
}

/// Computes [`call_name`].
pub fn get_call_name(call: &FunctionCall) -> (name: Option<String>)
    ensures
        name is Some <==> call_name(*call) is Some,
        name is Some ==> name->0@ == call_name(*call)->0,
{
    if call.method.is_some() {
        return None;
    }
    match &call.prefix {
        Expression::Identifier(identifier) => Some(identifier.clone()),
        Expression::Field(field) => get_fqn(field),
        _ => None,
    }
}

/// The text of the root component.
pub open spec fn root_dir() -> Seq<char> {
    seq!['/']
}

/// The text of the component that stands for the directory itself.
pub open spec fn current_dir() -> Seq<char> {
    seq!['.']
}

/// The text of the component that stands for the directory above.
pub open spec fn parent_dir() -> Seq<char> {
    seq!['.', '.']
}

/// The index of the first separator of `path` at or after `from`, or the
/// length of `path` if there is none.
pub open spec fn segment_end(path: Seq<char>, from: int) -> int
    decreases path.len() - from,
{
    if from < 0 || from >= path.len() {
        path.len() as int
    } else if path[from] == '/' {
        from
    } else {
        segment_end(path, from + 1)
    }
}

/// The components kept so far, after a `..` came in: it takes the place of a
/// leading `.`, piles up on other `..`, and removes anything else.
pub open spec fn step_up(kept: Seq<Seq<char>>) -> Seq<Seq<char>> {
    if kept.len() == 0 {
        kept.push(parent_dir())
    } else if kept.last() == current_dir() {
        kept.drop_last().push(parent_dir())
    } else if kept.last() != parent_dir() {
        kept.drop_last()
    } else {
        kept.push(parent_dir())
    }
}

/// The components kept after `segment`, the text between two separators, came
/// in. An empty segment stands for a repeated or trailing separator. A `.` is
/// kept only where it opens the path and `keep_current_dir` holds.
pub open spec fn step(
    kept: Seq<Seq<char>>,
    segment: Seq<char>,
    opens_path: bool,
    keep_current_dir: bool,
) -> Seq<Seq<char>> {
    if segment.len() == 0 {
        kept
    } else if segment == current_dir() {
        if opens_path && keep_current_dir && kept.len() == 0 {
            kept.push(current_dir())
        } else {
            kept
        }
    } else if segment == parent_dir() {
        step_up(kept)
    } else {
        kept.push(segment)
    }
}

/// The components kept once the segments of `path` from index `from` on have
/// come in, one after the other, starting with `kept`.
pub open spec fn components_from(
    path: Seq<char>,
    from: int,
    opens_path: bool,
    keep_current_dir: bool,
    kept: Seq<Seq<char>>,
) -> Seq<Seq<char>>
    decreases path.len() - from,
{
    if from < 0 || from > path.len() {
        kept
    } else {
        let end = segment_end(path, from);
        let next = step(kept, path.subrange(from, end), opens_path, keep_current_dir);
        if from <= end < path.len() {
            components_from(path, end + 1, false, keep_current_dir, next)
        } else {
            next
        }
    }
}

/// The components of the normal form of `path`: the root if the path is
/// absolute, then what its segments leave.
pub open spec fn components(path: Seq<char>, keep_current_dir: bool) -> Seq<Seq<char>> {
    let start = if path.len() > 0 && path[0] == '/' {
        seq![root_dir()]
    } else {
        Seq::<Seq<char>>::empty()
    };
    components_from(path, 0, true, keep_current_dir, start)
}

/// `path` with `component` appended as a path component: the root replaces
/// what was there, anything else follows a separator where one is needed.
pub open spec fn with_component(path: Seq<char>, component: Seq<char>) -> Seq<char> {
    if component == root_dir() || path.len() == 0 {
        component
    } else if path.last() == '/' {
        path + component
    } else {
        path + seq!['/'] + component
    }
}

/// The path made of the first `count` of `parts`.
pub open spec fn joined(parts: Seq<Seq<char>>, count: int) -> Seq<char>
    decreases count,
{
    if count <= 0 || count > parts.len() {
        Seq::<char>::empty()
    } else {
        with_component(joined(parts, count - 1), parts[count - 1])
    }
}

/// The normal form of `path`: no `.` but possibly a leading one, no repeated
/// or trailing separator, and no `..` that a component before it can absorb.
/// The empty path stays empty; a path that normalises to nothing is `.`.
pub open spec fn normalized(path: Seq<char>, keep_current_dir: bool) -> Seq<char> {
    if path.len() == 0 {
        path
    } else {
        let kept = components(path, keep_current_dir);
        if kept.len() == 0 {
            current_dir()
        } else {
            joined(kept, kept.len() as int)
        }
    }
}

/// The texts of a list of strings.
pub open spec fn texts(strings: Seq<String>) -> Seq<Seq<char>> {
    Seq::new(strings.len(), |i: int| strings[i]@)
}

fn is_current_dir(text: &str) -> (same: bool)
    ensures
        same == (text@ == current_dir()),
{
    let same = text.unicode_len() == 1 && text.get_char(0) == '.';
    assert(same ==> text@ =~= current_dir());
    same
}

fn is_parent_dir(text: &str) -> (same: bool)
    ensures
        same == (text@ == parent_dir()),
{
    let same = text.unicode_len() == 2 && text.get_char(0) == '.' && text.get_char(1) == '.';
    assert(same ==> text@ =~= parent_dir());
    same
}

fn current_dir_text() -> (text: String)
    ensures
        text@ == current_dir(),
{
    proof {
        reveal_strlit(".");
    }
    let text = String::from_str(".");
    text
}

fn parent_dir_text() -> (text: String)
    ensures
        text@ == parent_dir(),
{
    proof {
        reveal_strlit("..");
    }
    let text = String::from_str("..");
    text
}

fn root_dir_text() -> (text: String)
    ensures
        text@ == root_dir(),
{
    proof {
        reveal_strlit("/");
    }
    let text = String::from_str("/");
    text
}

fn find_segment_end(path: &str, length: usize, from: usize) -> (end: usize)
    requires
        length == path@.len(),
        from <= length,
    ensures
        end == segment_end(path@, from as int),
        from <= end <= length,
    decreases length - from,
{
    let mut end: usize = from;
    while end < length && path.get_char(end) != '/'
        invariant
            from <= end <= length,
            length == path@.len(),
            segment_end(path@, end as int) == segment_end(path@, from as int),
        decreases length - end,
    {
        end += 1;
    }
    end
}

fn take_step_up(kept: &mut Vec<String>)
    ensures
        texts(final(kept)@) == step_up(texts(old(kept)@)),
{
    let count = kept.len();
    if count == 0 {
        kept.push(parent_dir_text());
    } else if is_current_dir(kept[count - 1].as_str()) {
        kept.pop();
        kept.push(parent_dir_text());
    } else if !is_parent_dir(kept[count - 1].as_str()) {
        kept.pop();
    } else {
        kept.push(parent_dir_text());
    }
}

fn take_step(kept: &mut Vec<String>, segment: &str, opens_path: bool, keep_current_dir: bool)
    ensures
        texts(final(kept)@) == step(texts(old(kept)@), segment@, opens_path, keep_current_dir),
{
    if segment.unicode_len() == 0 {
    } else if is_current_dir(segment) {
        if opens_path && keep_current_dir && kept.len() == 0 {
            kept.push(current_dir_text());
        }
    } else if is_parent_dir(segment) {
        take_step_up(kept);
    } else {
        kept.push(String::from_str(segment));
    }
}

fn join(parts: &Vec<String>) -> (path: String)
    ensures
        path@ == joined(texts(parts@), parts@.len() as int),
{
    proof {
        reveal_strlit("/");
    }
    let mut path = String::new();
    let mut i: usize = 0;
    while i < parts.len()
        invariant
            i <= parts@.len(),
            path@ == joined(texts(parts@), i as int),
            "/"@ == seq!['/'],
        decreases parts@.len() - i,
    {
        let part = parts[i].as_str();
        let length = path.as_str().unicode_len();
        if part.unicode_len() == 1 && part.get_char(0) == '/' {
            assert(part@ =~= root_dir());
            path = String::from_str(part);
        } else if length == 0 {
            path = String::from_str(part);
        } else if path.as_str().get_char(length - 1) == '/' {
            path.append(part);
        } else {
            path.append("/");
            path.append(part);
        }
        i += 1;
    }
    path
}

fn normalize(path: &str, keep_current_dir: bool) -> (normal: String)
    ensures
        normal@ == normalized(path@, keep_current_dir),
{
    let length = path.unicode_len();
    if length == 0 {
        let normal = String::new();
        return normal;
    }
    let mut kept: Vec<String> = Vec::new();
    if path.get_char(0) == '/' {
        kept.push(root_dir_text());
        assert(texts(kept@) =~= seq![root_dir()]);
    } else {
        assert(texts(kept@) =~= Seq::<Seq<char>>::empty());
    }
    let mut from: usize = 0;
    let mut opens_path = true;
    loop
        invariant_except_break
            from <= length,
            length == path@.len(),
            components_from(path@, from as int, opens_path, keep_current_dir, texts(kept@))
                == components(path@, keep_current_dir),
        ensures
            texts(kept@) == components(path@, keep_current_dir),
        decreases length - from,
    {
        let end = find_segment_end(path, length, from);
        take_step(&mut kept, path.substring_char(from, end), opens_path, keep_current_dir);
        if end >= length {
            break ;
        }
        from = end + 1;
        opens_path = false;
    }
    if kept.len() == 0 {
        current_dir_text()
    } else {
        join(&kept)
    }
}

/// The normal form of `path`, without a leading `.`.
pub fn normalize_path(path: &str) -> (normal: String)
    ensures
        normal@ == normalized(path@, false),
{
    normalize(path, false)
}

/// The normal form of `path`, where a leading `.` stays to say that the path
/// is relative to the working directory.
pub fn normalize_path_with_current_dir(path: &str) -> (normal: String)
    ensures
        normal@ == normalized(path@, true),
{
    normalize(path, true)
}

} // verus!
