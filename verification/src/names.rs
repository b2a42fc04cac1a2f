//! File names and paths, as sequences of characters.

use vstd::prelude::*;
use vstd::string::*;

verus! {

/// The character that separates the components of a path.
pub open spec fn separator() -> char {
    '/'
}

/// The extension that marks a file as an archive, without its dot.
pub open spec fn archive_extension() -> Seq<char> {
    seq!['r', 'a', 'r']
}

/// Index of the last occurrence of `c` in `text`, or `-1` when there is
/// none.
pub open spec fn last_index_of(text: Seq<char>, c: char) -> int
    decreases text.len(),
{
    if text.len() == 0 {
        -1
    } else if text.last() == c {
        text.len() - 1
    } else {
        last_index_of(text.drop_last(), c)
    }
}

/// The extension of a file name: what follows its last `.`, provided that
/// dot is not the first character of the name.
pub open spec fn extension(name: Seq<char>) -> Option<Seq<char>> {
    let dot = last_index_of(name, '.');
    if dot <= 0 {
        None
    } else {
        Some(name.subrange(dot + 1, name.len() as int))
    }
}

/// A file name denotes an archive when its extension is the archive
/// extension, compared case-sensitively.
pub open spec fn is_archive(name: Seq<char>) -> bool {
    extension(name) == Some(archive_extension())
}

/// `last_index_of` finds an occurrence of `c`, and none follows it.
pub proof fn lemma_last_index_of(text: Seq<char>, c: char)
    ensures
        -1 <= last_index_of(text, c) < text.len(),
        last_index_of(text, c) >= 0 ==> text[last_index_of(text, c)] == c,
        forall|i: int| last_index_of(text, c) < i < text.len() ==> text[i] != c,
    decreases text.len(),
{
    if text.len() > 0 && text.last() != c {
        let front = text.drop_last();
        lemma_last_index_of(front, c);
        assert forall|i: int| last_index_of(text, c) < i < text.len() implies text[i] != c by {
            if i < front.len() {
                assert(front[i] == text[i]);
            }
        }
    }
}

/// An occurrence of `c` that no other occurrence follows is the last one.
pub proof fn lemma_last_index_of_unique(text: Seq<char>, c: char, at: int)
    requires
        -1 <= at < text.len(),
        at >= 0 ==> text[at] == c,
        forall|i: int| at < i < text.len() ==> text[i] != c,
    ensures
        last_index_of(text, c) == at,
{
    lemma_last_index_of(text, c);
}

/// A name is an archive exactly when it ends in `.rar` and has at least one
/// character before that suffix.
pub proof fn lemma_archive_suffix(name: Seq<char>)
    ensures
        is_archive(name) <==> {
            &&& name.len() >= 5
            &&& name[name.len() - 4] == '.'
            &&& name[name.len() - 3] == 'r'
            &&& name[name.len() - 2] == 'a'
            &&& name[name.len() - 1] == 'r'
        },
{
    let n = name.len() as int;
    lemma_last_index_of(name, '.');
    let dot = last_index_of(name, '.');
    if is_archive(name) {
        let ext = name.subrange(dot + 1, n);
        assert(ext == archive_extension());
        assert(ext.len() == 3);
        assert(ext[0] == 'r' && ext[1] == 'a' && ext[2] == 'r');
    }
    if n >= 5 && name[n - 4] == '.' && name[n - 3] == 'r' && name[n - 2] == 'a' && name[n - 1]
        == 'r' {
        lemma_last_index_of_unique(name, '.', n - 4);
        assert(name.subrange(n - 3, n) =~= archive_extension());
    }
}

/// Whether a file of this name is an archive.
pub fn is_archive_name(name: &str) -> (archive: bool)
    ensures
        archive == is_archive(name@),
{
    proof {
        lemma_archive_suffix(name@);
    }
    let n: usize = name.unicode_len();
    if n < 5 {
        return false;
    }
    name.get_char(n - 4) == '.' && name.get_char(n - 3) == 'r' && name.get_char(n - 2) == 'a'
        && name.get_char(n - 1) == 'r'
}

/// The path of the entry `name` of the directory `dir`. An empty `dir` is
/// the current directory, so the path is then `name` alone; no second
/// separator is put behind a `dir` that already ends in one.
pub open spec fn joined(dir: Seq<char>, name: Seq<char>) -> Seq<char> {
    if dir.len() == 0 {
        name
    } else if dir.last() == separator() {
        dir + name
    } else {
        dir + seq![separator()] + name
    }
}

/// Builds the path of the entry `name` of the directory `dir`.
pub fn join(dir: &str, name: &str) -> (path: String)
    ensures
        path@ == joined(dir@, name@),
{
    let n: usize = dir.unicode_len();
    if n == 0 {
        return String::from_str(name);
    }
    let mut path = String::from_str(dir);
    if dir.get_char(n - 1) != '/' {
        proof {
            reveal_strlit("/");
        }
        path.append("/");
        assert("/"@ =~= seq![separator()]);
    }
    path.append(name);
    path
}

/// The component `.`, which stands for the directory it is met in.
pub open spec fn dot() -> Seq<char> {
    seq!['.']
}

/// The component `..`, which stands for the directory above the one it is
/// met in.
pub open spec fn dot_dot() -> Seq<char> {
    seq!['.', '.']
}

/// Whether `path` starts at the root of the file system.
pub open spec fn is_absolute(path: Seq<char>) -> bool {
    path.len() > 0 && path[0] == separator()
}

/// What a file name looks like: it is not empty and holds no separator.
pub open spec fn is_file_name(name: Seq<char>) -> bool {
    &&& name.len() > 0
    &&& forall|i: int| 0 <= i < name.len() ==> name[i] != separator()
}

/// A file name that names an entry of the directory it is met in: any but
/// `.` and `..`.
pub open spec fn is_entry_name(name: Seq<char>) -> bool {
    &&& is_file_name(name)
    &&& name != dot()
    &&& name != dot_dot()
}

/// How many characters follow the last separator of `path`: the length of
/// its last component, zero if the path ends in a separator.
pub open spec fn tail_len(path: Seq<char>) -> nat
    decreases path.len(),
{
    if path.len() == 0 || path.last() == separator() {
        0
    } else {
        1 + tail_len(path.drop_last())
    }
}

/// The last component of `path`: what follows its last separator.
pub open spec fn last_step(path: Seq<char>) -> Seq<char> {
    path.skip(path.len() - tail_len(path))
}

/// What stands before the last component of `path`, up to its last
/// separator and with it.
pub open spec fn before_last(path: Seq<char>) -> Seq<char> {
    path.take(path.len() - tail_len(path))
}

/// The last component lies within the path, holds no separator, and
/// starts at the start of the path or behind a separator.
pub proof fn lemma_tail_len(path: Seq<char>)
    ensures
        tail_len(path) <= path.len(),
        path.len() > 0 && path.last() != separator() ==> tail_len(path) > 0,
        forall|i: int| path.len() - tail_len(path) <= i < path.len() ==> path[i] != separator(),
        tail_len(path) < path.len() ==> path[path.len() - tail_len(path) - 1] == separator(),
    decreases path.len(),
{
    if path.len() > 0 && path.last() != separator() {
        let front = path.drop_last();
        lemma_tail_len(front);
        assert forall|i: int| path.len() - tail_len(path) <= i < path.len() implies path[i]
            != separator() by {
            if i < front.len() {
                assert(front[i] == path[i]);
            }
        }
        if tail_len(path) < path.len() {
            assert(front[front.len() - tail_len(front) - 1] == path[path.len() - tail_len(path)
                - 1]);
        }
    }
}

/// A stretch without a separator that stands at the start of a path or
/// behind a separator, and at the path's end, is its last component.
pub proof fn lemma_last_step(before: Seq<char>, name: Seq<char>)
    requires
        before.len() == 0 || before.last() == separator(),
        forall|i: int| 0 <= i < name.len() ==> name[i] != separator(),
    ensures
        tail_len(before + name) == name.len(),
        last_step(before + name) == name,
        before_last(before + name) == before,
    decreases name.len(),
{
    let path = before + name;
    if name.len() == 0 {
        assert(path =~= before);
    } else {
        assert(path.last() == name.last());
        assert(path.drop_last() =~= before + name.drop_last());
        lemma_last_step(before, name.drop_last());
    }
    assert(path.skip(before.len() as int) =~= name);
    assert(path.take(before.len() as int) =~= before);
}

/// Whether the last character of `path` is a component `.` of its own.
pub open spec fn ends_in_dot(path: Seq<char>) -> bool {
    &&& path.len() > 0
    &&& path.last() == '.'
    &&& path.len() == 1 || path[path.len() - 2] == separator()
}

/// Length of `path` once the separators and the `.` components at its end
/// are taken off.
pub open spec fn stem_len(path: Seq<char>) -> nat
    decreases path.len(),
{
    if path.len() == 0 {
        0
    } else if path.last() == separator() || ends_in_dot(path) {
        stem_len(path.drop_last())
    } else {
        path.len()
    }
}

/// `path` without the separators and the `.` components at its end. It
/// names what `path` names: a separator at the end changes nothing, and
/// `.` in a directory is that directory.
pub open spec fn stem(path: Seq<char>) -> Seq<char> {
    path.take(stem_len(path) as int)
}

/// A path that does not end in a separator ends in `.` as a component of
/// its own exactly when its last component is `.`.
pub proof fn lemma_ends_in_dot(path: Seq<char>)
    requires
        path.len() > 0,
        path.last() != separator(),
    ensures
        ends_in_dot(path) <==> last_step(path) == dot(),
        ends_in_dot(path) ==> before_last(path) == path.drop_last(),
{
    lemma_tail_len(path);
    let front = path.drop_last();
    lemma_tail_len(front);
    if ends_in_dot(path) {
        assert(tail_len(front) == 0);
        assert(last_step(path) =~= dot());
        assert(before_last(path) =~= front);
    }
    if last_step(path) == dot() {
        assert(last_step(path).len() == 1);
        assert(last_step(path)[0] == path.last());
    }
}

/// The stem lies within the path and is its own stem: it does not end in
/// a separator or in a component `.`.
pub proof fn lemma_stem(path: Seq<char>)
    ensures
        stem_len(path) <= path.len(),
        stem_len(stem(path)) == stem_len(path),
        stem_len(path) > 0 ==> stem(path).last() != separator() && !ends_in_dot(stem(path))
            && is_absolute(stem(path)) == is_absolute(path),
    decreases path.len(),
{
    if path.len() == 0 {
    } else if path.last() == separator() || ends_in_dot(path) {
        let front = path.drop_last();
        lemma_stem(front);
        assert(stem(path) =~= stem(front));
    } else {
        assert(stem(path) =~= path);
    }
}

/// The steps of the walk that `path` describes: its components in order,
/// but for the components `.`, which lead nowhere. From where the walk
/// starts is told by `is_absolute`.
pub open spec fn steps(path: Seq<char>) -> Seq<Seq<char>>
    decreases path.len(),
    via steps_decreases
{
    if path.len() == 0 {
        Seq::empty()
    } else if path.last() == separator() {
        steps(path.drop_last())
    } else if last_step(path) == dot() {
        steps(before_last(path))
    } else {
        steps(before_last(path)).push(last_step(path))
    }
}

#[via_fn]
proof fn steps_decreases(path: Seq<char>) {
    lemma_tail_len(path);
}

/// The stem describes the same walk as the path.
pub proof fn lemma_steps_of_stem(path: Seq<char>)
    ensures
        steps(stem(path)) == steps(path),
    decreases path.len(),
{
    if path.len() == 0 {
        assert(stem(path) =~= path);
    } else if path.last() == separator() || ends_in_dot(path) {
        let front = path.drop_last();
        lemma_stem(front);
        lemma_steps_of_stem(front);
        assert(stem(path) =~= stem(front));
        if path.last() != separator() {
            lemma_ends_in_dot(path);
        }
    } else {
        assert(stem(path) =~= path);
    }
}

/// The walk to the entry `name` of `dir` is the walk to `dir` and then
/// the step `name`, from the same start.
pub proof fn lemma_steps_of_joined(dir: Seq<char>, name: Seq<char>)
    requires
        is_file_name(name),
        name != dot(),
    ensures
        steps(joined(dir, name)) == steps(dir).push(name),
        is_absolute(joined(dir, name)) == is_absolute(dir),
{
    let path = joined(dir, name);
    let before = if dir.len() == 0 || dir.last() == separator() {
        dir
    } else {
        dir + seq![separator()]
    };
    assert(path =~= before + name);
    lemma_last_step(before, name);
    assert(path.last() == name.last());
    assert(steps(path) == steps(before).push(name));
    if before != dir {
        assert(before.drop_last() =~= dir);
        assert(steps(before) == steps(dir));
    }
}

/// Two entries of one directory that have the same path have the same
/// name.
pub proof fn lemma_joined_tells_name(dir: Seq<char>, first: Seq<char>, second: Seq<char>)
    requires
        joined(dir, first) == joined(dir, second),
    ensures
        first == second,
{
    let before = if dir.len() == 0 || dir.last() == separator() {
        dir
    } else {
        dir + seq![separator()]
    };
    assert(joined(dir, first) =~= before + first);
    assert(joined(dir, second) =~= before + second);
    assert((before + first).skip(before.len() as int) =~= first);
    assert((before + second).skip(before.len() as int) =~= second);
}

/// The directory beside whose entry `path` is: the parent that can be
/// told from the text. The separators and `.` components at the end of
/// the path are left aside. If what is left ends in the name of an entry,
/// the parent is what stands before that name, again without separators
/// and `.` components at its end: the root if nothing but the leading
/// separator is left, the empty path, which is the current directory, if
/// nothing is left. There is no such parent if the path is empty, names
/// the root, is `.`, or ends in `..`: which directory `..` leads to is not
/// told by the text.
pub open spec fn parent_of(path: Seq<char>) -> Option<Seq<char>> {
    let whole = stem(path);
    let head = stem(before_last(whole));
    if whole.len() == 0 || last_step(whole) == dot_dot() {
        None
    } else if head.len() > 0 {
        Some(head)
    } else if is_absolute(whole) {
        Some(seq![separator()])
    } else {
        Some(Seq::empty())
    }
}

/// Whether `path` names a directory by way of `.` or `..` alone, so that
/// its text does not tell the parent: it is not empty and not absolute,
/// and nothing is left of it without the `.` components; or what is left
/// ends in `..`.
pub open spec fn dotted(path: Seq<char>) -> bool {
    let whole = stem(path);
    if whole.len() == 0 {
        path.len() > 0 && !is_absolute(path)
    } else {
        last_step(whole) == dot_dot()
    }
}

/// What `parent_of` returns: the empty path, the root, or a path that is
/// its own stem.
pub open spec fn is_plain_dir(dir: Seq<char>) -> bool {
    ||| dir.len() == 0
    ||| dir == seq![separator()]
    ||| stem_len(dir) == dir.len()
}

/// What the parent is. If `path` has the parent `dir`, then `path` ends,
/// separators and `.` aside, in the name of an entry, and the walk that
/// `path` describes is the walk to `dir` followed by the step of that
/// name, from the same start: `path` names an entry of `dir`.
pub proof fn lemma_parent_holds_path(path: Seq<char>)
    ensures
        parent_of(path) matches Some(dir) ==> {
            &&& is_plain_dir(dir)
            &&& is_entry_name(last_step(stem(path)))
            &&& steps(path) == steps(dir).push(last_step(stem(path)))
            &&& is_absolute(path) == is_absolute(dir)
        },
        parent_of(path) is None <==> stem(path).len() == 0 || last_step(stem(path)) == dot_dot(),
{
    let whole = stem(path);
    let name = last_step(whole);
    let before = before_last(whole);
    let head = stem(before);
    lemma_stem(path);
    lemma_steps_of_stem(path);
    if parent_of(path) is Some {
        lemma_tail_len(whole);
        lemma_ends_in_dot(whole);
        assert(is_file_name(name));
        lemma_stem(before);
        lemma_steps_of_stem(before);
        assert(steps(whole) == steps(before).push(name));
        if head.len() == 0 {
            assert(steps(head) =~= Seq::<Seq<char>>::empty());
            let root = seq![separator()];
            assert(root.drop_last() =~= Seq::<char>::empty());
            assert(steps(root) == steps(root.drop_last()));
        } else {
            assert(before[0] == whole[0]);
        }
    }
}

/// The entry `name` of a plain directory has that directory as its
/// parent: joining an entry's name on and taking the parent leads back.
pub proof fn lemma_parent_of_joined(dir: Seq<char>, name: Seq<char>)
    requires
        is_plain_dir(dir),
        is_entry_name(name),
    ensures
        parent_of(joined(dir, name)) == Some(dir),
        stem(joined(dir, name)) == joined(dir, name),
{
    let path = joined(dir, name);
    let before = if dir.len() == 0 || dir.last() == separator() {
        dir
    } else {
        dir + seq![separator()]
    };
    assert(path =~= before + name);
    lemma_last_step(before, name);
    assert(path.last() == name.last());
    lemma_ends_in_dot(path);
    assert(stem(path) =~= path);
    lemma_stem(before);
    if dir.len() == 0 {
        assert(path =~= name);
    } else if dir == seq![separator()] {
        assert(before.drop_last() =~= Seq::<char>::empty());
        assert(stem_len(before) == 0);
    } else {
        assert(dir.last() != separator()) by {
            lemma_stem(dir);
            assert(stem(dir) =~= dir);
        }
        assert(before.drop_last() =~= dir);
        assert(stem(before) =~= dir);
    }
}

/// Whether the first `end` characters of `path` end in a separator or in
/// a component `.`.
fn drops_last(path: &str, end: usize) -> (drops: bool)
    requires
        0 < end <= path@.len(),
    ensures
        drops == (path@[end - 1] == separator() || ends_in_dot(path@.take(end as int))),
{
    let last = path.get_char(end - 1);
    if last == '/' {
        true
    } else if last == '.' {
        end == 1 || path.get_char(end - 2) == '/'
    } else {
        false
    }
}

/// Length of the stem of the first `len` characters of `path`.
fn stem_end(path: &str, len: usize) -> (end: usize)
    requires
        len <= path@.len(),
    ensures
        end == stem_len(path@.take(len as int)),
        end <= len,
{
    let mut end: usize = len;
    while end > 0 && drops_last(path, end)
        invariant
            end <= len <= path@.len(),
            stem_len(path@.take(len as int)) == stem_len(path@.take(end as int)),
        decreases end,
    {
        assert(path@.take(end as int).drop_last() =~= path@.take(end - 1));
        end = end - 1;
    }
    end
}

/// Where the last component of the first `len` characters of `path`
/// starts.
fn step_start(path: &str, len: usize) -> (start: usize)
    requires
        len <= path@.len(),
    ensures
        start == len - tail_len(path@.take(len as int)),
        start <= len,
{
    let mut start: usize = len;
    while start > 0 && path.get_char(start - 1) != '/'
        invariant
            start <= len <= path@.len(),
            len - tail_len(path@.take(len as int)) == start - tail_len(
                path@.take(start as int),
            ),
        decreases start,
    {
        assert(path@.take(start as int).drop_last() =~= path@.take(start - 1));
        start = start - 1;
    }
    start
}

/// Whether the characters of `path` from `start` up to `end` are the
/// component `..`.
fn is_dot_dot(path: &str, start: usize, end: usize) -> (is: bool)
    requires
        start <= end <= path@.len(),
    ensures
        is == (path@.subrange(start as int, end as int) == dot_dot()),
{
    let ghost step = path@.subrange(start as int, end as int);
    assert(step.len() == end - start && dot_dot().len() == 2);
    if end - start != 2 {
        return false;
    }
    assert(step[0] == path@[start as int] && step[1] == path@[start + 1]);
    let is = path.get_char(start) == '.' && path.get_char(start + 1) == '.';
    assert(is ==> step =~= dot_dot());
    is
}

/// The parent of `path` that can be told from its text, if there is one.
///
/// Each character is looked up from the start of the text, so the time
/// grows with the square of the path's length.
pub fn parent_dir(path: &str) -> (parent: Option<String>)
    ensures
        match parent {
            Some(dir) => parent_of(path@) == Some(dir@),
            None => parent_of(path@) is None,
        },
{
    let len: usize = path.unicode_len();
    assert(path@.take(len as int) =~= path@);
    let whole: usize = stem_end(path, len);
    if whole == 0 {
        return None;
    }
    let ghost stem = path@.take(whole as int);
    let start: usize = step_start(path, whole);
    assert(last_step(stem) =~= path@.subrange(start as int, whole as int));
    assert(before_last(stem) =~= path@.take(start as int));
    if is_dot_dot(path, start, whole) {
        return None;
    }
    let head: usize = stem_end(path, start);
    if head > 0 {
        let dir = String::from_str(path.substring_char(0, head));
        assert(dir@ =~= path@.take(start as int).take(head as int));
        return Some(dir);
    }
    if path.get_char(0) == '/' {
        proof {
            reveal_strlit("/");
        }
        let root = String::from_str("/");
        assert(root@ =~= seq![separator()]);
        Some(root)
    } else {
        let here = String::new();
        assert(here@ =~= Seq::<char>::empty());
        Some(here)
    }
}

/// Whether `path` names a directory by way of `.` or `..` alone.
pub fn is_dotted(path: &str) -> (is: bool)
    ensures
        is == dotted(path@),
{
    let len: usize = path.unicode_len();
    assert(path@.take(len as int) =~= path@);
    let whole: usize = stem_end(path, len);
    if whole == 0 {
        return len > 0 && path.get_char(0) != '/';
    }
    let ghost stem = path@.take(whole as int);
    let start: usize = step_start(path, whole);
    assert(last_step(stem) =~= path@.subrange(start as int, whole as int));
    is_dot_dot(path, start, whole)
}

} // verus!
