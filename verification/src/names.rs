//! Names of store entries: which are hidden, and how a path is shown.

use vstd::prelude::*;
use crate::error::ShowError;

verus! {

/// Where the last component of `path` begins: behind its last separator, or
/// at 0 where it has none.
pub open spec fn name_start(path: Seq<char>) -> int
    decreases path.len(),
{
    if path.len() == 0 || path.last() == '/' {
        path.len() as int
    } else {
        name_start(path.drop_last())
    }
}

/// The path ends in what names nothing: a separator, or a component that is
/// a single dot.
pub open spec fn passed_over(path: Seq<char>) -> bool {
    path.len() > 0 && (path.last() == '/' || (path.last() == '.' && (path.len() == 1
        || path[path.len() - 2] == '/')))
}

/// Where the last component of `path` ends: before the separators and the
/// single dots that follow it.
pub open spec fn name_end(path: Seq<char>) -> int
    decreases path.len(),
{
    if passed_over(path) {
        name_end(path.drop_last())
    } else {
        path.len() as int
    }
}

/// The last component of `path`: what stands between its last separator and
/// the trailing separators and single dots, which are passed over. It is
/// empty where the path holds no component but single dots.
pub open spec fn file_name_of(path: Seq<char>) -> Seq<char> {
    path.subrange(name_start(path.take(name_end(path))), name_end(path))
}

/// The place of the last dot in `name`, or -1 where it has none.
pub open spec fn last_dot(name: Seq<char>) -> int
    decreases name.len(),
{
    if name.len() == 0 {
        -1
    } else if name.last() == '.' {
        name.len() - 1
    } else {
        last_dot(name.drop_last())
    }
}

/// The name without its extension: what stands before the last dot. A name
/// without a dot, or whose only dot is its first character, is its own stem.
pub open spec fn stem_of(name: Seq<char>) -> Seq<char> {
    if last_dot(name) <= 0 {
        name
    } else {
        name.take(last_dot(name))
    }
}

/// A name is hidden when it begins with a dot.
pub open spec fn hidden_name(name: Seq<char>) -> bool {
    name.len() > 0 && name[0] == '.'
}

/// A last component that names an entry: not empty, and not `..`.
pub open spec fn has_base_name(name: Seq<char>) -> bool {
    name.len() > 0 && name != seq!['.', '.']
}

/// The last component ends within the path.
pub proof fn lemma_name_end(path: Seq<char>)
    ensures
        0 <= name_end(path) <= path.len(),
    decreases path.len(),
{
    if passed_over(path) {
        lemma_name_end(path.drop_last());
    }
}

/// The last component begins within the path.
pub proof fn lemma_name_start(path: Seq<char>)
    ensures
        0 <= name_start(path) <= path.len(),
    decreases path.len(),
{
    if path.len() > 0 && path.last() != '/' {
        lemma_name_start(path.drop_last());
    }
}

/// A separator behind a path, and a single dot behind that, change nothing
/// about its last component: `a/b`, `a/b/` and `a/b/.` name the same.
pub proof fn lemma_trailing_separator(path: Seq<char>)
    ensures
        file_name_of(path.push('/')) == file_name_of(path),
        file_name_of(path.push('/').push('.')) == file_name_of(path),
{
    let one = path.push('/');
    let two = one.push('.');
    lemma_name_end(path);
    assert(one.drop_last() =~= path);
    assert(two.drop_last() =~= one);
    assert(passed_over(one));
    assert(two[two.len() - 2] == '/');
    assert(passed_over(two));
    assert(name_end(one) == name_end(path));
    assert(name_end(two) == name_end(path));
    assert(one.take(name_end(path)) =~= path.take(name_end(path)));
    assert(two.take(name_end(path)) =~= path.take(name_end(path)));
    lemma_name_start(path.take(name_end(path)));
    assert(file_name_of(one) =~= file_name_of(path));
    assert(file_name_of(two) =~= file_name_of(path));
}

/// Whether the first `end` characters of `path` end in what names nothing.
fn ends_passed_over(path: &str, end: usize) -> (r: bool)
    requires
        0 < end <= path@.len(),
    ensures
        r == passed_over(path@.take(end as int)),
{
    let last: char = path.get_char(end - 1);
    last == '/' || (last == '.' && (end == 1 || path.get_char(end - 2) == '/'))
}

/// The last component of `path`, as a slice of it.
pub fn file_name(path: &str) -> (name: &str)
    ensures
        name@ == file_name_of(path@),
{
    let n: usize = path.unicode_len();
    let mut end: usize = n;
    proof {
        assert(path@.take(n as int) =~= path@);
    }
    while end > 0 && ends_passed_over(path, end)
        invariant
            end <= n,
            n == path@.len(),
            name_end(path@) == name_end(path@.take(end as int)),
        decreases end,
    {
        proof {
            assert(path@.take(end as int).drop_last() =~= path@.take(end - 1));
        }
        end -= 1;
    }
    let ghost head = path@.take(end as int);
    let mut start: usize = end;
    proof {
        assert(head.take(end as int) =~= head);
    }
    while start > 0 && path.get_char(start - 1) != '/'
        invariant
            start <= end <= n,
            n == path@.len(),
            head == path@.take(end as int),
            name_start(head) == name_start(head.take(start as int)),
        decreases start,
    {
        proof {
            assert(head.take(start as int).drop_last() =~= head.take(start - 1));
        }
        start -= 1;
    }
    path.substring_char(start, end)
}

/// Whether the entry's name begins with a dot.
pub fn is_hidden(name: &str) -> (hidden: bool)
    ensures
        hidden == hidden_name(name@),
{
    name.unicode_len() > 0 && name.get_char(0) == '.'
}

/// The name under which the entry at `path` is shown: its last component
/// without the extension. Fails where the path has no base name: where it
/// holds no component but single dots, or ends in `..`.
pub fn display_path(path: &str) -> (shown: Result<String, ShowError>)
    ensures
        has_base_name(file_name_of(path@)) ==> shown is Ok && shown->Ok_0@ == stem_of(
            file_name_of(path@),
        ),
        !has_base_name(file_name_of(path@)) ==> shown == Err::<String, ShowError>(
            ShowError::InvalidEntryName,
        ),
{
    let name: &str = file_name(path);
    let n: usize = name.unicode_len();
    if n == 0 {
        return Err(ShowError::InvalidEntryName);
    }
    if n == 2 && name.get_char(0) == '.' && name.get_char(1) == '.' {
        assert(name@ =~= seq!['.', '.']);
        return Err(ShowError::InvalidEntryName);
    }
    assert(has_base_name(name@)) by {
        if name@ == seq!['.', '.'] {
            assert(seq!['.', '.'].len() == 2);
            assert(seq!['.', '.'][0] == '.' && seq!['.', '.'][1] == '.');
        }
    }
    let mut dot: usize = n;
    proof {
        assert(name@.take(n as int) =~= name@);
    }
    while dot > 0 && name.get_char(dot - 1) != '.'
        invariant
            dot <= n,
            n == name@.len(),
            last_dot(name@) == last_dot(name@.take(dot as int)),
        decreases dot,
    {
        proof {
            assert(name@.take(dot as int).drop_last() =~= name@.take(dot - 1));
        }
        dot -= 1;
    }
    if dot <= 1 {
        Ok(String::from_str(name))
    } else {
        Ok(String::from_str(name.substring_char(0, dot - 1)))
    }
}

} // verus!
