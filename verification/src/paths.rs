//! Paths as text: the name at the end of a path, and the move of a path
//! from under one root to under another.
//!
//! A path is a sequence of characters in which `/` separates the
//! components. Nothing here normalises a path or looks at the filesystem.

use vstd::prelude::*;
use vstd::std_specs::iter::IteratorSpec;

verus! {

/// Why a path could not be moved under another root.
#[derive(Debug, Clone, Copy, PartialEq, Eq, Structural)]
pub enum RerootError {
    /// The path does not begin with the prefix that was to be stripped.
    PrefixMismatch,
}

/// Where the last component of `path` begins: behind its last separator, or
/// at its start if it has none.
pub open spec fn file_name_start(path: Seq<char>) -> int
    decreases path.len(),
{
    if path.len() == 0 {
        0
    } else if path.last() == '/' {
        path.len() as int
    } else {
        file_name_start(path.drop_last())
    }
}

/// The last component of `path`: what follows its last separator.
pub open spec fn file_name_of(path: Seq<char>) -> Seq<char> {
    path.skip(file_name_start(path))
}

/// The last component begins inside the path, just behind a separator
/// unless at the very start, and holds no separator.
pub proof fn lemma_file_name(path: Seq<char>)
    ensures
        0 <= file_name_start(path) <= path.len(),
        file_name_start(path) > 0 ==> path[file_name_start(path) - 1] == '/',
        forall|i: int| file_name_start(path) <= i < path.len() ==> path[i] != '/',
    decreases path.len(),
{
    if path.len() > 0 && path.last() != '/' {
        let front = path.drop_last();
        lemma_file_name(front);
        assert forall|i: int| file_name_start(path) <= i < path.len() implies path[i] != '/' by {
            if i < front.len() {
                assert(front[i] == path[i]);
            }
        }
    }
}

/// The last component of `path`.
pub fn file_name(path: &str) -> (name: &str)
    ensures
        name@ == file_name_of(path@),
{
    let len = path.unicode_len();
    let mut start: usize = 0;
    let mut at: usize = 0;
    for c in it: path.chars()
        invariant
            it.seq() == path@,
            at == it.index(),
            len == path@.len(),
            start == file_name_start(path@.take(at as int)),
            start <= at,
    {
        proof {
            assert(path@.take(at + 1).drop_last() =~= path@.take(at as int));
            assert(path@.take(at + 1).last() == c);
        }
        at = at + 1;
        if c == '/' {
            start = at;
        }
    }
    proof {
        assert(path@.take(at as int) =~= path@);
    }
    path.substring_char(start, len)
}

/// The path of the entry named `name` in the directory `root`.
pub open spec fn joined(root: Seq<char>, name: Seq<char>) -> Seq<char> {
    root + seq!['/'] + name
}

/// The path of the entry named `name` in the directory `root`.
pub fn join(root: &str, name: &str) -> (path: String)
    ensures
        path@ == joined(root@, name@),
{
    proof {
        reveal_strlit("/");
    }
    let mut path = String::from_str(root);
    path.append("/");
    path.append(name);
    assert(path@ =~= joined(root@, name@));
    path
}

/// Whether `path` begins with `prefix`, character for character.
pub fn starts_with(path: &str, prefix: &str) -> (yes: bool)
    ensures
        yes == prefix@.is_prefix_of(path@),
{
    let mut rest = path.chars();
    let mut wanted = prefix.chars();
    let ghost mut at: int = 0;
    loop
        invariant
            0 <= at <= prefix@.len(),
            at <= path@.len(),
            rest.remaining() == path@.skip(at),
            wanted.remaining() == prefix@.skip(at),
            path@.take(at) == prefix@.take(at),
        decreases prefix@.len() - at,
    {
        match wanted.next() {
            None => {
                proof {
                    assert(prefix@.take(at) =~= prefix@);
                    assert(path@.subrange(0, prefix@.len() as int) =~= path@.take(at));
                }
                return true;
            },
            Some(w) => match rest.next() {
                None => {
                    return false;
                },
                Some(c) => {
                    if c != w {
                        return false;
                    }
                    proof {
                        assert(path@.take(at + 1) =~= path@.take(at).push(c));
                        assert(prefix@.take(at + 1) =~= prefix@.take(at).push(w));
                        assert(path@.skip(at).drop_first() =~= path@.skip(at + 1));
                        assert(prefix@.skip(at).drop_first() =~= prefix@.skip(at + 1));
                        at = at + 1;
                    }
                },
            },
        }
    }
}

/// Where `path` would lie if the root `strip_prefix` above it were
/// replaced by the root `replace_by`: `replace_by` followed by what `path`
/// has behind `strip_prefix`, unchanged. There is no such place unless
/// `path` begins with `strip_prefix`.
pub open spec fn rerooted(path: Seq<char>, strip_prefix: Seq<char>, replace_by: Seq<char>) -> Result<
    Seq<char>,
    RerootError,
> {
    if strip_prefix.is_prefix_of(path) {
        Ok(replace_by + path.skip(strip_prefix.len() as int))
    } else {
        Err(RerootError::PrefixMismatch)
    }
}

/// Moves `path` from under the root `strip_prefix` to under the root
/// `replace_by`.
pub fn reroot(path: &str, strip_prefix: &str, replace_by: &str) -> (r: Result<String, RerootError>)
    ensures
        match r {
            Ok(moved) => rerooted(path@, strip_prefix@, replace_by@) == Ok::<
                Seq<char>,
                RerootError,
            >(moved@),
            Err(e) => rerooted(path@, strip_prefix@, replace_by@) == Err::<Seq<char>, RerootError>(e),
        },
{
    if starts_with(path, strip_prefix) {
        let suffix = path.substring_char(strip_prefix.unicode_len(), path.unicode_len());
        assert(suffix@ =~= path@.skip(strip_prefix@.len() as int));
        Ok(String::from_str(replace_by).concat(suffix))
    } else {
        Err(RerootError::PrefixMismatch)
    }
}

/// The first position at or behind `from` at which `text` holds something
/// other than a separator, or the length of `text` if there is none.
pub open spec fn skip_separators(text: Seq<char>, from: int) -> int
    decreases text.len() - from,
{
    if 0 <= from < text.len() && text[from] == '/' {
        skip_separators(text, from + 1)
    } else {
        from
    }
}

/// The first position at or behind `from` at which `text` holds a
/// separator, or the length of `text` if there is none.
pub open spec fn skip_name(text: Seq<char>, from: int) -> int
    decreases text.len() - from,
{
    if 0 <= from < text.len() && text[from] != '/' {
        skip_name(text, from + 1)
    } else {
        from
    }
}

/// What is left of a relative path when its first component is dropped:
/// the text from the separator behind that component on.
pub open spec fn below_first_component(text: Seq<char>) -> Seq<char> {
    text.skip(skip_name(text, skip_separators(text, 0)))
}

/// A stretch of separators is skipped as a whole.
pub proof fn lemma_skip_separators(text: Seq<char>, from: int, to: int)
    requires
        0 <= from <= to <= text.len(),
        forall|i: int| from <= i < to ==> text[i] == '/',
        to == text.len() || text[to] != '/',
    ensures
        skip_separators(text, from) == to,
    decreases to - from,
{
    if from < to {
        lemma_skip_separators(text, from + 1, to);
    }
}

/// A stretch without separators is skipped as a whole.
pub proof fn lemma_skip_name(text: Seq<char>, from: int, to: int)
    requires
        0 <= from <= to <= text.len(),
        forall|i: int| from <= i < to ==> text[i] != '/',
        to == text.len() || text[to] == '/',
    ensures
        skip_name(text, from) == to,
    decreases to - from,
{
    if from < to {
        lemma_skip_name(text, from + 1, to);
    }
}

/// Where a file of a session would lie in a live folder: as [`rerooted`],
/// but without the first component that `path` has behind `strip_prefix`,
/// which names the session.
pub open spec fn rerooted_below_session(
    path: Seq<char>,
    strip_prefix: Seq<char>,
    replace_by: Seq<char>,
) -> Result<Seq<char>, RerootError> {
    if strip_prefix.is_prefix_of(path) {
        Ok(replace_by + below_first_component(path.skip(strip_prefix.len() as int)))
    } else {
        Err(RerootError::PrefixMismatch)
    }
}

/// Drops the first component of a relative path.
pub fn skip_first_component(text: &str) -> (rest: &str)
    ensures
        rest@ == below_first_component(text@),
{
    let len = text.unicode_len();
    let mut at: usize = 0;
    let mut cut: usize = 0;
    let mut in_name = false;
    let mut done = false;
    for c in it: text.chars()
        invariant
            it.seq() == text@,
            at == it.index(),
            len == text@.len(),
            cut <= at,
            done ==> cut == skip_name(text@, skip_separators(text@, 0)),
            !done ==> cut == at,
            !done && !in_name ==> skip_separators(text@, 0) == skip_separators(text@, at as int),
            !done && in_name ==> skip_name(text@, skip_separators(text@, 0)) == skip_name(
                text@,
                at as int,
            ),
    {
        if !done {
            if c == '/' {
                if in_name {
                    done = true;
                } else {
                    cut = cut + 1;
                }
            } else {
                in_name = true;
                cut = cut + 1;
            }
        }
        at = at + 1;
    }
    text.substring_char(cut, len)
}

/// Moves a file of a session to where it belongs in a live folder: from
/// under the backup root `strip_prefix`, without the session's own
/// directory, to under `replace_by`.
pub fn reroot_below_session(path: &str, strip_prefix: &str, replace_by: &str) -> (r: Result<
    String,
    RerootError,
>)
    ensures
        match r {
            Ok(moved) => rerooted_below_session(path@, strip_prefix@, replace_by@) == Ok::<
                Seq<char>,
                RerootError,
            >(moved@),
            Err(e) => rerooted_below_session(path@, strip_prefix@, replace_by@) == Err::<
                Seq<char>,
                RerootError,
            >(e),
        },
{
    if starts_with(path, strip_prefix) {
        let suffix = path.substring_char(strip_prefix.unicode_len(), path.unicode_len());
        assert(suffix@ =~= path@.skip(strip_prefix@.len() as int));
        Ok(String::from_str(replace_by).concat(skip_first_component(suffix)))
    } else {
        Err(RerootError::PrefixMismatch)
    }
}

/// Re-rooting keeps the suffix: where `strip_prefix` is a prefix of `path`,
/// the re-rooted path begins with `replace_by`, and what it has behind
/// `replace_by` is what `path` has behind `strip_prefix`.
pub proof fn lemma_reroot_keeps_suffix(
    path: Seq<char>,
    strip_prefix: Seq<char>,
    replace_by: Seq<char>,
)
    requires
        strip_prefix.is_prefix_of(path),
    ensures
        rerooted(path, strip_prefix, replace_by) is Ok,
        replace_by.is_prefix_of(rerooted(path, strip_prefix, replace_by)->Ok_0),
        rerooted(path, strip_prefix, replace_by)->Ok_0.skip(replace_by.len() as int) == path.skip(
            strip_prefix.len() as int,
        ),
{
    let moved = rerooted(path, strip_prefix, replace_by)->Ok_0;
    assert(moved.subrange(0, replace_by.len() as int) =~= replace_by);
    assert(moved.skip(replace_by.len() as int) =~= path.skip(strip_prefix.len() as int));
}

/// Re-rooting fails with a prefix mismatch exactly when `strip_prefix` is
/// not a prefix of `path`.
pub proof fn lemma_reroot_needs_prefix(
    path: Seq<char>,
    strip_prefix: Seq<char>,
    replace_by: Seq<char>,
)
    ensures
        !strip_prefix.is_prefix_of(path) <==> rerooted(path, strip_prefix, replace_by) == Err::<
            Seq<char>,
            RerootError,
        >(RerootError::PrefixMismatch),
{
}

/// Re-rooting a path and re-rooting the result back gives the path.
pub proof fn lemma_reroot_there_and_back(
    path: Seq<char>,
    strip_prefix: Seq<char>,
    replace_by: Seq<char>,
)
    requires
        strip_prefix.is_prefix_of(path),
    ensures
        rerooted(rerooted(path, strip_prefix, replace_by)->Ok_0, replace_by, strip_prefix) == Ok::<
            Seq<char>,
            RerootError,
        >(path),
{
    lemma_reroot_keeps_suffix(path, strip_prefix, replace_by);
    let moved = rerooted(path, strip_prefix, replace_by)->Ok_0;
    assert(path.subrange(0, strip_prefix.len() as int) == strip_prefix);
    assert(strip_prefix + moved.skip(replace_by.len() as int) =~= path);
}

} // verus!
