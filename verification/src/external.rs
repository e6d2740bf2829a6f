//! Finding the program that a command name stands for, the way a shell
//! does: a path is taken as it is, a bare name is looked for in the
//! directories of a search path, in their order.
use crate::command::ExitCode;
use crate::text::{chars_of, push_char, texts};
use vstd::prelude::*;

verus! {

/// How a command is named. A name is taken by its components, the texts
/// between its slashes: empty ones do not count, and `.` counts only as
/// the first.
#[derive(Debug, Clone, Copy, PartialEq, Eq)]
pub enum PathKind {
    /// Nothing at all.
    Empty,
    /// A path from the root: it begins with `/`.
    Absolute,
    /// A path from the working directory: it begins with the component
    /// `.`, or it has more than one component.
    Relative,
    /// A single component that is not `.`.
    Bare,
}

/// Whether the first component of `path` ends at `end`: at the first
/// slash, or at the end of the path where there is no slash.
pub open spec fn first_ends_at(path: Seq<char>, end: int) -> bool {
    &&& 0 <= end <= path.len()
    &&& forall|j: int| 0 <= j < end ==> path[j] != '/'
    &&& end < path.len() ==> path[end] == '/'
}

/// Where the first component of `path` ends.
pub open spec fn first_end(path: Seq<char>) -> int {
    choose|end: int| first_ends_at(path, end)
}

/// The first component of a path that does not begin with a slash: what
/// stands before its first slash.
pub open spec fn first_component(path: Seq<char>) -> Seq<char> {
    path.take(first_end(path))
}

/// Whether the character at `i` belongs to a component that counts: it is
/// no slash, and no `.` that stands alone between slashes or the ends.
pub open spec fn in_component(path: Seq<char>, i: int) -> bool {
    &&& path[i] != '/'
    &&& !(path[i] == '.' && (i == 0 || path[i - 1] == '/') && (i + 1 == path.len() || path[i + 1]
        == '/'))
}

/// Whether a component that counts follows the first component.
pub open spec fn has_more_components(path: Seq<char>) -> bool {
    exists|i: int| first_end(path) < i < path.len() && #[trigger] in_component(path, i)
}

/// How `path` names a command.
pub open spec fn kind_of(path: Seq<char>) -> PathKind {
    if path.len() == 0 {
        PathKind::Empty
    } else if path[0] == '/' {
        PathKind::Absolute
    } else if first_component(path) == seq!['.'] || has_more_components(path) {
        PathKind::Relative
    } else {
        PathKind::Bare
    }
}

/// The first component ends where it is found to end, and nowhere else.
pub proof fn lemma_first_end(path: Seq<char>, end: int)
    requires
        first_ends_at(path, end),
    ensures
        first_end(path) == end,
{
    let chosen = first_end(path);
    assert(first_ends_at(path, chosen));
    if chosen < end {
        assert(path[chosen] != '/');
    } else if end < chosen {
        assert(path[end] != '/');
    }
}

/// Finds where the first component of a path ends.
fn find_first_end(chars: &Vec<char>) -> (end: usize)
    ensures
        first_ends_at(chars@, end as int),
        end as int == first_end(chars@),
{
    let mut end: usize = 0;
    while end < chars.len() && chars[end] != '/'
        invariant
            end <= chars@.len(),
            forall|j: int| 0 <= j < end ==> chars@[j] != '/',
        decreases chars@.len() - end,
    {
        end += 1;
    }
    proof {
        lemma_first_end(chars@, end as int);
    }
    end
}

/// Tells how `path` names a command.
pub fn classify(path: &str) -> (kind: PathKind)
    ensures
        kind == kind_of(path@),
{
    let chars = chars_of(path);
    if chars.len() == 0 {
        return PathKind::Empty;
    }
    if chars[0] == '/' {
        return PathKind::Absolute;
    }
    let end = find_first_end(&chars);
    if end == 1 && chars[0] == '.' {
        assert(first_component(path@) =~= seq!['.']);
        return PathKind::Relative;
    }
    assert(first_component(path@) != seq!['.']) by {
        if first_component(path@) == seq!['.'] {
            assert(first_component(path@).len() == 1);
            assert(first_component(path@)[0] == path@[0]);
        }
    }
    let mut i: usize = end;
    while i < chars.len()
        invariant
            end <= i <= chars@.len(),
            chars@ == path@,
            chars@.len() > 0,
            chars@[0] != '/',
            end as int == first_end(chars@),
            forall|j: int| end < j < i ==> !in_component(chars@, j),
        decreases chars@.len() - i,
    {
        if i > end {
            let c = chars[i];
            let alone = c == '.' && chars[i - 1] == '/' && (i + 1 == chars.len() || chars[i + 1]
                == '/');
            if c != '/' && !alone {
                assert(in_component(path@, i as int));
                return PathKind::Relative;
            }
        }
        i += 1;
    }
    PathKind::Bare
}

/// The first component of a path, as a string.
pub fn bare_name(path: &str) -> (name: String)
    ensures
        name@ == first_component(path@),
{
    let chars = chars_of(path);
    let end = find_first_end(&chars);
    let mut name = String::new();
    let mut i: usize = 0;
    while i < end
        invariant
            i <= end <= chars@.len(),
            name@ == chars@.take(i as int),
        decreases end - i,
    {
        push_char(&mut name, chars[i]);
        assert(chars@.take(i + 1) =~= chars@.take(i as int).push(chars@[i as int]));
        i += 1;
    }
    name
}

/// The entries of a search path: the texts between its colons. A search
/// path without a colon is one entry, which may be empty.
pub open spec fn entries_of(search_paths: Seq<char>) -> Seq<Seq<char>>
    decreases search_paths.len(),
{
    if search_paths.len() == 0 {
        seq![Seq::empty()]
    } else {
        let before = entries_of(search_paths.drop_last());
        if search_paths.last() == ':' {
            before.push(Seq::empty())
        } else {
            before.update(before.len() - 1, before.last().push(search_paths.last()))
        }
    }
}

/// A search path has at least one entry.
pub proof fn lemma_entries_nonempty(search_paths: Seq<char>)
    ensures
        entries_of(search_paths).len() >= 1,
    decreases search_paths.len(),
{
    if search_paths.len() > 0 {
        lemma_entries_nonempty(search_paths.drop_last());
    }
}

/// The entries with a colon between each and the next.
pub open spec fn joined_by_colons(entries: Seq<Seq<char>>) -> Seq<char>
    decreases entries.len(),
{
    if entries.len() == 0 {
        Seq::empty()
    } else if entries.len() == 1 {
        entries[0]
    } else {
        joined_by_colons(entries.drop_last()).push(':') + entries.last()
    }
}

/// The entries of a search path are what stands between its colons: no
/// entry holds a colon, and the entries with colons between them are the
/// search path again.
pub proof fn lemma_entries_split_at_colons(search_paths: Seq<char>)
    ensures
        forall|i: int, j: int|
            0 <= i < entries_of(search_paths).len() && 0 <= j < entries_of(search_paths)[i].len()
                ==> (#[trigger] entries_of(search_paths)[i][j]) != ':',
        joined_by_colons(entries_of(search_paths)) == search_paths,
    decreases search_paths.len(),
{
    let entries = entries_of(search_paths);
    if search_paths.len() == 0 {
        assert(joined_by_colons(entries) =~= search_paths);
    } else {
        let shorter = search_paths.drop_last();
        let before = entries_of(shorter);
        lemma_entries_split_at_colons(shorter);
        lemma_entries_nonempty(shorter);
        let c = search_paths.last();
        if c == ':' {
            assert(entries.drop_last() =~= before);
            assert(joined_by_colons(entries) =~= search_paths);
            assert forall|i: int, j: int|
                0 <= i < entries.len() && 0 <= j < entries[i].len() implies (
            #[trigger] entries[i][j]) != ':' by {
                if i < before.len() {
                    assert(entries[i] == before[i]);
                    assert(before[i][j] != ':');
                }
            }
        } else {
            let last = before.last().push(c);
            assert(entries.drop_last() =~= before.drop_last());
            assert(entries.last() == last);
            if before.len() == 1 {
                assert(joined_by_colons(before) == before[0]);
                assert(joined_by_colons(entries) =~= search_paths);
            } else {
                assert(joined_by_colons(before) == joined_by_colons(before.drop_last()).push(':')
                    + before.last());
                assert(joined_by_colons(entries) =~= joined_by_colons(before).push(c));
                assert(joined_by_colons(entries) =~= search_paths);
            }
            assert forall|i: int, j: int|
                0 <= i < entries.len() && 0 <= j < entries[i].len() implies (
            #[trigger] entries[i][j]) != ':' by {
                if i < before.len() - 1 {
                    assert(entries[i] == before[i]);
                    assert(before[i][j] != ':');
                } else if j < before.last().len() {
                    assert(entries[i][j] == before[before.len() - 1][j]);
                    assert(before[before.len() - 1][j] != ':');
                }
            }
        }
    }
}

/// Splits a search path at its colons.
pub fn split_search_paths(search_paths: &str) -> (entries: Vec<String>)
    ensures
        texts(entries@) == entries_of(search_paths@),
{
    let chars = chars_of(search_paths);
    let mut entries: Vec<String> = Vec::new();
    let mut current = String::new();
    let mut i: usize = 0;
    assert(chars@.take(0) =~= Seq::<char>::empty());
    assert(texts(entries@).push(current@) =~= seq![Seq::<char>::empty()]);
    while i < chars.len()
        invariant
            i <= chars@.len(),
            chars@ == search_paths@,
            texts(entries@).push(current@) == entries_of(chars@.take(i as int)),
        decreases chars@.len() - i,
    {
        proof {
            assert(chars@.take(i + 1).drop_last() =~= chars@.take(i as int));
            assert(chars@.take(i + 1).last() == chars@[i as int]);
        }
        let ghost before = texts(entries@).push(current@);
        if chars[i] == ':' {
            let mut done = String::new();
            std::mem::swap(&mut current, &mut done);
            let ghost listed = texts(entries@);
            entries.push(done);
            assert(texts(entries@) =~= listed.push(done@));
        } else {
            let ghost listed = texts(entries@);
            push_char(&mut current, chars[i]);
            assert(listed.push(current@) =~= before.update(
                before.len() - 1,
                before.last().push(chars@[i as int]),
            ));
        }
        i += 1;
    }
    assert(chars@.take(i as int) =~= chars@);
    let ghost listed = texts(entries@);
    entries.push(current);
    assert(texts(entries@) =~= listed.push(current@));
    entries
}

/// The path of `name` in the directory `dir`: the two joined by a `/`,
/// unless the directory is empty or already ends with one.
pub open spec fn joined(dir: Seq<char>, name: Seq<char>) -> Seq<char> {
    if dir.len() == 0 {
        name
    } else if dir.last() == '/' {
        dir + name
    } else {
        dir.push('/') + name
    }
}

/// Joins a directory and a name into a path.
pub fn join_path(dir: &str, name: &str) -> (path: String)
    ensures
        path@ == joined(dir@, name@),
{
    let len: usize = dir.unicode_len();
    if len == 0 {
        assert(dir@ =~= Seq::<char>::empty());
        return name.to_owned();
    }
    let mut path = dir.to_owned();
    if dir.get_char(len - 1) != '/' {
        push_char(&mut path, '/');
    }
    path.append(name);
    path
}

/// The paths at which a bare name is looked for: the name in each entry of
/// the search path, in the order of the entries.
pub open spec fn candidates_of(search_paths: Seq<char>, name: Seq<char>) -> Seq<Seq<char>> {
    entries_of(search_paths).map_values(|dir: Seq<char>| joined(dir, name))
}

/// Lists the paths at which a bare name is looked for.
pub fn candidates(search_paths: &str, name: &str) -> (paths: Vec<String>)
    ensures
        texts(paths@) == candidates_of(search_paths@, name@),
{
    let entries = split_search_paths(search_paths);
    let mut paths: Vec<String> = Vec::new();
    let mut i: usize = 0;
    while i < entries.len()
        invariant
            i <= entries@.len(),
            texts(entries@) == entries_of(search_paths@),
            paths@.len() == i,
            forall|j: int| 0 <= j < i ==> (#[trigger] paths@[j])@ == joined(entries@[j]@, name@),
        decreases entries@.len() - i,
    {
        paths.push(join_path(entries[i].as_str(), name));
        i += 1;
    }
    assert(texts(paths@) =~= candidates_of(search_paths@, name@)) by {
        assert(texts(entries@).len() == entries@.len());
        assert forall|j: int| 0 <= j < paths@.len() implies texts(paths@)[j] == candidates_of(
            search_paths@,
            name@,
        )[j] by {
            assert(texts(entries@)[j] == entries@[j]@);
        }
    }
    paths
}

/// The first place at which `found` is true.
pub open spec fn first_true(found: Seq<bool>) -> Option<int>
    decreases found.len(),
{
    if found.len() == 0 {
        None
    } else {
        match first_true(found.drop_last()) {
            Some(k) => Some(k),
            None => if found.last() {
                Some(found.len() - 1)
            } else {
                None
            },
        }
    }
}

/// [`first_true`] is the least index that holds true: nothing before it
/// does, and it is `None` only where nothing does at all.
pub proof fn lemma_first_true_is_least(found: Seq<bool>)
    ensures
        match first_true(found) {
            Some(k) => 0 <= k < found.len() && found[k] && forall|j: int| 0 <= j < k ==> !found[j],
            None => forall|j: int| 0 <= j < found.len() ==> !found[j],
        },
    decreases found.len(),
{
    if found.len() > 0 {
        lemma_first_true_is_least(found.drop_last());
        assert forall|j: int| 0 <= j < found.len() - 1 implies found[j] == found.drop_last()[j] by {}
    }
}

/// What a search does next.
#[derive(Debug, Clone, Copy, PartialEq, Eq)]
pub enum SearchStep {
    /// Look whether the candidate at this index exists.
    Probe(usize),
    /// The candidate at this index is the result.
    Found(usize),
    /// No candidate exists.
    NotFound,
}

/// The next step of a search among `count` candidates, of which the first
/// `found.len()` were probed with the results `found`: the first candidate
/// that exists is the result, and no candidate after it is probed; while
/// none exists, the next one is probed.
pub fn search_step(count: usize, found: &Vec<bool>) -> (step: SearchStep)
    ensures
        step == match first_true(found@) {
            Some(k) => SearchStep::Found(k as usize),
            None => if found@.len() < count {
                SearchStep::Probe(found@.len() as usize)
            } else {
                SearchStep::NotFound
            },
        },
{
    let mut i: usize = 0;
    while i < found.len()
        invariant
            i <= found@.len(),
            first_true(found@.take(i as int)) is None,
        decreases found@.len() - i,
    {
        assert(found@.take(i + 1).drop_last() =~= found@.take(i as int));
        if found[i] {
            proof {
                lemma_first_true_prefix(found@, i + 1);
            }
            return SearchStep::Found(i);
        }
        i += 1;
    }
    assert(found@.take(i as int) =~= found@);
    if found.len() < count {
        SearchStep::Probe(found.len())
    } else {
        SearchStep::NotFound
    }
}

/// What is first in a prefix is first in the whole.
proof fn lemma_first_true_prefix(found: Seq<bool>, n: int)
    requires
        0 <= n <= found.len(),
        first_true(found.take(n)) is Some,
    ensures
        first_true(found) == first_true(found.take(n)),
    decreases found.len() - n,
{
    if n < found.len() {
        assert(found.take(n + 1).drop_last() =~= found.take(n));
        lemma_first_true_prefix(found, n + 1);
    } else {
        assert(found.take(n) =~= found);
    }
}

/// What looking at a path comes to, given whether something exists there:
/// the path itself if so, nothing if not.
pub fn found_at(path: &str, exists: bool) -> (r: Option<String>)
    ensures
        exists ==> (r matches Some(found) && found@ == path@),
        !exists ==> r is None,
{
    if exists {
        Some(path.to_owned())
    } else {
        None
    }
}

/// Whether the test `probe`, asked whether something exists at `path`, may
/// answer `found`.
pub open spec fn answers<F: Fn(&str) -> bool>(probe: F, path: Seq<char>, found: bool) -> bool {
    exists|p: &str| p@ == path && #[trigger] call_ensures(probe, (p,), found)
}

/// What a search among candidates comes to, for a test of existence
/// `probe`: the result is the first candidate of which the test said yes,
/// after it said no of every candidate before; there is no result where it
/// said no of all.
pub open spec fn search_comes_to<F: Fn(&str) -> bool>(
    probe: F,
    candidates: Seq<Seq<char>>,
    r: Option<Seq<char>>,
) -> bool {
    match r {
        Some(found) => exists|k: int|
            0 <= k < candidates.len() && found == #[trigger] candidates[k] && answers(
                probe,
                candidates[k],
                true,
            ) && forall|j: int| 0 <= j < k ==> answers(probe, #[trigger] candidates[j], false),
        None => forall|j: int|
            0 <= j < candidates.len() ==> answers(probe, #[trigger] candidates[j], false),
    }
}

/// The text of a result.
pub open spec fn found_text(r: Option<String>) -> Option<Seq<char>> {
    match r {
        Some(found) => Some(found@),
        None => None,
    }
}

/// The path itself, if the test `probe` says that something exists there.
pub fn find_by_path<F: Fn(&str) -> bool>(path: &str, probe: F) -> (r: Option<String>)
    requires
        forall|p: &str| call_requires(probe, (p,)),
    ensures
        match r {
            Some(found) => found@ == path@ && answers(probe, path@, true),
            None => answers(probe, path@, false),
        },
{
    let exists = probe(path);
    found_at(path, exists)
}

/// Looks for a bare name in the entries of a search path, in their order,
/// asking the test `probe` of each candidate in turn, and returns the
/// first of which it says that something exists there. No candidate after
/// that one is asked of.
pub fn find_in_path<F: Fn(&str) -> bool>(search_paths: &str, cmd: &str, probe: F) -> (r:
    Option<String>)
    requires
        forall|p: &str| call_requires(probe, (p,)),
    ensures
        search_comes_to(probe, candidates_of(search_paths@, cmd@), found_text(r)),
{
    let paths = candidates(search_paths, cmd);
    let ghost all = candidates_of(search_paths@, cmd@);
    let mut found: Vec<bool> = Vec::new();
    loop
        invariant
            texts(paths@) == all,
            all == candidates_of(search_paths@, cmd@),
            found@.len() <= paths@.len(),
            forall|p: &str| call_requires(probe, (p,)),
            forall|j: int| 0 <= j < found@.len() ==> answers(probe, #[trigger] all[j], found@[j]),
        decreases paths@.len() - found@.len(),
    {
        proof {
            lemma_first_true_is_least(found@);
        }
        match search_step(paths.len(), &found) {
            SearchStep::Probe(i) => {
                let exists = probe(paths[i].as_str());
                assert(all[i as int] == paths@[i as int]@);
                found.push(exists);
            },
            SearchStep::Found(k) => {
                assert(all[k as int] == paths@[k as int]@);
                return chosen(&paths, k);
            },
            SearchStep::NotFound => {
                return None;
            },
        }
    }
}

/// The candidate that a search has found: the one at the index where the
/// search ended.
pub fn chosen(paths: &Vec<String>, k: usize) -> (r: Option<String>)
    requires
        k < paths@.len(),
    ensures
        r matches Some(found) && found@ == paths@[k as int]@,
{
    Some(paths[k].clone())
}

/// Calls `std::path::Path::exists`. Whether a path exists depends on the
/// file system at the moment of the call: nothing is promised of the answer.
#[verifier::external_body]
fn path_exists(path: &str) -> bool {
    std::path::Path::new(path).exists()
}

/// What resolving the name of a command comes to, for a test of existence
/// `probe`. Nothing is found for an empty name. A path, absolute or
/// relative, is the result if the test says that something exists there. A
/// bare name, which is the first component of the path, is looked for among
/// its candidates, see [`search_comes_to`].
pub open spec fn resolution<F: Fn(&str) -> bool>(
    probe: F,
    search_paths: Seq<char>,
    path: Seq<char>,
    r: Option<Seq<char>>,
) -> bool {
    match kind_of(path) {
        PathKind::Empty => r is None,
        PathKind::Absolute | PathKind::Relative => match r {
            Some(found) => found == path && answers(probe, path, true),
            None => answers(probe, path, false),
        },
        PathKind::Bare => search_comes_to(
            probe,
            candidates_of(search_paths, first_component(path)),
            r,
        ),
    }
}

/// Resolves the name of a command to the path of a program, asking the
/// test `probe` whether something exists at a path: see [`resolution`].
/// The entries of the search path are tried in their order, and the search
/// stops at the first candidate of which the test says yes.
pub fn find_command_path_with<F: Fn(&str) -> bool>(search_paths: &str, path: &str, probe: F) -> (r:
    Option<String>)
    requires
        forall|p: &str| call_requires(probe, (p,)),
    ensures
        resolution(probe, search_paths@, path@, found_text(r)),
{
    match classify(path) {
        PathKind::Empty => None,
        PathKind::Absolute => find_by_path(path, probe),
        PathKind::Relative => find_by_path(path, probe),
        PathKind::Bare => find_in_path(search_paths, bare_name(path).as_str(), probe),
    }
}

/// Resolves the name of a command to the path of a program.
///
/// Nothing is found for an empty name. A path, absolute or relative, is
/// the result if something exists there. A bare name is looked for in the
/// entries of `search_paths`, in their order; the first path at which
/// something exists is the result.
pub fn find_command_path(search_paths: &str, path: &str) -> (r: Option<String>)
    ensures
        match kind_of(path@) {
            PathKind::Empty => r is None,
            PathKind::Absolute | PathKind::Relative => r matches Some(found) ==> found@ == path@,
            PathKind::Bare => r matches Some(found) ==> candidates_of(
                search_paths@,
                first_component(path@),
            ).contains(found@),
        },
{
    find_command_path_with(search_paths, path, |p: &str| -> (b: bool) { path_exists(p) })
}

/// The exit code of a process that has ended: its own code, or, where a
/// signal ended it, 128 and the number of the signal; 255 where it dumped
/// core without a signal being known, and -1 where nothing is known.
pub fn exit_code_of(code: Option<ExitCode>, signal: Option<i32>, core_dumped: bool) -> (r:
    ExitCode)
    requires
        signal matches Some(number) ==> number <= i32::MAX - 128,
    ensures
        r == match code {
            Some(own) => own as int,
            None => match signal {
                Some(number) => 128 + number,
                None => if core_dumped {
                    255
                } else {
                    -1
                },
            },
        },
{
    match code {
        Some(own) => own,
        None => match signal {
            Some(number) => 128 + number,
            None => if core_dumped {
                255
            } else {
                -1
            },
        },
    }
}

} // verus!
