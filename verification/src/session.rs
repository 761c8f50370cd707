//! Choosing one snapshot among the timestamp-named sessions of a backup root.
//!
//! A backup root holds one directory per session, named by the time at
//! which the session was saved. The caller lists the backup root and hands
//! the listing over; the functions here keep the directories, read their
//! names as timestamps, order them from oldest to newest, and resolve a
//! signed session number to one of them.

use vstd::prelude::*;
use crate::decimal::{decimal_digits, parse_timestamp, timestamp_name, timestamp_of};
use crate::paths::{file_name, file_name_of, join, joined};

verus! {

/// Why a session could not be selected.
#[derive(Debug, Clone, Copy, PartialEq, Eq, Structural)]
pub enum SessionError {
    /// The directory at this position, counting the directories of the
    /// backup root in the order of its listing, has a name that is not a
    /// timestamp.
    NotATimestamp { position: usize },
    /// The requested session number lies outside the list of sessions.
    OutOfRange,
}

/// One entry of a directory listing: its path, and whether it is a
/// directory.
#[derive(Debug, Clone, PartialEq, Eq)]
pub struct DirEntry {
    pub path: String,
    pub is_dir: bool,
}

/// The directories among `entries`, in the order of the listing.
pub open spec fn directories(entries: Seq<DirEntry>) -> Seq<DirEntry> {
    entries.filter(|e: DirEntry| e.is_dir)
}

/// The paths of `entries`, in the order of the listing.
pub open spec fn paths_of(entries: Seq<DirEntry>) -> Seq<Seq<char>> {
    entries.map_values(|e: DirEntry| e.path@)
}

/// The text of each of `paths`.
pub open spec fn texts(paths: Seq<String>) -> Seq<Seq<char>> {
    paths.map_values(|p: String| p@)
}

/// The timestamps that the last components of `paths` denote, in the same
/// order, or the position of the first path whose last component denotes
/// none.
pub open spec fn timestamps_of(paths: Seq<Seq<char>>) -> Result<Seq<u128>, SessionError>
    decreases paths.len(),
{
    if paths.len() == 0 {
        Ok(Seq::empty())
    } else {
        match timestamps_of(paths.drop_last()) {
            Err(e) => Err(e),
            Ok(earlier) => match timestamp_of(file_name_of(paths.last())) {
                Some(t) => Ok(earlier.push(t)),
                None => Err(SessionError::NotATimestamp { position: (paths.len() - 1) as usize }),
            },
        }
    }
}

/// The order of timestamps: earlier or the same.
pub open spec fn not_after(a: u128, b: u128) -> bool {
    a <= b
}

/// `timestamps` ordered from oldest to newest.
pub open spec fn oldest_first(timestamps: Seq<u128>) -> Seq<u128> {
    timestamps.sort_by(|a: u128, b: u128| not_after(a, b))
}

/// The position that a signed session number `n` stands for in a list of
/// `len` sessions ordered from oldest to newest: `n` itself when it is not
/// negative, and `len - |n|` when it is, so that `-1` is the newest.
pub open spec fn resolved_index(n: int, len: int) -> int {
    if n >= 0 {
        n
    } else {
        len + n
    }
}

/// The timestamp of session number `n` among the sessions that the listing
/// `entries` of a backup root shows.
pub open spec fn session_timestamp(n: int, entries: Seq<DirEntry>) -> Result<u128, SessionError> {
    match timestamps_of(paths_of(directories(entries))) {
        Err(e) => Err(e),
        Ok(timestamps) => {
            let index = resolved_index(n, timestamps.len() as int);
            if 0 <= index < timestamps.len() {
                Ok(oldest_first(timestamps)[index])
            } else {
                Err(SessionError::OutOfRange)
            }
        },
    }
}

/// The path of the session with timestamp `timestamp` under the backup
/// root `root`.
pub open spec fn session_dir(root: Seq<char>, timestamp: u128) -> Seq<char> {
    joined(root, decimal_digits(timestamp as nat))
}

/// The path of session number `n` under the backup root `root` whose
/// listing is `entries`.
pub open spec fn session_path(n: int, root: Seq<char>, entries: Seq<DirEntry>) -> Result<
    Seq<char>,
    SessionError,
> {
    match session_timestamp(n, entries) {
        Ok(timestamp) => Ok(session_dir(root, timestamp)),
        Err(e) => Err(e),
    }
}

/// Keeps the directories of a listing and drops everything else.
pub fn get_dirs_iter(entries: Vec<DirEntry>) -> (dirs: Vec<DirEntry>)
    ensures
        dirs@ == directories(entries@),
{
    let ghost all = entries@;
    let mut dirs: Vec<DirEntry> = Vec::new();
    for entry in it: entries
        invariant
            it.seq() == all,
            dirs@ == directories(all.take(it.index() as int)),
    {
        proof {
            let k = it.index() as int;
            assert(all.take(k + 1) =~= all.take(k).push(entry));
            all.take(k).lemma_filter_push(entry, |e: DirEntry| e.is_dir);
        }
        if entry.is_dir {
            dirs.push(entry);
        }
    }
    proof {
        assert(all.take(all.len() as int) =~= all);
    }
    dirs
}

/// The path of each entry.
pub fn into_paths_iter(entries: Vec<DirEntry>) -> (paths: Vec<String>)
    ensures
        texts(paths@) == paths_of(entries@),
{
    let ghost all = entries@;
    let mut paths: Vec<String> = Vec::new();
    for entry in it: entries
        invariant
            it.seq() == all,
            texts(paths@) == paths_of(all.take(it.index() as int)),
    {
        proof {
            let k = it.index() as int;
            assert(all.take(k + 1) =~= all.take(k).push(entry));
            assert(paths_of(all.take(k).push(entry)) =~= paths_of(all.take(k)).push(entry.path@));
            assert(texts(paths@.push(entry.path)) =~= texts(paths@).push(entry.path@));
        }
        paths.push(entry.path);
    }
    proof {
        assert(all.take(all.len() as int) =~= all);
    }
    paths
}

/// Once a path fails to give a timestamp, no longer list of paths gives
/// any: the failure found in a prefix is the failure of the whole.
pub proof fn lemma_first_failure_stands(paths: Seq<Seq<char>>, n: int)
    requires
        0 <= n <= paths.len(),
        timestamps_of(paths.take(n)) is Err,
    ensures
        timestamps_of(paths) == timestamps_of(paths.take(n)),
    decreases paths.len(),
{
    if n < paths.len() {
        assert(paths.drop_last().take(n) =~= paths.take(n));
        lemma_first_failure_stands(paths.drop_last(), n);
    } else {
        assert(paths.take(n) =~= paths);
    }
}

/// Reads the name at the end of each path as a timestamp, in the order of
/// `paths`. Fails at the first path whose name is not a timestamp.
pub fn into_u128_timestamp(paths: &Vec<String>) -> (r: Result<Vec<u128>, SessionError>)
    ensures
        match r {
            Ok(timestamps) => timestamps_of(texts(paths@)) == Ok::<Seq<u128>, SessionError>(
                timestamps@,
            ),
            Err(e) => timestamps_of(texts(paths@)) == Err::<Seq<u128>, SessionError>(e),
        },
{
    let ghost all = texts(paths@);
    let mut timestamps: Vec<u128> = Vec::new();
    let mut i: usize = 0;
    while i < paths.len()
        invariant
            i <= paths.len(),
            all == texts(paths@),
            timestamps_of(all.take(i as int)) == Ok::<Seq<u128>, SessionError>(timestamps@),
        decreases paths.len() - i,
    {
        proof {
            assert(all.take(i + 1).drop_last() =~= all.take(i as int));
            assert(all.take(i + 1).last() == paths@[i as int]@);
        }
        match parse_timestamp(file_name(paths[i].as_str())) {
            Some(t) => {
                timestamps.push(t);
            },
            None => {
                proof {
                    lemma_first_failure_stands(all, i + 1);
                }
                return Err(SessionError::NotATimestamp { position: i });
            },
        }
        i = i + 1;
    }
    proof {
        assert(all.take(i as int) =~= all);
    }
    Ok(timestamps)
}

/// Whether `timestamps` goes from oldest to newest.
pub open spec fn is_oldest_first(timestamps: Seq<u128>) -> bool {
    forall|i: int, j: int| 0 <= i < j < timestamps.len() ==> timestamps[i] <= timestamps[j]
}

/// [`oldest_first`] gives the same timestamps, each as often as before, in
/// order from oldest to newest, and is the only sequence that does.
pub proof fn lemma_oldest_first(timestamps: Seq<u128>, ordered: Seq<u128>)
    ensures
        is_oldest_first(oldest_first(timestamps)),
        oldest_first(timestamps).to_multiset() == timestamps.to_multiset(),
        oldest_first(timestamps).len() == timestamps.len(),
        is_oldest_first(ordered) && ordered.to_multiset() == timestamps.to_multiset() ==> ordered
            == oldest_first(timestamps),
{
    let leq = |a: u128, b: u128| not_after(a, b);
    assert(vstd::relations::total_ordering(leq));
    timestamps.lemma_sort_by_ensures(leq);
    let sorted = oldest_first(timestamps);
    assert(is_oldest_first(sorted)) by {
        assert forall|i: int, j: int| 0 <= i < j < sorted.len() implies sorted[i] <= sorted[j] by {
            assert(leq(sorted[i], sorted[j]));
        }
    }
    vstd::seq_lib::to_multiset_len(sorted);
    vstd::seq_lib::to_multiset_len(timestamps);
    if is_oldest_first(ordered) && ordered.to_multiset() == timestamps.to_multiset() {
        assert(vstd::relations::sorted_by(ordered, leq));
        vstd::seq_lib::lemma_sorted_unique(ordered, sorted, leq);
    }
}

/// Session `0` is the oldest and session `-1` the newest: no timestamp is
/// earlier than the first of [`oldest_first`], and none later than its last.
pub proof fn lemma_oldest_and_newest(timestamps: Seq<u128>)
    requires
        timestamps.len() > 0,
    ensures
        resolved_index(0, timestamps.len() as int) == 0,
        resolved_index(-1, timestamps.len() as int) == timestamps.len() - 1,
        forall|i: int|
            0 <= i < timestamps.len() ==> oldest_first(timestamps)[0] <= #[trigger] timestamps[i]
                <= oldest_first(timestamps)[timestamps.len() - 1],
{
    let ordered = oldest_first(timestamps);
    lemma_oldest_first(timestamps, ordered);
    assert forall|i: int| 0 <= i < timestamps.len() implies ordered[0] <= #[trigger] timestamps[i]
        <= ordered[timestamps.len() - 1] by {
        let t = timestamps[i];
        assert(timestamps.contains(t));
        vstd::seq_lib::to_multiset_contains(timestamps, t);
        vstd::seq_lib::to_multiset_contains(ordered, t);
        let j = choose|j: int| 0 <= j < ordered.len() && ordered[j] == t;
        assert(ordered[0] <= ordered[j] <= ordered[ordered.len() - 1]);
    }
}

/// Orders timestamps from oldest to newest.
pub fn sort_timestamps(timestamps: Vec<u128>) -> (ordered: Vec<u128>)
    ensures
        ordered@ == oldest_first(timestamps@),
{
    let mut ordered: Vec<u128> = Vec::new();
    let mut i: usize = 0;
    assert(timestamps@.take(0) =~= ordered@);
    while i < timestamps.len()
        invariant
            i <= timestamps.len(),
            is_oldest_first(ordered@),
            ordered@.to_multiset() == timestamps@.take(i as int).to_multiset(),
        decreases timestamps.len() - i,
    {
        let t = timestamps[i];
        let mut at: usize = 0;
        while at < ordered.len() && ordered[at] <= t
            invariant
                at <= ordered.len(),
                forall|k: int| 0 <= k < at ==> ordered@[k] <= t,
            decreases ordered.len() - at,
        {
            at = at + 1;
        }
        proof {
            let before = ordered@;
            let after = before.insert(at as int, t);
            vstd::seq_lib::to_multiset_insert(before, at as int, t);
            assert(timestamps@.take(i + 1) =~= timestamps@.take(i as int).push(t));
            vstd::seq_lib::to_multiset_build(timestamps@.take(i as int), t);
            assert forall|a: int, b: int| 0 <= a < b < after.len() implies after[a] <= after[b] by {
                if a < at && b > at {
                    assert(after[b] == before[b - 1]);
                    assert(before[at as int] <= before[b - 1] || b - 1 == at);
                } else if a > at {
                    assert(after[a] == before[a - 1]);
                    assert(after[b] == before[b - 1]);
                } else if a == at {
                    assert(after[b] == before[b - 1]);
                    assert(before[at as int] <= before[b - 1] || b - 1 == at);
                }
            }
        }
        ordered.insert(at, t);
        i = i + 1;
    }
    proof {
        assert(timestamps@.take(i as int) =~= timestamps@);
        lemma_oldest_first(timestamps@, ordered@);
    }
    ordered
}

/// The timestamps of the sessions that the listing `entries` of a backup
/// root shows, from oldest to newest.
pub fn get_sorted_list(entries: Vec<DirEntry>) -> (r: Result<Vec<u128>, SessionError>)
    ensures
        match (r, timestamps_of(paths_of(directories(entries@)))) {
            (Ok(ordered), Ok(timestamps)) => ordered@ == oldest_first(timestamps),
            (Err(e), Err(f)) => e == f,
            _ => false,
        },
{
    let paths = into_paths_iter(get_dirs_iter(entries));
    match into_u128_timestamp(&paths) {
        Ok(timestamps) => Ok(sort_timestamps(timestamps)),
        Err(e) => Err(e),
    }
}

/// Resolves the signed session number `n` to an index into a list of
/// `list_len` sessions, or reports that it falls outside the list.
pub fn get_n_timestamp_index(n: i32, list_len: usize) -> (r: Result<usize, SessionError>)
    ensures
        match r {
            Ok(index) => index == resolved_index(n as int, list_len as int) && index < list_len,
            Err(e) => e == SessionError::OutOfRange && !(0 <= resolved_index(
                n as int,
                list_len as int,
            ) < list_len),
        },
{
    if n >= 0 {
        let index: usize = n as usize;
        if index < list_len {
            Ok(index)
        } else {
            Err(SessionError::OutOfRange)
        }
    } else {
        let back: u64 = (-(n as i64)) as u64;
        if back <= list_len as u64 {
            Ok(list_len - back as usize)
        } else {
            Err(SessionError::OutOfRange)
        }
    }
}

/// The timestamp of session number `n` among the sessions that the listing
/// `entries` of a backup root shows: `0` is the oldest, `-1` the newest.
pub fn get_n_timestamp(n: i32, entries: Vec<DirEntry>) -> (r: Result<u128, SessionError>)
    ensures
        r == session_timestamp(n as int, entries@),
{
    let ghost timestamps = timestamps_of(paths_of(directories(entries@)));
    match get_sorted_list(entries) {
        Ok(list) => {
            proof {
                lemma_oldest_first(timestamps->Ok_0, list@);
            }
            match get_n_timestamp_index(n, list.len()) {
                Ok(index) => Ok(list[index]),
                Err(e) => Err(e),
            }
        },
        Err(e) => Err(e),
    }
}

/// The path of the session with timestamp `timestamp` under the backup root
/// `root`.
pub fn session_dir_path(root: &str, timestamp: u128) -> (path: String)
    ensures
        path@ == session_dir(root@, timestamp),
{
    join(root, timestamp_name(timestamp).as_str())
}

/// The path of session number `n` under the backup root `path`, whose
/// listing is `entries`.
pub fn get_session_path(n: i32, path: &str, entries: Vec<DirEntry>) -> (r: Result<
    String,
    SessionError,
>)
    ensures
        match r {
            Ok(found) => session_path(n as int, path@, entries@) == Ok::<Seq<char>, SessionError>(
                found@,
            ),
            Err(e) => session_path(n as int, path@, entries@) == Err::<Seq<char>, SessionError>(e),
        },
{
    match get_n_timestamp(n, entries) {
        Ok(timestamp) => Ok(session_dir_path(path, timestamp)),
        Err(e) => Err(e),
    }
}

/// The path of the newest session under the backup root `path`, whose
/// listing is `entries`.
pub fn get_newest_path(path: &str, entries: Vec<DirEntry>) -> (r: Result<String, SessionError>)
    ensures
        match r {
            Ok(found) => session_path(-1, path@, entries@) == Ok::<Seq<char>, SessionError>(found@),
            Err(e) => session_path(-1, path@, entries@) == Err::<Seq<char>, SessionError>(e),
        },
{
    get_session_path(-1, path, entries)
}

} // verus!
