//! A recursive, depth-first walk over a directory tree that yields files only.
//!
//! The walker never touches the filesystem. It keeps the listing that is
//! being drained and a stack of directories that were seen but not entered,
//! and decides, for each thing the filesystem reports, what happens next.
//! The caller pulls from `read_dir`, opens the directories it is asked to
//! open, and reports back through [`ReadDirRecursive::next`].

use vstd::prelude::*;

verus! {

/// The state of one walk.
///
/// `R` is the caller's handle on an open directory listing, `D` its handle on
/// one entry of a listing. Neither is ever inspected here.
#[derive(Debug)]
pub struct ReadDirRecursive<R, D> {
    /// The listing that is currently being drained. It starts as the listing
    /// of the root and is replaced, never nested, each time a pending
    /// directory is entered.
    pub read_dir: R,
    /// The directories found so far and not yet entered. The last one found
    /// is the first one entered.
    pub pending_dirs: Vec<D>,
}

/// What the filesystem reported since the walker's last decision.
#[derive(Debug, PartialEq, Eq)]
pub enum Event<R, D, E> {
    /// The listing gave an entry; `is_dir` is the outcome of looking up its
    /// metadata.
    Entry { entry: D, is_dir: Result<bool, E> },
    /// The listing gave an error in place of an entry.
    Failed(E),
    /// The listing has no more entries.
    End,
    /// The directory that the walker asked for was opened.
    Opened(R),
    /// The directory that the walker asked for could not be opened.
    OpenFailed(E),
}

/// What the walker wants done next.
#[derive(Debug, PartialEq, Eq)]
pub enum Action<D, E> {
    /// Hand this item to the consumer. When the consumer asks again, pull
    /// from the listing.
    Yield(Result<D, E>),
    /// Nothing to hand out yet: pull from the listing again.
    Pull,
    /// Open this directory and report the outcome.
    Open(D),
    /// The walk is over.
    Finish,
}

/// The mathematical value of a walker: its listing and its stack of pending
/// directories, the top of the stack last.
pub ghost struct Walk<R, D> {
    pub read_dir: R,
    pub pending: Seq<D>,
}

impl<R, D> View for ReadDirRecursive<R, D> {
    type V = Walk<R, D>;

    open spec fn view(&self) -> Walk<R, D> {
        Walk { read_dir: self.read_dir, pending: self.pending_dirs@ }
    }
}

/// The walker's rule: the state after `event` and the action it calls for.
///
/// * a directory is pushed on the stack and the listing is pulled again;
/// * any other entry is yielded;
/// * an entry whose metadata cannot be read, an error of the listing and a
///   directory that cannot be opened each yield that one error, and leave
///   the state as it was;
/// * at the end of a listing the top of the stack is popped and asked to be
///   opened, or the walk finishes if the stack is empty;
/// * a listing that was opened takes the place of the drained one.
pub open spec fn step<R, D, E>(w: Walk<R, D>, event: Event<R, D, E>) -> (Walk<R, D>, Action<D, E>) {
    match event {
        Event::Entry { entry, is_dir: Ok(true) } => (
            Walk { read_dir: w.read_dir, pending: w.pending.push(entry) },
            Action::Pull,
        ),
        Event::Entry { entry, is_dir: Ok(false) } => (w, Action::Yield(Ok(entry))),
        Event::Entry { entry, is_dir: Err(e) } => (w, Action::Yield(Err(e))),
        Event::Failed(e) => (w, Action::Yield(Err(e))),
        Event::End => if w.pending.len() > 0 {
            (
                Walk { read_dir: w.read_dir, pending: w.pending.drop_last() },
                Action::Open(w.pending.last()),
            )
        } else {
            (w, Action::Finish)
        },
        Event::Opened(r) => (Walk { read_dir: r, pending: w.pending }, Action::Pull),
        Event::OpenFailed(e) => (w, Action::Yield(Err(e))),
    }
}

impl<R, D> ReadDirRecursive<R, D> {
    /// Starts a walk from the outcome of opening the root directory: a walker
    /// over the root's listing with nothing pending, or the error with which
    /// the root failed to open.
    pub fn new<E>(root: Result<R, E>) -> (r: Result<Self, E>)
        ensures
            match (root, r) {
                (Ok(listing), Ok(walker)) => walker@ == (Walk {
                    read_dir: listing,
                    pending: Seq::<D>::empty(),
                }),
                (Err(e), Err(f)) => e == f,
                _ => false,
            },
    {
        match root {
            Ok(read_dir) => Ok(ReadDirRecursive { read_dir, pending_dirs: Vec::new() }),
            Err(e) => Err(e),
        }
    }

    /// Takes in what the filesystem reported and decides what happens next,
    /// as [`step`] says.
    pub fn next<E>(&mut self, event: Event<R, D, E>) -> (action: Action<D, E>)
        ensures
            (final(self)@, action) == step(old(self)@, event),
    {
        match event {
            Event::Entry { entry, is_dir } => match is_dir {
                Ok(true) => {
                    self.pending_dirs.push(entry);
                    Action::Pull
                },
                Ok(false) => Action::Yield(Ok(entry)),
                Err(e) => Action::Yield(Err(e)),
            },
            Event::Failed(e) => Action::Yield(Err(e)),
            Event::End => match self.pending_dirs.pop() {
                Some(dir) => Action::Open(dir),
                None => Action::Finish,
            },
            Event::Opened(read_dir) => {
                self.read_dir = read_dir;
                Action::Pull
            },
            Event::OpenFailed(e) => Action::Yield(Err(e)),
        }
    }
}

/// Starts a walk from the outcome of opening the root directory. The same as
/// [`ReadDirRecursive::new`].
pub fn read_dir_recursive<R, D, E>(root: Result<R, E>) -> (r: Result<ReadDirRecursive<R, D>, E>)
    ensures
        match (root, r) {
            (Ok(listing), Ok(walker)) => walker@ == (Walk {
                read_dir: listing,
                pending: Seq::<D>::empty(),
            }),
            (Err(e), Err(f)) => e == f,
            _ => false,
        },
{
    ReadDirRecursive::new(root)
}

} // verus!
