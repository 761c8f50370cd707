//! A mathematical model of a directory tree, and of a walk over it.
//!
//! The model answers the walker as a filesystem would: it hands out the
//! entries of a listing one by one, says of each whether it is a directory,
//! and opens directories on request. Any of these may fail. What the walker
//! yields over such a tree is then a sequence that can be compared with the
//! plain recursive enumeration of the tree.

use vstd::prelude::*;
use crate::rdr::{step, Action, Event, Walk};

verus! {

/// One object of a directory tree, as the filesystem reports it.
pub ghost struct Node<E> {
    /// Its absolute path.
    pub path: Seq<char>,
    /// What a metadata lookup says of it: whether it is a directory, or why
    /// that cannot be told.
    pub is_dir: Result<bool, E>,
    /// What opening it as a directory gives: its listing, or why it cannot
    /// be opened.
    pub listing: Result<Listing<E>, E>,
}

/// What a listing holds in one place, and what a walk yields at one time:
/// an entry, or an error in place of one.
pub type Item<E> = Result<Node<E>, E>;

/// A directory listing: what the directory holds, in the order in which the
/// filesystem hands it out.
pub type Listing<E> = Seq<Item<E>>;

/// The state of a walk over the model: the rest of the listing that is
/// being drained, and the stack of pending directories.
pub type State<E> = Walk<Listing<E>, Node<E>>;

/// What a listing gives when it is pulled: the event for its first item and
/// the listing that remains.
pub open spec fn pull<E>(listing: Listing<E>) -> (
    Event<Listing<E>, Node<E>, E>,
    Listing<E>,
) {
    if listing.len() == 0 {
        (Event::End, listing)
    } else {
        (
            match listing.first() {
                Ok(node) => Event::Entry { entry: node, is_dir: node.is_dir },
                Err(e) => Event::Failed(e),
            },
            listing.drop_first(),
        )
    }
}

/// What opening the directory `node` gives.
pub open spec fn open<E>(node: Node<E>) -> Event<Listing<E>, Node<E>, E> {
    match node.listing {
        Ok(listing) => Event::Opened(listing),
        Err(e) => Event::OpenFailed(e),
    }
}

/// The number of entries in `listing` and in all the listings below it.
pub open spec fn size<E>(listing: Listing<E>) -> nat
    decreases listing,
{
    if listing.len() == 0 {
        0
    } else {
        1 + size(listing.drop_first()) + match listing.first() {
            Ok(node) => below(node),
            Err(_) => 0,
        }
    }
}

/// The number of entries in all the listings below `node`.
pub open spec fn below<E>(node: Node<E>) -> nat
    decreases node,
{
    match node.listing {
        Ok(listing) => size(listing),
        Err(_) => 0,
    }
}

/// What is left to do with a stack of pending directories: each is still to
/// be opened and its listing to be drained.
pub open spec fn pending_size<E>(pending: Seq<Node<E>>) -> nat
    decreases pending.len(),
{
    if pending.len() == 0 {
        0
    } else {
        pending_size(pending.drop_last()) + 1 + 2 * below(pending.last())
    }
}

/// A bound on the rounds that a walk in state `w` still takes.
pub open spec fn weight<E>(w: State<E>) -> nat {
    2 * size(w.read_dir) + pending_size(w.pending)
}

/// One round of a walk: the listing is pulled and the walker decides; if it
/// asks for a directory, the directory is opened and the walker decides
/// again. Gives the state after the round and the action that ends it.
pub open spec fn round<E>(w: State<E>) -> (
    State<E>,
    Action<Node<E>, E>,
) {
    let (event, rest) = pull(w.read_dir);
    let (after, action) = step(Walk { read_dir: rest, pending: w.pending }, event);
    match action {
        Action::Open(dir) => step(after, open(dir)),
        _ => (after, action),
    }
}

/// Everything that a walk yields from state `w` on, in the order in which
/// it is yielded.
pub open spec fn walk<E>(w: State<E>) -> Seq<Item<E>>
    decreases weight(w),
    via walk_terminates::<E>
{
    let (next, action) = round(w);
    match action {
        Action::Yield(item) => seq![item] + walk(next),
        Action::Pull => walk(next),
        Action::Open(_) => Seq::empty(),
        Action::Finish => Seq::empty(),
    }
}

#[via_fn]
proof fn walk_terminates<E>(w: State<E>) {
    lemma_round_makes_progress(w);
}

/// A walk over the listing `root`, from its start.
pub open spec fn walk_from<E>(root: Listing<E>) -> Seq<Item<E>> {
    walk(Walk { read_dir: root, pending: Seq::empty() })
}

/// Every round ends with an item to yield, with a request to pull again, or
/// with the end of the walk, and but for the last it brings the walk closer
/// to its end.
pub proof fn lemma_round_makes_progress<E>(w: State<E>)
    ensures
        !(round(w).1 is Open),
        round(w).1 is Finish <==> w.read_dir.len() == 0 && w.pending.len() == 0,
        !(round(w).1 is Finish) ==> weight(round(w).0) < weight(w),
{
    let (event, rest) = pull(w.read_dir);
    if w.read_dir.len() > 0 {
        match w.read_dir.first() {
            Ok(node) => {
                if node.is_dir == Ok::<bool, E>(true) {
                    assert(w.pending.push(node).drop_last() =~= w.pending);
                }
            },
            Err(_) => {},
        }
    } else {
        assert(size(w.read_dir) == 0);
    }
}

/// The items of the tree below the listing `listing`, found by plain
/// recursive enumeration: each entry in turn, a directory's contents in
/// place of the directory.
pub open spec fn items_in<E>(listing: Listing<E>) -> Seq<Item<E>>
    decreases listing,
{
    if listing.len() == 0 {
        Seq::empty()
    } else {
        (match listing.first() {
            Ok(node) => items_of(node),
            Err(e) => seq![Err(e)],
        }) + items_in(listing.drop_first())
    }
}

/// The items that the entry `node` stands for: itself if it is not a
/// directory, what is inside it if it is one, and one error if its metadata
/// cannot be read.
pub open spec fn items_of<E>(node: Node<E>) -> Seq<Item<E>>
    decreases node,
{
    match node.is_dir {
        Ok(true) => match node.listing {
            Ok(listing) => items_in(listing),
            Err(e) => seq![Err(e)],
        },
        Ok(false) => seq![Ok(node)],
        Err(e) => seq![Err(e)],
    }
}

/// The items inside the directory `node`: those of its listing, or one
/// error if it cannot be opened.
pub open spec fn items_inside<E>(node: Node<E>) -> Seq<Item<E>> {
    match node.listing {
        Ok(listing) => items_in(listing),
        Err(e) => seq![Err(e)],
    }
}

/// The items inside all the directories of a stack of pending directories.
pub open spec fn items_pending<E>(pending: Seq<Node<E>>) -> Seq<Item<E>>
    decreases pending.len(),
{
    if pending.len() == 0 {
        Seq::empty()
    } else {
        items_pending(pending.drop_last()) + items_inside(pending.last())
    }
}

/// From any state on, a walk yields the items below the listing it is
/// draining and the items inside the directories it has pending, each as
/// often as it occurs there.
pub proof fn lemma_walk_yields_what_is_left<E>(w: State<E>)
    ensures
        walk(w).to_multiset() == (items_in(w.read_dir) + items_pending(w.pending)).to_multiset(),
    decreases weight(w),
{
    broadcast use vstd::seq_lib::lemma_multiset_commutative;

    lemma_round_makes_progress(w);
    let (next, action) = round(w);
    let listed = items_in(w.read_dir);
    let stacked = items_pending(w.pending);
    if w.read_dir.len() > 0 {
        let rest = w.read_dir.drop_first();
        lemma_walk_yields_what_is_left(next);
        match w.read_dir.first() {
            Ok(node) => {
                if node.is_dir == Ok::<bool, E>(true) {
                    let inside = items_inside(node);
                    assert(w.pending.push(node).drop_last() =~= w.pending);
                    assert(items_pending(next.pending) == stacked + inside);
                    assert(items_of(node) == inside);
                    assert(listed == items_of(node) + items_in(rest));
                    assert(walk(w) == walk(next));
                    assert((items_in(rest) + (stacked + inside)).to_multiset() =~= (inside
                        + items_in(rest) + stacked).to_multiset());
                } else {
                    let item = action->Yield_0;
                    assert(items_of(node) == seq![item]);
                    assert(listed == items_of(node) + items_in(rest));
                    assert(walk(w) == seq![item] + walk(next));
                    assert(listed + stacked =~= seq![item] + (items_in(rest) + stacked));
                }
            },
            Err(e) => {
                let item = action->Yield_0;
                assert(listed == seq![item] + items_in(rest));
                assert(walk(w) == seq![item] + walk(next));
                assert(listed + stacked =~= seq![item] + (items_in(rest) + stacked));
            },
        }
    } else if w.pending.len() > 0 {
        let dir = w.pending.last();
        let below_rest = items_pending(w.pending.drop_last());
        lemma_walk_yields_what_is_left(next);
        assert(listed =~= Seq::empty());
        assert(stacked == below_rest + items_inside(dir));
        match dir.listing {
            Ok(listing) => {
                assert(walk(w) == walk(next));
                assert(listed + stacked =~= below_rest + items_in(listing));
            },
            Err(e) => {
                assert(walk(w) == seq![Err(e)] + walk(next));
                assert(items_in(next.read_dir) + below_rest =~= below_rest);
                assert(listed + stacked =~= below_rest + seq![Err(e)]);
            },
        }
    } else {
        assert(walk(w) =~= Seq::empty());
        assert(listed + stacked =~= Seq::empty());
    }
}

/// A walk over a tree yields exactly the items of the tree: every file, and
/// every error met on the way, as often as the plain enumeration of the tree
/// has it, so none is left out and none comes twice.
pub proof fn lemma_walk_yields_the_tree<E>(root: Listing<E>)
    ensures
        walk_from(root).to_multiset() == items_in(root).to_multiset(),
{
    let start = Walk { read_dir: root, pending: Seq::<Node<E>>::empty() };
    lemma_walk_yields_what_is_left(start);
    assert(items_in(root) + items_pending(start.pending) =~= items_in(root));
}

/// The paths of the files among `items`.
pub open spec fn file_paths<E>(items: Seq<Item<E>>) -> Set<Seq<char>> {
    Set::new(|path: Seq<char>| exists|node: Node<E>| #[trigger]
        items.contains(Ok(node)) && node.path == path)
}

/// A walk and the plain enumeration of the tree have the same items: what
/// one contains the other contains.
pub proof fn lemma_walk_contains_the_tree<E>(root: Listing<E>)
    ensures
        forall|item: Item<E>| #[trigger]
            walk_from(root).contains(item) <==> items_in(root).contains(item),
{
    broadcast use vstd::seq_lib::to_multiset_contains;

    lemma_walk_yields_the_tree(root);
    assert forall|item: Item<E>| #[trigger]
        walk_from(root).contains(item) <==> items_in(root).contains(item) by {
        assert(walk_from(root).to_multiset().count(item) == items_in(root).to_multiset().count(
            item,
        ));
    }
}

/// The paths of the files that a walk yields are the paths of the files of
/// the tree, and where the enumeration of the tree names nothing twice, the
/// walk yields nothing twice.
pub proof fn lemma_walk_yields_every_file_path<E>(root: Listing<E>)
    ensures
        file_paths(walk_from(root)) == file_paths(items_in(root)),
        items_in(root).no_duplicates() ==> walk_from(root).no_duplicates(),
{
    lemma_walk_contains_the_tree(root);
    let walked = walk_from(root);
    let listed = items_in(root);
    assert forall|path: Seq<char>| file_paths(walked).contains(path) <==> file_paths(
        listed,
    ).contains(path) by {
        if file_paths(walked).contains(path) {
            let node = choose|node: Node<E>| #[trigger]
                walked.contains(Ok(node)) && node.path == path;
            assert(listed.contains(Ok(node)));
        }
        if file_paths(listed).contains(path) {
            let node = choose|node: Node<E>| #[trigger]
                listed.contains(Ok(node)) && node.path == path;
            assert(walked.contains(Ok(node)));
        }
    }
    assert(file_paths(walked) =~= file_paths(listed));
    if items_in(root).no_duplicates() {
        lemma_walk_yields_the_tree(root);
        items_in(root).lemma_multiset_has_no_duplicates();
        walk_from(root).lemma_multiset_has_no_duplicates_conv();
    }
}

/// The plain enumeration of a tree names no directory: every entry it
/// gives is one whose metadata says that it is not a directory.
pub proof fn lemma_items_are_files<E>(listing: Listing<E>)
    ensures
        forall|node: Node<E>| #[trigger]
            items_in(listing).contains(Ok(node)) ==> node.is_dir == Ok::<bool, E>(false),
    decreases listing,
{
    if listing.len() > 0 {
        let rest = items_in(listing.drop_first());
        lemma_items_are_files(listing.drop_first());
        match listing.first() {
            Ok(first) => {
                let head = items_of(first);
                assert(items_in(listing) == head + rest);
                if first.is_dir == Ok::<bool, E>(true) {
                    if let Ok(inner) = first.listing {
                        lemma_items_are_files(inner);
                        assert(head == items_in(inner));
                    }
                }
                assert forall|node: Node<E>| #[trigger]
                    items_in(listing).contains(Ok(node)) implies node.is_dir == Ok::<bool, E>(
                    false,
                ) by {
                    let i = choose|i: int|
                        0 <= i < (head + rest).len() && (head + rest)[i] == Ok::<Node<E>, E>(node);
                    if i < head.len() {
                        assert(head[i] == Ok::<Node<E>, E>(node));
                        assert(head.contains(Ok(node)));
                    } else {
                        assert(rest[i - head.len()] == Ok::<Node<E>, E>(node));
                        assert(rest.contains(Ok(node)));
                    }
                }
            },
            Err(e) => {
                let head = seq![Err::<Node<E>, E>(e)];
                assert(items_in(listing) == head + rest);
                assert forall|node: Node<E>| #[trigger]
                    items_in(listing).contains(Ok(node)) implies node.is_dir == Ok::<bool, E>(
                    false,
                ) by {
                    let i = choose|i: int|
                        0 <= i < (head + rest).len() && (head + rest)[i] == Ok::<Node<E>, E>(node);
                    if i >= 1 {
                        assert(rest[i - 1] == Ok::<Node<E>, E>(node));
                        assert(rest.contains(Ok(node)));
                    }
                }
            },
        }
    }
}

/// A walk never yields a directory: every entry it yields is one whose
/// metadata says that it is not a directory.
pub proof fn lemma_walk_yields_only_files<E>(root: Listing<E>)
    ensures
        forall|node: Node<E>| #[trigger]
            walk_from(root).contains(Ok(node)) ==> node.is_dir == Ok::<bool, E>(false),
{
    lemma_walk_contains_the_tree(root);
    lemma_items_are_files(root);
}

/// The plain enumeration of a listing holds the items of each of its
/// entries.
pub proof fn lemma_items_of_each_entry<E>(listing: Listing<E>, i: int)
    requires
        0 <= i < listing.len(),
    ensures
        match listing[i] {
            Ok(node) => forall|item: Item<E>| #[trigger]
                items_of(node).contains(item) ==> items_in(listing).contains(item),
            Err(e) => items_in(listing).contains(Err(e)),
        },
    decreases i,
{
    let rest = items_in(listing.drop_first());
    let head = match listing.first() {
        Ok(node) => items_of(node),
        Err(e) => seq![Err(e)],
    };
    assert(items_in(listing) == head + rest);
    if i == 0 {
        assert forall|item: Item<E>| #[trigger] head.contains(item) implies (head
            + rest).contains(item) by {
            let k = choose|k: int| 0 <= k < head.len() && head[k] == item;
            assert((head + rest)[k] == item);
        }
        if let Err(e) = listing[i] {
            assert(head[0] == Err::<Node<E>, E>(e));
            assert(head.contains(Err(e)));
        }
    } else {
        lemma_items_of_each_entry(listing.drop_first(), i - 1);
        assert(listing.drop_first()[i - 1] == listing[i]);
        assert forall|item: Item<E>| #[trigger] rest.contains(item) implies (head
            + rest).contains(item) by {
            let k = choose|k: int| 0 <= k < rest.len() && rest[k] == item;
            assert((head + rest)[head.len() + k] == item);
        }
    }
}

/// A directory that cannot be opened costs the walk that directory only:
/// the walk yields its error, and still yields every item of every other
/// entry beside it.
pub proof fn lemma_walk_survives_failed_directory<E>(
    root: Listing<E>,
    failed: int,
    other: int,
)
    requires
        0 <= failed < root.len(),
        0 <= other < root.len(),
        root[failed] is Ok,
        root[failed]->Ok_0.is_dir == Ok::<bool, E>(true),
        root[failed]->Ok_0.listing is Err,
        root[other] is Ok,
    ensures
        walk_from(root).contains(Err(root[failed]->Ok_0.listing->Err_0)),
        forall|item: Item<E>| #[trigger]
            items_of(root[other]->Ok_0).contains(item) ==> walk_from(root).contains(item),
{
    let dir = root[failed]->Ok_0;
    let error = dir.listing->Err_0;
    lemma_walk_contains_the_tree(root);
    lemma_items_of_each_entry(root, failed);
    lemma_items_of_each_entry(root, other);
    assert(items_of(dir)[0] == Err::<Node<E>, E>(error));
    assert(items_of(dir).contains(Err(error)));
}

/// What a listing yields by itself: its files and its errors, in the order
/// of the listing, without what is inside its directories.
pub open spec fn items_at<E>(listing: Listing<E>) -> Seq<Item<E>>
    decreases listing.len(),
{
    if listing.len() == 0 {
        Seq::empty()
    } else {
        (match listing.first() {
            Ok(node) => match node.is_dir {
                Ok(true) => Seq::empty(),
                Ok(false) => seq![Ok(node)],
                Err(e) => seq![Err(e)],
            },
            Err(e) => seq![Err(e)],
        }) + items_at(listing.drop_first())
    }
}

/// The directories of a listing, in the order of the listing.
pub open spec fn dirs_at<E>(listing: Listing<E>) -> Seq<Node<E>>
    decreases listing.len(),
{
    if listing.len() == 0 {
        Seq::empty()
    } else {
        (match listing.first() {
            Ok(node) => if node.is_dir == Ok::<bool, E>(true) {
                seq![node]
            } else {
                Seq::empty()
            },
            Err(_) => Seq::empty(),
        }) + dirs_at(listing.drop_first())
    }
}

/// A walk drains the listing it is in before it enters any directory: it
/// yields what the listing yields by itself, in the order of the listing,
/// and goes on with the directories of the listing on top of its stack.
pub proof fn lemma_walk_drains_the_listing_first<E>(w: State<E>)
    ensures
        walk(w) == items_at(w.read_dir) + walk(
            Walk { read_dir: Seq::empty(), pending: w.pending + dirs_at(w.read_dir) },
        ),
    decreases w.read_dir.len(),
{
    if w.read_dir.len() == 0 {
        assert(w.pending + dirs_at(w.read_dir) =~= w.pending);
        assert(w.read_dir =~= Seq::empty());
        assert(items_at(w.read_dir) + walk(w) =~= walk(w));
    } else {
        let (next, action) = round(w);
        let rest = w.read_dir.drop_first();
        let after = Walk { read_dir: Seq::empty(), pending: next.pending + dirs_at(rest) };
        lemma_walk_drains_the_listing_first(next);
        assert(walk(next) == items_at(rest) + walk(after));
        match w.read_dir.first() {
            Ok(node) => {
                if node.is_dir == Ok::<bool, E>(true) {
                    assert(next.pending + dirs_at(rest) =~= w.pending + dirs_at(w.read_dir));
                    assert(items_at(w.read_dir) =~= items_at(rest));
                } else {
                    let item = action->Yield_0;
                    assert(next.pending + dirs_at(rest) =~= w.pending + dirs_at(w.read_dir));
                    assert(walk(w) == seq![item] + walk(next));
                    assert(items_at(w.read_dir) == seq![item] + items_at(rest));
                    assert(walk(w) =~= items_at(w.read_dir) + walk(after));
                }
            },
            Err(e) => {
                let item = action->Yield_0;
                assert(next.pending + dirs_at(rest) =~= w.pending + dirs_at(w.read_dir));
                assert(walk(w) == seq![item] + walk(next));
                assert(items_at(w.read_dir) == seq![item] + items_at(rest));
                assert(walk(w) =~= items_at(w.read_dir) + walk(after));
            },
        }
    }
}

/// At the end of a listing a walk enters the directory it found last: it
/// goes on in that directory's listing, or yields the error with which the
/// directory failed to open and turns to the directory found before it.
pub proof fn lemma_walk_enters_the_directory_found_last<E>(pending: Seq<Node<E>>)
    requires
        pending.len() > 0,
    ensures
        walk(Walk { read_dir: Seq::empty(), pending }) == match pending.last().listing {
            Ok(listing) => walk(Walk { read_dir: listing, pending: pending.drop_last() }),
            Err(e) => seq![Err(e)] + walk(
                Walk { read_dir: Seq::empty(), pending: pending.drop_last() },
            ),
        },
{
    let w = Walk { read_dir: Listing::<E>::empty(), pending };
    let (next, action) = round(w);
    match pending.last().listing {
        Ok(listing) => {
            assert(next == Walk { read_dir: listing, pending: pending.drop_last() });
        },
        Err(_) => {
            assert(next == Walk {
                read_dir: Listing::<E>::empty(),
                pending: pending.drop_last(),
            });
        },
    }
}

} // verus!
