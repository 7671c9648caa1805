//! The hierarchy of a directory: which entry holds which.
//!
//! A storage names, in its record, the root of a binary tree: the tree of
//! the entries it holds. In that tree an entry names its left and its right
//! neighbour. The walk below visits the root storage, and after each entry
//! the entries it holds, then its left and its right neighbours, which are
//! held by the same entry as the entry itself.
//!
//! The walk is defined by recursion. It is carried out with a stack of
//! links, so that a long row of neighbours cannot exhaust the call stack.

use vstd::prelude::*;
use crate::chain::lemma_distinct_ids_fit;
use crate::constants::FREE_SECID_U32;
use crate::directory::MAX_DIRECTORY_ENTRIES;
use crate::directory::entry_views;
use crate::entry::Entry;
use crate::entry::EntryType;
use crate::entry::EntryView;
use crate::error::Error;

verus! {

/// One step of the walk: the entry `id` is met as one held by `parent`.
pub ghost struct Visit {
    pub id: u32,
    pub parent: Option<u32>,
}

/// Whether the link `id` leads to an entry: it is not the null link and
/// not beyond the directory.
pub open spec fn is_entry_id(entries: Seq<EntryView>, id: u32) -> bool {
    id != FREE_SECID_U32 && id < entries.len()
}

/// The walk from the link `id`, met as a link to an entry held by `parent`.
///
/// A link that leads to no entry ends the walk. Else the entry is visited;
/// then, where it is a storage, the walk goes on from the root of its own
/// tree, with the entry as the parent; then from its left and from its
/// right neighbour, with the same parent as the entry. `depth` is how many
/// links the walk may follow one after the other.
pub open spec fn walk(entries: Seq<EntryView>, id: u32, parent: Option<u32>, depth: nat) -> Seq<
    Visit,
>
    decreases depth,
{
    if depth == 0 || !is_entry_id(entries, id) {
        Seq::empty()
    } else {
        let entry = entries[id as int];
        let below = if entry.entry_type.is_storage() {
            walk(entries, entry.root_node, Some(id), (depth - 1) as nat)
        } else {
            Seq::empty()
        };
        seq![Visit { id, parent }] + below + walk(
            entries,
            entry.left_child_node,
            parent,
            (depth - 1) as nat,
        ) + walk(entries, entry.right_child_node, parent, (depth - 1) as nat)
    }
}

/// The walk over a directory: from entry 0, which no entry holds. A walk
/// that visits no entry twice follows at most as many links in a row as
/// the directory has entries.
pub open spec fn hierarchy_walk(entries: Seq<EntryView>) -> Seq<Visit> {
    walk(entries, 0, None, entries.len() + 1)
}

/// The ids of the entries that a walk visits, in order.
pub open spec fn visited_ids(visits: Seq<Visit>) -> Seq<u32> {
    Seq::new(visits.len(), |k: int| visits[k].id)
}

/// Whether the links of a directory form a hierarchy: the walk visits no
/// entry twice.
pub open spec fn is_hierarchy(entries: Seq<EntryView>) -> bool {
    visited_ids(hierarchy_walk(entries)).no_duplicates()
}

/// Whether the walk `visits` visits the entry `id`.
pub open spec fn is_visited(visits: Seq<Visit>, id: u32) -> bool {
    exists|k: int| 0 <= k < visits.len() && (#[trigger] visits[k]).id == id
}

/// The entry that holds `id` according to the walk `visits`: the parent
/// with which `id` is visited. None for an entry that is not visited.
pub open spec fn parent_in(visits: Seq<Visit>, id: u32) -> Option<u32>
    decreases visits.len(),
{
    if visits.len() == 0 {
        None
    } else if visits.last().id == id {
        visits.last().parent
    } else {
        parent_in(visits.drop_last(), id)
    }
}

/// The entries that `id` holds according to the walk `visits`: those
/// visited with the parent `id`, in the order of the walk.
pub open spec fn children_in(visits: Seq<Visit>, id: u32) -> Seq<u32>
    decreases visits.len(),
{
    if visits.len() == 0 {
        Seq::empty()
    } else if visits.last().parent == Some(id) {
        children_in(visits.drop_last(), id).push(visits.last().id)
    } else {
        children_in(visits.drop_last(), id)
    }
}

/// `entry`, the entry `id`, with the place that the walk `visits` gives it.
pub open spec fn placed_entry(entry: EntryView, visits: Seq<Visit>, id: u32) -> EntryView {
    EntryView {
        parent_node: parent_in(visits, id),
        children_nodes: children_in(visits, id),
        ..entry
    }
}

/// The entries of a directory, each with the place that the walk `visits` gives it.
pub open spec fn placed(entries: Seq<EntryView>, visits: Seq<Visit>) -> Seq<EntryView> {
    Seq::new(entries.len(), |i: int| placed_entry(entries[i], visits, i as u32))
}

/// The entries of a directory with their places in the hierarchy, or
/// `InvalidFormat` where the links form no hierarchy.
pub open spec fn hierarchy(entries: Seq<EntryView>) -> Result<Seq<EntryView>, Error> {
    if is_hierarchy(entries) {
        Ok(placed(entries, hierarchy_walk(entries)))
    } else {
        Err(Error::InvalidFormat)
    }
}

/// A walk that visits no entry twice and fewer entries than its depth is
/// the same at every greater depth.
pub proof fn lemma_walk_is_whole(
    entries: Seq<EntryView>,
    id: u32,
    parent: Option<u32>,
    depth: nat,
    deeper: nat,
)
    requires
        walk(entries, id, parent, depth).len() < depth,
        depth <= deeper,
    ensures
        walk(entries, id, parent, deeper) == walk(entries, id, parent, depth),
    decreases depth,
{
    if depth > 0 && is_entry_id(entries, id) {
        let entry = entries[id as int];
        let less = (depth - 1) as nat;
        let more = (deeper - 1) as nat;
        if entry.entry_type.is_storage() {
            lemma_walk_is_whole(entries, entry.root_node, Some(id), less, more);
        }
        lemma_walk_is_whole(entries, entry.left_child_node, parent, less, more);
        lemma_walk_is_whole(entries, entry.right_child_node, parent, less, more);
    }
}

/// Every entry that a walk visits is an entry of the directory.
pub proof fn lemma_walk_visits_entries(
    entries: Seq<EntryView>,
    id: u32,
    parent: Option<u32>,
    depth: nat,
)
    ensures
        forall|k: int|
            0 <= k < walk(entries, id, parent, depth).len() ==> is_entry_id(
                entries,
                (#[trigger] walk(entries, id, parent, depth)[k]).id,
            ),
    decreases depth,
{
    if depth > 0 && is_entry_id(entries, id) {
        let entry = entries[id as int];
        let less = (depth - 1) as nat;
        lemma_walk_visits_entries(entries, entry.root_node, Some(id), less);
        lemma_walk_visits_entries(entries, entry.left_child_node, parent, less);
        lemma_walk_visits_entries(entries, entry.right_child_node, parent, less);
    }
}

/// The depth of the walk over a hierarchy does not cut it short: at every
/// greater depth the walk is the same.
pub proof fn lemma_hierarchy_walk_is_whole(entries: Seq<EntryView>, deeper: nat)
    requires
        is_hierarchy(entries),
        deeper > entries.len(),
    ensures
        walk(entries, 0, None, deeper) == hierarchy_walk(entries),
{
    let visits = hierarchy_walk(entries);
    lemma_walk_visits_entries(entries, 0, None, entries.len() + 1);
    let ids = visited_ids(visits);
    assert forall|k: int| 0 <= k < ids.len() implies (#[trigger] ids[k]) < entries.len() by {}
    lemma_distinct_ids_fit(ids, entries.len());
    lemma_walk_is_whole(entries, 0, None, entries.len() + 1, deeper);
}

/// In a walk that visits no entry twice, the entries that `parent` holds
/// are those visited with `parent` as their parent: each of them once, and
/// each of them an entry whose parent is `parent`.
pub proof fn lemma_children_have_parent(visits: Seq<Visit>, parent: u32, id: u32)
    requires
        visited_ids(visits).no_duplicates(),
    ensures
        children_in(visits, parent).contains(id) <==> (is_visited(visits, id) && parent_in(
            visits,
            id,
        ) == Some(parent)),
        children_in(visits, parent).no_duplicates(),
        !is_visited(visits, id) ==> parent_in(visits, id) is None,
    decreases visits.len(),
{
    if visits.len() > 0 {
        let before = visits.drop_last();
        let last = visits.last();
        assert(visited_ids(before).no_duplicates()) by {
            assert forall|a: int, b: int|
                0 <= a < before.len() && 0 <= b < before.len() && a != b implies visited_ids(
                before,
            )[a] != visited_ids(before)[b] by {
                assert(visited_ids(visits)[a] != visited_ids(visits)[b]);
            }
        }
        lemma_children_have_parent(before, parent, id);
        lemma_children_have_parent(before, parent, last.id);
        lemma_visit_push(before, last, id);
        assert(!is_visited(before, last.id)) by {
            if is_visited(before, last.id) {
                let k = choose|k: int|
                    0 <= k < before.len() && (#[trigger] before[k]).id == last.id;
                assert(visited_ids(visits)[k] == visited_ids(visits)[visits.len() - 1]);
            }
        }
        let kids = children_in(before, parent);
        if last.parent == Some(parent) {
            assert(kids.push(last.id).no_duplicates()) by {
                assert forall|a: int, b: int|
                    0 <= a < kids.len() + 1 && 0 <= b < kids.len() + 1 && a != b implies kids.push(
                    last.id,
                )[a] != kids.push(last.id)[b] by {}
            }
            if id == last.id {
                assert(kids.push(last.id)[kids.len() as int] == id);
            }
            if kids.contains(id) {
                let k = choose|k: int| 0 <= k < kids.len() && kids[k] == id;
                assert(kids.push(last.id)[k] == id);
            }
        }
    }
}

/// In a walk that visits no entry twice, the parent of an entry is the one
/// with which the walk visits it.
pub proof fn lemma_parent_of_visit(visits: Seq<Visit>, k: int)
    requires
        visited_ids(visits).no_duplicates(),
        0 <= k < visits.len(),
    ensures
        parent_in(visits, visits[k].id) == visits[k].parent,
    decreases visits.len(),
{
    let before = visits.drop_last();
    if k < visits.len() - 1 {
        assert(visited_ids(visits)[k] != visited_ids(visits)[visits.len() - 1]);
        assert(visited_ids(before).no_duplicates()) by {
            assert forall|a: int, b: int|
                0 <= a < before.len() && 0 <= b < before.len() && a != b implies visited_ids(
                before,
            )[a] != visited_ids(before)[b] by {
                assert(visited_ids(visits)[a] != visited_ids(visits)[b]);
            }
        }
        lemma_parent_of_visit(before, k);
    }
}

/// In a hierarchy, entry 0 has no parent, and an entry holds exactly the
/// entries whose parent it is, each of them once.
pub proof fn lemma_hierarchy_is_consistent(
    entries: Seq<EntryView>,
    placed_entries: Seq<EntryView>,
    parent: int,
    id: u32,
)
    requires
        hierarchy(entries) == Ok::<Seq<EntryView>, Error>(placed_entries),
        0 < entries.len() <= u32::MAX,
        0 <= parent < entries.len(),
    ensures
        placed_entries.len() == entries.len(),
        placed_entries[0].parent_node is None,
        placed_entries[parent].children_nodes.no_duplicates(),
        placed_entries[parent].children_nodes.contains(id) <==> (id < entries.len()
            && placed_entries[id as int].parent_node == Some(parent as u32)),
{
    let visits = hierarchy_walk(entries);
    lemma_children_have_parent(visits, parent as u32, id);
    lemma_walk_visits_entries(entries, 0, None, entries.len() + 1);
    lemma_parent_of_visit(visits, 0);
}

/// Whether the entry `from` names `to` as its left or its right neighbour.
pub open spec fn is_neighbour_of(entries: Seq<EntryView>, from: u32, to: u32) -> bool {
    entries[from as int].left_child_node == to || entries[from as int].right_child_node == to
}

/// Whether `path` leads through entries of the directory, from each to one
/// that it names as its left or its right neighbour.
pub open spec fn is_neighbour_path(entries: Seq<EntryView>, path: Seq<u32>) -> bool {
    &&& path.len() > 0
    &&& forall|k: int| 0 <= k < path.len() ==> is_entry_id(entries, #[trigger] path[k])
    &&& forall|k: int|
        0 < k < path.len() ==> is_neighbour_of(entries, path[k - 1], #[trigger] path[k])
}

/// Whether the entry `to` is reached from the link `from` through links to
/// left and right neighbours only.
pub open spec fn reaches(entries: Seq<EntryView>, from: u32, to: u32) -> bool {
    exists|path: Seq<u32>|
        is_neighbour_path(entries, path) && path[0] == from && path.last() == to
}

/// Whether the walk `visits` makes the visit `visit`.
pub open spec fn has_visit(visits: Seq<Visit>, visit: Visit) -> bool {
    exists|m: int| 0 <= m < visits.len() && #[trigger] visits[m] == visit
}

/// What is reached from a neighbour of an entry is reached from the entry.
proof fn lemma_reaches_through_neighbour(entries: Seq<EntryView>, id: u32, next: u32, to: u32)
    requires
        is_entry_id(entries, id),
        is_neighbour_of(entries, id, next),
        reaches(entries, next, to),
    ensures
        reaches(entries, id, to),
{
    let path = choose|path: Seq<u32>|
        is_neighbour_path(entries, path) && path[0] == next && path.last() == to;
    let longer = seq![id] + path;
    assert forall|k: int| 0 <= k < longer.len() implies is_entry_id(
        entries,
        #[trigger] longer[k],
    ) by {
        if k > 0 {
            assert(longer[k] == path[k - 1]);
        }
    }
    assert forall|k: int| 0 < k < longer.len() implies is_neighbour_of(
        entries,
        longer[k - 1],
        #[trigger] longer[k],
    ) by {
        assert(longer[k] == path[k - 1]);
        if k > 1 {
            assert(longer[k - 1] == path[k - 2]);
        }
    }
    assert(longer.last() == path.last());
    assert(is_neighbour_path(entries, longer) && longer[0] == id && longer.last() == to);
}

/// An entry is reached from the link to itself.
proof fn lemma_reaches_itself(entries: Seq<EntryView>, id: u32)
    requires
        is_entry_id(entries, id),
    ensures
        reaches(entries, id, id),
{
    let path = seq![id];
    assert(is_neighbour_path(entries, path) && path[0] == id && path.last() == id);
}

/// Each visit of a walk is one of an entry reached from the link where the
/// walk begins, with the parent of the walk, or one of an entry reached
/// from the root of the tree of a storage, with that storage as its parent.
pub proof fn lemma_visits_are_reached(
    entries: Seq<EntryView>,
    id: u32,
    parent: Option<u32>,
    depth: nat,
    k: int,
)
    requires
        0 <= k < walk(entries, id, parent, depth).len(),
    ensures
        ({
            let visit = walk(entries, id, parent, depth)[k];
            ||| visit.parent == parent && reaches(entries, id, visit.id)
            ||| visit.parent matches Some(holder) && is_entry_id(entries, holder)
                && entries[holder as int].entry_type.is_storage() && reaches(
                entries,
                entries[holder as int].root_node,
                visit.id,
            )
        }),
    decreases depth,
{
    let entry = entries[id as int];
    let less = (depth - 1) as nat;
    let below = if entry.entry_type.is_storage() {
        walk(entries, entry.root_node, Some(id), less)
    } else {
        Seq::<Visit>::empty()
    };
    let left = walk(entries, entry.left_child_node, parent, less);
    let right = walk(entries, entry.right_child_node, parent, less);
    let visits = walk(entries, id, parent, depth);
    assert(visits == seq![Visit { id, parent }] + below + left + right);
    if k == 0 {
        lemma_reaches_itself(entries, id);
    } else if k - 1 < below.len() {
        assert(visits[k] == below[k - 1]);
        lemma_visits_are_reached(entries, entry.root_node, Some(id), less, k - 1);
    } else if k - 1 - below.len() < left.len() {
        let at = k - 1 - below.len();
        assert(visits[k] == left[at]);
        lemma_visits_are_reached(entries, entry.left_child_node, parent, less, at);
        if left[at].parent == parent && reaches(entries, entry.left_child_node, left[at].id) {
            lemma_reaches_through_neighbour(entries, id, entry.left_child_node, left[at].id);
        }
    } else {
        let at = k - 1 - below.len() - left.len();
        assert(visits[k] == right[at]);
        lemma_visits_are_reached(entries, entry.right_child_node, parent, less, at);
        if right[at].parent == parent && reaches(entries, entry.right_child_node, right[at].id) {
            lemma_reaches_through_neighbour(entries, id, entry.right_child_node, right[at].id);
        }
    }
}

/// A walk that is not cut short visits, with its parent, each entry that a
/// path of neighbours leads to from the link where it begins.
pub proof fn lemma_reached_is_visited(
    entries: Seq<EntryView>,
    id: u32,
    parent: Option<u32>,
    depth: nat,
    path: Seq<u32>,
)
    requires
        walk(entries, id, parent, depth).len() < depth,
        is_neighbour_path(entries, path),
        path[0] == id,
    ensures
        has_visit(walk(entries, id, parent, depth), Visit { id: path.last(), parent }),
    decreases path.len(),
{
    let entry = entries[id as int];
    let less = (depth - 1) as nat;
    let below = if entry.entry_type.is_storage() {
        walk(entries, entry.root_node, Some(id), less)
    } else {
        Seq::<Visit>::empty()
    };
    let left = walk(entries, entry.left_child_node, parent, less);
    let right = walk(entries, entry.right_child_node, parent, less);
    let visits = walk(entries, id, parent, depth);
    assert(is_entry_id(entries, path[0]));
    assert(visits == seq![Visit { id, parent }] + below + left + right);
    let target = Visit { id: path.last(), parent };
    if path.len() == 1 {
        assert(visits[0] == target);
    } else {
        let rest = path.subrange(1, path.len() as int);
        assert(is_neighbour_path(entries, rest)) by {
            assert forall|k: int| 0 <= k < rest.len() implies is_entry_id(
                entries,
                #[trigger] rest[k],
            ) by {
                assert(rest[k] == path[k + 1]);
            }
            assert forall|k: int| 0 < k < rest.len() implies is_neighbour_of(
                entries,
                rest[k - 1],
                #[trigger] rest[k],
            ) by {
                assert(rest[k] == path[k + 1]);
                assert(rest[k - 1] == path[k]);
            }
        }
        assert(rest.last() == path.last());
        assert(is_neighbour_of(entries, path[0], path[1]));
        if entry.left_child_node == path[1] {
            lemma_reached_is_visited(entries, entry.left_child_node, parent, less, rest);
            let m = choose|m: int| 0 <= m < left.len() && #[trigger] left[m] == target;
            assert(visits[1 + below.len() + m] == target);
        } else {
            lemma_reached_is_visited(entries, entry.right_child_node, parent, less, rest);
            let m = choose|m: int| 0 <= m < right.len() && #[trigger] right[m] == target;
            assert(visits[1 + below.len() + left.len() + m] == target);
        }
    }
}

/// A walk that is not cut short and visits a storage makes every visit of
/// the walk from the root of the tree of that storage, and that walk is not
/// cut short at the depth `inner`.
pub proof fn lemma_members_are_visited(
    entries: Seq<EntryView>,
    id: u32,
    parent: Option<u32>,
    depth: nat,
    k: int,
) -> (inner: nat)
    requires
        walk(entries, id, parent, depth).len() < depth,
        0 <= k < walk(entries, id, parent, depth).len(),
        is_entry_id(entries, walk(entries, id, parent, depth)[k].id),
        entries[walk(entries, id, parent, depth)[k].id as int].entry_type.is_storage(),
    ensures
        ({
            let holder = walk(entries, id, parent, depth)[k].id;
            let members = walk(entries, entries[holder as int].root_node, Some(holder), inner);
            &&& members.len() < inner
            &&& forall|j: int|
                0 <= j < members.len() ==> has_visit(
                    walk(entries, id, parent, depth),
                    #[trigger] members[j],
                )
        }),
    decreases depth,
{
    let entry = entries[id as int];
    let less = (depth - 1) as nat;
    let below = if entry.entry_type.is_storage() {
        walk(entries, entry.root_node, Some(id), less)
    } else {
        Seq::<Visit>::empty()
    };
    let left = walk(entries, entry.left_child_node, parent, less);
    let right = walk(entries, entry.right_child_node, parent, less);
    let visits = walk(entries, id, parent, depth);
    assert(visits == seq![Visit { id, parent }] + below + left + right);
    let holder = visits[k].id;
    if k == 0 {
        assert forall|j: int| 0 <= j < below.len() implies has_visit(
            visits,
            #[trigger] below[j],
        ) by {
            assert(visits[1 + j] == below[j]);
        }
        less
    } else if k - 1 < below.len() {
        assert(visits[k] == below[k - 1]);
        let inner = lemma_members_are_visited(entries, entry.root_node, Some(id), less, k - 1);
        let members = walk(entries, entries[holder as int].root_node, Some(holder), inner);
        assert forall|j: int| 0 <= j < members.len() implies has_visit(
            visits,
            #[trigger] members[j],
        ) by {
            let m = choose|m: int| 0 <= m < below.len() && #[trigger] below[m] == members[j];
            assert(visits[1 + m] == members[j]);
        }
        inner
    } else if k - 1 - below.len() < left.len() {
        let at = k - 1 - below.len();
        assert(visits[k] == left[at]);
        let inner = lemma_members_are_visited(entries, entry.left_child_node, parent, less, at);
        let members = walk(entries, entries[holder as int].root_node, Some(holder), inner);
        assert forall|j: int| 0 <= j < members.len() implies has_visit(
            visits,
            #[trigger] members[j],
        ) by {
            let m = choose|m: int| 0 <= m < left.len() && #[trigger] left[m] == members[j];
            assert(visits[1 + below.len() + m] == members[j]);
        }
        inner
    } else {
        let at = k - 1 - below.len() - left.len();
        assert(visits[k] == right[at]);
        let inner = lemma_members_are_visited(entries, entry.right_child_node, parent, less, at);
        let members = walk(entries, entries[holder as int].root_node, Some(holder), inner);
        assert forall|j: int| 0 <= j < members.len() implies has_visit(
            visits,
            #[trigger] members[j],
        ) by {
            let m = choose|m: int| 0 <= m < right.len() && #[trigger] right[m] == members[j];
            assert(visits[1 + below.len() + left.len() + m] == members[j]);
        }
        inner
    }
}

/// In a hierarchy, a storage that the walk meets holds exactly the entries
/// that are reached from the root of its tree through links to left and
/// right neighbours. The walk meets entry 0 and every entry with a parent.
pub proof fn lemma_children_are_the_reached(
    entries: Seq<EntryView>,
    placed_entries: Seq<EntryView>,
    holder: int,
    id: u32,
)
    requires
        hierarchy(entries) == Ok::<Seq<EntryView>, Error>(placed_entries),
        0 < entries.len() <= u32::MAX,
        0 <= holder < entries.len(),
        entries[holder].entry_type.is_storage(),
        holder == 0 || placed_entries[holder].parent_node is Some,
    ensures
        placed_entries[holder].children_nodes.contains(id) <==> reaches(
            entries,
            entries[holder].root_node,
            id,
        ),
{
    let visits = hierarchy_walk(entries);
    let depth = entries.len() + 1;
    let root = entries[holder].root_node;
    lemma_walk_visits_entries(entries, 0, None, depth);
    let ids = visited_ids(visits);
    assert forall|k: int| 0 <= k < ids.len() implies (#[trigger] ids[k]) < entries.len() by {
        assert(is_entry_id(entries, visits[k].id));
    }
    lemma_distinct_ids_fit(ids, entries.len());
    lemma_children_have_parent(visits, holder as u32, id);
    lemma_children_have_parent(visits, holder as u32, holder as u32);
    assert(is_visited(visits, holder as u32)) by {
        if holder == 0 {
            assert(visits[0].id == 0);
        }
    }
    let at = choose|k: int| 0 <= k < visits.len() && (#[trigger] visits[k]).id == holder as u32;
    if placed_entries[holder].children_nodes.contains(id) {
        let k = choose|k: int| 0 <= k < visits.len() && (#[trigger] visits[k]).id == id;
        lemma_parent_of_visit(visits, k);
        lemma_visits_are_reached(entries, 0, None, depth, k);
    }
    if reaches(entries, root, id) {
        let path = choose|path: Seq<u32>|
            is_neighbour_path(entries, path) && path[0] == root && path.last() == id;
        let inner = lemma_members_are_visited(entries, 0, None, depth, at);
        let members = walk(entries, root, Some(holder as u32), inner);
        lemma_reached_is_visited(entries, root, Some(holder as u32), inner, path);
        let target = Visit { id, parent: Some(holder as u32) };
        let j = choose|j: int| 0 <= j < members.len() && #[trigger] members[j] == target;
        assert(has_visit(visits, members[j]));
        let m = choose|m: int| 0 <= m < visits.len() && #[trigger] visits[m] == target;
        lemma_parent_of_visit(visits, m);
        assert(visits[m].id == id);
    }
}

/// What is reached depends on the links to neighbours only: directories
/// with the same links reach the same.
pub proof fn lemma_reaches_same_links(
    a: Seq<EntryView>,
    b: Seq<EntryView>,
    from: u32,
    to: u32,
)
    requires
        a.len() == b.len(),
        forall|i: int|
            0 <= i < a.len() ==> (#[trigger] a[i]).left_child_node == b[i].left_child_node
                && a[i].right_child_node == b[i].right_child_node,
    ensures
        reaches(a, from, to) == reaches(b, from, to),
{
    if reaches(a, from, to) {
        let path = choose|path: Seq<u32>|
            is_neighbour_path(a, path) && path[0] == from && path.last() == to;
        assert(is_neighbour_path(b, path)) by {
            assert forall|k: int| 0 < k < path.len() implies is_neighbour_of(
                b,
                path[k - 1],
                #[trigger] path[k],
            ) by {
                assert(is_entry_id(a, path[k - 1]));
                assert(is_neighbour_of(a, path[k - 1], path[k]));
            }
        }
    }
    if reaches(b, from, to) {
        let path = choose|path: Seq<u32>|
            is_neighbour_path(b, path) && path[0] == from && path.last() == to;
        assert(is_neighbour_path(a, path)) by {
            assert forall|k: int| 0 < k < path.len() implies is_neighbour_of(
                a,
                path[k - 1],
                #[trigger] path[k],
            ) by {
                assert(is_entry_id(b, path[k - 1]));
                assert(is_neighbour_of(b, path[k - 1], path[k]));
            }
        }
    }
}

/// A link still to be followed, with the depth left for the walk from it.
ghost struct Pending {
    id: u32,
    parent: Option<u32>,
    depth: nat,
}

/// The walks from the links of `plan`, the last link first.
spec fn pending_walk(entries: Seq<EntryView>, plan: Seq<Pending>) -> Seq<Visit>
    decreases plan.len(),
{
    if plan.len() == 0 {
        Seq::empty()
    } else {
        walk(entries, plan.last().id, plan.last().parent, plan.last().depth) + pending_walk(
            entries,
            plan.drop_last(),
        )
    }
}

/// The walks from a plan with one more link.
proof fn lemma_pending_push(entries: Seq<EntryView>, plan: Seq<Pending>, link: Pending)
    ensures
        pending_walk(entries, plan.push(link)) == walk(
            entries,
            link.id,
            link.parent,
            link.depth,
        ) + pending_walk(entries, plan),
{
    assert(plan.push(link).drop_last() =~= plan);
}

/// What the entries and the marks hold while the walk has made the visits `done`.
spec fn walk_state(
    entries: Seq<Entry>,
    seen: Seq<bool>,
    before: Seq<EntryView>,
    done: Seq<Visit>,
) -> bool {
    &&& entries.len() == before.len()
    &&& seen.len() == before.len()
    &&& visited_ids(done).no_duplicates()
    &&& forall|k: int| 0 <= k < done.len() ==> (#[trigger] done[k]).id < before.len()
    &&& forall|i: int| 0 <= i < before.len() ==> #[trigger] seen[i] == is_visited(done, i as u32)
    &&& forall|i: int|
        0 <= i < before.len() ==> (#[trigger] entries[i])@ == placed_entry(
            before[i],
            done,
            i as u32,
        )
}

/// One more visit changes the place of the entry visited and the children of its parent.
proof fn lemma_visit_push(done: Seq<Visit>, visit: Visit, id: u32)
    ensures
        parent_in(done.push(visit), id) == if visit.id == id {
            visit.parent
        } else {
            parent_in(done, id)
        },
        children_in(done.push(visit), id) == if visit.parent == Some(id) {
            children_in(done, id).push(visit.id)
        } else {
            children_in(done, id)
        },
        is_visited(done.push(visit), id) == (visit.id == id || is_visited(done, id)),
{
    let more = done.push(visit);
    assert(more.drop_last() =~= done);
    if is_visited(more, id) && visit.id != id {
        let k = choose|k: int| 0 <= k < more.len() && (#[trigger] more[k]).id == id;
        assert(done[k].id == id);
    }
}

/// Builds the hierarchy: records with each entry the entry that holds it
/// and the entries it holds, as the walk over the directory meets them.
///
/// The entries come as they were decoded: without parent and without
/// children. Fails with `InvalidFormat` where the walk comes to an entry a
/// second time: the links then form no hierarchy.
pub(crate) fn build_entry_tree(entries: &mut Vec<Entry>) -> (r: Result<(), Error>)
    requires
        old(entries)@.len() <= MAX_DIRECTORY_ENTRIES,
        forall|i: int|
            0 <= i < old(entries)@.len() ==> (#[trigger] old(entries)@[i])@.parent_node is None
                && old(entries)@[i]@.children_nodes.len() == 0,
    ensures
        match r {
            Ok(_) => hierarchy(entry_views(old(entries)@)) == Ok::<Seq<EntryView>, Error>(
                entry_views(final(entries)@),
            ),
            Err(e) => hierarchy(entry_views(old(entries)@)) == Err::<Seq<EntryView>, Error>(e),
        },
{
    let count: usize = entries.len();
    let ghost before = entry_views(entries@);
    let ghost total = hierarchy_walk(before);
    let mut seen: Vec<bool> = Vec::new();
    while seen.len() < count
        invariant
            seen@.len() <= count,
            forall|i: int| 0 <= i < seen@.len() ==> !(#[trigger] seen@[i]),
        decreases count - seen@.len(),
    {
        seen.push(false);
    }
    // The links still to be followed, with the parent of the entry each
    // leads to. The link to follow next is the last one.
    let mut stack: Vec<(u32, Option<u32>)> = Vec::new();
    stack.push((0u32, None));
    let ghost first = Pending { id: 0, parent: None, depth: (count + 1) as nat };
    let ghost mut plan: Seq<Pending> = seq![first];
    let ghost mut done: Seq<Visit> = Seq::empty();
    proof {
        assert(pending_walk(before, plan.drop_last()) =~= Seq::<Visit>::empty());
        assert forall|i: int| 0 <= i < before.len() implies (#[trigger] entries@[i])@
            == placed_entry(before[i], done, i as u32) by {
            assert(entries@[i]@.children_nodes =~= Seq::<u32>::empty());
        }
    }
    while stack.len() > 0
        invariant
            count == before.len(),
            count <= MAX_DIRECTORY_ENTRIES,
            before == entry_views(old(entries)@),
            walk_state(entries@, seen@, before, done),
            total == hierarchy_walk(before),
            total == done + pending_walk(before, plan),
            stack@.len() == plan.len(),
            forall|k: int|
                0 <= k < plan.len() ==> (#[trigger] stack@[k]) == (plan[k].id, plan[k].parent),
            forall|k: int| 0 <= k < plan.len() ==> (#[trigger] plan[k]).depth > count - done.len(),
            forall|k: int|
                0 <= k < plan.len() ==> ((#[trigger] plan[k]).parent matches Some(p) ==> p
                    < count),
            done.len() <= count,
        decreases count - done.len(), stack@.len(),
    {
        let ghost top = plan.last();
        let ghost rest = plan.drop_last();
        let (id, parent) = stack.pop().unwrap();
        proof {
            plan = rest;
        }
        if id != FREE_SECID_U32 && (id as usize) < count {
            if seen[id as usize] {
                proof {
                    let k = choose|k: int| 0 <= k < done.len() && (#[trigger] done[k]).id == id;
                    let ids = visited_ids(total);
                    assert(ids[k] == id);
                    assert(ids[done.len() as int] == id);
                }
                return Err(Error::InvalidFormat);
            }
            let ghost visit = Visit { id, parent };
            seen[id as usize] = true;
            match parent {
                Some(p) => {
                    entries[p as usize].add_child(id);
                },
                None => {},
            }
            entries[id as usize].set_parent(parent);
            let is_storage = match entries[id as usize]._type() {
                EntryType::RootStorage => true,
                EntryType::UserStorage => true,
                _ => false,
            };
            let child = entries[id as usize].root_node();
            let left = entries[id as usize].left_child_node();
            let right = entries[id as usize].right_child_node();
            // The entries below come first, then the left neighbour, then
            // the right one: the link to follow first goes in last.
            stack.push((right, parent));
            stack.push((left, parent));
            if is_storage {
                stack.push((child, Some(id)));
            }
            proof {
                let more = done.push(visit);
                let depth = (top.depth - 1) as nat;
                let to_right = Pending { id: right, parent, depth };
                let to_left = Pending { id: left, parent, depth };
                let to_child = Pending { id: child, parent: Some(id), depth };
                let entry = before[id as int];
                assert(is_storage == entry.entry_type.is_storage());
                lemma_pending_push(before, rest, to_right);
                lemma_pending_push(before, rest.push(to_right), to_left);
                if is_storage {
                    lemma_pending_push(before, rest.push(to_right).push(to_left), to_child);
                    plan = rest.push(to_right).push(to_left).push(to_child);
                } else {
                    plan = rest.push(to_right).push(to_left);
                }
                assert(visited_ids(more).no_duplicates()) by {
                    let ids = visited_ids(more);
                    assert forall|a: int, b: int|
                        0 <= a < ids.len() && 0 <= b < ids.len() && a != b implies ids[a]
                        != ids[b] by {
                        if a < done.len() && b < done.len() {
                            assert(visited_ids(done)[a] != visited_ids(done)[b]);
                        }
                    }
                }
                assert forall|i: int| 0 <= i < before.len() implies #[trigger] seen@[i]
                    == is_visited(more, i as u32) by {
                    lemma_visit_push(done, visit, i as u32);
                }
                assert forall|i: int| 0 <= i < before.len() implies (#[trigger] entries@[i])@
                    == placed_entry(before[i], more, i as u32) by {
                    lemma_visit_push(done, visit, i as u32);
                }
                lemma_distinct_ids_fit(visited_ids(more), count as nat);
                done = more;
            }
        }
    }
    proof {
        assert(entry_views(entries@) =~= placed(before, total));
    }
    Ok(())
}

} // verus!
