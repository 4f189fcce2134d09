//! Paths: looking up the names of a path one after another, from the root on, leads to what it is the
//! path of.

use vstd::prelude::*;

use crate::changes::{
    attribute_outcome, attribute_removal, attribute_setting, directory_of, entry_removal,
    known_path, link_creation, node_creation, rename_change, rename_found, symlink_creation,
    AttributeOutcome, ChangeView, InodeChange,
};
use crate::database::{Image, WriteState};
use crate::durability::contents_only;
use crate::effects::lemma_commit_adds_event;
use crate::error::{Errno, FuseError};
use crate::history::event_of;
use crate::inode::{
    name_error, CreateNodeKind, CreateNodeMetadata, InodeView, SetattrMetadata,
    StoredDirectoryEntry, StoredNodeKind, StoredTime, INODE_ROOT,
};
use crate::keys::named_key;
use crate::namespace::{
    ancestry, child_path, joined, last_put, lemma_inode_after_agrees, lies_below, path_bytes,
    with_name, Namespace, PATH_STEPS,
};
use crate::naming::{
    last_named, lemma_created_is_found, lemma_entry_after_agrees, lemma_renamed_has_moved,
    lemma_renamed_inodes, lemma_symlink_is_found,
};
use crate::operations::{commit_planned, commits, consistent, planned, Operation, Planned};
use crate::places::{
    all_placed, directory_placed, entry_placed, lemma_rename_stays_placed, same_place, well_placed,
};
use crate::soundness::rooted;
use crate::storage::{directory_listing, dot_entries, PreparedView, StorageView};
use crate::writes::{resize_change, write_change, ContentChange};

verus! {

/// The bytes before the first slash.
pub open spec fn first_name(path: Seq<u8>) -> Seq<u8>
    decreases path.len(),
{
    if path.len() == 0 || path[0] == 47 {
        Seq::empty()
    } else {
        seq![path[0]] + first_name(path.skip(1))
    }
}

/// What is before the first slash is no longer than the whole.
pub proof fn lemma_first_name_fits(path: Seq<u8>)
    ensures
        first_name(path).len() <= path.len(),
    decreases path.len(),
{
    if path.len() > 0 && path[0] != 47 {
        lemma_first_name_fits(path.skip(1));
    }
}

/// What is reached from a directory by looking up the names of a path, each behind a slash, one after
/// another.
pub open spec fn reached(namespace: Namespace, start: u64, path: Seq<u8>) -> Option<u64>
    decreases path.len(),
{
    if path.len() == 0 {
        Some(start)
    } else if path[0] != 47 {
        None
    } else {
        let name = first_name(path.skip(1));
        proof {
            lemma_first_name_fits(path.skip(1));
        }
        match namespace.entry(start, name) {
            None => None,
            Some(entry) => reached(namespace, entry.inode, path.skip(1 + name.len() as int)),
        }
    }
}

/// A path leads from the root to an inode; a slash alone leads to the root.
pub open spec fn leads_to(namespace: Namespace, path: Seq<u8>, number: u64) -> bool {
    if path == seq![47u8] {
        number == INODE_ROOT
    } else {
        path.len() > 0 && reached(namespace, INODE_ROOT, path) == Some(number)
    }
}

/// A path in text leads from the root to an inode.
pub open spec fn text_leads_to(namespace: Namespace, path: Seq<char>, number: u64) -> bool {
    leads_to(namespace, vstd::utf8::encode_utf8(path), number)
}

proof fn lemma_first_name_of(path: Seq<u8>, rest: Seq<u8>)
    requires
        rest.len() == 0 || rest[0] == 47,
    ensures
        first_name(path + rest) == first_name(path),
    decreases path.len(),
{
    if path.len() == 0 {
        assert(path + rest =~= rest);
    } else if path[0] != 47 {
        assert((path + rest).skip(1) =~= path.skip(1) + rest);
        assert((path + rest)[0] == path[0]);
        lemma_first_name_of(path.skip(1), rest);
    } else {
        assert((path + rest)[0] == path[0]);
    }
}

proof fn lemma_first_name_whole(name: Seq<u8>)
    requires
        !name.contains(47),
    ensures
        first_name(name) == name,
    decreases name.len(),
{
    if name.len() > 0 {
        assert(name.contains(name[0]));
        assert forall|i: int| 0 <= i < name.skip(1).len() implies #[trigger] name.skip(1)[i]
            != 47 by {
            assert(name.contains(name[i + 1]));
        }
        lemma_first_name_whole(name.skip(1));
        assert(seq![name[0]] + name.skip(1) =~= name);
    } else {
        assert(name =~= Seq::<u8>::empty());
    }
}

/// One more name behind a path is looked up in what the path reaches.
proof fn lemma_reached_further(namespace: Namespace, start: u64, path: Seq<u8>, name: Seq<u8>)
    requires
        reached(namespace, start, path) is Some,
        !name.contains(47),
    ensures
        reached(namespace, start, path.push(47) + name) == (match namespace.entry(
            reached(namespace, start, path)->0,
            name,
        ) {
            Some(entry) => Some(entry.inode),
            None => None,
        }),
    decreases path.len(),
{
    let longer = path.push(47) + name;
    if path.len() == 0 {
        assert(longer.skip(1) =~= name);
        lemma_first_name_whole(name);
        assert(longer[0] == 47);
        assert(longer.skip(1 + name.len() as int) =~= Seq::<u8>::empty());
        if namespace.entry(start, name) is Some {
            assert(reached(
                namespace,
                namespace.entry(start, name)->0.inode,
                longer.skip(1 + name.len() as int),
            ) == Some(namespace.entry(start, name)->0.inode));
        }
    } else {
        let rest = seq![47u8] + name;
        let first = first_name(path.skip(1));
        lemma_first_name_fits(path.skip(1));
        assert(longer.skip(1) =~= path.skip(1) + rest);
        assert(longer[0] == path[0]);
        lemma_first_name_of(path.skip(1), rest);
        let next = namespace.entry(start, first)->0.inode;
        let shorter = path.skip(1 + first.len() as int);
        assert(longer.skip(1 + first.len() as int) =~= shorter.push(47) + name);
        lemma_reached_further(namespace, next, shorter, name);
    }
}

/// A path that leads to a directory leads, with a name behind it, to what the name stands for.
proof fn lemma_name_leads(namespace: Namespace, path: Seq<u8>, number: u64, name: Seq<u8>)
    requires
        leads_to(namespace, path, number),
        namespace.entry(number, name) is Some,
        name.len() > 0,
        !name.contains(47),
    ensures
        leads_to(namespace, with_name(path, name), namespace.entry(number, name)->0.inode),
{
    if path == seq![47u8] {
        let nothing = Seq::<u8>::empty();
        assert(nothing.push(47) + name =~= path + name);
        assert(reached(namespace, INODE_ROOT, nothing) == Some(INODE_ROOT));
        lemma_reached_further(namespace, INODE_ROOT, nothing, name);
        assert((path + name).len() > 1);
    } else {
        if path.len() == 1 {
            assert(path =~= seq![47u8]);
        }
        lemma_reached_further(namespace, INODE_ROOT, path, name);
        assert((path.push(47) + name).len() > 1);
    }
}

/// The names on the way to a directory, joined, lead to it.
proof fn lemma_ancestry_leads(namespace: Namespace, next: u64, number: u64, steps: nat)
    requires
        well_placed(namespace, next),
        ancestry(namespace, number, steps) is Ok,
        number == INODE_ROOT || namespace.inode(number) is Some && namespace.inode(number)->0.kind
            == StoredNodeKind::Directory,
    ensures
        leads_to(namespace, joined(ancestry(namespace, number, steps)->Ok_0), number),
    decreases steps,
{
    let names = ancestry(namespace, number, steps)->Ok_0;
    if number == INODE_ROOT {
        assert(joined(names) == seq![47u8]);
    } else {
        let inode = namespace.inode(number)->0;
        let above = ancestry(namespace, inode.parent, (steps - 1) as nat)->Ok_0;
        assert(directory_placed(namespace, number));
        assert(entry_placed(namespace, next, inode.parent, inode.name));
        lemma_ancestry_leads(namespace, next, inode.parent, (steps - 1) as nat);
        assert(names.drop_last() =~= above);
        lemma_name_leads(namespace, joined(above), inode.parent, inode.name);
    }
}

/// The path of a directory leads to it.
pub proof fn lemma_path_leads(namespace: Namespace, next: u64, number: u64)
    requires
        well_placed(namespace, next),
        path_bytes(namespace, number) is Ok,
        number == INODE_ROOT || namespace.inode(number) is Some && namespace.inode(number)->0.kind
            == StoredNodeKind::Directory,
    ensures
        leads_to(namespace, path_bytes(namespace, number)->Ok_0, number),
{
    lemma_ancestry_leads(namespace, next, number, PATH_STEPS as nat);
}

proof fn lemma_ancestry_further(namespace: Namespace, number: u64, steps: nat)
    requires
        ancestry(namespace, number, steps) is Ok,
    ensures
        ancestry(namespace, number, steps + 1) == ancestry(namespace, number, steps),
    decreases steps,
{
    if number != INODE_ROOT {
        lemma_ancestry_further(
            namespace,
            namespace.inode(number)->0.parent,
            (steps - 1) as nat,
        );
    }
}

proof fn lemma_joined_in_front(names: Seq<Seq<u8>>)
    ensures
        joined(names).len() > 0,
        joined(names)[0] == 47,
        joined(names).len() == 1 ==> joined(names) == seq![47u8],
    decreases names.len(),
{
    if names.len() > 0 {
        lemma_joined_in_front(names.drop_last());
    }
    if joined(names).len() == 1 {
        assert(joined(names) =~= seq![47u8]);
    }
}

/// The path of the root is a slash, that of another inode is the path of its parent, a slash and its
/// own name, with the slash of the root not written twice.
pub proof fn lemma_path_goes_on(namespace: Namespace, number: u64)
    requires
        path_bytes(namespace, number) is Ok,
    ensures
        number == INODE_ROOT ==> path_bytes(namespace, number)->Ok_0 == seq![47u8],
        number != INODE_ROOT ==> {
            let inode = namespace.inode(number)->0;
            let above = path_bytes(namespace, inode.parent)->Ok_0;
            &&& namespace.inode(number) is Some
            &&& path_bytes(namespace, inode.parent) is Ok
            &&& above == seq![47u8] ==> path_bytes(namespace, number)->Ok_0 == seq![47u8]
                + inode.name
            &&& above != seq![47u8] ==> path_bytes(namespace, number)->Ok_0 == above + seq![47u8]
                + inode.name
        },
{
    if number != INODE_ROOT {
        let inode = namespace.inode(number)->0;
        let names = ancestry(namespace, inode.parent, (PATH_STEPS - 1) as nat)->Ok_0;
        lemma_ancestry_further(namespace, inode.parent, (PATH_STEPS - 1) as nat);
        assert(names.push(inode.name).drop_last() =~= names);
        lemma_joined_in_front(names);
        let above = joined(names);
        assert(above.push(47) + inode.name =~= above + seq![47u8] + inode.name);
    }
}

/// What is reached from the root by names.
pub open spec fn walked(namespace: Namespace, names: Seq<Seq<u8>>) -> Option<u64>
    decreases names.len(),
{
    if names.len() == 0 {
        Some(INODE_ROOT)
    } else {
        match walked(namespace, names.drop_last()) {
            None => None,
            Some(number) => match namespace.entry(number, names.last()) {
                None => None,
                Some(entry) => Some(entry.inode),
            },
        }
    }
}

proof fn lemma_walked_is_ancestry(
    namespace: Namespace,
    next: u64,
    names: Seq<Seq<u8>>,
    steps: nat,
)
    requires
        well_placed(namespace, next),
        walked(namespace, names) is Some,
        names.len() < steps,
        names.len() == 0 || namespace.inode(walked(namespace, names)->0) is Some
            && namespace.inode(walked(namespace, names)->0)->0.kind == StoredNodeKind::Directory,
    ensures
        ancestry(namespace, walked(namespace, names)->0, steps) == Ok::<Seq<Seq<u8>>, FuseError>(
            names,
        ),
    decreases names.len(),
{
    if names.len() == 0 {
        assert(names =~= Seq::<Seq<u8>>::empty());
    } else {
        let above = walked(namespace, names.drop_last())->0;
        assert(entry_placed(namespace, next, above, names.last()));
        lemma_walked_is_ancestry(namespace, next, names.drop_last(), (steps - 1) as nat);
        assert(names.drop_last().push(names.last()) =~= names);
    }
}

/// A directory that fewer names than the limit lead to has a path: these names, each behind a slash.
pub proof fn lemma_path_is_given(namespace: Namespace, next: u64, names: Seq<Seq<u8>>)
    requires
        well_placed(namespace, next),
        walked(namespace, names) is Some,
        names.len() < 1024,
        names.len() == 0 || namespace.inode(walked(namespace, names)->0) is Some
            && namespace.inode(walked(namespace, names)->0)->0.kind == StoredNodeKind::Directory,
    ensures
        path_bytes(namespace, walked(namespace, names)->0) == Ok::<Seq<u8>, FuseError>(
            joined(names),
        ),
{
    lemma_walked_is_ancestry(namespace, next, names, PATH_STEPS as nat);
}

/// The path of a name in a directory leads to what the name stands for.
pub proof fn lemma_child_path_leads(
    namespace: Namespace,
    next: u64,
    parent: u64,
    name: Seq<u8>,
)
    requires
        well_placed(namespace, next),
        namespace.entry(parent, name) is Some,
        child_path(namespace, parent, name) is Ok,
    ensures
        text_leads_to(
            namespace,
            child_path(namespace, parent, name)->Ok_0,
            namespace.entry(parent, name)->0.inode,
        ),
{
    assert(entry_placed(namespace, next, parent, name));
    let path = path_bytes(namespace, parent)->Ok_0;
    lemma_path_leads(namespace, next, parent);
    lemma_name_leads(namespace, path, parent, name);
    vstd::utf8::decode_utf8_encode_utf8(with_name(path, name));
}

/// The path of an inode, where it is told, leads to it as long as its own name stands for it. It always
/// does for a directory.
pub proof fn lemma_inode_path_leads(namespace: Namespace, next: u64, number: u64)
    requires
        well_placed(namespace, next),
        namespace.inode(number) is Some,
        known_path(namespace, number, namespace.inode(number)->0) is Some,
        namespace.inode(number)->0.kind == StoredNodeKind::Directory || ({
            let inode = namespace.inode(number)->0;
            let entry = namespace.entry(inode.parent, inode.name);
            entry is Some && entry->0.inode == number
        }),
    ensures
        text_leads_to(
            namespace,
            known_path(namespace, number, namespace.inode(number)->0)->0,
            number,
        ),
{
    let inode = namespace.inode(number)->0;
    if number == INODE_ROOT {
        reveal_strlit("/");
        lemma_slash();
    } else {
        assert(directory_placed(namespace, number));
        lemma_child_path_leads(namespace, next, inode.parent, inode.name);
    }
}

proof fn lemma_slash()
    ensures
        vstd::utf8::encode_utf8("/"@) == seq![47u8],
{
    reveal_strlit("/");
    assert("/"@ =~= seq!['/']);
    vstd::utf8::is_ascii_chars_encode_utf8(seq!['/']);
    assert(vstd::utf8::encode_utf8("/"@) =~= seq![47u8]);
}

/// A path still leads where it led after names were only added.
proof fn lemma_reached_later(before: Namespace, after: Namespace, start: u64, path: Seq<u8>)
    requires
        reached(before, start, path) is Some,
        forall|p: u64, n: Seq<u8>|
            before.entry(p, n) is Some ==> (#[trigger] after.entry(p, n)) == before.entry(p, n),
    ensures
        reached(after, start, path) == reached(before, start, path),
    decreases path.len(),
{
    if path.len() > 0 {
        let name = first_name(path.skip(1));
        lemma_first_name_fits(path.skip(1));
        assert(after.entry(start, name) == before.entry(start, name));
        lemma_reached_later(
            before,
            after,
            before.entry(start, name)->0.inode,
            path.skip(1 + name.len() as int),
        );
    }
}

/// The path of a name that a change adds leads, after it, to what the name stands for.
proof fn lemma_added_path_leads(
    before: Namespace,
    after: Namespace,
    next: u64,
    parent: u64,
    name: Seq<u8>,
)
    requires
        well_placed(before, next),
        before.inode(parent) is Some,
        before.inode(parent)->0.kind == StoredNodeKind::Directory,
        child_path(before, parent, name) is Ok,
        after.entry(parent, name) is Some,
        name.len() > 0,
        !name.contains(47),
        forall|p: u64, n: Seq<u8>|
            before.entry(p, n) is Some ==> (#[trigger] after.entry(p, n)) == before.entry(p, n),
    ensures
        text_leads_to(
            after,
            child_path(before, parent, name)->Ok_0,
            after.entry(parent, name)->0.inode,
        ),
{
    let path = path_bytes(before, parent)->Ok_0;
    lemma_path_leads(before, next, parent);
    if path != seq![47u8] {
        lemma_reached_later(before, after, INODE_ROOT, path);
    }
    assert(leads_to(after, path, parent));
    lemma_name_leads(after, path, parent, name);
    vstd::utf8::decode_utf8_encode_utf8(with_name(path, name));
}

/// The path of the event of a creation leads to what was created.
pub proof fn lemma_creation_path_leads(
    namespace: Namespace,
    write: WriteState,
    parent: u64,
    name: Seq<u8>,
    kind: CreateNodeKind,
    metadata: CreateNodeMetadata,
    now: StoredTime,
    created_at: time::UtcDateTime,
    created: InodeChange,
)
    requires
        well_placed(namespace, write.next_inode_number),
        node_creation(namespace, write, parent, name, kind, metadata, now, created_at) == Ok::<
            InodeChange,
            FuseError,
        >(created),
    ensures
        created.change.event.path is Some,
        text_leads_to(
            namespace.after(created.change.mutation),
            created.change.event.path->0,
            created.number,
        ),
        own_name_stands(namespace.after(created.change.mutation), created.number),
{
    let after = namespace.after(created.change.mutation);
    lemma_created_is_found(
        namespace,
        write,
        parent,
        name,
        kind,
        metadata,
        now,
        created_at,
        created,
        parent,
        name,
        parent,
    );
    assert forall|p: u64, n: Seq<u8>| namespace.entry(p, n) is Some implies (#[trigger] after.entry(
        p,
        n,
    )) == namespace.entry(p, n) by {
        lemma_created_is_found(
            namespace,
            write,
            parent,
            name,
            kind,
            metadata,
            now,
            created_at,
            created,
            p,
            n,
            parent,
        );
    }
    lemma_added_path_leads(namespace, after, write.next_inode_number, parent, name);
}

/// The path of the event of a new symbolic link leads to it.
pub proof fn lemma_symlink_path_leads(
    namespace: Namespace,
    write: WriteState,
    parent: u64,
    name: Seq<u8>,
    target: Seq<u8>,
    metadata: CreateNodeMetadata,
    now: StoredTime,
    created_at: time::UtcDateTime,
    created: InodeChange,
)
    requires
        well_placed(namespace, write.next_inode_number),
        symlink_creation(
            namespace,
            write,
            parent,
            name,
            target,
            metadata,
            now,
            created_at,
        ) == Ok::<InodeChange, FuseError>(created),
    ensures
        created.change.event.path is Some,
        text_leads_to(
            namespace.after(created.change.mutation),
            created.change.event.path->0,
            created.number,
        ),
        own_name_stands(namespace.after(created.change.mutation), created.number),
{
    let mutation = created.change.mutation;
    let after = namespace.after(mutation);
    reveal_with_fuel(last_named, 3);
    reveal_with_fuel(last_put, 4);
    lemma_inode_after_agrees(namespace, mutation, created.number);
    lemma_entry_after_agrees(namespace, mutation, parent, name);
    assert forall|p: u64, n: Seq<u8>| namespace.entry(p, n) is Some implies (#[trigger] after.entry(
        p,
        n,
    )) == namespace.entry(p, n) by {
        lemma_entry_after_agrees(namespace, mutation, p, n);
    }
    lemma_added_path_leads(namespace, after, write.next_inode_number, parent, name);
}

/// The path of the event of a new link leads to what was linked.
pub proof fn lemma_link_path_leads(
    namespace: Namespace,
    write: WriteState,
    number: u64,
    new_parent: u64,
    new_name: Seq<u8>,
    now: StoredTime,
    created_at: time::UtcDateTime,
    linked: InodeChange,
)
    requires
        well_placed(namespace, write.next_inode_number),
        link_creation(namespace, write, number, new_parent, new_name, now, created_at) == Ok::<
            InodeChange,
            FuseError,
        >(linked),
    ensures
        linked.change.event.path is Some,
        text_leads_to(
            namespace.after(linked.change.mutation),
            linked.change.event.path->0,
            number,
        ),
{
    let mutation = linked.change.mutation;
    let after = namespace.after(mutation);
    reveal_with_fuel(last_named, 3);
    lemma_entry_after_agrees(namespace, mutation, new_parent, new_name);
    assert forall|p: u64, n: Seq<u8>| namespace.entry(p, n) is Some implies (#[trigger] after.entry(
        p,
        n,
    )) == namespace.entry(p, n) by {
        lemma_entry_after_agrees(namespace, mutation, p, n);
    }
    lemma_added_path_leads(namespace, after, write.next_inode_number, new_parent, new_name);
}

/// The path of the event of a removal led, before it, to what was removed.
pub proof fn lemma_removal_path_led(
    namespace: Namespace,
    write: WriteState,
    parent: u64,
    name: Seq<u8>,
    directory: bool,
    now: StoredTime,
    created_at: time::UtcDateTime,
    change: ChangeView,
)
    requires
        well_placed(namespace, write.next_inode_number),
        entry_removal(namespace, write, parent, name, directory, now, created_at) == Ok::<
            ChangeView,
            FuseError,
        >(change),
    ensures
        change.event.path is Some,
        namespace.entry(parent, name) is Some,
        text_leads_to(
            namespace,
            change.event.path->0,
            namespace.entry(parent, name)->0.inode,
        ),
{
    lemma_child_path_leads(namespace, write.next_inode_number, parent, name);
}

/// The way to a directory stays where neither what was moved nor what was lost lies on it.
proof fn lemma_ancestry_kept(
    before: Namespace,
    after: Namespace,
    next: u64,
    number: u64,
    steps: nat,
    moved: u64,
    lost: Option<u64>,
)
    requires
        well_placed(before, next),
        ancestry(before, number, steps) is Ok,
        number == INODE_ROOT || before.inode(number) is Some && before.inode(number)->0.kind
            == StoredNodeKind::Directory,
        forall|m: u64|
            m != moved && Some(m) != lost ==> same_place(
                before.inode(m),
                #[trigger] after.inode(m),
            ),
        before.inode(moved) is Some,
        before.inode(moved)->0.kind != StoredNodeKind::Directory || lies_below(
            before,
            moved,
            number,
            steps,
        ) == Ok::<bool, FuseError>(false),
        Some(number) != lost,
        lost is Some ==> before.inode(lost->0) is Some && (before.inode(lost->0)->0.kind
            != StoredNodeKind::Directory || before.empty_directory(lost->0)),
    ensures
        ancestry(after, number, steps) == ancestry(before, number, steps),
    decreases steps,
{
    if number != INODE_ROOT {
        let inode = before.inode(number)->0;
        assert(directory_placed(before, number));
        assert(entry_placed(before, next, inode.parent, inode.name));
        assert(number != moved);
        assert(same_place(before.inode(number), after.inode(number)));
        if lost == Some(inode.parent) {
            assert(!before.entries.contains_key(named_key(inode.parent, inode.name)));
        }
        lemma_ancestry_kept(
            before,
            after,
            next,
            inode.parent,
            (steps - 1) as nat,
            moved,
            lost,
        );
    }
}

/// The path of the event of a rename leads, after it, to what was moved.
#[verifier::spinoff_prover]
pub proof fn lemma_rename_path_leads(
    namespace: Namespace,
    write: WriteState,
    parent: u64,
    name: Seq<u8>,
    new_parent: u64,
    new_name: Seq<u8>,
    no_replace: bool,
    now: StoredTime,
    created_at: time::UtcDateTime,
    change: ChangeView,
)
    requires
        well_placed(namespace, write.next_inode_number),
        rename_change(
            namespace,
            write,
            parent,
            name,
            new_parent,
            new_name,
            no_replace,
            now,
            created_at,
        ) == Ok::<ChangeView, FuseError>(change),
    ensures
        change.event.path is Some,
        namespace.entry(parent, name) is Some,
        text_leads_to(
            namespace.after(change.mutation),
            change.event.path->0,
            namespace.entry(parent, name)->0.inode,
        ),
        own_name_stands(
            namespace.after(change.mutation),
            namespace.entry(parent, name)->0.inode,
        ),
{
    let next = write.next_inode_number;
    let after = namespace.after(change.mutation);
    let found = rename_found(
        namespace,
        write,
        parent,
        name,
        new_parent,
        new_name,
        no_replace,
    )->Ok_0;
    let moved = found.entry.inode;
    let replaced = found.replaced;
    let lost = if replaced is Some {
        Some((replaced->0).0)
    } else {
        None
    };
    assert(entry_placed(namespace, next, parent, name));
    assert(directory_of(namespace, new_parent) is Ok);
    lemma_renamed_inodes(
        namespace,
        write,
        parent,
        name,
        new_parent,
        new_name,
        no_replace,
        now,
        created_at,
        change,
        moved,
    );
    lemma_renamed_inodes(
        namespace,
        write,
        parent,
        name,
        new_parent,
        new_name,
        no_replace,
        now,
        created_at,
        change,
        new_parent,
    );
    assert forall|m: u64| m != moved && Some(m) != lost implies same_place(
        namespace.inode(m),
        #[trigger] after.inode(m),
    ) by {
        lemma_renamed_inodes(
            namespace,
            write,
            parent,
            name,
            new_parent,
            new_name,
            no_replace,
            now,
            created_at,
            change,
            m,
        );
    }
    lemma_ancestry_kept(
        namespace,
        after,
        next,
        new_parent,
        PATH_STEPS as nat,
        moved,
        lost,
    );
    lemma_renamed_has_moved(
        namespace,
        write,
        parent,
        name,
        new_parent,
        new_name,
        no_replace,
        now,
        created_at,
        change,
        new_parent,
        new_name,
    );
    lemma_rename_stays_placed(
        namespace,
        write,
        parent,
        name,
        new_parent,
        new_name,
        no_replace,
        now,
        created_at,
        change,
    );
    assert(path_bytes(after, new_parent) == path_bytes(namespace, new_parent));
    lemma_child_path_leads(after, next, new_parent, new_name);
}

/// An inode is a directory, or the name that it was last given still stands for it.
pub open spec fn own_name_stands(namespace: Namespace, number: u64) -> bool {
    let inode = namespace.inode(number)->0;
    let entry = namespace.entry(inode.parent, inode.name);
    &&& namespace.inode(number) is Some
    &&& inode.kind == StoredNodeKind::Directory || (entry is Some && entry->0.inode == number)
}

/// What an event tells as the path of an inode leads to it, where its own name stands for it. It is told
/// for the root, and for everything else where the path of its name in its directory can be given.
pub open spec fn tells_path(namespace: Namespace, number: u64, path: Option<Seq<char>>) -> bool {
    let inode = namespace.inode(number)->0;
    &&& path is Some && own_name_stands(namespace, number) ==> text_leads_to(
        namespace,
        path->0,
        number,
    )
    &&& path is Some <==> number == INODE_ROOT || child_path(
        namespace,
        inode.parent,
        inode.name,
    ) is Ok
}

proof fn lemma_known_path_leads(namespace: Namespace, next: u64, number: u64, inode: InodeView)
    requires
        well_placed(namespace, next),
        same_place(namespace.inode(number), Some(inode)),
    ensures
        tells_path(namespace, number, known_path(namespace, number, inode)),
{
    assert(known_path(namespace, number, inode) == known_path(
        namespace,
        number,
        namespace.inode(number)->0,
    ));
    if known_path(namespace, number, inode) is Some && own_name_stands(namespace, number) {
        lemma_inode_path_leads(namespace, next, number);
    }
}

/// The path of the event of a change of attributes leads to the inode.
pub proof fn lemma_attributes_path_leads(
    namespace: Namespace,
    write: WriteState,
    number: u64,
    metadata: SetattrMetadata,
    now: StoredTime,
    created_at: time::UtcDateTime,
    change: InodeChange,
)
    requires
        well_placed(namespace, write.next_inode_number),
        attribute_outcome(namespace, write, number, metadata, now, created_at) == Ok::<
            AttributeOutcome,
            FuseError,
        >(AttributeOutcome::Changed(change)),
    ensures
        tells_path(namespace, number, change.change.event.path),
{
    lemma_known_path_leads(namespace, write.next_inode_number, number, change.inode);
}

/// The path of the event of a new extended attribute leads to the inode.
pub proof fn lemma_attribute_path_leads(
    namespace: Namespace,
    write: WriteState,
    number: u64,
    name: Seq<u8>,
    value: Seq<u8>,
    flags: i32,
    now: StoredTime,
    created_at: time::UtcDateTime,
    change: ChangeView,
)
    requires
        well_placed(namespace, write.next_inode_number),
        attribute_setting(
            namespace,
            write,
            number,
            name,
            value,
            flags,
            now,
            created_at,
        ) == Ok::<Option<ChangeView>, FuseError>(Some(change)),
    ensures
        tells_path(namespace, number, change.event.path),
{
    let inode = namespace.inode(number)->0;
    lemma_known_path_leads(namespace, write.next_inode_number, number, inode);
    lemma_known_path_leads(
        namespace,
        write.next_inode_number,
        number,
        InodeView { ctime: now, ..inode },
    );
}

/// The path of the event of an extended attribute that is gone leads to the inode.
pub proof fn lemma_attribute_removal_path_leads(
    namespace: Namespace,
    write: WriteState,
    number: u64,
    name: Seq<u8>,
    now: StoredTime,
    created_at: time::UtcDateTime,
    change: ChangeView,
)
    requires
        well_placed(namespace, write.next_inode_number),
        attribute_removal(namespace, write, number, name, now, created_at) == Ok::<
            ChangeView,
            FuseError,
        >(change),
    ensures
        tells_path(namespace, number, change.event.path),
{
    let inode = namespace.inode(number)->0;
    lemma_known_path_leads(namespace, write.next_inode_number, number, inode);
    lemma_known_path_leads(
        namespace,
        write.next_inode_number,
        number,
        InodeView { ctime: now, ..inode },
    );
}

/// The path of the event of a write leads to the file.
pub proof fn lemma_write_path_leads(
    image: Image,
    namespace: Namespace,
    write: WriteState,
    number: u64,
    offset: u64,
    data: Seq<u8>,
    append: bool,
    clear_privileges: bool,
    now: StoredTime,
    created_at: time::UtcDateTime,
    content: ContentChange,
)
    requires
        well_placed(namespace, write.next_inode_number),
        write_change(
            image,
            namespace,
            write,
            number,
            offset,
            data,
            append,
            clear_privileges,
            now,
            created_at,
        ) == Ok::<ContentChange, FuseError>(content),
    ensures
        tells_path(namespace, number, content.change.event.path),
{
    lemma_known_path_leads(namespace, write.next_inode_number, number, content.inode);
}

/// The path of the event of another size leads to the file.
pub proof fn lemma_resize_path_leads(
    image: Image,
    namespace: Namespace,
    write: WriteState,
    number: u64,
    inode: InodeView,
    new_size: u64,
    created_at: time::UtcDateTime,
    content: ContentChange,
)
    requires
        well_placed(namespace, write.next_inode_number),
        same_place(namespace.inode(number), Some(inode)),
        resize_change(image, namespace, write, number, inode, new_size, created_at) == Ok::<
            Option<ContentChange>,
            FuseError,
        >(Some(content)),
    ensures
        tells_path(namespace, number, content.change.event.path),
{
    lemma_known_path_leads(namespace, write.next_inode_number, number, content.inode);
}

/// In a consistent filesystem everything is in its place.
pub proof fn lemma_consistent_is_placed(storage: StorageView)
    requires
        consistent(storage),
    ensures
        well_placed(storage.namespace(), storage.write.next_inode_number),
        rooted(storage.namespace()),
{
    reveal(consistent);
    reveal(all_placed);
}

/// The whole listing of a directory starts with a single dot for itself and a double dot for the
/// directory that holds its name; the root is its own double dot. A listing that goes on behind the
/// single dot starts with the double dot.
#[verifier::spinoff_prover]
pub proof fn lemma_double_dot_leads_up(storage: StorageView, number: u64)
    requires
        consistent(storage),
        directory_of(storage.namespace(), number) is Ok,
    ensures
        ({
            let namespace = storage.namespace();
            let all = directory_listing(namespace, number, 0)->Ok_0;
            let rest = directory_listing(namespace, number, 1)->Ok_0;
            &&& directory_listing(namespace, number, 0) is Ok
            &&& directory_listing(namespace, number, 1) is Ok
            &&& all.len() >= 2
            &&& all[0].name == seq![46u8]
            &&& all[0].inode == number
            &&& all[0].kind == StoredNodeKind::Directory
            &&& all[0].offset == 1
            &&& all[1].name == seq![46u8, 46u8]
            &&& all[1].kind == StoredNodeKind::Directory
            &&& all[1].offset == 2
            &&& number == INODE_ROOT ==> all[1].inode == INODE_ROOT
            &&& number != INODE_ROOT ==> all[1].inode != number && exists|name: Seq<u8>|
                (#[trigger] namespace.entry(all[1].inode, name)) == Some(
                    StoredDirectoryEntry { inode: number, kind: StoredNodeKind::Directory },
                )
            &&& forall|parent: u64, name: Seq<u8>|
                (#[trigger] namespace.entry(parent, name)) is Some && namespace.entry(
                    parent,
                    name,
                )->0.inode == number ==> all[1].inode == parent
            &&& rest.len() >= 1
            &&& rest[0] == all[1]
        }),
{
    let namespace = storage.namespace();
    let next = storage.write.next_inode_number;
    lemma_consistent_is_placed(storage);
    let inode = namespace.inode(number)->0;
    assert(directory_placed(namespace, number));
    assert forall|parent: u64, name: Seq<u8>|
        (#[trigger] namespace.entry(parent, name)) is Some && namespace.entry(
            parent,
            name,
        )->0.inode == number implies inode.parent == parent && number != INODE_ROOT by {
        assert(entry_placed(namespace, next, parent, name));
    }
    let all = directory_listing(namespace, number, 0)->Ok_0;
    let rest = directory_listing(namespace, number, 1)->Ok_0;
    let first = dot_entries(number, inode, 0);
    let second = dot_entries(number, inode, 1);
    assert(first.len() == 2 && second.len() == 1);
    assert(all[0] == first[0] && all[1] == first[1] && rest[0] == second[0]);
    assert(second[0] == first[1]);
    if number != INODE_ROOT {
        assert(first[1].inode == inode.parent);
        assert(namespace.entry(all[1].inode, inode.name) == Some(
            StoredDirectoryEntry { inode: number, kind: StoredNodeKind::Directory },
        ));
    }
}

/// The event that an operation on names records carries a path that leads to what the operation is
/// about: after it to what was created, linked or moved, before it to what was removed.
#[verifier::spinoff_prover]
pub proof fn lemma_recorded_path_leads(
    storage: StorageView,
    operation: Operation,
    now: StoredTime,
    created_at: time::UtcDateTime,
    prepared: PreparedView,
)
    requires
        consistent(storage),
        commits(storage, operation, now, created_at, prepared),
    ensures
        ({
            let before = storage.namespace();
            let after = storage.after(prepared);
            let recorded = event_of(after.image, after.write.last_event_sequence);
            let path = recorded->Ok_0->0.path;
            match operation {
                Operation::CreateNode { parent, name, .. } => {
                    &&& recorded is Ok
                    &&& recorded->Ok_0 is Some
                    &&& path is Some
                    &&& after.namespace().entry(parent, name) is Some
                    &&& text_leads_to(
                        after.namespace(),
                        path->0,
                        after.namespace().entry(parent, name)->0.inode,
                    )
                },
                Operation::CreateSymlink { parent, name, .. } => {
                    &&& recorded is Ok
                    &&& recorded->Ok_0 is Some
                    &&& path is Some
                    &&& after.namespace().entry(parent, name) is Some
                    &&& text_leads_to(
                        after.namespace(),
                        path->0,
                        after.namespace().entry(parent, name)->0.inode,
                    )
                },
                Operation::HardLink { number, .. } => {
                    &&& recorded is Ok
                    &&& recorded->Ok_0 is Some
                    &&& path is Some
                    &&& text_leads_to(after.namespace(), path->0, number)
                },
                Operation::Rename { parent, name, .. } => {
                    &&& recorded is Ok
                    &&& recorded->Ok_0 is Some
                    &&& path is Some
                    &&& before.entry(parent, name) is Some
                    &&& text_leads_to(
                        after.namespace(),
                        path->0,
                        before.entry(parent, name)->0.inode,
                    )
                },
                Operation::RemoveEntry { parent, name, .. } => {
                    &&& recorded is Ok
                    &&& recorded->Ok_0 is Some
                    &&& path is Some
                    &&& before.entry(parent, name) is Some
                    &&& text_leads_to(before, path->0, before.entry(parent, name)->0.inode)
                },
                _ => true,
            }
        }),
{
    let namespace = storage.namespace();
    let write = storage.write;
    let made = planned(storage, operation, now, created_at)->0;
    lemma_consistent_is_placed(storage);
    match operation {
        Operation::CreateNode { parent, name, kind, metadata } => {
            let created = node_creation(
                namespace,
                write,
                parent,
                name,
                kind,
                metadata,
                now,
                created_at,
            )->Ok_0;
            lemma_recorded(storage, made, prepared);
            lemma_creation_path_leads(
                namespace,
                write,
                parent,
                name,
                kind,
                metadata,
                now,
                created_at,
                created,
            );
            lemma_created_is_found(
                namespace,
                write,
                parent,
                name,
                kind,
                metadata,
                now,
                created_at,
                created,
                parent,
                name,
                parent,
            );
        },
        Operation::CreateSymlink { parent, name, target, metadata } => {
            let created = symlink_creation(
                namespace,
                write,
                parent,
                name,
                target,
                metadata,
                now,
                created_at,
            )->Ok_0;
            lemma_recorded(storage, made, prepared);
            lemma_symlink_path_leads(
                namespace,
                write,
                parent,
                name,
                target,
                metadata,
                now,
                created_at,
                created,
            );
            lemma_symlink_is_found(
                namespace,
                write,
                parent,
                name,
                target,
                metadata,
                now,
                created_at,
                created,
            );
        },
        Operation::HardLink { number, new_parent, new_name } => {
            let linked = link_creation(
                namespace,
                write,
                number,
                new_parent,
                new_name,
                now,
                created_at,
            )->Ok_0;
            lemma_recorded(storage, made, prepared);
            lemma_link_path_leads(
                namespace,
                write,
                number,
                new_parent,
                new_name,
                now,
                created_at,
                linked,
            );
        },
        Operation::RemoveEntry { parent, name, directory } => {
            lemma_recorded(storage, made, prepared);
            lemma_removal_path_led(
                namespace,
                write,
                parent,
                name,
                directory,
                now,
                created_at,
                made.change,
            );
        },
        Operation::Rename { parent, name, new_parent, new_name, no_replace } => {
            lemma_recorded(storage, made, prepared);
            lemma_rename_path_leads(
                namespace,
                write,
                parent,
                name,
                new_parent,
                new_name,
                no_replace,
                now,
                created_at,
                made.change,
            );
        },
        _ => {},
    }
}

proof fn lemma_recorded(storage: StorageView, made: Planned, prepared: PreparedView)
    requires
        commit_planned(storage, made) == Some(prepared),
        contents_only(made.rows),
    ensures
        ({
            let after = storage.after(prepared);
            let recorded = event_of(after.image, after.write.last_event_sequence);
            &&& recorded is Ok
            &&& recorded->Ok_0 is Some
            &&& recorded->Ok_0->0.path == made.change.event.path
            &&& after.namespace() == storage.namespace().after(made.change.mutation)
        }),
{
    lemma_commit_adds_event(storage, made, prepared, 0);
    reveal(commit_planned);
}

/// One of the first directories on the way along names is an inode.
pub open spec fn passes(namespace: Namespace, names: Seq<Seq<u8>>, number: u64) -> bool {
    exists|count: int|
        0 <= count <= names.len() && walked(namespace, #[trigger] names.take(count)) == Some(number)
}

proof fn lemma_below_is_passed(
    namespace: Namespace,
    next: u64,
    names: Seq<Seq<u8>>,
    ancestor: u64,
    steps: nat,
)
    requires
        well_placed(namespace, next),
        walked(namespace, names) is Some,
        names.len() < steps,
        names.len() == 0 || namespace.inode(walked(namespace, names)->0) is Some
            && namespace.inode(walked(namespace, names)->0)->0.kind == StoredNodeKind::Directory,
    ensures
        lies_below(namespace, ancestor, walked(namespace, names)->0, steps) == Ok::<bool, FuseError>(
            passes(namespace, names, ancestor),
        ),
    decreases names.len(),
{
    let number = walked(namespace, names)->0;
    assert(names.take(names.len() as int) =~= names);
    if number == ancestor {
        assert(passes(namespace, names, ancestor));
    } else if names.len() == 0 {
        assert(!passes(namespace, names, ancestor)) by {
            if passes(namespace, names, ancestor) {
                let count = choose|count: int|
                    0 <= count <= names.len() && walked(namespace, #[trigger] names.take(count))
                        == Some(ancestor);
                assert(count == 0);
            }
        }
    } else {
        let front = names.drop_last();
        let above = walked(namespace, front)->0;
        assert(entry_placed(namespace, next, above, names.last()));
        lemma_below_is_passed(namespace, next, front, ancestor, (steps - 1) as nat);
        if passes(namespace, front, ancestor) {
            let count = choose|count: int|
                0 <= count <= front.len() && walked(namespace, #[trigger] front.take(count))
                    == Some(ancestor);
            assert(front.take(count) =~= names.take(count));
        }
        if passes(namespace, names, ancestor) {
            let count = choose|count: int|
                0 <= count <= names.len() && walked(namespace, #[trigger] names.take(count))
                    == Some(ancestor);
            assert(count < names.len());
            assert(front.take(count) =~= names.take(count));
        }
    }
}

/// A directory is not moved to a place that the way to leads through itself: that is answered as
/// invalid. To every other place nothing of this kind stands in the way.
pub proof fn lemma_not_moved_below_itself(
    namespace: Namespace,
    write: WriteState,
    parent: u64,
    name: Seq<u8>,
    names: Seq<Seq<u8>>,
    new_name: Seq<u8>,
    no_replace: bool,
    now: StoredTime,
    created_at: time::UtcDateTime,
)
    requires
        well_placed(namespace, write.next_inode_number),
        walked(namespace, names) is Some,
        names.len() < 1024,
        directory_of(namespace, walked(namespace, names)->0) is Ok,
        directory_of(namespace, parent) is Ok,
        namespace.entry(parent, name) is Some,
        namespace.entry(parent, name)->0.kind == StoredNodeKind::Directory,
        name_error(name) is None,
        name_error(new_name) is None,
    ensures
        ({
            let new_parent = walked(namespace, names)->0;
            let moved = namespace.entry(parent, name)->0.inode;
            let result = rename_change(
                namespace,
                write,
                parent,
                name,
                new_parent,
                new_name,
                no_replace,
                now,
                created_at,
            );
            &&& passes(namespace, names, moved) ==> result == Err::<ChangeView, FuseError>(
                FuseError::Errno(Errno::EINVAL),
            )
            &&& !passes(namespace, names, moved) && namespace.entry(new_parent, new_name) is None
                && write.last_event_sequence < u64::MAX && child_path(
                namespace,
                new_parent,
                new_name,
            ) is Ok ==> result is Ok
        }),
{
    let moved = namespace.entry(parent, name)->0.inode;
    assert(entry_placed(namespace, write.next_inode_number, parent, name));
    lemma_below_is_passed(
        namespace,
        write.next_inode_number,
        names,
        moved,
        PATH_STEPS as nat,
    );
}

} // verus!
