//! What renumbering preserves: the objects stay where they are, every
//! reference still leads to the object it led to, and the pages are shown
//! in the same order.

use crate::document::object_under;
use crate::document::DocumentView;
use crate::object::bytes_of;
use crate::object::role;
use crate::object::ObjectView;
use crate::object::Role;
use crate::object::ScalarView;
use crate::pages::kids_of;
use crate::pages::lemma_unseen_insert;
use crate::pages::pages_of;
use crate::pages::reference_in;
use crate::pages::reference_under;
use crate::pages::references_last_first;
use crate::pages::unseen;
use crate::pages::walk;
use crate::renumber::lemma_renumbered_parts;
use crate::renumber::lemma_role_renumbered;
use crate::renumber::renumbered;
use crate::renumber::renumbered_dict;
use crate::renumber::renumbered_items;
use crate::renumber::shift_table;
use crate::renumber::shifted;
use vstd::prelude::*;

verus! {

/// A shifted document is well formed, where its identifiers fit.
pub proof fn lemma_shifted_well_formed(doc: DocumentView, offset: nat)
    requires
        doc.well_formed(),
        doc.max_id + offset <= u32::MAX,
    ensures
        shifted(doc, offset).well_formed(),
        shifted(doc, offset).entries.len() == doc.entries.len(),
        forall|i: int|
            0 <= i < doc.entries.len() ==> (#[trigger] shifted(doc, offset).entries[i]).id
                == doc.entries[i].id + offset && role(shifted(doc, offset).entries[i].object)
                == role(doc.entries[i].object),
{
    let moved = shifted(doc, offset);
    assert forall|i: int| 0 <= i < doc.entries.len() implies (#[trigger] moved.entries[i]).id
        == doc.entries[i].id + offset && role(moved.entries[i].object) == role(
        doc.entries[i].object,
    ) by {
        lemma_role_renumbered(doc.entries[i].object, shift_table(doc, offset));
    }
    assert forall|i: int, j: int| 0 <= i < j < moved.entries.len() implies moved.entries[i].id
        < moved.entries[j].id by {
        assert(doc.entries[i].id < doc.entries[j].id);
    }
}

/// An object of a document is found in the shifted document under its
/// shifted identifier, with its references shifted.
pub proof fn lemma_shifted_under(doc: DocumentView, offset: nat, id: nat)
    requires
        doc.well_formed(),
        doc.max_id + offset <= u32::MAX,
    ensures
        doc.contains(id) <==> shifted(doc, offset).contains(id + offset),
        doc.contains(id) ==> {
            &&& shifted(doc, offset).position(id + offset) == doc.position(id)
            &&& object_under(shifted(doc, offset), id + offset) == renumbered(
                object_under(doc, id),
                shift_table(doc, offset),
            )
            &&& role(object_under(shifted(doc, offset), id + offset)) == role(
                object_under(doc, id),
            )
        },
{
    let moved = shifted(doc, offset);
    lemma_shifted_well_formed(doc, offset);
    if doc.contains(id) {
        let i = doc.position(id);
        assert(moved.entries[i].id == id + offset);
        moved.lemma_position(i);
        lemma_role_renumbered(doc.entries[i].object, shift_table(doc, offset));
    }
    if moved.contains(id + offset) {
        let i = moved.position(id + offset);
        assert(moved.entries[i].id == doc.entries[i].id + offset);
        assert(doc.entries[i].id == id);
    }
}

/// A reference to an object of the document leads, after the shift, to the
/// same object at its new place; a reference that led nowhere is the null
/// object.
pub proof fn lemma_reference_shifted(doc: DocumentView, offset: nat, id: nat)
    requires
        doc.well_formed(),
        doc.max_id + offset <= u32::MAX,
    ensures
        doc.contains(id) ==> renumbered(ObjectView::Reference(id), shift_table(doc, offset))
            == ObjectView::Reference(id + offset) && shifted(doc, offset).contains(id + offset),
        !doc.contains(id) ==> renumbered(ObjectView::Reference(id), shift_table(doc, offset))
            == ObjectView::Primitive(ScalarView::Null),
{
    lemma_shifted_under(doc, offset, id);
}

/// The given identifiers, each moved by the offset.
pub open spec fn plus(ids: Seq<nat>, offset: nat) -> Seq<nat> {
    Seq::new(ids.len(), |i: int| ids[i] + offset)
}

/// Those of the identifiers under which the document holds an object, each
/// moved by the offset.
pub open spec fn moved_ids(doc: DocumentView, ids: Seq<nat>, offset: nat) -> Seq<nat>
    decreases ids.len(),
{
    if ids.len() == 0 {
        Seq::empty()
    } else {
        moved_ids(doc, ids.drop_last(), offset) + if doc.contains(ids.last()) {
            seq![ids.last() + offset]
        } else {
            Seq::empty()
        }
    }
}

/// Of one identifier, what is moved is it, or nothing.
proof fn lemma_moved_ids_one(doc: DocumentView, id: nat, offset: nat)
    ensures
        moved_ids(doc, seq![id], offset) == if doc.contains(id) {
            seq![id + offset]
        } else {
            Seq::<nat>::empty()
        },
{
    assert(seq![id].drop_last() =~= Seq::<nat>::empty());
    assert(moved_ids(doc, Seq::<nat>::empty(), offset) =~= Seq::<nat>::empty());
    assert(seq![id].last() == id);
    assert(Seq::<nat>::empty() + seq![(id + offset) as nat] =~= seq![(id + offset) as nat]);
    assert(Seq::<nat>::empty() + Seq::<nat>::empty() =~= Seq::<nat>::empty());
}

/// What is moved of two lists in a row is what is moved of each, in a row.
proof fn lemma_moved_ids_concat(doc: DocumentView, left: Seq<nat>, right: Seq<nat>, offset: nat)
    ensures
        moved_ids(doc, left + right, offset) == moved_ids(doc, left, offset) + moved_ids(
            doc,
            right,
            offset,
        ),
    decreases right.len(),
{
    if right.len() == 0 {
        assert(left + right =~= left);
        assert(moved_ids(doc, left, offset) + Seq::<nat>::empty() =~= moved_ids(doc, left, offset));
    } else {
        lemma_moved_ids_concat(doc, left, right.drop_last(), offset);
        assert((left + right).drop_last() =~= left + right.drop_last());
        assert((left + right).last() == right.last());
        let tail = if doc.contains(right.last()) {
            seq![right.last() + offset]
        } else {
            Seq::<nat>::empty()
        };
        assert((moved_ids(doc, left, offset) + moved_ids(doc, right.drop_last(), offset)) + tail
            =~= moved_ids(doc, left, offset) + (moved_ids(doc, right.drop_last(), offset) + tail));
    }
}

/// The references among shifted items name the shifted identifiers of
/// those that the references among the items name in the document.
proof fn lemma_references_shifted(doc: DocumentView, items: Seq<ObjectView>, offset: nat)
    requires
        doc.well_formed(),
        doc.max_id + offset <= u32::MAX,
    ensures
        references_last_first(renumbered_items(items, shift_table(doc, offset))) == moved_ids(
            doc,
            references_last_first(items),
            offset,
        ),
    decreases items.len(),
{
    let table = shift_table(doc, offset);
    if items.len() > 0 {
        let front = items.drop_last();
        lemma_references_shifted(doc, front, offset);
        assert(renumbered_items(items, table).drop_last() =~= renumbered_items(front, table));
        assert(renumbered_items(items, table).last() == renumbered(items.last(), table));
        lemma_renumbered_parts(items.last(), table);
        lemma_moved_ids_concat(
            doc,
            reference_in(items.last()),
            references_last_first(front),
            offset,
        );
        match items.last() {
            ObjectView::Reference(id) => {
                lemma_reference_shifted(doc, offset, id);
                lemma_moved_ids_one(doc, id, offset);
            },
            _ => {},
        }
    }
}

/// The seen identifiers, each moved by the offset.
pub open spec fn seen_plus(seen: Set<nat>, offset: nat) -> Set<nat> {
    Set::new(|id: nat| id >= offset && seen.contains((id - offset) as nat))
}

/// The kids of a shifted node are the shifted kids of the node.
proof fn lemma_kids_shifted(doc: DocumentView, obj: ObjectView, offset: nat)
    requires
        doc.well_formed(),
        doc.max_id + offset <= u32::MAX,
    ensures
        references_last_first(kids_of(renumbered(obj, shift_table(doc, offset)))) == moved_ids(
            doc,
            references_last_first(kids_of(obj)),
            offset,
        ),
{
    let table = shift_table(doc, offset);
    lemma_renumbered_parts(obj, table);
    match obj {
        ObjectView::Dictionary(dict) => {
            let key = bytes_of("Kids"@);
            if dict.contains_key(key) {
                lemma_renumbered_parts(dict[key], table);
                assert(renumbered_dict(dict, table)[key] == renumbered(dict[key], table));
                match dict[key] {
                    ObjectView::Array(items) => {
                        lemma_references_shifted(doc, items, offset);
                    },
                    _ => {},
                }
            }
        },
        _ => {},
    }
}

/// A walk through the shifted document lists the shifted pages of the walk
/// through the document.
proof fn lemma_walk_shifted(doc: DocumentView, offset: nat, stack: Seq<nat>, seen: Set<nat>)
    requires
        doc.well_formed(),
        doc.max_id + offset <= u32::MAX,
    ensures
        walk(shifted(doc, offset), moved_ids(doc, stack, offset), seen_plus(seen, offset)) == plus(
            walk(doc, stack, seen),
            offset,
        ),
    decreases unseen(doc.entries, seen), stack.len(),
{
    let moved = shifted(doc, offset);
    let seen_moved = seen_plus(seen, offset);
    if stack.len() == 0 {
        assert(plus(Seq::<nat>::empty(), offset) =~= Seq::<nat>::empty());
    } else {
        let id = stack.last();
        let rest = stack.drop_last();
        let rest_moved = moved_ids(doc, rest, offset);
        lemma_shifted_under(doc, offset, id);
        if !doc.contains(id) {
            assert(moved_ids(doc, stack, offset) =~= rest_moved);
            lemma_walk_shifted(doc, offset, rest, seen);
        } else {
            let top = moved_ids(doc, stack, offset);
            assert(top =~= rest_moved.push(id + offset));
            assert(top.drop_last() =~= rest_moved);
            assert(top.last() == id + offset);
            assert(seen_moved.contains(id + offset) <==> seen.contains(id));
            if seen.contains(id) {
                lemma_walk_shifted(doc, offset, rest, seen);
            } else {
                lemma_unseen_insert(doc.entries, seen, id);
                lemma_unseen_insert(moved.entries, seen_moved, id + offset);
                let obj = object_under(doc, id);
                assert(seen_plus(seen.insert(id), offset) =~= seen_moved.insert(id + offset));
                match role(obj) {
                    Role::Page => {
                        lemma_walk_shifted(doc, offset, rest, seen.insert(id));
                        assert(seq![id + offset] + plus(walk(doc, rest, seen.insert(id)), offset)
                            =~= plus(seq![id] + walk(doc, rest, seen.insert(id)), offset));
                    },
                    Role::PagesRoot => {
                        let kids = references_last_first(kids_of(obj));
                        lemma_kids_shifted(doc, obj, offset);
                        lemma_moved_ids_concat(doc, rest, kids, offset);
                        lemma_walk_shifted(doc, offset, rest + kids, seen.insert(id));
                    },
                    _ => {
                        lemma_walk_shifted(doc, offset, rest, seen);
                    },
                }
            }
        }
    }
}

/// A shifted document shows the pages of the document in the same order,
/// each under its shifted identifier.
pub proof fn lemma_pages_shifted(doc: DocumentView, offset: nat)
    requires
        doc.well_formed(),
        doc.max_id + offset <= u32::MAX,
    ensures
        pages_of(shifted(doc, offset)) == plus(pages_of(doc), offset),
{
    let moved = shifted(doc, offset);
    let table = shift_table(doc, offset);
    let key = bytes_of("Root"@);
    assert(plus(Seq::<nat>::empty(), offset) =~= Seq::<nat>::empty());
    if doc.trailer.contains_key(key) {
        lemma_renumbered_parts(doc.trailer[key], table);
        assert(moved.trailer[key] == renumbered(doc.trailer[key], table));
    }
    match reference_under(doc.trailer, key) {
        Some(catalog) => {
            lemma_reference_shifted(doc, offset, catalog);
            lemma_shifted_under(doc, offset, catalog);
            if doc.contains(catalog) {
                let obj = object_under(doc, catalog);
                lemma_renumbered_parts(obj, table);
                assert(moved.get(catalog + offset) == Some(renumbered(obj, table)));
                match obj {
                    ObjectView::Dictionary(dict) => {
                        let pages = bytes_of("Pages"@);
                        if dict.contains_key(pages) {
                            lemma_renumbered_parts(dict[pages], table);
                            assert(renumbered_dict(dict, table)[pages] == renumbered(
                                dict[pages],
                                table,
                            ));
                        }
                        match reference_under(dict, pages) {
                            Some(root) => {
                                lemma_reference_shifted(doc, offset, root);
                                lemma_moved_ids_one(doc, root, offset);
                                assert(seen_plus(Set::<nat>::empty(), offset) =~= Set::<
                                    nat,
                                >::empty());
                                lemma_walk_shifted(doc, offset, seq![root], Set::empty());
                                if !doc.contains(root) {
                                    assert(seq![root].drop_last() =~= Seq::<nat>::empty());
                                    assert(walk(doc, Seq::<nat>::empty(), Set::empty())
                                        =~= Seq::<nat>::empty());
                                    assert(walk(doc, seq![root], Set::empty()) =~= Seq::<
                                        nat,
                                    >::empty());
                                }
                            },
                            None => {},
                        }
                    },
                    _ => {},
                }
            }
        },
        None => {},
    }
}

} // verus!
