//! Renumbering: giving the objects of a document new identifiers and
//! rewriting every reference to them.
//!
//! A reference to an identifier under which the document holds no object
//! stands for the null object, and is rewritten as such.

use crate::document::ascending;
use crate::document::find_id;
use crate::document::Document;
use crate::document::DocumentView;
use crate::document::EntryView;
use crate::object::bytes_of;
use crate::object::copy_scalar;
use crate::object::entries_view;
use crate::object::items_view;
use crate::object::kind_name;
use crate::object::lemma_entries_view_push;
use crate::object::lemma_items_view_push;
use crate::object::role;
use crate::object::DictEntry;
use crate::object::Dictionary;
use crate::object::Object;
use crate::object::ObjectView;
use crate::object::Scalar;
use crate::object::ScalarView;
use vstd::prelude::*;

verus! {

/// An object in which every reference is rewritten by the table. A
/// reference that the table does not hold becomes the null object.
pub open spec fn renumbered(obj: ObjectView, table: Map<nat, nat>) -> ObjectView
    decreases obj,
{
    match obj {
        ObjectView::Primitive(_) => obj,
        ObjectView::Reference(id) => if table.contains_key(id) {
            ObjectView::Reference(table[id])
        } else {
            ObjectView::Primitive(ScalarView::Null)
        },
        ObjectView::Array(items) => ObjectView::Array(
            Seq::new(
                items.len(),
                |i: int|
                    if 0 <= i < items.len() {
                        renumbered(items[i], table)
                    } else {
                        obj
                    },
            ),
        ),
        ObjectView::Dictionary(dict) => ObjectView::Dictionary(
            Map::new(
                |key: Seq<u8>| dict.contains_key(key),
                |key: Seq<u8>|
                    if dict.contains_key(key) {
                        renumbered(dict[key], table)
                    } else {
                        obj
                    },
            ),
        ),
        ObjectView::Stream(dict, data) => ObjectView::Stream(
            Map::new(
                |key: Seq<u8>| dict.contains_key(key),
                |key: Seq<u8>|
                    if dict.contains_key(key) {
                        renumbered(dict[key], table)
                    } else {
                        obj
                    },
            ),
            data,
        ),
    }
}

/// A dictionary in which every reference is rewritten by the table.
pub open spec fn renumbered_dict(dict: Map<Seq<u8>, ObjectView>, table: Map<nat, nat>) -> Map<
    Seq<u8>,
    ObjectView,
> {
    Map::new(|key: Seq<u8>| dict.contains_key(key), |key: Seq<u8>| renumbered(dict[key], table))
}

/// A list of objects in which every reference is rewritten by the table.
pub open spec fn renumbered_items(items: Seq<ObjectView>, table: Map<nat, nat>) -> Seq<
    ObjectView,
> {
    Seq::new(items.len(), |i: int| renumbered(items[i], table))
}

/// Rewriting an array rewrites its items; rewriting a dictionary or a
/// stream rewrites its values.
pub proof fn lemma_renumbered_parts(obj: ObjectView, table: Map<nat, nat>)
    ensures
        obj matches ObjectView::Array(items) ==> renumbered(obj, table) == ObjectView::Array(
            renumbered_items(items, table),
        ),
        obj matches ObjectView::Dictionary(dict) ==> renumbered(obj, table)
            == ObjectView::Dictionary(renumbered_dict(dict, table)),
        obj matches ObjectView::Stream(dict, data) ==> renumbered(obj, table)
            == ObjectView::Stream(renumbered_dict(dict, table), data),
{
    match obj {
        ObjectView::Array(items) => {
            assert(renumbered(obj, table)->Array_0 =~= renumbered_items(items, table));
        },
        ObjectView::Dictionary(dict) => {
            assert(renumbered(obj, table)->Dictionary_0 =~= renumbered_dict(dict, table));
        },
        ObjectView::Stream(dict, data) => {
            assert(renumbered(obj, table)->Stream_0 =~= renumbered_dict(dict, table));
        },
        _ => {},
    }
}

/// Renumbering leaves the part that an object plays as it is.
pub proof fn lemma_role_renumbered(obj: ObjectView, table: Map<nat, nat>)
    ensures
        role(renumbered(obj, table)) == role(obj),
        kind_name(renumbered(obj, table)) == kind_name(obj),
        renumbered(obj, table) is Dictionary <==> obj is Dictionary,
{
    lemma_renumbered_parts(obj, table);
    match obj {
        ObjectView::Dictionary(dict) => {
            let key = bytes_of("Type"@);
            if dict.contains_key(key) {
                lemma_renumbered_parts(dict[key], table);
                assert(renumbered_dict(dict, table)[key] == renumbered(dict[key], table));
            }
        },
        _ => {},
    }
}

/// The table that leads from each of `from` to the one of `to` at its place.
pub open spec fn table_of(from: Seq<u32>, to: Seq<u32>) -> Map<nat, nat> {
    Map::new(
        |id: nat| exists|i: int| 0 <= i < from.len() && #[trigger] from[i] == id,
        |id: nat| to[choose|i: int| 0 <= i < from.len() && #[trigger] from[i] == id] as nat,
    )
}

/// Where identifiers ascend, the table leads from each to its partner.
pub proof fn lemma_table_of(from: Seq<u32>, to: Seq<u32>, i: int)
    requires
        ascending(from),
        0 <= i < from.len(),
    ensures
        table_of(from, to).contains_key(from[i] as nat),
        table_of(from, to)[from[i] as nat] == to[i],
{
    let id = from[i] as nat;
    let chosen = choose|k: int| 0 <= k < from.len() && #[trigger] from[k] == id;
    if chosen < i {
        assert(from[chosen] < from[i]);
    }
    if i < chosen {
        assert(from[i] < from[chosen]);
    }
}

/// Looks an identifier up in the table.
fn new_id(from: &Vec<u32>, to: &Vec<u32>, id: u32) -> (found: Option<u32>)
    requires
        ascending(from@),
        from.len() == to.len(),
    ensures
        found is Some <==> table_of(from@, to@).contains_key(id as nat),
        found matches Some(n) ==> n == table_of(from@, to@)[id as nat],
{
    match find_id(from, id) {
        Some(i) => {
            proof {
                lemma_table_of(from@, to@, i as int);
            }
            Some(to[i])
        },
        None => None,
    }
}

/// Rewrites every reference in an object by the table.
fn renumber_object(obj: &Object, from: &Vec<u32>, to: &Vec<u32>) -> (out: Object)
    requires
        ascending(from@),
        from.len() == to.len(),
    ensures
        out@ == renumbered(obj@, table_of(from@, to@)),
    decreases obj,
{
    proof {
        lemma_renumbered_parts(obj@, table_of(from@, to@));
    }
    match obj {
        Object::Primitive(s) => Object::Primitive(copy_scalar(s)),
        Object::Reference(id) => match new_id(from, to, *id) {
            Some(n) => Object::Reference(n),
            None => Object::Primitive(Scalar::Null),
        },
        Object::Array(items) => Object::Array(renumber_items(items, from, to)),
        Object::Dictionary(dict) => Object::Dictionary(
            Dictionary { entries: renumber_entries(&dict.entries, from, to) },
        ),
        Object::Stream(dict, data) => Object::Stream(
            Dictionary { entries: renumber_entries(&dict.entries, from, to) },
            data.clone(),
        ),
    }
}

/// Rewrites every reference in a list of objects by the table.
fn renumber_items(items: &Vec<Object>, from: &Vec<u32>, to: &Vec<u32>) -> (out: Vec<Object>)
    requires
        ascending(from@),
        from.len() == to.len(),
    ensures
        items_view(out@) == renumbered_items(items_view(items@), table_of(from@, to@)),
    decreases items,
{
    let ghost table = table_of(from@, to@);
    let mut out: Vec<Object> = Vec::new();
    let mut i: usize = 0;
    assert(items_view(out@) =~= renumbered_items(items_view(items@.take(0)), table));
    while i < items.len()
        invariant
            i <= items.len(),
            ascending(from@),
            from.len() == to.len(),
            table == table_of(from@, to@),
            items_view(out@) == renumbered_items(items_view(items@.take(i as int)), table),
        decreases items.len() - i,
    {
        let item = renumber_object(&items[i], from, to);
        proof {
            lemma_items_view_push(out@, item);
            lemma_items_view_push(items@.take(i as int), items@[i as int]);
            assert(items@.take(i as int).push(items@[i as int]) =~= items@.take(i + 1));
            assert(renumbered_items(items_view(items@.take(i as int)), table).push(item@)
                =~= renumbered_items(items_view(items@.take(i + 1)), table));
        }
        out.push(item);
        i += 1;
    }
    assert(items@.take(i as int) =~= items@);
    out
}

/// Rewrites every reference in the entries of a dictionary by the table.
fn renumber_entries(entries: &Vec<DictEntry>, from: &Vec<u32>, to: &Vec<u32>) -> (out: Vec<
    DictEntry,
>)
    requires
        ascending(from@),
        from.len() == to.len(),
    ensures
        entries_view(out@) == renumbered_dict(entries_view(entries@), table_of(from@, to@)),
    decreases entries,
{
    let ghost table = table_of(from@, to@);
    let mut out: Vec<DictEntry> = Vec::new();
    let mut i: usize = 0;
    assert(entries_view(out@) =~= renumbered_dict(entries_view(entries@.take(0)), table));
    while i < entries.len()
        invariant
            i <= entries.len(),
            ascending(from@),
            from.len() == to.len(),
            table == table_of(from@, to@),
            entries_view(out@) == renumbered_dict(entries_view(entries@.take(i as int)), table),
        decreases entries.len() - i,
    {
        let entry = DictEntry {
            key: entries[i].key.clone(),
            value: renumber_object(&entries[i].value, from, to),
        };
        proof {
            lemma_entries_view_push(out@, entry);
            lemma_entries_view_push(entries@.take(i as int), entries@[i as int]);
            assert(entries@.take(i as int).push(entries@[i as int]) =~= entries@.take(i + 1));
            assert(renumbered_dict(entries_view(entries@.take(i as int)), table).insert(
                entry.key@,
                entry.value@,
            ) =~= renumbered_dict(entries_view(entries@.take(i + 1)), table));
        }
        out.push(entry);
        i += 1;
    }
    assert(entries@.take(i as int) =~= entries@);
    out
}

/// A document whose entries take the identifiers of `to`, place by place,
/// with every reference rewritten to match.
pub open spec fn renumbered_document(doc: DocumentView, to: Seq<u32>, max_id: nat) -> DocumentView {
    let table = Map::new(
        |id: nat| doc.contains(id),
        |id: nat| to[doc.position(id)] as nat,
    );
    DocumentView {
        entries: Seq::new(
            doc.entries.len(),
            |i: int| EntryView { id: to[i] as nat, object: renumbered(doc.entries[i].object, table) },
        ),
        trailer: renumbered_dict(doc.trailer, table),
        max_id,
    }
}

/// Gives the entries of a document the identifiers of `to`, place by place.
fn renumber_document(doc: &Document, to: Vec<u32>, max_id: u32) -> (out: Document)
    requires
        to.len() == doc@.entries.len(),
        ascending(to@),
        forall|i: int| 0 <= i < to.len() ==> 1 <= #[trigger] to[i] <= max_id,
    ensures
        out@ == renumbered_document(doc@, to@, max_id as nat),
        out@.well_formed(),
{
    doc.check();
    let from = doc.ids();
    let ghost table = table_of(from@, to@);
    proof {
        let wanted = Map::new(
            |id: nat| doc@.contains(id),
            |id: nat| to@[doc@.position(id)] as nat,
        );
        assert forall|id: nat| table.contains_key(id) == wanted.contains_key(id) by {
            if table.contains_key(id) {
                let i = choose|i: int| 0 <= i < from.len() && #[trigger] from[i] == id;
                assert(doc@.entries[i].id == id);
            }
            if wanted.contains_key(id) {
                let i = doc@.position(id);
                assert(from[i] == id);
            }
        }
        assert forall|id: nat| table.contains_key(id) implies table[id] == wanted[id] by {
            let i = doc@.position(id);
            assert(from[i] == id);
            lemma_table_of(from@, to@, i);
        }
        assert(table =~= wanted);
    }
    let mut objects: Vec<Object> = Vec::new();
    let mut i: usize = 0;
    while i < doc.len()
        invariant
            i <= doc@.entries.len(),
            ascending(from@),
            from.len() == to.len(),
            table == table_of(from@, to@),
            objects.len() == i,
            forall|k: int|
                0 <= k < i ==> (#[trigger] objects[k])@ == renumbered(doc@.entries[k].object, table),
        decreases doc@.entries.len() - i,
    {
        objects.push(renumber_object(doc.object_at(i), from, &to));
        i += 1;
    }
    let trailer = Dictionary { entries: renumber_entries(&doc.trailer().entries, from, &to) };
    let ghost ids = to@;
    let out = Document::from_parts(to, objects, trailer, max_id);
    assert(out@.entries =~= renumbered_document(doc@, ids, max_id as nat).entries);
    out
}

/// The table that adds `offset` to every identifier of a document.
pub open spec fn shift_table(doc: DocumentView, offset: nat) -> Map<nat, nat> {
    Map::new(|id: nat| doc.contains(id), |id: nat| id + offset)
}

/// A document with `offset` added to every identifier, to every reference
/// to one of its objects, and to the highest identifier on record.
pub open spec fn shifted(doc: DocumentView, offset: nat) -> DocumentView {
    DocumentView {
        entries: Seq::new(
            doc.entries.len(),
            |i: int|
                EntryView {
                    id: doc.entries[i].id + offset,
                    object: renumbered(doc.entries[i].object, shift_table(doc, offset)),
                },
        ),
        trailer: renumbered_dict(doc.trailer, shift_table(doc, offset)),
        max_id: doc.max_id + offset,
    }
}

/// Adds `offset` to every identifier of a document and to every reference
/// to one of its objects.
pub fn renumber(doc: &Document, offset: u32) -> (out: Document)
    requires
        doc@.max_id + offset <= u32::MAX,
    ensures
        out@ == shifted(doc@, offset as nat),
        out@.well_formed(),
{
    doc.check();
    let from = doc.ids();
    let mut to: Vec<u32> = Vec::new();
    let mut i: usize = 0;
    while i < from.len()
        invariant
            i <= from.len(),
            from.len() == doc@.entries.len(),
            doc@.well_formed(),
            doc@.max_id + offset <= u32::MAX,
            forall|k: int| 0 <= k < from.len() ==> #[trigger] from[k] == doc@.entries[k].id,
            to.len() == i,
            forall|k: int| 0 <= k < i ==> #[trigger] to[k] == from[k] + offset,
        decreases from.len() - i,
    {
        to.push(from[i] + offset);
        i += 1;
    }
    let ghost ids = to@;
    let out = renumber_document(doc, to, doc.max_id() + offset);
    proof {
        let table = Map::new(
            |id: nat| doc@.contains(id),
            |id: nat| ids[doc@.position(id)] as nat,
        );
        assert forall|id: nat| table.contains_key(id) implies table[id] == shift_table(
            doc@,
            offset as nat,
        )[id] by {
            let p = doc@.position(id);
            assert(from[p] == id);
        }
        assert(table =~= shift_table(doc@, offset as nat));
        assert(out@.entries =~= shifted(doc@, offset as nat).entries);
    }
    out
}

/// The table that leads from each identifier of a document to its rank,
/// counted from one.
pub open spec fn dense_table(doc: DocumentView) -> Map<nat, nat> {
    Map::new(|id: nat| doc.contains(id), |id: nat| (doc.position(id) + 1) as nat)
}

/// A document whose identifiers are their ranks, counted from one, with
/// every reference rewritten to match. The highest identifier on record is
/// the number of objects.
pub open spec fn compacted(doc: DocumentView) -> DocumentView {
    DocumentView {
        entries: Seq::new(
            doc.entries.len(),
            |i: int|
                EntryView {
                    id: (i + 1) as nat,
                    object: renumbered(doc.entries[i].object, dense_table(doc)),
                },
        ),
        trailer: renumbered_dict(doc.trailer, dense_table(doc)),
        max_id: doc.entries.len(),
    }
}

/// Closes the gaps between the identifiers of a document: the objects are
/// numbered from one in their order, and every reference follows.
pub fn compact(doc: &Document) -> (out: Document)
    ensures
        out@ == compacted(doc@),
        out@.well_formed(),
{
    doc.check();
    let from = doc.ids();
    let mut to: Vec<u32> = Vec::new();
    let mut next: u32 = 0;
    let mut i: usize = 0;
    while i < from.len()
        invariant
            i <= from.len(),
            from.len() == doc@.entries.len(),
            doc@.well_formed(),
            forall|k: int| 0 <= k < from.len() ==> #[trigger] from[k] == doc@.entries[k].id,
            ascending(from@),
            to.len() == i,
            next == i,
            i > 0 ==> next <= from[i - 1],
            forall|k: int| 0 <= k < i ==> #[trigger] to[k] == k + 1,
        decreases from.len() - i,
    {
        proof {
            if i > 0 {
                assert(from[i - 1] < from[i as int]);
            } else {
                assert(doc@.entries[0].id >= 1);
            }
        }
        next = next + 1;
        to.push(next);
        i += 1;
    }
    let ghost ids = to@;
    let out = renumber_document(doc, to, next);
    proof {
        let table = Map::new(
            |id: nat| doc@.contains(id),
            |id: nat| ids[doc@.position(id)] as nat,
        );
        assert(table =~= dense_table(doc@));
        assert(out@.entries =~= compacted(doc@).entries);
    }
    out
}

} // verus!
