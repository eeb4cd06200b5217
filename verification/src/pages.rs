//! The pages of a document, in the order in which they are shown.
//!
//! The pages are found by walking the page tree from the node that the
//! catalog names: a page is listed when the walk first meets it, a node of
//! the tree is entered once, and whatever else a reference leads to is
//! passed over.

use crate::document::Document;
use crate::document::DocumentView;
use crate::document::EntryView;
use crate::names;
use crate::object::bytes_of;
use crate::object::items_view;
use crate::object::lemma_items_view;
use crate::object::role;
use crate::object::role_of;
use crate::object::Object;
use crate::object::ObjectView;
use crate::object::Role;
use vstd::prelude::*;

verus! {

/// Identifiers as numbers.
pub open spec fn as_nats(ids: Seq<u32>) -> Seq<nat> {
    Seq::new(ids.len(), |i: int| ids[i] as nat)
}

/// The identifier that a reference names.
pub open spec fn reference_in(obj: ObjectView) -> Seq<nat> {
    match obj {
        ObjectView::Reference(id) => seq![id],
        _ => Seq::empty(),
    }
}

/// The identifiers that the references among the items name, last first.
pub open spec fn references_last_first(items: Seq<ObjectView>) -> Seq<nat>
    decreases items.len(),
{
    if items.len() == 0 {
        Seq::empty()
    } else {
        reference_in(items.last()) + references_last_first(items.drop_last())
    }
}

/// The array under `Kids` in a dictionary object.
pub open spec fn kids_of(obj: ObjectView) -> Seq<ObjectView> {
    match obj {
        ObjectView::Dictionary(dict) => if dict.contains_key(bytes_of("Kids"@)) {
            match dict[bytes_of("Kids"@)] {
                ObjectView::Array(items) => items,
                _ => Seq::empty(),
            }
        } else {
            Seq::empty()
        },
        _ => Seq::empty(),
    }
}

/// How many of the entries are not among the seen.
pub open spec fn unseen(entries: Seq<EntryView>, seen: Set<nat>) -> nat
    decreases entries.len(),
{
    if entries.len() == 0 {
        0
    } else {
        unseen(entries.drop_last(), seen) + if seen.contains(entries.last().id) {
            0nat
        } else {
            1nat
        }
    }
}

/// Seeing one more identifier leaves no more entries unseen, and fewer if
/// an entry has it.
pub proof fn lemma_unseen_insert(entries: Seq<EntryView>, seen: Set<nat>, id: nat)
    requires
        !seen.contains(id),
    ensures
        unseen(entries, seen.insert(id)) <= unseen(entries, seen),
        (exists|i: int| 0 <= i < entries.len() && (#[trigger] entries[i]).id == id) ==> unseen(
            entries,
            seen.insert(id),
        ) < unseen(entries, seen),
    decreases entries.len(),
{
    if entries.len() > 0 {
        let front = entries.drop_last();
        lemma_unseen_insert(front, seen, id);
        if exists|i: int| 0 <= i < entries.len() && (#[trigger] entries[i]).id == id {
            let i = choose|i: int| 0 <= i < entries.len() && (#[trigger] entries[i]).id == id;
            if i < entries.len() - 1 {
                assert(front[i].id == id);
            }
        }
    }
}

/// With nothing seen, every entry is unseen.
pub proof fn lemma_unseen_all(entries: Seq<EntryView>)
    ensures
        unseen(entries, Set::empty()) == entries.len(),
    decreases entries.len(),
{
    if entries.len() > 0 {
        lemma_unseen_all(entries.drop_last());
    }
}

/// The pages that a walk lists. The stack holds the identifiers still to be
/// visited, the next one last; the seen are the nodes entered and the pages
/// listed so far.
pub open spec fn walk(doc: DocumentView, stack: Seq<nat>, seen: Set<nat>) -> Seq<nat>
    decreases unseen(doc.entries, seen), stack.len(),
{
    if stack.len() == 0 {
        Seq::empty()
    } else {
        let id = stack.last();
        let rest = stack.drop_last();
        if seen.contains(id) || !doc.contains(id) {
            walk(doc, rest, seen)
        } else {
            proof {
                lemma_unseen_insert(doc.entries, seen, id);
            }
            let obj = doc.entries[doc.position(id)].object;
            match role(obj) {
                Role::Page => seq![id] + walk(doc, rest, seen.insert(id)),
                Role::PagesRoot => walk(
                    doc,
                    rest + references_last_first(kids_of(obj)),
                    seen.insert(id),
                ),
                _ => walk(doc, rest, seen),
            }
        }
    }
}

/// The identifier that a reference under `key` in a dictionary names.
pub open spec fn reference_under(dict: Map<Seq<u8>, ObjectView>, key: Seq<u8>) -> Option<nat> {
    if dict.contains_key(key) {
        match dict[key] {
            ObjectView::Reference(id) => Some(id),
            _ => None,
        }
    } else {
        None
    }
}

/// The root of the page tree: what the catalog names under `Pages`, the
/// catalog being the dictionary that the trailer names under `Root`.
pub open spec fn page_tree_root(doc: DocumentView) -> Option<nat> {
    match reference_under(doc.trailer, bytes_of("Root"@)) {
        Some(catalog) => match doc.get(catalog) {
            Some(ObjectView::Dictionary(dict)) => reference_under(dict, bytes_of("Pages"@)),
            _ => None,
        },
        None => None,
    }
}

/// The pages of a document, in the order in which they are shown.
pub open spec fn pages_of(doc: DocumentView) -> Seq<nat> {
    match page_tree_root(doc) {
        Some(root) => walk(doc, seq![root], Set::empty()),
        None => Seq::empty(),
    }
}

/// Whether the identifier is that of a page of the document.
pub open spec fn is_page(doc: DocumentView, id: nat) -> bool {
    doc.contains(id) && role(doc.entries[doc.position(id)].object) is Page
}

/// A walk lists pages of the document that were not seen before, and none
/// of them twice.
pub proof fn lemma_walk(doc: DocumentView, stack: Seq<nat>, seen: Set<nat>)
    ensures
        forall|k: int|
            0 <= k < walk(doc, stack, seen).len() ==> is_page(doc, #[trigger] walk(doc, stack, seen)[k])
                && !seen.contains(walk(doc, stack, seen)[k]),
        walk(doc, stack, seen).no_duplicates(),
    decreases unseen(doc.entries, seen), stack.len(),
{
    if stack.len() > 0 {
        let id = stack.last();
        let rest = stack.drop_last();
        if seen.contains(id) || !doc.contains(id) {
            lemma_walk(doc, rest, seen);
        } else {
            lemma_unseen_insert(doc.entries, seen, id);
            let obj = doc.entries[doc.position(id)].object;
            match role(obj) {
                Role::Page => {
                    lemma_walk(doc, rest, seen.insert(id));
                    let tail = walk(doc, rest, seen.insert(id));
                    assert(walk(doc, stack, seen) == seq![id] + tail);
                    assert forall|k: int| 0 <= k < (seq![id] + tail).len() implies is_page(
                        doc,
                        #[trigger] (seq![id] + tail)[k],
                    ) && !seen.contains((seq![id] + tail)[k]) by {
                        if k > 0 {
                            assert((seq![id] + tail)[k] == tail[k - 1]);
                        }
                    }
                    assert forall|i: int, j: int|
                        0 <= i < (seq![id] + tail).len() && 0 <= j < (seq![id] + tail).len() && i
                            != j implies (seq![id] + tail)[i] != (seq![id] + tail)[j] by {
                        if i > 0 {
                            assert((seq![id] + tail)[i] == tail[i - 1]);
                        }
                        if j > 0 {
                            assert((seq![id] + tail)[j] == tail[j - 1]);
                        }
                    }
                },
                Role::PagesRoot => {
                    lemma_walk(doc, rest + references_last_first(kids_of(obj)), seen.insert(id));
                },
                _ => {
                    lemma_walk(doc, rest, seen);
                },
            }
        }
    }
}

/// The pages of a document are pages of it, and none of them stands twice.
pub proof fn lemma_pages_of(doc: DocumentView)
    ensures
        forall|k: int| 0 <= k < pages_of(doc).len() ==> is_page(doc, #[trigger] pages_of(doc)[k]),
        pages_of(doc).no_duplicates(),
{
    match page_tree_root(doc) {
        Some(root) => {
            lemma_walk(doc, seq![root], Set::empty());
        },
        None => {},
    }
}

/// Puts the references under `Kids` on the stack, last first.
fn push_kids(stack: &mut Vec<u32>, node: &Object)
    ensures
        as_nats(final(stack)@) == as_nats(old(stack)@) + references_last_first(kids_of(node@)),
{
    let ghost rest = as_nats(stack@);
    let ghost wanted = references_last_first(kids_of(node@));
    assert(rest + wanted =~= as_nats(stack@) + wanted);
    if let Object::Dictionary(dict) = node {
        let key = names::kids();
        if let Some(Object::Array(items)) = dict.get(key.as_slice()) {
            let ghost kids = items_view(items@);
            proof {
                lemma_items_view(items@);
                assert(kids_of(node@) == kids);
                assert(kids.take(kids.len() as int) =~= kids);
            }
            let mut k: usize = items.len();
            while k > 0
                invariant
                    k <= items.len(),
                    kids == items_view(items@),
                    kids.len() == items.len(),
                    forall|i: int| 0 <= i < items.len() ==> #[trigger] kids[i] == items[i]@,
                    rest + references_last_first(kids) == as_nats(stack@) + references_last_first(
                        kids.take(k as int),
                    ),
                decreases k,
            {
                k -= 1;
                let ghost before = as_nats(stack@);
                proof {
                    assert(kids.take(k + 1).drop_last() =~= kids.take(k as int));
                    assert(kids.take(k + 1).last() == items[k as int]@);
                }
                if let Object::Reference(id) = &items[k] {
                    stack.push(*id);
                    proof {
                        assert(as_nats(stack@) =~= before + seq![*id as nat]);
                        assert((before + seq![*id as nat]) + references_last_first(
                            kids.take(k as int),
                        ) =~= before + (seq![*id as nat] + references_last_first(
                            kids.take(k as int),
                        )));
                    }
                } else {
                    proof {
                        assert(reference_in(items[k as int]@) =~= Seq::<nat>::empty());
                        assert(Seq::<nat>::empty() + references_last_first(kids.take(k as int))
                            =~= references_last_first(kids.take(k as int)));
                    }
                }
            }
            proof {
                assert(kids.take(0) =~= Seq::<ObjectView>::empty());
                assert(as_nats(stack@) + Seq::<nat>::empty() =~= as_nats(stack@));
            }
        } else {
            assert(wanted =~= Seq::<nat>::empty());
            assert(rest + wanted =~= rest);
        }
    } else {
        assert(wanted =~= Seq::<nat>::empty());
        assert(rest + wanted =~= rest);
    }
}

/// Finds the root of the page tree.
pub fn find_page_tree_root(doc: &Document) -> (root: Option<u32>)
    ensures
        root is Some <==> page_tree_root(doc@) is Some,
        root matches Some(id) ==> Some(id as nat) == page_tree_root(doc@),
{
    let root_key = names::root();
    let pages_key = names::pages();
    match doc.trailer().get(root_key.as_slice()) {
        Some(Object::Reference(catalog)) => match doc.get(*catalog) {
            Some(Object::Dictionary(dict)) => match dict.get(pages_key.as_slice()) {
                Some(Object::Reference(id)) => Some(*id),
                _ => None,
            },
            _ => None,
        },
        _ => None,
    }
}

/// Lists the pages of a document in the order in which they are shown.
pub fn page_list(doc: &Document) -> (pages: Vec<u32>)
    ensures
        as_nats(pages@) == pages_of(doc@),
        pages.len() <= doc@.entries.len(),
{
    let mut pages: Vec<u32> = Vec::new();
    let root = match find_page_tree_root(doc) {
        Some(root) => root,
        None => {
            assert(as_nats(pages@) =~= Seq::<nat>::empty());
            return pages;
        },
    };
    let count = doc.len();
    let mut entered: Vec<bool> = Vec::new();
    let mut i: usize = 0;
    while i < count
        invariant
            i <= count,
            entered.len() == i,
            forall|k: int| 0 <= k < i ==> !(#[trigger] entered[k]),
        decreases count - i,
    {
        entered.push(false);
        i += 1;
    }
    let mut stack: Vec<u32> = Vec::new();
    stack.push(root);
    let ghost mut seen: Set<nat> = Set::empty();
    proof {
        assert(as_nats(stack@) =~= seq![root as nat]);
        assert(as_nats(pages@) + walk(doc@, as_nats(stack@), seen) =~= pages_of(doc@));
        lemma_unseen_all(doc@.entries);
    }
    while stack.len() > 0
        invariant
            count == doc@.entries.len(),
            pages.len() + unseen(doc@.entries, seen) <= count,
            entered.len() == count,
            forall|k: int|
                0 <= k < count ==> (#[trigger] entered[k] <==> seen.contains(doc@.entries[k].id)),
            as_nats(pages@) + walk(doc@, as_nats(stack@), seen) == pages_of(doc@),
        decreases unseen(doc@.entries, seen), stack.len(),
    {
        let ghost listed = as_nats(pages@);
        let ghost whole = as_nats(stack@);
        let id = stack.pop().unwrap();
        proof {
            assert(as_nats(stack@) =~= whole.drop_last());
            assert(whole.last() == id as nat);
        }
        doc.check();
        match doc.find(id) {
            None => {},
            Some(place) => {
                proof {
                    doc@.lemma_position(place as int);
                }
                if !entered[place] {
                    match role_of(doc.object_at(place)) {
                        Role::Page => {
                            pages.push(id);
                            entered.set(place, true);
                            proof {
                                lemma_unseen_insert(doc@.entries, seen, id as nat);
                                let tail = walk(doc@, as_nats(stack@), seen.insert(id as nat));
                                assert(as_nats(pages@) =~= listed + seq![id as nat]);
                                assert((listed + seq![id as nat]) + tail =~= listed + (seq![
                                    id as nat,
                                ] + tail));
                                assert forall|k: int| 0 <= k < count implies (#[trigger] entered[k]
                                    <==> seen.insert(id as nat).contains(doc@.entries[k].id)) by {
                                    if k != place {
                                        doc@.lemma_identifiers_distinct(k, place as int);
                                    }
                                }
                                seen = seen.insert(id as nat);
                            }
                        },
                        Role::PagesRoot => {
                            entered.set(place, true);
                            push_kids(&mut stack, doc.object_at(place));
                            proof {
                                lemma_unseen_insert(doc@.entries, seen, id as nat);
                                assert forall|k: int| 0 <= k < count implies (#[trigger] entered[k]
                                    <==> seen.insert(id as nat).contains(doc@.entries[k].id)) by {
                                    if k != place {
                                        doc@.lemma_identifiers_distinct(k, place as int);
                                    }
                                }
                                seen = seen.insert(id as nat);
                            }
                        },
                        _ => {},
                    }
                }
            },
        }
    }
    proof {
        assert(as_nats(pages@) + Seq::<nat>::empty() =~= as_nats(pages@));
    }
    pages
}

} // verus!
