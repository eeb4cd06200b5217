//! Where references lead: in a merged document, every reference leads to
//! an object of the document.

use crate::document::DocumentView;
use crate::merge::merged;
use crate::object::bytes_of;
use crate::object::ObjectView;
use crate::outline::catalog_with_outline;
use crate::outline::outline_entries;
use crate::outline::outline_item;
use crate::outline::outline_item_base;
use crate::outline::outline_root;
use crate::outline::outlined;
use crate::outline::BookmarkView;
use crate::pages::is_page;
use crate::renumber::compacted;
use crate::renumber::dense_table;
use crate::renumber::lemma_renumbered_parts;
use crate::renumber::renumbered;
use crate::renumber::renumbered_dict;
use crate::shape::all_well_formed;
use crate::shape::lemma_compacted;
use crate::shape::lemma_merge_stages;
use crate::shape::lemma_merged;
use crate::shape::lemma_outlined_shape;
use crate::shape::merged_around;
use crate::shape::merged_catalog;
use crate::shape::merged_graph;
use crate::shape::merged_kids;
use crate::shape::merged_marks;
use crate::shape::merged_pages_root;
use vstd::prelude::*;

verus! {

/// Whether every reference in an object names one of the identifiers.
pub open spec fn leads_within(obj: ObjectView, ids: Set<nat>) -> bool
    decreases obj,
{
    match obj {
        ObjectView::Primitive(_) => true,
        ObjectView::Reference(id) => ids.contains(id),
        ObjectView::Array(items) => forall|i: int|
            0 <= i < items.len() ==> leads_within(#[trigger] items[i], ids),
        ObjectView::Dictionary(dict) => forall|key: Seq<u8>|
            dict.contains_key(key) ==> leads_within(#[trigger] dict[key], ids),
        ObjectView::Stream(dict, _) => forall|key: Seq<u8>|
            dict.contains_key(key) ==> leads_within(#[trigger] dict[key], ids),
    }
}

/// Whether every value of a dictionary leads within the identifiers.
pub open spec fn dict_leads_within(dict: Map<Seq<u8>, ObjectView>, ids: Set<nat>) -> bool {
    forall|key: Seq<u8>| dict.contains_key(key) ==> leads_within(#[trigger] dict[key], ids)
}

/// Whether every reference in a document, and in its trailer, leads to an
/// object of the document.
pub open spec fn is_closed(doc: DocumentView) -> bool {
    &&& forall|i: int|
        0 <= i < doc.entries.len() ==> leads_within(
            (#[trigger] doc.entries[i]).object,
            Set::new(|id: nat| doc.contains(id)),
        )
    &&& dict_leads_within(doc.trailer, Set::new(|id: nat| doc.contains(id)))
}

/// What leads within some identifiers leads within more.
pub proof fn lemma_leads_within_more(obj: ObjectView, ids: Set<nat>, more: Set<nat>)
    requires
        leads_within(obj, ids),
        forall|id: nat| ids.contains(id) ==> more.contains(id),
    ensures
        leads_within(obj, more),
    decreases obj,
{
    match obj {
        ObjectView::Array(items) => {
            assert forall|i: int| 0 <= i < items.len() implies leads_within(
                #[trigger] items[i],
                more,
            ) by {
                lemma_leads_within_more(items[i], ids, more);
            }
        },
        ObjectView::Dictionary(dict) => {
            assert forall|key: Seq<u8>| dict.contains_key(key) implies leads_within(
                #[trigger] dict[key],
                more,
            ) by {
                lemma_leads_within_more(dict[key], ids, more);
            }
        },
        ObjectView::Stream(dict, _) => {
            assert forall|key: Seq<u8>| dict.contains_key(key) implies leads_within(
                #[trigger] dict[key],
                more,
            ) by {
                lemma_leads_within_more(dict[key], ids, more);
            }
        },
        _ => {},
    }
}

/// A renumbered object leads within the identifiers that the table gives
/// out.
pub proof fn lemma_renumbered_leads(obj: ObjectView, table: Map<nat, nat>, ids: Set<nat>)
    requires
        forall|id: nat| table.contains_key(id) ==> ids.contains(#[trigger] table[id]),
    ensures
        leads_within(renumbered(obj, table), ids),
    decreases obj,
{
    lemma_renumbered_parts(obj, table);
    match obj {
        ObjectView::Array(items) => {
            let out = renumbered(obj, table)->Array_0;
            assert forall|i: int| 0 <= i < out.len() implies leads_within(#[trigger] out[i], ids) by {
                lemma_renumbered_leads(items[i], table, ids);
            }
        },
        ObjectView::Dictionary(dict) => {
            let out = renumbered_dict(dict, table);
            assert forall|key: Seq<u8>| out.contains_key(key) implies leads_within(
                #[trigger] out[key],
                ids,
            ) by {
                lemma_renumbered_leads(dict[key], table, ids);
            }
        },
        ObjectView::Stream(dict, _) => {
            let out = renumbered_dict(dict, table);
            assert forall|key: Seq<u8>| out.contains_key(key) implies leads_within(
                #[trigger] out[key],
                ids,
            ) by {
                lemma_renumbered_leads(dict[key], table, ids);
            }
        },
        _ => {},
    }
}

/// In a compacted document every reference leads to an object of the
/// document.
pub proof fn lemma_compacted_closed(doc: DocumentView)
    requires
        doc.well_formed(),
    ensures
        is_closed(compacted(doc)),
{
    let dense = compacted(doc);
    let table = dense_table(doc);
    let ids = Set::new(|id: nat| dense.contains(id));
    lemma_compacted(doc);
    assert forall|id: nat| table.contains_key(id) implies ids.contains(#[trigger] table[id]) by {
        let place = doc.position(id);
        assert(dense.entries[place].id == place + 1);
    }
    assert forall|i: int| 0 <= i < dense.entries.len() implies leads_within(
        (#[trigger] dense.entries[i]).object,
        ids,
    ) by {
        lemma_renumbered_leads(doc.entries[i].object, table, ids);
    }
    assert forall|key: Seq<u8>| dense.trailer.contains_key(key) implies leads_within(
        #[trigger] dense.trailer[key],
        ids,
    ) by {
        lemma_renumbered_leads(doc.trailer[key], table, ids);
    }
}

/// The nodes of a navigation tree lead to each other and to the targets of
/// their bookmarks.
proof fn lemma_outline_leads(marks: Seq<BookmarkView>, root: nat, k: int, ids: Set<nat>)
    requires
        0 <= k <= marks.len(),
        marks.len() > 0,
        forall|id: nat| root <= id <= root + marks.len() ==> ids.contains(id),
        forall|j: int| 0 <= j < marks.len() ==> ids.contains(#[trigger] marks[j].target),
    ensures
        leads_within(outline_entries(marks, root)[k].object, ids),
{
    if k == 0 {
        let node = outline_root(root, marks.len())->Dictionary_0;
        assert(ids.contains(root + 1));
        assert(ids.contains(root + marks.len()));
        assert forall|key: Seq<u8>| node.contains_key(key) implies leads_within(
            #[trigger] node[key],
            ids,
        ) by {
            if key == bytes_of("Last"@) {
            } else if key == bytes_of("First"@) {
            } else if key == bytes_of("Count"@) {
            } else {
            }
        }
    } else {
        let i = k - 1;
        let mark = marks[i];
        assert(ids.contains(mark.target));
        let base = outline_item_base(mark, root);
        let dest = base[bytes_of("Dest"@)];
        let color = base[bytes_of("C"@)];
        assert(leads_within(dest, ids)) by {
            assert forall|j: int| 0 <= j < dest->Array_0.len() implies leads_within(
                #[trigger] dest->Array_0[j],
                ids,
            ) by {}
        }
        assert(leads_within(color, ids)) by {
            assert forall|j: int| 0 <= j < color->Array_0.len() implies leads_within(
                #[trigger] color->Array_0[j],
                ids,
            ) by {}
        }
        assert(dict_leads_within(base, ids));
        let node = outline_item(mark, i, marks.len(), root);
        assert(dict_leads_within(node->Dictionary_0, ids));
    }
}

/// Attaching the navigation tree to a merged document in which every
/// reference leads to an object leaves it so, where the bookmarks lead to
/// objects of the document.
pub proof fn lemma_outlined_closed(
    doc: DocumentView,
    marks: Seq<BookmarkView>,
    catalog: nat,
    root: nat,
    kids: Seq<nat>,
)
    requires
        merged_around(doc, catalog, root, kids),
        is_closed(doc),
        forall|j: int| 0 <= j < marks.len() ==> doc.contains(#[trigger] marks[j].target),
        outlined(doc, marks) is Ok,
    ensures
        is_closed(outlined(doc, marks)->Ok_0),
{
    let out = outlined(doc, marks)->Ok_0;
    lemma_outlined_shape(doc, marks, catalog, root, kids);
    if marks.len() > 0 {
        let old_ids = Set::new(|id: nat| doc.contains(id));
        let ids = Set::new(|id: nat| out.contains(id));
        let count = doc.entries.len();
        let tree_root = doc.max_id + 1;
        let place = doc.position(catalog);
        assert forall|id: nat| old_ids.contains(id) implies ids.contains(id) by {
            let p = doc.position(id);
            assert(out.entries[p].id == p + 1);
            assert(doc.entries[p].id == p + 1);
        }
        assert forall|id: nat| tree_root <= id <= tree_root + marks.len() implies ids.contains(
            id,
        ) by {
            let j = id - tree_root;
            assert(out.entries[count + j].id == count + j + 1);
        }
        assert forall|i: int| 0 <= i < out.entries.len() implies leads_within(
            (#[trigger] out.entries[i]).object,
            ids,
        ) by {
            if i >= count {
                assert(out.entries[count + (i - count)] == outline_entries(marks, tree_root)[i
                    - count]);
                assert forall|j: int| 0 <= j < marks.len() implies ids.contains(
                    #[trigger] marks[j].target,
                ) by {
                    assert(old_ids.contains(marks[j].target));
                }
                lemma_outline_leads(marks, tree_root, i - count, ids);
            } else if i == place {
                let before = doc.entries[place].object;
                lemma_leads_within_more(before, old_ids, ids);
                assert(ids.contains(tree_root));
                let changed = out.entries[place].object;
                assert(out.entries[place] == catalog_with_outline(doc.entries[place], tree_root));
                assert(dict_leads_within(changed->Dictionary_0, ids)) by {
                    assert forall|key: Seq<u8>|
                        changed->Dictionary_0.contains_key(key) implies leads_within(
                        #[trigger] changed->Dictionary_0[key],
                        ids,
                    ) by {
                        if key != bytes_of("Outlines"@) {
                            assert(before->Dictionary_0.contains_key(key));
                            assert(leads_within(before->Dictionary_0[key], ids));
                        }
                    }
                }
            } else {
                assert(out.entries[i] == doc.entries[i]);
                lemma_leads_within_more(doc.entries[i].object, old_ids, ids);
            }
        }
        assert forall|key: Seq<u8>| out.trailer.contains_key(key) implies leads_within(
            #[trigger] out.trailer[key],
            ids,
        ) by {
            lemma_leads_within_more(doc.trailer[key], old_ids, ids);
        }
    }
}

/// In a merged document every reference leads to an object of the
/// document: whatever led nowhere in a source document is the null object,
/// and nothing leads to an object that was left out.
pub proof fn lemma_merged_closed(docs: Seq<DocumentView>)
    requires
        all_well_formed(docs),
        merged(docs) is Ok,
    ensures
        is_closed(merged(docs)->Ok_0),
{
    lemma_merged(docs);
    let graph = merged_graph(docs);
    let dense = compacted(graph);
    lemma_merge_stages(docs);
    lemma_compacted_closed(graph);
    let marks = merged_marks(docs);
    let kids = merged_kids(docs);
    assert forall|j: int| 0 <= j < marks.len() implies dense.contains(
        #[trigger] marks[j].target,
    ) by {
        assert(kids.contains(marks[j].target));
        let k = choose|k: int| 0 <= k < kids.len() && kids[k] == marks[j].target;
        assert(is_page(dense, kids[k]));
    }
    lemma_outlined_closed(
        dense,
        marks,
        merged_catalog(docs),
        merged_pages_root(docs),
        kids,
    );
}

} // verus!
