//! What holds of every merged document, proved from the definition of the
//! merge.

use crate::document::ascending;
use crate::document::lemma_ascending_rank;
use crate::document::object_under;
use crate::document::DocumentView;
use crate::document::EntryView;
use crate::err::BuildInvoiceError;
use crate::merge::all_pages;
use crate::merge::assembled;
use crate::merge::catalog_object;
use crate::merge::counter_after;
use crate::merge::dict_of;
use crate::merge::first_pages;
use crate::merge::first_with_role;
use crate::merge::fits;
use crate::merge::kept;
use crate::merge::kept_list;
use crate::merge::last_renumbered;
use crate::merge::lemma_counter_grows;
use crate::merge::merged;
use crate::merge::merged_pages_dict;
use crate::merge::page_object;
use crate::merge::pages_root_object;
use crate::merge::plan_of;
use crate::merge::pool_of;
use crate::merge::pooled;
use crate::merge::references_to;
use crate::merge::retained;
use crate::merge::trailer_for;
use crate::merge::MergePlan;
use crate::object::bytes_of;
use crate::object::kind_name;
use crate::object::role;
use crate::object::ObjectView;
use crate::object::Role;
use crate::object::ScalarView;
use crate::outline::bookmarks_on;
use crate::outline::catalog_place;
use crate::outline::catalog_with_outline;
use crate::outline::outline_entries;
use crate::outline::outline_item;
use crate::outline::outline_root;
use crate::outline::outlined;
use crate::outline::rank_in;
use crate::outline::repaired;
use crate::outline::retargeted;
use crate::outline::BookmarkView;
use crate::pages::is_page;
use crate::pages::kids_of;
use crate::pages::lemma_pages_of;
use crate::pages::lemma_unseen_insert;
use crate::pages::page_tree_root;
use crate::pages::pages_of;
use crate::pages::reference_under;
use crate::pages::references_last_first;
use crate::pages::walk;
use crate::preserved::lemma_pages_shifted;
use crate::preserved::lemma_shifted_well_formed;
use crate::preserved::plus;
use crate::renumber::compacted;
use crate::renumber::dense_table;
use crate::renumber::lemma_renumbered_parts;
use crate::renumber::lemma_role_renumbered;
use crate::renumber::renumbered;
use crate::renumber::renumbered_dict;
use crate::renumber::renumbered_items;
use vstd::prelude::*;

verus! {

/// Whether every one of the documents is well formed.
pub open spec fn all_well_formed(docs: Seq<DocumentView>) -> bool {
    forall|j: int| 0 <= j < docs.len() ==> (#[trigger] docs[j]).well_formed()
}

/// Whether the entries ascend and lie from `low` up to, but not at, `high`.
pub open spec fn within(entries: Seq<EntryView>, low: nat, high: nat) -> bool {
    &&& forall|i: int, j: int| 0 <= i < j < entries.len() ==> entries[i].id < entries[j].id
    &&& forall|i: int| 0 <= i < entries.len() ==> low <= (#[trigger] entries[i]).id < high
}

/// The pool of well-formed documents that fit is well formed: the ranges of
/// the documents follow each other. Every page that a document shows is a
/// page of the pool, and none is shown twice.
pub proof fn lemma_pool(docs: Seq<DocumentView>)
    requires
        all_well_formed(docs),
        fits(docs),
    ensures
        pool_of(docs).well_formed(),
        within(pooled(docs), 1, counter_after(docs)),
        forall|k: int|
            0 <= k < all_pages(docs).len() ==> is_page(pool_of(docs), #[trigger] all_pages(docs)[k]),
        all_pages(docs).no_duplicates(),
        forall|k: int|
            0 <= k < first_pages(docs).len() ==> all_pages(docs).contains(
                #[trigger] first_pages(docs)[k],
            ),
    decreases docs.len(),
{
    if docs.len() == 0 {
    } else {
        let front = docs.drop_last();
        let offset = counter_after(front);
        assert(all_well_formed(front)) by {
            assert forall|j: int| 0 <= j < front.len() implies (#[trigger] front[j]).well_formed() by {
                assert(front[j] == docs[j]);
            }
        }
        assert(docs.last() == docs[docs.len() - 1]);
        lemma_pool(front);
        let last = last_renumbered(docs);
        lemma_shifted_well_formed(docs.last(), offset);
        let before = pooled(front);
        let whole = pooled(docs);
        assert(whole == before + last.entries);
        assert forall|i: int, j: int| 0 <= i < j < whole.len() implies whole[i].id
            < whole[j].id by {
            if j < before.len() {
                assert(before[i].id < before[j].id);
            } else if i < before.len() {
                assert(before[i].id < offset);
                assert(last.entries[j - before.len()].id >= offset + 1);
            } else {
                assert(last.entries[i - before.len()].id < last.entries[j - before.len()].id);
            }
        }
        assert forall|i: int| 0 <= i < whole.len() implies 1 <= (#[trigger] whole[i]).id
            < counter_after(docs) by {
            if i < before.len() {
                assert(1 <= before[i].id < offset);
            } else {
                assert(last.entries[i - before.len()].id <= last.max_id);
            }
        }
        let pool = pool_of(docs);
        let front_pool = pool_of(front);
        let shown = pages_of(last);
        lemma_pages_of(last);
        let pages = all_pages(docs);
        assert(pages == all_pages(front) + shown);
        assert forall|k: int| 0 <= k < pages.len() implies is_page(pool, #[trigger] pages[k]) by {
            if k < all_pages(front).len() {
                let id = all_pages(front)[k];
                assert(is_page(front_pool, id));
                let p = front_pool.position(id);
                assert(whole[p] == before[p]);
                pool.lemma_position(p);
            } else {
                let id = shown[k - all_pages(front).len()];
                assert(is_page(last, id));
                let p = last.position(id);
                assert(whole[before.len() + p] == last.entries[p]);
                pool.lemma_position(before.len() + p);
            }
        }
        assert forall|a: int, b: int| 0 <= a < pages.len() && 0 <= b < pages.len() && a
            != b implies pages[a] != pages[b] by {
            let split = all_pages(front).len();
            if a < split && b < split {
            } else if a >= split && b >= split {
                assert(shown[a - split] != shown[b - split]);
            } else {
                let (low, high) = if a < split {
                    (a, b)
                } else {
                    (b, a)
                };
                let early = all_pages(front)[low];
                assert(is_page(front_pool, early));
                assert(front_pool.entries[front_pool.position(early)].id < offset);
                let late = shown[high - split];
                assert(is_page(last, late));
                assert(last.entries[last.position(late)].id >= offset + 1);
            }
        }
        let firsts = first_pages(docs);
        assert forall|k: int| 0 <= k < firsts.len() implies pages.contains(#[trigger] firsts[k]) by {
            if k < first_pages(front).len() {
                let id = first_pages(front)[k];
                assert(all_pages(front).contains(id));
                let at = choose|at: int| 0 <= at < all_pages(front).len() && all_pages(front)[at] == id;
                assert(pages[at] == id);
            } else {
                assert(firsts[k] == shown[0]);
                assert(pages[all_pages(front).len() as int] == shown[0]);
            }
        }
    }
}

/// Whether one of the entries plays the part.
pub open spec fn holds_role(entries: Seq<EntryView>, part: Role) -> bool {
    exists|i: int| 0 <= i < entries.len() && role((#[trigger] entries[i]).object) == part
}

/// Whether an object of one of the documents plays the part.
pub open spec fn any_holds_role(docs: Seq<DocumentView>, part: Role) -> bool {
    exists|j: int| 0 <= j < docs.len() && holds_role((#[trigger] docs[j]).entries, part)
}

/// The first entry that plays a part is the earliest that does; there is
/// none where no entry plays the part.
pub proof fn lemma_first_with_role(entries: Seq<EntryView>, part: Role)
    ensures
        first_with_role(entries, part) is Some <==> holds_role(entries, part),
        first_with_role(entries, part) matches Some(first) ==> {
            &&& 0 <= first < entries.len()
            &&& role(entries[first].object) == part
            &&& forall|i: int| 0 <= i < first ==> role((#[trigger] entries[i]).object) != part
        },
    decreases entries.len(),
{
    if entries.len() > 0 {
        let front = entries.drop_last();
        lemma_first_with_role(front, part);
        match first_with_role(front, part) {
            Some(first) => {
                assert(front[first] == entries[first]);
                assert forall|i: int| 0 <= i < first implies role((#[trigger] entries[i]).object)
                    != part by {
                    assert(front[i] == entries[i]);
                }
            },
            None => {
                assert forall|i: int| 0 <= i < front.len() implies role(
                    (#[trigger] entries[i]).object,
                ) != part by {
                    assert(front[i] == entries[i]);
                }
                if holds_role(entries, part) {
                    let i = choose|i: int|
                        0 <= i < entries.len() && role((#[trigger] entries[i]).object) == part;
                    assert(i == entries.len() - 1);
                }
            },
        }
    }
}

/// The pool holds an object that plays a part just where one of the
/// documents does.
pub proof fn lemma_pool_roles(docs: Seq<DocumentView>, part: Role)
    requires
        all_well_formed(docs),
        fits(docs),
    ensures
        holds_role(pooled(docs), part) <==> any_holds_role(docs, part),
    decreases docs.len(),
{
    if docs.len() > 0 {
        let front = docs.drop_last();
        let offset = counter_after(front);
        assert(all_well_formed(front)) by {
            assert forall|j: int| 0 <= j < front.len() implies (#[trigger] front[j]).well_formed() by {
                assert(front[j] == docs[j]);
            }
        }
        assert(docs.last() == docs[docs.len() - 1]);
        lemma_pool_roles(front, part);
        lemma_shifted_well_formed(docs.last(), offset);
        let last = last_renumbered(docs);
        let before = pooled(front);
        let whole = pooled(docs);
        assert(whole == before + last.entries);
        if holds_role(whole, part) {
            let i = choose|i: int| 0 <= i < whole.len() && role((#[trigger] whole[i]).object) == part;
            if i < before.len() {
                assert(before[i] == whole[i]);
                assert(holds_role(before, part));
                let j = choose|j: int|
                    0 <= j < front.len() && holds_role((#[trigger] front[j]).entries, part);
                assert(front[j] == docs[j]);
            } else {
                let m = i - before.len();
                assert(last.entries[m] == whole[i]);
                assert(role(docs.last().entries[m].object) == part);
                assert(holds_role(docs[docs.len() - 1].entries, part));
            }
        }
        if any_holds_role(docs, part) {
            let j = choose|j: int| 0 <= j < docs.len() && holds_role((#[trigger] docs[j]).entries, part);
            if j < front.len() {
                assert(front[j] == docs[j]);
                assert(any_holds_role(front, part));
                let i = choose|i: int|
                    0 <= i < before.len() && role((#[trigger] before[i]).object) == part;
                assert(whole[i] == before[i]);
            } else {
                let m = choose|m: int|
                    0 <= m < docs[j].entries.len() && role((#[trigger] docs[j].entries[m]).object)
                        == part;
                assert(whole[before.len() + m] == last.entries[m]);
                assert(role(last.entries[m].object) == part);
            }
        }
    } else {
        assert(!any_holds_role(docs, part));
    }
}

/// Whether the dictionary names its kind as that of a pages root.
pub open spec fn is_pages_dict(dict: Map<Seq<u8>, ObjectView>) -> bool {
    dict.contains_key(bytes_of("Type"@)) && dict[bytes_of("Type"@)] == ObjectView::Primitive(
        ScalarView::Name(bytes_of("Pages"@)),
    )
}

/// The merged dictionary of pages roots is that of a pages root, where one
/// of the entries is a pages root.
pub proof fn lemma_merged_pages_dict(entries: Seq<EntryView>)
    requires
        holds_role(entries, Role::PagesRoot),
    ensures
        is_pages_dict(merged_pages_dict(entries)),
    decreases entries.len(),
{
    reveal_strlit("Pages");
    reveal_strlit("Catalog");
    reveal_strlit("Page");
    reveal_strlit("Outlines");
    reveal_strlit("Outline");
    let front = entries.drop_last();
    let i = choose|i: int| 0 <= i < entries.len() && role((#[trigger] entries[i]).object) == (
        Role::PagesRoot
    );
    if role(entries.last().object) is PagesRoot {
        let name = kind_name(entries.last().object)->0;
        assert(name == bytes_of("Pages"@)) by {
            if name == bytes_of("Catalog"@) {
                assert(name.len() == 7);
                assert(bytes_of("Pages"@).len() == 5);
            }
        }
    } else {
        assert(front[i] == entries[i]);
        lemma_merged_pages_dict(front);
    }
}

/// What is kept of an entry keeps its identifier and the part it plays.
pub proof fn lemma_kept(entry: EntryView, plan: MergePlan)
    requires
        is_pages_dict(plan.pages_dict),
    ensures
        kept(entry, plan) matches Some(stays) ==> stays.id == entry.id && role(stays.object)
            == role(entry.object),
{
    reveal(kept);
    reveal_strlit("Type");
    reveal_strlit("Pages");
    reveal_strlit("Catalog");
    reveal_strlit("Page");
    reveal_strlit("Outlines");
    reveal_strlit("Outline");
    reveal_strlit("Count");
    reveal_strlit("Kids");
    reveal_strlit("Parent");
    let kind = bytes_of("Type"@);
    assert(kind.len() == 4);
    assert(bytes_of("Pages"@).len() == 5);
    assert(bytes_of("Outlines"@).len() == 8);
    assert(bytes_of("Count"@).len() == 5);
    assert(bytes_of("Parent"@).len() == 6);
    assert(bytes_of("Kids"@)[0] != kind[0]);
    assert(bytes_of("Catalog"@).len() == 7);
    assert(bytes_of("Outline"@).len() == 7);
    assert(bytes_of("Page"@).len() == 4);
    match kept(entry, plan) {
        Some(stays) => {
            match role(entry.object) {
                Role::PagesRoot => {
                    assert(kind_name(stays.object) == Some(bytes_of("Pages"@)));
                },
                _ => {},
            }
        },
        None => {},
    }
}

/// The entries that are kept ascend within the bounds of the pool, and the
/// last of them is no higher than the last of the pool.
pub proof fn lemma_retained_within(entries: Seq<EntryView>, plan: MergePlan, low: nat, high: nat)
    requires
        within(entries, low, high),
        is_pages_dict(plan.pages_dict),
    ensures
        within(retained(entries, plan), low, high),
        retained(entries, plan).len() <= entries.len(),
        retained(entries, plan).len() > 0 ==> entries.len() > 0 && retained(
            entries,
            plan,
        ).last().id <= entries.last().id,
    decreases entries.len(),
{
    if entries.len() > 0 {
        let front = entries.drop_last();
        assert(within(front, low, high)) by {
            assert forall|i: int, j: int| 0 <= i < j < front.len() implies front[i].id
                < front[j].id by {
                assert(entries[i].id < entries[j].id);
            }
            assert forall|i: int| 0 <= i < front.len() implies low <= (#[trigger] front[i]).id
                < high by {
                assert(front[i] == entries[i]);
            }
        }
        lemma_retained_within(front, plan, low, high);
        lemma_kept(entries.last(), plan);
        let before = retained(front, plan);
        let whole = retained(entries, plan);
        assert(whole == before + kept_list(entries.last(), plan));
        if front.len() > 0 {
            assert(front.last() == entries[entries.len() - 2]);
            assert(entries[entries.len() - 2].id < entries[entries.len() - 1].id);
        }
        assert forall|a: int, b: int| 0 <= a < b < whole.len() implies whole[a].id
            < whole[b].id by {
            if b < before.len() {
                assert(before[a].id < before[b].id);
            } else {
                assert(whole[a] == before[a]);
                assert(before.last().id <= front.last().id);
                if a < before.len() - 1 {
                    assert(before[a].id < before[before.len() - 1].id);
                }
            }
        }
        assert forall|k: int| 0 <= k < whole.len() implies low <= (#[trigger] whole[k]).id
            < high by {
            if k < before.len() {
                assert(whole[k] == before[k]);
            } else {
                assert(low <= entries[entries.len() - 1].id < high);
            }
        }
    }
}

/// Each entry that is kept is what was kept of some entry of the pool.
pub proof fn lemma_retained_origin(entries: Seq<EntryView>, plan: MergePlan, k: int) -> (i: int)
    requires
        0 <= k < retained(entries, plan).len(),
    ensures
        0 <= i < entries.len(),
        kept(entries[i], plan) == Some(retained(entries, plan)[k]),
    decreases entries.len(),
{
    let front = entries.drop_last();
    let before = retained(front, plan);
    if k < before.len() {
        let i = lemma_retained_origin(front, plan, k);
        assert(front[i] == entries[i]);
        i
    } else {
        entries.len() - 1
    }
}

/// What is kept of an entry of the pool is among the entries that are kept.
pub proof fn lemma_retained_holds(entries: Seq<EntryView>, plan: MergePlan, i: int) -> (k: int)
    requires
        0 <= i < entries.len(),
        kept(entries[i], plan) is Some,
    ensures
        0 <= k < retained(entries, plan).len(),
        retained(entries, plan)[k] == kept(entries[i], plan)->0,
    decreases entries.len(),
{
    let front = entries.drop_last();
    let before = retained(front, plan);
    if i < front.len() {
        assert(front[i] == entries[i]);
        lemma_retained_holds(front, plan, i)
    } else {
        before.len() as int
    }
}

/// What the merged graph holds: the kept catalog and the kept pages root,
/// each the only one of its kind; every page that is shown, with the pages
/// root as its parent; and no other page.
pub open spec fn graph_holds(graph: DocumentView, pool: DocumentView, plan: MergePlan) -> bool {
    &&& graph.well_formed()
    &&& graph.max_id == pool.max_id
    &&& graph.trailer == trailer_for(plan.catalog)
    &&& graph.contains(plan.catalog)
    &&& pool.contains(plan.catalog)
    &&& role(object_under(pool, plan.catalog)) is Catalog
    &&& object_under(graph, plan.catalog) == catalog_object(
        object_under(pool, plan.catalog),
        plan,
    )
    &&& forall|i: int|
        0 <= i < graph.entries.len() && role((#[trigger] graph.entries[i]).object) is Catalog
            ==> graph.entries[i].id == plan.catalog
    &&& graph.contains(plan.pages_root)
    &&& object_under(graph, plan.pages_root) == pages_root_object(plan)
    &&& is_pages_dict(plan.pages_dict)
    &&& forall|i: int|
        0 <= i < graph.entries.len() && role((#[trigger] graph.entries[i]).object) is PagesRoot
            ==> graph.entries[i].id == plan.pages_root
    &&& forall|k: int|
        0 <= k < plan.pages.len() ==> graph.contains(#[trigger] plan.pages[k]) && object_under(
            graph,
            plan.pages[k],
        ) == page_object(object_under(pool, plan.pages[k]), plan)
    &&& forall|i: int|
        0 <= i < graph.entries.len() && role((#[trigger] graph.entries[i]).object) is Page
            ==> plan.pages.contains(graph.entries[i].id)
}

/// The merged graph of a well-formed pool holds what it should.
pub proof fn lemma_graph(pool: DocumentView, pages: Seq<nat>)
    requires
        pool.well_formed(),
        assembled(pool, pages) is Ok,
        forall|k: int| 0 <= k < pages.len() ==> is_page(pool, #[trigger] pages[k]),
    ensures
        graph_holds(assembled(pool, pages)->Ok_0, pool, plan_of(pool, pages)->Ok_0),
        plan_of(pool, pages) is Ok,
        plan_of(pool, pages)->Ok_0.pages == pages,
{
    let graph = assembled(pool, pages)->Ok_0;
    let plan = plan_of(pool, pages)->Ok_0;
    let entries = pool.entries;
    lemma_first_with_role(entries, Role::PagesRoot);
    lemma_first_with_role(entries, Role::Catalog);
    let c = first_with_role(entries, Role::Catalog)->0;
    let r = first_with_role(entries, Role::PagesRoot)->0;
    lemma_merged_pages_dict(entries);
    assert(within(entries, 1, pool.max_id + 1));
    lemma_retained_within(entries, plan, 1, pool.max_id + 1);
    assert(graph.well_formed());
    pool.lemma_position(c);
    pool.lemma_position(r);
    // The catalog.
    assert(kept(entries[c], plan) == Some(
        EntryView { id: plan.catalog, object: catalog_object(entries[c].object, plan) },
    )) by {
        reveal(kept);
    }
    let gc = lemma_retained_holds(entries, plan, c);
    graph.lemma_position(gc);
    // The pages root.
    assert(kept(entries[r], plan) == Some(
        EntryView { id: plan.pages_root, object: pages_root_object(plan) },
    )) by {
        reveal(kept);
    }
    let gr = lemma_retained_holds(entries, plan, r);
    graph.lemma_position(gr);
    assert forall|i: int|
        0 <= i < graph.entries.len() && role((#[trigger] graph.entries[i]).object) is Catalog implies graph.entries[i].id
        == plan.catalog by {
        let j = lemma_retained_origin(entries, plan, i);
        lemma_kept(entries[j], plan);
        reveal(kept);
    }
    assert forall|i: int|
        0 <= i < graph.entries.len() && role(
            (#[trigger] graph.entries[i]).object,
        ) is PagesRoot implies graph.entries[i].id == plan.pages_root by {
        let j = lemma_retained_origin(entries, plan, i);
        lemma_kept(entries[j], plan);
        reveal(kept);
    }
    assert forall|i: int|
        0 <= i < graph.entries.len() && role(
            (#[trigger] graph.entries[i]).object,
        ) is Page implies plan.pages.contains(graph.entries[i].id) by {
        let j = lemma_retained_origin(entries, plan, i);
        lemma_kept(entries[j], plan);
        reveal(kept);
    }
    assert forall|k: int| 0 <= k < plan.pages.len() implies graph.contains(
        #[trigger] plan.pages[k],
    ) && object_under(graph, plan.pages[k]) == page_object(
        object_under(pool, plan.pages[k]),
        plan,
    ) by {
        let id = plan.pages[k];
        assert(is_page(pool, id));
        let j = pool.position(id);
        assert(kept(entries[j], plan) == Some(
            EntryView { id, object: page_object(entries[j].object, plan) },
        )) by {
            reveal(kept);
        }
        let g = lemma_retained_holds(entries, plan, j);
        graph.lemma_position(g);
    }
}

/// The ranks of identifiers in a document.
pub open spec fn ranks_in(doc: DocumentView, ids: Seq<nat>) -> Seq<nat> {
    Seq::new(ids.len(), |k: int| rank_in(doc, ids[k]))
}

/// A compacted document is well formed and numbered from one without gaps.
/// Each object stands at its old place, renumbered, and plays its old part.
pub proof fn lemma_compacted(doc: DocumentView)
    requires
        doc.well_formed(),
    ensures
        compacted(doc).well_formed(),
        compacted(doc).entries.len() == doc.entries.len(),
        compacted(doc).max_id == doc.entries.len(),
        forall|i: int|
            0 <= i < doc.entries.len() ==> {
                &&& (#[trigger] compacted(doc).entries[i]).id == i + 1
                &&& compacted(doc).entries[i].object == renumbered(
                    doc.entries[i].object,
                    dense_table(doc),
                )
                &&& role(compacted(doc).entries[i].object) == role(doc.entries[i].object)
            },
    decreases doc.entries.len(),
{
    let dense = compacted(doc);
    assert forall|i: int| 0 <= i < doc.entries.len() implies role(
        (#[trigger] dense.entries[i]).object,
    ) == role(doc.entries[i].object) by {
        lemma_role_renumbered(doc.entries[i].object, dense_table(doc));
    }
    if doc.entries.len() > 0 {
        let ids = Seq::new(doc.entries.len(), |i: int| doc.entries[i].id as u32);
        assert(ascending(ids)) by {
            assert forall|i: int, j: int| 0 <= i < j < ids.len() implies ids[i] < ids[j] by {
                assert(doc.entries[i].id < doc.entries[j].id);
            }
        }
        assert(ids[0] == doc.entries[0].id);
        lemma_ascending_rank(ids, doc.entries.len() - 1);
        assert(ids[doc.entries.len() - 1] == doc.entries[doc.entries.len() - 1].id);
    }
}

/// An object of a document is found in the compacted document under its
/// rank, renumbered.
pub proof fn lemma_compacted_under(doc: DocumentView, id: nat)
    requires
        doc.well_formed(),
        doc.contains(id),
    ensures
        dense_table(doc).contains_key(id),
        dense_table(doc)[id] == rank_in(doc, id),
        1 <= rank_in(doc, id) <= doc.entries.len(),
        compacted(doc).contains(rank_in(doc, id)),
        compacted(doc).position(rank_in(doc, id)) == doc.position(id),
        object_under(compacted(doc), rank_in(doc, id)) == renumbered(
            object_under(doc, id),
            dense_table(doc),
        ),
        role(object_under(compacted(doc), rank_in(doc, id))) == role(object_under(doc, id)),
{
    lemma_compacted(doc);
    let i = doc.position(id);
    assert(compacted(doc).entries[i].id == i + 1);
    compacted(doc).lemma_position(i);
}

/// What holds of a merged document around its catalog, its pages root and
/// its pages.
///
/// The identifiers run from one without gaps. The trailer names the
/// catalog, the only one; the catalog names the pages root, the only one.
/// The pages root counts the pages and refers to them in their order. Each
/// of them is a page whose parent is the pages root, none is listed twice,
/// and the document holds no other page.
pub open spec fn merged_around(doc: DocumentView, catalog: nat, root: nat, kids: Seq<nat>) -> bool {
    &&& doc.well_formed()
    &&& doc.max_id == doc.entries.len()
    &&& forall|i: int| 0 <= i < doc.entries.len() ==> (#[trigger] doc.entries[i]).id == i + 1
    &&& reference_under(doc.trailer, bytes_of("Root"@)) == Some(catalog)
    &&& doc.contains(catalog)
    &&& role(object_under(doc, catalog)) is Catalog
    &&& forall|i: int|
        0 <= i < doc.entries.len() && role((#[trigger] doc.entries[i]).object) is Catalog
            ==> doc.entries[i].id == catalog
    &&& reference_under(dict_of(object_under(doc, catalog)), bytes_of("Pages"@)) == Some(root)
    &&& doc.contains(root)
    &&& role(object_under(doc, root)) is PagesRoot
    &&& forall|i: int|
        0 <= i < doc.entries.len() && role((#[trigger] doc.entries[i]).object) is PagesRoot
            ==> doc.entries[i].id == root
    &&& dict_of(object_under(doc, root)).contains_key(bytes_of("Count"@))
    &&& dict_of(object_under(doc, root))[bytes_of("Count"@)] == ObjectView::Primitive(
        ScalarView::Integer(kids.len() as int),
    )
    &&& dict_of(object_under(doc, root)).contains_key(bytes_of("Kids"@))
    &&& dict_of(object_under(doc, root))[bytes_of("Kids"@)] == ObjectView::Array(
        references_to(kids),
    )
    &&& kids.no_duplicates()
    &&& forall|k: int|
        0 <= k < kids.len() ==> is_page(doc, #[trigger] kids[k]) && reference_under(
            dict_of(object_under(doc, kids[k])),
            bytes_of("Parent"@),
        ) == Some(root)
    &&& forall|i: int|
        0 <= i < doc.entries.len() && role((#[trigger] doc.entries[i]).object) is Page
            ==> kids.contains(doc.entries[i].id)
}

/// The compacted graph is a merged document around the ranks of the kept
/// catalog, the kept pages root and the pages.
pub proof fn lemma_dense_shape(graph: DocumentView, pool: DocumentView, plan: MergePlan)
    requires
        graph_holds(graph, pool, plan),
        plan.pages.no_duplicates(),
        forall|k: int| 0 <= k < plan.pages.len() ==> is_page(pool, #[trigger] plan.pages[k]),
    ensures
        merged_around(
            compacted(graph),
            rank_in(graph, plan.catalog),
            rank_in(graph, plan.pages_root),
            ranks_in(graph, plan.pages),
        ),
        !dict_of(object_under(compacted(graph), rank_in(graph, plan.catalog))).contains_key(
            bytes_of("Outlines"@),
        ),
        object_under(compacted(graph), rank_in(graph, plan.catalog)) is Dictionary,
{
    reveal_strlit("Type");
    reveal_strlit("Pages");
    reveal_strlit("Outlines");
    reveal_strlit("Count");
    reveal_strlit("Kids");
    reveal_strlit("Parent");
    reveal_strlit("Root");
    reveal_strlit("Catalog");
    assert(bytes_of("Type"@).len() == 4);
    assert(bytes_of("Pages"@).len() == 5);
    assert(bytes_of("Outlines"@).len() == 8);
    assert(bytes_of("Count"@).len() == 5);
    assert(bytes_of("Kids"@).len() == 4);
    assert(bytes_of("Catalog"@).len() == 7);
    assert(bytes_of("Kids"@)[0] != bytes_of("Type"@)[0]);
    let dense = compacted(graph);
    let table = dense_table(graph);
    let c = rank_in(graph, plan.catalog);
    let r = rank_in(graph, plan.pages_root);
    let kids = ranks_in(graph, plan.pages);
    lemma_compacted(graph);
    lemma_compacted_under(graph, plan.catalog);
    lemma_compacted_under(graph, plan.pages_root);
    // The trailer.
    lemma_renumbered_parts(ObjectView::Reference(plan.catalog), table);
    assert(dense.trailer[bytes_of("Root"@)] == renumbered(
        graph.trailer[bytes_of("Root"@)],
        table,
    ));
    // The catalog.
    let old_catalog = object_under(graph, plan.catalog);
    lemma_renumbered_parts(old_catalog, table);
    assert(dict_of(object_under(dense, c)) == renumbered_dict(dict_of(old_catalog), table));
    assert(dict_of(old_catalog)[bytes_of("Pages"@)] == ObjectView::Reference(plan.pages_root));
    // The pages root.
    let old_root = object_under(graph, plan.pages_root);
    lemma_renumbered_parts(old_root, table);
    lemma_role_renumbered(old_root, table);
    let root_dict = dict_of(old_root);
    assert(dict_of(object_under(dense, r)) == renumbered_dict(root_dict, table));
    assert(root_dict[bytes_of("Kids"@)] == ObjectView::Array(references_to(plan.pages)));
    assert(root_dict[bytes_of("Count"@)] == ObjectView::Primitive(
        ScalarView::Integer(plan.pages.len() as int),
    ));
    lemma_renumbered_parts(root_dict[bytes_of("Kids"@)], table);
    assert(renumbered_items(references_to(plan.pages), table) =~= references_to(kids)) by {
        assert forall|k: int| 0 <= k < plan.pages.len() implies renumbered(
            #[trigger] references_to(plan.pages)[k],
            table,
        ) == references_to(kids)[k] by {
            lemma_compacted_under(graph, plan.pages[k]);
        }
    }
    assert(kind_name(old_root) == Some(bytes_of("Pages"@)));
    // The pages.
    assert forall|k: int| 0 <= k < kids.len() implies is_page(dense, #[trigger] kids[k])
        && reference_under(dict_of(object_under(dense, kids[k])), bytes_of("Parent"@)) == Some(
        r,
    ) by {
        let id = plan.pages[k];
        lemma_compacted_under(graph, id);
        let old_page = object_under(graph, id);
        lemma_renumbered_parts(old_page, table);
        assert(dict_of(old_page)[bytes_of("Parent"@)] == ObjectView::Reference(plan.pages_root));
        assert(dict_of(object_under(dense, kids[k])) == renumbered_dict(dict_of(old_page), table));
        let source = object_under(pool, id);
        assert(is_page(pool, id));
        assert(dict_of(old_page)[bytes_of("Type"@)] == dict_of(source)[bytes_of("Type"@)]);
        assert(role(old_page) is Page);
    }
    assert forall|a: int, b: int| 0 <= a < kids.len() && 0 <= b < kids.len() && a
        != b implies kids[a] != kids[b] by {
        lemma_compacted_under(graph, plan.pages[a]);
        lemma_compacted_under(graph, plan.pages[b]);
        let i = graph.position(plan.pages[a]);
        let j = graph.position(plan.pages[b]);
        assert(graph.entries[i].id == plan.pages[a]);
        assert(graph.entries[j].id == plan.pages[b]);
    }
    assert forall|i: int|
        0 <= i < dense.entries.len() && role(
            (#[trigger] dense.entries[i]).object,
        ) is Page implies kids.contains(dense.entries[i].id) by {
        assert(role(graph.entries[i].object) is Page);
        let id = graph.entries[i].id;
        assert(plan.pages.contains(id));
        let k = choose|k: int| 0 <= k < plan.pages.len() && plan.pages[k] == id;
        graph.lemma_position(i);
        assert(kids[k] == i + 1);
    }
    assert forall|i: int|
        0 <= i < dense.entries.len() && role(
            (#[trigger] dense.entries[i]).object,
        ) is Catalog implies dense.entries[i].id == c by {
        assert(role(graph.entries[i].object) is Catalog);
        graph.lemma_position(i);
    }
    assert forall|i: int|
        0 <= i < dense.entries.len() && role(
            (#[trigger] dense.entries[i]).object,
        ) is PagesRoot implies dense.entries[i].id == r by {
        assert(role(graph.entries[i].object) is PagesRoot);
        graph.lemma_position(i);
    }
}

/// The nodes of a navigation tree play no part in the page tree.
pub proof fn lemma_outline_roles(marks: Seq<BookmarkView>, root: nat, k: int)
    requires
        0 <= k <= marks.len(),
    ensures
        role(outline_entries(marks, root)[k].object) is Outline || role(
            outline_entries(marks, root)[k].object,
        ) is Other,
        outline_entries(marks, root)[k].id == root + k,
{
    reveal_strlit("Type");
    reveal_strlit("Catalog");
    reveal_strlit("Pages");
    reveal_strlit("Page");
    reveal_strlit("Outlines");
    reveal_strlit("Outline");
    reveal_strlit("Count");
    reveal_strlit("First");
    reveal_strlit("Last");
    reveal_strlit("Title");
    reveal_strlit("Parent");
    reveal_strlit("Dest");
    reveal_strlit("C");
    reveal_strlit("Prev");
    reveal_strlit("Next");
    let kind = bytes_of("Type"@);
    assert(kind.len() == 4);
    assert(bytes_of("Count"@).len() == 5);
    assert(bytes_of("First"@).len() == 5);
    assert(bytes_of("Last"@)[0] != kind[0]);
    assert(bytes_of("Title"@).len() == 5);
    assert(bytes_of("Parent"@).len() == 6);
    assert(bytes_of("Dest"@)[0] != kind[0]);
    assert(bytes_of("C"@).len() == 1);
    assert(bytes_of("Prev"@)[0] != kind[0]);
    assert(bytes_of("Next"@)[0] != kind[0]);
    assert(bytes_of("Outlines"@).len() == 8);
    assert(bytes_of("Catalog"@).len() == 7);
    assert(bytes_of("Pages"@).len() == 5);
    assert(bytes_of("Page"@).len() == 4);
    if k == 0 {
        assert(kind_name(outline_root(root, marks.len())) == Some(bytes_of("Outlines"@)));
    } else {
        let item = outline_item(marks[k - 1], k - 1, marks.len(), root);
        assert(!dict_of(item).contains_key(kind));
    }
}

/// Attaching a navigation tree to a merged document leaves it a merged
/// document around the same catalog, pages root and pages. It fails only
/// where the identifiers run out.
pub proof fn lemma_outlined_shape(
    doc: DocumentView,
    marks: Seq<BookmarkView>,
    catalog: nat,
    root: nat,
    kids: Seq<nat>,
)
    requires
        merged_around(doc, catalog, root, kids),
    ensures
        outlined(doc, marks) is Ok <==> (marks.len() == 0 || doc.max_id + 1 + marks.len()
            <= u32::MAX),
        outlined(doc, marks) is Err ==> outlined(doc, marks) == Err::<
            DocumentView,
            BuildInvoiceError,
        >(BuildInvoiceError::IdentifierSpaceExhausted),
        outlined(doc, marks) matches Ok(out) ==> {
            &&& merged_around(out, catalog, root, kids)
            &&& marks.len() == 0 ==> out == doc
            &&& marks.len() > 0 ==> {
                &&& out.entries.len() == doc.entries.len() + 1 + marks.len()
                &&& reference_under(dict_of(object_under(out, catalog)), bytes_of("Outlines"@))
                    == Some(doc.max_id + 1)
                &&& forall|i: int|
                    0 <= i < doc.entries.len() && i != doc.position(catalog) ==> #[trigger] out.entries[i]
                        == doc.entries[i]
                &&& forall|k: int|
                    0 <= k <= marks.len() ==> #[trigger] out.entries[doc.entries.len() + k]
                        == outline_entries(marks, doc.max_id + 1)[k]
            }
        },
{
    reveal_strlit("Type");
    reveal_strlit("Pages");
    reveal_strlit("Outlines");
    reveal_strlit("Catalog");
    assert(bytes_of("Type"@).len() == 4);
    assert(bytes_of("Pages"@).len() == 5);
    assert(bytes_of("Outlines"@).len() == 8);
    if marks.len() > 0 && doc.max_id + 1 + marks.len() <= u32::MAX {
        let place = doc.position(catalog);
        assert(catalog_place(doc) == Some(place));
        let out = outlined(doc, marks)->Ok_0;
        let count = doc.entries.len();
        let tree = outline_entries(marks, doc.max_id + 1);
        let changed = catalog_with_outline(doc.entries[place], doc.max_id + 1);
        assert(out.entries == doc.entries.update(place, changed) + tree);
        assert(role(changed.object) is Catalog) by {
            assert(dict_of(changed.object)[bytes_of("Type"@)] == dict_of(
                doc.entries[place].object,
            )[bytes_of("Type"@)]);
        }
        assert forall|i: int| 0 <= i < out.entries.len() implies (#[trigger] out.entries[i]).id
            == i + 1 by {
            if i >= count {
                lemma_outline_roles(marks, doc.max_id + 1, i - count);
                assert(out.entries[i] == tree[i - count]);
            } else if i == place {
            } else {
                assert(out.entries[i] == doc.entries[i]);
            }
        }
        assert(out.well_formed());
        assert forall|i: int| 0 <= i < count implies role((#[trigger] out.entries[i]).object)
            == role(doc.entries[i].object) by {
            if i != place {
                assert(out.entries[i] == doc.entries[i]);
            }
        }
        assert forall|i: int| count <= i < out.entries.len() implies (role(
            (#[trigger] out.entries[i]).object,
        ) is Outline || role(out.entries[i].object) is Other) by {
            lemma_outline_roles(marks, doc.max_id + 1, i - count);
            assert(out.entries[i] == tree[i - count]);
        }
        out.lemma_position(place);
        let r = doc.position(root);
        out.lemma_position(r);
        assert(r != place) by {
            assert(role(doc.entries[r].object) is PagesRoot);
        }
        assert(out.entries[r] == doc.entries[r]);
        assert forall|k: int| 0 <= k < kids.len() implies is_page(out, #[trigger] kids[k])
            && reference_under(dict_of(object_under(out, kids[k])), bytes_of("Parent"@)) == Some(
            root,
        ) by {
            assert(is_page(doc, kids[k]));
            let p = doc.position(kids[k]);
            out.lemma_position(p);
            assert(out.entries[p] == doc.entries[p]);
        }
        assert forall|i: int|
            0 <= i < out.entries.len() && role(
                (#[trigger] out.entries[i]).object,
            ) is Page implies kids.contains(out.entries[i].id) by {
            assert(i < count);
            assert(role(doc.entries[i].object) is Page);
        }
        assert forall|i: int|
            0 <= i < out.entries.len() && role(
                (#[trigger] out.entries[i]).object,
            ) is Catalog implies out.entries[i].id == catalog by {
            assert(i < count);
            assert(role(doc.entries[i].object) is Catalog);
        }
        assert forall|i: int|
            0 <= i < out.entries.len() && role(
                (#[trigger] out.entries[i]).object,
            ) is PagesRoot implies out.entries[i].id == root by {
            assert(i < count);
            assert(role(doc.entries[i].object) is PagesRoot);
        }
        assert forall|k: int| 0 <= k <= marks.len() implies #[trigger] out.entries[count + k]
            == tree[k] by {}
    }
}

/// How many of the entries play the part.
pub open spec fn count_role(entries: Seq<EntryView>, part: Role) -> nat
    decreases entries.len(),
{
    if entries.len() == 0 {
        0
    } else {
        count_role(entries.drop_last(), part) + if role(entries.last().object) == part {
            1nat
        } else {
            0nat
        }
    }
}

/// How many of the entries are pages with an identifier among the given.
pub open spec fn count_pages_among(entries: Seq<EntryView>, ids: Set<nat>) -> nat
    decreases entries.len(),
{
    if entries.len() == 0 {
        0
    } else {
        count_pages_among(entries.drop_last(), ids) + if role(entries.last().object) is Page
            && ids.contains(entries.last().id) {
            1nat
        } else {
            0nat
        }
    }
}

/// An identifier that no entry has does not count.
proof fn lemma_count_without(entries: Seq<EntryView>, ids: Set<nat>, id: nat)
    requires
        forall|i: int| 0 <= i < entries.len() ==> (#[trigger] entries[i]).id != id,
    ensures
        count_pages_among(entries, ids.insert(id)) == count_pages_among(entries, ids),
    decreases entries.len(),
{
    if entries.len() > 0 {
        let front = entries.drop_last();
        assert forall|i: int| 0 <= i < front.len() implies (#[trigger] front[i]).id != id by {
            assert(front[i] == entries[i]);
        }
        lemma_count_without(front, ids, id);
        assert(entries.last() == entries[entries.len() - 1]);
    }
}

/// The identifier of one more page counts once.
proof fn lemma_count_with(entries: Seq<EntryView>, ids: Set<nat>, at: int)
    requires
        forall|i: int, j: int| 0 <= i < j < entries.len() ==> entries[i].id < entries[j].id,
        0 <= at < entries.len(),
        role(entries[at].object) is Page,
        !ids.contains(entries[at].id),
    ensures
        count_pages_among(entries, ids.insert(entries[at].id)) == count_pages_among(entries, ids)
            + 1,
    decreases entries.len(),
{
    let front = entries.drop_last();
    let id = entries[at].id;
    if at == entries.len() - 1 {
        assert forall|i: int| 0 <= i < front.len() implies (#[trigger] front[i]).id != id by {
            assert(front[i] == entries[i]);
            assert(entries[i].id < entries[at].id);
        }
        lemma_count_without(front, ids, id);
    } else {
        assert forall|i: int, j: int| 0 <= i < j < front.len() implies front[i].id
            < front[j].id by {
            assert(entries[i].id < entries[j].id);
        }
        assert(front[at] == entries[at]);
        lemma_count_with(front, ids, at);
        assert(entries[at].id < entries[entries.len() - 1].id);
    }
}

/// As many entries are pages among the listed as pages are listed, where
/// each of the listed is a page and none is listed twice.
proof fn lemma_count_listed(doc: DocumentView, kids: Seq<nat>)
    requires
        doc.ascends(),
        kids.no_duplicates(),
        forall|k: int| 0 <= k < kids.len() ==> is_page(doc, #[trigger] kids[k]),
    ensures
        count_pages_among(doc.entries, kids.to_set()) == kids.len(),
    decreases kids.len(),
{
    if kids.len() == 0 {
        assert(kids.to_set() =~= Set::<nat>::empty());
        lemma_count_none(doc.entries);
    } else {
        let front = kids.drop_last();
        let id = kids.last();
        assert forall|k: int| 0 <= k < front.len() implies is_page(doc, #[trigger] front[k]) by {
            assert(front[k] == kids[k]);
        }
        assert(front.no_duplicates()) by {
            assert forall|a: int, b: int|
                0 <= a < front.len() && 0 <= b < front.len() && a != b implies front[a]
                != front[b] by {
                assert(kids[a] != kids[b]);
            }
        }
        lemma_count_listed(doc, front);
        assert(!front.to_set().contains(id)) by {
            if front.to_set().contains(id) {
                let k = choose|k: int| 0 <= k < front.len() && front[k] == id;
                assert(kids[k] == kids[kids.len() - 1]);
            }
        }
        assert(kids.to_set() =~= front.to_set().insert(id)) by {
            assert forall|x: nat| kids.to_set().contains(x) implies front.to_set().insert(
                id,
            ).contains(x) by {
                let k = choose|k: int| 0 <= k < kids.len() && kids[k] == x;
                if k < front.len() {
                    assert(front[k] == x);
                }
            }
            assert forall|x: nat| front.to_set().insert(id).contains(
                x,
            ) implies kids.to_set().contains(x) by {
                if x == id {
                    assert(kids[kids.len() - 1] == x);
                } else {
                    let k = choose|k: int| 0 <= k < front.len() && front[k] == x;
                    assert(kids[k] == x);
                }
            }
        }
        assert(is_page(doc, kids[kids.len() - 1]));
        lemma_count_with(doc.entries, front.to_set(), doc.position(id));
    }
}

/// Among no identifiers, no entry counts.
proof fn lemma_count_none(entries: Seq<EntryView>)
    ensures
        count_pages_among(entries, Set::<nat>::empty()) == 0,
    decreases entries.len(),
{
    if entries.len() > 0 {
        lemma_count_none(entries.drop_last());
    }
}

/// Where every page is among the listed, the pages among the listed are
/// all the pages.
proof fn lemma_count_all(entries: Seq<EntryView>, ids: Set<nat>)
    requires
        forall|i: int|
            0 <= i < entries.len() && role((#[trigger] entries[i]).object) is Page ==> ids.contains(
                entries[i].id,
            ),
    ensures
        count_role(entries, Role::Page) == count_pages_among(entries, ids),
    decreases entries.len(),
{
    if entries.len() > 0 {
        let front = entries.drop_last();
        assert forall|i: int|
            0 <= i < front.len() && role((#[trigger] front[i]).object) is Page implies ids.contains(
            front[i].id,
        ) by {
            assert(front[i] == entries[i]);
        }
        lemma_count_all(front, ids);
        assert(entries.last() == entries[entries.len() - 1]);
    }
}

/// A merged document holds as many pages as its pages root counts.
pub proof fn lemma_page_count(doc: DocumentView, catalog: nat, root: nat, kids: Seq<nat>)
    requires
        merged_around(doc, catalog, root, kids),
    ensures
        count_role(doc.entries, Role::Page) == kids.len(),
{
    lemma_count_listed(doc, kids);
    assert forall|i: int|
        0 <= i < doc.entries.len() && role(
            (#[trigger] doc.entries[i]).object,
        ) is Page implies kids.to_set().contains(doc.entries[i].id) by {
        assert(kids.contains(doc.entries[i].id));
    }
    lemma_count_all(doc.entries, kids.to_set());
}

/// The given identifiers, last first.
pub open spec fn last_first(ids: Seq<nat>) -> Seq<nat> {
    Seq::new(ids.len(), |i: int| ids[ids.len() - 1 - i])
}

/// The references to identifiers name them.
proof fn lemma_references_last_first(ids: Seq<nat>)
    ensures
        references_last_first(references_to(ids)) == last_first(ids),
    decreases ids.len(),
{
    if ids.len() > 0 {
        let front = ids.drop_last();
        lemma_references_last_first(front);
        assert(references_to(ids).drop_last() =~= references_to(front));
        assert(references_to(ids).last() == ObjectView::Reference(ids.last()));
        assert(seq![ids.last()] + last_first(front) =~= last_first(ids));
    } else {
        assert(last_first(ids) =~= Seq::<nat>::empty());
    }
}

/// Walking a stack of unseen pages lists them, the last one first.
proof fn lemma_walk_pages(doc: DocumentView, stack: Seq<nat>, seen: Set<nat>)
    requires
        stack.no_duplicates(),
        forall|k: int|
            0 <= k < stack.len() ==> is_page(doc, #[trigger] stack[k]) && !seen.contains(stack[k]),
    ensures
        walk(doc, stack, seen) == last_first(stack),
    decreases stack.len(),
{
    if stack.len() == 0 {
        assert(last_first(stack) =~= Seq::<nat>::empty());
    } else {
        let id = stack.last();
        let rest = stack.drop_last();
        assert(is_page(doc, stack[stack.len() - 1]));
        assert forall|k: int| 0 <= k < rest.len() implies is_page(doc, #[trigger] rest[k])
            && !seen.insert(id).contains(rest[k]) by {
            assert(rest[k] == stack[k]);
            assert(stack[k] != stack[stack.len() - 1]);
        }
        assert(rest.no_duplicates()) by {
            assert forall|a: int, b: int|
                0 <= a < rest.len() && 0 <= b < rest.len() && a != b implies rest[a]
                != rest[b] by {
                assert(stack[a] != stack[b]);
            }
        }
        lemma_unseen_insert(doc.entries, seen, id);
        lemma_walk_pages(doc, rest, seen.insert(id));
        assert(seq![id] + last_first(rest) =~= last_first(stack));
    }
}

/// Reading a merged document from its trailer, through its catalog and its
/// pages root, finds its pages in their order.
pub proof fn lemma_pages_of_merged(doc: DocumentView, catalog: nat, root: nat, kids: Seq<nat>)
    requires
        merged_around(doc, catalog, root, kids),
    ensures
        page_tree_root(doc) == Some(root),
        pages_of(doc) == kids,
{
    let cat = object_under(doc, catalog);
    assert(cat is Dictionary);
    assert(doc.get(catalog) == Some(cat));
    assert(page_tree_root(doc) == Some(root));
    let node = object_under(doc, root);
    assert(node is Dictionary);
    assert(kids_of(node) == references_to(kids));
    lemma_references_last_first(kids);
    let stack = last_first(kids);
    let start = seq![root];
    let seen = Set::<nat>::empty().insert(root);
    assert(start.drop_last() + stack =~= stack);
    lemma_unseen_insert(doc.entries, Set::<nat>::empty(), root);
    assert(walk(doc, start, Set::<nat>::empty()) == walk(doc, stack, seen));
    assert(stack.no_duplicates()) by {
        assert forall|a: int, b: int|
            0 <= a < stack.len() && 0 <= b < stack.len() && a != b implies stack[a]
            != stack[b] by {
            assert(kids[kids.len() - 1 - a] != kids[kids.len() - 1 - b]);
        }
    }
    assert forall|k: int| 0 <= k < stack.len() implies is_page(doc, #[trigger] stack[k])
        && !seen.contains(stack[k]) by {
        assert(is_page(doc, kids[kids.len() - 1 - k]));
    }
    lemma_walk_pages(doc, stack, seen);
    assert(last_first(stack) =~= kids);
}

/// The merged graph of the documents, before it is compacted.
pub open spec fn merged_graph(docs: Seq<DocumentView>) -> DocumentView {
    assembled(pool_of(docs), all_pages(docs))->Ok_0
}

/// The identifier of the catalog of the merged document.
pub open spec fn merged_catalog(docs: Seq<DocumentView>) -> nat {
    rank_in(merged_graph(docs), plan_of(pool_of(docs), all_pages(docs))->Ok_0.catalog)
}

/// The identifier of the pages root of the merged document.
pub open spec fn merged_pages_root(docs: Seq<DocumentView>) -> nat {
    rank_in(merged_graph(docs), plan_of(pool_of(docs), all_pages(docs))->Ok_0.pages_root)
}

/// The identifiers of the pages of the merged document, in its order: the
/// pages of the first document as it shows them, then those of the second,
/// and so on.
pub open spec fn merged_kids(docs: Seq<DocumentView>) -> Seq<nat> {
    ranks_in(merged_graph(docs), all_pages(docs))
}

/// The bookmarks of the merged document: one for each document that shows
/// a page, numbered from one, on the first page that the document shows.
pub open spec fn merged_marks(docs: Seq<DocumentView>) -> Seq<BookmarkView> {
    bookmarks_on(ranks_in(merged_graph(docs), first_pages(docs)))
}

/// Whether the navigation tree can be numbered within 32 bits.
pub open spec fn outline_fits(docs: Seq<DocumentView>) -> bool {
    first_pages(docs).len() == 0 || merged_graph(docs).entries.len() + 1 + first_pages(
        docs,
    ).len() <= u32::MAX
}

/// When merging fails, and what holds of the document that it yields.
///
/// Merging fails where the identifiers of the documents cannot be had
/// within 32 bits; else where no document holds a pages root; else where no
/// document holds a catalog; else where the identifiers of the navigation
/// tree cannot be had within 32 bits. In every other case it yields a
/// document with one catalog and one pages root, whose pages are those of
/// the documents in their order, each with the pages root as its parent,
/// and whose identifiers run from one without gaps. Each page is the page
/// of the pool at its place in the order, with its parent set and its
/// references renumbered. Behind the objects of the graph stands the
/// navigation tree, with a bookmark on the first page of each document that
/// shows one.
pub proof fn lemma_merged(docs: Seq<DocumentView>)
    requires
        all_well_formed(docs),
    ensures
        !fits(docs) ==> merged(docs) == Err::<DocumentView, BuildInvoiceError>(
            BuildInvoiceError::IdentifierSpaceExhausted,
        ),
        fits(docs) && !any_holds_role(docs, Role::PagesRoot) ==> merged(docs) == Err::<
            DocumentView,
            BuildInvoiceError,
        >(BuildInvoiceError::NoPagesRoot),
        fits(docs) && any_holds_role(docs, Role::PagesRoot) && !any_holds_role(
            docs,
            Role::Catalog,
        ) ==> merged(docs) == Err::<DocumentView, BuildInvoiceError>(
            BuildInvoiceError::NoCatalogRoot,
        ),
        fits(docs) && any_holds_role(docs, Role::PagesRoot) && any_holds_role(
            docs,
            Role::Catalog,
        ) && !outline_fits(docs) ==> merged(docs) == Err::<DocumentView, BuildInvoiceError>(
            BuildInvoiceError::IdentifierSpaceExhausted,
        ),
        fits(docs) && any_holds_role(docs, Role::PagesRoot) && any_holds_role(
            docs,
            Role::Catalog,
        ) && outline_fits(docs) ==> merged(docs) is Ok,
        merged(docs) matches Ok(out) ==> {
            &&& merged_around(
                out,
                merged_catalog(docs),
                merged_pages_root(docs),
                merged_kids(docs),
            )
            &&& merged_kids(docs).len() == all_pages(docs).len()
            &&& forall|k: int|
                0 <= k < all_pages(docs).len() ==> object_under(out, #[trigger] merged_kids(docs)[k])
                    == renumbered(
                    page_object(
                        object_under(pool_of(docs), all_pages(docs)[k]),
                        plan_of(pool_of(docs), all_pages(docs))->Ok_0,
                    ),
                    dense_table(merged_graph(docs)),
                )
            &&& out.entries.len() == merged_graph(docs).entries.len() + if first_pages(
                docs,
            ).len() == 0 {
                0
            } else {
                1 + first_pages(docs).len()
            }
            &&& first_pages(docs).len() > 0 ==> {
                &&& reference_under(
                    dict_of(object_under(out, merged_catalog(docs))),
                    bytes_of("Outlines"@),
                ) == Some(merged_graph(docs).entries.len() + 1)
                &&& forall|k: int|
                    0 <= k <= first_pages(docs).len() ==> #[trigger] out.entries[merged_graph(
                        docs,
                    ).entries.len() + k] == outline_entries(
                        merged_marks(docs),
                        merged_graph(docs).entries.len() + 1,
                    )[k]
                &&& forall|k: int|
                    0 <= k < first_pages(docs).len() ==> merged_kids(docs).contains(
                        #[trigger] merged_marks(docs)[k].target,
                    )
            }
        },
{
    if fits(docs) {
        lemma_pool(docs);
        lemma_pool_roles(docs, Role::PagesRoot);
        lemma_pool_roles(docs, Role::Catalog);
        let pool = pool_of(docs);
        let pages = all_pages(docs);
        lemma_first_with_role(pool.entries, Role::PagesRoot);
        lemma_first_with_role(pool.entries, Role::Catalog);
        if assembled(pool, pages) is Ok {
            let graph = merged_graph(docs);
            let plan = plan_of(pool, pages)->Ok_0;
            lemma_merge_stages(docs);
            let dense = compacted(graph);
            let kids = merged_kids(docs);
            let firsts = first_pages(docs);
            let marks = merged_marks(docs);
            lemma_outlined_shape(
                dense,
                marks,
                merged_catalog(docs),
                merged_pages_root(docs),
                kids,
            );
            if outlined(dense, marks) is Ok {
                let out = outlined(dense, marks)->Ok_0;
                assert forall|k: int| 0 <= k < pages.len() implies object_under(
                    out,
                    #[trigger] kids[k],
                ) == renumbered(
                    page_object(object_under(pool, pages[k]), plan),
                    dense_table(graph),
                ) by {
                    lemma_compacted_under(graph, pages[k]);
                    let place = dense.position(kids[k]);
                    assert(is_page(dense, kids[k]));
                    if firsts.len() > 0 {
                        assert(place != dense.position(merged_catalog(docs)));
                        assert(out.entries[place] == dense.entries[place]);
                        assert(out.entries[place].id == kids[k]);
                        out.lemma_position(place);
                    }
                }
            }
        }
    }
}

/// The stages of a merge whose graph can be built: the graph is well
/// formed, the compacted graph is a merged document, the bookmarks lead to
/// pages and need no repair, and the merge yields the compacted graph with
/// the tree of the bookmarks.
pub proof fn lemma_merge_stages(docs: Seq<DocumentView>)
    requires
        all_well_formed(docs),
        fits(docs),
        assembled(pool_of(docs), all_pages(docs)) is Ok,
    ensures
        merged_graph(docs).well_formed(),
        graph_holds(
            merged_graph(docs),
            pool_of(docs),
            plan_of(pool_of(docs), all_pages(docs))->Ok_0,
        ),
        merged_around(
            compacted(merged_graph(docs)),
            merged_catalog(docs),
            merged_pages_root(docs),
            merged_kids(docs),
        ),
        merged(docs) == outlined(compacted(merged_graph(docs)), merged_marks(docs)),
        merged_marks(docs).len() == first_pages(docs).len(),
        forall|k: int|
            0 <= k < first_pages(docs).len() ==> merged_kids(docs).contains(
                #[trigger] merged_marks(docs)[k].target,
            ),
{
    lemma_pool(docs);
    let pool = pool_of(docs);
    let pages = all_pages(docs);
    let graph = merged_graph(docs);
    let plan = plan_of(pool, pages)->Ok_0;
    lemma_graph(pool, pages);
    lemma_dense_shape(graph, pool, plan);
    lemma_compacted(graph);
    let dense = compacted(graph);
    let kids = merged_kids(docs);
    let firsts = first_pages(docs);
    let moved = retargeted(bookmarks_on(firsts), graph);
    let marks = repaired(moved, dense);
    assert(marks =~= merged_marks(docs)) by {
        assert forall|k: int| 0 <= k < firsts.len() implies marks[k] == merged_marks(docs)[k] by {
            assert(pages.contains(firsts[k]));
            let at = choose|at: int| 0 <= at < pages.len() && pages[at] == firsts[k];
            assert(kids[at] == rank_in(graph, firsts[k]));
            assert(is_page(dense, kids[at]));
        }
    }
    assert forall|k: int| 0 <= k < firsts.len() implies kids.contains(
        #[trigger] merged_marks(docs)[k].target,
    ) by {
        assert(pages.contains(firsts[k]));
        let at = choose|at: int| 0 <= at < pages.len() && pages[at] == firsts[k];
        assert(kids[at] == rank_in(graph, firsts[k]));
    }
}

/// The pages of the merged document are the pages of the documents as the
/// documents show them: those of the last document follow those of the
/// documents before it, each under its identifier in the pool. The first
/// page of the last document, if it shows one, is the last of the first
/// pages.
pub proof fn lemma_pages_in_order(docs: Seq<DocumentView>)
    requires
        all_well_formed(docs),
        fits(docs),
        docs.len() > 0,
    ensures
        all_pages(docs) == all_pages(docs.drop_last()) + plus(
            pages_of(docs.last()),
            counter_after(docs.drop_last()),
        ),
        first_pages(docs) == first_pages(docs.drop_last()) + if pages_of(docs.last()).len() > 0 {
            seq![pages_of(docs.last())[0] + counter_after(docs.drop_last())]
        } else {
            Seq::<nat>::empty()
        },
{
    assert(docs.last() == docs[docs.len() - 1]);
    lemma_pages_shifted(docs.last(), counter_after(docs.drop_last()));
}

/// Merging one document shows the pages of that document, in its order.
pub proof fn lemma_single_document(doc: DocumentView)
    requires
        doc.well_formed(),
        fits(seq![doc]),
    ensures
        all_pages(seq![doc]) == plus(pages_of(doc), 1),
        merged_kids(seq![doc]).len() == pages_of(doc).len(),
{
    let docs = seq![doc];
    assert(all_well_formed(docs));
    lemma_pages_in_order(docs);
    assert(docs.drop_last() =~= Seq::<DocumentView>::empty());
    assert(all_pages(docs.drop_last()) =~= Seq::<nat>::empty());
    assert(counter_after(docs.drop_last()) == 1);
    assert(Seq::<nat>::empty() + plus(pages_of(doc), 1) =~= plus(pages_of(doc), 1));
}

/// The document at place `j` as it stands after renumbering.
pub open spec fn renumbered_at(docs: Seq<DocumentView>, j: int) -> DocumentView {
    last_renumbered(docs.take(j + 1))
}

/// The ranges of two renumbered documents do not overlap: every identifier
/// of the earlier document is below every identifier of the later one.
pub proof fn lemma_ranges_apart(docs: Seq<DocumentView>, a: int, b: int)
    requires
        all_well_formed(docs),
        fits(docs),
        0 <= a < b < docs.len(),
    ensures
        forall|i: int, k: int|
            0 <= i < renumbered_at(docs, a).entries.len() && 0 <= k < renumbered_at(
                docs,
                b,
            ).entries.len() ==> (#[trigger] renumbered_at(docs, a).entries[i]).id < (
            #[trigger] renumbered_at(docs, b).entries[k]).id,
{
    let early = docs.take(a + 1);
    let late = docs.take(b + 1);
    assert(early.last() == docs[a]);
    assert(late.last() == docs[b]);
    assert(early.drop_last() =~= docs.take(a));
    assert(late.drop_last() =~= docs.take(b));
    lemma_counter_grows(docs, b + 1);
    lemma_counter_grows(docs.take(b), a + 1);
    assert(docs.take(b).take(a + 1) =~= early);
    lemma_shifted_well_formed(docs[a], counter_after(docs.take(a)));
    lemma_shifted_well_formed(docs[b], counter_after(docs.take(b)));
    let first = renumbered_at(docs, a);
    let second = renumbered_at(docs, b);
    assert forall|i: int, k: int|
        0 <= i < first.entries.len() && 0 <= k < second.entries.len() implies (
    #[trigger] first.entries[i]).id < (#[trigger] second.entries[k]).id by {
        assert(first.entries[i].id <= first.max_id);
        assert(docs[b].entries[k].id >= 1);
    }
}

/// Where every document shows one page, the merged document shows as
/// many pages as there are documents.
pub proof fn lemma_one_page_each(docs: Seq<DocumentView>)
    requires
        all_well_formed(docs),
        fits(docs),
        forall|j: int| 0 <= j < docs.len() ==> pages_of(#[trigger] docs[j]).len() == 1,
    ensures
        all_pages(docs).len() == docs.len(),
        first_pages(docs) == all_pages(docs),
    decreases docs.len(),
{
    if docs.len() > 0 {
        let front = docs.drop_last();
        assert(all_well_formed(front)) by {
            assert forall|j: int| 0 <= j < front.len() implies (#[trigger] front[j]).well_formed() by {
                assert(front[j] == docs[j]);
            }
        }
        assert forall|j: int| 0 <= j < front.len() implies pages_of(#[trigger] front[j]).len()
            == 1 by {
            assert(front[j] == docs[j]);
        }
        lemma_counter_grows(docs, docs.len() - 1);
        assert(docs.take(docs.len() - 1) =~= front);
        lemma_one_page_each(front);
        lemma_pages_in_order(docs);
        assert(docs.last() == docs[docs.len() - 1]);
        let shown = plus(pages_of(docs.last()), counter_after(front));
        assert(shown =~= seq![pages_of(docs.last())[0] + counter_after(front)]);
    }
}

/// Documents that each show one page, and of which one holds a pages root
/// and one a catalog, merge into a document of as many pages as there are
/// documents, in the order of the documents, where the identifiers can be
/// had within 32 bits.
pub proof fn lemma_single_pages_merge(docs: Seq<DocumentView>)
    requires
        all_well_formed(docs),
        fits(docs),
        outline_fits(docs),
        any_holds_role(docs, Role::PagesRoot),
        any_holds_role(docs, Role::Catalog),
        forall|j: int| 0 <= j < docs.len() ==> pages_of(#[trigger] docs[j]).len() == 1,
    ensures
        merged(docs) is Ok,
        merged_around(
            merged(docs)->Ok_0,
            merged_catalog(docs),
            merged_pages_root(docs),
            merged_kids(docs),
        ),
        merged_kids(docs).len() == docs.len(),
        pages_of(merged(docs)->Ok_0) == merged_kids(docs),
        count_role(merged(docs)->Ok_0.entries, Role::Page) == docs.len(),
{
    lemma_merged(docs);
    lemma_one_page_each(docs);
    let out = merged(docs)->Ok_0;
    lemma_page_count(out, merged_catalog(docs), merged_pages_root(docs), merged_kids(docs));
    lemma_pages_of_merged(out, merged_catalog(docs), merged_pages_root(docs), merged_kids(docs));
}

/// Where no document holds a pages root, merging ends in the error that
/// says so, provided that the identifiers of the documents can be had
/// within 32 bits; beyond that, merging ends in the error of the
/// identifiers.
pub proof fn lemma_no_pages_root(docs: Seq<DocumentView>)
    requires
        all_well_formed(docs),
        !any_holds_role(docs, Role::PagesRoot),
    ensures
        fits(docs) ==> merged(docs) == Err::<DocumentView, BuildInvoiceError>(
            BuildInvoiceError::NoPagesRoot,
        ),
        !fits(docs) ==> merged(docs) == Err::<DocumentView, BuildInvoiceError>(
            BuildInvoiceError::IdentifierSpaceExhausted,
        ),
        merged(docs) is Err,
{
    lemma_merged(docs);
}

} // verus!
