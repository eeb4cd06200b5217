//! Merging the object graphs of several documents into one.
//!
//! The documents are renumbered into ranges that do not overlap and pooled.
//! From the pool the merged graph keeps one catalog, one pages root, the
//! pages that the documents show, and every object that plays no part in
//! page trees or navigation.

use crate::document::ascending;
use crate::document::entries_of;
use crate::document::Document;
use crate::document::DocumentView;
use crate::document::EntryView;
use crate::err::BuildInvoiceError;
use crate::names;
use crate::object::bytes_of;
use crate::object::copy_object;
use crate::object::items_view;
use crate::object::lemma_items_view_push;
use crate::object::role;
use crate::object::role_of;
use crate::object::Dictionary;
use crate::object::Object;
use crate::object::ObjectView;
use crate::object::Role;
use crate::object::Scalar;
use crate::object::ScalarView;
use crate::outline::adjust_zero_pages;
use crate::outline::attach_outline;
use crate::outline::bookmarks_on;
use crate::outline::make_bookmarks;
use crate::outline::outlined;
use crate::outline::repaired;
use crate::outline::retarget;
use crate::outline::retargeted;
use crate::pages::as_nats;
use crate::pages::page_list;
use crate::pages::pages_of;
use crate::references::is_closed;
use crate::references::lemma_merged_closed;
use crate::renumber::compact;
use crate::renumber::compacted;
use crate::renumber::renumber;
use crate::renumber::shifted;
use crate::shape::all_well_formed;
use crate::shape::any_holds_role;
use crate::shape::count_role;
use crate::shape::lemma_merged;
use crate::shape::lemma_page_count;
use crate::shape::lemma_pages_of_merged;
use crate::shape::merged_around;
use crate::shape::merged_catalog;
use crate::shape::merged_kids;
use crate::shape::merged_pages_root;
use crate::shape::outline_fits;
use vstd::prelude::*;

verus! {

/// The views of a list of documents.
pub open spec fn views_of(docs: Seq<Document>) -> Seq<DocumentView> {
    Seq::new(docs.len(), |i: int| docs[i]@)
}

/// The counter after the documents were renumbered: it starts at one, and
/// each document moves it past the highest identifier that the document has
/// on record.
pub open spec fn counter_after(docs: Seq<DocumentView>) -> nat
    decreases docs.len(),
{
    if docs.len() == 0 {
        1
    } else {
        counter_after(docs.drop_last()) + docs.last().max_id + 1
    }
}

/// Whether the documents can be renumbered within 32 bits.
pub open spec fn fits(docs: Seq<DocumentView>) -> bool {
    counter_after(docs) - 1 <= u32::MAX
}

/// The last of the documents as it stands after renumbering: shifted by the
/// counter that the documents before it have left.
pub open spec fn last_renumbered(docs: Seq<DocumentView>) -> DocumentView {
    shifted(docs.last(), counter_after(docs.drop_last()))
}

/// The entries of all documents after renumbering, in the order of the
/// documents.
pub open spec fn pooled(docs: Seq<DocumentView>) -> Seq<EntryView>
    decreases docs.len(),
{
    if docs.len() == 0 {
        Seq::empty()
    } else {
        pooled(docs.drop_last()) + last_renumbered(docs).entries
    }
}

/// The pages of all documents after renumbering: document by document, and
/// within a document in the order in which it shows them.
pub open spec fn all_pages(docs: Seq<DocumentView>) -> Seq<nat>
    decreases docs.len(),
{
    if docs.len() == 0 {
        Seq::empty()
    } else {
        all_pages(docs.drop_last()) + pages_of(last_renumbered(docs))
    }
}

/// The first page of each document that shows a page, after renumbering.
pub open spec fn first_pages(docs: Seq<DocumentView>) -> Seq<nat>
    decreases docs.len(),
{
    if docs.len() == 0 {
        Seq::empty()
    } else {
        let pages = pages_of(last_renumbered(docs));
        first_pages(docs.drop_last()) + if pages.len() > 0 {
            seq![pages[0]]
        } else {
            Seq::empty()
        }
    }
}

/// The pool of the documents: their entries after renumbering, under the
/// highest identifier that was given out.
pub open spec fn pool_of(docs: Seq<DocumentView>) -> DocumentView {
    DocumentView {
        entries: pooled(docs),
        trailer: Map::empty(),
        max_id: (counter_after(docs) - 1) as nat,
    }
}

/// The counter only grows.
pub proof fn lemma_counter_grows(docs: Seq<DocumentView>, i: int)
    requires
        0 <= i <= docs.len(),
    ensures
        1 <= counter_after(docs.take(i)) <= counter_after(docs),
    decreases docs.len(),
{
    if docs.len() == 0 {
        assert(docs.take(i) =~= docs);
    } else if i == docs.len() {
        assert(docs.take(i) =~= docs);
        lemma_counter_grows(docs.drop_last(), i - 1);
    } else {
        lemma_counter_grows(docs.drop_last(), i);
        assert(docs.drop_last().take(i) =~= docs.take(i));
    }
}

/// What gathering the documents yields.
pub struct Gathered {
    /// All objects after renumbering.
    pub pool: Document,
    /// All pages, in the order of the merged document.
    pub pages: Vec<u32>,
    /// The first page of each document that shows one.
    pub first_pages: Vec<u32>,
}

/// Renumbers the documents into ranges that do not overlap, pools their
/// objects and lists their pages. Nothing is returned where the identifiers
/// cannot be had within 32 bits.
pub fn gather(docs: &Vec<Document>) -> (found: Option<Gathered>)
    ensures
        found is Some <==> fits(views_of(docs@)),
        found is Some ==> all_well_formed(views_of(docs@)),
        found matches Some(g) ==> {
            &&& g.pool@ == pool_of(views_of(docs@))
            &&& as_nats(g.pages@) == all_pages(views_of(docs@))
            &&& as_nats(g.first_pages@) == first_pages(views_of(docs@))
            &&& g.pages.len() <= g.pool@.entries.len()
        },
{
    let ghost views = views_of(docs@);
    let mut ids: Vec<u32> = Vec::new();
    let mut objects: Vec<Object> = Vec::new();
    let mut pages: Vec<u32> = Vec::new();
    let mut firsts: Vec<u32> = Vec::new();
    let mut counter: u64 = 1;
    let mut i: usize = 0;
    proof {
        assert(views.take(0) =~= Seq::<DocumentView>::empty());
        assert(entries_of(ids@, objects@) =~= pooled(views.take(0)));
        assert(as_nats(pages@) =~= all_pages(views.take(0)));
        assert(as_nats(firsts@) =~= first_pages(views.take(0)));
    }
    while i < docs.len()
        invariant
            i <= docs.len(),
            views == views_of(docs@),
            counter == counter_after(views.take(i as int)),
            counter - 1 <= u32::MAX,
            forall|j: int| 0 <= j < i ==> (#[trigger] views[j]).well_formed(),
            ids.len() == objects.len(),
            ascending(ids@),
            forall|k: int| 0 <= k < ids.len() ==> 1 <= #[trigger] ids[k] < counter,
            entries_of(ids@, objects@) == pooled(views.take(i as int)),
            as_nats(pages@) == all_pages(views.take(i as int)),
            as_nats(firsts@) == first_pages(views.take(i as int)),
            pages.len() <= ids.len(),
        decreases docs.len() - i,
    {
        let doc = &docs[i];
        doc.check();
        let ghost before = views.take(i as int);
        let ghost upto = views.take(i + 1);
        proof {
            assert(upto.drop_last() =~= before);
            assert(upto.last() == doc@);
            lemma_counter_grows(views, i + 1);
        }
        if counter + doc.max_id() as u64 > u32::MAX as u64 {
            return None;
        }
        let offset = counter as u32;
        let moved = renumber(doc, offset);
        let shown = page_list(&moved);
        let ghost shown_before = as_nats(pages@);
        let ghost firsts_before = as_nats(firsts@);
        if shown.len() > 0 {
            firsts.push(shown[0]);
            assert(as_nats(firsts@) =~= firsts_before + seq![shown[0] as nat]);
        } else {
            assert(as_nats(firsts@) =~= firsts_before + Seq::<nat>::empty());
        }
        let mut j: usize = 0;
        while j < shown.len()
            invariant
                j <= shown.len(),
                as_nats(pages@) == shown_before + as_nats(shown@).take(j as int),
                pages.len() == shown_before.len() + j,
            decreases shown.len() - j,
        {
            let ghost listed = as_nats(pages@);
            pages.push(shown[j]);
            j += 1;
            proof {
                assert(as_nats(pages@) =~= listed.push(shown[j - 1] as nat));
                assert(as_nats(shown@).take(j as int) =~= as_nats(shown@).take(j - 1).push(
                    shown[j - 1] as nat,
                ));
                assert(as_nats(pages@) =~= shown_before + as_nats(shown@).take(j as int));
            }
        }
        assert(as_nats(shown@).take(j as int) =~= as_nats(shown@));
        let ghost pool_before = entries_of(ids@, objects@);
        let ghost ids_before = ids@;
        let ghost objects_before = objects@;
        counter = counter + doc.max_id() as u64 + 1;
        let (mut more_ids, mut more_objects) = moved.into_parts();
        let ghost added_ids = more_ids@;
        let ghost added_objects = more_objects@;
        ids.append(&mut more_ids);
        objects.append(&mut more_objects);
        proof {
            let added = entries_of(added_ids, added_objects);
            assert(added == last_renumbered(upto).entries);
            assert(entries_of(ids@, objects@) =~= pool_before + added);
            assert forall|k: int| 0 <= k < ids.len() implies 1 <= #[trigger] ids[k] < counter by {
                if k >= ids_before.len() {
                    let m = k - ids_before.len();
                    assert(ids[k] == added_ids[m]);
                    assert(added[m].id == added_ids[m]);
                }
            }
            assert forall|a: int, b: int| 0 <= a < b < ids.len() implies ids[a] < ids[b] by {
                if a >= ids_before.len() {
                    assert(ids[a] == added_ids[a - ids_before.len()]);
                    assert(ids[b] == added_ids[b - ids_before.len()]);
                } else if b >= ids_before.len() {
                    let m = b - ids_before.len();
                    assert(ids[b] == added_ids[m]);
                    assert(added[m].id == added_ids[m]);
                    assert(ids[a] == ids_before[a]);
                } else {
                    assert(ids[a] == ids_before[a]);
                    assert(ids[b] == ids_before[b]);
                }
            }
        }
        i += 1;
    }
    proof {
        assert(views.take(i as int) =~= views);
    }
    let pool = Document::from_parts(ids, objects, Dictionary::new(), (counter - 1) as u32);
    Some(Gathered { pool, pages, first_pages: firsts })
}

/// The place of the first entry that plays the given part.
pub open spec fn first_with_role(entries: Seq<EntryView>, part: Role) -> Option<int>
    decreases entries.len(),
{
    if entries.len() == 0 {
        None
    } else {
        match first_with_role(entries.drop_last(), part) {
            Some(place) => Some(place),
            None => if role(entries.last().object) == part {
                Some(entries.len() - 1)
            } else {
                None
            },
        }
    }
}

/// The dictionary of a dictionary object.
pub open spec fn dict_of(obj: ObjectView) -> Map<Seq<u8>, ObjectView> {
    match obj {
        ObjectView::Dictionary(dict) => dict,
        _ => Map::empty(),
    }
}

/// The dictionaries of all pages roots among the entries, merged in their
/// order: where two hold a key, the later value stands.
pub open spec fn merged_pages_dict(entries: Seq<EntryView>) -> Map<Seq<u8>, ObjectView>
    decreases entries.len(),
{
    if entries.len() == 0 {
        Map::empty()
    } else {
        let before = merged_pages_dict(entries.drop_last());
        if role(entries.last().object) is PagesRoot {
            before.union_prefer_right(dict_of(entries.last().object))
        } else {
            before
        }
    }
}

/// What the merged graph is built around.
pub struct MergePlan {
    /// The identifier of the catalog that is kept.
    pub catalog: nat,
    /// The identifier of the pages root that is kept.
    pub pages_root: nat,
    /// The merged dictionary of all pages roots.
    pub pages_dict: Map<Seq<u8>, ObjectView>,
    /// The pages of the merged document, in order.
    pub pages: Seq<nat>,
}

/// References to the given identifiers.
pub open spec fn references_to(ids: Seq<nat>) -> Seq<ObjectView> {
    Seq::new(ids.len(), |i: int| ObjectView::Reference(ids[i]))
}

/// The catalog of the merged graph: it names the kept pages root, and no
/// navigation tree.
pub open spec fn catalog_object(obj: ObjectView, plan: MergePlan) -> ObjectView {
    ObjectView::Dictionary(
        dict_of(obj).insert(bytes_of("Pages"@), ObjectView::Reference(plan.pages_root)).remove(
            bytes_of("Outlines"@),
        ),
    )
}

/// The pages root of the merged graph: the merged dictionary, with the
/// number of pages under `Count` and references to them under `Kids`.
pub open spec fn pages_root_object(plan: MergePlan) -> ObjectView {
    ObjectView::Dictionary(
        plan.pages_dict.insert(
            bytes_of("Count"@),
            ObjectView::Primitive(ScalarView::Integer(plan.pages.len() as int)),
        ).insert(bytes_of("Kids"@), ObjectView::Array(references_to(plan.pages))),
    )
}

/// A page of the merged graph: its parent is the kept pages root.
pub open spec fn page_object(obj: ObjectView, plan: MergePlan) -> ObjectView {
    ObjectView::Dictionary(
        dict_of(obj).insert(bytes_of("Parent"@), ObjectView::Reference(plan.pages_root)),
    )
}

/// What becomes of an entry of the pool. The kept catalog and the kept
/// pages root stay, rewritten; other catalogs and pages roots leave. A page
/// stays if the merged document shows it. Nodes of navigation trees leave.
/// Every other object stays as it is.
#[verifier::opaque]
pub open spec fn kept(entry: EntryView, plan: MergePlan) -> Option<EntryView> {
    match role(entry.object) {
        Role::Catalog => if entry.id == plan.catalog {
            Some(EntryView { id: entry.id, object: catalog_object(entry.object, plan) })
        } else {
            None
        },
        Role::PagesRoot => if entry.id == plan.pages_root {
            Some(EntryView { id: entry.id, object: pages_root_object(plan) })
        } else {
            None
        },
        Role::Page => if plan.pages.contains(entry.id) {
            Some(EntryView { id: entry.id, object: page_object(entry.object, plan) })
        } else {
            None
        },
        Role::Outline => None,
        Role::Other => Some(entry),
    }
}

/// What is kept of an entry, as a list of one or none.
pub open spec fn kept_list(entry: EntryView, plan: MergePlan) -> Seq<EntryView> {
    match kept(entry, plan) {
        Some(e) => seq![e],
        None => Seq::empty(),
    }
}

/// The entries that are kept, in their order.
pub open spec fn retained(entries: Seq<EntryView>, plan: MergePlan) -> Seq<EntryView>
    decreases entries.len(),
{
    if entries.len() == 0 {
        Seq::empty()
    } else {
        retained(entries.drop_last(), plan) + kept_list(entries.last(), plan)
    }
}

/// The plan for a pool, where it holds a pages root and a catalog.
pub open spec fn plan_of(pool: DocumentView, pages: Seq<nat>) -> Result<
    MergePlan,
    BuildInvoiceError,
> {
    match first_with_role(pool.entries, Role::PagesRoot) {
        None => Err(BuildInvoiceError::NoPagesRoot),
        Some(root) => match first_with_role(pool.entries, Role::Catalog) {
            None => Err(BuildInvoiceError::NoCatalogRoot),
            Some(catalog) => Ok(
                MergePlan {
                    catalog: pool.entries[catalog].id,
                    pages_root: pool.entries[root].id,
                    pages_dict: merged_pages_dict(pool.entries),
                    pages,
                },
            ),
        },
    }
}

/// The trailer of the merged graph: it names the catalog.
pub open spec fn trailer_for(catalog: nat) -> Map<Seq<u8>, ObjectView> {
    Map::<Seq<u8>, ObjectView>::empty().insert(bytes_of("Root"@), ObjectView::Reference(catalog))
}

/// The merged graph of a pool. Without a pages root, or without a catalog,
/// there is none.
pub open spec fn assembled(pool: DocumentView, pages: Seq<nat>) -> Result<
    DocumentView,
    BuildInvoiceError,
> {
    match plan_of(pool, pages) {
        Err(e) => Err(e),
        Ok(plan) => Ok(
            DocumentView {
                entries: retained(pool.entries, plan),
                trailer: trailer_for(plan.catalog),
                max_id: pool.max_id,
            },
        ),
    }
}

/// Whether the identifier is among the listed.
fn is_listed(ids: &Vec<u32>, id: u32) -> (yes: bool)
    ensures
        yes == as_nats(ids@).contains(id as nat),
{
    let mut i: usize = 0;
    while i < ids.len()
        invariant
            i <= ids.len(),
            forall|k: int| 0 <= k < i ==> ids[k] != id,
        decreases ids.len() - i,
    {
        if ids[i] == id {
            assert(as_nats(ids@)[i as int] == id as nat);
            return true;
        }
        i += 1;
    }
    assert forall|k: int| 0 <= k < as_nats(ids@).len() implies as_nats(ids@)[k] != id as nat by {
        assert(ids[k] != id);
    }
    false
}

/// References to the listed identifiers.
fn references(ids: &Vec<u32>) -> (items: Vec<Object>)
    ensures
        items_view(items@) == references_to(as_nats(ids@)),
{
    let mut items: Vec<Object> = Vec::new();
    let mut i: usize = 0;
    assert(items_view(items@) =~= references_to(as_nats(ids@).take(0)));
    while i < ids.len()
        invariant
            i <= ids.len(),
            items_view(items@) == references_to(as_nats(ids@).take(i as int)),
        decreases ids.len() - i,
    {
        let item = Object::Reference(ids[i]);
        proof {
            lemma_items_view_push(items@, item);
            assert(references_to(as_nats(ids@).take(i as int)).push(item@) =~= references_to(
                as_nats(ids@).take(i + 1),
            ));
        }
        items.push(item);
        i += 1;
    }
    assert(as_nats(ids@).take(i as int) =~= as_nats(ids@));
    items
}

/// The first catalog and the first pages root of a pool, and the merged
/// dictionary of its pages roots.
fn survey(pool: &Document) -> (found: (Option<usize>, Option<usize>, Dictionary))
    ensures
        found.0 is Some <==> first_with_role(pool@.entries, Role::Catalog) is Some,
        found.0 matches Some(c) ==> first_with_role(pool@.entries, Role::Catalog) == Some(
            c as int,
        ) && c < pool@.entries.len(),
        found.1 is Some <==> first_with_role(pool@.entries, Role::PagesRoot) is Some,
        found.1 matches Some(p) ==> first_with_role(pool@.entries, Role::PagesRoot) == Some(
            p as int,
        ) && p < pool@.entries.len(),
        found.2@ == merged_pages_dict(pool@.entries),
{
    let ghost entries = pool@.entries;
    let mut catalog: Option<usize> = None;
    let mut root: Option<usize> = None;
    let mut dict = Dictionary::new();
    let mut i: usize = 0;
    while i < pool.len()
        invariant
            i <= entries.len(),
            entries == pool@.entries,
            catalog is Some <==> first_with_role(entries.take(i as int), Role::Catalog) is Some,
            catalog matches Some(c) ==> first_with_role(entries.take(i as int), Role::Catalog)
                == Some(c as int) && c < i,
            root is Some <==> first_with_role(entries.take(i as int), Role::PagesRoot) is Some,
            root matches Some(p) ==> first_with_role(entries.take(i as int), Role::PagesRoot)
                == Some(p as int) && p < i,
            dict@ == merged_pages_dict(entries.take(i as int)),
        decreases entries.len() - i,
    {
        proof {
            assert(entries.take(i + 1).drop_last() =~= entries.take(i as int));
            assert(entries.take(i + 1).last() == entries[i as int]);
        }
        let obj = pool.object_at(i);
        match role_of(obj) {
            Role::Catalog => {
                if catalog.is_none() {
                    catalog = Some(i);
                }
            },
            Role::PagesRoot => {
                if root.is_none() {
                    root = Some(i);
                }
                if let Object::Dictionary(more) = obj {
                    dict = dict.merged_with(more);
                }
            },
            _ => {},
        }
        i += 1;
    }
    proof {
        assert(entries.take(i as int) =~= entries);
    }
    (catalog, root, dict)
}

/// Builds the merged graph from the pool and the list of pages.
///
/// Fails where the pool holds no pages root, and, with one, where it holds
/// no catalog.
pub fn assemble(pool: &Document, pages: &Vec<u32>) -> (graph: Result<Document, BuildInvoiceError>)
    requires
        pages.len() <= i64::MAX,
    ensures
        match assembled(pool@, as_nats(pages@)) {
            Ok(wanted) => graph matches Ok(doc) && doc@ == wanted && doc@.well_formed(),
            Err(e) => graph matches Err(refused) && refused == e,
        },
{
    pool.check();
    let ghost entries = pool@.entries;
    let (catalog, root, pages_dict) = survey(pool);
    let root_place = match root {
        Some(place) => place,
        None => {
            return Err(BuildInvoiceError::NoPagesRoot);
        },
    };
    let catalog_place = match catalog {
        Some(place) => place,
        None => {
            return Err(BuildInvoiceError::NoCatalogRoot);
        },
    };
    let catalog_id = pool.id_at(catalog_place);
    let root_id = pool.id_at(root_place);
    let ghost plan = plan_of(pool@, as_nats(pages@))->Ok_0;
    let mut ids: Vec<u32> = Vec::new();
    let mut objects: Vec<Object> = Vec::new();
    let mut i: usize = 0;
    assert(entries_of(ids@, objects@) =~= retained(entries.take(0), plan));
    while i < pool.len()
        invariant
            i <= entries.len(),
            entries == pool@.entries,
            pool@.well_formed(),
            pages.len() <= i64::MAX,
            plan == plan_of(pool@, as_nats(pages@))->Ok_0,
            plan.catalog == catalog_id,
            plan.pages_root == root_id,
            plan.pages_dict == pages_dict@,
            plan.pages == as_nats(pages@),
            ids.len() == objects.len(),
            ascending(ids@),
            forall|k: int| 0 <= k < ids.len() ==> 1 <= #[trigger] ids[k] <= pool@.max_id,
            i > 0 ==> forall|k: int| 0 <= k < ids.len() ==> #[trigger] ids[k] <= entries[i - 1].id,
            i == 0 ==> ids.len() == 0,
            entries_of(ids@, objects@) == retained(entries.take(i as int), plan),
        decreases entries.len() - i,
    {
        proof {
            assert(entries.take(i + 1).drop_last() =~= entries.take(i as int));
            assert(entries.take(i + 1).last() == entries[i as int]);
            if i > 0 {
                assert(entries[i - 1].id < entries[i as int].id);
            }
        }
        let id = pool.id_at(i);
        let obj = pool.object_at(i);
        let ghost before = entries_of(ids@, objects@);
        let stays: Option<Object> = match role_of(obj) {
            Role::Catalog => {
                if id == catalog_id {
                    match obj {
                        Object::Dictionary(dict) => Some(
                            Object::Dictionary(
                                dict.with(names::pages(), Object::Reference(root_id)).without(
                                    names::outlines().as_slice(),
                                ),
                            ),
                        ),
                        _ => None,
                    }
                } else {
                    None
                }
            },
            Role::PagesRoot => {
                if id == root_id {
                    Some(
                        Object::Dictionary(
                            pages_dict.with(
                                names::count(),
                                Object::Primitive(Scalar::Integer(pages.len() as i64)),
                            ).with(names::kids(), Object::Array(references(pages))),
                        ),
                    )
                } else {
                    None
                }
            },
            Role::Page => {
                if is_listed(pages, id) {
                    match obj {
                        Object::Dictionary(dict) => Some(
                            Object::Dictionary(dict.with(names::parent(), Object::Reference(root_id))),
                        ),
                        _ => None,
                    }
                } else {
                    None
                }
            },
            Role::Outline => None,
            Role::Other => Some(copy_object(obj)),
        };
        proof {
            reveal(kept);
            assert(stays is Some <==> kept(entries[i as int], plan) is Some);
            if stays is Some {
                assert(stays->0@ == kept(entries[i as int], plan)->0.object);
            }
        }
        match stays {
            Some(object) => {
                ids.push(id);
                objects.push(object);
                proof {
                    assert(entries_of(ids@, objects@) =~= before + kept_list(
                        entries[i as int],
                        plan,
                    ));
                }
            },
            None => {
                proof {
                    assert(before + kept_list(entries[i as int], plan) =~= before);
                }
            },
        }
        i += 1;
    }
    proof {
        assert(entries.take(i as int) =~= entries);
    }
    let trailer = Dictionary::new().with(names::root(), Object::Reference(catalog_id));
    Ok(Document::from_parts(ids, objects, trailer, pool.max_id()))
}

/// The document that merging yields.
///
/// The documents are renumbered and pooled, and the merged graph is built
/// from the pool. Each document that shows a page gets a bookmark on its
/// first page. Then the graph is compacted, the bookmarks follow and are
/// repaired, and their tree is attached.
pub open spec fn merged(docs: Seq<DocumentView>) -> Result<DocumentView, BuildInvoiceError> {
    if !fits(docs) {
        Err(BuildInvoiceError::IdentifierSpaceExhausted)
    } else {
        match assembled(pool_of(docs), all_pages(docs)) {
            Err(e) => Err(e),
            Ok(graph) => {
                let dense = compacted(graph);
                let marks = repaired(retargeted(bookmarks_on(first_pages(docs)), graph), dense);
                outlined(dense, marks)
            },
        }
    }
}

/// Merges documents into one, in their order.
///
/// The pages of the merged document are those of the first document, then
/// those of the second, and so on. Its outline holds one bookmark for each
/// document that shows a page. Its identifiers run from one without gaps,
/// so no two of its objects share one, and every reference in it leads to
/// one of its objects.
///
/// Merging fails where the identifiers cannot be had within 32 bits, where
/// no document holds a pages root, and where no document holds a catalog.
/// An empty list holds no pages root, and fails as such.
pub fn merge(docs: &Vec<Document>) -> (done: Result<Document, BuildInvoiceError>)
    ensures
        match merged(views_of(docs@)) {
            Ok(wanted) => done matches Ok(doc) && doc@ == wanted,
            Err(e) => done matches Err(refused) && refused == e,
        },
        done is Ok <==> fits(views_of(docs@)) && any_holds_role(views_of(docs@), Role::PagesRoot)
            && any_holds_role(views_of(docs@), Role::Catalog) && outline_fits(views_of(docs@)),
        done matches Err(refused) ==> refused == (if !fits(views_of(docs@)) {
            BuildInvoiceError::IdentifierSpaceExhausted
        } else if !any_holds_role(views_of(docs@), Role::PagesRoot) {
            BuildInvoiceError::NoPagesRoot
        } else if !any_holds_role(views_of(docs@), Role::Catalog) {
            BuildInvoiceError::NoCatalogRoot
        } else {
            BuildInvoiceError::IdentifierSpaceExhausted
        }),
        done matches Ok(doc) ==> {
            &&& merged_around(
                doc@,
                merged_catalog(views_of(docs@)),
                merged_pages_root(views_of(docs@)),
                merged_kids(views_of(docs@)),
            )
            &&& pages_of(doc@) == merged_kids(views_of(docs@))
            &&& count_role(doc@.entries, Role::Page) == all_pages(views_of(docs@)).len()
            &&& is_closed(doc@)
            &&& forall|i: int, j: int|
                0 <= i < j < doc@.entries.len() ==> doc@.entries[i].id != doc@.entries[j].id
        },
{
    let gathered = match gather(docs) {
        Some(gathered) => gathered,
        None => {
            return Err(BuildInvoiceError::IdentifierSpaceExhausted);
        },
    };
    proof {
        lemma_merged(views_of(docs@));
    }
    // A pool holds no more pages than objects, and fewer objects than
    // identifiers.
    let objects = gathered.pool.len();
    assert(gathered.pages.len() <= objects);
    let graph = match assemble(&gathered.pool, &gathered.pages) {
        Ok(graph) => graph,
        Err(e) => {
            return Err(e);
        },
    };
    let marks = make_bookmarks(&gathered.first_pages);
    let dense = compact(&graph);
    let moved = retarget(&marks, &graph);
    let fixed = adjust_zero_pages(&moved, &dense);
    let done = attach_outline(dense, &fixed);
    proof {
        let views = views_of(docs@);
        if done is Ok {
            let out = done->Ok_0@;
            lemma_page_count(
                out,
                merged_catalog(views),
                merged_pages_root(views),
                merged_kids(views),
            );
            lemma_pages_of_merged(
                out,
                merged_catalog(views),
                merged_pages_root(views),
                merged_kids(views),
            );
            lemma_merged_closed(views);
        }
    }
    done
}

} // verus!
