//! Bookmarks and the navigation tree that is built from them.
//!
//! Each document that shows a page gets one bookmark on its first page. The
//! bookmarks follow the pages through compaction, are repaired where a target
//! is no page, and then become a flat tree under the catalog.

use crate::document::Document;
use crate::document::DocumentView;
use crate::document::EntryView;
use crate::err::BuildInvoiceError;
use crate::names;
use crate::object::bytes_of;
use crate::object::items_view;
use crate::object::lemma_items_view_push;
use crate::object::role_of;
use crate::object::Dictionary;
use crate::object::Object;
use crate::object::ObjectView;
use crate::object::Role;
use crate::object::Scalar;
use crate::object::ScalarView;
use crate::pages::as_nats;
use crate::pages::is_page;
use crate::pages::page_list;
use crate::pages::pages_of;
use crate::pages::reference_under;
use vstd::prelude::*;

verus! {

/// A color, by its three components in whole numbers.
#[derive(Debug, Clone, Copy, PartialEq, Eq)]
pub struct Color {
    pub red: i64,
    pub green: i64,
    pub blue: i64,
}

/// A navigation entry: a title, a color, a nesting level and the page that
/// it leads to.
#[derive(Debug, Clone, PartialEq, Eq)]
pub struct Bookmark {
    pub title: Vec<u8>,
    pub color: Color,
    pub level: u32,
    pub target: u32,
}

/// What a bookmark stands for.
pub struct BookmarkView {
    pub title: Seq<u8>,
    pub red: int,
    pub green: int,
    pub blue: int,
    pub level: nat,
    pub target: nat,
}

impl View for Bookmark {
    type V = BookmarkView;

    open spec fn view(&self) -> BookmarkView {
        BookmarkView {
            title: self.title@,
            red: self.color.red as int,
            green: self.color.green as int,
            blue: self.color.blue as int,
            level: self.level as nat,
            target: self.target as nat,
        }
    }
}

/// The views of a list of bookmarks.
pub open spec fn marks_view(marks: Seq<Bookmark>) -> Seq<BookmarkView> {
    Seq::new(marks.len(), |i: int| marks[i]@)
}

/// The decimal digits of a number, as bytes.
pub open spec fn decimal(n: nat) -> Seq<u8>
    decreases n,
{
    if n < 10 {
        seq![(48 + n) as u8]
    } else {
        decimal(n / 10).push((48 + n % 10) as u8)
    }
}

/// Writes a number in decimal digits.
pub fn decimal_of(n: usize) -> (digits: Vec<u8>)
    ensures
        digits@ == decimal(n as nat),
    decreases n,
{
    if n < 10 {
        let mut digits: Vec<u8> = Vec::new();
        digits.push(48 + n as u8);
        assert(digits@ =~= seq![(48 + n) as u8]);
        digits
    } else {
        let mut digits = decimal_of(n / 10);
        digits.push(48 + (n % 10) as u8);
        digits
    }
}

/// The title of the bookmark with the given number: `Page_` and the number.
pub open spec fn label(number: nat) -> Seq<u8> {
    bytes_of("Page_"@) + decimal(number)
}

/// The bookmark with the given number on the given page: blue, at the top
/// level.
pub open spec fn bookmark_on(number: nat, target: nat) -> BookmarkView {
    BookmarkView { title: label(number), red: 0, green: 0, blue: 1, level: 0, target }
}

/// One bookmark on each of the pages, numbered from one in their order.
pub open spec fn bookmarks_on(targets: Seq<nat>) -> Seq<BookmarkView> {
    Seq::new(targets.len(), |i: int| bookmark_on((i + 1) as nat, targets[i]))
}

/// Makes one bookmark for each of the pages, numbered from one.
pub fn make_bookmarks(targets: &Vec<u32>) -> (marks: Vec<Bookmark>)
    ensures
        marks_view(marks@) == bookmarks_on(as_nats(targets@)),
{
    let mut marks: Vec<Bookmark> = Vec::new();
    let mut i: usize = 0;
    while i < targets.len()
        invariant
            i <= targets.len(),
            marks.len() == i,
            forall|k: int|
                0 <= k < i ==> (#[trigger] marks[k])@ == bookmark_on(
                    (k + 1) as nat,
                    targets[k] as nat,
                ),
        decreases targets.len() - i,
    {
        let mut title = names::page_label();
        let mut digits = decimal_of(i + 1);
        title.append(&mut digits);
        marks.push(
            Bookmark { title, color: Color { red: 0, green: 0, blue: 1 }, level: 0, target: targets[i] },
        );
        i += 1;
    }
    assert(marks_view(marks@) =~= bookmarks_on(as_nats(targets@)));
    marks
}

/// A bookmark with another target.
pub open spec fn aimed_at(mark: BookmarkView, target: nat) -> BookmarkView {
    BookmarkView { target, ..mark }
}

/// Copies a bookmark, with another target.
fn aim(mark: &Bookmark, target: u32) -> (moved: Bookmark)
    ensures
        moved@ == aimed_at(mark@, target as nat),
{
    Bookmark {
        title: mark.title.clone(),
        color: Color { red: mark.color.red, green: mark.color.green, blue: mark.color.blue },
        level: mark.level,
        target,
    }
}

/// The rank of an identifier in a document, counted from one; zero where
/// the document holds no object under it.
pub open spec fn rank_in(doc: DocumentView, id: nat) -> nat {
    if doc.contains(id) {
        (doc.position(id) + 1) as nat
    } else {
        0
    }
}

/// The bookmarks as they stand after the document was compacted: each
/// target is the rank of the old one, or zero where the old one is gone.
pub open spec fn retargeted(marks: Seq<BookmarkView>, doc: DocumentView) -> Seq<BookmarkView> {
    Seq::new(marks.len(), |i: int| aimed_at(marks[i], rank_in(doc, marks[i].target)))
}

/// Lets the bookmarks follow their targets through the compaction of `doc`.
pub fn retarget(marks: &Vec<Bookmark>, doc: &Document) -> (moved: Vec<Bookmark>)
    ensures
        marks_view(moved@) == retargeted(marks_view(marks@), doc@),
{
    let mut moved: Vec<Bookmark> = Vec::new();
    // A document holds fewer objects than there are identifiers, so every
    // rank is an identifier.
    let objects = doc.len();
    let mut i: usize = 0;
    while i < marks.len()
        invariant
            i <= marks.len(),
            objects == doc@.entries.len(),
            objects <= u32::MAX,
            moved.len() == i,
            forall|k: int|
                0 <= k < i ==> (#[trigger] moved[k])@ == aimed_at(
                    marks[k]@,
                    rank_in(doc@, marks[k]@.target),
                ),
        decreases marks.len() - i,
    {
        let target: u32 = match doc.find(marks[i].target) {
            Some(place) => (place + 1) as u32,
            None => 0,
        };
        moved.push(aim(&marks[i], target));
        i += 1;
    }
    assert(marks_view(moved@) =~= retargeted(marks_view(marks@), doc@));
    moved
}

/// A bookmark after repair: one that leads to no page of the document
/// leads to the first page instead, if the document shows any.
pub open spec fn repaired_mark(mark: BookmarkView, doc: DocumentView) -> BookmarkView {
    if is_page(doc, mark.target) || pages_of(doc).len() == 0 {
        mark
    } else {
        aimed_at(mark, pages_of(doc)[0])
    }
}

/// The bookmarks after repair.
pub open spec fn repaired(marks: Seq<BookmarkView>, doc: DocumentView) -> Seq<BookmarkView> {
    Seq::new(marks.len(), |i: int| repaired_mark(marks[i], doc))
}

/// Repairs the bookmarks: each that leads to no page of the document is led
/// to the first page that the document shows.
pub fn adjust_zero_pages(marks: &Vec<Bookmark>, doc: &Document) -> (fixed: Vec<Bookmark>)
    ensures
        marks_view(fixed@) == repaired(marks_view(marks@), doc@),
{
    doc.check();
    let shown = page_list(doc);
    let mut fixed: Vec<Bookmark> = Vec::new();
    let mut i: usize = 0;
    while i < marks.len()
        invariant
            i <= marks.len(),
            doc@.well_formed(),
            as_nats(shown@) == pages_of(doc@),
            fixed.len() == i,
            forall|k: int| 0 <= k < i ==> (#[trigger] fixed[k])@ == repaired_mark(marks[k]@, doc@),
        decreases marks.len() - i,
    {
        let on_page = match doc.find(marks[i].target) {
            Some(place) => {
                proof {
                    doc@.lemma_position(place as int);
                }
                match role_of(doc.object_at(place)) {
                    Role::Page => true,
                    _ => false,
                }
            },
            None => false,
        };
        if on_page || shown.len() == 0 {
            fixed.push(aim(&marks[i], marks[i].target));
        } else {
            assert(as_nats(shown@)[0] == shown[0]);
            fixed.push(aim(&marks[i], shown[0]));
        }
        i += 1;
    }
    assert(marks_view(fixed@) =~= repaired(marks_view(marks@), doc@));
    fixed
}

/// The root of the navigation tree: it counts the bookmarks and names the
/// first and the last of them.
pub open spec fn outline_root(root: nat, count: nat) -> ObjectView {
    ObjectView::Dictionary(
        Map::<Seq<u8>, ObjectView>::empty().insert(
            bytes_of("Type"@),
            ObjectView::Primitive(ScalarView::Name(bytes_of("Outlines"@))),
        ).insert(bytes_of("Count"@), ObjectView::Primitive(ScalarView::Integer(count as int))).insert(
            bytes_of("First"@),
            ObjectView::Reference(root + 1),
        ).insert(bytes_of("Last"@), ObjectView::Reference(root + count)),
    )
}

/// What every node of the tree says of its bookmark: the title, the parent,
/// the destination (the page, fitted into the window), and the color.
pub open spec fn outline_item_base(mark: BookmarkView, root: nat) -> Map<Seq<u8>, ObjectView> {
    Map::<Seq<u8>, ObjectView>::empty().insert(
        bytes_of("Title"@),
        ObjectView::Primitive(ScalarView::Text(mark.title)),
    ).insert(bytes_of("Parent"@), ObjectView::Reference(root)).insert(
        bytes_of("Dest"@),
        ObjectView::Array(
            seq![
                ObjectView::Reference(mark.target),
                ObjectView::Primitive(ScalarView::Name(bytes_of("Fit"@))),
            ],
        ),
    ).insert(
        bytes_of("C"@),
        ObjectView::Array(
            seq![
                ObjectView::Primitive(ScalarView::Integer(mark.red)),
                ObjectView::Primitive(ScalarView::Integer(mark.green)),
                ObjectView::Primitive(ScalarView::Integer(mark.blue)),
            ],
        ),
    )
}

/// The node of the bookmark at place `i` of `count`, under the root with
/// the identifier `root`: the nodes follow the root, and each names its
/// neighbours.
pub open spec fn outline_item(mark: BookmarkView, i: int, count: nat, root: nat) -> ObjectView {
    let base = outline_item_base(mark, root);
    let linked_back = if i > 0 {
        base.insert(bytes_of("Prev"@), ObjectView::Reference((root + i) as nat))
    } else {
        base
    };
    ObjectView::Dictionary(
        if i + 1 < count {
            linked_back.insert(bytes_of("Next"@), ObjectView::Reference((root + i + 2) as nat))
        } else {
            linked_back
        },
    )
}

/// The entries of the navigation tree: the root, then one node for each
/// bookmark.
pub open spec fn outline_entries(marks: Seq<BookmarkView>, root: nat) -> Seq<EntryView> {
    Seq::new(
        marks.len() + 1,
        |k: int|
            if k == 0 {
                EntryView { id: root, object: outline_root(root, marks.len()) }
            } else {
                EntryView {
                    id: (root + k) as nat,
                    object: outline_item(marks[k - 1], k - 1, marks.len(), root),
                }
            },
    )
}

/// The place of the catalog: of the dictionary that the trailer names under
/// `Root`.
pub open spec fn catalog_place(doc: DocumentView) -> Option<int> {
    match reference_under(doc.trailer, bytes_of("Root"@)) {
        Some(id) => if doc.contains(id) && doc.entries[doc.position(id)].object is Dictionary {
            Some(doc.position(id))
        } else {
            None
        },
        None => None,
    }
}

/// The catalog with the navigation tree named under `Outlines`.
pub open spec fn catalog_with_outline(catalog: EntryView, root: nat) -> EntryView {
    EntryView {
        id: catalog.id,
        object: ObjectView::Dictionary(
            catalog.object->Dictionary_0.insert(bytes_of("Outlines"@), ObjectView::Reference(root)),
        ),
    }
}

/// The document with the navigation tree of the bookmarks.
///
/// Without bookmarks the document stays as it is. Otherwise the tree takes
/// the identifiers that follow the highest one on record, and the catalog
/// names its root; this fails where the identifiers do not fit in 32 bits,
/// and where the trailer names no catalog.
pub open spec fn outlined(doc: DocumentView, marks: Seq<BookmarkView>) -> Result<
    DocumentView,
    BuildInvoiceError,
> {
    if marks.len() == 0 {
        Ok(doc)
    } else if doc.max_id + 1 + marks.len() > u32::MAX {
        Err(BuildInvoiceError::IdentifierSpaceExhausted)
    } else {
        match catalog_place(doc) {
            None => Err(BuildInvoiceError::NoCatalogRoot),
            Some(place) => Ok(
                DocumentView {
                    entries: doc.entries.update(
                        place,
                        catalog_with_outline(doc.entries[place], doc.max_id + 1),
                    ) + outline_entries(marks, doc.max_id + 1),
                    trailer: doc.trailer,
                    max_id: doc.max_id + 1 + marks.len(),
                },
            ),
        }
    }
}

/// Builds the node of one bookmark.
fn make_item(mark: &Bookmark, i: usize, count: usize, root: u32) -> (item: Object)
    requires
        i < count,
        root + count <= u32::MAX,
    ensures
        item@ == outline_item(mark@, i as int, count as nat, root as nat),
{
    let mut dest: Vec<Object> = Vec::new();
    dest.push(Object::Reference(mark.target));
    dest.push(Object::Primitive(Scalar::Name(names::fit())));
    proof {
        lemma_items_view_push(Seq::<Object>::empty(), dest@[0]);
        lemma_items_view_push(seq![dest@[0]], dest@[1]);
        assert(Seq::<Object>::empty().push(dest@[0]) =~= seq![dest@[0]]);
        assert(seq![dest@[0]].push(dest@[1]) =~= dest@);
        assert(items_view(dest@) =~= seq![
            ObjectView::Reference(mark@.target),
            ObjectView::Primitive(ScalarView::Name(bytes_of("Fit"@))),
        ]);
    }
    let mut color: Vec<Object> = Vec::new();
    color.push(Object::Primitive(Scalar::Integer(mark.color.red)));
    color.push(Object::Primitive(Scalar::Integer(mark.color.green)));
    color.push(Object::Primitive(Scalar::Integer(mark.color.blue)));
    proof {
        lemma_items_view_push(Seq::<Object>::empty(), color@[0]);
        lemma_items_view_push(seq![color@[0]], color@[1]);
        lemma_items_view_push(seq![color@[0], color@[1]], color@[2]);
        assert(Seq::<Object>::empty().push(color@[0]) =~= seq![color@[0]]);
        assert(seq![color@[0]].push(color@[1]) =~= seq![color@[0], color@[1]]);
        assert(seq![color@[0], color@[1]].push(color@[2]) =~= color@);
        assert(items_view(color@) =~= seq![
            ObjectView::Primitive(ScalarView::Integer(mark@.red)),
            ObjectView::Primitive(ScalarView::Integer(mark@.green)),
            ObjectView::Primitive(ScalarView::Integer(mark@.blue)),
        ]);
    }
    let base = Dictionary::new().with(
        names::title(),
        Object::Primitive(Scalar::Text(mark.title.clone())),
    ).with(names::parent(), Object::Reference(root)).with(names::dest(), Object::Array(dest)).with(
        names::color(),
        Object::Array(color),
    );
    let linked_back = if i > 0 {
        base.with(names::prev(), Object::Reference(root + i as u32))
    } else {
        base
    };
    let linked = if i + 1 < count {
        linked_back.with(names::next(), Object::Reference(root + i as u32 + 2))
    } else {
        linked_back
    };
    Object::Dictionary(linked)
}

/// Builds the navigation tree of the bookmarks and names it in the catalog.
pub fn attach_outline(doc: Document, marks: &Vec<Bookmark>) -> (done: Result<
    Document,
    BuildInvoiceError,
>)
    ensures
        match outlined(doc@, marks_view(marks@)) {
            Ok(wanted) => done matches Ok(out) && out@ == wanted && out@.well_formed(),
            Err(e) => done matches Err(refused) && refused == e,
        },
{
    doc.check();
    let count = marks.len();
    if count == 0 {
        return Ok(doc);
    }
    let max_id = doc.max_id();
    if count > (u32::MAX - max_id) as usize || count as u32 > u32::MAX - max_id - 1 {
        return Err(BuildInvoiceError::IdentifierSpaceExhausted);
    }
    let root: u32 = max_id + 1;
    let place = match doc.trailer().get(names::root().as_slice()) {
        Some(Object::Reference(id)) => match doc.find(*id) {
            Some(place) => place,
            None => {
                return Err(BuildInvoiceError::NoCatalogRoot);
            },
        },
        _ => {
            return Err(BuildInvoiceError::NoCatalogRoot);
        },
    };
    let catalog = match doc.object_at(place) {
        Object::Dictionary(dict) => Object::Dictionary(
            dict.with(names::outlines(), Object::Reference(root)),
        ),
        _ => {
            return Err(BuildInvoiceError::NoCatalogRoot);
        },
    };
    let ghost before = doc@;
    let ghost wanted = outlined(before, marks_view(marks@))->Ok_0;
    let trailer = doc.trailer().copy();
    let (mut ids, mut objects) = doc.into_parts();
    objects.set(place, catalog);
    let tree_root = Object::Dictionary(
        Dictionary::new().with(
            names::kind(),
            Object::Primitive(Scalar::Name(names::outlines())),
        ).with(names::count(), Object::Primitive(Scalar::Integer(count as i64))).with(
            names::first(),
            Object::Reference(root + 1),
        ).with(names::last(), Object::Reference(root + count as u32)),
    );
    ids.push(root);
    objects.push(tree_root);
    let ghost head = before.entries.len();
    let mut i: usize = 0;
    while i < count
        invariant
            i <= count,
            count == marks.len(),
            root == max_id + 1,
            root + count <= u32::MAX,
            head == before.entries.len(),
            before.well_formed(),
            max_id == before.max_id,
            ids.len() == head + 1 + i,
            ids.len() == objects.len(),
            0 <= place < head,
            wanted.entries == before.entries.update(
                place as int,
                catalog_with_outline(before.entries[place as int], root as nat),
            ) + outline_entries(marks_view(marks@), root as nat),
            forall|k: int| 0 <= k < head ==> #[trigger] ids[k] == before.entries[k].id,
            forall|k: int| head <= k < ids.len() ==> #[trigger] ids[k] == root + (k - head),
            forall|k: int|
                0 <= k < head + 1 + i ==> (#[trigger] objects[k])@ == wanted.entries[k].object,
        decreases count - i,
    {
        let item = make_item(&marks[i], i, count, root);
        ids.push(root + 1 + i as u32);
        objects.push(item);
        i += 1;
    }
    proof {
        assert forall|a: int, b: int| 0 <= a < b < ids.len() implies ids[a] < ids[b] by {
            if b < head {
                assert(before.entries[a].id < before.entries[b].id);
            } else if a < head {
                assert(before.entries[a].id <= max_id);
            }
        }
        assert forall|k: int| 0 <= k < ids.len() implies 1 <= #[trigger] ids[k] <= root
            + count by {
            if k < head {
                assert(1 <= before.entries[k].id <= max_id);
            }
        }
    }
    let out = Document::from_parts(ids, objects, trailer, root + count as u32);
    assert(out@.entries =~= wanted.entries);
    Ok(out)
}

} // verus!
