use invoy::document::Document;
use invoy::err::BuildInvoiceError;
use invoy::object::copy_object;
use invoy::object::Dictionary;
use invoy::object::Object;
use invoy::object::Scalar;
use invoy::outline::adjust_zero_pages;
use invoy::outline::attach_outline;
use invoy::outline::decimal_of;
use invoy::outline::make_bookmarks;
use invoy::outline::retarget;
use invoy::outline::Bookmark;
use invoy::outline::Color;
use invoy::pages::find_page_tree_root;
use invoy::pages::page_list;

fn name(word: &str) -> Object {
    Object::Primitive(Scalar::Name(word.as_bytes().to_vec()))
}

fn number(n: i64) -> Object {
    Object::Primitive(Scalar::Integer(n))
}

fn refs(ids: &[u32]) -> Object {
    Object::Array(ids.iter().map(|id| Object::Reference(*id)).collect())
}

fn dict(pairs: Vec<(&str, Object)>) -> Dictionary {
    let mut made = Dictionary::new();
    for (key, value) in pairs {
        made = made.with(key.as_bytes().to_vec(), value);
    }
    made
}

fn document(objects: Vec<(u32, Object)>, root: u32) -> Document {
    let mut doc = Document::new();
    for (id, object) in objects {
        doc = doc.with_object(id, object).unwrap();
    }
    doc.with_trailer(dict(vec![("Root", Object::Reference(root))]))
}

fn catalog(pages: u32) -> Object {
    Object::Dictionary(dict(vec![("Type", name("Catalog")), ("Pages", Object::Reference(pages))]))
}

fn node(kids: &[u32]) -> Object {
    Object::Dictionary(dict(vec![("Type", name("Pages")), ("Kids", refs(kids))]))
}

fn page() -> Object {
    Object::Dictionary(dict(vec![("Type", name("Page"))]))
}

fn mark(title: &str, target: u32) -> Bookmark {
    Bookmark {
        title: title.as_bytes().to_vec(),
        color: Color { red: 0, green: 0, blue: 1 },
        level: 0,
        target,
    }
}

#[test]
fn lists_pages_in_the_order_of_the_tree() {
    // The first page has the highest identifier.
    let doc = document(vec![(1, catalog(2)), (2, node(&[9, 4, 6])), (4, page()), (6, page()), (9, page())], 1);
    assert_eq!(page_list(&doc), vec![9, 4, 6]);
    assert_eq!(find_page_tree_root(&doc), Some(2));
}

#[test]
fn walks_into_the_nodes_of_the_tree() {
    let doc = document(
        vec![
            (1, catalog(2)),
            (2, node(&[7, 3, 5])),
            (3, page()),
            (5, node(&[6])),
            (6, page()),
            (7, node(&[9, 8])),
            (8, page()),
            (9, page()),
        ],
        1,
    );
    assert_eq!(page_list(&doc), vec![9, 8, 3, 6]);
}

#[test]
fn lists_a_page_once_and_enters_a_node_once() {
    let doc = document(
        vec![
            (1, catalog(2)),
            (2, node(&[3, 4, 3, 2, 5, 4])),
            (3, page()),
            (4, node(&[2, 3, 6, 4])),
            (5, page()),
            (6, page()),
        ],
        1,
    );
    assert_eq!(page_list(&doc), vec![3, 6, 5]);
}

#[test]
fn passes_over_what_is_no_part_of_the_tree() {
    let doc = document(
        vec![
            (1, catalog(2)),
            (
                2,
                Object::Dictionary(dict(vec![
                    ("Type", name("Pages")),
                    (
                        "Kids",
                        Object::Array(vec![
                            Object::Reference(8),
                            number(3),
                            Object::Reference(4),
                            Object::Reference(5),
                            page(),
                            Object::Reference(3),
                        ]),
                    ),
                ])),
            ),
            (3, page()),
            (4, Object::Dictionary(dict(vec![("Type", name("Font"))]))),
            (5, Object::Stream(dict(vec![("Type", name("Page"))]), Vec::new())),
        ],
        1,
    );
    assert_eq!(page_list(&doc), vec![3]);
}

#[test]
fn shows_the_same_pages_after_renumbering() {
    let doc = document(
        vec![
            (1, catalog(2)),
            (2, node(&[7, 3, 11, 5])),
            (3, page()),
            (5, node(&[6, 3])),
            (6, page()),
            (7, node(&[9, 8, 12])),
            (8, page()),
            (9, page()),
        ],
        1,
    );
    let shown = page_list(&doc);
    assert_eq!(shown, vec![9, 8, 3, 6]);
    for offset in [0, 1, 40, 1000] {
        let moved = invoy::renumber::renumber(&doc, offset);
        let expected: Vec<u32> = shown.iter().map(|id| id + offset).collect();
        assert_eq!(page_list(&moved), expected);
    }
    let dense = invoy::renumber::compact(&doc);
    assert_eq!(page_list(&dense), vec![8, 7, 3, 5]);
}

#[test]
fn shows_nothing_without_a_tree() {
    assert_eq!(page_list(&Document::new()), Vec::<u32>::new());
    assert_eq!(find_page_tree_root(&Document::new()), None);
    // The trailer names no catalog.
    let doc = document(vec![(1, catalog(2)), (2, node(&[3])), (3, page())], 7);
    assert_eq!(page_list(&doc), Vec::<u32>::new());
    // The catalog names no pages root.
    let doc = document(
        vec![(1, Object::Dictionary(dict(vec![("Type", name("Catalog"))]))), (2, node(&[3])), (3, page())],
        1,
    );
    assert_eq!(page_list(&doc), Vec::<u32>::new());
    // The catalog is no dictionary.
    let doc = document(vec![(1, number(2)), (2, node(&[3])), (3, page())], 1);
    assert_eq!(page_list(&doc), Vec::<u32>::new());
    // The kids are no array.
    let doc = document(
        vec![
            (1, catalog(2)),
            (2, Object::Dictionary(dict(vec![("Type", name("Pages")), ("Kids", Object::Reference(3))]))),
            (3, page()),
        ],
        1,
    );
    assert_eq!(page_list(&doc), Vec::<u32>::new());
    // The catalog names a page.
    let doc = document(vec![(1, catalog(3)), (3, page())], 1);
    assert_eq!(page_list(&doc), vec![3]);
}

#[test]
fn writes_numbers_in_decimal() {
    assert_eq!(decimal_of(0), b"0".to_vec());
    assert_eq!(decimal_of(7), b"7".to_vec());
    assert_eq!(decimal_of(10), b"10".to_vec());
    assert_eq!(decimal_of(1203), b"1203".to_vec());
    assert_eq!(decimal_of(4294967295), b"4294967295".to_vec());
}

#[test]
fn makes_a_numbered_bookmark_for_each_page() {
    assert_eq!(
        make_bookmarks(&vec![4, 9, 14]),
        vec![mark("Page_1", 4), mark("Page_2", 9), mark("Page_3", 14)]
    );
    assert_eq!(make_bookmarks(&Vec::new()), Vec::new());
    let many: Vec<u32> = (1..=12).collect();
    assert_eq!(make_bookmarks(&many)[9].title, b"Page_10".to_vec());
    assert_eq!(make_bookmarks(&many)[11], mark("Page_12", 12));
}

#[test]
fn lets_bookmarks_follow_their_targets() {
    let doc = document(vec![(2, catalog(3)), (3, node(&[4, 9])), (4, page()), (9, page())], 2);
    let marks = vec![mark("a", 4), mark("b", 9), mark("c", 5), mark("d", 0)];
    assert_eq!(
        retarget(&marks, &doc),
        vec![mark("a", 3), mark("b", 4), mark("c", 0), mark("d", 0)]
    );
}

#[test]
fn leads_stray_bookmarks_to_the_first_page() {
    let doc = document(vec![(1, catalog(2)), (2, node(&[4, 3])), (3, page()), (4, page()), (5, number(1))], 1);
    let marks = vec![mark("a", 3), mark("b", 0), mark("c", 5), mark("d", 2), mark("e", 77), mark("f", 4)];
    assert_eq!(
        adjust_zero_pages(&marks, &doc),
        vec![mark("a", 3), mark("b", 4), mark("c", 4), mark("d", 4), mark("e", 4), mark("f", 4)]
    );
    // Without a page to lead to, the bookmarks stay as they are.
    let bare = document(vec![(1, catalog(2)), (2, node(&[]))], 1);
    assert_eq!(adjust_zero_pages(&marks, &bare), marks);
    assert_eq!(adjust_zero_pages(&Vec::new(), &doc), Vec::new());
}

#[test]
fn attaches_a_flat_tree_behind_the_objects() {
    let doc = document(vec![(1, catalog(2)), (2, node(&[3])), (3, page())], 1);
    let marks = vec![
        Bookmark { title: b"one".to_vec(), color: Color { red: 1, green: 0, blue: 0 }, level: 0, target: 3 },
        mark("two", 3),
    ];
    let done = attach_outline(doc, &marks).unwrap();
    assert_eq!(done.len(), 6);
    assert_eq!(done.max_id(), 6);
    let under = |id: u32, key: &str| match done.get(id) {
        Some(Object::Dictionary(dict)) => dict.get(key.as_bytes()).map(copy_object),
        _ => None,
    };
    assert_eq!(under(1, "Outlines"), Some(Object::Reference(4)));
    assert_eq!(under(1, "Pages"), Some(Object::Reference(2)));
    assert_eq!(under(4, "Count"), Some(number(2)));
    assert_eq!(under(4, "First"), Some(Object::Reference(5)));
    assert_eq!(under(4, "Last"), Some(Object::Reference(6)));
    assert_eq!(under(5, "Title"), Some(Object::Primitive(Scalar::Text(b"one".to_vec()))));
    assert_eq!(under(5, "C"), Some(Object::Array(vec![number(1), number(0), number(0)])));
    assert_eq!(under(5, "Prev"), None);
    assert_eq!(under(5, "Next"), Some(Object::Reference(6)));
    assert_eq!(under(6, "Prev"), Some(Object::Reference(5)));
    assert_eq!(under(6, "Next"), None);
    assert_eq!(under(6, "Parent"), Some(Object::Reference(4)));
    assert_eq!(under(6, "Dest"), Some(Object::Array(vec![Object::Reference(3), name("Fit")])));
}

#[test]
fn leaves_a_document_without_bookmarks_as_it_is() {
    let doc = document(vec![(1, catalog(2)), (2, node(&[]))], 1);
    assert_eq!(attach_outline(doc.copy(), &Vec::new()), Ok(doc));
}

#[test]
fn attaches_nothing_without_a_catalog() {
    let marks = vec![mark("one", 3)];
    let doc = document(vec![(1, catalog(2)), (2, node(&[3])), (3, page())], 8);
    assert_eq!(attach_outline(doc, &marks), Err(BuildInvoiceError::NoCatalogRoot));
    let doc = document(vec![(1, number(2))], 1);
    assert_eq!(attach_outline(doc, &marks), Err(BuildInvoiceError::NoCatalogRoot));
    let doc = Document::new().with_object(1, catalog(2)).unwrap();
    assert_eq!(attach_outline(doc, &marks), Err(BuildInvoiceError::NoCatalogRoot));
}

#[test]
fn attaches_nothing_where_identifiers_run_out() {
    let marks = vec![mark("one", 3), mark("two", 3)];
    let doc = document(vec![(u32::MAX - 2, catalog(2))], u32::MAX - 2);
    assert_eq!(attach_outline(doc, &marks), Err(BuildInvoiceError::IdentifierSpaceExhausted));
    let doc = document(vec![(u32::MAX - 3, catalog(2))], u32::MAX - 3);
    assert_eq!(attach_outline(doc, &marks).unwrap().max_id(), u32::MAX);
}
