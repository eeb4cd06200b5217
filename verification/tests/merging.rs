use invoy::document::Document;
use invoy::err::BuildInvoiceError;
use invoy::merge::assemble;
use invoy::merge::gather;
use invoy::merge::merge;
use invoy::object::Dictionary;
use invoy::object::Object;
use invoy::object::Scalar;
use invoy::pages::page_list;

fn name(word: &str) -> Object {
    Object::Primitive(Scalar::Name(word.as_bytes().to_vec()))
}

fn number(n: i64) -> Object {
    Object::Primitive(Scalar::Integer(n))
}

fn refs(ids: &[u32]) -> Object {
    Object::Array(ids.iter().map(|id| Object::Reference(*id)).collect())
}

fn dict(pairs: Vec<(&str, Object)>) -> Dictionary {
    let mut made = Dictionary::new();
    for (key, value) in pairs {
        made = made.with(key.as_bytes().to_vec(), value);
    }
    made
}

fn document(objects: Vec<(u32, Object)>, root: u32) -> Document {
    let mut doc = Document::new();
    for (id, object) in objects {
        doc = doc.with_object(id, object).unwrap();
    }
    doc.with_trailer(dict(vec![("Root", Object::Reference(root))]))
}

fn under<'a>(object: &'a Object, key: &str) -> Option<&'a Object> {
    match object {
        Object::Dictionary(dict) => dict.get(key.as_bytes()),
        _ => None,
    }
}

/// A document of one page whose content is the given word.
fn single_page(word: &str) -> Document {
    document(
        vec![
            (1, Object::Dictionary(dict(vec![("Type", name("Catalog")), ("Pages", Object::Reference(2))]))),
            (
                2,
                Object::Dictionary(dict(vec![
                    ("Type", name("Pages")),
                    ("Kids", refs(&[3])),
                    ("Count", number(1)),
                ])),
            ),
            (
                3,
                Object::Dictionary(dict(vec![
                    ("Type", name("Page")),
                    ("Parent", Object::Reference(2)),
                    ("Contents", Object::Reference(4)),
                ])),
            ),
            (4, Object::Stream(dict(vec![("Length", number(word.len() as i64))]), word.as_bytes().to_vec())),
        ],
        1,
    )
}

/// The content that a page of a merged document shows.
fn content_of(doc: &Document, page: u32) -> Vec<u8> {
    let contents = match under(doc.get(page).unwrap(), "Contents") {
        Some(Object::Reference(id)) => *id,
        other => panic!("no contents: {other:?}"),
    };
    match doc.get(contents).unwrap() {
        Object::Stream(_, data) => data.clone(),
        other => panic!("no stream: {other:?}"),
    }
}

fn ids_of(doc: &Document) -> Vec<u32> {
    (0..doc.len()).map(|place| doc.id_at(place)).collect()
}

#[test]
fn merges_three_single_pages_in_order() {
    let merged = merge(&vec![single_page("A"), single_page("B"), single_page("C")]).unwrap();
    let root = match merged.trailer().get(b"Root") {
        Some(Object::Reference(id)) => *id,
        other => panic!("no root: {other:?}"),
    };
    let catalog = merged.get(root).unwrap();
    assert_eq!(under(catalog, "Type"), Some(&name("Catalog")));
    let pages_root = match under(catalog, "Pages") {
        Some(Object::Reference(id)) => *id,
        other => panic!("no pages: {other:?}"),
    };
    let pages = merged.get(pages_root).unwrap();
    assert_eq!(under(pages, "Type"), Some(&name("Pages")));
    assert_eq!(under(pages, "Count"), Some(&number(3)));
    assert_eq!(under(pages, "Kids"), Some(&refs(&[3, 5, 7])));
    assert_eq!(content_of(&merged, 3), b"A");
    assert_eq!(content_of(&merged, 5), b"B");
    assert_eq!(content_of(&merged, 7), b"C");
    assert_eq!(page_list(&merged), vec![3, 5, 7]);
    for page in [3, 5, 7] {
        let object = merged.get(page).unwrap();
        assert_eq!(under(object, "Type"), Some(&name("Page")));
        assert_eq!(under(object, "Parent"), Some(&Object::Reference(pages_root)));
    }
}

#[test]
fn numbers_the_merged_objects_from_one_without_gaps() {
    let merged = merge(&vec![single_page("A"), single_page("B"), single_page("C")]).unwrap();
    // One catalog, one pages root, three pages with their contents, and
    // the outline: a root and three bookmarks.
    assert_eq!(ids_of(&merged), (1..=12).collect::<Vec<u32>>());
    assert_eq!(merged.max_id(), 12);
    assert_eq!(merged.len(), 12);
}

#[test]
fn keeps_one_catalog_and_one_pages_root() {
    let merged = merge(&vec![single_page("A"), single_page("B"), single_page("C")]).unwrap();
    let mut catalogs = 0;
    let mut roots = 0;
    let mut pages = 0;
    for place in 0..merged.len() {
        match under(merged.object_at(place), "Type") {
            Some(kind) if *kind == name("Catalog") => catalogs += 1,
            Some(kind) if *kind == name("Pages") => roots += 1,
            Some(kind) if *kind == name("Page") => pages += 1,
            _ => {},
        }
    }
    assert_eq!((catalogs, roots, pages), (1, 1, 3));
}

#[test]
fn gives_each_document_a_bookmark_on_its_first_page() {
    let merged = merge(&vec![single_page("A"), single_page("B"), single_page("C")]).unwrap();
    let outline = match under(merged.get(1).unwrap(), "Outlines") {
        Some(Object::Reference(id)) => *id,
        other => panic!("no outline: {other:?}"),
    };
    assert_eq!(outline, 9);
    let root = merged.get(outline).unwrap();
    assert_eq!(under(root, "Type"), Some(&name("Outlines")));
    assert_eq!(under(root, "Count"), Some(&number(3)));
    assert_eq!(under(root, "First"), Some(&Object::Reference(10)));
    assert_eq!(under(root, "Last"), Some(&Object::Reference(12)));
    let expected = [(10, "Page_1", 3), (11, "Page_2", 5), (12, "Page_3", 7)];
    for (id, title, page) in expected {
        let item = merged.get(id).unwrap();
        assert_eq!(
            under(item, "Title"),
            Some(&Object::Primitive(Scalar::Text(title.as_bytes().to_vec())))
        );
        assert_eq!(under(item, "Parent"), Some(&Object::Reference(9)));
        assert_eq!(
            under(item, "Dest"),
            Some(&Object::Array(vec![Object::Reference(page), name("Fit")]))
        );
        assert_eq!(
            under(item, "C"),
            Some(&Object::Array(vec![number(0), number(0), number(1)]))
        );
        assert_eq!(
            under(item, "Prev"),
            if id > 10 { Some(Object::Reference(id - 1)) } else { None }.as_ref()
        );
        assert_eq!(
            under(item, "Next"),
            if id < 12 { Some(Object::Reference(id + 1)) } else { None }.as_ref()
        );
    }
}

#[test]
fn merges_a_single_document_into_itself() {
    let merged = merge(&vec![single_page("A")]).unwrap();
    let pages = merged.get(2).unwrap();
    assert_eq!(under(pages, "Kids"), Some(&refs(&[3])));
    assert_eq!(under(pages, "Count"), Some(&number(1)));
    assert_eq!(page_list(&merged), page_list(&single_page("A")));
    assert_eq!(content_of(&merged, 3), b"A");
    // The outline follows the four objects of the document.
    assert_eq!(ids_of(&merged), vec![1, 2, 3, 4, 5, 6]);
    assert_eq!(under(merged.get(1).unwrap(), "Outlines"), Some(&Object::Reference(5)));
    assert_eq!(
        under(merged.get(6).unwrap(), "Title"),
        Some(&Object::Primitive(Scalar::Text(b"Page_1".to_vec())))
    );
    assert_eq!(under(merged.get(6).unwrap(), "Prev"), None);
    assert_eq!(under(merged.get(6).unwrap(), "Next"), None);
}

#[test]
fn fails_without_a_pages_root() {
    let lone = document(
        vec![(1, Object::Dictionary(dict(vec![("Type", name("Catalog"))])))],
        1,
    );
    assert_eq!(merge(&vec![lone]), Err(BuildInvoiceError::NoPagesRoot));
    let bare = document(vec![(1, number(7))], 1);
    assert_eq!(merge(&vec![bare, Document::new()]), Err(BuildInvoiceError::NoPagesRoot));
}

#[test]
fn fails_on_an_empty_list() {
    assert_eq!(merge(&Vec::new()), Err(BuildInvoiceError::NoPagesRoot));
}

#[test]
fn fails_without_a_catalog() {
    let doc = document(
        vec![(
            2,
            Object::Dictionary(dict(vec![("Type", name("Pages")), ("Kids", refs(&[])), ("Count", number(0))])),
        )],
        1,
    );
    assert_eq!(merge(&vec![doc]), Err(BuildInvoiceError::NoCatalogRoot));
}

#[test]
fn fails_when_identifiers_run_out() {
    let high = |word: &str| {
        document(
            vec![(3_000_000_000, Object::Stream(Dictionary::new(), word.as_bytes().to_vec()))],
            1,
        )
    };
    assert_eq!(
        merge(&vec![high("A"), high("B")]),
        Err(BuildInvoiceError::IdentifierSpaceExhausted)
    );
    assert!(gather(&vec![high("A"), high("B")]).is_none());
    // One such document still fits.
    assert_eq!(merge(&vec![high("A")]), Err(BuildInvoiceError::NoPagesRoot));
    let top = document(vec![(u32::MAX, number(1))], 1);
    assert_eq!(merge(&vec![top]), Err(BuildInvoiceError::IdentifierSpaceExhausted));
}

#[test]
fn gathers_the_documents_into_ranges_that_do_not_overlap() {
    let gathered = gather(&vec![single_page("A"), single_page("B"), single_page("C")]).unwrap();
    assert_eq!(ids_of(&gathered.pool), vec![2, 3, 4, 5, 7, 8, 9, 10, 12, 13, 14, 15]);
    assert_eq!(gathered.pool.max_id(), 15);
    assert_eq!(gathered.pages, vec![4, 9, 14]);
    assert_eq!(gathered.first_pages, vec![4, 9, 14]);
    // References moved with the objects.
    assert_eq!(under(gathered.pool.get(9).unwrap(), "Contents"), Some(&Object::Reference(10)));
    assert_eq!(under(gathered.pool.get(8).unwrap(), "Kids"), Some(&refs(&[9])));
}

#[test]
fn assembles_the_graph_around_the_first_catalog_and_pages_root() {
    let gathered = gather(&vec![single_page("A"), single_page("B")]).unwrap();
    let graph = assemble(&gathered.pool, &gathered.pages).unwrap();
    assert_eq!(ids_of(&graph), vec![2, 3, 4, 5, 9, 10]);
    assert_eq!(graph.trailer().get(b"Root"), Some(&Object::Reference(2)));
    assert_eq!(under(graph.get(2).unwrap(), "Pages"), Some(&Object::Reference(3)));
    assert_eq!(under(graph.get(3).unwrap(), "Kids"), Some(&refs(&[4, 9])));
    assert_eq!(under(graph.get(3).unwrap(), "Count"), Some(&number(2)));
    assert_eq!(under(graph.get(9).unwrap(), "Parent"), Some(&Object::Reference(3)));
    assert_eq!(graph.max_id(), 10);
}

#[test]
fn merges_the_dictionaries_of_pages_roots_with_the_later_value_standing() {
    let with_root = |extra: Vec<(&str, Object)>| {
        let mut entries = vec![("Type", name("Pages")), ("Kids", refs(&[3])), ("Count", number(1))];
        entries.extend(extra);
        document(
            vec![
                (1, Object::Dictionary(dict(vec![("Type", name("Catalog")), ("Pages", Object::Reference(2))]))),
                (2, Object::Dictionary(dict(entries))),
                (3, Object::Dictionary(dict(vec![("Type", name("Page")), ("Parent", Object::Reference(2))]))),
            ],
            1,
        )
    };
    let first = with_root(vec![("Rotate", number(0)), ("Lang", name("en"))]);
    let second = with_root(vec![("Rotate", number(90)), ("MediaBox", refs(&[]))]);
    let merged = merge(&vec![first, second]).unwrap();
    let pages = merged.get(2).unwrap();
    assert_eq!(under(pages, "Rotate"), Some(&number(90)));
    assert_eq!(under(pages, "Lang"), Some(&name("en")));
    assert_eq!(under(pages, "MediaBox"), Some(&refs(&[])));
    assert_eq!(under(pages, "Count"), Some(&number(2)));
    assert_eq!(under(pages, "Kids"), Some(&refs(&[3, 4])));
}

#[test]
fn drops_the_navigation_trees_of_the_sources() {
    let doc = document(
        vec![
            (
                1,
                Object::Dictionary(dict(vec![
                    ("Type", name("Catalog")),
                    ("Pages", Object::Reference(2)),
                    ("Outlines", Object::Reference(5)),
                ])),
            ),
            (2, Object::Dictionary(dict(vec![("Type", name("Pages")), ("Kids", refs(&[3]))]))),
            (3, Object::Dictionary(dict(vec![("Type", name("Page")), ("Parent", Object::Reference(2))]))),
            (5, Object::Dictionary(dict(vec![("Type", name("Outlines")), ("First", Object::Reference(6))]))),
            (
                6,
                Object::Dictionary(dict(vec![
                    ("Type", name("Outline")),
                    ("Title", Object::Primitive(Scalar::Text(b"old".to_vec()))),
                ])),
            ),
            (7, Object::Array(vec![Object::Reference(6), Object::Reference(3)])),
        ],
        1,
    );
    let merged = merge(&vec![doc]).unwrap();
    assert_eq!(ids_of(&merged), vec![1, 2, 3, 4, 5, 6]);
    // The array stays; its reference to the dropped node is the null object.
    assert_eq!(
        merged.get(4),
        Some(&Object::Array(vec![Object::Primitive(Scalar::Null), Object::Reference(3)]))
    );
    assert_eq!(under(merged.get(1).unwrap(), "Outlines"), Some(&Object::Reference(5)));
    assert_eq!(
        under(merged.get(6).unwrap(), "Title"),
        Some(&Object::Primitive(Scalar::Text(b"Page_1".to_vec())))
    );
}

#[test]
fn leaves_out_pages_that_no_document_shows() {
    let doc = document(
        vec![
            (1, Object::Dictionary(dict(vec![("Type", name("Catalog")), ("Pages", Object::Reference(2))]))),
            (2, Object::Dictionary(dict(vec![("Type", name("Pages")), ("Kids", refs(&[4]))]))),
            (3, Object::Dictionary(dict(vec![("Type", name("Page")), ("Parent", Object::Reference(2))]))),
            (4, Object::Dictionary(dict(vec![("Type", name("Page")), ("Parent", Object::Reference(2))]))),
        ],
        1,
    );
    let merged = merge(&vec![doc]).unwrap();
    assert_eq!(under(merged.get(2).unwrap(), "Kids"), Some(&refs(&[3])));
    assert_eq!(under(merged.get(2).unwrap(), "Count"), Some(&number(1)));
    assert_eq!(merged.len(), 5);
}

#[test]
fn gives_no_bookmark_to_a_document_without_pages() {
    let empty = document(
        vec![
            (1, Object::Dictionary(dict(vec![("Type", name("Catalog")), ("Pages", Object::Reference(2))]))),
            (2, Object::Dictionary(dict(vec![("Type", name("Pages")), ("Kids", refs(&[]))]))),
        ],
        1,
    );
    let merged = merge(&vec![empty, single_page("B")]).unwrap();
    // Catalog, pages root, the page and its content, then the outline.
    assert_eq!(ids_of(&merged), vec![1, 2, 3, 4, 5, 6]);
    assert_eq!(under(merged.get(2).unwrap(), "Kids"), Some(&refs(&[3])));
    assert_eq!(under(merged.get(5).unwrap(), "Count"), Some(&number(1)));
    assert_eq!(
        under(merged.get(6).unwrap(), "Title"),
        Some(&Object::Primitive(Scalar::Text(b"Page_1".to_vec())))
    );
    assert_eq!(
        under(merged.get(6).unwrap(), "Dest"),
        Some(&Object::Array(vec![Object::Reference(3), name("Fit")]))
    );
}

#[test]
fn attaches_no_outline_where_nothing_is_shown() {
    let empty = document(
        vec![
            (
                1,
                Object::Dictionary(dict(vec![
                    ("Type", name("Catalog")),
                    ("Pages", Object::Reference(2)),
                    ("Outlines", Object::Reference(9)),
                ])),
            ),
            (2, Object::Dictionary(dict(vec![("Type", name("Pages")), ("Kids", refs(&[]))]))),
        ],
        1,
    );
    let merged = merge(&vec![empty]).unwrap();
    assert_eq!(ids_of(&merged), vec![1, 2]);
    assert_eq!(under(merged.get(1).unwrap(), "Outlines"), None);
    assert_eq!(under(merged.get(2).unwrap(), "Count"), Some(&number(0)));
    assert_eq!(under(merged.get(2).unwrap(), "Kids"), Some(&refs(&[])));
}

/// A document whose pages show the given words; the page tree lists them
/// through a nested node, and not in the order of their identifiers.
fn booklet(words: [&str; 3]) -> Document {
    let leaf = |parent: u32, contents: u32| {
        Object::Dictionary(dict(vec![
            ("Type", name("Page")),
            ("Parent", Object::Reference(parent)),
            ("Contents", Object::Reference(contents)),
        ]))
    };
    let text = |word: &str| Object::Stream(Dictionary::new(), word.as_bytes().to_vec());
    document(
        vec![
            (2, text(words[2])),
            (3, leaf(10, 2)),
            (4, text(words[0])),
            (5, leaf(9, 4)),
            (6, text(words[1])),
            (7, leaf(9, 6)),
            (9, Object::Dictionary(dict(vec![("Type", name("Pages")), ("Kids", refs(&[5, 7]))]))),
            (10, Object::Dictionary(dict(vec![("Type", name("Pages")), ("Kids", refs(&[9, 3]))]))),
            (12, Object::Dictionary(dict(vec![("Type", name("Catalog")), ("Pages", Object::Reference(10))]))),
        ],
        12,
    )
}

#[test]
fn keeps_the_order_in_which_each_document_shows_its_pages() {
    let merged = merge(&vec![
        booklet(["a1", "a2", "a3"]),
        single_page("b"),
        booklet(["c1", "c2", "c3"]),
    ])
    .unwrap();
    let shown: Vec<Vec<u8>> =
        page_list(&merged).iter().map(|page| content_of(&merged, *page)).collect();
    let expected: Vec<Vec<u8>> = ["a1", "a2", "a3", "b", "c1", "c2", "c3"]
        .iter()
        .map(|word| word.as_bytes().to_vec())
        .collect();
    assert_eq!(shown, expected);
    // One pages root is left, and it lists all seven pages itself.
    let root = match merged.trailer().get(b"Root") {
        Some(Object::Reference(id)) => *id,
        other => panic!("no root: {other:?}"),
    };
    let pages_root = match under(merged.get(root).unwrap(), "Pages") {
        Some(Object::Reference(id)) => *id,
        other => panic!("no pages: {other:?}"),
    };
    let kids: Vec<Object> = page_list(&merged).iter().map(|id| Object::Reference(*id)).collect();
    assert_eq!(under(merged.get(pages_root).unwrap(), "Kids"), Some(&Object::Array(kids)));
    assert_eq!(under(merged.get(pages_root).unwrap(), "Count"), Some(&number(7)));
    for page in page_list(&merged) {
        assert_eq!(under(merged.get(page).unwrap(), "Parent"), Some(&Object::Reference(pages_root)));
    }
    // The bookmarks lead to the first page of each document.
    let titles_and_targets: Vec<(Vec<u8>, Vec<u8>)> = (0..merged.len())
        .filter_map(|place| {
            let object = merged.object_at(place);
            match (under(object, "Title"), under(object, "Dest")) {
                (Some(Object::Primitive(Scalar::Text(title))), Some(Object::Array(dest))) => {
                    match dest.first() {
                        Some(Object::Reference(page)) => {
                            Some((title.clone(), content_of(&merged, *page)))
                        }
                        _ => None,
                    }
                }
                _ => None,
            }
        })
        .collect();
    assert_eq!(
        titles_and_targets,
        vec![
            (b"Page_1".to_vec(), b"a1".to_vec()),
            (b"Page_2".to_vec(), b"b".to_vec()),
            (b"Page_3".to_vec(), b"c1".to_vec()),
        ]
    );
    // No two objects share an identifier.
    let ids = ids_of(&merged);
    assert_eq!(ids, (1..=ids.len() as u32).collect::<Vec<u32>>());
}

/// The identifiers that the references in an object name.
fn named_in(object: &Object, found: &mut Vec<u32>) {
    match object {
        Object::Primitive(_) => {},
        Object::Reference(id) => found.push(*id),
        Object::Array(items) => items.iter().for_each(|item| named_in(item, found)),
        Object::Dictionary(dict) => {
            dict.entries.iter().for_each(|entry| named_in(&entry.value, found))
        },
        Object::Stream(dict, _) => {
            dict.entries.iter().for_each(|entry| named_in(&entry.value, found))
        },
    }
}

#[test]
fn leaves_no_reference_that_leads_nowhere() {
    let stray = document(
        vec![
            (
                1,
                Object::Dictionary(dict(vec![
                    ("Type", name("Catalog")),
                    ("Pages", Object::Reference(2)),
                    ("Outlines", Object::Reference(40)),
                    ("Names", Object::Reference(6)),
                ])),
            ),
            (
                2,
                Object::Dictionary(dict(vec![("Type", name("Pages")), ("Kids", refs(&[3, 77, 5]))])),
            ),
            (
                3,
                Object::Dictionary(dict(vec![
                    ("Type", name("Page")),
                    ("Parent", Object::Reference(2)),
                    ("Annots", refs(&[8, 9, 4_000_000_000])),
                ])),
            ),
            (5, Object::Dictionary(dict(vec![("Type", name("Outline")), ("Next", Object::Reference(3))]))),
            (8, Object::Stream(dict(vec![("Up", Object::Reference(5))]), vec![1, 2, 3])),
        ],
        1,
    );
    let merged = merge(&vec![stray, single_page("B"), booklet(["c1", "c2", "c3"])]).unwrap();
    let mut named = Vec::new();
    for place in 0..merged.len() {
        named_in(merged.object_at(place), &mut named);
    }
    merged.trailer().entries.iter().for_each(|entry| named_in(&entry.value, &mut named));
    assert!(!named.is_empty());
    for id in named {
        assert!(merged.get(id).is_some(), "{id} leads nowhere");
    }
    // What led nowhere is the null object now.
    let first_page = page_list(&merged)[0];
    assert_eq!(
        under(merged.get(first_page).unwrap(), "Annots"),
        Some(&Object::Array(vec![
            Object::Reference(first_page + 1),
            Object::Primitive(Scalar::Null),
            Object::Primitive(Scalar::Null),
        ]))
    );
    assert_eq!(page_list(&merged).len(), 5);
}
