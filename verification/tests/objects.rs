use invoy::document::find_id;
use invoy::document::Document;
use invoy::names;
use invoy::object::ascii;
use invoy::object::bytes_eq;
use invoy::object::copy_object;
use invoy::object::copy_scalar;
use invoy::object::role_of;
use invoy::object::DictEntry;
use invoy::object::Dictionary;
use invoy::object::Object;
use invoy::object::Role;
use invoy::object::Scalar;
use invoy::renumber::compact;
use invoy::renumber::renumber;

fn name(word: &str) -> Object {
    Object::Primitive(Scalar::Name(word.as_bytes().to_vec()))
}

fn number(n: i64) -> Object {
    Object::Primitive(Scalar::Integer(n))
}

fn dict(pairs: Vec<(&str, Object)>) -> Dictionary {
    let mut made = Dictionary::new();
    for (key, value) in pairs {
        made = made.with(key.as_bytes().to_vec(), value);
    }
    made
}

fn keys(dict: &Dictionary) -> Vec<String> {
    dict.entries.iter().map(|entry| String::from_utf8(entry.key.clone()).unwrap()).collect()
}

#[test]
fn turns_words_into_bytes() {
    assert_eq!(ascii("Type"), b"Type".to_vec());
    assert_eq!(ascii(""), Vec::<u8>::new());
    assert_eq!(names::kind(), b"Type".to_vec());
    assert_eq!(names::catalog(), b"Catalog".to_vec());
    assert_eq!(names::pages(), b"Pages".to_vec());
    assert_eq!(names::page(), b"Page".to_vec());
    assert_eq!(names::outlines(), b"Outlines".to_vec());
    assert_eq!(names::outline(), b"Outline".to_vec());
    assert_eq!(names::kids(), b"Kids".to_vec());
    assert_eq!(names::count(), b"Count".to_vec());
    assert_eq!(names::parent(), b"Parent".to_vec());
    assert_eq!(names::root(), b"Root".to_vec());
    assert_eq!(names::first(), b"First".to_vec());
    assert_eq!(names::last(), b"Last".to_vec());
    assert_eq!(names::next(), b"Next".to_vec());
    assert_eq!(names::prev(), b"Prev".to_vec());
    assert_eq!(names::title(), b"Title".to_vec());
    assert_eq!(names::dest(), b"Dest".to_vec());
    assert_eq!(names::fit(), b"Fit".to_vec());
    assert_eq!(names::color(), b"C".to_vec());
}

#[test]
fn compares_bytes() {
    assert!(bytes_eq(b"Page", b"Page"));
    assert!(!bytes_eq(b"Page", b"Pages"));
    assert!(!bytes_eq(b"Page", b"Pags"));
    assert!(bytes_eq(b"", b""));
}

#[test]
fn copies_objects_with_all_they_hold() {
    let deep = Object::Array(vec![
        Object::Dictionary(dict(vec![("A", Object::Array(vec![number(1), Object::Reference(9)]))])),
        Object::Stream(dict(vec![("Length", number(2))]), vec![7, 8]),
        Object::Primitive(Scalar::Real(b"1.5".to_vec())),
        Object::Primitive(Scalar::Boolean(true)),
        Object::Primitive(Scalar::Null),
    ]);
    assert_eq!(copy_object(&deep), deep);
    assert_eq!(copy_scalar(&Scalar::Text(b"x".to_vec())), Scalar::Text(b"x".to_vec()));
}

#[test]
fn reads_the_last_entry_of_a_key() {
    let twice = Dictionary {
        entries: vec![
            DictEntry { key: b"K".to_vec(), value: number(1) },
            DictEntry { key: b"L".to_vec(), value: number(2) },
            DictEntry { key: b"K".to_vec(), value: number(3) },
        ],
    };
    assert_eq!(twice.get(b"K"), Some(&number(3)));
    assert_eq!(twice.get(b"L"), Some(&number(2)));
    assert_eq!(twice.get(b"M"), None);
    assert_eq!(twice.without(b"K").entries, vec![DictEntry { key: b"L".to_vec(), value: number(2) }]);
    assert_eq!(Dictionary::new().get(b"K"), None);
}

#[test]
fn sets_a_key_once() {
    let made = dict(vec![("A", number(1)), ("B", number(2)), ("A", number(3))]);
    assert_eq!(keys(&made), vec!["B", "A"]);
    assert_eq!(made.get(b"A"), Some(&number(3)));
    assert_eq!(made.get(b"B"), Some(&number(2)));
    assert_eq!(made.copy(), made);
}

#[test]
fn merges_dictionaries_with_the_later_value_standing() {
    let early = dict(vec![("A", number(1)), ("B", number(2))]);
    let late = dict(vec![("B", number(20)), ("C", number(30))]);
    let both = early.merged_with(&late);
    assert_eq!(both.get(b"A"), Some(&number(1)));
    assert_eq!(both.get(b"B"), Some(&number(20)));
    assert_eq!(both.get(b"C"), Some(&number(30)));
    assert_eq!(both.entries.len(), 3);
    assert_eq!(early.merged_with(&Dictionary::new()), early);
}

#[test]
fn tells_the_part_of_an_object() {
    let typed = |word: &str| Object::Dictionary(dict(vec![("Type", name(word))]));
    assert_eq!(role_of(&typed("Catalog")), Role::Catalog);
    assert_eq!(role_of(&typed("Pages")), Role::PagesRoot);
    assert_eq!(role_of(&typed("Page")), Role::Page);
    assert_eq!(role_of(&typed("Outlines")), Role::Outline);
    assert_eq!(role_of(&typed("Outline")), Role::Outline);
    assert_eq!(role_of(&typed("Font")), Role::Other);
    assert_eq!(role_of(&typed("page")), Role::Other);
    assert_eq!(role_of(&Object::Dictionary(Dictionary::new())), Role::Other);
    assert_eq!(role_of(&number(1)), Role::Other);
    // Only a name counts as a kind, and only in a dictionary.
    assert_eq!(
        role_of(&Object::Dictionary(dict(vec![(
            "Type",
            Object::Primitive(Scalar::Text(b"Page".to_vec()))
        )]))),
        Role::Other
    );
    assert_eq!(role_of(&Object::Stream(dict(vec![("Type", name("Page"))]), Vec::new())), Role::Other);
}

#[test]
fn finds_identifiers_among_ascending_ones() {
    let ids = vec![2, 3, 5, 8, 13];
    assert_eq!(find_id(&ids, 2), Some(0));
    assert_eq!(find_id(&ids, 8), Some(3));
    assert_eq!(find_id(&ids, 13), Some(4));
    assert_eq!(find_id(&ids, 1), None);
    assert_eq!(find_id(&ids, 6), None);
    assert_eq!(find_id(&ids, 14), None);
    assert_eq!(find_id(&Vec::new(), 1), None);
}

#[test]
fn keeps_the_objects_of_a_document_in_ascending_order() {
    let doc = Document::new()
        .with_object(5, number(50))
        .unwrap()
        .with_object(2, number(20))
        .unwrap()
        .with_object(9, number(90))
        .unwrap()
        .with_object(5, number(55))
        .unwrap();
    assert_eq!(doc.len(), 3);
    assert_eq!((doc.id_at(0), doc.id_at(1), doc.id_at(2)), (2, 5, 9));
    assert_eq!(doc.object_at(1), &number(55));
    assert_eq!(doc.get(9), Some(&number(90)));
    assert_eq!(doc.get(3), None);
    assert_eq!(doc.find(5), Some(1));
    assert_eq!(doc.find(6), None);
    assert_eq!(doc.max_id(), 9);
    assert_eq!(doc.copy(), doc);
}

#[test]
fn holds_no_object_under_zero() {
    assert_eq!(Document::new().with_object(0, number(1)), None);
    assert_eq!(Document::new().len(), 0);
    assert_eq!(Document::new().max_id(), 0);
    assert_eq!(Document::new().trailer(), &Dictionary::new());
}

#[test]
fn shifts_identifiers_and_the_references_to_them() {
    let doc = Document::new()
        .with_object(1, Object::Dictionary(dict(vec![("Next", Object::Reference(3))])))
        .unwrap()
        .with_object(
            3,
            Object::Array(vec![
                Object::Reference(1),
                Object::Reference(2),
                Object::Stream(dict(vec![("Self", Object::Reference(3))]), vec![1]),
            ]),
        )
        .unwrap()
        .with_trailer(dict(vec![("Root", Object::Reference(1)), ("Info", Object::Reference(7))]));
    let moved = renumber(&doc, 10);
    assert_eq!((moved.len(), moved.id_at(0), moved.id_at(1)), (2, 11, 13));
    assert_eq!(moved.max_id(), 13);
    assert_eq!(moved.get(11), Some(&Object::Dictionary(dict(vec![("Next", Object::Reference(13))]))));
    // A reference that leads nowhere stands for the null object.
    assert_eq!(
        moved.get(13),
        Some(&Object::Array(vec![
            Object::Reference(11),
            Object::Primitive(Scalar::Null),
            Object::Stream(dict(vec![("Self", Object::Reference(13))]), vec![1]),
        ]))
    );
    assert_eq!(moved.trailer().get(b"Root"), Some(&Object::Reference(11)));
    assert_eq!(moved.trailer().get(b"Info"), Some(&Object::Primitive(Scalar::Null)));
    assert_eq!(renumber(&doc, 0), renumber(&renumber(&doc, 0), 0));
    assert_eq!(renumber(&Document::new(), 4).max_id(), 4);
}

#[test]
fn closes_the_gaps_between_identifiers() {
    let doc = Document::new()
        .with_object(4, Object::Reference(9))
        .unwrap()
        .with_object(9, Object::Array(vec![Object::Reference(4), Object::Reference(5)]))
        .unwrap()
        .with_object(20, Object::Dictionary(dict(vec![("Up", Object::Reference(20))])))
        .unwrap()
        .with_trailer(dict(vec![("Root", Object::Reference(20))]));
    let dense = compact(&doc);
    assert_eq!((dense.id_at(0), dense.id_at(1), dense.id_at(2)), (1, 2, 3));
    assert_eq!(dense.max_id(), 3);
    assert_eq!(dense.get(1), Some(&Object::Reference(2)));
    assert_eq!(
        dense.get(2),
        Some(&Object::Array(vec![Object::Reference(1), Object::Primitive(Scalar::Null)]))
    );
    assert_eq!(dense.get(3), Some(&Object::Dictionary(dict(vec![("Up", Object::Reference(3))]))));
    assert_eq!(dense.trailer().get(b"Root"), Some(&Object::Reference(3)));
    assert_eq!(compact(&dense), dense);
    assert_eq!(compact(&Document::new()), Document::new());
}
