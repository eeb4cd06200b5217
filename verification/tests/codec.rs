use invoy::document::Document;
use invoy::merge::merge;
use invoy::object::Dictionary;
use invoy::object::Object;
use invoy::object::Scalar;

fn name(word: &str) -> Object {
    Object::Primitive(Scalar::Name(word.as_bytes().to_vec()))
}

fn dict(pairs: Vec<(&str, Object)>) -> Dictionary {
    let mut made = Dictionary::new();
    for (key, value) in pairs {
        made = made.with(key.as_bytes().to_vec(), value);
    }
    made
}

/// A document of one page whose content is the given word.
fn single_page(word: &str) -> Document {
    Document::new()
        .with_object(
            1,
            Object::Dictionary(dict(vec![("Type", name("Catalog")), ("Pages", Object::Reference(2))])),
        )
        .unwrap()
        .with_object(
            2,
            Object::Dictionary(dict(vec![
                ("Type", name("Pages")),
                ("Kids", Object::Array(vec![Object::Reference(3)])),
                ("Count", Object::Primitive(Scalar::Integer(1))),
            ])),
        )
        .unwrap()
        .with_object(
            3,
            Object::Dictionary(dict(vec![
                ("Type", name("Page")),
                ("Parent", Object::Reference(2)),
                ("Contents", Object::Reference(4)),
            ])),
        )
        .unwrap()
        .with_object(4, Object::Stream(Dictionary::new(), word.as_bytes().to_vec()))
        .unwrap()
        .with_trailer(dict(vec![("Root", Object::Reference(1))]))
}

fn dictionary_out(dict: &Dictionary) -> lopdf::Dictionary {
    let mut out = lopdf::Dictionary::new();
    for entry in &dict.entries {
        out.set(entry.key.clone(), object_out(&entry.value));
    }
    out
}

fn object_out(object: &Object) -> lopdf::Object {
    match object {
        Object::Primitive(Scalar::Null) => lopdf::Object::Null,
        Object::Primitive(Scalar::Boolean(b)) => lopdf::Object::Boolean(*b),
        Object::Primitive(Scalar::Integer(i)) => lopdf::Object::Integer(*i),
        Object::Primitive(Scalar::Real(_)) => lopdf::Object::Null,
        Object::Primitive(Scalar::Name(name)) => lopdf::Object::Name(name.clone()),
        Object::Primitive(Scalar::Text(text)) => {
            lopdf::Object::String(text.clone(), lopdf::StringFormat::Literal)
        }
        Object::Reference(number) => lopdf::Object::Reference((*number, 0)),
        Object::Array(items) => lopdf::Object::Array(items.iter().map(object_out).collect()),
        Object::Dictionary(dict) => lopdf::Object::Dictionary(dictionary_out(dict)),
        Object::Stream(dict, data) => {
            lopdf::Object::Stream(lopdf::Stream::new(dictionary_out(dict), data.clone()))
        }
    }
}

/// Writes a document with the codec and reads it again.
fn through_the_codec(document: &Document) -> lopdf::Document {
    let mut out = lopdf::Document::with_version("1.5");
    for place in 0..document.len() {
        out.objects.insert((document.id_at(place), 0), object_out(document.object_at(place)));
    }
    out.trailer = dictionary_out(document.trailer());
    out.max_id = document.max_id();
    let mut bytes = Vec::new();
    out.save_to(&mut bytes).unwrap();
    lopdf::Document::load_mem(&bytes).unwrap()
}

fn reference(object: &lopdf::Object) -> u32 {
    match object {
        lopdf::Object::Reference((number, _)) => *number,
        _ => panic!("no reference"),
    }
}

#[test]
fn reads_the_merged_pages_back_in_order() {
    let merged = merge(&vec![single_page("A"), single_page("B"), single_page("C")]).unwrap();
    let read = through_the_codec(&merged);

    // From the catalog, through the pages root, to the pages.
    let catalog = read.catalog().unwrap();
    let pages_root = reference(catalog.get(b"Pages").unwrap());
    let pages = read.get_dictionary((pages_root, 0)).unwrap();
    let kids: Vec<u32> = match pages.get(b"Kids").unwrap() {
        lopdf::Object::Array(items) => items.iter().map(reference).collect(),
        _ => panic!("no kids"),
    };
    assert_eq!(kids, vec![3, 5, 7]);
    assert!(matches!(pages.get(b"Count").unwrap(), lopdf::Object::Integer(3)));

    // The codec finds the same pages, with the content of each source.
    let found: Vec<u32> = read.get_pages().values().map(|id| id.0).collect();
    assert_eq!(found, kids);
    let contents: Vec<Vec<u8>> = found
        .iter()
        .map(|page| {
            let page = read.get_dictionary((*page, 0)).unwrap();
            match read.get_object((reference(page.get(b"Contents").unwrap()), 0)).unwrap() {
                lopdf::Object::Stream(stream) => stream.content.clone(),
                _ => panic!("no stream"),
            }
        })
        .collect();
    assert_eq!(contents, vec![b"A".to_vec(), b"B".to_vec(), b"C".to_vec()]);
    for page in &found {
        let parent = read.get_dictionary((*page, 0)).unwrap().get(b"Parent").unwrap();
        assert_eq!(reference(parent), pages_root);
    }

    // The bookmarks are read back as well.
    let outline = read.get_dictionary((reference(catalog.get(b"Outlines").unwrap()), 0)).unwrap();
    let mut node = reference(outline.get(b"First").unwrap());
    let mut titles = Vec::new();
    loop {
        let item = read.get_dictionary((node, 0)).unwrap();
        match item.get(b"Title").unwrap() {
            lopdf::Object::String(title, _) => titles.push(title.clone()),
            _ => panic!("no title"),
        }
        match item.get(b"Next") {
            Ok(next) => node = reference(next),
            Err(_) => break,
        }
    }
    assert_eq!(titles, vec![b"Page_1".to_vec(), b"Page_2".to_vec(), b"Page_3".to_vec()]);
    // Every object of the merged document is read back under its identifier.
    for place in 0..merged.len() {
        assert!(read.objects.contains_key(&(merged.id_at(place), 0)));
    }
}
