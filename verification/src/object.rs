//! The object model of a document: scalars, references, arrays, dictionaries
//! and streams, each with its mathematical view.
//!
//! Names, texts and the keys of dictionaries are bytes. A real number is
//! kept as the bytes it was written with: merging never computes with one.

use vstd::prelude::*;
use vstd::string::StrSliceExecFns;

verus! {

/// The bytes of a text made of ASCII characters.
pub open spec fn bytes_of(text: Seq<char>) -> Seq<u8> {
    Seq::new(text.len(), |i: int| text[i] as u8)
}

/// Turns an ASCII text into its bytes.
pub fn ascii(text: &str) -> (bytes: Vec<u8>)
    requires
        vstd::string::is_ascii(text),
    ensures
        bytes@ == bytes_of(text@),
{
    let count = text.unicode_len();
    let mut bytes: Vec<u8> = Vec::new();
    let mut i: usize = 0;
    while i < count
        invariant
            count == text@.len(),
            i <= count,
            vstd::string::is_ascii(text),
            bytes@ == bytes_of(text@).subrange(0, i as int),
        decreases count - i,
    {
        bytes.push(text.get_ascii(i));
        i += 1;
        assert(bytes@ =~= bytes_of(text@).subrange(0, i as int));
    }
    assert(bytes_of(text@).subrange(0, count as int) =~= bytes_of(text@));
    bytes
}

/// Whether two byte strings are the same.
pub fn bytes_eq(left: &[u8], right: &[u8]) -> (same: bool)
    ensures
        same == (left@ == right@),
{
    if left.len() != right.len() {
        return false;
    }
    let mut i: usize = 0;
    while i < left.len()
        invariant
            left.len() == right.len(),
            i <= left.len(),
            forall|k: int| 0 <= k < i ==> left@[k] == right@[k],
        decreases left.len() - i,
    {
        if left[i] != right[i] {
            return false;
        }
        i += 1;
    }
    assert(left@ =~= right@);
    true
}

/// A scalar value.
#[derive(Debug, Clone, PartialEq, Eq)]
pub enum Scalar {
    Null,
    Boolean(bool),
    Integer(i64),
    /// A real number, kept as the digits it was written with.
    Real(Vec<u8>),
    Name(Vec<u8>),
    Text(Vec<u8>),
}

/// What a scalar stands for.
pub enum ScalarView {
    Null,
    Boolean(bool),
    Integer(int),
    Real(Seq<u8>),
    Name(Seq<u8>),
    Text(Seq<u8>),
}

impl View for Scalar {
    type V = ScalarView;

    open spec fn view(&self) -> ScalarView {
        match self {
            Scalar::Null => ScalarView::Null,
            Scalar::Boolean(b) => ScalarView::Boolean(*b),
            Scalar::Integer(i) => ScalarView::Integer(*i as int),
            Scalar::Real(t) => ScalarView::Real(t@),
            Scalar::Name(n) => ScalarView::Name(n@),
            Scalar::Text(t) => ScalarView::Text(t@),
        }
    }
}

/// One key of a dictionary with its value.
#[derive(Debug, PartialEq, Eq)]
pub struct DictEntry {
    pub key: Vec<u8>,
    pub value: Object,
}

/// A dictionary, as the list of its entries. Where a key stands more than
/// once, its last entry counts.
#[derive(Debug, PartialEq, Eq)]
pub struct Dictionary {
    pub entries: Vec<DictEntry>,
}

/// An object of a document.
#[derive(Debug, PartialEq, Eq)]
pub enum Object {
    Primitive(Scalar),
    /// A reference to the object with this identifier.
    Reference(u32),
    Array(Vec<Object>),
    Dictionary(Dictionary),
    /// A dictionary with raw bytes.
    Stream(Dictionary, Vec<u8>),
}

/// What an object stands for: dictionaries are maps from keys to values.
pub enum ObjectView {
    Primitive(ScalarView),
    Reference(nat),
    Array(Seq<ObjectView>),
    Dictionary(Map<Seq<u8>, ObjectView>),
    Stream(Map<Seq<u8>, ObjectView>, Seq<u8>),
}

/// The map that a list of entries stands for.
pub open spec fn entries_view(entries: Seq<DictEntry>) -> Map<Seq<u8>, ObjectView>
    decreases entries, 0nat,
{
    if entries.len() == 0 {
        Map::empty()
    } else {
        entries_view(entries.drop_last()).insert(
            entries.last().key@,
            object_view(entries.last().value),
        )
    }
}

/// The views of a list of objects.
pub open spec fn items_view(items: Seq<Object>) -> Seq<ObjectView>
    decreases items, 0nat,
{
    if items.len() == 0 {
        Seq::empty()
    } else {
        items_view(items.drop_last()).push(object_view(items.last()))
    }
}

/// The view of an object.
pub open spec fn object_view(obj: Object) -> ObjectView
    decreases obj, 1nat,
{
    match obj {
        Object::Primitive(s) => ObjectView::Primitive(s@),
        Object::Reference(id) => ObjectView::Reference(id as nat),
        Object::Array(items) => ObjectView::Array(items_view(items@)),
        Object::Dictionary(dict) => ObjectView::Dictionary(entries_view(dict.entries@)),
        Object::Stream(dict, data) => ObjectView::Stream(entries_view(dict.entries@), data@),
    }
}

impl View for Object {
    type V = ObjectView;

    open spec fn view(&self) -> ObjectView {
        object_view(*self)
    }
}

impl View for Dictionary {
    type V = Map<Seq<u8>, ObjectView>;

    open spec fn view(&self) -> Map<Seq<u8>, ObjectView> {
        entries_view(self.entries@)
    }
}

/// The views of a list of objects have the list's length and hold each
/// object's view at its place.
pub proof fn lemma_items_view(items: Seq<Object>)
    ensures
        items_view(items).len() == items.len(),
        forall|i: int| 0 <= i < items.len() ==> #[trigger] items_view(items)[i] == object_view(items[i]),
    decreases items.len(),
{
    if items.len() > 0 {
        lemma_items_view(items.drop_last());
    }
}

/// Adding an entry at the end sets its key in the map.
pub proof fn lemma_entries_view_push(entries: Seq<DictEntry>, entry: DictEntry)
    ensures
        entries_view(entries.push(entry)) == entries_view(entries).insert(
            entry.key@,
            object_view(entry.value),
        ),
{
    assert(entries.push(entry).drop_last() =~= entries);
}

/// Adding an object at the end adds its view at the end.
pub proof fn lemma_items_view_push(items: Seq<Object>, item: Object)
    ensures
        items_view(items.push(item)) == items_view(items).push(object_view(item)),
{
    assert(items.push(item).drop_last() =~= items);
}

/// Copies a scalar.
pub fn copy_scalar(scalar: &Scalar) -> (copy: Scalar)
    ensures
        copy@ == scalar@,
{
    match scalar {
        Scalar::Null => Scalar::Null,
        Scalar::Boolean(b) => Scalar::Boolean(*b),
        Scalar::Integer(i) => Scalar::Integer(*i),
        Scalar::Real(t) => Scalar::Real(t.clone()),
        Scalar::Name(n) => Scalar::Name(n.clone()),
        Scalar::Text(t) => Scalar::Text(t.clone()),
    }
}

/// Copies an object with all that it holds.
pub fn copy_object(obj: &Object) -> (copy: Object)
    ensures
        copy@ == obj@,
    decreases obj,
{
    match obj {
        Object::Primitive(s) => Object::Primitive(copy_scalar(s)),
        Object::Reference(id) => Object::Reference(*id),
        Object::Array(items) => Object::Array(copy_items(items)),
        Object::Dictionary(dict) => Object::Dictionary(
            Dictionary { entries: copy_entries(&dict.entries) },
        ),
        Object::Stream(dict, data) => Object::Stream(
            Dictionary { entries: copy_entries(&dict.entries) },
            data.clone(),
        ),
    }
}

/// Copies a list of objects.
fn copy_items(items: &Vec<Object>) -> (copy: Vec<Object>)
    ensures
        items_view(copy@) == items_view(items@),
    decreases items,
{
    let mut copy: Vec<Object> = Vec::new();
    let mut i: usize = 0;
    while i < items.len()
        invariant
            i <= items.len(),
            items_view(copy@) == items_view(items@.take(i as int)),
        decreases items.len() - i,
    {
        let item = copy_object(&items[i]);
        proof {
            lemma_items_view_push(copy@, item);
            lemma_items_view_push(items@.take(i as int), items@[i as int]);
            assert(items@.take(i as int).push(items@[i as int]) =~= items@.take(i + 1));
        }
        copy.push(item);
        i += 1;
    }
    assert(items@.take(i as int) =~= items@);
    copy
}

/// Copies the entries of a dictionary.
fn copy_entries(entries: &Vec<DictEntry>) -> (copy: Vec<DictEntry>)
    ensures
        entries_view(copy@) == entries_view(entries@),
    decreases entries,
{
    let mut copy: Vec<DictEntry> = Vec::new();
    let mut i: usize = 0;
    while i < entries.len()
        invariant
            i <= entries.len(),
            entries_view(copy@) == entries_view(entries@.take(i as int)),
        decreases entries.len() - i,
    {
        let entry = DictEntry { key: entries[i].key.clone(), value: copy_object(&entries[i].value) };
        proof {
            lemma_entries_view_push(copy@, entry);
            lemma_entries_view_push(entries@.take(i as int), entries@[i as int]);
            assert(entries@.take(i as int).push(entries@[i as int]) =~= entries@.take(i + 1));
        }
        copy.push(entry);
        i += 1;
    }
    assert(entries@.take(i as int) =~= entries@);
    copy
}

impl Dictionary {
    /// The dictionary without entries.
    pub fn new() -> (dict: Dictionary)
        ensures
            dict@ == Map::<Seq<u8>, ObjectView>::empty(),
    {
        Dictionary { entries: Vec::new() }
    }

    /// A copy of the dictionary with all that it holds.
    pub fn copy(&self) -> (copy: Dictionary)
        ensures
            copy@ == self@,
    {
        Dictionary { entries: copy_entries(&self.entries) }
    }

    /// The value that stands under a key.
    pub fn get(&self, key: &[u8]) -> (value: Option<&Object>)
        ensures
            value is Some <==> self@.contains_key(key@),
            value matches Some(found) ==> found@ == self@[key@],
    {
        let mut i: usize = self.entries.len();
        assert(self.entries@.take(i as int) =~= self.entries@);
        while i > 0
            invariant
                i <= self.entries.len(),
                self@.contains_key(key@) <==> entries_view(self.entries@.take(i as int)).contains_key(
                    key@,
                ),
                self@.contains_key(key@) ==> self@[key@] == entries_view(
                    self.entries@.take(i as int),
                )[key@],
            decreases i,
        {
            i -= 1;
            assert(self.entries@.take(i + 1).drop_last() =~= self.entries@.take(i as int));
            if bytes_eq(self.entries[i].key.as_slice(), key) {
                return Some(&self.entries[i].value);
            }
        }
        None
    }

    /// A copy of the dictionary in which `key` stands for nothing.
    pub fn without(&self, key: &[u8]) -> (rest: Dictionary)
        ensures
            rest@ == self@.remove(key@),
    {
        let mut kept: Vec<DictEntry> = Vec::new();
        let mut i: usize = 0;
        assert(entries_view(kept@) =~= entries_view(self.entries@.take(0)).remove(key@));
        while i < self.entries.len()
            invariant
                i <= self.entries.len(),
                entries_view(kept@) == entries_view(self.entries@.take(i as int)).remove(key@),
            decreases self.entries.len() - i,
        {
            let ghost before = entries_view(self.entries@.take(i as int));
            proof {
                lemma_entries_view_push(self.entries@.take(i as int), self.entries@[i as int]);
                assert(self.entries@.take(i as int).push(self.entries@[i as int])
                    =~= self.entries@.take(i + 1));
            }
            if !bytes_eq(self.entries[i].key.as_slice(), key) {
                let entry = DictEntry {
                    key: self.entries[i].key.clone(),
                    value: copy_object(&self.entries[i].value),
                };
                proof {
                    lemma_entries_view_push(kept@, entry);
                    assert(before.remove(key@).insert(entry.key@, entry.value@) =~= before.insert(
                        entry.key@,
                        entry.value@,
                    ).remove(key@));
                }
                kept.push(entry);
            } else {
                assert(before.remove(key@) =~= before.insert(
                    key@,
                    self.entries@[i as int].value@,
                ).remove(key@));
            }
            i += 1;
        }
        assert(self.entries@.take(i as int) =~= self.entries@);
        Dictionary { entries: kept }
    }

    /// A copy of the dictionary in which `key` stands for `value`.
    pub fn with(&self, key: Vec<u8>, value: Object) -> (changed: Dictionary)
        ensures
            changed@ == self@.insert(key@, value@),
    {
        let mut changed = self.without(key.as_slice());
        let entry = DictEntry { key, value };
        proof {
            lemma_entries_view_push(changed.entries@, entry);
            assert(self@.remove(entry.key@).insert(entry.key@, entry.value@) =~= self@.insert(
                entry.key@,
                entry.value@,
            ));
        }
        changed.entries.push(entry);
        changed
    }

    /// A copy of the dictionary to which the entries of `later` are added.
    /// Where both hold a key, the value of `later` stands.
    pub fn merged_with(&self, later: &Dictionary) -> (both: Dictionary)
        ensures
            both@ == self@.union_prefer_right(later@),
    {
        let mut both = self.copy();
        let mut i: usize = 0;
        assert(both@ =~= self@.union_prefer_right(entries_view(later.entries@.take(0))));
        while i < later.entries.len()
            invariant
                i <= later.entries.len(),
                both@ == self@.union_prefer_right(entries_view(later.entries@.take(i as int))),
            decreases later.entries.len() - i,
        {
            let ghost before = entries_view(later.entries@.take(i as int));
            proof {
                lemma_entries_view_push(later.entries@.take(i as int), later.entries@[i as int]);
                assert(later.entries@.take(i as int).push(later.entries@[i as int])
                    =~= later.entries@.take(i + 1));
            }
            let key = later.entries[i].key.clone();
            let value = copy_object(&later.entries[i].value);
            proof {
                assert(self@.union_prefer_right(before).insert(key@, value@)
                    =~= self@.union_prefer_right(before.insert(key@, value@)));
            }
            both = both.with(key, value);
            i += 1;
        }
        assert(later.entries@.take(i as int) =~= later.entries@);
        both
    }
}

/// The part that an object plays in a document.
#[derive(Debug, Clone, Copy, PartialEq, Eq)]
pub enum Role {
    /// The entry point of a document.
    Catalog,
    /// A node that lists pages.
    PagesRoot,
    Page,
    /// A node of a navigation tree.
    Outline,
    Other,
}

/// The name under `Type` in a dictionary object.
pub open spec fn kind_name(obj: ObjectView) -> Option<Seq<u8>> {
    match obj {
        ObjectView::Dictionary(dict) => if dict.contains_key(bytes_of("Type"@)) {
            match dict[bytes_of("Type"@)] {
                ObjectView::Primitive(ScalarView::Name(name)) => Some(name),
                _ => None,
            }
        } else {
            None
        },
        _ => None,
    }
}

/// The part that an object plays, by the name under `Type`.
pub open spec fn role(obj: ObjectView) -> Role {
    match kind_name(obj) {
        Some(name) => if name == bytes_of("Catalog"@) {
            Role::Catalog
        } else if name == bytes_of("Pages"@) {
            Role::PagesRoot
        } else if name == bytes_of("Page"@) {
            Role::Page
        } else if name == bytes_of("Outlines"@) || name == bytes_of("Outline"@) {
            Role::Outline
        } else {
            Role::Other
        },
        None => Role::Other,
    }
}

/// Whether a name is the given ASCII word.
fn is_word(name: &Vec<u8>, word: &str) -> (yes: bool)
    requires
        vstd::string::is_ascii(word),
    ensures
        yes == (name@ == bytes_of(word@)),
{
    let bytes = ascii(word);
    bytes_eq(name.as_slice(), bytes.as_slice())
}

/// Tells the part that an object plays.
pub fn role_of(obj: &Object) -> (part: Role)
    ensures
        part == role(obj@),
{
    proof {
        reveal_strlit("Catalog");
        reveal_strlit("Pages");
        reveal_strlit("Page");
        reveal_strlit("Outlines");
        reveal_strlit("Outline");
    }
    match obj {
        Object::Dictionary(dict) => {
            let key = crate::names::kind();
            match dict.get(key.as_slice()) {
                Some(Object::Primitive(Scalar::Name(name))) => {
                    if is_word(name, "Catalog") {
                        Role::Catalog
                    } else if is_word(name, "Pages") {
                        Role::PagesRoot
                    } else if is_word(name, "Page") {
                        Role::Page
                    } else if is_word(name, "Outlines") || is_word(name, "Outline") {
                        Role::Outline
                    } else {
                        Role::Other
                    }
                },
                _ => Role::Other,
            }
        },
        _ => Role::Other,
    }
}

} // verus!
