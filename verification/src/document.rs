//! A document: its objects by ascending identifier, its trailer, and the
//! highest identifier it has used.
//!
//! An identifier is the number of an object. The generation that a file
//! format adds to the number plays no part in merging and is left to
//! whoever reads and writes the file.

use crate::object::copy_object;
use crate::object::Dictionary;
use crate::object::Object;
use crate::object::ObjectView;
use vstd::prelude::*;

verus! {

/// An object under its identifier.
pub struct EntryView {
    pub id: nat,
    pub object: ObjectView,
}

/// What a document stands for: its entries in ascending order of identifier.
pub struct DocumentView {
    pub entries: Seq<EntryView>,
    pub trailer: Map<Seq<u8>, ObjectView>,
    pub max_id: nat,
}

/// Whether identifiers ascend strictly.
pub open spec fn ascending(ids: Seq<u32>) -> bool {
    forall|i: int, j: int| 0 <= i < j < ids.len() ==> ids[i] < ids[j]
}

impl DocumentView {
    /// Whether the entries ascend strictly by identifier.
    pub open spec fn ascends(self) -> bool {
        forall|i: int, j: int|
            0 <= i < j < self.entries.len() ==> self.entries[i].id < self.entries[j].id
    }

    /// What holds of every document: identifiers ascend strictly, none is
    /// zero, and none exceeds the highest one on record.
    pub open spec fn well_formed(self) -> bool {
        &&& self.ascends()
        &&& forall|i: int|
            0 <= i < self.entries.len() ==> 1 <= (#[trigger] self.entries[i]).id <= self.max_id
        &&& self.max_id <= u32::MAX
    }

    /// Whether an object stands under the identifier.
    pub open spec fn contains(self, id: nat) -> bool {
        exists|i: int| 0 <= i < self.entries.len() && (#[trigger] self.entries[i]).id == id
    }

    /// The place of the entry with the identifier.
    pub open spec fn position(self, id: nat) -> int {
        choose|i: int| 0 <= i < self.entries.len() && (#[trigger] self.entries[i]).id == id
    }

    /// The object under the identifier.
    pub open spec fn get(self, id: nat) -> Option<ObjectView> {
        if self.contains(id) {
            Some(self.entries[self.position(id)].object)
        } else {
            None
        }
    }

    /// In a document whose identifiers ascend, an identifier has one place.
    pub proof fn lemma_position(self, i: int)
        requires
            self.ascends(),
            0 <= i < self.entries.len(),
        ensures
            self.contains(self.entries[i].id),
            self.position(self.entries[i].id) == i,
            self.get(self.entries[i].id) == Some(self.entries[i].object),
    {
        let id = self.entries[i].id;
        let p = self.position(id);
        if p < i {
            assert(self.entries[p].id < self.entries[i].id);
        }
        if i < p {
            assert(self.entries[i].id < self.entries[p].id);
        }
    }

    /// No two entries of a well-formed document share an identifier.
    pub proof fn lemma_identifiers_distinct(self, i: int, j: int)
        requires
            self.ascends(),
            0 <= i < self.entries.len(),
            0 <= j < self.entries.len(),
            i != j,
        ensures
            self.entries[i].id != self.entries[j].id,
    {
        if i < j {
            assert(self.entries[i].id < self.entries[j].id);
        } else {
            assert(self.entries[j].id < self.entries[i].id);
        }
    }
}

/// Identifiers that ascend from one or more are no smaller than their rank.
pub proof fn lemma_ascending_rank(ids: Seq<u32>, i: int)
    requires
        ascending(ids),
        0 <= i < ids.len(),
        ids[0] >= 1,
    ensures
        ids[i] >= i + 1,
    decreases i,
{
    if i > 0 {
        lemma_ascending_rank(ids, i - 1);
        assert(ids[i - 1] < ids[i]);
    }
}

/// The object that a document holds under an identifier.
pub open spec fn object_under(doc: DocumentView, id: nat) -> ObjectView {
    doc.entries[doc.position(id)].object
}

/// The entries that identifiers and objects of equal number stand for.
pub open spec fn entries_of(ids: Seq<u32>, objects: Seq<Object>) -> Seq<EntryView> {
    Seq::new(ids.len(), |i: int| EntryView { id: ids[i] as nat, object: objects[i]@ })
}

/// A document.
#[derive(Debug, PartialEq, Eq)]
pub struct Document {
    ids: Vec<u32>,
    objects: Vec<Object>,
    trailer: Dictionary,
    max_id: u32,
}

impl View for Document {
    type V = DocumentView;

    closed spec fn view(&self) -> DocumentView {
        DocumentView {
            entries: entries_of(self.ids@, self.objects@),
            trailer: self.trailer@,
            max_id: self.max_id as nat,
        }
    }
}

/// Finds the place of an identifier among ascending identifiers.
pub fn find_id(ids: &Vec<u32>, id: u32) -> (place: Option<usize>)
    requires
        ascending(ids@),
    ensures
        place matches Some(i) ==> i < ids.len() && ids[i as int] == id,
        place is None ==> forall|i: int| 0 <= i < ids.len() ==> ids[i] != id,
{
    let mut low: usize = 0;
    let mut high: usize = ids.len();
    while low < high
        invariant
            low <= high <= ids.len(),
            ascending(ids@),
            forall|i: int| 0 <= i < low ==> ids[i] < id,
            forall|i: int| high <= i < ids.len() ==> ids[i] > id,
        decreases high - low,
    {
        let mid = low + (high - low) / 2;
        let here = ids[mid];
        if here == id {
            return Some(mid);
        } else if here < id {
            low = mid + 1;
        } else {
            high = mid;
        }
    }
    None
}

/// Finds the first place among ascending identifiers whose identifier is
/// not below the given one.
pub fn lower_bound(ids: &Vec<u32>, id: u32) -> (place: usize)
    requires
        ascending(ids@),
    ensures
        place <= ids.len(),
        forall|i: int| 0 <= i < place ==> ids[i] < id,
        forall|i: int| place <= i < ids.len() ==> ids[i] >= id,
{
    let mut low: usize = 0;
    let mut high: usize = ids.len();
    while low < high
        invariant
            low <= high <= ids.len(),
            ascending(ids@),
            forall|i: int| 0 <= i < low ==> ids[i] < id,
            forall|i: int| high <= i < ids.len() ==> ids[i] >= id,
        decreases high - low,
    {
        let mid = low + (high - low) / 2;
        if ids[mid] < id {
            low = mid + 1;
        } else {
            high = mid;
        }
    }
    low
}

impl Document {
    #[verifier::type_invariant]
    spec fn sound(self) -> bool {
        &&& self.ids.len() == self.objects.len()
        &&& ascending(self.ids@)
        &&& forall|i: int| 0 <= i < self.ids.len() ==> 1 <= #[trigger] self.ids[i] <= self.max_id
    }

    /// Puts a document together from its parts.
    pub(crate) fn from_parts(
        ids: Vec<u32>,
        objects: Vec<Object>,
        trailer: Dictionary,
        max_id: u32,
    ) -> (doc: Document)
        requires
            ids.len() == objects.len(),
            ascending(ids@),
            forall|i: int| 0 <= i < ids.len() ==> 1 <= #[trigger] ids[i] <= max_id,
        ensures
            doc@.entries == entries_of(ids@, objects@),
            doc@.trailer == trailer@,
            doc@.max_id == max_id,
            doc@.well_formed(),
    {
        Document { ids, objects, trailer, max_id }
    }

    /// The identifiers, in ascending order.
    pub(crate) fn ids(&self) -> (ids: &Vec<u32>)
        ensures
            ascending(ids@),
            ids.len() == self@.entries.len(),
            forall|i: int| 0 <= i < ids.len() ==> #[trigger] ids[i] == self@.entries[i].id,
    {
        proof {
            use_type_invariant(self);
        }
        &self.ids
    }

    /// The document without objects.
    pub fn new() -> (doc: Document)
        ensures
            doc@.entries.len() == 0,
            doc@.trailer == Map::<Seq<u8>, ObjectView>::empty(),
            doc@.max_id == 0,
            doc@.well_formed(),
    {
        Document { ids: Vec::new(), objects: Vec::new(), trailer: Dictionary::new(), max_id: 0 }
    }

    /// States what holds of every document.
    pub(crate) fn check(&self)
        ensures
            self@.well_formed(),
    {
        proof {
            use_type_invariant(self);
        }
    }

    /// How many objects the document holds.
    pub fn len(&self) -> (count: usize)
        ensures
            count == self@.entries.len(),
            count <= u32::MAX,
    {
        proof {
            use_type_invariant(self);
            if self.ids.len() > 0 {
                lemma_ascending_rank(self.ids@, self.ids.len() - 1);
            }
        }
        self.ids.len()
    }

    /// The highest identifier on record.
    pub fn max_id(&self) -> (id: u32)
        ensures
            id == self@.max_id,
    {
        self.max_id
    }

    /// The trailer.
    pub fn trailer(&self) -> (trailer: &Dictionary)
        ensures
            trailer@ == self@.trailer,
    {
        &self.trailer
    }

    /// The identifier of the entry at a place.
    pub fn id_at(&self, place: usize) -> (id: u32)
        requires
            place < self@.entries.len(),
        ensures
            id == self@.entries[place as int].id,
    {
        proof {
            use_type_invariant(self);
        }
        self.ids[place]
    }

    /// The object of the entry at a place.
    pub fn object_at(&self, place: usize) -> (object: &Object)
        requires
            place < self@.entries.len(),
        ensures
            object@ == self@.entries[place as int].object,
    {
        proof {
            use_type_invariant(self);
        }
        &self.objects[place]
    }

    /// The place of the entry with the identifier.
    pub fn find(&self, id: u32) -> (place: Option<usize>)
        ensures
            place is Some <==> self@.contains(id as nat),
            place matches Some(i) ==> i == self@.position(id as nat) && i < self@.entries.len()
                && self@.entries[i as int].id == id,
    {
        proof {
            use_type_invariant(self);
        }
        let place = find_id(&self.ids, id);
        proof {
            self.check_view();
            match place {
                Some(i) => {
                    self@.lemma_position(i as int);
                },
                None => {
                    if self@.contains(id as nat) {
                        let i = self@.position(id as nat);
                        assert(self.ids[i] == id);
                    }
                },
            }
        }
        place
    }

    proof fn check_view(&self)
        requires
            self.sound(),
        ensures
            self@.well_formed(),
            self@.entries.len() == self.ids.len(),
    {
    }

    /// The object under the identifier.
    pub fn get(&self, id: u32) -> (object: Option<&Object>)
        ensures
            object is Some <==> self@.contains(id as nat),
            object matches Some(found) ==> Some(found@) == self@.get(id as nat),
    {
        proof {
            use_type_invariant(self);
        }
        match self.find(id) {
            Some(i) => Some(&self.objects[i]),
            None => None,
        }
    }

    /// Takes the document apart: its identifiers and its objects.
    pub(crate) fn into_parts(self) -> (parts: (Vec<u32>, Vec<Object>))
        ensures
            parts.0.len() == parts.1.len(),
            ascending(parts.0@),
            entries_of(parts.0@, parts.1@) == self@.entries,
    {
        proof {
            use_type_invariant(&self);
        }
        (self.ids, self.objects)
    }

    /// The document with another trailer.
    pub fn with_trailer(self, trailer: Dictionary) -> (doc: Document)
        ensures
            doc@.entries == self@.entries,
            doc@.trailer == trailer@,
            doc@.max_id == self@.max_id,
    {
        proof {
            use_type_invariant(&self);
        }
        Document { ids: self.ids, objects: self.objects, trailer, max_id: self.max_id }
    }

    /// The document with `object` under `id`, in place of what stood there.
    /// The identifier zero names no object: with it, nothing is returned.
    pub fn with_object(self, id: u32, object: Object) -> (doc: Option<Document>)
        ensures
            doc is Some <==> id != 0,
            doc matches Some(d) ==> {
                &&& d@.well_formed()
                &&& d@.contains(id as nat)
                &&& d@.get(id as nat) == Some(object@)
                &&& forall|other: nat| other != id ==> d@.get(other) == self@.get(other)
                &&& d@.trailer == self@.trailer
                &&& d@.max_id == if id > self@.max_id {
                    id as nat
                } else {
                    self@.max_id
                }
            },
    {
        proof {
            use_type_invariant(&self);
            self.check_view();
        }
        if id == 0 {
            return None;
        }
        let ghost before = self@;
        let Document { mut ids, mut objects, trailer, max_id } = self;
        let top = if id > max_id {
            id
        } else {
            max_id
        };
        let place = lower_bound(&ids, id);
        let ghost old_ids = ids@;
        let ghost old_objects = objects@;
        if place < ids.len() && ids[place] == id {
            objects.set(place, object);
        } else {
            ids.insert(place, id);
            objects.insert(place, object);
        }
        let doc = Document { ids, objects, trailer, max_id: top };
        proof {
            let after = doc@;
            assert(after.well_formed());
            assert(after.entries[place as int].id == id);
            after.lemma_position(place as int);
            assert forall|other: nat| other != id implies after.get(other) == before.get(other) by {
                if before.contains(other) {
                    let i = before.position(other);
                    before.lemma_position(i);
                    let j = if old_ids.len() == doc.ids.len() || i < place {
                        i
                    } else {
                        i + 1
                    };
                    assert(after.entries[j].id == other);
                    after.lemma_position(j);
                } else if after.contains(other) {
                    let j = after.position(other);
                    let i = if old_ids.len() == doc.ids.len() || j < place {
                        j
                    } else {
                        j - 1
                    };
                    assert(before.entries[i].id == other);
                }
            }
        }
        Some(doc)
    }

    /// A copy of the document with all that it holds.
    pub fn copy(&self) -> (copy: Document)
        ensures
            copy@ == self@,
    {
        proof {
            use_type_invariant(self);
        }
        let mut objects: Vec<Object> = Vec::new();
        let mut i: usize = 0;
        while i < self.objects.len()
            invariant
                i <= self.objects.len(),
                objects.len() == i,
                forall|k: int| 0 <= k < i ==> (#[trigger] objects[k])@ == self.objects[k]@,
            decreases self.objects.len() - i,
        {
            objects.push(copy_object(&self.objects[i]));
            i += 1;
        }
        let copy = Document {
            ids: self.ids.clone(),
            objects,
            trailer: self.trailer.copy(),
            max_id: self.max_id,
        };
        assert(copy@.entries =~= self@.entries);
        copy
    }
}

} // verus!
