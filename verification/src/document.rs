//! The document: every indirect object under its identifier, the trailer,
//! and the counter from which new identifiers are taken.

use crate::object::{Dictionary, Entries, Object, ObjectId, Value};
use std::collections::BTreeMap;
use vstd::prelude::*;
use vstd::std_specs::iter::IteratorSpec;

verus! {

/// Mathematical model of a [`Document`].
pub struct DocumentView {
    pub version: Seq<char>,
    pub trailer: Entries,
    pub objects: Map<ObjectId, Value>,
    pub max_id: u32,
}

/// A document. While only the methods below change it, the counter `max_id`
/// is never below the number of an object that the document holds.
pub struct Document {
    version: String,
    trailer: Dictionary,
    objects: BTreeMap<ObjectId, Object>,
    max_id: u32,
}

/// No object of `objects` has a number above `max_id`.
pub open spec fn counter_covers(objects: Map<ObjectId, Value>, max_id: u32) -> bool {
    forall|id: ObjectId| #[trigger] objects.contains_key(id) ==> id.0 <= max_id
}

impl View for Document {
    type V = DocumentView;

    closed spec fn view(&self) -> DocumentView {
        DocumentView {
            version: self.version@,
            trailer: self.trailer@,
            objects: self.objects@.map_values(|o: Object| o@),
            max_id: self.max_id,
        }
    }
}

impl Document {
    /// The counter is at or above the number of every object held.
    pub open spec fn wf(&self) -> bool {
        counter_covers(self@.objects, self@.max_id)
    }

    /// An empty document of the given format version.
    pub fn with_version(version: &str) -> (doc: Document)
        ensures
            doc@ == (DocumentView {
                version: version@,
                trailer: Entries::empty(),
                objects: Map::empty(),
                max_id: 0,
            }),
            doc.wf(),
    {
        let doc = Document {
            version: version.to_owned(),
            trailer: Dictionary::new(),
            objects: BTreeMap::new(),
            max_id: 0,
        };
        assert(doc@.objects =~= Map::empty());
        doc
    }

    /// The object stored under `id`.
    pub fn get_object(&self, id: ObjectId) -> (found: Option<&Object>)
        ensures
            match found {
                Some(object) => self@.objects.contains_key(id) && self@.objects[id] == object@,
                None => !self@.objects.contains_key(id),
            },
    {
        self.objects.get(&id)
    }

    /// Whether an object is stored under `id`.
    pub fn has_object(&self, id: ObjectId) -> (found: bool)
        ensures
            found == self@.objects.contains_key(id),
    {
        self.objects.contains_key(&id)
    }

    /// The number of objects held.
    pub fn len(&self) -> (n: usize)
        ensures
            n == self@.objects.dom().len(),
            self@.objects.dom().finite(),
    {
        assert(self@.objects.dom() =~= self.objects@.dom());
        self.objects.len()
    }

    /// The counter of identifiers.
    pub fn max_id(&self) -> (n: u32)
        ensures
            n == self@.max_id,
    {
        self.max_id
    }

    /// The format version.
    pub fn version(&self) -> (version: &str)
        ensures
            version@ == self@.version,
    {
        self.version.as_str()
    }

    /// The trailer.
    pub fn trailer(&self) -> (trailer: &Dictionary)
        ensures
            trailer@ == self@.trailer,
    {
        &self.trailer
    }

    /// Stores `value` under `key` in the trailer.
    pub fn set_trailer(&mut self, key: Vec<u8>, value: Object)
        ensures
            final(self)@ == (DocumentView {
                trailer: crate::object::entries_set(old(self)@.trailer, key@, value@),
                ..old(self)@
            }),
            old(self).wf() ==> final(self).wf(),
    {
        self.trailer.set(key, value);
    }

    /// The identifiers of the objects held, each once.
    pub fn object_ids(&self) -> (ids: Vec<ObjectId>)
        ensures
            ids@.no_duplicates(),
            ids@.to_set() == self@.objects.dom(),
    {
        let mut ids: Vec<ObjectId> = Vec::new();
        for key in it: self.objects.keys()
            invariant
                it.seq() == self.objects.keys().remaining(),
                ids@.len() == it.index(),
                forall|j: int| 0 <= j < ids@.len() ==> ids@[j] == *it.seq()[j],
        {
            ids.push(*key);
        }
        proof {
            assert(ids@ =~= self.objects.keys().remaining().unref());
            assert(self@.objects.dom() =~= self.objects@.dom());
        }
        ids
    }

    /// Whether the counter is at or above the number of every object held.
    pub fn check_counter(&self) -> (sound: bool)
        ensures
            sound == self.wf(),
    {
        let ids = self.object_ids();
        let mut i: usize = 0;
        while i < ids.len()
            invariant
                i <= ids.len(),
                ids@.to_set() == self@.objects.dom(),
                forall|j: int| 0 <= j < i ==> (#[trigger] ids@[j]).0 <= self@.max_id,
            decreases ids.len() - i,
        {
            if ids[i].0 > self.max_id {
                proof {
                    assert(ids@.to_set().contains(ids@[i as int]));
                    assert(self@.objects.contains_key(ids@[i as int]));
                }
                return false;
            }
            i += 1;
        }
        proof {
            assert forall|id: ObjectId| #[trigger] self@.objects.contains_key(id) implies id.0
                <= self@.max_id by {
                assert(ids@.to_set().contains(id));
                let j = choose|j: int| 0 <= j < ids@.len() && ids@[j] == id;
                assert(ids@[j].0 <= self@.max_id);
            }
        }
        true
    }

    /// Raises the counter to `number` if it is below.
    pub fn raise_max_id(&mut self, number: u32)
        ensures
            final(self)@ == (DocumentView {
                max_id: if number > old(self)@.max_id {
                    number
                } else {
                    old(self)@.max_id
                },
                ..old(self)@
            }),
            old(self).wf() ==> final(self).wf(),
    {
        if number > self.max_id {
            self.max_id = number;
        }
    }

    /// Takes the next identifier from the counter: the number after it,
    /// with generation 0. `None`, and no change, when the counter is at its
    /// end.
    pub fn new_object_id(&mut self) -> (id: Option<ObjectId>)
        ensures
            match id {
                Some(fresh) => {
                    &&& old(self)@.max_id < u32::MAX
                    &&& fresh == ((old(self)@.max_id + 1) as u32, 0u16)
                    &&& final(self)@ == (DocumentView { max_id: fresh.0, ..old(self)@ })
                },
                None => old(self)@.max_id == u32::MAX && final(self)@ == old(self)@,
            },
            old(self).wf() ==> final(self).wf(),
    {
        if self.max_id == u32::MAX {
            None
        } else {
            self.max_id = self.max_id + 1;
            Some((self.max_id, 0))
        }
    }

    /// Stores `object` under the next identifier from the counter and
    /// returns that identifier. `None`, and no change, when the counter is
    /// at its end.
    pub fn add_object(&mut self, object: Object) -> (id: Option<ObjectId>)
        requires
            old(self).wf(),
        ensures
            final(self).wf(),
            match id {
                Some(fresh) => {
                    &&& old(self)@.max_id < u32::MAX
                    &&& fresh == ((old(self)@.max_id + 1) as u32, 0u16)
                    &&& !old(self)@.objects.contains_key(fresh)
                    &&& final(self)@ == (DocumentView {
                        max_id: fresh.0,
                        objects: old(self)@.objects.insert(fresh, object@),
                        ..old(self)@
                    })
                },
                None => old(self)@.max_id == u32::MAX && final(self)@ == old(self)@,
            },
    {
        match self.new_object_id() {
            Some(id) => {
                self.insert_object(id, object);
                Some(id)
            },
            None => None,
        }
    }

    /// Stores `object` under `id`, in the place of what was there, and raises
    /// the counter to the number of `id` if it was below.
    pub fn insert_object(&mut self, id: ObjectId, object: Object)
        ensures
            final(self)@ == (DocumentView {
                objects: old(self)@.objects.insert(id, object@),
                max_id: if id.0 > old(self)@.max_id {
                    id.0
                } else {
                    old(self)@.max_id
                },
                ..old(self)@
            }),
            old(self).wf() ==> final(self).wf(),
    {
        if id.0 > self.max_id {
            self.max_id = id.0;
        }
        self.objects.insert(id, object);
        assert(self@.objects =~= old(self)@.objects.insert(id, object@));
    }
}


impl Clone for Document {
    fn clone(&self) -> (copy: Document)
        ensures
            copy@ == self@,
    {
        let copy = Document {
            version: self.version.clone(),
            trailer: self.trailer.clone(),
            objects: self.objects.clone(),
            max_id: self.max_id,
        };
        assert(copy@.objects =~= self@.objects);
        copy
    }
}

} // verus!
