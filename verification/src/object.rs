//! The values a document is made of and their mathematical model.

use vstd::prelude::*;

verus! {

/// Identifier of an indirect object: object number and generation number.
pub type ObjectId = (u32, u16);

/// The two ways a string object can be written.
#[derive(Clone, Copy, Debug, PartialEq, Eq, Structural)]
pub enum StringFormat {
    Literal,
    Hexadecimal,
}

/// A value of the document format.
#[derive(Debug, PartialEq)]
pub enum Object {
    Null,
    Boolean(bool),
    Integer(i64),
    /// A real number, held as the bit pattern of its single-precision form.
    Real(u32),
    Name(Vec<u8>),
    String(Vec<u8>, StringFormat),
    Array(Vec<Object>),
    Dictionary(Dictionary),
    Stream(Stream),
    Reference(ObjectId),
}

/// A dictionary: names with their values, in insertion order.
#[derive(Debug, PartialEq)]
pub struct Dictionary {
    entries: Vec<(Vec<u8>, Object)>,
}

/// A stream: a dictionary and a payload that is never looked into.
#[derive(Debug, PartialEq)]
pub struct Stream {
    pub dict: Dictionary,
    pub content: Vec<u8>,
    pub allows_compression: bool,
    pub start_position: Option<usize>,
}

/// The entries of a dictionary as a mathematical sequence.
pub type Entries = Seq<(Seq<u8>, Value)>;

/// Mathematical model of an [`Object`].
pub enum Value {
    Null,
    Boolean(bool),
    Integer(i64),
    Real(u32),
    Name(Seq<u8>),
    String(Seq<u8>, StringFormat),
    Array(Seq<Value>),
    Dictionary(Entries),
    Stream(StreamValue),
    Reference(ObjectId),
}

/// Mathematical model of a [`Stream`].
pub struct StreamValue {
    pub dict: Entries,
    pub content: Seq<u8>,
    pub allows_compression: bool,
    pub start_position: Option<usize>,
}

impl View for Object {
    type V = Value;

    open spec fn view(&self) -> Value
        decreases self,
    {
        match self {
            Object::Null => Value::Null,
            Object::Boolean(b) => Value::Boolean(*b),
            Object::Integer(n) => Value::Integer(*n),
            Object::Real(bits) => Value::Real(*bits),
            Object::Name(bytes) => Value::Name(bytes@),
            Object::String(bytes, format) => Value::String(bytes@, *format),
            Object::Array(items) => Value::Array(
                Seq::new(
                    items@.len(),
                    |i: int|
                        if 0 <= i < items@.len() {
                            items@[i]@
                        } else {
                            Value::Null
                        },
                ),
            ),
            Object::Dictionary(dict) => Value::Dictionary(dict@),
            Object::Stream(stream) => Value::Stream(stream@),
            Object::Reference(id) => Value::Reference(*id),
        }
    }
}

impl View for Dictionary {
    type V = Entries;

    closed spec fn view(&self) -> Entries
        decreases self,
    {
        Seq::new(
            self.entries@.len(),
            |i: int|
                if 0 <= i < self.entries@.len() {
                    (self.entries@[i].0@, self.entries@[i].1@)
                } else {
                    (Seq::empty(), Value::Null)
                },
        )
    }
}

impl View for Stream {
    type V = StreamValue;

    open spec fn view(&self) -> StreamValue
        decreases self,
    {
        StreamValue {
            dict: self.dict@,
            content: self.content@,
            allows_compression: self.allows_compression,
            start_position: self.start_position,
        }
    }
}

/// Index of the first entry at or after `start` whose name is `key`, or the
/// number of entries where there is none.
pub open spec fn find_from(entries: Entries, key: Seq<u8>, start: int) -> int
    decreases entries.len() - start,
{
    if start < 0 || start >= entries.len() {
        entries.len() as int
    } else if entries[start].0 == key {
        start
    } else {
        find_from(entries, key, start + 1)
    }
}

/// Index of the first entry named `key`, or the number of entries.
pub open spec fn entries_find(entries: Entries, key: Seq<u8>) -> int {
    find_from(entries, key, 0)
}

/// The value stored under `key`: that of the first entry with this name.
pub open spec fn entries_get(entries: Entries, key: Seq<u8>) -> Option<Value> {
    let i = entries_find(entries, key);
    if i < entries.len() {
        Some(entries[i].1)
    } else {
        None
    }
}

/// The entries after `key` has been given `value`: an entry already under
/// that name keeps its place, a new one goes to the end.
pub open spec fn entries_set(entries: Entries, key: Seq<u8>, value: Value) -> Entries {
    let i = entries_find(entries, key);
    if i < entries.len() {
        entries.update(i, (key, value))
    } else {
        entries.push((key, value))
    }
}

/// `find_from` stays within bounds, names a matching entry, and passes no
/// matching entry on its way.
pub proof fn lemma_find_from(entries: Entries, key: Seq<u8>, start: int)
    requires
        0 <= start <= entries.len(),
    ensures
        start <= find_from(entries, key, start) <= entries.len(),
        find_from(entries, key, start) < entries.len() ==> entries[find_from(
            entries,
            key,
            start,
        )].0 == key,
        forall|j: int| start <= j < find_from(entries, key, start) ==> entries[j].0 != key,
    decreases entries.len() - start,
{
    if start < entries.len() && entries[start].0 != key {
        lemma_find_from(entries, key, start + 1);
    }
}

/// A position that holds `key`, with none before it that does, is the one
/// `entries_find` names.
pub proof fn lemma_find_unique(entries: Entries, key: Seq<u8>, i: int)
    requires
        0 <= i <= entries.len(),
        i < entries.len() ==> entries[i].0 == key,
        forall|j: int| 0 <= j < i ==> entries[j].0 != key,
    ensures
        entries_find(entries, key) == i,
{
    lemma_find_from(entries, key, 0);
}

/// Reading a name right after writing it gives what was written; every
/// other name reads as before.
pub proof fn lemma_get_after_set(entries: Entries, key: Seq<u8>, value: Value, other: Seq<u8>)
    ensures
        entries_get(entries_set(entries, key, value), key) == Some(value),
        other != key ==> entries_get(entries_set(entries, key, value), other) == entries_get(
            entries,
            other,
        ),
{
    let i = entries_find(entries, key);
    let after = entries_set(entries, key, value);
    lemma_find_from(entries, key, 0);
    lemma_find_unique(after, key, i);
    if other != key {
        let k = entries_find(entries, other);
        lemma_find_from(entries, other, 0);
        if k < entries.len() {
            lemma_find_unique(after, other, k);
        } else {
            lemma_find_unique(after, other, after.len() as int);
        }
    }
}

/// No two of `entries` have the same name.
pub open spec fn unique_names(entries: Entries) -> bool {
    forall|i: int, j: int|
        0 <= i < j < entries.len() ==> (#[trigger] entries[i]).0 != (#[trigger] entries[j]).0
}

/// Giving a name a value leaves the names distinct where they were.
pub proof fn lemma_set_keeps_names_unique(entries: Entries, key: Seq<u8>, value: Value)
    requires
        unique_names(entries),
    ensures
        unique_names(entries_set(entries, key, value)),
{
    let after = entries_set(entries, key, value);
    let at = entries_find(entries, key);
    lemma_find_from(entries, key, 0);
    assert forall|i: int, j: int| 0 <= i < j < after.len() implies (#[trigger] after[i]).0 != (
    #[trigger] after[j]).0 by {
        if at < entries.len() {
            assert(after[i].0 == entries[i].0);
            assert(after[j].0 == entries[j].0);
        } else {
            assert(after[i] == entries[i]);
            if j < entries.len() {
                assert(after[j] == entries[j]);
            }
        }
    }
}

/// Writing a name twice leaves what writing it the second time alone would
/// leave.
pub proof fn lemma_set_twice(entries: Entries, key: Seq<u8>, first: Value, second: Value)
    ensures
        entries_set(entries_set(entries, key, first), key, second) == entries_set(
            entries,
            key,
            second,
        ),
{
    let once = entries_set(entries, key, first);
    let i = entries_find(entries, key);
    lemma_find_from(entries, key, 0);
    lemma_find_unique(once, key, i);
    assert(entries_set(once, key, second) =~= entries_set(entries, key, second));
}

/// Whether two byte strings hold the same bytes.
pub fn bytes_eq(a: &[u8], b: &[u8]) -> (same: bool)
    ensures
        same == (a@ == b@),
{
    if a.len() != b.len() {
        return false;
    }
    let mut i: usize = 0;
    while i < a.len()
        invariant
            a.len() == b.len(),
            i <= a.len(),
            forall|j: int| 0 <= j < i ==> a@[j] == b@[j],
        decreases a.len() - i,
    {
        if a[i] != b[i] {
            return false;
        }
        i += 1;
    }
    assert(a@ =~= b@);
    true
}

/// A copy of a byte string.
pub fn copy_bytes(bytes: &[u8]) -> (copy: Vec<u8>)
    ensures
        copy@ == bytes@,
{
    let mut copy: Vec<u8> = Vec::new();
    let mut i: usize = 0;
    while i < bytes.len()
        invariant
            i <= bytes.len(),
            copy@ == bytes@.subrange(0, i as int),
        decreases bytes.len() - i,
    {
        copy.push(bytes[i]);
        assert(copy@ =~= bytes@.subrange(0, i + 1));
        i += 1;
    }
    assert(copy@ =~= bytes@);
    copy
}

impl Dictionary {
    /// The model of a dictionary is that of its entries, one by one.
    proof fn lemma_view(&self)
        ensures
            self@.len() == self.entries.len(),
            forall|i: int|
                0 <= i < self.entries.len() ==> #[trigger] self@[i] == (
                    self.entries[i].0@,
                    self.entries[i].1@,
                ),
    {
        reveal_with_fuel(<Dictionary as View>::view, 2);
    }

    /// A dictionary without entries.
    pub fn new() -> (dict: Dictionary)
        ensures
            dict@ == Entries::empty(),
    {
        let dict = Dictionary { entries: Vec::new() };
        assert(dict@ =~= Entries::empty());
        dict
    }

    /// The number of entries.
    pub fn len(&self) -> (n: usize)
        ensures
            n == self@.len(),
    {
        proof {
            self.lemma_view();
        }
        self.entries.len()
    }

    /// The name of the entry at `index`.
    pub fn key_at(&self, index: usize) -> (key: &Vec<u8>)
        requires
            index < self@.len(),
        ensures
            key@ == self@[index as int].0,
    {
        proof {
            self.lemma_view();
        }
        &self.entries[index].0
    }

    /// The value of the entry at `index`.
    pub fn value_at(&self, index: usize) -> (value: &Object)
        requires
            index < self@.len(),
        ensures
            value@ == self@[index as int].1,
    {
        proof {
            self.lemma_view();
        }
        &self.entries[index].1
    }

    /// Adds an entry at the end, whatever names are there already.
    pub(crate) fn push_entry(&mut self, key: Vec<u8>, value: Object)
        ensures
            final(self)@ == old(self)@.push((key@, value@)),
    {
        proof {
            self.lemma_view();
        }
        self.entries.push((key, value));
        proof {
            self.lemma_view();
            assert(self@ =~= old(self)@.push((key@, value@)));
        }
    }

    /// Position of the first entry named `key`, or `len()` if there is none.
    pub fn position(&self, key: &[u8]) -> (index: usize)
        ensures
            index == entries_find(self@, key@),
            index <= self@.len(),
    {
        proof {
            self.lemma_view();
        }
        let mut i: usize = 0;
        while i < self.entries.len()
            invariant
                i <= self.entries.len(),
                self@.len() == self.entries.len(),
                forall|j: int|
                    0 <= j < self.entries.len() ==> #[trigger] self@[j] == (
                        self.entries[j].0@,
                        self.entries[j].1@,
                    ),
                find_from(self@, key@, 0) == find_from(self@, key@, i as int),
            decreases self.entries.len() - i,
        {
            if bytes_eq(self.entries[i].0.as_slice(), key) {
                return i;
            }
            i += 1;
        }
        i
    }

    /// Whether an entry is named `key`.
    pub fn has(&self, key: &[u8]) -> (found: bool)
        ensures
            found == entries_get(self@, key@).is_some(),
    {
        proof {
            self.lemma_view();
        }
        self.position(key) < self.entries.len()
    }

    /// The value stored under `key`.
    pub fn get(&self, key: &[u8]) -> (value: Option<&Object>)
        ensures
            match value {
                Some(object) => entries_get(self@, key@) == Some(object@),
                None => entries_get(self@, key@).is_none(),
            },
    {
        proof {
            self.lemma_view();
        }
        let i = self.position(key);
        if i < self.entries.len() {
            Some(&self.entries[i].1)
        } else {
            None
        }
    }

    /// Stores `value` under `key`, in the place of an entry of that name or
    /// else at the end. Names that were distinct stay so.
    pub fn set(&mut self, key: Vec<u8>, value: Object)
        ensures
            final(self)@ == entries_set(old(self)@, key@, value@),
            unique_names(old(self)@) ==> unique_names(final(self)@),
    {
        proof {
            self.lemma_view();
        }
        let i = self.position(key.as_slice());
        if i < self.entries.len() {
            self.entries.set(i, (key, value));
        } else {
            self.entries.push((key, value));
        }
        proof {
            self.lemma_view();
            assert(self@ =~= entries_set(old(self)@, key@, value@));
            if unique_names(old(self)@) {
                lemma_set_keeps_names_unique(old(self)@, key@, value@);
            }
        }
    }
}


impl Clone for Dictionary {
    fn clone(&self) -> (copy: Dictionary)
        ensures
            copy@ == self@,
        decreases self,
    {
        proof {
            self.lemma_view();
        }
        let mut entries: Vec<(Vec<u8>, Object)> = Vec::new();
        let mut i: usize = 0;
        while i < self.entries.len()
            invariant
                i <= self.entries.len(),
                entries.len() == i,
                forall|j: int|
                    0 <= j < i ==> entries[j].0@ == self.entries[j].0@ && entries[j].1@
                        == self.entries[j].1@,
            decreases self.entries.len() - i,
        {
            let key = copy_bytes(self.entries[i].0.as_slice());
            let value = self.entries[i].1.clone();
            entries.push((key, value));
            i += 1;
        }
        let copy = Dictionary { entries };
        proof {
            copy.lemma_view();
            assert(copy@ =~= self@);
        }
        copy
    }
}

impl Clone for Stream {
    fn clone(&self) -> (copy: Stream)
        ensures
            copy@ == self@,
        decreases self,
    {
        Stream {
            dict: self.dict.clone(),
            content: copy_bytes(self.content.as_slice()),
            allows_compression: self.allows_compression,
            start_position: self.start_position,
        }
    }
}

impl Clone for Object {
    #[verifier::loop_isolation(false)]
    fn clone(&self) -> (copy: Object)
        ensures
            copy@ == self@,
        decreases self,
    {
        proof {
            self.lemma_view();
        }
        let copy = match self {
            Object::Null => Object::Null,
            Object::Boolean(b) => Object::Boolean(*b),
            Object::Integer(n) => Object::Integer(*n),
            Object::Real(bits) => Object::Real(*bits),
            Object::Name(bytes) => Object::Name(copy_bytes(bytes.as_slice())),
            Object::String(bytes, format) => Object::String(copy_bytes(bytes.as_slice()), *format),
            Object::Array(items) => {
                let mut copies: Vec<Object> = Vec::new();
                let mut i: usize = 0;
                while i < items.len()
                    invariant
                        i <= items.len(),
                        copies.len() == i,
                        forall|j: int| 0 <= j < i ==> copies[j]@ == items[j]@,
                    decreases items.len() - i,
                {
                    copies.push(items[i].clone());
                    i += 1;
                }
                Object::Array(copies)
            },
            Object::Dictionary(dict) => Object::Dictionary(dict.clone()),
            Object::Stream(stream) => Object::Stream(stream.clone()),
            Object::Reference(id) => Object::Reference(*id),
        };
        proof {
            copy.lemma_view();
            match self {
                Object::Array(items) => {
                    assert(copy@->Array_0 =~= self@->Array_0);
                },
                _ => {},
            }
        }
        copy
    }
}

impl Object {
    /// The model of an object, one level deep.
    pub proof fn lemma_view(&self)
        ensures
            match *self {
                Object::Null => self@ == Value::Null,
                Object::Boolean(b) => self@ == Value::Boolean(b),
                Object::Integer(n) => self@ == Value::Integer(n),
                Object::Real(bits) => self@ == Value::Real(bits),
                Object::Name(bytes) => self@ == Value::Name(bytes@),
                Object::String(bytes, format) => self@ == Value::String(bytes@, format),
                Object::Array(items) => {
                    &&& self@ is Array
                    &&& self@->Array_0.len() == items.len()
                    &&& forall|i: int|
                        0 <= i < items.len() ==> #[trigger] self@->Array_0[i] == items[i]@
                },
                Object::Dictionary(dict) => self@ == Value::Dictionary(dict@),
                Object::Stream(stream) => self@ == Value::Stream(stream@),
                Object::Reference(id) => self@ == Value::Reference(id),
            },
    {
        reveal_with_fuel(<Object as View>::view, 3);
    }

    /// The identifier this object refers to, if it is a reference.
    pub fn as_reference(&self) -> (id: Option<ObjectId>)
        ensures
            id == (match self@ {
                Value::Reference(target) => Some(target),
                _ => None,
            }),
    {
        proof {
            self.lemma_view();
        }
        match self {
            Object::Reference(id) => Some(*id),
            _ => None,
        }
    }

    /// The integer this object holds, if it is one.
    pub fn as_i64(&self) -> (n: Option<i64>)
        ensures
            n == (match self@ {
                Value::Integer(k) => Some(k),
                _ => None,
            }),
    {
        proof {
            self.lemma_view();
        }
        match self {
            Object::Integer(n) => Some(*n),
            _ => None,
        }
    }

    /// The dictionary this object is, if it is one.
    pub fn as_dict(&self) -> (dict: Option<&Dictionary>)
        ensures
            match dict {
                Some(d) => self@ == Value::Dictionary(d@),
                None => !(self@ is Dictionary),
            },
    {
        proof {
            self.lemma_view();
        }
        match self {
            Object::Dictionary(dict) => Some(dict),
            _ => None,
        }
    }
}

impl Stream {
    /// A stream with the given dictionary and payload that may be compressed
    /// when written and has no position in a file.
    pub fn new(dict: Dictionary, content: Vec<u8>) -> (stream: Stream)
        ensures
            stream@ == (StreamValue {
                dict: dict@,
                content: content@,
                allows_compression: true,
                start_position: None,
            }),
    {
        Stream { dict, content, allows_compression: true, start_position: None }
    }
}

} // verus!
