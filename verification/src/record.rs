//! Fields, tags and records.

use crate::cistring::name_key;
use crate::cistring::CiString;
use crate::datum::Datum;
use crate::datum::Value;
use crate::error::Error;
use crate::error::ErrorView;
use indexmap::IndexMap;
use vstd::prelude::*;
use vstd::std_specs::cmp::PartialEqSpecImpl;

verus! {

/// `indexmap::IndexMap`: a map that keeps the order of insertion. Nothing is
/// known of its inside.
#[verifier::external_type_specification]
#[verifier::external_body]
#[verifier::reject_recursive_types(K)]
#[verifier::reject_recursive_types(V)]
#[verifier::reject_recursive_types(S)]
pub struct ExIndexMap<K, V, S>(indexmap::IndexMap<K, V, S>);

/// A named value as contracts see it: the name as written, and the value.
pub type Entry = (Seq<char>, Value);

/// The entries of a field map, in the order in which they were inserted.
pub uninterp spec fn map_entries(map: &IndexMap<CiString, Datum>) -> Seq<Entry>;

/// Index of the first entry whose name has the key `key`; the number of
/// entries if none has.
pub open spec fn index_of(entries: Seq<Entry>, key: Seq<u8>) -> nat
    decreases entries.len(),
{
    if entries.len() == 0 {
        0
    } else if name_key(entries[0].0) == key {
        0
    } else {
        1 + index_of(entries.skip(1), key)
    }
}

/// Whether some entry has the key `key`.
pub open spec fn has_key(entries: Seq<Entry>, key: Seq<u8>) -> bool {
    index_of(entries, key) < entries.len()
}

/// The value stored under a name, whatever its letter case.
pub open spec fn lookup(entries: Seq<Entry>, name: Seq<char>) -> Option<Value> {
    if has_key(entries, name_key(name)) {
        Some(entries[index_of(entries, name_key(name)) as int].1)
    } else {
        None
    }
}

/// No two entries have names that differ at most in letter case.
pub open spec fn distinct(entries: Seq<Entry>) -> bool {
    forall|i: int, j: int|
        0 <= i < j < entries.len() ==> name_key(#[trigger] entries[i].0) != name_key(
            #[trigger] entries[j].0,
        )
}

pub proof fn lemma_index_of(entries: Seq<Entry>, key: Seq<u8>)
    ensures
        index_of(entries, key) <= entries.len(),
        forall|j: int| 0 <= j < index_of(entries, key) ==> name_key(#[trigger] entries[j].0) != key,
        has_key(entries, key) ==> name_key(entries[index_of(entries, key) as int].0) == key,
    decreases entries.len(),
{
    if entries.len() > 0 && name_key(entries[0].0) != key {
        lemma_index_of(entries.skip(1), key);
        let k: nat = index_of(entries.skip(1), key);
        assert forall|j: int| 0 <= j < index_of(entries, key) implies name_key(
            #[trigger] entries[j].0,
        ) != key by {
            if j > 0 {
                assert(entries.skip(1)[j - 1] == entries[j]);
            }
        }
        if k < entries.skip(1).len() {
            assert(entries.skip(1)[k as int] == entries[k as int + 1]);
        }
    }
}

/// What inserting a field does: where no field of that name exists, in
/// whatever letter case, it becomes the last field; where one exists, the
/// record stays as it was and the error names the offered name and carries
/// the record.
pub open spec fn inserted(
    before: RecordView,
    name: Seq<char>,
    value: Value,
    after: RecordView,
    r: Result<(), Error>,
) -> bool {
    &&& distinct(before.fields)
    &&& distinct(after.fields)
    &&& match lookup(before.fields, name) {
        None => r is Ok && after == (RecordView {
            header: before.header,
            fields: before.fields.push((name, value)),
        }),
        Some(_) => after == before && r is Err && r->Err_0@ == ErrorView::DuplicateKey(
            name,
            before,
        ),
    }
}

/// A name is found exactly where some entry has it, in whatever letter case.
pub proof fn lemma_lookup(entries: Seq<Entry>, name: Seq<char>)
    ensures
        lookup(entries, name) is Some <==> exists|i: int|
            0 <= i < entries.len() && name_key(#[trigger] entries[i].0) == name_key(name),
{
    lemma_index_of(entries, name_key(name));
    if has_key(entries, name_key(name)) {
        let k = index_of(entries, name_key(name)) as int;
        assert(name_key(entries[k].0) == name_key(name));
    }
}

/// A duplicate is refused. Where a record holds a field whose name differs
/// from the offered name in letter case at most, inserting fails: the
/// record stays as it was, and the error carries the offered name and a
/// record that equals it.
pub proof fn lemma_duplicate_is_refused(
    before: RecordView,
    name: Seq<char>,
    value: Value,
    after: RecordView,
    r: Result<(), Error>,
    i: int,
)
    requires
        inserted(before, name, value, after, r),
        0 <= i < before.fields.len(),
        name_key(before.fields[i].0) == name_key(name),
    ensures
        after == before,
        r matches Err(e) && e@ == ErrorView::DuplicateKey(name, before),
{
    lemma_lookup(before.fields, name);
}

/// `IndexMap::new`: a map without entries.
#[verifier::external_body]
pub(crate) fn map_new() -> (map: IndexMap<CiString, Datum>)
    ensures
        map_entries(&map) == Seq::<Entry>::empty(),
{
    IndexMap::new()
}

/// `IndexMap::len`: the number of entries.
#[verifier::external_body]
pub(crate) fn map_len(map: &IndexMap<CiString, Datum>) -> (n: usize)
    ensures
        n == map_entries(map).len(),
{
    map.len()
}

/// `IndexMap::get`: the value of the entry whose key equals `key`, where
/// keys are equal when the names differ at most in letter case.
#[verifier::external_body]
pub(crate) fn map_get<'a>(map: &'a IndexMap<CiString, Datum>, key: &CiString) -> (r: Option<
    &'a Datum,
>)
    ensures
        r is Some <==> has_key(map_entries(map), key.key()),
        r matches Some(d) ==> d@ == map_entries(map)[index_of(
            map_entries(map),
            key.key(),
        ) as int].1,
{
    map.get(key)
}

/// `IndexMap::insert`: where no entry has an equal key, the pair becomes the
/// last entry and nothing is returned; where one has, that entry keeps its
/// place and its key, takes the new value, and the old value is returned.
#[verifier::external_body]
pub(crate) fn map_insert(map: &mut IndexMap<CiString, Datum>, key: CiString, value: Datum) -> (r:
    Option<Datum>)
    ensures
        r is Some <==> has_key(map_entries(old(map)), key.key()),
        r is None ==> map_entries(final(map)) == map_entries(old(map)).push((key@, value@)),
        r matches Some(d) ==> {
            let i = index_of(map_entries(old(map)), key.key()) as int;
            &&& d@ == map_entries(old(map))[i].1
            &&& map_entries(final(map)) == map_entries(old(map)).update(
                i,
                (map_entries(old(map))[i].0, value@),
            )
        },
    no_unwind
{
    map.insert(key, value)
}

/// `IndexMap::get_index`: the entry at a position in insertion order, `None`
/// past the last.
#[verifier::external_body]
pub(crate) fn map_entry<'a>(map: &'a IndexMap<CiString, Datum>, index: usize) -> (r: Option<
    (&'a CiString, &'a Datum),
>)
    ensures
        r is Some <==> index < map_entries(map).len(),
        r matches Some((k, d)) ==> k@ == map_entries(map)[index as int].0 && d@ == map_entries(
            map,
        )[index as int].1,
{
    map.get_index(index)
}

/// Whether `IndexMap`'s `==` holds of two field maps.
pub uninterp spec fn maps_equal(
    a: &IndexMap<CiString, Datum>,
    b: &IndexMap<CiString, Datum>,
) -> bool;

/// `IndexMap`'s `==`: the same number of entries, and to each entry of one an
/// entry of the other with an equal key and an equal value, in any order.
#[verifier::external_body]
pub(crate) fn map_eq(a: &IndexMap<CiString, Datum>, b: &IndexMap<CiString, Datum>) -> (r: bool)
    ensures
        r == maps_equal(a, b),
{
    a == b
}

/// `IndexMap::into_iter`, collected: the entries in insertion order, each
/// name as the string it was written as.
#[verifier::external_body]
pub(crate) fn map_into_vec(map: IndexMap<CiString, Datum>) -> (r: Vec<(String, Datum)>)
    ensures
        r@.len() == map_entries(&map).len(),
        forall|i: int|
            0 <= i < r@.len() ==> (#[trigger] r@[i]).0@ == map_entries(&map)[i].0 && r@[i].1@
                == map_entries(&map)[i].1,
{
    map.into_iter().map(|(k, v)| (k.into_string(), v)).collect()
}

/// Calls a conversion and keeps what is known of its result.
fn apply<T, U, F: FnOnce(T) -> U>(f: F, value: T) -> (r: U)
    requires
        call_requires(f, (value,)),
    ensures
        call_ensures(f, (value,), r),
{
    f(value)
}

/// A single tag of a stream and the value that follows it.
#[derive(Debug, PartialEq, Eq)]
pub struct Field {
    name: CiString,
    value: Datum,
}

impl View for Field {
    type V = Entry;

    closed spec fn view(&self) -> Entry {
        (self.name@, self.value@)
    }
}

impl Clone for Field {
    fn clone(&self) -> (r: Self)
        ensures
            r@ == self@,
    {
        Field { name: self.name.clone(), value: self.value.clone() }
    }
}

impl Field {
    /// Create a new field from anything that converts to a name and to a
    /// value: the field holds what the two conversions give.
    pub fn new<N: Into<CiString>, V: Into<Datum>>(name: N, value: V) -> (r: Self)
        ensures
            exists|n: CiString, v: Datum|
                call_ensures(<N as Into<CiString>>::into, (name,), n) && call_ensures(
                    <V as Into<Datum>>::into,
                    (value,),
                    v,
                ) && r@ == (n@, v@),
    {
        let n: CiString = apply(<N as Into<CiString>>::into, name);
        let v: Datum = apply(<V as Into<Datum>>::into, value);
        let r = Field { name: n, value: v };
        assert(call_ensures(<N as Into<CiString>>::into, (name,), r.name) && call_ensures(
            <V as Into<Datum>>::into,
            (value,),
            r.value,
        ) && r@ == (r.name@, r.value@));
        r
    }

    /// Create a field from a name and a value.
    pub fn from_parts(name: String, value: Datum) -> (r: Self)
        ensures
            r@ == (name@, value@),
    {
        Field { name: CiString::from(name), value }
    }

    /// Return name of the tag.
    pub fn name(&self) -> (r: &str)
        ensures
            r@ == self@.0,
    {
        self.name.as_str()
    }

    /// Return the value of the tag.
    pub fn value(&self) -> (r: &Datum)
        ensures
            r@ == self@.1,
    {
        &self.value
    }

    /// Take the field apart into its name and its value.
    pub fn into_parts(self) -> (r: (String, Datum))
        ensures
            r.0@ == self@.0,
            r.1@ == self@.1,
    {
        (self.name.into_string(), self.value)
    }
}

/// What a [`Tag`] stands for.
pub enum TagView {
    Field(Seq<char>, Value),
    Eoh,
    Eor,
}

/// A single tag and following value within a stream.
#[derive(Debug, PartialEq, Eq)]
pub enum Tag {
    /// A data field with name and value
    Field(Field),
    /// End of header
    Eoh,
    /// End of record
    Eor,
}

impl View for Tag {
    type V = TagView;

    open spec fn view(&self) -> TagView {
        match self {
            Tag::Field(f) => TagView::Field(f@.0, f@.1),
            Tag::Eoh => TagView::Eoh,
            Tag::Eor => TagView::Eor,
        }
    }
}

impl Clone for Tag {
    fn clone(&self) -> (r: Self)
        ensures
            r@ == self@,
    {
        match self {
            Tag::Field(f) => Tag::Field(f.clone()),
            Tag::Eoh => Tag::Eoh,
            Tag::Eor => Tag::Eor,
        }
    }
}

impl Tag {
    /// Returns `Some` if this is a `Field` tag, otherwise `None`.
    pub fn as_field(&self) -> (r: Option<&Field>)
        ensures
            match *self {
                Tag::Field(f) => r == Some(&f),
                _ => r is None,
            },
    {
        match self {
            Tag::Field(field) => Some(field),
            _ => None,
        }
    }

    /// Returns `true` if this is an end-of-header tag.
    pub fn is_eoh(&self) -> (r: bool)
        ensures
            r == (self@ is Eoh),
    {
        match self {
            Tag::Eoh => true,
            _ => false,
        }
    }

    /// Returns `true` if this is an end-of-record tag.
    pub fn is_eor(&self) -> (r: bool)
        ensures
            r == (self@ is Eor),
    {
        match self {
            Tag::Eor => true,
            _ => false,
        }
    }
}

/// What a [`Record`] stands for: whether it is a header, and its fields in
/// the order in which they were inserted.
pub struct RecordView {
    pub header: bool,
    pub fields: Seq<Entry>,
}

/// A single contact record, composed of multiple data fields.
#[derive(Debug)]
pub struct Record {
    header: bool,
    fields: IndexMap<CiString, Datum>,
}

impl View for Record {
    type V = RecordView;

    closed spec fn view(&self) -> RecordView {
        RecordView { header: self.header, fields: map_entries(&self.fields) }
    }
}

impl Record {
    #[verifier::type_invariant]
    spec fn well_formed(&self) -> bool {
        distinct(map_entries(&self.fields))
    }

    /// Whether `==` holds between two records: both are headers or neither
    /// is, and their field maps are equal.
    pub closed spec fn same_as(&self, other: &Record) -> bool {
        self.header == other.header && maps_equal(&self.fields, &other.fields)
    }

    /// Create a new record.
    pub fn new() -> (r: Self)
        ensures
            r@ == (RecordView { header: false, fields: Seq::empty() }),
    {
        Record { header: false, fields: map_new() }
    }

    /// Create a new header record.
    pub fn new_header() -> (r: Self)
        ensures
            r@ == (RecordView { header: true, fields: Seq::empty() }),
    {
        Record { header: true, fields: map_new() }
    }

    /// True if this record represents a header.
    pub fn is_header(&self) -> (r: bool)
        ensures
            r == self@.header,
    {
        self.header
    }

    /// The number of fields. No two of them have names that differ in
    /// letter case alone.
    pub fn len(&self) -> (r: usize)
        ensures
            r == self@.fields.len(),
            distinct(self@.fields),
    {
        proof {
            use_type_invariant(self);
        }
        map_len(&self.fields)
    }

    /// Return the value of the requested field, whatever the letter case of
    /// `name`.
    pub fn get(&self, name: &str) -> (r: Option<&Datum>)
        ensures
            r is Some <==> lookup(self@.fields, name@) is Some,
            r matches Some(d) ==> lookup(self@.fields, name@) == Some(d@),
    {
        let key = CiString::from(name);
        map_get(&self.fields, &key)
    }

    /// Add a field to the record.
    ///
    /// Overwriting a previous value is not permitted: where a field of that
    /// name exists, in whatever letter case, the record stays as it is and
    /// the error carries the name that was offered and a copy of the record.
    pub fn insert_field(&mut self, name: String, value: Datum) -> (r: Result<(), Error>)
        ensures
            inserted(old(self)@, name@, value@, final(self)@, r),
    {
        proof {
            use_type_invariant(&*self);
        }
        let key = CiString::from(name);
        if map_get(&self.fields, &key).is_some() {
            let record = self.clone();
            return Err(Error::DuplicateKey { key: key.into_string(), record });
        }
        let ghost before = map_entries(&self.fields);
        proof {
            lemma_index_of(before, key.key());
        }
        let prior = map_insert(&mut self.fields, key, value);
        assert(prior is None);
        Ok(())
    }

    /// Add a field to the record, from anything that converts to a name and
    /// to a value: [`Record::insert_field`] on what the conversions give.
    pub fn insert<N: Into<CiString>, V: Into<Datum>>(&mut self, name: N, value: V) -> (r: Result<
        (),
        Error,
    >)
        ensures
            exists|n: CiString, v: Datum|
                call_ensures(<N as Into<CiString>>::into, (name,), n) && call_ensures(
                    <V as Into<Datum>>::into,
                    (value,),
                    v,
                ) && inserted(old(self)@, n@, v@, final(self)@, r),
    {
        let n: CiString = apply(<N as Into<CiString>>::into, name);
        let v: Datum = apply(<V as Into<Datum>>::into, value);
        let ghost before = self@;
        let ghost given = n;
        let ghost held = v;
        let r = self.insert_field(n.into_string(), v);
        assert(call_ensures(<N as Into<CiString>>::into, (name,), given) && call_ensures(
            <V as Into<Datum>>::into,
            (value,),
            held,
        ) && inserted(before, given@, held@, self@, r));
        r
    }

    /// Give the record the header flag `header`.
    pub(crate) fn set_header(&mut self, header: bool)
        ensures
            final(self)@ == (RecordView { header, fields: old(self)@.fields }),
    {
        proof {
            use_type_invariant(&*self);
        }
        self.header = header;
    }

    /// The field at a position in insertion order.
    pub fn field_at(&self, index: usize) -> (r: Option<(&str, &Datum)>)
        ensures
            r is Some <==> index < self@.fields.len(),
            r matches Some((n, d)) ==> (n@, d@) == self@.fields[index as int],
    {
        match map_entry(&self.fields, index) {
            Some((k, d)) => Some((k.as_str(), d)),
            None => None,
        }
    }

    /// Return all fields in this record, in the order of insertion.
    pub fn fields(&self) -> (r: Vec<(&str, &Datum)>)
        ensures
            r@.len() == self@.fields.len(),
            forall|i: int|
                0 <= i < r@.len() ==> ((#[trigger] r@[i]).0@, r@[i].1@) == self@.fields[i],
    {
        let n = self.len();
        let mut out: Vec<(&str, &Datum)> = Vec::new();
        let mut i: usize = 0;
        while i < n
            invariant
                i <= n,
                n == self@.fields.len(),
                out@.len() == i,
                forall|j: int|
                    0 <= j < i ==> ((#[trigger] out@[j]).0@, out@[j].1@) == self@.fields[j],
            decreases n - i,
        {
            match self.field_at(i) {
                Some(pair) => {
                    out.push(pair);
                },
                None => {},
            }
            i += 1;
        }
        out
    }

    /// Consume the record and return its fields, in the order of insertion.
    pub fn into_fields(self) -> (r: Vec<(String, Datum)>)
        ensures
            r@.len() == self@.fields.len(),
            forall|i: int|
                0 <= i < r@.len() ==> ((#[trigger] r@[i]).0@, r@[i].1@) == self@.fields[i],
    {
        map_into_vec(self.fields)
    }
}

impl Clone for Record {
    fn clone(&self) -> (r: Self)
        ensures
            r@ == self@,
    {
        proof {
            use_type_invariant(self);
        }
        let n = map_len(&self.fields);
        let mut fields = map_new();
        let mut i: usize = 0;
        while i < n
            invariant
                i <= n,
                n == map_entries(&self.fields).len(),
                distinct(map_entries(&self.fields)),
                map_entries(&fields) == map_entries(&self.fields).take(i as int),
            decreases n - i,
        {
            let ghost all = map_entries(&self.fields);
            let ghost done = map_entries(&fields);
            match map_entry(&self.fields, i) {
                Some((k, d)) => {
                    let key = k.clone();
                    proof {
                        lemma_index_of(done, key.key());
                        if has_key(done, key.key()) {
                            let j = index_of(done, key.key()) as int;
                            assert(done[j] == all[j]);
                            assert(name_key(all[j].0) == name_key(all[i as int].0));
                        }
                    }
                    let prior = map_insert(&mut fields, key, d.clone());
                    assert(map_entries(&fields) == all.take(i + 1)) by {
                        assert(all.take(i as int).push(all[i as int]) =~= all.take(i + 1));
                    }
                },
                None => {},
            }
            i += 1;
        }
        assert(map_entries(&self.fields).take(n as int) =~= map_entries(&self.fields));
        Record { header: self.header, fields }
    }
}

impl Default for Record {
    fn default() -> (r: Self)
        ensures
            r@ == (RecordView { header: false, fields: Seq::empty() }),
    {
        Record::new()
    }
}

impl PartialEq for Record {
    fn eq(&self, other: &Self) -> (r: bool) {
        self.header == other.header && map_eq(&self.fields, &other.fields)
    }
}

impl PartialEqSpecImpl for Record {
    open spec fn obeys_eq_spec() -> bool {
        true
    }

    open spec fn eq_spec(&self, other: &Self) -> bool {
        self.same_as(other)
    }
}

impl Eq for Record {

}

} // verus!
