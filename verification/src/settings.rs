//! Settings: one value for each field of a schema, and the documents that
//! they are read from and written to.
//!
//! A document is a list of entries, each a key with a value. The key of a
//! field's entry is the field's name, letter for letter. Where a document
//! holds a key more than once, its first entry counts. Entries whose key is
//! no field's name are passed over.

use crate::error::ConfError;
use crate::schema::{
    conforms, default_values, field_names, field_views, first_index, lemma_first_index,
    lemma_first_index_at, valid_fields, FieldView, Schema,
};
use crate::value::{admits, value_views, Value, ValueView};
use vstd::prelude::*;

verus! {

/// One entry of a settings document.
pub struct Entry {
    pub key: String,
    pub value: Value,
}

/// An entry as a plain value.
pub struct EntryView {
    pub key: Seq<char>,
    pub value: ValueView,
}

impl View for Entry {
    type V = EntryView;

    open spec fn view(&self) -> EntryView {
        EntryView { key: self.key@, value: self.value@ }
    }
}

/// The entries of `entries` as plain values.
pub open spec fn entry_views(entries: Seq<Entry>) -> Seq<EntryView> {
    entries.map_values(|e: Entry| e@)
}

/// The keys of `entries`, in their order.
pub open spec fn entry_keys(entries: Seq<EntryView>) -> Seq<Seq<char>> {
    entries.map_values(|e: EntryView| e.key)
}

/// The value that a document gives for `key`: that of its first entry with
/// this key, if it has one.
pub open spec fn lookup(entries: Seq<EntryView>, key: Seq<char>) -> Option<ValueView> {
    match first_index(entry_keys(entries), key) {
        Some(at) => Some(entries[at].value),
        None => None,
    }
}

/// Whether a document gives a field a value that the field's kind admits.
pub open spec fn gives(entries: Seq<EntryView>, field: FieldView) -> bool {
    match lookup(entries, field.name) {
        Some(value) => admits(field.kind, value),
        None => false,
    }
}

/// Whether a document has the shape that the fields describe: it gives each
/// field a value that the field's kind admits.
pub open spec fn readable(fields: Seq<FieldView>, entries: Seq<EntryView>) -> bool {
    forall|i: int| 0 <= i < fields.len() ==> gives(entries, #[trigger] fields[i])
}

/// The values that a document gives the fields, in the order of the fields.
pub open spec fn read_values(fields: Seq<FieldView>, entries: Seq<EntryView>) -> Seq<
    ValueView,
> {
    Seq::new(fields.len(), |i: int| lookup(entries, fields[i].name).unwrap())
}

/// The document that holds `values` for the fields: one entry for each
/// field, in the order of the fields, with the field's name as its key.
pub open spec fn document_of(fields: Seq<FieldView>, values: Seq<ValueView>) -> Seq<
    EntryView,
> {
    Seq::new(fields.len(), |i: int| EntryView { key: fields[i].name, value: values[i] })
}

/// The position of the first entry of `document` with the key `key`.
fn find_entry(document: &Vec<Entry>, key: &String) -> (r: Option<usize>)
    ensures
        match r {
            Some(at) => at < document.len() && first_index(
                entry_keys(entry_views(document@)),
                key@,
            ) == Some(at as int),
            None => first_index(entry_keys(entry_views(document@)), key@) is None,
        },
{
    let ghost keys = entry_keys(entry_views(document@));
    let mut i: usize = 0;
    while i < document.len()
        invariant
            i <= document.len(),
            keys == entry_keys(entry_views(document@)),
            forall|j: int| 0 <= j < i ==> keys[j] != key@,
        decreases document.len() - i,
    {
        if document[i].key == *key {
            proof {
                lemma_first_index_at(keys, key@, i as int);
            }
            return Some(i);
        }
        i = i + 1;
    }
    proof {
        lemma_first_index(keys, key@);
    }
    None
}

/// The settings of an application: one value for each field of a schema, of
/// the field's kind. Settings that belong to no schema hold no value.
pub struct Settings<'a> {
    schema: Option<&'a Schema>,
    values: Vec<Value>,
}

impl<'a> View for Settings<'a> {
    type V = Seq<ValueView>;

    closed spec fn view(&self) -> Seq<ValueView> {
        value_views(self.values@)
    }
}

impl<'a> Settings<'a> {
    /// The fields that these settings give values to.
    pub closed spec fn fields(&self) -> Seq<FieldView> {
        match self.schema {
            Some(schema) => schema@,
            None => Seq::empty(),
        }
    }

    /// Settings hold one value for each of their fields, of the field's kind.
    #[verifier::type_invariant]
    spec fn complete(self) -> bool {
        conforms(self.fields(), self@)
    }

    /// The settings without fields.
    pub fn empty() -> (r: Settings<'a>)
        ensures
            r.fields() == Seq::<FieldView>::empty(),
            r@ == Seq::<ValueView>::empty(),
    {
        let r = Settings { schema: None, values: Vec::new() };
        assert(r@ =~= Seq::<ValueView>::empty());
        r
    }

    /// The settings in which each field of `schema` has its default.
    pub fn defaults(schema: &'a Schema) -> (r: Settings<'a>)
        ensures
            r.fields() == schema@,
            r@ == default_values(schema@),
    {
        let fields = schema.fields();
        let mut values: Vec<Value> = Vec::new();
        let mut i: usize = 0;
        while i < fields.len()
            invariant
                i <= fields.len(),
                values@.len() == i,
                forall|j: int| 0 <= j < i ==> values@[j]@ == fields@[j].default@,
            decreases fields.len() - i,
        {
            values.push(fields[i].default.clone());
            i = i + 1;
        }
        assert(value_views(values@) =~= default_values(schema@));
        Settings { schema: Some(schema), values }
    }

    /// Reads settings for `schema` from a document. The document must give
    /// every field a value of the field's kind; if it does not, nothing is
    /// read.
    pub fn from_document(schema: &'a Schema, document: &Vec<Entry>) -> (r: Result<
        Settings<'a>,
        ConfError,
    >)
        ensures
            match r {
                Ok(settings) => {
                    &&& readable(schema@, entry_views(document@))
                    &&& settings.fields() == schema@
                    &&& settings@ == read_values(schema@, entry_views(document@))
                },
                Err(e) => e == ConfError::DeserializationError && !readable(
                    schema@,
                    entry_views(document@),
                ),
            },
    {
        let fields = schema.fields();
        let ghost entries = entry_views(document@);
        let mut values: Vec<Value> = Vec::new();
        let mut i: usize = 0;
        while i < fields.len()
            invariant
                i <= fields.len(),
                field_views(fields@) == schema@,
                entries == entry_views(document@),
                values@.len() == i,
                forall|j: int| 0 <= j < i ==> gives(entries, #[trigger] schema@[j]),
                forall|j: int|
                    0 <= j < i ==> #[trigger] values@[j]@ == lookup(
                        entries,
                        schema@[j].name,
                    ).unwrap(),
            decreases fields.len() - i,
        {
            let field = &fields[i];
            assert(field@ == schema@[i as int]);
            match find_entry(document, &field.name) {
                Some(at) => {
                    let value = &document[at].value;
                    assert(lookup(entries, field@.name) == Some(value@));
                    if !field.kind.admits(value) {
                        assert(!gives(entries, schema@[i as int]));
                        return Err(ConfError::DeserializationError);
                    }
                    values.push(value.clone());
                },
                None => {
                    assert(!gives(entries, schema@[i as int]));
                    return Err(ConfError::DeserializationError);
                },
            }
            i = i + 1;
        }
        assert(value_views(values@) =~= read_values(schema@, entries));
        Ok(Settings { schema: Some(schema), values })
    }

    /// The document that holds these settings: one entry for each field, in
    /// the order of the fields, with the field's name as its key.
    pub fn to_document(&self) -> (r: Vec<Entry>)
        ensures
            entry_views(r@) == document_of(self.fields(), self@),
    {
        proof {
            use_type_invariant(self);
        }
        let mut document: Vec<Entry> = Vec::new();
        match self.schema {
            Some(schema) => {
                let fields = schema.fields();
                let mut i: usize = 0;
                while i < fields.len()
                    invariant
                        i <= fields.len(),
                        fields@.len() == self.values@.len(),
                        document@.len() == i,
                        forall|j: int|
                            0 <= j < i ==> #[trigger] document@[j]@ == (EntryView {
                                key: fields@[j].name@,
                                value: self.values@[j]@,
                            }),
                    decreases fields.len() - i,
                {
                    document.push(
                        Entry { key: fields[i].name.clone(), value: self.values[i].clone() },
                    );
                    i = i + 1;
                }
            },
            None => {},
        }
        assert(entry_views(document@) =~= document_of(self.fields(), self@));
        document
    }

    /// The schema that these settings belong to, if they have fields.
    pub fn schema(&self) -> (r: Option<&'a Schema>)
        ensures
            match r {
                Some(schema) => schema@ == self.fields(),
                None => self.fields() == Seq::<FieldView>::empty(),
            },
    {
        self.schema
    }

    /// The values, in the order of the fields: one for each field, of the
    /// field's kind.
    pub fn values(&self) -> (r: &Vec<Value>)
        ensures
            value_views(r@) == self@,
            conforms(self.fields(), self@),
    {
        proof {
            use_type_invariant(self);
        }
        &self.values
    }

    /// The value of the field called `name`, if there is such a field.
    pub fn get(&self, name: &str) -> (r: Option<&Value>)
        ensures
            match first_index(field_names(self.fields()), name@) {
                Some(at) => r matches Some(value) && value@ == self@[at],
                None => r is None,
            },
    {
        proof {
            use_type_invariant(self);
            lemma_first_index(field_names(self.fields()), name@);
        }
        match self.schema {
            Some(schema) => match schema.position(name) {
                Some(at) => Some(&self.values[at]),
                None => None,
            },
            None => None,
        }
    }

    /// Gives the field called `name` the value `value`, if there is such a
    /// field and its kind admits the value. Says whether it did; where it
    /// did not, nothing changes.
    pub fn set(&mut self, name: &str, value: Value) -> (changed: bool)
        ensures
            final(self).fields() == old(self).fields(),
            match first_index(field_names(old(self).fields()), name@) {
                Some(at) => {
                    &&& changed == admits(old(self).fields()[at].kind, value@)
                    &&& final(self)@ == (if changed {
                        old(self)@.update(at, value@)
                    } else {
                        old(self)@
                    })
                },
                None => !changed && final(self)@ == old(self)@,
            },
    {
        proof {
            use_type_invariant(&*self);
            lemma_first_index(field_names(self.fields()), name@);
        }
        let schema = match self.schema {
            Some(schema) => schema,
            None => {
                return false;
            },
        };
        let at = match schema.position(name) {
            Some(at) => at,
            None => {
                return false;
            },
        };
        if !schema.fields()[at].kind.admits(&value) {
            return false;
        }
        // A value changes only while the settings are taken apart: they are
        // put back whole.
        let mut taken = Settings::empty();
        std::mem::swap(self, &mut taken);
        let Settings { schema: owner, mut values } = taken;
        let ghost before = value_views(values@);
        values.set(at, value);
        assert(value_views(values@) =~= before.update(at as int, value@));
        *self = Settings { schema: owner, values };
        true
    }
}

/// In the document of some settings, the entry of each field is the first
/// with the field's name.
proof fn lemma_own_entry_is_first(fields: Seq<FieldView>, values: Seq<ValueView>, i: int)
    requires
        valid_fields(fields),
        values.len() == fields.len(),
        0 <= i < fields.len(),
    ensures
        lookup(document_of(fields, values), fields[i].name) == Some(values[i]),
{
    let document = document_of(fields, values);
    let keys = entry_keys(document);
    assert forall|j: int| 0 <= j < i implies keys[j] != fields[i].name by {
        assert(keys[j] == fields[j].name);
    }
    assert(keys[i] == fields[i].name);
    lemma_first_index_at(keys, fields[i].name, i);
}

/// Writing settings to a document and reading the document gives the
/// settings back, value for value.
pub proof fn lemma_document_round_trip(fields: Seq<FieldView>, values: Seq<ValueView>)
    requires
        valid_fields(fields),
        conforms(fields, values),
    ensures
        readable(fields, document_of(fields, values)),
        read_values(fields, document_of(fields, values)) == values,
{
    let document = document_of(fields, values);
    assert forall|i: int| 0 <= i < fields.len() implies gives(document, #[trigger] fields[i]) by {
        lemma_own_entry_is_first(fields, values, i);
    }
    assert forall|i: int| 0 <= i < fields.len() implies read_values(fields, document)[i]
        == values[i] by {
        lemma_own_entry_is_first(fields, values, i);
    }
    assert(read_values(fields, document) =~= values);
}

/// The defaults of a schema are settings of that schema, and come back from
/// their document unchanged.
pub proof fn lemma_defaults_round_trip(fields: Seq<FieldView>)
    requires
        valid_fields(fields),
    ensures
        conforms(fields, default_values(fields)),
        readable(fields, document_of(fields, default_values(fields))),
        read_values(fields, document_of(fields, default_values(fields))) == default_values(
            fields,
        ),
{
    lemma_document_round_trip(fields, default_values(fields));
}

/// A document that lacks a field cannot be read: a document cut short
/// before the entry of some field gives no settings at all.
pub proof fn lemma_missing_field_unreadable(
    fields: Seq<FieldView>,
    entries: Seq<EntryView>,
    i: int,
)
    requires
        0 <= i < fields.len(),
        forall|j: int| 0 <= j < entries.len() ==> entries[j].key != fields[i].name,
    ensures
        !readable(fields, entries),
{
    let keys = entry_keys(entries);
    lemma_first_index(keys, fields[i].name);
    if first_index(keys, fields[i].name) is Some {
        let at = first_index(keys, fields[i].name).unwrap();
        assert(keys[at] == entries[at].key);
    }
    assert(!gives(entries, fields[i]));
}

/// A document that gives a field a value of another kind cannot be read.
pub proof fn lemma_wrong_kind_unreadable(
    fields: Seq<FieldView>,
    entries: Seq<EntryView>,
    i: int,
    at: int,
)
    requires
        0 <= i < fields.len(),
        0 <= at < entries.len(),
        entries[at].key == fields[i].name,
        forall|j: int| 0 <= j < at ==> entries[j].key != fields[i].name,
        !admits(fields[i].kind, entries[at].value),
    ensures
        !readable(fields, entries),
{
    let keys = entry_keys(entries);
    assert forall|j: int| 0 <= j < at implies keys[j] != fields[i].name by {
        assert(keys[j] == entries[j].key);
    }
    assert(keys[at] == fields[i].name);
    lemma_first_index_at(keys, fields[i].name, at);
    assert(!gives(entries, fields[i]));
}

/// What is read from a readable document is complete: one value for each
/// field, of the field's kind.
pub proof fn lemma_read_values_conform(fields: Seq<FieldView>, entries: Seq<EntryView>)
    requires
        readable(fields, entries),
    ensures
        conforms(fields, read_values(fields, entries)),
{
    assert forall|i: int| 0 <= i < fields.len() implies admits(
        fields[i].kind,
        read_values(fields, entries)[i],
    ) by {
        assert(gives(entries, fields[i]));
    }
}

} // verus!
