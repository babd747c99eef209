//! Schemas: the description of an application's settings, field by field.
//!
//! A schema is built at run time, one field after the other. It accepts a
//! field only if no earlier field has its name and its kind admits its
//! default, so the defaults of a schema are always a complete, valid value.

use crate::registry::{Action, Command, CommandRegistry, CommandView};
use crate::value::{admits, Kind, KindView, Value, ValueView};
use vstd::prelude::*;

verus! {

/// One setting: its name, what it can hold, what it is for and where it
/// starts.
pub struct Field {
    pub name: String,
    pub kind: Kind,
    pub description: String,
    pub default: Value,
}

/// The description of a setting as a plain value.
pub struct FieldView {
    pub name: Seq<char>,
    pub kind: KindView,
    pub description: Seq<char>,
    pub default: ValueView,
}

impl View for Field {
    type V = FieldView;

    open spec fn view(&self) -> FieldView {
        FieldView {
            name: self.name@,
            kind: self.kind@,
            description: self.description@,
            default: self.default@,
        }
    }
}

/// The fields of `fields` as plain values.
pub open spec fn field_views(fields: Seq<Field>) -> Seq<FieldView> {
    fields.map_values(|f: Field| f@)
}

/// The names of `fields`, in their order.
pub open spec fn field_names(fields: Seq<FieldView>) -> Seq<Seq<char>> {
    fields.map_values(|f: FieldView| f.name)
}

/// The first position of `keys` that holds `key`, if any does.
pub open spec fn first_index(keys: Seq<Seq<char>>, key: Seq<char>) -> Option<int>
    decreases keys.len(),
{
    if keys.len() == 0 {
        None
    } else {
        match first_index(keys.drop_last(), key) {
            Some(at) => Some(at),
            None => if keys.last() == key {
                Some(keys.len() - 1)
            } else {
                None
            },
        }
    }
}

/// `first_index` finds a position that holds the key and has no position
/// holding it before; it finds none only where no position holds the key.
pub proof fn lemma_first_index(keys: Seq<Seq<char>>, key: Seq<char>)
    ensures
        match first_index(keys, key) {
            Some(at) => {
                &&& 0 <= at < keys.len()
                &&& keys[at] == key
                &&& forall|j: int| 0 <= j < at ==> keys[j] != key
            },
            None => forall|j: int| 0 <= j < keys.len() ==> keys[j] != key,
        },
    decreases keys.len(),
{
    if keys.len() > 0 {
        let front = keys.drop_last();
        lemma_first_index(front, key);
        assert forall|j: int| 0 <= j < front.len() implies front[j] == keys[j] by {}
        match first_index(front, key) {
            Some(at) => {
                assert forall|j: int| 0 <= j < at implies keys[j] != key by {
                    assert(front[j] != key);
                }
            },
            None => {
                assert forall|j: int| 0 <= j < front.len() implies keys[j] != key by {
                    assert(front[j] != key);
                }
            },
        }
    }
}

/// The position that holds the key and has no position holding it before is
/// the one that `first_index` finds.
pub proof fn lemma_first_index_at(keys: Seq<Seq<char>>, key: Seq<char>, at: int)
    requires
        0 <= at < keys.len(),
        keys[at] == key,
        forall|j: int| 0 <= j < at ==> keys[j] != key,
    ensures
        first_index(keys, key) == Some(at),
{
    lemma_first_index(keys, key);
}

/// Whether the fields can make up a schema: no two have the same name, and
/// the kind of each admits its default.
pub open spec fn valid_fields(fields: Seq<FieldView>) -> bool {
    &&& forall|i: int, j: int|
        0 <= i < j < fields.len() ==> fields[i].name != fields[j].name
    &&& forall|i: int| 0 <= i < fields.len() ==> admits(fields[i].kind, fields[i].default)
}

/// The defaults of the fields, in their order.
pub open spec fn default_values(fields: Seq<FieldView>) -> Seq<ValueView> {
    fields.map_values(|f: FieldView| f.default)
}

/// Whether `values` holds one value for each field, of the field's kind.
pub open spec fn conforms(fields: Seq<FieldView>, values: Seq<ValueView>) -> bool {
    &&& values.len() == fields.len()
    &&& forall|i: int| 0 <= i < fields.len() ==> admits(fields[i].kind, values[i])
}

/// The name of a field as a person reads it: with a space for each
/// underscore.
pub open spec fn humanized(name: Seq<char>) -> Seq<char> {
    name.map_values(
        |c: char|
            if c == '_' {
                ' '
            } else {
                c
            },
    )
}

/// The command that edits a field through `mutator`: it is called `change`
/// and the field's name as a person reads it, has the field's description and
/// no key binding.
pub open spec fn edit_command<A>(field: FieldView, mutator: A) -> CommandView<A> {
    CommandView {
        name: "change "@ + humanized(field.name),
        description: field.description,
        keybind: None,
        action: Action::BoundMutator(mutator),
    }
}

/// The name of a field as a person reads it.
pub fn humanize(name: &str) -> (r: String)
    ensures
        r@ == humanized(name@),
{
    let mut out = String::new();
    let n = name.unicode_len();
    let mut i: usize = 0;
    while i < n
        invariant
            i <= n,
            n == name@.len(),
            out@ == humanized(name@.subrange(0, i as int)),
        decreases n - i,
    {
        if name.get_char(i) == '_' {
            proof {
                reveal_strlit(" ");
            }
            out.append(" ");
            assert(out@ =~= humanized(name@.subrange(0, i + 1)));
        } else {
            out.append(name.substring_char(i, i + 1));
            assert(out@ =~= humanized(name@.subrange(0, i + 1)));
        }
        i = i + 1;
    }
    assert(name@.subrange(0, i as int) =~= name@);
    out
}

/// The name of the command that edits the field called `field_name`.
pub fn edit_command_name(field_name: &str) -> (r: String)
    ensures
        r@ == "change "@ + humanized(field_name@),
{
    let mut out = String::from_str("change ");
    let readable = humanize(field_name);
    out.append(readable.as_str());
    out
}

/// A schema: the fields of an application's settings, in the order in which
/// they were added.
pub struct Schema {
    fields: Vec<Field>,
}

impl View for Schema {
    type V = Seq<FieldView>;

    closed spec fn view(&self) -> Seq<FieldView> {
        field_views(self.fields@)
    }
}

impl Schema {
    #[verifier::type_invariant]
    spec fn valid(self) -> bool {
        valid_fields(self@)
    }

    /// A schema without fields.
    pub fn new() -> (schema: Schema)
        ensures
            schema@ == Seq::<FieldView>::empty(),
    {
        let schema = Schema { fields: Vec::new() };
        assert(schema@ =~= Seq::<FieldView>::empty());
        schema
    }

    /// The fields, in the order in which they were added. No two have the
    /// same name, and the kind of each admits its default.
    pub fn fields(&self) -> (r: &Vec<Field>)
        ensures
            field_views(r@) == self@,
            valid_fields(self@),
    {
        proof {
            use_type_invariant(self);
        }
        &self.fields
    }

    /// The position of the field called `name`, if the schema has one.
    pub fn position(&self, name: &str) -> (r: Option<usize>)
        ensures
            match r {
                Some(at) => first_index(field_names(self@), name@) == Some(at as int),
                None => first_index(field_names(self@), name@) is None,
            },
    {
        let key = String::from_str(name);
        let mut i: usize = 0;
        while i < self.fields.len()
            invariant
                i <= self.fields.len(),
                key@ == name@,
                self@ == field_views(self.fields@),
                forall|j: int| 0 <= j < i ==> field_names(self@)[j] != name@,
            decreases self.fields.len() - i,
        {
            if self.fields[i].name == key {
                proof {
                    lemma_first_index_at(field_names(self@), name@, i as int);
                }
                return Some(i);
            }
            i = i + 1;
        }
        proof {
            lemma_first_index(field_names(self@), name@);
        }
        None
    }

    /// Adds a field, unless an earlier field has its name or its kind does
    /// not admit its default. Says whether the field was added.
    pub fn add_field(&mut self, field: Field) -> (added: bool)
        ensures
            added == (first_index(field_names(old(self)@), field@.name) is None && admits(
                field@.kind,
                field@.default,
            )),
            final(self)@ == (if added {
                old(self)@.push(field@)
            } else {
                old(self)@
            }),
    {
        proof {
            use_type_invariant(&*self);
        }
        if self.position(field.name.as_str()).is_some() || !field.kind.admits(&field.default) {
            return false;
        }
        let ghost before = self@;
        proof {
            lemma_first_index(field_names(before), field@.name);
        }
        let mut taken = Schema::new();
        std::mem::swap(self, &mut taken);
        let Schema { mut fields } = taken;
        fields.push(field);
        proof {
            let after = field_views(fields@);
            assert(after =~= before.push(field@));
            assert forall|i: int, j: int| 0 <= i < j < after.len() implies after[i].name
                != after[j].name by {
                if j == before.len() {
                    assert(field_names(before)[i] == before[i].name);
                }
            }
        }
        *self = Schema { fields };
        true
    }

    /// Registers one command for each field, in the order of the fields: the
    /// command that edits the field, through the mutator that `bind` gives
    /// for the field's position. The commands that the registry held stay as
    /// they are.
    pub fn register_edit_commands<A, F: Fn(usize) -> A>(
        &self,
        registry: &mut CommandRegistry<A>,
        bind: F,
    )
        requires
            forall|at: usize| at < self@.len() ==> call_requires(bind, (at,)),
        ensures
            final(registry)@.len() == old(registry)@.len() + self@.len(),
            forall|k: int|
                0 <= k < old(registry)@.len() ==> #[trigger] final(registry)@[k] == old(
                    registry,
                )@[k],
            forall|k: int|
                old(registry)@.len() <= k < final(registry)@.len() ==> {
                    let at = k - old(registry)@.len();
                    &&& (#[trigger] final(registry)@[k]).action matches Action::BoundMutator(
                        mutator,
                    )
                    &&& call_ensures(bind, (at as usize,), mutator)
                    &&& final(registry)@[k] == edit_command(self@[at], mutator)
                },
    {
        let ghost before = registry@;
        let mut i: usize = 0;
        while i < self.fields.len()
            invariant
                i <= self.fields.len(),
                self@ == field_views(self.fields@),
                forall|at: usize| at < self@.len() ==> call_requires(bind, (at,)),
                registry@.len() == before.len() + i,
                forall|k: int| 0 <= k < before.len() ==> #[trigger] registry@[k] == before[k],
                forall|k: int|
                    before.len() <= k < registry@.len() ==> {
                        let at = k - before.len();
                        &&& (#[trigger] registry@[k]).action matches Action::BoundMutator(mutator)
                        &&& call_ensures(bind, (at as usize,), mutator)
                        &&& registry@[k] == edit_command(self@[at], mutator)
                    },
            decreases self.fields.len() - i,
        {
            let field = &self.fields[i];
            let mutator = bind(i);
            let command = Command {
                name: edit_command_name(field.name.as_str()),
                description: field.description.clone(),
                keybind: None,
                action: Action::BoundMutator(mutator),
            };
            assert(command@ == edit_command(self@[i as int], mutator));
            let ghost earlier = registry@;
            registry.register_command(command);
            assert(registry@ == earlier.push(command@));
            i = i + 1;
        }
    }
}

} // verus!
