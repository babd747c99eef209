//! The command registry.
//!
//! Commands are kept in the order in which they were registered and never
//! move: the position that `register_command` returns names its command for
//! as long as the registry lives. Two indices, one by name and one by key
//! binding, hold for each key the positions registered under it, oldest first.
//! A chord resolves to the command registered last under it.

use btreemultimap::BTreeMultiMap;
use multimap::MultiMap;
use std::collections::hash_map::RandomState;
use vstd::prelude::*;

verus! {

/// What invoking a command does. The registry carries the mutator and never
/// looks into it: `A` is whatever the host runs with exclusive access to its
/// own state.
#[derive(Debug, PartialEq, Eq)]
pub enum Action<A> {
    Unbound,
    BoundMutator(A),
}

/// A named, described unit of behaviour that the user can invoke, by name or
/// through the chord it is bound to.
pub struct Command<A> {
    pub name: String,
    pub description: String,
    pub keybind: Option<String>,
    pub action: Action<A>,
}

/// A command as a plain value.
pub struct CommandView<A> {
    pub name: Seq<char>,
    pub description: Seq<char>,
    pub keybind: Option<Seq<char>>,
    pub action: Action<A>,
}

impl<A> View for Command<A> {
    type V = CommandView<A>;

    open spec fn view(&self) -> CommandView<A> {
        CommandView {
            name: self.name@,
            description: self.description@,
            keybind: match self.keybind {
                Some(k) => Some(k@),
                None => None,
            },
            action: self.action,
        }
    }
}

/// `multimap::MultiMap`, a hash map from a key to the vector of the values
/// inserted under it.
#[verifier::external_type_specification]
#[verifier::external_body]
#[verifier::reject_recursive_types(K)]
#[verifier::reject_recursive_types(V)]
#[verifier::reject_recursive_types(S)]
pub struct ExMultiMap<K, V, S>(MultiMap<K, V, S>);

/// `btreemultimap::BTreeMultiMap`, an ordered map from a key to the vector of
/// the values inserted under it.
#[verifier::external_type_specification]
#[verifier::external_body]
#[verifier::reject_recursive_types(K)]
#[verifier::reject_recursive_types(V)]
pub struct ExBTreeMultiMap<K, V>(BTreeMultiMap<K, V>);

/// What a `MultiMap` from strings to positions holds: for each key that has
/// an entry, the positions inserted under it, in the order of insertion.
pub uninterp spec fn hash_entries(m: MultiMap<String, usize, RandomState>) -> Map<
    Seq<char>,
    Seq<usize>,
>;

/// What a `BTreeMultiMap` from strings to positions holds: for each key that
/// has an entry, the positions inserted under it, in the order of insertion.
pub uninterp spec fn tree_entries(m: BTreeMultiMap<String, usize>) -> Map<Seq<char>, Seq<usize>>;

/// The entries of a multimap after `v` was inserted under `k`: `v` comes last
/// among the values of `k`, which becomes a key if it was none, and the other
/// keys keep their values.
pub open spec fn entries_with(entries: Map<Seq<char>, Seq<usize>>, k: Seq<char>, v: usize) -> Map<
    Seq<char>,
    Seq<usize>,
> {
    if entries.contains_key(k) {
        entries.insert(k, entries[k].push(v))
    } else {
        entries.insert(k, seq![v])
    }
}

/// Calls `MultiMap::new`: a map without entries.
#[verifier::external_body]
fn hash_index_new() -> (index: MultiMap<String, usize>)
    ensures
        (hash_entries(index) == Map::<Seq<char>, Seq<usize>>::empty()),
{
    MultiMap::new()
}

/// Calls `MultiMap::insert`, which pushes the value onto the vector of the
/// key, or starts a vector with it where the key had none.
#[verifier::external_body]
fn hash_index_insert(m: &mut MultiMap<String, usize>, k: String, v: usize)
    ensures
        hash_entries(*final(m)) == entries_with(hash_entries(*old(m)), k@, v),
{
    m.insert(k, v)
}

/// Calls `MultiMap::get_vec`: the vector of the key, if the key has an entry.
#[verifier::external_body]
fn hash_index_get_vec<'a>(m: &'a MultiMap<String, usize>, k: &str) -> (r: Option<&'a Vec<usize>>)
    ensures
        r is Some <==> hash_entries(*m).contains_key(k@),
        r matches Some(v) ==> v@ == hash_entries(*m)[k@],
{
    m.get_vec(k)
}

/// Calls `BTreeMultiMap::new`: a map without entries.
#[verifier::external_body]
fn tree_index_new() -> (index: BTreeMultiMap<String, usize>)
    ensures
        (tree_entries(index) == Map::<Seq<char>, Seq<usize>>::empty()),
{
    BTreeMultiMap::new()
}

/// Calls `BTreeMultiMap::insert`, which pushes the value onto the vector of
/// the key, or starts a vector with it where the key had none.
#[verifier::external_body]
fn tree_index_insert(m: &mut BTreeMultiMap<String, usize>, k: String, v: usize)
    ensures
        tree_entries(*final(m)) == entries_with(tree_entries(*old(m)), k@, v),
{
    m.insert(k, v)
}

/// Calls `BTreeMultiMap::get_vec`: the vector of the key, if the key has an
/// entry.
#[verifier::external_body]
fn tree_index_get_vec<'a>(m: &'a BTreeMultiMap<String, usize>, k: &str) -> (r: Option<
    &'a Vec<usize>,
>)
    ensures
        r is Some <==> tree_entries(*m).contains_key(k@),
        r matches Some(v) ==> v@ == tree_entries(*m)[k@],
{
    m.get_vec(k)
}

/// The commands of `commands` as plain values.
pub open spec fn command_views<A>(commands: Seq<Command<A>>) -> Seq<CommandView<A>> {
    commands.map_values(|c: Command<A>| c@)
}

/// The commands that `found` refers to, as plain values.
pub open spec fn found_views<A>(found: Seq<&Command<A>>) -> Seq<CommandView<A>> {
    found.map_values(|c: &Command<A>| c@)
}

/// The commands of `commands` that are called `name`, in their order.
pub open spec fn named<A>(commands: Seq<CommandView<A>>, name: Seq<char>) -> Seq<CommandView<A>>
    decreases commands.len(),
{
    if commands.len() == 0 {
        Seq::empty()
    } else if commands.last().name == name {
        named(commands.drop_last(), name).push(commands.last())
    } else {
        named(commands.drop_last(), name)
    }
}

/// The position of the last command of `commands` that is bound to `chord`,
/// if any is.
pub open spec fn latest_bound<A>(commands: Seq<CommandView<A>>, chord: Seq<char>) -> Option<int>
    decreases commands.len(),
{
    if commands.len() == 0 {
        None
    } else if commands.last().keybind == Some(chord) {
        Some(commands.len() - 1)
    } else {
        latest_bound(commands.drop_last(), chord)
    }
}

/// The key under which each command stands in the index by name.
spec fn name_keys<A>(commands: Seq<CommandView<A>>) -> Seq<Option<Seq<char>>> {
    commands.map_values(|c: CommandView<A>| Some(c.name))
}

/// The key under which each command stands in the index by key binding, if
/// it stands in it.
spec fn keybind_keys<A>(commands: Seq<CommandView<A>>) -> Seq<Option<Seq<char>>> {
    commands.map_values(|c: CommandView<A>| c.keybind)
}

/// The positions of `keys` that hold `k`, ascending.
spec fn positions(keys: Seq<Option<Seq<char>>>, k: Seq<char>) -> Seq<int>
    decreases keys.len(),
{
    if keys.len() == 0 {
        Seq::empty()
    } else if keys.last() == Some(k) {
        positions(keys.drop_last(), k).push(keys.len() - 1)
    } else {
        positions(keys.drop_last(), k)
    }
}

/// An index holds exactly the keys that occur in `keys`, each with the
/// positions at which it occurs, ascending.
spec fn index_matches(entries: Map<Seq<char>, Seq<usize>>, keys: Seq<Option<Seq<char>>>) -> bool {
    &&& forall|k: Seq<char>| #[trigger]
        entries.contains_key(k) <==> positions(keys, k).len() > 0
    &&& forall|k: Seq<char>| #[trigger]
        entries.contains_key(k) ==> entries[k].map_values(|p: usize| p as int) == positions(
            keys,
            k,
        )
}

proof fn lemma_positions_in_range(keys: Seq<Option<Seq<char>>>, k: Seq<char>)
    ensures
        forall|j: int|
            0 <= j < positions(keys, k).len() ==> 0 <= #[trigger] positions(keys, k)[j]
                < keys.len() && keys[positions(keys, k)[j]] == Some(k),
    decreases keys.len(),
{
    if keys.len() > 0 {
        lemma_positions_in_range(keys.drop_last(), k);
    }
}

proof fn lemma_positions_extend(keys: Seq<Option<Seq<char>>>, added: Option<Seq<char>>, k: Seq<char>)
    ensures
        positions(keys.push(added), k) == if added == Some(k) {
            positions(keys, k).push(keys.len() as int)
        } else {
            positions(keys, k)
        },
{
    assert(keys.push(added).drop_last() =~= keys);
}

proof fn lemma_index_extend(
    entries: Map<Seq<char>, Seq<usize>>,
    keys: Seq<Option<Seq<char>>>,
    k: Seq<char>,
    at: usize,
)
    requires
        index_matches(entries, keys),
        at == keys.len(),
    ensures
        index_matches(entries_with(entries, k, at), keys.push(Some(k))),
{
    let after = entries_with(entries, k, at);
    let longer = keys.push(Some(k));
    assert forall|q: Seq<char>| #[trigger]
        after.contains_key(q) <==> positions(longer, q).len() > 0 by {
        lemma_positions_extend(keys, Some(k), q);
    }
    assert forall|q: Seq<char>| #[trigger] after.contains_key(q) implies after[q].map_values(
        |p: usize| p as int,
    ) == positions(longer, q) by {
        lemma_positions_extend(keys, Some(k), q);
        if q == k {
            if entries.contains_key(k) {
                assert(after[q].map_values(|p: usize| p as int) =~= entries[k].map_values(
                    |p: usize| p as int,
                ).push(at as int));
            } else {
                assert(positions(keys, k).len() == 0);
                assert(after[q].map_values(|p: usize| p as int) =~= Seq::<int>::empty().push(
                    at as int,
                ));
                assert(positions(keys, k) =~= Seq::<int>::empty());
            }
        } else {
            assert(entries.contains_key(q));
        }
    }
}

proof fn lemma_index_skip(entries: Map<Seq<char>, Seq<usize>>, keys: Seq<Option<Seq<char>>>)
    requires
        index_matches(entries, keys),
    ensures
        index_matches(entries, keys.push(None)),
{
    let longer = keys.push(None);
    assert forall|q: Seq<char>| #[trigger]
        entries.contains_key(q) <==> positions(longer, q).len() > 0 by {
        lemma_positions_extend(keys, None, q);
    }
    assert forall|q: Seq<char>| #[trigger] entries.contains_key(q) implies entries[q].map_values(
        |p: usize| p as int,
    ) == positions(longer, q) by {
        lemma_positions_extend(keys, None, q);
    }
}

/// The positions under a name select the commands of that name.
proof fn lemma_positions_named<A>(commands: Seq<CommandView<A>>, name: Seq<char>)
    ensures
        positions(name_keys(commands), name).map_values(|i: int| commands[i]) == named(
            commands,
            name,
        ),
    decreases commands.len(),
{
    let keys = name_keys(commands);
    if commands.len() > 0 {
        let front = commands.drop_last();
        lemma_positions_named(front, name);
        lemma_positions_in_range(name_keys(front), name);
        assert(keys.drop_last() =~= name_keys(front));
        let before = positions(name_keys(front), name);
        assert(before.map_values(|i: int| commands[i]) =~= before.map_values(|i: int| front[i]));
        if commands.last().name == name {
            assert(positions(keys, name).map_values(|i: int| commands[i]) =~= before.map_values(
                |i: int| commands[i],
            ).push(commands.last()));
        }
    } else {
        assert(positions(keys, name).map_values(|i: int| commands[i]) =~= named(commands, name));
    }
}

/// The last position under a chord is that of the last command bound to it.
proof fn lemma_positions_latest<A>(commands: Seq<CommandView<A>>, chord: Seq<char>)
    ensures
        latest_bound(commands, chord) == if positions(keybind_keys(commands), chord).len() > 0 {
            Some(positions(keybind_keys(commands), chord).last())
        } else {
            None
        },
    decreases commands.len(),
{
    if commands.len() > 0 {
        lemma_positions_latest(commands.drop_last(), chord);
        assert(keybind_keys(commands).drop_last() =~= keybind_keys(commands.drop_last()));
    }
}

/// The commands of an application, in the order of their registration, with
/// an index by name and an index by key binding.
pub struct CommandRegistry<A> {
    commands: Vec<Command<A>>,
    by_name: BTreeMultiMap<String, usize>,
    /// Later positions override earlier ones.
    by_keybind: MultiMap<String, usize>,
}

impl<A> View for CommandRegistry<A> {
    type V = Seq<CommandView<A>>;

    closed spec fn view(&self) -> Seq<CommandView<A>> {
        command_views(self.commands@)
    }
}

impl<A> CommandRegistry<A> {
    /// Both indices agree with the commands.
    #[verifier::type_invariant]
    spec fn indexed(self) -> bool {
        &&& index_matches(tree_entries(self.by_name), name_keys(self@))
        &&& index_matches(hash_entries(self.by_keybind), keybind_keys(self@))
    }

    /// A registry without commands.
    pub fn new() -> (registry: Self)
        ensures
            registry@ == Seq::<CommandView<A>>::empty(),
    {
        let registry = CommandRegistry {
            commands: Vec::new(),
            by_name: tree_index_new(),
            by_keybind: hash_index_new(),
        };
        assert(registry@ =~= Seq::<CommandView<A>>::empty());
        registry
    }

    /// Appends `v` and returns its position, which names it from now on. The
    /// commands registered before keep their positions. A command with the
    /// name or the key binding of an earlier one is accepted: for its chord it
    /// takes the earlier one's place.
    pub fn register_command(&mut self, v: Command<A>) -> (index: usize)
        ensures
            final(self)@ == old(self)@.push(v@),
            index == old(self)@.len(),
    {
        proof {
            use_type_invariant(&*self);
        }
        // The indices agree with the commands only once all three have
        // changed: the registry is taken apart and put back whole.
        let mut taken = CommandRegistry::new();
        std::mem::swap(self, &mut taken);
        let CommandRegistry { mut commands, mut by_name, mut by_keybind } = taken;
        let ghost before = command_views(commands@);
        let ghost names_before = tree_entries(by_name);
        let ghost keybinds_before = hash_entries(by_keybind);
        let ni = commands.len();
        tree_index_insert(&mut by_name, v.name.clone(), ni);
        proof {
            lemma_index_extend(names_before, name_keys(before), v.name@, ni);
        }
        match &v.keybind {
            Some(kb) => {
                hash_index_insert(&mut by_keybind, kb.clone(), ni);
                proof {
                    lemma_index_extend(keybinds_before, keybind_keys(before), kb@, ni);
                }
            },
            None => {
                proof {
                    lemma_index_skip(keybinds_before, keybind_keys(before));
                }
            },
        }
        commands.push(v);
        proof {
            assert(command_views(commands@) =~= before.push(v@));
            assert(name_keys(before.push(v@)) =~= name_keys(before).push(Some(v.name@)));
            assert(keybind_keys(before.push(v@)) =~= keybind_keys(before).push(v@.keybind));
        }
        *self = CommandRegistry { commands, by_name, by_keybind };
        ni
    }

    /// The command that `chord` invokes: the last one registered with this
    /// key binding, or none if no command has it.
    pub fn resolve_by_keybind(&self, chord: &str) -> (r: Option<&Command<A>>)
        ensures
            match latest_bound(self@, chord@) {
                Some(at) => r matches Some(c) && c@ == self@[at],
                None => r is None,
            },
    {
        proof {
            use_type_invariant(self);
            lemma_positions_latest(self@, chord@);
            lemma_positions_in_range(keybind_keys(self@), chord@);
        }
        match hash_index_get_vec(&self.by_keybind, chord) {
            Some(found) => {
                let ghost ps = positions(keybind_keys(self@), chord@);
                assert(found@.map_values(|p: usize| p as int) == ps);
                assert(found@.len() == ps.len());
                let at = found[found.len() - 1];
                assert(at as int == found@.map_values(|p: usize| p as int)[found.len() - 1]);
                Some(&self.commands[at])
            },
            None => None,
        }
    }

    /// The commands called `name`, in the order of their registration.
    pub fn list_by_name(&self, name: &str) -> (r: Vec<&Command<A>>)
        ensures
            found_views(r@) == named(self@, name@),
    {
        proof {
            use_type_invariant(self);
            lemma_positions_named(self@, name@);
            lemma_positions_in_range(name_keys(self@), name@);
        }
        let ghost ps = positions(name_keys(self@), name@);
        let mut listed: Vec<&Command<A>> = Vec::new();
        match tree_index_get_vec(&self.by_name, name) {
            Some(found) => {
                assert(found@.map_values(|p: usize| p as int) == ps);
                assert(found@.len() == ps.len());
                let mut j: usize = 0;
                while j < found.len()
                    invariant
                        j <= found.len(),
                        found@.map_values(|p: usize| p as int) == ps,
                        forall|i: int|
                            0 <= i < ps.len() ==> 0 <= #[trigger] ps[i] < self.commands@.len(),
                        self@ == command_views(self.commands@),
                        found_views(listed@) == ps.subrange(0, j as int).map_values(
                            |i: int| self@[i],
                        ),
                    decreases found.len() - j,
                {
                    let at = found[j];
                    assert(at as int == found@.map_values(|p: usize| p as int)[j as int]);
                    assert(at as int == ps[j as int]);
                    let ghost earlier = listed@;
                    listed.push(&self.commands[at]);
                    j = j + 1;
                    proof {
                        let now = ps.subrange(0, j as int).map_values(|i: int| self@[i]);
                        assert(ps.subrange(0, j as int).drop_last() =~= ps.subrange(
                            0,
                            j as int - 1,
                        ));
                        assert(found_views(listed@) =~= found_views(earlier).push(
                            self.commands@[at as int]@,
                        ));
                        assert(now =~= ps.subrange(0, j as int - 1).map_values(
                            |i: int| self@[i],
                        ).push(self@[at as int]));
                    }
                }
                assert(ps.subrange(0, j as int) =~= ps);
            },
            None => {
                assert(ps =~= Seq::<int>::empty());
                assert(found_views(listed@) =~= ps.map_values(|i: int| self@[i]));
            },
        }
        listed
    }

    /// All commands, in the order of their registration: the command at a
    /// position is the one whose registration returned that position.
    pub fn enumerate(&self) -> (r: &Vec<Command<A>>)
        ensures
            command_views(r@) == self@,
    {
        &self.commands
    }
}

/// What `latest_bound` finds is bound to the chord, and no command after it
/// is; it finds nothing only where no command is bound to the chord.
pub proof fn lemma_latest_bound_is_last<A>(commands: Seq<CommandView<A>>, chord: Seq<char>)
    ensures
        match latest_bound(commands, chord) {
            Some(at) => {
                &&& 0 <= at < commands.len()
                &&& commands[at].keybind == Some(chord)
                &&& forall|j: int| at < j < commands.len() ==> commands[j].keybind != Some(chord)
            },
            None => forall|j: int| 0 <= j < commands.len() ==> commands[j].keybind != Some(chord),
        },
    decreases commands.len(),
{
    if commands.len() > 0 {
        let front = commands.drop_last();
        lemma_latest_bound_is_last(front, chord);
        assert forall|j: int| 0 <= j < front.len() implies front[j] == commands[j] by {}
        if commands.last().keybind != Some(chord) {
            match latest_bound(front, chord) {
                Some(at) => {
                    assert forall|j: int| at < j < commands.len() implies commands[j].keybind
                        != Some(chord) by {
                        if j < front.len() {
                            assert(front[j].keybind != Some(chord));
                        }
                    }
                },
                None => {
                    assert forall|j: int| 0 <= j < commands.len() implies commands[j].keybind
                        != Some(chord) by {
                        if j < front.len() {
                            assert(front[j].keybind != Some(chord));
                        }
                    }
                },
            }
        }
    }
}

/// The commands listed under a name are exactly those with that name, in
/// the order in which the registry holds them.
pub proof fn lemma_named_is_filter<A>(commands: Seq<CommandView<A>>, name: Seq<char>)
    ensures
        named(commands, name) == commands.filter(|c: CommandView<A>| c.name == name),
    decreases commands.len(),
{
    reveal(Seq::filter);
    if commands.len() > 0 {
        lemma_named_is_filter(commands.drop_last(), name);
    }
}

/// A command registered after another with the same key binding takes its
/// place: the chord resolves to the later one. Both stay listed under their
/// names, the earlier one first where the names are equal.
pub proof fn lemma_later_binding_overrides<A>(
    commands: Seq<CommandView<A>>,
    first: CommandView<A>,
    second: CommandView<A>,
    chord: Seq<char>,
)
    requires
        first.keybind == Some(chord),
        second.keybind == Some(chord),
    ensures
        latest_bound(commands.push(first).push(second), chord) == Some(commands.len() as int + 1),
        commands.push(first).push(second)[commands.len() as int + 1] == second,
        named(commands.push(first).push(second), first.name).contains(first),
        named(commands.push(first).push(second), second.name).contains(second),
        first.name == second.name ==> named(commands.push(first).push(second), first.name)
            == named(commands, first.name).push(first).push(second),
{
    let one = commands.push(first);
    let two = one.push(second);
    assert(two.drop_last() =~= one);
    assert(one.drop_last() =~= commands);
    let listed_first = named(two, first.name);
    let listed_second = named(two, second.name);
    assert(named(one, first.name) == named(commands, first.name).push(first));
    assert(listed_second == named(one, second.name).push(second));
    assert(listed_second[listed_second.len() - 1] == second);
    if first.name == second.name {
        assert(listed_first[listed_first.len() - 2] == first);
    } else {
        assert(listed_first == named(one, first.name));
        assert(listed_first[listed_first.len() - 1] == first);
    }
}

/// Positions are never reused nor invalidated. A registration returns the
/// number of commands held before it. So after `v` was registered into
/// `commands`, whatever is registered later, the position of `v` still holds
/// `v`, the earlier positions hold what they held, and each later
/// registration, made when the registry holds `v` and some of `later`,
/// returns a greater position.
pub proof fn lemma_positions_are_stable<A>(
    commands: Seq<CommandView<A>>,
    v: CommandView<A>,
    later: Seq<CommandView<A>>,
)
    ensures
        (commands.push(v) + later)[commands.len() as int] == v,
        forall|i: int| 0 <= i < commands.len() ==> (commands.push(v) + later)[i] == commands[i],
        forall|j: int|
            0 <= j < later.len() ==> #[trigger] (commands.push(v) + later.subrange(0, j)).len()
                > commands.len(),
{
}

} // verus!
