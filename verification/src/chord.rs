//! Canonical key chords.
//!
//! A chord names a key together with the modifiers held while it was pressed:
//! the tokens `ctrl`, `alt`, `shift` and `super`, in that order and only those
//! that are held, each followed by `+`, and then the name of the key.

use vstd::prelude::*;

verus! {

/// The modifier keys that are held while a key is pressed.
///
/// `command` and `mac_cmd` both stand for the super key: a chord does not tell
/// them apart.
#[derive(Clone, Copy, Debug, PartialEq, Eq, Hash, Structural)]
pub struct Modifiers {
    pub alt: bool,
    pub ctrl: bool,
    pub shift: bool,
    pub mac_cmd: bool,
    pub command: bool,
}

/// One modifier key, as a key event reports it.
#[derive(Clone, Copy, Debug, PartialEq, Eq, Hash, Structural)]
pub enum Modifier {
    Ctrl,
    Alt,
    Shift,
    Command,
    MacCmd,
}

impl Modifiers {
    /// The modifiers of which `pressed` lists the keys, in any order and any
    /// number of times.
    pub open spec fn holding(pressed: Seq<Modifier>) -> Modifiers {
        Modifiers {
            alt: pressed.contains(Modifier::Alt),
            ctrl: pressed.contains(Modifier::Ctrl),
            shift: pressed.contains(Modifier::Shift),
            mac_cmd: pressed.contains(Modifier::MacCmd),
            command: pressed.contains(Modifier::Command),
        }
    }

    /// Whether the two stand for the same logical modifiers: they agree on
    /// ctrl, alt and shift, and on whether a super key is held.
    pub open spec fn same_logical(self, other: Modifiers) -> bool {
        &&& self.ctrl == other.ctrl
        &&& self.alt == other.alt
        &&& self.shift == other.shift
        &&& (self.command || self.mac_cmd) == (other.command || other.mac_cmd)
    }

    /// No modifier held.
    pub fn none() -> (m: Modifiers)
        ensures
            !m.alt && !m.ctrl && !m.shift && !m.mac_cmd && !m.command,
    {
        Modifiers { alt: false, ctrl: false, shift: false, mac_cmd: false, command: false }
    }

    /// The modifiers of which `pressed` lists the keys, in any order and any
    /// number of times.
    pub fn from_pressed(pressed: &[Modifier]) -> (m: Modifiers)
        ensures
            m == Modifiers::holding(pressed@),
    {
        let mut m = Modifiers::none();
        let mut i: usize = 0;
        while i < pressed.len()
            invariant
                i <= pressed.len(),
                m == Modifiers::holding(pressed@.subrange(0, i as int)),
            decreases pressed.len() - i,
        {
            let ghost seen = pressed@.subrange(0, i as int);
            match pressed[i] {
                Modifier::Ctrl => {
                    m.ctrl = true;
                },
                Modifier::Alt => {
                    m.alt = true;
                },
                Modifier::Shift => {
                    m.shift = true;
                },
                Modifier::Command => {
                    m.command = true;
                },
                Modifier::MacCmd => {
                    m.mac_cmd = true;
                },
            }
            i = i + 1;
            proof {
                let now = pressed@.subrange(0, i as int);
                assert(now =~= seen.push(pressed@[i - 1]));
                assert(now[i - 1] == pressed@[i - 1]);
                assert forall|x: Modifier| now.contains(x) <==> (seen.contains(x) || x
                    == pressed@[i - 1]) by {
                    if seen.contains(x) {
                        let j = choose|j: int| 0 <= j < seen.len() && seen[j] == x;
                        assert(now[j] == x);
                    }
                }
            }
        }
        assert(pressed@.subrange(0, i as int) =~= pressed@);
        m
    }
}

/// What one modifier adds to a chord: its token and a `+` if it is held,
/// nothing if it is not.
pub open spec fn modifier_prefix(held: bool, token: Seq<char>) -> Seq<char> {
    if held {
        token.push('+')
    } else {
        Seq::empty()
    }
}

/// The canonical chord of the key named `key` pressed with the modifiers `m`.
pub open spec fn chord(key: Seq<char>, m: Modifiers) -> Seq<char> {
    modifier_prefix(m.ctrl, "ctrl"@) + modifier_prefix(m.alt, "alt"@) + modifier_prefix(
        m.shift,
        "shift"@,
    ) + modifier_prefix(m.command || m.mac_cmd, "super"@) + key
}

/// Appends `next` to `chain`, after a `+` if `chain` already holds something.
fn consider_punctuating(chain: &mut String, next: &str)
    ensures
        final(chain)@ == (if old(chain)@.len() > 0 {
            old(chain)@.push('+') + next@
        } else {
            next@
        }),
{
    if !chain.as_str().is_empty() {
        proof {
            reveal_strlit("+");
        }
        chain.append("+");
        assert("+"@ =~= seq!['+']);
    }
    chain.append(next);
}

/// `egui::Key`, the keys that the toolkit reports. Nothing of a key is known
/// here but its name.
#[verifier::external_type_specification]
#[verifier::external_body]
pub struct ExKey(egui::Key);

/// The English name that `egui::Key::name` gives a key.
pub uninterp spec fn key_name(k: egui::Key) -> Seq<char>;

/// Calls `egui::Key::name`. The name depends on the key alone; it is never
/// empty and holds no `+`, as the table in the toolkit's source shows.
#[verifier::external_body]
fn name_of_key(k: &egui::Key) -> (r: &'static str)
    ensures
        r@ == key_name(*k),
        r@.len() > 0,
        !r@.contains('+'),
{
    k.name()
}

/// The canonical chord of the key named `key` pressed with the modifiers `m`.
pub fn normalize(key: &str, m: &Modifiers) -> (r: String)
    ensures
        r@ == chord(key@, *m),
{
    let mut ret = String::new();
    if m.ctrl {
        consider_punctuating(&mut ret, "ctrl");
    }
    if m.alt {
        consider_punctuating(&mut ret, "alt");
    }
    if m.shift {
        consider_punctuating(&mut ret, "shift");
    }
    if m.command || m.mac_cmd {
        consider_punctuating(&mut ret, "super");
    }
    proof {
        reveal_strlit("ctrl");
        reveal_strlit("alt");
        reveal_strlit("shift");
        reveal_strlit("super");
    }
    consider_punctuating(&mut ret, key);
    ret
}

/// The canonical chord of a key event: the chord of the key's name and the
/// modifiers held. It neither starts nor ends with a `+`.
pub fn key_event_to_weftui_event(k: &egui::Key, m: &Modifiers) -> (r: String)
    ensures
        r@ == chord(key_name(*k), *m),
        r@.len() > 0,
        r@.first() != '+',
        r@.last() != '+',
{
    let name = name_of_key(k);
    proof {
        assert(name@.contains(name@.first()));
        assert(name@.contains(name@.last()));
        lemma_chord_has_no_outer_separator(name@, *m);
    }
    normalize(name, m)
}

/// Whether `s` begins with `p`.
pub open spec fn begins_with(s: Seq<char>, p: Seq<char>) -> bool {
    p.len() <= s.len() && s.subrange(0, p.len() as int) == p
}

/// Whether the name of a key begins with the token of a modifier and a `+`,
/// so that its chord reads as that of another key with that modifier held.
pub open spec fn reads_as_modified(key: Seq<char>) -> bool {
    ||| begins_with(key, "ctrl"@.push('+'))
    ||| begins_with(key, "alt"@.push('+'))
    ||| begins_with(key, "shift"@.push('+'))
    ||| begins_with(key, "super"@.push('+'))
}

/// A chord does not depend on the order in which the modifiers were pressed,
/// nor on how often one is listed: two lists that name the same modifiers give
/// the same chord.
pub proof fn lemma_chord_ignores_press_order(
    key: Seq<char>,
    pressed: Seq<Modifier>,
    other: Seq<Modifier>,
)
    requires
        pressed.to_set() == other.to_set(),
    ensures
        chord(key, Modifiers::holding(pressed)) == chord(key, Modifiers::holding(other)),
{
    assert forall|x: Modifier| pressed.contains(x) == other.contains(x) by {
        assert(pressed.to_set().contains(x) <==> pressed.contains(x));
        assert(other.to_set().contains(x) <==> other.contains(x));
    }
}

/// Modifiers that stand for the same logical modifiers give the same chord:
/// the two super keys are not told apart.
pub proof fn lemma_chord_of_same_logical_modifiers(key: Seq<char>, m: Modifiers, other: Modifiers)
    requires
        m.same_logical(other),
    ensures
        chord(key, m) == chord(key, other),
{
}

/// With a key whose name is not empty and neither starts nor ends with a `+`,
/// a chord neither starts nor ends with a `+`.
pub proof fn lemma_chord_has_no_outer_separator(key: Seq<char>, m: Modifiers)
    requires
        key.len() > 0,
        key.first() != '+',
        key.last() != '+',
    ensures
        chord(key, m).len() > 0,
        chord(key, m).first() != '+',
        chord(key, m).last() != '+',
{
    reveal_strlit("ctrl");
    reveal_strlit("alt");
    reveal_strlit("shift");
    reveal_strlit("super");
}

/// The chord from the modifier super on.
spec fn from_super(key: Seq<char>, m: Modifiers) -> Seq<char> {
    modifier_prefix(m.command || m.mac_cmd, "super"@) + key
}

/// The chord from the modifier shift on.
spec fn from_shift(key: Seq<char>, m: Modifiers) -> Seq<char> {
    modifier_prefix(m.shift, "shift"@) + from_super(key, m)
}

/// The chord from the modifier alt on.
spec fn from_alt(key: Seq<char>, m: Modifiers) -> Seq<char> {
    modifier_prefix(m.alt, "alt"@) + from_shift(key, m)
}

/// Where two strings with the prefix of one modifier in front are equal, and
/// neither string itself reads as if that modifier were held, the modifier is
/// held in both or in neither, and the strings are equal.
proof fn lemma_prefix_cancels(
    token: Seq<char>,
    held: bool,
    rest: Seq<char>,
    other_held: bool,
    other_rest: Seq<char>,
)
    requires
        modifier_prefix(held, token) + rest == modifier_prefix(other_held, token) + other_rest,
        !begins_with(rest, token.push('+')),
        !begins_with(other_rest, token.push('+')),
    ensures
        held == other_held,
        rest == other_rest,
{
    let p = token.push('+');
    if held && other_held {
        assert(rest =~= (p + rest).subrange(p.len() as int, (p + rest).len() as int));
        assert(other_rest =~= (p + other_rest).subrange(
            p.len() as int,
            (p + other_rest).len() as int,
        ));
    } else if held {
        assert(other_rest =~= p + rest);
        assert(other_rest.subrange(0, p.len() as int) =~= p);
    } else if other_held {
        assert(rest =~= p + other_rest);
        assert(rest.subrange(0, p.len() as int) =~= p);
    } else {
        assert(rest =~= Seq::<char>::empty() + rest);
        assert(other_rest =~= Seq::<char>::empty() + other_rest);
    }
}

/// What follows a modifier in a chord does not read as if that modifier were
/// held, unless the name of the key does.
proof fn lemma_rest_reads_plain(key: Seq<char>, m: Modifiers)
    requires
        !reads_as_modified(key),
    ensures
        !begins_with(from_alt(key, m), "ctrl"@.push('+')),
        !begins_with(from_shift(key, m), "alt"@.push('+')),
        !begins_with(from_super(key, m), "shift"@.push('+')),
        !begins_with(key, "super"@.push('+')),
{
    reveal_strlit("ctrl");
    reveal_strlit("alt");
    reveal_strlit("shift");
    reveal_strlit("super");
    let ctrl = "ctrl"@.push('+');
    let alt = "alt"@.push('+');
    let shift = "shift"@.push('+');
    let a = from_alt(key, m);
    let b = from_shift(key, m);
    let c = from_super(key, m);
    assert(modifier_prefix(false, "super"@) + key =~= key);
    if begins_with(c, shift) {
        assert(c.subrange(0, 6)[1] == 'h');
        assert(c[1] == 'h');
    }
    assert(modifier_prefix(false, "shift"@) + c =~= c);
    if begins_with(b, alt) {
        assert(b.subrange(0, 4)[0] == 'a');
        assert(b[0] == 'a');
        if !m.shift && (m.command || m.mac_cmd) {
            assert(b[0] == 's');
        }
    }
    assert(modifier_prefix(false, "alt"@) + b =~= b);
    if begins_with(a, ctrl) {
        assert(a.subrange(0, 5)[0] == 'c');
        assert(a[0] == 'c');
        if !m.alt && !m.shift && (m.command || m.mac_cmd) {
            assert(a[0] == 's');
        }
    }
}

/// A chord is the prefix of ctrl and what follows it.
proof fn lemma_chord_from_alt(key: Seq<char>, m: Modifiers)
    ensures
        chord(key, m) == modifier_prefix(m.ctrl, "ctrl"@) + from_alt(key, m),
{
    let c = modifier_prefix(m.ctrl, "ctrl"@);
    let a = modifier_prefix(m.alt, "alt"@);
    let s = modifier_prefix(m.shift, "shift"@);
    let u = modifier_prefix(m.command || m.mac_cmd, "super"@);
    assert(s + (u + key) =~= s + u + key);
    assert(a + (s + u + key) =~= a + s + u + key);
    assert(c + (a + s + u + key) =~= c + a + s + u + key);
}

/// Two chords are equal only if they name the same key and the same logical
/// modifiers, as long as neither key has a name that itself reads as a
/// modifier and a key.
pub proof fn lemma_chord_injective(
    key: Seq<char>,
    m: Modifiers,
    other_key: Seq<char>,
    other: Modifiers,
)
    requires
        !reads_as_modified(key),
        !reads_as_modified(other_key),
        chord(key, m) == chord(other_key, other),
    ensures
        key == other_key,
        m.same_logical(other),
{
    lemma_rest_reads_plain(key, m);
    lemma_rest_reads_plain(other_key, other);
    lemma_chord_from_alt(key, m);
    lemma_chord_from_alt(other_key, other);
    lemma_prefix_cancels(
        "ctrl"@,
        m.ctrl,
        from_alt(key, m),
        other.ctrl,
        from_alt(other_key, other),
    );
    lemma_prefix_cancels(
        "alt"@,
        m.alt,
        from_shift(key, m),
        other.alt,
        from_shift(other_key, other),
    );
    lemma_prefix_cancels(
        "shift"@,
        m.shift,
        from_super(key, m),
        other.shift,
        from_super(other_key, other),
    );
    lemma_prefix_cancels(
        "super"@,
        m.command || m.mac_cmd,
        key,
        other.command || other.mac_cmd,
        other_key,
    );
}

} // verus!
