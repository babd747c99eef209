use weftui::registry::{Action, Command, CommandRegistry};

fn command(name: &str, description: &str, keybind: Option<&str>) -> Command<u32> {
    Command {
        name: name.to_string(),
        description: description.to_string(),
        keybind: keybind.map(|k| k.to_string()),
        action: Action::Unbound,
    }
}

fn bound(name: &str, keybind: Option<&str>, mutator: u32) -> Command<u32> {
    Command {
        name: name.to_string(),
        description: String::new(),
        keybind: keybind.map(|k| k.to_string()),
        action: Action::BoundMutator(mutator),
    }
}

#[test]
fn a_new_registry_is_empty() {
    let registry: CommandRegistry<u32> = CommandRegistry::new();
    assert!(registry.enumerate().is_empty());
    assert!(registry.resolve_by_keybind("ctrl+s").is_none());
    assert!(registry.list_by_name("save").is_empty());
}

#[test]
fn registration_returns_successive_positions() {
    let mut registry = CommandRegistry::new();
    assert_eq!(registry.register_command(command("save", "write the file", Some("ctrl+s"))), 0);
    assert_eq!(registry.register_command(command("open", "read a file", Some("ctrl+o"))), 1);
    assert_eq!(registry.register_command(command("quit", "leave", None)), 2);
    let all = registry.enumerate();
    assert_eq!(all.len(), 3);
    assert_eq!(all[0].name, "save");
    assert_eq!(all[1].name, "open");
    assert_eq!(all[2].name, "quit");
    assert_eq!(all[1].description, "read a file");
    assert_eq!(all[2].keybind, None);
}

#[test]
fn a_later_binding_overrides_an_earlier_one() {
    let mut registry = CommandRegistry::new();
    registry.register_command(command("a", "the first", Some("ctrl+k")));
    registry.register_command(command("b", "the second", Some("ctrl+k")));
    let found = registry.resolve_by_keybind("ctrl+k").unwrap();
    assert_eq!(found.name, "b");
    assert_eq!(found.description, "the second");
    assert_eq!(registry.enumerate().len(), 2);
}

#[test]
fn an_override_does_not_reach_other_chords() {
    let mut registry = CommandRegistry::new();
    registry.register_command(command("a", "", Some("ctrl+k")));
    registry.register_command(command("b", "", Some("ctrl+j")));
    registry.register_command(command("c", "", Some("ctrl+k")));
    assert_eq!(registry.resolve_by_keybind("ctrl+j").unwrap().name, "b");
    assert_eq!(registry.resolve_by_keybind("ctrl+k").unwrap().name, "c");
}

#[test]
fn an_unbound_chord_resolves_to_nothing() {
    let mut registry = CommandRegistry::new();
    registry.register_command(command("a", "", Some("ctrl+k")));
    registry.register_command(command("b", "", None));
    assert!(registry.resolve_by_keybind("ctrl+j").is_none());
    assert!(registry.resolve_by_keybind("").is_none());
    assert!(registry.resolve_by_keybind("b").is_none());
}

#[test]
fn commands_of_one_name_are_listed_in_registration_order() {
    let mut registry = CommandRegistry::new();
    registry.register_command(command("toggle", "first", Some("ctrl+t")));
    registry.register_command(command("other", "between", None));
    registry.register_command(command("toggle", "second", Some("ctrl+t")));
    registry.register_command(command("toggle", "third", None));
    let listed = registry.list_by_name("toggle");
    assert_eq!(listed.len(), 3);
    assert_eq!(listed[0].description, "first");
    assert_eq!(listed[1].description, "second");
    assert_eq!(listed[2].description, "third");
    assert_eq!(registry.list_by_name("other").len(), 1);
    assert!(registry.list_by_name("missing").is_empty());
    assert_eq!(registry.resolve_by_keybind("ctrl+t").unwrap().description, "second");
}

#[test]
fn positions_stay_valid_after_later_registrations() {
    let mut registry = CommandRegistry::new();
    let first = registry.register_command(command("first", "", Some("f")));
    let second = registry.register_command(command("second", "", None));
    assert_eq!(registry.enumerate()[first].name, "first");
    let mut given = vec![first, second];
    for i in 0..50 {
        let at = registry.register_command(command("filler", "", Some("f")));
        assert!(!given.contains(&at));
        given.push(at);
        assert_eq!(at, i + 2);
    }
    assert_eq!(registry.enumerate()[first].name, "first");
    assert_eq!(registry.enumerate()[second].name, "second");
    assert_eq!(registry.enumerate().len(), 52);
    assert_eq!(registry.list_by_name("filler").len(), 50);
}

#[test]
fn names_and_chords_are_told_apart_letter_by_letter() {
    let mut registry = CommandRegistry::new();
    registry.register_command(command("Save", "", Some("ctrl+S")));
    registry.register_command(command("save", "", Some("ctrl+s")));
    assert_eq!(registry.list_by_name("Save").len(), 1);
    assert_eq!(registry.list_by_name("save").len(), 1);
    assert_eq!(registry.resolve_by_keybind("ctrl+S").unwrap().name, "Save");
    assert_eq!(registry.resolve_by_keybind("ctrl+s").unwrap().name, "save");
}

#[test]
fn a_command_keeps_its_action() {
    let mut registry = CommandRegistry::new();
    registry.register_command(bound("grow", Some("ctrl+g"), 7));
    registry.register_command(command("idle", "", Some("ctrl+i")));
    registry.register_command(bound("grow", Some("ctrl+g"), 9));
    assert_eq!(registry.resolve_by_keybind("ctrl+g").unwrap().action, Action::BoundMutator(9));
    assert_eq!(registry.resolve_by_keybind("ctrl+i").unwrap().action, Action::Unbound);
    let listed = registry.list_by_name("grow");
    assert_eq!(listed[0].action, Action::BoundMutator(7));
    assert_eq!(listed[1].action, Action::BoundMutator(9));
    assert_eq!(registry.enumerate()[1].action, Action::Unbound);
}

#[test]
fn a_registry_carries_mutators_that_it_cannot_read() {
    let mut registry: CommandRegistry<Box<dyn Fn(&mut Vec<u8>)>> = CommandRegistry::new();
    registry.register_command(Command {
        name: "push".to_string(),
        description: "adds a one".to_string(),
        keybind: Some("ctrl+p".to_string()),
        action: Action::BoundMutator(Box::new(|state: &mut Vec<u8>| state.push(1))),
    });
    let mut state = Vec::new();
    match &registry.resolve_by_keybind("ctrl+p").unwrap().action {
        Action::BoundMutator(run) => run(&mut state),
        Action::Unbound => panic!("the command lost its action"),
    }
    assert_eq!(state, vec![1]);
}
