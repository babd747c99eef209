use weftui::chord::{key_event_to_weftui_event, normalize, Modifier, Modifiers};

fn held(ctrl: bool, alt: bool, shift: bool, command: bool, mac_cmd: bool) -> Modifiers {
    Modifiers { alt, ctrl, shift, mac_cmd, command }
}

#[test]
fn ctrl_shift_a() {
    assert_eq!(normalize("a", &held(true, false, true, false, false)), "ctrl+shift+a");
}

#[test]
fn modifiers_pressed_in_any_order_give_one_chord() {
    let forward = Modifiers::from_pressed(&[Modifier::Ctrl, Modifier::Shift]);
    let backward = Modifiers::from_pressed(&[Modifier::Shift, Modifier::Ctrl]);
    assert_eq!(forward, backward);
    assert_eq!(normalize("a", &forward), "ctrl+shift+a");
    assert_eq!(normalize("a", &backward), "ctrl+shift+a");
}

#[test]
fn a_modifier_listed_twice_counts_once() {
    let m = Modifiers::from_pressed(&[Modifier::Alt, Modifier::Ctrl, Modifier::Alt]);
    assert_eq!(m, held(true, true, false, false, false));
    assert_eq!(normalize("Tab", &m), "ctrl+alt+Tab");
}

#[test]
fn no_modifiers_give_the_key_alone() {
    assert_eq!(normalize("a", &Modifiers::none()), "a");
    assert_eq!(normalize("a", &Modifiers::from_pressed(&[])), "a");
    assert_eq!(Modifiers::none(), held(false, false, false, false, false));
}

#[test]
fn all_modifiers_come_in_the_fixed_order() {
    let m = Modifiers::from_pressed(&[
        Modifier::MacCmd,
        Modifier::Shift,
        Modifier::Alt,
        Modifier::Ctrl,
    ]);
    assert_eq!(normalize("F5", &m), "ctrl+alt+shift+super+F5");
}

#[test]
fn each_modifier_alone() {
    assert_eq!(normalize("x", &held(true, false, false, false, false)), "ctrl+x");
    assert_eq!(normalize("x", &held(false, true, false, false, false)), "alt+x");
    assert_eq!(normalize("x", &held(false, false, true, false, false)), "shift+x");
    assert_eq!(normalize("x", &held(false, false, false, true, false)), "super+x");
    assert_eq!(normalize("x", &held(false, false, false, false, true)), "super+x");
}

#[test]
fn both_super_keys_give_one_token() {
    let command = held(false, false, true, true, false);
    let mac_cmd = held(false, false, true, false, true);
    let both = held(false, false, true, true, true);
    assert_eq!(normalize("k", &command), "shift+super+k");
    assert_eq!(normalize("k", &mac_cmd), "shift+super+k");
    assert_eq!(normalize("k", &both), "shift+super+k");
}

#[test]
fn an_empty_key_name_leaves_the_modifiers() {
    assert_eq!(normalize("", &Modifiers::none()), "");
    assert_eq!(normalize("", &held(true, false, false, false, false)), "ctrl+");
}

#[test]
fn distinct_inputs_give_distinct_chords() {
    let keys = ["a", "b", "Enter"];
    let mut seen: Vec<String> = Vec::new();
    for key in keys {
        for bits in 0..16u32 {
            let m = held(bits & 1 != 0, bits & 2 != 0, bits & 4 != 0, bits & 8 != 0, false);
            let chord = normalize(key, &m);
            assert!(!seen.contains(&chord), "{} came twice", chord);
            seen.push(chord);
        }
    }
    assert_eq!(seen.len(), 48);
}

#[test]
fn a_key_named_like_a_modifier_and_a_key_collides() {
    let plain = normalize("ctrl+a", &Modifiers::none());
    let modified = normalize("a", &held(true, false, false, false, false));
    assert_eq!(plain, modified);
}

#[test]
fn key_events_use_the_name_of_the_key() {
    let m = held(true, true, false, false, false);
    assert_eq!(key_event_to_weftui_event(&egui::Key::ArrowDown, &m), "ctrl+alt+Down");
    assert_eq!(key_event_to_weftui_event(&egui::Key::A, &m), "ctrl+alt+A");
    assert_eq!(key_event_to_weftui_event(&egui::Key::PlusEquals, &Modifiers::none()), "Plus");
    assert_eq!(
        key_event_to_weftui_event(&egui::Key::Num7, &held(false, false, true, true, false)),
        "shift+super+7"
    );
}

#[test]
fn key_events_of_the_same_logical_input_agree() {
    let left = held(false, false, true, true, false);
    let right = held(false, false, true, false, true);
    assert_eq!(
        key_event_to_weftui_event(&egui::Key::S, &left),
        key_event_to_weftui_event(&egui::Key::S, &right)
    );
}
