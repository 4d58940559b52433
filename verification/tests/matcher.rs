//! The dispatcher: matcher scenarios, the workspace registry, and the
//! event loop step.

use std::sync::mpsc;

use storm::config::key::{Key, KeyAction, KeyKind, KeyModifier, KeyModifiers, KeySequence, Parser};
use storm::config::Config;
use storm::state::{Event, KeyIntercept, Storm};

fn table(bindings: &[(&str, KeyAction)]) -> Config {
    let mut config = Config::new();
    for (text, action) in bindings {
        let (seq, rest) = KeySequence::parse(text).unwrap().unwrap();
        assert_eq!(*rest, String::new());
        config.key_bindings.push((*action, seq));
    }
    config
}

fn plain(text: &str) -> Key {
    Key::new(
        KeyModifiers::from_fn(|_| false),
        KeyKind::Visible(String::from(text)),
    )
}

#[test]
fn matcher_quit_binding() {
    // BindingTable = {Quit: ["C-q"]}: Control+q runs the quit action
    let (mut storm, _tx) = Storm::new(table(&[("C-q", KeyAction::Quit)]), ());
    let mut mods = KeyModifiers::from_fn(|_| false);
    mods.push(KeyModifier::Control);
    let key = Key::new(mods, KeyKind::Visible(String::from("q")));
    let reply = storm.handle_key(key);
    assert!(matches!(reply, KeyIntercept::Allow));
    assert_eq!(storm.pressed_keys.len(), 0);
    assert!(storm.quit);
}

#[test]
fn matcher_prefix_then_match() {
    // BindingTable = {A: ["xy"]}: 'x' is held back, 'y' completes
    let (mut storm, _tx) = Storm::new(table(&[("xy", KeyAction::Quit)]), ());
    let first = storm.handle_key(plain("x"));
    assert!(matches!(first, KeyIntercept::Block));
    assert_eq!(storm.pressed_keys.atom_len(), 1);
    let second = storm.handle_key(plain("y"));
    assert!(matches!(second, KeyIntercept::Allow));
    assert_eq!(storm.pressed_keys.len(), 0);
    assert!(storm.quit);
}

#[test]
fn matcher_mismatch_clears() {
    // same table: 'x' then 'z' leads nowhere, so the buffer is dropped
    let (mut storm, _tx) = Storm::new(table(&[("xy", KeyAction::Quit)]), ());
    let first = storm.handle_key(plain("x"));
    assert!(matches!(first, KeyIntercept::Block));
    let second = storm.handle_key(plain("z"));
    assert!(matches!(second, KeyIntercept::Allow));
    assert_eq!(storm.pressed_keys.len(), 0);
    assert!(!storm.quit);
}

#[test]
fn matcher_overflow_forces_allow() {
    // the longest binding holds two presses; a run that outgrows it is
    // let through and the buffer dropped, prefix state or not
    let (mut storm, _tx) = Storm::new(table(&[("ab", KeyAction::Quit)]), ());
    assert_eq!(storm.max_key_binding_len, 2);
    let first = storm.handle_key(plain("a"));
    assert!(matches!(first, KeyIntercept::Block));
    let second = storm.handle_key(plain("bc"));
    assert!(matches!(second, KeyIntercept::Allow));
    assert_eq!(storm.pressed_keys.len(), 0);
    assert!(!storm.quit);
}

#[test]
fn workspace_registry() {
    // AddWindow(ws=1, W1) then AddWindow(ws=1, W2) keeps order; adding
    // W1 under another workspace is a no-op, W1 is already tracked
    let (mut storm, _tx) = Storm::new(Config::new(), ());
    storm.add_window(1, 10);
    storm.add_window(1, 20);
    assert_eq!(storm.windows_for(1), vec![10, 20]);
    storm.add_window(2, 10);
    assert_eq!(storm.windows_for(1), vec![10, 20]);
    assert_eq!(storm.windows_for(2), Vec::<u64>::new());
    storm.add_window(2, 30);
    assert_eq!(storm.windows_for(2), vec![30]);
}

#[test]
fn step_dispatches_events() {
    let (mut storm, tx) = Storm::new(table(&[("C-q", KeyAction::Quit)]), ());
    tx.send(Ok(Event::AddWindow { workspace: 1, window: 7 })).unwrap();
    assert!(storm.step());
    assert_eq!(storm.windows_for(1), vec![7]);

    let (reply_tx, reply_rx) = mpsc::channel();
    let mut mods = KeyModifiers::from_fn(|_| false);
    mods.push(KeyModifier::Control);
    let key = Key::new(mods, KeyKind::Visible(String::from("q")));
    tx.send(Ok(Event::Key(reply_tx, key))).unwrap();
    assert!(storm.step());
    assert!(matches!(reply_rx.recv().unwrap(), KeyIntercept::Allow));
    assert!(storm.quit);
    // once the quit action ran, the loop must stop
    assert!(!storm.step());
}

#[test]
fn step_skips_backend_errors() {
    let (mut storm, tx) = Storm::new(Config::new(), ());
    tx.send(Err(String::from("transient"))).unwrap();
    assert!(storm.step());
    assert!(!storm.quit);
}

#[test]
fn shutdown_on_disconnect() {
    // dropping every sender ends the loop without a panic
    let (mut storm, tx) = Storm::new(Config::new(), ());
    drop(tx);
    assert!(!storm.step());
    assert!(!storm.quit);
}

#[test]
fn default_intercept_is_allow() {
    // the reply a hook falls back to must let the key through
    assert!(matches!(KeyIntercept::default(), KeyIntercept::Allow));
}
