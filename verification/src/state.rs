//! The dispatcher: owns the workspace registry and the pressed-key
//! buffer, decides for every key press whether to swallow it, and runs
//! one bound action when a full sequence has been typed.
//!
//! Events arrive over a multi-producer channel; a key event carries its
//! own one-shot reply sender, over which the decision goes back to the
//! hook thread before that thread returns control to the OS.

use vstd::prelude::*;

use crate::config::key::{Key, KeyAction, KeyAtom, KeySequence, key_atoms};
use crate::config::{Config, spec_max_binding_len};

verus! {

broadcast use vstd::group_vstd_default;

#[verifier::external_type_specification]
#[verifier::external_body]
#[verifier::reject_recursive_types(T)]
pub struct ExSender<T>(std::sync::mpsc::Sender<T>);

#[verifier::external_type_specification]
#[verifier::external_body]
#[verifier::reject_recursive_types(T)]
pub struct ExReceiver<T>(std::sync::mpsc::Receiver<T>);

#[verifier::external_type_specification]
#[verifier::external_body]
pub struct ExRecvError(std::sync::mpsc::RecvError);

#[verifier::external_type_specification]
#[verifier::external_body]
#[verifier::reject_recursive_types(T)]
pub struct ExSendError<T>(std::sync::mpsc::SendError<T>);

/// Relies on std::sync::mpsc::channel: a sender/receiver pair.  Nothing
/// is claimed of the values later carried.
pub assume_specification<T>[ std::sync::mpsc::channel::<T> ]() -> (r: (
    std::sync::mpsc::Sender<T>,
    std::sync::mpsc::Receiver<T>,
));

/// Relies on std::sync::mpsc::Receiver::recv: blocks until a value or,
/// once every sender is gone, an error.  Which of the two comes back,
/// and which value, depends on the other threads, so nothing is claimed.
pub assume_specification<T>[ std::sync::mpsc::Receiver::<T>::recv ](
    rx: &std::sync::mpsc::Receiver<T>,
) -> (r: Result<T, std::sync::mpsc::RecvError>);

/// Relies on std::sync::mpsc::Sender::send: hands the value over, or
/// returns it when the receiver is gone.  Nothing is claimed.
pub assume_specification<T>[ std::sync::mpsc::Sender::<T>::send ](
    tx: &std::sync::mpsc::Sender<T>,
    t: T,
) -> (r: Result<(), std::sync::mpsc::SendError<T>>);

/// An opaque handle standing for one platform window; the backend owns
/// the real resource and hands the registry only this value.
pub type WindowId = u64;

/// What the dispatcher answers the hook thread for one key press.
#[derive(Clone, Copy, Debug, PartialEq, Eq, Structural)]
pub enum KeyIntercept {
    /// Let the OS deliver the key as usual.
    Allow,
    /// Swallow the key; it is part of a possible binding.
    Block,
}

impl Default for KeyIntercept {
    /// The safe fallback: a hook that gets no answer must let the key
    /// through rather than freeze input system-wide.
    fn default() -> (r: KeyIntercept)
        ensures
            r == KeyIntercept::Allow,
    {
        KeyIntercept::Allow
    }
}

/// Events to be received in [Storm::step], sent from the platform
/// specific backend.
pub enum Event {
    /// Track a window under a workspace.
    AddWindow { workspace: u8, window: WindowId },
    /// A key was pressed; the decision goes back over the sender.
    Key(std::sync::mpsc::Sender<KeyIntercept>, Key),
}

/// The windows each entry holds, looking the workspace up by its id.
pub open spec fn list_windows_of(items: Seq<(u8, Vec<WindowId>)>, ws: u8) -> Seq<WindowId>
    decreases items.len(),
{
    if items.len() == 0 {
        Seq::empty()
    } else if items[0].0 == ws {
        items[0].1@
    } else {
        list_windows_of(items.drop_first(), ws)
    }
}

/// Whether some workspace already tracks the window.
pub open spec fn list_tracked(items: Seq<(u8, Vec<WindowId>)>, w: WindowId) -> bool {
    exists|i: int, j: int|
        0 <= i < items.len() && 0 <= j < items[i].1@.len() && #[trigger] items[i].1@[j] == w
}

/// Maps a workspace identifier to the ordered run of windows it tracks,
/// in insertion order.  A window is tracked by at most one workspace.
pub struct Storm<S> {
    /// Platform backend state; the dispatcher only carries it.
    pub backend_state: S,
    pub config: Config,
    /// Where the backend's events arrive.
    pub rx: std::sync::mpsc::Receiver<Result<Event, String>>,
    /// The workspace new windows go to.
    pub workspace: u8,
    /// One entry per known workspace: its id and its windows in
    /// insertion order.
    pub workspaces: Vec<(u8, Vec<WindowId>)>,
    /// Length bound of [Self::pressed_keys], in key press units: the
    /// longest configured sequence.
    pub max_key_binding_len: usize,
    /// The keys pressed so far that still may complete a binding.
    pub pressed_keys: KeySequence,
    /// Set by the bound quit action; ends the event loop.
    pub quit: bool,
}

/// The first binding whose sequence is exactly the typed run, in table
/// order, if any.
pub open spec fn find_exact(bs: Seq<(KeyAction, KeySequence)>, buf: Seq<KeyAtom>) -> Option<
    KeyAction,
>
    decreases bs.len(),
{
    if bs.len() == 0 {
        Option::None
    } else if bs[0].1.atoms() == buf {
        Option::Some(bs[0].0)
    } else {
        find_exact(bs.drop_first(), buf)
    }
}

/// Whether the typed run is a strict prefix of some configured sequence:
/// shorter, and agreeing with its leading units.
pub open spec fn some_strict_prefix(bs: Seq<(KeyAction, KeySequence)>, buf: Seq<KeyAtom>) -> bool {
    exists|i: int|
        0 <= i < bs.len() && buf.len() < (#[trigger] bs[i]).1.atoms().len() && buf == bs[
            i
        ].1.atoms().take(buf.len() as int)
}


/// What one key press must lead to, by the matcher's rules: `buf` is
/// the pressed buffer with the new press appended, `bs` the binding
/// table.  Past the length of the longest binding the press is let
/// through and the buffer dropped; an exact match runs its action and
/// lets the press through; a strict prefix of some binding swallows the
/// press and keeps the buffer; anything else is let through and the
/// buffer dropped.
pub open spec fn matcher_decision(
    bs: Seq<(KeyAction, KeySequence)>,
    buf: Seq<KeyAtom>,
    max_len: nat,
    old_quit: bool,
    r: KeyIntercept,
    new_atoms: Seq<KeyAtom>,
    new_quit: bool,
) -> bool {
    if buf.len() > max_len {
        r == KeyIntercept::Allow && new_atoms == Seq::<KeyAtom>::empty() && new_quit == old_quit
    } else if find_exact(bs, buf) is Some {
        r == KeyIntercept::Allow && new_atoms == Seq::<KeyAtom>::empty() && new_quit == (old_quit
            || find_exact(bs, buf) == Some(KeyAction::Quit))
    } else if some_strict_prefix(bs, buf) {
        r == KeyIntercept::Block && new_atoms == buf && new_quit == old_quit
    } else {
        r == KeyIntercept::Allow && new_atoms == Seq::<KeyAtom>::empty() && new_quit == old_quit
    }
}

/// Scanning one more table entry finds an exact match iff the scan so
/// far did, or the new entry matches.
pub proof fn lemma_find_exact_push(
    bs: Seq<(KeyAction, KeySequence)>,
    p: (KeyAction, KeySequence),
    buf: Seq<KeyAtom>,
)
    ensures
        find_exact(bs.push(p), buf) == (if find_exact(bs, buf) is Some {
            find_exact(bs, buf)
        } else if p.1.atoms() == buf {
            Option::Some(p.0)
        } else {
            Option::<KeyAction>::None
        }),
    decreases bs.len(),
{
    if bs.len() == 0 {
        assert(bs.push(p)[0] == p);
        assert(bs.push(p).drop_first() =~= Seq::<(KeyAction, KeySequence)>::empty());
        assert(find_exact(Seq::<(KeyAction, KeySequence)>::empty(), buf) is None);
    } else {
        assert(bs.push(p)[0] == bs[0]);
        assert(bs.push(p).drop_first() =~= bs.drop_first().push(p));
        lemma_find_exact_push(bs.drop_first(), p, buf);
    }
}

impl<S> Storm<S> {
    /// The dispatcher's invariant: the buffer keeps the merge invariant
    /// and never outgrows the longest binding, and the bound is the one
    /// computed from the table.
    pub open spec fn wf(self) -> bool {
        &&& self.pressed_keys.wf()
        &&& self.pressed_keys.atoms().len() <= self.max_key_binding_len
        &&& self.config.wf()
        &&& self.max_key_binding_len == spec_max_binding_len(self.config.key_bindings@)
        &&& forall|i: int, j: int|
            0 <= i < j < self.workspaces@.len() ==> (#[trigger] self.workspaces@[i]).0 != (
            #[trigger] self.workspaces@[j]).0
    }

    /// Build a dispatcher around the given configuration and backend
    /// state, handing back the sender that the backend feeds.
    pub fn new(config: Config, backend_state: S) -> (r: (
        Storm<S>,
        std::sync::mpsc::Sender<Result<Event, String>>,
    ))
        requires
            config.wf(),
        ensures
            r.0.wf(),
            r.0.config == config,
            r.0.workspace == 1,
            r.0.workspaces@ == Seq::<(u8, Vec<WindowId>)>::empty(),
            r.0.pressed_keys.atoms() == Seq::<KeyAtom>::empty(),
            !r.0.quit,
    {
        let (tx, rx) = std::sync::mpsc::channel();
        let max_key_binding_len = config.max_key_binding_len();
        let storm = Storm {
            backend_state,
            config,
            rx,
            // We start at one since most keyboards have 1 at the top left.
            workspace: 1,
            workspaces: Vec::new(),
            max_key_binding_len,
            pressed_keys: KeySequence::with_capacity(max_key_binding_len),
            quit: false,
        };
        (storm, tx)
    }


    /// Feed one key press to the matcher and decide its fate, as one
    /// dispatcher iteration does: append it to the pressed buffer; force
    /// Allow and start over when the buffer outgrows every binding; run
    /// the first exactly matched binding's action (Allow, buffer
    /// cleared); hold the keys back (Block) while the buffer is a strict
    /// prefix of some binding; otherwise give the keys up (Allow, buffer
    /// cleared).
    pub fn handle_key(&mut self, key: Key) -> (r: KeyIntercept)
        requires
            old(self).wf(),
        ensures
            final(self).wf(),
            final(self).backend_state == old(self).backend_state,
            final(self).config == old(self).config,
            final(self).workspace == old(self).workspace,
            final(self).workspaces == old(self).workspaces,
            final(self).max_key_binding_len == old(self).max_key_binding_len,
            matcher_decision(
                old(self).config.key_bindings@,
                old(self).pressed_keys.atoms() + key_atoms(key),
                old(self).max_key_binding_len as nat,
                old(self).quit,
                r,
                final(self).pressed_keys.atoms(),
                final(self).quit,
            ),
    {
        let klen = key.atom_len();
        let plen = self.pressed_keys.atom_len();
        if klen > self.max_key_binding_len || plen > self.max_key_binding_len - klen {
            // even the longest binding is shorter: no match can come of
            // the buffer, so it is discarded without a scan
            self.pressed_keys.clear();
            return KeyIntercept::Allow;
        }
        self.pressed_keys.push(key);
        let buf = self.pressed_keys.to_atoms();
        let ghost mid = *self;
        let mut matched: Option<KeyAction> = None;
        let mut lesser = false;
        let n = self.config.key_bindings.len();
        let mut i: usize = 0;
        while i < n
            invariant
                i <= n,
                *self == mid,
                self.config.wf(),
                n == self.config.key_bindings@.len(),
                buf@ == self.pressed_keys.atoms(),
                matched == find_exact(self.config.key_bindings@.take(i as int), buf@),
                matched is None ==> lesser == some_strict_prefix(
                    self.config.key_bindings@.take(i as int),
                    buf@,
                ),
            decreases n - i,
        {
            let ghost bs = self.config.key_bindings@;
            if matched.is_none() {
                let b = self.config.key_bindings[i].1.to_atoms();
                if atoms_eq(&buf, &b) {
                    matched = Some(self.config.key_bindings[i].0);
                } else if atoms_strict_prefix(&buf, &b) {
                    lesser = true;
                }
            }
            proof {
                assert(bs.take(i + 1) =~= bs.take(i as int).push(bs[i as int]));
                lemma_find_exact_push(bs.take(i as int), bs[i as int], buf@);
                lemma_some_strict_prefix_push(bs.take(i as int), bs[i as int], buf@);
            }
            i += 1;
        }
        proof {
            assert(self.config.key_bindings@.take(n as int) =~= self.config.key_bindings@);
        }
        match matched {
            Some(action) => {
                self.pressed_keys.clear();
                match action {
                    KeyAction::Quit => {
                        self.quit = true;
                    },
                }
                KeyIntercept::Allow
            },
            None => {
                if lesser {
                    KeyIntercept::Block
                } else {
                    self.pressed_keys.clear();
                    KeyIntercept::Allow
                }
            },
        }
    }

    /// One dispatcher iteration: wait for an event and dispatch it.
    /// A window event updates the registry; a key press goes through
    /// [Self::handle_key] and the decision is answered over the event's
    /// own reply sender; a backend error is skipped; once every sender
    /// is gone, or the quit action has run, the caller must stop.
    /// Returns whether the loop shall go on.
    pub fn step(&mut self) -> (more: bool)
        requires
            old(self).wf(),
        ensures
            final(self).wf(),
            final(self).config == old(self).config,
            final(self).workspace == old(self).workspace,
            final(self).max_key_binding_len == old(self).max_key_binding_len,
            final(self).backend_state == old(self).backend_state,
            old(self).quit ==> !more && *final(self) == *old(self),
    {
        if self.quit {
            return false;
        }
        match self.rx.recv() {
            Ok(event) => {
                match event {
                    Ok(Event::AddWindow { workspace, window }) => {
                        self.add_window(workspace, window);
                    },
                    Ok(Event::Key(consume, key)) => {
                        // a response should be sent asap to allow the
                        // hook thread to continue
                        let intercept = self.handle_key(key);
                        let _ = consume.send(intercept);
                    },
                    Err(_) => {
                        // per-event backend error: skipped, the loop
                        // goes on
                    },
                }
                true
            },
            Err(_) => {
                // all senders have disconnected
                false
            },
        }
    }

    /// The windows the workspace tracks, in insertion order, for
    /// read-only use.
    pub fn windows_for(&self, workspace: u8) -> (r: Vec<WindowId>)
        ensures
            r@ == list_windows_of(self.workspaces@, workspace),
    {
        let n = self.workspaces.len();
        let mut i: usize = 0;
        proof {
            assert(self.workspaces@.skip(0) =~= self.workspaces@);
        }
        while i < n
            invariant
                i <= n,
                n == self.workspaces@.len(),
                list_windows_of(self.workspaces@, workspace) == list_windows_of(
                    self.workspaces@.skip(i as int),
                    workspace,
                ),
            decreases n - i,
        {
            let ghost tail = self.workspaces@.skip(i as int);
            proof {
                assert(tail[0] == self.workspaces@[i as int]);
                assert(tail.drop_first() =~= self.workspaces@.skip(i + 1));
            }
            if self.workspaces[i].0 == workspace {
                let r = self.workspaces[i].1.clone();
                proof {
                    assert(r@ == self.workspaces@[i as int].1@);
                }
                return r;
            }
            i += 1;
        }
        proof {
            assert(self.workspaces@.skip(n as int) =~= Seq::<(u8, Vec<WindowId>)>::empty());
        }
        Vec::new()
    }

    /// Track `window` under `workspace`, keeping insertion order; a
    /// window that some workspace already tracks is left where it is.
    pub fn add_window(&mut self, workspace: u8, window: WindowId)
        requires
            old(self).wf(),
        ensures
            final(self).wf(),
            final(self).config == old(self).config,
            final(self).backend_state == old(self).backend_state,
            final(self).workspace == old(self).workspace,
            final(self).pressed_keys == old(self).pressed_keys,
            final(self).max_key_binding_len == old(self).max_key_binding_len,
            final(self).quit == old(self).quit,
            list_tracked(old(self).workspaces@, window) ==> final(self).workspaces@ == old(
                self,
            ).workspaces@,
            !list_tracked(old(self).workspaces@, window) ==> list_windows_of(
                final(self).workspaces@,
                workspace,
            ) == list_windows_of(old(self).workspaces@, workspace).push(window),
            forall|ws: u8|
                ws != workspace ==> list_windows_of(final(self).workspaces@, ws)
                    == list_windows_of(old(self).workspaces@, ws),
            forall|w: WindowId|
                list_tracked(final(self).workspaces@, w) == (list_tracked(
                    old(self).workspaces@,
                    w,
                ) || (w == window && !list_tracked(old(self).workspaces@, window))),
    {
        let n = self.workspaces.len();
        let mut i: usize = 0;
        while i < n
            invariant
                i <= n,
                *self == *old(self),
                old(self).wf(),
                n == self.workspaces@.len(),
                forall|k: int, j: int|
                    0 <= k < i && 0 <= j < self.workspaces@[k].1@.len()
                        ==> #[trigger] self.workspaces@[k].1@[j] != window,
            decreases n - i,
        {
            let windows = &self.workspaces[i].1;
            let m = windows.len();
            let mut j: usize = 0;
            while j < m
                invariant
                    j <= m,
                    i < n,
                    *self == *old(self),
                    old(self).wf(),
                    n == self.workspaces@.len(),
                    m == self.workspaces@[i as int].1@.len(),
                    forall|p: int| 0 <= p < j ==> self.workspaces@[i as int].1@[p] != window,
                decreases m - j,
            {
                if self.workspaces[i].1[j] == window {
                    // already tracked somewhere: nothing to do
                    proof {
                        assert(list_tracked(self.workspaces@, window));
                    }
                    return ;
                }
                j += 1;
            }
            i += 1;
        }
        proof {
            assert(!list_tracked(self.workspaces@, window));
        }
        let mut idx: usize = 0;
        while idx < n && self.workspaces[idx].0 != workspace
            invariant
                idx <= n,
                *self == *old(self),
                old(self).wf(),
                !list_tracked(self.workspaces@, window),
                n == self.workspaces@.len(),
                forall|k: int| 0 <= k < idx ==> (#[trigger] self.workspaces@[k]).0 != workspace,
            decreases n - idx,
        {
            idx += 1;
        }
        let ghost olds = self.workspaces@;
        if idx < n {
            let pair = &mut self.workspaces[idx];
            pair.1.push(window);
            proof {
                let v = self.workspaces@[idx as int].1;
                assert(self.workspaces@ == olds.update(idx as int, (workspace, v)));
                lemma_list_windows_update(olds, idx as int, workspace, window, v);
                lemma_list_tracked_update(olds, idx as int, workspace, window, v);
                assert(final(self).wf()) by {
                    assert(forall|a: int, b: int|
                        0 <= a < b < self.workspaces@.len() ==> (
                        #[trigger] self.workspaces@[a]).0 == olds[a].0 && (
                        #[trigger] self.workspaces@[b]).0 == olds[b].0);
                }
            }
        } else {
            let mut fresh: Vec<WindowId> = Vec::new();
            fresh.push(window);
            self.workspaces.push((workspace, fresh));
            proof {
                lemma_list_windows_push(olds, workspace, window, self.workspaces@);
                lemma_list_tracked_push(olds, workspace, window, self.workspaces@);
                assert(final(self).wf()) by {
                    assert(forall|a: int|
                        0 <= a < olds.len() ==> (#[trigger] self.workspaces@[a]).0 == olds[a].0);
                    assert(self.workspaces@.last().0 == workspace);
                }
            }
        }
    }
}


/// Whether the two runs hold the same atoms in the same order.
fn atoms_eq(a: &Vec<KeyAtom>, b: &Vec<KeyAtom>) -> (r: bool)
    ensures
        r == (a@ == b@),
{
    if a.len() != b.len() {
        proof {
            assert(a@.len() != b@.len());
        }
        return false;
    }
    let n = a.len();
    let mut i: usize = 0;
    while i < n
        invariant
            i <= n,
            n == a@.len(),
            n == b@.len(),
            forall|j: int| 0 <= j < i ==> a@[j] == b@[j],
        decreases n - i,
    {
        if !(a[i] == b[i]) {
            proof {
                if a@ == b@ {
                    assert(a@[i as int] == b@[i as int]);
                }
            }
            return false;
        }
        i += 1;
    }
    proof {
        assert(a@ =~= b@);
    }
    true
}

/// Whether `a` is a strict prefix of `b`: shorter, and agreeing with
/// its leading atoms.
fn atoms_strict_prefix(a: &Vec<KeyAtom>, b: &Vec<KeyAtom>) -> (r: bool)
    ensures
        r == (a@.len() < b@.len() && a@ == b@.take(a@.len() as int)),
{
    let n = a.len();
    if n >= b.len() {
        return false;
    }
    let mut i: usize = 0;
    while i < n
        invariant
            i <= n,
            n == a@.len(),
            n < b@.len(),
            forall|j: int| 0 <= j < i ==> a@[j] == b@[j],
        decreases n - i,
    {
        if !(a[i] == b[i]) {
            proof {
                if a@ == b@.take(n as int) {
                    assert(a@[i as int] == b@.take(n as int)[i as int]);
                }
            }
            return false;
        }
        i += 1;
    }
    proof {
        assert(a@ =~= b@.take(n as int));
    }
    true
}

/// Scanning one more table entry sees a pending prefix iff the scan so
/// far did, or the typed run is a strict prefix of the new entry.
pub proof fn lemma_some_strict_prefix_push(
    bs: Seq<(KeyAction, KeySequence)>,
    p: (KeyAction, KeySequence),
    buf: Seq<KeyAtom>,
)
    ensures
        some_strict_prefix(bs.push(p), buf) == (some_strict_prefix(bs, buf) || (buf.len()
            < p.1.atoms().len() && buf == p.1.atoms().take(buf.len() as int))),
{
    if some_strict_prefix(bs, buf) {
        let i = choose|i: int|
            0 <= i < bs.len() && buf.len() < (#[trigger] bs[i]).1.atoms().len() && buf == bs[
                i
            ].1.atoms().take(buf.len() as int);
        assert(bs.push(p)[i] == bs[i]);
        assert(some_strict_prefix(bs.push(p), buf));
    }
    if buf.len() < p.1.atoms().len() && buf == p.1.atoms().take(buf.len() as int) {
        assert(bs.push(p)[bs.len() as int] == p);
        assert(some_strict_prefix(bs.push(p), buf));
    }
    if some_strict_prefix(bs.push(p), buf) {
        let i = choose|i: int|
            0 <= i < bs.push(p).len() && buf.len() < (#[trigger] bs.push(p)[i]).1.atoms().len()
                && buf == bs.push(p)[i].1.atoms().take(buf.len() as int);
        if i < bs.len() {
            assert(bs[i] == bs.push(p)[i]);
            assert(some_strict_prefix(bs, buf));
        } else {
            assert(bs.push(p)[i] == p);
        }
    }
}

/// Updating entry `idx`, which names `ws`, by appending `w` to its run
/// appends `w` to the windows of `ws` and leaves every other workspace's
/// run as it was.
proof fn lemma_list_windows_update(
    items: Seq<(u8, Vec<WindowId>)>,
    idx: int,
    ws: u8,
    w: WindowId,
    v: Vec<WindowId>,
)
    requires
        0 <= idx < items.len(),
        items[idx].0 == ws,
        forall|k: int| 0 <= k < idx ==> (#[trigger] items[k]).0 != ws,
        v@ == items[idx].1@.push(w),
    ensures
        list_windows_of(items.update(idx, (ws, v)), ws) == list_windows_of(items, ws).push(w),
        forall|other: u8|
            other != ws ==> list_windows_of(items.update(idx, (ws, v)), other) == list_windows_of(
                items,
                other,
            ),
    decreases items.len(),
{
    let upd = items.update(idx, (ws, v));
    if idx == 0 {
        assert(upd[0] == (ws, v));
        assert(upd.drop_first() =~= items.drop_first());
        assert(list_windows_of(upd, ws) == v@);
        assert forall|other: u8| other != ws implies list_windows_of(upd, other)
            == list_windows_of(items, other) by {
            assert(list_windows_of(upd, other) == list_windows_of(upd.drop_first(), other));
            assert(list_windows_of(items, other) == list_windows_of(items.drop_first(), other));
        }
    } else {
        lemma_list_windows_update(items.drop_first(), idx - 1, ws, w, v);
        assert(upd[0] == items[0]);
        assert(upd.drop_first() =~= items.drop_first().update(idx - 1, (ws, v)));
        assert(items[0].0 != ws);
        assert(list_windows_of(upd, ws) == list_windows_of(items.drop_first().update(
            idx - 1,
            (ws, v),
        ), ws));
        assert forall|other: u8| other != ws implies list_windows_of(upd, other)
            == list_windows_of(items, other) by {
            if items[0].0 == other {
                assert(list_windows_of(upd, other) == upd[0].1@);
                assert(list_windows_of(items, other) == items[0].1@);
            } else {
                assert(list_windows_of(upd, other) == list_windows_of(items.drop_first().update(
                    idx - 1,
                    (ws, v),
                ), other));
                assert(list_windows_of(items, other) == list_windows_of(
                    items.drop_first(),
                    other,
                ));
            }
        }
    }
}

/// Appending `w` to one entry's run tracks exactly one more window.
proof fn lemma_list_tracked_update(
    items: Seq<(u8, Vec<WindowId>)>,
    idx: int,
    ws: u8,
    w: WindowId,
    v: Vec<WindowId>,
)
    requires
        0 <= idx < items.len(),
        items[idx].0 == ws,
        v@ == items[idx].1@.push(w),
    ensures
        forall|x: WindowId|
            #[trigger] list_tracked(items.update(idx, (ws, v)), x) <==> (list_tracked(items, x)
                || x == w),
{
    let upd = items.update(idx, (ws, v));
    assert forall|x: WindowId| #[trigger] list_tracked(upd, x) <==> (list_tracked(items, x) || x
        == w) by {
        if list_tracked(items, x) {
            let (i, j) = choose|i: int, j: int|
                0 <= i < items.len() && 0 <= j < items[i].1@.len() && #[trigger] items[i].1@[j]
                    == x;
            if i == idx {
                assert(upd[idx].1@[j] == x);
            } else {
                assert(upd[i].1@[j] == x);
            }
            assert(list_tracked(upd, x));
        }
        if x == w {
            assert(upd[idx].1@[items[idx].1@.len() as int] == x);
            assert(list_tracked(upd, x));
        }
        if list_tracked(upd, x) && x != w {
            let (i, j) = choose|i: int, j: int|
                0 <= i < upd.len() && 0 <= j < upd[i].1@.len() && #[trigger] upd[i].1@[j] == x;
            if i == idx {
                assert(items[i].1@[j] == x);
            } else {
                assert(items[i].1@[j] == x);
            }
            assert(list_tracked(items, x));
        }
    }
}

/// Appending a fresh entry at the end gives that workspace its first
/// window and leaves every other run as it was.
proof fn lemma_list_windows_push(
    items: Seq<(u8, Vec<WindowId>)>,
    ws: u8,
    w: WindowId,
    upd: Seq<(u8, Vec<WindowId>)>,
)
    requires
        upd.len() == items.len() + 1,
        forall|k: int| 0 <= k < items.len() ==> #[trigger] upd[k] == items[k],
        upd.last().0 == ws,
        upd.last().1@ == Seq::<WindowId>::empty().push(w),
        forall|k: int| 0 <= k < items.len() ==> (#[trigger] items[k]).0 != ws,
    ensures
        list_windows_of(upd, ws) == list_windows_of(items, ws).push(w),
        forall|other: u8|
            other != ws ==> list_windows_of(upd, other) == list_windows_of(items, other),
    decreases items.len(),
{
    if items.len() == 0 {
        assert(upd[0] == upd.last());
        assert(list_windows_of(upd, ws) == upd[0].1@);
        assert(list_windows_of(items, ws).push(w) =~= Seq::<WindowId>::empty().push(w));
        assert forall|other: u8| other != ws implies list_windows_of(upd, other)
            == list_windows_of(items, other) by {
            assert(upd.drop_first() =~= Seq::<(u8, Vec<WindowId>)>::empty());
            assert(list_windows_of(upd, other) == list_windows_of(upd.drop_first(), other));
        }
    } else {
        assert(upd[0] == items[0]);
        assert forall|k: int| 0 <= k < items.drop_first().len() implies #[trigger] upd.drop_first(
        )[k] == items.drop_first()[k] by {
            assert(upd[k + 1] == items[k + 1]);
        }
        assert(upd.drop_first().last() == upd.last());
        lemma_list_windows_push(items.drop_first(), ws, w, upd.drop_first());
        assert(items[0].0 != ws);
        assert(list_windows_of(upd, ws) == list_windows_of(upd.drop_first(), ws));
        assert(list_windows_of(items, ws) == list_windows_of(items.drop_first(), ws));
        assert forall|other: u8| other != ws implies list_windows_of(upd, other)
            == list_windows_of(items, other) by {
            if items[0].0 == other {
                assert(list_windows_of(upd, other) == upd[0].1@);
                assert(list_windows_of(items, other) == items[0].1@);
            } else {
                assert(list_windows_of(upd, other) == list_windows_of(upd.drop_first(), other));
                assert(list_windows_of(items, other) == list_windows_of(
                    items.drop_first(),
                    other,
                ));
            }
        }
    }
}

/// Appending a fresh one-window entry tracks exactly one more window.
proof fn lemma_list_tracked_push(
    items: Seq<(u8, Vec<WindowId>)>,
    ws: u8,
    w: WindowId,
    upd: Seq<(u8, Vec<WindowId>)>,
)
    requires
        upd.len() == items.len() + 1,
        forall|k: int| 0 <= k < items.len() ==> #[trigger] upd[k] == items[k],
        upd.last().0 == ws,
        upd.last().1@ == Seq::<WindowId>::empty().push(w),
    ensures
        forall|x: WindowId|
            #[trigger] list_tracked(upd, x) <==> (list_tracked(items, x) || x == w),
{
    assert forall|x: WindowId| #[trigger] list_tracked(upd, x) <==> (list_tracked(items, x) || x
        == w) by {
        if list_tracked(items, x) {
            let (i, j) = choose|i: int, j: int|
                0 <= i < items.len() && 0 <= j < items[i].1@.len() && #[trigger] items[i].1@[j]
                    == x;
            assert(upd[i].1@[j] == x);
            assert(list_tracked(upd, x));
        }
        if x == w {
            assert(upd[items.len() as int].1@[0] == x);
            assert(list_tracked(upd, x));
        }
        if list_tracked(upd, x) && x != w {
            let (i, j) = choose|i: int, j: int|
                0 <= i < upd.len() && 0 <= j < upd[i].1@.len() && #[trigger] upd[i].1@[j] == x;
            assert(i < items.len()) by {
                if i == items.len() {
                    assert(upd[i] == upd.last());
                }
            }
            assert(items[i].1@[j] == x);
            assert(list_tracked(items, x));
        }
    }
}

} // verus!
