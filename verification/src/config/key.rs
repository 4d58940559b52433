//! Key model: modifiers, single key presses, and key sequences.
//!
//! A key press is a set of modifiers together with a payload that is
//! either printable text or one named (invisible) key.  A key sequence
//! is a run of key presses; two adjacent presses that are both textual
//! and share their modifiers are stored merged into one element.

pub mod parser;

use vstd::prelude::*;
use vstd::string::{StrSliceExecFns, StringExecFns};

verus! {

broadcast use vstd::group_vstd_default;

/// The possible modifier keys from a key press.
///
/// Does not distinguish between left and right variants.
#[derive(Clone, Copy, Debug, PartialEq, Eq, Structural)]
pub enum KeyModifier {
    /// AKA meta key.
    Alt,
    Control,
    Shift,
    /// Logo/windows key.
    Super,
}

/// A set of modifiers, one flag for each [KeyModifier].
#[derive(Clone, Copy, Debug, PartialEq, Eq, Structural)]
pub struct KeyModifiers {
    pub alt: bool,
    pub control: bool,
    pub shift: bool,
    pub logo: bool,
}

impl KeyModifiers {
    /// The set with no active modifier.
    pub open spec fn spec_empty() -> KeyModifiers {
        KeyModifiers { alt: false, control: false, shift: false, logo: false }
    }

    /// Whether `m` is in the set.
    pub open spec fn spec_has(self, m: KeyModifier) -> bool {
        match m {
            KeyModifier::Alt => self.alt,
            KeyModifier::Control => self.control,
            KeyModifier::Shift => self.shift,
            KeyModifier::Super => self.logo,
        }
    }

    /// The set with `m` added.
    pub open spec fn spec_insert(self, m: KeyModifier) -> KeyModifiers {
        match m {
            KeyModifier::Alt => KeyModifiers { alt: true, ..self },
            KeyModifier::Control => KeyModifiers { control: true, ..self },
            KeyModifier::Shift => KeyModifiers { shift: true, ..self },
            KeyModifier::Super => KeyModifiers { logo: true, ..self },
        }
    }

    /// Build a set by asking `f` about each modifier in turn.
    pub fn from_fn<F: Fn(KeyModifier) -> bool>(f: F) -> (r: KeyModifiers)
        requires
            forall|m: KeyModifier| #[trigger] f.requires((m,)),
        ensures
            f.ensures((KeyModifier::Alt,), r.alt),
            f.ensures((KeyModifier::Control,), r.control),
            f.ensures((KeyModifier::Shift,), r.shift),
            f.ensures((KeyModifier::Super,), r.logo),
    {
        KeyModifiers {
            alt: f(KeyModifier::Alt),
            control: f(KeyModifier::Control),
            shift: f(KeyModifier::Shift),
            logo: f(KeyModifier::Super),
        }
    }

    /// Returns whether there are any active key modifiers.
    pub fn is_active(&self) -> (r: bool)
        ensures
            r == (*self != KeyModifiers::spec_empty()),
    {
        self.alt || self.control || self.shift || self.logo
    }

    /// Add `modifier` to the set.
    pub fn push(&mut self, modifier: KeyModifier)
        ensures
            *final(self) == old(self).spec_insert(modifier),
    {
        match modifier {
            KeyModifier::Alt => self.alt = true,
            KeyModifier::Control => self.control = true,
            KeyModifier::Shift => self.shift = true,
            KeyModifier::Super => self.logo = true,
        }
    }
}

impl Default for KeyModifiers {
    /// The empty modifier set.
    fn default() -> (r: KeyModifiers)
        ensures
            r == KeyModifiers::spec_empty(),
    {
        KeyModifiers { alt: false, control: false, shift: false, logo: false }
    }
}

/// The user-triggerable operations a key binding can name.
#[derive(Clone, Copy, Debug, PartialEq, Eq, Structural)]
pub enum KeyAction {
    /// End the window manager.
    Quit,
}

/// Keys that cannot be represented using text (such as `F1`, `PageUp`, ..).
#[derive(Clone, Copy, Debug, PartialEq, Eq, Structural)]
pub enum InvisibleKey {
    /// Function keys.
    F(u8),
    PageUp,
    PageDown,
}

/// The payload of a key press.
#[derive(Debug)]
pub enum KeyKind {
    /// Keys that cannot be represented using text (such as `F1`, `PageUp`, ..).
    Invisible(InvisibleKey),
    /// Keys that can be represented using text (such as 'a', 'A', 'b', ..).
    Visible(String),
}

impl KeyKind {
    /// Deep equality on the payload: same variant and same contents.
    pub open spec fn spec_same(self, other: KeyKind) -> bool {
        match (self, other) {
            (KeyKind::Invisible(a), KeyKind::Invisible(b)) => a == b,
            (KeyKind::Visible(a), KeyKind::Visible(b)) => a@ == b@,
            _ => false,
        }
    }
}

impl Clone for KeyKind {
    fn clone(&self) -> (r: KeyKind)
        ensures
            r.spec_same(*self),
    {
        match self {
            KeyKind::Invisible(k) => KeyKind::Invisible(*k),
            KeyKind::Visible(s) => KeyKind::Visible(s.clone()),
        }
    }
}

impl PartialEq for KeyKind {
    fn eq(&self, other: &KeyKind) -> (r: bool) {
        match (self, other) {
            (KeyKind::Invisible(a), KeyKind::Invisible(b)) => *a == *b,
            (KeyKind::Visible(a), KeyKind::Visible(b)) => *a == *b,
            _ => false,
        }
    }
}

impl vstd::std_specs::cmp::PartialEqSpecImpl for KeyKind {
    open spec fn obeys_eq_spec() -> bool {
        true
    }

    open spec fn eq_spec(&self, other: &KeyKind) -> bool {
        self.spec_same(*other)
    }
}

/// Represent a key press.
#[derive(Debug)]
pub struct Key {
    /// The modifiers that are active during the press.
    pub mods: KeyModifiers,
    pub kind: KeyKind,
}

impl Key {
    pub fn new(mods: KeyModifiers, kind: KeyKind) -> (r: Key)
        ensures
            r.mods == mods,
            r.kind == kind,
    {
        Key { mods, kind }
    }

    /// Deep equality on presses: same modifiers and same payload.
    pub open spec fn spec_same(self, other: Key) -> bool {
        self.mods == other.mods && self.kind.spec_same(other.kind)
    }

    /// How many key press units this press denotes: one per character of
    /// a textual press, one for a named key.
    pub fn atom_len(&self) -> (r: usize)
        ensures
            r == key_atoms(*self).len(),
    {
        match &self.kind {
            KeyKind::Invisible(_) => 1,
            KeyKind::Visible(s) => s.as_str().unicode_len(),
        }
    }
}

impl Clone for Key {
    fn clone(&self) -> (r: Key)
        ensures
            r.spec_same(*self),
    {
        Key { mods: self.mods, kind: self.kind.clone() }
    }
}

impl PartialEq for Key {
    fn eq(&self, other: &Key) -> (r: bool) {
        self.mods == other.mods && self.kind == other.kind
    }
}

impl vstd::std_specs::cmp::PartialEqSpecImpl for Key {
    open spec fn obeys_eq_spec() -> bool {
        true
    }

    open spec fn eq_spec(&self, other: &Key) -> bool {
        self.spec_same(*other)
    }
}

/// One unit of a key sequence, counted in key presses: a visible press
/// carries one character, an invisible press one named key.  Two
/// sequences mean the same input exactly when their atoms agree, no
/// matter how their text runs are grouped.
#[derive(Clone, Copy, Debug, PartialEq, Eq, Structural)]
pub struct KeyAtom {
    pub mods: KeyModifiers,
    pub sym: KeySym,
}

/// The payload of a single [KeyAtom]: one character, given by its code
/// point, or one named key.
#[derive(Clone, Copy, Debug, PartialEq, Eq, Structural)]
pub enum KeySym {
    Ch(u32),
    Named(InvisibleKey),
}

/// The atoms denoted by one key press.
pub open spec fn key_atoms(k: Key) -> Seq<KeyAtom> {
    match k.kind {
        KeyKind::Invisible(i) => seq![KeyAtom { mods: k.mods, sym: KeySym::Named(i) }],
        KeyKind::Visible(s) => Seq::new(s@.len(), |i: int| KeyAtom { mods: k.mods, sym: KeySym::Ch(s@[i] as u32) }),
    }
}

/// The atoms denoted by a run of key presses.
pub open spec fn keys_atoms(keys: Seq<Key>) -> Seq<KeyAtom>
    decreases keys.len(),
{
    if keys.len() == 0 {
        Seq::empty()
    } else {
        key_atoms(keys[0]) + keys_atoms(keys.drop_first())
    }
}

/// Backing store of a [KeySequence]: a small vector of keys.  The
/// collection comes from the smallvec crate, so the struct is opaque to
/// the verifier; what it holds is named by [small_vec_keys] and pinned
/// down by the contracts of the accessors below.
#[verifier::external_body]
pub struct KeyBuffer {
    inner: smallvec::SmallVec<[Key; 4]>,
}

/// What the backing small vector of a [KeySequence] holds, in order.
pub uninterp spec fn small_vec_keys(v: KeyBuffer) -> Seq<Key>;

/// Relies on smallvec::SmallVec::new: constructs an empty vector.
#[verifier::external_body]
fn sv_new() -> (r: KeyBuffer)
    ensures
        small_vec_keys(r) == Seq::<Key>::empty(),
{
    KeyBuffer { inner: smallvec::SmallVec::new() }
}

/// Relies on smallvec::SmallVec::with_capacity: constructs an empty vector.
#[verifier::external_body]
fn sv_with_capacity(n: usize) -> (r: KeyBuffer)
    ensures
        small_vec_keys(r) == Seq::<Key>::empty(),
{
    KeyBuffer { inner: smallvec::SmallVec::with_capacity(n) }
}

/// Relies on smallvec::SmallVec::len: the number of elements held.
#[verifier::external_body]
fn sv_len(v: &KeyBuffer) -> (r: usize)
    ensures
        r == small_vec_keys(*v).len(),
{
    v.inner.len()
}

/// Relies on smallvec's Index impl (via SliceIndex): element `i`, in order.
#[verifier::external_body]
fn sv_get(v: &KeyBuffer, i: usize) -> (r: &Key)
    requires
        i < small_vec_keys(*v).len(),
    ensures
        *r == small_vec_keys(*v)[i as int],
{
    &v.inner[i]
}

/// Relies on smallvec's IndexMut impl (via SliceIndex): replaces element `i`.
#[verifier::external_body]
fn sv_set(v: &mut KeyBuffer, i: usize, k: Key)
    requires
        i < small_vec_keys(*old(v)).len(),
    ensures
        small_vec_keys(*final(v)) == small_vec_keys(*old(v)).update(i as int, k),
{
    v.inner[i] = k;
}

/// Relies on smallvec::SmallVec::push: appends one element at the end.
#[verifier::external_body]
fn sv_push(v: &mut KeyBuffer, k: Key)
    ensures
        small_vec_keys(*final(v)) == small_vec_keys(*old(v)).push(k),
{
    v.inner.push(k);
}

/// Relies on smallvec::SmallVec::clear: removes all elements.
#[verifier::external_body]
fn sv_clear(v: &mut KeyBuffer)
    ensures
        small_vec_keys(*final(v)) == Seq::<Key>::empty(),
{
    v.inner.clear();
}

/// Relies on smallvec::SmallVec::reserve: grows capacity, contents unchanged.
#[verifier::external_body]
fn sv_reserve(v: &mut KeyBuffer, n: usize)
    ensures
        small_vec_keys(*final(v)) == small_vec_keys(*old(v)),
{
    v.inner.reserve(n);
}

/// Relies on smallvec::SmallVec::shrink_to_fit: sheds capacity, contents unchanged.
#[verifier::external_body]
fn sv_shrink_to_fit(v: &mut KeyBuffer)
    ensures
        small_vec_keys(*final(v)) == small_vec_keys(*old(v)),
{
    v.inner.shrink_to_fit();
}

/// Two presses that a sequence stores merged: both textual, same modifiers.
pub open spec fn keys_mergeable(a: Key, b: Key) -> bool {
    a.kind is Visible && b.kind is Visible && a.mods == b.mods
}

/// How one push changes the stored elements: the new press is folded into
/// a mergeable tail element, else appended.
pub open spec fn spec_pushed(before: Seq<Key>, k: Key, after: Seq<Key>) -> bool {
    if before.len() > 0 && keys_mergeable(before.last(), k) {
        &&& after.len() == before.len()
        &&& (forall|i: int| 0 <= i < before.len() - 1 ==> after[i] == before[i])
        &&& after.last().mods == k.mods
        &&& after.last().kind is Visible
        &&& after.last().kind->Visible_0@ == before.last().kind->Visible_0@ + k.kind->Visible_0@
    } else {
        after == before.push(k)
    }
}

/// Element-wise prefix test: the two runs agree at every index both hold.
pub open spec fn spec_contains(a: Seq<Key>, b: Seq<Key>) -> bool {
    forall|i: int| 0 <= i < a.len() && i < b.len() ==> a[i].spec_same(b[i])
}

pub proof fn lemma_keys_atoms_push(s: Seq<Key>, k: Key)
    ensures
        keys_atoms(s.push(k)) == keys_atoms(s) + key_atoms(k),
    decreases s.len(),
{
    if s.len() == 0 {
        assert(s.push(k).drop_first() =~= Seq::<Key>::empty());
        assert(s.push(k)[0] == k);
        assert(keys_atoms(s.push(k)) == key_atoms(k) + keys_atoms(Seq::<Key>::empty()));
        assert(keys_atoms(s.push(k)) =~= keys_atoms(s) + key_atoms(k));
    } else {
        assert(s.push(k).drop_first() =~= s.drop_first().push(k));
        assert(s.push(k)[0] == s[0]);
        lemma_keys_atoms_push(s.drop_first(), k);
        assert(keys_atoms(s.push(k)) == key_atoms(s[0]) + (keys_atoms(s.drop_first())
            + key_atoms(k)));
        assert(keys_atoms(s.push(k)) =~= keys_atoms(s) + key_atoms(k));
    }
}

pub proof fn lemma_keys_atoms_drop_last(s: Seq<Key>)
    requires
        s.len() > 0,
    ensures
        keys_atoms(s) == keys_atoms(s.drop_last()) + key_atoms(s.last()),
{
    assert(s.drop_last().push(s.last()) =~= s);
    lemma_keys_atoms_push(s.drop_last(), s.last());
}

proof fn lemma_merge_atoms(a: Key, b: Key, m: Key)
    requires
        keys_mergeable(a, b),
        m.mods == a.mods,
        m.kind is Visible,
        m.kind->Visible_0@ == a.kind->Visible_0@ + b.kind->Visible_0@,
    ensures
        key_atoms(m) == key_atoms(a) + key_atoms(b),
{
    let ta = a.kind->Visible_0@;
    let tb = b.kind->Visible_0@;
    let tm = m.kind->Visible_0@;
    assert(tm.len() == ta.len() + tb.len());
    assert forall|i: int| 0 <= i < tm.len() implies key_atoms(m)[i] == (key_atoms(a)
        + key_atoms(b))[i] by {
        if i < ta.len() {
            assert(tm[i] == ta[i]);
        } else {
            assert(tm[i] == tb[i - ta.len()]);
        }
    }
    assert(key_atoms(m) =~= key_atoms(a) + key_atoms(b));
}

/// The atoms after a push are the atoms before with the new press's atoms
/// appended, whether or not the press was folded into the tail element.
pub proof fn lemma_pushed_atoms(before: Seq<Key>, k: Key, after: Seq<Key>)
    requires
        spec_pushed(before, k, after),
    ensures
        keys_atoms(after) == keys_atoms(before) + key_atoms(k),
{
    if before.len() > 0 && keys_mergeable(before.last(), k) {
        lemma_keys_atoms_drop_last(before);
        assert(after.drop_last() =~= before.drop_last());
        lemma_keys_atoms_drop_last(after);
        lemma_merge_atoms(before.last(), k, after.last());
        assert(keys_atoms(after) =~= keys_atoms(before) + key_atoms(k));
    } else {
        lemma_keys_atoms_push(before, k);
    }
}

/// Merge law: pushing two textual presses with equal modifier sets yields a
/// sequence of one element whose text is the concatenation of the two texts;
/// pushing them with differing modifier sets yields two elements.
pub proof fn lemma_merge_law(a: Key, b: Key, s1: Seq<Key>, s2: Seq<Key>)
    requires
        a.kind is Visible,
        b.kind is Visible,
        spec_pushed(Seq::empty(), a, s1),
        spec_pushed(s1, b, s2),
    ensures
        a.mods == b.mods ==> s2.len() == 1 && s2[0].kind->Visible_0@ == a.kind->Visible_0@
            + b.kind->Visible_0@,
        a.mods != b.mods ==> s2.len() == 2 && s2[0] == a && s2[1] == b,
{
    assert(s1 =~= seq![a]);
}

/// The keys *never* contain the same modifiers while being chained.
pub struct KeySequence {
    keys: KeyBuffer,
}

impl View for KeySequence {
    type V = Seq<Key>;

    closed spec fn view(&self) -> Seq<Key> {
        small_vec_keys(self.keys)
    }
}

impl KeySequence {
    /// The storing invariant: no two adjacent elements could be merged.
    pub open spec fn wf(self) -> bool {
        forall|i: int| 0 <= i && i + 1 < self@.len() ==> !keys_mergeable(#[trigger] self@[i], self@[i + 1])
    }

    /// The key presses denoted, one atom per press unit; grouping of text
    /// runs into elements does not show here.
    pub open spec fn atoms(self) -> Seq<KeyAtom> {
        keys_atoms(self@)
    }

    pub fn new() -> (r: KeySequence)
        ensures
            r@ == Seq::<Key>::empty(),
            r.wf(),
    {
        KeySequence { keys: sv_new() }
    }

    /// Create `self` with `cap` elements allocated in advance.
    pub fn with_capacity(cap: usize) -> (r: KeySequence)
        ensures
            r@ == Seq::<Key>::empty(),
            r.wf(),
    {
        KeySequence { keys: sv_with_capacity(cap) }
    }

    /// Allocate `n` elements in advance.
    pub fn reserve(&mut self, n: usize)
        ensures
            final(self)@ == old(self)@,
    {
        sv_reserve(&mut self.keys, n);
    }

    /// Shed excess capacity.
    pub fn shrink_to_fit(&mut self)
        ensures
            final(self)@ == old(self)@,
    {
        sv_shrink_to_fit(&mut self.keys);
    }

    /// Number of stored elements (merged text runs count once).
    pub fn len(&self) -> (r: usize)
        ensures
            r == self@.len(),
    {
        sv_len(&self.keys)
    }

    /// Forget all stored presses.
    pub fn clear(&mut self)
        ensures
            final(self)@ == Seq::<Key>::empty(),
            final(self).wf(),
    {
        sv_clear(&mut self.keys);
    }

    /// Add a new key or append to the current tail if they share modifiers
    /// and are both textual.
    pub fn push(&mut self, key: Key)
        requires
            old(self).wf(),
        ensures
            final(self).wf(),
            spec_pushed(old(self)@, key, final(self)@),
            final(self).atoms() == old(self).atoms() + key_atoms(key),
    {
        let n = sv_len(&self.keys);
        let mut merged_text: Option<String> = None;
        if n > 0 {
            let last = sv_get(&self.keys, n - 1);
            if last.mods == key.mods {
                if let (KeyKind::Visible(a), KeyKind::Visible(b)) = (&last.kind, &key.kind) {
                    let mut t = a.clone();
                    t.append(b.as_str());
                    merged_text = Some(t);
                }
            }
        }
        match merged_text {
            Some(t) => {
                let m = Key { mods: key.mods, kind: KeyKind::Visible(t) };
                sv_set(&mut self.keys, n - 1, m);
                proof {
                    lemma_pushed_atoms(old(self)@, key, self@);
                }
            },
            None => {
                sv_push(&mut self.keys, key);
                proof {
                    lemma_pushed_atoms(old(self)@, key, self@);
                }
            },
        }
    }

    /// Whether or not `self` contains the key sequence described in `other`:
    /// the two agree element by element up to the shorter length, so when
    /// `other` is no longer than `self`, this holds iff every element of
    /// `other` equals the one of `self` at the same index.
    pub fn contains(&self, other: &KeySequence) -> (r: bool)
        ensures
            r == spec_contains(self@, other@),
            other@.len() <= self@.len() ==> (r <==> (forall|i: int|
                0 <= i < other@.len() ==> self@[i].spec_same(other@[i]))),
    {
        let n = sv_len(&self.keys);
        let m = sv_len(&other.keys);
        let lim = if n < m {
            n
        } else {
            m
        };
        let mut i: usize = 0;
        while i < lim
            invariant
                i <= lim,
                n == self@.len(),
                m == other@.len(),
                lim == if n < m {
                    n
                } else {
                    m
                },
                forall|j: int| 0 <= j < i ==> self@[j].spec_same(other@[j]),
            decreases lim - i,
        {
            let a = sv_get(&self.keys, i);
            let b = sv_get(&other.keys, i);
            if !(*a == *b) {
                return false;
            }
            i += 1;
        }
        true
    }

    /// The denoted atoms, materialised in order.
    pub fn to_atoms(&self) -> (r: Vec<KeyAtom>)
        ensures
            r@ == self.atoms(),
    {
        let mut out: Vec<KeyAtom> = Vec::new();
        let n = sv_len(&self.keys);
        let mut i: usize = 0;
        while i < n
            invariant
                i <= n,
                n == self@.len(),
                out@ == keys_atoms(self@.take(i as int)),
            decreases n - i,
        {
            let k = sv_get(&self.keys, i);
            match &k.kind {
                KeyKind::Invisible(inv) => {
                    out.push(KeyAtom { mods: k.mods, sym: KeySym::Named(*inv) });
                },
                KeyKind::Visible(s) => {
                    let slen = s.as_str().unicode_len();
                    let mut j: usize = 0;
                    while j < slen
                        invariant
                            j <= slen,
                            n == self@.len(),
                            i < n,
                            self@[i as int].kind is Visible,
                            s@ == self@[i as int].kind->Visible_0@,
                            slen == s@.len(),
                            k.mods == self@[i as int].mods,
                            out@ == keys_atoms(self@.take(i as int)) + key_atoms(
                                self@[i as int],
                            ).take(j as int),
                        decreases slen - j,
                    {
                        out.push(KeyAtom { mods: k.mods, sym: KeySym::Ch(s.as_str().get_char(j) as u32) });
                        proof {
                            assert(key_atoms(self@[i as int]).len() == slen);
                            assert(key_atoms(self@[i as int])[j as int] == KeyAtom {
                                mods: self@[i as int].mods,
                                sym: KeySym::Ch(self@[i as int].kind->Visible_0@[j as int] as u32),
                            });
                            assert(key_atoms(self@[i as int]).take(j + 1) =~= key_atoms(
                                self@[i as int],
                            ).take(j as int).push(key_atoms(self@[i as int])[j as int]));
                        }
                        j += 1;
                    }
                    proof {
                        assert(key_atoms(self@[i as int]).take(slen as int) =~= key_atoms(
                            self@[i as int],
                        ));
                    }
                },
            }
            proof {
                assert(self@.take(i + 1) =~= self@.take(i as int).push(self@[i as int]));
                lemma_keys_atoms_push(self@.take(i as int), self@[i as int]);
                assert(keys_atoms(self@.take(i as int)) + key_atoms(self@[i as int]).take(
                    key_atoms(self@[i as int]).len() as int,
                ) =~= keys_atoms(self@.take(i + 1)));
            }
            i += 1;
        }
        proof {
            assert(self@.take(n as int) =~= self@);
        }
        out
    }

    /// How many key press units the sequence denotes.
    pub fn atom_len(&self) -> (r: usize)
        ensures
            r == self.atoms().len(),
    {
        let v = self.to_atoms();
        v.len()
    }

    /// Build a sequence by pushing the given presses in order.
    pub fn from_keys(keys: Vec<Key>) -> (r: KeySequence)
        ensures
            r.wf(),
            r.atoms() == keys_atoms(keys@),
    {
        let mut out = KeySequence::new();
        let mut i: usize = 0;
        while i < keys.len()
            invariant
                i <= keys@.len(),
                out.wf(),
                out.atoms() == keys_atoms(keys@.take(i as int)),
            decreases keys@.len() - i,
        {
            let k = (&keys[i]).clone();
            proof {
                assert(k.spec_same(keys@[i as int]));
                assert(key_atoms(k) =~= key_atoms(keys@[i as int]));
                assert(keys_mergeable(out@.last(), k) == keys_mergeable(out@.last(), keys@[i as int]));
            }
            out.push(k);
            proof {
                assert(keys@.take(i + 1) =~= keys@.take(i as int).push(keys@[i as int]));
                lemma_keys_atoms_push(keys@.take(i as int), keys@[i as int]);
            }
            i += 1;
        }
        proof {
            assert(keys@.take(keys@.len() as int) =~= keys@);
        }
        out
    }
}

impl PartialEq for KeySequence {
    fn eq(&self, other: &KeySequence) -> (r: bool) {
        let n = sv_len(&self.keys);
        let m = sv_len(&other.keys);
        if n != m {
            return false;
        }
        let mut i: usize = 0;
        while i < n
            invariant
                i <= n,
                n == self@.len(),
                n == other@.len(),
                forall|j: int| 0 <= j < i ==> self@[j].spec_same(other@[j]),
            decreases n - i,
        {
            let a = sv_get(&self.keys, i);
            let b = sv_get(&other.keys, i);
            if !(*a == *b) {
                return false;
            }
            i += 1;
        }
        true
    }
}

impl vstd::std_specs::cmp::PartialEqSpecImpl for KeySequence {
    open spec fn obeys_eq_spec() -> bool {
        true
    }

    open spec fn eq_spec(&self, other: &KeySequence) -> bool {
        self@.len() == other@.len() && (forall|i: int|
            0 <= i < self@.len() ==> self@[i].spec_same(other@[i]))
    }
}

// ------------------------------------------------------------------
// The textual grammar: specification-level parser and printer.
//
// A key is written as zero or more modifier marks (`M-`, `C-`, `S-`,
// `L-`), then either a bracketed named key (`<F-10>`, `<PG-UP>`,
// `<PG-DN>`) or a run of literal characters in which a backslash
// escapes the next character (`n`, `r`, `t` give the control
// characters; anything else gives itself).  A run of literal
// characters ends before an unescaped modifier letter or `<`.
// ------------------------------------------------------------------

/// Characters that end a run of literal text unless escaped: the
/// modifier letters and the named-key opening bracket.
pub open spec fn is_special(c: char) -> bool {
    c == 'M' || c == 'C' || c == 'S' || c == 'L' || c == '<'
}

/// What an escaped character stands for.
pub open spec fn unescape(c: char) -> char {
    if c == 'n' {
        '\n'
    } else if c == 'r' {
        '\r'
    } else if c == 't' {
        '\t'
    } else {
        c
    }
}

/// The payload a successful parse found, at specification level.
pub ghost enum KindRep {
    Inv(InvisibleKey),
    Vis(Seq<char>),
}

/// A parse failure, at specification level: an escape with nothing to
/// escape (the run being read and the index of the backslash), an
/// unknown bracketed name, or a bracket never closed.
pub ghost enum ParseFault {
    UnusedEscape(Seq<char>, int),
    UnknownKey(Seq<char>),
    UnclosedKey(Seq<char>),
}

/// One modifier mark at the head of the input, if any.
pub open spec fn spec_parse_modifier(s: Seq<char>) -> Option<KeyModifier> {
    if s.len() >= 2 && s[1] == '-' {
        if s[0] == 'M' {
            Some(KeyModifier::Alt)
        } else if s[0] == 'C' {
            Some(KeyModifier::Control)
        } else if s[0] == 'S' {
            Some(KeyModifier::Shift)
        } else if s[0] == 'L' {
            Some(KeyModifier::Super)
        } else {
            None
        }
    } else {
        None
    }
}

/// All modifier marks at the head of the input: the set they name and
/// how many characters they take.
pub open spec fn spec_parse_mods(s: Seq<char>) -> (KeyModifiers, int)
    decreases s.len(),
{
    match spec_parse_modifier(s) {
        Some(m) => {
            let rest = spec_parse_mods(s.skip(2));
            (rest.0.spec_insert(m), 2 + rest.1)
        },
        None => (KeyModifiers::spec_empty(), 0),
    }
}

/// The least index of `>` in the input, if any.
pub open spec fn find_gt(s: Seq<char>) -> Option<int>
    decreases s.len(),
{
    if s.len() == 0 {
        None
    } else if s[0] == '>' {
        Some(0)
    } else {
        match find_gt(s.drop_first()) {
            Some(i) => Some(i + 1),
            None => None,
        }
    }
}

/// Where [find_gt] points: the first `>` of the input.
pub proof fn lemma_find_gt(s: Seq<char>)
    ensures
        match find_gt(s) {
            Some(i) => 0 <= i < s.len() && s[i] == '>' && (forall|j: int|
                0 <= j < i ==> s[j] != '>'),
            None => forall|j: int| 0 <= j < s.len() ==> s[j] != '>',
        },
    decreases s.len(),
{
    if s.len() > 0 && s[0] != '>' {
        lemma_find_gt(s.drop_first());
        assert forall|j: int| 1 <= j < s.len() && s.drop_first()[j - 1] != '>' implies s[j] != '>' by {
            assert(s.drop_first()[j - 1] == s[j]);
        }
        match find_gt(s.drop_first()) {
            Some(i) => {
                assert(s[i + 1] == s.drop_first()[i]);
                assert forall|j: int| 0 <= j < i + 1 implies s[j] != '>' by {
                    if j >= 1 {
                        assert(s.drop_first()[j - 1] != '>');
                    }
                }
            },
            None => {
                assert forall|j: int| 0 <= j < s.len() implies s[j] != '>' by {
                    if j >= 1 {
                        assert(s.drop_first()[j - 1] != '>');
                    }
                }
            },
        }
    }
}

/// Whether `c` is a decimal digit.
pub open spec fn is_dec_digit(c: char) -> bool {
    '0' <= c && c <= '9'
}

/// The value of a decimal digit.
pub open spec fn dec_digit_val(c: char) -> nat {
    ((c as int) - ('0' as int)) as nat
}

/// Fold the digits of a function-key number onto `acc`, failing on a
/// non-digit or when the value outgrows a byte.
pub open spec fn spec_fkey_digits(s: Seq<char>, acc: nat) -> Option<nat>
    decreases s.len(),
{
    if s.len() == 0 {
        Some(acc)
    } else if is_dec_digit(s[0]) {
        let v = acc * 10 + dec_digit_val(s[0]);
        if v > 255 {
            None
        } else {
            spec_fkey_digits(s.drop_first(), v)
        }
    } else {
        None
    }
}

/// The spelled-out name of a page-up key.
pub open spec fn pg_up_name() -> Seq<char> {
    seq!['P', 'G', '-', 'U', 'P']
}

/// The spelled-out name of a page-down key.
pub open spec fn pg_dn_name() -> Seq<char> {
    seq!['P', 'G', '-', 'D', 'N']
}

/// What a bracketed name between `<` and `>` means.
pub open spec fn spec_named_key(content: Seq<char>) -> Option<InvisibleKey> {
    if content == pg_up_name() {
        Some(InvisibleKey::PageUp)
    } else if content == pg_dn_name() {
        Some(InvisibleKey::PageDown)
    } else if content.len() >= 2 && content[0] == 'F' && content[1] == '-' {
        match spec_fkey_digits(content.skip(2), 0) {
            Some(v) => Some(InvisibleKey::F(v as u8)),
            None => None,
        }
    } else {
        None
    }
}

/// A bracketed named key at the head of the input: `None` when the
/// input does not open a bracket; otherwise the key and the count of
/// characters taken, bracket included, or the fault.
pub open spec fn spec_parse_invisible(s: Seq<char>) -> Option<Result<(InvisibleKey, int), ParseFault>> {
    if s.len() == 0 || s[0] != '<' {
        None
    } else {
        match find_gt(s) {
            None => Some(Err(ParseFault::UnclosedKey(s))),
            Some(end) => {
                let content = s.subrange(1, end);
                match spec_named_key(content) {
                    Some(k) => Some(Ok((k, end + 1))),
                    None => Some(Err(ParseFault::UnknownKey(content))),
                }
            },
        }
    }
}

/// A run of literal text at the head of the input: the unescaped text
/// and the count of characters taken, or the index of a trailing
/// backslash.  The run ends before an unescaped special character.
pub open spec fn spec_parse_visible(s: Seq<char>) -> Result<(Seq<char>, int), int>
    decreases s.len(),
{
    if s.len() == 0 || is_special(s[0]) {
        Ok((Seq::empty(), 0))
    } else if s[0] == '\\' {
        if s.len() == 1 {
            Err(0)
        } else {
            match spec_parse_visible(s.skip(2)) {
                Ok(p) => Ok((seq![unescape(s[1])] + p.0, 2 + p.1)),
                Err(e) => Err(e + 2),
            }
        }
    } else {
        match spec_parse_visible(s.skip(1)) {
            Ok(p) => Ok((seq![s[0]] + p.0, 1 + p.1)),
            Err(e) => Err(e + 1),
        }
    }
}

/// A key payload at the head of the input: a bracketed named key when
/// the input opens a bracket, else a non-empty run of literal text;
/// `None` on empty input or an empty run.
pub open spec fn spec_parse_kind(s: Seq<char>) -> Option<Result<(KindRep, int), ParseFault>> {
    if s.len() == 0 {
        None
    } else if s[0] == '<' {
        match spec_parse_invisible(s) {
            None => None,
            Some(Ok(p)) => Some(Ok((KindRep::Inv(p.0), p.1))),
            Some(Err(f)) => Some(Err(f)),
        }
    } else {
        match spec_parse_visible(s) {
            Err(e) => Some(Err(ParseFault::UnusedEscape(s, e))),
            Ok(p) => if p.0.len() == 0 {
                None
            } else {
                Some(Ok((KindRep::Vis(p.0), p.1)))
            },
        }
    }
}

/// One whole key at the head of the input: its modifier marks, then
/// its payload.  Marks without a payload leave the input unread.
pub open spec fn spec_parse_key(s: Seq<char>) -> Option<Result<((KeyModifiers, KindRep), int), ParseFault>> {
    let mods = spec_parse_mods(s);
    match spec_parse_kind(s.skip(mods.1)) {
        None => None,
        Some(Err(f)) => Some(Err(f)),
        Some(Ok(p)) => Some(Ok(((mods.0, p.0), mods.1 + p.1))),
    }
}

/// The atoms one parsed key denotes.
pub open spec fn rep_atoms(k: (KeyModifiers, KindRep)) -> Seq<KeyAtom> {
    match k.1 {
        KindRep::Inv(i) => seq![KeyAtom { mods: k.0, sym: KeySym::Named(i) }],
        KindRep::Vis(t) => Seq::new(t.len(), |i: int| KeyAtom { mods: k.0, sym: KeySym::Ch(t[i] as u32) }),
    }
}

/// The atoms a run of parsed keys denotes.
pub open spec fn reps_atoms(ks: Seq<(KeyModifiers, KindRep)>) -> Seq<KeyAtom>
    decreases ks.len(),
{
    if ks.len() == 0 {
        Seq::empty()
    } else {
        rep_atoms(ks[0]) + reps_atoms(ks.drop_first())
    }
}

/// As many whole keys as the input yields: the parsed keys and the
/// count of characters taken; an unreadable tail is left, a fault ends
/// the parse.
pub open spec fn spec_parse_seq(s: Seq<char>) -> Result<(Seq<(KeyModifiers, KindRep)>, int), ParseFault>
    decreases s.len(),
{
    match spec_parse_key(s) {
        None => Ok((Seq::empty(), 0)),
        Some(Err(f)) => Err(f),
        Some(Ok(p)) => if 0 < p.1 <= s.len() {
            match spec_parse_seq(s.skip(p.1)) {
                Ok(q) => Ok((seq![p.0] + q.0, p.1 + q.1)),
                Err(f) => Err(f),
            }
        } else {
            Ok((seq![p.0], p.1))
        },
    }
}

// ------------------------------------------------------------------
// The printer, at specification level.
// ------------------------------------------------------------------

/// The modifier marks of a set, always in the order `M-`, `C-`, `S-`,
/// `L-`.
pub open spec fn spec_mods_text(m: KeyModifiers) -> Seq<char> {
    (if m.alt {
        seq!['M', '-']
    } else {
        Seq::<char>::empty()
    }) + (if m.control {
        seq!['C', '-']
    } else {
        Seq::<char>::empty()
    }) + (if m.shift {
        seq!['S', '-']
    } else {
        Seq::<char>::empty()
    }) + (if m.logo {
        seq!['L', '-']
    } else {
        Seq::<char>::empty()
    })
}

/// How one literal character is written: special characters and the
/// backslash get a backslash in front.
pub open spec fn spec_escape_char(c: char) -> Seq<char> {
    if is_special(c) || c == '\\' {
        seq!['\\', c]
    } else {
        seq![c]
    }
}

/// How a run of literal text is written: each character escaped, with
/// the modifier marks repeated in front of it.
pub open spec fn spec_visible_text(m: KeyModifiers, t: Seq<char>) -> Seq<char>
    decreases t.len(),
{
    if t.len() == 0 {
        Seq::empty()
    } else {
        spec_mods_text(m) + spec_escape_char(t[0]) + spec_visible_text(m, t.drop_first())
    }
}

/// The character of one decimal digit.
pub open spec fn digit_char(d: nat) -> char {
    if d == 0 {
        '0'
    } else if d == 1 {
        '1'
    } else if d == 2 {
        '2'
    } else if d == 3 {
        '3'
    } else if d == 4 {
        '4'
    } else if d == 5 {
        '5'
    } else if d == 6 {
        '6'
    } else if d == 7 {
        '7'
    } else if d == 8 {
        '8'
    } else {
        '9'
    }
}

/// The decimal digits of `n`, most significant first.
pub open spec fn spec_dec_digits(n: nat) -> Seq<char>
    decreases n,
{
    if n < 10 {
        seq![digit_char(n)]
    } else {
        spec_dec_digits(n / 10) + seq![digit_char(n % 10)]
    }
}

/// How a named key is written, brackets included.
pub open spec fn spec_inv_text(k: InvisibleKey) -> Seq<char> {
    seq!['<'] + (match k {
        InvisibleKey::F(n) => seq!['F', '-'] + spec_dec_digits(n as nat),
        InvisibleKey::PageUp => pg_up_name(),
        InvisibleKey::PageDown => pg_dn_name(),
    }) + seq!['>']
}

/// How one key press is written.
pub open spec fn spec_key_text(k: Key) -> Seq<char> {
    match k.kind {
        KeyKind::Invisible(i) => spec_mods_text(k.mods) + spec_inv_text(i),
        KeyKind::Visible(t) => spec_visible_text(k.mods, t@),
    }
}

/// How a run of key presses is written.
pub open spec fn spec_seq_text(keys: Seq<Key>) -> Seq<char>
    decreases keys.len(),
{
    if keys.len() == 0 {
        Seq::empty()
    } else {
        spec_key_text(keys[0]) + spec_seq_text(keys.drop_first())
    }
}

/// A type that can be read from the head of a string, returning what
/// remains: `None` when the input holds no such item, the item and the
/// rest on success, a [ParserError] on malformed input.
pub trait Parser: Sized {
    fn parse(input: &str) -> Option<Result<(Self, &str), ParserError>>;
}

/// Malformed key-sequence text.
#[derive(Debug)]
pub enum ParserError {
    /// A backslash with nothing after it: the run being read and the
    /// character index of the backslash in it.
    UnusedEscape { src: String, index: usize },
    /// A bracketed name that no key bears.
    UnknownSpecialKey(String),
    /// A bracket that never closes.
    UnclosedSpecialKey(String),
}

/// What a [ParserError] says, at specification level.
pub open spec fn err_rep(e: ParserError) -> ParseFault {
    match e {
        ParserError::UnusedEscape { src, index } => ParseFault::UnusedEscape(src@, index as int),
        ParserError::UnknownSpecialKey(s) => ParseFault::UnknownKey(s@),
        ParserError::UnclosedSpecialKey(s) => ParseFault::UnclosedKey(s@),
    }
}

/// Whether the payload is the one the parse found.
pub open spec fn kind_matches(k: KeyKind, rep: KindRep) -> bool {
    match (k, rep) {
        (KeyKind::Invisible(a), KindRep::Inv(b)) => a == b,
        (KeyKind::Visible(s), KindRep::Vis(t)) => s@ == t,
        _ => false,
    }
}

/// Exec mirror of [is_special].
fn is_special_char(c: char) -> (r: bool)
    ensures
        r == is_special(c),
{
    c == 'M' || c == 'C' || c == 'S' || c == 'L' || c == '<'
}

/// Exec mirror of [unescape].
fn unescape_char(c: char) -> (r: char)
    ensures
        r == unescape(c),
{
    if c == 'n' {
        '\n'
    } else if c == 'r' {
        '\r'
    } else if c == 't' {
        '\t'
    } else {
        c
    }
}

/// Relies on String's FromIterator impl: collects the characters in
/// order into an owned string.
#[verifier::external_body]
pub(crate) fn chars_string(v: &Vec<char>) -> (r: String)
    ensures
        r@ == v@,
{
    v.iter().copied().collect()
}

/// Union of two modifier sets.
pub open spec fn mods_union(a: KeyModifiers, b: KeyModifiers) -> KeyModifiers {
    KeyModifiers {
        alt: a.alt || b.alt,
        control: a.control || b.control,
        shift: a.shift || b.shift,
        logo: a.logo || b.logo,
    }
}

impl Parser for KeyModifier {
    fn parse(input: &str) -> (r: Option<Result<(KeyModifier, &str), ParserError>>)
        ensures
            spec_parse_modifier(input@) is None ==> r is None,
            spec_parse_modifier(input@) matches Some(m) ==> (r matches Some(res) && res matches Ok(
                p,
            ) && p.0 == m && p.1@ == input@.skip(2)),
    {
        let n = input.unicode_len();
        if n >= 2 && input.get_char(1) == '-' {
            let c = input.get_char(0);
            let m = if c == 'M' {
                Some(KeyModifier::Alt)
            } else if c == 'C' {
                Some(KeyModifier::Control)
            } else if c == 'S' {
                Some(KeyModifier::Shift)
            } else if c == 'L' {
                Some(KeyModifier::Super)
            } else {
                None
            };
            match m {
                Some(m) => {
                    let rest = input.substring_char(2, n);
                    proof {
                        assert(rest@ =~= input@.skip(2));
                    }
                    Some(Ok((m, rest)))
                },
                None => None,
            }
        } else {
            None
        }
    }
}

impl Parser for KeyModifiers {
    fn parse(input: &str) -> (r: Option<Result<(KeyModifiers, &str), ParserError>>)
        ensures
            spec_parse_mods(input@).1 == 0 ==> r is None,
            spec_parse_mods(input@).1 > 0 ==> (r matches Some(res) && res matches Ok(p) && p.0
                == spec_parse_mods(input@).0 && p.1@ == input@.skip(spec_parse_mods(input@).1)),
    {
        let n = input.unicode_len();
        let mut mods = KeyModifiers::default();
        let mut idx: usize = 0;
        proof {
            assert(input@.skip(0) =~= input@);
        }
        while idx < n && idx + 1 < n && input.get_char(idx + 1) == '-' && (input.get_char(idx) == 'M'
            || input.get_char(idx) == 'C' || input.get_char(idx) == 'S' || input.get_char(idx)
            == 'L')
            invariant
                n == input@.len(),
                idx <= n,
                spec_parse_mods(input@).0 == mods_union(mods, spec_parse_mods(input@.skip(idx as int)).0),
                spec_parse_mods(input@).1 == idx + spec_parse_mods(input@.skip(idx as int)).1,
            decreases n - idx,
        {
            let c = input.get_char(idx);
            let ghost tail = input@.skip(idx as int);
            proof {
                assert(tail[0] == input@[idx as int]);
                assert(tail[1] == input@[idx as int + 1]);
                assert(tail.skip(2) =~= input@.skip(idx as int + 2));
            }
            if c == 'M' {
                mods.push(KeyModifier::Alt);
            } else if c == 'C' {
                mods.push(KeyModifier::Control);
            } else if c == 'S' {
                mods.push(KeyModifier::Shift);
            } else {
                mods.push(KeyModifier::Super);
            }
            idx += 2;
        }
        proof {
            let tail = input@.skip(idx as int);
            if idx < n {
                assert(tail[0] == input@[idx as int]);
            }
            if idx + 1 < n {
                assert(tail[1] == input@[idx as int + 1]);
            }
            assert(spec_parse_modifier(tail) is None);
            assert(spec_parse_mods(input@).1 == idx);
        }
        if idx == 0 {
            None
        } else {
            let rest = input.substring_char(idx, n);
            proof {
                assert(rest@ =~= input@.skip(idx as int));
            }
            Some(Ok((mods, rest)))
        }
    }
}

/// A first `>` at `i` pins [find_gt] down.
proof fn lemma_find_gt_at(s: Seq<char>, i: int)
    requires
        0 <= i < s.len(),
        s[i] == '>',
        forall|j: int| 0 <= j < i ==> s[j] != '>',
    ensures
        find_gt(s) == Some(i),
{
    lemma_find_gt(s);
    match find_gt(s) {
        Some(k) => {
            if k < i {
                assert(s[k] == '>');
            } else if k > i {
                assert(s[i] != '>');
            }
        },
        None => {
            assert(s[i] != '>');
        },
    }
}

impl Parser for InvisibleKey {
    fn parse(input: &str) -> (r: Option<Result<(InvisibleKey, &str), ParserError>>)
        ensures
            spec_parse_invisible(input@) is None ==> r is None,
            spec_parse_invisible(input@) matches Some(Ok(p)) ==> (r matches Some(res)
                && res matches Ok(q) && q.0 == p.0 && q.1@ == input@.skip(p.1)),
            spec_parse_invisible(input@) matches Some(Err(f)) ==> (r matches Some(res)
                && res matches Err(e) && err_rep(e) == f),
    {
        let n = input.unicode_len();
        if n == 0 || input.get_char(0) != '<' {
            return None;
        }
        let mut i: usize = 0;
        while i < n && input.get_char(i) != '>'
            invariant
                n == input@.len(),
                i <= n,
                forall|j: int| 0 <= j < i ==> input@[j] != '>',
            decreases n - i,
        {
            i += 1;
        }
        if i == n {
            proof {
                lemma_find_gt(input@);
                if find_gt(input@) is Some {
                    let k = find_gt(input@)->Some_0;
                    assert(input@[k] != '>');
                }
            }
            let src = String::from_str(input);
            return Some(Err(ParserError::UnclosedSpecialKey(src)));
        }
        proof {
            lemma_find_gt_at(input@, i as int);
        }
        let ghost content = input@.subrange(1, i as int);
        let rest = input.substring_char(i + 1, n);
        proof {
            assert(rest@ =~= input@.skip(i + 1));
        }
        // "PG-UP" / "PG-DN"
        if i == 6 && input.get_char(1) == 'P' && input.get_char(2) == 'G' && input.get_char(3)
            == '-' {
            if input.get_char(4) == 'U' && input.get_char(5) == 'P' {
                proof {
                    assert(content =~= pg_up_name());
                }
                return Some(Ok((InvisibleKey::PageUp, rest)));
            }
            if input.get_char(4) == 'D' && input.get_char(5) == 'N' {
                proof {
                    assert(content =~= pg_dn_name());
                }
                return Some(Ok((InvisibleKey::PageDown, rest)));
            }
        }
        proof {
            if content.len() == 5 {
                if content == pg_up_name() {
                    assert(input@[1] == 'P' && input@[2] == 'G' && input@[3] == '-' && input@[4]
                        == 'U' && input@[5] == 'P');
                }
                if content == pg_dn_name() {
                    assert(input@[1] == 'P' && input@[2] == 'G' && input@[3] == '-' && input@[4]
                        == 'D' && input@[5] == 'N');
                }
            }
        }
        // "F-<digits>"
        if i >= 3 && input.get_char(1) == 'F' && input.get_char(2) == '-' {
            let mut v: u32 = 0;
            let mut j: usize = 3;
            proof {
                assert(content.skip(2) =~= input@.subrange(3, i as int));
                assert(input@.subrange(3, i as int).skip(0) =~= input@.subrange(3, i as int));
                assert(content[0] == 'F');
                assert(pg_up_name()[0] == 'P');
                assert(pg_dn_name()[0] == 'P');
                assert(content != pg_up_name());
                assert(content != pg_dn_name());
            }
            while j < i
                invariant
                    n == input@.len(),
                    3 <= j <= i < n,
                    input@[0] == '<',
                    find_gt(input@) == Some(i as int),
                    content == input@.subrange(1, i as int),
                    content != pg_up_name(),
                    content != pg_dn_name(),
                    content.len() >= 2 && content[0] == 'F' && content[1] == '-',
                    v <= 255,
                    spec_fkey_digits(content.skip(2), 0) == spec_fkey_digits(
                        input@.subrange(3, i as int).skip(j - 3),
                        v as nat,
                    ),
                decreases i - j,
            {
                let c = input.get_char(j);
                let ghost digits = input@.subrange(3, i as int).skip(j - 3);
                proof {
                    assert(digits[0] == input@[j as int]);
                    assert(digits.drop_first() =~= input@.subrange(3, i as int).skip(j + 1 - 3));
                }
                if !(c >= '0' && c <= '9') {
                    let src = string_from_chars_of(input, 1, i);
                    return Some(Err(ParserError::UnknownSpecialKey(src)));
                }
                let d = (c as u32) - ('0' as u32);
                let w = v * 10 + d;
                if w > 255 {
                    let src = string_from_chars_of(input, 1, i);
                    return Some(Err(ParserError::UnknownSpecialKey(src)));
                }
                v = w;
                j += 1;
            }
            proof {
                assert(input@.subrange(3, i as int).skip(i - 3) =~= Seq::<char>::empty());
                assert(spec_fkey_digits(content.skip(2), 0) == Some(v as nat));
            }
            return Some(Ok((InvisibleKey::F(v as u8), rest)));
        }
        proof {
            if content.len() >= 2 && content[0] == 'F' && content[1] == '-' {
                assert(input@[1] == 'F' && input@[2] == '-');
            }
        }
        let src = string_from_chars_of(input, 1, i);
        Some(Err(ParserError::UnknownSpecialKey(src)))
    }
}

/// The characters of `input` between the indices, as an owned string.
fn string_from_chars_of(input: &str, from: usize, to: usize) -> (r: String)
    requires
        from <= to <= input@.len(),
    ensures
        r@ == input@.subrange(from as int, to as int),
{
    let s = input.substring_char(from, to);
    String::from_str(s)
}

/// Modifier marks never outrun the input.
pub proof fn lemma_spec_parse_mods_bounds(s: Seq<char>)
    ensures
        0 <= spec_parse_mods(s).1 <= s.len(),
    decreases s.len(),
{
    if spec_parse_modifier(s) is Some {
        lemma_spec_parse_mods_bounds(s.skip(2));
    }
}

/// A literal run never outruns the input, writes one character per
/// consumed step at least, and is empty exactly when nothing was
/// consumed.
pub proof fn lemma_spec_parse_visible_bounds(s: Seq<char>)
    ensures
        spec_parse_visible(s) matches Ok(p) ==> 0 <= p.1 <= s.len() && p.0.len() <= p.1 && (
        p.0.len() == 0 <==> p.1 == 0),
    decreases s.len(),
{
    if s.len() == 0 || is_special(s[0]) {
    } else if s[0] == '\\' {
        if s.len() > 1 {
            lemma_spec_parse_visible_bounds(s.skip(2));
        }
    } else {
        lemma_spec_parse_visible_bounds(s.skip(1));
    }
}

/// A successful payload parse takes at least one character and never
/// outruns the input.
pub proof fn lemma_spec_parse_kind_bounds(s: Seq<char>)
    ensures
        spec_parse_kind(s) matches Some(Ok(p)) ==> 0 < p.1 <= s.len(),
{
    if s.len() > 0 && s[0] == '<' {
        lemma_find_gt(s);
    } else if s.len() > 0 {
        lemma_spec_parse_visible_bounds(s);
    }
}

/// A successful key parse takes at least one character and never
/// outruns the input.
pub proof fn lemma_spec_parse_key_bounds(s: Seq<char>)
    ensures
        spec_parse_key(s) matches Some(Ok(p)) ==> 0 < p.1 <= s.len(),
{
    lemma_spec_parse_mods_bounds(s);
    lemma_spec_parse_kind_bounds(s.skip(spec_parse_mods(s).1));
}

/// Appending one parsed key appends its atoms.
pub proof fn lemma_reps_atoms_push(ks: Seq<(KeyModifiers, KindRep)>, k: (KeyModifiers, KindRep))
    ensures
        reps_atoms(ks.push(k)) == reps_atoms(ks) + rep_atoms(k),
    decreases ks.len(),
{
    if ks.len() == 0 {
        assert(ks.push(k).drop_first() =~= Seq::<(KeyModifiers, KindRep)>::empty());
        assert(ks.push(k)[0] == k);
        assert(reps_atoms(ks.push(k)) == rep_atoms(k) + reps_atoms(
            Seq::<(KeyModifiers, KindRep)>::empty(),
        ));
        assert(reps_atoms(ks.push(k)) =~= reps_atoms(ks) + rep_atoms(k));
    } else {
        assert(ks.push(k).drop_first() =~= ks.drop_first().push(k));
        assert(ks.push(k)[0] == ks[0]);
        lemma_reps_atoms_push(ks.drop_first(), k);
        assert(reps_atoms(ks.push(k)) == rep_atoms(ks[0]) + (reps_atoms(ks.drop_first())
            + rep_atoms(k)));
        assert(reps_atoms(ks.push(k)) =~= reps_atoms(ks) + rep_atoms(k));
    }
}

/// A press and the parse it came from denote the same atoms.
pub proof fn lemma_key_rep_atoms(k: Key, rep: (KeyModifiers, KindRep))
    requires
        k.mods == rep.0,
        kind_matches(k.kind, rep.1),
    ensures
        key_atoms(k) == rep_atoms(rep),
{
    match rep.1 {
        KindRep::Inv(_) => {
            assert(key_atoms(k) =~= rep_atoms(rep));
        },
        KindRep::Vis(t) => {
            assert(key_atoms(k).len() == rep_atoms(rep).len());
            assert forall|i: int| 0 <= i < t.len() implies key_atoms(k)[i] == rep_atoms(rep)[i] by {
                assert(k.kind->Visible_0@[i] == t[i]);
            }
            assert(key_atoms(k) =~= rep_atoms(rep));
        },
    }
}

impl Parser for KeyKind {
    fn parse(input: &str) -> (r: Option<Result<(KeyKind, &str), ParserError>>)
        ensures
            spec_parse_kind(input@) is None ==> r is None,
            spec_parse_kind(input@) matches Some(Ok(p)) ==> (r matches Some(res) && res matches Ok(
                q,
            ) && kind_matches(q.0, p.0) && q.1@ == input@.skip(p.1)),
            spec_parse_kind(input@) matches Some(Err(f)) ==> (r matches Some(res)
                && res matches Err(e) && err_rep(e) == f),
    {
        let n = input.unicode_len();
        if n == 0 {
            return None;
        }
        if input.get_char(0) == '<' {
            match <InvisibleKey as Parser>::parse(input) {
                None => None,
                Some(Ok((k, rest))) => Some(Ok((KeyKind::Invisible(k), rest))),
                Some(Err(e)) => Some(Err(e)),
            }
        } else {
            let mut text: Vec<char> = Vec::new();
            let mut i: usize = 0;
            proof {
                assert(input@.skip(0) =~= input@);
            }
            while i < n && !is_special_char(input.get_char(i))
                invariant
                    n == input@.len(),
                    i <= n,
                    n > 0,
                    input@[0] != '<',
                    match spec_parse_visible(input@.skip(i as int)) {
                        Ok(p) => spec_parse_visible(input@) == Ok::<(Seq<char>, int), int>(
                            (text@ + p.0, i + p.1),
                        ),
                        Err(e) => spec_parse_visible(input@) == Err::<(Seq<char>, int), int>(e + i),
                    },
                decreases n - i,
            {
                let c = input.get_char(i);
                let ghost tail = input@.skip(i as int);
                let ghost old_text = text@;
                proof {
                    assert(tail[0] == input@[i as int]);
                }
                if c == '\\' {
                    if i + 1 == n {
                        proof {
                            assert(tail.len() == 1);
                            assert(spec_parse_visible(tail) == Err::<(Seq<char>, int), int>(0));
                        }
                        let src = String::from_str(input);
                        return Some(Err(ParserError::UnusedEscape { src, index: i }));
                    }
                    proof {
                        assert(tail[1] == input@[i as int + 1]);
                        assert(tail.skip(2) =~= input@.skip(i as int + 2));
                    }
                    let e = input.get_char(i + 1);
                    text.push(unescape_char(e));
                    i += 2;
                    proof {
                        match spec_parse_visible(input@.skip(i as int)) {
                            Ok(p) => {
                                assert(spec_parse_visible(tail) == Ok::<(Seq<char>, int), int>(
                                    (seq![unescape(tail[1])] + p.0, 2 + p.1),
                                ));
                                assert(old_text + (seq![unescape(tail[1])] + p.0) =~= text@ + p.0);
                            },
                            Err(e2) => {
                                assert(spec_parse_visible(tail) == Err::<(Seq<char>, int), int>(
                                    e2 + 2,
                                ));
                            },
                        }
                    }
                } else {
                    text.push(c);
                    i += 1;
                    proof {
                        assert(tail.skip(1) =~= input@.skip(i as int));
                        match spec_parse_visible(input@.skip(i as int)) {
                            Ok(p) => {
                                assert(spec_parse_visible(tail) == Ok::<(Seq<char>, int), int>(
                                    (seq![tail[0]] + p.0, 1 + p.1),
                                ));
                                assert(old_text + (seq![tail[0]] + p.0) =~= text@ + p.0);
                            },
                            Err(e2) => {
                                assert(spec_parse_visible(tail) == Err::<(Seq<char>, int), int>(
                                    e2 + 1,
                                ));
                            },
                        }
                    }
                }
            }
            proof {
                let tail = input@.skip(i as int);
                if i < n {
                    assert(tail[0] == input@[i as int]);
                }
                assert(spec_parse_visible(tail) == Ok::<(Seq<char>, int), int>(
                    (Seq::<char>::empty(), 0),
                ));
                assert(text@ + Seq::<char>::empty() =~= text@);
                assert(spec_parse_visible(input@) == Ok::<(Seq<char>, int), int>((text@, i as int)));
            }
            if text.len() == 0 {
                return None;
            }
            let s = chars_string(&text);
            let rest = input.substring_char(i, n);
            proof {
                assert(rest@ =~= input@.skip(i as int));
            }
            Some(Ok((KeyKind::Visible(s), rest)))
        }
    }
}

impl Parser for Key {
    fn parse(input: &str) -> (r: Option<Result<(Key, &str), ParserError>>)
        ensures
            spec_parse_key(input@) is None ==> r is None,
            spec_parse_key(input@) matches Some(Ok(p)) ==> (r matches Some(res) && res matches Ok(
                q,
            ) && q.0.mods == p.0.0 && kind_matches(q.0.kind, p.0.1) && q.1@ == input@.skip(p.1)),
            spec_parse_key(input@) matches Some(Err(f)) ==> (r matches Some(res)
                && res matches Err(e) && err_rep(e) == f),
    {
        let ghost mlen = spec_parse_mods(input@).1;
        proof {
            lemma_spec_parse_mods_bounds(input@);
            lemma_spec_parse_mods_bounds(input@.skip(2));
        }
        let (modifiers, rest) = match <KeyModifiers as Parser>::parse(input) {
            Some(Ok(p)) => p,
            Some(Err(_)) => {
                proof {
                    assert(false);
                }
                (KeyModifiers::default(), input)
            },
            None => {
                proof {
                    assert(input@.skip(0) =~= input@);
                }
                (KeyModifiers::default(), input)
            },
        };
        match <KeyKind as Parser>::parse(rest) {
            None => None,
            Some(Ok((kind, rest2))) => {
                proof {
                    let klen = spec_parse_kind(rest@)->Some_0->Ok_0.1;
                    lemma_spec_parse_kind_bounds(rest@);
                    assert(0 <= mlen <= input@.len());
                    assert(rest@ == input@.skip(mlen));
                    assert(rest@.skip(klen) =~= input@.skip(mlen + klen));
                }
                Some(Ok((Key { mods: modifiers, kind }, rest2)))
            },
            Some(Err(e)) => Some(Err(e)),
        }
    }
}

impl Parser for KeySequence {
    fn parse(input: &str) -> (r: Option<Result<(KeySequence, &str), ParserError>>)
        ensures
            spec_parse_seq(input@) matches Ok(p) ==> ((p.0.len() == 0 ==> r is None) && (
            p.0.len() > 0 ==> (r matches Some(res) && res matches Ok(q) && q.0.wf()
                && q.0.atoms() == reps_atoms(p.0) && q.1@ == input@.skip(p.1)))),
            spec_parse_seq(input@) matches Err(f) ==> (r matches Some(res) && res matches Err(e)
                && err_rep(e) == f),
    {
        let mut some = false;
        let mut key_seq = KeySequence::new();
        let mut rem: &str = input;
        let ghost mut done: Seq<(KeyModifiers, KindRep)> = Seq::empty();
        let ghost mut tot: int = 0;
        proof {
            assert(input@.skip(0) =~= input@);
        }
        loop
            invariant
                0 <= tot <= input@.len(),
                rem@ == input@.skip(tot),
                some <==> done.len() > 0,
                key_seq.wf(),
                key_seq.atoms() == reps_atoms(done),
                match spec_parse_seq(rem@) {
                    Ok(q) => spec_parse_seq(input@) matches Ok(g) && g.0 == done + q.0 && g.1 == tot
                        + q.1,
                    Err(f) => spec_parse_seq(input@) == Err::<
                        (Seq<(KeyModifiers, KindRep)>, int),
                        ParseFault,
                    >(f),
                },
            decreases input@.len() - tot,
        {
            proof {
                lemma_spec_parse_key_bounds(rem@);
            }
            match <Key as Parser>::parse(rem) {
                None => {
                    proof {
                        assert(spec_parse_seq(rem@) == Ok::<
                            (Seq<(KeyModifiers, KindRep)>, int),
                            ParseFault,
                        >((Seq::empty(), 0)));
                        assert(done + Seq::<(KeyModifiers, KindRep)>::empty() =~= done);
                    }
                    if some {
                        return Some(Ok((key_seq, rem)));
                    }
                    return None;
                },
                Some(Err(e)) => {
                    return Some(Err(e));
                },
                Some(Ok((key, next))) => {
                    let ghost p = spec_parse_key(rem@)->Some_0->Ok_0;
                    let ghost old_done = done;
                    proof {
                        lemma_key_rep_atoms(key, p.0);
                        assert(next@ == rem@.skip(p.1));
                        assert(rem@.skip(p.1) =~= input@.skip(tot + p.1));
                        done = done.push(p.0);
                        tot = tot + p.1;
                        lemma_reps_atoms_push(old_done, p.0);
                    }
                    some = true;
                    key_seq.push(key);
                    rem = next;
                    proof {
                        match spec_parse_seq(rem@) {
                            Ok(q) => {
                                assert(seq![p.0] + q.0 =~= Seq::<
                                    (KeyModifiers, KindRep),
                                >::empty().push(p.0) + q.0);
                                assert(old_done + (seq![p.0] + q.0) =~= done + q.0);
                            },
                            Err(_) => {},
                        }
                    }
                },
            }
        }
    }
}

/// How a payload is written on its own: a named key in brackets, or
/// the text with special characters escaped (no modifier marks).
pub open spec fn spec_escaped_text(t: Seq<char>) -> Seq<char>
    decreases t.len(),
{
    if t.len() == 0 {
        Seq::empty()
    } else {
        spec_escape_char(t[0]) + spec_escaped_text(t.drop_first())
    }
}

/// How a payload alone is written.
pub open spec fn spec_kind_text(k: KeyKind) -> Seq<char> {
    match k {
        KeyKind::Invisible(i) => spec_inv_text(i),
        KeyKind::Visible(t) => spec_escaped_text(t@),
    }
}

pub proof fn lemma_escaped_text_snoc(t: Seq<char>, c: char)
    ensures
        spec_escaped_text(t.push(c)) == spec_escaped_text(t) + spec_escape_char(c),
    decreases t.len(),
{
    if t.len() == 0 {
        assert(t.push(c).drop_first() =~= Seq::<char>::empty());
        assert(t.push(c)[0] == c);
        assert(spec_escaped_text(t.push(c)) == spec_escape_char(c) + spec_escaped_text(
            Seq::<char>::empty(),
        ));
        assert(spec_escaped_text(t.push(c)) =~= spec_escaped_text(t) + spec_escape_char(c));
    } else {
        assert(t.push(c).drop_first() =~= t.drop_first().push(c));
        assert(t.push(c)[0] == t[0]);
        lemma_escaped_text_snoc(t.drop_first(), c);
        assert(spec_escaped_text(t.push(c)) == spec_escape_char(t[0]) + (spec_escaped_text(
            t.drop_first(),
        ) + spec_escape_char(c)));
        assert(spec_escaped_text(t.push(c)) =~= spec_escaped_text(t) + spec_escape_char(c));
    }
}

pub proof fn lemma_visible_text_snoc(m: KeyModifiers, t: Seq<char>, c: char)
    ensures
        spec_visible_text(m, t.push(c)) == spec_visible_text(m, t) + spec_mods_text(m)
            + spec_escape_char(c),
    decreases t.len(),
{
    if t.len() == 0 {
        assert(t.push(c).drop_first() =~= Seq::<char>::empty());
        assert(t.push(c)[0] == c);
        assert(spec_visible_text(m, t.push(c)) == spec_mods_text(m) + spec_escape_char(c)
            + spec_visible_text(m, Seq::<char>::empty()));
        assert(spec_visible_text(m, t.push(c)) =~= spec_visible_text(m, t) + spec_mods_text(m)
            + spec_escape_char(c));
    } else {
        assert(t.push(c).drop_first() =~= t.drop_first().push(c));
        assert(t.push(c)[0] == t[0]);
        lemma_visible_text_snoc(m, t.drop_first(), c);
        assert(spec_visible_text(m, t.push(c)) == spec_mods_text(m) + spec_escape_char(t[0]) + (
        spec_visible_text(m, t.drop_first()) + spec_mods_text(m) + spec_escape_char(c)));
        assert(spec_visible_text(m, t.push(c)) =~= spec_visible_text(m, t) + spec_mods_text(m)
            + spec_escape_char(c));
    }
}

pub proof fn lemma_seq_text_snoc(keys: Seq<Key>, k: Key)
    ensures
        spec_seq_text(keys.push(k)) == spec_seq_text(keys) + spec_key_text(k),
    decreases keys.len(),
{
    if keys.len() == 0 {
        assert(keys.push(k).drop_first() =~= Seq::<Key>::empty());
        assert(keys.push(k)[0] == k);
        assert(spec_seq_text(keys.push(k)) == spec_key_text(k) + spec_seq_text(Seq::<Key>::empty()));
        assert(spec_seq_text(keys.push(k)) =~= spec_seq_text(keys) + spec_key_text(k));
    } else {
        assert(keys.push(k).drop_first() =~= keys.drop_first().push(k));
        assert(keys.push(k)[0] == keys[0]);
        lemma_seq_text_snoc(keys.drop_first(), k);
        assert(spec_seq_text(keys.push(k)) == spec_key_text(keys[0]) + (spec_seq_text(
            keys.drop_first(),
        ) + spec_key_text(k)));
        assert(spec_seq_text(keys.push(k)) =~= spec_seq_text(keys) + spec_key_text(k));
    }
}

/// Exec mirror of [digit_char].
fn digit_char_of(d: u8) -> (r: char)
    requires
        d < 10,
    ensures
        r == digit_char(d as nat),
{
    if d == 0 {
        '0'
    } else if d == 1 {
        '1'
    } else if d == 2 {
        '2'
    } else if d == 3 {
        '3'
    } else if d == 4 {
        '4'
    } else if d == 5 {
        '5'
    } else if d == 6 {
        '6'
    } else if d == 7 {
        '7'
    } else if d == 8 {
        '8'
    } else {
        '9'
    }
}

/// Append the decimal digits of `n`.
fn push_dec_digits(v: &mut Vec<char>, n: u8)
    ensures
        final(v)@ == old(v)@ + spec_dec_digits(n as nat),
    decreases n,
{
    if n < 10 {
        v.push(digit_char_of(n));
        proof {
            assert(final(v)@ =~= old(v)@ + spec_dec_digits(n as nat));
        }
    } else {
        push_dec_digits(v, n / 10);
        v.push(digit_char_of(n % 10));
        proof {
            assert(final(v)@ =~= old(v)@ + spec_dec_digits(n as nat));
        }
    }
}

/// Append the modifier marks of the set, in display order.
fn push_mods(v: &mut Vec<char>, m: &KeyModifiers)
    ensures
        final(v)@ == old(v)@ + spec_mods_text(*m),
{
    if m.alt {
        v.push('M');
        v.push('-');
    }
    if m.control {
        v.push('C');
        v.push('-');
    }
    if m.shift {
        v.push('S');
        v.push('-');
    }
    if m.logo {
        v.push('L');
        v.push('-');
    }
    proof {
        assert(final(v)@ =~= old(v)@ + spec_mods_text(*m));
    }
}

/// Append a named key, brackets included.
fn push_inv(v: &mut Vec<char>, k: &InvisibleKey)
    ensures
        final(v)@ == old(v)@ + spec_inv_text(*k),
{
    v.push('<');
    match k {
        InvisibleKey::F(n) => {
            v.push('F');
            v.push('-');
            push_dec_digits(v, *n);
        },
        InvisibleKey::PageUp => {
            v.push('P');
            v.push('G');
            v.push('-');
            v.push('U');
            v.push('P');
        },
        InvisibleKey::PageDown => {
            v.push('P');
            v.push('G');
            v.push('-');
            v.push('D');
            v.push('N');
        },
    }
    v.push('>');
    proof {
        assert(final(v)@ =~= old(v)@ + spec_inv_text(*k));
    }
}

/// Append one literal character, escaped if need be.
fn push_escape(v: &mut Vec<char>, c: char)
    ensures
        final(v)@ == old(v)@ + spec_escape_char(c),
{
    if is_special_char(c) || c == '\\' {
        v.push('\\');
    }
    v.push(c);
    proof {
        assert(final(v)@ =~= old(v)@ + spec_escape_char(c));
    }
}

/// Append one key press as it is written: for textual presses the
/// modifier marks come again before every character, so that parsing
/// the text gives the same presses back.
fn push_key_text(v: &mut Vec<char>, k: &Key)
    ensures
        final(v)@ == old(v)@ + spec_key_text(*k),
{
    match &k.kind {
        KeyKind::Invisible(i) => {
            push_mods(v, &k.mods);
            push_inv(v, i);
        },
        KeyKind::Visible(s) => {
            let n = s.as_str().unicode_len();
            let mut i: usize = 0;
            proof {
                assert(s@.take(0) =~= Seq::<char>::empty());
            }
            while i < n
                invariant
                    i <= n,
                    n == s@.len(),
                    k.kind is Visible,
                    s@ == k.kind->Visible_0@,
                    v@ == old(v)@ + spec_visible_text(k.mods, s@.take(i as int)),
                decreases n - i,
            {
                push_mods(v, &k.mods);
                let c = s.as_str().get_char(i);
                push_escape(v, c);
                proof {
                    assert(s@.take(i + 1) =~= s@.take(i as int).push(s@[i as int]));
                    lemma_visible_text_snoc(k.mods, s@.take(i as int), s@[i as int]);
                    assert(v@ =~= old(v)@ + spec_visible_text(k.mods, s@.take(i + 1)));
                }
                i += 1;
            }
            proof {
                assert(s@.take(n as int) =~= s@);
            }
        },
    }
}

impl KeyModifier {
    /// The written mark of this modifier.
    pub fn display(&self) -> (r: String)
        ensures
            r@ == spec_mods_text(KeyModifiers::spec_empty().spec_insert(*self)),
    {
        let mut v: Vec<char> = Vec::new();
        push_mods(&mut v, &KeyModifiers::default().spec_insert_exec(*self));
        chars_string(&v)
    }
}

impl KeyModifiers {
    /// Exec mirror of [Self::spec_insert].
    fn spec_insert_exec(self, m: KeyModifier) -> (r: KeyModifiers)
        ensures
            r == self.spec_insert(m),
    {
        let mut out = self;
        out.push(m);
        out
    }

    /// The written marks of the active modifiers, in display order.
    pub fn display(&self) -> (r: String)
        ensures
            r@ == spec_mods_text(*self),
    {
        let mut v: Vec<char> = Vec::new();
        push_mods(&mut v, self);
        chars_string(&v)
    }
}

impl InvisibleKey {
    /// The written form of this named key, brackets included.
    pub fn display(&self) -> (r: String)
        ensures
            r@ == spec_inv_text(*self),
    {
        let mut v: Vec<char> = Vec::new();
        push_inv(&mut v, self);
        chars_string(&v)
    }
}

impl KeyKind {
    /// The written form of the payload alone, without modifier marks.
    pub fn display(&self) -> (r: String)
        ensures
            r@ == spec_kind_text(*self),
    {
        let mut v: Vec<char> = Vec::new();
        match self {
            KeyKind::Invisible(i) => push_inv(&mut v, i),
            KeyKind::Visible(s) => {
                let n = s.as_str().unicode_len();
                let mut i: usize = 0;
                proof {
                    assert(s@.take(0) =~= Seq::<char>::empty());
                }
                while i < n
                    invariant
                        i <= n,
                        n == s@.len(),
                        v@ == spec_escaped_text(s@.take(i as int)),
                    decreases n - i,
                {
                    let c = s.as_str().get_char(i);
                    push_escape(&mut v, c);
                    proof {
                        assert(s@.take(i + 1) =~= s@.take(i as int).push(s@[i as int]));
                        lemma_escaped_text_snoc(s@.take(i as int), s@[i as int]);
                        assert(v@ =~= spec_escaped_text(s@.take(i + 1)));
                    }
                    i += 1;
                }
                proof {
                    assert(s@.take(n as int) =~= s@);
                }
            },
        }
        chars_string(&v)
    }
}

impl Key {
    /// The written form of this press.
    pub fn display(&self) -> (r: String)
        ensures
            r@ == spec_key_text(*self),
    {
        let mut v: Vec<char> = Vec::new();
        push_key_text(&mut v, self);
        chars_string(&v)
    }
}

impl KeySequence {
    /// The written form of the whole sequence; parsing it gives the
    /// same presses back.
    pub fn display(&self) -> (r: String)
        ensures
            r@ == spec_seq_text(self@),
    {
        let mut v: Vec<char> = Vec::new();
        let n = sv_len(&self.keys);
        let mut i: usize = 0;
        proof {
            assert(self@.take(0) =~= Seq::<Key>::empty());
        }
        while i < n
            invariant
                i <= n,
                n == self@.len(),
                v@ == spec_seq_text(self@.take(i as int)),
            decreases n - i,
        {
            let k = sv_get(&self.keys, i);
            push_key_text(&mut v, k);
            proof {
                assert(self@.take(i + 1) =~= self@.take(i as int).push(self@[i as int]));
                lemma_seq_text_snoc(self@.take(i as int), self@[i as int]);
                assert(v@ =~= spec_seq_text(self@.take(i + 1)));
            }
            i += 1;
        }
        proof {
            assert(self@.take(n as int) =~= self@);
        }
        chars_string(&v)
    }
}

// ------------------------------------------------------------------
// Round trip: parsing what the printer wrote gives the presses back.
// ------------------------------------------------------------------

/// How many modifiers a set holds.
pub open spec fn mods_count(m: KeyModifiers) -> nat {
    (if m.alt {
        1nat
    } else {
        0nat
    }) + (if m.control {
        1nat
    } else {
        0nat
    }) + (if m.shift {
        1nat
    } else {
        0nat
    }) + (if m.logo {
        1nat
    } else {
        0nat
    })
}

/// The printed marks of a set parse back to exactly that set, as long
/// as what follows is not itself a mark.
pub proof fn lemma_mods_text_parses(m: KeyModifiers, rest: Seq<char>)
    requires
        spec_parse_modifier(rest) is None,
    ensures
        spec_parse_mods(spec_mods_text(m) + rest) == (m, spec_mods_text(m).len() as int),
    decreases mods_count(m),
{
    let s = spec_mods_text(m) + rest;
    if m == KeyModifiers::spec_empty() {
        assert(spec_mods_text(m) =~= Seq::<char>::empty());
        assert(s =~= rest);
    } else {
        let (mark0, mark1, m2) = if m.alt {
            ('M', '-', KeyModifiers { alt: false, ..m })
        } else if m.control {
            ('C', '-', KeyModifiers { control: false, ..m })
        } else if m.shift {
            ('S', '-', KeyModifiers { shift: false, ..m })
        } else {
            ('L', '-', KeyModifiers { logo: false, ..m })
        };
        assert(spec_mods_text(m) =~= seq![mark0, mark1] + spec_mods_text(m2));
        assert(s[0] == mark0 && s[1] == '-');
        assert(s.skip(2) =~= spec_mods_text(m2) + rest);
        lemma_mods_text_parses(m2, rest);
        if m.alt {
            assert(spec_parse_modifier(s) == Some(KeyModifier::Alt));
            assert(m2.spec_insert(KeyModifier::Alt) == m);
        } else if m.control {
            assert(spec_parse_modifier(s) == Some(KeyModifier::Control));
            assert(m2.spec_insert(KeyModifier::Control) == m);
        } else if m.shift {
            assert(spec_parse_modifier(s) == Some(KeyModifier::Shift));
            assert(m2.spec_insert(KeyModifier::Shift) == m);
        } else {
            assert(spec_parse_modifier(s) == Some(KeyModifier::Super));
            assert(m2.spec_insert(KeyModifier::Super) == m);
        }
    }
}

/// A printed run of literal text parses back to exactly that text, as
/// long as what follows starts with a special character or is empty.
pub proof fn lemma_escaped_parses(t: Seq<char>, rest: Seq<char>)
    requires
        rest.len() == 0 || is_special(rest[0]),
    ensures
        spec_parse_visible(spec_escaped_text(t) + rest) == Ok::<(Seq<char>, int), int>(
            (t, spec_escaped_text(t).len() as int),
        ),
    decreases t.len(),
{
    let s = spec_escaped_text(t) + rest;
    if t.len() == 0 {
        assert(spec_escaped_text(t) =~= Seq::<char>::empty());
        assert(t =~= Seq::<char>::empty());
        assert(s =~= rest);
        assert(spec_parse_visible(s) == Ok::<(Seq<char>, int), int>((Seq::empty(), 0)));
    } else {
        let c = t[0];
        assert(spec_escaped_text(t) =~= spec_escape_char(c) + spec_escaped_text(t.drop_first()));
        lemma_escaped_parses(t.drop_first(), rest);
        if is_special(c) || c == '\\' {
            assert(s[0] == '\\' && s[1] == c);
            assert(s.len() >= 2);
            assert(s.skip(2) =~= spec_escaped_text(t.drop_first()) + rest);
            assert(unescape(c) == c);
            assert(seq![c] + t.drop_first() =~= t);
        } else {
            assert(s[0] == c);
            assert(s.skip(1) =~= spec_escaped_text(t.drop_first()) + rest);
            assert(seq![c] + t.drop_first() =~= t);
        }
    }
}

/// The decimal digits of a number are digits.
pub proof fn lemma_dec_digits_are_digits(n: nat)
    ensures
        spec_dec_digits(n).len() >= 1,
        forall|i: int| 0 <= i < spec_dec_digits(n).len() ==> is_dec_digit(#[trigger] spec_dec_digits(n)[i]),
    decreases n,
{
    if n >= 10 {
        lemma_dec_digits_are_digits(n / 10);
    }
}

/// Digit folding distributes over concatenation.
pub proof fn lemma_fkey_concat(a: Seq<char>, b: Seq<char>, acc: nat)
    ensures
        spec_fkey_digits(a + b, acc) == (match spec_fkey_digits(a, acc) {
            Some(v) => spec_fkey_digits(b, v),
            None => None,
        }),
    decreases a.len(),
{
    if a.len() == 0 {
        assert(a + b =~= b);
    } else {
        assert((a + b)[0] == a[0]);
        if is_dec_digit(a[0]) {
            let v = acc * 10 + dec_digit_val(a[0]);
            if v <= 255 {
                assert((a + b).drop_first() =~= a.drop_first() + b);
                lemma_fkey_concat(a.drop_first(), b, v);
            } else {
                assert(spec_fkey_digits(a + b, acc) is None);
            }
        } else {
            assert(spec_fkey_digits(a + b, acc) is None);
        }
    }
}

/// Folding the decimal digits of a byte-sized number gives it back.
pub proof fn lemma_fkey_of_dec(n: nat)
    requires
        n <= 255,
    ensures
        spec_fkey_digits(spec_dec_digits(n), 0) == Some(n),
    decreases n,
{
    if n < 10 {
        assert(spec_dec_digits(n) == seq![digit_char(n)]);
        assert(is_dec_digit(digit_char(n)));
        assert(dec_digit_val(digit_char(n)) == n);
        assert(spec_dec_digits(n).drop_first() =~= Seq::<char>::empty());
        assert(spec_fkey_digits(Seq::<char>::empty(), n) == Some(n));
        assert(0 * 10 + dec_digit_val(digit_char(n)) == n);
    } else {
        lemma_fkey_of_dec(n / 10);
        lemma_fkey_concat(spec_dec_digits(n / 10), seq![digit_char(n % 10)], 0);
        vstd::arithmetic::div_mod::lemma_fundamental_div_mod(n as int, 10);
        assert(is_dec_digit(digit_char(n % 10)));
        assert(dec_digit_val(digit_char(n % 10)) == n % 10);
        assert((n / 10) * 10 + n % 10 == n);
        assert(seq![digit_char(n % 10)].drop_first() =~= Seq::<char>::empty());
        assert(spec_dec_digits(n) == spec_dec_digits(n / 10) + seq![digit_char(n % 10)]);
        assert(spec_fkey_digits(seq![digit_char(n % 10)], n / 10) == Some(n)) by {
            assert(seq![digit_char(n % 10)][0] == digit_char(n % 10));
            assert((n / 10) * 10 + dec_digit_val(digit_char(n % 10)) == n);
            assert(spec_fkey_digits(Seq::<char>::empty(), n) == Some(n));
        }
    }
}

/// A printed named key parses back to exactly that key, whatever
/// follows the closing bracket.
pub proof fn lemma_inv_text_parses(k: InvisibleKey, rest: Seq<char>)
    ensures
        spec_parse_invisible(spec_inv_text(k) + rest) == Some(Ok::<(InvisibleKey, int), ParseFault>(
            (k, spec_inv_text(k).len() as int),
        )),
{
    let s = spec_inv_text(k) + rest;
    let body = spec_inv_text(k);
    let blen = body.len() as int;
    assert(s[0] == '<');
    let name = match k {
        InvisibleKey::F(n) => seq!['F', '-'] + spec_dec_digits(n as nat),
        InvisibleKey::PageUp => pg_up_name(),
        InvisibleKey::PageDown => pg_dn_name(),
    };
    assert(body =~= seq!['<'] + name + seq!['>']);
    assert(s[blen - 1] == '>');
    match k {
        InvisibleKey::F(n) => {
            lemma_dec_digits_are_digits(n as nat);
            assert forall|j: int| 0 <= j < blen - 1 implies s[j] != '>' by {
                if j >= 1 {
                    assert(s[j] == name[j - 1]);
                    if j >= 3 {
                        assert(name[j - 1] == spec_dec_digits(n as nat)[j - 3]);
                        assert(is_dec_digit(spec_dec_digits(n as nat)[j - 3]));
                    }
                }
            }
        },
        InvisibleKey::PageUp => {
            assert forall|j: int| 0 <= j < blen - 1 implies s[j] != '>' by {
                if j >= 1 {
                    assert(s[j] == name[j - 1]);
                }
            }
        },
        InvisibleKey::PageDown => {
            assert forall|j: int| 0 <= j < blen - 1 implies s[j] != '>' by {
                if j >= 1 {
                    assert(s[j] == name[j - 1]);
                }
            }
        },
    }
    lemma_find_gt_at(s, blen - 1);
    assert(s.subrange(1, blen - 1) =~= name);
    match k {
        InvisibleKey::F(n) => {
            assert(name[0] == 'F' && name[1] == '-');
            assert(name != pg_up_name()) by {
                if name == pg_up_name() {
                    assert(name[0] == 'P');
                }
            }
            assert(name != pg_dn_name()) by {
                if name == pg_dn_name() {
                    assert(name[0] == 'P');
                }
            }
            assert(name.skip(2) =~= spec_dec_digits(n as nat));
            lemma_fkey_of_dec(n as nat);
            assert(spec_named_key(name) == Some(InvisibleKey::F(n)));
        },
        InvisibleKey::PageUp => {
            assert(spec_named_key(name) == Some(InvisibleKey::PageUp));
        },
        InvisibleKey::PageDown => {
            assert(name != pg_up_name()) by {
                if name == pg_dn_name() && name == pg_up_name() {
                    assert(pg_up_name()[3] == 'U' && pg_dn_name()[3] == 'D');
                }
            }
            assert(spec_named_key(name) == Some(InvisibleKey::PageDown));
        },
    }
}

/// The printed form of one parsed key.
pub open spec fn spec_rep_text(k: (KeyModifiers, KindRep)) -> Seq<char> {
    match k.1 {
        KindRep::Inv(i) => spec_mods_text(k.0) + spec_inv_text(i),
        KindRep::Vis(t) => spec_visible_text(k.0, t),
    }
}

/// The printed form of a run of parsed keys.
pub open spec fn spec_reps_text(ks: Seq<(KeyModifiers, KindRep)>) -> Seq<char>
    decreases ks.len(),
{
    if ks.len() == 0 {
        Seq::empty()
    } else {
        spec_rep_text(ks[0]) + spec_reps_text(ks.drop_first())
    }
}

/// The runs whose printed form reads back: every textual element holds
/// at least one character, and a textual element without modifiers
/// never directly follows a textual element (whose trailing characters
/// it would otherwise extend).
pub open spec fn displayable_reps(ks: Seq<(KeyModifiers, KindRep)>) -> bool {
    &&& forall|i: int|
        0 <= i < ks.len() ==> ((#[trigger] ks[i]).1 is Vis ==> ks[i].1->Vis_0.len() > 0)
    &&& forall|i: int|
        0 <= i && i + 1 < ks.len() ==> (((#[trigger] ks[i + 1]).1 is Vis && ks[i + 1].0
            == KeyModifiers::spec_empty()) ==> ks[i].1 is Inv)
}

/// An empty modifier set prints no marks before its characters.
pub proof fn lemma_visible_empty_mods(t: Seq<char>)
    ensures
        spec_visible_text(KeyModifiers::spec_empty(), t) == spec_escaped_text(t),
    decreases t.len(),
{
    if t.len() > 0 {
        lemma_visible_empty_mods(t.drop_first());
        assert(spec_mods_text(KeyModifiers::spec_empty()) =~= Seq::<char>::empty());
        assert(spec_visible_text(KeyModifiers::spec_empty(), t) =~= spec_escaped_text(t));
    }
}

/// A non-empty modifier set prints at least one mark, and a mark opens
/// with a special character that is no bracket.
pub proof fn lemma_mods_text_shape(m: KeyModifiers)
    ensures
        m == KeyModifiers::spec_empty() ==> spec_mods_text(m).len() == 0,
        m != KeyModifiers::spec_empty() ==> spec_mods_text(m).len() >= 2 && is_special(
            spec_mods_text(m)[0],
        ) && spec_mods_text(m)[0] != '<',
{
    if m != KeyModifiers::spec_empty() {
        if m.alt {
            assert(spec_mods_text(m)[0] == 'M');
        } else if m.control {
            assert(spec_mods_text(m)[0] == 'C');
        } else if m.shift {
            assert(spec_mods_text(m)[0] == 'S');
        } else {
            assert(spec_mods_text(m)[0] == 'L');
        }
    }
}

/// The first character of one escaped literal is never special, never
/// a bracket, and never reads as a modifier mark.
pub proof fn lemma_escape_head(c: char)
    ensures
        spec_escape_char(c).len() >= 1,
        spec_escape_char(c)[0] == '\\' || !is_special(spec_escape_char(c)[0]),
        spec_escape_char(c)[0] != '<',
        spec_escape_char(c)[0] != 'M' && spec_escape_char(c)[0] != 'C' && spec_escape_char(c)[0]
            != 'S' && spec_escape_char(c)[0] != 'L',
{
}

/// Where the printed run of keys opens: empty for no keys, else with
/// the first key's text, whose head is special unless that key is
/// textual without modifiers.
pub proof fn lemma_reps_text_head(ks: Seq<(KeyModifiers, KindRep)>)
    requires
        displayable_reps(ks),
    ensures
        ks.len() == 0 ==> spec_reps_text(ks).len() == 0,
        ks.len() > 0 && !(ks[0].1 is Vis && ks[0].0 == KeyModifiers::spec_empty())
            ==> spec_reps_text(ks).len() > 0 && is_special(spec_reps_text(ks)[0]),
{
    if ks.len() > 0 && !(ks[0].1 is Vis && ks[0].0 == KeyModifiers::spec_empty()) {
        let k0 = ks[0];
        lemma_mods_text_shape(k0.0);
        match k0.1 {
            KindRep::Inv(i) => {
                if k0.0 == KeyModifiers::spec_empty() {
                    assert(spec_rep_text(k0)[0] == '<');
                } else {
                    assert(spec_rep_text(k0)[0] == spec_mods_text(k0.0)[0]);
                }
            },
            KindRep::Vis(t) => {
                assert(t.len() > 0);
                assert(spec_visible_text(k0.0, t)[0] == spec_mods_text(k0.0)[0]);
            },
        }
        assert(spec_reps_text(ks)[0] == spec_rep_text(k0)[0]);
    }
}

/// One key at the head of a run, then the rest.
proof fn lemma_reps_atoms_cons(x: (KeyModifiers, KindRep), q: Seq<(KeyModifiers, KindRep)>)
    ensures
        reps_atoms(seq![x] + q) == rep_atoms(x) + reps_atoms(q),
{
    assert((seq![x] + q)[0] == x);
    assert((seq![x] + q).drop_first() =~= q);
    assert(reps_atoms(seq![x] + q) == rep_atoms((seq![x] + q)[0]) + reps_atoms(
        (seq![x] + q).drop_first(),
    ));
}

/// A textual element's atoms split at its first character.
proof fn lemma_vis_atoms_split(m: KeyModifiers, t: Seq<char>)
    requires
        t.len() > 0,
    ensures
        rep_atoms((m, KindRep::Vis(t))) == rep_atoms((m, KindRep::Vis(t.take(1)))) + rep_atoms(
            (m, KindRep::Vis(t.drop_first())),
        ),
{
    assert(rep_atoms((m, KindRep::Vis(t))) =~= rep_atoms((m, KindRep::Vis(t.take(1))))
        + rep_atoms((m, KindRep::Vis(t.drop_first()))));
}

/// Parsing the printed form of a displayable run of keys succeeds,
/// consumes the whole text, and yields keys denoting the same presses.
#[verifier::rlimit(100)]
pub proof fn lemma_reps_parse_back(ks: Seq<(KeyModifiers, KindRep)>)
    requires
        displayable_reps(ks),
    ensures
        spec_parse_seq(spec_reps_text(ks)) matches Ok(p) && p.1 == spec_reps_text(ks).len()
            && reps_atoms(p.0) == reps_atoms(ks),
    decreases spec_reps_text(ks).len(), ks.len(),
{
    let s = spec_reps_text(ks);
    if ks.len() == 0 {
        assert(s =~= Seq::<char>::empty());
        assert(spec_parse_kind(s) is None);
        assert(spec_parse_seq(s) == Ok::<(Seq<(KeyModifiers, KindRep)>, int), ParseFault>(
            (Seq::empty(), 0),
        ));
    } else {
        let k0 = ks[0];
        let rest = ks.drop_first();
        let tail = spec_reps_text(rest);
        assert(s =~= spec_rep_text(k0) + tail);
        assert forall|i: int| 0 <= i < rest.len() implies ((#[trigger] rest[i]).1 is Vis
            ==> rest[i].1->Vis_0.len() > 0) by {
            assert(rest[i] == ks[i + 1]);
        }
        assert forall|i: int| 0 <= i && i + 1 < rest.len() implies (((#[trigger] rest[i + 1]).1
            is Vis && rest[i + 1].0 == KeyModifiers::spec_empty()) ==> rest[i].1 is Inv) by {
            assert(rest[i] == ks[i + 1]);
            assert(rest[i + 1] == ks[i + 2]);
        }
        lemma_reps_text_head(rest);
        lemma_mods_text_shape(k0.0);
        match k0.1 {
            KindRep::Inv(ik) => {
                let rest0 = spec_inv_text(ik) + tail;
                assert(rest0[0] == '<');
                assert(spec_parse_modifier(rest0) is None);
                assert(s =~= spec_mods_text(k0.0) + rest0);
                lemma_mods_text_parses(k0.0, rest0);
                let mlen = spec_mods_text(k0.0).len() as int;
                assert(s.skip(mlen) =~= rest0);
                lemma_inv_text_parses(ik, tail);
                let ilen = spec_inv_text(ik).len() as int;
                assert(spec_parse_kind(rest0) == Some(Ok::<(KindRep, int), ParseFault>(
                    (KindRep::Inv(ik), ilen),
                )));
                let c = mlen + ilen;
                assert(spec_parse_key(s) == Some(Ok::<((KeyModifiers, KindRep), int), ParseFault>(
                    ((k0.0, KindRep::Inv(ik)), c),
                )));
                assert((k0.0, KindRep::Inv(ik)) == k0);
                assert(s.skip(c) =~= tail);
                lemma_reps_parse_back(rest);
                let q = spec_parse_seq(tail)->Ok_0;
                assert(spec_parse_seq(s) matches Ok(p) && p.0 == seq![k0] + q.0 && p.1 == c + q.1);
                lemma_reps_atoms_cons(k0, q.0);
                assert(reps_atoms(seq![k0] + q.0) == rep_atoms(k0) + reps_atoms(rest));
                assert(reps_atoms(ks) == rep_atoms(k0) + reps_atoms(rest));
            },
            KindRep::Vis(t) => {
                assert(t.len() > 0);
                if k0.0 == KeyModifiers::spec_empty() {
                    lemma_visible_empty_mods(t);
                    assert(s =~= spec_escaped_text(t) + tail);
                    lemma_escape_head(t[0]);
                    assert(spec_escaped_text(t)[0] == spec_escape_char(t[0])[0]);
                    assert(s[0] == spec_escape_char(t[0])[0]);
                    assert(spec_parse_modifier(s) is None);
                    assert(spec_parse_mods(s) == (KeyModifiers::spec_empty(), 0int));
                    assert(s.skip(0) =~= s);
                    if rest.len() > 0 {
                        assert(!(rest[0].1 is Vis && rest[0].0 == KeyModifiers::spec_empty()));
                    }
                    lemma_escaped_parses(t, tail);
                    let elen = spec_escaped_text(t).len() as int;
                    assert(s[0] != '<');
                    assert(spec_parse_kind(s) == Some(Ok::<(KindRep, int), ParseFault>(
                        (KindRep::Vis(t), elen),
                    )));
                    assert(spec_parse_key(s) == Some(Ok::<
                        ((KeyModifiers, KindRep), int),
                        ParseFault,
                    >((((k0.0), KindRep::Vis(t)), elen))));
                    assert((k0.0, KindRep::Vis(t)) == k0);
                    assert(s.skip(elen) =~= tail);
                    lemma_reps_parse_back(rest);
                    let q = spec_parse_seq(tail)->Ok_0;
                    assert(spec_parse_seq(s) matches Ok(p) && p.0 == seq![k0] + q.0 && p.1 == elen
                        + q.1);
                    lemma_reps_atoms_cons(k0, q.0);
                } else {
                    // the marks come again before every character, so
                    // one character is read per key, and merging puts
                    // the run back together
                    let t0 = t.take(1);
                    let t1 = t.drop_first();
                    assert(spec_visible_text(k0.0, t) == spec_mods_text(k0.0) + spec_escape_char(
                        t[0],
                    ) + spec_visible_text(k0.0, t1));
                    lemma_escape_head(t[0]);
                    if t1.len() == 0 {
                        let rest0 = spec_escape_char(t[0]) + tail;
                        assert(s =~= spec_mods_text(k0.0) + rest0);
                        assert(rest0[0] == spec_escape_char(t[0])[0]);
                        assert(spec_parse_modifier(rest0) is None);
                        lemma_mods_text_parses(k0.0, rest0);
                        let mlen = spec_mods_text(k0.0).len() as int;
                        assert(s.skip(mlen) =~= rest0);
                        if rest.len() > 0 {
                            assert(!(rest[0].1 is Vis && rest[0].0
                                == KeyModifiers::spec_empty()));
                        }
                        assert(spec_escaped_text(t) =~= spec_escape_char(t[0])
                            + spec_escaped_text(t1));
                        assert(spec_escaped_text(t1) =~= Seq::<char>::empty());
                        assert(spec_escaped_text(t) =~= spec_escape_char(t[0]));
                        lemma_escaped_parses(t, tail);
                        let elen = spec_escaped_text(t).len() as int;
                        assert(rest0 =~= spec_escaped_text(t) + tail);
                        assert(rest0[0] != '<');
                        assert(spec_parse_kind(rest0) == Some(Ok::<(KindRep, int), ParseFault>(
                            (KindRep::Vis(t), elen),
                        )));
                        let c = mlen + elen;
                        assert(spec_parse_key(s) == Some(Ok::<
                            ((KeyModifiers, KindRep), int),
                            ParseFault,
                        >(((k0.0, KindRep::Vis(t)), c))));
                        assert((k0.0, KindRep::Vis(t)) == k0);
                        assert(s.skip(c) =~= tail);
                        lemma_reps_parse_back(rest);
                        let q = spec_parse_seq(tail)->Ok_0;
                        assert(spec_parse_seq(s) matches Ok(p) && p.0 == seq![k0] + q.0 && p.1 == c
                            + q.1);
                        lemma_reps_atoms_cons(k0, q.0);
                    } else {
                        let ks2 = seq![(k0.0, KindRep::Vis(t1))] + rest;
                        assert(ks2[0] == (k0.0, KindRep::Vis(t1)));
                        assert(ks2.drop_first() =~= rest);
                        assert(spec_reps_text(ks2) == spec_visible_text(k0.0, t1) + tail);
                        let rest0 = spec_escape_char(t[0]) + spec_reps_text(ks2);
                        assert(s =~= spec_mods_text(k0.0) + rest0);
                        assert(rest0[0] == spec_escape_char(t[0])[0]);
                        assert(spec_parse_modifier(rest0) is None);
                        lemma_mods_text_parses(k0.0, rest0);
                        let mlen = spec_mods_text(k0.0).len() as int;
                        assert(s.skip(mlen) =~= rest0);
                        assert(spec_visible_text(k0.0, t1)[0] == spec_mods_text(k0.0)[0]);
                        assert(spec_reps_text(ks2).len() > 0 && is_special(
                            spec_reps_text(ks2)[0],
                        ));
                        assert(t0[0] == t[0]);
                        assert(t0.drop_first() =~= Seq::<char>::empty());
                        assert(spec_escaped_text(t0) == spec_escape_char(t0[0])
                            + spec_escaped_text(t0.drop_first()));
                        assert(spec_escaped_text(Seq::<char>::empty()) =~= Seq::<char>::empty());
                        assert(spec_escaped_text(t0) =~= spec_escape_char(t[0]));
                        lemma_escaped_parses(t0, spec_reps_text(ks2));
                        let elen = spec_escaped_text(t0).len() as int;
                        assert(rest0 =~= spec_escaped_text(t0) + spec_reps_text(ks2));
                        assert(rest0[0] != '<');
                        assert(t0.len() > 0);
                        assert(spec_parse_kind(rest0) == Some(Ok::<(KindRep, int), ParseFault>(
                            (KindRep::Vis(t0), elen),
                        )));
                        let c = mlen + elen;
                        assert(spec_parse_key(s) == Some(Ok::<
                            ((KeyModifiers, KindRep), int),
                            ParseFault,
                        >(((k0.0, KindRep::Vis(t0)), c))));
                        assert(s.skip(c) =~= spec_reps_text(ks2));
                        assert forall|i: int| 0 <= i < ks2.len() implies ((#[trigger] ks2[i]).1
                            is Vis ==> ks2[i].1->Vis_0.len() > 0) by {
                            if i > 0 {
                                assert(ks2[i] == rest[i - 1]);
                            }
                        }
                        assert forall|i: int| 0 <= i && i + 1 < ks2.len() implies (((
                        #[trigger] ks2[i + 1]).1 is Vis && ks2[i + 1].0
                            == KeyModifiers::spec_empty()) ==> ks2[i].1 is Inv) by {
                            if i == 0 {
                                assert(ks2[1] == rest[0]);
                                if rest.len() > 0 {
                                    assert(!(rest[0].1 is Vis && rest[0].0
                                        == KeyModifiers::spec_empty()));
                                }
                            } else {
                                assert(ks2[i] == rest[i - 1]);
                                assert(ks2[i + 1] == rest[i]);
                            }
                        }
                        assert(spec_reps_text(ks2).len() < s.len());
                        lemma_reps_parse_back(ks2);
                        let q = spec_parse_seq(spec_reps_text(ks2))->Ok_0;
                        assert(spec_parse_seq(s) matches Ok(p) && p.0 == seq![(
                            k0.0,
                            KindRep::Vis(t0),
                        )] + q.0 && p.1 == c + q.1);
                        lemma_reps_atoms_cons((k0.0, KindRep::Vis(t0)), q.0);
                        lemma_reps_atoms_cons((k0.0, KindRep::Vis(t1)), rest);
                        lemma_vis_atoms_split(k0.0, t);
                        assert(rep_atoms(k0) == rep_atoms((k0.0, KindRep::Vis(t))));
                        assert(reps_atoms(seq![(k0.0, KindRep::Vis(t0))] + q.0) =~= rep_atoms(k0)
                            + reps_atoms(rest));
                    }
                }
            },
        }
        assert(reps_atoms(ks) == rep_atoms(k0) + reps_atoms(rest));
    }
}

/// The parse-level view of one press.
pub open spec fn key_rep(k: Key) -> (KeyModifiers, KindRep) {
    (
        k.mods,
        match k.kind {
            KeyKind::Invisible(i) => KindRep::Inv(i),
            KeyKind::Visible(s) => KindRep::Vis(s@),
        },
    )
}

/// The parse-level view of a run of presses.
pub open spec fn keys_reps(keys: Seq<Key>) -> Seq<(KeyModifiers, KindRep)>
    decreases keys.len(),
{
    if keys.len() == 0 {
        Seq::empty()
    } else {
        seq![key_rep(keys[0])] + keys_reps(keys.drop_first())
    }
}

pub proof fn lemma_keys_reps_index(keys: Seq<Key>)
    ensures
        keys_reps(keys).len() == keys.len(),
        forall|i: int| 0 <= i < keys.len() ==> #[trigger] keys_reps(keys)[i] == key_rep(keys[i]),
    decreases keys.len(),
{
    if keys.len() > 0 {
        lemma_keys_reps_index(keys.drop_first());
        assert forall|i: int| 0 <= i < keys.len() implies #[trigger] keys_reps(keys)[i] == key_rep(
            keys[i],
        ) by {
            if i > 0 {
                assert(keys_reps(keys)[i] == keys_reps(keys.drop_first())[i - 1]);
                assert(keys.drop_first()[i - 1] == keys[i]);
            }
        }
    }
}

pub proof fn lemma_keys_reps_text(keys: Seq<Key>)
    ensures
        spec_seq_text(keys) == spec_reps_text(keys_reps(keys)),
    decreases keys.len(),
{
    if keys.len() > 0 {
        lemma_keys_reps_text(keys.drop_first());
        let reps = keys_reps(keys);
        assert(reps[0] == key_rep(keys[0]));
        assert(reps.drop_first() =~= keys_reps(keys.drop_first()));
        assert(spec_key_text(keys[0]) == spec_rep_text(key_rep(keys[0])));
        assert(spec_seq_text(keys) =~= spec_reps_text(reps));
    }
}

pub proof fn lemma_keys_reps_atoms(keys: Seq<Key>)
    ensures
        keys_atoms(keys) == reps_atoms(keys_reps(keys)),
    decreases keys.len(),
{
    if keys.len() > 0 {
        lemma_keys_reps_atoms(keys.drop_first());
        let reps = keys_reps(keys);
        assert(reps[0] == key_rep(keys[0]));
        assert(reps.drop_first() =~= keys_reps(keys.drop_first()));
        assert(key_atoms(keys[0]) =~= rep_atoms(key_rep(keys[0])));
        assert(keys_atoms(keys) =~= reps_atoms(reps));
    }
}

/// The runs of presses whose printed form reads back: every textual
/// press holds at least one character, and a textual press without
/// modifiers never directly follows a textual press.  (A modifier-less
/// textual press after a textual press would have its characters read
/// as part of the preceding run.)
pub open spec fn displayable(keys: Seq<Key>) -> bool {
    &&& forall|i: int|
        0 <= i < keys.len() ==> ((#[trigger] keys[i]).kind is Visible
            ==> keys[i].kind->Visible_0@.len() > 0)
    &&& forall|i: int|
        0 <= i && i + 1 < keys.len() ==> (((#[trigger] keys[i + 1]).kind is Visible && keys[i
            + 1].mods == KeyModifiers::spec_empty()) ==> keys[i].kind is Invisible)
}

/// Round-trip law: for every displayable run of presses, parsing the
/// printed form succeeds, consumes the whole text, and yields presses
/// that denote the same input, unit by unit.
pub proof fn lemma_parse_display_round_trip(keys: Seq<Key>)
    requires
        displayable(keys),
    ensures
        spec_parse_seq(spec_seq_text(keys)) matches Ok(p) && p.1 == spec_seq_text(keys).len()
            && reps_atoms(p.0) == keys_atoms(keys),
{
    let reps = keys_reps(keys);
    lemma_keys_reps_index(keys);
    lemma_keys_reps_text(keys);
    lemma_keys_reps_atoms(keys);
    assert forall|i: int| 0 <= i < reps.len() implies ((#[trigger] reps[i]).1 is Vis ==> reps[
        i
    ].1->Vis_0.len() > 0) by {
        assert(reps[i] == key_rep(keys[i]));
    }
    assert forall|i: int| 0 <= i && i + 1 < reps.len() implies (((#[trigger] reps[i + 1]).1 is Vis
        && reps[i + 1].0 == KeyModifiers::spec_empty()) ==> reps[i].1 is Inv) by {
        assert(reps[i] == key_rep(keys[i]));
        assert(reps[i + 1] == key_rep(keys[i + 1]));
    }
    lemma_reps_parse_back(reps);
}

/// Two characters with one code point are one character.
proof fn lemma_char_inj(x: char, y: char)
    requires
        x as u32 == y as u32,
    ensures
        x == y,
{
}

/// No two adjacent elements of the run could be merged.
pub open spec fn no_mergeable_adjacent(keys: Seq<Key>) -> bool {
    forall|i: int|
        0 <= i && i + 1 < keys.len() ==> !keys_mergeable(#[trigger] keys[i], keys[i + 1])
}

/// Every textual element of the run holds at least one character.
pub open spec fn no_empty_texts(keys: Seq<Key>) -> bool {
    forall|i: int|
        0 <= i < keys.len() ==> ((#[trigger] keys[i]).kind is Visible
            ==> keys[i].kind->Visible_0@.len() > 0)
}

/// A run in merged form is pinned down by its atoms: two such runs
/// that denote the same presses are the same, element by element.
pub proof fn lemma_canonical_form(a: Seq<Key>, b: Seq<Key>)
    requires
        no_mergeable_adjacent(a),
        no_mergeable_adjacent(b),
        no_empty_texts(a),
        no_empty_texts(b),
        keys_atoms(a) == keys_atoms(b),
    ensures
        a.len() == b.len(),
        forall|i: int| 0 <= i < a.len() ==> #[trigger] a[i].spec_same(b[i]),
    decreases a.len(), 1int,
{
    if a.len() == 0 {
        if b.len() > 0 {
            assert(key_atoms(b[0]).len() >= 1);
            assert(keys_atoms(b).len() >= key_atoms(b[0]).len());
        }
    } else if b.len() == 0 {
        assert(key_atoms(a[0]).len() >= 1);
        assert(keys_atoms(a).len() >= key_atoms(a[0]).len());
    } else {
        let la = key_atoms(a[0]).len() as int;
        let lb = key_atoms(b[0]).len() as int;
        assert(la >= 1 && lb >= 1);
        assert(keys_atoms(a) == key_atoms(a[0]) + keys_atoms(a.drop_first()));
        assert(keys_atoms(b) == key_atoms(b[0]) + keys_atoms(b.drop_first()));
        assert(keys_atoms(a)[0] == key_atoms(a[0])[0]);
        assert(keys_atoms(b)[0] == key_atoms(b[0])[0]);
        match (a[0].kind, b[0].kind) {
            (KeyKind::Invisible(x), KeyKind::Invisible(y)) => {
                assert(key_atoms(a[0])[0] == (KeyAtom {
                    mods: a[0].mods,
                    sym: KeySym::Named(x),
                }));
                assert(key_atoms(b[0])[0] == (KeyAtom {
                    mods: b[0].mods,
                    sym: KeySym::Named(y),
                }));
                assert(a[0].spec_same(b[0]));
                lemma_canonical_tail(a, b);
            },
            (KeyKind::Invisible(x), KeyKind::Visible(t)) => {
                assert(key_atoms(a[0])[0].sym is Named);
                assert(key_atoms(b[0])[0].sym is Ch);
            },
            (KeyKind::Visible(t), KeyKind::Invisible(y)) => {
                assert(key_atoms(a[0])[0].sym is Ch);
                assert(key_atoms(b[0])[0].sym is Named);
            },
            (KeyKind::Visible(ta), KeyKind::Visible(tb)) => {
                assert(a[0].mods == b[0].mods);
                lemma_run_lengths_agree(a, b);
                lemma_run_lengths_agree(b, a);
                assert(la == lb);
                assert forall|i: int| 0 <= i < ta@.len() implies ta@[i] == tb@[i] by {
                    assert(keys_atoms(a)[i] == key_atoms(a[0])[i]);
                    assert(keys_atoms(b)[i] == key_atoms(b[0])[i]);
                    assert(key_atoms(a[0])[i] == (KeyAtom {
                        mods: a[0].mods,
                        sym: KeySym::Ch(ta@[i] as u32),
                    }));
                    assert(key_atoms(b[0])[i] == (KeyAtom {
                        mods: b[0].mods,
                        sym: KeySym::Ch(tb@[i] as u32),
                    }));
                    lemma_char_inj(ta@[i], tb@[i]);
                }
                assert(ta@ =~= tb@);
                assert(a[0].spec_same(b[0]));
                lemma_canonical_tail(a, b);
            },
        }
    }
}

/// When both runs open with a textual element under the same
/// modifiers, the first one's text is no longer than the other's: one
/// character past it, the atoms must disagree.
proof fn lemma_run_lengths_agree(a: Seq<Key>, b: Seq<Key>)
    requires
        no_mergeable_adjacent(a),
        no_mergeable_adjacent(b),
        no_empty_texts(a),
        no_empty_texts(b),
        a.len() > 0,
        b.len() > 0,
        keys_atoms(a) == keys_atoms(b),
        a[0].kind is Visible,
        b[0].kind is Visible,
        a[0].mods == b[0].mods,
    ensures
        key_atoms(a[0]).len() <= key_atoms(b[0]).len(),
{
    let la = key_atoms(a[0]).len() as int;
    let lb = key_atoms(b[0]).len() as int;
    if la > lb {
        // the atom at position lb continues a's first text run, but on
        // b's side it opens b's second element, which cannot be a text
        // run under the same modifiers
        assert(keys_atoms(a) == key_atoms(a[0]) + keys_atoms(a.drop_first()));
        assert(keys_atoms(b) == key_atoms(b[0]) + keys_atoms(b.drop_first()));
        assert(keys_atoms(a)[lb] == key_atoms(a[0])[lb]);
        assert(keys_atoms(a)[lb].mods == a[0].mods && keys_atoms(a)[lb].sym is Ch);
        if b.len() == 1 {
            assert(b.drop_first() =~= Seq::<Key>::empty());
            assert(keys_atoms(b.drop_first()) =~= Seq::<KeyAtom>::empty());
            assert(keys_atoms(b).len() == lb);
            assert(keys_atoms(a).len() >= la);
        } else {
            lemma_keys_atoms_drop_first_index(b, lb);
            assert(key_atoms(b[1]).len() >= 1);
            assert(keys_atoms(b)[lb] == key_atoms(b[1])[0]);
            assert(!keys_mergeable(b[0], b[1]));
            match b[1].kind {
                KeyKind::Invisible(_) => {
                    assert(key_atoms(b[1])[0].sym is Named);
                },
                KeyKind::Visible(_) => {
                    assert(b[1].mods != b[0].mods);
                    assert(key_atoms(b[1])[0].mods == b[1].mods);
                },
            }
        }
    }
}

/// The atoms right after the first element's are the second element's.
proof fn lemma_keys_atoms_drop_first_index(s: Seq<Key>, p: int)
    requires
        s.len() >= 2,
        p == key_atoms(s[0]).len(),
    ensures
        keys_atoms(s).len() >= p + key_atoms(s[1]).len(),
        keys_atoms(s)[p] == key_atoms(s[1])[0] || key_atoms(s[1]).len() == 0,
{
    assert(keys_atoms(s) == key_atoms(s[0]) + keys_atoms(s.drop_first()));
    assert(keys_atoms(s.drop_first()) == key_atoms(s.drop_first()[0]) + keys_atoms(
        s.drop_first().drop_first(),
    ));
    assert(s.drop_first()[0] == s[1]);
    if key_atoms(s[1]).len() > 0 {
        assert(keys_atoms(s.drop_first())[0] == key_atoms(s[1])[0]);
        assert(keys_atoms(s)[p] == keys_atoms(s.drop_first())[0]);
    }
}

/// Recurse past equal first elements.
proof fn lemma_canonical_tail(a: Seq<Key>, b: Seq<Key>)
    requires
        no_mergeable_adjacent(a),
        no_mergeable_adjacent(b),
        no_empty_texts(a),
        no_empty_texts(b),
        a.len() > 0,
        b.len() > 0,
        keys_atoms(a) == keys_atoms(b),
        key_atoms(a[0]) == key_atoms(b[0]),
        a[0].spec_same(b[0]),
    ensures
        a.len() == b.len(),
        forall|i: int| 0 <= i < a.len() ==> #[trigger] a[i].spec_same(b[i]),
    decreases a.len(), 0int,
{
    let ta = a.drop_first();
    let tb = b.drop_first();
    assert forall|i: int| 0 <= i && i + 1 < ta.len() implies !keys_mergeable(
        #[trigger] ta[i],
        ta[i + 1],
    ) by {
        assert(ta[i] == a[i + 1]);
        assert(ta[i + 1] == a[i + 2]);
    }
    assert forall|i: int| 0 <= i && i + 1 < tb.len() implies !keys_mergeable(
        #[trigger] tb[i],
        tb[i + 1],
    ) by {
        assert(tb[i] == b[i + 1]);
        assert(tb[i + 1] == b[i + 2]);
    }
    assert forall|i: int| 0 <= i < ta.len() implies ((#[trigger] ta[i]).kind is Visible ==> ta[
        i
    ].kind->Visible_0@.len() > 0) by {
        assert(ta[i] == a[i + 1]);
    }
    assert forall|i: int| 0 <= i < tb.len() implies ((#[trigger] tb[i]).kind is Visible ==> tb[
        i
    ].kind->Visible_0@.len() > 0) by {
        assert(tb[i] == b[i + 1]);
    }
    assert(keys_atoms(a) == key_atoms(a[0]) + keys_atoms(ta));
    assert(keys_atoms(b) == key_atoms(b[0]) + keys_atoms(tb));
    assert(keys_atoms(ta) =~= keys_atoms(tb)) by {
        let n = key_atoms(a[0]).len() as int;
        assert(keys_atoms(ta).len() == keys_atoms(a).len() - n);
        assert(keys_atoms(tb).len() == keys_atoms(b).len() - n);
        assert forall|i: int| 0 <= i < keys_atoms(ta).len() implies keys_atoms(ta)[i]
            == keys_atoms(tb)[i] by {
            assert(keys_atoms(a)[n + i] == keys_atoms(ta)[i]);
            assert(keys_atoms(b)[n + i] == keys_atoms(tb)[i]);
        }
    }
    lemma_canonical_form(ta, tb);
    assert forall|i: int| 0 <= i < a.len() implies #[trigger] a[i].spec_same(b[i]) by {
        if i > 0 {
            assert(ta[i - 1].spec_same(tb[i - 1]));
            assert(ta[i - 1] == a[i]);
            assert(tb[i - 1] == b[i]);
        }
    }
}

/// Round-trip law: for every displayable run of presses in merged
/// form, parsing the printed form succeeds, consumes the whole text,
/// and any merged run holding what was parsed is the original run
/// itself, element by element.
pub proof fn lemma_parse_display_gives_back(keys: Seq<Key>, parsed: Seq<Key>)
    requires
        displayable(keys),
        no_mergeable_adjacent(keys),
        no_mergeable_adjacent(parsed),
        no_empty_texts(parsed),
        keys_atoms(parsed) == reps_atoms(spec_parse_seq(spec_seq_text(keys))->Ok_0.0),
    ensures
        spec_parse_seq(spec_seq_text(keys)) is Ok,
        spec_parse_seq(spec_seq_text(keys))->Ok_0.1 == spec_seq_text(keys).len(),
        parsed.len() == keys.len(),
        forall|i: int| 0 <= i < keys.len() ==> #[trigger] parsed[i].spec_same(keys[i]),
    decreases keys.len(),
{
    lemma_parse_display_round_trip(keys);
    assert(keys_atoms(parsed) == keys_atoms(keys));
    lemma_canonical_form(parsed, keys);
}

} // verus!
