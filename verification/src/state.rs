//! The editor's data model: the committed key-value mapping, the screen mode,
//! and the scratch buffers of the pair currently being typed.

use vstd::prelude::*;

verus! {

/// Which scratch buffer receives keystrokes while a pair is being composed.
#[derive(Clone, Copy, Debug, PartialEq, Eq, Structural)]
pub enum EditingField {
    Key,
    Vale,
}

/// One committed key-value pair.
#[derive(Clone, Debug)]
pub struct Pair {
    pub key: String,
    pub value: String,
}

/// Ghost image of a [`Pair`]: both strings as character sequences.
#[verifier::ext_equal]
pub struct PairView {
    pub key: Seq<char>,
    pub value: Seq<char>,
}

impl View for Pair {
    type V = PairView;

    open spec fn view(&self) -> PairView {
        PairView { key: self.key@, value: self.value@ }
    }
}

/// The top-level interaction mode.  The scratch buffers live inside the
/// `Editing` variant, so they exist exactly while a pair is being composed.
#[derive(Debug)]
pub enum Screen {
    Main,
    Editing { field: EditingField, pending_key: String, pending_value: String },
    Exiting,
}

/// Ghost image of a [`Screen`], with the scratch buffers as character
/// sequences.
#[verifier::ext_equal]
pub enum ScreenView {
    Main,
    Editing { field: EditingField, pending_key: Seq<char>, pending_value: Seq<char> },
    Exiting,
}

impl View for Screen {
    type V = ScreenView;

    open spec fn view(&self) -> ScreenView {
        match self {
            Screen::Main => ScreenView::Main,
            Screen::Editing { field, pending_key, pending_value } => ScreenView::Editing {
                field: *field,
                pending_key: pending_key@,
                pending_value: pending_value@,
            },
            Screen::Exiting => ScreenView::Exiting,
        }
    }
}

/// The sequence of pair images underlying a sequence of pairs.
pub open spec fn pairs_view(s: Seq<Pair>) -> Seq<PairView> {
    Seq::new(s.len(), |i: int| s[i]@)
}

/// Whether the mapping holds an entry for key `k`.
pub open spec fn map_has_key(m: Seq<PairView>, k: Seq<char>) -> bool {
    exists|i: int| 0 <= i < m.len() && m[i].key == k
}

/// The position of key `k` in the mapping; meaningful only when
/// `map_has_key(m, k)` holds and the keys of `m` are unique.
pub open spec fn map_key_index(m: Seq<PairView>, k: Seq<char>) -> int {
    choose|i: int| 0 <= i < m.len() && m[i].key == k
}

/// The mapping invariant: keys are pairwise distinct.
pub open spec fn map_wf(m: Seq<PairView>) -> bool {
    forall|i: int, j: int| 0 <= i < j < m.len() ==> m[i].key != m[j].key
}

/// Insert-or-overwrite: an existing key keeps its position and gets the new
/// value; a new key is appended at the end.
pub open spec fn map_insert(m: Seq<PairView>, k: Seq<char>, v: Seq<char>) -> Seq<PairView> {
    if map_has_key(m, k) {
        m.update(map_key_index(m, k), PairView { key: k, value: v })
    } else {
        m.push(PairView { key: k, value: v })
    }
}

/// Inserting preserves uniqueness of keys.
pub proof fn lemma_map_insert_wf(m: Seq<PairView>, k: Seq<char>, v: Seq<char>)
    requires
        map_wf(m),
    ensures
        map_wf(map_insert(m, k, v)),
{
    if map_has_key(m, k) {
        let t = map_key_index(m, k);
        assert(0 <= t < m.len() && m[t].key == k);
        assert forall|i: int, j: int|
            0 <= i < j < map_insert(m, k, v).len() implies map_insert(m, k, v)[i].key
            != map_insert(m, k, v)[j].key by {
            assert(m[i].key != m[j].key);
        }
    }
}

/// After an insert, the inserted key is bound to the new value, every pair
/// with another key stands unchanged at its old position, and the mapping
/// grows only when the key was new.
pub proof fn lemma_map_insert_semantics(m: Seq<PairView>, k: Seq<char>, v: Seq<char>)
    requires
        map_wf(m),
    ensures
        ({
            let m1 = map_insert(m, k, v);
            &&& map_has_key(m1, k)
            &&& 0 <= map_key_index(m1, k) < m1.len()
            &&& m1[map_key_index(m1, k)] == (PairView { key: k, value: v })
            &&& m1.len() == if map_has_key(m, k) {
                m.len()
            } else {
                m.len() + 1
            }
            &&& forall|i: int|
                0 <= i < m1.len() && m1[i].key != k ==> 0 <= i < m.len() && m1[i] == m[i]
        }),
{
    let m1 = map_insert(m, k, v);
    if map_has_key(m, k) {
        let t = map_key_index(m, k);
        assert(0 <= t < m.len() && m[t].key == k);
        assert(m1[t].key == k);
        assert(map_has_key(m1, k));
        let t1 = map_key_index(m1, k);
        assert(0 <= t1 < m1.len() && m1[t1].key == k);
        if t1 != t {
            assert(m1[t1] == m[t1]);
            if t1 < t {
                assert(m[t1].key != m[t].key);
            } else {
                assert(m[t].key != m[t1].key);
            }
        }
    } else {
        let t = m.len() as int;
        assert(m1[t].key == k);
        assert(map_has_key(m1, k));
        let t1 = map_key_index(m1, k);
        assert(0 <= t1 < m1.len() && m1[t1].key == k);
        if t1 != t {
            assert(m1[t1] == m[t1]);
            assert(map_has_key(m, k));
        }
    }
}

/// Ghost image of the whole editor: the mapping in insertion order and the
/// current screen.
#[verifier::ext_equal]
pub struct EditorStateView {
    pub mapping: Seq<PairView>,
    pub screen: ScreenView,
}

/// The editor: the committed mapping plus the current screen.  Collaborators
/// such as a renderer read it through a shared reference; the input reducer is
/// the only mutation path.
#[derive(Debug)]
pub struct EditorState {
    pub pairs: Vec<Pair>,
    pub screen: Screen,
}

impl View for EditorState {
    type V = EditorStateView;

    open spec fn view(&self) -> EditorStateView {
        EditorStateView { mapping: pairs_view(self.pairs@), screen: self.screen@ }
    }
}

/// The editing field currently receiving keystrokes, if any; `None` exactly
/// when the screen is not `Editing`.
pub open spec fn spec_editing_field(s: ScreenView) -> Option<EditingField> {
    match s {
        ScreenView::Editing { field, .. } => Some(field),
        _ => None,
    }
}

impl EditorState {
    /// The mapping invariant: committed keys are pairwise distinct.
    pub open spec fn wf(&self) -> bool {
        map_wf(self@.mapping)
    }

    /// A fresh editor: empty mapping, `Main` screen, nothing being edited.
    pub fn new() -> (s: EditorState)
        ensures
            s@.mapping =~= Seq::<PairView>::empty(),
            s@.screen == ScreenView::Main,
            s.wf(),
    {
        EditorState { pairs: Vec::new(), screen: Screen::Main }
    }

    /// Read-only view of the committed pairs, in insertion order.
    pub fn snapshot_pairs(&self) -> (r: &Vec<Pair>)
        ensures
            pairs_view(r@) == self@.mapping,
    {
        &self.pairs
    }

    /// Read-only view of the current screen.
    pub fn screen(&self) -> (r: &Screen)
        ensures
            r@ == self@.screen,
    {
        &self.screen
    }

    /// The field receiving keystrokes; `None` whenever the screen is not
    /// `Editing`.
    pub fn editing_field(&self) -> (r: Option<EditingField>)
        ensures
            r == spec_editing_field(self@.screen),
    {
        match &self.screen {
            Screen::Editing { field, .. } => Some(*field),
            _ => None,
        }
    }

    /// Commit one pair: overwrite the value of an existing key in place, or
    /// append a new pair at the end.
    pub(crate) fn insert_pair(&mut self, key: String, value: String)
        requires
            old(self).wf(),
        ensures
            final(self).wf(),
            final(self)@.mapping == map_insert(old(self)@.mapping, key@, value@),
            final(self)@.screen == old(self)@.screen,
    {
        let ghost m = pairs_view(old(self).pairs@);
        let n: usize = self.pairs.len();
        let mut i: usize = 0;
        while i < n
            invariant
                0 <= i <= n,
                n == self.pairs@.len(),
                self.pairs@ == old(self).pairs@,
                self.screen@ == old(self).screen@,
                m == pairs_view(self.pairs@),
                m.len() == n,
                map_wf(m),
                forall|j: int| 0 <= j < i ==> self.pairs@[j]@.key != key@,
            decreases n - i,
        {
            if self.pairs[i].key == key {
                proof {
                    assert(0 <= i < m.len());
                    assert(self.pairs@[i as int].key@ == key@);
                    assert(m[i as int] == self.pairs@[i as int]@);
                    assert(m[i as int].key == key@);
                    assert(map_has_key(m, key@));
                    let t = map_key_index(m, key@);
                    assert(0 <= t < m.len() && m[t].key == key@);
                    if t < i {
                        assert(m[t].key != m[i as int].key);
                    }
                    if i < t {
                        assert(m[i as int].key != m[t].key);
                    }
                    assert(t == i as int);
                }
                let _removed = self.pairs.remove(i);
                self.pairs.insert(i, Pair { key, value });
                proof {
                    let p = PairView { key: key@, value: value@ };
                    assert(pairs_view(self.pairs@) =~= m.update(i as int, p));
                    assert(map_insert(m, key@, value@) == m.update(i as int, p));
                    lemma_map_insert_wf(m, key@, value@);
                }
                return;
            }
            i += 1;
        }
        proof {
            assert(!map_has_key(m, key@));
        }
        self.pairs.push(Pair { key, value });
        proof {
            let p = PairView { key: key@, value: value@ };
            assert(pairs_view(self.pairs@) =~= m.push(p));
            lemma_map_insert_wf(m, key@, value@);
        }
    }
}

} // verus!
