//! The input reducer: the one mutation path of an [`EditorState`].  Every
//! transition of the screen state machine is given by [`spec_step`], and
//! [`EditorState::handle_input`] is proved to follow it.

use vstd::prelude::*;

use crate::state::{
    EditingField, EditorState, EditorStateView, Screen, ScreenView, lemma_map_insert_wf,
    map_insert, map_wf,
};
use crate::strbuf::{pop_char, push_char};
use vstd::string::StrSliceExecFns;

verus! {

/// A key press forwarded by the event loop.  Keys other than printable
/// characters, backspace, tab, enter and escape arrive as `Other`.
#[derive(Clone, Copy, Debug, PartialEq, Eq)]
pub enum InputEvent {
    Char(char),
    Backspace,
    Tab,
    Enter,
    Esc,
    Other,
}

/// What the event loop must do after a transition: nothing, or stop polling
/// and emit the serialized mapping.
#[derive(Clone, Copy, Debug, PartialEq, Eq, Structural)]
pub enum Effect {
    Nothing,
    RequestQuit,
}

/// The transition table: the next state and side effect for every state and
/// every input event.
pub open spec fn spec_step(s: EditorStateView, ev: InputEvent) -> (EditorStateView, Effect) {
    match s.screen {
        ScreenView::Main => (
            EditorStateView {
                mapping: s.mapping,
                screen: match ev {
                    InputEvent::Char(c) => if c == 'q' {
                        ScreenView::Exiting
                    } else if c == 'e' {
                        ScreenView::Editing {
                            field: EditingField::Key,
                            pending_key: Seq::empty(),
                            pending_value: Seq::empty(),
                        }
                    } else {
                        ScreenView::Main
                    },
                    _ => ScreenView::Main,
                },
            },
            Effect::Nothing,
        ),
        ScreenView::Exiting => (
            EditorStateView { mapping: s.mapping, screen: ScreenView::Main },
            match ev {
                InputEvent::Char(c) => if c == 'y' {
                    Effect::RequestQuit
                } else {
                    Effect::Nothing
                },
                _ => Effect::Nothing,
            },
        ),
        ScreenView::Editing { field, pending_key, pending_value } => match ev {
            InputEvent::Char(c) => (
                EditorStateView {
                    mapping: s.mapping,
                    screen: match field {
                        EditingField::Key => ScreenView::Editing {
                            field,
                            pending_key: pending_key.push(c),
                            pending_value,
                        },
                        EditingField::Vale => ScreenView::Editing {
                            field,
                            pending_key,
                            pending_value: pending_value.push(c),
                        },
                    },
                },
                Effect::Nothing,
            ),
            InputEvent::Backspace => (
                EditorStateView {
                    mapping: s.mapping,
                    screen: match field {
                        EditingField::Key => ScreenView::Editing {
                            field,
                            pending_key: if pending_key.len() > 0 {
                                pending_key.drop_last()
                            } else {
                                pending_key
                            },
                            pending_value,
                        },
                        EditingField::Vale => ScreenView::Editing {
                            field,
                            pending_key,
                            pending_value: if pending_value.len() > 0 {
                                pending_value.drop_last()
                            } else {
                                pending_value
                            },
                        },
                    },
                },
                Effect::Nothing,
            ),
            InputEvent::Tab => (
                EditorStateView {
                    mapping: s.mapping,
                    screen: ScreenView::Editing {
                        field: match field {
                            EditingField::Key => EditingField::Vale,
                            EditingField::Vale => EditingField::Key,
                        },
                        pending_key,
                        pending_value,
                    },
                },
                Effect::Nothing,
            ),
            InputEvent::Enter => match field {
                EditingField::Key => (
                    EditorStateView {
                        mapping: s.mapping,
                        screen: ScreenView::Editing {
                            field: EditingField::Vale,
                            pending_key,
                            pending_value,
                        },
                    },
                    Effect::Nothing,
                ),
                EditingField::Vale => (
                    EditorStateView {
                        mapping: if pending_key.len() > 0 {
                            map_insert(s.mapping, pending_key, pending_value)
                        } else {
                            s.mapping
                        },
                        screen: ScreenView::Main,
                    },
                    Effect::Nothing,
                ),
            },
            InputEvent::Esc => (
                EditorStateView { mapping: s.mapping, screen: ScreenView::Main },
                Effect::Nothing,
            ),
            InputEvent::Other => (s, Effect::Nothing),
        },
    }
}

impl EditorState {
    /// Apply one input event: step the screen state machine, edit the scratch
    /// buffers, and on enter from the value field commit the pending pair.
    /// Returns the side effect the event loop must honor.
    pub fn handle_input(&mut self, ev: InputEvent) -> (eff: Effect)
        requires
            old(self).wf(),
        ensures
            final(self).wf(),
            final(self)@ == spec_step(old(self)@, ev).0,
            eff == spec_step(old(self)@, ev).1,
    {
        let mut screen = Screen::Main;
        core::mem::swap(&mut self.screen, &mut screen);
        match screen {
            Screen::Main => {
                match ev {
                    InputEvent::Char(c) => {
                        if c == 'q' {
                            self.screen = Screen::Exiting;
                        } else if c == 'e' {
                            self.screen = Screen::Editing {
                                field: EditingField::Key,
                                pending_key: String::new(),
                                pending_value: String::new(),
                            };
                        }
                    },
                    _ => {},
                }
                proof {
                    assert(self@ =~~= spec_step(old(self)@, ev).0);
                }
                Effect::Nothing
            },
            Screen::Exiting => {
                let quit: bool = match ev {
                    InputEvent::Char(c) => c == 'y',
                    _ => false,
                };
                proof {
                    assert(self@ =~~= spec_step(old(self)@, ev).0);
                }
                if quit {
                    Effect::RequestQuit
                } else {
                    Effect::Nothing
                }
            },
            Screen::Editing { field, mut pending_key, mut pending_value } => {
                match ev {
                    InputEvent::Char(c) => {
                        match field {
                            EditingField::Key => push_char(&mut pending_key, c),
                            EditingField::Vale => push_char(&mut pending_value, c),
                        }
                        self.screen = Screen::Editing { field, pending_key, pending_value };
                    },
                    InputEvent::Backspace => {
                        match field {
                            EditingField::Key => {
                                let _dropped = pop_char(&mut pending_key);
                            },
                            EditingField::Vale => {
                                let _dropped = pop_char(&mut pending_value);
                            },
                        }
                        self.screen = Screen::Editing { field, pending_key, pending_value };
                    },
                    InputEvent::Tab => {
                        let next = match field {
                            EditingField::Key => EditingField::Vale,
                            EditingField::Vale => EditingField::Key,
                        };
                        self.screen = Screen::Editing {
                            field: next,
                            pending_key,
                            pending_value,
                        };
                    },
                    InputEvent::Enter => {
                        match field {
                            EditingField::Key => {
                                self.screen = Screen::Editing {
                                    field: EditingField::Vale,
                                    pending_key,
                                    pending_value,
                                };
                            },
                            EditingField::Vale => {
                                if pending_key.as_str().unicode_len() > 0 {
                                    self.insert_pair(pending_key, pending_value);
                                }
                            },
                        }
                    },
                    InputEvent::Esc => {},
                    InputEvent::Other => {
                        self.screen = Screen::Editing { field, pending_key, pending_value };
                    },
                }
                proof {
                    assert(self@ =~~= spec_step(old(self)@, ev).0);
                }
                Effect::Nothing
            },
        }
    }
}

/// Law: the state machine is total.  After any input event in any
/// well-formed state, the screen is exactly one of `Main`, `Editing(Key)`,
/// `Editing(Vale)` or `Exiting`, and the mapping still has unique keys.
pub proof fn lemma_step_total(s: EditorStateView, ev: InputEvent)
    requires
        map_wf(s.mapping),
    ensures
        ({
            let t = spec_step(s, ev).0;
            map_wf(t.mapping) && (t.screen is Main || t.screen is Exiting || (t.screen
                matches ScreenView::Editing { field, .. } && (field is Key || field is Vale)))
        }),
{
    match s.screen {
        ScreenView::Editing { field, pending_key, pending_value } => {
            if field is Vale && ev is Enter && pending_key.len() > 0 {
                lemma_map_insert_wf(s.mapping, pending_key, pending_value);
            }
        },
        _ => {},
    }
}

/// The state after running a whole sequence of input events, first one
/// first.
pub open spec fn spec_run(s: EditorStateView, evs: Seq<InputEvent>) -> EditorStateView
    decreases evs.len(),
{
    if evs.len() == 0 {
        s
    } else {
        spec_run(spec_step(s, evs[0]).0, evs.drop_first())
    }
}

/// Law: after any sequence of input events from a well-formed state, the
/// screen is still exactly one of the four defined modes and the mapping
/// still has unique keys.
pub proof fn lemma_run_total(s: EditorStateView, evs: Seq<InputEvent>)
    requires
        map_wf(s.mapping),
    ensures
        ({
            let t = spec_run(s, evs);
            map_wf(t.mapping) && (t.screen is Main || t.screen is Exiting || (t.screen
                matches ScreenView::Editing { field, .. } && (field is Key || field is Vale)))
        }),
    decreases evs.len(),
{
    if evs.len() == 0 {
        match s.screen {
            ScreenView::Editing { field, .. } => {
                assert(field is Key || field is Vale);
            },
            _ => {},
        }
    } else {
        lemma_step_total(s, evs[0]);
        lemma_run_total(spec_step(s, evs[0]).0, evs.drop_first());
    }
}

/// Law: from `Main`, pressing `e` enters `Editing(Key)` with both scratch
/// buffers empty, and escape then returns to `Main` with the mapping
/// unchanged throughout.
pub proof fn lemma_edit_then_escape_unchanged(s: EditorStateView)
    requires
        s.screen is Main,
    ensures
        ({
            let s1 = spec_step(s, InputEvent::Char('e')).0;
            let s2 = spec_step(s1, InputEvent::Esc).0;
            &&& s1.screen matches ScreenView::Editing { field, pending_key, pending_value }
                && field is Key && pending_key.len() == 0 && pending_value.len() == 0
            &&& s1.mapping == s.mapping
            &&& s2.screen is Main
            &&& s2.mapping == s.mapping
        }),
{
}

/// Law: backspace on an empty scratch buffer is a no-op: the state is
/// unchanged and no effect is emitted.
pub proof fn lemma_backspace_empty_noop(s: EditorStateView)
    requires
        s.screen matches ScreenView::Editing { field, pending_key, pending_value } && (field
            is Key ==> pending_key.len() == 0) && (field is Vale ==> pending_value.len() == 0),
    ensures
        spec_step(s, InputEvent::Backspace).0 =~~= s,
        spec_step(s, InputEvent::Backspace).1 == Effect::Nothing,
{
}

} // verus!
