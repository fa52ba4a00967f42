//! Widget-independent data cores of the interface dialogs and screens.
//!
//! The widget trees, event plumbing and navigation live outside the
//! library; these types carry the data they render and hand back.
use crate::game::WorldDescription;
use vstd::prelude::*;

verus! {

/// A yes/no question: the message shown and the answers to hand back.
#[derive(Debug, Clone)]
pub struct ConfirmDialog<M> {
    pub message: String,
    pub yes_msg: Option<M>,
    pub no_msg: Option<M>,
}

impl<M> ConfirmDialog<M> {
    pub fn new(message: String, yes_msg: Option<M>, no_msg: Option<M>) -> (r: Self)
        ensures
            r.message == message,
            r.yes_msg == yes_msg,
            r.no_msg == no_msg,
    {
        Self { message, yes_msg, no_msg }
    }
}

/// A one-line input prompt: a title, the text entered so far, a
/// placeholder, and the action to run on save.
#[derive(Debug, Clone)]
pub struct InputDialog<F> {
    pub title: String,
    pub input: String,
    pub placeholder: String,
    pub on_save: F,
}

impl<F> InputDialog<F> {
    pub fn new(title: String, placeholder: String, on_save: F) -> (r: Self)
        ensures
            r.title == title,
            r.placeholder == placeholder,
            r.input@ == Seq::<char>::empty(),
            r.on_save == on_save,
    {
        Self { title, input: String::new(), placeholder, on_save }
    }
}

/// An error notice to acknowledge.
#[derive(Debug, Clone)]
pub struct ErrorDialog {
    pub message: String,
}

impl ErrorDialog {
    pub fn new(message: String) -> (r: Self)
        ensures
            r.message == message,
    {
        Self { message }
    }
}

/// The screen for picking a character and starting a session in a world.
#[derive(Debug, Clone)]
pub struct StartNewGame {
    pub world: WorldDescription,
}

impl StartNewGame {
    pub fn new(world: WorldDescription) -> (r: Self)
        ensures
            r.world == world,
    {
        Self { world }
    }
}

} // verus!
