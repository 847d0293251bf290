//! What a caller sees of a generation: the items of its result stream.

use vstd::prelude::*;
use crate::generation::Action;
use crate::generation::InferenceError;
use crate::worker::Refusal;

verus! {

/// A piece of generated text.
#[derive(Clone, Debug)]
pub struct InferenceToken {
    pub token: String,
    /// Whether this is the final, empty piece.
    pub completed: bool,
}

/// The kind of an item of the result stream.
#[derive(Clone, Copy, Debug, PartialEq, Eq, Structural)]
pub enum InferenceResultType {
    Data,
    End,
    Error,
}

/// An item of the result stream: a piece of text, an error with its message,
/// or the end.
#[derive(Clone, Debug)]
pub struct InferenceResult {
    pub kind: InferenceResultType,
    pub message: Option<String>,
    pub data: Option<InferenceToken>,
}

impl InferenceError {
    /// The message that tells a caller of the error.
    pub open spec fn text(self) -> Seq<char> {
        match self {
            InferenceError::SessionLoad => "Failed to start inference session."@,
            InferenceError::Tokenization => "Tokenization failed."@,
            InferenceError::ContextFull => "Context window full, stopping inference."@,
            InferenceError::Evaluation => "Inference failed."@,
            InferenceError::SnapshotWrite => "Failed to write inference session."@,
        }
    }

    /// The message that tells a caller of the error.
    pub fn message(&self) -> (r: String)
        ensures
            r@ == self.text(),
    {
        match self {
            InferenceError::SessionLoad => "Failed to start inference session.".to_owned(),
            InferenceError::Tokenization => "Tokenization failed.".to_owned(),
            InferenceError::ContextFull => "Context window full, stopping inference.".to_owned(),
            InferenceError::Evaluation => "Inference failed.".to_owned(),
            InferenceError::SnapshotWrite => "Failed to write inference session.".to_owned(),
        }
    }
}

impl InferenceResult {
    /// Whether the item is the piece of text `text`, final or not.
    pub open spec fn is_text(self, text: Seq<char>, completed: bool) -> bool {
        &&& self.kind == InferenceResultType::Data
        &&& self.message is None
        &&& self.data matches Some(piece) && piece.token@ == text && piece.completed == completed
    }

    /// Whether the item is the error `error`.
    pub open spec fn is_error(self, error: InferenceError) -> bool {
        &&& self.kind == InferenceResultType::Error
        &&& self.message matches Some(message) && message@ == error.text()
        &&& self.data is None
    }

    /// Whether the item is the error that tells of `refusal`.
    pub open spec fn is_refusal(self, refusal: Refusal) -> bool {
        &&& self.kind == InferenceResultType::Error
        &&& self.message matches Some(message) && message@ == refusal.text()
        &&& self.data is None
    }

    /// Whether the item is the end of the stream.
    pub open spec fn is_end(self) -> bool {
        &&& self.kind == InferenceResultType::End
        &&& self.message is None
        &&& self.data is None
    }

    /// Whether the item is what `action` reports, with `text` for the text
    /// of its token.
    pub open spec fn reports(self, action: Action, text: Seq<char>) -> bool {
        match action {
            Action::EmitToken(_) => self.is_text(text, false),
            Action::EmitFinal => self.is_text(Seq::empty(), true),
            Action::EmitError(error) => self.is_error(error),
            Action::EmitEnd => self.is_end(),
            _ => false,
        }
    }

    /// The item for a piece of generated text.
    pub fn token(text: String) -> (r: InferenceResult)
        ensures
            r.is_text(text@, false),
    {
        InferenceResult {
            kind: InferenceResultType::Data,
            message: None,
            data: Some(InferenceToken { token: text, completed: false }),
        }
    }

    /// The final item of text: empty, and marked as completing.
    pub fn completed() -> (r: InferenceResult)
        ensures
            r.is_text(Seq::empty(), true),
    {
        InferenceResult {
            kind: InferenceResultType::Data,
            message: None,
            data: Some(InferenceToken { token: String::new(), completed: true }),
        }
    }

    /// The item for an error.
    pub fn error(error: InferenceError) -> (r: InferenceResult)
        ensures
            r.is_error(error),
    {
        InferenceResult {
            kind: InferenceResultType::Error,
            message: Some(error.message()),
            data: None,
        }
    }

    /// The item for a command that was not taken up: an error.
    pub fn refused(refusal: Refusal) -> (r: InferenceResult)
        ensures
            r.is_refusal(refusal),
    {
        InferenceResult {
            kind: InferenceResultType::Error,
            message: Some(refusal.message()),
            data: None,
        }
    }

    /// The item for the end of the stream.
    pub fn end() -> (r: InferenceResult)
        ensures
            r.is_end(),
    {
        InferenceResult { kind: InferenceResultType::End, message: None, data: None }
    }

    /// The item that `action` puts on the stream, with `text` for the text
    /// of its token. There is none for an action that asks the host to do
    /// something, nor for a token that has no text.
    pub fn of_action(action: &Action, text: Option<String>) -> (r: Option<InferenceResult>)
        ensures
            match *action {
                Action::EmitToken(_) => match text {
                    Some(t) => r matches Some(item) && item.reports(*action, t@),
                    None => r is None,
                },
                Action::EmitFinal | Action::EmitError(_) | Action::EmitEnd => r matches Some(item)
                    && item.reports(*action, Seq::empty()),
                _ => r is None,
            },
    {
        match action {
            Action::EmitToken(_) => match text {
                Some(t) => Some(InferenceResult::token(t)),
                None => None,
            },
            Action::EmitFinal => Some(InferenceResult::completed()),
            Action::EmitError(error) => Some(InferenceResult::error(*error)),
            Action::EmitEnd => Some(InferenceResult::end()),
            _ => None,
        }
    }
}

} // verus!
