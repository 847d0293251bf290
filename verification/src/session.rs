//! The state of one conversation with a model.

use vstd::prelude::*;
use crate::TokenId;

verus! {

/// What a session holds, as plain values.
#[verifier::ext_equal]
pub struct SessionView {
    /// The size of the context window the session was made for.
    pub n_ctx: usize,
    /// The tokens the session has taken in, oldest first.
    pub history: Seq<TokenId>,
    /// Whether the engine has evaluated nothing yet for this session.
    pub first_evaluation: bool,
}

/// The state of one conversation: the tokens taken in so far, never more than
/// the context window holds, and whether the engine has yet to evaluate for
/// the first time. The engine's own memory of the conversation stays with the
/// engine.
#[derive(Clone, Debug)]
pub struct Session {
    n_ctx: usize,
    history: Vec<TokenId>,
    first_evaluation: bool,
}

impl View for Session {
    type V = SessionView;

    closed spec fn view(&self) -> SessionView {
        SessionView {
            n_ctx: self.n_ctx,
            history: self.history@,
            first_evaluation: self.first_evaluation,
        }
    }
}

impl Session {
    /// Whether the history fits the context window.
    pub open spec fn wf(&self) -> bool {
        self@.history.len() <= self@.n_ctx
    }

    /// A session that has taken in nothing.
    pub fn new(n_ctx: usize) -> (r: Session)
        ensures
            r.wf(),
            r@.n_ctx == n_ctx,
            r@.history.len() == 0,
            r@.first_evaluation,
    {
        Session { n_ctx, history: Vec::new(), first_evaluation: true }
    }

    /// The session with the given contents; `None` where the history is
    /// longer than the context window.
    pub fn restore(n_ctx: usize, history: Vec<TokenId>, first_evaluation: bool) -> (r: Option<
        Session,
    >)
        ensures
            r is Some <==> history@.len() <= n_ctx,
            r matches Some(s) ==> s.wf() && s@.n_ctx == n_ctx && s@.history == history@
                && s@.first_evaluation == first_evaluation,
    {
        if history.len() <= n_ctx {
            Some(Session { n_ctx, history, first_evaluation })
        } else {
            None
        }
    }

    /// The size of the context window the session was made for.
    pub fn n_ctx(&self) -> (r: usize)
        ensures
            r == self@.n_ctx,
    {
        self.n_ctx
    }

    /// The tokens taken in so far, oldest first.
    pub fn history(&self) -> (r: &Vec<TokenId>)
        ensures
            r@ == self@.history,
    {
        &self.history
    }

    /// The number of tokens taken in so far.
    pub fn len(&self) -> (r: usize)
        ensures
            r == self@.history.len(),
    {
        self.history.len()
    }

    /// Whether the engine has evaluated nothing yet for this session.
    pub fn is_first_evaluation(&self) -> (r: bool)
        ensures
            r == self@.first_evaluation,
    {
        self.first_evaluation
    }

    /// The number of tokens the window still has room for.
    pub fn remaining(&self) -> (r: usize)
        requires
            self.wf(),
        ensures
            r == self@.n_ctx - self@.history.len(),
    {
        self.n_ctx - self.history.len()
    }

    /// Takes in `tokens`, in order.
    pub(crate) fn extend(&mut self, tokens: &Vec<TokenId>)
        requires
            old(self)@.history.len() + tokens@.len() <= old(self)@.n_ctx,
        ensures
            final(self)@.n_ctx == old(self)@.n_ctx,
            final(self)@.first_evaluation == old(self)@.first_evaluation,
            final(self)@.history == old(self)@.history + tokens@,
    {
        let mut i: usize = 0;
        while i < tokens.len()
            invariant
                i <= tokens@.len(),
                self.n_ctx == old(self).n_ctx,
                self.first_evaluation == old(self).first_evaluation,
                self.history@ == old(self).history@ + tokens@.subrange(0, i as int),
            decreases tokens@.len() - i,
        {
            self.history.push(tokens[i]);
            proof {
                assert(self.history@ =~= old(self).history@ + tokens@.subrange(0, i + 1));
            }
            i += 1;
        }
        proof {
            assert(tokens@.subrange(0, tokens@.len() as int) =~= tokens@);
        }
    }

    /// Takes in one token.
    pub(crate) fn push(&mut self, token: TokenId)
        requires
            old(self)@.history.len() < old(self)@.n_ctx,
        ensures
            final(self)@.n_ctx == old(self)@.n_ctx,
            final(self)@.first_evaluation == old(self)@.first_evaluation,
            final(self)@.history == old(self)@.history.push(token),
    {
        self.history.push(token);
    }

    /// Records that the engine has evaluated.
    pub(crate) fn mark_evaluated(&mut self)
        ensures
            final(self)@.n_ctx == old(self)@.n_ctx,
            final(self)@.history == old(self)@.history,
            !final(self)@.first_evaluation,
    {
        self.first_evaluation = false;
    }
}

} // verus!
