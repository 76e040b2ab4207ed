//! Password assembly: a walk that never ends, in step with the entropy estimate.
//!
//! A walk over a model ends in a state without a way out. For a password of
//! any length the walk is wrapped: where it ends, a new walk begins in the
//! start state. The assembly runs such a wrapped walk and the estimator side
//! by side, one step of each at a time, and collects the tokens. Its caller
//! adds up the entropy of the steps and stops when there is enough of it.

use crate::bigram::{
    outgoing, step, BigramGeneratorIter, BigramModel, BigramState, DistView, ModelView, StateView,
};
use crate::entropy::{advance, advance_states, dist_view, initial};
use crate::table::{is_table, width, QuantizedTable};
use vstd::prelude::*;
use vstd::string::StringExecFns;

verus! {

/// The state from which the next token is drawn: the current state where
/// there is a way out of it, otherwise the start state.
pub open spec fn resumed(model: ModelView, state: StateView) -> StateView {
    if outgoing(model, state) is Some {
        state
    } else {
        None
    }
}

/// A walk that begins anew in the start state wherever it ends.
pub struct BigramPwgenerator<'a> {
    iterator: BigramGeneratorIter<'a>,
}

impl<'a> BigramPwgenerator<'a> {
    /// The content of the model that is walked.
    pub closed spec fn model(&self) -> ModelView {
        self.iterator.model()
    }

    /// The current state.
    pub closed spec fn state(&self) -> StateView {
        self.iterator.state()
    }

    /// The wrapped walk before its first step.
    pub fn new(model: &'a BigramModel) -> (walk: Self)
        ensures
            walk.model() == model@,
            walk.state() == StateView::None,
    {
        BigramPwgenerator { iterator: model.gen_iter() }
    }

    /// The model that is walked.
    pub fn model_ref(&self) -> (model: &'a BigramModel)
        ensures
            model@ == self.model(),
    {
        self.iterator.model_ref()
    }

    /// Takes the step that `point` decides, from the start state if there is
    /// no way out of the current state. A token is given whenever there is a
    /// way out of the start state; nothing is given only if there is no way
    /// out of the current state and none out of the start state.
    pub fn next_with(&mut self, point: u8) -> (token: Option<String>)
        ensures
            final(self).model() == old(self).model(),
            token is Some <==> outgoing(
                old(self).model(),
                resumed(old(self).model(), old(self).state()),
            ) is Some,
            outgoing(old(self).model(), None) is Some ==> token is Some,
            token matches Some(t) ==> Some(t@) == step(
                old(self).model(),
                resumed(old(self).model(), old(self).state()),
                point,
            ) && final(self).state() == Some(t@),
            token is None ==> final(self).state() == StateView::None,
    {
        match self.iterator.next_with(point) {
            Some(token) => Some(token),
            None => {
                self.iterator = self.iterator.model_ref().gen_iter();
                self.iterator.next_with(point)
            },
        }
    }

    /// Takes a random step, from the start state if there is no way out of
    /// the current state. A token is given whenever there is a way out of the
    /// start state; nothing is given only if there is no way out of the
    /// current state and none out of the start state.
    pub fn next(&mut self) -> (token: Option<String>)
        ensures
            final(self).model() == old(self).model(),
            token is Some <==> outgoing(
                old(self).model(),
                resumed(old(self).model(), old(self).state()),
            ) is Some,
            outgoing(old(self).model(), None) is Some ==> token is Some,
            token matches Some(t) ==> final(self).state() == Some(t@) && exists|point: u8|
                Some(t@) == #[trigger] step(
                    old(self).model(),
                    resumed(old(self).model(), old(self).state()),
                    point,
                ),
            token is None ==> final(self).state() == StateView::None,
    {
        match self.iterator.next() {
            Some(token) => Some(token),
            None => {
                self.iterator = self.iterator.model_ref().gen_iter();
                self.iterator.next()
            },
        }
    }
}

/// A password in the making: the tokens generated so far, the wrapped walk
/// that generates them, and the distribution over states that follows the
/// walk step by step.
pub struct PasswordAssembly<'a> {
    generator: BigramPwgenerator<'a>,
    states: QuantizedTable<BigramState>,
    password: String,
}

impl<'a> PasswordAssembly<'a> {
    /// The content of the model from which the password is generated.
    pub closed spec fn model(&self) -> ModelView {
        self.generator.model()
    }

    /// The state of the walk.
    pub closed spec fn state(&self) -> StateView {
        self.generator.state()
    }

    /// The distribution over states.
    pub closed spec fn states(&self) -> DistView {
        dist_view(self.states@)
    }

    /// The characters of the password so far.
    pub closed spec fn text(&self) -> Seq<char> {
        self.password@
    }

    /// The assembly before the first step: no token yet, the walk in the
    /// start state, and the distribution certain of it.
    pub fn new(model: &'a BigramModel) -> (assembly: Self)
        ensures
            assembly.model() == model@,
            assembly.state() == StateView::None,
            assembly.states() == initial(),
            assembly.text() == Seq::<char>::empty(),
    {
        let states = QuantizedTable::certain(BigramState::start());
        proof {
            assert(dist_view(states@) =~= initial());
        }
        PasswordAssembly {
            generator: BigramPwgenerator::new(model),
            states,
            password: String::new(),
        }
    }

    /// Takes the step that `point` decides: appends the token that the walk
    /// gives, moves the distribution on by one step, and gives the widths of
    /// its intervals, in key order. If the walk gives nothing, which it does
    /// only where no token can be drawn in the start state, nothing changes.
    pub fn advance_with(&mut self, point: u8) -> (widths: Option<Vec<u8>>)
        ensures
            final(self).model() == old(self).model(),
            widths is Some <==> outgoing(
                old(self).model(),
                resumed(old(self).model(), old(self).state()),
            ) is Some,
            outgoing(old(self).model(), None) is Some ==> widths is Some,
            widths is None ==> final(self).text() == old(self).text() && final(self).states()
                == old(self).states() && final(self).state() == StateView::None,
            widths matches Some(w) ==> {
                &&& step(
                    old(self).model(),
                    resumed(old(self).model(), old(self).state()),
                    point,
                ) matches Some(token)
                &&& final(self).text() == old(self).text() + token
                &&& final(self).state() == Some(token)
                &&& final(self).states() == advance(old(self).model(), old(self).states())
                &&& is_table(final(self).states())
                &&& w@.len() == final(self).states().len()
                &&& forall|i: int| 0 <= i < w@.len() ==> w@[i] == width(final(self).states(), i)
            },
    {
        match self.generator.next_with(point) {
            Some(token) => {
                self.states = advance_states(self.generator.model_ref(), &self.states);
                self.password.append(token.as_str());
                Some(self.widths())
            },
            None => None,
        }
    }

    /// Takes a random step: appends the token that the walk gives, moves the
    /// distribution on by one step, and gives the widths of its intervals, in
    /// key order. If the walk gives nothing, which it does only where no token
    /// can be drawn in the start state, nothing changes.
    pub fn advance(&mut self) -> (widths: Option<Vec<u8>>)
        ensures
            final(self).model() == old(self).model(),
            widths is Some <==> outgoing(
                old(self).model(),
                resumed(old(self).model(), old(self).state()),
            ) is Some,
            outgoing(old(self).model(), None) is Some ==> widths is Some,
            widths is None ==> final(self).text() == old(self).text() && final(self).states()
                == old(self).states() && final(self).state() == StateView::None,
            widths matches Some(w) ==> {
                &&& exists|point: u8|
                    (#[trigger] step(
                        old(self).model(),
                        resumed(old(self).model(), old(self).state()),
                        point,
                    )) matches Some(token) && final(self).text() == old(self).text() + token
                        && final(self).state() == Some(token)
                &&& final(self).states() == advance(old(self).model(), old(self).states())
                &&& is_table(final(self).states())
                &&& w@.len() == final(self).states().len()
                &&& forall|i: int| 0 <= i < w@.len() ==> w@[i] == width(final(self).states(), i)
            },
    {
        let ghost model = self.model();
        let ghost from = resumed(self.model(), self.state());
        let ghost before = self.text();
        match self.generator.next() {
            Some(token) => {
                self.states = advance_states(self.generator.model_ref(), &self.states);
                self.password.append(token.as_str());
                proof {
                    let point = choose|point: u8|
                        Some(token@) == #[trigger] step(model, from, point);
                    assert(step(model, from, point) matches Some(t) && self.text() == before + t
                        && self.state() == Some(t));
                }
                Some(self.widths())
            },
            None => None,
        }
    }

    /// The widths of the intervals of the distribution, in key order.
    pub fn widths(&self) -> (widths: Vec<u8>)
        ensures
            widths@.len() == self.states().len(),
            forall|i: int| 0 <= i < widths@.len() ==> widths@[i] == width(self.states(), i),
    {
        let widths = self.states.widths();
        proof {
            assert forall|k: int| 0 <= k < widths@.len() implies widths@[k] == width(
                self.states(),
                k,
            ) by {
                assert(width(self.states(), k) == width(self.states@, k));
            }
        }
        widths
    }

    /// The password so far.
    pub fn password(&self) -> (password: &String)
        ensures
            password@ == self.text(),
    {
        &self.password
    }

    /// Ends the assembly and hands out the password.
    pub fn into_password(self) -> (password: String)
        ensures
            password@ == self.text(),
    {
        self.password
    }
}

} // verus!
