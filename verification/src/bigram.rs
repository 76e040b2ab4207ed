//! The bigram model: states, transitions, and the walk that generates tokens.
//!
//! A model gives some states a table of next tokens. Generation starts in the
//! start state, draws a token from the table of the current state and moves to
//! the state after that token. A state without a table, or with an empty one,
//! has no way out: the walk ends there.

use crate::table::{is_table, lemma_relabel_is_table, relabel, slot, QuantizedTable};
use crate::tally::{keys, lemma_position, lemma_position_bounds, position};
use rand::Rng;
use vstd::pervasive::unreached;
use vstd::prelude::*;

verus! {

/// A state as contracts see it: `None` at the start, otherwise the characters
/// of the last token.
pub type StateView = Option<Seq<char>>;

/// A table of tokens as contracts see it: the entries `(key, token)` in key order.
pub type TableView = Seq<(u8, Seq<char>)>;

/// A model as contracts see it: the listed states, each with its table.
pub type ModelView = Seq<(StateView, TableView)>;

/// A distribution over states as contracts see it: the entries `(key, state)`
/// in key order.
pub type DistView = Seq<(u8, StateView)>;

/// The characters of a token.
pub open spec fn text() -> spec_fn(String) -> Seq<char> {
    |token: String| token@
}

/// The characters of each token.
pub open spec fn texts(tokens: Seq<String>) -> Seq<Seq<char>> {
    tokens.map_values(text())
}

/// The view of a state.
pub open spec fn state_text() -> spec_fn(BigramState) -> StateView {
    |state: BigramState| state@
}

/// The view of a list of states with their transitions.
pub open spec fn model_view(entries: Seq<(BigramState, BigramTransition)>) -> ModelView {
    entries.map_values(|entry: (BigramState, BigramTransition)| (entry.0@, entry.1@))
}

/// Whether `model` can be the content of a model: no state is listed twice,
/// and every state has a valid table.
pub open spec fn is_model(model: ModelView) -> bool {
    &&& keys(model).no_duplicates()
    &&& forall|i: int| 0 <= i < model.len() ==> is_table(#[trigger] model[i].1)
}

/// The table from which the next token is drawn in `state`, if there is a
/// way out of that state: the state must be listed with a table that is not empty.
pub open spec fn outgoing(model: ModelView, state: StateView) -> Option<TableView> {
    let i = position(keys(model), state);
    if i < model.len() && model[i].1.len() > 0 {
        Some(model[i].1)
    } else {
        None
    }
}

/// The token that `point` draws in `state`, if there is a way out of that state.
pub open spec fn step(model: ModelView, state: StateView, point: u8) -> Option<Seq<char>> {
    match outgoing(model, state) {
        Some(table) => Some(table[slot(table, point)].1),
        None => None,
    }
}

/// The view of a model that is written out in plain values: for each state
/// its token, if it is not the start state, and the entries of its table.
pub open spec fn parts_view(parts: Seq<(Option<String>, Vec<(u8, String)>)>) -> ModelView {
    parts.map_values(
        |part: (Option<String>, Vec<(u8, String)>)|
            (BigramState(part.0)@, relabel(part.1@, text())),
    )
}

/// The state of a walk: at the start, or after a token.
#[derive(Debug, PartialEq, Eq, Hash)]
pub struct BigramState(pub Option<String>);

impl View for BigramState {
    type V = StateView;

    /// `None` at the start, otherwise the characters of the last token.
    open spec fn view(&self) -> StateView {
        match self.0 {
            Some(token) => Some(token@),
            None => None,
        }
    }
}

impl Clone for BigramState {
    fn clone(&self) -> (copy: Self)
        ensures
            copy == *self,
    {
        match &self.0 {
            Some(token) => BigramState(Some(token.clone())),
            None => BigramState(None),
        }
    }
}

impl From<Option<String>> for BigramState {
    fn from(token: Option<String>) -> (state: Self) {
        BigramState(token)
    }
}

impl vstd::std_specs::convert::FromSpecImpl<Option<String>> for BigramState {
    open spec fn obeys_from_spec() -> bool {
        true
    }

    open spec fn from_spec(token: Option<String>) -> Self {
        BigramState(token)
    }
}

impl BigramState {
    /// The state in which every walk begins.
    pub fn start() -> (state: Self)
        ensures
            state@ == StateView::None,
    {
        BigramState(None)
    }

    /// The state after `token`.
    pub fn after(token: String) -> (state: Self)
        ensures
            state@ == Some(token@),
    {
        BigramState(Some(token))
    }

    /// Whether the two states are the same: both the start, or both after
    /// tokens of the same characters.
    pub fn same(&self, other: &BigramState) -> (same: bool)
        ensures
            same == (self@ == other@),
    {
        match &self.0 {
            Some(mine) => match &other.0 {
                Some(theirs) => *mine == *theirs,
                None => false,
            },
            None => other.0.is_none(),
        }
    }
}

/// The position of the first entry of `list` for `state`, or the length of
/// `list` if there is none.
pub fn find_state<V>(list: &Vec<(BigramState, V)>, state: &BigramState) -> (i: usize)
    ensures
        i == position(keys(list@).map_values(state_text()), state@),
        i <= list@.len(),
{
    let ghost names = keys(list@).map_values(state_text());
    let mut i: usize = 0;
    while i < list.len()
        invariant
            i <= list.len(),
            names == keys(list@).map_values(state_text()),
            forall|j: int| 0 <= j < i ==> names[j] != state@,
        decreases list.len() - i,
    {
        if list[i].0.same(state) {
            proof {
                lemma_position(names, state@, i as int);
            }
            return i;
        }
        i += 1;
    }
    proof {
        lemma_position(names, state@, i as int);
    }
    i
}

/// Draws a point of the sample space.
///
/// Calls `rand::thread_rng()` and `Rng::gen::<u8>()`, which hands out the low
/// byte of the next 32 bits of the thread's generator; `thread_rng` panics if
/// the operating system cannot seed that generator. Nothing is claimed of the
/// point: what callers promise, they promise for every value of it.
#[verifier::external_body]
fn random_byte() -> (point: u8) {
    rand::thread_rng().gen()
}

/// The transitions out of one state: a quantized table of next tokens.
#[derive(Debug, PartialEq, Eq)]
pub struct BigramTransition(pub QuantizedTable<String>);

impl View for BigramTransition {
    type V = TableView;

    /// The entries `(key, token)` in key order.
    open spec fn view(&self) -> TableView {
        relabel(self.0@, text())
    }
}

impl From<QuantizedTable<String>> for BigramTransition {
    fn from(table: QuantizedTable<String>) -> (transition: Self) {
        BigramTransition(table)
    }
}

impl vstd::std_specs::convert::FromSpecImpl<QuantizedTable<String>> for BigramTransition {
    open spec fn obeys_from_spec() -> bool {
        true
    }

    open spec fn from_spec(table: QuantizedTable<String>) -> Self {
        BigramTransition(table)
    }
}

impl Clone for BigramTransition {
    fn clone(&self) -> (copy: Self)
        ensures
            copy@ == self@,
    {
        let entries = copy_entries(self.0.entries());
        match QuantizedTable::from_entries(entries) {
            Some(table) => BigramTransition(table),
            None => unreached(),
        }
    }
}

impl BigramTransition {
    /// The token whose interval holds `point`.
    pub fn pick(&self, point: u8) -> (token: &String)
        requires
            self@.len() > 0,
        ensures
            token@ == self@[slot(self@, point)].1,
            0 <= slot(self@, point) < self@.len(),
    {
        proof {
            crate::table::lemma_relabel_slot(self.0@, text(), point);
        }
        self.0.lookup(point)
    }

    /// A token drawn at random: the token that a random point of the sample
    /// space picks. A token is the likelier the more points its interval holds.
    pub fn rand(&self) -> (token: String)
        requires
            self@.len() > 0,
        ensures
            exists|point: u8| token@ == self@[#[trigger] slot(self@, point)].1,
    {
        let point = random_byte();
        let token = self.pick(point).clone();
        assert(token@ == self@[slot(self@, point)].1);
        token
    }

    /// Whether no token can be drawn.
    pub fn is_empty(&self) -> (empty: bool)
        ensures
            empty == (self@.len() == 0),
            is_table(self@),
    {
        proof {
            lemma_relabel_is_table(self.0@, text());
        }
        self.0.is_empty()
    }
}

/// A copy of the entries of a table of tokens.
fn copy_entries(entries: &Vec<(u8, String)>) -> (copy: Vec<(u8, String)>)
    ensures
        copy@ == entries@,
{
    let mut copy: Vec<(u8, String)> = Vec::new();
    let mut i: usize = 0;
    while i < entries.len()
        invariant
            i <= entries.len(),
            copy@ == entries@.take(i as int),
        decreases entries.len() - i,
    {
        copy.push((entries[i].0, entries[i].1.clone()));
        proof {
            assert(entries@.take(i as int + 1) =~= entries@.take(i as int).push(
                entries@[i as int],
            ));
        }
        i += 1;
    }
    proof {
        assert(entries@.take(i as int) =~= entries@);
    }
    copy
}

/// The core bigram model: for each listed state the transitions out of it.
#[derive(Debug, PartialEq, Eq)]
pub struct BigramModel {
    entries: Vec<(BigramState, BigramTransition)>,
}

impl View for BigramModel {
    type V = ModelView;

    /// The listed states, each with the entries of its table.
    closed spec fn view(&self) -> ModelView {
        model_view(self.entries@)
    }
}

impl Clone for BigramModel {
    /// A copy, made from the plain values of the model: writing a model out
    /// and taking it in again gives the same model.
    fn clone(&self) -> (copy: Self)
        ensures
            copy@ == self@,
    {
        match BigramModel::from_parts(self.to_parts()) {
            Some(copy) => copy,
            None => unreached(),
        }
    }
}

impl BigramModel {
    /// What holds of every model: its content is valid.
    #[verifier::type_invariant]
    pub open spec fn valid(&self) -> bool {
        is_model(self@)
    }

    /// The model without states: nothing can be generated from it.
    pub fn new() -> (model: Self)
        ensures
            model@ == ModelView::empty(),
    {
        let entries: Vec<(BigramState, BigramTransition)> = Vec::new();
        assert(model_view(entries@) =~= Seq::empty());
        BigramModel { entries }
    }

    /// The model that lists the given states, none of them twice.
    pub(crate) fn from_states(entries: Vec<(BigramState, BigramTransition)>) -> (model: Self)
        requires
            is_model(model_view(entries@)),
        ensures
            model@ == model_view(entries@),
    {
        BigramModel { entries }
    }

    /// The model with the given content, if it is valid: no state may be listed
    /// twice, and the entries of each table must have strictly increasing keys
    /// that, unless there is no entry, end with 255.
    pub fn from_parts(parts: Vec<(Option<String>, Vec<(u8, String)>)>) -> (model: Option<Self>)
        ensures
            model is Some <==> is_model(parts_view(parts@)),
            model matches Some(m) ==> m@ == parts_view(parts@),
    {
        let ghost wanted = parts_view(parts@);
        let mut entries: Vec<(BigramState, BigramTransition)> = Vec::new();
        proof {
            assert(model_view(entries@) =~= wanted.take(0));
        }
        for part in it: parts.into_iter()
            invariant
                it.seq() == parts@,
                wanted == parts_view(parts@),
                model_view(entries@) == wanted.take(it.index() as int),
                is_model(model_view(entries@)),
        {
            let ghost k = it.index() as int;
            let ghost done = model_view(entries@);
            let (token, table) = part;
            let state = BigramState(token);
            let found = find_state(&entries, &state);
            proof {
                assert(keys(entries@).map_values(state_text()) =~= keys(done));
                lemma_position_bounds(keys(done), state@);
                lemma_relabel_is_table(table@, text());
                assert(wanted[k] == (state@, relabel(table@, text())));
            }
            if found < entries.len() {
                proof {
                    assert(keys(wanted)[found as int] == keys(done)[found as int]);
                    assert(keys(wanted)[k] == state@);
                }
                return None;
            }
            match QuantizedTable::from_entries(table) {
                Some(valid) => {
                    entries.push((state, BigramTransition(valid)));
                    proof {
                        let more = model_view(entries@);
                        assert(more =~= done.push(wanted[k]));
                        assert(wanted.take(k + 1) =~= wanted.take(k).push(wanted[k]));
                        assert forall|a: int, b: int|
                            0 <= a < more.len() && 0 <= b < more.len() && a != b implies keys(
                            more,
                        )[a] != keys(more)[b] by {
                            if a < k && b < k {
                                assert(keys(done)[a] != keys(done)[b]);
                            } else if a < k {
                                assert(keys(done)[a] != state@);
                            } else if b < k {
                                assert(keys(done)[b] != state@);
                            }
                        }
                    }
                },
                None => {
                    proof {
                        assert(!is_table(wanted[k].1));
                    }
                    return None;
                },
            }
        }
        proof {
            assert(wanted.take(parts@.len() as int) =~= wanted);
        }
        Some(BigramModel { entries })
    }

    /// The content of the model in plain values, from which `from_parts`
    /// makes the same model again.
    pub fn to_parts(&self) -> (parts: Vec<(Option<String>, Vec<(u8, String)>)>)
        ensures
            parts_view(parts@) == self@,
            is_model(self@),
    {
        proof {
            use_type_invariant(self);
        }
        let mut parts: Vec<(Option<String>, Vec<(u8, String)>)> = Vec::new();
        let mut i: usize = 0;
        proof {
            assert(parts_view(parts@) =~= self@.take(0));
        }
        while i < self.entries.len()
            invariant
                i <= self.entries.len(),
                parts_view(parts@) == self@.take(i as int),
            decreases self.entries.len() - i,
        {
            let ghost done = parts_view(parts@);
            let token = match &self.entries[i].0.0 {
                Some(token) => Some(token.clone()),
                None => None,
            };
            let table = copy_entries(self.entries[i].1.0.entries());
            parts.push((token, table));
            proof {
                assert(parts_view(parts@) =~= done.push(self@[i as int]));
                assert(self@.take(i as int + 1) =~= self@.take(i as int).push(self@[i as int]));
            }
            i += 1;
        }
        proof {
            assert(self@.take(i as int) =~= self@);
        }
        parts
    }

    /// The number of listed states.
    pub fn len(&self) -> (n: usize)
        ensures
            n == self@.len(),
            is_model(self@),
    {
        proof {
            use_type_invariant(self);
        }
        self.entries.len()
    }

    /// Whether no state is listed.
    pub fn is_empty(&self) -> (empty: bool)
        ensures
            empty == (self@.len() == 0),
    {
        self.entries.len() == 0
    }

    /// The transitions out of `state`, if the state is listed.
    pub fn get(&self, state: &BigramState) -> (transition: Option<&BigramTransition>)
        ensures
            transition is Some <==> position(keys(self@), state@) < self@.len(),
            transition matches Some(t) ==> t@ == self@[position(keys(self@), state@)].1,
    {
        let i = find_state(&self.entries, state);
        proof {
            assert(keys(self.entries@).map_values(state_text()) =~= keys(self@));
        }
        if i < self.entries.len() {
            Some(&self.entries[i].1)
        } else {
            None
        }
    }

    /// The transitions out of `state`, if there is a way out of it.
    pub fn outgoing(&self, state: &BigramState) -> (transition: Option<&BigramTransition>)
        ensures
            transition is Some <==> outgoing(self@, state@) is Some,
            transition matches Some(t) ==> outgoing(self@, state@) == Some(t@) && t@.len() > 0,
    {
        match self.get(state) {
            Some(transition) => if transition.is_empty() {
                None
            } else {
                Some(transition)
            },
            None => None,
        }
    }

    /// A walk over the model that begins in the start state.
    pub fn gen_iter(&self) -> (walk: BigramGeneratorIter<'_>)
        ensures
            walk.model() == self@,
            walk.state() == StateView::None,
    {
        BigramGeneratorIter { model: self, state: BigramState::start() }
    }
}

/// A walk that generates tokens from a model.
///
/// Each step draws a token from the table of the current state and moves to
/// the state after it. The walk ends in a state that has no way out.
pub struct BigramGeneratorIter<'a> {
    model: &'a BigramModel,
    state: BigramState,
}

impl<'a> BigramGeneratorIter<'a> {
    /// The content of the model that is walked.
    pub closed spec fn model(&self) -> ModelView {
        self.model@
    }

    /// The current state.
    pub closed spec fn state(&self) -> StateView {
        self.state@
    }

    /// The model that is walked.
    pub fn model_ref(&self) -> (model: &'a BigramModel)
        ensures
            model@ == self.model(),
    {
        self.model
    }

    /// Takes the step that `point` decides: gives the token that `point` draws
    /// in the current state and moves on to the state after it. If there is no
    /// way out of the current state, gives nothing and stays.
    pub fn next_with(&mut self, point: u8) -> (token: Option<String>)
        ensures
            final(self).model() == old(self).model(),
            token is Some <==> outgoing(old(self).model(), old(self).state()) is Some,
            token matches Some(t) ==> Some(t@) == step(
                old(self).model(),
                old(self).state(),
                point,
            ) && final(self).state() == Some(t@),
            token is None ==> final(self).state() == old(self).state(),
    {
        match self.model.outgoing(&self.state) {
            Some(transition) => {
                let token = transition.pick(point).clone();
                self.state = BigramState::after(token.clone());
                Some(token)
            },
            None => None,
        }
    }

    /// Takes a random step: gives a token drawn from the table of the current
    /// state and moves on to the state after it. If there is no way out of the
    /// current state, gives nothing and stays.
    pub fn next(&mut self) -> (token: Option<String>)
        ensures
            final(self).model() == old(self).model(),
            token is Some <==> outgoing(old(self).model(), old(self).state()) is Some,
            token matches Some(t) ==> final(self).state() == Some(t@) && exists|point: u8|
                Some(t@) == #[trigger] step(old(self).model(), old(self).state(), point),
            token is None ==> final(self).state() == old(self).state(),
    {
        match self.model.outgoing(&self.state) {
            Some(transition) => {
                let token = transition.rand();
                proof {
                    let point = choose|point: u8|
                        token@ == transition@[#[trigger] slot(transition@, point)].1;
                    assert(Some(token@) == step(self.model(), self.state(), point));
                }
                self.state = BigramState::after(token.clone());
                Some(token)
            },
            None => None,
        }
    }
}

} // verus!
