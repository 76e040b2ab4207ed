//! Training: from a corpus of tokens to a bigram model.
//!
//! The corpus is read token by token. A token that is no delimiter is recorded
//! as a transition from the state that the tokens before it have led to, and
//! leads to the state after itself. A delimiter is recorded nowhere and leads
//! back to the start state, so that the token after it counts as the first of a
//! new sequence. The transitions are counted per state, and each state's counts
//! become its table.
//!
//! States are listed in the order in which they first occur as the source of a
//! transition, and the tokens that follow a state are handed to the table in
//! the order in which they first follow it. So a model depends on nothing but
//! the corpus and the delimiters.

use crate::bigram::{
    find_state, model_view, state_text, text, texts, BigramModel, BigramState, BigramTransition,
    ModelView, StateView,
};
use crate::table::{
    from_aggregate, is_table, lemma_mass_update, lemma_quantize_is_table, lemma_relabel_is_table,
    lemma_rename_quantize, lemma_rename_weights, mass, quantize, rename, weighted,
};
use crate::tally::{
    credit, enter, followers, group, keys, lemma_followers, lemma_group_keys, lemma_group_push,
    lemma_position, lemma_position_bounds, lemma_tally_mass, position, tally,
};
use vstd::prelude::*;

verus! {

/// The state in which the token at position `i` of the corpus is met: the
/// start state for the first token and after a delimiter, otherwise the state
/// after the token before.
pub open spec fn source_at(corpus: Seq<Seq<char>>, delims: Seq<Seq<char>>, i: int) -> StateView {
    if i <= 0 || delims.contains(corpus[i - 1]) {
        None
    } else {
        Some(corpus[i - 1])
    }
}

/// The transitions that the corpus records, in corpus order: one for each
/// token that is no delimiter, from the state in which it is met.
pub open spec fn transitions(corpus: Seq<Seq<char>>, delims: Seq<Seq<char>>) -> Seq<
    (StateView, Seq<char>),
>
    decreases corpus.len(),
{
    if corpus.len() == 0 {
        Seq::empty()
    } else {
        let before = transitions(corpus.drop_last(), delims);
        if delims.contains(corpus.last()) {
            before
        } else {
            before.push((source_at(corpus, delims, corpus.len() - 1), corpus.last()))
        }
    }
}

/// The content of the model for a corpus: each state that is the source of a
/// transition, in the order of first occurrence, with the table of the counts
/// of the tokens that follow it.
pub open spec fn trained(corpus: Seq<Seq<char>>, delims: Seq<Seq<char>>) -> ModelView {
    group(transitions(corpus, delims)).map_values(
        |counts: (StateView, Seq<(Seq<char>, nat)>)| (counts.0, quantize(counts.1)),
    )
}

/// The view of a list of tokens with their counts.
pub open spec fn counts_view(list: Seq<(String, u64)>) -> Seq<(Seq<char>, nat)> {
    rename(weighted(list), text())
}

/// The view of a list of states, each with the counts of the tokens that follow it.
pub open spec fn groups_view(list: Seq<(BigramState, Vec<(String, u64)>)>) -> Seq<
    (StateView, Seq<(Seq<char>, nat)>),
> {
    list.map_values(|entry: (BigramState, Vec<(String, u64)>)| (entry.0@, counts_view(entry.1@)))
}

/// Whether `token` is one of the delimiters.
fn is_delimiter(delims: &Vec<String>, token: &String) -> (found: bool)
    ensures
        found == texts(delims@).contains(token@),
{
    let mut i: usize = 0;
    while i < delims.len()
        invariant
            i <= delims.len(),
            forall|j: int| 0 <= j < i ==> texts(delims@)[j] != token@,
        decreases delims.len() - i,
    {
        if delims[i] == *token {
            assert(texts(delims@)[i as int] == token@);
            return true;
        }
        i += 1;
    }
    false
}

/// The position of the first entry of `list` for `token`, or the length of
/// `list` if there is none.
fn find_token(list: &Vec<(String, u64)>, token: &String) -> (i: usize)
    ensures
        i == position(keys(counts_view(list@)), token@),
        i <= list@.len(),
{
    let ghost names = keys(counts_view(list@));
    let mut i: usize = 0;
    while i < list.len()
        invariant
            i <= list.len(),
            names == keys(counts_view(list@)),
            forall|j: int| 0 <= j < i ==> names[j] != token@,
        decreases list.len() - i,
    {
        if list[i].0 == *token {
            proof {
                lemma_position(names, token@, i as int);
            }
            return i;
        }
        i += 1;
    }
    proof {
        lemma_position(names, token@, i as int);
    }
    i
}

/// Counts one more occurrence of `token`.
fn add_count(list: &mut Vec<(String, u64)>, token: &String)
    requires
        mass(counts_view(old(list)@)) < u64::MAX,
    ensures
        counts_view(final(list)@) == credit(counts_view(old(list)@), token@, 1),
{
    let i = find_token(list, token);
    let ghost before = counts_view(list@);
    if i < list.len() {
        proof {
            lemma_mass_update(before, i as int, (token@, 0nat));
            lemma_position_bounds(keys(before), token@);
            assert(keys(before)[i as int] == token@);
        }
        list[i].1 += 1;
        proof {
            assert(counts_view(list@) =~= before.update(
                i as int,
                (token@, before[i as int].1 + 1),
            ));
        }
    } else {
        list.push((token.clone(), 1));
        proof {
            assert(counts_view(list@) =~= before.push((token@, 1nat)));
        }
    }
}

/// Records one transition from `state` to `token`.
fn record(acc: &mut Vec<(BigramState, Vec<(String, u64)>)>, state: &BigramState, token: &String)
    requires
        forall|j: int|
            0 <= j < old(acc)@.len() ==> mass(#[trigger] groups_view(old(acc)@)[j].1) < u64::MAX,
    ensures
        groups_view(final(acc)@) == enter(groups_view(old(acc)@), state@, token@),
{
    let ghost before = groups_view(acc@);
    let i = find_state(acc, state);
    proof {
        assert(keys(acc@).map_values(state_text()) =~= keys(before));
    }
    if i < acc.len() {
        proof {
            assert(mass(before[i as int].1) < u64::MAX);
            lemma_position_bounds(keys(before), state@);
            assert(keys(before)[i as int] == state@);
        }
        add_count(&mut acc[i].1, token);
        proof {
            assert(groups_view(acc@) =~= before.update(
                i as int,
                (state@, credit(before[i as int].1, token@, 1)),
            ));
        }
    } else {
        let mut list: Vec<(String, u64)> = Vec::new();
        list.push((token.clone(), 1));
        proof {
            assert(counts_view(list@) =~= seq![(token@, 1nat)]);
        }
        acc.push((state.clone(), list));
        proof {
            assert(groups_view(acc@) =~= before.push((state@, seq![(token@, 1nat)])));
        }
    }
}

/// Trains a bigram model from a corpus of tokens.
///
/// Every token that is none of `delims` counts as a transition from the state
/// in which it is met. A delimiter counts nowhere, and the token after it is
/// met in the start state, as the first token of the corpus is. The model lists
/// the states that are the source of a transition, in the order of their first
/// occurrence, each with the table of the counts of the tokens that follow it.
/// An empty corpus gives the empty model.
pub fn train(corpus: &Vec<String>, delims: &Vec<String>) -> (model: BigramModel)
    ensures
        model@ == trained(texts(corpus@), texts(delims@)),
        forall|i: int| 0 <= i < model@.len() ==> (#[trigger] model@[i]).1.len() > 0,
{
    let ghost words = texts(corpus@);
    let ghost stops = texts(delims@);
    let mut acc: Vec<(BigramState, Vec<(String, u64)>)> = Vec::new();
    let mut state = BigramState::start();
    let mut i: usize = 0;
    proof {
        assert(groups_view(acc@) =~= group(transitions(words.take(0), stops)));
    }
    while i < corpus.len()
        invariant
            i <= corpus.len(),
            words == texts(corpus@),
            stops == texts(delims@),
            state@ == source_at(words, stops, i as int),
            groups_view(acc@) == group(transitions(words.take(i as int), stops)),
        decreases corpus.len() - i,
    {
        let ghost seen = words.take(i as int);
        let ghost more = words.take(i as int + 1);
        proof {
            assert(more.drop_last() =~= seen);
            assert(more.last() == words[i as int]);
            assert(source_at(more, stops, i as int) == source_at(words, stops, i as int)) by {
                if i > 0 {
                    assert(more[i as int - 1] == words[i as int - 1]);
                }
            }
            lemma_transitions_len(seen, stops);
            lemma_group_keys(transitions(seen, stops));
            assert forall|j: int| 0 <= j < acc@.len() implies mass(
                #[trigger] groups_view(acc@)[j].1,
            ) < u64::MAX by {
                let pairs = transitions(seen, stops);
                let first = group(pairs)[j].0;
                lemma_tally_mass(followers(pairs, first));
                lemma_followers(pairs, first);
            }
        }
        let token = &corpus[i];
        if is_delimiter(delims, token) {
            state = BigramState::start();
        } else {
            proof {
                lemma_group_push(transitions(seen, stops), state@, token@);
            }
            record(&mut acc, &state, token);
            state = BigramState::after(token.clone());
        }
        i += 1;
    }
    proof {
        assert(words.take(i as int) =~= words);
    }
    let ghost pairs = transitions(words, stops);
    let ghost groups = group(pairs);
    let ghost wanted = trained(words, stops);
    let mut entries: Vec<(BigramState, BigramTransition)> = Vec::new();
    proof {
        lemma_group_keys(pairs);
        lemma_transitions_len(words, stops);
    }
    for entry in it: acc.into_iter()
        invariant
            pairs.len() <= u64::MAX,
            groups == group(pairs),
            wanted == groups.map_values(
                |counts: (StateView, Seq<(Seq<char>, nat)>)| (counts.0, quantize(counts.1)),
            ),
            groups_view(it.seq()) == groups,
            model_view(entries@) == wanted.take(it.index() as int),
            forall|j: int|
                0 <= j < it.index() ==> is_table(#[trigger] model_view(entries@)[j].1)
                    && model_view(entries@)[j].1.len() > 0,
            forall|j: int|
                0 <= j < groups.len() ==> (#[trigger] groups[j]).1 == tally(
                    followers(pairs, groups[j].0),
                ) && keys(pairs).contains(groups[j].0),
    {
        let ghost k = it.index() as int;
        let (state, counts) = entry;
        proof {
            assert(groups_view(it.seq())[k] == groups[k]);
            assert(counts_view(counts@) == groups[k].1);
            assert(state@ == groups[k].0);
            lemma_tally_mass(followers(pairs, groups[k].0));
            lemma_followers(pairs, groups[k].0);
            lemma_rename_weights(weighted(counts@), text(), 0);
            lemma_rename_quantize(weighted(counts@), text());
            lemma_quantize_is_table(weighted(counts@));
            lemma_relabel_is_table(quantize(weighted(counts@)), text());
        }
        let table = from_aggregate(counts);
        let ghost done = model_view(entries@);
        entries.push((state, BigramTransition(table)));
        proof {
            assert(model_view(entries@) =~= done.push(wanted[k]));
            assert(wanted.take(k + 1) =~= wanted.take(k).push(wanted[k]));
        }
    }
    proof {
        assert(wanted.take(groups.len() as int) =~= wanted);
        assert(keys(wanted) =~= keys(groups));
    }
    BigramModel::from_states(entries)
}

/// A corpus records at most one transition per token.
pub proof fn lemma_transitions_len(corpus: Seq<Seq<char>>, delims: Seq<Seq<char>>)
    ensures
        transitions(corpus, delims).len() <= corpus.len(),
    decreases corpus.len(),
{
    if corpus.len() > 0 {
        lemma_transitions_len(corpus.drop_last(), delims);
    }
}

/// A delimiter breaks the chain. No transition leads to a delimiter or away
/// from one, and every transition comes from a place in the corpus: its token
/// stands there, and its source is the state in which that token is met. So a
/// token is recorded after another only where it directly follows it.
pub proof fn lemma_transitions(corpus: Seq<Seq<char>>, delims: Seq<Seq<char>>, k: int)
    requires
        0 <= k < transitions(corpus, delims).len(),
    ensures
        !delims.contains(transitions(corpus, delims)[k].1),
        transitions(corpus, delims)[k].0 matches Some(token) ==> !delims.contains(token),
        exists|i: int|
            0 <= i < corpus.len() && corpus[i] == transitions(corpus, delims)[k].1
                && #[trigger] source_at(corpus, delims, i) == transitions(corpus, delims)[k].0,
    decreases corpus.len(),
{
    if corpus.len() > 0 {
        let front = corpus.drop_last();
        let before = transitions(front, delims);
        if k < before.len() {
            lemma_transitions(front, delims, k);
            let i = choose|i: int|
                0 <= i < front.len() && front[i] == before[k].1 && #[trigger] source_at(
                    front,
                    delims,
                    i,
                ) == before[k].0;
            if i > 0 {
                assert(front[i - 1] == corpus[i - 1]);
            }
            assert(source_at(corpus, delims, i) == source_at(front, delims, i));
        } else {
            let i = corpus.len() - 1;
            assert(source_at(corpus, delims, i) == transitions(corpus, delims)[k].0);
        }
    }
}

} // verus!
