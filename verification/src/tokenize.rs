//! Tokens of a corpus: grapheme clusters, and multigraphs where they occur.
//!
//! The smallest token is a grapheme cluster, so that a mark never parts from
//! the character that carries it. A caller can name multigraphs, groups of
//! characters that count as one token. Where the text that remains starts with
//! a multigraph, that multigraph is the next token, and the text goes on after
//! the last cluster that the multigraph reaches into. Where several multigraphs
//! fit, the one that comes first in the caller's list is taken.

use crate::bigram::texts;
use unicode_segmentation::UnicodeSegmentation;
use vstd::prelude::*;

verus! {

/// The extended grapheme clusters of `text`, in order.
pub uninterp spec fn grapheme_clusters(text: Seq<char>) -> Seq<Seq<char>>;

/// The text that begins with cluster `from`.
pub open spec fn rest(clusters: Seq<Seq<char>>, from: int) -> Seq<char>
    decreases clusters.len() - from,
{
    if from < 0 || from >= clusters.len() {
        Seq::empty()
    } else {
        clusters[from] + rest(clusters, from + 1)
    }
}

/// The position of the first multigraph with which `text` starts, or the
/// number of multigraphs if it starts with none.
pub open spec fn leading(multigraphs: Seq<Seq<char>>, text: Seq<char>) -> int
    decreases multigraphs.len(),
{
    if multigraphs.len() == 0 || multigraphs[0].is_prefix_of(text) {
        0
    } else {
        1 + leading(multigraphs.drop_first(), text)
    }
}

/// The number of clusters after cluster `from` into which a token of `len`
/// characters reaches that begins with cluster `from`.
pub open spec fn overlap(clusters: Seq<Seq<char>>, from: int, len: int) -> nat
    decreases clusters.len() - from,
{
    if from < 0 || from + 1 >= clusters.len() || clusters[from].len() >= len {
        0
    } else {
        1 + overlap(clusters, from + 1, len - clusters[from].len())
    }
}

/// The tokens of the text that begins with cluster `from`.
pub open spec fn tokens_from(
    clusters: Seq<Seq<char>>,
    multigraphs: Seq<Seq<char>>,
    from: int,
) -> Seq<Seq<char>>
    decreases clusters.len() - from,
    via tokens_from_ends
{
    if from < 0 || from >= clusters.len() {
        Seq::empty()
    } else {
        let m = leading(multigraphs, rest(clusters, from));
        if m < multigraphs.len() {
            seq![multigraphs[m]] + tokens_from(
                clusters,
                multigraphs,
                from + 1 + overlap(clusters, from, multigraphs[m].len() as int),
            )
        } else {
            seq![clusters[from]] + tokens_from(clusters, multigraphs, from + 1)
        }
    }
}

/// The tokens of a text with the given grapheme clusters.
pub open spec fn tokenized(clusters: Seq<Seq<char>>, multigraphs: Seq<Seq<char>>) -> Seq<
    Seq<char>,
> {
    tokens_from(clusters, multigraphs, 0)
}

/// The characters of each entry.
pub open spec fn chars_view(list: Seq<Vec<char>>) -> Seq<Seq<char>> {
    list.map_values(|entry: Vec<char>| entry@)
}

/// Splits `text` into its grapheme clusters.
///
/// Calls `UnicodeSegmentation::graphemes` with `is_extended` set, which walks
/// the text from its beginning and hands out one extended grapheme cluster
/// after the other, as the Unicode text segmentation rules define them; each
/// cluster is copied into a string of its own. The result is named, not
/// described: it depends on the text alone.
#[verifier::external_body]
fn graphemes_of(text: &str) -> (clusters: Vec<String>)
    ensures
        texts(clusters@) == grapheme_clusters(text@),
{
    text.graphemes(true).map(String::from).collect()
}

/// The characters of `text`.
fn to_chars(text: &str) -> (chars: Vec<char>)
    ensures
        chars@ == text@,
{
    let mut chars: Vec<char> = Vec::new();
    for c in it: text.chars()
        invariant
            it.seq() == text@,
            chars@ == it.seq().take(it.index() as int),
    {
        proof {
            assert(it.seq().take(it.index() + 1) =~= it.seq().take(it.index() as int).push(c));
        }
        chars.push(c);
    }
    proof {
        assert(text@.take(text@.len() as int) =~= text@);
    }
    chars
}

/// The characters of each string of `list`.
fn all_chars(list: &Vec<String>) -> (all: Vec<Vec<char>>)
    ensures
        chars_view(all@) == texts(list@),
{
    let mut all: Vec<Vec<char>> = Vec::new();
    let mut i: usize = 0;
    while i < list.len()
        invariant
            i <= list.len(),
            chars_view(all@) == texts(list@).take(i as int),
        decreases list.len() - i,
    {
        let ghost done = chars_view(all@);
        all.push(to_chars(list[i].as_str()));
        proof {
            assert(chars_view(all@) =~= done.push(list@[i as int]@));
            assert(texts(list@).take(i as int + 1) =~= texts(list@).take(i as int).push(
                list@[i as int]@,
            ));
        }
        i += 1;
    }
    proof {
        assert(texts(list@).take(i as int) =~= texts(list@));
    }
    all
}

/// Whether the text that begins with cluster `from` starts with `word`.
fn starts_with(clusters: &Vec<Vec<char>>, from: usize, word: &Vec<char>) -> (found: bool)
    requires
        from <= clusters@.len(),
    ensures
        found == word@.is_prefix_of(rest(chars_view(clusters@), from as int)),
{
    let ghost all = chars_view(clusters@);
    let ghost goal = word@.is_prefix_of(rest(all, from as int));
    let len = word.len();
    let mut cur: usize = from;
    let mut done: usize = 0;
    proof {
        assert(word@.skip(0) =~= word@);
    }
    while done < len
        invariant
            from <= cur <= clusters@.len(),
            done <= len == word@.len(),
            all == chars_view(clusters@),
            goal == word@.is_prefix_of(rest(all, from as int)),
            goal <==> word@.skip(done as int).is_prefix_of(rest(all, cur as int)),
        decreases clusters@.len() - cur,
    {
        let ghost left = word@.skip(done as int);
        if cur == clusters.len() {
            return false;
        }
        let cluster = &clusters[cur];
        let ghost after = rest(all, cur as int + 1);
        proof {
            assert(all[cur as int] == cluster@);
            assert(rest(all, cur as int) == cluster@ + after);
        }
        let mut k: usize = 0;
        while k < cluster.len() && done + k < len
            invariant
                k <= cluster@.len(),
                done + k <= len == word@.len(),
                done < len,
                left == word@.skip(done as int),
                all == chars_view(clusters@),
                goal == word@.is_prefix_of(rest(all, from as int)),
                goal <==> left.is_prefix_of(cluster@ + after),
                forall|q: int| 0 <= q < k ==> cluster@[q] == left[q],
            decreases cluster@.len() - k,
        {
            proof {
                assert(left[k as int] == word@[done + k]);
            }
            if cluster[k] != word[done + k] {
                proof {
                    lemma_prefix_of_sum(left, cluster@, after);
                    if left.is_prefix_of(cluster@) {
                        let head = cluster@.subrange(0, left.len() as int);
                        assert(left[k as int] == head[k as int]);
                    }
                    if cluster@.is_prefix_of(left) {
                        let head = left.subrange(0, cluster@.len() as int);
                        assert(cluster@[k as int] == head[k as int]);
                    }
                }
                return false;
            }
            k += 1;
        }
        proof {
            lemma_prefix_of_sum(left, cluster@, after);
            if left.len() <= cluster@.len() {
                assert(k == left.len());
                assert(left =~= cluster@.subrange(0, left.len() as int));
                assert(word@.skip(done + k) =~= Seq::<char>::empty());
                assert(Seq::<char>::empty() =~= after.subrange(0, 0));
            } else {
                assert(k == cluster@.len());
                assert(cluster@ =~= left.subrange(0, cluster@.len() as int));
                assert(left.skip(k as int) =~= word@.skip(done + k));
            }
        }
        done += k;
        cur += 1;
    }
    proof {
        let nothing = word@.skip(done as int);
        assert(nothing =~= rest(all, cur as int).subrange(0, 0));
    }
    true
}

/// Splits a text, given as its grapheme clusters, into tokens.
///
/// At each place the first of `multigraphs` with which the remaining text
/// starts is the next token, and the text goes on after the last cluster into
/// which that multigraph reaches. Where the remaining text starts with none of
/// them, the next cluster is the next token.
pub fn tokenize(clusters: &Vec<String>, multigraphs: &Vec<String>) -> (tokens: Vec<String>)
    ensures
        texts(tokens@) == tokenized(texts(clusters@), texts(multigraphs@)),
{
    let ghost parts = texts(clusters@);
    let ghost words = texts(multigraphs@);
    let cluster_chars = all_chars(clusters);
    let word_chars = all_chars(multigraphs);
    let n = clusters.len();
    let mut tokens: Vec<String> = Vec::new();
    let mut from: usize = 0;
    proof {
        assert(texts(tokens@) + tokens_from(parts, words, 0) =~= tokens_from(parts, words, 0));
        assert(cluster_chars@.len() == chars_view(cluster_chars@).len());
        assert(word_chars@.len() == chars_view(word_chars@).len());
    }
    while from < n
        invariant
            from <= n,
            n == clusters@.len(),
            n == cluster_chars@.len(),
            multigraphs@.len() == word_chars@.len(),
            parts == texts(clusters@),
            words == texts(multigraphs@),
            chars_view(cluster_chars@) == parts,
            chars_view(word_chars@) == words,
            texts(tokens@) + tokens_from(parts, words, from as int) == tokens_from(parts, words, 0),
        decreases n - from,
    {
        let ghost text = rest(parts, from as int);
        let ghost done = texts(tokens@);
        let mut m: usize = 0;
        let mut found = false;
        while m < multigraphs.len() && !found
            invariant
                m <= multigraphs@.len(),
                from < n,
                n == cluster_chars@.len(),
                multigraphs@.len() == word_chars@.len(),
                chars_view(cluster_chars@) == parts,
                chars_view(word_chars@) == words,
                text == rest(parts, from as int),
                forall|i: int| 0 <= i < m ==> !(#[trigger] words[i]).is_prefix_of(text),
                found ==> m < multigraphs@.len() && words[m as int].is_prefix_of(text),
            decreases multigraphs@.len() - m, if found { 0int } else { 1int },
        {
            proof {
                assert(chars_view(word_chars@)[m as int] == word_chars@[m as int]@);
            }
            if starts_with(&cluster_chars, from, &word_chars[m]) {
                found = true;
            } else {
                m += 1;
            }
        }
        proof {
            lemma_leading(words, text, m as int);
        }
        if found {
            let len = word_chars[m].len();
            let mut cur: usize = from;
            let mut need: usize = len;
            proof {
                assert(chars_view(word_chars@)[m as int] == word_chars@[m as int]@);
            }
            while cur + 1 < n && cluster_chars[cur].len() < need
                invariant
                    from <= cur < n,
                    n == cluster_chars@.len(),
                    chars_view(cluster_chars@) == parts,
                    overlap(parts, from as int, len as int) == (cur - from) + overlap(
                        parts,
                        cur as int,
                        need as int,
                    ),
                decreases n - cur,
            {
                proof {
                    assert(parts[cur as int] == cluster_chars@[cur as int]@);
                }
                need -= cluster_chars[cur].len();
                cur += 1;
            }
            proof {
                assert(parts[cur as int] == cluster_chars@[cur as int]@);
                assert(overlap(parts, cur as int, need as int) == 0);
            }
            tokens.push(multigraphs[m].clone());
            proof {
                assert(texts(tokens@) =~= done.push(words[m as int]));
                assert(done.push(words[m as int]) + tokens_from(parts, words, cur as int + 1)
                    =~= done + tokens_from(parts, words, from as int));
            }
            from = cur + 1;
        } else {
            tokens.push(clusters[from].clone());
            proof {
                assert(texts(tokens@) =~= done.push(parts[from as int]));
                assert(done.push(parts[from as int]) + tokens_from(parts, words, from as int + 1)
                    =~= done + tokens_from(parts, words, from as int));
            }
            from += 1;
        }
    }
    proof {
        assert(texts(tokens@) + tokens_from(parts, words, from as int) =~= texts(tokens@));
    }
    tokens
}

/// A text to be split into tokens, with the multigraphs that count as one token.
pub struct PwTokens<'a> {
    source: &'a str,
    ntokens: Vec<String>,
}

impl<'a> PwTokens<'a> {
    /// The characters of the text.
    pub closed spec fn source(&self) -> Seq<char> {
        self.source@
    }

    /// The multigraphs, in the order of their priority.
    pub closed spec fn multigraphs(&self) -> Seq<Seq<char>> {
        texts(self.ntokens@)
    }

    /// The text `source` with the multigraphs `ntokens`, of which an earlier
    /// one is preferred to a later one where both fit.
    pub fn new(source: &'a str, ntokens: Vec<String>) -> (tokens: Self)
        ensures
            tokens.source() == source@,
            tokens.multigraphs() == texts(ntokens@),
    {
        PwTokens { source, ntokens }
    }

    /// The tokens of the text, in order.
    pub fn iter(&self) -> (tokens: Vec<String>)
        ensures
            texts(tokens@) == tokenized(grapheme_clusters(self.source()), self.multigraphs()),
    {
        let clusters = graphemes_of(self.source);
        tokenize(&clusters, &self.ntokens)
    }
}

#[via_fn]
proof fn tokens_from_ends(clusters: Seq<Seq<char>>, multigraphs: Seq<Seq<char>>, from: int) {
    if 0 <= from < clusters.len() {
        let m = leading(multigraphs, rest(clusters, from));
        lemma_overlap(clusters, from, multigraphs[m].len() as int);
    }
}

/// A token that begins in the text also ends in it: it reaches into no more
/// clusters than there are.
pub proof fn lemma_overlap(clusters: Seq<Seq<char>>, from: int, len: int)
    requires
        0 <= from < clusters.len(),
    ensures
        from + 1 + overlap(clusters, from, len) <= clusters.len(),
    decreases clusters.len() - from,
{
    if !(from + 1 >= clusters.len() || clusters[from].len() >= len) {
        lemma_overlap(clusters, from + 1, len - clusters[from].len());
    }
}

/// `leading` is the one position of a multigraph with which the text starts
/// that has no such multigraph before it, or the end.
pub proof fn lemma_leading(multigraphs: Seq<Seq<char>>, text: Seq<char>, m: int)
    requires
        0 <= m <= multigraphs.len(),
        forall|i: int| 0 <= i < m ==> !(#[trigger] multigraphs[i]).is_prefix_of(text),
        m < multigraphs.len() ==> multigraphs[m].is_prefix_of(text),
    ensures
        leading(multigraphs, text) == m,
    decreases multigraphs.len(),
{
    if m > 0 {
        let others = multigraphs.drop_first();
        assert(!multigraphs[0].is_prefix_of(text));
        assert forall|i: int| 0 <= i < m - 1 implies !(#[trigger] others[i]).is_prefix_of(
            text,
        ) by {
            assert(others[i] == multigraphs[i + 1]);
        }
        if m < multigraphs.len() {
            assert(others[m - 1] == multigraphs[m]);
        }
        lemma_leading(others, text, m - 1);
    }
}

/// A word is at the beginning of two texts put together exactly if it is at
/// the beginning of the first, where it is not longer than that, and
/// otherwise begins with the first and goes on at the beginning of the second.
pub proof fn lemma_prefix_of_sum(word: Seq<char>, first: Seq<char>, second: Seq<char>)
    ensures
        word.len() <= first.len() ==> (word.is_prefix_of(first + second) <==> word.is_prefix_of(
            first,
        )),
        word.len() >= first.len() ==> (word.is_prefix_of(first + second) <==> first.is_prefix_of(
            word,
        ) && word.skip(first.len() as int).is_prefix_of(second)),
{
    let both = first + second;
    if word.len() <= first.len() {
        if word.is_prefix_of(both) {
            assert(word =~= first.subrange(0, word.len() as int)) by {
                assert(word =~= both.subrange(0, word.len() as int));
            }
        }
        if word.is_prefix_of(first) {
            assert(word =~= both.subrange(0, word.len() as int)) by {
                assert(word =~= first.subrange(0, word.len() as int));
            }
        }
    }
    if word.len() >= first.len() {
        let tail = word.skip(first.len() as int);
        if word.is_prefix_of(both) {
            assert(word =~= both.subrange(0, word.len() as int));
            assert(first =~= word.subrange(0, first.len() as int)) by {
                assert forall|i: int| 0 <= i < first.len() implies first[i] == word[i] by {
                    assert(word[i] == both.subrange(0, word.len() as int)[i]);
                }
            }
            assert(tail =~= second.subrange(0, tail.len() as int)) by {
                assert forall|i: int| 0 <= i < tail.len() implies tail[i] == second[i] by {
                    assert(word[i + first.len()] == both.subrange(0, word.len() as int)[i
                        + first.len()]);
                }
            }
        }
        if first.is_prefix_of(word) && tail.is_prefix_of(second) {
            assert(first =~= word.subrange(0, first.len() as int));
            assert(tail =~= second.subrange(0, tail.len() as int));
            assert(word =~= both.subrange(0, word.len() as int)) by {
                assert forall|i: int| 0 <= i < word.len() implies word[i] == both[i] by {
                    if i < first.len() {
                        assert(first[i] == word.subrange(0, first.len() as int)[i]);
                    } else {
                        assert(tail[i - first.len()] == second.subrange(0, tail.len() as int)[i
                            - first.len()]);
                    }
                }
            }
        }
    }
}

/// Without multigraphs the tokens are the grapheme clusters.
pub proof fn lemma_tokens_plain(clusters: Seq<Seq<char>>, from: int)
    requires
        0 <= from <= clusters.len(),
    ensures
        tokens_from(clusters, Seq::empty(), from) == clusters.skip(from),
    decreases clusters.len() - from,
{
    if from < clusters.len() {
        lemma_tokens_plain(clusters, from + 1);
        assert(seq![clusters[from]] + clusters.skip(from + 1) =~= clusters.skip(from));
    } else {
        assert(clusters.skip(from) =~= Seq::<Seq<char>>::empty());
    }
}

} // verus!
