//! The ranking structure: scored candidates ordered by score descending,
//! ties broken by input position ascending, with one-at-a-time extraction of
//! the highest-ranked remaining candidate.

use vstd::prelude::*;
use vstd::multiset::Multiset;
use vstd::seq_lib::lemma_multiset_commutative;
use crate::components::tokenize;
use crate::components::tokenize_spec;
use crate::scoring::byte_views;
use crate::scoring::lemma_identical_candidate_score;
use crate::scoring::lemma_score_at_most_reference_len;
use crate::scoring::match_len;
use crate::scoring::score;
use crate::scoring::score_spec;

verus! {

/// One scored candidate: its proximity score, its position in the original
/// input sequence, and its raw path bytes exactly as received.
pub struct Entry {
    pub score: i128,
    pub index: usize,
    pub path: Vec<u8>,
}

impl Entry {
    /// The mathematical model of an entry: score, input position, raw bytes.
    pub open spec fn model(&self) -> (int, int, Seq<u8>) {
        (self.score as int, self.index as int, self.path@)
    }
}

/// The models of a sequence of entries.
pub open spec fn entry_models(es: Seq<Entry>) -> Seq<(int, int, Seq<u8>)> {
    es.map_values(|e: Entry| e.model())
}

/// `a` is ranked strictly higher than `b`: a higher score, or an equal score
/// and an earlier input position.
pub open spec fn ranks_before(a: (int, int, Seq<u8>), b: (int, int, Seq<u8>)) -> bool {
    a.0 > b.0 || (a.0 == b.0 && a.1 < b.1)
}

/// `a` is ranked at least as high as `b`.
pub open spec fn ranks_at_least(a: (int, int, Seq<u8>), b: (int, int, Seq<u8>)) -> bool {
    a.0 > b.0 || (a.0 == b.0 && a.1 <= b.1)
}

/// The sequence is ordered from highest to lowest rank.
pub open spec fn sorted_by_rank(s: Seq<(int, int, Seq<u8>)>) -> bool {
    forall|i: int, j: int| 0 <= i < j < s.len() ==> ranks_at_least(s[i], s[j])
}

/// Where a candidate comes to stand among already ranked candidates: after
/// every one ranked at least as high as it, before all others.
pub open spec fn spec_insert(s: Seq<(int, int, Seq<u8>)>, e: (int, int, Seq<u8>)) -> Seq<
    (int, int, Seq<u8>),
>
    decreases s.len(),
{
    if s.len() == 0 {
        seq![e]
    } else if ranks_before(e, s[0]) {
        seq![e] + s
    } else {
        seq![s[0]] + spec_insert(s.drop_first(), e)
    }
}

/// Insertion adds exactly the new candidate to the contents.
proof fn lemma_spec_insert_multiset(s: Seq<(int, int, Seq<u8>)>, e: (int, int, Seq<u8>))
    ensures
        spec_insert(s, e).to_multiset() == s.to_multiset().insert(e),
    decreases s.len(),
{
    broadcast use vstd::seq_lib::group_to_multiset_ensures;

    if s.len() == 0 {
        assert(spec_insert(s, e) =~= Seq::empty().push(e));
        assert(s.to_multiset() =~= Multiset::empty());
    } else if ranks_before(e, s[0]) {
        assert(spec_insert(s, e) =~= s.insert(0, e));
        assert(s.insert(0, e).remove(0) =~= s);
        assert(s.insert(0, e)[0] == e);
        assert(s.insert(0, e).to_multiset().remove(e) == s.to_multiset());
        assert(s.insert(0, e).to_multiset().contains(e));
        assert(s.insert(0, e).to_multiset() =~= s.to_multiset().insert(e));
    } else {
        let rest = spec_insert(s.drop_first(), e);
        lemma_spec_insert_multiset(s.drop_first(), e);
        lemma_multiset_commutative(seq![s[0]], rest);
        assert(s =~= seq![s[0]] + s.drop_first());
        lemma_multiset_commutative(seq![s[0]], s.drop_first());
        assert(seq![s[0]].to_multiset().add(s.drop_first().to_multiset().insert(e)) =~= seq![
            s[0],
        ].to_multiset().add(s.drop_first().to_multiset()).insert(e));
    }
}

/// Insertion keeps the sequence ordered by rank.
proof fn lemma_spec_insert_sorted(s: Seq<(int, int, Seq<u8>)>, e: (int, int, Seq<u8>))
    requires
        sorted_by_rank(s),
    ensures
        sorted_by_rank(spec_insert(s, e)),
    decreases s.len(),
{
    broadcast use vstd::seq_lib::group_to_multiset_ensures;

    if s.len() == 0 {
    } else if ranks_before(e, s[0]) {
        let t = seq![e] + s;
        assert forall|i: int, j: int| 0 <= i < j < t.len() implies ranks_at_least(t[i], t[j]) by {
            if i == 0 {
                assert(ranks_at_least(e, s[0]));
                if j > 1 {
                    assert(ranks_at_least(s[0], s[j - 1]));
                }
            } else {
                assert(ranks_at_least(s[i - 1], s[j - 1]));
            }
        }
    } else {
        let dropped = s.drop_first();
        assert forall|i: int, j: int|
            0 <= i < j < dropped.len() implies ranks_at_least(dropped[i], dropped[j]) by {
            assert(ranks_at_least(s[i + 1], s[j + 1]));
        }
        lemma_spec_insert_sorted(dropped, e);
        lemma_spec_insert_multiset(dropped, e);
        let rest = spec_insert(dropped, e);
        let t = seq![s[0]] + rest;
        assert forall|i: int, j: int| 0 <= i < j < t.len() implies ranks_at_least(t[i], t[j]) by {
            if i == 0 {
                let x = rest[j - 1];
                assert(rest.to_multiset().contains(x));
                if x == e {
                    assert(ranks_at_least(s[0], e));
                } else {
                    assert(dropped.to_multiset().contains(x));
                    let k = choose|k: int| 0 <= k < dropped.len() && dropped[k] == x;
                    assert(ranks_at_least(s[0], s[k + 1]));
                }
            } else {
                assert(ranks_at_least(rest[i - 1], rest[j - 1]));
            }
        }
    }
}

/// Inserting at the first position whose occupant the new candidate outranks
/// realizes `spec_insert` positionally.
proof fn lemma_spec_insert_at(s: Seq<(int, int, Seq<u8>)>, e: (int, int, Seq<u8>), idx: int)
    requires
        0 <= idx <= s.len(),
        forall|j: int| 0 <= j < idx ==> !ranks_before(e, s[j]),
        idx < s.len() ==> ranks_before(e, s[idx]),
    ensures
        spec_insert(s, e) == s.insert(idx, e),
    decreases idx,
{
    if idx == 0 {
        if s.len() == 0 {
            assert(spec_insert(s, e) =~= s.insert(0, e));
        } else {
            assert(seq![e] + s =~= s.insert(0, e));
        }
    } else {
        let dropped = s.drop_first();
        assert forall|j: int| 0 <= j < idx - 1 implies !ranks_before(e, dropped[j]) by {
            assert(!ranks_before(e, s[j + 1]));
        }
        lemma_spec_insert_at(dropped, e, idx - 1);
        assert(seq![s[0]] + dropped.insert(idx - 1, e) =~= s.insert(idx, e));
    }
}

/// Whether entry `a` is ranked strictly higher than entry `b`.
fn entry_ranks_before(a: &Entry, b: &Entry) -> (r: bool)
    ensures
        r == ranks_before(a.model(), b.model()),
{
    a.score > b.score || (a.score == b.score && a.index < b.index)
}

/// The ranking structure: holds every scored candidate, ordered by score
/// descending and input position ascending, and hands them out one at a time
/// from the top. Kept sorted by rank, so the highest-ranked remaining
/// candidate always stands at the front.
pub struct Ranking {
    entries: Vec<Entry>,
}

impl View for Ranking {
    type V = Seq<(int, int, Seq<u8>)>;

    closed spec fn view(&self) -> Seq<(int, int, Seq<u8>)> {
        entry_models(self.entries@)
    }
}

impl Ranking {
    /// The structure's invariant: its contents are ordered by rank.
    pub open spec fn wf(&self) -> bool {
        sorted_by_rank(self@)
    }

    /// An empty ranking structure.
    pub fn new() -> (r: Ranking)
        ensures
            r.wf(),
            r@ == Seq::<(int, int, Seq<u8>)>::empty(),
    {
        let r = Ranking { entries: Vec::new() };
        proof {
            assert(r@ =~= Seq::<(int, int, Seq<u8>)>::empty());
        }
        r
    }

    /// How many candidates remain.
    pub fn len(&self) -> (n: usize)
        ensures
            n == self@.len(),
    {
        self.entries.len()
    }

    /// Adds one scored candidate at its place in the rank order.
    pub fn insert(&mut self, e: Entry)
        requires
            old(self).wf(),
        ensures
            final(self).wf(),
            final(self)@ == spec_insert(old(self)@, e.model()),
    {
        let ghost s = self@;
        let ghost em = e.model();
        let n = self.entries.len();
        let mut idx: usize = 0;
        while idx < n && !entry_ranks_before(&e, &self.entries[idx])
            invariant
                0 <= idx <= n,
                n == self.entries@.len(),
                self@ == s,
                *self == *old(self),
                em == e.model(),
                forall|j: int| 0 <= j < idx ==> !ranks_before(em, s[j]),
            decreases n - idx,
        {
            proof {
                assert(s[idx as int] == self.entries@[idx as int].model());
            }
            idx = idx + 1;
        }
        proof {
            lemma_spec_insert_at(s, em, idx as int);
        }
        self.entries.insert(idx, e);
        proof {
            assert(entry_models(self.entries@) =~= s.insert(idx as int, em));
            lemma_spec_insert_sorted(s, em);
        }
    }

    /// Removes and returns the highest-ranked remaining candidate, or None
    /// exactly when no candidate remains. The returned candidate ranks at
    /// least as high as every one left behind.
    pub fn extract_max(&mut self) -> (r: Option<Entry>)
        requires
            old(self).wf(),
        ensures
            final(self).wf(),
            old(self)@.len() == 0 ==> r is None && final(self)@ == old(self)@,
            old(self)@.len() > 0 ==> (r matches Some(e) && e.model() == old(self)@[0]
                && final(self)@ == old(self)@.drop_first()),
            r matches Some(e) ==> forall|j: int|
                0 <= j < final(self)@.len() ==> ranks_at_least(e.model(), final(self)@[j]),
    {
        if self.entries.len() == 0 {
            None
        } else {
            let ghost s = self@;
            let e = self.entries.remove(0);
            proof {
                assert(entry_models(self.entries@) =~= s.drop_first());
                assert forall|j: int| 0 <= j < self@.len() implies ranks_at_least(
                    e.model(),
                    self@[j],
                ) by {
                    assert(ranks_at_least(s[0], s[j + 1]));
                }
            }
            Some(e)
        }
    }
}

/// The model of input candidate `i`: its score against the reference
/// components, its input position, and its raw bytes.
pub open spec fn candidate_model(paths: Seq<Seq<u8>>, refc: Seq<Seq<u8>>, i: int) -> (
    int,
    int,
    Seq<u8>,
) {
    (score_spec(tokenize_spec(paths[i]), refc), i, paths[i])
}

/// The ranked sequence of the first `n` input candidates.
pub open spec fn rank_model_prefix(paths: Seq<Seq<u8>>, refc: Seq<Seq<u8>>, n: int) -> Seq<
    (int, int, Seq<u8>),
>
    decreases n,
{
    if n <= 0 {
        Seq::empty()
    } else {
        spec_insert(rank_model_prefix(paths, refc, n - 1), candidate_model(paths, refc, n - 1))
    }
}

/// The full ranking of `paths` against the reference path `refbytes`: every
/// candidate scored against the reference's components and ordered by score
/// descending, ties by input position ascending.
pub open spec fn rank_model(paths: Seq<Seq<u8>>, refbytes: Seq<u8>) -> Seq<(int, int, Seq<u8>)> {
    rank_model_prefix(paths, tokenize_spec(refbytes), paths.len() as int)
}

/// The raw path bytes of ranked candidates, in rank order.
pub open spec fn ranked_paths(s: Seq<(int, int, Seq<u8>)>) -> Seq<Seq<u8>> {
    s.map_values(|m: (int, int, Seq<u8>)| m.2)
}

/// Insertion adds exactly the new candidate's path to the ranked paths.
proof fn lemma_spec_insert_paths_multiset(s: Seq<(int, int, Seq<u8>)>, e: (int, int, Seq<u8>))
    ensures
        ranked_paths(spec_insert(s, e)).to_multiset() == ranked_paths(s).to_multiset().insert(e.2),
    decreases s.len(),
{
    broadcast use vstd::seq_lib::group_to_multiset_ensures;

    if s.len() == 0 {
        assert(ranked_paths(spec_insert(s, e)) =~= Seq::empty().push(e.2));
        assert(ranked_paths(s).to_multiset() =~= Multiset::empty());
    } else if ranks_before(e, s[0]) {
        let single = Seq::empty().push(e.2);
        assert(ranked_paths(seq![e] + s) =~= single + ranked_paths(s));
        lemma_multiset_commutative(single, ranked_paths(s));
        assert(single.to_multiset().add(ranked_paths(s).to_multiset()) =~= ranked_paths(
            s,
        ).to_multiset().insert(e.2));
    } else {
        let rest = spec_insert(s.drop_first(), e);
        let single = Seq::empty().push(s[0].2);
        lemma_spec_insert_paths_multiset(s.drop_first(), e);
        assert(ranked_paths(seq![s[0]] + rest) =~= single + ranked_paths(rest));
        lemma_multiset_commutative(single, ranked_paths(rest));
        assert(ranked_paths(s) =~= single + ranked_paths(s.drop_first()));
        lemma_multiset_commutative(single, ranked_paths(s.drop_first()));
        assert(single.to_multiset().add(ranked_paths(s.drop_first()).to_multiset().insert(e.2))
            =~= single.to_multiset().add(ranked_paths(s.drop_first()).to_multiset()).insert(e.2));
    }
}

/// The ranked paths of the first `n` candidates hold exactly those `n` paths.
proof fn lemma_rank_prefix_paths_multiset(paths: Seq<Seq<u8>>, refc: Seq<Seq<u8>>, n: int)
    requires
        0 <= n <= paths.len(),
    ensures
        ranked_paths(rank_model_prefix(paths, refc, n)).to_multiset() == paths.take(
            n,
        ).to_multiset(),
    decreases n,
{
    broadcast use vstd::seq_lib::group_to_multiset_ensures;

    if n == 0 {
        assert(ranked_paths(rank_model_prefix(paths, refc, 0)) =~= Seq::<Seq<u8>>::empty());
        assert(paths.take(0) =~= Seq::<Seq<u8>>::empty());
    } else {
        lemma_rank_prefix_paths_multiset(paths, refc, n - 1);
        lemma_spec_insert_paths_multiset(
            rank_model_prefix(paths, refc, n - 1),
            candidate_model(paths, refc, n - 1),
        );
        assert(paths.take(n) =~= paths.take(n - 1).push(paths[n - 1]));
    }
}

/// Ranking neither adds, drops nor mutates a path: the ranked output is a
/// permutation of the input, whatever the reference path.
pub proof fn lemma_rank_model_permutes(paths: Seq<Seq<u8>>, refbytes: Seq<u8>)
    ensures
        ranked_paths(rank_model(paths, refbytes)).to_multiset() == paths.to_multiset(),
{
    lemma_rank_prefix_paths_multiset(paths, tokenize_spec(refbytes), paths.len() as int);
    assert(paths.take(paths.len() as int) =~= paths);
}

/// The ranking of any prefix of the input is ordered by rank.
proof fn lemma_rank_prefix_sorted(paths: Seq<Seq<u8>>, refc: Seq<Seq<u8>>, n: int)
    ensures
        sorted_by_rank(rank_model_prefix(paths, refc, n)),
    decreases n,
{
    if n > 0 {
        lemma_rank_prefix_sorted(paths, refc, n - 1);
        lemma_spec_insert_sorted(
            rank_model_prefix(paths, refc, n - 1),
            candidate_model(paths, refc, n - 1),
        );
    }
}

/// The full ranking is ordered by score descending, ties by input position.
pub proof fn lemma_rank_model_sorted(paths: Seq<Seq<u8>>, refbytes: Seq<u8>)
    ensures
        sorted_by_rank(rank_model(paths, refbytes)),
{
    lemma_rank_prefix_sorted(paths, tokenize_spec(refbytes), paths.len() as int);
}

/// Every element of an insertion is the new candidate or one already there.
proof fn lemma_spec_insert_elements(s: Seq<(int, int, Seq<u8>)>, e: (int, int, Seq<u8>))
    ensures
        forall|k: int|
            0 <= k < spec_insert(s, e).len() ==> (#[trigger] spec_insert(s, e)[k] == e
                || s.contains(spec_insert(s, e)[k])),
    decreases s.len(),
{
    if s.len() == 0 {
    } else if ranks_before(e, s[0]) {
        assert forall|k: int|
            0 <= k < spec_insert(s, e).len() implies (#[trigger] spec_insert(s, e)[k] == e
            || s.contains(spec_insert(s, e)[k])) by {
            if k > 0 {
                assert(spec_insert(s, e)[k] == s[k - 1]);
            }
        }
    } else {
        lemma_spec_insert_elements(s.drop_first(), e);
        let rest = spec_insert(s.drop_first(), e);
        assert forall|k: int|
            0 <= k < spec_insert(s, e).len() implies (#[trigger] spec_insert(s, e)[k] == e
            || s.contains(spec_insert(s, e)[k])) by {
            if k == 0 {
                assert(s[0] == spec_insert(s, e)[0]);
            } else {
                assert(spec_insert(s, e)[k] == rest[k - 1]);
                if rest[k - 1] != e {
                    let i = choose|i: int| 0 <= i < s.drop_first().len() && s.drop_first()[i]
                        == rest[k - 1];
                    assert(s[i + 1] == rest[k - 1]);
                }
            }
        }
    }
}

/// Every ranked element is the model of the input candidate at its recorded
/// position: its path is that input path and its score is that path's score.
proof fn lemma_rank_prefix_elements(paths: Seq<Seq<u8>>, refc: Seq<Seq<u8>>, n: int)
    requires
        0 <= n <= paths.len(),
    ensures
        forall|k: int|
            0 <= k < rank_model_prefix(paths, refc, n).len() ==> {
                let m = #[trigger] rank_model_prefix(paths, refc, n)[k];
                0 <= m.1 < n && m == candidate_model(paths, refc, m.1)
            },
    decreases n,
{
    if n > 0 {
        let prev = rank_model_prefix(paths, refc, n - 1);
        let e = candidate_model(paths, refc, n - 1);
        lemma_rank_prefix_elements(paths, refc, n - 1);
        lemma_spec_insert_elements(prev, e);
        assert forall|k: int| 0 <= k < rank_model_prefix(paths, refc, n).len() implies {
            let m = #[trigger] rank_model_prefix(paths, refc, n)[k];
            0 <= m.1 < n && m == candidate_model(paths, refc, m.1)
        } by {
            let m = rank_model_prefix(paths, refc, n)[k];
            if m != e {
                assert(prev.contains(m));
                let i = choose|i: int| 0 <= i < prev.len() && prev[i] == m;
            }
        }
    }
}

/// A candidate identical to the reference path ranks strictly above every
/// candidate sharing fewer leading components with the reference than the
/// reference has.
pub proof fn lemma_exact_match_ranks_above(
    paths: Seq<Seq<u8>>,
    refbytes: Seq<u8>,
    pi: int,
    pj: int,
)
    requires
        0 <= pi < rank_model(paths, refbytes).len(),
        0 <= pj < rank_model(paths, refbytes).len(),
        tokenize_spec(rank_model(paths, refbytes)[pi].2) == tokenize_spec(refbytes),
        match_len(tokenize_spec(rank_model(paths, refbytes)[pj].2), tokenize_spec(refbytes))
            < tokenize_spec(refbytes).len(),
    ensures
        pi < pj,
{
    let refc = tokenize_spec(refbytes);
    let ranked = rank_model(paths, refbytes);
    lemma_rank_prefix_elements(paths, refc, paths.len() as int);
    lemma_rank_model_sorted(paths, refbytes);
    lemma_identical_candidate_score(refc);
    lemma_score_at_most_reference_len(tokenize_spec(ranked[pj].2), refc);
    assert(ranked[pi].0 == refc.len());
    assert(ranked[pj].0 < refc.len());
    if pj < pi {
        assert(ranks_at_least(ranked[pj], ranked[pi]));
    }
}

/// A candidate ranked below only candidates with equal score and earlier
/// positions is appended at the end.
proof fn lemma_spec_insert_appends(s: Seq<(int, int, Seq<u8>)>, e: (int, int, Seq<u8>))
    requires
        forall|k: int| 0 <= k < s.len() ==> (#[trigger] s[k]).0 == e.0 && s[k].1 < e.1,
    ensures
        spec_insert(s, e) == s.push(e),
    decreases s.len(),
{
    if s.len() == 0 {
        assert(seq![e] =~= s.push(e));
    } else {
        assert(!ranks_before(e, s[0]));
        assert forall|k: int|
            0 <= k < s.drop_first().len() implies (#[trigger] s.drop_first()[k]).0 == e.0
            && s.drop_first()[k].1 < e.1 by {
            assert(s[k + 1].0 == e.0 && s[k + 1].1 < e.1);
        }
        lemma_spec_insert_appends(s.drop_first(), e);
        assert(seq![s[0]] + s.drop_first().push(e) =~= s.push(e));
    }
}

/// When every candidate ties in score, the ranking of any prefix is that
/// prefix's candidates in input order.
proof fn lemma_rank_prefix_stable(paths: Seq<Seq<u8>>, refc: Seq<Seq<u8>>, n: int)
    requires
        0 <= n <= paths.len(),
        forall|i: int, j: int|
            0 <= i < paths.len() && 0 <= j < paths.len() ==> score_spec(
                #[trigger] tokenize_spec(paths[i]),
                refc,
            ) == score_spec(#[trigger] tokenize_spec(paths[j]), refc),
    ensures
        rank_model_prefix(paths, refc, n) == Seq::new(
            n as nat,
            |i: int| candidate_model(paths, refc, i),
        ),
    decreases n,
{
    if n > 0 {
        lemma_rank_prefix_stable(paths, refc, n - 1);
        let prev = Seq::new((n - 1) as nat, |i: int| candidate_model(paths, refc, i));
        let e = candidate_model(paths, refc, n - 1);
        assert forall|k: int| 0 <= k < prev.len() implies (#[trigger] prev[k]).0 == e.0
            && prev[k].1 < e.1 by {
            assert(tokenize_spec(paths[k]) == tokenize_spec(paths[k]));
            assert(tokenize_spec(paths[n - 1]) == tokenize_spec(paths[n - 1]));
        }
        lemma_spec_insert_appends(prev, e);
        assert(prev.push(e) =~= Seq::new(n as nat, |i: int| candidate_model(paths, refc, i)));
    }
}

/// When every candidate ties in score — for instance a reference that shares
/// no component with any candidate — the ranked output equals the input.
pub proof fn lemma_all_ties_stable(paths: Seq<Seq<u8>>, refbytes: Seq<u8>)
    requires
        forall|i: int, j: int|
            0 <= i < paths.len() && 0 <= j < paths.len() ==> score_spec(
                #[trigger] tokenize_spec(paths[i]),
                tokenize_spec(refbytes),
            ) == score_spec(#[trigger] tokenize_spec(paths[j]), tokenize_spec(refbytes)),
    ensures
        ranked_paths(rank_model(paths, refbytes)) == paths,
{
    lemma_rank_prefix_stable(paths, tokenize_spec(refbytes), paths.len() as int);
    assert(ranked_paths(
        Seq::new(paths.len(), |i: int| candidate_model(paths, tokenize_spec(refbytes), i)),
    ) =~= paths);
}

/// Scores every input path against the reference path and returns the
/// ranking structure holding them all, ready for extraction one at a time in
/// rank order.
pub fn reorder(input: Vec<Vec<u8>>, reference: &Vec<u8>) -> (r: Ranking)
    ensures
        r.wf(),
        r@ == rank_model(byte_views(input@), reference@),
{
    let refc = tokenize(reference);
    let ghost refm = tokenize_spec(reference@);
    let mut rk = Ranking::new();
    let mut rest = input;
    let ghost paths = byte_views(rest@);
    proof {
        assert(rest.len() == rest@.len());
        assert(paths.len() == rest@.len());
    }
    let mut i: usize = 0;
    while rest.len() > 0
        invariant
            rk.wf(),
            paths.len() <= usize::MAX,
            i + rest@.len() == paths.len(),
            byte_views(rest@) == paths.skip(i as int),
            rk@ == rank_model_prefix(paths, refm, i as int),
            byte_views(refc@) == refm,
        decreases rest@.len(),
    {
        let ghost rest_before = rest@;
        let p = rest.remove(0);
        proof {
            assert(byte_views(rest@) =~= byte_views(rest_before).drop_first());
            assert(paths.skip(i as int).drop_first() =~= paths.skip(i as int + 1));
            assert(p@ == paths.skip(i as int)[0]);
            assert(p@ == paths[i as int]);
        }
        let comps = tokenize(&p);
        let s = score(&comps, &refc);
        let e = Entry { score: s, index: i, path: p };
        proof {
            assert(e.model() == candidate_model(paths, refm, i as int));
        }
        rk.insert(e);
        i = i + 1;
    }
    proof {
        assert(paths.skip(i as int).len() == 0);
        assert(i == paths.len());
    }
    rk
}

/// Scores and fully ranks the input: the output is the input's paths,
/// reordered by descending proximity score with ties in input order — a
/// permutation of the input.
pub fn reorder_all(input: Vec<Vec<u8>>, reference: &Vec<u8>) -> (out: Vec<Vec<u8>>)
    ensures
        byte_views(out@) == ranked_paths(rank_model(byte_views(input@), reference@)),
        byte_views(out@).to_multiset() == byte_views(input@).to_multiset(),
{
    let ghost paths = byte_views(input@);
    let mut rk = reorder(input, reference);
    let ghost ranked = rank_model(paths, reference@);
    let mut out: Vec<Vec<u8>> = Vec::new();
    proof {
        assert(ranked.skip(0) =~= ranked);
        assert(byte_views(out@) =~= ranked_paths(ranked).take(0));
    }
    while rk.len() > 0
        invariant
            rk.wf(),
            out@.len() <= ranked.len(),
            rk@ == ranked.skip(out@.len() as int),
            byte_views(out@) == ranked_paths(ranked).take(out@.len() as int),
        decreases rk@.len(),
    {
        let ghost k = out@.len() as int;
        let ghost out_before = out@;
        let e = rk.extract_max();
        match e {
            Some(en) => {
                proof {
                    assert(en.model() == ranked.skip(k)[0]);
                    assert(en.model() == ranked[k]);
                    assert(ranked.skip(k).drop_first() =~= ranked.skip(k + 1));
                }
                out.push(en.path);
                proof {
                    assert(byte_views(out@) =~= ranked_paths(ranked).take(k + 1));
                }
            },
            None => {
                proof {
                    assert(false);
                }
            },
        }
    }
    proof {
        assert(ranked.skip(out@.len() as int).len() == 0);
        assert(ranked_paths(ranked).take(out@.len() as int) =~= ranked_paths(ranked));
        lemma_rank_model_permutes(paths, reference@);
    }
    out
}

} // verus!
