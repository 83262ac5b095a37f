//! The secondary ranker: re-orders already scored candidates so that
//! candidates sharing a score stand in ascending lexicographic byte order of
//! their raw paths instead of input order. Groups of equal score keep their
//! order by descending score. Byte-identical duplicate paths are preserved,
//! not collapsed: the output is a permutation of the input.

use vstd::prelude::*;
use vstd::multiset::Multiset;
use vstd::seq_lib::lemma_multiset_commutative;
use crate::rank::Entry;
use crate::rank::lemma_rank_model_permutes;
use crate::rank::rank_model;
use crate::rank::ranked_paths;
use crate::rank::reorder;
use crate::scoring::byte_views;

verus! {

/// `a` is lexicographically no greater than `b`, comparing byte by byte; a
/// proper prefix comes first.
pub open spec fn lex_leq(a: Seq<u8>, b: Seq<u8>) -> bool
    decreases a.len(),
{
    if a.len() == 0 {
        true
    } else if b.len() == 0 {
        false
    } else if a[0] < b[0] {
        true
    } else if a[0] > b[0] {
        false
    } else {
        lex_leq(a.drop_first(), b.drop_first())
    }
}

/// `a` is lexicographically strictly smaller than `b`.
pub open spec fn lex_lt(a: Seq<u8>, b: Seq<u8>) -> bool {
    lex_leq(a, b) && a != b
}

proof fn lemma_lex_leq_refl(a: Seq<u8>)
    ensures
        lex_leq(a, a),
    decreases a.len(),
{
    if a.len() > 0 {
        lemma_lex_leq_refl(a.drop_first());
    }
}

proof fn lemma_lex_leq_total(a: Seq<u8>, b: Seq<u8>)
    ensures
        lex_leq(a, b) || lex_leq(b, a),
    decreases a.len(),
{
    if a.len() > 0 && b.len() > 0 && a[0] == b[0] {
        lemma_lex_leq_total(a.drop_first(), b.drop_first());
    }
}

proof fn lemma_lex_leq_trans(a: Seq<u8>, b: Seq<u8>, c: Seq<u8>)
    requires
        lex_leq(a, b),
        lex_leq(b, c),
    ensures
        lex_leq(a, c),
    decreases a.len(),
{
    if a.len() > 0 && b.len() > 0 && c.len() > 0 && a[0] == b[0] && b[0] == c[0] {
        lemma_lex_leq_trans(a.drop_first(), b.drop_first(), c.drop_first());
    }
}

/// The secondary model of a candidate: its score and its raw path bytes.
pub open spec fn sec_entry_model(e: Entry) -> (int, Seq<u8>) {
    (e.score as int, e.path@)
}

/// The secondary models of a sequence of entries.
pub open spec fn sec_entry_models(es: Seq<Entry>) -> Seq<(int, Seq<u8>)> {
    es.map_values(|e: Entry| sec_entry_model(e))
}

/// `a` stands strictly before `b` in the secondary order: a higher score, or
/// an equal score and lexicographically smaller path bytes.
pub open spec fn sec_ranks_before(a: (int, Seq<u8>), b: (int, Seq<u8>)) -> bool {
    a.0 > b.0 || (a.0 == b.0 && lex_lt(a.1, b.1))
}

/// `a` stands at or before `b` in the secondary order.
pub open spec fn sec_at_least(a: (int, Seq<u8>), b: (int, Seq<u8>)) -> bool {
    a.0 > b.0 || (a.0 == b.0 && lex_leq(a.1, b.1))
}

/// The sequence is ordered by descending score, ties by ascending
/// lexicographic byte order.
pub open spec fn sorted_sec(s: Seq<(int, Seq<u8>)>) -> bool {
    forall|i: int, j: int| 0 <= i < j < s.len() ==> sec_at_least(s[i], s[j])
}

proof fn lemma_sec_not_before(a: (int, Seq<u8>), b: (int, Seq<u8>))
    requires
        !sec_ranks_before(a, b),
    ensures
        sec_at_least(b, a),
{
    lemma_lex_leq_total(a.1, b.1);
    lemma_lex_leq_refl(a.1);
}

proof fn lemma_sec_at_least_trans(a: (int, Seq<u8>), b: (int, Seq<u8>), c: (int, Seq<u8>))
    requires
        sec_at_least(a, b),
        sec_at_least(b, c),
    ensures
        sec_at_least(a, c),
{
    if a.0 == b.0 && b.0 == c.0 {
        lemma_lex_leq_trans(a.1, b.1, c.1);
    }
}

/// Where a candidate comes to stand in the secondary order: after every
/// candidate standing at or before it, before all others.
pub open spec fn sec_insert(s: Seq<(int, Seq<u8>)>, e: (int, Seq<u8>)) -> Seq<(int, Seq<u8>)>
    decreases s.len(),
{
    if s.len() == 0 {
        seq![e]
    } else if sec_ranks_before(e, s[0]) {
        seq![e] + s
    } else {
        seq![s[0]] + sec_insert(s.drop_first(), e)
    }
}

proof fn lemma_sec_insert_multiset(s: Seq<(int, Seq<u8>)>, e: (int, Seq<u8>))
    ensures
        sec_insert(s, e).to_multiset() == s.to_multiset().insert(e),
    decreases s.len(),
{
    broadcast use vstd::seq_lib::group_to_multiset_ensures;

    if s.len() == 0 {
        assert(sec_insert(s, e) =~= Seq::empty().push(e));
        assert(s.to_multiset() =~= Multiset::empty());
    } else if sec_ranks_before(e, s[0]) {
        assert(sec_insert(s, e) =~= s.insert(0, e));
        assert(s.insert(0, e).remove(0) =~= s);
        assert(s.insert(0, e)[0] == e);
        assert(s.insert(0, e).to_multiset().remove(e) == s.to_multiset());
        assert(s.insert(0, e).to_multiset().contains(e));
        assert(s.insert(0, e).to_multiset() =~= s.to_multiset().insert(e));
    } else {
        let rest = sec_insert(s.drop_first(), e);
        lemma_sec_insert_multiset(s.drop_first(), e);
        lemma_multiset_commutative(seq![s[0]], rest);
        assert(s =~= seq![s[0]] + s.drop_first());
        lemma_multiset_commutative(seq![s[0]], s.drop_first());
        assert(seq![s[0]].to_multiset().add(s.drop_first().to_multiset().insert(e)) =~= seq![
            s[0],
        ].to_multiset().add(s.drop_first().to_multiset()).insert(e));
    }
}

proof fn lemma_sec_insert_sorted(s: Seq<(int, Seq<u8>)>, e: (int, Seq<u8>))
    requires
        sorted_sec(s),
    ensures
        sorted_sec(sec_insert(s, e)),
    decreases s.len(),
{
    broadcast use vstd::seq_lib::group_to_multiset_ensures;

    if s.len() == 0 {
    } else if sec_ranks_before(e, s[0]) {
        let t = seq![e] + s;
        assert forall|i: int, j: int| 0 <= i < j < t.len() implies sec_at_least(t[i], t[j]) by {
            if i == 0 {
                lemma_lex_leq_refl(e.1);
                assert(sec_at_least(e, s[0]));
                if j > 1 {
                    assert(sec_at_least(s[0], s[j - 1]));
                    lemma_sec_at_least_trans(e, s[0], s[j - 1]);
                }
            } else {
                assert(sec_at_least(s[i - 1], s[j - 1]));
            }
        }
    } else {
        let dropped = s.drop_first();
        assert forall|i: int, j: int|
            0 <= i < j < dropped.len() implies sec_at_least(dropped[i], dropped[j]) by {
            assert(sec_at_least(s[i + 1], s[j + 1]));
        }
        lemma_sec_insert_sorted(dropped, e);
        lemma_sec_insert_multiset(dropped, e);
        let rest = sec_insert(dropped, e);
        let t = seq![s[0]] + rest;
        assert forall|i: int, j: int| 0 <= i < j < t.len() implies sec_at_least(t[i], t[j]) by {
            if i == 0 {
                let x = rest[j - 1];
                assert(rest.to_multiset().contains(x));
                if x == e {
                    lemma_sec_not_before(e, s[0]);
                } else {
                    assert(dropped.to_multiset().contains(x));
                    let k = choose|k: int| 0 <= k < dropped.len() && dropped[k] == x;
                    assert(sec_at_least(s[0], s[k + 1]));
                }
            } else {
                assert(sec_at_least(rest[i - 1], rest[j - 1]));
            }
        }
    }
}

proof fn lemma_sec_insert_at(s: Seq<(int, Seq<u8>)>, e: (int, Seq<u8>), idx: int)
    requires
        0 <= idx <= s.len(),
        forall|j: int| 0 <= j < idx ==> !sec_ranks_before(e, s[j]),
        idx < s.len() ==> sec_ranks_before(e, s[idx]),
    ensures
        sec_insert(s, e) == s.insert(idx, e),
    decreases idx,
{
    if idx == 0 {
        if s.len() == 0 {
            assert(sec_insert(s, e) =~= s.insert(0, e));
        } else {
            assert(seq![e] + s =~= s.insert(0, e));
        }
    } else {
        let dropped = s.drop_first();
        assert forall|j: int| 0 <= j < idx - 1 implies !sec_ranks_before(e, dropped[j]) by {
            assert(!sec_ranks_before(e, s[j + 1]));
        }
        lemma_sec_insert_at(dropped, e, idx - 1);
        assert(seq![s[0]] + dropped.insert(idx - 1, e) =~= s.insert(idx, e));
    }
}

/// The secondary ranking of the first `n` scored candidates.
pub open spec fn sec_model_prefix(entries: Seq<(int, Seq<u8>)>, n: int) -> Seq<(int, Seq<u8>)>
    decreases n,
{
    if n <= 0 {
        Seq::empty()
    } else {
        sec_insert(sec_model_prefix(entries, n - 1), entries[n - 1])
    }
}

/// The secondary ranking of a sequence of scored candidates: ordered by
/// score descending, ties by ascending lexicographic byte order of the path.
pub open spec fn sec_model(entries: Seq<(int, Seq<u8>)>) -> Seq<(int, Seq<u8>)> {
    sec_model_prefix(entries, entries.len() as int)
}

/// The raw path bytes of secondary-ranked candidates, in order.
pub open spec fn sec_ranked_paths(s: Seq<(int, Seq<u8>)>) -> Seq<Seq<u8>> {
    s.map_values(|m: (int, Seq<u8>)| m.1)
}

proof fn lemma_sec_insert_paths_multiset(s: Seq<(int, Seq<u8>)>, e: (int, Seq<u8>))
    ensures
        sec_ranked_paths(sec_insert(s, e)).to_multiset() == sec_ranked_paths(
            s,
        ).to_multiset().insert(e.1),
    decreases s.len(),
{
    broadcast use vstd::seq_lib::group_to_multiset_ensures;

    if s.len() == 0 {
        assert(sec_ranked_paths(sec_insert(s, e)) =~= Seq::empty().push(e.1));
        assert(sec_ranked_paths(s).to_multiset() =~= Multiset::empty());
    } else if sec_ranks_before(e, s[0]) {
        let single = Seq::empty().push(e.1);
        assert(sec_ranked_paths(seq![e] + s) =~= single + sec_ranked_paths(s));
        lemma_multiset_commutative(single, sec_ranked_paths(s));
        assert(single.to_multiset().add(sec_ranked_paths(s).to_multiset()) =~= sec_ranked_paths(
            s,
        ).to_multiset().insert(e.1));
    } else {
        let rest = sec_insert(s.drop_first(), e);
        let single = Seq::empty().push(s[0].1);
        lemma_sec_insert_paths_multiset(s.drop_first(), e);
        assert(sec_ranked_paths(seq![s[0]] + rest) =~= single + sec_ranked_paths(rest));
        lemma_multiset_commutative(single, sec_ranked_paths(rest));
        assert(sec_ranked_paths(s) =~= single + sec_ranked_paths(s.drop_first()));
        lemma_multiset_commutative(single, sec_ranked_paths(s.drop_first()));
        assert(single.to_multiset().add(
            sec_ranked_paths(s.drop_first()).to_multiset().insert(e.1),
        ) =~= single.to_multiset().add(sec_ranked_paths(s.drop_first()).to_multiset()).insert(e.1));
    }
}

proof fn lemma_sec_prefix_paths_multiset(entries: Seq<(int, Seq<u8>)>, n: int)
    requires
        0 <= n <= entries.len(),
    ensures
        sec_ranked_paths(sec_model_prefix(entries, n)).to_multiset() == sec_ranked_paths(
            entries.take(n),
        ).to_multiset(),
    decreases n,
{
    broadcast use vstd::seq_lib::group_to_multiset_ensures;

    if n == 0 {
        assert(sec_ranked_paths(sec_model_prefix(entries, 0)) =~= Seq::<Seq<u8>>::empty());
        assert(sec_ranked_paths(entries.take(0)) =~= Seq::<Seq<u8>>::empty());
    } else {
        lemma_sec_prefix_paths_multiset(entries, n - 1);
        lemma_sec_insert_paths_multiset(sec_model_prefix(entries, n - 1), entries[n - 1]);
        assert(sec_ranked_paths(entries.take(n)) =~= sec_ranked_paths(entries.take(n - 1)).push(
            entries[n - 1].1,
        ));
    }
}

/// Secondary ranking preserves the multiset of paths: byte-identical
/// duplicate paths are kept, not collapsed, whatever the scores.
pub proof fn lemma_sec_model_permutes(entries: Seq<(int, Seq<u8>)>)
    ensures
        sec_ranked_paths(sec_model(entries)).to_multiset() == sec_ranked_paths(
            entries,
        ).to_multiset(),
{
    lemma_sec_prefix_paths_multiset(entries, entries.len() as int);
    assert(entries.take(entries.len() as int) =~= entries);
}

proof fn lemma_sec_prefix_sorted(entries: Seq<(int, Seq<u8>)>, n: int)
    ensures
        sorted_sec(sec_model_prefix(entries, n)),
    decreases n,
{
    if n > 0 {
        lemma_sec_prefix_sorted(entries, n - 1);
        lemma_sec_insert_sorted(sec_model_prefix(entries, n - 1), entries[n - 1]);
    }
}

/// The secondary ranking is ordered by descending score and, within equal
/// scores, by ascending lexicographic byte order.
pub proof fn lemma_sec_model_sorted(entries: Seq<(int, Seq<u8>)>)
    ensures
        sorted_sec(sec_model(entries)),
{
    lemma_sec_prefix_sorted(entries, entries.len() as int);
}

proof fn lemma_lex_leq_skip(a: Seq<u8>, b: Seq<u8>, i: int)
    requires
        0 <= i <= a.len(),
        i <= b.len(),
        forall|j: int| 0 <= j < i ==> a[j] == b[j],
    ensures
        lex_leq(a, b) == lex_leq(a.skip(i), b.skip(i)),
    decreases i,
{
    if i == 0 {
        assert(a.skip(0) =~= a);
        assert(b.skip(0) =~= b);
    } else {
        let da = a.drop_first();
        let db = b.drop_first();
        assert(a[0] == b[0]);
        assert forall|j: int| 0 <= j < i - 1 implies da[j] == db[j] by {
            assert(a[j + 1] == b[j + 1]);
        }
        lemma_lex_leq_skip(da, db, i - 1);
        assert(da.skip(i - 1) =~= a.skip(i));
        assert(db.skip(i - 1) =~= b.skip(i));
    }
}

/// Whether `a`'s bytes are lexicographically no greater than `b`'s.
fn lex_leq_bytes(a: &Vec<u8>, b: &Vec<u8>) -> (r: bool)
    ensures
        r == lex_leq(a@, b@),
{
    let mut i: usize = 0;
    while i < a.len() && i < b.len()
        invariant
            0 <= i <= a@.len(),
            i <= b@.len(),
            forall|j: int| 0 <= j < i ==> a@[j] == b@[j],
        decreases a@.len() - i,
    {
        proof {
            lemma_lex_leq_skip(a@, b@, i as int);
        }
        if a[i] < b[i] {
            return true;
        }
        if a[i] > b[i] {
            return false;
        }
        i = i + 1;
    }
    proof {
        lemma_lex_leq_skip(a@, b@, i as int);
    }
    a.len() <= b.len()
}

/// Whether entry `a` stands strictly before entry `b` in the secondary
/// order.
fn entry_sec_before(a: &Entry, b: &Entry) -> (r: bool)
    ensures
        r == sec_ranks_before(sec_entry_model(*a), sec_entry_model(*b)),
{
    if a.score > b.score {
        true
    } else if a.score < b.score {
        false
    } else {
        let leq = lex_leq_bytes(&a.path, &b.path);
        let eq = a.path == b.path;
        proof {
            if a.path@ == b.path@ {
                assert(a.path@ =~= b.path@);
            }
            if eq {
                assert(a.path@ =~= b.path@);
            }
        }
        leq && !eq
    }
}

/// Re-ranks already scored candidates — as drained, score-ordered, from the
/// ranking structure — so that candidates sharing a score stand in ascending
/// lexicographic byte order of their raw paths. Byte-identical duplicate
/// paths are preserved, not collapsed: the output is a permutation of the
/// input paths.
pub fn secondary_rank(entries: Vec<Entry>) -> (out: Vec<Vec<u8>>)
    ensures
        byte_views(out@) == sec_ranked_paths(sec_model(sec_entry_models(entries@))),
        byte_views(out@).to_multiset() == sec_ranked_paths(
            sec_entry_models(entries@),
        ).to_multiset(),
{
    let ghost ems = sec_entry_models(entries@);
    let mut rest = entries;
    proof {
        assert(rest.len() == rest@.len());
        assert(ems.len() == rest@.len());
    }
    let mut acc: Vec<Entry> = Vec::new();
    let mut i: usize = 0;
    proof {
        assert(sec_entry_models(acc@) =~= sec_model_prefix(ems, 0));
        assert(sec_entry_models(rest@) =~= ems.skip(0));
    }
    while rest.len() > 0
        invariant
            ems.len() <= usize::MAX,
            i + rest@.len() == ems.len(),
            sec_entry_models(rest@) == ems.skip(i as int),
            sec_entry_models(acc@) == sec_model_prefix(ems, i as int),
        decreases rest@.len(),
    {
        let ghost rest_before = rest@;
        let ghost s = sec_entry_models(acc@);
        let e = rest.remove(0);
        proof {
            assert(sec_entry_models(rest@) =~= sec_entry_models(rest_before).drop_first());
            assert(ems.skip(i as int).drop_first() =~= ems.skip(i as int + 1));
            assert(sec_entry_model(e) == ems.skip(i as int)[0]);
            assert(sec_entry_model(e) == ems[i as int]);
        }
        let ghost em = sec_entry_model(e);
        let n = acc.len();
        let mut idx: usize = 0;
        while idx < n && !entry_sec_before(&e, &acc[idx])
            invariant
                0 <= idx <= n,
                n == acc@.len(),
                sec_entry_models(acc@) == s,
                em == sec_entry_model(e),
                forall|j: int| 0 <= j < idx ==> !sec_ranks_before(em, s[j]),
            decreases n - idx,
        {
            proof {
                assert(s[idx as int] == sec_entry_model(acc@[idx as int]));
            }
            idx = idx + 1;
        }
        proof {
            lemma_sec_insert_at(s, em, idx as int);
        }
        acc.insert(idx, e);
        proof {
            assert(sec_entry_models(acc@) =~= s.insert(idx as int, em));
        }
        i = i + 1;
    }
    let ghost target = sec_model(ems);
    proof {
        assert(ems.skip(i as int).len() == 0);
        assert(i == ems.len());
        assert(sec_entry_models(acc@) == target);
    }
    let mut drain = acc;
    let mut out: Vec<Vec<u8>> = Vec::new();
    proof {
        assert(sec_entry_models(drain@) =~= target.skip(0));
        assert(byte_views(out@) =~= sec_ranked_paths(target).take(0));
    }
    while drain.len() > 0
        invariant
            out@.len() + drain@.len() == target.len(),
            sec_entry_models(drain@) == target.skip(out@.len() as int),
            byte_views(out@) == sec_ranked_paths(target).take(out@.len() as int),
        decreases drain@.len(),
    {
        let ghost k = out@.len() as int;
        let ghost drain_before = drain@;
        let e = drain.remove(0);
        proof {
            assert(sec_entry_models(drain@) =~= sec_entry_models(drain_before).drop_first());
            assert(target.skip(k).drop_first() =~= target.skip(k + 1));
            assert(sec_entry_model(e) == target.skip(k)[0]);
            assert(sec_entry_model(e) == target[k]);
        }
        out.push(e.path);
        proof {
            assert(byte_views(out@) =~= sec_ranked_paths(target).take(k + 1));
        }
    }
    proof {
        assert(sec_ranked_paths(target).take(out@.len() as int) =~= sec_ranked_paths(target));
        lemma_sec_model_permutes(ems);
    }
    out
}

/// The score/path pairs of fully ranked candidates, in rank order.
pub open spec fn scored_paths(s: Seq<(int, int, Seq<u8>)>) -> Seq<(int, Seq<u8>)> {
    s.map_values(|m: (int, int, Seq<u8>)| (m.0, m.2))
}

/// Ranks the input in the secondary mode: candidates are ordered by
/// descending proximity score to the reference path, and candidates sharing
/// a score stand in ascending lexicographic byte order of their raw paths
/// rather than in input order. The output is a permutation of the input.
pub fn reorder_secondary(input: Vec<Vec<u8>>, reference: &Vec<u8>) -> (out: Vec<Vec<u8>>)
    ensures
        byte_views(out@) == sec_ranked_paths(
            sec_model(scored_paths(rank_model(byte_views(input@), reference@))),
        ),
        byte_views(out@).to_multiset() == byte_views(input@).to_multiset(),
{
    let ghost paths = byte_views(input@);
    let mut rk = reorder(input, reference);
    let ghost ranked = rank_model(paths, reference@);
    let mut drained: Vec<Entry> = Vec::new();
    proof {
        assert(ranked.skip(0) =~= ranked);
        assert(sec_entry_models(drained@) =~= scored_paths(ranked).take(0));
    }
    while rk.len() > 0
        invariant
            rk.wf(),
            drained@.len() <= ranked.len(),
            rk@ == ranked.skip(drained@.len() as int),
            sec_entry_models(drained@) == scored_paths(ranked).take(drained@.len() as int),
        decreases rk@.len(),
    {
        let ghost k = drained@.len() as int;
        let e = rk.extract_max();
        match e {
            Some(en) => {
                proof {
                    assert(en.model() == ranked.skip(k)[0]);
                    assert(en.model() == ranked[k]);
                    assert(sec_entry_model(en) == scored_paths(ranked)[k]);
                    assert(ranked.skip(k).drop_first() =~= ranked.skip(k + 1));
                }
                drained.push(en);
                proof {
                    assert(sec_entry_models(drained@) =~= scored_paths(ranked).take(k + 1));
                }
            },
            None => {
                proof {
                    assert(false);
                }
            },
        }
    }
    proof {
        assert(ranked.skip(drained@.len() as int).len() == 0);
        assert(scored_paths(ranked).take(drained@.len() as int) =~= scored_paths(ranked));
    }
    let out = secondary_rank(drained);
    proof {
        assert(sec_ranked_paths(scored_paths(ranked)) =~= ranked_paths(ranked));
        lemma_rank_model_permutes(paths, reference@);
    }
    out
}

} // verus!
