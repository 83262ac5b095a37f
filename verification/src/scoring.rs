//! Proximity scoring of a candidate component sequence against a reference
//! component sequence.
//!
//! The score walks the candidate's components from the front: every component
//! that extends the shared leading prefix with the reference contributes `+1`;
//! every component at or past the first divergence (a mismatch, or depth
//! beyond the reference's own length) contributes `-1`.

use vstd::prelude::*;

verus! {

/// The views of a sequence of byte vectors, as a sequence of byte sequences.
pub open spec fn byte_views(vs: Seq<Vec<u8>>) -> Seq<Seq<u8>> {
    vs.map_values(|v: Vec<u8>| v@)
}

/// Length of the shared leading prefix of `cand` and `reference`.
pub open spec fn match_len(cand: Seq<Seq<u8>>, reference: Seq<Seq<u8>>) -> nat
    decreases cand.len(),
{
    if cand.len() == 0 || reference.len() == 0 || cand[0] != reference[0] {
        0
    } else {
        1 + match_len(cand.drop_first(), reference.drop_first())
    }
}

/// The scoring walk: each candidate component contributes `+1` while it still
/// extends the shared prefix with the reference, and `-1` once a mismatch has
/// occurred (`missed`) or the reference has run out of components.
pub open spec fn score_walk(cand: Seq<Seq<u8>>, reference: Seq<Seq<u8>>, missed: bool) -> int
    decreases cand.len(),
{
    if cand.len() == 0 {
        0
    } else if missed {
        -1 + score_walk(cand.drop_first(), reference, true)
    } else if reference.len() == 0 {
        -1 + score_walk(cand.drop_first(), reference, false)
    } else if cand[0] == reference[0] {
        1 + score_walk(cand.drop_first(), reference.drop_first(), false)
    } else {
        -1 + score_walk(cand.drop_first(), reference, true)
    }
}

/// Proximity score of a candidate component sequence against a reference
/// component sequence.
pub open spec fn score_spec(cand: Seq<Seq<u8>>, reference: Seq<Seq<u8>>) -> int {
    score_walk(cand, reference, false)
}

/// Once a mismatch has occurred, every remaining component counts `-1`.
proof fn lemma_score_walk_missed(cand: Seq<Seq<u8>>, reference: Seq<Seq<u8>>)
    ensures
        score_walk(cand, reference, true) == -cand.len(),
    decreases cand.len(),
{
    if cand.len() > 0 {
        lemma_score_walk_missed(cand.drop_first(), reference);
    }
}

/// The walk has a closed form: matched components count `+1` and all others
/// `-1`, so the score is `2 * match_len - cand.len()`.
pub proof fn lemma_score_closed_form(cand: Seq<Seq<u8>>, reference: Seq<Seq<u8>>)
    ensures
        score_spec(cand, reference) == 2 * match_len(cand, reference) - cand.len(),
    decreases cand.len(),
{
    if cand.len() == 0 {
    } else if reference.len() == 0 {
        lemma_score_closed_form(cand.drop_first(), reference);
    } else if cand[0] == reference[0] {
        lemma_score_closed_form(cand.drop_first(), reference.drop_first());
    } else {
        lemma_score_walk_missed(cand.drop_first(), reference);
    }
}

/// The shared prefix is no longer than either sequence.
pub proof fn lemma_match_len_bounds(cand: Seq<Seq<u8>>, reference: Seq<Seq<u8>>)
    ensures
        match_len(cand, reference) <= cand.len(),
        match_len(cand, reference) <= reference.len(),
    decreases cand.len(),
{
    if !(cand.len() == 0 || reference.len() == 0 || cand[0] != reference[0]) {
        lemma_match_len_bounds(cand.drop_first(), reference.drop_first());
    }
}

/// A sequence shares its whole leading prefix with itself.
proof fn lemma_match_len_refl(s: Seq<Seq<u8>>)
    ensures
        match_len(s, s) == s.len(),
    decreases s.len(),
{
    if s.len() > 0 {
        lemma_match_len_refl(s.drop_first());
    }
}

/// A candidate whose components equal the reference's scores the number of
/// components in the reference.
pub proof fn lemma_identical_candidate_score(reference: Seq<Seq<u8>>)
    ensures
        score_spec(reference, reference) == reference.len(),
{
    lemma_match_len_refl(reference);
    lemma_score_closed_form(reference, reference);
}

/// No candidate scores higher than the reference's component count, and a
/// candidate sharing strictly fewer leading components than that scores
/// strictly lower.
pub proof fn lemma_score_at_most_reference_len(cand: Seq<Seq<u8>>, reference: Seq<Seq<u8>>)
    ensures
        score_spec(cand, reference) <= reference.len(),
        match_len(cand, reference) < reference.len() ==> score_spec(cand, reference)
            < reference.len(),
{
    lemma_match_len_bounds(cand, reference);
    lemma_score_closed_form(cand, reference);
}

/// If the first `m` components agree and position `m` is the first place the
/// two sequences can no longer both advance, the shared prefix length is `m`.
proof fn lemma_match_len_from_prefix(cand: Seq<Seq<u8>>, reference: Seq<Seq<u8>>, m: int)
    requires
        0 <= m <= cand.len(),
        m <= reference.len(),
        forall|j: int| 0 <= j < m ==> cand[j] == reference[j],
        m == cand.len() || m == reference.len() || cand[m] != reference[m],
    ensures
        match_len(cand, reference) == m,
    decreases m,
{
    if m > 0 {
        let dc = cand.drop_first();
        let dr = reference.drop_first();
        assert forall|j: int| 0 <= j < m - 1 implies dc[j] == dr[j] by {
            assert(cand[j + 1] == reference[j + 1]);
        }
        lemma_match_len_from_prefix(dc, dr, m - 1);
    }
}

/// Computes the proximity score of `cand` against `reference`, per
/// `score_spec`: `+1` for each component of the shared leading prefix, `-1`
/// for every component after it. The result depends on the two component
/// sequences alone.
pub fn score(cand: &Vec<Vec<u8>>, reference: &Vec<Vec<u8>>) -> (s: i128)
    ensures
        s == score_spec(byte_views(cand@), byte_views(reference@)),
{
    let ghost cv = byte_views(cand@);
    let ghost rv = byte_views(reference@);
    let n = cand.len();
    let rl = reference.len();
    let mut m: usize = 0;
    while m < n && m < rl && cand[m] == reference[m]
        invariant
            0 <= m <= n,
            m <= rl,
            n == cand.len(),
            rl == reference.len(),
            cv == byte_views(cand@),
            rv == byte_views(reference@),
            forall|j: int| 0 <= j < m ==> cv[j] == rv[j],
        decreases n - m,
    {
        proof {
            assert(cv[m as int] =~= rv[m as int]);
        }
        m = m + 1;
    }
    proof {
        if m < n && m < rl {
            assert(cv[m as int] != rv[m as int]) by {
                if cv[m as int] == rv[m as int] {
                    assert(cand@[m as int]@ =~= reference@[m as int]@);
                }
            }
        }
        lemma_match_len_from_prefix(cv, rv, m as int);
        lemma_score_closed_form(cv, rv);
    }
    2 * (m as i128) - (n as i128)
}

} // verus!
