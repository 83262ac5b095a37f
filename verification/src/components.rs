//! Splitting a raw path-like byte string into its ordered sequence of
//! components.
//!
//! A component is a segment between separator bytes, compared by exact byte
//! equality. Empty segments (from repeated, leading or trailing separators)
//! and current-directory segments (`.`) contribute no component. A path that
//! begins with a separator byte starts at the root, recorded as a one-byte
//! marker component that no ordinary segment can equal, since segments never
//! contain a separator byte.

use vstd::prelude::*;

verus! {

/// The path separator byte `/`.
pub const SEPARATOR: u8 = 47;

/// The current-directory byte `.`.
pub const CUR_DIR: u8 = 46;

pub open spec fn is_sep(b: u8) -> bool {
    b == SEPARATOR
}

/// A segment becomes a component when it is nonempty and is not the one-byte
/// current-directory segment.
pub open spec fn keeps_segment(seg: Seq<u8>) -> bool {
    seg.len() > 0 && seg != seq![CUR_DIR]
}

/// The components contributed by one segment: itself, or nothing.
pub open spec fn kept(seg: Seq<u8>) -> Seq<Seq<u8>> {
    if keeps_segment(seg) {
        seq![seg]
    } else {
        Seq::empty()
    }
}

/// State of a left-to-right split of `s` on separator bytes: the components
/// already emitted, and the (possibly empty) segment still being read.
pub open spec fn split_state(s: Seq<u8>) -> (Seq<Seq<u8>>, Seq<u8>)
    decreases s.len(),
{
    if s.len() == 0 {
        (Seq::empty(), Seq::empty())
    } else {
        let prev = split_state(s.drop_last());
        let b = s.last();
        if is_sep(b) {
            (prev.0 + kept(prev.1), Seq::empty())
        } else {
            (prev.0, prev.1.push(b))
        }
    }
}

/// All components of the segments of `s`, in order.
pub open spec fn segments(s: Seq<u8>) -> Seq<Seq<u8>> {
    split_state(s).0 + kept(split_state(s).1)
}

/// The component standing for the root of a path that begins with a
/// separator byte.
pub open spec fn root_marker() -> Seq<u8> {
    seq![SEPARATOR]
}

/// The ordered component sequence of a raw path: the root marker if the path
/// begins with a separator byte, followed by its kept segments.
pub open spec fn tokenize_spec(s: Seq<u8>) -> Seq<Seq<u8>> {
    if s.len() > 0 && is_sep(s[0]) {
        seq![root_marker()] + segments(s)
    } else {
        segments(s)
    }
}

/// Whether `seg` is kept as a component, per `keeps_segment`.
fn keeps(seg: &Vec<u8>) -> (b: bool)
    ensures
        b == keeps_segment(seg@),
{
    if seg.len() == 0 {
        false
    } else if seg.len() == 1 && seg[0] == CUR_DIR {
        proof {
            assert(seg@ =~= seq![CUR_DIR]);
        }
        false
    } else {
        proof {
            if seg@ == seq![CUR_DIR] {
                assert(seg@.len() == 1 && seg@[0] == CUR_DIR);
            }
        }
        true
    }
}

/// Splits `raw` into its ordered component sequence: the segments between
/// separator bytes, with empty and current-directory segments dropped, and a
/// root marker in front when the path begins with a separator byte. Total on
/// arbitrary byte strings; empty input yields the empty sequence.
pub fn tokenize(raw: &Vec<u8>) -> (comps: Vec<Vec<u8>>)
    ensures
        crate::scoring::byte_views(comps@) == tokenize_spec(raw@),
{
    let ghost prefix: Seq<Seq<u8>> = if raw@.len() > 0 && is_sep(raw@[0]) {
        seq![root_marker()]
    } else {
        Seq::empty()
    };
    let mut comps: Vec<Vec<u8>> = Vec::new();
    if raw.len() > 0 && raw[0] == SEPARATOR {
        let mut root: Vec<u8> = Vec::new();
        root.push(SEPARATOR);
        comps.push(root);
        proof {
            assert(crate::scoring::byte_views(comps@) =~= prefix);
        }
    } else {
        proof {
            assert(crate::scoring::byte_views(comps@) =~= prefix);
        }
    }
    let mut cur: Vec<u8> = Vec::new();
    let n = raw.len();
    let mut i: usize = 0;
    while i < n
        invariant
            0 <= i <= n,
            n == raw@.len(),
            crate::scoring::byte_views(comps@) == prefix + split_state(raw@.take(i as int)).0,
            cur@ == split_state(raw@.take(i as int)).1,
        decreases n - i,
    {
        let ghost before = raw@.take(i as int);
        let ghost after = raw@.take(i as int + 1);
        proof {
            assert(after.drop_last() =~= before);
            assert(after.last() == raw@[i as int]);
        }
        if raw[i] == SEPARATOR {
            if keeps(&cur) {
                let ghost old_comps = comps@;
                comps.push(cur);
                cur = Vec::new();
                proof {
                    assert(crate::scoring::byte_views(comps@) =~= crate::scoring::byte_views(
                        old_comps,
                    ) + kept(split_state(before).1));
                    assert(crate::scoring::byte_views(comps@) =~= prefix + split_state(after).0);
                }
            } else {
                cur.clear();
                proof {
                    assert(split_state(after).0 =~= split_state(before).0 + kept(
                        split_state(before).1,
                    ));
                    assert(prefix + split_state(after).0 =~= prefix + split_state(before).0);
                }
            }
        } else {
            cur.push(raw[i]);
        }
        i = i + 1;
    }
    proof {
        assert(raw@.take(n as int) =~= raw@);
    }
    if keeps(&cur) {
        let ghost old_comps = comps@;
        comps.push(cur);
        proof {
            assert(crate::scoring::byte_views(comps@) =~= crate::scoring::byte_views(old_comps)
                + kept(split_state(raw@).1));
        }
    }
    proof {
        assert(crate::scoring::byte_views(comps@) =~= tokenize_spec(raw@));
    }
    comps
}

/// Splitting is unchanged by a leading current-directory segment.
proof fn lemma_split_state_curdir(s: Seq<u8>)
    ensures
        split_state(seq![CUR_DIR, SEPARATOR] + s) == split_state(s),
    decreases s.len(),
{
    let p = seq![CUR_DIR, SEPARATOR];
    if s.len() == 0 {
        reveal_with_fuel(split_state, 4);
        let s1 = seq![CUR_DIR];
        assert((p + s) =~= p);
        assert(p.drop_last() =~= s1);
        assert(s1.drop_last() =~= Seq::<u8>::empty());
        assert(split_state(Seq::<u8>::empty()) == (Seq::<Seq<u8>>::empty(), Seq::<u8>::empty()));
        assert(split_state(s1).0 =~= Seq::<Seq<u8>>::empty());
        assert(split_state(s1).1 =~= seq![CUR_DIR]);
        assert(!keeps_segment(split_state(s1).1));
        assert(split_state(p).0 =~= Seq::<Seq<u8>>::empty());
        assert(split_state(p).1 =~= Seq::<u8>::empty());
    } else {
        assert((p + s).drop_last() =~= p + s.drop_last());
        assert((p + s).last() == s.last());
        lemma_split_state_curdir(s.drop_last());
    }
}

/// `s` with one leading current-directory segment (`./`) prepended.
pub open spec fn curdir_prefixed(s: Seq<u8>) -> Seq<u8> {
    seq![CUR_DIR, SEPARATOR] + s
}

/// Leading current-directory segments are ignored: prepending `./` to a path
/// that does not begin at the root leaves its component sequence — and with
/// it every proximity score — unchanged. The raw bytes themselves are not
/// touched by tokenization.
pub proof fn lemma_leading_curdir_ignored(s: Seq<u8>)
    requires
        s.len() == 0 || !is_sep(s[0]),
    ensures
        tokenize_spec(curdir_prefixed(s)) == tokenize_spec(s),
        forall|r: Seq<Seq<u8>>|
            #[trigger] crate::scoring::score_spec(tokenize_spec(curdir_prefixed(s)), r)
                == crate::scoring::score_spec(tokenize_spec(s), r),
{
    lemma_split_state_curdir(s);
    let p = seq![CUR_DIR, SEPARATOR];
    assert((p + s)[0] == CUR_DIR);
}

} // verus!
