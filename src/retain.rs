use vstd::prelude::*;

verus! {

/// The elements of `s` whose flag in `keep` is set, in their original order.
pub open spec fn kept<E>(s: Seq<E>, keep: Seq<bool>) -> Seq<E>
    decreases s.len(),
{
    if s.len() == 0 {
        Seq::empty()
    } else {
        let head: Seq<E> = if keep[0] {
            seq![s[0]]
        } else {
            Seq::empty()
        };
        head + kept(s.drop_first(), keep.drop_first())
    }
}

/// How many flags of `keep` are clear.
pub open spec fn dropped(keep: Seq<bool>) -> nat
    decreases keep.len(),
{
    if keep.len() == 0 {
        0
    } else {
        (if keep[0] {
            0nat
        } else {
            1nat
        }) + dropped(keep.drop_first())
    }
}

/// Every flag of `keep` is set.
pub open spec fn all_set(keep: Seq<bool>) -> bool {
    forall|i: int| 0 <= i < keep.len() ==> #[trigger] keep[i]
}

/// Unfolds `kept` one element from the front of a suffix.
proof fn lemma_kept_step<E>(s: Seq<E>, keep: Seq<bool>, i: int)
    requires
        s.len() == keep.len(),
        0 <= i < s.len(),
    ensures
        kept(s.subrange(i, s.len() as int), keep.subrange(i, keep.len() as int)) == (if keep[i] {
            seq![s[i]]
        } else {
            Seq::<E>::empty()
        }) + kept(s.subrange(i + 1, s.len() as int), keep.subrange(i + 1, keep.len() as int)),
{
    let a = s.subrange(i, s.len() as int);
    let b = keep.subrange(i, keep.len() as int);
    assert(a.drop_first() =~= s.subrange(i + 1, s.len() as int));
    assert(b.drop_first() =~= keep.subrange(i + 1, keep.len() as int));
}

/// Removes from `list` each element whose flag in `keep` is clear, keeping the
/// order of the others. Positions are visited from the back, so that a removal
/// never shifts a position that is still to be visited.
pub fn retain_flagged<E>(list: &mut Vec<E>, keep: &Vec<bool>)
    requires
        old(list)@.len() == keep@.len(),
    ensures
        final(list)@ == kept(old(list)@, keep@),
{
    let ghost orig = list@;
    let n = list.len();
    let mut i: usize = n;
    assert(orig.subrange(n as int, n as int) =~= Seq::<E>::empty());
    assert(orig.subrange(0, n as int) =~= orig);
    while i > 0
        invariant
            i <= n,
            n == orig.len(),
            n == keep@.len(),
            list@ == orig.subrange(0, i as int) + kept(
                orig.subrange(i as int, n as int),
                keep@.subrange(i as int, n as int),
            ),
        decreases i,
    {
        let ghost rest = kept(
            orig.subrange(i as int, n as int),
            keep@.subrange(i as int, n as int),
        );
        proof {
            lemma_kept_step(orig, keep@, i - 1);
        }
        if !keep[i - 1] {
            list.remove(i - 1);
            assert(list@ =~= orig.subrange(0, i - 1) + rest);
        } else {
            assert(list@ =~= orig.subrange(0, i - 1) + (seq![orig[i - 1]] + rest));
        }
        i = i - 1;
    }
    assert(orig.subrange(0, 0) + kept(orig, keep@) =~= kept(orig, keep@));
    assert(orig.subrange(0, n as int) =~= orig);
    assert(keep@.subrange(0, n as int) =~= keep@);
}

/// Over a run of set flags from `a` to `b`, `kept` takes the run whole.
proof fn lemma_kept_run<E>(s: Seq<E>, keep: Seq<bool>, a: int, b: int)
    requires
        s.len() == keep.len(),
        0 <= a <= b <= s.len(),
        forall|i: int| a <= i < b ==> #[trigger] keep[i],
    ensures
        kept(s.subrange(a, s.len() as int), keep.subrange(a, keep.len() as int)) == s.subrange(a, b)
            + kept(s.subrange(b, s.len() as int), keep.subrange(b, keep.len() as int)),
    decreases b - a,
{
    if a == b {
        assert(s.subrange(a, b) + kept(s.subrange(b, s.len() as int), keep.subrange(b, keep.len() as int))
            =~= kept(s.subrange(b, s.len() as int), keep.subrange(b, keep.len() as int)));
    } else {
        lemma_kept_step(s, keep, a);
        lemma_kept_run(s, keep, a + 1, b);
        assert(keep[a]);
        assert(seq![s[a]] + s.subrange(a + 1, b) =~= s.subrange(a, b));
    }
}

/// Each position of `p` lies below the next.
pub open spec fn strictly_increasing(p: Seq<usize>) -> bool {
    forall|j: int, k: int| 0 <= j < k < p.len() ==> #[trigger] p[j] < #[trigger] p[k]
}

/// A flag for each of the `n` positions: set where `positions` does not list it.
pub open spec fn unmarked(n: nat, positions: Seq<usize>) -> Seq<bool> {
    Seq::new(n, |i: int| !positions.contains(i as usize))
}

/// Where the `j`th listed position stands, or `n` past the last one.
spec fn bound(positions: Seq<usize>, j: int, n: int) -> int {
    if j == positions.len() {
        n
    } else {
        positions[j] as int
    }
}

/// Removes from `list` the elements at the listed positions, keeping the order
/// of the others. The positions are taken from the last to the first, so that
/// each removal leaves the positions still to be removed where they were.
pub fn remove_positions<E>(list: &mut Vec<E>, positions: &Vec<usize>)
    requires
        strictly_increasing(positions@),
        forall|j: int| 0 <= j < positions@.len() ==> #[trigger] positions@[j] < old(list)@.len(),
    ensures
        final(list)@ == kept(old(list)@, unmarked(old(list)@.len(), positions@)),
{
    let ghost orig = list@;
    let n = list.len();
    let ghost flags = unmarked(n as nat, positions@);
    let m = positions.len();
    let mut j: usize = m;
    assert(orig.subrange(n as int, n as int) =~= Seq::<E>::empty());
    assert(orig.subrange(0, n as int) =~= orig);
    while j > 0
        invariant
            j <= m,
            m == positions@.len(),
            n == orig.len(),
            flags == unmarked(n as nat, positions@),
            strictly_increasing(positions@),
            forall|k: int| 0 <= k < positions@.len() ==> #[trigger] positions@[k] < n,
            list@ == orig.subrange(0, bound(positions@, j as int, n as int)) + kept(
                orig.subrange(bound(positions@, j as int, n as int), n as int),
                flags.subrange(bound(positions@, j as int, n as int), n as int),
            ),
        decreases j,
    {
        let p = positions[j - 1];
        let ghost top = bound(positions@, j as int, n as int);
        let ghost rest = kept(orig.subrange(top, n as int), flags.subrange(top, n as int));
        proof {
            assert(p < top) by {
                if j < m {
                    assert(positions@[j - 1] < positions@[j as int]);
                }
            }
            assert(!flags[p as int]) by {
                assert(positions@[j - 1] == p);
            }
            assert forall|i: int| p + 1 <= i < top implies #[trigger] flags[i] by {
                if positions@.contains(i as usize) {
                    let k = choose|k: int| 0 <= k < positions@.len() && positions@[k] == i as usize;
                    if k <= j - 1 {
                        if k < j - 1 {
                            assert(positions@[k] < positions@[j - 1]);
                        }
                    } else {
                        if k > j {
                            assert(positions@[j as int] < positions@[k]);
                        }
                    }
                }
            }
            lemma_kept_step(orig, flags, p as int);
            lemma_kept_run(orig, flags, p + 1, top);
        }
        list.remove(p);
        assert(list@ =~= orig.subrange(0, p as int) + (orig.subrange(p + 1, top) + rest));
        j = j - 1;
    }
    proof {
        let top = bound(positions@, 0, n as int);
        assert forall|i: int| 0 <= i < top implies #[trigger] flags[i] by {
            if positions@.contains(i as usize) {
                let k = choose|k: int| 0 <= k < positions@.len() && positions@[k] == i as usize;
                if k > 0 {
                    assert(positions@[0] < positions@[k]);
                }
            }
        }
        lemma_kept_run(orig, flags, 0, top);
        assert(orig.subrange(0, 0) =~= Seq::<E>::empty());
        assert(orig.subrange(0, n as int) =~= orig);
        assert(flags.subrange(0, n as int) =~= flags);
    }
    assert(list@ =~= kept(orig, flags));
}

/// Retaining by flags removes exactly as many elements as there are clear flags.
pub proof fn lemma_kept_len<E>(s: Seq<E>, keep: Seq<bool>)
    requires
        s.len() == keep.len(),
    ensures
        kept(s, keep).len() + dropped(keep) == s.len(),
    decreases s.len(),
{
    if s.len() > 0 {
        lemma_kept_len(s.drop_first(), keep.drop_first());
    }
}

/// Retaining with every flag set changes nothing.
pub proof fn lemma_kept_all<E>(s: Seq<E>, keep: Seq<bool>)
    requires
        s.len() == keep.len(),
        all_set(keep),
    ensures
        kept(s, keep) == s,
    decreases s.len(),
{
    if s.len() > 0 {
        assert(keep[0]);
        assert(all_set(keep.drop_first())) by {
            assert forall|i: int| 0 <= i < keep.drop_first().len() implies #[trigger] keep.drop_first()[i] by {
                assert(keep[i + 1]);
            }
        }
        lemma_kept_all(s.drop_first(), keep.drop_first());
        assert(seq![s[0]] + s.drop_first() =~= s);
    }
}

/// `pos` lists, for each element of `r`, a position of `s` that holds it and
/// whose flag in `keep` is set, the positions strictly increasing.
pub open spec fn selects<E>(pos: Seq<int>, r: Seq<E>, s: Seq<E>, keep: Seq<bool>) -> bool {
    &&& pos.len() == r.len()
    &&& forall|j: int|
        0 <= j < pos.len() ==> 0 <= #[trigger] pos[j] < s.len() && keep[pos[j]] && s[pos[j]] == r[j]
    &&& forall|j: int, k: int| 0 <= j < k < pos.len() ==> #[trigger] pos[j] < #[trigger] pos[k]
}

/// `r` is drawn from `s` in order, taking only elements whose flag is set.
pub open spec fn drawn_from<E>(r: Seq<E>, s: Seq<E>, keep: Seq<bool>) -> bool {
    exists|pos: Seq<int>| selects(pos, r, s, keep)
}

/// Every element that survives a retain stood at a position whose flag is set,
/// and survivors keep their relative order.
pub proof fn lemma_kept_origin<E>(s: Seq<E>, keep: Seq<bool>)
    requires
        s.len() == keep.len(),
    ensures
        drawn_from(kept(s, keep), s, keep),
    decreases s.len(),
{
    if s.len() == 0 {
        assert(selects(Seq::<int>::empty(), kept(s, keep), s, keep));
    } else {
        let t = s.drop_first();
        let tk = keep.drop_first();
        lemma_kept_origin(t, tk);
        let tail_pos = choose|pos: Seq<int>| selects(pos, kept(t, tk), t, tk);
        let shifted = tail_pos.map_values(|p: int| p + 1);
        let pos = if keep[0] {
            seq![0int] + shifted
        } else {
            shifted
        };
        let r = kept(s, keep);
        assert(pos.len() == r.len());
        assert forall|j: int| 0 <= j < pos.len() implies 0 <= #[trigger] pos[j] < s.len()
            && keep[pos[j]] && s[pos[j]] == r[j] by {
            if keep[0] {
                if j > 0 {
                    assert(pos[j] == tail_pos[j - 1] + 1);
                }
            } else {
                assert(pos[j] == tail_pos[j] + 1);
            }
        }
        assert forall|j: int, k: int| 0 <= j < k < pos.len() implies #[trigger] pos[j]
            < #[trigger] pos[k] by {
            if keep[0] {
                if j > 0 {
                    assert(pos[j] == tail_pos[j - 1] + 1);
                }
                assert(pos[k] == tail_pos[k - 1] + 1);
            } else {
                assert(pos[j] == tail_pos[j] + 1);
                assert(pos[k] == tail_pos[k] + 1);
            }
        }
        assert(selects(pos, r, s, keep));
    }
}

} // verus!
