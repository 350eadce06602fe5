use vstd::prelude::*;

verus! {

/// The map denoted by an association list; a later entry for a key wins,
/// though the portal indices keep keys distinct (see [`distinct_keys`]).
pub open spec fn assoc_map<K, V>(s: Seq<(K, V)>) -> Map<K, V>
    decreases s.len(),
{
    if s.len() == 0 {
        Map::empty()
    } else {
        assoc_map(s.drop_last()).insert(s.last().0, s.last().1)
    }
}

/// No key occurs twice in the list.
pub open spec fn distinct_keys<K, V>(s: Seq<(K, V)>) -> bool {
    forall|i: int, j: int| 0 <= i < j < s.len() ==> (#[trigger] s[i]).0 != (#[trigger] s[j]).0
}

/// A key is in the denoted map exactly when some entry carries it.
pub proof fn lemma_assoc_contains<K, V>(s: Seq<(K, V)>, k: K)
    ensures
        assoc_map(s).dom().contains(k) <==> exists|i: int|
            0 <= i < s.len() && (#[trigger] s[i]).0 == k,
    decreases s.len(),
{
    if s.len() > 0 {
        lemma_assoc_contains(s.drop_last(), k);
        if s.last().0 == k {
            assert(s[s.len() - 1].0 == k);
        } else {
            if assoc_map(s).dom().contains(k) {
                let i = choose|i: int| 0 <= i < s.len() - 1 && (#[trigger] s.drop_last()[i]).0
                    == k;
                assert(s[i].0 == k);
            }
            if exists|i: int| 0 <= i < s.len() && (#[trigger] s[i]).0 == k {
                let i = choose|i: int| 0 <= i < s.len() && (#[trigger] s[i]).0 == k;
                assert(s.drop_last()[i].0 == k);
            }
        }
    }
}

/// With distinct keys, the entry at any index gives the denoted value.
pub proof fn lemma_assoc_at<K, V>(s: Seq<(K, V)>, i: int)
    requires
        distinct_keys(s),
        0 <= i < s.len(),
    ensures
        assoc_map(s).dom().contains(s[i].0),
        assoc_map(s)[s[i].0] == s[i].1,
    decreases s.len(),
{
    if i < s.len() - 1 {
        assert(s.drop_last()[i] == s[i]);
        lemma_assoc_at(s.drop_last(), i);
    }
}

/// Updating the entry at `i` in place updates the denoted map at its key.
pub proof fn lemma_assoc_update<K, V>(s: Seq<(K, V)>, i: int, v: V)
    requires
        distinct_keys(s),
        0 <= i < s.len(),
    ensures
        distinct_keys(s.update(i, (s[i].0, v))),
        assoc_map(s.update(i, (s[i].0, v))) == assoc_map(s).insert(s[i].0, v),
    decreases s.len(),
{
    let t = s.update(i, (s[i].0, v));
    assert forall|a: int, b: int| 0 <= a < b < t.len() implies (#[trigger] t[a]).0 != (
    #[trigger] t[b]).0 by {
        assert(s[a].0 != s[b].0);
    }
    if i == s.len() - 1 {
        assert(t.drop_last() =~= s.drop_last());
        assert(assoc_map(t) =~= assoc_map(s).insert(s[i].0, v));
    } else {
        assert(t.drop_last() =~= s.drop_last().update(i, (s[i].0, v)));
        assert(s.drop_last()[i] == s[i]);
        lemma_assoc_update(s.drop_last(), i, v);
        lemma_assoc_at(s, i);
        assert(s.last().0 != s[i].0);
        assert(assoc_map(t) =~= assoc_map(s).insert(s[i].0, v));
    }
}

/// Membership in a sequence after a push.
pub proof fn lemma_contains_push<T>(s: Seq<T>, x: T, c: T)
    ensures
        s.push(x).contains(c) <==> (s.contains(c) || c == x),
{
    if s.push(x).contains(c) {
        let i = choose|i: int| 0 <= i < s.push(x).len() && s.push(x)[i] == c;
        if i < s.len() {
            assert(s[i] == c);
        }
    }
    if s.contains(c) {
        let i = choose|i: int| 0 <= i < s.len() && s[i] == c;
        assert(s.push(x)[i] == c);
    }
    if c == x {
        assert(s.push(x)[s.len() as int] == c);
    }
}

/// Entry `j2` of a partial rebuild comes from a kept entry of `full[..i]`.
pub open spec fn from_kept<T>(out: Seq<T>, full: Seq<T>, i: int, keep: spec_fn(T) -> bool, j2: int) -> bool {
    exists|j: int| 0 <= j < i && out[j2] == #[trigger] full[j] && keep(full[j])
}

/// Invariant of a list being rebuilt by filtering `full` with `keep`:
/// after `i` entries, everything in the partial result comes from a kept
/// entry among the first `i`, and every kept entry among the first `i` is
/// in the partial result.
pub open spec fn rebuild_inv<T>(out: Seq<T>, full: Seq<T>, i: int, keep: spec_fn(T) -> bool) -> bool {
    &&& forall|j2: int| 0 <= j2 < out.len() ==> #[trigger] from_kept(out, full, i, keep, j2)
    &&& forall|j: int| 0 <= j < i && keep(#[trigger] full[j]) ==> out.contains(full[j])
}

/// Keeping entry `i` preserves the rebuild invariant.
pub proof fn lemma_rebuild_push<T>(out: Seq<T>, full: Seq<T>, i: int, keep: spec_fn(T) -> bool)
    requires
        0 <= i < full.len(),
        keep(full[i]),
        rebuild_inv(out, full, i, keep),
    ensures
        rebuild_inv(out.push(full[i]), full, i + 1, keep),
{
    let out2 = out.push(full[i]);
    assert forall|j2: int| 0 <= j2 < out2.len() implies #[trigger] from_kept(
        out2,
        full,
        i + 1,
        keep,
        j2,
    ) by {
        if j2 < out.len() {
            assert(from_kept(out, full, i, keep, j2));
            let j = choose|j: int| 0 <= j < i && out[j2] == #[trigger] full[j] && keep(full[j]);
            assert(out2[j2] == out[j2]);
            assert(0 <= j < i + 1 && out2[j2] == full[j] && keep(full[j]));
        } else {
            assert(0 <= i < i + 1 && out2[j2] == full[i] && keep(full[i]));
        }
    }
    assert forall|j: int| 0 <= j < i + 1 && keep(#[trigger] full[j]) implies out2.contains(
        full[j],
    ) by {
        lemma_contains_push(out, full[i], full[j]);
        if j < i {
            assert(out.contains(full[j]));
        }
    }
}

/// Skipping entry `i` (which `keep` rejects) preserves the rebuild
/// invariant.
pub proof fn lemma_rebuild_skip<T>(out: Seq<T>, full: Seq<T>, i: int, keep: spec_fn(T) -> bool)
    requires
        0 <= i < full.len(),
        !keep(full[i]),
        rebuild_inv(out, full, i, keep),
    ensures
        rebuild_inv(out, full, i + 1, keep),
{
    assert forall|j2: int| 0 <= j2 < out.len() implies #[trigger] from_kept(
        out,
        full,
        i + 1,
        keep,
        j2,
    ) by {
        assert(from_kept(out, full, i, keep, j2));
        let j = choose|j: int| 0 <= j < i && out[j2] == #[trigger] full[j] && keep(full[j]);
        assert(0 <= j < i + 1 && out[j2] == full[j] && keep(full[j]));
    }
    assert forall|j: int| 0 <= j < i + 1 && keep(#[trigger] full[j]) implies out.contains(
        full[j],
    ) by {
        assert(j < i);
    }
}

/// While rebuilding from a list with distinct keys, pushing a kept entry
/// keeps the partial result's keys distinct.
pub proof fn lemma_rebuild_distinct<K, V>(
    out: Seq<(K, V)>,
    full: Seq<(K, V)>,
    i: int,
    keep: spec_fn((K, V)) -> bool,
)
    requires
        distinct_keys(full),
        distinct_keys(out),
        0 <= i < full.len(),
        rebuild_inv(out, full, i, keep),
    ensures
        distinct_keys(out.push(full[i])),
{
    let out2 = out.push(full[i]);
    assert forall|a: int, b: int| 0 <= a < b < out2.len() implies (#[trigger] out2[a]).0 != (
    #[trigger] out2[b]).0 by {
        if b == out.len() {
            assert(from_kept(out, full, i, keep, a));
            let j = choose|j: int| 0 <= j < i && out[a] == #[trigger] full[j] && keep(full[j]);
            assert(full[j].0 != full[i].0);
        } else {
            assert(out[a].0 != out[b].0);
        }
    }
}

/// When the rebuild is complete, the denoted map of the result is the
/// restriction of the original map to the entries `keep` accepts.
pub proof fn lemma_rebuild_map<K, V>(
    out: Seq<(K, V)>,
    full: Seq<(K, V)>,
    keep: spec_fn((K, V)) -> bool,
)
    requires
        distinct_keys(full),
        distinct_keys(out),
        rebuild_inv(out, full, full.len() as int, keep),
    ensures
        forall|k: K|
            #[trigger] assoc_map(out).dom().contains(k) <==> (assoc_map(full).dom().contains(k)
                && keep((k, assoc_map(full)[k]))),
        forall|k: K|
            #[trigger] assoc_map(out).dom().contains(k) ==> assoc_map(out)[k] == assoc_map(
                full,
            )[k],
{
    let n = full.len() as int;
    assert forall|k: K| #[trigger] assoc_map(out).dom().contains(k) implies (assoc_map(
        full,
    ).dom().contains(k) && keep((k, assoc_map(full)[k])) && assoc_map(out)[k] == assoc_map(
        full,
    )[k]) by {
        lemma_assoc_contains(out, k);
        let j2 = choose|j2: int| 0 <= j2 < out.len() && (#[trigger] out[j2]).0 == k;
        lemma_assoc_at(out, j2);
        assert(from_kept(out, full, n, keep, j2));
        let j = choose|j: int| 0 <= j < n && out[j2] == #[trigger] full[j] && keep(full[j]);
        lemma_assoc_at(full, j);
    }
    assert forall|k: K|
        assoc_map(full).dom().contains(k) && keep(
            (k, assoc_map(full)[k]),
        ) implies #[trigger] assoc_map(out).dom().contains(k) by {
        lemma_assoc_contains(full, k);
        let j = choose|j: int| 0 <= j < full.len() && (#[trigger] full[j]).0 == k;
        lemma_assoc_at(full, j);
        assert(out.contains(full[j]));
        let j2 = choose|j2: int| 0 <= j2 < out.len() && out[j2] == full[j];
        assert(out[j2].0 == k);
        lemma_assoc_contains(out, k);
    }
}

} // verus!
