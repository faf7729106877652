//! Which operations of a manifest go to which file, and in what order.
//!
//! Each operation comes with the key of its file's path (equal keys: the
//! same file). The files are taken in ascending byte order of their keys,
//! and each file's operations in the order they were given.

use vstd::prelude::*;

verus! {

/// `a` comes before `b` in byte order, a proper prefix first.
pub open spec fn bytes_before(a: Seq<u8>, b: Seq<u8>) -> bool
    decreases a.len(),
{
    if a.len() == 0 {
        b.len() > 0
    } else if b.len() == 0 {
        false
    } else if a[0] != b[0] {
        a[0] < b[0]
    } else {
        bytes_before(a.drop_first(), b.drop_first())
    }
}

/// A group: the key of a file and the indices of its operations.
pub type Group = (Seq<u8>, Seq<usize>);

/// How many groups at the front of `gs` have keys before `k`: where the
/// group of `k` is, or where a new one goes.
pub open spec fn group_slot(gs: Seq<Group>, k: Seq<u8>) -> nat
    decreases gs.len(),
{
    if gs.len() == 0 {
        0
    } else if bytes_before(gs[0].0, k) {
        1 + group_slot(gs.drop_first(), k)
    } else {
        0
    }
}

/// `gs` with operation `i` of key `k` added: to the end of the group of
/// `k`, or as a new group at its place.
pub open spec fn add_to_groups(gs: Seq<Group>, k: Seq<u8>, i: usize) -> Seq<Group> {
    let j = group_slot(gs, k) as int;
    if j < gs.len() && gs[j].0 == k {
        gs.update(j, (k, gs[j].1.push(i)))
    } else {
        gs.insert(j, (k, seq![i]))
    }
}

/// The groups of the operations whose file keys are `keys`, each key once,
/// in byte order, each group's indices in ascending order.
pub open spec fn groups_of(keys: Seq<Seq<u8>>) -> Seq<Group>
    decreases keys.len(),
{
    if keys.len() == 0 {
        Seq::empty()
    } else {
        add_to_groups(groups_of(keys.drop_last()), keys.last(), (keys.len() - 1) as usize)
    }
}

/// Byte order is irreflexive.
pub proof fn lemma_bytes_before_irreflexive(a: Seq<u8>)
    ensures
        !bytes_before(a, a),
    decreases a.len(),
{
    if a.len() > 0 {
        lemma_bytes_before_irreflexive(a.drop_first());
    }
}

/// Of two different byte strings, one comes before the other.
pub proof fn lemma_bytes_before_total(a: Seq<u8>, b: Seq<u8>)
    requires
        a != b,
    ensures
        bytes_before(a, b) || bytes_before(b, a),
    decreases a.len(),
{
    if a.len() > 0 && b.len() > 0 && a[0] == b[0] {
        if a.drop_first() == b.drop_first() {
            assert(a =~= seq![a[0]] + a.drop_first());
            assert(b =~= seq![b[0]] + b.drop_first());
        }
        lemma_bytes_before_total(a.drop_first(), b.drop_first());
    } else if a.len() == 0 && b.len() == 0 {
        assert(a =~= b);
    }
}

/// Byte order is transitive.
pub proof fn lemma_bytes_before_transitive(a: Seq<u8>, b: Seq<u8>, c: Seq<u8>)
    requires
        bytes_before(a, b),
        bytes_before(b, c),
    ensures
        bytes_before(a, c),
    decreases a.len(),
{
    if a.len() > 0 && a[0] == b[0] && b[0] == c[0] {
        lemma_bytes_before_transitive(a.drop_first(), b.drop_first(), c.drop_first());
    }
}

/// The indices of the operations of key `k`, in order.
pub open spec fn indices_with(keys: Seq<Seq<u8>>, k: Seq<u8>) -> Seq<usize>
    decreases keys.len(),
{
    if keys.len() == 0 {
        Seq::empty()
    } else {
        let r = indices_with(keys.drop_last(), k);
        if keys.last() == k {
            r.push((keys.len() - 1) as usize)
        } else {
            r
        }
    }
}

/// No operation of key `k`: no index.
proof fn lemma_indices_with_none(keys: Seq<Seq<u8>>, k: Seq<u8>)
    requires
        forall|i: int| 0 <= i < keys.len() ==> keys[i] != k,
    ensures
        indices_with(keys, k) == Seq::<usize>::empty(),
    decreases keys.len(),
{
    if keys.len() > 0 {
        lemma_indices_with_none(keys.drop_last(), k);
    }
}

/// The groups before the slot of `k` have keys before `k`; the group at
/// the slot, if any, does not.
proof fn lemma_group_slot(gs: Seq<Group>, k: Seq<u8>)
    ensures
        group_slot(gs, k) <= gs.len(),
        forall|m: int| 0 <= m < group_slot(gs, k) ==> bytes_before(#[trigger] gs[m].0, k),
        group_slot(gs, k) < gs.len() ==> !bytes_before(gs[group_slot(gs, k) as int].0, k),
    decreases gs.len(),
{
    if gs.len() > 0 && bytes_before(gs[0].0, k) {
        lemma_group_slot(gs.drop_first(), k);
        assert forall|m: int| 0 <= m < group_slot(gs, k) implies bytes_before(
            #[trigger] gs[m].0,
            k,
        ) by {
            if m > 0 {
                assert(gs[m] == gs.drop_first()[m - 1]);
            }
        }
    }
}

/// The groups are in strictly ascending byte order of their keys.
pub open spec fn strictly_sorted(gs: Seq<Group>) -> bool {
    forall|a: int, b: int| 0 <= a < b < gs.len() ==> bytes_before(gs[a].0, gs[b].0)
}

/// Each operation goes to the group of its file's key, each group holds
/// exactly the operations of its key in the order they were given, and the
/// groups come in strictly ascending byte order of their keys (so no two
/// share a key).
pub proof fn lemma_groups_partition(keys: Seq<Seq<u8>>)
    ensures
        strictly_sorted(groups_of(keys)),
        forall|j: int|
            0 <= j < groups_of(keys).len() ==> (#[trigger] groups_of(keys)[j]).1 == indices_with(
                keys,
                groups_of(keys)[j].0,
            ),
        forall|i: int|
            #![trigger keys[i]]
            0 <= i < keys.len() ==> exists|j: int|
                0 <= j < groups_of(keys).len() && (#[trigger] groups_of(keys)[j]).0 == keys[i],
    decreases keys.len(),
{
    if keys.len() > 0 {
        let init = keys.drop_last();
        let k = keys.last();
        let i = (keys.len() - 1) as usize;
        let gs = groups_of(init);
        lemma_groups_partition(init);
        lemma_group_slot(gs, k);
        let j = group_slot(gs, k) as int;
        let out = groups_of(keys);
        assert(out == add_to_groups(gs, k, i));
        assert forall|m: int| 0 <= m < gs.len() && gs[m].0 != k implies indices_with(
            keys,
            #[trigger] gs[m].0,
        ) == indices_with(init, gs[m].0) by {}
        if j < gs.len() && gs[j].0 == k {
            assert(out == gs.update(j, (k, gs[j].1.push(i))));
            assert forall|a: int, b: int| 0 <= a < b < out.len() implies bytes_before(
                out[a].0,
                out[b].0,
            ) by {
                assert(out[a].0 == gs[a].0 && out[b].0 == gs[b].0);
            }
            assert forall|m: int| 0 <= m < out.len() implies (#[trigger] out[m]).1 == indices_with(
                keys,
                out[m].0,
            ) by {
                if m != j {
                    if gs[m].0 == k {
                        if m < j {
                            lemma_bytes_before_irreflexive(k);
                        } else {
                            assert(bytes_before(gs[j].0, gs[m].0));
                            lemma_bytes_before_irreflexive(k);
                        }
                    }
                }
            }
            assert forall|t: int| #![trigger keys[t]] 0 <= t < keys.len() implies exists|q: int|
                0 <= q < out.len() && (#[trigger] out[q]).0 == keys[t] by {
                if t < keys.len() - 1 {
                    assert(init[t] == keys[t]);
                    let q = choose|q: int| 0 <= q < gs.len() && (#[trigger] gs[q]).0 == init[t];
                    assert(out[q].0 == keys[t]);
                } else {
                    assert(keys[t] == k);
                    assert(out[j].0 == keys[t]);
                }
            }
        } else {
            assert(out == gs.insert(j, (k, seq![i])));
            assert(j < gs.len() ==> bytes_before(k, gs[j].0)) by {
                if j < gs.len() {
                    lemma_bytes_before_total(k, gs[j].0);
                }
            }
            assert forall|m: int| 0 <= m < gs.len() implies (if m < j {
                bytes_before(#[trigger] gs[m].0, k)
            } else {
                bytes_before(k, gs[m].0)
            }) by {
                if m > j {
                    lemma_bytes_before_transitive(k, gs[j].0, gs[m].0);
                }
            }
            assert forall|m: int| 0 <= m < gs.len() implies #[trigger] gs[m].0 != k by {
                lemma_bytes_before_irreflexive(k);
                if m < j {
                    assert(bytes_before(gs[m].0, k));
                } else {
                    assert(bytes_before(k, gs[m].0));
                }
            }
            assert forall|t: int| #![trigger init[t]] 0 <= t < init.len() implies init[t] != k by {
                let q = choose|q: int| 0 <= q < gs.len() && (#[trigger] gs[q]).0 == init[t];
                assert(gs[q].0 != k);
            }
            lemma_indices_with_none(init, k);
            assert forall|a: int, b: int| 0 <= a < b < out.len() implies bytes_before(
                out[a].0,
                out[b].0,
            ) by {
                if b < j {
                    assert(out[a] == gs[a] && out[b] == gs[b]);
                } else if b == j {
                    assert(out[a] == gs[a]);
                    assert(bytes_before(gs[a].0, k));
                } else if a == j {
                    assert(out[b] == gs[b - 1]);
                    assert(bytes_before(k, gs[b - 1].0));
                } else if a < j {
                    assert(out[a] == gs[a] && out[b] == gs[b - 1]);
                } else {
                    assert(out[a] == gs[a - 1] && out[b] == gs[b - 1]);
                }
            }
            assert forall|m: int| 0 <= m < out.len() implies (#[trigger] out[m]).1 == indices_with(
                keys,
                out[m].0,
            ) by {
                if m < j {
                    assert(out[m] == gs[m]);
                    assert(gs[m].0 != k);
                } else if m > j {
                    assert(out[m] == gs[m - 1]);
                    assert(gs[m - 1].0 != k);
                } else {
                    assert(indices_with(keys, k) =~= seq![i]);
                }
            }
            assert forall|t: int| #![trigger keys[t]] 0 <= t < keys.len() implies exists|q: int|
                0 <= q < out.len() && (#[trigger] out[q]).0 == keys[t] by {
                if t < keys.len() - 1 {
                    assert(init[t] == keys[t]);
                    let q = choose|q: int| 0 <= q < gs.len() && (#[trigger] gs[q]).0 == init[t];
                    if q < j {
                        assert(out[q] == gs[q]);
                    } else {
                        assert(out[q + 1] == gs[q]);
                    }
                } else {
                    assert(keys[t] == k);
                    assert(out[j].0 == keys[t]);
                }
            }
        }
    }
}

/// The groups as plain values.
pub open spec fn group_views(gs: Seq<(Vec<u8>, Vec<usize>)>) -> Seq<Group> {
    gs.map_values(|g: (Vec<u8>, Vec<usize>)| (g.0@, g.1@))
}

/// Whether `a` comes before `b` (see [`bytes_before`]).
pub fn bytes_less(a: &[u8], b: &[u8]) -> (r: bool)
    ensures
        r == bytes_before(a@, b@),
{
    let mut i: usize = 0;
    assert(a@.skip(0) =~= a@);
    assert(b@.skip(0) =~= b@);
    while i < a.len() && i < b.len()
        invariant
            0 <= i <= a.len(),
            i <= b.len(),
            bytes_before(a@, b@) == bytes_before(a@.skip(i as int), b@.skip(i as int)),
        decreases a.len() - i,
    {
        if a[i] != b[i] {
            return a[i] < b[i];
        }
        assert(a@.skip(i as int).drop_first() =~= a@.skip(i + 1));
        assert(b@.skip(i as int).drop_first() =~= b@.skip(i + 1));
        i += 1;
    }
    assert(i == a.len() ==> a@.skip(i as int) =~= Seq::<u8>::empty());
    assert(i == b.len() ==> b@.skip(i as int) =~= Seq::<u8>::empty());
    i == a.len() && i < b.len()
}

/// Whether two byte strings are equal.
fn same_bytes(a: &[u8], b: &[u8]) -> (r: bool)
    ensures
        r == (a@ == b@),
{
    if a.len() != b.len() {
        return false;
    }
    let mut i: usize = 0;
    while i < a.len()
        invariant
            a.len() == b.len(),
            0 <= i <= a.len(),
            forall|j: int| 0 <= j < i ==> a@[j] == b@[j],
        decreases a.len() - i,
    {
        if a[i] != b[i] {
            return false;
        }
        i += 1;
    }
    assert(a@ =~= b@);
    true
}

/// A copy of a byte slice.
fn copy_key(b: &[u8]) -> (r: Vec<u8>)
    ensures
        r@ == b@,
{
    vstd::slice::slice_to_vec(b)
}

/// Groups operations by the key of their file (see [`groups_of`]):
/// `keys[i]` is the key of operation `i`.
pub fn group_by_key(keys: &[Vec<u8>]) -> (r: Vec<(Vec<u8>, Vec<usize>)>)
    ensures
        group_views(r@) == groups_of(keys@.map_values(|k: Vec<u8>| k@)),
        strictly_sorted(group_views(r@)),
        forall|j: int|
            0 <= j < r@.len() ==> (#[trigger] group_views(r@)[j]).1 == indices_with(
                keys@.map_values(|k: Vec<u8>| k@),
                group_views(r@)[j].0,
            ),
{
    let ghost ks = keys@.map_values(|k: Vec<u8>| k@);
    let mut gs: Vec<(Vec<u8>, Vec<usize>)> = Vec::new();
    let mut i: usize = 0;
    assert(ks.take(0) =~= Seq::<Seq<u8>>::empty());
    assert(group_views(gs@) =~= Seq::<Group>::empty());
    while i < keys.len()
        invariant
            0 <= i <= keys.len(),
            ks == keys@.map_values(|k: Vec<u8>| k@),
            group_views(gs@) == groups_of(ks.take(i as int)),
        decreases keys.len() - i,
    {
        let k = keys[i].as_slice();
        let ghost before = group_views(gs@);
        let mut j: usize = 0;
        assert(before.skip(0) =~= before);
        while j < gs.len() && bytes_less(gs[j].0.as_slice(), k)
            invariant
                0 <= j <= gs.len(),
                before == group_views(gs@),
                group_slot(before, k@) == j + group_slot(before.skip(j as int), k@),
            decreases gs.len() - j,
        {
            assert(before.skip(j as int)[0] == before[j as int]);
            assert(before.skip(j as int).drop_first() =~= before.skip(j + 1));
            j += 1;
        }
        if j < gs.len() {
            assert(before.skip(j as int)[0] == before[j as int]);
        } else {
            assert(before.skip(j as int) =~= Seq::<Group>::empty());
        }
        assert(group_slot(before, k@) == j);
        let ghost prefix = ks.take(i + 1);
        assert(prefix.drop_last() =~= ks.take(i as int));
        assert(prefix.last() == k@);
        if j < gs.len() && same_bytes(gs[j].0.as_slice(), k) {
            let (key, mut idx) = gs.remove(j);
            idx.push(i);
            gs.insert(j, (key, idx));
            assert(group_views(gs@) =~= before.update(j as int, (k@, before[j as int].1.push(i))));
        } else {
            let mut idx: Vec<usize> = Vec::new();
            idx.push(i);
            gs.insert(j, (copy_key(k), idx));
            assert(group_views(gs@) =~= before.insert(j as int, (k@, seq![i])));
        }
        i += 1;
    }
    assert(ks.take(keys.len() as int) =~= ks);
    proof {
        lemma_groups_partition(ks);
    }
    gs
}

} // verus!
