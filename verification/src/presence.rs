//! Confirming where a story-bible entry appears, from the entry's own side:
//! the entry goes into the cast (`references`) of every document that
//! mentions it, once, never into itself, and documents that already list it
//! are left alone, so confirming twice writes nothing.

use vstd::prelude::*;

verus! {

/// The documents among the first `n` of `owners` to confirm `entry` in: each
/// once, in first-seen order, never the entry itself.
pub open spec fn confirm_targets_spec(owners: Seq<u64>, entry: u64, n: int) -> Seq<u64>
    decreases n,
{
    if n <= 0 {
        Seq::empty()
    } else {
        let before = confirm_targets_spec(owners, entry, n - 1);
        let o = owners[n - 1];
        if o == entry || before.contains(o) {
            before
        } else {
            before.push(o)
        }
    }
}

/// The writes a confirmation makes: for each target that does not list
/// `entry` yet, the target and its cast with `entry` added at the end.
pub open spec fn pending_spec(targets: Seq<u64>, current: Seq<Seq<u64>>, entry: u64, n: int) -> Seq<(u64, Seq<u64>)>
    decreases n,
{
    if n <= 0 {
        Seq::empty()
    } else {
        let before = pending_spec(targets, current, entry, n - 1);
        if current[n - 1].contains(entry) {
            before
        } else {
            before.push((targets[n - 1], current[n - 1].push(entry)))
        }
    }
}

fn holds(ids: &[u64], id: u64) -> (b: bool)
    ensures
        b == ids@.contains(id),
{
    let mut i: usize = 0;
    while i < ids.len()
        invariant
            0 <= i <= ids@.len(),
            forall|k: int| 0 <= k < i ==> ids@[k] != id,
        decreases ids@.len() - i,
    {
        if ids[i] == id {
            assert(ids@[i as int] == id);
            return true;
        }
        i = i + 1;
    }
    false
}

/// The documents to confirm `entry` in: each of `owners` once, in the order
/// first seen, the entry itself left out.
pub fn confirm_targets(owners: &[u64], entry: u64) -> (targets: Vec<u64>)
    ensures
        targets@ == confirm_targets_spec(owners@, entry, owners@.len() as int),
        targets@.no_duplicates(),
        !targets@.contains(entry),
{
    let mut targets: Vec<u64> = Vec::new();
    let mut i: usize = 0;
    while i < owners.len()
        invariant
            0 <= i <= owners@.len(),
            targets@ == confirm_targets_spec(owners@, entry, i as int),
            targets@.no_duplicates(),
            !targets@.contains(entry),
        decreases owners@.len() - i,
    {
        let o = owners[i];
        if o != entry && !holds(targets.as_slice(), o) {
            let ghost t0 = targets@;
            targets.push(o);
            proof {
                assert forall|a: int, b: int| 0 <= a < targets@.len() && 0 <= b < targets@.len() && a != b
                    implies targets@[a] != targets@[b] by {
                    if a == t0.len() {
                        assert(targets@[b] == t0[b]);
                        assert(t0.contains(t0[b]));
                    } else if b == t0.len() {
                        assert(targets@[a] == t0[a]);
                        assert(t0.contains(t0[a]));
                    } else {
                        assert(targets@[a] == t0[a] && targets@[b] == t0[b]);
                    }
                }
                if targets@.contains(entry) {
                    let k = choose|k: int| 0 <= k < targets@.len() && targets@[k] == entry;
                    if k < t0.len() {
                        assert(t0[k] == entry);
                    }
                }
            }
        }
        i = i + 1;
    }
    targets
}

/// The writes that confirm `entry` in `targets`, whose current casts are
/// `current` (one per target, in the same order): the targets that do not list
/// `entry` yet, each with its cast and `entry` after it.
pub fn pending_references(targets: &[u64], current: &[Vec<u64>], entry: u64) -> (writes: Vec<(u64, Vec<u64>)>)
    requires
        current@.len() == targets@.len(),
    ensures
        writes@.len() == pending_spec(targets@, current@.map_values(|c: Vec<u64>| c@), entry, targets@.len() as int).len(),
        forall|k: int| 0 <= k < writes@.len() ==> (#[trigger] writes@[k]).0 == pending_spec(
            targets@,
            current@.map_values(|c: Vec<u64>| c@),
            entry,
            targets@.len() as int,
        )[k].0 && writes@[k].1@ == pending_spec(
            targets@,
            current@.map_values(|c: Vec<u64>| c@),
            entry,
            targets@.len() as int,
        )[k].1,
{
    let ghost cv = current@.map_values(|c: Vec<u64>| c@);
    let mut writes: Vec<(u64, Vec<u64>)> = Vec::new();
    let mut i: usize = 0;
    while i < targets.len()
        invariant
            0 <= i <= targets@.len(),
            current@.len() == targets@.len(),
            cv == current@.map_values(|c: Vec<u64>| c@),
            writes@.len() == pending_spec(targets@, cv, entry, i as int).len(),
            forall|k: int| 0 <= k < writes@.len() ==> (#[trigger] writes@[k]).0 == pending_spec(
                targets@,
                cv,
                entry,
                i as int,
            )[k].0 && writes@[k].1@ == pending_spec(targets@, cv, entry, i as int)[k].1,
        decreases targets@.len() - i,
    {
        let cur = &current[i];
        assert(cv[i as int] == cur@);
        if !holds(cur.as_slice(), entry) {
            let mut refs: Vec<u64> = Vec::new();
            let mut k: usize = 0;
            while k < cur.len()
                invariant
                    0 <= k <= cur@.len(),
                    refs@ == cur@.take(k as int),
                decreases cur@.len() - k,
            {
                refs.push(cur[k]);
                assert(cur@.take(k as int + 1) == cur@.take(k as int).push(cur@[k as int]));
                k = k + 1;
            }
            assert(cur@.take(cur@.len() as int) == cur@);
            refs.push(entry);
            let ghost w0 = writes@;
            writes.push((targets[i], refs));
            proof {
                let p = pending_spec(targets@, cv, entry, i as int + 1);
                assert forall|k: int| 0 <= k < writes@.len() implies (#[trigger] writes@[k]).0 == p[k].0
                    && writes@[k].1@ == p[k].1 by {
                    if k < w0.len() {
                        assert(writes@[k] == w0[k]);
                    }
                }
            }
        }
        i = i + 1;
    }
    writes
}

/// Whether the writes are grouped into one undoable action: when there is
/// more than one.
pub fn grouped(writes: usize) -> (g: bool)
    ensures
        g == (writes > 1),
{
    writes > 1
}


/// The casts after a confirmation of `entry` was written: every cast lists it.
pub open spec fn confirmed_casts(current: Seq<Seq<u64>>, entry: u64) -> Seq<Seq<u64>> {
    current.map_values(|c: Seq<u64>| if c.contains(entry) {
        c
    } else {
        c.push(entry)
    })
}

/// Confirming is idempotent: the first pass writes, for every document not
/// listing the entry yet, exactly its cast with the entry added (so once its
/// writes are in, every cast is `confirmed_casts`), and a second pass over
/// those casts writes nothing.
pub proof fn law_confirming_twice_writes_nothing(targets: Seq<u64>, current: Seq<Seq<u64>>, entry: u64, n: int)
    requires
        0 <= n <= current.len(),
        n <= targets.len(),
    ensures
        forall|k: int|
            0 <= k < n ==> current[k].contains(entry) || pending_spec(targets, current, entry, n).contains(
                (targets[k], #[trigger] confirmed_casts(current, entry)[k]),
            ),
        forall|w: (u64, Seq<u64>)|
            #[trigger] pending_spec(targets, current, entry, n).contains(w) ==> w.1.contains(entry),
        pending_spec(targets, confirmed_casts(current, entry), entry, n).len() == 0,
    decreases n,
{
    if n > 0 {
        law_confirming_twice_writes_nothing(targets, current, entry, n - 1);
        let c = current[n - 1];
        let before = pending_spec(targets, current, entry, n - 1);
        let now = pending_spec(targets, current, entry, n);
        assert(confirmed_casts(current, entry)[n - 1] == if c.contains(entry) {
            c
        } else {
            c.push(entry)
        });
        if !c.contains(entry) {
            assert(c.push(entry)[c.len() as int] == entry);
            assert(now == before.push((targets[n - 1], c.push(entry))));
            assert(now[before.len() as int] == (targets[n - 1], c.push(entry)));
            assert forall|k: int| 0 <= k < n implies current[k].contains(entry) || now.contains(
                (targets[k], #[trigger] confirmed_casts(current, entry)[k]),
            ) by {
                if k < n - 1 && !current[k].contains(entry) {
                    let w = (targets[k], confirmed_casts(current, entry)[k]);
                    assert(before.contains(w));
                    let i = choose|i: int| 0 <= i < before.len() && before[i] == w;
                    assert(now[i] == w);
                }
            }
            assert forall|w: (u64, Seq<u64>)| #[trigger] now.contains(w) implies w.1.contains(entry) by {
                let i = choose|i: int| 0 <= i < now.len() && now[i] == w;
                if i < before.len() {
                    assert(before[i] == w);
                    assert(before.contains(w));
                }
            }
        }
    }
}

} // verus!
