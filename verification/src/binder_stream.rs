//! The flat, binder-major stream of a Work's items in the order a save writes
//! them: each binder's items in its own relationship order, whatever order the
//! store answered a batched read in.

use vstd::prelude::*;

verus! {

/// One item of the stream: its live store id, its durable uid and its title.
#[derive(Debug, Default, PartialEq, Eq)]
pub struct BinderItemRef {
    pub id: u64,
    pub uid: u128,
    pub title: String,
}

/// Whether `r` carries what the last of `fetched` with its id carries, or
/// the empty uid and title when none has it.
pub open spec fn filled_from(fetched: Seq<BinderItemRef>, r: BinderItemRef) -> bool {
    (exists|k: int|
        0 <= k < fetched.len() && (#[trigger] fetched[k]).id == r.id && fetched[k].uid == r.uid
            && fetched[k].title@ == r.title@ && forall|m: int| k < m < fetched.len() ==> (#[trigger] fetched[m]).id
            != r.id) || ((forall|m: int| 0 <= m < fetched.len() ==> (#[trigger] fetched[m]).id != r.id) && r.uid
        == 0 && r.title@.len() == 0)
}

/// One binder's stream: a row for every id of `item_ids`, in that order, each
/// carrying the uid and title of the last fetched item with its id, or empty
/// ones when the batched read did not return it, so later rows keep their
/// positions.
pub fn refs_in_order(item_ids: &[u64], fetched: &[BinderItemRef]) -> (out: Vec<BinderItemRef>)
    ensures
        out@.len() == item_ids@.len(),
        forall|k: int| 0 <= k < out@.len() ==> (#[trigger] out@[k]).id == item_ids@[k] && filled_from(fetched@, out@[k]),
{
    let mut out: Vec<BinderItemRef> = Vec::new();
    let mut i: usize = 0;
    while i < item_ids.len()
        invariant
            0 <= i <= item_ids@.len(),
            out@.len() == i,
            forall|k: int| 0 <= k < out@.len() ==> (#[trigger] out@[k]).id == item_ids@[k] && filled_from(fetched@, out@[k]),
        decreases item_ids@.len() - i,
    {
        let want = item_ids[i];
        let mut k: usize = 0;
        let mut found: Option<usize> = None;
        while k < fetched.len()
            invariant
                0 <= k <= fetched@.len(),
                found is None ==> forall|m: int| 0 <= m < k ==> (#[trigger] fetched@[m]).id != want,
                found matches Some(f) ==> f < k && fetched@[f as int].id == want && forall|m: int|
                    f < m < k ==> (#[trigger] fetched@[m]).id != want,
            decreases fetched@.len() - k,
        {
            if fetched[k].id == want {
                found = Some(k);
            }
            k = k + 1;
        }
        let r = match found {
            Some(f) => BinderItemRef { id: want, uid: fetched[f].uid, title: fetched[f].title.clone() },
            None => BinderItemRef { id: want, uid: 0, title: String::new() },
        };
        assert(filled_from(fetched@, r));
        let ghost o0 = out@;
        out.push(r);
        assert forall|k: int| 0 <= k < out@.len() implies (#[trigger] out@[k]).id == item_ids@[k] && filled_from(
            fetched@,
            out@[k],
        ) by {
            if k < o0.len() {
                assert(out@[k] == o0[k]);
            }
        }
        i = i + 1;
    }
    out
}

} // verus!
