//! The digest of one row's prose, the one rule both sides of a comparison
//! against a recorded version use: BLAKE3 over the prose roles ordered by slug
//! and then text, each written as its slug, a NUL, its text and a NUL; and the empty
//! digest for a row with no prose at all.

use vstd::prelude::*;
use crate::order::{seq_lt, compare_strings, lemma_seq_lt_asym, lemma_seq_lt_trans, lemma_seq_lt_total};
use crate::text::string_from_chars;
use crate::dictionaries::{blake3_hex_of, is_lower_hex};

verus! {

/// A prose role as a value: `(slug, text)`.
pub type RoleView = (Seq<char>, Seq<char>);

/// The roles as values.
pub open spec fn roles_view(roles: Seq<(String, String)>) -> Seq<RoleView> {
    roles.map_values(|r: (String, String)| (r.0@, r.1@))
}

/// Whether no role holds any text.
pub open spec fn all_blank(roles: Seq<RoleView>) -> bool {
    forall|i: int| 0 <= i < roles.len() ==> (#[trigger] roles[i]).1.len() == 0
}

/// Whether role `a` sorts strictly before role `b`: by slug, then by text.
pub open spec fn role_lt(a: RoleView, b: RoleView) -> bool {
    seq_lt(a.0, b.0) || (a.0 == b.0 && seq_lt(a.1, b.1))
}

/// `s`, which is in role order, with `x` placed after every role that does
/// not sort after it.
pub open spec fn insert_role(s: Seq<RoleView>, x: RoleView) -> Seq<RoleView>
    decreases s.len(),
{
    if s.len() == 0 {
        seq![x]
    } else if role_lt(x, s.last()) {
        insert_role(s.drop_last(), x).push(s.last())
    } else {
        s.push(x)
    }
}

/// The roles in order of slug, then text: an order that depends on which
/// roles there are, never on the order they arrive in.
pub open spec fn sort_roles(s: Seq<RoleView>) -> Seq<RoleView>
    decreases s.len(),
{
    if s.len() == 0 {
        s
    } else {
        insert_role(sort_roles(s.drop_last()), s.last())
    }
}

/// What is hashed: each role's slug, a NUL, its text and a NUL, in order.
pub open spec fn prose_message(s: Seq<RoleView>) -> Seq<char>
    decreases s.len(),
{
    if s.len() == 0 {
        Seq::empty()
    } else {
        prose_message(s.drop_last()) + s.last().0 + seq!['\0'] + s.last().1 + seq!['\0']
    }
}

/// The digest of a row whose prose roles are `roles`.
pub open spec fn row_digest(roles: Seq<RoleView>) -> Seq<char> {
    if all_blank(roles) {
        Seq::empty()
    } else {
        blake3_hex_of(prose_message(sort_roles(roles)))
    }
}

/// `blake3::hash(text.as_bytes()).to_hex()`, as the dictionaries wrapper
/// states it; feeding a hasher the pieces one after another hashes their
/// concatenation, so hashing the whole message at once is the same digest.
fn hash_message(message: &str) -> (h: String)
    ensures
        h@ == blake3_hex_of(message@),
        h@.len() == 64,
        forall|i: int| 0 <= i < h@.len() ==> is_lower_hex(#[trigger] h@[i]),
{
    crate::dictionaries::license_hash(message)
}

proof fn lemma_role_lt_asym(a: RoleView, b: RoleView)
    ensures
        !(role_lt(a, b) && role_lt(b, a)),
        !role_lt(a, a),
{
    lemma_seq_lt_asym(a.0, b.0);
    lemma_seq_lt_asym(a.1, b.1);
    lemma_seq_lt_asym(a.0, a.0);
    lemma_seq_lt_asym(a.1, a.1);
}

proof fn lemma_role_lt_trans(a: RoleView, b: RoleView, c: RoleView)
    requires
        role_lt(a, b),
        role_lt(b, c),
    ensures
        role_lt(a, c),
{
    if seq_lt(a.0, b.0) && seq_lt(b.0, c.0) {
        lemma_seq_lt_trans(a.0, b.0, c.0);
    } else if a.0 == b.0 && b.0 == c.0 {
        lemma_seq_lt_trans(a.1, b.1, c.1);
    }
}

proof fn lemma_role_lt_total(a: RoleView, b: RoleView)
    ensures
        a == b || role_lt(a, b) || role_lt(b, a),
{
    lemma_seq_lt_total(a.0, b.0);
    lemma_seq_lt_total(a.1, b.1);
}

proof fn lemma_insert_at(s: Seq<RoleView>, x: RoleView, j: int)
    requires
        0 <= j <= s.len(),
        forall|k: int| j <= k < s.len() ==> role_lt(x, #[trigger] s[k]),
        j == 0 || !role_lt(x, s[j - 1]),
    ensures
        insert_role(s, x) == s.take(j).push(x) + s.skip(j),
    decreases s.len(),
{
    if s.len() == 0 {
        assert(s.take(j).push(x) + s.skip(j) == seq![x]);
    } else if j == s.len() {
        assert(s.take(j) == s);
        assert(s.skip(j).len() == 0);
        assert(s.take(j).push(x) + s.skip(j) == s.push(x));
    } else {
        assert(role_lt(x, s.last()));
        let t = s.drop_last();
        assert forall|k: int| j <= k < t.len() implies role_lt(x, #[trigger] t[k]) by {
            assert(t[k] == s[k]);
        }
        if j > 0 {
            assert(t[j - 1] == s[j - 1]);
        }
        lemma_insert_at(t, x, j);
        assert(t.take(j) == s.take(j));
        assert(t.take(j).push(x) + t.skip(j) + seq![s.last()] == s.take(j).push(x) + s.skip(j));
    }
}

/// Whether no role of `s` sorts strictly before one ahead of it.
pub open spec fn roles_sorted(s: Seq<RoleView>) -> bool {
    forall|i: int, j: int| 0 <= i < j < s.len() ==> !role_lt(#[trigger] s[j], #[trigger] s[i])
}

proof fn lemma_insert_keeps(s: Seq<RoleView>, x: RoleView)
    requires
        roles_sorted(s),
    ensures
        roles_sorted(insert_role(s, x)),
        insert_role(s, x).to_multiset() == s.to_multiset().insert(x),
    decreases s.len(),
{
    broadcast use vstd::seq_lib::group_to_multiset_ensures;
    if s.len() == 0 {
        assert(seq![x] == Seq::<RoleView>::empty().push(x));
    } else {
        let t = s.drop_last();
        let l = s.last();
        assert(s == t.push(l));
        if role_lt(x, l) {
            assert(roles_sorted(t)) by {
                assert forall|i: int, j: int| 0 <= i < j < t.len() implies !role_lt(#[trigger] t[j], #[trigger] t[i]) by {
                    assert(t[i] == s[i] && t[j] == s[j]);
                }
            }
            lemma_insert_keeps(t, x);
            let r = insert_role(t, x);
            assert forall|k: int| 0 <= k < r.len() implies !role_lt(l, #[trigger] r[k]) by {
                let y = r[k];
                assert(r.to_multiset().count(y) > 0);
                assert(t.to_multiset().insert(x).count(y) > 0);
                if y != x {
                    assert(t.to_multiset().count(y) > 0);
                    assert(t.contains(y));
                    let m = choose|m: int| 0 <= m < t.len() && t[m] == y;
                    assert(s[m] == y);
                } else {
                    lemma_role_lt_asym(x, l);
                }
            }
            assert forall|i: int, j: int| 0 <= i < j < r.len() + 1 implies !role_lt(
                #[trigger] r.push(l)[j],
                #[trigger] r.push(l)[i],
            ) by {
                if j < r.len() {
                    assert(r.push(l)[j] == r[j] && r.push(l)[i] == r[i]);
                } else {
                    assert(r.push(l)[i] == r[i]);
                }
            }
        } else {
            assert forall|i: int, j: int| 0 <= i < j < s.len() + 1 implies !role_lt(
                #[trigger] s.push(x)[j],
                #[trigger] s.push(x)[i],
            ) by {
                if j == s.len() {
                    assert(s.push(x)[i] == s[i]);
                    lemma_role_lt_total(x, l);
                    if role_lt(x, s[i]) {
                        if i < s.len() - 1 {
                            assert(!role_lt(l, s[i]));
                            lemma_role_lt_total(l, s[i]);
                            if l != s[i] {
                                lemma_role_lt_trans(x, s[i], l);
                            }
                        }
                    }
                }
            }
        }
    }
}

proof fn lemma_sort_roles(s: Seq<RoleView>)
    ensures
        roles_sorted(sort_roles(s)),
        sort_roles(s).to_multiset() == s.to_multiset(),
    decreases s.len(),
{
    broadcast use vstd::seq_lib::group_to_multiset_ensures;
    if s.len() > 0 {
        let t = s.drop_last();
        lemma_sort_roles(t);
        lemma_insert_keeps(sort_roles(t), s.last());
        assert(s == t.push(s.last()));
    }
}

/// Two lists in role order that hold the same roles are the same list.
proof fn lemma_sorted_unique(p: Seq<RoleView>, q: Seq<RoleView>)
    requires
        roles_sorted(p),
        roles_sorted(q),
        p.to_multiset() == q.to_multiset(),
    ensures
        p == q,
    decreases p.len(),
{
    broadcast use vstd::seq_lib::group_to_multiset_ensures;
    vstd::seq_lib::to_multiset_len(p);
    vstd::seq_lib::to_multiset_len(q);
    if p.len() > 0 {
        assert(p.to_multiset().count(p[0]) > 0);
        assert(q.to_multiset().count(q[0]) > 0);
        assert(q.contains(p[0]));
        assert(p.contains(q[0]));
        let k = choose|k: int| 0 <= k < q.len() && q[k] == p[0];
        let m = choose|m: int| 0 <= m < p.len() && p[m] == q[0];
        lemma_role_lt_total(p[0], q[0]);
        if p[0] != q[0] {
            if role_lt(p[0], q[0]) {
                assert(k != 0);
                assert(!role_lt(q[k], q[0]));
            } else {
                assert(m != 0);
                assert(!role_lt(p[m], p[0]));
            }
        }
        let p1 = p.drop_first();
        let q1 = q.drop_first();
        vstd::seq_lib::to_multiset_remove(p, 0);
        vstd::seq_lib::to_multiset_remove(q, 0);
        assert(p.remove(0) == p1);
        assert(q.remove(0) == q1);
        assert(roles_sorted(p1)) by {
            assert forall|i: int, j: int| 0 <= i < j < p1.len() implies !role_lt(#[trigger] p1[j], #[trigger] p1[i]) by {
                assert(p1[i] == p[i + 1] && p1[j] == p[j + 1]);
            }
        }
        assert(roles_sorted(q1)) by {
            assert forall|i: int, j: int| 0 <= i < j < q1.len() implies !role_lt(#[trigger] q1[j], #[trigger] q1[i]) by {
                assert(q1[i] == q[i + 1] && q1[j] == q[j + 1]);
            }
        }
        lemma_sorted_unique(p1, q1);
        assert(p == seq![p[0]] + p1);
        assert(q == seq![q[0]] + q1);
    } else {
        assert(p =~= q);
    }
}

/// The order in which the roles arrive never changes a row's digest: two
/// sides holding the same roles, in whatever order, agree.
pub proof fn law_digest_ignores_role_order(a: Seq<RoleView>, b: Seq<RoleView>)
    requires
        a.to_multiset() == b.to_multiset(),
    ensures
        row_digest(a) == row_digest(b),
{
    broadcast use vstd::seq_lib::group_to_multiset_ensures;

    assert(all_blank(a) == all_blank(b)) by {
        if all_blank(a) {
            assert forall|i: int| 0 <= i < b.len() implies (#[trigger] b[i]).1.len() == 0 by {
                assert(b.to_multiset().count(b[i]) > 0);
                assert(a.contains(b[i]));
                let k = choose|k: int| 0 <= k < a.len() && a[k] == b[i];
            }
        }
        if all_blank(b) {
            assert forall|i: int| 0 <= i < a.len() implies (#[trigger] a[i]).1.len() == 0 by {
                assert(a.to_multiset().count(a[i]) > 0);
                assert(b.contains(a[i]));
                let k = choose|k: int| 0 <= k < b.len() && b[k] == a[i];
            }
        }
    }
    lemma_sort_roles(a);
    lemma_sort_roles(b);
    lemma_sorted_unique(sort_roles(a), sort_roles(b));
}

/// The digest of one row's prose. `roles` holds `(role slug, text)` in any
/// order; a row whose roles hold no text at all digests to the empty string.
pub fn digest_of(roles: &[(String, String)]) -> (d: String)
    ensures
        d@ == row_digest(roles_view(roles@)),
        all_blank(roles_view(roles@)) <==> d@.len() == 0,
        !all_blank(roles_view(roles@)) ==> d@.len() == 64 && forall|i: int|
            0 <= i < d@.len() ==> is_lower_hex(#[trigger] d@[i]),
{
    let ghost rv = roles_view(roles@);
    let mut blank = true;
    let mut i: usize = 0;
    while i < roles.len()
        invariant
            0 <= i <= roles@.len(),
            rv == roles_view(roles@),
            blank == all_blank(rv.take(i as int)),
        decreases roles@.len() - i,
    {
        if crate::text::chars_of(roles[i].1.as_str()).len() > 0 {
            assert(rv.take(i as int + 1)[i as int].1.len() > 0);
            blank = false;
        } else {
            assert(rv[i as int].1.len() == 0);
        }
        i = i + 1;
    }
    assert(rv.take(rv.len() as int) == rv);
    if blank {
        return String::new();
    }
    // Insertion in role order: by slug, then by text.
    let mut sorted: Vec<usize> = Vec::new();
    let mut i: usize = 0;
    while i < roles.len()
        invariant
            0 <= i <= roles@.len(),
            rv == roles_view(roles@),
            sorted@.len() == i,
            forall|k: int| 0 <= k < sorted@.len() ==> (#[trigger] sorted@[k]) < roles@.len(),
            sorted@.map_values(|p: usize| rv[p as int]) == sort_roles(rv.take(i as int)),
        decreases roles@.len() - i,
    {
        let ghost cur = sorted@.map_values(|p: usize| rv[p as int]);
        let mut j: usize = sorted.len();
        while j > 0 && role_before(&roles[i], &roles[sorted[j - 1]])
            invariant
                0 <= j <= sorted@.len(),
                i < roles@.len(),
                rv == roles_view(roles@),
                cur == sorted@.map_values(|p: usize| rv[p as int]),
                forall|k: int| 0 <= k < sorted@.len() ==> (#[trigger] sorted@[k]) < roles@.len(),
                forall|k: int| j <= k < cur.len() ==> role_lt(rv[i as int], #[trigger] cur[k]),
            decreases j,
        {
            assert(cur[j - 1] == rv[sorted@[j - 1] as int]);
            j = j - 1;
        }
        proof {
            if j > 0 {
                assert(cur[j - 1] == rv[sorted@[j - 1] as int]);
            }
            lemma_insert_at(cur, rv[i as int], j as int);
            assert(rv.take(i as int + 1).drop_last() == rv.take(i as int));
            assert(rv.take(i as int + 1).last() == rv[i as int]);
        }
        sorted.insert(j, i);
        proof {
            assert(sorted@.map_values(|p: usize| rv[p as int]) == cur.take(j as int).push(rv[i as int]) + cur.skip(
                j as int,
            ));
        }
        i = i + 1;
    }
    assert(rv.take(rv.len() as int) == rv);
    let ghost order = sort_roles(rv);
    let mut message: Vec<char> = Vec::new();
    let mut k: usize = 0;
    while k < sorted.len()
        invariant
            0 <= k <= sorted@.len(),
            sorted@.len() == roles@.len(),
            rv == roles_view(roles@),
            forall|m: int| 0 <= m < sorted@.len() ==> (#[trigger] sorted@[m]) < roles@.len(),
            sorted@.map_values(|p: usize| rv[p as int]) == order,
            message@ == prose_message(order.take(k as int)),
        decreases sorted@.len() - k,
    {
        let p = sorted[k];
        let slug = crate::text::chars_of(roles[p].0.as_str());
        let text = crate::text::chars_of(roles[p].1.as_str());
        let ghost m0 = message@;
        append_chars(&mut message, &slug);
        message.push('\0');
        append_chars(&mut message, &text);
        message.push('\0');
        proof {
            assert(order[k as int] == rv[p as int]);
            assert(order.take(k as int + 1).drop_last() == order.take(k as int));
            assert(order.take(k as int + 1).last() == order[k as int]);
            assert(message@ == m0 + rv[p as int].0 + seq!['\0'] + rv[p as int].1 + seq!['\0']);
        }
        k = k + 1;
    }
    assert(order.take(order.len() as int) == order);
    let text = string_from_chars(message.as_slice());
    hash_message(text.as_str())
}

/// Whether role `a` sorts strictly before role `b`.
fn role_before(a: &(String, String), b: &(String, String)) -> (r: bool)
    ensures
        r == role_lt((a.0@, a.1@), (b.0@, b.1@)),
{
    let c = compare_strings(&a.0, &b.0);
    if c == -1 {
        true
    } else if c == 0 {
        compare_strings(&a.1, &b.1) == -1
    } else {
        proof {
            lemma_seq_lt_asym(a.0@, b.0@);
        }
        false
    }
}

fn append_chars(out: &mut Vec<char>, more: &Vec<char>)
    ensures
        final(out)@ == old(out)@ + more@,
{
    let ghost start = out@;
    let mut i: usize = 0;
    while i < more.len()
        invariant
            0 <= i <= more@.len(),
            out@ == start + more@.take(i as int),
        decreases more@.len() - i,
    {
        out.push(more[i]);
        assert(more@.take(i as int + 1) == more@.take(i as int).push(more@[i as int]));
        i = i + 1;
    }
    assert(more@.take(more@.len() as int) == more@);
}


/// Whether no slug or text of `roles` holds a NUL, the separator the message
/// is framed with.
pub open spec fn nul_free(roles: Seq<RoleView>) -> bool {
    forall|i: int| 0 <= i < roles.len() ==> !(#[trigger] roles[i]).0.contains('\0') && !roles[i].1.contains('\0')
}

proof fn lemma_last_field(x: Seq<char>, ta: Seq<char>, y: Seq<char>, tb: Seq<char>)
    requires
        x + seq!['\0'] + ta + seq!['\0'] == y + seq!['\0'] + tb + seq!['\0'],
        !ta.contains('\0'),
        !tb.contains('\0'),
    ensures
        ta == tb,
        x == y,
{
    let m = x + seq!['\0'] + ta + seq!['\0'];
    let m2 = y + seq!['\0'] + tb + seq!['\0'];
    assert(m.len() == x.len() + ta.len() + 2);
    assert(m2.len() == y.len() + tb.len() + 2);
    assert(m[x.len() as int] == '\0');
    assert(m2[y.len() as int] == '\0');
    if ta.len() < tb.len() {
        let j = tb.len() - ta.len() - 1;
        assert(m2[y.len() + 1 + j] == tb[j]);
        assert(y.len() + 1 + j == x.len());
        assert(tb.contains(tb[j]));
    } else if tb.len() < ta.len() {
        let j = ta.len() - tb.len() - 1;
        assert(m[x.len() + 1 + j] == ta[j]);
        assert(x.len() + 1 + j == y.len());
        assert(ta.contains(ta[j]));
    }
    assert(ta.len() == tb.len());
    assert forall|i: int| 0 <= i < ta.len() implies ta[i] == tb[i] by {
        assert(m[x.len() + 1 + i] == ta[i]);
        assert(m2[y.len() + 1 + i] == tb[i]);
    }
    assert forall|i: int| 0 <= i < x.len() implies x[i] == y[i] by {
        assert(m[i] == x[i]);
        assert(m2[i] == y[i]);
    }
    assert(ta =~= tb);
    assert(x =~= y);
}

/// Moving text between roles is a change the hashed message sees: two rows
/// whose roles carry the same slugs in the same order, with no NUL in any
/// slug or text, frame the same message only when every role holds the same
/// text. (That the digests then differ too is BLAKE3's to keep.)
pub proof fn law_message_tells_roles_apart(a: Seq<RoleView>, b: Seq<RoleView>)
    requires
        a.len() == b.len(),
        forall|i: int| 0 <= i < a.len() ==> (#[trigger] a[i]).0 == b[i].0,
        nul_free(a),
        nul_free(b),
        prose_message(a) == prose_message(b),
    ensures
        a == b,
    decreases a.len(),
{
    if a.len() > 0 {
        let s = a.last().0;
        let pa = prose_message(a.drop_last());
        let pb = prose_message(b.drop_last());
        assert(a.last().0 == b.last().0);
        assert(prose_message(a) == pa + s + seq!['\0'] + a.last().1 + seq!['\0']);
        assert(prose_message(b) == pb + s + seq!['\0'] + b.last().1 + seq!['\0']);
        assert(pa + s + seq!['\0'] + a.last().1 + seq!['\0'] == (pa + s) + seq!['\0'] + a.last().1 + seq!['\0']);
        lemma_last_field(pa + s, a.last().1, pb + s, b.last().1);
        assert forall|i: int| 0 <= i < pa.len() implies pa[i] == pb[i] by {
            assert((pa + s)[i] == pa[i]);
            assert((pb + s)[i] == pb[i]);
        }
        assert(pa =~= pb);
        let ad = a.drop_last();
        let bd = b.drop_last();
        assert forall|i: int| 0 <= i < ad.len() implies (#[trigger] ad[i]).0 == bd[i].0 by {
            assert(ad[i] == a[i] && bd[i] == b[i]);
        }
        assert forall|i: int| 0 <= i < ad.len() implies !(#[trigger] ad[i]).0.contains('\0') && !ad[i].1.contains('\0') by {
            assert(ad[i] == a[i]);
        }
        assert forall|i: int| 0 <= i < bd.len() implies !(#[trigger] bd[i]).0.contains('\0') && !bd[i].1.contains('\0') by {
            assert(bd[i] == b[i]);
        }
        law_message_tells_roles_apart(ad, bd);
        assert(a =~= ad.push(a.last()));
        assert(b =~= bd.push(b.last()));
    } else {
        assert(a =~= b);
    }
}

} // verus!
