//! Lexicographic order on strings, as `String`'s `Ord` compares them, and what
//! a stable sort keeps of its input.
//!
//! `String` compares its UTF-8 bytes, and UTF-8 preserves code-point order, so
//! comparing the characters' code points from the front gives the same answer.

use vstd::prelude::*;

verus! {

/// `a` sorts strictly before `b`.
pub open spec fn seq_lt(a: Seq<char>, b: Seq<char>) -> bool
    decreases a.len(),
{
    if a.len() == 0 {
        b.len() > 0
    } else if b.len() == 0 {
        false
    } else if a[0] != b[0] {
        (a[0] as u32) < (b[0] as u32)
    } else {
        seq_lt(a.drop_first(), b.drop_first())
    }
}

/// Nothing sorts strictly before itself, and two strings are never each
/// strictly before the other.
pub proof fn lemma_seq_lt_asym(a: Seq<char>, b: Seq<char>)
    ensures
        !(seq_lt(a, b) && seq_lt(b, a)),
        !seq_lt(a, a),
    decreases a.len(),
{
    if a.len() > 0 && b.len() > 0 && a[0] == b[0] {
        lemma_seq_lt_asym(a.drop_first(), b.drop_first());
    }
    if a.len() > 0 {
        lemma_seq_lt_asym(a.drop_first(), a.drop_first());
    }
}

/// Strictly-before is transitive.
pub proof fn lemma_seq_lt_trans(a: Seq<char>, b: Seq<char>, c: Seq<char>)
    requires
        seq_lt(a, b),
        seq_lt(b, c),
    ensures
        seq_lt(a, c),
    decreases a.len(),
{
    if a.len() > 0 && b.len() > 0 && c.len() > 0 && a[0] == b[0] && b[0] == c[0] {
        lemma_seq_lt_trans(a.drop_first(), b.drop_first(), c.drop_first());
    }
}

/// Two different strings are ordered one way or the other.
pub proof fn lemma_seq_lt_total(a: Seq<char>, b: Seq<char>)
    ensures
        a == b || seq_lt(a, b) || seq_lt(b, a),
    decreases a.len(),
{
    if a.len() > 0 && b.len() > 0 && a[0] == b[0] {
        lemma_seq_lt_total(a.drop_first(), b.drop_first());
        if a.drop_first() == b.drop_first() {
            assert(a == seq![a[0]] + a.drop_first());
            assert(b == seq![b[0]] + b.drop_first());
        }
    } else if a.len() == 0 && b.len() == 0 {
        assert(a == b);
    } else if a.len() > 0 && b.len() > 0 {
        vstd::utf8::char_u32_cast(a[0], a[0] as u32);
        vstd::utf8::char_u32_cast(b[0], b[0] as u32);
        assert((a[0] as u32) != (b[0] as u32));
    }
}

/// Compare two character sequences: -1, 0 or 1 as `a` sorts before, equal to
/// or after `b`.
pub fn compare_chars(a: &[char], b: &[char]) -> (r: i8)
    ensures
        r == -1 <==> seq_lt(a@, b@),
        r == 1 <==> seq_lt(b@, a@),
        r == 0 <==> a@ == b@,
        r == -1 || r == 0 || r == 1,
{
    let mut i: usize = 0;
    assert(a@.skip(0) == a@);
    assert(b@.skip(0) == b@);
    while i < a.len() && i < b.len() && a[i] == b[i]
        invariant
            0 <= i <= a@.len(),
            i <= b@.len(),
            a@.take(i as int) == b@.take(i as int),
            a@.skip(0) == a@,
            b@.skip(0) == b@,
            seq_lt(a@, b@) == seq_lt(a@.skip(i as int), b@.skip(i as int)),
            seq_lt(b@, a@) == seq_lt(b@.skip(i as int), a@.skip(i as int)),
        decreases a@.len() - i,
    {
        proof {
            assert(a@.skip(i as int).drop_first() == a@.skip(i as int + 1));
            assert(b@.skip(i as int).drop_first() == b@.skip(i as int + 1));
            assert(a@.take(i as int + 1) == a@.take(i as int).push(a@[i as int]));
            assert(b@.take(i as int + 1) == b@.take(i as int).push(b@[i as int]));
        }
        i = i + 1;
    }
    proof {
        let sa = a@.skip(i as int);
        let sb = b@.skip(i as int);
        assert(sa.len() == a@.len() - i);
        assert(sb.len() == b@.len() - i);
        if i < a@.len() && i < b@.len() {
            assert(sa[0] == a@[i as int]);
            assert(sb[0] == b@[i as int]);
        }
        lemma_seq_lt_asym(a@, b@);
        lemma_seq_lt_total(a@, b@);
        if i == a@.len() && i == b@.len() {
            assert(a@ == a@.take(i as int));
            assert(b@ == b@.take(i as int));
        }
        if i < a@.len() && i < b@.len() {
            assert(a@ != b@) by {
                if a@ == b@ {
                    assert(a@[i as int] == b@[i as int]);
                }
            }
        }
        if i == a@.len() && i < b@.len() {
            assert(a@ != b@);
        }
        if i < a@.len() && i == b@.len() {
            assert(a@ != b@);
        }
    }
    let x: u32 = if i < a.len() { a[i] as u32 } else { 0 };
    let y: u32 = if i < b.len() { b[i] as u32 } else { 0 };
    assert(i < a@.len() ==> x == a@[i as int] as u32);
    assert(i < b@.len() ==> y == b@[i as int] as u32);
    if i == a.len() && i == b.len() {
        0
    } else if i == a.len() {
        -1
    } else if i == b.len() {
        1
    } else if x < y {
        -1
    } else {
        1
    }
}

/// Compare two strings as `String::cmp` does: -1, 0 or 1.
pub fn compare_strings(a: &String, b: &String) -> (r: i8)
    ensures
        r == -1 <==> seq_lt(a@, b@),
        r == 1 <==> seq_lt(b@, a@),
        r == 0 <==> a@ == b@,
        r == -1 || r == 0 || r == 1,
{
    let ca = crate::text::chars_of(a.as_str());
    let cb = crate::text::chars_of(b.as_str());
    compare_chars(ca.as_slice(), cb.as_slice())
}


// ── stability ────────────────────────────────────────────────────────────────

/// Whether an element's sort key is `k`.
pub open spec fn key_is<T, K>(key: spec_fn(T) -> K, k: K) -> spec_fn(T) -> bool {
    |t: T| key(t) == k
}

/// The elements of `s` whose sort key is `k`, in their order in `s`.
pub open spec fn keyed<T, K>(s: Seq<T>, key: spec_fn(T) -> K, k: K) -> Seq<T> {
    s.filter(key_is(key, k))
}

/// Among elements that share a sort key, `out` keeps the order they had in
/// `input`: what a stable sort promises.
pub open spec fn keeps_ties<T, K>(input: Seq<T>, out: Seq<T>, key: spec_fn(T) -> K) -> bool {
    forall|k: K| #[trigger] keyed(out, key, k) == keyed(input, key, k)
}

proof fn lemma_keyed_none<T, K>(s: Seq<T>, key: spec_fn(T) -> K, k: K)
    requires
        forall|j: int| 0 <= j < s.len() ==> key(#[trigger] s[j]) != k,
    ensures
        keyed(s, key, k) == Seq::<T>::empty(),
    decreases s.len(),
{
    reveal(Seq::filter);
    if s.len() > 0 {
        lemma_keyed_none(s.drop_last(), key, k);
    }
}

/// One element appended: it joins its own key's elements, last.
pub proof fn lemma_keyed_push<T, K>(s: Seq<T>, x: T, key: spec_fn(T) -> K, k: K)
    ensures
        keyed(s.push(x), key, k) == if key(x) == k {
            keyed(s, key, k).push(x)
        } else {
            keyed(s, key, k)
        },
{
    s.lemma_filter_push(x, key_is(key, k));
}

/// One element inserted at `p`, where nothing at or after `p` shares its key:
/// it joins its own key's elements, last, and no other key's elements move.
pub proof fn lemma_keyed_insert<T, K>(s: Seq<T>, p: int, x: T, key: spec_fn(T) -> K, k: K)
    requires
        0 <= p <= s.len(),
        forall|j: int| p <= j < s.len() ==> key(#[trigger] s[j]) != key(x),
    ensures
        keyed(s.insert(p, x), key, k) == if key(x) == k {
            keyed(s, key, k).push(x)
        } else {
            keyed(s, key, k)
        },
{
    let pred = key_is(key, k);
    let a = s.take(p);
    let b = s.skip(p);
    assert(s.insert(p, x) =~= a + seq![x] + b);
    assert(s =~= a + b);
    Seq::filter_distributes_over_add(a + seq![x], b, pred);
    Seq::filter_distributes_over_add(a, seq![x], pred);
    Seq::filter_distributes_over_add(a, b, pred);
    Seq::<T>::empty().lemma_filter_push(x, pred);
    assert(Seq::<T>::empty().push(x) =~= seq![x]);
    reveal(Seq::filter);
    assert(Seq::<T>::empty().filter(pred) =~= Seq::<T>::empty());
    if key(x) == k {
        lemma_keyed_none(b, key, k);
        assert(keyed(b, key, k) == Seq::<T>::empty());
        assert(keyed(s.insert(p, x), key, k) =~= keyed(s, key, k).push(x));
    } else {
        assert(keyed(s.insert(p, x), key, k) =~= keyed(s, key, k));
    }
}

/// An insertion sort's step keeps the ties: the input's next element `x`,
/// inserted where nothing after it shares its key, extends a prefix whose ties
/// were kept to one prefix longer.
pub proof fn lemma_keeps_ties_step<T, K>(input: Seq<T>, i: int, out: Seq<T>, p: int, key: spec_fn(T) -> K)
    requires
        0 <= i < input.len(),
        0 <= p <= out.len(),
        keeps_ties(input.take(i), out, key),
        forall|j: int| p <= j < out.len() ==> key(#[trigger] out[j]) != key(input[i]),
    ensures
        keeps_ties(input.take(i + 1), out.insert(p, input[i]), key),
{
    let x = input[i];
    assert(input.take(i + 1) =~= input.take(i).push(x));
    assert forall|k: K| #[trigger] keyed(out.insert(p, x), key, k) == keyed(input.take(i + 1), key, k) by {
        lemma_keyed_insert(out, p, x, key, k);
        lemma_keyed_push(input.take(i), x, key, k);
        assert(keyed(out, key, k) == keyed(input.take(i), key, k));
    }
}

} // verus!
