//! The writer's export styles file, and the ids a new style is given: the
//! preferred id when it is free, else the first free `id-2`, `id-3`, ….

use vstd::prelude::*;
use crate::text::{has_non_space, str_has_non_space, chars_of, string_from_chars, decimal, push_decimal, lemma_decimal_injective};
use crate::mentions::strings_view;
use crate::memprof::chars_eq_lit;

verus! {

/// The current version of the export styles file.
pub const EXPORT_STYLES_CURRENT_VERSION: u32 = 1;

/// The version an export styles file without one is read as: the current one.
pub fn default_version() -> (v: u32)
    ensures
        v == EXPORT_STYLES_CURRENT_VERSION,
{
    EXPORT_STYLES_CURRENT_VERSION
}

/// The export styles file: each of the writer's styles as its JSON text.
#[derive(Debug, PartialEq)]
pub struct ExportStylesFile {
    pub version: u32,
    pub presets: Vec<String>,
}

impl Default for ExportStylesFile {
    fn default() -> (f: ExportStylesFile)
        ensures
            f.version == EXPORT_STYLES_CURRENT_VERSION,
            f.presets@.len() == 0,
    {
        ExportStylesFile { version: EXPORT_STYLES_CURRENT_VERSION, presets: Vec::new() }
    }
}

/// The id a style gets when the preferred one is blank.
pub open spec fn fallback_style_id() -> Seq<char> {
    seq!['s', 't', 'y', 'l', 'e']
}

/// The id that numbering starts from: the preferred id, or the fallback when
/// the preferred one is blank.
pub open spec fn style_base(preferred: Seq<char>) -> Seq<char> {
    if has_non_space(preferred) {
        preferred
    } else {
        fallback_style_id()
    }
}

/// `base-n`.
pub open spec fn numbered(base: Seq<char>, n: nat) -> Seq<char> {
    base + seq!['-'] + decimal(n)
}

/// Whether `id` is the id a new style preferring `preferred` gets when
/// `taken` are in use: not one of them; the base when that is free; else the
/// first `base-n`, counting from 2, that is free.
pub open spec fn fresh_id_for(preferred: Seq<char>, taken: Seq<Seq<char>>, id: Seq<char>) -> bool {
    &&& !taken.contains(id)
    &&& !taken.contains(style_base(preferred)) ==> id == style_base(preferred)
    &&& taken.contains(style_base(preferred)) ==> exists|n: nat|
        n >= 2 && id == numbered(style_base(preferred), n) && forall|m: nat|
            2 <= m < n ==> taken.contains(#[trigger] numbered(style_base(preferred), m))
}

/// Whether `cand` is one of `taken`.
fn name_taken(cand: &[char], taken: &[String]) -> (b: bool)
    ensures
        b == strings_view(taken@).contains(cand@),
{
    let ghost names = strings_view(taken@);
    let mut i: usize = 0;
    while i < taken.len()
        invariant
            0 <= i <= taken@.len(),
            names == strings_view(taken@),
            forall|k: int| 0 <= k < i ==> names[k] != cand@,
        decreases taken@.len() - i,
    {
        if chars_eq_lit(cand, taken[i].as_str()) {
            assert(names[i as int] == cand@);
            return true;
        }
        i = i + 1;
    }
    false
}

proof fn lemma_numbered_distinct(base: Seq<char>, m: nat, n: nat)
    requires
        numbered(base, m) == numbered(base, n),
    ensures
        m == n,
{
    let k = base.len() + 1;
    assert(numbered(base, m).subrange(k as int, numbered(base, m).len() as int) == decimal(m));
    assert(numbered(base, n).subrange(k as int, numbered(base, n).len() as int) == decimal(n));
    lemma_decimal_injective(m, n);
}

/// When every `base-m` for `2 <= m < n` is taken, there are at least `n - 2`
/// taken names.
proof fn lemma_numbered_all_taken(names: Seq<Seq<char>>, base: Seq<char>, n: nat)
    requires
        n >= 2,
        forall|m: nat| 2 <= m < n ==> names.contains(#[trigger] numbered(base, m)),
    ensures
        n - 2 <= names.len(),
{
    broadcast use vstd::seq_lib::seq_to_set_is_finite;
    let s = Seq::new((n - 2) as nat, |i: int| numbered(base, (i + 2) as nat));
    assert(s.no_duplicates()) by {
        assert forall|i: int, j: int| 0 <= i < s.len() && 0 <= j < s.len() && i != j implies s[i]
            != s[j] by {
            if s[i] == s[j] {
                lemma_numbered_distinct(base, (i + 2) as nat, (j + 2) as nat);
            }
        }
    }
    s.unique_seq_to_set();
    names.lemma_cardinality_of_set();
    assert forall|x: Seq<char>| s.to_set().contains(x) implies names.to_set().contains(x) by {
        let i = choose|i: int| 0 <= i < s.len() && s[i] == x;
        assert(names.contains(numbered(base, (i + 2) as nat)));
    }
    vstd::set_lib::lemma_len_subset(s.to_set(), names.to_set());
}

/// A free id for a new style: the preferred id (the fallback when it is
/// blank) if no taken id equals it, else the first `base-n`, counting from 2,
/// that no taken id equals.
pub fn unique_id(preferred: &str, taken: &[String]) -> (id: String)
    requires
        taken@.len() + 2 <= u64::MAX,
    ensures
        fresh_id_for(preferred@, strings_view(taken@), id@),
{
    let ghost names = strings_view(taken@);
    let base: Vec<char> = if str_has_non_space(preferred) {
        chars_of(preferred)
    } else {
        let mut b: Vec<char> = Vec::new();
        b.push('s');
        b.push('t');
        b.push('y');
        b.push('l');
        b.push('e');
        assert(b@ == fallback_style_id());
        b
    };
    if !name_taken(base.as_slice(), taken) {
        return string_from_chars(base.as_slice());
    }
    let mut n: u64 = 2;
    loop
        invariant
            2 <= n <= taken@.len() + 2,
            taken@.len() + 2 <= u64::MAX,
            names == strings_view(taken@),
            base@ == style_base(preferred@),
            names.contains(base@),
            forall|m: nat| 2 <= m < n ==> names.contains(#[trigger] numbered(base@, m)),
        decreases taken@.len() + 2 - n,
    {
        let mut cand: Vec<char> = Vec::new();
        let mut i: usize = 0;
        while i < base.len()
            invariant
                0 <= i <= base@.len(),
                cand@ == base@.take(i as int),
            decreases base@.len() - i,
        {
            cand.push(base[i]);
            i = i + 1;
        }
        assert(base@.take(base@.len() as int) == base@);
        cand.push('-');
        push_decimal(n, &mut cand);
        assert(cand@ == numbered(base@, n as nat));
        if !name_taken(cand.as_slice(), taken) {
            return string_from_chars(cand.as_slice());
        }
        proof {
            lemma_numbered_all_taken(names, base@, (n + 1) as nat);
            assert(names.len() == taken@.len());
        }
        n = n + 1;
    }
}


// ── the writer's styles, by id ───────────────────────────────────────────────

/// One of the writer's styles: its id, and its stored form, carried through
/// unread.
#[derive(Debug, PartialEq, Eq)]
pub struct StyleEntry {
    pub id: String,
    pub body: String,
}

/// The writer's styles, in the order they were saved.
#[derive(Debug, PartialEq, Eq)]
pub struct UserStyles {
    pub entries: Vec<StyleEntry>,
}

/// The styles as `(id, body)` values.
pub open spec fn entries_view(es: Seq<StyleEntry>) -> Seq<(Seq<char>, Seq<char>)> {
    es.map_values(|e: StyleEntry| (e.id@, e.body@))
}

/// The position of the first style from `from` on with this id, or -1.
pub open spec fn first_with_id(es: Seq<(Seq<char>, Seq<char>)>, id: Seq<char>, from: int) -> int
    decreases es.len() - from,
{
    if from < 0 || from >= es.len() {
        -1
    } else if es[from].0 == id {
        from
    } else {
        first_with_id(es, id, from + 1)
    }
}

/// The styles after `e` is saved: it replaces the first style with its id,
/// or comes last when there is none.
pub open spec fn upserted(es: Seq<(Seq<char>, Seq<char>)>, e: (Seq<char>, Seq<char>)) -> Seq<(Seq<char>, Seq<char>)> {
    let p = first_with_id(es, e.0, 0);
    if p >= 0 {
        es.update(p, e)
    } else {
        es.push(e)
    }
}

/// Whether a style's id is other than `id`.
pub open spec fn id_is_not(id: Seq<char>) -> spec_fn((Seq<char>, Seq<char>)) -> bool {
    |e: (Seq<char>, Seq<char>)| e.0 != id
}

/// The ids of the styles.
pub open spec fn ids_of(es: Seq<(Seq<char>, Seq<char>)>) -> Seq<Seq<char>> {
    es.map_values(|e: (Seq<char>, Seq<char>)| e.0)
}

proof fn lemma_first_with_id_skip(es: Seq<(Seq<char>, Seq<char>)>, id: Seq<char>, i: int)
    requires
        0 <= i <= es.len(),
        forall|k: int| 0 <= k < i ==> (#[trigger] es[k]).0 != id,
    ensures
        first_with_id(es, id, 0) == first_with_id(es, id, i),
    decreases i,
{
    if i > 0 {
        lemma_first_with_id_skip(es, id, i - 1);
    }
}

proof fn lemma_first_with_id_none(es: Seq<(Seq<char>, Seq<char>)>, id: Seq<char>, i: int)
    requires
        0 <= i <= es.len(),
        forall|k: int| i <= k < es.len() ==> (#[trigger] es[k]).0 != id,
    ensures
        first_with_id(es, id, i) == -1,
    decreases es.len() - i,
{
    if i < es.len() {
        lemma_first_with_id_none(es, id, i + 1);
    }
}

fn copy_entry(e: &StyleEntry) -> (c: StyleEntry)
    ensures
        c.id@ == e.id@ && c.body@ == e.body@,
{
    StyleEntry { id: e.id.clone(), body: e.body.clone() }
}

impl UserStyles {
    /// Save `entry`: it replaces the style with its id in place, or, new,
    /// comes last.
    pub fn upsert(&mut self, entry: StyleEntry)
        ensures
            entries_view(final(self).entries@) == upserted(entries_view(old(self).entries@), (entry.id@, entry.body@)),
    {
        let ghost es = entries_view(self.entries@);
        let mut i: usize = 0;
        while i < self.entries.len()
            invariant
                0 <= i <= self.entries@.len(),
                es == entries_view(self.entries@),
                es == entries_view(old(self).entries@),
                forall|k: int| 0 <= k < i ==> (#[trigger] es[k]).0 != entry.id@,
            decreases self.entries@.len() - i,
        {
            if crate::text::str_eq(self.entries[i].id.as_str(), entry.id.as_str()) {
                proof {
                    assert(es[i as int].0 == entry.id@);
                    lemma_first_with_id_skip(es, entry.id@, i as int);
                    assert(first_with_id(es, entry.id@, i as int) == i);
                }
                let ghost e = (entry.id@, entry.body@);
                assert(upserted(es, e) == es.update(i as int, e));
                self.entries.set(i, entry);
                assert(entries_view(self.entries@) =~= es.update(i as int, e));
                return;
            }
            i = i + 1;
        }
        proof {
            lemma_first_with_id_none(es, entry.id@, 0);
        }
        let ghost e = (entry.id@, entry.body@);
        self.entries.push(entry);
        assert(entries_view(self.entries@) =~= es.push(e));
    }

    /// Drop every style with `id`; nothing changes when there is none.
    pub fn remove(&mut self, id: &str)
        ensures
            entries_view(final(self).entries@) == entries_view(old(self).entries@).filter(id_is_not(id@)),
    {
        let ghost es = entries_view(self.entries@);
        let mut kept: Vec<StyleEntry> = Vec::new();
        let mut i: usize = 0;
        while i < self.entries.len()
            invariant
                0 <= i <= self.entries@.len(),
                es == entries_view(self.entries@),
                es == entries_view(old(self).entries@),
                entries_view(kept@) == es.take(i as int).filter(id_is_not(id@)),
            decreases self.entries@.len() - i,
        {
            proof {
                assert(es.take(i as int + 1) == es.take(i as int).push(es[i as int]));
                es.take(i as int).lemma_filter_push(es[i as int], id_is_not(id@));
            }
            if !crate::text::str_eq(self.entries[i].id.as_str(), id) {
                let c = copy_entry(&self.entries[i]);
                let ghost k0 = entries_view(kept@);
                kept.push(c);
                assert(entries_view(kept@) =~= k0.push(es[i as int]));
            }
            i = i + 1;
        }
        assert(es.take(es.len() as int) == es);
        self.entries = kept;
    }

    /// Every id in use, the built-in styles' first, then the writer's: what a
    /// new id has to dodge.
    pub fn taken_ids(&self, builtin: &[String]) -> (ids: Vec<String>)
        ensures
            strings_view(ids@) == strings_view(builtin@) + ids_of(entries_view(self.entries@)),
    {
        let mut out: Vec<String> = Vec::new();
        let mut i: usize = 0;
        while i < builtin.len()
            invariant
                0 <= i <= builtin@.len(),
                strings_view(out@) == strings_view(builtin@).take(i as int),
            decreases builtin@.len() - i,
        {
            let ghost o0 = strings_view(out@);
            out.push(builtin[i].clone());
            assert(strings_view(out@) =~= o0.push(builtin@[i as int]@));
            assert(strings_view(builtin@).take(i as int + 1) =~= strings_view(builtin@).take(i as int).push(
                builtin@[i as int]@,
            ));
            i = i + 1;
        }
        assert(strings_view(builtin@).take(builtin@.len() as int) == strings_view(builtin@));
        let ghost ids = ids_of(entries_view(self.entries@));
        let mut j: usize = 0;
        while j < self.entries.len()
            invariant
                0 <= j <= self.entries@.len(),
                ids == ids_of(entries_view(self.entries@)),
                strings_view(out@) == strings_view(builtin@) + ids.take(j as int),
            decreases self.entries@.len() - j,
        {
            let ghost o0 = strings_view(out@);
            out.push(self.entries[j].id.clone());
            assert(strings_view(out@) =~= o0.push(ids[j as int]));
            assert(ids.take(j as int + 1) =~= ids.take(j as int).push(ids[j as int]));
            j = j + 1;
        }
        assert(ids.take(ids.len() as int) == ids);
        out
    }

    /// Store `body` as a new style under a fresh id derived from `preferred`,
    /// dodging the built-in ids and the writer's own; the id it got.
    pub fn add_fresh(&mut self, body: String, preferred: &str, builtin: &[String]) -> (id: String)
        requires
            builtin@.len() + old(self).entries@.len() + 2 <= u64::MAX,
        ensures
            fresh_id_for(preferred@, strings_view(builtin@) + ids_of(entries_view(old(self).entries@)), id@),
            entries_view(final(self).entries@) == entries_view(old(self).entries@).push((id@, body@)),
    {
        let taken = self.taken_ids(builtin);
        assert(taken@.len() == strings_view(taken@).len());
        assert(ids_of(entries_view(self.entries@)).len() == self.entries@.len());
        let id = unique_id(preferred, taken.as_slice());
        let ghost es = entries_view(self.entries@);
        let ghost b = body@;
        self.entries.push(StyleEntry { id: id.clone(), body });
        assert(entries_view(self.entries@) =~= es.push((id@, b)));
        id
    }
}

} // verus!
