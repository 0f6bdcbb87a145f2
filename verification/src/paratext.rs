//! Paratext presets: the front and back matter a new project can start with.
//! A preset names itself, lists the countries whose tradition it follows and
//! the items it opens and closes a book with; blank items are dropped and a
//! preset without a name is refused. The writer's own presets are kept as
//! their source text.

use vstd::prelude::*;
use crate::text::{trim, has_non_space, split_by, chars_of, split_chars, trimmed, str_has_non_space, string_from_chars, decimal, push_decimal};

verus! {

/// The current version of the presets file.
pub const PARATEXT_PRESETS_CURRENT_VERSION: u32 = 1;

/// The version a presets file without one is read as: the current one.
pub fn default_version() -> (v: u32)
    ensures
        v == PARATEXT_PRESETS_CURRENT_VERSION,
{
    PARATEXT_PRESETS_CURRENT_VERSION
}

/// One preset.
#[derive(Debug, PartialEq, Eq)]
pub struct ParatextPreset {
    /// The bundled file stem, or a positional id for one of the writer's.
    pub id: String,
    /// Shown as it is, in its own language.
    pub name: String,
    /// The country codes whose tradition this is.
    pub country: Vec<String>,
    /// The language the item titles are written in.
    pub language: String,
    pub front: Vec<String>,
    pub back: Vec<String>,
    /// False for a bundled preset.
    pub editable: bool,
}

/// The writer's presets, each as its source text.
#[derive(Debug, PartialEq)]
pub struct ParatextPresetsFile {
    pub version: u32,
    pub presets: Vec<String>,
}

/// The message a preset without a name is refused with.
pub open spec fn nameless_message() -> Seq<char> {
    seq![
        'a', ' ', 'p', 'r', 'e', 's', 'e', 't', ' ', 'n', 'e', 'e', 'd', 's', ' ', 'a', ' ', '`',
        'n', 'a', 'm', 'e', '`',
    ]
}

/// A list of item titles as values.
pub open spec fn titles_view(v: Seq<String>) -> Seq<Seq<char>> {
    v.map_values(|s: String| s@)
}

/// Whether a title has anything left.
pub open spec fn not_blank() -> spec_fn(Seq<char>) -> bool {
    |t: Seq<char>| t.len() > 0
}

/// The items of a list, each trimmed, the blank ones dropped.
pub open spec fn cleaned(items: Seq<Seq<char>>) -> Seq<Seq<char>> {
    items.map_values(|t: Seq<char>| trim(t)).filter(not_blank())
}

/// `c` in upper case when it is an ASCII lower-case letter.
pub open spec fn ascii_upper(c: char) -> char {
    if 'a' <= c <= 'z' {
        ((c as u32) - 32) as char
    } else {
        c
    }
}

/// `c` in lower case when it is an ASCII upper-case letter.
pub open spec fn ascii_lower(c: char) -> char {
    if 'A' <= c <= 'Z' {
        ((c as u32) + 32) as char
    } else {
        c
    }
}

/// Whether `a` and `b` are equal once ASCII letters are lower-cased.
pub open spec fn eq_ignore_ascii_case(a: Seq<char>, b: Seq<char>) -> bool {
    a.len() == b.len() && forall|i: int| 0 <= i < a.len() ==> ascii_lower(#[trigger] a[i]) == ascii_lower(b[i])
}

/// The country subtag of a locale, upper-cased: what follows its first `-`
/// or `_`, up to the next, or nothing when there is none.
pub open spec fn locale_country(locale: Seq<char>) -> Seq<char> {
    let pieces = split_by(locale, seq!['-', '_']);
    if pieces.len() > 1 {
        pieces[1].map_values(|c: char| ascii_upper(c))
    } else {
        Seq::empty()
    }
}

/// Whether a preset with `countries` serves `locale`: the locale names a
/// country and that country is on the list, whatever the case.
pub open spec fn serves(countries: Seq<Seq<char>>, locale: Seq<char>) -> bool {
    let c = locale_country(locale);
    c.len() > 0 && exists|i: int| 0 <= i < countries.len() && eq_ignore_ascii_case(#[trigger] countries[i], c)
}

/// `user-n`.
pub open spec fn user_id_spec(index: nat) -> Seq<char> {
    seq!['u', 's', 'e', 'r', '-'] + decimal(index)
}

fn upper_char(c: char) -> (u: char)
    ensures
        u == ascii_upper(c),
{
    if 'a' <= c && c <= 'z' {
        let b: u8 = (c as u32 - 32) as u8;
        b as char
    } else {
        c
    }
}

fn lower_char(c: char) -> (l: char)
    ensures
        l == ascii_lower(c),
{
    if 'A' <= c && c <= 'Z' {
        let b: u8 = (c as u32 + 32) as u8;
        b as char
    } else {
        c
    }
}

/// Whether `a` and `b` match, ignoring the case of ASCII letters.
fn chars_eq_ignore_ascii_case(a: &[char], b: &[char]) -> (r: bool)
    ensures
        r == eq_ignore_ascii_case(a@, b@),
{
    if a.len() != b.len() {
        return false;
    }
    let mut i: usize = 0;
    while i < a.len()
        invariant
            0 <= i <= a@.len(),
            a@.len() == b@.len(),
            forall|k: int| 0 <= k < i ==> ascii_lower(#[trigger] a@[k]) == ascii_lower(b@[k]),
        decreases a@.len() - i,
    {
        if lower_char(a[i]) != lower_char(b[i]) {
            return false;
        }
        i = i + 1;
    }
    true
}

/// The items trimmed, the blank ones dropped, in their order.
pub fn clean(items: Vec<String>) -> (out: Vec<String>)
    ensures
        titles_view(out@) == cleaned(titles_view(items@)),
{
    let ghost trimmed_all = titles_view(items@).map_values(|t: Seq<char>| trim(t));
    let mut out: Vec<String> = Vec::new();
    let mut i: usize = 0;
    while i < items.len()
        invariant
            0 <= i <= items@.len(),
            trimmed_all == titles_view(items@).map_values(|t: Seq<char>| trim(t)),
            titles_view(out@) == trimmed_all.take(i as int).filter(not_blank()),
        decreases items@.len() - i,
    {
        proof {
            reveal(Seq::filter);
            assert(trimmed_all.take(i as int + 1).drop_last() == trimmed_all.take(i as int));
            assert(trimmed_all.take(i as int + 1).last() == trim(items@[i as int]@));
        }
        let t = trimmed(items[i].as_str());
        if chars_of(t.as_str()).len() > 0 {
            let ghost o0 = out@;
            out.push(t);
            assert(titles_view(out@) == titles_view(o0).push(t@));
        }
        i = i + 1;
    }
    assert(trimmed_all.take(items@.len() as int) == trimmed_all);
    out
}

/// The positional id of the writer's preset at `index`.
pub fn user_id(index: usize) -> (id: String)
    ensures
        id@ == user_id_spec(index as nat),
{
    let mut cs: Vec<char> = Vec::new();
    cs.push('u');
    cs.push('s');
    cs.push('e');
    cs.push('r');
    cs.push('-');
    push_decimal(index as u64, &mut cs);
    string_from_chars(cs.as_slice())
}

impl ParatextPreset {
    /// A preset from the fields of its source: refused when the name is blank,
    /// else with its front and back items cleaned and everything else kept as
    /// given.
    pub fn from_fields(
        id: &str,
        name: String,
        country: Vec<String>,
        language: String,
        front: Vec<String>,
        back: Vec<String>,
        editable: bool,
    ) -> (r: Result<ParatextPreset, String>)
        ensures
            !has_non_space(name@) <==> r is Err,
            r matches Err(e) ==> e@ == nameless_message(),
            r matches Ok(p) ==> {
                &&& p.id@ == id@
                &&& p.name@ == name@
                &&& p.country@ == country@
                &&& p.language@ == language@
                &&& titles_view(p.front@) == cleaned(titles_view(front@))
                &&& titles_view(p.back@) == cleaned(titles_view(back@))
                &&& p.editable == editable
            },
    {
        if !str_has_non_space(name.as_str()) {
            let mut m: Vec<char> = Vec::new();
            m.push('a');
            m.push(' ');
            m.push('p');
            m.push('r');
            m.push('e');
            m.push('s');
            m.push('e');
            m.push('t');
            m.push(' ');
            m.push('n');
            m.push('e');
            m.push('e');
            m.push('d');
            m.push('s');
            m.push(' ');
            m.push('a');
            m.push(' ');
            m.push('`');
            m.push('n');
            m.push('a');
            m.push('m');
            m.push('e');
            m.push('`');
            assert(m@ == nameless_message());
            return Err(string_from_chars(m.as_slice()));
        }
        Ok(
            ParatextPreset {
                id: id.to_string(),
                name,
                country,
                language,
                front: clean(front),
                back: clean(back),
                editable,
            },
        )
    }

    /// Whether this preset serves `locale`, matched on its country subtag:
    /// `fr-FR` and `fr_BE` can be served, a bare `fr` never is.
    pub fn serves_locale(&self, locale: &str) -> (b: bool)
        ensures
            b == serves(titles_view(self.country@), locale@),
    {
        let cs = chars_of(locale);
        let mut seps: Vec<char> = Vec::new();
        seps.push('-');
        seps.push('_');
        assert(seps@ == seq!['-', '_']);
        let pieces = split_chars(cs.as_slice(), seps.as_slice());
        let ghost want = locale_country(locale@);
        let mut country: Vec<char> = Vec::new();
        if pieces.len() > 1 {
            let piece = &pieces[1];
            let mut i: usize = 0;
            while i < piece.len()
                invariant
                    0 <= i <= piece@.len(),
                    country@ == piece@.take(i as int).map_values(|c: char| ascii_upper(c)),
                decreases piece@.len() - i,
            {
                country.push(upper_char(piece[i]));
                assert(piece@.take(i as int + 1).map_values(|c: char| ascii_upper(c))
                    == piece@.take(i as int).map_values(|c: char| ascii_upper(c)).push(
                    ascii_upper(piece@[i as int]),
                ));
                i = i + 1;
            }
            assert(piece@.take(piece@.len() as int) == piece@);
        }
        assert(country@ == want);
        if country.len() == 0 {
            return false;
        }
        let ghost cv = titles_view(self.country@);
        let mut k: usize = 0;
        while k < self.country.len()
            invariant
                0 <= k <= self.country@.len(),
                cv == titles_view(self.country@),
                country@ == want,
                want == locale_country(locale@),
                want.len() > 0,
                forall|j: int| 0 <= j < k ==> !eq_ignore_ascii_case(#[trigger] cv[j], want),
            decreases self.country@.len() - k,
        {
            let c = chars_of(self.country[k].as_str());
            if chars_eq_ignore_ascii_case(c.as_slice(), country.as_slice()) {
                assert(eq_ignore_ascii_case(cv[k as int], want));
                return true;
            }
            k = k + 1;
        }
        false
    }
}

/// Which of `presets` the interface locale suggests: the last that serves it,
/// so a preset of the writer's own, listed after the bundled ones, wins.
pub fn preselect_for_locale(presets: &[ParatextPreset], locale: &str) -> (r: Option<usize>)
    ensures
        match r {
            Some(i) => i < presets@.len() && serves(titles_view(presets@[i as int].country@), locale@)
                && forall|j: int| i < j < presets@.len() ==> !serves(
                    titles_view((#[trigger] presets@[j]).country@),
                    locale@,
                ),
            None => forall|j: int| 0 <= j < presets@.len() ==> !serves(
                titles_view((#[trigger] presets@[j]).country@),
                locale@,
            ),
        },
{
    let mut i: usize = presets.len();
    while i > 0
        invariant
            0 <= i <= presets@.len(),
            forall|j: int| i <= j < presets@.len() ==> !serves(
                titles_view((#[trigger] presets@[j]).country@),
                locale@,
            ),
        decreases i,
    {
        if presets[i - 1].serves_locale(locale) {
            return Some(i - 1);
        }
        i = i - 1;
    }
    None
}

impl Default for ParatextPresetsFile {
    fn default() -> (f: ParatextPresetsFile)
        ensures
            f.version == PARATEXT_PRESETS_CURRENT_VERSION,
            f.presets@.len() == 0,
    {
        ParatextPresetsFile { version: PARATEXT_PRESETS_CURRENT_VERSION, presets: Vec::new() }
    }
}

impl ParatextPresetsFile {
    /// Add one of the writer's presets, after the others.
    pub fn add_user_preset(&mut self, source: &str)
        ensures
            titles_view(final(self).presets@) == titles_view(old(self).presets@).push(source@),
            final(self).version == old(self).version,
    {
        let ghost p0 = self.presets@;
        self.presets.push(source.to_string());
        assert(titles_view(self.presets@) == titles_view(p0).push(source@));
    }

    /// Replace the source of the writer's preset at `index`; nothing changes
    /// when there is none.
    pub fn replace_user_preset(&mut self, index: usize, source: &str)
        ensures
            titles_view(final(self).presets@) == if index < old(self).presets@.len() {
                titles_view(old(self).presets@).update(index as int, source@)
            } else {
                titles_view(old(self).presets@)
            },
            final(self).version == old(self).version,
    {
        if index < self.presets.len() {
            let ghost p0 = self.presets@;
            self.presets.set(index, source.to_string());
            assert(titles_view(self.presets@) == titles_view(p0).update(index as int, source@));
        }
    }

    /// Drop the writer's preset at `index`; nothing changes when there is none.
    pub fn remove_user_preset(&mut self, index: usize)
        ensures
            titles_view(final(self).presets@) == if index < old(self).presets@.len() {
                titles_view(old(self).presets@).remove(index as int)
            } else {
                titles_view(old(self).presets@)
            },
            final(self).version == old(self).version,
    {
        if index < self.presets.len() {
            let ghost p0 = self.presets@;
            self.presets.remove(index);
            assert(titles_view(self.presets@) == titles_view(p0).remove(index as int));
        }
    }
}

} // verus!
