//! Dictionary bookkeeping: which licences the writer accepted, each for the
//! exact licence text shown (kept as its BLAKE3 hash), and which dictionaries
//! they added by hand. One record per dictionary id and one per code: a new
//! acceptance or a re-added code replaces the old record.

use vstd::prelude::*;
use crate::text::str_eq;

verus! {

/// The current version of the dictionaries file.
pub const DICTIONARY_SETTINGS_CURRENT_VERSION: u32 = 2;

/// The version a dictionaries file without one is read as: the current one.
pub fn default_version() -> (v: u32)
    ensures
        v == DICTIONARY_SETTINGS_CURRENT_VERSION,
{
    DICTIONARY_SETTINGS_CURRENT_VERSION
}

/// One accepted licence.
#[derive(Debug, PartialEq, Eq)]
pub struct AcceptedLicense {
    pub dictionary_id: String,
    pub accepted_at: String,
    pub license_text_hash: String,
}

/// A dictionary added by hand: the code its files are named by, and the name
/// the writer gave it.
#[derive(Debug, PartialEq, Eq)]
pub struct UserDictionary {
    pub code: String,
    pub name: String,
}

/// The dictionaries file.
#[derive(Debug, PartialEq)]
pub struct DictionarySettingsFile {
    pub version: u32,
    pub accepted: Vec<AcceptedLicense>,
    pub user_dictionaries: Vec<UserDictionary>,
}

/// An acceptance as a value: `(dictionary id, accepted at, licence hash)`.
pub open spec fn license_view(a: AcceptedLicense) -> (Seq<char>, Seq<char>, Seq<char>) {
    (a.dictionary_id@, a.accepted_at@, a.license_text_hash@)
}

/// The acceptances as values.
pub open spec fn licenses_view(s: Seq<AcceptedLicense>) -> Seq<(Seq<char>, Seq<char>, Seq<char>)> {
    s.map_values(|a: AcceptedLicense| license_view(a))
}

/// A user dictionary as a value: `(code, name)`.
pub open spec fn user_dictionary_view(d: UserDictionary) -> (Seq<char>, Seq<char>) {
    (d.code@, d.name@)
}

/// The user dictionaries as values.
pub open spec fn user_dictionaries_view(s: Seq<UserDictionary>) -> Seq<(Seq<char>, Seq<char>)> {
    s.map_values(|d: UserDictionary| user_dictionary_view(d))
}

/// Acceptances of any dictionary but `id`.
pub open spec fn not_for_dictionary(id: Seq<char>) -> spec_fn((Seq<char>, Seq<char>, Seq<char>)) -> bool {
    |a: (Seq<char>, Seq<char>, Seq<char>)| a.0 != id
}

/// User dictionaries of any code but `code`.
pub open spec fn not_for_code(code: Seq<char>) -> spec_fn((Seq<char>, Seq<char>)) -> bool {
    |d: (Seq<char>, Seq<char>)| d.0 != code
}

/// Whether `ls` holds an acceptance of `id` for the text hashing to `hash`.
pub open spec fn accepted_in(ls: Seq<(Seq<char>, Seq<char>, Seq<char>)>, id: Seq<char>, hash: Seq<char>) -> bool {
    exists|i: int| 0 <= i < ls.len() && (#[trigger] ls[i]).0 == id && ls[i].2 == hash
}

/// Lowercase hexadecimal BLAKE3 of the UTF-8 bytes of a text.
pub uninterp spec fn blake3_hex_of(text: Seq<char>) -> Seq<char>;

/// Whether `c` is a lowercase hexadecimal digit.
pub open spec fn is_lower_hex(c: char) -> bool {
    ('0' <= c <= '9') || ('a' <= c <= 'f')
}

/// `blake3::hash(text.as_bytes()).to_hex()`: the 32-byte hash written as 64
/// lowercase hexadecimal digits, two per byte, which is all its source shows
/// of the form; the hash itself is named by `blake3_hex_of`.
#[verifier::external_body]
fn blake3_hex(text: &str) -> (h: String)
    ensures
        h@ == blake3_hex_of(text@),
        h@.len() == 64,
        forall|i: int| 0 <= i < h@.len() ==> is_lower_hex(#[trigger] h@[i]),
{
    blake3::hash(text.as_bytes()).to_hex().to_string()
}

/// The lowercase hexadecimal BLAKE3 of a licence text, used both when an
/// acceptance is recorded and when one is checked.
pub fn license_hash(text: &str) -> (h: String)
    ensures
        h@ == blake3_hex_of(text@),
        h@.len() == 64,
        forall|i: int| 0 <= i < h@.len() ==> is_lower_hex(#[trigger] h@[i]),
{
    blake3_hex(text)
}

fn copy_license(a: &AcceptedLicense) -> (c: AcceptedLicense)
    ensures
        license_view(c) == license_view(*a),
{
    AcceptedLicense {
        dictionary_id: a.dictionary_id.clone(),
        accepted_at: a.accepted_at.clone(),
        license_text_hash: a.license_text_hash.clone(),
    }
}

fn copy_user_dictionary(d: &UserDictionary) -> (c: UserDictionary)
    ensures
        user_dictionary_view(c) == user_dictionary_view(*d),
{
    UserDictionary { code: d.code.clone(), name: d.name.clone() }
}

/// The acceptances in `v` of dictionaries other than `id`, in their order.
fn licenses_except(v: &Vec<AcceptedLicense>, id: &str) -> (out: Vec<AcceptedLicense>)
    ensures
        licenses_view(out@) == licenses_view(v@).filter(not_for_dictionary(id@)),
{
    let ghost whole = licenses_view(v@);
    let mut out: Vec<AcceptedLicense> = Vec::new();
    let mut i: usize = 0;
    while i < v.len()
        invariant
            0 <= i <= v@.len(),
            whole == licenses_view(v@),
            licenses_view(out@) == whole.take(i as int).filter(not_for_dictionary(id@)),
        decreases v@.len() - i,
    {
        proof {
            reveal(Seq::filter);
            assert(whole.take(i as int + 1).drop_last() == whole.take(i as int));
            assert(whole.take(i as int + 1).last() == license_view(v@[i as int]));
        }
        if !str_eq(v[i].dictionary_id.as_str(), id) {
            let ghost o0 = out@;
            out.push(copy_license(&v[i]));
            assert(licenses_view(out@) == licenses_view(o0).push(license_view(v@[i as int])));
        }
        i = i + 1;
    }
    assert(whole.take(v@.len() as int) == whole);
    out
}

/// The user dictionaries in `v` of codes other than `code`, in their order.
fn user_dictionaries_except(v: &Vec<UserDictionary>, code: &str) -> (out: Vec<UserDictionary>)
    ensures
        user_dictionaries_view(out@) == user_dictionaries_view(v@).filter(not_for_code(code@)),
{
    let ghost whole = user_dictionaries_view(v@);
    let mut out: Vec<UserDictionary> = Vec::new();
    let mut i: usize = 0;
    while i < v.len()
        invariant
            0 <= i <= v@.len(),
            whole == user_dictionaries_view(v@),
            user_dictionaries_view(out@) == whole.take(i as int).filter(not_for_code(code@)),
        decreases v@.len() - i,
    {
        proof {
            reveal(Seq::filter);
            assert(whole.take(i as int + 1).drop_last() == whole.take(i as int));
            assert(whole.take(i as int + 1).last() == user_dictionary_view(v@[i as int]));
        }
        if !str_eq(v[i].code.as_str(), code) {
            let ghost o0 = out@;
            out.push(copy_user_dictionary(&v[i]));
            assert(user_dictionaries_view(out@) == user_dictionaries_view(o0).push(
                user_dictionary_view(v@[i as int]),
            ));
        }
        i = i + 1;
    }
    assert(whole.take(v@.len() as int) == whole);
    out
}

impl Default for DictionarySettingsFile {
    fn default() -> (f: DictionarySettingsFile)
        ensures
            f.version == DICTIONARY_SETTINGS_CURRENT_VERSION,
            f.accepted@.len() == 0,
            f.user_dictionaries@.len() == 0,
    {
        DictionarySettingsFile {
            version: DICTIONARY_SETTINGS_CURRENT_VERSION,
            accepted: Vec::new(),
            user_dictionaries: Vec::new(),
        }
    }
}

impl DictionarySettingsFile {
    /// Whether the licence of `dictionary_id` was accepted for the text
    /// hashing to `expected_hash`. A record for another text reads as not
    /// accepted.
    pub fn has_accepted(&self, dictionary_id: &str, expected_hash: &str) -> (b: bool)
        ensures
            b == accepted_in(licenses_view(self.accepted@), dictionary_id@, expected_hash@),
    {
        let ghost ls = licenses_view(self.accepted@);
        let mut i: usize = 0;
        while i < self.accepted.len()
            invariant
                0 <= i <= self.accepted@.len(),
                ls == licenses_view(self.accepted@),
                forall|k: int| 0 <= k < i ==> !((#[trigger] ls[k]).0 == dictionary_id@ && ls[k].2
                    == expected_hash@),
            decreases self.accepted@.len() - i,
        {
            let a = &self.accepted[i];
            if str_eq(a.dictionary_id.as_str(), dictionary_id) && str_eq(
                a.license_text_hash.as_str(),
                expected_hash,
            ) {
                assert(ls[i as int].0 == dictionary_id@ && ls[i as int].2 == expected_hash@);
                return true;
            }
            i = i + 1;
        }
        false
    }

    /// Record the acceptance of `dictionary_id` for the text hashing to
    /// `hash`, at `accepted_at`: any earlier record of that dictionary goes,
    /// and the new one is last.
    pub fn accept(&mut self, dictionary_id: &str, hash: &str, accepted_at: &str)
        ensures
            licenses_view(final(self).accepted@) == licenses_view(old(self).accepted@).filter(
                not_for_dictionary(dictionary_id@),
            ).push((dictionary_id@, accepted_at@, hash@)),
            final(self).version == old(self).version,
            final(self).user_dictionaries@ == old(self).user_dictionaries@,
    {
        let mut kept = licenses_except(&self.accepted, dictionary_id);
        let ghost k0 = kept@;
        kept.push(
            AcceptedLicense {
                dictionary_id: dictionary_id.to_string(),
                accepted_at: accepted_at.to_string(),
                license_text_hash: hash.to_string(),
            },
        );
        assert(licenses_view(kept@) == licenses_view(k0).push(license_view(kept@.last())));
        self.accepted = kept;
    }

    /// The hand-added dictionaries, in the order they were recorded.
    pub fn user_dictionaries(&self) -> (out: Vec<UserDictionary>)
        ensures
            user_dictionaries_view(out@) == user_dictionaries_view(self.user_dictionaries@),
    {
        let ghost whole = user_dictionaries_view(self.user_dictionaries@);
        let mut out: Vec<UserDictionary> = Vec::new();
        let mut i: usize = 0;
        while i < self.user_dictionaries.len()
            invariant
                0 <= i <= self.user_dictionaries@.len(),
                whole == user_dictionaries_view(self.user_dictionaries@),
                user_dictionaries_view(out@) == whole.take(i as int),
            decreases self.user_dictionaries@.len() - i,
        {
            let ghost o0 = out@;
            out.push(copy_user_dictionary(&self.user_dictionaries[i]));
            assert(user_dictionaries_view(out@) == user_dictionaries_view(o0).push(whole[i as int]));
            assert(whole.take(i as int + 1) == whole.take(i as int).push(whole[i as int]));
            i = i + 1;
        }
        assert(whole.take(whole.len() as int) == whole);
        out
    }

    /// Record a dictionary added by hand: any earlier record of `code` goes,
    /// and the new one is last.
    pub fn add_user_dictionary(&mut self, code: &str, name: &str)
        ensures
            user_dictionaries_view(final(self).user_dictionaries@) == user_dictionaries_view(
                old(self).user_dictionaries@,
            ).filter(not_for_code(code@)).push((code@, name@)),
            final(self).version == old(self).version,
            final(self).accepted@ == old(self).accepted@,
    {
        let mut kept = user_dictionaries_except(&self.user_dictionaries, code);
        let ghost k0 = kept@;
        kept.push(UserDictionary { code: code.to_string(), name: name.to_string() });
        assert(user_dictionaries_view(kept@) == user_dictionaries_view(k0).push(
            user_dictionary_view(kept@.last()),
        ));
        self.user_dictionaries = kept;
    }

    /// Drop the record of `code`; nothing changes when there is none.
    pub fn remove_user_dictionary(&mut self, code: &str)
        ensures
            user_dictionaries_view(final(self).user_dictionaries@) == user_dictionaries_view(
                old(self).user_dictionaries@,
            ).filter(not_for_code(code@)),
            final(self).version == old(self).version,
            final(self).accepted@ == old(self).accepted@,
    {
        self.user_dictionaries = user_dictionaries_except(&self.user_dictionaries, code);
    }
}


/// Accepting a licence replaces rather than duplicates: afterwards the
/// dictionary has exactly one record, it reads as accepted for the new text
/// and as not accepted for any other, and every other dictionary reads as it
/// did before.
pub proof fn law_accept_replaces(
    ls: Seq<(Seq<char>, Seq<char>, Seq<char>)>,
    id: Seq<char>,
    at: Seq<char>,
    hash: Seq<char>,
)
    ensures
        ({
            let after = ls.filter(not_for_dictionary(id)).push((id, at, hash));
            &&& accepted_in(after, id, hash)
            &&& forall|h: Seq<char>| h != hash ==> !accepted_in(after, id, h)
            &&& forall|i: int| 0 <= i < after.len() && (#[trigger] after[i]).0 == id ==> i == after.len() - 1
            &&& forall|other: Seq<char>, h: Seq<char>| other != id ==> (accepted_in(after, other, h)
                <==> accepted_in(ls, other, h))
        }),
{
    let kept = ls.filter(not_for_dictionary(id));
    let after = kept.push((id, at, hash));
    assert(after[after.len() - 1] == (id, at, hash));
    assert forall|i: int| 0 <= i < kept.len() implies (#[trigger] kept[i]).0 != id by {
        ls.lemma_filter_pred(not_for_dictionary(id), i);
    }
    assert forall|i: int| 0 <= i < after.len() && (#[trigger] after[i]).0 == id implies i == after.len() - 1 by {
        if i < kept.len() {
            assert(after[i] == kept[i]);
        }
    }
    assert forall|h: Seq<char>| h != hash implies !accepted_in(after, id, h) by {
        if accepted_in(after, id, h) {
            let i = choose|i: int| 0 <= i < after.len() && (#[trigger] after[i]).0 == id && after[i].2 == h;
            if i < kept.len() {
                assert(after[i] == kept[i]);
            }
        }
    }
    assert forall|other: Seq<char>, h: Seq<char>| other != id implies (accepted_in(after, other, h)
        <==> accepted_in(ls, other, h)) by {
        if accepted_in(after, other, h) {
            let i = choose|i: int| 0 <= i < after.len() && (#[trigger] after[i]).0 == other && after[i].2 == h;
            assert(i < kept.len());
            assert(after[i] == kept[i]);
            assert(kept.contains(kept[i]));
            ls.lemma_filter_contains_rev(not_for_dictionary(id), kept[i]);
            let j = choose|j: int| 0 <= j < ls.len() && ls[j] == kept[i];
            assert(ls[j].0 == other && ls[j].2 == h);
        }
        if accepted_in(ls, other, h) {
            let j = choose|j: int| 0 <= j < ls.len() && (#[trigger] ls[j]).0 == other && ls[j].2 == h;
            ls.lemma_filter_contains(not_for_dictionary(id), j);
            let i = choose|i: int| 0 <= i < kept.len() && kept[i] == ls[j];
            assert(after[i] == kept[i]);
        }
    }
}

/// Re-adding a dictionary by hand replaces rather than duplicates: afterwards
/// its code has exactly one record, the last, under the new name, and the
/// other records are the old ones, in their order.
pub proof fn law_add_user_dictionary_replaces(
    ds: Seq<(Seq<char>, Seq<char>)>,
    code: Seq<char>,
    name: Seq<char>,
)
    ensures
        ({
            let after = ds.filter(not_for_code(code)).push((code, name));
            &&& after.last() == (code, name)
            &&& forall|i: int| 0 <= i < after.len() && (#[trigger] after[i]).0 == code ==> i == after.len() - 1
            &&& after.drop_last() == ds.filter(not_for_code(code))
        }),
{
    let kept = ds.filter(not_for_code(code));
    let after = kept.push((code, name));
    assert forall|i: int| 0 <= i < after.len() && (#[trigger] after[i]).0 == code implies i == after.len() - 1 by {
        if i < kept.len() {
            assert(after[i] == kept[i]);
            ds.lemma_filter_pred(not_for_code(code), i);
        }
    }
    assert(after.drop_last() == kept);
}

} // verus!
