//! Per-project memory of the note-capture surfaces: which book the writer last
//! read a note's declared prose in, and which tags and folder they last filed
//! captured notes under. Each file remembers its newest projects only, and a
//! project is touched to the newest end whenever it is written.

use vstd::prelude::*;
use crate::text::{has_non_space, str_eq, chars_of, string_from_chars};
use crate::exchange::{uid_is_usable, keep_newest, MAX_PROJECTS};

verus! {

/// The current version of both files.
pub const NOTE_FILES_CURRENT_VERSION: u32 = 1;

/// The version a note-choice or capture file without one is read as: the
/// current one.
pub fn default_version() -> (v: u32)
    ensures
        v == NOTE_FILES_CURRENT_VERSION,
{
    NOTE_FILES_CURRENT_VERSION
}

/// How many recently used tags the capture menu shows.
pub const MAX_RECENT_TAGS: usize = 5;

/// The book a project's note readings last used.
#[derive(Debug, Default, PartialEq)]
pub struct PerProjectNoteBookChoice {
    pub work_uid: String,
    pub last_path: String,
    pub book_uid: u128,
}

/// The book-choice file.
#[derive(Debug, PartialEq)]
pub struct NoteBookChoiceFile {
    pub version: u32,
    pub projects: Vec<PerProjectNoteBookChoice>,
}

/// A remembered choice as a value.
pub open spec fn choice_view(p: PerProjectNoteBookChoice) -> (Seq<char>, Seq<char>, u128) {
    (p.work_uid@, p.last_path@, p.book_uid)
}

/// The remembered choices as values.
pub open spec fn choices_view(ps: Seq<PerProjectNoteBookChoice>) -> Seq<(Seq<char>, Seq<char>, u128)> {
    ps.map_values(|p: PerProjectNoteBookChoice| choice_view(p))
}

/// The first position of an entry keyed by `uid`, or -1.
pub open spec fn key_pos<A, B>(ps: Seq<(Seq<char>, A, B)>, uid: Seq<char>) -> int
    decreases ps.len(),
{
    if ps.len() == 0 {
        -1
    } else if ps[0].0 == uid {
        0
    } else {
        let r = key_pos(ps.drop_first(), uid);
        if r < 0 {
            -1
        } else {
            r + 1
        }
    }
}

proof fn lemma_key_pos<A, B>(ps: Seq<(Seq<char>, A, B)>, uid: Seq<char>, j: int)
    requires
        0 <= j <= ps.len(),
        forall|k: int| 0 <= k < j ==> (#[trigger] ps[k]).0 != uid,
    ensures
        j < ps.len() && ps[j].0 == uid ==> key_pos(ps, uid) == j,
        j == ps.len() ==> key_pos(ps, uid) == -1,
    decreases j,
{
    if j > 0 {
        assert forall|k: int| 0 <= k < j - 1 implies (#[trigger] ps.drop_first()[k]).0 != uid by {
            assert(ps.drop_first()[k] == ps[k + 1]);
        }
        lemma_key_pos(ps.drop_first(), uid, j - 1);
    }
}

/// `ps` with the entry keyed by `row.0` replaced by `row` and moved to the
/// newest end (or `row` added there), keeping the newest projects.
pub open spec fn touched<A, B>(ps: Seq<(Seq<char>, A, B)>, row: (Seq<char>, A, B)) -> Seq<
    (Seq<char>, A, B),
> {
    let k = key_pos(ps, row.0);
    let moved = if k >= 0 {
        ps.remove(k).push(row)
    } else {
        ps.push(row)
    };
    keep_newest(moved, MAX_PROJECTS as nat)
}

fn copy_str(s: &str) -> (t: String)
    ensures
        t@ == s@,
{
    string_from_chars(chars_of(s).as_slice())
}

impl Default for NoteBookChoiceFile {
    fn default() -> (f: NoteBookChoiceFile)
        ensures
            f.version == NOTE_FILES_CURRENT_VERSION,
            f.projects@.len() == 0,
    {
        NoteBookChoiceFile { version: NOTE_FILES_CURRENT_VERSION, projects: Vec::new() }
    }
}

impl NoteBookChoiceFile {
    /// Where the project keyed by `work_uid` sits.
    fn find(&self, work_uid: &str) -> (r: Option<usize>)
        ensures
            match r {
                Some(k) => k < self.projects@.len() && k as int == key_pos(
                    choices_view(self.projects@),
                    work_uid@,
                ),
                None => key_pos(choices_view(self.projects@), work_uid@) == -1,
            },
    {
        let ghost pv = choices_view(self.projects@);
        let mut i: usize = 0;
        while i < self.projects.len()
            invariant
                0 <= i <= self.projects@.len(),
                pv == choices_view(self.projects@),
                forall|k: int| 0 <= k < i ==> (#[trigger] pv[k]).0 != work_uid@,
            decreases self.projects@.len() - i,
        {
            if str_eq(self.projects[i].work_uid.as_str(), work_uid) {
                proof {
                    lemma_key_pos(pv, work_uid@, i as int);
                }
                return Some(i);
            }
            i = i + 1;
        }
        proof {
            lemma_key_pos(pv, work_uid@, i as int);
        }
        None
    }

    /// The book last chosen for `work_uid`; none for an unusable uid or a
    /// project with no choice.
    pub fn book(&self, work_uid: &str) -> (b: Option<u128>)
        ensures
            b == (if has_non_space(work_uid@) && key_pos(choices_view(self.projects@), work_uid@)
                >= 0 {
                Some(choices_view(self.projects@)[key_pos(choices_view(self.projects@), work_uid@)].2)
            } else {
                None
            }),
    {
        if !uid_is_usable(work_uid) {
            return None;
        }
        match self.find(work_uid) {
            Some(k) => Some(self.projects[k].book_uid),
            None => None,
        }
    }

    /// Remember `book_uid` (and the file it was read from) for `work_uid`,
    /// moving the project to the newest end. Nothing is written for an
    /// unusable uid.
    pub fn set_book(&mut self, work_uid: &str, last_path: &str, book_uid: u128)
        ensures
            !has_non_space(work_uid@) ==> *final(self) == *old(self),
            has_non_space(work_uid@) ==> {
                &&& final(self).version == NOTE_FILES_CURRENT_VERSION
                &&& choices_view(final(self).projects@) == touched(
                    choices_view(old(self).projects@),
                    (work_uid@, last_path@, book_uid),
                )
            },
    {
        if !uid_is_usable(work_uid) {
            return;
        }
        self.version = NOTE_FILES_CURRENT_VERSION;
        let ghost before = self.projects@;
        let row = PerProjectNoteBookChoice {
            work_uid: copy_str(work_uid),
            last_path: copy_str(last_path),
            book_uid,
        };
        match self.find(work_uid) {
            Some(pos) => {
                self.projects.remove(pos);
                self.projects.push(row);
                assert(choices_view(self.projects@) == choices_view(before).remove(pos as int).push(
                    (work_uid@, last_path@, book_uid),
                ));
            },
            None => {
                self.projects.push(row);
                assert(choices_view(self.projects@) == choices_view(before).push(
                    (work_uid@, last_path@, book_uid),
                ));
            },
        }
        let len = self.projects.len();
        if len > MAX_PROJECTS {
            let ghost v = self.projects@;
            let kept = self.projects.split_off(len - MAX_PROJECTS);
            self.projects = kept;
            assert(choices_view(self.projects@) == choices_view(v).skip(len - MAX_PROJECTS));
        }
    }
}


/// One project's capture memory: the tags its notes were last filed under,
/// newest first, and the folder that takes a note filed under no tag.
#[derive(Debug, Default, PartialEq)]
pub struct PerProjectNoteCapture {
    pub work_uid: String,
    pub last_path: String,
    pub recent_tags: Vec<u128>,
    pub untagged_folder: Option<u128>,
}

/// The capture-memory file.
#[derive(Debug, PartialEq)]
pub struct NoteCaptureFile {
    pub version: u32,
    pub projects: Vec<PerProjectNoteCapture>,
}

/// What a project remembers of its captures.
pub type CaptureMemory = (Seq<u128>, Option<u128>);

/// A project's capture memory as a value.
pub open spec fn capture_view(p: PerProjectNoteCapture) -> (Seq<char>, Seq<char>, CaptureMemory) {
    (p.work_uid@, p.last_path@, (p.recent_tags@, p.untagged_folder))
}

/// The projects' capture memories as values.
pub open spec fn captures_view(ps: Seq<PerProjectNoteCapture>) -> Seq<
    (Seq<char>, Seq<char>, CaptureMemory),
> {
    ps.map_values(|p: PerProjectNoteCapture| capture_view(p))
}

/// What the project keyed by `uid` remembers: its row's memory, or nothing.
pub open spec fn memory_of(ps: Seq<(Seq<char>, Seq<char>, CaptureMemory)>, uid: Seq<char>) -> CaptureMemory {
    let k = key_pos(ps, uid);
    if k >= 0 {
        ps[k].2
    } else {
        (Seq::empty(), None)
    }
}

/// Every tag but `tag`.
pub open spec fn other_than(tag: u128) -> spec_fn(u128) -> bool {
    |u: u128| u != tag
}

/// How long the remembered tag list may grow: twice what the menu shows.
pub open spec fn recent_tags_kept() -> nat {
    (MAX_RECENT_TAGS * 2) as nat
}

/// `tags` after a capture under `tag`: `tag` first, then the others in their
/// order, cut to the kept length.
pub open spec fn bumped(tags: Seq<u128>, tag: u128) -> Seq<u128> {
    let moved = seq![tag] + tags.filter(other_than(tag));
    if moved.len() > recent_tags_kept() {
        moved.take(recent_tags_kept() as int)
    } else {
        moved
    }
}

/// `tags` without `tag`.
fn without_tag(tags: &Vec<u128>, tag: u128) -> (out: Vec<u128>)
    ensures
        out@ == tags@.filter(other_than(tag)),
{
    let mut out: Vec<u128> = Vec::new();
    let mut i: usize = 0;
    while i < tags.len()
        invariant
            0 <= i <= tags@.len(),
            out@ == tags@.take(i as int).filter(other_than(tag)),
        decreases tags@.len() - i,
    {
        proof {
            reveal(Seq::filter);
            assert(tags@.take(i as int + 1).drop_last() == tags@.take(i as int));
            assert(tags@.take(i as int + 1).last() == tags@[i as int]);
        }
        if tags[i] != tag {
            out.push(tags[i]);
        }
        i = i + 1;
    }
    assert(tags@.take(tags@.len() as int) == tags@);
    out
}

fn copy_tags(tags: &Vec<u128>) -> (out: Vec<u128>)
    ensures
        out@ == tags@,
{
    let mut out: Vec<u128> = Vec::new();
    let mut i: usize = 0;
    while i < tags.len()
        invariant
            0 <= i <= tags@.len(),
            out@ == tags@.take(i as int),
        decreases tags@.len() - i,
    {
        out.push(tags[i]);
        i = i + 1;
    }
    assert(tags@.take(tags@.len() as int) == tags@);
    out
}

impl Default for NoteCaptureFile {
    fn default() -> (f: NoteCaptureFile)
        ensures
            f.version == NOTE_FILES_CURRENT_VERSION,
            f.projects@.len() == 0,
    {
        NoteCaptureFile { version: NOTE_FILES_CURRENT_VERSION, projects: Vec::new() }
    }
}

impl NoteCaptureFile {
    /// Where the project keyed by `work_uid` sits.
    fn find(&self, work_uid: &str) -> (r: Option<usize>)
        ensures
            match r {
                Some(k) => k < self.projects@.len() && k as int == key_pos(
                    captures_view(self.projects@),
                    work_uid@,
                ) && self.projects@[k as int].work_uid@ == work_uid@,
                None => key_pos(captures_view(self.projects@), work_uid@) == -1,
            },
    {
        let ghost pv = captures_view(self.projects@);
        let mut i: usize = 0;
        while i < self.projects.len()
            invariant
                0 <= i <= self.projects@.len(),
                pv == captures_view(self.projects@),
                forall|k: int| 0 <= k < i ==> (#[trigger] pv[k]).0 != work_uid@,
            decreases self.projects@.len() - i,
        {
            if str_eq(self.projects[i].work_uid.as_str(), work_uid) {
                proof {
                    lemma_key_pos(pv, work_uid@, i as int);
                }
                return Some(i);
            }
            i = i + 1;
        }
        proof {
            lemma_key_pos(pv, work_uid@, i as int);
        }
        None
    }

    /// The tags most recently filed under for `work_uid`, newest first; none
    /// for an unusable uid or a project with no history.
    pub fn recent_tags(&self, work_uid: &str) -> (r: Vec<u128>)
        ensures
            r@ == (if has_non_space(work_uid@) {
                memory_of(captures_view(self.projects@), work_uid@).0
            } else {
                Seq::empty()
            }),
    {
        if !uid_is_usable(work_uid) {
            return Vec::new();
        }
        match self.find(work_uid) {
            Some(k) => copy_tags(&self.projects[k].recent_tags),
            None => Vec::new(),
        }
    }

    /// The folder an untagged note of `work_uid` lands in, if the writer said.
    pub fn untagged_folder(&self, work_uid: &str) -> (r: Option<u128>)
        ensures
            r == (if has_non_space(work_uid@) {
                memory_of(captures_view(self.projects@), work_uid@).1
            } else {
                None
            }),
    {
        if !uid_is_usable(work_uid) {
            return None;
        }
        match self.find(work_uid) {
            Some(k) => self.projects[k].untagged_folder,
            None => None,
        }
    }

    /// Take the row of `work_uid` out of the file (a fresh one if there is
    /// none), its path set to `last_path`.
    fn take_row(&mut self, work_uid: &str, last_path: &str) -> (row: PerProjectNoteCapture)
        ensures
            capture_view(row) == (work_uid@, last_path@, memory_of(
                captures_view(old(self).projects@),
                work_uid@,
            )),
            ({
                let k = key_pos(captures_view(old(self).projects@), work_uid@);
                captures_view(final(self).projects@) == if k >= 0 {
                    captures_view(old(self).projects@).remove(k)
                } else {
                    captures_view(old(self).projects@)
                }
            }),
            final(self).version == old(self).version,
    {
        let ghost before = self.projects@;
        match self.find(work_uid) {
            Some(pos) => {
                let mut row = self.projects.remove(pos);
                assert(captures_view(before)[pos as int] == capture_view(row));
                row.last_path = copy_str(last_path);
                assert(captures_view(self.projects@) == captures_view(before).remove(pos as int));
                row
            },
            None => {
                PerProjectNoteCapture {
                    work_uid: copy_str(work_uid),
                    last_path: copy_str(last_path),
                    recent_tags: Vec::new(),
                    untagged_folder: None,
                }
            },
        }
    }

    /// Put `row` back at the newest end and keep the newest projects.
    fn put_newest(&mut self, row: PerProjectNoteCapture)
        ensures
            captures_view(final(self).projects@) == keep_newest(
                captures_view(old(self).projects@).push(capture_view(row)),
                MAX_PROJECTS as nat,
            ),
            final(self).version == old(self).version,
    {
        let ghost before = self.projects@;
        self.projects.push(row);
        assert(captures_view(self.projects@) == captures_view(before).push(capture_view(row)));
        let len = self.projects.len();
        if len > MAX_PROJECTS {
            let ghost v = self.projects@;
            let kept = self.projects.split_off(len - MAX_PROJECTS);
            self.projects = kept;
            assert(captures_view(self.projects@) == captures_view(v).skip(len - MAX_PROJECTS));
        }
    }

    /// Record a capture of `work_uid` under `tag_uid`: the tag moves to the
    /// front of the project's list, which keeps no duplicate and at most
    /// twice what the menu shows. Nothing is written for an unusable uid or
    /// the nil tag.
    pub fn note_tag_used(&mut self, work_uid: &str, last_path: &str, tag_uid: u128)
        ensures
            !has_non_space(work_uid@) || tag_uid == 0 ==> *final(self) == *old(self),
            has_non_space(work_uid@) && tag_uid != 0 ==> {
                let mem = memory_of(captures_view(old(self).projects@), work_uid@);
                &&& final(self).version == NOTE_FILES_CURRENT_VERSION
                &&& captures_view(final(self).projects@) == touched(
                    captures_view(old(self).projects@),
                    (work_uid@, last_path@, (bumped(mem.0, tag_uid), mem.1)),
                )
            },
    {
        if !uid_is_usable(work_uid) || tag_uid == 0 {
            return;
        }
        self.version = NOTE_FILES_CURRENT_VERSION;
        let ghost pv = captures_view(self.projects@);
        let mut row = self.take_row(work_uid, last_path);
        let rest = without_tag(&row.recent_tags, tag_uid);
        let mut tags: Vec<u128> = Vec::new();
        tags.push(tag_uid);
        let mut i: usize = 0;
        while i < rest.len() && tags.len() < MAX_RECENT_TAGS * 2
            invariant
                0 <= i <= rest@.len(),
                tags@.len() == i + 1,
                i + 1 <= MAX_RECENT_TAGS * 2,
                tags@ == (seq![tag_uid] + rest@).take(i as int + 1),
            decreases rest@.len() - i,
        {
            tags.push(rest[i]);
            i = i + 1;
            assert(tags@ == (seq![tag_uid] + rest@).take(i as int + 1));
        }
        proof {
            let moved = seq![tag_uid] + rest@;
            assert(moved.take(moved.len() as int) == moved);
        }
        assert(tags@ == bumped(row.recent_tags@, tag_uid));
        row.recent_tags = tags;
        self.put_newest(row);
    }

    /// Remember `folder_uid` as where `work_uid`'s untagged notes go. Nothing
    /// is written for an unusable uid.
    pub fn set_untagged_folder(&mut self, work_uid: &str, last_path: &str, folder_uid: u128)
        ensures
            !has_non_space(work_uid@) ==> *final(self) == *old(self),
            has_non_space(work_uid@) ==> {
                let mem = memory_of(captures_view(old(self).projects@), work_uid@);
                &&& final(self).version == NOTE_FILES_CURRENT_VERSION
                &&& captures_view(final(self).projects@) == touched(
                    captures_view(old(self).projects@),
                    (work_uid@, last_path@, (mem.0, Some(folder_uid))),
                )
            },
    {
        if !uid_is_usable(work_uid) {
            return;
        }
        self.version = NOTE_FILES_CURRENT_VERSION;
        let mut row = self.take_row(work_uid, last_path);
        row.untagged_folder = Some(folder_uid);
        self.put_newest(row);
    }
}


proof fn lemma_filter_keeps_distinct(tags: Seq<u128>, pred: spec_fn(u128) -> bool)
    requires
        tags.no_duplicates(),
    ensures
        tags.filter(pred).no_duplicates(),
    decreases tags.len(),
{
    reveal(Seq::filter);
    if tags.len() > 0 {
        let rest = tags.drop_last();
        assert(rest.no_duplicates()) by {
            assert forall|i: int, j: int| 0 <= i < rest.len() && 0 <= j < rest.len() && i != j
                implies rest[i] != rest[j] by {
                assert(rest[i] == tags[i] && rest[j] == tags[j]);
            }
        }
        lemma_filter_keeps_distinct(rest, pred);
        let sub = rest.filter(pred);
        if pred(tags.last()) {
            if sub.contains(tags.last()) {
                rest.lemma_filter_contains_rev(pred, tags.last());
                let k = choose|k: int| 0 <= k < rest.len() && rest[k] == tags.last();
                assert(tags[k] == tags[tags.len() - 1]);
            }
            assert forall|i: int, j: int| 0 <= i < sub.len() + 1 && 0 <= j < sub.len() + 1 && i != j
                implies sub.push(tags.last())[i] != sub.push(tags.last())[j] by {
                if i == sub.len() {
                    assert(sub.contains(sub[j]));
                } else if j == sub.len() {
                    assert(sub.contains(sub[i]));
                }
            }
        }
    }
}

/// A capture under `tag` puts `tag` first and nowhere else, leaves a list that
/// held no tag twice still holding none twice, and never grows the list past
/// twice what the menu shows: re-using a tag moves it rather than repeating it.
pub proof fn law_capture_moves_tag_to_front(tags: Seq<u128>, tag: u128)
    requires
        tags.no_duplicates(),
    ensures
        bumped(tags, tag).len() >= 1,
        bumped(tags, tag)[0] == tag,
        forall|i: int| 1 <= i < bumped(tags, tag).len() ==> #[trigger] bumped(tags, tag)[i] != tag,
        bumped(tags, tag).no_duplicates(),
        bumped(tags, tag).len() <= recent_tags_kept(),
{
    let rest = tags.filter(other_than(tag));
    lemma_filter_keeps_distinct(tags, other_than(tag));
    let moved = seq![tag] + rest;
    assert(moved.len() == rest.len() + 1);
    assert forall|i: int| 1 <= i < moved.len() implies #[trigger] moved[i] != tag by {
        assert(moved[i] == rest[i - 1]);
        tags.lemma_filter_pred(other_than(tag), i - 1);
    }
    assert(moved.no_duplicates()) by {
        assert forall|i: int, j: int| 0 <= i < moved.len() && 0 <= j < moved.len() && i != j
            implies moved[i] != moved[j] by {
            if i > 0 && j > 0 {
                assert(moved[i] == rest[i - 1] && moved[j] == rest[j - 1]);
            }
        }
    }
}


/// Whether no two entries share a project key.
pub open spec fn keys_distinct<A, B>(ps: Seq<(Seq<char>, A, B)>) -> bool {
    forall|i: int, j: int| 0 <= i < ps.len() && 0 <= j < ps.len() && i != j ==> (#[trigger] ps[i]).0 != (#[trigger] ps[j]).0
}

proof fn lemma_key_pos_facts<A, B>(ps: Seq<(Seq<char>, A, B)>, uid: Seq<char>)
    ensures
        -1 <= key_pos(ps, uid) < ps.len(),
        key_pos(ps, uid) >= 0 ==> ps[key_pos(ps, uid)].0 == uid,
        key_pos(ps, uid) < 0 ==> forall|k: int| 0 <= k < ps.len() ==> (#[trigger] ps[k]).0 != uid,
    decreases ps.len(),
{
    if ps.len() > 0 && ps[0].0 != uid {
        let t = ps.drop_first();
        lemma_key_pos_facts(t, uid);
        if key_pos(ps, uid) < 0 {
            assert forall|k: int| 0 <= k < ps.len() implies (#[trigger] ps[k]).0 != uid by {
                if k > 0 {
                    assert(ps[k] == t[k - 1]);
                }
            }
        } else {
            assert(ps[key_pos(ps, uid)] == t[key_pos(t, uid)]);
        }
    }
}

/// The projects before a touch, with the touched one taken out.
pub open spec fn without_key<A, B>(ps: Seq<(Seq<char>, A, B)>, uid: Seq<char>) -> Seq<(Seq<char>, A, B)> {
    let k = key_pos(ps, uid);
    if k >= 0 {
        ps.remove(k)
    } else {
        ps
    }
}

proof fn lemma_without_key<A, B>(ps: Seq<(Seq<char>, A, B)>, uid: Seq<char>)
    requires
        keys_distinct(ps),
    ensures
        keys_distinct(without_key(ps, uid)),
        forall|k: int| 0 <= k < without_key(ps, uid).len() ==> (#[trigger] without_key(ps, uid)[k]).0 != uid,
        forall|x: (Seq<char>, A, B)| x.0 != uid ==> (#[trigger] without_key(ps, uid).contains(x) <==> ps.contains(x)),
        without_key(ps, uid).len() <= ps.len(),
{
    lemma_key_pos_facts(ps, uid);
    let k = key_pos(ps, uid);
    let w = without_key(ps, uid);
    if k >= 0 {
        assert forall|i: int| 0 <= i < w.len() implies w[i] == ps[if i < k { i } else { i + 1 }] by {}
        assert forall|i: int, j: int| 0 <= i < w.len() && 0 <= j < w.len() && i != j implies (#[trigger] w[i]).0
            != (#[trigger] w[j]).0 by {
            let ii = if i < k { i } else { i + 1 };
            let jj = if j < k { j } else { j + 1 };
            assert(w[i] == ps[ii] && w[j] == ps[jj]);
        }
        assert forall|i: int| 0 <= i < w.len() implies (#[trigger] w[i]).0 != uid by {
            let ii = if i < k { i } else { i + 1 };
            assert(w[i] == ps[ii]);
        }
        assert forall|x: (Seq<char>, A, B)| x.0 != uid implies (#[trigger] w.contains(x) <==> ps.contains(x)) by {
            if w.contains(x) {
                let i = choose|i: int| 0 <= i < w.len() && w[i] == x;
                let ii = if i < k { i } else { i + 1 };
                assert(ps[ii] == x);
            }
            if ps.contains(x) {
                let j = choose|j: int| 0 <= j < ps.len() && ps[j] == x;
                assert(j != k);
                let jj = if j < k { j } else { j - 1 };
                assert(w[jj] == x);
            }
        }
    }
}

proof fn lemma_touched_shape<A, B>(ps: Seq<(Seq<char>, A, B)>, row: (Seq<char>, A, B))
    requires
        keys_distinct(ps),
    ensures
        touched(ps, row).len() > 0,
        touched(ps, row).last() == row,
        keys_distinct(touched(ps, row)),
        ps.len() < MAX_PROJECTS ==> touched(ps, row) == without_key(ps, row.0).push(row),
        forall|j: int| 0 <= j < touched(ps, row).len() - 1 ==> without_key(ps, row.0).contains(#[trigger] touched(ps, row)[j]),
{
    lemma_without_key(ps, row.0);
    let w = without_key(ps, row.0);
    let moved = w.push(row);
    assert(touched(ps, row) == keep_newest(moved, MAX_PROJECTS as nat));
    assert(keys_distinct(moved)) by {
        assert forall|i: int, j: int| 0 <= i < moved.len() && 0 <= j < moved.len() && i != j implies (#[trigger] moved[i]).0
            != (#[trigger] moved[j]).0 by {
            if i < w.len() && j < w.len() {
                assert(moved[i] == w[i] && moved[j] == w[j]);
            } else if i < w.len() {
                assert(moved[i] == w[i]);
            } else {
                assert(moved[j] == w[j]);
            }
        }
    }
    let t = touched(ps, row);
    let d = moved.len() - t.len();
    assert(forall|j: int| 0 <= j < t.len() ==> t[j] == moved[j + d]);
    assert forall|i: int, j: int| 0 <= i < t.len() && 0 <= j < t.len() && i != j implies (#[trigger] t[i]).0
        != (#[trigger] t[j]).0 by {
        assert(t[i] == moved[i + d] && t[j] == moved[j + d]);
    }
    assert forall|j: int| 0 <= j < t.len() - 1 implies w.contains(#[trigger] t[j]) by {
        assert(t[j] == moved[j + d]);
        assert(moved[j + d] == w[j + d]);
    }
}

/// The latest write wins: after a project is touched with a new row, looking
/// its key up finds that row, and no two projects share a key if none did.
pub proof fn law_touch_then_lookup<A, B>(ps: Seq<(Seq<char>, A, B)>, row: (Seq<char>, A, B))
    requires
        keys_distinct(ps),
    ensures
        keys_distinct(touched(ps, row)),
        key_pos(touched(ps, row), row.0) == touched(ps, row).len() - 1,
        touched(ps, row)[key_pos(touched(ps, row), row.0)] == row,
{
    lemma_touched_shape(ps, row);
    let t = touched(ps, row);
    lemma_without_key(ps, row.0);
    assert forall|k: int| 0 <= k < t.len() - 1 implies (#[trigger] t[k]).0 != row.0 by {
        let w = without_key(ps, row.0);
        assert(w.contains(t[k]));
        let i = choose|i: int| 0 <= i < w.len() && w[i] == t[k];
    }
    lemma_key_pos(t, row.0, t.len() - 1);
}

/// Projects do not share their memory: touching one project leaves what any
/// other project reads back as it was, while the file holds fewer projects
/// than it keeps.
pub proof fn law_touch_leaves_other_projects<A, B>(
    ps: Seq<(Seq<char>, A, B)>,
    row: (Seq<char>, A, B),
    other: Seq<char>,
)
    requires
        keys_distinct(ps),
        other != row.0,
        ps.len() < MAX_PROJECTS,
    ensures
        (key_pos(touched(ps, row), other) >= 0) == (key_pos(ps, other) >= 0),
        key_pos(ps, other) >= 0 ==> touched(ps, row)[key_pos(touched(ps, row), other)] == ps[key_pos(ps, other)],
{
    lemma_touched_shape(ps, row);
    lemma_without_key(ps, row.0);
    lemma_key_pos_facts(ps, other);
    let t = touched(ps, row);
    let w = without_key(ps, row.0);
    lemma_key_pos_facts(t, other);
    let a = key_pos(ps, other);
    let b = key_pos(t, other);
    if a >= 0 {
        assert(ps.contains(ps[a]));
        assert(w.contains(ps[a]));
        let i = choose|i: int| 0 <= i < w.len() && w[i] == ps[a];
        assert(t[i] == ps[a]);
        assert forall|k: int| 0 <= k < i implies (#[trigger] t[k]).0 != other by {
            assert(t[k] == w[k]);
            assert(w.contains(w[k]));
            if w[k].0 == other {
                assert(ps.contains(w[k]));
                let j = choose|j: int| 0 <= j < ps.len() && ps[j] == w[k];
                assert(j == a);
            }
        }
        lemma_key_pos(t, other, i);
    } else if b >= 0 {
        assert(t[b].0 == other);
        assert(b < t.len() - 1);
        assert(w.contains(t[b]));
        assert(ps.contains(t[b]));
    }
}

} // verus!
