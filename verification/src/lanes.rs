//! What the margin lane marks, decided once for every surface: the live search
//! query (the last search to publish wins, and only its own search may
//! withdraw it), the story-bible subject of an open reading (withdrawn only by
//! the reading that published it), and the few pure pieces the lane's
//! providers read.

use vstd::prelude::*;
use crate::text::str_eq;
use crate::mention_index::DiscoverableEntity;
use crate::mentions::copy_strings;
use crate::lane_ids::{mark_id, mark_id_spec};

verus! {

/// Which search published the live query.
#[derive(Debug, Clone, Copy, PartialEq, Eq, Structural)]
pub enum LaneQuerySource {
    /// One editor's find banner, on this item.
    Editor(u64),
    /// Project search, which stands in no one document.
    Project,
}

/// The query whose hits the lane marks.
#[derive(Debug)]
pub struct LaneQuery {
    /// What the writer typed.
    pub text: String,
    pub case_sensitive: bool,
    pub whole_word: bool,
    pub diacritic_sensitive: bool,
    /// Who is asking.
    pub source: LaneQuerySource,
    /// The zero-based ordinal of the hit the writer stands on, in the
    /// document the banner is on; none for a project search.
    pub current: Option<usize>,
}

/// The matcher switches a query carries; the rest stay at the find banner's
/// own defaults, which use no regular expression.
#[derive(Debug, Clone, Copy, PartialEq, Eq, Structural)]
pub struct FindFlags {
    pub case_sensitive: bool,
    pub whole_word: bool,
    pub diacritic_sensitive: bool,
    pub use_regex: bool,
}

/// A query as a value.
pub struct QueryView {
    pub text: Seq<char>,
    pub case_sensitive: bool,
    pub whole_word: bool,
    pub diacritic_sensitive: bool,
    pub source: LaneQuerySource,
    pub current: Option<usize>,
}

impl View for LaneQuery {
    type V = QueryView;

    open spec fn view(&self) -> QueryView {
        QueryView {
            text: self.text@,
            case_sensitive: self.case_sensitive,
            whole_word: self.whole_word,
            diacritic_sensitive: self.diacritic_sensitive,
            source: self.source,
            current: self.current,
        }
    }
}

/// The live query slot as a value.
pub open spec fn slot_view(q: Option<LaneQuery>) -> Option<QueryView> {
    match q {
        Some(q) => Some(q@),
        None => None,
    }
}

impl LaneQuery {
    /// The matcher switches this query means.
    pub fn options(&self) -> (f: FindFlags)
        ensures
            f == (FindFlags {
                case_sensitive: self.case_sensitive,
                whole_word: self.whole_word,
                diacritic_sensitive: self.diacritic_sensitive,
                use_regex: false,
            }),
    {
        FindFlags {
            case_sensitive: self.case_sensitive,
            whole_word: self.whole_word,
            diacritic_sensitive: self.diacritic_sensitive,
            use_regex: false,
        }
    }

    /// The ordinal of the current hit when `item` is the document the
    /// publishing banner is on; none for any other item and for a project
    /// search.
    pub fn current_in(&self, item: u64) -> (r: Option<usize>)
        ensures
            r == (match self.source {
                LaneQuerySource::Editor(id) => if id == item {
                    self.current
                } else {
                    None
                },
                LaneQuerySource::Project => None,
            }),
    {
        match self.source {
            LaneQuerySource::Editor(id) => if id == item {
                self.current
            } else {
                None
            },
            LaneQuerySource::Project => None,
        }
    }
}

fn same_query(a: &LaneQuery, b: &LaneQuery) -> (r: bool)
    ensures
        r == (a@ == b@),
{
    str_eq(a.text.as_str(), b.text.as_str()) && a.case_sensitive == b.case_sensitive && a.whole_word
        == b.whole_word && a.diacritic_sensitive == b.diacritic_sensitive && a.source == b.source
        && a.current == b.current
}

/// Publish what the writer is looking for, `None` when a search closed: the
/// last call wins. Says whether the slot changed; republishing what is
/// already there changes nothing.
pub fn set_active_query(active: &mut Option<LaneQuery>, query: Option<LaneQuery>) -> (changed: bool)
    ensures
        slot_view(*final(active)) == slot_view(query),
        changed == (slot_view(*old(active)) != slot_view(query)),
{
    let same = match (&*active, &query) {
        (Some(a), Some(b)) => same_query(a, b),
        (None, None) => true,
        _ => false,
    };
    if same {
        false
    } else {
        *active = query;
        true
    }
}

/// The live query after the search `source` closes: gone when that search
/// published it, untouched otherwise.
pub open spec fn withdrawn(slot: Option<QueryView>, source: LaneQuerySource) -> Option<QueryView> {
    match slot {
        Some(q) => if q.source == source {
            None
        } else {
            slot
        },
        None => None,
    }
}

/// Closing one search never withdraws another's query: whatever was
/// published last stays on the lane until the search that published it
/// closes, and then the lane shows none.
pub proof fn law_only_the_publisher_withdraws_the_query(q: QueryView, closing: LaneQuerySource)
    ensures
        closing != q.source ==> withdrawn(Some(q), closing) == Some(q),
        withdrawn(Some(q), q.source) == None::<QueryView>,
        withdrawn(None, closing) == None::<QueryView>,
{
}

/// Withdraw the live query only when `source` is the search that published
/// it. Says whether the slot changed.
pub fn clear_active_query_from(active: &mut Option<LaneQuery>, source: LaneQuerySource) -> (changed: bool)
    ensures
        changed == (match *old(active) {
            Some(q) => q.source == source,
            None => false,
        }),
        slot_view(*final(active)) == withdrawn(slot_view(*old(active)), source),
{
    let withdraw = match &*active {
        Some(q) => q.source == source,
        None => false,
    };
    if withdraw {
        *active = None;
    }
    withdraw
}

/// The story-bible entry an open reading is about.
#[derive(Debug)]
pub struct LaneSubject {
    /// The entry as the matcher takes it; its id is the note itself.
    pub entity: DiscoverableEntity,
    /// The rest of the Work's discoverable names.
    pub table: Vec<DiscoverableEntity>,
    /// Which Work this belongs to.
    pub work_uid: String,
    /// The surface token of the reading that published it.
    pub publisher: u64,
}

impl LaneSubject {
    /// The note this reading is about.
    pub fn note_id(&self) -> (id: u64)
        ensures
            id == self.entity.id,
    {
        self.entity.id
    }
}

/// Withdraw the subject only when `publisher` is the reading that published
/// it. Says whether the slot changed.
pub fn clear_subject_for(active: &mut Option<LaneSubject>, publisher: u64) -> (changed: bool)
    ensures
        changed == (match *old(active) {
            Some(s) => s.publisher == publisher,
            None => false,
        }),
        *final(active) == if changed {
            None
        } else {
            *old(active)
        },
{
    let withdraw = match &*active {
        Some(s) => s.publisher == publisher,
        None => false,
    };
    if withdraw {
        *active = None;
    }
    withdraw
}

/// An entry as a value: its id, title and aliases.
pub open spec fn entry_view(e: DiscoverableEntity) -> (u64, Seq<char>, Seq<String>) {
    (e.id, e.title@, e.aliases@)
}

/// Each entry as a value.
pub open spec fn entries_of(table: Seq<DiscoverableEntity>) -> Seq<(u64, Seq<char>, Seq<String>)> {
    table.map_values(|e: DiscoverableEntity| entry_view(e))
}

/// Whether an entry is other than the one with id `id`.
pub open spec fn other_entry(id: u64) -> spec_fn((u64, Seq<char>, Seq<String>)) -> bool {
    |v: (u64, Seq<char>, Seq<String>)| v.0 != id
}

fn copy_entity(e: &DiscoverableEntity) -> (c: DiscoverableEntity)
    ensures
        entry_view(c) == entry_view(*e),
{
    DiscoverableEntity { id: e.id, title: e.title.clone(), aliases: copy_strings(&e.aliases) }
}

/// The entries a reading's scan is shown: every entry of the Work's table but
/// the subject's own, in their order, then the subject as the reading holds it.
/// The whole table goes in because overlaps between names are decided over all
/// of them.
pub fn scan_table(table: &[DiscoverableEntity], entity: &DiscoverableEntity) -> (out: Vec<DiscoverableEntity>)
    ensures
        entries_of(out@) == entries_of(table@).filter(other_entry(entity.id)).push(entry_view(*entity)),
{
    let ghost es = entries_of(table@);
    let mut out: Vec<DiscoverableEntity> = Vec::new();
    let mut i: usize = 0;
    while i < table.len()
        invariant
            0 <= i <= table@.len(),
            es == entries_of(table@),
            entries_of(out@) == es.take(i as int).filter(other_entry(entity.id)),
        decreases table@.len() - i,
    {
        proof {
            assert(es.take(i as int + 1) == es.take(i as int).push(es[i as int]));
            es.take(i as int).lemma_filter_push(es[i as int], other_entry(entity.id));
        }
        if table[i].id != entity.id {
            let ghost o0 = entries_of(out@);
            out.push(copy_entity(&table[i]));
            assert(entries_of(out@) =~= o0.push(es[i as int]));
        }
        i = i + 1;
    }
    assert(es.take(table@.len() as int) == es);
    let ghost o1 = entries_of(out@);
    out.push(copy_entity(entity));
    assert(entries_of(out@) =~= o1.push(entry_view(*entity)));
    out
}

/// The spans, as `(start, end)` character offsets in the order found, of the
/// scan's hits that name `id`; `found` holds each hit as `(entry id, start,
/// length)`.
pub fn own_spans(found: &[(u64, usize, usize)], id: u64) -> (spans: Vec<(usize, usize)>)
    requires
        forall|k: int| 0 <= k < found@.len() ==> (#[trigger] found@[k]).1 + found@[k].2 <= usize::MAX,
    ensures
        spans@ == found@.filter(|h: (u64, usize, usize)| h.0 == id).map_values(
            |h: (u64, usize, usize)| (h.1, (h.1 + h.2) as usize),
        ),
{
    let ghost mine = found@.filter(|h: (u64, usize, usize)| h.0 == id);
    let mut spans: Vec<(usize, usize)> = Vec::new();
    let mut i: usize = 0;
    while i < found.len()
        invariant
            0 <= i <= found@.len(),
            forall|k: int| 0 <= k < found@.len() ==> (#[trigger] found@[k]).1 + found@[k].2 <= usize::MAX,
            spans@ == found@.take(i as int).filter(|h: (u64, usize, usize)| h.0 == id).map_values(
                |h: (u64, usize, usize)| (h.1, (h.1 + h.2) as usize),
            ),
        decreases found@.len() - i,
    {
        proof {
            reveal(Seq::filter);
            assert(found@.take(i as int + 1).drop_last() == found@.take(i as int));
            assert(found@.take(i as int + 1).last() == found@[i as int]);
        }
        let (e, start, len) = found[i];
        if e == id {
            assert(found@[i as int].1 + found@[i as int].2 <= usize::MAX);
            spans.push((start, start + len));
        }
        i = i + 1;
    }
    assert(found@.take(found@.len() as int) == found@);
    spans
}

/// The characters of `text` from `start`, `length` of them, cut at the end of
/// the text; nothing when `start` lies past its end.
pub open spec fn word_at_spec(text: Seq<char>, start: nat, length: nat) -> Seq<char> {
    let end = if start + length <= text.len() {
        start + length
    } else {
        text.len()
    };
    if start <= end {
        text.subrange(start as int, end as int)
    } else {
        Seq::empty()
    }
}

/// The flagged word at `start` of `length` characters, clamped to the text.
pub fn word_at(text: &[char], start: usize, length: usize) -> (w: String)
    ensures
        w@ == word_at_spec(text@, start as nat, length as nat),
{
    let sum = start.saturating_add(length);
    let end = if sum < text.len() {
        sum
    } else {
        text.len()
    };
    let mut out: Vec<char> = Vec::new();
    if start <= end {
        let mut k: usize = start;
        while k < end
            invariant
                start <= k <= end <= text@.len(),
                out@ == text@.subrange(start as int, k as int),
            decreases end - k,
        {
            out.push(text[k]);
            k = k + 1;
        }
    }
    crate::text::string_from_chars(out.as_slice())
}


/// Whether the live query asks the lane for anything: there is one and its
/// text is not empty.
pub fn is_searching(active: &Option<LaneQuery>) -> (b: bool)
    ensures
        b == (match *active {
            Some(q) => q.text@.len() > 0,
            None => false,
        }),
{
    match active {
        Some(q) => crate::text::chars_of(q.text.as_str()).len() > 0,
        None => false,
    }
}

/// The search marks of one row with `hits` hits: each hit's id, named by the
/// row and its ordinal so no two rows share one, and whether it is the hit
/// the writer stands on.
pub fn search_marks(item: u64, current: Option<usize>, hits: usize) -> (marks: Vec<(u64, bool)>)
    ensures
        marks@.len() == hits,
        forall|i: int| 0 <= i < hits ==> (#[trigger] marks@[i]) == (mark_id_spec(item, i as nat), current == Some(
            i as usize,
        )),
{
    let mut marks: Vec<(u64, bool)> = Vec::new();
    let mut i: usize = 0;
    while i < hits
        invariant
            0 <= i <= hits,
            marks@.len() == i,
            forall|k: int| 0 <= k < i ==> (#[trigger] marks@[k]) == (mark_id_spec(item, k as nat), current == Some(
                k as usize,
            )),
        decreases hits - i,
    {
        let is_current = match current {
            Some(c) => c == i,
            None => false,
        };
        marks.push((mark_id(item, i), is_current));
        i = i + 1;
    }
    marks
}

/// The ids of the marks for the located hits among the first `n` of a row,
/// in order: hit `i` is named by ordinal `i + 1`, so a hit that cannot be
/// placed keeps its ordinal and the hits after it keep theirs.
pub open spec fn located_hit_marks(item: u64, located: Seq<bool>, n: int) -> Seq<u64>
    decreases n,
{
    if n <= 0 {
        Seq::empty()
    } else if located[n - 1] {
        located_hit_marks(item, located, n - 1).push(mark_id_spec(item, n as nat))
    } else {
        located_hit_marks(item, located, n - 1)
    }
}

/// The story-bible marks of one row, as ids: nothing when the reading's
/// subject belongs to another Work; else the point-of-view mark first, at
/// ordinal zero, when the row declares the subject as its point of view and
/// its first character can be placed, then one mark per name found that can
/// be placed (`located` holds, for each hit in order, whether it can).
pub fn story_bible_marks(item: u64, same_work: bool, declared_pov: bool, top_located: bool, located: &[bool]) -> (ids: Vec<u64>)
    ensures
        ids@ == if !same_work {
            Seq::<u64>::empty()
        } else {
            (if declared_pov && top_located {
                seq![mark_id_spec(item, 0)]
            } else {
                Seq::<u64>::empty()
            }) + located_hit_marks(item, located@, located@.len() as int)
        },
{
    let mut ids: Vec<u64> = Vec::new();
    if !same_work {
        return ids;
    }
    if declared_pov && top_located {
        ids.push(mark_id(item, 0));
    }
    let ghost head = ids@;
    let mut i: usize = 0;
    while i < located.len()
        invariant
            0 <= i <= located@.len(),
            ids@ == head + located_hit_marks(item, located@, i as int),
        decreases located@.len() - i,
    {
        if located[i] {
            ids.push(mark_id(item, i + 1));
            assert(ids@ =~= head + located_hit_marks(item, located@, i as int + 1));
        }
        i = i + 1;
    }
    ids
}


/// The spelling marks a row's flagged words give, in order: for each flagged
/// `(start, length, placed)` the row could place on its strip, its id (the
/// offset, which holds still while other words are fixed) and the word itself.
pub open spec fn spelling_marks_spec(text: Seq<char>, flagged: Seq<(usize, usize, bool)>) -> Seq<(u64, Seq<char>)>
    decreases flagged.len(),
{
    if flagged.len() == 0 {
        Seq::empty()
    } else {
        let rest = spelling_marks_spec(text, flagged.drop_last());
        let f = flagged.last();
        if f.2 {
            rest.push((f.0 as u64, word_at_spec(text, f.0 as nat, f.1 as nat)))
        } else {
            rest
        }
    }
}

/// The spelling marks of one row whose text is `text`.
pub fn spelling_marks(text: &[char], flagged: &[(usize, usize, bool)]) -> (marks: Vec<(u64, String)>)
    ensures
        marks@.map_values(|m: (u64, String)| (m.0, m.1@)) == spelling_marks_spec(text@, flagged@),
{
    let mut marks: Vec<(u64, String)> = Vec::new();
    let mut i: usize = 0;
    while i < flagged.len()
        invariant
            0 <= i <= flagged@.len(),
            marks@.map_values(|m: (u64, String)| (m.0, m.1@)) == spelling_marks_spec(
                text@,
                flagged@.take(i as int),
            ),
        decreases flagged@.len() - i,
    {
        let (start, length, placed) = flagged[i];
        assert(flagged@.take(i as int + 1).drop_last() == flagged@.take(i as int));
        if placed {
            let w = word_at(text, start, length);
            let ghost before = marks@;
            marks.push((start as u64, w));
            assert(marks@.map_values(|m: (u64, String)| (m.0, m.1@)) == before.map_values(
                |m: (u64, String)| (m.0, m.1@),
            ).push((start as u64, w@)));
        }
        i = i + 1;
    }
    assert(flagged@.take(flagged@.len() as int) == flagged@);
    marks
}


/// Whether `order` lists positions of `groups` by ascending group, and the
/// positions of one group in their own order.
pub open spec fn in_paint_order(groups: Seq<u16>, order: Seq<usize>) -> bool {
    forall|a: int, b: int|
        #![trigger order[a], order[b]]
        0 <= a < b < order.len() ==> groups[order[a] as int] < groups[order[b] as int] || (
        groups[order[a] as int] == groups[order[b] as int] && order[a] < order[b])
}

/// The order the lane paints marks in, given each mark's provider group:
/// ascending group, so the ids decide it rather than the order providers
/// were installed in, and within a group the provider's own order.
pub fn paint_order(groups: &[u16]) -> (order: Vec<usize>)
    ensures
        order@.len() == groups@.len(),
        forall|k: int| 0 <= k < order@.len() ==> order@[k] < groups@.len(),
        forall|k: usize| k < groups@.len() ==> #[trigger] order@.contains(k),
        in_paint_order(groups@, order@),
{
    let mut out: Vec<usize> = Vec::new();
    let mut i: usize = 0;
    while i < groups.len()
        invariant
            0 <= i <= groups@.len(),
            out@.len() == i,
            forall|k: int| 0 <= k < out@.len() ==> out@[k] < i,
            forall|k: usize| k < i ==> #[trigger] out@.contains(k),
            in_paint_order(groups@, out@),
        decreases groups@.len() - i,
    {
        let g = groups[i];
        let mut p: usize = 0;
        while p < out.len() && groups[out[p]] <= g
            invariant
                0 <= p <= out@.len(),
                forall|k: int| 0 <= k < out@.len() ==> out@[k] < i,
                i < groups@.len(),
                g == groups@[i as int],
                forall|k: int| 0 <= k < p ==> groups@[#[trigger] out@[k] as int] <= g,
            decreases out@.len() - p,
        {
            p = p + 1;
        }
        let ghost before = out@;
        proof {
            assert forall|k: int| p <= k < before.len() implies groups@[#[trigger] before[k] as int] > g by {
                if k > p {
                    assert(groups@[before[p as int] as int] <= groups@[before[k] as int]);
                }
            }
        }
        out.insert(p, i);
        proof {
            assert(out@ == before.insert(p as int, i));
            assert forall|k: int| 0 <= k < out@.len() implies out@[k] < i + 1 by {
                if k < p {
                    assert(out@[k] == before[k]);
                } else if k > p {
                    assert(out@[k] == before[k - 1]);
                }
            }
            assert forall|k: usize| k < i + 1 implies #[trigger] out@.contains(k) by {
                if k == i {
                    assert(out@[p as int] == i);
                } else {
                    assert(before.contains(k));
                    let j = choose|j: int| 0 <= j < before.len() && before[j] == k;
                    if j < p {
                        assert(out@[j] == k);
                    } else {
                        assert(out@[j + 1] == k);
                    }
                }
            }
            assert forall|a: int, b: int| 0 <= a < b < out@.len() implies (groups@[out@[a] as int]
                < groups@[out@[b] as int] || (groups@[out@[a] as int] == groups@[out@[b] as int]
                && out@[a] < out@[b])) by {
                if b < p {
                    assert(out@[a] == before[a] && out@[b] == before[b]);
                } else if b == p {
                    assert(out@[a] == before[a]);
                    assert(groups@[before[a] as int] <= g);
                } else if a == p {
                    assert(out@[b] == before[b - 1]);
                    assert(groups@[before[b - 1] as int] > g);
                } else if a < p {
                    assert(out@[a] == before[a] && out@[b] == before[b - 1]);
                    assert(before[a] == before[a]);
                    let bb = b - 1;
                    assert(groups@[before[a] as int] < groups@[before[bb] as int] || (groups@[before[a] as int]
                        == groups@[before[bb] as int] && before[a] < before[bb]));
                } else {
                    assert(out@[a] == before[a - 1] && out@[b] == before[b - 1]);
                    let aa = a - 1;
                    let bb = b - 1;
                    assert(groups@[before[aa] as int] < groups@[before[bb] as int] || (groups@[before[aa] as int]
                        == groups@[before[bb] as int] && before[aa] < before[bb]));
                }
            }
        }
        i = i + 1;
    }
    out
}


/// The anchors a row's comments put on the lane, in the order the session
/// lists them: each live `(comment, start, end, resolved)` that is open, spans
/// some text and still has a thread in `threads` behind it.
pub open spec fn anchors_spec(live: Seq<(u64, usize, usize, bool)>, threads: Seq<u64>) -> Seq<(u64, usize, usize)>
    decreases live.len(),
{
    if live.len() == 0 {
        Seq::empty()
    } else {
        let rest = anchors_spec(live.drop_last(), threads);
        let a = live.last();
        if !a.3 && a.2 > a.1 && threads.contains(a.0) {
            rest.push((a.0, a.1, a.2))
        } else {
            rest
        }
    }
}

/// The comment anchors the lane marks for one row: none while the comments
/// are hidden, else [`anchors_spec`]'s.
pub fn comment_anchors(visible: bool, live: &[(u64, usize, usize, bool)], threads: &[u64]) -> (out: Vec<(u64, usize, usize)>)
    ensures
        out@ == if visible {
            anchors_spec(live@, threads@)
        } else {
            Seq::empty()
        },
{
    let mut out: Vec<(u64, usize, usize)> = Vec::new();
    if !visible {
        return out;
    }
    let mut i: usize = 0;
    while i < live.len()
        invariant
            0 <= i <= live@.len(),
            out@ == anchors_spec(live@.take(i as int), threads@),
        decreases live@.len() - i,
    {
        assert(live@.take(i as int + 1).drop_last() == live@.take(i as int));
        let (id, start, end, resolved) = live[i];
        if !resolved && end > start {
            let mut backed = false;
            let mut k: usize = 0;
            while k < threads.len()
                invariant
                    0 <= k <= threads@.len(),
                    backed == exists|m: int| 0 <= m < k && threads@[m] == id,
                decreases threads@.len() - k,
            {
                if threads[k] == id {
                    backed = true;
                }
                k = k + 1;
            }
            assert(backed == threads@.contains(id));
            if backed {
                out.push((id, start, end));
            }
        }
        i = i + 1;
    }
    assert(live@.take(live@.len() as int) == live@);
    out
}

} // verus!
