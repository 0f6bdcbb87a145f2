//! Which manuscript rows a story-bible note was declared present in, by point
//! of view or by cast, within one Book, in manuscript order; and which Book a
//! reading opens on.

use vstd::prelude::*;

verus! {

/// Which declaration put a row in a note's reading.
#[derive(Debug, Clone, Copy, PartialEq, Eq, Structural)]
pub enum Declaration {
    PointOfView,
    Cast,
    Both,
}

/// The declaration `note_id` has on a row with these point-of-view and cast
/// lists, if any.
pub open spec fn declaration_spec(point_of_view: Seq<u64>, references: Seq<u64>, note_id: u64) -> Option<Declaration> {
    let pov = point_of_view.contains(note_id);
    let cast = references.contains(note_id);
    if pov && cast {
        Some(Declaration::Both)
    } else if pov {
        Some(Declaration::PointOfView)
    } else if cast {
        Some(Declaration::Cast)
    } else {
        None
    }
}

fn holds(ids: &[u64], id: u64) -> (b: bool)
    ensures
        b == ids@.contains(id),
{
    let mut i: usize = 0;
    while i < ids.len()
        invariant
            0 <= i <= ids@.len(),
            forall|k: int| 0 <= k < i ==> ids@[k] != id,
        decreases ids@.len() - i,
    {
        if ids[i] == id {
            assert(ids@[i as int] == id);
            return true;
        }
        i = i + 1;
    }
    false
}

impl Declaration {
    /// Which declaration, if any, puts `note_id` on a row whose point of view
    /// and cast are these: the two fields a writer's own pin fills.
    pub fn of(point_of_view: &[u64], references: &[u64], note_id: u64) -> (d: Option<Declaration>)
        ensures
            d == declaration_spec(point_of_view@, references@, note_id),
    {
        let pov = holds(point_of_view, note_id);
        let cast = holds(references, note_id);
        if pov && cast {
            Some(Declaration::Both)
        } else if pov {
            Some(Declaration::PointOfView)
        } else if cast {
            Some(Declaration::Cast)
        } else {
            None
        }
    }
}

/// One row of the flat manuscript stream, as the reading needs it.
#[derive(Debug)]
pub struct StreamItem {
    pub item_id: u64,
    /// Whether the row is a Book folder: it starts a new Book.
    pub is_book: bool,
    /// Whether the row carries countable manuscript prose.
    pub counts_prose: bool,
    pub point_of_view: Vec<u64>,
    pub references: Vec<u64>,
}

/// Whether the row at `k` lies in the Book `book_id`: the last Book folder at
/// or before it is that Book.
pub open spec fn in_book(items: Seq<StreamItem>, k: int, book_id: u64) -> bool
    decreases k + 1,
{
    if k < 0 || k >= items.len() {
        false
    } else if items[k].is_book {
        items[k].item_id == book_id
    } else {
        in_book(items, k - 1, book_id)
    }
}

/// The rows among the first `n` of `items` that `note_id` was declared in
/// within `book_id`, as `(position, declaration)`, in stream order.
pub open spec fn declared_rows(items: Seq<StreamItem>, n: int, note_id: u64, book_id: u64) -> Seq<(usize, Declaration)>
    decreases n,
{
    if n <= 0 {
        Seq::empty()
    } else {
        let before = declared_rows(items, n - 1, note_id, book_id);
        let it = items[n - 1];
        let d = declaration_spec(it.point_of_view@, it.references@, note_id);
        if in_book(items, n - 1, book_id) && it.counts_prose && d is Some {
            before.push(((n - 1) as usize, d.unwrap()))
        } else {
            before
        }
    }
}

/// The rows `note_id` was declared present in, within the Book `book_id`, as
/// positions in the flat stream with their declaration, in manuscript order.
/// One pass: every Book folder met sets whether the rows after it are in.
pub fn declared_rows_in_book(items: &[StreamItem], note_id: u64, book_id: u64) -> (rows: Vec<(usize, Declaration)>)
    ensures
        rows@ == declared_rows(items@, items@.len() as int, note_id, book_id),
{
    let mut in_the_book = false;
    let mut out: Vec<(usize, Declaration)> = Vec::new();
    let mut i: usize = 0;
    while i < items.len()
        invariant
            0 <= i <= items@.len(),
            in_the_book == in_book(items@, i - 1, book_id),
            out@ == declared_rows(items@, i as int, note_id, book_id),
        decreases items@.len() - i,
    {
        let it = &items[i];
        if it.is_book {
            in_the_book = it.item_id == book_id;
        }
        if in_the_book && it.counts_prose {
            match Declaration::of(it.point_of_view.as_slice(), it.references.as_slice(), note_id) {
                Some(d) => {
                    out.push((i, d));
                },
                None => {},
            }
        }
        i = i + 1;
    }
    out
}

/// The positions of the Book folders in the flat stream, in manuscript order.
pub open spec fn book_rows(items: Seq<StreamItem>, n: int) -> Seq<usize>
    decreases n,
{
    if n <= 0 || n > items.len() {
        Seq::empty()
    } else if items[n - 1].is_book {
        book_rows(items, n - 1).push((n - 1) as usize)
    } else {
        book_rows(items, n - 1)
    }
}

/// Where the Work's Books stand in the flat stream, in manuscript order: the
/// rows the Book control offers.
pub fn books_in_stream(items: &[StreamItem]) -> (at: Vec<usize>)
    ensures
        at@ == book_rows(items@, items@.len() as int),
{
    let mut out: Vec<usize> = Vec::new();
    let mut i: usize = 0;
    while i < items.len()
        invariant
            0 <= i <= items@.len(),
            out@ == book_rows(items@, i as int),
        decreases items@.len() - i,
    {
        if items[i].is_book {
            out.push(i);
        }
        i = i + 1;
    }
    out
}

/// One Book of a Work, for the control above the reading.
#[derive(Debug)]
pub struct BookChoice {
    pub item_id: u64,
    /// The durable identity the choice is remembered by.
    pub uid: u128,
    pub title: String,
    pub number: Option<usize>,
    pub fallback_label: Option<String>,
}

/// The position of the first Book with this uid, or -1.
pub open spec fn uid_pos(books: Seq<BookChoice>, uid: u128) -> int
    decreases books.len(),
{
    if books.len() == 0 {
        -1
    } else if books[0].uid == uid {
        0
    } else {
        let r = uid_pos(books.drop_first(), uid);
        if r < 0 {
            -1
        } else {
            r + 1
        }
    }
}

proof fn lemma_uid_pos(books: Seq<BookChoice>, uid: u128, j: int)
    requires
        0 <= j <= books.len(),
        forall|k: int| 0 <= k < j ==> (#[trigger] books[k]).uid != uid,
    ensures
        j < books.len() && books[j].uid == uid ==> uid_pos(books, uid) == j,
        j == books.len() ==> uid_pos(books, uid) == -1,
    decreases j,
{
    if j > 0 {
        assert forall|k: int| 0 <= k < j - 1 implies (#[trigger] books.drop_first()[k]).uid != uid by {
            assert(books.drop_first()[k] == books[k + 1]);
        }
        lemma_uid_pos(books.drop_first(), uid, j - 1);
    }
}

/// The Book a reading opens on: the first Book whose uid is the remembered
/// one, else the first Book; none when the Work has no Book.
pub open spec fn resolved_book(books: Seq<BookChoice>, stored: Option<u128>) -> Option<u64> {
    if stored is Some && uid_pos(books, stored.unwrap()) >= 0 {
        Some(books[uid_pos(books, stored.unwrap())].item_id)
    } else if books.len() > 0 {
        Some(books[0].item_id)
    } else {
        None
    }
}

/// Resolve a remembered Book against the Work's live Books: the first Book
/// with the remembered uid, else the first Book, else nothing.
pub fn resolve_book_choice(books: &[BookChoice], stored: Option<u128>) -> (r: Option<u64>)
    ensures
        r == resolved_book(books@, stored),
{
    if let Some(uid) = stored {
        let mut i: usize = 0;
        while i < books.len()
            invariant
                0 <= i <= books@.len(),
                stored == Some(uid),
                forall|j: int| 0 <= j < i ==> (#[trigger] books@[j]).uid != uid,
            decreases books@.len() - i,
        {
            if books[i].uid == uid {
                proof {
                    lemma_uid_pos(books@, uid, i as int);
                }
                return Some(books[i].item_id);
            }
            i = i + 1;
        }
        proof {
            lemma_uid_pos(books@, uid, i as int);
        }
    }
    if books.len() > 0 {
        Some(books[0].item_id)
    } else {
        None
    }
}

} // verus!
