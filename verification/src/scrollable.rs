//! A window onto a long list: what is shown of the rows that are offered.
use vstd::prelude::*;

verus! {

/// The rows that fit a window, gathered while all rows are offered in
/// order: the first `offset` rows are passed over, then up to `max_len` rows
/// are taken, and the rest is passed over too.
pub struct Scrollable<T> {
    offset: usize,
    max_len: usize,
    vec: Vec<T>,
}

/// What a window stands for: the rows still to pass over, the room that is
/// left, and the rows taken.
pub struct ScrollableView<T> {
    pub offset: usize,
    pub max_len: usize,
    pub rows: Seq<T>,
}

impl<T> View for Scrollable<T> {
    type V = ScrollableView<T>;

    closed spec fn view(&self) -> ScrollableView<T> {
        ScrollableView { offset: self.offset, max_len: self.max_len, rows: self.vec@ }
    }
}

impl<T> ScrollableView<T> {
    /// The next row that is offered will be taken.
    pub open spec fn takes_next(self) -> bool {
        self.offset == 0 && self.max_len > 0
    }

    /// The window after `row` was offered: passed over while rows are still
    /// to pass over and when no room is left, taken otherwise.
    pub open spec fn offered(self, row: T) -> ScrollableView<T> {
        if self.offset > 0 {
            ScrollableView {
                offset: (self.offset - 1) as usize,
                max_len: self.max_len,
                rows: self.rows,
            }
        } else if self.max_len == 0 {
            self
        } else {
            ScrollableView {
                offset: 0,
                max_len: (self.max_len - 1) as usize,
                rows: self.rows.push(row),
            }
        }
    }

    /// The window after each of `rows` was offered, in order.
    pub open spec fn offered_all(self, rows: Seq<T>) -> ScrollableView<T>
        decreases rows.len(),
    {
        if rows.len() == 0 {
            self
        } else {
            self.offered(rows[0]).offered_all(rows.drop_first())
        }
    }
}

/// Offering a list of one row is offering the row.
pub proof fn lemma_offered_one<T>(window: ScrollableView<T>, row: T)
    ensures
        window.offered_all(seq![row]) == window.offered(row),
{
    let next = window.offered(row);
    assert(seq![row].drop_first() =~= Seq::<T>::empty());
    assert(next.offered_all(Seq::<T>::empty()) == next);
}

/// Offering rows one list after another is offering them as one list.
pub proof fn lemma_offered_in_turn<T>(window: ScrollableView<T>, first: Seq<T>, second: Seq<T>)
    ensures
        window.offered_all(first + second) == window.offered_all(first).offered_all(second),
    decreases first.len(),
{
    if first.len() == 0 {
        assert(first + second =~= second);
    } else {
        assert((first + second).drop_first() =~= first.drop_first() + second);
        lemma_offered_in_turn(window.offered(first[0]), first.drop_first(), second);
    }
}

/// A window takes the rows behind those it passes over, as many as it has
/// room for.
pub proof fn lemma_window_of_rows<T>(offset: usize, max_len: usize, rows: Seq<T>)
    ensures
        (ScrollableView::<T> { offset, max_len, rows: seq![] }).offered_all(rows).rows
            == if rows.len() <= offset {
            Seq::<T>::empty()
        } else if rows.len() - offset <= max_len {
            rows.skip(offset as int)
        } else {
            rows.subrange(offset as int, offset + max_len)
        },
{
    let start = ScrollableView::<T> { offset, max_len, rows: seq![] };
    lemma_window_from(start, rows);
    let taken = if rows.len() <= offset {
        Seq::<T>::empty()
    } else if rows.len() - offset <= max_len {
        rows.skip(offset as int)
    } else {
        rows.subrange(offset as int, offset + max_len)
    };
    assert(start.rows + taken =~= taken);
}

proof fn lemma_window_from<T>(window: ScrollableView<T>, rows: Seq<T>)
    ensures
        window.offered_all(rows).rows == window.rows + if rows.len() <= window.offset {
            Seq::<T>::empty()
        } else if rows.len() - window.offset <= window.max_len {
            rows.skip(window.offset as int)
        } else {
            rows.subrange(window.offset as int, window.offset + window.max_len)
        },
    decreases rows.len(),
{
    let taken = if rows.len() <= window.offset {
        Seq::<T>::empty()
    } else if rows.len() - window.offset <= window.max_len {
        rows.skip(window.offset as int)
    } else {
        rows.subrange(window.offset as int, window.offset + window.max_len)
    };
    if rows.len() == 0 {
        assert(window.rows + taken =~= window.rows);
    } else {
        let next = window.offered(rows[0]);
        let rest = rows.drop_first();
        lemma_window_from(next, rest);
        let rest_taken = if rest.len() <= next.offset {
            Seq::<T>::empty()
        } else if rest.len() - next.offset <= next.max_len {
            rest.skip(next.offset as int)
        } else {
            rest.subrange(next.offset as int, next.offset + next.max_len)
        };
        assert(next.rows + rest_taken =~= window.rows + taken);
    }
}

impl<T> Default for Scrollable<T> {
    fn default() -> (window: Scrollable<T>)
        ensures
            window@ == (ScrollableView::<T> { offset: 0, max_len: 0, rows: seq![] }),
    {
        Scrollable { offset: 0, max_len: 0, vec: Vec::new() }
    }
}

impl<T> Scrollable<T> {
    /// An empty window that passes over `offset` rows and then has room for
    /// `max_len`.
    pub fn new(offset: usize, max_len: usize) -> (window: Scrollable<T>)
        ensures
            window@ == (ScrollableView::<T> { offset, max_len, rows: seq![] }),
    {
        Scrollable { offset, max_len, vec: Vec::new() }
    }

    /// Offers a row. It is made, by a call of `t`, only if it is taken: a
    /// row is passed over while rows are still to pass over, and when no
    /// room is left.
    pub fn push<F: FnOnce() -> T>(&mut self, t: F)
        requires
            old(self)@.takes_next() ==> t.requires(()),
        ensures
            !old(self)@.takes_next() ==> forall|row: T| final(self)@ == old(self)@.offered(row),
            old(self)@.takes_next() ==> final(self)@.rows.len() == old(self)@.rows.len() + 1
                && t.ensures((), final(self)@.rows.last()) && final(self)@ == old(self)@.offered(
                final(self)@.rows.last(),
            ),
    {
        if self.offset != 0 {
            self.offset -= 1;
            return ;
        }
        if self.max_len == 0 {
            return ;
        }
        self.max_len -= 1;
        let row = t();
        self.vec.push(row);
    }

    /// The rows that were taken, in order.
    pub fn get(self) -> (rows: Vec<T>)
        ensures
            rows@ == self@.rows,
    {
        self.vec
    }
}

} // verus!
