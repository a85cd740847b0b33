//! A two-pointer cursor over an arena: the front pointer consumes characters
//! one at a time, and pulling the back pointer up to the front emits the
//! consumed range as a fresh `SourceView` (a token lexeme).

use vstd::prelude::*;

use crate::arena::SourceArena;
use crate::arena::SourceView;

verus! {

/// What limits the reader: the whole arena (which may still grow while the
/// reader exists) or a fixed pre-existing view (to re-lex a sub-range).
#[derive(Clone, Copy, Debug)]
pub enum ReaderBounds {
    Absolute,
    Relative(SourceView),
}

/// Read-only cursor over an arena. The window `[current.start, current.end)`
/// covers the characters consumed since the last emitted lexeme.
#[derive(Clone, Copy, Debug)]
pub struct Reader {
    pub current: SourceView,
    pub boundary: ReaderBounds,
}

impl Reader {
    /// Lowest index the reader may read.
    pub open spec fn lo(self) -> int {
        match self.boundary {
            ReaderBounds::Absolute => 0,
            ReaderBounds::Relative(s) => s.start as int,
        }
    }

    /// One past the highest index the reader may read (for an absolute
    /// reader this follows the arena as it grows).
    pub open spec fn hi(self, a: SourceArena) -> int {
        match self.boundary {
            ReaderBounds::Absolute => a@.len() as int,
            ReaderBounds::Relative(s) => s.end as int,
        }
    }

    /// The front pointer: index of the next character to consume.
    pub open spec fn pos(self) -> int {
        self.current.end as int
    }

    /// The back pointer: start of the pending (not yet emitted) window.
    pub open spec fn window_start(self) -> int {
        self.current.start as int
    }

    pub open spec fn same_bounds(self, other: Reader) -> bool {
        self.boundary == other.boundary
    }

    pub open spec fn wf(self, a: SourceArena) -> bool {
        &&& self.current.wf()
        &&& self.current.store_id == a.sid()
        &&& self.lo() <= self.window_start()
        &&& self.pos() <= self.hi(a)
        &&& self.hi(a) <= a@.len()
        &&& match self.boundary {
            ReaderBounds::Absolute => true,
            ReaderBounds::Relative(s) => s.valid_for(a),
        }
    }

    /// A reader that traverses the entire arena from the start.
    pub fn from_arena(a: &SourceArena) -> (r: Reader)
        ensures
            r.wf(*a),
            r.lo() == 0,
            forall|b: SourceArena| r.hi(b) == b@.len(),
            r.pos() == 0,
            r.window_start() == 0,
            r.current.store_id == a.sid(),
    {
        Reader {
            current: SourceView { store_id: a.id_value(), start: 0, end: 0 },
            boundary: ReaderBounds::Absolute,
        }
    }

    /// A reader limited to a pre-existing view, starting at its left edge.
    pub fn from_span(s: SourceView) -> (r: Reader)
        requires
            s.wf(),
        ensures
            r.lo() == s.start,
            forall|b: SourceArena| r.hi(b) == s.end,
            r.pos() == s.start,
            r.window_start() == s.start,
            r.current.store_id == s.store_id,
            forall|b: SourceArena| s.valid_for(b) ==> r.wf(b),
    {
        Reader {
            current: SourceView { store_id: s.store_id, start: s.start, end: s.start },
            boundary: ReaderBounds::Relative(s),
        }
    }

    /// The readable region as absolute arena indices.
    pub fn abs_bounds(&self, a: &SourceArena) -> (r: (usize, usize))
        requires
            self.wf(*a),
        ensures
            r.0 == self.lo(),
            r.1 == self.hi(*a),
    {
        match self.boundary {
            ReaderBounds::Absolute => (0, a.len()),
            ReaderBounds::Relative(s) => (s.start, s.end),
        }
    }

    /// The length of the readable region.
    pub fn rel_bounds(&self, a: &SourceArena) -> (n: usize)
        requires
            self.wf(*a),
        ensures
            n == self.hi(*a) - self.lo(),
    {
        match self.boundary {
            ReaderBounds::Absolute => a.len(),
            ReaderBounds::Relative(s) => s.len(),
        }
    }

    pub fn is_at_end(&self, a: &SourceArena) -> (b: bool)
        requires
            self.wf(*a),
        ensures
            b == (self.pos() >= self.hi(*a)),
    {
        let (_, hi) = self.abs_bounds(a);
        self.current.end >= hi
    }

    /// The character at the front pointer, without consuming it.
    pub fn peek(&self, a: &SourceArena) -> (r: Option<char>)
        requires
            self.wf(*a),
        ensures
            self.pos() < self.hi(*a) ==> r == Some(a@[self.pos()]),
            self.pos() >= self.hi(*a) ==> r is None,
    {
        let (_, hi) = self.abs_bounds(a);
        if self.current.end < hi {
            Some(a.char_at(self.current.end))
        } else {
            None
        }
    }

    /// Look `n` positions past the front pointer without consuming.
    pub fn peek_n(&self, a: &SourceArena, n: usize) -> (r: Option<char>)
        requires
            self.wf(*a),
        ensures
            self.pos() + n < self.hi(*a) ==> r == Some(a@[self.pos() + n]),
            self.pos() + n >= self.hi(*a) ==> r is None,
    {
        let (_, hi) = self.abs_bounds(a);
        if n < hi - self.current.end {
            Some(a.char_at(self.current.end + n))
        } else {
            None
        }
    }

    /// Consume one character: the window grows one to the right and the
    /// consumed character is returned; at end of input nothing changes.
    pub fn advance_head(&mut self, a: &SourceArena) -> (r: Option<char>)
        requires
            old(self).wf(*a),
        ensures
            final(self).wf(*a),
            final(self).same_bounds(*old(self)),
            final(self).window_start() == old(self).window_start(),
            final(self).current.store_id == old(self).current.store_id,
            old(self).pos() < old(self).hi(*a) ==> {
                &&& r == Some(a@[old(self).pos()])
                &&& final(self).pos() == old(self).pos() + 1
            },
            old(self).pos() >= old(self).hi(*a) ==> {
                &&& r is None
                &&& *final(self) == *old(self)
            },
    {
        let (_, hi) = self.abs_bounds(a);
        if self.current.end < hi {
            let c = a.char_at(self.current.end);
            self.current.grow();
            Some(c)
        } else {
            None
        }
    }

    /// Emit the current window as a view and reset the window to empty at
    /// the front pointer.
    pub fn advance_tail(&mut self) -> (v: SourceView)
        ensures
            v == old(self).current,
            final(self).same_bounds(*old(self)),
            final(self).current.store_id == old(self).current.store_id,
            final(self).window_start() == old(self).pos(),
            final(self).pos() == old(self).pos(),
            forall|a: SourceArena| old(self).wf(a) ==> final(self).wf(a),
    {
        let ret = self.current;
        self.current.pull_tail();
        ret
    }
}

} // verus!
