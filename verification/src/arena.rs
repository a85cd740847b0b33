//! The source store: an append-only character arena together with the
//! lightweight range handles (`SourceView`) that all later stages use as
//! token lexemes and AST spans.

use vstd::prelude::*;

verus! {

/// A lightweight, copyable handle describing a half-open sub-range
/// `[start, end)` of one `SourceArena`.
///
/// A view never borrows the arena: it carries the arena's generation id
/// instead, and rendering checks that id, so a view presented to an arena
/// that did not produce it is a recoverable error, never a wrong answer.
#[derive(Clone, Copy, Debug, PartialEq, Eq, Structural)]
pub struct SourceView {
    pub store_id: u64,
    pub start: usize,
    pub end: usize,
}

impl SourceView {
    /// A well-formed view has a non-negative extent.
    pub open spec fn wf(self) -> bool {
        self.start <= self.end
    }

    pub open spec fn spec_len(self) -> int {
        self.end - self.start
    }

    /// The view lies inside the arena `a` and was issued by it.
    pub open spec fn valid_for(self, a: SourceArena) -> bool {
        &&& self.wf()
        &&& self.store_id == a.sid()
        &&& self.end <= a@.len()
    }

    pub fn len(&self) -> (n: usize)
        requires
            self.wf(),
        ensures
            n == self.spec_len(),
    {
        self.end - self.start
    }

    /// Extend the window one character to the right (used while scanning).
    pub fn grow(&mut self)
        requires
            old(self).end < usize::MAX,
        ensures
            final(self).store_id == old(self).store_id,
            final(self).start == old(self).start,
            final(self).end == old(self).end + 1,
    {
        self.end = self.end + 1;
    }

    /// Shrink to an empty window at the current end (used after emitting
    /// a lexeme).
    pub fn pull_tail(&mut self)
        ensures
            final(self).store_id == old(self).store_id,
            final(self).start == old(self).end,
            final(self).end == old(self).end,
    {
        self.start = self.end;
    }

    /// Span from the start of `self` to the end of `rhs`: builds the span of
    /// a whole sub-expression from its first and last token spans.
    pub fn concat(self, rhs: SourceView) -> (r: SourceView)
        requires
            rhs.wf(),
            self.store_id == rhs.store_id,
            self.start <= rhs.start,
            self.end <= rhs.end,
        ensures
            r.store_id == self.store_id,
            r.start == self.start,
            r.end == rhs.end,
            r.wf(),
    {
        SourceView { store_id: self.store_id, start: self.start, end: rhs.end }
    }
}

/// Why a view could not be rendered against a given arena.
#[derive(Clone, Copy, Debug, PartialEq, Eq, Structural)]
pub enum RenderError {
    /// The arena is not the one that issued the view (the owning store is
    /// gone or this is the wrong store).
    ForeignArena,
    /// The view's range does not lie inside the arena.
    OutOfBounds,
}

/// The single owner of all source text ever seen: an append-only character
/// buffer. Because positions are never deleted or overwritten, every view
/// issued by `intern` stays valid for as long as the arena lives.
pub struct SourceArena {
    id: u64,
    data: Vec<char>,
}

impl View for SourceArena {
    type V = Seq<char>;

    closed spec fn view(&self) -> Seq<char> {
        self.data@
    }
}

impl SourceArena {
    /// The arena's generation id, stamped on every view it issues.
    pub closed spec fn sid(&self) -> u64 {
        self.id
    }

    /// An empty arena. The caller picks a fresh `id` per arena so that views
    /// of dropped arenas cannot be mistaken for views of this one.
    pub fn new(id: u64) -> (a: SourceArena)
        ensures
            a.sid() == id,
            a@ == Seq::<char>::empty(),
    {
        SourceArena { id, data: Vec::new() }
    }

    /// An arena's contents always fit in a vector, so indices fit in
    /// `usize`.
    pub proof fn lemma_len_bounded(&self)
        ensures
            self@.len() <= usize::MAX,
    {
        broadcast use vstd::std_specs::vec::axiom_spec_len;

        assert(vstd::std_specs::vec::spec_vec_len(&self.data) == self.data@.len());
    }

    /// The generation id this arena stamps on its views.
    pub fn id_value(&self) -> (i: u64)
        ensures
            i == self.sid(),
    {
        self.id
    }

    pub fn len(&self) -> (n: usize)
        ensures
            n == self@.len(),
    {
        self.data.len()
    }

    /// Read one character; an out-of-range index is a caller error, not a
    /// recoverable failure.
    pub fn char_at(&self, i: usize) -> (c: char)
        requires
            i < self@.len(),
        ensures
            c == self@[i as int],
    {
        self.data[i]
    }

    pub fn get(&self, idx: usize) -> (r: Option<char>)
        ensures
            idx < self@.len() ==> r == Some(self@[idx as int]),
            idx >= self@.len() ==> r is None,
    {
        if idx < self.data.len() {
            Some(self.data[idx])
        } else {
            None
        }
    }

    /// Append `src` and return a view spanning exactly the appended range.
    /// Interning is the only mutator: existing contents are kept unchanged.
    pub fn intern(&mut self, src: Vec<char>) -> (v: SourceView)
        ensures
            final(self).sid() == old(self).sid(),
            final(self)@ == old(self)@ + src@,
            v.store_id == old(self).sid(),
            v.start == old(self)@.len(),
            v.end == final(self)@.len(),
            v.valid_for(*final(self)),
    {
        let start = self.data.len();
        let mut text = src;
        self.data.append(&mut text);
        SourceView { store_id: self.id, start, end: self.data.len() }
    }

    /// The whole contents of the arena, in order.
    pub fn dump(&self) -> (r: Vec<char>)
        ensures
            r@ == self@,
    {
        let mut out: Vec<char> = Vec::new();
        let mut i: usize = 0;
        while i < self.data.len()
            invariant
                i <= self.data.len(),
                out@ == self.data@.take(i as int),
            decreases self.data.len() - i,
        {
            out.push(self.data[i]);
            i = i + 1;
        }
        proof {
            assert(out@ == self@) by {
                assert(self.data@.take(self.data@.len() as int) =~= self.data@);
            }
        }
        out
    }

    /// Materialize the substring a view describes. Fails recoverably when
    /// the view was not issued by this arena or does not lie inside it.
    pub fn render(&self, v: &SourceView) -> (r: Result<Vec<char>, RenderError>)
        ensures
            v.store_id != self.sid() ==> r == Result::<Vec<char>, RenderError>::Err(
                RenderError::ForeignArena,
            ),
            v.store_id == self.sid() && !(v.wf() && v.end <= self@.len())
                ==> r == Result::<Vec<char>, RenderError>::Err(RenderError::OutOfBounds),
            v.valid_for(*self) <==> r is Ok,
            r is Ok ==> r->Ok_0@ == self@.subrange(v.start as int, v.end as int),
    {
        if v.store_id != self.id {
            return Err(RenderError::ForeignArena);
        }
        if !(v.start <= v.end && v.end <= self.data.len()) {
            return Err(RenderError::OutOfBounds);
        }
        let mut out: Vec<char> = Vec::new();
        let mut i: usize = v.start;
        while i < v.end
            invariant
                v.start <= i <= v.end <= self.data@.len(),
                out@ == self.data@.subrange(v.start as int, i as int),
            decreases v.end - i,
        {
            let c = self.data[i];
            proof {
                assert(self.data@.subrange(v.start as int, i + 1 as int)
                    =~= self.data@.subrange(v.start as int, i as int).push(c));
            }
            out.push(c);
            i = i + 1;
        }
        Ok(out)
    }
}

/// Idempotent re-render, across later interning: because the arena is
/// append-only, a view issued earlier keeps rendering to exactly the
/// characters it was issued over, no matter how much text has been interned
/// since.
pub proof fn lemma_render_stable(v: SourceView, a1: &SourceArena, a2: &SourceArena)
    requires
        v.valid_for(*a1),
        a2.sid() == a1.sid(),
        a1@.len() <= a2@.len(),
        a2@.subrange(0, a1@.len() as int) == a1@,
    ensures
        v.valid_for(*a2),
        a2@.subrange(v.start as int, v.end as int) == a1@.subrange(v.start as int, v.end as int),
{
    assert(a2@.subrange(v.start as int, v.end as int) =~= a1@.subrange(
        v.start as int,
        v.end as int,
    )) by {
        assert(forall|i: int|
            0 <= i < a1@.len() ==> a2@[i] == #[trigger] a1@[i]) by {
            assert(forall|i: int|
                0 <= i < a1@.len() ==> a1@[i] == #[trigger] a2@.subrange(
                    0,
                    a1@.len() as int,
                )[i]);
        }
    }
}

} // verus!
