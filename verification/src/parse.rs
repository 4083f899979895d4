//! The scanning cursor and its checkpoints.

use crate::lookup::Lookup;
use vstd::pervasive::runtime_assert;
use vstd::prelude::*;
use vstd::slice::slice_subrange;
use vstd::slice::slice_to_vec;

verus! {

/// A read position into a borrowed, immutable byte buffer.
///
/// The position never exceeds the length of the buffer.
pub struct Code<'c> {
    code: &'c [u8],
    next: usize,
}

/// A snapshot of a cursor's position, together with the buffer it was
/// taken on (kept as ghost state only).
#[derive(Copy, Clone)]
pub struct Checkpoint {
    pos: usize,
    source: Ghost<Seq<u8>>,
}

/// `n` is the length of the longest prefix of `s` all of whose bytes have
/// membership `member` in `class`.
pub open spec fn is_maximal_run(s: Seq<u8>, class: Set<u8>, member: bool, n: int) -> bool {
    &&& 0 <= n <= s.len()
    &&& forall|i: int| 0 <= i < n ==> class.contains(#[trigger] s[i]) == member
    &&& n < s.len() ==> class.contains(s[n]) != member
}

impl Checkpoint {
    /// The captured offset.
    pub closed spec fn position(&self) -> int {
        self.pos as int
    }

    /// The contents of the buffer on which the checkpoint was taken.
    pub closed spec fn buffer(&self) -> Seq<u8> {
        self.source@
    }

    #[verifier::type_invariant]
    spec fn in_bounds(&self) -> bool {
        self.pos <= self.source@.len()
    }
}

impl<'c> Code<'c> {
    /// The whole input buffer.
    pub closed spec fn buffer(&self) -> Seq<u8> {
        self.code@
    }

    /// The current offset into the buffer.
    pub closed spec fn position(&self) -> int {
        self.next as int
    }

    /// The bytes from the current position to the end of the buffer.
    pub open spec fn remaining(&self) -> Seq<u8> {
        self.buffer().skip(self.position())
    }

    /// The byte `offset` places past the current position, if the buffer
    /// reaches that far.
    pub open spec fn byte_at(&self, offset: int) -> Option<u8> {
        if 0 <= self.position() + offset < self.buffer().len() {
            Some(self.buffer()[self.position() + offset])
        } else {
            None
        }
    }

    /// The cursor stands on the same buffer as `prior`, within bounds and
    /// no earlier than `prior` stood.
    pub open spec fn moved_on_from(&self, prior: &Self) -> bool {
        &&& self.buffer() == prior.buffer()
        &&& prior.position() <= self.position() <= self.buffer().len()
    }

    #[verifier::type_invariant]
    spec fn in_bounds(&self) -> bool {
        self.next <= self.code@.len()
    }

    /// A cursor at the start of `code`.
    pub fn new(code: &[u8]) -> (c: Code<'_>)
        ensures
            c.buffer() == code@,
            c.position() == 0,
    {
        Code { code, next: 0 }
    }

    /// The unread part of the buffer, viewed in place.
    pub fn str(&self) -> (rest: &[u8])
        ensures
            rest@ == self.remaining(),
            0 <= self.position() <= self.buffer().len(),
    {
        proof {
            use_type_invariant(self);
        }
        slice_subrange(self.code, self.next, self.code.len())
    }

    /// Captures the current position.
    pub fn take_checkpoint(&self) -> (cp: Checkpoint)
        ensures
            cp.position() == self.position(),
            cp.buffer() == self.buffer(),
    {
        proof {
            use_type_invariant(self);
        }
        Checkpoint { pos: self.next, source: Ghost(self.code@) }
    }

    /// Rewinds (or forwards) the cursor to a position captured earlier on
    /// the same buffer.
    pub fn restore_checkpoint(&mut self, cp: Checkpoint)
        requires
            cp.buffer() == old(self).buffer(),
        ensures
            final(self).buffer() == old(self).buffer(),
            final(self).position() == cp.position(),
            0 <= final(self).position() <= final(self).buffer().len(),
    {
        proof {
            use_type_invariant(&cp);
        }
        self.next = cp.pos;
    }

    /// Whether the whole buffer has been consumed.
    pub fn at_end(&self) -> (end: bool)
        ensures
            end == (self.position() == self.buffer().len()),
            end == (self.remaining().len() == 0),
            0 <= self.position() <= self.buffer().len(),
    {
        proof {
            use_type_invariant(self);
        }
        self.next == self.code.len()
    }

    /// Consumes one byte if it equals `c`.
    pub fn shift_if_next(&mut self, c: u8) -> (matched: bool)
        ensures
            final(self).moved_on_from(old(self)),
            matched == (old(self).byte_at(0) == Some(c)),
            final(self).position() == old(self).position() + if matched { 1int } else { 0int },
    {
        proof {
            use_type_invariant(&*self);
        }
        if self.next < self.code.len() && self.code[self.next] == c {
            self.next += 1;
            true
        } else {
            false
        }
    }

    /// Consumes one byte if it belongs to `lookup`, and returns it.
    pub fn shift_if_next_in_lookup(&mut self, lookup: &Lookup) -> (found: Option<u8>)
        ensures
            final(self).moved_on_from(old(self)),
            found == match old(self).byte_at(0) {
                Some(b) if lookup@.contains(b) => Some(b),
                _ => None,
            },
            final(self).position() == old(self).position() + if found.is_some() { 1int } else { 0int },
    {
        proof {
            use_type_invariant(&*self);
        }
        if self.next < self.code.len() && lookup.contains(self.code[self.next]) {
            let b: u8 = self.code[self.next];
            self.next += 1;
            Some(b)
        } else {
            None
        }
    }

    /// Consumes `seq` if the unread input starts with exactly those bytes.
    pub fn shift_if_next_seq(&mut self, seq: &[u8]) -> (matched: bool)
        ensures
            final(self).moved_on_from(old(self)),
            matched == seq@.is_prefix_of(old(self).remaining()),
            final(self).position() == old(self).position() + if matched { seq@.len() as int } else { 0int },
    {
        proof {
            use_type_invariant(&*self);
        }
        let n: usize = seq.len();
        let total: usize = self.code.len();
        if n > total - self.next {
            return false;
        }
        let mut i: usize = 0;
        while i < n
            invariant
                n == seq@.len(),
                total == self.code@.len(),
                self.next + n <= total,
                i <= n,
                forall|k: int| 0 <= k < i ==> seq@[k] == #[trigger] self.remaining()[k],
            decreases n - i,
        {
            assert(self.remaining()[i as int] == self.code@[self.next + i]);
            if self.code[self.next + i] != seq[i] {
                return false;
            }
            i += 1;
        }
        assert(seq@ =~= self.remaining().subrange(0, n as int));
        self.next += n;
        true
    }

    /// Advances by `n` bytes, which must remain.
    ///
    /// A caller outside verification that asks for more than remains is
    /// stopped by a panic; the cursor never leaves the buffer.
    pub fn shift(&mut self, n: usize)
        requires
            old(self).position() + n <= old(self).buffer().len(),
        ensures
            final(self).moved_on_from(old(self)),
            final(self).position() == old(self).position() + n,
    {
        proof {
            use_type_invariant(&*self);
        }
        runtime_assert(n <= self.code.len() - self.next);
        self.next += n;
    }

    /// Returns an owned copy of the next `n` bytes, which must remain, and
    /// advances past them.
    ///
    /// A caller outside verification that asks for more than remains is
    /// stopped by a panic, as in [`Code::shift`].
    pub fn copy_and_shift(&mut self, n: usize) -> (out: Vec<u8>)
        requires
            old(self).position() + n <= old(self).buffer().len(),
        ensures
            final(self).moved_on_from(old(self)),
            final(self).position() == old(self).position() + n,
            out@ == old(self).remaining().take(n as int),
    {
        proof {
            use_type_invariant(&*self);
        }
        runtime_assert(n <= self.code.len() - self.next);
        let out = slice_to_vec(slice_subrange(self.code, self.next, self.next + n));
        assert(out@ =~= self.remaining().take(n as int));
        self.next += n;
        out
    }

    /// Consumes the longest run of leading bytes that belong to `lookup`
    /// and returns an owned copy of it.
    pub fn copy_and_shift_while_in_lookup(&mut self, lookup: &Lookup) -> (out: Vec<u8>)
        ensures
            final(self).moved_on_from(old(self)),
            final(self).position() == old(self).position() + out@.len(),
            is_maximal_run(old(self).remaining(), lookup@, true, out@.len() as int),
            out@ == old(self).remaining().take(out@.len() as int),
    {
        let len = self.run_length(lookup, true);
        self.copy_and_shift(len)
    }

    /// Consumes the longest run of leading bytes that do not belong to
    /// `lookup` and returns an owned copy of it.
    pub fn copy_and_shift_while_not_in_lookup(&mut self, lookup: &Lookup) -> (out: Vec<u8>)
        ensures
            final(self).moved_on_from(old(self)),
            final(self).position() == old(self).position() + out@.len(),
            is_maximal_run(old(self).remaining(), lookup@, false, out@.len() as int),
            out@ == old(self).remaining().take(out@.len() as int),
    {
        let len = self.run_length(lookup, false);
        self.copy_and_shift(len)
    }

    /// Measures, without consuming, the longest run of leading bytes whose
    /// membership in `lookup` is `member`.
    fn run_length(&self, lookup: &Lookup, member: bool) -> (len: usize)
        ensures
            self.position() + len <= self.buffer().len(),
            is_maximal_run(self.remaining(), lookup@, member, len as int),
    {
        proof {
            use_type_invariant(self);
        }
        let total: usize = self.code.len();
        let mut len: usize = 0;
        while self.next + len < total && lookup.contains(self.code[self.next + len]) == member
            invariant
                total == self.code@.len(),
                self.next + len <= total,
                forall|i: int|
                    0 <= i < len ==> lookup@.contains(#[trigger] self.remaining()[i]) == member,
            decreases total - self.next - len,
        {
            assert(self.remaining()[len as int] == self.code@[self.next + len]);
            len += 1;
        }
        assert(self.next + len < self.code@.len() ==> self.remaining()[len as int]
            == self.code@[self.next + len]);
        len
    }

    /// Consumes the longest run of leading bytes that belong to `lookup`,
    /// and returns the last byte consumed, if any.
    pub fn shift_while_in_lookup(&mut self, lookup: &Lookup) -> (last: Option<u8>)
        ensures
            final(self).moved_on_from(old(self)),
            is_maximal_run(
                old(self).remaining(),
                lookup@,
                true,
                final(self).position() - old(self).position(),
            ),
            last == if final(self).position() == old(self).position() {
                None
            } else {
                Some(old(self).buffer()[final(self).position() - 1])
            },
    {
        proof {
            use_type_invariant(&*self);
        }
        let mut last: Option<u8> = None;
        while self.next < self.code.len() && lookup.contains(self.code[self.next])
            invariant
                self.code == old(self).code,
                old(self).next <= self.next <= self.code@.len(),
                forall|i: int|
                    0 <= i < self.next - old(self).next ==> lookup@.contains(
                        #[trigger] old(self).remaining()[i],
                    ),
                last == if self.next == old(self).next {
                    None
                } else {
                    Some(self.code@[self.next - 1])
                },
            decreases self.code@.len() - self.next,
        {
            assert(old(self).remaining()[self.next - old(self).next] == self.code@[self.next as int]);
            last = Some(self.code[self.next]);
            self.next += 1;
        }
        assert(self.next < self.code@.len() ==> old(self).remaining()[self.next - old(self).next]
            == self.code@[self.next as int]);
        last
    }

    /// The byte `i` places past the current position, without consuming.
    pub fn get(&self, i: usize) -> (b: Option<u8>)
        ensures
            b == self.byte_at(i as int),
    {
        proof {
            use_type_invariant(self);
        }
        if i < self.code.len() - self.next {
            Some(self.code[self.next + i])
        } else {
            None
        }
    }

    /// The number of unread bytes.
    pub fn rem(&self) -> (n: usize)
        ensures
            n == self.buffer().len() - self.position(),
            n == self.remaining().len(),
    {
        proof {
            use_type_invariant(self);
        }
        self.code.len() - self.next
    }
}

/// A buffer has exactly one maximal run of a given membership at its start.
pub proof fn lemma_maximal_run_unique(s: Seq<u8>, class: Set<u8>, member: bool, n1: int, n2: int)
    requires
        is_maximal_run(s, class, member, n1),
        is_maximal_run(s, class, member, n2),
    ensures
        n1 == n2,
{
    if n1 < n2 {
        assert(class.contains(s[n1]) == member);
    } else if n2 < n1 {
        assert(class.contains(s[n2]) == member);
    }
}

/// A maximal run of one membership followed at once by a maximal run of the
/// opposite membership splits a prefix of the input in two: the two runs are
/// adjacent, together they are the first `n1 + n2` bytes, a byte belongs to
/// the first run exactly when it has the first membership, and the input
/// ends after them or goes on with a byte of the first membership.
pub proof fn lemma_opposite_runs_partition(
    s: Seq<u8>,
    class: Set<u8>,
    first: bool,
    n1: int,
    n2: int,
)
    requires
        is_maximal_run(s, class, first, n1),
        is_maximal_run(s.skip(n1), class, !first, n2),
    ensures
        0 <= n1 + n2 <= s.len(),
        s.take(n1) + s.skip(n1).take(n2) == s.take(n1 + n2),
        s.take(n1 + n2) + s.skip(n1 + n2) == s,
        forall|i: int| 0 <= i < n1 + n2 ==> (class.contains(#[trigger] s[i]) == first <==> i < n1),
        n1 + n2 < s.len() ==> class.contains(s[n1 + n2]) == first,
{
    let rest = s.skip(n1);
    assert(s.take(n1) + rest.take(n2) =~= s.take(n1 + n2));
    assert(s.take(n1 + n2) + s.skip(n1 + n2) =~= s);
    assert forall|i: int| 0 <= i < n1 + n2 implies (class.contains(#[trigger] s[i]) == first <==> i
        < n1) by {
        if i >= n1 {
            assert(rest[i - n1] == s[i]);
        }
    }
    if n1 + n2 < s.len() {
        assert(rest[n2] == s[n1 + n2]);
    }
}

/// Forward movement composes: a cursor that moved on from a state which
/// itself moved on from an earlier one has moved on from the earlier one.
pub proof fn lemma_moves_compose(a: Code<'_>, b: Code<'_>, c: Code<'_>)
    requires
        b.moved_on_from(&a),
        c.moved_on_from(&b),
    ensures
        c.moved_on_from(&a),
{
}

/// Once the end of the buffer is reached, forward movement leaves the cursor
/// there: nothing remains, before and after.
pub proof fn lemma_end_is_final(before: Code<'_>, after: Code<'_>)
    requires
        before.position() == before.buffer().len(),
        after.moved_on_from(&before),
    ensures
        after.position() == after.buffer().len(),
        after.remaining().len() == 0,
        after.byte_at(0) is None,
{
}

} // verus!
