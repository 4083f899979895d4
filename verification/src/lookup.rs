//! Byte classification tables: a fixed mapping from each of the 256 byte
//! values to a membership flag.

use vstd::prelude::*;

verus! {

/// An immutable classification table over all byte values.
///
/// Its view is the set of bytes that belong to the class.
#[derive(Clone, Copy)]
pub struct Lookup {
    table: [bool; 256],
}

impl View for Lookup {
    type V = Set<u8>;

    closed spec fn view(&self) -> Set<u8> {
        Set::new(|b: u8| self.table@[b as int])
    }
}

/// Whether byte `b` lies in one of the inclusive ranges of `ranges`.
pub open spec fn in_some_range(ranges: Seq<(u8, u8)>, b: u8) -> bool {
    exists|k: int| 0 <= k < ranges.len() && (#[trigger] ranges[k]).0 <= b && b <= ranges[k].1
}

impl Lookup {
    /// The table of the empty class.
    pub fn empty() -> (t: Lookup)
        ensures
            t@ == Set::<u8>::empty(),
    {
        let t = Lookup { table: [false; 256] };
        assert(t@ =~= Set::<u8>::empty());
        t
    }

    /// Builds the table whose class is exactly the bytes listed in `members`.
    pub fn from_members(members: &[u8]) -> (t: Lookup)
        ensures
            forall|b: u8| t@.contains(b) <==> members@.contains(b),
    {
        let mut table: [bool; 256] = [false; 256];
        let mut i: usize = 0;
        while i < members.len()
            invariant
                i <= members.len(),
                forall|b: u8| #[trigger] table@[b as int] <==> members@.take(i as int).contains(b),
            decreases members.len() - i,
        {
            let m: u8 = members[i];
            let ghost before = table@;
            table[m as usize] = true;
            proof {
                let prev = members@.take(i as int);
                let next = members@.take(i + 1);
                assert(next =~= prev.push(m));
                assert forall|b: u8| #[trigger] table@[b as int] <==> next.contains(b) by {
                    if b == m {
                        assert(next[i as int] == m);
                    } else {
                        assert(table@[b as int] == before[b as int]);
                        if prev.contains(b) {
                            let j = choose|j: int| 0 <= j < prev.len() && prev[j] == b;
                            assert(next[j] == b);
                        }
                        if next.contains(b) {
                            let j = choose|j: int| 0 <= j < next.len() && next[j] == b;
                            assert(prev[j] == b);
                        }
                    }
                }
            }
            i += 1;
        }
        assert(members@.take(i as int) =~= members@);
        Lookup { table }
    }

    /// Builds the table whose class is the union of the inclusive byte
    /// ranges `(low, high)` listed in `ranges`; a pair with `low > high`
    /// contributes nothing.
    pub fn from_ranges(ranges: &[(u8, u8)]) -> (t: Lookup)
        ensures
            forall|b: u8| t@.contains(b) <==> in_some_range(ranges@, b),
    {
        let mut table: [bool; 256] = [false; 256];
        let mut i: usize = 0;
        while i < ranges.len()
            invariant
                i <= ranges.len(),
                forall|b: u8| #[trigger]
                    table@[b as int] <==> in_some_range(ranges@.take(i as int), b),
            decreases ranges.len() - i,
        {
            let (low, high) = ranges[i];
            let ghost before = table@;
            let mut b: usize = low as usize;
            while b <= high as usize
                invariant
                    low <= b <= high + 1 || (b == low && low > high),
                    forall|x: u8| #[trigger]
                        table@[x as int] <==> before[x as int] || (low <= x < b && x <= high),
                decreases high + 1 - b,
            {
                table[b] = true;
                b += 1;
            }
            proof {
                let prev = ranges@.take(i as int);
                let next = ranges@.take(i + 1);
                assert forall|x: u8| #[trigger]
                    table@[x as int] <==> in_some_range(next, x) by {
                    if low <= x && x <= high {
                        assert(next[i as int].0 <= x && x <= next[i as int].1);
                    }
                    if in_some_range(prev, x) {
                        let k = choose|k: int|
                            0 <= k < prev.len() && (#[trigger] prev[k]).0 <= x && x <= prev[k].1;
                        assert(next[k].0 <= x && x <= next[k].1);
                    }
                    if in_some_range(next, x) {
                        let k = choose|k: int|
                            0 <= k < next.len() && (#[trigger] next[k]).0 <= x && x <= next[k].1;
                        if k < i {
                            assert(prev[k].0 <= x && x <= prev[k].1);
                        }
                    }
                }
            }
            i += 1;
        }
        assert(ranges@.take(i as int) =~= ranges@);
        Lookup { table }
    }

    /// Whether `b` belongs to the class: a single table lookup.
    pub fn contains(&self, b: u8) -> (r: bool)
        ensures
            r == self@.contains(b),
    {
        self.table[b as usize]
    }
}

} // verus!
