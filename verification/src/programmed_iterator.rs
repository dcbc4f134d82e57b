use vstd::prelude::*;
use crate::board::{Board, gidx};

verus! {

/// A restartable walk over a fixed program of 81 cell indices, nine at a
/// time: each step yields the indices of one row, column or box.
#[derive(Clone, PartialEq, Eq, Debug)]
pub struct ProgrammedIterator {
    pub program: Vec<usize>,
    pub position: usize,
}

impl ProgrammedIterator {
    /// A walk over the given index program, starting at its beginning.
    pub fn new(program: Vec<usize>) -> (r: Self)
        ensures
            r.program@ == program@,
            r.position == 0,
    {
        Self { program, position: 0 }
    }

    /// The next nine indices of the program, or `None` once it is spent.
    pub fn next_group(&mut self) -> (r: Option<Vec<usize>>)
        ensures
            final(self).program@ == old(self).program@,
            old(self).position + 9 <= old(self).program@.len() ==> final(self).position == old(
                self,
            ).position + 9 && (r matches Some(v) && v@ == old(self).program@.subrange(
                old(self).position as int,
                old(self).position as int + 9,
            )),
            old(self).position + 9 > old(self).program@.len() ==> r is None && final(self).position
                == old(self).position,
    {
        let n = self.program.len();
        if self.position <= n && n - self.position >= 9 {
            let mut out: Vec<usize> = Vec::new();
            let mut i: usize = 0;
            while i < 9
                invariant
                    0 <= i <= 9,
                    self.position + 9 <= self.program@.len(),
                    self.program@.len() <= usize::MAX,
                    out@.len() == i,
                    forall|i0: int|
                        0 <= i0 < i ==> #[trigger] out@[i0] == self.program@[self.position + i0],
                decreases 9 - i,
            {
                out.push(self.program[self.position + i]);
                i = i + 1;
            }
            proof {
                assert(out@ =~= self.program@.subrange(
                    self.position as int,
                    self.position as int + 9,
                ));
            }
            self.position = self.position + 9;
            Some(out)
        } else {
            None
        }
    }
}

/// The index program of one group kind: the 81 cell indices, group by group.
fn build_program(k: u32) -> (r: Vec<usize>)
    requires
        k < 3,
    ensures
        r@.len() == 81,
        forall|n: int| 0 <= n < 81 ==> (#[trigger] r@[n]) as int == gidx(k as int, n / 9, n % 9),
{
    let mut out: Vec<usize> = Vec::new();
    let mut g: usize = 0;
    while g < 9
        invariant
            0 <= g <= 9,
            k < 3,
            out@.len() == g * 9,
            forall|n: int| 0 <= n < g * 9 ==> (#[trigger] out@[n]) as int == gidx(
                k as int,
                n / 9,
                n % 9,
            ),
        decreases 9 - g,
    {
        let mut i: usize = 0;
        while i < 9
            invariant
                0 <= g < 9,
                0 <= i <= 9,
                k < 3,
                out@.len() == g * 9 + i,
                forall|n: int| 0 <= n < g * 9 + i ==> (#[trigger] out@[n]) as int == gidx(
                    k as int,
                    n / 9,
                    n % 9,
                ),
            decreases 9 - i,
        {
            let idx = crate::board::group_index(k, g, i);
            out.push(idx);
            proof {
                let n = g * 9 + i;
                vstd::arithmetic::div_mod::lemma_fundamental_div_mod_converse(
                    n as int,
                    9,
                    g as int,
                    i as int,
                );
                assert(out@[n as int] as int == gidx(k as int, n as int / 9, n as int % 9));
            }
            i = i + 1;
        }
        g = g + 1;
    }
    out
}

impl Board {
    /// A walk over the nine rows: each step yields one row's cell indices.
    pub fn rows(&self) -> (r: ProgrammedIterator)
        ensures
            r.position == 0,
            r.program@.len() == 81,
            forall|n: int| 0 <= n < 81 ==> (#[trigger] r.program@[n]) as int == gidx(
                0,
                n / 9,
                n % 9,
            ),
    {
        ProgrammedIterator::new(build_program(0))
    }

    /// A walk over the nine columns: each step yields one column's indices.
    pub fn cols(&self) -> (r: ProgrammedIterator)
        ensures
            r.position == 0,
            r.program@.len() == 81,
            forall|n: int| 0 <= n < 81 ==> (#[trigger] r.program@[n]) as int == gidx(
                1,
                n / 9,
                n % 9,
            ),
    {
        ProgrammedIterator::new(build_program(1))
    }

    /// A walk over the nine boxes: each step yields one box's cell indices.
    pub fn boxes(&self) -> (r: ProgrammedIterator)
        ensures
            r.position == 0,
            r.program@.len() == 81,
            forall|n: int| 0 <= n < 81 ==> (#[trigger] r.program@[n]) as int == gidx(
                2,
                n / 9,
                n % 9,
            ),
    {
        ProgrammedIterator::new(build_program(2))
    }
}

} // verus!
