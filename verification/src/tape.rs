//! The machine's memory: a fixed-capacity array of byte cells.

use vstd::prelude::*;

verus! {

/// Number of cells on the tape.
pub const TAPE_LEN: usize = 30000;

/// Fixed-capacity, zero-initialized array of 8-bit cells, addressed by the
/// machine's cursor.
pub struct Tape(Vec<u8>);

impl View for Tape {
    type V = Seq<u8>;

    closed spec fn view(&self) -> Seq<u8> {
        self.0@
    }
}

impl Default for Tape {
    /// A fresh tape: `TAPE_LEN` cells, all zero.
    fn default() -> (t: Tape)
        ensures
            t@.len() == TAPE_LEN,
            forall|i: int| 0 <= i < TAPE_LEN ==> t@[i] == 0u8,
    {
        let mut cells: Vec<u8> = Vec::new();
        let mut i: usize = 0;
        while i < TAPE_LEN
            invariant
                i <= TAPE_LEN,
                cells@.len() == i,
                forall|j: int| 0 <= j < i ==> cells@[j] == 0u8,
            decreases TAPE_LEN - i,
        {
            cells.push(0u8);
            i = i + 1;
        }
        Tape(cells)
    }
}

impl Tape {
    /// The number of cells.
    pub fn len(&self) -> (n: usize)
        ensures
            n == self@.len(),
    {
        self.0.len()
    }

    /// The cell at `idx`, or `None` outside the tape.
    pub fn get(&self, idx: usize) -> (r: Option<u8>)
        ensures
            r == if idx < self@.len() {
                Some(self@[idx as int])
            } else {
                None::<u8>
            },
    {
        if idx < self.0.len() {
            Some(self.0[idx])
        } else {
            None
        }
    }

    /// Writes `val` into the cell at `idx` and reports whether `idx` was on
    /// the tape. (A returned mutable borrow lies outside the verifier's
    /// model, so the new cell value is taken as an argument instead.)
    pub fn get_mut(&mut self, idx: usize, val: u8) -> (ok: bool)
        ensures
            ok == (idx < old(self)@.len()),
            final(self)@ == if idx < old(self)@.len() {
                old(self)@.update(idx as int, val)
            } else {
                old(self)@
            },
    {
        if idx < self.0.len() {
            self.0.set(idx, val);
            true
        } else {
            false
        }
    }

    /// The cell at `idx`, which must be on the tape.
    pub fn read(&self, idx: usize) -> (r: u8)
        requires
            idx < self@.len(),
        ensures
            r == self@[idx as int],
    {
        self.0[idx]
    }

    /// Writes `val` into the cell at `idx`, which must be on the tape.
    pub fn write(&mut self, idx: usize, val: u8)
        requires
            idx < old(self)@.len(),
        ensures
            final(self)@ == old(self)@.update(idx as int, val),
    {
        self.0.set(idx, val);
    }
}

} // verus!
