//! Progress of a hashing run: how many pieces are done, out of how many, and
//! what a progress display makes of that.

use crate::bencode::{append_text, ascii, decimal, write_decimal};
use vstd::arithmetic::div_mod::{lemma_div_is_ordered, lemma_div_multiples_vanish};
use vstd::arithmetic::mul::{lemma_mul_inequality, lemma_mul_is_commutative};
use vstd::prelude::*;

verus! {

/// A progress report: `completed` pieces out of `total`. It stands for the
/// fraction `completed / total`, and for 1 where there is nothing to do.
#[derive(Debug, Clone, Copy, PartialEq, Eq)]
pub struct Progress {
    pub completed: u64,
    pub total: u64,
}

impl Progress {
    /// The report stands for the fraction 1: all pieces are done.
    pub open spec fn complete(self) -> bool {
        self.completed >= self.total
    }

    /// The fraction of `self` is at most that of `other`.
    pub open spec fn at_most(self, other: Progress) -> bool {
        if other.complete() {
            true
        } else if self.complete() {
            false
        } else {
            self.completed * other.total <= other.completed * self.total
        }
    }

    /// The fraction applied to `units`, rounded down.
    pub open spec fn scaled_to(self, units: nat) -> nat {
        if self.complete() {
            units
        } else {
            ((self.completed * units) / (self.total as int)) as nat
        }
    }

    /// Whether all pieces are done.
    pub fn is_complete(&self) -> (b: bool)
        ensures
            b == self.complete(),
    {
        self.completed >= self.total
    }

    /// The fraction applied to `units`, rounded down: the bytes hashed so far
    /// out of `units` bytes, or the pieces out of `units` pieces.
    pub fn scaled(&self, units: u64) -> (r: u64)
        ensures
            r == self.scaled_to(units as nat),
            r <= units,
    {
        if self.completed >= self.total {
            units
        } else {
            assert(self.completed * units <= 0xffff_ffff_ffff_ffff * 0xffff_ffff_ffff_ffff)
                by (nonlinear_arith)
                requires
                    self.completed <= 0xffff_ffff_ffff_ffff,
                    units <= 0xffff_ffff_ffff_ffff,
            ;
            let product: u128 = (self.completed as u128) * (units as u128);
            proof {
                let c: int = self.completed as int;
                let t: int = self.total as int;
                let u: int = units as int;
                lemma_mul_inequality(c, t, u);
                lemma_div_is_ordered(c * u, t * u, t);
                lemma_mul_is_commutative(t, u);
                lemma_div_multiples_vanish(u, t);
                assert(0 <= c * u) by (nonlinear_arith)
                    requires
                        0 <= c,
                        0 <= u,
                ;
            }
            (product / (self.total as u128)) as u64
        }
    }
}

/// Reports made one after the other never go back: with the same total, a
/// report of no fewer pieces stands for no smaller a fraction, and scales to
/// no smaller a number.
pub proof fn lemma_progress_monotonic(a: Progress, b: Progress, units: nat)
    requires
        a.total == b.total,
        a.completed <= b.completed,
    ensures
        a.at_most(b),
        a.scaled_to(units) <= b.scaled_to(units),
{
    let t: int = a.total as int;
    let u: int = units as int;
    if !b.complete() {
        assert(a.completed * b.total <= b.completed * a.total) by (nonlinear_arith)
            requires
                a.total == b.total,
                a.completed <= b.completed,
        ;
        lemma_mul_inequality(a.completed as int, b.completed as int, u);
        lemma_div_is_ordered(a.completed * u, b.completed * u, t);
    } else if !a.complete() {
        lemma_mul_inequality(a.completed as int, t, u);
        lemma_div_is_ordered(a.completed * u, t * u, t);
        lemma_mul_is_commutative(t, u);
        lemma_div_multiples_vanish(u, t);
    }
}

/// How far a progress bar has been moved.
#[derive(Debug, Clone, Copy, PartialEq, Eq)]
pub struct BarState {
    pub shown: u64,
}

impl BarState {
    /// A bar that has not moved yet.
    pub fn new() -> (bar: BarState)
        ensures
            bar.shown == 0,
    {
        BarState { shown: 0 }
    }

    /// Moves the bar to `whole` and returns by how much it has to advance. A
    /// bar never moves back: for a value below what is shown nothing changes.
    pub fn advance(&mut self, whole: u64) -> (delta: u64)
        ensures
            delta == (if whole > old(self).shown {
                whole - old(self).shown
            } else {
                0
            }),
            final(self).shown == old(self).shown + delta,
    {
        if whole > self.shown {
            let delta: u64 = whole - self.shown;
            self.shown = whole;
            delta
        } else {
            0
        }
    }
}

/// The line that a plain display shows: `Hashed <hashed> of <pieces> pieces`
/// and a carriage return.
pub open spec fn status_text(hashed: nat, pieces: nat) -> Seq<u8> {
    ascii("Hashed "@) + decimal(hashed) + ascii(" of "@) + decimal(pieces) + ascii(" pieces\r"@)
}

/// The status line for `hashed` pieces out of `pieces`.
pub fn status_line(hashed: u64, pieces: u64) -> (line: Vec<u8>)
    ensures
        line@ == status_text(hashed as nat, pieces as nat),
{
    proof {
        reveal_strlit("Hashed ");
        reveal_strlit(" of ");
        reveal_strlit(" pieces\r");
    }
    let mut line: Vec<u8> = Vec::new();
    append_text(&mut line, "Hashed ");
    write_decimal(&mut line, hashed);
    append_text(&mut line, " of ");
    write_decimal(&mut line, pieces);
    append_text(&mut line, " pieces\r");
    assert(line@ =~= status_text(hashed as nat, pieces as nat));
    line
}

} // verus!
