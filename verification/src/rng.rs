//! The source of randomness for the generation algorithms: an injected
//! capability that draws uniform integers below a bound, backed either by
//! the system generator or by a scripted sequence of values, so that runs
//! can be made deterministic.
use vstd::prelude::*;

verus! {

/// Relies on `rand::Rng::gen_range` over the range `0..n`: it panics only
/// on an empty range and otherwise returns a value drawn from the range,
/// so the result is below `n`.
#[verifier::external_body]
fn system_below(n: usize) -> (r: usize)
    requires
        n >= 1,
    ensures
        r < n,
{
    rand::Rng::gen_range(&mut rand::thread_rng(), 0..n)
}

/// The value a scripted source yields for a draw below `n` at step `pos`.
pub open spec fn scripted_value(values: Seq<u64>, pos: int, n: int) -> int {
    if values.len() == 0 {
        0
    } else {
        values[pos % values.len() as int] as int % n
    }
}

/// A uniform-integer generator handed to every generation algorithm.
/// `system` draws from the process-wide generator; `scripted` cycles
/// through a fixed sequence of values, for deterministic runs and tests.
pub struct MazeRng {
    pub script: Option<Vec<u64>>,
    pub pos: usize,
}

impl MazeRng {
    /// A generator backed by the system's source of randomness.
    pub fn system() -> (r: MazeRng)
        ensures
            r.script is None,
    {
        MazeRng { script: None, pos: 0 }
    }

    /// A generator that replays `values`, cycling when they run out; an
    /// empty script always yields zero.
    pub fn scripted(values: Vec<u64>) -> (r: MazeRng)
        ensures
            r.script == Some(values),
            r.pos == 0,
    {
        MazeRng { script: Some(values), pos: 0 }
    }

    /// The next draw from `0..n`. A scripted generator yields its current
    /// value reduced modulo `n` and advances; the system generator draws
    /// uniformly. Either way the result is below `n`.
    pub fn next_below(&mut self, n: usize) -> (r: usize)
        requires
            n >= 1,
        ensures
            r < n,
            final(self).script == old(self).script,
            old(self).script is None ==> final(self).pos == old(self).pos,
            old(self).script matches Some(values) ==> if values@.len() > 0 {
                r == scripted_value(values@, old(self).pos as int, n as int) && final(self).pos
                    == (old(self).pos as int % values@.len() as int + 1) % values@.len() as int
            } else {
                r == 0 && final(self).pos == old(self).pos
            },
    {
        match &self.script {
            None => system_below(n),
            Some(values) => {
                if values.len() == 0 {
                    0
                } else {
                    let v = values[self.pos % values.len()];
                    let len = values.len();
                    let drawn = v % (n as u64);
                    assert(drawn < n as u64);
                    let r = drawn as usize;
                    let next = self.pos % len + 1;
                    self.pos = if next == len {
                        0
                    } else {
                        next
                    };
                    proof {
                        if next == len {
                            vstd::arithmetic::div_mod::lemma_mod_self_0(len as int);
                        } else {
                            vstd::arithmetic::div_mod::lemma_small_mod(next as nat, len as nat);
                        }
                    }
                    r
                }
            },
        }
    }
}

} // verus!
