//! A circuit: an ordered sequence of gates applied left to right.

use crate::complex::Complex;
use crate::error::QuantumError;
use crate::gates::{apply_spec, Gate};
use crate::qubit::Qubit;
use vstd::prelude::*;

verus! {

/// A sequence of gates; insertion order is application order.
#[derive(Debug)]
pub struct Circuit {
    pub gates: Vec<Gate>,
}

/// What running the gates in order from state `s` yields: each gate's
/// output feeds the next gate; the first failure stops the run.
pub open spec fn run_spec(gates: Seq<Gate>, s: Seq<Complex>) -> Result<
    Seq<Complex>,
    QuantumError,
>
    decreases gates.len(),
{
    if gates.len() == 0 {
        Ok(s)
    } else {
        match apply_spec(gates[0], s) {
            Ok(t) => run_spec(gates.drop_first(), t),
            Err(e) => Err(e),
        }
    }
}

impl Circuit {
    /// Every gate of the circuit is well formed.
    pub open spec fn wf(&self) -> bool {
        forall|i: int| 0 <= i < self.gates@.len() ==> (#[trigger] self.gates@[i]).wf()
    }

    /// Creates an empty circuit.
    pub fn new() -> (c: Circuit)
        ensures
            c.gates@.len() == 0,
            c.wf(),
    {
        Circuit { gates: Vec::new() }
    }

    /// Appends a gate; no dimensional check happens here, only at run
    /// time.
    pub fn add_gate(&mut self, gate: Gate)
        requires
            old(self).wf(),
            gate.wf(),
        ensures
            final(self).gates@ == old(self).gates@.push(gate),
            final(self).wf(),
    {
        self.gates.push(gate);
    }

    /// Runs the circuit: applies every gate to the state in insertion
    /// order, each output feeding the next gate.  On failure the state
    /// keeps the amplitudes it had after the gates before the failing
    /// one.
    #[verifier::loop_isolation(false)]
    pub fn run(&self, qubit: &mut Qubit) -> (r: Result<(), QuantumError>)
        requires
            self.wf(),
        ensures
            run_spec(self.gates@, old(qubit).state@) is Ok ==> r is Ok && final(qubit).state@
                == run_spec(self.gates@, old(qubit).state@)->Ok_0,
            run_spec(self.gates@, old(qubit).state@) is Err ==> r is Err && r->Err_0 == run_spec(
                self.gates@,
                old(qubit).state@,
            )->Err_0,
            run_spec(self.gates@, old(qubit).state@) is Err ==> exists|k: int|
                0 <= k < self.gates@.len() && #[trigger] run_spec(
                    self.gates@.take(k),
                    old(qubit).state@,
                ) == Ok::<Seq<Complex>, QuantumError>(final(qubit).state@) && apply_spec(
                    self.gates@[k],
                    final(qubit).state@,
                ) is Err,
    {
        let ghost s0 = qubit.state@;
        let n = self.gates.len();
        let mut k: usize = 0;
        while k < n
            invariant
                k <= n,
                n == self.gates@.len(),
                self.wf(),
                run_spec(self.gates@.take(k as int), s0) == Ok::<Seq<Complex>, QuantumError>(
                    qubit.state@,
                ),
            decreases n - k,
        {
            let gate = &self.gates[k];
            let ghost before = qubit.state@;
            let res = gate.apply(qubit);
            proof {
                lemma_run_spec_take_step(self.gates@, s0, k as int);
            }
            match res {
                Ok(()) => {},
                Err(e) => {
                    proof {
                        lemma_run_spec_err_extend(self.gates@, s0, k as int + 1);
                    }
                    return Err(e);
                },
            }
            k = k + 1;
        }
        proof {
            assert(self.gates@.take(n as int) =~= self.gates@);
        }
        Ok(())
    }
}

/// Unfolds one step of `run_spec` along a growing prefix: the result for
/// the first k + 1 gates is the result of applying gate k to the result
/// for the first k gates.
proof fn lemma_run_spec_take_step(gates: Seq<Gate>, s: Seq<Complex>, k: int)
    requires
        0 <= k < gates.len(),
        run_spec(gates.take(k), s) is Ok,
    ensures
        run_spec(gates.take(k + 1), s) == apply_spec(gates[k], run_spec(gates.take(k), s)->Ok_0),
    decreases k,
{
    reveal_with_fuel(run_spec, 3);
    let p = gates.take(k);
    let q = gates.take(k + 1);
    if k == 0 {
        assert(q.len() == 1);
        assert(q[0] == gates[0]);
        assert(q.drop_first() =~= Seq::<Gate>::empty());
        assert(p =~= Seq::<Gate>::empty());
    } else {
        assert(p.drop_first() =~= gates.drop_first().take(k - 1));
        assert(q.drop_first() =~= gates.drop_first().take(k));
        assert(p[0] == gates[0]);
        assert(q[0] == gates[0]);
        match apply_spec(gates[0], s) {
            Ok(t) => {
                lemma_run_spec_take_step(gates.drop_first(), t, k - 1);
                assert(gates.drop_first()[k - 1] == gates[k]);
            },
            Err(e) => {},
        }
    }
}

/// A failure on a prefix of the gates is the result of the whole run.
proof fn lemma_run_spec_err_extend(gates: Seq<Gate>, s: Seq<Complex>, m: int)
    requires
        0 <= m <= gates.len(),
        run_spec(gates.take(m), s) is Err,
    ensures
        run_spec(gates, s) == run_spec(gates.take(m), s),
    decreases gates.len(),
{
    assert(m != 0) by {
        if m == 0 {
            assert(gates.take(0) =~= Seq::<Gate>::empty());
        }
    }
    let p = gates.take(m);
    assert(p[0] == gates[0]);
    match apply_spec(gates[0], s) {
        Ok(t) => {
            assert(p.drop_first() =~= gates.drop_first().take(m - 1));
            lemma_run_spec_err_extend(gates.drop_first(), t, m - 1);
        },
        Err(e) => {},
    }
}

impl Default for Circuit {
    /// The default circuit is empty.
    fn default() -> (c: Circuit)
        ensures
            c.gates@.len() == 0,
            c.wf(),
    {
        Circuit::new()
    }
}

} // verus!
