use vstd::prelude::*;

verus! {

/// A witness: the index of a variable of a circuit.
#[derive(Clone, Copy, Debug, PartialEq, Eq, Hash, Structural)]
pub struct Witness(pub u32);

impl Witness {
    pub fn witness_index(&self) -> (r: u32)
        ensures
            r == self.0,
    {
        self.0
    }
}

/// The witnesses of a circuit that are public inputs.
#[derive(Clone, Debug)]
pub struct PublicInputs(pub Vec<Witness>);

/// A circuit: the highest witness index in use and its public inputs.
#[derive(Clone, Debug)]
pub struct Circuit {
    pub current_witness_index: u32,
    pub public_inputs: PublicInputs,
}

impl Circuit {
    /// The number of variables: witness indices run from zero to the current one.
    pub fn num_vars(&self) -> (r: u32)
        requires
            self.current_witness_index < u32::MAX,
        ensures
            r == self.current_witness_index + 1,
    {
        self.current_witness_index + 1
    }
}

impl PublicInputs {
    /// The witness index of each public input, in order.
    pub fn indices(&self) -> (r: Vec<u32>)
        ensures
            r@.len() == self.0@.len(),
            forall|i: int| 0 <= i < r@.len() ==> #[trigger] r@[i] == self.0@[i].0,
    {
        let mut r: Vec<u32> = Vec::new();
        let mut i: usize = 0;
        while i < self.0.len()
            invariant
                i <= self.0@.len(),
                r@.len() == i,
                forall|j: int| 0 <= j < i ==> #[trigger] r@[j] == self.0@[j].0,
            decreases self.0@.len() - i,
        {
            r.push(self.0[i].witness_index());
            i = i + 1;
        }
        r
    }

    /// Whether some public input has witness index `index`, taken modulo 2^32.
    pub fn contains(&self, index: usize) -> (r: bool)
        ensures
            r == self.0@.contains(Witness(#[verifier::truncate] (index as u32))),
    {
        let w = Witness(#[verifier::truncate] (index as u32));
        let mut i: usize = 0;
        while i < self.0.len()
            invariant
                i <= self.0@.len(),
                w == Witness(#[verifier::truncate] (index as u32)),
                forall|j: int| 0 <= j < i ==> self.0@[j] != w,
            decreases self.0@.len() - i,
        {
            if self.0[i] == w {
                assert(self.0@[i as int] == w);
                return true;
            }
            i = i + 1;
        }
        false
    }
}

} // verus!
