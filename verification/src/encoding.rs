//! Encodings: the artifacts of the enumeration.

use crate::error::Error;
use crate::filter::{filter_matches, filter_views, is_filter, ByteFilter, Filter};
use crate::instruction::{is_instruction, Instruction};
use vstd::prelude::*;

verus! {

/// What an encoding declares of one of its outputs.
#[derive(Clone, Copy, Debug, PartialEq, Eq, Structural)]
pub struct Output {
    /// The number of inputs that the output is computed from.
    pub num_inputs: usize,
    /// Whether the output is a memory access.
    pub memory_access: bool,
}

/// What an encoding holds, as plain values.
pub struct EncodingView {
    /// The instruction that stands for the class.
    pub instr: Seq<u8>,
    /// The instruction of the class that was analysed best.
    pub best_instr: Seq<u8>,
    /// The filters that together match the class.
    pub filters: Seq<Seq<ByteFilter>>,
    /// The declared outputs.
    pub outputs: Seq<Output>,
}

impl EncodingView {
    /// The instructions are instructions, there is at least one filter, and
    /// each filter has the shape of one and matches the instruction that
    /// stands for the class.
    pub open spec fn wf(self) -> bool {
        &&& is_instruction(self.instr)
        &&& is_instruction(self.best_instr)
        &&& self.filters.len() >= 1
        &&& forall|i: int|
            0 <= i < self.filters.len() ==> is_filter(#[trigger] self.filters[i]) && filter_matches(
                self.filters[i],
                self.instr,
            )
    }
}

/// The number of outputs among the first `n` of `outputs` that are memory
/// accesses.
pub open spec fn memory_accesses(outputs: Seq<Output>, n: int) -> nat
    decreases n,
{
    if n <= 0 {
        0
    } else {
        memory_accesses(outputs, n - 1) + if outputs[n - 1].memory_access {
            1nat
        } else {
            0nat
        }
    }
}

/// The largest number of inputs of one of the first `n` outputs, or zero
/// where there is none.
pub open spec fn most_inputs(outputs: Seq<Output>, n: int) -> usize
    decreases n,
{
    if n <= 0 {
        0
    } else {
        let before = most_inputs(outputs, n - 1);
        if outputs[n - 1].num_inputs > before {
            outputs[n - 1].num_inputs
        } else {
            before
        }
    }
}

/// The classification of one class of instructions that behave alike.
#[derive(Debug)]
pub struct Encoding {
    instr: Instruction,
    best_instr: Instruction,
    filters: Vec<Filter>,
    outputs: Vec<Output>,
}

impl View for Encoding {
    type V = EncodingView;

    closed spec fn view(&self) -> EncodingView {
        EncodingView {
            instr: self.instr@,
            best_instr: self.best_instr@,
            filters: filter_views(self.filters@),
            outputs: self.outputs@,
        }
    }
}

impl Clone for Encoding {
    fn clone(&self) -> (copy: Self)
        ensures
            copy@ == self@,
    {
        let mut filters: Vec<Filter> = Vec::new();
        let n: usize = self.filters.len();
        let mut i: usize = 0;
        while i < n
            invariant
                n == self.filters.len(),
                i <= n,
                filters.len() == i,
                forall|j: int| 0 <= j < i ==> filters[j]@ == self.filters[j]@,
            decreases n - i,
        {
            filters.push(self.filters[i].clone());
            i += 1;
        }
        let mut outputs: Vec<Output> = Vec::new();
        let m: usize = self.outputs.len();
        let mut k: usize = 0;
        while k < m
            invariant
                m == self.outputs.len(),
                k <= m,
                outputs.len() == k,
                forall|j: int| 0 <= j < k ==> outputs[j] == self.outputs[j],
            decreases m - k,
        {
            outputs.push(self.outputs[k]);
            k += 1;
        }
        let copy = Encoding {
            instr: self.instr.clone(),
            best_instr: self.best_instr.clone(),
            filters,
            outputs,
        };
        assert(copy@.filters =~= self@.filters);
        assert(copy@.outputs =~= self@.outputs);
        copy
    }
}

/// The encodings of `v` as plain values.
pub open spec fn encoding_views(v: Seq<Encoding>) -> Seq<EncodingView> {
    Seq::new(v.len(), |i: int| v[i]@)
}

impl Encoding {
    /// The encoding is well formed.
    pub open spec fn wf(&self) -> bool {
        self@.wf()
    }

    /// The encoding with the given parts. It is refused with `NoFilters`
    /// where there is no filter, and with `FilterMismatch` where there are
    /// filters and one of them does not match `instr`.
    pub fn new(
        instr: Instruction,
        best_instr: Instruction,
        filters: Vec<Filter>,
        outputs: Vec<Output>,
    ) -> (made: Result<Encoding, Error>)
        requires
            instr.wf(),
            best_instr.wf(),
            forall|i: int| 0 <= i < filters@.len() ==> (#[trigger] filters@[i]).wf(),
        ensures
            match made {
                Ok(encoding) => {
                    &&& encoding.wf()
                    &&& encoding@ == (EncodingView {
                        instr: instr@,
                        best_instr: best_instr@,
                        filters: filter_views(filters@),
                        outputs: outputs@,
                    })
                },
                Err(e) => if filters@.len() == 0 {
                    e == Error::NoFilters
                } else {
                    &&& e == Error::FilterMismatch
                    &&& exists|i: int|
                        0 <= i < filters@.len() && !filter_matches((#[trigger] filters@[i])@, instr@)
                },
            },
    {
        let n: usize = filters.len();
        if n == 0 {
            return Err(Error::NoFilters);
        }
        let mut i: usize = 0;
        while i < n
            invariant
                n == filters.len(),
                i <= n,
                forall|j: int| 0 <= j < i ==> filter_matches((#[trigger] filters@[j])@, instr@),
            decreases n - i,
        {
            if !filters[i].matches(&instr) {
                return Err(Error::FilterMismatch);
            }
            i += 1;
        }
        let encoding = Encoding { instr, best_instr, filters, outputs };
        proof {
            assert forall|j: int| 0 <= j < encoding@.filters.len() implies is_filter(
                #[trigger] encoding@.filters[j],
            ) && filter_matches(encoding@.filters[j], encoding@.instr) by {
                assert(filters@[j].wf());
                assert(filter_matches(filters@[j]@, instr@));
            }
        }
        Ok(encoding)
    }

    /// The instruction that stands for the class.
    pub fn instr(&self) -> (instr: &Instruction)
        ensures
            instr@ == self@.instr,
            self.wf() ==> instr.wf(),
    {
        &self.instr
    }

    /// The instruction of the class that was analysed best.
    pub fn best_instr(&self) -> (instr: &Instruction)
        ensures
            instr@ == self@.best_instr,
            self.wf() ==> instr.wf(),
    {
        &self.best_instr
    }

    /// The filters.
    pub fn filters(&self) -> (filters: &Vec<Filter>)
        ensures
            filter_views(filters@) == self@.filters,
            self.wf() ==> forall|i: int| 0 <= i < filters@.len() ==> (#[trigger] filters@[i]).wf(),
    {
        proof {
            if self.wf() {
                assert forall|i: int| 0 <= i < self.filters@.len() implies (
                #[trigger] self.filters@[i]).wf() by {
                    assert(is_filter(self@.filters[i]));
                }
            }
        }
        &self.filters
    }

    /// The declared outputs.
    pub fn outputs(&self) -> (outputs: &Vec<Output>)
        ensures
            outputs@ == self@.outputs,
    {
        &self.outputs
    }

    /// The number of outputs that are memory accesses.
    pub fn num_memory_accesses(&self) -> (n: usize)
        ensures
            n == memory_accesses(self@.outputs, self@.outputs.len() as int),
    {
        let total: usize = self.outputs.len();
        let mut n: usize = 0;
        let mut i: usize = 0;
        while i < total
            invariant
                total == self.outputs.len(),
                i <= total,
                n <= i,
                n == memory_accesses(self.outputs@, i as int),
            decreases total - i,
        {
            if self.outputs[i].memory_access {
                n += 1;
            }
            i += 1;
        }
        n
    }

    /// The largest number of inputs of an output, or zero where there is no
    /// output.
    pub fn max_inputs(&self) -> (m: usize)
        ensures
            m == most_inputs(self@.outputs, self@.outputs.len() as int),
    {
        let total: usize = self.outputs.len();
        let mut m: usize = 0;
        let mut i: usize = 0;
        while i < total
            invariant
                total == self.outputs.len(),
                i <= total,
                m == most_inputs(self.outputs@, i as int),
            decreases total - i,
        {
            if self.outputs[i].num_inputs > m {
                m = self.outputs[i].num_inputs;
            }
            i += 1;
        }
        m
    }
}

} // verus!
