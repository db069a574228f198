//! Registers of the expression programs, and the counters that hand them out.
use vstd::prelude::*;

pub mod compiler;
pub mod instruction;

use self::instruction::{Inputs, NumberInput, spec_all, spec_empty};

verus! {

/// A register that holds a number.
#[derive(Debug, Copy, Clone, PartialEq, Eq, Hash, Structural)]
pub struct NumberRegister(pub usize);

/// A register that holds a color.
#[derive(Debug, Copy, Clone, PartialEq, Eq, Hash, Structural)]
pub struct RgbRegister(pub usize);

/// A register that holds a vector.
#[derive(Debug, Copy, Clone, PartialEq, Eq, Hash, Structural)]
pub struct VectorRegister(pub usize);

/// Registers that are numbered from zero up.
pub trait RegisterIndex: Copy + Sized {
    /// The number of the register.
    spec fn spec_index(&self) -> int;

    /// The register numbered zero.
    fn first() -> (r: Self)
        ensures
            r.spec_index() == 0,
    ;

    /// The register after this one.
    fn next(&self) -> (r: Self)
        requires
            0 <= self.spec_index() < usize::MAX,
        ensures
            r.spec_index() == self.spec_index() + 1,
    ;

    /// The number of the register.
    fn index(&self) -> (r: usize)
        ensures
            r == self.spec_index(),
    ;
}

impl RegisterIndex for NumberRegister {
    open spec fn spec_index(&self) -> int {
        self.0 as int
    }

    fn first() -> (r: Self) {
        NumberRegister(0)
    }

    fn next(&self) -> (r: Self) {
        NumberRegister(self.0 + 1)
    }

    fn index(&self) -> (r: usize) {
        self.0
    }
}

impl RegisterIndex for VectorRegister {
    open spec fn spec_index(&self) -> int {
        self.0 as int
    }

    fn first() -> (r: Self) {
        VectorRegister(0)
    }

    fn next(&self) -> (r: Self) {
        VectorRegister(self.0 + 1)
    }

    fn index(&self) -> (r: usize) {
        self.0
    }
}

impl RegisterIndex for RgbRegister {
    open spec fn spec_index(&self) -> int {
        self.0 as int
    }

    fn first() -> (r: Self) {
        RgbRegister(0)
    }

    fn next(&self) -> (r: Self) {
        RgbRegister(self.0 + 1)
    }

    fn index(&self) -> (r: usize) {
        self.0
    }
}

/// Hands out registers of one kind, each one once, in order.
pub struct RegisterCounter<R> {
    next: R,
}

impl<R: RegisterIndex> RegisterCounter<R> {
    /// How many registers have been handed out.
    pub closed spec fn handed_out(&self) -> int {
        self.next.spec_index()
    }

    /// A counter that has handed out nothing.
    pub fn new() -> (c: Self)
        ensures
            c.handed_out() == 0,
    {
        RegisterCounter { next: R::first() }
    }

    /// The next unused register.
    pub fn next(&mut self) -> (r: R)
        requires
            0 <= old(self).handed_out() < usize::MAX,
        ensures
            r.spec_index() == old(self).handed_out(),
            final(self).handed_out() == old(self).handed_out() + 1,
    {
        let current = self.next;
        self.next = current.next();
        current
    }

    /// How many registers have been handed out.
    pub fn count(&self) -> (n: usize)
        ensures
            n == self.handed_out(),
    {
        self.next.index()
    }
}

/// Where a program runs, which decides the inputs it can read.
#[derive(Debug, Copy, Clone, PartialEq, Eq, Structural)]
pub enum ProgramContext {
    /// Shading a surface point while rendering: every input is there.
    Render,
    /// Choosing between the components of a material: every input is there.
    Probability,
    /// Mapping a surface normal: the surface is there, the wavelength is not.
    NormalMapping,
    /// Sampling a constant spectrum: only the wavelength is there.
    SpectrumSampling,
}

/// The inputs that a program can read in `context`.
pub open spec fn context_inputs(context: ProgramContext) -> Inputs {
    match context {
        ProgramContext::Render | ProgramContext::Probability => spec_all(),
        ProgramContext::NormalMapping => Inputs { wavelength: false, ..spec_all() },
        ProgramContext::SpectrumSampling => Inputs { wavelength: true, ..spec_empty() },
    }
}

impl ProgramContext {
    /// The inputs that a program can read here.
    pub fn inputs(self) -> (r: Inputs)
        ensures
            r == context_inputs(self),
    {
        match self {
            ProgramContext::Render | ProgramContext::Probability => Inputs::all(),
            ProgramContext::NormalMapping => Inputs {
                wavelength: false,
                normal: true,
                incident: true,
                texture_coordinates: true,
            },
            ProgramContext::SpectrumSampling => Inputs::from_number(NumberInput::Wavelength),
        }
    }
}

} // verus!
