//! The instructions of compiled expression programs, and the registers they read and write.
use vstd::prelude::*;

use super::{NumberRegister, RgbRegister, VectorRegister};
use crate::project::{BinaryOperator, ColorTextureId, MonoTextureId, SpectrumId};

verus! {

/// A number constant of a program, as the bits of a 32 bit float. Programs only carry
/// constants from the expressions into their instructions.
#[derive(Debug, Copy, Clone, PartialEq, Eq, Structural)]
pub struct Constant(pub u32);

/// The numbers that a program can read from where it runs.
#[derive(Debug, Copy, Clone, PartialEq, Eq, Structural)]
pub enum NumberInput {
    Wavelength,
}

/// The vectors that a program can read from where it runs.
#[derive(Debug, Copy, Clone, PartialEq, Eq, Structural)]
pub enum VectorInput {
    Normal,
    Incident,
    TextureCoordinates,
}

/// A set of inputs: those that an instruction's result depends on.
#[derive(Debug, Copy, Clone, PartialEq, Eq, Structural)]
pub struct Inputs {
    pub wavelength: bool,
    pub normal: bool,
    pub incident: bool,
    pub texture_coordinates: bool,
}

/// Every input of `a` is one of `b`.
pub open spec fn subset(a: Inputs, b: Inputs) -> bool {
    &&& a.wavelength ==> b.wavelength
    &&& a.normal ==> b.normal
    &&& a.incident ==> b.incident
    &&& a.texture_coordinates ==> b.texture_coordinates
}

pub open spec fn spec_union(a: Inputs, b: Inputs) -> Inputs {
    Inputs {
        wavelength: a.wavelength || b.wavelength,
        normal: a.normal || b.normal,
        incident: a.incident || b.incident,
        texture_coordinates: a.texture_coordinates || b.texture_coordinates,
    }
}

pub open spec fn spec_empty() -> Inputs {
    Inputs { wavelength: false, normal: false, incident: false, texture_coordinates: false }
}

pub open spec fn spec_all() -> Inputs {
    Inputs { wavelength: true, normal: true, incident: true, texture_coordinates: true }
}

pub open spec fn spec_intersects(a: Inputs, b: Inputs) -> bool {
    ||| a.wavelength && b.wavelength
    ||| a.normal && b.normal
    ||| a.incident && b.incident
    ||| a.texture_coordinates && b.texture_coordinates
}

pub open spec fn number_input_set(i: NumberInput) -> Inputs {
    match i {
        NumberInput::Wavelength => Inputs { wavelength: true, ..spec_empty() },
    }
}

pub open spec fn vector_input_set(i: VectorInput) -> Inputs {
    match i {
        VectorInput::Normal => Inputs { normal: true, ..spec_empty() },
        VectorInput::Incident => Inputs { incident: true, ..spec_empty() },
        VectorInput::TextureCoordinates => Inputs { texture_coordinates: true, ..spec_empty() },
    }
}

impl Inputs {
    /// No inputs.
    pub fn empty() -> (r: Inputs)
        ensures
            r == spec_empty(),
    {
        Inputs { wavelength: false, normal: false, incident: false, texture_coordinates: false }
    }

    /// The inputs of either set.
    pub fn union(self, other: Inputs) -> (r: Inputs)
        ensures
            r == spec_union(self, other),
    {
        Inputs {
            wavelength: self.wavelength || other.wavelength,
            normal: self.normal || other.normal,
            incident: self.incident || other.incident,
            texture_coordinates: self.texture_coordinates || other.texture_coordinates,
        }
    }

    /// Every input.
    pub fn all() -> (r: Inputs)
        ensures
            r == spec_all(),
    {
        Inputs { wavelength: true, normal: true, incident: true, texture_coordinates: true }
    }

    /// Whether the set holds no input.
    pub fn is_empty(&self) -> (r: bool)
        ensures
            r == (*self == spec_empty()),
    {
        !self.wavelength && !self.normal && !self.incident && !self.texture_coordinates
    }

    /// Whether the sets share an input.
    pub fn intersects(&self, other: Inputs) -> (r: bool)
        ensures
            r == spec_intersects(*self, other),
    {
        (self.wavelength && other.wavelength) || (self.normal && other.normal) || (self.incident && other.incident)
            || (self.texture_coordinates && other.texture_coordinates)
    }

    /// The set of one number input.
    pub fn from_number(input: NumberInput) -> (r: Inputs)
        ensures
            r == number_input_set(input),
    {
        match input {
            NumberInput::Wavelength => Inputs { wavelength: true, normal: false, incident: false, texture_coordinates: false },
        }
    }

    /// The set of one vector input.
    pub fn from_vector(input: VectorInput) -> (r: Inputs)
        ensures
            r == vector_input_set(input),
    {
        match input {
            VectorInput::Normal => Inputs { wavelength: false, normal: true, incident: false, texture_coordinates: false },
            VectorInput::Incident => Inputs { wavelength: false, normal: false, incident: true, texture_coordinates: false },
            VectorInput::TextureCoordinates => Inputs {
                wavelength: false,
                normal: false,
                incident: false,
                texture_coordinates: true,
            },
        }
    }
}

/// The kinds of values in registers, and the kind that a binary operation works on.
#[derive(Debug, Copy, Clone, PartialEq, Eq, Structural)]
pub enum BinaryValueType {
    Number,
    Vector,
    Rgb,
}

/// A number operand: a constant, an input or a number register.
#[derive(Debug, Copy, Clone, PartialEq, Eq, Structural)]
pub enum NumberValue {
    Constant(Constant),
    Input(NumberInput),
    Register(NumberRegister),
}

/// A vector operand.
#[derive(Debug, Copy, Clone, PartialEq, Eq, Structural)]
pub enum VectorValue {
    Input(VectorInput),
}

/// A change of a value from one kind of register to another.
#[derive(Debug, Copy, Clone, PartialEq, Eq, Structural)]
pub enum ValueConversion {
    RgbToVector { source: RgbRegister, output: VectorRegister },
}

/// What an instruction computes, from which operands, into which register.
#[derive(Debug, Copy, Clone, PartialEq, Eq, Structural)]
pub enum InstructionType {
    NumberValue { number: Constant, output: NumberRegister },
    VectorValue { x: NumberValue, y: NumberValue, z: NumberValue, w: NumberValue, output: VectorRegister },
    RgbValue { red: NumberValue, green: NumberValue, blue: NumberValue, output: RgbRegister },
    SpectrumValue { wavelength: NumberValue, spectrum: SpectrumId, output: NumberRegister },
    ColorTextureValue { texture_coordinates: VectorValue, texture: ColorTextureId, output: RgbRegister },
    MonoTextureValue { texture_coordinates: VectorValue, texture: MonoTextureId, output: NumberRegister },
    RgbSpectrumValue { wavelength: NumberValue, source: RgbRegister, output: NumberRegister },
    Fresnel {
        ior: NumberValue,
        env_ior: NumberValue,
        normal: VectorValue,
        incident: VectorValue,
        output: NumberRegister,
    },
    Blackbody { wavelength: NumberValue, temperature: NumberValue, output: NumberRegister },
    Convert { conversion: ValueConversion },
    Binary { value_type: BinaryValueType, operator: BinaryOperator, lhs: usize, rhs: usize, output: usize },
    Mix { value_type: BinaryValueType, lhs: usize, rhs: usize, amount: NumberValue, output: usize },
    Clamp { value: NumberValue, min: NumberValue, max: NumberValue, output: NumberRegister },
}

/// An instruction, with the inputs that its result depends on.
#[derive(Debug, Copy, Clone, PartialEq, Eq, Structural)]
pub struct Instruction {
    pub instruction_type: InstructionType,
    pub dependencies: Inputs,
}

/// The kind and number of the register that an instruction writes.
pub open spec fn written(t: InstructionType) -> (BinaryValueType, int) {
    match t {
        InstructionType::NumberValue { output, .. } => (BinaryValueType::Number, output.0 as int),
        InstructionType::VectorValue { output, .. } => (BinaryValueType::Vector, output.0 as int),
        InstructionType::RgbValue { output, .. } => (BinaryValueType::Rgb, output.0 as int),
        InstructionType::SpectrumValue { output, .. } => (BinaryValueType::Number, output.0 as int),
        InstructionType::ColorTextureValue { output, .. } => (BinaryValueType::Rgb, output.0 as int),
        InstructionType::MonoTextureValue { output, .. } => (BinaryValueType::Number, output.0 as int),
        InstructionType::RgbSpectrumValue { output, .. } => (BinaryValueType::Number, output.0 as int),
        InstructionType::Fresnel { output, .. } => (BinaryValueType::Number, output.0 as int),
        InstructionType::Blackbody { output, .. } => (BinaryValueType::Number, output.0 as int),
        InstructionType::Convert { conversion: ValueConversion::RgbToVector { output, .. } } => (
            BinaryValueType::Vector,
            output.0 as int,
        ),
        InstructionType::Binary { value_type, output, .. } => (value_type, output as int),
        InstructionType::Mix { value_type, output, .. } => (value_type, output as int),
        InstructionType::Clamp { output, .. } => (BinaryValueType::Number, output.0 as int),
    }
}

/// The registers that a number operand reads.
pub open spec fn number_reads(v: NumberValue) -> Seq<(BinaryValueType, int)> {
    match v {
        NumberValue::Register(r) => seq![(BinaryValueType::Number, r.0 as int)],
        _ => Seq::empty(),
    }
}

/// The inputs that a number operand reads.
pub open spec fn number_inputs(v: NumberValue) -> Inputs {
    match v {
        NumberValue::Input(i) => number_input_set(i),
        _ => spec_empty(),
    }
}

pub open spec fn vector_inputs(v: VectorValue) -> Inputs {
    match v {
        VectorValue::Input(i) => vector_input_set(i),
    }
}

/// The registers that an instruction reads.
pub open spec fn reads(t: InstructionType) -> Seq<(BinaryValueType, int)> {
    match t {
        InstructionType::VectorValue { x, y, z, w, .. } => number_reads(x) + number_reads(y) + number_reads(z)
            + number_reads(w),
        InstructionType::RgbValue { red, green, blue, .. } => number_reads(red) + number_reads(green)
            + number_reads(blue),
        InstructionType::SpectrumValue { wavelength, .. } => number_reads(wavelength),
        InstructionType::RgbSpectrumValue { wavelength, source, .. } => number_reads(wavelength) + seq![
            (BinaryValueType::Rgb, source.0 as int),
        ],
        InstructionType::Fresnel { ior, env_ior, .. } => number_reads(ior) + number_reads(env_ior),
        InstructionType::Blackbody { wavelength, temperature, .. } => number_reads(wavelength) + number_reads(
            temperature,
        ),
        InstructionType::Convert { conversion: ValueConversion::RgbToVector { source, .. } } => seq![
            (BinaryValueType::Rgb, source.0 as int),
        ],
        InstructionType::Binary { value_type, lhs, rhs, .. } => seq![(value_type, lhs as int), (value_type, rhs as int)],
        InstructionType::Mix { value_type, lhs, rhs, amount, .. } => seq![
            (value_type, lhs as int),
            (value_type, rhs as int),
        ] + number_reads(amount),
        InstructionType::Clamp { value, min, max, .. } => number_reads(value) + number_reads(min) + number_reads(
            max,
        ),
        _ => Seq::empty(),
    }
}

/// The inputs that an instruction reads itself.
pub open spec fn direct_inputs(t: InstructionType) -> Inputs {
    match t {
        InstructionType::VectorValue { x, y, z, w, .. } => spec_union(
            spec_union(number_inputs(x), number_inputs(y)),
            spec_union(number_inputs(z), number_inputs(w)),
        ),
        InstructionType::RgbValue { red, green, blue, .. } => spec_union(
            spec_union(number_inputs(red), number_inputs(green)),
            number_inputs(blue),
        ),
        InstructionType::SpectrumValue { wavelength, .. } => number_inputs(wavelength),
        InstructionType::ColorTextureValue { texture_coordinates, .. } => vector_inputs(texture_coordinates),
        InstructionType::MonoTextureValue { texture_coordinates, .. } => vector_inputs(texture_coordinates),
        InstructionType::RgbSpectrumValue { wavelength, .. } => number_inputs(wavelength),
        InstructionType::Fresnel { ior, env_ior, normal, incident, .. } => spec_union(
            spec_union(number_inputs(ior), number_inputs(env_ior)),
            spec_union(vector_inputs(normal), vector_inputs(incident)),
        ),
        InstructionType::Blackbody { wavelength, temperature, .. } => spec_union(
            number_inputs(wavelength),
            number_inputs(temperature),
        ),
        InstructionType::Mix { amount, .. } => number_inputs(amount),
        InstructionType::Clamp { value, min, max, .. } => spec_union(
            spec_union(number_inputs(value), number_inputs(min)),
            number_inputs(max),
        ),
        _ => spec_empty(),
    }
}

/// How many registers of `kind` the instructions write.
pub open spec fn count(instructions: Seq<Instruction>, kind: BinaryValueType) -> nat
    decreases instructions.len(),
{
    if instructions.len() == 0 {
        0
    } else {
        let init = instructions.drop_last();
        if written(instructions.last().instruction_type).0 == kind {
            count(init, kind) + 1
        } else {
            count(init, kind)
        }
    }
}

/// The dependencies of the registers of `kind`, in the order they are written.
pub open spec fn register_dependencies(instructions: Seq<Instruction>, kind: BinaryValueType) -> Seq<Inputs>
    decreases instructions.len(),
{
    if instructions.len() == 0 {
        Seq::empty()
    } else {
        let init = instructions.drop_last();
        if written(instructions.last().instruction_type).0 == kind {
            register_dependencies(init, kind).push(instructions.last().dependencies)
        } else {
            register_dependencies(init, kind)
        }
    }
}

/// An instruction that may follow `before`: it writes the next register of its kind, reads
/// only registers written before, and depends on every input that it reads itself or
/// that the registers it reads depend on.
pub open spec fn instruction_fits(before: Seq<Instruction>, i: Instruction) -> bool {
    let t = i.instruction_type;
    &&& written(t).1 == count(before, written(t).0)
    &&& reads_fit(before, reads(t), i.dependencies)
    &&& subset(direct_inputs(t), i.dependencies)
}

/// The registers `rs` are written by `before`, and what they depend on is in `deps`.
pub open spec fn reads_fit(before: Seq<Instruction>, rs: Seq<(BinaryValueType, int)>, deps: Inputs) -> bool {
    forall|j: int|
        0 <= j < rs.len() ==> {
            &&& 0 <= #[trigger] rs[j].1 < count(before, rs[j].0)
            &&& subset(register_dependencies(before, rs[j].0)[rs[j].1], deps)
        }
}

/// Registers that fit, read together, fit.
pub proof fn lemma_reads_fit(before: Seq<Instruction>, a: Seq<(BinaryValueType, int)>, b: Seq<(BinaryValueType, int)>, deps: Inputs)
    requires
        reads_fit(before, a, deps),
        reads_fit(before, b, deps),
    ensures
        reads_fit(before, a + b, deps),
{
    assert forall|j: int| 0 <= j < (a + b).len() implies {
        &&& 0 <= #[trigger] (a + b)[j].1 < count(before, (a + b)[j].0)
        &&& subset(register_dependencies(before, (a + b)[j].0)[(a + b)[j].1], deps)
    } by {
        if j < a.len() {
            assert((a + b)[j] == a[j]);
        } else {
            assert((a + b)[j] == b[j - a.len()]);
        }
    }
}

/// Every instruction fits the ones before it.
pub open spec fn well_formed(instructions: Seq<Instruction>) -> bool {
    forall|k: int| 0 <= k < instructions.len() ==> #[trigger] instruction_fits(instructions.take(k), instructions[k])
}

/// Registers are counted by the dependencies recorded for them.
pub proof fn lemma_count(instructions: Seq<Instruction>, kind: BinaryValueType)
    ensures
        register_dependencies(instructions, kind).len() == count(instructions, kind),
        count(instructions, kind) <= instructions.len(),
    decreases instructions.len(),
{
    if instructions.len() > 0 {
        lemma_count(instructions.drop_last(), kind);
    }
}

/// Appending an instruction that fits keeps the instructions well formed, adds its
/// register, and keeps what was recorded of the others.
pub proof fn lemma_push(instructions: Seq<Instruction>, i: Instruction)
    requires
        well_formed(instructions),
        instruction_fits(instructions, i),
    ensures
        well_formed(instructions.push(i)),
        forall|kind: BinaryValueType|
            #![trigger count(instructions.push(i), kind)]
            count(instructions.push(i), kind) == count(instructions, kind) + (if written(i.instruction_type).0
                == kind {
                1int
            } else {
                0int
            }),
        forall|kind: BinaryValueType, r: int|
            0 <= r < count(instructions, kind) ==> #[trigger] register_dependencies(instructions.push(i), kind)[r]
                == register_dependencies(instructions, kind)[r],
        register_dependencies(instructions.push(i), written(i.instruction_type).0)[count(
            instructions,
            written(i.instruction_type).0,
        ) as int] == i.dependencies,
{
    let p = instructions.push(i);
    assert(p.drop_last() =~= instructions);
    assert forall|k: int| 0 <= k < p.len() implies #[trigger] instruction_fits(p.take(k), p[k]) by {
        if k < instructions.len() {
            assert(p.take(k) =~= instructions.take(k));
            assert(instruction_fits(instructions.take(k), instructions[k]));
        } else {
            assert(p.take(k) =~= instructions);
        }
    }
    assert forall|kind: BinaryValueType, r: int|
        0 <= r < count(instructions, kind) implies #[trigger] register_dependencies(p, kind)[r]
        == register_dependencies(instructions, kind)[r] by {
        lemma_count(instructions, kind);
    }
    lemma_count(instructions, written(i.instruction_type).0);
}

/// What a register holds, written out: the constants and inputs that it is computed from,
/// and the operations that compute it.
pub enum Term {
    Constant(Constant),
    NumberInput(NumberInput),
    VectorInput(VectorInput),
    Vector(Box<Term>, Box<Term>, Box<Term>, Box<Term>),
    Rgb(Box<Term>, Box<Term>, Box<Term>),
    /// A spectrum at a wavelength.
    Spectrum(Box<Term>, SpectrumId),
    /// A color texture at texture coordinates.
    ColorTexture(Box<Term>, ColorTextureId),
    /// A single channel texture at texture coordinates.
    MonoTexture(Box<Term>, MonoTextureId),
    /// A color at a wavelength.
    RgbAt(Box<Term>, Box<Term>),
    /// The Fresnel factor of an index of refraction, the one around it, a normal and an
    /// incident direction.
    Fresnel(Box<Term>, Box<Term>, Box<Term>, Box<Term>),
    /// A black body at a wavelength and a temperature.
    Blackbody(Box<Term>, Box<Term>),
    RgbToVector(Box<Term>),
    Binary(BinaryValueType, BinaryOperator, Box<Term>, Box<Term>),
    /// Two values of a kind, mixed by an amount.
    Mix(BinaryValueType, Box<Term>, Box<Term>, Box<Term>),
    /// A value, a minimum and a maximum.
    Clamp(Box<Term>, Box<Term>, Box<Term>),
}

/// What the register of `kind` numbered `index` holds after the instructions: what the
/// last instruction that writes it computes, from what the registers hold before it.
pub open spec fn register_term(instructions: Seq<Instruction>, kind: BinaryValueType, index: int) -> Term
    decreases instructions.len(), 0int,
{
    if instructions.len() == 0 {
        Term::Constant(Constant(0))
    } else {
        let init = instructions.drop_last();
        let t = instructions.last().instruction_type;
        if written(t) == (kind, index) {
            instruction_term(init, t)
        } else {
            register_term(init, kind, index)
        }
    }
}

/// What a number operand holds after the instructions `before`.
pub open spec fn number_term(before: Seq<Instruction>, v: NumberValue) -> Term
    decreases before.len(), 1int,
{
    match v {
        NumberValue::Constant(c) => Term::Constant(c),
        NumberValue::Input(i) => Term::NumberInput(i),
        NumberValue::Register(r) => register_term(before, BinaryValueType::Number, r.0 as int),
    }
}

/// What a vector operand holds.
pub open spec fn vector_term(v: VectorValue) -> Term {
    match v {
        VectorValue::Input(i) => Term::VectorInput(i),
    }
}

/// What an instruction computes after the instructions `before`.
pub open spec fn instruction_term(before: Seq<Instruction>, t: InstructionType) -> Term
    decreases before.len(), 2int,
{
    match t {
        InstructionType::NumberValue { number, .. } => Term::Constant(number),
        InstructionType::VectorValue { x, y, z, w, .. } => Term::Vector(
            Box::new(number_term(before, x)),
            Box::new(number_term(before, y)),
            Box::new(number_term(before, z)),
            Box::new(number_term(before, w)),
        ),
        InstructionType::RgbValue { red, green, blue, .. } => Term::Rgb(
            Box::new(number_term(before, red)),
            Box::new(number_term(before, green)),
            Box::new(number_term(before, blue)),
        ),
        InstructionType::SpectrumValue { wavelength, spectrum, .. } => Term::Spectrum(
            Box::new(number_term(before, wavelength)),
            spectrum,
        ),
        InstructionType::ColorTextureValue { texture_coordinates, texture, .. } => Term::ColorTexture(
            Box::new(vector_term(texture_coordinates)),
            texture,
        ),
        InstructionType::MonoTextureValue { texture_coordinates, texture, .. } => Term::MonoTexture(
            Box::new(vector_term(texture_coordinates)),
            texture,
        ),
        InstructionType::RgbSpectrumValue { wavelength, source, .. } => Term::RgbAt(
            Box::new(number_term(before, wavelength)),
            Box::new(register_term(before, BinaryValueType::Rgb, source.0 as int)),
        ),
        InstructionType::Fresnel { ior, env_ior, normal, incident, .. } => Term::Fresnel(
            Box::new(number_term(before, ior)),
            Box::new(number_term(before, env_ior)),
            Box::new(vector_term(normal)),
            Box::new(vector_term(incident)),
        ),
        InstructionType::Blackbody { wavelength, temperature, .. } => Term::Blackbody(
            Box::new(number_term(before, wavelength)),
            Box::new(number_term(before, temperature)),
        ),
        InstructionType::Convert { conversion: ValueConversion::RgbToVector { source, .. } } => Term::RgbToVector(
            Box::new(register_term(before, BinaryValueType::Rgb, source.0 as int)),
        ),
        InstructionType::Binary { value_type, operator, lhs, rhs, .. } => Term::Binary(
            value_type,
            operator,
            Box::new(register_term(before, value_type, lhs as int)),
            Box::new(register_term(before, value_type, rhs as int)),
        ),
        InstructionType::Mix { value_type, lhs, rhs, amount, .. } => Term::Mix(
            value_type,
            Box::new(register_term(before, value_type, lhs as int)),
            Box::new(register_term(before, value_type, rhs as int)),
            Box::new(number_term(before, amount)),
        ),
        InstructionType::Clamp { value, min, max, .. } => Term::Clamp(
            Box::new(number_term(before, value)),
            Box::new(number_term(before, min)),
            Box::new(number_term(before, max)),
        ),
    }
}

/// Appending an instruction that writes the next register of its kind gives that
/// register what the instruction computes, and leaves the registers written before as
/// they were.
pub proof fn lemma_register_term_push(instructions: Seq<Instruction>, i: Instruction)
    requires
        written(i.instruction_type).1 == count(instructions, written(i.instruction_type).0),
    ensures
        register_term(instructions.push(i), written(i.instruction_type).0, written(i.instruction_type).1)
            == instruction_term(instructions, i.instruction_type),
        forall|kind: BinaryValueType, index: int|
            0 <= index < count(instructions, kind) ==> #[trigger] register_term(instructions.push(i), kind, index)
                == register_term(instructions, kind, index),
{
    let p = instructions.push(i);
    assert(p.drop_last() =~= instructions);
    assert(p.last() == i);
}

/// Whether a run in which the inputs `changes` changed carries out `instruction` again:
/// when it depends on one of them, or on no input at all.
pub open spec fn spec_needs_run(instruction: Instruction, changes: Inputs) -> bool {
    instruction.dependencies == spec_empty() || spec_intersects(instruction.dependencies, changes)
}

/// Whether a run in which the inputs `changes` changed carries out `instruction` again.
pub fn needs_run(instruction: &Instruction, changes: Inputs) -> (r: bool)
    ensures
        r == spec_needs_run(*instruction, changes),
{
    instruction.dependencies.is_empty() || instruction.dependencies.intersects(changes)
}

/// A run that skips an instruction of a well formed program skips it rightly: every
/// register that the instruction reads depends on none of the changed inputs, and neither
/// does any input it reads itself.
pub proof fn lemma_skip_sound(instructions: Seq<Instruction>, k: int, changes: Inputs)
    requires
        well_formed(instructions),
        0 <= k < instructions.len(),
        !spec_needs_run(instructions[k], changes),
    ensures
        forall|j: int|
            0 <= j < reads(instructions[k].instruction_type).len() ==> !spec_intersects(
                register_dependencies(
                    instructions.take(k),
                    #[trigger] reads(instructions[k].instruction_type)[j].0,
                )[reads(instructions[k].instruction_type)[j].1],
                changes,
            ),
        !spec_intersects(direct_inputs(instructions[k].instruction_type), changes),
{
    assert(instruction_fits(instructions.take(k), instructions[k]));
}

} // verus!
