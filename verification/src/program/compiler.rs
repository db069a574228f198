//! Compiles an expression into a program: a list of instructions that compute its
//! sub-expressions into registers, in an order where every register is written before it
//! is read.
use vstd::prelude::*;

use super::instruction::{
    BinaryValueType, Constant, Inputs, Instruction, InstructionType, NumberInput, NumberValue,
    ValueConversion, VectorInput, VectorValue, count, instruction_fits, lemma_count, lemma_push,
    number_input_set, number_inputs, number_reads, reads, register_dependencies, spec_empty,
    spec_union, subset, vector_input_set, well_formed, written, direct_inputs, reads_fit, lemma_reads_fit,
    vector_inputs, spec_all, Term, register_term, number_term, instruction_term, lemma_register_term_push,
};
use super::{NumberRegister, RegisterCounter, RegisterIndex, RgbRegister, VectorRegister};
use crate::project::expressions::{ComplexExpression, Expression, Expressions, operands, ranked};
use crate::project::{BinaryOperator, ColorTextureId, ExpressionId, MonoTextureId, SpectrumId};

verus! {

/// A register of any kind.
#[derive(Debug, Copy, Clone, PartialEq, Eq, Structural)]
pub enum Register {
    Number(NumberRegister),
    Vector(VectorRegister),
    Rgb(RgbRegister),
}

pub open spec fn kind_of(r: Register) -> BinaryValueType {
    match r {
        Register::Number(_) => BinaryValueType::Number,
        Register::Vector(_) => BinaryValueType::Vector,
        Register::Rgb(_) => BinaryValueType::Rgb,
    }
}

pub open spec fn index_of(r: Register) -> int {
    match r {
        Register::Number(n) => n.0 as int,
        Register::Vector(v) => v.0 as int,
        Register::Rgb(c) => c.0 as int,
    }
}

/// Where the result of a program is read from.
#[derive(Debug, Copy, Clone, PartialEq, Eq, Structural)]
pub enum ProgramOutput {
    FromNumber(NumberRegister),
    FromVector(VectorRegister),
}

/// The kind of value that a program is compiled to produce.
#[derive(Debug, Copy, Clone, PartialEq, Eq, Structural)]
pub enum OutputType {
    Number,
    Vector,
}

/// A constant, or instructions with the number of registers of each kind they use.
#[derive(Debug, PartialEq, Eq)]
pub enum ProgramType {
    Constant { value: Constant },
    Instructions {
        instructions: Vec<Instruction>,
        output: ProgramOutput,
        numbers: usize,
        vectors: usize,
        rgb_values: usize,
    },
}

/// A compiled expression.
#[derive(Debug, PartialEq, Eq)]
pub struct Program {
    pub program_type: ProgramType,
}

/// Why an expression cannot be compiled.
#[derive(Debug, Copy, Clone, PartialEq, Eq, Structural)]
pub enum CompileError {
    /// A vector is used where a number is expected.
    VectorAsNumber,
    /// The expression reads a number input that the program cannot read.
    UnavailableNumberInput(NumberInput),
    /// The expression reads a vector input that the program cannot read.
    UnavailableVectorInput(VectorInput),
    /// The expression was not compiled to completion.
    Incomplete,
}

/// The kind that two operands of a binary operation are brought to: a vector if either
/// is one, else a color if either is one, else a number.
pub open spec fn join(a: BinaryValueType, b: BinaryValueType) -> BinaryValueType {
    if a == BinaryValueType::Vector || b == BinaryValueType::Vector {
        BinaryValueType::Vector
    } else if a == BinaryValueType::Rgb || b == BinaryValueType::Rgb {
        BinaryValueType::Rgb
    } else {
        BinaryValueType::Number
    }
}

/// A kind that can stand where a number is expected: a number, or a color that is
/// turned into a number at the wavelength, where the wavelength is available.
pub open spec fn number_ok(k: Option<BinaryValueType>, available: Inputs) -> bool {
    k matches Some(k) && (k == BinaryValueType::Number || (k == BinaryValueType::Rgb && available.wavelength))
}

/// The kind of the operand `e` of an expression numbered `below`; none where it reads
/// an expression that is not below it or that has no kind.
pub open spec fn check_operand(nodes: Seq<ComplexExpression>, e: Expression, below: int, available: Inputs) -> Option<
    BinaryValueType,
>
    decreases below, 0int,
{
    match e {
        Expression::Number(_) => Some(BinaryValueType::Number),
        Expression::Complex(c) => {
            if 0 <= c.0 < below {
                check_node(nodes, c.0 as int, available)
            } else {
                None
            }
        },
    }
}

/// The kind of value that the expression numbered `id` computes, in a program that can
/// read the inputs `available`; none where a vector would be used as a number somewhere
/// in it, or where it would read an input that is not available.
pub open spec fn check_node(nodes: Seq<ComplexExpression>, id: int, available: Inputs) -> Option<BinaryValueType>
    decreases id, 1int,
{
    if !(0 <= id < nodes.len()) {
        None
    } else {
        match nodes[id] {
            ComplexExpression::Vector { x, y, z, w } => {
                if number_ok(check_operand(nodes, x, id, available), available) && number_ok(
                    check_operand(nodes, y, id, available),
                    available,
                ) && number_ok(check_operand(nodes, z, id, available), available) && number_ok(
                    check_operand(nodes, w, id, available),
                    available,
                ) {
                    Some(BinaryValueType::Vector)
                } else {
                    None
                }
            },
            ComplexExpression::Rgb { red, green, blue } => {
                if number_ok(check_operand(nodes, red, id, available), available) && number_ok(
                    check_operand(nodes, green, id, available),
                    available,
                ) && number_ok(check_operand(nodes, blue, id, available), available) {
                    Some(BinaryValueType::Rgb)
                } else {
                    None
                }
            },
            ComplexExpression::Binary { lhs, rhs, .. } => {
                match (check_operand(nodes, lhs, id, available), check_operand(nodes, rhs, id, available)) {
                    (Some(a), Some(b)) => Some(join(a, b)),
                    _ => None,
                }
            },
            ComplexExpression::Mix { amount, lhs, rhs } => {
                match (check_operand(nodes, lhs, id, available), check_operand(nodes, rhs, id, available)) {
                    (Some(a), Some(b)) => if number_ok(check_operand(nodes, amount, id, available), available) {
                        Some(join(a, b))
                    } else {
                        None
                    },
                    _ => None,
                }
            },
            ComplexExpression::Clamp { value, min, max } => {
                if number_ok(check_operand(nodes, value, id, available), available) && number_ok(
                    check_operand(nodes, min, id, available),
                    available,
                ) && number_ok(check_operand(nodes, max, id, available), available) {
                    Some(BinaryValueType::Number)
                } else {
                    None
                }
            },
            ComplexExpression::Fresnel { ior, env_ior } => {
                if available.normal && available.incident && number_ok(
                    check_operand(nodes, ior, id, available),
                    available,
                ) && number_ok(check_operand(nodes, env_ior, id, available), available) {
                    Some(BinaryValueType::Number)
                } else {
                    None
                }
            },
            ComplexExpression::Blackbody { temperature } => {
                if available.wavelength && number_ok(check_operand(nodes, temperature, id, available), available) {
                    Some(BinaryValueType::Number)
                } else {
                    None
                }
            },
            ComplexExpression::Spectrum { .. } => {
                if available.wavelength {
                    Some(BinaryValueType::Number)
                } else {
                    None
                }
            },
            ComplexExpression::ColorTexture { .. } => {
                if available.texture_coordinates {
                    Some(BinaryValueType::Rgb)
                } else {
                    None
                }
            },
            ComplexExpression::MonoTexture { .. } => {
                if available.texture_coordinates {
                    Some(BinaryValueType::Number)
                } else {
                    None
                }
            },
        }
    }
}

/// The kind of value that `e` computes, if it can be compiled.
pub open spec fn check(nodes: Seq<ComplexExpression>, e: Expression, available: Inputs) -> Option<BinaryValueType> {
    match e {
        Expression::Number(_) => Some(BinaryValueType::Number),
        Expression::Complex(c) => check_node(nodes, c.0 as int, available),
    }
}

/// Whether `e` compiles to a program of the inputs `available` whose result is of kind
/// `output`: it has a kind, that is no vector where a number is asked for, and a color
/// is asked for as a number only where the wavelength is available.
pub open spec fn compiles(nodes: Seq<ComplexExpression>, e: Expression, output: OutputType, available: Inputs) -> bool {
    &&& check(nodes, e, available) matches Some(k)
    &&& !(k == BinaryValueType::Vector && output == OutputType::Number)
    &&& !(k == BinaryValueType::Rgb && output == OutputType::Number && !available.wavelength)
}

/// A kind found with some inputs available stays the same with all of them.
pub proof fn lemma_check_all(nodes: Seq<ComplexExpression>, id: int, available: Inputs)
    requires
        ranked(nodes),
    ensures
        check_node(nodes, id, available) is Some ==> check_node(nodes, id, spec_all()) == check_node(
            nodes,
            id,
            available,
        ),
    decreases id,
{
    if 0 <= id < nodes.len() {
        let ops = operands(nodes[id]);
        assert forall|j: int| 0 <= j < ops.len() implies (check_operand(nodes, #[trigger] ops[j], id, available) is Some
            ==> check_operand(nodes, ops[j], id, spec_all()) == check_operand(nodes, ops[j], id, available)) by {
            if let Expression::Complex(c) = ops[j] {
                if 0 <= c.0 < id {
                    lemma_check_all(nodes, c.0 as int, available);
                }
            }
        }
        match nodes[id] {
            ComplexExpression::Vector { x, y, z, w } => {
                assert(ops[0] == x && ops[1] == y && ops[2] == z && ops[3] == w);
            },
            ComplexExpression::Rgb { red, green, blue } => {
                assert(ops[0] == red && ops[1] == green && ops[2] == blue);
            },
            ComplexExpression::Binary { lhs, rhs, .. } => {
                assert(ops[0] == lhs && ops[1] == rhs);
            },
            ComplexExpression::Mix { amount, lhs, rhs } => {
                assert(ops[0] == amount && ops[1] == lhs && ops[2] == rhs);
            },
            ComplexExpression::Clamp { value, min, max } => {
                assert(ops[0] == value && ops[1] == min && ops[2] == max);
            },
            ComplexExpression::Fresnel { ior, env_ior } => {
                assert(ops[0] == ior && ops[1] == env_ior);
            },
            ComplexExpression::Blackbody { temperature } => {
                assert(ops[0] == temperature);
            },
            _ => {},
        }
    }
}

/// A kind, or a number where there is none.
pub open spec fn kind_or_number(k: Option<BinaryValueType>) -> BinaryValueType {
    match k {
        Some(k) => k,
        None => BinaryValueType::Number,
    }
}

/// The kind of value that `e` computes where every input can be read.
pub open spec fn expression_kind(nodes: Seq<ComplexExpression>, e: Expression) -> BinaryValueType {
    kind_or_number(check(nodes, e, spec_all()))
}

/// A value brought from one kind to another: a number is spread over the components of
/// a vector or the channels of a color, a color becomes a vector, or a number at the
/// wavelength.
pub open spec fn convert_term(t: Term, from: BinaryValueType, to: BinaryValueType) -> Term {
    if from == to {
        t
    } else {
        match (from, to) {
            (BinaryValueType::Number, BinaryValueType::Vector) => Term::Vector(
                Box::new(t),
                Box::new(t),
                Box::new(t),
                Box::new(t),
            ),
            (BinaryValueType::Number, BinaryValueType::Rgb) => Term::Rgb(Box::new(t), Box::new(t), Box::new(t)),
            (BinaryValueType::Rgb, BinaryValueType::Vector) => Term::RgbToVector(Box::new(t)),
            (BinaryValueType::Rgb, BinaryValueType::Number) => Term::RgbAt(
                Box::new(Term::NumberInput(NumberInput::Wavelength)),
                Box::new(t),
            ),
            _ => t,
        }
    }
}

/// What the operand `e` of the expression numbered `below` computes, brought to `to`.
pub open spec fn operand_term(nodes: Seq<ComplexExpression>, e: Expression, below: int, to: BinaryValueType) -> Term
    decreases below, 0int,
{
    match e {
        Expression::Number(c) => convert_term(Term::Constant(c), BinaryValueType::Number, to),
        Expression::Complex(c) => {
            if 0 <= c.0 < below {
                convert_term(node_term(nodes, c.0 as int), kind_or_number(check_node(nodes, c.0 as int, spec_all())), to)
            } else {
                Term::Constant(Constant(0))
            }
        },
    }
}

/// What the expression numbered `id` computes, as a value of its own kind: its operands
/// are brought to the kinds that it takes, and the inputs it reads are read.
pub open spec fn node_term(nodes: Seq<ComplexExpression>, id: int) -> Term
    decreases id, 1int,
{
    if !(0 <= id < nodes.len()) {
        Term::Constant(Constant(0))
    } else {
        let number = BinaryValueType::Number;
        match nodes[id] {
            ComplexExpression::Vector { x, y, z, w } => Term::Vector(
                Box::new(operand_term(nodes, x, id, number)),
                Box::new(operand_term(nodes, y, id, number)),
                Box::new(operand_term(nodes, z, id, number)),
                Box::new(operand_term(nodes, w, id, number)),
            ),
            ComplexExpression::Rgb { red, green, blue } => Term::Rgb(
                Box::new(operand_term(nodes, red, id, number)),
                Box::new(operand_term(nodes, green, id, number)),
                Box::new(operand_term(nodes, blue, id, number)),
            ),
            ComplexExpression::Binary { operator, lhs, rhs } => {
                let k = join(
                    kind_or_number(check_operand(nodes, lhs, id, spec_all())),
                    kind_or_number(check_operand(nodes, rhs, id, spec_all())),
                );
                Term::Binary(k, operator, Box::new(operand_term(nodes, lhs, id, k)), Box::new(operand_term(nodes, rhs, id, k)))
            },
            ComplexExpression::Mix { amount, lhs, rhs } => {
                let k = join(
                    kind_or_number(check_operand(nodes, lhs, id, spec_all())),
                    kind_or_number(check_operand(nodes, rhs, id, spec_all())),
                );
                Term::Mix(
                    k,
                    Box::new(operand_term(nodes, lhs, id, k)),
                    Box::new(operand_term(nodes, rhs, id, k)),
                    Box::new(operand_term(nodes, amount, id, number)),
                )
            },
            ComplexExpression::Clamp { value, min, max } => Term::Clamp(
                Box::new(operand_term(nodes, value, id, number)),
                Box::new(operand_term(nodes, min, id, number)),
                Box::new(operand_term(nodes, max, id, number)),
            ),
            ComplexExpression::Fresnel { ior, env_ior } => Term::Fresnel(
                Box::new(operand_term(nodes, ior, id, number)),
                Box::new(operand_term(nodes, env_ior, id, number)),
                Box::new(Term::VectorInput(VectorInput::Normal)),
                Box::new(Term::VectorInput(VectorInput::Incident)),
            ),
            ComplexExpression::Blackbody { temperature } => Term::Blackbody(
                Box::new(Term::NumberInput(NumberInput::Wavelength)),
                Box::new(operand_term(nodes, temperature, id, number)),
            ),
            ComplexExpression::Spectrum { points } => Term::Spectrum(
                Box::new(Term::NumberInput(NumberInput::Wavelength)),
                points,
            ),
            ComplexExpression::ColorTexture { texture } => Term::ColorTexture(
                Box::new(Term::VectorInput(VectorInput::TextureCoordinates)),
                texture,
            ),
            ComplexExpression::MonoTexture { texture } => Term::MonoTexture(
                Box::new(Term::VectorInput(VectorInput::TextureCoordinates)),
                texture,
            ),
        }
    }
}

/// What `e` computes, brought to the kind `to`.
pub open spec fn expression_term(nodes: Seq<ComplexExpression>, e: Expression, to: BinaryValueType) -> Term {
    match e {
        Expression::Number(c) => convert_term(Term::Constant(c), BinaryValueType::Number, to),
        Expression::Complex(c) => convert_term(node_term(nodes, c.0 as int), expression_kind(nodes, e), to),
    }
}

/// The register that a program's result is read from holds what the expression
/// computes, brought to the kind of the result.
pub open spec fn program_computes(p: Program, nodes: Seq<ComplexExpression>, e: Expression) -> bool {
    p.program_type matches ProgramType::Instructions { instructions, output, .. } ==> match output {
        ProgramOutput::FromNumber(r) => register_term(instructions@, BinaryValueType::Number, r.0 as int)
            == expression_term(nodes, e, BinaryValueType::Number),
        ProgramOutput::FromVector(r) => register_term(instructions@, BinaryValueType::Vector, r.0 as int)
            == expression_term(nodes, e, BinaryValueType::Vector),
    }
}

/// The inputs that the operand `e` of the expression numbered `below` reads, and the
/// wavelength besides where a color stands for a number (`as_number`), since a color is
/// read at the wavelength.
pub open spec fn operand_inputs(nodes: Seq<ComplexExpression>, e: Expression, below: int, as_number: bool) -> Inputs
    decreases below, 0int,
{
    match e {
        Expression::Number(_) => spec_empty(),
        Expression::Complex(c) => {
            if 0 <= c.0 < below {
                let own = node_inputs(nodes, c.0 as int);
                if as_number && check_node(nodes, c.0 as int, spec_all()) == Some(BinaryValueType::Rgb) {
                    spec_union(own, number_input_set(NumberInput::Wavelength))
                } else {
                    own
                }
            } else {
                spec_empty()
            }
        },
    }
}

/// The inputs that the expression numbered `id` reads: those it reads itself and those
/// that its operands read.
pub open spec fn node_inputs(nodes: Seq<ComplexExpression>, id: int) -> Inputs
    decreases id, 1int,
{
    if !(0 <= id < nodes.len()) {
        spec_empty()
    } else {
        match nodes[id] {
            ComplexExpression::Vector { x, y, z, w } => spec_union(
                spec_union(operand_inputs(nodes, x, id, true), operand_inputs(nodes, y, id, true)),
                spec_union(operand_inputs(nodes, z, id, true), operand_inputs(nodes, w, id, true)),
            ),
            ComplexExpression::Rgb { red, green, blue } => spec_union(
                spec_union(operand_inputs(nodes, red, id, true), operand_inputs(nodes, green, id, true)),
                operand_inputs(nodes, blue, id, true),
            ),
            ComplexExpression::Binary { lhs, rhs, .. } => spec_union(
                operand_inputs(nodes, lhs, id, false),
                operand_inputs(nodes, rhs, id, false),
            ),
            ComplexExpression::Mix { amount, lhs, rhs } => spec_union(
                operand_inputs(nodes, amount, id, true),
                spec_union(operand_inputs(nodes, lhs, id, false), operand_inputs(nodes, rhs, id, false)),
            ),
            ComplexExpression::Clamp { value, min, max } => spec_union(
                spec_union(operand_inputs(nodes, value, id, true), operand_inputs(nodes, min, id, true)),
                operand_inputs(nodes, max, id, true),
            ),
            ComplexExpression::Fresnel { ior, env_ior } => spec_union(
                spec_union(vector_input_set(VectorInput::Normal), vector_input_set(VectorInput::Incident)),
                spec_union(operand_inputs(nodes, ior, id, true), operand_inputs(nodes, env_ior, id, true)),
            ),
            ComplexExpression::Blackbody { temperature } => spec_union(
                number_input_set(NumberInput::Wavelength),
                operand_inputs(nodes, temperature, id, true),
            ),
            ComplexExpression::Spectrum { .. } => number_input_set(NumberInput::Wavelength),
            ComplexExpression::ColorTexture { .. } | ComplexExpression::MonoTexture { .. } => vector_input_set(
                VectorInput::TextureCoordinates,
            ),
        }
    }
}

/// The inputs that a program computing `e` as a value of kind `output` reads: those the
/// expression reads, and the wavelength where a color is asked for as a number.
pub open spec fn expression_inputs(nodes: Seq<ComplexExpression>, e: Expression, output: OutputType) -> Inputs {
    let own = match e {
        Expression::Number(_) => spec_empty(),
        Expression::Complex(c) => node_inputs(nodes, c.0 as int),
    };
    if output == OutputType::Number && check(nodes, e, spec_all()) == Some(BinaryValueType::Rgb) {
        spec_union(own, number_input_set(NumberInput::Wavelength))
    } else {
        own
    }
}

/// A color expression computes the color whose red, green and blue channels are what
/// its `red`, `green` and `blue` operands compute as numbers, each in its own place.
pub proof fn lemma_rgb_channels(
    nodes: Seq<ComplexExpression>,
    id: int,
    red: Expression,
    green: Expression,
    blue: Expression,
)
    requires
        ranked(nodes),
        0 <= id < nodes.len(),
        nodes[id] == (ComplexExpression::Rgb { red, green, blue }),
    ensures
        node_term(nodes, id) == Term::Rgb(
            Box::new(expression_term(nodes, red, BinaryValueType::Number)),
            Box::new(expression_term(nodes, green, BinaryValueType::Number)),
            Box::new(expression_term(nodes, blue, BinaryValueType::Number)),
        ),
{
    lemma_operand(nodes, id, 0);
    lemma_operand(nodes, id, 1);
    lemma_operand(nodes, id, 2);
    assert(operands(nodes[id]) == seq![red, green, blue]);
}

/// A clamp computes its value kept between what its `min` operand computes, as the lower
/// bound, and what its `max` operand computes, as the upper bound.
pub proof fn lemma_clamp_bounds(
    nodes: Seq<ComplexExpression>,
    id: int,
    value: Expression,
    min: Expression,
    max: Expression,
)
    requires
        ranked(nodes),
        0 <= id < nodes.len(),
        nodes[id] == (ComplexExpression::Clamp { value, min, max }),
    ensures
        node_term(nodes, id) == Term::Clamp(
            Box::new(expression_term(nodes, value, BinaryValueType::Number)),
            Box::new(expression_term(nodes, min, BinaryValueType::Number)),
            Box::new(expression_term(nodes, max, BinaryValueType::Number)),
        ),
{
    lemma_operand(nodes, id, 0);
    lemma_operand(nodes, id, 1);
    lemma_operand(nodes, id, 2);
    assert(operands(nodes[id]) == seq![value, min, max]);
}

/// A vector expression computes the vector whose components are what its `x`, `y`, `z`
/// and `w` operands compute as numbers, each in its own place.
pub proof fn lemma_vector_components(
    nodes: Seq<ComplexExpression>,
    id: int,
    x: Expression,
    y: Expression,
    z: Expression,
    w: Expression,
)
    requires
        ranked(nodes),
        0 <= id < nodes.len(),
        nodes[id] == (ComplexExpression::Vector { x, y, z, w }),
    ensures
        node_term(nodes, id) == Term::Vector(
            Box::new(expression_term(nodes, x, BinaryValueType::Number)),
            Box::new(expression_term(nodes, y, BinaryValueType::Number)),
            Box::new(expression_term(nodes, z, BinaryValueType::Number)),
            Box::new(expression_term(nodes, w, BinaryValueType::Number)),
        ),
{
    lemma_operand(nodes, id, 0);
    lemma_operand(nodes, id, 1);
    lemma_operand(nodes, id, 2);
    lemma_operand(nodes, id, 3);
    assert(operands(nodes[id]) == seq![x, y, z, w]);
}

/// An operator applies to its left side, then its right side, each brought to the wider
/// of the two sides' kinds.
pub proof fn lemma_binary_sides(
    nodes: Seq<ComplexExpression>,
    id: int,
    operator: BinaryOperator,
    lhs: Expression,
    rhs: Expression,
)
    requires
        ranked(nodes),
        0 <= id < nodes.len(),
        nodes[id] == (ComplexExpression::Binary { operator, lhs, rhs }),
    ensures
        ({
            let k = join(expression_kind(nodes, lhs), expression_kind(nodes, rhs));
            node_term(nodes, id) == Term::Binary(
                k,
                operator,
                Box::new(expression_term(nodes, lhs, k)),
                Box::new(expression_term(nodes, rhs, k)),
            )
        }),
{
    lemma_operand(nodes, id, 0);
    lemma_operand(nodes, id, 1);
    assert(operands(nodes[id]) == seq![lhs, rhs]);
}

/// A mix goes from its left side to its right side by what its `amount` computes as a
/// number; both sides are brought to the wider of their kinds.
pub proof fn lemma_mix_sides(
    nodes: Seq<ComplexExpression>,
    id: int,
    amount: Expression,
    lhs: Expression,
    rhs: Expression,
)
    requires
        ranked(nodes),
        0 <= id < nodes.len(),
        nodes[id] == (ComplexExpression::Mix { amount, lhs, rhs }),
    ensures
        ({
            let k = join(expression_kind(nodes, lhs), expression_kind(nodes, rhs));
            node_term(nodes, id) == Term::Mix(
                k,
                Box::new(expression_term(nodes, lhs, k)),
                Box::new(expression_term(nodes, rhs, k)),
                Box::new(expression_term(nodes, amount, BinaryValueType::Number)),
            )
        }),
{
    lemma_operand(nodes, id, 0);
    lemma_operand(nodes, id, 1);
    lemma_operand(nodes, id, 2);
    assert(operands(nodes[id]) == seq![amount, lhs, rhs]);
}

/// A Fresnel factor is that of its `ior` against its `env_ior`, at the surface normal
/// and the incident direction.
pub proof fn lemma_fresnel_operands(nodes: Seq<ComplexExpression>, id: int, ior: Expression, env_ior: Expression)
    requires
        ranked(nodes),
        0 <= id < nodes.len(),
        nodes[id] == (ComplexExpression::Fresnel { ior, env_ior }),
    ensures
        node_term(nodes, id) == Term::Fresnel(
            Box::new(expression_term(nodes, ior, BinaryValueType::Number)),
            Box::new(expression_term(nodes, env_ior, BinaryValueType::Number)),
            Box::new(Term::VectorInput(VectorInput::Normal)),
            Box::new(Term::VectorInput(VectorInput::Incident)),
        ),
{
    lemma_operand(nodes, id, 0);
    lemma_operand(nodes, id, 1);
    assert(operands(nodes[id]) == seq![ior, env_ior]);
}

/// A blackbody is read at the wavelength, at the temperature its operand computes.
pub proof fn lemma_blackbody_temperature(nodes: Seq<ComplexExpression>, id: int, temperature: Expression)
    requires
        ranked(nodes),
        0 <= id < nodes.len(),
        nodes[id] == (ComplexExpression::Blackbody { temperature }),
    ensures
        node_term(nodes, id) == Term::Blackbody(
            Box::new(Term::NumberInput(NumberInput::Wavelength)),
            Box::new(expression_term(nodes, temperature, BinaryValueType::Number)),
        ),
{
    lemma_operand(nodes, id, 0);
    assert(operands(nodes[id]) == seq![temperature]);
}

/// A program compiled from a color expression and read as a vector holds the color of
/// the expression's `red`, `green` and `blue` operands, in that order, turned into a vector.
pub proof fn lemma_compiled_rgb(
    p: Program,
    nodes: Seq<ComplexExpression>,
    id: usize,
    red: Expression,
    green: Expression,
    blue: Expression,
)
    requires
        ranked(nodes),
        id < nodes.len(),
        nodes[id as int] == (ComplexExpression::Rgb { red, green, blue }),
        check_node(nodes, id as int, spec_all()) is Some,
        program_computes(p, nodes, Expression::Complex(ExpressionId(id))),
        p.program_type matches ProgramType::Instructions { output: ProgramOutput::FromVector(_), .. },
    ensures
        p.program_type matches ProgramType::Instructions { instructions, output: ProgramOutput::FromVector(r), .. }
            && register_term(instructions@, BinaryValueType::Vector, r.0 as int) == Term::RgbToVector(
            Box::new(
                Term::Rgb(
                    Box::new(expression_term(nodes, red, BinaryValueType::Number)),
                    Box::new(expression_term(nodes, green, BinaryValueType::Number)),
                    Box::new(expression_term(nodes, blue, BinaryValueType::Number)),
                ),
            ),
        ),
{
    lemma_rgb_channels(nodes, id as int, red, green, blue);
}

/// A program compiled from a clamp holds the clamp's value kept between its `min`
/// operand, as the lower bound, and its `max` operand, as the upper bound.
pub proof fn lemma_compiled_clamp(
    p: Program,
    nodes: Seq<ComplexExpression>,
    id: usize,
    value: Expression,
    min: Expression,
    max: Expression,
)
    requires
        ranked(nodes),
        id < nodes.len(),
        nodes[id as int] == (ComplexExpression::Clamp { value, min, max }),
        program_computes(p, nodes, Expression::Complex(ExpressionId(id))),
        p.program_type matches ProgramType::Instructions { output: ProgramOutput::FromNumber(_), .. },
    ensures
        p.program_type matches ProgramType::Instructions { instructions, output: ProgramOutput::FromNumber(r), .. }
            && register_term(instructions@, BinaryValueType::Number, r.0 as int) == Term::Clamp(
            Box::new(expression_term(nodes, value, BinaryValueType::Number)),
            Box::new(expression_term(nodes, min, BinaryValueType::Number)),
            Box::new(expression_term(nodes, max, BinaryValueType::Number)),
        ),
{
    lemma_clamp_bounds(nodes, id as int, value, min, max);
}

/// What a compiled program guarantees: a constant expression stays a constant; otherwise
/// every instruction writes a fresh register and reads only registers written before it,
/// each instruction depends on every input that what it reads depends on, the register
/// counts are those that the instructions write, and the result is read from a register
/// of the kind asked for that an instruction writes.
pub open spec fn program_fits(p: Program, e: Expression, output: OutputType) -> bool {
    match p.program_type {
        ProgramType::Constant { value } => e == Expression::Number(value),
        ProgramType::Instructions { instructions, output: out, numbers, vectors, rgb_values } => {
            &&& e is Complex
            &&& well_formed(instructions@)
            &&& numbers == count(instructions@, BinaryValueType::Number)
            &&& vectors == count(instructions@, BinaryValueType::Vector)
            &&& rgb_values == count(instructions@, BinaryValueType::Rgb)
            &&& match out {
                ProgramOutput::FromNumber(r) => output == OutputType::Number && r.0 < numbers,
                ProgramOutput::FromVector(r) => output == OutputType::Vector && r.0 < vectors,
            }
        },
    }
}

/// How far an expression has come.
enum ExpressionStatus {
    /// Seen, but waiting for its operands.
    Pending,
    /// Computed into `register`, which depends on `dependencies`.
    Done { register: Register, dependencies: Inputs },
}

/// An operand: a constant, or a register with what it depends on.
enum NumberOrRegister {
    Number(Constant),
    Register { register: Register, dependencies: Inputs },
}

/// The outcome of one attempt at an expression.
enum Step {
    /// An operand, numbered so, has to be computed first.
    Blocked(usize),
    /// The expression was computed into the register, which depends on the inputs.
    Done(Register, Inputs),
}

/// The kind of an operand; a constant is a number.
spec fn operand_kind(o: NumberOrRegister) -> BinaryValueType {
    match o {
        NumberOrRegister::Number(_) => BinaryValueType::Number,
        NumberOrRegister::Register { register, .. } => kind_of(register),
    }
}

/// What an operand depends on; a constant depends on nothing.
spec fn operand_deps(o: NumberOrRegister) -> Inputs {
    match o {
        NumberOrRegister::Number(_) => spec_empty(),
        NumberOrRegister::Register { dependencies, .. } => dependencies,
    }
}

/// An operand that the instructions can read.
spec fn operand_ok(instructions: Seq<Instruction>, o: NumberOrRegister) -> bool {
    match o {
        NumberOrRegister::Number(_) => true,
        NumberOrRegister::Register { register, dependencies } => register_ok(
            instructions,
            kind_of(register),
            index_of(register),
            dependencies,
        ),
    }
}

/// What an operand holds after the instructions.
spec fn value_term(instructions: Seq<Instruction>, o: NumberOrRegister) -> Term {
    match o {
        NumberOrRegister::Number(c) => Term::Constant(c),
        NumberOrRegister::Register { register, .. } => register_term(instructions, kind_of(register), index_of(register)),
    }
}

/// The instruction, if any, that brings an operand to the kind `to`, writing the register
/// of that kind numbered `next`: a constant is put into a number register or spread over
/// the components of a vector or the channels of a color, a number register is spread the
/// same way, a color register becomes a vector, and a register of that kind needs none.
spec fn conversion(o: NumberOrRegister, to: BinaryValueType, next: int) -> Seq<Instruction> {
    match o {
        NumberOrRegister::Number(c) => {
            let v = NumberValue::Constant(c);
            let t = match to {
                BinaryValueType::Number => InstructionType::NumberValue { number: c, output: NumberRegister(next as usize) },
                BinaryValueType::Vector => InstructionType::VectorValue {
                    x: v,
                    y: v,
                    z: v,
                    w: v,
                    output: VectorRegister(next as usize),
                },
                BinaryValueType::Rgb => InstructionType::RgbValue { red: v, green: v, blue: v, output: RgbRegister(next as usize) },
            };
            seq![Instruction { instruction_type: t, dependencies: spec_empty() }]
        },
        NumberOrRegister::Register { register, dependencies } => match (register, to) {
            (Register::Number(n), BinaryValueType::Vector) => {
                let v = NumberValue::Register(n);
                seq![
                    Instruction {
                        instruction_type: InstructionType::VectorValue {
                            x: v,
                            y: v,
                            z: v,
                            w: v,
                            output: VectorRegister(next as usize),
                        },
                        dependencies,
                    },
                ]
            },
            (Register::Number(n), BinaryValueType::Rgb) => {
                let v = NumberValue::Register(n);
                seq![
                    Instruction {
                        instruction_type: InstructionType::RgbValue {
                            red: v,
                            green: v,
                            blue: v,
                            output: RgbRegister(next as usize),
                        },
                        dependencies,
                    },
                ]
            },
            (Register::Rgb(c), BinaryValueType::Vector) => seq![
                Instruction {
                    instruction_type: InstructionType::Convert {
                        conversion: ValueConversion::RgbToVector { source: c, output: VectorRegister(next as usize) },
                    },
                    dependencies,
                },
            ],
            _ => Seq::empty(),
        },
    }
}

/// The register that an operand is read from once brought to the kind `to`: the one its
/// conversion writes, or its own.
spec fn converted(o: NumberOrRegister, to: BinaryValueType, next: int) -> int {
    match o {
        NumberOrRegister::Register { register, .. } => if conversion(o, to, next).len() == 0 {
            index_of(register)
        } else {
            next
        },
        NumberOrRegister::Number(_) => next,
    }
}

/// The instructions that bring two operands to the kind they are joined to, after the
/// instructions `before`: the left operand's conversion, then the right one's.
spec fn conversions(before: Seq<Instruction>, lhs: NumberOrRegister, rhs: NumberOrRegister) -> Seq<Instruction> {
    let k = join(operand_kind(lhs), operand_kind(rhs));
    let first = conversion(lhs, k, count(before, k) as int);
    first + conversion(rhs, k, (count(before, k) + first.len()) as int)
}

/// Whether an operand is a vector register.
fn operand_is_vector(o: &NumberOrRegister) -> (r: bool)
    ensures
        r == (operand_kind(*o) == BinaryValueType::Vector),
{
    matches!(o, NumberOrRegister::Register { register: Register::Vector(_), .. })
}

/// Whether an operand is a color register.
fn operand_is_rgb(o: &NumberOrRegister) -> (r: bool)
    ensures
        r == (operand_kind(*o) == BinaryValueType::Rgb),
{
    matches!(o, NumberOrRegister::Register { register: Register::Rgb(_), .. })
}

/// `c` is an operand of the expression numbered `e`.
spec fn child_of(nodes: Seq<ComplexExpression>, e: int, c: usize) -> bool {
    exists|j: int|
        0 <= j < operands(nodes[e]).len() && #[trigger] operands(nodes[e])[j] == Expression::Complex(ExpressionId(c))
}

/// What one attempt at the expression numbered `e` gives: an operand to compute first,
/// which is then seen; its register, of the kind of the expression and holding what the
/// expression computes; or the finding that the expression has no kind.
spec fn step_ok(
    nodes: Seq<ComplexExpression>,
    available: Inputs,
    e: int,
    instructions: Seq<Instruction>,
    status: Seq<Option<ExpressionStatus>>,
    r: Result<Step, CompileError>,
) -> bool {
    match r {
        Ok(Step::Blocked(c)) => child_of(nodes, e, c) && status[c as int] == Some(ExpressionStatus::Pending),
        Ok(Step::Done(register, deps)) => check_node(nodes, e, available) == Some(kind_of(register)) && register_ok(
            instructions,
            kind_of(register),
            index_of(register),
            deps,
        ) && register_term(instructions, kind_of(register), index_of(register)) == node_term(nodes, e),
        Err(err) => error_ok(nodes, available, e, err),
    }
}

/// What an error found at the expression numbered `e` tells: a vector used as a number
/// leaves it without a kind even with every input available; an input that is not
/// available leaves it without a kind in this program.
spec fn error_ok(nodes: Seq<ComplexExpression>, available: Inputs, e: int, err: CompileError) -> bool {
    &&& check_node(nodes, e, available) is None
    &&& match err {
        CompileError::VectorAsNumber => check_node(nodes, e, spec_all()) is None,
        CompileError::UnavailableNumberInput(i) => !subset(number_input_set(i), available) && subset(
            number_input_set(i),
            node_inputs(nodes, e),
        ),
        CompileError::UnavailableVectorInput(i) => !subset(vector_input_set(i), available) && subset(
            vector_input_set(i),
            node_inputs(nodes, e),
        ),
        CompileError::Incomplete => false,
    }
}

/// An operand names only an expression below its own, and so has that one's kind.
proof fn lemma_operand(nodes: Seq<ComplexExpression>, e: int, j: int)
    requires
        ranked(nodes),
        0 <= e < nodes.len(),
        0 <= j < operands(nodes[e]).len(),
    ensures
        operands(nodes[e])[j] matches Expression::Complex(c) ==> c.0 < e,
        forall|available: Inputs|
            #[trigger] check_operand(nodes, operands(nodes[e])[j], e, available) == check(
                nodes,
                operands(nodes[e])[j],
                available,
            ),
        forall|to: BinaryValueType|
            #[trigger] operand_term(nodes, operands(nodes[e])[j], e, to) == expression_term(
                nodes,
                operands(nodes[e])[j],
                to,
            ),
{
    let o = operands(nodes[e])[j];
    if let Expression::Complex(c) = o {
        assert(c.0 < e);
    }
}

/// A number operand holds the same, and stays readable, while what is kept is kept.
proof fn lemma_value_kept(a: State, b: State, v: NumberValue, d: Inputs)
    requires
        a.keeps(&b),
        number_value_ok(a.instructions@, v, d),
    ensures
        number_value_ok(b.instructions@, v, d),
        number_term(b.instructions@, v) == number_term(a.instructions@, v),
{
    if let NumberValue::Register(r) = v {
        assert(register_ok(b.instructions@, BinaryValueType::Number, r.0 as int, d));
        assert(register_term(b.instructions@, BinaryValueType::Number, r.0 as int) == register_term(
            a.instructions@,
            BinaryValueType::Number,
            r.0 as int,
        ));
    }
}

/// A number operand that fits an instruction that depends on at least what it does.
proof fn lemma_number_value_fits(instructions: Seq<Instruction>, v: NumberValue, d: Inputs, deps: Inputs)
    requires
        number_value_ok(instructions, v, d),
        subset(d, deps),
    ensures
        reads_fit(instructions, number_reads(v), deps),
        subset(number_inputs(v), deps),
{
    if let NumberValue::Register(r) = v {
        assert(number_reads(v)[0] == (BinaryValueType::Number, r.0 as int));
    }
}

spec fn is_done(s: Option<ExpressionStatus>) -> bool {
    s matches Some(ExpressionStatus::Done { .. })
}

/// How many expressions are done.
spec fn done_count(s: Seq<Option<ExpressionStatus>>) -> nat
    decreases s.len(),
{
    if s.len() == 0 {
        0
    } else {
        done_count(s.drop_last()) + (if is_done(s.last()) {
            1nat
        } else {
            0nat
        })
    }
}

proof fn lemma_done_count_bound(s: Seq<Option<ExpressionStatus>>)
    ensures
        done_count(s) <= s.len(),
    decreases s.len(),
{
    if s.len() > 0 {
        lemma_done_count_bound(s.drop_last());
    }
}

proof fn lemma_done_count_same(a: Seq<Option<ExpressionStatus>>, b: Seq<Option<ExpressionStatus>>)
    requires
        a.len() == b.len(),
        forall|i: int| 0 <= i < a.len() ==> #[trigger] is_done(a[i]) == is_done(b[i]),
    ensures
        done_count(a) == done_count(b),
    decreases a.len(),
{
    if a.len() > 0 {
        assert forall|i: int| 0 <= i < a.drop_last().len() implies #[trigger] is_done(a.drop_last()[i]) == is_done(
            b.drop_last()[i],
        ) by {
            assert(is_done(a[i]) == is_done(b[i]));
        }
        lemma_done_count_same(a.drop_last(), b.drop_last());
        assert(is_done(a[a.len() - 1]) == is_done(b[b.len() - 1]));
    }
}

proof fn lemma_done_count_set(s: Seq<Option<ExpressionStatus>>, i: int, v: Option<ExpressionStatus>)
    requires
        0 <= i < s.len(),
        !is_done(s[i]),
        is_done(v),
    ensures
        done_count(s.update(i, v)) == done_count(s) + 1,
    decreases s.len(),
{
    let u = s.update(i, v);
    if i == s.len() - 1 {
        assert(u.drop_last() =~= s.drop_last());
    } else {
        assert(u.drop_last() =~= s.drop_last().update(i, v));
        lemma_done_count_set(s.drop_last(), i, v);
    }
}

proof fn lemma_done_count_zero(s: Seq<Option<ExpressionStatus>>)
    requires
        forall|i: int| 0 <= i < s.len() ==> !#[trigger] is_done(s[i]),
    ensures
        done_count(s) == 0,
    decreases s.len(),
{
    if s.len() > 0 {
        assert forall|i: int| 0 <= i < s.drop_last().len() implies !#[trigger] is_done(s.drop_last()[i]) by {
            assert(!is_done(s[i]));
        }
        lemma_done_count_zero(s.drop_last());
        assert(!is_done(s[s.len() - 1]));
    }
}

/// A sequence with an expression that is not done has fewer done than its length.
proof fn lemma_done_count_below(s: Seq<Option<ExpressionStatus>>, i: int)
    requires
        0 <= i < s.len(),
        !is_done(s[i]),
    ensures
        done_count(s) < s.len(),
    decreases s.len(),
{
    lemma_done_count_bound(s.drop_last());
    if i < s.len() - 1 {
        lemma_done_count_below(s.drop_last(), i);
    }
}

/// Numbers that fall from the first to the last, all below `n`, are at most `n`.
proof fn lemma_falling_len(s: Seq<usize>, n: int)
    requires
        0 <= n,
        forall|i: int| 0 <= i < s.len() ==> #[trigger] s[i] < n,
        forall|i: int, j: int| 0 <= i < j < s.len() ==> #[trigger] s[j] < #[trigger] s[i],
    ensures
        s.len() <= n,
    decreases s.len(),
{
    if s.len() > 0 {
        let rest = s.subrange(1, s.len() as int);
        assert forall|i: int| 0 <= i < rest.len() implies #[trigger] rest[i] < s[0] by {
            assert(s[i + 1] < s[0]);
        }
        assert forall|i: int, j: int| 0 <= i < j < rest.len() implies #[trigger] rest[j] < #[trigger] rest[i] by {
            assert(s[j + 1] < s[i + 1]);
        }
        lemma_falling_len(rest, s[0] as int);
    }
}

/// An operand numbered `c` is below the expression it belongs to.
proof fn lemma_child_below(nodes: Seq<ComplexExpression>, p: int, c: usize)
    requires
        ranked(nodes),
        0 <= p < nodes.len(),
        child_of(nodes, p, c),
    ensures
        0 <= c < p,
{
    let j = choose|j: int|
        0 <= j < operands(nodes[p]).len() && #[trigger] operands(nodes[p])[j] == Expression::Complex(ExpressionId(c));
    lemma_operand(nodes, p, j);
}

/// An expression with an operand that has no kind has none either.
proof fn lemma_child_fails(nodes: Seq<ComplexExpression>, p: int, c: usize, available: Inputs)
    requires
        ranked(nodes),
        0 <= p < nodes.len(),
        child_of(nodes, p, c),
        check_node(nodes, c as int, available) is None,
    ensures
        check_node(nodes, p, available) is None,
{
    let j = choose|j: int|
        0 <= j < operands(nodes[p]).len() && #[trigger] operands(nodes[p])[j] == Expression::Complex(ExpressionId(c));
    lemma_operand(nodes, p, j);
    lemma_child_below(nodes, p, c);
    assert(check_operand(nodes, operands(nodes[p])[j], p, available) is None);
    match nodes[p] {
        ComplexExpression::Vector { x, y, z, w } => {
            assert(j == 0 || j == 1 || j == 2 || j == 3);
        },
        ComplexExpression::Rgb { red, green, blue } => {
            assert(j == 0 || j == 1 || j == 2);
        },
        ComplexExpression::Binary { lhs, rhs, .. } => {
            assert(j == 0 || j == 1);
        },
        ComplexExpression::Mix { amount, lhs, rhs } => {
            assert(j == 0 || j == 1 || j == 2);
        },
        ComplexExpression::Clamp { value, min, max } => {
            assert(j == 0 || j == 1 || j == 2);
        },
        ComplexExpression::Fresnel { ior, env_ior } => {
            assert(j == 0 || j == 1);
        },
        _ => {},
    }
}

/// Along a chain of operands, an expression without a kind leaves the first without one.
proof fn lemma_chain_fails(nodes: Seq<ComplexExpression>, s: Seq<usize>, k: int, available: Inputs)
    requires
        ranked(nodes),
        forall|i: int| 0 <= i < s.len() ==> #[trigger] s[i] < nodes.len(),
        forall|i: int| 0 <= i < s.len() - 1 ==> #[trigger] child_of(nodes, s[i] as int, s[i + 1]),
        0 <= k < s.len(),
        check_node(nodes, s[k] as int, available) is None,
    ensures
        check_node(nodes, s[0] as int, available) is None,
    decreases k,
{
    if k > 0 {
        assert(child_of(nodes, s[k - 1] as int, s[(k - 1) + 1]));
        lemma_child_fails(nodes, s[k - 1] as int, s[k], available);
        lemma_chain_fails(nodes, s, k - 1, available);
    }
}

/// What an operand reads, the expression that reads it reads too.
proof fn lemma_child_inputs(nodes: Seq<ComplexExpression>, p: int, c: usize)
    requires
        ranked(nodes),
        0 <= p < nodes.len(),
        child_of(nodes, p, c),
    ensures
        subset(node_inputs(nodes, c as int), node_inputs(nodes, p)),
{
    let j = choose|j: int|
        0 <= j < operands(nodes[p]).len() && #[trigger] operands(nodes[p])[j] == Expression::Complex(ExpressionId(c));
    lemma_child_below(nodes, p, c);
    match nodes[p] {
        ComplexExpression::Vector { x, y, z, w } => {
            assert(j == 0 || j == 1 || j == 2 || j == 3);
        },
        ComplexExpression::Rgb { red, green, blue } => {
            assert(j == 0 || j == 1 || j == 2);
        },
        ComplexExpression::Binary { lhs, rhs, .. } => {
            assert(j == 0 || j == 1);
        },
        ComplexExpression::Mix { amount, lhs, rhs } => {
            assert(j == 0 || j == 1 || j == 2);
        },
        ComplexExpression::Clamp { value, min, max } => {
            assert(j == 0 || j == 1 || j == 2);
        },
        ComplexExpression::Fresnel { ior, env_ior } => {
            assert(j == 0 || j == 1);
        },
        ComplexExpression::Blackbody { temperature } => {
            assert(j == 0);
        },
        _ => {},
    }
}

/// What an expression down a chain of operands reads, the first one reads too.
proof fn lemma_chain_inputs(nodes: Seq<ComplexExpression>, s: Seq<usize>, k: int)
    requires
        ranked(nodes),
        forall|i: int| 0 <= i < s.len() ==> #[trigger] s[i] < nodes.len(),
        forall|i: int| 0 <= i < s.len() - 1 ==> #[trigger] child_of(nodes, s[i] as int, s[i + 1]),
        0 <= k < s.len(),
    ensures
        subset(node_inputs(nodes, s[k] as int), node_inputs(nodes, s[0] as int)),
    decreases k,
{
    if k > 0 {
        assert(child_of(nodes, s[k - 1] as int, s[(k - 1) + 1]));
        lemma_child_inputs(nodes, s[k - 1] as int, s[k]);
        lemma_chain_inputs(nodes, s, k - 1);
    }
}

/// The instructions read only inputs that are available.
pub open spec fn reads_available(instructions: Seq<Instruction>, available: Inputs) -> bool {
    forall|k: int| 0 <= k < instructions.len() ==> #[trigger] subset(direct_inputs(instructions[k].instruction_type), available)
}

/// A register of `kind` numbered `index` is written, and what it depends on is in `deps`.
pub open spec fn register_ok(instructions: Seq<Instruction>, kind: BinaryValueType, index: int, deps: Inputs) -> bool {
    &&& 0 <= index < count(instructions, kind)
    &&& subset(register_dependencies(instructions, kind)[index], deps)
}

/// A number operand that the instructions can read, with what it depends on in `deps`.
pub open spec fn number_value_ok(instructions: Seq<Instruction>, v: NumberValue, deps: Inputs) -> bool {
    match v {
        NumberValue::Constant(_) => true,
        NumberValue::Input(i) => subset(number_input_set(i), deps),
        NumberValue::Register(r) => register_ok(instructions, BinaryValueType::Number, r.0 as int, deps),
    }
}

/// An expression that is done has a register of its kind that holds what it computes.
spec fn status_ok(
    nodes: Seq<ComplexExpression>,
    available: Inputs,
    instructions: Seq<Instruction>,
    id: int,
    s: Option<ExpressionStatus>,
) -> bool {
    s matches Some(ExpressionStatus::Done { register, dependencies }) ==> {
        &&& check_node(nodes, id, available) == Some(kind_of(register))
        &&& register_ok(instructions, kind_of(register), index_of(register), dependencies)
        &&& register_term(instructions, kind_of(register), index_of(register)) == node_term(nodes, id)
    }
}

/// The registers written by `a` hold the same after `b`.
spec fn terms_kept(a: Seq<Instruction>, b: Seq<Instruction>) -> bool {
    forall|kind: BinaryValueType, index: int|
        0 <= index < count(a, kind) ==> #[trigger] register_term(b, kind, index) == register_term(a, kind, index)
}

/// A register stays written, with what it depends on, as instructions are added.
proof fn lemma_register_ok_push(instructions: Seq<Instruction>, i: Instruction, kind: BinaryValueType, index: int, deps: Inputs)
    requires
        well_formed(instructions),
        instruction_fits(instructions, i),
        register_ok(instructions, kind, index, deps),
    ensures
        register_ok(instructions.push(i), kind, index, deps),
{
    lemma_push(instructions, i);
    assert(count(instructions.push(i), kind) >= count(instructions, kind));
    assert(register_dependencies(instructions.push(i), kind)[index] == register_dependencies(instructions, kind)[index]);
}

/// The state of a compilation: how far each expression has come, and the instructions
/// and registers so far.
struct State {
    status: Vec<Option<ExpressionStatus>>,
    instructions: Vec<Instruction>,
    numbers: RegisterCounter<NumberRegister>,
    vectors: RegisterCounter<VectorRegister>,
    rgbs: RegisterCounter<RgbRegister>,
    nodes: Ghost<Seq<ComplexExpression>>,
    available: Inputs,
}

impl State {
    spec fn counter(&self, kind: BinaryValueType) -> int {
        match kind {
            BinaryValueType::Number => self.numbers.handed_out(),
            BinaryValueType::Vector => self.vectors.handed_out(),
            BinaryValueType::Rgb => self.rgbs.handed_out(),
        }
    }

    spec fn inv(&self) -> bool {
        &&& self.status@.len() == self.nodes@.len()
        &&& ranked(self.nodes@)
        &&& well_formed(self.instructions@)
        &&& self.numbers.handed_out() == count(self.instructions@, BinaryValueType::Number)
        &&& self.vectors.handed_out() == count(self.instructions@, BinaryValueType::Vector)
        &&& self.rgbs.handed_out() == count(self.instructions@, BinaryValueType::Rgb)
        &&& reads_available(self.instructions@, self.available)
        &&& forall|id: int|
            0 <= id < self.status@.len() ==> #[trigger] status_ok(self.nodes@, self.available, self.instructions@, id, self.status@[id])
    }

    /// Room for more instructions.
    spec fn room(&self, more: int) -> bool {
        self.instructions@.len() + more < usize::MAX
    }

    /// What stays between attempts: the same expressions are done, with the same results,
    /// and those seen stay seen.
    spec fn keeps(&self, other: &State) -> bool {
        &&& self.nodes@ == other.nodes@
        &&& self.available == other.available
        &&& self.status@.len() == other.status@.len()
        &&& forall|i: int|
            0 <= i < self.status@.len() ==> {
                &&& #[trigger] is_done(other.status@[i]) == is_done(self.status@[i])
                &&& (is_done(self.status@[i]) ==> other.status@[i] == self.status@[i])
                &&& (self.status@[i] is Some ==> other.status@[i] is Some)
            }
        &&& self.instructions@.len() <= other.instructions@.len()
        &&& forall|kind: BinaryValueType, index: int, deps: Inputs|
            register_ok(self.instructions@, kind, index, deps) ==> #[trigger] register_ok(
                other.instructions@,
                kind,
                index,
                deps,
            )
        &&& forall|kind: BinaryValueType| count(self.instructions@, kind) <= #[trigger] count(other.instructions@, kind)
        &&& terms_kept(self.instructions@, other.instructions@)
    }

    /// Keeping is transitive.
    proof fn lemma_keeps_trans(a: State, b: State, c: State)
        requires
            a.keeps(&b),
            b.keeps(&c),
        ensures
            a.keeps(&c),
    {
        assert forall|kind: BinaryValueType, index: int, deps: Inputs|
            register_ok(a.instructions@, kind, index, deps) implies #[trigger] register_ok(
            c.instructions@,
            kind,
            index,
            deps,
        ) by {
            assert(register_ok(b.instructions@, kind, index, deps));
        }
        assert forall|kind: BinaryValueType, index: int|
            0 <= index < count(a.instructions@, kind) implies #[trigger] register_term(c.instructions@, kind, index)
            == register_term(a.instructions@, kind, index) by {
            lemma_count(a.instructions@, kind);
            let deps = register_dependencies(a.instructions@, kind)[index];
            assert(register_ok(a.instructions@, kind, index, deps));
            assert(register_ok(b.instructions@, kind, index, deps));
            assert(register_term(b.instructions@, kind, index) == register_term(a.instructions@, kind, index));
        }
        assert forall|i: int| 0 <= i < a.status@.len() implies {
            &&& #[trigger] is_done(c.status@[i]) == is_done(a.status@[i])
            &&& (is_done(a.status@[i]) ==> c.status@[i] == a.status@[i])
            &&& (a.status@[i] is Some ==> c.status@[i] is Some)
        } by {
            assert(is_done(b.status@[i]) == is_done(a.status@[i]));
            assert(is_done(c.status@[i]) == is_done(b.status@[i]));
        }
    }

    /// Adds an instruction that fits, whose register was just handed out.
    fn push(&mut self, i: Instruction)
        requires
            old(self).status@.len() == old(self).nodes@.len(),
            ranked(old(self).nodes@),
            well_formed(old(self).instructions@),
            instruction_fits(old(self).instructions@, i),
            reads_available(old(self).instructions@, old(self).available),
            subset(direct_inputs(i.instruction_type), old(self).available),
            forall|kind: BinaryValueType|
                #[trigger] old(self).counter(kind) == count(old(self).instructions@, kind) + (if written(i.instruction_type).0
                    == kind {
                    1int
                } else {
                    0int
                }),
            forall|id: int|
                0 <= id < old(self).status@.len() ==> #[trigger] status_ok(old(self).nodes@, old(self).available, old(self).instructions@, id, old(self).status@[id]),
        ensures
            final(self).inv(),
            final(self).instructions@ == old(self).instructions@.push(i),
            final(self).status@ == old(self).status@,
            final(self).nodes@ == old(self).nodes@,
            final(self).available == old(self).available,
            forall|kind: BinaryValueType| #[trigger] final(self).counter(kind) == old(self).counter(kind),
            forall|kind: BinaryValueType, index: int, deps: Inputs|
                register_ok(old(self).instructions@, kind, index, deps) ==> #[trigger] register_ok(
                    final(self).instructions@,
                    kind,
                    index,
                    deps,
                ),
            register_ok(
                final(self).instructions@,
                written(i.instruction_type).0,
                written(i.instruction_type).1,
                i.dependencies,
            ),
            terms_kept(old(self).instructions@, final(self).instructions@),
            forall|kind: BinaryValueType| count(old(self).instructions@, kind) <= #[trigger] count(final(self).instructions@, kind),
            register_term(final(self).instructions@, written(i.instruction_type).0, written(i.instruction_type).1)
                == instruction_term(old(self).instructions@, i.instruction_type),
    {
        let ghost before = self.instructions@;
        self.instructions.push(i);
        proof {
            lemma_register_term_push(before, i);
            assert forall|k: int| 0 <= k < self.instructions@.len() implies #[trigger] subset(
                direct_inputs(self.instructions@[k].instruction_type),
                self.available,
            ) by {
                if k < before.len() {
                    assert(self.instructions@[k] == before[k]);
                }
            }
            lemma_push(before, i);
            assert(self.instructions@ == before.push(i));
            assert(self.counter(BinaryValueType::Number) == old(self).counter(BinaryValueType::Number));
            assert(self.counter(BinaryValueType::Vector) == old(self).counter(BinaryValueType::Vector));
            assert(self.counter(BinaryValueType::Rgb) == old(self).counter(BinaryValueType::Rgb));
            assert forall|id: int| 0 <= id < self.status@.len() implies #[trigger] status_ok(
                self.nodes@, self.available,
                self.instructions@,
                id,
                self.status@[id],
            ) by {
                assert(status_ok(self.nodes@, self.available, before, id, self.status@[id]));
                if let Some(ExpressionStatus::Done { register, dependencies }) = self.status@[id] {
                    lemma_register_ok_push(before, i, kind_of(register), index_of(register), dependencies);
                    assert(register_term(self.instructions@, kind_of(register), index_of(register)) == register_term(
                        before,
                        kind_of(register),
                        index_of(register),
                    ));
                }
            }
            assert forall|kind: BinaryValueType, index: int, deps: Inputs|
                register_ok(before, kind, index, deps) implies #[trigger] register_ok(self.instructions@, kind, index, deps) by {
                lemma_register_ok_push(before, i, kind, index, deps);
            }
        }
    }

    /// The input `input` as a number operand, with the inputs it depends on, if the
    /// program can read it.
    fn get_number_input(&self, input: NumberInput) -> (r: Result<(NumberValue, Inputs), CompileError>)
        ensures
            r matches Ok(v) ==> v.0 == NumberValue::Input(input) && v.1 == number_input_set(input) && subset(
                v.1,
                self.available,
            ),
            r matches Err(e) ==> e == CompileError::UnavailableNumberInput(input) && !subset(
                number_input_set(input),
                self.available,
            ),
    {
        let set = Inputs::from_number(input);
        if set.intersects(self.available) {
            Ok((NumberValue::Input(input), set))
        } else {
            Err(CompileError::UnavailableNumberInput(input))
        }
    }

    /// The input `input` as a vector operand, with the inputs it depends on, if the
    /// program can read it.
    fn get_vector_input(&self, input: VectorInput) -> (r: Result<(VectorValue, Inputs), CompileError>)
        ensures
            r matches Ok(v) ==> v.0 == VectorValue::Input(input) && v.1 == vector_input_set(input) && subset(
                v.1,
                self.available,
            ),
            r matches Err(e) ==> e == CompileError::UnavailableVectorInput(input) && !subset(
                vector_input_set(input),
                self.available,
            ),
    {
        let set = Inputs::from_vector(input);
        if set.intersects(self.available) {
            Ok((VectorValue::Input(input), set))
        } else {
            Err(CompileError::UnavailableVectorInput(input))
        }
    }

    /// The operand `e` as a number: a constant, a number register, or a color register
    /// turned into a number at the wavelength by a new instruction.
    fn try_get_number_value(&mut self, e: Expression) -> (r: Result<Result<(NumberValue, Inputs), usize>, CompileError>)
        requires
            old(self).inv(),
            old(self).room(1),
            e matches Expression::Complex(c) ==> c.0 < old(self).nodes@.len(),
        ensures
            final(self).inv(),
            old(self).keeps(&*final(self)),
            final(self).instructions@.len() <= old(self).instructions@.len() + 1,
            match r {
                Ok(Ok((v, d))) => number_ok(check(final(self).nodes@, e, final(self).available), final(self).available)
                    && number_value_ok(final(self).instructions@, v, d) && !(v is Input) && number_term(
                    final(self).instructions@,
                    v,
                ) == expression_term(final(self).nodes@, e, BinaryValueType::Number),
                Ok(Err(c)) => e == Expression::Complex(ExpressionId(c)) && final(self).status@[c as int] == Some(
                    ExpressionStatus::Pending,
                ),
                Err(err) => {
                    ||| err == CompileError::VectorAsNumber && check(final(self).nodes@, e, final(self).available) == Some(
                        BinaryValueType::Vector,
                    ) && check(final(self).nodes@, e, spec_all()) == Some(BinaryValueType::Vector)
                    ||| err == CompileError::UnavailableNumberInput(NumberInput::Wavelength) && check(
                        final(self).nodes@,
                        e,
                        final(self).available,
                    ) == Some(BinaryValueType::Rgb) && !final(self).available.wavelength && check(
                        final(self).nodes@,
                        e,
                        spec_all(),
                    ) == Some(BinaryValueType::Rgb)
                },
            },
    {
        match self.try_get_register(e) {
            Ok(NumberOrRegister::Number(n)) => Ok(Ok((NumberValue::Constant(n), Inputs::empty()))),
            Ok(NumberOrRegister::Register { register: Register::Number(r), dependencies }) => Ok(
                Ok((NumberValue::Register(r), dependencies)),
            ),
            Ok(NumberOrRegister::Register { register: Register::Vector(_), .. }) => {
                proof {
                    if let Expression::Complex(c) = e {
                        lemma_check_all(self.nodes@, c.0 as int, self.available);
                    }
                }
                Err(CompileError::VectorAsNumber)
            },
            Ok(NumberOrRegister::Register { register: Register::Rgb(rgb), dependencies }) => {
                let ghost mid = *self;
                proof {
                    if let Expression::Complex(c) = e {
                        lemma_check_all(self.nodes@, c.0 as int, self.available);
                    }
                }
                let (wavelength, wavelength_deps) = match self.get_number_input(NumberInput::Wavelength) {
                    Ok(v) => v,
                    Err(err) => {
                        return Err(err);
                    },
                };
                let output = self.next_number();
                let dependencies = dependencies.union(wavelength_deps);
                let i = Instruction {
                    instruction_type: InstructionType::RgbSpectrumValue { wavelength, source: rgb, output },
                    dependencies,
                };
                proof {
                    let t = i.instruction_type;
                    assert(reads(t) =~= seq![(BinaryValueType::Rgb, rgb.0 as int)]);
                }
                self.push(i);
                proof {
                    assert(mid.keeps(&*self));
                    State::lemma_keeps_trans(*old(self), mid, *self);
                }
                Ok(Ok((NumberValue::Register(output), dependencies)))
            },
            Err(c) => Ok(Err(c)),
        }
    }

    /// The next number register.
    fn next_number(&mut self) -> (r: NumberRegister)
        requires
            old(self).inv(),
            old(self).room(1),
        ensures
            r.0 == count(old(self).instructions@, BinaryValueType::Number),
            final(self).numbers.handed_out() == old(self).numbers.handed_out() + 1,
            final(self).vectors == old(self).vectors,
            final(self).rgbs == old(self).rgbs,
            final(self).status == old(self).status,
            final(self).instructions == old(self).instructions,
            final(self).nodes == old(self).nodes,
            final(self).available == old(self).available,
    {
        proof {
            lemma_count(self.instructions@, BinaryValueType::Number);
        }
        self.numbers.next()
    }

    /// The next vector register.
    fn next_vector(&mut self) -> (r: VectorRegister)
        requires
            old(self).inv(),
            old(self).room(1),
        ensures
            r.0 == count(old(self).instructions@, BinaryValueType::Vector),
            final(self).vectors.handed_out() == old(self).vectors.handed_out() + 1,
            final(self).numbers == old(self).numbers,
            final(self).rgbs == old(self).rgbs,
            final(self).status == old(self).status,
            final(self).instructions == old(self).instructions,
            final(self).nodes == old(self).nodes,
            final(self).available == old(self).available,
    {
        proof {
            lemma_count(self.instructions@, BinaryValueType::Vector);
        }
        self.vectors.next()
    }

    /// The next color register.
    fn next_rgb(&mut self) -> (r: RgbRegister)
        requires
            old(self).inv(),
            old(self).room(1),
        ensures
            r.0 == count(old(self).instructions@, BinaryValueType::Rgb),
            final(self).rgbs.handed_out() == old(self).rgbs.handed_out() + 1,
            final(self).numbers == old(self).numbers,
            final(self).vectors == old(self).vectors,
            final(self).status == old(self).status,
            final(self).instructions == old(self).instructions,
            final(self).nodes == old(self).nodes,
            final(self).available == old(self).available,
    {
        proof {
            lemma_count(self.instructions@, BinaryValueType::Rgb);
        }
        self.rgbs.next()
    }

    /// A new number register holding the constant `number`.
    fn number_value(&mut self, number: Constant) -> (r: NumberRegister)
        requires
            old(self).inv(),
            old(self).room(1),
        ensures
            final(self).inv(),
            old(self).keeps(&*final(self)),
            final(self).instructions@.len() == old(self).instructions@.len() + 1,
            register_ok(final(self).instructions@, BinaryValueType::Number, r.0 as int, spec_empty()),
            register_term(final(self).instructions@, BinaryValueType::Number, r.0 as int) == Term::Constant(number),
            final(self).instructions@ == old(self).instructions@.push(
                Instruction {
                instruction_type: InstructionType::NumberValue { number, output: r },
                dependencies: spec_empty(),
            },
            ),
            r.0 == count(old(self).instructions@, BinaryValueType::Number),
            forall|k: BinaryValueType|
                #[trigger] final(self).counter(k) == old(self).counter(k) + (if k == BinaryValueType::Number {
                    1int
                } else {
                    0int
                }),
    {
        let output = self.next_number();
        let i = Instruction {
            instruction_type: InstructionType::NumberValue { number, output },
            dependencies: Inputs::empty(),
        };
        proof {
            assert(reads(i.instruction_type) =~= Seq::<(BinaryValueType, int)>::empty());
        }
        self.push(i);
        proof {
            lemma_push(old(self).instructions@, i);
        }
        output
    }

    /// A new vector register with every component the constant `number`.
    fn number_constant_to_vector(&mut self, number: Constant) -> (r: VectorRegister)
        requires
            old(self).inv(),
            old(self).room(1),
        ensures
            final(self).inv(),
            old(self).keeps(&*final(self)),
            final(self).instructions@.len() == old(self).instructions@.len() + 1,
            register_ok(final(self).instructions@, BinaryValueType::Vector, r.0 as int, spec_empty()),
            register_term(final(self).instructions@, BinaryValueType::Vector, r.0 as int) == convert_term(
                Term::Constant(number),
                BinaryValueType::Number,
                BinaryValueType::Vector,
            ),
            final(self).instructions@ == old(self).instructions@.push(
                Instruction {
                instruction_type: InstructionType::VectorValue {
                    x: NumberValue::Constant(number),
                    y: NumberValue::Constant(number),
                    z: NumberValue::Constant(number),
                    w: NumberValue::Constant(number),
                    output: r,
                },
                dependencies: spec_empty(),
            },
            ),
            r.0 == count(old(self).instructions@, BinaryValueType::Vector),
            forall|k: BinaryValueType|
                #[trigger] final(self).counter(k) == old(self).counter(k) + (if k == BinaryValueType::Vector {
                    1int
                } else {
                    0int
                }),
    {
        let output = self.next_vector();
        let c = NumberValue::Constant(number);
        let i = Instruction {
            instruction_type: InstructionType::VectorValue { x: c, y: c, z: c, w: c, output },
            dependencies: Inputs::empty(),
        };
        proof {
            assert(reads(i.instruction_type) =~= Seq::<(BinaryValueType, int)>::empty());
        }
        self.push(i);
        proof {
            lemma_push(old(self).instructions@, i);
        }
        output
    }

    /// A new vector register with every component the number in `register`.
    fn number_register_to_vector(&mut self, register: NumberRegister, dependencies: Inputs) -> (r: VectorRegister)
        requires
            old(self).inv(),
            old(self).room(1),
            register_ok(old(self).instructions@, BinaryValueType::Number, register.0 as int, dependencies),
        ensures
            final(self).inv(),
            old(self).keeps(&*final(self)),
            final(self).instructions@.len() == old(self).instructions@.len() + 1,
            register_ok(final(self).instructions@, BinaryValueType::Vector, r.0 as int, dependencies),
            register_term(final(self).instructions@, BinaryValueType::Vector, r.0 as int) == convert_term(
                register_term(old(self).instructions@, BinaryValueType::Number, register.0 as int),
                BinaryValueType::Number,
                BinaryValueType::Vector,
            ),
            final(self).instructions@ == old(self).instructions@.push(
                Instruction {
                instruction_type: InstructionType::VectorValue {
                    x: NumberValue::Register(register),
                    y: NumberValue::Register(register),
                    z: NumberValue::Register(register),
                    w: NumberValue::Register(register),
                    output: r,
                },
                dependencies: dependencies,
            },
            ),
            r.0 == count(old(self).instructions@, BinaryValueType::Vector),
            forall|k: BinaryValueType|
                #[trigger] final(self).counter(k) == old(self).counter(k) + (if k == BinaryValueType::Vector {
                    1int
                } else {
                    0int
                }),
    {
        let output = self.next_vector();
        let c = NumberValue::Register(register);
        let i = Instruction {
            instruction_type: InstructionType::VectorValue { x: c, y: c, z: c, w: c, output },
            dependencies,
        };
        proof {
            let n = (BinaryValueType::Number, register.0 as int);
            assert(reads(i.instruction_type) =~= seq![n, n, n, n]);
        }
        self.push(i);
        proof {
            lemma_push(old(self).instructions@, i);
        }
        output
    }

    /// A new vector register from the color in `register`.
    fn rgb_register_to_vector(&mut self, register: RgbRegister, dependencies: Inputs) -> (r: VectorRegister)
        requires
            old(self).inv(),
            old(self).room(1),
            register_ok(old(self).instructions@, BinaryValueType::Rgb, register.0 as int, dependencies),
        ensures
            final(self).inv(),
            old(self).keeps(&*final(self)),
            final(self).instructions@.len() == old(self).instructions@.len() + 1,
            register_ok(final(self).instructions@, BinaryValueType::Vector, r.0 as int, dependencies),
            register_term(final(self).instructions@, BinaryValueType::Vector, r.0 as int) == convert_term(
                register_term(old(self).instructions@, BinaryValueType::Rgb, register.0 as int),
                BinaryValueType::Rgb,
                BinaryValueType::Vector,
            ),
            final(self).instructions@ == old(self).instructions@.push(
                Instruction {
                instruction_type: InstructionType::Convert { conversion: ValueConversion::RgbToVector { source: register, output: r } },
                dependencies: dependencies,
            },
            ),
            r.0 == count(old(self).instructions@, BinaryValueType::Vector),
            forall|k: BinaryValueType|
                #[trigger] final(self).counter(k) == old(self).counter(k) + (if k == BinaryValueType::Vector {
                    1int
                } else {
                    0int
                }),
    {
        let output = self.next_vector();
        let i = Instruction {
            instruction_type: InstructionType::Convert {
                conversion: ValueConversion::RgbToVector { source: register, output },
            },
            dependencies,
        };
        self.push(i);
        proof {
            lemma_push(old(self).instructions@, i);
        }
        output
    }

    /// A new color register with every channel the constant `number`.
    fn number_constant_to_rgb(&mut self, number: Constant) -> (r: RgbRegister)
        requires
            old(self).inv(),
            old(self).room(1),
        ensures
            final(self).inv(),
            old(self).keeps(&*final(self)),
            final(self).instructions@.len() == old(self).instructions@.len() + 1,
            register_ok(final(self).instructions@, BinaryValueType::Rgb, r.0 as int, spec_empty()),
            register_term(final(self).instructions@, BinaryValueType::Rgb, r.0 as int) == convert_term(
                Term::Constant(number),
                BinaryValueType::Number,
                BinaryValueType::Rgb,
            ),
            final(self).instructions@ == old(self).instructions@.push(
                Instruction {
                instruction_type: InstructionType::RgbValue {
                    red: NumberValue::Constant(number),
                    green: NumberValue::Constant(number),
                    blue: NumberValue::Constant(number),
                    output: r,
                },
                dependencies: spec_empty(),
            },
            ),
            r.0 == count(old(self).instructions@, BinaryValueType::Rgb),
            forall|k: BinaryValueType|
                #[trigger] final(self).counter(k) == old(self).counter(k) + (if k == BinaryValueType::Rgb {
                    1int
                } else {
                    0int
                }),
    {
        let output = self.next_rgb();
        let c = NumberValue::Constant(number);
        let i = Instruction {
            instruction_type: InstructionType::RgbValue { red: c, green: c, blue: c, output },
            dependencies: Inputs::empty(),
        };
        proof {
            assert(reads(i.instruction_type) =~= Seq::<(BinaryValueType, int)>::empty());
        }
        self.push(i);
        proof {
            lemma_push(old(self).instructions@, i);
        }
        output
    }

    /// A new color register with every channel the number in `register`.
    fn number_register_to_rgb(&mut self, register: NumberRegister, dependencies: Inputs) -> (r: RgbRegister)
        requires
            old(self).inv(),
            old(self).room(1),
            register_ok(old(self).instructions@, BinaryValueType::Number, register.0 as int, dependencies),
        ensures
            final(self).inv(),
            old(self).keeps(&*final(self)),
            final(self).instructions@.len() == old(self).instructions@.len() + 1,
            register_ok(final(self).instructions@, BinaryValueType::Rgb, r.0 as int, dependencies),
            register_term(final(self).instructions@, BinaryValueType::Rgb, r.0 as int) == convert_term(
                register_term(old(self).instructions@, BinaryValueType::Number, register.0 as int),
                BinaryValueType::Number,
                BinaryValueType::Rgb,
            ),
            final(self).instructions@ == old(self).instructions@.push(
                Instruction {
                instruction_type: InstructionType::RgbValue {
                    red: NumberValue::Register(register),
                    green: NumberValue::Register(register),
                    blue: NumberValue::Register(register),
                    output: r,
                },
                dependencies: dependencies,
            },
            ),
            r.0 == count(old(self).instructions@, BinaryValueType::Rgb),
            forall|k: BinaryValueType|
                #[trigger] final(self).counter(k) == old(self).counter(k) + (if k == BinaryValueType::Rgb {
                    1int
                } else {
                    0int
                }),
    {
        let output = self.next_rgb();
        let c = NumberValue::Register(register);
        let i = Instruction {
            instruction_type: InstructionType::RgbValue { red: c, green: c, blue: c, output },
            dependencies,
        };
        proof {
            let n = (BinaryValueType::Number, register.0 as int);
            assert(reads(i.instruction_type) =~= seq![n, n, n]);
        }
        self.push(i);
        proof {
            lemma_push(old(self).instructions@, i);
        }
        output
    }

    /// A vector from four numbers.
    #[verifier::rlimit(60)]
    #[verifier::spinoff_prover]
    fn compile_vector(&mut self, e: usize, x: Expression, y: Expression, z: Expression, w: Expression) -> (r: Result<Step, CompileError>)
        requires
            old(self).inv(),
            e < old(self).nodes@.len(),
            old(self).nodes@[e as int] == (ComplexExpression::Vector { x, y, z, w }),
            old(self).room(5),
        ensures
            final(self).inv(),
            old(self).keeps(&*final(self)),
            final(self).instructions@.len() <= old(self).instructions@.len() + 5,
            step_ok(final(self).nodes@, final(self).available, e as int, final(self).instructions@, final(self).status@, r),
    {
        let ghost nodes = self.nodes@;
        proof {
            lemma_operand(nodes, e as int, 0);
            lemma_operand(nodes, e as int, 1);
            lemma_operand(nodes, e as int, 2);
            lemma_operand(nodes, e as int, 3);
        }
        let (x, x_deps) = match self.try_get_number_value(x) {
            Err(err) => {
                return Err(err);
            },
            Ok(Err(c)) => {
                proof {
                    assert(operands(nodes[e as int])[0] == Expression::Complex(ExpressionId(c)));
                }
                return Ok(Step::Blocked(c));
            },
            Ok(Ok(v)) => v,
        };
        let ghost sx = *self;
        let (y, y_deps) = match self.try_get_number_value(y) {
            Err(err) => {
                return Err(err);
            },
            Ok(Err(c)) => {
                proof {
                    assert(operands(nodes[e as int])[1] == Expression::Complex(ExpressionId(c)));
                }
                return Ok(Step::Blocked(c));
            },
            Ok(Ok(v)) => v,
        };
        let ghost sy = *self;
        let (z, z_deps) = match self.try_get_number_value(z) {
            Err(err) => {
                return Err(err);
            },
            Ok(Err(c)) => {
                proof {
                    assert(operands(nodes[e as int])[2] == Expression::Complex(ExpressionId(c)));
                }
                return Ok(Step::Blocked(c));
            },
            Ok(Ok(v)) => v,
        };
        let ghost sz = *self;
        let (w, w_deps) = match self.try_get_number_value(w) {
            Err(err) => {
                return Err(err);
            },
            Ok(Err(c)) => {
                proof {
                    assert(operands(nodes[e as int])[3] == Expression::Complex(ExpressionId(c)));
                }
                return Ok(Step::Blocked(c));
            },
            Ok(Ok(v)) => v,
        };
        let output = self.next_vector();
        let ghost before_push = self.instructions@;
        proof {
            assert(sz.keeps(&*self));
            State::lemma_keeps_trans(sy, sz, *self);
            State::lemma_keeps_trans(sx, sy, *self);
            State::lemma_keeps_trans(*old(self), sx, *self);
        }
        let dependencies = x_deps.union(y_deps).union(z_deps).union(w_deps);
        let i = Instruction {
            instruction_type: InstructionType::VectorValue { x, y, z, w, output },
            dependencies,
        };
        proof {
            let before = self.instructions@;
            lemma_value_kept(sx, *self, x, x_deps);
            lemma_value_kept(sy, *self, y, y_deps);
            lemma_value_kept(sz, *self, z, z_deps);
            lemma_number_value_fits(before, x, x_deps, dependencies);
            lemma_number_value_fits(before, y, y_deps, dependencies);
            lemma_number_value_fits(before, z, z_deps, dependencies);
            lemma_number_value_fits(before, w, w_deps, dependencies);
            lemma_reads_fit(before, number_reads(x), number_reads(y), dependencies);
            lemma_reads_fit(before, number_reads(x) + number_reads(y), number_reads(z), dependencies);
            lemma_reads_fit(before, number_reads(x) + number_reads(y) + number_reads(z), number_reads(w), dependencies);
        }
        let ghost s_pre = *self;
        self.push(i);
        proof {
            assert(s_pre.keeps(&*self));
            State::lemma_keeps_trans(*old(self), s_pre, *self);
            assert(node_term(nodes, e as int) == instruction_term(before_push, i.instruction_type));
        }
        Ok(Step::Done(Register::Vector(output), dependencies))
    }

    /// A color from three numbers.
    #[verifier::rlimit(60)]
    #[verifier::spinoff_prover]
    fn compile_rgb(&mut self, e: usize, red: Expression, green: Expression, blue: Expression) -> (r: Result<Step, CompileError>)
        requires
            old(self).inv(),
            e < old(self).nodes@.len(),
            old(self).nodes@[e as int] == (ComplexExpression::Rgb { red, green, blue }),
            old(self).room(4),
        ensures
            final(self).inv(),
            old(self).keeps(&*final(self)),
            final(self).instructions@.len() <= old(self).instructions@.len() + 4,
            step_ok(final(self).nodes@, final(self).available, e as int, final(self).instructions@, final(self).status@, r),
    {
        let ghost nodes = self.nodes@;
        proof {
            lemma_operand(nodes, e as int, 0);
            lemma_operand(nodes, e as int, 1);
            lemma_operand(nodes, e as int, 2);
        }
        let (red, red_deps) = match self.try_get_number_value(red) {
            Err(err) => {
                return Err(err);
            },
            Ok(Err(c)) => {
                proof {
                    assert(operands(nodes[e as int])[0] == Expression::Complex(ExpressionId(c)));
                }
                return Ok(Step::Blocked(c));
            },
            Ok(Ok(v)) => v,
        };
        let ghost s_red = *self;
        let (green, green_deps) = match self.try_get_number_value(green) {
            Err(err) => {
                return Err(err);
            },
            Ok(Err(c)) => {
                proof {
                    assert(operands(nodes[e as int])[1] == Expression::Complex(ExpressionId(c)));
                }
                return Ok(Step::Blocked(c));
            },
            Ok(Ok(v)) => v,
        };
        let ghost s_green = *self;
        let (blue, blue_deps) = match self.try_get_number_value(blue) {
            Err(err) => {
                return Err(err);
            },
            Ok(Err(c)) => {
                proof {
                    assert(operands(nodes[e as int])[2] == Expression::Complex(ExpressionId(c)));
                }
                return Ok(Step::Blocked(c));
            },
            Ok(Ok(v)) => v,
        };
        let ghost s_blue = *self;
        let output = self.next_rgb();
        let ghost before_push = self.instructions@;
        proof {
            assert(s_blue.keeps(&*self));
            State::lemma_keeps_trans(s_green, s_blue, *self);
            State::lemma_keeps_trans(s_red, s_green, *self);
            State::lemma_keeps_trans(*old(self), s_red, *self);
        }
        let dependencies = red_deps.union(green_deps).union(blue_deps);
        let i = Instruction {
            instruction_type: InstructionType::RgbValue { red, green, blue, output },
            dependencies,
        };
        proof {
            let before = self.instructions@;
            lemma_value_kept(s_red, *self, red, red_deps);
            lemma_value_kept(s_green, *self, green, green_deps);
            lemma_number_value_fits(before, red, red_deps, dependencies);
            lemma_number_value_fits(before, green, green_deps, dependencies);
            lemma_number_value_fits(before, blue, blue_deps, dependencies);
            lemma_reads_fit(before, number_reads(red), number_reads(green), dependencies);
            lemma_reads_fit(before, number_reads(red) + number_reads(green), number_reads(blue), dependencies);
        }
        let ghost s_pre = *self;
        self.push(i);
        proof {
            assert(s_pre.keeps(&*self));
            State::lemma_keeps_trans(*old(self), s_pre, *self);
            assert(node_term(nodes, e as int) == instruction_term(before_push, i.instruction_type));
        }
        Ok(Step::Done(Register::Rgb(output), dependencies))
    }

    /// The Fresnel factor of the surface at the normal and the incident direction.
    #[verifier::rlimit(60)]
    #[verifier::spinoff_prover]
    fn compile_fresnel(&mut self, e: usize, ior: Expression, env_ior: Expression) -> (r: Result<Step, CompileError>)
        requires
            old(self).inv(),
            e < old(self).nodes@.len(),
            old(self).nodes@[e as int] == (ComplexExpression::Fresnel { ior, env_ior }),
            old(self).room(3),
        ensures
            final(self).inv(),
            old(self).keeps(&*final(self)),
            final(self).instructions@.len() <= old(self).instructions@.len() + 3,
            step_ok(final(self).nodes@, final(self).available, e as int, final(self).instructions@, final(self).status@, r),
    {
        let ghost nodes = self.nodes@;
        proof {
            lemma_operand(nodes, e as int, 0);
            lemma_operand(nodes, e as int, 1);
        }
        let (normal, normal_deps) = match self.get_vector_input(VectorInput::Normal) {
            Ok(v) => v,
            Err(err) => {
                return Err(err);
            },
        };
        let (incident, incident_deps) = match self.get_vector_input(VectorInput::Incident) {
            Ok(v) => v,
            Err(err) => {
                return Err(err);
            },
        };
        let (ior, ior_deps) = match self.try_get_number_value(ior) {
            Err(err) => {
                return Err(err);
            },
            Ok(Err(c)) => {
                proof {
                    assert(operands(nodes[e as int])[0] == Expression::Complex(ExpressionId(c)));
                }
                return Ok(Step::Blocked(c));
            },
            Ok(Ok(v)) => v,
        };
        let ghost s_ior = *self;
        let (env_ior, env_ior_deps) = match self.try_get_number_value(env_ior) {
            Err(err) => {
                return Err(err);
            },
            Ok(Err(c)) => {
                proof {
                    assert(operands(nodes[e as int])[1] == Expression::Complex(ExpressionId(c)));
                }
                return Ok(Step::Blocked(c));
            },
            Ok(Ok(v)) => v,
        };
        let ghost s_env_ior = *self;
        let output = self.next_number();
        let ghost before_push = self.instructions@;
        let dependencies = normal_deps.union(incident_deps).union(ior_deps).union(env_ior_deps);
        let i = Instruction {
            instruction_type: InstructionType::Fresnel { ior, env_ior, normal, incident, output },
            dependencies,
        };
        proof {
            let before = self.instructions@;
            lemma_value_kept(s_ior, *self, ior, ior_deps);
            lemma_number_value_fits(before, ior, ior_deps, dependencies);
            lemma_number_value_fits(before, env_ior, env_ior_deps, dependencies);
            lemma_reads_fit(before, number_reads(ior), number_reads(env_ior), dependencies);
        }
        let ghost s_pre = *self;
        self.push(i);
        proof {
            assert(s_pre.keeps(&*self));
            State::lemma_keeps_trans(*old(self), s_ior, s_env_ior);
            assert(s_env_ior.keeps(&s_pre));
            State::lemma_keeps_trans(*old(self), s_env_ior, s_pre);
            State::lemma_keeps_trans(*old(self), s_pre, *self);
            assert(node_term(nodes, e as int) == instruction_term(before_push, i.instruction_type));
        }
        Ok(Step::Done(Register::Number(output), dependencies))
    }

    /// The emission of a black body of the given temperature at the wavelength.
    #[verifier::rlimit(60)]
    #[verifier::spinoff_prover]
    fn compile_blackbody(&mut self, e: usize, temperature: Expression) -> (r: Result<Step, CompileError>)
        requires
            old(self).inv(),
            e < old(self).nodes@.len(),
            old(self).nodes@[e as int] == (ComplexExpression::Blackbody { temperature }),
            old(self).room(2),
        ensures
            final(self).inv(),
            old(self).keeps(&*final(self)),
            final(self).instructions@.len() <= old(self).instructions@.len() + 2,
            step_ok(final(self).nodes@, final(self).available, e as int, final(self).instructions@, final(self).status@, r),
    {
        let ghost nodes = self.nodes@;
        proof {
            lemma_operand(nodes, e as int, 0);
        }
        let (wavelength, wavelength_deps) = match self.get_number_input(NumberInput::Wavelength) {
            Ok(v) => v,
            Err(err) => {
                return Err(err);
            },
        };
        let (temperature, temperature_deps) = match self.try_get_number_value(temperature) {
            Err(err) => {
                return Err(err);
            },
            Ok(Err(c)) => {
                proof {
                    assert(operands(nodes[e as int])[0] == Expression::Complex(ExpressionId(c)));
                }
                return Ok(Step::Blocked(c));
            },
            Ok(Ok(v)) => v,
        };
        let ghost s_temperature = *self;
        let output = self.next_number();
        let ghost before_push = self.instructions@;
        proof {
            assert(s_temperature.keeps(&*self));
            State::lemma_keeps_trans(*old(self), s_temperature, *self);
        }
        let dependencies = wavelength_deps.union(temperature_deps);
        let i = Instruction {
            instruction_type: InstructionType::Blackbody { wavelength, temperature, output },
            dependencies,
        };
        proof {
            let before = self.instructions@;
            lemma_number_value_fits(before, wavelength, wavelength_deps, dependencies);
            lemma_number_value_fits(before, temperature, temperature_deps, dependencies);
            lemma_reads_fit(before, number_reads(wavelength), number_reads(temperature), dependencies);
        }
        let ghost s_pre = *self;
        self.push(i);
        proof {
            assert(s_pre.keeps(&*self));
            State::lemma_keeps_trans(*old(self), s_pre, *self);
            assert(node_term(nodes, e as int) == instruction_term(before_push, i.instruction_type));
        }
        Ok(Step::Done(Register::Number(output), dependencies))
    }

    /// The value of a spectrum at the wavelength.
    fn compile_spectrum(&mut self, e: usize, points: SpectrumId) -> (r: Result<Step, CompileError>)
        requires
            old(self).inv(),
            e < old(self).nodes@.len(),
            old(self).nodes@[e as int] == (ComplexExpression::Spectrum { points }),
            old(self).room(1),
        ensures
            final(self).inv(),
            old(self).keeps(&*final(self)),
            final(self).instructions@.len() <= old(self).instructions@.len() + 1,
            step_ok(final(self).nodes@, final(self).available, e as int, final(self).instructions@, final(self).status@, r),
    {
        let ghost nodes = self.nodes@;
        proof {
            assert(ranked(nodes));
        }
        let (wavelength, dependencies) = match self.get_number_input(NumberInput::Wavelength) {
            Ok(v) => v,
            Err(err) => {
                return Err(err);
            },
        };
        let output = self.next_number();
        let ghost before_push = self.instructions@;
        let i = Instruction {
            instruction_type: InstructionType::SpectrumValue { wavelength, spectrum: points, output },
            dependencies,
        };
        proof {
            assert(reads(i.instruction_type) =~= Seq::<(BinaryValueType, int)>::empty());
        }
        self.push(i);
        proof {
            assert(node_term(nodes, e as int) == instruction_term(before_push, i.instruction_type));
        }
        Ok(Step::Done(Register::Number(output), dependencies))
    }

    /// The color of a texture at the texture coordinates.
    fn compile_color_texture(&mut self, e: usize, texture: ColorTextureId) -> (r: Result<Step, CompileError>)
        requires
            old(self).inv(),
            e < old(self).nodes@.len(),
            old(self).nodes@[e as int] == (ComplexExpression::ColorTexture { texture }),
            old(self).room(1),
        ensures
            final(self).inv(),
            old(self).keeps(&*final(self)),
            final(self).instructions@.len() <= old(self).instructions@.len() + 1,
            step_ok(final(self).nodes@, final(self).available, e as int, final(self).instructions@, final(self).status@, r),
    {
        let ghost nodes = self.nodes@;
        proof {
            assert(ranked(nodes));
        }
        let (texture_coordinates, dependencies) = match self.get_vector_input(VectorInput::TextureCoordinates) {
            Ok(v) => v,
            Err(err) => {
                return Err(err);
            },
        };
        let output = self.next_rgb();
        let ghost before_push = self.instructions@;
        let i = Instruction {
            instruction_type: InstructionType::ColorTextureValue { texture_coordinates, texture, output },
            dependencies,
        };
        proof {
            assert(reads(i.instruction_type) =~= Seq::<(BinaryValueType, int)>::empty());
        }
        self.push(i);
        proof {
            assert(node_term(nodes, e as int) == instruction_term(before_push, i.instruction_type));
        }
        Ok(Step::Done(Register::Rgb(output), dependencies))
    }

    /// The value of a single channel texture at the texture coordinates.
    fn compile_mono_texture(&mut self, e: usize, texture: MonoTextureId) -> (r: Result<Step, CompileError>)
        requires
            old(self).inv(),
            e < old(self).nodes@.len(),
            old(self).nodes@[e as int] == (ComplexExpression::MonoTexture { texture }),
            old(self).room(1),
        ensures
            final(self).inv(),
            old(self).keeps(&*final(self)),
            final(self).instructions@.len() <= old(self).instructions@.len() + 1,
            step_ok(final(self).nodes@, final(self).available, e as int, final(self).instructions@, final(self).status@, r),
    {
        let ghost nodes = self.nodes@;
        proof {
            assert(ranked(nodes));
        }
        let (texture_coordinates, dependencies) = match self.get_vector_input(VectorInput::TextureCoordinates) {
            Ok(v) => v,
            Err(err) => {
                return Err(err);
            },
        };
        let output = self.next_number();
        let ghost before_push = self.instructions@;
        let i = Instruction {
            instruction_type: InstructionType::MonoTextureValue { texture_coordinates, texture, output },
            dependencies,
        };
        proof {
            assert(reads(i.instruction_type) =~= Seq::<(BinaryValueType, int)>::empty());
        }
        self.push(i);
        proof {
            assert(node_term(nodes, e as int) == instruction_term(before_push, i.instruction_type));
        }
        Ok(Step::Done(Register::Number(output), dependencies))
    }

    /// A number kept between two others.
    #[verifier::rlimit(60)]
    #[verifier::spinoff_prover]
    fn compile_clamp(&mut self, e: usize, value: Expression, min: Expression, max: Expression) -> (r: Result<Step, CompileError>)
        requires
            old(self).inv(),
            e < old(self).nodes@.len(),
            old(self).nodes@[e as int] == (ComplexExpression::Clamp { value, min, max }),
            old(self).room(4),
        ensures
            final(self).inv(),
            old(self).keeps(&*final(self)),
            final(self).instructions@.len() <= old(self).instructions@.len() + 4,
            step_ok(final(self).nodes@, final(self).available, e as int, final(self).instructions@, final(self).status@, r),
    {
        let ghost nodes = self.nodes@;
        proof {
            lemma_operand(nodes, e as int, 0);
            lemma_operand(nodes, e as int, 1);
            lemma_operand(nodes, e as int, 2);
        }
        let (value, value_deps) = match self.try_get_number_value(value) {
            Err(err) => {
                return Err(err);
            },
            Ok(Err(c)) => {
                proof {
                    assert(operands(nodes[e as int])[0] == Expression::Complex(ExpressionId(c)));
                }
                return Ok(Step::Blocked(c));
            },
            Ok(Ok(v)) => v,
        };
        let ghost s_value = *self;
        let (min, min_deps) = match self.try_get_number_value(min) {
            Err(err) => {
                return Err(err);
            },
            Ok(Err(c)) => {
                proof {
                    assert(operands(nodes[e as int])[1] == Expression::Complex(ExpressionId(c)));
                }
                return Ok(Step::Blocked(c));
            },
            Ok(Ok(v)) => v,
        };
        let ghost s_min = *self;
        let (max, max_deps) = match self.try_get_number_value(max) {
            Err(err) => {
                return Err(err);
            },
            Ok(Err(c)) => {
                proof {
                    assert(operands(nodes[e as int])[2] == Expression::Complex(ExpressionId(c)));
                }
                return Ok(Step::Blocked(c));
            },
            Ok(Ok(v)) => v,
        };
        let ghost s_max = *self;
        let output = self.next_number();
        let ghost before_push = self.instructions@;
        proof {
            assert(s_max.keeps(&*self));
            State::lemma_keeps_trans(s_min, s_max, *self);
            State::lemma_keeps_trans(s_value, s_min, *self);
            State::lemma_keeps_trans(*old(self), s_value, *self);
        }
        let dependencies = value_deps.union(min_deps).union(max_deps);
        let i = Instruction {
            instruction_type: InstructionType::Clamp { value, min, max, output },
            dependencies,
        };
        proof {
            let before = self.instructions@;
            lemma_value_kept(s_value, *self, value, value_deps);
            lemma_value_kept(s_min, *self, min, min_deps);
            lemma_number_value_fits(before, value, value_deps, dependencies);
            lemma_number_value_fits(before, min, min_deps, dependencies);
            lemma_number_value_fits(before, max, max_deps, dependencies);
            lemma_reads_fit(before, number_reads(value), number_reads(min), dependencies);
            lemma_reads_fit(before, number_reads(value) + number_reads(min), number_reads(max), dependencies);
        }
        let ghost s_pre = *self;
        self.push(i);
        proof {
            assert(s_pre.keeps(&*self));
            State::lemma_keeps_trans(*old(self), s_pre, *self);
            assert(node_term(nodes, e as int) == instruction_term(before_push, i.instruction_type));
        }
        Ok(Step::Done(Register::Number(output), dependencies))
    }

    /// An operator applied to two operands of any kind, brought to one kind.
    #[verifier::rlimit(80)]
    #[verifier::spinoff_prover]
    fn compile_binary(&mut self, e: usize, operator: BinaryOperator, lhs: Expression, rhs: Expression) -> (r: Result<Step, CompileError>)
        requires
            old(self).inv(),
            e < old(self).nodes@.len(),
            old(self).nodes@[e as int] == (ComplexExpression::Binary { operator, lhs, rhs }),
            old(self).room(3),
        ensures
            final(self).inv(),
            old(self).keeps(&*final(self)),
            final(self).instructions@.len() <= old(self).instructions@.len() + 3,
            step_ok(final(self).nodes@, final(self).available, e as int, final(self).instructions@, final(self).status@, r),
    {
        let ghost nodes = self.nodes@;
        proof {
            lemma_operand(nodes, e as int, 0);
            lemma_operand(nodes, e as int, 1);
        }
        let lhs = match self.try_get_register(lhs) {
            Err(c) => {
                proof {
                    assert(operands(nodes[e as int])[0] == Expression::Complex(ExpressionId(c)));
                }
                return Ok(Step::Blocked(c));
            },
            Ok(v) => v,
        };
        let ghost s2 = *self;
        let rhs = match self.try_get_register(rhs) {
            Err(c) => {
                proof {
                    assert(operands(nodes[e as int])[1] == Expression::Complex(ExpressionId(c)));
                }
                return Ok(Step::Blocked(c));
            },
            Ok(v) => v,
        };
        let ghost s3 = *self;
        let (value_type, (lhs, lhs_deps), (rhs, rhs_deps)) = self.convert_operands(lhs, rhs);
        let ghost s4 = *self;
        let dependencies = lhs_deps.union(rhs_deps);
        let register = self.next_register(value_type);
        let ghost before_push = self.instructions@;
        let output = match register {
            Register::Number(r) => r.0,
            Register::Vector(r) => r.0,
            Register::Rgb(r) => r.0,
        };
        let i = Instruction {
            instruction_type: InstructionType::Binary { value_type, operator, lhs, rhs, output },
            dependencies,
        };
        proof {
            let t = i.instruction_type;
            assert(reads(t) =~= seq![(value_type, lhs as int), (value_type, rhs as int)]);
        }
        self.push(i);
        proof {
            assert(node_term(nodes, e as int) == instruction_term(before_push, i.instruction_type));
            assert(s4.keeps(&*self));
            State::lemma_keeps_trans(*old(self), s2, s3);
            State::lemma_keeps_trans(*old(self), s3, s4);
            State::lemma_keeps_trans(*old(self), s4, *self);
        }
        Ok(Step::Done(register, dependencies))
    }

    /// Two operands of any kind, brought to one kind, mixed by a number.
    #[verifier::rlimit(40)]
    fn compile_mix(&mut self, e: usize, amount: Expression, lhs: Expression, rhs: Expression) -> (r: Result<Step, CompileError>)
        requires
            old(self).inv(),
            e < old(self).nodes@.len(),
            old(self).nodes@[e as int] == (ComplexExpression::Mix { amount, lhs, rhs }),
            old(self).room(4),
        ensures
            final(self).inv(),
            old(self).keeps(&*final(self)),
            final(self).instructions@.len() <= old(self).instructions@.len() + 4,
            step_ok(final(self).nodes@, final(self).available, e as int, final(self).instructions@, final(self).status@, r),
    {
        let ghost nodes = self.nodes@;
        proof {
            lemma_operand(nodes, e as int, 0);
            lemma_operand(nodes, e as int, 1);
            lemma_operand(nodes, e as int, 2);
        }
        let (amount, amount_deps) = match self.try_get_number_value(amount) {
            Err(err) => {
                return Err(err);
            },
            Ok(Err(c)) => {
                proof {
                    assert(operands(nodes[e as int])[0] == Expression::Complex(ExpressionId(c)));
                }
                return Ok(Step::Blocked(c));
            },
            Ok(Ok(v)) => v,
        };
        let ghost s1 = *self;
        let lhs = match self.try_get_register(lhs) {
            Err(c) => {
                proof {
                    assert(operands(nodes[e as int])[1] == Expression::Complex(ExpressionId(c)));
                }
                return Ok(Step::Blocked(c));
            },
            Ok(v) => v,
        };
        let ghost s2 = *self;
        let rhs = match self.try_get_register(rhs) {
            Err(c) => {
                proof {
                    assert(operands(nodes[e as int])[2] == Expression::Complex(ExpressionId(c)));
                }
                return Ok(Step::Blocked(c));
            },
            Ok(v) => v,
        };
        let ghost s3 = *self;
        let (value_type, (lhs, lhs_deps), (rhs, rhs_deps)) = self.convert_operands(lhs, rhs);
        let ghost s4 = *self;
        let dependencies = amount_deps.union(lhs_deps).union(rhs_deps);
        let register = self.next_register(value_type);
        let ghost before_push = self.instructions@;
        let output = match register {
            Register::Number(r) => r.0,
            Register::Vector(r) => r.0,
            Register::Rgb(r) => r.0,
        };
        let i = Instruction {
            instruction_type: InstructionType::Mix { value_type, lhs, rhs, amount, output },
            dependencies,
        };
        proof {
            let before = self.instructions@;
            let t = i.instruction_type;
            lemma_number_value_fits(before, amount, amount_deps, dependencies);
            let pair = seq![(value_type, lhs as int), (value_type, rhs as int)];
            assert(reads_fit(before, pair, dependencies)) by {
                assert forall|j: int| 0 <= j < pair.len() implies {
                    &&& 0 <= #[trigger] pair[j].1 < count(before, pair[j].0)
                    &&& subset(register_dependencies(before, pair[j].0)[pair[j].1], dependencies)
                } by {}
            }
            lemma_reads_fit(before, pair, number_reads(amount), dependencies);
            assert(reads(t) == pair + number_reads(amount));
        }
        proof {
            State::lemma_keeps_trans(s1, s2, s3);
            State::lemma_keeps_trans(s1, s3, s4);
            lemma_value_kept(s1, s4, amount, amount_deps);
        }
        self.push(i);
        proof {
            assert(node_term(nodes, e as int) == instruction_term(before_push, i.instruction_type));
            assert(s4.keeps(&*self));
            State::lemma_keeps_trans(*old(self), s1, s2);
            State::lemma_keeps_trans(*old(self), s2, s3);
            State::lemma_keeps_trans(*old(self), s3, s4);
            State::lemma_keeps_trans(*old(self), s4, *self);
        }
        Ok(Step::Done(register, dependencies))
    }

    /// The next register of `kind`.
    fn next_register(&mut self, kind: BinaryValueType) -> (r: Register)
        requires
            old(self).inv(),
            old(self).room(1),
        ensures
            kind_of(r) == kind,
            index_of(r) == count(old(self).instructions@, kind),
            final(self).counter(kind) == old(self).counter(kind) + 1,
            forall|k: BinaryValueType| k != kind ==> #[trigger] final(self).counter(k) == old(self).counter(k),
            final(self).status == old(self).status,
            final(self).instructions == old(self).instructions,
            final(self).nodes == old(self).nodes,
            final(self).available == old(self).available,
    {
        match kind {
            BinaryValueType::Number => Register::Number(self.next_number()),
            BinaryValueType::Vector => Register::Vector(self.next_vector()),
            BinaryValueType::Rgb => Register::Rgb(self.next_rgb()),
        }
    }

    /// A new number register with the color in `register` at the wavelength.
    fn rgb_to_number(&mut self, register: RgbRegister, dependencies: Inputs) -> (r: Result<(NumberRegister, Inputs), CompileError>)
        requires
            old(self).inv(),
            old(self).room(1),
            register_ok(old(self).instructions@, BinaryValueType::Rgb, register.0 as int, dependencies),
        ensures
            final(self).inv(),
            old(self).keeps(&*final(self)),
            final(self).instructions@.len() <= old(self).instructions@.len() + 1,
            r matches Ok(v) ==> register_ok(final(self).instructions@, BinaryValueType::Number, v.0.0 as int, v.1),
            r is Ok <==> old(self).available.wavelength,
            r matches Err(err) ==> err == CompileError::UnavailableNumberInput(NumberInput::Wavelength),
            r matches Ok(v) ==> register_term(final(self).instructions@, BinaryValueType::Number, v.0.0 as int)
                == convert_term(
                register_term(old(self).instructions@, BinaryValueType::Rgb, register.0 as int),
                BinaryValueType::Rgb,
                BinaryValueType::Number,
            ),
    {
        let (wavelength, wavelength_deps) = match self.get_number_input(NumberInput::Wavelength) {
            Ok(v) => v,
            Err(err) => {
                return Err(err);
            },
        };
        let output = self.next_number();
        let dependencies = dependencies.union(wavelength_deps);
        let i = Instruction {
            instruction_type: InstructionType::RgbSpectrumValue { wavelength, source: register, output },
            dependencies,
        };
        proof {
            let t = i.instruction_type;
            assert(reads(t) =~= seq![(BinaryValueType::Rgb, register.0 as int)]);
        }
        self.push(i);
        Ok((output, dependencies))
    }

    /// Brings one operand to the kind `to`, which is its own kind or one it can be brought
    /// to, with the instruction that `conversion` gives, if any.
    fn convert_operand(&mut self, o: NumberOrRegister, to: BinaryValueType) -> (r: (usize, Inputs))
        requires
            old(self).inv(),
            old(self).room(1),
            operand_ok(old(self).instructions@, o),
            join(operand_kind(o), to) == to,
        ensures
            final(self).inv(),
            old(self).keeps(&*final(self)),
            final(self).instructions@ == old(self).instructions@ + conversion(o, to, count(old(self).instructions@, to) as int),
            r.0 == converted(o, to, count(old(self).instructions@, to) as int),
            r.1 == operand_deps(o),
            register_ok(final(self).instructions@, to, r.0 as int, r.1),
            register_term(final(self).instructions@, to, r.0 as int) == convert_term(
                value_term(old(self).instructions@, o),
                operand_kind(o),
                to,
            ),
            forall|k: BinaryValueType|
                #[trigger] final(self).counter(k) == old(self).counter(k) + (if k == to {
                    conversion(o, to, count(old(self).instructions@, to) as int).len() as int
                } else {
                    0int
                }),
    {
        let ghost before = self.instructions@;
        match o {
            NumberOrRegister::Number(c) => match to {
                BinaryValueType::Number => {
                    let out = self.number_value(c);
                    proof {
                        assert(self.instructions@ =~= before + conversion(o, to, count(before, to) as int));
                    }
                    (out.0, Inputs::empty())
                },
                BinaryValueType::Vector => {
                    let out = self.number_constant_to_vector(c);
                    proof {
                        assert(self.instructions@ =~= before + conversion(o, to, count(before, to) as int));
                    }
                    (out.0, Inputs::empty())
                },
                BinaryValueType::Rgb => {
                    let out = self.number_constant_to_rgb(c);
                    proof {
                        assert(self.instructions@ =~= before + conversion(o, to, count(before, to) as int));
                    }
                    (out.0, Inputs::empty())
                },
            },
            NumberOrRegister::Register { register, dependencies } => match (register, to) {
                (Register::Number(n), BinaryValueType::Vector) => {
                    let out = self.number_register_to_vector(n, dependencies);
                    proof {
                        assert(self.instructions@ =~= before + conversion(o, to, count(before, to) as int));
                    }
                    (out.0, dependencies)
                },
                (Register::Number(n), BinaryValueType::Rgb) => {
                    let out = self.number_register_to_rgb(n, dependencies);
                    proof {
                        assert(self.instructions@ =~= before + conversion(o, to, count(before, to) as int));
                    }
                    (out.0, dependencies)
                },
                (Register::Rgb(c), BinaryValueType::Vector) => {
                    let out = self.rgb_register_to_vector(c, dependencies);
                    proof {
                        assert(self.instructions@ =~= before + conversion(o, to, count(before, to) as int));
                    }
                    (out.0, dependencies)
                },
                (Register::Number(n), _) => {
                    proof {
                        assert(self.instructions@ =~= before + conversion(o, to, count(before, to) as int));
                    }
                    (n.0, dependencies)
                },
                (Register::Vector(v), _) => {
                    proof {
                        assert(self.instructions@ =~= before + conversion(o, to, count(before, to) as int));
                    }
                    (v.0, dependencies)
                },
                (Register::Rgb(c), _) => {
                    proof {
                        assert(self.instructions@ =~= before + conversion(o, to, count(before, to) as int));
                    }
                    (c.0, dependencies)
                },
            },
        }
    }

    /// Brings two operands of a binary operation to the same kind of register, adding the
    /// instructions that put constants into registers and convert registers.
    fn convert_operands(&mut self, lhs: NumberOrRegister, rhs: NumberOrRegister) -> (r: (
        BinaryValueType,
        (usize, Inputs),
        (usize, Inputs),
    ))
        requires
            old(self).inv(),
            old(self).room(2),
            operand_ok(old(self).instructions@, lhs),
            operand_ok(old(self).instructions@, rhs),
        ensures
            final(self).inv(),
            old(self).keeps(&*final(self)),
            final(self).instructions@.len() <= old(self).instructions@.len() + 2,
            r.0 == join(operand_kind(lhs), operand_kind(rhs)),
            r.1.1 == operand_deps(lhs),
            r.2.1 == operand_deps(rhs),
            register_ok(final(self).instructions@, r.0, r.1.0 as int, r.1.1),
            register_ok(final(self).instructions@, r.0, r.2.0 as int, r.2.1),
            register_term(final(self).instructions@, r.0, r.1.0 as int) == convert_term(
                value_term(old(self).instructions@, lhs),
                operand_kind(lhs),
                r.0,
            ),
            register_term(final(self).instructions@, r.0, r.2.0 as int) == convert_term(
                value_term(old(self).instructions@, rhs),
                operand_kind(rhs),
                r.0,
            ),
            final(self).instructions@ == old(self).instructions@ + conversions(old(self).instructions@, lhs, rhs),
            r.1.0 == converted(lhs, r.0, count(old(self).instructions@, r.0) as int),
            r.2.0 == converted(
                rhs,
                r.0,
                (count(old(self).instructions@, r.0) + conversion(lhs, r.0, count(old(self).instructions@, r.0) as int).len()) as int,
            ),
            forall|k: BinaryValueType|
                #[trigger] final(self).counter(k) == old(self).counter(k) + (if k == r.0 {
                    conversions(old(self).instructions@, lhs, rhs).len() as int
                } else {
                    0int
                }),
    {
        let to = if operand_is_vector(&lhs) || operand_is_vector(&rhs) {
            BinaryValueType::Vector
        } else if operand_is_rgb(&lhs) || operand_is_rgb(&rhs) {
            BinaryValueType::Rgb
        } else {
            BinaryValueType::Number
        };
        let ghost s0 = *self;
        let l = self.convert_operand(lhs, to);
        let ghost s1 = *self;
        proof {
            assert(operand_ok(self.instructions@, rhs)) by {
                if let NumberOrRegister::Register { register, dependencies } = rhs {
                    assert(register_ok(s0.instructions@, kind_of(register), index_of(register), dependencies));
                }
            }
            assert(value_term(self.instructions@, rhs) == value_term(s0.instructions@, rhs));
            lemma_count(s0.instructions@, to);
        }
        let r = self.convert_operand(rhs, to);
        proof {
            State::lemma_keeps_trans(s0, s1, *self);
            assert(s1.counter(to) == s0.counter(to) + conversion(lhs, to, count(s0.instructions@, to) as int).len());
            assert(count(s1.instructions@, to) == count(s0.instructions@, to) + conversion(
                lhs,
                to,
                count(s0.instructions@, to) as int,
            ).len());
            assert(self.instructions@ =~= s0.instructions@ + conversions(s0.instructions@, lhs, rhs));
            assert(register_term(self.instructions@, to, l.0 as int) == register_term(s1.instructions@, to, l.0 as int));
        }
        (to, l, r)
    }

    /// The operand `e`: a constant, a computed register, or the number of an expression
    /// to compute first, which is then marked as seen.
    fn try_get_register(&mut self, e: Expression) -> (r: Result<NumberOrRegister, usize>)
        requires
            old(self).inv(),
            e matches Expression::Complex(c) ==> c.0 < old(self).nodes@.len(),
        ensures
            final(self).inv(),
            old(self).keeps(&*final(self)),
            final(self).instructions@ == old(self).instructions@,
            forall|kind: BinaryValueType| #[trigger] final(self).counter(kind) == old(self).counter(kind),
            match r {
                Ok(NumberOrRegister::Number(n)) => e == Expression::Number(n),
                Ok(NumberOrRegister::Register { register, dependencies }) => {
                    &&& e matches Expression::Complex(c) && check_node(final(self).nodes@, c.0 as int, final(self).available) == Some(
                        kind_of(register),
                    )
                    &&& register_ok(final(self).instructions@, kind_of(register), index_of(register), dependencies)
                    &&& expression_kind(final(self).nodes@, e) == kind_of(register)
                    &&& register_term(final(self).instructions@, kind_of(register), index_of(register)) == expression_term(
                        final(self).nodes@,
                        e,
                        kind_of(register),
                    )
                },
                Err(c) => e == Expression::Complex(ExpressionId(c)) && final(self).status@[c as int] == Some(
                    ExpressionStatus::Pending,
                ),
            },
    {
        match e {
            Expression::Number(n) => Ok(NumberOrRegister::Number(n)),
            Expression::Complex(id) => {
                let c = id.0;
                if self.status[c].is_none() {
                    self.status.set(c, Some(ExpressionStatus::Pending));
                    proof {
                        assert forall|i: int| 0 <= i < self.status@.len() implies #[trigger] status_ok(
                            self.nodes@, self.available,
                            self.instructions@,
                            i,
                            self.status@[i],
                        ) by {
                            if i != c {
                                assert(status_ok(self.nodes@, self.available, self.instructions@, i, old(self).status@[i]));
                            }
                        }
                    }
                }
                proof {
                    assert(status_ok(self.nodes@, self.available, self.instructions@, c as int, self.status@[c as int]));
                    lemma_check_all(self.nodes@, c as int, self.available);
                }
                match self.status[c] {
                    Some(ExpressionStatus::Done { register, dependencies }) => Ok(
                        NumberOrRegister::Register { register, dependencies },
                    ),
                    _ => Err(c),
                }
            },
        }
    }
}

/// Compiles expressions into programs.
pub struct ProgramCompiler {}

impl ProgramCompiler {
    pub fn new() -> ProgramCompiler {
        ProgramCompiler {  }
    }

    /// Compiles `expression` into a program whose result is of kind `output`. A constant
    /// stays a constant. Otherwise each expression it reads is computed into a register
    /// after the expressions it reads in turn: an expression is put aside while one of its
    /// operands is computed, and taken up again after. The program may read only the inputs in
    /// `inputs`; an expression that reads another one is refused. The register that the
    /// result is read from holds what the expression computes, as a value of the kind asked
    /// for.
    #[verifier::rlimit(60)]
    #[verifier::spinoff_prover]
    pub fn compile(&self, expression: &Expression, expressions: &Expressions, inputs: Inputs, output: OutputType) -> (r: Result<
        Program,
        CompileError,
    >)
        requires
            expression matches Expression::Complex(c) ==> {
                &&& ranked(expressions.nodes())
                &&& c.0 < expressions.nodes().len()
                &&& expressions.nodes().len() < usize::MAX / 32
            },
        ensures
            r is Ok <==> compiles(expressions.nodes(), *expression, output, inputs),
            r matches Ok(p) ==> program_fits(p, *expression, output),
            r matches Ok(p) ==> program_computes(p, expressions.nodes(), *expression),
            r matches Ok(p) ==> (p.program_type matches ProgramType::Instructions { instructions, .. } ==> reads_available(
                instructions@,
                inputs,
            )),
            r matches Err(e) ==> match e {
                CompileError::VectorAsNumber => !compiles(expressions.nodes(), *expression, output, spec_all()),
                CompileError::UnavailableNumberInput(i) => !subset(number_input_set(i), inputs) && subset(
                    number_input_set(i),
                    expression_inputs(expressions.nodes(), *expression, output),
                ),
                CompileError::UnavailableVectorInput(i) => !subset(vector_input_set(i), inputs) && subset(
                    vector_input_set(i),
                    expression_inputs(expressions.nodes(), *expression, output),
                ),
                CompileError::Incomplete => false,
            },
            r is Err && subset(expression_inputs(expressions.nodes(), *expression, output), inputs) ==> r
                == Err::<Program, CompileError>(CompileError::VectorAsNumber),
    {
        let root = match *expression {
            Expression::Number(number) => {
                return Ok(Program { program_type: ProgramType::Constant { value: number } });
            },
            Expression::Complex(id) => id.0,
        };
        let ghost nodes = expressions.nodes();
        let n = expressions.len();
        let mut status: Vec<Option<ExpressionStatus>> = Vec::new();
        let mut k: usize = 0;
        while k < n
            invariant
                k <= n,
                status@.len() == k,
                forall|i: int| 0 <= i < k ==> #[trigger] status@[i] is None,
            decreases n - k,
        {
            status.push(None);
            k = k + 1;
        }
        status.set(root, Some(ExpressionStatus::Pending));
        let mut state = State {
            status,
            instructions: Vec::new(),
            numbers: RegisterCounter::new(),
            vectors: RegisterCounter::new(),
            rgbs: RegisterCounter::new(),
            nodes: Ghost(nodes),
            available: inputs,
        };
        let mut pending: Vec<usize> = Vec::new();
        pending.push(root);
        proof {
            assert forall|id: int| 0 <= id < state.status@.len() implies #[trigger] status_ok(
                state.nodes@, state.available,
                state.instructions@,
                id,
                state.status@[id],
            ) by {}
            assert(well_formed(state.instructions@));
            assert forall|i: int| 0 <= i < state.status@.len() implies !#[trigger] is_done(state.status@[i]) by {}
            lemma_done_count_zero(state.status@);
        }
        while pending.len() > 0
            invariant
                state.inv(),
                state.nodes@ == nodes,
                state.available == inputs,
                nodes == expressions.nodes(),
                *expression == Expression::Complex(ExpressionId(root)),
                n == nodes.len(),
                root < n,
                n < usize::MAX / 32,
                pending@.len() > 0 ==> pending@[0] == root,
                pending@.len() == 0 ==> is_done(state.status@[root as int]),
                forall|i: int|
                    0 <= i < pending@.len() ==> #[trigger] pending@[i] < n && state.status@[pending@[i] as int] == Some(
                        ExpressionStatus::Pending,
                    ),
                forall|i: int, j: int| 0 <= i < j < pending@.len() ==> #[trigger] pending@[j] < #[trigger] pending@[i],
                forall|i: int| 0 <= i < pending@.len() - 1 ==> #[trigger] child_of(nodes, pending@[i] as int, pending@[i + 1]),
                done_count(state.status@) <= n,
                pending@.len() <= n,
                state.instructions@.len() + 6 * (2 * (n - done_count(state.status@)) + (n - pending@.len())) <= 18 * n,
            decreases 2 * (n - done_count(state.status@)) + (n - pending@.len()),
        {
            let ghost before = state;
            let ghost stack = pending@;
            let e = pending.pop().unwrap();
            proof {
                assert(pending@ == stack.drop_last());
                assert(e == stack[stack.len() - 1]);
                assert(state.status@[e as int] == Some(ExpressionStatus::Pending));
                if stack.len() == 1 {
                    assert(e == root);
                }
                assert(stack[stack.len() - 1] < n);
                assert(e < n);
                lemma_done_count_below(state.status@, e as int);
            }
            let step = match expressions.get(ExpressionId(e)) {
                ComplexExpression::Vector { x, y, z, w } => state.compile_vector(e, x, y, z, w),
                ComplexExpression::Rgb { red, green, blue } => state.compile_rgb(e, red, green, blue),
                ComplexExpression::Binary { operator, lhs, rhs } => state.compile_binary(e, operator, lhs, rhs),
                ComplexExpression::Mix { amount, lhs, rhs } => state.compile_mix(e, amount, lhs, rhs),
                ComplexExpression::Clamp { value, min, max } => state.compile_clamp(e, value, min, max),
                ComplexExpression::Fresnel { ior, env_ior } => state.compile_fresnel(e, ior, env_ior),
                ComplexExpression::Blackbody { temperature } => state.compile_blackbody(e, temperature),
                ComplexExpression::Spectrum { points } => state.compile_spectrum(e, points),
                ComplexExpression::ColorTexture { texture } => state.compile_color_texture(e, texture),
                ComplexExpression::MonoTexture { texture } => state.compile_mono_texture(e, texture),
            };
            match step {
                Err(err) => {
                    proof {
                        assert forall|i: int| 0 <= i < stack.len() implies #[trigger] stack[i] < nodes.len() by {
                            assert(before.status@.len() == n);
                        }
                        assert(check_node(nodes, stack[stack.len() - 1] as int, inputs) is None);
                        lemma_chain_fails(nodes, stack, stack.len() - 1, inputs);
                        if err is VectorAsNumber {
                            lemma_chain_fails(nodes, stack, stack.len() - 1, spec_all());
                        }
                        lemma_chain_inputs(nodes, stack, stack.len() - 1);
                        assert(stack[0] == root);
                        assert(check(nodes, *expression, inputs) is None);
                    }
                    return Err(err);
                },
                Ok(Step::Blocked(c)) => {
                    proof {
                        lemma_child_below(nodes, e as int, c);
                        lemma_done_count_same(before.status@, state.status@);
                        assert forall|i: int| 0 <= i < stack.len() implies state.status@[#[trigger] stack[i] as int] == Some(
                            ExpressionStatus::Pending,
                        ) by {
                            let s = stack[i] as int;
                            assert(before.status@[s] == Some(ExpressionStatus::Pending));
                            assert(is_done(before.status@[s]) == is_done(state.status@[s]));
                        }
                    }
                    pending.push(e);
                    pending.push(c);
                    proof {
                        assert(pending@ == stack.push(c));
                        lemma_falling_len(pending@, n as int);
                    }
                },
                Ok(Step::Done(register, dependencies)) => {
                    let ghost mid = state.status@;
                    proof {
                        lemma_done_count_same(before.status@, mid);
                        assert(!is_done(mid[e as int]));
                    }
                    state.status.set(e, Some(ExpressionStatus::Done { register, dependencies }));
                    proof {
                        lemma_done_count_set(mid, e as int, Some(ExpressionStatus::Done { register, dependencies }));
                        assert forall|id: int| 0 <= id < state.status@.len() implies #[trigger] status_ok(
                            state.nodes@, state.available,
                            state.instructions@,
                            id,
                            state.status@[id],
                        ) by {
                            if id != e as int {
                                assert(status_ok(state.nodes@, state.available, state.instructions@, id, mid[id]));
                            }
                        }
                        assert forall|i: int| 0 <= i < pending@.len() implies #[trigger] pending@[i] < n && state.status@[pending@[i] as int] == Some(
                            ExpressionStatus::Pending,
                        ) by {
                            let s = pending@[i] as int;
                            assert(stack[i] == pending@[i]);
                            assert(pending@[i] != e);
                            assert(before.status@[s] == Some(ExpressionStatus::Pending));
                            assert(is_done(before.status@[s]) == is_done(mid[s]));
                        }
                        lemma_done_count_bound(state.status@);
                    }
                },
            }
        }
        let ghost done = state;
        let (register, dependencies) = match state.status[root] {
            Some(ExpressionStatus::Done { register, dependencies }) => (register, dependencies),
            _ => {
                proof {
                    assert(false);
                }
                return Err(CompileError::Incomplete);
            },
        };
        proof {
            assert(status_ok(nodes, state.available, state.instructions@, root as int, state.status@[root as int]));
            lemma_check_all(nodes, root as int, inputs);
        }
        let ghost finished = state.instructions@;
        let out = match (register, output) {
            (Register::Number(r), OutputType::Number) => ProgramOutput::FromNumber(r),
            (Register::Number(r), OutputType::Vector) => ProgramOutput::FromVector(
                state.number_register_to_vector(r, dependencies),
            ),
            (Register::Vector(r), OutputType::Vector) => ProgramOutput::FromVector(r),
            (Register::Rgb(r), OutputType::Number) => match state.rgb_to_number(r, dependencies) {
                Ok((r, _)) => ProgramOutput::FromNumber(r),
                Err(err) => {
                    return Err(err);
                },
            },
            (Register::Rgb(r), OutputType::Vector) => ProgramOutput::FromVector(state.rgb_register_to_vector(r, dependencies)),
            (Register::Vector(_), OutputType::Number) => {
                proof {
                    lemma_check_all(nodes, root as int, inputs);
                }
                return Err(CompileError::VectorAsNumber);
            },
        };
        let numbers = state.numbers.count();
        let vectors = state.vectors.count();
        let rgb_values = state.rgbs.count();
        Ok(
            Program {
                program_type: ProgramType::Instructions {
                    instructions: state.instructions,
                    output: out,
                    numbers,
                    vectors,
                    rgb_values,
                },
            },
        )
    }
}

} // verus!
