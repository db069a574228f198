//! Expressions that compute numbers, vectors and colors from the inputs of a program.
use vstd::prelude::*;

use super::{BinaryOperator, ColorTextureId, ExpressionId, MonoTextureId, SpectrumId};
use crate::program::instruction::Constant;

verus! {

/// A number constant, or a complex expression by its number.
#[derive(Debug, Copy, Clone, PartialEq, Eq, Structural)]
pub enum Expression {
    Number(Constant),
    Complex(ExpressionId),
}

/// An expression that combines other expressions or reads a resource.
#[derive(Debug, Copy, Clone, PartialEq, Eq, Structural)]
pub enum ComplexExpression {
    Vector { x: Expression, y: Expression, z: Expression, w: Expression },
    Rgb { red: Expression, green: Expression, blue: Expression },
    Binary { operator: BinaryOperator, lhs: Expression, rhs: Expression },
    Mix { amount: Expression, lhs: Expression, rhs: Expression },
    Clamp { value: Expression, min: Expression, max: Expression },
    Fresnel { ior: Expression, env_ior: Expression },
    Blackbody { temperature: Expression },
    Spectrum { points: SpectrumId },
    ColorTexture { texture: ColorTextureId },
    MonoTexture { texture: MonoTextureId },
}

/// The expressions that `e` reads, in order.
pub open spec fn operands(e: ComplexExpression) -> Seq<Expression> {
    match e {
        ComplexExpression::Vector { x, y, z, w } => seq![x, y, z, w],
        ComplexExpression::Rgb { red, green, blue } => seq![red, green, blue],
        ComplexExpression::Binary { lhs, rhs, .. } => seq![lhs, rhs],
        ComplexExpression::Mix { amount, lhs, rhs } => seq![amount, lhs, rhs],
        ComplexExpression::Clamp { value, min, max } => seq![value, min, max],
        ComplexExpression::Fresnel { ior, env_ior } => seq![ior, env_ior],
        ComplexExpression::Blackbody { temperature } => seq![temperature],
        _ => Seq::empty(),
    }
}

/// Every complex expression reads only expressions with smaller numbers, so the
/// expressions can be computed in the order of their numbers.
pub open spec fn ranked(nodes: Seq<ComplexExpression>) -> bool {
    forall|i: int, j: int|
        0 <= i < nodes.len() && 0 <= j < operands(nodes[i]).len() ==> (#[trigger] operands(nodes[i])[j] matches Expression::Complex(c) ==> c.0 < i)
}

/// The complex expressions of a project, each under the number it was added as.
pub struct Expressions {
    nodes: Vec<ComplexExpression>,
}

impl Expressions {
    pub closed spec fn nodes(&self) -> Seq<ComplexExpression> {
        self.nodes@
    }

    pub fn new() -> (e: Expressions)
        ensures
            e.nodes() == Seq::<ComplexExpression>::empty(),
    {
        Expressions { nodes: Vec::new() }
    }

    /// Adds `expression` under the next number.
    pub fn insert(&mut self, expression: ComplexExpression) -> (id: ExpressionId)
        ensures
            final(self).nodes() == old(self).nodes().push(expression),
            id.0 == old(self).nodes().len(),
    {
        let id = self.nodes.len();
        self.nodes.push(expression);
        ExpressionId(id)
    }

    /// The expression numbered `id`.
    pub fn get(&self, id: ExpressionId) -> (e: ComplexExpression)
        requires
            id.0 < self.nodes().len(),
        ensures
            e == self.nodes()[id.0 as int],
    {
        self.nodes[id.0]
    }

    /// The number of expressions.
    pub fn len(&self) -> (n: usize)
        ensures
            n == self.nodes().len(),
    {
        self.nodes.len()
    }
}

/// The expression reads nothing numbered `n` or above.
pub open spec fn below(e: Expression, n: int) -> bool {
    e matches Expression::Complex(c) ==> c.0 < n
}

/// An expression whose operands are all numbered below `nodes.len()` keeps the
/// expressions ranked when it is added.
pub proof fn lemma_ranked_push(nodes: Seq<ComplexExpression>, e: ComplexExpression)
    requires
        ranked(nodes),
        forall|j: int| 0 <= j < operands(e).len() ==> below(#[trigger] operands(e)[j], nodes.len() as int),
    ensures
        ranked(nodes.push(e)),
{
    let p = nodes.push(e);
    assert forall|i: int, j: int|
        0 <= i < p.len() && 0 <= j < operands(p[i]).len() implies (#[trigger] operands(p[i])[j] matches Expression::Complex(
        c,
    ) ==> c.0 < i) by {
        if i < nodes.len() {
            assert(p[i] == nodes[i]);
        } else {
            assert(p[i] == e);
            assert(below(operands(e)[j], nodes.len() as int));
        }
    }
}

/// Adds the difference of two expressions and gives it by its number. Two numbers are not
/// subtracted here: that is arithmetic on floating point numbers.
pub fn insert_sub(nodes: &mut Expressions, lhs: Expression, rhs: Expression) -> (e: Expression)
    ensures
        final(nodes).nodes() == old(nodes).nodes().push(ComplexExpression::Binary { operator: BinaryOperator::Sub, lhs, rhs }),
        e == Expression::Complex(ExpressionId(old(nodes).nodes().len() as usize)),
        old(nodes).nodes().len() <= usize::MAX,
{
    Expression::Complex(nodes.insert(ComplexExpression::Binary { operator: BinaryOperator::Sub, lhs, rhs }))
}

/// Adds the product of two expressions and gives it by its number. Two numbers are not
/// multiplied here: that is arithmetic on floating point numbers.
pub fn insert_mul(nodes: &mut Expressions, lhs: Expression, rhs: Expression) -> (e: Expression)
    ensures
        final(nodes).nodes() == old(nodes).nodes().push(ComplexExpression::Binary { operator: BinaryOperator::Mul, lhs, rhs }),
        e == Expression::Complex(ExpressionId(old(nodes).nodes().len() as usize)),
        old(nodes).nodes().len() <= usize::MAX,
{
    Expression::Complex(nodes.insert(ComplexExpression::Binary { operator: BinaryOperator::Mul, lhs, rhs }))
}

/// Adds `value` kept between `min` and `max` and gives it by its number. Numbers are not
/// clamped here: that is arithmetic on floating point numbers.
pub fn insert_clamp(nodes: &mut Expressions, value: Expression, min: Expression, max: Expression) -> (e: Expression)
    ensures
        final(nodes).nodes() == old(nodes).nodes().push(ComplexExpression::Clamp { value, min, max }),
        e == Expression::Complex(ExpressionId(old(nodes).nodes().len() as usize)),
        old(nodes).nodes().len() <= usize::MAX,
{
    Expression::Complex(nodes.insert(ComplexExpression::Clamp { value, min, max }))
}

} // verus!
