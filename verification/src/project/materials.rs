//! Surface material descriptions, and how a material made of others is taken apart into
//! the components that a surface scatters light with.
use vstd::prelude::*;

use super::expressions::{
    ComplexExpression, Expression, Expressions, below, insert_clamp, insert_mul, insert_sub, lemma_ranked_push,
    operands, ranked,
};
use super::ExpressionId;
use crate::program::compiler::{CompileError, OutputType, Program, ProgramCompiler, compiles, program_computes, program_fits};
use crate::program::instruction::{Constant, Inputs, spec_all};

verus! {

/// The operators that combine two surface materials.
#[derive(Debug, Copy, Clone, PartialEq, Eq, Structural)]
pub enum BinaryOperator {
    Add,
}

/// Names a surface material.
#[derive(Debug, Copy, Clone, PartialEq, Eq, Structural)]
pub struct MaterialId(pub usize);

/// A surface material: one that scatters light in one way, with the color of an
/// expression, or two materials mixed by an amount or added together.
#[derive(Debug, Copy, Clone, PartialEq, Eq, Structural)]
pub enum SurfaceMaterial {
    Emissive { color: Expression },
    Diffuse { color: Expression },
    Mirror { color: Expression },
    Refractive {
        color: Expression,
        ior: Expression,
        dispersion: Option<Expression>,
        env_ior: Option<Expression>,
        env_dispersion: Option<Expression>,
    },
    Mix { lhs: MaterialId, rhs: MaterialId, amount: Expression },
    Binary { operator: BinaryOperator, lhs: MaterialId, rhs: MaterialId },
}

/// How a component scatters light. The refractive properties are expressions, for the
/// caller to evaluate.
#[derive(Debug, Copy, Clone, PartialEq, Eq, Structural)]
pub enum BsdfKind {
    Emissive,
    Diffuse,
    Mirror,
    Refractive {
        ior: Expression,
        dispersion: Option<Expression>,
        env_ior: Option<Expression>,
        env_dispersion: Option<Expression>,
    },
}

/// One component of a surface: how it scatters, its color, and the probability that it
/// is chosen, where it is not chosen every time.
#[derive(Debug, Copy, Clone, PartialEq, Eq, Structural)]
pub struct ComponentSpec {
    pub bsdf: BsdfKind,
    pub color: Expression,
    pub probability: Option<Expression>,
}

/// The number `0` as a constant.
pub open spec fn zero() -> Constant {
    Constant(0u32)
}

/// The number `1` as a constant.
pub open spec fn one() -> Constant {
    Constant(0x3f80_0000u32)
}

/// The materials of a project, each under the number it was added as.
pub struct Materials {
    nodes: Vec<SurfaceMaterial>,
}

/// The expressions that a material reads itself.
pub open spec fn material_expressions(m: SurfaceMaterial) -> Seq<Expression> {
    match m {
        SurfaceMaterial::Emissive { color } | SurfaceMaterial::Diffuse { color } | SurfaceMaterial::Mirror {
            color,
        } => seq![color],
        SurfaceMaterial::Refractive { color, ior, .. } => seq![color, ior],
        SurfaceMaterial::Mix { amount, .. } => seq![amount],
        SurfaceMaterial::Binary { .. } => Seq::empty(),
    }
}

/// Each material combines only materials with smaller numbers, and reads only
/// expressions numbered below `n`.
pub open spec fn materials_wf(ms: Seq<SurfaceMaterial>, n: int) -> bool {
    forall|i: int|
        0 <= i < ms.len() ==> {
            &&& match #[trigger] ms[i] {
                SurfaceMaterial::Mix { lhs, rhs, .. } | SurfaceMaterial::Binary { lhs, rhs, .. } => lhs.0 < i
                    && rhs.0 < i,
                _ => true,
            }
            &&& forall|j: int|
                0 <= j < material_expressions(ms[i]).len() ==> below(
                    #[trigger] material_expressions(ms[i])[j],
                    n,
                )
        }
}

/// The component of a material that scatters light itself, with the probability `p`.
pub open spec fn leaf_component(m: SurfaceMaterial, p: Option<Expression>) -> Option<ComponentSpec> {
    match m {
        SurfaceMaterial::Emissive { color } => Some(ComponentSpec { bsdf: BsdfKind::Emissive, color, probability: p }),
        SurfaceMaterial::Diffuse { color } => Some(ComponentSpec { bsdf: BsdfKind::Diffuse, color, probability: p }),
        SurfaceMaterial::Mirror { color } => Some(ComponentSpec { bsdf: BsdfKind::Mirror, color, probability: p }),
        SurfaceMaterial::Refractive { color, ior, dispersion, env_ior, env_dispersion } => Some(
            ComponentSpec {
                bsdf: BsdfKind::Refractive { ior, dispersion, env_ior, env_dispersion },
                color,
                probability: p,
            },
        ),
        _ => None,
    }
}

/// The expression numbered `n`.
pub open spec fn numbered(n: int) -> Expression {
    Expression::Complex(ExpressionId(n as usize))
}

/// The components of the material numbered `id`, chosen with the probability `p` (always,
/// where there is none), and the expressions after those that taking it apart adds. A
/// mix clamps its amount to the range from 0 to 1, multiplies it into `p`, and gives that
/// product to its left side and one minus it to its right side; a sum gives `p` to both
/// sides. The right side comes first.
pub open spec fn flatten_from(
    ms: Seq<SurfaceMaterial>,
    id: int,
    p: Option<Expression>,
    nodes: Seq<ComplexExpression>,
) -> (Seq<ComponentSpec>, Seq<ComplexExpression>)
    decreases id,
{
    if !(0 <= id < ms.len()) {
        (Seq::empty(), nodes)
    } else {
        match ms[id] {
            SurfaceMaterial::Mix { lhs, rhs, amount } => {
                let amount_e = numbered(nodes.len() as int);
                let n1 = nodes.push(
                    ComplexExpression::Clamp {
                        value: amount,
                        min: Expression::Number(zero()),
                        max: Expression::Number(one()),
                    },
                );
                let (lhs_p, n2) = match p {
                    Some(q) => (
                        numbered(n1.len() as int),
                        n1.push(ComplexExpression::Binary { operator: super::BinaryOperator::Mul, lhs: q, rhs: amount_e }),
                    ),
                    None => (amount_e, n1),
                };
                let rhs_p = numbered(n2.len() as int);
                let n3 = n2.push(
                    ComplexExpression::Binary {
                        operator: super::BinaryOperator::Sub,
                        lhs: Expression::Number(one()),
                        rhs: lhs_p,
                    },
                );
                let (cr, n4) = if rhs.0 < id {
                    flatten_from(ms, rhs.0 as int, Some(rhs_p), n3)
                } else {
                    (Seq::empty(), n3)
                };
                let (cl, n5) = if lhs.0 < id {
                    flatten_from(ms, lhs.0 as int, Some(lhs_p), n4)
                } else {
                    (Seq::empty(), n4)
                };
                (cr + cl, n5)
            },
            SurfaceMaterial::Binary { lhs, rhs, .. } => {
                let (cr, n1) = if rhs.0 < id {
                    flatten_from(ms, rhs.0 as int, p, nodes)
                } else {
                    (Seq::empty(), nodes)
                };
                let (cl, n2) = if lhs.0 < id {
                    flatten_from(ms, lhs.0 as int, p, n1)
                } else {
                    (Seq::empty(), n1)
                };
                (cr + cl, n2)
            },
            m => (seq![leaf_component(m, p)->Some_0], nodes),
        }
    }
}

/// A material that scatters light in one way is one component, chosen with the
/// probability `p`, and adds no expression.
pub proof fn lemma_leaf_alone(ms: Seq<SurfaceMaterial>, id: int, p: Option<Expression>, nodes: Seq<ComplexExpression>)
    requires
        0 <= id < ms.len(),
        leaf_component(ms[id], p) is Some,
    ensures
        flatten_from(ms, id, p, nodes).0 == seq![leaf_component(ms[id], p)->Some_0],
        flatten_from(ms, id, p, nodes).1 == nodes,
{
}

/// A mix of two materials that each scatter light in one way gives two components: first
/// that of its right side, then that of its left side. The left side is chosen with the
/// mix's amount clamped to the range from 0 to 1 (multiplied into `p`, where there is
/// one), the right side with one minus that. The expressions that were there stay.
pub proof fn lemma_mix_of_leaves(
    ms: Seq<SurfaceMaterial>,
    id: int,
    p: Option<Expression>,
    nodes: Seq<ComplexExpression>,
    lhs: MaterialId,
    rhs: MaterialId,
    amount: Expression,
)
    requires
        0 <= id < ms.len(),
        ms[id] == (SurfaceMaterial::Mix { lhs, rhs, amount }),
        lhs.0 < id,
        rhs.0 < id,
        leaf_component(ms[lhs.0 as int], None) is Some,
        leaf_component(ms[rhs.0 as int], None) is Some,
        nodes.len() + 3 < usize::MAX,
    ensures
        ({
            let (cs, n) = flatten_from(ms, id, p, nodes);
            let c = nodes.len() as int;
            &&& n.subrange(0, c) == nodes
            &&& c < n.len()
            &&& n[c] == (ComplexExpression::Clamp {
                value: amount,
                min: Expression::Number(zero()),
                max: Expression::Number(one()),
            })
            &&& cs.len() == 2
            &&& cs[1] == leaf_component(ms[lhs.0 as int], cs[1].probability)->Some_0
            &&& cs[0] == leaf_component(ms[rhs.0 as int], cs[0].probability)->Some_0
            &&& cs[1].probability matches Some(Expression::Complex(l)) && l.0 < n.len() && (p is None ==> l.0 == c) && (
            p matches Some(q) ==> n[l.0 as int] == (ComplexExpression::Binary {
                operator: super::BinaryOperator::Mul,
                lhs: q,
                rhs: numbered(c),
            }))
            &&& cs[0].probability matches Some(Expression::Complex(r)) && r.0 < n.len() && n[r.0 as int] == (
            ComplexExpression::Binary {
                operator: super::BinaryOperator::Sub,
                lhs: Expression::Number(one()),
                rhs: cs[1].probability->Some_0,
            })
        }),
{
    let c = nodes.len() as int;
    let (cs, n) = flatten_from(ms, id, p, nodes);
    let amount_e = numbered(c);
    let n1 = nodes.push(
        ComplexExpression::Clamp { value: amount, min: Expression::Number(zero()), max: Expression::Number(one()) },
    );
    let (lhs_p, n2) = match p {
        Some(q) => (
            numbered(n1.len() as int),
            n1.push(ComplexExpression::Binary { operator: super::BinaryOperator::Mul, lhs: q, rhs: amount_e }),
        ),
        None => (amount_e, n1),
    };
    let rhs_p = numbered(n2.len() as int);
    let n3 = n2.push(
        ComplexExpression::Binary { operator: super::BinaryOperator::Sub, lhs: Expression::Number(one()), rhs: lhs_p },
    );
    assert(leaf_component(ms[rhs.0 as int], Some(rhs_p)) is Some);
    assert(leaf_component(ms[lhs.0 as int], Some(lhs_p)) is Some);
    assert(flatten_from(ms, rhs.0 as int, Some(rhs_p), n3) == (seq![leaf_component(ms[rhs.0 as int], Some(rhs_p))->Some_0], n3));
    assert(flatten_from(ms, lhs.0 as int, Some(lhs_p), n3) == (seq![leaf_component(ms[lhs.0 as int], Some(lhs_p))->Some_0], n3));
    assert(n == n3);
    assert(n3.subrange(0, c) =~= nodes);
}

/// The components of a stack of materials with their probabilities, the top one first,
/// and the expressions that taking them apart adds.
pub open spec fn flatten_stack(
    ms: Seq<SurfaceMaterial>,
    stack: Seq<(MaterialId, Option<Expression>)>,
    nodes: Seq<ComplexExpression>,
) -> (Seq<ComponentSpec>, Seq<ComplexExpression>)
    decreases stack.len(),
{
    if stack.len() == 0 {
        (Seq::empty(), nodes)
    } else {
        let (c1, n1) = flatten_from(ms, stack.last().0.0 as int, stack.last().1, nodes);
        let (c2, n2) = flatten_stack(ms, stack.drop_last(), n1);
        (c1 + c2, n2)
    }
}

/// How many materials taking apart the material numbered `id` visits.
pub open spec fn visits(ms: Seq<SurfaceMaterial>, id: int) -> nat
    decreases id,
{
    if !(0 <= id < ms.len()) {
        0
    } else {
        match ms[id] {
            SurfaceMaterial::Mix { lhs, rhs, .. } | SurfaceMaterial::Binary { lhs, rhs, .. } => 1 + (if lhs.0 < id {
                visits(ms, lhs.0 as int)
            } else {
                0
            }) + (if rhs.0 < id {
                visits(ms, rhs.0 as int)
            } else {
                0
            }),
            _ => 1,
        }
    }
}

/// How many materials taking apart a stack visits.
pub open spec fn stack_visits(ms: Seq<SurfaceMaterial>, stack: Seq<(MaterialId, Option<Expression>)>) -> nat
    decreases stack.len(),
{
    if stack.len() == 0 {
        0
    } else {
        visits(ms, stack.last().0.0 as int) + stack_visits(ms, stack.drop_last())
    }
}

impl Materials {
    /// The materials, in the order they were added.
    pub closed spec fn view(&self) -> Seq<SurfaceMaterial> {
        self.nodes@
    }

    pub fn new() -> (m: Materials)
        ensures
            m.view() == Seq::<SurfaceMaterial>::empty(),
    {
        Materials { nodes: Vec::new() }
    }

    /// Adds `material` under the next number.
    pub fn insert(&mut self, material: SurfaceMaterial) -> (id: MaterialId)
        ensures
            final(self).view() == old(self).view().push(material),
            id.0 == old(self).view().len(),
    {
        let id = self.nodes.len();
        self.nodes.push(material);
        MaterialId(id)
    }

    /// The material numbered `id`.
    pub fn get(&self, id: MaterialId) -> (m: SurfaceMaterial)
        requires
            id.0 < self.view().len(),
        ensures
            m == self.view()[id.0 as int],
    {
        self.nodes[id.0]
    }

    /// How many materials there are.
    pub fn len(&self) -> (n: usize)
        ensures
            n == self.view().len(),
    {
        self.nodes.len()
    }
}

/// The number `1` as a constant.
fn one_constant() -> (c: Constant)
    ensures
        c == one(),
{
    Constant(0x3f80_0000u32)
}

/// The number `0` as a constant.
fn zero_constant() -> (c: Constant)
    ensures
        c == zero(),
{
    Constant(0u32)
}

/// Takes the material `root` apart into the components that a surface made of it
/// scatters light with, adding the expressions for their probabilities to `expressions`:
/// the components and expressions of `flatten_from`, in that order. How often each
/// component is chosen, the number of components, is theirs to count.
pub fn flatten_material(materials: &Materials, root: MaterialId, expressions: &mut Expressions) -> (r: Vec<
    ComponentSpec,
>)
    requires
        ranked(old(expressions).nodes()),
        materials_wf(materials.view(), old(expressions).nodes().len() as int),
        root.0 < materials.view().len(),
    ensures
        r@ == flatten_from(materials.view(), root.0 as int, None, old(expressions).nodes()).0,
        final(expressions).nodes() == flatten_from(materials.view(), root.0 as int, None, old(expressions).nodes()).1,
        ranked(final(expressions).nodes()),
{
    let ghost ms = materials.view();
    let ghost n0 = expressions.nodes().len();
    let ghost target = flatten_from(ms, root.0 as int, None, expressions.nodes());
    let mut out: Vec<ComponentSpec> = Vec::new();
    let mut stack: Vec<(MaterialId, Option<Expression>)> = Vec::new();
    stack.push((root, None));
    proof {
        assert(stack@.drop_last() =~= Seq::<(MaterialId, Option<Expression>)>::empty());
        assert(flatten_stack(ms, Seq::<(MaterialId, Option<Expression>)>::empty(), target.1) == (
            Seq::<ComponentSpec>::empty(),
            target.1,
        ));
        assert(flatten_stack(ms, stack@, expressions.nodes()) == (target.0 + Seq::<ComponentSpec>::empty(), target.1));
        assert(target.0 =~= out@ + flatten_stack(ms, stack@, expressions.nodes()).0);
    }
    while stack.len() > 0
        invariant
            ms == materials.view(),
            materials_wf(ms, n0 as int),
            n0 <= expressions.nodes().len(),
            ranked(expressions.nodes()),
            forall|i: int|
                0 <= i < stack@.len() ==> #[trigger] stack@[i].0.0 < ms.len() && (stack@[i].1 matches Some(q) ==> below(
                    q,
                    expressions.nodes().len() as int,
                )),
            out@ + flatten_stack(ms, stack@, expressions.nodes()).0 == target.0,
            flatten_stack(ms, stack@, expressions.nodes()).1 == target.1,
        decreases stack_visits(ms, stack@),
    {
        let ghost before = stack@;
        let ghost cur = expressions.nodes();
        let (id, p) = stack.pop().unwrap();
        let ghost rest = stack@;
        proof {
            assert(rest =~= before.drop_last());
            assert(before.last() == (id, p));
        }
        match materials.get(id) {
            SurfaceMaterial::Mix { lhs, rhs, amount } => {
                proof {
                    assert(material_expressions(ms[id.0 as int])[0] == amount);
                }
                let zero_e = Expression::Number(zero_constant());
                let one_e = Expression::Number(one_constant());
                let amount_e = insert_clamp(expressions, amount, zero_e, one_e);
                proof {
                    let c = ComplexExpression::Clamp { value: amount, min: zero_e, max: one_e };
                    assert(operands(c) =~= seq![amount, zero_e, one_e]);
                    lemma_ranked_push(cur, c);
                }
                let lhs_p = match p {
                    Some(q) => {
                        let ghost n1 = expressions.nodes();
                        let e = insert_mul(expressions, q, amount_e);
                        proof {
                            let c = ComplexExpression::Binary { operator: super::BinaryOperator::Mul, lhs: q, rhs: amount_e };
                            assert(operands(c) =~= seq![q, amount_e]);
                            lemma_ranked_push(n1, c);
                        }
                        e
                    },
                    None => amount_e,
                };
                let ghost n2 = expressions.nodes();
                let rhs_p = insert_sub(expressions, one_e, lhs_p);
                proof {
                    let c = ComplexExpression::Binary { operator: super::BinaryOperator::Sub, lhs: one_e, rhs: lhs_p };
                    assert(operands(c) =~= seq![one_e, lhs_p]);
                    lemma_ranked_push(n2, c);
                    assert(below(lhs_p, n2.len() as int));
                    assert(below(rhs_p, expressions.nodes().len() as int));
                    assert(below(lhs_p, expressions.nodes().len() as int));
                }
                stack.push((lhs, Some(lhs_p)));
                stack.push((rhs, Some(rhs_p)));
                proof {
                    let n3 = expressions.nodes();
                    let s1 = rest.push((lhs, Some(lhs_p)));
                    assert(stack@ == s1.push((rhs, Some(rhs_p))));
                    assert(stack@.drop_last() =~= s1);
                    assert(s1.drop_last() =~= rest);
                    let (cr, n4) = flatten_from(ms, rhs.0 as int, Some(rhs_p), n3);
                    let (cl, n5) = flatten_from(ms, lhs.0 as int, Some(lhs_p), n4);
                    assert(flatten_from(ms, id.0 as int, p, cur) == (cr + cl, n5));
                    let (cs, ns) = flatten_stack(ms, rest, n5);
                    assert(flatten_stack(ms, before, cur) == ((cr + cl) + cs, ns));
                    assert(flatten_stack(ms, s1, n4) == (cl + cs, ns));
                    assert(flatten_stack(ms, stack@, n3) == (cr + (cl + cs), ns));
                    assert((cr + cl) + cs =~= cr + (cl + cs));
                    assert forall|i: int| 0 <= i < stack@.len() implies #[trigger] stack@[i].0.0 < ms.len() && (
                    stack@[i].1 matches Some(q) ==> below(q, expressions.nodes().len() as int)) by {
                        if i < rest.len() {
                            assert(stack@[i] == before[i]);
                            assert(before[i].0.0 < ms.len() && (before[i].1 matches Some(q) ==> below(
                                q,
                                cur.len() as int,
                            )));
                        } else if i == rest.len() {
                            assert(stack@[i] == (lhs, Some(lhs_p)));
                        } else {
                            assert(stack@[i] == (rhs, Some(rhs_p)));
                        }
                    }
                    assert(stack_visits(ms, stack@) == visits(ms, rhs.0 as int) + stack_visits(ms, s1));
                    assert(stack_visits(ms, s1) == visits(ms, lhs.0 as int) + stack_visits(ms, rest));
                    assert(stack_visits(ms, before) == visits(ms, id.0 as int) + stack_visits(ms, rest));
                }
            },
            SurfaceMaterial::Binary { lhs, rhs, .. } => {
                stack.push((lhs, p));
                stack.push((rhs, p));
                proof {
                    let s1 = rest.push((lhs, p));
                    assert(stack@ == s1.push((rhs, p)));
                    assert(stack@.drop_last() =~= s1);
                    assert(s1.drop_last() =~= rest);
                    let (cr, n1) = flatten_from(ms, rhs.0 as int, p, cur);
                    let (cl, n2) = flatten_from(ms, lhs.0 as int, p, n1);
                    assert(flatten_from(ms, id.0 as int, p, cur) == (cr + cl, n2));
                    let (cs, ns) = flatten_stack(ms, rest, n2);
                    assert(flatten_stack(ms, before, cur) == ((cr + cl) + cs, ns));
                    assert(flatten_stack(ms, s1, n1) == (cl + cs, ns));
                    assert(flatten_stack(ms, stack@, cur) == (cr + (cl + cs), ns));
                    assert((cr + cl) + cs =~= cr + (cl + cs));
                    assert forall|i: int| 0 <= i < stack@.len() implies #[trigger] stack@[i].0.0 < ms.len() && (
                    stack@[i].1 matches Some(q) ==> below(q, expressions.nodes().len() as int)) by {
                        if i < rest.len() {
                            assert(stack@[i] == before[i]);
                        }
                    }
                    assert(stack_visits(ms, stack@) == visits(ms, rhs.0 as int) + stack_visits(ms, s1));
                    assert(stack_visits(ms, s1) == visits(ms, lhs.0 as int) + stack_visits(ms, rest));
                    assert(stack_visits(ms, before) == visits(ms, id.0 as int) + stack_visits(ms, rest));
                }
            },
            m => {
                let component = match m {
                    SurfaceMaterial::Emissive { color } => ComponentSpec {
                        bsdf: BsdfKind::Emissive,
                        color,
                        probability: p,
                    },
                    SurfaceMaterial::Diffuse { color } => ComponentSpec { bsdf: BsdfKind::Diffuse, color, probability: p },
                    SurfaceMaterial::Mirror { color } => ComponentSpec { bsdf: BsdfKind::Mirror, color, probability: p },
                    SurfaceMaterial::Refractive { color, ior, dispersion, env_ior, env_dispersion } => ComponentSpec {
                        bsdf: BsdfKind::Refractive { ior, dispersion, env_ior, env_dispersion },
                        color,
                        probability: p,
                    },
                    _ => {
                        proof {
                            assert(false);
                        }
                        ComponentSpec { bsdf: BsdfKind::Mirror, color: Expression::Number(zero_constant()), probability: p }
                    },
                };
                let ghost before_out = out@;
                out.push(component);
                proof {
                    assert(flatten_from(ms, id.0 as int, p, cur) == (seq![component], cur));
                    let (cs, ns) = flatten_stack(ms, rest, cur);
                    assert(flatten_stack(ms, before, cur) == (seq![component] + cs, ns));
                    assert(out@ + cs =~= before_out + (seq![component] + cs));
                    assert(stack_visits(ms, before) == visits(ms, id.0 as int) + stack_visits(ms, rest));
                }
            },
        }
    }
    proof {
        assert(out@ =~= out@ + Seq::<ComponentSpec>::empty());
    }
    out
}

/// A component with its programs: the color, and the probability where there is one,
/// each computing a number.
#[derive(Debug, PartialEq, Eq)]
pub struct CompiledComponent {
    pub bsdf: BsdfKind,
    pub color: Program,
    pub probability: Option<Program>,
}

/// The component's expressions compile to number programs that can read every input.
pub open spec fn component_compiles(nodes: Seq<ComplexExpression>, c: ComponentSpec) -> bool {
    &&& compiles(nodes, c.color, OutputType::Number, spec_all())
    &&& (c.probability matches Some(p) ==> compiles(nodes, p, OutputType::Number, spec_all()))
}

/// The program `p` compiles `e` into a number.
pub open spec fn compiled_from(p: Program, nodes: Seq<ComplexExpression>, e: Expression) -> bool {
    program_fits(p, e, OutputType::Number) && program_computes(p, nodes, e)
}

/// The compiled component is the component with its expressions compiled.
pub open spec fn component_matches(nodes: Seq<ComplexExpression>, c: ComponentSpec, k: CompiledComponent) -> bool {
    &&& k.bsdf == c.bsdf
    &&& compiled_from(k.color, nodes, c.color)
    &&& match (c.probability, k.probability) {
        (Some(e), Some(p)) => compiled_from(p, nodes, e),
        (None, None) => true,
        _ => false,
    }
}

/// Compiles the probability, then the color, of each component in turn, into programs
/// that can read every input; the first expression that does not compile stops it with
/// its error.
pub fn compile_components(
    compiler: &ProgramCompiler,
    components: &Vec<ComponentSpec>,
    expressions: &Expressions,
) -> (r: Result<Vec<CompiledComponent>, CompileError>)
    requires
        ranked(expressions.nodes()),
        expressions.nodes().len() < usize::MAX / 32,
        forall|i: int|
            0 <= i < components@.len() ==> below(#[trigger] components@[i].color, expressions.nodes().len() as int)
                && (components@[i].probability matches Some(p) ==> below(p, expressions.nodes().len() as int)),
    ensures
        r is Ok <==> forall|i: int| 0 <= i < components@.len() ==> component_compiles(expressions.nodes(), #[trigger] components@[i]),
        r matches Ok(v) ==> v@.len() == components@.len() && forall|i: int|
            0 <= i < v@.len() ==> component_matches(expressions.nodes(), components@[i], #[trigger] v@[i]),
{
    let ghost nodes = expressions.nodes();
    let mut out: Vec<CompiledComponent> = Vec::new();
    let mut i: usize = 0;
    while i < components.len()
        invariant
            nodes == expressions.nodes(),
            ranked(nodes),
            nodes.len() < usize::MAX / 32,
            0 <= i <= components@.len(),
            out@.len() == i,
            forall|k: int|
                0 <= k < components@.len() ==> below(#[trigger] components@[k].color, nodes.len() as int)
                    && (components@[k].probability matches Some(p) ==> below(p, nodes.len() as int)),
            forall|k: int| 0 <= k < i ==> component_compiles(nodes, #[trigger] components@[k]),
            forall|k: int| 0 <= k < i ==> component_matches(nodes, components@[k], #[trigger] out@[k]),
        decreases components@.len() - i,
    {
        let c = components[i];
        proof {
            assert(below(c.color, nodes.len() as int));
        }
        let probability = match c.probability {
            Some(p) => match compiler.compile(&p, expressions, Inputs::all(), OutputType::Number) {
                Ok(program) => Some(program),
                Err(e) => {
                    return Err(e);
                },
            },
            None => None,
        };
        let color = match compiler.compile(&c.color, expressions, Inputs::all(), OutputType::Number) {
            Ok(program) => program,
            Err(e) => {
                return Err(e);
            },
        };
        let ghost before = out@;
        out.push(CompiledComponent { bsdf: c.bsdf, color, probability });
        proof {
            assert forall|k: int| 0 <= k < i + 1 implies component_matches(nodes, components@[k], #[trigger] out@[k]) by {
                if k < i {
                    assert(out@[k] == before[k]);
                }
            }
        }
        i = i + 1;
    }
    Ok(out)
}

} // verus!
