use pyrite::program::instruction::Constant;
use pyrite::project::expressions::{insert_clamp, insert_mul, insert_sub, ComplexExpression, Expression, Expressions};
use pyrite::program::compiler::{CompileError, ProgramCompiler};
use pyrite::project::materials::{
    compile_components, flatten_material, BinaryOperator as MaterialOperator, BsdfKind, ComponentSpec, Materials,
    SurfaceMaterial,
};
use pyrite::project::{BinaryOperator, ExpressionId};

fn constant(value: f32) -> Expression {
    Expression::Number(Constant(value.to_bits()))
}

fn complex(id: usize) -> Expression {
    Expression::Complex(ExpressionId(id))
}

#[test]
fn a_single_material_is_one_component() {
    let mut materials = Materials::new();
    let d = materials.insert(SurfaceMaterial::Diffuse { color: constant(0.5) });
    let mut expressions = Expressions::new();
    let components = flatten_material(&materials, d, &mut expressions);
    assert_eq!(components, vec![ComponentSpec { bsdf: BsdfKind::Diffuse, color: constant(0.5), probability: None }]);
    assert_eq!(expressions.len(), 0);
}

#[test]
fn a_mix_splits_its_probability() {
    let mut materials = Materials::new();
    let d = materials.insert(SurfaceMaterial::Diffuse { color: constant(0.5) });
    let m = materials.insert(SurfaceMaterial::Mirror { color: constant(1.0) });
    let mix = materials.insert(SurfaceMaterial::Mix { lhs: d, rhs: m, amount: constant(0.25) });
    let mut expressions = Expressions::new();
    let components = flatten_material(&materials, mix, &mut expressions);
    assert_eq!(
        components,
        vec![
            ComponentSpec { bsdf: BsdfKind::Mirror, color: constant(1.0), probability: Some(complex(1)) },
            ComponentSpec { bsdf: BsdfKind::Diffuse, color: constant(0.5), probability: Some(complex(0)) },
        ]
    );
    assert_eq!(expressions.len(), 2);
    assert_eq!(
        expressions.get(ExpressionId(0)),
        ComplexExpression::Clamp { value: constant(0.25), min: constant(0.0), max: constant(1.0) }
    );
    assert_eq!(
        expressions.get(ExpressionId(1)),
        ComplexExpression::Binary { operator: BinaryOperator::Sub, lhs: constant(1.0), rhs: complex(0) }
    );
}

#[test]
fn a_mix_in_a_mix_multiplies_probabilities_and_a_sum_passes_them_on() {
    let mut materials = Materials::new();
    let e = materials.insert(SurfaceMaterial::Emissive { color: constant(2.0) });
    let d = materials.insert(SurfaceMaterial::Diffuse { color: constant(0.5) });
    let sum = materials.insert(SurfaceMaterial::Binary { operator: MaterialOperator::Add, lhs: e, rhs: d });
    let m = materials.insert(SurfaceMaterial::Mirror { color: constant(1.0) });
    let inner = materials.insert(SurfaceMaterial::Mix { lhs: sum, rhs: m, amount: constant(0.5) });
    let outer = materials.insert(SurfaceMaterial::Mix { lhs: inner, rhs: d, amount: constant(0.75) });
    let mut expressions = Expressions::new();
    let components = flatten_material(&materials, outer, &mut expressions);
    // outer: clamp 0, sub 1 (rhs d), then inner with probability 0: clamp 2, mul 3, sub 4.
    assert_eq!(
        components,
        vec![
            ComponentSpec { bsdf: BsdfKind::Diffuse, color: constant(0.5), probability: Some(complex(1)) },
            ComponentSpec { bsdf: BsdfKind::Mirror, color: constant(1.0), probability: Some(complex(4)) },
            ComponentSpec { bsdf: BsdfKind::Diffuse, color: constant(0.5), probability: Some(complex(3)) },
            ComponentSpec { bsdf: BsdfKind::Emissive, color: constant(2.0), probability: Some(complex(3)) },
        ]
    );
    assert_eq!(expressions.len(), 5);
    assert_eq!(
        expressions.get(ExpressionId(3)),
        ComplexExpression::Binary { operator: BinaryOperator::Mul, lhs: complex(0), rhs: complex(2) }
    );
}

#[test]
fn inserted_expressions_are_numbered_in_order() {
    let mut expressions = Expressions::new();
    assert_eq!(insert_clamp(&mut expressions, constant(2.0), constant(0.0), constant(1.0)), complex(0));
    assert_eq!(insert_mul(&mut expressions, complex(0), constant(3.0)), complex(1));
    assert_eq!(insert_sub(&mut expressions, constant(1.0), complex(1)), complex(2));
    assert_eq!(expressions.len(), 3);
}

#[test]
fn components_compile_to_number_programs() {
    let mut materials = Materials::new();
    let mut expressions = Expressions::new();
    let d = materials.insert(SurfaceMaterial::Diffuse { color: constant(0.5) });
    let m = materials.insert(SurfaceMaterial::Mirror { color: constant(1.0) });
    let mix = materials.insert(SurfaceMaterial::Mix { lhs: d, rhs: m, amount: constant(0.25) });
    let components = flatten_material(&materials, mix, &mut expressions);
    let compiled = compile_components(&ProgramCompiler::new(), &components, &expressions).unwrap();
    assert_eq!(compiled.len(), 2);
    assert_eq!(compiled[0].bsdf, BsdfKind::Mirror);
    assert!(compiled[0].probability.is_some());
    assert_eq!(compiled[1].bsdf, BsdfKind::Diffuse);
}

#[test]
fn a_vector_amount_does_not_compile() {
    let mut materials = Materials::new();
    let mut expressions = Expressions::new();
    let v = expressions.insert(ComplexExpression::Vector {
        x: constant(1.0),
        y: constant(1.0),
        z: constant(1.0),
        w: constant(1.0),
    });
    let d = materials.insert(SurfaceMaterial::Diffuse { color: constant(0.5) });
    let m = materials.insert(SurfaceMaterial::Mirror { color: constant(1.0) });
    let mix = materials.insert(SurfaceMaterial::Mix { lhs: d, rhs: m, amount: Expression::Complex(v) });
    let components = flatten_material(&materials, mix, &mut expressions);
    assert_eq!(
        compile_components(&ProgramCompiler::new(), &components, &expressions),
        Err(CompileError::VectorAsNumber)
    );
}
