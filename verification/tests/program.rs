use pyrite::program::compiler::{CompileError, OutputType, Program, ProgramCompiler, ProgramOutput, ProgramType};
use pyrite::program::instruction::{
    needs_run, BinaryValueType, Constant, Inputs, Instruction, InstructionType, NumberInput, NumberValue,
    ValueConversion, VectorInput, VectorValue,
};
use pyrite::program::{NumberRegister, ProgramContext, RgbRegister, VectorRegister};
use pyrite::project::expressions::{ComplexExpression, Expression, Expressions};
use pyrite::project::{BinaryOperator, ColorTextureId, ExpressionId, SpectrumId};

fn constant(value: f32) -> Expression {
    Expression::Number(Constant(value.to_bits()))
}

fn complex(id: ExpressionId) -> Expression {
    Expression::Complex(id)
}

fn inputs(wavelength: bool, normal: bool, incident: bool, texture_coordinates: bool) -> Inputs {
    Inputs { wavelength, normal, incident, texture_coordinates }
}

fn instructions(program: &Program) -> (&Vec<Instruction>, ProgramOutput, usize, usize, usize) {
    match &program.program_type {
        ProgramType::Instructions { instructions, output, numbers, vectors, rgb_values } => {
            (instructions, *output, *numbers, *vectors, *rgb_values)
        }
        ProgramType::Constant { .. } => panic!("expected instructions"),
    }
}

#[test]
fn constant_stays_constant() {
    let expressions = Expressions::new();
    let program = ProgramCompiler::new().compile(&constant(2.5), &expressions, Inputs::all(), OutputType::Vector).unwrap();
    assert_eq!(program.program_type, ProgramType::Constant { value: Constant(2.5f32.to_bits()) });
}

#[test]
fn vector_of_constants() {
    let mut expressions = Expressions::new();
    let v = expressions.insert(ComplexExpression::Vector {
        x: constant(1.0),
        y: constant(2.0),
        z: constant(3.0),
        w: constant(4.0),
    });
    let program = ProgramCompiler::new().compile(&complex(v), &expressions, Inputs::all(), OutputType::Vector).unwrap();
    let (code, output, numbers, vectors, rgb_values) = instructions(&program);
    assert_eq!(
        *code,
        vec![Instruction {
            instruction_type: InstructionType::VectorValue {
                x: NumberValue::Constant(Constant(1.0f32.to_bits())),
                y: NumberValue::Constant(Constant(2.0f32.to_bits())),
                z: NumberValue::Constant(Constant(3.0f32.to_bits())),
                w: NumberValue::Constant(Constant(4.0f32.to_bits())),
                output: VectorRegister(0),
            },
            dependencies: inputs(false, false, false, false),
        }]
    );
    assert_eq!(output, ProgramOutput::FromVector(VectorRegister(0)));
    assert_eq!((numbers, vectors, rgb_values), (0, 1, 0));
}

#[test]
fn shared_expression_is_computed_once() {
    let mut expressions = Expressions::new();
    let s = expressions.insert(ComplexExpression::Spectrum { points: SpectrumId(4) });
    let sum = expressions.insert(ComplexExpression::Binary {
        operator: BinaryOperator::Add,
        lhs: complex(s),
        rhs: complex(s),
    });
    let program = ProgramCompiler::new().compile(&complex(sum), &expressions, Inputs::all(), OutputType::Number).unwrap();
    let (code, output, numbers, vectors, rgb_values) = instructions(&program);
    let wavelength = inputs(true, false, false, false);
    assert_eq!(
        *code,
        vec![
            Instruction {
                instruction_type: InstructionType::SpectrumValue {
                    wavelength: NumberValue::Input(NumberInput::Wavelength),
                    spectrum: SpectrumId(4),
                    output: NumberRegister(0),
                },
                dependencies: wavelength,
            },
            Instruction {
                instruction_type: InstructionType::Binary {
                    value_type: BinaryValueType::Number,
                    operator: BinaryOperator::Add,
                    lhs: 0,
                    rhs: 0,
                    output: 1,
                },
                dependencies: wavelength,
            },
        ]
    );
    assert_eq!(output, ProgramOutput::FromNumber(NumberRegister(1)));
    assert_eq!((numbers, vectors, rgb_values), (2, 0, 0));
}

#[test]
fn constant_operand_is_brought_to_a_vector() {
    let mut expressions = Expressions::new();
    let v = expressions.insert(ComplexExpression::Vector {
        x: constant(0.0),
        y: constant(0.0),
        z: constant(1.0),
        w: constant(0.0),
    });
    let scaled = expressions.insert(ComplexExpression::Binary {
        operator: BinaryOperator::Mul,
        lhs: constant(2.0),
        rhs: complex(v),
    });
    let program = ProgramCompiler::new().compile(&complex(scaled), &expressions, Inputs::all(), OutputType::Vector).unwrap();
    let (code, output, numbers, vectors, rgb_values) = instructions(&program);
    let two = NumberValue::Constant(Constant(2.0f32.to_bits()));
    assert_eq!(code.len(), 3);
    assert_eq!(
        code[1].instruction_type,
        InstructionType::VectorValue { x: two, y: two, z: two, w: two, output: VectorRegister(1) }
    );
    assert_eq!(
        code[2].instruction_type,
        InstructionType::Binary {
            value_type: BinaryValueType::Vector,
            operator: BinaryOperator::Mul,
            lhs: 1,
            rhs: 0,
            output: 2,
        }
    );
    assert_eq!(output, ProgramOutput::FromVector(VectorRegister(2)));
    assert_eq!((numbers, vectors, rgb_values), (0, 3, 0));
}

#[test]
fn vector_used_as_number_is_refused() {
    let mut expressions = Expressions::new();
    let v = expressions.insert(ComplexExpression::Vector {
        x: constant(1.0),
        y: constant(1.0),
        z: constant(1.0),
        w: constant(1.0),
    });
    let clamped = expressions.insert(ComplexExpression::Clamp {
        value: complex(v),
        min: constant(0.0),
        max: constant(1.0),
    });
    assert_eq!(
        ProgramCompiler::new().compile(&complex(clamped), &expressions, Inputs::all(), OutputType::Number),
        Err(CompileError::VectorAsNumber)
    );
    assert_eq!(
        ProgramCompiler::new().compile(&complex(v), &expressions, Inputs::all(), OutputType::Number),
        Err(CompileError::VectorAsNumber)
    );
}

#[test]
fn color_operands_are_read_at_the_wavelength_each_attempt() {
    let mut expressions = Expressions::new();
    let texture = expressions.insert(ComplexExpression::ColorTexture { texture: ColorTextureId(0) });
    let spectrum = expressions.insert(ComplexExpression::Spectrum { points: SpectrumId(1) });
    let v = expressions.insert(ComplexExpression::Vector {
        x: complex(texture),
        y: complex(spectrum),
        z: constant(0.0),
        w: constant(0.0),
    });
    let program = ProgramCompiler::new().compile(&complex(v), &expressions, Inputs::all(), OutputType::Vector).unwrap();
    let (code, output, numbers, vectors, rgb_values) = instructions(&program);
    let wavelength = NumberValue::Input(NumberInput::Wavelength);
    let kinds: Vec<InstructionType> = code.iter().map(|i| i.instruction_type).collect();
    assert_eq!(
        kinds,
        vec![
            InstructionType::ColorTextureValue {
                texture_coordinates: VectorValue::Input(VectorInput::TextureCoordinates),
                texture: ColorTextureId(0),
                output: RgbRegister(0),
            },
            InstructionType::RgbSpectrumValue { wavelength, source: RgbRegister(0), output: NumberRegister(0) },
            InstructionType::SpectrumValue { wavelength, spectrum: SpectrumId(1), output: NumberRegister(1) },
            InstructionType::RgbSpectrumValue { wavelength, source: RgbRegister(0), output: NumberRegister(2) },
            InstructionType::VectorValue {
                x: NumberValue::Register(NumberRegister(2)),
                y: NumberValue::Register(NumberRegister(1)),
                z: NumberValue::Constant(Constant(0.0f32.to_bits())),
                w: NumberValue::Constant(Constant(0.0f32.to_bits())),
                output: VectorRegister(0),
            },
        ]
    );
    assert_eq!(code[4].dependencies, inputs(true, false, false, true));
    assert_eq!(output, ProgramOutput::FromVector(VectorRegister(0)));
    assert_eq!((numbers, vectors, rgb_values), (3, 1, 1));
}

#[test]
fn color_result_becomes_a_number_or_a_vector() {
    let mut expressions = Expressions::new();
    let rgb = expressions.insert(ComplexExpression::Rgb {
        red: constant(1.0),
        green: constant(0.5),
        blue: constant(0.25),
    });
    let as_number = ProgramCompiler::new().compile(&complex(rgb), &expressions, Inputs::all(), OutputType::Number).unwrap();
    let (code, output, numbers, _, rgb_values) = instructions(&as_number);
    assert_eq!(code.len(), 2);
    assert_eq!(
        code[1].instruction_type,
        InstructionType::RgbSpectrumValue {
            wavelength: NumberValue::Input(NumberInput::Wavelength),
            source: RgbRegister(0),
            output: NumberRegister(0),
        }
    );
    assert_eq!(code[1].dependencies, inputs(true, false, false, false));
    assert_eq!(output, ProgramOutput::FromNumber(NumberRegister(0)));
    assert_eq!((numbers, rgb_values), (1, 1));

    let as_vector = ProgramCompiler::new().compile(&complex(rgb), &expressions, Inputs::all(), OutputType::Vector).unwrap();
    let (code, output, _, vectors, _) = instructions(&as_vector);
    assert_eq!(
        code[1].instruction_type,
        InstructionType::Convert {
            conversion: ValueConversion::RgbToVector { source: RgbRegister(0), output: VectorRegister(0) },
        }
    );
    assert_eq!(output, ProgramOutput::FromVector(VectorRegister(0)));
    assert_eq!(vectors, 1);
}

#[test]
fn fresnel_depends_on_the_surface() {
    let mut expressions = Expressions::new();
    let f = expressions.insert(ComplexExpression::Fresnel { ior: constant(1.5), env_ior: constant(1.0) });
    let mix = expressions.insert(ComplexExpression::Mix {
        amount: complex(f),
        lhs: constant(0.0),
        rhs: constant(1.0),
    });
    let program = ProgramCompiler::new().compile(&complex(mix), &expressions, Inputs::all(), OutputType::Number).unwrap();
    let (code, output, numbers, _, _) = instructions(&program);
    assert_eq!(code.len(), 4);
    assert_eq!(code[0].dependencies, inputs(false, true, true, false));
    assert_eq!(
        code[3].instruction_type,
        InstructionType::Mix {
            value_type: BinaryValueType::Number,
            lhs: 1,
            rhs: 2,
            amount: NumberValue::Register(NumberRegister(0)),
            output: 3,
        }
    );
    assert_eq!(code[3].dependencies, inputs(false, true, true, false));
    assert_eq!(output, ProgramOutput::FromNumber(NumberRegister(3)));
    assert_eq!(numbers, 4);
}

#[test]
fn inputs_combine() {
    let a = Inputs::from_number(NumberInput::Wavelength);
    let b = Inputs::from_vector(VectorInput::Normal);
    assert_eq!(a.union(b), inputs(true, true, false, false));
    assert_eq!(Inputs::empty().union(Inputs::empty()), inputs(false, false, false, false));
}

#[test]
fn memoized_runs_skip_unchanged_instructions() {
    let mut expressions = Expressions::new();
    let f = expressions.insert(ComplexExpression::Fresnel { ior: constant(1.5), env_ior: constant(1.0) });
    let mix = expressions.insert(ComplexExpression::Mix {
        amount: complex(f),
        lhs: constant(0.0),
        rhs: constant(1.0),
    });
    let program = ProgramCompiler::new().compile(&complex(mix), &expressions, Inputs::all(), OutputType::Number).unwrap();
    let (code, _, _, _, _) = instructions(&program);
    let wavelength = Inputs::from_number(NumberInput::Wavelength);
    let runs: Vec<bool> = code.iter().map(|i| needs_run(i, wavelength)).collect();
    assert_eq!(runs, vec![false, true, true, false]);
    let normal = Inputs::from_vector(VectorInput::Normal);
    let runs: Vec<bool> = code.iter().map(|i| needs_run(i, normal)).collect();
    assert_eq!(runs, vec![true, true, true, true]);
    let everything = Inputs::all();
    assert!(everything.intersects(normal));
    assert!(!wavelength.intersects(normal));
    assert!(Inputs::empty().is_empty());
    assert!(!everything.is_empty());
}

#[test]
fn inputs_that_the_program_cannot_read_are_refused() {
    let wavelength_only = inputs(true, false, false, false);
    let mut expressions = Expressions::new();
    let f = expressions.insert(ComplexExpression::Fresnel { ior: constant(1.5), env_ior: constant(1.0) });
    assert_eq!(
        ProgramCompiler::new().compile(&complex(f), &expressions, wavelength_only, OutputType::Number),
        Err(CompileError::UnavailableVectorInput(VectorInput::Normal))
    );
    let texture = expressions.insert(ComplexExpression::ColorTexture { texture: ColorTextureId(0) });
    assert_eq!(
        ProgramCompiler::new().compile(&complex(texture), &expressions, wavelength_only, OutputType::Vector),
        Err(CompileError::UnavailableVectorInput(VectorInput::TextureCoordinates))
    );
    let spectrum = expressions.insert(ComplexExpression::Spectrum { points: SpectrumId(0) });
    let program =
        ProgramCompiler::new().compile(&complex(spectrum), &expressions, wavelength_only, OutputType::Number).unwrap();
    let (code, output, numbers, _, _) = instructions(&program);
    assert_eq!(code.len(), 1);
    assert_eq!(output, ProgramOutput::FromNumber(NumberRegister(0)));
    assert_eq!(numbers, 1);
}

#[test]
fn a_color_needs_the_wavelength_to_become_a_number() {
    let surface_only = inputs(false, true, true, true);
    let mut expressions = Expressions::new();
    let rgb = expressions.insert(ComplexExpression::Rgb {
        red: constant(1.0),
        green: constant(0.5),
        blue: constant(0.25),
    });
    assert_eq!(
        ProgramCompiler::new().compile(&complex(rgb), &expressions, surface_only, OutputType::Number),
        Err(CompileError::UnavailableNumberInput(NumberInput::Wavelength))
    );
    assert!(ProgramCompiler::new().compile(&complex(rgb), &expressions, surface_only, OutputType::Vector).is_ok());
    let clamped = expressions.insert(ComplexExpression::Clamp {
        value: complex(rgb),
        min: constant(0.0),
        max: constant(1.0),
    });
    assert_eq!(
        ProgramCompiler::new().compile(&complex(clamped), &expressions, surface_only, OutputType::Number),
        Err(CompileError::UnavailableNumberInput(NumberInput::Wavelength))
    );
}

#[test]
fn each_context_reads_its_own_inputs() {
    assert_eq!(ProgramContext::Render.inputs(), Inputs::all());
    assert_eq!(ProgramContext::Probability.inputs(), Inputs::all());
    assert_eq!(ProgramContext::NormalMapping.inputs(), inputs(false, true, true, true));
    assert_eq!(ProgramContext::SpectrumSampling.inputs(), inputs(true, false, false, false));
    let mut expressions = Expressions::new();
    let f = expressions.insert(ComplexExpression::Fresnel { ior: constant(1.5), env_ior: constant(1.0) });
    let b = expressions.insert(ComplexExpression::Blackbody { temperature: constant(5000.0) });
    let compiler = ProgramCompiler::new();
    assert_eq!(
        compiler.compile(&complex(f), &expressions, ProgramContext::SpectrumSampling.inputs(), OutputType::Number),
        Err(CompileError::UnavailableVectorInput(VectorInput::Normal))
    );
    assert!(compiler.compile(&complex(f), &expressions, ProgramContext::NormalMapping.inputs(), OutputType::Number).is_ok());
    assert_eq!(
        compiler.compile(&complex(b), &expressions, ProgramContext::NormalMapping.inputs(), OutputType::Number),
        Err(CompileError::UnavailableNumberInput(NumberInput::Wavelength))
    );
    assert!(compiler.compile(&complex(b), &expressions, ProgramContext::SpectrumSampling.inputs(), OutputType::Number).is_ok());
}

#[test]
fn a_vector_as_a_number_is_reported_as_such_where_no_input_is_missing() {
    let mut expressions = Expressions::new();
    let v = expressions.insert(ComplexExpression::Vector {
        x: constant(1.0),
        y: constant(1.0),
        z: constant(1.0),
        w: constant(1.0),
    });
    let clamped = expressions.insert(ComplexExpression::Clamp {
        value: complex(v),
        min: constant(0.0),
        max: constant(1.0),
    });
    let nothing = inputs(false, false, false, false);
    assert_eq!(
        ProgramCompiler::new().compile(&complex(clamped), &expressions, nothing, OutputType::Number),
        Err(CompileError::VectorAsNumber)
    );
    assert_eq!(
        ProgramCompiler::new().compile(&complex(v), &expressions, nothing, OutputType::Number),
        Err(CompileError::VectorAsNumber)
    );
}

#[test]
fn a_constant_compiles_whatever_the_table_holds() {
    let mut expressions = Expressions::new();
    expressions.insert(ComplexExpression::Clamp { value: complex(ExpressionId(7)), min: constant(0.0), max: constant(1.0) });
    let program = ProgramCompiler::new().compile(&constant(0.5), &expressions, Inputs::all(), OutputType::Number).unwrap();
    assert_eq!(program.program_type, ProgramType::Constant { value: Constant(0.5f32.to_bits()) });
}
