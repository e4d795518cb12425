use rust_shader_viewer::error::{CompileFailure, RendererError};
use rust_shader_viewer::ir::{
    EntryPoint, ImageClass, ImageDimension, ModuleInfo, ParseDiagnostic, ShaderStage,
    SourceLocation, TypeShape,
};
use rust_shader_viewer::layout::{BindingEntry, BindingType, LayoutMismatch, ShaderStages};
use rust_shader_viewer::shader::{has_ignored_entry_points, Shader};
use rust_shader_viewer::text::decimal_text;

fn parse_wgsl(source: &str) -> Result<wgpu::naga::Module, ParseDiagnostic> {
    wgpu::naga::front::wgsl::parse_str(source).map_err(|e| ParseDiagnostic {
        message: e.message().to_string(),
        location: e.location(source).map(|l| {
            SourceLocation::new(l.line_number, l.line_position, l.offset, l.length)
        }),
    })
}

fn compile(name: &str, source: &str) -> Result<Shader, RendererError> {
    Shader::new_wgsl(name, parse_wgsl(source))
}

fn entry(binding: u32) -> BindingEntry {
    BindingEntry {
        binding,
        visibility: ShaderStages::fragment_only(),
        ty: BindingType::UniformBuffer,
        count: None,
    }
}

fn diagnostic(message: &str) -> ParseDiagnostic {
    ParseDiagnostic { message: message.to_string(), location: None }
}

#[test]
fn numbers_are_written_in_decimal() {
    assert_eq!(decimal_text(0), "0");
    assert_eq!(decimal_text(7), "7");
    assert_eq!(decimal_text(10), "10");
    assert_eq!(decimal_text(1234567890), "1234567890");
    assert_eq!(decimal_text(u64::MAX), "18446744073709551615");
    for n in [9u64, 99, 100, 101, 4096, 65535, 1 << 40] {
        assert_eq!(decimal_text(n), n.to_string());
    }
}

#[test]
fn compile_failures_say_what_is_missing() {
    assert_eq!(CompileFailure::NoEntryPoints.message(), "Shader has no entry points!");
    assert_eq!(CompileFailure::NoVertexEntryPoint.message(), "Shader has no vertex entry point!");
    assert_eq!(
        CompileFailure::NoFragmentEntryPoint.message(),
        "Shader has no fragment entry point!"
    );
    assert_eq!(
        CompileFailure::UnsupportedBinding {
            group: 3,
            binding: 12,
            ty: TypeShape::Image { dim: ImageDimension::D2, class: ImageClass::Storage },
        }
        .message(),
        "Shader binds a variable of an unsupported type at group 3, binding 12"
    );
}

#[test]
fn layout_mismatches_name_groups_and_bindings() {
    assert_eq!(
        LayoutMismatch::GroupCount { inferred: 3, expected: 4 }.message(),
        "Shader uses 3 bind groups where 4 are expected"
    );
    assert_eq!(
        LayoutMismatch::EntryCount { group: 2, inferred: 10, expected: 0 }.message(),
        "Bind group 2 has 10 bindings where 0 are expected"
    );
    assert_eq!(
        LayoutMismatch::Entry { group: 1, inferred: entry(5), expected: entry(6) }.message(),
        "Bind group 1: binding 5 does not fit the expected binding 6"
    );
}

#[test]
fn renderer_errors_carry_the_front_end_message_as_it_is() {
    assert_eq!(
        RendererError::WgslShaderParse(diagnostic("expected ';', found '}'")).message(),
        "Error parsing WGSL source: expected ';', found '}'"
    );
    assert_eq!(
        RendererError::GlslShaderParse(vec![diagnostic("one"), diagnostic("two"), diagnostic("3")])
            .message(),
        "Error parsing GLSL source: one; two; 3"
    );
    assert_eq!(
        RendererError::GlslShaderParse(vec![diagnostic("only")]).message(),
        "Error parsing GLSL source: only"
    );
    assert_eq!(RendererError::GlslShaderParse(vec![]).message(), "Error parsing GLSL source: ");
    assert_eq!(
        RendererError::ShaderCompile(CompileFailure::NoEntryPoints).message(),
        "Error compiling shader: Shader has no entry points!"
    );
    assert_eq!(
        RendererError::LayoutMismatch(vec![
            LayoutMismatch::EntryCount { group: 0, inferred: 1, expected: 2 },
            LayoutMismatch::Entry { group: 1, inferred: entry(0), expected: entry(0) },
        ])
        .message(),
        "Bind group 0 has 1 bindings where 2 are expected\nBind group 1: binding 0 does not fit the expected binding 0\n"
    );
    assert_eq!(RendererError::LayoutMismatch(vec![]).message(), "");
}

#[test]
fn message_of_a_real_parse_error() {
    let error = compile("broken", "fn f() { return 1 }").err().unwrap();
    assert_eq!(error.message(), "Error parsing WGSL source: expected ';', found '}'");
}

#[test]
fn further_entry_points_of_a_stage_are_noticed() {
    let point = |stage, name: &str| EntryPoint { stage, name: name.to_string() };
    let one = ModuleInfo {
        entry_points: vec![point(ShaderStage::Vertex, "a"), point(ShaderStage::Fragment, "f")],
        globals: Vec::new(),
    };
    let other = ModuleInfo {
        entry_points: vec![point(ShaderStage::Vertex, "b"), point(ShaderStage::Compute, "c")],
        globals: Vec::new(),
    };
    assert!(!has_ignored_entry_points(&[&one], ShaderStage::Vertex));
    assert!(!has_ignored_entry_points(&[&one], ShaderStage::Fragment));
    assert!(!has_ignored_entry_points(&[&one], ShaderStage::Compute));
    assert!(has_ignored_entry_points(&[&one, &other], ShaderStage::Vertex));
    assert!(!has_ignored_entry_points(&[&one, &other], ShaderStage::Fragment));
    assert!(has_ignored_entry_points(&[&other, &one, &other], ShaderStage::Compute));
    assert!(!has_ignored_entry_points(&[], ShaderStage::Vertex));
}

#[test]
fn shader_tells_that_it_ignores_entry_points() {
    let source = "
@vertex fn a() -> @builtin(position) vec4<f32> { return vec4<f32>(0.0); }
@vertex fn b() -> @builtin(position) vec4<f32> { return vec4<f32>(1.0); }
@fragment fn f() -> @location(0) vec4<f32> { return vec4<f32>(0.0); }
";
    let shader = compile("two", source).unwrap();
    assert!(shader.ignores_vertex_entry_points());
    assert!(!shader.ignores_fragment_entry_points());
    let single = "
@vertex fn a() -> @builtin(position) vec4<f32> { return vec4<f32>(0.0); }
@fragment fn f() -> @location(0) vec4<f32> { return vec4<f32>(0.0); }
";
    let shader = compile("one", single).unwrap();
    assert!(!shader.ignores_vertex_entry_points());
    assert!(!shader.ignores_fragment_entry_points());
}
