use rust_shader_viewer::error::{CompileFailure, RendererError};
use rust_shader_viewer::layout::{
    BindingEntry, BindingGroupLayout, BindingType, LayoutMismatch, SamplerBindingType,
    ShaderStages, TextureSampleType, TextureViewDimension,
};
use rust_shader_viewer::pipeline::RenderPipeline;
use rust_shader_viewer::ir::{ParseDiagnostic, SourceLocation};
use rust_shader_viewer::shader::Shader;

fn parse_wgsl(source: &str) -> Result<wgpu::naga::Module, ParseDiagnostic> {
    wgpu::naga::front::wgsl::parse_str(source).map_err(|e| ParseDiagnostic {
        message: e.message().to_string(),
        location: e.location(source).map(|l| {
            SourceLocation::new(l.line_number, l.line_position, l.offset, l.length)
        }),
    })
}

fn compile(name: &str, source: &str) -> Result<Shader, RendererError> {
    Shader::new_wgsl(name, parse_wgsl(source))
}

const SOURCE: &str = "
@group(0) @binding(0) var t_diffuse: texture_2d<f32>;
@group(0) @binding(1) var s_diffuse: sampler;
@vertex fn vs() -> @builtin(position) vec4<f32> { return vec4<f32>(0.0); }
@fragment fn fs() -> @location(0) vec4<f32> {
    return textureSample(t_diffuse, s_diffuse, vec2<f32>(0.0, 0.0));
}
";

fn entry(binding: u32, ty: BindingType) -> BindingEntry {
    BindingEntry { binding, visibility: ShaderStages::vertex_fragment(), ty, count: None }
}

fn contract() -> Vec<BindingGroupLayout> {
    vec![BindingGroupLayout {
        label: Some("material".to_string()),
        entries: vec![
            entry(
                0,
                BindingType::Texture {
                    sample_type: TextureSampleType::Float { filterable: true },
                    view_dimension: TextureViewDimension::D2,
                    multisampled: false,
                },
            ),
            entry(1, BindingType::Sampler(SamplerBindingType::Filtering)),
        ],
    }]
}

fn pipeline() -> RenderPipeline<&'static str, String> {
    RenderPipeline::new(contract(), "layout", "first".to_string())
}

fn build(shader: Shader, layout: &&'static str) -> String {
    format!("{} on {} with {}", shader.name(), layout, shader.get_vertex_entry_point())
}

fn assert_contract_kept(p: &RenderPipeline<&'static str, String>) {
    assert_eq!(*p.pipeline_layout(), "layout");
    let kept = p.fixed_layout();
    let expected = contract();
    assert_eq!(kept.len(), expected.len());
    assert_eq!(kept[0].label, expected[0].label);
    assert_eq!(kept[0].entries, expected[0].entries);
}

#[test]
fn new_pipeline_holds_what_it_was_given() {
    let p = pipeline();
    assert_eq!(p.pipeline(), "first");
    assert_contract_kept(&p);
}

#[test]
fn recreate_replaces_the_pipeline_object_only() {
    let mut p = pipeline();
    p.recreate("second".to_string());
    assert_eq!(p.pipeline(), "second");
    assert_contract_kept(&p);
}

#[test]
fn accepted_shader_replaces_the_pipeline_object() {
    let mut p = pipeline();
    let shader = compile("textured", SOURCE).unwrap();
    assert!(p.accepts(&shader));
    assert!(p.recreate_checked(shader, build).is_ok());
    assert_eq!(p.pipeline(), "textured on layout with vs");
    assert_contract_kept(&p);
}

#[test]
fn rejected_shader_leaves_the_pipeline_object() {
    let mut p = pipeline();
    let source = "
@group(0) @binding(0) var<uniform> tint: vec4<f32>;
@vertex fn vs() -> @builtin(position) vec4<f32> { return tint; }
@fragment fn fs() -> @location(0) vec4<f32> { return tint; }
";
    let shader = compile("tinted", source).unwrap();
    assert!(!p.accepts(&shader));
    match p.recreate_checked(shader, |_, _| panic!("a rejected shader was built")) {
        Err(RendererError::LayoutMismatch(found)) => assert_eq!(
            found,
            vec![LayoutMismatch::EntryCount { group: 0, inferred: 1, expected: 2 }]
        ),
        other => panic!("{:?}", other),
    }
    assert_eq!(p.pipeline(), "first");
    assert_contract_kept(&p);
}

#[test]
fn compile_shader_swaps_on_success() {
    let mut p = pipeline();
    assert!(p.compile_shader("edited", parse_wgsl(SOURCE), build).is_ok());
    assert_eq!(p.pipeline(), "edited on layout with vs");
    assert_contract_kept(&p);
}

#[test]
fn compile_shader_keeps_the_pipeline_on_a_parse_error() {
    let mut p = pipeline();
    let r = p.compile_shader("edited", parse_wgsl("fn broken("), |_, _| panic!("built"));
    assert!(matches!(r, Err(RendererError::WgslShaderParse(_))));
    assert_eq!(p.pipeline(), "first");
    assert_contract_kept(&p);
}

#[test]
fn compile_shader_keeps_the_pipeline_on_a_missing_entry_point() {
    let mut p = pipeline();
    let source = "@vertex fn vs() -> @builtin(position) vec4<f32> { return vec4<f32>(0.0); }";
    let r = p.compile_shader("edited", parse_wgsl(source), |_, _| panic!("built"));
    assert!(matches!(
        r,
        Err(RendererError::ShaderCompile(CompileFailure::NoFragmentEntryPoint))
    ));
    assert_eq!(p.pipeline(), "first");
}

#[test]
fn compile_shader_keeps_the_pipeline_on_a_layout_mismatch() {
    let mut p = pipeline();
    let source = "
@group(0) @binding(0) var t_diffuse: texture_2d<f32>;
@group(0) @binding(1) var s_diffuse: sampler_comparison;
@vertex fn vs() -> @builtin(position) vec4<f32> { return vec4<f32>(0.0); }
@fragment fn fs() -> @location(0) vec4<f32> { return vec4<f32>(0.0); }
";
    match p.compile_shader("edited", parse_wgsl(source), |_, _| panic!("built")) {
        Err(RendererError::LayoutMismatch(found)) => assert_eq!(
            found,
            vec![LayoutMismatch::Entry {
                group: 0,
                inferred: entry(1, BindingType::Sampler(SamplerBindingType::Comparison)),
                expected: entry(1, BindingType::Sampler(SamplerBindingType::Filtering)),
            }]
        ),
        other => panic!("{:?}", other),
    }
    assert_eq!(p.pipeline(), "first");
    assert_contract_kept(&p);
}
