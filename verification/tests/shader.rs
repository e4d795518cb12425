use rust_shader_viewer::error::{CompileFailure, RendererError};
use rust_shader_viewer::frontend::{read_entry_points, read_globals, read_module};
use rust_shader_viewer::ir::{
    EntryPoint, GlobalVariable, ImageClass, ImageDimension, ModuleInfo, ResourceBinding,
    ScalarKind, ShaderStage, SourceLocation, TypeShape,
};
use rust_shader_viewer::layout::{
    BindingEntry, BindingGroupLayout, BindingType, SamplerBindingType, ShaderStages,
    TextureSampleType, TextureViewDimension,
};
use rust_shader_viewer::ir::ParseDiagnostic;
use rust_shader_viewer::shader::{
    get_binding_layout, get_entry_points, has_binding_type, naga_type_to_binding_group_type,
    Shader, ShaderModule,
};

fn parse_wgsl(source: &str) -> Result<wgpu::naga::Module, ParseDiagnostic> {
    wgpu::naga::front::wgsl::parse_str(source).map_err(|e| ParseDiagnostic {
        message: e.message().to_string(),
        location: e.location(source).map(|l| {
            SourceLocation::new(l.line_number, l.line_position, l.offset, l.length)
        }),
    })
}

fn compile(name: &str, source: &str) -> Result<Shader, RendererError> {
    Shader::new_wgsl(name, parse_wgsl(source))
}

fn parse_glsl(
    stage: wgpu::naga::ShaderStage,
    source: &str,
) -> Result<wgpu::naga::Module, Vec<ParseDiagnostic>> {
    let options = wgpu::naga::front::glsl::Options::from(stage);
    wgpu::naga::front::glsl::Frontend::default()
        .parse(&options, source)
        .map_err(|errors| {
            errors
                .iter()
                .map(|e| {
                    let l = e.meta.location(source);
                    ParseDiagnostic {
                        message: e.kind.to_string(),
                        location: Some(SourceLocation::new(
                            l.line_number,
                            l.line_position,
                            l.offset,
                            l.length,
                        )),
                    }
                })
                .collect()
        })
}

fn compile_glsl(name: &str, vertex: &str, fragment: &str) -> Result<Shader, RendererError> {
    Shader::new_glsl(
        name,
        parse_glsl(wgpu::naga::ShaderStage::Vertex, vertex),
        parse_glsl(wgpu::naga::ShaderStage::Fragment, fragment),
    )
}

const SOURCE: &str = "
struct Camera { view_proj: mat4x4<f32> }
@group(1) @binding(0) var<uniform> camera: Camera;
@group(0) @binding(0) var t_diffuse: texture_2d<f32>;
@group(0) @binding(1) var s_diffuse: sampler;
@group(3) @binding(0) var env: texture_cube<f32>;
@group(3) @binding(1) var shadow: texture_depth_2d;
@group(3) @binding(2) var shadow_sampler: sampler_comparison;
@group(3) @binding(3) var ids: texture_2d<u32>;
@group(3) @binding(4) var ms: texture_multisampled_2d<f32>;
@group(3) @binding(5) var vol: texture_3d<i32>;
@group(3) @binding(6) var line: texture_1d<f32>;
var<private> counter: u32;

@vertex
fn vs_main(@location(0) position: vec3<f32>) -> @builtin(position) vec4<f32> {
    return camera.view_proj * vec4<f32>(position, 1.0);
}

@fragment
fn fs_main() -> @location(0) vec4<f32> {
    return textureSample(t_diffuse, s_diffuse, vec2<f32>(0.0, 0.0));
}
";

fn entry_point(stage: ShaderStage, name: &str) -> EntryPoint {
    EntryPoint { stage, name: name.to_string() }
}

fn module(entry_points: Vec<EntryPoint>, globals: Vec<GlobalVariable>) -> ModuleInfo {
    ModuleInfo { entry_points, globals }
}

fn global(name: Option<&str>, binding: Option<(u32, u32)>, ty: TypeShape) -> GlobalVariable {
    GlobalVariable {
        name: name.map(|n| n.to_string()),
        binding: binding.map(|(group, binding)| ResourceBinding { group, binding }),
        ty,
    }
}

fn both(binding: u32, ty: BindingType) -> BindingEntry {
    BindingEntry { binding, visibility: ShaderStages::vertex_fragment(), ty, count: None }
}

fn float_texture(view_dimension: TextureViewDimension, multisampled: bool) -> BindingType {
    BindingType::Texture {
        sample_type: TextureSampleType::Float { filterable: true },
        view_dimension,
        multisampled,
    }
}

fn compile_failure(r: Result<Shader, RendererError>) -> CompileFailure {
    match r {
        Err(RendererError::ShaderCompile(f)) => f,
        Err(e) => panic!("another error: {:?}", e),
        Ok(_) => panic!("the shader compiled"),
    }
}

fn assert_layout_eq(found: &[BindingGroupLayout], expected: &[(Option<&str>, Vec<BindingEntry>)]) {
    assert_eq!(found.len(), expected.len());
    for (f, (label, entries)) in found.iter().zip(expected.iter()) {
        assert_eq!(f.label.as_deref(), *label);
        assert_eq!(&f.entries, entries);
    }
}

#[test]
fn entry_points_are_found_by_stage() {
    let m = module(
        vec![
            entry_point(ShaderStage::Compute, "cs_main"),
            entry_point(ShaderStage::Fragment, "fs_main"),
            entry_point(ShaderStage::Vertex, "vs_main"),
        ],
        Vec::new(),
    );
    let (vertex, fragment) = get_entry_points(&[&m]).unwrap();
    assert_eq!(vertex, "vs_main");
    assert_eq!(fragment, "fs_main");
}

#[test]
fn first_declared_entry_point_wins() {
    let m = module(
        vec![
            entry_point(ShaderStage::Vertex, "a"),
            entry_point(ShaderStage::Fragment, "x"),
            entry_point(ShaderStage::Vertex, "b"),
            entry_point(ShaderStage::Fragment, "y"),
        ],
        Vec::new(),
    );
    let (vertex, fragment) = get_entry_points(&[&m]).unwrap();
    assert_eq!(vertex, "a");
    assert_eq!(fragment, "x");
}

#[test]
fn entry_points_are_looked_for_module_after_module() {
    let first = module(vec![entry_point(ShaderStage::Compute, "cs")], Vec::new());
    let second = module(
        vec![entry_point(ShaderStage::Fragment, "early"), entry_point(ShaderStage::Vertex, "v")],
        Vec::new(),
    );
    let third = module(
        vec![entry_point(ShaderStage::Vertex, "late"), entry_point(ShaderStage::Fragment, "f")],
        Vec::new(),
    );
    let (vertex, fragment) = get_entry_points(&[&first, &second, &third]).unwrap();
    assert_eq!(vertex, "v");
    assert_eq!(fragment, "early");
}

#[test]
fn missing_entry_points_are_told_apart() {
    let none = module(vec![entry_point(ShaderStage::Compute, "cs")], Vec::new());
    let vertex_only = module(vec![entry_point(ShaderStage::Vertex, "v")], Vec::new());
    let fragment_only = module(vec![entry_point(ShaderStage::Fragment, "f")], Vec::new());
    assert!(matches!(
        get_entry_points(&[&none]),
        Err(RendererError::ShaderCompile(CompileFailure::NoEntryPoints))
    ));
    assert!(matches!(
        get_entry_points(&[]),
        Err(RendererError::ShaderCompile(CompileFailure::NoEntryPoints))
    ));
    assert!(matches!(
        get_entry_points(&[&vertex_only]),
        Err(RendererError::ShaderCompile(CompileFailure::NoFragmentEntryPoint))
    ));
    assert!(matches!(
        get_entry_points(&[&fragment_only]),
        Err(RendererError::ShaderCompile(CompileFailure::NoVertexEntryPoint))
    ));
    assert!(get_entry_points(&[&vertex_only, &fragment_only]).is_ok());
}

#[test]
fn data_types_are_uniform_buffers() {
    for ty in [
        TypeShape::Scalar,
        TypeShape::Vector,
        TypeShape::Matrix,
        TypeShape::Atomic,
        TypeShape::Array,
        TypeShape::Struct,
    ] {
        assert!(has_binding_type(&ty));
        assert_eq!(naga_type_to_binding_group_type(&ty), BindingType::UniformBuffer);
    }
}

#[test]
fn images_are_textures_of_their_kind_and_dimension() {
    let sampled = |kind, multi, dim| TypeShape::Image {
        dim,
        class: ImageClass::Sampled { kind, multi },
    };
    assert_eq!(
        naga_type_to_binding_group_type(&sampled(ScalarKind::Float, false, ImageDimension::D2)),
        float_texture(TextureViewDimension::D2, false)
    );
    assert_eq!(
        naga_type_to_binding_group_type(&sampled(ScalarKind::Float, true, ImageDimension::Cube)),
        float_texture(TextureViewDimension::Cube, true)
    );
    assert_eq!(
        naga_type_to_binding_group_type(&sampled(ScalarKind::Sint, false, ImageDimension::D1)),
        BindingType::Texture {
            sample_type: TextureSampleType::Sint,
            view_dimension: TextureViewDimension::D1,
            multisampled: false,
        }
    );
    assert_eq!(
        naga_type_to_binding_group_type(&sampled(ScalarKind::Uint, true, ImageDimension::D3)),
        BindingType::Texture {
            sample_type: TextureSampleType::Uint,
            view_dimension: TextureViewDimension::D3,
            multisampled: true,
        }
    );
    assert_eq!(
        naga_type_to_binding_group_type(&TypeShape::Image {
            dim: ImageDimension::D2,
            class: ImageClass::Depth { multi: true },
        }),
        BindingType::Texture {
            sample_type: TextureSampleType::Depth,
            view_dimension: TextureViewDimension::D2,
            multisampled: true,
        }
    );
}

#[test]
fn samplers_compare_or_filter() {
    assert_eq!(
        naga_type_to_binding_group_type(&TypeShape::Sampler { comparison: true }),
        BindingType::Sampler(SamplerBindingType::Comparison)
    );
    assert_eq!(
        naga_type_to_binding_group_type(&TypeShape::Sampler { comparison: false }),
        BindingType::Sampler(SamplerBindingType::Filtering)
    );
}

#[test]
fn other_types_have_no_binding_kind() {
    for ty in [
        TypeShape::Pointer,
        TypeShape::ValuePointer,
        TypeShape::AccelerationStructure,
        TypeShape::RayQuery,
        TypeShape::BindingArray,
        TypeShape::Missing,
        TypeShape::Image { dim: ImageDimension::D2, class: ImageClass::Storage },
        TypeShape::Image {
            dim: ImageDimension::D2,
            class: ImageClass::Sampled { kind: ScalarKind::Bool, multi: false },
        },
        TypeShape::Image {
            dim: ImageDimension::D2,
            class: ImageClass::Sampled { kind: ScalarKind::AbstractInt, multi: false },
        },
        TypeShape::Image {
            dim: ImageDimension::D2,
            class: ImageClass::Sampled { kind: ScalarKind::AbstractFloat, multi: false },
        },
    ] {
        assert!(!has_binding_type(&ty));
    }
}

#[test]
fn layouts_grow_to_the_largest_group_and_keep_gaps_empty() {
    let m = module(
        Vec::new(),
        vec![
            global(Some("a"), Some((2, 5)), TypeShape::Struct),
            global(Some("skipped"), None, TypeShape::Scalar),
            global(Some("b"), Some((0, 1)), TypeShape::Sampler { comparison: false }),
            global(None, Some((2, 0)), TypeShape::Vector),
            global(Some("c"), Some((2, 7)), TypeShape::Matrix),
        ],
    );
    let layouts = get_binding_layout(&[(ShaderStages::vertex_fragment(), &m)]).unwrap();
    assert_layout_eq(
        &layouts,
        &[
            (
                Some("b"),
                vec![both(1, BindingType::Sampler(SamplerBindingType::Filtering))],
            ),
            (None, vec![]),
            (
                Some("a,c"),
                vec![
                    both(5, BindingType::UniformBuffer),
                    both(0, BindingType::UniformBuffer),
                    both(7, BindingType::UniformBuffer),
                ],
            ),
        ],
    );
}

#[test]
fn module_without_bound_variables_gives_no_groups() {
    let m = module(Vec::new(), vec![global(Some("x"), None, TypeShape::Pointer)]);
    let layouts = get_binding_layout(&[(ShaderStages::vertex_fragment(), &m)]).unwrap();
    assert!(layouts.is_empty());
    assert!(get_binding_layout(&[]).unwrap().is_empty());
}

#[test]
fn an_empty_name_leaves_the_label_empty() {
    let m = module(
        Vec::new(),
        vec![
            global(Some(""), Some((0, 0)), TypeShape::Scalar),
            global(Some("x"), Some((0, 1)), TypeShape::Scalar),
            global(Some(""), Some((0, 2)), TypeShape::Scalar),
            global(Some("y"), Some((0, 3)), TypeShape::Scalar),
        ],
    );
    let layouts = get_binding_layout(&[(ShaderStages::vertex_only(), &m)]).unwrap();
    assert_eq!(layouts.len(), 1);
    assert_eq!(layouts[0].label.as_deref(), Some("x,,y"));
}

#[test]
fn each_module_gives_entries_with_its_own_visibility() {
    let vertex = module(Vec::new(), vec![global(Some("camera"), Some((0, 0)), TypeShape::Struct)]);
    let fragment = module(
        Vec::new(),
        vec![global(
            Some("tex"),
            Some((0, 1)),
            TypeShape::Image {
                dim: ImageDimension::D2,
                class: ImageClass::Sampled { kind: ScalarKind::Float, multi: false },
            },
        )],
    );
    let layouts = get_binding_layout(&[
        (ShaderStages::vertex_only(), &vertex),
        (ShaderStages::fragment_only(), &fragment),
    ])
    .unwrap();
    assert_layout_eq(
        &layouts,
        &[(
            Some("camera,tex"),
            vec![
                BindingEntry {
                    binding: 0,
                    visibility: ShaderStages::vertex_only(),
                    ty: BindingType::UniformBuffer,
                    count: None,
                },
                BindingEntry {
                    binding: 1,
                    visibility: ShaderStages::fragment_only(),
                    ty: float_texture(TextureViewDimension::D2, false),
                    count: None,
                },
            ],
        )],
    );
}

#[test]
fn first_unsupported_binding_is_reported() {
    let m = module(
        Vec::new(),
        vec![
            global(Some("fine"), Some((0, 0)), TypeShape::Struct),
            global(Some("unbound"), None, TypeShape::RayQuery),
            global(
                Some("storage"),
                Some((1, 4)),
                TypeShape::Image { dim: ImageDimension::D2, class: ImageClass::Storage },
            ),
            global(Some("also"), Some((2, 0)), TypeShape::BindingArray),
        ],
    );
    match get_binding_layout(&[(ShaderStages::vertex_fragment(), &m)]) {
        Err(RendererError::ShaderCompile(f)) => assert_eq!(
            f,
            CompileFailure::UnsupportedBinding {
                group: 1,
                binding: 4,
                ty: TypeShape::Image { dim: ImageDimension::D2, class: ImageClass::Storage },
            }
        ),
        other => panic!("{:?}", other),
    }
}

#[test]
fn wgsl_shader_compiles_with_its_entry_points_and_layouts() {
    let shader = compile("material", SOURCE).unwrap();
    assert_eq!(shader.name(), "material");
    assert_eq!(shader.get_vertex_entry_point(), "vs_main");
    assert_eq!(shader.get_fragment_entry_point(), "fs_main");
    assert_layout_eq(
        shader.get_layout(),
        &[
            (
                Some("t_diffuse,s_diffuse"),
                vec![
                    both(0, float_texture(TextureViewDimension::D2, false)),
                    both(1, BindingType::Sampler(SamplerBindingType::Filtering)),
                ],
            ),
            (Some("camera"), vec![both(0, BindingType::UniformBuffer)]),
            (None, vec![]),
            (
                Some("env,shadow,shadow_sampler,ids,ms,vol,line"),
                vec![
                    both(0, float_texture(TextureViewDimension::Cube, false)),
                    both(
                        1,
                        BindingType::Texture {
                            sample_type: TextureSampleType::Depth,
                            view_dimension: TextureViewDimension::D2,
                            multisampled: false,
                        },
                    ),
                    both(2, BindingType::Sampler(SamplerBindingType::Comparison)),
                    both(
                        3,
                        BindingType::Texture {
                            sample_type: TextureSampleType::Uint,
                            view_dimension: TextureViewDimension::D2,
                            multisampled: false,
                        },
                    ),
                    both(4, float_texture(TextureViewDimension::D2, true)),
                    both(
                        5,
                        BindingType::Texture {
                            sample_type: TextureSampleType::Sint,
                            view_dimension: TextureViewDimension::D3,
                            multisampled: false,
                        },
                    ),
                    both(6, float_texture(TextureViewDimension::D1, false)),
                ],
            ),
        ],
    );
}

#[test]
fn parsed_module_is_read_in_declaration_order() {
    let shader = compile("material", SOURCE).unwrap();
    let info = read_module(shader.get_vertex_module());
    let stages: Vec<(ShaderStage, &str)> =
        info.entry_points.iter().map(|e| (e.stage, e.name.as_str())).collect();
    assert_eq!(stages, vec![(ShaderStage::Vertex, "vs_main"), (ShaderStage::Fragment, "fs_main")]);
    let names: Vec<Option<&str>> = info.globals.iter().map(|g| g.name.as_deref()).collect();
    assert_eq!(
        names,
        vec![
            Some("camera"),
            Some("t_diffuse"),
            Some("s_diffuse"),
            Some("env"),
            Some("shadow"),
            Some("shadow_sampler"),
            Some("ids"),
            Some("ms"),
            Some("vol"),
            Some("line"),
            Some("counter"),
        ]
    );
    assert_eq!(info.globals[0].binding, Some(ResourceBinding { group: 1, binding: 0 }));
    assert_eq!(info.globals[0].ty, TypeShape::Struct);
    assert_eq!(
        info.globals[1].ty,
        TypeShape::Image {
            dim: ImageDimension::D2,
            class: ImageClass::Sampled { kind: ScalarKind::Float, multi: false },
        }
    );
    assert_eq!(info.globals[2].ty, TypeShape::Sampler { comparison: false });
    assert_eq!(
        info.globals[4].ty,
        TypeShape::Image { dim: ImageDimension::D2, class: ImageClass::Depth { multi: false } }
    );
    assert_eq!(info.globals[5].ty, TypeShape::Sampler { comparison: true });
    assert_eq!(
        info.globals[7].ty,
        TypeShape::Image {
            dim: ImageDimension::D2,
            class: ImageClass::Sampled { kind: ScalarKind::Float, multi: true },
        }
    );
    assert_eq!(info.globals[10].binding, None);
    assert_eq!(info.globals[10].ty, TypeShape::Scalar);
    assert_eq!(read_entry_points(shader.get_fragment_module()).len(), 2);
    assert_eq!(read_globals(shader.get_fragment_module()).len(), 11);
}

#[test]
fn storage_texture_is_an_unsupported_binding() {
    let source = "
@group(0) @binding(3) var output_image: texture_storage_2d<rgba8unorm, write>;
@vertex fn vs() -> @builtin(position) vec4<f32> { return vec4<f32>(0.0); }
@fragment fn fs() -> @location(0) vec4<f32> { return vec4<f32>(0.0); }
";
    assert_eq!(
        compile_failure(compile("storage", source)),
        CompileFailure::UnsupportedBinding {
            group: 0,
            binding: 3,
            ty: TypeShape::Image { dim: ImageDimension::D2, class: ImageClass::Storage },
        }
    );
}

#[test]
fn shader_without_vertex_entry_point_is_rejected() {
    let source = "@fragment fn fs() -> @location(0) vec4<f32> { return vec4<f32>(0.0); }";
    assert_eq!(
        compile_failure(compile("fragment", source)),
        CompileFailure::NoVertexEntryPoint
    );
}

#[test]
fn shader_without_fragment_entry_point_is_rejected() {
    let source = "@vertex fn vs() -> @builtin(position) vec4<f32> { return vec4<f32>(0.0); }";
    assert_eq!(
        compile_failure(compile("vertex", source)),
        CompileFailure::NoFragmentEntryPoint
    );
}

#[test]
fn shader_without_entry_points_is_rejected() {
    assert_eq!(compile_failure(compile("empty", "")), CompileFailure::NoEntryPoints);
    let compute = "@compute @workgroup_size(1) fn cs() {}";
    assert_eq!(compile_failure(compile("compute", compute)), CompileFailure::NoEntryPoints);
}

#[test]
fn missing_entry_point_is_reported_before_an_unsupported_binding() {
    let source = "
@group(0) @binding(0) var output_image: texture_storage_2d<rgba8unorm, write>;
@fragment fn fs() -> @location(0) vec4<f32> { return vec4<f32>(0.0); }
";
    assert_eq!(
        compile_failure(compile("both", source)),
        CompileFailure::NoVertexEntryPoint
    );
}

#[test]
fn of_two_vertex_entry_points_the_first_is_used() {
    let source = "
@vertex fn a() -> @builtin(position) vec4<f32> { return vec4<f32>(0.0); }
@vertex fn b() -> @builtin(position) vec4<f32> { return vec4<f32>(1.0); }
@fragment fn f() -> @location(0) vec4<f32> { return vec4<f32>(0.0); }
";
    let shader = compile("two", source).unwrap();
    assert_eq!(shader.get_vertex_entry_point(), "a");
    assert_eq!(shader.get_fragment_entry_point(), "f");
}

#[test]
fn wgsl_parse_error_comes_with_message_and_location() {
    let source = "@vertex\nfn vs_main() -> @builtin(position) vec4<f32> {\n    return vec4<f32>(0.0)\n}\n";
    match compile("broken", source) {
        Err(RendererError::WgslShaderParse(d)) => {
            assert_eq!(d.message, "expected ';', found '}'");
            assert_eq!(
                d.location,
                Some(SourceLocation { line_number: 4, line_position: 1, offset: 81, length: 1 })
            );
        }
        Err(e) => panic!("another error: {:?}", e),
        Ok(_) => panic!("the shader compiled"),
    }
}

#[test]
fn glsl_shader_compiles_from_two_sources() {
    let vertex = "#version 450\nlayout(set = 0, binding = 0) uniform Camera { mat4 view_proj; };\nlayout(location = 0) in vec3 position;\nvoid main() { gl_Position = view_proj * vec4(position, 1.0); }\n";
    let fragment = "#version 450\nlayout(set = 1, binding = 0) uniform texture2D t_diffuse;\nlayout(set = 1, binding = 1) uniform sampler s_diffuse;\nlayout(location = 0) out vec4 color;\nvoid main() { color = texture(sampler2D(t_diffuse, s_diffuse), vec2(0.0, 0.0)); }\n";
    let shader = compile_glsl("split", vertex, fragment).unwrap();
    assert_eq!(shader.name(), "split");
    assert_eq!(shader.get_vertex_entry_point(), "main");
    assert_eq!(shader.get_fragment_entry_point(), "main");
    assert_layout_eq(
        shader.get_layout(),
        &[
            (
                None,
                vec![BindingEntry {
                    binding: 0,
                    visibility: ShaderStages::vertex_only(),
                    ty: BindingType::UniformBuffer,
                    count: None,
                }],
            ),
            (
                Some("t_diffuse,s_diffuse"),
                vec![
                    BindingEntry {
                        binding: 0,
                        visibility: ShaderStages::fragment_only(),
                        ty: float_texture(TextureViewDimension::D2, false),
                        count: None,
                    },
                    BindingEntry {
                        binding: 1,
                        visibility: ShaderStages::fragment_only(),
                        ty: BindingType::Sampler(SamplerBindingType::Filtering),
                        count: None,
                    },
                ],
            ),
        ],
    );
    let vertex_stage = read_entry_points(shader.get_vertex_module());
    let fragment_stage = read_entry_points(shader.get_fragment_module());
    assert_eq!(vertex_stage[0].stage, ShaderStage::Vertex);
    assert_eq!(fragment_stage[0].stage, ShaderStage::Fragment);
    assert!(matches!(shader.into_modules(), ShaderModule::Glsl { .. }));
}

#[test]
fn glsl_parse_errors_come_with_message_and_location() {
    let broken = "#version 450\nvoid main() { gl_Position = ; }\n";
    let fine = "#version 450\nvoid main() {}\n";
    match compile_glsl("broken", broken, fine) {
        Err(RendererError::GlslShaderParse(d)) => {
            assert_eq!(d.len(), 1);
            assert_eq!(
                d[0].message,
                "Expected LeftParen, integer literal, float literal or bool literal, found Semicolon"
            );
            assert_eq!(
                d[0].location,
                Some(SourceLocation { line_number: 2, line_position: 29, offset: 41, length: 1 })
            );
        }
        Err(e) => panic!("another error: {:?}", e),
        Ok(_) => panic!("the shader compiled"),
    }
    assert!(matches!(
        compile_glsl("broken", fine, broken),
        Err(RendererError::GlslShaderParse(_))
    ));
}

#[test]
fn wgsl_shader_holds_one_module_for_both_stages() {
    let shader = compile("material", SOURCE).unwrap();
    assert!(matches!(shader.into_modules(), ShaderModule::Wgsl { .. }));
}

#[test]
fn shader_layout_is_checked_against_expected_layouts() {
    let source = "
@group(0) @binding(0) var t_diffuse: texture_2d<f32>;
@group(0) @binding(1) var s_diffuse: sampler;
@vertex fn vs() -> @builtin(position) vec4<f32> { return vec4<f32>(0.0); }
@fragment fn fs() -> @location(0) vec4<f32> {
    return textureSample(t_diffuse, s_diffuse, vec2<f32>(0.0, 0.0));
}
";
    let shader = compile("textured", source).unwrap();
    let expected = |filterable| {
        vec![BindingGroupLayout {
            label: Some("Bind Group Layout".to_string()),
            entries: vec![
                both(1, BindingType::Sampler(SamplerBindingType::Filtering)),
                both(
                    0,
                    BindingType::Texture {
                        sample_type: TextureSampleType::Float { filterable },
                        view_dimension: TextureViewDimension::D2,
                        multisampled: false,
                    },
                ),
            ],
        }]
    };
    assert!(shader.layout_matches(&expected(true)));
    assert!(shader.layout_mismatches(&expected(true)).is_empty());
    assert!(!shader.layout_matches(&expected(false)));
    assert_eq!(shader.layout_mismatches(&expected(false)).len(), 1);
    assert!(!shader.layout_matches(&[]));
}

#[test]
fn supported_types_are_told_from_the_rest() {
    assert!(has_binding_type(&TypeShape::Sampler { comparison: true }));
    assert!(has_binding_type(&TypeShape::Image {
        dim: ImageDimension::Cube,
        class: ImageClass::Depth { multi: false },
    }));
    assert!(has_binding_type(&TypeShape::Image {
        dim: ImageDimension::D1,
        class: ImageClass::Sampled { kind: ScalarKind::Uint, multi: true },
    }));
    assert!(!has_binding_type(&TypeShape::Pointer));
}

#[test]
fn variable_of_a_type_that_the_module_lacks_is_read_as_missing() {
    let mut elsewhere = wgpu::naga::UniqueArena::new();
    let foreign = elsewhere.insert(
        wgpu::naga::Type {
            name: None,
            inner: wgpu::naga::TypeInner::Scalar(wgpu::naga::Scalar {
                kind: wgpu::naga::ScalarKind::Float,
                width: 4,
            }),
        },
        wgpu::naga::Span::default(),
    );
    let mut module = wgpu::naga::Module::default();
    module.global_variables.append(
        wgpu::naga::GlobalVariable {
            name: Some("stray".to_string()),
            space: wgpu::naga::AddressSpace::Uniform,
            binding: Some(wgpu::naga::ResourceBinding { group: 2, binding: 1 }),
            ty: foreign,
            init: None,
        },
        wgpu::naga::Span::default(),
    );
    let info = read_module(&module);
    assert!(info.entry_points.is_empty());
    assert_eq!(info.globals.len(), 1);
    assert_eq!(info.globals[0].name.as_deref(), Some("stray"));
    assert_eq!(info.globals[0].binding, Some(ResourceBinding { group: 2, binding: 1 }));
    assert_eq!(info.globals[0].ty, TypeShape::Missing);
    match get_binding_layout(&[(ShaderStages::vertex_fragment(), &info)]) {
        Err(RendererError::ShaderCompile(f)) => assert_eq!(
            f,
            CompileFailure::UnsupportedBinding { group: 2, binding: 1, ty: TypeShape::Missing }
        ),
        other => panic!("{:?}", other),
    }
    assert!(matches!(
        Shader::from_wgsl_module("stray", module),
        Err(RendererError::ShaderCompile(CompileFailure::NoEntryPoints))
    ));
}

#[test]
fn rejected_vertex_source_comes_before_rejected_fragment_source() {
    let diagnostic = |message: &str| ParseDiagnostic { message: message.to_string(), location: None };
    let r = Shader::new_glsl(
        "both",
        Err(vec![diagnostic("vertex")]),
        Err(vec![diagnostic("fragment")]),
    );
    match r {
        Err(RendererError::GlslShaderParse(d)) => {
            assert_eq!(d.len(), 1);
            assert_eq!(d[0].message, "vertex");
        }
        other => panic!("{:?}", other.err()),
    }
}
