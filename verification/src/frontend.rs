//! Reading a shader module that naga parsed into a plain [`ModuleInfo`].

use crate::ir::{
    EntryPoint, GlobalVariable, ImageClass, ImageDimension, ModuleInfo, ModuleInfoView,
    ResourceBinding, ScalarKind, ShaderStage, TypeShape,
};
use vstd::prelude::*;
use wgpu::naga::{Module, TypeInner};

verus! {

/// naga's parsed shader module, carried through as an opaque value.
#[verifier::external_type_specification]
#[verifier::external_body]
pub struct ExModule(wgpu::naga::Module);

/// The entry points and module-level variables that a parsed module holds,
/// each in the order of naga's own lists. A variable that names a type which
/// the module does not hold has the shape `Missing`.
pub uninterp spec fn module_contents(m: Module) -> ModuleInfoView;

/// Reads the length of naga's `Module::entry_points`.
#[verifier::external_body]
pub(crate) fn entry_point_count(m: &Module) -> (r: usize)
    ensures
        r == module_contents(*m).entry_points.len(),
{
    m.entry_points.len()
}

/// Reads the stage and the name of one item of naga's `Module::entry_points`.
#[verifier::external_body]
pub(crate) fn entry_point_at(m: &Module, i: usize) -> (r: EntryPoint)
    requires
        i < module_contents(*m).entry_points.len(),
    ensures
        r@ == module_contents(*m).entry_points[i as int],
{
    let e = &m.entry_points[i];
    EntryPoint {
        stage: match e.stage {
            wgpu::naga::ShaderStage::Vertex => ShaderStage::Vertex,
            wgpu::naga::ShaderStage::Fragment => ShaderStage::Fragment,
            wgpu::naga::ShaderStage::Compute => ShaderStage::Compute,
        },
        name: e.name.clone(),
    }
}

/// Reads the entry points of a parsed module.
pub fn read_entry_points(m: &Module) -> (r: Vec<EntryPoint>)
    ensures
        r@.map_values(|e: EntryPoint| e@) == module_contents(*m).entry_points,
{
    let n = entry_point_count(m);
    let mut out: Vec<EntryPoint> = Vec::new();
    let mut i: usize = 0;
    while i < n
        invariant
            0 <= i <= n,
            n == module_contents(*m).entry_points.len(),
            out.len() == i,
            forall|k: int| 0 <= k < i ==> (#[trigger] out@[k])@ == module_contents(*m).entry_points[k],
        decreases n - i,
    {
        out.push(entry_point_at(m, i));
        i += 1;
    }
    assert(out@.map_values(|e: EntryPoint| e@) =~= module_contents(*m).entry_points);
    out
}

/// Reads the length of naga's `Module::global_variables`.
#[verifier::external_body]
pub(crate) fn global_count(m: &Module) -> (r: usize)
    ensures
        r == module_contents(*m).globals.len(),
{
    m.global_variables.len()
}

/// Reads the name of one item of naga's `Module::global_variables`.
#[verifier::external_body]
pub(crate) fn global_name(m: &Module, i: usize) -> (r: Option<String>)
    requires
        i < module_contents(*m).globals.len(),
    ensures
        match r {
            Some(s) => module_contents(*m).globals[i as int].name == Some(s@),
            None => module_contents(*m).globals[i as int].name.is_none(),
        },
{
    m.global_variables.iter().nth(i).unwrap().1.name.clone()
}

/// Reads the binding of one item of naga's `Module::global_variables`.
#[verifier::external_body]
pub(crate) fn global_binding(m: &Module, i: usize) -> (r: Option<ResourceBinding>)
    requires
        i < module_contents(*m).globals.len(),
    ensures
        r == module_contents(*m).globals[i as int].binding,
{
    m.global_variables.iter().nth(i).unwrap().1.binding.as_ref().map(
        |b| ResourceBinding { group: b.group, binding: b.binding },
    )
}

/// The shape of a type without what an image or a sampler holds.
#[derive(Clone, Copy, Debug, PartialEq, Eq, Structural)]
pub enum TypeTag {
    Scalar,
    Vector,
    Matrix,
    Atomic,
    Pointer,
    ValuePointer,
    Array,
    Struct,
    Image,
    Sampler,
    AccelerationStructure,
    RayQuery,
    BindingArray,
    Missing,
}

/// The class of an image without the kind of a sampled image.
#[derive(Clone, Copy, Debug, PartialEq, Eq, Structural)]
pub enum ImageClassTag {
    Sampled { multi: bool },
    Depth { multi: bool },
    Storage,
}

impl TypeShape {
    /// The variant of `self`.
    pub open spec fn tag(self) -> TypeTag {
        match self {
            TypeShape::Scalar => TypeTag::Scalar,
            TypeShape::Vector => TypeTag::Vector,
            TypeShape::Matrix => TypeTag::Matrix,
            TypeShape::Atomic => TypeTag::Atomic,
            TypeShape::Pointer => TypeTag::Pointer,
            TypeShape::ValuePointer => TypeTag::ValuePointer,
            TypeShape::Array => TypeTag::Array,
            TypeShape::Struct => TypeTag::Struct,
            TypeShape::Image { .. } => TypeTag::Image,
            TypeShape::Sampler { .. } => TypeTag::Sampler,
            TypeShape::AccelerationStructure => TypeTag::AccelerationStructure,
            TypeShape::RayQuery => TypeTag::RayQuery,
            TypeShape::BindingArray => TypeTag::BindingArray,
            TypeShape::Missing => TypeTag::Missing,
        }
    }

    /// The dimensionality of an image.
    pub open spec fn image_dimension(self) -> Option<ImageDimension> {
        match self {
            TypeShape::Image { dim, .. } => Some(dim),
            _ => None,
        }
    }

    /// The class of an image, without the kind of a sampled one.
    pub open spec fn image_class_tag(self) -> Option<ImageClassTag> {
        match self {
            TypeShape::Image { class: ImageClass::Sampled { multi, .. }, .. } => Some(
                ImageClassTag::Sampled { multi },
            ),
            TypeShape::Image { class: ImageClass::Depth { multi }, .. } => Some(
                ImageClassTag::Depth { multi },
            ),
            TypeShape::Image { class: ImageClass::Storage, .. } => Some(ImageClassTag::Storage),
            _ => None,
        }
    }

    /// The scalar kind of a sampled image.
    pub open spec fn sampled_kind(self) -> Option<ScalarKind> {
        match self {
            TypeShape::Image { class: ImageClass::Sampled { kind, .. }, .. } => Some(kind),
            _ => None,
        }
    }

    /// The comparison flag of a sampler.
    pub open spec fn sampler_comparison(self) -> Option<bool> {
        match self {
            TypeShape::Sampler { comparison } => Some(comparison),
            _ => None,
        }
    }
}

/// Asks naga's `UniqueArena::get_handle` whether `Module::types` holds the
/// type that one item of `Module::global_variables` names.
#[verifier::external_body]
pub(crate) fn global_type_known(m: &Module, i: usize) -> (r: bool)
    requires
        i < module_contents(*m).globals.len(),
    ensures
        r == (module_contents(*m).globals[i as int].ty.tag() != TypeTag::Missing),
{
    m.types.get_handle(m.global_variables.iter().nth(i).unwrap().1.ty).is_ok()
}

/// Tells apart the variants of naga's `TypeInner` for the type of one item of
/// `Module::global_variables`, where `Module::types` holds that type.
#[verifier::external_body]
pub(crate) fn global_type_tag(m: &Module, i: usize) -> (r: TypeTag)
    requires
        i < module_contents(*m).globals.len(),
        module_contents(*m).globals[i as int].ty.tag() != TypeTag::Missing,
    ensures
        r == module_contents(*m).globals[i as int].ty.tag(),
{
    match m.types[m.global_variables.iter().nth(i).unwrap().1.ty].inner {
        TypeInner::Scalar(_) => TypeTag::Scalar,
        TypeInner::Vector { .. } => TypeTag::Vector,
        TypeInner::Matrix { .. } => TypeTag::Matrix,
        TypeInner::Atomic(_) => TypeTag::Atomic,
        TypeInner::Pointer { .. } => TypeTag::Pointer,
        TypeInner::ValuePointer { .. } => TypeTag::ValuePointer,
        TypeInner::Array { .. } => TypeTag::Array,
        TypeInner::Struct { .. } => TypeTag::Struct,
        TypeInner::Image { .. } => TypeTag::Image,
        TypeInner::Sampler { .. } => TypeTag::Sampler,
        TypeInner::AccelerationStructure => TypeTag::AccelerationStructure,
        TypeInner::RayQuery => TypeTag::RayQuery,
        TypeInner::BindingArray { .. } => TypeTag::BindingArray,
    }
}

/// Reads `dim` where the type of one item of `Module::global_variables` is
/// naga's `TypeInner::Image`. The type is looked up with
/// `UniqueArena::get_handle`.
#[verifier::external_body]
pub(crate) fn global_image_dimension(m: &Module, i: usize) -> (r: Option<ImageDimension>)
    requires
        i < module_contents(*m).globals.len(),
    ensures
        r == module_contents(*m).globals[i as int].ty.image_dimension(),
{
    match m.types.get_handle(m.global_variables.iter().nth(i).unwrap().1.ty).map(|t| &t.inner) {
        Ok(TypeInner::Image { dim: wgpu::naga::ImageDimension::D1, .. }) => Some(ImageDimension::D1),
        Ok(TypeInner::Image { dim: wgpu::naga::ImageDimension::D2, .. }) => Some(ImageDimension::D2),
        Ok(TypeInner::Image { dim: wgpu::naga::ImageDimension::D3, .. }) => Some(ImageDimension::D3),
        Ok(TypeInner::Image { dim: wgpu::naga::ImageDimension::Cube, .. }) => Some(
            ImageDimension::Cube,
        ),
        _ => None,
    }
}

/// Tells apart the variants of `class`, and reads `multi`, where the type of
/// one item of `Module::global_variables` is naga's `TypeInner::Image`. The
/// type is looked up with `UniqueArena::get_handle`.
#[verifier::external_body]
pub(crate) fn global_image_class(m: &Module, i: usize) -> (r: Option<ImageClassTag>)
    requires
        i < module_contents(*m).globals.len(),
    ensures
        r == module_contents(*m).globals[i as int].ty.image_class_tag(),
{
    match m.types.get_handle(m.global_variables.iter().nth(i).unwrap().1.ty).map(|t| &t.inner) {
        Ok(TypeInner::Image { class: wgpu::naga::ImageClass::Sampled { multi, .. }, .. }) => Some(
            ImageClassTag::Sampled { multi: *multi },
        ),
        Ok(TypeInner::Image { class: wgpu::naga::ImageClass::Depth { multi }, .. }) => Some(
            ImageClassTag::Depth { multi: *multi },
        ),
        Ok(TypeInner::Image { class: wgpu::naga::ImageClass::Storage { .. }, .. }) => Some(
            ImageClassTag::Storage,
        ),
        _ => None,
    }
}

/// Tells apart the variants of `kind` where the type of one item of
/// `Module::global_variables` is a naga image of class `Sampled`. The type
/// is looked up with `UniqueArena::get_handle`.
#[verifier::external_body]
pub(crate) fn global_sampled_kind(m: &Module, i: usize) -> (r: Option<ScalarKind>)
    requires
        i < module_contents(*m).globals.len(),
    ensures
        r == module_contents(*m).globals[i as int].ty.sampled_kind(),
{
    match m.types.get_handle(m.global_variables.iter().nth(i).unwrap().1.ty).map(|t| &t.inner) {
        Ok(TypeInner::Image { class: wgpu::naga::ImageClass::Sampled { kind, .. }, .. }) => Some(
            match kind {
                wgpu::naga::ScalarKind::Sint => ScalarKind::Sint,
                wgpu::naga::ScalarKind::Uint => ScalarKind::Uint,
                wgpu::naga::ScalarKind::Float => ScalarKind::Float,
                wgpu::naga::ScalarKind::Bool => ScalarKind::Bool,
                wgpu::naga::ScalarKind::AbstractInt => ScalarKind::AbstractInt,
                wgpu::naga::ScalarKind::AbstractFloat => ScalarKind::AbstractFloat,
            },
        ),
        _ => None,
    }
}

/// Reads `comparison` where the type of one item of
/// `Module::global_variables` is naga's `TypeInner::Sampler`. The type is
/// looked up with `UniqueArena::get_handle`.
#[verifier::external_body]
pub(crate) fn global_sampler_comparison(m: &Module, i: usize) -> (r: Option<bool>)
    requires
        i < module_contents(*m).globals.len(),
    ensures
        r == module_contents(*m).globals[i as int].ty.sampler_comparison(),
{
    match m.types.get_handle(m.global_variables.iter().nth(i).unwrap().1.ty).map(|t| &t.inner) {
        Ok(TypeInner::Sampler { comparison }) => Some(*comparison),
        _ => None,
    }
}

/// Reads the shape of the type of one module-level variable.
pub(crate) fn read_type_shape(m: &Module, i: usize) -> (r: TypeShape)
    requires
        i < module_contents(*m).globals.len(),
    ensures
        r == module_contents(*m).globals[i as int].ty,
{
    let ghost ty = module_contents(*m).globals[i as int].ty;
    if !global_type_known(m, i) {
        return TypeShape::Missing;
    }
    match global_type_tag(m, i) {
        TypeTag::Scalar => TypeShape::Scalar,
        TypeTag::Vector => TypeShape::Vector,
        TypeTag::Matrix => TypeShape::Matrix,
        TypeTag::Atomic => TypeShape::Atomic,
        TypeTag::Pointer => TypeShape::Pointer,
        TypeTag::ValuePointer => TypeShape::ValuePointer,
        TypeTag::Array => TypeShape::Array,
        TypeTag::Struct => TypeShape::Struct,
        TypeTag::AccelerationStructure => TypeShape::AccelerationStructure,
        TypeTag::RayQuery => TypeShape::RayQuery,
        TypeTag::BindingArray => TypeShape::BindingArray,
        TypeTag::Missing => TypeShape::Missing,
        TypeTag::Sampler => {
            let comparison = global_sampler_comparison(m, i);
            match comparison {
                Some(c) => TypeShape::Sampler { comparison: c },
                None => {
                    proof {
                        assert(ty.tag() == TypeTag::Sampler);
                        assert(false);
                    }
                    TypeShape::Sampler { comparison: false }
                },
            }
        },
        TypeTag::Image => {
            let dim = global_image_dimension(m, i);
            let class = global_image_class(m, i);
            let kind = global_sampled_kind(m, i);
            match (dim, class, kind) {
                (Some(d), Some(ImageClassTag::Sampled { multi }), Some(k)) => TypeShape::Image {
                    dim: d,
                    class: ImageClass::Sampled { kind: k, multi },
                },
                (Some(d), Some(ImageClassTag::Depth { multi }), _) => TypeShape::Image {
                    dim: d,
                    class: ImageClass::Depth { multi },
                },
                (Some(d), Some(ImageClassTag::Storage), _) => TypeShape::Image {
                    dim: d,
                    class: ImageClass::Storage,
                },
                _ => {
                    proof {
                        assert(ty.tag() == TypeTag::Image);
                        assert(false);
                    }
                    TypeShape::Image { dim: ImageDimension::D1, class: ImageClass::Storage }
                },
            }
        },
    }
}

/// Reads the module-level variables of a parsed module.
pub fn read_globals(m: &Module) -> (r: Vec<GlobalVariable>)
    ensures
        r@.map_values(|g: GlobalVariable| g@) == module_contents(*m).globals,
{
    let n = global_count(m);
    let mut out: Vec<GlobalVariable> = Vec::new();
    let mut i: usize = 0;
    while i < n
        invariant
            0 <= i <= n,
            n == module_contents(*m).globals.len(),
            out.len() == i,
            forall|k: int| 0 <= k < i ==> (#[trigger] out@[k])@ == module_contents(*m).globals[k],
        decreases n - i,
    {
        let g = GlobalVariable {
            name: global_name(m, i),
            binding: global_binding(m, i),
            ty: read_type_shape(m, i),
        };
        assert(g@ == module_contents(*m).globals[i as int]);
        out.push(g);
        i += 1;
    }
    assert(out@.map_values(|g: GlobalVariable| g@) =~= module_contents(*m).globals);
    out
}

/// Reads the entry points and module-level variables of a parsed module.
pub fn read_module(m: &Module) -> (r: ModuleInfo)
    ensures
        r@ == module_contents(*m),
{
    ModuleInfo { entry_points: read_entry_points(m), globals: read_globals(m) }
}

} // verus!
