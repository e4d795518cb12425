//! A plain description of a parsed shader module: its entry points and its
//! module-level variables, as far as shader validation reads them.

use vstd::prelude::*;

verus! {

/// The pipeline stage that an entry point serves.
#[derive(Clone, Copy, Debug, PartialEq, Eq, Structural)]
pub enum ShaderStage {
    Vertex,
    Fragment,
    Compute,
}

/// The numeric kind of a scalar.
#[derive(Clone, Copy, Debug, PartialEq, Eq, Structural)]
pub enum ScalarKind {
    Sint,
    Uint,
    Float,
    Bool,
    AbstractInt,
    AbstractFloat,
}

/// The dimensionality of an image.
#[derive(Clone, Copy, Debug, PartialEq, Eq, Structural)]
pub enum ImageDimension {
    D1,
    D2,
    D3,
    Cube,
}

/// The class of an image.
#[derive(Clone, Copy, Debug, PartialEq, Eq, Structural)]
pub enum ImageClass {
    Sampled { kind: ScalarKind, multi: bool },
    Depth { multi: bool },
    Storage,
}

/// The shape of a declared type.
#[derive(Clone, Copy, Debug, PartialEq, Eq, Structural)]
pub enum TypeShape {
    Scalar,
    Vector,
    Matrix,
    Atomic,
    Pointer,
    ValuePointer,
    Array,
    Struct,
    Image { dim: ImageDimension, class: ImageClass },
    Sampler { comparison: bool },
    AccelerationStructure,
    RayQuery,
    BindingArray,
    /// The module names a type that it does not hold.
    Missing,
}

/// The bind group and the binding index that a variable is bound at.
#[derive(Clone, Copy, Debug, PartialEq, Eq, Structural)]
pub struct ResourceBinding {
    pub group: u32,
    pub binding: u32,
}

/// A place in a source text.
#[derive(Clone, Copy, Debug, PartialEq, Eq, Structural)]
pub struct SourceLocation {
    /// Line, counted from one.
    pub line_number: u32,
    /// Column, counted from one.
    pub line_position: u32,
    /// Byte offset, counted from zero.
    pub offset: u32,
    /// Length in bytes.
    pub length: u32,
}

impl SourceLocation {
    /// The place with the given line, column, byte offset and byte length.
    pub fn new(line_number: u32, line_position: u32, offset: u32, length: u32) -> (r:
        SourceLocation)
        ensures
            r == (SourceLocation { line_number, line_position, offset, length }),
    {
        SourceLocation { line_number, line_position, offset, length }
    }
}

/// What a parser said of a source text that it rejected.
#[derive(Debug)]
pub struct ParseDiagnostic {
    pub message: String,
    pub location: Option<SourceLocation>,
}

/// What a `ParseDiagnostic` holds.
pub struct ParseDiagnosticView {
    pub message: Seq<char>,
    pub location: Option<SourceLocation>,
}

impl View for ParseDiagnostic {
    type V = ParseDiagnosticView;

    open spec fn view(&self) -> ParseDiagnosticView {
        ParseDiagnosticView { message: self.message@, location: self.location }
    }
}

/// A function of a module that starts a pipeline stage.
#[derive(Debug)]
pub struct EntryPoint {
    pub stage: ShaderStage,
    pub name: String,
}

/// What an `EntryPoint` holds.
pub struct EntryPointView {
    pub stage: ShaderStage,
    pub name: Seq<char>,
}

impl View for EntryPoint {
    type V = EntryPointView;

    open spec fn view(&self) -> EntryPointView {
        EntryPointView { stage: self.stage, name: self.name@ }
    }
}

/// A variable declared at module level.
#[derive(Debug)]
pub struct GlobalVariable {
    pub name: Option<String>,
    pub binding: Option<ResourceBinding>,
    pub ty: TypeShape,
}

/// What a `GlobalVariable` holds.
pub struct GlobalVariableView {
    pub name: Option<Seq<char>>,
    pub binding: Option<ResourceBinding>,
    pub ty: TypeShape,
}

impl View for GlobalVariable {
    type V = GlobalVariableView;

    open spec fn view(&self) -> GlobalVariableView {
        GlobalVariableView {
            name: match self.name {
                Some(s) => Some(s@),
                None => None,
            },
            binding: self.binding,
            ty: self.ty,
        }
    }
}

/// The entry points and module-level variables of a module, each in the
/// order of the module's list.
#[derive(Debug)]
pub struct ModuleInfo {
    pub entry_points: Vec<EntryPoint>,
    pub globals: Vec<GlobalVariable>,
}

/// What a `ModuleInfo` holds.
pub struct ModuleInfoView {
    pub entry_points: Seq<EntryPointView>,
    pub globals: Seq<GlobalVariableView>,
}

impl View for ModuleInfo {
    type V = ModuleInfoView;

    open spec fn view(&self) -> ModuleInfoView {
        ModuleInfoView {
            entry_points: self.entry_points@.map_values(|e: EntryPoint| e@),
            globals: self.globals@.map_values(|g: GlobalVariable| g@),
        }
    }
}

} // verus!
