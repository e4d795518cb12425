//! The errors of shader compilation and validation.

use crate::ir::{ParseDiagnostic, ParseDiagnosticView, TypeShape};
use crate::layout::LayoutMismatch;
use crate::text::{decimal, decimal_text};
use vstd::prelude::*;
use vstd::string::StringExecFns;

verus! {

/// Why a parsed shader cannot be used.
#[derive(Clone, Copy, Debug, PartialEq, Eq, Structural)]
pub enum CompileFailure {
    /// The shader has neither a vertex nor a fragment entry point.
    NoEntryPoints,
    /// The shader has a fragment entry point and no vertex entry point.
    NoVertexEntryPoint,
    /// The shader has a vertex entry point and no fragment entry point.
    NoFragmentEntryPoint,
    /// A bound variable has a type that no binding kind stands for.
    UnsupportedBinding { group: u32, binding: u32, ty: TypeShape },
}

impl CompileFailure {
    /// The failure in words.
    pub open spec fn text(self) -> Seq<char> {
        match self {
            CompileFailure::NoEntryPoints => "Shader has no entry points!"@,
            CompileFailure::NoVertexEntryPoint => "Shader has no vertex entry point!"@,
            CompileFailure::NoFragmentEntryPoint => "Shader has no fragment entry point!"@,
            CompileFailure::UnsupportedBinding { group, binding, .. } =>
                "Shader binds a variable of an unsupported type at group "@ + decimal(
                    group as nat,
                ) + ", binding "@ + decimal(binding as nat),
        }
    }

    /// The failure in words.
    pub fn message(&self) -> (r: String)
        ensures
            r@ == self.text(),
    {
        match self {
            CompileFailure::NoEntryPoints => "Shader has no entry points!".to_owned(),
            CompileFailure::NoVertexEntryPoint => "Shader has no vertex entry point!".to_owned(),
            CompileFailure::NoFragmentEntryPoint => "Shader has no fragment entry point!".to_owned(),
            CompileFailure::UnsupportedBinding { group, binding, .. } => {
                let mut s = "Shader binds a variable of an unsupported type at group ".to_owned();
                s.append(decimal_text(*group as u64).as_str());
                s.append(", binding ");
                s.append(decimal_text(*binding as u64).as_str());
                assert(s@ =~= self.text());
                s
            },
        }
    }
}

/// An error of the renderer's shader pipeline.
#[derive(Debug)]
pub enum RendererError {
    /// The WGSL front end rejected the source.
    WgslShaderParse(ParseDiagnostic),
    /// The GLSL front end rejected a source.
    GlslShaderParse(Vec<ParseDiagnostic>),
    /// The source parsed, and the shader cannot be used.
    ShaderCompile(CompileFailure),
    /// The shader compiled, and the pipeline's layouts do not accept the
    /// layouts it asks for.
    LayoutMismatch(Vec<LayoutMismatch>),
}

/// What a `RendererError` holds.
pub enum RendererErrorView {
    WgslShaderParse(ParseDiagnosticView),
    GlslShaderParse(Seq<ParseDiagnosticView>),
    ShaderCompile(CompileFailure),
    LayoutMismatch(Seq<LayoutMismatch>),
}

impl View for RendererError {
    type V = RendererErrorView;

    open spec fn view(&self) -> RendererErrorView {
        match self {
            RendererError::WgslShaderParse(d) => RendererErrorView::WgslShaderParse(d@),
            RendererError::GlslShaderParse(ds) => RendererErrorView::GlslShaderParse(
                ds@.map_values(|d: ParseDiagnostic| d@),
            ),
            RendererError::ShaderCompile(f) => RendererErrorView::ShaderCompile(*f),
            RendererError::LayoutMismatch(m) => RendererErrorView::LayoutMismatch(m@),
        }
    }
}

/// The messages of `diagnostics`, each but the first after `"; "`.
pub open spec fn joined_messages(diagnostics: Seq<ParseDiagnosticView>) -> Seq<char>
    decreases diagnostics.len(),
{
    if diagnostics.len() == 0 {
        Seq::empty()
    } else if diagnostics.len() == 1 {
        diagnostics[0].message
    } else {
        joined_messages(diagnostics.drop_last()) + "; "@ + diagnostics.last().message
    }
}

/// The texts of `found`, each followed by a line feed.
pub open spec fn mismatch_lines(found: Seq<LayoutMismatch>) -> Seq<char>
    decreases found.len(),
{
    if found.len() == 0 {
        Seq::empty()
    } else {
        mismatch_lines(found.drop_last()) + found.last().text() + "\n"@
    }
}

impl RendererErrorView {
    /// The error in words.
    pub open spec fn text(self) -> Seq<char> {
        match self {
            RendererErrorView::WgslShaderParse(d) => "Error parsing WGSL source: "@ + d.message,
            RendererErrorView::GlslShaderParse(ds) => "Error parsing GLSL source: "@
                + joined_messages(ds),
            RendererErrorView::ShaderCompile(f) => "Error compiling shader: "@ + f.text(),
            RendererErrorView::LayoutMismatch(found) => mismatch_lines(found),
        }
    }
}

impl RendererError {
    /// The error in words. A parse error gives the front end's message as
    /// it is.
    pub fn message(&self) -> (r: String)
        ensures
            r@ == self@.text(),
    {
        match self {
            RendererError::WgslShaderParse(d) => {
                let mut s = "Error parsing WGSL source: ".to_owned();
                s.append(d.message.as_str());
                s
            },
            RendererError::GlslShaderParse(ds) => {
                let ghost views = ds@.map_values(|d: ParseDiagnostic| d@);
                let mut joined = String::new();
                let mut i: usize = 0;
                assert(views.take(0) =~= Seq::empty());
                while i < ds.len()
                    invariant
                        0 <= i <= ds.len(),
                        views == ds@.map_values(|d: ParseDiagnostic| d@),
                        joined@ == joined_messages(views.take(i as int)),
                    decreases ds.len() - i,
                {
                    proof {
                        assert(views.take(i + 1).drop_last() =~= views.take(i as int));
                        assert(views.take(i + 1).last() == views[i as int]);
                        assert(views.take(i + 1)[0] == views[0]);
                    }
                    if i > 0 {
                        joined.append("; ");
                    }
                    joined.append(ds[i].message.as_str());
                    assert(joined@ =~= joined_messages(views.take(i + 1)));
                    i += 1;
                }
                assert(views.take(i as int) =~= views);
                let mut s = "Error parsing GLSL source: ".to_owned();
                s.append(joined.as_str());
                s
            },
            RendererError::ShaderCompile(f) => {
                let mut s = "Error compiling shader: ".to_owned();
                s.append(f.message().as_str());
                s
            },
            RendererError::LayoutMismatch(found) => {
                let mut s = String::new();
                let mut i: usize = 0;
                assert(found@.take(0) =~= Seq::empty());
                while i < found.len()
                    invariant
                        0 <= i <= found.len(),
                        s@ == mismatch_lines(found@.take(i as int)),
                    decreases found.len() - i,
                {
                    proof {
                        assert(found@.take(i + 1).drop_last() =~= found@.take(i as int));
                        assert(found@.take(i + 1).last() == found@[i as int]);
                    }
                    s.append(found[i].message().as_str());
                    s.append("\n");
                    assert(s@ =~= mismatch_lines(found@.take(i + 1)));
                    i += 1;
                }
                assert(found@.take(i as int) =~= found@);
                s
            },
        }
    }
}

pub type RendererResult<T> = Result<T, RendererError>;

} // verus!
