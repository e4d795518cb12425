//! The pipeline manager: a pipeline object under a fixed contract of bind
//! group layouts. A new shader replaces the pipeline object and never the
//! contract.
//!
//! The manager does not look into the pipeline object or the pipeline
//! layout. It is generic in both and is handed a function that builds a
//! pipeline object for a shader.

use crate::error::{RendererError, RendererErrorView, RendererResult};
use crate::frontend::module_contents;
use crate::ir::ParseDiagnostic;
use crate::layout::{
    layout_views, layouts_compatible, mismatches, BindingGroupLayout, BindingGroupLayoutView,
    ShaderStages,
};
use crate::shader::{compile_outcome, compiled_shader, Shader};
use vstd::prelude::*;

verus! {

/// A pipeline object, the pipeline layout it was built for, and the bind
/// group layouts that are bound when it draws.
pub struct RenderPipeline<L, P> {
    fixed_layout: Vec<BindingGroupLayout>,
    pipeline_layout: L,
    pipeline: P,
}

/// What a `RenderPipeline` holds.
pub struct RenderPipelineView<L, P> {
    /// The contract: the bind group layouts that are bound at draw time.
    pub fixed_layout: Seq<BindingGroupLayoutView>,
    /// The pipeline layout.
    pub pipeline_layout: L,
    /// The pipeline object.
    pub pipeline: P,
}

impl<L, P> View for RenderPipeline<L, P> {
    type V = RenderPipelineView<L, P>;

    closed spec fn view(&self) -> RenderPipelineView<L, P> {
        RenderPipelineView {
            fixed_layout: layout_views(self.fixed_layout@),
            pipeline_layout: self.pipeline_layout,
            pipeline: self.pipeline,
        }
    }
}

/// What `RenderPipeline::recreate_checked` leaves and returns for a shader
/// that asks for the layouts `inferred`, where `built` says whether a
/// pipeline object is what the build function returned: where the contract
/// accepts the layouts, such an object has replaced the old one; where it
/// does not, the old one stays and the mismatches are returned. The
/// contract and the pipeline layout stay in either case.
pub open spec fn swapped<L, P>(
    before: RenderPipelineView<L, P>,
    inferred: Seq<BindingGroupLayoutView>,
    built: spec_fn(P) -> bool,
    after: RenderPipelineView<L, P>,
    r: RendererResult<()>,
) -> bool {
    &&& after.fixed_layout == before.fixed_layout
    &&& after.pipeline_layout == before.pipeline_layout
    &&& if layouts_compatible(inferred, before.fixed_layout) {
        r.is_ok() && built(after.pipeline)
    } else {
        &&& after.pipeline == before.pipeline
        &&& r matches Err(e) && e@ == RendererErrorView::LayoutMismatch(
            mismatches(inferred, before.fixed_layout),
        )
    }
}

impl<L, P> RenderPipeline<L, P> {
    /// A pipeline under the contract `fixed_layout`. The caller has checked
    /// that the contract accepts the shader that `pipeline` was built for.
    pub fn new(fixed_layout: Vec<BindingGroupLayout>, pipeline_layout: L, pipeline: P) -> (r: Self)
        ensures
            r@ == (RenderPipelineView {
                fixed_layout: layout_views(fixed_layout@),
                pipeline_layout,
                pipeline,
            }),
    {
        RenderPipeline { fixed_layout, pipeline_layout, pipeline }
    }

    /// Replaces the pipeline object. The contract and the pipeline layout
    /// stay. The caller has checked that the contract accepts the shader
    /// that `pipeline` was built for.
    pub fn recreate(&mut self, pipeline: P)
        ensures
            final(self)@ == (RenderPipelineView { pipeline, ..old(self)@ }),
    {
        self.pipeline = pipeline;
    }

    /// The pipeline object.
    pub fn pipeline(&self) -> (r: &P)
        ensures
            *r == self@.pipeline,
    {
        &self.pipeline
    }

    /// The pipeline layout.
    pub fn pipeline_layout(&self) -> (r: &L)
        ensures
            *r == self@.pipeline_layout,
    {
        &self.pipeline_layout
    }

    /// The contract.
    pub fn fixed_layout(&self) -> (r: &[BindingGroupLayout])
        ensures
            layout_views(r@) == self@.fixed_layout,
    {
        self.fixed_layout.as_slice()
    }

    /// Whether the contract accepts the layouts that `shader` asks for.
    pub fn accepts(&self, shader: &Shader) -> (r: bool)
        ensures
            r == layouts_compatible(shader@.layout, self@.fixed_layout),
    {
        shader.layout_matches(self.fixed_layout.as_slice())
    }

    /// Replaces the pipeline object by the one that `build` makes for
    /// `shader`, where the contract accepts the layouts that the shader asks
    /// for. Where it does not, `build` is not called, the pipeline object
    /// stays and the mismatches are returned.
    pub fn recreate_checked<F: FnOnce(Shader, &L) -> P>(&mut self, shader: Shader, build: F) -> (r:
        RendererResult<()>)
        requires
            build.requires((shader, &old(self)@.pipeline_layout)),
        ensures
            swapped(
                old(self)@,
                shader@.layout,
                |p: P| build.ensures((shader, &old(self)@.pipeline_layout), p),
                final(self)@,
                r,
            ),
    {
        let found = shader.layout_mismatches(self.fixed_layout.as_slice());
        if found.len() > 0 {
            return Err(RendererError::LayoutMismatch(found));
        }
        let pipeline = build(shader, &self.pipeline_layout);
        self.pipeline = pipeline;
        Ok(())
    }

    /// Compiles what the WGSL front end made of a source, under the name
    /// `name`, and replaces the pipeline object by the one that `build` makes
    /// for the shader. Where the front end rejected the source, the shader
    /// does not compile or the contract does not accept its layouts, `build`
    /// is not called, the pipeline object stays and the error is returned.
    pub fn compile_shader<F: FnOnce(Shader, &L) -> P>(
        &mut self,
        name: &str,
        parsed: Result<wgpu::naga::Module, ParseDiagnostic>,
        build: F,
    ) -> (r: RendererResult<()>)
        requires
            forall|s: Shader| build.requires((s, &old(self)@.pipeline_layout)),
        ensures
            final(self)@.fixed_layout == old(self)@.fixed_layout,
            final(self)@.pipeline_layout == old(self)@.pipeline_layout,
            match parsed {
                Err(d) => {
                    &&& final(self)@.pipeline == old(self)@.pipeline
                    &&& r matches Err(e) && e@ == RendererErrorView::WgslShaderParse(d@)
                },
                Ok(module) => match compile_outcome(
                    seq![(ShaderStages { vertex: true, fragment: true }, module_contents(module))],
                ) {
                    Err(f) => {
                        &&& final(self)@.pipeline == old(self)@.pipeline
                        &&& r matches Err(e) && e@ == RendererErrorView::ShaderCompile(f)
                    },
                    Ok((vertex, fragment, layout)) => swapped(
                        old(self)@,
                        layout,
                        |p: P|
                            exists|s: Shader|
                                s@ == compiled_shader(
                                    name@,
                                    seq![
                                        (
                                            ShaderStages { vertex: true, fragment: true },
                                            module_contents(module),
                                        ),
                                    ],
                                    vertex,
                                    fragment,
                                    layout,
                                ) && #[trigger] build.ensures(
                                    (s, &old(self)@.pipeline_layout),
                                    p,
                                ),
                        final(self)@,
                        r,
                    ),
                },
            },
    {
        let shader = match Shader::new_wgsl(name, parsed) {
            Ok(s) => s,
            Err(e) => {
                return Err(e);
            },
        };
        let ghost witness = shader;
        let r = self.recreate_checked(shader, build);
        proof {
            if r.is_ok() {
                assert(build.ensures((witness, &old(self)@.pipeline_layout), self@.pipeline));
            }
        }
        r
    }
}

} // verus!
