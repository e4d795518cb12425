//! Compiling a shader: choosing its entry points, inferring the bind group
//! layouts it asks for, and holding the result for validation.

use crate::error::{CompileFailure, RendererError, RendererErrorView, RendererResult};
use crate::frontend::{module_contents, read_module};
use crate::ir::{
    EntryPoint, EntryPointView, GlobalVariable, GlobalVariableView, ImageClass, ImageDimension,
    ModuleInfo, ModuleInfoView, ParseDiagnostic, ScalarKind, ShaderStage, TypeShape,
};
use crate::layout::{
    bindings_unique, layout_matches, layout_mismatches, layout_views, layouts_compatible, mismatches, BindingEntry,
    BindingGroupLayout, BindingGroupLayoutView, BindingType, LayoutMismatch, SamplerBindingType,
    ShaderStages, TextureSampleType, TextureViewDimension,
};
use vstd::prelude::*;
use wgpu::naga::Module;

verus! {

/// The entry points of all modules, module after module.
pub open spec fn all_entry_points(modules: Seq<ModuleInfoView>) -> Seq<EntryPointView>
    decreases modules.len(),
{
    if modules.len() == 0 {
        Seq::empty()
    } else {
        all_entry_points(modules.drop_last()) + modules.last().entry_points
    }
}

/// The name of the first entry point of `eps` that serves `stage`.
pub open spec fn first_with_stage(eps: Seq<EntryPointView>, stage: ShaderStage) -> Option<
    Seq<char>,
>
    decreases eps.len(),
{
    if eps.len() == 0 {
        None
    } else {
        match first_with_stage(eps.drop_last(), stage) {
            Some(n) => Some(n),
            None => if eps.last().stage == stage {
                Some(eps.last().name)
            } else {
                None
            },
        }
    }
}

/// How many entry points of `eps` serve `stage`.
pub open spec fn count_with_stage(eps: Seq<EntryPointView>, stage: ShaderStage) -> nat
    decreases eps.len(),
{
    if eps.len() == 0 {
        0
    } else {
        count_with_stage(eps.drop_last(), stage) + if eps.last().stage == stage {
            1nat
        } else {
            0nat
        }
    }
}

/// The vertex and the fragment entry point that a shader with the entry
/// points `eps` runs: for each stage the first one declared.
pub open spec fn select_entry_points(eps: Seq<EntryPointView>) -> Result<
    (Seq<char>, Seq<char>),
    CompileFailure,
> {
    match (
        first_with_stage(eps, ShaderStage::Vertex),
        first_with_stage(eps, ShaderStage::Fragment),
    ) {
        (None, None) => Err(CompileFailure::NoEntryPoints),
        (None, Some(_)) => Err(CompileFailure::NoVertexEntryPoint),
        (Some(_), None) => Err(CompileFailure::NoFragmentEntryPoint),
        (Some(v), Some(f)) => Ok((v, f)),
    }
}

/// The views of `modules`.
pub open spec fn module_views(modules: Seq<&ModuleInfo>) -> Seq<ModuleInfoView> {
    modules.map_values(|m: &ModuleInfo| m@)
}

/// `first_with_stage` names the entry point at the least index that serves
/// the stage, and is `None` exactly when none does.
pub proof fn lemma_first_with_stage(eps: Seq<EntryPointView>, stage: ShaderStage)
    ensures
        match first_with_stage(eps, stage) {
            Some(n) => exists|i: int|
                0 <= i < eps.len() && #[trigger] eps[i].stage == stage && eps[i].name == n
                    && forall|j: int| 0 <= j < i ==> (#[trigger] eps[j]).stage != stage,
            None => forall|i: int| 0 <= i < eps.len() ==> (#[trigger] eps[i]).stage != stage,
        },
    decreases eps.len(),
{
    if eps.len() > 0 {
        let front = eps.drop_last();
        lemma_first_with_stage(front, stage);
        match first_with_stage(front, stage) {
            Some(n) => {
                let i = choose|i: int|
                    0 <= i < front.len() && #[trigger] front[i].stage == stage && front[i].name == n
                        && forall|j: int| 0 <= j < i ==> (#[trigger] front[j]).stage != stage;
                assert(eps[i].stage == stage && eps[i].name == n);
                assert forall|j: int| 0 <= j < i implies (#[trigger] eps[j]).stage != stage by {
                    assert(front[j].stage != stage);
                }
            },
            None => {
                assert forall|j: int| 0 <= j < eps.len() - 1 implies (#[trigger] eps[j]).stage
                    != stage by {
                    assert(front[j].stage != stage);
                }
                if eps.last().stage == stage {
                    let i = eps.len() - 1;
                    assert(eps[i].stage == stage && eps[i].name == eps.last().name);
                }
            },
        }
    }
}

proof fn lemma_first_with_stage_append(
    a: Seq<EntryPointView>,
    b: Seq<EntryPointView>,
    stage: ShaderStage,
)
    ensures
        first_with_stage(a + b, stage) == match first_with_stage(a, stage) {
            Some(n) => Some(n),
            None => first_with_stage(b, stage),
        },
    decreases b.len(),
{
    if b.len() == 0 {
        assert(a + b =~= a);
    } else {
        lemma_first_with_stage_append(a, b.drop_last(), stage);
        assert((a + b).drop_last() =~= a + b.drop_last());
    }
}

/// The name of the first entry point of `modules` that serves `stage`.
fn find_entry_point(modules: &[&ModuleInfo], stage: ShaderStage) -> (r: Option<String>)
    ensures
        match first_with_stage(all_entry_points(module_views(modules@)), stage) {
            Some(n) => r matches Some(s) && s@ == n,
            None => r.is_none(),
        },
{
    let ghost views = module_views(modules@);
    let mut m: usize = 0;
    while m < modules.len()
        invariant
            0 <= m <= modules.len(),
            views == module_views(modules@),
            first_with_stage(all_entry_points(views.take(m as int)), stage).is_none(),
        decreases modules.len() - m,
    {
        let eps = &modules[m].entry_points;
        let ghost before = all_entry_points(views.take(m as int));
        let ghost here = views[m as int].entry_points;
        proof {
            assert(views.take(m + 1).drop_last() =~= views.take(m as int));
            assert(views.take(m + 1).last() == views[m as int]);
            assert(all_entry_points(views.take(m + 1)) == before + here);
            assert(here == eps@.map_values(|e: EntryPoint| e@));
        }
        let mut i: usize = 0;
        while i < eps.len()
            invariant
                0 <= i <= eps.len(),
                m < modules.len(),
                here == eps@.map_values(|e: EntryPoint| e@),
                first_with_stage(before, stage).is_none(),
                first_with_stage(here.take(i as int), stage).is_none(),
                all_entry_points(views.take(m + 1)) == before + here,
                views == module_views(modules@),
            decreases eps.len() - i,
        {
            proof {
                assert(here.take(i + 1).drop_last() =~= here.take(i as int));
                assert(here.take(i + 1).last() == here[i as int]);
            }
            if eps[i].stage == stage {
                let name = eps[i].name.clone();
                proof {
                    // the rest of this module and the later modules do not change the first
                    let found = here.take(i + 1);
                    assert(first_with_stage(found, stage) == Some(name@));
                    let rest = here.skip(i + 1);
                    assert(here =~= found + rest);
                    lemma_first_with_stage_append(found, rest, stage);
                    lemma_first_with_stage_append(before, here, stage);
                    lemma_first_stays(views, (m + 1) as int, stage);
                }
                return Some(name);
            }
            i += 1;
        }
        proof {
            assert(here.take(i as int) =~= here);
            lemma_first_with_stage_append(before, here, stage);
        }
        m += 1;
    }
    proof {
        assert(views.take(m as int) =~= views);
    }
    None
}

proof fn lemma_first_stays(views: Seq<ModuleInfoView>, upto: int, stage: ShaderStage)
    requires
        0 <= upto <= views.len(),
        first_with_stage(all_entry_points(views.take(upto)), stage).is_some(),
    ensures
        first_with_stage(all_entry_points(views), stage) == first_with_stage(
            all_entry_points(views.take(upto)),
            stage,
        ),
    decreases views.len() - upto,
{
    if upto == views.len() {
        assert(views.take(upto) =~= views);
    } else {
        assert(views.take(upto + 1).drop_last() =~= views.take(upto));
        lemma_first_with_stage_append(
            all_entry_points(views.take(upto)),
            views[upto].entry_points,
            stage,
        );
        lemma_first_stays(views, upto + 1, stage);
    }
}

proof fn lemma_count_with_stage_append(
    a: Seq<EntryPointView>,
    b: Seq<EntryPointView>,
    stage: ShaderStage,
)
    ensures
        count_with_stage(a + b, stage) == count_with_stage(a, stage) + count_with_stage(b, stage),
    decreases b.len(),
{
    if b.len() == 0 {
        assert(a + b =~= a);
    } else {
        lemma_count_with_stage_append(a, b.drop_last(), stage);
        assert((a + b).drop_last() =~= a + b.drop_last());
    }
}

/// Whether more than one entry point of `modules` serves `stage`, so that
/// all but the first are ignored.
pub fn has_ignored_entry_points(modules: &[&ModuleInfo], stage: ShaderStage) -> (r: bool)
    ensures
        r == (count_with_stage(all_entry_points(module_views(modules@)), stage) > 1),
{
    let ghost views = module_views(modules@);
    let mut seen: usize = 0;
    let mut m: usize = 0;
    while m < modules.len()
        invariant
            0 <= m <= modules.len(),
            views == module_views(modules@),
            seen <= 2,
            seen < 2 ==> seen == count_with_stage(all_entry_points(views.take(m as int)), stage),
            seen == 2 ==> count_with_stage(all_entry_points(views.take(m as int)), stage) >= 2,
        decreases modules.len() - m,
    {
        let eps = &modules[m].entry_points;
        let ghost before = all_entry_points(views.take(m as int));
        let ghost here = views[m as int].entry_points;
        proof {
            assert(views.take(m + 1).drop_last() =~= views.take(m as int));
            assert(views.take(m + 1).last() == views[m as int]);
            assert(here == eps@.map_values(|e: EntryPoint| e@));
            lemma_count_with_stage_append(before, here, stage);
        }
        let ghost start = seen;
        let mut i: usize = 0;
        while i < eps.len()
            invariant
                0 <= i <= eps.len(),
                here == eps@.map_values(|e: EntryPoint| e@),
                seen <= 2,
                start <= 2,
                start < 2 ==> start == count_with_stage(before, stage),
                start == 2 ==> count_with_stage(before, stage) >= 2,
                seen < 2 ==> seen == count_with_stage(before, stage) + count_with_stage(
                    here.take(i as int),
                    stage,
                ),
                seen == 2 ==> count_with_stage(before, stage) + count_with_stage(
                    here.take(i as int),
                    stage,
                ) >= 2,
            decreases eps.len() - i,
        {
            proof {
                assert(here.take(i + 1).drop_last() =~= here.take(i as int));
                assert(here.take(i + 1).last() == here[i as int]);
            }
            if eps[i].stage == stage && seen < 2 {
                seen += 1;
            }
            i += 1;
        }
        proof {
            assert(here.take(i as int) =~= here);
        }
        m += 1;
    }
    proof {
        assert(views.take(m as int) =~= views);
    }
    seen > 1
}

/// The vertex and the fragment entry point of a shader made of `modules`:
/// for each stage the first entry point declared, going through the modules
/// in order. Fails where a stage has none.
pub fn get_entry_points(modules: &[&ModuleInfo]) -> (r: RendererResult<(String, String)>)
    ensures
        match select_entry_points(all_entry_points(module_views(modules@))) {
            Ok((v, f)) => r matches Ok(p) && p.0@ == v && p.1@ == f,
            Err(e) => r matches Err(RendererError::ShaderCompile(x)) && x == e,
        },
{
    let vertex = find_entry_point(modules, ShaderStage::Vertex);
    let fragment = find_entry_point(modules, ShaderStage::Fragment);
    match (vertex, fragment) {
        (None, None) => Err(RendererError::ShaderCompile(CompileFailure::NoEntryPoints)),
        (None, Some(_)) => Err(RendererError::ShaderCompile(CompileFailure::NoVertexEntryPoint)),
        (Some(_), None) => Err(
            RendererError::ShaderCompile(CompileFailure::NoFragmentEntryPoint),
        ),
        (Some(v), Some(f)) => Ok((v, f)),
    }
}

/// The texture view dimension that stands for an image dimension.
pub open spec fn view_dimension_of(dim: ImageDimension) -> TextureViewDimension {
    match dim {
        ImageDimension::D1 => TextureViewDimension::D1,
        ImageDimension::D2 => TextureViewDimension::D2,
        ImageDimension::D3 => TextureViewDimension::D3,
        ImageDimension::Cube => TextureViewDimension::Cube,
    }
}

/// The binding kind that stands for a bound variable of type `ty`, where
/// there is one. Data types are uniform buffers. A sampled image is a
/// texture of its integer kind or a filterable float texture, a depth image
/// is a depth texture, and each keeps its dimension and its multisample
/// flag. A sampler is a comparison sampler or a filtering one. Sampled
/// images of other kinds, storage images, types that the module does not
/// hold and all other types have none.
pub open spec fn binding_type_of(ty: TypeShape) -> Option<BindingType> {
    match ty {
        TypeShape::Scalar
        | TypeShape::Vector
        | TypeShape::Matrix
        | TypeShape::Atomic
        | TypeShape::Array
        | TypeShape::Struct => Some(BindingType::UniformBuffer),
        TypeShape::Image { dim, class: ImageClass::Sampled { kind: ScalarKind::Sint, multi } } => Some(
            BindingType::Texture {
                sample_type: TextureSampleType::Sint,
                view_dimension: view_dimension_of(dim),
                multisampled: multi,
            },
        ),
        TypeShape::Image { dim, class: ImageClass::Sampled { kind: ScalarKind::Uint, multi } } => Some(
            BindingType::Texture {
                sample_type: TextureSampleType::Uint,
                view_dimension: view_dimension_of(dim),
                multisampled: multi,
            },
        ),
        TypeShape::Image { dim, class: ImageClass::Sampled { kind: ScalarKind::Float, multi } } => Some(
            BindingType::Texture {
                sample_type: TextureSampleType::Float { filterable: true },
                view_dimension: view_dimension_of(dim),
                multisampled: multi,
            },
        ),
        TypeShape::Image { dim, class: ImageClass::Depth { multi } } => Some(
            BindingType::Texture {
                sample_type: TextureSampleType::Depth,
                view_dimension: view_dimension_of(dim),
                multisampled: multi,
            },
        ),
        TypeShape::Sampler { comparison } => Some(
            BindingType::Sampler(
                if comparison {
                    SamplerBindingType::Comparison
                } else {
                    SamplerBindingType::Filtering
                },
            ),
        ),
        _ => None,
    }
}

/// Whether a binding kind stands for a bound variable of type `ty`.
pub fn has_binding_type(ty: &TypeShape) -> (r: bool)
    ensures
        r == binding_type_of(*ty).is_some(),
{
    match *ty {
        TypeShape::Scalar
        | TypeShape::Vector
        | TypeShape::Matrix
        | TypeShape::Atomic
        | TypeShape::Array
        | TypeShape::Struct => true,
        TypeShape::Image { class, .. } => match class {
            ImageClass::Sampled { kind, .. } => match kind {
                ScalarKind::Sint | ScalarKind::Uint | ScalarKind::Float => true,
                ScalarKind::Bool | ScalarKind::AbstractInt | ScalarKind::AbstractFloat => false,
            },
            ImageClass::Depth { .. } => true,
            ImageClass::Storage => false,
        },
        TypeShape::Sampler { .. } => true,
        TypeShape::Pointer
        | TypeShape::ValuePointer
        | TypeShape::AccelerationStructure
        | TypeShape::RayQuery
        | TypeShape::BindingArray
        | TypeShape::Missing => false,
    }
}

/// The binding kind that stands for a bound variable of type `ty`. A type
/// that no binding kind stands for is no input of this function: the caller
/// asks `has_binding_type` first.
pub fn naga_type_to_binding_group_type(ty: &TypeShape) -> (r: BindingType)
    requires
        binding_type_of(*ty).is_some(),
    ensures
        binding_type_of(*ty) == Some(r),
{
    match *ty {
        TypeShape::Scalar
        | TypeShape::Vector
        | TypeShape::Matrix
        | TypeShape::Atomic
        | TypeShape::Array
        | TypeShape::Struct => BindingType::UniformBuffer,
        TypeShape::Image { dim, class } => {
            let (sample_type, multisampled) = match class {
                ImageClass::Sampled { kind, multi } => match kind {
                    ScalarKind::Sint => (TextureSampleType::Sint, multi),
                    ScalarKind::Uint => (TextureSampleType::Uint, multi),
                    ScalarKind::Float => (TextureSampleType::Float { filterable: true }, multi),
                    ScalarKind::Bool | ScalarKind::AbstractInt | ScalarKind::AbstractFloat => {
                        unreached()
                    },
                },
                ImageClass::Depth { multi } => (TextureSampleType::Depth, multi),
                ImageClass::Storage => unreached(),
            };
            let view_dimension = match dim {
                ImageDimension::D1 => TextureViewDimension::D1,
                ImageDimension::D2 => TextureViewDimension::D2,
                ImageDimension::D3 => TextureViewDimension::D3,
                ImageDimension::Cube => TextureViewDimension::Cube,
            };
            BindingType::Texture { sample_type, view_dimension, multisampled }
        },
        TypeShape::Sampler { comparison } => {
            if comparison {
                BindingType::Sampler(SamplerBindingType::Comparison)
            } else {
                BindingType::Sampler(SamplerBindingType::Filtering)
            }
        },
        TypeShape::Pointer
        | TypeShape::ValuePointer
        | TypeShape::AccelerationStructure
        | TypeShape::RayQuery
        | TypeShape::BindingArray
        | TypeShape::Missing => unreached(),
    }
}

/// A group without label and without entries.
pub open spec fn empty_group() -> BindingGroupLayoutView {
    BindingGroupLayoutView { label: None, entries: Seq::empty() }
}

/// `layouts`, with empty groups behind it where it has no group `group` yet.
pub open spec fn grown_to(layouts: Seq<BindingGroupLayoutView>, group: u32) -> Seq<
    BindingGroupLayoutView,
> {
    if layouts.len() > group {
        layouts
    } else {
        layouts + Seq::new((group + 1 - layouts.len()) as nat, |i: int| empty_group())
    }
}

/// The label of a group after a variable named `name` joined it: the names
/// so far, a comma where there are any, and `name`.
pub open spec fn label_with(label: Option<Seq<char>>, name: Seq<char>) -> Seq<char> {
    match label {
        Some(s) => if s.len() > 0 {
            s + seq![','] + name
        } else {
            name
        },
        None => name,
    }
}

/// The layouts after one module-level variable of a module seen by
/// `visibility` was looked at. A variable without binding changes nothing.
/// A bound variable joins the group it names: the layouts grow to hold that
/// group, its name joins the group's label, and an entry with its binding
/// index, `visibility`, its binding kind and no count ends the group's
/// entries. A bound variable without binding kind is an error.
pub open spec fn with_global(
    layouts: Seq<BindingGroupLayoutView>,
    visibility: ShaderStages,
    g: GlobalVariableView,
) -> Result<Seq<BindingGroupLayoutView>, CompileFailure> {
    match g.binding {
        None => Ok(layouts),
        Some(b) => match binding_type_of(g.ty) {
            None => Err(
                CompileFailure::UnsupportedBinding { group: b.group, binding: b.binding, ty: g.ty },
            ),
            Some(ty) => {
                let grown = grown_to(layouts, b.group);
                let group = grown[b.group as int];
                Ok(
                    grown.update(
                        b.group as int,
                        BindingGroupLayoutView {
                            label: match g.name {
                                Some(n) => Some(label_with(group.label, n)),
                                None => group.label,
                            },
                            entries: group.entries.push(
                                BindingEntry { binding: b.binding, visibility, ty, count: None },
                            ),
                        },
                    ),
                )
            },
        },
    }
}

/// The layouts after the variables `globals` were looked at in order,
/// stopping at the first error.
pub open spec fn with_globals(
    layouts: Seq<BindingGroupLayoutView>,
    visibility: ShaderStages,
    globals: Seq<GlobalVariableView>,
) -> Result<Seq<BindingGroupLayoutView>, CompileFailure>
    decreases globals.len(),
{
    if globals.len() == 0 {
        Ok(layouts)
    } else {
        match with_globals(layouts, visibility, globals.drop_last()) {
            Err(e) => Err(e),
            Ok(l) => with_global(l, visibility, globals.last()),
        }
    }
}

/// The layouts after the modules `modules`, each with the stages that see
/// it, were looked at in order, stopping at the first error.
pub open spec fn with_modules(
    layouts: Seq<BindingGroupLayoutView>,
    modules: Seq<(ShaderStages, ModuleInfoView)>,
) -> Result<Seq<BindingGroupLayoutView>, CompileFailure>
    decreases modules.len(),
{
    if modules.len() == 0 {
        Ok(layouts)
    } else {
        match with_modules(layouts, modules.drop_last()) {
            Err(e) => Err(e),
            Ok(l) => with_globals(l, modules.last().0, modules.last().1.globals),
        }
    }
}

/// The views of `modules`, each with the stages that see it.
pub open spec fn staged_views(modules: Seq<(ShaderStages, &ModuleInfo)>) -> Seq<
    (ShaderStages, ModuleInfoView),
> {
    modules.map_values(|m: (ShaderStages, &ModuleInfo)| (m.0, m.1@))
}

/// Puts one module-level variable into `layouts`.
fn add_global(layouts: &mut Vec<BindingGroupLayout>, visibility: ShaderStages, g: &GlobalVariable) -> (r:
    Result<(), CompileFailure>)
    ensures
        match with_global(layout_views(old(layouts)@), visibility, g@) {
            Ok(l) => r.is_ok() && layout_views(final(layouts)@) == l,
            Err(e) => r == Err::<(), CompileFailure>(e),
        },
{
    let b = match g.binding {
        None => {
            return Ok(());
        },
        Some(b) => b,
    };
    if !has_binding_type(&g.ty) {
        return Err(
            CompileFailure::UnsupportedBinding { group: b.group, binding: b.binding, ty: g.ty },
        );
    }
    let ty = naga_type_to_binding_group_type(&g.ty);
    let ghost start = layout_views(layouts@);
    let group = b.group as usize;
    while layouts.len() <= group
        invariant
            group == b.group,
            start.len() <= layouts.len(),
            layouts.len() <= start.len() || layouts.len() <= group + 1,
            layout_views(layouts@) == start + Seq::new(
                (layouts.len() - start.len()) as nat,
                |i: int| empty_group(),
            ),
        decreases group + 1 - layouts.len(),
    {
        let ghost prev = layout_views(layouts@);
        layouts.push(BindingGroupLayout::empty());
        assert(layout_views(layouts@) =~= prev.push(empty_group()));
        assert(layout_views(layouts@) =~= start + Seq::new(
            (layouts.len() - start.len()) as nat,
            |i: int| empty_group(),
        ));
    }
    assert(layout_views(layouts@) =~= grown_to(start, b.group));
    let ghost grown = layout_views(layouts@);
    let mut target = BindingGroupLayout::empty();
    std::mem::swap(&mut layouts[group], &mut target);
    assert(target@ == grown[group as int]);
    match &g.name {
        Some(n) => {
            let mut label = match target.label {
                Some(s) => s,
                None => String::new(),
            };
            if !label.as_str().is_empty() {
                proof {
                    reveal_strlit(",");
                }
                label.append(",");
                assert(label@ =~= grown[group as int].label.unwrap() + seq![',']);
            }
            label.append(n.as_str());
            assert(label@ =~= label_with(grown[group as int].label, n@));
            target.label = Some(label);
        },
        None => {},
    }
    target.entries.push(BindingEntry { binding: b.binding, visibility, ty, count: None });
    layouts[group] = target;
    assert(layout_views(layouts@) =~= with_global(start, visibility, g@).unwrap());
    Ok(())
}

/// The bind group layouts that the modules `modules` ask for, each module
/// with the stages that see it. Every module-level variable with a binding
/// gives one entry, in the order in which the modules list the variables; the
/// result has a group for every index up to the largest one named. Fails at
/// the first bound variable whose type no binding kind stands for.
pub fn get_binding_layout(modules: &[(ShaderStages, &ModuleInfo)]) -> (r: RendererResult<
    Vec<BindingGroupLayout>,
>)
    ensures
        match with_modules(Seq::empty(), staged_views(modules@)) {
            Ok(l) => r matches Ok(v) && layout_views(v@) == l,
            Err(e) => r matches Err(RendererError::ShaderCompile(x)) && x == e,
        },
        modules@.len() == 1 && bound_once(modules@[0].1@.globals) ==> (r matches Ok(v)
            ==> forall|g: int| 0 <= g < v.len() ==> (#[trigger] v@[g]).well_formed()),
{
    let ghost staged = staged_views(modules@);
    let mut layouts: Vec<BindingGroupLayout> = Vec::new();
    assert(layout_views(layouts@) =~= Seq::empty());
    let mut m: usize = 0;
    while m < modules.len()
        invariant
            0 <= m <= modules.len(),
            staged == staged_views(modules@),
            with_modules(Seq::empty(), staged.take(m as int)) == Ok::<
                Seq<BindingGroupLayoutView>,
                CompileFailure,
            >(layout_views(layouts@)),
        decreases modules.len() - m,
    {
        let visibility = modules[m].0;
        let globals = &modules[m].1.globals;
        let ghost before = layout_views(layouts@);
        let ghost here = staged[m as int].1.globals;
        proof {
            assert(staged.take(m + 1).drop_last() =~= staged.take(m as int));
            assert(staged.take(m + 1).last() == staged[m as int]);
            assert(here == globals@.map_values(|g: GlobalVariable| g@));
        }
        let mut i: usize = 0;
        while i < globals.len()
            invariant
                0 <= i <= globals.len(),
                m < modules.len(),
                staged == staged_views(modules@),
                here == globals@.map_values(|g: GlobalVariable| g@),
                here == staged[m as int].1.globals,
                visibility == staged[m as int].0,
                staged.take(m + 1).drop_last() == staged.take(m as int),
                staged.take(m + 1).last() == staged[m as int],
                with_modules(Seq::empty(), staged.take(m as int)) == Ok::<
                    Seq<BindingGroupLayoutView>,
                    CompileFailure,
                >(before),
                with_globals(before, visibility, here.take(i as int)) == Ok::<
                    Seq<BindingGroupLayoutView>,
                    CompileFailure,
                >(layout_views(layouts@)),
            decreases globals.len() - i,
        {
            proof {
                assert(here.take(i + 1).drop_last() =~= here.take(i as int));
                assert(here.take(i + 1).last() == here[i as int]);
            }
            match add_global(&mut layouts, visibility, &globals[i]) {
                Ok(()) => {},
                Err(e) => {
                    proof {
                        lemma_globals_error_stays(before, visibility, here, (i + 1) as int);
                        lemma_modules_error_stays(Seq::empty(), staged, (m + 1) as int);
                    }
                    return Err(RendererError::ShaderCompile(e));
                },
            }
            i += 1;
        }
        proof {
            assert(here.take(i as int) =~= here);
        }
        m += 1;
    }
    proof {
        assert(staged.take(m as int) =~= staged);
        if modules@.len() == 1 && bound_once(modules@[0].1@.globals) {
            let visibility = staged[0].0;
            let globals = staged[0].1.globals;
            reveal_with_fuel(with_modules, 2);
            assert(staged.drop_last() =~= Seq::empty());
            assert(with_modules(Seq::empty(), staged) == with_globals(
                Seq::empty(),
                visibility,
                globals,
            ));
            lemma_inferred_groups_are_well_formed(visibility, globals);
            assert forall|g: int| 0 <= g < layouts.len() implies (
            #[trigger] layouts@[g]).well_formed() by {
                assert(layout_views(layouts@)[g].entries == layouts@[g].entries@);
            }
        }
    }
    Ok(layouts)
}

proof fn lemma_globals_error_stays(
    layouts: Seq<BindingGroupLayoutView>,
    visibility: ShaderStages,
    globals: Seq<GlobalVariableView>,
    upto: int,
)
    requires
        0 <= upto <= globals.len(),
        with_globals(layouts, visibility, globals.take(upto)).is_err(),
    ensures
        with_globals(layouts, visibility, globals) == with_globals(
            layouts,
            visibility,
            globals.take(upto),
        ),
    decreases globals.len() - upto,
{
    if upto == globals.len() {
        assert(globals.take(upto) =~= globals);
    } else {
        assert(globals.take(upto + 1).drop_last() =~= globals.take(upto));
        lemma_globals_error_stays(layouts, visibility, globals, upto + 1);
    }
}

proof fn lemma_modules_error_stays(
    layouts: Seq<BindingGroupLayoutView>,
    modules: Seq<(ShaderStages, ModuleInfoView)>,
    upto: int,
)
    requires
        0 <= upto <= modules.len(),
        with_modules(layouts, modules.take(upto)).is_err(),
    ensures
        with_modules(layouts, modules) == with_modules(layouts, modules.take(upto)),
    decreases modules.len() - upto,
{
    if upto == modules.len() {
        assert(modules.take(upto) =~= modules);
    } else {
        assert(modules.take(upto + 1).drop_last() =~= modules.take(upto));
        lemma_modules_error_stays(layouts, modules, upto + 1);
    }
}

/// The entry points of `modules`, module after module.
pub open spec fn staged_entry_points(modules: Seq<(ShaderStages, ModuleInfoView)>) -> Seq<
    EntryPointView,
> {
    all_entry_points(modules.map_values(|m: (ShaderStages, ModuleInfoView)| m.1))
}

/// What compiling the modules `modules`, each with the stages that see it,
/// comes to: the vertex entry point, the fragment entry point and the
/// inferred layouts. A missing entry point is reported before a binding
/// without binding kind.
pub open spec fn compile_outcome(modules: Seq<(ShaderStages, ModuleInfoView)>) -> Result<
    (Seq<char>, Seq<char>, Seq<BindingGroupLayoutView>),
    CompileFailure,
> {
    match select_entry_points(staged_entry_points(modules)) {
        Err(e) => Err(e),
        Ok((v, f)) => match with_modules(Seq::empty(), modules) {
            Err(e) => Err(e),
            Ok(l) => Ok((v, f, l)),
        },
    }
}

/// The parsed modules of a shader.
pub enum ShaderModule {
    /// One module holds both stages.
    Wgsl { module: Module },
    /// Each stage has its own module.
    Glsl { vertex: Module, fragment: Module },
}

/// A compiled shader: its entry points, its parsed modules and the bind
/// group layouts it asks for.
pub struct Shader {
    name: String,
    vertex_entry_point: String,
    fragment_entry_point: String,
    module: ShaderModule,
    layout: Vec<BindingGroupLayout>,
    ignores_vertex_entry_points: bool,
    ignores_fragment_entry_points: bool,
}

/// What a `Shader` holds.
pub struct ShaderView {
    pub name: Seq<char>,
    pub vertex_entry_point: Seq<char>,
    pub fragment_entry_point: Seq<char>,
    pub vertex_module: ModuleInfoView,
    pub fragment_module: ModuleInfoView,
    pub layout: Seq<BindingGroupLayoutView>,
    /// The modules declare further vertex entry points, which are not used.
    pub ignores_vertex_entry_points: bool,
    /// The modules declare further fragment entry points, which are not
    /// used.
    pub ignores_fragment_entry_points: bool,
}

impl View for Shader {
    type V = ShaderView;

    closed spec fn view(&self) -> ShaderView {
        ShaderView {
            name: self.name@,
            vertex_entry_point: self.vertex_entry_point@,
            fragment_entry_point: self.fragment_entry_point@,
            vertex_module: match self.module {
                ShaderModule::Wgsl { module } => module_contents(module),
                ShaderModule::Glsl { vertex, .. } => module_contents(vertex),
            },
            fragment_module: match self.module {
                ShaderModule::Wgsl { module } => module_contents(module),
                ShaderModule::Glsl { fragment, .. } => module_contents(fragment),
            },
            layout: layout_views(self.layout@),
            ignores_vertex_entry_points: self.ignores_vertex_entry_points,
            ignores_fragment_entry_points: self.ignores_fragment_entry_points,
        }
    }
}

/// The shader of the name `name` that compiling the modules `modules` gives,
/// where it gives the entry points `vertex` and `fragment` and the layouts
/// `layout`: the first module holds the vertex stage and the last one the
/// fragment stage.
pub open spec fn compiled_shader(
    name: Seq<char>,
    modules: Seq<(ShaderStages, ModuleInfoView)>,
    vertex: Seq<char>,
    fragment: Seq<char>,
    layout: Seq<BindingGroupLayoutView>,
) -> ShaderView {
    ShaderView {
        name,
        vertex_entry_point: vertex,
        fragment_entry_point: fragment,
        vertex_module: modules.first().1,
        fragment_module: modules.last().1,
        layout,
        ignores_vertex_entry_points: count_with_stage(
            staged_entry_points(modules),
            ShaderStage::Vertex,
        ) > 1,
        ignores_fragment_entry_points: count_with_stage(
            staged_entry_points(modules),
            ShaderStage::Fragment,
        ) > 1,
    }
}

/// `r` is what compiling the modules `modules` under the name `name`
/// returns: the shader, or why there is none.
pub open spec fn shader_of(
    name: Seq<char>,
    modules: Seq<(ShaderStages, ModuleInfoView)>,
    r: RendererResult<Shader>,
) -> bool {
    match compile_outcome(modules) {
        Err(f) => r matches Err(e) && e@ == RendererErrorView::ShaderCompile(f),
        Ok((v, f, l)) => r matches Ok(s) && s@ == compiled_shader(name, modules, v, f, l),
    }
}

impl Shader {
    /// Compiles a shader from one parsed module that holds both stages.
    pub fn from_wgsl_module(name: &str, module: Module) -> (r: RendererResult<Shader>)
        ensures
            shader_of(
                name@,
                seq![(ShaderStages { vertex: true, fragment: true }, module_contents(module))],
                r,
            ),
    {
        let info = read_module(&module);
        let ghost staged = seq![
            (ShaderStages { vertex: true, fragment: true }, module_contents(module)),
        ];
        let mut plain: Vec<&ModuleInfo> = Vec::new();
        plain.push(&info);
        let mut with_stages: Vec<(ShaderStages, &ModuleInfo)> = Vec::new();
        with_stages.push((ShaderStages::vertex_fragment(), &info));
        proof {
            assert(staged_views(with_stages@) =~= staged);
            assert(module_views(plain@) =~= staged.map_values(
                |m: (ShaderStages, ModuleInfoView)| m.1,
            ));
        }
        let (vertex_entry_point, fragment_entry_point) = match get_entry_points(plain.as_slice()) {
            Ok(p) => p,
            Err(e) => {
                return Err(e);
            },
        };
        let layout = match get_binding_layout(with_stages.as_slice()) {
            Ok(l) => l,
            Err(e) => {
                return Err(e);
            },
        };
        let ignores_vertex_entry_points = has_ignored_entry_points(
            plain.as_slice(),
            ShaderStage::Vertex,
        );
        let ignores_fragment_entry_points = has_ignored_entry_points(
            plain.as_slice(),
            ShaderStage::Fragment,
        );
        Ok(
            Shader {
                name: name.to_owned(),
                vertex_entry_point,
                fragment_entry_point,
                module: ShaderModule::Wgsl { module },
                layout,
                ignores_vertex_entry_points,
                ignores_fragment_entry_points,
            },
        )
    }

    /// Compiles a shader from a parsed vertex module and a parsed fragment
    /// module.
    pub fn from_glsl_modules(name: &str, vertex: Module, fragment: Module) -> (r: RendererResult<
        Shader,
    >)
        ensures
            shader_of(
                name@,
                seq![
                    (ShaderStages { vertex: true, fragment: false }, module_contents(vertex)),
                    (ShaderStages { vertex: false, fragment: true }, module_contents(fragment)),
                ],
                r,
            ),
    {
        let vertex_info = read_module(&vertex);
        let fragment_info = read_module(&fragment);
        let ghost staged = seq![
            (ShaderStages { vertex: true, fragment: false }, module_contents(vertex)),
            (ShaderStages { vertex: false, fragment: true }, module_contents(fragment)),
        ];
        let mut plain: Vec<&ModuleInfo> = Vec::new();
        plain.push(&vertex_info);
        plain.push(&fragment_info);
        let mut with_stages: Vec<(ShaderStages, &ModuleInfo)> = Vec::new();
        with_stages.push((ShaderStages::vertex_only(), &vertex_info));
        with_stages.push((ShaderStages::fragment_only(), &fragment_info));
        proof {
            assert(staged_views(with_stages@) =~= staged);
            assert(module_views(plain@) =~= staged.map_values(
                |m: (ShaderStages, ModuleInfoView)| m.1,
            ));
        }
        let (vertex_entry_point, fragment_entry_point) = match get_entry_points(plain.as_slice()) {
            Ok(p) => p,
            Err(e) => {
                return Err(e);
            },
        };
        let layout = match get_binding_layout(with_stages.as_slice()) {
            Ok(l) => l,
            Err(e) => {
                return Err(e);
            },
        };
        let ignores_vertex_entry_points = has_ignored_entry_points(
            plain.as_slice(),
            ShaderStage::Vertex,
        );
        let ignores_fragment_entry_points = has_ignored_entry_points(
            plain.as_slice(),
            ShaderStage::Fragment,
        );
        Ok(
            Shader {
                name: name.to_owned(),
                vertex_entry_point,
                fragment_entry_point,
                module: ShaderModule::Glsl { vertex, fragment },
                layout,
                ignores_vertex_entry_points,
                ignores_fragment_entry_points,
            },
        )
    }

    /// Compiles what the WGSL front end made of a source that holds both
    /// stages. A source that the front end rejected gives the front end's
    /// diagnostic.
    pub fn new_wgsl(name: &str, parsed: Result<Module, ParseDiagnostic>) -> (r: RendererResult<
        Shader,
    >)
        ensures
            match parsed {
                Err(d) => r matches Err(e) && e@ == RendererErrorView::WgslShaderParse(d@),
                Ok(module) => shader_of(
                    name@,
                    seq![(ShaderStages { vertex: true, fragment: true }, module_contents(module))],
                    r,
                ),
            },
    {
        match parsed {
            Err(d) => Err(RendererError::WgslShaderParse(d)),
            Ok(module) => Shader::from_wgsl_module(name, module),
        }
    }

    /// Compiles what the GLSL front end made of a vertex source and of a
    /// fragment source. Where the front end rejected the vertex source, its
    /// diagnostics of that source are returned; else, where it rejected the
    /// fragment source, those of the fragment source.
    pub fn new_glsl(
        name: &str,
        vertex: Result<Module, Vec<ParseDiagnostic>>,
        fragment: Result<Module, Vec<ParseDiagnostic>>,
    ) -> (r: RendererResult<Shader>)
        ensures
            match vertex {
                Err(d) => r matches Err(e) && e@ == RendererErrorView::GlslShaderParse(
                    d@.map_values(|x: ParseDiagnostic| x@),
                ),
                Ok(v) => match fragment {
                    Err(d) => r matches Err(e) && e@ == RendererErrorView::GlslShaderParse(
                        d@.map_values(|x: ParseDiagnostic| x@),
                    ),
                    Ok(f) => shader_of(
                        name@,
                        seq![
                            (ShaderStages { vertex: true, fragment: false }, module_contents(v)),
                            (ShaderStages { vertex: false, fragment: true }, module_contents(f)),
                        ],
                        r,
                    ),
                },
            },
    {
        let vertex = match vertex {
            Err(d) => {
                return Err(RendererError::GlslShaderParse(d));
            },
            Ok(m) => m,
        };
        let fragment = match fragment {
            Err(d) => {
                return Err(RendererError::GlslShaderParse(d));
            },
            Ok(m) => m,
        };
        Shader::from_glsl_modules(name, vertex, fragment)
    }

    /// The shader's name.
    pub fn name(&self) -> (r: &str)
        ensures
            r@ == self@.name,
    {
        self.name.as_str()
    }

    /// The parsed module that holds the vertex stage.
    pub fn get_vertex_module(&self) -> (r: &Module)
        ensures
            module_contents(*r) == self@.vertex_module,
    {
        match &self.module {
            ShaderModule::Wgsl { module } => module,
            ShaderModule::Glsl { vertex, .. } => vertex,
        }
    }

    /// The name of the vertex entry point.
    pub fn get_vertex_entry_point(&self) -> (r: &str)
        ensures
            r@ == self@.vertex_entry_point,
    {
        self.vertex_entry_point.as_str()
    }

    /// The parsed module that holds the fragment stage.
    pub fn get_fragment_module(&self) -> (r: &Module)
        ensures
            module_contents(*r) == self@.fragment_module,
    {
        match &self.module {
            ShaderModule::Wgsl { module } => module,
            ShaderModule::Glsl { fragment, .. } => fragment,
        }
    }

    /// The name of the fragment entry point.
    pub fn get_fragment_entry_point(&self) -> (r: &str)
        ensures
            r@ == self@.fragment_entry_point,
    {
        self.fragment_entry_point.as_str()
    }

    /// Whether the modules declare vertex entry points that are not used.
    pub fn ignores_vertex_entry_points(&self) -> (r: bool)
        ensures
            r == self@.ignores_vertex_entry_points,
    {
        self.ignores_vertex_entry_points
    }

    /// Whether the modules declare fragment entry points that are not used.
    pub fn ignores_fragment_entry_points(&self) -> (r: bool)
        ensures
            r == self@.ignores_fragment_entry_points,
    {
        self.ignores_fragment_entry_points
    }

    /// The bind group layouts that the shader asks for, by group index.
    pub fn get_layout(&self) -> (r: &[BindingGroupLayout])
        ensures
            layout_views(r@) == self@.layout,
    {
        self.layout.as_slice()
    }

    /// Gives up the shader for its parsed modules.
    pub fn into_modules(self) -> (r: ShaderModule)
        ensures
            match r {
                ShaderModule::Wgsl { module } => module_contents(module) == self@.vertex_module
                    && module_contents(module) == self@.fragment_module,
                ShaderModule::Glsl { vertex, fragment } => module_contents(vertex)
                    == self@.vertex_module && module_contents(fragment) == self@.fragment_module,
            },
    {
        self.module
    }

    /// Whether the expected layouts accept the layouts that the shader asks
    /// for.
    pub fn layout_matches(&self, expected: &[BindingGroupLayout]) -> (r: bool)
        ensures
            r == layouts_compatible(self@.layout, layout_views(expected@)),
    {
        layout_matches(self.layout.as_slice(), expected)
    }

    /// All reasons why the expected layouts do not accept the layouts that
    /// the shader asks for. The list is empty exactly when they do.
    pub fn layout_mismatches(&self, expected: &[BindingGroupLayout]) -> (r: Vec<LayoutMismatch>)
        ensures
            r@ == mismatches(self@.layout, layout_views(expected@)),
            r.len() == 0 <==> layouts_compatible(self@.layout, layout_views(expected@)),
    {
        layout_mismatches(self.layout.as_slice(), expected)
    }
}

/// Where exactly one entry point serves the vertex stage and exactly one
/// the fragment stage, these two are selected.
pub proof fn lemma_one_entry_point_per_stage(eps: Seq<EntryPointView>, v: int, f: int)
    requires
        0 <= v < eps.len(),
        0 <= f < eps.len(),
        forall|k: int| 0 <= k < eps.len() ==> (eps[k].stage == ShaderStage::Vertex <==> k == v),
        forall|k: int| 0 <= k < eps.len() ==> (eps[k].stage == ShaderStage::Fragment <==> k == f),
    ensures
        select_entry_points(eps) == Ok::<(Seq<char>, Seq<char>), CompileFailure>(
            (eps[v].name, eps[f].name),
        ),
{
    lemma_first_with_stage(eps, ShaderStage::Vertex);
    lemma_first_with_stage(eps, ShaderStage::Fragment);
    assert(eps[v].stage == ShaderStage::Vertex);
    assert(eps[f].stage == ShaderStage::Fragment);
}

/// Where no entry point serves the vertex stage and one serves the fragment
/// stage, selecting fails for want of a vertex entry point, and so does
/// compiling.
pub proof fn lemma_missing_vertex_entry_point(modules: Seq<(ShaderStages, ModuleInfoView)>, f: int)
    requires
        0 <= f < staged_entry_points(modules).len(),
        staged_entry_points(modules)[f].stage == ShaderStage::Fragment,
        forall|k: int|
            0 <= k < staged_entry_points(modules).len() ==> staged_entry_points(modules)[k].stage
                != ShaderStage::Vertex,
    ensures
        select_entry_points(staged_entry_points(modules)) == Err::<
            (Seq<char>, Seq<char>),
            CompileFailure,
        >(CompileFailure::NoVertexEntryPoint),
        compile_outcome(modules) == Err::<
            (Seq<char>, Seq<char>, Seq<BindingGroupLayoutView>),
            CompileFailure,
        >(CompileFailure::NoVertexEntryPoint),
{
    let eps = staged_entry_points(modules);
    lemma_first_with_stage(eps, ShaderStage::Vertex);
    lemma_first_with_stage(eps, ShaderStage::Fragment);
    assert(eps[f].stage == ShaderStage::Fragment);
}

/// Of two entry points that serve the same stage, the one declared first
/// is selected, where none before it serves that stage.
pub proof fn lemma_first_declared_wins(
    eps: Seq<EntryPointView>,
    stage: ShaderStage,
    first: int,
    second: int,
)
    requires
        0 <= first < second < eps.len(),
        eps[first].stage == stage,
        eps[second].stage == stage,
        forall|k: int| 0 <= k < first ==> eps[k].stage != stage,
    ensures
        first_with_stage(eps, stage) == Some(eps[first].name),
{
    lemma_first_with_stage(eps, stage);
    assert(eps[first].stage == stage);
}

/// Every bound variable of `globals` has a type that a binding kind stands
/// for.
pub open spec fn bindings_supported(globals: Seq<GlobalVariableView>) -> bool {
    forall|k: int|
        0 <= k < globals.len() && (#[trigger] globals[k]).binding.is_some() ==> binding_type_of(
            globals[k].ty,
        ).is_some()
}

/// Where every bound variable has a type that a binding kind stands for,
/// the layouts can be inferred.
pub proof fn lemma_supported_globals_give_layouts(
    layouts: Seq<BindingGroupLayoutView>,
    visibility: ShaderStages,
    globals: Seq<GlobalVariableView>,
)
    requires
        bindings_supported(globals),
    ensures
        with_globals(layouts, visibility, globals).is_ok(),
    decreases globals.len(),
{
    if globals.len() > 0 {
        let front = globals.drop_last();
        assert forall|k: int| 0 <= k < front.len() && (#[trigger] front[k]).binding.is_some() implies
            binding_type_of(front[k].ty).is_some() by {
            assert(front[k] == globals[k]);
        }
        lemma_supported_globals_give_layouts(layouts, visibility, front);
        assert(globals.last() == globals[globals.len() - 1]);
    }
}

/// Where every bound variable of every module has a type that a binding
/// kind stands for, the layouts can be inferred.
pub proof fn lemma_supported_modules_give_layouts(
    layouts: Seq<BindingGroupLayoutView>,
    modules: Seq<(ShaderStages, ModuleInfoView)>,
)
    requires
        forall|m: int| 0 <= m < modules.len() ==> bindings_supported((#[trigger] modules[m]).1.globals),
    ensures
        with_modules(layouts, modules).is_ok(),
    decreases modules.len(),
{
    if modules.len() > 0 {
        let front = modules.drop_last();
        assert forall|m: int| 0 <= m < front.len() implies bindings_supported(
            (#[trigger] front[m]).1.globals,
        ) by {
            assert(front[m] == modules[m]);
        }
        lemma_supported_modules_give_layouts(layouts, front);
        assert(modules.last() == modules[modules.len() - 1]);
        lemma_supported_globals_give_layouts(
            with_modules(layouts, front).unwrap(),
            modules.last().0,
            modules.last().1.globals,
        );
    }
}

/// A shader whose modules declare exactly one vertex and exactly one
/// fragment entry point, and whose bound variables all have a type that a
/// binding kind stands for, compiles, and its entry points are the two
/// declared.
pub proof fn lemma_valid_shader_compiles(
    modules: Seq<(ShaderStages, ModuleInfoView)>,
    v: int,
    f: int,
)
    requires
        0 <= v < staged_entry_points(modules).len(),
        0 <= f < staged_entry_points(modules).len(),
        forall|k: int|
            0 <= k < staged_entry_points(modules).len() ==> (staged_entry_points(modules)[k].stage
                == ShaderStage::Vertex <==> k == v),
        forall|k: int|
            0 <= k < staged_entry_points(modules).len() ==> (staged_entry_points(modules)[k].stage
                == ShaderStage::Fragment <==> k == f),
        forall|m: int| 0 <= m < modules.len() ==> bindings_supported((#[trigger] modules[m]).1.globals),
    ensures
        compile_outcome(modules) matches Ok(parts) && parts.0 == staged_entry_points(
            modules,
        )[v].name && parts.1 == staged_entry_points(modules)[f].name,
{
    lemma_one_entry_point_per_stage(staged_entry_points(modules), v, f);
    lemma_supported_modules_give_layouts(Seq::empty(), modules);
}

/// The number of groups that the variables `globals` ask for: one more than
/// the largest group index that a bound variable names, or none.
pub open spec fn groups_needed(globals: Seq<GlobalVariableView>) -> nat
    decreases globals.len(),
{
    if globals.len() == 0 {
        0
    } else {
        let front = groups_needed(globals.drop_last());
        match globals.last().binding {
            Some(b) => if b.group + 1 > front {
                (b.group + 1) as nat
            } else {
                front
            },
            None => front,
        }
    }
}

/// The entries that the variables `globals` of a module seen by
/// `visibility` give to the group `group`: one for each variable bound in
/// that group, in the order of `globals`.
pub open spec fn entries_of_group(
    globals: Seq<GlobalVariableView>,
    visibility: ShaderStages,
    group: int,
) -> Seq<BindingEntry>
    decreases globals.len(),
{
    if globals.len() == 0 {
        Seq::empty()
    } else {
        let front = entries_of_group(globals.drop_last(), visibility, group);
        match (globals.last().binding, binding_type_of(globals.last().ty)) {
            (Some(b), Some(ty)) => if b.group == group {
                front.push(BindingEntry { binding: b.binding, visibility, ty, count: None })
            } else {
                front
            },
            _ => front,
        }
    }
}

/// Where the layouts of the variables `globals` can be inferred, starting
/// from the layouts `start`, there are as many groups as `start` has or
/// the variables ask for, whichever is more, and each group holds the
/// entries it had in `start` and then the entries that the variables give
/// it.
pub proof fn lemma_layouts_by_group(
    start: Seq<BindingGroupLayoutView>,
    visibility: ShaderStages,
    globals: Seq<GlobalVariableView>,
)
    requires
        with_globals(start, visibility, globals).is_ok(),
    ensures
        ({
            let layouts = with_globals(start, visibility, globals).unwrap();
            &&& layouts.len() == if start.len() > groups_needed(globals) {
                start.len()
            } else {
                groups_needed(globals)
            }
            &&& forall|g: int|
                0 <= g < layouts.len() ==> (#[trigger] layouts[g]).entries == if g < start.len() {
                    start[g].entries
                } else {
                    Seq::empty()
                } + entries_of_group(globals, visibility, g)
        }),
    decreases globals.len(),
{
    let layouts = with_globals(start, visibility, globals).unwrap();
    if globals.len() == 0 {
        assert forall|g: int| 0 <= g < layouts.len() implies (#[trigger] layouts[g]).entries
            == start[g].entries + entries_of_group(globals, visibility, g) by {
            assert(start[g].entries + Seq::<BindingEntry>::empty() =~= start[g].entries);
        }
    } else {
        let front = globals.drop_last();
        let last = globals.last();
        lemma_layouts_by_group(start, visibility, front);
        let before = with_globals(start, visibility, front).unwrap();
        assert(with_global(before, visibility, last) == Ok::<
            Seq<BindingGroupLayoutView>,
            CompileFailure,
        >(layouts));
        match last.binding {
            None => {},
            Some(b) => {
                let ty = binding_type_of(last.ty).unwrap();
                let grown = grown_to(before, b.group);
                let entry = BindingEntry { binding: b.binding, visibility, ty, count: None };
                assert forall|g: int| 0 <= g < layouts.len() implies (
                #[trigger] layouts[g]).entries == if g < start.len() {
                    start[g].entries
                } else {
                    Seq::empty()
                } + entries_of_group(globals, visibility, g) by {
                    let had = if g < start.len() {
                        start[g].entries
                    } else {
                        Seq::empty()
                    };
                    if g < before.len() {
                        assert(grown[g] == before[g]);
                    } else {
                        assert(grown[g] == empty_group());
                        assert(had =~= Seq::<BindingEntry>::empty());
                        assert(entries_of_group(front, visibility, g) =~= Seq::<
                            BindingEntry,
                        >::empty()) by {
                            lemma_no_entries_beyond_groups(front, visibility, g);
                        }
                    }
                    if g == b.group {
                        assert(had + entries_of_group(front, visibility, g).push(entry) =~= (had
                            + entries_of_group(front, visibility, g)).push(entry));
                    }
                }
            },
        }
    }
}

/// The variables give no entries to a group beyond those they ask for.
pub proof fn lemma_no_entries_beyond_groups(
    globals: Seq<GlobalVariableView>,
    visibility: ShaderStages,
    group: int,
)
    requires
        group >= groups_needed(globals),
    ensures
        entries_of_group(globals, visibility, group) == Seq::<BindingEntry>::empty(),
    decreases globals.len(),
{
    if globals.len() > 0 {
        lemma_no_entries_beyond_groups(globals.drop_last(), visibility, group);
    }
}

/// No two bound variables of `globals` name the same group and binding.
pub open spec fn bound_once(globals: Seq<GlobalVariableView>) -> bool {
    forall|i: int, j: int|
        0 <= i < j < globals.len() && (#[trigger] globals[i]).binding.is_some()
            && (#[trigger] globals[j]).binding.is_some() ==> globals[i].binding
            != globals[j].binding
}

/// Every entry that the variables give to a group comes from a variable
/// that is bound in that group at the entry's binding index.
pub proof fn lemma_entries_come_from_variables(
    globals: Seq<GlobalVariableView>,
    visibility: ShaderStages,
    group: int,
    k: int,
)
    requires
        0 <= k < entries_of_group(globals, visibility, group).len(),
    ensures
        exists|i: int|
            0 <= i < globals.len() && ((#[trigger] globals[i]).binding matches Some(b) && b.group
                == group && b.binding == entries_of_group(globals, visibility, group)[k].binding),
    decreases globals.len(),
{
    let front = globals.drop_last();
    let entries = entries_of_group(globals, visibility, group);
    let before = entries_of_group(front, visibility, group);
    if k < before.len() {
        lemma_entries_come_from_variables(front, visibility, group, k);
        let i = choose|i: int|
            0 <= i < front.len() && ((#[trigger] front[i]).binding matches Some(b) && b.group
                == group && b.binding == before[k].binding);
        assert(globals[i] == front[i]);
        assert(entries[k] == before[k]);
    } else {
        let i = globals.len() - 1;
        assert(globals[i] == globals.last());
    }
}

/// Where no two bound variables name the same group and binding, the
/// entries that the variables give to a group have different binding
/// indices.
pub proof fn lemma_entries_of_group_are_unique(
    globals: Seq<GlobalVariableView>,
    visibility: ShaderStages,
    group: int,
)
    requires
        bound_once(globals),
    ensures
        bindings_unique(entries_of_group(globals, visibility, group)),
    decreases globals.len(),
{
    if globals.len() > 0 {
        let front = globals.drop_last();
        let last = globals.last();
        assert forall|i: int, j: int|
            0 <= i < j < front.len() && (#[trigger] front[i]).binding.is_some()
                && (#[trigger] front[j]).binding.is_some() implies front[i].binding
            != front[j].binding by {
            assert(front[i] == globals[i] && front[j] == globals[j]);
        }
        lemma_entries_of_group_are_unique(front, visibility, group);
        let entries = entries_of_group(globals, visibility, group);
        let before = entries_of_group(front, visibility, group);
        if entries.len() > before.len() {
            assert forall|a: int, b: int| 0 <= a < b < entries.len() implies entries[a].binding
                != entries[b].binding by {
                if b == entries.len() - 1 {
                    lemma_entries_come_from_variables(front, visibility, group, a);
                    let i = choose|i: int|
                        0 <= i < front.len() && ((#[trigger] front[i]).binding matches Some(x)
                            && x.group == group && x.binding == before[a].binding);
                    assert(globals[i] == front[i]);
                    assert(globals[globals.len() - 1] == last);
                    assert(globals[i].binding != globals[globals.len() - 1].binding);
                } else {
                    assert(entries[a] == before[a] && entries[b] == before[b]);
                }
            }
        }
    }
}

/// The groups inferred from the variables of one module are well formed
/// where no two bound variables name the same group and binding: in every
/// group each binding index occurs once.
pub proof fn lemma_inferred_groups_are_well_formed(
    visibility: ShaderStages,
    globals: Seq<GlobalVariableView>,
)
    requires
        bound_once(globals),
        with_globals(Seq::empty(), visibility, globals).is_ok(),
    ensures
        forall|g: int|
            0 <= g < with_globals(Seq::empty(), visibility, globals).unwrap().len()
                ==> bindings_unique(
                (#[trigger] with_globals(Seq::empty(), visibility, globals).unwrap()[g]).entries,
            ),
{
    let layouts = with_globals(Seq::empty(), visibility, globals).unwrap();
    lemma_layouts_by_group(Seq::empty(), visibility, globals);
    assert forall|g: int| 0 <= g < layouts.len() implies bindings_unique(
        (#[trigger] layouts[g]).entries,
    ) by {
        lemma_entries_of_group_are_unique(globals, visibility, g);
        assert(layouts[g].entries =~= entries_of_group(globals, visibility, g));
    }
}

} // verus!
