//! Bind group layouts and the compatibility rule between the layout a shader
//! asks for and the layout a pipeline offers.

use crate::text::{decimal, decimal_text};
use vstd::prelude::*;
use vstd::string::StringExecFns;

verus! {

/// The set of shader stages that can see a binding.
#[derive(Clone, Copy, Debug, PartialEq, Eq, Structural)]
pub struct ShaderStages {
    pub vertex: bool,
    pub fragment: bool,
}

impl ShaderStages {
    /// `self` offers every stage that `other` asks for.
    pub open spec fn covers(self, other: ShaderStages) -> bool {
        &&& other.vertex ==> self.vertex
        &&& other.fragment ==> self.fragment
    }

    /// The empty set of stages.
    pub fn none() -> (r: ShaderStages)
        ensures
            r == (ShaderStages { vertex: false, fragment: false }),
    {
        ShaderStages { vertex: false, fragment: false }
    }

    /// The vertex stage alone.
    pub fn vertex_only() -> (r: ShaderStages)
        ensures
            r == (ShaderStages { vertex: true, fragment: false }),
    {
        ShaderStages { vertex: true, fragment: false }
    }

    /// The fragment stage alone.
    pub fn fragment_only() -> (r: ShaderStages)
        ensures
            r == (ShaderStages { vertex: false, fragment: true }),
    {
        ShaderStages { vertex: false, fragment: true }
    }

    /// Both the vertex and the fragment stage.
    pub fn vertex_fragment() -> (r: ShaderStages)
        ensures
            r == (ShaderStages { vertex: true, fragment: true }),
    {
        ShaderStages { vertex: true, fragment: true }
    }

    /// Whether `self` offers every stage that `other` asks for.
    pub fn contains(&self, other: &ShaderStages) -> (r: bool)
        ensures
            r == self.covers(*other),
    {
        (!other.vertex || self.vertex) && (!other.fragment || self.fragment)
    }
}

/// How a texture binding is sampled.
#[derive(Clone, Copy, Debug, PartialEq, Eq, Structural)]
pub enum TextureSampleType {
    Float { filterable: bool },
    Depth,
    Sint,
    Uint,
}

/// The dimensionality of a texture view.
#[derive(Clone, Copy, Debug, PartialEq, Eq, Structural)]
pub enum TextureViewDimension {
    D1,
    D2,
    D3,
    Cube,
}

/// How a sampler binding samples.
#[derive(Clone, Copy, Debug, PartialEq, Eq, Structural)]
pub enum SamplerBindingType {
    Filtering,
    NonFiltering,
    Comparison,
}

/// The kind of resource bound at a binding.
#[derive(Clone, Copy, Debug, PartialEq, Eq, Structural)]
pub enum BindingType {
    UniformBuffer,
    Texture {
        sample_type: TextureSampleType,
        view_dimension: TextureViewDimension,
        multisampled: bool,
    },
    Sampler(SamplerBindingType),
}

/// One resource binding of a bind group.
#[derive(Clone, Copy, Debug, PartialEq, Eq, Structural)]
pub struct BindingEntry {
    pub binding: u32,
    pub visibility: ShaderStages,
    pub ty: BindingType,
    pub count: Option<u32>,
}

/// The inferred kind is the less strict form of the expected one: a float
/// texture that is not filterable where a filterable one of the same
/// dimension and the same multisampling is expected, or a sampler that does
/// not filter where a filtering one is expected.
pub open spec fn relaxed_pair(inferred: BindingType, expected: BindingType) -> bool {
    ||| (expected matches BindingType::Texture {
        sample_type: TextureSampleType::Float { filterable: true },
        view_dimension,
        multisampled,
    } && inferred == (BindingType::Texture {
        sample_type: TextureSampleType::Float { filterable: false },
        view_dimension,
        multisampled,
    }))
    ||| (expected == BindingType::Sampler(SamplerBindingType::Filtering) && inferred
        == BindingType::Sampler(SamplerBindingType::NonFiltering))
}

/// The expected resource kind accepts the inferred one: the two are equal, or
/// the inferred one is the less strict form of the expected one. Every other
/// difference is a mismatch.
pub open spec fn kind_compatible(inferred: BindingType, expected: BindingType) -> bool {
    inferred == expected || relaxed_pair(inferred, expected)
}

/// The expected array count accepts the inferred one: where the expected side
/// names a count, the inferred side names one that is no larger.
pub open spec fn count_compatible(inferred: Option<u32>, expected: Option<u32>) -> bool {
    expected matches Some(e) ==> (inferred matches Some(i) && i <= e)
}

/// The expected entry accepts the inferred entry.
pub open spec fn entry_compatible(inferred: BindingEntry, expected: BindingEntry) -> bool {
    &&& inferred.binding == expected.binding
    &&& expected.visibility.covers(inferred.visibility)
    &&& kind_compatible(inferred.ty, expected.ty)
    &&& count_compatible(inferred.count, expected.count)
}

/// Whether the expected resource kind accepts the inferred one.
pub fn check_kind(inferred: &BindingType, expected: &BindingType) -> (r: bool)
    ensures
        r == kind_compatible(*inferred, *expected),
{
    if *inferred == *expected {
        return true;
    }
    match (*expected, *inferred) {
        (
            BindingType::Texture {
                sample_type: TextureSampleType::Float { filterable: true },
                view_dimension: expected_dimension,
                multisampled: expected_multisampled,
            },
            BindingType::Texture {
                sample_type: TextureSampleType::Float { filterable: false },
                view_dimension: inferred_dimension,
                multisampled: inferred_multisampled,
            },
        ) => expected_dimension == inferred_dimension && expected_multisampled
            == inferred_multisampled,
        (
            BindingType::Sampler(SamplerBindingType::Filtering),
            BindingType::Sampler(SamplerBindingType::NonFiltering),
        ) => true,
        _ => false,
    }
}

/// Whether the expected entry accepts the inferred entry.
pub fn check_entry(inferred: &BindingEntry, expected: &BindingEntry) -> (r: bool)
    ensures
        r == entry_compatible(*inferred, *expected),
{
    if inferred.binding != expected.binding {
        return false;
    }
    if !expected.visibility.contains(&inferred.visibility) {
        return false;
    }
    if !check_kind(&inferred.ty, &expected.ty) {
        return false;
    }
    match expected.count {
        None => true,
        Some(e) => match inferred.count {
            None => false,
            Some(i) => i <= e,
        },
    }
}

/// `s` with `e` put behind the last entry whose binding index is not larger
/// than that of `e`, looking from the back.
pub open spec fn insert_by_binding(s: Seq<BindingEntry>, e: BindingEntry) -> Seq<BindingEntry>
    decreases s.len(),
{
    if s.len() == 0 {
        seq![e]
    } else if s.last().binding <= e.binding {
        s.push(e)
    } else {
        insert_by_binding(s.drop_last(), e).push(s.last())
    }
}

/// The entries of `s` in ascending order of binding index; entries with the
/// same index keep the order they have in `s`.
pub open spec fn sorted_by_binding(s: Seq<BindingEntry>) -> Seq<BindingEntry>
    decreases s.len(),
{
    if s.len() == 0 {
        Seq::empty()
    } else {
        insert_by_binding(sorted_by_binding(s.drop_last()), s.last())
    }
}

/// The binding indices of `s` ascend.
pub open spec fn ordered_by_binding(s: Seq<BindingEntry>) -> bool {
    forall|i: int, j: int| 0 <= i <= j < s.len() ==> s[i].binding <= s[j].binding
}

/// No two entries of `s` share a binding index.
pub open spec fn bindings_unique(s: Seq<BindingEntry>) -> bool {
    forall|i: int, j: int| 0 <= i < j < s.len() ==> s[i].binding != s[j].binding
}

proof fn lemma_insert_at(s: Seq<BindingEntry>, e: BindingEntry, pos: int)
    requires
        0 <= pos <= s.len(),
        forall|j: int| pos <= j < s.len() ==> s[j].binding > e.binding,
        pos > 0 ==> s[pos - 1].binding <= e.binding,
    ensures
        insert_by_binding(s, e) == s.insert(pos, e),
    decreases s.len(),
{
    if s.len() == 0 {
        assert(seq![e] =~= s.insert(pos, e));
    } else if s.last().binding <= e.binding {
        assert(pos == s.len());
        assert(s.push(e) =~= s.insert(pos, e));
    } else {
        assert(pos < s.len());
        let t = s.drop_last();
        lemma_insert_at(t, e, pos);
        assert(t.insert(pos, e).push(s.last()) =~= s.insert(pos, e));
    }
}

/// Inserting keeps the entries: the result holds `e` once more than `s` and
/// is one longer.
pub proof fn lemma_insert_keeps_entries(s: Seq<BindingEntry>, e: BindingEntry)
    ensures
        insert_by_binding(s, e).len() == s.len() + 1,
        insert_by_binding(s, e).to_multiset() == s.to_multiset().insert(e),
    decreases s.len(),
{
    broadcast use vstd::seq_lib::group_to_multiset_ensures;

    if s.len() == 0 {
        assert(seq![e] =~= s.push(e));
    } else if s.last().binding <= e.binding {
    } else {
        let t = s.drop_last();
        lemma_insert_keeps_entries(t, e);
        assert(s =~= t.push(s.last()));
        assert(insert_by_binding(s, e).to_multiset() =~= s.to_multiset().insert(e));
    }
}

/// Inserting into an ascending sequence gives an ascending sequence.
pub proof fn lemma_insert_keeps_order(s: Seq<BindingEntry>, e: BindingEntry)
    requires
        ordered_by_binding(s),
    ensures
        ordered_by_binding(insert_by_binding(s, e)),
    decreases s.len(),
{
    if s.len() == 0 {
    } else if s.last().binding <= e.binding {
    } else {
        let t = s.drop_last();
        lemma_insert_keeps_order(t, e);
        lemma_insert_keeps_entries(t, e);
        let r = insert_by_binding(t, e);
        let out = r.push(s.last());
        assert forall|i: int, j: int| 0 <= i <= j < out.len() implies out[i].binding
            <= out[j].binding by {
            if j == out.len() - 1 && i < j {
                // every entry of `r` is `e` or an entry of `t`
                broadcast use vstd::seq_lib::group_to_multiset_ensures;

                assert(r.to_multiset().count(r[i]) > 0);
                if r[i] != e {
                    assert(t.to_multiset().count(r[i]) > 0);
                    assert(t.contains(r[i]));
                    let k = choose|k: int| 0 <= k < t.len() && t[k] == r[i];
                    assert(s[k] == r[i]);
                }
            }
        }
    }
}

/// Sorting rearranges: the result is as long as the input, holds the same
/// entries as often, and its binding indices ascend.
pub proof fn lemma_sorted_is_ordered_rearrangement(s: Seq<BindingEntry>)
    ensures
        sorted_by_binding(s).len() == s.len(),
        sorted_by_binding(s).to_multiset() == s.to_multiset(),
        ordered_by_binding(sorted_by_binding(s)),
    decreases s.len(),
{
    broadcast use vstd::seq_lib::group_to_multiset_ensures;

    if s.len() == 0 {
    } else {
        let t = s.drop_last();
        lemma_sorted_is_ordered_rearrangement(t);
        lemma_insert_keeps_entries(sorted_by_binding(t), s.last());
        lemma_insert_keeps_order(sorted_by_binding(t), s.last());
        assert(s =~= t.push(s.last()));
    }
}

/// Two entries of different binding indices can be inserted in either
/// order.
pub proof fn lemma_inserts_commute(s: Seq<BindingEntry>, x: BindingEntry, y: BindingEntry)
    requires
        x.binding != y.binding,
    ensures
        insert_by_binding(insert_by_binding(s, x), y) == insert_by_binding(
            insert_by_binding(s, y),
            x,
        ),
    decreases s.len(),
{
    reveal_with_fuel(insert_by_binding, 3);
    if s.len() == 0 {
        assert(seq![x].drop_last() =~= s);
        assert(seq![y].drop_last() =~= s);
    } else {
        let last = s.last();
        let front = s.drop_last();
        if last.binding > x.binding && last.binding > y.binding {
            lemma_inserts_commute(front, x, y);
            assert(insert_by_binding(front, x).push(last).drop_last() =~= insert_by_binding(
                front,
                x,
            ));
            assert(insert_by_binding(front, y).push(last).drop_last() =~= insert_by_binding(
                front,
                y,
            ));
        } else if last.binding <= x.binding && last.binding <= y.binding {
            assert(s.push(x).drop_last() =~= s);
            assert(s.push(y).drop_last() =~= s);
        } else if last.binding > x.binding {
            assert(s.push(y).drop_last() =~= s);
        } else {
            assert(s.push(x).drop_last() =~= s);
        }
    }
}

/// `s` with the entries at `i` and at `i + 1` in each other's place.
pub open spec fn with_neighbours_swapped(s: Seq<BindingEntry>, i: int) -> Seq<BindingEntry> {
    s.update(i, s[i + 1]).update(i + 1, s[i])
}

/// The order of discovery does not matter to sorting: two neighbours of
/// different binding indices can change places.
pub proof fn lemma_sorting_ignores_neighbour_order(s: Seq<BindingEntry>, i: int)
    requires
        0 <= i < s.len() - 1,
        s[i].binding != s[i + 1].binding,
    ensures
        sorted_by_binding(with_neighbours_swapped(s, i)) == sorted_by_binding(s),
    decreases s.len(),
{
    let swapped = with_neighbours_swapped(s, i);
    if i + 1 == s.len() - 1 {
        let front = s.take(i);
        assert(s.drop_last().drop_last() =~= front);
        assert(swapped.drop_last().drop_last() =~= front);
        assert(s.drop_last().last() == s[i]);
        assert(swapped.drop_last().last() == s[i + 1]);
        reveal_with_fuel(sorted_by_binding, 3);
        lemma_inserts_commute(sorted_by_binding(front), s[i], s[i + 1]);
    } else {
        assert(swapped.drop_last() =~= with_neighbours_swapped(s.drop_last(), i));
        lemma_sorting_ignores_neighbour_order(s.drop_last(), i);
    }
}

/// The entries of `entries` in ascending order of binding index, entries with
/// the same index in the order they have in `entries`.
pub fn sort_by_binding(entries: &Vec<BindingEntry>) -> (r: Vec<BindingEntry>)
    ensures
        r@ == sorted_by_binding(entries@),
{
    let mut out: Vec<BindingEntry> = Vec::new();
    let mut i: usize = 0;
    while i < entries.len()
        invariant
            0 <= i <= entries.len(),
            out@ == sorted_by_binding(entries@.take(i as int)),
            out.len() == i,
        decreases entries.len() - i,
    {
        let e = entries[i];
        let mut pos: usize = out.len();
        while pos > 0 && out[pos - 1].binding > e.binding
            invariant
                0 <= pos <= out.len(),
                forall|j: int| pos <= j < out.len() ==> out[j].binding > e.binding,
            decreases pos,
        {
            pos -= 1;
        }
        proof {
            lemma_insert_at(out@, e, pos as int);
            assert(entries@.take(i + 1).drop_last() =~= entries@.take(i as int));
            assert(entries@.take(i + 1).last() == e);
        }
        out.insert(pos, e);
        i += 1;
    }
    proof {
        assert(entries@.take(i as int) =~= entries@);
    }
    out
}

/// The expected group accepts the inferred group: both hold equally many
/// entries and, with each side in ascending order of binding index, every
/// expected entry accepts the inferred entry at its position.
pub open spec fn group_compatible(inferred: Seq<BindingEntry>, expected: Seq<BindingEntry>) -> bool {
    &&& inferred.len() == expected.len()
    &&& forall|i: int|
        0 <= i < inferred.len() ==> entry_compatible(
            #[trigger] sorted_by_binding(inferred)[i],
            sorted_by_binding(expected)[i],
        )
}

/// The layout of one bind group: its entries in the order in which they were
/// found, under an optional label.
#[derive(Debug)]
pub struct BindingGroupLayout {
    pub label: Option<String>,
    pub entries: Vec<BindingEntry>,
}

/// What a `BindingGroupLayout` holds.
pub struct BindingGroupLayoutView {
    pub label: Option<Seq<char>>,
    pub entries: Seq<BindingEntry>,
}

impl View for BindingGroupLayout {
    type V = BindingGroupLayoutView;

    open spec fn view(&self) -> BindingGroupLayoutView {
        BindingGroupLayoutView {
            label: match self.label {
                Some(s) => Some(s@),
                None => None,
            },
            entries: self.entries@,
        }
    }
}

impl BindingGroupLayout {
    /// Every binding index occurs at most once. The groups inferred from a
    /// module whose bound variables name different places meet this
    /// (`lemma_inferred_groups_are_well_formed`), and compatibility is
    /// decided for other groups too.
    pub open spec fn well_formed(&self) -> bool {
        bindings_unique(self.entries@)
    }

    /// A group without label and without entries.
    pub fn empty() -> (r: BindingGroupLayout)
        ensures
            r@ == (BindingGroupLayoutView { label: None, entries: Seq::empty() }),
    {
        BindingGroupLayout { label: None, entries: Vec::new() }
    }

    /// Whether `expected` accepts this group, which is the inferred side.
    pub fn check_compatible(&self, expected: &BindingGroupLayout) -> (r: bool)
        ensures
            r == group_compatible(self.entries@, expected.entries@),
    {
        if self.entries.len() != expected.entries.len() {
            return false;
        }
        let mine = sort_by_binding(&self.entries);
        let theirs = sort_by_binding(&expected.entries);
        proof {
            lemma_sorted_is_ordered_rearrangement(self.entries@);
            lemma_sorted_is_ordered_rearrangement(expected.entries@);
        }
        let mut i: usize = 0;
        while i < mine.len()
            invariant
                0 <= i <= mine.len(),
                mine.len() == theirs.len(),
                mine.len() == self.entries.len(),
                mine@ == sorted_by_binding(self.entries@),
                theirs@ == sorted_by_binding(expected.entries@),
                forall|k: int| 0 <= k < i ==> entry_compatible(#[trigger] mine@[k], theirs@[k]),
            decreases mine.len() - i,
        {
            if !check_entry(&mine[i], &theirs[i]) {
                assert(!entry_compatible(
                    sorted_by_binding(self.entries@)[i as int],
                    sorted_by_binding(expected.entries@)[i as int],
                ));
                return false;
            }
            i += 1;
        }
        true
    }
}

/// The views of `layouts`.
pub open spec fn layout_views(layouts: Seq<BindingGroupLayout>) -> Seq<BindingGroupLayoutView> {
    layouts.map_values(|l: BindingGroupLayout| l@)
}

/// The expected layouts accept the inferred layouts: there are equally many
/// groups, and each expected group accepts the inferred group at its index.
pub open spec fn layouts_compatible(
    inferred: Seq<BindingGroupLayoutView>,
    expected: Seq<BindingGroupLayoutView>,
) -> bool {
    &&& inferred.len() == expected.len()
    &&& forall|g: int|
        0 <= g < inferred.len() ==> group_compatible(
            (#[trigger] inferred[g]).entries,
            expected[g].entries,
        )
}

/// Whether the expected layouts accept the inferred layouts.
pub fn layout_matches(inferred: &[BindingGroupLayout], expected: &[BindingGroupLayout]) -> (r:
    bool)
    ensures
        r == layouts_compatible(layout_views(inferred@), layout_views(expected@)),
{
    if inferred.len() != expected.len() {
        return false;
    }
    let mut g: usize = 0;
    while g < inferred.len()
        invariant
            0 <= g <= inferred.len(),
            inferred.len() == expected.len(),
            forall|k: int|
                0 <= k < g ==> group_compatible(
                    (#[trigger] layout_views(inferred@)[k]).entries,
                    layout_views(expected@)[k].entries,
                ),
        decreases inferred.len() - g,
    {
        if !inferred[g].check_compatible(&expected[g]) {
            assert(!group_compatible(
                layout_views(inferred@)[g as int].entries,
                layout_views(expected@)[g as int].entries,
            ));
            return false;
        }
        assert(group_compatible(
            layout_views(inferred@)[g as int].entries,
            layout_views(expected@)[g as int].entries,
        ));
        g += 1;
    }
    true
}

/// An entry accepts itself.
pub proof fn lemma_entry_accepts_itself(entry: BindingEntry)
    ensures
        entry_compatible(entry, entry),
{
}

/// A group accepts itself.
pub proof fn lemma_group_accepts_itself(entries: Seq<BindingEntry>)
    ensures
        group_compatible(entries, entries),
{
}

/// Layouts accept themselves.
pub proof fn lemma_layouts_accept_themselves(layouts: Seq<BindingGroupLayoutView>)
    ensures
        layouts_compatible(layouts, layouts),
{
    assert forall|g: int| 0 <= g < layouts.len() implies group_compatible(
        (#[trigger] layouts[g]).entries,
        layouts[g].entries,
    ) by {
        lemma_group_accepts_itself(layouts[g].entries);
    }
}

/// Layouts with another number of groups are not accepted.
pub proof fn lemma_group_counts_must_agree(
    inferred: Seq<BindingGroupLayoutView>,
    expected: Seq<BindingGroupLayoutView>,
)
    requires
        inferred.len() != expected.len(),
    ensures
        !layouts_compatible(inferred, expected),
{
}

/// A group of one entry is accepted exactly when the entry is.
pub proof fn lemma_single_entry_groups(inferred: BindingEntry, expected: BindingEntry)
    ensures
        group_compatible(seq![inferred], seq![expected]) == entry_compatible(inferred, expected),
{
    reveal_with_fuel(sorted_by_binding, 2);
    reveal_with_fuel(insert_by_binding, 2);
    assert(seq![inferred].drop_last() =~= Seq::empty());
    assert(seq![expected].drop_last() =~= Seq::empty());
    assert(sorted_by_binding(seq![inferred]) =~= seq![inferred]);
    assert(sorted_by_binding(seq![expected]) =~= seq![expected]);
    if entry_compatible(inferred, expected) {
        assert(group_compatible(seq![inferred], seq![expected]));
    } else {
        assert(sorted_by_binding(seq![inferred])[0] == inferred);
    }
}

/// Where a filterable float texture is expected at a binding, a float
/// texture that is not filterable is accepted there; where one that is not
/// filterable is expected, a filterable one is not accepted. This holds of
/// the two resource kinds, of two entries that hold them and agree in the
/// rest, and of two groups of one such entry each.
pub proof fn lemma_unfilterable_texture_is_accepted(
    binding: u32,
    visibility: ShaderStages,
    view_dimension: TextureViewDimension,
    multisampled: bool,
    count: Option<u32>,
)
    ensures
        ({
            let filterable = BindingType::Texture {
                sample_type: TextureSampleType::Float { filterable: true },
                view_dimension,
                multisampled,
            };
            let unfilterable = BindingType::Texture {
                sample_type: TextureSampleType::Float { filterable: false },
                view_dimension,
                multisampled,
            };
            let strict = BindingEntry { binding, visibility, ty: filterable, count };
            let loose = BindingEntry { binding, visibility, ty: unfilterable, count };
            &&& kind_compatible(unfilterable, filterable)
            &&& !kind_compatible(filterable, unfilterable)
            &&& entry_compatible(loose, strict)
            &&& !entry_compatible(strict, loose)
            &&& group_compatible(seq![loose], seq![strict])
            &&& !group_compatible(seq![strict], seq![loose])
        }),
{
    let filterable = BindingType::Texture {
        sample_type: TextureSampleType::Float { filterable: true },
        view_dimension,
        multisampled,
    };
    let unfilterable = BindingType::Texture {
        sample_type: TextureSampleType::Float { filterable: false },
        view_dimension,
        multisampled,
    };
    let strict = BindingEntry { binding, visibility, ty: filterable, count };
    let loose = BindingEntry { binding, visibility, ty: unfilterable, count };
    lemma_single_entry_groups(loose, strict);
    lemma_single_entry_groups(strict, loose);
}

/// The relaxation of the filterable flag excuses no other difference: an
/// expected filterable float texture does not accept an unfilterable one of
/// another dimension or of other multisampling, neither as a kind, nor in an
/// entry, nor in a group of one entry.
pub proof fn lemma_relaxation_keeps_dimension(
    inferred: BindingEntry,
    expected: BindingEntry,
    inferred_dimension: TextureViewDimension,
    inferred_multisampled: bool,
    expected_dimension: TextureViewDimension,
    expected_multisampled: bool,
)
    requires
        inferred.ty == (BindingType::Texture {
            sample_type: TextureSampleType::Float { filterable: false },
            view_dimension: inferred_dimension,
            multisampled: inferred_multisampled,
        }),
        expected.ty == (BindingType::Texture {
            sample_type: TextureSampleType::Float { filterable: true },
            view_dimension: expected_dimension,
            multisampled: expected_multisampled,
        }),
        inferred_dimension != expected_dimension || inferred_multisampled
            != expected_multisampled,
    ensures
        !kind_compatible(inferred.ty, expected.ty),
        !entry_compatible(inferred, expected),
        !group_compatible(seq![inferred], seq![expected]),
{
    lemma_single_entry_groups(inferred, expected);
}

/// Two kinds that differ and are no relaxed pair are a mismatch, whatever
/// else the entries that hold them agree in.
pub proof fn lemma_other_kinds_are_rejected(inferred: BindingEntry, expected: BindingEntry)
    requires
        inferred.ty != expected.ty,
        !relaxed_pair(inferred.ty, expected.ty),
    ensures
        !kind_compatible(inferred.ty, expected.ty),
        !entry_compatible(inferred, expected),
        !group_compatible(seq![inferred], seq![expected]),
{
    lemma_single_entry_groups(inferred, expected);
}

/// Where a filtering sampler is expected, a sampler that does not filter is
/// accepted; where one that does not filter is expected, a filtering one is
/// not accepted.
pub proof fn lemma_non_filtering_sampler_is_accepted()
    ensures
        kind_compatible(
            BindingType::Sampler(SamplerBindingType::NonFiltering),
            BindingType::Sampler(SamplerBindingType::Filtering),
        ),
        !kind_compatible(
            BindingType::Sampler(SamplerBindingType::Filtering),
            BindingType::Sampler(SamplerBindingType::NonFiltering),
        ),
{
}

/// One reason why expected layouts do not accept inferred layouts.
#[derive(Clone, Copy, Debug, PartialEq, Eq, Structural)]
#[allow(inconsistent_fields)]
pub enum LayoutMismatch {
    /// The two sides have different numbers of groups.
    GroupCount { inferred: usize, expected: usize },
    /// The group `group` has different numbers of entries on the two sides.
    EntryCount { group: usize, inferred: usize, expected: usize },
    /// In the group `group`, with both sides in ascending order of binding
    /// index, `expected` does not accept `inferred`, which stands at the
    /// same position.
    Entry { group: usize, inferred: BindingEntry, expected: BindingEntry },
}

impl LayoutMismatch {
    /// The mismatch in words.
    pub open spec fn text(self) -> Seq<char> {
        match self {
            LayoutMismatch::GroupCount { inferred, expected } => "Shader uses "@ + decimal(
                inferred as nat,
            ) + " bind groups where "@ + decimal(expected as nat) + " are expected"@,
            LayoutMismatch::EntryCount { group, inferred, expected } => "Bind group "@ + decimal(
                group as nat,
            ) + " has "@ + decimal(inferred as nat) + " bindings where "@ + decimal(
                expected as nat,
            ) + " are expected"@,
            LayoutMismatch::Entry { group, inferred, expected } => "Bind group "@ + decimal(
                group as nat,
            ) + ": binding "@ + decimal(inferred.binding as nat)
                + " does not fit the expected binding "@ + decimal(expected.binding as nat),
        }
    }

    /// The mismatch in words.
    pub fn message(&self) -> (r: String)
        ensures
            r@ == self.text(),
    {
        match self {
            LayoutMismatch::GroupCount { inferred, expected } => {
                let mut s = "Shader uses ".to_owned();
                s.append(decimal_text(*inferred as u64).as_str());
                s.append(" bind groups where ");
                s.append(decimal_text(*expected as u64).as_str());
                s.append(" are expected");
                assert(s@ =~= self.text());
                s
            },
            LayoutMismatch::EntryCount { group, inferred, expected } => {
                let mut s = "Bind group ".to_owned();
                s.append(decimal_text(*group as u64).as_str());
                s.append(" has ");
                s.append(decimal_text(*inferred as u64).as_str());
                s.append(" bindings where ");
                s.append(decimal_text(*expected as u64).as_str());
                s.append(" are expected");
                assert(s@ =~= self.text());
                s
            },
            LayoutMismatch::Entry { group, inferred, expected } => {
                let mut s = "Bind group ".to_owned();
                s.append(decimal_text(*group as u64).as_str());
                s.append(": binding ");
                s.append(decimal_text(inferred.binding as u64).as_str());
                s.append(" does not fit the expected binding ");
                s.append(decimal_text(expected.binding as u64).as_str());
                assert(s@ =~= self.text());
                s
            },
        }
    }
}

/// The mismatches among the first `upto` positions of two groups that are
/// in ascending order of binding index, by position.
pub open spec fn entry_mismatches(
    group: usize,
    inferred: Seq<BindingEntry>,
    expected: Seq<BindingEntry>,
    upto: int,
) -> Seq<LayoutMismatch>
    decreases upto,
{
    if upto <= 0 {
        Seq::empty()
    } else if entry_compatible(inferred[upto - 1], expected[upto - 1]) {
        entry_mismatches(group, inferred, expected, upto - 1)
    } else {
        entry_mismatches(group, inferred, expected, upto - 1).push(
            LayoutMismatch::Entry {
                group,
                inferred: inferred[upto - 1],
                expected: expected[upto - 1],
            },
        )
    }
}

/// The mismatches of the group `group`: the two entry counts where they
/// differ, else each pair of entries of which the expected one does not
/// accept the inferred one.
pub open spec fn group_mismatches(
    group: usize,
    inferred: Seq<BindingEntry>,
    expected: Seq<BindingEntry>,
) -> Seq<LayoutMismatch> {
    if inferred.len() != expected.len() {
        seq![
            LayoutMismatch::EntryCount {
                group,
                inferred: inferred.len() as usize,
                expected: expected.len() as usize,
            },
        ]
    } else {
        entry_mismatches(
            group,
            sorted_by_binding(inferred),
            sorted_by_binding(expected),
            inferred.len() as int,
        )
    }
}

/// The mismatches of the first `upto` groups, group after group.
pub open spec fn mismatches_below(
    inferred: Seq<BindingGroupLayoutView>,
    expected: Seq<BindingGroupLayoutView>,
    upto: int,
) -> Seq<LayoutMismatch>
    decreases upto,
{
    if upto <= 0 {
        Seq::empty()
    } else {
        mismatches_below(inferred, expected, upto - 1) + group_mismatches(
            (upto - 1) as usize,
            inferred[upto - 1].entries,
            expected[upto - 1].entries,
        )
    }
}

/// All reasons why the expected layouts do not accept the inferred ones:
/// the two group counts where they differ, else the mismatches of each
/// group.
pub open spec fn mismatches(
    inferred: Seq<BindingGroupLayoutView>,
    expected: Seq<BindingGroupLayoutView>,
) -> Seq<LayoutMismatch> {
    if inferred.len() != expected.len() {
        seq![
            LayoutMismatch::GroupCount {
                inferred: inferred.len() as usize,
                expected: expected.len() as usize,
            },
        ]
    } else {
        mismatches_below(inferred, expected, inferred.len() as int)
    }
}

/// Two groups in ascending order have no mismatch among their first `upto`
/// positions exactly when at each of them the expected entry accepts the
/// inferred one.
pub proof fn lemma_entry_mismatches_empty(
    group: usize,
    inferred: Seq<BindingEntry>,
    expected: Seq<BindingEntry>,
    upto: int,
)
    ensures
        entry_mismatches(group, inferred, expected, upto).len() == 0 <==> forall|i: int|
            0 <= i < upto ==> entry_compatible(#[trigger] inferred[i], expected[i]),
    decreases upto,
{
    if upto > 0 {
        lemma_entry_mismatches_empty(group, inferred, expected, upto - 1);
        if entry_mismatches(group, inferred, expected, upto).len() == 0 {
            assert forall|i: int| 0 <= i < upto implies entry_compatible(
                #[trigger] inferred[i],
                expected[i],
            ) by {}
        } else if entry_compatible(inferred[upto - 1], expected[upto - 1]) {
        } else {
        }
    }
}

/// A group has no mismatch exactly when the expected group accepts the
/// inferred one.
pub proof fn lemma_group_mismatches_empty(
    group: usize,
    inferred: Seq<BindingEntry>,
    expected: Seq<BindingEntry>,
)
    ensures
        group_mismatches(group, inferred, expected).len() == 0 <==> group_compatible(
            inferred,
            expected,
        ),
{
    lemma_sorted_is_ordered_rearrangement(inferred);
    lemma_sorted_is_ordered_rearrangement(expected);
    if inferred.len() == expected.len() {
        lemma_entry_mismatches_empty(
            group,
            sorted_by_binding(inferred),
            sorted_by_binding(expected),
            inferred.len() as int,
        );
    }
}

/// The first `upto` groups have no mismatch exactly when each of them is
/// accepted.
pub proof fn lemma_mismatches_below_empty(
    inferred: Seq<BindingGroupLayoutView>,
    expected: Seq<BindingGroupLayoutView>,
    upto: int,
)
    ensures
        mismatches_below(inferred, expected, upto).len() == 0 <==> forall|g: int|
            0 <= g < upto ==> group_compatible(
                (#[trigger] inferred[g]).entries,
                expected[g].entries,
            ),
    decreases upto,
{
    if upto > 0 {
        lemma_mismatches_below_empty(inferred, expected, upto - 1);
        lemma_group_mismatches_empty(
            (upto - 1) as usize,
            inferred[upto - 1].entries,
            expected[upto - 1].entries,
        );
        if mismatches_below(inferred, expected, upto).len() == 0 {
            assert forall|g: int| 0 <= g < upto implies group_compatible(
                (#[trigger] inferred[g]).entries,
                expected[g].entries,
            ) by {}
        }
    }
}

/// There is no mismatch exactly when the expected layouts accept the
/// inferred ones.
pub proof fn lemma_mismatches_empty(
    inferred: Seq<BindingGroupLayoutView>,
    expected: Seq<BindingGroupLayoutView>,
)
    ensures
        mismatches(inferred, expected).len() == 0 <==> layouts_compatible(inferred, expected),
{
    if inferred.len() == expected.len() {
        lemma_mismatches_below_empty(inferred, expected, inferred.len() as int);
    }
}

/// Puts the mismatches of the group `group` behind `out`.
fn push_group_mismatches(
    out: &mut Vec<LayoutMismatch>,
    group: usize,
    inferred: &BindingGroupLayout,
    expected: &BindingGroupLayout,
)
    ensures
        final(out)@ == old(out)@ + group_mismatches(group, inferred.entries@, expected.entries@),
{
    if inferred.entries.len() != expected.entries.len() {
        out.push(
            LayoutMismatch::EntryCount {
                group,
                inferred: inferred.entries.len(),
                expected: expected.entries.len(),
            },
        );
        assert(out@ =~= old(out)@ + group_mismatches(group, inferred.entries@, expected.entries@));
        return ;
    }
    let mine = sort_by_binding(&inferred.entries);
    let theirs = sort_by_binding(&expected.entries);
    proof {
        lemma_sorted_is_ordered_rearrangement(inferred.entries@);
        lemma_sorted_is_ordered_rearrangement(expected.entries@);
    }
    let mut i: usize = 0;
    assert(out@ =~= old(out)@ + entry_mismatches(group, mine@, theirs@, 0));
    while i < mine.len()
        invariant
            0 <= i <= mine.len(),
            mine.len() == theirs.len(),
            out@ == old(out)@ + entry_mismatches(group, mine@, theirs@, i as int),
        decreases mine.len() - i,
    {
        if !check_entry(&mine[i], &theirs[i]) {
            out.push(LayoutMismatch::Entry { group, inferred: mine[i], expected: theirs[i] });
        }
        assert(out@ =~= old(out)@ + entry_mismatches(group, mine@, theirs@, i + 1));
        i += 1;
    }
}

/// All reasons why the expected layouts do not accept the inferred ones.
/// The list is empty exactly when they do.
pub fn layout_mismatches(inferred: &[BindingGroupLayout], expected: &[BindingGroupLayout]) -> (r:
    Vec<LayoutMismatch>)
    ensures
        r@ == mismatches(layout_views(inferred@), layout_views(expected@)),
        r.len() == 0 <==> layouts_compatible(layout_views(inferred@), layout_views(expected@)),
{
    let ghost iv = layout_views(inferred@);
    let ghost ev = layout_views(expected@);
    proof {
        lemma_mismatches_empty(iv, ev);
    }
    let mut out: Vec<LayoutMismatch> = Vec::new();
    if inferred.len() != expected.len() {
        out.push(
            LayoutMismatch::GroupCount { inferred: inferred.len(), expected: expected.len() },
        );
        assert(out@ =~= mismatches(iv, ev));
        return out;
    }
    let mut g: usize = 0;
    assert(out@ =~= mismatches_below(iv, ev, 0));
    while g < inferred.len()
        invariant
            0 <= g <= inferred.len(),
            inferred.len() == expected.len(),
            iv == layout_views(inferred@),
            ev == layout_views(expected@),
            out@ == mismatches_below(iv, ev, g as int),
        decreases inferred.len() - g,
    {
        push_group_mismatches(&mut out, g, &inferred[g], &expected[g]);
        assert(iv[g as int].entries == inferred@[g as int].entries@);
        assert(ev[g as int].entries == expected@[g as int].entries@);
        g += 1;
    }
    out
}

} // verus!
