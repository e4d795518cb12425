use rust_shader_viewer::layout::{
    check_entry, check_kind, layout_matches, layout_mismatches, sort_by_binding, BindingEntry,
    BindingGroupLayout, BindingType, LayoutMismatch, SamplerBindingType, ShaderStages,
    TextureSampleType, TextureViewDimension,
};

fn texture(filterable: bool) -> BindingType {
    BindingType::Texture {
        sample_type: TextureSampleType::Float { filterable },
        view_dimension: TextureViewDimension::D2,
        multisampled: false,
    }
}

fn entry(binding: u32, ty: BindingType) -> BindingEntry {
    BindingEntry { binding, visibility: ShaderStages::fragment_only(), ty, count: None }
}

fn group(entries: Vec<BindingEntry>) -> BindingGroupLayout {
    BindingGroupLayout { label: None, entries }
}

fn material_layout() -> Vec<BindingGroupLayout> {
    vec![
        group(vec![
            entry(0, texture(true)),
            entry(1, BindingType::Sampler(SamplerBindingType::Filtering)),
            entry(2, texture(true)),
            entry(3, BindingType::Sampler(SamplerBindingType::Filtering)),
        ]),
        group(vec![BindingEntry {
            binding: 0,
            visibility: ShaderStages::vertex_fragment(),
            ty: BindingType::UniformBuffer,
            count: None,
        }]),
    ]
}

#[test]
fn stage_sets_are_what_their_names_say() {
    assert_eq!(ShaderStages::none(), ShaderStages { vertex: false, fragment: false });
    assert_eq!(ShaderStages::vertex_only(), ShaderStages { vertex: true, fragment: false });
    assert_eq!(ShaderStages::fragment_only(), ShaderStages { vertex: false, fragment: true });
    assert_eq!(ShaderStages::vertex_fragment(), ShaderStages { vertex: true, fragment: true });
}

#[test]
fn stage_set_contains_its_subsets_only() {
    let both = ShaderStages::vertex_fragment();
    let vertex = ShaderStages::vertex_only();
    let fragment = ShaderStages::fragment_only();
    let none = ShaderStages::none();
    assert!(both.contains(&vertex));
    assert!(both.contains(&fragment));
    assert!(both.contains(&both));
    assert!(vertex.contains(&none));
    assert!(none.contains(&none));
    assert!(!vertex.contains(&fragment));
    assert!(!vertex.contains(&both));
    assert!(!none.contains(&vertex));
}

#[test]
fn layout_matches_itself() {
    let layout = material_layout();
    assert!(layout_matches(&layout, &layout));
    assert!(layout_mismatches(&layout, &layout).is_empty());
}

#[test]
fn empty_layout_matches_itself() {
    let layout: Vec<BindingGroupLayout> = Vec::new();
    assert!(layout_matches(&layout, &layout));
}

#[test]
fn layout_with_no_visible_stage_matches_itself() {
    let layout = vec![group(vec![BindingEntry {
        binding: 0,
        visibility: ShaderStages::none(),
        ty: BindingType::UniformBuffer,
        count: Some(3),
    }])];
    assert!(layout_matches(&layout, &layout));
}

#[test]
fn different_group_counts_do_not_match() {
    let two = material_layout();
    let mut three = material_layout();
    three.push(BindingGroupLayout::empty());
    assert!(!layout_matches(&two, &three));
    assert!(!layout_matches(&three, &two));
    assert_eq!(
        layout_mismatches(&two, &three),
        vec![LayoutMismatch::GroupCount { inferred: 2, expected: 3 }]
    );
}

#[test]
fn different_entry_counts_do_not_match() {
    let inferred = vec![group(vec![entry(0, BindingType::UniformBuffer)])];
    let expected = vec![group(vec![
        entry(0, BindingType::UniformBuffer),
        entry(1, BindingType::UniformBuffer),
    ])];
    assert!(!layout_matches(&inferred, &expected));
    assert_eq!(
        layout_mismatches(&inferred, &expected),
        vec![LayoutMismatch::EntryCount { group: 0, inferred: 1, expected: 2 }]
    );
}

#[test]
fn unfilterable_texture_fits_filterable_and_not_the_reverse() {
    let filterable = vec![group(vec![entry(0, texture(true))])];
    let unfilterable = vec![group(vec![entry(0, texture(false))])];
    assert!(layout_matches(&unfilterable, &filterable));
    assert!(!layout_matches(&filterable, &unfilterable));
    assert_eq!(
        layout_mismatches(&filterable, &unfilterable),
        vec![LayoutMismatch::Entry {
            group: 0,
            inferred: entry(0, texture(true)),
            expected: entry(0, texture(false)),
        }]
    );
}

#[test]
fn relaxed_texture_pair_keeps_dimension_and_multisampling() {
    let float = |filterable, view_dimension, multisampled| BindingType::Texture {
        sample_type: TextureSampleType::Float { filterable },
        view_dimension,
        multisampled,
    };
    let d2 = TextureViewDimension::D2;
    let cube = TextureViewDimension::Cube;
    assert!(check_kind(&float(false, d2, false), &float(true, d2, false)));
    assert!(check_kind(&float(false, cube, true), &float(true, cube, true)));
    assert!(!check_kind(&float(false, d2, false), &float(true, cube, false)));
    assert!(!check_kind(&float(false, cube, false), &float(true, d2, false)));
    assert!(!check_kind(&float(false, d2, true), &float(true, d2, false)));
    assert!(!check_kind(&float(false, cube, true), &float(true, d2, false)));
}

#[test]
fn expected_cube_texture_rejects_inferred_flat_texture() {
    let entry = |filterable, view_dimension| BindingEntry {
        binding: 0,
        visibility: ShaderStages::fragment_only(),
        ty: BindingType::Texture {
            sample_type: TextureSampleType::Float { filterable },
            view_dimension,
            multisampled: false,
        },
        count: None,
    };
    let inferred = group(vec![entry(false, TextureViewDimension::D2)]);
    let expected = group(vec![entry(true, TextureViewDimension::Cube)]);
    assert!(!inferred.check_compatible(&expected));
    assert!(!layout_matches(&[inferred], &[expected]));
}

#[test]
fn equally_filterable_textures_of_other_dimension_do_not_match() {
    let expected = texture(true);
    let inferred = BindingType::Texture {
        sample_type: TextureSampleType::Float { filterable: true },
        view_dimension: TextureViewDimension::Cube,
        multisampled: false,
    };
    assert!(!check_kind(&inferred, &expected));
}

#[test]
fn non_filtering_sampler_fits_filtering_and_not_the_reverse() {
    let filtering = BindingType::Sampler(SamplerBindingType::Filtering);
    let non_filtering = BindingType::Sampler(SamplerBindingType::NonFiltering);
    let comparison = BindingType::Sampler(SamplerBindingType::Comparison);
    assert!(check_kind(&non_filtering, &filtering));
    assert!(!check_kind(&filtering, &non_filtering));
    assert!(!check_kind(&comparison, &filtering));
    assert!(!check_kind(&filtering, &comparison));
    assert!(check_kind(&comparison, &comparison));
}

#[test]
fn other_kinds_must_be_equal() {
    let depth = BindingType::Texture {
        sample_type: TextureSampleType::Depth,
        view_dimension: TextureViewDimension::D2,
        multisampled: false,
    };
    let sint = BindingType::Texture {
        sample_type: TextureSampleType::Sint,
        view_dimension: TextureViewDimension::D2,
        multisampled: false,
    };
    assert!(check_kind(&depth, &depth));
    assert!(!check_kind(&depth, &sint));
    assert!(!check_kind(&sint, &texture(true)));
    assert!(!check_kind(&BindingType::UniformBuffer, &texture(true)));
    assert!(!check_kind(&texture(false), &BindingType::UniformBuffer));
    assert!(check_kind(&BindingType::UniformBuffer, &BindingType::UniformBuffer));
}

#[test]
fn binding_indices_must_agree() {
    assert!(!check_entry(
        &entry(0, BindingType::UniformBuffer),
        &entry(1, BindingType::UniformBuffer)
    ));
}

#[test]
fn expected_visibility_must_cover_inferred() {
    let offered = |visibility| BindingEntry {
        binding: 0,
        visibility,
        ty: BindingType::UniformBuffer,
        count: None,
    };
    let both = ShaderStages::vertex_fragment();
    let vertex = ShaderStages::vertex_only();
    let fragment = ShaderStages::fragment_only();
    assert!(check_entry(&offered(vertex), &offered(both)));
    assert!(check_entry(&offered(fragment), &offered(both)));
    assert!(!check_entry(&offered(both), &offered(vertex)));
    assert!(!check_entry(&offered(vertex), &offered(fragment)));
}

#[test]
fn expected_count_bounds_inferred_count() {
    let counted = |count| BindingEntry {
        binding: 0,
        visibility: ShaderStages::fragment_only(),
        ty: BindingType::UniformBuffer,
        count,
    };
    assert!(check_entry(&counted(Some(2)), &counted(Some(4))));
    assert!(check_entry(&counted(Some(4)), &counted(Some(4))));
    assert!(!check_entry(&counted(Some(5)), &counted(Some(4))));
    assert!(!check_entry(&counted(None), &counted(Some(4))));
    assert!(check_entry(&counted(Some(7)), &counted(None)));
    assert!(check_entry(&counted(None), &counted(None)));
}

#[test]
fn order_of_discovery_does_not_matter() {
    let inferred = group(vec![
        entry(2, BindingType::UniformBuffer),
        entry(0, texture(true)),
        entry(1, BindingType::Sampler(SamplerBindingType::Filtering)),
    ]);
    let expected = group(vec![
        entry(0, texture(true)),
        entry(1, BindingType::Sampler(SamplerBindingType::Filtering)),
        entry(2, BindingType::UniformBuffer),
    ]);
    assert!(inferred.check_compatible(&expected));
    assert!(expected.check_compatible(&inferred));
}

#[test]
fn sorting_is_ascending_and_keeps_equal_indices_in_order() {
    let entries = vec![
        entry(3, BindingType::UniformBuffer),
        entry(1, texture(true)),
        entry(3, texture(false)),
        entry(0, BindingType::Sampler(SamplerBindingType::Comparison)),
        entry(1, BindingType::UniformBuffer),
    ];
    let sorted = sort_by_binding(&entries);
    assert_eq!(
        sorted,
        vec![
            entry(0, BindingType::Sampler(SamplerBindingType::Comparison)),
            entry(1, texture(true)),
            entry(1, BindingType::UniformBuffer),
            entry(3, BindingType::UniformBuffer),
            entry(3, texture(false)),
        ]
    );
}

#[test]
fn sorting_an_empty_list_gives_an_empty_list() {
    assert!(sort_by_binding(&Vec::new()).is_empty());
}

#[test]
fn mismatches_name_group_and_entries() {
    let inferred = vec![
        group(vec![entry(1, texture(true)), entry(0, BindingType::UniformBuffer)]),
        group(vec![entry(0, BindingType::UniformBuffer)]),
        group(vec![entry(0, BindingType::Sampler(SamplerBindingType::Comparison))]),
    ];
    let expected = vec![
        group(vec![entry(0, BindingType::UniformBuffer), entry(1, texture(false))]),
        group(vec![entry(0, BindingType::UniformBuffer)]),
        group(vec![entry(0, BindingType::Sampler(SamplerBindingType::Filtering))]),
    ];
    assert!(!layout_matches(&inferred, &expected));
    assert_eq!(
        layout_mismatches(&inferred, &expected),
        vec![
            LayoutMismatch::Entry {
                group: 0,
                inferred: entry(1, texture(true)),
                expected: entry(1, texture(false)),
            },
            LayoutMismatch::Entry {
                group: 2,
                inferred: entry(0, BindingType::Sampler(SamplerBindingType::Comparison)),
                expected: entry(0, BindingType::Sampler(SamplerBindingType::Filtering)),
            },
        ]
    );
}

#[test]
fn empty_group_has_no_label_and_no_entries() {
    let empty = BindingGroupLayout::empty();
    assert!(empty.label.is_none());
    assert!(empty.entries.is_empty());
}
