use rust_shader_viewer::model::{InstanceId, Model, SyncAction};

/// A stand-in for a GPU buffer that counts its allocations.
struct MockBuffer {
    records: Vec<[f32; 2]>,
    size: u64,
    allocations: u32,
}

const RECORD_SIZE: u64 = 8;

fn sync(model: &Model<[f32; 2]>, buffer: &mut MockBuffer) -> SyncAction {
    let action = model.update_instance_buffer(RECORD_SIZE, buffer.size);
    match action {
        SyncAction::Reallocate => {
            buffer.records = model.instances.clone();
            buffer.size = model.instances.len() as u64 * RECORD_SIZE;
            buffer.allocations += 1;
        }
        SyncAction::Write => {
            buffer.records = model.instances.clone();
        }
    }
    action
}

#[test]
fn new_model_has_no_instances() {
    let model: Model<[f32; 2]> = Model::new();
    assert!(model.instances.is_empty());
}

#[test]
fn new_instance_appends_and_numbers_from_zero() {
    let mut model: Model<[f32; 2]> = Model::new();
    assert_eq!(model.new_instance([1.0, 2.0]), InstanceId(0));
    assert_eq!(model.new_instance([3.0, 4.0]), InstanceId(1));
    assert_eq!(model.instances, vec![[1.0, 2.0], [3.0, 4.0]]);
}

#[test]
fn update_instance_changes_one_record() {
    let mut model: Model<[f32; 2]> = Model::new();
    model.new_instance([1.0, 2.0]);
    model.new_instance([3.0, 4.0]);
    model.update_instance(&InstanceId(0), [9.0, 8.0]);
    assert_eq!(model.instances, vec![[9.0, 8.0], [3.0, 4.0]]);
}

#[test]
fn sync_reallocates_when_sizes_differ_and_writes_when_they_agree() {
    let mut model: Model<[f32; 2]> = Model::new();
    assert_eq!(model.update_instance_buffer(100, 0), SyncAction::Write);
    model.new_instance([0.0, 0.0]);
    model.new_instance([0.0, 0.0]);
    model.new_instance([0.0, 0.0]);
    assert_eq!(model.update_instance_buffer(100, 300), SyncAction::Write);
    assert_eq!(model.update_instance_buffer(100, 200), SyncAction::Reallocate);
    assert_eq!(model.update_instance_buffer(100, 400), SyncAction::Reallocate);
    assert_eq!(model.update_instance_buffer(100, 0), SyncAction::Reallocate);
}

#[test]
fn sync_compares_sizes_beyond_sixty_four_bits() {
    let mut model: Model<[f32; 2]> = Model::new();
    model.new_instance([0.0, 0.0]);
    model.new_instance([0.0, 0.0]);
    // two records of 2^63 bytes come to 2^64 bytes, which is no u64 and not zero
    assert_eq!(model.update_instance_buffer(1 << 63, 0), SyncAction::Reallocate);
    assert_eq!(model.update_instance_buffer(u64::MAX, u64::MAX), SyncAction::Reallocate);
}

#[test]
fn appending_reallocates_and_updating_writes() {
    let mut model: Model<[f32; 2]> = Model::new();
    let mut buffer = MockBuffer { records: Vec::new(), size: 0, allocations: 0 };
    for i in 0..4 {
        model.new_instance([i as f32, 0.5]);
    }
    assert_eq!(sync(&model, &mut buffer), SyncAction::Reallocate);
    assert_eq!(buffer.allocations, 1);
    assert_eq!(buffer.size, 4 * RECORD_SIZE);
    let before = model.instances.clone();

    model.new_instance([7.0, 7.0]);
    assert_eq!(sync(&model, &mut buffer), SyncAction::Reallocate);
    assert_eq!(buffer.allocations, 2);
    assert_eq!(buffer.size, 5 * RECORD_SIZE);
    assert_eq!(buffer.records.len(), 5);
    assert_eq!(&buffer.records[..4], &before[..]);

    model.update_instance(&InstanceId(2), [-1.0, -2.0]);
    assert_eq!(sync(&model, &mut buffer), SyncAction::Write);
    assert_eq!(buffer.allocations, 2);
    assert_eq!(buffer.size, 5 * RECORD_SIZE);
    assert_eq!(buffer.records[2], [-1.0, -2.0]);
    assert_eq!(buffer.records, model.instances);
}
