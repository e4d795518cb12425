//! A renderable model's list of instances, and the decision how to bring a
//! GPU buffer up to date with it.

use vstd::prelude::*;

verus! {

/// The index of an instance in its model's instance list.
#[derive(Clone, Copy, Debug, PartialEq, Eq, Structural)]
pub struct InstanceId(pub usize);

/// How a GPU buffer is brought up to date with an instance list.
#[derive(Clone, Copy, Debug, PartialEq, Eq, Structural)]
pub enum SyncAction {
    /// A buffer of the size of the list is allocated and filled with it.
    Reallocate,
    /// The list is written into the buffer that is there.
    Write,
}

/// A GPU buffer of instance records, as far as synchronising reads it.
pub struct InstanceBuffer<T> {
    /// The records in the buffer.
    pub records: Seq<T>,
    /// The size of the buffer in bytes.
    pub size: int,
    /// How often a buffer was allocated.
    pub allocations: nat,
}

/// What synchronising decides for a list of `count` records of
/// `record_size` bytes and a buffer of `buffer_size` bytes: a new buffer
/// where the sizes differ, a write where they agree.
pub open spec fn sync_action(count: nat, record_size: int, buffer_size: int) -> SyncAction {
    if count * record_size != buffer_size {
        SyncAction::Reallocate
    } else {
        SyncAction::Write
    }
}

/// The buffer after `action` was carried out for the instance list
/// `instances` with records of `record_size` bytes.
pub open spec fn after_sync<T>(
    buffer: InstanceBuffer<T>,
    action: SyncAction,
    instances: Seq<T>,
    record_size: int,
) -> InstanceBuffer<T> {
    match action {
        SyncAction::Reallocate => InstanceBuffer {
            records: instances,
            size: instances.len() * record_size,
            allocations: buffer.allocations + 1,
        },
        SyncAction::Write => InstanceBuffer { records: instances, ..buffer },
    }
}

/// The instances of a renderable model, one transform each.
#[derive(Debug)]
pub struct Model<T> {
    pub instances: Vec<T>,
}

impl<T> View for Model<T> {
    type V = Seq<T>;

    open spec fn view(&self) -> Seq<T> {
        self.instances@
    }
}

impl<T: Copy> Model<T> {
    /// A model without instances.
    pub fn new() -> (r: Model<T>)
        ensures
            r@ == Seq::<T>::empty(),
    {
        Model { instances: Vec::new() }
    }

    /// Appends an instance with the transform `initial` and returns its id.
    pub fn new_instance(&mut self, initial: T) -> (id: InstanceId)
        ensures
            id.0 == old(self)@.len(),
            final(self)@ == old(self)@.push(initial),
    {
        let id = InstanceId(self.instances.len());
        self.instances.push(initial);
        id
    }

    /// Gives the instance `id` the transform `transform`.
    pub fn update_instance(&mut self, id: &InstanceId, transform: T)
        requires
            id.0 < old(self)@.len(),
        ensures
            final(self)@ == old(self)@.update(id.0 as int, transform),
    {
        self.instances[id.0] = transform;
    }

    /// Decides how a buffer of `buffer_size` bytes is brought up to date
    /// with the instances, each of which takes `record_size` bytes there.
    pub fn update_instance_buffer(&self, record_size: u64, buffer_size: u64) -> (r: SyncAction)
        ensures
            r == sync_action(self@.len(), record_size as int, buffer_size as int),
    {
        let count: u128 = self.instances.len() as u128;
        let record: u128 = record_size as u128;
        assert(count * record <= 0xffff_ffff_ffff_ffff * 0xffff_ffff_ffff_ffff) by (nonlinear_arith)
            requires
                0 <= count <= 0xffff_ffff_ffff_ffff,
                0 <= record <= 0xffff_ffff_ffff_ffff,
        ;
        if count * record != buffer_size as u128 {
            SyncAction::Reallocate
        } else {
            SyncAction::Write
        }
    }
}

/// Appending one instance to a list that is in step with its buffer and
/// synchronising allocates a buffer for one record more, whose records but
/// the last are those from before. Changing a record of that list and
/// synchronising again writes into that buffer: its size and the number of
/// allocations stay.
pub proof fn lemma_sync_after_append_and_update<T>(
    buffer: InstanceBuffer<T>,
    instances: Seq<T>,
    record_size: int,
    added: T,
    id: int,
    changed: T,
)
    requires
        record_size > 0,
        buffer.size == instances.len() * record_size,
        buffer.records == instances,
        0 <= id <= instances.len(),
    ensures
        ({
            let appended = instances.push(added);
            let first = sync_action(appended.len(), record_size, buffer.size);
            let grown = after_sync(buffer, first, appended, record_size);
            let updated = appended.update(id, changed);
            let second = sync_action(updated.len(), record_size, grown.size);
            let rewritten = after_sync(grown, second, updated, record_size);
            &&& first == SyncAction::Reallocate
            &&& grown.size == (instances.len() + 1) * record_size
            &&& grown.allocations == buffer.allocations + 1
            &&& grown.records.len() == instances.len() + 1
            &&& grown.records.take(instances.len() as int) == instances
            &&& second == SyncAction::Write
            &&& rewritten.size == grown.size
            &&& rewritten.allocations == grown.allocations
            &&& rewritten.records == updated
        }),
{
    let appended = instances.push(added);
    assert((instances.len() + 1) * record_size == instances.len() * record_size + record_size)
        by (nonlinear_arith);
    assert(appended.take(instances.len() as int) =~= instances);
}

} // verus!
