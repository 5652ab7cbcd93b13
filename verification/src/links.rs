//! Data that flows between tasks, and the shapes of task that exchange it.

use vstd::prelude::*;

verus! {

/// What is known about a piece of data besides the data.
pub struct CarbonMetadata {
    pub name: String,
    pub description: String,
    pub timestamp: u64,
}

/// A piece of data with what is known about it.
pub struct CarbonData<T> {
    data: T,
    pub metadata: CarbonMetadata,
}

/// What a task can take or give: data with its metadata, or nothing.
pub trait CarbonDataPacket {
}

impl CarbonDataPacket for () {
}

impl<T> CarbonDataPacket for CarbonData<T> {
}

/// How a task is set up.
pub struct CarbonTaskConfiguration;

/// A unit of work that turns an input into an output.
pub trait Task {
    type Input: CarbonDataPacket;

    type Output: CarbonDataPacket;

    /// Prepares the task for work.
    fn setup(&self, configuration: Option<&CarbonTaskConfiguration>);

    /// Does the work on one input.
    fn process(&self, input: Self::Input) -> Self::Output;
}

/// A task that takes data and gives nothing back.
pub trait Actuator<I>: Task<Input = CarbonData<I>, Output = ()> {
}

/// A task that takes nothing and gives data.
pub trait Sensor<O>: Task<Input = (), Output = CarbonData<O>> {
}

/// A task that takes data and gives data.
pub trait Controller<I, O>: Task<Input = CarbonData<I>, Output = CarbonData<O>> {
}

} // verus!
