//! One process of a snapshot and its rolled-up memory.

use vstd::prelude::*;

verus! {

/// One process of a snapshot, with the values rolled up from its descendants.
#[derive(Clone, Debug)]
pub struct MyProcess {
    pub pid: usize,
    /// Identifier of the parent; 0 stands for the synthetic root.
    pub parent: usize,
    pub name: String,
    pub command: String,
    /// Resident memory in bytes.
    pub memory: u64,
    /// CPU usage in tenths of a percent.
    pub cpu: u64,
    /// Memory of all descendants.
    pub children_memory: u64,
    /// Distance from the synthetic root.
    pub depth: usize,
}

impl MyProcess {
    pub open spec fn total_int(&self) -> int {
        self.memory + self.children_memory
    }

    /// Own memory plus the memory of all descendants.
    pub fn total(&self) -> (r: u64)
        requires
            self.total_int() <= u64::MAX,
        ensures
            r == self.total_int(),
    {
        self.memory + self.children_memory
    }

    /// A field-by-field copy.
    pub fn copied(&self) -> (r: MyProcess)
        ensures
            r == *self,
    {
        MyProcess {
            pid: self.pid,
            parent: self.parent,
            name: self.name.clone(),
            command: self.command.clone(),
            memory: self.memory,
            cpu: self.cpu,
            children_memory: self.children_memory,
            depth: self.depth,
        }
    }
}

} // verus!
