//! The plain records of the fault-tolerance cost benchmark: the durability
//! tier under test and the latency percentiles a run reports.

use vstd::prelude::*;

verus! {

/// Where an op's durability comes from.
#[derive(Clone, Copy, Debug, PartialEq, Eq)]
pub enum Durability {
    /// The op reaches every replica through the ordered scatter (the commit
    /// barrier is the durability); the executor keeps an in-memory log.
    InFabricMem,
    /// The executor syncs the log record to stable storage before commit.
    Fsync,
}

impl Durability {
    /// The tier's name, as a report prints it.
    pub fn label(&self) -> (r: String)
        ensures
            r@ == (match self {
                Durability::InFabricMem => "InFabricMem"@,
                Durability::Fsync => "Fsync"@,
            }),
    {
        match self {
            Durability::InFabricMem => "InFabricMem".to_owned(),
            Durability::Fsync => "Fsync".to_owned(),
        }
    }

    /// Whether the tier syncs each record to stable storage.
    pub fn fsync(&self) -> (r: bool)
        ensures
            r == (*self == Durability::Fsync),
    {
        match self {
            Durability::InFabricMem => false,
            Durability::Fsync => true,
        }
    }
}

/// Latency percentiles of one benchmark run, in nanoseconds.
#[derive(Clone, Debug)]
pub struct BenchResult {
    pub durability: String,
    pub n: usize,
    pub delivery_p50: u64,
    pub delivery_p99: u64,
    pub durable_p50: u64,
    pub durable_p99: u64,
    pub commit_p50: u64,
    pub commit_p99: u64,
}

impl Default for BenchResult {
    /// A result with no samples.
    fn default() -> (r: Self)
        ensures
            r.durability@ == Seq::<char>::empty(),
            r.n == 0,
            r.delivery_p50 == 0 && r.delivery_p99 == 0,
            r.durable_p50 == 0 && r.durable_p99 == 0,
            r.commit_p50 == 0 && r.commit_p99 == 0,
    {
        BenchResult {
            durability: String::new(),
            n: 0,
            delivery_p50: 0,
            delivery_p99: 0,
            durable_p50: 0,
            durable_p99: 0,
            commit_p50: 0,
            commit_p99: 0,
        }
    }
}

} // verus!
