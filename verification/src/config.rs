//! Configuration of the sharded in-memory index.
//!
//! A map is partitioned into a number of independently guarded shards and
//! may be pre-sized; a set only pre-sizes. Each configuration comes with a
//! builder that fills in the defaults for whatever the caller leaves
//! unset.

use vstd::prelude::*;

verus! {

/// Configuration for creating a map collection: how many shards its
/// in-memory index is split into, and the initial capacity spread across
/// them.
#[derive(Debug)]
pub struct HashMapConfig {
    pub shard_amount: usize,
    pub capacity: usize,
}

/// The error a configuration builder could report. Every field has a
/// default, so building never fails.
#[derive(Debug)]
pub struct HashMapConfigBuilderError;

/// Builds a `HashMapConfig`, defaulting the shard amount to 1 and the
/// capacity to 0.
pub struct HashMapConfigBuilder {
    pub shard_amount: Option<usize>,
    pub capacity: Option<usize>,
}

impl Default for HashMapConfigBuilder {
    /// A builder with nothing set yet.
    fn default() -> (r: Self)
        ensures
            r.shard_amount is None,
            r.capacity is None,
    {
        HashMapConfigBuilder { shard_amount: None, capacity: None }
    }
}

impl HashMapConfigBuilder {
    /// Sets the number of shards.
    pub fn shard_amount(self, value: usize) -> (r: Self)
        ensures
            r.shard_amount == Some(value),
            r.capacity == self.capacity,
    {
        HashMapConfigBuilder { shard_amount: Some(value), ..self }
    }

    /// Sets the initial capacity.
    pub fn capacity(self, value: usize) -> (r: Self)
        ensures
            r.capacity == Some(value),
            r.shard_amount == self.shard_amount,
    {
        HashMapConfigBuilder { capacity: Some(value), ..self }
    }

    /// Fills the defaults in: one shard, no pre-sized capacity.
    pub fn build(self) -> (r: Result<HashMapConfig, HashMapConfigBuilderError>)
        ensures
            r matches Ok(c) && c.shard_amount == (if self.shard_amount is Some {
                self.shard_amount->0
            } else {
                1usize
            }) && c.capacity == (if self.capacity is Some {
                self.capacity->0
            } else {
                0usize
            }),
    {
        Ok(
            HashMapConfig {
                shard_amount: match self.shard_amount {
                    Some(v) => v,
                    None => 1,
                },
                capacity: match self.capacity {
                    Some(v) => v,
                    None => 0,
                },
            },
        )
    }
}

/// Configuration for creating a set collection: the initial capacity of
/// its in-memory index.
#[derive(Debug)]
pub struct HashSetConfig {
    pub capacity: usize,
}

/// The error a configuration builder could report. Every field has a
/// default, so building never fails.
#[derive(Debug)]
pub struct HashSetConfigBuilderError;

/// Builds a `HashSetConfig`, defaulting the capacity to 0.
pub struct HashSetConfigBuilder {
    pub capacity: Option<usize>,
}

impl Default for HashSetConfigBuilder {
    /// A builder with nothing set yet.
    fn default() -> (r: Self)
        ensures
            r.capacity is None,
    {
        HashSetConfigBuilder { capacity: None }
    }
}

impl HashSetConfigBuilder {
    /// Sets the initial capacity.
    pub fn capacity(self, value: usize) -> (r: Self)
        ensures
            r.capacity == Some(value),
    {
        HashSetConfigBuilder { capacity: Some(value) }
    }

    /// Fills the default in: no pre-sized capacity.
    pub fn build(self) -> (r: Result<HashSetConfig, HashSetConfigBuilderError>)
        ensures
            r matches Ok(c) && c.capacity == (if self.capacity is Some {
                self.capacity->0
            } else {
                0usize
            }),
    {
        Ok(
            HashSetConfig {
                capacity: match self.capacity {
                    Some(v) => v,
                    None => 0,
                },
            },
        )
    }
}

} // verus!
