//! Sizing and accounting for a message cache. The cache itself is an
//! allocator hint kept outside the library; these types say how large each
//! per-type pool may grow and what it has served.

use vstd::prelude::*;

verus! {

/// Pool sizing: a default per-type capacity, overrides for chosen message
/// types, and a hard cap.
pub struct PoolConfig {
    pub default_size: usize,
    pub type_specific_sizes: Vec<(String, usize)>,
    pub max_pool_size: usize,
}

impl PoolConfig {
    /// Fifty each by default, larger pools for the market-data and order
    /// types, and a cap of a thousand.
    pub fn new_default() -> (r: PoolConfig)
        ensures
            r.default_size == 50,
            r.max_pool_size == 1000,
            r.type_specific_sizes@.len() == 6,
    {
        let mut type_specific_sizes: Vec<(String, usize)> = Vec::new();
        type_specific_sizes.push((String::from_str("V"), 100));
        type_specific_sizes.push((String::from_str("W"), 100));
        type_specific_sizes.push((String::from_str("R"), 50));
        type_specific_sizes.push((String::from_str("S"), 50));
        type_specific_sizes.push((String::from_str("D"), 50));
        type_specific_sizes.push((String::from_str("8"), 50));
        PoolConfig { default_size: 50, type_specific_sizes, max_pool_size: 1000 }
    }

    /// The capacity configured for a message type.
    pub fn size_for(&self, msg_type: &str) -> (r: usize)
        ensures
            r <= self.max_pool_size || r == self.default_size || exists|i: int|
                0 <= i < self.type_specific_sizes@.len() && r == (
                #[trigger] self.type_specific_sizes@[i]).1,
    {
        let n = self.type_specific_sizes.len();
        let mut i: usize = 0;
        while i < n
            invariant
                0 <= i <= n,
                n == self.type_specific_sizes@.len(),
            decreases n - i,
        {
            if crate::text::str_eq(self.type_specific_sizes[i].0.as_str(), msg_type) {
                return self.type_specific_sizes[i].1;
            }
            i = i + 1;
        }
        self.default_size
    }
}

impl Default for PoolConfig {
    fn default() -> (r: Self)
        ensures
            r.default_size == 50,
            r.max_pool_size == 1000,
    {
        Self::new_default()
    }
}

/// What a pool has served: cache hits and misses, returns, and its current
/// and peak sizes.
pub struct PoolStats {
    pub hits: usize,
    pub misses: usize,
    pub returns: usize,
    pub current_size: usize,
    pub peak_size: usize,
    pub total_allocations: usize,
}

impl PoolStats {
    pub fn new(initial_size: usize) -> (r: PoolStats)
        ensures
            r.hits == 0,
            r.misses == 0,
            r.returns == 0,
            r.current_size == initial_size,
            r.peak_size == initial_size,
            r.total_allocations == initial_size,
    {
        PoolStats {
            hits: 0,
            misses: 0,
            returns: 0,
            current_size: initial_size,
            peak_size: initial_size,
            total_allocations: initial_size,
        }
    }

    /// The peak only ever moves up.
    pub fn update_peak_size(&mut self, size: usize)
        ensures
            final(self).peak_size == if size > old(self).peak_size {
                size
            } else {
                old(self).peak_size
            },
            final(self).hits == old(self).hits,
            final(self).misses == old(self).misses,
            final(self).returns == old(self).returns,
            final(self).current_size == old(self).current_size,
            final(self).total_allocations == old(self).total_allocations,
    {
        if size > self.peak_size {
            self.peak_size = size;
        }
    }
}

} // verus!
