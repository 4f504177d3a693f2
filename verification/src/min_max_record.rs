//! Tracks which key carried the smallest and which the largest value seen
//! so far. On ties the earliest key is kept.

use vstd::prelude::*;

verus! {

struct Inner<K> {
    min_key: K,
    min_value: i64,
    max_key: K,
    max_value: i64,
}

/// The key of the smallest and the key of the largest value recorded, with
/// those values; empty until the first update.
pub struct MinMaxRecord<K> {
    inner: Option<Inner<K>>,
}

impl<K> MinMaxRecord<K> {
    /// The recorded minimum: its key and value.
    pub closed spec fn min_spec(self) -> Option<(K, i64)> {
        match self.inner {
            Some(inner) => Some((inner.min_key, inner.min_value)),
            None => None,
        }
    }

    /// The recorded maximum: its key and value.
    pub closed spec fn max_spec(self) -> Option<(K, i64)> {
        match self.inner {
            Some(inner) => Some((inner.max_key, inner.max_value)),
            None => None,
        }
    }

    pub open spec fn wf(self) -> bool {
        match (self.min_spec(), self.max_spec()) {
            (Some(mn), Some(mx)) => mn.1 <= mx.1,
            (None, None) => true,
            _ => false,
        }
    }

    pub fn new() -> (r: MinMaxRecord<K>)
        ensures
            r.wf(),
            r.min_spec() is None,
            r.max_spec() is None,
    {
        MinMaxRecord { inner: None }
    }

    /// Forgets everything recorded.
    pub fn reset(&mut self)
        ensures
            final(self).min_spec() is None,
            final(self).max_spec() is None,
            final(self).wf(),
    {
        self.inner = None;
    }

    /// Records one observation: it becomes the minimum if it is strictly
    /// below the recorded minimum, the maximum if strictly above the
    /// recorded maximum, and is forgotten otherwise.
    pub fn update(&mut self, key: K, value: i64) where K: Copy
        requires
            old(self).wf(),
        ensures
            final(self).wf(),
            match old(self).min_spec() {
                None => final(self).min_spec() == Some((key, value)) && final(self).max_spec()
                    == Some((key, value)),
                Some(mn) => final(self).min_spec() == (if value < mn.1 {
                    Some((key, value))
                } else {
                    Some(mn)
                }) && final(self).max_spec() == (match old(self).max_spec() {
                    Some(mx) => if value > mx.1 {
                        Some((key, value))
                    } else {
                        Some(mx)
                    },
                    None => None,
                }),
            },
    {
        match &mut self.inner {
            None => {
                self.inner = Some(
                    Inner { min_key: key, min_value: value, max_key: key, max_value: value },
                );
            },
            Some(inner) => {
                if value < inner.min_value {
                    inner.min_key = key;
                    inner.min_value = value;
                } else if value > inner.max_value {
                    inner.max_key = key;
                    inner.max_value = value;
                }
            },
        }
    }

    pub fn get_min(&self) -> (r: Option<(&K, i64)>)
        ensures
            match r {
                Some(p) => self.min_spec() == Some((*p.0, p.1)),
                None => self.min_spec() is None,
            },
    {
        match &self.inner {
            Some(inner) => Some((&inner.min_key, inner.min_value)),
            None => None,
        }
    }

    pub fn get_max(&self) -> (r: Option<(&K, i64)>)
        ensures
            match r {
                Some(p) => self.max_spec() == Some((*p.0, p.1)),
                None => self.max_spec() is None,
            },
    {
        match &self.inner {
            Some(inner) => Some((&inner.max_key, inner.max_value)),
            None => None,
        }
    }

    /// Merges another record into this one and empties the other: the
    /// combined record is as if every observation of both had been recorded
    /// here (keeping this record's key on ties).
    pub fn append(&mut self, other: &mut MinMaxRecord<K>)
        requires
            old(self).wf(),
            old(other).wf(),
        ensures
            final(self).wf(),
            final(other).min_spec() is None,
            final(other).max_spec() is None,
            final(self).min_spec() == (match (old(self).min_spec(), old(other).min_spec()) {
                (Some(a), Some(b)) => if b.1 < a.1 {
                    Some(b)
                } else {
                    Some(a)
                },
                (Some(a), None) => Some(a),
                (None, b) => b,
            }),
            final(self).max_spec() == (match (old(self).max_spec(), old(other).max_spec()) {
                (Some(a), Some(b)) => if b.1 > a.1 {
                    Some(b)
                } else {
                    Some(a)
                },
                (Some(a), None) => Some(a),
                (None, b) => b,
            }),
    {
        let taken = other.inner.take();
        match (&mut self.inner, taken) {
            (_, None) => {},
            (None, Some(inner)) => {
                self.inner = Some(inner);
            },
            (Some(this), Some(that)) => {
                if that.min_value < this.min_value {
                    this.min_key = that.min_key;
                    this.min_value = that.min_value;
                }
                if that.max_value > this.max_value {
                    this.max_key = that.max_key;
                    this.max_value = that.max_value;
                }
            },
        }
    }
}

} // verus!
