//! A map from identifiers to values that is written one range at a time.

use vstd::prelude::*;
use crate::id::ID;
use crate::span::{CounterSpan, IdSpan};

verus! {

/// One written range and its value.
#[derive(Clone, Copy, Debug)]
pub struct Entry<V> {
    pub span: IdSpan,
    pub value: V,
}

/// Maps every identifier of the ranges written so far to the value written last for it.
#[derive(Debug)]
pub struct RangeMap<V> {
    pub entries: Vec<Entry<V>>,
}

/// The map that sends each identifier of `span` to `value`.
pub open spec fn span_map<V>(span: IdSpan, value: V) -> Map<ID, V> {
    Map::new(|id: ID| span.spec_contains(id), |id: ID| value)
}

/// What a list of writes amounts to: later writes win.
pub open spec fn entries_map<V>(entries: Seq<Entry<V>>) -> Map<ID, V>
    decreases entries.len(),
{
    if entries.len() == 0 {
        Map::empty()
    } else {
        entries_map(entries.drop_last()).union_prefer_right(
            span_map(entries.last().span, entries.last().value),
        )
    }
}

/// A further write overrides what the writes before it amount to.
pub proof fn lemma_entries_push<V>(entries: Seq<Entry<V>>, e: Entry<V>)
    ensures
        entries_map(entries.push(e)) == entries_map(entries).union_prefer_right(
            span_map(e.span, e.value),
        ),
{
    assert(entries.push(e).drop_last() =~= entries);
}

impl<V> View for RangeMap<V> {
    type V = Map<ID, V>;

    open spec fn view(&self) -> Map<ID, V> {
        entries_map(self.entries@)
    }
}

impl<V: Copy> RangeMap<V> {
    /// The map without entries.
    pub fn new() -> (m: Self)
        ensures
            m@ == Map::<ID, V>::empty(),
    {
        RangeMap { entries: Vec::new() }
    }

    /// Writes `value` for every identifier of `span`.
    pub fn set(&mut self, span: IdSpan, value: V)
        ensures
            final(self)@ == old(self)@.union_prefer_right(span_map(span, value)),
    {
        let mut kept: Vec<Entry<V>> = Vec::new();
        let n = self.entries.len();
        let mut i: usize = 0;
        let ghost hidden = span_map(span, value).dom();
        proof {
            assert(self.entries@.take(0) =~= Seq::<Entry<V>>::empty());
            assert(entries_map(kept@) =~= entries_map(self.entries@.take(0)).remove_keys(hidden));
        }
        while i < n
            invariant
                n == self.entries.len(),
                i <= n,
                hidden == span_map(span, value).dom(),
                entries_map(kept@) =~= entries_map(self.entries@.take(i as int)).remove_keys(hidden),
            decreases n - i,
        {
            let e = self.entries[i];
            proof {
                assert(self.entries@.take(i as int + 1) =~= self.entries@.take(i as int).push(e));
                lemma_entries_push(self.entries@.take(i as int), e);
            }
            if e.span.peer != span.peer || e.span.counter.end <= span.counter.start
                || e.span.counter.start >= span.counter.end || span.counter.start
                >= span.counter.end {
                proof {
                    lemma_entries_push(kept@, e);
                }
                kept.push(e);
            } else {
                if e.span.counter.start < span.counter.start {
                    let left = Entry {
                        span: IdSpan {
                            peer: e.span.peer,
                            counter: CounterSpan { start: e.span.counter.start, end: span.counter.start },
                        },
                        value: e.value,
                    };
                    proof {
                        lemma_entries_push(kept@, left);
                    }
                    kept.push(left);
                }
                if span.counter.end < e.span.counter.end {
                    let right = Entry {
                        span: IdSpan {
                            peer: e.span.peer,
                            counter: CounterSpan { start: span.counter.end, end: e.span.counter.end },
                        },
                        value: e.value,
                    };
                    proof {
                        lemma_entries_push(kept@, right);
                    }
                    kept.push(right);
                }
            }
            i = i + 1;
            proof {
                assert(entries_map(kept@) =~= entries_map(self.entries@.take(i as int)).remove_keys(
                    hidden,
                ));
            }
        }
        proof {
            assert(self.entries@.take(n as int) =~= self.entries@);
            lemma_entries_push(kept@, Entry { span, value });
        }
        kept.push(Entry { span, value });
        proof {
            assert(entries_map(kept@) =~= old(self)@.union_prefer_right(span_map(span, value)));
        }
        self.entries = kept;
    }

    /// The value written last for `id`, if any was.
    pub fn get(&self, id: ID) -> (v: Option<V>)
        ensures
            v == (if self@.contains_key(id) {
                Some(self@[id])
            } else {
                None
            }),
    {
        let mut i: usize = self.entries.len();
        proof {
            assert(self.entries@.take(i as int) =~= self.entries@);
        }
        while i > 0
            invariant
                i <= self.entries.len(),
                self@.contains_key(id) == entries_map(self.entries@.take(i as int)).contains_key(id),
                self@.contains_key(id) ==> self@[id] == entries_map(self.entries@.take(i as int))[id],
            decreases i,
        {
            i = i - 1;
            let e = &self.entries[i];
            proof {
                assert(self.entries@.take(i as int + 1) =~= self.entries@.take(i as int).push(*e));
                lemma_entries_push(self.entries@.take(i as int), *e);
            }
            if e.span.contains(id) {
                return Some(e.value);
            }
        }
        proof {
            assert(self.entries@.take(0) =~= Seq::<Entry<V>>::empty());
        }
        None
    }

    /// Whether a value was written for `id`.
    pub fn has(&self, id: ID) -> (b: bool)
        ensures
            b == self@.contains_key(id),
    {
        self.get(id).is_some()
    }

    /// Forgets every write.
    pub fn clear(&mut self)
        ensures
            final(self)@ == Map::<ID, V>::empty(),
    {
        self.entries.clear();
    }
}

} // verus!
