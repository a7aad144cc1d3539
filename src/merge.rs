//! Gathering the workers' outputs. Each output is put in the slot of its
//! chunk as the worker finishes; the result is the slots' contents in chunk
//! order, whatever order the workers finished in.

use vstd::prelude::*;

verus! {

/// The concatenation of the slots in order, or `None` while a slot is empty.
pub open spec fn merged(s: Seq<Option<Seq<u8>>>) -> Option<Seq<u8>>
    decreases s.len(),
{
    if s.len() == 0 {
        Some(seq![])
    } else {
        match (merged(s.drop_last()), s.last()) {
            (Some(a), Some(b)) => Some(a + b),
            _ => None,
        }
    }
}

/// The contents of a list of optional outputs.
pub open spec fn parts_view(parts: Seq<Option<Vec<u8>>>) -> Seq<Option<Seq<u8>>> {
    Seq::new(
        parts.len(),
        |i: int|
            match parts[i] {
                Some(v) => Some(v@),
                None => None,
            },
    )
}

/// The concatenation of a list of sequences, in order.
pub open spec fn concat_all(s: Seq<Seq<u8>>) -> Seq<u8>
    decreases s.len(),
{
    if s.len() == 0 {
        seq![]
    } else {
        concat_all(s.drop_last()) + s.last()
    }
}

/// `n` empty slots.
pub open spec fn empty_slots(n: nat) -> Seq<Option<Seq<u8>>> {
    Seq::new(n, |i: int| None::<Seq<u8>>)
}

/// The slots after the completions of `log`, in the order given: entry
/// `(i, out)` puts `out` in slot `i`.
pub open spec fn apply_completions(n: nat, log: Seq<(nat, Seq<u8>)>) -> Seq<Option<Seq<u8>>>
    decreases log.len(),
{
    if log.len() == 0 {
        empty_slots(n)
    } else {
        let s = apply_completions(n, log.drop_last());
        let e = log.last();
        if e.0 < n {
            s.update(e.0 as int, Some(e.1))
        } else {
            s
        }
    }
}

/// No two entries of `log` are for the same slot.
pub open spec fn distinct_slots(log: Seq<(nat, Seq<u8>)>) -> bool {
    forall|a: int, b: int|
        0 <= a < log.len() && 0 <= b < log.len() && a != b ==> (#[trigger] log[a]).0 != (
        #[trigger] log[b]).0
}

pub proof fn lemma_apply_len(n: nat, log: Seq<(nat, Seq<u8>)>)
    ensures
        apply_completions(n, log).len() == n,
    decreases log.len(),
{
    if log.len() > 0 {
        lemma_apply_len(n, log.drop_last());
    }
}

pub proof fn lemma_apply_slot(n: nat, log: Seq<(nat, Seq<u8>)>, i: int)
    requires
        distinct_slots(log),
        0 <= i < n,
    ensures
        apply_completions(n, log).len() == n,
        forall|k: int|
            0 <= k < log.len() && (#[trigger] log[k]).0 == i ==> apply_completions(n, log)[i] == Some(
                log[k].1,
            ),
        (forall|k: int| 0 <= k < log.len() ==> (#[trigger] log[k]).0 != i) ==> apply_completions(
            n,
            log,
        )[i] is None,
    decreases log.len(),
{
    if log.len() > 0 {
        let pre = log.drop_last();
        assert(distinct_slots(pre)) by {
            assert forall|a: int, b: int|
                0 <= a < pre.len() && 0 <= b < pre.len() && a != b implies (#[trigger] pre[a]).0
                != (#[trigger] pre[b]).0 by {
                assert(pre[a] == log[a] && pre[b] == log[b]);
            }
        }
        lemma_apply_slot(n, pre, i);
        assert forall|k: int|
            0 <= k < log.len() && (#[trigger] log[k]).0 == i implies apply_completions(n, log)[i]
            == Some(log[k].1) by {
            if k < log.len() - 1 {
                assert(pre[k] == log[k]);
                assert(log[log.len() - 1].0 != i);
            }
        }
        if forall|k: int| 0 <= k < log.len() ==> (#[trigger] log[k]).0 != i {
            assert forall|k: int| 0 <= k < pre.len() implies (#[trigger] pre[k]).0 != i by {
                assert(pre[k] == log[k]);
            }
            assert(log[log.len() - 1].0 != i);
        }
    }
}

/// The order in which workers finish does not change what is merged: two
/// completion logs with one entry per slot and the same entries give the
/// same slots, and so the same merged output.
pub proof fn lemma_completion_order_irrelevant(
    n: nat,
    log1: Seq<(nat, Seq<u8>)>,
    log2: Seq<(nat, Seq<u8>)>,
)
    requires
        distinct_slots(log1),
        distinct_slots(log2),
        forall|e: (nat, Seq<u8>)| log1.contains(e) <==> log2.contains(e),
    ensures
        apply_completions(n, log1) == apply_completions(n, log2),
        merged(apply_completions(n, log1)) == merged(apply_completions(n, log2)),
{
    let s1 = apply_completions(n, log1);
    let s2 = apply_completions(n, log2);
    if n > 0 {
        lemma_apply_slot(n, log1, 0);
        lemma_apply_slot(n, log2, 0);
    } else {
        lemma_apply_len(n, log1);
        lemma_apply_len(n, log2);
    }
    assert forall|i: int| 0 <= i < n implies s1[i] == s2[i] by {
        lemma_apply_slot(n, log1, i);
        lemma_apply_slot(n, log2, i);
        if exists|k: int| 0 <= k < log1.len() && (#[trigger] log1[k]).0 == i {
            let k = choose|k: int| 0 <= k < log1.len() && (#[trigger] log1[k]).0 == i;
            assert(log1.contains(log1[k]));
            assert(log2.contains(log1[k]));
            let k2 = choose|k2: int| 0 <= k2 < log2.len() && log2[k2] == log1[k];
            assert(log2[k2].0 == i);
        } else if exists|k: int| 0 <= k < log2.len() && (#[trigger] log2[k]).0 == i {
            let k = choose|k: int| 0 <= k < log2.len() && (#[trigger] log2[k]).0 == i;
            assert(log2.contains(log2[k]));
            assert(log1.contains(log2[k]));
            let k1 = choose|k1: int| 0 <= k1 < log1.len() && log1[k1] == log2[k];
            assert(log1[k1].0 == i);
        }
    }
    assert(s1 == s2);
}

/// Slots for the outputs of the workers of one run, indexed by chunk.
pub struct Merger {
    slots: Vec<Option<Vec<u8>>>,
}

impl View for Merger {
    type V = Seq<Option<Seq<u8>>>;

    closed spec fn view(&self) -> Seq<Option<Seq<u8>>> {
        Seq::new(
            self.slots@.len(),
            |i: int|
                match self.slots@[i] {
                    Some(v) => Some(v@),
                    None => None,
                },
        )
    }
}

impl Merger {
    /// Slots for `n` chunks, all empty.
    pub fn new(n: usize) -> (r: Merger)
        ensures
            r@ == empty_slots(n as nat),
    {
        let mut slots: Vec<Option<Vec<u8>>> = Vec::with_capacity(n);
        let mut i: usize = 0;
        while i < n
            invariant
                i <= n,
                slots@.len() == i,
                forall|j: int| 0 <= j < i ==> #[trigger] slots@[j] is None,
            decreases n - i,
        {
            slots.push(None);
            i = i + 1;
        }
        let r = Merger { slots };
        assert(r@ == empty_slots(n as nat));
        r
    }

    /// Slots already filled with the given outputs.
    pub fn from_parts(parts: Vec<Option<Vec<u8>>>) -> (r: Merger)
        ensures
            r@ == parts_view(parts@),
    {
        Merger { slots: parts }
    }

    /// The number of chunks.
    pub fn len(&self) -> (r: usize)
        ensures
            r == self@.len(),
    {
        self.slots.len()
    }

    /// Records the output of the worker of chunk `index`.
    pub fn complete(&mut self, index: usize, output: Vec<u8>)
        requires
            index < old(self)@.len(),
        ensures
            final(self)@ == old(self)@.update(index as int, Some(output@)),
    {
        let ghost out = output@;
        self.slots.set(index, Some(output));
        assert(self@ == old(self)@.update(index as int, Some(out)));
    }

    /// The outputs in chunk order, once every chunk has one.
    pub fn finish(self) -> (r: Option<Vec<u8>>)
        ensures
            match r {
                Some(v) => merged(self@) == Some(v@),
                None => merged(self@) is None,
            },
    {
        let ghost view = self@;
        let mut slots = self.slots;
        let mut out: Vec<u8> = Vec::new();
        let mut i: usize = 0;
        while i < slots.len()
            invariant
                i <= slots@.len(),
                view == self@,
                view == Seq::new(
                    slots@.len(),
                    |j: int|
                        match slots@[j] {
                            Some(v) => Some(v@),
                            None => None,
                        },
                ),
                merged(view.subrange(0, i as int)) == Some(out@),
            decreases slots@.len() - i,
        {
            assert(view.subrange(0, i + 1).drop_last() == view.subrange(0, i as int));
            match &slots[i] {
                Some(v) => {
                    let mut j: usize = 0;
                    let ghost start = out@;
                    while j < v.len()
                        invariant
                            j <= v@.len(),
                            out@ == start + v@.subrange(0, j as int),
                        decreases v@.len() - j,
                    {
                        out.push(v[j]);
                        assert(v@.subrange(0, j + 1) == v@.subrange(0, j as int).push(v@[j as int]));
                        j = j + 1;
                    }
                    assert(v@.subrange(0, v@.len() as int) == v@);
                },
                None => {
                    proof {
                        assert(view[i as int] is None);
                        assert(view.subrange(0, i + 1).last() is None);
                        assert(merged(view.subrange(0, i + 1)) is None);
                        lemma_merged_none_extends(view, i + 1, view.len() as int);
                        assert(view.subrange(0, view.len() as int) == view);
                    }
                    return None;
                },
            }
            i = i + 1;
        }
        assert(view.subrange(0, view.len() as int) == view);
        Some(out)
    }
}

pub proof fn lemma_merged_none_extends(s: Seq<Option<Seq<u8>>>, i: int, j: int)
    requires
        0 <= i <= j <= s.len(),
        merged(s.subrange(0, i)) is None,
    ensures
        merged(s.subrange(0, j)) is None,
    decreases j - i,
{
    if j > i {
        lemma_merged_none_extends(s, i, j - 1);
        assert(s.subrange(0, j).drop_last() == s.subrange(0, j - 1));
    }
}

} // verus!
