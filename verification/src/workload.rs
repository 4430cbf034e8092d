//! A countable, mergeable collection of discrete work units.

use vstd::prelude::*;

verus! {

/// Capability set of a workload value: units can be merged in, removed by
/// value, and counted.
pub trait Workload: Sized {
    /// The units this value holds, in order; units may repeat.
    spec fn units(&self) -> Seq<Seq<u8>>;

    /// Merge every unit of `other` into `self`.
    fn add(&mut self, other: Self)
        ensures
            final(self).units() == old(self).units() + other.units(),
    ;

    /// For every unit of `other`, remove every unit of `self` equal to it:
    /// removal is by value, across all occurrences, not one per call.
    fn sub(&mut self, other: &Self)
        ensures
            final(self).units() == remaining_units(old(self).units(), other.units()),
            final(self).units().len() <= old(self).units().len(),
    ;

    /// The number of units held.
    fn len(&self) -> (n: usize)
        ensures
            n == self.units().len(),
    ;

    /// Wrap a raw byte payload as a single-unit workload.
    fn from(data: Vec<u8>) -> (w: Self)
        ensures
            w.units() == seq![data@],
    ;
}

/// The units of `cur` that survive removing every unit equal to one of
/// `removed`.
pub open spec fn remaining_units(cur: Seq<Seq<u8>>, removed: Seq<Seq<u8>>) -> Seq<Seq<u8>> {
    cur.filter(|u: Seq<u8>| !removed.contains(u))
}

/// The byte sequences that a list of payloads holds, in order.
pub open spec fn unit_views(s: Seq<Vec<u8>>) -> Seq<Seq<u8>> {
    Seq::new(s.len(), |i: int| s[i]@)
}

pub broadcast proof fn lemma_unit_views_len(s: Seq<Vec<u8>>)
    ensures
        #[trigger] unit_views(s).len() == s.len(),
{
}

pub broadcast proof fn lemma_unit_views_index(s: Seq<Vec<u8>>, i: int)
    requires
        0 <= i < s.len(),
    ensures
        #[trigger] unit_views(s)[i] == s[i]@,
{
}

pub broadcast proof fn lemma_unit_views_push(s: Seq<Vec<u8>>, x: Vec<u8>)
    ensures
        #[trigger] unit_views(s.push(x)) == unit_views(s).push(x@),
{
    assert(unit_views(s.push(x)) =~= unit_views(s).push(x@));
}

/// A workload held as a list of byte-payload units.
#[derive(Debug)]
pub struct WorkSet {
    pub units: Vec<Vec<u8>>,
}

impl WorkSet {
    /// A workload with no units.
    pub fn new() -> (w: WorkSet)
        ensures
            w.units() == Seq::<Seq<u8>>::empty(),
    {
        let w = WorkSet { units: Vec::new() };
        proof {
            assert(w.units() =~= Seq::<Seq<u8>>::empty());
        }
        w
    }

    /// An identical copy of this workload.
    pub fn duplicate(&self) -> (w: WorkSet)
        ensures
            w.units() == self.units(),
    {
        broadcast use lemma_unit_views_len, lemma_unit_views_index, lemma_unit_views_push;

        let mut copied: Vec<Vec<u8>> = Vec::new();
        let mut i: usize = 0;
        while i < self.units.len()
            invariant
                i <= self.units@.len(),
                copied@.len() == i,
                unit_views(copied@) == unit_views(self.units@).take(i as int),
            decreases self.units@.len() - i,
        {
            copied.push(copy_bytes(&self.units[i]));
            proof {
                assert(unit_views(copied@) =~= unit_views(self.units@).take(i + 1));
            }
            i = i + 1;
        }
        proof {
            assert(unit_views(self.units@).take(self.units@.len() as int) =~= unit_views(
                self.units@,
            ));
        }
        WorkSet { units: copied }
    }
}

impl Workload for WorkSet {
    open spec fn units(&self) -> Seq<Seq<u8>> {
        unit_views(self.units@)
    }

    fn add(&mut self, other: Self) {
        broadcast use lemma_unit_views_len, lemma_unit_views_index, lemma_unit_views_push;

        let ghost before = unit_views(self.units@);
        let other_units = other.units;
        let mut i: usize = 0;
        while i < other_units.len()
            invariant
                i <= other_units@.len(),
                unit_views(self.units@) == before + unit_views(other_units@).take(i as int),
            decreases other_units@.len() - i,
        {
            let ghost prev = self.units@;
            self.units.push(copy_bytes(&other_units[i]));
            proof {
                assert(self.units@.len() == prev.len() + 1);
                assert(forall|k: int| 0 <= k < prev.len() ==> #[trigger] self.units@[k] == prev[k]);
                assert(self.units@[prev.len() as int]@ == other_units@[i as int]@);
                assert(unit_views(other_units@).len() == other_units@.len());
                assert(unit_views(prev).len() == prev.len());
                assert(prev.len() == before.len() + i);
                let rhs = before + unit_views(other_units@).take(i + 1);
                assert(rhs.len() == before.len() + i + 1);
                assert forall|k: int| 0 <= k < self.units@.len() implies unit_views(self.units@)[k]
                    == rhs[k] by {
                    if k < prev.len() {
                        assert(unit_views(prev)[k] == prev[k]@);
                        assert((before + unit_views(other_units@).take(i as int))[k] == rhs[k]);
                    }
                }
                assert(unit_views(self.units@) =~= rhs);
            }
            i = i + 1;
        }
        proof {
            assert(unit_views(other_units@).take(other_units@.len() as int) =~= unit_views(
                other_units@,
            ));
            assert(other.units() == unit_views(other_units@));
        }
    }

    fn sub(&mut self, other: &Self) {
        broadcast use
            vstd::seq_lib::group_filter_ensures,
            lemma_unit_views_len,
            lemma_unit_views_index,
            lemma_unit_views_push,
        ;

        let ghost before = unit_views(self.units@);
        let mut kept: Vec<Vec<u8>> = Vec::new();
        let mut i: usize = 0;
        while i < self.units.len()
            invariant
                i <= self.units@.len(),
                before == unit_views(self.units@),
                kept@.len() <= i,
                unit_views(kept@) == remaining_units(before.take(i as int), other.units()),
            decreases self.units@.len() - i,
        {
            let keep = !contains_unit(&other.units, &self.units[i]);
            proof {
                reveal_with_fuel(Seq::filter, 2);
                assert(self.units@[i as int]@ == before[i as int]);
                assert(before.take(i + 1).drop_last() =~= before.take(i as int));
                assert(before.take(i + 1).last() == before[i as int]);
                if keep {
                    assert(remaining_units(before.take(i + 1), other.units()) == remaining_units(
                        before.take(i as int),
                        other.units(),
                    ).push(before[i as int]));
                } else {
                    assert(remaining_units(before.take(i + 1), other.units()) == remaining_units(
                        before.take(i as int),
                        other.units(),
                    ));
                }
            }
            if keep {
                let ghost prevkept = kept@;
                kept.push(copy_bytes(&self.units[i]));
                proof {
                    assert(kept@.len() == prevkept.len() + 1);
                    assert(forall|k: int| 0 <= k < prevkept.len() ==> #[trigger] kept@[k]
                        == prevkept[k]);
                    assert(kept@[prevkept.len() as int]@ == before[i as int]);
                    let rhs = unit_views(prevkept).push(before[i as int]);

                    assert forall|k: int| 0 <= k < kept@.len() implies unit_views(kept@)[k]
                        == rhs[k] by {
                        if k < prevkept.len() {
                            assert(unit_views(prevkept)[k] == prevkept[k]@);
                        }
                    }
                    assert(unit_views(kept@) =~= rhs);
                }
            }
            i = i + 1;
        }
        proof {
            assert(before.take(before.len() as int) =~= before);
        }
        self.units = kept;
    }

    fn len(&self) -> (n: usize) {
        self.units.len()
    }

    fn from(data: Vec<u8>) -> (w: Self) {
        broadcast use lemma_unit_views_len, lemma_unit_views_index, lemma_unit_views_push;

        let ghost d = data@;
        let mut units: Vec<Vec<u8>> = Vec::new();
        units.push(data);
        let w = WorkSet { units };
        proof {
            assert(w.units() =~= seq![d]);
        }
        w
    }
}

impl Default for WorkSet {
    /// A workload with no units.
    fn default() -> (w: Self)
        ensures
            w.units() == Seq::<Seq<u8>>::empty(),
    {
        WorkSet::new()
    }
}

/// Whether two byte payloads hold the same bytes.
pub fn bytes_eq(a: &Vec<u8>, b: &Vec<u8>) -> (r: bool)
    ensures
        r <==> a@ == b@,
{
    if a.len() != b.len() {
        return false;
    }
    let mut i: usize = 0;
    while i < a.len()
        invariant
            i <= a@.len(),
            a@.len() == b@.len(),
            forall|j: int| 0 <= j < i ==> a@[j] == b@[j],
        decreases a@.len() - i,
    {
        if a[i] != b[i] {
            return false;
        }
        i = i + 1;
    }
    proof {
        assert(a@ =~= b@);
    }
    true
}

/// An identical copy of a byte payload.
pub fn copy_bytes(v: &Vec<u8>) -> (r: Vec<u8>)
    ensures
        r@ == v@,
{
    let mut out: Vec<u8> = Vec::new();
    let mut i: usize = 0;
    while i < v.len()
        invariant
            i <= v@.len(),
            out@ == v@.take(i as int),
        decreases v@.len() - i,
    {
        out.push(v[i]);
        proof {
            assert(out@ =~= v@.take(i + 1));
        }
        i = i + 1;
    }
    proof {
        assert(v@.take(v@.len() as int) =~= v@);
    }
    out
}

/// Whether some unit on the list holds the same bytes as `u`.
pub fn contains_unit(units: &Vec<Vec<u8>>, u: &Vec<u8>) -> (r: bool)
    ensures
        r <==> unit_views(units@).contains(u@),
{
    broadcast use lemma_unit_views_len, lemma_unit_views_index;

    let mut i: usize = 0;
    while i < units.len()
        invariant
            i <= units@.len(),
            forall|j: int| 0 <= j < i ==> unit_views(units@)[j] != u@,
        decreases units@.len() - i,
    {
        if bytes_eq(&units[i], u) {
            proof {
                assert(unit_views(units@)[i as int] == u@);
            }
            return true;
        }
        i = i + 1;
    }
    proof {
        assert(forall|j: int| 0 <= j < units@.len() ==> unit_views(units@)[j] != u@);
        assert(!unit_views(units@).contains(u@));
    }
    false
}

} // verus!
