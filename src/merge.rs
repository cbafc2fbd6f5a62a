//! The merged certificate record: DER encodings with the verdict of the
//! first domain that enumerated each, first write wins.

use crate::pem::{pem_block, pem_encode};
use crate::verdict::{is_root_verdict, is_trusted_root, TrustVerdict};
use vstd::prelude::*;

verus! {

/// Whether some record of `m` is keyed by `k`.
pub open spec fn has_key(m: Seq<(Seq<u8>, TrustVerdict)>, k: Seq<u8>) -> bool {
    exists|i: int| 0 <= i < m.len() && #[trigger] m[i].0 == k
}

/// No two records of `m` share a key.
pub open spec fn keys_unique(m: Seq<(Seq<u8>, TrustVerdict)>) -> bool {
    forall|i: int, j: int| 0 <= i < j < m.len() ==> #[trigger] m[i].0 != #[trigger] m[j].0
}

/// `m` with `p` added at the end unless its key is already there.
pub open spec fn insert_absent(
    m: Seq<(Seq<u8>, TrustVerdict)>,
    p: (Seq<u8>, TrustVerdict),
) -> Seq<(Seq<u8>, TrustVerdict)> {
    if has_key(m, p.0) {
        m
    } else {
        m.push(p)
    }
}

/// The record `m` after the pairs `ps`, in order, each added unless its key
/// is already recorded.
pub open spec fn merge_into(
    m: Seq<(Seq<u8>, TrustVerdict)>,
    ps: Seq<(Seq<u8>, TrustVerdict)>,
) -> Seq<(Seq<u8>, TrustVerdict)>
    decreases ps.len(),
{
    if ps.len() == 0 {
        m
    } else {
        insert_absent(merge_into(m, ps.drop_last()), ps.last())
    }
}

/// The verdict of the first pair of `ps` keyed by `k`, if any.
pub open spec fn first_verdict(ps: Seq<(Seq<u8>, TrustVerdict)>, k: Seq<u8>) -> Option<
    TrustVerdict,
>
    decreases ps.len(),
{
    if ps.len() == 0 {
        None
    } else if first_verdict(ps.drop_last(), k) is Some {
        first_verdict(ps.drop_last(), k)
    } else if ps.last().0 == k {
        Some(ps.last().1)
    } else {
        None
    }
}

/// The keys of the records of `m` whose verdict trusts them as roots, in
/// the order of `m`.
pub open spec fn root_ders(m: Seq<(Seq<u8>, TrustVerdict)>) -> Seq<Seq<u8>>
    decreases m.len(),
{
    if m.len() == 0 {
        Seq::empty()
    } else if is_root_verdict(m.last().1) {
        root_ders(m.drop_last()).push(m.last().0)
    } else {
        root_ders(m.drop_last())
    }
}

/// The PEM blocks of `ders`, one after another.
pub open spec fn concat_blocks(ders: Seq<Seq<u8>>) -> Seq<u8>
    decreases ders.len(),
{
    if ders.len() == 0 {
        Seq::empty()
    } else {
        concat_blocks(ders.drop_last()) + pem_block(ders.last())
    }
}

/// Whether two byte strings are equal.
pub fn bytes_equal(a: &[u8], b: &[u8]) -> (r: bool)
    ensures
        r == (a@ == b@),
{
    if a.len() != b.len() {
        return false;
    }
    let mut i: usize = 0;
    while i < a.len()
        invariant
            a@.len() == b@.len(),
            0 <= i <= a@.len(),
            a@.take(i as int) == b@.take(i as int),
        decreases a@.len() - i,
    {
        if a[i] != b[i] {
            assert(a@[i as int] != b@[i as int]);
            return false;
        }
        assert(a@.take(i + 1) =~= a@.take(i as int).push(a@[i as int]));
        assert(b@.take(i + 1) =~= b@.take(i as int).push(b@[i as int]));
        i = i + 1;
    }
    assert(a@.take(i as int) =~= a@);
    assert(b@.take(i as int) =~= b@);
    true
}

/// Certificates by DER encoding, each with the verdict that was recorded
/// for it first.
pub struct MergedRecord {
    entries: Vec<(Vec<u8>, TrustVerdict)>,
}

impl View for MergedRecord {
    type V = Seq<(Seq<u8>, TrustVerdict)>;

    closed spec fn view(&self) -> Seq<(Seq<u8>, TrustVerdict)> {
        self.entries@.map_values(|e: (Vec<u8>, TrustVerdict)| (e.0@, e.1))
    }
}

impl MergedRecord {
    /// Each certificate is recorded once, and each encoding fits the
    /// address space.
    pub open spec fn wf(&self) -> bool {
        &&& keys_unique(self@)
        &&& forall|i: int| 0 <= i < self@.len() ==> (#[trigger] self@[i]).0.len() <= usize::MAX / 2
    }

    /// An empty record.
    pub fn new() -> (r: MergedRecord)
        ensures
            r.wf(),
            r@ == Seq::<(Seq<u8>, TrustVerdict)>::empty(),
    {
        let r = MergedRecord { entries: Vec::new() };
        assert(r@ =~= Seq::<(Seq<u8>, TrustVerdict)>::empty());
        r
    }

    /// The verdict recorded for `der`, if it is recorded.
    pub fn verdict_of(&self, der: &[u8]) -> (r: Option<TrustVerdict>)
        requires
            self.wf(),
        ensures
            r == first_verdict(self@, der@),
            r is Some <==> has_key(self@, der@),
    {
        let mut i: usize = 0;
        while i < self.entries.len()
            invariant
                self.wf(),
                0 <= i <= self@.len(),
                forall|j: int| 0 <= j < i ==> (#[trigger] self@[j]).0 != der@,
            decreases self@.len() - i,
        {
            let entry = &self.entries[i];
            if bytes_equal(entry.0.as_slice(), der) {
                proof {
                    assert(self@[i as int] == (entry.0@, entry.1));
                    lemma_first_verdict_at(self@, der@, i as int);
                }
                return Some(entry.1);
            }
            assert(self@[i as int].0 == entry.0@);
            i = i + 1;
        }
        proof {
            lemma_first_verdict_absent(self@, der@);
        }
        None
    }

    /// Records `der` with verdict `v` unless `der` is already recorded; an
    /// existing record is left as it is.
    pub fn insert_if_absent(&mut self, der: &[u8], v: TrustVerdict)
        requires
            old(self).wf(),
            der@.len() <= usize::MAX / 2,
        ensures
            final(self).wf(),
            final(self)@ == insert_absent(old(self)@, (der@, v)),
    {
        let found = self.verdict_of(der);
        if found.is_none() {
            let key = vstd::slice::slice_to_vec(der);
            self.entries.push((key, v));
            proof {
                assert(self@ =~= old(self)@.push((der@, v)));
            }
        }
    }

    /// The PEM blocks of the certificates whose verdict trusts them as
    /// roots, one after another, in the order they were recorded.
    pub fn pem_bundle(&self) -> (r: Vec<u8>)
        requires
            self.wf(),
        ensures
            r@ == concat_blocks(root_ders(self@)),
    {
        let mut out: Vec<u8> = Vec::new();
        let mut i: usize = 0;
        while i < self.entries.len()
            invariant
                self.wf(),
                0 <= i <= self@.len(),
                out@ == concat_blocks(root_ders(self@.take(i as int))),
            decreases self@.len() - i,
        {
            let entry = &self.entries[i];
            proof {
                assert(self@[i as int] == (entry.0@, entry.1));
                assert(self@.take(i + 1).drop_last() =~= self@.take(i as int));
            }
            if is_trusted_root(entry.1) {
                let mut block = pem_encode(entry.0.as_slice());
                out.append(&mut block);
                proof {
                    let ds = root_ders(self@.take(i as int));
                    assert(ds.push(entry.0@).drop_last() =~= ds);
                }
            }
            i = i + 1;
        }
        assert(self@.take(i as int) =~= self@);
        out
    }
}

pub proof fn lemma_first_verdict_at(m: Seq<(Seq<u8>, TrustVerdict)>, k: Seq<u8>, i: int)
    requires
        0 <= i < m.len(),
        m[i].0 == k,
        forall|j: int| 0 <= j < i ==> (#[trigger] m[j]).0 != k,
    ensures
        first_verdict(m, k) == Some(m[i].1),
    decreases m.len(),
{
    let d = m.drop_last();
    if i == m.len() - 1 {
        assert forall|j: int| 0 <= j < d.len() implies (#[trigger] d[j]).0 != k by {
            assert(d[j] == m[j]);
        }
        lemma_first_verdict_absent(d, k);
    } else {
        assert forall|j: int| 0 <= j < i implies (#[trigger] d[j]).0 != k by {
            assert(d[j] == m[j]);
        }
        lemma_first_verdict_at(d, k, i);
    }
}

proof fn lemma_first_verdict_absent(m: Seq<(Seq<u8>, TrustVerdict)>, k: Seq<u8>)
    requires
        forall|j: int| 0 <= j < m.len() ==> (#[trigger] m[j]).0 != k,
    ensures
        first_verdict(m, k) is None,
        !has_key(m, k),
    decreases m.len(),
{
    if m.len() > 0 {
        let d = m.drop_last();
        assert forall|j: int| 0 <= j < d.len() implies (#[trigger] d[j]).0 != k by {
            assert(d[j] == m[j]);
        }
        lemma_first_verdict_absent(d, k);
    }
}

/// A key is recorded exactly when a first verdict exists for it, and that
/// verdict is the one of a pair with the key.
pub proof fn lemma_first_verdict_has_key(m: Seq<(Seq<u8>, TrustVerdict)>, k: Seq<u8>)
    ensures
        first_verdict(m, k) is Some <==> has_key(m, k),
        first_verdict(m, k) is Some ==> exists|i: int|
            0 <= i < m.len() && m[i].0 == k && #[trigger] m[i].1 == first_verdict(m, k)->0,
    decreases m.len(),
{
    if m.len() > 0 {
        let d = m.drop_last();
        lemma_first_verdict_has_key(d, k);
        if has_key(d, k) {
            let i = choose|i: int| 0 <= i < d.len() && #[trigger] d[i].0 == k;
            assert(m[i] == d[i]);
        }
        if has_key(m, k) && !has_key(d, k) {
            let i = choose|i: int| 0 <= i < m.len() && #[trigger] m[i].0 == k;
            if i < d.len() {
                assert(d[i] == m[i]);
            }
        }
        if first_verdict(d, k) is Some {
            let i = choose|i: int|
                0 <= i < d.len() && d[i].0 == k && #[trigger] d[i].1 == first_verdict(d, k)->0;
            assert(m[i] == d[i]);
        }
        if first_verdict(m, k) is Some && first_verdict(d, k) is None {
            assert(m[m.len() - 1].1 == first_verdict(m, k)->0);
        }
    }
}

/// Merging into an empty record keeps one record per key, whose verdict is
/// the first one given for that key.
pub proof fn lemma_merge_first_wins(ps: Seq<(Seq<u8>, TrustVerdict)>)
    ensures
        keys_unique(merge_into(Seq::empty(), ps)),
        forall|k: Seq<u8>|
            #[trigger] first_verdict(merge_into(Seq::empty(), ps), k) == first_verdict(ps, k),
    decreases ps.len(),
{
    if ps.len() > 0 {
        let d = ps.drop_last();
        let p = ps.last();
        lemma_merge_first_wins(d);
        let m = merge_into(Seq::empty(), d);
        lemma_first_verdict_has_key(m, p.0);
        if !has_key(m, p.0) {
            let n = m.push(p);
            assert(n.drop_last() =~= m);
            assert forall|i: int, j: int| 0 <= i < j < n.len() implies #[trigger] n[i].0
                != #[trigger] n[j].0 by {
                if j == n.len() - 1 && n[i].0 == n[j].0 {
                    assert(m[i] == n[i]);
                    assert(has_key(m, p.0));
                }
                if j < n.len() - 1 {
                    assert(m[i] == n[i] && m[j] == n[j]);
                }
            }
        }
        assert(ps.drop_last() == d);
        assert forall|k: Seq<u8>|
            #[trigger] first_verdict(merge_into(Seq::empty(), ps), k) == first_verdict(
                ps,
                k,
            ) by {
            assert(first_verdict(m, k) == first_verdict(d, k));
            assert(first_verdict(m, p.0) == first_verdict(d, p.0));
            if !has_key(m, p.0) {
                assert(m.push(p).drop_last() =~= m);
            }
        }
    }
}

/// The first verdict in two runs of pairs, one after the other, is the one
/// of the first run where it has the key.
pub proof fn lemma_first_verdict_concat(
    a: Seq<(Seq<u8>, TrustVerdict)>,
    b: Seq<(Seq<u8>, TrustVerdict)>,
    k: Seq<u8>,
)
    ensures
        first_verdict(a + b, k) == if first_verdict(a, k) is Some {
            first_verdict(a, k)
        } else {
            first_verdict(b, k)
        },
    decreases b.len(),
{
    if b.len() == 0 {
        assert(a + b =~= a);
    } else {
        assert((a + b).drop_last() =~= a + b.drop_last());
        lemma_first_verdict_concat(a, b.drop_last(), k);
    }
}

/// Merging two runs of pairs one after the other is merging them joined.
pub proof fn lemma_merge_into_concat(
    m: Seq<(Seq<u8>, TrustVerdict)>,
    a: Seq<(Seq<u8>, TrustVerdict)>,
    b: Seq<(Seq<u8>, TrustVerdict)>,
)
    ensures
        merge_into(merge_into(m, a), b) == merge_into(m, a + b),
    decreases b.len(),
{
    if b.len() == 0 {
        assert(a + b =~= a);
    } else {
        assert((a + b).drop_last() =~= a + b.drop_last());
        lemma_merge_into_concat(m, a, b.drop_last());
    }
}

/// In a record with one entry per key, a key is among the trusted roots
/// exactly when its verdict trusts it as a root.
pub proof fn lemma_root_ders_member(m: Seq<(Seq<u8>, TrustVerdict)>, k: Seq<u8>)
    requires
        keys_unique(m),
    ensures
        root_ders(m).contains(k) <==> (first_verdict(m, k) is Some && is_root_verdict(
            first_verdict(m, k)->0,
        )),
    decreases m.len(),
{
    if m.len() > 0 {
        let d = m.drop_last();
        assert forall|i: int, j: int| 0 <= i < j < d.len() implies #[trigger] d[i].0
            != #[trigger] d[j].0 by {
            assert(d[i] == m[i] && d[j] == m[j]);
        }
        lemma_root_ders_member(d, k);
        lemma_first_verdict_has_key(d, k);
        if first_verdict(d, k) is Some {
            let i = choose|i: int|
                0 <= i < d.len() && d[i].0 == k && #[trigger] d[i].1 == first_verdict(d, k)->0;
            assert(m[i] == d[i]);
            assert(m.last().0 != k);
        }
        let r = root_ders(d);
        if is_root_verdict(m.last().1) {
            if r.push(m.last().0).contains(k) && !r.contains(k) {
                let j = choose|j: int| 0 <= j < r.len() + 1 && r.push(m.last().0)[j] == k;
                assert(j == r.len());
            }
            if r.contains(k) {
                let j = choose|j: int| 0 <= j < r.len() && r[j] == k;
                assert(r.push(m.last().0)[j] == k);
            }
            if m.last().0 == k {
                assert(r.push(m.last().0)[r.len() as int] == k);
            }
        }
    }
}

} // verus!
