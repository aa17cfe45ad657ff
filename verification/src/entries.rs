use vstd::multiset::Multiset;
use vstd::prelude::*;

use crate::hashing::{
    lemma_lex_lt_connected, lemma_lex_lt_irreflexive, lemma_lex_lt_transitive, lex_lt, ObjectId,
};

verus! {

broadcast use vstd::seq_lib::group_to_multiset_ensures;

/// One (object id, pack offset) pair read out of a single per-pack index.
pub struct SourceEntry {
    pub id: ObjectId,
    pub pack_offset: u64,
}

/// The mathematical value of a `SourceEntry`.
pub struct SourceEntryV {
    pub id: Seq<u8>,
    pub pack_offset: u64,
}

impl View for SourceEntry {
    type V = SourceEntryV;

    open spec fn view(&self) -> SourceEntryV {
        SourceEntryV { id: self.id@, pack_offset: self.pack_offset }
    }
}

/// The loaded contents of one per-pack index file: its name, its
/// modification time and every object it maps.
pub struct IndexSource {
    pub file_name: Vec<u8>,
    pub mtime: u64,
    pub entries: Vec<SourceEntry>,
}

/// The mathematical value of an `IndexSource`.
pub struct IndexSourceV {
    pub file_name: Seq<u8>,
    pub mtime: u64,
    pub entries: Seq<SourceEntryV>,
}

impl View for IndexSource {
    type V = IndexSourceV;

    open spec fn view(&self) -> IndexSourceV {
        IndexSourceV {
            file_name: self.file_name@,
            mtime: self.mtime,
            entries: Seq::new(self.entries@.len(), |i: int| self.entries@[i]@),
        }
    }
}

/// An entry of the merged index: an object id, the position of its source
/// index in the sorted name table, its offset inside that pack, and the
/// modification time of the source index (used only to resolve duplicates).
pub struct Entry {
    pub id: ObjectId,
    pub pack_index: u32,
    pub pack_offset: u64,
    pub mtime: u64,
}

/// The mathematical value of an `Entry`.
pub struct EntryV {
    pub id: Seq<u8>,
    pub pack_index: u32,
    pub pack_offset: u64,
    pub mtime: u64,
}

impl View for Entry {
    type V = EntryV;

    open spec fn view(&self) -> EntryV {
        EntryV {
            id: self.id@,
            pack_index: self.pack_index,
            pack_offset: self.pack_offset,
            mtime: self.mtime,
        }
    }
}

/// The values of a sequence of entries.
pub open spec fn view_of(s: Seq<Entry>) -> Seq<EntryV> {
    Seq::new(s.len(), |i: int| s[i]@)
}

/// The merge order: object id ascending, then modification time descending
/// (a more recently modified source wins), then pack position ascending.
pub open spec fn entry_le(a: EntryV, b: EntryV) -> bool {
    if a.id != b.id {
        lex_lt(a.id, b.id)
    } else if a.mtime != b.mtime {
        a.mtime > b.mtime
    } else {
        a.pack_index <= b.pack_index
    }
}

pub open spec fn entries_sorted(s: Seq<EntryV>) -> bool {
    forall|i: int, j: int| 0 <= i < j < s.len() ==> entry_le(s[i], s[j])
}

/// Some entry of `s` carries this object id.
pub open spec fn contains_id(s: Seq<EntryV>, id: Seq<u8>) -> bool {
    exists|i: int| 0 <= i < s.len() && (#[trigger] s[i]).id == id
}

pub open spec fn entry_ids_unique(s: Seq<EntryV>) -> bool {
    forall|i: int, j: int| 0 <= i < j < s.len() ==> s[i].id != s[j].id
}

pub proof fn lemma_entry_le_total(a: EntryV, b: EntryV)
    ensures
        entry_le(a, b) || entry_le(b, a),
{
    if a.id != b.id && !lex_lt(a.id, b.id) && !lex_lt(b.id, a.id) {
        lemma_lex_lt_connected(a.id, b.id);
    }
}

pub proof fn lemma_entry_le_trans(a: EntryV, b: EntryV, c: EntryV)
    requires
        entry_le(a, b),
        entry_le(b, c),
    ensures
        entry_le(a, c),
{
    if a.id != b.id && b.id != c.id {
        lemma_lex_lt_transitive(a.id, b.id, c.id);
        if a.id == c.id {
            lemma_lex_lt_irreflexive(a.id);
        }
    } else if a.id == b.id && b.id != c.id {
        if a.id == c.id {
            lemma_lex_lt_irreflexive(a.id);
        }
    } else if a.id != b.id && b.id == c.id {
        if a.id == c.id {
            lemma_lex_lt_irreflexive(a.id);
        }
    }
}

/// Executable form of the merge order.
pub fn entry_le_exec(a: &Entry, b: &Entry) -> (r: bool)
    ensures
        r == entry_le(a@, b@),
{
    if a.id.eq_id(&b.id) {
        if a.mtime != b.mtime {
            a.mtime > b.mtime
        } else {
            a.pack_index <= b.pack_index
        }
    } else {
        a.id.lt(&b.id)
    }
}

proof fn lemma_view_remove(s: Seq<Entry>, i: int)
    requires
        0 <= i < s.len(),
    ensures
        view_of(s.remove(i)) =~= view_of(s).remove(i),
{
}

proof fn lemma_view_push(s: Seq<Entry>, e: Entry)
    ensures
        view_of(s.push(e)) =~= view_of(s).push(e@),
{
}

/// The position of a least entry (in merge order) among `v`.
fn min_entry_index(v: &Vec<Entry>) -> (m: usize)
    requires
        v@.len() > 0,
    ensures
        m < v@.len(),
        forall|k: int| 0 <= k < v@.len() ==> entry_le(view_of(v@)[m as int], view_of(v@)[k]),
{
    let mut m: usize = 0;
    let mut k: usize = 1;
    while k < v.len()
        invariant
            m < k <= v@.len(),
            forall|q: int| 0 <= q < k ==> entry_le(view_of(v@)[m as int], view_of(v@)[q]),
        decreases v@.len() - k,
    {
        proof {
            assert(view_of(v@)[k as int] == v@[k as int]@);
            assert(view_of(v@)[m as int] == v@[m as int]@);
        }
        if entry_le_exec(&v[k], &v[m]) {
            proof {
                assert forall|q: int| 0 <= q < k + 1 implies entry_le(
                    view_of(v@)[k as int],
                    view_of(v@)[q],
                ) by {
                    if q < k {
                        lemma_entry_le_trans(view_of(v@)[k as int], view_of(v@)[m as int], view_of(v@)[q]);
                    }
                }
            }
            m = k;
        } else {
            proof {
                lemma_entry_le_total(view_of(v@)[k as int], view_of(v@)[m as int]);
            }
        }
        k = k + 1;
    }
    m
}

/// Sort entries into the merge order. The result is a permutation of the
/// input, ordered by id ascending, modification time descending, pack
/// position ascending.
pub fn sort_entries(input: Vec<Entry>) -> (r: Vec<Entry>)
    ensures
        entries_sorted(view_of(r@)),
        view_of(r@).to_multiset() == view_of(input@).to_multiset(),
{
    let ghost in_v = view_of(input@);
    let mut rest = input;
    let mut out: Vec<Entry> = Vec::new();
    while rest.len() > 0
        invariant
            view_of(out@).to_multiset().add(view_of(rest@).to_multiset()) == in_v.to_multiset(),
            entries_sorted(view_of(out@)),
            forall|i: int, j: int|
                0 <= i < out@.len() && 0 <= j < rest@.len() ==> entry_le(
                    view_of(out@)[i],
                    view_of(rest@)[j],
                ),
        decreases rest@.len(),
    {
        let ghost old_out = out@;
        let ghost old_rest = rest@;
        let m = min_entry_index(&rest);
        let e = rest.remove(m);
        out.push(e);
        proof {
            lemma_view_remove(old_rest, m as int);
            lemma_view_push(old_out, e);
            let ov = view_of(old_out);
            let rv = view_of(old_rest);
            assert(view_of(rest@).to_multiset() == rv.to_multiset().remove(rv[m as int]));
            assert(view_of(out@).to_multiset() == ov.to_multiset().insert(e@));
            assert(e@ == rv[m as int]);
            assert(rv.to_multiset().count(rv[m as int]) > 0) by {
                assert(rv.contains(rv[m as int]));
            }
            assert(ov.to_multiset().insert(e@).add(rv.to_multiset().remove(e@)) =~= ov.to_multiset().add(
                rv.to_multiset(),
            ));
            // the new last element is ordered after everything already placed
            assert forall|i: int, j: int|
                0 <= i < out@.len() && 0 <= j < rest@.len() implies entry_le(
                view_of(out@)[i],
                view_of(rest@)[j],
            ) by {
                assert(view_of(rest@)[j] == if j < m { rv[j] } else { rv[j + 1] });
                if i < ov.len() {
                    assert(view_of(out@)[i] == ov[i]);
                } else {
                    assert(view_of(out@)[i] == e@);
                }
            }
            assert(entries_sorted(view_of(out@))) by {
                assert forall|i: int, j: int| 0 <= i < j < out@.len() implies entry_le(
                    view_of(out@)[i],
                    view_of(out@)[j],
                ) by {
                    if j < ov.len() {
                    } else {
                        assert(view_of(out@)[j] == e@);
                        assert(entry_le(ov[i], rv[m as int]));
                    }
                }
            }
        }
    }
    proof {
        assert(view_of(rest@).to_multiset() =~= Multiset::empty());
        assert(view_of(out@).to_multiset().add(Multiset::empty()) =~= view_of(out@).to_multiset());
    }
    out
}

/// The state that `dedup_entries` maintains over the part of the input
/// already examined (`in_v.take(j)`) and the output built so far (`ov`).
/// `w[i]` is the input position the kept entry `ov[i]` came from; `cov[q]`
/// is the output position that covers the id of input entry `q`.
pub open spec fn dedup_inv(
    in_v: Seq<EntryV>,
    ov: Seq<EntryV>,
    j: int,
    w: Seq<int>,
    cov: Seq<int>,
) -> bool {
    &&& 0 <= j <= in_v.len()
    &&& ov.len() <= j
    &&& entries_sorted(ov)
    &&& entry_ids_unique(ov)
    &&& w.len() == ov.len()
    &&& forall|i: int| #![trigger w[i]] 0 <= i < ov.len() ==> 0 <= w[i] < j && in_v[w[i]] == ov[i]
    &&& cov.len() == j
    &&& forall|q: int|
        #![trigger cov[q]]
        0 <= q < j ==> 0 <= cov[q] < ov.len() && ov[cov[q]].id == in_v[q].id
    &&& forall|i: int, q: int|
        0 <= i < ov.len() && 0 <= q < j && (#[trigger] ov[i]).id == (#[trigger] in_v[q]).id
            ==> entry_le(ov[i], in_v[q])
    &&& j > 0 ==> ov.len() > 0 && ov.last().id == in_v[j - 1].id
    &&& j == 0 ==> ov.len() == 0
}

/// Taking the next entry of a new id keeps every deduplication invariant.
proof fn lemma_dedup_push(in_v: Seq<EntryV>, ov: Seq<EntryV>, j: int, w: Seq<int>, cov: Seq<int>)
    requires
        entries_sorted(in_v),
        0 <= j < in_v.len(),
        dedup_inv(in_v, ov, j, w, cov),
        ov.len() > 0 ==> ov.last().id != in_v[j].id,
    ensures
        dedup_inv(in_v, ov.push(in_v[j]), j + 1, w.push(j), cov.push(ov.len() as int)),
{
    let e = in_v[j];
    let nv = ov.push(e);
    assert forall|i: int| 0 <= i < ov.len() implies entry_le(ov[i], e) && ov[i].id != e.id by {
        let q = w[i];
        assert(in_v[q] == ov[i]);
        assert(entry_le(in_v[q], in_v[j]));
        if ov[i].id == e.id {
            assert(j > 0);
            assert(ov.last().id == in_v[j - 1].id);
            if i < ov.len() - 1 {
                assert(entry_le(ov[i], ov.last()));
                assert(ov[i].id != ov.last().id);
                assert(lex_lt(ov[i].id, ov.last().id));
                assert(entry_le(in_v[j - 1], in_v[j]));
                assert(in_v[j - 1].id != in_v[j].id);
                assert(lex_lt(ov.last().id, e.id));
                lemma_lex_lt_transitive(ov[i].id, ov.last().id, e.id);
                lemma_lex_lt_irreflexive(ov[i].id);
            }
        }
    }
    let w2 = w.push(j);
    let cov2 = cov.push(ov.len() as int);
    assert forall|i: int| #![trigger w2[i]] 0 <= i < nv.len() implies 0 <= w2[i] < j + 1
        && in_v[w2[i]] == nv[i] by {
        if i < ov.len() {
            assert(w2[i] == w[i]);
        }
    }
    assert forall|q: int| #![trigger cov2[q]] 0 <= q < j + 1 implies 0 <= cov2[q] < nv.len()
        && nv[cov2[q]].id == in_v[q].id by {
        if q < j {
            assert(cov2[q] == cov[q]);
            assert(nv[cov[q]] == ov[cov[q]]);
        }
    }
    assert forall|i: int, q: int|
        0 <= i < nv.len() && 0 <= q < j + 1 && (#[trigger] nv[i]).id == (#[trigger] in_v[q]).id
        implies entry_le(nv[i], in_v[q]) by {
        if i < ov.len() {
            if q == j {
                assert(ov[i].id != e.id);
            }
        } else {
            assert(nv[i] == e);
            if q < j {
                // an earlier entry of this id would already have been kept
                assert(ov[cov[q]].id == in_v[q].id);
                assert(ov[cov[q]].id != e.id);
            } else {
                assert(entry_le(e, in_v[q]));
            }
        }
    }
}

/// Skipping a further entry of the current id keeps every deduplication
/// invariant: the entry already kept for that id precedes the skipped one.
proof fn lemma_dedup_skip(in_v: Seq<EntryV>, ov: Seq<EntryV>, j: int, w: Seq<int>, cov: Seq<int>)
    requires
        entries_sorted(in_v),
        0 <= j < in_v.len(),
        dedup_inv(in_v, ov, j, w, cov),
        ov.len() > 0,
        ov.last().id == in_v[j].id,
    ensures
        dedup_inv(in_v, ov, j + 1, w, cov.push(ov.len() - 1)),
{
    assert(j > 0);
    let cov2 = cov.push(ov.len() - 1);
    assert forall|q: int| #![trigger cov2[q]] 0 <= q < j + 1 implies 0 <= cov2[q] < ov.len()
        && ov[cov2[q]].id == in_v[q].id by {
        if q < j {
            assert(cov2[q] == cov[q]);
        } else {
            assert(ov[ov.len() - 1].id == in_v[q].id);
        }
    }
    assert forall|i: int| #![trigger w[i]] 0 <= i < ov.len() implies 0 <= w[i] < j + 1
        && in_v[w[i]] == ov[i] by {}
    assert forall|i: int, q: int|
        0 <= i < ov.len() && 0 <= q < j + 1 && (#[trigger] ov[i]).id == (#[trigger] in_v[q]).id
        implies entry_le(ov[i], in_v[q]) by {
        if q == j {
            if i < ov.len() - 1 {
                assert(ov[i].id != ov.last().id);
            } else {
                let q0 = w[i];
                assert(in_v[q0] == ov[i]);
                assert(entry_le(in_v[q0], in_v[j]));
            }
        }
    }
}

/// Keep, for every object id, only the first entry of its run: the one the
/// merge order ranks highest (latest modification time, then lowest pack
/// position).
pub fn dedup_entries(input: Vec<Entry>) -> (r: Vec<Entry>)
    requires
        entries_sorted(view_of(input@)),
    ensures
        r@.len() <= input@.len(),
        entries_sorted(view_of(r@)),
        entry_ids_unique(view_of(r@)),
        forall|i: int| 0 <= i < r@.len() ==> #[trigger] view_of(input@).contains(view_of(r@)[i]),
        forall|j: int|
            0 <= j < input@.len() ==> #[trigger] contains_id(view_of(r@), view_of(input@)[j].id),
        forall|i: int, j: int|
            0 <= i < r@.len() && 0 <= j < input@.len() && (#[trigger] view_of(r@)[i]).id == (
            #[trigger] view_of(input@)[j]).id ==> entry_le(view_of(r@)[i], view_of(input@)[j]),
{
    let ghost in_v = view_of(input@);
    let mut work = input;
    let mut out: Vec<Entry> = Vec::new();
    let ghost j: int = 0;
    let ghost w: Seq<int> = Seq::empty();
    let ghost cov: Seq<int> = Seq::empty();
    while work.len() > 0
        invariant
            in_v.len() - j == work@.len(),
            forall|q: int|
                #![trigger view_of(work@)[q]]
                0 <= q < work@.len() ==> view_of(work@)[q] == in_v[j + q],
            entries_sorted(in_v),
            dedup_inv(in_v, view_of(out@), j, w, cov),
        decreases work@.len(),
    {
        let ghost old_out = out@;
        let ghost old_work = work@;
        let e = work.remove(0);
        proof {
            lemma_view_remove(old_work, 0);
            assert(view_of(old_work)[0] == old_work[0]@);
            assert(e@ == in_v[j]);
            assert forall|q: int|
                #![trigger view_of(work@)[q]]
                0 <= q < work@.len() implies view_of(work@)[q] == in_v[j + 1 + q] by {
                assert(view_of(work@)[q] == view_of(old_work)[q + 1]);
            }
        }
        let push_it: bool = if out.len() == 0 {
            true
        } else {
            let last = out.len() - 1;
            proof {
                assert(view_of(out@)[last as int] == out@[last as int]@);
            }
            !out[last].id.eq_id(&e.id)
        };
        if push_it {
            proof {
                lemma_dedup_push(in_v, view_of(old_out), j, w, cov);
                w = w.push(j);
                cov = cov.push(old_out.len() as int);
                j = j + 1;
            }
            out.push(e);
            proof {
                lemma_view_push(old_out, e);
                assert(view_of(out@) == view_of(old_out).push(e@));
            }
        } else {
            proof {
                lemma_dedup_skip(in_v, view_of(out@), j, w, cov);
                cov = cov.push(view_of(out@).len() - 1);
                j = j + 1;
            }
        }
    }
    proof {
        let ov = view_of(out@);
        assert forall|i: int| 0 <= i < out@.len() implies #[trigger] in_v.contains(ov[i]) by {
            assert(in_v[w[i]] == ov[i]);
        }
        assert forall|q: int| 0 <= q < in_v.len() implies #[trigger] contains_id(
            ov,
            in_v[q].id,
        ) by {
            assert(ov[cov[q]].id == in_v[q].id);
        }
    }
    out
}

} // verus!
