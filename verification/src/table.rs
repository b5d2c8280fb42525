//! The vendor table: an immutable sequence of prefix entries sorted by the
//! numeric value of the prefix, with binary-search lookup by address and
//! linear lookup by vendor name.

use vstd::prelude::*;

use crate::bits::{be48, bytes48, mask_of, lemma_be48_bound, lemma_be48_bytes48};
use crate::bits::{read_be48, mask_for_len, len_of_mask};
use crate::parse::EtherAddr;

verus! {

/// One table entry: a prefix (as 6 bytes and as its 48-bit value), the mask
/// with the prefix's significant bits set, and the vendor it belongs to.
pub struct VendorEntry {
    pub prefix: EtherAddr,
    pub value: u64,
    pub mask: u64,
    pub name: String,
    pub description: String,
}

/// An entry is consistent: `value` is the numeric reading of `prefix`, the
/// mask has `len` leading ones for some prefix length, and all bits of the
/// prefix beyond its length are zero.
pub open spec fn entry_wf(e: VendorEntry) -> bool {
    &&& e.value == be48(e.prefix@)
    &&& (e.value & e.mask) == e.value
    &&& exists|l: u64| l <= 48 && e.mask == #[trigger] mask_of(l)
}

/// A well-formed table: every entry consistent, entries strictly ascending
/// by prefix value (so prefix values are unique).
pub open spec fn table_wf(s: Seq<VendorEntry>) -> bool {
    &&& forall|i: int| 0 <= i < s.len() ==> entry_wf(#[trigger] s[i])
    &&& forall|i: int, j: int|
        #![trigger s[i].value, s[j].value]
        0 <= i < j < s.len() ==> s[i].value < s[j].value
}

/// The greatest index whose entry value is at most `a`, or `-1`.
pub open spec fn last_le(s: Seq<VendorEntry>, a: u64) -> int
    decreases s.len(),
{
    if s.len() == 0 {
        -1
    } else if s[s.len() - 1].value <= a {
        s.len() - 1
    } else {
        last_le(s.drop_last(), a)
    }
}

/// What an address lookup returns: the entry with the greatest prefix value
/// not exceeding the address, if its mask covers the address, else nothing.
pub open spec fn spec_vendor(s: Seq<VendorEntry>, a: u64) -> Option<(Seq<char>, Seq<char>)> {
    let i = last_le(s, a);
    if i < 0 {
        None
    } else if (a & s[i].mask) == s[i].value {
        Some((s[i].name@, s[i].description@))
    } else {
        None
    }
}

pub proof fn lemma_last_le_bounds(s: Seq<VendorEntry>, a: u64)
    ensures
        -1 <= last_le(s, a) < s.len(),
    decreases s.len(),
{
    if s.len() > 0 && s[s.len() - 1].value > a {
        lemma_last_le_bounds(s.drop_last(), a);
    }
}

/// `last_le` is pinned by: the entry at `i` is at most `a`, every later one
/// is greater.
pub proof fn lemma_last_le_at(s: Seq<VendorEntry>, a: u64, i: int)
    requires
        -1 <= i < s.len(),
        i >= 0 ==> s[i].value <= a,
        forall|j: int| i < j < s.len() ==> #[trigger] s[j].value > a,
    ensures
        last_le(s, a) == i,
    decreases s.len(),
{
    if s.len() == 0 {
    } else if s[s.len() - 1].value <= a {
        assert(i == s.len() - 1);
    } else {
        assert(i < s.len() - 1);
        lemma_last_le_at(s.drop_last(), a, i);
    }
}

/// The vendor table, built once from parsed records and then only read.
pub struct VendorTable {
    entries: Vec<VendorEntry>,
}

impl View for VendorTable {
    type V = Seq<VendorEntry>;

    closed spec fn view(&self) -> Seq<VendorEntry> {
        self.entries@
    }
}

/// The masked 48-bit key of a record: the prefix value with all bits beyond
/// the prefix length cleared.
pub open spec fn rec_key(rec: ((EtherAddr, u32), (String, String))) -> u64 {
    be48(rec.0.0@) & mask_of(rec.0.1 as u64)
}

/// The table entry a record gives rise to.
pub open spec fn matches_rec(e: VendorEntry, rec: ((EtherAddr, u32), (String, String))) -> bool {
    &&& e.value == rec_key(rec)
    &&& e.mask == mask_of(rec.0.1 as u64)
    &&& e.prefix@ == bytes48(rec_key(rec))
    &&& e.name@ == rec.1.0@
    &&& e.description@ == rec.1.1@
}

/// No later record carries the same masked key as record `i`.
pub open spec fn no_later_dup(
    records: Seq<((EtherAddr, u32), (String, String))>,
    i: int,
) -> bool {
    forall|j: int| i < j < records.len() ==> rec_key(#[trigger] records[j]) != rec_key(records[i])
}

/// Some table entry is the one this record gives rise to.
pub open spec fn in_table(
    t: Seq<VendorEntry>,
    rec: ((EtherAddr, u32), (String, String)),
) -> bool {
    exists|k: int| 0 <= k < t.len() && matches_rec(#[trigger] t[k], rec)
}

/// The entry comes from the last record that carries its key.
pub open spec fn entry_from_last(
    e: VendorEntry,
    records: Seq<((EtherAddr, u32), (String, String))>,
) -> bool {
    exists|i: int|
        0 <= i < records.len() && matches_rec(e, #[trigger] records[i]) && no_later_dup(records, i)
}

/// Every record that no later record with the same key overrides stands in
/// the table.
pub open spec fn table_covers(
    t: Seq<VendorEntry>,
    records: Seq<((EtherAddr, u32), (String, String))>,
) -> bool {
    forall|i: int|
        0 <= i < records.len() && no_later_dup(records, i) ==> in_table(
            t,
            #[trigger] records[i],
        )
}

/// Every table entry comes from the last record with its key.
pub open spec fn table_from(
    t: Seq<VendorEntry>,
    records: Seq<((EtherAddr, u32), (String, String))>,
) -> bool {
    forall|k: int| 0 <= k < t.len() ==> entry_from_last(#[trigger] t[k], records)
}

impl VendorTable {
    pub open spec fn wf(&self) -> bool {
        table_wf(self@)
    }

    /// How many entries the table holds.
    pub fn len(&self) -> (n: usize)
        ensures
            n == self@.len(),
    {
        self.entries.len()
    }

    /// The entry at position `i` in ascending prefix-value order.
    pub fn entry(&self, i: usize) -> (e: &VendorEntry)
        requires
            i < self@.len(),
        ensures
            *e == self@[i as int],
    {
        &self.entries[i]
    }

    /// Build the table from the full set of parsed records: each record's
    /// prefix is masked to its prefix length, duplicate prefix values are
    /// resolved last-one-wins in record order, and the result is sorted
    /// ascending by prefix value.
    #[verifier::rlimit(100)]
    pub fn build(records: &Vec<((EtherAddr, u32), (String, String))>) -> (t: VendorTable)
        requires
            forall|i: int| 0 <= i < records@.len() ==> (#[trigger] records@[i]).0.1 <= 48,
        ensures
            t.wf(),
            table_covers(t@, records@),
            table_from(t@, records@),
    {
        let n = records.len();
        let mut tmp: Vec<VendorEntry> = Vec::new();
        let mut r: usize = 0;
        while r < n
            invariant
                n == records@.len(),
                r <= n,
                forall|i: int| 0 <= i < records@.len() ==> (#[trigger] records@[i]).0.1 <= 48,
                table_wf(tmp@),
                table_from(tmp@, records@.take(r as int)),
                table_covers(tmp@, records@.take(r as int)),
            decreases n - r,
        {
            let prefix_raw: EtherAddr = records[r].0.0;
            let plen: u32 = records[r].0.1;
            let name: String = records[r].1.0.clone();
            let description: String = records[r].1.1.clone();
            let m = mask_for_len(plen);
            let vraw = read_be48(&prefix_raw);
            let v = vraw & m;
            proof {
                lemma_be48_bound(prefix_raw@);
                assert(vraw & m <= vraw) by (bit_vector);
                assert((vraw & m) & m == vraw & m) by (bit_vector);
                lemma_be48_bytes48(v);
            }
            let prefix = crate::bits::value_to_bytes(v);
            let e = VendorEntry { prefix, value: v, mask: m, name, description };
            assert(entry_wf(e));
            assert(matches_rec(e, records@[r as int]));

            // find the insertion slot: first index whose value is not below v
            let mut k: usize = 0;
            while k < tmp.len() && tmp[k].value < v
                invariant
                    k <= tmp@.len(),
                    table_wf(tmp@),
                    forall|k2: int| 0 <= k2 < k ==> (#[trigger] tmp@[k2]).value < v,
                decreases tmp@.len() - k,
            {
                k += 1;
            }
            let ghost old_tmp = tmp@;
            if k < tmp.len() && tmp[k].value == v {
                tmp.remove(k);
                tmp.insert(k, e);
                proof {
                    assert(tmp@ =~= old_tmp.update(k as int, e));
                }
            } else {
                tmp.insert(k, e);
                proof {
                    assert(k < old_tmp.len() ==> old_tmp[k as int].value > v);
                    assert(forall|k2: int|
                        k <= k2 < old_tmp.len() ==> (#[trigger] old_tmp[k2]).value > v);
                }
            }
            proof {
                assert(records@.take(r + 1 as int) =~= records@.take(r as int).push(
                    records@[r as int],
                ));
                lemma_build_step(
                    old_tmp,
                    tmp@,
                    records@.take(r as int),
                    records@[r as int],
                    k as int,
                    e,
                );
            }
            r += 1;
        }
        proof {
            assert(records@.take(r as int) =~= records@);
        }
        VendorTable { entries: tmp }
    }
}

/// One step of table construction keeps the invariants: inserting or
/// replacing the entry for the next record at slot `k` preserves
/// well-formedness and the last-one-wins correspondence.
#[verifier::rlimit(100)]
proof fn lemma_build_step(
    old_tmp: Seq<VendorEntry>,
    new_tmp: Seq<VendorEntry>,
    recs: Seq<((EtherAddr, u32), (String, String))>,
    rec: ((EtherAddr, u32), (String, String)),
    k: int,
    e: VendorEntry,
)
    requires
        table_wf(old_tmp),
        entry_wf(e),
        matches_rec(e, rec),
        0 <= k <= old_tmp.len(),
        forall|k2: int| 0 <= k2 < k ==> (#[trigger] old_tmp[k2]).value < e.value,
        // either replaced an entry with equal value, or inserted before
        // strictly greater ones
        (k < old_tmp.len() && old_tmp[k].value == e.value && new_tmp == old_tmp.update(k, e)) || ((
        forall|k2: int| k <= k2 < old_tmp.len() ==> (#[trigger] old_tmp[k2]).value > e.value)
            && new_tmp == old_tmp.insert(k, e)),
        table_from(old_tmp, recs),
        table_covers(old_tmp, recs),
    ensures
        table_wf(new_tmp),
        table_from(new_tmp, recs.push(rec)),
        table_covers(new_tmp, recs.push(rec)),
{
    let v = e.value;
    let s2 = recs.push(rec);
    let n = recs.len() as int;
    assert(s2[n] == rec);
    assert(forall|i: int| 0 <= i < n ==> s2[i] == recs[i]);
    let replaced = k < old_tmp.len() && old_tmp[k].value == v;
    if replaced {
        assert(new_tmp.len() == old_tmp.len());
        assert(forall|k2: int|
            0 <= k2 < new_tmp.len() && k2 != k ==> new_tmp[k2] == old_tmp[k2]);
        assert(new_tmp[k] == e);
        assert(forall|k2: int|
            0 <= k2 < new_tmp.len() ==> (#[trigger] new_tmp[k2]).value == old_tmp[k2].value);
        assert(table_wf(new_tmp));
    } else {
        assert(new_tmp.len() == old_tmp.len() + 1);
        assert(forall|k2: int| 0 <= k2 < k ==> new_tmp[k2] == old_tmp[k2]);
        assert(new_tmp[k] == e);
        assert(forall|k2: int| k < k2 < new_tmp.len() ==> new_tmp[k2] == old_tmp[k2 - 1]);
        assert forall|i: int, j: int| 0 <= i < j < new_tmp.len() implies new_tmp[i].value
            < new_tmp[j].value by {
            if i < k && j == k {
            } else if i == k && j > k {
                assert(new_tmp[j] == old_tmp[j - 1]);
            }
        }
        assert(table_wf(new_tmp));
    }
    // every entry with a value other than v survives at some index
    assert forall|k2: int| 0 <= k2 < new_tmp.len() implies entry_from_last(
        #[trigger] new_tmp[k2],
        s2,
    ) by {
        if k2 == k {
            assert(matches_rec(new_tmp[k2], s2[n]));
            assert(no_later_dup(s2, n));
            assert(entry_from_last(new_tmp[k2], s2));
        } else {
            let k_old: int = if !replaced && k2 > k {
                k2 - 1
            } else {
                k2
            };
            assert(new_tmp[k2] == old_tmp[k_old]);
            assert(entry_from_last(old_tmp[k_old], recs));
            let i = choose|i: int|
                0 <= i < recs.len() && matches_rec(old_tmp[k_old], #[trigger] recs[i])
                    && no_later_dup(recs, i);
            assert(old_tmp[k_old].value == rec_key(recs[i]));
            assert(old_tmp[k_old].value != v);
            assert(rec_key(rec) == v);
            assert(rec_key(s2[i]) == rec_key(recs[i]));
            assert forall|j: int| i < j < s2.len() implies rec_key(#[trigger] s2[j]) != rec_key(
                s2[i],
            ) by {
                if j < n {
                    assert(s2[j] == recs[j]);
                } else {
                    assert(s2[j] == rec);
                }
            }
            assert(no_later_dup(s2, i));
            assert(matches_rec(new_tmp[k2], s2[i]));
            assert(entry_from_last(new_tmp[k2], s2));
        }
    }
    assert(table_from(new_tmp, s2));
    // every record not overridden later stands in the table
    assert forall|i: int| 0 <= i < s2.len() && no_later_dup(s2, i) implies in_table(
        new_tmp,
        #[trigger] s2[i],
    ) by {
        if i == n {
            assert(matches_rec(new_tmp[k], s2[i]));
            assert(in_table(new_tmp, s2[i]));
        } else {
            assert(s2[i] == recs[i]);
            assert(rec_key(s2[n]) != rec_key(s2[i]));
            assert(rec_key(recs[i]) != v);
            assert forall|j: int| i < j < recs.len() implies rec_key(#[trigger] recs[j])
                != rec_key(recs[i]) by {
                assert(s2[j] == recs[j]);
                assert(rec_key(s2[j]) != rec_key(s2[i]));
            }
            assert(no_later_dup(recs, i));
            assert(in_table(old_tmp, recs[i]));
            let k2 = choose|k2: int|
                0 <= k2 < old_tmp.len() && matches_rec(#[trigger] old_tmp[k2], recs[i]);
            assert(old_tmp[k2].value == rec_key(recs[i]));
            assert(old_tmp[k2].value != v);
            if replaced {
                assert(k2 != k);
                assert(new_tmp[k2] == old_tmp[k2]);
                assert(matches_rec(new_tmp[k2], s2[i]));
            } else {
                let k_new: int = if k2 >= k {
                    k2 + 1
                } else {
                    k2
                };
                assert(new_tmp[k_new] == old_tmp[k2]);
                assert(matches_rec(new_tmp[k_new], s2[i]));
            }
            assert(in_table(new_tmp, s2[i]));
        }
    }
    assert(table_covers(new_tmp, s2));
}

/// Find vendor name and description for an ethernet (MAC) address.
///
/// Binary search for the entry with the greatest prefix value not exceeding
/// the address; it matches if masking the address with that entry's mask
/// gives the entry's prefix value.
pub fn vendor(table: &VendorTable, addr: &EtherAddr) -> (r: Option<(String, String)>)
    requires
        table.wf(),
    ensures
        r is None <==> spec_vendor(table@, be48(addr@)) is None,
        r matches Some(p) ==> spec_vendor(table@, be48(addr@)) == Some((p.0@, p.1@)),
{
    let a = read_be48(addr);
    let n = table.entries.len();
    let mut lo: usize = 0;
    let mut hi: usize = n;
    while lo < hi
        invariant
            lo <= hi <= n,
            n == table@.len(),
            table.wf(),
            forall|k: int| 0 <= k < lo ==> (#[trigger] table@[k]).value <= a,
            forall|k: int| hi <= k < n ==> (#[trigger] table@[k]).value > a,
        decreases hi - lo,
    {
        let mid = lo + (hi - lo) / 2;
        if table.entries[mid].value <= a {
            lo = mid + 1;
        } else {
            hi = mid;
        }
    }
    proof {
        lemma_last_le_at(table@, a, lo as int - 1);
    }
    if lo == 0 {
        None
    } else {
        let e = &table.entries[lo - 1];
        if (a & e.mask) == e.value {
            Some((e.name.clone(), e.description.clone()))
        } else {
            None
        }
    }
}

/// The `(prefix, prefix_length)` pairs of the entries whose name equals
/// `name`, in table order. The length is recovered from the stored mask.
pub open spec fn prefixes_of(s: Seq<VendorEntry>, name: Seq<char>) -> Seq<(Seq<u8>, u64)>
    decreases s.len(),
{
    if s.len() == 0 {
        Seq::empty()
    } else if s.last().name@ == name {
        prefixes_of(s.drop_last(), name).push((s.last().prefix@, len_of_mask(s.last().mask)))
    } else {
        prefixes_of(s.drop_last(), name)
    }
}

/// Find the vendor's prefixes and prefix lengths for a vendor name.
///
/// Returns, in table order, every entry whose name equals `name` exactly,
/// as the prefix bytes with the prefix length read off the entry's mask.
pub fn prefix(table: &VendorTable, name: &str) -> (r: Vec<(EtherAddr, u32)>)
    requires
        table.wf(),
    ensures
        r@.len() == prefixes_of(table@, name@).len(),
        forall|k: int|
            0 <= k < r@.len() ==> (#[trigger] r@[k]).0@ == prefixes_of(table@, name@)[k].0 && r@[
                k
            ].1 as u64 == prefixes_of(table@, name@)[k].1 && r@[k].1 <= 48,
{
    let q = String::from_str(name);
    let n = table.entries.len();
    let mut out: Vec<(EtherAddr, u32)> = Vec::new();
    let mut i: usize = 0;
    while i < n
        invariant
            i <= n,
            n == table@.len(),
            table.wf(),
            q@ == name@,
            out@.len() == prefixes_of(table@.take(i as int), name@).len(),
            forall|k: int|
                0 <= k < out@.len() ==> (#[trigger] out@[k]).0@ == prefixes_of(
                    table@.take(i as int),
                    name@,
                )[k].0 && out@[k].1 as u64 == prefixes_of(table@.take(i as int), name@)[k].1
                    && out@[k].1 <= 48,
        decreases n - i,
    {
        proof {
            assert(table@.take(i + 1 as int).drop_last() =~= table@.take(i as int));
            assert(table@.take(i + 1 as int).last() == table@[i as int]);
        }
        let e = &table.entries[i];
        if e.name == q {
            let l = crate::bits::mask_len(e.mask);
            out.push((e.prefix, l));
        }
        i += 1;
    }
    proof {
        assert(table@.take(n as int) =~= table@);
    }
    out
}

/// Self-consistency of exact entries: looking up the prefix value of any
/// table entry yields that entry's own vendor name and description.
pub proof fn lemma_vendor_exact(t: &VendorTable, i: int)
    requires
        t.wf(),
        0 <= i < t@.len(),
    ensures
        spec_vendor(t@, t@[i].value) == Some((t@[i].name@, t@[i].description@)),
        spec_vendor(t@, be48(t@[i].prefix@)) == Some((t@[i].name@, t@[i].description@)),
{
    let s = t@;
    let a = s[i].value;
    assert(forall|j: int| i < j < s.len() ==> #[trigger] s[j].value > a);
    lemma_last_le_at(s, a, i);
    assert((a & s[i].mask) == s[i].value);
    assert(be48(s[i].prefix@) == a);
}

/// Masked-membership correctness: if an address agrees with entry `i`
/// under that entry's mask, and no entry's prefix value lies strictly
/// between entry `i`'s value and the address, the lookup returns entry
/// `i`'s vendor.
pub proof fn lemma_vendor_masked(t: &VendorTable, i: int, a: u64)
    requires
        t.wf(),
        0 <= i < t@.len(),
        (a & t@[i].mask) == t@[i].value,
        forall|j: int|
            0 <= j < t@.len() ==> !(t@[i].value < (#[trigger] t@[j]).value && t@[j].value <= a),
    ensures
        spec_vendor(t@, a) == Some((t@[i].name@, t@[i].description@)),
{
    let s = t@;
    let m = s[i].mask;
    assert(a & m <= a) by (bit_vector);
    assert(s[i].value <= a);
    assert forall|j: int| i < j < s.len() implies #[trigger] s[j].value > a by {
        assert(s[i].value < s[j].value);
    }
    lemma_last_le_at(s, a, i);
}

/// An address that agrees with no entry under that entry's mask yields no
/// vendor.
pub proof fn lemma_vendor_absent(t: &VendorTable, a: u64)
    requires
        t.wf(),
        forall|j: int| 0 <= j < t@.len() ==> (a & (#[trigger] t@[j]).mask) != t@[j].value,
    ensures
        spec_vendor(t@, a) is None,
{
    lemma_last_le_bounds(t@, a);
}

/// `prefix` returns exactly the pairs whose stored name equals the query:
/// a pair is among the results if and only if some entry carries that
/// name, that prefix and a mask of that length.
pub proof fn lemma_prefixes_membership(s: Seq<VendorEntry>, name: Seq<char>, pr: (Seq<u8>, u64))
    ensures
        prefixes_of(s, name).contains(pr) <==> exists|i: int|
            0 <= i < s.len() && (#[trigger] s[i]).name@ == name && pr == (
                s[i].prefix@,
                len_of_mask(s[i].mask),
            ),
    decreases s.len(),
{
    if s.len() == 0 {
        assert(!prefixes_of(s, name).contains(pr));
    } else {
        let s0 = s.drop_last();
        lemma_prefixes_membership(s0, name, pr);
        let p0 = prefixes_of(s0, name);
        assert(forall|i: int| 0 <= i < s0.len() ==> #[trigger] s0[i] == s[i]);
        if prefixes_of(s, name).contains(pr) {
            let k = choose|k: int| 0 <= k < prefixes_of(s, name).len() && prefixes_of(s, name)[k] == pr;
            if s.last().name@ == name && k == p0.len() {
                assert(pr == (s[s.len() - 1].prefix@, len_of_mask(s[s.len() - 1].mask)));
            } else {
                assert(p0[k] == pr);
                assert(p0.contains(pr));
            }
        }
        if exists|i: int|
            0 <= i < s.len() && (#[trigger] s[i]).name@ == name && pr == (
                s[i].prefix@,
                len_of_mask(s[i].mask),
            ) {
            let i = choose|i: int|
                0 <= i < s.len() && (#[trigger] s[i]).name@ == name && pr == (
                    s[i].prefix@,
                    len_of_mask(s[i].mask),
                );
            if i == s.len() - 1 {
                assert(prefixes_of(s, name).last() == pr);
                assert(prefixes_of(s, name).contains(pr));
            } else {
                assert(s0[i].name@ == name && pr == (s0[i].prefix@, len_of_mask(s0[i].mask)));
                assert(p0.contains(pr));
                let k = choose|k: int| 0 <= k < p0.len() && p0[k] == pr;
                assert(prefixes_of(s, name)[k] == pr);
                assert(prefixes_of(s, name).contains(pr));
            }
        }
    }
}

} // verus!
