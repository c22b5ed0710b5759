//! The table layer: a heap file of fixed-width records tied to its B-tree
//! index.
//!
//! The heap file is a packed sequence of `keysize + recordsize`-byte records,
//! each laid out as `padded key ‖ padded value`; the index maps each padded
//! key to the byte offset of its record.  The table enforces the width
//! invariants, rejects duplicate keys, and can rebuild the index from the
//! heap image alone.

use vstd::prelude::*;
use crate::btree::{Index, StoreError, has_key, rec_matches, sorted_entries, NODE_CAP,
    lemma_excess_nonneg};
use crate::bytes::{lex_le, pad_spec, pad_bytes, sub_bytes, overwrite_at, append_bytes, lemma_pad_exact};

verus! {

/// One record's width on disk.
pub open spec fn rec_w(k: nat, r: nat) -> int {
    (k + r) as int
}

/// How many whole records the heap image holds.
pub open spec fn num_recs(df: Seq<u8>, k: nat, r: nat) -> int {
    df.len() as int / rec_w(k, r)
}

/// The padded key stored in record `j`.
pub open spec fn rec_key_at(df: Seq<u8>, k: nat, r: nat, j: int) -> Seq<u8> {
    df.subrange(j * rec_w(k, r), j * rec_w(k, r) + k)
}

/// The padded value stored in record `j`.
pub open spec fn rec_val_at(df: Seq<u8>, k: nat, r: nat, j: int) -> Seq<u8> {
    df.subrange(j * rec_w(k, r) + k, (j + 1) * rec_w(k, r))
}

/// The `(padded key, data offset)` pairs of the heap image, in file order:
/// what a freshly built index must hold.
pub open spec fn heap_entries(df: Seq<u8>, k: nat, r: nat) -> Seq<(Seq<u8>, u64)> {
    Seq::new(num_recs(df, k, r) as nat, |j: int| (rec_key_at(df, k, r, j), (j * rec_w(k, r)) as u64))
}

/// No two records of the heap image carry the same padded key.
pub open spec fn distinct_keys(df: Seq<u8>, k: nat, r: nat) -> bool {
    forall|j1: int, j2: int|
        0 <= j1 < j2 < num_recs(df, k, r) ==> rec_key_at(df, k, r, j1) != rec_key_at(df, k, r, j2)
}

/// A heap file of fixed-width records bound to its index.
pub struct Table {
    pub(crate) keysize: u16,
    pub(crate) recordsize: u16,
    pub(crate) datafile: Vec<u8>,
    pub(crate) index: Index,
}

impl Table {
    /// The heap-file image.
    pub closed spec fn heap(&self) -> Seq<u8> {
        self.datafile@
    }

    /// The configured key width, as a mathematical value.
    pub closed spec fn key_width(&self) -> nat {
        self.keysize as nat
    }

    /// The configured value width, as a mathematical value.
    pub closed spec fn val_width(&self) -> nat {
        self.recordsize as nat
    }

    /// The entries of the driving index.
    pub closed spec fn index_entries(&self) -> Seq<(Seq<u8>, u64)> {
        self.index.entry_list()
    }

    /// The table's contents as a map from padded key to padded value.
    pub closed spec fn view(&self) -> Map<Seq<u8>, Seq<u8>> {
        let k = self.keysize as nat;
        let r = self.recordsize as nat;
        let df = self.datafile@;
        Map::new(
            |key: Seq<u8>|
                exists|j: int| 0 <= j < num_recs(df, k, r) && rec_key_at(df, k, r, j) == key,
            |key: Seq<u8>|
                rec_val_at(
                    df,
                    k,
                    r,
                    choose|j: int| 0 <= j < num_recs(df, k, r) && rec_key_at(df, k, r, j) == key,
                ),
        )
    }

    /// Well-formedness: a sound index whose entries are exactly the heap's
    /// records, at most one record per key, and a whole number of records.
    pub closed spec fn wf(&self) -> bool {
        let k = self.keysize as nat;
        let r = self.recordsize as nat;
        let df = self.datafile@;
        &&& self.index.wf()
        &&& self.index@.keysize == k
        &&& k >= 1
        &&& df.len() as int % rec_w(k, r) == 0
        &&& self.index.entry_list().to_multiset() == heap_entries(df, k, r).to_multiset()
        &&& distinct_keys(df, k, r)
    }

    /// The configured key width.
    pub fn keysize(&self) -> (r: u16)
        ensures
            r as nat == self.key_width(),
    {
        self.keysize
    }

    /// The configured value width.
    pub fn recordsize(&self) -> (r: u16)
        ensures
            r as nat == self.val_width(),
    {
        self.recordsize
    }

    /// A copy of the heap-file image, as it would be written to disk.
    pub fn heap_bytes(&self) -> (r: Vec<u8>)
        ensures
            r@ == self.heap(),
    {
        sub_bytes(&self.datafile, 0, self.datafile.len())
    }

    /// How many nodes the index arena holds.
    pub closed spec fn index_nodes(&self) -> nat {
        self.index@.nodes.len()
    }

    /// The index's node count plus split budget: at most two more per added
    /// record, so a caller can rule out `TooLarge` over a run of adds.
    pub closed spec fn index_load(&self) -> int {
        self.index@.load()
    }

    /// The minimum degree of the driving index.
    pub closed spec fn degree(&self) -> nat {
        self.index@.t
    }

    /// Look up `key` (padded to the key width): `Some` of the stored padded
    /// value exactly when the table holds that key.
    pub fn search_record(&self, key: &Vec<u8>) -> (res: Option<Vec<u8>>)
        requires
            self.wf(),
        ensures
            ({
                let pk = pad_spec(key@, self.key_width());
                match res {
                    Some(v) => self@.contains_key(pk) && v@ == self@[pk],
                    None => !self@.contains_key(pk),
                }
            }),
    {
        let ghost k = self.key_width();
        let ghost r = self.val_width();
        let ghost df = self.datafile@;
        let ghost pk = pad_spec(key@, k);
        match self.index.search(key) {
            None => {
                proof {
                    lemma_key_coverage(self, pk);
                }
                None
            },
            Some(off) => {
                proof {
                    lemma_entry_record(self, (pk, off));
                    vstd::std_specs::vec::axiom_spec_len(&self.datafile);
                }
                let dlen = self.datafile.len();
                let start = off as usize + self.keysize as usize;
                let buf = sub_bytes(&self.datafile, start, start + self.recordsize as usize);
                proof {
                    let w = rec_w(k, r);
                    let j = off as int / w;
                    assert((j + 1) * w == j * w + w) by (nonlinear_arith);
                    assert(buf@ == rec_val_at(df, k, r, j));
                }
                Some(buf)
            },
        }
    }

    /// Overwrite the stored value for `key` with the padded `record`.  A
    /// missing key is not an error: the table is simply left unchanged.  The
    /// key bytes on disk are never touched.
    pub fn update_record(&mut self, key: &Vec<u8>, record: &Vec<u8>) -> (res: Result<
        (),
        StoreError,
    >)
        requires
            old(self).wf(),
        ensures
            final(self).wf(),
            final(self).key_width() == old(self).key_width(),
            final(self).val_width() == old(self).val_width(),
            final(self).index_entries() == old(self).index_entries(),
            final(self).degree() == old(self).degree(),
            final(self).index_load() == old(self).index_load(),
            ({
                let k = old(self).key_width();
                let r = old(self).val_width();
                let pk = pad_spec(key@, k);
                let pv = pad_spec(record@, r);
                if key@.len() > k || record@.len() > r {
                    &&& res == Err::<(), StoreError>(StoreError::InvalidInput)
                    &&& final(self)@ == old(self)@
                    &&& final(self).heap() == old(self).heap()
                } else if !old(self)@.contains_key(pk) {
                    &&& res == Ok::<(), StoreError>(())
                    &&& final(self)@ == old(self)@
                    &&& final(self).heap() == old(self).heap()
                } else {
                    &&& res == Ok::<(), StoreError>(())
                    &&& final(self)@ == old(self)@.insert(pk, pv)
                    &&& final(self).heap().len() == old(self).heap().len()
                    &&& exists|off: int|
                        {
                            &&& #[trigger] old(self).index_entries().contains((pk, off as u64))
                            &&& 0 <= off
                            &&& off + rec_w(k, r) <= old(self).heap().len()
                            &&& final(self).heap() == old(self).heap().subrange(0, off + k) + pv
                                + old(self).heap().subrange(
                                off + rec_w(k, r),
                                old(self).heap().len() as int,
                            )
                        }
                }
            }),
    {
        let ghost k = self.key_width();
        let ghost r = self.val_width();
        let ghost w = rec_w(k, r);
        let ghost df = self.datafile@;
        let ghost pk = pad_spec(key@, k);
        if key.len() > self.keysize as usize || record.len() > self.recordsize as usize {
            return Err(StoreError::InvalidInput);
        }
        match self.index.search(key) {
            None => {
                proof {
                    lemma_key_coverage(self, pk);
                }
                Ok(())
            },
            Some(off) => {
                proof {
                    lemma_entry_record(self, (pk, off));
                    vstd::std_specs::vec::axiom_spec_len(&self.datafile);
                    let j = off as int / w;
                    assert((j + 1) * w == j * w + w) by (nonlinear_arith);
                }
                let ghost j = off as int / w;
                let pv = pad_bytes(record, self.recordsize as usize);
                let at = off as usize + self.keysize as usize;
                overwrite_at(&mut self.datafile, at, &pv);
                proof {
                    let df2 = self.datafile@;
                    let pvv = pad_spec(record@, r);
                    assert(df2.len() == df.len());
                    assert((j + 1) * w == j * w + w) by (nonlinear_arith);
                    assert forall|i: int|
                        0 <= i < df.len() && !(j * w + k <= i < (j + 1) * w) implies df2[i]
                        == df[i] by {
                        if i < j * w + k {
                            assert(df2.subrange(0, at as int)[i] == df.subrange(0, at as int)[i]);
                        } else {
                            assert(df2.subrange(at as int + r as int, df.len() as int)[i - at - r]
                                == df.subrange(at as int + r as int, df.len() as int)[i - at - r]);
                        }
                    }
                    // every key region is untouched, so the entry list is the same
                    assert forall|j2: int| 0 <= j2 < num_recs(df2, k, r) implies rec_key_at(
                        df2,
                        k,
                        r,
                        j2,
                    ) == rec_key_at(df, k, r, j2) && (j2 != j ==> rec_val_at(df2, k, r, j2)
                        == rec_val_at(df, k, r, j2)) by {
                        lemma_rec_regions(df, df2, k, r, j2, j);
                    }
                    assert(heap_entries(df2, k, r) =~= heap_entries(df, k, r));
                    assert(distinct_keys(df2, k, r));
                    assert(rec_val_at(df2, k, r, j) == pvv) by {
                        assert(df2.subrange(at as int, at as int + pvv.len()) == pvv);
                        assert(rec_val_at(df2, k, r, j) =~= df2.subrange(
                            at as int,
                            at as int + pvv.len(),
                        ));
                    }
                    // the new map is the old one with this key rebound
                    assert(rec_key_at(df2, k, r, j) == pk);
                    assert forall|key2: Seq<u8>| #[trigger] self@.contains_key(key2)
                        == old(self)@.insert(pk, pvv).contains_key(key2) by {
                        if self@.contains_key(key2) {
                            let i0 = choose|i: int|
                                0 <= i < num_recs(df2, k, r) && rec_key_at(df2, k, r, i) == key2;
                            assert(rec_key_at(df, k, r, i0) == key2);
                            assert(old(self)@.contains_key(key2));
                        }
                        if old(self)@.contains_key(key2) {
                            let i0 = choose|i: int|
                                0 <= i < num_recs(df, k, r) && rec_key_at(df, k, r, i) == key2;
                            assert(rec_key_at(df2, k, r, i0) == key2);
                            assert(self@.contains_key(key2));
                        }
                        if key2 == pk {
                            assert(self@.contains_key(key2));
                        }
                    }
                    assert forall|key2: Seq<u8>|
                        self@.contains_key(key2) implies #[trigger] self@[key2] == old(
                        self,
                    )@.insert(pk, pvv)[key2] by {
                        let jc = choose|i: int|
                            0 <= i < num_recs(df2, k, r) && rec_key_at(df2, k, r, i) == key2;
                        if key2 == pk {
                            if jc != j {
                                assert(rec_key_at(df2, k, r, jc) != rec_key_at(df2, k, r, j));
                            }
                            assert(self@[key2] == rec_val_at(df2, k, r, j));
                        } else {
                            let jo = choose|i: int|
                                0 <= i < num_recs(df, k, r) && rec_key_at(df, k, r, i) == key2;
                            assert(rec_key_at(df, k, r, jc) == key2);
                            if jo != jc {
                                assert(rec_key_at(df, k, r, jo) != rec_key_at(df, k, r, jc));
                            }
                            assert(jc != j) by {
                                assert(rec_key_at(df2, k, r, j) == pk);
                            }
                            assert(self@[key2] == rec_val_at(df2, k, r, jc));
                            assert(old(self)@[key2] == rec_val_at(df, k, r, jo));
                        }
                    }
                    assert(self@ =~= old(self)@.insert(pk, pvv));
                    // the heap changed only inside this record's value region
                    assert(df2 =~= df.subrange(0, off as int + k) + pvv + df.subrange(
                        off as int + w,
                        df.len() as int,
                    ));
                    assert(old(self).index_entries().contains((pk, (off as int) as u64)));
                }
                Ok(())
            },
        }
    }

    /// Append a new `(key, value)` record and index it.  A key already
    /// present is not stored again: the call succeeds and changes nothing.
    /// Oversize inputs are rejected; `TooLarge` reports an index arena past
    /// the width its on-disk child slots can address.
    #[verifier::rlimit(100)]
    #[verifier::spinoff_prover]
    pub fn add_record(&mut self, key: &Vec<u8>, record: &Vec<u8>) -> (res: Result<(), StoreError>)
        requires
            old(self).wf(),
        ensures
            final(self).wf(),
            final(self).key_width() == old(self).key_width(),
            final(self).val_width() == old(self).val_width(),
            final(self).degree() == old(self).degree(),
            final(self).index_load() <= old(self).index_load() + 2,
            ({
                let k = old(self).key_width();
                let r = old(self).val_width();
                let pk = pad_spec(key@, k);
                let pv = pad_spec(record@, r);
                if key@.len() > k || record@.len() > r {
                    &&& res == Err::<(), StoreError>(StoreError::InvalidInput)
                    &&& final(self)@ == old(self)@
                    &&& final(self).heap() == old(self).heap()
                } else if old(self)@.contains_key(pk) {
                    &&& res == Ok::<(), StoreError>(())
                    &&& final(self)@ == old(self)@
                    &&& final(self).heap() == old(self).heap()
                } else if old(self).index_nodes() > NODE_CAP {
                    &&& res == Err::<(), StoreError>(StoreError::TooLarge)
                    &&& final(self)@ == old(self)@
                    &&& final(self).heap() == old(self).heap()
                } else {
                    &&& res == Ok::<(), StoreError>(())
                    &&& final(self)@ == old(self)@.insert(pk, pv)
                    &&& final(self).heap() == old(self).heap() + pk + pv
                }
            }),
    {
        broadcast use vstd::seq_lib::group_to_multiset_ensures;

        let ghost k = self.key_width();
        let ghost r = self.val_width();
        let ghost w = rec_w(k, r);
        let ghost df = self.datafile@;
        let ghost pk = pad_spec(key@, k);
        let ghost pv = pad_spec(record@, r);
        if key.len() > self.keysize as usize || record.len() > self.recordsize as usize {
            return Err(StoreError::InvalidInput);
        }
        match self.index.search(key) {
            Some(_v) => {
                proof {
                    lemma_key_coverage(self, pk);
                }
                return Ok(());
            },
            None => {
                proof {
                    lemma_key_coverage(self, pk);
                }
            },
        }
        if !self.index.has_room() {
            return Err(StoreError::TooLarge);
        }
        proof {
            vstd::std_specs::vec::axiom_spec_len(&self.datafile);
        }
        let off = self.datafile.len();
        let pkb = pad_bytes(key, self.keysize as usize);
        let pvb = pad_bytes(record, self.recordsize as usize);
        append_bytes(&mut self.datafile, &pkb);
        append_bytes(&mut self.datafile, &pvb);
        let ghost df2 = self.datafile@;
        proof {
            assert(df2 =~= df + pk + pv);
            lemma_pad_exact(pk, k);
        }
        let res = self.index.insert(pkb, off as u64);
        proof {
            let num = num_recs(df, k, r);
            assert(res is Ok);
            lemma_heap_append(df, k, r, pk, pv);
            // the index grew by exactly the entry the new record demands
            assert(pad_spec(pkb@, k) == pk) by {
                lemma_pad_exact(pkb@, k);
            }
            assert(self.index.entry_list().to_multiset() == heap_entries(
                df2,
                k,
                r,
            ).to_multiset()) by {
                assert(heap_entries(df2, k, r) =~= heap_entries(df, k, r).push(
                    (pk, df.len() as u64),
                ));
            }
            // no old record carries the new key
            assert(forall|j: int| 0 <= j < num ==> rec_key_at(df, k, r, j) != pk);
            assert(distinct_keys(df2, k, r)) by {
                assert forall|j1: int, j2: int| 0 <= j1 < j2 < num + 1 implies rec_key_at(
                    df2,
                    k,
                    r,
                    j1,
                ) != rec_key_at(df2, k, r, j2) by {
                    if j2 < num {
                        assert(rec_key_at(df, k, r, j1) != rec_key_at(df, k, r, j2));
                    } else {
                        assert(rec_key_at(df2, k, r, j2) == pk);
                        assert(rec_key_at(df2, k, r, j1) == rec_key_at(df, k, r, j1));
                    }
                }
            }
            assert(df2.len() as int % w == 0) by {
                vstd::arithmetic::div_mod::lemma_fundamental_div_mod(df.len() as int, w);
                assert(df.len() as int == num * w) by (nonlinear_arith)
                    requires
                        df.len() as int == w * (df.len() as int / w) + df.len() as int % w,
                        df.len() as int % w == 0,
                        num == df.len() as int / w,
                ;
                assert(df2.len() as int == (num + 1) * w) by (nonlinear_arith)
                    requires
                        df2.len() as int == num * w + w,
                ;
                vstd::arithmetic::div_mod::lemma_mod_multiples_basic(num + 1, w);
            }
            // the map view gained exactly the new binding
            assert(rec_key_at(df2, k, r, num) == pk);
            assert forall|key2: Seq<u8>| #[trigger] self@.contains_key(key2) == old(
                self,
            )@.insert(pk, pv).contains_key(key2) by {
                if self@.contains_key(key2) {
                    let i0 = choose|i: int|
                        0 <= i < num_recs(df2, k, r) && rec_key_at(df2, k, r, i) == key2;
                    if i0 < num {
                        assert(rec_key_at(df, k, r, i0) == key2);
                        assert(old(self)@.contains_key(key2));
                    } else {
                        assert(key2 == pk);
                    }
                }
                if old(self)@.contains_key(key2) {
                    let i0 = choose|i: int|
                        0 <= i < num_recs(df, k, r) && rec_key_at(df, k, r, i) == key2;
                    assert(rec_key_at(df2, k, r, i0) == key2);
                    assert(self@.contains_key(key2));
                }
                if key2 == pk {
                    assert(rec_key_at(df2, k, r, num) == key2);
                    assert(self@.contains_key(key2));
                }
            }
            assert forall|key2: Seq<u8>|
                self@.contains_key(key2) implies #[trigger] self@[key2] == old(self)@.insert(
                pk,
                pv,
            )[key2] by {
                let jc = choose|i: int|
                    0 <= i < num_recs(df2, k, r) && rec_key_at(df2, k, r, i) == key2;
                if key2 == pk {
                    if jc != num {
                        assert(rec_key_at(df2, k, r, jc) == rec_key_at(df, k, r, jc));
                    }
                    assert(jc == num);
                    assert(self@[key2] == rec_val_at(df2, k, r, num));
                } else {
                    assert(jc != num);
                    assert(rec_key_at(df, k, r, jc) == key2);
                    let jo = choose|i: int|
                        0 <= i < num_recs(df, k, r) && rec_key_at(df, k, r, i) == key2;
                    if jo != jc {
                        assert(rec_key_at(df, k, r, jo) != rec_key_at(df, k, r, jc));
                    }
                    assert(self@[key2] == rec_val_at(df2, k, r, jc));
                    assert(old(self)@[key2] == rec_val_at(df, k, r, jo));
                }
            }
            assert(self@ =~= old(self)@.insert(pk, pv));
        }
        match res {
            Ok(()) => Ok(()),
            Err(e) => {
                proof {
                    assert(false);
                }
                Err(e)
            },
        }
    }

    /// Every record, in ascending key order: the pairs `(stored key, stored
    /// value)` read back from the heap file by walking the index in order.
    #[verifier::rlimit(100)]
    pub fn list_records(&self) -> (res: Vec<(Vec<u8>, Vec<u8>)>)
        requires
            self.wf(),
        ensures
            res@.len() == self.index_entries().len(),
            sorted_entries(self.index_entries()),
            forall|i: int|
                0 <= i < res@.len() ==> {
                    &&& (#[trigger] res@[i]).0@ == self.index_entries()[i].0
                    &&& self@.contains_key(self.index_entries()[i].0)
                    &&& res@[i].1@ == self@[self.index_entries()[i].0]
                },
    {
        let ents = self.index.traverse_inorder();
        let mut out: Vec<(Vec<u8>, Vec<u8>)> = Vec::new();
        let mut i: usize = 0;
        let n = ents.len();
        while i < n
            invariant
                self.wf(),
                i <= n,
                n == ents@.len(),
                rec_matches(ents@, self.index_entries()),
                out@.len() == i,
                forall|q: int|
                    0 <= q < i ==> {
                        &&& (#[trigger] out@[q]).0@ == self.index_entries()[q].0
                        &&& self@.contains_key(self.index_entries()[q].0)
                        &&& out@[q].1@ == self@[self.index_entries()[q].0]
                    },
            decreases n - i,
        {
            let ghost k = self.key_width();
            let ghost r = self.val_width();
            let ghost e = self.index_entries()[i as int];
            let off = ents[i].1;
            proof {
                assert(ents@[i as int].1 == e.1 && ents@[i as int].0@ == e.0);
                assert(self.index_entries().contains(e)) by {
                    assert(self.index_entries()[i as int] == e);
                }
                lemma_entry_record(self, e);
                vstd::std_specs::vec::axiom_spec_len(&self.datafile);
                let w = rec_w(k, r);
                let j = e.1 as int / w;
                assert((j + 1) * w == j * w + w) by (nonlinear_arith);
            }
            let kb = sub_bytes(&self.datafile, off as usize, off as usize + self.keysize as usize);
            let start = off as usize + self.keysize as usize;
            let vb = sub_bytes(&self.datafile, start, start + self.recordsize as usize);
            proof {
                let w = rec_w(k, r);
                let j = e.1 as int / w;
                assert(kb@ == rec_key_at(self.datafile@, k, r, j));
                assert(vb@ == rec_val_at(self.datafile@, k, r, j));
            }
            let ghost prev = out@;
            out.push((kb, vb));
            proof {
                let w = rec_w(k, r);
                let j = e.1 as int / w;
                assert(rec_key_at(self.datafile@, k, r, j) == e.0);
                assert(out@[i as int].0@ == e.0);
                assert(out@[i as int].1@ == self@[e.0]);
                assert forall|q: int|
                    0 <= q < i + 1 implies {
                    &&& (#[trigger] out@[q]).0@ == self.index_entries()[q].0
                    &&& self@.contains_key(self.index_entries()[q].0)
                    &&& out@[q].1@ == self@[self.index_entries()[q].0]
                } by {
                    if q < i {
                        assert(out@[q] == prev[q]);
                        assert(prev[q].0@ == self.index_entries()[q].0);
                        assert(prev[q].1@ == self@[self.index_entries()[q].0]);
                    } else {
                        assert(out@[q].0@ == e.0);
                    }
                }
            }
            i = i + 1;
        }
        proof {
            lemma_sorted_from_index(self);
        }
        out
    }

    /// Open a table over an existing heap image, choosing the minimum degree
    /// from the on-disk entry size so that nodes fit common I/O block sizes,
    /// and build the index by scanning the heap.
    pub fn create(datafile: Vec<u8>, recordsize: u16, keysize: u16) -> (res: Result<
        Table,
        StoreError,
    >)
        requires
            keysize >= 1,
            datafile@.len() as int % rec_w(keysize as nat, recordsize as nat) == 0,
            distinct_keys(datafile@, keysize as nat, recordsize as nat),
        ensures
            match res {
                Ok(tbl) => {
                    &&& tbl.wf()
                    &&& tbl.key_width() == keysize as nat
                    &&& tbl.val_width() == recordsize as nat
                    &&& tbl.heap() == datafile@
                    &&& tbl.index_load() <= 2 * num_recs(
                        datafile@,
                        keysize as nat,
                        recordsize as nat,
                    ) + 1
                    &&& tbl.degree() == ({
                        let e = 3 * (keysize as int) + 40;
                        if e <= 128 {
                            32nat
                        } else if e <= 256 {
                            16nat
                        } else if e <= 512 {
                            8nat
                        } else {
                            4nat
                        }
                    })
                },
                Err(e) => e == StoreError::TooLarge,
            },
            2 * num_recs(datafile@, keysize as nat, recordsize as nat) + 1 <= NODE_CAP as int
                ==> res is Ok,
    {
        let entry_size: u32 = (keysize as u32) + 8 + 2 * (keysize as u32 + 8 + 8);
        let t: u32 = if entry_size <= 128 {
            32
        } else if entry_size <= 256 {
            16
        } else if entry_size <= 512 {
            8
        } else {
            4
        };
        Table::open_table(datafile, recordsize, keysize, t)
    }

    /// Open a table over an existing heap image with a caller-chosen minimum
    /// degree, as the measurement harness does.  Fails with `InvalidInput`
    /// exactly when `t < 2`.
    pub fn create_benchmark(datafile: Vec<u8>, recordsize: u16, keysize: u16, t: u32) -> (res:
        Result<Table, StoreError>)
        requires
            keysize >= 1,
            t <= 0x4000_0000,
            datafile@.len() as int % rec_w(keysize as nat, recordsize as nat) == 0,
            distinct_keys(datafile@, keysize as nat, recordsize as nat),
        ensures
            t < 2 ==> res == Err::<Table, StoreError>(StoreError::InvalidInput),
            match res {
                Ok(tbl) => {
                    &&& t >= 2
                    &&& tbl.wf()
                    &&& tbl.key_width() == keysize as nat
                    &&& tbl.val_width() == recordsize as nat
                    &&& tbl.heap() == datafile@
                    &&& tbl.degree() == t as nat
                    &&& tbl.index_load() <= 2 * num_recs(
                        datafile@,
                        keysize as nat,
                        recordsize as nat,
                    ) + 1
                },
                Err(e) => e == StoreError::TooLarge || (e == StoreError::InvalidInput && t < 2),
            },
            (t >= 2 && 2 * num_recs(datafile@, keysize as nat, recordsize as nat) + 1
                <= NODE_CAP as int) ==> res is Ok,
    {
        Table::open_table(datafile, recordsize, keysize, t)
    }

    /// Attach a heap image to an index that already describes it, as when
    /// both files were written earlier by this library.
    pub fn attach(datafile: Vec<u8>, recordsize: u16, index: Index) -> (tbl: Table)
        requires
            index.wf(),
            index@.keysize >= 1,
            datafile@.len() as int % rec_w(index@.keysize, recordsize as nat) == 0,
            distinct_keys(datafile@, index@.keysize, recordsize as nat),
            index.entry_list().to_multiset() == heap_entries(
                datafile@,
                index@.keysize,
                recordsize as nat,
            ).to_multiset(),
        ensures
            tbl.wf(),
            tbl.key_width() == index@.keysize,
            tbl.val_width() == recordsize as nat,
            tbl.heap() == datafile@,
            tbl.index_entries() == index.entry_list(),
            tbl.degree() == index@.t,
            tbl.index_load() == index@.load(),
    {
        let keysize = index.keysize();
        Table { keysize, recordsize, datafile, index }
    }

    /// Create a fresh index of degree `t` and fill it by scanning the heap:
    /// one entry per record, key bytes as stored, value the record's offset.
    fn open_table(datafile: Vec<u8>, recordsize: u16, keysize: u16, t: u32) -> (res: Result<
        Table,
        StoreError,
    >)
        requires
            keysize >= 1,
            t <= 0x4000_0000,
            datafile@.len() as int % rec_w(keysize as nat, recordsize as nat) == 0,
            distinct_keys(datafile@, keysize as nat, recordsize as nat),
        ensures
            t < 2 ==> res == Err::<Table, StoreError>(StoreError::InvalidInput),
            match res {
                Ok(tbl) => {
                    &&& t >= 2
                    &&& tbl.wf()
                    &&& tbl.key_width() == keysize as nat
                    &&& tbl.val_width() == recordsize as nat
                    &&& tbl.heap() == datafile@
                    &&& tbl.degree() == t as nat
                    &&& tbl.index_load() <= 2 * num_recs(
                        datafile@,
                        keysize as nat,
                        recordsize as nat,
                    ) + 1
                },
                Err(e) => e == StoreError::TooLarge || (e == StoreError::InvalidInput && t < 2),
            },
            (t >= 2 && 2 * num_recs(datafile@, keysize as nat, recordsize as nat) + 1
                <= NODE_CAP as int) ==> res is Ok,
    {
        broadcast use vstd::seq_lib::group_to_multiset_ensures;

        let ghost k = keysize as nat;
        let ghost r = recordsize as nat;
        let ghost w = rec_w(k, r);
        let ghost df = datafile@;
        let mut index = match Index::create(t, keysize) {
            Ok(i) => i,
            Err(e) => {
                return Err(e);
            },
        };
        let dlen = datafile.len();
        let step = keysize as usize + recordsize as usize;
        let mut offset: usize = 0;
        let mut j: usize = 0;
        proof {
            vstd::arithmetic::div_mod::lemma_fundamental_div_mod(df.len() as int, w);
            assert(df.len() as int == num_recs(df, k, r) * w) by (nonlinear_arith)
                requires
                    df.len() as int == w * (df.len() as int / w) + df.len() as int % w,
                    df.len() as int % w == 0,
                    num_recs(df, k, r) == df.len() as int / w,
            ;
            assert(heap_entries(df, k, r).take(0) =~= Seq::<(Seq<u8>, u64)>::empty());
            assert(Seq::<(Seq<u8>, u64)>::empty().to_multiset() =~= Seq::<(
                Seq<u8>,
                u64,
            )>::empty().to_multiset());
        }
        while offset < dlen
            invariant
                index.wf(),
                index@.t == t as nat,
                index@.keysize == k,
                t >= 2,
                k >= 1,
                k == keysize as nat,
                r == recordsize as nat,
                w == rec_w(k, r),
                step == w,
                df == datafile@,
                dlen == df.len(),
                df.len() as int == num_recs(df, k, r) * w,
                offset == j * w,
                0 <= j <= num_recs(df, k, r),
                offset <= dlen,
                index@.load() <= 2 * j + 1,
                index.entry_list().to_multiset() == heap_entries(df, k, r).take(
                    j as int,
                ).to_multiset(),
            decreases dlen - offset,
        {
            proof {
                assert(j < num_recs(df, k, r)) by {
                    if j >= num_recs(df, k, r) {
                        assert(offset >= dlen) by (nonlinear_arith)
                            requires
                                offset == j * w,
                                j >= num_recs(df, k, r),
                                dlen == num_recs(df, k, r) * w,
                                w >= 1,
                        ;
                    }
                }
                assert(offset + w <= dlen) by (nonlinear_arith)
                    requires
                        offset == j * w,
                        j + 1 <= num_recs(df, k, r),
                        dlen == num_recs(df, k, r) * w,
                        w >= 1,
                ;
                assert(offset + step <= dlen);
                assert(offset + keysize as usize <= dlen);
            }
            let keybuf = sub_bytes(&datafile, offset, offset + keysize as usize);
            let ghost kb = keybuf@;
            proof {
                assert(kb == rec_key_at(df, k, r, j as int));
                lemma_pad_exact(kb, k);
            }
            let ghost prev_entries = index.entry_list();
            proof {
                lemma_excess_nonneg(index@.nodes, index@.t);
            }
            match index.insert(keybuf, offset as u64) {
                Ok(()) => {},
                Err(e) => {
                    return Err(e);
                },
            }
            proof {
                let he = heap_entries(df, k, r);
                let x = (pad_spec(kb, k), offset as u64);
                assert(index.entry_list().to_multiset() == prev_entries.to_multiset().insert(x));
                assert(he[j as int] == (rec_key_at(df, k, r, j as int), (j as int * w) as u64));
                assert(offset as u64 == (j as int * w) as u64);
                assert(x == he[j as int]);
                assert(he.take(j as int + 1) =~= he.take(j as int).push(he[j as int]));
                vstd::seq_lib::to_multiset_build(he.take(j as int), he[j as int]);
                assert(he.take(j as int).push(he[j as int]).to_multiset() == he.take(
                    j as int,
                ).to_multiset().insert(he[j as int]));
                assert(index.entry_list().to_multiset() == he.take(j as int + 1).to_multiset());
            }
            offset = offset + step;
            j = j + 1;
            proof {
                assert(offset == j * w) by (nonlinear_arith)
                    requires
                        offset == (j - 1) * w + w,
                ;
            }
        }
        proof {
            assert(j == num_recs(df, k, r)) by {
                assert(offset == dlen);
                assert(j * w == num_recs(df, k, r) * w);
                assert(j == num_recs(df, k, r)) by (nonlinear_arith)
                    requires
                        j * w == num_recs(df, k, r) * w,
                        w >= 1,
                ;
            }
            assert(heap_entries(df, k, r).take(num_recs(df, k, r)) =~= heap_entries(df, k, r));
        }
        Ok(Table { keysize, recordsize, datafile, index })
    }

    /// The index this table drives.
    pub fn index_ref(&self) -> (r: &Index)
        ensures
            r.entry_list() == self.index_entries(),
            self.wf() ==> r.wf() && r@.keysize == self.key_width(),
    {
        &self.index
    }
}

/// Appending one padded record extends the heap's entry sequence by exactly
/// one pair, at the old end-of-file offset, and touches no earlier record.
pub proof fn lemma_heap_append(df: Seq<u8>, k: nat, r: nat, pk: Seq<u8>, pv: Seq<u8>)
    requires
        k >= 1,
        df.len() as int % rec_w(k, r) == 0,
        df.len() <= usize::MAX,
        pk.len() == k,
        pv.len() == r,
    ensures
        ({
            let df2 = df + pk + pv;
            &&& num_recs(df2, k, r) == num_recs(df, k, r) + 1
            &&& heap_entries(df2, k, r) =~= heap_entries(df, k, r).push((pk, df.len() as u64))
            &&& rec_key_at(df2, k, r, num_recs(df, k, r)) == pk
            &&& rec_val_at(df2, k, r, num_recs(df, k, r)) == pv
            &&& (forall|j: int|
                0 <= j < num_recs(df, k, r) ==> #[trigger] rec_key_at(df2, k, r, j) == rec_key_at(
                    df,
                    k,
                    r,
                    j,
                ) && rec_val_at(df2, k, r, j) == rec_val_at(df, k, r, j))
        }),
{
    let w = rec_w(k, r);
    let num = num_recs(df, k, r);
    let df2 = df + pk + pv;
    vstd::arithmetic::div_mod::lemma_fundamental_div_mod(df.len() as int, w);
    assert(df.len() as int == num * w) by (nonlinear_arith)
        requires
            df.len() as int == w * (df.len() as int / w) + df.len() as int % w,
            df.len() as int % w == 0,
            num == df.len() as int / w,
    ;
    assert(df2.len() as int == (num + 1) * w) by (nonlinear_arith)
        requires
            df2.len() as int == num * w + w,
    ;
    assert(num_recs(df2, k, r) == num + 1) by {
        vstd::arithmetic::div_mod::lemma_div_multiples_vanish(num + 1, w);
    }
    assert(num >= 0);
    assert forall|j: int| 0 <= j < num implies #[trigger] rec_key_at(df2, k, r, j) == rec_key_at(
        df,
        k,
        r,
        j,
    ) && rec_val_at(df2, k, r, j) == rec_val_at(df, k, r, j) by {
        assert((j + 1) * w <= num * w && j * w >= 0 && (j + 1) * w == j * w + w) by (nonlinear_arith)
            requires
                0 <= j,
                j + 1 <= num,
                w >= 1,
        ;
        assert(rec_key_at(df2, k, r, j) =~= rec_key_at(df, k, r, j));
        assert(rec_val_at(df2, k, r, j) =~= rec_val_at(df, k, r, j));
    }
    assert((num + 1) * w == num * w + w) by (nonlinear_arith);
    assert(rec_key_at(df2, k, r, num) =~= pk);
    assert(rec_val_at(df2, k, r, num) =~= pv);
    assert(heap_entries(df2, k, r) =~= heap_entries(df, k, r).push((pk, df.len() as u64)));
}

/// Changing bytes only inside record `j`'s value region leaves every key
/// region, and every other record's value region, as it was.
pub proof fn lemma_rec_regions(df: Seq<u8>, df2: Seq<u8>, k: nat, r: nat, j2: int, j: int)
    requires
        rec_w(k, r) >= 1,
        df2.len() == df.len(),
        0 <= j,
        (j + 1) * rec_w(k, r) <= df.len(),
        forall|i: int|
            0 <= i < df.len() && !(j * rec_w(k, r) + k <= i < (j + 1) * rec_w(k, r))
                ==> df2[i] == df[i],
        0 <= j2 < num_recs(df, k, r),
    ensures
        rec_key_at(df2, k, r, j2) == rec_key_at(df, k, r, j2),
        j2 != j ==> rec_val_at(df2, k, r, j2) == rec_val_at(df, k, r, j2),
{
    let w = rec_w(k, r);
    vstd::arithmetic::div_mod::lemma_fundamental_div_mod(df.len() as int, w);
    assert(num_recs(df, k, r) * w <= df.len()) by (nonlinear_arith)
        requires
            df.len() as int == w * (df.len() as int / w) + df.len() as int % w,
            df.len() as int % w >= 0,
            w >= 1,
            num_recs(df, k, r) == df.len() as int / w,
    ;
    assert((j2 + 1) * w <= num_recs(df, k, r) * w) by (nonlinear_arith)
        requires
            j2 + 1 <= num_recs(df, k, r),
            w >= 1,
    ;
    if j2 < j {
        assert((j2 + 1) * w <= j * w) by (nonlinear_arith)
            requires
                j2 + 1 <= j,
                w >= 1,
        ;
    }
    if j2 > j {
        assert((j + 1) * w <= j2 * w) by (nonlinear_arith)
            requires
                j + 1 <= j2,
                w >= 1,
        ;
    }
    assert(j2 * w >= 0 && (j2 + 1) * w == j2 * w + w) by (nonlinear_arith)
        requires
            j2 >= 0,
            w >= 1,
    ;
    assert forall|q: int| 0 <= q < k implies #[trigger] df2[j2 * w + q] == df[j2 * w + q] by {
        let i = j2 * w + q;
        assert(0 <= i < df.len());
        if j2 == j {
            assert(i < j * w + k);
        } else if j2 < j {
            assert(i < j2 * w + w);
            assert(i < j * w + k);
        } else {
            assert(i >= (j + 1) * w);
        }
        assert(df2[i] == df[i]);
    }
    assert(rec_key_at(df2, k, r, j2) =~= rec_key_at(df, k, r, j2));
    if j2 != j {
        assert forall|q: int| 0 <= q < r implies #[trigger] df2[j2 * w + k + q] == df[j2 * w + k + q] by {
            let i = j2 * w + k + q;
            assert(0 <= i < df.len());
            if j2 < j {
                assert(i < j2 * w + w);
                assert(i < j * w + k);
            } else {
                assert(i >= (j + 1) * w);
            }
            assert(df2[i] == df[i]);
        }
        assert(rec_val_at(df2, k, r, j2) =~= rec_val_at(df, k, r, j2));
    }
}

/// A well-formed table's index lists its keys in non-decreasing order.
pub proof fn lemma_sorted_from_index(tbl: &Table)
    requires
        tbl.wf(),
    ensures
        sorted_entries(tbl.index_entries()),
{
    crate::btree::lemma_entries_sorted(
        tbl.index@.nodes,
        tbl.index@.root,
        tbl.index@.t,
        tbl.index@.keysize,
        tbl.index@.fuel(),
    );
}

/// The record slot that answers for `key` is the one whose key region holds
/// `key`; under `distinct_keys` there is at most one.
pub proof fn lemma_slot_unique(df: Seq<u8>, k: nat, r: nat, j: int)
    requires
        distinct_keys(df, k, r),
        0 <= j < num_recs(df, k, r),
    ensures
        (choose|i: int|
            0 <= i < num_recs(df, k, r) && rec_key_at(df, k, r, i) == rec_key_at(df, k, r, j))
            == j,
{
    let key = rec_key_at(df, k, r, j);
    assert(exists|i: int| 0 <= i < num_recs(df, k, r) && rec_key_at(df, k, r, i) == key);
    let i0 = choose|i: int| 0 <= i < num_recs(df, k, r) && rec_key_at(df, k, r, i) == key;
    if i0 != j {
        assert(rec_key_at(df, k, r, i0) != rec_key_at(df, k, r, j));
    }
}

/// What a well-formed table guarantees about its parts, for callers that
/// rebuild an index or re-attach one written earlier: the index's entries
/// are exactly the heap's records, no key repeats, and the widths are sound.
pub proof fn lemma_table_wf_exposed(tbl: &Table)
    requires
        tbl.wf(),
    ensures
        tbl.index_entries().to_multiset() == heap_entries(
            tbl.heap(),
            tbl.key_width(),
            tbl.val_width(),
        ).to_multiset(),
        distinct_keys(tbl.heap(), tbl.key_width(), tbl.val_width()),
        tbl.key_width() >= 1,
        tbl.heap().len() as int % rec_w(tbl.key_width(), tbl.val_width()) == 0,
{
}

/// The table's map is exactly the heap image's records: a key is bound iff
/// some record carries it, and then to that record's value region.
pub proof fn lemma_view_is_heap_map(tbl: &Table, key: Seq<u8>)
    requires
        tbl.wf(),
    ensures
        tbl@.contains_key(key) <==> (exists|j: int|
            0 <= j < num_recs(tbl.heap(), tbl.key_width(), tbl.val_width()) && rec_key_at(
                tbl.heap(),
                tbl.key_width(),
                tbl.val_width(),
                j,
            ) == key),
        forall|j: int|
            0 <= j < num_recs(tbl.heap(), tbl.key_width(), tbl.val_width()) && rec_key_at(
                tbl.heap(),
                tbl.key_width(),
                tbl.val_width(),
                j,
            ) == key ==> tbl@.contains_key(key) && tbl@[key] == rec_val_at(
                tbl.heap(),
                tbl.key_width(),
                tbl.val_width(),
                j,
            ),
{
    let k = tbl.key_width();
    let r = tbl.val_width();
    let df = tbl.heap();
    assert forall|j: int|
        0 <= j < num_recs(df, k, r) && rec_key_at(df, k, r, j) == key implies tbl@.contains_key(
        key,
    ) && tbl@[key] == rec_val_at(df, k, r, j) by {
        lemma_slot_unique(df, k, r, j);
    }
}

/// Two tables over the same heap image and widths hold the same map.
pub proof fn lemma_view_from_heap(t1: &Table, t2: &Table)
    requires
        t1.heap() == t2.heap(),
        t1.key_width() == t2.key_width(),
        t1.val_width() == t2.val_width(),
    ensures
        t1@ == t2@,
{
    assert(t1@ =~= t2@);
}

/// An entry of a well-formed table's index names a whole record that carries
/// the entry's key; its value slot is that record's byte offset.
pub proof fn lemma_entry_record(tbl: &Table, e: (Seq<u8>, u64))
    requires
        tbl.wf(),
        tbl.index_entries().contains(e),
    ensures
        ({
            let k = tbl.key_width();
            let r = tbl.val_width();
            let df = tbl.heap();
            let j = e.1 as int / rec_w(k, r);
            &&& 0 <= j < num_recs(df, k, r)
            &&& e.1 == j * rec_w(k, r)
            &&& rec_key_at(df, k, r, j) == e.0
            &&& e.1 + rec_w(k, r) <= df.len()
            &&& tbl@.contains_key(e.0)
            &&& tbl@[e.0] == rec_val_at(df, k, r, j)
        }),
{
    broadcast use vstd::seq_lib::group_to_multiset_ensures;

    let k = tbl.keysize as nat;
    let r = tbl.recordsize as nat;
    let w = rec_w(k, r);
    let df = tbl.datafile@;
    let es = tbl.index.entry_list();
    vstd::std_specs::vec::axiom_spec_len(&tbl.datafile);
    assert(df.len() <= usize::MAX);
    assert(es.to_multiset().count(e) > 0);
    assert(heap_entries(df, k, r).to_multiset().count(e) > 0);
    assert(heap_entries(df, k, r).contains(e));
    let j0 = choose|j: int|
        0 <= j < heap_entries(df, k, r).len() && heap_entries(df, k, r)[j] == e;
    assert(e.1 == (j0 * w) as u64 && rec_key_at(df, k, r, j0) == e.0);
    assert(0 <= j0 * w <= df.len()) by {
        vstd::arithmetic::div_mod::lemma_fundamental_div_mod(df.len() as int, w);
        assert((j0 + 1) * w <= num_recs(df, k, r) * w) by (nonlinear_arith)
            requires
                j0 + 1 <= num_recs(df, k, r),
                w >= 1,
        ;
        assert(j0 * w >= 0) by (nonlinear_arith)
            requires
                j0 >= 0,
                w >= 1,
        ;
        assert(j0 * w <= (j0 + 1) * w) by (nonlinear_arith)
            requires
                w >= 1,
        ;
    }
    assert(e.1 as int == j0 * w);
    assert(e.1 as int / w == j0) by {
        vstd::arithmetic::div_mod::lemma_div_multiples_vanish(j0, w);
    }
    assert((j0 + 1) * w <= df.len()) by {
        vstd::arithmetic::div_mod::lemma_fundamental_div_mod(df.len() as int, w);
        assert((j0 + 1) * w <= num_recs(df, k, r) * w) by (nonlinear_arith)
            requires
                j0 + 1 <= num_recs(df, k, r),
                w >= 1,
        ;
    }
    assert(e.1 + w <= df.len()) by {
        assert((j0 + 1) * w == j0 * w + w) by (nonlinear_arith);
    }
    assert(tbl@.contains_key(e.0));
    let jc = choose|j: int| 0 <= j < num_recs(df, k, r) && rec_key_at(df, k, r, j) == e.0;
    assert(jc == j0) by {
        if jc != j0 {
            assert(rec_key_at(df, k, r, jc) != rec_key_at(df, k, r, j0));
        }
    }
}

/// A key present among the heap records is present among the index entries,
/// and vice versa.
pub proof fn lemma_key_coverage(tbl: &Table, key: Seq<u8>)
    requires
        tbl.wf(),
    ensures
        has_key(tbl.index_entries(), key) <==> tbl@.contains_key(key),
{
    broadcast use vstd::seq_lib::group_to_multiset_ensures;

    let k = tbl.keysize as nat;
    let r = tbl.recordsize as nat;
    let df = tbl.datafile@;
    let es = tbl.index.entry_list();
    if has_key(es, key) {
        let e = choose|i: int| 0 <= i < es.len() && (#[trigger] es[i]).0 == key;
        assert(es.contains(es[e]));
        lemma_entry_record(tbl, es[e]);
    }
    if tbl@.contains_key(key) {
        let j = choose|j: int| 0 <= j < num_recs(df, k, r) && rec_key_at(df, k, r, j) == key;
        let e = heap_entries(df, k, r)[j];
        assert(heap_entries(df, k, r).contains(e));
        assert(heap_entries(df, k, r).to_multiset().count(e) > 0);
        assert(es.to_multiset().count(e) > 0);
        assert(es.contains(e));
        let i = choose|i: int| 0 <= i < es.len() && es[i] == e;
        assert((es[i]).0 == key);
        assert(has_key(es, key));
    }
}

/// Round trip of add and search: storing a fresh `(key, value)` binds the
/// padded key to the padded value, whose leading bytes are `value` itself.
/// With `add_record`'s and `search_record`'s contracts this says a added
/// record is read back intact.
pub proof fn lemma_add_round_trip(
    m: Map<Seq<u8>, Seq<u8>>,
    key: Seq<u8>,
    value: Seq<u8>,
    k: nat,
    r: nat,
)
    requires
        key.len() <= k,
        value.len() <= r,
    ensures
        m.insert(pad_spec(key, k), pad_spec(value, r)).contains_key(pad_spec(key, k)),
        m.insert(pad_spec(key, k), pad_spec(value, r))[pad_spec(key, k)] == pad_spec(value, r),
        pad_spec(value, r).subrange(0, value.len() as int) == value,
        forall|i: int| value.len() <= i < r ==> pad_spec(value, r)[i] == 0u8,
{
    assert(pad_spec(value, r).subrange(0, value.len() as int) =~= value);
}

/// Update idempotence: rebinding a key to the same padded value a second
/// time changes nothing, and a search after either update reads that value.
pub proof fn lemma_update_idempotent(
    m: Map<Seq<u8>, Seq<u8>>,
    key: Seq<u8>,
    value: Seq<u8>,
    k: nat,
    r: nat,
)
    ensures
        m.insert(pad_spec(key, k), pad_spec(value, r)).insert(
            pad_spec(key, k),
            pad_spec(value, r),
        ) == m.insert(pad_spec(key, k), pad_spec(value, r)),
        m.insert(pad_spec(key, k), pad_spec(value, r))[pad_spec(key, k)] == pad_spec(value, r),
{
    assert(m.insert(pad_spec(key, k), pad_spec(value, r)).insert(
        pad_spec(key, k),
        pad_spec(value, r),
    ) =~= m.insert(pad_spec(key, k), pad_spec(value, r)));
}

/// No duplicate insertion: once a key is bound, it is bound to the first
/// value; `add_record`'s contract then leaves a second add without effect.
pub proof fn lemma_duplicate_add(
    m: Map<Seq<u8>, Seq<u8>>,
    key: Seq<u8>,
    v1: Seq<u8>,
    k: nat,
    r: nat,
)
    ensures
        m.insert(pad_spec(key, k), pad_spec(v1, r)).contains_key(pad_spec(key, k)),
        m.insert(pad_spec(key, k), pad_spec(v1, r))[pad_spec(key, k)] == pad_spec(v1, r),
{
}

/// Root path: an entry placed in the index is found again by search, since
/// a key counted in the entry multiset is a key of the entry list and
/// `Index::search` answers `Some` for exactly the listed keys.
pub proof fn lemma_inserted_key_found(es: Seq<(Seq<u8>, u64)>, pk: Seq<u8>, v: u64)
    requires
        es.to_multiset().count((pk, v)) > 0,
    ensures
        has_key(es, pk),
{
    broadcast use vstd::seq_lib::group_to_multiset_ensures;

    assert(es.contains((pk, v)));
    let i = choose|i: int| 0 <= i < es.len() && es[i] == (pk, v);
    assert(es[i].0 == pk);
}

/// Degree variation: two sorted entry lists with no repeated keys and the
/// same entries are the same list.  Tables filled with the same records
/// therefore list them identically whatever minimum degree their indexes
/// were built with.
pub proof fn lemma_sorted_entries_unique(es1: Seq<(Seq<u8>, u64)>, es2: Seq<(Seq<u8>, u64)>)
    requires
        sorted_entries(es1),
        sorted_entries(es2),
        es1.to_multiset() == es2.to_multiset(),
        forall|i: int, j: int| 0 <= i < j < es1.len() ==> es1[i].0 != es1[j].0,
    ensures
        es1 == es2,
    decreases es1.len(),
{
    broadcast use vstd::seq_lib::group_to_multiset_ensures;

    assert(es1.len() == es2.len()) by {
        assert(es1.to_multiset().len() == es1.len());
        assert(es2.to_multiset().len() == es2.len());
    }
    if es1.len() > 0 {
        let a = es1[0];
        let b = es2[0];
        assert(es2.contains(a)) by {
            assert(es1.contains(a));
            assert(es1.to_multiset().count(a) > 0);
        }
        assert(es1.contains(b)) by {
            assert(es2.contains(b));
            assert(es2.to_multiset().count(b) > 0);
        }
        let ia = choose|i: int| 0 <= i < es2.len() && es2[i] == a;
        let ib = choose|i: int| 0 <= i < es1.len() && es1[i] == b;
        assert(lex_le(b.0, a.0)) by {
            assert(lex_le(es2[0].0, es2[ia].0));
        }
        assert(lex_le(a.0, b.0)) by {
            assert(lex_le(es1[0].0, es1[ib].0));
        }
        crate::bytes::lemma_lex_le_antisym(a.0, b.0);
        assert(a.0 == b.0);
        assert(ib == 0) by {
            if ib != 0 {
                assert(es1[0].0 != es1[ib].0);
            }
        }
        assert(a == b);
        let t1 = es1.remove(0);
        let t2 = es2.remove(0);
        assert(t1.to_multiset() == t2.to_multiset()) by {
            assert(es1.remove(0).to_multiset() =~= es1.to_multiset().remove(es1[0]));
            assert(es2.remove(0).to_multiset() =~= es2.to_multiset().remove(es2[0]));
        }
        assert(sorted_entries(t1)) by {
            assert(forall|i: int, j: int|
                0 <= i <= j < t1.len() ==> lex_le(#[trigger] t1[i].0, #[trigger] t1[j].0));
        }
        assert(sorted_entries(t2)) by {
            assert(forall|i: int, j: int|
                0 <= i <= j < t2.len() ==> lex_le(#[trigger] t2[i].0, #[trigger] t2[j].0));
        }
        assert(forall|i: int, j: int| 0 <= i < j < t1.len() ==> t1[i].0 != t1[j].0) by {
            assert(forall|i: int, j: int|
                0 <= i < j < t1.len() ==> #[trigger] t1[i].0 == es1[i + 1].0 && #[trigger] t1[j].0
                    == es1[j + 1].0);
        }
        lemma_sorted_entries_unique(t1, t2);
        assert(es1 =~= es2) by {
            assert(forall|i: int| 1 <= i < es1.len() ==> es1[i] == t1[i - 1] && es2[i] == t2[i - 1]);
        }
    } else {
        assert(es1 =~= es2);
    }
}

} // verus!
