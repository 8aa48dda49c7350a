use vstd::prelude::*;
use vstd::utf8::encode_utf8;
use vstd::multiset::Multiset;
use std::cmp::Ordering;
use crate::range::{Range, RangeV, range_wf, range_len, range_meet, ranges_intersect, ranges_touch};
use crate::index::{RangeIndex, index_wf, insert_point, hits};
use crate::content::{Object, Bitmap, BitmapV, BitmapSlice, bitmap_fits, window, cover, pairs_view};
use crate::codec::{law_round_trip, enc_db, wire_sized, db_shaped, parse_db, objects_of, bitmaps_of, object_tables, bitmap_tables, names_sorted, same_names, zip_tables, objects_sized, bitmaps_sized, object_enc, bitmap_enc, enc_all, enc_named, lemma_enc_all_push, write_bytes, write_object_index, write_bitmap_index, read_object_collection, read_bitmap_collection, skip};
use crate::error::DBError;
use crate::wire::{put_array_len, put_map_len, take_array_len};
use crate::names::{bytes_lt, compare_bytes, lemma_bytes_lt_irreflexive, lemma_bytes_lt_transitive};
use crate::bitmap_laws::{separated, is_victim, victims, survivors, residuals, lower_piece, upper_piece, is_partner, partners, non_partners, merged_entry, lemma_separated_filter, lemma_separated_elements};

verus! {

/// What a table holds: its objects and its bitmaps, each in index order.
pub struct TableModel {
    pub objects: Seq<(RangeV, Seq<u8>)>,
    pub bitmaps: Seq<(RangeV, BitmapV)>,
}

pub open spec fn empty_table() -> TableModel {
    TableModel { objects: Seq::empty(), bitmaps: Seq::empty() }
}

/// The table named `t`, or an empty one where there is none yet.
pub open spec fn table_or_empty(m: Map<Seq<char>, TableModel>, t: Seq<char>) -> TableModel {
    if m.contains_key(t) {
        m[t]
    } else {
        empty_table()
    }
}

/// Every stored bitmap holds one entry per key of its range.
pub open spec fn bitmaps_fit(m: Map<Seq<char>, TableModel>) -> bool {
    forall|t: Seq<char>, k: int|
        #![trigger m[t].bitmaps[k]]
        m.contains_key(t) && 0 <= k < m[t].bitmaps.len() ==> bitmap_fits(
            m[t].bitmaps[k].0,
            m[t].bitmaps[k].1,
        )
}

/// A stored bitmap as a query through `q` hands it out: its range cut down to `q`, with
/// the entries for the keys left.
pub open spec fn clip(e: (RangeV, BitmapV), q: RangeV) -> (RangeV, BitmapV) {
    (range_meet(e.0, q), (e.1.0, window(e.0, e.1, range_meet(e.0, q))))
}

/// What a bitmap query through `q` hands out for the bitmaps `bm`.
pub open spec fn clipped_hits(bm: Seq<(RangeV, BitmapV)>, q: RangeV) -> Seq<(RangeV, BitmapV)> {
    hits(bm, q).map_values(|e: (RangeV, BitmapV)| clip(e, q))
}

/// The map from names to tables of a list of named tables.
pub open spec fn tables_map(ts: Seq<(Seq<char>, TableModel)>) -> Map<Seq<char>, TableModel>
    decreases ts.len(),
{
    if ts.len() == 0 {
        Map::empty()
    } else {
        tables_map(ts.drop_last()).insert(ts.last().0, ts.last().1)
    }
}

/// With distinct names, the map holds exactly the listed tables.
pub proof fn lemma_tables_map(ts: Seq<(Seq<char>, TableModel)>)
    requires
        forall|i: int, j: int| 0 <= i < j < ts.len() ==> (#[trigger] ts[i]).0 != (#[trigger] ts[j]).0,
    ensures
        forall|n: Seq<char>| #[trigger] tables_map(ts).contains_key(n) <==> exists|i: int| 0 <= i < ts.len() && ts[i].0 == n,
        forall|i: int| 0 <= i < ts.len() ==> tables_map(ts)[(#[trigger] ts[i]).0] == ts[i].1,
    decreases ts.len(),
{
    if ts.len() > 0 {
        let d = ts.drop_last();
        assert forall|i: int, j: int| 0 <= i < j < d.len() implies (#[trigger] d[i]).0 != (#[trigger] d[j]).0 by {
            assert(d[i] == ts[i] && d[j] == ts[j]);
        }
        lemma_tables_map(d);
        assert forall|n: Seq<char>| #[trigger] tables_map(ts).contains_key(n) <==> exists|i: int|
            0 <= i < ts.len() && ts[i].0 == n by {
            if tables_map(d).contains_key(n) {
                let i = choose|i: int| 0 <= i < d.len() && d[i].0 == n;
                assert(ts[i].0 == n);
            }
            if n == ts.last().0 {
                assert(ts[ts.len() - 1].0 == n);
            }
            if exists|i: int| 0 <= i < ts.len() && ts[i].0 == n {
                let i = choose|i: int| 0 <= i < ts.len() && ts[i].0 == n;
                if i < ts.len() - 1 {
                    assert(d[i].0 == n);
                }
            }
        }
        assert forall|i: int| 0 <= i < ts.len() implies tables_map(ts)[(#[trigger] ts[i]).0] == ts[i].1 by {
            if i < ts.len() - 1 {
                assert(d[i] == ts[i]);
                assert(ts[i].0 != ts[ts.len() - 1].0);
            }
        }
    }
}

/// Names in byte order next to each other are in byte order pairwise.
proof fn lemma_chain_sorted<T>(ts: Seq<(Seq<char>, T)>, a: int, b: int)
    requires
        0 <= a < b < ts.len(),
        forall|j: int| 0 < j < ts.len() ==> bytes_lt(encode_utf8(#[trigger] ts[j - 1].0), encode_utf8(ts[j].0)),
    ensures
        bytes_lt(encode_utf8(ts[a].0), encode_utf8(ts[b].0)),
    decreases b - a,
{
    assert(bytes_lt(encode_utf8(ts[b - 1].0), encode_utf8(ts[b].0)));
    if b > a + 1 {
        lemma_chain_sorted(ts, a, b - 1);
        lemma_bytes_lt_transitive(encode_utf8(ts[a].0), encode_utf8(ts[b - 1].0), encode_utf8(ts[b].0));
    }
}

/// An in-memory database of named tables.
pub struct DB {
    obj_map: Vec<(String, RangeIndex<Object>)>,
    bit_map: Vec<(String, RangeIndex<Bitmap>)>,
    model: Ghost<Map<Seq<char>, TableModel>>,
}

impl View for DB {
    type V = Map<Seq<char>, TableModel>;

    closed spec fn view(&self) -> Map<Seq<char>, TableModel> {
        self.model@
    }
}

impl DB {
    pub closed spec fn name(&self, i: int) -> Seq<char> {
        self.obj_map@[i].0@
    }

    pub closed spec fn wf(&self) -> bool {
        &&& self.obj_map@.len() == self.bit_map@.len()
        &&& forall|i: int|
            0 <= i < self.obj_map@.len() ==> #[trigger] self.obj_map@[i].0@ == self.bit_map@[i].0@
        &&& forall|i: int|
            0 <= i < self.obj_map@.len() ==> (#[trigger] self.obj_map@[i]).1.wf()
                && self.bit_map@[i].1.wf()
        &&& forall|i: int, j: int|
            0 <= i < j < self.obj_map@.len() ==> bytes_lt(
                encode_utf8(#[trigger] self.obj_map@[i].0@),
                encode_utf8(#[trigger] self.obj_map@[j].0@),
            )
        &&& forall|n: Seq<char>|
            #[trigger] self.model@.contains_key(n) <==> exists|i: int|
                0 <= i < self.obj_map@.len() && self.obj_map@[i].0@ == n
        &&& forall|i: int|
            0 <= i < self.obj_map@.len() ==> self.model@[#[trigger] self.obj_map@[i].0@] == (
            TableModel { objects: self.obj_map@[i].1@, bitmaps: self.bit_map@[i].1@ })
        &&& bitmaps_fit(self.model@)
    }

    proof fn lemma_names_distinct(&self)
        requires
            self.wf(),
        ensures
            forall|i: int, j: int|
                0 <= i < self.obj_map@.len() && 0 <= j < self.obj_map@.len() && i != j
                    ==> #[trigger] self.obj_map@[i].0@ != #[trigger] self.obj_map@[j].0@,
    {
        assert forall|i: int, j: int|
            0 <= i < self.obj_map@.len() && 0 <= j < self.obj_map@.len() && i != j implies
            #[trigger] self.obj_map@[i].0@ != #[trigger] self.obj_map@[j].0@ by {
            lemma_bytes_lt_irreflexive(encode_utf8(self.obj_map@[i].0@));
        }
    }

    /// Every bitmap that a well-formed database stores holds one entry of its entry size
    /// per key of its range.
    pub proof fn lemma_bitmaps_fit(&self)
        requires
            self.wf(),
        ensures
            bitmaps_fit(self@),
    {
    }

    /// An empty database.
    pub fn new() -> (db: DB)
        ensures
            db.wf(),
            db@ == Map::<Seq<char>, TableModel>::empty(),
    {
        let db = DB { obj_map: Vec::new(), bit_map: Vec::new(), model: Ghost(Map::empty()) };
        db
    }

    /// Where the table named `table` stands, or where it would go.
    fn find_table(&self, table: &String) -> (r: Result<usize, usize>)
        requires
            self.wf(),
        ensures
            r matches Ok(i) ==> i < self.obj_map@.len() && self.obj_map@[i as int].0@ == table@,
            r matches Err(p) ==> p <= self.obj_map@.len() && !self@.contains_key(table@) && (forall|j: int|
                0 <= j < p ==> bytes_lt(encode_utf8(#[trigger] self.obj_map@[j].0@), encode_utf8(table@)))
                && (forall|j: int|
                p <= j < self.obj_map@.len() ==> bytes_lt(
                    encode_utf8(table@),
                    encode_utf8(#[trigger] self.obj_map@[j].0@),
                )),
    {
        let key = table.as_str().as_bytes();
        let n = self.obj_map.len();
        let mut i: usize = 0;
        while i < n
            invariant
                self.wf(),
                n == self.obj_map@.len(),
                key@ == encode_utf8(table@),
                i <= n,
                forall|j: int|
                    0 <= j < i ==> bytes_lt(encode_utf8(#[trigger] self.obj_map@[j].0@), key@),
            decreases n - i,
        {
            let c = compare_bytes(self.obj_map[i].0.as_str().as_bytes(), key);
            match c {
                Ordering::Less => {
                    i = i + 1;
                },
                Ordering::Equal => {
                    proof {
                        vstd::utf8::encode_utf8_decode_utf8(self.obj_map@[i as int].0@);
                        vstd::utf8::encode_utf8_decode_utf8(table@);
                    }
                    return Ok(i);
                },
                Ordering::Greater => {
                    proof {
                        self.lemma_not_found(table@, i as int);
                    }
                    return Err(i);
                },
            }
        }
        proof {
            self.lemma_not_found(table@, i as int);
        }
        Err(i)
    }

    proof fn lemma_not_found(&self, t: Seq<char>, p: int)
        requires
            self.wf(),
            0 <= p <= self.obj_map@.len(),
            forall|j: int|
                0 <= j < p ==> bytes_lt(encode_utf8(#[trigger] self.obj_map@[j].0@), encode_utf8(t)),
            p < self.obj_map@.len() ==> bytes_lt(encode_utf8(t), encode_utf8(self.obj_map@[p].0@)),
        ensures
            !self@.contains_key(t),
            forall|j: int|
                p <= j < self.obj_map@.len() ==> bytes_lt(
                    encode_utf8(t),
                    encode_utf8(#[trigger] self.obj_map@[j].0@),
                ),
    {
        assert forall|j: int| p <= j < self.obj_map@.len() implies bytes_lt(
            encode_utf8(t),
            encode_utf8(#[trigger] self.obj_map@[j].0@),
        ) by {
            if j > p {
                lemma_bytes_lt_transitive(
                    encode_utf8(t),
                    encode_utf8(self.obj_map@[p].0@),
                    encode_utf8(self.obj_map@[j].0@),
                );
            }
        }
        if self@.contains_key(t) {
            let j = choose|j: int| 0 <= j < self.obj_map@.len() && self.obj_map@[j].0@ == t;
            lemma_bytes_lt_irreflexive(encode_utf8(t));
            if j < p {
                assert(bytes_lt(encode_utf8(self.obj_map@[j].0@), encode_utf8(t)));
            } else {
                assert(bytes_lt(encode_utf8(t), encode_utf8(self.obj_map@[j].0@)));
            }
        }
    }

    /// Whether the database has a table named `table`.
    fn has_table(&self, table: &String) -> (b: bool)
        requires
            self.wf(),
        ensures
            b == self@.contains_key(table@),
    {
        match self.find_table(table) {
            Ok(i) => {
                assert(self@.contains_key(self.obj_map@[i as int].0@));
                true
            },
            Err(_) => false,
        }
    }

    /// Makes sure a table named `table` exists, creating an empty one if needed, and
    /// returns where it stands.
    #[verifier::rlimit(50)]
    fn add_table(&mut self, table: &String) -> (i: usize)
        requires
            old(self).wf(),
        ensures
            final(self).wf(),
            final(self)@ == old(self)@.insert(table@, table_or_empty(old(self)@, table@)),
            i < final(self).obj_map@.len(),
            final(self).obj_map@[i as int].0@ == table@,
    {
        match self.find_table(table) {
            Ok(i) => {
                proof {
                    assert(self@.contains_key(table@));
                    assert(self@.insert(table@, self@[table@]) =~= self@);
                }
                i
            },
            Err(p) => {
                let ghost old_db = *self;
                self.obj_map.insert(p, (table.clone(), RangeIndex::new()));
                self.bit_map.insert(p, (table.clone(), RangeIndex::new()));
                self.model = Ghost(self.model@.insert(table@, empty_table()));
                proof {
                    old_db.lemma_names_distinct();
                    let n = self.obj_map@.len();
                    assert forall|k: int| 0 <= k < n implies #[trigger] self.obj_map@[k].0@
                        == self.bit_map@[k].0@ && (self.obj_map@[k]).1.wf() && self.bit_map@[k].1.wf()
                        && self.model@[self.obj_map@[k].0@] == (TableModel {
                        objects: self.obj_map@[k].1@,
                        bitmaps: self.bit_map@[k].1@,
                    }) by {
                        if k < p {
                            assert(self.obj_map@[k] == old_db.obj_map@[k]);
                            assert(self.bit_map@[k] == old_db.bit_map@[k]);
                        } else if k > p {
                            assert(self.obj_map@[k] == old_db.obj_map@[k - 1]);
                            assert(self.bit_map@[k] == old_db.bit_map@[k - 1]);
                        } else {
                            assert(self.obj_map@[k].1@ =~= Seq::<(RangeV, Seq<u8>)>::empty());
                            assert(self.bit_map@[k].1@ =~= Seq::<(RangeV, BitmapV)>::empty());
                        }
                    }
                    assert forall|i: int, j: int| 0 <= i < j < n implies bytes_lt(
                        encode_utf8(#[trigger] self.obj_map@[i].0@),
                        encode_utf8(#[trigger] self.obj_map@[j].0@),
                    ) by {
                        if j < p {
                            assert(self.obj_map@[i] == old_db.obj_map@[i]);
                            assert(self.obj_map@[j] == old_db.obj_map@[j]);
                        } else if j == p {
                            assert(self.obj_map@[i] == old_db.obj_map@[i]);
                        } else if i < p {
                            assert(self.obj_map@[i] == old_db.obj_map@[i]);
                            assert(self.obj_map@[j] == old_db.obj_map@[j - 1]);
                        } else if i == p {
                            assert(self.obj_map@[j] == old_db.obj_map@[j - 1]);
                        } else {
                            assert(self.obj_map@[i] == old_db.obj_map@[i - 1]);
                            assert(self.obj_map@[j] == old_db.obj_map@[j - 1]);
                        }
                    }
                    assert forall|t: Seq<char>| #[trigger] self.model@.contains_key(t) <==> exists|i: int|
                        0 <= i < n && self.obj_map@[i].0@ == t by {
                        if self.model@.contains_key(t) && t != table@ {
                            let i = choose|i: int|
                                0 <= i < old_db.obj_map@.len() && old_db.obj_map@[i].0@ == t;
                            let k = if i < p { i } else { i + 1 };
                            assert(self.obj_map@[k].0@ == t);
                        }
                        if t == table@ {
                            assert(self.obj_map@[p as int].0@ == t);
                        }
                        if exists|i: int| 0 <= i < n && self.obj_map@[i].0@ == t {
                            let i = choose|i: int| 0 <= i < n && self.obj_map@[i].0@ == t;
                            if i < p {
                                assert(old_db.obj_map@[i].0@ == t);
                            } else if i > p {
                                assert(old_db.obj_map@[i - 1].0@ == t);
                            }
                        }
                    }
                    assert(bitmaps_fit(self.model@)) by {
                        assert forall|t: Seq<char>, k: int|
                            self.model@.contains_key(t) && 0 <= k < self.model@[t].bitmaps.len()
                            implies bitmap_fits(
                            #[trigger] self.model@[t].bitmaps[k].0,
                            self.model@[t].bitmaps[k].1,
                        ) by {
                            if t != table@ {
                                assert(old_db@.contains_key(t));
                                assert(old_db@[t].bitmaps[k] == self.model@[t].bitmaps[k]);
                            }
                        }
                    }
                    assert(table_or_empty(old_db@, table@) == empty_table());
                }
                p
            },
        }
    }
    /// Puts `idx` in place of the objects of table `ti` and hands back what stood there.
    fn replace_objects(&mut self, ti: usize, idx: RangeIndex<Object>) -> (prev: RangeIndex<Object>)
        requires
            old(self).wf(),
            idx.wf(),
            ti < old(self).obj_map@.len(),
        ensures
            final(self).wf(),
            prev.wf(),
            prev@ == old(self)@[old(self).name(ti as int)].objects,
            old(self)@.contains_key(old(self).name(ti as int)),
            final(self).name(ti as int) == old(self).name(ti as int),
            final(self).obj_map@.len() == old(self).obj_map@.len(),
            final(self)@ == old(self)@.insert(
                old(self).name(ti as int),
                TableModel { objects: idx@, bitmaps: old(self)@[old(self).name(ti as int)].bitmaps },
            ),
    {
        let ghost old_db = *self;
        let mut idx = idx;
        core::mem::swap(&mut self.obj_map[ti].1, &mut idx);
        let ghost name = old_db.obj_map@[ti as int].0@;
        self.model = Ghost(
            self.model@.insert(
                name,
                TableModel { objects: self.obj_map@[ti as int].1@, bitmaps: self.bit_map@[ti as int].1@ },
            ),
        );
        proof {
            old_db.lemma_names_distinct();
            assert(old_db@.contains_key(name));
            self.lemma_wf_after_table_write(old_db, ti as int);
        }
        idx
    }

    /// Puts `idx` in place of the bitmaps of table `ti` and hands back what stood there.
    fn replace_bitmaps(&mut self, ti: usize, idx: RangeIndex<Bitmap>) -> (prev: RangeIndex<Bitmap>)
        requires
            old(self).wf(),
            idx.wf(),
            forall|k: int| 0 <= k < idx@.len() ==> bitmap_fits(#[trigger] idx@[k].0, idx@[k].1),
            ti < old(self).obj_map@.len(),
        ensures
            final(self).wf(),
            prev.wf(),
            prev@ == old(self)@[old(self).name(ti as int)].bitmaps,
            forall|k: int| 0 <= k < prev@.len() ==> bitmap_fits(#[trigger] prev@[k].0, prev@[k].1),
            old(self)@.contains_key(old(self).name(ti as int)),
            final(self).name(ti as int) == old(self).name(ti as int),
            final(self).obj_map@.len() == old(self).obj_map@.len(),
            final(self)@ == old(self)@.insert(
                old(self).name(ti as int),
                TableModel { objects: old(self)@[old(self).name(ti as int)].objects, bitmaps: idx@ },
            ),
    {
        let ghost old_db = *self;
        let mut idx = idx;
        core::mem::swap(&mut self.bit_map[ti].1, &mut idx);
        let ghost name = old_db.obj_map@[ti as int].0@;
        self.model = Ghost(
            self.model@.insert(
                name,
                TableModel { objects: self.obj_map@[ti as int].1@, bitmaps: self.bit_map@[ti as int].1@ },
            ),
        );
        proof {
            old_db.lemma_names_distinct();
            assert(old_db@.contains_key(name));
            assert forall|k: int| 0 <= k < idx@.len() implies bitmap_fits(#[trigger] idx@[k].0, idx@[k].1) by {
                assert(old_db@[name].bitmaps[k] == idx@[k]);
            }
            self.lemma_wf_after_table_write(old_db, ti as int);
        }
        idx
    }

    #[verifier::rlimit(50)]
    proof fn lemma_wf_after_table_write(&self, old_db: DB, ti: int)
        requires
            old_db.wf(),
            0 <= ti < old_db.obj_map@.len(),
            self.obj_map@.len() == old_db.obj_map@.len(),
            self.bit_map@.len() == old_db.bit_map@.len(),
            forall|k: int|
                0 <= k < self.obj_map@.len() && k != ti ==> self.obj_map@[k] == old_db.obj_map@[k]
                    && self.bit_map@[k] == old_db.bit_map@[k],
            self.obj_map@[ti].0 == old_db.obj_map@[ti].0,
            self.bit_map@[ti].0 == old_db.bit_map@[ti].0,
            self.obj_map@[ti].1.wf(),
            self.bit_map@[ti].1.wf(),
            forall|k: int|
                0 <= k < self.bit_map@[ti].1@.len() ==> bitmap_fits(
                    #[trigger] self.bit_map@[ti].1@[k].0,
                    self.bit_map@[ti].1@[k].1,
                ),
            self.model@ == old_db.model@.insert(
                old_db.obj_map@[ti].0@,
                TableModel { objects: self.obj_map@[ti].1@, bitmaps: self.bit_map@[ti].1@ },
            ),
        ensures
            self.wf(),
    {
        old_db.lemma_names_distinct();
        let name = old_db.obj_map@[ti].0@;
        let n = self.obj_map@.len();
        assert forall|k: int| 0 <= k < n implies #[trigger] self.obj_map@[k].0@ == self.bit_map@[k].0@
            && (self.obj_map@[k]).1.wf() && self.bit_map@[k].1.wf() && self.model@[self.obj_map@[k].0@]
            == (TableModel { objects: self.obj_map@[k].1@, bitmaps: self.bit_map@[k].1@ }) by {
            if k != ti {
                assert(old_db.obj_map@[k].0@ != name);
            }
        }
        assert forall|i: int, j: int| 0 <= i < j < n implies bytes_lt(
            encode_utf8(#[trigger] self.obj_map@[i].0@),
            encode_utf8(#[trigger] self.obj_map@[j].0@),
        ) by {
            assert(self.obj_map@[i].0 == old_db.obj_map@[i].0);
            assert(self.obj_map@[j].0 == old_db.obj_map@[j].0);
        }
        assert forall|t: Seq<char>| #[trigger] self.model@.contains_key(t) <==> exists|i: int|
            0 <= i < n && self.obj_map@[i].0@ == t by {
            if old_db.model@.contains_key(t) {
                let i = choose|i: int| 0 <= i < n && old_db.obj_map@[i].0@ == t;
                assert(self.obj_map@[i].0 == old_db.obj_map@[i].0);
            }
            if t == name {
                assert(self.obj_map@[ti].0@ == t);
            }
            if exists|i: int| 0 <= i < n && self.obj_map@[i].0@ == t {
                let i = choose|i: int| 0 <= i < n && self.obj_map@[i].0@ == t;
                assert(self.obj_map@[i].0 == old_db.obj_map@[i].0);
            }
        }
        assert forall|t: Seq<char>, k: int|
            self.model@.contains_key(t) && 0 <= k < self.model@[t].bitmaps.len() implies bitmap_fits(
            #[trigger] self.model@[t].bitmaps[k].0,
            self.model@[t].bitmaps[k].1,
        ) by {
            if t != name {
                assert(old_db.model@[t].bitmaps[k] == self.model@[t].bitmaps[k]);
            }
        }
    }

    /// Files object `d` under `r` in table `table`, creating the table if needed.
    pub fn insert_object(&mut self, table: &String, r: Range, d: Object)
        requires
            old(self).wf(),
            r.wf(),
        ensures
            final(self).wf(),
            exists|p: int|
                insert_point(table_or_empty(old(self)@, table@).objects, p, r@) && final(self)@
                    == old(self)@.insert(
                    table@,
                    TableModel {
                        objects: table_or_empty(old(self)@, table@).objects.insert(p, (r@, d@)),
                        bitmaps: table_or_empty(old(self)@, table@).bitmaps,
                    },
                ),
    {
        let ghost m0 = self@;
        let ti = self.add_table(table);
        let mut idx = self.replace_objects(ti, RangeIndex::new());
        idx.insert(r, d);
        self.replace_objects(ti, idx);
        proof {
            assert(self@ =~= m0.insert(
                table@,
                TableModel { objects: idx@, bitmaps: table_or_empty(m0, table@).bitmaps },
            ));
        }
    }

    /// The objects of table `table` whose range shares a key with `r`, in index order, or
    /// `None` when there is no such table.
    pub fn query_object(&self, table: &String, r: Range) -> (res: Option<Vec<(Range, &Object)>>)
        requires
            self.wf(),
        ensures
            res is None <==> !self@.contains_key(table@),
            res matches Some(v) ==> v@.map_values(|e: (Range, &Object)| (e.0@, e.1@)) == hits(
                self@[table@].objects,
                r@,
            ),
    {
        match self.find_table(table) {
            Err(_) => None,
            Ok(ti) => {
                let idx = &self.obj_map[ti].1;
                let ghost s = idx@;
                assert(s == self@[table@].objects);
                let n = idx.len();
                let mut out: Vec<(Range, &Object)> = Vec::new();
                let mut i: usize = 0;
                while i < n
                    invariant
                        n == s.len(),
                        s == idx@,
                        i <= n,
                        out@.map_values(|e: (Range, &Object)| (e.0@, e.1@)) == s.subrange(
                            0,
                            i as int,
                        ).filter(|e: (RangeV, Seq<u8>)| ranges_intersect(e.0, r@)),
                    decreases n - i,
                {
                    proof {
                        crate::index::lemma_filter_step(
                            s,
                            i as int,
                            |e: (RangeV, Seq<u8>)| ranges_intersect(e.0, r@),
                        );
                    }
                    let ghost before = out@;
                    let e = idx.get(i);
                    if e.0.intersect(&r) {
                        out.push(e);
                        assert(out@.map_values(|e: (Range, &Object)| (e.0@, e.1@)) =~= before.map_values(
                            |e: (Range, &Object)| (e.0@, e.1@),
                        ).push(s[i as int]));
                    }
                    i = i + 1;
                }
                assert(s.subrange(0, n as int) =~= s);
                Some(out)
            },
        }
    }

    /// Removes one object of table `table` filed exactly under `r`: the first in index order.
    pub fn delete_object(&mut self, table: &String, r: Range)
        requires
            old(self).wf(),
        ensures
            final(self).wf(),
            !old(self)@.contains_key(table@) ==> final(self)@ == old(self)@,
            old(self)@.contains_key(table@) ==> {
                let objs = old(self)@[table@].objects;
                ||| (forall|j: int| 0 <= j < objs.len() ==> #[trigger] objs[j].0 != r@) && final(self)@ == old(self)@
                ||| exists|j: int|
                    0 <= j < objs.len() && objs[j].0 == r@ && (forall|l: int|
                        0 <= l < j ==> #[trigger] objs[l].0 != r@) && final(self)@ == old(self)@.insert(
                        table@,
                        TableModel { objects: objs.remove(j), bitmaps: old(self)@[table@].bitmaps },
                    )
            },
    {
        let ghost m0 = self@;
        match self.find_table(table) {
            Err(_) => {},
            Ok(ti) => {
                let mut idx = self.replace_objects(ti, RangeIndex::new());
                match idx.find(r) {
                    Some(j) => {
                        idx.remove(j);
                    },
                    None => {},
                }
                self.replace_objects(ti, idx);
                proof {
                    let objs = m0[table@].objects;
                    if idx@ == objs {
                        assert(self@ =~= m0);
                    } else {
                        assert(self@ =~= m0.insert(
                            table@,
                            TableModel { objects: idx@, bitmaps: m0[table@].bitmaps },
                        ));
                    }
                }
            },
        }
    }

    /// Removes every object of table `table` whose range shares a key with `r`.
    pub fn delete_all_objects(&mut self, table: &String, r: Range)
        requires
            old(self).wf(),
        ensures
            final(self).wf(),
            !old(self)@.contains_key(table@) ==> final(self)@ == old(self)@,
            old(self)@.contains_key(table@) ==> final(self)@ == old(self)@.insert(
                table@,
                TableModel {
                    objects: old(self)@[table@].objects.filter(
                        |e: (RangeV, Seq<u8>)| !ranges_intersect(e.0, r@),
                    ),
                    bitmaps: old(self)@[table@].bitmaps,
                },
            ),
    {
        match self.find_table(table) {
            Err(_) => {},
            Ok(ti) => {
                let mut idx = self.replace_objects(ti, RangeIndex::new());
                let ghost s = idx@;
                let ghost keep = |e: (RangeV, Seq<u8>)| !ranges_intersect(e.0, r@);
                let n = idx.len();
                assert(s.subrange(n as int, n as int).filter(keep) =~= Seq::<(RangeV, Seq<u8>)>::empty()) by {
                    reveal(Seq::filter);
                }
                assert(s.subrange(0, n as int) =~= s);
                let mut i: usize = n;
                while i > 0
                    invariant
                        n == s.len(),
                        i <= n,
                        idx.wf(),
                        idx@ == s.subrange(0, i as int) + s.subrange(i as int, n as int).filter(keep),
                        keep == (|e: (RangeV, Seq<u8>)| !ranges_intersect(e.0, r@)),
                    decreases i,
                {
                    proof {
                        crate::index::lemma_filter_back_step(s, i as int, keep);
                    }
                    let ghost before = idx@;
                    assert(before[i - 1] == s[i - 1]);
                    let e = idx.get(i - 1);
                    assert(e.0@ == s[i - 1].0);
                    assert(keep(s[i - 1]) == !ranges_intersect(s[i - 1].0, r@));
                    if e.0.intersect(&r) {
                        idx.remove(i - 1);
                        assert(idx@ =~= s.subrange(0, i - 1) + s.subrange(i - 1, n as int).filter(keep));
                    } else {
                        assert(idx@ =~= s.subrange(0, i - 1) + s.subrange(i - 1, n as int).filter(keep));
                    }
                    i = i - 1;
                }
                assert(idx@ =~= s.filter(keep));
                self.replace_objects(ti, idx);
            },
        }
    }
    /// Files bitmap `d` under `r` in table `table`, creating the table if needed. Every
    /// stored bitmap of the same entry size whose range shares or borders a key of `r` is
    /// taken out and merged with `d` into one bitmap over their cover, where the bytes of
    /// `d` win.
    #[verifier::rlimit(50)]
    pub fn insert_bitmap(&mut self, table: &String, r: Range, d: Bitmap)
        requires
            old(self).wf(),
            bitmap_fits(r@, d@),
            range_len(cover(r@, partners(table_or_empty(old(self)@, table@).bitmaps, r@, d.entry_size)))
                * d.entry_size <= usize::MAX,
        ensures
            final(self).wf(),
            bitmaps_fit(final(self)@),
            exists|p: int|
                #[trigger] insert_point(
                    non_partners(table_or_empty(old(self)@, table@).bitmaps, r@, d.entry_size),
                    p,
                    merged_entry(table_or_empty(old(self)@, table@).bitmaps, r@, d@).0,
                ) && final(self)@ == old(self)@.insert(
                    table@,
                    TableModel {
                        objects: table_or_empty(old(self)@, table@).objects,
                        bitmaps: non_partners(
                            table_or_empty(old(self)@, table@).bitmaps,
                            r@,
                            d.entry_size,
                        ).insert(p, merged_entry(table_or_empty(old(self)@, table@).bitmaps, r@, d@)),
                    },
                ),
            separated(table_or_empty(old(self)@, table@).bitmaps) ==> separated(
                final(self)@[table@].bitmaps,
            ),
    {
        let ghost m0 = self@;
        let es = d.entry_size;
        let ti = self.add_table(table);
        let mut idx = self.replace_bitmaps(ti, RangeIndex::new());
        let ghost s = idx@;
        let ghost bm = table_or_empty(m0, table@).bitmaps;
        assert(s == bm);
        let ghost part = |e: (RangeV, BitmapV)| is_partner(e, r@, es);
        let ghost keep = |e: (RangeV, BitmapV)| !is_partner(e, r@, es);
        let ext = r.extended();
        let n = idx.len();
        assert(s.subrange(n as int, n as int).filter(keep) =~= Seq::<(RangeV, BitmapV)>::empty()) by {
            reveal(Seq::filter);
        }
        assert(s.subrange(n as int, n as int).filter(part) =~= Seq::<(RangeV, BitmapV)>::empty()) by {
            reveal(Seq::filter);
        }
        assert(s.subrange(0, n as int) =~= s);
        let mut parts: Vec<(Range, Bitmap)> = Vec::new();
        let mut i: usize = n;
        while i > 0
            invariant
                n == s.len(),
                i <= n,
                idx.wf(),
                index_wf(s),
                forall|k: int| 0 <= k < s.len() ==> bitmap_fits(#[trigger] s[k].0, s[k].1),
                forall|k: int| 0 <= k < idx@.len() ==> bitmap_fits(#[trigger] idx@[k].0, idx@[k].1),
                idx@ == s.subrange(0, i as int) + s.subrange(i as int, n as int).filter(keep),
                pairs_view(parts@) == s.subrange(i as int, n as int).filter(part),
                keep == (|e: (RangeV, BitmapV)| !is_partner(e, r@, es)),
                part == (|e: (RangeV, BitmapV)| is_partner(e, r@, es)),
                ext@ == (if r.min > 0 { (r.min - 1) as u64 } else { 0 }, if r.max < u64::MAX { (r.max + 1) as u64 } else { u64::MAX }),
                r.wf(),
            decreases i,
        {
            proof {
                crate::index::lemma_filter_back_step(s, i as int, keep);
                crate::index::lemma_filter_back_step(s, i as int, part);
            }
            let ghost before = idx@;
            let ghost pv = pairs_view(parts@);
            assert(before[i - 1] == s[i - 1]);
            let e = idx.get(i - 1);
            assert(e.0@ == s[i - 1].0 && e.1@ == s[i - 1].1);
            assert(range_wf(e.0@));
            if e.1.entry_size == es && e.0.intersect(&ext) {
                assert(part(s[i - 1]));
                let x = idx.remove(i - 1);
                parts.insert(0, x);
                assert(idx@ =~= s.subrange(0, i - 1) + s.subrange(i - 1, n as int).filter(keep));
                assert(pairs_view(parts@) =~= seq![s[i - 1]] + pv);
            } else {
                assert(keep(s[i - 1]));
                assert(idx@ =~= s.subrange(0, i - 1) + s.subrange(i - 1, n as int).filter(keep));
            }
            i = i - 1;
        }
        assert(idx@ =~= s.filter(keep));
        assert(pairs_view(parts@) == partners(bm, r@, es));
        let ghost kept = idx@;
        assert(kept == non_partners(bm, r@, es));
        proof {
            assert forall|k: int| 0 <= k < parts@.len() implies bitmap_fits(
                (#[trigger] pairs_view(parts@)[k]).0,
                pairs_view(parts@)[k].1,
            ) && pairs_view(parts@)[k].1.0 == es by {
                let x = pairs_view(parts@)[k];
                s.lemma_filter_pred(part, k);
                assert(s.filter(part).contains(x));
                s.lemma_filter_contains_rev(part, x);
            }
        }
        let (nr, nb) = d.merge_bitmaps(r, parts);
        let ghost me = (nr@, nb@);
        assert(me == merged_entry(bm, r@, d@));
        proof {
            crate::content::lemma_cover_holds(r@, partners(bm, r@, es));
        }
        idx.insert(nr, nb);
        let ghost p = choose|p: int| insert_point(kept, p, me.0) && idx@ == kept.insert(p, me);
        proof {
            assert forall|k: int| 0 <= k < idx@.len() implies bitmap_fits(#[trigger] idx@[k].0, idx@[k].1) by {
                if k != p {
                    let k0 = if k < p { k } else { k - 1 };
                    assert(idx@[k] == kept[k0]);
                    assert(s.filter(keep).contains(kept[k0]));
                    s.lemma_filter_contains_rev(keep, kept[k0]);
                }
            }
        }
        self.replace_bitmaps(ti, idx);
        proof {
            assert(self@ =~= m0.insert(
                table@,
                TableModel { objects: table_or_empty(m0, table@).objects, bitmaps: idx@ },
            ));
            if separated(bm) {
                crate::laws::law_insert_keeps_apart(bm, r@, d@, p);
            }
        }
    }

    /// Cuts the keys of `range_to_remove` out of every bitmap of entry size `entry_size` in
    /// table `table`: each bitmap whose range shares a key with the hole is taken out, and
    /// what it holds below and above the hole is filed again under its own range.
    #[verifier::rlimit(50)]
    pub fn delete_bitmap(&mut self, table: &String, entry_size: u64, range_to_remove: Range)
        requires
            old(self).wf(),
            range_to_remove.wf(),
        ensures
            final(self).wf(),
            bitmaps_fit(final(self)@),
            !old(self)@.contains_key(table@) ==> final(self)@ == old(self)@,
            old(self)@.contains_key(table@) ==> {
                let bm = old(self)@[table@].bitmaps;
                let nbm = final(self)@[table@].bitmaps;
                &&& final(self)@ == old(self)@.insert(
                    table@,
                    TableModel { objects: old(self)@[table@].objects, bitmaps: nbm },
                )
                &&& index_wf(nbm)
                &&& nbm.to_multiset() == survivors(bm, range_to_remove@, entry_size).to_multiset().add(
                    residuals(victims(bm, range_to_remove@, entry_size), range_to_remove@).to_multiset(),
                )
                &&& separated(bm) ==> separated(nbm)
            },
    {
        let ghost m0 = self@;
        let es = entry_size;
        let hole = range_to_remove;
        match self.find_table(table) {
            Err(_) => {},
            Ok(ti) => {
                let mut idx = self.replace_bitmaps(ti, RangeIndex::new());
                let ghost s = idx@;
                let ghost bm = m0[table@].bitmaps;
                assert(s == bm);
                let ghost vic = |e: (RangeV, BitmapV)| is_victim(e, hole@, es);
                let ghost keep = |e: (RangeV, BitmapV)| !is_victim(e, hole@, es);
                let n = idx.len();
                assert(s.subrange(n as int, n as int).filter(keep) =~= Seq::<(RangeV, BitmapV)>::empty())
                    by {
                    reveal(Seq::filter);
                }
                assert(s.subrange(n as int, n as int).filter(vic) =~= Seq::<(RangeV, BitmapV)>::empty())
                    by {
                    reveal(Seq::filter);
                }
                assert(s.subrange(0, n as int) =~= s);
                let mut vs: Vec<(Range, Bitmap)> = Vec::new();
                let mut i: usize = n;
                while i > 0
                    invariant
                        n == s.len(),
                        i <= n,
                        idx.wf(),
                        index_wf(s),
                        forall|k: int| 0 <= k < s.len() ==> bitmap_fits(#[trigger] s[k].0, s[k].1),
                        forall|k: int|
                            0 <= k < idx@.len() ==> bitmap_fits(#[trigger] idx@[k].0, idx@[k].1),
                        idx@ == s.subrange(0, i as int) + s.subrange(i as int, n as int).filter(keep),
                        pairs_view(vs@) == s.subrange(i as int, n as int).filter(vic),
                        keep == (|e: (RangeV, BitmapV)| !is_victim(e, hole@, es)),
                        vic == (|e: (RangeV, BitmapV)| is_victim(e, hole@, es)),
                    decreases i,
                {
                    proof {
                        crate::index::lemma_filter_back_step(s, i as int, keep);
                        crate::index::lemma_filter_back_step(s, i as int, vic);
                    }
                    let ghost before = idx@;
                    let ghost pv = pairs_view(vs@);
                    assert(before[i - 1] == s[i - 1]);
                    let e = idx.get(i - 1);
                    assert(e.0@ == s[i - 1].0 && e.1@ == s[i - 1].1);
                    if e.1.entry_size == es && e.0.intersect(&hole) {
                        assert(vic(s[i - 1]));
                        let x = idx.remove(i - 1);
                        vs.insert(0, x);
                        assert(idx@ =~= s.subrange(0, i - 1) + s.subrange(i - 1, n as int).filter(keep));
                        assert(pairs_view(vs@) =~= seq![s[i - 1]] + pv);
                    } else {
                        assert(keep(s[i - 1]));
                        assert(idx@ =~= s.subrange(0, i - 1) + s.subrange(i - 1, n as int).filter(keep));
                    }
                    i = i - 1;
                }
                assert(idx@ =~= s.filter(keep));
                let ghost vv = pairs_view(vs@);
                assert(vv == victims(bm, hole@, es));
                assert(idx@ == survivors(bm, hole@, es));
                proof {
                    assert forall|k: int| 0 <= k < vv.len() implies bitmap_fits(
                        (#[trigger] vv[k]).0,
                        vv[k].1,
                    ) && vv[k].1.0 == es && ranges_intersect(vv[k].0, hole@) && s.contains(vv[k]) by {
                        s.lemma_filter_pred(vic, k);
                        assert(s.filter(vic).contains(vv[k]));
                        s.lemma_filter_contains_rev(vic, vv[k]);
                    }
                    if separated(bm) {
                        lemma_separated_filter(bm, keep);
                        lemma_separated_filter(bm, vic);
                        assert forall|j: int, m: int|
                            0 <= j < idx@.len() && 0 <= m < vv.len() && (#[trigger] idx@[j]).1.0 == es
                            implies !ranges_touch(idx@[j].0, (#[trigger] vv[m]).0) by {
                            assert(s.filter(keep).contains(idx@[j]));
                            s.lemma_filter_contains_rev(keep, idx@[j]);
                            lemma_separated_elements(bm, idx@[j], vv[m]);
                        }
                    }
                    assert(residuals(vv.subrange(0, 0), hole@) =~= Seq::<(RangeV, BitmapV)>::empty());
                    assert(idx@.to_multiset() =~= idx@.to_multiset().add(
                        Seq::<(RangeV, BitmapV)>::empty().to_multiset(),
                    )) by {
                        broadcast use vstd::seq_lib::group_to_multiset_ensures;
                    }
                }
                let ghost surv = idx@;
                let nv = vs.len();
                let mut k: usize = 0;
                while k < nv
                    invariant
                        nv == vv.len(),
                        vv == pairs_view(vs@),
                        k <= nv,
                        idx.wf(),
                        hole.wf(),
                        forall|j: int|
                            0 <= j < idx@.len() ==> bitmap_fits(#[trigger] idx@[j].0, idx@[j].1),
                        forall|j: int|
                            0 <= j < vv.len() ==> bitmap_fits((#[trigger] vv[j]).0, vv[j].1)
                                && vv[j].1.0 == es && ranges_intersect(vv[j].0, hole@),
                        idx@.to_multiset() == surv.to_multiset().add(
                            residuals(vv.subrange(0, k as int), hole@).to_multiset(),
                        ),
                        separated(bm) ==> separated(vv),
                        separated(bm) ==> separated(idx@),
                        separated(bm) ==> forall|j: int, m: int|
                            0 <= j < idx@.len() && k <= m < vv.len() && (#[trigger] idx@[j]).1.0 == es
                                ==> !ranges_touch(idx@[j].0, (#[trigger] vv[m]).0),
                        forall|m: int| 0 <= m < vv.len() ==> (#[trigger] vv[m]).1.0 == es,
                    decreases nv - k,
                {
                    let vr = vs[k].0;
                    let ghost v = vv[k as int];
                    assert(vr@ == v.0 && vs@[k as int].1@ == v.1);
                    let (lo, hi) = vr.difference(&hole);
                    let ghost ms0 = idx@.to_multiset();
                    let ghost r0 = residuals(vv.subrange(0, k as int), hole@);
                    proof {
                        assert(vv.subrange(0, k + 1).drop_last() =~= vv.subrange(0, k as int));
                        assert(residuals(vv.subrange(0, k + 1), hole@) == r0 + lower_piece(v, hole@)
                            + upper_piece(v, hole@));
                    }
                    let ghost lower = lower_piece(v, hole@);
                    if let Some(l) = lo {
                        let sub = vs[k].1.to_subbitmap(vr, l);
                        proof {
                            crate::content::lemma_window_len(v.0, v.1, l@);
                        }
                        let ghost before = idx@;
                        idx.insert(l, sub);
                        let ghost x = (l@, sub@);
                        assert(lower == seq![x]);
                        proof {
                            let p = choose|p: int| insert_point(before, p, l@) && idx@ == before.insert(p, x);
                            vstd::seq_lib::to_multiset_insert(before, p, x);
                            if separated(bm) {
                                assert forall|j: int| 0 <= j < before.len() && (#[trigger] before[j]).1.0 == x.1.0
                                    implies !ranges_touch(before[j].0, x.0) by {
                                    assert(!ranges_touch(before[j].0, vv[k as int].0));
                                }
                                Self::lemma_piece_inserted(before, p, x, vv, k as int);
                                assert forall|j: int| 0 <= j < idx@.len() && (#[trigger] idx@[j]).1.0 == es
                                    implies idx@[j] == x || !ranges_touch(idx@[j].0, vv[k as int].0) by {
                                    if j != p {
                                        let j0 = if j < p { j } else { j - 1 };
                                        assert(idx@[j] == before[j0]);
                                    }
                                }
                            }
                        }
                    }
                    let ghost mid = idx@;
                    assert(separated(bm) ==> forall|j: int| 0 <= j < mid.len() && (#[trigger] mid[j]).1.0 == es
                        ==> (lower.len() == 1 && mid[j] == lower[0]) || !ranges_touch(mid[j].0, vv[k as int].0));
                    assert(separated(bm) ==> forall|j: int, m: int|
                        0 <= j < mid.len() && k < m < vv.len() && (#[trigger] mid[j]).1.0 == es
                            ==> !ranges_touch(mid[j].0, (#[trigger] vv[m]).0));
                    if let Some(u) = hi {
                        let sub = vs[k].1.to_subbitmap(vr, u);
                        proof {
                            crate::content::lemma_window_len(v.0, v.1, u@);
                        }
                        let ghost before = idx@;
                        idx.insert(u, sub);
                        let ghost x = (u@, sub@);
                        assert(upper_piece(v, hole@) == seq![x]);
                        proof {
                            let p = choose|p: int| insert_point(before, p, u@) && idx@ == before.insert(p, x);
                            vstd::seq_lib::to_multiset_insert(before, p, x);
                            if separated(bm) {
                                assert forall|j: int| 0 <= j < before.len() && (#[trigger] before[j]).1.0 == x.1.0
                                    implies !ranges_touch(before[j].0, x.0) by {
                                    assert((lower.len() == 1 && mid[j] == lower[0]) || !ranges_touch(
                                        mid[j].0,
                                        vv[k as int].0,
                                    ));
                                }
                                Self::lemma_piece_inserted(before, p, x, vv, k as int);
                            }
                        }
                    }
                    proof {
                        let lp = lower_piece(v, hole@);
                        let up = upper_piece(v, hole@);
                        vstd::seq_lib::lemma_multiset_commutative(r0 + lp, up);
                        vstd::seq_lib::lemma_multiset_commutative(r0, lp);
                        broadcast use vstd::seq_lib::group_to_multiset_ensures;
                        assert(lp.to_multiset() =~= (if lo is Some { Multiset::empty().insert(lp[0]) } else { Multiset::empty() }));
                        assert(up.to_multiset() =~= (if hi is Some { Multiset::empty().insert(up[0]) } else { Multiset::empty() }));
                        assert(idx@.to_multiset() =~= surv.to_multiset().add(
                            residuals(vv.subrange(0, k + 1), hole@).to_multiset(),
                        ));
                    }
                    k = k + 1;
                }
                assert(vv.subrange(0, nv as int) =~= vv);
                self.replace_bitmaps(ti, idx);
                proof {
                    assert(self@ =~= m0.insert(
                        table@,
                        TableModel { objects: m0[table@].objects, bitmaps: idx@ },
                    ));
                }
            },
        }
    }

    proof fn lemma_piece_inserted(
        before: Seq<(RangeV, BitmapV)>,
        p: int,
        x: (RangeV, BitmapV),
        vv: Seq<(RangeV, BitmapV)>,
        k: int,
    )
        requires
            0 <= p <= before.len(),
            0 <= k < vv.len(),
            forall|m: int| 0 <= m < vv.len() ==> (#[trigger] vv[m]).1.0 == x.1.0,
            range_wf(x.0),
            vv[k].0.0 <= x.0.0,
            x.0.1 <= vv[k].0.1,
            separated(vv),
            separated(before),
            forall|j: int|
                0 <= j < before.len() && (#[trigger] before[j]).1.0 == x.1.0 ==> !ranges_touch(
                    before[j].0,
                    x.0,
                ),
            forall|j: int, m: int|
                0 <= j < before.len() && k < m < vv.len() && (#[trigger] before[j]).1.0 == x.1.0
                    ==> !ranges_touch(before[j].0, (#[trigger] vv[m]).0),
        ensures
            separated(before.insert(p, x)),
            forall|j: int, m: int|
                0 <= j < before.len() + 1 && k < m < vv.len() && (#[trigger] before.insert(p, x)[j]).1.0
                    == x.1.0 ==> !ranges_touch(before.insert(p, x)[j].0, (#[trigger] vv[m]).0),
    {
        let g = before.insert(p, x);
        assert forall|i: int, j: int|
            0 <= i < g.len() && 0 <= j < g.len() && i != j && (#[trigger] g[i]).1.0 == (
            #[trigger] g[j]).1.0 implies !ranges_touch(g[i].0, g[j].0) by {
            if i != p && j != p {
                let i0 = if i < p { i } else { i - 1 };
                let j0 = if j < p { j } else { j - 1 };
                assert(g[i] == before[i0] && g[j] == before[j0]);
            } else {
                let o = if i == p { j } else { i };
                let o0 = if o < p { o } else { o - 1 };
                assert(g[o] == before[o0]);
            }
        }
        assert forall|j: int, m: int|
            0 <= j < before.len() + 1 && k < m < vv.len() && (#[trigger] g[j]).1.0 == x.1.0 implies
            !ranges_touch(g[j].0, (#[trigger] vv[m]).0) by {
            if j != p {
                let j0 = if j < p { j } else { j - 1 };
                assert(g[j] == before[j0]);
            } else {
                assert(vv[m].1.0 == vv[k].1.0);
                assert(!ranges_touch(vv[k].0, vv[m].0));
            }
        }
    }
    /// The bitmaps of table `table` whose range shares a key with `r`, in index order, each
    /// cut down to the keys it shares with `r`; `None` when there is no such table.
    #[verifier::rlimit(50)]
    pub fn query_bitmap<'a>(&'a self, table: &String, r: Range) -> (res: Option<Vec<(Range, BitmapSlice<'a>)>>)
        requires
            self.wf(),
            r.wf(),
        ensures
            res is None <==> !self@.contains_key(table@),
            res matches Some(v) ==> v@.map_values(|e: (Range, BitmapSlice<'a>)| (e.0@, e.1@))
                == clipped_hits(self@[table@].bitmaps, r@),
    {
        match self.find_table(table) {
            Err(_) => None,
            Ok(ti) => {
                let idx = &self.bit_map[ti].1;
                let ghost s = idx@;
                assert(s == self@[table@].bitmaps);
                assert(self@.contains_key(table@));
                let n = idx.len();
                let mut out: Vec<(Range, BitmapSlice<'a>)> = Vec::new();
                let mut i: usize = 0;
                while i < n
                    invariant
                        n == s.len(),
                        s == idx@,
                        r.wf(),
                        i <= n,
                        forall|k: int| 0 <= k < s.len() ==> bitmap_fits(#[trigger] s[k].0, s[k].1),
                        out@.map_values(|e: (Range, BitmapSlice<'a>)| (e.0@, e.1@)) == s.subrange(
                            0,
                            i as int,
                        ).filter(|e: (RangeV, BitmapV)| ranges_intersect(e.0, r@)).map_values(
                            |e: (RangeV, BitmapV)| clip(e, r@),
                        ),
                    decreases n - i,
                {
                    proof {
                        crate::index::lemma_filter_step(
                            s,
                            i as int,
                            |e: (RangeV, BitmapV)| ranges_intersect(e.0, r@),
                        );
                    }
                    let ghost before = out@;
                    let e = idx.get(i);
                    if e.0.intersect(&r) {
                        let w = e.0.intersection(&r);
                        let sl = e.1.to_subslice(e.0, r);
                        out.push((w, sl));
                        assert(out@.map_values(|e: (Range, BitmapSlice<'a>)| (e.0@, e.1@)) =~= before.map_values(
                            |e: (Range, BitmapSlice<'a>)| (e.0@, e.1@),
                        ).push(clip(s[i as int], r@)));
                    }
                    assert(s.subrange(0, i + 1).filter(|e: (RangeV, BitmapV)| ranges_intersect(e.0, r@)).map_values(
                        |e: (RangeV, BitmapV)| clip(e, r@),
                    ) =~= if ranges_intersect(s[i as int].0, r@) {
                        s.subrange(0, i as int).filter(|e: (RangeV, BitmapV)| ranges_intersect(e.0, r@)).map_values(
                            |e: (RangeV, BitmapV)| clip(e, r@),
                        ).push(clip(s[i as int], r@))
                    } else {
                        s.subrange(0, i as int).filter(|e: (RangeV, BitmapV)| ranges_intersect(e.0, r@)).map_values(
                            |e: (RangeV, BitmapV)| clip(e, r@),
                        )
                    });
                    i = i + 1;
                }
                assert(s.subrange(0, n as int) =~= s);
                Some(out)
            },
        }
    }
    /// The tables in name order.
    pub closed spec fn tables(&self) -> Seq<(Seq<char>, TableModel)> {
        Seq::new(
            self.obj_map@.len(),
            |i: int| (self.obj_map@[i].0@, TableModel { objects: self.obj_map@[i].1@, bitmaps: self.bit_map@[i].1@ }),
        )
    }

    /// A well-formed database is its list of tables: names in byte order, every index in
    /// key order, every bitmap one entry per key.
    pub proof fn lemma_tables(&self)
        requires
            self.wf(),
        ensures
            db_shaped(self.tables()),
            self@ == tables_map(self.tables()),
    {
        let ts = self.tables();
        self.lemma_names_distinct();
        assert forall|i: int, j: int| 0 <= i < j < ts.len() implies (#[trigger] ts[i]).0 != (#[trigger] ts[j]).0 by {}
        lemma_tables_map(ts);
        assert forall|i: int, k: int|
            0 <= i < ts.len() && 0 <= k < ts[i].1.bitmaps.len() implies bitmap_fits(
            (#[trigger] ts[i].1.bitmaps[k]).0,
            ts[i].1.bitmaps[k].1,
        ) by {
            assert(self@.contains_key(self.obj_map@[i].0@));
            assert(self@[self.obj_map@[i].0@].bitmaps[k] == ts[i].1.bitmaps[k]);
        }
        assert forall|n: Seq<char>| #[trigger] self@.contains_key(n) == tables_map(ts).contains_key(n) by {
            if self@.contains_key(n) {
                let i = choose|i: int| 0 <= i < self.obj_map@.len() && self.obj_map@[i].0@ == n;
                assert(ts[i].0 == n);
            }
            if tables_map(ts).contains_key(n) {
                let i = choose|i: int| 0 <= i < ts.len() && ts[i].0 == n;
                assert(self.obj_map@[i].0@ == n);
            }
        }
        assert forall|n: Seq<char>| #[trigger] self@.contains_key(n) implies self@[n] == tables_map(ts)[n] by {
            let i = choose|i: int| 0 <= i < self.obj_map@.len() && self.obj_map@[i].0@ == n;
            assert(ts[i].0 == n);
        }
        assert(self@ =~= tables_map(ts));
    }

    /// Two well-formed databases with the same tables hold the same content.
    pub proof fn lemma_same_tables(&self, other: &DB)
        requires
            self.wf(),
            other.wf(),
            self.tables() == other.tables(),
        ensures
            self@ == other@,
    {
        self.lemma_tables();
        other.lemma_tables();
    }

    /// A database from a list of named object indexes and a list of named bitmap indexes,
    /// when both name the same tables, strictly in the byte order of their names.
    #[verifier::rlimit(50)]
    pub fn new_from_data(
        obj_map: Vec<(String, RangeIndex<Object>)>,
        bit_map: Vec<(String, RangeIndex<Bitmap>)>,
    ) -> (r: Option<DB>)
        requires
            forall|i: int| 0 <= i < obj_map@.len() ==> (#[trigger] obj_map@[i]).1.wf(),
            forall|i: int| 0 <= i < bit_map@.len() ==> (#[trigger] bit_map@[i]).1.wf(),
            forall|i: int, k: int|
                0 <= i < bit_map@.len() && 0 <= k < bit_map@[i].1@.len() ==> bitmap_fits(
                    (#[trigger] bit_map@[i].1@[k]).0,
                    bit_map@[i].1@[k].1,
                ),
        ensures
            r is Some <==> same_names(object_tables(obj_map@), bitmap_tables(bit_map@)) && names_sorted(
                object_tables(obj_map@),
            ),
            r matches Some(db) ==> db.wf() && db.tables() == zip_tables(
                object_tables(obj_map@),
                bitmap_tables(bit_map@),
            ),
    {
        let ghost ot = object_tables(obj_map@);
        let ghost bt = bitmap_tables(bit_map@);
        let n = obj_map.len();
        if n != bit_map.len() {
            return None;
        }
        let mut i: usize = 0;
        while i < n
            invariant
                n == obj_map@.len(),
                n == bit_map@.len(),
                ot == object_tables(obj_map@),
                bt == bitmap_tables(bit_map@),
                i <= n,
                forall|j: int| 0 <= j < i ==> (#[trigger] ot[j]).0 == bt[j].0,
                forall|j: int| 0 < j < i ==> bytes_lt(encode_utf8(#[trigger] ot[j - 1].0), encode_utf8(ot[j].0)),
            decreases n - i,
        {
            assert(ot[i as int].0 == obj_map@[i as int].0@ && bt[i as int].0 == bit_map@[i as int].0@);
            if !(obj_map[i].0 == bit_map[i].0) {
                return None;
            }
            if i > 0 {
                match compare_bytes(obj_map[i - 1].0.as_str().as_bytes(), obj_map[i].0.as_str().as_bytes()) {
                    Ordering::Less => {},
                    _ => {
                        proof {
                            assert(!bytes_lt(encode_utf8(ot[i - 1].0), encode_utf8(ot[i as int].0)));
                        }
                        return None;
                    },
                }
            }
            i = i + 1;
        }
        let ghost ts = zip_tables(ot, bt);
        proof {
            assert forall|a: int, b: int| 0 <= a < b < n implies bytes_lt(
                encode_utf8((#[trigger] ot[a]).0),
                encode_utf8((#[trigger] ot[b]).0),
            ) by {
                lemma_chain_sorted(ot, a, b);
            }
            assert forall|a: int, b: int| 0 <= a < b < ts.len() implies (#[trigger] ts[a]).0 != (#[trigger] ts[b]).0 by {
                lemma_bytes_lt_irreflexive(encode_utf8(ot[a].0));
            }
            lemma_tables_map(ts);
        }
        let db = DB { obj_map, bit_map, model: Ghost(tables_map(ts)) };
        proof {
            assert forall|j: int| 0 <= j < n implies (#[trigger] db.obj_map@[j]).0@ == ts[j].0 && db.bit_map@[j].0@ == ts[j].0
                && ts[j].1 == (TableModel { objects: db.obj_map@[j].1@, bitmaps: db.bit_map@[j].1@ }) by {
                assert(ot[j].0 == db.obj_map@[j].0@ && bt[j].0 == db.bit_map@[j].0@);
            }
            assert forall|j: int| 0 <= j < n implies (#[trigger] db.obj_map@[j]).1.wf() && db.bit_map@[j].1.wf() by {}
            assert forall|a: int, b: int| 0 <= a < b < n implies bytes_lt(
                encode_utf8(#[trigger] db.obj_map@[a].0@),
                encode_utf8(#[trigger] db.obj_map@[b].0@),
            ) by {
                assert(ot[a].0 == db.obj_map@[a].0@ && ot[b].0 == db.obj_map@[b].0@);
            }
            assert forall|t: Seq<char>| #[trigger] db.model@.contains_key(t) <==> exists|i: int|
                0 <= i < n && db.obj_map@[i].0@ == t by {
                if db.model@.contains_key(t) {
                    let i = choose|i: int| 0 <= i < ts.len() && ts[i].0 == t;
                    assert(db.obj_map@[i].0@ == t);
                }
                if exists|i: int| 0 <= i < n && db.obj_map@[i].0@ == t {
                    let i = choose|i: int| 0 <= i < n && db.obj_map@[i].0@ == t;
                    assert(ts[i].0 == t);
                }
            }
            assert forall|t: Seq<char>, k: int|
                db.model@.contains_key(t) && 0 <= k < db.model@[t].bitmaps.len() implies bitmap_fits(
                #[trigger] db.model@[t].bitmaps[k].0,
                db.model@[t].bitmaps[k].1,
            ) by {
                let i = choose|i: int| 0 <= i < ts.len() && ts[i].0 == t;
                assert(db.model@[t] == ts[i].1);
                assert(ts[i].1.bitmaps[k] == db.bit_map@[i].1@[k]);
            }
            assert(db.tables() =~= ts);
        }
        Some(db)
    }

    /// The database as bytes: an array of its object collection and its bitmap collection,
    /// each a map from table names, in name order, to indexes. Fails when a length does
    /// not fit its 32-bit header, or when the encoder fails.
    #[verifier::rlimit(50)]
    pub fn serialize(&self) -> (r: Result<Vec<u8>, DBError>)
        requires
            self.wf(),
        ensures
            r is Ok <==> wire_sized(self.tables()),
            r matches Ok(b) ==> b@ == enc_db(self.tables()),
    {
        let ghost ts = self.tables();
        let ghost os = objects_of(ts);
        let ghost bs = bitmaps_of(ts);
        let ghost fo = |c: (Seq<char>, Seq<(RangeV, Seq<u8>)>)| enc_named(c, object_enc());
        let ghost fb = |c: (Seq<char>, Seq<(RangeV, BitmapV)>)| enc_named(c, bitmap_enc());
        let mut buf: Vec<u8> = Vec::new();
        let n = self.obj_map.len();
        if n > u32::MAX as usize {
            return Err(DBError::FileFormat(String::from_str("too many tables")));
        }
        match put_array_len(&mut buf, 2) {
            Err(m) => { return Err(DBError::SendValue(m)); },
            Ok(()) => {},
        }
        match put_map_len(&mut buf, n as u32) {
            Err(m) => { return Err(DBError::SendValue(m)); },
            Ok(()) => {},
        }
        let ghost b1 = buf@;
        assert(enc_all(os.subrange(0, 0), fo) =~= Seq::<u8>::empty());
        assert(b1 =~= b1 + enc_all(os.subrange(0, 0), fo));
        let mut i: usize = 0;
        while i < n
            invariant
                self.wf(),
                n == self.obj_map@.len(),
                ts == self.tables(),
                os == objects_of(ts),
                fo == (|c: (Seq<char>, Seq<(RangeV, Seq<u8>)>)| enc_named(c, object_enc())),
                i <= n,
                buf@ == b1 + enc_all(os.subrange(0, i as int), fo),
                forall|j: int| 0 <= j < i ==> encode_utf8((#[trigger] ts[j]).0).len() <= u32::MAX && objects_sized(ts[j].1.objects),
            decreases n - i,
        {
            let ghost before = buf@;
            assert(ts[i as int].0 == self.obj_map@[i as int].0@ && ts[i as int].1.objects == self.obj_map@[i as int].1@);
            match write_bytes(&mut buf, self.obj_map[i].0.as_str().as_bytes()) {
                Err(e) => {
                    proof {
                        if wire_sized(ts) {
                            assert(encode_utf8(ts[i as int].0).len() <= u32::MAX);
                        }
                    }
                    return Err(e);
                },
                Ok(()) => {},
            }
            match write_object_index(&mut buf, &self.obj_map[i].1) {
                Err(e) => {
                    proof {
                        if wire_sized(ts) {
                            assert(objects_sized(ts[i as int].1.objects));
                        }
                    }
                    return Err(e);
                },
                Ok(()) => {},
            }
            proof {
                assert(os[i as int] == (self.obj_map@[i as int].0@, self.obj_map@[i as int].1@));
                assert(os.subrange(0, i + 1) =~= os.subrange(0, i as int).push(os[i as int]));
                lemma_enc_all_push(os.subrange(0, i as int), os[i as int], fo);
                assert(buf@ =~= b1 + enc_all(os.subrange(0, i + 1), fo));
            }
            i = i + 1;
        }
        assert(os.subrange(0, n as int) =~= os);
        match put_map_len(&mut buf, n as u32) {
            Err(m) => { return Err(DBError::SendValue(m)); },
            Ok(()) => {},
        }
        let ghost b2 = buf@;
        assert(enc_all(bs.subrange(0, 0), fb) =~= Seq::<u8>::empty());
        assert(b2 =~= b2 + enc_all(bs.subrange(0, 0), fb));
        let mut i: usize = 0;
        while i < n
            invariant
                self.wf(),
                n == self.obj_map@.len(),
                ts == self.tables(),
                bs == bitmaps_of(ts),
                fb == (|c: (Seq<char>, Seq<(RangeV, BitmapV)>)| enc_named(c, bitmap_enc())),
                i <= n,
                buf@ == b2 + enc_all(bs.subrange(0, i as int), fb),
                forall|j: int| 0 <= j < i ==> bitmaps_sized((#[trigger] ts[j]).1.bitmaps),
                forall|j: int| 0 <= j < n ==> encode_utf8((#[trigger] ts[j]).0).len() <= u32::MAX && objects_sized(ts[j].1.objects),
            decreases n - i,
        {
            assert(ts[i as int].0 == self.obj_map@[i as int].0@ && ts[i as int].1.bitmaps == self.bit_map@[i as int].1@);
            assert(self.bit_map@[i as int].0@ == self.obj_map@[i as int].0@);
            match write_bytes(&mut buf, self.bit_map[i].0.as_str().as_bytes()) {
                Err(e) => {
                    proof {
                        if wire_sized(ts) {
                            assert(encode_utf8(ts[i as int].0).len() <= u32::MAX);
                        }
                    }
                    return Err(e);
                },
                Ok(()) => {},
            }
            match write_bitmap_index(&mut buf, &self.bit_map[i].1) {
                Err(e) => {
                    proof {
                        if wire_sized(ts) {
                            assert(bitmaps_sized(ts[i as int].1.bitmaps));
                        }
                    }
                    return Err(e);
                },
                Ok(()) => {},
            }
            proof {
                assert(self.bit_map@[i as int].0@ == self.obj_map@[i as int].0@);
                assert(bs[i as int] == (self.bit_map@[i as int].0@, self.bit_map@[i as int].1@));
                assert(bs.subrange(0, i + 1) =~= bs.subrange(0, i as int).push(bs[i as int]));
                lemma_enc_all_push(bs.subrange(0, i as int), bs[i as int], fb);
                assert(buf@ =~= b2 + enc_all(bs.subrange(0, i + 1), fb));
            }
            i = i + 1;
        }
        assert(bs.subrange(0, n as int) =~= bs);
        proof {
            assert(buf@ =~= enc_db(ts));
            assert forall|j: int| 0 <= j < ts.len() implies {
                &&& encode_utf8((#[trigger] ts[j]).0).len() <= u32::MAX
                &&& 3 * ts[j].1.objects.len() <= u32::MAX
                &&& 3 * ts[j].1.bitmaps.len() <= u32::MAX
                &&& forall|k: int| 0 <= k < ts[j].1.objects.len() ==> (#[trigger] ts[j].1.objects[k]).1.len() <= u32::MAX
                &&& forall|k: int| 0 <= k < ts[j].1.bitmaps.len() ==> (#[trigger] ts[j].1.bitmaps[k]).1.1.len() <= u32::MAX
            } by {
                assert(objects_sized(ts[j].1.objects) && bitmaps_sized(ts[j].1.bitmaps));
            }
        }
        Ok(buf)
    }

    /// The database that `buf` encodes. Index entries are filed at their place in key order,
    /// and the tables of a collection kept one per name, the last one read, in name order.
    /// Fails with `ParseValue` where the MessagePack layer rejects the input, `UTF8` where a
    /// table name is not UTF-8, and `FileFormat` where the values do not make up a database:
    /// a header of the wrong length, a string longer than the input, a range whose ends are
    /// out of order, a bitmap whose length does not match its range, or collections that
    /// name different tables.
    pub fn deserialize(buf: Vec<u8>) -> (r: Result<DB, DBError>)
        ensures
            r is Ok <==> parse_db(buf@) is Ok,
            r matches Ok(db) ==> db.wf() && (parse_db(buf@) matches Ok(ts) && db.tables() == ts),
            r matches Err(e) ==> (parse_db(buf@) matches Err(f) && f == e.fault()),
    {
        let rd = buf.as_slice();
        match take_array_len(rd) {
            Err(m) => Err(DBError::ParseValue(m)),
            Ok((n, rest)) => {
                if n != 2 {
                    return Err(DBError::FileFormat(String::from_str("a database is an array of two")));
                }
                let ghost k = rd@.len() - rest@.len();
                assert(rest@ == skip(rd@, k));
                match read_object_collection(rest) {
                    Err(e) => Err(e),
                    Ok((objs, rest2)) => {
                        assert(rest2@ =~= skip(rd@, rd@.len() - rest2@.len()));
                        match read_bitmap_collection(rest2) {
                            Err(e) => Err(e),
                            Ok((bms, rest3)) => {
                                match DB::new_from_data(objs, bms) {
                                    None => Err(DBError::FileFormat(String::from_str("collections name different tables"))),
                                    Some(db) => Ok(db),
                                }
                            },
                        }
                    },
                }
            },
        }
    }
    /// Serializing a database and deserializing the bytes gives back a database with the
    /// same tables, and in each the same ranges and bytes: decoding the encoding succeeds,
    /// and any well-formed database with the decoded tables holds what `self` holds.
    pub proof fn law_serialize_deserialize(&self, back: &DB)
        requires
            self.wf(),
            wire_sized(self.tables()),
            back.wf(),
            back.tables() == parse_db(enc_db(self.tables()))->Ok_0,
        ensures
            parse_db(enc_db(self.tables())) is Ok,
            back@ == self@,
    {
        self.lemma_tables();
        law_round_trip(self.tables());
        self.lemma_same_tables(back);
    }
}

} // verus!
