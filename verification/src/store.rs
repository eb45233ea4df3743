use vstd::prelude::*;

verus! {

use crate::dates::{Date, format_iso, iso_date, spec_one_month_before, one_month_before};
use crate::textutil::{lex_lt, str_lex_lt, lower_of, lowercase, contains_seq, contains_str,
    str_eq, trim, trim_spec, push_char};
use crate::money::{wire_fmt, format_money_wire, parse_wire, spec_parse_wire};
use crate::csvfmt::{enc_record, enc_rows, enc_field, needs_quote, views_of, rows_views,
    encode_row, parse_rows, p_rows, lemma_enc_rows_push};

/// One catalog record: the entity the store persists.
#[derive(Debug)]
pub struct Record {
    pub id: u64,
    pub description: String,
    pub brand: String,
    pub vendor: String,
    pub price_cents: u64,
    pub updated_at: String,
}

/// The mathematical content of a record.
pub struct RecV {
    pub id: int,
    pub description: Seq<char>,
    pub brand: Seq<char>,
    pub vendor: Seq<char>,
    pub price_cents: int,
    pub updated_at: Seq<char>,
}

impl View for Record {
    type V = RecV;

    open spec fn view(&self) -> RecV {
        RecV {
            id: self.id as int,
            description: self.description@,
            brand: self.brand@,
            vendor: self.vendor@,
            price_cents: self.price_cents as int,
            updated_at: self.updated_at@,
        }
    }
}

/// The contents of a sequence of records.
pub open spec fn recs_view(rs: Seq<Record>) -> Seq<RecV> {
    Seq::new(rs.len(), |i: int| rs[i]@)
}

/// The natural key of a record.
pub open spec fn triple(r: RecV) -> (Seq<char>, Seq<char>, Seq<char>) {
    (r.description, r.brand, r.vendor)
}

/// `r` carries the given natural key.
pub open spec fn matches_triple(r: RecV, d: Seq<char>, b: Seq<char>, v: Seq<char>) -> bool {
    r.description == d && r.brand == b && r.vendor == v
}

/// Some record of `rs` carries the given natural key.
pub open spec fn has_triple(rs: Seq<RecV>, d: Seq<char>, b: Seq<char>, v: Seq<char>) -> bool {
    exists|i: int| 0 <= i < rs.len() && matches_triple(#[trigger] rs[i], d, b, v)
}

/// Index of the first record with the given natural key, or -1.
pub open spec fn find_triple_spec(rs: Seq<RecV>, d: Seq<char>, b: Seq<char>, v: Seq<char>) -> int
    decreases rs.len(),
{
    if rs.len() == 0 {
        -1
    } else if matches_triple(rs[0], d, b, v) {
        0
    } else if find_triple_spec(rs.drop_first(), d, b, v) < 0 {
        -1
    } else {
        find_triple_spec(rs.drop_first(), d, b, v) + 1
    }
}

/// Index of the first record with the given id, or -1.
pub open spec fn find_id_spec(rs: Seq<RecV>, id: int) -> int
    decreases rs.len(),
{
    if rs.len() == 0 {
        -1
    } else if rs[0].id == id {
        0
    } else if find_id_spec(rs.drop_first(), id) < 0 {
        -1
    } else {
        find_id_spec(rs.drop_first(), id) + 1
    }
}

/// The records of `rs` whose `updated_at` text sorts before `cutoff`,
/// in their original order.
pub open spec fn outdated_of(rs: Seq<RecV>, cutoff: Seq<char>) -> Seq<RecV>
    decreases rs.len(),
{
    if rs.len() == 0 {
        Seq::empty()
    } else if lex_lt(rs.last().updated_at, cutoff) {
        outdated_of(rs.drop_last(), cutoff) + seq![rs.last()]
    } else {
        outdated_of(rs.drop_last(), cutoff)
    }
}

/// A lowercased query matches a record when it occurs in the
/// lowercased description, brand or vendor.
pub open spec fn matches_query(r: RecV, q: Seq<char>) -> bool {
    contains_seq(lower_of(r.description), q) || contains_seq(lower_of(r.brand), q) || contains_seq(
        lower_of(r.vendor),
        q,
    )
}

/// The records of `rs` that match the lowercased query `q`, in their
/// original order.
pub open spec fn matching_of(rs: Seq<RecV>, q: Seq<char>) -> Seq<RecV>
    decreases rs.len(),
{
    if rs.len() == 0 {
        Seq::empty()
    } else if matches_query(rs.last(), q) {
        matching_of(rs.drop_last(), q) + seq![rs.last()]
    } else {
        matching_of(rs.drop_last(), q)
    }
}

/// The outcome of a store operation, as the caller displays it.
#[derive(Clone, Copy, Debug, PartialEq, Eq, Structural)]
pub enum Outcome {
    /// The record was written.
    Saved,
    /// An update found nothing to change and touched no storage.
    NoChange,
    /// No record carries the given id.
    NotFound,
    /// A required field was empty or an input was malformed.
    ValidationError,
    /// A constraint or storage-level failure.
    StorageError,
}

impl Outcome {
    /// A short text for the caller to display.
    pub fn message(&self) -> (r: &'static str)
        ensures
            *self == Outcome::Saved ==> r@ == "saved"@,
            *self == Outcome::NoChange ==> r@ == "no change detected"@,
            *self == Outcome::NotFound ==> r@ == "no matching record"@,
            *self == Outcome::ValidationError ==> r@ == "description or vendor is empty"@,
            *self == Outcome::StorageError ==> r@ == "storage failure"@,
    {
        match self {
            Outcome::Saved => "saved",
            Outcome::NoChange => "no change detected",
            Outcome::NotFound => "no matching record",
            Outcome::ValidationError => "description or vendor is empty",
            Outcome::StorageError => "storage failure",
        }
    }
}

/// The mathematical content of the store.
pub struct StoreV {
    pub records: Seq<RecV>,
    pub next_id: int,
    pub loaded: Seq<RecV>,
    pub visible: Seq<RecV>,
    pub last_query: Seq<char>,
}

/// The catalog store: the single source of truth for records. The
/// `records` vector is ordered most-recently-created first (strictly
/// descending ids), `loaded` caches the last load, and `visible` is
/// the search index's narrowing of `loaded`.
pub struct CatalogStore {
    records: Vec<Record>,
    next_id: u64,
    loaded: Vec<Record>,
    visible: Vec<Record>,
    last_query: String,
}

impl View for CatalogStore {
    type V = StoreV;

    closed spec fn view(&self) -> StoreV {
        StoreV {
            records: recs_view(self.records@),
            next_id: self.next_id as int,
            loaded: recs_view(self.loaded@),
            visible: recs_view(self.visible@),
            last_query: self.last_query@,
        }
    }
}

/// Records carry positive ids below `next_id`, strictly descending,
/// and no two records share a natural key.
pub open spec fn wf_recs(rs: Seq<RecV>, next_id: int) -> bool {
    &&& forall|i: int| 0 <= i < rs.len() ==> 1 <= (#[trigger] rs[i]).id < next_id
    &&& forall|i: int, j: int|
        0 <= i < j < rs.len() ==> (#[trigger] rs[i]).id > (#[trigger] rs[j]).id
    &&& forall|i: int, j: int|
        0 <= i < j < rs.len() ==> triple(#[trigger] rs[i]) != triple(#[trigger] rs[j])
}

impl CatalogStore {
    /// The store's invariant.
    pub open spec fn wf(&self) -> bool {
        wf_recs(self@.records, self@.next_id) && self@.next_id >= 1
    }

    /// An empty store.
    pub fn new() -> (s: CatalogStore)
        ensures
            s.wf(),
            s@.records == Seq::<RecV>::empty(),
            s@.next_id == 1,
            s@.loaded == Seq::<RecV>::empty(),
            s@.visible == Seq::<RecV>::empty(),
            s@.last_query == Seq::<char>::empty(),
    {
        let s = CatalogStore {
            records: Vec::new(),
            next_id: 1,
            loaded: Vec::new(),
            visible: Vec::new(),
            last_query: String::new(),
        };
        proof {
            assert(recs_view(s.records@) =~= Seq::<RecV>::empty());
            assert(recs_view(s.loaded@) =~= Seq::<RecV>::empty());
            assert(recs_view(s.visible@) =~= Seq::<RecV>::empty());
        }
        s
    }

    /// The records as last loaded, most recently created first.
    pub fn loaded_items(&self) -> (r: &Vec<Record>)
        ensures
            recs_view(r@) == self@.loaded,
    {
        &self.loaded
    }

    /// The loaded records as the search index narrows them.
    pub fn visible_items(&self) -> (r: &Vec<Record>)
        ensures
            recs_view(r@) == self@.visible,
    {
        &self.visible
    }

    /// Every persisted record, most recently created first.
    pub fn records_all(&self) -> (r: &Vec<Record>)
        ensures
            recs_view(r@) == self@.records,
    {
        &self.records
    }
}

proof fn lemma_find_triple_at(rs: Seq<RecV>, d: Seq<char>, b: Seq<char>, v: Seq<char>, k: int)
    requires
        0 <= k <= rs.len(),
        forall|i: int| 0 <= i < k ==> !matches_triple(#[trigger] rs[i], d, b, v),
        k == rs.len() || matches_triple(rs[k], d, b, v),
    ensures
        k == rs.len() ==> find_triple_spec(rs, d, b, v) == -1 && !has_triple(rs, d, b, v),
        k < rs.len() ==> find_triple_spec(rs, d, b, v) == k && has_triple(rs, d, b, v),
    decreases k,
{
    if k == 0 {
        if rs.len() > 0 && !matches_triple(rs[0], d, b, v) {
            lemma_find_triple_at(rs.drop_first(), d, b, v, 0);
        }
    } else {
        let t = rs.drop_first();
        assert(forall|i: int| 0 <= i < k - 1 ==> t[i] == rs[i + 1]);
        lemma_find_triple_at(t, d, b, v, k - 1);
        if k == rs.len() {
            if has_triple(rs, d, b, v) {
                let w = choose|i: int|
                    0 <= i < rs.len() && matches_triple(#[trigger] rs[i], d, b, v);
                assert(!matches_triple(rs[w], d, b, v));
            }
        }
    }
}

proof fn lemma_find_id_at(rs: Seq<RecV>, id: int, k: int)
    requires
        0 <= k <= rs.len(),
        forall|i: int| 0 <= i < k ==> (#[trigger] rs[i]).id != id,
        k == rs.len() || rs[k].id == id,
    ensures
        k == rs.len() ==> find_id_spec(rs, id) == -1,
        k < rs.len() ==> find_id_spec(rs, id) == k,
    decreases k,
{
    if k == 0 {
        if rs.len() > 0 && rs[0].id != id {
            lemma_find_id_at(rs.drop_first(), id, 0);
        }
    } else {
        let t = rs.drop_first();
        assert(forall|i: int| 0 <= i < k - 1 ==> t[i] == rs[i + 1]);
        lemma_find_id_at(t, id, k - 1);
    }
}

impl CatalogStore {
    /// Finds the first record with the given natural key.
    fn find_by_triple(&self, d: &str, b: &str, v: &str) -> (r: Option<usize>)
        ensures
            (match r {
                Some(i) => find_triple_spec(self@.records, d@, b@, v@) == i && i
                    < self@.records.len() && matches_triple(self@.records[i as int], d@, b@, v@)
                    && has_triple(self@.records, d@, b@, v@),
                None => find_triple_spec(self@.records, d@, b@, v@) == -1 && !has_triple(
                    self@.records,
                    d@,
                    b@,
                    v@,
                ),
            }),
    {
        let ghost rv = self@.records;
        let n = self.records.len();
        let mut i: usize = 0;
        while i < n
            invariant
                0 <= i <= n,
                n == self.records@.len(),
                rv == self@.records,
                rv.len() == n,
                forall|j: int| 0 <= j < i ==> !matches_triple(#[trigger] rv[j], d@, b@, v@),
            decreases n - i,
        {
            proof {
                assert(rv[i as int] == self.records@[i as int]@);
            }
            let rec = &self.records[i];
            if str_eq(d, rec.description.as_str()) && str_eq(b, rec.brand.as_str()) && str_eq(
                v,
                rec.vendor.as_str(),
            ) {
                proof {
                    lemma_find_triple_at(rv, d@, b@, v@, i as int);
                }
                return Some(i);
            }
            i = i + 1;
        }
        proof {
            lemma_find_triple_at(rv, d@, b@, v@, n as int);
        }
        None
    }

    /// Finds the first record with the given id.
    fn find_by_id(&self, id: u64) -> (r: Option<usize>)
        ensures
            (match r {
                Some(i) => find_id_spec(self@.records, id as int) == i && i
                    < self@.records.len() && self@.records[i as int].id == id,
                None => find_id_spec(self@.records, id as int) == -1,
            }),
    {
        let ghost rv = self@.records;
        let n = self.records.len();
        let mut i: usize = 0;
        while i < n
            invariant
                0 <= i <= n,
                n == self.records@.len(),
                rv == self@.records,
                rv.len() == n,
                forall|j: int| 0 <= j < i ==> (#[trigger] rv[j]).id != id,
            decreases n - i,
        {
            proof {
                assert(rv[i as int] == self.records@[i as int]@);
            }
            if self.records[i].id == id {
                proof {
                    lemma_find_id_at(rv, id as int, i as int);
                }
                return Some(i);
            }
            i = i + 1;
        }
        proof {
            lemma_find_id_at(rv, id as int, n as int);
        }
        None
    }

    /// Replaces the cached loaded set and its narrowing with every
    /// record.
    fn refresh(&mut self)
        ensures
            final(self)@.records == old(self)@.records,
            final(self)@.next_id == old(self)@.next_id,
            final(self)@.last_query == old(self)@.last_query,
            final(self)@.loaded == final(self)@.records,
            final(self)@.visible == final(self)@.records,
    {
        let c = clone_records(&self.records);
        self.visible = clone_records(&c);
        self.loaded = c;
    }

    /// Loads every record, most recently created first, into the
    /// cached loaded set; the search narrowing is reset with it.
    pub fn load_all(&mut self)
        requires
            old(self).wf(),
        ensures
            final(self).wf(),
            final(self)@.records == old(self)@.records,
            final(self)@.next_id == old(self)@.next_id,
            final(self)@.last_query == old(self)@.last_query,
            final(self)@.loaded == old(self)@.records,
            final(self)@.visible == old(self)@.records,
    {
        self.refresh();
    }

    /// Loads exactly the records whose `updated_at` predates one
    /// calendar month before `today`, keeping their order; the cached
    /// loaded set and its narrowing are replaced by them.
    pub fn load_outdated(&mut self, today: Date)
        requires
            old(self).wf(),
            today.valid(),
        ensures
            final(self).wf(),
            final(self)@.records == old(self)@.records,
            final(self)@.next_id == old(self)@.next_id,
            final(self)@.last_query == old(self)@.last_query,
            final(self)@.loaded == outdated_of(
                old(self)@.records,
                iso_date(spec_one_month_before(today)),
            ),
            final(self)@.visible == final(self)@.loaded,
    {
        let ghost rv = self@.records;
        let cutoff = format_iso(one_month_before(today));
        let n = self.records.len();
        let mut out: Vec<Record> = Vec::new();
        let mut i: usize = 0;
        while i < n
            invariant
                0 <= i <= n,
                n == self.records@.len(),
                rv == self@.records,
                rv.len() == n,
                cutoff@ == iso_date(spec_one_month_before(today)),
                recs_view(out@) == outdated_of(rv.take(i as int), cutoff@),
            decreases n - i,
        {
            proof {
                assert(rv[i as int] == self.records@[i as int]@);
                assert(rv.take(i as int + 1).drop_last() == rv.take(i as int));
                assert(rv.take(i as int + 1).last() == rv[i as int]);
            }
            let rec = &self.records[i];
            let ghost pre = out@;
            if str_lex_lt(rec.updated_at.as_str(), cutoff.as_str()) {
                out.push(clone_record(rec));
                proof {
                    assert(recs_view(out@) =~= recs_view(pre) + seq![rv[i as int]]);
                }
            }
            i = i + 1;
        }
        proof {
            assert(rv.take(n as int) == rv);
        }
        self.visible = clone_records(&out);
        self.loaded = out;
    }

    /// Narrows the loaded set to the records matching the query,
    /// case-insensitively, keeping their order; an empty query shows
    /// the whole loaded set. Nothing is recomputed while the query
    /// text stays what it was.
    pub fn search(&mut self, query: &str)
        ensures
            final(self)@.records == old(self)@.records,
            final(self)@.next_id == old(self)@.next_id,
            final(self)@.loaded == old(self)@.loaded,
            query@ == old(self)@.last_query ==> final(self)@ == old(self)@,
            query@ != old(self)@.last_query ==> final(self)@.last_query == query@
                && final(self)@.visible == (if query@.len() == 0 {
                old(self)@.loaded
            } else {
                matching_of(old(self)@.loaded, lower_of(query@))
            }),
    {
        if str_eq(query, self.last_query.as_str()) {
            return ;
        }
        self.last_query = query.to_owned();
        if query.is_empty() {
            self.visible = clone_records(&self.loaded);
            return ;
        }
        let q = lowercase(query);
        let ghost lv = self@.loaded;
        let n = self.loaded.len();
        let mut out: Vec<Record> = Vec::new();
        let mut i: usize = 0;
        while i < n
            invariant
                0 <= i <= n,
                n == self.loaded@.len(),
                lv == recs_view(self.loaded@),
                lv.len() == n,
                q@ == lower_of(query@),
                recs_view(out@) == matching_of(lv.take(i as int), q@),
            decreases n - i,
        {
            proof {
                assert(lv[i as int] == self.loaded@[i as int]@);
                assert(lv.take(i as int + 1).drop_last() == lv.take(i as int));
                assert(lv.take(i as int + 1).last() == lv[i as int]);
            }
            let rec = &self.loaded[i];
            let ghost pre = out@;
            let ld = lowercase(rec.description.as_str());
            let lb = lowercase(rec.brand.as_str());
            let lvnd = lowercase(rec.vendor.as_str());
            let hit = contains_str(ld.as_str(), q.as_str()) || contains_str(
                lb.as_str(),
                q.as_str(),
            ) || contains_str(lvnd.as_str(), q.as_str());
            if hit {
                out.push(clone_record(rec));
                proof {
                    assert(recs_view(out@) =~= recs_view(pre) + seq![lv[i as int]]);
                }
            }
            i = i + 1;
        }
        proof {
            assert(lv.take(n as int) == lv);
        }
        self.visible = out;
    }
}

/// The store contents after one upsert: a record sharing the natural
/// key has its price and date overwritten in place; otherwise a new
/// record with the next id is put in front. With the id space
/// exhausted nothing changes.
pub open spec fn apply_upsert(
    rs: Seq<RecV>,
    next_id: int,
    d: Seq<char>,
    b: Seq<char>,
    v: Seq<char>,
    price: int,
    upd: Seq<char>,
) -> (Seq<RecV>, int) {
    if has_triple(rs, d, b, v) {
        let ti = find_triple_spec(rs, d, b, v);
        (
            rs.update(
                ti,
                (RecV {
                    id: rs[ti].id,
                    description: d,
                    brand: b,
                    vendor: v,
                    price_cents: price,
                    updated_at: upd,
                }),
            ),
            next_id,
        )
    } else if next_id < u64::MAX as int {
        (
            seq![
                (RecV {
                    id: next_id,
                    description: d,
                    brand: b,
                    vendor: v,
                    price_cents: price,
                    updated_at: upd,
                }),
            ] + rs,
            next_id + 1,
        )
    } else {
        (rs, next_id)
    }
}

/// Some record other than the one at `except` carries the given
/// natural key.
pub open spec fn has_triple_other(
    rs: Seq<RecV>,
    except: int,
    d: Seq<char>,
    b: Seq<char>,
    v: Seq<char>,
) -> bool {
    exists|j: int|
        0 <= j < rs.len() && j != except && matches_triple(#[trigger] rs[j], d, b, v)
}

impl CatalogStore {
    /// Whether a record other than the one at `except` carries the key.
    fn triple_elsewhere(&self, except: usize, d: &str, b: &str, v: &str) -> (r: bool)
        ensures
            r == has_triple_other(self@.records, except as int, d@, b@, v@),
    {
        let ghost rv = self@.records;
        let n = self.records.len();
        let mut i: usize = 0;
        let mut found: bool = false;
        while i < n
            invariant
                0 <= i <= n,
                n == self.records@.len(),
                rv == self@.records,
                rv.len() == n,
                found == exists|j: int|
                    0 <= j < i && j != except && matches_triple(#[trigger] rv[j], d@, b@, v@),
            decreases n - i,
        {
            proof {
                assert(rv[i as int] == self.records@[i as int]@);
            }
            let rec = &self.records[i];
            if i != except && str_eq(d, rec.description.as_str()) && str_eq(b, rec.brand.as_str())
                && str_eq(v, rec.vendor.as_str()) {
                found = true;
            }
            i = i + 1;
        }
        found
    }

    /// Inserts a new record, or overwrites price and date of the record
    /// sharing the natural key; the loaded set is refreshed on success.
    /// An empty description or vendor is refused and changes nothing.
    pub fn upsert(
        &mut self,
        description: &str,
        brand: &str,
        vendor: &str,
        price_cents: u64,
        today: Date,
    ) -> (r: Outcome)
        requires
            old(self).wf(),
            today.valid(),
        ensures
            final(self).wf(),
            final(self)@.last_query == old(self)@.last_query,
            (description@.len() == 0 || vendor@.len() == 0) ==> r == Outcome::ValidationError
                && final(self)@ == old(self)@,
            (description@.len() > 0 && vendor@.len() > 0 && has_triple(
                old(self)@.records,
                description@,
                brand@,
                vendor@,
            )) ==> ({
                let ti = find_triple_spec(old(self)@.records, description@, brand@, vendor@);
                r == Outcome::Saved && final(self)@.records == old(self)@.records.update(
                    ti,
                    (RecV {
                        id: old(self)@.records[ti].id,
                        description: description@,
                        brand: brand@,
                        vendor: vendor@,
                        price_cents: price_cents as int,
                        updated_at: iso_date(today),
                    }),
                ) && final(self)@.next_id == old(self)@.next_id && final(self)@.loaded == final(self)@.records && final(self)@.visible == final(self)@.records
            }),
            (description@.len() > 0 && vendor@.len() > 0 && !has_triple(
                old(self)@.records,
                description@,
                brand@,
                vendor@,
            )) ==> ({
                if old(self)@.next_id < u64::MAX {
                    r == Outcome::Saved && final(self)@.records == seq![
                        (RecV {
                            id: old(self)@.next_id,
                            description: description@,
                            brand: brand@,
                            vendor: vendor@,
                            price_cents: price_cents as int,
                            updated_at: iso_date(today),
                        }),
                    ] + old(self)@.records && final(self)@.next_id == old(self)@.next_id + 1
                        && final(self)@.loaded == final(self)@.records && final(self)@.visible
                        == final(self)@.records
                } else {
                    r == Outcome::StorageError && final(self)@ == old(self)@
                }
            }),
            (description@.len() > 0 && vendor@.len() > 0) ==> final(self)@.records == apply_upsert(
                old(self)@.records,
                old(self)@.next_id,
                description@,
                brand@,
                vendor@,
                price_cents as int,
                iso_date(today),
            ).0 && final(self)@.next_id == apply_upsert(
                old(self)@.records,
                old(self)@.next_id,
                description@,
                brand@,
                vendor@,
                price_cents as int,
                iso_date(today),
            ).1,
    {
        if description.is_empty() || vendor.is_empty() {
            return Outcome::ValidationError;
        }
        let ghost rs1 = self@.records;
        match self.find_by_triple(description, brand, vendor) {
            Some(i) => {
                let ghost ti = i as int;
                let old_rec = self.records.remove(i);
                let rec = Record {
                    id: old_rec.id,
                    description: old_rec.description,
                    brand: old_rec.brand,
                    vendor: old_rec.vendor,
                    price_cents,
                    updated_at: format_iso(today),
                };
                self.records.insert(i, rec);
                let ghost nv = RecV {
                    id: rs1[ti].id,
                    description: description@,
                    brand: brand@,
                    vendor: vendor@,
                    price_cents: price_cents as int,
                    updated_at: iso_date(today),
                };
                proof {
                    let rs2 = recs_view(self.records@);
                    assert(rs2 =~= rs1.update(ti, nv));
                    assert forall|k: int| 0 <= k < rs2.len() implies rs2[k].id == rs1[k].id
                        && triple(rs2[k]) == triple(rs1[k]) by {
                        if k == ti {
                            assert(matches_triple(rs1[ti], description@, brand@, vendor@));
                        }
                    }
                    assert(wf_recs(rs2, self.next_id as int));
                }
                self.refresh();
                Outcome::Saved
            },
            None => {
                if self.next_id == u64::MAX {
                    return Outcome::StorageError;
                }
                let rec = Record {
                    id: self.next_id,
                    description: description.to_owned(),
                    brand: brand.to_owned(),
                    vendor: vendor.to_owned(),
                    price_cents,
                    updated_at: format_iso(today),
                };
                let ghost nv = rec@;
                self.records.insert(0, rec);
                self.next_id = self.next_id + 1;
                proof {
                    let rs2 = recs_view(self.records@);
                    assert(rs2 =~= seq![nv] + rs1);
                    assert forall|i: int, j: int| 0 <= i < j < rs2.len() implies rs2[i].id
                        > rs2[j].id && triple(rs2[i]) != triple(rs2[j]) by {
                        if i == 0 {
                            assert(rs2[j] == rs1[j - 1]);
                            assert(1 <= rs1[j - 1].id < old(self)@.next_id);
                            assert(!matches_triple(rs1[j - 1], description@, brand@, vendor@));
                        } else {
                            assert(rs2[i] == rs1[i - 1]);
                            assert(rs2[j] == rs1[j - 1]);
                        }
                    }
                    assert(wf_recs(rs2, self.next_id as int));
                }
                self.refresh();
                Outcome::Saved
            },
        }
    }

    /// Overwrites all four fields and the date of the record with the
    /// given id, refreshing the loaded set. Returns `NotFound` without
    /// a matching record, `NoChange` when nothing differs, and
    /// `StorageError` when the new key would collide with another
    /// record; in those cases nothing changes.
    pub fn update(
        &mut self,
        id: u64,
        description: &str,
        brand: &str,
        vendor: &str,
        price_cents: u64,
        today: Date,
    ) -> (r: Outcome)
        requires
            old(self).wf(),
            today.valid(),
        ensures
            final(self).wf(),
            final(self)@.last_query == old(self)@.last_query,
            ({
                let fi = find_id_spec(old(self)@.records, id as int);
                &&& (fi < 0 ==> r == Outcome::NotFound && final(self)@ == old(self)@)
                &&& (fi >= 0 && old(self)@.records[fi].description == description@ && old(self)@.records[fi].brand == brand@ && old(self)@.records[fi].vendor == vendor@ && old(self)@.records[fi].price_cents == price_cents as int ==> r == Outcome::NoChange
                    && final(self)@ == old(self)@)
                &&& (fi >= 0 && !(old(self)@.records[fi].description == description@ && old(self)@.records[fi].brand == brand@ && old(self)@.records[fi].vendor == vendor@ && old(self)@.records[fi].price_cents == price_cents as int) && has_triple_other(
                    old(self)@.records,
                    fi,
                    description@,
                    brand@,
                    vendor@,
                ) ==> r == Outcome::StorageError && final(self)@ == old(self)@)
                &&& (fi >= 0 && !(old(self)@.records[fi].description == description@ && old(self)@.records[fi].brand == brand@ && old(self)@.records[fi].vendor == vendor@ && old(self)@.records[fi].price_cents == price_cents as int) && !has_triple_other(
                    old(self)@.records,
                    fi,
                    description@,
                    brand@,
                    vendor@,
                ) ==> r == Outcome::Saved && final(self)@.records == old(self)@.records.update(
                    fi,
                    (RecV {
                        id: old(self)@.records[fi].id,
                        description: description@,
                        brand: brand@,
                        vendor: vendor@,
                        price_cents: price_cents as int,
                        updated_at: iso_date(today),
                    }),
                ) && final(self)@.next_id == old(self)@.next_id && final(self)@.loaded == final(self)@.records && final(self)@.visible == final(self)@.records)
            }),
    {
        let ghost rs1 = self@.records;
        match self.find_by_id(id) {
            None => Outcome::NotFound,
            Some(i) => {
                let same = {
                    let rec = &self.records[i];
                    str_eq(description, rec.description.as_str()) && str_eq(
                        brand,
                        rec.brand.as_str(),
                    ) && str_eq(vendor, rec.vendor.as_str()) && price_cents == rec.price_cents
                };
                proof {
                    assert(rs1[i as int] == self.records@[i as int]@);
                }
                if same {
                    return Outcome::NoChange;
                }
                if self.triple_elsewhere(i, description, brand, vendor) {
                    return Outcome::StorageError;
                }
                let old_rec = self.records.remove(i);
                let rec = Record {
                    id: old_rec.id,
                    description: description.to_owned(),
                    brand: brand.to_owned(),
                    vendor: vendor.to_owned(),
                    price_cents,
                    updated_at: format_iso(today),
                };
                self.records.insert(i, rec);
                let ghost nv = RecV {
                    id: rs1[i as int].id,
                    description: description@,
                    brand: brand@,
                    vendor: vendor@,
                    price_cents: price_cents as int,
                    updated_at: iso_date(today),
                };
                proof {
                    let rs2 = recs_view(self.records@);
                    assert(rs2 =~= rs1.update(i as int, nv));
                    assert forall|a: int, b2: int| 0 <= a < b2 < rs2.len() implies rs2[a].id
                        > rs2[b2].id && triple(rs2[a]) != triple(rs2[b2]) by {
                        assert(rs2[a].id == rs1[a].id);
                        assert(rs2[b2].id == rs1[b2].id);
                        if a != i as int && b2 != i as int {
                            assert(triple(rs2[a]) != triple(rs2[b2]));
                        } else if a == i as int {
                            assert(!matches_triple(rs1[b2], description@, brand@, vendor@));
                        } else {
                            assert(!matches_triple(rs1[a], description@, brand@, vendor@));
                        }
                    }
                    assert(wf_recs(rs2, self.next_id as int));
                }
                self.refresh();
                Outcome::Saved
            },
        }
    }

    /// Removes the record with the given id, refreshing the loaded
    /// set; without one, returns `NotFound` and changes nothing.
    pub fn delete(&mut self, id: u64) -> (r: Outcome)
        requires
            old(self).wf(),
        ensures
            final(self).wf(),
            final(self)@.last_query == old(self)@.last_query,
            ({
                let fi = find_id_spec(old(self)@.records, id as int);
                &&& (fi < 0 ==> r == Outcome::NotFound && final(self)@ == old(self)@)
                &&& (fi >= 0 ==> r == Outcome::Saved && final(self)@.records == old(self)@.records.remove(fi) && final(self)@.next_id == old(self)@.next_id && final(self)@.loaded == final(self)@.records && final(self)@.visible == final(self)@.records)
            }),
    {
        let ghost rs1 = self@.records;
        match self.find_by_id(id) {
            None => Outcome::NotFound,
            Some(i) => {
                self.records.remove(i);
                proof {
                    let rs2 = recs_view(self.records@);
                    assert(rs2 =~= rs1.remove(i as int));
                    assert forall|a: int, b2: int| 0 <= a < b2 < rs2.len() implies rs2[a].id
                        > rs2[b2].id && triple(rs2[a]) != triple(rs2[b2]) by {
                        let a1 = if a < i as int {
                            a
                        } else {
                            a + 1
                        };
                        let b1 = if b2 < i as int {
                            b2
                        } else {
                            b2 + 1
                        };
                        assert(rs2[a] == rs1[a1]);
                        assert(rs2[b2] == rs1[b1]);
                    }
                    assert forall|k: int| 0 <= k < rs2.len() implies 1 <= (#[trigger] rs2[k]).id
                        < self.next_id as int by {
                        let k1 = if k < i as int {
                            k
                        } else {
                            k + 1
                        };
                        assert(rs2[k] == rs1[k1]);
                    }
                    assert(wf_recs(rs2, self.next_id as int));
                }
                self.refresh();
                Outcome::Saved
            },
        }
    }
}

/// One unparsable CSV row: the 1-based data-row number (the header
/// does not count) and the raw price text found there.
#[derive(Debug)]
pub struct RowError {
    pub row: usize,
    pub raw_price: String,
}

/// The mathematical content of a row error.
pub struct RowErrV {
    pub row: int,
    pub raw_price: Seq<char>,
}

impl View for RowError {
    type V = RowErrV;

    open spec fn view(&self) -> RowErrV {
        RowErrV { row: self.row as int, raw_price: self.raw_price@ }
    }
}

/// The contents of a sequence of row errors.
pub open spec fn errs_view(v: Seq<RowError>) -> Seq<RowErrV> {
    Seq::new(v.len(), |i: int| v[i]@)
}

/// The outcome of a CSV import: how many rows were persisted, and the
/// rows that were skipped for an unparsable price.
#[derive(Debug)]
pub struct ImportSummary {
    pub applied: usize,
    pub skipped: Vec<RowError>,
}

/// Field `k` of a row, or the default where the row is shorter.
pub open spec fn f_or(row: Seq<Seq<char>>, k: int, dflt: Seq<char>) -> Seq<char> {
    if 0 <= k < row.len() {
        row[k]
    } else {
        dflt
    }
}

/// The trimmed description of a row.
pub open spec fn row_d(row: Seq<Seq<char>>) -> Seq<char> {
    trim_spec(f_or(row, 0, Seq::empty()))
}

/// The trimmed brand of a row.
pub open spec fn row_b(row: Seq<Seq<char>>) -> Seq<char> {
    trim_spec(f_or(row, 1, Seq::empty()))
}

/// The trimmed vendor of a row.
pub open spec fn row_v(row: Seq<Seq<char>>) -> Seq<char> {
    trim_spec(f_or(row, 2, Seq::empty()))
}

/// The trimmed raw price text of a row; a missing price column reads
/// as zero.
pub open spec fn row_praw(row: Seq<Seq<char>>) -> Seq<char> {
    trim_spec(f_or(row, 3, "0"@))
}

/// The trimmed date text of a row.
pub open spec fn row_upd(row: Seq<Seq<char>>) -> Seq<char> {
    trim_spec(f_or(row, 4, Seq::empty()))
}

/// Whether the row's price text parses as wire-format cents.
pub open spec fn row_ok(row: Seq<Seq<char>>) -> bool {
    match spec_parse_wire(row_praw(row)) {
        Some(p) => p <= u64::MAX as int,
        None => false,
    }
}

/// The row's price in cents, where it parses.
pub open spec fn row_price(row: Seq<Seq<char>>) -> int {
    match spec_parse_wire(row_praw(row)) {
        Some(p) => p,
        None => 0,
    }
}

/// The store contents, skipped rows and success count after importing
/// the given data rows in order, numbering them from `rownum`. A row
/// whose price does not parse is recorded and skipped; every other row
/// is upserted with its own date text.
pub open spec fn import_rows_spec(
    rs: Seq<RecV>,
    next_id: int,
    rows: Seq<Seq<Seq<char>>>,
    rownum: int,
) -> (Seq<RecV>, int, Seq<RowErrV>, int)
    decreases rows.len(),
{
    if rows.len() == 0 {
        (rs, next_id, Seq::empty(), 0)
    } else {
        let row = rows[0];
        if row_ok(row) {
            let up = apply_upsert(
                rs,
                next_id,
                row_d(row),
                row_b(row),
                row_v(row),
                row_price(row),
                row_upd(row),
            );
            let rest = import_rows_spec(up.0, up.1, rows.drop_first(), rownum + 1);
            (rest.0, rest.1, rest.2, rest.3 + 1)
        } else {
            let rest = import_rows_spec(rs, next_id, rows.drop_first(), rownum + 1);
            (
                rest.0,
                rest.1,
                seq![(RowErrV { row: rownum, raw_price: row_praw(row) })] + rest.2,
                rest.3,
            )
        }
    }
}

/// The header fields of the transfer format.
pub open spec fn header_fields() -> Seq<Seq<char>> {
    seq!["descrição"@, "marca"@, "fornecedor"@, "preço"@, "última atualização"@]
}

/// The five wire fields of one record.
pub open spec fn wire_fields(r: RecV) -> Seq<Seq<char>> {
    seq![r.description, r.brand, r.vendor, wire_fmt(r.price_cents), r.updated_at]
}

/// The wire rows of a record sequence.
pub open spec fn wire_rows(rs: Seq<RecV>) -> Seq<Seq<Seq<char>>> {
    Seq::new(rs.len(), |i: int| wire_fields(rs[i]))
}

/// The whole export text: a byte-order mark, the header line, and one
/// line per loaded record.
pub open spec fn export_text(loaded: Seq<RecV>) -> Seq<char> {
    seq!['\u{feff}'] + enc_record(header_fields()) + enc_rows(wire_rows(loaded))
}

impl CatalogStore {
    /// Applies one upsert without validation and without refreshing
    /// the caches, as `apply_upsert` says; CSV rows are persisted
    /// through it.
    fn upsert_raw(&mut self, d: String, b: String, v: String, price_cents: u64, upd: String)
        requires
            old(self).wf(),
        ensures
            final(self).wf(),
            final(self)@.records == apply_upsert(
                old(self)@.records,
                old(self)@.next_id,
                d@,
                b@,
                v@,
                price_cents as int,
                upd@,
            ).0,
            final(self)@.next_id == apply_upsert(
                old(self)@.records,
                old(self)@.next_id,
                d@,
                b@,
                v@,
                price_cents as int,
                upd@,
            ).1,
            final(self)@.loaded == old(self)@.loaded,
            final(self)@.visible == old(self)@.visible,
            final(self)@.last_query == old(self)@.last_query,
    {
        let ghost rs1 = self@.records;
        match self.find_by_triple(d.as_str(), b.as_str(), v.as_str()) {
            Some(i) => {
                let ghost ti = i as int;
                let old_rec = self.records.remove(i);
                let rec = Record {
                    id: old_rec.id,
                    description: d,
                    brand: b,
                    vendor: v,
                    price_cents,
                    updated_at: upd,
                };
                let ghost nv = rec@;
                self.records.insert(i, rec);
                proof {
                    let rs2 = recs_view(self.records@);
                    assert(rs2 =~= rs1.update(ti, nv));
                    assert forall|k: int| 0 <= k < rs2.len() implies rs2[k].id == rs1[k].id
                        && triple(rs2[k]) == triple(rs1[k]) by {
                        if k == ti {
                            assert(matches_triple(rs1[ti], d@, b@, v@));
                        }
                    }
                    assert(wf_recs(rs2, self.next_id as int));
                }
            },
            None => {
                if self.next_id == u64::MAX {
                    return ;
                }
                let rec = Record {
                    id: self.next_id,
                    description: d,
                    brand: b,
                    vendor: v,
                    price_cents,
                    updated_at: upd,
                };
                let ghost nv = rec@;
                self.records.insert(0, rec);
                self.next_id = self.next_id + 1;
                proof {
                    let rs2 = recs_view(self.records@);
                    assert(rs2 =~= seq![nv] + rs1);
                    assert forall|a: int, b2: int| 0 <= a < b2 < rs2.len() implies rs2[a].id
                        > rs2[b2].id && triple(rs2[a]) != triple(rs2[b2]) by {
                        if a == 0 {
                            assert(rs2[b2] == rs1[b2 - 1]);
                            assert(1 <= rs1[b2 - 1].id < old(self)@.next_id);
                            assert(!matches_triple(rs1[b2 - 1], d@, b@, v@));
                        } else {
                            assert(rs2[a] == rs1[a - 1]);
                            assert(rs2[b2] == rs1[b2 - 1]);
                        }
                    }
                    assert(wf_recs(rs2, self.next_id as int));
                }
            },
        }
    }
}

impl CatalogStore {
    /// Renders the whole current loaded set as the transfer text: a
    /// byte-order mark, the fixed header line, then one line per
    /// record in its in-memory order, prices in wire format.
    pub fn export_csv(&self) -> (r: String)
        ensures
            r@ == export_text(self@.loaded),
    {
        let mut out = String::new();
        push_char(&mut out, '\u{feff}');
        let mut hdr: Vec<String> = Vec::new();
        hdr.push("descrição".to_owned());
        hdr.push("marca".to_owned());
        hdr.push("fornecedor".to_owned());
        hdr.push("preço".to_owned());
        hdr.push("última atualização".to_owned());
        proof {
            assert(views_of(hdr@) =~= header_fields());
        }
        encode_row(&mut out, &hdr);
        let ghost lv = self@.loaded;
        let ghost head = seq!['\u{feff}'] + enc_record(header_fields());
        proof {
            assert(out@ == head);
        }
        let n = self.loaded.len();
        let mut i: usize = 0;
        while i < n
            invariant
                0 <= i <= n,
                n == self.loaded@.len(),
                lv == recs_view(self.loaded@),
                lv.len() == n,
                out@ == head + enc_rows(wire_rows(lv.take(i as int))),
            decreases n - i,
        {
            proof {
                assert(lv[i as int] == self.loaded@[i as int]@);
            }
            let rec = &self.loaded[i];
            let mut fs: Vec<String> = Vec::new();
            fs.push(rec.description.clone());
            fs.push(rec.brand.clone());
            fs.push(rec.vendor.clone());
            fs.push(format_money_wire(rec.price_cents));
            fs.push(rec.updated_at.clone());
            proof {
                assert(views_of(fs@) =~= wire_fields(lv[i as int]));
                lemma_enc_rows_push(wire_rows(lv.take(i as int)), wire_fields(lv[i as int]));
                assert(wire_rows(lv.take(i as int + 1)) =~= wire_rows(lv.take(i as int)).push(
                    wire_fields(lv[i as int]),
                ));
            }
            encode_row(&mut out, &fs);
            proof {
                assert(out@ =~= head + enc_rows(wire_rows(lv.take(i as int + 1))));
            }
            i = i + 1;
        }
        proof {
            assert(lv.take(n as int) == lv);
            assert(out@ == export_text(lv));
        }
        out
    }

    /// Imports the transfer text: the first line is skipped as the
    /// header, every further line is trimmed field-wise and upserted
    /// with its own date text, and a line whose price does not parse
    /// is skipped and recorded under its 1-based data-row number. The
    /// loaded set is refreshed afterwards.
    pub fn import_csv(&mut self, content: &str) -> (r: ImportSummary)
        requires
            old(self).wf(),
        ensures
            final(self).wf(),
            final(self)@.last_query == old(self)@.last_query,
            ({
                let rows = p_rows(content@, 0);
                let data = if rows.len() == 0 {
                    rows
                } else {
                    rows.drop_first()
                };
                let out = import_rows_spec(old(self)@.records, old(self)@.next_id, data, 1);
                &&& final(self)@.records == out.0
                &&& final(self)@.next_id == out.1
                &&& errs_view(r.skipped@) == out.2
                &&& r.applied == out.3
                &&& final(self)@.loaded == final(self)@.records
                &&& final(self)@.visible == final(self)@.records
            }),
    {
        let rows = parse_rows(content);
        let ghost rowsv = rows_views(rows@);
        let ghost data = if rowsv.len() == 0 {
            rowsv
        } else {
            rowsv.drop_first()
        };
        let ghost full = import_rows_spec(self@.records, self@.next_id, data, 1);
        let mut skipped: Vec<RowError> = Vec::new();
        let mut applied: usize = 0;
        let nrows = rows.len();
        if nrows > 0 {
            proof {
                assert(data.skip(0) == data);
                assert(errs_view(skipped@) =~= Seq::<RowErrV>::empty());
            }
            let mut k: usize = 1;
            while k < nrows
                invariant
                    1 <= k <= nrows,
                    nrows == rows@.len(),
                    rowsv == rows_views(rows@),
                    rowsv.len() == nrows,
                    data == rowsv.drop_first(),
                    data.len() == nrows - 1,
                    self.wf(),
                    self@.loaded == old(self)@.loaded,
                    self@.visible == old(self)@.visible,
                    self@.last_query == old(self)@.last_query,
                    applied <= k - 1,
                    full == import_rows_spec(
                        old(self)@.records,
                        old(self)@.next_id,
                        data,
                        1,
                    ),
                    ({
                        let cur = import_rows_spec(
                            self@.records,
                            self@.next_id,
                            data.skip(k - 1),
                            k as int,
                        );
                        full.0 == cur.0 && full.1 == cur.1 && full.2 == errs_view(skipped@)
                            + cur.2 && full.3 == applied + cur.3
                    }),
                decreases nrows - k,
            {
                let ghost rowv = data[k - 1];
                let ghost rest = data.skip(k as int);
                proof {
                    assert(rowsv[k as int] == views_of(rows@[k as int]@));
                    assert(data[k - 1] == rowsv[k as int]);
                    assert(data.skip(k - 1)[0] == data[k - 1]);
                    assert(data.skip(k - 1).drop_first() =~= data.skip(k as int));
                    reveal_strlit("");
                    reveal_strlit("0");
                    assert(""@ =~= Seq::<char>::empty());
                }
                let row = &rows[k];
                let d = trim(if row.len() > 0 {
                    row[0].as_str()
                } else {
                    ""
                });
                let b = trim(if row.len() > 1 {
                    row[1].as_str()
                } else {
                    ""
                });
                let v = trim(if row.len() > 2 {
                    row[2].as_str()
                } else {
                    ""
                });
                let praw = trim(if row.len() > 3 {
                    row[3].as_str()
                } else {
                    "0"
                });
                let upd = trim(if row.len() > 4 {
                    row[4].as_str()
                } else {
                    ""
                });
                proof {
                    assert(forall|j: int|
                        0 <= j < rowv.len() ==> #[trigger] rowv[j] == rows@[k as int]@[j]@);
                    assert(d@ == row_d(rowv));
                    assert(b@ == row_b(rowv));
                    assert(v@ == row_v(rowv));
                    assert(praw@ == row_praw(rowv));
                    assert(upd@ == row_upd(rowv));
                }
                let ghost pre_records = self@.records;
                let ghost pre_next = self@.next_id;
                let ghost pre_skipped = skipped@;
                match parse_wire(praw.as_str()) {
                    Some(p) => {
                        proof {
                            crate::money::lemma_parse_wire_nonneg(praw@);
                            assert(row_ok(rowv));
                            assert(p as int == row_price(rowv));
                        }
                        self.upsert_raw(d, b, v, p, upd);
                        applied = applied + 1;
                        proof {
                            let cur_pre = import_rows_spec(
                                pre_records,
                                pre_next,
                                data.skip(k - 1),
                                k as int,
                            );
                            let cur_post = import_rows_spec(
                                self@.records,
                                self@.next_id,
                                rest,
                                k as int + 1,
                            );
                            assert(cur_pre.0 == cur_post.0 && cur_pre.1 == cur_post.1
                                && cur_pre.2 == cur_post.2 && cur_pre.3 == cur_post.3 + 1);
                        }
                    },
                    None => {
                        proof {
                            assert(!row_ok(rowv));
                        }
                        skipped.push(RowError { row: k, raw_price: praw });
                        proof {
                            let cur_pre = import_rows_spec(
                                pre_records,
                                pre_next,
                                data.skip(k - 1),
                                k as int,
                            );
                            let cur_post = import_rows_spec(
                                self@.records,
                                self@.next_id,
                                rest,
                                k as int + 1,
                            );
                            assert(errs_view(skipped@) =~= errs_view(pre_skipped).push(
                                RowErrV { row: k as int, raw_price: praw@ },
                            ));
                            assert(cur_pre.2 =~= seq![
                                (RowErrV { row: k as int, raw_price: praw@ }),
                            ] + cur_post.2);
                            assert(errs_view(pre_skipped) + cur_pre.2 =~= errs_view(skipped@)
                                + cur_post.2);
                        }
                    },
                }
                k = k + 1;
            }
            proof {
                assert(data.skip(k - 1) =~= Seq::<Seq<Seq<char>>>::empty());
                let cur = import_rows_spec(
                    self@.records,
                    self@.next_id,
                    data.skip(k - 1),
                    k as int,
                );
                assert(cur.0 == self@.records && cur.1 == self@.next_id && cur.2
                    == Seq::<RowErrV>::empty() && cur.3 == 0);
                assert(full.2 =~= errs_view(skipped@));
            }
        } else {
            proof {
                assert(data.len() == 0);
                assert(errs_view(skipped@) =~= Seq::<RowErrV>::empty());
            }
        }
        self.refresh();
        ImportSummary { applied, skipped }
    }
}

proof fn lemma_find_triple_props(rs: Seq<RecV>, d: Seq<char>, b: Seq<char>, v: Seq<char>)
    ensures
        has_triple(rs, d, b, v) ==> ({
            let fi = find_triple_spec(rs, d, b, v);
            0 <= fi < rs.len() && matches_triple(rs[fi], d, b, v) && forall|i: int|
                0 <= i < fi ==> !matches_triple(#[trigger] rs[i], d, b, v)
        }),
        !has_triple(rs, d, b, v) ==> find_triple_spec(rs, d, b, v) == -1,
    decreases rs.len(),
{
    if rs.len() == 0 {
    } else if matches_triple(rs[0], d, b, v) {
    } else {
        let t = rs.drop_first();
        lemma_find_triple_props(t, d, b, v);
        assert(forall|i: int| 0 <= i < t.len() ==> #[trigger] t[i] == rs[i + 1]);
        if has_triple(rs, d, b, v) {
            let w = choose|i: int| 0 <= i < rs.len() && matches_triple(#[trigger] rs[i], d, b, v);
            assert(w >= 1);
            assert(matches_triple(t[w - 1], d, b, v));
            assert(has_triple(t, d, b, v));
            let fi = find_triple_spec(rs, d, b, v);
            assert(fi == find_triple_spec(t, d, b, v) + 1);
            assert forall|i: int| 0 <= i < fi implies !matches_triple(#[trigger] rs[i], d, b, v) by {
                if i >= 1 {
                    assert(!matches_triple(t[i - 1], d, b, v));
                }
            }
        } else {
            if has_triple(t, d, b, v) {
                let w = choose|i: int|
                    0 <= i < t.len() && matches_triple(#[trigger] t[i], d, b, v);
                assert(matches_triple(rs[w + 1], d, b, v));
            }
        }
    }
}

/// Law: one upsert leaves the store well-formed with exactly one
/// record carrying the key, holding the given price and date text. A
/// fresh key is inserted in front under the next id, growing the count
/// by one; an existing key keeps its place, id and the count.
pub proof fn lemma_upsert_once(
    rs: Seq<RecV>,
    next_id: int,
    d: Seq<char>,
    b: Seq<char>,
    v: Seq<char>,
    p: int,
    upd: Seq<char>,
)
    requires
        wf_recs(rs, next_id),
        1 <= next_id,
        has_triple(rs, d, b, v) || next_id < u64::MAX as int,
    ensures
        ({
            let out = apply_upsert(rs, next_id, d, b, v, p, upd);
            let ti = find_triple_spec(out.0, d, b, v);
            &&& wf_recs(out.0, out.1)
            &&& has_triple(out.0, d, b, v)
            &&& (forall|i: int, j: int|
                0 <= i < out.0.len() && 0 <= j < out.0.len() && matches_triple(
                    #[trigger] out.0[i],
                    d,
                    b,
                    v,
                ) && matches_triple(#[trigger] out.0[j], d, b, v) ==> i == j)
            &&& 0 <= ti < out.0.len()
            &&& matches_triple(out.0[ti], d, b, v)
            &&& out.0[ti].price_cents == p
            &&& out.0[ti].updated_at == upd
            &&& (has_triple(rs, d, b, v) ==> out.0.len() == rs.len() && ti == find_triple_spec(
                rs,
                d,
                b,
                v,
            ) && out.0[ti].id == rs[ti].id && out.1 == next_id)
            &&& (!has_triple(rs, d, b, v) ==> out.0.len() == rs.len() + 1 && ti == 0
                && out.0[0].id == next_id && out.1 == next_id + 1)
        }),
{
    let out = apply_upsert(rs, next_id, d, b, v, p, upd);
    lemma_find_triple_props(rs, d, b, v);
    if has_triple(rs, d, b, v) {
        let fi = find_triple_spec(rs, d, b, v);
        let nv = RecV {
            id: rs[fi].id,
            description: d,
            brand: b,
            vendor: v,
            price_cents: p,
            updated_at: upd,
        };
        assert(out.0 == rs.update(fi, nv));
        assert forall|k: int| 0 <= k < out.0.len() implies out.0[k].id == rs[k].id && triple(
            out.0[k],
        ) == triple(rs[k]) by {
            if k == fi {
                assert(matches_triple(rs[fi], d, b, v));
            }
        }
        assert(wf_recs(out.0, out.1));
        assert(matches_triple(out.0[fi], d, b, v));
        assert(has_triple(out.0, d, b, v));
        assert forall|i: int| 0 <= i < fi implies !matches_triple(
            #[trigger] out.0[i],
            d,
            b,
            v,
        ) by {
            assert(triple(out.0[i]) == triple(rs[i]));
            assert(!matches_triple(rs[i], d, b, v));
        }
        lemma_find_triple_at(out.0, d, b, v, fi);
        assert forall|i: int, j: int|
            0 <= i < out.0.len() && 0 <= j < out.0.len() && matches_triple(
                #[trigger] out.0[i],
                d,
                b,
                v,
            ) && matches_triple(#[trigger] out.0[j], d, b, v) implies i == j by {
            if i < j {
                assert(triple(out.0[i]) != triple(out.0[j]));
            } else if j < i {
                assert(triple(out.0[j]) != triple(out.0[i]));
            }
        }
    } else {
        let nv = RecV {
            id: next_id,
            description: d,
            brand: b,
            vendor: v,
            price_cents: p,
            updated_at: upd,
        };
        assert(out.0 == seq![nv] + rs);
        assert forall|i: int, j: int| 0 <= i < j < out.0.len() implies out.0[i].id > out.0[j].id
            && triple(out.0[i]) != triple(out.0[j]) by {
            if i == 0 {
                assert(out.0[j] == rs[j - 1]);
                assert(1 <= rs[j - 1].id < next_id);
                assert(!matches_triple(rs[j - 1], d, b, v));
            } else {
                assert(out.0[i] == rs[i - 1]);
                assert(out.0[j] == rs[j - 1]);
            }
        }
        assert forall|k: int| 0 <= k < out.0.len() implies 1 <= (#[trigger] out.0[k]).id
            < out.1 by {
            if k > 0 {
                assert(out.0[k] == rs[k - 1]);
            }
        }
        assert(wf_recs(out.0, out.1));
        assert(matches_triple(out.0[0], d, b, v));
        lemma_find_triple_at(out.0, d, b, v, 0);
        assert(has_triple(out.0, d, b, v));
        assert forall|i: int, j: int|
            0 <= i < out.0.len() && 0 <= j < out.0.len() && matches_triple(
                #[trigger] out.0[i],
                d,
                b,
                v,
            ) && matches_triple(#[trigger] out.0[j], d, b, v) implies i == j by {
            if i < j {
                assert(triple(out.0[i]) != triple(out.0[j]));
            } else if j < i {
                assert(triple(out.0[j]) != triple(out.0[i]));
            }
        }
    }
}

/// Law: a second upsert with the same key and another price rewrites
/// the price and date in place, keeping the record's id, the record
/// count and the next id.
pub proof fn lemma_upsert_twice(
    rs: Seq<RecV>,
    next_id: int,
    d: Seq<char>,
    b: Seq<char>,
    v: Seq<char>,
    p1: int,
    upd1: Seq<char>,
    p2: int,
    upd2: Seq<char>,
)
    requires
        wf_recs(rs, next_id),
        1 <= next_id < u64::MAX as int,
    ensures
        ({
            let o1 = apply_upsert(rs, next_id, d, b, v, p1, upd1);
            let o2 = apply_upsert(o1.0, o1.1, d, b, v, p2, upd2);
            let t1 = find_triple_spec(o1.0, d, b, v);
            let t2 = find_triple_spec(o2.0, d, b, v);
            &&& o2.0.len() == o1.0.len()
            &&& o2.1 == o1.1
            &&& t2 == t1
            &&& o2.0[t2].id == o1.0[t1].id
            &&& o2.0[t2].price_cents == p2
            &&& o2.0[t2].updated_at == upd2
        }),
{
    let o1 = apply_upsert(rs, next_id, d, b, v, p1, upd1);
    lemma_upsert_once(rs, next_id, d, b, v, p1, upd1);
    assert(1 <= o1.1);
    assert(o1.1 <= next_id + 1);
    lemma_upsert_once(o1.0, o1.1, d, b, v, p2, upd2);
    let o2 = apply_upsert(o1.0, o1.1, d, b, v, p2, upd2);
    let t1 = find_triple_spec(o1.0, d, b, v);
    assert(has_triple(o1.0, d, b, v));
    assert(o2.0.len() == o1.0.len());
}

/// Two records agree on key and price.
pub open spec fn same_quad(a: RecV, b: RecV) -> bool {
    a.description == b.description && a.brand == b.brand && a.vendor == b.vendor && a.price_cents
        == b.price_cents
}

/// A record whose text fields carry no leading or trailing whitespace,
/// which the import's field trimming would remove.
pub open spec fn trim_stable(r: RecV) -> bool {
    trim_spec(r.description) == r.description && trim_spec(r.brand) == r.brand && trim_spec(
        r.vendor,
    ) == r.vendor
}

proof fn lemma_wire_fmt_trim(p: int)
    requires
        p >= 0,
    ensures
        trim_spec(wire_fmt(p)) == wire_fmt(p),
        spec_parse_wire(wire_fmt(p)) == Some(p) || p > u64::MAX,
{
    crate::money::lemma_wire_fmt_chars(p);
    let w = wire_fmt(p);
    assert(!crate::textutil::is_ws_char(w[0]));
    assert(!crate::textutil::is_ws_char(w[w.len() - 1]));
    crate::textutil::lemma_trim_noop(w);
    if p <= u64::MAX {
        crate::money::lemma_wire_roundtrip(p as u64);
    }
}

proof fn lemma_import_wire_tail(loaded: Seq<RecV>, m: int, acc: Seq<RecV>, next: int)
    requires
        0 <= m <= loaded.len(),
        loaded.len() < u64::MAX as int,
        forall|i: int, j: int|
            0 <= i < j < loaded.len() ==> triple(#[trigger] loaded[i]) != triple(
                #[trigger] loaded[j],
            ),
        forall|i: int| 0 <= i < loaded.len() ==> trim_stable(#[trigger] loaded[i]),
        forall|i: int|
            0 <= i < loaded.len() ==> 0 <= (#[trigger] loaded[i]).price_cents
                <= u64::MAX as int,
        acc.len() == m,
        forall|j: int| 0 <= j < m ==> same_quad(#[trigger] acc[j], loaded[m - 1 - j]),
        1 <= next,
        next + (loaded.len() - m) <= u64::MAX as int,
    ensures
        ({
            let out = import_rows_spec(acc, next, wire_rows(loaded).skip(m), m + 1);
            &&& out.0.len() == loaded.len()
            &&& out.2 == Seq::<RowErrV>::empty()
            &&& out.3 == loaded.len() - m
            &&& forall|i: int|
                0 <= i < loaded.len() ==> same_quad(
                    #[trigger] out.0[loaded.len() - 1 - i],
                    loaded[i],
                )
        }),
    decreases loaded.len() - m,
{
    let rows = wire_rows(loaded).skip(m);
    if m == loaded.len() {
        assert(rows.len() == 0);
        let out = import_rows_spec(acc, next, rows, m + 1);
        assert(out.0 == acc);
        assert forall|i: int| 0 <= i < loaded.len() implies same_quad(
            #[trigger] out.0[loaded.len() - 1 - i],
            loaded[i],
        ) by {
            assert(same_quad(acc[loaded.len() - 1 - i], loaded[m - 1 - (loaded.len() - 1 - i)]));
        }
    } else {
        let r = loaded[m];
        let row = wire_fields(r);
        assert(rows[0] == wire_rows(loaded)[m]);
        assert(wire_rows(loaded)[m] == row);
        assert(rows.drop_first() =~= wire_rows(loaded).skip(m + 1));
        assert(row.len() == 5);
        assert(row_d(row) == trim_spec(r.description));
        assert(row_b(row) == trim_spec(r.brand));
        assert(row_v(row) == trim_spec(r.vendor));
        assert(row_praw(row) == trim_spec(wire_fmt(r.price_cents)));
        assert(trim_stable(r));
        lemma_wire_fmt_trim(r.price_cents);
        assert(row_praw(row) == wire_fmt(r.price_cents));
        assert(spec_parse_wire(row_praw(row)) == Some(r.price_cents));
        assert(row_ok(row));
        assert(row_price(row) == r.price_cents);
        // the key is fresh: every accumulated key comes from an earlier
        // record, and keys are distinct
        assert(!has_triple(acc, row_d(row), row_b(row), row_v(row))) by {
            if has_triple(acc, row_d(row), row_b(row), row_v(row)) {
                let j = choose|j: int|
                    0 <= j < acc.len() && matches_triple(
                        #[trigger] acc[j],
                        row_d(row),
                        row_b(row),
                        row_v(row),
                    );
                assert(same_quad(acc[j], loaded[m - 1 - j]));
                assert(triple(loaded[m - 1 - j]) == triple(loaded[m]));
                assert(false);
            }
        }
        let up = apply_upsert(acc, next, row_d(row), row_b(row), row_v(row), row_price(row),
            row_upd(row));
        let nv = RecV {
            id: next,
            description: row_d(row),
            brand: row_b(row),
            vendor: row_v(row),
            price_cents: row_price(row),
            updated_at: row_upd(row),
        };
        assert(next < u64::MAX as int);
        assert(up.0 == seq![nv] + acc);
        assert(up.1 == next + 1);
        let acc2 = up.0;
        assert forall|j: int| 0 <= j < m + 1 implies same_quad(
            #[trigger] acc2[j],
            loaded[m + 1 - 1 - j],
        ) by {
            if j == 0 {
                assert(acc2[0] == nv);
            } else {
                assert(acc2[j] == acc[j - 1]);
                assert(same_quad(acc[j - 1], loaded[m - 1 - (j - 1)]));
            }
        }
        lemma_import_wire_tail(loaded, m + 1, acc2, next + 1);
        let rest = import_rows_spec(acc2, next + 1, rows.drop_first(), m + 2);
        let out = import_rows_spec(acc, next, rows, m + 1);
        assert(out.0 == rest.0 && out.1 == rest.1 && out.2 == rest.2 && out.3 == rest.3 + 1);
    }
}

/// Law: exporting the loaded set and importing the text into an empty
/// store reproduces every record's key and price, with no skipped rows.
/// The imported records stand in reverse order, each freshly inserted
/// in front. Text fields must be free of surrounding whitespace, which
/// the import would trim away, and keys must be distinct, as they are
/// in any well-formed store.
pub proof fn lemma_export_import_roundtrip(loaded: Seq<RecV>)
    requires
        loaded.len() < u64::MAX as int,
        forall|i: int, j: int|
            0 <= i < j < loaded.len() ==> triple(#[trigger] loaded[i]) != triple(
                #[trigger] loaded[j],
            ),
        forall|i: int| 0 <= i < loaded.len() ==> trim_stable(#[trigger] loaded[i]),
        forall|i: int|
            0 <= i < loaded.len() ==> 0 <= (#[trigger] loaded[i]).price_cents
                <= u64::MAX as int,
    ensures
        ({
            let rows = p_rows(export_text(loaded), 0);
            let out = import_rows_spec(Seq::empty(), 1, rows.drop_first(), 1);
            &&& rows.len() == loaded.len() + 1
            &&& out.0.len() == loaded.len()
            &&& out.2 == Seq::<RowErrV>::empty()
            &&& out.3 == loaded.len()
            &&& forall|i: int|
                0 <= i < loaded.len() ==> same_quad(
                    #[trigger] out.0[loaded.len() - 1 - i],
                    loaded[i],
                )
        }),
{
    let h = header_fields();
    let h0 = "descrição"@;
    lemma_header_field_unquoted();
    let hb = seq!['\u{feff}'] + h0;
    assert(!needs_quote(hb)) by {
        if needs_quote(hb) {
            let k = choose|k: int|
                0 <= k < hb.len() && (#[trigger] hb[k] == ';' || hb[k] == '"' || hb[k] == '\n'
                    || hb[k] == '\r');
            if k == 0 {
            } else {
                assert(hb[k] == h0[k - 1]);
                assert(needs_quote(h0));
            }
        }
    }
    let hp = h.update(0, hb);
    assert(enc_field(hb) == hb);
    assert(enc_field(h0) == h0);
    assert(hp.drop_first() =~= h.drop_first());
    assert(enc_record(hp) == enc_field(hb) + seq![';'] + enc_record(hp.drop_first()));
    assert(enc_record(h) == enc_field(h0) + seq![';'] + enc_record(h.drop_first()));
    let text = export_text(loaded);
    let w = wire_rows(loaded);
    assert(text =~= enc_record(hp) + enc_rows(w));
    let allrows = seq![hp] + w;
    assert(allrows[0] == hp);
    assert(allrows.drop_first() =~= w);
    assert(enc_rows(allrows) == enc_record(hp) + enc_rows(w));
    assert(text =~= enc_rows(allrows));
    assert forall|k: int| 0 <= k < allrows.len() implies (#[trigger] allrows[k]).len() >= 1 by {
        if k > 0 {
            assert(allrows[k] == w[k - 1]);
            assert(w[k - 1] == wire_fields(loaded[k - 1]));
        }
    }
    assert forall|k: int| 0 <= k < allrows.len() implies #[trigger] allrows[k] != seq![
        Seq::<char>::empty(),
    ] by {
        if k > 0 {
            assert(allrows[k] == w[k - 1]);
            assert(w[k - 1] == wire_fields(loaded[k - 1]));
            assert(allrows[k].len() == 5);
        } else {
            assert(allrows[0].len() == 5);
        }
    }
    assert(text.subrange(0, text.len() as int) =~= enc_rows(allrows));
    crate::csvfmt::lemma_p_rows_enc(text, 0, allrows);
    let rows = p_rows(text, 0);
    assert(rows == allrows);
    assert(rows.drop_first() == w);
    assert(w.skip(0) =~= w);
    lemma_import_wire_tail(loaded, 0, Seq::empty(), 1);
}

proof fn lemma_header_field_unquoted()
    ensures
        !needs_quote("descrição"@),
        enc_field("descrição"@) == "descrição"@,
{
    reveal_strlit("descrição");
    let s = "descrição"@;
    assert forall|k: int| 0 <= k < s.len() implies !(#[trigger] s[k] == ';' || s[k] == '"'
        || s[k] == '\n' || s[k] == '\r') by {
        if k == 0 {
            assert(s[0] == 'd');
        } else if k == 1 {
            assert(s[1] == 'e');
        } else if k == 2 {
            assert(s[2] == 's');
        } else if k == 3 {
            assert(s[3] == 'c');
        } else if k == 4 {
            assert(s[4] == 'r');
        } else if k == 5 {
            assert(s[5] == 'i');
        } else if k == 6 {
            assert(s[6] == 'ç');
        } else if k == 7 {
            assert(s[7] == 'ã');
        } else {
            assert(s[8] == 'o');
        }
    }
    if needs_quote(s) {
        let k = choose|k: int|
            0 <= k < s.len() && (#[trigger] s[k] == ';' || s[k] == '"' || s[k] == '\n' || s[k]
                == '\r');
        assert(false);
    }
}

/// A copy of a record with the same content.
pub fn clone_record(r: &Record) -> (c: Record)
    ensures
        c@ == r@,
{
    Record {
        id: r.id,
        description: r.description.clone(),
        brand: r.brand.clone(),
        vendor: r.vendor.clone(),
        price_cents: r.price_cents,
        updated_at: r.updated_at.clone(),
    }
}

/// A copy of a record vector with the same contents.
pub fn clone_records(v: &Vec<Record>) -> (c: Vec<Record>)
    ensures
        recs_view(c@) == recs_view(v@),
{
    let mut out: Vec<Record> = Vec::new();
    let mut i: usize = 0;
    while i < v.len()
        invariant
            0 <= i <= v@.len(),
            out@.len() == i,
            forall|j: int| 0 <= j < i ==> #[trigger] out@[j]@ == v@[j]@,
        decreases v@.len() - i,
    {
        out.push(clone_record(&v[i]));
        i = i + 1;
    }
    proof {
        assert(recs_view(out@) =~= recs_view(v@));
    }
    out
}

} // verus!
