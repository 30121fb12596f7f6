//! Per-key accumulation: the accumulator map one file produces, the
//! classification of its rows, and the merge of many partial maps into the
//! combined map.
use vstd::arithmetic::div_mod::{lemma_add_mod_noop, lemma_mod_bound, lemma_small_mod};
use vstd::prelude::*;

use crate::codec::csv_records;
use crate::codec::gunzip;
use crate::codec::gunzip_of;
use crate::codec::records_of;
use crate::order::bytes_eq;
use crate::order::bytes_lt;
use crate::order::lemma_lex_lt_irrefl;
use crate::order::lemma_lex_lt_total;
use crate::order::lemma_lex_lt_trans;
use crate::order::lex_lt;
use crate::value::parse_u64;
use crate::value::parse_u64_spec;
use crate::value::trim_bytes;
use crate::value::trim_spec;

verus! {

/// One more than `u64::MAX`: the modulus of the 64-bit sum.
pub open spec fn u64_modulus() -> nat {
    (u64::MAX as nat) + 1
}

/// The exact (unbounded) total of a sequence of values.
pub open spec fn total_of(vs: Seq<u64>) -> nat
    decreases vs.len(),
{
    if vs.len() == 0 {
        0
    } else {
        (total_of(vs.drop_last()) + vs.last()) as nat
    }
}

/// The 64-bit sum of a sequence of values: its exact total reduced modulo
/// 2^64, as repeated wrapping addition computes it.
pub open spec fn wrap_sum(vs: Seq<u64>) -> u64 {
    (total_of(vs) % u64_modulus()) as u64
}

/// Appending a value adds it to the exact total.
pub proof fn lemma_total_push(vs: Seq<u64>, v: u64)
    ensures
        total_of(vs.push(v)) == total_of(vs) + v,
{
    assert(vs.push(v).drop_last() =~= vs);
    assert(vs.push(v).last() == v);
}

/// Wrapping addition of one value onto a running 64-bit sum tracks the total.
pub proof fn lemma_wrap_sum_push(vs: Seq<u64>, v: u64)
    ensures
        wrap_sum(vs.push(v)) == vstd::wrapping::u64_specs::wrapping_add(wrap_sum(vs), v),
{
    lemma_total_push(vs, v);
    let t = total_of(vs);
    let m = u64_modulus();
    lemma_mod_bound(t as int, m as int);
    lemma_small_mod(v as nat, m);
    lemma_add_mod_noop(t as int, v as int, m as int);
    let x = wrap_sum(vs);
    assert(((t + v) as nat) % m == ((x + v) as nat) % m);
    if x + v > u64::MAX {
        lemma_mod_bound((x + v) as int, m as int);
        lemma_small_mod((x + v - m) as nat, m);
        lemma_add_mod_noop((x + v - m) as int, m as int, m as int);
        vstd::arithmetic::div_mod::lemma_mod_self_0(m as int);
        assert(((x + v) as nat) % m == ((x + v - m) as nat) % m);
    } else {
        lemma_small_mod((x + v) as nat, m);
    }
}

/// Concatenation adds exact totals.
pub proof fn lemma_total_concat(a: Seq<u64>, b: Seq<u64>)
    ensures
        total_of(a + b) == total_of(a) + total_of(b),
    decreases b.len(),
{
    if b.len() == 0 {
        assert(a + b =~= a);
    } else {
        lemma_total_concat(a, b.drop_last());
        assert((a + b).drop_last() =~= a + b.drop_last());
        assert((a + b).last() == b.last());
    }
}

/// Copies a byte string.
pub(crate) fn copy_bytes(v: &Vec<u8>) -> (r: Vec<u8>)
    ensures
        r@ == v@,
{
    let mut r: Vec<u8> = Vec::new();
    let mut i: usize = 0;
    while i < v.len()
        invariant
            i <= v.len(),
            r@ =~= v@.subrange(0, i as int),
        decreases v.len() - i,
    {
        r.push(v[i]);
        proof {
            assert(r@ =~= v@.subrange(0, i + 1));
        }
        i = i + 1;
    }
    proof {
        assert(r@ =~= v@);
    }
    r
}

/// Copies a record's field list.
fn copy_fields(v: &Vec<Vec<u8>>) -> (r: Vec<Vec<u8>>)
    ensures
        r.deep_view() == v.deep_view(),
{
    let mut r: Vec<Vec<u8>> = Vec::new();
    let mut i: usize = 0;
    while i < v.len()
        invariant
            i <= v.len(),
            r@.len() == i,
            forall|m: int| 0 <= m < i ==> (#[trigger] r@[m]).deep_view() == v@[m].deep_view(),
        decreases v.len() - i,
    {
        let c = copy_bytes(&v[i]);
        proof {
            assert(c.deep_view() =~= v@[i as int].deep_view());
        }
        r.push(c);
        i = i + 1;
    }
    proof {
        let dv = r.deep_view();
        let sv = v.deep_view();
        assert forall|m: int| 0 <= m < v@.len() implies dv[m] == sv[m] by {
            assert(r@[m].deep_view() == v@[m].deep_view());
        }
        assert(dv =~= sv);
    }
    r
}

/// One key's accumulator: the 64-bit sum of the key's valid values, and the
/// values themselves, in the order processed. The squared statistic of the
/// report is floating point, which the verified library does not carry; the
/// value list is exactly what the caller needs to derive it.
pub struct Entry {
    pub key: Vec<u8>,
    pub sum: u64,
    pub values: Vec<u64>,
}

/// A map from key to accumulator, kept as a vector of entries sorted
/// strictly ascending by key in byte-lexicographic order.
pub struct StatsMap {
    pub entries: Vec<Entry>,
}

impl StatsMap {
    /// Well-formed: keys strictly ascend (so are distinct), every entry holds
    /// at least one value, and every sum is the wrapped total of its values.
    pub open spec fn wf(self) -> bool {
        &&& forall|i: int|
            0 <= i < self.entries@.len() ==> (#[trigger] self.entries@[i]).sum == wrap_sum(
                self.entries@[i].values@,
            )
        &&& forall|i: int|
            0 <= i < self.entries@.len() ==> (#[trigger] self.entries@[i]).values@.len() > 0
        &&& forall|i: int, j: int|
            0 <= i < j < self.entries@.len() ==> lex_lt(
                #[trigger] self.entries@[i].key@,
                #[trigger] self.entries@[j].key@,
            )
    }

    /// Whether some entry holds key `k`.
    pub open spec fn has_key(self, k: Seq<u8>) -> bool {
        exists|i: int| 0 <= i < self.entries@.len() && (#[trigger] self.entries@[i]).key@ == k
    }

    /// The index of the entry holding key `k`.
    pub open spec fn key_index(self, k: Seq<u8>) -> int {
        choose|i: int| 0 <= i < self.entries@.len() && (#[trigger] self.entries@[i]).key@ == k
    }

    /// The values accumulated under key `k`, empty when the key is absent.
    pub open spec fn vals_at(self, k: Seq<u8>) -> Seq<u64> {
        if self.has_key(k) {
            self.entries@[self.key_index(k)].values@
        } else {
            Seq::empty()
        }
    }

    /// The 64-bit sum recorded for key `k` (0 when the key is absent).
    pub open spec fn sum_at(self, k: Seq<u8>) -> u64 {
        wrap_sum(self.vals_at(k))
    }

    /// A well-formed map's keys are pairwise distinct.
    pub proof fn lemma_distinct_keys(self)
        requires
            self.wf(),
        ensures
            forall|i: int, j: int|
                0 <= i < self.entries@.len() && 0 <= j < self.entries@.len() && i != j
                    ==> (#[trigger] self.entries@[i]).key@ != (#[trigger] self.entries@[j]).key@,
    {
        assert forall|i: int, j: int|
            0 <= i < self.entries@.len() && 0 <= j < self.entries@.len() && i != j implies (
        #[trigger] self.entries@[i]).key@ != (#[trigger] self.entries@[j]).key@ by {
            if self.entries@[i].key@ == self.entries@[j].key@ {
                if i < j {
                    assert(lex_lt(self.entries@[i].key@, self.entries@[j].key@));
                } else {
                    assert(lex_lt(self.entries@[j].key@, self.entries@[i].key@));
                }
                lemma_lex_lt_irrefl(self.entries@[i].key@);
            }
        }
    }

    /// In a well-formed map, entry `i` is what `vals_at` yields for its key.
    pub proof fn lemma_vals_at_index(self, i: int)
        requires
            self.wf(),
            0 <= i < self.entries@.len(),
        ensures
            self.has_key(self.entries@[i].key@),
            self.vals_at(self.entries@[i].key@) == self.entries@[i].values@,
    {
        self.lemma_distinct_keys();
        assert(self.has_key(self.entries@[i].key@));
        let j = self.key_index(self.entries@[i].key@);
        assert(self.entries@[j].key@ == self.entries@[i].key@);
        assert(j == i);
    }

    /// A well-formed map has a key exactly when it accumulated some value
    /// under it.
    pub proof fn lemma_has_key_iff(self)
        requires
            self.wf(),
        ensures
            forall|k: Seq<u8>| #[trigger] self.has_key(k) <==> self.vals_at(k).len() > 0,
    {
        assert forall|k: Seq<u8>| #[trigger] self.has_key(k) <==> self.vals_at(k).len() > 0 by {
            if self.has_key(k) {
                let i = self.key_index(k);
                assert(0 <= i < self.entries@.len() && self.entries@[i].key@ == k);
                assert(self.entries@[i].values@.len() > 0);
            }
        }
    }

    /// An empty accumulator map.
    pub fn new() -> (r: StatsMap)
        ensures
            r.wf(),
            r.entries@.len() == 0,
            forall|k: Seq<u8>| !(#[trigger] r.has_key(k)),
            forall|k: Seq<u8>| #[trigger] r.vals_at(k) == Seq::<u64>::empty(),
    {
        StatsMap { entries: Vec::new() }
    }

    /// Accumulates one valid row `(key, v)`: the key's value list grows by
    /// `v` (the 64-bit sum follows, wrapping), every other key is untouched.
    pub fn add_row(&mut self, key: &Vec<u8>, v: u64)
        requires
            old(self).wf(),
        ensures
            final(self).wf(),
            final(self).vals_at(key@) == old(self).vals_at(key@).push(v),
            forall|k: Seq<u8>|
                k != key@ ==> #[trigger] final(self).vals_at(k) == old(self).vals_at(k),
            forall|k: Seq<u8>|
                #[trigger] final(self).has_key(k) == (old(self).has_key(k) || k == key@),
    {
        let ghost m0 = *self;
        let mut i: usize = 0;
        loop
            invariant
                *self == m0,
                m0.wf(),
                i <= self.entries.len(),
                forall|j: int| 0 <= j < i ==> lex_lt((#[trigger] self.entries@[j]).key@, key@),
            ensures
                *self == m0,
                i <= self.entries.len(),
                forall|j: int| 0 <= j < i ==> lex_lt((#[trigger] self.entries@[j]).key@, key@),
                i < self.entries.len() ==> !lex_lt(self.entries@[i as int].key@, key@),
            decreases self.entries.len() - i,
        {
            if i == self.entries.len() {
                break ;
            }
            if bytes_lt(&self.entries[i].key, key) {
                i = i + 1;
            } else {
                break ;
            }
        }
        proof {
            m0.lemma_distinct_keys();
        }
        let found = i < self.entries.len() && bytes_eq(&self.entries[i].key, key);
        if found {
            let mut e = self.entries.remove(i);
            proof {
                lemma_wrap_sum_push(e.values@, v);
                m0.lemma_vals_at_index(i as int);
            }
            e.sum = e.sum.wrapping_add(v);
            e.values.push(v);
            self.entries.insert(i, e);
            proof {
                assert(self.entries@ =~= m0.entries@.update(i as int, e));
                let es = self.entries@;
                // Keys are unchanged, so order and distinctness carry over.
                assert forall|a: int, b: int| 0 <= a < b < es.len() implies lex_lt(
                    #[trigger] es[a].key@,
                    #[trigger] es[b].key@,
                ) by {
                    assert(es[a].key@ == m0.entries@[a].key@);
                    assert(es[b].key@ == m0.entries@[b].key@);
                }
                assert(self.wf());
                self.lemma_distinct_keys();
                assert(self.vals_at(key@) == old(self).vals_at(key@).push(v)) by {
                    self.lemma_vals_at_index(i as int);
                    assert(es[i as int].values@ =~= m0.entries@[i as int].values@.push(v));
                }
                assert forall|k: Seq<u8>| k != key@ implies #[trigger] self.vals_at(k) == old(
                    self,
                ).vals_at(k) by {
                    if m0.has_key(k) {
                        let j = m0.key_index(k);
                        assert(m0.entries@[j].key@ == k);
                        assert(j != i);
                        assert(es[j].key@ == k && es[j].values@ == m0.entries@[j].values@);
                        self.lemma_vals_at_index(j);
                        m0.lemma_vals_at_index(j);
                    } else {
                        if self.has_key(k) {
                            let j = self.key_index(k);
                            assert(m0.entries@[j].key@ == k);
                        }
                    }
                }
                assert forall|k: Seq<u8>| #[trigger] self.has_key(k) == (m0.has_key(k) || k
                    == key@) by {
                    if m0.has_key(k) {
                        let j = m0.key_index(k);
                        assert(es[j].key@ == k);
                    }
                    if self.has_key(k) {
                        let j = self.key_index(k);
                        assert(m0.entries@[j].key@ == es[j].key@);
                    }
                    if k == key@ {
                        assert(es[i as int].key@ == k);
                    }
                }
            }
        } else {
            let key_copy = copy_bytes(key);
            let mut values: Vec<u64> = Vec::new();
            values.push(v);
            let e = Entry { key: key_copy, sum: v, values };
            proof {
                assert(e.values@ =~= seq![v]);
                assert(total_of(seq![v].drop_last()) == 0) by {
                    assert(seq![v].drop_last() =~= Seq::<u64>::empty());
                }
                lemma_small_mod(v as nat, u64_modulus());
                assert(e.sum == wrap_sum(e.values@));
            }
            self.entries.insert(i, e);
            proof {
                let es = self.entries@;
                assert(es =~= m0.entries@.insert(i as int, e));
                // The new key fits strictly between its neighbours.
                assert forall|a: int, b: int| 0 <= a < b < es.len() implies lex_lt(
                    #[trigger] es[a].key@,
                    #[trigger] es[b].key@,
                ) by {
                    if b < i {
                        assert(es[a] == m0.entries@[a] && es[b] == m0.entries@[b]);
                    } else if a < i && b == i {
                        assert(es[a] == m0.entries@[a]);
                        assert(lex_lt(es[a].key@, key@));
                    } else if a < i && b > i {
                        assert(es[a] == m0.entries@[a] && es[b] == m0.entries@[b - 1]);
                    } else if a == i {
                        assert(es[b] == m0.entries@[b - 1] && b - 1 >= i);
                        lemma_lex_lt_total(key@, m0.entries@[i as int].key@);
                        if b - 1 == i {
                            assert(lex_lt(key@, es[b].key@));
                        } else {
                            lemma_lex_lt_trans(key@, m0.entries@[i as int].key@, es[b].key@);
                        }
                    } else {
                        assert(es[a] == m0.entries@[a - 1] && es[b] == m0.entries@[b - 1]);
                    }
                }
                assert forall|j: int| 0 <= j < es.len() implies (#[trigger] es[j]).sum == wrap_sum(
                    es[j].values@,
                ) && es[j].values@.len() > 0 by {
                    if j < i {
                        assert(es[j] == m0.entries@[j]);
                    } else if j > i {
                        assert(es[j] == m0.entries@[j - 1]);
                    }
                }
                assert(self.wf());
                self.lemma_distinct_keys();
                // The key was absent before the insertion.
                assert(!m0.has_key(key@)) by {
                    if m0.has_key(key@) {
                        let j = m0.key_index(key@);
                        assert(0 <= j < m0.entries@.len() && m0.entries@[j].key@ == key@);
                        if j < i {
                            lemma_lex_lt_irrefl(key@);
                        } else {
                            lemma_lex_lt_total(key@, m0.entries@[i as int].key@);
                            if j == i {
                                lemma_lex_lt_irrefl(key@);
                            } else {
                                assert(lex_lt(m0.entries@[i as int].key@, m0.entries@[j].key@));
                                lemma_lex_lt_trans(
                                    key@,
                                    m0.entries@[i as int].key@,
                                    m0.entries@[j].key@,
                                );
                                lemma_lex_lt_irrefl(key@);
                            }
                        }
                    }
                }
                assert(self.vals_at(key@) == old(self).vals_at(key@).push(v)) by {
                    self.lemma_vals_at_index(i as int);
                    assert(m0.vals_at(key@) =~= Seq::<u64>::empty());
                    assert(es[i as int].values@ =~= m0.vals_at(key@).push(v));
                }
                assert forall|k: Seq<u8>| k != key@ implies #[trigger] self.vals_at(k) == old(
                    self,
                ).vals_at(k) by {
                    if m0.has_key(k) {
                        let j = m0.key_index(k);
                        assert(m0.entries@[j].key@ == k);
                        let j2: int = if j < i {
                            j
                        } else {
                            j + 1
                        };
                        assert(es[j2].key@ == k && es[j2].values@ == m0.entries@[j].values@);
                        self.lemma_vals_at_index(j2);
                        m0.lemma_vals_at_index(j);
                    } else {
                        if self.has_key(k) {
                            let j = self.key_index(k);
                            assert(es[j].key@ == k);
                            assert(j != i);
                            let j0: int = if j < i {
                                j
                            } else {
                                j - 1
                            };
                            assert(m0.entries@[j0].key@ == k);
                        }
                    }
                }
                assert forall|k: Seq<u8>| #[trigger] self.has_key(k) == (m0.has_key(k) || k
                    == key@) by {
                    if m0.has_key(k) {
                        let j = m0.key_index(k);
                        let j2: int = if j < i {
                            j
                        } else {
                            j + 1
                        };
                        assert(es[j2].key@ == k);
                    }
                    if k == key@ {
                        assert(es[i as int].key@ == k);
                    }
                    if self.has_key(k) && k != key@ {
                        let j = self.key_index(k);
                        assert(j != i);
                        let j0: int = if j < i {
                            j
                        } else {
                            j - 1
                        };
                        assert(m0.entries@[j0].key@ == k);
                    }
                }
            }
        }
    }
}

// ---------------------------------------------------------------------------
// Row classification.
//
// A decoded file is a sequence of records as the record decoder reports them:
// `None` for a record it rejects, otherwise the record's fields. A record is
// a valid row when it has at least four fields (a format sanity check; only
// fields 0 and 2 are consumed) and its value field, trimmed, parses as a
// non-negative 64-bit integer.
// ---------------------------------------------------------------------------

/// Whether a decoded record is a valid row.
pub open spec fn row_is_valid(row: Option<Seq<Seq<u8>>>) -> bool {
    match row {
        Option::Some(fields) => fields.len() >= 4 && parse_u64_spec(trim_spec(fields[2])) is Some,
        Option::None => false,
    }
}

/// A valid row's key: field 0.
pub open spec fn row_key(row: Option<Seq<Seq<u8>>>) -> Seq<u8> {
    row.unwrap()[0]
}

/// A valid row's value: field 2, trimmed and parsed.
pub open spec fn row_value(row: Option<Seq<Seq<u8>>>) -> u64 {
    parse_u64_spec(trim_spec(row.unwrap()[2])).unwrap()
}

/// The values of the valid rows carrying key `k`, in row order.
pub open spec fn valid_values(rows: Seq<Option<Seq<Seq<u8>>>>, k: Seq<u8>) -> Seq<u64>
    decreases rows.len(),
{
    if rows.len() == 0 {
        Seq::empty()
    } else {
        let pre = valid_values(rows.drop_last(), k);
        if row_is_valid(rows.last()) && row_key(rows.last()) == k {
            pre.push(row_value(rows.last()))
        } else {
            pre
        }
    }
}

/// Why a unit of input contributed nothing: the file could not be read or
/// decompressed, a record could not be decoded, a record was too short
/// (carried with its contents), or a value field did not parse (carried with
/// the offending text). Each becomes one diagnostic message.
pub enum Skip {
    Unreadable,
    Malformed,
    Incomplete { fields: Vec<Vec<u8>> },
    Invalid { text: Vec<u8> },
}

/// The mathematical image of a `Skip`.
pub enum SkipView {
    Unreadable,
    Malformed,
    Incomplete { fields: Seq<Seq<u8>> },
    Invalid { text: Seq<u8> },
}

impl DeepView for Skip {
    type V = SkipView;

    open spec fn deep_view(&self) -> SkipView {
        match self {
            Skip::Unreadable => SkipView::Unreadable,
            Skip::Malformed => SkipView::Malformed,
            Skip::Incomplete { fields } => SkipView::Incomplete { fields: fields.deep_view() },
            Skip::Invalid { text } => SkipView::Invalid { text: text.deep_view() },
        }
    }
}

/// The diagnostics one decoded record gives rise to (none when it is valid).
pub open spec fn skip_of_row(row: Option<Seq<Seq<u8>>>) -> Seq<SkipView> {
    match row {
        Option::None => seq![SkipView::Malformed],
        Option::Some(fields) => if fields.len() < 4 {
            seq![SkipView::Incomplete { fields }]
        } else if parse_u64_spec(trim_spec(fields[2])) is None {
            seq![SkipView::Invalid { text: fields[2] }]
        } else {
            Seq::empty()
        },
    }
}

/// The diagnostics of a whole record sequence, in record order.
pub open spec fn skips_of(rows: Seq<Option<Seq<Seq<u8>>>>) -> Seq<SkipView>
    decreases rows.len(),
{
    if rows.len() == 0 {
        Seq::empty()
    } else {
        skips_of(rows.drop_last()) + skip_of_row(rows.last())
    }
}

/// Folds a file's decoded records into a partial accumulator map, skipping
/// malformed, short and unparseable rows and reporting one diagnostic for
/// each skipped row, in row order.
pub fn process_rows(rows: &Vec<Option<Vec<Vec<u8>>>>) -> (r: (StatsMap, Vec<Skip>))
    ensures
        r.0.wf(),
        forall|k: Seq<u8>| #[trigger] r.0.vals_at(k) == valid_values(rows.deep_view(), k),
        r.1.deep_view() == skips_of(rows.deep_view()),
{
    let ghost rv = rows.deep_view();
    let mut map = StatsMap::new();
    let mut skips: Vec<Skip> = Vec::new();
    proof {
        assert(rv.take(0) =~= Seq::<Option<Seq<Seq<u8>>>>::empty());
        assert(skips.deep_view() =~= skips_of(rv.take(0)));
    }
    let mut i: usize = 0;
    while i < rows.len()
        invariant
            i <= rows.len(),
            rv == rows.deep_view(),
            rv.len() == rows@.len(),
            map.wf(),
            forall|k: Seq<u8>| #[trigger] map.vals_at(k) == valid_values(rv.take(i as int), k),
            skips.deep_view() == skips_of(rv.take(i as int)),
        decreases rows.len() - i,
    {
        let ghost prefix = rv.take(i as int);
        let ghost prefix1 = rv.take(i + 1);
        let ghost old_skips = skips.deep_view();
        proof {
            assert(prefix1.drop_last() =~= prefix);
            assert(prefix1.last() == rv[i as int]);
            assert(rv[i as int] == rows@[i as int].deep_view());
        }
        match &rows[i] {
            Option::None => {
                skips.push(Skip::Malformed);
                proof {
                    assert(rv[i as int] is None);
                    assert forall|k: Seq<u8>| #[trigger] map.vals_at(k) == valid_values(
                        prefix1,
                        k,
                    ) by {
                        assert(map.vals_at(k) == valid_values(prefix, k));
                    }
                    assert(skips.deep_view() =~= old_skips + skip_of_row(rv[i as int]));
                }
            },
            Option::Some(fields) => {
                let ghost fd = fields.deep_view();
                proof {
                    assert(rv[i as int] == Option::Some(fd));
                    assert(fd.len() == fields@.len());
                }
                if fields.len() < 4 {
                    let fields_copy = copy_fields(fields);
                    skips.push(Skip::Incomplete { fields: fields_copy });
                    proof {
                        assert forall|k: Seq<u8>| #[trigger] map.vals_at(k) == valid_values(
                            prefix1,
                            k,
                        ) by {
                            assert(map.vals_at(k) == valid_values(prefix, k));
                        }
                        assert(skips.deep_view() =~= old_skips + skip_of_row(rv[i as int]));
                    }
                } else {
                    let trimmed = trim_bytes(&fields[2]);
                    proof {
                        assert(fd[2] == fields@[2].deep_view());
                        assert(fields@[2].deep_view() =~= fields@[2]@);
                        assert(trimmed@ == trim_spec(fd[2]));
                    }
                    match parse_u64(&trimmed) {
                        Option::Some(v) => {
                            proof {
                                assert(row_is_valid(rv[i as int]));
                                assert(row_value(rv[i as int]) == v);
                                assert(fd[0] == fields@[0].deep_view());
                                assert(fields@[0].deep_view() =~= fields@[0]@);
                                assert(row_key(rv[i as int]) == fields@[0]@);
                            }
                            map.add_row(&fields[0], v);
                            proof {
                                assert forall|k: Seq<u8>| #[trigger] map.vals_at(k)
                                    == valid_values(prefix1, k) by {
                                    if k == fields@[0]@ {
                                        assert(map.vals_at(k) == valid_values(prefix, k).push(v));
                                    } else {
                                        assert(map.vals_at(k) == valid_values(prefix, k));
                                    }
                                }
                                assert(skip_of_row(rv[i as int]) =~= Seq::<SkipView>::empty());
                                assert(skips.deep_view() =~= old_skips + skip_of_row(
                                    rv[i as int],
                                ));
                            }
                        },
                        Option::None => {
                            let text = copy_bytes(&fields[2]);
                            skips.push(Skip::Invalid { text });
                            proof {
                                assert(!row_is_valid(rv[i as int]));
                                assert forall|k: Seq<u8>| #[trigger] map.vals_at(k)
                                    == valid_values(prefix1, k) by {
                                    assert(map.vals_at(k) == valid_values(prefix, k));
                                }
                                assert(skips.deep_view() =~= old_skips + skip_of_row(
                                    rv[i as int],
                                ));
                            }
                        },
                    }
                }
            },
        }
        i = i + 1;
    }
    proof {
        assert(rv.take(rows@.len() as int) =~= rv);
    }
    (map, skips)
}

/// Key `k`'s valid values in one file, given the file's raw bytes: what its
/// decompressed text decodes to, or nothing when the stream is corrupt. A
/// function of the bytes alone, so processing a file twice contributes
/// identically.
pub open spec fn file_values(data: Seq<u8>, k: Seq<u8>) -> Seq<u64> {
    match gunzip_of(data) {
        Option::Some(text) => valid_values(records_of(text), k),
        Option::None => Seq::empty(),
    }
}

/// The diagnostics one file's raw bytes give rise to: `Unreadable` alone for
/// a corrupt stream, otherwise its rows' skips in row order.
pub open spec fn file_skips(data: Seq<u8>) -> Seq<SkipView> {
    match gunzip_of(data) {
        Option::Some(text) => skips_of(records_of(text)),
        Option::None => seq![SkipView::Unreadable],
    }
}

/// What one file contributed: its partial accumulator map, its diagnostics,
/// and whether the byte stream could be decompressed at all.
pub struct FileSummary {
    pub map: StatsMap,
    pub skips: Vec<Skip>,
    pub readable: bool,
}

/// Processes one file's raw (still compressed) bytes: decompresses them,
/// decodes records, and folds the valid rows into a partial map. An
/// undecodable stream contributes an empty map and one `Unreadable`
/// diagnostic; content problems are skipped row by row, never fatal.
pub fn process_file(data: &Vec<u8>) -> (r: FileSummary)
    ensures
        r.map.wf(),
        r.readable == (gunzip_of(data@) is Some),
        gunzip_of(data@) is None ==> r.map.entries@.len() == 0,
        forall|k: Seq<u8>| #[trigger] r.map.vals_at(k) == file_values(data@, k),
        r.skips.deep_view() == file_skips(data@),
{
    match gunzip(data) {
        Option::Some(text) => {
            proof {
                assert(text.deep_view() =~= text@);
                assert(gunzip_of(data@) == Option::Some(text@));
            }
            let rows = csv_records(&text);
            let (map, skips) = process_rows(&rows);
            FileSummary { map, skips, readable: true }
        },
        Option::None => {
            let map = StatsMap::new();
            let mut skips: Vec<Skip> = Vec::new();
            skips.push(Skip::Unreadable);
            proof {
                assert(skips.deep_view() =~= seq![SkipView::Unreadable]);
            }
            FileSummary { map, skips, readable: false }
        },
    }
}

// ---------------------------------------------------------------------------
// Merging the partial maps.
// ---------------------------------------------------------------------------

/// The value list key `k` ends with after folding the partial maps in order:
/// the concatenation of each partial map's list for `k`.
pub open spec fn merged_vals(parts: Seq<StatsMap>, k: Seq<u8>) -> Seq<u64>
    decreases parts.len(),
{
    if parts.len() == 0 {
        Seq::empty()
    } else {
        merged_vals(parts.drop_last(), k) + parts.last().vals_at(k)
    }
}

/// Key `k`'s contribution from the first `j` entries of an entry list.
pub open spec fn entry_prefix_vals(es: Seq<Entry>, j: int, k: Seq<u8>) -> Seq<u64>
    decreases j,
{
    if j <= 0 {
        Seq::empty()
    } else {
        entry_prefix_vals(es, j - 1, k) + (if es[j - 1].key@ == k {
            es[j - 1].values@
        } else {
            Seq::empty()
        })
    }
}

proof fn lemma_entry_prefix_vals_at(m: StatsMap, j: int, k: Seq<u8>)
    requires
        m.wf(),
        0 <= j <= m.entries@.len(),
    ensures
        entry_prefix_vals(m.entries@, j, k) == if exists|i: int|
            0 <= i < j && (#[trigger] m.entries@[i]).key@ == k {
            m.entries@[choose|i: int| 0 <= i < j && (#[trigger] m.entries@[i]).key@ == k].values@
        } else {
            Seq::<u64>::empty()
        },
    decreases j,
{
    m.lemma_distinct_keys();
    if j > 0 {
        lemma_entry_prefix_vals_at(m, j - 1, k);
        if m.entries@[j - 1].key@ == k {
            assert(!(exists|i: int| 0 <= i < j - 1 && (#[trigger] m.entries@[i]).key@ == k));
            assert(entry_prefix_vals(m.entries@, j - 1, k) =~= Seq::<u64>::empty());
            assert(Seq::<u64>::empty() + m.entries@[j - 1].values@ =~= m.entries@[j
                - 1].values@);
            let w = choose|i: int| 0 <= i < j && (#[trigger] m.entries@[i]).key@ == k;
            assert(m.entries@[j - 1].key@ == k);
            assert(w == j - 1);
        } else {
            assert(entry_prefix_vals(m.entries@, j, k) =~= entry_prefix_vals(m.entries@, j - 1, k));
            if exists|i: int| 0 <= i < j && (#[trigger] m.entries@[i]).key@ == k {
                let w = choose|i: int| 0 <= i < j && (#[trigger] m.entries@[i]).key@ == k;
                assert(w < j - 1);
                let w0 = choose|i: int| 0 <= i < j - 1 && (#[trigger] m.entries@[i]).key@ == k;
                assert(w0 == w);
            }
        }
    }
}

/// In a well-formed map, the whole entry list contributes exactly `vals_at`.
proof fn lemma_entry_prefix_full(m: StatsMap)
    requires
        m.wf(),
    ensures
        forall|k: Seq<u8>|
            #[trigger] entry_prefix_vals(m.entries@, m.entries@.len() as int, k) == m.vals_at(k),
{
    assert forall|k: Seq<u8>|
        #[trigger] entry_prefix_vals(m.entries@, m.entries@.len() as int, k) == m.vals_at(k) by {
        lemma_entry_prefix_vals_at(m, m.entries@.len() as int, k);
        m.lemma_distinct_keys();
        if m.has_key(k) {
            let i = m.key_index(k);
            assert(0 <= i < m.entries@.len() && m.entries@[i].key@ == k);
            let w = choose|i2: int|
                0 <= i2 < m.entries@.len() && (#[trigger] m.entries@[i2]).key@ == k;
            assert(w == i);
        } else {
            assert(!(exists|i: int|
                0 <= i < m.entries@.len() && (#[trigger] m.entries@[i]).key@ == k));
        }
    }
}

/// Folds every partial map into one combined map by pointwise accumulation:
/// each key's combined value list is the concatenation of its per-file lists
/// in fold order, and its 64-bit sum is the wrapped total of that list.
pub fn merge_partials(parts: Vec<StatsMap>) -> (r: StatsMap)
    requires
        forall|i: int| 0 <= i < parts@.len() ==> (#[trigger] parts@[i]).wf(),
    ensures
        r.wf(),
        forall|k: Seq<u8>| #[trigger] r.vals_at(k) == merged_vals(parts@, k),
{
    let mut combined = StatsMap::new();
    proof {
        assert(parts@.take(0) =~= Seq::<StatsMap>::empty());
    }
    let mut p: usize = 0;
    while p < parts.len()
        invariant
            p <= parts@.len(),
            forall|i: int| 0 <= i < parts@.len() ==> (#[trigger] parts@[i]).wf(),
            combined.wf(),
            forall|k: Seq<u8>|
                #[trigger] combined.vals_at(k) == merged_vals(parts@.take(p as int), k),
        decreases parts@.len() - p,
    {
        let ghost base = parts@.take(p as int);
        let part = &parts[p];
        proof {
            assert(entry_prefix_vals(part.entries@, 0, Seq::<u8>::empty()) =~= Seq::<
                u64,
            >::empty());
        }
        let mut j: usize = 0;
        while j < part.entries.len()
            invariant
                j <= part.entries@.len(),
                p < parts@.len(),
                part == &parts@[p as int],
                part.wf(),
                combined.wf(),
                forall|k: Seq<u8>|
                    #[trigger] combined.vals_at(k) == merged_vals(base, k) + entry_prefix_vals(
                        part.entries@,
                        j as int,
                        k,
                    ),
            decreases part.entries@.len() - j,
        {
            let e = &part.entries[j];
            let mut l: usize = 0;
            while l < e.values.len()
                invariant
                    l <= e.values@.len(),
                    j < part.entries@.len(),
                    p < parts@.len(),
                    part == &parts@[p as int],
                    e == &part.entries@[j as int],
                    part.wf(),
                    combined.wf(),
                    forall|k: Seq<u8>|
                        k != e.key@ ==> #[trigger] combined.vals_at(k) == merged_vals(base, k)
                            + entry_prefix_vals(part.entries@, j as int, k),
                    combined.vals_at(e.key@) == merged_vals(base, e.key@) + entry_prefix_vals(
                        part.entries@,
                        j as int,
                        e.key@,
                    ) + e.values@.take(l as int),
                decreases e.values@.len() - l,
            {
                let v = e.values[l];
                combined.add_row(&e.key, v);
                proof {
                    assert(e.values@.take(l as int).push(v) =~= e.values@.take(l + 1));
                    assert((merged_vals(base, e.key@) + entry_prefix_vals(
                        part.entries@,
                        j as int,
                        e.key@,
                    ) + e.values@.take(l as int)).push(v) =~= merged_vals(base, e.key@)
                        + entry_prefix_vals(part.entries@, j as int, e.key@) + e.values@.take(
                        l + 1,
                    ));
                }
                l = l + 1;
            }
            proof {
                assert(e.values@.take(e.values@.len() as int) =~= e.values@);
                assert forall|k: Seq<u8>|
                    #[trigger] combined.vals_at(k) == merged_vals(base, k) + entry_prefix_vals(
                        part.entries@,
                        j + 1,
                        k,
                    ) by {
                    if k == e.key@ {
                        assert(entry_prefix_vals(part.entries@, j + 1, k) == entry_prefix_vals(
                            part.entries@,
                            j as int,
                            k,
                        ) + e.values@);
                        assert(merged_vals(base, k) + entry_prefix_vals(part.entries@, j as int, k)
                            + e.values@ =~= merged_vals(base, k) + (entry_prefix_vals(
                            part.entries@,
                            j as int,
                            k,
                        ) + e.values@));
                    } else {
                        assert(entry_prefix_vals(part.entries@, j + 1, k) == entry_prefix_vals(
                            part.entries@,
                            j as int,
                            k,
                        ) + Seq::<u64>::empty());
                        assert(entry_prefix_vals(part.entries@, j as int, k) + Seq::<u64>::empty()
                            =~= entry_prefix_vals(part.entries@, j as int, k));
                    }
                }
            }
            j = j + 1;
        }
        proof {
            lemma_entry_prefix_full(parts@[p as int]);
            assert(parts@.take(p + 1).drop_last() =~= base);
            assert(parts@.take(p + 1).last() == parts@[p as int]);
            assert forall|k: Seq<u8>|
                #[trigger] combined.vals_at(k) == merged_vals(parts@.take(p + 1), k) by {
                assert(entry_prefix_vals(part.entries@, part.entries@.len() as int, k)
                    == parts@[p as int].vals_at(k));
            }
        }
        p = p + 1;
    }
    proof {
        assert(parts@.take(parts@.len() as int) =~= parts@);
    }
    combined
}

// ---------------------------------------------------------------------------
// Laws of the aggregation.
// ---------------------------------------------------------------------------

/// The per-file totals a key's merged sum is made of.
pub open spec fn parts_total(parts: Seq<StatsMap>, k: Seq<u8>) -> nat
    decreases parts.len(),
{
    if parts.len() == 0 {
        0
    } else {
        parts_total(parts.drop_last(), k) + total_of(parts.last().vals_at(k))
    }
}

/// The merged value list's exact total is the sum of the per-file totals —
/// a sum of numbers, the same under any ordering of the files.
pub proof fn lemma_combined_total(parts: Seq<StatsMap>, k: Seq<u8>)
    ensures
        total_of(merged_vals(parts, k)) == parts_total(parts, k),
    decreases parts.len(),
{
    if parts.len() > 0 {
        lemma_combined_total(parts.drop_last(), k);
        lemma_total_concat(merged_vals(parts.drop_last(), k), parts.last().vals_at(k));
    }
}

/// Taking one partial map out splits its contribution off the sum of totals.
proof fn lemma_parts_total_remove(qs: Seq<StatsMap>, j: int, k: Seq<u8>)
    requires
        0 <= j < qs.len(),
    ensures
        parts_total(qs, k) == parts_total(qs.remove(j), k) + total_of(qs[j].vals_at(k)),
    decreases qs.len(),
{
    if j == qs.len() - 1 {
        assert(qs.remove(j) =~= qs.drop_last());
    } else {
        lemma_parts_total_remove(qs.drop_last(), j, k);
        assert(qs.remove(j).drop_last() =~= qs.drop_last().remove(j));
        assert(qs.remove(j).last() == qs.last());
        assert(qs.drop_last()[j] == qs[j]);
        assert(parts_total(qs.remove(j), k) == parts_total(qs.remove(j).drop_last(), k)
            + total_of(qs.remove(j).last().vals_at(k)));
    }
}

/// Taking one partial map out splits its values off the merged multiset.
proof fn lemma_merged_vals_remove(qs: Seq<StatsMap>, j: int, k: Seq<u8>)
    requires
        0 <= j < qs.len(),
    ensures
        merged_vals(qs, k).to_multiset() =~= merged_vals(qs.remove(j), k).to_multiset().add(
            qs[j].vals_at(k).to_multiset(),
        ),
    decreases qs.len(),
{
    broadcast use vstd::multiset::group_multiset_axioms;

    vstd::seq_lib::lemma_multiset_commutative(merged_vals(qs.drop_last(), k), qs.last().vals_at(k));
    if j == qs.len() - 1 {
        assert(qs.remove(j) =~= qs.drop_last());
    } else {
        lemma_merged_vals_remove(qs.drop_last(), j, k);
        assert(qs.remove(j).drop_last() =~= qs.drop_last().remove(j));
        assert(qs.remove(j).last() == qs.last());
        assert(qs.drop_last()[j] == qs[j]);
        vstd::seq_lib::lemma_multiset_commutative(
            merged_vals(qs.remove(j).drop_last(), k),
            qs.remove(j).last().vals_at(k),
        );
        assert(merged_vals(qs.remove(j), k).to_multiset() =~= merged_vals(
            qs.drop_last().remove(j),
            k,
        ).to_multiset().add(qs.last().vals_at(k).to_multiset()));
    }
}

/// The order of the partial maps is irrelevant: two fold orders that hold
/// the same partial maps give every key the same multiset of values — so
/// the same exact total, and with it the same recorded 64-bit sum.
pub proof fn lemma_merge_order_irrelevant(ps: Seq<StatsMap>, qs: Seq<StatsMap>, k: Seq<u8>)
    requires
        ps.to_multiset() == qs.to_multiset(),
    ensures
        merged_vals(ps, k).to_multiset() == merged_vals(qs, k).to_multiset(),
        parts_total(ps, k) == parts_total(qs, k),
        total_of(merged_vals(ps, k)) == total_of(merged_vals(qs, k)),
        wrap_sum(merged_vals(ps, k)) == wrap_sum(merged_vals(qs, k)),
    decreases ps.len(),
{
    broadcast use vstd::seq_lib::group_to_multiset_ensures;
    broadcast use vstd::multiset::group_multiset_axioms;

    lemma_combined_total(ps, k);
    lemma_combined_total(qs, k);
    if ps.len() == 0 {
        assert(qs.to_multiset().len() == 0);
        assert(qs.len() == 0);
    } else {
        let last = ps.last();
        assert(ps[ps.len() - 1] == last);
        assert(ps.contains(last));
        assert(qs.to_multiset().count(last) > 0);
        assert(qs.contains(last));
        let j = choose|j: int| 0 <= j < qs.len() && qs[j] == last;
        assert(ps.drop_last().push(last) =~= ps);
        assert(ps.drop_last().push(last).to_multiset() =~= ps.drop_last().to_multiset().insert(
            last,
        ));
        assert(qs.remove(j).to_multiset() =~= qs.to_multiset().remove(last));
        assert(ps.drop_last().to_multiset() =~= qs.remove(j).to_multiset()) by {
            assert forall|a: StatsMap|
                ps.drop_last().to_multiset().count(a) == qs.remove(j).to_multiset().count(
                    a,
                ) by {
                assert(ps.to_multiset().count(a) == ps.drop_last().to_multiset().insert(
                    last,
                ).count(a));
            }
        }
        lemma_merge_order_irrelevant(ps.drop_last(), qs.remove(j), k);
        lemma_parts_total_remove(qs, j, k);
        lemma_combined_total(ps.drop_last(), k);
        lemma_combined_total(qs.remove(j), k);
        vstd::seq_lib::lemma_multiset_commutative(merged_vals(ps.drop_last(), k), last.vals_at(k));
        lemma_merged_vals_remove(qs, j, k);
        assert(merged_vals(ps, k).to_multiset() =~= merged_vals(qs, k).to_multiset());
    }
}

/// The valid values of a whole sequence of files' rows for key `k`, file by
/// file in order.
pub open spec fn files_values(rowss: Seq<Seq<Option<Seq<Seq<u8>>>>>, k: Seq<u8>) -> Seq<u64>
    decreases rowss.len(),
{
    if rowss.len() == 0 {
        Seq::empty()
    } else {
        files_values(rowss.drop_last(), k) + valid_values(rowss.last(), k)
    }
}

/// The aggregation is exact end to end: when each partial map aggregates one
/// file's rows, the merged map's value list for `k` is the concatenation of
/// every file's valid values for `k`, and the recorded 64-bit sum is their
/// exact total reduced modulo 2^64 — the total itself whenever it fits.
pub proof fn lemma_combined_exact(
    parts: Seq<StatsMap>,
    rowss: Seq<Seq<Option<Seq<Seq<u8>>>>>,
    k: Seq<u8>,
)
    requires
        parts.len() == rowss.len(),
        forall|i: int, k2: Seq<u8>|
            0 <= i < parts.len() ==> #[trigger] parts[i].vals_at(k2) == valid_values(
                rowss[i],
                k2,
            ),
    ensures
        merged_vals(parts, k) == files_values(rowss, k),
        wrap_sum(merged_vals(parts, k)) == total_of(files_values(rowss, k)) % u64_modulus(),
        total_of(files_values(rowss, k)) <= u64::MAX ==> wrap_sum(merged_vals(parts, k))
            == total_of(files_values(rowss, k)),
    decreases parts.len(),
{
    if parts.len() == 0 {
        assert(merged_vals(parts, k) =~= files_values(rowss, k));
    } else {
        assert forall|i: int, k2: Seq<u8>|
            0 <= i < parts.drop_last().len() implies #[trigger] parts.drop_last()[i].vals_at(k2)
            == valid_values(rowss.drop_last()[i], k2) by {
            assert(parts.drop_last()[i] == parts[i]);
            assert(rowss.drop_last()[i] == rowss[i]);
        }
        lemma_combined_exact(parts.drop_last(), rowss.drop_last(), k);
        assert(parts.last().vals_at(k) == valid_values(rowss[parts.len() - 1], k));
        assert(rowss.last() == rowss[parts.len() - 1]);
    }
    if total_of(files_values(rowss, k)) <= u64::MAX {
        lemma_small_mod(total_of(files_values(rowss, k)), u64_modulus());
    }
}

/// A key's recorded 64-bit sum is its exact total reduced modulo 2^64, and
/// the total itself whenever that fits in 64 bits.
pub proof fn lemma_sum_at_exact(m: StatsMap, k: Seq<u8>)
    ensures
        m.sum_at(k) == total_of(m.vals_at(k)) % u64_modulus(),
        total_of(m.vals_at(k)) <= u64::MAX ==> m.sum_at(k) == total_of(m.vals_at(k)),
{
    if total_of(m.vals_at(k)) <= u64::MAX {
        lemma_small_mod(total_of(m.vals_at(k)), u64_modulus());
    }
}

/// In a well-formed map, the sum stored in entry `i` is `sum_at` of its key.
pub proof fn lemma_entry_sum(m: StatsMap, i: int)
    requires
        m.wf(),
        0 <= i < m.entries@.len(),
    ensures
        m.entries@[i].sum == m.sum_at(m.entries@[i].key@),
{
    m.lemma_vals_at_index(i);
}

/// Appending one more row to a file never decreases any key's exact total;
/// a valid row adds exactly its value to its key's total; and as long as the
/// total fits in 64 bits, the recorded sum does not decrease either.
pub proof fn lemma_sum_monotone(
    rows: Seq<Option<Seq<Seq<u8>>>>,
    row: Option<Seq<Seq<u8>>>,
    k: Seq<u8>,
)
    ensures
        total_of(valid_values(rows.push(row), k)) >= total_of(valid_values(rows, k)),
        row_is_valid(row) && row_key(row) == k ==> total_of(valid_values(rows.push(row), k))
            == total_of(valid_values(rows, k)) + row_value(row),
        total_of(valid_values(rows.push(row), k)) <= u64::MAX ==> wrap_sum(
            valid_values(rows.push(row), k),
        ) >= wrap_sum(valid_values(rows, k)),
{
    assert(rows.push(row).drop_last() =~= rows);
    assert(rows.push(row).last() == row);
    if row_is_valid(row) && row_key(row) == k {
        lemma_total_push(valid_values(rows, k), row_value(row));
    }
    if total_of(valid_values(rows.push(row), k)) <= u64::MAX {
        lemma_small_mod(total_of(valid_values(rows.push(row), k)), u64_modulus());
        lemma_small_mod(total_of(valid_values(rows, k)), u64_modulus());
    }
}

/// A key seen only with value 0 records the sum 0.
pub proof fn lemma_all_zero_sum(vs: Seq<u64>)
    requires
        forall|i: int| 0 <= i < vs.len() ==> vs[i] == 0,
    ensures
        total_of(vs) == 0,
        wrap_sum(vs) == 0,
    decreases vs.len(),
{
    if vs.len() > 0 {
        lemma_all_zero_sum(vs.drop_last());
    }
    lemma_small_mod(0, u64_modulus());
}

} // verus!
