//! Building records: one data row paired with the header row.
//!
//! Header and row are paired by position up to the shorter of the two; the
//! extra entries of the longer one are dropped. Keys keep the order of
//! their first appearance in the header, and a later duplicate header
//! overwrites the value of the earlier entry in place, so a record never
//! holds the same key twice.

use vstd::prelude::*;

verus! {

/// One named field of a record.
pub struct NamedValue {
    pub name: Vec<u8>,
    pub value: Vec<u8>,
}

impl View for NamedValue {
    type V = (Seq<u8>, Seq<u8>);

    open spec fn view(&self) -> (Seq<u8>, Seq<u8>) {
        (self.name@, self.value@)
    }
}

/// The pairs a record holds, in order.
pub open spec fn record_view(rec: Seq<NamedValue>) -> Seq<(Seq<u8>, Seq<u8>)> {
    Seq::new(rec.len(), |i: int| rec[i]@)
}

/// The records a document holds, in order.
pub open spec fn document_view(doc: Seq<Vec<NamedValue>>) -> Seq<Seq<(Seq<u8>, Seq<u8>)>> {
    Seq::new(doc.len(), |i: int| record_view(doc[i]@))
}

/// Whether some pair of the record carries the key.
pub open spec fn has_key(rec: Seq<(Seq<u8>, Seq<u8>)>, k: Seq<u8>) -> bool {
    exists|i: int| 0 <= i < rec.len() && rec[i].0 == k
}

/// No key appears twice.
pub open spec fn distinct_keys(rec: Seq<(Seq<u8>, Seq<u8>)>) -> bool {
    forall|i: int, j: int| 0 <= i < j < rec.len() ==> rec[i].0 != rec[j].0
}

/// Adds one pair to a record: a pair with the same key is overwritten in
/// place, any other record grows by the new pair at its end.
pub open spec fn upsert(
    rec: Seq<(Seq<u8>, Seq<u8>)>,
    k: Seq<u8>,
    v: Seq<u8>,
) -> Seq<(Seq<u8>, Seq<u8>)>
    decreases rec.len(),
{
    if rec.len() == 0 {
        seq![(k, v)]
    } else if rec[0].0 == k {
        seq![(k, v)] + rec.skip(1)
    } else {
        seq![rec[0]] + upsert(rec.skip(1), k, v)
    }
}

/// The record of the first `n` positions of header and row.
pub open spec fn record_of_n(
    header: Seq<Seq<u8>>,
    row: Seq<Seq<u8>>,
    n: int,
) -> Seq<(Seq<u8>, Seq<u8>)>
    decreases n,
{
    if n <= 0 {
        seq![]
    } else {
        upsert(record_of_n(header, row, n - 1), header[n - 1], row[n - 1])
    }
}

/// How many positions of header and row are paired: the shorter length.
pub open spec fn pair_count(header: Seq<Seq<u8>>, row: Seq<Seq<u8>>) -> int {
    if header.len() <= row.len() {
        header.len() as int
    } else {
        row.len() as int
    }
}

/// The record of one data row under a header.
pub open spec fn record_of(header: Seq<Seq<u8>>, row: Seq<Seq<u8>>) -> Seq<(Seq<u8>, Seq<u8>)> {
    record_of_n(header, row, pair_count(header, row))
}

proof fn lemma_upsert_absent(rec: Seq<(Seq<u8>, Seq<u8>)>, k: Seq<u8>, v: Seq<u8>)
    requires
        !has_key(rec, k),
    ensures
        upsert(rec, k, v) == rec.push((k, v)),
    decreases rec.len(),
{
    if rec.len() == 0 {
        assert(upsert(rec, k, v) =~= rec.push((k, v)));
    } else {
        assert(rec[0].0 != k);
        assert(!has_key(rec.skip(1), k)) by {
            assert(forall|i: int|
                0 <= i < rec.skip(1).len() ==> rec.skip(1)[i] == rec[i + 1]);
        }
        lemma_upsert_absent(rec.skip(1), k, v);
        assert(upsert(rec, k, v) =~= rec.push((k, v)));
    }
}

proof fn lemma_upsert_present(rec: Seq<(Seq<u8>, Seq<u8>)>, k: Seq<u8>, v: Seq<u8>, j: int)
    requires
        0 <= j < rec.len(),
        rec[j].0 == k,
        forall|i: int| 0 <= i < j ==> rec[i].0 != k,
    ensures
        upsert(rec, k, v) == rec.update(j, (k, v)),
    decreases rec.len(),
{
    if j == 0 {
        assert(upsert(rec, k, v) =~= rec.update(0, (k, v)));
    } else {
        assert(rec[0].0 != k);
        assert(rec.skip(1)[j - 1].0 == k);
        assert(forall|i: int| 0 <= i < j - 1 ==> rec.skip(1)[i] == rec[i + 1]);
        lemma_upsert_present(rec.skip(1), k, v, j - 1);
        assert(upsert(rec, k, v) =~= rec.update(j, (k, v)));
    }
}

proof fn lemma_upsert_len(rec: Seq<(Seq<u8>, Seq<u8>)>, k: Seq<u8>, v: Seq<u8>)
    ensures
        has_key(rec, k) ==> upsert(rec, k, v).len() == rec.len(),
        !has_key(rec, k) ==> upsert(rec, k, v).len() == rec.len() + 1,
    decreases rec.len(),
{
    if rec.len() == 0 {
    } else if rec[0].0 == k {
    } else {
        lemma_upsert_len(rec.skip(1), k, v);
        assert(forall|i: int| 0 <= i < rec.skip(1).len() ==> rec.skip(1)[i] == rec[i + 1]);
        if has_key(rec.skip(1), k) {
            let i = choose|i: int| 0 <= i < rec.skip(1).len() && rec.skip(1)[i].0 == k;
            assert(rec[i + 1].0 == k);
        } else if has_key(rec, k) {
            let i = choose|i: int| 0 <= i < rec.len() && rec[i].0 == k;
            assert(rec.skip(1)[i - 1].0 == k);
        }
    }
}

/// A record never grows past the number of paired positions.
pub proof fn lemma_record_len(header: Seq<Seq<u8>>, row: Seq<Seq<u8>>, n: int)
    requires
        0 <= n,
    ensures
        record_of_n(header, row, n).len() <= n,
    decreases n,
{
    if n > 0 {
        lemma_record_len(header, row, n - 1);
        lemma_upsert_len(record_of_n(header, row, n - 1), header[n - 1], row[n - 1]);
    }
}

proof fn lemma_upsert_distinct(rec: Seq<(Seq<u8>, Seq<u8>)>, k: Seq<u8>, v: Seq<u8>)
    requires
        distinct_keys(rec),
    ensures
        distinct_keys(upsert(rec, k, v)),
{
    if has_key(rec, k) {
        let j = choose|j: int| 0 <= j < rec.len() && rec[j].0 == k;
        assert(forall|i: int| 0 <= i < j ==> rec[i].0 != k);
        lemma_upsert_present(rec, k, v, j);
    } else {
        lemma_upsert_absent(rec, k, v);
    }
}

proof fn lemma_record_distinct(header: Seq<Seq<u8>>, row: Seq<Seq<u8>>, n: int)
    ensures
        distinct_keys(record_of_n(header, row, n)),
    decreases n,
{
    if n > 0 {
        lemma_record_distinct(header, row, n - 1);
        lemma_upsert_distinct(record_of_n(header, row, n - 1), header[n - 1], row[n - 1]);
    }
}

/// Each key of a record appears once, and a record holds at most as many
/// pairs as the header has columns; a shorter data row bounds it further.
pub proof fn lemma_record_key_count(header: Seq<Seq<u8>>, row: Seq<Seq<u8>>)
    ensures
        distinct_keys(record_of(header, row)),
        record_of(header, row).len() <= header.len(),
        row.len() < header.len() ==> record_of(header, row).len() <= row.len(),
{
    lemma_record_len(header, row, pair_count(header, row));
    lemma_record_distinct(header, row, pair_count(header, row));
}

proof fn lemma_upsert_sources(rec: Seq<(Seq<u8>, Seq<u8>)>, k: Seq<u8>, v: Seq<u8>)
    ensures
        forall|j: int|
            0 <= j < upsert(rec, k, v).len() ==> (upsert(rec, k, v)[j] == (k, v) || exists|t: int|
                0 <= t < rec.len() && upsert(rec, k, v)[j] == rec[t]),
    decreases rec.len(),
{
    let up = upsert(rec, k, v);
    if rec.len() == 0 {
    } else if rec[0].0 == k {
        assert forall|j: int|
            0 <= j < up.len() implies (up[j] == (k, v) || exists|t: int|
            0 <= t < rec.len() && up[j] == rec[t]) by {
            if j > 0 {
                assert(up[j] == rec.skip(1)[j - 1]);
                assert(rec.skip(1)[j - 1] == rec[j]);
            }
        }
    } else {
        lemma_upsert_sources(rec.skip(1), k, v);
        let inner = upsert(rec.skip(1), k, v);
        assert forall|j: int|
            0 <= j < up.len() implies (up[j] == (k, v) || exists|t: int|
            0 <= t < rec.len() && up[j] == rec[t]) by {
            if j == 0 {
                assert(up[0] == rec[0]);
            } else {
                assert(up[j] == inner[j - 1]);
                if inner[j - 1] != (k, v) {
                    let t = choose|t: int| 0 <= t < rec.skip(1).len() && inner[j - 1] == rec.skip(
                        1,
                    )[t];
                    assert(rec.skip(1)[t] == rec[t + 1]);
                }
            }
        }
    }
}

/// Law: every pair a record holds is one of the paired header/row
/// positions — the key a header entry and the value the data row's field
/// at the same position, both unchanged.
pub proof fn lemma_record_sources(header: Seq<Seq<u8>>, row: Seq<Seq<u8>>, n: int)
    requires
        0 <= n <= pair_count(header, row),
    ensures
        forall|j: int| #![trigger record_of_n(header, row, n)[j]]
            0 <= j < record_of_n(header, row, n).len() ==> exists|i: int|
                0 <= i < n && record_of_n(header, row, n)[j] == (#[trigger] header[i], row[i]),
    decreases n,
{
    if n > 0 {
        lemma_record_sources(header, row, n - 1);
        let prev = record_of_n(header, row, n - 1);
        let cur = record_of_n(header, row, n);
        lemma_upsert_sources(prev, header[n - 1], row[n - 1]);
        assert forall|j: int| #![trigger cur[j]]
            0 <= j < cur.len() implies exists|i: int|
            0 <= i < n && cur[j] == (#[trigger] header[i], row[i]) by {
            if cur[j] == (header[n - 1], row[n - 1]) {
                assert(0 <= n - 1 < n && cur[j] == (header[n - 1], row[n - 1]));
            } else {
                let t = choose|t: int| 0 <= t < prev.len() && cur[j] == prev[t];
                let i = choose|i: int| 0 <= i < n - 1 && prev[t] == (header[i], row[i]);
                assert(0 <= i < n && cur[j] == (header[i], row[i]));
            }
        }
    }
}

/// Compares two byte strings.
pub fn bytes_eq(a: &Vec<u8>, b: &Vec<u8>) -> (r: bool)
    ensures
        r == (a@ == b@),
{
    if a.len() != b.len() {
        return false;
    }
    let mut i: usize = 0;
    while i < a.len()
        invariant
            i <= a.len(),
            a@.len() == b@.len(),
            forall|j: int| 0 <= j < i ==> a@[j] == b@[j],
        decreases a.len() - i,
    {
        if a[i] != b[i] {
            return false;
        }
        i = i + 1;
    }
    proof {
        assert(a@ =~= b@);
    }
    true
}

/// Copies a byte string.
fn copy_bytes(src: &Vec<u8>) -> (r: Vec<u8>)
    ensures
        r@ == src@,
{
    let mut r: Vec<u8> = Vec::new();
    let mut i: usize = 0;
    while i < src.len()
        invariant
            i <= src.len(),
            r@ == src@.take(i as int),
        decreases src.len() - i,
    {
        r.push(src[i]);
        proof {
            assert(src@.take(i as int + 1) =~= src@.take(i as int).push(src@[i as int]));
        }
        i = i + 1;
    }
    proof {
        assert(src@.take(src@.len() as int) =~= src@);
    }
    r
}

/// Finds the pair that carries the key, if the record has one.
fn find_key(rec: &Vec<NamedValue>, k: &Vec<u8>) -> (r: Option<usize>)
    ensures
        match r {
            Some(j) => j < rec@.len() && rec@[j as int]@.0 == k@,
            None => !has_key(record_view(rec@), k@),
        },
{
    let mut j: usize = 0;
    while j < rec.len()
        invariant
            j <= rec@.len(),
            forall|i: int| 0 <= i < j ==> rec@[i]@.0 != k@,
        decreases rec.len() - j,
    {
        if bytes_eq(&rec[j].name, k) {
            return Some(j);
        }
        j = j + 1;
    }
    proof {
        assert(forall|i: int|
            0 <= i < record_view(rec@).len() ==> record_view(rec@)[i].0 == rec@[i]@.0);
    }
    None
}

/// Builds the record of one data row under a header: pairs by position up
/// to the shorter length, a later duplicate header overwriting the earlier
/// value in place.
pub fn build_record(header: &Vec<Vec<u8>>, row: &Vec<Vec<u8>>) -> (rec: Vec<NamedValue>)
    ensures
        record_view(rec@) == record_of(
            crate::csv_parse::fields_view(header@),
            crate::csv_parse::fields_view(row@),
        ),
{
    let ghost h = crate::csv_parse::fields_view(header@);
    let ghost w = crate::csv_parse::fields_view(row@);
    let n: usize = if header.len() <= row.len() {
        header.len()
    } else {
        row.len()
    };
    let mut rec: Vec<NamedValue> = Vec::new();
    let mut i: usize = 0;
    proof {
        assert(record_view(rec@) =~= record_of_n(h, w, 0));
    }
    while i < n
        invariant
            i <= n,
            n == pair_count(h, w),
            h == crate::csv_parse::fields_view(header@),
            w == crate::csv_parse::fields_view(row@),
            h.len() == header@.len(),
            w.len() == row@.len(),
            record_view(rec@) == record_of_n(h, w, i as int),
            distinct_keys(record_view(rec@)),
        decreases n - i,
    {
        let ghost prev = record_view(rec@);
        let k = copy_bytes(&header[i]);
        let v = copy_bytes(&row[i]);
        match find_key(&rec, &k) {
            Some(j) => {
                proof {
                    assert(prev[j as int].0 == k@);
                    assert forall|t: int| 0 <= t < j implies prev[t].0 != k@ by {
                        assert(prev[t].0 != prev[j as int].0);
                    }
                    lemma_upsert_present(prev, k@, v@, j as int);
                }
                rec.set(j, NamedValue { name: k, value: v });
                proof {
                    assert(record_view(rec@) =~~= prev.update(j as int, (k@, v@)));
                }
            },
            None => {
                proof {
                    lemma_upsert_absent(prev, k@, v@);
                }
                rec.push(NamedValue { name: k, value: v });
                proof {
                    assert(record_view(rec@) =~~= prev.push((k@, v@)));
                }
            },
        }
        proof {
            lemma_upsert_distinct(prev, k@, v@);
        }
        i = i + 1;
    }
    rec
}

} // verus!
