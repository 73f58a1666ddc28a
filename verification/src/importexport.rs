//! Import, export and backup: relations as rows of named values, and whole
//! databases as byte-identical copies of the store.

use vstd::prelude::*;

use crate::db::{stored_counter, Db};
use crate::error::Error;
use crate::kv::{kv_insert, kv_insert_all, kv_lookup, kv_sorted, select_range, MemKv};
use crate::lex::{lex_lt, lemma_lex_trichotomy};
use crate::relation::{amend_key_prefix, cols_view, ColumnDef, RelationHandle};
use crate::session::{catalog_entry, SessionTx};
use crate::value::{clone_bytes, DataValue, Tuple, Val};

verus! {

/// One exported or imported relation body: rows as column-named objects, or
/// a header row with positional rows.
pub enum Payload {
    Objects(Vec<Vec<(Vec<u8>, DataValue)>>),
    Table { headers: Vec<Vec<u8>>, rows: Vec<Tuple> },
}

/// The column names of a relation: keys first, then non-keys.
pub fn relation_columns(h: &RelationHandle) -> (r: Vec<Vec<u8>>)
    ensures
        r@.len() == h@.keys.len() + h@.non_keys.len(),
        forall|i: int|
            0 <= i < h@.keys.len() ==> #[trigger] r@[i]@ == h@.keys[i].name,
        forall|i: int|
            0 <= i < h@.non_keys.len() ==> #[trigger] r@[h@.keys.len() + i]@
                == h@.non_keys[i].name,
{
    let mut out: Vec<Vec<u8>> = Vec::new();
    let mut i: usize = 0;
    while i < h.keys.len()
        invariant
            0 <= i <= h.keys@.len(),
            out@.len() == i,
            forall|j: int| 0 <= j < i ==> #[trigger] out@[j]@ == h.keys@[j]@.name,
        decreases h.keys@.len() - i,
    {
        out.push(clone_bytes(&h.keys[i].name));
        i = i + 1;
    }
    let nk = h.keys.len();
    let mut j: usize = 0;
    while j < h.non_keys.len()
        invariant
            0 <= j <= h.non_keys@.len(),
            nk == h.keys@.len(),
            out@.len() == nk + j,
            forall|m: int| 0 <= m < nk ==> #[trigger] out@[m]@ == h.keys@[m]@.name,
            forall|m: int| 0 <= m < j ==> #[trigger] out@[nk + m]@ == h.non_keys@[m]@.name,
        decreases h.non_keys@.len() - j,
    {
        out.push(clone_bytes(&h.non_keys[j].name));
        j = j + 1;
    }
    proof {
        assert(h@.keys.len() == h.keys@.len());
        assert(h@.non_keys.len() == h.non_keys@.len());
        assert forall|m: int| 0 <= m < h@.keys.len() implies #[trigger] out@[m]@
            == h@.keys[m].name by {
            assert(h@.keys[m] == h.keys@[m]@);
        }
        assert forall|m: int| 0 <= m < h@.non_keys.len() implies #[trigger] out@[h@.keys.len()
            + m]@ == h@.non_keys[m].name by {
            assert(h@.non_keys[m] == h.non_keys@[m]@);
        }
    }
    out
}

/// The column names of a handle in declaration order, keys first.
pub open spec fn handle_col_names(h: crate::relation::HandleV) -> Seq<Seq<u8>> {
    Seq::new(
        h.keys.len() + h.non_keys.len(),
        |i: int|
            if i < h.keys.len() {
                h.keys[i].name
            } else {
                h.non_keys[i - h.keys.len()].name
            },
    )
}

/// Whether a relation can be exported from a store: it is in the catalog
/// under an id with a successor, and every stored pair of its range decodes.
pub open spec fn exportable(s: Seq<(Seq<u8>, Seq<u8>)>, name: Seq<u8>) -> bool {
    catalog_entry(s, name) matches Some(h) && h.id < u64::MAX && crate::query::decode_pairs(
        select_range(
            s,
            crate::relation::range_lower(h.id),
            crate::relation::range_lower((h.id + 1) as u64),
        ),
    ) is Some
}

/// What an exported body claims: the relation is in the catalog, its range
/// decodes, and the body carries exactly those rows under exactly the
/// relation's column names (an object row pairs columns with values up to
/// the shorter of the two).
pub open spec fn payload_exact(
    p: Payload,
    s: Seq<(Seq<u8>, Seq<u8>)>,
    name: Seq<u8>,
    as_objects: bool,
) -> bool {
    catalog_entry(s, name) matches Some(h) && h.id < u64::MAX && (crate::query::decode_pairs(
        select_range(
            s,
            crate::relation::range_lower(h.id),
            crate::relation::range_lower((h.id + 1) as u64),
        ),
    ) matches Some(rows) && (match p {
        Payload::Table { headers, rows: ts } => {
            &&& !as_objects
            &&& headers@.len() == handle_col_names(h).len()
            &&& (forall|j: int|
                0 <= j < headers@.len() ==> (#[trigger] headers@[j])@ == handle_col_names(h)[j])
            &&& crate::query::tuples_view(ts@) == rows
        },
        Payload::Objects(objs) => {
            &&& as_objects
            &&& objs@.len() == rows.len()
            &&& (forall|r: int, c: int|
                0 <= r < rows.len() && 0 <= c < objs@[r]@.len() ==> (#[trigger] objs@[r]@[c]).0@
                    == handle_col_names(h)[c] && objs@[r]@[c].1@ == rows[r][c])
            &&& (forall|r: int|
                0 <= r < rows.len() ==> (#[trigger] objs@[r])@.len() == (if handle_col_names(
                    h,
                ).len() <= rows[r].len() {
                    handle_col_names(h).len() as int
                } else {
                    rows[r].len() as int
                }))
        },
    }))
}

/// The value a column receives from an object row: the object's binding
/// under the column's name, else the column's default.
pub open spec fn resolve_col(c: crate::relation::ColV, obj: Seq<(Vec<u8>, DataValue)>) -> Val {
    match obj_lookup(obj, c.name) {
        Some(v) => v,
        None => c.default_gen.unwrap(),
    }
}

/// The tuple an object row yields for a column list.
pub open spec fn obj_tuple(cols: Seq<crate::relation::ColV>, obj: Seq<(Vec<u8>, DataValue)>) -> Seq<
    Val,
> {
    Seq::new(cols.len(), |i: int| resolve_col(cols[i], obj))
}

/// The tuple a positional row yields for a column list under headers,
/// each column reading the position its name resolves to.
pub open spec fn table_tuple(
    cols: Seq<crate::relation::ColV>,
    headers: Seq<Vec<u8>>,
    row: Seq<Val>,
) -> Seq<Val> {
    Seq::new(cols.len(), |i: int| row[hdr_last(headers, cols[i].name)])
}

/// The store after importing a list of object rows into relation `id`.
pub open spec fn objs_effect(
    s: Seq<(Seq<u8>, Seq<u8>)>,
    id: u64,
    keys: Seq<crate::relation::ColV>,
    nks: Seq<crate::relation::ColV>,
    objs: Seq<Vec<(Vec<u8>, DataValue)>>,
    del: bool,
) -> Seq<(Seq<u8>, Seq<u8>)>
    decreases objs.len(),
{
    if objs.len() == 0 {
        s
    } else {
        let kt = obj_tuple(keys, objs[0]@);
        let s2 = if del {
            crate::kv::kv_remove(s, crate::relation::key_bytes(id, kt))
        } else {
            kv_insert(
                s,
                crate::relation::key_bytes(id, kt),
                crate::codec::enc_row(obj_tuple(nks, objs[0]@)),
            )
        };
        objs_effect(s2, id, keys, nks, objs.drop_first(), del)
    }
}

/// The store after importing a list of positional rows into relation `id`.
pub open spec fn table_effect(
    s: Seq<(Seq<u8>, Seq<u8>)>,
    id: u64,
    keys: Seq<crate::relation::ColV>,
    nks: Seq<crate::relation::ColV>,
    headers: Seq<Vec<u8>>,
    rows: Seq<Tuple>,
    del: bool,
) -> Seq<(Seq<u8>, Seq<u8>)>
    decreases rows.len(),
{
    if rows.len() == 0 {
        s
    } else {
        let kt = table_tuple(keys, headers, rows[0]@);
        let s2 = if del {
            crate::kv::kv_remove(s, crate::relation::key_bytes(id, kt))
        } else {
            kv_insert(
                s,
                crate::relation::key_bytes(id, kt),
                crate::codec::enc_row(table_tuple(nks, headers, rows[0]@)),
            )
        };
        table_effect(s2, id, keys, nks, headers, rows.drop_first(), del)
    }
}

/// A leading `-` on a payload's relation name selects delete mode.
pub open spec fn entry_delete(raw: Seq<u8>) -> bool {
    raw.len() > 0 && raw[0] == 45u8
}

pub open spec fn entry_name(raw: Seq<u8>) -> Seq<u8> {
    if entry_delete(raw) {
        raw.skip(1)
    } else {
        raw
    }
}

/// The store after importing one payload, against the catalog the store
/// then holds.
pub open spec fn entry_effect(s: Seq<(Seq<u8>, Seq<u8>)>, e: (Vec<u8>, Payload)) -> Seq<
    (Seq<u8>, Seq<u8>),
> {
    match catalog_entry(s, entry_name(e.0@)) {
        None => s,
        Some(h) => match e.1 {
            Payload::Objects(objs) => objs_effect(
                s,
                h.id,
                h.keys,
                h.non_keys,
                objs@,
                entry_delete(e.0@),
            ),
            Payload::Table { headers, rows } => table_effect(
                s,
                h.id,
                h.keys,
                h.non_keys,
                headers@,
                rows@,
                entry_delete(e.0@),
            ),
        },
    }
}

/// Whether every requested relation can be imported from a backup: each is
/// bound in both catalogs, the source id has a successor, and every source
/// key carries the 8-byte id prefix; checked against the evolving
/// destination.
pub open spec fn backup_importable(
    dst: Seq<(Seq<u8>, Seq<u8>)>,
    src: Seq<(Seq<u8>, Seq<u8>)>,
    relations: Seq<Vec<u8>>,
) -> bool
    decreases relations.len(),
{
    if relations.len() == 0 {
        true
    } else {
        let nm = relations[0]@;
        (catalog_entry(src, nm) matches Some(sh) && sh.id < u64::MAX && catalog_entry(
            dst,
            nm,
        ) is Some && (forall|q: int|
            0 <= q < select_range(
                src,
                crate::relation::range_lower(sh.id),
                crate::relation::range_lower((sh.id + 1) as u64),
            ).len() ==> (#[trigger] select_range(
                src,
                crate::relation::range_lower(sh.id),
                crate::relation::range_lower((sh.id + 1) as u64),
            )[q]).0.len() >= 8)) && backup_importable(
            backup_one_effect(dst, src, nm),
            src,
            relations.drop_first(),
        )
    }
}

/// A pair carried over from a backup: the destination id replaces the
/// 8-byte prefix of the key; the value bytes are kept, since this encoding
/// embeds no relation id in values.
pub open spec fn amended_pair(id: u64, p: (Seq<u8>, Seq<u8>)) -> (Seq<u8>, Seq<u8>) {
    (crate::codec::be8(id) + p.0.skip(8), p.1)
}

/// The store after writing a backup range's pairs under a new id prefix.
pub open spec fn copy_pairs_effect(
    s: Seq<(Seq<u8>, Seq<u8>)>,
    id: u64,
    pairs: Seq<(Seq<u8>, Seq<u8>)>,
) -> Seq<(Seq<u8>, Seq<u8>)>
    decreases pairs.len(),
{
    if pairs.len() == 0 {
        s
    } else {
        copy_pairs_effect(
            kv_insert(s, amended_pair(id, pairs[0]).0, amended_pair(id, pairs[0]).1),
            id,
            pairs.drop_first(),
        )
    }
}

/// The store after importing one relation from a backup: the source range
/// of the relation's id there, re-prefixed with its id here.
pub open spec fn backup_one_effect(
    dst: Seq<(Seq<u8>, Seq<u8>)>,
    src: Seq<(Seq<u8>, Seq<u8>)>,
    nm: Seq<u8>,
) -> Seq<(Seq<u8>, Seq<u8>)> {
    match (catalog_entry(src, nm), catalog_entry(dst, nm)) {
        (Some(sh), Some(dh)) => copy_pairs_effect(
            dst,
            dh.id,
            select_range(
                src,
                crate::relation::range_lower(sh.id),
                crate::relation::range_lower((sh.id + 1) as u64),
            ),
        ),
        _ => dst,
    }
}

/// The store after importing every requested relation in order.
pub open spec fn backup_import_effect(
    dst: Seq<(Seq<u8>, Seq<u8>)>,
    src: Seq<(Seq<u8>, Seq<u8>)>,
    relations: Seq<Vec<u8>>,
) -> Seq<(Seq<u8>, Seq<u8>)>
    decreases relations.len(),
{
    if relations.len() == 0 {
        dst
    } else {
        backup_import_effect(
            backup_one_effect(dst, src, relations[0]@),
            src,
            relations.drop_first(),
        )
    }
}

/// Whether an object row resolves one column: it binds the name or the
/// column has a default, and the resolved value fits the column's type.
pub open spec fn obj_col_ok(c: crate::relation::ColV, obj: Seq<(Vec<u8>, DataValue)>) -> bool {
    (obj_lookup(obj, c.name) is Some || c.default_gen is Some) && c.typing.spec_admits(
        resolve_col(c, obj),
    )
}

pub open spec fn obj_entry_ok(cols: Seq<crate::relation::ColV>, obj: Seq<(Vec<u8>, DataValue)>) -> bool {
    forall|c: int| 0 <= c < cols.len() ==> obj_col_ok(#[trigger] cols[c], obj)
}

pub open spec fn objs_ok(
    keys: Seq<crate::relation::ColV>,
    nks: Seq<crate::relation::ColV>,
    objs: Seq<Vec<(Vec<u8>, DataValue)>>,
    del: bool,
) -> bool {
    forall|r: int|
        0 <= r < objs.len() ==> (obj_entry_ok(keys, (#[trigger] objs[r])@) && (!del
            ==> obj_entry_ok(nks, objs[r]@)))
}

/// Whether the headers cover every column of a list.
pub open spec fn table_cols_ok(cols: Seq<crate::relation::ColV>, headers: Seq<Vec<u8>>) -> bool {
    forall|c: int| 0 <= c < cols.len() ==> hdr_last(headers, (#[trigger] cols[c]).name) >= 0
}

/// Whether every row is long enough for every column's resolved position
/// and carries an admissible value there.
pub open spec fn table_rows_ok(
    cols: Seq<crate::relation::ColV>,
    headers: Seq<Vec<u8>>,
    rows: Seq<Tuple>,
) -> bool {
    forall|r: int, c: int|
        0 <= r < rows.len() && 0 <= c < cols.len() ==> (hdr_last(headers, (#[trigger] cols[c]).name)
            < (#[trigger] rows[r])@.len() && cols[c].typing.spec_admits(
            rows[r]@[hdr_last(headers, cols[c].name)],
        ))
}

/// Whether one payload resolves against the store it is imported into.
pub open spec fn entry_ok(s: Seq<(Seq<u8>, Seq<u8>)>, e: (Vec<u8>, Payload)) -> bool {
    catalog_entry(s, entry_name(e.0@)) matches Some(h) && (match e.1 {
        Payload::Objects(objs) => objs_ok(h.keys, h.non_keys, objs@, entry_delete(e.0@)),
        Payload::Table { headers, rows } => table_cols_ok(h.keys, headers@) && table_rows_ok(
            h.keys,
            headers@,
            rows@,
        ) && (!entry_delete(e.0@) ==> (table_cols_ok(h.non_keys, headers@) && table_rows_ok(
            h.non_keys,
            headers@,
            rows@,
        ))),
    })
}

/// Whether a whole import resolves, payload after payload over the evolving
/// store: exactly then the import succeeds.
pub open spec fn importable(s: Seq<(Seq<u8>, Seq<u8>)>, data: Seq<(Vec<u8>, Payload)>) -> bool
    decreases data.len(),
{
    if data.len() == 0 {
        true
    } else {
        entry_ok(s, data[0]) && importable(entry_effect(s, data[0]), data.drop_first())
    }
}

/// The store after importing every payload in order.
pub open spec fn import_effect(
    s: Seq<(Seq<u8>, Seq<u8>)>,
    data: Seq<(Vec<u8>, Payload)>,
) -> Seq<(Seq<u8>, Seq<u8>)>
    decreases data.len(),
{
    if data.len() == 0 {
        s
    } else {
        import_effect(entry_effect(s, data[0]), data.drop_first())
    }
}

impl Db {
    /// Exports stored relations. Each relation's rows are read from its key
    /// range and decoded; object form names every value by its column,
    /// array form hands the column names once as headers.
    pub fn export_relations(&self, relations: &Vec<Vec<u8>>, as_objects: bool) -> (r: Result<
        Vec<(Vec<u8>, Payload)>,
        Error,
    >)
        requires
            self.wf(),
        ensures
            r matches Ok(out) ==> out@.len() == relations@.len(),
            r matches Ok(out) ==> forall|i: int|
                0 <= i < out@.len() ==> (#[trigger] out@[i]).0@ == relations@[i]@,
            r matches Ok(out) ==> forall|i: int|
                0 <= i < out@.len() ==> payload_exact(
                    (#[trigger] out@[i]).1,
                    self.store@,
                    relations@[i]@,
                    as_objects,
                ),
            (forall|i: int|
                0 <= i < relations@.len() ==> exportable(
                    self.store@,
                    (#[trigger] relations@[i])@,
                )) ==> r is Ok,
            r matches Err(e) ==> (e is StoredRelationNotFound || e is DbInit) && (exists|i: int|
                0 <= i < relations@.len() && !exportable(
                    self.store@,
                    (#[trigger] relations@[i])@,
                )),
    {
        let tx = self.transact();
        let mut out: Vec<(Vec<u8>, Payload)> = Vec::new();
        let mut i: usize = 0;
        while i < relations.len()
            invariant
                0 <= i <= relations@.len(),
                out@.len() == i,
                tx.wf(),
                tx.store@ == self.store@,
                forall|j: int| 0 <= j < i ==> (#[trigger] out@[j]).0@ == relations@[j]@,
                forall|j: int|
                    0 <= j < i ==> payload_exact(
                        (#[trigger] out@[j]).1,
                        tx.store@,
                        relations@[j]@,
                        as_objects,
                    ),
            decreases relations@.len() - i,
        {
            let payload = match export_one(&tx, &relations[i], as_objects) {
                Ok(p) => p,
                Err(e) => {
                    proof {
                        assert(!exportable(self.store@, relations@[i as int]@));
                    }
                    return Err(e);
                },
            };
            out.push((clone_bytes(&relations[i]), payload));
            i = i + 1;
        }
        Ok(out)
    }

    /// Imports rows into existing relations, all under one writable session
    /// committed at the end; nothing is visible on error. A leading `-` on
    /// a relation name selects delete mode. A row that misses a required
    /// column with no default, or carries a value outside its column's
    /// type, fails with `import::bad_data`.
    pub fn import_relations(&mut self, data: &Vec<(Vec<u8>, Payload)>) -> (r: Result<(), Error>)
        requires
            old(self).wf(),
        ensures
            final(self).wf(),
            r is Err ==> final(self).store@ == old(self).store@ && final(self).relation_store_id
                == old(self).relation_store_id,
            final(self).running == old(self).running,
            r is Ok ==> final(self).store@ == kv_insert(
                import_effect(old(self).store@, data@),
                crate::session::counter_key_v(),
                crate::codec::be8(old(self).relation_store_id),
            ) && final(self).relation_store_id == old(self).relation_store_id && stored_counter(
                final(self).store@,
            ) == Some(old(self).relation_store_id),
            importable(old(self).store@, data@) ==> r is Ok,
            r matches Err(e) ==> (e is StoredRelationNotFound || e is DbInit || e
                is ImportBadData),
    {
        let mut tx = self.transact_write();
        let mut i: usize = 0;
        proof {
            assert(data@.skip(0) =~= data@);
        }
        while i < data.len()
            invariant
                0 <= i <= data@.len(),
                tx.wf(),
                tx.write,
                tx.relation_store_id == old(self).relation_store_id,
                import_effect(old(self).store@, data@) == import_effect(
                    tx.store@,
                    data@.skip(i as int),
                ),
                importable(old(self).store@, data@) ==> importable(
                    tx.store@,
                    data@.skip(i as int),
                ),
                self.wf(),
                self.store@ == old(self).store@,
                self.relation_store_id == old(self).relation_store_id,
                self.running == old(self).running,
            decreases data@.len() - i,
        {
            proof {
                assert(data@.skip(i as int)[0] == data@[i as int]);
                assert(data@.skip(i as int).drop_first() =~= data@.skip(i + 1));
            }
            let ghost entry_start = tx.store@;
            let name_raw = &data[i].0;
            let is_delete = name_raw.len() > 0 && name_raw[0] == 45u8;
            let name = if is_delete {
                crate::codec::copy_range(name_raw, 1, name_raw.len())
            } else {
                clone_bytes(name_raw)
            };
            proof {
                assert(is_delete == entry_delete(name_raw@));
                if is_delete {
                    assert(name@ =~= name_raw@.skip(1));
                }
                assert(name@ == entry_name(data@[i as int].0@));
            }
            let h = match tx.get_relation(&name) {
                Ok(h) => h,
                Err(e) => {
                    proof {
                        if importable(old(self).store@, data@) {
                            assert(entry_ok(tx.store@, data@[i as int]));
                        }
                    }
                    return Err(e);
                },
            };
            proof {
                if importable(old(self).store@, data@) {
                    assert(entry_ok(entry_start, data@[i as int]));
                }
            }
            match &data[i].1 {
                Payload::Objects(objs) => {
                    let mut m: usize = 0;
                    proof {
                        assert(objs@.skip(0) =~= objs@);
                    }
                    while m < objs.len()
                        invariant
                            0 <= m <= objs@.len(),
                            0 <= i < data@.len(),
                            data@[i as int].1 == Payload::Objects(*objs),
                            is_delete == entry_delete(data@[i as int].0@),
                            name@ == entry_name(data@[i as int].0@),
                            catalog_entry(entry_start, name@) == Some(h@),
                            importable(old(self).store@, data@) ==> entry_ok(
                                entry_start,
                                data@[i as int],
                            ),
                            tx.wf(),
                            tx.write,
                            tx.relation_store_id == old(self).relation_store_id,
                            objs_effect(
                                entry_start,
                                h@.id,
                                h@.keys,
                                h@.non_keys,
                                objs@,
                                is_delete,
                            ) == objs_effect(
                                tx.store@,
                                h@.id,
                                h@.keys,
                                h@.non_keys,
                                objs@.skip(m as int),
                                is_delete,
                            ),
                            self.wf(),
                            self.store@ == old(self).store@,
                            self.relation_store_id == old(self).relation_store_id,
                            self.running == old(self).running,
                        decreases objs@.len() - m,
                    {
                        proof {
                            assert(objs@.skip(m as int)[0] == objs@[m as int]);
                            assert(objs@.skip(m as int).drop_first() =~= objs@.skip(m + 1));
                        }
                        let obj = &objs[m];
                        let keys_t = match values_by_columns(&h.keys, obj, &name) {
                            Ok(t) => t,
                            Err(e) => {
                                proof {
                                    if importable(old(self).store@, data@) {
                                        assert(obj_entry_ok(h@.keys, objs@[m as int]@));
                                        let c = choose|c: int|
                                            0 <= c < h.keys@.len() && !obj_col_ok(
                                                h.keys@[c]@,
                                                obj@,
                                            );
                                        assert(cols_view(h.keys@)[c] == h.keys@[c]@);
                                        assert(obj_col_ok(h@.keys[c], objs@[m as int]@));
                                    }
                                }
                                return Err(e);
                            },
                        };
                        proof {
                            assert forall|c: int| 0 <= c < keys_t@.len() implies keys_t@[c]
                                == obj_tuple(h@.keys, objs@[m as int]@)[c] by {
                                assert(cols_view(h.keys@)[c] == h.keys@[c]@);
                            }
                            assert(keys_t@ =~= obj_tuple(h@.keys, objs@[m as int]@));
                        }
                        if is_delete {
                            tx.del_row(&h, &keys_t);
                        } else {
                            let vals_t = match values_by_columns(&h.non_keys, obj, &name) {
                                Ok(t) => t,
                                Err(e) => {
                                    proof {
                                        if importable(old(self).store@, data@) {
                                            assert(obj_entry_ok(h@.non_keys, objs@[m as int]@));
                                            let c = choose|c: int|
                                                0 <= c < h.non_keys@.len() && !obj_col_ok(
                                                    h.non_keys@[c]@,
                                                    obj@,
                                                );
                                            assert(cols_view(h.non_keys@)[c] == h.non_keys@[c]@);
                                            assert(obj_col_ok(h@.non_keys[c], objs@[m as int]@));
                                        }
                                    }
                                    return Err(e);
                                },
                            };
                            proof {
                                assert forall|c: int| 0 <= c < vals_t@.len() implies vals_t@[c]
                                    == obj_tuple(h@.non_keys, objs@[m as int]@)[c] by {
                                    assert(cols_view(h.non_keys@)[c] == h.non_keys@[c]@);
                                }
                                assert(vals_t@ =~= obj_tuple(h@.non_keys, objs@[m as int]@));
                            }
                            tx.put_row(&h, &keys_t, &vals_t);
                        }
                        m = m + 1;
                    }
                    proof {
                        assert(objs@.skip(objs@.len() as int).len() == 0);
                        assert(catalog_entry(entry_start, name@) == Some(h@));
                        assert(data@[i as int].1 == Payload::Objects(*objs));
                        assert(entry_effect(entry_start, data@[i as int]) == tx.store@);
                        if importable(old(self).store@, data@) {
                            assert(importable(tx.store@, data@.skip(i + 1)));
                        }
                    }
                },
                Payload::Table { headers, rows } => {
                    let key_idx = match header_indices(&h.keys, headers, &name) {
                        Ok(v) => v,
                        Err(e) => {
                            proof {
                                if importable(old(self).store@, data@) {
                                    assert(table_cols_ok(h@.keys, headers@));
                                    let c = choose|c: int|
                                        0 <= c < h.keys@.len() && hdr_last(
                                            headers@,
                                            h.keys@[c]@.name,
                                        ) == -1;
                                    assert(cols_view(h.keys@)[c] == h.keys@[c]@);
                                    assert(hdr_last(headers@, h@.keys[c].name) >= 0);
                                }
                            }
                            return Err(e);
                        },
                    };
                    let val_idx = if is_delete {
                        Vec::new()
                    } else {
                        match header_indices(&h.non_keys, headers, &name) {
                            Ok(v) => v,
                            Err(e) => {
                                proof {
                                    if importable(old(self).store@, data@) {
                                        assert(table_cols_ok(h@.non_keys, headers@));
                                        let c = choose|c: int|
                                            0 <= c < h.non_keys@.len() && hdr_last(
                                                headers@,
                                                h.non_keys@[c]@.name,
                                            ) == -1;
                                        assert(cols_view(h.non_keys@)[c] == h.non_keys@[c]@);
                                        assert(hdr_last(headers@, h@.non_keys[c].name) >= 0);
                                    }
                                }
                                return Err(e);
                            },
                        }
                    };
                    let mut m: usize = 0;
                    proof {
                        assert(rows@.skip(0) =~= rows@);
                    }
                    while m < rows.len()
                        invariant
                            0 <= m <= rows@.len(),
                            0 <= i < data@.len(),
                            data@[i as int].1 == (Payload::Table {
                                headers: *headers,
                                rows: *rows,
                            }),
                            is_delete == entry_delete(data@[i as int].0@),
                            name@ == entry_name(data@[i as int].0@),
                            catalog_entry(entry_start, name@) == Some(h@),
                            importable(old(self).store@, data@) ==> entry_ok(
                                entry_start,
                                data@[i as int],
                            ),
                            tx.wf(),
                            tx.write,
                            tx.relation_store_id == old(self).relation_store_id,
                            table_effect(
                                entry_start,
                                h@.id,
                                h@.keys,
                                h@.non_keys,
                                headers@,
                                rows@,
                                is_delete,
                            ) == table_effect(
                                tx.store@,
                                h@.id,
                                h@.keys,
                                h@.non_keys,
                                headers@,
                                rows@.skip(m as int),
                                is_delete,
                            ),
                            self.wf(),
                            self.store@ == old(self).store@,
                            self.relation_store_id == old(self).relation_store_id,
                            self.running == old(self).running,
                            key_idx@.len() == h.keys@.len(),
                            forall|c: int|
                                0 <= c < key_idx@.len() ==> (#[trigger] key_idx@[c]) as int
                                    == hdr_last(headers@, cols_view(h.keys@)[c].name),
                            is_delete || (val_idx@.len() == h.non_keys@.len() && (forall|c: int|
                                0 <= c < val_idx@.len() ==> (#[trigger] val_idx@[c]) as int
                                    == hdr_last(headers@, cols_view(h.non_keys@)[c].name))),
                        decreases rows@.len() - m,
                    {
                        proof {
                            assert(rows@.skip(m as int)[0] == rows@[m as int]);
                            assert(rows@.skip(m as int).drop_first() =~= rows@.skip(m + 1));
                        }
                        let row = &rows[m];
                        let keys_t = match values_by_indices(&h.keys, &key_idx, row, &name) {
                            Ok(t) => t,
                            Err(e) => {
                                proof {
                                    if importable(old(self).store@, data@) {
                                        assert(table_rows_ok(h@.keys, headers@, rows@));
                                        let c = choose|c: int|
                                            0 <= c < h.keys@.len() && ((key_idx@[c] as int)
                                                >= row@.len() || !h.keys@[c]@.typing.spec_admits(
                                                row@[key_idx@[c] as int],
                                            ));
                                        assert(cols_view(h.keys@)[c] == h.keys@[c]@);
                                        assert(key_idx@[c] as int == hdr_last(
                                            headers@,
                                            cols_view(h.keys@)[c].name,
                                        ));
                                        assert(rows@[m as int]@ == row@);
                                        assert(hdr_last(headers@, h@.keys[c].name)
                                            < rows@[m as int]@.len()
                                            && h@.keys[c].typing.spec_admits(
                                            rows@[m as int]@[hdr_last(
                                                headers@,
                                                h@.keys[c].name,
                                            )],
                                        ));
                                    }
                                }
                                return Err(e);
                            },
                        };
                        proof {
                            assert forall|c: int| 0 <= c < keys_t@.len() implies keys_t@[c]
                                == table_tuple(h@.keys, headers@, rows@[m as int]@)[c] by {
                                assert(cols_view(h.keys@)[c] == h.keys@[c]@);
                                assert(key_idx@[c] as int == hdr_last(
                                    headers@,
                                    cols_view(h.keys@)[c].name,
                                ));
                                assert(keys_t@[c] == row@[key_idx@[c] as int]);
                                assert(row@ == rows@[m as int]@);
                            }
                            assert(keys_t@ =~= table_tuple(h@.keys, headers@, rows@[m as int]@));
                        }
                        if is_delete {
                            tx.del_row(&h, &keys_t);
                        } else {
                            let vals_t = match values_by_indices(
                                &h.non_keys,
                                &val_idx,
                                row,
                                &name,
                            ) {
                                Ok(t) => t,
                                Err(e) => {
                                    proof {
                                        if importable(old(self).store@, data@) {
                                            assert(table_rows_ok(h@.non_keys, headers@, rows@));
                                            let c = choose|c: int|
                                                0 <= c < h.non_keys@.len() && ((
                                                val_idx@[c] as int) >= row@.len()
                                                    || !h.non_keys@[c]@.typing.spec_admits(
                                                    row@[val_idx@[c] as int],
                                                ));
                                            assert(cols_view(h.non_keys@)[c] == h.non_keys@[c]@);
                                            assert(val_idx@[c] as int == hdr_last(
                                                headers@,
                                                cols_view(h.non_keys@)[c].name,
                                            ));
                                            assert(rows@[m as int]@ == row@);
                                            assert(hdr_last(headers@, h@.non_keys[c].name)
                                                < rows@[m as int]@.len()
                                                && h@.non_keys[c].typing.spec_admits(
                                                rows@[m as int]@[hdr_last(
                                                    headers@,
                                                    h@.non_keys[c].name,
                                                )],
                                            ));
                                        }
                                    }
                                    return Err(e);
                                },
                            };
                            proof {
                                assert forall|c: int| 0 <= c < vals_t@.len() implies vals_t@[c]
                                    == table_tuple(h@.non_keys, headers@, rows@[m as int]@)[c] by {
                                    assert(cols_view(h.non_keys@)[c] == h.non_keys@[c]@);
                                    assert(val_idx@[c] as int == hdr_last(
                                        headers@,
                                        cols_view(h.non_keys@)[c].name,
                                    ));
                                    assert(vals_t@[c] == row@[val_idx@[c] as int]);
                                    assert(row@ == rows@[m as int]@);
                                }
                                assert(vals_t@ =~= table_tuple(
                                    h@.non_keys,
                                    headers@,
                                    rows@[m as int]@,
                                ));
                            }
                            tx.put_row(&h, &keys_t, &vals_t);
                        }
                        m = m + 1;
                    }
                    proof {
                        assert(rows@.skip(rows@.len() as int).len() == 0);
                        assert(catalog_entry(entry_start, name@) == Some(h@));
                        assert(data@[i as int].1 == (Payload::Table {
                            headers: *headers,
                            rows: *rows,
                        }));
                        assert(entry_effect(entry_start, data@[i as int]) == tx.store@);
                        if importable(old(self).store@, data@) {
                            assert(importable(tx.store@, data@.skip(i + 1)));
                        }
                    }
                },
            }
            i = i + 1;
        }
        proof {
            assert(data@.skip(data@.len() as int).len() == 0);
        }
        self.commit_tx(tx);
        Ok(())
    }

    /// Copies the full key range of this database into a fresh storage
    /// instance: the backup is byte-identical to the store.
    pub fn backup_db(&self) -> (r: Result<MemKv, Error>)
        requires
            self.wf(),
        ensures
            r matches Ok(b) && b.wf() && b@ == select_range(
                self.store@,
                Seq::<u8>::empty(),
                seq![1u8],
            ),
    {
        let lo: Vec<u8> = Vec::new();
        let mut hi: Vec<u8> = Vec::new();
        hi.push(1u8);
        let pairs = self.store.range_scan(&lo, &hi);
        let mut b = MemKv::new();
        proof {
            assert(hi@ =~= seq![1u8]);
            assert(lo@ =~= Seq::<u8>::empty());
            crate::kv::lemma_select_range_sorted(self.store@, lo@, hi@);
        }
        b.batch_put(pairs);
        proof {
            lemma_insert_all_sorted(
                select_range(self.store@, Seq::<u8>::empty(), seq![1u8]),
            );
        }
        Ok(b)
    }

    /// Restores a backup into this database. Refused unless the database is
    /// fresh: the allocator still zero and the store empty; a backup whose
    /// allocator bytes are malformed is refused before anything is written.
    /// Afterwards the store holds exactly the backup's full key range, byte
    /// for byte, with the allocator read back from it: the catalog listing
    /// and every relation's row set equal the backup's.
    pub fn restore_backup(&mut self, backup: &MemKv) -> (r: Result<(), Error>)
        requires
            old(self).wf(),
            backup.wf(),
        ensures
            final(self).wf(),
            final(self).running == old(self).running,
            match r {
                Ok(_) => {
                    &&& old(self).relation_store_id == 0
                    &&& old(self).store@.len() == 0
                    &&& final(self).store@ == select_range(
                        backup@,
                        Seq::<u8>::empty(),
                        seq![1u8],
                    )
                    &&& stored_counter(final(self).store@) == Some(final(self).relation_store_id)
                    &&& final(self).relation_store_id == (match kv_lookup(
                        backup@,
                        crate::session::counter_key_v(),
                    ) {
                        None => 0u64,
                        Some(b) => (crate::codec::from_be(b) as u64),
                    })
                },
                Err(e) => {
                    &&& final(self).store@ == old(self).store@
                    &&& final(self).relation_store_id == old(self).relation_store_id
                    &&& (e is RestoreIntoNonEmpty || e is DbInit)
                    &&& (e is RestoreIntoNonEmpty ==> old(self).relation_store_id != 0 || old(
                        self,
                    ).store@.len() != 0)
                    &&& (e is DbInit ==> (kv_lookup(
                        backup@,
                        crate::session::counter_key_v(),
                    ) matches Some(b) && b.len() != 8))
                },
            },
            (old(self).relation_store_id == 0 && old(self).store@.len() == 0 && (kv_lookup(
                backup@,
                crate::session::counter_key_v(),
            ) matches Some(b) ==> b.len() == 8)) ==> r is Ok,
    {
        if self.relation_store_id != 0 {
            return Err(Error::RestoreIntoNonEmpty);
        }
        if self.store.entries.len() != 0 {
            proof {
                assert(self.store@.len() == self.store.entries@.len());
            }
            return Err(Error::RestoreIntoNonEmpty);
        }
        proof {
            assert(self.store@.len() == self.store.entries@.len());
        }
        let ck = crate::session::counter_key();
        let cval: u64 = match self.backup_counter(backup, &ck) {
            Ok(v) => v,
            Err(e) => {
                return Err(e);
            },
        };
        let lo: Vec<u8> = Vec::new();
        let mut hi: Vec<u8> = Vec::new();
        hi.push(1u8);
        let pairs = backup.range_scan(&lo, &hi);
        proof {
            assert(hi@ =~= seq![1u8]);
            assert(lo@ =~= Seq::<u8>::empty());
            crate::kv::lemma_select_range_sorted(backup@, lo@, hi@);
        }
        self.store.batch_put(pairs);
        self.relation_store_id = cval;
        proof {
            let win = select_range(backup@, Seq::<u8>::empty(), seq![1u8]);
            assert(old(self).store@ =~= Seq::<(Seq<u8>, Seq<u8>)>::empty());
            lemma_insert_all_sorted(win);
            let ckv = crate::session::counter_key_v();
            assert(crate::kv::in_range(ckv, Seq::<u8>::empty(), seq![1u8])) by {
                crate::codec::lemma_be_bytes_len(0, 8);
                assert(ckv[0] == crate::codec::be8(0)[0]);
                assert(crate::codec::be8(0)[0] == 0u8) by {
                    lemma_be_zero_bytes(8);
                }
                assert(!crate::lex::lex_lt(ckv, Seq::<u8>::empty()));
                assert(crate::lex::lex_lt(ckv, seq![1u8]));
            }
            crate::kv::lemma_select_range_lookup(backup@, Seq::<u8>::empty(), seq![1u8], ckv);
        }
        Ok(())
    }

    /// Reads and validates the allocator bytes a backup carries, before
    /// anything of the backup is written here.
    fn backup_counter(&self, backup: &MemKv, ck: &Vec<u8>) -> (r: Result<u64, Error>)
        requires
            ck@ == crate::session::counter_key_v(),
        ensures
            match r {
                Ok(v) => v as int == (match kv_lookup(backup@, crate::session::counter_key_v()) {
                    None => 0int,
                    Some(b) => crate::codec::from_be(b),
                }) && (kv_lookup(backup@, crate::session::counter_key_v()) matches Some(b)
                    ==> b.len() == 8),
                Err(e) => e is DbInit && (kv_lookup(
                    backup@,
                    crate::session::counter_key_v(),
                ) matches Some(b) && b.len() != 8),
            },
    {
        match backup.get(ck) {
            None => Ok(0),
            Some(b) => {
                if b.len() != 8 {
                    return Err(Error::DbInit);
                }
                let x = crate::codec::be_decode(b.as_slice());
                proof {
                    crate::codec::lemma_from_be_bound(b@);
                    crate::codec::lemma_pow256_8();
                }
                Ok(x)
            },
        }
    }

    /// Imports whole relations from a backup: each requested relation's
    /// rows are read from the backup's range for it, their id prefix is
    /// rewritten to the destination relation's id, and the pairs are
    /// written here. Both relations must exist in their own catalogs.
    pub fn import_from_backup(&mut self, backup: &MemKv, relations: &Vec<Vec<u8>>) -> (r: Result<
        (),
        Error,
    >)
        requires
            old(self).wf(),
            backup.wf(),
        ensures
            final(self).wf(),
            final(self).running == old(self).running,
            r is Err ==> final(self).store@ == old(self).store@ && final(self).relation_store_id
                == old(self).relation_store_id,
            r is Ok ==> final(self).store@ == kv_insert(
                backup_import_effect(old(self).store@, backup@, relations@),
                crate::session::counter_key_v(),
                crate::codec::be8(old(self).relation_store_id),
            ) && final(self).relation_store_id == old(self).relation_store_id,
            backup_importable(old(self).store@, backup@, relations@) ==> r is Ok,
            r matches Err(e) ==> (e is StoredRelationNotFound || e is DbInit),
    {
        let src_tx = SessionTx {
            store: backup.duplicate(),
            relation_store_id: 0,
            write: false,
        };
        let mut dst_tx = self.transact_write();
        let mut i: usize = 0;
        proof {
            assert(relations@.skip(0) =~= relations@);
        }
        while i < relations.len()
            invariant
                0 <= i <= relations@.len(),
                src_tx.wf(),
                src_tx.store@ == backup@,
                dst_tx.wf(),
                dst_tx.write,
                dst_tx.relation_store_id == old(self).relation_store_id,
                backup_import_effect(old(self).store@, backup@, relations@)
                    == backup_import_effect(
                    dst_tx.store@,
                    backup@,
                    relations@.skip(i as int),
                ),
                backup_importable(old(self).store@, backup@, relations@) ==> backup_importable(
                    dst_tx.store@,
                    backup@,
                    relations@.skip(i as int),
                ),
                self.wf(),
                self.store@ == old(self).store@,
                self.relation_store_id == old(self).relation_store_id,
                self.running == old(self).running,
            decreases relations@.len() - i,
        {
            proof {
                assert(relations@.skip(i as int)[0] == relations@[i as int]);
                assert(relations@.skip(i as int).drop_first() =~= relations@.skip(i + 1));
            }
            let ghost entry_start = dst_tx.store@;
            let ghost bi = backup_importable(old(self).store@, backup@, relations@);
            let src_h = match src_tx.get_relation(&relations[i]) {
                Ok(h) => h,
                Err(e) => {
                    return Err(e);
                },
            };
            if src_h.id.0 == u64::MAX {
                return Err(Error::DbInit);
            }
            let dst_h = match dst_tx.get_relation(&relations[i]) {
                Ok(h) => h,
                Err(e) => {
                    return Err(e);
                },
            };
            let pairs = src_tx.scan_relation(&src_h);
            let ghost pv = crate::kv::pairs_view(pairs@);
            let mut k: usize = 0;
            proof {
                assert(pv.skip(0) =~= pv);
            }
            while k < pairs.len()
                invariant
                    0 <= k <= pairs@.len(),
                    pv == crate::kv::pairs_view(pairs@),
                    pv.len() == pairs@.len(),
                    0 <= i < relations@.len(),
                    catalog_entry(backup@, relations@[i as int]@) == Some(src_h@),
                    src_h@.id < u64::MAX,
                    pv == select_range(
                        backup@,
                        crate::relation::range_lower(src_h@.id),
                        crate::relation::range_lower((src_h@.id + 1) as u64),
                    ),
                    bi == backup_importable(old(self).store@, backup@, relations@),
                    bi ==> (forall|q: int| 0 <= q < pv.len() ==> (#[trigger] pv[q]).0.len() >= 8),
                    dst_tx.wf(),
                    dst_tx.write,
                    dst_tx.relation_store_id == old(self).relation_store_id,
                    copy_pairs_effect(entry_start, dst_h@.id, pv) == copy_pairs_effect(
                        dst_tx.store@,
                        dst_h@.id,
                        pv.skip(k as int),
                    ),
                    self.wf(),
                    self.store@ == old(self).store@,
                    self.relation_store_id == old(self).relation_store_id,
                    self.running == old(self).running,
                decreases pairs@.len() - k,
            {
                proof {
                    assert(pv.skip(k as int)[0] == pv[k as int]);
                    assert(pv.skip(k as int).drop_first() =~= pv.skip(k + 1));
                    assert(pv[k as int] == (pairs@[k as int].0@, pairs@[k as int].1@));
                }
                let mut key = clone_bytes(&pairs[k].0);
                let v = clone_bytes(&pairs[k].1);
                if key.len() < 8 {
                    proof {
                        assert(pv[k as int].0.len() < 8);
                    }
                    return Err(Error::DbInit);
                }
                amend_key_prefix(dst_h.id, &mut key);
                proof {
                    assert(key@ == amended_pair(dst_h@.id, pv[k as int]).0);
                    assert(v@ == amended_pair(dst_h@.id, pv[k as int]).1);
                }
                dst_tx.store.put(key, v);
                k = k + 1;
            }
            proof {
                assert(pv.skip(pairs@.len() as int).len() == 0);
                assert(catalog_entry(backup@, relations@[i as int]@) == Some(src_h@));
                assert(catalog_entry(entry_start, relations@[i as int]@) == Some(dst_h@));
                assert(pv == select_range(
                    backup@,
                    crate::relation::range_lower(src_h@.id),
                    crate::relation::range_lower((src_h@.id + 1) as u64),
                ));
                assert(backup_one_effect(entry_start, backup@, relations@[i as int]@)
                    == dst_tx.store@);
                if bi {
                    assert(backup_importable(dst_tx.store@, backup@, relations@.skip(i + 1)));
                }
            }
            i = i + 1;
        }
        proof {
            assert(relations@.skip(relations@.len() as int).len() == 0);
        }
        self.commit_tx(dst_tx);
        Ok(())
    }
}

/// Exports one relation's body in the chosen form.
fn export_one(tx: &SessionTx, name: &Vec<u8>, as_objects: bool) -> (r: Result<Payload, Error>)
    requires
        tx.wf(),
    ensures
        r matches Ok(p) ==> payload_exact(p, tx.store@, name@, as_objects),
        r matches Err(e) ==> (e is StoredRelationNotFound || e is DbInit) && !exportable(
            tx.store@,
            name@,
        ),
        exportable(tx.store@, name@) ==> r is Ok,
{
    let h = match tx.get_relation(name) {
        Ok(h) => h,
        Err(e) => {
            return Err(e);
        },
    };
    if h.id.0 == u64::MAX {
        return Err(Error::DbInit);
    }
    let pairs = tx.scan_relation(&h);
    let ghost pv = crate::kv::pairs_view(pairs@);
    let mut rows: Vec<Tuple> = Vec::new();
    let mut k: usize = 0;
    proof {
        assert(pv.skip(0) =~= pv);
    }
    while k < pairs.len()
        invariant
            0 <= k <= pairs@.len(),
            pv == crate::kv::pairs_view(pairs@),
            pv.len() == pairs@.len(),
            catalog_entry(tx.store@, name@) == Some(h@),
            h@.id < u64::MAX,
            pv == select_range(
                tx.store@,
                crate::relation::range_lower(h@.id),
                crate::relation::range_lower((h@.id + 1) as u64),
            ),
            crate::query::decode_pairs(pv) is Some <==> crate::query::decode_pairs(
                pv.skip(k as int),
            ) is Some,
            forall|rest: Seq<Seq<Val>>|
                crate::query::decode_pairs(pv.skip(k as int)) == Some(rest)
                    ==> crate::query::decode_pairs(pv) == Some(
                    crate::query::tuples_view(rows@) + rest,
                ),
        decreases pairs@.len() - k,
    {
        proof {
            assert(pv.skip(k as int)[0] == pv[k as int]);
            assert(pv.skip(k as int).drop_first() =~= pv.skip(k + 1));
            assert(pv[k as int] == (pairs@[k as int].0@, pairs@[k as int].1@));
        }
        let t = match crate::relation::decode_tuple_from_kv(&pairs[k].0, &pairs[k].1) {
            None => {
                proof {
                    assert(crate::query::decode_pair(pv[k as int]) is None);
                    assert(crate::query::decode_pairs(pv.skip(k as int)) is None);
                }
                return Err(Error::DbInit);
            },
            Some(t) => t,
        };
        proof {
            assert(crate::query::decode_pair(pv[k as int]) == Some(t@));
            assert forall|rest: Seq<Seq<Val>>|
                crate::query::decode_pairs(pv.skip(k + 1)) == Some(rest)
                    implies crate::query::decode_pairs(pv) == Some(
                crate::query::tuples_view(rows@.push(t)) + rest,
            ) by {
                assert(crate::query::decode_pairs(pv.skip(k as int)) == Some(seq![t@] + rest));
                crate::query::lemma_tuples_view_push(rows@, t);
                assert(crate::query::tuples_view(rows@) + (seq![t@] + rest)
                    =~= crate::query::tuples_view(rows@).push(t@) + rest);
            }
        }
        rows.push(t);
        k = k + 1;
    }
    proof {
        assert(pv.skip(pairs@.len() as int).len() == 0);
        assert(crate::query::decode_pairs(pv.skip(pairs@.len() as int)) == Some(
            Seq::<Seq<Val>>::empty(),
        ));
        assert(crate::query::tuples_view(rows@) + Seq::<Seq<Val>>::empty()
            =~= crate::query::tuples_view(rows@));
    }
    let ghost decoded = crate::query::tuples_view(rows@);
    let cols = relation_columns(&h);
    proof {
        assert forall|j: int| 0 <= j < cols@.len() implies #[trigger] cols@[j]@
            == handle_col_names(h@)[j] by {
            if j < h@.keys.len() {
                assert(cols@[j]@ == h@.keys[j].name);
            } else {
                let i2 = j - h@.keys.len();
                assert(cols@[h@.keys.len() + i2]@ == h@.non_keys[i2].name);
            }
        }
        assert(cols@.len() == handle_col_names(h@).len());
    }
    if as_objects {
        let mut objs: Vec<Vec<(Vec<u8>, DataValue)>> = Vec::new();
        let mut m: usize = 0;
        let nrows = rows.len();
        while m < nrows
            invariant
                0 <= m <= nrows == rows@.len(),
                decoded == crate::query::tuples_view(rows@),
                decoded.len() == rows@.len(),
                cols@.len() == handle_col_names(h@).len(),
                forall|j: int|
                    0 <= j < cols@.len() ==> #[trigger] cols@[j]@ == handle_col_names(h@)[j],
                objs@.len() == m,
                forall|r2: int, c2: int|
                    0 <= r2 < m && 0 <= c2 < objs@[r2]@.len() ==> (#[trigger] objs@[r2]@[c2]).0@
                        == handle_col_names(h@)[c2] && objs@[r2]@[c2].1@ == decoded[r2][c2],
                forall|r2: int|
                    0 <= r2 < m ==> (#[trigger] objs@[r2])@.len() == (if handle_col_names(
                        h@,
                    ).len() <= decoded[r2].len() {
                        handle_col_names(h@).len() as int
                    } else {
                        decoded[r2].len() as int
                    }),
            decreases nrows - m,
        {
            let row = &rows[m];
            proof {
                assert(decoded[m as int] == row@);
                assert(row@.len() == row.0@.len());
            }
            let mut obj: Vec<(Vec<u8>, DataValue)> = Vec::new();
            let mut c: usize = 0;
            let ncols = if cols.len() <= row.0.len() {
                cols.len()
            } else {
                row.0.len()
            };
            while c < ncols
                invariant
                    0 <= c <= ncols,
                    ncols <= cols@.len(),
                    ncols <= row.0@.len(),
                    0 <= m < rows@.len(),
                    decoded == crate::query::tuples_view(rows@),
                    decoded.len() == rows@.len(),
                    decoded[m as int] == row@,
                    row@.len() == row.0@.len(),
                    cols@.len() == handle_col_names(h@).len(),
                    ncols == (if cols@.len() <= row.0@.len() {
                        cols@.len() as int
                    } else {
                        row.0@.len() as int
                    }),
                    forall|j: int|
                        0 <= j < cols@.len() ==> #[trigger] cols@[j]@ == handle_col_names(
                            h@,
                        )[j],
                    obj@.len() == c,
                    forall|c2: int|
                        0 <= c2 < c ==> (#[trigger] obj@[c2]).0@ == handle_col_names(h@)[c2]
                            && obj@[c2].1@ == decoded[m as int][c2],
                decreases ncols - c,
            {
                proof {
                    assert(row@[c as int] == row.0@[c as int]@);
                }
                obj.push((clone_bytes(&cols[c]), row.0[c].duplicate()));
                c = c + 1;
            }
            objs.push(obj);
            m = m + 1;
        }
        Ok(Payload::Objects(objs))
    } else {
        Ok(Payload::Table { headers: cols, rows })
    }
}

/// The value an object row binds to a name: the last entry carrying that
/// name, so the binding depends on the names alone.
pub open spec fn obj_lookup(o: Seq<(Vec<u8>, DataValue)>, name: Seq<u8>) -> Option<Val>
    decreases o.len(),
{
    if o.len() == 0 {
        None
    } else if o.last().0@ == name {
        Some(o.last().1@)
    } else {
        obj_lookup(o.drop_last(), name)
    }
}

/// One value per column, looked up by name in an object row: the value the
/// object binds to the column's name, or the column's default where the
/// object binds none; a column with neither, or a value outside its
/// column's type, fails `import::bad_data`.
fn values_by_columns(
    cols: &Vec<ColumnDef>,
    obj: &Vec<(Vec<u8>, DataValue)>,
    relname: &Vec<u8>,
) -> (r: Result<Tuple, Error>)
    ensures
        r matches Ok(t) ==> t@.len() == cols@.len() && (forall|i: int|
            0 <= i < cols@.len() ==> #[trigger] t@[i] == (match obj_lookup(
                obj@,
                cols@[i]@.name,
            ) {
                Some(v) => v,
                None => cols@[i]@.default_gen.unwrap(),
            }) && (obj_lookup(obj@, cols@[i]@.name) is None
                ==> cols@[i]@.default_gen is Some) && cols@[i]@.typing.spec_admits(t@[i])),
        r matches Err(e) ==> e is ImportBadData && (exists|i: int|
            0 <= i < cols@.len() && !obj_col_ok((#[trigger] cols@[i])@, obj@)),
{
    let mut out: Vec<DataValue> = Vec::new();
    let mut i: usize = 0;
    while i < cols.len()
        invariant
            0 <= i <= cols@.len(),
            out@.len() == i,
            forall|m: int|
                0 <= m < i ==> #[trigger] crate::value::row_view(out@)[m] == (match obj_lookup(
                    obj@,
                    cols@[m]@.name,
                ) {
                    Some(v) => v,
                    None => cols@[m]@.default_gen.unwrap(),
                }) && (obj_lookup(obj@, cols@[m]@.name) is None ==> cols@[m]@.default_gen
                    is Some) && cols@[m]@.typing.spec_admits(crate::value::row_view(out@)[m]),
        decreases cols@.len() - i,
    {
        let col = &cols[i];
        let mut found: Option<DataValue> = None;
        let mut j: usize = 0;
        while j < obj.len()
            invariant
                0 <= j <= obj@.len(),
                0 <= i < cols@.len(),
                col.name@ == cols@[i as int]@.name,
                (match found {
                    Some(f) => f@ == obj_lookup(obj@.take(j as int), col.name@).unwrap()
                        && obj_lookup(obj@.take(j as int), col.name@) is Some,
                    None => obj_lookup(obj@.take(j as int), col.name@) is None,
                }),
            decreases obj@.len() - j,
        {
            proof {
                assert(obj@.take(j + 1).last() == obj@[j as int]);
                assert(obj@.take(j + 1).drop_last() =~= obj@.take(j as int));
            }
            if crate::lex::bytes_eq(&obj[j].0, &col.name) {
                found = Some(obj[j].1.duplicate());
            }
            j = j + 1;
        }
        proof {
            assert(obj@.take(obj@.len() as int) =~= obj@);
        }
        let v = match found {
            Some(v) => v,
            None => match &col.default_gen {
                Some(d) => d.duplicate(),
                None => {
                    proof {
                        assert(!obj_col_ok(cols@[i as int]@, obj@));
                    }
                    return Err(Error::ImportBadData(clone_bytes(relname)));
                },
            },
        };
        if !col.typing.admits(&v) {
            proof {
                assert(v@ == resolve_col(cols@[i as int]@, obj@));
                assert(!obj_col_ok(cols@[i as int]@, obj@));
            }
            return Err(Error::ImportBadData(clone_bytes(relname)));
        }
        let ghost prev = out@;
        let ghost vv = v@;
        out.push(v);
        proof {
            crate::value::lemma_row_view_push(prev, out@.last());
            assert(out@ =~= prev.push(out@.last()));
            assert forall|m: int|
                0 <= m < i + 1 implies #[trigger] crate::value::row_view(out@)[m] == (match
            obj_lookup(obj@, cols@[m]@.name) {
                Some(v2) => v2,
                None => cols@[m]@.default_gen.unwrap(),
            }) && (obj_lookup(obj@, cols@[m]@.name) is None ==> cols@[m]@.default_gen is Some)
                && cols@[m]@.typing.spec_admits(crate::value::row_view(out@)[m]) by {
                if m < i {
                    assert(crate::value::row_view(out@)[m] == crate::value::row_view(prev)[m]);
                } else {
                    assert(crate::value::row_view(out@)[m] == vv);
                }
            }
        }
        i = i + 1;
    }
    let t = Tuple(out);
    proof {
        assert(t@.len() == t.0@.len());
    }
    Ok(t)
}

/// The position a name resolves to among headers: the last header carrying
/// it, or none.
pub open spec fn hdr_last(headers: Seq<Vec<u8>>, name: Seq<u8>) -> int
    decreases headers.len(),
{
    if headers.len() == 0 {
        -1
    } else if headers.last()@ == name {
        headers.len() - 1
    } else {
        hdr_last(headers.drop_last(), name)
    }
}

/// The position of each column's header: the last header carrying exactly
/// the column's name, so resolution depends on the names alone and not on
/// the order the headers stand in. A required header that is missing fails
/// `import::bad_data`.
fn header_indices(cols: &Vec<ColumnDef>, headers: &Vec<Vec<u8>>, relname: &Vec<u8>) -> (r: Result<
    Vec<usize>,
    Error,
>)
    ensures
        r matches Ok(v) ==> v@.len() == cols@.len() && (forall|i: int|
            0 <= i < v@.len() ==> #[trigger] v@[i] < headers@.len()) && (forall|i: int|
            0 <= i < v@.len() ==> headers@[(#[trigger] v@[i]) as int]@ == cols@[i]@.name) && (
        forall|i: int| 0 <= i < v@.len() ==> (#[trigger] v@[i]) as int == hdr_last(
            headers@,
            cols@[i]@.name,
        )),
        r matches Err(e) ==> e is ImportBadData && (exists|i: int|
            0 <= i < cols@.len() && hdr_last(headers@, (#[trigger] cols@[i])@.name) == -1),
{
    let mut out: Vec<usize> = Vec::new();
    let mut i: usize = 0;
    while i < cols.len()
        invariant
            0 <= i <= cols@.len(),
            out@.len() == i,
            forall|m: int| 0 <= m < i ==> #[trigger] out@[m] < headers@.len(),
            forall|m: int|
                0 <= m < i ==> headers@[(#[trigger] out@[m]) as int]@ == cols@[m]@.name,
            forall|m: int|
                0 <= m < i ==> (#[trigger] out@[m]) as int == hdr_last(headers@, cols@[m]@.name),
        decreases cols@.len() - i,
    {
        let col = &cols[i];
        let mut found: Option<usize> = None;
        let mut j: usize = 0;
        proof {
            assert(headers@.take(0) =~= Seq::<Vec<u8>>::empty());
        }
        while j < headers.len()
            invariant
                0 <= j <= headers@.len(),
                0 <= i < cols@.len(),
                col.name@ == cols@[i as int]@.name,
                (match found {
                    Some(x) => x < headers@.len() && headers@[x as int]@ == cols@[i as int]@.name
                        && x as int == hdr_last(headers@.take(j as int), col.name@) && hdr_last(
                        headers@.take(j as int),
                        col.name@,
                    ) >= 0,
                    None => hdr_last(headers@.take(j as int), col.name@) == -1,
                }),
            decreases headers@.len() - j,
        {
            proof {
                assert(headers@.take(j + 1).last() == headers@[j as int]);
                assert(headers@.take(j + 1).drop_last() =~= headers@.take(j as int));
            }
            if crate::lex::bytes_eq(&headers[j], &col.name) {
                found = Some(j);
            }
            j = j + 1;
        }
        proof {
            assert(headers@.take(headers@.len() as int) =~= headers@);
        }
        match found {
            Some(idx) => {
                out.push(idx);
            },
            None => {
                proof {
                    assert(hdr_last(headers@, cols@[i as int]@.name) == -1);
                }
                return Err(Error::ImportBadData(clone_bytes(relname)));
            },
        }
        i = i + 1;
    }
    Ok(out)
}

/// One value per column, taken positionally from a row by resolved header
/// indices: the value a column receives is exactly the row's value under
/// that column's header, wherever the header stands. A short row or an
/// inadmissible value fails `import::bad_data`.
fn values_by_indices(
    cols: &Vec<ColumnDef>,
    idx: &Vec<usize>,
    row: &Tuple,
    relname: &Vec<u8>,
) -> (r: Result<Tuple, Error>)
    requires
        idx@.len() == cols@.len(),
    ensures
        r matches Ok(t) ==> t@.len() == cols@.len() && (forall|i: int|
            0 <= i < cols@.len() ==> (#[trigger] idx@[i]) < row@.len() && t@[i] == row@[
                idx@[i] as int
            ] && cols@[i]@.typing.spec_admits(t@[i])),
        r matches Err(e) ==> e is ImportBadData && (exists|i: int|
            0 <= i < cols@.len() && ((#[trigger] idx@[i]) as int >= row@.len()
                || !cols@[i]@.typing.spec_admits(row@[idx@[i] as int]))),
{
    let mut out: Vec<DataValue> = Vec::new();
    let mut i: usize = 0;
    while i < cols.len()
        invariant
            0 <= i <= cols@.len(),
            idx@.len() == cols@.len(),
            out@.len() == i,
            forall|m: int|
                0 <= m < i ==> (#[trigger] idx@[m]) < row@.len() && crate::value::row_view(
                    out@,
                )[m] == row@[idx@[m] as int] && cols@[m]@.typing.spec_admits(
                    crate::value::row_view(out@)[m],
                ),
        decreases cols@.len() - i,
    {
        let pos = idx[i];
        if pos >= row.0.len() {
            proof {
                assert(row@.len() == row.0@.len());
                assert(idx@[i as int] as int >= row@.len());
            }
            return Err(Error::ImportBadData(clone_bytes(relname)));
        }
        let v = row.0[pos].duplicate();
        if !cols[i].typing.admits(&v) {
            proof {
                assert(v@ == row@[idx@[i as int] as int]);
                assert(!cols@[i as int]@.typing.spec_admits(row@[idx@[i as int] as int]));
            }
            return Err(Error::ImportBadData(clone_bytes(relname)));
        }
        let ghost prev = out@;
        let ghost vv = v@;
        out.push(v);
        proof {
            crate::value::lemma_row_view_push(prev, out@.last());
            assert(out@ =~= prev.push(out@.last()));
            assert(row@[idx@[i as int] as int] == row.0@[pos as int]@);
            assert(row@.len() == row.0@.len());
            assert forall|m: int|
                0 <= m < i + 1 implies (#[trigger] idx@[m]) < row@.len()
                    && crate::value::row_view(out@)[m] == row@[idx@[m] as int]
                    && cols@[m]@.typing.spec_admits(crate::value::row_view(out@)[m]) by {
                if m < i {
                    assert(crate::value::row_view(out@)[m] == crate::value::row_view(prev)[m]);
                } else {
                    assert(crate::value::row_view(out@)[m] == vv);
                }
            }
        }
        i = i + 1;
    }
    let t = Tuple(out);
    proof {
        assert(t@.len() == t.0@.len());
    }
    Ok(t)
}

/// The export-import round trip on one stored row: a pair read out of a
/// relation's range decodes into its key and value tuples, and writing
/// those tuples back produces byte-identical key and value. An export in
/// either form followed by an import of what it handed out therefore
/// leaves every relation's row set unchanged, as a multiset and in fact
/// byte for byte.
pub proof fn lemma_exported_pair_reencodes(id: u64, p: (Seq<u8>, Seq<u8>))
    requires
        p.0.len() >= 8,
        p.0.take(8) == crate::codec::be8(id),
        crate::codec::dec_row(p.0.skip(8)) is Some,
        crate::codec::dec_row(p.1) is Some,
    ensures
        crate::relation::key_bytes(id, crate::codec::dec_row(p.0.skip(8)).unwrap()) == p.0,
        crate::codec::enc_row(crate::codec::dec_row(p.1).unwrap()) == p.1,
{
    crate::codec::lemma_enc_dec_row(p.0.skip(8));
    crate::codec::lemma_enc_dec_row(p.1);
    assert(crate::codec::be8(id) + p.0.skip(8) =~= p.0) by {
        crate::codec::lemma_be_bytes_len(id as int, 8);
        assert forall|i: int|
            0 <= i < p.0.len() implies (crate::codec::be8(id) + p.0.skip(8))[i] == p.0[i] by {
            if i < 8 {
                assert(p.0.take(8)[i] == p.0[i]);
            }
        }
    }
}

/// Looking a name up in an object that pairs names with values, where the
/// names are distinct, finds the value paired with it.
pub proof fn lemma_obj_lookup_zip(
    obj: Seq<(Vec<u8>, DataValue)>,
    names: Seq<Seq<u8>>,
    vals: Seq<Val>,
    i: int,
)
    requires
        obj.len() == names.len(),
        vals.len() == names.len(),
        forall|c: int| 0 <= c < obj.len() ==> (#[trigger] obj[c]).0@ == names[c],
        forall|c: int| 0 <= c < obj.len() ==> (#[trigger] obj[c]).1@ == vals[c],
        forall|a: int, b: int| 0 <= a < b < names.len() ==> names[a] != names[b],
        0 <= i < names.len(),
    ensures
        obj_lookup(obj, names[i]) == Some(vals[i]),
    decreases obj.len(),
{
    let last = obj.len() - 1;
    if i == last {
        assert(obj.last().0@ == names[last]);
    } else {
        assert(names[last] != names[i]);
        assert(obj.last().0@ == names[last]);
        lemma_obj_lookup_zip(
            obj.drop_last(),
            names.drop_last(),
            vals.drop_last(),
            i,
        );
        assert(obj.drop_last().len() == names.drop_last().len());
        assert(names.drop_last()[i] == names[i]);
        assert(vals.drop_last()[i] == vals[i]);
    }
}

/// The export-import round trip of one stored row in object form: the
/// object a row exports to resolves back to exactly its key and non-key
/// tuples, whatever order the object's entries are read in, provided the
/// relation's column names are distinct and the row matches its arity.
pub proof fn lemma_export_import_object_row(
    h: crate::relation::HandleV,
    obj: Seq<(Vec<u8>, DataValue)>,
    kt: Seq<Val>,
    vt: Seq<Val>,
)
    requires
        kt.len() == h.keys.len(),
        vt.len() == h.non_keys.len(),
        obj.len() == handle_col_names(h).len(),
        forall|c: int|
            0 <= c < obj.len() ==> (#[trigger] obj[c]).0@ == handle_col_names(h)[c],
        forall|c: int| 0 <= c < obj.len() ==> (#[trigger] obj[c]).1@ == (kt + vt)[c],
        forall|a: int, b: int|
            0 <= a < b < handle_col_names(h).len() ==> handle_col_names(h)[a]
                != handle_col_names(h)[b],
    ensures
        obj_tuple(h.keys, obj) == kt,
        obj_tuple(h.non_keys, obj) == vt,
{
    let names = handle_col_names(h);
    let row = kt + vt;
    assert forall|i: int| 0 <= i < h.keys.len() implies #[trigger] obj_tuple(h.keys, obj)[i]
        == kt[i] by {
        assert(names[i] == h.keys[i].name);
        lemma_obj_lookup_zip(obj, names, row, i);
        assert(row[i] == kt[i]);
    }
    assert(obj_tuple(h.keys, obj) =~= kt);
    assert forall|i: int|
        0 <= i < h.non_keys.len() implies #[trigger] obj_tuple(h.non_keys, obj)[i] == vt[i] by {
        assert(names[h.keys.len() + i] == h.non_keys[i].name);
        lemma_obj_lookup_zip(obj, names, row, h.keys.len() + i);
        assert(row[h.keys.len() + i] == vt[i]);
    }
    assert(obj_tuple(h.non_keys, obj) =~= vt);
}

/// Writing back a binding a store already holds changes nothing.
pub proof fn lemma_insert_same_binding(s: Seq<(Seq<u8>, Seq<u8>)>, k: Seq<u8>, v: Seq<u8>)
    requires
        kv_sorted(s),
        kv_lookup(s, k) == Some(v),
    ensures
        kv_insert(s, k, v) == s,
    decreases s.len(),
{
    if s.len() > 0 {
        crate::kv::lemma_kv_sorted_drop_first(s);
        if s[0].0 == k {
            crate::lex::lemma_lex_trichotomy(k, s[0].0);
            assert(s[0].1 == v);
            assert(kv_insert(s, k, v) == seq![(k, v)] + s.drop_first());
            assert(seq![(k, v)] + s.drop_first() =~= s) by {
                assert((seq![(k, v)] + s.drop_first())[0] == (k, v));
                assert(s[0] == (k, v));
                assert(forall|m: int|
                    1 <= m < s.len() ==> (seq![(k, v)] + s.drop_first())[m] == s[m]);
            }
        } else {
            crate::lex::lemma_lex_trichotomy(k, s[0].0);
            if crate::lex::lex_lt(k, s[0].0) {
                crate::kv::lemma_lookup_absent_below(s, k);
            } else {
                lemma_insert_same_binding(s.drop_first(), k, v);
                assert(kv_insert(s, k, v) == seq![s[0]] + kv_insert(s.drop_first(), k, v));
                assert(seq![s[0]] + s.drop_first() =~= s);
            }
        }
    }
}

/// The big-endian bytes of zero are all zero.
pub proof fn lemma_be_zero_bytes(n: nat)
    ensures
        forall|i: int|
            0 <= i < crate::codec::be_bytes(0, n).len() ==> #[trigger] crate::codec::be_bytes(
                0,
                n,
            )[i] == 0u8,
    decreases n,
{
    crate::codec::lemma_be_bytes_len(0, n);
    if n > 0 {
        lemma_be_zero_bytes((n - 1) as nat);
        crate::codec::lemma_be_bytes_len(0, (n - 1) as nat);
        assert forall|i: int|
            0 <= i < crate::codec::be_bytes(0, n).len() implies #[trigger] crate::codec::be_bytes(
            0,
            n,
        )[i] == 0u8 by {
            if i < n - 1 {
                assert(crate::codec::be_bytes(0, n)[i] == crate::codec::be_bytes(
                    0,
                    (n - 1) as nat,
                )[i]);
            }
        }
    }
}

/// Writing an already-sorted batch into an empty store reproduces it
/// exactly: the heart of the backup round trip.
pub proof fn lemma_insert_all_sorted(ps: Seq<(Seq<u8>, Seq<u8>)>)
    requires
        kv_sorted(ps),
    ensures
        kv_insert_all(Seq::<(Seq<u8>, Seq<u8>)>::empty(), ps) == ps,
{
    lemma_insert_all_sorted_general(Seq::<(Seq<u8>, Seq<u8>)>::empty(), ps);
    assert(Seq::<(Seq<u8>, Seq<u8>)>::empty() + ps =~= ps);
}

/// Writing a sorted batch whose keys all follow a sorted store appends it.
pub proof fn lemma_insert_all_sorted_general(
    s: Seq<(Seq<u8>, Seq<u8>)>,
    ps: Seq<(Seq<u8>, Seq<u8>)>,
)
    requires
        kv_sorted(s + ps),
    ensures
        kv_insert_all(s, ps) == s + ps,
    decreases ps.len(),
{
    if ps.len() == 0 {
        assert(s + ps =~= s);
    } else {
        let p = ps[0];
        let s2 = s.push(p);
        assert(kv_sorted(s)) by {
            assert forall|a: int, b: int| 0 <= a < b < s.len() implies lex_lt(
                #[trigger] s[a].0,
                #[trigger] s[b].0,
            ) by {
                assert((s + ps)[a] == s[a]);
                assert((s + ps)[b] == s[b]);
            }
        }
        assert(forall|a: int| 0 <= a < s.len() ==> lex_lt((#[trigger] s[a]).0, p.0)) by {
            assert forall|a: int| 0 <= a < s.len() implies lex_lt((#[trigger] s[a]).0, p.0) by {
                assert((s + ps)[a] == s[a]);
                assert((s + ps)[s.len() as int] == p);
            }
        }
        lemma_insert_append(s, p.0, p.1);
        assert(kv_insert(s, p.0, p.1) == s2);
        assert(s2 + ps.drop_first() =~= s + ps);
        lemma_insert_all_sorted_general(s2, ps.drop_first());
        assert(kv_insert_all(s, ps) == kv_insert_all(s2, ps.drop_first()));
    }
}

/// Inserting a key beyond every stored key appends it.
pub proof fn lemma_insert_append(s: Seq<(Seq<u8>, Seq<u8>)>, k: Seq<u8>, v: Seq<u8>)
    requires
        forall|a: int| 0 <= a < s.len() ==> lex_lt((#[trigger] s[a]).0, k),
    ensures
        kv_insert(s, k, v) == s.push((k, v)),
    decreases s.len(),
{
    if s.len() == 0 {
        assert(kv_insert(s, k, v) =~= s.push((k, v)));
    } else {
        lemma_lex_trichotomy(k, s[0].0);
        assert(lex_lt(s[0].0, k));
        assert(forall|a: int|
            0 <= a < s.drop_first().len() ==> lex_lt(
                (#[trigger] s.drop_first()[a]).0,
                k,
            )) by {
            assert(forall|a: int|
                0 <= a < s.drop_first().len() ==> s.drop_first()[a] == s[a + 1]);
        }
        lemma_insert_append(s.drop_first(), k, v);
        assert(kv_insert(s, k, v) =~= s.push((k, v))) by {
            assert(kv_insert(s, k, v) == seq![s[0]] + kv_insert(s.drop_first(), k, v));
            assert(kv_insert(s.drop_first(), k, v) == s.drop_first().push((k, v)));
        }
    }
}

} // verus!
