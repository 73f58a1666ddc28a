//! The transaction-bound session: a snapshot of the store plus the
//! relation-id allocator, through which every catalog and row operation
//! runs. A session commits as a whole or is discarded; nothing it did is
//! visible before the commit.

use vstd::prelude::*;

use crate::codec::{
    be8, be8_exec, dec_row, enc_row, encode_row, lemma_be8_order, pow256, lemma_pow256_8,
    TAG_STR,
};
use crate::error::Error;
use crate::kv::{
    kv_insert, kv_lookup, kv_remove, lemma_lookup_insert_other, lemma_lookup_insert_same,
    lemma_lookup_remove, pairs_view, select_range, MemKv,
};
use crate::program::InputRelationMeta;
use crate::relation::{
    cols_view, encode_handle, decode_handle, encode_key, handle_vals, key_bytes, parse_handle,
    range_lower, wf_handle, AccessLevel, ColumnDef, HandleV, RelationHandle, RelationId,
};
use crate::value::{clone_bytes, DataValue, Tuple, Val};

verus! {

/// The store key the id allocator is persisted under: inside the system
/// catalog's range, before every name key.
pub open spec fn counter_key_v() -> Seq<u8> {
    be8(0).push(0u8)
}

pub fn counter_key() -> (r: Vec<u8>)
    ensures
        r@ == counter_key_v(),
{
    let mut r = be8_exec(0);
    r.push(0u8);
    r
}

/// The catalog key of a relation name: the system id with the name as a
/// one-string key tuple.
pub open spec fn cat_key_v(name: Seq<u8>) -> Seq<u8> {
    key_bytes(0, seq![Val::Str(name)])
}

pub fn cat_key(name: &Vec<u8>) -> (r: Vec<u8>)
    ensures
        r@ == cat_key_v(name@),
{
    let t = Tuple(vec![DataValue::Str(clone_bytes(name))]);
    proof {
        assert(t@ =~= seq![Val::Str(name@)]);
    }
    encode_key(RelationId(0), &t)
}

/// The handle a store binds to a name: the catalog value under the name
/// key, decoded and parsed.
pub open spec fn catalog_entry(s: Seq<(Seq<u8>, Seq<u8>)>, name: Seq<u8>) -> Option<HandleV> {
    match kv_lookup(s, cat_key_v(name)) {
        None => None,
        Some(bytes) => match dec_row(bytes) {
            None => None,
            Some(vs) => parse_handle(vs),
        },
    }
}

/// Distinct names of encodable length have distinct catalog keys.
pub proof fn lemma_cat_key_injective(n1: Seq<u8>, n2: Seq<u8>)
    requires
        n1.len() < pow256(8),
        n2.len() < pow256(8),
        n1 != n2,
    ensures
        cat_key_v(n1) != cat_key_v(n2),
{
    crate::codec::lemma_be_bytes_len(0, 8);
    if cat_key_v(n1) == cat_key_v(n2) {
        let r1 = seq![Val::Str(n1)];
        let r2 = seq![Val::Str(n2)];
        assert((be8(0) + enc_row(r1)).skip(8) =~= enc_row(r1));
        assert((be8(0) + enc_row(r2)).skip(8) =~= enc_row(r2));
        assert(enc_row(r1) == enc_row(r2));
        assert(crate::codec::wf_row(r1)) by {
            assert(r1[0] == Val::Str(n1));
        }
        assert(crate::codec::wf_row(r2)) by {
            assert(r2[0] == Val::Str(n2));
        }
        crate::codec::lemma_dec_enc_row(r1);
        crate::codec::lemma_dec_enc_row(r2);
        assert(r1 == r2);
        assert(r1[0] == r2[0]);
    }
}

/// A catalog key never equals a row key of a user relation.
pub proof fn lemma_cat_key_not_row_key(name: Seq<u8>, id: u64, row: Seq<Val>)
    requires
        id >= 1,
    ensures
        cat_key_v(name) != key_bytes(id, row),
{
    crate::codec::lemma_be_bytes_len(0, 8);
    crate::codec::lemma_be_bytes_len(id as int, 8);
    lemma_be8_order(0, id);
    if cat_key_v(name) == key_bytes(id, row) {
        assert((be8(0) + enc_row(seq![Val::Str(name)])).take(8) =~= be8(0));
        assert((be8(id) + enc_row(row)).take(8) =~= be8(id));
    }
}

/// Every catalog key sorts below every user relation's key range.
pub proof fn lemma_cat_key_below_user_range(name: Seq<u8>, id: u64)
    requires
        id >= 1,
    ensures
        crate::lex::lex_lt(cat_key_v(name), range_lower(id)),
{
    crate::codec::lemma_be_bytes_len(0, 8);
    crate::codec::lemma_be_bytes_len(id as int, 8);
    lemma_be8_order(0, id);
    crate::lex::lemma_lex_extend(be8(0), be8(id), enc_row(seq![Val::Str(name)]), Seq::empty());
    assert(be8(id) + Seq::<u8>::empty() =~= be8(id));
}

/// The counter key never equals a catalog name key or a user row key.
pub proof fn lemma_counter_key_distinct(name: Seq<u8>, id: u64, row: Seq<Val>)
    requires
        id >= 1,
    ensures
        counter_key_v() != cat_key_v(name),
        counter_key_v() != key_bytes(id, row),
{
    crate::codec::lemma_be_bytes_len(0, 8);
    crate::codec::lemma_be_bytes_len(id as int, 8);
    lemma_be8_order(0, id);
    if counter_key_v() == cat_key_v(name) {
        let r = seq![Val::Str(name)];
        assert(counter_key_v()[8] == 0u8);
        assert(cat_key_v(name)[8] == enc_row(r)[0]);
        assert(enc_row(r)[0] == TAG_STR) by {
            assert(r[0] == Val::Str(name));
            assert(crate::codec::enc_val(r[0])[0] == TAG_STR);
        }
    }
    if counter_key_v() == key_bytes(id, row) {
        assert(counter_key_v().take(8) =~= be8(0));
        assert((be8(id) + enc_row(row)).take(8) =~= be8(id));
    }
}

/// Establishes that every column of a schema can be serialized: names and
/// default values fit the encoding. True of every column held in memory.
pub fn observe_cols_wf(cols: &Vec<ColumnDef>)
    ensures
        forall|i: int|
            0 <= i < cols_view(cols@).len() ==> (#[trigger] cols_view(cols@)[i]).name.len()
                < pow256(8) && (cols_view(cols@)[i].default_gen matches Some(v)
                ==> crate::codec::wf_val(v)),
{
    proof {
        lemma_pow256_8();
    }
    let mut i: usize = 0;
    while i < cols.len()
        invariant
            0 <= i <= cols@.len(),
            forall|j: int|
                0 <= j < i ==> (#[trigger] cols_view(cols@)[j]).name.len() < pow256(8) && (
                cols_view(cols@)[j].default_gen matches Some(v) ==> crate::codec::wf_val(v)),
        decreases cols@.len() - i,
    {
        proof {
            lemma_pow256_8();
        }
        let nlen = cols[i].name.len();
        proof {
            assert(cols_view(cols@)[i as int] == cols@[i as int]@);
            assert(cols@[i as int]@.name.len() == nlen);
        }
        match &cols[i].default_gen {
            Some(v) => {
                crate::codec::observe_val_wf(v);
            },
            None => {},
        }
        i = i + 1;
    }
}

/// Establishes that every script in a trigger list can be serialized.
pub fn observe_scripts_wf(ss: &Vec<Vec<u8>>)
    ensures
        forall|i: int|
            0 <= i < crate::relation::scripts_view(ss@).len() ==> (
            #[trigger] crate::relation::scripts_view(ss@)[i]).len() < pow256(8),
{
    proof {
        lemma_pow256_8();
    }
    let mut i: usize = 0;
    while i < ss.len()
        invariant
            0 <= i <= ss@.len(),
            forall|j: int|
                0 <= j < i ==> (#[trigger] crate::relation::scripts_view(ss@)[j]).len() < pow256(
                    8,
                ),
        decreases ss@.len() - i,
    {
        proof {
            lemma_pow256_8();
        }
        let slen = ss[i].len();
        proof {
            assert(crate::relation::scripts_view(ss@)[i as int] == ss@[i as int]@);
        }
        i = i + 1;
    }
}


/// Copies a schema's column definitions, keeping their model.
pub fn duplicate_cols(cols: &Vec<ColumnDef>) -> (r: Vec<ColumnDef>)
    ensures
        cols_view(r@) == cols_view(cols@),
{
    let mut out: Vec<ColumnDef> = Vec::new();
    let mut i: usize = 0;
    while i < cols.len()
        invariant
            0 <= i <= cols@.len(),
            out@.len() == i,
            forall|j: int| 0 <= j < i ==> out@[j]@ == cols@[j]@,
        decreases cols@.len() - i,
    {
        out.push(cols[i].duplicate());
        i = i + 1;
    }
    proof {
        assert forall|j: int| 0 <= j < cols@.len() implies #[trigger] cols_view(out@)[j]
            == cols_view(cols@)[j] by {
            assert(cols_view(out@)[j] == out@[j]@);
            assert(cols_view(cols@)[j] == cols@[j]@);
        }
        assert(cols_view(out@) =~= cols_view(cols@));
    }
    out
}

/// One session: a private snapshot of the store, the id allocator's value,
/// and whether this transaction may write.
pub struct SessionTx {
    pub store: MemKv,
    pub relation_store_id: u64,
    pub write: bool,
}

impl SessionTx {
    pub open spec fn wf(&self) -> bool {
        self.store.wf()
    }

    /// Whether a relation of this name is in the catalog.
    pub fn relation_exists(&self, name: &Vec<u8>) -> (r: bool)
        ensures
            r == (kv_lookup(self.store@, cat_key_v(name@)) is Some),
    {
        let k = cat_key(name);
        match self.store.get(&k) {
            Some(_) => true,
            None => false,
        }
    }

    /// The handle stored under `name`. `StoredRelationNotFound` exactly when
    /// the catalog has no such name; `DbInit` when the catalog bytes do not
    /// decode as a handle.
    pub fn get_relation(&self, name: &Vec<u8>) -> (r: Result<RelationHandle, Error>)
        ensures
            match r {
                Ok(h) => catalog_entry(self.store@, name@) == Some(h@) && wf_handle(h@),
                Err(e) => catalog_entry(self.store@, name@) is None && (match e {
                    Error::StoredRelationNotFound(n) => n@ == name@ && kv_lookup(
                        self.store@,
                        cat_key_v(name@),
                    ) is None,
                    Error::DbInit => kv_lookup(self.store@, cat_key_v(name@)) is Some,
                    _ => false,
                }),
            },
    {
        let k = cat_key(name);
        match self.store.get(&k) {
            None => Err(Error::StoredRelationNotFound(clone_bytes(name))),
            Some(bytes) => match decode_handle(&bytes) {
                None => Err(Error::DbInit),
                Some(h) => {
                    proof {
                        crate::codec::lemma_dec_row_wf(bytes@);
                        crate::relation::lemma_parse_handle_wf(dec_row(bytes@).unwrap());
                    }
                    Ok(h)
                },
            },
        }
    }

    /// Writes `h` into the catalog under its name. Afterwards the catalog
    /// binds that name to exactly `h`; every other encodable name keeps its
    /// binding, and user rows are untouched.
    pub fn write_handle(&mut self, h: &RelationHandle)
        requires
            old(self).wf(),
            wf_handle(h@),
        ensures
            final(self).wf(),
            final(self).relation_store_id == old(self).relation_store_id,
            final(self).write == old(self).write,
            final(self).store@ == kv_insert(
                old(self).store@,
                cat_key_v(h@.name),
                enc_row(handle_vals(h@)),
            ),
            catalog_entry(final(self).store@, h@.name) == Some(h@),
            forall|n2: Seq<u8>|
                n2 != h@.name && n2.len() < pow256(8) ==> catalog_entry(final(self).store@, n2)
                    == catalog_entry(old(self).store@, n2),
            forall|id: u64, row: Seq<Val>|
                id >= 1 ==> kv_lookup(final(self).store@, #[trigger] key_bytes(id, row))
                    == kv_lookup(old(self).store@, key_bytes(id, row)),
            kv_lookup(final(self).store@, counter_key_v()) == kv_lookup(
                old(self).store@,
                counter_key_v(),
            ),
    {
        let k = cat_key(&h.name);
        let bytes = encode_handle(h);
        self.store.put(k, bytes);
        proof {
            let ck = cat_key_v(h@.name);
            let hb = enc_row(handle_vals(h@));
            lemma_lookup_insert_same(old(self).store@, ck, hb);
            crate::relation::lemma_handle_bytes_roundtrip(h@);
            assert forall|n2: Seq<u8>| n2 != h@.name && n2.len() < pow256(8) implies catalog_entry(
                final(self).store@,
                n2,
            ) == catalog_entry(old(self).store@, n2) by {
                assert(h@.name.len() < pow256(8));
                lemma_cat_key_injective(n2, h@.name);
                lemma_lookup_insert_other(old(self).store@, ck, hb, cat_key_v(n2));
            }
            assert forall|id: u64, row: Seq<Val>| id >= 1 implies kv_lookup(
                final(self).store@,
                #[trigger] key_bytes(id, row),
            ) == kv_lookup(old(self).store@, key_bytes(id, row)) by {
                lemma_cat_key_not_row_key(h@.name, id, row);
                lemma_lookup_insert_other(old(self).store@, ck, hb, key_bytes(id, row));
            }
            lemma_counter_key_distinct(h@.name, 1, Seq::empty());
            lemma_lookup_insert_other(old(self).store@, ck, hb, counter_key_v());
        }
    }

    /// Creates a relation under a fresh id: the successor of the allocator,
    /// which moves up; ids are never reused. `StoredRelationConflict` exactly
    /// when the name is already bound; `DbInit` when the id space or the
    /// schema size is exhausted.
    pub fn create_relation(&mut self, meta: &InputRelationMeta) -> (r: Result<RelationHandle, Error>)
        requires
            old(self).wf(),
        ensures
            final(self).wf(),
            final(self).write == old(self).write,
            match r {
                Ok(h) => {
                    &&& kv_lookup(old(self).store@, cat_key_v(meta.name@)) is None
                    &&& old(self).relation_store_id < u64::MAX
                    &&& h@.id == old(self).relation_store_id + 1
                    &&& h@.name == meta.name@
                    &&& h@.keys == cols_view(meta.keys@)
                    &&& h@.non_keys == cols_view(meta.non_keys@)
                    &&& h@.access_level == AccessLevel::Normal
                    &&& h@.put_triggers.len() == 0
                    &&& h@.rm_triggers.len() == 0
                    &&& h@.replace_triggers.len() == 0
                    &&& wf_handle(h@)
                    &&& final(self).relation_store_id == old(self).relation_store_id + 1
                    &&& final(self).store@ == kv_insert(
                        old(self).store@,
                        cat_key_v(meta.name@),
                        enc_row(handle_vals(h@)),
                    )
                    &&& catalog_entry(final(self).store@, meta.name@) == Some(h@)
                },
                Err(e) => {
                    &&& *final(self) == *old(self)
                    &&& match e {
                        Error::StoredRelationConflict(n) => n@ == meta.name@ && kv_lookup(
                            old(self).store@,
                            cat_key_v(meta.name@),
                        ) is Some,
                        Error::DbInit => kv_lookup(
                            old(self).store@,
                            cat_key_v(meta.name@),
                        ) is None && (old(self).relation_store_id == u64::MAX || meta.keys@.len()
                            >= crate::relation::MAX_HANDLE_PART || meta.non_keys@.len()
                            >= crate::relation::MAX_HANDLE_PART),
                        _ => false,
                    }
                },
            },
    {
        if self.relation_exists(&meta.name) {
            return Err(Error::StoredRelationConflict(clone_bytes(&meta.name)));
        }
        if self.relation_store_id == u64::MAX {
            return Err(Error::DbInit);
        }
        if meta.keys.len() >= 0x1000_0000 || meta.non_keys.len() >= 0x1000_0000 {
            return Err(Error::DbInit);
        }
        observe_cols_wf(&meta.keys);
        observe_cols_wf(&meta.non_keys);
        proof {
            lemma_pow256_8();
        }
        let name_len = meta.name.len();
        let id = RelationId(self.relation_store_id + 1);
        self.relation_store_id = self.relation_store_id + 1;
        let h = RelationHandle {
            name: clone_bytes(&meta.name),
            id,
            keys: duplicate_cols(&meta.keys),
            non_keys: duplicate_cols(&meta.non_keys),
            access_level: AccessLevel::Normal,
            put_triggers: Vec::new(),
            rm_triggers: Vec::new(),
            replace_triggers: Vec::new(),
        };
        proof {
            assert(wf_handle(h@));
        }
        self.write_handle(&h);
        Ok(h)
    }

    /// Removes a relation from the catalog and hands back the byte range of
    /// its rows, `[tuple()@id, tuple()@id.next())`, for the caller to delete
    /// after commit.
    pub fn destroy_relation(&mut self, name: &Vec<u8>) -> (r: Result<(Vec<u8>, Vec<u8>), Error>)
        requires
            old(self).wf(),
        ensures
            final(self).wf(),
            final(self).write == old(self).write,
            final(self).relation_store_id == old(self).relation_store_id,
            match r {
                Ok((lo, hi)) => {
                    &&& (catalog_entry(old(self).store@, name@) matches Some(h) && h.id < u64::MAX
                        && lo@ == range_lower(h.id) && hi@ == range_lower((h.id + 1) as u64))
                    &&& final(self).store@ == kv_remove(old(self).store@, cat_key_v(name@))
                },
                Err(e) => *final(self) == *old(self) && (e is StoredRelationNotFound || e
                    is DbInit) && (catalog_entry(old(self).store@, name@) matches Some(h)
                    ==> h.id == u64::MAX),
            },
            (catalog_entry(old(self).store@, name@) matches Some(h) && h.id < u64::MAX) ==> r
                is Ok,
    {
        let h = match self.get_relation(name) {
            Ok(h) => h,
            Err(e) => {
                return Err(e);
            },
        };
        if h.id.0 == u64::MAX {
            return Err(Error::DbInit);
        }
        let lo = be8_exec(h.id.0);
        let hi = be8_exec(h.id.0 + 1);
        let k = cat_key(name);
        self.store.del(&k);
        Ok((lo, hi))
    }

    /// Rebinds a relation to a new name. The old name must exist, the new
    /// one must not; the handle itself, id included, is kept.
    pub fn rename_relation(&mut self, old_name: &Vec<u8>, new_name: &Vec<u8>) -> (r: Result<(), Error>)
        requires
            old(self).wf(),
        ensures
            final(self).wf(),
            final(self).write == old(self).write,
            final(self).relation_store_id == old(self).relation_store_id,
            r is Ok ==> catalog_entry(old(self).store@, old_name@) is Some && kv_lookup(
                old(self).store@,
                cat_key_v(new_name@),
            ) is None,
            r is Ok ==> kv_lookup(final(self).store@, cat_key_v(old_name@)) is None,
            r is Ok ==> (catalog_entry(final(self).store@, new_name@) matches Some(hn)
                && catalog_entry(old(self).store@, old_name@) matches Some(ho) && hn == (HandleV {
                name: new_name@,
                ..ho
            })),
            r matches Err(e) ==> *final(self) == *old(self) && (e is StoredRelationNotFound || e
                is DbInit || e is StoredRelationConflict) && (catalog_entry(
                old(self).store@,
                old_name@,
            ) is None || kv_lookup(old(self).store@, cat_key_v(new_name@)) is Some),
            (catalog_entry(old(self).store@, old_name@) is Some && kv_lookup(
                old(self).store@,
                cat_key_v(new_name@),
            ) is None) ==> r is Ok,
    {
        let mut h = match self.get_relation(old_name) {
            Ok(h) => h,
            Err(e) => {
                return Err(e);
            },
        };
        if self.relation_exists(new_name) {
            return Err(Error::StoredRelationConflict(clone_bytes(new_name)));
        }
        let nlen = new_name.len();
        let olen = old_name.len();
        proof {
            lemma_pow256_8();
        }
        let ghost pre = self.store@;
        let k_old = cat_key(old_name);
        self.store.del(&k_old);
        h.name = clone_bytes(new_name);
        proof {
            assert(wf_handle(h@));
            crate::kv::lemma_lookup_remove(pre, cat_key_v(old_name@), cat_key_v(old_name@));
            crate::kv::lemma_lookup_remove(pre, cat_key_v(old_name@), cat_key_v(new_name@));
        }
        self.write_handle(&h);
        proof {
            if old_name@ == new_name@ {
            } else {
                assert(new_name@.len() < pow256(8));
                lemma_cat_key_injective(old_name@, new_name@);
                crate::kv::lemma_lookup_insert_other(
                    kv_remove(pre, cat_key_v(old_name@)),
                    cat_key_v(new_name@),
                    enc_row(handle_vals(h@)),
                    cat_key_v(old_name@),
                );
            }
        }
        Ok(())
    }

    /// Replaces the three trigger lists of a relation atomically.
    pub fn set_relation_triggers(
        &mut self,
        name: &Vec<u8>,
        puts: Vec<Vec<u8>>,
        rms: Vec<Vec<u8>>,
        replaces: Vec<Vec<u8>>,
    ) -> (r: Result<(), Error>)
        requires
            old(self).wf(),
        ensures
            final(self).wf(),
            final(self).write == old(self).write,
            final(self).relation_store_id == old(self).relation_store_id,
            r is Ok ==> (catalog_entry(final(self).store@, name@) matches Some(hn)
                && catalog_entry(old(self).store@, name@) matches Some(ho) && hn == (HandleV {
                name: name@,
                put_triggers: crate::relation::scripts_view(puts@),
                rm_triggers: crate::relation::scripts_view(rms@),
                replace_triggers: crate::relation::scripts_view(replaces@),
                ..ho
            })),
            r matches Err(e) ==> *final(self) == *old(self) && (e is StoredRelationNotFound || e
                is DbInit) && (catalog_entry(old(self).store@, name@) is None || puts@.len()
                >= crate::relation::MAX_HANDLE_PART || rms@.len()
                >= crate::relation::MAX_HANDLE_PART || replaces@.len()
                >= crate::relation::MAX_HANDLE_PART),
            (catalog_entry(old(self).store@, name@) is Some && puts@.len()
                < crate::relation::MAX_HANDLE_PART && rms@.len()
                < crate::relation::MAX_HANDLE_PART && replaces@.len()
                < crate::relation::MAX_HANDLE_PART) ==> r is Ok,
    {
        let mut h = match self.get_relation(name) {
            Ok(h) => h,
            Err(e) => {
                return Err(e);
            },
        };
        if puts.len() >= 0x1000_0000 || rms.len() >= 0x1000_0000 || replaces.len()
            >= 0x1000_0000 {
            return Err(Error::DbInit);
        }
        observe_scripts_wf(&puts);
        observe_scripts_wf(&rms);
        observe_scripts_wf(&replaces);
        let ghost pre = self.store@;
        let name_len = name.len();
        h.name = clone_bytes(name);
        h.put_triggers = puts;
        h.rm_triggers = rms;
        h.replace_triggers = replaces;
        proof {
            lemma_pow256_8();
            assert(wf_handle(h@));
        }
        self.write_handle(&h);
        Ok(())
    }

    /// Sets the access level of a relation.
    pub fn set_access_level(&mut self, name: &Vec<u8>, level: AccessLevel) -> (r: Result<(), Error>)
        requires
            old(self).wf(),
        ensures
            final(self).wf(),
            final(self).write == old(self).write,
            final(self).relation_store_id == old(self).relation_store_id,
            r is Ok ==> (catalog_entry(final(self).store@, name@) matches Some(hn)
                && catalog_entry(old(self).store@, name@) matches Some(ho) && hn == (HandleV {
                name: name@,
                access_level: level,
                ..ho
            })),
            r matches Err(e) ==> *final(self) == *old(self) && (e is StoredRelationNotFound || e
                is DbInit) && catalog_entry(old(self).store@, name@) is None,
            catalog_entry(old(self).store@, name@) is Some ==> r is Ok,
    {
        let mut h = match self.get_relation(name) {
            Ok(h) => h,
            Err(e) => {
                return Err(e);
            },
        };
        let ghost pre = self.store@;
        let name_len = name.len();
        h.name = clone_bytes(name);
        h.access_level = level;
        proof {
            lemma_pow256_8();
            assert(wf_handle(h@));
        }
        self.write_handle(&h);
        Ok(())
    }

    /// Writes one row of a relation: the encoded key tuple under the
    /// relation's id prefix, bound to the encoded non-key tuple.
    pub fn put_row(&mut self, h: &RelationHandle, key_t: &Tuple, val_t: &Tuple)
        requires
            old(self).wf(),
        ensures
            final(self).wf(),
            final(self).relation_store_id == old(self).relation_store_id,
            final(self).write == old(self).write,
            final(self).store@ == kv_insert(
                old(self).store@,
                key_bytes(h@.id, key_t@),
                enc_row(val_t@),
            ),
    {
        let k = encode_key(h.id, key_t);
        let mut v: Vec<u8> = Vec::new();
        encode_row(&mut v, val_t);
        proof {
            assert(v@ =~= enc_row(val_t@));
        }
        self.store.put(k, v);
    }

    /// Deletes one row of a relation by its key tuple.
    pub fn del_row(&mut self, h: &RelationHandle, key_t: &Tuple)
        requires
            old(self).wf(),
        ensures
            final(self).wf(),
            final(self).relation_store_id == old(self).relation_store_id,
            final(self).write == old(self).write,
            final(self).store@ == kv_remove(old(self).store@, key_bytes(h@.id, key_t@)),
    {
        let k = encode_key(h.id, key_t);
        self.store.del(&k);
    }

    /// The stored value bytes of one row, if present.
    pub fn get_row(&self, h: &RelationHandle, key_t: &Tuple) -> (r: Option<Vec<u8>>)
        ensures
            match r {
                None => kv_lookup(self.store@, key_bytes(h@.id, key_t@)) is None,
                Some(v) => kv_lookup(self.store@, key_bytes(h@.id, key_t@)) == Some(v@),
            },
    {
        let k = encode_key(h.id, key_t);
        self.store.get(&k)
    }

    /// All stored pairs of a relation, in key order: the scan of the range
    /// `[tuple()@id, tuple()@id.next())`.
    pub fn scan_relation(&self, h: &RelationHandle) -> (r: Vec<(Vec<u8>, Vec<u8>)>)
        requires
            h@.id < u64::MAX,
        ensures
            pairs_view(r@) == select_range(
                self.store@,
                range_lower(h@.id),
                range_lower((h@.id + 1) as u64),
            ),
    {
        let lo = be8_exec(h.id.0);
        let hi = be8_exec(h.id.next().0);
        self.store.range_scan(&lo, &hi)
    }
}

} // verus!
