//! The database handle: persistent counters, the factory for sessions, the
//! script orchestrator, and the dispatch of system operations.

use vstd::prelude::*;
use vstd::string::{StrSliceExecFns, StringSliceAdditionalSpecFns};

use crate::codec::{be8, be8_exec, be_decode, from_be, pow256};
use crate::error::Error;
use crate::explain::{explain_rule, CompiledProgram, CompiledRule, CompiledRuleSet, RelAlgebra};
use crate::kv::{kv_insert, kv_lookup, pairs_view, select_range, MemKv};
use crate::poison::{now_micros, Poison};
use crate::program::{
    CozoScript, InputProgram, QueryAssertion, QuerySpec, QueryResult, RelationOp, SysOp,
};
use crate::query::{
    ensure_compatible, eval_query, execute_relation, page_rows, paged, query_rows, sort_rows,
    tuples_view,
};
use crate::registry::{RunningQueryHandle, RunningRegistry};
use crate::relation::{decode_handle, AccessLevel, ColType};
use crate::session::{cat_key_v, catalog_entry, counter_key, counter_key_v, SessionTx};
use crate::value::{clone_bytes, DataValue, Tuple, Val};

verus! {

/// The persisted relation-id allocator a store carries: zero when the
/// counter key is absent, nothing when its bytes are malformed.
pub open spec fn stored_counter(s: Seq<(Seq<u8>, Seq<u8>)>) -> Option<u64> {
    match kv_lookup(s, counter_key_v()) {
        None => Some(0),
        Some(b) => if b.len() == 8 {
            Some(from_be(b) as u64)
        } else {
            None
        },
    }
}

/// The allocator value written at a commit is exactly the value a later
/// load reads back: relation ids survive restarts and are never reused.
pub proof fn lemma_counter_persists(s: Seq<(Seq<u8>, Seq<u8>)>, c: u64)
    ensures
        stored_counter(kv_insert(s, counter_key_v(), be8(c))) == Some(c),
{
    crate::kv::lemma_lookup_insert_same(s, counter_key_v(), be8(c));
    crate::codec::lemma_be_bytes_len(c as int, 8);
    crate::codec::lemma_from_be_be(c as int, 8);
    crate::codec::lemma_pow256_8();
    vstd::arithmetic::div_mod::lemma_small_mod(c as nat, pow256(8) as nat);
}

/// Persisting the allocator at a commit touches no catalog binding.
pub proof fn lemma_commit_preserves_catalog(s: Seq<(Seq<u8>, Seq<u8>)>, c: u64, name: Seq<u8>)
    ensures
        catalog_entry(kv_insert(s, counter_key_v(), be8(c)), name) == catalog_entry(s, name),
{
    crate::session::lemma_counter_key_distinct(name, 1, Seq::empty());
    crate::kv::lemma_lookup_insert_other(s, counter_key_v(), be8(c), cat_key_v(name));
}

/// Whether any statement of a script carries a store-relation directive:
/// exactly then the script's transaction is opened writable.
pub open spec fn scripts_write(ps: Seq<InputProgram>) -> bool {
    exists|k: int| 0 <= k < ps.len() && (#[trigger] ps[k]).out_opts.store_relation is Some
}

/// What the orchestrator promises of a one-statement script, on top of the
/// error policy: the statement's own answer and failure conditions, over
/// the store the script started from.
pub open spec fn single_stmt_contract(
    p: InputProgram,
    s0: Seq<(Seq<u8>, Seq<u8>)>,
    r: Result<QueryResult, Error>,
) -> bool {
    &&& (r matches Ok(res) ==> ((p.out_opts.store_relation is None && p.out_opts.sorters@.len()
        == 0) ==> (stmt_rows(p, s0) matches Some(f) && tuples_view(res.rows@) == f)))
    &&& (r matches Ok(res) ==> ((p.out_opts.store_relation is None && p.out_opts.sorters@.len()
        > 0) ==> (query_rows(p.query, s0) matches Some(f) && (exists|sorted: Seq<Seq<Val>>|
        #[trigger] sorted.to_multiset() == f.to_multiset() && tuples_view(res.rows@) == paged(
            sorted,
            p.out_opts.limit,
            p.out_opts.offset,
        )))))
    &&& (r matches Ok(res) ==> (p.out_opts.store_relation is None ==> (res.headers matches Some(
        hs,
    ) && hs@.len() == p.entry_head@.len() && (forall|j: int|
        0 <= j < hs@.len() ==> (#[trigger] hs@[j])@ == p.entry_head@[j]@))))
    &&& (r matches Ok(res) ==> (p.out_opts.store_relation is Some ==> status_shape(
        res,
        "OK".spec_bytes(),
    )))
    &&& ((p.out_opts.store_relation matches Some(d) && d.1 == RelationOp::Create && kv_lookup(
        s0,
        cat_key_v(d.0.name@),
    ) is Some) ==> (r matches Err(e) && e is StoredRelationConflict))
    &&& ((p.out_opts.store_relation matches Some(d) && (d.1 == RelationOp::Put || d.1
        == RelationOp::Rm || d.1 == RelationOp::Ensure || d.1 == RelationOp::EnsureNot)
        && kv_lookup(s0, cat_key_v(d.0.name@)) is None) ==> (r matches Err(e) && e
        is StoredRelationNotFound))
    &&& (r matches Err(e) ==> (e matches Error::AssertNoneFailure(t) ==> (p.out_opts.assertion
        == Some(QueryAssertion::AssertNone) && (stmt_rows(p, s0) matches Some(f) && f.len() > 0
        && t@ == f[0]))))
    &&& ((r matches Err(e) && e is AssertSomeFailure) ==> (p.out_opts.assertion == Some(
        QueryAssertion::AssertSome,
    ) && stmt_rows(p, s0) == Some(Seq::<Seq<Val>>::empty())))
    &&& ((r is Ok && p.out_opts.assertion == Some(QueryAssertion::AssertSome)) ==> (stmt_rows(
        p,
        s0,
    ) matches Some(f) && f.len() > 0))
    &&& ((r is Ok && p.out_opts.assertion == Some(QueryAssertion::AssertNone)) ==> stmt_rows(
        p,
        s0,
    ) == Some(Seq::<Seq<Val>>::empty()))
    &&& ((p.out_opts.assertion == Some(QueryAssertion::AssertNone) && (stmt_rows(p, s0)
        matches Some(f) && f.len() > 0)) ==> (r matches Err(e) && (e is Killed || e is DbInit || (
    e matches Error::AssertNoneFailure(t) && t@ == stmt_rows(p, s0).unwrap()[0]) || (
    p.out_opts.store_relation is Some && (e is StoredRelationConflict || e
        is StoredRelationNotFound || e is SchemaIncompatible)))))
    &&& ((p.out_opts.assertion == Some(QueryAssertion::AssertSome) && stmt_rows(p, s0) == Some(
        Seq::<Seq<Val>>::empty(),
    )) ==> (r matches Err(e) && (e is Killed || e is DbInit || e is AssertSomeFailure || (
    p.out_opts.store_relation is Some && (e is StoredRelationConflict || e
        is StoredRelationNotFound || e is SchemaIncompatible)))))
}

/// What one successful statement leaves in its session, over the store and
/// allocator the session started from; a sorted store directive feeds the
/// relation a permutation, so only unsorted directives are pinned, and a
/// `Replace` is described at the statement level by its own clauses.
pub open spec fn single_stmt_tx(
    p: InputProgram,
    s0: Seq<(Seq<u8>, Seq<u8>)>,
    ctr: u64,
    tx: SessionTx,
) -> bool {
    match p.out_opts.store_relation {
        None => tx.store@ == s0 && tx.relation_store_id == ctr,
        Some(d) => p.out_opts.sorters@.len() == 0 ==> (match d.1 {
            RelationOp::Put => (stmt_rows(p, s0) matches Some(f) && catalog_entry(s0, d.0.name@)
                matches Some(h) && tx.store@ == crate::query::put_rows_spec(
                s0,
                h.id,
                h.keys.len() as int,
                f,
            ) && tx.relation_store_id == ctr),
            RelationOp::Rm => (stmt_rows(p, s0) matches Some(f) && catalog_entry(s0, d.0.name@)
                matches Some(h) && tx.store@ == crate::query::rm_rows_spec(
                s0,
                h.id,
                h.keys.len() as int,
                f,
            ) && tx.relation_store_id == ctr),
            RelationOp::Create => (stmt_rows(p, s0) matches Some(f) && catalog_entry(
                tx.store@,
                d.0.name@,
            ) matches Some(h2) && h2.id == ctr + 1 && tx.store@
                == crate::query::put_rows_spec(
                kv_insert(
                    s0,
                    cat_key_v(d.0.name@),
                    crate::codec::enc_row(crate::relation::handle_vals(h2)),
                ),
                (ctr + 1) as u64,
                d.0.keys@.len() as int,
                f,
            ) && tx.relation_store_id == ctr + 1),
            RelationOp::Ensure => tx.store@ == s0 && tx.relation_store_id == ctr,
            RelationOp::EnsureNot => tx.store@ == s0 && tx.relation_store_id == ctr,
            RelationOp::Replace => (stmt_rows(p, s0) matches Some(f) && catalog_entry(
                tx.store@,
                d.0.name@,
            ) matches Some(h2) && h2.id == ctr + 1 && tx.relation_store_id == ctr + 1 && (match
            catalog_entry(s0, d.0.name@) {
                Some(hold) => tx.store@ == crate::query::put_rows_spec(
                    kv_insert(
                        crate::kv::kv_remove(s0, cat_key_v(d.0.name@)),
                        cat_key_v(d.0.name@),
                        crate::codec::enc_row(crate::relation::handle_vals(h2)),
                    ),
                    (ctr + 1) as u64,
                    d.0.keys@.len() as int,
                    f,
                ),
                None => tx.store@ == crate::query::put_rows_spec(
                    kv_insert(
                        s0,
                        cat_key_v(d.0.name@),
                        crate::codec::enc_row(crate::relation::handle_vals(h2)),
                    ),
                    (ctr + 1) as u64,
                    d.0.keys@.len() as int,
                    f,
                ),
            })),
        }),
    }
}

/// What a committed one-statement script leaves behind: the statement's
/// session effect, persisted with its allocator; a directive-free script
/// commits nothing.
pub open spec fn single_stmt_store(
    p: InputProgram,
    s0: Seq<(Seq<u8>, Seq<u8>)>,
    ctr: u64,
    fs: Seq<(Seq<u8>, Seq<u8>)>,
    fctr: u64,
) -> bool {
    match p.out_opts.store_relation {
        None => fs == s0 && fctr == ctr,
        Some(d) => p.out_opts.sorters@.len() == 0 ==> (exists|tx: SessionTx|
            #[trigger] single_stmt_tx(p, s0, ctr, tx) && fctr == tx.relation_store_id && (match
            d.1 {
                RelationOp::Replace => (match catalog_entry(s0, d.0.name@) {
                    Some(hold) => fs == crate::kv::reject_range(
                        kv_insert(tx.store@, counter_key_v(), be8(tx.relation_store_id)),
                        crate::relation::range_lower(hold.id),
                        crate::relation::range_lower((hold.id + 1) as u64),
                    ),
                    None => fs == kv_insert(
                        tx.store@,
                        counter_key_v(),
                        be8(tx.relation_store_id),
                    ),
                }),
                _ => fs == kv_insert(tx.store@, counter_key_v(), be8(tx.relation_store_id)),
            })),
    }
}

/// The rows a statement answers with before sorting: its plan's row set,
/// paginated at the evaluator exactly when no sorters are given.
pub open spec fn stmt_rows(p: InputProgram, s: Seq<(Seq<u8>, Seq<u8>)>) -> Option<Seq<Seq<Val>>> {
    match query_rows(p.query, s) {
        None => None,
        Some(full) => if p.out_opts.sorters@.len() == 0 {
            Some(paged(full, p.out_opts.limit, p.out_opts.offset))
        } else {
            Some(full)
        },
    }
}

/// The manifest the storage collaborator serializes at a well-known place;
/// this core reads the storage version and never writes it.
pub struct DbManifest {
    pub storage_version: u64,
}

/// The database object.
pub struct Db {
    pub store: MemKv,
    pub relation_store_id: u64,
    pub running: RunningRegistry,
}

impl Db {
    pub open spec fn wf(&self) -> bool {
        self.store.wf() && self.running.wf()
    }

    /// A database over a storage instance. `initialize` must be called
    /// before anything else, to load the persisted counters.
    pub fn new(storage: MemKv) -> (r: Result<Db, Error>)
        requires
            storage.wf(),
        ensures
            r matches Ok(db) && db.wf() && db.store@ == storage@ && db.relation_store_id == 0
                && db.running.entries@.len() == 0 && db.running.next_id == 0,
    {
        Ok(Db { store: storage, relation_store_id: 0, running: RunningRegistry::new() })
    }

    /// Loads the persisted relation-id allocator into the handle.
    pub fn initialize(&mut self) -> (r: Result<(), Error>)
        requires
            old(self).wf(),
        ensures
            final(self).wf(),
            final(self).store@ == old(self).store@,
            match r {
                Ok(_) => stored_counter(old(self).store@) == Some(final(self).relation_store_id),
                Err(e) => e is DbInit && stored_counter(old(self).store@) is None,
            },
    {
        self.load_last_ids()
    }

    /// Reads the allocator's last committed value from the store.
    fn load_last_ids(&mut self) -> (r: Result<(), Error>)
        requires
            old(self).wf(),
        ensures
            final(self).wf(),
            final(self).store@ == old(self).store@,
            match r {
                Ok(_) => stored_counter(old(self).store@) == Some(final(self).relation_store_id),
                Err(e) => e is DbInit && stored_counter(old(self).store@) is None,
            },
    {
        let ck = counter_key();
        match self.store.get(&ck) {
            None => {
                self.relation_store_id = 0;
                Ok(())
            },
            Some(b) => {
                if b.len() != 8 {
                    return Err(Error::DbInit);
                }
                let x = be_decode(b.as_slice());
                proof {
                    crate::codec::lemma_from_be_bound(b@);
                }
                self.relation_store_id = x;
                Ok(())
            },
        }
    }

    /// Opens a read-only session over a snapshot of the store.
    pub fn transact(&self) -> (tx: SessionTx)
        ensures
            tx.store@ == self.store@,
            tx.relation_store_id == self.relation_store_id,
            !tx.write,
            self.wf() ==> tx.wf(),
    {
        SessionTx {
            store: self.store.duplicate(),
            relation_store_id: self.relation_store_id,
            write: false,
        }
    }

    /// Opens a writable session over a snapshot of the store.
    pub fn transact_write(&self) -> (tx: SessionTx)
        ensures
            tx.store@ == self.store@,
            tx.relation_store_id == self.relation_store_id,
            tx.write,
            self.wf() ==> tx.wf(),
    {
        SessionTx {
            store: self.store.duplicate(),
            relation_store_id: self.relation_store_id,
            write: true,
        }
    }

    /// Commits a session: its store, with the allocator value persisted
    /// under the counter key, replaces the handle's. A read-only session
    /// leaves the handle untouched.
    pub fn commit_tx(&mut self, tx: SessionTx)
        requires
            old(self).wf(),
            tx.wf(),
        ensures
            final(self).wf(),
            final(self).running == old(self).running,
            tx.write ==> final(self).store@ == kv_insert(
                tx.store@,
                counter_key_v(),
                be8(tx.relation_store_id),
            ) && final(self).relation_store_id == tx.relation_store_id && stored_counter(
                final(self).store@,
            ) == Some(tx.relation_store_id),
            !tx.write ==> final(self).store@ == old(self).store@ && final(self).relation_store_id == old(self).relation_store_id,
    {
        if tx.write {
            let mut st = tx.store;
            let ck = counter_key();
            let cv = be8_exec(tx.relation_store_id);
            let ghost pre = st@;
            st.put(ck, cv);
            self.store = st;
            self.relation_store_id = tx.relation_store_id;
            proof {
                lemma_counter_persists(pre, tx.relation_store_id);
            }
        }
    }

    /// Deletes a committed key range from the store: the post-commit
    /// cleanup of replaced and removed relations.
    pub fn del_range(&mut self, lo: &Vec<u8>, hi: &Vec<u8>)
        requires
            old(self).wf(),
        ensures
            final(self).wf(),
            final(self).running == old(self).running,
            final(self).relation_store_id == old(self).relation_store_id,
            final(self).store@ == crate::kv::reject_range(old(self).store@, lo@, hi@),
    {
        self.store.del_range(lo, hi);
    }

    /// Compacts the whole id space; the contents do not change.
    fn compact_relation(&mut self)
        requires
            old(self).wf(),
        ensures
            final(self).wf(),
            final(self).store@ == old(self).store@,
            final(self).relation_store_id == old(self).relation_store_id,
            final(self).running == old(self).running,
    {
        let lo = be8_exec(0);
        let mut hi = be8_exec(u64::MAX);
        hi.push(crate::codec::TAG_BOT);
        self.store.range_compact(&lo, &hi);
    }

    /// Runs one parsed script: a sequence of query statements under one
    /// session, or a system operation. On success the result carries
    /// `ok: true`; on any error nothing is committed.
    pub fn run_script(&mut self, script: CozoScript) -> (r: Result<QueryResult, Error>)
        requires
            old(self).wf(),
        ensures
            final(self).wf(),
            r matches Ok(res) ==> res.ok,
            r is Err ==> final(self).store@ == old(self).store@ && final(self).relation_store_id
                == old(self).relation_store_id,
            script matches CozoScript::Multi(ps) ==> (!scripts_write(ps@) ==> final(self).store@
                == old(self).store@ && final(self).relation_store_id == old(self).relation_store_id),
            script matches CozoScript::Multi(ps) ==> (ps@.len() == 1 ==> single_stmt_contract(
                ps@[0],
                old(self).store@,
                r,
            )),
            script matches CozoScript::Multi(ps) ==> ((ps@.len() == 1 && r is Ok)
                ==> single_stmt_store(
                ps@[0],
                old(self).store@,
                old(self).relation_store_id,
                final(self).store@,
                final(self).relation_store_id,
            )),
    {
        match self.do_run_script(script) {
            Ok(mut res) => {
                res.ok = true;
                Ok(res)
            },
            Err(e) => Err(e),
        }
    }

    /// The orchestrator: picks the transaction mode, runs each statement,
    /// commits, and issues the accumulated range cleanups after the commit.
    fn do_run_script(&mut self, script: CozoScript) -> (r: Result<QueryResult, Error>)
        requires
            old(self).wf(),
        ensures
            final(self).wf(),
            r is Err ==> final(self).store@ == old(self).store@ && final(self).relation_store_id
                == old(self).relation_store_id,
            script matches CozoScript::Multi(ps) ==> (!scripts_write(ps@) ==> final(self).store@
                == old(self).store@ && final(self).relation_store_id == old(self).relation_store_id),
            script matches CozoScript::Multi(ps) ==> (ps@.len() == 1 ==> single_stmt_contract(
                ps@[0],
                old(self).store@,
                r,
            )),
            script matches CozoScript::Multi(ps) ==> ((ps@.len() == 1 && r is Ok)
                ==> single_stmt_store(
                ps@[0],
                old(self).store@,
                old(self).relation_store_id,
                final(self).store@,
                final(self).relation_store_id,
            )),
    {
        match script {
            CozoScript::Multi(ps) => {
                let mut is_write = false;
                let mut i: usize = 0;
                while i < ps.len()
                    invariant
                        0 <= i <= ps@.len(),
                        !is_write ==> forall|k: int|
                            0 <= k < i ==> (#[trigger] ps@[k]).out_opts.store_relation is None,
                        is_write ==> scripts_write(ps@),
                    decreases ps@.len() - i,
                {
                    if ps[i].out_opts.store_relation.is_some() {
                        is_write = true;
                    }
                    i = i + 1;
                }
                let mut tx = if is_write {
                    self.transact_write()
                } else {
                    self.transact()
                };
                let mut cleanups: Vec<(Vec<u8>, Vec<u8>)> = Vec::new();
                let mut res = QueryResult { headers: None, rows: Vec::new(), ok: false };
                let mut j: usize = 0;
                while j < ps.len()
                    invariant
                        0 <= j <= ps@.len(),
                        self.wf(),
                        tx.wf(),
                        tx.write == is_write,
                        self.store@ == old(self).store@,
                        self.relation_store_id == old(self).relation_store_id,
                        script == CozoScript::Multi(ps),
                        is_write ==> scripts_write(ps@),
                        j == 0 ==> tx.store@ == old(self).store@ && tx.relation_store_id == old(self).relation_store_id,
                        j == 0 ==> cleanups@.len() == 0,
                        !is_write ==> forall|k: int|
                            0 <= k < ps@.len() ==> (#[trigger] ps@[k]).out_opts.store_relation
                                is None,
                        !is_write ==> cleanups@.len() == 0,
                        !is_write ==> tx.store@ == old(self).store@ && tx.relation_store_id
                            == old(self).relation_store_id,
                        (ps@.len() == 1 && j == 1) ==> single_stmt_contract(
                            ps@[0],
                            old(self).store@,
                            Ok(res),
                        ),
                        (ps@.len() == 1 && j == 1) ==> single_stmt_tx(
                            ps@[0],
                            old(self).store@,
                            old(self).relation_store_id,
                            tx,
                        ),
                        (ps@.len() == 1 && j == 1 && !(ps@[0].out_opts.store_relation matches Some(
                            d,
                        ) && d.1 == RelationOp::Replace)) ==> cleanups@.len() == 0,
                        (ps@.len() == 1 && j == 1 && ps@[0].out_opts.sorters@.len() == 0) ==> (
                        ps@[0].out_opts.store_relation matches Some(d) ==> (d.1
                            == RelationOp::Replace ==> (match catalog_entry(
                            old(self).store@,
                            d.0.name@,
                        ) {
                            Some(hold) => cleanups@.len() == 1 && cleanups@[0].0@
                                == crate::relation::range_lower(hold.id) && cleanups@[0].1@
                                == crate::relation::range_lower((hold.id + 1) as u64),
                            None => cleanups@.len() == 0,
                        }))),
                    decreases ps@.len() - j,
                {
                    proof {
                        if ps@[j as int].out_opts.store_relation is Some {
                            assert(is_write);
                        }
                    }
                    match self.run_query(&mut tx, &ps[j]) {
                        Ok((q_res, q_cleanups)) => {
                            res = q_res;
                            let mut k: usize = 0;
                            let n2 = q_cleanups.len();
                            let mut moved = q_cleanups;
                            let ghost clen0 = cleanups@.len();
                            let ghost precopy = cleanups@;
                            proof {
                                if !is_write {
                                    assert(ps@[j as int].out_opts.store_relation is None);
                                }
                            }
                            while k < n2
                                invariant
                                    0 <= k <= n2,
                                    moved@.len() == n2,
                                    cleanups@.len() == clen0 + k,
                                    precopy.len() == clen0,
                                    forall|q: int|
                                        0 <= q < clen0 ==> #[trigger] cleanups@[q] == precopy[q],
                                    forall|q: int|
                                        0 <= q < k ==> (#[trigger] cleanups@[clen0 + q]).0@
                                            == moved@[q].0@ && cleanups@[clen0 + q].1@
                                            == moved@[q].1@,
                                    !is_write ==> n2 == 0 && cleanups@.len() == 0,
                                decreases n2 - k,
                            {
                                let pair = (
                                    clone_bytes(&moved[k].0),
                                    clone_bytes(&moved[k].1),
                                );
                                cleanups.push(pair);
                                k = k + 1;
                            }
                        },
                        Err(e) => {
                            return Err(e);
                        },
                    }
                    j = j + 1;
                }
                let ghost txsnap = tx;
                self.commit_tx(tx);
                let ghost post_commit_store = self.store@;
                let ghost post_commit_ctr = self.relation_store_id;
                let mut c: usize = 0;
                let n3 = cleanups.len();
                while c < n3
                    invariant
                        0 <= c <= n3,
                        cleanups@.len() == n3,
                        script == CozoScript::Multi(ps),
                        is_write ==> scripts_write(ps@),
                        !is_write ==> n3 == 0,
                        !is_write ==> self.store@ == old(self).store@ && self.relation_store_id
                            == old(self).relation_store_id,
                        n3 == 0 ==> self.store@ == post_commit_store && self.relation_store_id
                            == post_commit_ctr,
                        self.relation_store_id == post_commit_ctr,
                        (n3 == 1 && c == 0) ==> self.store@ == post_commit_store,
                        (n3 == 1 && c == 1) ==> self.store@ == crate::kv::reject_range(
                            post_commit_store,
                            cleanups@[0].0@,
                            cleanups@[0].1@,
                        ),
                        self.wf(),
                    decreases n3 - c,
                {
                    self.store.del_range(&cleanups[c].0, &cleanups[c].1);
                    c = c + 1;
                }
                proof {
                    if ps@.len() == 1 {
                        let p0 = ps@[0];
                        if p0.out_opts.store_relation is None {
                            assert(single_stmt_store(
                                p0,
                                old(self).store@,
                                old(self).relation_store_id,
                                self.store@,
                                self.relation_store_id,
                            ));
                        } else if p0.out_opts.sorters@.len() == 0 {
                            assert(is_write) by {
                                assert(ps@[0].out_opts.store_relation is Some);
                            }
                            assert(single_stmt_tx(
                                p0,
                                old(self).store@,
                                old(self).relation_store_id,
                                txsnap,
                            ));
                            if !(p0.out_opts.store_relation matches Some(d) && d.1
                                == RelationOp::Replace) {
                                assert(self.store@ == kv_insert(
                                    txsnap.store@,
                                    counter_key_v(),
                                    be8(txsnap.relation_store_id),
                                ));
                            } else {
                                let d = p0.out_opts.store_relation.unwrap();
                                if catalog_entry(old(self).store@, d.0.name@) is Some {
                                    assert(n3 == 1);
                                    assert(self.store@ == crate::kv::reject_range(
                                        post_commit_store,
                                        cleanups@[0].0@,
                                        cleanups@[0].1@,
                                    ));
                                } else {
                                    assert(n3 == 0);
                                    assert(self.store@ == post_commit_store);
                                }
                            }
                            assert(single_stmt_store(
                                p0,
                                old(self).store@,
                                old(self).relation_store_id,
                                self.store@,
                                self.relation_store_id,
                            ));
                        }
                    }
                }
                Ok(res)
            },
            CozoScript::Sys(op) => self.run_sys_op(op),
        }
    }

    /// Runs one query statement inside a session: pre-flight of the store
    /// directive, evaluation under a registered poison, assertions, sorting
    /// and pagination, and the directive itself. A statement with a store
    /// directive demands a writable session, and only such a statement can
    /// hand back cleanup ranges: cleanups are nonempty only under a
    /// writable transaction. The running-query entry is removed on every
    /// exit path.
    pub fn run_query(&mut self, tx: &mut SessionTx, p: &InputProgram) -> (r: Result<
        (QueryResult, Vec<(Vec<u8>, Vec<u8>)>),
        Error,
    >)
        requires
            old(self).wf(),
            old(tx).wf(),
            p.out_opts.store_relation is Some ==> old(tx).write,
        ensures
            final(self).wf(),
            final(tx).wf(),
            final(tx).write == old(tx).write,
            final(self).store@ == old(self).store@,
            final(self).relation_store_id == old(self).relation_store_id,
            r is Err ==> *final(tx) == *old(tx),
            r matches Ok(rc) ==> (p.out_opts.store_relation is None ==> rc.1@.len() == 0
                && *final(tx) == *old(tx)),
            r matches Ok(rc) ==> (p.out_opts.store_relation matches Some(d) ==> (d.1
                != RelationOp::Replace ==> rc.1@.len() == 0)),
            (p.out_opts.store_relation matches Some(d) && d.1 == RelationOp::Create && kv_lookup(
                old(tx).store@,
                cat_key_v(d.0.name@),
            ) is Some) ==> (r matches Err(e) && e is StoredRelationConflict),
            (p.out_opts.store_relation matches Some(d) && (d.1 == RelationOp::Put || d.1
                == RelationOp::Rm || d.1 == RelationOp::Ensure || d.1 == RelationOp::EnsureNot)
                && kv_lookup(old(tx).store@, cat_key_v(d.0.name@)) is None) ==> (r matches Err(e)
                && e is StoredRelationNotFound),
            (p.out_opts.store_relation matches Some(d) && (d.1 == RelationOp::Put || d.1
                == RelationOp::Rm || d.1 == RelationOp::Ensure || d.1 == RelationOp::EnsureNot)
                && (catalog_entry(old(tx).store@, d.0.name@) matches Some(h) && !(
            crate::query::cols_compatible(h.keys, crate::relation::cols_view(d.0.keys@))
                && crate::query::cols_compatible(
                h.non_keys,
                crate::relation::cols_view(d.0.non_keys@),
            )))) ==> (r matches Err(e) && e is SchemaIncompatible),
            r matches Err(e) ==> (e matches Error::AssertNoneFailure(t) ==> (p.out_opts.assertion
                == Some(QueryAssertion::AssertNone) && (stmt_rows(*p, old(tx).store@) matches Some(
                f,
            ) && f.len() > 0 && t@ == f[0]))),
            (r matches Err(e) && e is AssertSomeFailure) ==> (p.out_opts.assertion == Some(
                QueryAssertion::AssertSome,
            ) && stmt_rows(*p, old(tx).store@) == Some(Seq::<Seq<Val>>::empty())),
            (r is Ok && p.out_opts.assertion == Some(QueryAssertion::AssertSome)) ==> (stmt_rows(
                *p,
                old(tx).store@,
            ) matches Some(f) && f.len() > 0),
            (r is Ok && p.out_opts.assertion == Some(QueryAssertion::AssertNone)) ==> stmt_rows(
                *p,
                old(tx).store@,
            ) == Some(Seq::<Seq<Val>>::empty()),
            r matches Ok(rc) ==> (p.out_opts.store_relation is Some ==> status_shape(
                rc.0,
                "OK".spec_bytes(),
            )),
            r matches Ok(rc) ==> (p.out_opts.store_relation is None ==> (rc.0.headers matches Some(
                hs,
            ) && hs@.len() == p.entry_head@.len() && (forall|j: int|
                0 <= j < hs@.len() ==> (#[trigger] hs@[j])@ == p.entry_head@[j]@))),
            (p.out_opts.assertion == Some(QueryAssertion::AssertNone) && (stmt_rows(
                *p,
                old(tx).store@,
            ) matches Some(f) && f.len() > 0)) ==> (r matches Err(e) && (e is Killed || e
                is DbInit || (e matches Error::AssertNoneFailure(t) && t@ == stmt_rows(
                *p,
                old(tx).store@,
            ).unwrap()[0]) || (p.out_opts.store_relation is Some && (e is StoredRelationConflict
                || e is StoredRelationNotFound || e is SchemaIncompatible)))),
            (p.out_opts.assertion == Some(QueryAssertion::AssertSome) && stmt_rows(
                *p,
                old(tx).store@,
            ) == Some(Seq::<Seq<Val>>::empty())) ==> (r matches Err(e) && (e is Killed || e
                is DbInit || e is AssertSomeFailure || (p.out_opts.store_relation is Some && (e
                is StoredRelationConflict || e is StoredRelationNotFound || e
                is SchemaIncompatible)))),
            r matches Err(e) ==> (e is BadSorter ==> sorter_unresolvable(
                p.out_opts.sorters@,
                p.entry_head@,
            )),
            forall|q: u64|
                crate::registry::contains_id(final(self).running.entries@, q)
                    == crate::registry::contains_id(old(self).running.entries@, q),
            r is Ok ==> single_stmt_tx(
                *p,
                old(tx).store@,
                old(tx).relation_store_id,
                *final(tx),
            ),
            p.out_opts.store_relation matches Some(d) ==> ((r is Ok
                && p.out_opts.sorters@.len() == 0) ==> (stmt_rows(*p, old(tx).store@)
                matches Some(f) && (match d.1 {
                RelationOp::Put => (catalog_entry(old(tx).store@, d.0.name@) matches Some(h)
                    && final(tx).store@ == crate::query::put_rows_spec(
                    old(tx).store@,
                    h.id,
                    h.keys.len() as int,
                    f,
                )),
                RelationOp::Rm => (catalog_entry(old(tx).store@, d.0.name@) matches Some(h)
                    && final(tx).store@ == crate::query::rm_rows_spec(
                    old(tx).store@,
                    h.id,
                    h.keys.len() as int,
                    f,
                )),
                RelationOp::Create => (final(tx).relation_store_id == old(tx).relation_store_id
                    + 1 && (catalog_entry(final(tx).store@, d.0.name@) matches Some(h2)
                    && h2.id == old(tx).relation_store_id + 1 && final(tx).store@
                    == crate::query::put_rows_spec(
                    kv_insert(
                        old(tx).store@,
                        cat_key_v(d.0.name@),
                        crate::codec::enc_row(crate::relation::handle_vals(h2)),
                    ),
                    h2.id,
                    d.0.keys@.len() as int,
                    f,
                ))),
                RelationOp::Ensure => *final(tx) == *old(tx),
                RelationOp::EnsureNot => *final(tx) == *old(tx),
                RelationOp::Replace => true,
            }))),
            p.out_opts.store_relation matches Some(d) ==> (d.1 == RelationOp::Replace ==> (
            r matches Ok(rc) ==> (p.out_opts.sorters@.len() == 0 ==> (stmt_rows(
                *p,
                old(tx).store@,
            ) matches Some(f) && (catalog_entry(final(tx).store@, d.0.name@) matches Some(h2)
                && h2.id == old(tx).relation_store_id + 1) && (match catalog_entry(
                old(tx).store@,
                d.0.name@,
            ) {
                Some(hold) => rc.1@.len() == 1 && rc.1@[0].0@ == crate::relation::range_lower(
                    hold.id,
                ) && rc.1@[0].1@ == crate::relation::range_lower((hold.id + 1) as u64) && final(tx).store@ == crate::query::put_rows_spec(
                    kv_insert(
                        crate::kv::kv_remove(old(tx).store@, cat_key_v(d.0.name@)),
                        cat_key_v(d.0.name@),
                        crate::codec::enc_row(
                            crate::relation::handle_vals(
                                catalog_entry(final(tx).store@, d.0.name@).unwrap(),
                            ),
                        ),
                    ),
                    (old(tx).relation_store_id + 1) as u64,
                    d.0.keys@.len() as int,
                    f,
                ),
                None => rc.1@.len() == 0 && final(tx).store@ == crate::query::put_rows_spec(
                    kv_insert(
                        old(tx).store@,
                        cat_key_v(d.0.name@),
                        crate::codec::enc_row(
                            crate::relation::handle_vals(
                                catalog_entry(final(tx).store@, d.0.name@).unwrap(),
                            ),
                        ),
                    ),
                    (old(tx).relation_store_id + 1) as u64,
                    d.0.keys@.len() as int,
                    f,
                ),
            }))))),
            r matches Ok(rc) ==> ((p.out_opts.store_relation is None && p.out_opts.sorters@.len()
                == 0) ==> (stmt_rows(*p, old(tx).store@) matches Some(f) && tuples_view(
                rc.0.rows@,
            ) == f)),
            r matches Ok(rc) ==> ((p.out_opts.store_relation is None && p.out_opts.sorters@.len()
                > 0) ==> (query_rows(p.query, old(tx).store@) matches Some(f) && (exists|
                sorted: Seq<Seq<Val>>,
            |
                #[trigger] sorted.to_multiset() == f.to_multiset() && tuples_view(rc.0.rows@)
                    == paged(sorted, p.out_opts.limit, p.out_opts.offset)))),
    {
        if let Some((m, op)) = &p.out_opts.store_relation {
            match op {
                RelationOp::Create => {
                    if tx.relation_exists(&m.name) {
                        return Err(Error::StoredRelationConflict(clone_bytes(&m.name)));
                    }
                },
                RelationOp::Replace => {},
                _ => {
                    let hh = match tx.get_relation(&m.name) {
                        Ok(h) => h,
                        Err(e) => {
                            return Err(e);
                        },
                    };
                    if !ensure_compatible(&hh, m) {
                        return Err(Error::SchemaIncompatible(clone_bytes(&m.name)));
                    }
                },
            }
        }
        let mut poison = Poison::new();
        if let Some(micros) = p.out_opts.timeout_micros {
            poison.set_timeout_micros(micros);
        }
        let started = now_micros();
        if self.running.next_id == u64::MAX {
            return Err(Error::DbInit);
        }
        let id = self.running.register(
            RunningQueryHandle { started_at_micros: started, poison: poison.share() },
        );
        let ghost mid = self.running.entries@;
        let result = run_query_core(tx, p, &poison);
        self.running.unregister(id);
        proof {
            assert forall|q: u64|
                crate::registry::contains_id(self.running.entries@, q)
                    == crate::registry::contains_id(old(self).running.entries@, q) by {
                if q == id {
                    assert(!crate::registry::contains_id(old(self).running.entries@, q)) by {
                        if crate::registry::contains_id(old(self).running.entries@, q) {
                            let w = choose|w: int|
                                0 <= w < old(self).running.entries@.len() && old(self).running.entries@[w].0 == q;
                            assert(old(self).running.entries@[w].0 < id);
                        }
                    }
                } else {
                    assert(crate::registry::contains_id(mid, q) == crate::registry::contains_id(
                        old(self).running.entries@,
                        q,
                    )) by {
                        if crate::registry::contains_id(old(self).running.entries@, q) {
                            let w = choose|w: int|
                                0 <= w < old(self).running.entries@.len() && old(self).running.entries@[w].0 == q;
                            assert(mid[w].0 == q);
                        }
                        if crate::registry::contains_id(mid, q) {
                            let w = choose|w: int| 0 <= w < mid.len() && mid[w].0 == q;
                            if w < mid.len() - 1 {
                                assert(old(self).running.entries@[w].0 == q);
                            }
                        }
                    }
                }
            }
        }
        result
    }

    /// Dispatches one system operation.
    #[verifier::rlimit(50)]
    pub fn run_sys_op(&mut self, op: SysOp) -> (r: Result<QueryResult, Error>)
        requires
            old(self).wf(),
        ensures
            final(self).wf(),
            r is Err ==> final(self).store@ == old(self).store@ && final(self).relation_store_id == old(self).relation_store_id,
            op matches SysOp::SetTriggers(name, puts, rms, replaces) ==> (r is Ok ==> (
            catalog_entry(final(self).store@, name@) matches Some(hn) && catalog_entry(
                old(self).store@,
                name@,
            ) matches Some(ho) && hn == (crate::relation::HandleV {
                name: name@,
                put_triggers: crate::relation::scripts_view(puts@),
                rm_triggers: crate::relation::scripts_view(rms@),
                replace_triggers: crate::relation::scripts_view(replaces@),
                ..ho
            }))),
            op matches SysOp::KillRunning(id) ==> *final(self) == *old(self) && (r matches Ok(
                res,
            ) && (crate::registry::contains_id(old(self).running.entries@, id) ==> status_shape(
                res,
                "KILLING".spec_bytes(),
            )) && (!crate::registry::contains_id(old(self).running.entries@, id) ==> status_shape(
                res,
                "NOT_FOUND".spec_bytes(),
            ))),
            op is ListRunning ==> *final(self) == *old(self) && (r matches Ok(res)
                && res.rows@.len() == old(self).running.entries@.len() && (forall|j: int|
                0 <= j < res.rows@.len() ==> (#[trigger] res.rows@[j])@ == seq![
                    Val::Int(old(self).running.entries@[j].0 as i64),
                    Val::Int(old(self).running.entries@[j].1.started_at_micros as i64),
                ])),
            op matches SysOp::ShowTrigger(nm2) ==> (catalog_entry(old(self).store@, nm2@)
                is Some ==> r is Ok),
            op matches SysOp::SetAccessLevel(nms2, _) ==> ((nms2@.len() == 1 && catalog_entry(
                old(self).store@,
                nms2@[0]@,
            ) is Some) ==> r is Ok),
            op matches SysOp::RemoveRelation(nms3) ==> ((nms3@.len() == 1 && (catalog_entry(
                old(self).store@,
                nms3@[0]@,
            ) matches Some(h3) && h3.id < u64::MAX)) ==> r is Ok),
            op matches SysOp::RenameRelation(prs2) ==> ((prs2@.len() == 1 && catalog_entry(
                old(self).store@,
                prs2@[0].0@,
            ) is Some && kv_lookup(old(self).store@, cat_key_v(prs2@[0].1@)) is None) ==> r
                is Ok),
            op matches SysOp::SetTriggers(nm3, pts, rms2, reps2) ==> ((catalog_entry(
                old(self).store@,
                nm3@,
            ) is Some && pts@.len() < crate::relation::MAX_HANDLE_PART && rms2@.len()
                < crate::relation::MAX_HANDLE_PART && reps2@.len()
                < crate::relation::MAX_HANDLE_PART) ==> r is Ok),
            op is Compact ==> final(self).store@ == old(self).store@ && final(self).relation_store_id == old(self).relation_store_id && final(self).running == old(self).running && (r matches Ok(res) && status_shape(res, "OK".spec_bytes())),
            op matches SysOp::Explain(_) ==> *final(self) == *old(self) && (r matches Ok(res)
                && (res.headers matches Some(hs) && hs@.len() == 9 && (forall|j: int|
                0 <= j < 9 ==> (#[trigger] hs@[j])@ == explain_headers_spec()[j]))),
            op matches SysOp::RemoveRelation(_) ==> (r matches Ok(res) ==> status_shape(
                res,
                "OK".spec_bytes(),
            )),
            op matches SysOp::RenameRelation(_) ==> (r matches Ok(res) ==> status_shape(
                res,
                "OK".spec_bytes(),
            )),
            op matches SysOp::SetTriggers(_, _, _, _) ==> (r matches Ok(res) ==> status_shape(
                res,
                "OK".spec_bytes(),
            )),
            op matches SysOp::SetAccessLevel(_, _) ==> (r matches Ok(res) ==> status_shape(
                res,
                "OK".spec_bytes(),
            )),
            op matches SysOp::RemoveRelation(names) ==> ((names@.len() == 1 && r is Ok) ==> (
            catalog_entry(old(self).store@, names@[0]@) matches Some(h) && (h.id >= 1
                ==> kv_lookup(final(self).store@, cat_key_v(names@[0]@)) is None) && final(self).store@ == crate::kv::reject_range(
                kv_insert(
                    crate::kv::kv_remove(old(self).store@, cat_key_v(names@[0]@)),
                    counter_key_v(),
                    be8(old(self).relation_store_id),
                ),
                crate::relation::range_lower(h.id),
                crate::relation::range_lower((h.id + 1) as u64),
            ))),
            op matches SysOp::RenameRelation(pairs) ==> ((pairs@.len() == 1 && r is Ok) ==> (
            catalog_entry(old(self).store@, pairs@[0].0@) matches Some(ho) && catalog_entry(
                final(self).store@,
                pairs@[0].1@,
            ) == Some((crate::relation::HandleV { name: pairs@[0].1@, ..ho })) && (pairs@[0].0@
                != pairs@[0].1@ ==> kv_lookup(
                final(self).store@,
                cat_key_v(pairs@[0].0@),
            ) is None))),
            op matches SysOp::SetAccessLevel(names, level) ==> ((names@.len() == 1 && r is Ok)
                ==> (catalog_entry(old(self).store@, names@[0]@) matches Some(ho)
                && catalog_entry(final(self).store@, names@[0]@) == Some(
                (crate::relation::HandleV { name: names@[0]@, access_level: level, ..ho }),
            ))),
            op matches SysOp::ShowTrigger(name) ==> *final(self) == *old(self) && (r matches Ok(
                res,
            ) ==> (catalog_entry(old(self).store@, name@) matches Some(h) && (res.headers
                matches Some(ths) && ths@.len() == 3 && ths@[0]@ == "type".spec_bytes()
                && ths@[1]@ == "idx".spec_bytes() && ths@[2]@ == "trigger".spec_bytes())
                && res.rows@.len() == h.put_triggers.len() + h.rm_triggers.len()
                + h.replace_triggers.len() && (
            forall|m: int|
                0 <= m < h.put_triggers.len() ==> (#[trigger] res.rows@[m])@ == seq![
                    Val::Str("put".spec_bytes()),
                    Val::Int(m as i64),
                    Val::Str(h.put_triggers[m]),
                ]) && (forall|m: int|
                0 <= m < h.rm_triggers.len() ==> (#[trigger] res.rows@[h.put_triggers.len() + m])@
                    == seq![
                    Val::Str("rm".spec_bytes()),
                    Val::Int(m as i64),
                    Val::Str(h.rm_triggers[m]),
                ]) && (forall|m: int|
                0 <= m < h.replace_triggers.len() ==> (#[trigger] res.rows@[h.put_triggers.len()
                    + h.rm_triggers.len() + m])@ == seq![
                    Val::Str("replace".spec_bytes()),
                    Val::Int(m as i64),
                    Val::Str(h.replace_triggers[m]),
                ]))),
    {
        match op {
            SysOp::Explain(prog) => {
                let compiled = compile_program(&prog);
                let rows = explain_program(&compiled);
                Ok(
                    QueryResult {
                        headers: Some(explain_headers()),
                        rows,
                        ok: false,
                    },
                )
            },
            SysOp::Compact => {
                self.compact_relation();
                Ok(status_result("OK"))
            },
            SysOp::ListRelations => self.list_relations(),
            SysOp::ListRelation(name) => self.list_relation(&name),
            SysOp::RemoveRelation(names) => {
                let mut bounds: Vec<(Vec<u8>, Vec<u8>)> = Vec::new();
                let mut tx = self.transact_write();
                let mut i: usize = 0;
                while i < names.len()
                    invariant
                        0 <= i <= names@.len(),
                        op == SysOp::RemoveRelation(names),
                        tx.wf(),
                        tx.write,
                        tx.relation_store_id == old(self).relation_store_id,
                        self.wf(),
                        self.store@ == old(self).store@,
                        self.relation_store_id == old(self).relation_store_id,
                        i == 0 ==> tx.store@ == old(self).store@,
                        names@.len() == 1 ==> bounds@.len() == i,
                        (names@.len() == 1 && i == 1) ==> (catalog_entry(
                            old(self).store@,
                            names@[0]@,
                        ) matches Some(h) && h.id < u64::MAX && tx.store@
                            == crate::kv::kv_remove(old(self).store@, cat_key_v(names@[0]@))
                            && bounds@[0].0@ == crate::relation::range_lower(h.id)
                            && bounds@[0].1@ == crate::relation::range_lower((h.id + 1) as u64)),
                    decreases names@.len() - i,
                {
                    match tx.destroy_relation(&names[i]) {
                        Ok(b) => {
                            bounds.push(b);
                        },
                        Err(e) => {
                            return Err(e);
                        },
                    }
                    i = i + 1;
                }
                let ghost txstore = tx.store@;
                self.commit_tx(tx);
                let ghost committed = self.store@;
                let n = bounds.len();
                let mut c: usize = 0;
                while c < n
                    invariant
                        0 <= c <= n,
                        op == SysOp::RemoveRelation(names),
                        bounds@.len() == n,
                        self.wf(),
                        self.relation_store_id == old(self).relation_store_id,
                        names@.len() == 1 ==> n == 1,
                        (names@.len() == 1 && c == 0) ==> self.store@ == committed,
                        (names@.len() == 1 && c == 1) ==> self.store@ == crate::kv::reject_range(
                            committed,
                            bounds@[0].0@,
                            bounds@[0].1@,
                        ),
                        names@.len() == 1 ==> (committed == kv_insert(
                            crate::kv::kv_remove(old(self).store@, cat_key_v(names@[0]@)),
                            counter_key_v(),
                            be8(old(self).relation_store_id),
                        ) && (catalog_entry(old(self).store@, names@[0]@) matches Some(h)
                            && h.id < u64::MAX && bounds@[0].0@ == crate::relation::range_lower(
                            h.id,
                        ) && bounds@[0].1@ == crate::relation::range_lower((h.id + 1) as u64))),
                    decreases n - c,
                {
                    self.store.del_range(&bounds[c].0, &bounds[c].1);
                    c = c + 1;
                }
                proof {
                    if names@.len() == 1 {
                        let nm = names@[0]@;
                        let h = catalog_entry(old(self).store@, nm).unwrap();
                        if h.id >= 1 {
                            crate::session::lemma_cat_key_below_user_range(nm, (h.id + 1) as u64);
                            crate::session::lemma_cat_key_below_user_range(nm, h.id);
                        }
                        crate::kv::lemma_reject_range_sorted(
                            committed,
                            crate::relation::range_lower(h.id),
                            crate::relation::range_lower((h.id + 1) as u64),
                        );
                        if h.id >= 1 {
                            crate::kv::lemma_reject_range(
                                committed,
                                crate::relation::range_lower(h.id),
                                crate::relation::range_lower((h.id + 1) as u64),
                                cat_key_v(nm),
                            );
                            crate::session::lemma_counter_key_distinct(nm, 1, Seq::empty());
                            crate::kv::lemma_lookup_insert_other(
                                crate::kv::kv_remove(old(self).store@, cat_key_v(nm)),
                                counter_key_v(),
                                be8(old(self).relation_store_id),
                                cat_key_v(nm),
                            );
                            crate::kv::lemma_lookup_remove(
                                old(self).store@,
                                cat_key_v(nm),
                                cat_key_v(nm),
                            );
                        }
                    }
                }
                Ok(status_result("OK"))
            },
            SysOp::RenameRelation(pairs) => {
                let mut tx = self.transact_write();
                let mut i: usize = 0;
                while i < pairs.len()
                    invariant
                        0 <= i <= pairs@.len(),
                        op == SysOp::RenameRelation(pairs),
                        tx.wf(),
                        tx.write,
                        tx.relation_store_id == old(self).relation_store_id,
                        self.wf(),
                        self.store@ == old(self).store@,
                        self.relation_store_id == old(self).relation_store_id,
                        i == 0 ==> tx.store@ == old(self).store@,
                        (pairs@.len() == 1 && i == 1) ==> (catalog_entry(
                            old(self).store@,
                            pairs@[0].0@,
                        ) matches Some(ho) && catalog_entry(tx.store@, pairs@[0].1@) == Some(
                            (crate::relation::HandleV { name: pairs@[0].1@, ..ho }),
                        ) && kv_lookup(tx.store@, cat_key_v(pairs@[0].0@)) is None),
                    decreases pairs@.len() - i,
                {
                    match tx.rename_relation(&pairs[i].0, &pairs[i].1) {
                        Ok(_) => {},
                        Err(e) => {
                            return Err(e);
                        },
                    }
                    i = i + 1;
                }
                let ghost txstore = tx.store@;
                let ghost txctr = tx.relation_store_id;
                self.commit_tx(tx);
                proof {
                    if pairs@.len() == 1 {
                        lemma_commit_preserves_catalog(txstore, txctr, pairs@[0].1@);
                        crate::session::lemma_counter_key_distinct(pairs@[0].0@, 1, Seq::empty());
                        crate::kv::lemma_lookup_insert_other(
                            txstore,
                            counter_key_v(),
                            be8(txctr),
                            cat_key_v(pairs@[0].0@),
                        );
                    }
                }
                Ok(status_result("OK"))
            },
            SysOp::ListRunning => self.list_running(),
            SysOp::KillRunning(id) => {
                let found = self.running.kill(id);
                if found {
                    Ok(status_result("KILLING"))
                } else {
                    Ok(status_result("NOT_FOUND"))
                }
            },
            SysOp::ShowTrigger(name) => {
                let tx = self.transact();
                let h = match tx.get_relation(&name) {
                    Ok(h) => h,
                    Err(e) => {
                        return Err(e);
                    },
                };
                let mut rows: Vec<Tuple> = Vec::new();
                push_trigger_rows(&mut rows, "put", &h.put_triggers);
                let ghost r1 = rows@;
                push_trigger_rows(&mut rows, "rm", &h.rm_triggers);
                let ghost r2 = rows@;
                push_trigger_rows(&mut rows, "replace", &h.replace_triggers);
                proof {
                    let hv = h@;
                    assert(hv.put_triggers.len() == h.put_triggers@.len());
                    assert(hv.rm_triggers.len() == h.rm_triggers@.len());
                    assert(hv.replace_triggers.len() == h.replace_triggers@.len());
                    assert forall|m: int|
                        0 <= m < hv.put_triggers.len() implies (#[trigger] rows@[m])@ == seq![
                        Val::Str("put".spec_bytes()),
                        Val::Int(m as i64),
                        Val::Str(hv.put_triggers[m]),
                    ] by {
                        assert(r1[0 + m]@ == seq![
                            Val::Str("put".spec_bytes()),
                            Val::Int(m as i64),
                            Val::Str(h.put_triggers@[m]@),
                        ]);
                        assert(crate::relation::scripts_view(h.put_triggers@)[m]
                            == h.put_triggers@[m]@);
                        assert(r2[m] == r1[m]);
                        assert(rows@[m] == r2[m]);
                    }
                    assert forall|m: int|
                        0 <= m < hv.rm_triggers.len() implies (#[trigger] rows@[hv.put_triggers.len()
                        + m])@ == seq![
                        Val::Str("rm".spec_bytes()),
                        Val::Int(m as i64),
                        Val::Str(hv.rm_triggers[m]),
                    ] by {
                        assert(r2[r1.len() + m]@ == seq![
                            Val::Str("rm".spec_bytes()),
                            Val::Int(m as i64),
                            Val::Str(h.rm_triggers@[m]@),
                        ]);
                        assert(crate::relation::scripts_view(h.rm_triggers@)[m]
                            == h.rm_triggers@[m]@);
                        assert(rows@[r1.len() + m] == r2[r1.len() + m]);
                    }
                    assert forall|m: int|
                        0 <= m < hv.replace_triggers.len() implies (#[trigger] rows@[
                        hv.put_triggers.len() + hv.rm_triggers.len() + m])@ == seq![
                        Val::Str("replace".spec_bytes()),
                        Val::Int(m as i64),
                        Val::Str(hv.replace_triggers[m]),
                    ] by {
                        assert(rows@[r2.len() + m]@ == seq![
                            Val::Str("replace".spec_bytes()),
                            Val::Int(m as i64),
                            Val::Str(h.replace_triggers@[m]@),
                        ]);
                        assert(crate::relation::scripts_view(h.replace_triggers@)[m]
                            == h.replace_triggers@[m]@);
                    }
                }
                let mut headers: Vec<Vec<u8>> = Vec::new();
                headers.push("type".as_bytes_vec());
                headers.push("idx".as_bytes_vec());
                headers.push("trigger".as_bytes_vec());
                Ok(QueryResult { headers: Some(headers), rows, ok: false })
            },
            SysOp::SetTriggers(name, puts, rms, replaces) => {
                let mut tx = self.transact_write();
                match tx.set_relation_triggers(&name, puts, rms, replaces) {
                    Ok(_) => {},
                    Err(e) => {
                        return Err(e);
                    },
                }
                let ghost committed = tx.store@;
                let ghost counter = tx.relation_store_id;
                self.commit_tx(tx);
                proof {
                    lemma_commit_preserves_catalog(committed, counter, name@);
                }
                Ok(status_result("OK"))
            },
            SysOp::SetAccessLevel(names, level) => {
                let mut tx = self.transact_write();
                let mut i: usize = 0;
                while i < names.len()
                    invariant
                        0 <= i <= names@.len(),
                        op == SysOp::SetAccessLevel(names, level),
                        tx.wf(),
                        tx.write,
                        tx.relation_store_id == old(self).relation_store_id,
                        self.wf(),
                        self.store@ == old(self).store@,
                        self.relation_store_id == old(self).relation_store_id,
                        i == 0 ==> tx.store@ == old(self).store@,
                        (names@.len() == 1 && i == 1) ==> (catalog_entry(
                            old(self).store@,
                            names@[0]@,
                        ) matches Some(ho) && catalog_entry(tx.store@, names@[0]@) == Some(
                            (crate::relation::HandleV {
                                name: names@[0]@,
                                access_level: level,
                                ..ho
                            }),
                        )),
                    decreases names@.len() - i,
                {
                    match tx.set_access_level(&names[i], level) {
                        Ok(_) => {},
                        Err(e) => {
                            return Err(e);
                        },
                    }
                    i = i + 1;
                }
                let ghost txstore = tx.store@;
                let ghost txctr = tx.relation_store_id;
                self.commit_tx(tx);
                proof {
                    if names@.len() == 1 {
                        lemma_commit_preserves_catalog(txstore, txctr, names@[0]@);
                    }
                }
                Ok(status_result("OK"))
            },
        }
    }

    /// The running queries, as `[id, started_at]` rows in id order.
    pub fn list_running(&self) -> (r: Result<QueryResult, Error>)
        ensures
            r matches Ok(res) && res.rows@.len() == self.running.entries@.len() && (forall|j: int|
                0 <= j < res.rows@.len() ==> (#[trigger] res.rows@[j])@ == seq![
                    Val::Int(self.running.entries@[j].0 as i64),
                    Val::Int(self.running.entries@[j].1.started_at_micros as i64),
                ]) && (res.headers matches Some(hs) && hs@.len() == 2 && hs@[0]@
                == "id".spec_bytes() && hs@[1]@ == "started_at".spec_bytes()),
    {
        let listed = self.running.list();
        let mut rows: Vec<Tuple> = Vec::new();
        let mut i: usize = 0;
        while i < listed.len()
            invariant
                0 <= i <= listed@.len(),
                listed@.len() == self.running.entries@.len(),
                forall|j: int|
                    0 <= j < listed@.len() ==> #[trigger] listed@[j] == (
                        self.running.entries@[j].0,
                        self.running.entries@[j].1.started_at_micros,
                    ),
                rows@.len() == i,
                forall|j: int|
                    0 <= j < i ==> (#[trigger] rows@[j])@ == seq![
                        Val::Int(self.running.entries@[j].0 as i64),
                        Val::Int(self.running.entries@[j].1.started_at_micros as i64),
                    ],
            decreases listed@.len() - i,
        {
            let t = Tuple(
                vec![
                    DataValue::Int(listed[i].0 as i64),
                    DataValue::Int(listed[i].1 as i64),
                ],
            );
            proof {
                assert(t@ =~= seq![
                    Val::Int(self.running.entries@[i as int].0 as i64),
                    Val::Int(self.running.entries@[i as int].1.started_at_micros as i64),
                ]);
            }
            rows.push(t);
            i = i + 1;
        }
        let mut headers: Vec<Vec<u8>> = Vec::new();
        headers.push("id".as_bytes_vec());
        headers.push("started_at".as_bytes_vec());
        Ok(QueryResult { headers: Some(headers), rows, ok: false })
    }

    /// The columns of one relation: `[column, is_key, index, type,
    /// has_default]`, key columns first, the index increasing across both.
    pub fn list_relation(&self, name: &Vec<u8>) -> (r: Result<QueryResult, Error>)
        ensures
            match r {
                Ok(res) => (catalog_entry(self.store@, name@) matches Some(h) && res.rows@.len()
                    == h.keys.len() + h.non_keys.len() && (forall|j: int|
                    0 <= j < res.rows@.len() ==> (#[trigger] res.rows@[j])@ == column_row(h, j))
                    && (res.headers matches Some(chs) && chs@.len() == 5 && chs@[0]@
                    == "column".spec_bytes() && chs@[1]@ == "is_key".spec_bytes() && chs@[2]@
                    == "index".spec_bytes() && chs@[3]@ == "type".spec_bytes() && chs@[4]@
                    == "has_default".spec_bytes())),
                Err(_) => catalog_entry(self.store@, name@) is None,
            },
    {
        let tx = self.transact();
        let h = match tx.get_relation(name) {
            Ok(h) => h,
            Err(e) => {
                return Err(e);
            },
        };
        let ghost hv = h@;
        let mut rows: Vec<Tuple> = Vec::new();
        let mut i: usize = 0;
        while i < h.keys.len()
            invariant
                0 <= i <= h.keys@.len(),
                hv == h@,
                hv.keys.len() < crate::relation::MAX_HANDLE_PART,
                hv.non_keys.len() < crate::relation::MAX_HANDLE_PART,
                rows@.len() == i,
                forall|m: int| 0 <= m < i ==> (#[trigger] rows@[m])@ == column_row(hv, m),
            decreases h.keys@.len() - i,
        {
            let c = &h.keys[i];
            let t = Tuple(
                vec![
                    DataValue::Str(clone_bytes(&c.name)),
                    DataValue::Bool(true),
                    DataValue::Int(i as i64),
                    DataValue::Str(col_type_label(c.typing)),
                    DataValue::Bool(c.default_gen.is_some()),
                ],
            );
            proof {
                assert(hv.keys[i as int] == h.keys@[i as int]@);
                assert(t@ =~= column_row(hv, i as int));
            }
            rows.push(t);
            i = i + 1;
        }
        let nk = h.keys.len();
        let mut j: usize = 0;
        while j < h.non_keys.len()
            invariant
                0 <= j <= h.non_keys@.len(),
                hv == h@,
                hv.keys.len() < crate::relation::MAX_HANDLE_PART,
                hv.non_keys.len() < crate::relation::MAX_HANDLE_PART,
                nk == h.keys@.len(),
                rows@.len() == nk + j,
                forall|m: int| 0 <= m < nk + j ==> (#[trigger] rows@[m])@ == column_row(hv, m),
            decreases h.non_keys@.len() - j,
        {
            let c = &h.non_keys[j];
            proof {
                crate::codec::lemma_pow256_8();
            }
            let idx = if j <= usize::MAX - nk {
                nk + j
            } else {
                usize::MAX
            };
            let t = Tuple(
                vec![
                    DataValue::Str(clone_bytes(&c.name)),
                    DataValue::Bool(false),
                    DataValue::Int(idx as i64),
                    DataValue::Str(col_type_label(c.typing)),
                    DataValue::Bool(c.default_gen.is_some()),
                ],
            );
            proof {
                assert(hv.non_keys[j as int] == h.non_keys@[j as int]@);
                assert(t@ =~= column_row(hv, nk + j));
            }
            rows.push(t);
            j = j + 1;
        }
        let mut headers: Vec<Vec<u8>> = Vec::new();
        headers.push("column".as_bytes_vec());
        headers.push("is_key".as_bytes_vec());
        headers.push("index".as_bytes_vec());
        headers.push("type".as_bytes_vec());
        headers.push("has_default".as_bytes_vec());
        proof {
            assert(h@.keys.len() == h.keys@.len());
            assert(h@.non_keys.len() == h.non_keys@.len());
        }
        Ok(QueryResult { headers: Some(headers), rows, ok: false })
    }

    /// Lists the catalog: one row per stored relation, scanned from the
    /// system range between the all-strings bounds; the loop stops at the
    /// window's end whatever the backing scan hands out. Each row is the
    /// projection of the handle stored in that catalog entry.
    pub fn list_relations(&self) -> (r: Result<QueryResult, Error>)
        ensures
            r matches Ok(res) ==> res.rows@.len() == select_range(
                self.store@,
                cat_window_lower(),
                cat_window_upper(),
            ).len() && (forall|j: int|
                0 <= j < res.rows@.len() ==> (crate::codec::dec_row(
                    #[trigger] select_range(
                        self.store@,
                        cat_window_lower(),
                        cat_window_upper(),
                    )[j].1,
                ) matches Some(vs) && crate::relation::parse_handle(vs) matches Some(h)
                    && res.rows@[j]@ == listing_row(h))) && (res.headers matches Some(lhs)
                && lhs@.len() == 8 && lhs@[0]@ == "name".spec_bytes() && lhs@[1]@
                == "arity".spec_bytes() && lhs@[2]@ == "access_level".spec_bytes() && lhs@[3]@
                == "n_keys".spec_bytes() && lhs@[4]@ == "n_non_keys".spec_bytes() && lhs@[5]@
                == "n_put_triggers".spec_bytes() && lhs@[6]@ == "n_rm_triggers".spec_bytes()
                && lhs@[7]@ == "n_replace_triggers".spec_bytes()),
            (forall|j: int|
                0 <= j < select_range(
                    self.store@,
                    cat_window_lower(),
                    cat_window_upper(),
                ).len() ==> cat_entry_parses(
                    #[trigger] select_range(
                        self.store@,
                        cat_window_lower(),
                        cat_window_upper(),
                    )[j],
                )) ==> r is Ok,
            r matches Err(e) ==> e is DbInit && (exists|j: int|
                0 <= j < select_range(self.store@, cat_window_lower(), cat_window_upper()).len()
                    && !cat_entry_parses(
                    #[trigger] select_range(
                        self.store@,
                        cat_window_lower(),
                        cat_window_upper(),
                    )[j],
                )),
    {
        let mut lo = be8_exec(0);
        lo.push(crate::codec::TAG_STR);
        let mut hi = be8_exec(0);
        hi.push(crate::codec::TAG_STR + 1);
        let window = self.store.range_scan(&lo, &hi);
        let ghost win = pairs_view(window@);
        proof {
            assert(lo@ =~= cat_window_lower());
            assert(hi@ =~= cat_window_upper());
        }
        let mut rows: Vec<Tuple> = Vec::new();
        let mut i: usize = 0;
        while i < window.len()
            invariant
                0 <= i <= window@.len(),
                win == pairs_view(window@),
                win.len() == window@.len(),
                win == select_range(self.store@, cat_window_lower(), cat_window_upper()),
                rows@.len() == i,
                forall|j: int|
                    0 <= j < i ==> (crate::codec::dec_row(#[trigger] win[j].1) matches Some(vs)
                        && crate::relation::parse_handle(vs) matches Some(h) && rows@[j]@
                        == listing_row(h)),
            decreases window@.len() - i,
        {
            proof {
                assert(win[i as int] == (window@[i as int].0@, window@[i as int].1@));
            }
            let h = match decode_handle(&window[i].1) {
                Some(h) => h,
                None => {
                    proof {
                        assert(!cat_entry_parses(win[i as int]));
                    }
                    return Err(Error::DbInit);
                },
            };
            proof {
                crate::codec::lemma_pow256_8();
            }
            let arity = if h.keys.len() <= usize::MAX - h.non_keys.len() {
                h.keys.len() + h.non_keys.len()
            } else {
                usize::MAX
            };
            let t = Tuple(
                vec![
                    DataValue::Str(clone_bytes(&h.name)),
                    DataValue::Int(arity as i64),
                    DataValue::Str(access_name(h.access_level)),
                    DataValue::Int(h.keys.len() as i64),
                    DataValue::Int(h.non_keys.len() as i64),
                    DataValue::Int(h.put_triggers.len() as i64),
                    DataValue::Int(h.rm_triggers.len() as i64),
                    DataValue::Int(h.replace_triggers.len() as i64),
                ],
            );
            proof {
                assert(t@ =~= listing_row(h@));
            }
            rows.push(t);
            i = i + 1;
        }
        let mut headers: Vec<Vec<u8>> = Vec::new();
        headers.push("name".as_bytes_vec());
        headers.push("arity".as_bytes_vec());
        headers.push("access_level".as_bytes_vec());
        headers.push("n_keys".as_bytes_vec());
        headers.push("n_non_keys".as_bytes_vec());
        headers.push("n_put_triggers".as_bytes_vec());
        headers.push("n_rm_triggers".as_bytes_vec());
        headers.push("n_replace_triggers".as_bytes_vec());
        Ok(QueryResult { headers: Some(headers), rows, ok: false })
    }
}

/// One column-listing row: the column at overall position `j` of a handle,
/// keys first, with its position, type name and whether it has a default.
pub open spec fn column_row(h: crate::relation::HandleV, j: int) -> Seq<Val> {
    let c = if j < h.keys.len() {
        h.keys[j]
    } else {
        h.non_keys[j - h.keys.len()]
    };
    seq![
        Val::Str(c.name),
        Val::Bool(j < h.keys.len()),
        Val::Int(j as i64),
        Val::Str(col_type_label_spec(c.typing)),
        Val::Bool(c.default_gen is Some),
    ]
}

/// One catalog listing row: name, arity, access level, column counts and
/// trigger counts of a stored relation.
pub open spec fn listing_row(h: crate::relation::HandleV) -> Seq<Val> {
    seq![
        Val::Str(h.name),
        Val::Int((h.keys.len() + h.non_keys.len()) as i64),
        Val::Str(access_name_spec(h.access_level)),
        Val::Int(h.keys.len() as i64),
        Val::Int(h.non_keys.len() as i64),
        Val::Int(h.put_triggers.len() as i64),
        Val::Int(h.rm_triggers.len() as i64),
        Val::Int(h.replace_triggers.len() as i64),
    ]
}

/// Whether one catalog entry's value decodes and parses as a handle.
pub open spec fn cat_entry_parses(p: (Seq<u8>, Seq<u8>)) -> bool {
    crate::codec::dec_row(p.1) matches Some(vs) && crate::relation::parse_handle(vs) is Some
}

/// The catalog window: every key of the system relation whose key tuple
/// starts with a string.
pub open spec fn cat_window_lower() -> Seq<u8> {
    be8(0).push(crate::codec::TAG_STR)
}

pub open spec fn cat_window_upper() -> Seq<u8> {
    be8(0).push((crate::codec::TAG_STR + 1) as u8)
}

/// Whether a result is the one-row, one-column `[status]` table carrying
/// the given word.
pub open spec fn status_shape(res: QueryResult, word: Seq<u8>) -> bool {
    &&& res.rows@.len() == 1
    &&& res.rows@[0]@ == seq![Val::Str(word)]
    &&& (res.headers matches Some(hs) && hs@.len() == 1 && hs@[0]@ == "status".spec_bytes())
}

/// A one-row, one-column answer carrying a status word.
fn status_result(s: &str) -> (r: QueryResult)
    ensures
        status_shape(r, s.spec_bytes()),
        r.rows@.len() == 1,
        r.rows@[0]@.len() == 1,
        r.rows@[0]@[0] == Val::Str(s.spec_bytes()),
        !r.ok,
{
    let mut headers: Vec<Vec<u8>> = Vec::new();
    headers.push("status".as_bytes_vec());
    let t = Tuple(vec![DataValue::Str(s.as_bytes_vec())]);
    proof {
        assert(t@ =~= seq![Val::Str(s.spec_bytes())]);
        assert(headers@.len() == 1);
    }
    QueryResult { headers: Some(headers), rows: vec![t], ok: false }
}

/// The display name of a column type.
fn col_type_label(t: ColType) -> (r: Vec<u8>)
    ensures
        r@ == col_type_label_spec(t),
{
    match t {
        ColType::Any => "any".as_bytes_vec(),
        ColType::Bool => "bool".as_bytes_vec(),
        ColType::Int => "int".as_bytes_vec(),
        ColType::Str => "string".as_bytes_vec(),
        ColType::Bytes => "bytes".as_bytes_vec(),
    }
}

pub open spec fn col_type_label_spec(t: ColType) -> Seq<u8> {
    match t {
        ColType::Any => "any".spec_bytes(),
        ColType::Bool => "bool".spec_bytes(),
        ColType::Int => "int".spec_bytes(),
        ColType::Str => "string".spec_bytes(),
        ColType::Bytes => "bytes".spec_bytes(),
    }
}

/// The display name of an access level.
fn access_name(a: AccessLevel) -> (r: Vec<u8>)
    ensures
        r@ == access_name_spec(a),
{
    match a {
        AccessLevel::Normal => "normal".as_bytes_vec(),
        AccessLevel::Protected => "protected".as_bytes_vec(),
        AccessLevel::ReadOnly => "read_only".as_bytes_vec(),
        AccessLevel::Hidden => "hidden".as_bytes_vec(),
    }
}

pub open spec fn access_name_spec(a: AccessLevel) -> Seq<u8> {
    match a {
        AccessLevel::Normal => "normal".spec_bytes(),
        AccessLevel::Protected => "protected".spec_bytes(),
        AccessLevel::ReadOnly => "read_only".spec_bytes(),
        AccessLevel::Hidden => "hidden".spec_bytes(),
    }
}

/// One `[kind, idx, script]` row per trigger, appended in list order.
fn push_trigger_rows(rows: &mut Vec<Tuple>, kind: &str, scripts: &Vec<Vec<u8>>)
    ensures
        final(rows)@.len() == old(rows)@.len() + scripts@.len(),
        forall|m: int|
            0 <= m < old(rows)@.len() ==> #[trigger] final(rows)@[m] == old(rows)@[m],
        forall|m: int|
            0 <= m < scripts@.len() ==> (#[trigger] final(rows)@[old(rows)@.len() + m])@ == seq![
                Val::Str(kind.spec_bytes()),
                Val::Int(m as i64),
                Val::Str(scripts@[m]@),
            ],
{
    let mut i: usize = 0;
    while i < scripts.len()
        invariant
            0 <= i <= scripts@.len(),
            rows@.len() == old(rows)@.len() + i,
            forall|m: int| 0 <= m < old(rows)@.len() ==> #[trigger] rows@[m] == old(rows)@[m],
            forall|m: int|
                0 <= m < i ==> (#[trigger] rows@[old(rows)@.len() + m])@ == seq![
                    Val::Str(kind.spec_bytes()),
                    Val::Int(m as i64),
                    Val::Str(scripts@[m]@),
                ],
        decreases scripts@.len() - i,
    {
        let t = Tuple(
            vec![
                DataValue::Str(kind.as_bytes_vec()),
                DataValue::Int(i as i64),
                DataValue::Str(clone_bytes(&scripts[i])),
            ],
        );
        proof {
            assert(t@ =~= seq![
                Val::Str(kind.spec_bytes()),
                Val::Int(i as i64),
                Val::Str(scripts@[i as int]@),
            ]);
        }
        rows.push(t);
        i = i + 1;
    }
}

/// The nine headers of a plan description, by name and in order.
pub open spec fn explain_headers_spec() -> Seq<Seq<u8>> {
    seq![
        "stratum".spec_bytes(),
        "rule_idx".spec_bytes(),
        "rule".spec_bytes(),
        "atom_idx".spec_bytes(),
        "op".spec_bytes(),
        "ref".spec_bytes(),
        "joins_on".spec_bytes(),
        "filters/expr".spec_bytes(),
        "out_relation".spec_bytes(),
    ]
}

/// The nine headers of a plan description.
fn explain_headers() -> (r: Vec<Vec<u8>>)
    ensures
        r@.len() == 9,
        forall|j: int| 0 <= j < 9 ==> (#[trigger] r@[j])@ == explain_headers_spec()[j],
{
    let mut headers: Vec<Vec<u8>> = Vec::new();
    headers.push("stratum".as_bytes_vec());
    headers.push("rule_idx".as_bytes_vec());
    headers.push("rule".as_bytes_vec());
    headers.push("atom_idx".as_bytes_vec());
    headers.push("op".as_bytes_vec());
    headers.push("ref".as_bytes_vec());
    headers.push("joins_on".as_bytes_vec());
    headers.push("filters/expr".as_bytes_vec());
    headers.push("out_relation".as_bytes_vec());
    proof {
        assert forall|j: int| 0 <= j < 9 implies (#[trigger] headers@[j])@
            == explain_headers_spec()[j] by {
            assert(explain_headers_spec()[j] == explain_headers_spec()[j]);
        }
    }
    headers
}

/// The entry head rendered as one byte string: the statement's output
/// bindings, space-separated.
fn head_bindings(p: &InputProgram) -> (r: Vec<u8>)
{
    let mut out: Vec<u8> = Vec::new();
    let mut i: usize = 0;
    while i < p.entry_head.len()
        decreases p.entry_head@.len() - i,
    {
        if i > 0 {
            out.push(32u8);
        }
        crate::codec::push_bytes(&mut out, p.entry_head[i].as_slice());
        i = i + 1;
    }
    out
}

/// Lowers a statement's plan to one compiled stratum for the explainer: a
/// single entry rule over the plan's relational algebra.
fn compile_program(p: &InputProgram) -> (r: Vec<CompiledProgram>)
    ensures
        r@.len() == 1,
{
    let ra = match &p.query {
        QuerySpec::ConstRows(_) => RelAlgebra::Fixed { unit: false, bindings: head_bindings(p) },
        QuerySpec::Generate(_) => RelAlgebra::Fixed { unit: false, bindings: head_bindings(p) },
        QuerySpec::ScanStored(name) => RelAlgebra::Stored {
            name: clone_bytes(name),
            filters: Vec::new(),
            bindings: head_bindings(p),
        },
    };
    let rule = CompiledRule { aggr: crate::explain::AggrKind::Plain, relation: ra };
    let mut rules: Vec<CompiledRule> = Vec::new();
    rules.push(rule);
    let mut sets: Vec<(Vec<u8>, CompiledRuleSet)> = Vec::new();
    sets.push(("?".as_bytes_vec(), CompiledRuleSet::Rules(rules)));
    let mut out: Vec<CompiledProgram> = Vec::new();
    out.push(CompiledProgram { sets });
    out
}

/// Describes every rule of every stratum: for each rule its linearized
/// tree, children before parents, the rule index running across the rule
/// sets of a stratum; an algorithmic rule set answers one row.
pub fn explain_program(strata: &Vec<CompiledProgram>) -> (rows: Vec<Tuple>)
    ensures
        tuples_view(rows@) == crate::explain::strata_rows(0, strata@),
{
    let ghost total = crate::explain::strata_rows(0, strata@);
    let mut rows: Vec<Tuple> = Vec::new();
    let mut s: usize = 0;
    proof {
        assert(strata@.skip(0) =~= strata@);
        assert(tuples_view(rows@) =~= Seq::<Seq<Val>>::empty());
        assert(Seq::<Seq<Val>>::empty() + crate::explain::strata_rows(0, strata@) =~= total);
    }
    while s < strata.len()
        invariant
            0 <= s <= strata@.len(),
            total == crate::explain::strata_rows(0, strata@),
            total == tuples_view(rows@) + crate::explain::strata_rows(
                s as int,
                strata@.skip(s as int),
            ),
        decreases strata@.len() - s,
    {
        proof {
            assert(strata@.skip(s as int)[0] == strata@[s as int]);
            assert(strata@.skip(s as int).drop_first() =~= strata@.skip(s + 1));
        }
        let prog = &strata[s];
        let ghost after_stratum = crate::explain::strata_rows(s + 1, strata@.skip(s + 1));
        let mut clause_idx: usize = 0;
        let mut k: usize = 0;
        proof {
            assert(prog.sets@.skip(0) =~= prog.sets@);
        }
        while k < prog.sets.len()
            invariant
                0 <= k <= prog.sets@.len(),
                0 <= s < strata@.len(),
                prog == &strata@[s as int],
                after_stratum == crate::explain::strata_rows(s + 1, strata@.skip(s + 1)),
                total == crate::explain::strata_rows(0, strata@),
                total == tuples_view(rows@) + crate::explain::sets_rows(
                    s as int,
                    clause_idx as int,
                    prog.sets@.skip(k as int),
                ) + after_stratum,
            decreases prog.sets@.len() - k,
        {
            proof {
                assert(prog.sets@.skip(k as int)[0] == prog.sets@[k as int]);
                assert(prog.sets@.skip(k as int).drop_first() =~= prog.sets@.skip(k + 1));
            }
            let name = &prog.sets[k].0;
            match &prog.sets[k].1 {
                CompiledRuleSet::Rules(rules) => {
                    let mut ri: usize = 0;
                    proof {
                        assert(rules@.skip(0) =~= rules@);
                    }
                    while ri < rules.len()
                        invariant
                            0 <= ri <= rules@.len(),
                            0 <= s < strata@.len(),
                            0 <= k < prog.sets@.len(),
                            prog == &strata@[s as int],
                            prog.sets@[k as int].1 == CompiledRuleSet::Rules(*rules),
                            name == &prog.sets@[k as int].0,
                            after_stratum == crate::explain::strata_rows(
                                s + 1,
                                strata@.skip(s + 1),
                            ),
                            total == crate::explain::strata_rows(0, strata@),
                            total == tuples_view(rows@) + crate::explain::rules_rows(
                                s as int,
                                clause_idx as int,
                                name@,
                                rules@.skip(ri as int),
                            ) + crate::explain::sets_rows(
                                s as int,
                                crate::explain::rules_end_idx(
                                    clause_idx as int,
                                    rules@.skip(ri as int).len(),
                                ),
                                prog.sets@.skip(k + 1),
                            ) + after_stratum,
                        decreases rules@.len() - ri,
                    {
                        proof {
                            assert(rules@.skip(ri as int)[0] == rules@[ri as int]);
                            assert(rules@.skip(ri as int).drop_first() =~= rules@.skip(ri + 1));
                        }
                        let rule_rows_v = explain_rule(s, clause_idx, name, &rules[ri]);
                        let ghost base = tuples_view(rows@);
                        let mut q: usize = 0;
                        let n4 = rule_rows_v.len();
                        let moved = rule_rows_v;
                        while q < n4
                            invariant
                                0 <= q <= n4,
                                moved@.len() == n4,
                                tuples_view(rows@) =~= base + tuples_view(moved@).take(q as int),
                            decreases n4 - q,
                        {
                            let ghost prevrows = rows@;
                            let d = moved[q].duplicate();
                            rows.push(d);
                            proof {
                                crate::query::lemma_tuples_view_push(prevrows, rows@.last());
                                assert(rows@ =~= prevrows.push(rows@.last()));
                                assert(tuples_view(moved@)[q as int] == moved@[q as int]@);
                                assert(tuples_view(rows@) =~= base + tuples_view(moved@).take(
                                    q + 1,
                                ));
                            }
                            q = q + 1;
                        }
                        proof {
                            assert(tuples_view(moved@).take(n4 as int) =~= tuples_view(moved@));
                            assert(tuples_view(rows@) =~= base + crate::explain::rule_rows(
                                s as int,
                                clause_idx as int,
                                name@,
                                rules@[ri as int],
                            ));
                            assert(total =~= tuples_view(rows@) + crate::explain::rules_rows(
                                s as int,
                                crate::explain::sat_inc(clause_idx as int),
                                name@,
                                rules@.skip(ri + 1),
                            ) + crate::explain::sets_rows(
                                s as int,
                                crate::explain::rules_end_idx(
                                    crate::explain::sat_inc(clause_idx as int),
                                    rules@.skip(ri + 1).len(),
                                ),
                                prog.sets@.skip(k + 1),
                            ) + after_stratum);
                        }
                        if clause_idx < usize::MAX {
                            clause_idx = clause_idx + 1;
                        }
                        ri = ri + 1;
                    }
                    proof {
                        assert(rules@.skip(rules@.len() as int).len() == 0);
                        assert(crate::explain::rules_rows(
                            s as int,
                            clause_idx as int,
                            name@,
                            rules@.skip(rules@.len() as int),
                        ) =~= Seq::<Seq<Val>>::empty());
                        assert(tuples_view(rows@) + Seq::<Seq<Val>>::empty()
                            + crate::explain::sets_rows(
                            s as int,
                            clause_idx as int,
                            prog.sets@.skip(k + 1),
                        ) + after_stratum =~= tuples_view(rows@) + crate::explain::sets_rows(
                            s as int,
                            clause_idx as int,
                            prog.sets@.skip(k + 1),
                        ) + after_stratum);
                    }
                },
                CompiledRuleSet::Algo => {
                    let t = Tuple(
                        vec![
                            DataValue::Int(s as i64),
                            DataValue::Int(0),
                            DataValue::Str(clone_bytes(name)),
                            DataValue::Int(0),
                            DataValue::Str("algo".as_bytes_vec()),
                            DataValue::Null,
                            DataValue::Null,
                            DataValue::Null,
                            DataValue::Null,
                        ],
                    );
                    proof {
                        assert(t@ =~= crate::explain::algo_row(s as int, name@));
                    }
                    let ghost prevrows = rows@;
                    rows.push(t);
                    proof {
                        crate::query::lemma_tuples_view_push(prevrows, rows@.last());
                        assert(rows@ =~= prevrows.push(rows@.last()));
                        assert(tuples_view(rows@) =~= tuples_view(prevrows) + seq![
                            crate::explain::algo_row(s as int, name@),
                        ]);
                        assert(total =~= tuples_view(rows@) + crate::explain::sets_rows(
                            s as int,
                            clause_idx as int,
                            prog.sets@.skip(k + 1),
                        ) + after_stratum);
                    }
                },
            }
            k = k + 1;
        }
        proof {
            assert(prog.sets@.skip(prog.sets@.len() as int).len() == 0);
            assert(crate::explain::sets_rows(
                s as int,
                clause_idx as int,
                prog.sets@.skip(prog.sets@.len() as int),
            ) =~= Seq::<Seq<Val>>::empty());
            assert(tuples_view(rows@) + Seq::<Seq<Val>>::empty() + after_stratum =~= tuples_view(
                rows@,
            ) + after_stratum);
            assert(total =~= tuples_view(rows@) + crate::explain::strata_rows(
                s + 1,
                strata@.skip(s + 1),
            ));
        }
        s = s + 1;
    }
    proof {
        assert(strata@.skip(strata@.len() as int).len() == 0);
        assert(crate::explain::strata_rows(
            strata@.len() as int,
            strata@.skip(strata@.len() as int),
        ) =~= Seq::<Seq<Val>>::empty());
        assert(tuples_view(rows@) =~= total);
    }
    rows
}

/// The statement pipeline after registration: evaluate, assert, sort,
/// paginate, and execute the store directive.
fn run_query_core(tx: &mut SessionTx, p: &InputProgram, poison: &Poison) -> (r: Result<
    (QueryResult, Vec<(Vec<u8>, Vec<u8>)>),
    Error,
>)
    requires
        old(tx).wf(),
        p.out_opts.store_relation is Some ==> old(tx).write,
        p.out_opts.store_relation matches Some(d) ==> (d.1 == RelationOp::Create ==> kv_lookup(
            old(tx).store@,
            cat_key_v(d.0.name@),
        ) is None),
        p.out_opts.store_relation matches Some(d) ==> ((d.1 == RelationOp::Put || d.1
            == RelationOp::Rm || d.1 == RelationOp::Ensure || d.1 == RelationOp::EnsureNot)
            ==> kv_lookup(old(tx).store@, cat_key_v(d.0.name@)) is Some),
    ensures
        final(tx).wf(),
        final(tx).write == old(tx).write,
        r is Err ==> *final(tx) == *old(tx),
        r matches Ok(rc) ==> (p.out_opts.store_relation is None ==> rc.1@.len() == 0
            && *final(tx) == *old(tx)),
        r matches Ok(rc) ==> (p.out_opts.store_relation matches Some(d) ==> (d.1
            != RelationOp::Replace ==> rc.1@.len() == 0)),
        r matches Err(e) ==> (e matches Error::AssertNoneFailure(t) ==> (p.out_opts.assertion
            == Some(QueryAssertion::AssertNone) && (stmt_rows(*p, old(tx).store@) matches Some(f)
            && f.len() > 0 && t@ == f[0]))),
        (r matches Err(e) && e is AssertSomeFailure) ==> (p.out_opts.assertion == Some(
            QueryAssertion::AssertSome,
        ) && stmt_rows(*p, old(tx).store@) == Some(Seq::<Seq<Val>>::empty())),
        (r is Ok && p.out_opts.assertion == Some(QueryAssertion::AssertSome)) ==> (stmt_rows(
            *p,
            old(tx).store@,
        ) matches Some(f) && f.len() > 0),
        (r is Ok && p.out_opts.assertion == Some(QueryAssertion::AssertNone)) ==> stmt_rows(
            *p,
            old(tx).store@,
        ) == Some(Seq::<Seq<Val>>::empty()),
        r matches Ok(rc) ==> (p.out_opts.store_relation is Some ==> status_shape(
            rc.0,
            "OK".spec_bytes(),
        )),
        r matches Ok(rc) ==> (p.out_opts.store_relation is None ==> (rc.0.headers matches Some(hs)
            && hs@.len() == p.entry_head@.len() && (forall|j: int|
            0 <= j < hs@.len() ==> (#[trigger] hs@[j])@ == p.entry_head@[j]@))),
        (p.out_opts.assertion == Some(QueryAssertion::AssertNone) && (stmt_rows(
            *p,
            old(tx).store@,
        ) matches Some(f) && f.len() > 0)) ==> (r matches Err(e) && (e is Killed || e is DbInit
            || (e matches Error::AssertNoneFailure(t) && t@ == stmt_rows(
            *p,
            old(tx).store@,
        ).unwrap()[0]))),
        (p.out_opts.assertion == Some(QueryAssertion::AssertSome) && stmt_rows(*p, old(tx).store@)
            == Some(Seq::<Seq<Val>>::empty())) ==> (r matches Err(e) && (e is Killed || e
            is DbInit || e is AssertSomeFailure)),
        r matches Err(e) ==> (e is BadSorter ==> sorter_unresolvable(
            p.out_opts.sorters@,
            p.entry_head@,
        )),
        r is Ok ==> single_stmt_tx(*p, old(tx).store@, old(tx).relation_store_id, *final(tx)),
        p.out_opts.store_relation matches Some(d) ==> ((r is Ok && p.out_opts.sorters@.len()
            == 0) ==> (stmt_rows(*p, old(tx).store@) matches Some(f) && (match d.1 {
            RelationOp::Put => (catalog_entry(old(tx).store@, d.0.name@) matches Some(h)
                && final(tx).store@ == crate::query::put_rows_spec(
                old(tx).store@,
                h.id,
                h.keys.len() as int,
                f,
            )),
            RelationOp::Rm => (catalog_entry(old(tx).store@, d.0.name@) matches Some(h)
                && final(tx).store@ == crate::query::rm_rows_spec(
                old(tx).store@,
                h.id,
                h.keys.len() as int,
                f,
            )),
            RelationOp::Create => (final(tx).relation_store_id == old(tx).relation_store_id + 1
                && (catalog_entry(final(tx).store@, d.0.name@) matches Some(h2) && h2.id == old(tx).relation_store_id + 1 && final(tx).store@ == crate::query::put_rows_spec(
                kv_insert(
                    old(tx).store@,
                    cat_key_v(d.0.name@),
                    crate::codec::enc_row(crate::relation::handle_vals(h2)),
                ),
                h2.id,
                d.0.keys@.len() as int,
                f,
            ))),
            RelationOp::Ensure => *final(tx) == *old(tx),
            RelationOp::EnsureNot => *final(tx) == *old(tx),
            RelationOp::Replace => true,
        }))),
        p.out_opts.store_relation matches Some(d) ==> (d.1 == RelationOp::Replace ==> (
        r matches Ok(rc) ==> (p.out_opts.sorters@.len() == 0 ==> (stmt_rows(
            *p,
            old(tx).store@,
        ) matches Some(f) && (catalog_entry(final(tx).store@, d.0.name@) matches Some(h2)
            && h2.id == old(tx).relation_store_id + 1) && (match catalog_entry(
            old(tx).store@,
            d.0.name@,
        ) {
            Some(hold) => rc.1@.len() == 1 && rc.1@[0].0@ == crate::relation::range_lower(
                hold.id,
            ) && rc.1@[0].1@ == crate::relation::range_lower((hold.id + 1) as u64) && final(tx).store@ == crate::query::put_rows_spec(
                kv_insert(
                    crate::kv::kv_remove(old(tx).store@, cat_key_v(d.0.name@)),
                    cat_key_v(d.0.name@),
                    crate::codec::enc_row(
                        crate::relation::handle_vals(
                            catalog_entry(final(tx).store@, d.0.name@).unwrap(),
                        ),
                    ),
                ),
                (old(tx).relation_store_id + 1) as u64,
                d.0.keys@.len() as int,
                f,
            ),
            None => rc.1@.len() == 0 && final(tx).store@ == crate::query::put_rows_spec(
                kv_insert(
                    old(tx).store@,
                    cat_key_v(d.0.name@),
                    crate::codec::enc_row(
                        crate::relation::handle_vals(
                            catalog_entry(final(tx).store@, d.0.name@).unwrap(),
                        ),
                    ),
                ),
                (old(tx).relation_store_id + 1) as u64,
                d.0.keys@.len() as int,
                f,
            ),
        }))))),
        r matches Ok(rc) ==> ((p.out_opts.store_relation is None && p.out_opts.sorters@.len()
            == 0) ==> (stmt_rows(*p, old(tx).store@) matches Some(f) && tuples_view(rc.0.rows@)
            == f)),
        r matches Ok(rc) ==> ((p.out_opts.store_relation is None && p.out_opts.sorters@.len() > 0)
            ==> (query_rows(p.query, old(tx).store@) matches Some(f) && (exists|
            sorted: Seq<Seq<Val>>,
        |
            #[trigger] sorted.to_multiset() == f.to_multiset() && tuples_view(rc.0.rows@)
                == paged(sorted, p.out_opts.limit, p.out_opts.offset)))),
{
    let evaluated = match eval_query(tx, &p.query, poison) {
        Ok(rows) => rows,
        Err(e) => {
            return Err(e);
        },
    };
    let no_sorters = p.out_opts.sorters.len() == 0;
    let rows1 = if no_sorters {
        page_rows(evaluated, p.out_opts.limit, p.out_opts.offset)
    } else {
        evaluated
    };
    if let Some(a) = &p.out_opts.assertion {
        match a {
            QueryAssertion::AssertNone => {
                if rows1.len() > 0 {
                    proof {
                        assert(tuples_view(rows1@)[0] == rows1@[0]@);
                    }
                    return Err(Error::AssertNoneFailure(rows1[0].duplicate()));
                }
                proof {
                    assert(tuples_view(rows1@) =~= Seq::<Seq<Val>>::empty());
                }
            },
            QueryAssertion::AssertSome => {
                if rows1.len() == 0 {
                    proof {
                        assert(tuples_view(rows1@) =~= Seq::<Seq<Val>>::empty());
                    }
                    return Err(Error::AssertSomeFailure);
                }
            },
        }
    }
    let final_rows = if no_sorters {
        rows1
    } else {
        let resolved = match resolve_sorters(&p.out_opts.sorters, &p.entry_head) {
            Ok(rs) => rs,
            Err(e) => {
                return Err(e);
            },
        };
        let sorted = sort_rows(rows1, &resolved);
        page_rows(sorted, p.out_opts.limit, p.out_opts.offset)
    };
    if let Some((m, op2)) = &p.out_opts.store_relation {
        let cl = match execute_relation(tx, &final_rows, *op2, m) {
            Ok(cl) => cl,
            Err(e) => {
                return Err(e);
            },
        };
        Ok((status_result("OK"), cl))
    } else {
        let mut headers: Vec<Vec<u8>> = Vec::new();
        let mut i: usize = 0;
        while i < p.entry_head.len()
            invariant
                0 <= i <= p.entry_head@.len(),
                headers@.len() == i,
                forall|j: int| 0 <= j < i ==> (#[trigger] headers@[j])@ == p.entry_head@[j]@,
            decreases p.entry_head@.len() - i,
        {
            headers.push(clone_bytes(&p.entry_head[i]));
            i = i + 1;
        }
        Ok((QueryResult { headers: Some(headers), rows: final_rows, ok: false }, Vec::new()))
    }
}

/// Whether some sorter names a column the head does not carry.
pub open spec fn sorter_unresolvable(sorters: Seq<(Vec<u8>, bool)>, head: Seq<Vec<u8>>) -> bool {
    exists|s2: int|
        #![trigger sorters[s2]]
        0 <= s2 < sorters.len() && (forall|j: int|
            0 <= j < head.len() ==> (#[trigger] head[j])@ != sorters[s2].0@)
}

/// Resolves sorter column names against the entry head: refused exactly
/// when some sorter names no entry-head column.
fn resolve_sorters(sorters: &Vec<(Vec<u8>, bool)>, head: &Vec<Vec<u8>>) -> (r: Result<
    Vec<(usize, bool)>,
    Error,
>)
    ensures
        r matches Ok(rs) ==> rs@.len() == sorters@.len(),
        r matches Err(e) ==> e is BadSorter && sorter_unresolvable(sorters@, head@),
        !sorter_unresolvable(sorters@, head@) ==> r is Ok,
{
    let mut out: Vec<(usize, bool)> = Vec::new();
    let mut i: usize = 0;
    while i < sorters.len()
        invariant
            0 <= i <= sorters@.len(),
            out@.len() == i,
        decreases sorters@.len() - i,
    {
        let mut found: Option<usize> = None;
        let mut j: usize = 0;
        while j < head.len()
            invariant
                0 <= j <= head@.len(),
                0 <= i < sorters@.len(),
                found is None ==> forall|q: int|
                    0 <= q < j ==> (#[trigger] head@[q])@ != sorters@[i as int].0@,
            decreases head@.len() - j,
        {
            if crate::lex::bytes_eq(&head[j], &sorters[i].0) {
                found = Some(j);
            }
            j = j + 1;
        }
        match found {
            Some(idx) => {
                out.push((idx, sorters[i].1));
            },
            None => {
                proof {
                    assert(forall|q: int|
                        0 <= q < head@.len() ==> (#[trigger] head@[q])@ != sorters@[i as int].0@);
                    let witness = sorters@[i as int];
                    assert(witness == sorters@[i as int]);
                    assert(forall|j: int|
                        0 <= j < head@.len() ==> (#[trigger] head@[j])@ != sorters@[i as int].0@);
                    assert(sorter_unresolvable(sorters@, head@));
                }
                return Err(Error::BadSorter(clone_bytes(&sorters[i].0)));
            },
        }
        i = i + 1;
    }
    Ok(out)
}

} // verus!
