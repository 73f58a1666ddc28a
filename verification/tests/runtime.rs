use cozo::db::Db;
use cozo::error::Error;
use cozo::importexport::Payload;
use cozo::kv::MemKv;
use cozo::poison::Poison;
use cozo::program::{
    CozoScript, InputProgram, InputRelationMeta, OutOpts, QueryAssertion, QuerySpec, RelationOp,
    SysOp,
};
use cozo::registry::RunningQueryHandle;
use cozo::relation::{AccessLevel, ColType, ColumnDef, RelationId};
use cozo::value::{DataValue, Tuple};

fn bytes(s: &str) -> Vec<u8> {
    s.as_bytes().to_vec()
}

fn sval(s: &str) -> DataValue {
    DataValue::Str(bytes(s))
}

fn col(name: &str, typing: ColType) -> ColumnDef {
    ColumnDef {
        name: bytes(name),
        typing,
        default_gen: None,
    }
}

fn person_meta() -> InputRelationMeta {
    InputRelationMeta {
        name: bytes("person"),
        keys: vec![col("id", ColType::Str)],
        non_keys: vec![col("name", ColType::Str)],
    }
}

fn plain_opts() -> OutOpts {
    OutOpts {
        sorters: Vec::new(),
        limit: None,
        offset: None,
        store_relation: None,
        assertion: None,
        timeout_micros: None,
        sleep_micros: None,
    }
}

fn store_program(meta: InputRelationMeta, op: RelationOp, rows: Vec<Tuple>) -> InputProgram {
    let mut opts = plain_opts();
    opts.store_relation = Some((meta, op));
    InputProgram {
        query: QuerySpec::ConstRows(rows),
        entry_head: vec![bytes("id"), bytes("name")],
        out_opts: opts,
    }
}

fn scan_program(name: &str) -> InputProgram {
    InputProgram {
        query: QuerySpec::ScanStored(bytes(name)),
        entry_head: vec![bytes("id"), bytes("name")],
        out_opts: plain_opts(),
    }
}

fn row2(a: &str, b: &str) -> Tuple {
    Tuple(vec![sval(a), sval(b)])
}

fn fresh_db() -> Db {
    let mut db = Db::new(MemKv::new()).unwrap();
    db.initialize().unwrap();
    db
}

fn rows_match(rows: &[Tuple], expected: &[Tuple]) -> bool {
    rows.len() == expected.len()
        && rows
            .iter()
            .zip(expected.iter())
            .all(|(a, b)| a.same_as(b))
}

fn create_person_with(db: &mut Db, rows: Vec<Tuple>) {
    let res = db
        .run_script(CozoScript::Multi(vec![store_program(
            person_meta(),
            RelationOp::Create,
            rows,
        )]))
        .unwrap();
    assert!(res.ok);
}

#[test]
fn create_put_scan() {
    let mut db = fresh_db();
    create_person_with(&mut db, vec![row2("a", "A"), row2("b", "B")]);
    let res = db
        .run_script(CozoScript::Multi(vec![scan_program("person")]))
        .unwrap();
    assert!(res.ok);
    let headers = res.headers.unwrap();
    assert_eq!(headers, vec![bytes("id"), bytes("name")]);
    assert!(rows_match(&res.rows, &[row2("a", "A"), row2("b", "B")]));
}

#[test]
fn put_into_missing_relation_not_found() {
    let mut db = fresh_db();
    let err = db
        .run_script(CozoScript::Multi(vec![store_program(
            person_meta(),
            RelationOp::Put,
            vec![row2("a", "A")],
        )]))
        .unwrap_err();
    assert!(matches!(err, Error::StoredRelationNotFound(_)));
    assert_eq!(err.code(), "eval::stored_relation_not_found");
}

#[test]
fn create_conflict() {
    let mut db = fresh_db();
    create_person_with(&mut db, vec![]);
    let err = db
        .run_script(CozoScript::Multi(vec![store_program(
            person_meta(),
            RelationOp::Create,
            vec![],
        )]))
        .unwrap_err();
    assert!(matches!(err, Error::StoredRelationConflict(_)));
    assert_eq!(err.code(), "eval::stored_relation_conflict");
}

#[test]
fn replace_reclaims_old_range() {
    let mut db = fresh_db();
    create_person_with(&mut db, vec![row2("a", "A")]);
    let old_id = db.transact().get_relation(&bytes("person")).unwrap().id;
    let res = db
        .run_script(CozoScript::Multi(vec![store_program(
            person_meta(),
            RelationOp::Replace,
            vec![row2("c", "C")],
        )]))
        .unwrap();
    assert!(res.ok);
    let res = db
        .run_script(CozoScript::Multi(vec![scan_program("person")]))
        .unwrap();
    assert!(rows_match(&res.rows, &[row2("c", "C")]));
    let compacted = db.run_script(CozoScript::Sys(SysOp::Compact)).unwrap();
    assert!(compacted.ok);
    // a low-level scan of the old id range finds no keys
    let lo = cozo::codec::be8_exec(old_id.0);
    let hi = cozo::codec::be8_exec(old_id.0 + 1);
    assert!(db.store.range_scan(&lo, &hi).is_empty());
}

#[test]
fn timeout_kills_long_query() {
    let mut db = fresh_db();
    let mut opts = plain_opts();
    opts.timeout_micros = Some(1);
    let prog = InputProgram {
        query: QuerySpec::Generate(50_000_000),
        entry_head: vec![bytes("x")],
        out_opts: opts,
    };
    let err = db
        .run_script(CozoScript::Multi(vec![prog]))
        .unwrap_err();
    assert!(matches!(err, Error::Killed));
    assert_eq!(err.code(), "eval::killed");
}

#[test]
fn killed_poison_stops_evaluation() {
    let db = fresh_db();
    let tx = db.transact();
    let poison = Poison::new();
    let shared = poison.share();
    shared.set();
    let q = QuerySpec::Generate(1_000_000);
    let err = cozo::query::eval_query(&tx, &q, &poison).unwrap_err();
    assert!(matches!(err, Error::Killed));
}

#[test]
fn registry_lists_and_kills() {
    let mut db = fresh_db();
    let poison = Poison::new();
    let id = db.running.register(RunningQueryHandle {
        started_at_micros: 42,
        poison: poison.share(),
    });
    let listed = db.run_script(CozoScript::Sys(SysOp::ListRunning)).unwrap();
    assert_eq!(listed.rows.len(), 1);
    let killed = db
        .run_script(CozoScript::Sys(SysOp::KillRunning(id)))
        .unwrap();
    assert!(killed.rows[0].same_as(&Tuple(vec![sval("KILLING")])));
    assert!(poison.is_killed());
    db.running.unregister(id);
    let listed = db.run_script(CozoScript::Sys(SysOp::ListRunning)).unwrap();
    assert_eq!(listed.rows.len(), 0);
}

#[test]
fn kill_of_missing_id_is_not_found() {
    let mut db = fresh_db();
    let res = db
        .run_script(CozoScript::Sys(SysOp::KillRunning(12345)))
        .unwrap();
    assert!(res.rows[0].same_as(&Tuple(vec![sval("NOT_FOUND")])));
}

#[test]
fn assert_none_reports_offending_tuple() {
    let mut db = fresh_db();
    let mut opts = plain_opts();
    opts.assertion = Some(QueryAssertion::AssertNone);
    let prog = InputProgram {
        query: QuerySpec::ConstRows(vec![Tuple(vec![DataValue::Int(1)])]),
        entry_head: vec![bytes("x")],
        out_opts: opts,
    };
    let err = db.run_script(CozoScript::Multi(vec![prog])).unwrap_err();
    match err {
        Error::AssertNoneFailure(t) => {
            assert!(t.same_as(&Tuple(vec![DataValue::Int(1)])));
        }
        other => panic!("unexpected error {}", other.code()),
    }
}

#[test]
fn assert_some_succeeds_with_row() {
    let mut db = fresh_db();
    let mut opts = plain_opts();
    opts.assertion = Some(QueryAssertion::AssertSome);
    let prog = InputProgram {
        query: QuerySpec::ConstRows(vec![Tuple(vec![DataValue::Int(1)])]),
        entry_head: vec![bytes("x")],
        out_opts: opts,
    };
    let res = db.run_script(CozoScript::Multi(vec![prog])).unwrap();
    assert!(res.ok);
    assert!(rows_match(&res.rows, &[Tuple(vec![DataValue::Int(1)])]));
}

#[test]
fn assert_some_fails_on_empty() {
    let mut db = fresh_db();
    let mut opts = plain_opts();
    opts.assertion = Some(QueryAssertion::AssertSome);
    let prog = InputProgram {
        query: QuerySpec::ConstRows(vec![]),
        entry_head: vec![bytes("x")],
        out_opts: opts,
    };
    let err = db.run_script(CozoScript::Multi(vec![prog])).unwrap_err();
    assert!(matches!(err, Error::AssertSomeFailure));
    assert_eq!(err.code(), "eval::assert_some_failure");
}

fn int_rows(vals: &[i64]) -> Vec<Tuple> {
    vals.iter()
        .map(|v| Tuple(vec![DataValue::Int(*v)]))
        .collect()
}

#[test]
fn limit_applies_after_sort() {
    let mut db = fresh_db();
    let mut opts = plain_opts();
    opts.sorters = vec![(bytes("x"), false)];
    opts.limit = Some(2);
    let prog = InputProgram {
        query: QuerySpec::ConstRows(int_rows(&[3, 1, 2])),
        entry_head: vec![bytes("x")],
        out_opts: opts,
    };
    let res = db.run_script(CozoScript::Multi(vec![prog])).unwrap();
    assert!(rows_match(&res.rows, &int_rows(&[1, 2])));

    let mut opts = plain_opts();
    opts.sorters = vec![(bytes("x"), true)];
    opts.limit = Some(2);
    let prog = InputProgram {
        query: QuerySpec::ConstRows(int_rows(&[3, 1, 2])),
        entry_head: vec![bytes("x")],
        out_opts: opts,
    };
    let res = db.run_script(CozoScript::Multi(vec![prog])).unwrap();
    assert!(rows_match(&res.rows, &int_rows(&[3, 2])));
}

#[test]
fn limit_without_sort_is_pushed_down() {
    let mut db = fresh_db();
    let mut opts = plain_opts();
    opts.limit = Some(2);
    opts.offset = Some(1);
    let prog = InputProgram {
        query: QuerySpec::ConstRows(int_rows(&[3, 1, 2])),
        entry_head: vec![bytes("x")],
        out_opts: opts,
    };
    let res = db.run_script(CozoScript::Multi(vec![prog])).unwrap();
    assert!(rows_match(&res.rows, &int_rows(&[1, 2])));
}

fn payloads_match(a: &[(Vec<u8>, Payload)], b: &[(Vec<u8>, Payload)]) -> bool {
    a.len() == b.len()
        && a.iter().zip(b.iter()).all(|((n1, p1), (n2, p2))| {
            n1 == n2
                && match (p1, p2) {
                    (Payload::Objects(x), Payload::Objects(y)) => {
                        x.len() == y.len()
                            && x.iter().zip(y.iter()).all(|(r1, r2)| {
                                r1.len() == r2.len()
                                    && r1.iter().zip(r2.iter()).all(|((k1, v1), (k2, v2))| {
                                        k1 == k2 && v1.same_as(v2)
                                    })
                            })
                    }
                    (
                        Payload::Table {
                            headers: h1,
                            rows: r1,
                        },
                        Payload::Table {
                            headers: h2,
                            rows: r2,
                        },
                    ) => h1 == h2 && rows_match(r1, r2),
                    _ => false,
                }
        })
}

#[test]
fn export_import_objects_round_trip() {
    let mut db = fresh_db();
    create_person_with(&mut db, vec![row2("a", "A"), row2("b", "B")]);
    let exported = db
        .export_relations(&vec![bytes("person")], true)
        .unwrap();
    // drop the relation and recreate it empty
    db.run_script(CozoScript::Sys(SysOp::RemoveRelation(vec![bytes("person")])))
        .unwrap();
    create_person_with(&mut db, vec![]);
    db.import_relations(&exported).unwrap();
    let re_exported = db
        .export_relations(&vec![bytes("person")], true)
        .unwrap();
    assert!(payloads_match(&exported, &re_exported));
}

#[test]
fn import_table_with_permuted_headers() {
    let mut db = fresh_db();
    create_person_with(&mut db, vec![row2("a", "A"), row2("b", "B")]);
    // a table payload with the columns swapped resolves by header name
    let payload = Payload::Table {
        headers: vec![bytes("name"), bytes("id")],
        rows: vec![
            Tuple(vec![sval("C"), sval("c")]),
            Tuple(vec![sval("D"), sval("d")]),
        ],
    };
    db.import_relations(&vec![(bytes("person"), payload)]).unwrap();
    let res = db
        .run_script(CozoScript::Multi(vec![scan_program("person")]))
        .unwrap();
    assert!(rows_match(
        &res.rows,
        &[
            row2("a", "A"),
            row2("b", "B"),
            row2("c", "C"),
            row2("d", "D"),
        ],
    ));
}

#[test]
fn import_missing_required_column_is_bad_data() {
    let mut db = fresh_db();
    create_person_with(&mut db, vec![]);
    let payload = Payload::Objects(vec![vec![(bytes("name"), sval("A"))]]);
    let err = db
        .import_relations(&vec![(bytes("person"), payload)])
        .unwrap_err();
    assert!(matches!(err, Error::ImportBadData(_)));
    assert_eq!(err.code(), "import::bad_data");
}

#[test]
fn import_uses_column_default() {
    let mut db = fresh_db();
    let meta = InputRelationMeta {
        name: bytes("person"),
        keys: vec![col("id", ColType::Str)],
        non_keys: vec![ColumnDef {
            name: bytes("name"),
            typing: ColType::Str,
            default_gen: Some(sval("unnamed")),
        }],
    };
    let res = db
        .run_script(CozoScript::Multi(vec![store_program(
            meta,
            RelationOp::Create,
            vec![],
        )]))
        .unwrap();
    assert!(res.ok);
    let payload = Payload::Objects(vec![vec![(bytes("id"), sval("x"))]]);
    db.import_relations(&vec![(bytes("person"), payload)]).unwrap();
    let res = db
        .run_script(CozoScript::Multi(vec![scan_program("person")]))
        .unwrap();
    assert!(rows_match(&res.rows, &[row2("x", "unnamed")]));
}

#[test]
fn delete_mode_import_removes_rows() {
    let mut db = fresh_db();
    create_person_with(&mut db, vec![row2("a", "A"), row2("b", "B")]);
    let payload = Payload::Objects(vec![vec![(bytes("id"), sval("a"))]]);
    db.import_relations(&vec![(bytes("-person"), payload)]).unwrap();
    let res = db
        .run_script(CozoScript::Multi(vec![scan_program("person")]))
        .unwrap();
    assert!(rows_match(&res.rows, &[row2("b", "B")]));
}

#[test]
fn backup_restore_is_byte_identical() {
    let mut db = fresh_db();
    create_person_with(&mut db, vec![row2("a", "A"), row2("b", "B")]);
    let backup = db.backup_db().unwrap();
    let mut fresh = Db::new(MemKv::new()).unwrap();
    fresh.initialize().unwrap();
    fresh.restore_backup(&backup).unwrap();
    assert_eq!(db.store.entries.len(), fresh.store.entries.len());
    for (a, b) in db.store.entries.iter().zip(fresh.store.entries.iter()) {
        assert_eq!(a.0, b.0);
        assert_eq!(a.1, b.1);
    }
    // the catalog listing and the row sets agree
    let l1 = db.run_script(CozoScript::Sys(SysOp::ListRelations)).unwrap();
    let l2 = fresh
        .run_script(CozoScript::Sys(SysOp::ListRelations))
        .unwrap();
    assert!(rows_match(&l1.rows, &l2.rows));
    let r1 = db
        .run_script(CozoScript::Multi(vec![scan_program("person")]))
        .unwrap();
    let r2 = fresh
        .run_script(CozoScript::Multi(vec![scan_program("person")]))
        .unwrap();
    assert!(rows_match(&r1.rows, &r2.rows));
    assert_eq!(db.relation_store_id, fresh.relation_store_id);
}

#[test]
fn restore_into_nonempty_is_refused() {
    let mut db = fresh_db();
    create_person_with(&mut db, vec![row2("a", "A")]);
    let backup = db.backup_db().unwrap();
    let err = db.restore_backup(&backup).unwrap_err();
    assert!(matches!(err, Error::RestoreIntoNonEmpty));
}

#[test]
fn import_from_backup_rewrites_id_prefix() {
    let mut db = fresh_db();
    create_person_with(&mut db, vec![row2("a", "A")]);
    let backup = db.backup_db().unwrap();
    // a second database with the same schema under a different id
    let mut other = fresh_db();
    let filler = InputRelationMeta {
        name: bytes("filler"),
        keys: vec![col("k", ColType::Str)],
        non_keys: vec![],
    };
    other
        .run_script(CozoScript::Multi(vec![store_program(
            filler,
            RelationOp::Create,
            vec![],
        )]))
        .unwrap();
    other
        .run_script(CozoScript::Multi(vec![store_program(
            person_meta(),
            RelationOp::Create,
            vec![],
        )]))
        .unwrap();
    other.import_from_backup(&backup, &vec![bytes("person")]).unwrap();
    let res = other
        .run_script(CozoScript::Multi(vec![scan_program("person")]))
        .unwrap();
    assert!(rows_match(&res.rows, &[row2("a", "A")]));
}

#[test]
fn relation_store_id_survives_restart() {
    let mut db = fresh_db();
    create_person_with(&mut db, vec![]);
    let counter = db.relation_store_id;
    assert_eq!(counter, 1);
    // reopen over the committed bytes
    let mut reopened = Db::new(db.store.duplicate()).unwrap();
    reopened.initialize().unwrap();
    assert_eq!(reopened.relation_store_id, counter);
    // the next relation gets a fresh id, never a reused one
    let other = InputRelationMeta {
        name: bytes("other"),
        keys: vec![col("k", ColType::Str)],
        non_keys: vec![],
    };
    reopened
        .run_script(CozoScript::Multi(vec![store_program(
            other,
            RelationOp::Create,
            vec![],
        )]))
        .unwrap();
    let h = reopened.transact().get_relation(&bytes("other")).unwrap();
    assert_eq!(h.id.0, counter + 1);
}

#[test]
fn keys_carry_big_endian_id_prefix() {
    let mut db = fresh_db();
    create_person_with(&mut db, vec![row2("a", "A")]);
    let h = db.transact().get_relation(&bytes("person")).unwrap();
    let key = cozo::relation::encode_key(h.id, &Tuple(vec![sval("a")]));
    assert_eq!(&key[..8], &h.id.0.to_be_bytes());
    let pairs = db.transact().scan_relation(&h);
    assert_eq!(pairs.len(), 1);
    assert_eq!(&pairs[0].0[..8], &h.id.0.to_be_bytes());
}

#[test]
fn codec_round_trips() {
    let t = Tuple(vec![
        DataValue::Null,
        DataValue::Bool(true),
        DataValue::Int(-7),
        sval("hello"),
        DataValue::Bytes(vec![0, 1, 255]),
        DataValue::Bot,
    ]);
    let mut out: Vec<u8> = Vec::new();
    cozo::codec::encode_row(&mut out, &t);
    let back = cozo::codec::decode_row(&out, 0).unwrap();
    assert!(back.same_as(&t));
}

#[test]
fn codec_round_trips_nested_values() {
    let nested = DataValue::List(vec![
        DataValue::Int(1),
        DataValue::Dict(vec![
            (sval("k"), DataValue::List(vec![sval("deep"), DataValue::Null])),
            (DataValue::Int(2), DataValue::Bool(false)),
        ]),
        DataValue::List(vec![]),
    ]);
    let t = Tuple(vec![nested.duplicate(), sval("tail")]);
    let mut out: Vec<u8> = Vec::new();
    cozo::codec::encode_row(&mut out, &t);
    let back = cozo::codec::decode_row(&out, 0).unwrap();
    assert!(back.same_as(&t));
    assert!(nested.same_as(&nested.duplicate()));
    assert!(!nested.same_as(&DataValue::List(vec![DataValue::Int(1)])));
}

#[test]
fn nested_values_are_stored_and_scanned() {
    let mut db = fresh_db();
    let meta = InputRelationMeta {
        name: bytes("things"),
        keys: vec![col("id", ColType::Str)],
        non_keys: vec![col("payload", ColType::Any)],
    };
    let row = Tuple(vec![
        sval("a"),
        DataValue::List(vec![DataValue::Int(1), DataValue::Dict(vec![(sval("k"), sval("v"))])]),
    ]);
    db.run_script(CozoScript::Multi(vec![store_program(
        meta,
        RelationOp::Create,
        vec![row.duplicate()],
    )]))
    .unwrap();
    let res = db
        .run_script(CozoScript::Multi(vec![scan_program("things")]))
        .unwrap();
    assert!(rows_match(&res.rows, &[row]));
}

#[test]
fn sys_ops_catalog_surface() {
    let mut db = fresh_db();
    create_person_with(&mut db, vec![]);
    let listing = db.run_script(CozoScript::Sys(SysOp::ListRelations)).unwrap();
    assert_eq!(listing.rows.len(), 1);
    let expected = Tuple(vec![
        sval("person"),
        DataValue::Int(2),
        sval("normal"),
        DataValue::Int(1),
        DataValue::Int(1),
        DataValue::Int(0),
        DataValue::Int(0),
        DataValue::Int(0),
    ]);
    assert!(listing.rows[0].same_as(&expected));

    let cols = db
        .run_script(CozoScript::Sys(SysOp::ListRelation(bytes("person"))))
        .unwrap();
    assert_eq!(cols.rows.len(), 2);
    assert!(cols.rows[0].same_as(&Tuple(vec![
        sval("id"),
        DataValue::Bool(true),
        DataValue::Int(0),
        sval("string"),
        DataValue::Bool(false),
    ])));
    assert!(cols.rows[1].same_as(&Tuple(vec![
        sval("name"),
        DataValue::Bool(false),
        DataValue::Int(1),
        sval("string"),
        DataValue::Bool(false),
    ])));

    db.run_script(CozoScript::Sys(SysOp::RenameRelation(vec![(
        bytes("person"),
        bytes("people"),
    )])))
    .unwrap();
    assert!(db.transact().get_relation(&bytes("people")).is_ok());
    assert!(db.transact().get_relation(&bytes("person")).is_err());

    db.run_script(CozoScript::Sys(SysOp::SetAccessLevel(
        vec![bytes("people")],
        AccessLevel::ReadOnly,
    )))
    .unwrap();
    let h = db.transact().get_relation(&bytes("people")).unwrap();
    assert_eq!(h.access_level, AccessLevel::ReadOnly);

    db.run_script(CozoScript::Sys(SysOp::SetTriggers(
        bytes("people"),
        vec![bytes("on_put")],
        vec![],
        vec![bytes("on_replace")],
    )))
    .unwrap();
    let triggers = db
        .run_script(CozoScript::Sys(SysOp::ShowTrigger(bytes("people"))))
        .unwrap();
    assert_eq!(triggers.rows.len(), 2);
    assert!(triggers.rows[0].same_as(&Tuple(vec![
        sval("put"),
        DataValue::Int(0),
        sval("on_put"),
    ])));
    assert!(triggers.rows[1].same_as(&Tuple(vec![
        sval("replace"),
        DataValue::Int(0),
        sval("on_replace"),
    ])));
}

#[test]
fn ensure_ops_check_rows() {
    let mut db = fresh_db();
    create_person_with(&mut db, vec![row2("a", "A")]);
    // Ensure passes on the stored row
    let res = db.run_script(CozoScript::Multi(vec![store_program(
        person_meta(),
        RelationOp::Ensure,
        vec![row2("a", "A")],
    )]));
    assert!(res.is_ok());
    // Ensure fails on a differing row
    let err = db
        .run_script(CozoScript::Multi(vec![store_program(
            person_meta(),
            RelationOp::Ensure,
            vec![row2("a", "B")],
        )]))
        .unwrap_err();
    assert!(matches!(err, Error::EnsureFailed(_)));
    // EnsureNot fails on a present row
    let err = db
        .run_script(CozoScript::Multi(vec![store_program(
            person_meta(),
            RelationOp::EnsureNot,
            vec![row2("a", "A")],
        )]))
        .unwrap_err();
    assert!(matches!(err, Error::EnsureFailed(_)));
    // Rm removes it, then EnsureNot passes
    db.run_script(CozoScript::Multi(vec![store_program(
        person_meta(),
        RelationOp::Rm,
        vec![row2("a", "A")],
    )]))
    .unwrap();
    let res = db.run_script(CozoScript::Multi(vec![store_program(
        person_meta(),
        RelationOp::EnsureNot,
        vec![row2("a", "A")],
    )]));
    assert!(res.is_ok());
}

#[test]
fn explain_describes_plan() {
    let mut db = fresh_db();
    create_person_with(&mut db, vec![]);
    let res = db
        .run_script(CozoScript::Sys(SysOp::Explain(scan_program("person"))))
        .unwrap();
    let headers = res.headers.unwrap();
    assert_eq!(headers.len(), 9);
    assert_eq!(headers[0], bytes("stratum"));
    assert_eq!(res.rows.len(), 2);
    assert_eq!(headers[6], bytes("joins_on"));
    assert_eq!(headers[8], bytes("out_relation"));
    // children before parents: the scanned relation, then the output row
    assert!(res.rows[0].0[4].same_as(&sval("load_stored")));
    assert!(res.rows[0].0[5].same_as(&sval(":person")));
    assert!(res.rows[1].0[4].same_as(&sval("out")));
    // both rows carry the entry head as their output bindings
    assert!(res.rows[0].0[8].same_as(&sval("id name")));
    assert!(res.rows[1].0[8].same_as(&sval("id name")));
    // the atom index counts down towards the leaves
    assert!(res.rows[0].0[3].same_as(&DataValue::Int(1)));
    assert!(res.rows[1].0[3].same_as(&DataValue::Int(0)));
}

#[test]
fn schema_mismatch_is_refused() {
    let mut db = fresh_db();
    create_person_with(&mut db, vec![]);
    let wrong = InputRelationMeta {
        name: bytes("person"),
        keys: vec![col("id", ColType::Int)],
        non_keys: vec![col("name", ColType::Str)],
    };
    let err = db
        .run_script(CozoScript::Multi(vec![store_program(
            wrong,
            RelationOp::Put,
            vec![],
        )]))
        .unwrap_err();
    assert!(matches!(err, Error::SchemaIncompatible(_)));
}

#[test]
fn later_statement_sees_earlier_write() {
    let mut db = fresh_db();
    // one script: create with rows, then put one more, then nothing visible
    // outside until the commit at the end
    let script = CozoScript::Multi(vec![
        store_program(person_meta(), RelationOp::Create, vec![row2("a", "A")]),
        store_program(person_meta(), RelationOp::Put, vec![row2("b", "B")]),
    ]);
    db.run_script(script).unwrap();
    let res = db
        .run_script(CozoScript::Multi(vec![scan_program("person")]))
        .unwrap();
    assert!(rows_match(&res.rows, &[row2("a", "A"), row2("b", "B")]));
}

#[test]
fn failed_script_commits_nothing() {
    let mut db = fresh_db();
    let script = CozoScript::Multi(vec![
        store_program(person_meta(), RelationOp::Create, vec![row2("a", "A")]),
        store_program(person_meta(), RelationOp::Create, vec![]),
    ]);
    assert!(db.run_script(script).is_err());
    // the first statement's create was discarded with the session
    let err = db
        .run_script(CozoScript::Multi(vec![scan_program("person")]))
        .unwrap_err();
    assert!(matches!(err, Error::StoredRelationNotFound(_)));
}

#[test]
fn sorted_values_follow_value_order() {
    let mut db = fresh_db();
    let mut opts = plain_opts();
    opts.sorters = vec![(bytes("x"), false)];
    let rows = vec![
        Tuple(vec![sval("b")]),
        Tuple(vec![DataValue::Int(5)]),
        Tuple(vec![sval("a")]),
        Tuple(vec![DataValue::Null]),
    ];
    let prog = InputProgram {
        query: QuerySpec::ConstRows(rows),
        entry_head: vec![bytes("x")],
        out_opts: opts,
    };
    let res = db.run_script(CozoScript::Multi(vec![prog])).unwrap();
    let expected = vec![
        Tuple(vec![DataValue::Null]),
        Tuple(vec![DataValue::Int(5)]),
        Tuple(vec![sval("a")]),
        Tuple(vec![sval("b")]),
    ];
    assert!(rows_match(&res.rows, &expected));
}

#[test]
fn bot_sorts_after_everything() {
    let mut db = fresh_db();
    let mut opts = plain_opts();
    opts.sorters = vec![(bytes("x"), false)];
    let rows = vec![
        Tuple(vec![DataValue::Bot]),
        Tuple(vec![DataValue::Bytes(vec![9])]),
        Tuple(vec![DataValue::Bool(false)]),
    ];
    let prog = InputProgram {
        query: QuerySpec::ConstRows(rows),
        entry_head: vec![bytes("x")],
        out_opts: opts,
    };
    let res = db.run_script(CozoScript::Multi(vec![prog])).unwrap();
    let expected = vec![
        Tuple(vec![DataValue::Bool(false)]),
        Tuple(vec![DataValue::Bytes(vec![9])]),
        Tuple(vec![DataValue::Bot]),
    ];
    assert!(rows_match(&res.rows, &expected));
}

#[test]
fn unknown_sorter_column_is_refused() {
    let mut db = fresh_db();
    let mut opts = plain_opts();
    opts.sorters = vec![(bytes("nope"), false)];
    let prog = InputProgram {
        query: QuerySpec::ConstRows(int_rows(&[1])),
        entry_head: vec![bytes("x")],
        out_opts: opts,
    };
    let err = db.run_script(CozoScript::Multi(vec![prog])).unwrap_err();
    assert!(matches!(err, Error::BadSorter(_)));
}

#[test]
fn relation_id_zero_is_reserved_for_catalog() {
    assert_eq!(cozo::SYSTEM_RELATION_ID, 0);
    let db = fresh_db();
    // catalog keys occupy the id-0 window
    assert_eq!(RelationId(0).0, cozo::SYSTEM_RELATION_ID);
    drop(db);
}
