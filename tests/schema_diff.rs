use schema_diff::differ::Differ;
use schema_diff::line_diff::{render_changes, LineChange, LineTag};
use schema_diff::parser::{ExtractError, SqlParser};
use schema_diff::sql_text::{preprocess_sql, split_statements};
use schema_diff::statement::{
    create_joined_objectname, make_column_identity, normalize_db_name, ColumnDecl, CreatedObject,
};
use schema_diff::types::DiffItem;

fn parse(sql: &str) -> SqlParser {
    match SqlParser::new(sql) {
        Ok(p) => p,
        Err(_) => panic!("the text should parse"),
    }
}

fn items(source: &str, target: &str) -> Vec<DiffItem> {
    Differ::new(parse(source), parse(target)).get_diff_items()
}

fn set_items(s: &indexmap::IndexSet<String>) -> Vec<String> {
    s.iter().cloned().collect()
}

#[test]
fn table_missing_from_target() {
    let r = items("CREATE TABLE a.b.t (x INT);", "");
    assert_eq!(r.len(), 1);
    assert_eq!(r[0].object, "a.b.t");
    assert!(r[0].diff.contains("CREATE TABLE a.b.t (x INT)"));
    for line in r[0].diff.lines().filter(|l| !l.is_empty()) {
        assert!(line.starts_with('+'), "line {:?}", line);
    }
}

#[test]
fn identical_tables_give_no_items() {
    let r = items("CREATE TABLE a.t (x INT);", "CREATE TABLE a.t (x INT);");
    assert!(r.is_empty());
}

#[test]
fn added_column_is_reported() {
    let source = "CREATE TABLE a.t (\nx INT,\ny VARCHAR(10)\n);";
    let target = "CREATE TABLE a.t (\nx INT\n);";
    let src = parse(source);
    assert!(set_items(&src.columns).contains(&"a.t.y-VARCHAR(10)".to_string()));
    let r = items(source, target);
    assert_eq!(r.len(), 1);
    assert_eq!(r[0].object, "a.t");
    assert!(r[0].diff.lines().any(|l| l.starts_with('+') && l.contains("y VARCHAR(10)")));
}

#[test]
fn replace_schema_statement_is_dropped() {
    let p = parse("CREATE OR REPLACE SCHEMA foo;\nCREATE TABLE foo.t (x INT);");
    assert!(p.ddls.iter().all(|d| !d.to_uppercase().contains("SCHEMA")));
    assert_eq!(set_items(&p.objects), vec!["foo.t".to_string()]);
    assert_eq!(p.get_ddl_by_object("foo.t"), Some("\nCREATE TABLE foo.t (x INT)".to_string()));
}

fn view(types: Option<&str>) -> CreatedObject {
    CreatedObject {
        name: vec![Some("a".to_string()), Some("v".to_string())],
        columns: vec![ColumnDecl { name: "c1".to_string(), data_type: types.map(|t| t.to_string()) }],
    }
}

fn from_parts(ddls: &[&str], stmts: Vec<Option<CreatedObject>>) -> SqlParser {
    match SqlParser::from_parts(ddls.iter().map(|d| d.to_string()).collect(), stmts) {
        Ok(p) => p,
        Err(_) => panic!("the parts should be accepted"),
    }
}

#[test]
fn view_column_type_changes_identity() {
    let src = from_parts(&["CREATE VIEW a.v (c1 INT) AS SELECT 1"], vec![Some(view(Some("INT")))]);
    let tgt = from_parts(&["CREATE VIEW a.v (c1) AS SELECT 1"], vec![Some(view(None))]);
    assert_eq!(set_items(&src.columns), vec!["a.v.c1-INT".to_string()]);
    assert_eq!(set_items(&tgt.columns), vec!["a.v.c1-".to_string()]);
    let r = Differ::new(src, tgt).get_diff_items();
    assert_eq!(r.len(), 1);
    assert_eq!(r[0].object, "a.v");
}

#[test]
fn result_is_sorted_and_deduplicated() {
    let source = "CREATE TABLE z.t (x INT, y INT);\nCREATE TABLE a.t (x INT);\nCREATE TABLE m.t (x INT);";
    let target = "CREATE TABLE m.t (x INT);";
    let d = Differ::new(parse(source), parse(target));
    assert_eq!(d.get_object_diffs(), vec!["a.t".to_string(), "z.t".to_string()]);
    let r = d.get_diff_items();
    let names: Vec<&str> = r.iter().map(|i| i.object.as_str()).collect();
    assert_eq!(names, vec!["a.t", "z.t"]);
}

#[test]
fn repeated_runs_give_the_same_items() {
    let source = "CREATE TABLE a.t (x INT, y INT);\nCREATE TABLE b.t (x INT);";
    let target = "CREATE TABLE a.t (x INT);";
    let r1 = items(source, target);
    let r2 = items(source, target);
    assert_eq!(r1.len(), r2.len());
    for (a, b) in r1.iter().zip(r2.iter()) {
        assert_eq!(a.object, b.object);
        assert_eq!(a.diff, b.diff);
    }
}

#[test]
fn ddl_follows_the_defining_statement() {
    let p = parse("CREATE TABLE a.t (x INT);\nINSERT INTO a.t VALUES (1);\nCREATE TABLE a.u (y INT);");
    assert_eq!(set_items(&p.objects), vec!["a.t".to_string(), "a.u".to_string()]);
    assert_eq!(p.get_ddl_by_object("a.u"), Some("\nCREATE TABLE a.u (y INT)".to_string()));
    assert_eq!(p.get_ddl_by_object("a.t"), Some("CREATE TABLE a.t (x INT)".to_string()));
    assert_eq!(p.get_ddl_by_object("a.v"), None);
}

#[test]
fn internal_diffs_keep_source_order() {
    let source = "CREATE TABLE b.t (x INT, y INT);\nCREATE TABLE a.t (x INT);";
    let target = "CREATE TABLE b.t (x INT);";
    let d = Differ::new(parse(source), parse(target));
    assert_eq!(d.get_internal_object_diff(), vec!["a.t".to_string()]);
    assert_eq!(d.get_internal_column_object_diff(), vec!["b.t".to_string(), "a.t".to_string()]);
}

#[test]
fn syntax_error_is_reported() {
    assert!(matches!(SqlParser::new("CREATE TABLE (;"), Err(ExtractError::Syntax(_))));
}

#[test]
fn more_statements_than_fragments_is_refused() {
    let r = SqlParser::from_parts(vec![], vec![None]);
    assert!(matches!(r, Err(ExtractError::FragmentMismatch)));
}

#[test]
fn name_part_that_is_not_an_identifier_is_refused() {
    let o = CreatedObject { name: vec![None], columns: vec![] };
    let r = SqlParser::from_parts(vec!["x".to_string()], vec![Some(o)]);
    assert!(matches!(r, Err(ExtractError::UnsupportedName)));
}

#[test]
fn timestamps_are_renamed_in_any_case() {
    let r = preprocess_sql("a TIMESTAMP_NTZ, b timestamp_ltz, c Timestamp_Tz");
    assert_eq!(r, "a TIMESTAMPNTZ, b TIMESTAMPLTZ, c TIMESTAMPTZ");
}

#[test]
fn replace_statements_are_removed() {
    let r = preprocess_sql("create or replace\n database d; CREATE OR REPLACE TASK t AS x;CREATE TABLE t (x INT);");
    assert_eq!(r, " CREATE TABLE t (x INT);");
}

#[test]
fn preprocessing_twice_equals_once_on_a_plain_text() {
    let once = preprocess_sql("CREATE OR REPLACE SCHEMA s;\nCREATE TABLE s.t (x TIMESTAMP_NTZ);");
    assert_eq!(preprocess_sql(&once), once);
}

#[test]
fn split_keeps_empty_fragments() {
    assert_eq!(split_statements("a;b;"), vec!["a".to_string(), "b".to_string(), "".to_string()]);
    assert_eq!(split_statements(""), vec!["".to_string()]);
}

#[test]
fn names_are_joined_with_leading_part_lowered() {
    let name = vec![Some("DB".to_string()), Some("Schema".to_string()), Some("T".to_string())];
    assert_eq!(create_joined_objectname(&name), "db.Schema.T");
    assert_eq!(normalize_db_name("MyDb"), "mydb");
}

#[test]
fn column_identity_has_name_and_type() {
    let c = ColumnDecl { name: "x".to_string(), data_type: Some("NUMBER(10,2)".to_string()) };
    assert_eq!(make_column_identity("a.t", &c), "a.t.x-NUMBER(10,2)");
}

#[test]
fn changes_render_with_marks() {
    let cs = vec![
        LineChange { tag: LineTag::Equal, text: "a".to_string() },
        LineChange { tag: LineTag::Delete, text: "b".to_string() },
        LineChange { tag: LineTag::Insert, text: "c".to_string() },
    ];
    assert_eq!(render_changes(&cs), " a\n-b\n+c");
    assert_eq!(render_changes(&vec![]), "");
}

#[test]
fn diff_text_interleaves_changes() {
    let d = schema_diff::line_diff::diff_text("a\nb\nc\n", "a\nx\nc\n");
    assert_eq!(d, " a\n\n-b\n\n+x\n\n c\n");
}

#[test]
fn diff_item_keeps_its_fields() {
    let i = DiffItem::new("a.t", "+x");
    assert_eq!(i.object, "a.t");
    assert_eq!(i.diff, "+x");
}

#[test]
fn renaming_twice_equals_once() {
    let once = preprocess_sql("x TIMESTAMP_TIMESTAMP_NTZNTZ, y timestamp_tz_LTZ, z TIMESTAMP_LTZ");
    assert_eq!(once, "x TIMESTAMP_TIMESTAMPNTZNTZ, y TIMESTAMPTZ_LTZ, z TIMESTAMPLTZ");
    assert_eq!(preprocess_sql(&once), once);
}

#[test]
fn removal_can_expose_another_replace_statement() {
    let once = preprocess_sql("create or create or replace schema a; replace schema b;");
    assert_eq!(once, "create or  replace schema b;");
    assert_eq!(preprocess_sql(&once), "");
}

#[test]
fn parsed_view_has_untyped_columns() {
    let p = parse("CREATE VIEW a.v (c1, c2) AS SELECT 1 AS c1, 2 AS c2;");
    assert_eq!(set_items(&p.objects), vec!["a.v".to_string()]);
    assert_eq!(set_items(&p.columns), vec!["a.v.c1-".to_string(), "a.v.c2-".to_string()]);
    assert_eq!(p.get_ddl_by_object("a.v"), Some("CREATE VIEW a.v (c1, c2) AS SELECT 1 AS c1, 2 AS c2".to_string()));
}

#[test]
fn view_differs_from_table_with_typed_columns() {
    let r = items("CREATE TABLE a.v (c1 INT);", "CREATE VIEW a.v (c1) AS SELECT 1 AS c1;");
    assert_eq!(r.len(), 1);
    assert_eq!(r[0].object, "a.v");
}

#[test]
fn column_declared_twice_is_reported_once() {
    let source = "CREATE TABLE a.t (x INT);CREATE OR REPLACE TABLE a.t (x INT);";
    let d = Differ::new(parse(source), parse(""));
    assert_eq!(d.get_internal_column_object_diff(), vec!["a.t".to_string()]);
    assert_eq!(set_items(&d.source.objects), vec!["a.t".to_string()]);
    assert_eq!(set_items(&d.source.columns), vec!["a.t.x-INT".to_string()]);
    assert_eq!(d.source.get_ddl_by_object("a.t"), Some("CREATE TABLE a.t (x INT)".to_string()));
}

#[test]
fn column_owner_is_the_whole_object_identity() {
    let d = Differ::new(parse("CREATE TABLE a.b.t (x INT, y INT);"), parse("CREATE TABLE a.b.t (x INT);"));
    assert_eq!(d.get_internal_column_object_diff(), vec!["a.b.t".to_string()]);
    assert_eq!(d.get_object_diffs(), vec!["a.b.t".to_string()]);
}

#[test]
fn leading_name_part_is_lowered_only() {
    let p = parse("CREATE TABLE MyDb.Sch.Tbl (Col VARCHAR(16));");
    assert_eq!(set_items(&p.objects), vec!["mydb.Sch.Tbl".to_string()]);
    assert_eq!(set_items(&p.columns), vec!["mydb.Sch.Tbl.Col-VARCHAR(16)".to_string()]);
}

#[test]
fn other_statements_keep_their_fragments() {
    let p = parse("CREATE SCHEMA a;CREATE TABLE a.t (x INT);");
    assert_eq!(p.statements.len(), 2);
    assert_eq!(p.ddls, vec!["CREATE SCHEMA a".to_string(), "CREATE TABLE a.t (x INT)".to_string(), "".to_string()]);
    assert_eq!(p.get_ddl_by_object("a.t"), Some("CREATE TABLE a.t (x INT)".to_string()));
}
