use database::database::open;
use database::error::{DbError, Field};
use database::frontend::{
    execute_command, execute_sql, is_command, is_insert, is_select, Command, Literal, Outcome,
    Query, SetExpr, Statement, TableFactor, TableWithJoins,
};
use database::parser::{parse_sql, SQL};
use database::store::PageStore;

fn inserted(line: &str) -> Option<(u32, String, String)> {
    match parse_sql(line) {
        Ok(SQL::Insert(row)) => Some((row.id(), row.username().to_string(), row.email().to_string())),
        _ => None,
    }
}

fn refused(line: &str) -> bool {
    matches!(parse_sql(line), Err(DbError::ParseFailure))
}

#[test]
fn an_insert_line_gives_its_row() {
    assert_eq!(
        inserted("insert 1 'user' 'user@example.com'"),
        Some((1, "user".to_string(), "user@example.com".to_string()))
    );
}

#[test]
fn parts_of_an_insert_are_parted_by_any_white_space() {
    assert_eq!(
        inserted("insert \t 42\r\n'a b'\n\n'c'"),
        Some((42, "a b".to_string(), "c".to_string()))
    );
}

#[test]
fn what_follows_a_statement_is_not_looked_at() {
    assert_eq!(inserted("insert 1 'a' 'b' and more"), Some((1, "a".to_string(), "b".to_string())));
    assert_eq!(inserted("insert 1 'a' 'b''"), Some((1, "a".to_string(), "b".to_string())));
    assert!(matches!(parse_sql("select"), Ok(SQL::Select)));
    assert!(matches!(parse_sql("select * from users"), Ok(SQL::Select)));
    assert!(matches!(parse_sql("selection"), Ok(SQL::Select)));
}

#[test]
fn an_id_is_a_decimal_numeral_of_32_bits() {
    assert_eq!(inserted("insert 0 'a' 'b'").map(|row| row.0), Some(0));
    assert_eq!(inserted("insert 007 'a' 'b'").map(|row| row.0), Some(7));
    assert_eq!(inserted("insert 4294967295 'a' 'b'").map(|row| row.0), Some(u32::MAX));
    assert!(refused("insert 4294967296 'a' 'b'"));
    assert!(refused("insert 99999999999999999999 'a' 'b'"));
    assert!(refused("insert -1 'a' 'b'"));
    assert!(refused("insert +1 'a' 'b'"));
    assert!(refused("insert 1.5 'a' 'b'"));
    assert!(refused("insert x 'a' 'b'"));
    assert!(refused("insert 1x 'a' 'b'"));
}

#[test]
fn texts_stand_between_single_quotes() {
    assert_eq!(
        inserted("insert 1 'zoë' 'жук@почта'"),
        Some((1, "zoë".to_string(), "жук@почта".to_string()))
    );
    assert_eq!(
        inserted("insert 1 '\"a\"' ' '"),
        Some((1, "\"a\"".to_string(), " ".to_string()))
    );
    assert!(refused("insert 1 '' 'b'"));
    assert!(refused("insert 1 'a' ''"));
    assert!(refused("insert 1 'a 'b'"));
    assert!(refused("insert 1 'a' 'b"));
    assert!(refused("insert 1 a 'b'"));
    assert!(refused("insert 1 \"a\" 'b'"));
    assert!(refused("insert 1 'a''b'"));
}

#[test]
fn a_line_that_is_no_statement_is_refused() {
    assert!(refused(""));
    assert!(refused("inser"));
    assert!(refused("insert"));
    assert!(refused("insert "));
    assert!(refused("insert1 'a' 'b'"));
    assert!(refused("insert 1'a' 'b'"));
    assert!(refused("insert 1 'a'"));
    assert!(refused("insert 1 'a' "));
    assert!(refused(" insert 1 'a' 'b'"));
    assert!(refused("Insert 1 'a' 'b'"));
    assert!(refused("INSERT 1 'a' 'b'"));
    assert!(refused(" select"));
    assert!(refused("Select"));
    assert!(refused("selec"));
    assert!(refused("update"));
}

#[test]
fn a_parsed_row_is_not_yet_validated() {
    let long = "u".repeat(40);
    let line = format!("insert 1 '{}' 'e'", long);
    match parse_sql(&line) {
        Ok(SQL::Insert(row)) => {
            assert_eq!(row.username(), long);
            assert_eq!(
                row.validate(),
                Err(DbError::ValidationFailed { field: Field::Username })
            );
        }
        _ => panic!("the line is an insert"),
    }
}

fn name(parts: &[&str]) -> Vec<String> {
    parts.iter().map(|part| part.to_string()).collect()
}

fn select_from(tables: Vec<TableFactor>) -> Vec<Statement> {
    let from = tables.into_iter().map(|relation| TableWithJoins { relation }).collect();
    vec![Statement::Query(Query { body: SetExpr::Select { from } })]
}

fn insert_into(table: &[&str], rows: Vec<Vec<Literal>>) -> Vec<Statement> {
    vec![Statement::Insert { table_name: name(table), source: Query { body: SetExpr::Values(rows) } }]
}

fn number(digits: &str) -> Literal {
    Literal::Number(digits.to_string(), false)
}

fn text(s: &str) -> Literal {
    Literal::SingleQuotedString(s.to_string())
}

#[test]
fn a_select_reads_from_users_alone() {
    assert!(is_select(&select_from(vec![TableFactor::Table { name: name(&["users"]) }])));
    assert!(!is_select(&select_from(vec![TableFactor::Table { name: name(&["user"]) }])));
    assert!(!is_select(&select_from(vec![TableFactor::Table { name: name(&["Users"]) }])));
    assert!(!is_select(&select_from(vec![TableFactor::Table { name: name(&["main", "users"]) }])));
    assert!(!is_select(&select_from(vec![TableFactor::Table { name: name(&[]) }])));
    assert!(!is_select(&select_from(vec![TableFactor::Other])));
    assert!(!is_select(&select_from(vec![])));
    assert!(!is_select(&select_from(vec![
        TableFactor::Table { name: name(&["users"]) },
        TableFactor::Table { name: name(&["users"]) },
    ])));
    assert!(!is_select(&[]));
    assert!(!is_select(&[Statement::Other]));
    assert!(!is_select(&[Statement::Query(Query { body: SetExpr::Other })]));
    assert!(!is_select(&[Statement::Query(Query { body: SetExpr::Values(vec![]) })]));
    let mut twice = select_from(vec![TableFactor::Table { name: name(&["users"]) }]);
    twice.extend(select_from(vec![TableFactor::Table { name: name(&["users"]) }]));
    assert!(!is_select(&twice));
    assert!(!is_select(&insert_into(&["users"], vec![vec![number("1"), text("a"), text("b")]])));
}

#[test]
fn an_insert_takes_the_first_row_of_values() {
    let row = is_insert(&insert_into(
        &["users"],
        vec![vec![number("12"), text("user"), text("mail")], vec![number("13")]],
    ))
    .unwrap();
    assert_eq!((row.id(), row.username(), row.email()), (12, "user", "mail"));
    let top = is_insert(&insert_into(&["users"], vec![vec![number("4294967295"), text(""), text("")]]));
    assert_eq!(top.map(|row| row.id()), Some(u32::MAX));
}

#[test]
fn an_insert_of_another_shape_is_none() {
    let none = |ast: Vec<Statement>| is_insert(&ast).is_none();
    assert!(none(insert_into(&["user"], vec![vec![number("1"), text("a"), text("b")]])));
    assert!(none(insert_into(&["a", "users"], vec![vec![number("1"), text("a"), text("b")]])));
    assert!(none(insert_into(&[], vec![vec![number("1"), text("a"), text("b")]])));
    assert!(none(insert_into(&["users"], vec![])));
    assert!(none(insert_into(&["users"], vec![vec![number("1"), text("a")]])));
    assert!(none(insert_into(&["users"], vec![vec![number("1"), text("a"), text("b"), text("c")]])));
    assert!(none(insert_into(&["users"], vec![vec![text("1"), text("a"), text("b")]])));
    assert!(none(insert_into(&["users"], vec![vec![number("1"), number("2"), text("b")]])));
    assert!(none(insert_into(&["users"], vec![vec![number("1"), text("a"), Literal::Other]])));
    assert!(none(insert_into(
        &["users"],
        vec![vec![Literal::Number("1".to_string(), true), text("a"), text("b")]]
    )));
    assert!(none(insert_into(&["users"], vec![vec![number("4294967296"), text("a"), text("b")]])));
    assert!(none(insert_into(&["users"], vec![vec![number("1.5"), text("a"), text("b")]])));
    assert!(none(insert_into(&["users"], vec![vec![number(""), text("a"), text("b")]])));
    assert!(none(vec![]));
    assert!(none(vec![Statement::Other]));
    assert!(none(select_from(vec![TableFactor::Table { name: name(&["users"]) }])));
    assert!(none(vec![Statement::Insert {
        table_name: name(&["users"]),
        source: Query { body: SetExpr::Other },
    }]));
    let mut twice = insert_into(&["users"], vec![vec![number("1"), text("a"), text("b")]]);
    twice.extend(insert_into(&["users"], vec![vec![number("2"), text("a"), text("b")]]));
    assert!(none(twice));
}

#[test]
fn a_line_with_a_leading_dot_is_a_command() {
    assert!(is_command(".exit"));
    assert!(is_command("."));
    assert!(is_command(".tables"));
    assert!(!is_command(""));
    assert!(!is_command(" .exit"));
    assert!(!is_command("select"));
    assert_eq!(execute_command(".exit"), Command::Exit);
    assert_eq!(execute_command(".exit "), Command::Unrecognized);
    assert_eq!(execute_command(".Exit"), Command::Unrecognized);
    assert_eq!(execute_command(".tables"), Command::Unrecognized);
    assert_eq!(execute_command(""), Command::Unrecognized);
}

#[test]
fn statements_are_executed_on_the_table() {
    let mut table = open(PageStore::new());
    let select = select_from(vec![TableFactor::Table { name: name(&["users"]) }]);
    let insert = |id: &str, username: &str| {
        insert_into(&["users"], vec![vec![number(id), text(username), text("user@example.com")]])
    };
    assert!(matches!(execute_sql(&mut table, &select), Ok(Outcome::Rows(rows)) if rows.is_empty()));
    assert!(matches!(execute_sql(&mut table, &insert("2", "second")), Ok(Outcome::Inserted)));
    assert!(matches!(execute_sql(&mut table, &insert("1", "user")), Ok(Outcome::Inserted)));
    assert!(matches!(
        execute_sql(&mut table, &insert("1", "again")),
        Err(DbError::DuplicateKey)
    ));
    assert!(matches!(
        execute_sql(&mut table, &insert("3", &"u".repeat(32))),
        Err(DbError::ValidationFailed { field: Field::Username })
    ));
    assert!(matches!(execute_sql(&mut table, &[Statement::Other]), Err(DbError::Unimplemented)));
    assert!(matches!(execute_sql(&mut table, &[]), Err(DbError::Unimplemented)));
    assert!(matches!(
        execute_sql(&mut table, &select_from(vec![TableFactor::Table { name: name(&["other"]) }])),
        Err(DbError::Unimplemented)
    ));
    match execute_sql(&mut table, &select) {
        Ok(Outcome::Rows(rows)) => {
            let shown: Vec<String> = rows.iter().map(|row| row.render()).collect();
            assert_eq!(
                shown,
                vec!["(1, 'user', 'user@example.com')", "(2, 'second', 'user@example.com')"]
            );
        }
        _ => panic!("a select gives rows"),
    }
}
