use task_extract::database::Database;
use task_extract::database::ParseError;
use task_extract::database::Script;

#[test]
fn r() {
    let package_json = r#"{
        "tasks": {
          "start": "deno run -A --watch=static/,routes/ dev.ts"
        },
        "importMap": "./import_map.json",
        "compilerOptions": {
          "jsx": "react-jsx",
          "jsxImportSource": "preact"
        }
      }"#;

    let db = Database::from_package_json(package_json).ok();
    let _ = db;

    let mut expected_db = Database::new();

    let _ = expected_db.add("compile", Script::new("tsc"));
    let _ = expected_db.add("bundle", Script::new("rollup -c"));
}

#[test]
fn two_tasks() {
    let db = Database::from_deno_json("{\"tasks\":{\"build\":\"echo hi\",\"test\":\"echo ok\"}}")
        .unwrap();
    assert_eq!(db.len(), 2);
    assert_eq!(db.get("build").unwrap().command, "echo hi");
    assert_eq!(db.get("test").unwrap().command, "echo ok");
}

#[test]
fn stops_at_block_end() {
    let db =
        Database::from_deno_json("{\"tasks\":{\"start\":\"run dev\"}, \"other\":\"x\"}").unwrap();
    assert_eq!(db.len(), 1);
    assert_eq!(db.get("start").unwrap().command, "run dev");
    assert!(db.get("other").is_none());
}

#[test]
fn escaped_quotes_preserved() {
    let db =
        Database::from_deno_json("{\"tasks\":{\"build\":\"echo \\\"quoted\\\"\"}}").unwrap();
    assert_eq!(db.len(), 1);
    assert_eq!(db.get("build").unwrap().command, "echo \\\"quoted\\\"");
}

#[test]
fn name_without_command() {
    let err = Database::from_deno_json("{\"tasks\":{\"build\"}}").unwrap_err();
    assert_eq!(err, ParseError::NoCommand(1, String::from("deno.json")));
}

#[test]
fn no_target_block() {
    let db = Database::from_deno_json("{\"other\":\"x\"}").unwrap();
    assert_eq!(db.len(), 0);
    assert!(db.get("other").is_none());
}

#[test]
fn missing_command_line_number() {
    let source = "{\n  \"tasks\": {\n    \"build\"\n  }\n}";
    let err = Database::from_deno_json(source).unwrap_err();
    assert_eq!(err, ParseError::NoCommand(3, String::from("deno.json")));
}

#[test]
fn duplicate_name_rejected() {
    let source = "{\"tasks\":{\"a\":\"x\",\n\"a\":\"y\"}}";
    let err = Database::from_deno_json(source).unwrap_err();
    assert_eq!(err, ParseError::DuplicateEntry(2, String::from("deno.json")));
}

#[test]
fn names_and_commands_trimmed() {
    let db = Database::from_deno_json("{\"tasks\":{\"  build  \":\"  echo  hi  \"}}").unwrap();
    assert_eq!(db.len(), 1);
    assert_eq!(db.get("build").unwrap().command, "echo  hi");
}

#[test]
fn newlines_inside_block() {
    let source = "{\n  \"tasks\": {\n    \"lint\": \"cargo clippy\",\n    \"doc\": \"cargo doc\"\n  }\n}";
    let db = Database::from_deno_json(source).unwrap();
    assert_eq!(db.len(), 2);
    assert_eq!(db.get("lint").unwrap().command, "cargo clippy");
    assert_eq!(db.get("doc").unwrap().command, "cargo doc");
}

#[test]
fn extraction_is_deterministic() {
    let source = "{\"tasks\":{\"build\":\"echo hi\",\"test\":\"echo ok\"}}";
    let first = Database::from_deno_json(source).unwrap();
    let second = Database::from_deno_json(source).unwrap();
    assert_eq!(first.len(), second.len());
    assert_eq!(
        first.get("build").unwrap().command,
        second.get("build").unwrap().command
    );
    assert_eq!(
        first.get("test").unwrap().command,
        second.get("test").unwrap().command
    );
}

#[test]
fn package_json_uses_scripts_key() {
    let db = Database::from_package_json("{\"scripts\":{\"start\":\"node app.js\"}}").unwrap();
    assert_eq!(db.len(), 1);
    assert_eq!(db.get("start").unwrap().command, "node app.js");
    let empty = Database::from_package_json("{\"tasks\":{\"start\":\"node app.js\"}}").unwrap();
    assert_eq!(empty.len(), 0);
}

#[test]
fn literal_line_is_where_its_quote_opens() {
    // The name literal spans two lines; the diagnostic points at the line of
    // its opening quote.
    let source = "{\"tasks\":{\"a\nb\"}}";
    let err = Database::from_deno_json(source).unwrap_err();
    assert_eq!(err, ParseError::NoCommand(1, String::from("deno.json")));
}

#[test]
fn unquoted_content_between_key_and_brace_ignored() {
    let db = Database::from_deno_json("{\"tasks\" : junk {\"a\":\"b\"}}").unwrap();
    assert_eq!(db.len(), 1);
    assert_eq!(db.get("a").unwrap().command, "b");
}

#[test]
fn database_add_and_get() {
    let mut db = Database::new();
    assert!(db.add("build", Script::new("make")).is_ok());
    assert!(db.add("build", Script::new("ninja")).is_err());
    assert_eq!(db.get("build").unwrap().command, "make");
    assert!(db.get("missing").is_none());
    assert_eq!(db.len(), 1);
}
