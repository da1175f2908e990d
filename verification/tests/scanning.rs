use ast_grep_ffi::pipeline::{execute_request, prepare_scan, resolve_language, rule_source, Preparation, RuleSource};
use ast_grep_ffi::records::ScanRequest;
use serde_json::Value;

fn request(language: Option<&str>, rule_yaml: Option<&str>, files: Vec<&str>) -> ScanRequest {
    ScanRequest {
        language: language.map(|s| s.to_string()),
        rule_yaml: rule_yaml.map(|s| s.to_string()),
        inline_rule_yaml: None,
        rule_path: None,
        files: files.into_iter().map(|s| s.to_string()).collect(),
    }
}

fn reader(path: &'static str, text: &'static str) -> impl Fn(&String) -> Result<String, String> {
    move |p: &String| {
        if p == path {
            Ok(text.to_string())
        } else {
            Err(format!("cannot read {p}"))
        }
    }
}

const LUA_RULE: &str = r#"
id: lua-function
language: Lua
severity: info
rule:
  kind: function_declaration
metadata:
  symbol_kind: function
  container: false
message: "function"
"#;

const JS_RULE: &str = r#"
id: javascript-arrow-block
language: JavaScript
severity: info
rule:
  pattern:
    context: |
      const $NAME = ($$$PARAMS) => {
        $$$BODY
      }
    selector: variable_declarator
    strictness: signature
metadata:
  symbol_kind: function
  container: false
  name_capture: NAME
  params_capture: PARAMS
message: "function:$NAME"
"#;

#[test]
fn scans_lua_function_rule() {
    let source = "local function demo(value)\n  return value\nend\n";
    let req = request(Some("lua"), Some(LUA_RULE), vec!["demo.lua"]);
    let response = execute_request(&req, &reader("demo.lua", source));

    assert!(response.ok);
    assert_eq!(response.matches.len(), 1);
    assert_eq!(
        response.matches[0].metadata.get("symbol_kind").and_then(Value::as_str),
        Some("function")
    );
}

#[test]
fn exports_pattern_captures() {
    let source = "const run = (value) => { return value };\n";
    let req = request(Some("javascript"), Some(JS_RULE), vec!["run.js"]);
    let response = execute_request(&req, &reader("run.js", source));

    assert!(response.ok);
    assert_eq!(response.matches.len(), 1);
    assert!(response.matches[0].meta_variables.single.contains_key("NAME"));
}

#[test]
fn match_record_fields_follow_the_node() {
    let source = "local function demo(value)\n  return value\nend\n";
    let req = request(Some("lua"), Some(LUA_RULE), vec!["demo.lua"]);
    let response = execute_request(&req, &reader("demo.lua", source));
    let m = &response.matches[0];
    assert_eq!(m.rule_id, "lua-function");
    assert_eq!(m.file, "demo.lua");
    assert_eq!(m.text, m.lines);
    assert_eq!(m.text, "local function demo(value)\n  return value\nend");
    assert_eq!(m.node_kind, "function_declaration");
    assert_eq!(m.message, "function");
    assert_eq!(m.range.start.line, 0);
    assert_eq!(m.range.start.column, 0);
    assert_eq!(m.range.end_position.line, 2);
    assert_eq!(m.range.end_position.column, 3);
    assert_eq!(m.range.byte_offset.start, 0);
    assert_eq!(m.range.byte_offset.end_offset, 45);
    assert_eq!(m.metadata.get("container").and_then(Value::as_bool), Some(false));
    assert!(response.diagnostics.is_empty());
    assert!(response.error.is_none());
    assert!(response.message.is_none());
}

#[test]
fn captured_names_and_message_are_filled_in() {
    let source = "const run = (value) => { return value };\n";
    let req = request(Some("javascript"), Some(JS_RULE), vec!["run.js"]);
    let response = execute_request(&req, &reader("run.js", source));
    let m = &response.matches[0];
    assert_eq!(m.message, "function:run");
    assert_eq!(m.meta_variables.single.get("NAME").map(|c| c.text.as_str()), Some("run"));
    let params = m.meta_variables.multi.get("PARAMS").expect("PARAMS captured");
    assert!(params.iter().any(|c| c.text == "value"));
}

#[test]
fn unreadable_file_is_a_diagnostic_not_a_failure() {
    let source = "local function demo(value)\n  return value\nend\n";
    let req = request(Some("lua"), Some(LUA_RULE), vec!["missing.lua", "demo.lua"]);
    let response = execute_request(&req, &reader("demo.lua", source));
    assert!(response.ok);
    assert_eq!(response.matches.len(), 1);
    assert_eq!(response.diagnostics, vec!["file_read_failed:missing.lua:cannot read missing.lua".to_string()]);
}

#[test]
fn matches_are_sorted_by_file_then_position() {
    let source = "local function a()\nend\nlocal function b()\nend\n";
    let req = request(Some("lua"), Some(LUA_RULE), vec!["z.lua", "a.lua"]);
    let read = |p: &String| -> Result<String, String> {
        if p == "z.lua" || p == "a.lua" { Ok(source.to_string()) } else { Err("no".to_string()) }
    };
    let response = execute_request(&req, &read);
    assert_eq!(response.matches.len(), 4);
    let keys: Vec<(String, usize)> = response
        .matches
        .iter()
        .map(|m| (m.file.clone(), m.range.byte_offset.start))
        .collect();
    assert_eq!(keys, vec![
        ("a.lua".to_string(), 0),
        ("a.lua".to_string(), 23),
        ("z.lua".to_string(), 0),
        ("z.lua".to_string(), 23),
    ]);
}

#[test]
fn no_files_gives_a_diagnostic() {
    let req = request(Some("lua"), Some(LUA_RULE), vec![]);
    let response = execute_request(&req, &reader("x", "y"));
    assert!(response.ok);
    assert!(response.matches.is_empty());
    assert_eq!(response.diagnostics, vec!["no_files_requested".to_string()]);
}

#[test]
fn invalid_rule_yaml_is_fatal() {
    let req = request(Some("lua"), Some("rule: [unclosed"), vec!["demo.lua"]);
    let response = execute_request(&req, &reader("demo.lua", ""));
    assert!(!response.ok);
    assert_eq!(response.error.as_deref(), Some("invalid_rule_yaml"));
    assert!(response
        .message
        .as_deref()
        .unwrap()
        .starts_with("failed to parse ast-grep rule YAML: "));
    assert!(response.matches.is_empty());
    assert!(response.diagnostics.is_empty());
}

#[test]
fn yaml_without_rules_is_fatal() {
    let req = request(Some("lua"), Some("---\n"), vec!["demo.lua"]);
    match prepare_scan(&req, "---\n") {
        Preparation::Finished(response) => {
            assert_eq!(response.error.as_deref(), Some("empty_rule_yaml"));
            assert_eq!(response.message.as_deref(), Some("rule YAML did not contain any ast-grep rules"));
        }
        Preparation::Ready(_) => panic!("expected an early answer"),
    }
}

#[test]
fn unknown_language_hint_is_ignored_when_the_rule_names_one() {
    let req = request(Some("klingon"), Some(LUA_RULE), vec!["/no/such/file.lua"]);
    let response = execute_request(&req, &reader("demo.lua", ""));
    assert!(response.ok);
    assert!(response.error.is_none());
    assert!(response.matches.is_empty());
    assert_eq!(response.diagnostics.len(), 1);
    assert!(response.diagnostics[0].starts_with("file_read_failed:/no/such/file.lua:"));
}

#[test]
fn blank_language_falls_back_to_the_rule_language() {
    let source = "local function demo(value)\n  return value\nend\n";
    let req = request(Some("   "), Some(LUA_RULE), vec!["demo.lua"]);
    let response = execute_request(&req, &reader("demo.lua", source));
    assert!(response.ok);
    assert_eq!(response.matches.len(), 1);
}

#[test]
fn rule_language_wins_over_language_hint() {
    let req = request(Some("Python"), Some(LUA_RULE), vec!["demo.lua"]);
    match prepare_scan(&req, LUA_RULE) {
        Preparation::Ready(plan) => {
            assert_eq!(plan.language, ast_grep_language::SupportLang::Lua);
            assert_eq!(resolve_language(&req, &plan.rules).ok(), Some(ast_grep_language::SupportLang::Lua));
        }
        Preparation::Finished(_) => panic!("expected a plan"),
    }
    let source = "local function demo(value)\n  return value\nend\n";
    let response = execute_request(&req, &reader("demo.lua", source));
    assert!(response.ok);
    assert_eq!(response.matches.len(), 1);
}

#[test]
fn missing_rule_source_is_fatal() {
    let req = request(None, None, vec!["demo.lua"]);
    let response = execute_request(&req, &reader("demo.lua", ""));
    assert_eq!(response.error.as_deref(), Some("rule_yaml_missing"));
    assert_eq!(
        response.message.as_deref(),
        Some("request must provide ruleYaml, inlineRuleYaml, or rulePath")
    );
}

#[test]
fn rule_file_is_read_when_no_inline_yaml() {
    let source = "local function demo(value)\n  return value\nend\n";
    let mut req = request(Some("lua"), Some("  \n"), vec!["demo.lua"]);
    req.inline_rule_yaml = Some(LUA_RULE.to_string());
    req.rule_path = Some("rules.yml".to_string());
    let read = |p: &String| -> Result<String, String> {
        if p == "rules.yml" { Ok(LUA_RULE.to_string()) }
        else if p == "demo.lua" { Ok(source.to_string()) }
        else { Err("no".to_string()) }
    };
    let response = execute_request(&req, &read);
    assert!(response.ok);
    assert_eq!(response.matches.len(), 1);
}

#[test]
fn unreadable_rule_file_is_fatal() {
    let mut req = request(Some("lua"), None, vec!["demo.lua"]);
    req.rule_path = Some("rules.yml".to_string());
    let response = execute_request(&req, &reader("demo.lua", ""));
    assert_eq!(response.error.as_deref(), Some("rule_yaml_read_failed"));
    assert_eq!(
        response.message.as_deref(),
        Some("failed to read ast-grep rule YAML `rules.yml`: cannot read rules.yml")
    );
}

#[test]
fn rule_yaml_takes_precedence_over_inline_rule_yaml() {
    let mut req = request(None, Some("a"), vec![]);
    req.inline_rule_yaml = Some("b".to_string());
    req.rule_path = Some("c".to_string());
    match rule_source(&req) {
        Ok(RuleSource::Inline(text)) => assert_eq!(text, "a"),
        _ => panic!("expected inline yaml"),
    }
    req.rule_yaml = None;
    match rule_source(&req) {
        Ok(RuleSource::Inline(text)) => assert_eq!(text, "b"),
        _ => panic!("expected inline yaml"),
    }
    req.inline_rule_yaml = Some("\t".to_string());
    match rule_source(&req) {
        Ok(RuleSource::File(path)) => assert_eq!(path, "c"),
        _ => panic!("expected a rule file"),
    }
}

#[test]
fn columns_count_characters_and_offsets_count_bytes() {
    let source = "local a = 'é' local function f()\nend\n";
    let req = request(None, Some(LUA_RULE), vec!["wide.lua"]);
    let response = execute_request(&req, &reader("wide.lua", source));
    assert_eq!(response.matches.len(), 1);
    let m = &response.matches[0];
    assert_eq!(m.range.start.line, 0);
    assert_eq!(m.range.start.column, 14);
    assert_eq!(m.range.byte_offset.start, 15);
    assert_eq!(m.range.end_position.line, 1);
    assert_eq!(m.range.end_position.column, 3);
    assert_eq!(m.range.byte_offset.end_offset, source.len() - 1);
}

#[test]
fn the_order_of_the_file_list_does_not_change_the_matches() {
    let read = |p: &String| -> Result<String, String> {
        match p.as_str() {
            "one.lua" => Ok("local function a()\nend\n".to_string()),
            "two.lua" => Ok("local function b()\nend\nlocal function c()\nend\n".to_string()),
            _ => Err("no".to_string()),
        }
    };
    let forward = execute_request(&request(None, Some(LUA_RULE), vec!["one.lua", "two.lua", "gone.lua"]), &read);
    let backward = execute_request(&request(None, Some(LUA_RULE), vec!["gone.lua", "two.lua", "one.lua"]), &read);
    let summary = |r: &ast_grep_ffi::records::ScanResponse| -> Vec<(String, usize, String, String)> {
        r.matches
            .iter()
            .map(|m| (m.file.clone(), m.range.byte_offset.start, m.rule_id.clone(), m.text.clone()))
            .collect()
    };
    assert_eq!(summary(&forward).len(), 3);
    assert_eq!(summary(&forward), summary(&backward));
    assert_eq!(forward.diagnostics, backward.diagnostics);
}

#[test]
fn a_file_listed_twice_is_scanned_twice() {
    let source = "local function demo(value)\n  return value\nend\n";
    let req = request(None, Some(LUA_RULE), vec!["demo.lua", "demo.lua"]);
    let response = execute_request(&req, &reader("demo.lua", source));
    assert_eq!(response.matches.len(), 2);
    assert_eq!(response.matches[0].text, response.matches[1].text);
}

#[test]
fn invalid_rule_yaml_message_carries_the_parser_error() {
    let response = ast_grep_ffi::pipeline::rule_parse_failure("bad indentation");
    assert!(!response.ok);
    assert_eq!(response.error.as_deref(), Some("invalid_rule_yaml"));
    assert_eq!(response.message.as_deref(), Some("failed to parse ast-grep rule YAML: bad indentation"));
    assert!(response.matches.is_empty());
    assert!(response.diagnostics.is_empty());
}

#[test]
fn matches_of_one_rule_keep_the_order_of_the_tree() {
    let source = "local function a()\nend\nlocal function b()\nend\nlocal function c()\nend\n";
    let req = request(None, Some(LUA_RULE), vec!["abc.lua"]);
    let response = execute_request(&req, &reader("abc.lua", source));
    let starts: Vec<usize> = response.matches.iter().map(|m| m.range.byte_offset.start).collect();
    assert_eq!(starts, vec![0, 23, 46]);
}
