use ruster_env::{
    decimal_string, detect_shell, emit, emit_load, emit_unload, escape_single_quotes,
    missing_file_line, parse_env, run_overlay, EnvVar, Mode, ShellType,
};

fn var(key: &str, value: &str) -> EnvVar {
    EnvVar { key: key.to_string(), value: value.to_string() }
}

fn parsed(content: &str) -> Vec<EnvVar> {
    parse_env(content, &Vec::new()).vars
}

#[test]
fn test_load_output_cmd() {
    let vars = parsed("TEST_KEY=123");
    let lines = emit_load(&vars, ShellType::Cmd, false, false, &Vec::new());
    assert!(lines.iter().any(|l| l.contains("SET \"TEST_KEY=123\"")));
}

#[test]
fn test_load_output_powershell() {
    let vars = parsed("TEST_KEY=abc");
    let lines = emit_load(&vars, ShellType::Powershell, false, false, &Vec::new());
    assert!(lines.iter().any(|l| l.contains("$env:TEST_KEY = 'abc';")));
}

#[test]
fn test_unload_cmd() {
    let vars = parsed("TO_DELETE=true");
    let lines = emit_unload(&vars, ShellType::Cmd, false, &Vec::new());
    assert!(lines.iter().any(|l| l.contains("[Ruster] No active variables found")));
}

#[test]
fn test_run_ephemeral() {
    let vars = parsed("RUN_VAR=secret_value");
    let overlay = run_overlay(&vars, false, &Vec::new());
    assert_eq!(overlay.len(), 1);
    assert_eq!(overlay[0].key, "RUN_VAR");
    assert_eq!(overlay[0].value, "secret_value");
}

#[test]
fn test_run_no_overwrite() {
    let vars = parsed("PATH=NewPath");
    let ambient = vec![var("PATH", "/usr/bin")];
    let overlay = run_overlay(&vars, true, &ambient);
    assert!(overlay.iter().all(|v| v.value != "NewPath"));
    assert_eq!(run_overlay(&vars, false, &ambient).len(), 1);
}

#[test]
fn load_cmd_script_exactly() {
    let vars = vec![var("A", "1"), var("B", "x y")];
    let lines = emit_load(&vars, ShellType::Cmd, false, false, &Vec::new());
    assert_eq!(
        lines,
        vec!["@echo off", "SET \"A=1\"", "SET \"B=x y\"", "ECHO [Ruster] Loaded 2 variables"]
    );
}

#[test]
fn load_powershell_script_exactly() {
    let vars = vec![var("A", "1")];
    let lines = emit_load(&vars, ShellType::Powershell, true, false, &Vec::new());
    assert_eq!(
        lines,
        vec![
            "$env:A = '1';",
            "Write-Host '   + A' -ForegroundColor Gray;",
            "Write-Host '[Ruster] Loaded 1 variables' -ForegroundColor Green;",
        ]
    );
}

#[test]
fn load_no_overwrite_skips_set_keys() {
    let vars = vec![var("SET_ALREADY", "new"), var("FRESH", "v")];
    let ambient = vec![var("SET_ALREADY", "old")];
    let lines = emit_load(&vars, ShellType::Cmd, true, true, &ambient);
    assert_eq!(
        lines,
        vec![
            "@echo off",
            "ECHO    [SKIP] SET_ALREADY already exists",
            "SET \"FRESH=v\"",
            "ECHO    + FRESH",
            "ECHO [Ruster] Loaded variables (Safe Mode)",
        ]
    );
    let quiet = emit_load(&vars, ShellType::Powershell, false, true, &ambient);
    assert_eq!(
        quiet,
        vec![
            "$env:FRESH = 'v';",
            "Write-Host '[Ruster] Loaded variables (Safe Mode)' -ForegroundColor Green;",
        ]
    );
}

#[test]
fn powershell_doubles_single_quotes() {
    let vars = vec![var("Q", "it's")];
    let lines = emit_load(&vars, ShellType::Powershell, false, false, &Vec::new());
    assert_eq!(lines[0], "$env:Q = 'it''s';");
    assert_eq!(escape_single_quotes("''"), "''''");
    assert_eq!(escape_single_quotes("none"), "none");
}

#[test]
fn cmd_does_not_escape_quotes() {
    let vars = vec![var("Q", "it's")];
    let lines = emit_load(&vars, ShellType::Cmd, false, false, &Vec::new());
    assert_eq!(lines[1], "SET \"Q=it's\"");
}

#[test]
fn unload_clears_every_binding_and_counts_set_keys() {
    let vars = vec![var("A", "1"), var("B", "2"), var("C", "3")];
    let ambient = vec![var("B", "old")];
    let lines = emit_unload(&vars, ShellType::Powershell, false, &ambient);
    assert_eq!(
        lines,
        vec![
            "Remove-Item env:\\A -ErrorAction SilentlyContinue;",
            "Remove-Item env:\\B -ErrorAction SilentlyContinue;",
            "Remove-Item env:\\C -ErrorAction SilentlyContinue;",
            "Write-Host '[Ruster] Unloaded 1 variables' -ForegroundColor Yellow;",
        ]
    );
    let none = emit_unload(&vars, ShellType::Powershell, false, &Vec::new());
    assert_eq!(none.len(), 4);
    assert_eq!(
        none[3],
        "Write-Host '[Ruster] No active variables found to unload' -ForegroundColor DarkGray;"
    );
}

#[test]
fn unload_verbose_names_only_set_keys() {
    let vars = vec![var("A", "1"), var("B", "2")];
    let ambient = vec![var("A", "x"), var("B", "y")];
    let lines = emit_unload(&vars, ShellType::Cmd, true, &ambient);
    assert_eq!(
        lines,
        vec![
            "@echo off",
            "SET \"A=\"",
            "ECHO    - A",
            "SET \"B=\"",
            "ECHO    - B",
            "ECHO [Ruster] Unloaded 2 variables",
        ]
    );
}

#[test]
fn unload_twice_gives_the_same_script() {
    let vars = vec![var("A", "1"), var("B", "2")];
    let ambient = vec![var("A", "x")];
    let first = emit(&vars, ShellType::Cmd, Mode::Unload, true, false, &ambient);
    let second = emit(&vars, ShellType::Cmd, Mode::Unload, true, false, &ambient);
    assert_eq!(first, second);
}

#[test]
fn emit_dispatches_on_mode() {
    let vars = vec![var("A", "1")];
    let none: Vec<EnvVar> = Vec::new();
    assert_eq!(
        emit(&vars, ShellType::Cmd, Mode::Load, false, false, &none),
        emit_load(&vars, ShellType::Cmd, false, false, &none)
    );
    assert_eq!(
        emit(&vars, ShellType::Cmd, Mode::Unload, false, false, &none),
        emit_unload(&vars, ShellType::Cmd, false, &none)
    );
}

#[test]
fn empty_file_scripts() {
    let none: Vec<EnvVar> = Vec::new();
    assert_eq!(
        emit_load(&none, ShellType::Cmd, false, false, &none),
        vec!["@echo off", "ECHO [Ruster] Loaded 0 variables"]
    );
    assert_eq!(
        emit_unload(&none, ShellType::Cmd, false, &none),
        vec!["@echo off", "ECHO [Ruster] No active variables found to unload"]
    );
}

#[test]
fn decimal_notation() {
    assert_eq!(decimal_string(0), "0");
    assert_eq!(decimal_string(7), "7");
    assert_eq!(decimal_string(120), "120");
    assert_eq!(decimal_string(usize::MAX), usize::MAX.to_string());
}

#[test]
fn shell_detection_follows_ps_module_path() {
    assert_eq!(detect_shell(&vec![var("PSModulePath", "C:\\m")]), ShellType::Powershell);
    assert_eq!(detect_shell(&vec![var("PATH", "/bin")]), ShellType::Cmd);
}

#[test]
fn missing_file_warning() {
    assert_eq!(
        missing_file_line(ShellType::Cmd, "x.env"),
        "ECHO Could not find x.env to unload variables from."
    );
    assert_eq!(
        missing_file_line(ShellType::Powershell, "x.env"),
        "Write-Warning 'Could not find x.env to unload variables from.'"
    );
}

#[test]
fn run_overlay_keeps_file_order_and_duplicates() {
    let vars = vec![var("A", "1"), var("B", "2"), var("A", "3")];
    let overlay = run_overlay(&vars, true, &vec![var("B", "old")]);
    let got: Vec<(&str, &str)> =
        overlay.iter().map(|v| (v.key.as_str(), v.value.as_str())).collect();
    assert_eq!(got, vec![("A", "1"), ("A", "3")]);
}
