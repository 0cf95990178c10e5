//! Emission of PowerShell and cmd.exe code that loads or unloads bindings.
use vstd::prelude::*;
use crate::parser::{lookup, lookup_index, pairs, EnvVar};

verus! {

/// The shell whose syntax is emitted.
#[derive(Clone, Copy, PartialEq, Eq, Structural, Debug)]
pub enum ShellType {
    Powershell,
    Cmd,
}

/// Whether bindings are set or cleared.
#[derive(Clone, Copy, PartialEq, Eq, Structural, Debug)]
pub enum Mode {
    Load,
    Unload,
}

/// Whether `key` is set in `ambient`.
pub open spec fn present(ambient: Seq<(Seq<char>, Seq<char>)>, key: Seq<char>) -> bool {
    lookup(ambient, key) is Some
}

/// The text of each string.
pub open spec fn texts(v: Seq<String>) -> Seq<Seq<char>> {
    v.map_values(|s: String| s@)
}

/// The character of the decimal digit `d`.
pub open spec fn digit_char(d: nat) -> char {
    if d == 0 {
        '0'
    } else if d == 1 {
        '1'
    } else if d == 2 {
        '2'
    } else if d == 3 {
        '3'
    } else if d == 4 {
        '4'
    } else if d == 5 {
        '5'
    } else if d == 6 {
        '6'
    } else if d == 7 {
        '7'
    } else if d == 8 {
        '8'
    } else {
        '9'
    }
}

/// The decimal notation of `n`, without leading zeros.
pub open spec fn decimal(n: nat) -> Seq<char>
    decreases n,
{
    if n < 10 {
        seq![digit_char(n)]
    } else {
        decimal(n / 10).push(digit_char(n % 10))
    }
}

/// The contents of a PowerShell single-quoted literal for `v`: each `'` doubled.
pub open spec fn ps_escape(v: Seq<char>) -> Seq<char>
    decreases v.len(),
{
    if v.len() == 0 {
        Seq::empty()
    } else {
        (if v[0] == '\'' {
            seq!['\'', '\'']
        } else {
            seq![v[0]]
        }) + ps_escape(v.drop_first())
    }
}

/// The line that sets `key` to `value`.
pub open spec fn assign_line(shell: ShellType, key: Seq<char>, value: Seq<char>) -> Seq<char> {
    match shell {
        ShellType::Powershell => "$env:"@ + key + " = '"@ + ps_escape(value) + "';"@,
        ShellType::Cmd => "SET \""@ + key + "="@ + value + "\""@,
    }
}

/// The line that clears `key`.
pub open spec fn clear_line(shell: ShellType, key: Seq<char>) -> Seq<char> {
    match shell {
        ShellType::Powershell => "Remove-Item env:\\"@ + key + " -ErrorAction SilentlyContinue;"@,
        ShellType::Cmd => "SET \""@ + key + "=\""@,
    }
}

/// The verbose line for a binding left alone because `key` is already set.
pub open spec fn skip_line(shell: ShellType, key: Seq<char>) -> Seq<char> {
    match shell {
        ShellType::Powershell => "Write-Warning '   [SKIP] "@ + key + " already exists'; "@,
        ShellType::Cmd => "ECHO    [SKIP] "@ + key + " already exists"@,
    }
}

/// The verbose line for a binding that was set.
pub open spec fn added_line(shell: ShellType, key: Seq<char>) -> Seq<char> {
    match shell {
        ShellType::Powershell => "Write-Host '   + "@ + key + "' -ForegroundColor Gray;"@,
        ShellType::Cmd => "ECHO    + "@ + key + ""@,
    }
}

/// The verbose line for a binding that was set and is cleared.
pub open spec fn removed_line(shell: ShellType, key: Seq<char>) -> Seq<char> {
    match shell {
        ShellType::Powershell => "Write-Host '   - "@ + key + "' -ForegroundColor DarkGray;"@,
        ShellType::Cmd => "ECHO    - "@ + key + ""@,
    }
}

/// The summary of a load that set `n` variables.
pub open spec fn loaded_line(shell: ShellType, n: nat) -> Seq<char> {
    match shell {
        ShellType::Powershell => "Write-Host '[Ruster] Loaded "@ + decimal(n)
            + " variables' -ForegroundColor Green;"@,
        ShellType::Cmd => "ECHO [Ruster] Loaded "@ + decimal(n) + " variables"@,
    }
}

/// The summary of a load that left variables that were already set.
pub open spec fn safe_mode_line(shell: ShellType) -> Seq<char> {
    match shell {
        ShellType::Powershell => "Write-Host '[Ruster] Loaded variables (Safe Mode)' -ForegroundColor Green;"@,
        ShellType::Cmd => "ECHO [Ruster] Loaded variables (Safe Mode)"@,
    }
}

/// The summary of an unload that cleared `n > 0` variables that were set.
pub open spec fn unloaded_line(shell: ShellType, n: nat) -> Seq<char> {
    match shell {
        ShellType::Powershell => "Write-Host '[Ruster] Unloaded "@ + decimal(n)
            + " variables' -ForegroundColor Yellow;"@,
        ShellType::Cmd => "ECHO [Ruster] Unloaded "@ + decimal(n) + " variables"@,
    }
}

/// The summary of an unload where none of the variables was set.
pub open spec fn none_found_line(shell: ShellType) -> Seq<char> {
    match shell {
        ShellType::Powershell => "Write-Host '[Ruster] No active variables found to unload' -ForegroundColor DarkGray;"@,
        ShellType::Cmd => "ECHO [Ruster] No active variables found to unload"@,
    }
}

/// The lines that open a script: `@echo off` for cmd.exe, nothing for PowerShell.
pub open spec fn header(shell: ShellType) -> Seq<Seq<char>> {
    match shell {
        ShellType::Powershell => Seq::empty(),
        ShellType::Cmd => seq!["@echo off"@],
    }
}

/// The lines that one binding `b` gives under load.
pub open spec fn load_var_lines(
    shell: ShellType,
    b: (Seq<char>, Seq<char>),
    ambient: Seq<(Seq<char>, Seq<char>)>,
    verbose: bool,
    no_overwrite: bool,
) -> Seq<Seq<char>> {
    if no_overwrite && present(ambient, b.0) {
        if verbose {
            seq![skip_line(shell, b.0)]
        } else {
            Seq::empty()
        }
    } else if verbose {
        seq![assign_line(shell, b.0, b.1), added_line(shell, b.0)]
    } else {
        seq![assign_line(shell, b.0, b.1)]
    }
}

/// The lines that `vars` give under load, in order.
pub open spec fn load_body(
    shell: ShellType,
    vars: Seq<(Seq<char>, Seq<char>)>,
    ambient: Seq<(Seq<char>, Seq<char>)>,
    verbose: bool,
    no_overwrite: bool,
) -> Seq<Seq<char>>
    decreases vars.len(),
{
    if vars.len() == 0 {
        Seq::empty()
    } else {
        load_body(shell, vars.drop_last(), ambient, verbose, no_overwrite) + load_var_lines(
            shell,
            vars.last(),
            ambient,
            verbose,
            no_overwrite,
        )
    }
}

/// The summary line of a load.
pub open spec fn load_summary(shell: ShellType, n: nat, no_overwrite: bool) -> Seq<char> {
    if no_overwrite {
        safe_mode_line(shell)
    } else {
        loaded_line(shell, n)
    }
}

/// The whole script that loads `vars`.
pub open spec fn load_lines(
    shell: ShellType,
    vars: Seq<(Seq<char>, Seq<char>)>,
    ambient: Seq<(Seq<char>, Seq<char>)>,
    verbose: bool,
    no_overwrite: bool,
) -> Seq<Seq<char>> {
    header(shell) + load_body(shell, vars, ambient, verbose, no_overwrite) + seq![
        load_summary(shell, vars.len(), no_overwrite),
    ]
}

/// The lines that the binding of `key` gives under unload.
pub open spec fn unload_var_lines(
    shell: ShellType,
    key: Seq<char>,
    ambient: Seq<(Seq<char>, Seq<char>)>,
    verbose: bool,
) -> Seq<Seq<char>> {
    if verbose && present(ambient, key) {
        seq![clear_line(shell, key), removed_line(shell, key)]
    } else {
        seq![clear_line(shell, key)]
    }
}

/// The lines that `vars` give under unload, in order.
pub open spec fn unload_body(
    shell: ShellType,
    vars: Seq<(Seq<char>, Seq<char>)>,
    ambient: Seq<(Seq<char>, Seq<char>)>,
    verbose: bool,
) -> Seq<Seq<char>>
    decreases vars.len(),
{
    if vars.len() == 0 {
        Seq::empty()
    } else {
        unload_body(shell, vars.drop_last(), ambient, verbose) + unload_var_lines(
            shell,
            vars.last().0,
            ambient,
            verbose,
        )
    }
}

/// How many bindings of `vars` have a key that is set in `ambient`.
pub open spec fn present_count(
    vars: Seq<(Seq<char>, Seq<char>)>,
    ambient: Seq<(Seq<char>, Seq<char>)>,
) -> nat
    decreases vars.len(),
{
    if vars.len() == 0 {
        0
    } else {
        present_count(vars.drop_last(), ambient) + if present(ambient, vars.last().0) {
            1nat
        } else {
            0nat
        }
    }
}

/// The summary line of an unload that found `n` of its variables set.
pub open spec fn unload_summary(shell: ShellType, n: nat) -> Seq<char> {
    if n > 0 {
        unloaded_line(shell, n)
    } else {
        none_found_line(shell)
    }
}

/// The whole script that unloads `vars`.
pub open spec fn unload_lines(
    shell: ShellType,
    vars: Seq<(Seq<char>, Seq<char>)>,
    ambient: Seq<(Seq<char>, Seq<char>)>,
    verbose: bool,
) -> Seq<Seq<char>> {
    header(shell) + unload_body(shell, vars, ambient, verbose) + seq![
        unload_summary(shell, present_count(vars, ambient)),
    ]
}

/// The script for `mode`.
pub open spec fn emit_spec(
    shell: ShellType,
    mode: Mode,
    vars: Seq<(Seq<char>, Seq<char>)>,
    ambient: Seq<(Seq<char>, Seq<char>)>,
    verbose: bool,
    no_overwrite: bool,
) -> Seq<Seq<char>> {
    match mode {
        Mode::Load => load_lines(shell, vars, ambient, verbose, no_overwrite),
        Mode::Unload => unload_lines(shell, vars, ambient, verbose),
    }
}

/// The string `a` `b` `c`.
fn concat3(a: &str, b: &str, c: &str) -> (r: String)
    ensures
        r@ == a@ + b@ + c@,
{
    let mut r = String::from_str(a);
    r.append(b);
    r.append(c);
    r
}

/// Doubles each `'` of `v`, for the inside of a PowerShell single-quoted literal.
pub fn escape_single_quotes(v: &str) -> (r: String)
    ensures
        r@ == ps_escape(v@),
{
    let s = crate::text::chars_of(v);
    let n = s.len();
    let mut out: Vec<char> = Vec::new();
    let mut i: usize = 0;
    assert(s@.subrange(0, n as int) =~= s@);
    while i < n
        invariant
            i <= n == s.len(),
            s@ == v@,
            out@ + ps_escape(s@.subrange(i as int, n as int)) == ps_escape(v@),
        decreases n - i,
    {
        let ghost before = out@;
        let ghost rest = ps_escape(s@.subrange(i + 1, n as int));
        assert(s@.subrange(i as int, n as int).drop_first() =~= s@.subrange(i + 1, n as int));
        if s[i] == '\'' {
            out.push('\'');
            out.push('\'');
            assert(before + (seq!['\'', '\''] + rest) =~= out@ + rest);
        } else {
            out.push(s[i]);
            assert(before + (seq![s@[i as int]] + rest) =~= out@ + rest);
        }
        i = i + 1;
    }
    assert(out@ + ps_escape(s@.subrange(n as int, n as int)) =~= out@);
    let m = out.len();
    assert(out@.subrange(0, m as int) =~= out@);
    crate::text::string_of_range(&out, 0, m)
}

/// The character of the decimal digit `d`.
fn digit(d: usize) -> (r: char)
    requires
        d < 10,
    ensures
        r == digit_char(d as nat),
{
    if d == 0 {
        '0'
    } else if d == 1 {
        '1'
    } else if d == 2 {
        '2'
    } else if d == 3 {
        '3'
    } else if d == 4 {
        '4'
    } else if d == 5 {
        '5'
    } else if d == 6 {
        '6'
    } else if d == 7 {
        '7'
    } else if d == 8 {
        '8'
    } else {
        '9'
    }
}

/// The decimal digits of `n`.
fn decimal_chars(n: usize) -> (r: Vec<char>)
    ensures
        r@ == decimal(n as nat),
    decreases n,
{
    if n < 10 {
        let mut v: Vec<char> = Vec::new();
        v.push(digit(n));
        assert(v@ =~= seq![digit_char(n as nat)]);
        v
    } else {
        let mut v = decimal_chars(n / 10);
        v.push(digit(n % 10));
        v
    }
}

/// The decimal notation of `n`.
pub fn decimal_string(n: usize) -> (r: String)
    ensures
        r@ == decimal(n as nat),
{
    let v = decimal_chars(n);
    let m = v.len();
    assert(v@.subrange(0, m as int) =~= v@);
    crate::text::string_of_range(&v, 0, m)
}

/// Appends the line `l` to `out`.
pub(crate) fn push_line(out: &mut Vec<String>, l: String)
    ensures
        texts(final(out)@) == texts(old(out)@).push(l@),
{
    out.push(l);
    assert(texts(out@) =~= texts(old(out)@).push(l@));
}

/// The line that sets `key` to `value`.
fn assign_line_exec(shell: ShellType, key: &String, value: &String) -> (r: String)
    ensures
        r@ == assign_line(shell, key@, value@),
{
    match shell {
        ShellType::Powershell => {
            let esc = escape_single_quotes(value.as_str());
            let mut r = concat3("$env:", key.as_str(), " = '");
            r.append(esc.as_str());
            r.append("';");
            r
        },
        ShellType::Cmd => {
            let mut r = concat3("SET \"", key.as_str(), "=");
            r.append(value.as_str());
            r.append("\"");
            r
        },
    }
}

/// The line that clears `key`.
fn clear_line_exec(shell: ShellType, key: &String) -> (r: String)
    ensures
        r@ == clear_line(shell, key@),
{
    match shell {
        ShellType::Powershell => concat3(
            "Remove-Item env:\\",
            key.as_str(),
            " -ErrorAction SilentlyContinue;",
        ),
        ShellType::Cmd => concat3("SET \"", key.as_str(), "=\""),
    }
}

/// The verbose line for a key left alone.
fn skip_line_exec(shell: ShellType, key: &String) -> (r: String)
    ensures
        r@ == skip_line(shell, key@),
{
    match shell {
        ShellType::Powershell => concat3(
            "Write-Warning '   [SKIP] ",
            key.as_str(),
            " already exists'; ",
        ),
        ShellType::Cmd => concat3("ECHO    [SKIP] ", key.as_str(), " already exists"),
    }
}

/// The verbose line for a key that was set.
fn added_line_exec(shell: ShellType, key: &String) -> (r: String)
    ensures
        r@ == added_line(shell, key@),
{
    match shell {
        ShellType::Powershell => concat3(
            "Write-Host '   + ",
            key.as_str(),
            "' -ForegroundColor Gray;",
        ),
        ShellType::Cmd => concat3("ECHO    + ", key.as_str(), ""),
    }
}

/// The verbose line for a key that is cleared.
fn removed_line_exec(shell: ShellType, key: &String) -> (r: String)
    ensures
        r@ == removed_line(shell, key@),
{
    match shell {
        ShellType::Powershell => concat3(
            "Write-Host '   - ",
            key.as_str(),
            "' -ForegroundColor DarkGray;",
        ),
        ShellType::Cmd => concat3("ECHO    - ", key.as_str(), ""),
    }
}

/// The summary line of a load of `n` bindings.
fn load_summary_exec(shell: ShellType, n: usize, no_overwrite: bool) -> (r: String)
    ensures
        r@ == load_summary(shell, n as nat, no_overwrite),
{
    if no_overwrite {
        match shell {
            ShellType::Powershell => String::from_str(
                "Write-Host '[Ruster] Loaded variables (Safe Mode)' -ForegroundColor Green;",
            ),
            ShellType::Cmd => String::from_str("ECHO [Ruster] Loaded variables (Safe Mode)"),
        }
    } else {
        let d = decimal_string(n);
        match shell {
            ShellType::Powershell => concat3(
                "Write-Host '[Ruster] Loaded ",
                d.as_str(),
                " variables' -ForegroundColor Green;",
            ),
            ShellType::Cmd => concat3("ECHO [Ruster] Loaded ", d.as_str(), " variables"),
        }
    }
}

/// The summary line of an unload that found `n` keys set.
fn unload_summary_exec(shell: ShellType, n: usize) -> (r: String)
    ensures
        r@ == unload_summary(shell, n as nat),
{
    if n > 0 {
        let d = decimal_string(n);
        match shell {
            ShellType::Powershell => concat3(
                "Write-Host '[Ruster] Unloaded ",
                d.as_str(),
                " variables' -ForegroundColor Yellow;",
            ),
            ShellType::Cmd => concat3("ECHO [Ruster] Unloaded ", d.as_str(), " variables"),
        }
    } else {
        match shell {
            ShellType::Powershell => String::from_str(
                "Write-Host '[Ruster] No active variables found to unload' -ForegroundColor DarkGray;",
            ),
            ShellType::Cmd => String::from_str("ECHO [Ruster] No active variables found to unload"),
        }
    }
}

/// The opening lines of a script.
fn header_exec(shell: ShellType) -> (r: Vec<String>)
    ensures
        texts(r@) == header(shell),
{
    let mut out: Vec<String> = Vec::new();
    assert(texts(out@) =~= Seq::<Seq<char>>::empty());
    match shell {
        ShellType::Powershell => {},
        ShellType::Cmd => {
            push_line(&mut out, String::from_str("@echo off"));
            assert(texts(out@) =~= seq!["@echo off"@]);
        },
    }
    out
}

/// The script that loads `vars` into `shell`. With `no_overwrite`, a binding whose
/// key is set in `ambient` is left out (and named when `verbose`).
pub fn emit_load(
    vars: &Vec<EnvVar>,
    shell: ShellType,
    verbose: bool,
    no_overwrite: bool,
    ambient: &Vec<EnvVar>,
) -> (r: Vec<String>)
    ensures
        texts(r@) == load_lines(shell, pairs(vars@), pairs(ambient@), verbose, no_overwrite),
{
    let ghost amb = pairs(ambient@);
    let mut out = header_exec(shell);
    let mut i: usize = 0;
    assert(pairs(vars@.subrange(0, 0)) =~= Seq::empty());
    assert(texts(out@) =~= header(shell) + load_body(
        shell,
        pairs(vars@.subrange(0, 0)),
        amb,
        verbose,
        no_overwrite,
    ));
    while i < vars.len()
        invariant
            i <= vars.len(),
            amb == pairs(ambient@),
            texts(out@) == header(shell) + load_body(
                shell,
                pairs(vars@.subrange(0, i as int)),
                amb,
                verbose,
                no_overwrite,
            ),
        decreases vars.len() - i,
    {
        let ghost before = texts(out@);
        let key = &vars[i].key;
        let is_set = lookup_index(ambient, key).is_some();
        if no_overwrite && is_set {
            if verbose {
                push_line(&mut out, skip_line_exec(shell, key));
            }
        } else {
            push_line(&mut out, assign_line_exec(shell, key, &vars[i].value));
            if verbose {
                push_line(&mut out, added_line_exec(shell, key));
            }
        }
        let ghost p = pairs(vars@.subrange(0, i + 1));
        assert(p.drop_last() =~= pairs(vars@.subrange(0, i as int)));
        assert(p.last() == vars@[i as int]@);
        assert(texts(out@) =~= before + load_var_lines(
            shell,
            vars@[i as int]@,
            amb,
            verbose,
            no_overwrite,
        ));
        i = i + 1;
    }
    assert(vars@.subrange(0, i as int) =~= vars@);
    push_line(&mut out, load_summary_exec(shell, vars.len(), no_overwrite));
    out
}

/// The script that clears `vars` in `shell`: one clearing line per binding, and a
/// summary that counts the keys that are set in `ambient`.
pub fn emit_unload(
    vars: &Vec<EnvVar>,
    shell: ShellType,
    verbose: bool,
    ambient: &Vec<EnvVar>,
) -> (r: Vec<String>)
    ensures
        texts(r@) == unload_lines(shell, pairs(vars@), pairs(ambient@), verbose),
{
    let ghost amb = pairs(ambient@);
    let mut out = header_exec(shell);
    let mut count: usize = 0;
    let mut i: usize = 0;
    assert(pairs(vars@.subrange(0, 0)) =~= Seq::empty());
    assert(texts(out@) =~= header(shell) + unload_body(
        shell,
        pairs(vars@.subrange(0, 0)),
        amb,
        verbose,
    ));
    while i < vars.len()
        invariant
            i <= vars.len(),
            amb == pairs(ambient@),
            count <= i,
            count == present_count(pairs(vars@.subrange(0, i as int)), amb),
            texts(out@) == header(shell) + unload_body(
                shell,
                pairs(vars@.subrange(0, i as int)),
                amb,
                verbose,
            ),
        decreases vars.len() - i,
    {
        let ghost before = texts(out@);
        let key = &vars[i].key;
        let is_set = lookup_index(ambient, key).is_some();
        push_line(&mut out, clear_line_exec(shell, key));
        if is_set {
            count = count + 1;
            if verbose {
                push_line(&mut out, removed_line_exec(shell, key));
            }
        }
        let ghost p = pairs(vars@.subrange(0, i + 1));
        assert(p.drop_last() =~= pairs(vars@.subrange(0, i as int)));
        assert(p.last() == vars@[i as int]@);
        assert(texts(out@) =~= before + unload_var_lines(shell, vars@[i as int]@.0, amb, verbose));
        i = i + 1;
    }
    assert(vars@.subrange(0, i as int) =~= vars@);
    push_line(&mut out, unload_summary_exec(shell, count));
    out
}

/// The script for `mode`: `emit_load` or `emit_unload`.
pub fn emit(
    vars: &Vec<EnvVar>,
    shell: ShellType,
    mode: Mode,
    verbose: bool,
    no_overwrite: bool,
    ambient: &Vec<EnvVar>,
) -> (r: Vec<String>)
    ensures
        texts(r@) == emit_spec(shell, mode, pairs(vars@), pairs(ambient@), verbose, no_overwrite),
{
    match mode {
        Mode::Load => emit_load(vars, shell, verbose, no_overwrite, ambient),
        Mode::Unload => emit_unload(vars, shell, verbose, ambient),
    }
}

/// The bindings of `vars` that a child process gets: with `no_overwrite`, those
/// whose key is set in `ambient` are left out.
pub open spec fn overlay(
    vars: Seq<(Seq<char>, Seq<char>)>,
    ambient: Seq<(Seq<char>, Seq<char>)>,
    no_overwrite: bool,
) -> Seq<(Seq<char>, Seq<char>)>
    decreases vars.len(),
{
    if vars.len() == 0 {
        Seq::empty()
    } else {
        let prev = overlay(vars.drop_last(), ambient, no_overwrite);
        if no_overwrite && present(ambient, vars.last().0) {
            prev
        } else {
            prev.push(vars.last())
        }
    }
}

/// The bindings to set in the environment of a child process, in order.
pub fn run_overlay(vars: &Vec<EnvVar>, no_overwrite: bool, ambient: &Vec<EnvVar>) -> (r: Vec<
    EnvVar,
>)
    ensures
        pairs(r@) == overlay(pairs(vars@), pairs(ambient@), no_overwrite),
{
    let ghost amb = pairs(ambient@);
    let mut out: Vec<EnvVar> = Vec::new();
    let mut i: usize = 0;
    assert(pairs(vars@.subrange(0, 0)) =~= Seq::empty());
    assert(pairs(out@) =~= Seq::empty());
    while i < vars.len()
        invariant
            i <= vars.len(),
            amb == pairs(ambient@),
            pairs(out@) == overlay(pairs(vars@.subrange(0, i as int)), amb, no_overwrite),
        decreases vars.len() - i,
    {
        let ghost before = pairs(out@);
        let ghost p = pairs(vars@.subrange(0, i + 1));
        assert(p.drop_last() =~= pairs(vars@.subrange(0, i as int)));
        assert(p.last() == vars@[i as int]@);
        let is_set = lookup_index(ambient, &vars[i].key).is_some();
        if !(no_overwrite && is_set) {
            let e = EnvVar { key: vars[i].key.clone(), value: vars[i].value.clone() };
            out.push(e);
            assert(pairs(out@) =~= before.push(vars@[i as int]@));
        }
        i = i + 1;
    }
    assert(vars@.subrange(0, i as int) =~= vars@);
    out
}

/// The shell to emit for when none is given: PowerShell where `PSModulePath` is
/// set in `ambient`, cmd.exe otherwise.
pub fn detect_shell(ambient: &Vec<EnvVar>) -> (r: ShellType)
    ensures
        r == (if present(pairs(ambient@), "PSModulePath"@) {
            ShellType::Powershell
        } else {
            ShellType::Cmd
        }),
{
    let name = String::from_str("PSModulePath");
    if lookup_index(ambient, &name).is_some() {
        ShellType::Powershell
    } else {
        ShellType::Cmd
    }
}

/// The warning line for an unload whose file at `path` could not be read.
pub fn missing_file_line(shell: ShellType, path: &str) -> (r: String)
    ensures
        r@ == match shell {
            ShellType::Powershell => "Write-Warning 'Could not find "@ + path@
                + " to unload variables from.'"@,
            ShellType::Cmd => "ECHO Could not find "@ + path@ + " to unload variables from."@,
        },
{
    match shell {
        ShellType::Powershell => concat3(
            "Write-Warning 'Could not find ",
            path,
            " to unload variables from.'",
        ),
        ShellType::Cmd => concat3("ECHO Could not find ", path, " to unload variables from."),
    }
}

/// Reads the inside of a PowerShell single-quoted literal from the start of `s`,
/// where `''` stands for `'` and a lone `'` closes it: the value read, and what
/// follows the closing quote.
pub open spec fn read_single_quoted(s: Seq<char>) -> (Seq<char>, Seq<char>)
    decreases s.len(),
{
    if s.len() == 0 {
        (Seq::empty(), Seq::empty())
    } else if s[0] == '\'' {
        if s.len() >= 2 && s[1] == '\'' {
            let r = read_single_quoted(s.subrange(2, s.len() as int));
            (seq!['\''] + r.0, r.1)
        } else {
            (Seq::empty(), s.drop_first())
        }
    } else {
        let r = read_single_quoted(s.drop_first());
        (seq![s[0]] + r.0, r.1)
    }
}

/// Reading back an escaped value, closed by a `'` that no other `'` follows, gives
/// the value and stops at the closing quote.
pub proof fn lemma_ps_escape_round_trip(v: Seq<char>, rest: Seq<char>)
    requires
        rest.len() == 0 || rest[0] != '\'',
    ensures
        read_single_quoted(ps_escape(v) + seq!['\''] + rest) == (v, rest),
    decreases v.len(),
{
    let s = ps_escape(v) + seq!['\''] + rest;
    if v.len() == 0 {
        assert(s =~= seq!['\''] + rest);
        assert(s.drop_first() =~= rest);
    } else {
        lemma_ps_escape_round_trip(v.drop_first(), rest);
        let t = ps_escape(v.drop_first()) + seq!['\''] + rest;
        if v[0] == '\'' {
            assert(s =~= seq!['\'', '\''] + t);
            assert(s.subrange(2, s.len() as int) =~= t);
        } else {
            assert(s =~= seq![v[0]] + t);
            assert(s.drop_first() =~= t);
        }
        assert(seq![v[0]] + v.drop_first() =~= v);
    }
}

/// A PowerShell assignment line, read from its opening quote, gives back the value.
pub proof fn lemma_ps_assign_round_trip(key: Seq<char>, value: Seq<char>)
    ensures
        ({
            let line = assign_line(ShellType::Powershell, key, value);
            let start = ("$env:"@ + key + " = '"@).len() as int;
            read_single_quoted(line.subrange(start, line.len() as int)) == (value, seq![';'])
        }),
{
    reveal_strlit("';");
    let line = assign_line(ShellType::Powershell, key, value);
    let p = "$env:"@ + key + " = '"@;
    assert("';"@ =~= seq!['\'', ';']);
    assert(line.subrange(p.len() as int, line.len() as int) =~= ps_escape(value) + seq!['\'']
        + seq![';']);
    lemma_ps_escape_round_trip(value, seq![';']);
}

/// Without verbose lines, unload clears each binding once, in order, whatever
/// `ambient` holds; its count is the number of bindings whose key is set there.
pub proof fn lemma_unload_clears_each(
    shell: ShellType,
    vars: Seq<(Seq<char>, Seq<char>)>,
    ambient: Seq<(Seq<char>, Seq<char>)>,
)
    ensures
        unload_body(shell, vars, ambient, false) == Seq::new(
            vars.len(),
            |i: int| clear_line(shell, vars[i].0),
        ),
        present_count(vars, ambient) == vars.filter(
            |b: (Seq<char>, Seq<char>)| present(ambient, b.0),
        ).len(),
    decreases vars.len(),
{
    if vars.len() > 0 {
        lemma_unload_clears_each(shell, vars.drop_last(), ambient);
        assert(unload_body(shell, vars, ambient, false) =~= Seq::new(
            vars.len(),
            |i: int| clear_line(shell, vars[i].0),
        ));
        reveal_with_fuel(Seq::filter, 1);
    }
}

/// With verbose lines, unload still opens the lines of each binding with the line
/// that clears it, and adds one more line exactly for a key that is set.
pub proof fn lemma_unload_verbose_lines(
    shell: ShellType,
    key: Seq<char>,
    ambient: Seq<(Seq<char>, Seq<char>)>,
)
    ensures
        unload_var_lines(shell, key, ambient, true)[0] == clear_line(shell, key),
        unload_var_lines(shell, key, ambient, true).len() == if present(ambient, key) {
            2int
        } else {
            1int
        },
{
}

/// Unloading twice against the same ambient environment, or any with the same keys
/// set, gives the same script.
pub proof fn lemma_unload_idempotent(
    shell: ShellType,
    vars: Seq<(Seq<char>, Seq<char>)>,
    a1: Seq<(Seq<char>, Seq<char>)>,
    a2: Seq<(Seq<char>, Seq<char>)>,
    verbose: bool,
)
    requires
        forall|k: Seq<char>| present(a1, k) == present(a2, k),
    ensures
        unload_lines(shell, vars, a1, verbose) == unload_lines(shell, vars, a2, verbose),
{
    lemma_unload_same_presence(shell, vars, a1, a2, verbose);
}

proof fn lemma_unload_same_presence(
    shell: ShellType,
    vars: Seq<(Seq<char>, Seq<char>)>,
    a1: Seq<(Seq<char>, Seq<char>)>,
    a2: Seq<(Seq<char>, Seq<char>)>,
    verbose: bool,
)
    requires
        forall|k: Seq<char>| present(a1, k) == present(a2, k),
    ensures
        unload_body(shell, vars, a1, verbose) == unload_body(shell, vars, a2, verbose),
        present_count(vars, a1) == present_count(vars, a2),
    decreases vars.len(),
{
    if vars.len() > 0 {
        lemma_unload_same_presence(shell, vars.drop_last(), a1, a2, verbose);
        assert(present(a1, vars.last().0) == present(a2, vars.last().0));
    }
}

} // verus!
