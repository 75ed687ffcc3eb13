//! The decisions of the `groot` command-line tool: which command to run,
//! the `--target` and `--device` flags, project names, the Cargo invocations
//! of `run` and `build`, the output of `adb devices -l`, and which Android
//! device to deploy to.
use vstd::prelude::*;

use crate::text::{chars_of, copy_str, is_space, split_lines, split_words, starts_with_chars, str_eq, string_of, trim, trim_bounds, words_of, lines_of};

verus! {

/// The views of a list of arguments.
pub open spec fn arg_views(args: Seq<String>) -> Seq<Seq<char>> {
    args.map_values(|a: String| a@)
}

// ---------------------------------------------------------------------------
// Commands
// ---------------------------------------------------------------------------

/// The command named by the first argument after the program name.
pub enum CliCommand {
    Help,
    Version,
    Info,
    New,
    Run,
    Build,
    Plugin,
    Unknown(String),
}

/// `r` is the command that argument `a` names: `new`, `run`, `build`,
/// `plugin`, `info` name their command; `help`, `--help`, `-h` ask for help;
/// `version`, `--version`, `-V` for the version; anything else is unknown.
pub open spec fn names_command(a: Seq<char>, r: CliCommand) -> bool {
    if a == "new"@ {
        r is New
    } else if a == "run"@ {
        r is Run
    } else if a == "build"@ {
        r is Build
    } else if a == "plugin"@ {
        r is Plugin
    } else if a == "info"@ {
        r is Info
    } else if a == "help"@ || a == "--help"@ || a == "-h"@ {
        r is Help
    } else if a == "version"@ || a == "--version"@ || a == "-V"@ {
        r is Version
    } else {
        r matches CliCommand::Unknown(s) && s@ == a
    }
}

/// Reads the command from the full argument list, program name first; with
/// no command, help is shown.
pub fn parse_command(args: &[String]) -> (r: CliCommand)
    ensures
        args@.len() < 2 ==> r is Help,
        args@.len() >= 2 ==> names_command(args@[1]@, r),
{
    if args.len() < 2 {
        return CliCommand::Help;
    }
    let a = args[1].as_str();
    if str_eq(a, "new") {
        CliCommand::New
    } else if str_eq(a, "run") {
        CliCommand::Run
    } else if str_eq(a, "build") {
        CliCommand::Build
    } else if str_eq(a, "plugin") {
        CliCommand::Plugin
    } else if str_eq(a, "info") {
        CliCommand::Info
    } else if str_eq(a, "help") || str_eq(a, "--help") || str_eq(a, "-h") {
        CliCommand::Help
    } else if str_eq(a, "version") || str_eq(a, "--version") || str_eq(a, "-V") {
        CliCommand::Version
    } else {
        CliCommand::Unknown(copy_str(a))
    }
}

// ---------------------------------------------------------------------------
// Flags
// ---------------------------------------------------------------------------

/// Index of the value of the first flag at or after `from` that is `a` or
/// `b` and is followed by another argument.
pub open spec fn flag_value_index(args: Seq<Seq<char>>, a: Seq<char>, b: Seq<char>, from: int) -> Option<int>
    decreases args.len() - from,
{
    if from < 0 || from >= args.len() {
        None
    } else if (args[from] == a || args[from] == b) && from + 1 < args.len() {
        Some(from + 1)
    } else {
        flag_value_index(args, a, b, from + 1)
    }
}

fn find_flag_value(args: &[String], a: &str, b: &str) -> (r: Option<usize>)
    ensures
        match r {
            Some(i) => flag_value_index(arg_views(args@), a@, b@, 0) == Some(i as int) && i < args@.len(),
            None => flag_value_index(arg_views(args@), a@, b@, 0) is None,
        },
{
    let ghost views = arg_views(args@);
    let mut i: usize = 0;
    while i < args.len()
        invariant
            i <= args@.len(),
            views == arg_views(args@),
            flag_value_index(views, a@, b@, 0) == flag_value_index(views, a@, b@, i as int),
        decreases args.len() - i,
    {
        let arg = args[i].as_str();
        if (str_eq(arg, a) || str_eq(arg, b)) && i + 1 < args.len() {
            return Some(i + 1);
        }
        i = i + 1;
    }
    None
}

/// The value of `--target` (`"desktop"` when it is not given).
pub open spec fn target_of(args: Seq<Seq<char>>) -> Seq<char> {
    match flag_value_index(args, "--target"@, "--target"@, 0) {
        Some(i) => args[i],
        None => "desktop"@,
    }
}

/// The value of the first `--target` flag, `"desktop"` by default.
pub fn parse_target(args: &[String]) -> (r: &str)
    ensures
        r@ == target_of(arg_views(args@)),
{
    match find_flag_value(args, "--target", "--target") {
        Some(i) => args[i].as_str(),
        None => "desktop",
    }
}

/// The value of `--device` or `-d`.
pub open spec fn device_arg_of(args: Seq<Seq<char>>) -> Option<Seq<char>> {
    match flag_value_index(args, "--device"@, "-d"@, 0) {
        Some(i) => Some(args[i]),
        None => None,
    }
}

/// The value of the first `--device` or `-d` flag.
pub fn parse_device_arg(args: &[String]) -> (r: Option<String>)
    ensures
        match r {
            Some(s) => device_arg_of(arg_views(args@)) == Some(s@),
            None => device_arg_of(arg_views(args@)) is None,
        },
{
    match find_flag_value(args, "--device", "-d") {
        Some(i) => Some(copy_str(args[i].as_str())),
        None => None,
    }
}

// ---------------------------------------------------------------------------
// Project names and numbers
// ---------------------------------------------------------------------------

/// An ASCII letter or digit, `-`, `_` or `.`.
pub open spec fn is_name_char(c: char) -> bool {
    ('a' <= c <= 'z') || ('A' <= c <= 'Z') || ('0' <= c <= '9') || c == '-' || c == '_' || c == '.'
}

/// A project name: not empty, made of ASCII letters, digits, `-`, `_` and `.`.
pub open spec fn valid_project_name(name: Seq<char>) -> bool {
    name.len() > 0 && forall|i: int| 0 <= i < name.len() ==> is_name_char(#[trigger] name[i])
}

/// Which names `groot new` accepts: every non-empty name made of ASCII
/// letters of either case, digits, `-`, `_` and `.`, and no name with any
/// other character or no character at all; joining two accepted names gives
/// an accepted name.
pub proof fn law_project_names(name: Seq<char>, other: Seq<char>)
    ensures
        name.len() > 0 && (forall|i: int| 0 <= i < name.len() ==> {
            let c = #[trigger] name[i];
            ('A' <= c && c <= 'Z') || ('a' <= c && c <= 'z') || ('0' <= c && c <= '9') || c == '-' || c == '_' || c == '.'
        }) ==> valid_project_name(name),
        (exists|i: int| 0 <= i < name.len() && {
            let c = #[trigger] name[i];
            !(('A' <= c && c <= 'Z') || ('a' <= c && c <= 'z') || ('0' <= c && c <= '9') || c == '-' || c == '_' || c == '.')
        }) ==> !valid_project_name(name),
        !valid_project_name(Seq::<char>::empty()),
        valid_project_name(name) && valid_project_name(other) ==> valid_project_name(name + other),
{
    if valid_project_name(name) && valid_project_name(other) {
        let j = name + other;
        assert forall|i: int| 0 <= i < j.len() implies is_name_char(#[trigger] j[i]) by {
            if i < name.len() {
                assert(j[i] == name[i]);
            } else {
                assert(j[i] == other[i - name.len()]);
            }
        }
    }
}

pub fn is_valid_project_name(name: &str) -> (r: bool)
    ensures
        r == valid_project_name(name@),
{
    let v = chars_of(name);
    if v.len() == 0 {
        return false;
    }
    let mut i: usize = 0;
    while i < v.len()
        invariant
            i <= v.len(),
            v@ == name@,
            forall|j: int| 0 <= j < i ==> is_name_char(#[trigger] name@[j]),
        decreases v.len() - i,
    {
        let c = v[i];
        if !(('a' <= c && c <= 'z') || ('A' <= c && c <= 'Z') || ('0' <= c && c <= '9') || c == '-' || c == '_' || c == '.') {
            return false;
        }
        i = i + 1;
    }
    true
}

/// The number written by the decimal digits `d`.
pub open spec fn digits_value(d: Seq<char>) -> int
    decreases d.len(),
{
    if d.len() == 0 {
        0
    } else {
        digits_value(d.drop_last()) * 10 + (d.last() as int - '0' as int)
    }
}

pub open spec fn all_digits(d: Seq<char>) -> bool {
    forall|i: int| 0 <= i < d.len() ==> '0' <= #[trigger] d[i] <= '9'
}

/// The digits of an unsigned decimal, after an optional `+`.
pub open spec fn unsigned_digits(s: Seq<char>) -> Seq<char> {
    if s.len() > 0 && s[0] == '+' {
        s.drop_first()
    } else {
        s
    }
}

/// What `str::parse::<usize>` gives: an optional `+`, then one or more ASCII
/// digits whose value fits a `usize`.
pub open spec fn parsed_usize(s: Seq<char>) -> Option<int> {
    let d = unsigned_digits(s);
    if d.len() > 0 && all_digits(d) && digits_value(d) <= usize::MAX {
        Some(digits_value(d))
    } else {
        None
    }
}

proof fn lemma_digits_prefix(d: Seq<char>, k: int)
    requires
        0 <= k <= d.len(),
        all_digits(d),
    ensures
        0 <= digits_value(d.subrange(0, k)) <= digits_value(d),
    decreases d.len() - k,
{
    if k == d.len() {
        assert(d.subrange(0, k) =~= d);
        lemma_digits_nonneg(d);
    } else {
        lemma_digits_prefix(d, k + 1);
        let p = d.subrange(0, k + 1);
        assert(p.drop_last() =~= d.subrange(0, k));
        assert(all_digits(d.subrange(0, k))) by {
            assert forall|i: int| 0 <= i < k implies '0' <= #[trigger] d.subrange(0, k)[i] <= '9' by {
                assert(d.subrange(0, k)[i] == d[i]);
            }
        }
        lemma_digits_nonneg(d.subrange(0, k));
    }
}

proof fn lemma_digits_nonneg(d: Seq<char>)
    requires
        all_digits(d),
    ensures
        digits_value(d) >= 0,
    decreases d.len(),
{
    if d.len() > 0 {
        assert(all_digits(d.drop_last())) by {
            assert forall|i: int| 0 <= i < d.len() - 1 implies '0' <= #[trigger] d.drop_last()[i] <= '9' by {
                assert(d.drop_last()[i] == d[i]);
            }
        }
        lemma_digits_nonneg(d.drop_last());
        assert('0' <= d[d.len() - 1] <= '9');
    }
}

/// Parses an unsigned decimal the way `str::parse::<usize>` does.
pub fn parse_usize(s: &str) -> (r: Option<usize>)
    ensures
        match r {
            Some(n) => parsed_usize(s@) == Some(n as int),
            None => parsed_usize(s@) is None,
        },
{
    let v = chars_of(s);
    let start: usize = if v.len() > 0 && v[0] == '+' { 1 } else { 0 };
    let ghost d = unsigned_digits(s@);
    assert(d =~= v@.subrange(start as int, v.len() as int));
    if start >= v.len() {
        return None;
    }
    let mut value: usize = 0;
    let mut i = start;
    while i < v.len()
        invariant
            start <= i <= v.len(),
            v@ == s@,
            d == unsigned_digits(s@),
            d =~= v@.subrange(start as int, v.len() as int),
            all_digits(d.subrange(0, i - start)),
            value as int == digits_value(d.subrange(0, i - start)),
        decreases v.len() - i,
    {
        let c = v[i];
        if !('0' <= c && c <= '9') {
            assert(d[i - start] == c);
            assert(!all_digits(d));
            return None;
        }
        let digit = (c as u32 - '0' as u32) as usize;
        let ghost p = d.subrange(0, i - start + 1);
        assert(p.drop_last() =~= d.subrange(0, i - start));
        assert(p.last() == c);
        assert(digits_value(p) == value * 10 + digit);
        assert(all_digits(p)) by {
            assert forall|j: int| 0 <= j < p.len() implies '0' <= #[trigger] p[j] <= '9' by {
                if j < i - start {
                    assert(p[j] == d.subrange(0, i - start)[j]);
                }
            }
        }
        match value.checked_mul(10) {
            Some(m) => match m.checked_add(digit) {
                Some(n) => {
                    value = n;
                },
                None => {
                    proof {
                        lemma_overflow_means_none(d, i - start + 1);
                    }
                    return None;
                },
            },
            None => {
                proof {
                    lemma_digits_nonneg(d.subrange(0, i - start));
                    lemma_overflow_means_none(d, i - start + 1);
                }
                return None;
            },
        }
        i = i + 1;
    }
    assert(d.subrange(0, i - start) =~= d);
    Some(value)
}

/// A digit prefix that is already too large makes the whole parse fail.
proof fn lemma_overflow_means_none(d: Seq<char>, k: int)
    requires
        0 < k <= d.len(),
        all_digits(d.subrange(0, k)),
        digits_value(d.subrange(0, k)) > usize::MAX,
    ensures
        !(all_digits(d) && digits_value(d) <= usize::MAX),
{
    if all_digits(d) {
        lemma_digits_prefix(d, k);
    }
}

// ---------------------------------------------------------------------------
// Cargo invocations
// ---------------------------------------------------------------------------

/// A Cargo invocation: its arguments.
pub struct CargoPlan {
    pub args: Vec<String>,
}

/// The Cargo arguments of `groot run` for a target. Android runs go through
/// `cargo apk` on the library target (`--lib`, since the APK needs a `cdylib`
/// entry point) and, when a device was chosen, point it at that device with
/// `--device <serial>`.
pub open spec fn run_args(target: Seq<char>, serial: Option<Seq<char>>) -> Option<Seq<Seq<char>>> {
    if target == "android"@ {
        let base = seq!["apk"@, "run"@, "--lib"@, "--target"@, "aarch64-linux-android"@];
        match serial {
            Some(s) => Some(base + seq!["--device"@, s]),
            None => Some(base),
        }
    } else if target == "desktop"@ {
        Some(seq!["run"@])
    } else {
        None
    }
}

/// The Cargo arguments of `groot build` for a target; Android builds go
/// through `cargo apk` on the library target.
pub open spec fn build_args(target: Seq<char>) -> Option<Seq<Seq<char>>> {
    if target == "android"@ {
        Some(seq!["apk"@, "build"@, "--lib"@, "--target"@, "aarch64-linux-android"@, "--release"@])
    } else if target == "desktop"@ {
        Some(seq!["build"@, "--release"@])
    } else {
        None
    }
}

fn strings_of(items: &[&str]) -> (r: Vec<String>)
    ensures
        r@.map_values(|s: String| s@) == items@.map_values(|s: &str| s@),
{
    let mut r: Vec<String> = Vec::new();
    let mut i: usize = 0;
    while i < items.len()
        invariant
            i <= items@.len(),
            r@.map_values(|s: String| s@) =~= items@.subrange(0, i as int).map_values(|s: &str| s@),
        decreases items.len() - i,
    {
        assert(items@.subrange(0, i + 1) =~= items@.subrange(0, i as int).push(items@[i as int]));
        let ghost before = r@;
        r.push(copy_str(items[i]));
        assert(r@.map_values(|s: String| s@) =~= before.map_values(|s: String| s@).push(items@[i as int]@));
        i = i + 1;
    }
    assert(items@.subrange(0, i as int) =~= items@);
    r
}

/// The Cargo invocation of `groot run --target <target>`, aimed at the chosen
/// device on Android; `None` for an unknown target.
pub fn run_plan(target: &str, serial: Option<String>) -> (r: Option<CargoPlan>)
    ensures
        run_args(target@, match serial { Some(s) => Some(s@), None => None }) is None <==> r is None,
        r matches Some(p) ==> Some(p.args@.map_values(|s: String| s@)) == run_args(
            target@,
            match serial { Some(s) => Some(s@), None => None },
        ),
{
    if str_eq(target, "android") {
        let mut args = strings_of(&["apk", "run", "--lib", "--target", "aarch64-linux-android"]);
        let ghost base = seq!["apk"@, "run"@, "--lib"@, "--target"@, "aarch64-linux-android"@];
        assert(args@.map_values(|s: String| s@) =~= base);
        match serial {
            Some(s) => {
                let ghost sv = s@;
                args.push(copy_str("--device"));
                args.push(s);
                assert(args@.map_values(|s: String| s@) =~= base + seq!["--device"@, sv]);
            },
            None => {},
        }
        Some(CargoPlan { args })
    } else if str_eq(target, "desktop") {
        let args = strings_of(&["run"]);
        assert(args@.map_values(|s: String| s@) =~= seq!["run"@]);
        Some(CargoPlan { args })
    } else {
        None
    }
}

/// The Cargo invocation of `groot build --target <target>`; `None` for an
/// unknown target.
pub fn build_plan(target: &str) -> (r: Option<CargoPlan>)
    ensures
        build_args(target@) is None <==> r is None,
        r matches Some(p) ==> Some(p.args@.map_values(|s: String| s@)) == build_args(target@),
{
    if str_eq(target, "android") {
        let args = strings_of(&["apk", "build", "--lib", "--target", "aarch64-linux-android", "--release"]);
        assert(args@.map_values(|s: String| s@) =~= seq!["apk"@, "build"@, "--lib"@, "--target"@, "aarch64-linux-android"@, "--release"@]);
        Some(CargoPlan { args })
    } else if str_eq(target, "desktop") {
        let args = strings_of(&["build", "--release"]);
        assert(args@.map_values(|s: String| s@) =~= seq!["build"@, "--release"@]);
        Some(CargoPlan { args })
    } else {
        None
    }
}

// ---------------------------------------------------------------------------
// `adb devices -l`
// ---------------------------------------------------------------------------

/// An Android device reported by `adb devices -l`.
#[derive(Debug, Clone)]
pub struct AdbDevice {
    pub serial: String,
    pub model: String,
}

pub open spec fn device_view(d: AdbDevice) -> (Seq<char>, Seq<char>) {
    (d.serial@, d.model@)
}

/// `s` begins with `prefix`.
pub open spec fn has_prefix(s: Seq<char>, prefix: Seq<char>) -> bool {
    prefix.len() <= s.len() && s.subrange(0, prefix.len() as int) == prefix
}

/// The model named by the last word of `words` that starts with `model:`
/// (empty when there is none).
pub open spec fn model_of(words: Seq<Seq<char>>) -> Seq<char>
    decreases words.len(),
{
    if words.len() == 0 {
        seq![]
    } else if has_prefix(words.last(), "model:"@) {
        words.last().subrange("model:"@.len() as int, words.last().len() as int)
    } else {
        model_of(words.drop_last())
    }
}

/// The device on one line of `adb devices -l`: on a line that, trimmed, is
/// neither empty nor the `List of devices attached` header, and whose second
/// word is `device`, the first word is the serial and the model is the one
/// given by a `model:` word, or the serial when none is.
pub open spec fn device_on_line(line: Seq<char>) -> Option<(Seq<char>, Seq<char>)> {
    let t = trim(line);
    if t.len() == 0 || has_prefix(t, "List of devices attached"@) {
        None
    } else {
        let w = words_of(t);
        if w.len() >= 2 && w[1] == "device"@ {
            let m = model_of(w.subrange(2, w.len() as int));
            Some((w[0], if m.len() == 0 { w[0] } else { m }))
        } else {
            None
        }
    }
}

/// The devices on `lines`, in order.
pub open spec fn devices_in(lines: Seq<Seq<char>>) -> Seq<(Seq<char>, Seq<char>)>
    decreases lines.len(),
{
    if lines.len() == 0 {
        seq![]
    } else {
        match device_on_line(lines[0]) {
            Some(d) => seq![d] + devices_in(lines.drop_first()),
            None => devices_in(lines.drop_first()),
        }
    }
}

fn sub_chars(v: &Vec<char>, from: usize, to: usize) -> (r: Vec<char>)
    requires
        from <= to <= v.len(),
    ensures
        r@ == v@.subrange(from as int, to as int),
{
    let mut r: Vec<char> = Vec::new();
    let mut i = from;
    while i < to
        invariant
            from <= i <= to <= v.len(),
            r@ =~= v@.subrange(from as int, i as int),
        decreases to - i,
    {
        r.push(v[i]);
        i = i + 1;
    }
    r
}

fn device_from_line(line: &Vec<char>, header: &Vec<char>, tag: &Vec<char>) -> (r: Option<AdbDevice>)
    requires
        header@ == "List of devices attached"@,
        tag@ == "model:"@,
    ensures
        match r {
            Some(d) => device_on_line(line@) == Some(device_view(d)),
            None => device_on_line(line@) is None,
        },
{
    let (a, b) = trim_bounds(line, 0, line.len());
    assert(line@.subrange(0, line.len() as int) =~= line@);
    let t = sub_chars(line, a, b);
    if t.len() == 0 || starts_with_chars(&t, 0, header) {
        return None;
    }
    let words = split_words(&t, 0, t.len());
    assert(t@.subrange(0, t.len() as int) =~= t@);
    let ghost w = words@.map_values(|x: Vec<char>| x@);
    if words.len() < 2 {
        return None;
    }
    let second = string_of(&words[1]);
    if !str_eq(second.as_str(), "device") {
        assert(w[1] == words@[1]@);
        return None;
    }
    let serial = string_of(&words[0]);
    let mut model: Vec<char> = Vec::new();
    let mut j: usize = 2;
    assert(w.subrange(2, 2) =~= Seq::<Seq<char>>::empty());
    while j < words.len()
        invariant
            2 <= j <= words.len(),
            tag@ == "model:"@,
            w == words@.map_values(|x: Vec<char>| x@),
            model@ == model_of(w.subrange(2, j as int)),
        decreases words.len() - j,
    {
        let ghost sub = w.subrange(2, j + 1);
        assert(sub.last() == words@[j as int]@);
        assert(sub.drop_last() =~= w.subrange(2, j as int));
        if starts_with_chars(&words[j], 0, tag) {
            model = sub_chars(&words[j], tag.len(), words[j].len());
        }
        j = j + 1;
    }
    assert(w.subrange(2, w.len() as int) =~= w.subrange(2, j as int));
    assert(w[0] == words@[0]@);
    let model = if model.len() == 0 { string_of(&words[0]) } else { string_of(&model) };
    Some(AdbDevice { serial, model })
}

/// The online devices listed in the output of `adb devices -l`.
pub fn parse_adb_devices(output: &str) -> (r: Vec<AdbDevice>)
    ensures
        r@.map_values(|d: AdbDevice| device_view(d)) == devices_in(lines_of(output@)),
{
    let v = chars_of(output);
    let lines = split_lines(&v);
    let ghost ls = lines@.map_values(|l: Vec<char>| l@);
    let header = chars_of("List of devices attached");
    let tag = chars_of("model:");
    let mut r: Vec<AdbDevice> = Vec::new();
    let mut i: usize = 0;
    assert(ls.subrange(0, ls.len() as int) =~= ls);
    assert(r@.map_values(|d: AdbDevice| device_view(d)) + devices_in(ls) =~= devices_in(ls));
    while i < lines.len()
        invariant
            i <= lines.len(),
            ls == lines@.map_values(|l: Vec<char>| l@),
            ls == lines_of(output@),
            header@ == "List of devices attached"@,
            tag@ == "model:"@,
            r@.map_values(|d: AdbDevice| device_view(d)) + devices_in(ls.subrange(i as int, ls.len() as int)) == devices_in(ls),
        decreases lines.len() - i,
    {
        let ghost rest = ls.subrange(i as int, ls.len() as int);
        assert(rest[0] == lines@[i as int]@);
        assert(rest.drop_first() =~= ls.subrange(i + 1, ls.len() as int));
        let ghost before = r@.map_values(|d: AdbDevice| device_view(d));
        match device_from_line(&lines[i], &header, &tag) {
            Some(d) => {
                r.push(d);
                assert(r@.map_values(|d: AdbDevice| device_view(d)) =~= before.push(device_view(d)));
                assert(before.push(device_view(d)) + devices_in(rest.drop_first()) =~= before + devices_in(rest));
            },
            None => {},
        }
        i = i + 1;
    }
    assert(devices_in(ls.subrange(ls.len() as int, ls.len() as int)) =~= Seq::<(Seq<char>, Seq<char>)>::empty());
    assert(r@.map_values(|d: AdbDevice| device_view(d)) =~= r@.map_values(|d: AdbDevice| device_view(d)) + Seq::<(Seq<char>, Seq<char>)>::empty());
    r
}

// ---------------------------------------------------------------------------
// Choosing a device
// ---------------------------------------------------------------------------

/// `c` with ASCII upper case folded to lower case, as a code point.
pub open spec fn ascii_fold(c: char) -> u32 {
    let u = c as u32;
    if 65 <= u <= 90 { (u + 32) as u32 } else { u }
}

/// `a` and `b` are equal up to ASCII case (`str::eq_ignore_ascii_case`).
pub open spec fn eq_ignore_ascii_case(a: Seq<char>, b: Seq<char>) -> bool {
    a.len() == b.len() && forall|i: int| 0 <= i < a.len() ==> ascii_fold(#[trigger] a[i]) == ascii_fold(b[i])
}

pub fn str_eq_ignore_ascii_case(a: &str, b: &str) -> (r: bool)
    ensures
        r == eq_ignore_ascii_case(a@, b@),
{
    let x = chars_of(a);
    let y = chars_of(b);
    if x.len() != y.len() {
        return false;
    }
    let mut i: usize = 0;
    while i < x.len()
        invariant
            i <= x.len(),
            x.len() == y.len(),
            x@ == a@,
            y@ == b@,
            forall|j: int| 0 <= j < i ==> ascii_fold(#[trigger] a@[j]) == ascii_fold(b@[j]),
        decreases x.len() - i,
    {
        let u = x[i] as u32;
        let v = y[i] as u32;
        let fu = if 65 <= u && u <= 90 { u + 32 } else { u };
        let fv = if 65 <= v && v <= 90 { v + 32 } else { v };
        if fu != fv {
            return false;
        }
        i = i + 1;
    }
    true
}

/// Index of the first device at or after `from` whose serial or model equals
/// `name` up to ASCII case.
pub open spec fn name_match_index(devices: Seq<(Seq<char>, Seq<char>)>, name: Seq<char>, from: int) -> Option<int>
    decreases devices.len() - from,
{
    if from < 0 || from >= devices.len() {
        None
    } else if eq_ignore_ascii_case(devices[from].0, name) || eq_ignore_ascii_case(devices[from].1, name) {
        Some(from)
    } else {
        name_match_index(devices, name, from + 1)
    }
}

/// How the device to deploy to was chosen. Indices are 0-based positions in
/// the device list.
pub enum DeviceChoice {
    /// No device is online.
    NoDevices,
    /// `--device` gave a 1-based number within the list.
    ByIndex(usize),
    /// `--device` named a device by serial or model.
    ByName(usize),
    /// `--device` named no listed device; its value is used as the serial.
    AsGiven(String),
    /// The only online device.
    OnlyDevice,
    /// Several devices and no `--device`: the user is asked.
    Prompt,
}

/// `r` is the choice for `devices` and the `--device` value `arg`: no
/// devices, then a valid 1-based number, then a serial or model match, then
/// the value itself; without `--device`, the only device or a prompt.
pub open spec fn is_device_choice(devices: Seq<(Seq<char>, Seq<char>)>, arg: Option<Seq<char>>, r: DeviceChoice) -> bool {
    if devices.len() == 0 {
        r is NoDevices
    } else if arg is Some {
        let a = arg->0;
        if parsed_usize(a) is Some && 1 <= parsed_usize(a)->0 <= devices.len() {
            r == DeviceChoice::ByIndex((parsed_usize(a)->0 - 1) as usize)
        } else if name_match_index(devices, a, 0) is Some {
            r == DeviceChoice::ByName(name_match_index(devices, a, 0)->0 as usize)
        } else {
            r matches DeviceChoice::AsGiven(s) && s@ == a
        }
    } else if devices.len() == 1 {
        r is OnlyDevice
    } else {
        r is Prompt
    }
}

/// Chooses the Android device to deploy to from the online `devices` and the
/// `--device`/`-d` flag in `args`.
pub fn select_adb_device(devices: &Vec<AdbDevice>, args: &[String]) -> (r: DeviceChoice)
    ensures
        is_device_choice(devices@.map_values(|d: AdbDevice| device_view(d)), device_arg_of(arg_views(args@)), r),
{
    let ghost ds = devices@.map_values(|d: AdbDevice| device_view(d));
    if devices.len() == 0 {
        return DeviceChoice::NoDevices;
    }
    match parse_device_arg(args) {
        Some(user_arg) => {
            match parse_usize(user_arg.as_str()) {
                Some(idx) => {
                    if idx >= 1 && idx <= devices.len() {
                        return DeviceChoice::ByIndex(idx - 1);
                    }
                },
                None => {},
            }
            let mut i: usize = 0;
            while i < devices.len()
                invariant
                    i <= devices.len(),
                    ds == devices@.map_values(|d: AdbDevice| device_view(d)),
                    device_arg_of(arg_views(args@)) == Some(user_arg@),
                    !(parsed_usize(user_arg@) is Some && 1 <= parsed_usize(user_arg@)->0 <= devices.len()),
                    name_match_index(ds, user_arg@, 0) == name_match_index(ds, user_arg@, i as int),
                decreases devices.len() - i,
            {
                assert(ds[i as int] == device_view(devices@[i as int]));
                if str_eq_ignore_ascii_case(devices[i].serial.as_str(), user_arg.as_str())
                    || str_eq_ignore_ascii_case(devices[i].model.as_str(), user_arg.as_str())
                {
                    return DeviceChoice::ByName(i);
                }
                i = i + 1;
            }
            DeviceChoice::AsGiven(user_arg)
        },
        None => {
            if devices.len() == 1 {
                DeviceChoice::OnlyDevice
            } else {
                DeviceChoice::Prompt
            }
        },
    }
}

/// The answer to the device prompt, as a 0-based index into the device list.
pub enum PromptChoice {
    /// An empty answer: the first device.
    Default,
    /// A valid 1-based number.
    Selected(usize),
    /// No answer could be read, or it was not a valid number: the first device.
    Fallback,
}

/// `r` is the reading of the prompt answer `input` (`None` when reading
/// failed) for a list of `count` devices.
pub open spec fn is_prompt_choice(count: int, input: Option<Seq<char>>, r: PromptChoice) -> bool {
    match input {
        None => r is Fallback,
        Some(line) => {
            let t = trim(line);
            if t.len() == 0 {
                r is Default
            } else if parsed_usize(t) is Some && 1 <= parsed_usize(t)->0 <= count {
                r == PromptChoice::Selected((parsed_usize(t)->0 - 1) as usize)
            } else {
                r is Fallback
            }
        },
    }
}

/// Reads the answer to the device prompt.
pub fn choose_from_prompt(count: usize, input: Option<&str>) -> (r: PromptChoice)
    ensures
        is_prompt_choice(count as int, match input { Some(s) => Some(s@), None => None }, r),
{
    match input {
        None => PromptChoice::Fallback,
        Some(line) => {
            let v = chars_of(line);
            let (a, b) = trim_bounds(&v, 0, v.len());
            assert(v@.subrange(0, v.len() as int) =~= v@);
            if a == b {
                return PromptChoice::Default;
            }
            let t = crate::text::string_of_range(&v, a, b);
            match parse_usize(t.as_str()) {
                Some(n) => {
                    if n >= 1 && n <= count {
                        PromptChoice::Selected(n - 1)
                    } else {
                        PromptChoice::Fallback
                    }
                },
                None => PromptChoice::Fallback,
            }
        },
    }
}

} // verus!
