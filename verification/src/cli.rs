//! The command line: help texts, argument checking and option parsing, and
//! the texts that commands print. Reading files, the environment and the
//! terminal, and printing, happen outside the library.

use vstd::prelude::*;
use crate::text::{owned, append_str, texts, trimmed, trim_text, text_range, chars_of, join, join_texts, first_of, find_char};
use crate::dates::spec_parse_date;
use crate::engine::event_pairs;
use crate::text::{text_eq, words, split_words, ends_with, text_ends_with, strictly_sorted, sorted_set, lemma_sorted_unique, sorted_union, lemma_sorted_union, sorted_texts, sort_texts, decimal, decimal_string};
use crate::cascade::{BreachCascade, LinkView};
use crate::types::{views, ContractDef};
use crate::semantics::deadlines_countable;
use crate::diff::{flat_phases, flatten_phases};
use crate::namemap::pairs_view;
use crate::engine::{ContractRuntime, RuntimeView, spec_apply, snapshot_names, snapshot_of, snapshot_text};
use crate::namemap::entry_keys;

verus! {

pub const HELP_TEXT: &'static str = "kontra - contracts as code

Usage:
  kontra run <file>
  kontra eval <file> [--trigger Event=YYYY-MM-DD ...] [--at YYYY-MM-DD]
  kontra simulate <file> --trigger Event=YYYY-MM-DD [--trigger Event=YYYY-MM-DD ...] [--at YYYY-MM-DD]
  kontra diff <old-file> <new-file>
  kontra cascade <file> <runtime-item>
  kontra repl

Examples:
  kontra run examples/software_license.k
  kontra eval examples/software_license.k --trigger Effective=2026-03-01 --at 2026-04-15
  kontra simulate examples/software_license.k --trigger Delivery=2026-03-20 --at 2026-04-15
  kontra diff examples/software_license_v1.k examples/software_license_v2.k
  kontra cascade examples/software_license.k DeliverSoftware
  kontra repl
";

pub const RUN_HELP_TEXT: &'static str = "Usage:
  kontra run <file>

Description:
  Compile and execute a .k file, then print a structural contract summary.
";

pub const EVAL_HELP_TEXT: &'static str = "Usage:
  kontra eval <file> [--trigger Event=YYYY-MM-DD ...] [--at YYYY-MM-DD]

Flags:
  --trigger Event=YYYY-MM-DD   Trigger an event; repeatable
  --at YYYY-MM-DD              Evaluate state at a specific date
";

pub const SIMULATE_HELP_TEXT: &'static str = "Usage:
  kontra simulate <file> --trigger Event=YYYY-MM-DD [--trigger Event=YYYY-MM-DD ...] [--at YYYY-MM-DD]

Flags:
  --trigger Event=YYYY-MM-DD   Hypothetical event; repeatable (required)
  --at YYYY-MM-DD              Evaluate simulated state at a specific date
";

pub const DIFF_HELP_TEXT: &'static str = "Usage:
  kontra diff <old-file> <new-file>

Output:
  ADDED / REMOVED / CHANGED entries for parties, events, terms, obligations, remedies, and phases
  plus WARNING lines for high-risk changes
";

pub const CASCADE_HELP_TEXT: &'static str = "Usage:
  kontra cascade <file> <runtime-item>

Examples:
  kontra cascade examples/software_license.k DeliverSoftware
  kontra cascade examples/software_license.k CureOrTerminate.Cure
";

pub const REPL_COMMAND_HELP_TEXT: &'static str = "Usage:
  kontra repl

Description:
  Start an interactive session for load/trigger/state_at/simulate/cascade/satisfy commands.
";

pub const REPL_HELP_TEXT: &'static str = "Commands:
  load <file>                    Load and summarize a contract
  trigger <event> <YYYY-MM-DD>   Record an event occurrence
  state_at <YYYY-MM-DD>          Evaluate and print runtime states
  simulate --trigger Event=YYYY-MM-DD [--trigger Event=YYYY-MM-DD ...] [--at YYYY-MM-DD]
                                 Run non-destructive hypothetical evaluation
  cascade <runtime-item>         Show downstream breach impacts
  satisfy <obligation>           Mark an obligation/phase/remedy item as satisfied
  help                           Show this help
  quit                           Exit the REPL

Examples:
  load examples/software_license.k
  trigger Effective 2026-03-01
  state_at 2026-04-15
  simulate --trigger Delivery=2026-03-20 --at 2026-04-15
  cascade DeliverSoftware
  satisfy DeliverSoftware";

/// The overview of every subcommand.
pub fn help_text() -> (res: &'static str)
    ensures
        res@ == HELP_TEXT@,
{
    HELP_TEXT
}

/// The help of `kontra run`.
pub fn run_help_text() -> (res: &'static str)
    ensures
        res@ == RUN_HELP_TEXT@,
{
    RUN_HELP_TEXT
}

/// The help of `kontra eval`.
pub fn eval_help_text() -> (res: &'static str)
    ensures
        res@ == EVAL_HELP_TEXT@,
{
    EVAL_HELP_TEXT
}

/// The help of `kontra simulate`.
pub fn simulate_help_text() -> (res: &'static str)
    ensures
        res@ == SIMULATE_HELP_TEXT@,
{
    SIMULATE_HELP_TEXT
}

/// The help of `kontra diff`.
pub fn diff_help_text() -> (res: &'static str)
    ensures
        res@ == DIFF_HELP_TEXT@,
{
    DIFF_HELP_TEXT
}

/// The help of `kontra cascade`.
pub fn cascade_help_text() -> (res: &'static str)
    ensures
        res@ == CASCADE_HELP_TEXT@,
{
    CASCADE_HELP_TEXT
}

/// The help of `kontra repl` itself.
pub fn repl_command_help_text() -> (res: &'static str)
    ensures
        res@ == REPL_COMMAND_HELP_TEXT@,
{
    REPL_COMMAND_HELP_TEXT
}

/// The commands of the interactive session.
pub fn repl_help_text() -> (res: &'static str)
    ensures
        res@ == REPL_HELP_TEXT@,
{
    REPL_HELP_TEXT
}

pub open spec fn usage_text(message: Seq<char>, help: Seq<char>) -> Seq<char> {
    "Usage error: "@ + message + "\n\n"@ + help
}

/// A usage error: the message, then the help of the command.
pub fn usage_error(message: &str, help_text: &str) -> (res: String)
    ensures
        res@ == usage_text(message@, help_text@),
{
    let mut m = owned("Usage error: ");
    append_str(&mut m, message);
    append_str(&mut m, "\n\n");
    append_str(&mut m, help_text);
    m
}

pub open spec fn list_text(items: Seq<Seq<char>>) -> Seq<char> {
    if items.len() == 0 {
        "(none)"@
    } else {
        join(items, ", "@)
    }
}

/// The items separated by `, `, or `(none)` when there are none.
pub fn join_list(items: &[String]) -> (res: String)
    ensures
        res@ == list_text(texts(items@)),
{
    if items.len() == 0 {
        owned("(none)")
    } else {
        join_texts(items, ", ")
    }
}

pub open spec fn lines_body(lines: Seq<Seq<char>>) -> Seq<char> {
    if lines.len() == 0 {
        "(none)"@
    } else {
        join(lines, "\n"@)
    }
}

pub open spec fn simulation_text(canonical: Seq<Seq<char>>, simulated: Seq<Seq<char>>) -> Seq<char> {
    "Canonical state:\n"@ + lines_body(canonical) + "\n\nSimulated state:\n"@ + lines_body(simulated)
}

fn body_of(lines: &[String]) -> (res: String)
    ensures
        res@ == lines_body(texts(lines@)),
{
    if lines.len() == 0 {
        owned("(none)")
    } else {
        join_texts(lines, "\n")
    }
}

/// The canonical and the simulated states, each under its heading (a
/// section without lines reads `(none)`).
pub fn format_simulation_output(canonical_lines: &[String], simulated_lines: &[String]) -> (res: String)
    ensures
        res@ == simulation_text(texts(canonical_lines@), texts(simulated_lines@)),
{
    let mut out = owned("Canonical state:\n");
    let c = body_of(canonical_lines);
    append_str(&mut out, c.as_str());
    append_str(&mut out, "\n\nSimulated state:\n");
    let s = body_of(simulated_lines);
    append_str(&mut out, s.as_str());
    out
}

/// The day number of `raw` read as `YYYY-MM-DD`, or the message refusing it.
pub open spec fn date_result(raw: Seq<char>) -> Result<i64, Seq<char>> {
    match spec_parse_date(raw) {
        Some(d) => Ok(d),
        None => Err("Invalid date '"@ + raw + "'. Expected YYYY-MM-DD."@),
    }
}

/// Reads a date `YYYY-MM-DD` as its day number; otherwise the error is
/// `Invalid date '<raw>'. Expected YYYY-MM-DD.`
pub fn parse_date(raw: &str) -> (res: Result<i64, String>)
    ensures
        match date_result(raw@) {
            Ok(d) => res == Ok::<i64, String>(d),
            Err(m) => res is Err && res->Err_0@ == m,
        },
{
    match crate::dates::parse_date(raw) {
        Some(d) => Ok(d),
        None => {
            let mut m = owned("Invalid date '");
            append_str(&mut m, raw);
            append_str(&mut m, "'. Expected YYYY-MM-DD.");
            Err(m)
        },
    }
}

/// The event and day of a trigger `EventName=YYYY-MM-DD` (split at the first
/// `=`, both sides without surrounding white space), or the message refusing
/// it.
pub open spec fn trigger_result(raw: Seq<char>) -> Result<(Seq<char>, i64), Seq<char>> {
    match first_of(raw, '=') {
        None => Err("Invalid trigger '"@ + raw + "'. Expected EventName=YYYY-MM-DD."@),
        Some(p) => trigger_of_parts(raw.take(p), raw.skip(p + 1)),
    }
}

/// The trigger made of the text before its `=` and the text after it.
pub open spec fn trigger_of_parts(name_raw: Seq<char>, date_raw: Seq<char>) -> Result<(Seq<char>, i64), Seq<char>> {
    let name = trimmed(name_raw);
    if name.len() == 0 {
        Err("Trigger event name cannot be empty"@)
    } else {
        match date_result(trimmed(date_raw)) {
            Err(m) => Err(m),
            Ok(d) => Ok((name, d)),
        }
    }
}

/// The text before and the text after position `p` of `raw`.
fn split_around(raw: &str, p: usize) -> (res: (String, String))
    requires
        p < raw@.len(),
    ensures
        res.0@ == raw@.take(p as int),
        res.1@ == raw@.skip(p + 1),
{
    let cs = chars_of(raw);
    let n = cs.len();
    assert(p < n);
    let before = text_range(&cs, 0, p);
    let after = text_range(&cs, p + 1, n);
    proof {
        assert(before@ =~= raw@.take(p as int));
        assert(after@ =~= raw@.skip(p + 1));
    }
    (before, after)
}

/// The trigger made of the text before the `=` and the text after it.
fn trigger_parts(name_raw: &str, date_raw: &str) -> (res: Result<(String, i64), String>)
    ensures
        match trigger_of_parts(name_raw@, date_raw@) {
            Ok((name, d)) => res is Ok && res->Ok_0.0@ == name && res->Ok_0.1 == d,
            Err(m) => res is Err && res->Err_0@ == m,
        },
{
    let name = trim_text(name_raw);
    if name.as_str().is_empty() {
        return Err(owned("Trigger event name cannot be empty"));
    }
    let date_text = trim_text(date_raw);
    match parse_date(date_text.as_str()) {
        Ok(d) => Ok((name, d)),
        Err(m) => Err(m),
    }
}

/// Reads a trigger `EventName=YYYY-MM-DD` (see `trigger_result`).
pub fn parse_trigger_arg(raw: &str) -> (res: Result<(String, i64), String>)
    ensures
        match trigger_result(raw@) {
            Ok((name, d)) => res is Ok && res->Ok_0.0@ == name && res->Ok_0.1 == d,
            Err(m) => res is Err && res->Err_0@ == m,
        },
{
    match find_char(raw, '=') {
        Some(p) => {
            let (name_raw, date_raw) = split_around(raw, p);
            trigger_parts(name_raw.as_str(), date_raw.as_str())
        },
        None => {
            let mut m = owned("Invalid trigger '");
            append_str(&mut m, raw);
            append_str(&mut m, "'. Expected EventName=YYYY-MM-DD.");
            Err(m)
        },
    }
}

/// The options of `eval` and `simulate`: the triggers in order, and the
/// evaluation date.
#[derive(Debug)]
pub struct EvalOptions {
    pub triggers: Vec<(String, i64)>,
    pub at: Option<i64>,
}

pub struct OptionsView {
    pub triggers: Seq<(Seq<char>, i64)>,
    pub at: Option<i64>,
}

impl View for EvalOptions {
    type V = OptionsView;

    open spec fn view(&self) -> OptionsView {
        OptionsView { triggers: event_pairs(self.triggers@), at: self.at }
    }
}

/// Reads the options from position `i` on, given those read before it.
pub open spec fn scan_options(
    args: Seq<Seq<char>>,
    i: int,
    command: Seq<char>,
    help: Seq<char>,
    acc: OptionsView,
) -> Result<OptionsView, Seq<char>>
    decreases args.len() - i,
{
    if i < 0 || i >= args.len() {
        Ok(acc)
    } else if args[i] == "--trigger"@ {
        if i + 1 >= args.len() {
            Err(usage_text("Expected value after --trigger."@, help))
        } else {
            match trigger_result(args[i + 1]) {
                Err(m) => Err(m),
                Ok(t) => scan_options(args, i + 2, command, help, OptionsView { triggers: acc.triggers.push(t), at: acc.at }),
            }
        }
    } else if args[i] == "--at"@ {
        if i + 1 >= args.len() {
            Err(usage_text("Expected value after --at."@, help))
        } else {
            match date_result(args[i + 1]) {
                Err(m) => Err(m),
                Ok(d) => scan_options(args, i + 2, command, help, OptionsView { triggers: acc.triggers, at: Some(d) }),
            }
        }
    } else {
        Err(usage_text("Unknown "@ + command + " argument '"@ + args[i] + "'."@, help))
    }
}

/// The options of `command` read from `args` (the last `--at` wins), or the
/// message refusing them; when `require_trigger` holds, at least one
/// `--trigger` is needed.
pub open spec fn options_result(args: Seq<Seq<char>>, command: Seq<char>, help: Seq<char>, require_trigger: bool) -> Result<OptionsView, Seq<char>> {
    match scan_options(args, 0, command, help, OptionsView { triggers: Seq::empty(), at: None }) {
        Err(m) => Err(m),
        Ok(o) => if require_trigger && o.triggers.len() == 0 {
            Err(usage_text("At least one --trigger is required for "@ + command + "."@, help))
        } else {
            Ok(o)
        },
    }
}

/// Reads `--trigger Event=YYYY-MM-DD` (repeatable) and `--at YYYY-MM-DD`
/// (see `options_result`).
pub fn parse_runtime_options(args: &[String], command_name: &str, help_text: &str, require_trigger: bool) -> (res: Result<EvalOptions, String>)
    ensures
        match options_result(texts(args@), command_name@, help_text@, require_trigger) {
            Ok(o) => res is Ok && res->Ok_0@ == o,
            Err(m) => res is Err && res->Err_0@ == m,
        },
{
    let ghost a = texts(args@);
    let ghost init = OptionsView { triggers: Seq::empty(), at: None };
    let mut triggers: Vec<(String, i64)> = Vec::new();
    let mut at: Option<i64> = None;
    let mut i: usize = 0;
    proof {
        assert(event_pairs(triggers@) =~= init.triggers);
    }
    while i < args.len()
        invariant
            a == texts(args@),
            init == (OptionsView { triggers: Seq::empty(), at: None }),
            i <= a.len(),
            scan_options(a, 0, command_name@, help_text@, init) == scan_options(
                a,
                i as int,
                command_name@,
                help_text@,
                OptionsView { triggers: event_pairs(triggers@), at },
            ),
        decreases a.len() - i,
    {
        let ghost cur = OptionsView { triggers: event_pairs(triggers@), at };
        let arg = args[i].as_str();
        proof {
            assert(a[i as int] == arg@);
        }
        if text_eq(arg, "--trigger") {
            if i + 1 >= args.len() {
                return Err(usage_error("Expected value after --trigger.", help_text));
            }
            proof {
                assert(a[i + 1] == args@[i + 1]@);
            }
            match parse_trigger_arg(args[i + 1].as_str()) {
                Ok(t) => {
                    let ghost tv = (t.0@, t.1);
                    triggers.push(t);
                    proof {
                        assert(event_pairs(triggers@) =~= cur.triggers.push(tv));
                    }
                },
                Err(m) => return Err(m),
            }
            i = i + 2;
        } else if text_eq(arg, "--at") {
            if i + 1 >= args.len() {
                return Err(usage_error("Expected value after --at.", help_text));
            }
            proof {
                assert(a[i + 1] == args@[i + 1]@);
            }
            match parse_date(args[i + 1].as_str()) {
                Ok(d) => {
                    at = Some(d);
                },
                Err(m) => return Err(m),
            }
            i = i + 2;
        } else {
            let mut m = owned("Unknown ");
            append_str(&mut m, command_name);
            append_str(&mut m, " argument '");
            append_str(&mut m, arg);
            append_str(&mut m, "'.");
            return Err(usage_error(m.as_str(), help_text));
        }
    }
    if require_trigger && triggers.len() == 0 {
        let mut m = owned("At least one --trigger is required for ");
        append_str(&mut m, command_name);
        append_str(&mut m, ".");
        return Err(usage_error(m.as_str(), help_text));
    }
    Ok(EvalOptions { triggers, at })
}

/// The options of `eval`: no trigger is required.
pub fn parse_eval_options(args: &[String]) -> (res: Result<EvalOptions, String>)
    ensures
        match options_result(texts(args@), "eval"@, EVAL_HELP_TEXT@, false) {
            Ok(o) => res is Ok && res->Ok_0@ == o,
            Err(m) => res is Err && res->Err_0@ == m,
        },
{
    parse_runtime_options(args, "eval", eval_help_text(), false)
}

/// The options of `simulate`: at least one trigger is required.
pub fn parse_simulate_options(args: &[String]) -> (res: Result<EvalOptions, String>)
    ensures
        match options_result(texts(args@), "simulate"@, SIMULATE_HELP_TEXT@, true) {
            Ok(o) => res is Ok && res->Ok_0@ == o,
            Err(m) => res is Err && res->Err_0@ == m,
        },
{
    parse_runtime_options(args, "simulate", simulate_help_text(), true)
}

pub open spec fn unknown_item_message(raw: Seq<char>) -> Seq<char> {
    "Unknown runtime item '"@ + raw + "'. Use `kontra run <file>` to list obligations/remedies/phases."@
}

pub open spec fn ambiguous_item_message(raw: Seq<char>, matches: Seq<Seq<char>>) -> Seq<char> {
    "Ambiguous runtime item '"@ + raw + "'. Matches: "@ + join(matches, ", "@)
}

/// The names among `keys` that end with `.` and `raw`, in increasing order.
pub open spec fn suffix_matches(keys: Seq<Seq<char>>, raw: Seq<char>) -> Seq<Seq<char>> {
    choose|m: Seq<Seq<char>>| strictly_sorted(m) && forall|x: Seq<char>| #[trigger] m.contains(x) <==> (keys.contains(x) && ends_with(x, "."@ + raw))
}

/// The runtime item that `raw` names: itself when it is a key; otherwise the
/// one key that ends with `.` and `raw`. No such key, or several, is an error.
pub open spec fn item_result(keys: Seq<Seq<char>>, raw: Seq<char>) -> Result<Seq<char>, Seq<char>> {
    if keys.contains(raw) {
        Ok(raw)
    } else {
        let m = suffix_matches(keys, raw);
        if m.len() == 1 {
            Ok(m[0])
        } else if m.len() == 0 {
            Err(unknown_item_message(raw))
        } else {
            Err(ambiguous_item_message(raw, m))
        }
    }
}

/// Resolves the runtime item that a cascade starts from (see `item_result`).
pub fn resolve_runtime_item_for_cascade(runtime: &ContractRuntime, raw: &str) -> (res: Result<String, String>)
    ensures
        match item_result(entry_keys(runtime@.states), raw@) {
            Ok(k) => res is Ok && res->Ok_0@ == k,
            Err(m) => res is Err && res->Err_0@ == m,
        },
{
    if runtime.has_item(raw) {
        return Ok(owned(raw));
    }
    let mut suffix = owned(".");
    append_str(&mut suffix, raw);
    let keys = runtime.item_names();
    let ghost ks = entry_keys(runtime@.states);
    let mut found: Vec<String> = Vec::new();
    let mut i: usize = 0;
    while i < keys.len()
        invariant
            texts(keys@) == ks,
            suffix@ == "."@ + raw@,
            i <= ks.len(),
            forall|x: Seq<char>| #[trigger] texts(found@).contains(x) <==> (ks.take(i as int).contains(x) && ends_with(x, suffix@)),
        decreases ks.len() - i,
    {
        let ghost before = texts(found@);
        let hit = text_ends_with(keys[i].as_str(), suffix.as_str());
        if hit {
            let k = keys[i].clone();
            found.push(k);
        }
        proof {
            let kv = keys@[i as int]@;
            assert(ks[i as int] == kv);
            assert(ks.take(i + 1) =~= ks.take(i as int).push(kv));
            if hit {
                assert(texts(found@) =~= before.push(kv));
            } else {
                assert(texts(found@) =~= before);
            }
            let f = texts(found@);
            let t0 = ks.take(i as int);
            let t1 = ks.take(i + 1);
            assert(t1[i as int] == kv);
            assert(hit == ends_with(kv, suffix@));
            assert forall|x: Seq<char>| #[trigger] f.contains(x) <==> (t1.contains(x) && ends_with(x, suffix@)) by {
                if before.contains(x) {
                    let j = choose|j: int| 0 <= j < before.len() && #[trigger] before[j] == x;
                    assert(f[j] == x);
                    assert(f.contains(x));
                    let j2 = choose|j2: int| 0 <= j2 < t0.len() && #[trigger] t0[j2] == x;
                    assert(t1[j2] == x);
                }
                if f.contains(x) && !before.contains(x) {
                    let j = choose|j: int| 0 <= j < f.len() && #[trigger] f[j] == x;
                    if j < before.len() {
                        assert(before[j] == x);
                    }
                    assert(hit && x == kv);
                }
                if t1.contains(x) && ends_with(x, suffix@) {
                    let j = choose|j: int| 0 <= j < t1.len() && #[trigger] t1[j] == x;
                    if j < i {
                        assert(t0[j] == x);
                        assert(before.contains(x));
                    } else {
                        assert(x == kv);
                        assert(f[f.len() - 1] == x);
                    }
                }
            }
        }
        i = i + 1;
    }
    proof {
        assert(ks.take(i as int) =~= ks);
    }
    let matches = sorted_set(&found);
    proof {
        let m = texts(matches@);
        assert(strictly_sorted(m) && forall|x: Seq<char>| #[trigger] m.contains(x) <==> (ks.contains(x) && ends_with(x, "."@ + raw@)));
        let c = suffix_matches(ks, raw@);
        lemma_sorted_unique(c, m);
    }
    if matches.len() == 1 {
        proof {
            assert(texts(matches@)[0] == matches@[0]@);
        }
        return Ok(matches[0].clone());
    }
    if matches.len() == 0 {
        let mut m = owned("Unknown runtime item '");
        append_str(&mut m, raw);
        append_str(&mut m, "'. Use `kontra run <file>` to list obligations/remedies/phases.");
        return Err(m);
    }
    let mut m = owned("Ambiguous runtime item '");
    append_str(&mut m, raw);
    append_str(&mut m, "'. Matches: ");
    let joined = join_texts(matches.as_slice(), ", ");
    append_str(&mut m, joined.as_str());
    Err(m)
}

/// The lines that describe the runtime items of `rv`, in increasing order of
/// name.
pub open spec fn state_lines(rv: RuntimeView) -> Seq<Seq<char>> {
    sorted_union(entry_keys(rv.states), Seq::empty()).map_values(|n: Seq<char>| snapshot_text(snapshot_of(rv, n)))
}

/// The line of each runtime item, in increasing order of name.
pub fn runtime_state_lines(runtime: &ContractRuntime) -> (res: Vec<String>)
    requires
        runtime.wf(),
        deadlines_countable(runtime@.contract, runtime@.registry),
    ensures
        texts(res@) == state_lines(runtime@),
{
    let snaps = runtime.query_state();
    let ghost names = snapshot_names(snaps@);
    proof {
        lemma_sorted_union(entry_keys(runtime@.states), Seq::empty(), names);
    }
    let mut lines: Vec<String> = Vec::new();
    let mut i: usize = 0;
    while i < snaps.len()
        invariant
            names == snapshot_names(snaps@),
            names == sorted_union(entry_keys(runtime@.states), Seq::empty()),
            forall|k: int| 0 <= k < snaps@.len() ==> (#[trigger] snaps@[k])@ == snapshot_of(runtime@, snaps@[k].name@),
            i <= snaps@.len(),
            texts(lines@) == names.take(i as int).map_values(|n: Seq<char>| snapshot_text(snapshot_of(runtime@, n))),
        decreases snaps@.len() - i,
    {
        let line = snaps[i].to_string();
        let ghost before = texts(lines@);
        lines.push(line);
        proof {
            assert(names[i as int] == snaps@[i as int].name@);
            assert(texts(lines@) =~= before.push(line@));
            assert(names.take(i + 1).map_values(|n: Seq<char>| snapshot_text(snapshot_of(runtime@, n))) =~= names.take(i as int).map_values(
                |n: Seq<char>| snapshot_text(snapshot_of(runtime@, n)),
            ).push(snapshot_text(snapshot_of(runtime@, names[i as int]))));
        }
        i = i + 1;
    }
    proof {
        assert(names.take(i as int) =~= names);
    }
    lines
}

/// The canonical state and the state after the hypothetical triggers, both
/// evaluated at `at` (or, without it, at the latest trigger), as
/// `format_simulation_output` lays them out. The runtime is left unchanged.
pub fn render_simulation_output(runtime: &ContractRuntime, options: &EvalOptions) -> (res: String)
    requires
        runtime.wf(),
        deadlines_countable(runtime@.contract, runtime@.registry),
    ensures
        res@ == simulation_text(
            state_lines(spec_apply(runtime@, Seq::empty(), options@.at)),
            state_lines(spec_apply(runtime@, options@.triggers, options@.at)),
        ),
{
    let baseline: Vec<(String, i64)> = Vec::new();
    proof {
        assert(event_pairs(baseline@) =~= Seq::<(Seq<char>, i64)>::empty());
    }
    let canonical = runtime.simulate_with(baseline.as_slice(), options.at);
    let simulated = runtime.simulate_with(options.triggers.as_slice(), options.at);
    proof {
        crate::engine::lemma_apply_keeps(runtime@, options@.triggers, options@.at);
    }
    let canonical_lines = runtime_state_lines(&canonical);
    let simulated_lines = runtime_state_lines(&simulated);
    format_simulation_output(canonical_lines.as_slice(), simulated_lines.as_slice())
}

/// The line that shows one effect of a breach.
pub open spec fn link_line(l: LinkView) -> Seq<char> {
    "- "@ + l.from + " -> "@ + l.to + " ("@ + l.reason + ")"@
}

/// The lines that show a breach cascade: its root, then each effect, or
/// `(no downstream effects)` when there is none.
pub open spec fn cascade_text_lines(root: Seq<char>, links: Seq<LinkView>) -> Seq<Seq<char>> {
    let head = seq!["Cascade from '"@ + root + "':"@];
    if links.len() == 0 {
        head.push("(no downstream effects)"@)
    } else {
        head + links.map_values(|l: LinkView| link_line(l))
    }
}

/// The lines that show a breach cascade (see `cascade_text_lines`).
pub fn cascade_lines(cascade: &BreachCascade) -> (res: Vec<String>)
    ensures
        texts(res@) == cascade_text_lines(cascade.root@, views(cascade.links@)),
{
    let ghost ls = views(cascade.links@);
    let mut lines: Vec<String> = Vec::new();
    let mut head = owned("Cascade from '");
    append_str(&mut head, cascade.root.as_str());
    append_str(&mut head, "':");
    lines.push(head);
    let ghost first = texts(lines@);
    if cascade.links.len() == 0 {
        lines.push(owned("(no downstream effects)"));
        proof {
            assert(texts(lines@) =~= first.push("(no downstream effects)"@));
            assert(ls.len() == 0);
        }
        return lines;
    }
    let mut i: usize = 0;
    proof {
        assert(first =~= first + ls.take(0).map_values(|l: LinkView| link_line(l)));
    }
    while i < cascade.links.len()
        invariant
            ls == views(cascade.links@),
            i <= ls.len(),
            texts(lines@) == first + ls.take(i as int).map_values(|l: LinkView| link_line(l)),
        decreases ls.len() - i,
    {
        let l = &cascade.links[i];
        let mut line = owned("- ");
        append_str(&mut line, l.from.as_str());
        append_str(&mut line, " -> ");
        append_str(&mut line, l.to.as_str());
        append_str(&mut line, " (");
        append_str(&mut line, l.reason.as_str());
        append_str(&mut line, ")");
        let ghost before = texts(lines@);
        lines.push(line);
        proof {
            assert(ls[i as int] == l@);
            assert(line@ == link_line(l@));
            assert(ls.take(i + 1).map_values(|x: LinkView| link_line(x)) =~= ls.take(i as int).map_values(|x: LinkView| link_line(x)).push(line@));
            assert(texts(lines@) =~= before.push(line@));
        }
        i = i + 1;
    }
    proof {
        assert(ls.take(i as int) =~= ls);
    }
    lines
}

/// A summary line: `<label> (<count>): <items>`.
pub open spec fn summary_line(label: Seq<char>, items: Seq<Seq<char>>) -> Seq<char> {
    label + " ("@ + decimal(items.len()) + "): "@ + list_text(items)
}

/// The names in increasing order, each once.
pub open spec fn sorted_names(names: Seq<Seq<char>>) -> Seq<Seq<char>> {
    sorted_union(names, Seq::empty())
}

fn summary_text(label: &str, items: &Vec<String>) -> (res: String)
    ensures
        res@ == summary_line(label@, texts(items@)),
{
    let mut line = owned(label);
    append_str(&mut line, " (");
    let n = decimal_string(items.len() as u64);
    append_str(&mut line, n.as_str());
    append_str(&mut line, "): ");
    let l = join_list(items.as_slice());
    append_str(&mut line, l.as_str());
    line
}

fn sorted_keys(keys: &Vec<String>) -> (res: Vec<String>)
    ensures
        texts(res@) == sorted_names(texts(keys@)),
{
    let res = sorted_set(keys);
    proof {
        lemma_sorted_union(texts(keys@), Seq::empty(), texts(res@));
    }
    res
}

/// The summary of a contract: its parties, events, terms, obligations and
/// remedies by name, and its phases as `remedy.phase`, each list sorted.
pub fn contract_summary_lines(contract: &ContractDef) -> (res: Vec<String>)
    ensures
        res@.len() == 6,
        res@[0]@ == summary_line("Parties"@, sorted_names(entry_keys(contract@.parties))),
        res@[1]@ == summary_line("Events"@, sorted_names(entry_keys(contract@.events))),
        res@[2]@ == summary_line("Terms"@, sorted_names(entry_keys(contract@.terms))),
        res@[3]@ == summary_line("Obligations"@, sorted_names(entry_keys(contract@.obligations))),
        res@[4]@ == summary_line("Remedies"@, sorted_names(entry_keys(contract@.remedies))),
        exists|ps: Seq<Seq<char>>|
            sorted_texts(ps) && ps.to_multiset() == entry_keys(flat_phases(contract@.remedies)).to_multiset()
                && res@[5]@ == #[trigger] summary_line("Phases"@, ps),
{
    proof {
        contract.parties.lemma_view();
        contract.events.lemma_view();
        contract.terms.lemma_view();
        contract.obligations.lemma_view();
        contract.remedies.lemma_view();
    }
    let parties = contract.parties.key_list();
    let events = contract.events.key_list();
    let terms = contract.terms.key_list();
    let obligations = contract.obligations.key_list();
    let remedies = contract.remedies.key_list();
    proof {
        assert(texts(parties@) =~= entry_keys(contract@.parties));
        assert(texts(events@) =~= entry_keys(contract@.events));
        assert(texts(terms@) =~= entry_keys(contract@.terms));
        assert(texts(obligations@) =~= entry_keys(contract@.obligations));
        assert(texts(remedies@) =~= entry_keys(contract@.remedies));
    }
    let flat = flatten_phases(contract);
    let mut phase_names: Vec<String> = Vec::new();
    let mut i: usize = 0;
    while i < flat.len()
        invariant
            i <= flat@.len(),
            texts(phase_names@) == entry_keys(pairs_view(flat@)).take(i as int),
        decreases flat@.len() - i,
    {
        let ghost before = texts(phase_names@);
        let name = flat[i].0.clone();
        phase_names.push(name);
        proof {
            let ks = entry_keys(pairs_view(flat@));
            assert(texts(phase_names@) =~= before.push(flat@[i as int].0@));
            assert(ks[i as int] == flat@[i as int].0@);
            assert(ks.take(i + 1) =~= ks.take(i as int).push(ks[i as int]));
        }
        i = i + 1;
    }
    proof {
        assert(entry_keys(pairs_view(flat@)).take(i as int) =~= entry_keys(pairs_view(flat@)));
    }
    let phases = sort_texts(&phase_names);
    let mut lines: Vec<String> = Vec::new();
    lines.push(summary_text("Parties", &sorted_keys(&parties)));
    lines.push(summary_text("Events", &sorted_keys(&events)));
    lines.push(summary_text("Terms", &sorted_keys(&terms)));
    lines.push(summary_text("Obligations", &sorted_keys(&obligations)));
    lines.push(summary_text("Remedies", &sorted_keys(&remedies)));
    lines.push(summary_text("Phases", &phases));
    proof {
        let ps = texts(phases@);
        assert(lines@[5]@ == summary_line("Phases"@, ps));
    }
    lines
}

/// What a command line asks for.
#[derive(Debug)]
pub enum CliCommand {
    /// Print this text and succeed.
    Print(String),
    /// Summarize the contract in `path`.
    Run { path: String },
    /// Evaluate the contract in `path` with these option arguments.
    Eval { path: String, options: Vec<String> },
    /// Simulate the contract in `path` with these option arguments.
    Simulate { path: String, options: Vec<String> },
    /// Compare two versions of a contract.
    Diff { old_path: String, new_path: String },
    /// Trace the breach cascade of `item` in the contract in `path`.
    Cascade { path: String, item: String },
    /// Start the interactive session.
    Repl,
}

pub enum CommandView {
    Print(Seq<char>),
    Run { path: Seq<char> },
    Eval { path: Seq<char>, options: Seq<Seq<char>> },
    Simulate { path: Seq<char>, options: Seq<Seq<char>> },
    Diff { old_path: Seq<char>, new_path: Seq<char> },
    Cascade { path: Seq<char>, item: Seq<char> },
    Repl,
}

impl View for CliCommand {
    type V = CommandView;

    open spec fn view(&self) -> CommandView {
        match self {
            CliCommand::Print(t) => CommandView::Print(t@),
            CliCommand::Run { path } => CommandView::Run { path: path@ },
            CliCommand::Eval { path, options } => CommandView::Eval { path: path@, options: texts(options@) },
            CliCommand::Simulate { path, options } => CommandView::Simulate { path: path@, options: texts(options@) },
            CliCommand::Diff { old_path, new_path } => CommandView::Diff { old_path: old_path@, new_path: new_path@ },
            CliCommand::Cascade { path, item } => CommandView::Cascade { path: path@, item: item@ },
            CliCommand::Repl => CommandView::Repl,
        }
    }
}

/// The arguments ask only for the help of a subcommand.
pub open spec fn asks_help(rest: Seq<Seq<char>>) -> bool {
    rest.len() == 1 && (rest[0] == "--help"@ || rest[0] == "-h"@)
}

/// What the command line `args` (without the program name) asks for, or the
/// message refusing it.
pub open spec fn cli_result(args: Seq<Seq<char>>) -> Result<CommandView, Seq<char>> {
    if args.len() == 0 {
        Ok(CommandView::Print(HELP_TEXT@))
    } else {
        let sub = args[0];
        let rest = args.skip(1);
        if sub == "run"@ {
            if asks_help(rest) {
                Ok(CommandView::Print(RUN_HELP_TEXT@))
            } else if rest.len() != 1 {
                Err(usage_text("run expects exactly one contract file path."@, RUN_HELP_TEXT@))
            } else {
                Ok(CommandView::Run { path: rest[0] })
            }
        } else if sub == "eval"@ {
            if asks_help(rest) {
                Ok(CommandView::Print(EVAL_HELP_TEXT@))
            } else if rest.len() == 0 {
                Err(usage_text("eval requires a contract file path."@, EVAL_HELP_TEXT@))
            } else {
                Ok(CommandView::Eval { path: rest[0], options: rest.skip(1) })
            }
        } else if sub == "simulate"@ {
            if asks_help(rest) {
                Ok(CommandView::Print(SIMULATE_HELP_TEXT@))
            } else if rest.len() == 0 {
                Err(usage_text("simulate requires a contract file path."@, SIMULATE_HELP_TEXT@))
            } else {
                Ok(CommandView::Simulate { path: rest[0], options: rest.skip(1) })
            }
        } else if sub == "diff"@ {
            if asks_help(rest) {
                Ok(CommandView::Print(DIFF_HELP_TEXT@))
            } else if rest.len() != 2 {
                Err(usage_text("diff expects exactly two contract file paths: <old-file> <new-file>."@, DIFF_HELP_TEXT@))
            } else {
                Ok(CommandView::Diff { old_path: rest[0], new_path: rest[1] })
            }
        } else if sub == "cascade"@ {
            if asks_help(rest) {
                Ok(CommandView::Print(CASCADE_HELP_TEXT@))
            } else if rest.len() != 2 {
                Err(usage_text("cascade expects a file path and runtime item name."@, CASCADE_HELP_TEXT@))
            } else {
                Ok(CommandView::Cascade { path: rest[0], item: rest[1] })
            }
        } else if sub == "repl"@ {
            if asks_help(rest) {
                Ok(CommandView::Print(REPL_HELP_TEXT@))
            } else if rest.len() != 0 {
                Err(usage_text("repl does not take positional arguments."@, REPL_COMMAND_HELP_TEXT@))
            } else {
                Ok(CommandView::Repl)
            }
        } else if sub == "help"@ || sub == "-h"@ || sub == "--help"@ {
            Ok(CommandView::Print(HELP_TEXT@))
        } else {
            Err("Unknown subcommand '"@ + sub + "'.\n\n"@ + HELP_TEXT@)
        }
    }
}

/// The strings of `v` from position `from` on.
fn tail_of(v: &Vec<String>, from: usize) -> (res: Vec<String>)
    requires
        from <= v@.len(),
    ensures
        texts(res@) == texts(v@).skip(from as int),
{
    let mut res: Vec<String> = Vec::new();
    let mut i: usize = from;
    while i < v.len()
        invariant
            from <= i <= v@.len(),
            texts(res@) == texts(v@).subrange(from as int, i as int),
        decreases v@.len() - i,
    {
        let ghost before = texts(res@);
        let x = v[i].clone();
        res.push(x);
        proof {
            assert(texts(res@) =~= before.push(v@[i as int]@));
            assert(texts(v@).subrange(from as int, i + 1) =~= texts(v@).subrange(from as int, i as int).push(v@[i as int]@));
        }
        i = i + 1;
    }
    proof {
        assert(texts(v@).subrange(from as int, i as int) =~= texts(v@).skip(from as int));
    }
    res
}

fn is_help_request(rest: &Vec<String>) -> (b: bool)
    ensures
        b == asks_help(texts(rest@)),
{
    rest.len() == 1 && (text_eq(rest[0].as_str(), "--help") || text_eq(rest[0].as_str(), "-h"))
}

/// Checks a command line (without the program name) and says what it asks
/// for (see `cli_result`).
pub fn run_cli(args: Vec<String>) -> (res: Result<CliCommand, String>)
    ensures
        match cli_result(texts(args@)) {
            Ok(c) => res is Ok && res->Ok_0@ == c,
            Err(m) => res is Err && res->Err_0@ == m,
        },
{
    if args.len() == 0 {
        return Ok(CliCommand::Print(owned(help_text())));
    }
    let sub = args[0].as_str();
    let rest = tail_of(&args, 1);
    let help = is_help_request(&rest);
    proof {
        assert(texts(args@)[0] == sub@);
    }
    if text_eq(sub, "run") {
        if help {
            return Ok(CliCommand::Print(owned(run_help_text())));
        }
        if rest.len() != 1 {
            return Err(usage_error("run expects exactly one contract file path.", run_help_text()));
        }
        return Ok(CliCommand::Run { path: rest[0].clone() });
    }
    if text_eq(sub, "eval") {
        if help {
            return Ok(CliCommand::Print(owned(eval_help_text())));
        }
        if rest.len() == 0 {
            return Err(usage_error("eval requires a contract file path.", eval_help_text()));
        }
        let options = tail_of(&rest, 1);
        return Ok(CliCommand::Eval { path: rest[0].clone(), options });
    }
    if text_eq(sub, "simulate") {
        if help {
            return Ok(CliCommand::Print(owned(simulate_help_text())));
        }
        if rest.len() == 0 {
            return Err(usage_error("simulate requires a contract file path.", simulate_help_text()));
        }
        let options = tail_of(&rest, 1);
        return Ok(CliCommand::Simulate { path: rest[0].clone(), options });
    }
    if text_eq(sub, "diff") {
        if help {
            return Ok(CliCommand::Print(owned(diff_help_text())));
        }
        if rest.len() != 2 {
            return Err(usage_error("diff expects exactly two contract file paths: <old-file> <new-file>.", diff_help_text()));
        }
        return Ok(CliCommand::Diff { old_path: rest[0].clone(), new_path: rest[1].clone() });
    }
    if text_eq(sub, "cascade") {
        if help {
            return Ok(CliCommand::Print(owned(cascade_help_text())));
        }
        if rest.len() != 2 {
            return Err(usage_error("cascade expects a file path and runtime item name.", cascade_help_text()));
        }
        return Ok(CliCommand::Cascade { path: rest[0].clone(), item: rest[1].clone() });
    }
    if text_eq(sub, "repl") {
        if help {
            return Ok(CliCommand::Print(owned(repl_help_text())));
        }
        if rest.len() != 0 {
            return Err(usage_error("repl does not take positional arguments.", repl_command_help_text()));
        }
        return Ok(CliCommand::Repl);
    }
    if text_eq(sub, "help") || text_eq(sub, "-h") || text_eq(sub, "--help") {
        return Ok(CliCommand::Print(owned(help_text())));
    }
    let mut m = owned("Unknown subcommand '");
    append_str(&mut m, sub);
    append_str(&mut m, "'.\n\n");
    append_str(&mut m, help_text());
    Err(m)
}

/// What one line typed in the interactive session asks for.
#[derive(Debug)]
pub enum ReplAction {
    /// A blank line: nothing to do.
    Skip,
    /// Show the session's commands.
    Help,
    /// End the session.
    Quit,
    /// Report this message and go on.
    Error(String),
    /// Load and summarize the contract in this file.
    Load(String),
    /// Record that the event happened on the day.
    Trigger(String, i64),
    /// Evaluate at the day and show the states.
    StateAt(i64),
    /// Mark the item satisfied.
    Satisfy(String),
    /// Show the simulation with these options.
    Simulate(EvalOptions),
    /// Show the breach cascade of this (resolved) item.
    Cascade(String),
}

pub enum ActionView {
    Skip,
    Help,
    Quit,
    Error(Seq<char>),
    Load(Seq<char>),
    Trigger(Seq<char>, i64),
    StateAt(i64),
    Satisfy(Seq<char>),
    Simulate(OptionsView),
    Cascade(Seq<char>),
}

impl View for ReplAction {
    type V = ActionView;

    open spec fn view(&self) -> ActionView {
        match self {
            ReplAction::Skip => ActionView::Skip,
            ReplAction::Help => ActionView::Help,
            ReplAction::Quit => ActionView::Quit,
            ReplAction::Error(m) => ActionView::Error(m@),
            ReplAction::Load(p) => ActionView::Load(p@),
            ReplAction::Trigger(e, d) => ActionView::Trigger(e@, *d),
            ReplAction::StateAt(d) => ActionView::StateAt(*d),
            ReplAction::Satisfy(n) => ActionView::Satisfy(n@),
            ReplAction::Simulate(o) => ActionView::Simulate(o@),
            ReplAction::Cascade(n) => ActionView::Cascade(n@),
        }
    }
}

pub open spec fn no_contract_message() -> Seq<char> {
    "No contract loaded. Use: load <file>"@
}

/// What the words of a session line ask for, given the loaded runtime (if
/// any).
pub open spec fn repl_result(parts: Seq<Seq<char>>, runtime: Option<RuntimeView>) -> ActionView {
    if parts.len() == 0 {
        ActionView::Skip
    } else {
        let cmd = parts[0];
        if cmd == "help"@ {
            ActionView::Help
        } else if cmd == "quit"@ || cmd == "exit"@ {
            ActionView::Quit
        } else if cmd == "load"@ {
            if parts.len() != 2 {
                ActionView::Error("Usage: load <file>"@)
            } else {
                ActionView::Load(parts[1])
            }
        } else if cmd == "trigger"@ {
            if parts.len() != 3 {
                ActionView::Error("Usage: trigger <event> <YYYY-MM-DD>"@)
            } else if runtime is None {
                ActionView::Error(no_contract_message())
            } else {
                match date_result(parts[2]) {
                    Ok(d) => ActionView::Trigger(parts[1], d),
                    Err(m) => ActionView::Error(m),
                }
            }
        } else if cmd == "state_at"@ {
            if parts.len() != 2 {
                ActionView::Error("Usage: state_at <YYYY-MM-DD>"@)
            } else if runtime is None {
                ActionView::Error(no_contract_message())
            } else {
                match date_result(parts[1]) {
                    Ok(d) => ActionView::StateAt(d),
                    Err(m) => ActionView::Error(m),
                }
            }
        } else if cmd == "satisfy"@ {
            if parts.len() != 2 {
                ActionView::Error("Usage: satisfy <obligation>"@)
            } else if runtime is None {
                ActionView::Error(no_contract_message())
            } else {
                ActionView::Satisfy(parts[1])
            }
        } else if cmd == "simulate"@ {
            if runtime is None {
                ActionView::Error(no_contract_message())
            } else {
                match options_result(parts.skip(1), "simulate"@, SIMULATE_HELP_TEXT@, true) {
                    Ok(o) => ActionView::Simulate(o),
                    Err(m) => ActionView::Error(m),
                }
            }
        } else if cmd == "cascade"@ {
            if parts.len() != 2 {
                ActionView::Error("Usage: cascade <runtime-item>"@)
            } else {
                match runtime {
                    None => ActionView::Error(no_contract_message()),
                    Some(rv) => match item_result(entry_keys(rv.states), parts[1]) {
                        Ok(k) => ActionView::Cascade(k),
                        Err(m) => ActionView::Error(m),
                    },
                }
            }
        } else {
            ActionView::Error("Unknown command. Type 'help' for commands."@)
        }
    }
}

pub open spec fn opt_runtime_view(runtime: Option<&ContractRuntime>) -> Option<RuntimeView> {
    match runtime {
        Some(r) => Some(r@),
        None => None,
    }
}

/// Says what one line of the interactive session asks for (see
/// `repl_result`; the line is split at white space).
pub fn repl_action(line: &str, runtime: Option<&ContractRuntime>) -> (res: ReplAction)
    ensures
        res@ == repl_result(words(line@), opt_runtime_view(runtime)),
{
    let parts = split_words(line);
    if parts.len() == 0 {
        return ReplAction::Skip;
    }
    let cmd = parts[0].as_str();
    proof {
        assert(texts(parts@)[0] == cmd@);
    }
    if text_eq(cmd, "help") {
        return ReplAction::Help;
    }
    if text_eq(cmd, "quit") || text_eq(cmd, "exit") {
        return ReplAction::Quit;
    }
    if text_eq(cmd, "load") {
        if parts.len() != 2 {
            return ReplAction::Error(owned("Usage: load <file>"));
        }
        proof {
            assert(texts(parts@)[1] == parts@[1]@);
        }
        return ReplAction::Load(parts[1].clone());
    }
    if text_eq(cmd, "trigger") {
        if parts.len() != 3 {
            return ReplAction::Error(owned("Usage: trigger <event> <YYYY-MM-DD>"));
        }
        if runtime.is_none() {
            return ReplAction::Error(owned("No contract loaded. Use: load <file>"));
        }
        proof {
            assert(texts(parts@)[1] == parts@[1]@);
            assert(texts(parts@)[2] == parts@[2]@);
        }
        return match parse_date(parts[2].as_str()) {
            Ok(d) => ReplAction::Trigger(parts[1].clone(), d),
            Err(m) => ReplAction::Error(m),
        };
    }
    if text_eq(cmd, "state_at") {
        if parts.len() != 2 {
            return ReplAction::Error(owned("Usage: state_at <YYYY-MM-DD>"));
        }
        if runtime.is_none() {
            return ReplAction::Error(owned("No contract loaded. Use: load <file>"));
        }
        proof {
            assert(texts(parts@)[1] == parts@[1]@);
        }
        return match parse_date(parts[1].as_str()) {
            Ok(d) => ReplAction::StateAt(d),
            Err(m) => ReplAction::Error(m),
        };
    }
    if text_eq(cmd, "satisfy") {
        if parts.len() != 2 {
            return ReplAction::Error(owned("Usage: satisfy <obligation>"));
        }
        if runtime.is_none() {
            return ReplAction::Error(owned("No contract loaded. Use: load <file>"));
        }
        proof {
            assert(texts(parts@)[1] == parts@[1]@);
        }
        return ReplAction::Satisfy(parts[1].clone());
    }
    if text_eq(cmd, "simulate") {
        if runtime.is_none() {
            return ReplAction::Error(owned("No contract loaded. Use: load <file>"));
        }
        let rest = tail_of(&parts, 1);
        return match parse_simulate_options(rest.as_slice()) {
            Ok(o) => ReplAction::Simulate(o),
            Err(m) => ReplAction::Error(m),
        };
    }
    if text_eq(cmd, "cascade") {
        if parts.len() != 2 {
            return ReplAction::Error(owned("Usage: cascade <runtime-item>"));
        }
        proof {
            assert(texts(parts@)[1] == parts@[1]@);
        }
        return match runtime {
            None => ReplAction::Error(owned("No contract loaded. Use: load <file>")),
            Some(rt) => match resolve_runtime_item_for_cascade(rt, parts[1].as_str()) {
                Ok(k) => ReplAction::Cascade(k),
                Err(m) => ReplAction::Error(m),
            },
        };
    }
    ReplAction::Error(owned("Unknown command. Type 'help' for commands."))
}

} // verus!
