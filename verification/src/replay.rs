//! Replaying a package: its tools are looked for, its files unpacked, its steps and then
//! its checks run in a shell, and what came of it is attested.

use vstd::prelude::*;
use vstd::string::*;

use crate::cli::{find_flag, flag_value};
use crate::json::{
    array_model, field, i64_field, json_pretty, lemma_array_model, list_field, or_empty, pretty,
    text_field, texts_of, Json, JsonModel, JsonNumber,
};
use crate::package::{
    digested_of, files_of, is_package_id, law_valid_manifest, lemma_no_missing_key, list_files,
    lists_files, manifest_error, package_id, package_id_of, read_zip, required_keys, validate,
    zip_told, Digested, FileModel, ZipEntry,
};
use crate::text::{
    byte_prefix, bytes_text, cat, cat3, cut, decimal, decimal_text, has_text, is_filling, is_place,
    lemma_replaced_makes_no_place, lemma_replaced_without, lossy, replace, replaced, signed_decimal,
    signed_text, trim_end, trimmed_end,
};
use crate::text_laws::{law_replace_each, law_replace_skips};

verus! {

/// How many seconds one command may take.
pub const STEP_TIMEOUT: u64 = 120;

/// Where a program may lie, and whether a file is there.
pub struct Probe {
    pub path: String,
    pub is_file: bool,
}

/// The first place where a file is.
pub open spec fn first_file(probes: Seq<Probe>) -> Option<Seq<char>>
    decreases probes.len(),
{
    if probes.len() == 0 {
        None
    } else if probes[0].is_file {
        Some(probes[0].path@)
    } else {
        first_file(probes.skip(1))
    }
}

/// The names that a program's file may have, in the order in which they are tried.
pub fn exe_names(exe: &str, windows: bool) -> (r: Vec<String>)
    ensures
        texts_of(r@) == if windows {
            seq![exe@, exe@ + ".exe"@, exe@ + ".cmd"@, exe@ + ".bat"@]
        } else {
            seq![exe@]
        },
{
    let mut out: Vec<String> = Vec::new();
    out.push(exe.to_owned());
    if windows {
        out.push(cat(exe, ".exe"));
        out.push(cat(exe, ".cmd"));
        out.push(cat(exe, ".bat"));
    }
    assert(texts_of(out@) =~= if windows {
        seq![exe@, exe@ + ".exe"@, exe@ + ".cmd"@, exe@ + ".bat"@]
    } else {
        seq![exe@]
    });
    out
}

/// Where a program is looked for: directory by directory, each by its number, and in
/// each under these names.
pub open spec fn tried(dirs: nat, names: Seq<Seq<char>>) -> Seq<(usize, Seq<char>)>
    decreases dirs,
{
    if dirs == 0 {
        Seq::empty()
    } else {
        tried((dirs - 1) as nat, names) + names.map_values(
            |name: Seq<char>| ((dirs - 1) as usize, name),
        )
    }
}

/// The order in which a program is looked for in so many directories.
pub fn search_order(exe: &str, windows: bool, dirs: usize) -> (r: Vec<(usize, String)>)
    ensures
        r@.map_values(|e: (usize, String)| (e.0, e.1@)) == tried(
            dirs as nat,
            if windows {
                seq![exe@, exe@ + ".exe"@, exe@ + ".cmd"@, exe@ + ".bat"@]
            } else {
                seq![exe@]
            },
        ),
{
    let names = exe_names(exe, windows);
    let ghost words = texts_of(names@);
    let ghost view = |e: (usize, String)| (e.0, e.1@);
    let mut out: Vec<(usize, String)> = Vec::new();
    let mut d: usize = 0;
    assert(out@.map_values(view) =~= tried(0, words));
    while d < dirs
        invariant
            d <= dirs,
            words == texts_of(names@),
            view == (|e: (usize, String)| (e.0, e.1@)),
            out@.map_values(view) == tried(d as nat, words),
        decreases dirs - d,
    {
        let ghost before = out@;
        let mut i: usize = 0;
        while i < names.len()
            invariant
                d < dirs,
                words == texts_of(names@),
                view == (|e: (usize, String)| (e.0, e.1@)),
                i <= names@.len(),
                out@.len() == before.len() + i,
                forall|k: int| 0 <= k < before.len() ==> #[trigger] out@[k] == before[k],
                forall|k: int|
                    before.len() <= k < out@.len() ==> view(#[trigger] out@[k]) == (
                        d,
                        words[k - before.len()],
                    ),
            decreases names@.len() - i,
        {
            out.push((d, names[i].clone()));
            i += 1;
        }
        assert(out@.map_values(view) =~= before.map_values(view) + words.map_values(
            |name: Seq<char>| ((d + 1 - 1) as usize, name),
        ));
        d += 1;
    }
    out
}

/// Finds a program among the places where it may lie.
pub fn which(exe: &str, probes: &[Probe]) -> (r: Result<String, String>)
    ensures
        match r {
            Ok(path) => first_file(probes@) == Some(path@),
            Err(e) => first_file(probes@) is None && e@ == "not found: "@ + exe@,
        },
{
    let mut i: usize = 0;
    assert(probes@.skip(0) == probes@);
    while i < probes.len()
        invariant
            i <= probes@.len(),
            first_file(probes@) == first_file(probes@.skip(i as int)),
        decreases probes@.len() - i,
    {
        assert(probes@.skip(i as int).skip(1) == probes@.skip(i + 1));
        if probes[i].is_file {
            return Ok(probes[i].path.clone());
        }
        i += 1;
    }
    Err(cat("not found: ", exe))
}

/// The shell that commands are run in: `bash`, or else `sh`.
pub open spec fn shell_of(bash: Seq<Probe>, sh: Seq<Probe>) -> Option<Seq<char>> {
    match first_file(bash) {
        Some(path) => Some(path),
        None => first_file(sh),
    }
}

/// Finds the shell that commands are run in, among the places where `bash` and `sh` may
/// lie: its path, and the flag before the command.
pub fn find_shell(bash: &[Probe], sh: &[Probe]) -> (r: Result<Vec<String>, String>)
    ensures
        match r {
            Ok(words) => shell_of(bash@, sh@) is Some && texts_of(words@) == seq![
                shell_of(bash@, sh@)->0,
                "-c"@,
            ],
            Err(e) => shell_of(bash@, sh@) is None && e@
                == "replay requires POSIX shell (bash/sh); Windows 请用 Git Bash"@,
        },
{
    let found = match which("bash", bash) {
        Ok(path) => Ok(path),
        Err(_) => which("sh", sh),
    };
    match found {
        Ok(path) => {
            let mut out: Vec<String> = Vec::new();
            out.push(path);
            out.push("-c".to_owned());
            assert(texts_of(out@) =~= seq![path@, "-c"@]);
            Ok(out)
        },
        Err(_) => Err("replay requires POSIX shell (bash/sh); Windows 请用 Git Bash".to_owned()),
    }
}

/// How a command ended.
pub enum CommandEnd {
    /// With this exit code; without one where it was killed.
    Exited(Option<i32>),
    /// It took too long.
    TimedOut,
}

/// What came of a command.
pub struct Ran {
    pub exit: i32,
    pub late: bool,
    pub out: String,
    pub err: String,
}

/// The exit code that is recorded: -1 where there is none.
pub open spec fn exit_of(end: CommandEnd) -> i32 {
    match end {
        CommandEnd::Exited(Some(code)) => code,
        _ => (-1) as i32,
    }
}

/// Reads what came of a command: its exit code and, without white space at the end, what
/// it wrote.
pub fn run_cmd(end: CommandEnd, stdout: &[u8], stderr: &[u8]) -> (r: Ran)
    ensures
        r.exit == exit_of(end),
        r.late == (end is TimedOut),
        r.out@ == trimmed_end(bytes_text(stdout@)),
        r.err@ == trimmed_end(bytes_text(stderr@)),
{
    let exit: i32 = match end {
        CommandEnd::Exited(Some(code)) => code,
        _ => -1,
    };
    let late = matches!(end, CommandEnd::TimedOut);
    Ran { exit, late, out: trim_end(&lossy(stdout)), err: trim_end(&lossy(stderr)) }
}

/// A command with its placeholders filled in.
pub open spec fn filled(cmd: Seq<char>, pkg: Seq<char>, work: Seq<char>) -> Seq<char> {
    replaced(replaced(cmd, "{{pkg}}"@, pkg), "{{work}}"@, work)
}

/// Fills the placeholders of a command in: first `{{pkg}}`, then `{{work}}`.
pub fn subst(cmd: &str, pkg: &str, work: &str) -> (r: String)
    ensures
        r@ == filled(cmd@, pkg@, work@),
{
    proof {
        reveal_strlit("{{pkg}}");
        reveal_strlit("{{work}}");
    }
    replace(&replace(cmd, "{{pkg}}", pkg), "{{work}}", work)
}

/// A command without placeholders is run as it stands.
pub proof fn law_subst_keeps_plain_commands(cmd: Seq<char>, pkg: Seq<char>, work: Seq<char>)
    requires
        !has_text(cmd, "{{pkg}}"@),
        !has_text(cmd, "{{work}}"@),
    ensures
        filled(cmd, pkg, work) == cmd,
{
    lemma_replaced_without(cmd, "{{pkg}}"@, pkg);
    lemma_replaced_without(cmd, "{{work}}"@, work);
}

/// A command that is filled in with paths holds no placeholder any more, and stays as it
/// is when it is filled in again.
pub proof fn law_filled_commands_are_settled(
    cmd: Seq<char>,
    pkg: Seq<char>,
    work: Seq<char>,
    other_pkg: Seq<char>,
    other_work: Seq<char>,
)
    requires
        is_filling(pkg),
        is_filling(work),
    ensures
        !has_text(filled(cmd, pkg, work), "{{pkg}}"@),
        !has_text(filled(cmd, pkg, work), "{{work}}"@),
        filled(filled(cmd, pkg, work), other_pkg, other_work) == filled(cmd, pkg, work),
{
    reveal_strlit("{{pkg}}");
    reveal_strlit("{{work}}");
    let (p, w) = ("{{pkg}}"@, "{{work}}"@);
    assert(is_place(p) && is_place(w) && p != w);
    let half = replaced(cmd, p, pkg);
    let r = filled(cmd, pkg, work);
    if has_text(r, w) {
        lemma_replaced_makes_no_place(half, w, work, w);
    }
    if has_text(r, p) {
        lemma_replaced_makes_no_place(half, w, work, p);
        lemma_replaced_makes_no_place(cmd, p, pkg, p);
    }
    law_subst_keeps_plain_commands(r, other_pkg, other_work);
}

/// A path with `/` for each `\`.
pub fn slashed(path: &str) -> (r: String)
    ensures
        r@ == replaced(path@, "\\"@, "/"@),
{
    proof {
        reveal_strlit("\\");
    }
    replace(path, "\\", "/")
}

/// `std::time::SystemTime::elapsed` since the start of 1970, in whole seconds; none where
/// the clock stands before it. What it gives rests on the clock, and is not stated.
#[verifier::external_body]
fn clock_secs() -> (r: Option<u64>) {
    match std::time::SystemTime::UNIX_EPOCH.elapsed() {
        Ok(d) => Some(d.as_secs()),
        Err(_) => None,
    }
}

/// A time in text: the seconds, then `s`.
pub open spec fn time_in_text(secs: nat) -> Seq<char> {
    decimal_text(secs) + "s"@
}

/// Writes a time.
pub fn time_text(secs: u64) -> (r: String)
    ensures
        r@ == time_in_text(secs as nat),
{
    cat(&decimal(secs), "s")
}

/// The text of what the clock says: zero where it stands before the start of 1970.
pub open spec fn clock_in_text(reading: Option<u64>) -> Seq<char> {
    match reading {
        Some(secs) => time_in_text(secs as nat),
        None => time_in_text(0),
    }
}

/// Writes what the clock says.
pub fn clock_text(reading: Option<u64>) -> (r: String)
    ensures
        r@ == clock_in_text(reading),
{
    match reading {
        Some(secs) => time_text(secs),
        None => time_text(0),
    }
}

/// Writes the time by the clock: what it says is not stated, and how that is written is.
pub fn time_str() -> (r: String)
    ensures
        exists|reading: Option<u64>| r@ == #[trigger] clock_in_text(reading),
{
    let reading = clock_secs();
    let r = clock_text(reading);
    assert(r@ == clock_in_text(reading));
    r
}

/// A step: the command, and the exit code that it is to have.
pub struct Step {
    pub run: String,
    pub want: i64,
}

/// A [`Step`] as mathematics.
pub type StepModel = (Seq<char>, i64);

impl View for Step {
    type V = StepModel;

    open spec fn view(&self) -> StepModel {
        (self.run@, self.want)
    }
}

/// The steps as mathematics.
pub open spec fn steps_of(v: Seq<Step>) -> Seq<StepModel> {
    v.map_values(|s: Step| s@)
}

/// The exit code that a step is to have: zero, unless it says otherwise.
pub open spec fn wanted_exit(step: JsonModel) -> i64 {
    match field(step, "expect"@) {
        Some(expect) => match i64_field(expect, "exit"@) {
            Some(code) => code,
            None => 0,
        },
        None => 0,
    }
}

/// The list under a key, or the empty one.
pub open spec fn items_of(m: JsonModel, key: Seq<char>) -> Seq<JsonModel> {
    match list_field(m, key) {
        Some(items) => items,
        None => Seq::empty(),
    }
}

/// The steps that a manifest lists.
pub open spec fn steps_in(m: JsonModel) -> Seq<StepModel> {
    items_of(m, "steps"@).map_values(
        |step: JsonModel| (or_empty(text_field(step, "run"@)), wanted_exit(step)),
    )
}

/// A text, and the empty one for any other value.
pub open spec fn word_of(m: JsonModel) -> Seq<char> {
    match m {
        JsonModel::Text(s) => s,
        _ => Seq::empty(),
    }
}

/// The checks that a manifest lists.
pub open spec fn checks_in(m: JsonModel) -> Seq<Seq<char>> {
    items_of(m, "verify"@).map_values(|check: JsonModel| word_of(check))
}

/// The tools that a manifest asks for.
pub open spec fn tools_in(m: JsonModel) -> Seq<Seq<char>> {
    match field(m, "requirements"@) {
        Some(r) => items_of(r, "tools"@).map_values(
            |tool: JsonModel| or_empty(text_field(tool, "name"@)),
        ),
        None => Seq::empty(),
    }
}

fn read_steps(m: &Json) -> (r: Vec<Step>)
    ensures
        steps_of(r@) == steps_in(m.model()),
{
    let mut out: Vec<Step> = Vec::new();
    if let Some(items) = m.get_list("steps") {
        proof {
            lemma_array_model(items@);
        }
        let ghost all = array_model(items@);
        let mut i: usize = 0;
        while i < items.len()
            invariant
                i <= items@.len(),
                all == array_model(items@),
                all.len() == items@.len(),
                forall|k: int| 0 <= k < all.len() ==> #[trigger] all[k] == items@[k].model(),
                out@.len() == i,
                forall|k: int|
                    0 <= k < i ==> (#[trigger] out@[k])@ == (
                        or_empty(text_field(all[k], "run"@)),
                        wanted_exit(all[k]),
                    ),
            decreases items@.len() - i,
        {
            let step = &items[i];
            assert(all[i as int] == step.model());
            let code = match step.get("expect") {
                Some(expect) => expect.get_i64("exit"),
                None => None,
            };
            let want: i64 = match code {
                Some(code) => code,
                None => 0,
            };
            out.push(Step { run: step.get_word("run"), want });
            i += 1;
        }
        assert(items_of(m.model(), "steps"@) == all);
    }
    assert(steps_of(out@) =~= steps_in(m.model()));
    out
}

fn read_checks(m: &Json) -> (r: Vec<String>)
    ensures
        texts_of(r@) == checks_in(m.model()),
{
    let mut out: Vec<String> = Vec::new();
    if let Some(items) = m.get_list("verify") {
        proof {
            lemma_array_model(items@);
        }
        let ghost all = array_model(items@);
        let mut i: usize = 0;
        while i < items.len()
            invariant
                i <= items@.len(),
                all == array_model(items@),
                all.len() == items@.len(),
                forall|k: int| 0 <= k < all.len() ==> #[trigger] all[k] == items@[k].model(),
                out@.len() == i,
                forall|k: int| 0 <= k < i ==> (#[trigger] out@[k])@ == word_of(all[k]),
            decreases items@.len() - i,
        {
            assert(all[i as int] == items@[i as int].model());
            let word = match &items[i] {
                Json::Text(s) => s.clone(),
                _ => String::new(),
            };
            out.push(word);
            i += 1;
        }
        assert(items_of(m.model(), "verify"@) == all);
    }
    assert(texts_of(out@) =~= checks_in(m.model()));
    out
}

fn read_tools(m: &Json) -> (r: Vec<String>)
    ensures
        texts_of(r@) == tools_in(m.model()),
{
    let mut out: Vec<String> = Vec::new();
    if let Some(requirements) = m.get("requirements") {
        if let Some(items) = requirements.get_list("tools") {
            proof {
                lemma_array_model(items@);
            }
            let ghost all = array_model(items@);
            let mut i: usize = 0;
            while i < items.len()
                invariant
                    i <= items@.len(),
                    all == array_model(items@),
                    all.len() == items@.len(),
                    forall|k: int| 0 <= k < all.len() ==> #[trigger] all[k] == items@[k].model(),
                    out@.len() == i,
                    forall|k: int|
                        0 <= k < i ==> (#[trigger] out@[k])@ == or_empty(
                            text_field(all[k], "name"@),
                        ),
                decreases items@.len() - i,
            {
                assert(all[i as int] == items@[i as int].model());
                out.push(items[i].get_word("name"));
                i += 1;
            }
            assert(items_of(requirements.model(), "tools"@) == all);
        }
    }
    assert(texts_of(out@) =~= tools_in(m.model()));
    out
}

/// What is to be done next.
pub enum ReplayPhase {
    /// Look for a tool.
    Tools,
    /// Look for the shell.
    Shell,
    /// Unpack the files.
    Unpack,
    /// Run a step.
    Steps,
    /// Run a check.
    Checks,
    /// Nothing: what came of it can be attested.
    Over,
    /// Nothing: the replay could not be carried out.
    Failed(String),
}

/// A [`ReplayPhase`] as mathematics.
pub enum PhaseModel {
    Tools,
    Shell,
    Unpack,
    Steps,
    Checks,
    Over,
    Failed(Seq<char>),
}

impl View for ReplayPhase {
    type V = PhaseModel;

    open spec fn view(&self) -> PhaseModel {
        match self {
            ReplayPhase::Tools => PhaseModel::Tools,
            ReplayPhase::Shell => PhaseModel::Shell,
            ReplayPhase::Unpack => PhaseModel::Unpack,
            ReplayPhase::Steps => PhaseModel::Steps,
            ReplayPhase::Checks => PhaseModel::Checks,
            ReplayPhase::Over => PhaseModel::Over,
            ReplayPhase::Failed(e) => PhaseModel::Failed(e@),
        }
    }
}

/// What came of it.
pub enum ReplayEvent {
    /// The tool was found, or not.
    Tool(bool),
    /// The shell, or why there is none.
    Shell(Result<Vec<String>, String>),
    /// The files are unpacked: where they lie, and where to work.
    Unpacked(String, String),
    /// The command has run.
    Ran(Ran),
    /// It could not be done.
    Error(String),
}

/// The replay of a package: what it asks for, how far it has come, the exit code of each
/// step with whether it was the wanted one, and the exit code of each check.
pub struct Replay {
    pub id: String,
    pub name: Json,
    pub tools: Vec<String>,
    pub steps: Vec<Step>,
    pub checks: Vec<String>,
    pub phase: ReplayPhase,
    pub found: usize,
    pub shell: Vec<String>,
    pub pkg: String,
    pub work: String,
    pub ran: Vec<(i32, bool)>,
    pub checked: Vec<i32>,
    pub ok: bool,
}

/// A [`Replay`] as mathematics.
pub struct ReplayModel {
    pub id: Seq<char>,
    pub name: JsonModel,
    pub tools: Seq<Seq<char>>,
    pub steps: Seq<StepModel>,
    pub checks: Seq<Seq<char>>,
    pub phase: PhaseModel,
    pub found: nat,
    pub shell: Seq<Seq<char>>,
    pub pkg: Seq<char>,
    pub work: Seq<char>,
    pub ran: Seq<(i32, bool)>,
    pub checked: Seq<i32>,
    pub ok: bool,
}

impl View for Replay {
    type V = ReplayModel;

    open spec fn view(&self) -> ReplayModel {
        ReplayModel {
            id: self.id@,
            name: self.name.model(),
            tools: texts_of(self.tools@),
            steps: steps_of(self.steps@),
            checks: texts_of(self.checks@),
            phase: self.phase@,
            found: self.found as nat,
            shell: texts_of(self.shell@),
            pkg: self.pkg@,
            work: self.work@,
            ran: self.ran@,
            checked: self.checked@,
            ok: self.ok,
        }
    }
}

/// The replay of a package with this manifest and this identity, at its start.
pub open spec fn replay_start(manifest: JsonModel, id: Seq<char>) -> ReplayModel {
    ReplayModel {
        id,
        name: field(manifest, "name"@)->0,
        tools: tools_in(manifest),
        steps: steps_in(manifest),
        checks: checks_in(manifest),
        phase: PhaseModel::Tools,
        found: 0,
        shell: Seq::empty(),
        pkg: Seq::empty(),
        work: Seq::empty(),
        ran: Seq::empty(),
        checked: Seq::empty(),
        ok: true,
    }.looking()
}

impl ReplayModel {
    pub open spec fn failed(self, e: Seq<char>) -> ReplayModel {
        ReplayModel { phase: PhaseModel::Failed(e), ..self }
    }

    /// The next tool is looked for; after the last one, the shell.
    pub open spec fn looking(self) -> ReplayModel {
        ReplayModel {
            phase: if self.found < self.tools.len() {
                PhaseModel::Tools
            } else {
                PhaseModel::Shell
            },
            ..self
        }
    }

    /// The next command is run: the steps, then the checks. After one that failed
    /// nothing more is run.
    pub open spec fn going(self) -> ReplayModel {
        ReplayModel {
            phase: if !self.ok {
                PhaseModel::Over
            } else if self.ran.len() < self.steps.len() {
                PhaseModel::Steps
            } else if self.checked.len() < self.checks.len() {
                PhaseModel::Checks
            } else {
                PhaseModel::Over
            },
            ..self
        }
    }

    /// A step has run: it is good where it was in time and had the wanted exit code.
    pub open spec fn step_ran(self, exit: i32, late: bool) -> ReplayModel {
        let good = !late && exit == self.steps[self.ran.len() as int].1;
        ReplayModel { ran: self.ran.push((exit, good)), ok: good, ..self }.going()
    }

    /// A check has run: it is good where its exit code was zero.
    pub open spec fn check_ran(self, exit: i32) -> ReplayModel {
        ReplayModel { checked: self.checked.push(exit), ok: exit == 0, ..self }.going()
    }

    /// How a replay goes on after what came of its phase.
    pub open spec fn next(self, event: ReplayEvent) -> ReplayModel {
        match (self.phase, event) {
            (PhaseModel::Tools, ReplayEvent::Tool(found)) => if found {
                ReplayModel { found: self.found + 1, ..self }.looking()
            } else {
                self.failed("tool missing on PATH: "@ + self.tools[self.found as int])
            },
            (PhaseModel::Shell, ReplayEvent::Shell(Ok(words))) => ReplayModel {
                shell: texts_of(words@),
                phase: PhaseModel::Unpack,
                ..self
            },
            (PhaseModel::Shell, ReplayEvent::Shell(Err(e))) => self.failed(e@),
            (PhaseModel::Unpack, ReplayEvent::Unpacked(pkg, work)) => ReplayModel {
                pkg: pkg@,
                work: work@,
                ..self
            }.going(),
            (PhaseModel::Steps, ReplayEvent::Ran(ran)) => self.step_ran(ran.exit, ran.late),
            (PhaseModel::Checks, ReplayEvent::Ran(ran)) => self.check_ran(ran.exit),
            (PhaseModel::Unpack, ReplayEvent::Error(e)) => self.failed(e@),
            (PhaseModel::Steps, ReplayEvent::Error(e)) => self.failed(e@),
            (PhaseModel::Checks, ReplayEvent::Error(e)) => self.failed(e@),
            _ => self,
        }
    }

    /// Each step that has run was good: in time, and with the wanted exit code.
    pub open spec fn steps_good(self) -> bool {
        forall|i: int| 0 <= i < self.ran.len() ==> (#[trigger] self.ran[i]).1
    }

    /// Each check that has run was good.
    pub open spec fn checks_good(self) -> bool {
        forall|i: int| 0 <= i < self.checked.len() ==> #[trigger] self.checked[i] == 0
    }

    /// The commands are run in order, and only as long as all was good; a step counts
    /// as good only with the wanted exit code.
    pub open spec fn wf(self) -> bool {
        &&& is_package_id(self.id)
        &&& self.found <= self.tools.len()
        &&& self.phase is Tools ==> self.found < self.tools.len()
        &&& self.ran.len() <= self.steps.len()
        &&& self.checked.len() <= self.checks.len()
        &&& forall|i: int|
            0 <= i < self.ran.len() && (#[trigger] self.ran[i]).1 ==> self.ran[i].0
                == self.steps[i].1
        &&& forall|i: int| 0 <= i < self.ran.len() - 1 ==> (#[trigger] self.ran[i]).1
        &&& forall|i: int| 0 <= i < self.checked.len() - 1 ==> #[trigger] self.checked[i] == 0
        &&& self.checked.len() > 0 ==> self.ran.len() == self.steps.len() && self.steps_good()
        &&& self.ok <==> self.steps_good() && self.checks_good()
        &&& self.phase is Tools || self.phase is Shell || self.phase is Unpack
            ==> self.ran.len() == 0 && self.checked.len() == 0
        &&& self.phase is Steps ==> self.ok && self.ran.len() < self.steps.len()
            && self.checked.len() == 0
        &&& self.phase is Checks ==> self.ok && self.ran.len() == self.steps.len()
            && self.checked.len() < self.checks.len()
        &&& self.phase is Over && self.ok ==> self.ran.len() == self.steps.len()
            && self.checked.len() == self.checks.len()
    }

    /// How many events are left at most.
    pub open spec fn left(self) -> nat {
        let commands = (self.steps.len() - self.ran.len()) + (self.checks.len()
            - self.checked.len());
        match self.phase {
            PhaseModel::Tools => ((self.tools.len() - self.found) + commands + 3) as nat,
            PhaseModel::Shell => (commands + 3) as nat,
            PhaseModel::Unpack => (commands + 2) as nat,
            PhaseModel::Steps => (commands + 1) as nat,
            PhaseModel::Checks => (commands + 1) as nat,
            _ => 0,
        }
    }
}

/// Whatever comes, a replay stays in order, keeps to its package, and either stays as it
/// is or comes nearer to its end.
pub proof fn law_replay_stays_in_order(m: ReplayModel, event: ReplayEvent)
    requires
        m.wf(),
    ensures
        m.next(event).wf(),
        m.next(event).id == m.id,
        m.next(event).name == m.name,
        m.next(event).tools == m.tools,
        m.next(event).steps == m.steps,
        m.next(event).checks == m.checks,
        m.next(event) == m || m.next(event).left() < m.left(),
{
    let n = m.next(event);
    match (m.phase, event) {
        (PhaseModel::Steps, ReplayEvent::Ran(ran)) => {
            assert(n.ran.drop_last() == m.ran);
            assert(n.ran.last() == n.ran[n.ran.len() - 1]);
            assert forall|i: int| 0 <= i < n.ran.len() - 1 implies (#[trigger] n.ran[i]).1 by {
                assert(n.ran[i] == m.ran[i]);
            }
            assert forall|i: int| 0 <= i < n.ran.len() && (#[trigger] n.ran[i]).1 implies n.ran[i].0
                == n.steps[i].1 by {
                if i < m.ran.len() {
                    assert(n.ran[i] == m.ran[i]);
                }
            }
        },
        (PhaseModel::Checks, ReplayEvent::Ran(ran)) => {
            assert(n.checked.drop_last() == m.checked);
            assert(n.checked.last() == n.checked[n.checked.len() - 1]);
            assert forall|i: int| 0 <= i < n.checked.len() - 1 implies #[trigger] n.checked[i]
                == 0 by {
                assert(n.checked[i] == m.checked[i]);
            }
        },
        _ => {},
    }
}

/// A replay that is over is attested as good if and only if each step ran in time and
/// with the wanted exit code, and each check with exit code zero.
pub proof fn law_ok_means_all_as_expected(m: ReplayModel)
    requires
        m.wf(),
        m.phase is Over,
    ensures
        m.ok <==> {
            &&& m.ran.len() == m.steps.len()
            &&& m.steps_good()
            &&& m.checked.len() == m.checks.len()
            &&& m.checks_good()
        },
        m.ok ==> forall|i: int|
            0 <= i < m.steps.len() ==> (#[trigger] m.ran[i]).0 == m.steps[i].1,
{
}

/// No package is attested as good for want of something to run: where its manifest can
/// be used, at least one step and one check have run.
pub proof fn law_attested_is_earned(manifest: JsonModel, m: ReplayModel)
    requires
        manifest_error(manifest) is None,
        m.wf(),
        m.steps == steps_in(manifest),
        m.checks == checks_in(manifest),
        m.phase is Over,
        m.ok,
    ensures
        m.ran.len() > 0,
        m.checked.len() > 0,
{
    law_valid_manifest(manifest);
}

/// Where a package is unpacked: a directory named after the start of its digest.
pub open spec fn dir_name(id: Seq<char>) -> Seq<char> {
    "mpkg-rs-"@ + id.subrange(7, 19)
}

/// What is to be done next, in full.
pub enum ReplayAction {
    /// Look for this tool.
    FindTool(String),
    /// Look for the shell.
    FindShell,
    /// Unpack the files below a directory of this name.
    Unpack(String),
    /// Run this command.
    Run(String),
    /// Nothing: what came of it can be attested.
    Over,
    /// Nothing: the replay could not be carried out.
    Failed(String),
}

/// What to say of a command that failed.
pub open spec fn complaint_of(m: ReplayModel, ran: Ran) -> Option<Seq<char>> {
    let tail = "\n  stderr: "@ + byte_prefix(ran.err@, 200);
    match m.phase {
        PhaseModel::Steps => {
            let want = m.steps[m.ran.len() as int].1;
            if !ran.late && ran.exit == want {
                None
            } else {
                Some(
                    "mpkg-rs: step "@ + decimal_text(m.ran.len() + 1) + " FAIL exit "@
                        + signed_text(ran.exit as int) + " != "@ + signed_text(want as int) + tail,
                )
            }
        },
        PhaseModel::Checks => if ran.exit == 0 {
            None
        } else {
            Some("mpkg-rs: verify FAIL: "@ + m.checks[m.checked.len() as int] + tail)
        },
        _ => None,
    }
}

impl Replay {
    /// What is to be done next.
    pub fn action(&self) -> (r: ReplayAction)
        requires
            self@.wf(),
        ensures
            match self.phase {
                ReplayPhase::Tools => r matches ReplayAction::FindTool(name) && name@
                    == self@.tools[self.found as int],
                ReplayPhase::Shell => r is FindShell,
                ReplayPhase::Unpack => r matches ReplayAction::Unpack(dir) && dir@ == dir_name(
                    self.id@,
                ),
                ReplayPhase::Steps => r matches ReplayAction::Run(cmd) && cmd@ == filled(
                    self@.steps[self.ran@.len() as int].0,
                    self.pkg@,
                    self.work@,
                ),
                ReplayPhase::Checks => r matches ReplayAction::Run(cmd) && cmd@ == filled(
                    self@.checks[self.checked@.len() as int],
                    self.pkg@,
                    self.work@,
                ),
                ReplayPhase::Over => r is Over,
                ReplayPhase::Failed(e) => r == ReplayAction::Failed(e),
            },
    {
        match &self.phase {
            ReplayPhase::Tools => ReplayAction::FindTool(self.tools[self.found].clone()),
            ReplayPhase::Shell => ReplayAction::FindShell,
            ReplayPhase::Unpack => {
                proof {
                    reveal_strlit("sha256:");
                    assert(self.id@.len() == 71);
                }
                ReplayAction::Unpack(cat("mpkg-rs-", self.id.as_str().substring_char(7, 19)))
            },
            ReplayPhase::Steps => {
                let step = &self.steps[self.ran.len()];
                assert(self@.steps[self.ran@.len() as int] == step@);
                ReplayAction::Run(subst(&step.run, &self.pkg, &self.work))
            },
            ReplayPhase::Checks => ReplayAction::Run(
                subst(&self.checks[self.checked.len()], &self.pkg, &self.work),
            ),
            ReplayPhase::Over => ReplayAction::Over,
            ReplayPhase::Failed(e) => ReplayAction::Failed(e.clone()),
        }
    }

    /// What to say where the command at hand has failed.
    pub fn complaint(&self, ran: &Ran) -> (r: Option<String>)
        requires
            self@.wf(),
        ensures
            match r {
                Some(words) => complaint_of(self@, *ran) == Some(words@),
                None => complaint_of(self@, *ran) is None,
            },
    {
        let tail = cat("\n  stderr: ", &cut(&ran.err, 200));
        match &self.phase {
            ReplayPhase::Steps => {
                let done = self.ran.len();
                let step = &self.steps[done];
                assert(self@.steps[done as int] == step@);
                let want = step.want;
                if !ran.late && ran.exit as i64 == want {
                    None
                } else {
                    assert(done < self.steps.len());
                    let head = cat3("mpkg-rs: step ", &decimal(done as u64 + 1), " FAIL exit ");
                    let exit = cat(&head, &signed_decimal(ran.exit as i64));
                    Some(cat(&cat3(&exit, " != ", &signed_decimal(want)), &tail))
                }
            },
            ReplayPhase::Checks => if ran.exit == 0 {
                None
            } else {
                Some(cat3("mpkg-rs: verify FAIL: ", &self.checks[self.checked.len()], &tail))
            },
            _ => None,
        }
    }

    fn go_on(&mut self)
        ensures
            final(self)@ == old(self)@.going(),
    {
        self.phase = if !self.ok {
            ReplayPhase::Over
        } else if self.ran.len() < self.steps.len() {
            ReplayPhase::Steps
        } else if self.checked.len() < self.checks.len() {
            ReplayPhase::Checks
        } else {
            ReplayPhase::Over
        };
    }

    /// Goes on after what came of the last action.
    pub fn advance(&mut self, event: ReplayEvent)
        requires
            old(self)@.wf(),
        ensures
            final(self)@ == old(self)@.next(event),
            final(self)@.wf(),
    {
        proof {
            law_replay_stays_in_order(self@, event);
        }
        match (&self.phase, event) {
            (ReplayPhase::Tools, ReplayEvent::Tool(found)) => if found {
                let n = self.tools.len();
                self.found += 1;
                self.phase = if self.found < n {
                    ReplayPhase::Tools
                } else {
                    ReplayPhase::Shell
                };
            } else {
                self.phase = ReplayPhase::Failed(
                    cat("tool missing on PATH: ", &self.tools[self.found]),
                );
            },
            (ReplayPhase::Shell, ReplayEvent::Shell(Ok(words))) => {
                self.shell = words;
                self.phase = ReplayPhase::Unpack;
            },
            (ReplayPhase::Shell, ReplayEvent::Shell(Err(e))) => {
                self.phase = ReplayPhase::Failed(e);
            },
            (ReplayPhase::Unpack, ReplayEvent::Unpacked(pkg, work)) => {
                self.pkg = pkg;
                self.work = work;
                self.go_on();
            },
            (ReplayPhase::Steps, ReplayEvent::Ran(ran)) => {
                let step = &self.steps[self.ran.len()];
                assert(self@.steps[self.ran@.len() as int] == step@);
                let good = !ran.late && ran.exit as i64 == step.want;
                self.ran.push((ran.exit, good));
                self.ok = good;
                self.go_on();
            },
            (ReplayPhase::Checks, ReplayEvent::Ran(ran)) => {
                self.checked.push(ran.exit);
                self.ok = ran.exit == 0;
                self.go_on();
            },
            (ReplayPhase::Unpack, ReplayEvent::Error(e)) => {
                self.phase = ReplayPhase::Failed(e);
            },
            (ReplayPhase::Steps, ReplayEvent::Error(e)) => {
                self.phase = ReplayPhase::Failed(e);
            },
            (ReplayPhase::Checks, ReplayEvent::Error(e)) => {
                self.phase = ReplayPhase::Failed(e);
            },
            _ => {},
        }
    }
}

/// Starts the replay of a package whose manifest can be used.
pub fn begin(manifest: &Json, entries: &[ZipEntry]) -> (r: Result<Replay, String>)
    ensures
        match r {
            Ok(replay) => {
                &&& manifest_error(manifest.model()) is None
                &&& replay@.wf()
                &&& list_field(manifest.model(), "steps"@) matches Some(steps)
                &&& replay.steps@.len() == steps.len()
                &&& list_field(manifest.model(), "verify"@) matches Some(checks)
                &&& replay.checks@.len() == checks.len()
                &&& forall|i: int|
                    0 <= i < checks.len() ==> (#[trigger] checks[i] matches JsonModel::Text(s)
                        ==> replay.checks@[i]@ == s)
                &&& exists|list: Seq<Digested>|
                    lists_files(list, files_of(entries@)) && replay@ == #[trigger] replay_start(
                        manifest.model(),
                        package_id_of(manifest.model(), list),
                    )
            },
            Err(e) => manifest_error(manifest.model()) == Some(e@),
        },
{
    match validate(manifest) {
        Err(e) => {
            return Err(e);
        },
        Ok(_) => {},
    }
    let files = list_files(entries);
    let id = package_id(manifest, &files);
    proof {
        lemma_no_missing_key(manifest.model(), required_keys(), 1);
    }
    let name = match manifest.get("name") {
        Some(name) => name.copy(),
        None => Json::Null,
    };
    let tools = read_tools(manifest);
    let phase = if tools.len() > 0 {
        ReplayPhase::Tools
    } else {
        ReplayPhase::Shell
    };
    let replay = Replay {
        id,
        name,
        tools,
        steps: read_steps(manifest),
        checks: read_checks(manifest),
        phase,
        found: 0,
        shell: Vec::new(),
        pkg: String::new(),
        work: String::new(),
        ran: Vec::new(),
        checked: Vec::new(),
        ok: true,
    };
    proof {
        let list = digested_of(files@);
        let start = replay_start(manifest.model(), package_id_of(manifest.model(), list));
        assert(replay@.shell =~= start.shell);
        assert(replay@.pkg =~= start.pkg);
        assert(replay@.work =~= start.work);
        assert(replay@ == start);
        law_valid_manifest(manifest.model());
        let checks = list_field(manifest.model(), "verify"@)->0;
        assert(replay@.steps.len() == replay.steps@.len());
        assert(replay@.checks.len() == replay.checks@.len());
        assert forall|i: int| 0 <= i < checks.len() implies (#[trigger] checks[i] matches
            JsonModel::Text(s) ==> replay.checks@[i]@ == s) by {
            assert(replay@.checks[i] == replay.checks@[i]@);
            assert(replay@.checks[i] == word_of(checks[i]));
        }
    }
    Ok(replay)
}

/// Why a package cannot be replayed; none where it can.
pub open spec fn package_error(bytes: Seq<u8>) -> Option<Seq<char>> {
    match zip_told(bytes) {
        Ok((manifest, _)) => manifest_error(manifest),
        Err(e) => Some(e),
    }
}

/// The replay of the package in these bytes, at its start.
pub open spec fn replays(replay: ReplayModel, bytes: Seq<u8>) -> bool {
    exists|manifest: JsonModel, files: Seq<FileModel>, list: Seq<Digested>|
        {
            &&& zip_told(bytes) == Ok::<(JsonModel, Seq<FileModel>), Seq<char>>(
                (manifest, files),
            )
            &&& #[trigger] lists_files(list, files)
            &&& replay == #[trigger] replay_start(manifest, package_id_of(manifest, list))
        }
}

/// Reads a package and starts its replay.
pub fn verify(package: Vec<u8>) -> (r: Result<Replay, String>)
    ensures
        match r {
            Ok(replay) => package_error(package@) is None && replay@.wf() && replays(
                replay@,
                package@,
            ),
            Err(e) => package_error(package@) == Some(e@),
        },
{
    match read_zip(package) {
        Ok((manifest, entries)) => begin(&manifest, &entries),
        Err(e) => Err(e),
    }
}

/// Where a package was replayed.
pub struct Host {
    pub os: String,
    pub arch: String,
    pub version: String,
}

/// An integer as a JSON value.
pub open spec fn int_json(n: i64) -> JsonModel {
    JsonModel::Number(
        if n < 0 {
            JsonNumber::Neg(n)
        } else {
            JsonNumber::Pos(n as u64)
        },
    )
}

/// The record of a step: its number, counted from one, its command as the manifest gives
/// it, its exit code, and whether that was the wanted one.
pub open spec fn step_record(m: ReplayModel, i: int) -> JsonModel {
    JsonModel::Object(
        map![
            "n"@ => JsonModel::Number(JsonNumber::Pos((i + 1) as u64)),
            "cmd"@ => JsonModel::Text(m.steps[i].0),
            "exit"@ => int_json(m.ran[i].0 as i64),
            "ok"@ => JsonModel::Bool(m.ran[i].1),
        ],
    )
}

/// The record of a check.
pub open spec fn check_record(m: ReplayModel, i: int) -> JsonModel {
    JsonModel::Object(
        map![
            "cmd"@ => JsonModel::Text(m.checks[i]),
            "exit"@ => int_json(m.checked[i] as i64),
        ],
    )
}

/// The shell that is attested.
pub open spec fn shell_path(m: ReplayModel) -> Seq<char> {
    if m.shell.len() > 0 {
        m.shell[0]
    } else {
        Seq::empty()
    }
}

/// What is attested of a replay.
pub open spec fn attested(m: ReplayModel, host: Host, time: Seq<char>) -> JsonModel {
    JsonModel::Object(
        map![
            "mpkg_id"@ => JsonModel::Text(m.id),
            "name"@ => m.name,
            "ok"@ => JsonModel::Bool(m.ok),
            "steps"@ => JsonModel::Array(Seq::new(m.ran.len(), |i: int| step_record(m, i))),
            "verify"@ => JsonModel::Array(Seq::new(m.checked.len(), |i: int| check_record(m, i))),
            "host"@ => JsonModel::Object(
                map![
                    "os"@ => JsonModel::Text(host.os@),
                    "arch"@ => JsonModel::Text(host.arch@),
                    "impl"@ => JsonModel::Text("cache-node-rs "@ + host.version@),
                    "shell"@ => JsonModel::Text(shell_path(m)),
                ],
            ),
            "replayed_at"@ => JsonModel::Text(time),
        ],
    )
}

impl Replay {
    fn step_records(&self) -> (r: Vec<Json>)
        requires
            self@.wf(),
        ensures
            array_model(r@) == Seq::new(self@.ran.len(), |i: int| step_record(self@, i)),
    {
        let n = self.ran.len();
        let mut out: Vec<Json> = Vec::new();
        let mut i: usize = 0;
        while i < n
            invariant
                self@.wf(),
                n == self.ran@.len(),
                i <= n,
                out@.len() == i,
                forall|k: int| 0 <= k < i ==> (#[trigger] out@[k]).model() == step_record(self@, k),
            decreases n - i,
        {
            assert(self@.steps[i as int] == self.steps@[i as int]@);
            let item = Json::object().with("n", Json::number(i as u64 + 1)).with(
                "cmd",
                Json::text(&self.steps[i].run),
            ).with("exit", Json::integer(self.ran[i].0 as i64)).with(
                "ok",
                Json::Bool(self.ran[i].1),
            );
            out.push(item);
            i += 1;
        }
        proof {
            lemma_array_model(out@);
            assert(array_model(out@) =~= Seq::new(self@.ran.len(), |i: int| step_record(self@, i)));
        }
        out
    }

    fn check_records(&self) -> (r: Vec<Json>)
        requires
            self@.wf(),
        ensures
            array_model(r@) == Seq::new(self@.checked.len(), |i: int| check_record(self@, i)),
    {
        let n = self.checked.len();
        let mut out: Vec<Json> = Vec::new();
        let mut i: usize = 0;
        while i < n
            invariant
                self@.wf(),
                n == self.checked@.len(),
                i <= n,
                out@.len() == i,
                forall|k: int|
                    0 <= k < i ==> (#[trigger] out@[k]).model() == check_record(self@, k),
            decreases n - i,
        {
            let item = Json::object().with("cmd", Json::text(&self.checks[i])).with(
                "exit",
                Json::integer(self.checked[i] as i64),
            );
            out.push(item);
            i += 1;
        }
        proof {
            lemma_array_model(out@);
            assert(array_model(out@) =~= Seq::new(
                self@.checked.len(),
                |i: int| check_record(self@, i),
            ));
        }
        out
    }

    /// Attests what came of the replay, at this time.
    pub fn attestation(&self, host: &Host, time: &str) -> (r: Json)
        requires
            self@.wf(),
        ensures
            r.model() == attested(self@, *host, time@),
    {
        let shell = if self.shell.len() > 0 {
            self.shell[0].clone()
        } else {
            String::new()
        };
        let place = Json::object().with("os", Json::text(&host.os)).with(
            "arch",
            Json::text(&host.arch),
        ).with("impl", Json::text(&cat("cache-node-rs ", &host.version))).with(
            "shell",
            Json::text(&shell),
        );
        Json::object().with("mpkg_id", Json::text(&self.id)).with("name", self.name.copy()).with(
            "ok",
            Json::Bool(self.ok),
        ).with("steps", Json::array(self.step_records())).with(
            "verify",
            Json::array(self.check_records()),
        ).with("host", place).with("replayed_at", Json::text(time))
    }
}

/// What a verification is asked for: the package, where the attestation is to be
/// written, and below which directory to work.
pub struct VerifyArgs {
    pub file: String,
    pub out: Option<String>,
    pub root: Option<String>,
}

/// A text that may be missing, as mathematics.
pub open spec fn maybe_text(s: Option<String>) -> Option<Seq<char>> {
    match s {
        Some(s) => Some(s@),
        None => None,
    }
}

/// Reads what a verification is asked for. Without a package it cannot be done, and how
/// to ask for it is said.
pub fn handle(argv: &[String]) -> (r: Result<VerifyArgs, String>)
    ensures
        match r {
            Ok(args) => {
                &&& argv@.len() > 0
                &&& argv@[0]@.len() > 0
                &&& args.file@ == argv@[0]@
                &&& maybe_text(args.out) == flag_value(texts_of(argv@), "--out"@)
                &&& maybe_text(args.root) == flag_value(texts_of(argv@), "--root"@)
            },
            Err(e) => {
                &&& argv@.len() == 0 || argv@[0]@.len() == 0
                &&& e@ == "usage: cache-node verify <file.mpkg> [--out att.json]"@
            },
        },
{
    if argv.len() == 0 || argv[0].as_str().unicode_len() == 0 {
        return Err("usage: cache-node verify <file.mpkg> [--out att.json]".to_owned());
    }
    Ok(
        VerifyArgs {
            file: argv[0].clone(),
            out: find_flag(argv, "--out"),
            root: find_flag(argv, "--root"),
        },
    )
}

/// How a verification ends: what is said, whether it is a result or an error, and the
/// code that the program exits with.
pub struct Ending {
    pub words: String,
    pub is_error: bool,
    pub code: i32,
}

/// Ends a verification: with zero for a package that is attested as good, two for one
/// that is not, and one where it could not be replayed.
pub fn ending(result: &Result<Json, String>) -> (r: Ending)
    ensures
        match *result {
            Ok(attestation) => {
                &&& r.words@ == json_pretty(attestation.model())
                &&& !r.is_error
                &&& r.code == if field(attestation.model(), "ok"@) == Some(
                    JsonModel::Bool(true),
                ) {
                    0int
                } else {
                    2
                }
            },
            Err(e) => {
                &&& r.words@ == "mpkg-rs: error: "@ + e@
                &&& r.is_error
                &&& r.code == 1
            },
        },
{
    match result {
        Ok(attestation) => {
            let good = match attestation.get("ok") {
                Some(Json::Bool(ok)) => *ok,
                _ => false,
            };
            Ending {
                words: pretty(attestation),
                is_error: false,
                code: if good {
                    0
                } else {
                    2
                },
            }
        },
        Err(e) => Ending { words: cat("mpkg-rs: error: ", e), is_error: true, code: 1 },
    }
}

/// An attestation says of itself whether the replay was good.
pub proof fn law_attestation_tells(m: ReplayModel, host: Host, time: Seq<char>)
    ensures
        field(attested(m, host, time), "ok"@) == Some(JsonModel::Bool(m.ok)),
        text_field(attested(m, host, time), "mpkg_id"@) == Some(m.id),
{
    reveal_strlit("mpkg_id");
    reveal_strlit("name");
    reveal_strlit("ok");
    reveal_strlit("steps");
    reveal_strlit("verify");
    reveal_strlit("host");
    reveal_strlit("replayed_at");
    assert("ok"@.len() == 2 && "mpkg_id"@.len() == 7);
}

/// A program is found at the first place where a file is, whatever lies behind it, and not
/// at all where none is.
pub proof fn law_first_place_with_a_file(before: Seq<Probe>, p: Probe, behind: Seq<Probe>)
    requires
        forall|i: int| 0 <= i < before.len() ==> !(#[trigger] before[i]).is_file,
        p.is_file,
    ensures
        first_file(before + seq![p] + behind) == Some(p.path@),
        first_file(before) is None,
    decreases before.len(),
{
    let all = before + seq![p] + behind;
    if before.len() == 0 {
        assert(all[0] == p);
    } else {
        let rest = before.skip(1);
        assert forall|i: int| 0 <= i < rest.len() implies !(#[trigger] rest[i]).is_file by {
            assert(rest[i] == before[i + 1]);
        }
        assert(all[0] == before[0]);
        assert(all.skip(1) =~= rest + seq![p] + behind);
        law_first_place_with_a_file(rest, p, behind);
    }
}

/// The shell is `bash` wherever it is found, and only otherwise `sh`.
pub proof fn law_which_shell(bash: Seq<Probe>, sh: Seq<Probe>)
    ensures
        first_file(bash) is Some ==> shell_of(bash, sh) == first_file(bash),
        first_file(bash) is None ==> shell_of(bash, sh) == first_file(sh),
{
}

/// In every directory every name is tried, directory by directory and there name by name.
pub proof fn law_every_place_is_tried(dirs: nat, names: Seq<Seq<char>>, d: int, n: int)
    requires
        dirs <= usize::MAX,
        0 <= d < dirs,
        0 <= n < names.len(),
    ensures
        tried(dirs, names).len() == dirs * names.len(),
        0 <= d * names.len() + n < dirs * names.len(),
        tried(dirs, names)[d * names.len() + n] == (d as usize, names[n]),
    decreases dirs,
{
    let last = (dirs - 1) as nat;
    let len = names.len() as int;
    lemma_tried_len(last, names);
    lemma_tried_len(dirs, names);
    assert(last * len + len == dirs * len) by (nonlinear_arith)
        requires
            last == dirs - 1,
    ;
    if d == last {
        assert(tried(dirs, names)[last * len + n] == (last as usize, names[n]));
    } else {
        law_every_place_is_tried(last, names, d, n);
        assert(tried(dirs, names)[d * len + n] == tried(last, names)[d * len + n]);
    }
}

proof fn lemma_tried_len(dirs: nat, names: Seq<Seq<char>>)
    ensures
        tried(dirs, names).len() == dirs * names.len(),
    decreases dirs,
{
    if dirs > 0 {
        lemma_tried_len((dirs - 1) as nat, names);
        assert((dirs - 1) * names.len() + names.len() == dirs * names.len()) by (nonlinear_arith);
    } else {
        assert(dirs * names.len() == 0) by (nonlinear_arith)
            requires
                dirs == 0,
        ;
    }
}

/// The exit code that a command ended with is recorded as it is, and -1 for one that has
/// none.
pub proof fn law_exit_code_is_recorded(code: i32)
    ensures
        exit_of(CommandEnd::Exited(Some(code))) == code,
        exit_of(CommandEnd::Exited(None)) == -1,
        exit_of(CommandEnd::TimedOut) == -1,
{
}

/// The first placeholder of a command is filled in with its path, whatever that is, what
/// stands before it stays, and the rest is filled in as if it stood alone.
pub proof fn law_each_placeholder_is_filled(
    before: Seq<char>,
    behind: Seq<char>,
    pkg: Seq<char>,
    work: Seq<char>,
)
    requires
        !before.contains('{'),
        !pkg.contains('{'),
    ensures
        filled(before + "{{pkg}}"@ + behind, pkg, work) == before + pkg + filled(
            behind,
            pkg,
            work,
        ),
        filled(before + "{{work}}"@ + behind, pkg, work) == before + work + filled(
            behind,
            pkg,
            work,
        ),
{
    reveal_strlit("{{pkg}}");
    reveal_strlit("{{work}}");
    let (p, w) = ("{{pkg}}"@, "{{work}}"@);
    let rest = replaced(behind, p, pkg);
    assert(p[0] == '{' && w[0] == '{');
    // The placeholder of the package
    lemma_plain_start(before, p + behind, p, pkg);
    assert(before + p + behind =~= before + (p + behind));
    assert forall|i: int| 0 <= i < 0 implies #[trigger] (Seq::<char>::empty() + p).subrange(
        i,
        i + p.len(),
    ) != p by {}
    law_replace_each(Seq::empty(), p, behind, pkg);
    assert(Seq::<char>::empty() + p + behind =~= p + behind);
    assert(Seq::<char>::empty() + pkg + rest =~= pkg + rest);
    let half = before + (pkg + rest);
    assert(replaced(before + p + behind, p, pkg) == half);
    let plain = before + pkg;
    assert forall|c: char| plain.contains(c) implies before.contains(c) || pkg.contains(c) by {
        let k = choose|k: int| 0 <= k < plain.len() && plain[k] == c;
        if k < before.len() {
            assert(before[k] == c);
        } else {
            assert(pkg[k - before.len()] == c);
        }
    }
    lemma_plain_start(plain, rest, w, work);
    assert(half =~= plain + rest);
    // The placeholder of the directory to work in
    lemma_plain_start(before, w + behind, p, pkg);
    assert(before + w + behind =~= before + (w + behind));
    assert forall|i: int| 0 <= i < w.len() implies !p.is_prefix_of(
        #[trigger] (w + behind).skip(i),
    ) by {
        let s = (w + behind).skip(i);
        if p.is_prefix_of(s) {
            assert(s.subrange(0, 7) == p);
            assert(s[0] == p[0] && s[1] == p[1] && s[2] == p[2]) by {
                assert(s.subrange(0, 7)[0] == s[0]);
                assert(s.subrange(0, 7)[1] == s[1]);
                assert(s.subrange(0, 7)[2] == s[2]);
            }
            assert(s[0] == w[i]);
            if i == 0 {
                assert(s[2] == w[2]);
            }
            if i == 1 {
                assert(s[1] == w[2]);
            }
        }
    }
    law_replace_skips(w, behind, p, pkg);
    assert(replaced(before + w + behind, p, pkg) =~= before + w + rest);
    lemma_plain_start(before, w + rest, w, work);
    assert(before + w + rest =~= before + (w + rest));
    law_replace_each(Seq::empty(), w, rest, work);
    assert(Seq::<char>::empty() + w + rest =~= w + rest);
    let end = replaced(rest, w, work);
    assert(Seq::<char>::empty() + work + end =~= work + end);
    assert(before + (work + end) =~= before + work + end);
}

proof fn lemma_plain_start(a: Seq<char>, b: Seq<char>, p: Seq<char>, w: Seq<char>)
    requires
        !a.contains('{'),
        p.len() > 0,
        p[0] == '{',
    ensures
        replaced(a + b, p, w) == a + replaced(b, p, w),
{
    assert forall|i: int| 0 <= i < a.len() implies !p.is_prefix_of(#[trigger] (a + b).skip(i)) by {
        let s = (a + b).skip(i);
        if p.is_prefix_of(s) {
            assert(s.subrange(0, p.len() as int)[0] == s[0]);
            assert(s[0] == a[i]);
            assert(a.contains(a[i]));
        }
    }
    law_replace_skips(a, b, p, w);
}

/// A replay runs what the manifest lists, all of it and in order: it has a step for each
/// item under `steps`, with the command under `run` and the exit code under `expect`,
/// `exit`, or zero; a check for each item under `verify`; and a tool for each item under
/// `requirements`, `tools`. It carries the name of the package, and nothing has run yet.
pub proof fn law_replay_has_all_of_the_manifest(
    fields: Map<Seq<char>, JsonModel>,
    steps: Seq<JsonModel>,
    checks: Seq<JsonModel>,
    id: Seq<char>,
)
    requires
        fields.contains_key("steps"@),
        fields["steps"@] == JsonModel::Array(steps),
        fields.contains_key("verify"@),
        fields["verify"@] == JsonModel::Array(checks),
        fields.contains_key("name"@),
    ensures
        ({
            let m = replay_start(JsonModel::Object(fields), id);
            &&& m.id == id
            &&& m.name == fields["name"@]
            &&& m.steps.len() == steps.len()
            &&& forall|i: int|
                0 <= i < steps.len() ==> {
                    let (run, want) = #[trigger] m.steps[i];
                    &&& run == match steps[i] {
                        JsonModel::Object(step) => if step.contains_key("run"@) {
                            match step["run"@] {
                                JsonModel::Text(s) => s,
                                _ => Seq::<char>::empty(),
                            }
                        } else {
                            Seq::<char>::empty()
                        },
                        _ => Seq::<char>::empty(),
                    }
                    &&& want == match steps[i] {
                        JsonModel::Object(step) => if step.contains_key("expect"@) {
                            match step["expect"@] {
                                JsonModel::Object(expect) => if expect.contains_key("exit"@) {
                                    match expect["exit"@] {
                                        JsonModel::Number(JsonNumber::Neg(n)) => n as int,
                                        JsonModel::Number(JsonNumber::Pos(n)) => if n <= i64::MAX {
                                            n as int
                                        } else {
                                            0
                                        },
                                        _ => 0,
                                    }
                                } else {
                                    0
                                },
                                _ => 0,
                            }
                        } else {
                            0
                        },
                        _ => 0,
                    }
                }
            &&& m.checks.len() == checks.len()
            &&& forall|i: int|
                0 <= i < checks.len() ==> #[trigger] m.checks[i] == match checks[i] {
                    JsonModel::Text(s) => s,
                    _ => Seq::<char>::empty(),
                }
            &&& m.ran.len() == 0
            &&& m.checked.len() == 0
            &&& m.found == 0
            &&& m.ok
            &&& m.phase is Tools <==> m.tools.len() > 0
            &&& m.phase is Shell <==> m.tools.len() == 0
        }),
{
}

/// A tool is asked for by each item of the list under `requirements`, `tools`, by its name.
pub proof fn law_replay_asks_for_every_tool(
    fields: Map<Seq<char>, JsonModel>,
    requirements: Map<Seq<char>, JsonModel>,
    tools: Seq<JsonModel>,
    id: Seq<char>,
    bare: Map<Seq<char>, JsonModel>,
)
    requires
        fields.contains_key("requirements"@),
        fields["requirements"@] == JsonModel::Object(requirements),
        requirements.contains_key("tools"@),
        requirements["tools"@] == JsonModel::Array(tools),
        !bare.contains_key("requirements"@),
    ensures
        ({
            let m = replay_start(JsonModel::Object(fields), id);
            &&& m.tools.len() == tools.len()
            &&& forall|i: int|
                0 <= i < tools.len() ==> #[trigger] m.tools[i] == match tools[i] {
                    JsonModel::Object(tool) => if tool.contains_key("name"@) {
                        match tool["name"@] {
                            JsonModel::Text(s) => s,
                            _ => Seq::<char>::empty(),
                        }
                    } else {
                        Seq::<char>::empty()
                    },
                    _ => Seq::<char>::empty(),
                }
        }),
        replay_start(JsonModel::Object(bare), id).tools.len() == 0,
{
}

/// How a replay goes on: tool by tool, and without one it fails and says which; with the
/// shell that was found, or the reason that there is none; then step by step and check by
/// check. What ran is recorded as it ended. A step is good in time and with the wanted exit
/// code, a check with exit code zero, and after one that is not good nothing more runs.
pub proof fn law_turn_of_a_replay(
    m: ReplayModel,
    words: Vec<String>,
    pkg: String,
    work: String,
    ran: Ran,
    e: String,
)
    requires
        m.wf(),
    ensures
        m.phase is Tools ==> {
            &&& m.next(ReplayEvent::Tool(true)) == (ReplayModel {
                found: m.found + 1,
                phase: if m.found + 1 < m.tools.len() {
                    PhaseModel::Tools
                } else {
                    PhaseModel::Shell
                },
                ..m
            })
            &&& m.next(ReplayEvent::Tool(false)) == (ReplayModel {
                phase: PhaseModel::Failed(
                    "tool missing on PATH: "@ + m.tools[m.found as int],
                ),
                ..m
            })
        },
        m.phase is Shell ==> {
            &&& m.next(ReplayEvent::Shell(Ok(words))) == (ReplayModel {
                shell: texts_of(words@),
                phase: PhaseModel::Unpack,
                ..m
            })
            &&& m.next(ReplayEvent::Shell(Err(e))) == (ReplayModel {
                phase: PhaseModel::Failed(e@),
                ..m
            })
        },
        m.phase is Unpack ==> m.next(ReplayEvent::Unpacked(pkg, work)) == (ReplayModel {
            pkg: pkg@,
            work: work@,
            phase: if m.steps.len() > 0 {
                PhaseModel::Steps
            } else if m.checks.len() > 0 {
                PhaseModel::Checks
            } else {
                PhaseModel::Over
            },
            ..m
        }),
        m.phase is Steps ==> {
            let n = m.ran.len();
            let next = m.next(ReplayEvent::Ran(ran));
            if !ran.late && ran.exit == m.steps[n as int].1 {
                next == (ReplayModel {
                    ran: m.ran.push((ran.exit, true)),
                    phase: if n + 1 < m.steps.len() {
                        PhaseModel::Steps
                    } else if m.checks.len() > 0 {
                        PhaseModel::Checks
                    } else {
                        PhaseModel::Over
                    },
                    ..m
                })
            } else {
                next == (ReplayModel {
                    ran: m.ran.push((ran.exit, false)),
                    ok: false,
                    phase: PhaseModel::Over,
                    ..m
                })
            }
        },
        m.phase is Checks ==> {
            let n = m.checked.len();
            m.next(ReplayEvent::Ran(ran)) == (ReplayModel {
                checked: m.checked.push(ran.exit),
                ok: ran.exit == 0,
                phase: if ran.exit == 0 && n + 1 < m.checks.len() {
                    PhaseModel::Checks
                } else {
                    PhaseModel::Over
                },
                ..m
            })
        },
        m.phase is Unpack || m.phase is Steps || m.phase is Checks ==> m.next(
            ReplayEvent::Error(e),
        ) == (ReplayModel { phase: PhaseModel::Failed(e@), ..m }),
        m.phase is Over || m.phase is Failed ==> m.next(ReplayEvent::Ran(ran)) == m,
{
}

/// What a replay comes to after these events.
pub open spec fn replay_after(m: ReplayModel, events: Seq<ReplayEvent>) -> ReplayModel
    decreases events.len(),
{
    if events.len() == 0 {
        m
    } else {
        replay_after(m.next(events[0]), events.drop_first())
    }
}

proof fn lemma_replay_after(m: ReplayModel, events: Seq<ReplayEvent>)
    requires
        m.wf(),
    ensures
        replay_after(m, events).wf(),
        replay_after(m, events).id == m.id,
        replay_after(m, events).steps == m.steps,
        replay_after(m, events).checks == m.checks,
    decreases events.len(),
{
    if events.len() > 0 {
        law_replay_stays_in_order(m, events[0]);
        lemma_replay_after(m.next(events[0]), events.drop_first());
    }
}

/// A package is attested as good only where all of it ran and was good: whatever happens in
/// the replay of a manifest, where it is over and good there is an exit code for every item
/// under `steps`, the one that this step is to have, and for every item under `verify`,
/// which is zero.
pub proof fn law_good_means_everything_ran(
    fields: Map<Seq<char>, JsonModel>,
    steps: Seq<JsonModel>,
    checks: Seq<JsonModel>,
    id: Seq<char>,
    events: Seq<ReplayEvent>,
)
    requires
        fields.contains_key("steps"@),
        fields["steps"@] == JsonModel::Array(steps),
        fields.contains_key("verify"@),
        fields["verify"@] == JsonModel::Array(checks),
        is_package_id(id),
    ensures
        ({
            let start = replay_start(JsonModel::Object(fields), id);
            let end = replay_after(start, events);
            end.phase is Over && end.ok ==> {
                &&& end.ran.len() == steps.len()
                &&& forall|i: int|
                    0 <= i < steps.len() ==> (#[trigger] end.ran[i]).1 && end.ran[i].0
                        == start.steps[i].1
                &&& end.checked.len() == checks.len()
                &&& forall|i: int| 0 <= i < checks.len() ==> #[trigger] end.checked[i] == 0
            }
        }),
{
    let start = replay_start(JsonModel::Object(fields), id);
    assert(start.wf());
    lemma_replay_after(start, events);
    let end = replay_after(start, events);
    if end.phase is Over && end.ok {
        law_ok_means_all_as_expected(end);
        assert(end.steps.len() == steps.len());
        assert(end.checks.len() == checks.len());
        assert forall|i: int| 0 <= i < steps.len() implies (#[trigger] end.ran[i]).1 && end.ran[
        i].0 == start.steps[i].1 by {
            assert(end.ran[i].0 == end.steps[i].1);
        }
    }
}

/// The commands that are left, all good, as they end: the steps with their wanted exit codes
/// and in time, the checks with zero.
pub open spec fn ends_good(m: ReplayModel, runs: Seq<Ran>) -> bool {
    let left = m.steps.len() - m.ran.len();
    &&& runs.len() == left + (m.checks.len() - m.checked.len())
    &&& forall|i: int|
        0 <= i < runs.len() ==> if i < left {
            !(#[trigger] runs[i]).late && runs[i].exit == m.steps[m.ran.len() + i].1
        } else {
            runs[i].exit == 0
        }
}

/// Where every command that is left ends good, the replay is over and good, and has an exit
/// code for each step and each check.
pub proof fn law_all_good_is_attested_as_good(m: ReplayModel, runs: Seq<Ran>)
    requires
        m.wf(),
        m.phase is Steps || m.phase is Checks || m.phase is Over,
        m.ok,
        ends_good(m, runs),
    ensures
        ({
            let end = replay_after(m, runs.map_values(|r: Ran| ReplayEvent::Ran(r)));
            &&& end.phase is Over
            &&& end.ok
            &&& end.ran.len() == m.steps.len()
            &&& end.checked.len() == m.checks.len()
        }),
    decreases runs.len(),
{
    let events = runs.map_values(|r: Ran| ReplayEvent::Ran(r));
    if runs.len() > 0 {
        let rest = runs.drop_first();
        let event = ReplayEvent::Ran(runs[0]);
        assert(events[0] == event);
        law_replay_stays_in_order(m, event);
        let next = m.next(event);
        let left = m.steps.len() - m.ran.len();
        assert(if 0 < left {
            !runs[0].late && runs[0].exit == m.steps[m.ran.len() as int].1
        } else {
            runs[0].exit == 0
        });
        assert forall|i: int| 0 <= i < rest.len() implies if i < next.steps.len()
            - next.ran.len() {
            !(#[trigger] rest[i]).late && rest[i].exit == next.steps[next.ran.len() + i].1
        } else {
            rest[i].exit == 0
        } by {
            assert(rest[i] == runs[i + 1]);
            if i + 1 < left {
                assert(next.ran.len() + i == m.ran.len() + (i + 1));
            }
        }
        assert(next.ok);
        law_all_good_is_attested_as_good(next, rest);
        assert(events.drop_first() =~= rest.map_values(|r: Ran| ReplayEvent::Ran(r)));
    }
}

/// The replay of the package in these bytes has all of its manifest and its identity.
pub proof fn law_package_is_replayed_in_full(
    replay: ReplayModel,
    bytes: Seq<u8>,
    fields: Map<Seq<char>, JsonModel>,
    files: Seq<FileModel>,
    steps: Seq<JsonModel>,
    checks: Seq<JsonModel>,
)
    requires
        replays(replay, bytes),
        zip_told(bytes) == Ok::<(JsonModel, Seq<FileModel>), Seq<char>>(
            (JsonModel::Object(fields), files),
        ),
        fields.contains_key("steps"@),
        fields["steps"@] == JsonModel::Array(steps),
        fields.contains_key("verify"@),
        fields["verify"@] == JsonModel::Array(checks),
    ensures
        replay.steps.len() == steps.len(),
        replay.checks.len() == checks.len(),
        forall|i: int|
            0 <= i < checks.len() ==> (checks[i] matches JsonModel::Text(s) ==> #[trigger]
                replay.checks[i] == s),
        exists|list: Seq<Digested>| #[trigger]
            lists_files(list, files) && replay.id == package_id_of(
                JsonModel::Object(fields),
                list,
            ),
{
    let (manifest, found, list) = choose|
        manifest: JsonModel,
        found: Seq<FileModel>,
        list: Seq<Digested>,
    |
        {
            &&& zip_told(bytes) == Ok::<(JsonModel, Seq<FileModel>), Seq<char>>(
                (manifest, found),
            )
            &&& #[trigger] lists_files(list, found)
            &&& replay == #[trigger] replay_start(manifest, package_id_of(manifest, list))
        };
    assert(manifest == JsonModel::Object(fields) && found == files);
    assert(lists_files(list, files));
}

/// A package that cannot be read is refused with the reason, and one whose manifest cannot
/// be used with what is wrong with it.
pub proof fn law_why_a_package_is_refused(
    bytes: Seq<u8>,
    manifest: JsonModel,
    files: Seq<FileModel>,
    e: Seq<char>,
)
    ensures
        zip_told(bytes) == Err::<(JsonModel, Seq<FileModel>), Seq<char>>(e) ==> package_error(bytes)
            == Some(e),
        zip_told(bytes) == Ok::<(JsonModel, Seq<FileModel>), Seq<char>>((manifest, files))
            ==> package_error(bytes) == manifest_error(manifest),
{
}

/// A package is unpacked below a directory that is named after the first twelve characters
/// of its digest.
pub proof fn law_where_a_package_is_unpacked(name: Seq<char>)
    requires
        name.len() == 64,
    ensures
        dir_name("sha256:"@ + name) == "mpkg-rs-"@ + name.take(12),
{
    reveal_strlit("sha256:");
    assert(("sha256:"@ + name).subrange(7, 19) =~= name.take(12));
}

/// What is said of a command that was not good: which step, counted from one, with which
/// exit code in place of which, or which check; and what it wrote to its error output, cut
/// to 200 bytes. Of one that was good nothing is said.
pub proof fn law_what_is_said_of_a_failure(m: ReplayModel, ran: Ran)
    ensures
        m.phase is Steps ==> {
            let want = m.steps[m.ran.len() as int].1;
            if !ran.late && ran.exit == want {
                complaint_of(m, ran) is None
            } else {
                complaint_of(m, ran) == Some(
                    "mpkg-rs: step "@ + decimal_text(m.ran.len() + 1) + " FAIL exit "@
                        + signed_text(ran.exit as int) + " != "@ + signed_text(want as int) + (
                    "\n  stderr: "@ + byte_prefix(ran.err@, 200)),
                )
            }
        },
        m.phase is Checks ==> if ran.exit == 0 {
            complaint_of(m, ran) is None
        } else {
            complaint_of(m, ran) == Some(
                "mpkg-rs: verify FAIL: "@ + m.checks[m.checked.len() as int] + (
                "\n  stderr: "@ + byte_prefix(ran.err@, 200)),
            )
        },
        !(m.phase is Steps) && !(m.phase is Checks) ==> complaint_of(m, ran) is None,
{
}

/// A time is written as its seconds in decimal and an `s`; where the clock cannot say it,
/// as zero.
pub proof fn law_time_is_written(secs: u64)
    ensures
        clock_in_text(Some(secs)) == decimal_text(secs as nat) + "s"@,
        clock_in_text(None) == decimal_text(0) + "s"@,
        time_in_text(secs as nat) == decimal_text(secs as nat) + "s"@,
{
}

/// An attestation holds all that came of a replay: a record for every step that ran, with
/// its number counted from one, its command, its exit code and whether it was good; one for
/// every check that ran, with its command and its exit code; whether all was good; and
/// what was replayed, where and when.
pub proof fn law_attestation_holds_everything(m: ReplayModel, host: Host, time: Seq<char>)
    requires
        m.ran.len() < u64::MAX,
    ensures
        attested(m, host, time) matches JsonModel::Object(fields) && {
            &&& fields.dom() == set![
                "mpkg_id"@,
                "name"@,
                "ok"@,
                "steps"@,
                "verify"@,
                "host"@,
                "replayed_at"@,
            ]
            &&& fields["mpkg_id"@] == JsonModel::Text(m.id)
            &&& fields["name"@] == m.name
            &&& fields["ok"@] == JsonModel::Bool(m.ok)
            &&& fields["replayed_at"@] == JsonModel::Text(time)
            &&& fields["steps"@] matches JsonModel::Array(steps)
            &&& steps.len() == m.ran.len()
            &&& forall|i: int|
                0 <= i < steps.len() ==> {
                    &&& (#[trigger] steps[i]) matches JsonModel::Object(step)
                    &&& step.dom() == set!["n"@, "cmd"@, "exit"@, "ok"@]
                    &&& step["n"@] == JsonModel::Number(JsonNumber::Pos((i + 1) as u64))
                    &&& step["cmd"@] == JsonModel::Text(m.steps[i].0)
                    &&& step["ok"@] == JsonModel::Bool(m.ran[i].1)
                    &&& m.ran[i].0 >= 0 ==> step["exit"@] == JsonModel::Number(
                        JsonNumber::Pos(m.ran[i].0 as u64),
                    )
                    &&& m.ran[i].0 < 0 ==> step["exit"@] == JsonModel::Number(
                        JsonNumber::Neg(m.ran[i].0 as i64),
                    )
                }
            &&& fields["verify"@] matches JsonModel::Array(checks)
            &&& checks.len() == m.checked.len()
            &&& forall|i: int|
                0 <= i < checks.len() ==> {
                    &&& (#[trigger] checks[i]) matches JsonModel::Object(check)
                    &&& check.dom() == set!["cmd"@, "exit"@]
                    &&& check["cmd"@] == JsonModel::Text(m.checks[i])
                    &&& m.checked[i] >= 0 ==> check["exit"@] == JsonModel::Number(
                        JsonNumber::Pos(m.checked[i] as u64),
                    )
                    &&& m.checked[i] < 0 ==> check["exit"@] == JsonModel::Number(
                        JsonNumber::Neg(m.checked[i] as i64),
                    )
                }
            &&& fields["host"@] matches JsonModel::Object(place)
            &&& place.dom() == set!["os"@, "arch"@, "impl"@, "shell"@]
            &&& place["os"@] == JsonModel::Text(host.os@)
            &&& place["arch"@] == JsonModel::Text(host.arch@)
            &&& place["impl"@] == JsonModel::Text("cache-node-rs "@ + host.version@)
            &&& m.shell.len() > 0 ==> place["shell"@] == JsonModel::Text(m.shell[0])
            &&& m.shell.len() == 0 ==> place["shell"@] == JsonModel::Text(Seq::empty())
        },
{
    reveal_strlit("mpkg_id");
    reveal_strlit("name");
    reveal_strlit("ok");
    reveal_strlit("steps");
    reveal_strlit("verify");
    reveal_strlit("host");
    reveal_strlit("replayed_at");
    assert("mpkg_id"@.len() == 7 && "name"@.len() == 4 && "ok"@.len() == 2 && "steps"@.len() == 5);
    assert("verify"@.len() == 6 && "host"@.len() == 4 && "replayed_at"@.len() == 11);
    assert("name"@[0] == 'n' && "host"@[0] == 'h');
    let fields = attested(m, host, time)->Object_0;
    assert(fields.dom() =~= set![
        "mpkg_id"@,
        "name"@,
        "ok"@,
        "steps"@,
        "verify"@,
        "host"@,
        "replayed_at"@,
    ]);
    lemma_place_record(m, host, time);
    let steps = fields["steps"@]->Array_0;
    assert forall|i: int| 0 <= i < steps.len() implies {
        &&& (#[trigger] steps[i]) == step_record(m, i)
    } by {}
    let checks = fields["verify"@]->Array_0;
    assert forall|i: int| 0 <= i < checks.len() implies {
        &&& (#[trigger] checks[i]) == check_record(m, i)
    } by {}
    assert forall|i: int| 0 <= i < steps.len() implies {
        &&& (#[trigger] steps[i]) matches JsonModel::Object(step)
        &&& step.dom() == set!["n"@, "cmd"@, "exit"@, "ok"@]
        &&& step["n"@] == JsonModel::Number(JsonNumber::Pos((i + 1) as u64))
        &&& step["cmd"@] == JsonModel::Text(m.steps[i].0)
        &&& step["ok"@] == JsonModel::Bool(m.ran[i].1)
        &&& m.ran[i].0 >= 0 ==> step["exit"@] == JsonModel::Number(
            JsonNumber::Pos(m.ran[i].0 as u64),
        )
        &&& m.ran[i].0 < 0 ==> step["exit"@] == JsonModel::Number(
            JsonNumber::Neg(m.ran[i].0 as i64),
        )
    } by {
        lemma_step_record(m, i);
    }
    assert forall|i: int| 0 <= i < checks.len() implies {
        &&& (#[trigger] checks[i]) matches JsonModel::Object(check)
        &&& check.dom() == set!["cmd"@, "exit"@]
        &&& check["cmd"@] == JsonModel::Text(m.checks[i])
        &&& m.checked[i] >= 0 ==> check["exit"@] == JsonModel::Number(
            JsonNumber::Pos(m.checked[i] as u64),
        )
        &&& m.checked[i] < 0 ==> check["exit"@] == JsonModel::Number(
            JsonNumber::Neg(m.checked[i] as i64),
        )
    } by {
        lemma_check_record(m, i);
    }
}

proof fn lemma_step_record(m: ReplayModel, i: int)
    ensures
        step_record(m, i) matches JsonModel::Object(step) && {
            &&& step.dom() == set!["n"@, "cmd"@, "exit"@, "ok"@]
            &&& step["n"@] == JsonModel::Number(JsonNumber::Pos((i + 1) as u64))
            &&& step["cmd"@] == JsonModel::Text(m.steps[i].0)
            &&& step["exit"@] == int_json(m.ran[i].0 as i64)
            &&& step["ok"@] == JsonModel::Bool(m.ran[i].1)
        },
{
    reveal_strlit("n");
    reveal_strlit("cmd");
    reveal_strlit("exit");
    reveal_strlit("ok");
    assert("n"@.len() == 1 && "cmd"@.len() == 3 && "exit"@.len() == 4 && "ok"@.len() == 2);
    assert(step_record(m, i)->Object_0.dom() =~= set!["n"@, "cmd"@, "exit"@, "ok"@]);
}

proof fn lemma_check_record(m: ReplayModel, i: int)
    ensures
        check_record(m, i) matches JsonModel::Object(check) && {
            &&& check.dom() == set!["cmd"@, "exit"@]
            &&& check["cmd"@] == JsonModel::Text(m.checks[i])
            &&& check["exit"@] == int_json(m.checked[i] as i64)
        },
{
    reveal_strlit("cmd");
    reveal_strlit("exit");
    assert("cmd"@.len() == 3 && "exit"@.len() == 4);
    assert(check_record(m, i)->Object_0.dom() =~= set!["cmd"@, "exit"@]);
}

proof fn lemma_place_record(m: ReplayModel, host: Host, time: Seq<char>)
    ensures
        attested(m, host, time)->Object_0["host"@] matches JsonModel::Object(place) && {
            &&& place.dom() == set!["os"@, "arch"@, "impl"@, "shell"@]
            &&& place["os"@] == JsonModel::Text(host.os@)
            &&& place["arch"@] == JsonModel::Text(host.arch@)
            &&& place["impl"@] == JsonModel::Text("cache-node-rs "@ + host.version@)
            &&& place["shell"@] == JsonModel::Text(shell_path(m))
        },
{
    reveal_strlit("replayed_at");
    reveal_strlit("host");
    reveal_strlit("os");
    reveal_strlit("arch");
    reveal_strlit("impl");
    reveal_strlit("shell");
    assert("replayed_at"@.len() == 11 && "host"@.len() == 4);
    assert("os"@.len() == 2 && "arch"@.len() == 4 && "impl"@.len() == 4 && "shell"@.len() == 5);
    assert("arch"@[0] == 'a' && "impl"@[0] == 'i');
    let place = attested(m, host, time)->Object_0["host"@]->Object_0;
    assert(place.dom() =~= set!["os"@, "arch"@, "impl"@, "shell"@]);
}

/// A command is filled in first with the one path and then with the other: a placeholder
/// that the first path brings is filled in too.
pub proof fn law_order_of_filling(cmd: Seq<char>, pkg: Seq<char>, work: Seq<char>)
    ensures
        filled(cmd, pkg, work) == replaced(replaced(cmd, "{{pkg}}"@, pkg), "{{work}}"@, work),
{
}

/// What does not fit the phase of a replay changes nothing.
pub proof fn law_what_does_not_fit_a_replay(m: ReplayModel, event: ReplayEvent)
    ensures
        m.phase is Tools && !(event is Tool) ==> m.next(event) == m,
        m.phase is Shell && !(event is Shell) ==> m.next(event) == m,
        m.phase is Unpack && !(event is Unpacked) && !(event is Error) ==> m.next(event) == m,
        (m.phase is Steps || m.phase is Checks) && !(event is Ran) && !(event is Error)
            ==> m.next(event) == m,
        m.phase is Over || m.phase is Failed ==> m.next(event) == m,
{
}

/// A replay is seen as it is.
pub proof fn law_replay_is_seen(r: Replay)
    ensures
        r@.id == r.id@,
        r@.name == r.name.model(),
        r@.tools.len() == r.tools@.len(),
        forall|i: int| 0 <= i < r.tools@.len() ==> #[trigger] r@.tools[i] == r.tools@[i]@,
        r@.steps.len() == r.steps@.len(),
        forall|i: int|
            0 <= i < r.steps@.len() ==> #[trigger] r@.steps[i] == (
                r.steps@[i].run@,
                r.steps@[i].want,
            ),
        r@.checks.len() == r.checks@.len(),
        forall|i: int| 0 <= i < r.checks@.len() ==> #[trigger] r@.checks[i] == r.checks@[i]@,
        r@.found == r.found,
        r@.shell.len() == r.shell@.len(),
        forall|i: int| 0 <= i < r.shell@.len() ==> #[trigger] r@.shell[i] == r.shell@[i]@,
        r@.pkg == r.pkg@,
        r@.work == r.work@,
        r@.ran == r.ran@,
        r@.checked == r.checked@,
        r@.ok == r.ok,
        r.phase matches ReplayPhase::Failed(e) ==> r@.phase == PhaseModel::Failed(e@),
        r@.phase is Tools <==> r.phase is Tools,
        r@.phase is Shell <==> r.phase is Shell,
        r@.phase is Unpack <==> r.phase is Unpack,
        r@.phase is Steps <==> r.phase is Steps,
        r@.phase is Checks <==> r.phase is Checks,
        r@.phase is Over <==> r.phase is Over,
        r@.phase is Failed <==> r.phase is Failed,
{
}

/// A word that was asked for is taken as it is, and none where there is none.
pub proof fn law_words_asked_for(s: String)
    ensures
        maybe_text(Some(s)) == Some(s@),
        maybe_text(None) is None,
{
}

} // verus!
