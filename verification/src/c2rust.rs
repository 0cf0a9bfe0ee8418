//! Conversion of a C project to Rust with c2rust: which build steps to take, in
//! which order, and the files and commands that they need.
use vstd::prelude::*;
use crate::constants::PlatformConfig;
use crate::text::{
    chars_of, contains, contains_str, join, join_strings, replace_all, replace_all_chars,
    string_from_chars, views,
};
use crate::utils::{command_line, is_file_with_ext, spec_path_extension, CommandLine};

verus! {

/// Which of the files that steer the conversion exist in the project's folder.
#[derive(Clone, Copy, Debug)]
pub struct ProjectFiles {
    /// `Cargo.toml`
    pub cargo_toml: bool,
    /// `compile_commands.json`
    pub compile_commands: bool,
    /// `Makefile`
    pub makefile: bool,
    /// `makefile`
    pub lowercase_makefile: bool,
    /// `configure`
    pub configure: bool,
    /// `configure.ac`
    pub configure_ac: bool,
}

/// The next check of the conversion.
#[derive(PartialEq, Eq, Structural, Clone, Copy, Debug)]
pub enum Stage {
    /// Whether the project was converted before.
    Start,
    /// Whether a Makefile has to be written.
    CreateMakefile,
    /// Whether `autoreconf` has to run.
    Autoreconf,
    /// Whether `./configure` has to run.
    Configure,
    /// Whether the compile commands can be recorded.
    RecordCompileCommands,
    /// The transpiling itself.
    Transpile,
    /// Nothing is left to do.
    Done,
}

/// A piece of outside work that the conversion asks for.
#[derive(PartialEq, Eq, Structural, Clone, Copy, Debug)]
pub enum Action {
    /// Write a Makefile that builds every C file of the project.
    CreateMakefile,
    /// Run `autoreconf -fi`.
    Autoreconf,
    /// Run `./configure`.
    Configure,
    /// Record the compile commands of `make` with bear or intercept-build.
    RecordCompileCommands,
    /// Run c2rust-transpile on the recorded compile commands.
    Transpile,
}

/// What a check decides: the outside work to do now, if any, and the next check.
pub struct Step {
    pub action: Option<Action>,
    pub next: Stage,
}

/// The project holds a Rust crate or recorded compile commands already.
pub open spec fn already_converted(f: ProjectFiles) -> bool {
    f.cargo_toml || f.compile_commands
}

/// A Makefile has to be written.
pub open spec fn needs_makefile(f: ProjectFiles) -> bool {
    !f.makefile || (f.lowercase_makefile && !f.configure && !f.configure_ac)
}

/// `autoreconf` has to run.
pub open spec fn needs_autoreconf(f: ProjectFiles) -> bool {
    !f.makefile || (f.lowercase_makefile && !f.configure && f.configure_ac)
}

/// `./configure` has to run.
pub open spec fn needs_configure(f: ProjectFiles) -> bool {
    !f.makefile || (f.lowercase_makefile && f.configure)
}

/// There is a Makefile to record the compile commands of.
pub open spec fn has_makefile(f: ProjectFiles) -> bool {
    f.makefile || f.lowercase_makefile
}

/// The decision of the check `stage` on a project whose files are `f`.
pub open spec fn step(stage: Stage, f: ProjectFiles) -> (Option<Action>, Stage) {
    match stage {
        Stage::Start => if already_converted(f) {
            (None, Stage::Done)
        } else {
            (None, Stage::CreateMakefile)
        },
        Stage::CreateMakefile => (
            if needs_makefile(f) { Some(Action::CreateMakefile) } else { None },
            Stage::Autoreconf,
        ),
        Stage::Autoreconf => (
            if needs_autoreconf(f) { Some(Action::Autoreconf) } else { None },
            Stage::Configure,
        ),
        Stage::Configure => (
            if needs_configure(f) { Some(Action::Configure) } else { None },
            Stage::RecordCompileCommands,
        ),
        Stage::RecordCompileCommands => (
            if has_makefile(f) { Some(Action::RecordCompileCommands) } else { None },
            Stage::Transpile,
        ),
        Stage::Transpile => (Some(Action::Transpile), Stage::Done),
        Stage::Done => (None, Stage::Done),
    }
}

/// Takes the check `stage` on a project whose files are, at this moment,
/// `files`: says what to do now and which check comes next. Starting from
/// `Stage::Start` and observing the files again before each check, a caller
/// that does each action asked for performs the conversion.
pub fn run(stage: Stage, files: &ProjectFiles) -> (s: Step)
    ensures
        (s.action, s.next) == step(stage, *files),
{
    match stage {
        Stage::Start => {
            if files.cargo_toml || files.compile_commands {
                Step { action: None, next: Stage::Done }
            } else {
                Step { action: None, next: Stage::CreateMakefile }
            }
        },
        Stage::CreateMakefile => {
            let needed = !files.makefile || (files.lowercase_makefile && !files.configure
                && !files.configure_ac);
            Step {
                action: if needed {
                    Some(Action::CreateMakefile)
                } else {
                    None
                },
                next: Stage::Autoreconf,
            }
        },
        Stage::Autoreconf => {
            let needed = !files.makefile || (files.lowercase_makefile && !files.configure
                && files.configure_ac);
            Step {
                action: if needed {
                    Some(Action::Autoreconf)
                } else {
                    None
                },
                next: Stage::Configure,
            }
        },
        Stage::Configure => {
            let needed = !files.makefile || (files.lowercase_makefile && files.configure);
            Step {
                action: if needed {
                    Some(Action::Configure)
                } else {
                    None
                },
                next: Stage::RecordCompileCommands,
            }
        },
        Stage::RecordCompileCommands => {
            let needed = files.makefile || files.lowercase_makefile;
            Step {
                action: if needed {
                    Some(Action::RecordCompileCommands)
                } else {
                    None
                },
                next: Stage::Transpile,
            }
        },
        Stage::Transpile => Step { action: Some(Action::Transpile), next: Stage::Done },
        Stage::Done => Step { action: None, next: Stage::Done },
    }
}

/// The position of a check in the order of the conversion.
pub open spec fn stage_rank(stage: Stage) -> nat {
    match stage {
        Stage::Start => 0,
        Stage::CreateMakefile => 1,
        Stage::Autoreconf => 2,
        Stage::Configure => 3,
        Stage::RecordCompileCommands => 4,
        Stage::Transpile => 5,
        Stage::Done => 6,
    }
}

/// The position of a piece of work in the order of the conversion: that of
/// the check that asks for it.
pub open spec fn action_rank(action: Action) -> nat {
    match action {
        Action::CreateMakefile => 1,
        Action::Autoreconf => 2,
        Action::Configure => 3,
        Action::RecordCompileCommands => 4,
        Action::Transpile => 5,
    }
}

/// The work asked for when the checks run from `stage` on, the i-th check
/// seeing the files `observed[i]`.
pub open spec fn trace(stage: Stage, observed: Seq<ProjectFiles>) -> Seq<Action>
    decreases observed.len(),
{
    if observed.len() == 0 || stage == Stage::Done {
        seq![]
    } else {
        let (action, next) = step(stage, observed[0]);
        let rest = trace(next, observed.skip(1));
        match action {
            Some(a) => seq![a] + rest,
            None => rest,
        }
    }
}

/// The check reached when the checks run from `stage` on, the i-th check
/// seeing the files `observed[i]`.
pub open spec fn final_stage(stage: Stage, observed: Seq<ProjectFiles>) -> Stage
    decreases observed.len(),
{
    if observed.len() == 0 || stage == Stage::Done {
        stage
    } else {
        final_stage(step(stage, observed[0]).1, observed.skip(1))
    }
}

/// Every check but the last leads to a later one, and asks only for the work
/// of its own place in the order.
pub proof fn lemma_step_advances(stage: Stage, f: ProjectFiles)
    requires
        stage != Stage::Done,
    ensures
        stage_rank(step(stage, f).1) > stage_rank(stage),
        step(stage, f).0 matches Some(a) ==> action_rank(a) == stage_rank(stage),
{
}

/// Whatever the checks see, the work they ask for comes in the order of the
/// conversion, each piece at most once, after the check they start from.
pub proof fn lemma_trace_in_order(stage: Stage, observed: Seq<ProjectFiles>)
    ensures
        forall|i: int| 0 <= i < trace(stage, observed).len() ==>
            action_rank(#[trigger] trace(stage, observed)[i]) >= stage_rank(stage),
        forall|i: int, j: int| 0 <= i < j < trace(stage, observed).len() ==>
            action_rank(#[trigger] trace(stage, observed)[i]) < action_rank(#[trigger] trace(stage, observed)[j]),
    decreases observed.len(),
{
    if observed.len() == 0 || stage == Stage::Done {
    } else {
        let (action, next) = step(stage, observed[0]);
        lemma_step_advances(stage, observed[0]);
        lemma_trace_in_order(next, observed.skip(1));
        let rest = trace(next, observed.skip(1));
        match action {
            Some(a) => {
                let t = seq![a] + rest;
                assert(t == trace(stage, observed));
                assert forall|i: int, j: int| 0 <= i < j < t.len() implies
                    action_rank(#[trigger] t[i]) < action_rank(#[trigger] t[j]) by {
                    if i == 0 {
                        assert(t[j] == rest[j - 1]);
                    } else {
                        assert(t[i] == rest[i - 1]);
                        assert(t[j] == rest[j - 1]);
                    }
                }
                assert forall|i: int| 0 <= i < t.len() implies
                    action_rank(#[trigger] t[i]) >= stage_rank(stage) by {
                    if i > 0 {
                        assert(t[i] == rest[i - 1]);
                    }
                }
            },
            None => {},
        }
    }
}

/// A project that holds a Rust crate or recorded compile commands when the
/// conversion starts is left as it is.
pub proof fn lemma_converted_project_untouched(observed: Seq<ProjectFiles>)
    requires
        observed.len() > 0,
        already_converted(observed[0]),
    ensures
        trace(Stage::Start, observed) == Seq::<Action>::empty(),
        final_stage(Stage::Start, observed) == Stage::Done,
{
    assert(trace(Stage::Done, observed.skip(1)) == Seq::<Action>::empty());
    assert(final_stage(Stage::Done, observed.skip(1)) == Stage::Done);
}

/// From `stage` on, the checks end within as many observations as there are
/// checks left, and the last piece of work is always the transpiling.
proof fn lemma_runs_to_transpile(stage: Stage, observed: Seq<ProjectFiles>)
    requires
        stage != Stage::Start,
        stage != Stage::Done,
        observed.len() >= 6 - stage_rank(stage),
    ensures
        final_stage(stage, observed) == Stage::Done,
        trace(stage, observed).len() > 0,
        trace(stage, observed).last() == Action::Transpile,
    decreases 6 - stage_rank(stage),
{
    let (action, next) = step(stage, observed[0]);
    if stage == Stage::Transpile {
        assert(observed.skip(1).len() == 0 || next == Stage::Done);
        assert(trace(next, observed.skip(1)) == Seq::<Action>::empty());
        assert(final_stage(next, observed.skip(1)) == Stage::Done);
        assert(trace(stage, observed) =~= seq![Action::Transpile]);
    } else {
        lemma_step_advances(stage, observed[0]);
        lemma_runs_to_transpile(next, observed.skip(1));
        let rest = trace(next, observed.skip(1));
        match action {
            Some(a) => {
                assert(trace(stage, observed) == seq![a] + rest);
                assert((seq![a] + rest).last() == rest.last());
            },
            None => {},
        }
    }
}

/// A project that holds neither a Rust crate nor recorded compile commands
/// when the conversion starts is transpiled: the checks end after six
/// observations at most, and the last piece of work they ask for is running
/// c2rust-transpile, which they ask for exactly once.
pub proof fn lemma_unconverted_project_is_transpiled(observed: Seq<ProjectFiles>)
    requires
        observed.len() >= 6,
        !already_converted(observed[0]),
    ensures
        final_stage(Stage::Start, observed) == Stage::Done,
        trace(Stage::Start, observed).len() > 0,
        trace(Stage::Start, observed).last() == Action::Transpile,
        forall|i: int| 0 <= i < trace(Stage::Start, observed).len() - 1 ==>
            #[trigger] trace(Stage::Start, observed)[i] != Action::Transpile,
{
    lemma_runs_to_transpile(Stage::CreateMakefile, observed.skip(1));
    lemma_trace_in_order(Stage::Start, observed);
    let t = trace(Stage::Start, observed);
    assert(t == trace(Stage::CreateMakefile, observed.skip(1)));
    assert forall|i: int| 0 <= i < t.len() - 1 implies #[trigger] t[i] != Action::Transpile by {
        assert(action_rank(t[i]) < action_rank(t[t.len() - 1]));
    }
}

/// Each build check asks for its work exactly where the files call for it:
/// a Makefile is written where there is no `Makefile`, or where a lowercase
/// `makefile` stands with neither `configure` nor `configure.ac`;
/// `autoreconf` runs where there is no `Makefile`, or where a lowercase
/// `makefile` stands with `configure.ac` but no `configure`; `./configure`
/// runs where there is no `Makefile`, or where a lowercase `makefile` stands
/// with `configure`; the compile commands are recorded wherever some
/// Makefile exists.
pub proof fn lemma_build_checks(f: ProjectFiles)
    ensures
        step(Stage::CreateMakefile, f).0 == Some(Action::CreateMakefile) <==> (!f.makefile || (
        f.lowercase_makefile && !f.configure && !f.configure_ac)),
        step(Stage::CreateMakefile, f).0 is None <==> (f.makefile && !(f.lowercase_makefile
            && !f.configure && !f.configure_ac)),
        step(Stage::Autoreconf, f).0 == Some(Action::Autoreconf) <==> (!f.makefile || (
        f.lowercase_makefile && !f.configure && f.configure_ac)),
        step(Stage::Autoreconf, f).0 is None <==> (f.makefile && !(f.lowercase_makefile
            && !f.configure && f.configure_ac)),
        step(Stage::Configure, f).0 == Some(Action::Configure) <==> (!f.makefile || (
        f.lowercase_makefile && f.configure)),
        step(Stage::Configure, f).0 is None <==> (f.makefile && !(f.lowercase_makefile
            && f.configure)),
        step(Stage::RecordCompileCommands, f).0 == Some(Action::RecordCompileCommands) <==> (
        f.makefile || f.lowercase_makefile),
{
}

/// A project that ships its own `Makefile` (and no lowercase `makefile`)
/// keeps it: no Makefile is written over it, and neither `autoreconf` nor
/// `./configure` runs, whatever `configure` scripts it has.
pub proof fn lemma_own_makefile_kept(f: ProjectFiles)
    requires
        f.makefile,
        !f.lowercase_makefile,
    ensures
        step(Stage::CreateMakefile, f).0 is None,
        step(Stage::Autoreconf, f).0 is None,
        step(Stage::Configure, f).0 is None,
        step(Stage::RecordCompileCommands, f).0 == Some(Action::RecordCompileCommands),
{
}

/// A project without a `Makefile` gets one written, then `autoreconf` and
/// `./configure` run for as long as it has no `Makefile`.
pub proof fn lemma_missing_makefile_built(f: ProjectFiles)
    requires
        !f.makefile,
    ensures
        step(Stage::CreateMakefile, f).0 == Some(Action::CreateMakefile),
        step(Stage::Autoreconf, f).0 == Some(Action::Autoreconf),
        step(Stage::Configure, f).0 == Some(Action::Configure),
{
}

/// The whole conversion of a project that is not converted yet and ships
/// its own `Makefile` (and no lowercase `makefile`) throughout: the compile
/// commands are recorded, and the code is transpiled; nothing else is done.
pub proof fn lemma_project_with_makefile_conversion(observed: Seq<ProjectFiles>)
    requires
        observed.len() >= 6,
        !already_converted(observed[0]),
        forall|i: int| 0 <= i < observed.len() ==> (#[trigger] observed[i]).makefile
            && !observed[i].lowercase_makefile,
    ensures
        trace(Stage::Start, observed) == seq![Action::RecordCompileCommands, Action::Transpile],
{
    let o = observed;
    assert forall|k: int| 0 <= k < 6 implies (#[trigger] o.skip(k))[0] == o[k] && o.skip(k).skip(
        1,
    ) =~= o.skip(k + 1) by {}
    assert(o.skip(0) =~= o);
    assert(trace(Stage::Done, o.skip(6)) == Seq::<Action>::empty());
    assert(trace(Stage::Transpile, o.skip(5)) == seq![Action::Transpile] + Seq::<Action>::empty());
    assert(trace(Stage::RecordCompileCommands, o.skip(4)) == seq![Action::RecordCompileCommands]
        + trace(Stage::Transpile, o.skip(5)));
    assert(trace(Stage::Configure, o.skip(3)) == trace(Stage::RecordCompileCommands, o.skip(4)));
    assert(trace(Stage::Autoreconf, o.skip(2)) == trace(Stage::Configure, o.skip(3)));
    assert(trace(Stage::CreateMakefile, o.skip(1)) == trace(Stage::Autoreconf, o.skip(2)));
    assert(trace(Stage::Start, o) == trace(Stage::CreateMakefile, o.skip(1)));
    assert(trace(Stage::Start, o) =~= seq![Action::RecordCompileCommands, Action::Transpile]);
}

/// The command that the work `action` runs, where it is one of the two that
/// run a single fixed command.
pub fn command_for(action: Action) -> (c: Option<CommandLine>)
    ensures
        action == Action::Autoreconf ==> (c matches Some(c) && c.program_text() == "autoreconf"@
            && c.args_text() == seq!["-fi"@]),
        action == Action::Configure ==> (c matches Some(c) && c.program_text() == "./configure"@
            && c.args_text() == Seq::<Seq<char>>::empty()),
        action != Action::Autoreconf && action != Action::Configure ==> c is None,
{
    match action {
        Action::Autoreconf => {
            let args: &[&str] = &["-fi"];
            Some(command_line("autoreconf", args))
        },
        Action::Configure => {
            let args: &[&str] = &[];
            let c = command_line("./configure", args);
            assert(c.args_text() =~= Seq::<Seq<char>>::empty());
            Some(c)
        },
        _ => None,
    }
}

/// `intercept-build make`, the way to record compile commands where bear cannot run.
pub fn intercept_build_command() -> (c: CommandLine)
    ensures
        c.program_text() == "intercept-build"@,
        c.args_text() == seq!["make"@],
{
    let args: &[&str] = &["make"];
    command_line("intercept-build", args)
}

/// The command that records the compile commands of `make`, given what
/// `bear --version` printed, or `None` where it could not run: bear with the
/// single argument `make` where it reports version 2.4.3, bear with the
/// platform's arguments otherwise, and intercept-build where bear cannot run.
pub fn run_bear_or_intercept_build(config: &PlatformConfig, version_output: Option<&str>) -> (c:
    CommandLine)
    ensures
        version_output is None ==> c.program_text() == "intercept-build"@ && c.args_text()
            == seq!["make"@],
        version_output matches Some(out) ==> c.program_text() == config.bear@ && c.args_text() == (
        if contains(out@, "bear 2.4.3"@) {
            seq!["make"@]
        } else {
            config.bear_args@.map_values(|a: &str| a@)
        }),
{
    match version_output {
        None => intercept_build_command(),
        Some(out) => {
            if contains_str(out, "bear 2.4.3") {
                let args: &[&str] = &["make"];
                command_line(config.bear, args)
            } else {
                command_line(config.bear, config.bear_args)
            }
        },
    }
}

/// The conversion's last command, given whether c2rust-transpile is
/// installed, and whether it is the last: c2rust-transpile on the recorded
/// compile commands where it is installed, and otherwise its installation
/// with cargo, after which the check has to be made again.
pub fn run_c2rust_transpile(transpiler_installed: bool) -> (r: (CommandLine, bool))
    ensures
        r.1 == transpiler_installed,
        transpiler_installed ==> r.0.program_text() == "c2rust-transpile"@ && r.0.args_text()
            == seq!["-e"@, "-b"@, "main"@, "-o"@, "."@, "compile_commands.json"@],
        !transpiler_installed ==> r.0.program_text() == "cargo"@ && r.0.args_text() == seq![
            "install"@,
            "c2rust-transpile"@,
        ],
{
    if transpiler_installed {
        let args: &[&str] = &["-e", "-b", "main", "-o", ".", "compile_commands.json"];
        (command_line("c2rust-transpile", args), true)
    } else {
        let args: &[&str] = &["install", "c2rust-transpile"];
        (command_line("cargo", args), false)
    }
}

/// The path names a C or C++ source file.
pub open spec fn is_c_source_path(p: Seq<char>) -> bool {
    spec_path_extension(p) == Some("c"@) || spec_path_extension(p) == Some("cpp"@)
}

/// Whether the path `p` names a C or C++ source file, by its extension.
pub fn is_c_source(p: &str) -> (r: bool)
    ensures
        r == is_c_source_path(p@),
        r == (spec_path_extension(p@) == Some(seq!['c']) || spec_path_extension(p@) == Some(
            seq!['c', 'p', 'p'],
        )),
{
    proof {
        lemma_c_sources(p@);
    }
    is_file_with_ext(p, "c") || is_file_with_ext(p, "cpp")
}

/// The C sources are the files whose extension is `c` or `cpp`, and no
/// others: a path with any other extension (`cc`, `h`, `o`, ...), or with
/// none, is not one.
pub proof fn lemma_c_sources(p: Seq<char>)
    ensures
        is_c_source_path(p) <==> (spec_path_extension(p) == Some(seq!['c'])
            || spec_path_extension(p) == Some(seq!['c', 'p', 'p'])),
        (spec_path_extension(p) matches Some(e) && e != seq!['c'] && e != seq!['c', 'p', 'p'])
            ==> !is_c_source_path(p),
        spec_path_extension(p) is None ==> !is_c_source_path(p),
{
    reveal_strlit("c");
    reveal_strlit("cpp");
    assert("c"@ =~= seq!['c']);
    assert("cpp"@ =~= seq!['c', 'p', 'p']);
}

/// The object file that the Makefile names for a source file: each `.c` in
/// its path becomes `.o`.
pub open spec fn object_name(c_file: Seq<char>) -> Seq<char> {
    replace_all(c_file, seq!['.', 'c'], seq!['.', 'o'])
}

/// The object files of the Makefile, one per line.
pub open spec fn object_list(c_files: Seq<Seq<char>>) -> Seq<char> {
    join(c_files.map_values(|f: Seq<char>| object_name(f)), " \\\n"@)
}

/// The rules that follow the main target in the Makefile.
pub open spec fn makefile_rules() -> Seq<char> {
    "\n\n.c.o: \n\tgcc -c $<\n\n.cpp.o: \n\tg++ -c $<\n\nclean::\n\t\trm -rf Makefile main c2rust crusts compile_commands.json Cargo.lock target src build.rs Cargo.lock Cargo.toml lib.rs main.o rust-toolchain.toml ../metrics"@
}

/// The Makefile written for a project with the source files `c_files`.
pub open spec fn makefile_text(c_files: Seq<Seq<char>>) -> Seq<char> {
    "main: "@ + object_list(c_files) + "\n\tgcc -o main "@ + object_list(c_files)
        + makefile_rules()
}

/// The Makefile for a project that has none and whose C and C++ files are
/// `c_files`: `main` links one object file per source file.
pub fn create_makefile(c_files: &Vec<String>) -> (m: String)
    ensures
        m@ == makefile_text(views(c_files@)),
{
    let from: Vec<char> = vec!['.', 'c'];
    let to: Vec<char> = vec!['.', 'o'];
    let mut objects: Vec<String> = Vec::new();
    let mut i: usize = 0;
    while i < c_files.len()
        invariant
            i <= c_files.len(),
            from@ == seq!['.', 'c'],
            to@ == seq!['.', 'o'],
            views(objects@) == views(c_files@).map_values(|f: Seq<char>| object_name(f)).take(
                i as int,
            ),
        decreases c_files.len() - i,
    {
        let ghost before = views(objects@);
        let source = chars_of(c_files[i].as_str());
        let replaced = replace_all_chars(&source, &from, &to);
        let object = string_from_chars(&replaced, 0, replaced.len());
        assert(replaced@.subrange(0, replaced.len() as int) =~= replaced@);
        objects.push(object);
        assert(views(objects@) =~= before.push(object_name(c_files@[i as int]@)));
        i = i + 1;
        assert(views(objects@) =~= views(c_files@).map_values(|f: Seq<char>| object_name(f)).take(
            i as int,
        ));
    }
    assert(views(c_files@).map_values(|f: Seq<char>| object_name(f)).take(c_files.len() as int)
        =~= views(c_files@).map_values(|f: Seq<char>| object_name(f)));
    let obj = join_strings(&objects, " \\\n");
    let mut m = "main: ".to_owned();
    m.append(obj.as_str());
    m.append("\n\tgcc -o main ");
    m.append(obj.as_str());
    m.append(
        "\n\n.c.o: \n\tgcc -c $<\n\n.cpp.o: \n\tg++ -c $<\n\nclean::\n\t\trm -rf Makefile main c2rust crusts compile_commands.json Cargo.lock target src build.rs Cargo.lock Cargo.toml lib.rs main.o rust-toolchain.toml ../metrics",
    );
    m
}

} // verus!
