use crusts::c2rust::{
    command_for, create_makefile, intercept_build_command, is_c_source, run,
    run_bear_or_intercept_build, run_c2rust_transpile, Action, ProjectFiles, Stage,
};
use crusts::constants::PlatformConfig;

fn files(makefile: bool, lowercase: bool, configure: bool, configure_ac: bool) -> ProjectFiles {
    ProjectFiles {
        cargo_toml: false,
        compile_commands: false,
        makefile,
        lowercase_makefile: lowercase,
        configure,
        configure_ac,
    }
}

#[test]
fn converted_project_is_left_alone() {
    let mut f = files(false, false, false, false);
    f.cargo_toml = true;
    let s = run(Stage::Start, &f);
    assert_eq!(s.action, None);
    assert_eq!(s.next, Stage::Done);
    let mut g = files(true, false, false, false);
    g.compile_commands = true;
    assert_eq!(run(Stage::Start, &g).next, Stage::Done);
}

#[test]
fn project_without_makefile_gets_every_step() {
    let f = files(false, false, false, false);
    let mut stage = Stage::Start;
    let mut actions = Vec::new();
    while stage != Stage::Done {
        let s = run(stage, &f);
        if let Some(a) = s.action {
            actions.push(a);
        }
        stage = s.next;
    }
    assert_eq!(
        actions,
        vec![Action::CreateMakefile, Action::Autoreconf, Action::Configure, Action::Transpile]
    );
}

#[test]
fn makefile_written_on_the_way_is_seen_by_later_checks() {
    // The files as the caller sees them before each check.
    let before = files(false, false, false, false);
    let after = files(true, false, false, false);
    let observed = [before, before, after, after, after, after];
    let mut stage = Stage::Start;
    let mut actions = Vec::new();
    let mut i = 0;
    while stage != Stage::Done {
        let s = run(stage, &observed[i]);
        if let Some(a) = s.action {
            actions.push(a);
        }
        stage = s.next;
        i += 1;
    }
    assert_eq!(
        actions,
        vec![Action::CreateMakefile, Action::RecordCompileCommands, Action::Transpile]
    );
}

#[test]
fn lowercase_makefile_with_configure_ac() {
    let f = files(true, true, false, true);
    assert_eq!(run(Stage::CreateMakefile, &f).action, None);
    assert_eq!(run(Stage::Autoreconf, &f).action, Some(Action::Autoreconf));
    assert_eq!(run(Stage::Configure, &f).action, None);
    assert_eq!(run(Stage::RecordCompileCommands, &f).action, Some(Action::RecordCompileCommands));
    let g = files(true, true, true, false);
    assert_eq!(run(Stage::Configure, &g).action, Some(Action::Configure));
    let h = files(true, true, false, false);
    assert_eq!(run(Stage::CreateMakefile, &h).action, Some(Action::CreateMakefile));
}

#[test]
fn commands_of_the_steps() {
    let c = command_for(Action::Autoreconf).unwrap();
    assert_eq!(c.program, "autoreconf");
    assert_eq!(c.args, vec!["-fi".to_string()]);
    let c = command_for(Action::Configure).unwrap();
    assert_eq!(c.program, "./configure");
    assert!(c.args.is_empty());
    assert!(command_for(Action::Transpile).is_none());
    let c = intercept_build_command();
    assert_eq!(c.program, "intercept-build");
    assert_eq!(c.args, vec!["make".to_string()]);
}

#[test]
fn bear_arguments_follow_its_version() {
    let linux = PlatformConfig::linux();
    let c = run_bear_or_intercept_build(&linux, Some("bear 2.4.3\n"));
    assert_eq!(c.program, "bear");
    assert_eq!(c.args, vec!["make".to_string()]);
    let c = run_bear_or_intercept_build(&linux, Some("bear 3.0.19\n"));
    assert_eq!(c.program, "bear");
    assert_eq!(c.args, vec!["--".to_string(), "make".to_string()]);
    let c = run_bear_or_intercept_build(&linux, None);
    assert_eq!(c.program, "intercept-build");
    assert_eq!(c.args, vec!["make".to_string()]);
    let windows = PlatformConfig::windows();
    let c = run_bear_or_intercept_build(&windows, Some("intercept-build 1.0"));
    assert_eq!(c.program, "intercept-build");
    assert_eq!(c.args, vec!["make".to_string()]);
}

#[test]
fn transpile_installs_the_transpiler_first() {
    let (c, done) = run_c2rust_transpile(false);
    assert!(!done);
    assert_eq!(c.program, "cargo");
    assert_eq!(c.args, vec!["install".to_string(), "c2rust-transpile".to_string()]);
    let (c, done) = run_c2rust_transpile(true);
    assert!(done);
    assert_eq!(c.program, "c2rust-transpile");
    assert_eq!(
        c.args,
        vec!["-e", "-b", "main", "-o", ".", "compile_commands.json"]
            .into_iter()
            .map(|a| a.to_string())
            .collect::<Vec<_>>()
    );
}

#[test]
fn c_sources_are_recognised_by_extension() {
    assert!(is_c_source("./src/main.c"));
    assert!(is_c_source("./lib/x.cpp"));
    assert!(!is_c_source("./include/x.h"));
    assert!(!is_c_source("./.c"));
    assert!(!is_c_source("./README"));
}

#[test]
fn makefile_links_one_object_per_source() {
    let m = create_makefile(&vec!["./a.c".to_string(), "./src.c/b.cpp".to_string()]);
    let expected = "main: ./a.o \\\n./src.o/b.opp\n\tgcc -o main ./a.o \\\n./src.o/b.opp\n\n.c.o: \n\tgcc -c $<\n\n.cpp.o: \n\tg++ -c $<\n\nclean::\n\t\trm -rf Makefile main c2rust crusts compile_commands.json Cargo.lock target src build.rs Cargo.lock Cargo.toml lib.rs main.o rust-toolchain.toml ../metrics";
    assert_eq!(m, expected);
}

#[test]
fn makefile_of_a_project_without_sources() {
    let m = create_makefile(&vec![]);
    assert!(m.starts_with("main: \n\tgcc -o main \n\n.c.o: "));
}
