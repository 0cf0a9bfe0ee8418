//! Application of the TXL transformation rules to the Rust sources that c2rust produced.
use vstd::prelude::*;
use crate::constants::{rule_names, rules};
use crate::text::{chars_of, split, split_chars, string_from_chars, views};

verus! {

/// The name of the program that `txlc` compiles from the rule file
/// `filename`: the part before the first `.`, followed by `.x`.
pub open spec fn exe_name(filename: Seq<char>) -> Seq<char> {
    split(filename, '.')[0] + ".x"@
}

/// The program that `txlc` makes of the rule file `filename`.
pub fn exe_file_name(filename: &str) -> (r: String)
    ensures
        r@ == exe_name(filename@),
{
    let v = chars_of(filename);
    let parts = split_chars(&v, '.');
    assert(parts@.map_values(|f: Vec<char>| f@)[0] == parts@[0]@);
    let mut r = string_from_chars(&parts[0], 0, parts[0].len());
    assert(parts@[0]@.subrange(0, parts@[0]@.len() as int) =~= parts@[0]@);
    r.append(".x");
    r
}

/// The search path under which the rules run: the rules' folder and the
/// folder `cargo_bin` in front of the search path `path`.
pub open spec fn search_path(cargo_bin: Seq<char>, path: Seq<char>) -> Seq<char> {
    cargo_bin + "/Rust:"@ + cargo_bin + ":"@ + path
}

/// The search path under which the rules run, where the rules lie in
/// `cargo_bin/Rust` and the search path was `path`.
pub fn path_variable(cargo_bin: &str, path: &str) -> (r: String)
    ensures
        r@ == search_path(cargo_bin@, path@),
{
    let mut r = cargo_bin.to_owned();
    r.append("/Rust:");
    r.append(cargo_bin);
    r.append(":");
    r.append(path);
    r
}

/// The arguments of a rule applied to the source file `file`: the file,
/// `-`, and the rules' folder under `cargo_bin`.
pub fn txl_arguments(file: &str, cargo_bin: &str) -> (r: Vec<String>)
    ensures
        views(r@) == seq![file@, "-"@, cargo_bin@ + "/Rust"@],
{
    let mut folder = cargo_bin.to_owned();
    folder.append("/Rust");
    let mut r: Vec<String> = Vec::new();
    r.push(file.to_owned());
    r.push("-".to_owned());
    r.push(folder);
    assert(views(r@) =~= seq![file@, "-"@, cargo_bin@ + "/Rust"@]);
    r
}

/// The rules to apply, in order: the standard ones, then the program of the
/// user's own rule where there is one.
pub open spec fn rule_sequence(custom: Option<Seq<char>>) -> Seq<Seq<char>> {
    match custom {
        Some(exe) => rule_names().push(exe),
        None => rule_names(),
    }
}

/// The rules to apply, in order, where `custom_exe` is the program compiled
/// from the user's own rule, if any.
pub fn rule_list(custom_exe: Option<String>) -> (r: Vec<String>)
    ensures
        views(r@) == rule_sequence(
            match custom_exe {
                Some(e) => Some(e@),
                None => None,
            },
        ),
{
    let names = rules();
    let mut r: Vec<String> = Vec::new();
    let mut i: usize = 0;
    while i < names.len()
        invariant
            i <= names.len(),
            names@.map_values(|a: &str| a@) == rule_names(),
            views(r@) == rule_names().take(i as int),
        decreases names.len() - i,
    {
        let ghost before = views(r@);
        let name: &str = names[i];
        let owned = name.to_owned();
        assert(owned@ == rule_names()[i as int]);
        r.push(owned);
        assert(views(r@) =~= before.push(rule_names()[i as int]));
        i = i + 1;
        assert(views(r@) =~= rule_names().take(i as int));
    }
    assert(rule_names().take(names.len() as int) =~= rule_names());
    match custom_exe {
        Some(e) => {
            let ghost before = views(r@);
            let ghost ev = e@;
            r.push(e);
            assert(views(r@) =~= before.push(ev));
        },
        None => {},
    }
    r
}

} // verus!
