//! Paths and the commands that the pipeline runs.
use vstd::prelude::*;
use crate::auto_curs::{lacks, Diagnostic, Level, SpanLocation};
use crate::text::{
    chars_eq, chars_of, lines, lines_of, split, split_chars, split_from, string_from_chars, trim,
    trim_chars, views,
};
use cargo_metadata::diagnostic::DiagnosticLevel;
use cargo_metadata::Message;

verus! {

/// A program to run and the arguments to give it.
pub struct CommandLine {
    pub program: String,
    pub args: Vec<String>,
}

impl CommandLine {
    /// The program's name as text.
    pub open spec fn program_text(&self) -> Seq<char> {
        self.program@
    }

    /// The arguments as text.
    pub open spec fn args_text(&self) -> Seq<Seq<char>> {
        views(self.args@)
    }
}

/// A command line made of the program `program` and the arguments `args`.
pub fn command_line(program: &str, args: &[&str]) -> (c: CommandLine)
    ensures
        c.program_text() == program@,
        c.args_text() == args@.map_values(|a: &str| a@),
{
    let mut v: Vec<String> = Vec::new();
    let mut i: usize = 0;
    while i < args.len()
        invariant
            i <= args.len(),
            views(v@) == args@.map_values(|a: &str| a@).take(i as int),
        decreases args.len() - i,
    {
        let ghost before = views(v@);
        let a: &str = args[i];
        let owned = a.to_owned();
        assert(owned@ == args@[i as int]@);
        v.push(owned);
        assert(views(v@) =~= before.push(args@[i as int]@));
        i = i + 1;
        assert(views(v@) =~= args@.map_values(|a: &str| a@).take(i as int));
    }
    assert(args@.map_values(|a: &str| a@).take(args.len() as int) =~= args@.map_values(
        |a: &str| a@,
    ));
    CommandLine { program: program.to_owned(), args: v }
}

/// The final component of the path `path`, as std's `Path::file_name` finds it.
pub uninterp spec fn spec_path_file_name(path: Seq<char>) -> Option<Seq<char>>;

/// The path `path` without its final component, as std's `Path::parent` finds it.
pub uninterp spec fn spec_path_parent(path: Seq<char>) -> Option<Seq<char>>;

/// The index of the last `.` in `name`, if there is one.
pub open spec fn last_dot(name: Seq<char>) -> Option<int>
    decreases name.len(),
{
    if name.len() == 0 {
        None
    } else if name.last() == '.' {
        Some(name.len() - 1)
    } else {
        last_dot(name.drop_last())
    }
}

/// The extension of a file name, as std documents `Path::extension`: none
/// for `..`, for a name without a `.`, or for one whose only `.` comes
/// first; otherwise the part after the last `.`.
pub open spec fn name_extension(name: Seq<char>) -> Option<Seq<char>> {
    if name == ".."@ {
        None
    } else {
        match last_dot(name) {
            None => None,
            Some(i) => if i == 0 {
                None
            } else {
                Some(name.skip(i + 1))
            },
        }
    }
}

/// The extension of the path `path`: that of its final component, none
/// where it has none.
pub open spec fn spec_path_extension(path: Seq<char>) -> Option<Seq<char>> {
    match spec_path_file_name(path) {
        Some(name) => name_extension(name),
        None => None,
    }
}

/// std's `Path::extension` on the path `path`. The contract claims what std
/// documents: the extension is taken from the final component that
/// `Path::file_name` gives, by the rule of `name_extension`.
#[verifier::external_body]
fn path_extension(path: &str) -> (r: Option<String>)
    ensures
        match r {
            Some(e) => spec_path_extension(path@) == Some(e@),
            None => spec_path_extension(path@) is None,
        },
{
    match std::path::Path::new(path).extension() {
        Some(ext) => Some(ext.to_string_lossy().into_owned()),
        None => None,
    }
}

/// std's `Path::file_name` on the path `path`; the contract claims only that
/// the result is the value of `spec_path_file_name` on the path's text.
#[verifier::external_body]
fn path_file_name(path: &str) -> (r: Option<String>)
    ensures
        match r {
            Some(n) => spec_path_file_name(path@) == Some(n@),
            None => spec_path_file_name(path@) is None,
        },
{
    match std::path::Path::new(path).file_name() {
        Some(name) => Some(name.to_string_lossy().into_owned()),
        None => None,
    }
}

/// std's `Path::parent` on the path `path`; the contract claims only that the
/// result is the value of `spec_path_parent` on the path's text.
#[verifier::external_body]
fn path_parent(path: &str) -> (r: Option<String>)
    ensures
        match r {
            Some(p) => spec_path_parent(path@) == Some(p@),
            None => spec_path_parent(path@) is None,
        },
{
    match std::path::Path::new(path).parent() {
        Some(parent) => Some(parent.to_string_lossy().into_owned()),
        None => None,
    }
}

/// The text of an optional string.
pub open spec fn opt_view(t: Option<String>) -> Option<Seq<char>> {
    match t {
        Some(t) => Some(t@),
        None => None,
    }
}

/// Whether a path whose extension is `extension` (none where it has none)
/// has the extension `file_ext`.
pub fn has_extension(extension: Option<String>, file_ext: &str) -> (r: bool)
    ensures
        r == (opt_view(extension) == Some(file_ext@)),
{
    match extension {
        Some(ext) => {
            let a = chars_of(ext.as_str());
            let b = chars_of(file_ext);
            chars_eq(&a, &b)
        },
        None => false,
    }
}

/// Whether the path `p` has the extension `file_ext`.
pub fn is_file_with_ext(p: &str, file_ext: &str) -> (r: bool)
    ensures
        r == (spec_path_extension(p@) == Some(file_ext@)),
{
    has_extension(path_extension(p), file_ext)
}

/// Text of an optional path part, the empty text where there is none.
pub open spec fn text_or_empty(t: Option<Seq<char>>) -> Seq<char> {
    match t {
        Some(t) => t,
        None => Seq::empty(),
    }
}

/// The final component and the path before it, each empty where the path
/// has none, given what the path has of them.
pub fn filename_and_filepath(file_name: Option<String>, parent: Option<String>) -> (r: (
    String,
    String,
))
    ensures
        r.0@ == text_or_empty(opt_view(file_name)),
        r.1@ == text_or_empty(opt_view(parent)),
{
    let filename = match file_name {
        Some(name) => name,
        None => String::new(),
    };
    let filepath = match parent {
        Some(parent) => parent,
        None => String::new(),
    };
    (filename, filepath)
}

/// The final component of `file_path` and the path before it, each empty
/// where the path has none.
pub fn get_filename_and_filepath(file_path: &str) -> (r: (String, String))
    ensures
        r.0@ == text_or_empty(spec_path_file_name(file_path@)),
        r.1@ == text_or_empty(spec_path_parent(file_path@)),
{
    filename_and_filepath(path_file_name(file_path), path_parent(file_path))
}

/// What serde_json reads from the text `text`: nothing where `from_str` does
/// not accept the text as one JSON value; otherwise the text of the string
/// that the value's top-level field `key` holds, or none where there is no
/// such field or it is not a string.
pub uninterp spec fn spec_json_str_field(text: Seq<char>, key: Seq<char>) -> Option<
    Option<Seq<char>>,
>;

/// serde_json's `from_str` into a `serde_json::Value`, then `Value::get` of
/// the field `key` and `Value::as_str` on it. The contract claims only that
/// the result is the value of `spec_json_str_field` on the text and the key.
#[verifier::external_body]
fn json_str_field(text: &str, key: &str) -> (r: Option<Option<String>>)
    ensures
        match r {
            None => spec_json_str_field(text@, key@) is None,
            Some(None) => spec_json_str_field(text@, key@) == Some(None::<Seq<char>>),
            Some(Some(value)) => spec_json_str_field(text@, key@) == Some(Some(value@)),
        },
{
    match serde_json::from_str::<serde_json::Value>(text) {
        Ok(value) => match value.get(key) {
            Some(field) => match field.as_str() {
                Some(field) => Some(Some(field.to_owned())),
                None => Some(None),
            },
            None => Some(None),
        },
        Err(_) => None,
    }
}

/// What serde_json reads of the field `reason` of the text `text`.
pub open spec fn json_reason(text: Seq<char>) -> Option<Option<Seq<char>>> {
    spec_json_str_field(text, "reason"@)
}

/// The lines of `ls` that are not blank, trimmed, in order.
pub open spec fn nonblank_texts(ls: Seq<Seq<char>>) -> Seq<Seq<char>>
    decreases ls.len(),
{
    if ls.len() == 0 {
        seq![]
    } else {
        nonblank_texts(ls.drop_last()) + if trim(ls.last()).len() > 0 {
            seq![trim(ls.last())]
        } else {
            seq![]
        }
    }
}

/// The text of what serde_json read of a text.
pub open spec fn reason_view(r: Option<Option<String>>) -> Option<Option<Seq<char>>> {
    match r {
        None => None,
        Some(None) => Some(None),
        Some(Some(reason)) => Some(Some(reason@)),
    }
}

/// The texts and what serde_json read of each.
pub open spec fn entries_view(entries: Seq<(String, Option<Option<String>>)>) -> Seq<
    (Seq<char>, Option<Option<Seq<char>>>),
> {
    entries.map_values(|e: (String, Option<Option<String>>)| (e.0@, reason_view(e.1)))
}

/// The texts among `entries` whose `reason` is `compiler-message`, in order.
pub open spec fn selected(entries: Seq<(Seq<char>, Option<Option<Seq<char>>>)>) -> Seq<Seq<char>>
    decreases entries.len(),
{
    if entries.len() == 0 {
        seq![]
    } else {
        selected(entries.drop_last()) + if entries.last().1 == Some(Some("compiler-message"@)) {
            seq![entries.last().0]
        } else {
            seq![]
        }
    }
}

/// The compiler messages among the texts of cargo's JSON output, given for
/// each text what serde_json read of it: the texts whose `reason` is
/// `compiler-message`, in order; `None` where a text is not a JSON value.
pub fn select_compiler_messages(entries: Vec<(String, Option<Option<String>>)>) -> (r: Option<
    Vec<String>,
>)
    ensures
        r is Some <==> forall|i: int| 0 <= i < entries.len() ==> (#[trigger] entries@[i]).1 is Some,
        r matches Some(v) ==> views(v@) == selected(entries_view(entries@)),
{
    let ghost all = entries@;
    let target = chars_of("compiler-message");
    let mut out: Vec<String> = Vec::new();
    for entry in it: entries.into_iter()
        invariant
            it.seq() == all,
            target@ == "compiler-message"@,
            forall|j: int| 0 <= j < it.index() ==> (#[trigger] all[j]).1 is Some,
            views(out@) == selected(entries_view(all.take(it.index() as int))),
    {
        let ghost i = it.index();
        let ghost next = entries_view(all.take(i + 1));
        assert(next.drop_last() =~= entries_view(all.take(i as int)));
        assert(next.last() == (entry.0@, reason_view(entry.1)));
        let ghost before = views(out@);
        let (text, reason) = entry;
        match reason {
            None => {
                return None;
            },
            Some(reason) => {
                let keep = match &reason {
                    Some(r) => {
                        let rv = chars_of(r.as_str());
                        chars_eq(&rv, &target)
                    },
                    None => false,
                };
                if keep {
                    out.push(text);
                    assert(views(out@) =~= before + seq![next.last().0]);
                } else {
                    assert(views(out@) =~= before + Seq::<Seq<char>>::empty());
                }
            },
        }
    }
    assert(all.take(all.len() as int) =~= all);
    Some(out)
}

/// The compiler messages in the JSON output `stdout` of a cargo command:
/// its lines that, trimmed, are JSON values whose `reason` is
/// `compiler-message`, trimmed, in order; `None` where a line that is not
/// blank is not a JSON value.
pub fn compiler_messages(stdout: &str) -> (r: Option<Vec<String>>)
    ensures
        r is Some <==> forall|i: int| 0 <= i < nonblank_texts(lines(stdout@)).len() ==> json_reason(
            #[trigger] nonblank_texts(lines(stdout@))[i],
        ) is Some,
        r matches Some(v) ==> views(v@) == selected(
            nonblank_texts(lines(stdout@)).map_values(|t: Seq<char>| (t, json_reason(t))),
        ),
{
    let ls = lines_of(stdout);
    let ghost all = views(ls@);
    let ghost texts = nonblank_texts(all);
    let mut entries: Vec<(String, Option<Option<String>>)> = Vec::new();
    let mut i: usize = 0;
    while i < ls.len()
        invariant
            i <= ls.len(),
            all == views(ls@),
            all == lines(stdout@),
            entries_view(entries@) == nonblank_texts(all.take(i as int)).map_values(
                |t: Seq<char>| (t, json_reason(t)),
            ),
        decreases ls.len() - i,
    {
        let ghost prefix = all.take(i as int);
        let ghost next = all.take(i + 1);
        assert(next.drop_last() =~= prefix);
        assert(next.last() == ls@[i as int]@);
        let v = chars_of(ls[i].as_str());
        let trimmed = trim_chars(&v, 0, v.len());
        assert(v@.subrange(0, v.len() as int) =~= v@);
        let ghost before = entries_view(entries@);
        if trimmed.as_str().is_empty() {
            assert(nonblank_texts(next) =~= nonblank_texts(prefix));
        } else {
            let reason = json_str_field(trimmed.as_str(), "reason");
            let ghost tv = trimmed@;
            entries.push((trimmed, reason));
            assert(nonblank_texts(next) =~= nonblank_texts(prefix).push(tv));
            assert(entries_view(entries@) =~= before.push((tv, json_reason(tv))));
        }
        i = i + 1;
    }
    assert(all.take(ls.len() as int) =~= all);
    assert(entries@.len() == texts.len());
    assert forall|j: int| 0 <= j < entries.len() implies ((#[trigger] entries@[j]).1 is Some
        <==> json_reason(texts[j]) is Some) by {
        assert(entries_view(entries@)[j] == (entries@[j].0@, reason_view(entries@[j].1)));
    }
    let ghost ev = entries@;
    let r = select_compiler_messages(entries);
    proof {
        if r is Some {
            assert forall|j: int| 0 <= j < texts.len() implies json_reason(
                #[trigger] texts[j],
            ) is Some by {
                assert(ev[j].1 is Some);
            }
        } else {
            let j = choose|j: int| 0 <= j < ev.len() && !((#[trigger] ev[j]).1 is Some);
            assert(!(json_reason(texts[j]) is Some));
        }
    }
    r
}

/// A span as plain values: its file, its first line, and the file of the
/// span that its macro expansion comes from.
pub open spec fn span_view(s: SpanLocation) -> (Seq<char>, usize, Option<Seq<char>>) {
    (s.file_name@, s.line_start, opt_view(s.expansion_file_name))
}

/// A diagnostic as plain values: its level and its spans.
pub open spec fn diagnostic_view(d: Diagnostic) -> (Level, Seq<(Seq<char>, usize, Option<Seq<char>>)>) {
    (d.level, d.spans@.map_values(|s: SpanLocation| span_view(s)))
}

/// An optional diagnostic as plain values.
pub open spec fn opt_diagnostic_view(d: Option<Diagnostic>) -> Option<
    (Level, Seq<(Seq<char>, usize, Option<Seq<char>>)>),
> {
    match d {
        Some(d) => Some(diagnostic_view(d)),
        None => None,
    }
}

/// What cargo_metadata reads from the line `line` of cargo's JSON output:
/// where it is a compiler message at a level that cargo_metadata names, the
/// level and, for each span, the file, the first line and the file of the
/// span its macro expansion comes from; nothing otherwise.
pub uninterp spec fn spec_cargo_diagnostic(line: Seq<char>) -> Option<
    (Level, Seq<(Seq<char>, usize, Option<Seq<char>>)>),
>;

/// cargo_metadata's `Message::parse_stream` on the line `line`, and the first
/// message it reads, taken apart where it is a compiler message. The contract
/// claims only that the result is the value of `spec_cargo_diagnostic` on the
/// line. `parse_stream` turns serde_json's recursion limit off, so a line
/// nested deeply enough to exhaust the stack is left unsaid.
#[verifier::external_body]
fn cargo_diagnostic(line: &str) -> (r: Option<Diagnostic>)
    requires
        lacks(line@, '\n'),
    ensures
        spec_cargo_diagnostic(line@) == opt_diagnostic_view(r),
{
    let message = match Message::parse_stream(line.as_bytes()).next() {
        Some(Ok(Message::CompilerMessage(m))) => m.message,
        _ => return None,
    };
    let level = match message.level {
        DiagnosticLevel::Ice => Level::Ice, DiagnosticLevel::Error => Level::Error,
        DiagnosticLevel::Warning => Level::Warning, DiagnosticLevel::Note => Level::Note,
        DiagnosticLevel::FailureNote => Level::FailureNote, DiagnosticLevel::Help => Level::Help,
        _ => return None,
    };
    let spans = message.spans.into_iter().map(|s| SpanLocation { file_name: s.file_name,
        line_start: s.line_start, expansion_file_name: s.expansion.map(|e| e.span.file_name) });
    Some(Diagnostic { level, spans: spans.collect() })
}

/// The lines that `Message::parse_stream` reads from the text `s`: the
/// pieces between line feeds, without a last piece that is empty.
pub open spec fn stream_lines(s: Seq<char>) -> Seq<Seq<char>> {
    let parts = split(s, '\n');
    if parts.len() > 0 && parts.last().len() == 0 {
        parts.drop_last()
    } else {
        parts
    }
}

/// The values present among `s`, in order.
pub open spec fn present<A>(s: Seq<Option<A>>) -> Seq<A>
    decreases s.len(),
{
    if s.len() == 0 {
        seq![]
    } else {
        present(s.drop_last()) + match s.last() {
            Some(a) => seq![a],
            None => seq![],
        }
    }
}

/// The compiler messages among what was read from each line of cargo's
/// output, in order.
pub fn keep_compiler_messages(parsed: Vec<Option<Diagnostic>>) -> (r: Vec<Diagnostic>)
    ensures
        r@ == present(parsed@),
{
    let ghost all = parsed@;
    let mut r: Vec<Diagnostic> = Vec::new();
    for p in it: parsed.into_iter()
        invariant
            it.seq() == all,
            r@ == present(all.take(it.index() as int)),
    {
        let ghost i = it.index();
        assert(all.take(i + 1).drop_last() =~= all.take(i as int));
        assert(all.take(i + 1).last() == p);
        let ghost before = r@;
        match p {
            Some(d) => {
                r.push(d);
            },
            None => {
                assert(before + Seq::<Diagnostic>::empty() =~= before);
            },
        }
    }
    assert(all.take(all.len() as int) =~= all);
    r
}

/// Taking the present values commutes with viewing them.
proof fn lemma_present_views(s: Seq<Option<Diagnostic>>)
    ensures
        present(s).map_values(|d: Diagnostic| diagnostic_view(d)) == present(
            s.map_values(|o: Option<Diagnostic>| opt_diagnostic_view(o)),
        ),
    decreases s.len(),
{
    if s.len() > 0 {
        lemma_present_views(s.drop_last());
        let f = |o: Option<Diagnostic>| opt_diagnostic_view(o);
        assert(s.map_values(f).drop_last() =~= s.drop_last().map_values(f));
        let tail = match s.last() {
            Some(a) => seq![a],
            None => Seq::<Diagnostic>::empty(),
        };
        assert((present(s.drop_last()) + tail).map_values(|d: Diagnostic| diagnostic_view(d))
            =~= present(s.drop_last()).map_values(|d: Diagnostic| diagnostic_view(d))
            + tail.map_values(|d: Diagnostic| diagnostic_view(d)));
    }
}

/// The fields that splitting gives hold no separator.
proof fn lemma_split_fields_lack(s: Seq<char>, sep: char, cur: Seq<char>)
    requires
        lacks(cur, sep),
    ensures
        forall|i: int| 0 <= i < split_from(s, sep, cur).len() ==> lacks(
            #[trigger] split_from(s, sep, cur)[i],
            sep,
        ),
    decreases s.len(),
{
    let out = split_from(s, sep, cur);
    if s.len() == 0 {
        assert(out == seq![cur]);
        assert forall|i: int| 0 <= i < out.len() implies lacks(#[trigger] out[i], sep) by {
            assert(out[i] == cur);
        }
    } else if s[0] == sep {
        lemma_split_fields_lack(s.skip(1), sep, seq![]);
        let rest = split_from(s.skip(1), sep, seq![]);
        assert(out == seq![cur] + rest);
        assert forall|i: int| 0 <= i < out.len() implies lacks(#[trigger] out[i], sep) by {
            if i > 0 {
                assert(out[i] == rest[i - 1]);
            } else {
                assert(out[i] == cur);
            }
        }
    } else {
        assert(lacks(cur.push(s[0]), sep)) by {
            assert forall|j: int| 0 <= j < cur.push(s[0]).len() implies cur.push(s[0])[j]
                != sep by {
                if j < cur.len() {
                    assert(cur.push(s[0])[j] == cur[j]);
                }
            }
        }
        lemma_split_fields_lack(s.skip(1), sep, cur.push(s[0]));
        assert(out == split_from(s.skip(1), sep, cur.push(s[0])));
    }
}

/// The compiler messages that cargo_metadata reads from the JSON output
/// `stdout` of a cargo command, line by line, in order.
pub fn compiler_diagnostics(stdout: &str) -> (r: Vec<Diagnostic>)
    ensures
        r@.map_values(|d: Diagnostic| diagnostic_view(d)) == present(
            stream_lines(stdout@).map_values(|l: Seq<char>| spec_cargo_diagnostic(l)),
        ),
{
    let v = chars_of(stdout);
    let parts = split_chars(&v, '\n');
    proof {
        lemma_split_fields_lack(v@, '\n', seq![]);
    }
    let ghost ls = stream_lines(stdout@);
    let last = parts.len() - 1;
    let n = if parts[last].len() == 0 {
        last
    } else {
        parts.len()
    };
    assert(parts@.map_values(|f: Vec<char>| f@)[last as int] == parts@[last as int]@);
    assert(ls.len() == n);
    let mut parsed: Vec<Option<Diagnostic>> = Vec::new();
    let mut i: usize = 0;
    while i < n
        invariant
            i <= n <= parts.len(),
            ls.len() == n,
            parts@.map_values(|f: Vec<char>| f@) == split(stdout@, '\n'),
            ls == stream_lines(stdout@),
            forall|j: int| 0 <= j < n ==> ls[j] == split(stdout@, '\n')[j],
            forall|j: int| 0 <= j < split(stdout@, '\n').len() ==> lacks(
                #[trigger] split(stdout@, '\n')[j],
                '\n',
            ),
            parsed@.map_values(|o: Option<Diagnostic>| opt_diagnostic_view(o)) == ls.take(
                i as int,
            ).map_values(|l: Seq<char>| spec_cargo_diagnostic(l)),
        decreases n - i,
    {
        assert(parts@.map_values(|f: Vec<char>| f@)[i as int] == parts@[i as int]@);
        let line = string_from_chars(&parts[i], 0, parts[i].len());
        assert(parts@[i as int]@.subrange(0, parts@[i as int]@.len() as int) =~= parts@[i as int]@);
        assert(line@ == ls[i as int]);
        let d = cargo_diagnostic(line.as_str());
        let ghost before = parsed@;
        parsed.push(d);
        proof {
            let f = |o: Option<Diagnostic>| opt_diagnostic_view(o);
            let g = |l: Seq<char>| spec_cargo_diagnostic(l);
            assert(parsed@.map_values(f) =~= before.map_values(f).push(f(d)));
            assert(ls.take(i + 1).map_values(g) =~= ls.take(i as int).map_values(g).push(
                g(ls[i as int]),
            ));
        }
        i = i + 1;
    }
    assert(ls.take(n as int) =~= ls);
    let ghost all = parsed@;
    let r = keep_compiler_messages(parsed);
    proof {
        lemma_present_views(all);
    }
    r
}

} // verus!
