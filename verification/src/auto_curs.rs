//! Removal of the `unsafe` keywords that the curs model finds unneeded, and
//! their return where the compiler then reports errors.
use vstd::prelude::*;
use crate::text::{
    chars_eq, chars_of, contains, contains_chars, contains_str, join, join_strings, lines,
    lines_from, lines_of, matches_at, occurs_at, parse_usize, parses_as_usize, replace_first,
    replace_first_chars, split, split_chars, string_from_chars, strip_cr, usize_value, views,
};
use vstd::utf8::{decode_utf8, encode_utf8, is_char_boundary};

verus! {

/// One line of the curs model's output: a function of a file, whether the
/// model takes it for safe, and whether it is declared `unsafe`.
#[derive(Debug, Clone)]
pub struct Prediction {
    pub file_path: String,
    /// Line of the function, counted from 0.
    pub line: usize,
    /// Byte column of the function, counted from 0.
    pub col: usize,
    /// The model predicts that the function needs no `unsafe`.
    pub prediction: bool,
    /// The function is declared `unsafe`.
    pub actual: bool,
}

/// The comma-separated fields of a record.
pub open spec fn record_fields(s: Seq<char>) -> Seq<Seq<char>> {
    split(s, ',')
}

/// `s` is a text that `str::parse::<bool>` accepts: `true` or `false`.
pub open spec fn parses_as_bool(s: Seq<char>) -> bool {
    s == "true"@ || s == "false"@
}

/// `s` is a record that a prediction can be read from: seven fields or more,
/// the second and third a line and a column counted from 1, the seventh a
/// boolean.
pub open spec fn is_prediction_record(s: Seq<char>) -> bool {
    let f = record_fields(s);
    &&& f.len() >= 7
    &&& parses_as_usize(f[1])
    &&& usize_value(f[1]) >= 1
    &&& parses_as_usize(f[2])
    &&& usize_value(f[2]) >= 1
    &&& parses_as_bool(f[6])
}

/// A line number of the record, counted from 1, read as one counted from 0.
fn parse_position(field: &Vec<char>) -> (r: Option<usize>)
    ensures
        r is Some <==> parses_as_usize(field@) && usize_value(field@) >= 1,
        r matches Some(n) ==> n == usize_value(field@) - 1,
{
    match parse_usize(field) {
        Some(n) => if n >= 1 {
            Some(n - 1)
        } else {
            None
        },
        None => None,
    }
}

/// The boolean that the field writes, if it writes one.
fn parse_bool(field: &Vec<char>) -> (r: Option<bool>)
    ensures
        r is Some <==> parses_as_bool(field@),
        r matches Some(b) ==> b == (field@ == "true"@),
{
    let t = chars_of("true");
    let f = chars_of("false");
    if chars_eq(field, &t) {
        Some(true)
    } else if chars_eq(field, &f) {
        Some(false)
    } else {
        None
    }
}

/// `p` is the prediction that the record `s` writes: the file, the line and
/// the column counted from 1, whether the model's class (sixth field) names
/// the function other than `Unsafe`, and whether it is declared `unsafe`
/// (seventh field).
pub open spec fn reads_as(p: Prediction, s: Seq<char>) -> bool {
    let f = record_fields(s);
    &&& p.file_path@ == f[0]
    &&& p.line == usize_value(f[1]) - 1
    &&& p.col == usize_value(f[2]) - 1
    &&& p.prediction == !contains(f[5], "Unsafe"@)
    &&& p.actual == (f[6] == "true"@)
}

impl Prediction {
    /// Whether a prediction can be read from the record `s`.
    pub fn is_record(s: &str) -> (r: bool)
        ensures
            r == is_prediction_record(s@),
    {
        let v = chars_of(s);
        let parts = split_chars(&v, ',');
        proof {
            assert(parts@.len() == record_fields(s@).len());
        }
        if parts.len() < 7 {
            return false;
        }
        assert(parts@[1]@ == record_fields(s@)[1]);
        assert(parts@[2]@ == record_fields(s@)[2]);
        assert(parts@[6]@ == record_fields(s@)[6]);
        parse_position(&parts[1]).is_some() && parse_position(&parts[2]).is_some() && parse_bool(
            &parts[6],
        ).is_some()
    }

    /// The prediction that the record `s` writes: the file, the line and the
    /// column counted from 1, whether the model's class (sixth field) names
    /// the function other than `Unsafe`, and whether it is declared `unsafe`
    /// (seventh field).
    pub fn from_str(s: &str) -> (p: Self)
        requires
            is_prediction_record(s@),
        ensures
            reads_as(p, s@),
    {
        let v = chars_of(s);
        let parts = split_chars(&v, ',');
        assert(parts@.len() == record_fields(s@).len());
        assert(parts@[0]@ == record_fields(s@)[0]);
        assert(parts@[1]@ == record_fields(s@)[1]);
        assert(parts@[2]@ == record_fields(s@)[2]);
        assert(parts@[5]@ == record_fields(s@)[5]);
        assert(parts@[6]@ == record_fields(s@)[6]);
        let file_path = string_from_chars(&parts[0], 0, parts[0].len());
        assert(parts@[0]@.subrange(0, parts@[0]@.len() as int) =~= parts@[0]@);
        let line = match parse_position(&parts[1]) {
            Some(n) => n,
            None => 0,
        };
        let col = match parse_position(&parts[2]) {
            Some(n) => n,
            None => 0,
        };
        let unsafe_class = chars_of("Unsafe");
        let prediction = !contains_chars(&parts[5], &unsafe_class);
        let actual = match parse_bool(&parts[6]) {
            Some(b) => b,
            None => false,
        };
        Prediction { file_path, line, col, prediction, actual }
    }
}

/// The predictions that the model's output records `records` write, in
/// order; `None` where one of them cannot be read.
pub fn predictions_from_records(records: &Vec<String>) -> (r: Option<Vec<Prediction>>)
    ensures
        r is Some <==> forall|i: int| 0 <= i < records.len() ==> is_prediction_record(
            #[trigger] records@[i]@,
        ),
        r matches Some(v) ==> v.len() == records.len() && forall|i: int|
            0 <= i < records.len() ==> reads_as(#[trigger] v@[i], records@[i]@),
{
    let mut v: Vec<Prediction> = Vec::new();
    let mut i: usize = 0;
    while i < records.len()
        invariant
            i <= records.len(),
            v.len() == i,
            forall|j: int| 0 <= j < i ==> is_prediction_record(#[trigger] records@[j]@),
            forall|j: int| 0 <= j < i ==> reads_as(#[trigger] v@[j], records@[j]@),
        decreases records.len() - i,
    {
        let record: &str = records[i].as_str();
        if !Prediction::is_record(record) {
            return None;
        }
        let p = Prediction::from_str(record);
        v.push(p);
        i = i + 1;
    }
    Some(v)
}

/// The prediction calls for removing an `unsafe`: the model takes the
/// function for safe, and it is declared `unsafe`.
pub open spec fn calls_for_removal(p: Prediction) -> bool {
    p.prediction && !p.actual
}

/// The predictions that call for removing an `unsafe`, in their order.
pub fn predictions_to_remove(predictions: Vec<Prediction>) -> (r: Vec<Prediction>)
    ensures
        r@ == predictions@.filter(|p: Prediction| calls_for_removal(p)),
{
    let ghost all = predictions@;
    let mut r: Vec<Prediction> = Vec::new();
    for p in it: predictions.into_iter()
        invariant
            it.seq() == all,
            r@ == all.take(it.index() as int).filter(|p: Prediction| calls_for_removal(p)),
    {
        let ghost i = it.index();
        assert(all.take(i + 1).drop_last() =~= all.take(i as int));
        reveal_with_fuel(Seq::<_>::filter, 1);
        if p.prediction && !p.actual {
            r.push(p);
        }
    }
    assert(all.take(all.len() as int) =~= all);
    r
}

/// The file `content` once the line `line_number` is replaced by `line`,
/// where that line holds no `unsafe`; the lines are joined with `\n`.
pub open spec fn with_unsafe_added(content: Seq<char>, line: Seq<char>, line_number: int) -> Seq<
    char,
> {
    let ls = lines(content);
    if contains(ls[line_number], "unsafe"@) {
        content
    } else {
        join(ls.update(line_number, line), "\n"@)
    }
}

/// The text of the file `content` after the `unsafe` removed from the line
/// `line_number` is given back: that line becomes `line`, unless it holds an
/// `unsafe` already, in which case the file stays as it is.
pub fn add_unsafe_keyword(content: &str, line: String, line_number: usize) -> (r: String)
    requires
        line_number < lines(content@).len(),
    ensures
        r@ == with_unsafe_added(content@, line@, line_number as int),
{
    let mut ls = lines_of(content);
    assert(views(ls@) == lines(content@));
    if contains_str(ls[line_number].as_str(), "unsafe") {
        return content.to_owned();
    }
    let ghost before = views(ls@);
    ls.set(line_number, line);
    assert(views(ls@) =~= before.update(line_number as int, line@));
    join_strings(&ls, "\n")
}

/// The text of the line `l` from its byte `col` on.
pub open spec fn text_from_byte(l: Seq<char>, col: int) -> Seq<char> {
    decode_utf8(encode_utf8(l).subrange(col, encode_utf8(l).len() as int))
}

/// The lines, each followed by `\n`, as they are written back to a file.
pub open spec fn terminated_lines(ls: Seq<Seq<char>>) -> Seq<char>
    decreases ls.len(),
{
    if ls.len() == 0 {
        seq![]
    } else {
        terminated_lines(ls.drop_last()) + ls.last() + "\n"@
    }
}

/// The lines, each followed by `\n`.
fn write_lines(ls: &Vec<String>) -> (r: String)
    ensures
        r@ == terminated_lines(views(ls@)),
{
    let mut r = String::new();
    let mut i: usize = 0;
    while i < ls.len()
        invariant
            i <= ls.len(),
            r@ == terminated_lines(views(ls@).take(i as int)),
        decreases ls.len() - i,
    {
        assert(views(ls@).take(i + 1).drop_last() =~= views(ls@).take(i as int));
        r.append(ls[i].as_str());
        r.append("\n");
        i = i + 1;
    }
    assert(views(ls@).take(ls.len() as int) =~= views(ls@));
    r
}

impl Prediction {
    /// The line of the file `content` that the prediction points at.
    pub open spec fn pointed_line(&self, content: Seq<char>) -> Seq<char> {
        lines(content)[self.line as int]
    }

    /// The effect of the prediction on the file `content`: where the text of
    /// its line from its column on holds `unsafe`, the first `unsafe` of the
    /// line is removed, and the new text of the file is given with the line
    /// number and the text that was cut from the column on; otherwise the
    /// file stays as it is and `None` is given.
    pub fn remove_unsafe(&self, content: &str) -> (r: Option<(String, (usize, String))>)
        requires
            self.line < lines(content@).len(),
            is_char_boundary(encode_utf8(self.pointed_line(content@)), self.col as int),
        ensures
            r is Some <==> contains(
                text_from_byte(self.pointed_line(content@), self.col as int),
                "unsafe"@,
            ),
            r matches Some((c, (n, t))) ==> {
                &&& n == self.line
                &&& t@ == text_from_byte(self.pointed_line(content@), self.col as int)
                &&& c@ == terminated_lines(
                    lines(content@).update(
                        self.line as int,
                        replace_first(self.pointed_line(content@), "unsafe"@, Seq::empty()),
                    ),
                )
            },
    {
        let mut ls = lines_of(content);
        assert(views(ls@) == lines(content@));
        let l: &str = ls[self.line].as_str();
        assert(l@ == self.pointed_line(content@));
        let (_, rest) = l.split_at(self.col);
        proof {
            vstd::utf8::encode_utf8_decode_utf8(rest@);
        }
        assert(rest@ == text_from_byte(self.pointed_line(content@), self.col as int));
        let to_be_removed = rest.to_owned();
        if !contains_str(rest, "unsafe") {
            return None;
        }
        let chars = chars_of(l);
        let pattern = chars_of("unsafe");
        proof {
            reveal_strlit("unsafe");
        }
        let nothing: Vec<char> = Vec::new();
        let edited = replace_first_chars(&chars, &pattern, &nothing);
        let edited_line = string_from_chars(&edited, 0, edited.len());
        assert(edited@.subrange(0, edited.len() as int) =~= edited@);
        let ghost before = views(ls@);
        ls.set(self.line, edited_line);
        assert(views(ls@) =~= before.update(
            self.line as int,
            replace_first(self.pointed_line(content@), "unsafe"@, Seq::empty()),
        ));
        let new_content = write_lines(&ls);
        Some((new_content, (self.line, to_be_removed)))
    }
}

/// The prediction can be applied to the file `content`: its line is in the
/// file, and its column falls on a character of that line.
pub open spec fn removal_applies(p: Prediction, content: Seq<char>) -> bool {
    &&& p.line < lines(content).len()
    &&& is_char_boundary(encode_utf8(p.pointed_line(content)), p.col as int)
}

/// What applying the prediction `p` to the file `content` gives: where the
/// text of its line from its column on holds `unsafe`, the new text of the
/// file with the first `unsafe` of that line removed, and the line number
/// with the text cut from the column on; nothing otherwise.
pub open spec fn removal(p: Prediction, content: Seq<char>) -> Option<
    (Seq<char>, (usize, Seq<char>)),
> {
    let l = p.pointed_line(content);
    let cut = text_from_byte(l, p.col as int);
    if contains(cut, "unsafe"@) {
        Some(
            (
                terminated_lines(
                    lines(content).update(p.line as int, replace_first(l, "unsafe"@, Seq::empty())),
                ),
                (p.line, cut),
            ),
        )
    } else {
        None
    }
}

/// The file after the prediction `p` is applied to `content`.
pub open spec fn content_after(p: Prediction, content: Seq<char>) -> Seq<char> {
    match removal(p, content) {
        Some((c, _)) => c,
        None => content,
    }
}

/// Each of the predictions `ps`, in turn, can be applied to the file as the
/// ones before it left it.
pub open spec fn removals_apply(content: Seq<char>, ps: Seq<Prediction>) -> bool
    decreases ps.len(),
{
    ps.len() == 0 || (removal_applies(ps[0], content) && removals_apply(
        content_after(ps[0], content),
        ps.drop_first(),
    ))
}

/// The file after the predictions `ps` are applied to `content` in turn,
/// and the entries that those which removed an `unsafe` gave, in order.
pub open spec fn removals(content: Seq<char>, ps: Seq<Prediction>) -> (
    Seq<char>,
    Seq<(usize, Seq<char>)>,
)
    decreases ps.len(),
{
    if ps.len() == 0 {
        (content, seq![])
    } else {
        let rest = removals(content_after(ps[0], content), ps.drop_first());
        match removal(ps[0], content) {
            Some((_, e)) => (rest.0, seq![e] + rest.1),
            None => rest,
        }
    }
}

/// The removed entries as plain values.
pub open spec fn entries_of(removed: Seq<(usize, String)>) -> Seq<(usize, Seq<char>)> {
    removed.map_values(|e: (usize, String)| (e.0, e.1@))
}

/// Every prediction of `ps` names the file `file`.
pub open spec fn of_file(ps: Seq<Prediction>, file: Seq<char>) -> bool {
    forall|i: int| 0 <= i < ps.len() ==> (#[trigger] ps[i]).file_path@ == file
}

/// Applying one more prediction after the predictions `ps`.
proof fn lemma_removals_push(content: Seq<char>, ps: Seq<Prediction>, p: Prediction)
    ensures
        removals_apply(content, ps.push(p)) == (removals_apply(content, ps) && removal_applies(
            p,
            removals(content, ps).0,
        )),
        removals(content, ps.push(p)).0 == content_after(p, removals(content, ps).0),
    decreases ps.len(),
{
    let q = ps.push(p);
    if ps.len() == 0 {
        assert(q.drop_first() =~= Seq::<Prediction>::empty());
        assert(q[0] == p);
        let c = content_after(p, content);
        assert(removals(c, q.drop_first()) == (c, Seq::<(usize, Seq<char>)>::empty()));
        assert(removals(content, q).0 == removals(c, q.drop_first()).0);
        assert(removals_apply(c, q.drop_first()));
        assert(removals(content, ps) == (content, Seq::<(usize, Seq<char>)>::empty()));
    } else {
        let c = content_after(ps[0], content);
        lemma_removals_push(c, ps.drop_first(), p);
        assert(q.drop_first() =~= ps.drop_first().push(p));
        assert(q[0] == ps[0]);
        assert(removals(content, q).0 == removals(c, q.drop_first()).0);
        assert(removals(content, ps).0 == removals(c, ps.drop_first()).0);
    }
}

/// Whether the predictions `predictions` that call for removing an `unsafe`
/// all name the file `file_path` and can be applied in turn to its text
/// `content`, as `remove_unsafe_predictions` asks.
pub fn removals_can_apply(predictions: &Vec<Prediction>, file_path: &str, content: &str) -> (r:
    bool)
    ensures
        r == ({
            let selected = predictions@.filter(|p: Prediction| calls_for_removal(p));
            of_file(selected, file_path@) && removals_apply(content@, selected)
        }),
{
    let ghost all = predictions@;
    let name = chars_of(file_path);
    let mut text = content.to_owned();
    let mut ok = true;
    let mut i: usize = 0;
    while i < predictions.len()
        invariant
            i <= predictions.len(),
            all == predictions@,
            name@ == file_path@,
            ok == (of_file(all.take(i as int).filter(|p: Prediction| calls_for_removal(p)), file_path@)
                && removals_apply(content@, all.take(i as int).filter(|p: Prediction| calls_for_removal(p)))),
            ok ==> text@ == removals(content@, all.take(i as int).filter(|p: Prediction| calls_for_removal(p))).0,
        decreases predictions.len() - i,
    {
        let ghost before = all.take(i as int).filter(|p: Prediction| calls_for_removal(p));
        assert(all.take(i + 1).drop_last() =~= all.take(i as int));
        reveal_with_fuel(Seq::<_>::filter, 1);
        let p = &predictions[i];
        if p.prediction && !p.actual {
            let ghost after = before.push(*p);
            assert(all.take(i + 1).filter(|p: Prediction| calls_for_removal(p)) == after);
            proof {
                lemma_removals_push(content@, before, *p);
                assert(after[after.len() - 1] == *p);
                assert(of_file(after, file_path@) == (of_file(before, file_path@)
                    && p.file_path@ == file_path@)) by {
                    if of_file(before, file_path@) && p.file_path@ == file_path@ {
                        assert forall|j: int| 0 <= j < after.len() implies (
                        #[trigger] after[j]).file_path@ == file_path@ by {
                            if j < before.len() {
                                assert(after[j] == before[j]);
                            }
                        }
                    }
                    if of_file(after, file_path@) {
                        assert forall|j: int| 0 <= j < before.len() implies (
                        #[trigger] before[j]).file_path@ == file_path@ by {
                            assert(after[j] == before[j]);
                        }
                    }
                }
            }
            if ok {
                let path = chars_of(p.file_path.as_str());
                let ls = lines_of(text.as_str());
                if !chars_eq(&path, &name) || p.line >= ls.len() {
                    ok = false;
                } else {
                    assert(ls@[p.line as int]@ == p.pointed_line(text@));
                    if !ls[p.line].as_str().is_char_boundary(p.col) {
                        ok = false;
                    } else {
                        match p.remove_unsafe(text.as_str()) {
                            Some((new_text, _)) => {
                                text = new_text;
                            },
                            None => {},
                        }
                    }
                }
            }
        }
        i = i + 1;
    }
    assert(all.take(all.len() as int) =~= all);
    ok
}

/// Applies, in their order, the predictions of the file `file_path`, whose
/// text is `content`, that call for removing an `unsafe` (the model takes the
/// function for safe, and it is declared `unsafe`), each to the file as the
/// ones before it left it. Gives the new text of the file and, for each
/// removal, the line number and the text that was cut from the column on.
pub fn remove_unsafe_predictions(predictions: Vec<Prediction>, file_path: &str, content: &str) -> (r: (
    String,
    Vec<(usize, String)>,
))
    requires
        of_file(predictions@.filter(|p: Prediction| calls_for_removal(p)), file_path@),
        removals_apply(content@, predictions@.filter(|p: Prediction| calls_for_removal(p))),
    ensures
        ({
            let expected = removals(
                content@,
                predictions@.filter(|p: Prediction| calls_for_removal(p)),
            );
            r.0@ == expected.0 && entries_of(r.1@) == expected.1
        }),
{
    let selected = predictions_to_remove(predictions);
    let ghost ps = selected@;
    let ghost expected = removals(content@, ps);
    let mut text = content.to_owned();
    let mut removed: Vec<(usize, String)> = Vec::new();
    let mut i: usize = 0;
    assert(ps.skip(0) =~= ps);
    assert(entries_of(removed@) + expected.1 =~= expected.1);
    while i < selected.len()
        invariant
            i <= selected.len(),
            ps == selected@,
            removals_apply(text@, ps.skip(i as int)),
            expected.0 == removals(text@, ps.skip(i as int)).0,
            expected.1 == entries_of(removed@) + removals(text@, ps.skip(i as int)).1,
        decreases selected.len() - i,
    {
        let ghost rest = ps.skip(i as int);
        assert(rest[0] == selected@[i as int]);
        assert(rest.drop_first() =~= ps.skip(i + 1));
        let p = &selected[i];
        let ghost before = removed@;
        let ghost old_text = text@;
        match p.remove_unsafe(text.as_str()) {
            Some((new_text, entry)) => {
                assert(removal(*p, old_text) == Some((new_text@, (entry.0, entry.1@))));
                text = new_text;
                removed.push(entry);
                assert(entries_of(removed@) =~= entries_of(before).push((entry.0, entry.1@)));
                assert(entries_of(before) + (seq![(entry.0, entry.1@)] + removals(
                    text@,
                    ps.skip(i + 1),
                ).1) =~= entries_of(removed@) + removals(text@, ps.skip(i + 1)).1);
            },
            None => {},
        }
        i = i + 1;
    }
    assert(ps.skip(i as int) =~= Seq::<Prediction>::empty());
    assert(entries_of(removed@) + Seq::<(usize, Seq<char>)>::empty() =~= entries_of(removed@));
    (text, removed)
}

/// The lines of the removed entries.
pub open spec fn removed_lines(removed: Seq<(usize, String)>) -> Seq<usize> {
    removed.map_values(|e: (usize, String)| e.0)
}

/// The removed entry `k` is the one that an error at line `l` is put down
/// to: among the entries at or before `l`, it is at the greatest line, and
/// it is the first one at that line.
pub open spec fn is_closest(lines: Seq<usize>, l: int, k: int) -> bool {
    &&& 0 <= k < lines.len()
    &&& lines[k] <= l
    &&& forall|j: int| 0 <= j < lines.len() && lines[j] <= l ==> #[trigger] lines[j] <= lines[k]
    &&& forall|j: int| 0 <= j < k && lines[j] <= l ==> #[trigger] lines[j] < lines[k]
}

/// The removed entry that an error at line `l` is put down to, if there is
/// an entry at or before `l`.
pub open spec fn closest(lines: Seq<usize>, l: int) -> Option<int> {
    if exists|k: int| is_closest(lines, l, k) {
        Some(choose|k: int| is_closest(lines, l, k))
    } else {
        None
    }
}

/// At most one entry is the one that an error is put down to.
pub proof fn lemma_closest_unique(lines: Seq<usize>, l: int, k1: int, k2: int)
    requires
        is_closest(lines, l, k1),
        is_closest(lines, l, k2),
    ensures
        k1 == k2,
{
    assert(lines[k2] <= lines[k1]);
    assert(lines[k1] <= lines[k2]);
    if k1 < k2 {
        assert(lines[k1] < lines[k2]);
    } else if k2 < k1 {
        assert(lines[k2] < lines[k1]);
    }
}

/// There is an entry that an error at `l` is put down to exactly where some
/// entry is at or before `l`.
pub proof fn lemma_closest_exists(lines: Seq<usize>, l: int)
    ensures
        (exists|k: int| is_closest(lines, l, k)) <==> (exists|j: int| 0 <= j < lines.len()
            && #[trigger] lines[j] <= l),
    decreases lines.len(),
{
    if exists|j: int| 0 <= j < lines.len() && #[trigger] lines[j] <= l {
        if lines.len() > 0 {
            let init = lines.drop_last();
            lemma_closest_exists(init, l);
            let last = lines.len() - 1;
            if exists|j: int| 0 <= j < init.len() && #[trigger] init[j] <= l {
                let k = choose|k: int| is_closest(init, l, k);
                assert(init[k] == lines[k]);
                if lines[last] <= l && lines[k] < lines[last] {
                    assert(is_closest(lines, l, last)) by {
                        assert forall|j: int| 0 <= j < lines.len() && lines[j] <= l implies
                            #[trigger] lines[j] <= lines[last] by {
                            if j < last {
                                assert(init[j] == lines[j]);
                            }
                        }
                        assert forall|j: int| 0 <= j < last && lines[j] <= l implies
                            #[trigger] lines[j] < lines[last] by {
                            assert(init[j] == lines[j]);
                        }
                    }
                } else {
                    assert(is_closest(lines, l, k)) by {
                        assert forall|j: int| 0 <= j < lines.len() && lines[j] <= l implies
                            #[trigger] lines[j] <= lines[k] by {
                            if j < last {
                                assert(init[j] == lines[j]);
                            }
                        }
                        assert forall|j: int| 0 <= j < k && lines[j] <= l implies
                            #[trigger] lines[j] < lines[k] by {
                            assert(init[j] == lines[j]);
                        }
                    }
                }
            } else {
                assert(lines[last] <= l) by {
                    let j = choose|j: int| 0 <= j < lines.len() && #[trigger] lines[j] <= l;
                    if j < last {
                        assert(init[j] == lines[j]);
                    }
                }
                assert(is_closest(lines, l, last)) by {
                    assert forall|j: int| 0 <= j < lines.len() && lines[j] <= l implies
                        #[trigger] lines[j] <= lines[last] by {
                        if j < last {
                            assert(init[j] == lines[j]);
                        }
                    }
                    assert forall|j: int| 0 <= j < last && lines[j] <= l implies
                        #[trigger] lines[j] < lines[last] by {
                        assert(init[j] == lines[j]);
                    }
                }
            }
        }
    }
}

/// The removed entry that an error reported at line `line_start` is put
/// down to: among the entries at or before that line, the one at the
/// greatest line, the first of them where several share it.
pub fn closest_removed_prediction(removed: &Vec<(usize, String)>, line_start: usize) -> (r: Option<
    usize,
>)
    ensures
        r matches Some(k) ==> closest(removed_lines(removed@), line_start as int) == Some(k as int),
        r is None ==> closest(removed_lines(removed@), line_start as int) is None,
{
    let ghost lines = removed_lines(removed@);
    let mut best: Option<usize> = None;
    let mut i: usize = 0;
    while i < removed.len()
        invariant
            i <= removed.len(),
            lines == removed_lines(removed@),
            best matches Some(k) ==> is_closest(lines.take(i as int), line_start as int, k as int),
            best is None ==> forall|j: int| 0 <= j < i ==> #[trigger] lines[j] > line_start,
        decreases removed.len() - i,
    {
        let line = removed[i].0;
        assert(lines[i as int] == line);
        let ghost prefix = lines.take(i as int);
        let ghost next = lines.take(i + 1);
        assert(forall|j: int| 0 <= j < i ==> #[trigger] next[j] == prefix[j]);
        assert(next[i as int] == line);
        let better = match best {
            Some(k) => line <= line_start && removed[k].0 < line,
            None => line <= line_start,
        };
        if better {
            proof {
                assert forall|j: int| 0 <= j < next.len() && next[j] <= line_start implies
                    #[trigger] next[j] <= next[i as int] by {
                    if j < i {
                        assert(prefix[j] == next[j]);
                        if let Some(k) = best {
                            assert(prefix[j] <= prefix[k as int]);
                        }
                    }
                }
                assert forall|j: int| 0 <= j < i && next[j] <= line_start implies
                    #[trigger] next[j] < next[i as int] by {
                    assert(prefix[j] == next[j]);
                    if let Some(k) = best {
                        assert(prefix[j] <= prefix[k as int]);
                    }
                }
            }
            best = Some(i);
        } else {
            proof {
                if let Some(k) = best {
                    assert(prefix[k as int] == next[k as int]);
                    assert forall|j: int| 0 <= j < next.len() && next[j] <= line_start implies
                        #[trigger] next[j] <= next[k as int] by {
                        if j < i {
                            assert(prefix[j] == next[j]);
                        }
                    }
                    assert forall|j: int| 0 <= j < k && next[j] <= line_start implies
                        #[trigger] next[j] < next[k as int] by {
                        assert(prefix[j] == next[j]);
                    }
                }
            }
        }
        i = i + 1;
    }
    assert(lines.take(i as int) =~= lines);
    match best {
        Some(k) => {
            proof {
                lemma_closest_exists(lines, line_start as int);
                let c = choose|c: int| is_closest(lines, line_start as int, c);
                lemma_closest_unique(lines, line_start as int, c, k as int);
            }
        },
        None => {
            proof {
                lemma_closest_exists(lines, line_start as int);
            }
        },
    }
    best
}

/// The removed entries, as indices, that the errors `errors` give back in
/// turn, the lines in `done` being given back already: each error gives back
/// the entry it is put down to, unless that entry's line was given back before.
pub open spec fn readd_from(lines: Seq<usize>, errors: Seq<usize>, done: Set<usize>) -> Seq<int>
    decreases errors.len(),
{
    if errors.len() == 0 {
        seq![]
    } else {
        match closest(lines, errors[0] as int) {
            Some(k) => if done.contains(lines[k]) {
                readd_from(lines, errors.skip(1), done)
            } else {
                seq![k] + readd_from(lines, errors.skip(1), done.insert(lines[k]))
            },
            None => readd_from(lines, errors.skip(1), done),
        }
    }
}

/// The removed entries, as indices, that the errors at the lines `errors`
/// give back.
pub open spec fn readded(lines: Seq<usize>, errors: Seq<usize>) -> Seq<int> {
    readd_from(lines, errors, Set::empty())
}

/// The `unsafe` keywords to give back, in order, where the compiler reports
/// errors at the lines `error_lines` of a file from which the entries of
/// `removed_predictions` (line, text from the column on) were removed: each
/// error gives back the removed entry it is put down to, once per line.
pub fn readd_required_unsafe_keywords(
    removed_predictions: &Vec<(usize, String)>,
    error_lines: &Vec<usize>,
) -> (r: Vec<(usize, String)>)
    ensures
        r.len() == readded(removed_lines(removed_predictions@), error_lines@).len(),
        forall|i: int| 0 <= i < r.len() ==> {
            let k = #[trigger] readded(removed_lines(removed_predictions@), error_lines@)[i];
            &&& 0 <= k < removed_predictions.len()
            &&& r@[i].0 == removed_predictions@[k].0
            &&& r@[i].1@ == removed_predictions@[k].1@
        },
{
    broadcast use vstd::std_specs::hash::group_hash_axioms;

    let ghost lines = removed_lines(removed_predictions@);
    let ghost total = readded(lines, error_lines@);
    let mut readded_lines: std::collections::HashSet<usize> = std::collections::HashSet::new();
    let mut r: Vec<(usize, String)> = Vec::new();
    let ghost mut picked: Seq<int> = seq![];
    let mut i: usize = 0;
    assert(error_lines@.skip(0) =~= error_lines@);
    while i < error_lines.len()
        invariant
            i <= error_lines.len(),
            lines == removed_lines(removed_predictions@),
            total == readded(lines, error_lines@),
            total == picked + readd_from(lines, error_lines@.skip(i as int), readded_lines@),
            r.len() == picked.len(),
            forall|j: int| 0 <= j < r.len() ==> {
                let k = #[trigger] picked[j];
                &&& 0 <= k < removed_predictions.len()
                &&& r@[j].0 == removed_predictions@[k].0
                &&& r@[j].1@ == removed_predictions@[k].1@
            },
        decreases error_lines.len() - i,
    {
        let ghost rest = error_lines@.skip(i as int);
        assert(rest[0] == error_lines@[i as int]);
        assert(rest.skip(1) =~= error_lines@.skip(i + 1));
        let ghost old_set = readded_lines@;
        match closest_removed_prediction(removed_predictions, error_lines[i]) {
            Some(k) => {
                assert(lines[k as int] == removed_predictions@[k as int].0);
                let line = removed_predictions[k].0;
                let newly = readded_lines.insert(line);
                assert(readd_from(lines, rest, old_set) == if old_set.contains(line) {
                    readd_from(lines, rest.skip(1), old_set)
                } else {
                    seq![k as int] + readd_from(lines, rest.skip(1), old_set.insert(line))
                });
                if !newly {
                    assert(readded_lines@ =~= old_set);
                }
                if newly {
                    let text = removed_predictions[k].1.clone();
                    r.push((line, text));
                    proof {
                        assert(picked + (seq![k as int] + readd_from(lines, rest.skip(1), readded_lines@))
                            =~= picked.push(k as int) + readd_from(lines, rest.skip(1), readded_lines@));
                        picked = picked.push(k as int);
                    }
                }
            },
            None => {
                assert(readd_from(lines, rest, old_set) == readd_from(lines, rest.skip(1), old_set));
            },
        }
        i = i + 1;
    }
    assert(error_lines@.skip(i as int) =~= Seq::<usize>::empty());
    assert(picked + Seq::<int>::empty() =~= picked);
    r
}

/// What each step of the giving back keeps, from the lines in `done` on.
#[verifier::spinoff_prover]
#[verifier::rlimit(40)]
proof fn lemma_readd_from(lines: Seq<usize>, errors: Seq<usize>, done: Set<usize>)
    ensures
        forall|i: int| 0 <= i < readd_from(lines, errors, done).len() ==> {
            let k = #[trigger] readd_from(lines, errors, done)[i];
            &&& 0 <= k < lines.len()
            &&& !done.contains(lines[k])
            &&& exists|e: int| 0 <= e < errors.len() && closest(lines, errors[e] as int) == Some(k)
        },
        forall|i: int, j: int| 0 <= i < j < readd_from(lines, errors, done).len() ==>
            lines[#[trigger] readd_from(lines, errors, done)[i]] != lines[#[trigger] readd_from(
                lines,
                errors,
                done,
            )[j]],
        forall|e: int| 0 <= e < errors.len() && #[trigger] closest(lines, errors[e] as int) is Some
            ==> {
            let k = closest(lines, errors[e] as int)->0;
            done.contains(lines[k]) || exists|i: int| 0 <= i < readd_from(lines, errors, done).len()
                && lines[#[trigger] readd_from(lines, errors, done)[i]] == lines[k]
        },
    decreases errors.len(),
{
    if errors.len() > 0 {
        let tail = errors.skip(1);
        let first = closest(lines, errors[0] as int);
        if let Some(k) = first {
            lemma_closest_exists(lines, errors[0] as int);
            assert(is_closest(lines, errors[0] as int, k));
        }
        let next_done = match first {
            Some(k) => done.insert(lines[k]),
            None => done,
        };
        lemma_readd_from(lines, tail, next_done);
        lemma_readd_from(lines, tail, done);
        let out = readd_from(lines, errors, done);
        assert forall|e: int| 0 <= e < tail.len() && #[trigger] closest(lines, tail[e] as int) is Some
            implies closest(lines, errors[e + 1] as int) is Some by {
            assert(tail[e] == errors[e + 1]);
        }
        match first {
            Some(k) => {
                if done.contains(lines[k]) {
                    let rest = readd_from(lines, tail, done);
                    assert(out == rest);
                    assert forall|i: int| 0 <= i < out.len() implies {
                        let k2 = #[trigger] out[i];
                        &&& 0 <= k2 < lines.len()
                        &&& !done.contains(lines[k2])
                        &&& exists|e: int| 0 <= e < errors.len() && closest(lines, errors[e] as int)
                            == Some(k2)
                    } by {
                        let k2 = out[i];
                        let e = choose|e: int| 0 <= e < tail.len() && closest(lines, tail[e] as int)
                            == Some(k2);
                        assert(tail[e] == errors[e + 1]);
                    }
                    assert forall|e: int| 0 <= e < errors.len() && #[trigger] closest(
                        lines,
                        errors[e] as int,
                    ) is Some implies {
                        let k2 = closest(lines, errors[e] as int)->0;
                        done.contains(lines[k2]) || exists|i: int| 0 <= i < out.len() && lines[
                            #[trigger] out[i]] == lines[k2]
                    } by {
                        if e > 0 {
                            assert(tail[e - 1] == errors[e]);
                        }
                    }
                } else {
                    let rest = readd_from(lines, tail, next_done);
                    assert(out == seq![k] + rest);
                    assert forall|i: int| 0 <= i < out.len() implies {
                        let k2 = #[trigger] out[i];
                        &&& 0 <= k2 < lines.len()
                        &&& !done.contains(lines[k2])
                        &&& exists|e: int| 0 <= e < errors.len() && closest(lines, errors[e] as int)
                            == Some(k2)
                    } by {
                        if i > 0 {
                            assert(out[i] == rest[i - 1]);
                            let k2 = out[i];
                            let e = choose|e: int| 0 <= e < tail.len() && closest(
                                lines,
                                tail[e] as int,
                            ) == Some(k2);
                            assert(tail[e] == errors[e + 1]);
                        }
                    }
                    assert forall|i: int, j: int| 0 <= i < j < out.len() implies lines[#[trigger] out[i]]
                        != lines[#[trigger] out[j]] by {
                        assert(out[j] == rest[j - 1]);
                        if i > 0 {
                            assert(out[i] == rest[i - 1]);
                        }
                    }
                    assert forall|e: int| 0 <= e < errors.len() && #[trigger] closest(
                        lines,
                        errors[e] as int,
                    ) is Some implies {
                        let k2 = closest(lines, errors[e] as int)->0;
                        done.contains(lines[k2]) || exists|i: int| 0 <= i < out.len() && lines[
                            #[trigger] out[i]] == lines[k2]
                    } by {
                        let k2 = closest(lines, errors[e] as int)->0;
                        if e == 0 {
                            assert(out[0] == k);
                        } else {
                            assert(tail[e - 1] == errors[e]);
                            if !next_done.contains(lines[k2]) {
                                let i = choose|i: int| 0 <= i < rest.len() && lines[
                                    #[trigger] rest[i]] == lines[k2];
                                assert(out[i + 1] == rest[i]);
                            } else if lines[k2] == lines[k] {
                                assert(out[0] == k);
                            }
                        }
                    }
                }
            },
            None => {
                let rest = readd_from(lines, tail, done);
                assert(out == rest);
                assert forall|i: int| 0 <= i < out.len() implies {
                    let k2 = #[trigger] out[i];
                    &&& 0 <= k2 < lines.len()
                    &&& !done.contains(lines[k2])
                    &&& exists|e: int| 0 <= e < errors.len() && closest(lines, errors[e] as int)
                        == Some(k2)
                } by {
                    let k2 = out[i];
                    let e = choose|e: int| 0 <= e < tail.len() && closest(lines, tail[e] as int)
                        == Some(k2);
                    assert(tail[e] == errors[e + 1]);
                }
                assert forall|e: int| 0 <= e < errors.len() && #[trigger] closest(
                    lines,
                    errors[e] as int,
                ) is Some implies {
                    let k2 = closest(lines, errors[e] as int)->0;
                    done.contains(lines[k2]) || exists|i: int| 0 <= i < out.len() && lines[
                        #[trigger] out[i]] == lines[k2]
                } by {
                    if e > 0 {
                        assert(tail[e - 1] == errors[e]);
                    }
                }
            },
        }
    }
}

/// Giving back the `unsafe` keywords for the errors at the lines `errors`:
/// each line given back is that of the removed entry an error is put down
/// to, no line is given back twice, and every error that some removed entry
/// at or before it accounts for gets the line of that entry given back.
pub proof fn lemma_readded_lines(lines: Seq<usize>, errors: Seq<usize>)
    ensures
        forall|i: int| 0 <= i < readded(lines, errors).len() ==> {
            let k = #[trigger] readded(lines, errors)[i];
            &&& 0 <= k < lines.len()
            &&& exists|e: int| 0 <= e < errors.len() && is_closest(lines, errors[e] as int, k)
        },
        forall|i: int, j: int| 0 <= i < j < readded(lines, errors).len() ==> lines[
            #[trigger] readded(lines, errors)[i]] != lines[#[trigger] readded(lines, errors)[j]],
        forall|e: int, k: int| 0 <= e < errors.len() && #[trigger] is_closest(lines, errors[e] as int, k)
            ==> exists|i: int| 0 <= i < readded(lines, errors).len() && lines[
            #[trigger] readded(lines, errors)[i]] == lines[k],
{
    lemma_readd_from(lines, errors, Set::empty());
    let out = readded(lines, errors);
    assert forall|i: int| 0 <= i < out.len() implies {
        let k = #[trigger] out[i];
        &&& 0 <= k < lines.len()
        &&& exists|e: int| 0 <= e < errors.len() && is_closest(lines, errors[e] as int, k)
    } by {
        let k = out[i];
        let e = choose|e: int| 0 <= e < errors.len() && closest(lines, errors[e] as int) == Some(k);
        lemma_closest_exists(lines, errors[e] as int);
        assert(is_closest(lines, errors[e] as int, k));
    }
    assert forall|e: int, k: int| 0 <= e < errors.len() && #[trigger] is_closest(
        lines,
        errors[e] as int,
        k,
    ) implies exists|i: int| 0 <= i < out.len() && lines[#[trigger] out[i]] == lines[k] by {
        let c = choose|c: int| is_closest(lines, errors[e] as int, c);
        lemma_closest_unique(lines, errors[e] as int, c, k);
        assert(closest(lines, errors[e] as int) is Some);
    }
}

/// One place that a compiler diagnostic points at.
pub struct SpanLocation {
    /// The file that the span is in.
    pub file_name: String,
    /// The line where the span starts, counted from 1.
    pub line_start: usize,
    /// The file of the span that the macro expansion holding this span comes from.
    pub expansion_file_name: Option<String>,
}

/// How grave a compiler diagnostic is.
#[derive(Debug, Clone, Copy, PartialEq, Eq, Structural)]
pub enum Level {
    /// An internal compiler error.
    Ice,
    Error,
    Warning,
    FailureNote,
    Note,
    Help,
}

/// A compiler diagnostic: how grave it is, and the places it points at.
pub struct Diagnostic {
    pub level: Level,
    pub spans: Vec<SpanLocation>,
}

/// The spans of the error diagnostics among `messages`, in order.
pub open spec fn error_spans_of(messages: Seq<Diagnostic>) -> Seq<SpanLocation>
    decreases messages.len(),
{
    if messages.len() == 0 {
        seq![]
    } else {
        error_spans_of(messages.drop_last()) + if messages.last().level is Error {
            messages.last().spans@
        } else {
            seq![]
        }
    }
}

/// The spans of the error diagnostics among `messages`, in order.
pub fn error_spans(messages: Vec<Diagnostic>) -> (r: Vec<SpanLocation>)
    ensures
        r@ == error_spans_of(messages@),
{
    let ghost all = messages@;
    let mut r: Vec<SpanLocation> = Vec::new();
    for message in it: messages.into_iter()
        invariant
            it.seq() == all,
            r@ == error_spans_of(all.take(it.index() as int)),
    {
        let ghost i = it.index();
        assert(all.take(i + 1).drop_last() =~= all.take(i as int));
        assert(all.take(i + 1).last() == message);
        let is_error = match message.level {
            Level::Error => true,
            _ => false,
        };
        if is_error {
            let ghost before = r@;
            let ghost spans = message.spans@;
            for span in jt: message.spans.into_iter()
                invariant
                    jt.seq() == spans,
                    r@ == before + spans.take(jt.index() as int),
            {
                let ghost j = jt.index();
                r.push(span);
                assert(r@ =~= before + spans.take(j + 1));
            }
            assert(spans.take(spans.len() as int) =~= spans);
        } else {
            assert(r@ + Seq::<SpanLocation>::empty() =~= r@);
        }
    }
    assert(all.take(all.len() as int) =~= all);
    r
}

/// `s` starts with `prefix`.
pub open spec fn starts_with(s: Seq<char>, prefix: Seq<char>) -> bool {
    occurs_at(s, prefix, 0)
}

/// The span points into the standard library's sources, so that the file to
/// look at is the one of its macro expansion.
pub open spec fn in_std_sources(span: SpanLocation) -> bool {
    starts_with(span.file_name@, "/rustc"@)
}

/// The file that an error span is put down to: the file of its macro
/// expansion where the span points into the standard library's sources,
/// its own file otherwise.
pub fn span_file_name(span: &SpanLocation) -> (r: String)
    requires
        in_std_sources(*span) ==> span.expansion_file_name is Some,
    ensures
        in_std_sources(*span) ==> r@ == span.expansion_file_name->0@,
        !in_std_sources(*span) ==> r@ == span.file_name@,
{
    let name = chars_of(span.file_name.as_str());
    let prefix = chars_of("/rustc");
    if matches_at(&name, &prefix, 0) {
        match &span.expansion_file_name {
            Some(f) => f.clone(),
            None => span.file_name.clone(),
        }
    } else {
        span.file_name.clone()
    }
}

/// The lines at which the error spans `spans` start, for those whose file,
/// by its canonical name in `names` (one for each span), is `file`, in order.
pub open spec fn file_error_lines(
    spans: Seq<SpanLocation>,
    names: Seq<Seq<char>>,
    file: Seq<char>,
) -> Seq<usize>
    decreases spans.len(),
{
    if spans.len() == 0 || names.len() == 0 {
        seq![]
    } else {
        file_error_lines(spans.drop_last(), names.drop_last(), file) + if names.last() == file {
            seq![spans.last().line_start]
        } else {
            seq![]
        }
    }
}

/// The lines at which the error spans `spans` start, for those whose file,
/// by its canonical name in `canonical_names` (the one of the file that
/// `span_file_name` gives for each span), is `file`, in order.
pub fn error_lines_in_file(
    spans: &Vec<SpanLocation>,
    canonical_names: &Vec<String>,
    file: &str,
) -> (r: Vec<usize>)
    requires
        canonical_names.len() == spans.len(),
    ensures
        r@ == file_error_lines(spans@, views(canonical_names@), file@),
{
    let target = chars_of(file);
    let mut r: Vec<usize> = Vec::new();
    let mut i: usize = 0;
    while i < spans.len()
        invariant
            i <= spans.len(),
            canonical_names.len() == spans.len(),
            target@ == file@,
            r@ == file_error_lines(
                spans@.take(i as int),
                views(canonical_names@).take(i as int),
                file@,
            ),
        decreases spans.len() - i,
    {
        assert(spans@.take(i + 1).drop_last() =~= spans@.take(i as int));
        assert(views(canonical_names@).take(i + 1).drop_last() =~= views(canonical_names@).take(
            i as int,
        ));
        assert(views(canonical_names@).take(i + 1).last() == canonical_names@[i as int]@);
        let name = chars_of(canonical_names[i].as_str());
        if chars_eq(&name, &target) {
            r.push(spans[i].line_start);
        } else {
            assert(r@ + Seq::<usize>::empty() =~= r@);
        }
        i = i + 1;
    }
    assert(spans@.take(spans.len() as int) =~= spans@);
    assert(views(canonical_names@).take(spans.len() as int) =~= views(canonical_names@));
    r
}

/// The file `content` after each entry of `entries` (a line number and the
/// text to give back to it) is given back in turn with `add_unsafe_keyword`.
pub open spec fn given_back(content: Seq<char>, entries: Seq<(usize, Seq<char>)>) -> Seq<char>
    decreases entries.len(),
{
    if entries.len() == 0 {
        content
    } else {
        given_back(
            with_unsafe_added(content, entries[0].1, entries[0].0 as int),
            entries.drop_first(),
        )
    }
}

/// Each entry of `entries`, in turn, names a line of the file as the ones
/// before it left it.
pub open spec fn give_backs_apply(content: Seq<char>, entries: Seq<(usize, Seq<char>)>) -> bool
    decreases entries.len(),
{
    entries.len() == 0 || (entries[0].0 < lines(content).len() && give_backs_apply(
        with_unsafe_added(content, entries[0].1, entries[0].0 as int),
        entries.drop_first(),
    ))
}

/// Giving back one more entry after the entries `es`.
proof fn lemma_give_backs_push(content: Seq<char>, es: Seq<(usize, Seq<char>)>, e: (usize, Seq<char>))
    ensures
        give_backs_apply(content, es.push(e)) == (give_backs_apply(content, es) && e.0 < lines(
            given_back(content, es),
        ).len()),
        given_back(content, es.push(e)) == with_unsafe_added(given_back(content, es), e.1, e.0 as int),
    decreases es.len(),
{
    let q = es.push(e);
    if es.len() == 0 {
        assert(q.drop_first() =~= Seq::<(usize, Seq<char>)>::empty());
        assert(q[0] == e);
        let c = with_unsafe_added(content, e.1, e.0 as int);
        assert(given_back(c, q.drop_first()) == c);
        assert(give_backs_apply(c, q.drop_first()));
        assert(given_back(content, es) == content);
        assert(give_backs_apply(content, es));
    } else {
        let c = with_unsafe_added(content, es[0].1, es[0].0 as int);
        lemma_give_backs_push(c, es.drop_first(), e);
        assert(q.drop_first() =~= es.drop_first().push(e));
        assert(q[0] == es[0]);
    }
}

/// Whether the entries `entries` can be given back in turn to the file
/// `content`, as `give_back_all` asks.
pub fn give_backs_can_apply(content: &str, entries: &Vec<(usize, String)>) -> (r: bool)
    ensures
        r == give_backs_apply(content@, entries_of(entries@)),
{
    let ghost es = entries_of(entries@);
    let mut text = content.to_owned();
    let mut ok = true;
    let mut i: usize = 0;
    while i < entries.len()
        invariant
            i <= entries.len(),
            es == entries_of(entries@),
            ok == give_backs_apply(content@, es.take(i as int)),
            ok ==> text@ == given_back(content@, es.take(i as int)),
        decreases entries.len() - i,
    {
        let ghost e = es[i as int];
        assert(es.take(i + 1) =~= es.take(i as int).push(e));
        proof {
            lemma_give_backs_push(content@, es.take(i as int), e);
        }
        if ok {
            let ls = lines_of(text.as_str());
            if entries[i].0 >= ls.len() {
                ok = false;
            } else {
                let back = entries[i].1.clone();
                text = add_unsafe_keyword(text.as_str(), back, entries[i].0);
            }
        }
        i = i + 1;
    }
    assert(es.take(entries.len() as int) =~= es);
    ok
}

/// The file `content` after each entry of `entries` is given back in turn
/// with `add_unsafe_keyword`.
pub fn give_back_all(content: &str, entries: &Vec<(usize, String)>) -> (r: String)
    requires
        give_backs_apply(content@, entries_of(entries@)),
    ensures
        r@ == given_back(content@, entries_of(entries@)),
{
    let ghost es = entries_of(entries@);
    let mut text = content.to_owned();
    let mut i: usize = 0;
    assert(es.skip(0) =~= es);
    while i < entries.len()
        invariant
            i <= entries.len(),
            es == entries_of(entries@),
            give_backs_apply(text@, es.skip(i as int)),
            given_back(text@, es.skip(i as int)) == given_back(content@, es),
        decreases entries.len() - i,
    {
        assert(es.skip(i as int)[0] == es[i as int]);
        assert(es.skip(i as int).drop_first() =~= es.skip(i + 1));
        let back = entries[i].1.clone();
        text = add_unsafe_keyword(text.as_str(), back, entries[i].0);
        i = i + 1;
    }
    assert(es.skip(i as int) =~= Seq::<(usize, Seq<char>)>::empty());
    text
}

/// The entries that the errors at the lines `errors` give back, in order.
pub open spec fn readd_entries(removed: Seq<(usize, String)>, errors: Seq<usize>) -> Seq<
    (usize, Seq<char>),
> {
    readded(removed_lines(removed), errors).map_values(|k: int| (removed[k].0, removed[k].1@))
}

/// The file `content` once the `unsafe` keywords that the compiler's errors
/// call for are given back: of the error spans `error_spans`, those whose
/// file, by its canonical name in `canonical_names` (one for each span), is
/// `file` are put down to the removed entries `removed`, and each entry so
/// chosen is given back once, in turn. Errors in other files change nothing.
pub fn readd_in_file(
    content: &str,
    file: &str,
    error_spans: &Vec<SpanLocation>,
    canonical_names: &Vec<String>,
    removed: &Vec<(usize, String)>,
) -> (r: String)
    requires
        canonical_names.len() == error_spans.len(),
        give_backs_apply(
            content@,
            readd_entries(removed@, file_error_lines(error_spans@, views(canonical_names@), file@)),
        ),
    ensures
        r@ == given_back(
            content@,
            readd_entries(removed@, file_error_lines(error_spans@, views(canonical_names@), file@)),
        ),
{
    let errors = error_lines_in_file(error_spans, canonical_names, file);
    let entries = readd_required_unsafe_keywords(removed, &errors);
    assert(entries_of(entries@) =~= readd_entries(removed@, errors@));
    give_back_all(content, &entries)
}

/// Spans in other files than `file` give no error line of it.
proof fn lemma_no_error_lines_elsewhere(spans: Seq<SpanLocation>, names: Seq<Seq<char>>, file: Seq<char>)
    requires
        forall|i: int| 0 <= i < names.len() ==> names[i] != file,
    ensures
        file_error_lines(spans, names, file) == Seq::<usize>::empty(),
    decreases spans.len(),
{
    if spans.len() > 0 && names.len() > 0 {
        lemma_no_error_lines_elsewhere(spans.drop_last(), names.drop_last(), file);
        assert(names.last() == names[names.len() - 1]);
        assert(Seq::<usize>::empty() + Seq::<usize>::empty() =~= Seq::<usize>::empty());
    }
}

/// Errors in other files change nothing: where no error span's file is
/// `file` by its canonical name, giving back leaves the file `content` as it
/// is.
pub proof fn lemma_other_files_change_nothing(
    spans: Seq<SpanLocation>,
    names: Seq<Seq<char>>,
    file: Seq<char>,
    removed: Seq<(usize, String)>,
    content: Seq<char>,
)
    requires
        forall|i: int| 0 <= i < names.len() ==> names[i] != file,
    ensures
        given_back(content, readd_entries(removed, file_error_lines(spans, names, file)))
            == content,
{
    lemma_no_error_lines_elsewhere(spans, names, file);
    let es = readd_entries(removed, Seq::<usize>::empty());
    assert(readded(removed_lines(removed), Seq::<usize>::empty()) == Seq::<int>::empty());
    assert(es =~= Seq::<(usize, Seq<char>)>::empty());
}

/// No character of `s` is `c`.
pub open spec fn lacks(s: Seq<char>, c: char) -> bool {
    forall|i: int| 0 <= i < s.len() ==> s[i] != c
}

/// The line ends with a carriage return.
pub open spec fn ends_with_cr(l: Seq<char>) -> bool {
    l.len() > 0 && l.last() == '\r'
}

/// A line that is written back as it was read: no line feed in it, and no
/// carriage return at its end.
pub open spec fn is_plain_line(l: Seq<char>) -> bool {
    lacks(l, '\n') && !ends_with_cr(l)
}

/// Reading on after a piece of text without line feeds just extends the
/// current line.
proof fn lemma_lines_from_plain(x: Seq<char>, y: Seq<char>, cur: Seq<char>)
    requires
        lacks(x, '\n'),
    ensures
        lines_from(x + y, cur) == lines_from(y, cur + x),
    decreases x.len(),
{
    if x.len() == 0 {
        assert(x + y =~= y);
        assert(cur + x =~= cur);
    } else {
        assert((x + y)[0] == x[0]);
        assert((x + y).skip(1) =~= x.skip(1) + y);
        lemma_lines_from_plain(x.skip(1), y, cur.push(x[0]));
        assert(cur.push(x[0]) + x.skip(1) =~= cur + x);
    }
}

/// Written lines, taken from the front.
proof fn lemma_terminated_lines_front(ls: Seq<Seq<char>>)
    requires
        ls.len() > 0,
    ensures
        terminated_lines(ls) == ls[0] + "\n"@ + terminated_lines(ls.drop_first()),
    decreases ls.len(),
{
    if ls.len() == 1 {
        assert(ls.drop_last() =~= Seq::<Seq<char>>::empty());
        assert(ls.drop_first() =~= Seq::<Seq<char>>::empty());
        assert(terminated_lines(ls.drop_last()) == Seq::<char>::empty());
        assert(ls.last() == ls[0]);
        assert(terminated_lines(ls) =~= ls[0] + "\n"@);
        assert(ls[0] + "\n"@ + Seq::<char>::empty() =~= ls[0] + "\n"@);
    } else {
        lemma_terminated_lines_front(ls.drop_last());
        assert(ls.drop_last().drop_first() =~= ls.drop_first().drop_last());
        assert(ls.drop_first().last() == ls.last());
        assert(ls.drop_last()[0] == ls[0]);
        assert(terminated_lines(ls) =~= ls[0] + "\n"@ + terminated_lines(ls.drop_first()));
    }
}

/// Lines written back each followed by `\n` read back as the same lines,
/// less one carriage return at the end of each, where none holds a line feed.
pub proof fn lemma_written_lines_read_back(ls: Seq<Seq<char>>)
    requires
        forall|i: int| 0 <= i < ls.len() ==> lacks(#[trigger] ls[i], '\n'),
    ensures
        lines(terminated_lines(ls)) == ls.map_values(|l: Seq<char>| strip_cr(l)),
    decreases ls.len(),
{
    reveal_strlit("\n");
    if ls.len() == 0 {
        assert(terminated_lines(ls) =~= Seq::<char>::empty());
        assert(ls.map_values(|l: Seq<char>| strip_cr(l)) =~= Seq::<Seq<char>>::empty());
    } else {
        let rest = ls.drop_first();
        assert forall|i: int| 0 <= i < rest.len() implies lacks(#[trigger] rest[i], '\n') by {
            assert(rest[i] == ls[i + 1]);
        }
        lemma_written_lines_read_back(rest);
        lemma_terminated_lines_front(ls);
        assert(lacks(ls[0], '\n'));
        let t = terminated_lines(rest);
        assert(ls[0] + "\n"@ + t =~= ls[0] + ("\n"@ + t));
        lemma_lines_from_plain(ls[0], "\n"@ + t, seq![]);
        assert(Seq::<char>::empty() + ls[0] =~= ls[0]);
        let nt = "\n"@ + t;
        assert(nt[0] == '\n');
        assert(nt.skip(1) =~= t);
        assert(lines(terminated_lines(ls)) =~= seq![strip_cr(ls[0])] + rest.map_values(
            |l: Seq<char>| strip_cr(l),
        ));
        assert(seq![strip_cr(ls[0])] + rest.map_values(|l: Seq<char>| strip_cr(l))
            =~= ls.map_values(|l: Seq<char>| strip_cr(l)));
    }
}

/// The lines that reading yields hold no line feed.
proof fn lemma_lines_from_lack_newline(s: Seq<char>, cur: Seq<char>)
    requires
        lacks(cur, '\n'),
    ensures
        forall|i: int| 0 <= i < lines_from(s, cur).len() ==> lacks(
            #[trigger] lines_from(s, cur)[i],
            '\n',
        ),
    decreases s.len(),
{
    if s.len() == 0 {
        if cur.len() > 0 {
            assert(lines_from(s, cur) == seq![cur]);
            assert(lines_from(s, cur)[0] == cur);
        }
    } else if s[0] == '\n' {
        lemma_lines_from_lack_newline(s.skip(1), seq![]);
        let rest = lines_from(s.skip(1), seq![]);
        let out = seq![strip_cr(cur)] + rest;
        assert(out == lines_from(s, cur));
        assert forall|i: int| 0 <= i < out.len() implies lacks(#[trigger] out[i], '\n') by {
            if i > 0 {
                assert(out[i] == rest[i - 1]);
            } else {
                assert forall|j: int| 0 <= j < strip_cr(cur).len() implies strip_cr(cur)[j]
                    != '\n' by {
                    assert(strip_cr(cur)[j] == cur[j]);
                }
            }
        }
    } else {
        assert(lacks(cur.push(s[0]), '\n')) by {
            assert forall|j: int| 0 <= j < cur.push(s[0]).len() implies cur.push(s[0])[j]
                != '\n' by {
                if j < cur.len() {
                    assert(cur.push(s[0])[j] == cur[j]);
                }
            }
        }
        lemma_lines_from_lack_newline(s.skip(1), cur.push(s[0]));
        assert(lines_from(s, cur) == lines_from(s.skip(1), cur.push(s[0])));
    }
}

/// Removing a piece of a line adds no line feed to it.
proof fn lemma_replace_first_lacks(s: Seq<char>, from: Seq<char>, c: char)
    requires
        lacks(s, c),
    ensures
        lacks(replace_first(s, from, Seq::empty()), c),
    decreases s.len(),
{
    if from.len() == 0 || s.len() < from.len() {
    } else if s.take(from.len() as int) == from {
        let r = replace_first(s, from, Seq::empty());
        assert(r =~= s.skip(from.len() as int));
        assert forall|i: int| 0 <= i < r.len() implies r[i] != c by {
            assert(r[i] == s[i + from.len()]);
        }
    } else {
        let tail = s.skip(1);
        assert forall|i: int| 0 <= i < tail.len() implies tail[i] != c by {
            assert(tail[i] == s[i + 1]);
        }
        lemma_replace_first_lacks(tail, from, c);
        let r = replace_first(s, from, Seq::empty());
        let rt = replace_first(tail, from, Seq::empty());
        assert(r == seq![s[0]] + rt);
        assert forall|i: int| 0 <= i < r.len() implies r[i] != c by {
            if i > 0 {
                assert(r[i] == rt[i - 1]);
            }
        }
    }
}

/// Removing a carriage return from the end of a text leaves no occurrence
/// that the text did not have.
proof fn lemma_contains_strip_cr(e: Seq<char>, pat: Seq<char>)
    requires
        contains(strip_cr(e), pat),
    ensures
        contains(e, pat),
{
    let i = choose|i: int| #[trigger] occurs_at(strip_cr(e), pat, i);
    assert(strip_cr(e).subrange(i, i + pat.len()) =~= e.subrange(i, i + pat.len()));
    assert(occurs_at(e, pat, i));
}

/// Giving back what a prediction removed: the file that the removal wrote
/// reads back as its lines with the prediction's line edited (less a
/// carriage return at its end), and the line that is given back replaces
/// that line, unless an `unsafe` is left in it; where the prediction points
/// at the start of its line, the line given back is the one the file had.
/// This holds where no other line of the file ends with a carriage return.
pub proof fn lemma_unsafe_given_back(content: Seq<char>, line: int, col: int)
    requires
        0 <= line < lines(content).len(),
        forall|i: int| 0 <= i < lines(content).len() && i != line ==> !ends_with_cr(
            #[trigger] lines(content)[i],
        ),
    ensures
        ({
            let ls = lines(content);
            let edited = replace_first(ls[line], "unsafe"@, Seq::empty());
            let written = terminated_lines(ls.update(line, edited));
            let given_back = text_from_byte(ls[line], col);
            &&& lines(written) == ls.update(line, strip_cr(edited))
            &&& with_unsafe_added(written, given_back, line) == if contains(
                strip_cr(edited),
                "unsafe"@,
            ) {
                written
            } else {
                join(ls.update(line, given_back), "\n"@)
            }
            &&& col == 0 ==> given_back == ls[line]
        }),
{
    let ls = lines(content);
    let edited = replace_first(ls[line], "unsafe"@, Seq::empty());
    let edited_lines = ls.update(line, edited);
    lemma_lines_from_lack_newline(content, seq![]);
    lemma_replace_first_lacks(ls[line], "unsafe"@, '\n');
    assert forall|i: int| 0 <= i < edited_lines.len() implies lacks(
        #[trigger] edited_lines[i],
        '\n',
    ) by {
        if i != line {
            assert(edited_lines[i] == ls[i]);
        }
    }
    lemma_written_lines_read_back(edited_lines);
    assert(edited_lines.map_values(|l: Seq<char>| strip_cr(l)) =~= ls.update(
        line,
        strip_cr(edited),
    ));
    let given_back = text_from_byte(ls[line], col);
    assert(ls.update(line, strip_cr(edited)).update(line, given_back) =~= ls.update(
        line,
        given_back,
    ));
    if col == 0 {
        let bytes = encode_utf8(ls[line]);
        assert(bytes.subrange(0, bytes.len() as int) =~= bytes);
        vstd::utf8::encode_utf8_decode_utf8(ls[line]);
    }
}

/// Joined parts, taken from the front.
proof fn lemma_join_front(ls: Seq<Seq<char>>, sep: Seq<char>)
    requires
        ls.len() >= 2,
    ensures
        join(ls, sep) == ls[0] + sep + join(ls.drop_first(), sep),
    decreases ls.len(),
{
    if ls.len() == 2 {
        assert(ls.drop_last() =~= seq![ls[0]]);
        assert(ls.drop_first() =~= seq![ls[1]]);
        assert(join(ls.drop_last(), sep) == ls[0]);
        assert(join(ls.drop_first(), sep) == ls[1]);
    } else {
        lemma_join_front(ls.drop_last(), sep);
        assert(ls.drop_last().drop_first() =~= ls.drop_first().drop_last());
        assert(ls.drop_first().last() == ls.last());
        assert(ls.drop_last()[0] == ls[0]);
        assert(join(ls, sep) =~= ls[0] + sep + join(ls.drop_first(), sep));
    }
}

/// Lines joined with `\n` read back as the same lines, where none holds a
/// line feed, none but the last ends with a carriage return, and the last
/// one is not empty.
pub proof fn lemma_joined_lines_read_back(ls: Seq<Seq<char>>)
    requires
        ls.len() > 0,
        ls.last().len() > 0,
        lacks(ls.last(), '\n'),
        forall|i: int| 0 <= i < ls.len() - 1 ==> is_plain_line(#[trigger] ls[i]),
    ensures
        lines(join(ls, "\n"@)) == ls,
    decreases ls.len(),
{
    reveal_strlit("\n");
    assert(Seq::<char>::empty() + ls[0] =~= ls[0]);
    if ls.len() == 1 {
        assert(ls.last() == ls[0]);
        assert(ls[0] + Seq::<char>::empty() =~= ls[0]);
        lemma_lines_from_plain(ls[0], Seq::empty(), seq![]);
        assert(lines(join(ls, "\n"@)) =~= seq![ls[0]]);
        assert(seq![ls[0]] =~= ls);
    } else {
        assert(is_plain_line(ls[0]));
        let rest = ls.drop_first();
        assert forall|i: int| 0 <= i < rest.len() - 1 implies is_plain_line(
            #[trigger] rest[i],
        ) by {
            assert(rest[i] == ls[i + 1]);
        }
        assert(rest.last() == ls.last());
        lemma_joined_lines_read_back(rest);
        lemma_join_front(ls, "\n"@);
        let j = join(rest, "\n"@);
        assert(ls[0] + "\n"@ + j =~= ls[0] + ("\n"@ + j));
        lemma_lines_from_plain(ls[0], "\n"@ + j, seq![]);
        let nj = "\n"@ + j;
        assert(nj[0] == '\n');
        assert(nj.skip(1) =~= j);
        assert(strip_cr(ls[0]) == ls[0]);
        assert(lines(join(ls, "\n"@)) =~= seq![ls[0]] + rest);
        assert(seq![ls[0]] + rest =~= ls);
    }
}

/// Undoing a removal: where a prediction at the start of its line removes an
/// `unsafe` from a file, giving the cut text back to the file that the
/// removal wrote restores the file's lines. This holds where no line of the
/// file ends with a carriage return, but for the prediction's line where it
/// is the last one, where no other `unsafe` is left in the edited line, and
/// where the file's last line is not empty.
pub proof fn lemma_removal_undone(p: Prediction, content: Seq<char>)
    requires
        removal_applies(p, content),
        p.col == 0,
        removal(p, content) is Some,
        forall|i: int| 0 <= i < lines(content).len() && #[trigger] ends_with_cr(lines(content)[i])
            ==> i == p.line && i == lines(content).len() - 1,
        !contains(replace_first(p.pointed_line(content), "unsafe"@, Seq::empty()), "unsafe"@),
        lines(content).last().len() > 0,
    ensures
        removal(p, content) matches Some((written, (n, cut))) && lines(
            with_unsafe_added(written, cut, n as int),
        ) == lines(content),
{
    let ls = lines(content);
    let line = p.line as int;
    lemma_unsafe_given_back(content, line, 0);
    let edited = replace_first(ls[line], "unsafe"@, Seq::empty());
    if contains(strip_cr(edited), "unsafe"@) {
        lemma_contains_strip_cr(edited, "unsafe"@);
    }
    assert(ls.update(line, ls[line]) =~= ls);
    lemma_lines_from_lack_newline(content, seq![]);
    assert forall|i: int| 0 <= i < ls.len() - 1 implies is_plain_line(#[trigger] ls[i]) by {
        assert(lacks(ls[i], '\n'));
    }
    assert(lacks(ls[ls.len() - 1], '\n'));
    lemma_joined_lines_read_back(ls);
}

} // verus!
