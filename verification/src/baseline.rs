//! Comparison of generated reports with their checked-in baselines: line
//! splitting, a line-level difference summary and the verdict.

use vstd::prelude::*;

use crate::text::{digits_of, push_digits, str_eq};

verus! {

/// The line of `s` from `start` to the line feed at `end`, without a
/// carriage return just before it.
pub open spec fn line_text(s: Seq<char>, start: int, end: int) -> Seq<char> {
    if end > start && s[end - 1] == '\r' {
        s.subrange(start, end - 1)
    } else {
        s.subrange(start, end)
    }
}

/// The lines of `s` where the current line began at `start` and scanning
/// has reached `i`: each line feed ends a line; what follows the last line
/// feed is a last line when it is not empty.
pub open spec fn lines_from(s: Seq<char>, start: int, i: int) -> Seq<Seq<char>>
    decreases s.len() - i,
{
    if i >= s.len() {
        if start < s.len() {
            seq![s.subrange(start, s.len() as int)]
        } else {
            Seq::empty()
        }
    } else if s[i] == '\n' {
        seq![line_text(s, start, i)] + lines_from(s, i + 1, i + 1)
    } else {
        lines_from(s, start, i + 1)
    }
}

/// The lines of `s`.
pub open spec fn lines_of(s: Seq<char>) -> Seq<Seq<char>> {
    lines_from(s, 0, 0)
}

/// The texts of a list of string slices.
pub open spec fn str_texts(v: Seq<&str>) -> Seq<Seq<char>> {
    v.map_values(|l: &str| l@)
}

/// The texts of a list of strings.
pub open spec fn string_texts(v: Seq<String>) -> Seq<Seq<char>> {
    v.map_values(|l: String| l@)
}

/// The lines of `s`, split at line feeds, a carriage return before a line
/// feed dropped, without an empty last line.
pub fn text_lines(s: &str) -> (r: Vec<&str>)
    ensures
        str_texts(r@) == lines_of(s@),
{
    let n = s.unicode_len();
    let mut out: Vec<&str> = Vec::new();
    let mut start: usize = 0;
    let mut i: usize = 0;
    assert(str_texts(out@) + lines_from(s@, 0, 0) =~= lines_from(s@, 0, 0));
    while i < n
        invariant
            start <= i <= n,
            n == s@.len(),
            str_texts(out@) + lines_from(s@, start as int, i as int) == lines_of(s@),
        decreases n - i,
    {
        if s.get_char(i) == '\n' {
            let end = if i > start && s.get_char(i - 1) == '\r' {
                i - 1
            } else {
                i
            };
            let line = s.substring_char(start, end);
            let ghost before = out@;
            out.push(line);
            assert(line@ == line_text(s@, start as int, i as int));
            assert(str_texts(out@) =~= str_texts(before).push(line@));
            assert(str_texts(out@) + lines_from(s@, i + 1, i + 1) =~= str_texts(before) + (
            seq![line@] + lines_from(s@, i + 1, i + 1)));
            start = i + 1;
        }
        i = i + 1;
    }
    if start < n {
        let line = s.substring_char(start, n);
        let ghost before = out@;
        out.push(line);
        assert(str_texts(out@) =~= str_texts(before) + seq![line@]);
    } else {
        assert(str_texts(out@) + lines_from(s@, start as int, n as int) =~= str_texts(out@));
    }
    out
}

/// Line `i` of `ls`, or `<missing>` past its end.
pub open spec fn line_or_missing(ls: Seq<Seq<char>>, i: int) -> Seq<char> {
    if i < ls.len() {
        ls[i]
    } else {
        "<missing>"@
    }
}

/// The entry of a line (numbered from one) that differs.
pub open spec fn difference_entry(i: int, expected: Seq<char>, actual: Seq<char>) -> Seq<char> {
    "line "@ + digits_of((i + 1) as nat, 10) + ":\n  expected: "@ + expected + "\n  actual:   "@
        + actual
}

/// The closing entry of a summary cut at the limit of differences.
pub open spec fn truncation_entry() -> Seq<char> {
    "... truncated to first 20 differences ..."@
}

/// The entries of the differing lines from line `i` on, where `count`
/// differences were found before: one per differing line, and after the
/// twentieth a closing entry and no more.
pub open spec fn difference_entries(
    el: Seq<Seq<char>>,
    al: Seq<Seq<char>>,
    i: int,
    count: int,
) -> Seq<Seq<char>>
    decreases (if el.len() > al.len() {
        el.len()
    } else {
        al.len()
    }) - i,
{
    let total = if el.len() > al.len() {
        el.len()
    } else {
        al.len()
    };
    if i < 0 || i >= total {
        Seq::empty()
    } else if line_or_missing(el, i) != line_or_missing(al, i) {
        let entry = difference_entry(i, line_or_missing(el, i), line_or_missing(al, i));
        if count + 1 >= 20 {
            seq![entry, truncation_entry()]
        } else {
            seq![entry] + difference_entries(el, al, i + 1, count + 1)
        }
    } else {
        difference_entries(el, al, i + 1, count)
    }
}

/// `parts` joined with line feeds.
pub open spec fn joined_lines(parts: Seq<Seq<char>>) -> Seq<char>
    decreases parts.len(),
{
    if parts.len() == 0 {
        Seq::empty()
    } else if parts.len() == 1 {
        parts[0]
    } else {
        joined_lines(parts.drop_last()) + "\n"@ + parts.last()
    }
}

/// The summary of the lines where `actual` differs from `expected`.
pub open spec fn diff_summary_text(expected: Seq<char>, actual: Seq<char>) -> Seq<char> {
    joined_lines(difference_entries(lines_of(expected), lines_of(actual), 0, 0))
}

fn difference_text(i: usize, expected: &str, actual: &str) -> (r: String)
    requires
        i < usize::MAX,
    ensures
        r@ == difference_entry(i as int, expected@, actual@),
{
    let mut out = String::from_str("line ");
    push_digits(&mut out, (i + 1) as u128, 10);
    out.append(":\n  expected: ");
    out.append(expected);
    out.append("\n  actual:   ");
    out.append(actual);
    out
}

fn difference_list(el: &Vec<&str>, al: &Vec<&str>) -> (r: Vec<String>)
    ensures
        string_texts(r@) == difference_entries(str_texts(el@), str_texts(al@), 0, 0),
{
    let ghost elv = str_texts(el@);
    let ghost alv = str_texts(al@);
    let total = if el.len() > al.len() {
        el.len()
    } else {
        al.len()
    };
    let mut entries: Vec<String> = Vec::new();
    let mut count: usize = 0;
    let mut index: usize = 0;
    assert(string_texts(entries@) + difference_entries(elv, alv, 0, 0) =~= difference_entries(
        elv,
        alv,
        0,
        0,
    ));
    while index < total
        invariant
            index <= total,
            total == (if elv.len() > alv.len() {
                elv.len()
            } else {
                alv.len()
            }),
            elv == str_texts(el@),
            alv == str_texts(al@),
            count < 20,
            string_texts(entries@) + difference_entries(elv, alv, index as int, count as int)
                == difference_entries(elv, alv, 0, 0),
        decreases total - index,
    {
        let exp: &str = if index < el.len() {
            el[index]
        } else {
            "<missing>"
        };
        let act: &str = if index < al.len() {
            al[index]
        } else {
            "<missing>"
        };
        assert(exp@ == line_or_missing(elv, index as int));
        assert(act@ == line_or_missing(alv, index as int));
        if !str_eq(exp, act) {
            let entry = difference_text(index, exp, act);
            let ghost before = entries@;
            entries.push(entry);
            assert(string_texts(entries@) =~= string_texts(before).push(entry@));
            count = count + 1;
            if count >= 20 {
                let closing = String::from_str("... truncated to first 20 differences ...");
                entries.push(closing);
                assert(string_texts(entries@) =~= string_texts(before) + seq![
                    entry@,
                    truncation_entry(),
                ]);
                return entries;
            }
            assert(string_texts(entries@) + difference_entries(
                elv,
                alv,
                index + 1,
                count as int,
            ) =~= string_texts(before) + (seq![entry@] + difference_entries(
                elv,
                alv,
                index + 1,
                count as int,
            )));
        }
        index = index + 1;
    }
    assert(string_texts(entries@) + difference_entries(elv, alv, index as int, count as int)
        =~= string_texts(entries@));
    entries
}

/// `parts` joined with line feeds.
pub fn join_lines(parts: &Vec<String>) -> (r: String)
    ensures
        r@ == joined_lines(string_texts(parts@)),
{
    let mut out = String::new();
    let mut i: usize = 0;
    assert(string_texts(parts@).take(0) =~= Seq::<Seq<char>>::empty());
    while i < parts.len()
        invariant
            i <= parts@.len(),
            out@ == joined_lines(string_texts(parts@).take(i as int)),
        decreases parts@.len() - i,
    {
        let ghost prefix = string_texts(parts@).take(i + 1);
        assert(prefix.drop_last() =~= string_texts(parts@).take(i as int));
        assert(prefix.last() == parts@[i as int]@);
        if i > 0 {
            out.append("\n");
        } else {
            assert(out@ =~= Seq::<char>::empty());
        }
        out.append(parts[i].as_str());
        assert(i == 0 ==> out@ =~= prefix[0]);
        i = i + 1;
    }
    assert(string_texts(parts@).take(parts@.len() as int) =~= string_texts(parts@));
    out
}

/// The summary of the lines where `actual` differs from `expected`: for each
/// differing line (a missing line reads `<missing>`), its number and both
/// texts; at most twenty, then a closing entry.
pub fn diff_summary(expected: &str, actual: &str) -> (r: String)
    ensures
        r@ == diff_summary_text(expected@, actual@),
{
    let el = text_lines(expected);
    let al = text_lines(actual);
    let entries = difference_list(&el, &al);
    join_lines(&entries)
}

/// The verdict on a generated report against its baseline (`None` when the
/// baseline file is missing).
pub open spec fn baseline_check(
    label: Seq<char>,
    path: Seq<char>,
    baseline: Option<Seq<char>>,
    generated: Seq<char>,
) -> Result<(), Seq<char>> {
    match baseline {
        None => Err("missing baseline "@ + label + " at "@ + path),
        Some(b) => if b == generated {
            Ok(())
        } else {
            Err(
                label + " regression detected against "@ + path + "\n"@ + diff_summary_text(
                    b,
                    generated,
                ),
            )
        },
    }
}

/// The view of an optional string slice.
pub open spec fn opt_text(s: Option<&str>) -> Option<Seq<char>> {
    match s {
        Some(x) => Some(x@),
        None => None,
    }
}

/// Compares a generated report with its baseline, read from `path` (`None`
/// when that file does not exist): equal texts pass; otherwise the error
/// names the report and the baseline and summarises the differing lines.
pub fn baseline_verdict(label: &str, path: &str, baseline: Option<&str>, generated: &str) -> (r:
    Result<(), String>)
    ensures
        match r {
            Ok(_) => baseline_check(label@, path@, opt_text(baseline), generated@) is Ok,
            Err(msg) => baseline_check(label@, path@, opt_text(baseline), generated@) == Err::<
                (),
                Seq<char>,
            >(msg@),
        },
{
    match baseline {
        None => {
            let mut msg = String::from_str("missing baseline ");
            msg.append(label);
            msg.append(" at ");
            msg.append(path);
            Err(msg)
        },
        Some(b) => {
            if str_eq(b, generated) {
                Ok(())
            } else {
                let mut msg = String::from_str(label);
                msg.append(" regression detected against ");
                msg.append(path);
                msg.append("\n");
                let summary = diff_summary(b, generated);
                msg.append(summary.as_str());
                Err(msg)
            }
        },
    }
}


proof fn lemma_no_differences_from_itself(ls: Seq<Seq<char>>, i: int, count: int)
    ensures
        difference_entries(ls, ls, i, count) == Seq::<Seq<char>>::empty(),
    decreases ls.len() - i,
{
    if 0 <= i < ls.len() {
        lemma_no_differences_from_itself(ls, i + 1, count);
    }
}

/// A text has no difference from itself: its summary is empty and it
/// passes against itself as a baseline.
pub proof fn lemma_diff_summary_of_same_text_is_empty(label: Seq<char>, path: Seq<char>, s: Seq<char>)
    ensures
        diff_summary_text(s, s) == Seq::<char>::empty(),
        baseline_check(label, path, Some(s), s) is Ok,
{
    lemma_no_differences_from_itself(lines_of(s), 0, 0);
}

} // verus!
