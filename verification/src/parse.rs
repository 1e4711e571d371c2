//! Parsing the socket-listing tool's textual output into process records.

use vstd::prelude::*;

verus! {

/// One process found listening on the queried port. All three fields are
/// carried verbatim from the tool's output line: `command` is field 0,
/// `pid` field 1 and `user` field 2. The identifier is kept as text
/// because it is passed through unchanged to the termination command.
#[derive(Debug, PartialEq, Eq)]
pub struct ProcessRecord {
    pub pid: String,
    pub command: String,
    pub user: String,
}

/// The mathematical model of a [`ProcessRecord`]: its three fields as
/// character sequences.
pub ghost struct ProcessRecordModel {
    pub pid: Seq<char>,
    pub command: Seq<char>,
    pub user: Seq<char>,
}

impl View for ProcessRecord {
    type V = ProcessRecordModel;

    open spec fn view(&self) -> ProcessRecordModel {
        ProcessRecordModel { pid: self.pid@, command: self.command@, user: self.user@ }
    }
}

/// The characters that separate fields within one output line. The
/// listing tool emits ASCII, so the ASCII whitespace characters other
/// than the line separator are the ones that matter.
pub open spec fn is_field_separator(c: char) -> bool {
    c == ' ' || c == '\t' || c == '\r' || c == '\u{000b}' || c == '\u{000c}'
}

/// The text split at every `'\n'`: always one more piece than there are
/// line separators, so empty text is a single empty line.
pub open spec fn lines_of(s: Seq<char>) -> Seq<Seq<char>>
    decreases s.len(),
{
    if s.len() == 0 {
        seq![Seq::<char>::empty()]
    } else if s.last() == '\n' {
        lines_of(s.drop_last()).push(Seq::<char>::empty())
    } else {
        let prev = lines_of(s.drop_last());
        prev.update(prev.len() - 1, prev.last().push(s.last()))
    }
}

/// The maximal runs of non-separator characters of one line, in order.
pub open spec fn fields_of(s: Seq<char>) -> Seq<Seq<char>>
    decreases s.len(),
{
    if s.len() == 0 {
        Seq::empty()
    } else if is_field_separator(s.last()) {
        fields_of(s.drop_last())
    } else {
        let prev = fields_of(s.drop_last());
        if s.len() >= 2 && !is_field_separator(s[s.len() - 2]) {
            prev.update(prev.len() - 1, prev.last().push(s.last()))
        } else {
            prev.push(seq![s.last()])
        }
    }
}

/// The record a single data line yields: field 0 is the command, field 1
/// the process identifier, field 2 the owning user. Meaningful only for
/// lines with at least three fields.
pub open spec fn record_of_fields(fs: Seq<Seq<char>>) -> ProcessRecordModel {
    ProcessRecordModel { command: fs[0], pid: fs[1], user: fs[2] }
}

/// The records of a sequence of data lines, in order: every line with at
/// least three fields yields one record, every other line none.
pub open spec fn records_of_lines(ls: Seq<Seq<char>>) -> Seq<ProcessRecordModel>
    decreases ls.len(),
{
    if ls.len() == 0 {
        Seq::empty()
    } else {
        let prev = records_of_lines(ls.drop_last());
        if fields_of(ls.last()).len() >= 3 {
            prev.push(record_of_fields(fields_of(ls.last())))
        } else {
            prev
        }
    }
}

/// The records of the whole captured output: the first line is the
/// column-header row and is discarded unconditionally, every later line
/// is a data line.
pub open spec fn records_of(s: Seq<char>) -> Seq<ProcessRecordModel> {
    records_of_lines(lines_of(s).drop_first())
}

/// Runtime test for [`is_field_separator`].
fn is_separator(c: char) -> (r: bool)
    ensures
        r == is_field_separator(c),
{
    c == ' ' || c == '\t' || c == '\r' || c == '\u{000b}' || c == '\u{000c}'
}

/// A run of non-separator characters that begins at a field boundary is
/// one whole field: the fields of the text up to its end are the fields
/// of the text up to its start, followed by the run itself.
proof fn lemma_fields_of_token(s: Seq<char>, start: int, end: int)
    requires
        0 <= start < end <= s.len(),
        forall|j: int| start <= j < end ==> !is_field_separator(s[j]),
        start == 0 || is_field_separator(s[start - 1]),
    ensures
        fields_of(s.subrange(0, end)) =~~= fields_of(s.subrange(0, start)).push(
            s.subrange(start, end),
        ),
    decreases end - start,
{
    let pre = s.subrange(0, end);
    assert(pre.drop_last() =~= s.subrange(0, end - 1));
    assert(pre.last() == s[end - 1]);
    if end == start + 1 {
        assert(s.subrange(start, end) =~= seq![s[start]]);
    } else {
        lemma_fields_of_token(s, start, end - 1);
        let prev = fields_of(s.subrange(0, end - 1));
        assert(prev.last() == s.subrange(start, end - 1));
        assert(prev.last().push(s[end - 1]) =~= s.subrange(start, end));
    }
}

/// A separator character at the end of a prefix adds no field.
proof fn lemma_fields_of_separator(s: Seq<char>, i: int)
    requires
        0 <= i < s.len(),
        is_field_separator(s[i]),
    ensures
        fields_of(s.subrange(0, i + 1)) == fields_of(s.subrange(0, i)),
{
    assert(s.subrange(0, i + 1).drop_last() =~= s.subrange(0, i));
}

/// Splits one output line into its whitespace-separated fields.
fn split_fields(line: &str) -> (fields: Vec<String>)
    ensures
        fields.deep_view() =~~= fields_of(line@),
{
    let n = line.unicode_len();
    let mut fields: Vec<String> = Vec::new();
    let mut i: usize = 0;
    while i < n
        invariant
            n == line@.len(),
            i <= n,
            fields.deep_view() =~~= fields_of(line@.subrange(0, i as int)),
            i == 0 || i == n || is_field_separator(line@[i - 1]) || is_field_separator(
                line@[i as int],
            ),
        decreases n - i,
    {
        if is_separator(line.get_char(i)) {
            proof {
                lemma_fields_of_separator(line@, i as int);
            }
            i += 1;
        } else {
            let ghost start_pos = i as int;
            let start = i;
            i += 1;
            while i < n && !is_separator(line.get_char(i))
                invariant
                    n == line@.len(),
                    start_pos == start as int,
                    start < i <= n,
                    forall|j: int| start_pos <= j < i ==> !is_field_separator(line@[j]),
                decreases n - i,
            {
                i += 1;
            }
            let token = line.substring_char(start, i).to_owned();
            fields.push(token);
            proof {
                lemma_fields_of_token(line@, start_pos, i as int);
            }
        }
    }
    proof {
        assert(line@.subrange(0, n as int) =~= line@);
    }
    fields
}

/// Splitting at line separators always yields at least one piece.
pub proof fn lemma_lines_of_nonempty(s: Seq<char>)
    ensures
        lines_of(s).len() >= 1,
    decreases s.len(),
{
    if s.len() > 0 {
        lemma_lines_of_nonempty(s.drop_last());
    }
}

/// Splits the captured output at every `'\n'`.
fn split_lines<'a>(s: &'a str) -> (lines: Vec<&'a str>)
    ensures
        lines.deep_view() =~~= lines_of(s@),
{
    let n = s.unicode_len();
    let mut lines: Vec<&str> = Vec::new();
    let mut start: usize = 0;
    let mut i: usize = 0;
    while i < n
        invariant
            n == s@.len(),
            start <= i <= n,
            lines@.len() + 1 == lines_of(s@.subrange(0, i as int)).len(),
            forall|j: int| 0 <= j < lines@.len() ==> lines@[j]@ == lines_of(
                s@.subrange(0, i as int),
            )[j],
            s@.subrange(start as int, i as int) == lines_of(s@.subrange(0, i as int)).last(),
        decreases n - i,
    {
        proof {
            assert(s@.subrange(0, i + 1).drop_last() =~= s@.subrange(0, i as int));
            assert(s@.subrange(0, i + 1).last() == s@[i as int]);
        }
        if s.get_char(i) == '\n' {
            lines.push(s.substring_char(start, i));
            start = i + 1;
            proof {
                assert(s@.subrange(start as int, i + 1) =~= Seq::<char>::empty());
            }
        } else {
            proof {
                assert(s@.subrange(start as int, i + 1) =~= s@.subrange(
                    start as int,
                    i as int,
                ).push(s@[i as int]));
            }
        }
        i += 1;
    }
    lines.push(s.substring_char(start, n));
    proof {
        assert(s@.subrange(0, n as int) =~= s@);
        assert(lines.deep_view() =~~= lines_of(s@));
    }
    lines
}

/// Parses the socket-listing tool's output into one record per
/// well-formed data line. The first line is discarded as the column
/// header; of the remaining lines, each with at least three
/// whitespace-separated fields yields a record mapping field 0 to
/// `command`, field 1 to `pid` and field 2 to `user`, extra fields
/// ignored and line order preserved. Lines with fewer than three fields
/// are skipped silently.
pub fn parse_lsof_output(output: &str) -> (records: Vec<ProcessRecord>)
    ensures
        records@.len() == records_of(output@).len(),
        forall|j: int| 0 <= j < records@.len() ==> records@[j]@ == records_of(output@)[j],
{
    let lines = split_lines(output);
    let ghost all_lines = lines_of(output@);
    proof {
        lemma_lines_of_nonempty(output@);
    }
    let mut records: Vec<ProcessRecord> = Vec::new();
    let mut i: usize = 1;
    while i < lines.len()
        invariant
            lines.deep_view() =~~= all_lines,
            all_lines == lines_of(output@),
            1 <= i <= lines@.len(),
            records@.len() == records_of_lines(all_lines.subrange(1, i as int)).len(),
            forall|j: int| 0 <= j < records@.len() ==> records@[j]@ == records_of_lines(
                all_lines.subrange(1, i as int),
            )[j],
        decreases lines@.len() - i,
    {
        proof {
            assert(all_lines.subrange(1, i + 1).drop_last() =~= all_lines.subrange(1, i as int));
            assert(all_lines.subrange(1, i + 1).last() == all_lines[i as int]);
        }
        let fields = split_fields(lines[i]);
        if fields.len() >= 3 {
            let record = ProcessRecord {
                command: fields[0].clone(),
                pid: fields[1].clone(),
                user: fields[2].clone(),
            };
            records.push(record);
        }
        i += 1;
    }
    proof {
        assert(all_lines.subrange(1, lines@.len() as int) =~= all_lines.drop_first());
    }
    records
}

/// Text without a line separator is a single line holding exactly that text.
pub proof fn lemma_lines_of_no_newline(s: Seq<char>)
    requires
        forall|i: int| 0 <= i < s.len() ==> s[i] != '\n',
    ensures
        lines_of(s) =~~= seq![s],
    decreases s.len(),
{
    if s.len() == 0 {
        assert(lines_of(s) =~~= seq![s]);
    } else {
        lemma_lines_of_no_newline(s.drop_last());
        assert(s.drop_last().push(s.last()) =~= s);
    }
}

/// Splitting into lines distributes over a line separator: the lines of
/// `a`, a separator and `b` are the lines of `a` followed by the lines
/// of `b`.
pub proof fn lemma_lines_of_append(a: Seq<char>, b: Seq<char>)
    ensures
        lines_of(a + seq!['\n'] + b) =~~= lines_of(a) + lines_of(b),
    decreases b.len(),
{
    let whole = a + seq!['\n'] + b;
    if b.len() == 0 {
        assert(whole =~= a.push('\n'));
        assert(whole.drop_last() =~= a);
    } else {
        lemma_lines_of_append(a, b.drop_last());
        lemma_lines_of_nonempty(b.drop_last());
        let shorter = a + seq!['\n'] + b.drop_last();
        assert(whole.drop_last() =~= shorter);
        assert(whole.last() == b.last());
        assert(b.drop_last().push(b.last()) =~= b);
        if b.last() == '\n' {
            assert(lines_of(whole) =~~= lines_of(a) + lines_of(b));
        } else {
            let prev = lines_of(shorter);
            assert(prev =~~= lines_of(a) + lines_of(b.drop_last()));
            assert(prev.last() == lines_of(b.drop_last()).last());
            assert(lines_of(whole) =~~= lines_of(a) + lines_of(b));
        }
    }
}

/// Taking records distributes over concatenation of line sequences.
pub proof fn lemma_records_of_lines_append(x: Seq<Seq<char>>, y: Seq<Seq<char>>)
    ensures
        records_of_lines(x + y) =~~= records_of_lines(x) + records_of_lines(y),
    decreases y.len(),
{
    if y.len() == 0 {
        assert(x + y =~= x);
    } else {
        lemma_records_of_lines_append(x, y.drop_last());
        assert((x + y).drop_last() =~= x + y.drop_last());
        assert((x + y).last() == y.last());
        assert(y.drop_last().push(y.last()) =~= y);
    }
}

/// Output consisting of the header row alone — any single line without a
/// line separator — yields no records at all.
pub proof fn lemma_header_only_no_records(s: Seq<char>)
    requires
        forall|i: int| 0 <= i < s.len() ==> s[i] != '\n',
    ensures
        records_of(s) =~= Seq::<ProcessRecordModel>::empty(),
{
    lemma_lines_of_no_newline(s);
    assert(lines_of(s).drop_first() =~~= Seq::<Seq<char>>::empty());
    assert(records_of_lines(lines_of(s).drop_first()) =~= records_of_lines(
        Seq::<Seq<char>>::empty(),
    ));
}

/// A header row followed by one well-formed data line yields exactly one
/// record, whose command, identifier and user are fields 0, 1 and 2 of
/// that line — whatever the header says and however many extra fields
/// trail the third.
pub proof fn lemma_single_data_line(header: Seq<char>, line: Seq<char>)
    requires
        forall|i: int| 0 <= i < header.len() ==> header[i] != '\n',
        forall|i: int| 0 <= i < line.len() ==> line[i] != '\n',
        fields_of(line).len() >= 3,
    ensures
        records_of(header + seq!['\n'] + line) =~~= seq![record_of_fields(fields_of(line))],
{
    lemma_lines_of_append(header, line);
    lemma_lines_of_no_newline(header);
    lemma_lines_of_no_newline(line);
    let whole_lines = lines_of(header + seq!['\n'] + line);
    assert(whole_lines =~~= seq![header, line]);
    assert(whole_lines.drop_first() =~~= seq![line]);
    assert(seq![line].drop_last() =~= Seq::<Seq<char>>::empty());
    assert(records_of_lines(Seq::<Seq<char>>::empty()) =~= Seq::<ProcessRecordModel>::empty());
    assert(records_of_lines(whole_lines.drop_first()) =~~= seq![
        record_of_fields(fields_of(line)),
    ]);
}

/// A data line with fewer than three fields yields no record of its own
/// and does not disturb the records of the lines around it: dropping the
/// malformed line from the output leaves the records unchanged.
pub proof fn lemma_malformed_line_dropped(before: Seq<char>, bad: Seq<char>, after: Seq<char>)
    requires
        forall|i: int| 0 <= i < bad.len() ==> bad[i] != '\n',
        fields_of(bad).len() < 3,
    ensures
        records_of(before + seq!['\n'] + bad + seq!['\n'] + after) =~~= records_of(
            before + seq!['\n'] + after,
        ),
{
    lemma_lines_of_append(before, after);
    lemma_lines_of_append(before + seq!['\n'] + bad, after);
    lemma_lines_of_append(before, bad);
    lemma_lines_of_no_newline(bad);
    lemma_lines_of_nonempty(before);
    let a = lines_of(before);
    let b = lines_of(after);
    assert(lines_of(before + seq!['\n'] + bad) =~~= a + seq![bad]);
    assert(lines_of(before + seq!['\n'] + bad + seq!['\n'] + after) =~~= (a + seq![bad]) + b);
    assert(((a + seq![bad]) + b).drop_first() =~~= (a.drop_first() + seq![bad]) + b);
    assert((a + b).drop_first() =~~= a.drop_first() + b);
    lemma_records_of_lines_append(a.drop_first() + seq![bad], b);
    lemma_records_of_lines_append(a.drop_first(), seq![bad]);
    lemma_records_of_lines_append(a.drop_first(), b);
    assert(seq![bad].drop_last() =~= Seq::<Seq<char>>::empty());
    assert(records_of_lines(Seq::<Seq<char>>::empty()) =~= Seq::<ProcessRecordModel>::empty());
    assert(records_of_lines(seq![bad]) =~= Seq::<ProcessRecordModel>::empty());
}

} // verus!
