use vstd::prelude::*;
use vstd::string::StrSliceExecFns;
use vstd::string::StringExecFns;
use crate::sequence::Sequence;
use crate::text::chars_of;

verus! {

/// A record as (label, content).
pub type Record = (Seq<char>, Seq<char>);

/// The lines of `t`, split at each newline; the text after the last newline
/// (possibly empty) is the last line.
pub open spec fn split_lines(t: Seq<char>) -> Seq<Seq<char>>
    decreases t.len(),
{
    if t.len() == 0 {
        seq![seq![]]
    } else {
        let p = split_lines(t.drop_last());
        if t.last() == '\n' {
            p.push(seq![])
        } else {
            p.update(p.len() - 1, p[p.len() - 1].push(t.last()))
        }
    }
}

proof fn lemma_split_lines_nonempty(t: Seq<char>)
    ensures
        split_lines(t).len() >= 1,
    decreases t.len(),
{
    if t.len() > 0 {
        lemma_split_lines_nonempty(t.drop_last());
    }
}

/// Whether a line opens a record.
pub open spec fn is_label_line(line: Seq<char>) -> bool {
    line.len() > 0 && line[0] == '>'
}

/// The records after reading one more line: a label line opens a record
/// (its label is the line without the leading `>`); any other line extends
/// the content of the last record, or is dropped when there is none.
pub open spec fn read_line(recs: Seq<Record>, line: Seq<char>) -> Seq<Record> {
    if is_label_line(line) {
        recs.push((line.drop_first(), seq![]))
    } else if recs.len() == 0 {
        recs
    } else {
        recs.update(recs.len() - 1, (recs.last().0, recs.last().1 + line))
    }
}

/// The records read from a series of lines.
pub open spec fn read_lines(lines: Seq<Seq<char>>) -> Seq<Record>
    decreases lines.len(),
{
    if lines.len() == 0 {
        seq![]
    } else {
        read_line(read_lines(lines.drop_last()), lines.last())
    }
}

/// The records that a text holds.
pub open spec fn parsed(text: Seq<char>) -> Seq<Record> {
    read_lines(split_lines(text))
}

/// The (label, content) pairs of a list of sequences.
pub open spec fn records_of(v: Seq<Sequence>) -> Seq<Record> {
    Seq::new(v.len(), |i: int| (v[i].label@, v[i].content@))
}

/// The text of one record: `mark` and the label on one line, the content on
/// the next.
pub open spec fn record_text(mark: Seq<char>, r: Record) -> Seq<char> {
    mark + r.0 + seq!['\n'] + r.1 + seq!['\n']
}

/// The texts of a list of records, one after the other.
pub open spec fn records_text(mark: Seq<char>, recs: Seq<Record>) -> Seq<char>
    decreases recs.len(),
{
    if recs.len() == 0 {
        seq![]
    } else {
        records_text(mark, recs.drop_last()) + record_text(mark, recs.last())
    }
}

/// The text of a list of records as it is saved: each label after `> `.
pub open spec fn saved(recs: Seq<Record>) -> Seq<char> {
    records_text(seq!['>', ' '], recs)
}

/// The text of a list of records as each record shows itself: each label
/// right after `>`.
pub open spec fn shown(recs: Seq<Record>) -> Seq<char> {
    records_text(seq!['>'], recs)
}

/// The records read so far: those completed, then the open one if any.
spec fn open_records(done: Seq<Sequence>, has: bool, label: Seq<char>, content: Seq<char>) -> Seq<
    Record,
> {
    if has {
        records_of(done).push((label, content))
    } else {
        records_of(done)
    }
}

/// Reads one line into the records.
fn take_line(
    done: &mut Vec<Sequence>,
    has: &mut bool,
    label: &mut String,
    content: &mut String,
    line: &String,
)
    requires
        *old(has) || old(done)@.len() == 0,
    ensures
        *final(has) || final(done)@.len() == 0,
        open_records(final(done)@, *final(has), final(label)@, final(content)@) == read_line(
            open_records(old(done)@, *old(has), old(label)@, old(content)@),
            line@,
        ),
{
    let ghost before = open_records(done@, *has, label@, content@);
    let n = line.as_str().unicode_len();
    if n > 0 && line.as_str().get_char(0) == '>' {
        let rest = line.as_str().substring_char(1, n);
        if *has {
            let mut l = String::new();
            let mut c = String::new();
            std::mem::swap(&mut l, label);
            std::mem::swap(&mut c, content);
            done.push(Sequence { label: l, content: c });
        }
        *label = String::from_str(rest);
        *content = String::new();
        *has = true;
        proof {
            assert(records_of(done@) =~= before);
            assert(line@.drop_first() =~= line@.subrange(1, n as int));
        }
    } else if *has {
        content.append(line.as_str());
        proof {
            assert(open_records(done@, *has, label@, content@) =~= read_line(before, line@));
        }
    }
}

/// Reads FASTA text: a line starting with `>` opens a record labelled with
/// the rest of the line; the lines after it, up to the next such line, are
/// joined without their newlines into its content. Lines before the first
/// label are dropped.
pub fn parse_fasta(text: &str) -> (r: Vec<Sequence>)
    ensures
        records_of(r@) == parsed(text@),
{
    let chars = chars_of(text);
    let mut done: Vec<Sequence> = Vec::new();
    let mut has = false;
    let mut label = String::new();
    let mut content = String::new();
    let mut line = String::new();
    let ghost mut lines: Seq<Seq<char>> = seq![];
    let mut i: usize = 0;
    proof {
        assert(records_of(done@) =~= read_lines(lines));
    }
    while i < chars.len()
        invariant
            chars@ == text@,
            i <= chars@.len(),
            split_lines(chars@.subrange(0, i as int)) == lines.push(line@),
            open_records(done@, has, label@, content@) == read_lines(lines),
            has || done@.len() == 0,
        decreases chars@.len() - i,
    {
        let c = chars[i];
        proof {
            assert(chars@.subrange(0, i + 1).drop_last() =~= chars@.subrange(0, i as int));
        }
        if c == '\n' {
            take_line(&mut done, &mut has, &mut label, &mut content, &line);
            proof {
                assert(lines.push(line@).drop_last() =~= lines);
                lines = lines.push(line@);
            }
            line = String::new();
        } else {
            line.push(c);
            proof {
                assert(lines.push(line@) =~= split_lines(chars@.subrange(0, i + 1)));
            }
        }
        i = i + 1;
    }
    take_line(&mut done, &mut has, &mut label, &mut content, &line);
    proof {
        assert(chars@.subrange(0, i as int) =~= text@);
        assert(lines.push(line@).drop_last() =~= lines);
    }
    if has {
        done.push(Sequence { label, content });
        proof {
            assert(records_of(done@) =~= parsed(text@));
        }
    }
    done
}

/// Writes records as FASTA text: `> ` and the label on one line, the
/// content on the next.
pub fn format_fasta(seqs: &Vec<Sequence>) -> (r: String)
    ensures
        r@ == saved(records_of(seqs@)),
{
    let mut out = String::new();
    let mut i: usize = 0;
    while i < seqs.len()
        invariant
            i <= seqs@.len(),
            out@ == saved(records_of(seqs@.subrange(0, i as int))),
        decreases seqs@.len() - i,
    {
        let ghost before = out@;
        out.push('>');
        out.push(' ');
        out.append(seqs[i].label.as_str());
        out.push('\n');
        out.append(seqs[i].content.as_str());
        out.push('\n');
        proof {
            let r = records_of(seqs@.subrange(0, i + 1));
            assert(r.drop_last() =~= records_of(seqs@.subrange(0, i as int)));
            assert(out@ =~= records_text(seq!['>', ' '], r));
        }
        i = i + 1;
    }
    proof {
        assert(seqs@.subrange(0, i as int) =~= seqs@);
    }
    out
}

pub open spec fn no_newline(s: Seq<char>) -> bool {
    forall|i: int| 0 <= i < s.len() ==> s[i] != '\n'
}

/// The lines of the text of `recs`, but for the empty line that follows
/// the last newline.
pub open spec fn record_lines(mark: Seq<char>, recs: Seq<Record>) -> Seq<Seq<char>>
    decreases recs.len(),
{
    if recs.len() == 0 {
        seq![]
    } else {
        record_lines(mark, recs.drop_last()) + seq![mark + recs.last().0, recs.last().1]
    }
}

/// A mark that opens a label line and holds no newline.
pub open spec fn is_mark(mark: Seq<char>) -> bool {
    mark.len() > 0 && mark[0] == '>' && no_newline(mark)
}

proof fn lemma_split_no_newline(s: Seq<char>)
    requires
        no_newline(s),
    ensures
        split_lines(s) == seq![s],
    decreases s.len(),
{
    if s.len() > 0 {
        lemma_split_no_newline(s.drop_last());
        assert(s.drop_last().push(s.last()) =~= s);
        assert(seq![s.drop_last()].update(0, s.drop_last().push(s.last())) =~= seq![s]);
    } else {
        assert(s =~= seq![]);
    }
}

proof fn lemma_split_concat(t: Seq<char>, s: Seq<char>)
    requires
        t.len() == 0 || t.last() == '\n',
    ensures
        split_lines(t + s) == split_lines(t).drop_last() + split_lines(s),
    decreases s.len(),
{
    lemma_split_lines_nonempty(t);
    lemma_split_lines_nonempty(s);
    if s.len() == 0 {
        assert(t + s =~= t);
        if t.len() > 0 {
            lemma_split_lines_nonempty(t.drop_last());
        }
        assert(split_lines(t).drop_last() + seq![seq![]] =~= split_lines(t));
    } else {
        lemma_split_concat(t, s.drop_last());
        lemma_split_lines_nonempty(s.drop_last());
        assert((t + s).drop_last() =~= t + s.drop_last());
        assert((t + s).last() == s.last());
        let x = split_lines(t).drop_last();
        let y = split_lines(s.drop_last());
        if s.last() == '\n' {
            assert((x + y).push(seq![]) =~= x + y.push(seq![]));
        } else {
            let c = s.last();
            assert((x + y).update((x + y).len() - 1, (x + y)[(x + y).len() - 1].push(c)) =~= x
                + y.update(y.len() - 1, y[y.len() - 1].push(c)));
        }
    }
}

proof fn lemma_split_records(mark: Seq<char>, recs: Seq<Record>)
    requires
        is_mark(mark),
        forall|i: int| 0 <= i < recs.len() ==> no_newline(#[trigger] recs[i].0) && no_newline(recs[i].1),
    ensures
        split_lines(records_text(mark, recs)) == record_lines(mark, recs).push(seq![]),
        records_text(mark, recs).len() == 0 || records_text(mark, recs).last() == '\n',
    decreases recs.len(),
{
    if recs.len() > 0 {
        let p = recs.drop_last();
        let r = recs.last();
        assert(recs[recs.len() - 1] == r);
        assert forall|i: int| 0 <= i < p.len() implies no_newline(#[trigger] p[i].0) && no_newline(p[i].1) by {
            assert(p[i] == recs[i]);
        }
        lemma_split_records(mark, p);
        let hdr = mark + r.0;
        let a = hdr + seq!['\n'];
        let b = r.1 + seq!['\n'];
        assert(record_text(mark, r) =~= a + b);
        assert(no_newline(hdr)) by {
            assert forall|i: int| 0 <= i < hdr.len() implies hdr[i] != '\n' by {
                if i >= mark.len() {
                    assert(hdr[i] == r.0[i - mark.len()]);
                }
            }
        }
        lemma_split_no_newline(hdr);
        lemma_split_no_newline(r.1);
        assert(a.drop_last() =~= hdr);
        assert(b.drop_last() =~= r.1);
        lemma_split_concat(a, b);
        assert(split_lines(record_text(mark, r)) =~= seq![hdr, r.1, seq![]]);
        lemma_split_concat(records_text(mark, p), record_text(mark, r));
        assert(split_lines(records_text(mark, recs)) =~= record_lines(mark, recs).push(seq![]));
    } else {
        assert(split_lines(records_text(mark, recs)) =~= record_lines(mark, recs).push(seq![]));
    }
}

proof fn lemma_read_record_lines(mark: Seq<char>, recs: Seq<Record>)
    requires
        is_mark(mark),
        forall|i: int| 0 <= i < recs.len() ==> !is_label_line(#[trigger] recs[i].1),
    ensures
        read_lines(record_lines(mark, recs)) == Seq::new(
            recs.len(),
            |i: int| (mark.drop_first() + recs[i].0, recs[i].1),
        ),
    decreases recs.len(),
{
    if recs.len() > 0 {
        let p = recs.drop_last();
        let r = recs.last();
        assert(recs[recs.len() - 1] == r);
        assert forall|i: int| 0 <= i < p.len() implies !is_label_line(#[trigger] p[i].1) by {
            assert(p[i] == recs[i]);
        }
        lemma_read_record_lines(mark, p);
        let hdr = mark + r.0;
        let x = record_lines(mark, p);
        let l = record_lines(mark, recs);
        assert(l =~= x.push(hdr).push(r.1));
        assert(l.drop_last() =~= x.push(hdr));
        assert(x.push(hdr).drop_last() =~= x);
        assert(hdr.drop_first() =~= mark.drop_first() + r.0);
        assert(hdr[0] == '>');
        assert(read_lines(x.push(hdr)) == read_line(read_lines(x), hdr));
        let q = read_line(read_lines(x), hdr);
        assert(q == read_lines(x).push((mark.drop_first() + r.0, seq![])));
        assert(!is_label_line(r.1));
        assert(read_lines(l) == read_line(q, r.1));
        assert(q.last().1 + r.1 =~= r.1);
        assert(read_lines(l) =~= Seq::new(
            recs.len(),
            |i: int| (mark.drop_first() + recs[i].0, recs[i].1),
        ));
    } else {
        assert(read_lines(record_lines(mark, recs)) =~= Seq::new(
            recs.len(),
            |i: int| (mark.drop_first() + recs[i].0, recs[i].1),
        ));
    }
}

/// Reading the text of records written with a mark gives them back, each
/// label preceded by what follows `>` in the mark, where no label or content
/// has a newline and no content starts with `>`.
proof fn lemma_write_then_read(mark: Seq<char>, recs: Seq<Record>)
    requires
        is_mark(mark),
        forall|i: int|
            0 <= i < recs.len() ==> no_newline(#[trigger] recs[i].0) && no_newline(recs[i].1)
                && !is_label_line(recs[i].1),
    ensures
        parsed(records_text(mark, recs)) == Seq::new(
            recs.len(),
            |i: int| (mark.drop_first() + recs[i].0, recs[i].1),
        ),
{
    assert forall|i: int| 0 <= i < recs.len() implies !is_label_line(#[trigger] recs[i].1) by {
        assert(no_newline(recs[i].0));
    }
    lemma_split_records(mark, recs);
    lemma_read_record_lines(mark, recs);
    let l = record_lines(mark, recs);
    assert(l.push(seq![]).drop_last() =~= l);
    let r = read_lines(l);
    if r.len() > 0 {
        assert(r.last().1 + seq![] =~= r.last().1);
        assert(r.update(r.len() - 1, (r.last().0, r.last().1 + seq![])) =~= r);
    }
}

/// Saving records and reading the saved text back gives the same records,
/// each label preceded by the space that saving writes after `>`. This
/// holds where no label or content has a newline and no content starts
/// with `>`.
pub proof fn lemma_save_then_load(recs: Seq<Record>)
    requires
        forall|i: int|
            0 <= i < recs.len() ==> no_newline(#[trigger] recs[i].0) && no_newline(recs[i].1)
                && !is_label_line(recs[i].1),
    ensures
        parsed(saved(recs)) == Seq::new(recs.len(), |i: int| (seq![' '] + recs[i].0, recs[i].1)),
{
    let mark = seq!['>', ' '];
    assert(is_mark(mark));
    lemma_write_then_read(mark, recs);
    assert(mark.drop_first() =~= seq![' ']);
}

/// Reading the records as they show themselves gives them back exactly,
/// where no label or content has a newline and no content starts with `>`.
pub proof fn lemma_show_then_load(recs: Seq<Record>)
    requires
        forall|i: int|
            0 <= i < recs.len() ==> no_newline(#[trigger] recs[i].0) && no_newline(recs[i].1)
                && !is_label_line(recs[i].1),
    ensures
        parsed(shown(recs)) == recs,
{
    let mark = seq!['>'];
    assert(is_mark(mark));
    lemma_write_then_read(mark, recs);
    assert(mark.drop_first() =~= seq![]);
    assert(Seq::new(recs.len(), |i: int| (mark.drop_first() + recs[i].0, recs[i].1)) =~= recs) by {
        assert forall|i: int| 0 <= i < recs.len() implies (mark.drop_first() + recs[i].0, recs[i].1)
            == recs[i] by {
            assert(mark.drop_first() + recs[i].0 =~= recs[i].0);
        }
    }
}

} // verus!
