//! The CSV export: one line per category of each subject, under a header line.
//! The numbers arrive already written as text (two decimals for grades,
//! averages and the final grade, whole percent for the weight).
use vstd::prelude::*;
use crate::order::views;

verus! {

/// One line of the export: a category of a subject, its numbers as text, and
/// an empty text for each number that is missing.
#[derive(Debug, Clone, PartialEq, Eq)]
pub struct CategoryRow {
    pub name: String,
    pub weight_percent: String,
    pub grades: Vec<String>,
    pub average: String,
    pub weighted: String,
}

/// A subject as it is exported: its name, its final grade as text (empty when
/// it has none) and its categories.
#[derive(Debug, Clone, PartialEq, Eq)]
pub struct SubjectRows {
    pub name: String,
    pub final_grade: String,
    pub categories: Vec<CategoryRow>,
}

/// There is no subject to export.
#[derive(Debug, Clone, Copy, PartialEq, Eq)]
pub struct NoSubjects;

/// The first line of the export.
pub open spec fn csv_header() -> Seq<char> {
    "Subject,Category,Weight,Grades,Average,Weighted,Final Grade\n"@
}

/// The first `n` texts of `gs`, with `sep` between each two.
pub open spec fn joined_by(gs: Seq<Seq<char>>, sep: Seq<char>, n: int) -> Seq<char>
    decreases n,
{
    if n <= 0 {
        seq![]
    } else if n == 1 {
        gs[0]
    } else {
        joined_by(gs, sep, n - 1) + sep + gs[n - 1]
    }
}

/// The line of category `c` of the subject `subject`; `last` fills the final
/// column.
pub open spec fn csv_line(subject: Seq<char>, c: CategoryRow, last: Seq<char>) -> Seq<char> {
    subject + ","@ + c.name@ + ","@ + c.weight_percent@ + "%,\""@ + joined_by(
        views(c.grades@),
        "; "@,
        c.grades@.len() as int,
    ) + "\","@ + c.average@ + ","@ + c.weighted@ + ","@ + last + "\n"@
}

/// The lines of the first `n` categories of `s`: the final grade stands in the
/// line of the first category only.
pub open spec fn csv_subject_lines(s: SubjectRows, n: int) -> Seq<char>
    decreases n,
{
    if n <= 0 {
        seq![]
    } else {
        csv_subject_lines(s, n - 1) + csv_line(
            s.name@,
            s.categories@[n - 1],
            if n - 1 == 0 {
                s.final_grade@
            } else {
                seq![]
            },
        )
    }
}

/// The lines of the first `n` subjects of `ss`.
pub open spec fn csv_lines(ss: Seq<SubjectRows>, n: int) -> Seq<char>
    decreases n,
{
    if n <= 0 {
        seq![]
    } else {
        csv_lines(ss, n - 1) + csv_subject_lines(ss[n - 1], ss[n - 1].categories@.len() as int)
    }
}

/// The whole export of the subjects `ss`.
pub open spec fn csv_text(ss: Seq<SubjectRows>) -> Seq<char> {
    csv_header() + csv_lines(ss, ss.len() as int)
}

/// The first `n` texts of `gs` with `sep` before each but the first: the first
/// text, then, for each of the others in order, the separator and that text.
pub proof fn lemma_joined_by_all(gs: Seq<Seq<char>>, sep: Seq<char>, n: int)
    requires
        1 <= n <= gs.len(),
    ensures
        joined_by(gs, sep, n) == gs[0] + Seq::new((n - 1) as nat, |i: int| sep + gs[i + 1]).flatten(),
    decreases n,
{
    let parts = Seq::new((n - 1) as nat, |i: int| sep + gs[i + 1]);
    if n == 1 {
        assert(parts =~= Seq::<Seq<char>>::empty());
        assert(gs[0] + Seq::<char>::empty() =~= gs[0]);
    } else {
        lemma_joined_by_all(gs, sep, n - 1);
        let before = Seq::new((n - 2) as nat, |i: int| sep + gs[i + 1]);
        assert(parts =~= before.push(sep + gs[n - 1]));
        before.lemma_flatten_push(sep + gs[n - 1]);
        assert(joined_by(gs, sep, n) =~= gs[0] + parts.flatten());
    }
}

/// The line of category `i` of subject `s` in the export; the final grade
/// fills the last column of the first line only.
pub open spec fn subject_line(s: SubjectRows, i: int) -> Seq<char> {
    csv_line(
        s.name@,
        s.categories@[i],
        if i == 0 {
            s.final_grade@
        } else {
            seq![]
        },
    )
}

/// The lines of the first `n` categories of a subject are the line of each of
/// them, in order.
pub proof fn lemma_subject_lines_all(s: SubjectRows, n: int)
    requires
        0 <= n,
    ensures
        csv_subject_lines(s, n) == Seq::new(n as nat, |i: int| subject_line(s, i)).flatten(),
    decreases n,
{
    let lines = Seq::new(n as nat, |i: int| subject_line(s, i));
    if n == 0 {
        assert(lines =~= Seq::<Seq<char>>::empty());
    } else {
        lemma_subject_lines_all(s, n - 1);
        let before = Seq::new((n - 1) as nat, |i: int| subject_line(s, i));
        assert(lines =~= before.push(subject_line(s, n - 1)));
        before.lemma_flatten_push(subject_line(s, n - 1));
    }
}

/// The lines of all categories of subject `s`, in order.
pub open spec fn subject_block(s: SubjectRows) -> Seq<char> {
    Seq::new(s.categories@.len(), |i: int| subject_line(s, i)).flatten()
}

/// The lines of the first `n` subjects are the lines of each of them, in order.
proof fn lemma_csv_lines_all(ss: Seq<SubjectRows>, n: int)
    requires
        0 <= n,
    ensures
        csv_lines(ss, n) == Seq::new(n as nat, |k: int| subject_block(ss[k])).flatten(),
    decreases n,
{
    let blocks = Seq::new(n as nat, |k: int| subject_block(ss[k]));
    if n == 0 {
        assert(blocks =~= Seq::<Seq<char>>::empty());
    } else {
        lemma_csv_lines_all(ss, n - 1);
        lemma_subject_lines_all(ss[n - 1], ss[n - 1].categories@.len() as int);
        let before = Seq::new((n - 1) as nat, |k: int| subject_block(ss[k]));
        assert(blocks =~= before.push(subject_block(ss[n - 1])));
        before.lemma_flatten_push(subject_block(ss[n - 1]));
    }
}

/// The export is the header line followed, for every subject given and in
/// their order, by the line of each of its categories in order.
pub proof fn lemma_csv_text_all(ss: Seq<SubjectRows>)
    ensures
        csv_text(ss) == csv_header() + Seq::new(ss.len(), |k: int| subject_block(ss[k])).flatten(),
{
    lemma_csv_lines_all(ss, ss.len() as int);
}

/// Exporting one more subject adds its lines at the end of the export of the
/// others, whatever came before.
pub proof fn lemma_csv_text_push(ss: Seq<SubjectRows>, s: SubjectRows)
    ensures
        csv_text(ss.push(s)) == csv_text(ss) + subject_block(s),
{
    lemma_csv_text_all(ss);
    lemma_csv_text_all(ss.push(s));
    let before = Seq::new(ss.len(), |k: int| subject_block(ss[k]));
    assert(Seq::new(ss.push(s).len(), |k: int| subject_block(ss.push(s)[k])) =~= before.push(
        subject_block(s),
    ));
    before.lemma_flatten_push(subject_block(s));
}

/// Appends the texts of `gs` with `"; "` between each two.
fn push_joined(out: &mut String, gs: &Vec<String>)
    ensures
        final(out)@ == old(out)@ + joined_by(views(gs@), "; "@, gs@.len() as int),
{
    let ghost start = out@;
    let mut i: usize = 0;
    while i < gs.len()
        invariant
            i <= gs@.len(),
            out@ == start + joined_by(views(gs@), "; "@, i as int),
        decreases gs.len() - i,
    {
        if i > 0 {
            out.append("; ");
        }
        out.append(gs[i].as_str());
        proof {
            assert(views(gs@)[i as int] == gs@[i as int]@);
            if i == 0 {
                assert(out@ =~= start + joined_by(views(gs@), "; "@, 1));
            } else {
                assert(out@ =~= start + joined_by(views(gs@), "; "@, (i + 1) as int));
            }
        }
        i = i + 1;
    }
}

/// Appends the line of category `c` of the subject named `subject`.
fn push_line(out: &mut String, subject: &str, c: &CategoryRow, last: &str)
    ensures
        final(out)@ == old(out)@ + csv_line(subject@, *c, last@),
{
    let ghost start = out@;
    out.append(subject);
    out.append(",");
    out.append(c.name.as_str());
    out.append(",");
    out.append(c.weight_percent.as_str());
    out.append("%,\"");
    push_joined(out, &c.grades);
    out.append("\",");
    out.append(c.average.as_str());
    out.append(",");
    out.append(c.weighted.as_str());
    out.append(",");
    out.append(last);
    out.append("\n");
    proof {
        assert(out@ =~= start + csv_line(subject@, *c, last@));
    }
}

/// The CSV text of the subjects: the header line, then for each subject one
/// line per category, the final grade in the first of them.
pub fn csv_document(subjects: &Vec<SubjectRows>) -> (r: String)
    ensures
        r@ == csv_text(subjects@),
        r@ == csv_header() + Seq::new(subjects@.len(), |k: int| subject_block(subjects@[k])).flatten(),
{
    proof {
        lemma_csv_text_all(subjects@);
    }
    let mut out = String::new();
    out.append("Subject,Category,Weight,Grades,Average,Weighted,Final Grade\n");
    let ghost head = out@;
    let mut k: usize = 0;
    while k < subjects.len()
        invariant
            k <= subjects@.len(),
            head == csv_header(),
            out@ == head + csv_lines(subjects@, k as int),
        decreases subjects.len() - k,
    {
        let s = &subjects[k];
        let ghost before = out@;
        let n = s.categories.len();
        let mut i: usize = 0;
        while i < n
            invariant
                n == s.categories@.len(),
                i <= n,
                out@ == before + csv_subject_lines(*s, i as int),
            decreases n - i,
        {
            if i == 0 {
                push_line(&mut out, s.name.as_str(), &s.categories[i], s.final_grade.as_str());
            } else {
                push_line(&mut out, s.name.as_str(), &s.categories[i], "");
                proof {
                    assert(""@ =~= Seq::<char>::empty()) by {
                        reveal_strlit("");
                    }
                }
            }
            proof {
                assert(out@ =~= before + csv_subject_lines(*s, (i + 1) as int));
            }
            i = i + 1;
        }
        proof {
            assert(out@ =~= head + csv_lines(subjects@, (k + 1) as int));
        }
        k = k + 1;
    }
    out
}

/// The export of the subjects that could be read, given the names that the
/// directory lists: there is nothing to export when it lists no subject.
pub fn export_csv_text(listed: &Vec<String>, subjects: &Vec<SubjectRows>) -> (r: Result<
    String,
    NoSubjects,
>)
    ensures
        listed@.len() == 0 ==> r == Err::<String, NoSubjects>(NoSubjects),
        listed@.len() > 0 ==> (r matches Ok(t) && t@ == csv_text(subjects@)),
{
    if listed.len() == 0 {
        Err(NoSubjects)
    } else {
        Ok(csv_document(subjects))
    }
}

} // verus!
