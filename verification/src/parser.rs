//! Per-line parsing with error recovery: a raw line either yields one parsed
//! question fragment or nothing (comment, blank or malformed line), and a
//! file's text is split into lines tagged with their source path.
use vstd::prelude::*;
use crate::normalize::{norm, remove_exra_whitespaces};
use crate::question::Question;

verus! {

/// One successfully parsed data line, at the specification level: prompt
/// text, one answer and one source location.
pub struct Frag {
    pub q: Seq<char>,
    pub a: Seq<char>,
    pub loc: Seq<char>,
}

/// A value on its way through the pipeline, tagged with the display path of
/// the file it came from.
pub struct ProcessingStep {
    pub result: String,
    pub path: String,
}

/// `l` without a single trailing carriage return, if it has one.
pub open spec fn strip_cr(l: Seq<char>) -> Seq<char> {
    if l.len() > 0 && l[l.len() - 1] == '\r' {
        l.drop_last()
    } else {
        l
    }
}

/// Splitting into lines, begun with `cur` as the partial current line: a line
/// ends at '\n' (a '\r' directly before the '\n' is dropped), and a final
/// line needs no terminator.
pub open spec fn lines_from(s: Seq<char>, cur: Seq<char>) -> Seq<Seq<char>>
    decreases s.len(),
{
    if s.len() == 0 {
        if cur.len() == 0 {
            Seq::empty()
        } else {
            seq![cur]
        }
    } else if s[0] == '\n' {
        seq![strip_cr(cur)] + lines_from(s.drop_first(), Seq::empty())
    } else {
        lines_from(s.drop_first(), cur.push(s[0]))
    }
}

/// The lines of a file's text.
pub open spec fn lines_of(s: Seq<char>) -> Seq<Seq<char>> {
    lines_from(s, Seq::empty())
}

/// Whether position `i` of `s` holds the pipe delimiter.
pub open spec fn pipe_at(s: Seq<char>, i: int) -> bool {
    0 <= i < s.len() && s[i] == '|'
}

/// Whether `s` holds exactly one pipe delimiter, so that it splits into
/// exactly two segments.
pub open spec fn exactly_one_pipe(s: Seq<char>) -> bool {
    &&& exists|i: int| #[trigger] pipe_at(s, i)
    &&& forall|i: int, j: int| #[trigger] pipe_at(s, i) && #[trigger] pipe_at(s, j) ==> i == j
}

/// The position of the unique pipe delimiter of `s`.
pub open spec fn the_pipe(s: Seq<char>) -> int {
    choose|i: int| pipe_at(s, i)
}

/// Whether the line is a comment: its very first character, before any
/// normalization, is '#'.
pub open spec fn is_comment(line: Seq<char>) -> bool {
    line.len() > 0 && line[0] == '#'
}

/// What one raw line yields: nothing for a comment or for a malformed line
/// (one without exactly one '|'); otherwise the normalized text left of the
/// pipe as the prompt and the normalized text right of it as the one answer.
pub open spec fn parse_frag(line: Seq<char>, loc: Seq<char>) -> Option<Frag> {
    if is_comment(line) {
        None
    } else if !exactly_one_pipe(line) {
        None
    } else {
        Some(
            Frag {
                q: norm(line.take(the_pipe(line))),
                a: norm(line.skip(the_pipe(line) + 1)),
                loc: loc,
            },
        )
    }
}

/// Whether the executable Question `qq` carries exactly the content of
/// fragment `f`.
pub open spec fn question_of_frag(qq: Question, f: Frag) -> bool {
    &&& qq.question@ == f.q
    &&& qq.sols() == Set::<Seq<char>>::empty().insert(f.a)
    &&& qq.locs() == Set::<Seq<char>>::empty().insert(f.loc)
    &&& qq.counters_zero()
    &&& qq.wf()
}

/// Whether the raw line is a comment, for diagnostics at the caller.
pub fn is_comment_line(line: &String) -> (r: bool)
    ensures
        r == is_comment(line@),
{
    let t = line.as_str();
    if t.unicode_len() > 0 {
        t.get_char(0) == '#'
    } else {
        false
    }
}

/// Splits a file's text into its lines, each tagged with the file's path.
pub fn get_lines_from_string(contents: ProcessingStep) -> (r: Vec<ProcessingStep>)
    ensures
        r@.len() == lines_of(contents.result@).len(),
        forall|k: int|
            0 <= k < r@.len() ==> (#[trigger] r@[k]).result@ == lines_of(contents.result@)[k]
                && r@[k].path@ == contents.path@,
{
    let text = contents.result;
    let path = contents.path;
    let ghost full = text@;
    let t = text.as_str();
    let n = t.unicode_len();
    let mut r: Vec<ProcessingStep> = Vec::new();
    let ghost mut done: Seq<Seq<char>> = Seq::empty();
    let mut start: usize = 0;
    let mut i: usize = 0;
    proof {
        assert(full.skip(0) =~= full);
        assert(full.subrange(0, 0) =~= Seq::<char>::empty());
    }
    while i < n
        invariant
            n == full.len(),
            t@ == full,
            start <= i <= n,
            lines_of(full) == done + lines_from(
                full.skip(i as int),
                full.subrange(start as int, i as int),
            ),
            r@.len() == done.len(),
            forall|k: int|
                0 <= k < r@.len() ==> (#[trigger] r@[k]).result@ == done[k] && r@[k].path@
                    == path@,
        decreases n - i,
    {
        let ghost cur = full.subrange(start as int, i as int);
        proof {
            assert(full.skip(i as int)[0] == full[i as int]);
            assert(full.skip(i as int).drop_first() =~= full.skip(i as int + 1));
        }
        let c = t.get_char(i);
        if c == '\n' {
            let line_end = if start < i && t.get_char(i - 1) == '\r' {
                i - 1
            } else {
                i
            };
            proof {
                assert(strip_cr(cur) =~= full.subrange(start as int, line_end as int));
            }
            let line = t.substring_char(start, line_end).to_owned();
            let ghost r0 = r@;
            r.push(ProcessingStep { result: line, path: path.clone() });
            proof {
                done = done.push(strip_cr(cur));
                assert forall|k: int| 0 <= k < r@.len() implies (#[trigger] r@[k]).result@
                    == done[k] && r@[k].path@ == path@ by {
                    if k < r0.len() {
                        assert(r@[k] == r0[k]);
                    } else {
                        assert(r@[k].result@ == strip_cr(cur));
                    }
                }
                assert(lines_of(full) =~= done + lines_from(
                    full.skip(i as int + 1),
                    Seq::empty(),
                ));
                assert(full.subrange(i as int + 1, i as int + 1) =~= Seq::<char>::empty());
            }
            start = i + 1;
        } else {
            proof {
                assert(cur.push(full[i as int]) =~= full.subrange(start as int, i as int + 1));
            }
        }
        i = i + 1;
    }
    proof {
        assert(full.skip(n as int) =~= Seq::<char>::empty());
    }
    if start < n {
        let line = t.substring_char(start, n).to_owned();
        let ghost r0 = r@;
        let ghost path0 = path@;
        r.push(ProcessingStep { result: line, path: path });
        proof {
            done = done.push(full.subrange(start as int, n as int));
            assert(lines_of(full) =~= done);
            assert forall|k: int| 0 <= k < r@.len() implies (#[trigger] r@[k]).result@ == done[k]
                && r@[k].path@ == path0 by {
                if k < r0.len() {
                    assert(r@[k] == r0[k]);
                } else {
                    assert(r@[k].result@ == full.subrange(start as int, n as int));
                }
            }
        }
    } else {
        proof {
            assert(full.subrange(start as int, n as int).len() == 0);
            assert(lines_of(full) =~= done);
        }
    }
    r
}

/// Parses one raw line: returns the Question fragment it yields, or nothing
/// for a comment or a malformed line, exactly as `parse_frag` says.
pub fn parse_question_from_line(line_contents: ProcessingStep) -> (r: Option<Question>)
    ensures
        (r is Some) == (parse_frag(line_contents.result@, line_contents.path@) is Some),
        is_comment(line_contents.result@) ==> r is None,
        !exactly_one_pipe(line_contents.result@) ==> r is None,
        r is Some ==> question_of_frag(
            r->0,
            parse_frag(line_contents.result@, line_contents.path@)->0,
        ),
{
    let line = line_contents.result;
    let path = line_contents.path;
    let ghost l = line@;
    let t = line.as_str();
    let n = t.unicode_len();
    if n > 0 && t.get_char(0) == '#' {
        return None;
    }
    let mut count: usize = 0;
    let mut fp: usize = 0;
    let ghost mut p2: int = 0;
    let mut i: usize = 0;
    while i < n
        invariant
            n == l.len(),
            t@ == l,
            i <= n,
            count <= i,
            count == 0 ==> forall|k: int| 0 <= k < i ==> !pipe_at(l, k),
            count == 1 ==> pipe_at(l, fp as int) && fp < i && forall|k: int|
                0 <= k < i && k != fp ==> !pipe_at(l, k),
            count >= 2 ==> pipe_at(l, fp as int) && pipe_at(l, p2) && fp < p2,
        decreases n - i,
    {
        if t.get_char(i) == '|' {
            if count == 0 {
                fp = i;
            } else if count == 1 {
                proof {
                    p2 = i as int;
                }
            }
            count = count + 1;
        }
        i = i + 1;
    }
    if count != 1 {
        proof {
            if count == 0 {
                assert(forall|k: int| !pipe_at(l, k));
                assert(!exactly_one_pipe(l));
            } else {
                assert(pipe_at(l, fp as int) && pipe_at(l, p2) && fp < p2);
                assert(!exactly_one_pipe(l));
            }
        }
        return None;
    }
    proof {
        assert(exactly_one_pipe(l)) by {
            assert(pipe_at(l, fp as int));
        }
        assert(pipe_at(l, the_pipe(l)));
        assert(the_pipe(l) == fp as int);
        assert(l.take(fp as int) =~= l.subrange(0, fp as int));
        assert(l.skip(fp as int + 1) =~= l.subrange(fp as int + 1, n as int));
    }
    let question = remove_exra_whitespaces(t.substring_char(0, fp));
    let answer = remove_exra_whitespaces(t.substring_char(fp + 1, n));
    Some(Question::new(path, question, answer))
}

} // verus!
