//! The corpus: a mapping from normalized prompt text to its merged Question,
//! built by folding parsed fragments with answer-set and location-set union.
use vstd::prelude::*;
use crate::parser::{
    Frag, ProcessingStep, parse_frag, lines_of, get_lines_from_string, parse_question_from_line,
    question_of_frag,
};
use crate::question::Question;

verus! {

/// A mapping keyed by normalized question text, held as a list with at most
/// one entry per key.
pub struct Corpus {
    pub entries: Vec<Question>,
}

impl Corpus {
    /// Whether some entry's prompt text equals `q`.
    pub open spec fn contains_key(self, q: Seq<char>) -> bool {
        exists|i: int|
            0 <= i < self.entries@.len() && (#[trigger] self.entries@[i]).question@ == q
    }

    /// The index of the entry with prompt text `q`.
    pub open spec fn idx_of(self, q: Seq<char>) -> int {
        choose|i: int|
            0 <= i < self.entries@.len() && (#[trigger] self.entries@[i]).question@ == q
    }

    /// The entry with prompt text `q`.
    pub open spec fn entry(self, q: Seq<char>) -> Question {
        self.entries@[self.idx_of(q)]
    }

    /// The answers recorded for prompt `q`.
    pub open spec fn sols_of(self, q: Seq<char>) -> Set<Seq<char>> {
        self.entry(q).sols()
    }

    /// The source locations recorded for prompt `q`.
    pub open spec fn locs_of(self, q: Seq<char>) -> Set<Seq<char>> {
        self.entry(q).locs()
    }

    /// Well-formed: at most one entry per prompt text, every entry well-formed.
    pub open spec fn wf(self) -> bool {
        &&& forall|i: int, j: int|
            0 <= i < j < self.entries@.len() ==> (#[trigger] self.entries@[i]).question@ != (
            #[trigger] self.entries@[j]).question@
        &&& forall|i: int| 0 <= i < self.entries@.len() ==> (#[trigger] self.entries@[i]).wf()
    }

    /// In a well-formed corpus an entry's index is the index of its key.
    pub proof fn lemma_entry_unique(self, q: Seq<char>, i: int)
        requires
            self.wf(),
            0 <= i < self.entries@.len(),
            self.entries@[i].question@ == q,
        ensures
            self.contains_key(q),
            self.idx_of(q) == i,
            self.entry(q) == self.entries@[i],
    {
        assert(self.contains_key(q));
        let j = self.idx_of(q);
        assert(0 <= j < self.entries@.len() && self.entries@[j].question@ == q);
        if i < j {
            assert(self.entries@[i].question@ != self.entries@[j].question@);
        } else if j < i {
            assert(self.entries@[j].question@ != self.entries@[i].question@);
        }
    }

    /// The number of distinct questions in the corpus.
    pub fn len(&self) -> (n: usize)
        ensures
            n == self.entries@.len(),
    {
        self.entries.len()
    }

    /// The entry whose prompt text equals that of `q`, if one exists.
    pub fn get<'a>(&'a self, q: &String) -> (r: Option<&'a Question>)
        requires
            self.wf(),
        ensures
            (r is Some) == self.contains_key(q@),
            r is Some ==> *(r->0) == self.entry(q@),
    {
        let n = self.entries.len();
        let mut i: usize = 0;
        while i < n
            invariant
                n == self.entries@.len(),
                self.wf(),
                i <= n,
                forall|t: int| 0 <= t < i ==> (#[trigger] self.entries@[t]).question@ != q@,
            decreases n - i,
        {
            if self.entries[i].question.eq(q) {
                proof {
                    self.lemma_entry_unique(q@, i as int);
                }
                return Some(&self.entries[i]);
            }
            i = i + 1;
        }
        None
    }

    /// The empty corpus.
    pub fn new() -> (r: Corpus)
        ensures
            r.wf(),
            r.entries@.len() == 0,
            forall|q: Seq<char>| !(#[trigger] r.contains_key(q)),
    {
        Corpus { entries: Vec::new() }
    }
}

/// Merges one freshly parsed Question into the corpus: a new key is inserted
/// as it stands; for an existing key the answer and location sets become
/// unions while the old entry's prompt text and counters stay untouched.
pub fn merge_answers(map: Corpus, new_q: Question) -> (r: Corpus)
    requires
        map.wf(),
        new_q.wf(),
    ensures
        r.wf(),
        forall|q: Seq<char>|
            #![trigger r.contains_key(q)]
            #![trigger map.contains_key(q)]
            r.contains_key(q) <==> (map.contains_key(q) || q == new_q.question@),
        !map.contains_key(new_q.question@) ==> r.entry(new_q.question@) == new_q,
        map.contains_key(new_q.question@) ==> ({
            let e0 = map.entry(new_q.question@);
            let e1 = r.entry(new_q.question@);
            &&& e1.question == e0.question
            &&& e1.sols() == e0.sols().union(new_q.sols())
            &&& e1.locs() == e0.locs().union(new_q.locs())
            &&& e1.correct_count_round == e0.correct_count_round
            &&& e1.error_count_round == e0.error_count_round
            &&& e1.correct_count_sum == e0.correct_count_sum
            &&& e1.error_count_sum == e0.error_count_sum
        }),
        forall|q: Seq<char>|
            map.contains_key(q) && q != new_q.question@ ==> #[trigger] r.entry(q) == map.entry(q),
{
    let n = map.entries.len();
    let mut idx: usize = n;
    let mut i: usize = 0;
    while i < n
        invariant
            n == map.entries@.len(),
            i <= n,
            idx == n || (idx < i && map.entries@[idx as int].question@ == new_q.question@),
            idx == n ==> forall|t: int|
                0 <= t < i ==> (#[trigger] map.entries@[t]).question@ != new_q.question@,
        decreases n - i,
    {
        if idx == n && map.entries[i].question.eq(&new_q.question) {
            idx = i;
        }
        i = i + 1;
    }
    let ghost map0 = map;
    let ghost k = new_q.question@;
    let mut map = map;
    if idx < n {
        proof {
            assert(map0.entries@[idx as int].wf());
        }
        let mut e = map.entries.remove(idx);
        e.merge_from(new_q);
        map.entries.insert(idx, e);
        let ghost i = idx as int;
        proof {
            assert(map.entries@ =~= map0.entries@.update(i, e));
            assert forall|t: int| 0 <= t < map.entries@.len() implies (#[trigger] map.entries@[t]).question@
                == map0.entries@[t].question@ by {
                if t != i {
                    assert(map.entries@[t] == map0.entries@[t]);
                }
            }
            assert forall|t: int| 0 <= t < map.entries@.len() implies (#[trigger] map.entries@[t]).wf() by {
                if t != i {
                    assert(map.entries@[t] == map0.entries@[t]);
                    assert(map0.entries@[t].wf());
                }
            }
            assert(map.wf());
            map0.lemma_entry_unique(k, i);
            map.lemma_entry_unique(k, i);
            assert forall|q: Seq<char>| map.contains_key(q) <==> map0.contains_key(q) by {
                if map.contains_key(q) {
                    let t = choose|t: int|
                        0 <= t < map.entries@.len() && (#[trigger] map.entries@[t]).question@ == q;
                    assert(map0.entries@[t].question@ == q);
                }
                if map0.contains_key(q) {
                    let t = choose|t: int|
                        0 <= t < map0.entries@.len() && (#[trigger] map0.entries@[t]).question@
                            == q;
                    assert(map.entries@[t].question@ == q);
                }
            }
            assert forall|q: Seq<char>|
                map0.contains_key(q) && q != k implies #[trigger] map.entry(q) == map0.entry(
                q,
            ) by {
                let t = map0.idx_of(q);
                assert(0 <= t < map0.entries@.len() && map0.entries@[t].question@ == q);
                assert(t != i);
                assert(map.entries@[t] == map0.entries@[t]);
                map.lemma_entry_unique(q, t);
            }
        }
        return map;
    }
    proof {
        assert(!map0.contains_key(k));
    }
    let ghost e_new = new_q;
    map.entries.push(new_q);
    proof {
        assert forall|t: int| 0 <= t < map.entries@.len() - 1 implies (#[trigger] map.entries@[t])
            == map0.entries@[t] by {}
        assert(map.entries@[map.entries@.len() - 1] == e_new);
        assert(map.wf());
        map.lemma_entry_unique(k, map.entries@.len() - 1);
        assert forall|q: Seq<char>| map.contains_key(q) implies (map0.contains_key(q) || q
            == k) by {
            let t = choose|t: int|
                0 <= t < map.entries@.len() && (#[trigger] map.entries@[t]).question@ == q;
            if t < map.entries@.len() - 1 {
                assert(map0.entries@[t].question@ == q);
            }
        }
        assert forall|q: Seq<char>| map0.contains_key(q) implies map.contains_key(q) by {
            let t = choose|t: int|
                0 <= t < map0.entries@.len() && (#[trigger] map0.entries@[t]).question@ == q;
            assert(map.entries@[t].question@ == q);
        }
        assert forall|q: Seq<char>|
            map0.contains_key(q) && q != k implies #[trigger] map.entry(q) == map0.entry(q) by {
            let t = map0.idx_of(q);
            assert(0 <= t < map0.entries@.len() && map0.entries@[t].question@ == q);
            assert(map.entries@[t] == map0.entries@[t]);
            map.lemma_entry_unique(q, t);
        }
    }
    map
}

/// Whether some fragment of `fs` carries prompt text `q`.
pub open spec fn frags_have_key(fs: Seq<Frag>, q: Seq<char>) -> bool {
    exists|f: Frag| #[trigger] fs.contains(f) && f.q == q
}

/// Every answer that any fragment of `fs` gives for prompt `q`.
pub open spec fn frag_sols(fs: Seq<Frag>, q: Seq<char>) -> Set<Seq<char>> {
    Set::new(|a: Seq<char>| exists|f: Frag| #[trigger] fs.contains(f) && f.q == q && f.a == a)
}

/// Every source location where any fragment of `fs` gives prompt `q`.
pub open spec fn frag_locs(fs: Seq<Frag>, q: Seq<char>) -> Set<Seq<char>> {
    Set::new(|l: Seq<char>| exists|f: Frag| #[trigger] fs.contains(f) && f.q == q && f.loc == l)
}

/// The corpus is exactly the merge of the fragments `fs`: a key for each
/// prompt seen, carrying the union of all answers and of all locations seen
/// for it anywhere, with the quiz counters at zero.
pub open spec fn corpus_matches(c: Corpus, fs: Seq<Frag>) -> bool {
    &&& forall|q: Seq<char>|
        #![trigger c.contains_key(q)]
        #![trigger frags_have_key(fs, q)]
        c.contains_key(q) <==> frags_have_key(fs, q)
    &&& forall|q: Seq<char>|
        frags_have_key(fs, q) ==> #[trigger] c.sols_of(q) == frag_sols(fs, q)
    &&& forall|q: Seq<char>|
        frags_have_key(fs, q) ==> #[trigger] c.locs_of(q) == frag_locs(fs, q)
    &&& forall|q: Seq<char>| #[trigger] frags_have_key(fs, q) ==> c.entry(q).counters_zero()
}

proof fn lemma_contains_push<A>(s: Seq<A>, x: A, y: A)
    ensures
        s.push(x).contains(y) <==> (s.contains(y) || y == x),
{
    if s.push(x).contains(y) {
        let i = choose|i: int| 0 <= i < s.push(x).len() && s.push(x)[i] == y;
        if i < s.len() {
            assert(s[i] == y);
        }
    }
    if s.contains(y) {
        let i = choose|i: int| 0 <= i < s.len() && s[i] == y;
        assert(s.push(x)[i] == y);
    }
    assert(s.push(x)[s.len() as int] == x);
}

/// How one more fragment changes the keys, answers and locations of a
/// fragment collection.
pub proof fn lemma_push_frag(fs: Seq<Frag>, f: Frag)
    ensures
        forall|q: Seq<char>|
            #![trigger frags_have_key(fs.push(f), q)]
            #![trigger frags_have_key(fs, q)]
            frags_have_key(fs.push(f), q) <==> (frags_have_key(fs, q) || q == f.q),
        forall|q: Seq<char>|
            q != f.q ==> #[trigger] frag_sols(fs.push(f), q) == frag_sols(fs, q),
        forall|q: Seq<char>|
            q != f.q ==> #[trigger] frag_locs(fs.push(f), q) == frag_locs(fs, q),
        frag_sols(fs.push(f), f.q) == frag_sols(fs, f.q).insert(f.a),
        frag_locs(fs.push(f), f.q) == frag_locs(fs, f.q).insert(f.loc),
{
    assert forall|g: Frag| #[trigger] fs.push(f).contains(g) <==> (fs.contains(g) || g == f) by {
        lemma_contains_push(fs, f, g);
    }
    assert forall|q: Seq<char>|
        frags_have_key(fs.push(f), q) <==> (frags_have_key(fs, q) || q == f.q) by {
        if frags_have_key(fs, q) {
            let g = choose|g: Frag| #[trigger] fs.contains(g) && g.q == q;
            assert(fs.push(f).contains(g));
        }
        if q == f.q {
            assert(fs.push(f).contains(f));
        }
    }
    assert forall|q: Seq<char>|
        #![trigger frag_sols(fs.push(f), q)]
        #![trigger frag_locs(fs.push(f), q)]
        q != f.q implies frag_sols(fs.push(f), q) == frag_sols(fs, q) && frag_locs(fs.push(f), q)
        == frag_locs(fs, q) by {
        assert forall|a: Seq<char>| frag_sols(fs.push(f), q).contains(a) implies frag_sols(
            fs,
            q,
        ).contains(a) by {
            let g = choose|g: Frag| #[trigger] fs.push(f).contains(g) && g.q == q && g.a == a;
            assert(fs.contains(g));
        }
        assert forall|a: Seq<char>| frag_sols(fs, q).contains(a) implies frag_sols(
            fs.push(f),
            q,
        ).contains(a) by {
            let g = choose|g: Frag| #[trigger] fs.contains(g) && g.q == q && g.a == a;
            assert(fs.push(f).contains(g));
        }
        assert(frag_sols(fs.push(f), q) =~= frag_sols(fs, q));
        assert forall|l: Seq<char>| frag_locs(fs.push(f), q).contains(l) implies frag_locs(
            fs,
            q,
        ).contains(l) by {
            let g = choose|g: Frag| #[trigger] fs.push(f).contains(g) && g.q == q && g.loc == l;
            assert(fs.contains(g));
        }
        assert forall|l: Seq<char>| frag_locs(fs, q).contains(l) implies frag_locs(
            fs.push(f),
            q,
        ).contains(l) by {
            let g = choose|g: Frag| #[trigger] fs.contains(g) && g.q == q && g.loc == l;
            assert(fs.push(f).contains(g));
        }
        assert(frag_locs(fs.push(f), q) =~= frag_locs(fs, q));
    }
    assert(frag_sols(fs.push(f), f.q) =~= frag_sols(fs, f.q).insert(f.a)) by {
        assert(fs.push(f).contains(f));
        assert forall|a: Seq<char>| frag_sols(fs.push(f), f.q).contains(a) implies frag_sols(
            fs,
            f.q,
        ).insert(f.a).contains(a) by {
            let g = choose|g: Frag| #[trigger] fs.push(f).contains(g) && g.q == f.q && g.a == a;
            if g != f {
                assert(fs.contains(g));
            }
        }
        assert forall|a: Seq<char>| frag_sols(fs, f.q).insert(f.a).contains(a) implies frag_sols(
            fs.push(f),
            f.q,
        ).contains(a) by {
            if a != f.a {
                let g = choose|g: Frag| #[trigger] fs.contains(g) && g.q == f.q && g.a == a;
                assert(fs.push(f).contains(g));
            }
        }
    }
    assert(frag_locs(fs.push(f), f.q) =~= frag_locs(fs, f.q).insert(f.loc)) by {
        assert(fs.push(f).contains(f));
        assert forall|l: Seq<char>| frag_locs(fs.push(f), f.q).contains(l) implies frag_locs(
            fs,
            f.q,
        ).insert(f.loc).contains(l) by {
            let g = choose|g: Frag| #[trigger] fs.push(f).contains(g) && g.q == f.q && g.loc == l;
            if g != f {
                assert(fs.contains(g));
            }
        }
        assert forall|l: Seq<char>| frag_locs(fs, f.q).insert(f.loc).contains(l) implies frag_locs(
            fs.push(f),
            f.q,
        ).contains(l) by {
            if l != f.loc {
                let g = choose|g: Frag| #[trigger] fs.contains(g) && g.q == f.q && g.loc == l;
                assert(fs.push(f).contains(g));
            }
        }
    }
}

/// One merge step preserves the correspondence between the corpus and the
/// fragments folded so far.
proof fn lemma_merge_step(c0: Corpus, c1: Corpus, fs: Seq<Frag>, f: Frag, nq: Question)
    requires
        corpus_matches(c0, fs),
        question_of_frag(nq, f),
        c1.wf(),
        forall|q: Seq<char>|
            #![trigger c1.contains_key(q)]
            #![trigger c0.contains_key(q)]
            c1.contains_key(q) <==> (c0.contains_key(q) || q == nq.question@),
        !c0.contains_key(nq.question@) ==> c1.entry(nq.question@) == nq,
        c0.contains_key(nq.question@) ==> ({
            let e0 = c0.entry(nq.question@);
            let e1 = c1.entry(nq.question@);
            &&& e1.sols() == e0.sols().union(nq.sols())
            &&& e1.locs() == e0.locs().union(nq.locs())
            &&& e1.correct_count_round == e0.correct_count_round
            &&& e1.error_count_round == e0.error_count_round
            &&& e1.correct_count_sum == e0.correct_count_sum
            &&& e1.error_count_sum == e0.error_count_sum
        }),
        forall|q: Seq<char>|
            c0.contains_key(q) && q != nq.question@ ==> #[trigger] c1.entry(q) == c0.entry(q),
    ensures
        corpus_matches(c1, fs.push(f)),
{
    lemma_push_frag(fs, f);
    let k = f.q;
    assert(nq.question@ == k);
    assert forall|q: Seq<char>|
        c1.contains_key(q) <==> #[trigger] frags_have_key(fs.push(f), q) by {}
    if c0.contains_key(k) {
        assert(frags_have_key(fs, k));
        assert(c1.sols_of(k) =~= frag_sols(fs.push(f), k)) by {
            assert(c0.sols_of(k) == frag_sols(fs, k));
            assert(nq.sols() == Set::<Seq<char>>::empty().insert(f.a));
            assert(c1.sols_of(k) == c0.sols_of(k).union(nq.sols()));
            assert(frag_sols(fs.push(f), k) == frag_sols(fs, k).insert(f.a));
        }
        assert(c1.locs_of(k) =~= frag_locs(fs.push(f), k)) by {
            assert(c0.locs_of(k) == frag_locs(fs, k));
            assert(nq.locs() == Set::<Seq<char>>::empty().insert(f.loc));
            assert(c1.locs_of(k) == c0.locs_of(k).union(nq.locs()));
            assert(frag_locs(fs.push(f), k) == frag_locs(fs, k).insert(f.loc));
        }
        assert(c1.entry(k).counters_zero());
    } else {
        assert(!frags_have_key(fs, k));
        assert(frag_sols(fs, k) =~= Set::<Seq<char>>::empty()) by {
            assert forall|a: Seq<char>| !frag_sols(fs, k).contains(a) by {
                if frag_sols(fs, k).contains(a) {
                    let g = choose|g: Frag| #[trigger] fs.contains(g) && g.q == k && g.a == a;
                    assert(frags_have_key(fs, k));
                }
            }
        }
        assert(frag_locs(fs, k) =~= Set::<Seq<char>>::empty()) by {
            assert forall|l: Seq<char>| !frag_locs(fs, k).contains(l) by {
                if frag_locs(fs, k).contains(l) {
                    let g = choose|g: Frag| #[trigger] fs.contains(g) && g.q == k && g.loc == l;
                    assert(frags_have_key(fs, k));
                }
            }
        }
        assert(c1.entry(k) == nq);
        assert(c1.sols_of(k) =~= frag_sols(fs.push(f), k)) by {
            assert(c1.sols_of(k) == Set::<Seq<char>>::empty().insert(f.a));
            assert(frag_sols(fs.push(f), k) == frag_sols(fs, k).insert(f.a));
        }
        assert(c1.locs_of(k) =~= frag_locs(fs.push(f), k)) by {
            assert(c1.locs_of(k) == Set::<Seq<char>>::empty().insert(f.loc));
            assert(frag_locs(fs.push(f), k) == frag_locs(fs, k).insert(f.loc));
        }
        assert(c1.entry(k).counters_zero());
    }
    assert forall|q: Seq<char>| #[trigger] frags_have_key(fs.push(f), q) implies c1.sols_of(q)
        == frag_sols(fs.push(f), q) && c1.locs_of(q) == frag_locs(fs.push(f), q)
        && c1.entry(q).counters_zero() by {
        if q != k {
            assert(frags_have_key(fs, q));
            assert(c0.contains_key(q));
            assert(c1.entry(q) == c0.entry(q));
            assert(c0.sols_of(q) == frag_sols(fs, q));
            assert(c0.locs_of(q) == frag_locs(fs, q));
            assert(c1.sols_of(q) == c0.sols_of(q));
            assert(c1.locs_of(q) == c0.locs_of(q));
            assert(frag_sols(fs.push(f), q) == frag_sols(fs, q));
            assert(frag_locs(fs.push(f), q) == frag_locs(fs, q));
            assert(c0.entry(q).counters_zero());
        }
    }
}


/// The fragments one optional parse yields.
pub open spec fn opt_frag(o: Option<Frag>) -> Seq<Frag> {
    match o {
        Some(f) => seq![f],
        None => Seq::empty(),
    }
}

/// The fragments the given lines yield at location `loc`, in order.
pub open spec fn frags_of_lines(ls: Seq<Seq<char>>, loc: Seq<char>) -> Seq<Frag>
    decreases ls.len(),
{
    if ls.len() == 0 {
        Seq::empty()
    } else {
        frags_of_lines(ls.drop_last(), loc) + opt_frag(parse_frag(ls.last(), loc))
    }
}

/// The fragments one file's text yields, tagged with its path.
pub open spec fn frags_of_file(content: Seq<char>, loc: Seq<char>) -> Seq<Frag> {
    frags_of_lines(lines_of(content), loc)
}

/// The fragments a collection of files yields, in processing order.
pub open spec fn frags_of_steps(ss: Seq<ProcessingStep>) -> Seq<Frag>
    decreases ss.len(),
{
    if ss.len() == 0 {
        Seq::empty()
    } else {
        frags_of_steps(ss.drop_last()) + frags_of_file(ss.last().result@, ss.last().path@)
    }
}

proof fn lemma_frags_of_lines_take(ls: Seq<Seq<char>>, loc: Seq<char>, j: int)
    requires
        0 <= j < ls.len(),
    ensures
        frags_of_lines(ls.take(j + 1), loc) == frags_of_lines(ls.take(j), loc) + opt_frag(
            parse_frag(ls[j], loc),
        ),
{
    assert(ls.take(j + 1).drop_last() =~= ls.take(j));
    assert(ls.take(j + 1).last() == ls[j]);
}

proof fn lemma_frags_of_steps_take(ss: Seq<ProcessingStep>, i: int)
    requires
        0 <= i < ss.len(),
    ensures
        frags_of_steps(ss.take(i + 1)) == frags_of_steps(ss.take(i)) + frags_of_file(
            ss[i].result@,
            ss[i].path@,
        ),
{
    assert(ss.take(i + 1).drop_last() =~= ss.take(i));
    assert(ss.take(i + 1).last() == ss[i]);
}

/// Builds the corpus from the given file contents: splits each file into its
/// lines, parses every line, and folds all fragments into the mapping,
/// merging answers and locations by prompt text.
pub fn build_corpus(files: Vec<ProcessingStep>) -> (r: Corpus)
    ensures
        r.wf(),
        corpus_matches(r, frags_of_steps(files@)),
{
    let mut corpus = Corpus::new();
    let ghost mut gfs: Seq<Frag> = Seq::empty();
    proof {
        assert forall|q: Seq<char>| !(#[trigger] frags_have_key(gfs, q)) by {
            if frags_have_key(gfs, q) {
                let g = choose|g: Frag| #[trigger] gfs.contains(g) && g.q == q;
            }
        }
        assert(files@.take(0) =~= Seq::<ProcessingStep>::empty());
    }
    let nf = files.len();
    let mut fi: usize = 0;
    while fi < nf
        invariant
            nf == files@.len(),
            fi <= nf,
            corpus.wf(),
            corpus_matches(corpus, gfs),
            gfs == frags_of_steps(files@.take(fi as int)),
        decreases nf - fi,
    {
        let step = ProcessingStep {
            result: files[fi].result.clone(),
            path: files[fi].path.clone(),
        };
        let ghost cview = files@[fi as int].result@;
        let ghost pview = files@[fi as int].path@;
        let lines = get_lines_from_string(step);
        let ghost gfs0 = gfs;
        let nl = lines.len();
        let mut lj: usize = 0;
        proof {
            assert(lines_of(cview).take(0) =~= Seq::<Seq<char>>::empty());
            assert(gfs =~= gfs0 + frags_of_lines(lines_of(cview).take(0), pview));
        }
        while lj < nl
            invariant
                nl == lines@.len(),
                lj <= nl,
                corpus.wf(),
                corpus_matches(corpus, gfs),
                gfs == gfs0 + frags_of_lines(lines_of(cview).take(lj as int), pview),
                nl == lines_of(cview).len(),
                forall|kk: int|
                    0 <= kk < lines@.len() ==> (#[trigger] lines@[kk]).result@ == lines_of(
                        cview,
                    )[kk] && lines@[kk].path@ == pview,
            decreases nl - lj,
        {
            let line = ProcessingStep {
                result: lines[lj].result.clone(),
                path: lines[lj].path.clone(),
            };
            let ghost lview = lines_of(cview)[lj as int];
            proof {
                lemma_frags_of_lines_take(lines_of(cview), pview, lj as int);
            }
            let parsed = parse_question_from_line(line);
            match parsed {
                Option::Some(q) => {
                    let ghost f = parse_frag(lview, pview)->0;
                    let ghost corpus0 = corpus;
                    corpus = merge_answers(corpus, q);
                    proof {
                        lemma_merge_step(corpus0, corpus, gfs, f, q);
                        gfs = gfs.push(f);
                        assert(opt_frag(parse_frag(lview, pview)) =~= seq![f]);
                        assert(gfs =~= gfs0 + frags_of_lines(
                            lines_of(cview).take(lj as int + 1),
                            pview,
                        ));
                    }
                },
                Option::None => {
                    proof {
                        assert(opt_frag(parse_frag(lview, pview)) =~= Seq::<Frag>::empty());
                        assert(gfs =~= gfs0 + frags_of_lines(
                            lines_of(cview).take(lj as int + 1),
                            pview,
                        ));
                    }
                },
            }
            lj = lj + 1;
        }
        proof {
            assert(lines_of(cview).take(nl as int) =~= lines_of(cview));
            lemma_frags_of_steps_take(files@, fi as int);
            assert(gfs =~= frags_of_steps(files@.take(fi as int + 1)));
        }
        fi = fi + 1;
    }
    proof {
        assert(files@.take(nf as int) =~= files@);
    }
    corpus
}


proof fn lemma_contains_concat<A>(s1: Seq<A>, s2: Seq<A>, y: A)
    ensures
        (s1 + s2).contains(y) <==> (s1.contains(y) || s2.contains(y)),
{
    if (s1 + s2).contains(y) {
        let i = choose|i: int| 0 <= i < (s1 + s2).len() && (s1 + s2)[i] == y;
        if i < s1.len() {
            assert(s1[i] == y);
        } else {
            assert(s2[i - s1.len()] == y);
        }
    }
    if s1.contains(y) {
        let i = choose|i: int| 0 <= i < s1.len() && s1[i] == y;
        assert((s1 + s2)[i] == y);
    }
    if s2.contains(y) {
        let i = choose|i: int| 0 <= i < s2.len() && s2[i] == y;
        assert((s1 + s2)[s1.len() + i] == y);
    }
}

/// Merging is a plain set union: over a concatenation of fragment
/// collections, the keys are the union of the keys and the answers and
/// locations of each key are the unions of what each part holds for it.
pub proof fn lemma_frag_union(fs1: Seq<Frag>, fs2: Seq<Frag>, q: Seq<char>)
    ensures
        frags_have_key(fs1 + fs2, q) <==> (frags_have_key(fs1, q) || frags_have_key(fs2, q)),
        frag_sols(fs1 + fs2, q) == frag_sols(fs1, q).union(frag_sols(fs2, q)),
        frag_locs(fs1 + fs2, q) == frag_locs(fs1, q).union(frag_locs(fs2, q)),
{
    assert forall|g: Frag| #[trigger] (fs1 + fs2).contains(g) <==> (fs1.contains(g)
        || fs2.contains(g)) by {
        lemma_contains_concat(fs1, fs2, g);
    }
    if frags_have_key(fs1, q) {
        let g = choose|g: Frag| #[trigger] fs1.contains(g) && g.q == q;
        assert((fs1 + fs2).contains(g));
    }
    if frags_have_key(fs2, q) {
        let g = choose|g: Frag| #[trigger] fs2.contains(g) && g.q == q;
        assert((fs1 + fs2).contains(g));
    }
    assert forall|a: Seq<char>| frag_sols(fs1 + fs2, q).contains(a) implies frag_sols(
        fs1,
        q,
    ).union(frag_sols(fs2, q)).contains(a) by {
        let g = choose|g: Frag| #[trigger] (fs1 + fs2).contains(g) && g.q == q && g.a == a;
    }
    assert forall|a: Seq<char>| frag_sols(fs1, q).union(frag_sols(fs2, q)).contains(a)
        implies frag_sols(fs1 + fs2, q).contains(a) by {
        if frag_sols(fs1, q).contains(a) {
            let g = choose|g: Frag| #[trigger] fs1.contains(g) && g.q == q && g.a == a;
            assert((fs1 + fs2).contains(g));
        } else {
            let g = choose|g: Frag| #[trigger] fs2.contains(g) && g.q == q && g.a == a;
            assert((fs1 + fs2).contains(g));
        }
    }
    assert(frag_sols(fs1 + fs2, q) =~= frag_sols(fs1, q).union(frag_sols(fs2, q)));
    assert forall|l: Seq<char>| frag_locs(fs1 + fs2, q).contains(l) implies frag_locs(
        fs1,
        q,
    ).union(frag_locs(fs2, q)).contains(l) by {
        let g = choose|g: Frag| #[trigger] (fs1 + fs2).contains(g) && g.q == q && g.loc == l;
    }
    assert forall|l: Seq<char>| frag_locs(fs1, q).union(frag_locs(fs2, q)).contains(l)
        implies frag_locs(fs1 + fs2, q).contains(l) by {
        if frag_locs(fs1, q).contains(l) {
            let g = choose|g: Frag| #[trigger] fs1.contains(g) && g.q == q && g.loc == l;
            assert((fs1 + fs2).contains(g));
        } else {
            let g = choose|g: Frag| #[trigger] fs2.contains(g) && g.q == q && g.loc == l;
            assert((fs1 + fs2).contains(g));
        }
    }
    assert(frag_locs(fs1 + fs2, q) =~= frag_locs(fs1, q).union(frag_locs(fs2, q)));
}

/// Two corpora built from fragment collections with the same members agree
/// on their keys and on the answer and location sets of every key.
pub proof fn lemma_corpus_membership(c1: Corpus, c2: Corpus, fs1: Seq<Frag>, fs2: Seq<Frag>)
    requires
        corpus_matches(c1, fs1),
        corpus_matches(c2, fs2),
        forall|f: Frag| #![trigger fs1.contains(f)] #![trigger fs2.contains(f)] fs1.contains(f)
            <==> fs2.contains(f),
    ensures
        forall|q: Seq<char>|
            #![trigger c1.contains_key(q)]
            #![trigger c2.contains_key(q)]
            c1.contains_key(q) <==> c2.contains_key(q),
        forall|q: Seq<char>| c1.contains_key(q) ==> #[trigger] c1.sols_of(q) == c2.sols_of(q),
        forall|q: Seq<char>| c1.contains_key(q) ==> #[trigger] c1.locs_of(q) == c2.locs_of(q),
{
    assert forall|q: Seq<char>|
        #![trigger frags_have_key(fs1, q)]
        #![trigger frags_have_key(fs2, q)]
        frags_have_key(fs1, q) <==> frags_have_key(fs2, q) by {
        if frags_have_key(fs1, q) {
            let g = choose|g: Frag| #[trigger] fs1.contains(g) && g.q == q;
            assert(fs2.contains(g));
        }
        if frags_have_key(fs2, q) {
            let g = choose|g: Frag| #[trigger] fs2.contains(g) && g.q == q;
            assert(fs1.contains(g));
        }
    }
    assert forall|q: Seq<char>| #[trigger] frags_have_key(fs1, q) implies frag_sols(fs1, q)
        == frag_sols(fs2, q) && frag_locs(fs1, q) == frag_locs(fs2, q) by {
        assert forall|a: Seq<char>| frag_sols(fs1, q).contains(a) implies frag_sols(
            fs2,
            q,
        ).contains(a) by {
            let g = choose|g: Frag| #[trigger] fs1.contains(g) && g.q == q && g.a == a;
            assert(fs2.contains(g));
        }
        assert forall|a: Seq<char>| frag_sols(fs2, q).contains(a) implies frag_sols(
            fs1,
            q,
        ).contains(a) by {
            let g = choose|g: Frag| #[trigger] fs2.contains(g) && g.q == q && g.a == a;
            assert(fs1.contains(g));
        }
        assert(frag_sols(fs1, q) =~= frag_sols(fs2, q));
        assert forall|l: Seq<char>| frag_locs(fs1, q).contains(l) implies frag_locs(
            fs2,
            q,
        ).contains(l) by {
            let g = choose|g: Frag| #[trigger] fs1.contains(g) && g.q == q && g.loc == l;
            assert(fs2.contains(g));
        }
        assert forall|l: Seq<char>| frag_locs(fs2, q).contains(l) implies frag_locs(
            fs1,
            q,
        ).contains(l) by {
            let g = choose|g: Frag| #[trigger] fs2.contains(g) && g.q == q && g.loc == l;
            assert(fs1.contains(g));
        }
        assert(frag_locs(fs1, q) =~= frag_locs(fs2, q));
    }
    assert forall|q: Seq<char>| c1.contains_key(q) implies #[trigger] c1.sols_of(q) == c2.sols_of(
        q,
    ) && #[trigger] c1.locs_of(q) == c2.locs_of(q) by {
        assert(frags_have_key(fs1, q));
        assert(frags_have_key(fs2, q));
        assert(c1.sols_of(q) == frag_sols(fs1, q));
        assert(c2.sols_of(q) == frag_sols(fs2, q));
        assert(c1.locs_of(q) == frag_locs(fs1, q));
        assert(c2.locs_of(q) == frag_locs(fs2, q));
    }
}

proof fn lemma_steps_contains(ss: Seq<ProcessingStep>, f: Frag)
    ensures
        frags_of_steps(ss).contains(f) <==> exists|j: int|
            0 <= j < ss.len() && frags_of_file((#[trigger] ss[j]).result@, ss[j].path@).contains(
                f,
            ),
    decreases ss.len(),
{
    if ss.len() == 0 {
        assert(!frags_of_steps(ss).contains(f));
    } else {
        let pre = ss.drop_last();
        let lastf = frags_of_file(ss.last().result@, ss.last().path@);
        lemma_steps_contains(pre, f);
        lemma_contains_concat(frags_of_steps(pre), lastf, f);
        if frags_of_steps(ss).contains(f) {
            if frags_of_steps(pre).contains(f) {
                let j = choose|j: int|
                    0 <= j < pre.len() && frags_of_file(
                        (#[trigger] pre[j]).result@,
                        pre[j].path@,
                    ).contains(f);
                assert(ss[j] == pre[j]);
                assert(frags_of_file(ss[j].result@, ss[j].path@).contains(f));
            } else {
                assert(frags_of_file(ss[ss.len() - 1].result@, ss[ss.len() - 1].path@).contains(
                    f,
                ));
            }
        }
        if exists|j: int|
            0 <= j < ss.len() && frags_of_file((#[trigger] ss[j]).result@, ss[j].path@).contains(
                f,
            ) {
            let j = choose|j: int|
                0 <= j < ss.len() && frags_of_file(
                    (#[trigger] ss[j]).result@,
                    ss[j].path@,
                ).contains(f);
            if j < ss.len() - 1 {
                assert(pre[j] == ss[j]);
                assert(frags_of_file((pre[j]).result@, pre[j].path@).contains(f));
                assert(frags_of_steps(pre).contains(f));
            } else {
                assert(lastf.contains(f));
            }
        }
    }
}

/// Processing order does not matter: two corpora built from the same files,
/// discovered in any order, agree on their keys and on the answer and
/// location sets of every key.
pub proof fn lemma_order_independent(
    c1: Corpus,
    c2: Corpus,
    files1: Seq<ProcessingStep>,
    files2: Seq<ProcessingStep>,
)
    requires
        corpus_matches(c1, frags_of_steps(files1)),
        corpus_matches(c2, frags_of_steps(files2)),
        files1.to_multiset() == files2.to_multiset(),
    ensures
        forall|q: Seq<char>|
            #![trigger c1.contains_key(q)]
            #![trigger c2.contains_key(q)]
            c1.contains_key(q) <==> c2.contains_key(q),
        forall|q: Seq<char>| c1.contains_key(q) ==> #[trigger] c1.sols_of(q) == c2.sols_of(q),
        forall|q: Seq<char>| c1.contains_key(q) ==> #[trigger] c1.locs_of(q) == c2.locs_of(q),
{
    broadcast use vstd::seq_lib::to_multiset_contains;

    assert forall|f: Frag|
        #![trigger frags_of_steps(files1).contains(f)]
        #![trigger frags_of_steps(files2).contains(f)]
        frags_of_steps(files1).contains(f) <==> frags_of_steps(files2).contains(f) by {
        lemma_steps_contains(files1, f);
        lemma_steps_contains(files2, f);
        if frags_of_steps(files1).contains(f) {
            let j = choose|j: int|
                0 <= j < files1.len() && frags_of_file(
                    (#[trigger] files1[j]).result@,
                    files1[j].path@,
                ).contains(f);
            assert(files1.contains(files1[j]));
            assert(files1.to_multiset().count(files1[j]) > 0);
            assert(files2.to_multiset().count(files1[j]) > 0);
            assert(files2.contains(files1[j]));
            let t = choose|t: int| 0 <= t < files2.len() && files2[t] == files1[j];
            assert(frags_of_file((files2[t]).result@, files2[t].path@).contains(f));
        }
        if frags_of_steps(files2).contains(f) {
            let j = choose|j: int|
                0 <= j < files2.len() && frags_of_file(
                    (#[trigger] files2[j]).result@,
                    files2[j].path@,
                ).contains(f);
            assert(files2.contains(files2[j]));
            assert(files2.to_multiset().count(files2[j]) > 0);
            assert(files1.to_multiset().count(files2[j]) > 0);
            assert(files1.contains(files2[j]));
            let t = choose|t: int| 0 <= t < files1.len() && files1[t] == files2[j];
            assert(frags_of_file((files1[t]).result@, files1[t].path@).contains(f));
        }
    }
    lemma_corpus_membership(c1, c2, frags_of_steps(files1), frags_of_steps(files2));
}

} // verus!
