//! The Question entity: one normalized prompt carrying the set of accepted
//! answers and the set of source locations seen for it, plus the quiz counters
//! that ingestion only initializes.
use vstd::prelude::*;

verus! {

/// The set of texts held by the strings of `v`.
pub open spec fn view_set(v: Seq<String>) -> Set<Seq<char>> {
    Set::new(|a: Seq<char>| exists|i: int| 0 <= i < v.len() && #[trigger] v[i]@ == a)
}

/// No two strings of `v` hold the same text: `v` acts as a set.
pub open spec fn distinct_views(v: Seq<String>) -> bool {
    forall|i: int, j: int| 0 <= i < j < v.len() ==> #[trigger] v[i]@ != #[trigger] v[j]@
}

proof fn lemma_view_set_push(v: Seq<String>, s: String)
    ensures
        view_set(v.push(s)) == view_set(v).insert(s@),
{
    assert forall|a: Seq<char>| view_set(v.push(s)).contains(a) implies view_set(v).insert(
        s@,
    ).contains(a) by {
        let i = choose|i: int| 0 <= i < v.push(s).len() && #[trigger] v.push(s)[i]@ == a;
        if i < v.len() {
            assert(v[i]@ == a);
        }
    }
    assert forall|a: Seq<char>| view_set(v).insert(s@).contains(a) implies view_set(
        v.push(s),
    ).contains(a) by {
        if a == s@ {
            assert(v.push(s)[v.len() as int]@ == a);
        } else {
            let i = choose|i: int| 0 <= i < v.len() && #[trigger] v[i]@ == a;
            assert(v.push(s)[i]@ == a);
        }
    }
    assert(view_set(v.push(s)) =~= view_set(v).insert(s@));
}

/// Whether some string of `v` holds the text of `s`.
fn contains_text(v: &Vec<String>, s: &String) -> (r: bool)
    ensures
        r == view_set(v@).contains(s@),
{
    let mut i: usize = 0;
    while i < v.len()
        invariant
            i <= v@.len(),
            forall|k: int| 0 <= k < i ==> #[trigger] v@[k]@ != s@,
        decreases v@.len() - i,
    {
        if v[i].eq(s) {
            return true;
        }
        i = i + 1;
    }
    false
}

/// Set-insert by text: pushes `s` unless its text is already present.
fn insert_text(v: &mut Vec<String>, s: String)
    requires
        distinct_views(old(v)@),
    ensures
        distinct_views(final(v)@),
        view_set(final(v)@) == view_set(old(v)@).insert(s@),
        final(v)@.len() >= old(v)@.len(),
{
    let present = contains_text(v, &s);
    if !present {
        proof {
            lemma_view_set_push(v@, s);
        }
        v.push(s);
    } else {
        proof {
            assert(view_set(v@) =~= view_set(v@).insert(s@));
        }
    }
}

#[derive(Debug)]
pub struct Question {
    pub locations: Vec<String>,
    pub question: String,
    pub solutions: Vec<String>,
    pub correct_count_round: i32,
    pub error_count_round: i32,
    pub correct_count_sum: i32,
    pub error_count_sum: i32,
}

impl Question {
    /// The set of accepted answers, as text.
    pub open spec fn sols(self) -> Set<Seq<char>> {
        view_set(self.solutions@)
    }

    /// The set of source locations, as text.
    pub open spec fn locs(self) -> Set<Seq<char>> {
        view_set(self.locations@)
    }

    /// All four quiz counters stand at zero, as ingestion leaves them.
    pub open spec fn counters_zero(self) -> bool {
        &&& self.correct_count_round == 0
        &&& self.error_count_round == 0
        &&& self.correct_count_sum == 0
        &&& self.error_count_sum == 0
    }

    /// The answer and location lists act as sets (no duplicate text) and
    /// neither is empty.
    pub open spec fn wf(self) -> bool {
        &&& distinct_views(self.solutions@)
        &&& distinct_views(self.locations@)
        &&& self.solutions@.len() > 0
        &&& self.locations@.len() > 0
    }

    /// A fresh Question: one answer, one location, counters at zero.
    pub fn new(location: String, question: String, solution: String) -> (q: Question)
        ensures
            q.question@ == question@,
            q.sols() == Set::<Seq<char>>::empty().insert(solution@),
            q.locs() == Set::<Seq<char>>::empty().insert(location@),
            q.counters_zero(),
            q.wf(),
    {
        let ghost loc0 = location@;
        let ghost sol0 = solution@;
        let q = Question {
            question,
            locations: vec![location],
            solutions: vec![solution],
            correct_count_round: 0,
            error_count_round: 0,
            correct_count_sum: 0,
            error_count_sum: 0,
        };
        proof {
            assert(q.sols() =~= Set::<Seq<char>>::empty().insert(sol0)) by {
                assert(q.solutions@[0]@ == sol0);
            }
            assert(q.locs() =~= Set::<Seq<char>>::empty().insert(loc0)) by {
                assert(q.locations@[0]@ == loc0);
            }
        }
        q
    }

    /// Folds another Question for the same prompt into this one: the answer
    /// and location sets become unions, while the prompt text and the
    /// counters of `self` stay untouched.
    pub fn merge_from(&mut self, other: Question)
        requires
            old(self).wf(),
        ensures
            final(self).wf(),
            final(self).question == old(self).question,
            final(self).sols() == old(self).sols().union(other.sols()),
            final(self).locs() == old(self).locs().union(other.locs()),
            final(self).correct_count_round == old(self).correct_count_round,
            final(self).error_count_round == old(self).error_count_round,
            final(self).correct_count_sum == old(self).correct_count_sum,
            final(self).error_count_sum == old(self).error_count_sum,
    {
        let osols = other.solutions;
        let olocs = other.locations;
        let mut i: usize = 0;
        while i < osols.len()
            invariant
                i <= osols@.len(),
                distinct_views(self.solutions@),
                view_set(self.solutions@) == view_set(old(self).solutions@).union(
                    view_set(osols@.take(i as int)),
                ),
                self.solutions@.len() >= old(self).solutions@.len(),
                self.locations == old(self).locations,
                self.question == old(self).question,
                self.correct_count_round == old(self).correct_count_round,
                self.error_count_round == old(self).error_count_round,
                self.correct_count_sum == old(self).correct_count_sum,
                self.error_count_sum == old(self).error_count_sum,
            decreases osols@.len() - i,
        {
            let s = osols[i].clone();
            insert_text(&mut self.solutions, s);
            proof {
                assert(osols@.take(i as int + 1) =~= osols@.take(i as int).push(osols@[i as int]));
                lemma_view_set_push(osols@.take(i as int), osols@[i as int]);
                assert(view_set(self.solutions@) =~= view_set(old(self).solutions@).union(
                    view_set(osols@.take(i as int + 1)),
                ));
            }
            i = i + 1;
        }
        proof {
            assert(osols@.take(osols@.len() as int) =~= osols@);
        }
        let mut j: usize = 0;
        while j < olocs.len()
            invariant
                j <= olocs@.len(),
                distinct_views(self.locations@),
                view_set(self.locations@) == view_set(old(self).locations@).union(
                    view_set(olocs@.take(j as int)),
                ),
                self.locations@.len() >= old(self).locations@.len(),
                distinct_views(self.solutions@),
                view_set(self.solutions@) == view_set(old(self).solutions@).union(
                    view_set(osols@),
                ),
                self.solutions@.len() >= old(self).solutions@.len(),
                self.question == old(self).question,
                self.correct_count_round == old(self).correct_count_round,
                self.error_count_round == old(self).error_count_round,
                self.correct_count_sum == old(self).correct_count_sum,
                self.error_count_sum == old(self).error_count_sum,
            decreases olocs@.len() - j,
        {
            let s = olocs[j].clone();
            insert_text(&mut self.locations, s);
            proof {
                assert(olocs@.take(j as int + 1) =~= olocs@.take(j as int).push(olocs@[j as int]));
                lemma_view_set_push(olocs@.take(j as int), olocs@[j as int]);
                assert(view_set(self.locations@) =~= view_set(old(self).locations@).union(
                    view_set(olocs@.take(j as int + 1)),
                ));
            }
            j = j + 1;
        }
        proof {
            assert(olocs@.take(olocs@.len() as int) =~= olocs@);
        }
    }
}

impl PartialEq for Question {
    /// Identity of a Question: equal exactly when the normalized prompt text
    /// is equal; answers, locations and counters do not enter.
    fn eq(&self, other: &Self) -> bool {
        self.question.eq(&other.question)
    }
}

impl Eq for Question {

}

impl vstd::std_specs::cmp::PartialEqSpecImpl for Question {
    open spec fn obeys_eq_spec() -> bool {
        true
    }

    open spec fn eq_spec(&self, other: &Self) -> bool {
        self.question@ == other.question@
    }
}

} // verus!
