//! Text normalization: collapse every run of whitespace to a single space and
//! trim leading and trailing whitespace.
use vstd::prelude::*;

verus! {

/// The characters treated as whitespace by normalization.
pub open spec fn is_ws(c: char) -> bool {
    c == ' ' || c == '\t' || c == '\n' || c == '\r' || c == '\u{B}' || c == '\u{C}'
}

/// Tail-recursive normalization: `acc` is the output built so far and `pend`
/// records that whitespace was seen since the last emitted character.  A
/// pending space is emitted only in front of a later non-whitespace character
/// and only once something stands in `acc`, which trims both ends.
pub open spec fn norm_from(s: Seq<char>, acc: Seq<char>, pend: bool) -> Seq<char>
    decreases s.len(),
{
    if s.len() == 0 {
        acc
    } else if is_ws(s[0]) {
        norm_from(s.drop_first(), acc, true)
    } else if pend && acc.len() > 0 {
        norm_from(s.drop_first(), acc + seq![' ', s[0]], false)
    } else {
        norm_from(s.drop_first(), acc.push(s[0]), false)
    }
}

/// `s` with every maximal run of whitespace collapsed to one space and outer
/// whitespace removed.
pub open spec fn norm(s: Seq<char>) -> Seq<char> {
    norm_from(s, Seq::empty(), false)
}

fn is_ws_char(c: char) -> (r: bool)
    ensures
        r == is_ws(c),
{
    c == ' ' || c == '\t' || c == '\n' || c == '\r' || c == '\u{B}' || c == '\u{C}'
}

/// Collapses whitespace runs in `text` to single spaces and trims both ends.
pub fn remove_exra_whitespaces(text: &str) -> (r: String)
    ensures
        r@ == norm(text@),
{
    let n = text.unicode_len();
    let mut out = String::new();
    let mut pend = false;
    let mut started = false;
    let mut i: usize = 0;
    proof {
        assert(text@.skip(0) =~= text@);
    }
    while i < n
        invariant
            n == text@.len(),
            i <= n,
            started == (out@.len() > 0),
            norm(text@) == norm_from(text@.skip(i as int), out@, pend),
        decreases n - i,
    {
        proof {
            assert(text@.skip(i as int).drop_first() =~= text@.skip(i as int + 1));
        }
        let c = text.get_char(i);
        if is_ws_char(c) {
            pend = true;
        } else {
            let piece = text.substring_char(i, i + 1);
            proof {
                assert(piece@ =~= seq![text@[i as int]]);
            }
            let ghost out0 = out@;
            if pend && started {
                out.append(" ");
                proof {
                    reveal_strlit(" ");
                }
                out.append(piece);
                proof {
                    assert(out@ =~= out0 + seq![' ', text@[i as int]]);
                }
            } else {
                out.append(piece);
                proof {
                    assert(out@ =~= out0.push(text@[i as int]));
                }
            }
            pend = false;
            started = true;
        }
        i = i + 1;
    }
    proof {
        assert(text@.skip(n as int) =~= Seq::<char>::empty());
    }
    out
}

/// A string in normal form but for a possible single leading space: every
/// whitespace character is a plain space, no two stand next to each other, and
/// none stands at the end.
pub open spec fn ws_canon(t: Seq<char>) -> bool {
    &&& forall|i: int| 0 <= i < t.len() ==> (is_ws(#[trigger] t[i]) ==> t[i] == ' ')
    &&& forall|i: int| 0 < i < t.len() ==> !(is_ws(t[i - 1]) && is_ws(#[trigger] t[i]))
    &&& (t.len() > 0 ==> !is_ws(t[t.len() - 1]))
}

/// `t` without a single leading whitespace character, if it has one.
pub open spec fn strip_lead(t: Seq<char>) -> Seq<char> {
    if t.len() > 0 && is_ws(t[0]) {
        t.drop_first()
    } else {
        t
    }
}

proof fn lemma_norm_from_canon(s: Seq<char>, acc: Seq<char>, pend: bool)
    requires
        ws_canon(acc),
        acc.len() > 0 ==> !is_ws(acc[0]),
    ensures
        ws_canon(norm_from(s, acc, pend)),
        norm_from(s, acc, pend).len() > 0 ==> !is_ws(norm_from(s, acc, pend)[0]),
    decreases s.len(),
{
    if s.len() == 0 {
    } else if is_ws(s[0]) {
        lemma_norm_from_canon(s.drop_first(), acc, true);
    } else if pend && acc.len() > 0 {
        let acc2 = acc + seq![' ', s[0]];
        assert(acc2[acc.len() as int] == ' ');
        assert(acc2[acc.len() as int + 1] == s[0]);
        assert forall|i: int| 0 <= i < acc2.len() && is_ws(#[trigger] acc2[i]) implies acc2[i]
            == ' ' by {
            if i < acc.len() {
                assert(acc2[i] == acc[i]);
            }
        }
        assert forall|i: int| 0 < i < acc2.len() implies !(is_ws(acc2[i - 1]) && is_ws(
            #[trigger] acc2[i],
        )) by {
            if i < acc.len() {
                assert(acc2[i - 1] == acc[i - 1] && acc2[i] == acc[i]);
            } else if i == acc.len() {
                assert(acc2[i - 1] == acc[acc.len() - 1]);
                assert(!is_ws(acc[acc.len() - 1]));
            }
        }
        lemma_norm_from_canon(s.drop_first(), acc2, false);
    } else {
        let acc2 = acc.push(s[0]);
        assert forall|i: int| 0 <= i < acc2.len() && is_ws(#[trigger] acc2[i]) implies acc2[i]
            == ' ' by {
            if i < acc.len() {
                assert(acc2[i] == acc[i]);
            }
        }
        assert forall|i: int| 0 < i < acc2.len() implies !(is_ws(acc2[i - 1]) && is_ws(
            #[trigger] acc2[i],
        )) by {
            if i < acc.len() {
                assert(acc2[i - 1] == acc[i - 1] && acc2[i] == acc[i]);
            } else {
                assert(acc2[i] == s[0]);
            }
        }
        lemma_norm_from_canon(s.drop_first(), acc2, false);
    }
}

proof fn lemma_norm_from_fix(t: Seq<char>, acc: Seq<char>, pend: bool)
    requires
        ws_canon(t),
    ensures
        norm_from(t, acc, pend) == if acc.len() > 0 && strip_lead(t).len() > 0 && (pend || (t.len()
            > 0 && is_ws(t[0]))) {
            acc + seq![' '] + strip_lead(t)
        } else {
            acc + strip_lead(t)
        },
    decreases t.len(),
{
    if t.len() == 0 {
        assert(acc + strip_lead(t) =~= acc);
    } else {
        let t1 = t.drop_first();
        assert forall|i: int| 0 <= i < t1.len() && is_ws(#[trigger] t1[i]) implies t1[i]
            == ' ' by {
            assert(t1[i] == t[i + 1]);
        }
        assert forall|i: int| 0 < i < t1.len() implies !(is_ws(t1[i - 1]) && is_ws(
            #[trigger] t1[i],
        )) by {
            assert(t1[i - 1] == t[i] && t1[i] == t[i + 1]);
        }
        assert(t1.len() > 0 ==> t1[t1.len() - 1] == t[t.len() - 1]);
        if is_ws(t[0]) {
            // at most one leading whitespace: t1 starts with non-whitespace
            if t1.len() > 0 {
                assert(t1[0] == t[1]);
                assert(!is_ws(t1[0]));
            }
            lemma_norm_from_fix(t1, acc, true);
            assert(strip_lead(t) == t1);
            assert(strip_lead(t1) == t1);
            if !(acc.len() > 0 && t1.len() > 0) {
                assert(acc + t1 =~= acc + strip_lead(t));
            }
        } else {
            let c = t[0];
            if pend && acc.len() > 0 {
                let acc2 = acc + seq![' ', c];
                lemma_norm_from_fix(t1, acc2, false);
                if t1.len() > 0 && is_ws(t1[0]) {
                    // the space inside t is kept: it reappears after c
                    assert(strip_lead(t1) == t1.drop_first());
                    assert(norm_from(t, acc, pend) == acc2 + seq![' '] + t1.drop_first());
                    assert(acc2 + seq![' '] + t1.drop_first() =~= acc + seq![' '] + t);
                } else {
                    assert(norm_from(t, acc, pend) == acc2 + t1);
                    assert(acc2 + t1 =~= acc + seq![' '] + t);
                }
                assert(strip_lead(t) == t);
            } else {
                let acc2 = acc.push(c);
                lemma_norm_from_fix(t1, acc2, false);
                if t1.len() > 0 && is_ws(t1[0]) {
                    assert(strip_lead(t1) == t1.drop_first());
                    assert(norm_from(t, acc, pend) == acc2 + seq![' '] + t1.drop_first());
                    assert(acc2 + seq![' '] + t1.drop_first() =~= acc + t);
                } else {
                    assert(norm_from(t, acc, pend) == acc2 + t1);
                    assert(acc2 + t1 =~= acc + t);
                }
                assert(strip_lead(t) == t);
            }
        }
    }
}

/// Normalization is idempotent: normalizing an already normalized string
/// changes nothing.
pub proof fn lemma_norm_idempotent(s: Seq<char>)
    ensures
        norm(norm(s)) == norm(s),
{
    lemma_norm_from_canon(s, Seq::empty(), false);
    lemma_norm_from_fix(norm(s), Seq::empty(), false);
    assert(strip_lead(norm(s)) == norm(s));
    assert(Seq::<char>::empty() + norm(s) =~= norm(s));
}

} // verus!
