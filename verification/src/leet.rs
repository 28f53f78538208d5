//! Subsequence checks over strings, by characters and by bytes.
use vstd::prelude::*;
use vstd::string::StringSliceAdditionalSpecFns;
use vstd::std_specs::cmp::PartialEqSpec;
use vstd::std_specs::iter::IteratorSpec;

verus! {

/// `f` places the items of `a`, in order, at increasing positions of `b`
/// that hold them.
pub open spec fn embeds<T>(a: Seq<T>, b: Seq<T>, f: spec_fn(int) -> int) -> bool {
    &&& forall|i: int| 0 <= i < a.len() ==> 0 <= #[trigger] f(i) < b.len() && b[f(i)] == a[i]
    &&& forall|i: int, j: int| 0 <= i < j < a.len() ==> #[trigger] f(i) < #[trigger] f(j)
}

/// `a` can be obtained from `b` by deleting some of its items.
pub open spec fn is_subseq<T>(a: Seq<T>, b: Seq<T>) -> bool {
    exists|f: spec_fn(int) -> int| embeds(a, b, f)
}

/// Matching each item of `a` with the first fitting item of `b`.
spec fn greedy<T>(a: Seq<T>, b: Seq<T>) -> bool
    decreases b.len(),
{
    if a.len() == 0 {
        true
    } else if b.len() == 0 {
        false
    } else if a[0] == b[0] {
        greedy(a.drop_first(), b.drop_first())
    } else {
        greedy(a, b.drop_first())
    }
}

/// Matching greedily finds a subsequence exactly when there is one.
proof fn lemma_greedy<T>(a: Seq<T>, b: Seq<T>)
    ensures
        greedy(a, b) == is_subseq(a, b),
    decreases b.len(),
{
    if a.len() == 0 {
        let f = |i: int| i;
        assert(embeds(a, b, f));
    } else if b.len() == 0 {
        if is_subseq(a, b) {
            let f = choose|f: spec_fn(int) -> int| embeds(a, b, f);
            assert(0 <= f(0) < b.len());
        }
    } else if a[0] == b[0] {
        lemma_greedy(a.drop_first(), b.drop_first());
        if greedy(a, b) {
            let g = choose|g: spec_fn(int) -> int| embeds(a.drop_first(), b.drop_first(), g);
            let f = |i: int| if i == 0 { 0 } else { g(i - 1) + 1 };
            assert forall|i: int| 0 <= i < a.len() implies 0 <= #[trigger] f(i) < b.len() && b[f(i)] == a[i] by {
                if i > 0 {
                    assert(0 <= g(i - 1) < b.len() - 1);
                }
            }
            assert forall|i: int, j: int| 0 <= i < j < a.len() implies #[trigger] f(i) < #[trigger] f(j) by {
                if i > 0 {
                    assert(g(i - 1) < g(j - 1));
                } else {
                    assert(0 <= g(j - 1));
                }
            }
            assert(embeds(a, b, f));
        }
        if is_subseq(a, b) {
            let f = choose|f: spec_fn(int) -> int| embeds(a, b, f);
            let g = |i: int| f(i + 1) - 1;
            assert forall|i: int| 0 <= i < a.len() - 1 implies 0 <= #[trigger] g(i) < b.len() - 1
                && b.drop_first()[g(i)] == a.drop_first()[i] by {
                assert(f(0) < f(i + 1));
            }
            assert forall|i: int, j: int| 0 <= i < j < a.len() - 1 implies #[trigger] g(i) < #[trigger] g(j) by {
                assert(f(i + 1) < f(j + 1));
            }
            assert(embeds(a.drop_first(), b.drop_first(), g));
        }
    } else {
        lemma_greedy(a, b.drop_first());
        if greedy(a, b) {
            let g = choose|g: spec_fn(int) -> int| embeds(a, b.drop_first(), g);
            let f = |i: int| g(i) + 1;
            assert forall|i: int| 0 <= i < a.len() implies 0 <= #[trigger] f(i) < b.len() && b[f(i)] == a[i] by {
                assert(0 <= g(i) < b.len() - 1);
            }
            assert forall|i: int, j: int| 0 <= i < j < a.len() implies #[trigger] f(i) < #[trigger] f(j) by {
                assert(g(i) < g(j));
            }
            assert(embeds(a, b, f));
        }
        if is_subseq(a, b) {
            let f = choose|f: spec_fn(int) -> int| embeds(a, b, f);
            let g = |i: int| f(i) - 1;
            assert forall|i: int| 0 <= i < a.len() implies 0 <= #[trigger] g(i) < b.len() - 1
                && b.drop_first()[g(i)] == a[i] by {
                assert(f(0) != 0);
                if i > 0 {
                    assert(f(0) < f(i));
                }
            }
            assert forall|i: int, j: int| 0 <= i < j < a.len() implies #[trigger] g(i) < #[trigger] g(j) by {
                assert(f(i) < f(j));
            }
            assert(embeds(a, b.drop_first(), g));
        }
    }
}

/// Greedy matching of `a[i..]` against `b[j..]` after a match of `a[i]` at
/// `b[k]`, with no earlier match in `b[j..k]`, continues at `a[i + 1..]`
/// against `b[k + 1..]`.
proof fn lemma_greedy_skip<T>(a: Seq<T>, b: Seq<T>, j: int, k: int)
    requires
        0 <= j <= k <= b.len(),
        a.len() > 0,
        forall|m: int| j <= m < k ==> b[m] != a[0],
    ensures
        greedy(a, b.skip(j)) == greedy(a, b.skip(k)),
    decreases k - j,
{
    if j < k {
        assert(b.skip(j).drop_first() =~= b.skip(j + 1));
        lemma_greedy_skip(a, b, j + 1, k);
    }
}

/// The code points of the characters of a string, in order.
fn chars_of(s: &str) -> (v: Vec<u32>)
    ensures
        v@ == codes(s@),
{
    broadcast use vstd::string::axiom_spec_iter, vstd::string::next_postcondition;
    let mut it = s.chars();
    let mut v: Vec<u32> = Vec::new();
    let ghost done: Seq<char> = Seq::empty();
    loop
        invariant
            done + it.remaining() == s@,
            v@ == codes(done),
            it.decrease() is Some,
            it.obeys_prophetic_iter_laws(),
        ensures
            v@ == codes(s@),
        decreases it.decrease()->0,
    {
        match it.next() {
            Some(c) => {
                v.push(c as u32);
                proof {
                    assert(codes(done.push(c)) =~= codes(done).push(c as u32));
                    done = done.push(c);
                }
                assert(done + it.remaining() =~= s@);
            },
            None => {
                assert(done =~= s@);
                break;
            },
        }
    }
    v
}

/// The code point of each character.
pub open spec fn codes(s: Seq<char>) -> Seq<u32> {
    s.map_values(|c: char| c as u32)
}

/// Distinct characters have distinct code points, so subsequences of
/// characters are those of their code points.
proof fn lemma_codes_subseq(a: Seq<char>, b: Seq<char>)
    ensures
        is_subseq(codes(a), codes(b)) == is_subseq(a, b),
{
    if is_subseq(a, b) {
        let f = choose|f: spec_fn(int) -> int| embeds(a, b, f);
        assert(embeds(codes(a), codes(b), f));
    }
    if is_subseq(codes(a), codes(b)) {
        let f = choose|f: spec_fn(int) -> int| embeds(codes(a), codes(b), f);
        assert forall|i: int| 0 <= i < a.len() implies 0 <= #[trigger] f(i) < b.len() && b[f(i)] == a[i] by {
            assert(codes(b)[f(i)] == codes(a)[i]);
            vstd::utf8::char_u32_cast(a[i], a[i] as u32);
            vstd::utf8::char_u32_cast(b[f(i)], b[f(i)] as u32);
        }
        assert(embeds(a, b, f));
    }
}

/// Whether `a` is a subsequence of `b`, matching each item with the first
/// fitting one in what is left of `b`.
fn subseq_of<T: PartialEq + Copy>(a: &[T], b: &[T]) -> (r: bool)
    requires
        T::obeys_eq_spec(),
        forall|x: T, y: T| #[trigger] x.eq_spec(&y) <==> x == y,
    ensures
        r == is_subseq(a@, b@),
{
    let mut cur: usize = 0;
    let mut k: usize = 0;
    assert(a@.skip(0) =~= a@);
    assert(b@.skip(0) =~= b@);
    while k < a.len()
        invariant
            T::obeys_eq_spec(),
            forall|x: T, y: T| #[trigger] x.eq_spec(&y) <==> x == y,
            k <= a@.len(),
            cur <= b@.len(),
            greedy(a@.skip(k as int), b@.skip(cur as int)) == greedy(a@, b@),
        decreases a@.len() - k,
    {
        let e = a[k];
        let mut i: usize = cur;
        while i < b.len() && !(b[i] == e)
            invariant
                T::obeys_eq_spec(),
                forall|x: T, y: T| #[trigger] x.eq_spec(&y) <==> x == y,
                cur <= i <= b@.len(),
                e == a@[k as int],
                forall|m: int| cur <= m < i ==> b@[m] != e,
            decreases b@.len() - i,
        {
            i = i + 1;
        }
        proof {
            assert(a@.skip(k as int)[0] == e);
            lemma_greedy_skip(a@.skip(k as int), b@, cur as int, i as int);
        }
        if i == b.len() {
            proof {
                assert(b@.skip(i as int).len() == 0);
                lemma_greedy(a@, b@);
            }
            return false;
        }
        proof {
            assert(a@.skip(k as int).drop_first() =~= a@.skip(k + 1));
            assert(b@.skip(i as int).drop_first() =~= b@.skip(i + 1));
        }
        cur = i + 1;
        k = k + 1;
    }
    proof {
        assert(a@.skip(k as int).len() == 0);
        lemma_greedy(a@, b@);
    }
    true
}

/// No character of `s` but the last that is matched in `t` takes more than
/// one byte.
pub open spec fn matched_chars_single_byte(s: Seq<char>, t: Seq<char>) -> bool {
    forall|k: int| 0 <= k < s.len() - 1 && #[trigger] is_subseq(s.take(k + 1), t) ==> (s[k] as u32) < 128
}

/// Whether `s` is a subsequence of `t`, character by character.
pub fn is_subsequence_v1(s: &str, t: &str) -> (r: bool)
    requires
        matched_chars_single_byte(s@, t@),
    ensures
        r == is_subseq(s@, t@),
{
    let sc = chars_of(s);
    let tc = chars_of(t);
    proof {
        lemma_codes_subseq(s@, t@);
    }
    subseq_of(sc.as_slice(), tc.as_slice())
}

/// Whether `s` is a subsequence of `t`, byte by byte.
pub fn is_subsequence_v2(s: &str, t: &str) -> (r: bool)
    ensures
        r == is_subseq(s.spec_bytes(), t.spec_bytes()),
{
    subseq_of(s.as_bytes(), t.as_bytes())
}

/// How many of the words are byte subsequences of `s`.
pub open spec fn count_subseq(s: Seq<u8>, words: Seq<Seq<u8>>) -> int
    decreases words.len(),
{
    if words.len() == 0 {
        0
    } else {
        count_subseq(s, words.drop_last()) + if is_subseq(words.last(), s) { 1int } else { 0int }
    }
}

/// Counts the words that are subsequences of `s`.
pub fn num_matching_subseq(s: &str, words: &[&str]) -> (n: i32)
    requires
        words@.len() <= i32::MAX,
    ensures
        n == count_subseq(s.spec_bytes(), Seq::new(words@.len(), |k: int| words@[k].spec_bytes())),
{
    let ghost ws = Seq::new(words@.len(), |k: int| words@[k].spec_bytes());
    let mut count: i32 = 0;
    let mut k: usize = 0;
    while k < words.len()
        invariant
            k <= words@.len(),
            words@.len() <= i32::MAX,
            ws == Seq::new(words@.len(), |k: int| words@[k].spec_bytes()),
            count == count_subseq(s.spec_bytes(), ws.take(k as int)),
            0 <= count <= k,
        decreases words@.len() - k,
    {
        let matched = is_subsequence_v2(words[k], s);
        proof {
            assert(ws.take(k + 1).drop_last() =~= ws.take(k as int));
            assert(ws.take(k + 1).last() == words@[k as int].spec_bytes());
        }
        if matched {
            count = count + 1;
        }
        k = k + 1;
    }
    assert(ws.take(words@.len() as int) =~= ws);
    count
}

} // verus!
