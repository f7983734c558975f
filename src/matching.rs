//! Wildcard matching of a topic against a pattern.
//!
//! In a pattern `*` stands for any run of characters (possibly empty), `?` for
//! exactly one character, and every other character for itself.

use vstd::prelude::*;

verus! {

broadcast use vstd::string::axiom_spec_iter;

/// Whether `topic` is matched by `pattern`, stated on the last character of
/// each: a trailing `*` either matches nothing or absorbs the topic's last
/// character; `?` or an equal character consumes one character of each.
pub open spec fn glob_match(topic: Seq<char>, pattern: Seq<char>) -> bool
    decreases topic.len() + pattern.len(),
{
    if pattern.len() == 0 {
        topic.len() == 0
    } else if pattern.last() == '*' {
        glob_match(topic, pattern.drop_last()) || (topic.len() > 0 && glob_match(
            topic.drop_last(),
            pattern,
        ))
    } else if topic.len() == 0 {
        false
    } else if pattern.last() == '?' || pattern.last() == topic.last() {
        glob_match(topic.drop_last(), pattern.drop_last())
    } else {
        false
    }
}

/// `pattern` holds neither `*` nor `?`.
pub open spec fn is_literal(pattern: Seq<char>) -> bool {
    forall|i: int| 0 <= i < pattern.len() ==> #[trigger] pattern[i] != '*' && pattern[i] != '?'
}

/// A pattern without wildcards matches itself and nothing else.
pub proof fn lemma_literal_matches_only_itself(topic: Seq<char>, pattern: Seq<char>)
    requires
        is_literal(pattern),
    ensures
        glob_match(topic, pattern) <==> topic == pattern,
    decreases pattern.len(),
{
    if pattern.len() == 0 {
        if topic.len() != 0 {
            assert(topic != pattern);
        }
        assert(topic.len() == 0 ==> topic =~= pattern);
    } else {
        let rest = pattern.drop_last();
        assert(pattern.last() == pattern[pattern.len() - 1]);
        assert(is_literal(rest)) by {
            assert forall|i: int| 0 <= i < rest.len() implies #[trigger] rest[i] != '*' && rest[i] != '?' by {
                assert(rest[i] == pattern[i]);
            }
        }
        if topic.len() > 0 {
            lemma_literal_matches_only_itself(topic.drop_last(), rest);
            if topic == pattern {
                assert(topic.drop_last() == rest);
            }
            if topic.drop_last() == rest && topic.last() == pattern.last() {
                assert forall|i: int| 0 <= i < topic.len() implies topic[i] == pattern[i] by {
                    if i < topic.len() - 1 {
                        assert(topic[i] == topic.drop_last()[i]);
                        assert(pattern[i] == rest[i]);
                    }
                }
                assert(topic =~= pattern);
            }
        } else {
            assert(topic != pattern);
        }
    }
}

/// The characters of `s`, in order.
fn chars_of(s: &str) -> (r: Vec<char>)
    ensures
        r@ == s@,
{
    let mut r: Vec<char> = Vec::new();
    for c in it: s.chars()
        invariant
            it.seq() == s@,
            r@ == it.seq().take(it.index() as int),
    {
        r.push(c);
    }
    r
}

/// Whether `topic` matches `pattern`, computed row by row over a table whose
/// cell `(i, j)` tells whether the first `i` characters of the topic match the
/// first `j` characters of the pattern. Only two rows are kept, so there is no
/// bound on the length of either string.
pub fn is_matching(topic: &str, pattern: &str) -> (r: bool)
    ensures
        r == glob_match(topic@, pattern@),
{
    let t = chars_of(topic);
    let p = chars_of(pattern);
    let m = p.len();

    // Row 0: only a leading run of `*` matches the empty topic prefix.
    let mut prev: Vec<bool> = Vec::new();
    prev.push(true);
    for j in 0..m
        invariant
            m == p@.len(),
            prev@.len() == j + 1,
            forall|k: int|
                0 <= k <= j ==> prev@[k] == glob_match(
                    Seq::<char>::empty(),
                    #[trigger] p@.take(k),
                ),
    {
        assert(p@.take(j + 1).drop_last() =~= p@.take(j as int));
        let cell = p[j] == '*' && prev[j];
        prev.push(cell);
    }

    assert(t@.take(0) =~= Seq::<char>::empty());
    for i in 0..t.len()
        invariant
            m == p@.len(),
            prev@.len() == m + 1,
            forall|k: int|
                0 <= k <= m ==> prev@[k] == glob_match(t@.take(i as int), #[trigger] p@.take(k)),
    {
        let tc = t[i];
        let mut cur: Vec<bool> = Vec::new();
        assert(p@.take(0) =~= Seq::<char>::empty());
        cur.push(false);
        for j in 0..m
            invariant
                m == p@.len(),
                0 <= i < t@.len(),
                tc == t@[i as int],
                prev@.len() == m + 1,
                forall|k: int|
                    0 <= k <= m ==> prev@[k] == glob_match(
                        t@.take(i as int),
                        #[trigger] p@.take(k),
                    ),
                cur@.len() == j + 1,
                forall|k: int|
                    0 <= k <= j ==> cur@[k] == glob_match(
                        t@.take(i + 1),
                        #[trigger] p@.take(k),
                    ),
        {
            let pc = p[j];
            assert(p@.take(j + 1).drop_last() =~= p@.take(j as int));
            assert(t@.take(i + 1).drop_last() =~= t@.take(i as int));
            let cell = if pc == '*' {
                prev[j + 1] || cur[j]
            } else if pc == '?' || pc == tc {
                prev[j]
            } else {
                false
            };
            cur.push(cell);
        }
        prev = cur;
    }
    assert(t@.take(t@.len() as int) =~= t@);
    assert(p@.take(m as int) =~= p@);
    prev[m]
}

} // verus!
