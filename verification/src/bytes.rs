//! Byte strings: equality, prefixes and the order in which a store keeps its keys.

use vstd::prelude::*;

verus! {

/// `s` begins with `prefix`.
pub open spec fn has_prefix(s: Seq<u8>, prefix: Seq<u8>) -> bool {
    prefix.len() <= s.len() && s.subrange(0, prefix.len() as int) == prefix
}

/// `s` ends with `suffix`.
pub open spec fn has_suffix(s: Seq<u8>, suffix: Seq<u8>) -> bool {
    suffix.len() <= s.len() && s.subrange(s.len() - suffix.len(), s.len() as int) == suffix
}

/// `a` and `b` agree before position `i`, and there `a` ends or holds the smaller byte.
pub open spec fn smaller_at(a: Seq<u8>, b: Seq<u8>, i: int) -> bool {
    &&& 0 <= i <= a.len()
    &&& i < b.len()
    &&& forall|j: int| 0 <= j < i ==> a[j] == b[j]
    &&& i < a.len() ==> a[i] < b[i]
}

/// `a` comes before `b` in the order of byte strings.
pub open spec fn before(a: Seq<u8>, b: Seq<u8>) -> bool {
    exists|i: int| smaller_at(a, b, i)
}

/// How two byte strings stand to each other.
pub enum Placed {
    Before,
    Same,
    After,
}

pub proof fn lemma_before_irreflexive(a: Seq<u8>)
    ensures
        !before(a, a),
{
}

pub proof fn lemma_before_asymmetric(a: Seq<u8>, b: Seq<u8>)
    requires
        before(a, b),
    ensures
        !before(b, a),
        a != b,
{
    let i = choose|i: int| smaller_at(a, b, i);
    if before(b, a) {
        let j = choose|j: int| smaller_at(b, a, j);
        if i < j {
            assert(b[i] == a[i]);
        } else if j < i {
            assert(a[j] == b[j]);
        }
    }
}

pub proof fn lemma_before_transitive(a: Seq<u8>, b: Seq<u8>, c: Seq<u8>)
    requires
        before(a, b),
        before(b, c),
    ensures
        before(a, c),
{
    let i = choose|i: int| smaller_at(a, b, i);
    let j = choose|j: int| smaller_at(b, c, j);
    let k = if i <= j { i } else { j };
    assert forall|n: int| 0 <= n < k implies a[n] == c[n] by {
        assert(a[n] == b[n]);
        assert(b[n] == c[n]);
    }
    if i < j {
        assert(b[i] == c[i]);
    } else if j < i {
        assert(a[j] == b[j]);
    }
    assert(smaller_at(a, c, k));
}

/// Of two different strings one is before the other.
pub proof fn lemma_before_total(a: Seq<u8>, b: Seq<u8>)
    ensures
        a == b || before(a, b) || before(b, a),
{
    lemma_first_difference(a, b, 0);
}

proof fn lemma_first_difference(a: Seq<u8>, b: Seq<u8>, from: int)
    requires
        0 <= from <= a.len(),
        from <= b.len(),
        forall|j: int| 0 <= j < from ==> a[j] == b[j],
    ensures
        a == b || before(a, b) || before(b, a),
    decreases a.len() - from,
{
    if from == b.len() {
        if from == a.len() {
            assert(a =~= b);
        } else {
            assert(smaller_at(b, a, from));
        }
    } else if from == a.len() || a[from] < b[from] {
        assert(smaller_at(a, b, from));
    } else if b[from] < a[from] {
        assert(smaller_at(b, a, from));
    } else {
        lemma_first_difference(a, b, from + 1);
    }
}

/// A string is never before one of its prefixes.
pub proof fn lemma_prefix_not_after(s: Seq<u8>, prefix: Seq<u8>)
    requires
        has_prefix(s, prefix),
    ensures
        !before(s, prefix),
{
    assert forall|i: int| 0 <= i < prefix.len() implies s[i] == prefix[i] by {
        assert(s.subrange(0, prefix.len() as int)[i] == prefix[i]);
    }
}

/// Between a prefix and a string that has it lie only strings that have it.
pub proof fn lemma_prefix_interval(a: Seq<u8>, b: Seq<u8>, prefix: Seq<u8>)
    requires
        !before(a, prefix),
        before(a, b),
        has_prefix(b, prefix),
    ensures
        has_prefix(a, prefix),
{
    let i = choose|i: int| smaller_at(a, b, i);
    assert forall|n: int| 0 <= n < prefix.len() implies b[n] == prefix[n] by {
        assert(b.subrange(0, prefix.len() as int)[n] == prefix[n]);
    }
    if i < prefix.len() {
        assert(smaller_at(a, prefix, i));
    } else {
        assert(a.subrange(0, prefix.len() as int) =~= prefix);
    }
}

/// Tells whether `s` begins with `prefix`.
pub fn starts_with(s: &[u8], prefix: &[u8]) -> (r: bool)
    ensures
        r == has_prefix(s@, prefix@),
{
    if s.len() < prefix.len() {
        return false;
    }
    let mut i: usize = 0;
    while i < prefix.len()
        invariant
            i <= prefix@.len() <= s@.len(),
            forall|j: int| 0 <= j < i ==> s@[j] == prefix@[j],
        decreases prefix@.len() - i,
    {
        if s[i] != prefix[i] {
            assert(s@.subrange(0, prefix@.len() as int)[i as int] != prefix@[i as int]);
            return false;
        }
        i += 1;
    }
    assert(s@.subrange(0, prefix@.len() as int) =~= prefix@);
    true
}

/// Tells whether `s` ends with `suffix`.
pub fn ends_with(s: &[u8], suffix: &[u8]) -> (r: bool)
    ensures
        r == has_suffix(s@, suffix@),
{
    if s.len() < suffix.len() {
        return false;
    }
    let n: usize = s.len();
    let start: usize = n - suffix.len();
    let ghost end = s@.subrange(start as int, s@.len() as int);
    let mut i: usize = 0;
    while i < suffix.len()
        invariant
            i <= suffix@.len() <= s@.len(),
            n == s@.len(),
            start == n - suffix@.len(),
            end == s@.subrange(start as int, s@.len() as int),
            forall|j: int| 0 <= j < i ==> #[trigger] end[j] == suffix@[j],
        decreases suffix@.len() - i,
    {
        if s[start + i] != suffix[i] {
            assert(end[i as int] != suffix@[i as int]);
            return false;
        }
        assert(end[i as int] == suffix@[i as int]);
        i += 1;
    }
    assert(end =~= suffix@);
    true
}

/// Compares two byte strings, the first difference deciding.
pub fn place(a: &[u8], b: &[u8]) -> (r: Placed)
    ensures
        match r {
            Placed::Before => before(a@, b@),
            Placed::Same => a@ == b@,
            Placed::After => before(b@, a@),
        },
{
    let mut i: usize = 0;
    while i < a.len() && i < b.len()
        invariant
            i <= a@.len(),
            i <= b@.len(),
            forall|j: int| 0 <= j < i ==> a@[j] == b@[j],
        decreases a@.len() - i,
    {
        if a[i] < b[i] {
            assert(smaller_at(a@, b@, i as int));
            return Placed::Before;
        }
        if b[i] < a[i] {
            assert(smaller_at(b@, a@, i as int));
            return Placed::After;
        }
        i += 1;
    }
    if i < b.len() {
        assert(smaller_at(a@, b@, i as int));
        Placed::Before
    } else if i < a.len() {
        assert(smaller_at(b@, a@, i as int));
        Placed::After
    } else {
        assert(a@ =~= b@);
        Placed::Same
    }
}

} // verus!
