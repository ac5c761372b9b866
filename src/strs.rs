//! Vectors of strings read as sets of character sequences.
use vstd::prelude::*;

verus! {

/// The set of the values held in a sequence of strings.
pub open spec fn strs_view(v: Seq<String>) -> Set<Seq<char>> {
    Set::new(|x: Seq<char>| exists|i: int| 0 <= i < v.len() && #[trigger] v[i]@ == x)
}

/// No value occurs twice.
pub open spec fn distinct_strs(v: Seq<String>) -> bool {
    forall|i: int, j: int| 0 <= i < v.len() && 0 <= j < v.len() && i != j ==> v[i]@ != v[j]@
}

pub proof fn lemma_strs_push(v: Seq<String>, s: String)
    ensures
        strs_view(v.push(s)) == strs_view(v).insert(s@),
{
    let w = v.push(s);
    assert forall|x: Seq<char>| strs_view(w).contains(x) <==> strs_view(v).insert(s@).contains(x) by {
        if strs_view(v).contains(x) {
            let i = choose|i: int| 0 <= i < v.len() && #[trigger] v[i]@ == x;
            assert(w[i]@ == x);
        }
        if x == s@ {
            assert(w[v.len() as int]@ == x);
        }
        if strs_view(w).contains(x) {
            let i = choose|i: int| 0 <= i < w.len() && #[trigger] w[i]@ == x;
            if i < v.len() {
                assert(v[i]@ == x);
            }
        }
    }
    assert(strs_view(w) =~= strs_view(v).insert(s@));
}

pub proof fn lemma_strs_empty(v: Seq<String>)
    requires
        v.len() == 0,
    ensures
        strs_view(v) == Set::<Seq<char>>::empty(),
{
    assert(strs_view(v) =~= Set::<Seq<char>>::empty());
}

/// Whether `v` holds the value `s`.
pub fn contains_str(v: &Vec<String>, s: &String) -> (r: bool)
    ensures
        r == strs_view(v@).contains(s@),
{
    let mut i: usize = 0;
    while i < v.len()
        invariant
            0 <= i <= v.len(),
            forall|k: int| 0 <= k < i ==> v@[k]@ != s@,
        decreases v.len() - i,
    {
        if v[i] == *s {
            assert(v@[i as int]@ == s@);
            return true;
        }
        i = i + 1;
    }
    proof {
        if strs_view(v@).contains(s@) {
            let k = choose|k: int| 0 <= k < v@.len() && #[trigger] v@[k]@ == s@;
            assert(v@[k]@ != s@);
        }
    }
    false
}

/// Appends `s` unless `v` holds it already.
pub fn push_unique(v: &mut Vec<String>, s: String)
    requires
        distinct_strs(old(v)@),
    ensures
        distinct_strs(final(v)@),
        strs_view(final(v)@) == strs_view(old(v)@).insert(s@),
        forall|k: int| 0 <= k < old(v)@.len() ==> final(v)@[k] == old(v)@[k],
        final(v)@.len() <= old(v)@.len() + 1,
{
    if contains_str(v, &s) {
        assert(strs_view(v@).insert(s@) =~= strs_view(v@));
    } else {
        proof {
            lemma_strs_push(v@, s);
            assert forall|k: int| 0 <= k < v@.len() implies v@[k]@ != s@ by {
                assert(strs_view(v@).contains(v@[k]@));
            }
        }
        v.push(s);
    }
}

} // verus!
