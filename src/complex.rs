use vstd::prelude::*;
use vstd::seq_lib::seq_to_set_is_finite;
use vstd::set_lib::lemma_len_intersect;

use crate::ratio::Ratio;

verus! {

/// The views of a list of protein identifiers.
pub open spec fn names_of(v: Seq<String>) -> Seq<Seq<char>> {
    v.map_values(|s: String| s@)
}

/// The number of proteins that two complexes share.
pub open spec fn shared_spec(a: Set<Seq<char>>, b: Set<Seq<char>>) -> nat {
    a.intersect(b).len()
}

/// The overlap score of two complexes as (numerator, denominator, shared
/// count): the square of the shared count over the product of the sizes, and
/// `0 / 1` with nothing shared where either complex is empty.
pub open spec fn os_spec(a: Set<Seq<char>>, b: Set<Seq<char>>) -> (int, int, nat) {
    if a.len() == 0 || b.len() == 0 {
        (0, 1, 0)
    } else {
        let c = shared_spec(a, b);
        ((c * c) as int, (a.len() * b.len()) as int, c)
    }
}

/// `r` is the result of matching complexes with views `a` and `b`.
pub open spec fn is_os_of(r: (Ratio, usize), a: Set<Seq<char>>, b: Set<Seq<char>>) -> bool {
    &&& r.0.num == os_spec(a, b).0
    &&& r.0.den == os_spec(a, b).1
    &&& r.1 == os_spec(a, b).2
}

/// A protein complex: a set of protein identifiers.
#[derive(Debug)]
pub struct Complex {
    proteins: Vec<String>,
}

impl View for Complex {
    type V = Set<Seq<char>>;

    closed spec fn view(&self) -> Set<Seq<char>> {
        names_of(self.proteins@).to_set()
    }
}

impl Complex {
    /// The identifiers are held once each.
    #[verifier::type_invariant]
    spec fn distinct(&self) -> bool {
        names_of(self.proteins@).no_duplicates()
    }

    /// The set of identifiers is finite.
    pub proof fn lemma_finite(&self)
        ensures
            self@.finite(),
    {
        seq_to_set_is_finite(names_of(self.proteins@));
    }

    /// Builds a complex from identifiers; repeated identifiers count once.
    pub fn new(names: Vec<String>) -> (c: Complex)
        ensures
            c@ == names_of(names@).to_set(),
    {
        let mut proteins: Vec<String> = Vec::new();
        let mut i: usize = 0;
        while i < names.len()
            invariant
                i <= names.len(),
                names_of(proteins@).no_duplicates(),
                names_of(proteins@).to_set() == names_of(names@.take(i as int)).to_set(),
            decreases names.len() - i,
        {
            let name = &names[i];
            let known = contains_name(&proteins, name);
            proof {
                assert(names_of(names@.take(i + 1)) == names_of(names@.take(i as int)).push(name@));
                names_of(names@.take(i as int)).lemma_push_to_set_commute(name@);
            }
            if !known {
                let ghost before = proteins@;
                proteins.push(name.clone());
                proof {
                    assert(names_of(proteins@) == names_of(before).push(name@));
                    names_of(before).lemma_push_to_set_commute(name@);
                    assert(names_of(proteins@).no_duplicates()) by {
                        assert forall|x: int, y: int|
                            0 <= x < names_of(proteins@).len() && 0 <= y < names_of(proteins@).len() && x != y
                            implies names_of(proteins@)[x] != names_of(proteins@)[y] by {
                            if x == before.len() as int {
                                assert(names_of(before)[y] == names_of(proteins@)[y]);
                            } else if y == before.len() as int {
                                assert(names_of(before)[x] == names_of(proteins@)[x]);
                            }
                        }
                    }
                }
            } else {
                proof {
                    assert(names_of(proteins@).to_set().insert(name@) == names_of(proteins@).to_set());
                }
            }
            i = i + 1;
        }
        assert(names@.take(names@.len() as int) == names@);
        Complex { proteins }
    }

    /// Overlap score and shared count of two complexes.
    pub fn os(&self, other: &Self) -> (r: (Ratio, usize))
        ensures
            is_os_of(r, self@, other@),
    {
        proof {
            use_type_invariant(self);
            use_type_invariant(other);
            lemma_names_len(self.proteins@);
            lemma_names_len(other.proteins@);
        }
        if self.is_empty() || other.is_empty() {
            return (Ratio { num: 0, den: 1 }, 0);
        }
        let common = self.shared(other);
        let c = common as u128;
        let n = self.size() as u128;
        let m = other.size() as u128;
        proof {
            lemma_shared_bound(self@, other@);
            assert(c * c <= n * m) by (nonlinear_arith)
                requires c <= n, c <= m;
            assert(n * m <= u128::MAX) by (nonlinear_arith)
                requires n <= u64::MAX, m <= u64::MAX;
        }
        (Ratio { num: c * c, den: n * m }, common)
    }

    /// The number of identifiers that both complexes hold.
    fn shared(&self, other: &Self) -> (r: usize)
        ensures
            r == shared_spec(self@, other@),
    {
        proof {
            use_type_invariant(self);
        }
        let ghost s = names_of(self.proteins@);
        let mut count: usize = 0;
        let mut i: usize = 0;
        assert(s.take(0).to_set().intersect(other@) == Set::<Seq<char>>::empty());
        while i < self.proteins.len()
            invariant
                i <= self.proteins@.len(),
                s == names_of(self.proteins@),
                s.no_duplicates(),
                count <= i,
                count == s.take(i as int).to_set().intersect(other@).len(),
            decreases self.proteins.len() - i,
        {
            let name = &self.proteins[i];
            let ghost prev = s.take(i as int).to_set();
            proof {
                seq_to_set_is_finite(s.take(i as int));
                assert(s.take(i + 1) == s.take(i as int).push(name@));
                s.take(i as int).lemma_push_to_set_commute(name@);
                assert(!prev.contains(name@)) by {
                    if prev.contains(name@) {
                        let k = choose|k: int| 0 <= k < i && s.take(i as int)[k] == name@;
                        assert(s[k] == s[i as int]);
                    }
                }
            }
            if other.contains(name) {
                proof {
                    assert(prev.insert(name@).intersect(other@) == prev.intersect(other@).insert(name@));
                }
                count = count + 1;
            } else {
                proof {
                    assert(prev.insert(name@).intersect(other@) == prev.intersect(other@));
                }
            }
            i = i + 1;
        }
        assert(s.take(s.len() as int) == s);
        count
    }

    /// Whether the complex holds the identifier.
    fn contains(&self, name: &String) -> (r: bool)
        ensures
            r == self@.contains(name@),
    {
        contains_name(&self.proteins, name)
    }

    /// The number of proteins in the complex.
    pub fn size(&self) -> (r: usize)
        ensures
            r == self@.len(),
    {
        proof {
            use_type_invariant(self);
            lemma_names_len(self.proteins@);
        }
        self.proteins.len()
    }

    /// Whether the complex holds no protein.
    pub fn is_empty(&self) -> (r: bool)
        ensures
            r == (self@.len() == 0),
    {
        proof {
            use_type_invariant(self);
            lemma_names_len(self.proteins@);
        }
        self.proteins.len() == 0
    }
}

/// Linear search for an identifier by value.
pub(crate) fn contains_name(v: &Vec<String>, name: &String) -> (r: bool)
    ensures
        r == names_of(v@).to_set().contains(name@),
{
    let mut i: usize = 0;
    while i < v.len()
        invariant
            i <= v@.len(),
            forall|k: int| 0 <= k < i ==> v@[k]@ != name@,
        decreases v.len() - i,
    {
        if v[i] == *name {
            assert(names_of(v@)[i as int] == name@);
            return true;
        }
        i = i + 1;
    }
    proof {
        if names_of(v@).to_set().contains(name@) {
            let k = choose|k: int| 0 <= k < names_of(v@).len() && names_of(v@)[k] == name@;
            assert(v@[k]@ == name@);
        }
    }
    false
}

/// Distinct identifiers make a set of the same size.
proof fn lemma_names_len(v: Seq<String>)
    requires
        names_of(v).no_duplicates(),
    ensures
        names_of(v).to_set().finite(),
        names_of(v).to_set().len() == v.len(),
{
    seq_to_set_is_finite(names_of(v));
    names_of(v).unique_seq_to_set();
}

/// The shared count is at most either size.
pub proof fn lemma_shared_bound(a: Set<Seq<char>>, b: Set<Seq<char>>)
    requires
        a.finite(),
        b.finite(),
    ensures
        shared_spec(a, b) <= a.len(),
        shared_spec(a, b) <= b.len(),
{
    lemma_len_intersect(a, b);
    lemma_len_intersect(b, a);
    assert(b.intersect(a) == a.intersect(b));
}

/// A non-empty complex matched with itself scores one and shares all of its
/// proteins.
pub proof fn lemma_os_self(a: &Complex)
    requires
        a@.len() > 0,
    ensures
        os_spec(a@, a@).0 == os_spec(a@, a@).1,
        os_spec(a@, a@).1 > 0,
        os_spec(a@, a@).2 == a@.len(),
{
    assert(a@.intersect(a@) == a@);
    assert(a@.len() * a@.len() > 0) by (nonlinear_arith)
        requires a@.len() > 0;
}

/// Matching is symmetric: the score and the shared count do not depend on
/// the order of the two complexes.
pub proof fn lemma_os_symmetric(a: &Complex, b: &Complex)
    ensures
        os_spec(a@, b@) == os_spec(b@, a@),
{
    assert(a@.intersect(b@) == b@.intersect(a@));
    assert(a@.len() * b@.len() == b@.len() * a@.len()) by (nonlinear_arith);
}

/// Matching against an empty complex scores zero with nothing shared.
pub proof fn lemma_os_empty(a: &Complex, b: &Complex)
    requires
        a@.len() == 0 || b@.len() == 0,
    ensures
        os_spec(a@, b@) == (0int, 1int, 0nat),
{
}

/// The overlap score of two complexes lies in `[0, 1]`.
pub proof fn lemma_os_bounded(a: &Complex, b: &Complex)
    ensures
        0 <= os_spec(a@, b@).0 <= os_spec(a@, b@).1,
        os_spec(a@, b@).1 > 0,
{
    a.lemma_finite();
    b.lemma_finite();
    lemma_os_set_bounded(a@, b@);
}

/// The denominator of an overlap score is never zero.
pub proof fn lemma_os_den_positive(a: Set<Seq<char>>, b: Set<Seq<char>>)
    ensures
        os_spec(a, b).1 > 0,
{
    if a.len() > 0 && b.len() > 0 {
        assert(a.len() * b.len() > 0) by (nonlinear_arith)
            requires a.len() > 0, b.len() > 0;
    }
}

/// The overlap score of two finite sets lies in `[0, 1]`.
pub proof fn lemma_os_set_bounded(a: Set<Seq<char>>, b: Set<Seq<char>>)
    requires
        a.finite(),
        b.finite(),
    ensures
        0 <= os_spec(a, b).0 <= os_spec(a, b).1,
        os_spec(a, b).1 > 0,
        os_spec(a, b).2 <= a.len(),
        os_spec(a, b).2 <= b.len(),
{
    if a.len() > 0 && b.len() > 0 {
        lemma_shared_bound(a, b);
        let c = shared_spec(a, b);
        assert(0 <= c * c <= a.len() * b.len()) by (nonlinear_arith)
            requires c <= a.len(), c <= b.len();
        assert(a.len() * b.len() > 0) by (nonlinear_arith)
            requires a.len() > 0, b.len() > 0;
    }
}

} // verus!
