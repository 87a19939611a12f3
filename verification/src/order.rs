//! Ordering of the inbox queue.
//!
//! An inbox item is identified by its filename, held here as its bytes. The
//! queue's FIFO order is lexicographic byte order on those names: a drain
//! pass processes the items of one directory listing in that order, whatever
//! order the filesystem enumerated them in.

use vstd::multiset::Multiset;
use vstd::prelude::*;

verus! {

broadcast use
    vstd::seq_lib::group_to_multiset_ensures,
    vstd::multiset::group_multiset_axioms,
;

/// The names of a listing, as byte sequences.
pub open spec fn views(s: Seq<Vec<u8>>) -> Seq<Seq<u8>> {
    Seq::new(s.len(), |i: int| s[i]@)
}

/// Lexicographic order on names: `a` comes no later than `b`.
pub open spec fn lex_le(a: Seq<u8>, b: Seq<u8>) -> bool
    decreases a.len(),
{
    if a.len() == 0 {
        true
    } else if b.len() == 0 {
        false
    } else if a[0] < b[0] {
        true
    } else if a[0] > b[0] {
        false
    } else {
        lex_le(a.drop_first(), b.drop_first())
    }
}

/// The order is reflexive.
pub proof fn lemma_lex_le_refl(a: Seq<u8>)
    ensures
        lex_le(a, a),
    decreases a.len(),
{
    if a.len() > 0 {
        lemma_lex_le_refl(a.drop_first());
    }
}

/// The order is total: of any two names, one comes no later than the other.
pub proof fn lemma_lex_le_total(a: Seq<u8>, b: Seq<u8>)
    ensures
        lex_le(a, b) || lex_le(b, a),
    decreases a.len(),
{
    if a.len() > 0 && b.len() > 0 && a[0] == b[0] {
        lemma_lex_le_total(a.drop_first(), b.drop_first());
    }
}

/// The order is antisymmetric: two names that each come no later than the
/// other are the same name.
pub proof fn lemma_lex_le_antisym(a: Seq<u8>, b: Seq<u8>)
    requires
        lex_le(a, b),
        lex_le(b, a),
    ensures
        a == b,
    decreases a.len(),
{
    if a.len() == 0 {
        assert(b.len() == 0);
        assert(a =~= b);
    } else {
        assert(a[0] == b[0]);
        lemma_lex_le_antisym(a.drop_first(), b.drop_first());
        assert forall|i: int| 0 <= i < a.len() implies a[i] == b[i] by {
            if i > 0 {
                assert(a.drop_first()[i - 1] == b.drop_first()[i - 1]);
            }
        }
        assert(a =~= b);
    }
}

/// The order is transitive.
pub proof fn lemma_lex_le_trans(a: Seq<u8>, b: Seq<u8>, c: Seq<u8>)
    requires
        lex_le(a, b),
        lex_le(b, c),
    ensures
        lex_le(a, c),
    decreases a.len(),
{
    if a.len() > 0 && b.len() > 0 && c.len() > 0 && a[0] == b[0] && b[0] == c[0] {
        lemma_lex_le_trans(a.drop_first(), b.drop_first(), c.drop_first());
    }
}

/// Compares two names in lexicographic byte order.
pub fn lex_le_bytes(a: &Vec<u8>, b: &Vec<u8>) -> (r: bool)
    ensures
        r == lex_le(a@, b@),
{
    proof {
        assert(a@.skip(0) =~= a@);
        assert(b@.skip(0) =~= b@);
    }
    let mut i: usize = 0;
    while i < a.len() && i < b.len()
        invariant
            i <= a@.len(),
            i <= b@.len(),
            lex_le(a@, b@) == lex_le(a@.skip(i as int), b@.skip(i as int)),
        decreases a@.len() - i,
    {
        let x = a[i];
        let y = b[i];
        proof {
            assert(a@.skip(i as int)[0] == a@[i as int]);
            assert(b@.skip(i as int)[0] == b@[i as int]);
        }
        if x < y {
            return true;
        }
        if x > y {
            return false;
        }
        proof {
            assert(a@.skip(i as int).drop_first() =~= a@.skip(i + 1));
            assert(b@.skip(i as int).drop_first() =~= b@.skip(i + 1));
        }
        i = i + 1;
    }
    proof {
        if i == a@.len() {
            assert(a@.skip(i as int) =~= Seq::<u8>::empty());
        } else {
            assert(i == b@.len());
            assert(b@.skip(i as int) =~= Seq::<u8>::empty());
            assert(a@.skip(i as int).len() > 0);
        }
    }
    a.len() <= b.len()
}

/// A listing is sorted when every name comes no later than every name after
/// it.
pub open spec fn sorted(s: Seq<Seq<u8>>) -> bool {
    forall|i: int, j: int| 0 <= i <= j < s.len() ==> lex_le(s[i], s[j])
}

/// Returns the index of a least name of a non-empty listing.
fn min_index(names: &Vec<Vec<u8>>) -> (m: usize)
    requires
        names@.len() > 0,
    ensures
        m < names@.len(),
        forall|k: int| 0 <= k < names@.len() ==> lex_le(names@[m as int]@, names@[k]@),
{
    let mut m: usize = 0;
    let mut j: usize = 1;
    proof {
        lemma_lex_le_refl(names@[0]@);
    }
    while j < names.len()
        invariant
            m < j,
            j <= names@.len(),
            forall|k: int| 0 <= k < j ==> lex_le(names@[m as int]@, names@[k]@),
        decreases names@.len() - j,
    {
        if !lex_le_bytes(&names[m], &names[j]) {
            proof {
                let ghost old_m = m as int;
                lemma_lex_le_total(names@[old_m]@, names@[j as int]@);
                assert(lex_le(names@[j as int]@, names@[old_m]@));
                assert forall|k: int| 0 <= k < j + 1 implies lex_le(
                    names@[j as int]@,
                    names@[k]@,
                ) by {
                    if k < j {
                        lemma_lex_le_trans(names@[j as int]@, names@[old_m]@, names@[k]@);
                    } else {
                        lemma_lex_le_refl(names@[j as int]@);
                    }
                }
            }
            m = j;
        } else {
            proof {
                lemma_lex_le_refl(names@[j as int]@);
            }
        }
        j = j + 1;
    }
    m
}

/// Sorts a directory listing into the queue's processing order.
///
/// The result holds exactly the names that came in, arranged in lexicographic
/// order; together with `lemma_sorted_permutation_unique` this makes the
/// processing order independent of the order the filesystem enumerated the
/// names in.
pub fn sort_names(names: Vec<Vec<u8>>) -> (r: Vec<Vec<u8>>)
    ensures
        sorted(views(r@)),
        views(r@).to_multiset() == views(names@).to_multiset(),
{
    let ghost all = views(names@);
    let mut input = names;
    let mut out: Vec<Vec<u8>> = Vec::new();
    proof {
        assert(views(out@) =~= Seq::<Seq<u8>>::empty());
        assert(views(out@).to_multiset().add(views(input@).to_multiset()) =~= all.to_multiset());
    }
    while input.len() > 0
        invariant
            sorted(views(out@)),
            forall|i: int, j: int|
                0 <= i < out@.len() && 0 <= j < input@.len() ==> lex_le(out@[i]@, input@[j]@),
            views(out@).to_multiset().add(views(input@).to_multiset()) == all.to_multiset(),
        decreases input.len(),
    {
        let m = min_index(&input);
        let ghost old_input = views(input@);
        let ghost old_out = views(out@);
        let x = input.remove(m);
        out.push(x);
        proof {
            assert(views(input@) =~= old_input.remove(m as int));
            assert(views(out@) =~= old_out.push(x@));
            assert(x@ == old_input[m as int]);
            assert(views(out@).to_multiset() =~= old_out.to_multiset().insert(x@));
            assert(views(input@).to_multiset() =~= old_input.to_multiset().remove(x@));
            assert(views(out@).to_multiset().add(views(input@).to_multiset()) =~= all.to_multiset());
            lemma_lex_le_refl(x@);
            assert forall|i: int, j: int| 0 <= i <= j < out@.len() implies lex_le(
                views(out@)[i],
                views(out@)[j],
            ) by {
                if j < old_out.len() {
                    assert(lex_le(old_out[i], old_out[j]));
                } else if i < old_out.len() {
                    assert(lex_le(old_out[i], old_input[m as int]));
                }
            }
            assert forall|i: int, j: int|
                0 <= i < out@.len() && 0 <= j < input@.len() implies lex_le(
                out@[i]@,
                input@[j]@,
            ) by {
                let jo = if j < m { j } else { j + 1 };
                assert(input@[j]@ == old_input[jo]);
                if i < old_out.len() {
                    assert(lex_le(old_out[i], old_input[jo]));
                } else {
                    assert(lex_le(old_input[m as int], old_input[jo]));
                }
            }
        }
    }
    proof {
        assert(views(input@).to_multiset() =~= Multiset::<Seq<u8>>::empty());
        assert(views(out@).to_multiset() =~= all.to_multiset());
    }
    out
}

/// A multiset of names fits only one sorted arrangement: two sorted listings
/// of the same names are the same listing. Hence the processing order of a
/// drain pass is determined by which names were present, not by how the
/// filesystem happened to enumerate them.
pub proof fn lemma_sorted_permutation_unique(a: Seq<Seq<u8>>, b: Seq<Seq<u8>>)
    requires
        sorted(a),
        sorted(b),
        a.to_multiset() == b.to_multiset(),
    ensures
        a == b,
    decreases a.len(),
{
    a.to_multiset_ensures();
    b.to_multiset_ensures();
    if a.len() == 0 {
        assert(b.to_multiset().len() == 0);
        assert(a =~= b);
    } else {
        assert(b.len() > 0);
        assert(a.contains(a[0]));
        assert(a.to_multiset().count(a[0]) > 0);
        assert(b.to_multiset().count(a[0]) > 0);
        assert(b.contains(a[0]));
        assert(b.contains(b[0]));
        assert(b.to_multiset().count(b[0]) > 0);
        assert(a.to_multiset().count(b[0]) > 0);
        assert(a.contains(b[0]));
        let ia = choose|ia: int| 0 <= ia < b.len() && b[ia] == a[0];
        let ib = choose|ib: int| 0 <= ib < a.len() && a[ib] == b[0];
        assert(lex_le(b[0], b[ia]));
        assert(lex_le(a[0], a[ib]));
        lemma_lex_le_antisym(a[0], b[0]);
        assert(a.drop_first() =~= a.remove(0));
        assert(b.drop_first() =~= b.remove(0));
        assert(a.drop_first().to_multiset() =~= a.to_multiset().remove(a[0]));
        assert(b.drop_first().to_multiset() =~= b.to_multiset().remove(b[0]));
        assert(forall|i: int, j: int|
            0 <= i <= j < a.drop_first().len() ==> lex_le(a.drop_first()[i], a.drop_first()[j]));
        assert(forall|i: int, j: int|
            0 <= i <= j < b.drop_first().len() ==> lex_le(b.drop_first()[i], b.drop_first()[j]));
        lemma_sorted_permutation_unique(a.drop_first(), b.drop_first());
        assert forall|i: int| 0 <= i < a.len() implies a[i] == b[i] by {
            if i > 0 {
                assert(a.drop_first()[i - 1] == b.drop_first()[i - 1]);
            }
        }
        assert(a =~= b);
    }
}

} // verus!
