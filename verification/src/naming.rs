//! Collision resolution for stored names. A candidate name is derived from
//! the source path's file-name component (with a fixed fallback when there
//! is none). When the candidate is already taken in storage, alternatives
//! are probed by prefixing an increasing counter (`1_name`, `2_name`, ...),
//! and the first free one is chosen.

use vstd::prelude::*;
use crate::digits::{dec_digits, lemma_dec_digits_injective, lemma_dec_digits_val, push_dec};
use crate::strings::{chars_to_string, push_str_chars, str_eq};
use vstd::assert_by_contradiction;
use vstd::relations::injective_on;
use vstd::set_lib::{lemma_int_range, lemma_len_subset, lemma_map_size, set_int_range};

verus! {

/// The name values of a sequence of strings.
pub open spec fn names_of(ss: Seq<String>) -> Seq<Seq<char>> {
    ss.map_values(|s: String| s@)
}

/// The candidate stored name for a source file: its name component, or the
/// fixed fallback when the path has none.
pub open spec fn candidate_of(name: Option<Seq<char>>) -> Seq<char> {
    match name {
        Some(n) => n,
        None => "file.txt"@,
    }
}

/// The candidate name prefixed with a counter.
pub open spec fn prefixed(i: nat, cand: Seq<char>) -> Seq<char> {
    dec_digits(i) + seq!['_'] + cand
}

/// `i` is the smallest positive counter whose prefixed name is free.
pub open spec fn first_free(i: nat, cand: Seq<char>, names: Seq<Seq<char>>) -> bool {
    &&& 1 <= i
    &&& !names.contains(prefixed(i, cand))
    &&& forall|j: nat| 1 <= j < i ==> names.contains(#[trigger] prefixed(j, cand))
}

/// The name chosen for a candidate against the names already in storage:
/// the candidate itself when it is free, else its first free prefixed
/// variant.
pub open spec fn chosen_name(cand: Seq<char>, names: Seq<Seq<char>>) -> Seq<char> {
    if !names.contains(cand) {
        cand
    } else {
        prefixed(choose|i: nat| first_free(i, cand, names), cand)
    }
}

/// Distinct counters give distinct prefixed names.
pub proof fn lemma_prefixed_injective(a: nat, b: nat, cand: Seq<char>)
    requires
        prefixed(a, cand) == prefixed(b, cand),
    ensures
        a == b,
{
    lemma_dec_digits_val(a);
    lemma_dec_digits_val(b);
    let pa = prefixed(a, cand);
    let pb = prefixed(b, cand);
    let la = dec_digits(a).len() as int;
    assert(pa.len() == dec_digits(a).len() + 1 + cand.len());
    assert(pb.len() == dec_digits(b).len() + 1 + cand.len());
    assert(dec_digits(b).len() as int == la);
    assert(pa.take(la) =~= dec_digits(a));
    assert(pb.take(la) =~= dec_digits(b));
    lemma_dec_digits_injective(a, b);
}

/// Among the counters `1 ..= names.len() + 1`, at least one prefixed name
/// is free: there are more counters than stored names.
pub proof fn lemma_exists_free(cand: Seq<char>, names: Seq<Seq<char>>)
    ensures
        exists|i: nat|
            1 <= i <= names.len() + 1 && !names.contains(#[trigger] prefixed(i, cand)),
{
    let n = names.len() as int;
    assert_by_contradiction!(
        exists|i: nat| 1 <= i <= names.len() + 1 && !names.contains(#[trigger] prefixed(i, cand)),
        {
            let ints = set_int_range(1, n + 2);
            lemma_int_range(1, n + 2);
            let f = |k: int| prefixed(k as nat, cand);
            assert(injective_on(f, ints)) by {
                assert forall|k1: int, k2: int|
                    #![trigger f(k1), f(k2)]
                    ints.contains(k1) && ints.contains(k2) && f(k1) == f(k2) implies k1 == k2 by {
                    lemma_prefixed_injective(k1 as nat, k2 as nat, cand);
                }
            }
            let img = ints.map(f);
            lemma_map_size(ints, img, f);
            assert(img.subset_of(names.to_set())) by {
                assert forall|y: Seq<char>| img.contains(y) implies names.to_set().contains(
                    y,
                ) by {
                    let k = choose|k: int| ints.contains(k) && f(k) == y;
                    assert(1 <= k as nat <= names.len() + 1);
                    assert(names.contains(prefixed(k as nat, cand)));
                }
            }
            names.lemma_cardinality_of_set();
            broadcast use vstd::seq_lib::seq_to_set_is_finite;
            lemma_len_subset(img, names.to_set());
            assert(n + 1 <= n);
        }
    );
}

/// Two counters that are both first free are the same counter.
pub proof fn lemma_first_free_unique(a: nat, b: nat, cand: Seq<char>, names: Seq<Seq<char>>)
    requires
        first_free(a, cand, names),
        first_free(b, cand, names),
    ensures
        a == b,
{
    if a < b {
        assert(names.contains(prefixed(a, cand)));
    }
    if b < a {
        assert(names.contains(prefixed(b, cand)));
    }
}

/// Below any free counter there is a first free counter.
pub proof fn lemma_first_free_below(i0: nat, cand: Seq<char>, names: Seq<Seq<char>>)
    requires
        1 <= i0,
        !names.contains(prefixed(i0, cand)),
    ensures
        exists|f: nat| #[trigger] first_free(f, cand, names) && f <= i0,
    decreases i0,
{
    if forall|j: nat| 1 <= j < i0 ==> names.contains(#[trigger] prefixed(j, cand)) {
        assert(first_free(i0, cand, names));
    } else {
        let j = choose|j: nat| 1 <= j < i0 && !names.contains(#[trigger] prefixed(j, cand));
        lemma_first_free_below(j, cand, names);
        let f = choose|f: nat| #[trigger] first_free(f, cand, names) && f <= j;
        assert(first_free(f, cand, names) && f <= i0);
    }
}

/// Law: when the candidate name collides with a stored name, the chosen
/// name is the candidate prefixed with the smallest positive counter whose
/// prefixed variant is not itself stored.
pub proof fn lemma_chosen_name_smallest(cand: Seq<char>, names: Seq<Seq<char>>)
    requires
        names.contains(cand),
    ensures
        exists|i: nat|
            {
                &&& #[trigger] first_free(i, cand, names)
                &&& chosen_name(cand, names) == prefixed(i, cand)
            },
{
    lemma_exists_free(cand, names);
    let i0 = choose|i: nat|
        1 <= i <= names.len() + 1 && !names.contains(#[trigger] prefixed(i, cand));
    lemma_first_free_below(i0, cand, names);
    let f = choose|f: nat| #[trigger] first_free(f, cand, names) && f <= i0;
    let w = choose|i: nat| first_free(i, cand, names);
    assert(first_free(w, cand, names));
    assert(chosen_name(cand, names) == prefixed(w, cand));
}

/// The chosen name is never a name that is already stored.
pub proof fn lemma_chosen_free(cand: Seq<char>, names: Seq<Seq<char>>)
    ensures
        !names.contains(chosen_name(cand, names)),
{
    if names.contains(cand) {
        lemma_chosen_name_smallest(cand, names);
        let i = choose|i: nat|
            {
                &&& #[trigger] first_free(i, cand, names)
                &&& chosen_name(cand, names) == prefixed(i, cand)
            };
        assert(!names.contains(prefixed(i, cand)));
    }
}

/// Whether one of the strings holds exactly these characters.
pub fn contains_name(names: &Vec<String>, t: &str) -> (r: bool)
    ensures
        r == names_of(names@).contains(t@),
{
    let mut i: usize = 0;
    while i < names.len()
        invariant
            i <= names.len(),
            forall|k: int| 0 <= k < i ==> names@[k]@ != t@,
        decreases names.len() - i,
    {
        if str_eq(names[i].as_str(), t) {
            proof {
                assert(names_of(names@)[i as int] == t@);
            }
            return true;
        }
        i += 1;
    }
    proof {
        if names_of(names@).contains(t@) {
            let k = choose|k: int| 0 <= k < names_of(names@).len() && names_of(names@)[k] == t@;
            assert(names@[k]@ == t@);
        }
    }
    false
}

/// The stored name for a source file: the file-name component of its path
/// (or the fixed fallback when there is none), prefixed with the smallest
/// positive counter needed to avoid the names already in storage.
pub fn get_file_name(file_name: Option<&str>, existing: &Vec<String>) -> (r: String)
    requires
        existing.len() < usize::MAX,
    ensures
        r@ == chosen_name(
            candidate_of(
                match file_name {
                    Some(s) => Some(s@),
                    None => None,
                },
            ),
            names_of(existing@),
        ),
{
    let cand: String = match file_name {
        Some(s) => s.to_owned(),
        None => "file.txt".to_owned(),
    };
    let ghost candv = cand@;
    let ghost names = names_of(existing@);
    if !contains_name(existing, cand.as_str()) {
        return cand;
    }
    proof {
        lemma_exists_free(candv, names);
    }
    let ghost bound = choose|i: nat|
        1 <= i <= names.len() + 1 && !names.contains(#[trigger] prefixed(i, candv));
    let mut i: usize = 1;
    loop
        invariant
            1 <= i <= bound,
            bound <= names.len() + 1,
            names.len() < usize::MAX,
            !names.contains(prefixed(bound, candv)),
            names == names_of(existing@),
            candv == cand@,
            candv == candidate_of(
                match file_name {
                    Some(s) => Some(s@),
                    None => None,
                },
            ),
            names.contains(candv),
            forall|j: nat| 1 <= j < i ==> names.contains(#[trigger] prefixed(j, candv)),
        decreases bound - i,
    {
        let mut buf: Vec<char> = Vec::new();
        push_dec(i as u64, &mut buf);
        buf.push('_');
        push_str_chars(cand.as_str(), &mut buf);
        let pname = chars_to_string(&buf);
        proof {
            assert(pname@ =~= prefixed(i as nat, candv));
        }
        if !contains_name(existing, pname.as_str()) {
            proof {
                assert(first_free(i as nat, candv, names));
                let w = choose|w: nat| first_free(w, candv, names);
                lemma_first_free_unique(w, i as nat, candv, names);
                assert(chosen_name(candv, names) == prefixed(i as nat, candv));
            }
            return pname;
        }
        proof {
            assert(i as nat != bound);
        }
        i += 1;
    }
}

} // verus!
