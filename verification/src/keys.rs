//! Ordering of the string-keyed records of the COMPAS 2.x mesh schema.
use vstd::hash_map::StringHashMap;
use vstd::prelude::*;

verus! {

pub open spec fn is_decimal_digit(c: char) -> bool {
    '0' <= c && c <= '9'
}

/// Value of a string of decimal digits.
pub open spec fn digits_value(digits: Seq<char>) -> int
    decreases digits.len(),
{
    if digits.len() == 0 {
        0
    } else {
        digits_value(digits.drop_last()) * 10 + (digits.last() as int - '0' as int)
    }
}

/// The digits that `str::parse::<usize>` reads: everything after one optional leading `+`.
pub open spec fn unsigned_digits(s: Seq<char>) -> Seq<char> {
    if s.len() > 0 && s[0] == '+' {
        s.drop_first()
    } else {
        s
    }
}

/// The index that a key spells, as `str::parse::<usize>` reads it: an optional `+`, then one or
/// more decimal digits whose value fits in `usize`.
pub open spec fn parsed_index(s: Seq<char>) -> Option<usize> {
    let digits = unsigned_digits(s);
    if digits.len() > 0 && (forall|i: int| 0 <= i < digits.len() ==> is_decimal_digit(
        #[trigger] digits[i],
    )) && digits_value(digits) <= usize::MAX {
        Some(digits_value(digits) as usize)
    } else {
        None
    }
}

/// The decimal spelling of a number, without leading zeros.
pub open spec fn decimal_string(n: nat) -> Seq<char>
    decreases n,
{
    if n < 10 {
        seq![(n + '0' as nat) as char]
    } else {
        decimal_string(n / 10).push(((n % 10) + '0' as nat) as char)
    }
}

/// The indices that the keys spell, in key order; keys that spell no index are skipped.
pub open spec fn parsed_keys(keys: Seq<Seq<char>>) -> Seq<usize>
    decreases keys.len(),
{
    if keys.len() == 0 {
        Seq::empty()
    } else {
        match parsed_index(keys.last()) {
            Some(v) => parsed_keys(keys.drop_last()).push(v),
            None => parsed_keys(keys.drop_last()),
        }
    }
}

pub open spec fn sorted(s: Seq<usize>) -> bool {
    forall|i: int, j: int| 0 <= i <= j < s.len() ==> s[i] <= s[j]
}

/// The lookups made for the indices `indices` taken in order: the spelling of each index that is
/// itself one of the keys.
pub open spec fn lookups_for(indices: Seq<usize>, keys: Seq<Seq<char>>) -> Seq<Seq<char>>
    decreases indices.len(),
{
    if indices.len() == 0 {
        Seq::empty()
    } else {
        let rest = lookups_for(indices.drop_last(), keys);
        let name = decimal_string(indices.last() as nat);
        if keys.contains(name) {
            rest.push(name)
        } else {
            rest
        }
    }
}

/// `lookups` lists, in increasing order of the indices that the keys spell, the canonical
/// spelling of each such index that is itself a key.
pub open spec fn ordered_lookups(keys: Seq<Seq<char>>, lookups: Seq<Seq<char>>) -> bool {
    exists|order: Seq<usize>|
        #[trigger] sorted(order) && order.to_multiset() == parsed_keys(keys).to_multiset()
            && lookups == lookups_for(order, keys)
}

pub open spec fn key_views(keys: Seq<String>) -> Seq<Seq<char>> {
    keys.map_values(|k: String| k@)
}

/// Reads a key as an index with `str::parse::<usize>`.
/// Trusted claim: the standard parser accepts exactly an optional `+` followed by one or more
/// ASCII decimal digits whose value fits in `usize`, and returns that value.
#[verifier::external_body]
fn parse_index(key: &str) -> (index: Option<usize>)
    ensures
        index == parsed_index(key@),
{
    key.parse::<usize>().ok()
}

/// Spells an index with `ToString::to_string` for `usize`.
/// Trusted claim: the result is the decimal representation without leading zeros.
#[verifier::external_body]
fn index_to_string(index: usize) -> (name: String)
    ensures
        name@ == decimal_string(index as nat),
{
    index.to_string()
}

/// Sorts indices with `slice::sort_unstable`.
/// Trusted claim: the result holds the same indices, in non-decreasing order.
#[verifier::external_body]
fn sort_indices(indices: &mut Vec<usize>)
    ensures
        final(indices)@.to_multiset() == old(indices)@.to_multiset(),
        sorted(final(indices)@),
{
    indices.sort_unstable();
}

/// The keys of a record under which entries are read, in the order in which they are read: the
/// keys are read as indices, the indices sorted, and each index spelled out again; an index whose
/// spelling is not itself a key (such as the index of `"07"`) is skipped.
pub fn ordered_record_keys(keys: &[String]) -> (lookups: Vec<String>)
    ensures
        ordered_lookups(key_views(keys@), lookups@.map_values(|k: String| k@)),
        forall|i: int| 0 <= i < lookups@.len() ==> key_views(keys@).contains(#[trigger] lookups@[i]@),
{
    let ghost kv = key_views(keys@);
    let mut indices: Vec<usize> = Vec::new();
    let mut present: StringHashMap<bool> = StringHashMap::new();
    for i in 0..keys.len()
        invariant
            kv == key_views(keys@),
            indices@ == parsed_keys(kv.take(i as int)),
            forall|name: Seq<char>| #[trigger] present@.contains_key(name) <==> kv.take(i as int).contains(name),
    {
        let key = &keys[i];
        proof {
            assert(kv.take(i + 1).drop_last() =~= kv.take(i as int));
            assert(kv.take(i + 1).last() == key@);
        }
        match parse_index(key.as_str()) {
            Some(v) => indices.push(v),
            None => {},
        }
        present.insert(key.clone(), true);
        proof {
            assert forall|name: Seq<char>| #[trigger] present@.contains_key(name) <==> kv.take(
                i + 1,
            ).contains(name) by {
                crate::edges::lemma_push_contains(kv.take(i as int), key@, name);
                assert(kv.take(i + 1) =~= kv.take(i as int).push(key@));
            }
        }
    }
    proof {
        assert(kv.take(kv.len() as int) =~= kv);
    }
    let ghost unsorted = indices@;
    sort_indices(&mut indices);
    let mut lookups: Vec<String> = Vec::new();
    for j in 0..indices.len()
        invariant
            kv == key_views(keys@),
            forall|name: Seq<char>| #[trigger] present@.contains_key(name) <==> kv.contains(name),
            lookups@.map_values(|k: String| k@) == lookups_for(indices@.take(j as int), kv),
            forall|i: int| 0 <= i < lookups@.len() ==> kv.contains(#[trigger] lookups@[i]@),
    {
        let name = index_to_string(indices[j]);
        proof {
            assert(indices@.take(j + 1).drop_last() =~= indices@.take(j as int));
            assert(indices@.take(j + 1).last() == indices@[j as int]);
        }
        if present.contains_key(name.as_str()) {
            lookups.push(name);
            assert(lookups@.map_values(|k: String| k@) =~= lookups_for(indices@.take(j + 1), kv));
        } else {
            assert(lookups@.map_values(|k: String| k@) =~= lookups_for(indices@.take(j + 1), kv));
        }
    }
    proof {
        assert(indices@.take(indices@.len() as int) =~= indices@);
        assert(sorted(indices@));
    }
    lookups
}

} // verus!
