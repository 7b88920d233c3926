//! Restricting a catalog to the keys of one dotted section.

use crate::catalog::{entries_describe, Catalog};
use crate::literal::same_chars;
use crate::text::{chars_of, subrange};
use vstd::prelude::*;

verus! {

/// `k` starts with `section` followed by a `.`.
pub open spec fn in_section(k: Seq<char>, section: Seq<char>) -> bool {
    k.len() > section.len() && k.take(section.len() as int) == section && k[section.len() as int]
        == '.'
}

/// `k` lies in the section, where one is given.
pub open spec fn in_scope(k: Seq<char>, section: Option<Seq<char>>) -> bool {
    match section {
        Some(s) => in_section(k, s),
        None => true,
    }
}

pub open spec fn opt_view(o: Option<&str>) -> Option<Seq<char>> {
    match o {
        Some(s) => Some(s@),
        None => None,
    }
}

/// The part of `m` whose keys lie in the section.
pub open spec fn scoped<V>(m: Map<Seq<char>, V>, section: Option<Seq<char>>) -> Map<Seq<char>, V> {
    Map::new(|k: Seq<char>| m.contains_key(k) && in_scope(k, section), |k: Seq<char>| m[k])
}

/// Whether `key` starts with `section` followed by a `.`.
pub fn key_in_section(key: &str, section: &str) -> (r: bool)
    ensures
        r == in_section(key@, section@),
{
    let k = chars_of(key);
    let s = chars_of(section);
    if k.len() <= s.len() {
        return false;
    }
    let head = subrange(&k, 0, s.len());
    same_chars(&head, &s) && k[s.len()] == '.'
}

/// The entries of `c` whose keys lie in the section; all of them where no
/// section is given.
pub fn retain_scope<V>(c: Catalog<V>, section: Option<&str>) -> (r: Catalog<V>)
    ensures
        r@ == scoped(c@, opt_view(section)),
{
    let ghost m = c@;
    let ghost sec = opt_view(section);
    let mut rest = c.into_entries();
    let ghost e0 = rest@;
    let n = rest.len();
    let mut r: Catalog<V> = Catalog::new();
    let mut i: usize = 0;
    assert(rest@ =~= e0.skip(0));
    while rest.len() > 0
        invariant
            entries_describe(e0, m),
            e0.len() == n,
            i + rest.len() == n,
            rest@ == e0.skip(i as int),
            sec == opt_view(section),
            forall|k: Seq<char>|
                #[trigger] r@.contains_key(k) == (in_scope(k, sec) && exists|j: int|
                    0 <= j < i && e0[j].0@ == k),
            forall|k: Seq<char>| #[trigger] r@.contains_key(k) ==> r@[k] == m[k],
        decreases rest.len(),
    {
        let (key, value) = rest.remove(0);
        assert(e0[i as int] == (key, value));
        assert(m.contains_key(key@) && m[key@] == value);
        let keep = match section {
            Some(s) => key_in_section(key.as_str(), s),
            None => true,
        };
        let ghost kk = key@;
        if keep {
            r.insert(key, value);
        }
        i = i + 1;
        assert forall|k: Seq<char>| #[trigger] r@.contains_key(k) == (in_scope(k, sec) && exists|j: int|
            0 <= j < i && e0[j].0@ == k) by {
            if k == kk {
                assert(e0[i - 1].0@ == k);
            } else if exists|j: int| 0 <= j < i && e0[j].0@ == k {
                let j = choose|j: int| 0 <= j < i && e0[j].0@ == k;
                assert(j < i - 1);
            }
        }
    }
    assert(r@ =~= scoped(m, sec));
    r
}

} // verus!
