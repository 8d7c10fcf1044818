//! Store keys and aliases: every alias is stored under a fixed namespace
//! prefix, as `rustlinks/<alias>`.

use vstd::prelude::*;
use crate::strings::{contains_char, first_index_of, lemma_first_index_of};

verus! {

/// Prefix under which every alias lives in the remote store.
pub open spec fn namespace() -> Seq<char> {
    "rustlinks/"@
}

/// The store key for an alias: the namespace prefix followed by the alias.
pub fn alias_to_key(alias: &str) -> (r: String)
    ensures
        r@ == namespace() + alias@,
{
    let mut key = "rustlinks/".to_owned();
    key.append(alias);
    key
}

/// Everything after the first `/` of a store key: the alias.
pub open spec fn spec_key_to_alias(key: Seq<char>) -> Seq<char> {
    key.subrange(first_index_of(key, '/') + 1, key.len() as int)
}

/// Strips the namespace prefix (up to and including the first `/`) from a
/// store key, leaving the alias.
pub fn key_to_alias(key: &str) -> (r: String)
    requires
        contains_char(key@, '/'),
    ensures
        r@ == spec_key_to_alias(key@),
{
    let n = key.unicode_len();
    let mut i: usize = 0;
    while i < n && key.get_char(i) != '/'
        invariant
            n == key@.len(),
            i <= n,
            forall|j: int| 0 <= j < i ==> key@[j] != '/',
        decreases n - i,
    {
        i = i + 1;
    }
    assert(i < n) by {
        let w = choose|w: int| 0 <= w < key@.len() && key@[w] == '/';
        assert(i == n ==> key@[w] != '/');
    }
    proof {
        lemma_first_index_of(key@, '/', i as int);
    }
    key.substring_char(i + 1, n).to_owned()
}

/// A key built from an alias always maps back to that same alias: the
/// namespace prefix ends in the key's first `/`.
pub proof fn lemma_key_alias_round_trip(alias: Seq<char>)
    ensures
        spec_key_to_alias(namespace() + alias) == alias,
{
    reveal_strlit("rustlinks/");
    let key = namespace() + alias;
    assert(key[9] == '/');
    assert(forall|j: int| 0 <= j < 9 ==> key[j] != '/') by {
        assert(key[0] == 'r');
        assert(key[1] == 'u');
        assert(key[2] == 's');
        assert(key[3] == 't');
        assert(key[4] == 'l');
        assert(key[5] == 'i');
        assert(key[6] == 'n');
        assert(key[7] == 'k');
        assert(key[8] == 's');
    }
    lemma_first_index_of(key, '/', 9);
    assert(key.subrange(10, key.len() as int) =~= alias);
}

} // verus!
