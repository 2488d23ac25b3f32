//! Small path helpers shared by the dispatcher.

use vstd::prelude::*;

verus! {

use vstd::string::StrSliceExecFns;

/// The rest of `parent` after the prefix `key`: defined exactly when `key` is
/// a non-empty prefix of `parent`, character by character.
pub open spec fn spec_find_directory(key: Seq<char>, parent: Seq<char>) -> Option<Seq<char>> {
    if 1 <= key.len() <= parent.len() && parent.take(key.len() as int) == key {
        Some(parent.skip(key.len() as int))
    } else {
        None
    }
}

/// The part of `parent` left after removing the matched prefix `key`, grown
/// one character at a time; `None` when `key` is empty or not a prefix.
pub fn find_directory<'a, 'b>(key: &'b str, parent: &'a str) -> (r: Option<&'a str>)
    ensures
        match r {
            Some(rest) => spec_find_directory(key@, parent@) == Some(rest@),
            None => spec_find_directory(key@, parent@) is None,
        },
{
    let klen = key.unicode_len();
    let plen = parent.unicode_len();
    if klen == 0 || klen > plen {
        return None;
    }
    let mut i: usize = 0;
    while i < klen
        invariant
            0 < klen <= plen,
            i <= klen,
            klen == key@.len(),
            plen == parent@.len(),
            forall|j: int| 0 <= j < i ==> key@[j] == parent@[j],
        decreases klen - i,
    {
        if key.get_char(i) != parent.get_char(i) {
            proof {
                assert(parent@.take(klen as int)[i as int] != key@[i as int]);
            }
            return None;
        }
        i = i + 1;
    }
    proof {
        assert(parent@.take(klen as int) =~= key@);
    }
    Some(parent.substring_char(klen, plen))
}

} // verus!
