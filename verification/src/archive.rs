use vstd::prelude::*;

verus! {

/// No character of `s` from index `from` on is a `/`.
pub open spec fn slash_free_from(s: Seq<char>, from: int) -> bool {
    forall|k: int| from <= k < s.len() ==> s[k] != '/'
}

/// `i` is the index of the last `/` of `s`.
pub open spec fn last_slash_at(s: Seq<char>, i: int) -> bool {
    0 <= i < s.len() && s[i] == '/' && slash_free_from(s, i + 1)
}

/// The file name of an archive entry: the part of its path after the last
/// `/`, or `None` for a directory entry (whose path ends with `/`). The path
/// must hold a `/`.
pub fn entry_file_name(path: &str) -> (r: Option<String>)
    requires
        path@.contains('/'),
    ensures
        exists|i: int|
            last_slash_at(path@, i) && (match r {
                None => i == path@.len() - 1,
                Some(name) => i < path@.len() - 1 && name@ == path@.subrange(i + 1, path@.len() as int),
            }),
{
    let n = path.unicode_len();
    let mut i: usize = n;
    loop
        invariant
            0 < i <= n,
            n == path@.len(),
            exists|k: int| 0 <= k < i && path@[k] == '/',
            slash_free_from(path@, i as int),
        decreases i,
    {
        if path.get_char(i - 1) == '/' {
            let cut = i - 1;
            assert(last_slash_at(path@, cut as int));
            if cut + 1 == n {
                return None;
            }
            let rest = path.substring_char(cut + 1, n);
            return Some(String::from_str(rest));
        }
        i = i - 1;
    }
}

} // verus!
