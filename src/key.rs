//! Cache keys: a cache name followed by the textual form of each argument.

use vstd::prelude::*;

verus! {

/// The model of a key: the characters of each segment, in order.
pub open spec fn key_view(key: Seq<String>) -> Seq<Seq<char>> {
    key.map_values(|s: String| s@)
}

/// Builds the key `[name] ++ args`.
pub fn cache_key(name: &str, args: &Vec<String>) -> (r: Vec<String>)
    ensures
        key_view(r@) == seq![name@] + key_view(args@),
        r@.len() == args@.len() + 1,
{
    let mut r: Vec<String> = Vec::new();
    r.push(name.to_owned());
    let mut i: usize = 0;
    while i < args.len()
        invariant
            0 <= i <= args@.len(),
            r@.len() == i + 1,
            key_view(r@) == seq![name@] + key_view(args@.subrange(0, i as int)),
        decreases args@.len() - i,
    {
        let ghost prev = r@;
        r.push(args[i].clone());
        assert(key_view(r@) =~= key_view(prev).push(args@[i as int]@));
        assert(args@.subrange(0, i + 1) =~= args@.subrange(0, i as int).push(args@[i as int]));
        assert(key_view(args@.subrange(0, i + 1)) =~= key_view(args@.subrange(0, i as int)).push(
            args@[i as int]@,
        ));
        i += 1;
    }
    assert(args@.subrange(0, i as int) =~= args@);
    r
}

} // verus!
