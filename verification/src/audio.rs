//! Audio kinds and the sound loader.
use crate::parse::slice_eq;
use vstd::prelude::*;
use vstd::string::StrSliceExecFns;

verus! {

/// How a sound is placed in the 3D mix.
#[derive(Clone, Copy, Debug, PartialEq, Eq, Structural)]
pub enum SoundType {
    Positional,
    Ambient,
    Music,
    Voice,
    UI,
}

/// Loads sounds from encoded bytes.
#[derive(Clone, Copy, Debug, PartialEq, Eq, Structural)]
pub struct AudioLoader;

impl AudioLoader {
    /// The loader.
    pub fn new() -> (r: Self)
        ensures
            r == AudioLoader,
    {
        AudioLoader
    }
}

/// Whether `name` starts with `prefix`.
pub open spec fn has_prefix(name: Seq<char>, prefix: Seq<char>) -> bool {
    prefix.len() <= name.len() && name.subrange(0, prefix.len() as int) == prefix
}

/// The names among `names` that start with `prefix`, in order: the sounds that
/// stopping `prefix` stops.
pub fn sounds_to_stop(names: &Vec<String>, prefix: &str) -> (r: Vec<String>)
    ensures
        r@.map_values(|s: String| s@) == names@.map_values(|s: String| s@).filter(|n: Seq<char>| has_prefix(n, prefix@)),
{
    let ghost all = names@.map_values(|s: String| s@);
    let n = prefix.unicode_len();
    let mut r: Vec<String> = Vec::new();
    let mut i: usize = 0;
    proof {
        assert(all.take(0).filter(|n: Seq<char>| has_prefix(n, prefix@)) =~= Seq::<Seq<char>>::empty());
        assert(r@.map_values(|s: String| s@) =~= Seq::<Seq<char>>::empty());
    }
    while i < names.len()
        invariant
            all == names@.map_values(|s: String| s@),
            n == prefix@.len(),
            i <= names@.len(),
            r@.map_values(|s: String| s@) == all.take(i as int).filter(|n: Seq<char>| has_prefix(n, prefix@)),
        decreases names@.len() - i,
    {
        let name = names[i].as_str();
        let len = name.unicode_len();
        let hit = n <= len && slice_eq(name, 0, n, prefix);
        proof {
            assert(all[i as int] == name@);
            assert(all.take(i as int + 1).drop_last() =~= all.take(i as int));
        }
        let ghost before = r@;
        if hit {
            r.push(names[i].clone());
            proof {
                assert(r@.map_values(|s: String| s@) =~= before.map_values(|s: String| s@).push(name@));
            }
        }
        proof {
            reveal(Seq::filter);
            assert(all.take(i as int + 1).filter(|n: Seq<char>| has_prefix(n, prefix@)) == if has_prefix(all.take(i as int + 1).last(), prefix@) {
                all.take(i as int).filter(|n: Seq<char>| has_prefix(n, prefix@)).push(all[i as int])
            } else {
                all.take(i as int).filter(|n: Seq<char>| has_prefix(n, prefix@))
            });
        }
        i = i + 1;
    }
    proof {
        assert(all.take(i as int) =~= all);
    }
    r
}

} // verus!
