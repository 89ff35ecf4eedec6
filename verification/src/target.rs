//! Description of the compilation target: key/value pairs supplied by the
//! build environment, read-only to this library. The `target_family` entry is
//! the sole routing criterion of the dispatcher.

use vstd::prelude::*;
use vstd::string::StrSliceExecFns;

verus! {

/// Key/value description of the compilation target.
#[derive(Clone, Debug)]
pub struct TargetInfo {
    pub entries: Vec<(String, String)>,
}

/// The value bound to `key`: the first entry that carries it.
pub open spec fn spec_lookup(entries: Seq<(Seq<char>, Seq<char>)>, key: Seq<char>) -> Option<
    Seq<char>,
>
    decreases entries.len(),
{
    if entries.len() == 0 {
        None
    } else if entries[0].0 == key {
        Some(entries[0].1)
    } else {
        spec_lookup(entries.drop_first(), key)
    }
}

impl View for TargetInfo {
    type V = Seq<(Seq<char>, Seq<char>)>;

    open spec fn view(&self) -> Seq<(Seq<char>, Seq<char>)> {
        self.entries@.map_values(|e: (String, String)| (e.0@, e.1@))
    }
}

/// Whether two string slices hold the same characters.
pub fn str_eq(a: &str, b: &str) -> (r: bool)
    ensures
        r == (a@ == b@),
{
    let la = a.unicode_len();
    let lb = b.unicode_len();
    if la != lb {
        return false;
    }
    let mut i: usize = 0;
    while i < la
        invariant
            la == a@.len(),
            lb == b@.len(),
            la == lb,
            i <= la,
            forall|k: int| 0 <= k < i ==> a@[k] == b@[k],
        decreases la - i,
    {
        if a.get_char(i) != b.get_char(i) {
            return false;
        }
        i += 1;
    }
    proof {
        assert(a@ =~= b@);
    }
    true
}

impl TargetInfo {
    /// The descriptor names a target family.
    pub open spec fn has_family(&self) -> bool {
        spec_lookup(self@, "target_family"@) is Some
    }

    /// The descriptor's target family is "wasm": the sole criterion that
    /// routes an embedding request to the hand-built WASM path.
    pub open spec fn is_wasm(&self) -> bool {
        spec_lookup(self@, "target_family"@) == Some("wasm"@)
    }

    /// The value bound to `key`, if any.
    pub fn lookup<'a>(&'a self, key: &str) -> (r: Option<&'a String>)
        ensures
            match r {
                Some(v) => spec_lookup(self@, key@) == Some(v@),
                None => spec_lookup(self@, key@) is None,
            },
    {
        let n = self.entries.len();
        proof {
            assert(self@.skip(0) =~= self@);
        }
        let mut i: usize = 0;
        while i < n
            invariant
                n == self.entries.len(),
                i <= n,
                spec_lookup(self@.skip(i as int), key@) == spec_lookup(self@, key@),
            decreases n - i,
        {
            proof {
                assert(self@[i as int] == (self.entries@[i as int].0@, self.entries@[i as int].1@));
                assert(self@.skip(i as int)[0] == self@[i as int]);
            }
            if str_eq(self.entries[i].0.as_str(), key) {
                return Some(&self.entries[i].1);
            }
            proof {
                assert(self@.skip(i as int).drop_first() =~= self@.skip(i as int + 1));
            }
            i += 1;
        }
        proof {
            assert(self@.skip(n as int) =~= Seq::<(Seq<char>, Seq<char>)>::empty());
        }
        None
    }

    /// Whether the target family is "wasm".
    pub fn is_wasm_target(&self) -> (r: bool)
        ensures
            r == self.is_wasm(),
    {
        match self.lookup("target_family") {
            Some(v) => str_eq(v.as_str(), "wasm"),
            None => false,
        }
    }
}

} // verus!
