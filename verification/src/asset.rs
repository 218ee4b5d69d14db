//! Asset ids (pictures, sounds) shipped with a package, and the one gate from
//! an id to a path: ids are strictly sanitized so that nothing outside the
//! package can be reached.
use vstd::prelude::*;

verus! {

/// The kind of an asset: a sub-folder of the package.
#[derive(Clone, Copy, PartialEq, Eq, Structural, Debug)]
pub enum AssetKind {
    Images,
    Audios,
}

impl AssetKind {
    pub open spec fn dir_spec(self) -> Seq<char> {
        match self {
            AssetKind::Images => "images"@,
            AssetKind::Audios => "audios"@,
        }
    }

    /// The sub-folder of the package holding this kind.
    pub fn dir(self) -> (r: &'static str)
        ensures
            r@ == self.dir_spec(),
    {
        match self {
            AssetKind::Images => "images",
            AssetKind::Audios => "audios",
        }
    }
}

/// A character allowed in an asset id: ASCII letters and digits, `.`, `_`, `-`.
pub open spec fn id_char(c: char) -> bool {
    ('a' <= c && c <= 'z') || ('A' <= c && c <= 'Z') || ('0' <= c && c <= '9') || c == '.' || c == '_' || c == '-'
}

/// A safe asset id: 1 to 64 allowed characters, and neither `.` nor `..`.
/// With no `/` allowed, an id is always one path component.
pub open spec fn valid_asset_id(id: Seq<char>) -> bool {
    &&& 1 <= id.len() <= 64
    &&& forall|i: int| 0 <= i < id.len() ==> id_char(#[trigger] id[i])
    &&& id != seq!['.']
    &&& id != seq!['.', '.']
}

pub fn is_valid_asset_id(id: &str) -> (b: bool)
    ensures
        b == valid_asset_id(id@),
{
    let n = id.unicode_len();
    if n < 1 || n > 64 {
        return false;
    }
    let mut i: usize = 0;
    while i < n
        invariant
            n == id@.len(),
            i <= n,
            forall|j: int| 0 <= j < i ==> id_char(#[trigger] id@[j]),
        decreases n - i,
    {
        let c = id.get_char(i);
        let ok = ('a' <= c && c <= 'z') || ('A' <= c && c <= 'Z') || ('0' <= c && c <= '9') || c == '.' || c
            == '_' || c == '-';
        if !ok {
            return false;
        }
        i = i + 1;
    }
    if n == 1 && id.get_char(0) == '.' {
        assert(id@ =~= seq!['.']);
        return false;
    }
    if n == 2 && id.get_char(0) == '.' && id.get_char(1) == '.' {
        assert(id@ =~= seq!['.', '.']);
        return false;
    }
    assert(id@ != seq!['.']) by {
        if id@ =~= seq!['.'] {
            assert(id@[0] == '.');
        }
    }
    assert(id@ != seq!['.', '.']) by {
        if id@ =~= seq!['.', '.'] {
            assert(id@[0] == '.' && id@[1] == '.');
        }
    }
    true
}

} // verus!
