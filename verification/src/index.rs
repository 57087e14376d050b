//! The index of a directory of specs: which commands it offers, and in which
//! files they are.
use vstd::prelude::*;

use crate::rank::source::base_at;
use crate::references::{is_safe, is_safe_path};
use crate::sorted::pair_texts;
use crate::text::{
    chars_of, ends_with, finishes_with, opt_text, replace, replaced_from, same, text_range,
};

verus! {

/// The key of a spec file below the directory of specs: its path without the
/// extension. Other files, and the index itself, have none.
pub open spec fn file_key(relative: Seq<char>) -> Option<Seq<char>> {
    let name = relative.skip(base_at(relative, relative.len() as int));
    if name == "index.json"@ || !finishes_with(name, ".json"@) {
        None
    } else {
        let stem = if name == ".json"@ {
            relative
        } else {
            relative.take(relative.len() - 5)
        };
        let key = replaced_from(stem, "\\"@, "/"@, 0);
        if key.len() == 0 || key == "index"@ {
            None
        } else {
            Some(key)
        }
    }
}

/// Computes [`file_key`].
pub fn index_key(relative: &str) -> (key: Option<String>)
    ensures
        opt_text(key) == file_key(relative@),
{
    let s = chars_of(relative);
    let n = s.len();
    let mut at: usize = n;
    while at > 0 && s[at - 1] != '/'
        invariant
            at <= n,
            n == s@.len(),
            base_at(s@, n as int) == base_at(s@, at as int),
        decreases at,
    {
        at -= 1;
    }
    let name = text_range(&s, at, n);
    proof {
        assert(name@ =~= s@.skip(at as int));
        reveal_strlit("\\");
        reveal_strlit(".json");
    }
    if same(&name, "index.json") || !ends_with(&name, ".json") {
        return None;
    }
    let stem = if same(&name, ".json") {
        relative.to_owned()
    } else {
        text_range(&s, 0, n - 5)
    };
    proof {
        if name@ != ".json"@ {
            assert(stem@ =~= s@.take(n - 5));
        }
    }
    let key = replace(&stem, "\\", "/");
    if key.as_str().is_empty() || same(&key, "index") {
        None
    } else {
        Some(key)
    }
}

/// What an index file holds.
#[derive(Debug, Default, PartialEq, Eq)]
pub struct IrIndex {
    /// The files of commands, by name; absent where the index has no such map.
    pub files: Option<Vec<(String, String)>>,
}

/// The commands of a map of files with their paths below the directory of
/// specs. Entries without a name, and paths that leave the directory, are left
/// out.
pub open spec fn mapped_files(members: Seq<(Seq<char>, Seq<char>)>) -> Seq<(Seq<char>, Seq<char>)>
    decreases members.len(),
{
    if members.len() == 0 {
        Seq::empty()
    } else {
        let earlier = mapped_files(members.drop_last());
        let (name, path) = members.last();
        if name.len() > 0 && is_safe(path) {
            earlier.push((name, path))
        } else {
            earlier
        }
    }
}

/// What the pairs of a map hold.
pub open spec fn opt_pairs(list: Option<Vec<(String, String)>>) -> Option<
    Seq<(Seq<char>, Seq<char>)>,
> {
    match list {
        Some(list) => Some(pair_texts(list@)),
        None => None,
    }
}

/// The commands of an index with their paths below the directory of specs. A map
/// that is there counts, even where all its entries are left out: other files
/// are then private.
pub fn read_index(index: &IrIndex) -> (files: Option<Vec<(String, String)>>)
    ensures
        opt_pairs(files) == match opt_pairs(index.files) {
            Some(members) => Some(mapped_files(members)),
            None => None,
        },
{
    let members = match &index.files {
        Some(members) => members,
        None => {
            return None;
        },
    };
    let ghost all = pair_texts(members@);
    let mut out: Vec<(String, String)> = Vec::new();
    let mut i: usize = 0;
    proof {
        assert(pair_texts(out@) =~= mapped_files(all.take(0)));
    }
    while i < members.len()
        invariant
            i <= members@.len(),
            all == pair_texts(members@),
            pair_texts(out@) == mapped_files(all.take(i as int)),
        decreases members@.len() - i,
    {
        proof {
            assert(all.take(i + 1).drop_last() =~= all.take(i as int));
            assert(all.take(i + 1).last() == (members@[i as int].0@, members@[i as int].1@));
        }
        let (name, path) = &members[i];
        if !name.as_str().is_empty() && is_safe_path(path) {
            let ghost had = out@;
            out.push((name.clone(), path.clone()));
            proof {
                assert(pair_texts(out@) =~= pair_texts(had).push((name@, path@)));
            }
        }
        i += 1;
    }
    proof {
        assert(all.take(all.len() as int) =~= all);
    }
    Some(out)
}

/// Every file of a map is below the directory of specs.
pub proof fn law_mapped_files_stay_inside(members: Seq<(Seq<char>, Seq<char>)>)
    ensures
        forall|i: int|
            0 <= i < mapped_files(members).len() ==> {
                let (name, path) = #[trigger] mapped_files(members)[i];
                name.len() > 0 && is_safe(path)
            },
    decreases members.len(),
{
    if members.len() > 0 {
        law_mapped_files_stay_inside(members.drop_last());
        let earlier = mapped_files(members.drop_last());
        let all = mapped_files(members);
        assert forall|i: int| 0 <= i < all.len() implies {
            let (name, path) = #[trigger] all[i];
            name.len() > 0 && is_safe(path)
        } by {
            if i < earlier.len() {
                assert(all[i] == earlier[i]);
            }
        }
    }
}

} // verus!
