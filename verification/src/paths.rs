//! The directories that a test belongs to.
//!
//! A test's identifier is a path, which a query or a fragment may follow.
//! Each `/` of the path ends the name of a directory that holds the test.

use vstd::prelude::*;
use vstd::string::*;
use vstd::utf8::*;

verus! {

/// The byte `/`, which parts the directories of a path.
pub const SLASH: u8 = 0x2f;

/// The byte `?`, which starts a query.
pub const QUERY: u8 = 0x3f;

/// The byte `#`, which starts a fragment.
pub const FRAGMENT: u8 = 0x23;

/// The byte ends the path of an identifier.
pub open spec fn is_stop(byte: u8) -> bool {
    byte == QUERY || byte == FRAGMENT
}

/// `end` is where the path ends: at the first `?` or `#`, or else where the
/// identifier ends.
pub open spec fn is_path_end(bytes: Seq<u8>, end: int) -> bool {
    &&& 0 <= end <= bytes.len()
    &&& forall|j: int| 0 <= j < end ==> !is_stop(#[trigger] bytes[j])
    &&& end < bytes.len() ==> is_stop(bytes[end])
}

/// The length of the path of an identifier.
pub open spec fn path_end(bytes: Seq<u8>) -> int {
    choose|end: int| is_path_end(bytes, end)
}

/// Where a directory's name ends, for a `/` at `index`: at the `/`, but
/// never before the first byte, so that the name of the root is `/`.
pub open spec fn cut_at(index: int) -> int {
    if index < 1 {
        1
    } else {
        index
    }
}

/// The ends of the names of the directories below `end`, the nearest
/// directory first: one for each `/` before `end`, from the right.
pub open spec fn cuts(bytes: Seq<u8>, end: int) -> Seq<int>
    decreases end,
{
    if end <= 0 {
        Seq::empty()
    } else if bytes[end - 1] == SLASH {
        seq![cut_at(end - 1)] + cuts(bytes, end - 1)
    } else {
        cuts(bytes, end - 1)
    }
}

/// The ends of the names of the directories that a test counts for: of
/// all that hold it, the nearest first, or of the nearest one alone.
pub open spec fn dir_cuts(bytes: Seq<u8>, recursive: bool) -> Seq<int> {
    let all = cuts(bytes, path_end(bytes));
    if recursive || all.len() == 0 {
        all
    } else {
        seq![all[0]]
    }
}

/// The names of the directories that the test `id` counts for: each is the
/// identifier up to a `/` of its path. With `recursive` these are all the
/// directories that hold the test, the nearest first; without, the nearest
/// one alone. A test outside any directory counts for none.
pub open spec fn dir_keys(id: Seq<char>, recursive: bool) -> Seq<Seq<char>> {
    names_at(encode_utf8(id), dir_cuts(encode_utf8(id), recursive))
}

/// The names that end at `ends`: each is the identifier up to there.
pub open spec fn names_at(bytes: Seq<u8>, ends: Seq<int>) -> Seq<Seq<char>> {
    Seq::new(ends.len(), |j: int| decode_utf8(bytes.subrange(0, ends[j])))
}

/// The names, as sequences of characters.
pub open spec fn key_views(keys: Seq<&str>) -> Seq<Seq<char>> {
    keys.map_values(|key: &str| key@)
}

/// A path ends at one place only.
pub proof fn lemma_path_end_unique(bytes: Seq<u8>, end: int)
    requires
        is_path_end(bytes, end),
    ensures
        path_end(bytes) == end,
{
}

/// The one directory that a test counts for without `recursive` is the
/// first of those that it counts for with it: the nearest.
pub proof fn lemma_nearest_directory(id: Seq<char>)
    ensures
        dir_keys(id, false) == if dir_keys(id, true).len() == 0 {
            Seq::<Seq<char>>::empty()
        } else {
            seq![dir_keys(id, true)[0]]
        },
{
}

/// A directory's name ends between two characters.
proof fn lemma_cut_is_boundary(bytes: Seq<u8>, index: int)
    requires
        valid_utf8(bytes),
        0 <= index < bytes.len(),
        bytes[index] == SLASH,
    ensures
        is_char_boundary(bytes, cut_at(index)),
        0 < cut_at(index) <= bytes.len(),
{
    if index >= 1 {
        is_char_boundary_iff_not_is_continuation_byte(bytes, index);
    } else {
        reveal_with_fuel(is_char_boundary, 2);
    }
}

/// Lists the directories that a test counts for, by the test's identifier:
/// see [`dir_keys`].
pub fn directory_keys<'a>(test: &'a str, recursive: bool) -> (keys: Vec<&'a str>)
    ensures
        key_views(keys@) == dir_keys(test@, recursive),
{
    let bytes = test.as_bytes();
    let n = bytes.len();
    let mut end: usize = 0;
    while end < n && bytes[end] != QUERY && bytes[end] != FRAGMENT
        invariant
            n == bytes@.len(),
            end <= n,
            forall|j: int| 0 <= j < end ==> !is_stop(#[trigger] bytes@[j]),
        decreases n - end,
    {
        end += 1;
    }
    proof {
        lemma_path_end_unique(bytes@, end as int);
    }
    let mut keys: Vec<&'a str> = Vec::new();
    let ghost mut done: Seq<int> = Seq::empty();
    let mut i: usize = end;
    while i > 0
        invariant
            bytes@ == encode_utf8(test@),
            n == bytes@.len(),
            i <= end <= n,
            cuts(bytes@, end as int) == done + cuts(bytes@, i as int),
            keys@.len() == done.len(),
            key_views(keys@) == names_at(bytes@, done),
            recursive || done.len() == 0,
            path_end(bytes@) == end,
        decreases i,
    {
        i -= 1;
        if bytes[i] == SLASH {
            let cut: usize = if i < 1 {
                1
            } else {
                i
            };
            proof {
                encode_utf8_valid_utf8(test@);
                lemma_cut_is_boundary(bytes@, i as int);
            }
            let (key, _) = test.split_at(cut);
            let ghost before = keys@;
            keys.push(key);
            proof {
                encode_utf8_decode_utf8(key@);
                assert(key_views(keys@) =~= names_at(bytes@, done.push(cut as int))) by {
                    assert forall|j: int| 0 <= j < done.len() implies key_views(keys@)[j]
                        == names_at(bytes@, done.push(cut as int))[j] by {
                        assert(key_views(before)[j] == names_at(bytes@, done)[j]);
                    }
                }
                done = done.push(cut as int);
            }
            if !recursive {
                return keys;
            }
        }
    }
    keys
}

} // verus!
