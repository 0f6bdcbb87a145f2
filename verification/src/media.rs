//! Where this installation keeps project media: the `media` directory inside
//! the application's data directory, or no path at all where the platform
//! offers no data directory.

use vstd::prelude::*;

verus! {

/// The name of the media directory.
pub open spec fn media_dir_name() -> Seq<char> {
    seq!['m', 'e', 'd', 'i', 'a']
}

/// `Path::new(dir).join(name)` as text: the build target's join of the two
/// paths, a function of the two texts alone.
pub uninterp spec fn joined_path(dir: Seq<char>, name: Seq<char>) -> Seq<char>;

/// `std::path::Path::join` followed by `to_string_lossy`: the result is named
/// by `joined_path`. Nothing more is claimed of its text (which separator is
/// added, and how a prefixed Windows path is normalized, differ by platform).
#[verifier::external_body]
fn join_path(dir: &str, name: &str) -> (joined: String)
    ensures
        joined@ == joined_path(dir@, name@),
{
    std::path::Path::new(dir).join(name).to_string_lossy().into_owned()
}

/// The media root for an application whose data directory is `data_dir`:
/// `<data_dir>/media`, the data directory joined with `media`, or the empty
/// path when there is no data directory.
pub fn media_root(data_dir: Option<&str>) -> (root: String)
    ensures
        data_dir is None ==> root@.len() == 0,
        data_dir matches Some(d) ==> root@ == joined_path(d@, media_dir_name()),
{
    match data_dir {
        Some(d) => {
            let name = "media";
            proof {
                reveal_strlit("media");
            }
            assert(name@ == media_dir_name());
            join_path(d, name)
        },
        None => String::new(),
    }
}

/// The media root as the text the project records carry: exactly
/// [`media_root`]'s.
pub fn media_root_string(data_dir: Option<&str>) -> (root: String)
    ensures
        data_dir is None ==> root@.len() == 0,
        data_dir matches Some(d) ==> root@ == joined_path(d@, media_dir_name()),
{
    media_root(data_dir)
}

} // verus!
