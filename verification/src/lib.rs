pub mod entry;
pub mod error;
pub mod gen;
pub mod index;
pub mod laws;
pub mod paths;
pub mod playcount;
pub mod playlist;
pub mod seqs;
pub mod strutil;
pub mod tools;
pub mod track;

use vstd::prelude::*;
use crate::track::Track;

verus! {

/// Returns the number of tracks in the music library, given the list of its
/// songs (as produced by the directory enumerator or the player's database).
pub fn library_size(songs: &Vec<Track>) -> (n: usize)
    ensures
        n == songs@.len(),
{
    songs.len()
}

} // verus!
