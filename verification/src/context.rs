//! Where the record collections live.
use vstd::prelude::*;

use crate::error::OrsError;
use crate::paths::{join, join_path};

verus! {

/// The directories of the three collections and the file naming the current track.
pub struct Context {
    pub commands_dir: String,
    pub tracks_dir: String,
    pub writeups_dir: String,
    pub track_name_file_path: String,
}

impl Context {
    /// The layout under the records directory `records_dir`: `commands`,
    /// `tracks` (holding the `.track` file) and `writeups`. Fails when no
    /// records directory is configured.
    pub fn new(records_dir: Option<&str>) -> (r: Result<Context, OrsError>)
        ensures
            match r {
                Ok(c) => records_dir matches Some(d) && c.commands_dir@ == join(d@, "commands"@)
                    && c.tracks_dir@ == join(d@, "tracks"@) && c.writeups_dir@ == join(d@, "writeups"@)
                    && c.track_name_file_path@ == join(join(d@, "tracks"@), ".track"@),
                Err(e) => records_dir is None && e == OrsError::RecordsDirNotSet,
            },
    {
        let d = match records_dir {
            Some(d) => d,
            None => {
                return Err(OrsError::RecordsDirNotSet);
            },
        };
        let commands_dir = join_path(d, "commands");
        let tracks_dir = join_path(d, "tracks");
        let writeups_dir = join_path(d, "writeups");
        let track_name_file_path = join_path(tracks_dir.as_str(), ".track");
        Ok(Context { commands_dir, tracks_dir, writeups_dir, track_name_file_path })
    }
}

} // verus!
