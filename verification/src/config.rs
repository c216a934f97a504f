//! The external tools the service invokes.

use vstd::prelude::*;
use vstd::string::StringExecFns;

verus! {

/// Command-line prefixes of the external collaborators: the editor for the
/// bulk-edit workflow, the notifier that surfaces a reminder, and the audio
/// player for its sound file.
#[derive(Debug)]
pub struct Config {
    pub edit_tool: Vec<String>,
    pub nag_tool: Vec<String>,
    pub audio_tool: Vec<String>,
}

impl Default for Config {
    /// The stock tools: `nvim` to edit, `i3-nagbar -m` to notify, `paplay`
    /// for sound.
    fn default() -> (r: Self)
        ensures
            r.edit_tool@.len() == 1 && r.edit_tool@[0]@ == "nvim"@,
            r.nag_tool@.len() == 2 && r.nag_tool@[0]@ == "i3-nagbar"@ && r.nag_tool@[1]@ == "-m"@,
            r.audio_tool@.len() == 1 && r.audio_tool@[0]@ == "paplay"@,
    {
        Config {
            edit_tool: vec![String::from_str("nvim")],
            nag_tool: vec![String::from_str("i3-nagbar"), String::from_str("-m")],
            audio_tool: vec![String::from_str("paplay")],
        }
    }
}

} // verus!
