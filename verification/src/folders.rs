//! The folders that a backup and a restore work on, and where each file
//! goes between them.

use vstd::prelude::*;
use crate::decimal::{decimal_digits, lemma_digits_denote};
use crate::paths::{
    below_first_component, join, joined, lemma_skip_name, lemma_skip_separators, reroot,
    reroot_below_session, rerooted, rerooted_below_session, RerootError,
};

verus! {

/// The three folders of one installation.
#[derive(Debug, Clone, PartialEq, Eq)]
pub struct Folders {
    /// The live folder, in which the game keeps its saves. A backup reads
    /// it and a restore overwrites it.
    pub saves: String,
    /// The backup root, which holds one directory per saved session.
    pub sessions: String,
    /// The folder in which the live folder is set aside while a session is
    /// restored.
    pub temp: String,
}

/// The live folder of the user whose home directory is `home`.
pub open spec fn saves_under(home: Seq<char>) -> Seq<char> {
    home + "/Zomboid/Saves"@
}

/// The backup root of the user whose home directory is `home`.
pub open spec fn sessions_under(home: Seq<char>) -> Seq<char> {
    home + "/Zomboid/BSaves"@
}

/// The folder for the safety copy of the user whose home directory is
/// `home`.
pub open spec fn temp_under(home: Seq<char>) -> Seq<char> {
    home + "/Zomboid/Saves_tmp"@
}

impl Folders {
    /// The folders of the user whose home directory is `home`.
    pub fn under_home(home: &str) -> (folders: Folders)
        ensures
            folders.saves@ == saves_under(home@),
            folders.sessions@ == sessions_under(home@),
            folders.temp@ == temp_under(home@),
    {
        Folders {
            saves: String::from_str(home).concat("/Zomboid/Saves"),
            sessions: String::from_str(home).concat("/Zomboid/BSaves"),
            temp: String::from_str(home).concat("/Zomboid/Saves_tmp"),
        }
    }

    /// Where a backup into the session named `session` puts the file
    /// `file` of the live folder: at the same place below the session's
    /// directory as `file` has below the live folder.
    pub fn backup_path(&self, session: &str, file: &str) -> (r: Result<String, RerootError>)
        ensures
            match r {
                Ok(to) => rerooted(file@, self.saves@, joined(self.sessions@, session@)) == Ok::<
                    Seq<char>,
                    RerootError,
                >(to@),
                Err(e) => rerooted(file@, self.saves@, joined(self.sessions@, session@)) == Err::<
                    Seq<char>,
                    RerootError,
                >(e),
            },
    {
        let session_dir = join(self.sessions.as_str(), session);
        reroot(file, self.saves.as_str(), session_dir.as_str())
    }

    /// Where a restore puts the file `file` of a session: at the same place
    /// below the live folder as `file` has below its session's directory.
    pub fn restore_path(&self, file: &str) -> (r: Result<String, RerootError>)
        ensures
            match r {
                Ok(to) => rerooted_below_session(file@, self.sessions@, self.saves@) == Ok::<
                    Seq<char>,
                    RerootError,
                >(to@),
                Err(e) => rerooted_below_session(file@, self.sessions@, self.saves@) == Err::<
                    Seq<char>,
                    RerootError,
                >(e),
            },
    {
        reroot_below_session(file, self.sessions.as_str(), self.saves.as_str())
    }
}

/// Whether `name` can name a session: it is one path component, not empty
/// and without a separator.
pub open spec fn is_component(name: Seq<char>) -> bool {
    name.len() > 0 && forall|i: int| 0 <= i < name.len() ==> name[i] != '/'
}

/// Whether `file` lies in or below the folder `folder`: its path is that of
/// the folder, or that of the folder followed by a separator and more.
pub open spec fn lies_under(file: Seq<char>, folder: Seq<char>) -> bool {
    folder.is_prefix_of(file) && (file.len() == folder.len() || file[folder.len() as int] == '/')
}

/// A restore undoes a backup: the place to which a backup takes a file of
/// the live folder is a place from which a restore takes it back to where
/// it was.
pub proof fn lemma_restore_undoes_backup(
    saves: Seq<char>,
    sessions: Seq<char>,
    session: Seq<char>,
    file: Seq<char>,
)
    requires
        lies_under(file, saves),
        is_component(session),
    ensures
        rerooted(file, saves, joined(sessions, session)) is Ok,
        rerooted_below_session(
            rerooted(file, saves, joined(sessions, session))->Ok_0,
            sessions,
            saves,
        ) == Ok::<Seq<char>, RerootError>(file),
{
    let suffix = file.skip(saves.len() as int);
    let saved = rerooted(file, saves, joined(sessions, session))->Ok_0;
    let tail = seq!['/'] + session + suffix;
    assert(saved =~= sessions + tail);
    assert(saved.subrange(0, sessions.len() as int) =~= sessions);
    assert(saved.skip(sessions.len() as int) =~= tail);
    let end = 1 + session.len() as int;
    lemma_skip_separators(tail, 0, 1);
    assert forall|i: int| 1 <= i < end implies tail[i] != '/' by {
        assert(tail[i] == session[i - 1]);
    }
    if suffix.len() > 0 {
        assert(tail[end] == suffix[0]);
    }
    lemma_skip_name(tail, 1, end);
    assert(below_first_component(tail) =~= suffix);
    assert(file.subrange(0, saves.len() as int) == saves);
    assert(saves + suffix =~= file);
}

/// A timestamp written in decimal digits can name a session.
pub proof fn lemma_timestamp_is_component(timestamp: u128)
    ensures
        is_component(decimal_digits(timestamp as nat)),
{
    lemma_digits_denote(timestamp as nat);
}

} // verus!
