//! Where things lie: paths below the configuration directory, and which
//! directory that is.

use crate::text::string_views;
use vstd::prelude::*;

verus! {

/// A file or directory, given by the names that lead to it from the
/// configuration directory.
#[derive(Debug, Clone, PartialEq, Eq)]
pub struct StorePath {
    pub components: Vec<String>,
}

impl View for StorePath {
    type V = Seq<Seq<char>>;

    open spec fn view(&self) -> Seq<Seq<char>> {
        string_views(self.components@)
    }
}

impl StorePath {
    /// The configuration directory itself.
    pub fn root() -> (path: Self)
        ensures
            path@ == Seq::<Seq<char>>::empty(),
    {
        let path = StorePath { components: Vec::new() };
        assert(path@ =~= Seq::<Seq<char>>::empty());
        path
    }

    /// What is called `name` in the directory `self`.
    pub fn join(self, name: String) -> (path: Self)
        ensures
            path@ == self@.push(name@),
    {
        let mut components = self.components;
        components.push(name);
        let path = StorePath { components };
        assert(path@ =~= self@.push(name@));
        path
    }
}

/// Where the configuration directory is found: at `below` in `directory`, which
/// is what a variable of the environment names.
#[derive(Debug, Clone, PartialEq, Eq)]
pub struct ConfigHome<T> {
    pub directory: T,
    pub below: StorePath,
}

/// Why there is no configuration directory.
#[derive(Debug, Clone, Copy, PartialEq, Eq, Structural)]
pub enum ConfigHomeError {
    /// None of the variables is set.
    NotFound,
}

/// What to tell a user without a configuration directory.
pub const CONFIG_HOME_NOT_FOUND: &'static str =
    "HOME is not set (set USERPROFILE/HOME, or CLAW_CONFIG_HOME to point at the config directory)";

impl ConfigHomeError {
    /// What to tell the user.
    pub fn message(&self) -> (text: &'static str)
        ensures
            text@ == CONFIG_HOME_NOT_FOUND@,
    {
        match self {
            ConfigHomeError::NotFound => CONFIG_HOME_NOT_FOUND,
        }
    }
}

/// Tells where the configuration directory is found, from what the variables
/// `CLAW_CONFIG_HOME`, `HOME` and `USERPROFILE` name, if they are set: the
/// directory that the first names, else `.claw` in that of the second, else
/// `.claw` in that of the third.
pub fn config_home_dir<T>(
    config_home: Option<T>,
    home: Option<T>,
    user_profile: Option<T>,
) -> (found: Result<ConfigHome<T>, ConfigHomeError>)
    ensures
        match (config_home, home, user_profile) {
            (Some(directory), _, _) => found matches Ok(found) && found.directory == directory
                && found.below@ == Seq::<Seq<char>>::empty(),
            (None, Some(directory), _) => found matches Ok(found) && found.directory == directory
                && found.below@ == seq![".claw"@],
            (None, None, Some(directory)) => found matches Ok(found) && found.directory
                == directory && found.below@ == seq![".claw"@],
            (None, None, None) => found == Err::<ConfigHome<T>, _>(ConfigHomeError::NotFound),
        },
{
    if let Some(directory) = config_home {
        return Ok(ConfigHome { directory, below: StorePath::root() });
    }
    let below = StorePath::root().join(".claw".to_string());
    assert(below@ =~= seq![".claw"@]);
    if let Some(directory) = home {
        Ok(ConfigHome { directory, below })
    } else if let Some(directory) = user_profile {
        Ok(ConfigHome { directory, below })
    } else {
        Err(ConfigHomeError::NotFound)
    }
}

/// What the file at `path` holds in a `store`, if it is there.
pub open spec fn held(store: Map<Seq<Seq<char>>, Seq<char>>, path: Seq<Seq<char>>) -> Option<
    Seq<char>,
> {
    if store.contains_key(path) {
        Some(store[path])
    } else {
        None
    }
}

} // verus!
