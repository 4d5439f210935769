//! Items related to reading a save file from the game
//!
//! Reading the save file itself (and the accounts file that lists the
//! profiles) is input and output and happens outside this library; what is
//! here is how a profile's save file is chosen, and (in [save_file]) how an
//! in-game file is found in a save file once it is read.
use vstd::prelude::*;

pub mod document;
pub mod save_file;

use crate::save_read::save_file::{ComputerFindStrategy, StrategyView};

verus! {

/// How to locate the XML save file
#[derive(Debug)]
pub enum SaveFindStrategy<'a, 'b> {
    /// Directly use a path to the XML save file
    DirectPath(&'a str),
    /// Locate the XML save file by reading the "Accounts.txt" file
    /// and identifying what XML file corresponds to the given account name
    ///
    /// Requires the path to your save directory and the name of the account in question.
    /// The save directory defaults to the default save location for your platform,
    /// and the account name defaults to the last used account
    ByAccount { save_directory: Option<&'a str>, account_name: Option<&'b str> },
}

impl<'a, 'b> Default for SaveFindStrategy<'a, 'b> {
    /// Returns [SaveFindStrategy::ByAccount] with both `save_directory` and `account_name` set to [None]
    ///
    /// Put differently, the default [SaveFindStrategy] is to assume the save directory is the default for your platform,
    /// and to use the last used account
    fn default() -> (res: Self)
        ensures
            res == (SaveFindStrategy::ByAccount { save_directory: None, account_name: None }),
    {
        SaveFindStrategy::ByAccount { save_directory: None, account_name: None }
    }
}

/// Ways locating the XML save file can fail
#[derive(Debug)]
pub enum SaveFindError {
    /// The accounts file could not be read (the reason is given).
    ReadAccounts(String),
    /// No account name was specified, and the accounts file has no default account.
    NoDefaultAccount,
    /// The account name has no entry within the accounts file.
    NonexistentAccount(String),
}

/// One profile listed in the game's accounts file: the account's name and the
/// file name of its XML save file.
#[derive(Debug)]
pub struct AccountProfile {
    pub name: String,
    pub save_file_name: String,
}

/// What the game's accounts file lists: the last used profile, if any, and
/// the profiles (keyed by account name).
#[derive(Debug)]
pub struct Accounts {
    pub last_used_profile: Option<String>,
    pub profiles: Vec<AccountProfile>,
}

/// What a failure to choose a save file says, as plain values.
pub enum SaveFindFailure {
    ReadAccounts(Seq<char>),
    NoDefaultAccount,
    NonexistentAccount(Seq<char>),
}

impl View for SaveFindError {
    type V = SaveFindFailure;

    open spec fn view(&self) -> SaveFindFailure {
        match self {
            SaveFindError::ReadAccounts(reason) => SaveFindFailure::ReadAccounts(reason@),
            SaveFindError::NoDefaultAccount => SaveFindFailure::NoDefaultAccount,
            SaveFindError::NonexistentAccount(name) => SaveFindFailure::NonexistentAccount(name@),
        }
    }
}

/// The save file name of the first profile named `name`, if any.
pub open spec fn profile_file(profiles: Seq<AccountProfile>, name: Seq<char>) -> Option<Seq<char>>
    decreases profiles.len(),
{
    if profiles.len() == 0 {
        None
    } else if profiles[0].name@ == name {
        Some(profiles[0].save_file_name@)
    } else {
        profile_file(profiles.drop_first(), name)
    }
}

/// The save file of the given account, or of the last used one when no
/// account is given.
pub open spec fn spec_select_save_file(accounts: Accounts, account_name: Option<Seq<char>>) -> Result<
    Seq<char>,
    SaveFindFailure,
> {
    let chosen = match account_name {
        Some(name) => Some(name),
        None => match accounts.last_used_profile {
            Some(last) => Some(last@),
            None => None,
        },
    };
    match chosen {
        None => Err(SaveFindFailure::NoDefaultAccount),
        Some(name) => match profile_file(accounts.profiles@, name) {
            Some(file) => Ok(file),
            None => Err(SaveFindFailure::NonexistentAccount(name)),
        },
    }
}

/// The file name of the XML save file of `account_name`, or of the last used
/// account when no name is given.
pub fn select_save_file(accounts: &Accounts, account_name: Option<&str>) -> (res: Result<
    String,
    SaveFindError,
>)
    ensures
        match res {
            Ok(file) => spec_select_save_file(
                *accounts,
                match account_name {
                    Some(n) => Some(n@),
                    None => None,
                },
            ) == Ok::<Seq<char>, SaveFindFailure>(file@),
            Err(e) => spec_select_save_file(
                *accounts,
                match account_name {
                    Some(n) => Some(n@),
                    None => None,
                },
            ) == Err::<Seq<char>, SaveFindFailure>(e@),
        },
{
    let name: String = match account_name {
        Some(n) => n.to_owned(),
        None => match &accounts.last_used_profile {
            Some(last) => last.clone(),
            None => {
                return Err(SaveFindError::NoDefaultAccount);
            },
        },
    };
    let ghost profiles = accounts.profiles@;
    let ghost given = match account_name {
        Some(n) => Some(n@),
        None => None::<Seq<char>>,
    };
    let ghost outcome = match profile_file(profiles, name@) {
        Some(file) => Ok::<Seq<char>, SaveFindFailure>(file),
        None => Err(SaveFindFailure::NonexistentAccount(name@)),
    };
    assert(spec_select_save_file(*accounts, given) == outcome);
    let n = accounts.profiles.len();
    let mut i: usize = 0;
    assert(profiles.skip(0) =~= profiles);
    while i < n
        invariant
            n == accounts.profiles.len(),
            profiles == accounts.profiles@,
            i <= n,
            profile_file(profiles, name@) == profile_file(profiles.skip(i as int), name@),
            given == match account_name {
                Some(n) => Some(n@),
                None => None::<Seq<char>>,
            },
            outcome == match profile_file(profiles, name@) {
                Some(file) => Ok::<Seq<char>, SaveFindFailure>(file),
                None => Err(SaveFindFailure::NonexistentAccount(name@)),
            },
            spec_select_save_file(*accounts, given) == outcome,
        decreases n - i,
    {
        let p = &accounts.profiles[i];
        assert(profiles.skip(i as int)[0] == *p);
        assert(profiles.skip(i as int).drop_first() =~= profiles.skip(i + 1));
        if p.name == name {
            return Ok(p.save_file_name.clone());
        }
        i = i + 1;
    }
    Err(SaveFindError::NonexistentAccount(name))
}

/// Options for how to read an in-game file from an in-game computer (by reading an XML save file)
#[derive(Debug)]
pub struct FileReadOptions<'a, 'b, 'c> {
    /// Options for locating your XML save file
    pub save: SaveFindStrategy<'a, 'b>,
    /// Options for locating the in-game computer within your save file
    pub computer: ComputerFindStrategy<'b>,
    /// The path to the target file on the in-game computer
    pub target: &'c str,
}

impl<'a, 'b, 'c> Default for FileReadOptions<'a, 'b, 'c> {
    /// The default [FileReadOptions] is to open the last-used account's save file, and read a file from the player's in-game computer.
    ///
    /// **Note**: the default value of `target` is the empty string, which is unlikely to be a valid file path. You almost certainly
    /// want to set `target` explicitly, and only populate other fields using [Default].
    fn default() -> (res: Self)
        ensures
            res.save == (SaveFindStrategy::ByAccount {
                save_directory: None,
                account_name: None,
            }),
            res.computer@ == StrategyView::ById("playerComp"@),
            res.target@ == ""@,
    {
        FileReadOptions { save: SaveFindStrategy::default(), computer: ComputerFindStrategy::default(), target: "" }
    }
}

/// The profile found for a name is the first one listed under that name.
proof fn lemma_profile_file(profiles: Seq<AccountProfile>, name: Seq<char>)
    ensures
        profile_file(profiles, name) matches Some(file) ==> exists|k: int|
            0 <= k < profiles.len() && #[trigger] profiles[k].name@ == name
                && profiles[k].save_file_name@ == file && forall|j: int|
                0 <= j < k ==> profiles[j].name@ != name,
        profile_file(profiles, name) is None <==> forall|k: int|
            0 <= k < profiles.len() ==> #[trigger] profiles[k].name@ != name,
    decreases profiles.len(),
{
    if profiles.len() > 0 {
        let rest = profiles.drop_first();
        lemma_profile_file(rest, name);
        if profiles[0].name@ == name {
            assert(profiles[0].name@ == name);
        } else {
            if let Some(file) = profile_file(profiles, name) {
                let k = choose|k: int|
                    0 <= k < rest.len() && #[trigger] rest[k].name@ == name
                        && rest[k].save_file_name@ == file && forall|j: int|
                        0 <= j < k ==> rest[j].name@ != name;
                assert(profiles[k + 1] == rest[k]);
                assert forall|j: int| 0 <= j < k + 1 implies profiles[j].name@ != name by {
                    if j > 0 {
                        assert(profiles[j] == rest[j - 1]);
                    }
                }
                assert(profiles[k + 1].name@ == name);
            }
            assert((forall|k: int| 0 <= k < rest.len() ==> #[trigger] rest[k].name@ != name) ==> (
            forall|k: int| 0 <= k < profiles.len() ==> #[trigger] profiles[k].name@ != name)) by {
                assert forall|k: int|
                    (forall|k: int| 0 <= k < rest.len() ==> #[trigger] rest[k].name@ != name) && 0
                        <= k < profiles.len() implies #[trigger] profiles[k].name@ != name by {
                    if k > 0 {
                        assert(profiles[k] == rest[k - 1]);
                    }
                }
            }
            assert((forall|k: int| 0 <= k < profiles.len() ==> #[trigger] profiles[k].name@ != name)
                ==> (forall|k: int| 0 <= k < rest.len() ==> #[trigger] rest[k].name@ != name)) by {
                assert forall|k: int|
                    (forall|k: int| 0 <= k < profiles.len() ==> #[trigger] profiles[k].name@ != name)
                        && 0 <= k < rest.len() implies #[trigger] rest[k].name@ != name by {
                    assert(rest[k] == profiles[k + 1]);
                }
            }
        }
    }
}

/// How the save file is chosen. With an account name, it is the save file of
/// the first profile listed under that name, and `NonexistentAccount` exactly
/// when no profile has that name. With no account name, the last used profile
/// is taken, wherever it is listed: the result is the one for its name given
/// explicitly, and `NoDefaultAccount` when there is no last used profile.
pub proof fn lemma_select_save_file(accounts: Accounts, name: Seq<char>)
    ensures
        spec_select_save_file(accounts, Some(name)) matches Ok(file) ==> exists|k: int|
            0 <= k < accounts.profiles@.len() && #[trigger] accounts.profiles@[k].name@ == name
                && accounts.profiles@[k].save_file_name@ == file && forall|j: int|
                0 <= j < k ==> accounts.profiles@[j].name@ != name,
        spec_select_save_file(accounts, Some(name)) is Err <==> forall|k: int|
            0 <= k < accounts.profiles@.len() ==> #[trigger] accounts.profiles@[k].name@ != name,
        spec_select_save_file(accounts, Some(name)) matches Err(e) ==> e
            == SaveFindFailure::NonexistentAccount(name),
        accounts.last_used_profile is None ==> spec_select_save_file(accounts, None)
            == Err::<Seq<char>, SaveFindFailure>(SaveFindFailure::NoDefaultAccount),
        accounts.last_used_profile matches Some(last) ==> spec_select_save_file(accounts, None)
            == spec_select_save_file(accounts, Some(last@)),
{
    lemma_profile_file(accounts.profiles@, name);
}

} // verus!
