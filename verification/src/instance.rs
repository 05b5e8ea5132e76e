//! The directories of one EdenFS instance, and the health of its daemon.

use vstd::prelude::*;
use std::path::PathBuf;

verus! {

/// `PathBuf` of std, of which nothing is known here but that it is a type.
#[verifier::external_type_specification]
#[verifier::external_body]
pub struct ExPathBuf(std::path::PathBuf);

/// The path that `Path::join` of std gives for `base` and `leaf`.
pub uninterp spec fn path_join(base: PathBuf, leaf: Seq<char>) -> PathBuf;

/// Calls `Path::join` of std, which adjoins `leaf` to `base`. Nothing is
/// proved of it: the result is taken to be the path named `path_join`.
#[verifier::external_body]
fn join(base: &PathBuf, leaf: &str) -> (r: PathBuf)
    ensures
        r == path_join(*base, leaf@),
{
    base.join(leaf)
}

/// The resources of one EdenFS instance besides its Thrift connection.
#[derive(Debug)]
pub struct EdenFsInstance {
    config_dir: PathBuf,
    etc_eden_dir: PathBuf,
    home_dir: Option<PathBuf>,
}

impl EdenFsInstance {
    /// The directory that holds the instance's state.
    pub closed spec fn config_dir(&self) -> PathBuf {
        self.config_dir
    }

    /// The directory that holds the system-wide configuration.
    pub closed spec fn etc_eden_dir(&self) -> PathBuf {
        self.etc_eden_dir
    }

    /// The user's home directory, if it is known.
    pub closed spec fn home_dir(&self) -> Option<PathBuf> {
        self.home_dir
    }

    pub fn new(config_dir: PathBuf, etc_eden_dir: PathBuf, home_dir: Option<PathBuf>) -> (r: Self)
        ensures
            r.config_dir() == config_dir,
            r.etc_eden_dir() == etc_eden_dir,
            r.home_dir() == home_dir,
    {
        Self { config_dir, etc_eden_dir, home_dir }
    }

    /// The directories from which the configuration is loaded: that of
    /// the system, and the user's home directory.
    pub fn config_sources(&self) -> (r: (&PathBuf, Option<&PathBuf>))
        ensures
            *r.0 == self.etc_eden_dir(),
            r.1 == match self.home_dir() {
                Some(h) => Some(&h),
                None => None,
            },
    {
        (&self.etc_eden_dir, self.home_dir.as_ref())
    }

    /// The socket on which the daemon listens.
    pub fn socket_path(&self) -> (r: PathBuf)
        ensures
            r == path_join(self.config_dir(), "socket"@),
    {
        join(&self.config_dir, "socket")
    }

    /// The file that holds the daemon's process id: `pid` on Windows,
    /// `lock` elsewhere.
    pub fn pidfile(&self, windows: bool) -> (r: PathBuf)
        ensures
            r == path_join(
                self.config_dir(),
                if windows {
                    "pid"@
                } else {
                    "lock"@
                },
            ),
    {
        if windows {
            join(&self.config_dir, "pid")
        } else {
            join(&self.config_dir, "lock")
        }
    }

    /// The file that maps the paths of the mounts to their names.
    pub fn directory_map(&self) -> (r: PathBuf)
        ensures
            r == path_join(self.config_dir(), "config.json"@),
    {
        join(&self.config_dir, "config.json")
    }

    pub fn clients_dir(&self) -> (r: PathBuf)
        ensures
            r == path_join(self.config_dir(), "clients"@),
    {
        join(&self.config_dir, "clients")
    }

    pub fn logs_dir(&self) -> (r: PathBuf)
        ensures
            r == path_join(self.config_dir(), "logs"@),
    {
        join(&self.config_dir, "logs")
    }

    pub fn storage_dir(&self) -> (r: PathBuf)
        ensures
            r == path_join(self.config_dir(), "storage"@),
    {
        join(&self.config_dir, "storage")
    }
}

/// What the lock file tells of the daemon when it does not answer.
#[derive(Clone, Copy, Debug, PartialEq, Eq, Structural)]
pub enum LockStatus {
    /// The process that holds the lock is the daemon: it is alive, but
    /// its Thrift server does not appear to be running.
    ProcessAlive,
    /// The process that holds the lock is some other program.
    NotRunning,
}

/// `s` ends with `suffix`.
pub open spec fn ends_with(s: Seq<char>, suffix: Seq<char>) -> bool {
    s.len() >= suffix.len() && s.subrange(s.len() - suffix.len(), s.len() as int) == suffix
}

/// Whether `s` ends with `suffix`.
fn str_ends_with(s: &str, suffix: &str) -> (r: bool)
    ensures
        r == ends_with(s@, suffix@),
{
    let n = s.unicode_len();
    let m = suffix.unicode_len();
    if n < m {
        return false;
    }
    let mut i: usize = 0;
    while i < m
        invariant
            i <= m,
            m <= n,
            n == s@.len(),
            m == suffix@.len(),
            forall|k: int| 0 <= k < i ==> s@[n - m + k] == suffix@[k],
        decreases m - i,
    {
        if s.get_char(n - m + i) != suffix.get_char(i) {
            assert(s@.subrange(n - m, n as int)[i as int] != suffix@[i as int]);
            return false;
        }
        i += 1;
    }
    assert(s@.subrange(n - m, n as int) =~= suffix@);
    true
}

/// Whether a program of this name is the daemon.
pub open spec fn is_daemon_name(name: Seq<char>, windows: bool) -> bool {
    name == "edenfs"@ || name == "fake_edenfs"@ || (windows && ends_with(name, "edenfs.exe"@))
}

/// The error of `serde_json`, of which nothing is known here but that
/// it is a type.
#[verifier::external_type_specification]
#[verifier::external_body]
pub struct ExJsonError(serde_json::Error);

/// The views of a list of pairs of strings.
pub open spec fn string_pairs(v: Seq<(String, String)>) -> Seq<(Seq<char>, Seq<char>)> {
    v.map_values(|p: (String, String)| (p.0@, p.1@))
}

/// The string `a` comes before the string `b`: strings are compared
/// character by character, by code point, and a string comes before
/// every string that it is the beginning of.
pub open spec fn string_lt(a: Seq<char>, b: Seq<char>) -> bool {
    exists|k: int|
        0 <= k <= a.len() && k < b.len() && a.subrange(0, k) == b.subrange(0, k) && (k < a.len() ==> (a[k] as u32)
            < (b[k] as u32))
}

/// The first parts of the pairs ascend strictly.
pub open spec fn keys_ascending(pairs: Seq<(Seq<char>, Seq<char>)>) -> bool {
    forall|i: int, j: int| 0 <= i < j < pairs.len() ==> string_lt((#[trigger] pairs[i]).0, (#[trigger] pairs[j]).0)
}

/// No two of the pairs have the same first part.
pub open spec fn distinct_keys(pairs: Seq<(Seq<char>, Seq<char>)>) -> bool {
    forall|i: int, j: int| 0 <= i < j < pairs.len() ==> (#[trigger] pairs[i]).0 != (#[trigger] pairs[j]).0
}

/// Strings that ascend are all different.
pub proof fn lemma_keys_distinct(pairs: Seq<(Seq<char>, Seq<char>)>)
    requires
        keys_ascending(pairs),
    ensures
        distinct_keys(pairs),
{
    assert forall|i: int, j: int| 0 <= i < j < pairs.len() implies (#[trigger] pairs[i]).0 != (#[trigger] pairs[j]).0 by {
        assert(string_lt(pairs[i].0, pairs[j].0));
    }
}

/// What `serde_json::from_str` reads from `text` as a map from strings
/// to strings: the pairs of the map, in its order. `None` where it fails,
/// as it does where `text` is no JSON object whose values are strings.
pub uninterp spec fn json_string_map(text: Seq<char>) -> Option<Seq<(Seq<char>, Seq<char>)>>;

/// Calls `serde_json::from_str` for a `BTreeMap<String, String>` and
/// lists the pairs of the map. Nothing is proved of it: what it reads is
/// taken to be what `json_string_map` names, and it fails where that
/// names nothing. The pairs are those of a map ordered by its keys, and
/// std orders strings by their bytes, which is by code points: so the
/// keys ascend.
#[verifier::external_body]
fn parse_string_map(text: &str) -> (r: Result<Vec<(String, String)>, serde_json::Error>)
    ensures
        match r {
            Ok(v) => json_string_map(text@) == Some(string_pairs(v@)) && keys_ascending(string_pairs(v@)),
            Err(_) => json_string_map(text@) is None,
        },
{
    serde_json::from_str::<std::collections::BTreeMap<String, String>>(text).map(|m| m.into_iter().collect())
}

/// The directory map is no JSON object of strings.
#[derive(Clone, Copy, Debug, PartialEq, Eq, Structural)]
pub struct InvalidDirectoryMap {}

/// The configured mounts, given what was read of the directory map: no
/// mounts where the file is missing, else what the file holds.
pub fn mounts_of(parsed: Option<Result<Vec<(String, String)>, serde_json::Error>>) -> (r: Result<
    Vec<(String, String)>,
    InvalidDirectoryMap,
>)
    ensures
        match parsed {
            None => r matches Ok(v) && v@.len() == 0,
            Some(Ok(m)) => r matches Ok(v) && v == m,
            Some(Err(_)) => r is Err,
        },
{
    match parsed {
        None => Ok(Vec::new()),
        Some(Ok(m)) => Ok(m),
        Some(Err(_)) => Err(InvalidDirectoryMap {  }),
    }
}

impl EdenFsInstance {
    /// What the lock file tells of a daemon that does not answer, given
    /// the name of the program that holds the lock.
    pub fn status_from_lock(name: &String, windows: bool) -> (r: LockStatus)
        ensures
            r == if is_daemon_name(name@, windows) {
                LockStatus::ProcessAlive
            } else {
                LockStatus::NotRunning
            },
    {
        let edenfs = "edenfs".to_owned();
        let fake = "fake_edenfs".to_owned();
        if *name == edenfs || *name == fake || (windows && str_ends_with(name.as_str(), "edenfs.exe")) {
            LockStatus::ProcessAlive
        } else {
            LockStatus::NotRunning
        }
    }

    /// The configured mounts: pairs of the path of a mount and its name, as
    /// the directory map holds them, each path once, the paths ascending. `contents` is the text of the file, or
    /// `None` where there is no such file.
    pub fn get_configured_mounts_map(contents: Option<&str>) -> (r: Result<Vec<(String, String)>, InvalidDirectoryMap>)
        ensures
            match contents {
                None => r matches Ok(v) && v@.len() == 0,
                Some(text) => match json_string_map(text@) {
                    Some(pairs) => r matches Ok(v) && string_pairs(v@) == pairs,
                    None => r is Err,
                },
            },
            r matches Ok(v) ==> keys_ascending(string_pairs(v@)) && distinct_keys(string_pairs(v@)),
    {
        match contents {
            None => mounts_of(None),
            Some(text) => {
                let r = mounts_of(Some(parse_string_map(text)));
                proof {
                    if r is Ok {
                        lemma_keys_distinct(string_pairs(r->Ok_0@));
                    }
                }
                r
            },
        }
    }
}

/// The states that a service reports of itself.
#[derive(Clone, Copy, Debug, PartialEq, Eq, Structural)]
pub enum Fb303Status {
    Dead,
    Starting,
    Alive,
    Stopping,
    Stopped,
    Warning,
}

/// What the daemon says of itself.
#[derive(Clone, Copy, Debug, PartialEq, Eq, Structural)]
pub struct DaemonInfo {
    pub pid: i32,
    pub status: Option<Fb303Status>,
}

pub trait DaemonHealthy {
    /// Whether the daemon is up and serving.
    spec fn healthy(&self) -> bool;

    fn is_healthy(&self) -> (r: bool)
        ensures
            r == self.healthy(),
    ;
}

impl DaemonHealthy for DaemonInfo {
    /// The daemon is healthy where it reports a status, and that status
    /// is `Alive`.
    open spec fn healthy(&self) -> bool {
        self.status == Some(Fb303Status::Alive)
    }

    fn is_healthy(&self) -> (r: bool) {
        match self.status {
            Some(val) => val == Fb303Status::Alive,
            None => false,
        }
    }
}

} // verus!
