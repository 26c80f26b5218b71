//! `clove.conf` parsing.
//!
//! One flat format: `key value` lines, `#` comments, no nesting. Unknown and
//! duplicate keys are fatal: a typo'd option must fail startup loudly, never
//! be silently ignored. An empty (or absent) file is the safe, working
//! default: every key exists to *deviate* from a sane default.
//!
//! The SAM address is kept as text; the loopback check here is textual, and
//! the real parse happens at connect time. Paths are text too.
use vstd::prelude::*;
#[allow(unused_imports)]
use vstd::string::*;
use crate::decimal::{decimal_text, push_decimal};
use crate::metainfo::{find_last, is_port, last_index, valid_port};
use crate::scan::{
    all_digits, copy_chars, dec_value, is_space, is_space_char, is_text, law_cut_at_the_first,
    law_key_and_value_are_cut, law_trimmed_text, lemma_dec_value, number_in, read_number, split,
    split_at_first, split_on, split_once, texts, trim, trimmed,
};
use crate::strings::{chars_of, string_of};

verus! {

/// The SAM address assumed when the config doesn't say otherwise: the standard
/// bridge address of a default-configured local router.
pub const DEFAULT_SAM_ADDRESS: &'static str = "127.0.0.1:7656";

/// What the environment says about where things are kept. An empty value
/// counts as unset.
#[derive(Debug)]
pub struct Environment {
    /// `$XDG_DATA_HOME`.
    pub xdg_data_home: Option<String>,
    /// `$XDG_CONFIG_HOME`.
    pub xdg_config_home: Option<String>,
    /// `$XDG_RUNTIME_DIR`.
    pub xdg_runtime_dir: Option<String>,
    /// `$HOME`.
    pub home: Option<String>,
}

/// Environment-derived default locations, separated from parsing so parsing
/// doesn't depend on the environment.
#[derive(Clone, Debug)]
pub struct Defaults {
    /// XDG data home (`$XDG_DATA_HOME` or `~/.local/share`); the default data
    /// directory is `<data_home>/clove`.
    pub data_home: String,
    /// `$XDG_RUNTIME_DIR` when set; preferred home of the control socket.
    pub runtime_dir: Option<String>,
    /// XDG config home (`$XDG_CONFIG_HOME` or `~/.config`, or else the data
    /// home); the default config file is `<config_home>/clove/clove.conf`.
    pub config_home: String,
}

/// Validated daemon configuration.
#[derive(Clone, Debug, PartialEq, Eq)]
pub struct Config {
    /// SAM bridge address: `host:port` (loopback unless overridden) or an
    /// absolute unix-socket path.
    pub sam_address: String,
    /// The explicit, ugly, dangerous override for a non-loopback SAM address
    /// (`i_know_sam_is_remote yes`).
    pub i_know_sam_is_remote: bool,
    /// Client state directory (destination keys, resume data, torrents).
    pub data_dir: String,
    /// Control socket path for the local HTTP API.
    pub api_socket: String,
    /// Transient identity: never persist destination keys.
    pub ephemeral: bool,
    /// Grow each file to its full length when a torrent is added, rather than
    /// letting it become sparse as pieces land.
    pub preallocate: bool,
    /// Ceiling on peer connections across *every* torrent at once.
    pub peer_limit: usize,
    /// Ceiling on peer connections for any one torrent, applied under
    /// [`peer_limit`](Config::peer_limit).
    pub torrent_peer_limit: usize,
    /// How many incomplete torrents may run at once; the rest wait in the
    /// queue.
    pub max_active_downloads: usize,
    /// How many complete torrents may seed at once.
    pub max_active_seeds: usize,
    /// Stop seeding at this uploaded/downloaded ratio, in **thousandths**; `0`
    /// seeds without limit.
    pub seed_ratio_milli: u64,
    /// Stop seeding after this many minutes with no peer attached; `0` never
    /// stops.
    pub seed_idle_minutes: u64,
    /// A directory to watch for `.torrent` files to add, or `None` to watch
    /// none.
    pub watch_dir: Option<String>,
}

/// Client-wide peer ceiling when the config does not say otherwise.
pub const DEFAULT_PEER_LIMIT: usize = 200;

/// Per-torrent peer ceiling when the config does not say otherwise.
pub const DEFAULT_TORRENT_PEER_LIMIT: usize = 50;

/// Concurrently downloading torrents when the config does not say otherwise.
/// On I2P the scarce thing is tunnels rather than bandwidth.
pub const DEFAULT_MAX_ACTIVE_DOWNLOADS: usize = 3;

/// Concurrently seeding torrents when the config does not say otherwise.
pub const DEFAULT_MAX_ACTIVE_SEEDS: usize = 5;

/// Largest accepted seed ratio, in thousandths (1000 = 1.0).
pub const MAX_SEED_RATIO_MILLI: u64 = 1_000_000;

/// Longest accepted seed idle limit, in minutes: a little over two months.
pub const MAX_SEED_IDLE_MINUTES: u64 = 100_000;

/// Largest accepted value for a ceiling: a refusal to accept a typo.
pub const MAX_PEER_LIMIT: usize = 10_000;

/// Why configuration was rejected. Messages are written for the operator: they
/// name the line, the key, and what to do about it.
#[derive(Clone, Debug, PartialEq, Eq)]
pub enum Error {
    /// Neither `XDG_DATA_HOME` nor `HOME` is set.
    NoHome,
    /// A problem on a specific line of the config file.
    Line {
        /// 1-based line number.
        line: usize,
        /// What is wrong with it.
        problem: Problem,
    },
}

/// Per-line configuration problems.
#[derive(Clone, Debug, PartialEq, Eq)]
pub enum Problem {
    /// Key is not one clove knows; typos must fail startup loudly.
    UnknownKey(String),
    /// Key given without a value.
    MissingValue,
    /// Key set twice.
    DuplicateKey,
    /// Boolean value other than `yes` or `no`.
    BadBool,
    /// A count that is not a positive number, or is absurdly large.
    BadCount,
    /// A ratio that is not a non-negative decimal, or is absurdly large.
    BadRatio,
    /// SAM address is neither `host:port` nor an absolute socket path.
    BadSamAddress,
    /// SAM address is not loopback and `i_know_sam_is_remote` is not set.
    RemoteSam,
    /// A path value that is not absolute.
    RelativePath,
    /// A well-formed `sam_address` this build cannot actually dial.
    UnsupportedSamTransport(&'static str),
}

// ---------------------------------------------------------------------------
// The model.

/// What a [`Problem`] stands for.
#[verifier::ext_equal]
pub enum Fault {
    UnknownKey(Seq<char>),
    MissingValue,
    DuplicateKey,
    BadBool,
    BadCount,
    BadRatio,
    BadSamAddress,
    RemoteSam,
    RelativePath,
    UnsupportedSamTransport(Seq<char>),
}

impl View for Problem {
    type V = Fault;

    open spec fn view(&self) -> Fault {
        match *self {
            Problem::UnknownKey(k) => Fault::UnknownKey(k@),
            Problem::MissingValue => Fault::MissingValue,
            Problem::DuplicateKey => Fault::DuplicateKey,
            Problem::BadBool => Fault::BadBool,
            Problem::BadCount => Fault::BadCount,
            Problem::BadRatio => Fault::BadRatio,
            Problem::BadSamAddress => Fault::BadSamAddress,
            Problem::RemoteSam => Fault::RemoteSam,
            Problem::RelativePath => Fault::RelativePath,
            Problem::UnsupportedSamTransport(s) => Fault::UnsupportedSamTransport(s@),
        }
    }
}

/// What an [`Error`] stands for: no place to keep state, or a line and what is
/// wrong with it.
#[verifier::ext_equal]
pub enum Refusal {
    NoHome,
    Line(nat, Fault),
}

impl View for Error {
    type V = Refusal;

    open spec fn view(&self) -> Refusal {
        match *self {
            Error::NoHome => Refusal::NoHome,
            Error::Line { line, problem } => Refusal::Line(line as nat, problem@),
        }
    }
}

/// The text of an optional string.
pub open spec fn opt_text(s: Option<String>) -> Option<Seq<char>> {
    match s {
        Some(t) => Some(t@),
        None => None,
    }
}

/// What [`Defaults`] stand for.
#[verifier::ext_equal]
pub struct Places {
    pub data_home: Seq<char>,
    pub runtime_dir: Option<Seq<char>>,
    pub config_home: Seq<char>,
}

impl View for Defaults {
    type V = Places;

    open spec fn view(&self) -> Places {
        Places {
            data_home: self.data_home@,
            runtime_dir: opt_text(self.runtime_dir),
            config_home: self.config_home@,
        }
    }
}

/// A relative path under a directory.
pub open spec fn joined(dir: Seq<char>, rel: Seq<char>) -> Seq<char> {
    if dir.len() == 0 {
        rel
    } else if dir.last() == '/' {
        dir + rel
    } else {
        dir + "/"@ + rel
    }
}

/// A value of the environment that is set and not empty.
pub open spec fn set_in(v: Option<String>) -> Option<Seq<char>> {
    match v {
        Some(s) => if s@.len() > 0 {
            Some(s@)
        } else {
            None
        },
        None => None,
    }
}

/// A directory of its own from the environment, or one under the home
/// directory.
pub open spec fn home_or(own: Option<String>, home: Option<String>, rel: Seq<char>) -> Option<
    Seq<char>,
> {
    match set_in(own) {
        Some(d) => Some(d),
        None => match set_in(home) {
            Some(h) => Some(joined(h, rel)),
            None => None,
        },
    }
}

/// What a [`Config`] stands for.
#[verifier::ext_equal]
pub struct Settings {
    pub sam_address: Seq<char>,
    pub i_know_sam_is_remote: bool,
    pub data_dir: Seq<char>,
    pub api_socket: Seq<char>,
    pub ephemeral: bool,
    pub preallocate: bool,
    pub peer_limit: usize,
    pub torrent_peer_limit: usize,
    pub max_active_downloads: usize,
    pub max_active_seeds: usize,
    pub seed_ratio_milli: u64,
    pub seed_idle_minutes: u64,
    pub watch_dir: Option<Seq<char>>,
}

impl View for Config {
    type V = Settings;

    open spec fn view(&self) -> Settings {
        Settings {
            sam_address: self.sam_address@,
            i_know_sam_is_remote: self.i_know_sam_is_remote,
            data_dir: self.data_dir@,
            api_socket: self.api_socket@,
            ephemeral: self.ephemeral,
            preallocate: self.preallocate,
            peer_limit: self.peer_limit,
            torrent_peer_limit: self.torrent_peer_limit,
            max_active_downloads: self.max_active_downloads,
            max_active_seeds: self.max_active_seeds,
            seed_ratio_milli: self.seed_ratio_milli,
            seed_idle_minutes: self.seed_idle_minutes,
            watch_dir: opt_text(self.watch_dir),
        }
    }
}

/// The keys as read so far, each with the line it came from.
#[verifier::ext_equal]
pub struct Keys {
    pub sam_address: Option<(nat, Seq<char>)>,
    pub i_know_sam_is_remote: Option<(nat, bool)>,
    pub data_dir: Option<(nat, Seq<char>)>,
    pub api_socket: Option<(nat, Seq<char>)>,
    pub ephemeral: Option<(nat, bool)>,
    pub preallocate: Option<(nat, bool)>,
    pub peer_limit: Option<(nat, usize)>,
    pub torrent_peer_limit: Option<(nat, usize)>,
    pub max_active_downloads: Option<(nat, usize)>,
    pub max_active_seeds: Option<(nat, usize)>,
    pub seed_ratio_milli: Option<(nat, u64)>,
    pub seed_idle_minutes: Option<(nat, u64)>,
    pub watch_dir: Option<(nat, Seq<char>)>,
}

/// No keys.
pub open spec fn no_keys() -> Keys {
    Keys {
        sam_address: None,
        i_know_sam_is_remote: None,
        data_dir: None,
        api_socket: None,
        ephemeral: None,
        preallocate: None,
        peer_limit: None,
        torrent_peer_limit: None,
        max_active_downloads: None,
        max_active_seeds: None,
        seed_ratio_milli: None,
        seed_idle_minutes: None,
        watch_dir: None,
    }
}

/// A key's value, if it is valid and the key is not set yet.
pub open spec fn once<T>(
    slot: Option<(nat, T)>,
    line: nat,
    value: Option<T>,
    bad: Fault,
) -> Result<Option<(nat, T)>, Refusal> {
    match value {
        None => Err(Refusal::Line(line, bad)),
        Some(v) => if slot is Some {
            Err(Refusal::Line(line, Fault::DuplicateKey))
        } else {
            Ok(Some((line, v)))
        },
    }
}

/// `yes` or `no`.
pub open spec fn bool_in(v: Seq<char>) -> Option<bool> {
    if v == "yes"@ {
        Some(true)
    } else if v == "no"@ {
        Some(false)
    } else {
        None
    }
}

/// A count: a plain decimal, at least one, at most [`MAX_PEER_LIMIT`].
pub open spec fn count_in(v: Seq<char>) -> Option<usize> {
    if all_digits(v) && v.len() > 0 && 1 <= dec_value(v) <= MAX_PEER_LIMIT {
        Some(dec_value(v) as usize)
    } else {
        None
    }
}

/// A number of minutes.
pub open spec fn minutes_in(v: Seq<char>) -> Option<u64> {
    match number_in(v, MAX_SEED_IDLE_MINUTES as nat) {
        Some(n) => Some(n as u64),
        None => None,
    }
}

/// An absolute path.
pub open spec fn path_in(v: Seq<char>) -> Option<Seq<char>> {
    if v.len() > 0 && v[0] == '/' {
        Some(v)
    } else {
        None
    }
}

/// The thousandths that up to three digits after the point stand for.
pub open spec fn thousandths(frac: Seq<char>) -> nat {
    if frac.len() == 0 {
        0
    } else if frac.len() == 1 {
        dec_value(frac) * 100
    } else if frac.len() == 2 {
        dec_value(frac) * 10
    } else {
        dec_value(frac)
    }
}

/// A ratio written as a decimal with at most three places, in thousandths.
pub open spec fn ratio_in(v: Seq<char>) -> Option<u64> {
    let (whole, frac) = match split_once(v, "."@) {
        Some(p) => p,
        None => (v, Seq::empty()),
    };
    let total = dec_value(whole) * 1000 + thousandths(frac);
    if (whole.len() == 0 && frac.len() == 0) || !all_digits(whole) || !all_digits(frac)
        || frac.len() > 3 || total > MAX_SEED_RATIO_MILLI {
        None
    } else {
        Some(total as u64)
    }
}

/// Whether a text has the shape of a SAM address: an absolute path, or
/// `host:port` with a port in range.
pub open spec fn is_sam_shape(v: Seq<char>) -> bool {
    let i = last_index(v, ':', v.len() as int);
    (v.len() > 0 && v[0] == '/') || (i > 0 && is_port(v.skip(i + 1)))
}

/// A SAM address.
pub open spec fn sam_in(v: Seq<char>) -> Option<Seq<char>> {
    if is_sam_shape(v) {
        Some(v)
    } else {
        None
    }
}

/// Whether a SAM address is a local one. Exact: the exotic spellings do not
/// get the benefit of the doubt.
pub open spec fn is_loopback(v: Seq<char>) -> bool {
    let i = last_index(v, ':', v.len() as int);
    (v.len() > 0 && v[0] == '/') || (i >= 0 && (v.take(i) == "127.0.0.1"@ || v.take(i)
        == "localhost"@ || v.take(i) == "[::1]"@))
}

/// Why this build cannot dial an address, if it cannot.
pub open spec fn undialable(v: Seq<char>) -> Option<Seq<char>> {
    if v.len() > 0 && v[0] == '/' {
        Some("a unix-socket SAM address is not supported; use host:port"@)
    } else if !is_loopback(v) {
        Some("a remote SAM bridge is not supported"@)
    } else {
        None
    }
}

/// The keys once `key value` on `line` is recorded.
pub open spec fn accepted(k: Keys, line: nat, key: Seq<char>, v: Seq<char>) -> Result<
    Keys,
    Refusal,
> {
    if key == "sam_address"@ {
        match once(k.sam_address, line, sam_in(v), Fault::BadSamAddress) {
            Ok(x) => Ok(Keys { sam_address: x, ..k }),
            Err(e) => Err(e),
        }
    } else if key == "i_know_sam_is_remote"@ {
        match once(k.i_know_sam_is_remote, line, bool_in(v), Fault::BadBool) {
            Ok(x) => Ok(Keys { i_know_sam_is_remote: x, ..k }),
            Err(e) => Err(e),
        }
    } else if key == "data_dir"@ {
        match once(k.data_dir, line, path_in(v), Fault::RelativePath) {
            Ok(x) => Ok(Keys { data_dir: x, ..k }),
            Err(e) => Err(e),
        }
    } else if key == "api_socket"@ {
        match once(k.api_socket, line, path_in(v), Fault::RelativePath) {
            Ok(x) => Ok(Keys { api_socket: x, ..k }),
            Err(e) => Err(e),
        }
    } else if key == "ephemeral"@ {
        match once(k.ephemeral, line, bool_in(v), Fault::BadBool) {
            Ok(x) => Ok(Keys { ephemeral: x, ..k }),
            Err(e) => Err(e),
        }
    } else if key == "preallocate"@ {
        match once(k.preallocate, line, bool_in(v), Fault::BadBool) {
            Ok(x) => Ok(Keys { preallocate: x, ..k }),
            Err(e) => Err(e),
        }
    } else if key == "peer_limit"@ {
        match once(k.peer_limit, line, count_in(v), Fault::BadCount) {
            Ok(x) => Ok(Keys { peer_limit: x, ..k }),
            Err(e) => Err(e),
        }
    } else if key == "torrent_peer_limit"@ {
        match once(k.torrent_peer_limit, line, count_in(v), Fault::BadCount) {
            Ok(x) => Ok(Keys { torrent_peer_limit: x, ..k }),
            Err(e) => Err(e),
        }
    } else if key == "max_active_downloads"@ {
        match once(k.max_active_downloads, line, count_in(v), Fault::BadCount) {
            Ok(x) => Ok(Keys { max_active_downloads: x, ..k }),
            Err(e) => Err(e),
        }
    } else if key == "max_active_seeds"@ {
        match once(k.max_active_seeds, line, count_in(v), Fault::BadCount) {
            Ok(x) => Ok(Keys { max_active_seeds: x, ..k }),
            Err(e) => Err(e),
        }
    } else if key == "seed_ratio"@ {
        match once(k.seed_ratio_milli, line, ratio_in(v), Fault::BadRatio) {
            Ok(x) => Ok(Keys { seed_ratio_milli: x, ..k }),
            Err(e) => Err(e),
        }
    } else if key == "watch_dir"@ {
        match once(k.watch_dir, line, path_in(v), Fault::RelativePath) {
            Ok(x) => Ok(Keys { watch_dir: x, ..k }),
            Err(e) => Err(e),
        }
    } else if key == "seed_idle_minutes"@ {
        match once(k.seed_idle_minutes, line, minutes_in(v), Fault::BadCount) {
            Ok(x) => Ok(Keys { seed_idle_minutes: x, ..k }),
            Err(e) => Err(e),
        }
    } else {
        Err(Refusal::Line(line, Fault::UnknownKey(key)))
    }
}

/// The first position at or after `i` that holds white space, or the length.
pub open spec fn space_at(s: Seq<char>, i: int) -> int
    decreases s.len() - i,
{
    if i < 0 || i >= s.len() {
        s.len() as int
    } else if is_space(s[i]) {
        i
    } else {
        space_at(s, i + 1)
    }
}

/// The keys once a line is read: blank lines and comments say nothing.
pub open spec fn line_read(k: Keys, line: nat, raw: Seq<char>) -> Result<Keys, Refusal> {
    let t = trim(raw);
    let i = space_at(t, 0);
    if t.len() == 0 || t[0] == '#' {
        Ok(k)
    } else if i >= t.len() || trim(t.skip(i + 1)).len() == 0 {
        Err(Refusal::Line(line, Fault::MissingValue))
    } else {
        accepted(k, line, t.take(i), trim(t.skip(i + 1)))
    }
}

/// The keys once the first `n` lines are read.
pub open spec fn lines_read(lines: Seq<Seq<char>>, n: int) -> Result<Keys, Refusal>
    decreases n,
{
    if n <= 0 {
        Ok(no_keys())
    } else {
        match lines_read(lines, n - 1) {
            Err(e) => Err(e),
            Ok(k) => line_read(k, n as nat, lines[n - 1]),
        }
    }
}

/// A key's value, or another.
pub open spec fn value_or<T>(slot: Option<(nat, T)>, other: T) -> T {
    match slot {
        Some((_, v)) => v,
        None => other,
    }
}

/// The settings that keys and defaults make, if the SAM address is one that
/// may and can be dialed.
pub open spec fn settled(k: Keys, d: Places) -> Result<Settings, Refusal> {
    let remote_ok = value_or(k.i_know_sam_is_remote, false);
    let (sam_line, sam) = match k.sam_address {
        Some(p) => p,
        None => (0, DEFAULT_SAM_ADDRESS@),
    };
    let data_dir = value_or(k.data_dir, joined(d.data_home, "clove"@));
    let socket = match d.runtime_dir {
        Some(r) => joined(r, "clove/clove.sock"@),
        None => joined(data_dir, "clove.sock"@),
    };
    if !remote_ok && !is_loopback(sam) {
        Err(Refusal::Line(sam_line, Fault::RemoteSam))
    } else if undialable(sam) is Some {
        Err(Refusal::Line(sam_line, Fault::UnsupportedSamTransport(undialable(sam)->Some_0)))
    } else {
        Ok(
            Settings {
                sam_address: sam,
                i_know_sam_is_remote: remote_ok,
                data_dir,
                api_socket: value_or(k.api_socket, socket),
                ephemeral: value_or(k.ephemeral, false),
                preallocate: value_or(k.preallocate, false),
                peer_limit: value_or(k.peer_limit, DEFAULT_PEER_LIMIT),
                torrent_peer_limit: value_or(k.torrent_peer_limit, DEFAULT_TORRENT_PEER_LIMIT),
                max_active_downloads: value_or(
                    k.max_active_downloads,
                    DEFAULT_MAX_ACTIVE_DOWNLOADS,
                ),
                max_active_seeds: value_or(k.max_active_seeds, DEFAULT_MAX_ACTIVE_SEEDS),
                seed_ratio_milli: value_or(k.seed_ratio_milli, 0),
                seed_idle_minutes: value_or(k.seed_idle_minutes, 0),
                watch_dir: match k.watch_dir {
                    Some((_, v)) => Some(v),
                    None => None,
                },
            },
        )
    }
}

/// The settings that a text and defaults make.
pub open spec fn settings_in(text: Seq<char>, d: Places) -> Result<Settings, Refusal> {
    let lines = split(text, "\n"@);
    match lines_read(lines, lines.len() as int) {
        Err(e) => Err(e),
        Ok(k) => settled(k, d),
    }
}

// ---------------------------------------------------------------------------
// Locations.

fn join(dir: &str, rel: &str) -> (r: String)
    ensures
        r@ == joined(dir@, rel@),
{
    let c = chars_of(dir);
    let mut s = dir.to_owned();
    if c.len() > 0 && c[c.len() - 1] != '/' {
        s.append("/");
    }
    s.append(rel);
    proof {
        if dir@.len() == 0 {
            assert(s@ =~= rel@);
        }
    }
    s
}

fn nonempty(v: &Option<String>) -> (r: Option<String>)
    ensures
        opt_text(r) == set_in(*v),
{
    match v {
        Some(s) => if s.as_str().is_empty() {
            None
        } else {
            Some(s.clone())
        },
        None => None,
    }
}

fn dir_or_home(own: &Option<String>, home: &Option<String>, rel: &str) -> (r: Option<String>)
    ensures
        opt_text(r) == home_or(*own, *home, rel@),
{
    match nonempty(own) {
        Some(d) => Some(d),
        None => match nonempty(home) {
            Some(h) => Some(join(h.as_str(), rel)),
            None => None,
        },
    }
}

impl Defaults {
    /// Resolve from `XDG_DATA_HOME`, `XDG_CONFIG_HOME`, `XDG_RUNTIME_DIR` and
    /// `HOME`. With nowhere sane to keep state (neither `XDG_DATA_HOME` nor
    /// `HOME`), guessing would be worse than [`Error::NoHome`].
    ///
    /// A config file need not exist, so nowhere to look for one is no error:
    /// with neither `XDG_CONFIG_HOME` nor `HOME` it is looked for beside the
    /// state, under the data home.
    pub fn from_env(env: &Environment) -> (r: Result<Defaults, Error>)
        ensures
            ({
                let data = home_or(env.xdg_data_home, env.home, ".local/share"@);
                let config = home_or(env.xdg_config_home, env.home, ".config"@);
                match r {
                    Ok(d) => data is Some && d@ == (Places {
                        data_home: data->Some_0,
                        runtime_dir: set_in(env.xdg_runtime_dir),
                        config_home: match config {
                            Some(dir) => dir,
                            None => data->Some_0,
                        },
                    }),
                    Err(e) => e@ == Refusal::NoHome && data is None,
                }
            }),
    {
        let data_home = match dir_or_home(&env.xdg_data_home, &env.home, ".local/share") {
            Some(d) => d,
            None => return Err(Error::NoHome),
        };
        let runtime_dir = nonempty(&env.xdg_runtime_dir);
        let config_home = match dir_or_home(&env.xdg_config_home, &env.home, ".config") {
            Some(d) => d,
            None => data_home.as_str().to_owned(),
        };
        Ok(Defaults { data_home, runtime_dir, config_home })
    }

    /// Where `cloved` looks for its config file when none is named. Absent is
    /// not an error: an empty config is the working default.
    pub fn config_path(&self) -> (r: String)
        ensures
            r@ == joined(self@.config_home, "clove/clove.conf"@),
    {
        join(self.config_home.as_str(), "clove/clove.conf")
    }
}

// ---------------------------------------------------------------------------
// Values.

fn parse_bool(value: &[char]) -> (r: Option<bool>)
    ensures
        r == bool_in(value@),
{
    if is_text(value, "yes") {
        Some(true)
    } else if is_text(value, "no") {
        Some(false)
    } else {
        None
    }
}

/// Parse a count: a plain decimal, at least 1, at most [`MAX_PEER_LIMIT`].
///
/// Zero is refused rather than read as "unlimited": a client configured to
/// hold no peers at all is never what was meant.
fn parse_count(value: &[char]) -> (r: Option<usize>)
    ensures
        r == count_in(value@),
{
    if value.len() > 0 && value[0] == '+' {
        return None;
    }
    match read_number(value, MAX_PEER_LIMIT as u64) {
        Some(n) => if n >= 1 {
            Some(n as usize)
        } else {
            None
        },
        None => None,
    }
}

fn parse_minutes(value: &[char]) -> (r: Option<u64>)
    ensures
        r == minutes_in(value@),
{
    read_number(value, MAX_SEED_IDLE_MINUTES)
}

fn is_absolute(value: &[char]) -> (r: bool)
    ensures
        r == (value@.len() > 0 && value@[0] == '/'),
{
    value.len() > 0 && value[0] == '/'
}

fn absolute(value: &[char]) -> (r: Option<String>)
    ensures
        opt_text(r) == path_in(value@),
{
    if is_absolute(value) {
        Some(string_of(value))
    } else {
        None
    }
}

fn digits_only(s: &[char]) -> (r: bool)
    ensures
        r == all_digits(s@),
{
    let mut i: usize = 0;
    while i < s.len()
        invariant
            i <= s@.len(),
            forall|j: int| 0 <= j < i ==> '0' <= #[trigger] s@[j] <= '9',
        decreases s.len() - i,
    {
        if s[i] < '0' || s[i] > '9' {
            proof {
                assert(!('0' <= s@[i as int] <= '9'));
            }
            return false;
        }
        i = i + 1;
    }
    true
}

proof fn lemma_three_digits(s: Seq<char>)
    requires
        all_digits(s),
        s.len() <= 3,
    ensures
        dec_value(s) <= 999,
        s.len() <= 2 ==> dec_value(s) <= 99,
        s.len() <= 1 ==> dec_value(s) <= 9,
        s.len() == 0 ==> dec_value(s) == 0,
{
    reveal_with_fuel(dec_value, 4);
    if s.len() > 0 {
        assert('0' <= s[s.len() - 1] <= '9');
        let t = s.drop_last();
        if t.len() > 0 {
            assert('0' <= s[s.len() - 2] <= '9');
            assert(t.last() == s[s.len() - 2]);
            let u = t.drop_last();
            if u.len() > 0 {
                assert('0' <= s[s.len() - 3] <= '9');
                assert(u.last() == s[s.len() - 3]);
            }
        }
    }
}

fn digits_number(s: &[char], max: u64) -> (r: Option<u64>)
    requires
        all_digits(s@),
    ensures
        match r {
            Some(n) => n == dec_value(s@) && n <= max,
            None => dec_value(s@) > max,
        },
{
    if s.len() == 0 {
        return Some(0);
    }
    proof {
        assert('0' <= s@[0] <= '9');
    }
    read_number(s, max)
}

fn ratio_of(value: &[char]) -> (r: Option<u64>)
    ensures
        r == ratio_in(value@),
{
    proof {
        reveal_strlit(".");
    }
    let (whole, frac) = match split_at_first(value, chars_of(".").as_slice()) {
        Some(p) => p,
        None => {
            let w = copy_chars(value, 0, value.len());
            proof {
                assert(w@ =~= value@);
            }
            (w, Vec::new())
        },
    };
    proof {
        assert(match split_once(value@, "."@) {
            Some(p) => p == (whole@, frac@),
            None => whole@ == value@ && frac@ == Seq::<char>::empty(),
        });
    }
    if whole.len() == 0 && frac.len() == 0 {
        return None;
    }
    if !digits_only(whole.as_slice()) || !digits_only(frac.as_slice()) {
        return None;
    }
    if frac.len() > 3 {
        return None;
    }
    let units: u64 = match digits_number(whole.as_slice(), MAX_SEED_RATIO_MILLI) {
        Some(n) => n,
        None => return None,
    };
    proof {
        lemma_three_digits(frac@);
    }
    let f: u64 = match digits_number(frac.as_slice(), 999) {
        Some(n) => n,
        None => return None,
    };
    let milli: u64 = if frac.len() == 0 {
        0
    } else if frac.len() == 1 {
        f * 100
    } else if frac.len() == 2 {
        f * 10
    } else {
        f
    };
    let total: u64 = units * 1000 + milli;
    if total <= MAX_SEED_RATIO_MILLI {
        Some(total)
    } else {
        None
    }
}

/// Parse a ratio written the way a human writes one (`2`, `1.5`, `0.25`) into
/// thousandths. At most three decimal places. The config and the API take
/// ratios by the same grammar.
pub fn parse_seed_ratio(value: &str) -> (r: Option<u64>)
    ensures
        r == ratio_in(value@),
{
    ratio_of(chars_of(value).as_slice())
}

/// Syntactic shape check: absolute path, or `host:port` with a numeric port in
/// range. Says nothing about loopback-ness.
fn looks_like_sam_address(value: &[char]) -> (r: bool)
    ensures
        r == is_sam_shape(value@),
{
    if is_absolute(value) {
        return true;
    }
    match find_last(value, ':') {
        Some(i) => {
            if i == 0 {
                return false;
            }
            proof {
                assert(value.len() as int == value@.len());
            }
            let port = copy_chars(value, i + 1, value.len());
            proof {
                assert(port@ =~= value@.skip(i + 1));
            }
            valid_port(port.as_slice())
        },
        None => false,
    }
}

/// Textual loopback check. Deliberately exact: `localhost` is the single
/// permitted hostname.
fn is_loopback_sam(value: &[char]) -> (r: bool)
    ensures
        r == is_loopback(value@),
{
    if is_absolute(value) {
        return true;
    }
    match find_last(value, ':') {
        Some(i) => {
            let host = copy_chars(value, 0, i);
            proof {
                assert(host@ =~= value@.take(i as int));
            }
            is_text(host.as_slice(), "127.0.0.1") || is_text(host.as_slice(), "localhost")
                || is_text(host.as_slice(), "[::1]")
        },
        None => false,
    }
}

/// Why this build cannot dial `value`, or `None` if it can.
fn unsupported_sam_transport(value: &[char]) -> (r: Option<&'static str>)
    ensures
        match r {
            Some(s) => undialable(value@) == Some(s@),
            None => undialable(value@) is None,
        },
{
    if is_absolute(value) {
        return Some("a unix-socket SAM address is not supported; use host:port");
    }
    if !is_loopback_sam(value) {
        return Some("a remote SAM bridge is not supported");
    }
    None
}

// ---------------------------------------------------------------------------
// Lines.

struct Draft {
    sam_address: Option<(usize, String)>,
    i_know_sam_is_remote: Option<(usize, bool)>,
    data_dir: Option<(usize, String)>,
    api_socket: Option<(usize, String)>,
    ephemeral: Option<(usize, bool)>,
    preallocate: Option<(usize, bool)>,
    peer_limit: Option<(usize, usize)>,
    torrent_peer_limit: Option<(usize, usize)>,
    max_active_downloads: Option<(usize, usize)>,
    max_active_seeds: Option<(usize, usize)>,
    seed_ratio_milli: Option<(usize, u64)>,
    seed_idle_minutes: Option<(usize, u64)>,
    watch_dir: Option<(usize, String)>,
}

spec fn text_slot(s: Option<(usize, String)>) -> Option<(nat, Seq<char>)> {
    match s {
        Some((l, v)) => Some((l as nat, v@)),
        None => None,
    }
}

spec fn plain_slot<T>(s: Option<(usize, T)>) -> Option<(nat, T)> {
    match s {
        Some((l, v)) => Some((l as nat, v)),
        None => None,
    }
}

spec fn keys_of(d: Draft) -> Keys {
    Keys {
        sam_address: text_slot(d.sam_address),
        i_know_sam_is_remote: plain_slot(d.i_know_sam_is_remote),
        data_dir: text_slot(d.data_dir),
        api_socket: text_slot(d.api_socket),
        ephemeral: plain_slot(d.ephemeral),
        preallocate: plain_slot(d.preallocate),
        peer_limit: plain_slot(d.peer_limit),
        torrent_peer_limit: plain_slot(d.torrent_peer_limit),
        max_active_downloads: plain_slot(d.max_active_downloads),
        max_active_seeds: plain_slot(d.max_active_seeds),
        seed_ratio_milli: plain_slot(d.seed_ratio_milli),
        seed_idle_minutes: plain_slot(d.seed_idle_minutes),
        watch_dir: text_slot(d.watch_dir),
    }
}

fn at_line(line: usize, problem: Problem) -> (e: Error)
    ensures
        e@ == Refusal::Line(line as nat, problem@),
{
    Error::Line { line, problem }
}

fn set_text(slot: &mut Option<(usize, String)>, line: usize, value: Option<String>, bad: Problem) -> (r:
    Result<(), Error>)
    ensures
        match r {
            Ok(()) => once(text_slot(*old(slot)), line as nat, opt_text(value), bad@) == Ok::<
                Option<(nat, Seq<char>)>,
                Refusal,
            >(text_slot(*final(slot))),
            Err(e) => once(text_slot(*old(slot)), line as nat, opt_text(value), bad@) == Err::<
                Option<(nat, Seq<char>)>,
                Refusal,
            >(e@),
        },
{
    match value {
        None => Err(at_line(line, bad)),
        Some(v) => {
            if slot.is_some() {
                return Err(at_line(line, Problem::DuplicateKey));
            }
            *slot = Some((line, v));
            Ok(())
        },
    }
}

fn set<T>(slot: &mut Option<(usize, T)>, line: usize, value: Option<T>, bad: Problem) -> (r: Result<
    (),
    Error,
>)
    ensures
        match r {
            Ok(()) => once(plain_slot(*old(slot)), line as nat, value, bad@) == Ok::<
                Option<(nat, T)>,
                Refusal,
            >(plain_slot(*final(slot))),
            Err(e) => once(plain_slot(*old(slot)), line as nat, value, bad@) == Err::<
                Option<(nat, T)>,
                Refusal,
            >(e@),
        },
{
    match value {
        None => Err(at_line(line, bad)),
        Some(v) => {
            if slot.is_some() {
                return Err(at_line(line, Problem::DuplicateKey));
            }
            *slot = Some((line, v));
            Ok(())
        },
    }
}

impl Draft {
    fn new() -> (d: Draft)
        ensures
            keys_of(d) == no_keys(),
    {
        Draft {
            sam_address: None,
            i_know_sam_is_remote: None,
            data_dir: None,
            api_socket: None,
            ephemeral: None,
            preallocate: None,
            peer_limit: None,
            torrent_peer_limit: None,
            max_active_downloads: None,
            max_active_seeds: None,
            seed_ratio_milli: None,
            seed_idle_minutes: None,
            watch_dir: None,
        }
    }

    /// Record one `key value` line, or say what is wrong with it.
    fn accept(&mut self, line: usize, key: &[char], value: &[char]) -> (r: Result<(), Error>)
        ensures
            match r {
                Ok(()) => accepted(keys_of(*old(self)), line as nat, key@, value@) == Ok::<
                    Keys,
                    Refusal,
                >(keys_of(*final(self))),
                Err(e) => accepted(keys_of(*old(self)), line as nat, key@, value@) == Err::<
                    Keys,
                    Refusal,
                >(e@),
            },
    {
        if is_text(key, "sam_address") {
            let v = if looks_like_sam_address(value) {
                Some(string_of(value))
            } else {
                None
            };
            set_text(&mut self.sam_address, line, v, Problem::BadSamAddress)
        } else if is_text(key, "i_know_sam_is_remote") {
            set(&mut self.i_know_sam_is_remote, line, parse_bool(value), Problem::BadBool)
        } else if is_text(key, "data_dir") {
            set_text(&mut self.data_dir, line, absolute(value), Problem::RelativePath)
        } else if is_text(key, "api_socket") {
            set_text(&mut self.api_socket, line, absolute(value), Problem::RelativePath)
        } else if is_text(key, "ephemeral") {
            set(&mut self.ephemeral, line, parse_bool(value), Problem::BadBool)
        } else if is_text(key, "preallocate") {
            set(&mut self.preallocate, line, parse_bool(value), Problem::BadBool)
        } else if is_text(key, "peer_limit") {
            set(&mut self.peer_limit, line, parse_count(value), Problem::BadCount)
        } else if is_text(key, "torrent_peer_limit") {
            set(&mut self.torrent_peer_limit, line, parse_count(value), Problem::BadCount)
        } else if is_text(key, "max_active_downloads") {
            set(&mut self.max_active_downloads, line, parse_count(value), Problem::BadCount)
        } else if is_text(key, "max_active_seeds") {
            set(&mut self.max_active_seeds, line, parse_count(value), Problem::BadCount)
        } else if is_text(key, "seed_ratio") {
            set(&mut self.seed_ratio_milli, line, ratio_of(value), Problem::BadRatio)
        } else if is_text(key, "watch_dir") {
            set_text(&mut self.watch_dir, line, absolute(value), Problem::RelativePath)
        } else if is_text(key, "seed_idle_minutes") {
            set(&mut self.seed_idle_minutes, line, parse_minutes(value), Problem::BadCount)
        } else {
            Err(at_line(line, Problem::UnknownKey(string_of(key))))
        }
    }

    fn read_line(&mut self, line: usize, raw: &[char]) -> (r: Result<(), Error>)
        ensures
            match r {
                Ok(()) => line_read(keys_of(*old(self)), line as nat, raw@) == Ok::<Keys, Refusal>(
                    keys_of(*final(self)),
                ),
                Err(e) => line_read(keys_of(*old(self)), line as nat, raw@) == Err::<Keys, Refusal>(
                    e@,
                ),
            },
    {
        let t = trimmed(raw);
        if t.len() == 0 || t[0] == '#' {
            return Ok(());
        }
        let i: usize = find_space(t.as_slice());
        if i >= t.len() {
            return Err(at_line(line, Problem::MissingValue));
        }
        let key = copy_chars(t.as_slice(), 0, i);
        let rest = copy_chars(t.as_slice(), i + 1, t.len());
        let value = trimmed(rest.as_slice());
        proof {
            assert(key@ =~= t@.take(i as int));
            assert(rest@ =~= t@.skip(i + 1));
        }
        if value.len() == 0 {
            return Err(at_line(line, Problem::MissingValue));
        }
        self.accept(line, key.as_slice(), value.as_slice())
    }
}

/// The first position that holds white space, or the length.
pub(crate) fn find_space(s: &[char]) -> (i: usize)
    ensures
        i == space_at(s@, 0),
        i <= s@.len(),
{
    let mut i: usize = 0;
    while i < s.len()
        invariant
            i <= s@.len(),
            space_at(s@, 0) == space_at(s@, i as int),
        decreases s.len() - i,
    {
        if is_space_char(s[i]) {
            return i;
        }
        i = i + 1;
    }
    s.len()
}

proof fn lemma_lines_fail(lines: Seq<Seq<char>>, k: int, n: int)
    requires
        k <= n,
        lines_read(lines, k) is Err,
    ensures
        lines_read(lines, n) == lines_read(lines, k),
    decreases n - k,
{
    if k < n {
        lemma_lines_fail(lines, k, n - 1);
    }
}

impl Config {
    /// Parse configuration text against environment-derived defaults. Empty
    /// text yields the fully working default configuration.
    ///
    /// Refused, with the line number: unknown or duplicate keys, missing
    /// values, bad booleans, relative paths, a non-loopback SAM address
    /// without the explicit override, or one that cannot be dialed.
    pub fn parse(text: &str, defaults: &Defaults) -> (r: Result<Config, Error>)
        ensures
            match r {
                Ok(c) => settings_in(text@, defaults@) == Ok::<Settings, Refusal>(c@),
                Err(e) => settings_in(text@, defaults@) == Err::<Settings, Refusal>(e@),
            },
    {
        proof {
            reveal_strlit("\n");
        }
        let lines = split_on(chars_of(text).as_slice(), chars_of("\n").as_slice());
        let ghost ls = texts(lines@);
        let mut draft = Draft::new();
        let mut i: usize = 0;
        while i < lines.len()
            invariant
                i <= lines@.len(),
                ls == texts(lines@),
                ls == split(text@, "\n"@),
                lines_read(ls, i as int) == Ok::<Keys, Refusal>(keys_of(draft)),
            decreases lines.len() - i,
        {
            proof {
                assert(ls[i as int] == lines@[i as int]@);
            }
            match draft.read_line(i + 1, lines[i].as_slice()) {
                Ok(()) => {},
                Err(e) => {
                    proof {
                        lemma_lines_fail(ls, i as int + 1, ls.len() as int);
                    }
                    return Err(e);
                },
            }
            i = i + 1;
        }
        Config::settle(draft, defaults)
    }

    fn settle(draft: Draft, defaults: &Defaults) -> (r: Result<Config, Error>)
        ensures
            match r {
                Ok(c) => settled(keys_of(draft), defaults@) == Ok::<Settings, Refusal>(c@),
                Err(e) => settled(keys_of(draft), defaults@) == Err::<Settings, Refusal>(e@),
            },
    {
        let i_know_sam_is_remote = match draft.i_know_sam_is_remote {
            Some((_, v)) => v,
            None => false,
        };
        let (sam_line, sam_address) = match draft.sam_address {
            Some((l, v)) => (l, v),
            None => (0usize, DEFAULT_SAM_ADDRESS.to_owned()),
        };
        let sam = chars_of(sam_address.as_str());
        if !i_know_sam_is_remote && !is_loopback_sam(sam.as_slice()) {
            return Err(at_line(sam_line, Problem::RemoteSam));
        }
        // Refuse here what the runtime cannot do, rather than accepting it and
        // doing something else.
        if let Some(what) = unsupported_sam_transport(sam.as_slice()) {
            return Err(at_line(sam_line, Problem::UnsupportedSamTransport(what)));
        }
        let data_dir = match draft.data_dir {
            Some((_, v)) => v,
            None => join(defaults.data_home.as_str(), "clove"),
        };
        // A directory of its own under the runtime directory, so that a grant
        // covering the socket's parent covers nothing else.
        let api_socket = match draft.api_socket {
            Some((_, v)) => v,
            None => match &defaults.runtime_dir {
                Some(dir) => join(dir.as_str(), "clove/clove.sock"),
                None => join(data_dir.as_str(), "clove.sock"),
            },
        };
        Ok(
            Config {
                sam_address,
                i_know_sam_is_remote,
                data_dir,
                api_socket,
                ephemeral: match draft.ephemeral {
                    Some((_, v)) => v,
                    None => false,
                },
                preallocate: match draft.preallocate {
                    Some((_, v)) => v,
                    None => false,
                },
                peer_limit: match draft.peer_limit {
                    Some((_, v)) => v,
                    None => DEFAULT_PEER_LIMIT,
                },
                torrent_peer_limit: match draft.torrent_peer_limit {
                    Some((_, v)) => v,
                    None => DEFAULT_TORRENT_PEER_LIMIT,
                },
                max_active_downloads: match draft.max_active_downloads {
                    Some((_, v)) => v,
                    None => DEFAULT_MAX_ACTIVE_DOWNLOADS,
                },
                max_active_seeds: match draft.max_active_seeds {
                    Some((_, v)) => v,
                    None => DEFAULT_MAX_ACTIVE_SEEDS,
                },
                seed_ratio_milli: match draft.seed_ratio_milli {
                    Some((_, v)) => v,
                    None => 0,
                },
                seed_idle_minutes: match draft.seed_idle_minutes {
                    Some((_, v)) => v,
                    None => 0,
                },
                watch_dir: match draft.watch_dir {
                    Some((_, v)) => Some(v),
                    None => None,
                },
            },
        )
    }
}

// ---------------------------------------------------------------------------
// Messages.

/// What is wrong with a line, in words.
pub open spec fn fault_text(f: Fault) -> Seq<char> {
    match f {
        Fault::UnknownKey(k) => "unknown key \""@ + k + "\""@,
        Fault::MissingValue => "key has no value"@,
        Fault::DuplicateKey => "key already set earlier in the file"@,
        Fault::BadBool => "expected \"yes\" or \"no\""@,
        Fault::BadCount => "expected a number from 1 to "@ + decimal_text(MAX_PEER_LIMIT as nat),
        Fault::BadRatio => "expected a ratio like 2 or 1.75, from 0 (unlimited) to "@
            + decimal_text((MAX_SEED_RATIO_MILLI / 1000) as nat),
        Fault::BadSamAddress => "sam_address must be host:port or an absolute socket path"@,
        Fault::RemoteSam =>
            "sam_address is not loopback; if you really run SAM remotely, set i_know_sam_is_remote yes (dangerous: your traffic to the router is unprotected)"@,
        Fault::RelativePath => "path must be absolute"@,
        Fault::UnsupportedSamTransport(what) => "sam_address: "@ + what
            + " (this build dials 127.0.0.1 only; see clove.conf(5))"@,
    }
}

impl Problem {
    /// What is wrong, in words.
    pub fn message(&self) -> (r: String)
        ensures
            r@ == fault_text(self@),
    {
        match self {
            Problem::UnknownKey(key) => {
                let mut s = "unknown key \"".to_owned();
                s.append(key.as_str());
                s.append("\"");
                s
            },
            Problem::MissingValue => "key has no value".to_owned(),
            Problem::DuplicateKey => "key already set earlier in the file".to_owned(),
            Problem::BadBool => "expected \"yes\" or \"no\"".to_owned(),
            Problem::BadCount => {
                let mut s = "expected a number from 1 to ".to_owned();
                push_decimal(&mut s, MAX_PEER_LIMIT as u64);
                s
            },
            Problem::BadRatio => {
                let mut s = "expected a ratio like 2 or 1.75, from 0 (unlimited) to ".to_owned();
                push_decimal(&mut s, MAX_SEED_RATIO_MILLI / 1000);
                s
            },
            Problem::BadSamAddress =>
                "sam_address must be host:port or an absolute socket path".to_owned(),
            Problem::RemoteSam =>
                "sam_address is not loopback; if you really run SAM remotely, set i_know_sam_is_remote yes (dangerous: your traffic to the router is unprotected)".to_owned(),
            Problem::RelativePath => "path must be absolute".to_owned(),
            Problem::UnsupportedSamTransport(what) => {
                let mut s = "sam_address: ".to_owned();
                s.append(what);
                s.append(" (this build dials 127.0.0.1 only; see clove.conf(5))");
                s
            },
        }
    }
}

impl Error {
    /// What is wrong, and where, in words.
    pub fn message(&self) -> (r: String)
        ensures
            r@ == (match self@ {
                Refusal::NoHome =>
                    "config: neither XDG_DATA_HOME nor HOME is set; set one or use data_dir"@,
                Refusal::Line(line, fault) => "config: line "@ + decimal_text(line) + ": "@
                    + fault_text(fault),
            }),
    {
        match self {
            Error::NoHome =>
                "config: neither XDG_DATA_HOME nor HOME is set; set one or use data_dir".to_owned(),
            Error::Line { line, problem } => {
                let mut s = "config: line ".to_owned();
                push_decimal(&mut s, *line as u64);
                s.append(": ");
                s.append(problem.message().as_str());
                s
            },
        }
    }
}

// ---------------------------------------------------------------------------
// What parsing promises.

/// A configuration that is accepted has a SAM address this build can dial: a
/// loopback one, and no socket path, whatever the override says.
pub proof fn law_accepted_config_can_be_dialed(text: Seq<char>, d: Places, s: Settings)
    requires
        settings_in(text, d) == Ok::<Settings, Refusal>(s),
    ensures
        is_loopback(s.sam_address),
        !(s.sam_address.len() > 0 && s.sam_address[0] == '/'),
{
}

/// Every count in an accepted configuration is at least one and within its
/// bound.
pub proof fn law_accepted_limits_are_in_range(text: Seq<char>, d: Places, s: Settings)
    requires
        settings_in(text, d) == Ok::<Settings, Refusal>(s),
    ensures
        1 <= s.peer_limit <= MAX_PEER_LIMIT,
        1 <= s.torrent_peer_limit <= MAX_PEER_LIMIT,
        1 <= s.max_active_downloads <= MAX_PEER_LIMIT,
        1 <= s.max_active_seeds <= MAX_PEER_LIMIT,
        s.seed_ratio_milli <= MAX_SEED_RATIO_MILLI,
        s.seed_idle_minutes <= MAX_SEED_IDLE_MINUTES,
{
    let lines = split(text, "\n"@);
    lemma_keys_in_range(lines, lines.len() as int);
}

spec fn in_range(k: Keys) -> bool {
    &&& k.peer_limit matches Some((l, n)) ==> 1 <= n <= MAX_PEER_LIMIT
    &&& k.torrent_peer_limit matches Some((l, n)) ==> 1 <= n <= MAX_PEER_LIMIT
    &&& k.max_active_downloads matches Some((l, n)) ==> 1 <= n <= MAX_PEER_LIMIT
    &&& k.max_active_seeds matches Some((l, n)) ==> 1 <= n <= MAX_PEER_LIMIT
    &&& k.seed_ratio_milli matches Some((l, n)) ==> n <= MAX_SEED_RATIO_MILLI
    &&& k.seed_idle_minutes matches Some((l, n)) ==> n <= MAX_SEED_IDLE_MINUTES
}

proof fn lemma_keys_in_range(lines: Seq<Seq<char>>, n: int)
    ensures
        lines_read(lines, n) matches Ok(k) ==> in_range(k),
    decreases n,
{
    if n > 0 {
        lemma_keys_in_range(lines, n - 1);
    }
}

// ---------------------------------------------------------------------------
// What each line sets.

/// Whether a line, without the white space around it, is a key, white space,
/// and a value that itself neither starts nor ends with white space.
pub open spec fn says(raw: Seq<char>, key: Seq<char>, value: Seq<char>) -> bool {
    exists|gap: Seq<char>|
        trim(raw) == #[trigger] (key + gap) + value && gap.len() > 0 && value.len() > 0
            && !is_space(value[0]) && forall|i: int| 0 <= i < gap.len() ==> is_space(gap[i])
}

spec fn is_key(key: Seq<char>) -> bool {
    key.len() > 0 && key[0] != '#' && forall|i: int| 0 <= i < key.len() ==> !is_space(key[i])
}

spec fn key_value(raw: Seq<char>) -> Option<(Seq<char>, Seq<char>)> {
    let t = trim(raw);
    let i = space_at(t, 0);
    if t.len() == 0 || t[0] == '#' || i >= t.len() || trim(t.skip(i + 1)).len() == 0 {
        None
    } else {
        Some((t.take(i), trim(t.skip(i + 1))))
    }
}

pub proof fn lemma_space_at(s: Seq<char>, i: int)
    requires
        0 <= i <= s.len(),
    ensures
        i <= space_at(s, i) <= s.len(),
        forall|j: int| i <= j < space_at(s, i) ==> !is_space(#[trigger] s[j]),
        space_at(s, i) < s.len() ==> is_space(s[space_at(s, i)]),
    decreases s.len() - i,
{
    if i < s.len() && !is_space(s[i]) {
        lemma_space_at(s, i + 1);
    }
}

proof fn lemma_said_is_read(raw: Seq<char>, key: Seq<char>, value: Seq<char>)
    requires
        is_key(key),
        says(raw, key, value),
    ensures
        key_value(raw) == Some((key, value)),
{
    let t = trim(raw);
    let gap = choose|gap: Seq<char>|
        t == #[trigger] (key + gap) + value && gap.len() > 0 && value.len() > 0 && !is_space(
            value[0],
        ) && forall|i: int| 0 <= i < gap.len() ==> is_space(gap[i]);
    let outer = law_trimmed_text(raw);
    assert(t.last() == raw[outer.1 - 1]);
    assert(t.last() == value.last());
    lemma_space_at(t, 0);
    let i = space_at(t, 0);
    let n = key.len() as int;
    assert(t[n] == gap[0]);
    assert forall|j: int| 0 <= j < n implies !is_space(#[trigger] t[j]) by {
        assert(t[j] == key[j]);
    }
    assert(i == n);
    assert(t.take(i) =~= key);
    let rest = t.skip(i + 1);
    assert(rest =~= gap.skip(1) + value);
    let g = gap.len() - 1;
    assert forall|j: int| 0 <= j < g implies is_space(#[trigger] rest[j]) by {
        assert(rest[j] == gap[j + 1]);
    }
    assert(rest[g] == value[0]);
    let cut = law_trimmed_text(rest);
    assert(rest.last() == value.last());
    assert(cut.0 <= g);
    assert(cut.1 == rest.len());
    assert(cut.0 == g);
    assert(rest.subrange(g, rest.len() as int) =~= value);
    assert(t[0] == key[0]);
}

proof fn lemma_read_was_said(raw: Seq<char>, key: Seq<char>, value: Seq<char>)
    requires
        key_value(raw) == Some((key, value)),
    ensures
        says(raw, key, value),
{
    let t = trim(raw);
    let i = space_at(t, 0);
    lemma_space_at(t, 0);
    let outer = law_trimmed_text(raw);
    assert(t.last() == raw[outer.1 - 1]);
    let rest = t.skip(i + 1);
    let cut = law_trimmed_text(rest);
    assert(rest.last() == t.last());
    assert(cut.1 == rest.len());
    let gap = t.subrange(i, i + 1 + cut.0);
    assert(t =~= (key + gap) + value);
    assert forall|j: int| 0 <= j < gap.len() implies is_space(gap[j]) by {
        if j > 0 {
            assert(gap[j] == rest[j - 1]);
        } else {
            assert(gap[0] == t[i]);
        }
    }
    assert(value[0] == rest[cut.0]);
}

spec fn slot_holds<T>(
    slot: Option<(nat, T)>,
    lines: Seq<Seq<char>>,
    n: int,
    key: Seq<char>,
    read: spec_fn(Seq<char>) -> Option<T>,
) -> bool {
    &&& slot matches Some((l, x)) ==> {
        &&& 1 <= l <= n
        &&& key_value(lines[l - 1]) is Some
        &&& key_value(lines[l - 1])->Some_0.0 == key
        &&& read(key_value(lines[l - 1])->Some_0.1) == Some(x)
    }
    &&& forall|i: int|
        0 <= i < n && (#[trigger] key_value(lines[i])) is Some && key_value(lines[i])->Some_0.0
            == key ==> slot is Some && slot->Some_0.0 == i + 1
}

proof fn lemma_slot_step<T>(
    slot: Option<(nat, T)>,
    next: Option<(nat, T)>,
    lines: Seq<Seq<char>>,
    n: int,
    key: Seq<char>,
    read: spec_fn(Seq<char>) -> Option<T>,
    bad: Fault,
)
    requires
        n > 0,
        slot_holds(slot, lines, n - 1, key, read),
        key_value(lines[n - 1]) is Some && key_value(lines[n - 1])->Some_0.0 == key ==> once(
            slot,
            n as nat,
            read(key_value(lines[n - 1])->Some_0.1),
            bad,
        ) == Ok::<Option<(nat, T)>, Refusal>(next),
        !(key_value(lines[n - 1]) is Some && key_value(lines[n - 1])->Some_0.0 == key) ==> next
            == slot,
    ensures
        slot_holds(next, lines, n, key, read),
{
    if key_value(lines[n - 1]) is Some && key_value(lines[n - 1])->Some_0.0 == key {
        assert(slot is None);
        assert forall|i: int|
            0 <= i < n && (#[trigger] key_value(lines[i])) is Some && key_value(lines[i])->Some_0.0
                == key implies i == n - 1 by {}
    }
}

proof fn lemma_keys_differ()
    ensures
        is_key("sam_address"@),
        "sam_address"@.len() == 11,
        "sam_address"@[0] == 's',
        is_key("i_know_sam_is_remote"@),
        "i_know_sam_is_remote"@.len() == 20,
        "i_know_sam_is_remote"@[0] == 'i',
        is_key("data_dir"@),
        "data_dir"@.len() == 8,
        "data_dir"@[0] == 'd',
        is_key("api_socket"@),
        "api_socket"@.len() == 10,
        "api_socket"@[0] == 'a',
        is_key("ephemeral"@),
        "ephemeral"@.len() == 9,
        "ephemeral"@[0] == 'e',
        is_key("preallocate"@),
        "preallocate"@.len() == 11,
        "preallocate"@[0] == 'p',
        is_key("peer_limit"@),
        "peer_limit"@.len() == 10,
        "peer_limit"@[0] == 'p',
        is_key("torrent_peer_limit"@),
        "torrent_peer_limit"@.len() == 18,
        "torrent_peer_limit"@[0] == 't',
        is_key("max_active_downloads"@),
        "max_active_downloads"@.len() == 20,
        "max_active_downloads"@[0] == 'm',
        is_key("max_active_seeds"@),
        "max_active_seeds"@.len() == 16,
        "max_active_seeds"@[0] == 'm',
        is_key("seed_ratio"@),
        "seed_ratio"@.len() == 10,
        "seed_ratio"@[0] == 's',
        is_key("watch_dir"@),
        "watch_dir"@.len() == 9,
        "watch_dir"@[0] == 'w',
        is_key("seed_idle_minutes"@),
        "seed_idle_minutes"@.len() == 17,
        "seed_idle_minutes"@[0] == 's',
{
    reveal_strlit("sam_address");
    reveal_strlit("i_know_sam_is_remote");
    reveal_strlit("data_dir");
    reveal_strlit("api_socket");
    reveal_strlit("ephemeral");
    reveal_strlit("preallocate");
    reveal_strlit("peer_limit");
    reveal_strlit("torrent_peer_limit");
    reveal_strlit("max_active_downloads");
    reveal_strlit("max_active_seeds");
    reveal_strlit("seed_ratio");
    reveal_strlit("watch_dir");
    reveal_strlit("seed_idle_minutes");
}

proof fn lemma_accepted_step(k: Keys, line: nat, key: Seq<char>, v: Seq<char>, next: Keys)
    requires
        accepted(k, line, key, v) == Ok::<Keys, Refusal>(next),
    ensures
        key == "sam_address"@ ==> once(k.sam_address, line, sam_in(v), Fault::BadSamAddress) == Ok::<
            Option<(nat, Seq<char>)>,
            Refusal,
        >(next.sam_address),
        key != "sam_address"@ ==> next.sam_address == k.sam_address,
        key == "i_know_sam_is_remote"@ ==> once(k.i_know_sam_is_remote, line, bool_in(v), Fault::BadBool) == Ok::<
            Option<(nat, bool)>,
            Refusal,
        >(next.i_know_sam_is_remote),
        key != "i_know_sam_is_remote"@ ==> next.i_know_sam_is_remote == k.i_know_sam_is_remote,
        key == "data_dir"@ ==> once(k.data_dir, line, path_in(v), Fault::RelativePath) == Ok::<
            Option<(nat, Seq<char>)>,
            Refusal,
        >(next.data_dir),
        key != "data_dir"@ ==> next.data_dir == k.data_dir,
        key == "api_socket"@ ==> once(k.api_socket, line, path_in(v), Fault::RelativePath) == Ok::<
            Option<(nat, Seq<char>)>,
            Refusal,
        >(next.api_socket),
        key != "api_socket"@ ==> next.api_socket == k.api_socket,
        key == "ephemeral"@ ==> once(k.ephemeral, line, bool_in(v), Fault::BadBool) == Ok::<
            Option<(nat, bool)>,
            Refusal,
        >(next.ephemeral),
        key != "ephemeral"@ ==> next.ephemeral == k.ephemeral,
        key == "preallocate"@ ==> once(k.preallocate, line, bool_in(v), Fault::BadBool) == Ok::<
            Option<(nat, bool)>,
            Refusal,
        >(next.preallocate),
        key != "preallocate"@ ==> next.preallocate == k.preallocate,
        key == "peer_limit"@ ==> once(k.peer_limit, line, count_in(v), Fault::BadCount) == Ok::<
            Option<(nat, usize)>,
            Refusal,
        >(next.peer_limit),
        key != "peer_limit"@ ==> next.peer_limit == k.peer_limit,
        key == "torrent_peer_limit"@ ==> once(k.torrent_peer_limit, line, count_in(v), Fault::BadCount) == Ok::<
            Option<(nat, usize)>,
            Refusal,
        >(next.torrent_peer_limit),
        key != "torrent_peer_limit"@ ==> next.torrent_peer_limit == k.torrent_peer_limit,
        key == "max_active_downloads"@ ==> once(k.max_active_downloads, line, count_in(v), Fault::BadCount) == Ok::<
            Option<(nat, usize)>,
            Refusal,
        >(next.max_active_downloads),
        key != "max_active_downloads"@ ==> next.max_active_downloads == k.max_active_downloads,
        key == "max_active_seeds"@ ==> once(k.max_active_seeds, line, count_in(v), Fault::BadCount) == Ok::<
            Option<(nat, usize)>,
            Refusal,
        >(next.max_active_seeds),
        key != "max_active_seeds"@ ==> next.max_active_seeds == k.max_active_seeds,
        key == "seed_ratio"@ ==> once(k.seed_ratio_milli, line, ratio_in(v), Fault::BadRatio) == Ok::<
            Option<(nat, u64)>,
            Refusal,
        >(next.seed_ratio_milli),
        key != "seed_ratio"@ ==> next.seed_ratio_milli == k.seed_ratio_milli,
        key == "watch_dir"@ ==> once(k.watch_dir, line, path_in(v), Fault::RelativePath) == Ok::<
            Option<(nat, Seq<char>)>,
            Refusal,
        >(next.watch_dir),
        key != "watch_dir"@ ==> next.watch_dir == k.watch_dir,
        key == "seed_idle_minutes"@ ==> once(k.seed_idle_minutes, line, minutes_in(v), Fault::BadCount) == Ok::<
            Option<(nat, u64)>,
            Refusal,
        >(next.seed_idle_minutes),
        key != "seed_idle_minutes"@ ==> next.seed_idle_minutes == k.seed_idle_minutes,
{
    lemma_keys_differ();
}

spec fn keys_hold(k: Keys, lines: Seq<Seq<char>>, n: int) -> bool {
    &&& slot_holds(k.sam_address, lines, n, "sam_address"@, |v: Seq<char>| sam_in(v))
    &&& slot_holds(k.i_know_sam_is_remote, lines, n, "i_know_sam_is_remote"@, |v: Seq<char>| bool_in(v))
    &&& slot_holds(k.data_dir, lines, n, "data_dir"@, |v: Seq<char>| path_in(v))
    &&& slot_holds(k.api_socket, lines, n, "api_socket"@, |v: Seq<char>| path_in(v))
    &&& slot_holds(k.ephemeral, lines, n, "ephemeral"@, |v: Seq<char>| bool_in(v))
    &&& slot_holds(k.preallocate, lines, n, "preallocate"@, |v: Seq<char>| bool_in(v))
    &&& slot_holds(k.peer_limit, lines, n, "peer_limit"@, |v: Seq<char>| count_in(v))
    &&& slot_holds(k.torrent_peer_limit, lines, n, "torrent_peer_limit"@, |v: Seq<char>| count_in(v))
    &&& slot_holds(k.max_active_downloads, lines, n, "max_active_downloads"@, |v: Seq<char>| count_in(v))
    &&& slot_holds(k.max_active_seeds, lines, n, "max_active_seeds"@, |v: Seq<char>| count_in(v))
    &&& slot_holds(k.seed_ratio_milli, lines, n, "seed_ratio"@, |v: Seq<char>| ratio_in(v))
    &&& slot_holds(k.watch_dir, lines, n, "watch_dir"@, |v: Seq<char>| path_in(v))
    &&& slot_holds(k.seed_idle_minutes, lines, n, "seed_idle_minutes"@, |v: Seq<char>| minutes_in(v))
}

#[verifier::rlimit(40)]
proof fn lemma_keys_hold(lines: Seq<Seq<char>>, n: int)
    requires
        0 <= n <= lines.len(),
    ensures
        lines_read(lines, n) matches Ok(k) ==> keys_hold(k, lines, n),
    decreases n,
{
    if n > 0 {
        lemma_keys_hold(lines, n - 1);
        if lines_read(lines, n) is Ok {
            let k = lines_read(lines, n - 1)->Ok_0;
            let next = lines_read(lines, n)->Ok_0;
            let kv = key_value(lines[n - 1]);
            if kv is Some {
                lemma_accepted_step(k, n as nat, kv->Some_0.0, kv->Some_0.1, next);
            } else {
                assert(next == k);
            }
            lemma_slot_step(
                k.sam_address,
                next.sam_address,
                lines,
                n,
                "sam_address"@,
                |v: Seq<char>| sam_in(v),
                Fault::BadSamAddress,
            );
            lemma_slot_step(
                k.i_know_sam_is_remote,
                next.i_know_sam_is_remote,
                lines,
                n,
                "i_know_sam_is_remote"@,
                |v: Seq<char>| bool_in(v),
                Fault::BadBool,
            );
            lemma_slot_step(
                k.data_dir,
                next.data_dir,
                lines,
                n,
                "data_dir"@,
                |v: Seq<char>| path_in(v),
                Fault::RelativePath,
            );
            lemma_slot_step(
                k.api_socket,
                next.api_socket,
                lines,
                n,
                "api_socket"@,
                |v: Seq<char>| path_in(v),
                Fault::RelativePath,
            );
            lemma_slot_step(
                k.ephemeral,
                next.ephemeral,
                lines,
                n,
                "ephemeral"@,
                |v: Seq<char>| bool_in(v),
                Fault::BadBool,
            );
            lemma_slot_step(
                k.preallocate,
                next.preallocate,
                lines,
                n,
                "preallocate"@,
                |v: Seq<char>| bool_in(v),
                Fault::BadBool,
            );
            lemma_slot_step(
                k.peer_limit,
                next.peer_limit,
                lines,
                n,
                "peer_limit"@,
                |v: Seq<char>| count_in(v),
                Fault::BadCount,
            );
            lemma_slot_step(
                k.torrent_peer_limit,
                next.torrent_peer_limit,
                lines,
                n,
                "torrent_peer_limit"@,
                |v: Seq<char>| count_in(v),
                Fault::BadCount,
            );
            lemma_slot_step(
                k.max_active_downloads,
                next.max_active_downloads,
                lines,
                n,
                "max_active_downloads"@,
                |v: Seq<char>| count_in(v),
                Fault::BadCount,
            );
            lemma_slot_step(
                k.max_active_seeds,
                next.max_active_seeds,
                lines,
                n,
                "max_active_seeds"@,
                |v: Seq<char>| count_in(v),
                Fault::BadCount,
            );
            lemma_slot_step(
                k.seed_ratio_milli,
                next.seed_ratio_milli,
                lines,
                n,
                "seed_ratio"@,
                |v: Seq<char>| ratio_in(v),
                Fault::BadRatio,
            );
            lemma_slot_step(
                k.watch_dir,
                next.watch_dir,
                lines,
                n,
                "watch_dir"@,
                |v: Seq<char>| path_in(v),
                Fault::RelativePath,
            );
            lemma_slot_step(
                k.seed_idle_minutes,
                next.seed_idle_minutes,
                lines,
                n,
                "seed_idle_minutes"@,
                |v: Seq<char>| minutes_in(v),
                Fault::BadCount,
            );
        }
    }
}

/// A line of an accepted configuration sets what its key names to what its
/// value says, and nothing else sets it.
pub proof fn law_line_sets_what_its_key_names(
    text: Seq<char>,
    d: Places,
    s: Settings,
    i: int,
    v: Seq<char>,
)
    requires
        settings_in(text, d) == Ok::<Settings, Refusal>(s),
        0 <= i < split(text, "\n"@).len(),
    ensures
        ({
            let line = split(text, "\n"@)[i];
            &&& says(line, "sam_address"@, v) ==> s.sam_address == v
            &&& says(line, "i_know_sam_is_remote"@, v) ==> (v == "yes"@ && s.i_know_sam_is_remote) || (v == "no"@
                && !s.i_know_sam_is_remote)
            &&& says(line, "data_dir"@, v) ==> s.data_dir == v && v[0] == '/'
            &&& says(line, "api_socket"@, v) ==> s.api_socket == v && v[0] == '/'
            &&& says(line, "ephemeral"@, v) ==> (v == "yes"@ && s.ephemeral) || (v == "no"@
                && !s.ephemeral)
            &&& says(line, "preallocate"@, v) ==> (v == "yes"@ && s.preallocate) || (v == "no"@
                && !s.preallocate)
            &&& says(line, "peer_limit"@, v) ==> all_digits(v) && s.peer_limit == dec_value(v)
            &&& says(line, "torrent_peer_limit"@, v) ==> all_digits(v) && s.torrent_peer_limit == dec_value(v)
            &&& says(line, "max_active_downloads"@, v) ==> all_digits(v) && s.max_active_downloads == dec_value(v)
            &&& says(line, "max_active_seeds"@, v) ==> all_digits(v) && s.max_active_seeds == dec_value(v)
            &&& says(line, "seed_ratio"@, v) ==> ratio_in(v) == Some(s.seed_ratio_milli)
            &&& says(line, "watch_dir"@, v) ==> s.watch_dir == Some(v) && v[0] == '/'
            &&& says(line, "seed_idle_minutes"@, v) ==> number_in(v, 100_000) == Some(s.seed_idle_minutes as nat)
        }),
{
    let lines = split(text, "\n"@);
    lemma_keys_hold(lines, lines.len() as int);
    lemma_keys_differ();
    if says(lines[i], "sam_address"@, v) {
        lemma_said_is_read(lines[i], "sam_address"@, v);
    }
    if says(lines[i], "i_know_sam_is_remote"@, v) {
        lemma_said_is_read(lines[i], "i_know_sam_is_remote"@, v);
    }
    if says(lines[i], "data_dir"@, v) {
        lemma_said_is_read(lines[i], "data_dir"@, v);
    }
    if says(lines[i], "api_socket"@, v) {
        lemma_said_is_read(lines[i], "api_socket"@, v);
    }
    if says(lines[i], "ephemeral"@, v) {
        lemma_said_is_read(lines[i], "ephemeral"@, v);
    }
    if says(lines[i], "preallocate"@, v) {
        lemma_said_is_read(lines[i], "preallocate"@, v);
    }
    if says(lines[i], "peer_limit"@, v) {
        lemma_said_is_read(lines[i], "peer_limit"@, v);
    }
    if says(lines[i], "torrent_peer_limit"@, v) {
        lemma_said_is_read(lines[i], "torrent_peer_limit"@, v);
    }
    if says(lines[i], "max_active_downloads"@, v) {
        lemma_said_is_read(lines[i], "max_active_downloads"@, v);
    }
    if says(lines[i], "max_active_seeds"@, v) {
        lemma_said_is_read(lines[i], "max_active_seeds"@, v);
    }
    if says(lines[i], "seed_ratio"@, v) {
        lemma_said_is_read(lines[i], "seed_ratio"@, v);
    }
    if says(lines[i], "watch_dir"@, v) {
        lemma_said_is_read(lines[i], "watch_dir"@, v);
    }
    if says(lines[i], "seed_idle_minutes"@, v) {
        lemma_said_is_read(lines[i], "seed_idle_minutes"@, v);
    }
}

/// Whether some line of a text is about a key.
pub open spec fn mentions(text: Seq<char>, key: Seq<char>) -> bool {
    exists|i: int, v: Seq<char>|
        0 <= i < split(text, "\n"@).len() && #[trigger] says(split(text, "\n"@)[i], key, v)
}

/// What no line of an accepted configuration is about has its default: the
/// router's bridge on this machine, everything under the data home but for the
/// socket, which is under the runtime directory where there is one, nothing
/// switched on, and the limits.
pub proof fn law_unmentioned_settings_have_defaults(text: Seq<char>, d: Places, s: Settings)
    requires
        settings_in(text, d) == Ok::<Settings, Refusal>(s),
    ensures
        !mentions(text, "sam_address"@) ==> s.sam_address == "127.0.0.1:7656"@,
        !mentions(text, "i_know_sam_is_remote"@) ==> !s.i_know_sam_is_remote,
        !mentions(text, "data_dir"@) ==> s.data_dir == (if d.data_home.len() == 0 {
            "clove"@
        } else if d.data_home.last() == '/' {
            d.data_home + "clove"@
        } else {
            d.data_home + "/"@ + "clove"@
        }),
        !mentions(text, "api_socket"@) ==> ({
            let dir = match d.runtime_dir {
                Some(r) => r,
                None => s.data_dir,
            };
            let rel = match d.runtime_dir {
                Some(_) => "clove/clove.sock"@,
                None => "clove.sock"@,
            };
            s.api_socket == (if dir.len() == 0 {
                rel
            } else if dir.last() == '/' {
                dir + rel
            } else {
                dir + "/"@ + rel
            })
        }),
        !mentions(text, "ephemeral"@) ==> !s.ephemeral,
        !mentions(text, "preallocate"@) ==> !s.preallocate,
        !mentions(text, "peer_limit"@) ==> s.peer_limit == 200,
        !mentions(text, "torrent_peer_limit"@) ==> s.torrent_peer_limit == 50,
        !mentions(text, "max_active_downloads"@) ==> s.max_active_downloads == 3,
        !mentions(text, "max_active_seeds"@) ==> s.max_active_seeds == 5,
        !mentions(text, "seed_ratio"@) ==> s.seed_ratio_milli == 0,
        !mentions(text, "watch_dir"@) ==> s.watch_dir is None,
        !mentions(text, "seed_idle_minutes"@) ==> s.seed_idle_minutes == 0,
{
    let lines = split(text, "\n"@);
    lemma_keys_hold(lines, lines.len() as int);
    let k = lines_read(lines, lines.len() as int)->Ok_0;
    if k.sam_address is Some {
        let l = k.sam_address->Some_0.0 - 1;
        lemma_read_was_said(lines[l], "sam_address"@, key_value(lines[l])->Some_0.1);
    }
    if k.i_know_sam_is_remote is Some {
        let l = k.i_know_sam_is_remote->Some_0.0 - 1;
        lemma_read_was_said(lines[l], "i_know_sam_is_remote"@, key_value(lines[l])->Some_0.1);
    }
    if k.data_dir is Some {
        let l = k.data_dir->Some_0.0 - 1;
        lemma_read_was_said(lines[l], "data_dir"@, key_value(lines[l])->Some_0.1);
    }
    if k.api_socket is Some {
        let l = k.api_socket->Some_0.0 - 1;
        lemma_read_was_said(lines[l], "api_socket"@, key_value(lines[l])->Some_0.1);
    }
    if k.ephemeral is Some {
        let l = k.ephemeral->Some_0.0 - 1;
        lemma_read_was_said(lines[l], "ephemeral"@, key_value(lines[l])->Some_0.1);
    }
    if k.preallocate is Some {
        let l = k.preallocate->Some_0.0 - 1;
        lemma_read_was_said(lines[l], "preallocate"@, key_value(lines[l])->Some_0.1);
    }
    if k.peer_limit is Some {
        let l = k.peer_limit->Some_0.0 - 1;
        lemma_read_was_said(lines[l], "peer_limit"@, key_value(lines[l])->Some_0.1);
    }
    if k.torrent_peer_limit is Some {
        let l = k.torrent_peer_limit->Some_0.0 - 1;
        lemma_read_was_said(lines[l], "torrent_peer_limit"@, key_value(lines[l])->Some_0.1);
    }
    if k.max_active_downloads is Some {
        let l = k.max_active_downloads->Some_0.0 - 1;
        lemma_read_was_said(lines[l], "max_active_downloads"@, key_value(lines[l])->Some_0.1);
    }
    if k.max_active_seeds is Some {
        let l = k.max_active_seeds->Some_0.0 - 1;
        lemma_read_was_said(lines[l], "max_active_seeds"@, key_value(lines[l])->Some_0.1);
    }
    if k.seed_ratio_milli is Some {
        let l = k.seed_ratio_milli->Some_0.0 - 1;
        lemma_read_was_said(lines[l], "seed_ratio"@, key_value(lines[l])->Some_0.1);
    }
    if k.watch_dir is Some {
        let l = k.watch_dir->Some_0.0 - 1;
        lemma_read_was_said(lines[l], "watch_dir"@, key_value(lines[l])->Some_0.1);
    }
    if k.seed_idle_minutes is Some {
        let l = k.seed_idle_minutes->Some_0.0 - 1;
        lemma_read_was_said(lines[l], "seed_idle_minutes"@, key_value(lines[l])->Some_0.1);
    }
}

/// What a line about a key is refused for: a value the key does not take, or
/// the key a second time, by the number of the line.
pub proof fn law_refused_line(k: Keys, line: nat, raw: Seq<char>, v: Seq<char>)
    ensures
        says(raw, "sam_address"@, v) && v[0] != '/' && !v.contains(':') ==> line_read(k, line, raw) == Err::<
            Keys,
            Refusal,
        >(Refusal::Line(line, Fault::BadSamAddress)),
        says(raw, "sam_address"@, v) && sam_in(v) is Some && k.sam_address is Some ==> line_read(k, line, raw)
            == Err::<Keys, Refusal>(Refusal::Line(line, Fault::DuplicateKey)),
        says(raw, "i_know_sam_is_remote"@, v) && v != "yes"@ && v != "no"@ ==> line_read(k, line, raw) == Err::<
            Keys,
            Refusal,
        >(Refusal::Line(line, Fault::BadBool)),
        says(raw, "i_know_sam_is_remote"@, v) && bool_in(v) is Some && k.i_know_sam_is_remote is Some ==> line_read(k, line, raw)
            == Err::<Keys, Refusal>(Refusal::Line(line, Fault::DuplicateKey)),
        says(raw, "data_dir"@, v) && v[0] != '/' ==> line_read(k, line, raw) == Err::<
            Keys,
            Refusal,
        >(Refusal::Line(line, Fault::RelativePath)),
        says(raw, "data_dir"@, v) && path_in(v) is Some && k.data_dir is Some ==> line_read(k, line, raw)
            == Err::<Keys, Refusal>(Refusal::Line(line, Fault::DuplicateKey)),
        says(raw, "api_socket"@, v) && v[0] != '/' ==> line_read(k, line, raw) == Err::<
            Keys,
            Refusal,
        >(Refusal::Line(line, Fault::RelativePath)),
        says(raw, "api_socket"@, v) && path_in(v) is Some && k.api_socket is Some ==> line_read(k, line, raw)
            == Err::<Keys, Refusal>(Refusal::Line(line, Fault::DuplicateKey)),
        says(raw, "ephemeral"@, v) && v != "yes"@ && v != "no"@ ==> line_read(k, line, raw) == Err::<
            Keys,
            Refusal,
        >(Refusal::Line(line, Fault::BadBool)),
        says(raw, "ephemeral"@, v) && bool_in(v) is Some && k.ephemeral is Some ==> line_read(k, line, raw)
            == Err::<Keys, Refusal>(Refusal::Line(line, Fault::DuplicateKey)),
        says(raw, "preallocate"@, v) && v != "yes"@ && v != "no"@ ==> line_read(k, line, raw) == Err::<
            Keys,
            Refusal,
        >(Refusal::Line(line, Fault::BadBool)),
        says(raw, "preallocate"@, v) && bool_in(v) is Some && k.preallocate is Some ==> line_read(k, line, raw)
            == Err::<Keys, Refusal>(Refusal::Line(line, Fault::DuplicateKey)),
        says(raw, "peer_limit"@, v) && (!all_digits(v) || dec_value(v) < 1 || dec_value(v) > 10_000) ==> line_read(k, line, raw) == Err::<
            Keys,
            Refusal,
        >(Refusal::Line(line, Fault::BadCount)),
        says(raw, "peer_limit"@, v) && count_in(v) is Some && k.peer_limit is Some ==> line_read(k, line, raw)
            == Err::<Keys, Refusal>(Refusal::Line(line, Fault::DuplicateKey)),
        says(raw, "torrent_peer_limit"@, v) && (!all_digits(v) || dec_value(v) < 1 || dec_value(v) > 10_000) ==> line_read(k, line, raw) == Err::<
            Keys,
            Refusal,
        >(Refusal::Line(line, Fault::BadCount)),
        says(raw, "torrent_peer_limit"@, v) && count_in(v) is Some && k.torrent_peer_limit is Some ==> line_read(k, line, raw)
            == Err::<Keys, Refusal>(Refusal::Line(line, Fault::DuplicateKey)),
        says(raw, "max_active_downloads"@, v) && (!all_digits(v) || dec_value(v) < 1 || dec_value(v) > 10_000) ==> line_read(k, line, raw) == Err::<
            Keys,
            Refusal,
        >(Refusal::Line(line, Fault::BadCount)),
        says(raw, "max_active_downloads"@, v) && count_in(v) is Some && k.max_active_downloads is Some ==> line_read(k, line, raw)
            == Err::<Keys, Refusal>(Refusal::Line(line, Fault::DuplicateKey)),
        says(raw, "max_active_seeds"@, v) && (!all_digits(v) || dec_value(v) < 1 || dec_value(v) > 10_000) ==> line_read(k, line, raw) == Err::<
            Keys,
            Refusal,
        >(Refusal::Line(line, Fault::BadCount)),
        says(raw, "max_active_seeds"@, v) && count_in(v) is Some && k.max_active_seeds is Some ==> line_read(k, line, raw)
            == Err::<Keys, Refusal>(Refusal::Line(line, Fault::DuplicateKey)),
        says(raw, "seed_ratio"@, v) && ratio_in(v) is None ==> line_read(k, line, raw) == Err::<
            Keys,
            Refusal,
        >(Refusal::Line(line, Fault::BadRatio)),
        says(raw, "seed_ratio"@, v) && ratio_in(v) is Some && k.seed_ratio_milli is Some ==> line_read(k, line, raw)
            == Err::<Keys, Refusal>(Refusal::Line(line, Fault::DuplicateKey)),
        says(raw, "watch_dir"@, v) && v[0] != '/' ==> line_read(k, line, raw) == Err::<
            Keys,
            Refusal,
        >(Refusal::Line(line, Fault::RelativePath)),
        says(raw, "watch_dir"@, v) && path_in(v) is Some && k.watch_dir is Some ==> line_read(k, line, raw)
            == Err::<Keys, Refusal>(Refusal::Line(line, Fault::DuplicateKey)),
        says(raw, "seed_idle_minutes"@, v) && number_in(v, 100_000) is None ==> line_read(k, line, raw) == Err::<
            Keys,
            Refusal,
        >(Refusal::Line(line, Fault::BadCount)),
        says(raw, "seed_idle_minutes"@, v) && minutes_in(v) is Some && k.seed_idle_minutes is Some ==> line_read(k, line, raw)
            == Err::<Keys, Refusal>(Refusal::Line(line, Fault::DuplicateKey)),
        trim(raw).len() == 0 || trim(raw)[0] == '#' ==> line_read(k, line, raw) == Ok::<
            Keys,
            Refusal,
        >(k),
        trim(raw).len() > 0 && trim(raw)[0] != '#' && (forall|i: int|
            0 <= i < trim(raw).len() ==> !is_space(#[trigger] trim(raw)[i])) ==> line_read(
            k,
            line,
            raw,
        ) == Err::<Keys, Refusal>(Refusal::Line(line, Fault::MissingValue)),
{
    lemma_keys_differ();
    lemma_space_at(trim(raw), 0);
    if !v.contains(':') {
        crate::metainfo::lemma_last_index(v, ':', v.len() as int);
    }
    if says(raw, "sam_address"@, v) {
        lemma_said_is_read(raw, "sam_address"@, v);
    }
    if says(raw, "i_know_sam_is_remote"@, v) {
        lemma_said_is_read(raw, "i_know_sam_is_remote"@, v);
    }
    if says(raw, "data_dir"@, v) {
        lemma_said_is_read(raw, "data_dir"@, v);
    }
    if says(raw, "api_socket"@, v) {
        lemma_said_is_read(raw, "api_socket"@, v);
    }
    if says(raw, "ephemeral"@, v) {
        lemma_said_is_read(raw, "ephemeral"@, v);
    }
    if says(raw, "preallocate"@, v) {
        lemma_said_is_read(raw, "preallocate"@, v);
    }
    if says(raw, "peer_limit"@, v) {
        lemma_said_is_read(raw, "peer_limit"@, v);
    }
    if says(raw, "torrent_peer_limit"@, v) {
        lemma_said_is_read(raw, "torrent_peer_limit"@, v);
    }
    if says(raw, "max_active_downloads"@, v) {
        lemma_said_is_read(raw, "max_active_downloads"@, v);
    }
    if says(raw, "max_active_seeds"@, v) {
        lemma_said_is_read(raw, "max_active_seeds"@, v);
    }
    if says(raw, "seed_ratio"@, v) {
        lemma_said_is_read(raw, "seed_ratio"@, v);
    }
    if says(raw, "watch_dir"@, v) {
        lemma_said_is_read(raw, "watch_dir"@, v);
    }
    if says(raw, "seed_idle_minutes"@, v) {
        lemma_said_is_read(raw, "seed_idle_minutes"@, v);
    }
}

/// A key that is none of the settings' names is refused by its name.
pub proof fn law_unknown_key_is_refused(k: Keys, line: nat, raw: Seq<char>, key: Seq<char>, v: Seq<char>)
    requires
        says(raw, key, v),
        key.len() > 0,
        key[0] != '#',
        forall|i: int| 0 <= i < key.len() ==> !is_space(key[i]),
        key != "sam_address"@,
        key != "i_know_sam_is_remote"@,
        key != "data_dir"@,
        key != "api_socket"@,
        key != "ephemeral"@,
        key != "preallocate"@,
        key != "peer_limit"@,
        key != "torrent_peer_limit"@,
        key != "max_active_downloads"@,
        key != "max_active_seeds"@,
        key != "seed_ratio"@,
        key != "watch_dir"@,
        key != "seed_idle_minutes"@,
    ensures
        line_read(k, line, raw) == Err::<Keys, Refusal>(
            Refusal::Line(line, Fault::UnknownKey(key)),
        ),
{
    lemma_said_is_read(raw, key, v);
}

/// The first line that is refused is what the whole text is refused for.
pub proof fn law_first_refused_line_decides(text: Seq<char>, d: Places, i: int)
    requires
        0 <= i < split(text, "\n"@).len(),
        lines_read(split(text, "\n"@), i) is Ok,
        line_read(
            lines_read(split(text, "\n"@), i)->Ok_0,
            (i + 1) as nat,
            split(text, "\n"@)[i],
        ) is Err,
    ensures
        settings_in(text, d) is Err,
        settings_in(text, d)->Err_0 == line_read(
            lines_read(split(text, "\n"@), i)->Ok_0,
            (i + 1) as nat,
            split(text, "\n"@)[i],
        )->Err_0,
{
    let lines = split(text, "\n"@);
    lemma_lines_fail(lines, i + 1, lines.len() as int);
}

/// A ratio is a whole number, a point and up to three digits, and is kept in
/// thousandths, of which there are at most a million.
pub proof fn law_ratio_is_kept_in_thousandths(w: nat, a: nat, b: nat, c: nat)
    requires
        a < 10,
        b < 10,
        c < 10,
    ensures
        ({
            let digit = |n: nat| (48 + n) as char;
            let whole = decimal_text(w);
            let kept = |n: nat|
                if n <= 1_000_000 {
                    Some(n as u64)
                } else {
                    None
                };
            &&& ratio_in(whole) == kept((w * 1000) as nat)
            &&& ratio_in(whole + seq!['.'] + seq![digit(a)]) == kept((w * 1000 + a * 100) as nat)
            &&& ratio_in(whole + seq!['.'] + seq![digit(a), digit(b)]) == kept(
                (w * 1000 + a * 100 + b * 10) as nat,
            )
            &&& ratio_in(whole + seq!['.'] + seq![digit(a), digit(b), digit(c)]) == kept(
                (w * 1000 + a * 100 + b * 10 + c) as nat,
            )
        }),
{
    lemma_dec_value(w);
    let whole = decimal_text(w);
    let x = (48 + a) as char;
    let y = (48 + b) as char;
    let z = (48 + c) as char;
    reveal_strlit(".");
    assert("."@ =~= seq!['.']);
    assert forall|i: int| 0 <= i < whole.len() implies #[trigger] whole[i] != '.' by {
        assert('0' <= whole[i] <= '9');
    }
    assert(!whole.contains('.'));
    law_cut_at_the_first(whole, '.');
    law_key_and_value_are_cut(whole, '.', seq![x]);
    law_key_and_value_are_cut(whole, '.', seq![x, y]);
    law_key_and_value_are_cut(whole, '.', seq![x, y, z]);
    if split_once(whole, "."@) is Some {
        let p = split_once(whole, "."@)->Some_0;
        assert((p.0 + seq!['.'] + p.1)[p.0.len() as int] == '.');
        assert(whole.contains('.'));
    }
    assert(seq![x].drop_last() =~= Seq::empty());
    assert(seq![x, y].drop_last() =~= seq![x]);
    assert(seq![x, y, z].drop_last() =~= seq![x, y]);
    assert(dec_value(Seq::<char>::empty()) == 0);
    assert(dec_value(seq![x]) == a);
    assert(dec_value(seq![x, y]) == a * 10 + b);
    assert(dec_value(seq![x, y, z]) == a * 100 + b * 10 + c);
}

/// An address of a host and a port is a local one only under three names, and
/// a local one is dialed unless it is a path.
pub proof fn law_local_addresses(host: Seq<char>, port: Seq<char>)
    requires
        host.len() > 0,
        host[0] != '/',
        !port.contains(':'),
    ensures
        ({
            let v = host + seq![':'] + port;
            let local = host == "127.0.0.1"@ || host == "localhost"@ || host == "[::1]"@;
            &&& is_loopback(v) <==> local
            &&& undialable(v) is None <==> local
            &&& is_sam_shape(v) <==> port.len() > 0 && all_digits(port) && 1 <= dec_value(port)
                <= 65535
        }),
{
    let v = host + seq![':'] + port;
    lemma_last_of(host, ':', port, v.len() as int);
    assert(v[0] == host[0]);
    assert(v.take(host.len() as int) =~= host);
    assert(v.skip(host.len() as int + 1) =~= port);
}

proof fn lemma_last_of(a: Seq<char>, c: char, b: Seq<char>, n: int)
    requires
        a.len() < n <= a.len() + 1 + b.len(),
        !b.contains(c),
    ensures
        last_index(a + seq![c] + b, c, n) == a.len(),
    decreases n,
{
    let s = a + seq![c] + b;
    if n > a.len() + 1 {
        assert(s[n - 1] == b[n - 2 - a.len()]);
        assert(b.contains(b[n - 2 - a.len()]));
        lemma_last_of(a, c, b, n - 1);
    }
}

/// Where things are kept: where the environment says, if it says anything, or
/// else under the home directory.
pub proof fn law_where_things_are_kept(
    own: Option<String>,
    home: Option<String>,
    rel: Seq<char>,
)
    ensures
        own is Some && own->Some_0@.len() > 0 ==> home_or(own, home, rel) == Some(own->Some_0@),
        (own is None || own->Some_0@.len() == 0) && (home is None || home->Some_0@.len() == 0)
            ==> home_or(own, home, rel) is None,
        (own is None || own->Some_0@.len() == 0) && home is Some && home->Some_0@.len() > 0
            ==> home_or(own, home, rel) == Some(
            if home->Some_0@.last() == '/' {
                home->Some_0@ + rel
            } else {
                home->Some_0@ + "/"@ + rel
            },
        ),
{
}

/// What a line is said to be refused for.
pub proof fn law_faults_in_words(text: Seq<char>)
    ensures
        fault_text(Fault::UnknownKey(text)) == "unknown key \""@ + text + "\""@,
        fault_text(Fault::MissingValue) == "key has no value"@,
        fault_text(Fault::DuplicateKey) == "key already set earlier in the file"@,
        fault_text(Fault::BadBool) == "expected \"yes\" or \"no\""@,
        fault_text(Fault::BadCount) == "expected a number from 1 to "@ + decimal_text(10_000),
        fault_text(Fault::BadRatio)
            == "expected a ratio like 2 or 1.75, from 0 (unlimited) to "@ + decimal_text(1_000),
        fault_text(Fault::BadSamAddress)
            == "sam_address must be host:port or an absolute socket path"@,
        fault_text(Fault::RelativePath) == "path must be absolute"@,
        fault_text(Fault::UnsupportedSamTransport(text)) == "sam_address: "@ + text
            + " (this build dials 127.0.0.1 only; see clove.conf(5))"@,
{
}

/// A bridge that is not on this machine is refused, by the line that names it:
/// for being remote unless that is said to be known, and for not being dialed
/// all the same.
pub proof fn law_remote_bridge_is_refused(k: Keys, d: Places, line: nat, v: Seq<char>)
    requires
        k.sam_address == Some((line, v)),
        v.len() == 0 || v[0] != '/',
        !is_loopback(v),
    ensures
        k.i_know_sam_is_remote matches Some((_, true)) ==> settled(k, d) == Err::<
            Settings,
            Refusal,
        >(
            Refusal::Line(
                line,
                Fault::UnsupportedSamTransport("a remote SAM bridge is not supported"@),
            ),
        ),
        !(k.i_know_sam_is_remote matches Some((_, true))) ==> settled(k, d) == Err::<
            Settings,
            Refusal,
        >(Refusal::Line(line, Fault::RemoteSam)),
{
}

} // verus!
