//! The command model: recognized commands, their construction from RESP
//! values, and the replies they produce against the keyspace and the
//! configuration record.

use crate::decimal::spec_parse_u64;
use crate::keyspace::EntryModel;
use crate::resp::lemma_view_list;
use crate::resp::view_list;
use crate::resp::RespData;
use crate::resp::RESPValue;
use vstd::prelude::*;
use vstd::string::StrSliceExecFns;
use vstd::string::StringExecFns;

verus! {

/// When a `SET` may bind its key.
#[derive(Clone, Copy, Debug, PartialEq, Eq, Structural)]
pub enum SetCondition {
    IfExists,
    IfNotExists,
    Always,
}

/// The model of the options of one `SET` invocation.
pub struct SetOptsModel {
    pub expires_at: Option<u64>,
    pub condition: SetCondition,
    pub keep_ttl: bool,
    pub get: bool,
}

/// The options of one `SET` invocation: an optional expiry instant in
/// milliseconds since the Unix epoch, a binding condition, whether to keep
/// the prior time-to-live, and whether to reply with the prior value.
#[derive(Clone, Debug)]
pub struct SetOpts {
    expires_at: Option<u64>,
    condition: SetCondition,
    keep_ttl: bool,
    get: bool,
}

impl View for SetOpts {
    type V = SetOptsModel;

    closed spec fn view(&self) -> SetOptsModel {
        SetOptsModel {
            expires_at: self.expires_at,
            condition: self.condition,
            keep_ttl: self.keep_ttl,
            get: self.get,
        }
    }
}

impl SetOpts {
    pub fn expires_at(&self) -> (r: Option<u64>)
        ensures
            r == self@.expires_at,
    {
        self.expires_at
    }

    pub fn condition(&self) -> (r: &SetCondition)
        ensures
            *r == self@.condition,
    {
        &self.condition
    }

    pub fn keep_ttl(&self) -> (r: bool)
        ensures
            r == self@.keep_ttl,
    {
        self.keep_ttl
    }

    pub fn get(&self) -> (r: bool)
        ensures
            r == self@.get,
    {
        self.get
    }
}

/// Why a RESP value could not become a command: a shape the dispatcher
/// cannot read, or a command name it does not know.
#[derive(Clone, Copy, Debug, PartialEq, Eq, Structural)]
pub enum CommandError {
    MalformedCommand,
    UnsupportedCommand,
}

/// Character-for-character string equality.
pub fn str_eq(a: &str, b: &str) -> (r: bool)
    ensures
        r == (a@ == b@),
{
    let la = a.unicode_len();
    let lb = b.unicode_len();
    if la != lb {
        return false;
    }
    let mut i: usize = 0;
    while i < la
        invariant
            i <= la,
            la == a@.len(),
            la == b@.len(),
            forall|j: int| 0 <= j < i ==> a@[j] == b@[j],
        decreases la - i,
    {
        if a.get_char(i) != b.get_char(i) {
            return false;
        }
        i = i + 1;
    }
    proof {
        assert(a@ =~= b@);
    }
    true
}

/// The upper-case code point of an ASCII letter; other characters are left
/// as they are.
pub open spec fn upper_u32(c: char) -> u32 {
    if 97 <= c as u32 <= 122 {
        (c as u32 - 32) as u32
    } else {
        c as u32
    }
}

/// Equality of two texts up to ASCII case.
pub open spec fn eq_ignore_ascii_case(a: Seq<char>, b: Seq<char>) -> bool {
    a.len() == b.len() && forall|i: int| 0 <= i < a.len() ==> upper_u32(#[trigger] a[i])
        == upper_u32(b[i])
}

/// Compares two texts up to ASCII case.
pub fn str_eq_ignore_case(a: &str, b: &str) -> (r: bool)
    ensures
        r == eq_ignore_ascii_case(a@, b@),
{
    let la = a.unicode_len();
    let lb = b.unicode_len();
    if la != lb {
        return false;
    }
    let mut i: usize = 0;
    while i < la
        invariant
            i <= la,
            la == a@.len(),
            la == b@.len(),
            forall|j: int| 0 <= j < i ==> upper_u32(#[trigger] a@[j]) == upper_u32(b@[j]),
        decreases la - i,
    {
        let ca = a.get_char(i) as u32;
        let cb = b.get_char(i) as u32;
        let ua = if 97 <= ca && ca <= 122 {
            ca - 32
        } else {
            ca
        };
        let ub = if 97 <= cb && cb <= 122 {
            cb - 32
        } else {
            cb
        };
        if ua != ub {
            return false;
        }
        i = i + 1;
    }
    true
}

/// A nonnegative instant clamped into a 64-bit word.
pub open spec fn sat64(x: int) -> u64 {
    if x > u64::MAX {
        u64::MAX
    } else if x < 0 {
        0
    } else {
        x as u64
    }
}

/// Computes `base + a * scale`, saturating at the largest representable
/// instant.
pub fn sat_mul_add(a: u64, scale: u64, base: u64) -> (r: u64)
    requires
        1 <= scale,
    ensures
        r == sat64(base + a * scale),
{
    let prod: u64 = if a > u64::MAX / scale {
        proof {
            assert(a * scale > u64::MAX) by (nonlinear_arith)
                requires
                    a > u64::MAX / scale,
                    1 <= scale,
            ;
        }
        u64::MAX
    } else {
        proof {
            assert(a * scale <= u64::MAX) by (nonlinear_arith)
                requires
                    a <= u64::MAX / scale,
                    1 <= scale,
            ;
        }
        a * scale
    };
    if prod == u64::MAX {
        u64::MAX
    } else {
        if base > u64::MAX - prod {
            u64::MAX
        } else {
            base + prod
        }
    }
}

/// The model of the configuration record.
pub struct ConfigModel {
    pub directory: Seq<char>,
    pub dbfilename: Seq<char>,
}

/// The configuration record: the snapshot directory and file name,
/// immutable after startup.
#[derive(Debug)]
pub struct Config {
    directory: String,
    dbfilename: String,
}

impl View for Config {
    type V = ConfigModel;

    closed spec fn view(&self) -> ConfigModel {
        ConfigModel { directory: self.directory@, dbfilename: self.dbfilename@ }
    }
}

impl Config {
    pub fn new(directory: String, dbfilename: String) -> (r: Self)
        ensures
            r@ == (ConfigModel { directory: directory@, dbfilename: dbfilename@ }),
    {
        Config { directory, dbfilename }
    }
}

/// What `CONFIG GET` answers: the directory under `dir`, the file name
/// under `dbfilename`, nothing for any other key.
pub open spec fn spec_config_get(cfg: ConfigModel, key: Seq<char>) -> Option<Seq<char>> {
    if key == "dir"@ {
        Some(cfg.directory)
    } else if key == "dbfilename"@ {
        Some(cfg.dbfilename)
    } else {
        None
    }
}

/// Looks a configuration key up.
pub fn config_get(config: &Config, key: &String) -> (r: Option<String>)
    ensures
        match r {
            Some(v) => spec_config_get(config@, key@) == Some(v@),
            None => spec_config_get(config@, key@) is None,
        },
{
    if str_eq(key.as_str(), "dir") {
        Some(config.directory.clone())
    } else if str_eq(key.as_str(), "dbfilename") {
        Some(config.dbfilename.clone())
    } else {
        None
    }
}

/// A recognized command.
#[derive(Debug)]
pub enum Command {
    Ping,
    Echo(RESPValue),
    Command,
    SetValue { key: String, value: RESPValue, opts: SetOpts },
    Get(String),
    ConfigGet(String),
}

/// The model of a recognized command.
pub enum CommandModel {
    Ping,
    Echo(RespData),
    Command,
    SetValue { key: Seq<char>, value: RespData, opts: SetOptsModel },
    Get(Seq<char>),
    ConfigGet(Seq<char>),
}

impl DeepView for Command {
    type V = CommandModel;

    open spec fn deep_view(&self) -> CommandModel {
        match self {
            Command::Ping => CommandModel::Ping,
            Command::Echo(v) => CommandModel::Echo(v.deep_view()),
            Command::Command => CommandModel::Command,
            Command::SetValue { key, value, opts } => CommandModel::SetValue {
                key: key@,
                value: value.deep_view(),
                opts: opts@,
            },
            Command::Get(k) => CommandModel::Get(k@),
            Command::ConfigGet(k) => CommandModel::ConfigGet(k@),
        }
    }
}

/// The set options before any option token: no expiry, bind always, do not
/// keep the time-to-live, no prior-value reply.
pub open spec fn default_set_opts() -> SetOptsModel {
    SetOptsModel { expires_at: None, condition: SetCondition::Always, keep_ttl: false, get: false }
}

/// Folds the option tokens of a `SET` from index `i` on into the options
/// record. Expiry tokens take a decimal argument; a relative expiry is
/// anchored at the current instant; the last condition token wins.
pub open spec fn spec_set_opts(
    vs: Seq<RespData>,
    i: int,
    acc: SetOptsModel,
    now_ms: u64,
) -> Result<SetOptsModel, CommandError>
    decreases vs.len() - i,
{
    if i >= vs.len() {
        Ok(acc)
    } else {
        match vs[i] {
            RespData::BulkString(tok) => {
                if eq_ignore_ascii_case(tok, "EX"@) {
                    if i + 1 < vs.len() {
                        match vs[i + 1] {
                            RespData::BulkString(txt) => match spec_parse_u64(txt) {
                                Some(secs) => spec_set_opts(
                                    vs,
                                    i + 2,
                                    SetOptsModel {
                                        expires_at: Some(sat64(now_ms + secs * 1000)),
                                        ..acc
                                    },
                                    now_ms,
                                ),
                                None => Err(CommandError::MalformedCommand),
                            },
                            _ => Err(CommandError::MalformedCommand),
                        }
                    } else {
                        Err(CommandError::MalformedCommand)
                    }
                } else if eq_ignore_ascii_case(tok, "PX"@) {
                    if i + 1 < vs.len() {
                        match vs[i + 1] {
                            RespData::BulkString(txt) => match spec_parse_u64(txt) {
                                Some(ms) => spec_set_opts(
                                    vs,
                                    i + 2,
                                    SetOptsModel { expires_at: Some(sat64(now_ms + ms)), ..acc },
                                    now_ms,
                                ),
                                None => Err(CommandError::MalformedCommand),
                            },
                            _ => Err(CommandError::MalformedCommand),
                        }
                    } else {
                        Err(CommandError::MalformedCommand)
                    }
                } else if eq_ignore_ascii_case(tok, "EXAT"@) {
                    if i + 1 < vs.len() {
                        match vs[i + 1] {
                            RespData::BulkString(txt) => match spec_parse_u64(txt) {
                                Some(secs) => spec_set_opts(
                                    vs,
                                    i + 2,
                                    SetOptsModel { expires_at: Some(sat64(secs * 1000)), ..acc },
                                    now_ms,
                                ),
                                None => Err(CommandError::MalformedCommand),
                            },
                            _ => Err(CommandError::MalformedCommand),
                        }
                    } else {
                        Err(CommandError::MalformedCommand)
                    }
                } else if eq_ignore_ascii_case(tok, "PXAT"@) {
                    if i + 1 < vs.len() {
                        match vs[i + 1] {
                            RespData::BulkString(txt) => match spec_parse_u64(txt) {
                                Some(ms) => spec_set_opts(
                                    vs,
                                    i + 2,
                                    SetOptsModel { expires_at: Some(ms), ..acc },
                                    now_ms,
                                ),
                                None => Err(CommandError::MalformedCommand),
                            },
                            _ => Err(CommandError::MalformedCommand),
                        }
                    } else {
                        Err(CommandError::MalformedCommand)
                    }
                } else if eq_ignore_ascii_case(tok, "NX"@) {
                    spec_set_opts(
                        vs,
                        i + 1,
                        SetOptsModel { condition: SetCondition::IfNotExists, ..acc },
                        now_ms,
                    )
                } else if eq_ignore_ascii_case(tok, "XX"@) {
                    spec_set_opts(
                        vs,
                        i + 1,
                        SetOptsModel { condition: SetCondition::IfExists, ..acc },
                        now_ms,
                    )
                } else if eq_ignore_ascii_case(tok, "KEEPTTL"@) {
                    spec_set_opts(vs, i + 1, SetOptsModel { keep_ttl: true, ..acc }, now_ms)
                } else if eq_ignore_ascii_case(tok, "GET"@) {
                    spec_set_opts(vs, i + 1, SetOptsModel { get: true, ..acc }, now_ms)
                } else {
                    Err(CommandError::MalformedCommand)
                }
            },
            _ => Err(CommandError::MalformedCommand),
        }
    }
}

/// What command a RESP value names. A simple string or an array headed by a
/// bulk string is dispatched on the (case-insensitive) command name; a shape
/// the dispatcher cannot read is malformed, an unknown name is unsupported.
pub open spec fn spec_into_command(v: RespData, now_ms: u64) -> Result<CommandModel, CommandError> {
    match v {
        RespData::SimpleString(s) => {
            if eq_ignore_ascii_case(s, "PING"@) {
                Ok(CommandModel::Ping)
            } else if eq_ignore_ascii_case(s, "COMMAND"@) {
                Ok(CommandModel::Command)
            } else {
                Err(CommandError::UnsupportedCommand)
            }
        },
        RespData::Array(vs) => {
            if vs.len() == 0 {
                Err(CommandError::MalformedCommand)
            } else {
                match vs[0] {
                    RespData::BulkString(cmd) => {
                        if eq_ignore_ascii_case(cmd, "ECHO"@) {
                            if vs.len() >= 2 {
                                Ok(CommandModel::Echo(vs[1]))
                            } else {
                                Err(CommandError::MalformedCommand)
                            }
                        } else if eq_ignore_ascii_case(cmd, "PING"@) {
                            Ok(CommandModel::Ping)
                        } else if eq_ignore_ascii_case(cmd, "COMMAND"@) {
                            Ok(CommandModel::Command)
                        } else if eq_ignore_ascii_case(cmd, "SET"@) {
                            if vs.len() >= 3 {
                                match vs[1] {
                                    RespData::BulkString(key) => {
                                        match spec_set_opts(vs, 3, default_set_opts(), now_ms) {
                                            Ok(opts) => Ok(CommandModel::SetValue {
                                                key,
                                                value: vs[2],
                                                opts,
                                            }),
                                            Err(e) => Err(e),
                                        }
                                    },
                                    _ => Err(CommandError::MalformedCommand),
                                }
                            } else {
                                Err(CommandError::MalformedCommand)
                            }
                        } else if eq_ignore_ascii_case(cmd, "GET"@) {
                            if vs.len() >= 2 {
                                match vs[1] {
                                    RespData::BulkString(key) => Ok(CommandModel::Get(key)),
                                    _ => Err(CommandError::MalformedCommand),
                                }
                            } else {
                                Err(CommandError::MalformedCommand)
                            }
                        } else if eq_ignore_ascii_case(cmd, "CONFIG"@) {
                            if vs.len() >= 3 {
                                match vs[1] {
                                    RespData::BulkString(sub) => {
                                        if eq_ignore_ascii_case(sub, "GET"@) {
                                            match vs[2] {
                                                RespData::BulkString(key) => Ok(
                                                    CommandModel::ConfigGet(key),
                                                ),
                                                _ => Err(CommandError::MalformedCommand),
                                            }
                                        } else {
                                            Err(CommandError::UnsupportedCommand)
                                        }
                                    },
                                    _ => Err(CommandError::MalformedCommand),
                                }
                            } else {
                                Err(CommandError::MalformedCommand)
                            }
                        } else {
                            Err(CommandError::UnsupportedCommand)
                        }
                    },
                    _ => Err(CommandError::MalformedCommand),
                }
            }
        },
        _ => Err(CommandError::MalformedCommand),
    }
}

/// Folds the option tokens of a `SET` from index `start` on.
fn parse_set_opts(vs: &Vec<RESPValue>, start: usize, now_ms: u64) -> (r: Result<
    SetOpts,
    CommandError,
>)
    requires
        start <= vs@.len(),
    ensures
        ({
            let ds = view_list(vs@, 0);
            match r {
                Ok(o) => spec_set_opts(ds, start as int, default_set_opts(), now_ms) == Ok::<
                    SetOptsModel,
                    CommandError,
                >(o@),
                Err(e) => spec_set_opts(ds, start as int, default_set_opts(), now_ms) == Err::<
                    SetOptsModel,
                    CommandError,
                >(e),
            }
        }),
{
    let ghost ds = view_list(vs@, 0);
    proof {
        lemma_view_list(vs@, 0);
    }
    let mut opts = SetOpts {
        expires_at: None,
        condition: SetCondition::Always,
        keep_ttl: false,
        get: false,
    };
    let mut i: usize = start;
    let n = vs.len();
    while i < n
        invariant
            start <= i <= n,
            n == vs@.len(),
            ds == view_list(vs@, 0),
            ds.len() == n,
            forall|j: int| 0 <= j < n ==> ds[j] == #[trigger] vs@[j].deep_view(),
            spec_set_opts(ds, start as int, default_set_opts(), now_ms) == spec_set_opts(
                ds,
                i as int,
                opts@,
                now_ms,
            ),
        decreases n - i,
    {
        proof {
            assert(ds[i as int] == vs@[i as int].deep_view());
            if i + 1 < n {
                assert(ds[i + 1] == vs@[i + 1].deep_view());
            }
        }
        let tok: String = match &vs[i] {
            RESPValue::BulkString(s) => s.clone(),
            _ => {
                return Err(CommandError::MalformedCommand);
            },
        };
        if str_eq_ignore_case(tok.as_str(), "EX") {
            if i + 1 < n {
                let txt: String = match &vs[i + 1] {
                    RESPValue::BulkString(s) => s.clone(),
                    _ => {
                        return Err(CommandError::MalformedCommand);
                    },
                };
                match crate::decimal::parse_u64(txt.as_str()) {
                    Some(secs) => {
                        opts.expires_at = Some(sat_mul_add(secs, 1000, now_ms));
                        i = i + 2;
                    },
                    None => {
                        return Err(CommandError::MalformedCommand);
                    },
                }
            } else {
                return Err(CommandError::MalformedCommand);
            }
        } else if str_eq_ignore_case(tok.as_str(), "PX") {
            if i + 1 < n {
                let txt: String = match &vs[i + 1] {
                    RESPValue::BulkString(s) => s.clone(),
                    _ => {
                        return Err(CommandError::MalformedCommand);
                    },
                };
                match crate::decimal::parse_u64(txt.as_str()) {
                    Some(ms) => {
                        opts.expires_at = Some(sat_mul_add(ms, 1, now_ms));
                        i = i + 2;
                    },
                    None => {
                        return Err(CommandError::MalformedCommand);
                    },
                }
            } else {
                return Err(CommandError::MalformedCommand);
            }
        } else if str_eq_ignore_case(tok.as_str(), "EXAT") {
            if i + 1 < n {
                let txt: String = match &vs[i + 1] {
                    RESPValue::BulkString(s) => s.clone(),
                    _ => {
                        return Err(CommandError::MalformedCommand);
                    },
                };
                match crate::decimal::parse_u64(txt.as_str()) {
                    Some(secs) => {
                        opts.expires_at = Some(sat_mul_add(secs, 1000, 0));
                        i = i + 2;
                    },
                    None => {
                        return Err(CommandError::MalformedCommand);
                    },
                }
            } else {
                return Err(CommandError::MalformedCommand);
            }
        } else if str_eq_ignore_case(tok.as_str(), "PXAT") {
            if i + 1 < n {
                let txt: String = match &vs[i + 1] {
                    RESPValue::BulkString(s) => s.clone(),
                    _ => {
                        return Err(CommandError::MalformedCommand);
                    },
                };
                match crate::decimal::parse_u64(txt.as_str()) {
                    Some(ms) => {
                        opts.expires_at = Some(ms);
                        i = i + 2;
                    },
                    None => {
                        return Err(CommandError::MalformedCommand);
                    },
                }
            } else {
                return Err(CommandError::MalformedCommand);
            }
        } else if str_eq_ignore_case(tok.as_str(), "NX") {
            opts.condition = SetCondition::IfNotExists;
            i = i + 1;
        } else if str_eq_ignore_case(tok.as_str(), "XX") {
            opts.condition = SetCondition::IfExists;
            i = i + 1;
        } else if str_eq_ignore_case(tok.as_str(), "KEEPTTL") {
            opts.keep_ttl = true;
            i = i + 1;
        } else if str_eq_ignore_case(tok.as_str(), "GET") {
            opts.get = true;
            i = i + 1;
        } else {
            return Err(CommandError::MalformedCommand);
        }
    }
    Ok(opts)
}

impl RESPValue {
    /// Reads this value as a command. Time enters here: a relative expiry
    /// option is anchored at the given instant.
    pub fn into_command(self, now_ms: u64) -> (r: Result<Command, CommandError>)
        ensures
            ({
                let sp = spec_into_command(self.deep_view(), now_ms);
                match r {
                    Ok(c) => sp == Ok::<CommandModel, CommandError>(c.deep_view()),
                    Err(e) => sp == Err::<CommandModel, CommandError>(e),
                }
            }),
    {
        let ghost orig = self.deep_view();
        match self {
            RESPValue::SimpleString(s) => {
                proof {
                    assert(orig == RespData::SimpleString(s@));
                }
                if str_eq_ignore_case(s.as_str(), "PING") {
                    Ok(Command::Ping)
                } else if str_eq_ignore_case(s.as_str(), "COMMAND") {
                    Ok(Command::Command)
                } else {
                    Err(CommandError::UnsupportedCommand)
                }
            },
            RESPValue::Array(vs) => {
                let ghost ds = view_list(vs@, 0);
                proof {
                    lemma_view_list(vs@, 0);
                    assert(orig == RespData::Array(ds));
                }
                if vs.len() == 0 {
                    return Err(CommandError::MalformedCommand);
                }
                proof {
                    assert(ds[0] == vs@[0].deep_view());
                    if vs@.len() >= 2 {
                        assert(ds[1] == vs@[1].deep_view());
                    }
                    if vs@.len() >= 3 {
                        assert(ds[2] == vs@[2].deep_view());
                    }
                }
                let cmd: String = match &vs[0] {
                    RESPValue::BulkString(s) => s.clone(),
                    _ => {
                        return Err(CommandError::MalformedCommand);
                    },
                };
                if str_eq_ignore_case(cmd.as_str(), "ECHO") {
                    if vs.len() >= 2 {
                        Ok(Command::Echo(vs[1].clone()))
                    } else {
                        Err(CommandError::MalformedCommand)
                    }
                } else if str_eq_ignore_case(cmd.as_str(), "PING") {
                    Ok(Command::Ping)
                } else if str_eq_ignore_case(cmd.as_str(), "COMMAND") {
                    Ok(Command::Command)
                } else if str_eq_ignore_case(cmd.as_str(), "SET") {
                    if vs.len() >= 3 {
                        let key: String = match &vs[1] {
                            RESPValue::BulkString(s) => s.clone(),
                            _ => {
                                return Err(CommandError::MalformedCommand);
                            },
                        };
                        let value = vs[2].clone();
                        match parse_set_opts(&vs, 3, now_ms) {
                            Ok(opts) => Ok(Command::SetValue { key, value, opts }),
                            Err(e) => Err(e),
                        }
                    } else {
                        Err(CommandError::MalformedCommand)
                    }
                } else if str_eq_ignore_case(cmd.as_str(), "GET") {
                    if vs.len() >= 2 {
                        match &vs[1] {
                            RESPValue::BulkString(s) => Ok(Command::Get(s.clone())),
                            _ => Err(CommandError::MalformedCommand),
                        }
                    } else {
                        Err(CommandError::MalformedCommand)
                    }
                } else if str_eq_ignore_case(cmd.as_str(), "CONFIG") {
                    if vs.len() >= 3 {
                        let sub: String = match &vs[1] {
                            RESPValue::BulkString(s) => s.clone(),
                            _ => {
                                return Err(CommandError::MalformedCommand);
                            },
                        };
                        if str_eq_ignore_case(sub.as_str(), "GET") {
                            match &vs[2] {
                                RESPValue::BulkString(s) => Ok(Command::ConfigGet(s.clone())),
                                _ => Err(CommandError::MalformedCommand),
                            }
                        } else {
                            Err(CommandError::UnsupportedCommand)
                        }
                    } else {
                        Err(CommandError::MalformedCommand)
                    }
                } else {
                    Err(CommandError::UnsupportedCommand)
                }
            },
            _ => Err(CommandError::MalformedCommand),
        }
    }
}

/// A reply to one command.
#[derive(Debug)]
pub enum Response {
    Okay,
    Pong,
    Echo(RESPValue),
    Null,
}

/// The model of a reply.
pub enum ResponseModel {
    Okay,
    Pong,
    Echo(RespData),
    Null,
}

impl DeepView for Response {
    type V = ResponseModel;

    open spec fn deep_view(&self) -> ResponseModel {
        match self {
            Response::Okay => ResponseModel::Okay,
            Response::Pong => ResponseModel::Pong,
            Response::Echo(v) => ResponseModel::Echo(v.deep_view()),
            Response::Null => ResponseModel::Null,
        }
    }
}

/// The wire text of a reply: `+OK`, `+PONG`, the echoed value, or the null
/// bulk string.
pub open spec fn encode_response(r: ResponseModel) -> Seq<char> {
    match r {
        ResponseModel::Okay => "+OK\r\n"@,
        ResponseModel::Pong => "+PONG\r\n"@,
        ResponseModel::Echo(v) => crate::resp::encode(v),
        ResponseModel::Null => "$-1\r\n"@,
    }
}

impl Response {
    /// Serializes the reply to its wire text.
    pub fn encode(&self) -> (s: String)
        ensures
            s@ == encode_response(self.deep_view()),
    {
        match self {
            Response::Okay => String::from_str("+OK\r\n"),
            Response::Pong => String::from_str("+PONG\r\n"),
            Response::Echo(v) => v.encode(),
            Response::Null => String::from_str("$-1\r\n"),
        }
    }
}

/// The reply sent for a value that could not become a command; the
/// connection stays open.
pub open spec fn spec_error_reply(e: CommandError) -> Seq<char> {
    match e {
        CommandError::MalformedCommand => crate::resp::encode(
            RespData::Error("ERR malformed command"@),
        ),
        CommandError::UnsupportedCommand => crate::resp::encode(
            RespData::Error("ERR unsupported command"@),
        ),
    }
}

/// Serializes the error reply for a rejected command.
pub fn error_reply(e: &CommandError) -> (s: String)
    ensures
        s@ == spec_error_reply(*e),
{
    match e {
        CommandError::MalformedCommand => {
            let v = RESPValue::Error(String::from_str("ERR malformed command"));
            v.encode()
        },
        CommandError::UnsupportedCommand => {
            let v = RESPValue::Error(String::from_str("ERR unsupported command"));
            v.encode()
        },
    }
}

/// The reply a command produces, and what its reply-time read does to the
/// mapping: a `GET` (or a `SET` asked for the prior value) removes an entry
/// it finds expired.
pub open spec fn spec_as_response(
    c: CommandModel,
    m: Map<Seq<char>, EntryModel>,
    cfg: ConfigModel,
    now_ms: u64,
) -> (ResponseModel, Map<Seq<char>, EntryModel>) {
    match c {
        CommandModel::Ping => (ResponseModel::Pong, m),
        CommandModel::Echo(v) => (ResponseModel::Echo(v), m),
        CommandModel::Command => (ResponseModel::Okay, m),
        CommandModel::SetValue { key, value, opts } => {
            if opts.get {
                let (rv, m2) = crate::keyspace::spec_db_get(m, key, now_ms);
                match rv {
                    Some(v) => (ResponseModel::Echo(v), m2),
                    None => (ResponseModel::Null, m2),
                }
            } else {
                (ResponseModel::Okay, m)
            }
        },
        CommandModel::Get(key) => {
            let (rv, m2) = crate::keyspace::spec_db_get(m, key, now_ms);
            match rv {
                Some(v) => (ResponseModel::Echo(v), m2),
                None => (ResponseModel::Null, m2),
            }
        },
        CommandModel::ConfigGet(key) => {
            match spec_config_get(cfg, key) {
                Some(val) => (
                    ResponseModel::Echo(
                        RespData::Array(
                            seq![RespData::BulkString(key), RespData::BulkString(val)],
                        ),
                    ),
                    m,
                ),
                None => (ResponseModel::Null, m),
            }
        },
    }
}

/// What executing a command does to the mapping: a `SET` applies its write;
/// every other command leaves the mapping alone.
pub open spec fn spec_execute(c: CommandModel, m: Map<Seq<char>, EntryModel>) -> Map<
    Seq<char>,
    EntryModel,
> {
    match c {
        CommandModel::SetValue { key, value, opts } => crate::keyspace::spec_db_set(
            m,
            key,
            value,
            opts,
        ),
        _ => m,
    }
}

impl Command {
    /// Computes the reply to this command, before it is executed. A reply
    /// that reads the keyspace removes entries it finds expired.
    pub fn as_response(&self, db: &mut crate::keyspace::Rdb, config: &Config, now_ms: u64) -> (r:
        Response)
        ensures
            ({
                let (resp, m2) = spec_as_response(self.deep_view(), old(db)@.data, config@, now_ms);
                &&& r.deep_view() == resp
                &&& final(db)@ == (crate::keyspace::RdbModel { data: m2, ..old(db)@ })
            }),
    {
        match self {
            Command::Ping => Response::Pong,
            Command::Echo(v) => Response::Echo(v.clone()),
            Command::Command => Response::Okay,
            Command::SetValue { key, value: _, opts } => {
                if opts.get() {
                    match db.db_get(key, now_ms) {
                        Some(v) => Response::Echo(v),
                        None => Response::Null,
                    }
                } else {
                    Response::Okay
                }
            },
            Command::Get(key) => {
                match db.db_get(key, now_ms) {
                    Some(v) => Response::Echo(v),
                    None => Response::Null,
                }
            },
            Command::ConfigGet(key) => {
                match config_get(config, key) {
                    Some(value) => {
                        let arr = vec![
                            RESPValue::BulkString(key.clone()),
                            RESPValue::BulkString(value),
                        ];
                        proof {
                            lemma_view_list(arr@, 0);
                            assert(arr@.len() == 2);
                            assert(arr@[0].deep_view() == RespData::BulkString(key@));
                            assert(view_list(arr@, 0) =~= seq![
                                arr@[0].deep_view(),
                                arr@[1].deep_view(),
                            ]);
                        }
                        Response::Echo(RESPValue::Array(arr))
                    },
                    None => Response::Null,
                }
            },
        }
    }

    /// Executes this command against the keyspace.
    pub fn execute(&self, db: &mut crate::keyspace::Rdb)
        ensures
            final(db)@ == (crate::keyspace::RdbModel {
                data: spec_execute(self.deep_view(), old(db)@.data),
                ..old(db)@
            }),
    {
        match self {
            Command::SetValue { key, value, opts } => {
                db.db_set(key.clone(), value.clone(), opts);
            },
            _ => {
            },
        }
    }
}

/// What one parsed value contributes to the session: a recognized command
/// is answered (the reply computed first, then the write applied), a
/// rejected one is answered with an error reply and changes nothing.
pub open spec fn spec_process_value(
    v: RespData,
    m: Map<Seq<char>, EntryModel>,
    cfg: ConfigModel,
    now_ms: u64,
) -> (Seq<char>, Map<Seq<char>, EntryModel>) {
    match spec_into_command(v, now_ms) {
        Ok(c) => {
            let (resp, m2) = spec_as_response(c, m, cfg, now_ms);
            (encode_response(resp), spec_execute(c, m2))
        },
        Err(e) => (spec_error_reply(e), m),
    }
}

/// The replies to a batch of parsed values, executed in arrival order, and
/// the mapping they leave behind.
pub open spec fn spec_process_values(
    vals: Seq<RespData>,
    m: Map<Seq<char>, EntryModel>,
    cfg: ConfigModel,
    now_ms: u64,
) -> (Seq<char>, Map<Seq<char>, EntryModel>)
    decreases vals.len(),
{
    if vals.len() == 0 {
        (Seq::empty(), m)
    } else {
        let (out0, m1) = spec_process_value(vals[0], m, cfg, now_ms);
        let (out_rest, m2) = spec_process_values(vals.drop_first(), m1, cfg, now_ms);
        (out0 + out_rest, m2)
    }
}

/// Parses every complete command in the buffer, executes each against the
/// keyspace in arrival order, and returns the concatenated replies with the
/// number of characters consumed; an incomplete trailing frame is left for
/// the caller to complete. A buffer that can never parse is reported as an
/// error and changes nothing.
pub fn process_buffer(
    buffer: &str,
    db: &mut crate::keyspace::Rdb,
    config: &Config,
    now_ms: u64,
) -> (r: Result<(String, usize), crate::parser::ParseError>)
    ensures
        ({
            let segs = crate::parser::split_crlf(buffer@);
            let st = crate::parser::spec_parse_stream(segs.drop_last());
            match r {
                Ok(p) => st is Ok && p.1 == crate::parser::seg_chars(segs, st->Ok_0.1) && ({
                    let (out, m2) = spec_process_values(
                        st->Ok_0.0,
                        old(db)@.data,
                        config@,
                        now_ms,
                    );
                    &&& p.0@ == out
                    &&& final(db)@ == (crate::keyspace::RdbModel { data: m2, ..old(db)@ })
                }),
                Err(e) => st == Err::<(Seq<RespData>, int), crate::parser::ParseError>(e)
                    && *final(db) == *old(db),
            }
        }),
{
    match crate::parser::parse_stream(buffer) {
        Ok((vals, consumed)) => {
            let ghost dvals = vals.deep_view();
            let ghost m0 = db@.data;
            let ghost orig_rdb = db@;
            let mut out = String::new();
            let n = vals.len();
            let mut i: usize = 0;
            proof {
                lemma_view_list(vals@, 0);
                assert(dvals.subrange(0, n as int) =~= dvals);
            }
            while i < n
                invariant
                    i <= n,
                    n == vals@.len(),
                    dvals == vals.deep_view(),
                    dvals.len() == n,
                    forall|j: int| 0 <= j < n ==> dvals[j] == #[trigger] vals@[j].deep_view(),
                    orig_rdb == (crate::keyspace::RdbModel { data: m0, ..db@ }),
                    ({
                        let (out_rest, m2) = spec_process_values(
                            dvals.subrange(i as int, n as int),
                            db@.data,
                            config@,
                            now_ms,
                        );
                        let (out_all, m_all) = spec_process_values(dvals, m0, config@, now_ms);
                        out_all == out@ + out_rest && m_all == m2
                    }),
                decreases n - i,
            {
                let ghost suffix = dvals.subrange(i as int, n as int);
                proof {
                    assert(suffix[0] == dvals[i as int]);
                    assert(suffix.drop_first() =~= dvals.subrange(i + 1, n as int));
                }
                let v = vals[i].clone();
                match v.into_command(now_ms) {
                    Ok(cmd) => {
                        let resp = cmd.as_response(db, config, now_ms);
                        cmd.execute(db);
                        let piece = resp.encode();
                        out.append(piece.as_str());
                    },
                    Err(e) => {
                        let piece = error_reply(&e);
                        out.append(piece.as_str());
                    },
                }
                i = i + 1;
            }
            proof {
                assert(dvals.subrange(n as int, n as int) =~= Seq::<RespData>::empty());
                let (out_all, m_all) = spec_process_values(dvals, m0, config@, now_ms);
                assert(out_all =~= out@);
            }
            Ok((out, consumed))
        },
        Err(e) => Err(e),
    }
}

} // verus!
