use vstd::prelude::*;

verus! {

/// One record of the append-only log.
///
/// `Put` binds `key` to `value`; `Remove` is a tombstone that unbinds `key`.
pub enum Command {
    Put { key: String, value: String },
    Remove { key: String },
}

impl Command {
    /// A record that binds `key` to `value`.
    pub fn set(key: String, value: String) -> (r: Command)
        ensures
            r == (Command::Put { key, value }),
    {
        Command::Put { key, value }
    }

    /// A tombstone for `key`.
    pub fn remove(key: String) -> (r: Command)
        ensures
            r == (Command::Remove { key }),
    {
        Command::Remove { key }
    }

    /// The key the command is about.
    pub fn key(&self) -> (r: &String)
        ensures
            r@ == self.key_view(),
    {
        match self {
            Command::Put { key, .. } => key,
            Command::Remove { key } => key,
        }
    }

    pub open spec fn key_view(&self) -> Seq<char> {
        match self {
            Command::Put { key, .. } => key@,
            Command::Remove { key } => key@,
        }
    }
}

/// Where a record lives: segment `gen`, bytes `[pos, pos + len)`.
#[derive(Clone, Copy, PartialEq, Eq, Structural, Debug)]
pub struct CommandPos {
    pub gen: u64,
    pub pos: u64,
    pub len: u64,
}

/// The location of the byte range `start..end` of segment `gen`; an inverted
/// range is taken as empty.
pub open spec fn pos_of_range(gen: u64, start: u64, end: u64) -> CommandPos {
    CommandPos { gen, pos: start, len: if start <= end { (end - start) as u64 } else { 0 } }
}

impl From<(u64, std::ops::Range<u64>)> for CommandPos {
    fn from(v: (u64, std::ops::Range<u64>)) -> (r: CommandPos) {
        let (gen, range) = v;
        let len: u64 = if range.start <= range.end { range.end - range.start } else { 0 };
        CommandPos { gen, pos: range.start, len }
    }
}

impl vstd::std_specs::convert::FromSpecImpl<(u64, std::ops::Range<u64>)> for CommandPos {
    open spec fn obeys_from_spec() -> bool {
        true
    }

    open spec fn from_spec(v: (u64, std::ops::Range<u64>)) -> CommandPos {
        pos_of_range(v.0, v.1.start, v.1.end)
    }
}

/// Errors of the store.
#[derive(Debug)]
pub enum KvsError {
    /// A filesystem or socket failure, with its message.
    Io(String),
    /// A log record that could not be decoded, with the decoder's message.
    Serde(String),
    /// `remove` of a key that is not bound.
    KeyNotFound,
    /// An error carried as text, such as one received over the network.
    StringError(String),
    /// The index pointed at a record that is not a `Put`.
    UnexpectedCommandType,
}

/// What `get` returns for the record found at a key's index entry: the
/// value of a `Put`, or `UnexpectedCommandType` for a tombstone.
pub fn value_of(cmd: Command) -> (r: Result<String, KvsError>)
    ensures
        match cmd {
            Command::Put { value, .. } => r == Ok::<String, KvsError>(value),
            Command::Remove { .. } => r == Err::<String, KvsError>(KvsError::UnexpectedCommandType),
        },
{
    match cmd {
        Command::Put { value, .. } => Ok(value),
        Command::Remove { .. } => Err(KvsError::UnexpectedCommandType),
    }
}

/// Lowercase hexadecimal digit of `d` (below 16).
pub open spec fn hex_digit(d: nat) -> char {
    if d < 10 {
        (d + '0' as nat) as char
    } else {
        (d - 10 + 'a' as nat) as char
    }
}

/// How one character is written inside a JSON string: `"` and `\` and the
/// characters below U+0020 are escaped (with the short forms `\b \t \n \f
/// \r` where they exist, else `\u00xx`); every other character is copied.
pub open spec fn escape_char(c: char) -> Seq<char> {
    let n = c as u32;
    if c == '"' {
        seq!['\\', '"']
    } else if c == '\\' {
        seq!['\\', '\\']
    } else if n == 8 {
        seq!['\\', 'b']
    } else if n == 9 {
        seq!['\\', 't']
    } else if n == 10 {
        seq!['\\', 'n']
    } else if n == 12 {
        seq!['\\', 'f']
    } else if n == 13 {
        seq!['\\', 'r']
    } else if n < 32 {
        seq!['\\', 'u', '0', '0', hex_digit(n as nat / 16), hex_digit(n as nat % 16)]
    } else {
        seq![c]
    }
}

/// The characters of `s`, each escaped.
pub open spec fn escaped(s: Seq<char>) -> Seq<char>
    decreases s.len(),
{
    if s.len() == 0 {
        Seq::empty()
    } else {
        escaped(s.drop_last()) + escape_char(s.last())
    }
}

/// The JSON string literal that stands for the text `s`.
pub open spec fn json_string(s: Seq<char>) -> Seq<char> {
    seq!['"'] + escaped(s) + seq!['"']
}

/// Relies on `serde_json::to_string` on a `str`: it writes the text between
/// quotes, escaping each character as `escape_char` says (its `ESCAPE` table
/// and `write_char_escape`), and cannot fail for a `str` (it has no map keys
/// and its `Serialize` never errs).
#[verifier::external_body]
fn json_quote(s: &str) -> (r: String)
    ensures
        r@ == json_string(s@),
{
    serde_json::to_string(s).unwrap_or_default()
}

/// The text of the log record of `cmd`: a JSON object tagged with the
/// command's kind, `{"Set":{"key":K,"value":V}}` or `{"Remove":{"key":K}}`.
pub open spec fn record_text(cmd: Command) -> Seq<char> {
    match cmd {
        Command::Put { key, value } => "{\"Set\":{\"key\":"@ + json_string(key@) + ",\"value\":"@
            + json_string(value@) + "}}"@,
        Command::Remove { key } => "{\"Remove\":{\"key\":"@ + json_string(key@) + "}}"@,
    }
}

/// The log record of `cmd`, as it is appended to a segment.
pub fn encode(cmd: &Command) -> (r: String)
    ensures
        r@ == record_text(*cmd),
{
    match cmd {
        Command::Put { key, value } => {
            let k = json_quote(key.as_str());
            let v = json_quote(value.as_str());
            String::from_str("{\"Set\":{\"key\":").concat(k.as_str()).concat(",\"value\":").concat(
                v.as_str(),
            ).concat("}}")
        },
        Command::Remove { key } => {
            let k = json_quote(key.as_str());
            String::from_str("{\"Remove\":{\"key\":").concat(k.as_str()).concat("}}")
        },
    }
}

} // verus!
