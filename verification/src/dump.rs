//! Coredump files and what their names say of them.

use vstd::prelude::*;
use vstd::string::*;
use vstd::utf8::*;

use crate::path::{bytes_of, file_name, file_name_of, lemma_file_name};
use crate::text::{
    chars_of, decimal, is_digit, join, lemma_decimal_reads_back, lemma_join_split,
    lemma_split_join, number, parse_number, parse_number_32, split, split_on, str_eq, texts,
    utf8_str, utf8_text,
};

verus! {

/// Maximum printable length of a process name as captured by the kernel.
///
/// `/proc/PID/comm` is truncated to `TASK_COMM_LEN - 1` bytes; on Linux
/// `TASK_COMM_LEN` is 16 (one byte reserved for the trailing NUL, see
/// `include/linux/sched.h`), so the comm value that ends up in the
/// systemd-coredump filename is at most 15 bytes.
pub const COMM_MAX_LEN: usize = 15;

/// A coredump, as its file name describes it.
#[derive(Debug, Clone, PartialEq, Eq)]
pub struct CoredumpFile {
    /// The path of the file, byte for byte.
    pub path: Vec<u8>,
    pub comm: String,
    pub uid: u32,
    pub boot_id: String,
    pub pid: u32,
    pub timestamp_micros: u64,
    pub extension: Option<String>,
}

/// Why a file name is not that of a coredump.
#[derive(Debug, PartialEq, Eq)]
pub enum ParseError {
    NotACoredump,
    BadField(&'static str),
}

/// What the name of a coredump says.
#[verifier::ext_equal]
pub struct DumpName {
    pub comm: Seq<char>,
    pub uid: u32,
    pub boot_id: Seq<char>,
    pub pid: u32,
    pub timestamp_micros: u64,
    pub extension: Option<Seq<char>>,
}

/// The model of a [`ParseError`].
pub enum NameFault {
    NotACoredump,
    BadField(Seq<char>),
}

impl View for ParseError {
    type V = NameFault;

    open spec fn view(&self) -> NameFault {
        match self {
            ParseError::NotACoredump => NameFault::NotACoredump,
            ParseError::BadField(field) => NameFault::BadField(field@),
        }
    }
}

impl View for CoredumpFile {
    type V = DumpName;

    open spec fn view(&self) -> DumpName {
        DumpName {
            comm: self.comm@,
            uid: self.uid,
            boot_id: self.boot_id@,
            pid: self.pid,
            timestamp_micros: self.timestamp_micros,
            extension: match self.extension {
                Some(e) => Some(e@),
                None => None,
            },
        }
    }
}

/// The value of a hexadecimal digit, of either case.
pub open spec fn hex_value(b: u8) -> Option<u8> {
    if 0x30 <= b <= 0x39 {
        Some((b - 0x30) as u8)
    } else if 0x41 <= b <= 0x46 {
        Some((b - 0x37) as u8)
    } else if 0x61 <= b <= 0x66 {
        Some((b - 0x57) as u8)
    } else {
        None
    }
}

/// Whether bytes start with an escape: a backslash, an `x` and two
/// hexadecimal digits.
pub open spec fn starts_with_escape(s: Seq<u8>) -> bool {
    &&& s.len() >= 4
    &&& s[0] == 0x5c
    &&& s[1] == 0x78
    &&& hex_value(s[2]) is Some
    &&& hex_value(s[3]) is Some
}

/// A process name with its escapes replaced by the bytes they stand for. Each
/// byte becomes the character with the same number.
pub open spec fn unescaped(s: Seq<u8>) -> Seq<char>
    decreases s.len(),
{
    if s.len() == 0 {
        Seq::empty()
    } else if starts_with_escape(s) {
        seq![((hex_value(s[2])->0 * 16 + hex_value(s[3])->0) as u8) as char] + unescaped(s.skip(4))
    } else {
        seq![s[0] as char] + unescaped(s.skip(1))
    }
}

pub open spec fn is_hex_digit(c: char) -> bool {
    ||| '0' <= c && c <= '9'
    ||| 'a' <= c && c <= 'f'
    ||| 'A' <= c && c <= 'F'
}

/// A boot id: 32 hexadecimal digits.
pub open spec fn is_boot_id(s: Seq<char>) -> bool {
    s.len() == 32 && forall|i: int| 0 <= i < s.len() ==> is_hex_digit(#[trigger] s[i])
}

/// What a file name says, if it is the name of a coredump:
/// `core.<comm>.<uid>.<boot id>.<pid>.<timestamp>`, with an optional extension
/// behind it. The fields are checked from left to right.
pub open spec fn parsed_name(name: Seq<char>) -> Result<DumpName, NameFault> {
    let parts = split(name, '.');
    if !(parts.len() == 6 || parts.len() == 7) || parts[0] != "core"@ {
        Err(NameFault::NotACoredump)
    } else if unescaped(encode_utf8(parts[1])).len() == 0 {
        Err(NameFault::BadField("comm"@))
    } else if !number_fits(parts[2], u32::MAX as nat) {
        Err(NameFault::BadField("uid"@))
    } else if !is_boot_id(parts[3]) {
        Err(NameFault::BadField("boot_id"@))
    } else if !number_fits(parts[4], u32::MAX as nat) {
        Err(NameFault::BadField("pid"@))
    } else if !number_fits(parts[5], u64::MAX as nat) {
        Err(NameFault::BadField("timestamp"@))
    } else {
        Ok(
            DumpName {
                comm: unescaped(encode_utf8(parts[1])),
                uid: number(parts[2])->0 as u32,
                boot_id: parts[3],
                pid: number(parts[4])->0 as u32,
                timestamp_micros: number(parts[5])->0 as u64,
                extension: if parts.len() == 7 {
                    Some(parts[6])
                } else {
                    None
                },
            },
        )
    }
}

/// Whether a text stands for an unsigned number up to `max`.
pub open spec fn number_fits(s: Seq<char>, max: nat) -> bool {
    number(s) is Some && number(s)->0 <= max
}

/// What the last component of a path says, if it is the name of a coredump.
pub open spec fn parsed_path(path: Seq<u8>) -> Result<DumpName, NameFault> {
    match file_name_of(path) {
        Some(name) => match utf8_text(name) {
            Some(text) => parsed_name(text),
            None => Err(NameFault::NotACoredump),
        },
        None => Err(NameFault::NotACoredump),
    }
}

impl CoredumpFile {
    /// Reads the file name at the end of a path.
    pub fn from_path(path: &[u8]) -> (r: Result<CoredumpFile, ParseError>)
        ensures
            match r {
                Ok(dump) => parsed_path(path@) == Ok::<DumpName, NameFault>(dump@) && dump.path@
                    == path@,
                Err(e) => parsed_path(path@) == Err::<DumpName, NameFault>(e@),
            },
    {
        let name = match file_name(path) {
            Some(name) => name,
            None => return Err(ParseError::NotACoredump),
        };
        let text = match utf8_str(name.as_slice()) {
            Some(text) => text,
            None => return Err(ParseError::NotACoredump),
        };
        match CoredumpFile::from_name(text) {
            Ok(mut dump) => {
                let ghost said = dump@;
                dump.path = bytes_of(path, 0, path.len());
                assert(dump.path@ =~= path@);
                assert(dump@ == said);
                Ok(dump)
            },
            Err(e) => Err(e),
        }
    }

    /// Reads a file name.
    pub fn from_name(name: &str) -> (r: Result<CoredumpFile, ParseError>)
        ensures
            match r {
                Ok(dump) => parsed_name(name@) == Ok::<DumpName, NameFault>(dump@) && dump.path@
                    == name.spec_bytes(),
                Err(e) => parsed_name(name@) == Err::<DumpName, NameFault>(e@),
            },
    {
        let mut parts = split_on(name, '.');
        let ghost pieces = split(name@, '.');
        assert(texts(parts@).len() == parts@.len());
        assert(forall|i: int| 0 <= i < parts@.len() ==> (#[trigger] parts@[i])@ == pieces[i]) by {
            assert forall|i: int| 0 <= i < parts@.len() implies (#[trigger] parts@[i])@
                == pieces[i] by {
                assert(texts(parts@)[i] == parts@[i]@);
            }
        }
        if !(parts.len() == 6 || parts.len() == 7) {
            return Err(ParseError::NotACoredump);
        }
        if !str_eq(parts[0].as_str(), "core") {
            return Err(ParseError::NotACoredump);
        }
        let comm = unescape_comm(parts[1].as_str());
        if comm.as_str().is_empty() {
            return Err(ParseError::BadField("comm"));
        }
        let uid = match parse_number_32(parts[2].as_str()) {
            Some(uid) => uid,
            None => return Err(ParseError::BadField("uid")),
        };
        if !boot_id_ok(parts[3].as_str()) {
            return Err(ParseError::BadField("boot_id"));
        }
        let pid = match parse_number_32(parts[4].as_str()) {
            Some(pid) => pid,
            None => return Err(ParseError::BadField("pid")),
        };
        let timestamp_micros = match parse_number(parts[5].as_str()) {
            Some(timestamp) => timestamp,
            None => return Err(ParseError::BadField("timestamp")),
        };
        let extension = if parts.len() == 7 {
            Some(parts[6].clone())
        } else {
            None
        };
        let boot_id = parts[3].clone();
        Ok(
            CoredumpFile {
                path: name.as_bytes_vec(),
                comm,
                uid,
                boot_id,
                pid,
                timestamp_micros,
                extension,
            },
        )
    }
}

fn boot_id_ok(s: &str) -> (b: bool)
    ensures
        b == is_boot_id(s@),
{
    let chars = chars_of(s);
    if chars.len() != 32 {
        return false;
    }
    let mut i: usize = 0;
    while i < chars.len()
        invariant
            chars@ == s@,
            i <= chars@.len(),
            forall|j: int| 0 <= j < i ==> is_hex_digit(#[trigger] s@[j]),
        decreases chars@.len() - i,
    {
        let c = chars[i];
        if !(('0' <= c && c <= '9') || ('a' <= c && c <= 'f') || ('A' <= c && c <= 'F')) {
            assert(!is_hex_digit(s@[i as int]));
            return false;
        }
        i = i + 1;
    }
    true
}

fn hex_digit(b: u8) -> (d: Option<u8>)
    ensures
        d == hex_value(b),
        d matches Some(v) ==> v < 16,
{
    if 0x30 <= b && b <= 0x39 {
        Some(b - 0x30)
    } else if 0x41 <= b && b <= 0x46 {
        Some(b - 0x37)
    } else if 0x61 <= b && b <= 0x66 {
        Some(b - 0x57)
    } else {
        None
    }
}

/// Replaces the escapes in the process name of a file name.
pub fn unescape_comm(s: &str) -> (out: String)
    ensures
        out@ == unescaped(s.spec_bytes()),
{
    let bytes = s.as_bytes();
    let mut out = String::new();
    let mut i: usize = 0;
    assert(bytes@.skip(0) =~= bytes@);
    while i < bytes.len()
        invariant
            bytes@ == s.spec_bytes(),
            i <= bytes@.len(),
            out@ + unescaped(bytes@.skip(i as int)) == unescaped(s.spec_bytes()),
        decreases bytes@.len() - i,
    {
        let ghost rest = bytes@.skip(i as int);
        let ghost before = out@;
        if bytes.len() - i >= 4 && bytes[i] == 0x5c && bytes[i + 1] == 0x78 {
            if let (Some(high), Some(low)) = (hex_digit(bytes[i + 2]), hex_digit(bytes[i + 3])) {
                let byte: u8 = high * 16 + low;
                out.push(byte as char);
                assert(starts_with_escape(rest));
                assert(rest.skip(4) =~= bytes@.skip(i + 4));
                assert(out@ + unescaped(bytes@.skip(i + 4)) =~= before + unescaped(rest));
                i = i + 4;
                continue ;
            }
        }
        out.push(bytes[i] as char);
        assert(!starts_with_escape(rest));
        assert(rest.skip(1) =~= bytes@.skip(i + 1));
        assert(out@ + unescaped(bytes@.skip(i + 1)) =~= before + unescaped(rest));
        i = i + 1;
    }
    assert(out@ =~= out@ + unescaped(bytes@.skip(i as int)));
    out
}

/// The name of a dump, written from its fields. The process name is given as it
/// stands in the name.
pub open spec fn written_name(
    comm: Seq<char>,
    uid: u32,
    boot_id: Seq<char>,
    pid: u32,
    timestamp_micros: u64,
    extension: Option<Seq<char>>,
) -> Seq<char> {
    let fields = seq![
        "core"@,
        comm,
        decimal(uid as nat),
        boot_id,
        decimal(pid as nat),
        decimal(timestamp_micros as nat),
    ];
    join(
        match extension {
            Some(e) => fields.push(e),
            None => fields,
        },
        '.',
    )
}

proof fn lemma_no_point(s: Seq<char>)
    requires
        forall|i: int| 0 <= i < s.len() ==> is_hex_digit(#[trigger] s[i]) || is_digit(s[i]),
    ensures
        !s.contains('.'),
{
}

/// The name of a dump says what its fields are: a name that is written from
/// fields reads back as these fields.
pub proof fn lemma_written_name_reads_back(
    comm: Seq<char>,
    uid: u32,
    boot_id: Seq<char>,
    pid: u32,
    timestamp_micros: u64,
    extension: Option<Seq<char>>,
)
    requires
        comm.len() > 0,
        !comm.contains('.'),
        is_boot_id(boot_id),
        extension matches Some(e) ==> !e.contains('.'),
    ensures
        parsed_name(written_name(comm, uid, boot_id, pid, timestamp_micros, extension)) == Ok::<
            DumpName,
            NameFault,
        >(
            DumpName {
                comm: unescaped(encode_utf8(comm)),
                uid,
                boot_id,
                pid,
                timestamp_micros,
                extension,
            },
        ),
{
    let six = seq![
        "core"@,
        comm,
        decimal(uid as nat),
        boot_id,
        decimal(pid as nat),
        decimal(timestamp_micros as nat),
    ];
    let fields = match extension {
        Some(e) => six.push(e),
        None => six,
    };
    reveal_strlit("core");
    lemma_decimal_reads_back(uid as nat);
    lemma_decimal_reads_back(pid as nat);
    lemma_decimal_reads_back(timestamp_micros as nat);
    lemma_no_point(decimal(uid as nat));
    lemma_no_point(decimal(pid as nat));
    lemma_no_point(decimal(timestamp_micros as nat));
    lemma_no_point(boot_id);
    assert(!"core"@.contains('.'));
    assert forall|i: int| 0 <= i < fields.len() implies !(#[trigger] fields[i]).contains('.') by {
        if i < 6 {
            assert(fields[i] == six[i]);
        }
    }
    lemma_join_split(fields, '.');
    assert(encode_utf8(comm).len() > 0) by {
        reveal_with_fuel(encode_utf8, 2);
    }
    assert(unescaped(encode_utf8(comm)).len() > 0);
}

/// A hexadecimal digit, in upper or lower case.
pub open spec fn hex_digit_of(value: u8, upper: bool) -> u8 {
    if value < 10 {
        (0x30 + value) as u8
    } else if upper {
        (0x37 + value) as u8
    } else {
        (0x57 + value) as u8
    }
}

/// The escape of a byte: a backslash, an `x` and its two hexadecimal digits.
pub open spec fn escape_of(byte: u8, upper: bool) -> Seq<u8> {
    seq![0x5cu8, 0x78u8, hex_digit_of(byte / 16, upper), hex_digit_of(byte % 16, upper)]
}

/// A process name with some of its bytes escaped.
pub open spec fn escaped(name: Seq<u8>, escapes: spec_fn(u8) -> bool, upper: bool) -> Seq<u8>
    decreases name.len(),
{
    if name.len() == 0 {
        Seq::empty()
    } else {
        let rest = escaped(name.drop_first(), escapes, upper);
        if escapes(name[0]) {
            escape_of(name[0], upper) + rest
        } else {
            seq![name[0]] + rest
        }
    }
}

/// The characters with the numbers of bytes.
pub open spec fn latin(bytes: Seq<u8>) -> Seq<char> {
    bytes.map_values(|b: u8| b as char)
}

/// An escape is replaced wherever it stands, and what is behind it is read on
/// as if it stood alone.
pub proof fn lemma_escape_is_replaced(byte: u8, upper: bool, rest: Seq<u8>)
    ensures
        unescaped(escape_of(byte, upper) + rest) == seq![byte as char] + unescaped(rest),
{
    let whole = escape_of(byte, upper) + rest;
    assert(whole.skip(4) =~= rest);
    assert(byte / 16 < 16 && byte % 16 < 16 && (byte / 16) * 16 + byte % 16 == byte);
    assert(hex_value(whole[2]) == Some((byte / 16) as u8));
    assert(hex_value(whole[3]) == Some((byte % 16) as u8));
}

/// A byte that starts no escape stays, and what is behind it is read on.
pub proof fn lemma_other_bytes_stay(byte: u8, rest: Seq<u8>)
    requires
        !(byte == 0x5c && rest.len() >= 3 && rest[0] == 0x78 && is_hex_byte(rest[1]) && is_hex_byte(
            rest[2],
        )),
    ensures
        unescaped(seq![byte] + rest) == seq![byte as char] + unescaped(rest),
{
    assert((seq![byte] + rest).skip(1) =~= rest);
    assert(!starts_with_escape(seq![byte] + rest));
}

/// Unescaping undoes escaping: whichever bytes of a process name are escaped,
/// backslashes among them, and however many there are, the name is read back
/// byte by byte.
pub proof fn lemma_unescaping_undoes_escaping(
    name: Seq<u8>,
    escapes: spec_fn(u8) -> bool,
    upper: bool,
)
    requires
        escapes(0x5c),
    ensures
        unescaped(escaped(name, escapes, upper)) == latin(name),
    decreases name.len(),
{
    if name.len() == 0 {
        assert(latin(name) =~= Seq::empty());
    } else {
        let rest = escaped(name.drop_first(), escapes, upper);
        lemma_unescaping_undoes_escaping(name.drop_first(), escapes, upper);
        if escapes(name[0]) {
            lemma_escape_is_replaced(name[0], upper, rest);
        } else {
            lemma_other_bytes_stay(name[0], rest);
        }
        assert(seq![name[0] as char] + latin(name.drop_first()) =~= latin(name));
    }
}

/// Whether a byte is a hexadecimal digit of either case.
pub open spec fn is_hex_byte(b: u8) -> bool {
    ||| 0x30 <= b <= 0x39
    ||| 0x41 <= b <= 0x46
    ||| 0x61 <= b <= 0x66
}

/// A name in which no backslash, `x` and two hexadecimal digits stand in a row
/// is read as it is.
pub proof fn lemma_names_without_escapes_stay(s: Seq<u8>)
    requires
        forall|i: int|
            0 <= i < s.len() - 3 ==> !(#[trigger] s[i] == 0x5c && s[i + 1] == 0x78 && is_hex_byte(
                s[i + 2],
            ) && is_hex_byte(s[i + 3])),
    ensures
        unescaped(s) == latin(s),
    decreases s.len(),
{
    if s.len() == 0 {
        assert(latin(s) =~= Seq::empty());
    } else {
        let rest = s.skip(1);
        assert forall|i: int| 0 <= i < rest.len() - 3 implies !(#[trigger] rest[i] == 0x5c && rest[i
            + 1] == 0x78 && is_hex_byte(rest[i + 2]) && is_hex_byte(rest[i + 3])) by {
            assert(rest[i] == s[i + 1]);
        }
        lemma_names_without_escapes_stay(rest);
        if s.len() >= 4 {
            assert(!(s[0] == 0x5c && s[1] == 0x78 && is_hex_byte(s[2]) && is_hex_byte(s[3])));
        }
        assert(!starts_with_escape(s));
        assert(seq![s[0] as char] + latin(rest) =~= latin(s));
    }
}

/// A dump is read with the process name that it was written with: in a name
/// made of fields, the process name may have any of its bytes escaped, and every
/// one is read back.
pub proof fn lemma_process_name_reads_back(
    comm: Seq<char>,
    name: Seq<u8>,
    escapes: spec_fn(u8) -> bool,
    upper: bool,
    uid: u32,
    boot_id: Seq<char>,
    pid: u32,
    timestamp_micros: u64,
    extension: Option<Seq<char>>,
)
    requires
        escapes(0x5c),
        encode_utf8(comm) == escaped(name, escapes, upper),
        comm.len() > 0,
        !comm.contains('.'),
        is_boot_id(boot_id),
        extension matches Some(e) ==> !e.contains('.'),
    ensures
        parsed_name(written_name(comm, uid, boot_id, pid, timestamp_micros, extension)) matches Ok(
            dump,
        ) && dump.comm == latin(name) && dump.uid == uid && dump.boot_id == boot_id && dump.pid
            == pid && dump.timestamp_micros == timestamp_micros && dump.extension == extension,
{
    lemma_written_name_reads_back(comm, uid, boot_id, pid, timestamp_micros, extension);
    lemma_unescaping_undoes_escaping(name, escapes, upper);
}

/// A boot id is made of 32 hexadecimal digits, of either case.
pub proof fn lemma_boot_id(s: Seq<char>)
    ensures
        is_boot_id(s) <==> s.len() == 32 && forall|i: int|
            0 <= i < s.len() ==> ('0' <= #[trigger] s[i] && s[i] <= '9') || ('a' <= s[i] && s[i]
                <= 'f') || ('A' <= s[i] && s[i] <= 'F'),
{
}

/// What is read of a name stands in it: the name is that of the pieces between
/// its points, and each field is read from the piece at its own place.
pub proof fn lemma_read_name_is_well_formed(name: Seq<char>) -> (pieces: Seq<Seq<char>>)
    requires
        parsed_name(name) is Ok,
    ensures
        ({
            let dump = parsed_name(name)->Ok_0;
            &&& name == join(pieces, '.')
            &&& forall|i: int| 0 <= i < pieces.len() ==> !(#[trigger] pieces[i]).contains('.')
            &&& pieces.len() == if dump.extension is Some {
                7int
            } else {
                6int
            }
            &&& pieces[0] == "core"@
            &&& pieces[1].len() > 0
            &&& dump.comm == unescaped(encode_utf8(pieces[1]))
            &&& number(pieces[2]) == Some(dump.uid as nat)
            &&& pieces[3] == dump.boot_id
            &&& dump.boot_id.len() == 32
            &&& number(pieces[4]) == Some(dump.pid as nat)
            &&& number(pieces[5]) == Some(dump.timestamp_micros as nat)
            &&& dump.extension matches Some(e) ==> pieces[6] == e
        }),
{
    lemma_split_join(name, '.');
    split(name, '.')
}

/// The complaint about a name: a name of other than six or seven pieces, or
/// whose first piece is not `core`, is that of no dump; otherwise the first
/// field that cannot be read is named.
pub proof fn lemma_complaints(pieces: Seq<Seq<char>>)
    requires
        pieces.len() >= 1,
        forall|i: int| 0 <= i < pieces.len() ==> !(#[trigger] pieces[i]).contains('.'),
    ensures
        ({
            let read = parsed_name(join(pieces, '.'));
            let is_dump = (pieces.len() == 6 || pieces.len() == 7) && pieces[0] == "core"@;
            let uid_ok = number(pieces[2]) matches Some(n) && n <= 0xffff_ffff;
            let pid_ok = number(pieces[4]) matches Some(n) && n <= 0xffff_ffff;
            let time_ok = number(pieces[5]) matches Some(n) && n <= 0xffff_ffff_ffff_ffff;
            &&& !is_dump <==> read == Err::<DumpName, NameFault>(NameFault::NotACoredump)
            &&& is_dump ==> {
                if pieces[1].len() == 0 {
                    read == Err::<DumpName, NameFault>(NameFault::BadField("comm"@))
                } else if !uid_ok {
                    read == Err::<DumpName, NameFault>(NameFault::BadField("uid"@))
                } else if !is_boot_id(pieces[3]) {
                    read == Err::<DumpName, NameFault>(NameFault::BadField("boot_id"@))
                } else if !pid_ok {
                    read == Err::<DumpName, NameFault>(NameFault::BadField("pid"@))
                } else if !time_ok {
                    read == Err::<DumpName, NameFault>(NameFault::BadField("timestamp"@))
                } else {
                    read is Ok
                }
            }
        }),
{
    lemma_join_split(pieces, '.');
    if pieces.len() >= 2 {
        if pieces[1].len() > 0 {
            assert(encode_utf8(pieces[1]).len() > 0) by {
                reveal_with_fuel(encode_utf8, 2);
            }
        } else {
            assert(encode_utf8(pieces[1]).len() == 0);
        }
    }
}

/// Any two hexadecimal digits, of whichever case each is, make an escape: the
/// first counts sixteen times, the second once.
pub proof fn lemma_hexadecimal_digits(high: u8, low: u8, rest: Seq<u8>)
    requires
        is_hex_byte(high),
        is_hex_byte(low),
    ensures
        ({
            let value = |b: u8|
                if b <= 0x39 {
                    b - 0x30
                } else if b <= 0x46 {
                    b - 0x41 + 10
                } else {
                    b - 0x61 + 10
                };
            let read = unescaped(seq![0x5cu8, 0x78u8, high, low] + rest);
            read.len() > 0 && read[0] as int == value(high) * 16 + value(low) && read.skip(1)
                == unescaped(rest)
        }),
{
    let whole = seq![0x5cu8, 0x78u8, high, low] + rest;
    assert(whole.skip(4) =~= rest);
    assert(starts_with_escape(whole));
    let value: int = hex_value(high)->0 * 16 + hex_value(low)->0;
    assert(0 <= value <= 255);
    let first = (value as u8) as char;
    assert(unescaped(whole) == seq![first] + unescaped(rest));
    assert((seq![first] + unescaped(rest)).skip(1) =~= unescaped(rest));
    assert(first as int == value);
}

/// What a path says is what the name at its end says. A name that is no text is
/// not that of a dump, and neither is a path without a name.
pub proof fn lemma_path_says_what_its_name_says(directory: Seq<u8>, name: Seq<char>)
    requires
        name.len() > 0,
        !encode_utf8(name).contains(0x2f),
        encode_utf8(name) != seq![0x2eu8],
        encode_utf8(name) != seq![0x2eu8, 0x2eu8],
    ensures
        parsed_path(directory.push(0x2f) + encode_utf8(name)) == parsed_name(name),
        parsed_path(encode_utf8(name)) == parsed_name(name),
        file_name_of(directory) is None || !valid_utf8(file_name_of(directory)->0) ==> parsed_path(
            directory,
        ) == Err::<DumpName, NameFault>(NameFault::NotACoredump),
{
    broadcast use {encode_utf8_decode_utf8, encode_utf8_valid_utf8};

    reveal_with_fuel(encode_utf8, 2);
    assert(encode_utf8(name).len() > 0);
    lemma_file_name(directory, encode_utf8(name));
}

} // verus!
