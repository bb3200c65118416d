//! Discovery of the shared-memory segment of a database instance.
//!
//! The size of the segment is known only to a session under the account of
//! the instance. The program therefore runs itself again under that account,
//! in probe mode; the probe prints the size, and the size is matched against
//! the segments that the system lists.

use crate::ordered_set::OrderedSet;
use vstd::prelude::*;
use vstd::string::StrSliceExecFns;
use vstd::string::StringExecFns;
use vstd::utf8::decode_utf8;
use vstd::utf8::valid_utf8;

verus! {

/// What an invocation of the program does.
#[derive(Clone, Copy, Debug, PartialEq, Eq, Structural)]
pub enum Mode {
    /// Print the size of the instance's segment and exit.
    Probe,
    /// Discover the instances and report the memory of each group.
    Report,
}

/// The account under which a mode was started does not fit the mode.
#[derive(Clone, Copy, Debug, PartialEq, Eq, Structural)]
pub enum PrivilegeError {
    /// The report needs the superuser.
    SuperuserRequired,
    /// The probe must not run as the superuser.
    SuperuserForbidden,
}

/// Why no instance could be recorded.
#[derive(Clone, Copy, Debug, PartialEq, Eq, Structural)]
pub enum DiscoveryError {
    /// The probe ended with a failure status.
    ProbeFailed,
    /// What the probe printed is not UTF-8 text.
    OutputNotText,
    /// What the probe printed is no unsigned decimal number of 64 bits.
    MalformedSize,
    /// No segment has the size that the probe printed.
    SegmentNotFound,
    /// The frames of the matching segment were not resolved.
    FramesUnresolved,
}

impl DiscoveryError {
    /// Whether the failure ends the whole run. A probe that succeeds and
    /// prints text that is no size breaks the protocol between the program
    /// and its probe; every other failure only leaves the instance out.
    pub fn is_fatal(&self) -> (fatal: bool)
        ensures
            fatal == (*self == DiscoveryError::MalformedSize),
    {
        match self {
            DiscoveryError::MalformedSize => true,
            _ => false,
        }
    }
}

/// A shared-memory segment as the system lists it.
#[derive(Clone, Copy, Debug, PartialEq, Eq, Structural)]
pub struct Shm {
    pub key: i32,
    pub shmid: u64,
    /// The size in bytes.
    pub size: u64,
}

/// A listed segment with the frames that back it, where they were resolved.
pub struct SharedSegment {
    pub shm: Shm,
    pub pfns: Option<Vec<u64>>,
}

/// A discovered instance.
pub struct SmonInfo {
    pub pid: i32,
    /// The name of the instance.
    pub sid: String,
    /// The size of its segment in bytes, as the probe printed it.
    pub sga_size: u64,
    /// The segment that was matched to that size.
    pub sga_shm: Shm,
    /// The frames that back the segment.
    pub sga_pfns: OrderedSet<u64>,
}

/// How to start the probe for one instance.
pub struct ProbeCommand {
    /// The account to run under.
    pub uid: u32,
    /// The one argument, which selects the probe mode.
    pub argument: String,
    /// The variables to set, as pairs of name and value.
    pub environment: Vec<(String, String)>,
}

/// The mode that the arguments `args` select, the program's own name first:
/// the probe where the first argument after the name is `get_sga`, else the
/// report.
pub open spec fn selected_mode(args: Seq<String>) -> Mode {
    if args.len() > 1 && args[1]@ == "get_sga"@ {
        Mode::Probe
    } else {
        Mode::Report
    }
}

/// The mode that the arguments select.
pub fn select_mode(args: &Vec<String>) -> (mode: Mode)
    ensures
        mode == selected_mode(args@),
{
    if args.len() > 1 {
        let probe = String::from_str("get_sga");
        if args[1] == probe {
            return Mode::Probe;
        }
    }
    Mode::Report
}

/// Whether the account `uid` may run the mode: the report runs only as the
/// superuser, the probe only as another account.
pub open spec fn privilege_rule(mode: Mode, uid: u32) -> Result<(), PrivilegeError> {
    match mode {
        Mode::Probe => if uid == 0 {
            Err(PrivilegeError::SuperuserForbidden)
        } else {
            Ok(())
        },
        Mode::Report => if uid == 0 {
            Ok(())
        } else {
            Err(PrivilegeError::SuperuserRequired)
        },
    }
}

/// Whether the account `uid` may run the mode.
pub fn check_privilege_of(mode: Mode, uid: u32) -> (r: Result<(), PrivilegeError>)
    ensures
        r == privilege_rule(mode, uid),
{
    match mode {
        Mode::Probe => if uid == 0 {
            Err(PrivilegeError::SuperuserForbidden)
        } else {
            Ok(())
        },
        Mode::Report => if uid == 0 {
            Ok(())
        } else {
            Err(PrivilegeError::SuperuserRequired)
        },
    }
}

/// `users::get_current_uid`: the account that runs this process. The answer
/// depends on how the process was started, so nothing is claimed of it.
#[verifier::external_body]
fn current_uid() -> u32 {
    users::get_current_uid()
}

/// Whether the account that runs this process may run the mode.
pub fn check_privilege(mode: Mode) -> (r: Result<(), PrivilegeError>)
    ensures
        exists|uid: u32| r == #[trigger] privilege_rule(mode, uid),
{
    let uid = current_uid();
    let r = check_privilege_of(mode, uid);
    assert(r == privilege_rule(mode, uid));
    r
}

/// How to start the probe for the instance `sid` with the home directory
/// `home`, owned by the account `uid`.
pub fn probe_command(uid: u32, sid: &String, home: &String) -> (command: ProbeCommand)
    ensures
        command.uid == uid,
        command.argument@ == "get_sga"@,
        command.environment@.len() == 3,
        command.environment@[0].0@ == "LD_LIBRARY_PATH"@,
        command.environment@[0].1@ == home@ + "/lib"@,
        command.environment@[1].0@ == "ORACLE_SID"@,
        command.environment@[1].1@ == sid@,
        command.environment@[2].0@ == "ORACLE_HOME"@,
        command.environment@[2].1@ == home@,
{
    let mut lib = home.clone();
    lib.append("/lib");
    let mut environment: Vec<(String, String)> = Vec::new();
    environment.push((String::from_str("LD_LIBRARY_PATH"), lib));
    environment.push((String::from_str("ORACLE_SID"), sid.clone()));
    environment.push((String::from_str("ORACLE_HOME"), home.clone()));
    ProbeCommand { uid, argument: String::from_str("get_sga"), environment }
}

/// Whether the character is white space: one of the characters with the
/// Unicode property White_Space.
pub open spec fn is_white_space(c: char) -> bool {
    let code = c as u32;
    ||| 0x9 <= code <= 0xd
    ||| code == 0x20
    ||| code == 0x85
    ||| code == 0xa0
    ||| code == 0x1680
    ||| 0x2000 <= code <= 0x200a
    ||| code == 0x2028
    ||| code == 0x2029
    ||| code == 0x202f
    ||| code == 0x205f
    ||| code == 0x3000
}

/// Whether the character is one of the digits `0` to `9`.
pub open spec fn is_digit(c: char) -> bool {
    0x30 <= c as u32 <= 0x39
}

/// The text without the white space at its start.
pub open spec fn trim_start(text: Seq<char>) -> Seq<char>
    decreases text.len(),
{
    if text.len() > 0 && is_white_space(text.first()) {
        trim_start(text.drop_first())
    } else {
        text
    }
}

/// The text without the white space at its end.
pub open spec fn trim_end(text: Seq<char>) -> Seq<char>
    decreases text.len(),
{
    if text.len() > 0 && is_white_space(text.last()) {
        trim_end(text.drop_last())
    } else {
        text
    }
}

/// The text without the white space at its start and at its end.
pub open spec fn trimmed(text: Seq<char>) -> Seq<char> {
    trim_end(trim_start(text))
}

/// The number that the digits write in base ten.
pub open spec fn decimal_value(digits: Seq<char>) -> nat
    decreases digits.len(),
{
    if digits.len() == 0 {
        0
    } else {
        decimal_value(digits.drop_last()) * 10 + (digits.last() as u32 - 0x30) as nat
    }
}

/// Whether every character is a digit.
pub open spec fn all_digits(digits: Seq<char>) -> bool {
    forall|i: int| 0 <= i < digits.len() ==> is_digit(#[trigger] digits[i])
}

/// The number that the digits write, where there is at least one, each is a
/// digit and the value fits in 64 bits.
pub open spec fn size_of_digits(digits: Seq<char>) -> Option<u64> {
    if digits.len() > 0 && all_digits(digits) && decimal_value(digits) <= u64::MAX {
        Some(decimal_value(digits) as u64)
    } else {
        None
    }
}

/// The number that the text writes: one or more digits, after an optional
/// `+`, whose value fits in 64 bits.
pub open spec fn parse_size(text: Seq<char>) -> Option<u64> {
    if text.len() > 0 && text[0] == '+' {
        size_of_digits(text.drop_first())
    } else {
        size_of_digits(text)
    }
}

/// The size that a probe reports: the probe must have succeeded, and what it
/// printed must be text that, without the white space around it, writes a
/// number.
pub open spec fn reported_size(success: bool, stdout: Seq<u8>) -> Result<u64, DiscoveryError> {
    if !success {
        Err(DiscoveryError::ProbeFailed)
    } else if !valid_utf8(stdout) {
        Err(DiscoveryError::OutputNotText)
    } else {
        match parse_size(trimmed(decode_utf8(stdout))) {
            Some(size) => Ok(size),
            None => Err(DiscoveryError::MalformedSize),
        }
    }
}

/// The character that writes the digit `d`.
pub open spec fn digit_char(d: u8) -> char {
    (0x30u8 + d) as char
}

/// The digits that write `n` in base ten, without a leading zero.
pub open spec fn decimal_digits(n: nat) -> Seq<char>
    decreases n,
{
    if n < 10 {
        seq![digit_char(n as u8)]
    } else {
        decimal_digits(n / 10).push(digit_char((n % 10) as u8))
    }
}

/// The line that a probe prints for the size `size`: its digits and a line
/// end.
pub open spec fn probe_line(size: u64) -> Seq<char> {
    decimal_digits(size as nat).push('\n')
}

/// The digits of a number are digits, at least one, and write the number.
pub proof fn lemma_decimal_digits(n: nat)
    ensures
        decimal_digits(n).len() > 0,
        all_digits(decimal_digits(n)),
        decimal_value(decimal_digits(n)) == n,
    decreases n,
{
    let digits = decimal_digits(n);
    if n < 10 {
        assert(digits.drop_last() =~= Seq::<char>::empty());
        assert(digits.last() == digit_char(n as u8));
        assert(decimal_value(digits.drop_last()) == 0);
    } else {
        let front = decimal_digits(n / 10);
        lemma_decimal_digits(n / 10);
        assert(digits.drop_last() =~= front);
        assert(digits.last() == digit_char((n % 10) as u8));
        assert forall|i: int| 0 <= i < digits.len() implies is_digit(#[trigger] digits[i]) by {
            if i < front.len() {
                assert(is_digit(front[i]));
            }
        }
    }
}

/// What a probe prints for a size is read back as that size.
pub proof fn lemma_probe_line_is_read_back(size: u64)
    ensures
        parse_size(trimmed(probe_line(size))) == Some(size),
{
    let digits = decimal_digits(size as nat);
    let line = probe_line(size);
    lemma_decimal_digits(size as nat);
    assert(is_digit(digits[0]));
    assert(line[0] == digits[0]);
    assert(line.first() == digits[0]);
    assert(!is_white_space(line.first()));
    assert(trim_start(line) == line);
    assert(line.last() == '\n');
    assert(is_white_space(line.last()));
    assert(line.drop_last() =~= digits);
    assert(is_digit(digits.last()));
    assert(!is_white_space(digits.last()));
    assert(trim_end(digits) == digits);
    assert(trim_end(line) == digits);
    assert(digits[0] != '+');
}

/// The bytes of what a probe prints for a size, with a success status, are
/// read as that size.
pub proof fn lemma_probe_output_is_read_back(size: u64)
    ensures
        reported_size(true, vstd::utf8::encode_utf8(probe_line(size))) == Ok::<
            u64,
            DiscoveryError,
        >(size),
{
    vstd::utf8::encode_utf8_valid_utf8(probe_line(size));
    vstd::utf8::encode_utf8_decode_utf8(probe_line(size));
    lemma_probe_line_is_read_back(size);
}

/// The text that writes the digit `d`.
fn digit_text(d: u8) -> (text: &'static str)
    requires
        d < 10,
    ensures
        text@ == seq![digit_char(d)],
{
    proof {
        reveal_strlit("0");
        reveal_strlit("1");
        reveal_strlit("2");
        reveal_strlit("3");
        reveal_strlit("4");
        reveal_strlit("5");
        reveal_strlit("6");
        reveal_strlit("7");
        reveal_strlit("8");
        reveal_strlit("9");
    }
    let text = if d == 0 {
        "0"
    } else if d == 1 {
        "1"
    } else if d == 2 {
        "2"
    } else if d == 3 {
        "3"
    } else if d == 4 {
        "4"
    } else if d == 5 {
        "5"
    } else if d == 6 {
        "6"
    } else if d == 7 {
        "7"
    } else if d == 8 {
        "8"
    } else {
        "9"
    };
    assert(text@ =~= seq![digit_char(d)]);
    text
}

/// Appends to `out` the digits that write `n`.
fn append_decimal(out: &mut String, n: u64)
    ensures
        final(out)@ == old(out)@ + decimal_digits(n as nat),
    decreases n,
{
    if n >= 10 {
        append_decimal(out, n / 10);
    }
    out.append(digit_text((n % 10) as u8));
    assert(out@ =~= old(out)@ + decimal_digits(n as nat));
}

/// The line that a probe prints for the size `size`.
pub fn format_sga_size(size: u64) -> (line: String)
    ensures
        line@ == probe_line(size),
        parse_size(trimmed(line@)) == Some(size),
{
    let mut line = String::new();
    append_decimal(&mut line, size);
    proof {
        reveal_strlit("\n");
    }
    line.append("\n");
    proof {
        assert(line@ =~= probe_line(size));
        lemma_probe_line_is_read_back(size);
    }
    line
}


/// The value of a prefix of digits is no greater than the value of all of
/// them.
proof fn lemma_decimal_prefix(digits: Seq<char>, n: int)
    requires
        0 <= n <= digits.len(),
    ensures
        decimal_value(digits.take(n)) <= decimal_value(digits),
    decreases digits.len(),
{
    if n == digits.len() {
        assert(digits.take(n) =~= digits);
    } else {
        lemma_decimal_prefix(digits.drop_last(), n);
        assert(digits.drop_last().take(n) =~= digits.take(n));
    }
}

/// `String::from_utf8`: the text that the bytes encode, where they are valid
/// UTF-8.
#[verifier::external_body]
fn text_of(bytes: Vec<u8>) -> (text: Option<String>)
    ensures
        text is Some <==> valid_utf8(bytes@),
        text matches Some(t) ==> t@ == decode_utf8(bytes@),
{
    match String::from_utf8(bytes) {
        Ok(text) => Some(text),
        Err(_) => None,
    }
}

/// Whether the character is white space.
fn white_space(c: char) -> (b: bool)
    ensures
        b == is_white_space(c),
{
    let code = c as u32;
    (0x9 <= code && code <= 0xd) || code == 0x20 || code == 0x85 || code == 0xa0 || code == 0x1680
        || (0x2000 <= code && code <= 0x200a) || code == 0x2028 || code == 0x2029 || code
        == 0x202f || code == 0x205f || code == 0x3000
}

/// The number that the text writes once the white space around it is
/// removed.
pub fn parse_trimmed(text: &str) -> (size: Option<u64>)
    ensures
        size == parse_size(trimmed(text@)),
{
    let n = text.unicode_len();
    let mut start: usize = 0;
    assert(text@.skip(0) =~= text@);
    while start < n && white_space(text.get_char(start))
        invariant
            start <= n,
            n == text@.len(),
            trim_start(text@) == trim_start(text@.skip(start as int)),
        decreases n - start,
    {
        proof {
            assert(text@.skip(start as int).first() == text@[start as int]);
            assert(text@.skip(start as int).drop_first() =~= text@.skip(start + 1));
        }
        start += 1;
    }
    let ghost tail = text@.skip(start as int);
    proof {
        if start < n {
            assert(tail.first() == text@[start as int]);
        }
        assert(trim_start(text@) == tail);
    }
    let mut end: usize = n;
    assert(tail.take(end - start) =~= tail);
    while end > start && white_space(text.get_char(end - 1))
        invariant
            start <= end <= n,
            n == text@.len(),
            tail == text@.skip(start as int),
            trim_end(tail) == trim_end(tail.take(end - start)),
        decreases end - start,
    {
        proof {
            let part = tail.take(end - start);
            assert(part.last() == text@[end - 1]);
            assert(part.drop_last() =~= tail.take(end - 1 - start));
        }
        end -= 1;
    }
    let ghost body = text@.subrange(start as int, end as int);
    proof {
        let part = tail.take(end - start);
        assert(part =~= body);
        if end > start {
            assert(part.last() == text@[end - 1]);
        }
        assert(trim_end(tail) == body);
        assert(trimmed(text@) == body);
    }
    let mut i: usize = start;
    if i < end && text.get_char(i) == '+' {
        i += 1;
    }
    let ghost first = i;
    let ghost digits = text@.subrange(first as int, end as int);
    proof {
        if first > start {
            assert(body[0] == '+');
            assert(body.drop_first() =~= digits);
        } else {
            assert(body =~= digits);
            if body.len() > 0 {
                assert(body[0] == text@[start as int]);
            }
        }
    }
    assert(parse_size(trimmed(text@)) == size_of_digits(digits));
    if i == end {
        return None;
    }
    let mut value: u64 = 0;
    assert(digits.take(0) =~= Seq::<char>::empty());
    while i < end
        invariant
            first <= i <= end <= n,
            n == text@.len(),
            digits == text@.subrange(first as int, end as int),
            parse_size(trimmed(text@)) == size_of_digits(digits),
            all_digits(digits.take(i - first)),
            value == decimal_value(digits.take(i - first)),
        decreases end - i,
    {
        let c = text.get_char(i);
        let code = c as u32;
        proof {
            assert(digits[i - first] == c);
            assert(digits.take(i + 1 - first).drop_last() =~= digits.take(i - first));
            assert(digits.take(i + 1 - first).last() == c);
            lemma_decimal_prefix(digits, i + 1 - first);
        }
        if code < 0x30 || code > 0x39 {
            assert(!is_digit(digits[i - first]));
            return None;
        }
        let digit = (code - 0x30) as u64;
        value = match value.checked_mul(10) {
            Some(tens) => match tens.checked_add(digit) {
                Some(sum) => sum,
                None => {
                    return None;
                },
            },
            None => {
                return None;
            },
        };
        proof {
            assert forall|k: int| 0 <= k < i + 1 - first implies is_digit(
                #[trigger] digits.take(i + 1 - first)[k],
            ) by {
                if k < i - first {
                    assert(is_digit(digits.take(i - first)[k]));
                }
            }
        }
        i += 1;
    }
    proof {
        assert(digits.take(end - first) =~= digits);
    }
    Some(value)
}

/// The size that a probe reports, from whether it succeeded and what it
/// printed.
pub fn read_sga_size(success: bool, stdout: Vec<u8>) -> (r: Result<u64, DiscoveryError>)
    ensures
        r == reported_size(success, stdout@),
{
    if !success {
        return Err(DiscoveryError::ProbeFailed);
    }
    let text = match text_of(stdout) {
        Some(text) => text,
        None => {
            return Err(DiscoveryError::OutputNotText);
        },
    };
    match parse_trimmed(text.as_str()) {
        Some(size) => Ok(size),
        None => Err(DiscoveryError::MalformedSize),
    }
}

/// Whether `index` is the first segment of `segments` with the size `size`.
pub open spec fn is_first_of_size(segments: Seq<SharedSegment>, size: u64, index: int) -> bool {
    &&& 0 <= index < segments.len()
    &&& segments[index].shm.size == size
    &&& forall|k: int| 0 <= k < index ==> (#[trigger] segments[k]).shm.size != size
}

/// Whether no segment of `segments` has the size `size`.
pub open spec fn none_of_size(segments: Seq<SharedSegment>, size: u64) -> bool {
    forall|k: int| 0 <= k < segments.len() ==> (#[trigger] segments[k]).shm.size != size
}

/// The first segment, in the order of the listing, whose size is `sga_size`.
pub fn find_sga_segment(segments: &Vec<SharedSegment>, sga_size: u64) -> (found: Option<usize>)
    ensures
        match found {
            Some(index) => is_first_of_size(segments@, sga_size, index as int),
            None => none_of_size(segments@, sga_size),
        },
{
    let mut i: usize = 0;
    while i < segments.len()
        invariant
            i <= segments.len(),
            forall|k: int| 0 <= k < i ==> (#[trigger] segments[k]).shm.size != sga_size,
        decreases segments.len() - i,
    {
        if segments[i].shm.size == sga_size {
            return Some(i);
        }
        i += 1;
    }
    None
}

/// Whether `info` records the instance `sid` of the process `pid` with the
/// segment at `index` and the size `size`.
pub open spec fn records_instance(
    info: SmonInfo,
    pid: i32,
    sid: Seq<char>,
    size: u64,
    segments: Seq<SharedSegment>,
    index: int,
) -> bool {
    &&& info.pid == pid
    &&& info.sid@ == sid
    &&& info.sga_size == size
    &&& info.sga_shm == segments[index].shm
    &&& segments[index].pfns matches Some(pfns) && info.sga_pfns@ == pfns@.to_set()
}

/// Records the instance `sid` of the process `pid` from what its probe gave
/// and from the segments that the system lists.
///
/// The instance is bound to the first listed segment whose size is the size
/// that the probe printed. Where several segments have that size, the
/// choice may not be that of the instance: nothing else tells them apart.
pub fn get_smon_info(
    pid: i32,
    sid: &String,
    success: bool,
    stdout: Vec<u8>,
    segments: &Vec<SharedSegment>,
) -> (r: Result<SmonInfo, DiscoveryError>)
    ensures
        match reported_size(success, stdout@) {
            Err(e) => r matches Err(x) && x == e,
            Ok(size) => if none_of_size(segments@, size) {
                r matches Err(x) && x == DiscoveryError::SegmentNotFound
            } else {
                exists|index: int| #[trigger]
                    is_first_of_size(segments@, size, index) && match segments[index].pfns {
                        None => r matches Err(x) && x == DiscoveryError::FramesUnresolved,
                        Some(_) => r matches Ok(info) && records_instance(
                            info,
                            pid,
                            sid@,
                            size,
                            segments@,
                            index,
                        ),
                    }
            },
        },
{
    let sga_size = match read_sga_size(success, stdout) {
        Ok(size) => size,
        Err(e) => {
            return Err(e);
        },
    };
    let index = match find_sga_segment(segments, sga_size) {
        Some(index) => index,
        None => {
            return Err(DiscoveryError::SegmentNotFound);
        },
    };
    assert(is_first_of_size(segments@, sga_size, index as int));
    assert(segments@[index as int].shm.size == sga_size);
    match &segments[index].pfns {
        Some(pfns) => {
            let info = SmonInfo {
                pid,
                sid: sid.clone(),
                sga_size,
                sga_shm: segments[index].shm,
                sga_pfns: OrderedSet::from_vec(pfns),
            };
            assert(records_instance(info, pid, sid@, sga_size, segments@, index as int));
            Ok(info)
        },
        None => Err(DiscoveryError::FramesUnresolved),
    }
}

} // verus!
