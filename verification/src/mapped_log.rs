//! The bookkeeping of a log that is kept in a memory-mapped file: where the
//! next line goes, when the mapping has to grow and to what size.
//!
//! The log is append-only, so the file can be mapped chunk by chunk.

use vstd::prelude::*;

use crate::observe::TimedEvent;

verus! {

/// Why a line cannot be kept.
#[derive(Clone, Copy, Debug, PartialEq, Eq, Structural)]
pub enum MappedLogError {
    /// The initial size is zero.
    EmptyMapping,
    /// The log would be longer than a size can tell.
    SizeOverflow,
    /// The mapping cannot be doubled any more.
    BeyondCapacity,
}

impl MappedLogError {
    /// The message for people.
    pub open spec fn spec_message(self) -> Seq<char> {
        match self {
            MappedLogError::EmptyMapping =>
                "memory-mapped file observer requires a non-zero initial size"@,
            MappedLogError::SizeOverflow => "memory-mapped log size overflow"@,
            MappedLogError::BeyondCapacity =>
                "memory-mapped log grew beyond addressable capacity"@,
        }
    }

    /// The message for people.
    pub fn message(self) -> (message: &'static str)
        ensures
            message@ == self.spec_message(),
    {
        match self {
            MappedLogError::EmptyMapping =>
                "memory-mapped file observer requires a non-zero initial size",
            MappedLogError::SizeOverflow => "memory-mapped log size overflow",
            MappedLogError::BeyondCapacity => "memory-mapped log grew beyond addressable capacity",
        }
    }
}

/// How far a mapped log has been written.
pub struct MappedLog {
    offset: usize,
    written: Ghost<Seq<u8>>,
}

impl MappedLog {
    /// Everything logged so far.
    pub closed spec fn view(&self) -> Seq<u8> {
        self.written@
    }

    /// As many bytes were logged as the next line is offset by.
    pub closed spec fn wf(&self) -> bool {
        self.offset == self.written@.len()
    }

    /// Whether `mapping` starts with everything logged so far.
    pub open spec fn is_kept_in(&self, mapping: Seq<u8>) -> bool {
        &&& self@.len() <= mapping.len()
        &&& mapping.take(self@.len() as int) == self@
    }

    /// An empty log in a mapping of `initial_size` bytes, which must not be
    /// zero.
    pub fn new(initial_size: usize) -> (result: Result<MappedLog, MappedLogError>)
        ensures
            match result {
                Ok(log) => initial_size > 0 && log.wf() && log@ == Seq::<u8>::empty(),
                Err(error) => initial_size == 0 && error == MappedLogError::EmptyMapping,
            },
    {
        if initial_size == 0 {
            return Err(MappedLogError::EmptyMapping);
        }
        Ok(MappedLog { offset: 0, written: Ghost(Seq::empty()) })
    }

    /// The number of bytes logged so far, to which the file is cut in the end.
    pub fn total_size(&self) -> (size: usize)
        requires
            self.wf(),
        ensures
            size == self@.len(),
    {
        self.offset
    }

    /// The size that the mapping must have for `line` to be logged.
    pub fn required_size(&self, line: &str) -> (result: Result<usize, MappedLogError>)
        requires
            self.wf(),
        ensures
            ({
                let size = self@.len() + vstd::utf8::encode_utf8(line@).len();
                result == if size <= usize::MAX {
                    Ok::<usize, MappedLogError>(size as usize)
                } else {
                    Err::<usize, MappedLogError>(MappedLogError::SizeOverflow)
                }
            }),
    {
        let bytes = line.as_bytes();
        match self.offset.checked_add(bytes.len()) {
            Some(size) => Ok(size),
            None => Err(MappedLogError::SizeOverflow),
        }
    }

    /// Writes `line` into `mapping`, behind everything logged so far.
    pub fn append(&mut self, mapping: &mut [u8], line: &str)
        requires
            old(self).wf(),
            old(self)@.len() + vstd::utf8::encode_utf8(line@).len() <= old(mapping)@.len(),
        ensures
            final(self).wf(),
            final(self)@ == old(self)@ + vstd::utf8::encode_utf8(line@),
            final(mapping)@ == overwritten(
                old(mapping)@,
                old(self)@.len() as int,
                bytes_of(line@),
            ),
            final(mapping)@.len() == old(mapping)@.len(),
            forall|i: int|
                0 <= i < final(mapping)@.len() ==> (#[trigger] final(mapping)@[i]) == ({
                    let start = old(self)@.len();
                    let bytes = vstd::utf8::encode_utf8(line@);
                    if start <= i < start + bytes.len() {
                        bytes[i - start]
                    } else {
                        old(mapping)@[i]
                    }
                }),
    {
        let bytes = line.as_bytes();
        let size: usize = mapping.len();
        let ghost before = mapping@;
        let mut i: usize = 0;
        while i < bytes.len()
            invariant
                0 <= i <= bytes.len(),
                self.offset + bytes.len() <= before.len() == size,
                mapping@ == overwritten(before, self.offset as int, bytes@.take(i as int)),
                mapping@.len() == before.len(),
            decreases bytes.len() - i,
        {
            mapping[self.offset + i] = bytes[i];
            i = i + 1;
        }
        self.offset = self.offset + bytes.len();
        self.written = Ghost(self.written@ + bytes@);
    }
}

/// The bytes of `text`, in UTF-8.
pub open spec fn bytes_of(text: Seq<char>) -> Seq<u8> {
    vstd::utf8::encode_utf8(text)
}

/// `bytes` with `piece` written over what stands from `at` on.
pub open spec fn overwritten(bytes: Seq<u8>, at: int, piece: Seq<u8>) -> Seq<u8> {
    bytes.take(at) + piece + bytes.skip(at + piece.len())
}

/// The size to which a mapping of `mapped` bytes grows when `required` bytes
/// do not fit in it.
pub open spec fn grown_size(mapped: usize, required: usize) -> int {
    if required > 2 * mapped {
        required as int
    } else {
        2 * mapped
    }
}

/// The size to which a mapping of `mapped` bytes must grow so that `required`
/// bytes fit, or `None` if they fit as it is.  A mapping that grows is at least
/// doubled.
pub fn ensure_capacity(mapped: usize, required: usize) -> (result: Result<
    Option<usize>,
    MappedLogError,
>)
    ensures
        result == if required <= mapped {
            Ok::<Option<usize>, MappedLogError>(None)
        } else if 2 * mapped > usize::MAX {
            Err::<Option<usize>, MappedLogError>(MappedLogError::BeyondCapacity)
        } else {
            Ok::<Option<usize>, MappedLogError>(Some(grown_size(mapped, required) as usize))
        },
        result matches Ok(Some(size)) ==> {
            &&& size >= required > mapped
            &&& size >= 2 * mapped
            &&& size == required || size == 2 * mapped
        },
{
    if required <= mapped {
        return Ok(None);
    }
    match mapped.checked_mul(2) {
        Some(doubled) => if required > doubled {
            Ok(Some(required))
        } else {
            Ok(Some(doubled))
        },
        None => Err(MappedLogError::BeyondCapacity),
    }
}

/// The line that a mapped log keeps of `event`.
pub fn mapped_line(event: &TimedEvent) -> (line: String)
    ensures
        line@ == "["@ + "MMapObserver"@ + "] "@ + event.shown() + "\n"@,
{
    let mut line = event.labelled("MMapObserver");
    line.append("\n");
    line
}

/// A mapping that grows has room for what was required, and at least doubles.
pub proof fn growth_makes_room(mapped: usize, required: usize)
    requires
        required > mapped,
    ensures
        grown_size(mapped, required) >= required,
        grown_size(mapped, required) >= 2 * mapped,
        grown_size(mapped, required) == required || grown_size(mapped, required) == 2 * mapped,
{
}

/// A log survives its mapping's growth: what was kept in the old mapping is
/// kept in any mapping that starts with the old one, as a longer mapping of
/// the same file does.
pub proof fn growth_keeps_the_log(log: MappedLog, before: Seq<u8>, after: Seq<u8>)
    requires
        log.is_kept_in(before),
        before.len() <= after.len(),
        after.take(before.len() as int) == before,
    ensures
        log.is_kept_in(after),
{
    let n = log@.len() as int;
    assert(after.take(n) =~= after.take(before.len() as int).take(n));
}

/// Nothing logged is lost: after a line was appended, the mapping starts with
/// everything logged before and the line, and the file cut to the log's size
/// holds exactly that.
pub proof fn appending_keeps_the_log(
    log: MappedLog,
    mapping: Seq<u8>,
    line: Seq<u8>,
    after: MappedLog,
)
    requires
        log.is_kept_in(mapping),
        log@.len() + line.len() <= mapping.len(),
        after@ == log@ + line,
    ensures
        after.is_kept_in(overwritten(mapping, log@.len() as int, line)),
{
    let n = log@.len() as int;
    assert(overwritten(mapping, n, line).take(n + line.len()) =~= log@ + line);
}

/// The bytes of a text are the bytes of its two halves.
proof fn encoding_of_concat(a: Seq<char>, b: Seq<char>)
    ensures
        vstd::utf8::encode_utf8(a + b) == vstd::utf8::encode_utf8(a) + vstd::utf8::encode_utf8(b),
    decreases a.len(),
{
    if a.len() == 0 {
        assert(a + b =~= b);
    } else {
        encoding_of_concat(a.drop_first(), b);
        assert((a + b).drop_first() =~= a.drop_first() + b);
    }
}

/// A mapped log is read as text line by line: the file cut to the log's size is
/// valid UTF-8 and reads as all the lines ever appended, one behind the other
/// and none of them cut short.
pub proof fn the_file_reads_as_all_lines(
    lines: Seq<Seq<char>>,
    log: MappedLog,
    mapping: Seq<u8>,
)
    requires
        appended_all(lines, log, mapping),
    ensures
        log@.len() <= mapping.len(),
        log@ == vstd::utf8::encode_utf8(lines.flatten()),
        vstd::utf8::valid_utf8(mapping.take(log@.len() as int)),
        vstd::utf8::decode_utf8(mapping.take(log@.len() as int)) == lines.flatten(),
{
    mapped_logs_hold_every_line(lines, log, mapping);
    bytes_of_all_is_the_encoding(lines);
    vstd::utf8::encode_utf8_valid_utf8(lines.flatten());
    vstd::utf8::encode_utf8_decode_utf8(lines.flatten());
}

/// The bytes of all lines are those of the text that the lines make up.
proof fn bytes_of_all_is_the_encoding(lines: Seq<Seq<char>>)
    ensures
        bytes_of_all(lines) == vstd::utf8::encode_utf8(lines.flatten()),
    decreases lines.len(),
{
    lines.lemma_flatten_and_flatten_alt_are_equivalent();
    if lines.len() > 0 {
        let earlier = lines.drop_last();
        earlier.lemma_flatten_and_flatten_alt_are_equivalent();
        bytes_of_all_is_the_encoding(earlier);
        encoding_of_concat(earlier.flatten(), lines.last());
    }
}

/// A line of a mapped log takes as many bytes as its characters take in UTF-8,
/// and at least one for each of them.
pub proof fn lines_are_not_cut_short(line: Seq<char>)
    ensures
        vstd::utf8::decode_utf8(bytes_of(line)) == line,
        bytes_of(line).len() >= line.len(),
    decreases line.len(),
{
    vstd::utf8::encode_utf8_decode_utf8(line);
    if line.len() > 0 {
        lines_are_not_cut_short(line.drop_first());
    }
}

/// The bytes of all of `lines`, one behind the other.
pub open spec fn bytes_of_all(lines: Seq<Seq<char>>) -> Seq<u8>
    decreases lines.len(),
{
    if lines.len() == 0 {
        Seq::empty()
    } else {
        bytes_of_all(lines.drop_last()) + bytes_of(lines.last())
    }
}

/// Whether `after` and `mapping` are what `log` and its mapping `before` come to
/// when `line` is appended, the mapping first grown as far as it needs to be.
pub open spec fn appended(
    log: MappedLog,
    before: Seq<u8>,
    line: Seq<char>,
    after: MappedLog,
    mapping: Seq<u8>,
) -> bool {
    exists|grown: Seq<u8>|
        {
            &&& before.len() <= grown.len()
            &&& grown.take(before.len() as int) == before
            &&& log@.len() + bytes_of(line).len() <= grown.len()
            &&& after@ == log@ + bytes_of(line)
            &&& mapping == #[trigger] overwritten(grown, log@.len() as int, bytes_of(line))
        }
}

/// Whether `log` and `mapping` are what a new log and its mapping come to when
/// all of `lines` are appended, the first one first.
pub open spec fn appended_all(
    lines: Seq<Seq<char>>,
    log: MappedLog,
    mapping: Seq<u8>,
) -> bool
    decreases lines.len(),
{
    if lines.len() == 0 {
        log@ == Seq::<u8>::empty()
    } else {
        exists|earlier: MappedLog, before: Seq<u8>|
            {
                &&& appended_all(lines.drop_last(), earlier, before)
                &&& #[trigger] appended(earlier, before, lines.last(), log, mapping)
            }
    }
}

/// A mapped log holds every line ever appended, however many there were and
/// however often the mapping grew: its bytes are those of all the lines one
/// behind the other, the mapping starts with them, and so the file cut to the
/// log's size holds exactly them.
pub proof fn mapped_logs_hold_every_line(
    lines: Seq<Seq<char>>,
    log: MappedLog,
    mapping: Seq<u8>,
)
    requires
        appended_all(lines, log, mapping),
    ensures
        log@ == bytes_of_all(lines),
        log.is_kept_in(mapping),
        mapping.take(log@.len() as int) == bytes_of_all(lines),
    decreases lines.len(),
{
    if lines.len() == 0 {
        assert(mapping.take(0) =~= Seq::<u8>::empty());
    } else {
        let line = lines.last();
        let (earlier, before) = choose|earlier: MappedLog, before: Seq<u8>|
            appended_all(lines.drop_last(), earlier, before) && #[trigger] appended(
                earlier,
                before,
                line,
                log,
                mapping,
            );
        mapped_logs_hold_every_line(lines.drop_last(), earlier, before);
        let grown = choose|grown: Seq<u8>|
            {
                &&& before.len() <= grown.len()
                &&& grown.take(before.len() as int) == before
                &&& earlier@.len() + bytes_of(line).len() <= grown.len()
                &&& log@ == earlier@ + bytes_of(line)
                &&& mapping == #[trigger] overwritten(
                    grown,
                    earlier@.len() as int,
                    bytes_of(line),
                )
            };
        growth_keeps_the_log(earlier, before, grown);
        appending_keeps_the_log(earlier, grown, bytes_of(line), log);
    }
}

} // verus!
