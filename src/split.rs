//! Splitting: reading the split size, checking that there is something to
//! split, and cutting a file's bytes into the chunks of its plan.
use vstd::prelude::*;
use vstd::slice::{slice_subrange, slice_to_vec};
use crate::error::{Error, ErrorKind, is_error, surround};
use crate::plan::{plan, sum, lemma_sum_prefix};
pub use crate::plan::split_parts;

verus! {

/// Why a size text could not be read.
#[derive(Debug, Clone, Copy, PartialEq, Eq, Structural)]
pub enum SizeFault {
    /// The text holds no number.
    Empty,
    /// The text holds a character that is not part of a size.
    InvalidDigit,
    /// The size does not fit in 64 bits.
    PosOverflow,
}

/// What `parse_size::parse_size` makes of a text.
pub uninterp spec fn size_of_text(text: Seq<char>) -> Result<u64, SizeFault>;

/// The number of ASCII digits in `text`.
pub open spec fn digit_count(text: Seq<char>) -> nat
    decreases text.len(),
{
    if text.len() == 0 {
        0
    } else {
        digit_count(text.drop_last()) + if '0' <= text.last() && text.last() <= '9' {
            1nat
        } else {
            0nat
        }
    }
}

/// The most digits a size text may hold: `parse_size` moves an `i32` position
/// counter by one for each digit it reads, unchecked.
pub const MAX_SIZE_DIGITS: usize = 2147483647;

/// How `parse_size` reads the mantissa of `text` while no digit has overflowed
/// it: whether every character so far belongs to a plain mantissa, whether a
/// digit and a `.` were seen, and the value of the digits. `_` and spaces are
/// skipped; one `.` may follow a digit.
pub open spec fn mantissa_scan(text: Seq<char>) -> (bool, bool, bool, nat)
    decreases text.len(),
{
    if text.len() == 0 {
        (true, false, false, 0)
    } else {
        let prev = mantissa_scan(text.drop_last());
        let c = text.last();
        if !prev.0 {
            prev
        } else if '0' <= c && c <= '9' {
            (true, true, prev.2, prev.3 * 10 + (c as nat - '0' as nat) as nat)
        } else if c == '_' || c == ' ' {
            prev
        } else if c == '.' && prev.1 && !prev.2 {
            (true, prev.1, true, prev.3)
        } else {
            (false, prev.1, prev.2, prev.3)
        }
    }
}

/// The mantissa read from `text.take(k)` is `u64::MAX` and the character at `k`
/// is a digit from 5 to 9.
pub open spec fn overflows_at(text: Seq<char>, k: int) -> bool {
    &&& 0 <= k < text.len()
    &&& mantissa_scan(text.take(k)).0
    &&& mantissa_scan(text.take(k)).3 == u64::MAX
    &&& '5' <= text[k] && text[k] <= '9'
}

/// `parse_size` would round a mantissa of `u64::MAX` up by one, unchecked: the
/// digits read reach exactly `u64::MAX` and the next one is 5 or more.
pub open spec fn overflows_mantissa(text: Seq<char>) -> bool {
    exists|k: int| overflows_at(text, k)
}

/// Relies on `parse_size::parse_size`: reads a human-readable size such as
/// `10 KB` or `0.2 MiB` as a number of bytes, or says why it cannot. Left out
/// are the texts on which its unchecked arithmetic overflows: a mantissa
/// rounded up from `u64::MAX`, or more digits than its `i32` counter holds.
#[verifier::external_body]
fn read_size(text: &str) -> (r: Result<u64, SizeFault>)
    requires
        !overflows_mantissa(text@),
        digit_count(text@) <= MAX_SIZE_DIGITS,
    ensures
        r == size_of_text(text@),
{
    match parse_size::parse_size(text) {
        Ok(size) => Ok(size),
        Err(parse_size::Error::Empty) => Err(SizeFault::Empty),
        Err(parse_size::Error::PosOverflow) => Err(SizeFault::PosOverflow),
        Err(_) => Err(SizeFault::InvalidDigit),
    }
}

/// A mantissa that stops being plain stays so, and its value never drops.
proof fn lemma_scan_monotone(text: Seq<char>, j: int, k: int)
    requires
        0 <= j <= k <= text.len(),
        mantissa_scan(text.take(k)).0,
    ensures
        mantissa_scan(text.take(j)).0,
        mantissa_scan(text.take(j)).3 <= mantissa_scan(text.take(k)).3,
    decreases k - j,
{
    if j < k {
        assert(text.take(k).drop_last() =~= text.take(k - 1));
        lemma_scan_monotone(text, j, k - 1);
    }
}

/// Tells whether `parse_size` would round a mantissa up from `u64::MAX`.
pub fn mantissa_overflows(text: &str) -> (r: bool)
    ensures
        r == overflows_mantissa(text@),
{
    let len = text.unicode_len();
    let mut digit_seen = false;
    let mut dot_seen = false;
    let mut value: u64 = 0;
    let mut i: usize = 0;
    while i < len
        invariant
            i <= len,
            len == text@.len(),
            mantissa_scan(text@.take(i as int)) == (true, digit_seen, dot_seen, value as nat),
            forall|k: int| 0 <= k < i ==> !overflows_at(text@, k),
        decreases len - i,
    {
        let c = text.get_char(i);
        assert(text@.take(i as int + 1).drop_last() =~= text@.take(i as int));
        if value == u64::MAX && '5' <= c && c <= '9' {
            assert(overflows_at(text@, i as int));
            return true;
        }
        if '0' <= c && c <= '9' {
            let d = (c as u32 - '0' as u32) as u64;
            if value > (u64::MAX - d) / 10 {
                assert(value * 10 + d > u64::MAX) by (nonlinear_arith)
                    requires
                        value > (u64::MAX - d) / 10,
                        d <= 9,
                ;
                assert forall|k: int| #![auto] 0 <= k < len implies !overflows_at(text@, k) by {
                    if k > i && mantissa_scan(text@.take(k)).0 {
                        lemma_scan_monotone(text@, i + 1, k);
                    }
                }
                return false;
            }
            assert(value * 10 + d <= u64::MAX) by (nonlinear_arith)
                requires
                    value <= (u64::MAX - d) / 10,
                    d <= 9,
            ;
            value = value * 10 + d;
            digit_seen = true;
        } else if c == '_' || c == ' ' {
        } else if c == '.' && digit_seen && !dot_seen {
            dot_seen = true;
        } else {
            assert forall|k: int| #![auto] 0 <= k < len implies !overflows_at(text@, k) by {
                if k > i && mantissa_scan(text@.take(k)).0 {
                    lemma_scan_monotone(text@, i + 1, k);
                }
            }
            return false;
        }
        i = i + 1;
    }
    false
}

/// Counts the ASCII digits of `text`.
pub fn count_digits(text: &str) -> (r: usize)
    ensures
        r == digit_count(text@),
{
    let len = text.unicode_len();
    let mut count: usize = 0;
    let mut i: usize = 0;
    while i < len
        invariant
            i <= len,
            len == text@.len(),
            count == digit_count(text@.take(i as int)),
            count <= i,
        decreases len - i,
    {
        let c = text.get_char(i);
        assert(text@.take(i as int + 1).drop_last() =~= text@.take(i as int));
        if '0' <= c && c <= '9' {
            count = count + 1;
        }
        i = i + 1;
    }
    assert(text@.take(len as int) =~= text@);
    count
}

/// The message shown for a size text that could not be read.
pub open spec fn size_fault_message(fault: SizeFault) -> Seq<char> {
    match fault {
        SizeFault::PosOverflow => "Size too big"@,
        SizeFault::Empty => "No input"@,
        SizeFault::InvalidDigit => "Invalid input"@,
    }
}

/// The error for a size text that could not be read.
pub fn size_fault_error(fault: SizeFault) -> (e: Error)
    ensures
        is_error(e, ErrorKind::InvalidInput, size_fault_message(fault)),
{
    match fault {
        SizeFault::PosOverflow => Error::new(ErrorKind::InvalidInput, "Size too big"),
        SizeFault::Empty => Error::new(ErrorKind::InvalidInput, "No input"),
        SizeFault::InvalidDigit => Error::new(ErrorKind::InvalidInput, "Invalid input"),
    }
}

/// Reads the split size from the (trimmed) text the user typed. A text whose
/// mantissa `parse_size` cannot hold, or with more than `MAX_SIZE_DIGITS`
/// digits, is too big.
pub fn parse_split_size(input: &str) -> (r: Result<u64, Error>)
    ensures
        (overflows_mantissa(input@) || digit_count(input@) > MAX_SIZE_DIGITS) ==> (r matches Err(e)
            && is_error(e, ErrorKind::InvalidInput, size_fault_message(SizeFault::PosOverflow))),
        !(overflows_mantissa(input@) || digit_count(input@) > MAX_SIZE_DIGITS) ==> match size_of_text(input@) {
            Ok(size) => r matches Ok(s) && s == size,
            Err(fault) => r matches Err(e) && is_error(
                e,
                ErrorKind::InvalidInput,
                size_fault_message(fault),
            ),
        },
{
    if count_digits(input) > MAX_SIZE_DIGITS || mantissa_overflows(input) {
        return Err(size_fault_error(SizeFault::PosOverflow));
    }
    match read_size(input) {
        Ok(size) => Ok(size),
        Err(fault) => Err(size_fault_error(fault)),
    }
}

/// The chunks that `data` is cut into under the lengths `sizes`: chunk `k`
/// holds the `sizes[k]` bytes that start at the sum of the lengths before it.
pub open spec fn chunks_of(data: Seq<u8>, sizes: Seq<u64>) -> Seq<Seq<u8>>
    decreases sizes.len(),
{
    if sizes.len() == 0 {
        Seq::empty()
    } else {
        let start = sum(sizes.drop_last());
        chunks_of(data.take(start), sizes.drop_last()).push(
            data.subrange(start, start + sizes.last()),
        )
    }
}

/// The contents of a list of buffers.
pub open spec fn views(v: Seq<Vec<u8>>) -> Seq<Seq<u8>> {
    v.map_values(|c: Vec<u8>| c@)
}

/// Putting the chunks of `data` back together in order gives `data`.
pub proof fn lemma_chunks_flatten(data: Seq<u8>, sizes: Seq<u64>)
    requires
        sum(sizes) == data.len(),
    ensures
        chunks_of(data, sizes).flatten() == data,
    decreases sizes.len(),
{
    if sizes.len() == 0 {
        assert(data =~= Seq::<u8>::empty());
    } else {
        let start = sum(sizes.drop_last());
        crate::plan::lemma_sum_nonneg(sizes.drop_last());
        lemma_chunks_flatten(data.take(start), sizes.drop_last());
        chunks_of(data.take(start), sizes.drop_last()).lemma_flatten_push(
            data.subrange(start, start + sizes.last()),
        );
        assert(data.take(start) + data.subrange(start, data.len() as int) =~= data);
    }
}

pub const TOO_SMALL: &'static str = "File length is below split length. Nothing to split.";

pub const SIZE_TOO_SMALL: &'static str = "Split size must be at least 2 bytes.";

/// Checks that a file of `file_len` bytes can be split under `split_size`.
///
/// A file shorter than the split size has nothing to split. A split size below
/// two cannot bound the chunks (halving a one-byte chunk leaves a one-byte
/// chunk), so it is refused too.
pub fn check_split_size(file_len: u64, split_size: u64) -> (r: Result<(), Error>)
    ensures
        file_len < split_size ==> (r matches Err(e) && is_error(
            e,
            ErrorKind::PreconditionFailed,
            TOO_SMALL@,
        )),
        file_len >= split_size && split_size < 2 ==> (r matches Err(e) && is_error(
            e,
            ErrorKind::InvalidInput,
            SIZE_TOO_SMALL@,
        )),
        file_len >= split_size >= 2 ==> r is Ok,
{
    if file_len < split_size {
        return Err(Error::new(ErrorKind::PreconditionFailed, TOO_SMALL));
    }
    if split_size < 2 {
        return Err(Error::new(ErrorKind::InvalidInput, SIZE_TOO_SMALL));
    }
    Ok(())
}

/// Cuts the bytes of a file into the chunks of its plan under `split_size`,
/// after the checks of `check_split_size`.
pub fn split_chunks(data: &Vec<u8>, split_size: u64) -> (r: Result<Vec<Vec<u8>>, Error>)
    ensures
        data@.len() < split_size ==> (r matches Err(e) && is_error(
            e,
            ErrorKind::PreconditionFailed,
            TOO_SMALL@,
        )),
        data@.len() >= split_size && split_size < 2 ==> (r matches Err(e) && is_error(
            e,
            ErrorKind::InvalidInput,
            SIZE_TOO_SMALL@,
        )),
        data@.len() >= split_size >= 2 ==> (r matches Ok(chunks) && views(chunks@) == chunks_of(
            data@,
            plan(data@.len() as u64, split_size),
        )),
{
    let len = data.len();
    if let Err(e) = check_split_size(len as u64, split_size) {
        return Err(e);
    }
    let parts = split_parts(len as u64, split_size);
    let mut chunks: Vec<Vec<u8>> = Vec::new();
    let mut off: usize = 0;
    for k in 0..parts.len()
        invariant
            len == data@.len(),
            sum(parts@) == len,
            off == sum(parts@.take(k as int)),
            views(chunks@) == chunks_of(data@.take(off as int), parts@.take(k as int)),
    {
        proof {
            lemma_sum_prefix(parts@, k as int);
        }
        let size = parts[k] as usize;
        let chunk = slice_to_vec(slice_subrange(data.as_slice(), off, off + size));
        let ghost before = chunks@;
        chunks.push(chunk);
        proof {
            let t = parts@.take(k as int + 1);
            let whole = data@.take(off + size);
            assert(t.drop_last() =~= parts@.take(k as int));
            assert(whole.take(off as int) =~= data@.take(off as int));
            assert(whole.subrange(off as int, off + size) =~= data@.subrange(off as int, off + size));
            assert(views(chunks@) =~= views(before).push(chunk@));
        }
        off = off + size;
    }
    assert(parts@.take(parts@.len() as int) =~= parts@);
    assert(data@.take(len as int) =~= data@);
    Ok(chunks)
}

/// The error for a chunk directory that could not be created because one of
/// that name is already there.
pub fn split_dir_exists_error(dir_path: &str) -> (e: Error)
    ensures
        is_error(
            e,
            ErrorKind::PreconditionFailed,
            "Folder "@ + dir_path@ + " already exists. Please remove the previous split folder."@,
        ),
{
    Error {
        kind: ErrorKind::PreconditionFailed,
        message: surround(
            "Folder ",
            dir_path,
            " already exists. Please remove the previous split folder.",
        ),
    }
}

pub const RENAME_WARNING: &'static str = "\n\nNote that altering the trailing numbers of the filenames may result in corruption when the files are joined.";

/// The message of a successful split: the chunk directory, and a warning that
/// renaming the chunks changes the order they are joined in.
pub fn split_success(dir_path: &str) -> (r: String)
    ensures
        r@ == "Successful split. Split folder: "@ + dir_path@ + RENAME_WARNING@,
{
    surround("Successful split. Split folder: ", dir_path, RENAME_WARNING)
}

} // verus!
