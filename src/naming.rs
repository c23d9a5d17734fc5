//! The naming scheme shared by splitting and joining.
//!
//! A file named `B` is split into the directory `B-split`, whose chunk files are
//! named `B-split-1`, `B-split-2`, and so on. Decoding reads the index after the
//! last `-`, and recovers `B` by cutting the last two `-`-delimited segments.
use vstd::prelude::*;
use crate::error::{Error, ErrorKind, is_error};

verus! {

/// The position of the last `c` in `s`, or -1 where there is none.
pub open spec fn rfind(s: Seq<char>, c: char) -> int
    decreases s.len(),
{
    if s.len() == 0 {
        -1
    } else if s.last() == c {
        s.len() - 1
    } else {
        rfind(s.drop_last(), c)
    }
}

pub open spec fn is_digit(c: char) -> bool {
    '0' <= c && c <= '9'
}

pub open spec fn digit_value(c: char) -> int {
    c as int - '0' as int
}

pub open spec fn digit_char(d: nat) -> char
    recommends
        d < 10,
{
    ((d + '0' as nat) as u32) as char
}

/// `s` is a non-empty run of decimal digits.
pub open spec fn is_digits(s: Seq<char>) -> bool {
    s.len() > 0 && forall|i: int| 0 <= i < s.len() ==> is_digit(s[i])
}

/// The value of a run of decimal digits.
pub open spec fn decimal_value(s: Seq<char>) -> nat
    decreases s.len(),
{
    if s.len() == 0 {
        0
    } else {
        (decimal_value(s.drop_last()) * 10 + digit_value(s.last())) as nat
    }
}

/// The decimal text of `n`, without sign or leading zeros.
pub open spec fn decimal_text(n: nat) -> Seq<char>
    decreases n,
{
    if n < 10 {
        seq![digit_char(n)]
    } else {
        decimal_text(n / 10).push(digit_char(n % 10))
    }
}

/// The index written by `s`, read as an unsigned machine integer is read: an
/// optional `+`, then at least one decimal digit, with a value that fits.
pub open spec fn index_of_text(s: Seq<char>) -> Option<usize> {
    let digits = if s.len() > 0 && s[0] == '+' {
        s.drop_first()
    } else {
        s
    };
    if is_digits(digits) && decimal_value(digits) <= usize::MAX {
        Some(decimal_value(digits) as usize)
    } else {
        None
    }
}

/// The trailing number of a path: the index after its last `-`.
pub open spec fn trailing_number(path: Seq<char>) -> Option<usize> {
    let p = rfind(path, '-');
    if p < 0 {
        None
    } else {
        index_of_text(path.subrange(p + 1, path.len() as int))
    }
}

/// The base name of a chunk file name: what stands before its second-to-last `-`.
pub open spec fn base_name(name: Seq<char>) -> Option<Seq<char>> {
    let last_dash = rfind(name, '-');
    let cut = rfind(name.take(last_dash), '-');
    if last_dash < 0 || cut < 0 {
        None
    } else {
        Some(name.take(cut))
    }
}

/// The name of the directory that receives the chunks of `name`.
pub open spec fn split_dir_name_spec(name: Seq<char>) -> Seq<char> {
    name + seq!['-', 's', 'p', 'l', 'i', 't']
}

/// The name of the chunk file with 1-based `index` in the directory `dir_name`.
pub open spec fn chunk_file_name_spec(dir_name: Seq<char>, index: nat) -> Seq<char> {
    dir_name + seq!['-'] + decimal_text(index)
}

/// The name of the file that a join of chunks of `base` writes.
pub open spec fn joined_file_name_spec(base: Seq<char>) -> Seq<char> {
    seq!['j', 'o', 'i', 'n', 'e', 'd', '-'] + base
}

/// The final component of a path, as `std::path::Path::file_name` gives it.
pub uninterp spec fn file_name_of(path: Seq<char>) -> Option<Seq<char>>;

/// Relies on `std::path::Path::file_name`: the final component of the path, if
/// there is one. The component of a `&str` path is valid UTF-8, so `to_str`
/// only converts it.
#[verifier::external_body]
fn final_component(path: &str) -> (r: Option<&str>)
    ensures
        match r {
            Some(n) => file_name_of(path@) == Some(n@),
            None => file_name_of(path@) is None,
        },
{
    std::path::Path::new(path).file_name().and_then(|n| n.to_str())
}

/// The file name of `path`; an error where the path has no final component
/// (it is empty, a root, or ends in `..`).
pub fn get_file_name(path: &str) -> (r: Result<&str, Error>)
    ensures
        match r {
            Ok(n) => file_name_of(path@) == Some(n@),
            Err(e) => file_name_of(path@) is None && is_error(
                e,
                ErrorKind::InvalidInput,
                "Path has no file name."@,
            ),
        },
{
    match final_component(path) {
        Some(n) => Ok(n),
        None => Err(Error::new(ErrorKind::InvalidInput, "Path has no file name.")),
    }
}

proof fn lemma_rfind(s: Seq<char>, c: char)
    ensures
        -1 <= rfind(s, c) < s.len(),
        rfind(s, c) >= 0 ==> s[rfind(s, c)] == c,
        forall|j: int| rfind(s, c) < j < s.len() ==> s[j] != c,
    decreases s.len(),
{
    if s.len() > 0 && s.last() != c {
        let t = s.drop_last();
        lemma_rfind(t, c);
        assert forall|j: int| rfind(s, c) < j < s.len() implies s[j] != c by {
            if j < t.len() {
                assert(s[j] == t[j]);
            }
        }
    }
}

/// The position of the last `c` among the first `end` characters of `s`.
fn rfind_before(s: &str, c: char, end: usize) -> (r: Option<usize>)
    requires
        end <= s@.len(),
    ensures
        match r {
            Some(i) => rfind(s@.take(end as int), c) == i && i < end,
            None => rfind(s@.take(end as int), c) == -1,
        },
{
    let mut i = end;
    while i > 0
        invariant
            i <= end <= s@.len(),
            rfind(s@.take(end as int), c) == rfind(s@.take(i as int), c),
        decreases i,
    {
        assert(s@.take(i as int).drop_last() =~= s@.take(i - 1));
        if s.get_char(i - 1) == c {
            proof {
                lemma_rfind(s@.take(end as int), c);
            }
            return Some(i - 1);
        }
        i = i - 1;
    }
    proof {
        lemma_rfind(s@.take(end as int), c);
    }
    None
}

proof fn lemma_decimal_value_prefix(s: Seq<char>, i: int)
    requires
        0 <= i <= s.len(),
        forall|j: int| 0 <= j < s.len() ==> is_digit(s[j]),
    ensures
        decimal_value(s.take(i)) <= decimal_value(s),
    decreases s.len(),
{
    if i < s.len() {
        let t = s.drop_last();
        assert(t.take(i) =~= s.take(i));
        assert forall|j: int| 0 <= j < t.len() implies is_digit(t[j]) by {
            assert(t[j] == s[j]);
        }
        lemma_decimal_value_prefix(t, i);
        assert(is_digit(s[s.len() - 1]));
    } else {
        assert(s.take(i) =~= s);
    }
}

/// Reads a run of decimal digits, optionally after a `+`, as an index.
pub fn parse_index(s: &str) -> (r: Option<usize>)
    ensures
        r == index_of_text(s@),
{
    let len = s.unicode_len();
    let mut start: usize = 0;
    if len > 0 && s.get_char(0) == '+' {
        start = 1;
    }
    let ghost digits = if s@.len() > 0 && s@[0] == '+' {
        s@.drop_first()
    } else {
        s@
    };
    assert(digits =~= s@.subrange(start as int, len as int));
    if start == len {
        return None;
    }
    let mut value: usize = 0;
    let mut i: usize = start;
    while i < len
        invariant
            start <= i <= len,
            len == s@.len(),
            start < len,
            digits =~= s@.subrange(start as int, len as int),
            digits == (if s@.len() > 0 && s@[0] == '+' {
                s@.drop_first()
            } else {
                s@
            }),
            forall|j: int| 0 <= j < i - start ==> is_digit(digits[j]),
            value == decimal_value(digits.take(i - start)),
        decreases len - i,
    {
        let c = s.get_char(i);
        let ghost k: int = i - start;
        assert(digits.take(k + 1).drop_last() =~= digits.take(k));
        assert(digits[k] == c);
        if c < '0' || c > '9' {
            assert(!is_digits(digits));
            return None;
        }
        let d = (c as u32 - '0' as u32) as usize;
        if value > (usize::MAX - d) / 10 {
            assert(decimal_value(digits.take(k + 1)) == value * 10 + d);
            assert(value * 10 + d > usize::MAX) by (nonlinear_arith)
                requires
                    value > (usize::MAX - d) / 10,
                    d <= 9,
            ;
            proof {
                if is_digits(digits) {
                    lemma_decimal_value_prefix(digits, k + 1);
                }
            }
            return None;
        }
        assert(value * 10 + d <= usize::MAX) by (nonlinear_arith)
            requires
                value <= (usize::MAX - d) / 10,
                d <= 9,
        ;
        value = value * 10 + d;
        i = i + 1;
    }
    assert(digits.take(len - start) =~= digits);
    Some(value)
}

/// The sequence index that a chunk path ends in: the number after its last `-`.
pub fn get_trailing_number(path: &str) -> (r: Result<usize, Error>)
    ensures
        match r {
            Ok(n) => trailing_number(path@) == Some(n),
            Err(e) => trailing_number(path@) is None && e.kind == ErrorKind::InvalidInput,
        },
        rfind(path@, '-') < 0 ==> (r matches Err(e) && e.message@ == "no trailing number found"@),
        rfind(path@, '-') >= 0 && trailing_number(path@) is None ==> (r matches Err(e)
            && e.message@ == "invalid trailing number"@),
{
    let len = path.unicode_len();
    assert(path@.take(len as int) =~= path@);
    match rfind_before(path, '-', len) {
        None => Err(Error::new(ErrorKind::InvalidInput, "no trailing number found")),
        Some(p) => {
            let suffix = path.substring_char(p + 1, len);
            match parse_index(suffix) {
                Some(n) => Ok(n),
                None => Err(Error::new(ErrorKind::InvalidInput, "invalid trailing number")),
            }
        },
    }
}

/// The base name of a chunk file name: the name with its last two
/// `-`-delimited segments cut off. `"Cargo.toml-split-0"` gives `"Cargo.toml"`.
pub fn split_file_name(filename: &str) -> (r: Option<&str>)
    ensures
        match r {
            Some(b) => base_name(filename@) == Some(b@),
            None => base_name(filename@) is None,
        },
{
    let len = filename.unicode_len();
    assert(filename@.take(len as int) =~= filename@);
    match rfind_before(filename, '-', len) {
        None => None,
        Some(last_dash) => match rfind_before(filename, '-', last_dash) {
            None => None,
            Some(cut) => Some(filename.substring_char(0, cut)),
        },
    }
}

/// The text of one decimal digit.
fn digit_str(d: usize) -> (r: &'static str)
    requires
        d < 10,
    ensures
        r@ == seq![digit_char(d as nat)],
{
    match d {
        0 => { proof { reveal_strlit("0"); } "0" },
        1 => { proof { reveal_strlit("1"); } "1" },
        2 => { proof { reveal_strlit("2"); } "2" },
        3 => { proof { reveal_strlit("3"); } "3" },
        4 => { proof { reveal_strlit("4"); } "4" },
        5 => { proof { reveal_strlit("5"); } "5" },
        6 => { proof { reveal_strlit("6"); } "6" },
        7 => { proof { reveal_strlit("7"); } "7" },
        8 => { proof { reveal_strlit("8"); } "8" },
        _ => { proof { reveal_strlit("9"); } "9" },
    }
}

/// Appends the decimal text of `n` to `out`.
fn push_decimal(out: &mut String, n: usize)
    ensures
        final(out)@ == old(out)@ + decimal_text(n as nat),
    decreases n,
{
    if n >= 10 {
        push_decimal(out, n / 10);
    }
    out.append(digit_str(n % 10));
    assert(final(out)@ =~= old(out)@ + decimal_text(n as nat));
}

/// The name of the directory that receives the chunks of the file `file_name`:
/// `file_name` followed by `-split`.
pub fn split_dir_name(file_name: &str) -> (r: String)
    ensures
        r@ == split_dir_name_spec(file_name@),
{
    let mut r = String::from_str(file_name);
    r.append("-split");
    proof {
        reveal_strlit("-split");
    }
    assert(r@ =~= split_dir_name_spec(file_name@));
    r
}

/// The name of the chunk with 1-based `index` in the directory `dir_name`:
/// `dir_name`, a `-` and the index in decimal.
pub fn chunk_file_name(dir_name: &str, index: usize) -> (r: String)
    ensures
        r@ == chunk_file_name_spec(dir_name@, index as nat),
{
    let mut r = String::from_str(dir_name);
    r.append("-");
    proof {
        reveal_strlit("-");
    }
    push_decimal(&mut r, index);
    assert(r@ =~= chunk_file_name_spec(dir_name@, index as nat));
    r
}

/// The name of the file that joining the chunks of `base` writes: `joined-`
/// followed by `base`.
pub fn joined_file_name(base: &str) -> (r: String)
    ensures
        r@ == joined_file_name_spec(base@),
{
    let mut r = String::from_str("joined-");
    r.append(base);
    proof {
        reveal_strlit("joined-");
    }
    assert(r@ =~= joined_file_name_spec(base@));
    r
}

proof fn lemma_decimal_text(n: nat)
    ensures
        is_digits(decimal_text(n)),
        decimal_value(decimal_text(n)) == n,
    decreases n,
{
    if n < 10 {
        assert(seq![digit_char(n)].drop_last() =~= Seq::<char>::empty());
        assert(digit_value(digit_char(n)) == n);
        assert(decimal_value(seq![digit_char(n)]) == decimal_value(Seq::<char>::empty()) * 10
            + digit_value(digit_char(n)));
    } else {
        lemma_decimal_text(n / 10);
        let t = decimal_text(n / 10);
        let u = t.push(digit_char(n % 10));
        assert(u.drop_last() =~= t);
        assert(digit_value(digit_char(n % 10)) == n % 10);
        assert(n == (n / 10) * 10 + n % 10);
        assert(decimal_value(u) == decimal_value(t) * 10 + digit_value(u.last()));
        assert forall|i: int| 0 <= i < u.len() implies is_digit(u[i]) by {
            if i < t.len() {
                assert(u[i] == t[i]);
            }
        }
    }
}

/// The last `c` of `a + [c] + t`, where `t` holds no `c`, is the one after `a`.
proof fn lemma_rfind_after(a: Seq<char>, c: char, t: Seq<char>)
    requires
        forall|i: int| 0 <= i < t.len() ==> t[i] != c,
    ensures
        rfind(a + seq![c] + t, c) == a.len(),
    decreases t.len(),
{
    let s = a + seq![c] + t;
    if t.len() == 0 {
        assert(s.last() == c);
    } else {
        assert(s.drop_last() =~= a + seq![c] + t.drop_last());
        assert(s.last() == t.last());
        lemma_rfind_after(a, c, t.drop_last());
    }
}

/// Decoding the name of a chunk gives back what encoded it: the trailing number
/// of `B-split-i` is `i`, and its base name is `B`, whatever `B` holds.
pub proof fn lemma_chunk_name_decodes(base: Seq<char>, index: usize)
    ensures
        trailing_number(chunk_file_name_spec(split_dir_name_spec(base), index as nat)) == Some(
            index,
        ),
        base_name(chunk_file_name_spec(split_dir_name_spec(base), index as nat)) == Some(base),
{
    let dir = split_dir_name_spec(base);
    let digits = decimal_text(index as nat);
    let name = chunk_file_name_spec(dir, index as nat);
    lemma_decimal_text(index as nat);
    assert forall|i: int| 0 <= i < digits.len() implies digits[i] != '-' by {
        assert(is_digit(digits[i]));
    }
    lemma_rfind_after(dir, '-', digits);
    assert(name.subrange(dir.len() as int + 1, name.len() as int) =~= digits);
    assert(digits[0] != '+') by {
        assert(is_digit(digits[0]));
    }
    let tail = seq!['s', 'p', 'l', 'i', 't'];
    assert(name.take(dir.len() as int) =~= base + seq!['-'] + tail);
    lemma_rfind_after(base, '-', tail);
    assert((base + seq!['-'] + tail).take(base.len() as int) =~= base);
}

} // verus!
