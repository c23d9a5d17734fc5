//! Joining: putting a chunk set in the order of its trailing numbers, checking
//! that the numbers are complete, and concatenating the chunks.
use vstd::prelude::*;
use vstd::set_lib::{lemma_int_range, lemma_len_subset, set_int_range};
use crate::error::{Error, ErrorKind, IoFault, is_error, surround};
use crate::naming::{
    base_name, joined_file_name, joined_file_name_spec, split_file_name, chunk_file_name_spec, lemma_chunk_name_decodes, split_dir_name_spec, trailing_number,
};
use crate::plan::{lemma_plan_len, lemma_plan_sum, plan};
use crate::split::{chunks_of, lemma_chunks_flatten, views};

verus! {

/// The trailing numbers of a chunk set of `n` files are exactly `1..=n`: each
/// lies in that range and no two are equal.
pub open spec fn is_contiguous(numbers: Seq<usize>) -> bool {
    &&& forall|i: int| 0 <= i < numbers.len() ==> 1 <= #[trigger] numbers[i] <= numbers.len()
    &&& forall|i: int, j: int| 0 <= i < j < numbers.len() ==> numbers[i] != numbers[j]
}

/// `order` lists, for each position `p` of the joined file, the input that
/// holds the chunk with trailing number `p + 1`.
pub open spec fn is_order(numbers: Seq<usize>, order: Seq<usize>) -> bool {
    &&& order.len() == numbers.len()
    &&& forall|p: int|
        0 <= p < order.len() ==> order[p] < numbers.len() && numbers[order[p] as int] == p + 1
}

/// The contents of a chunk set put in the order `order`.
pub open spec fn in_order(contents: Seq<Seq<u8>>, order: Seq<usize>) -> Seq<Seq<u8>> {
    Seq::new(order.len(), |p: int| contents[order[p] as int])
}

pub const MISMATCH: &'static str = "Trailing number mismatch. Make sure you provided all split files.";

/// `n` distinct numbers in `1..=n` take every value of that range.
proof fn lemma_contiguous_covers(numbers: Seq<usize>, k: int)
    requires
        is_contiguous(numbers),
        1 <= k <= numbers.len(),
    ensures
        exists|i: int| 0 <= i < numbers.len() && numbers[i] == k,
{
    let n = numbers.len() as int;
    let ints = numbers.map_values(|x: usize| x as int);
    if !(exists|i: int| 0 <= i < n && numbers[i] == k) {
        assert(ints.no_duplicates()) by {
            assert forall|i: int, j: int| 0 <= i < n && 0 <= j < n && i != j implies ints[i]
                != ints[j] by {
                if i < j {
                    assert(numbers[i] != numbers[j]);
                } else {
                    assert(numbers[j] != numbers[i]);
                }
            }
        }
        ints.unique_seq_to_set();
        lemma_int_range(1, n + 1);
        let range = set_int_range(1, n + 1).remove(k);
        assert(ints.to_set().subset_of(range)) by {
            assert forall|x: int| ints.to_set().contains(x) implies range.contains(x) by {
                assert(ints.contains(x));
                let i = choose|i: int| 0 <= i < ints.len() && ints[i] == x;
                assert(numbers[i] != k);
            }
        }
        assert(set_int_range(1, n + 1).contains(k));
        lemma_len_subset(ints.to_set(), range);
    }
}

/// Orders a chunk set by the trailing numbers of its files.
///
/// `numbers[i]` is the trailing number of the `i`-th input. The set is accepted
/// only where its numbers are exactly `1..=n`; a gap or a repeated number is a
/// mismatch. On success, position `p` of the result names the input whose
/// trailing number is `p + 1`.
pub fn chunk_order(numbers: &Vec<usize>) -> (r: Result<Vec<usize>, Error>)
    ensures
        r is Ok <==> is_contiguous(numbers@),
        r matches Ok(order) ==> is_order(numbers@, order@),
        r matches Err(e) ==> is_error(e, ErrorKind::PreconditionFailed, MISMATCH@),
{
    let n = numbers.len();
    let mut slot: Vec<usize> = Vec::new();
    for p in 0..n
        invariant
            slot@.len() == p,
            forall|q: int| 0 <= q < p ==> slot@[q] == n,
    {
        slot.push(n);
    }
    for j in 0..n
        invariant
            slot@.len() == n,
            n == numbers@.len(),
            forall|p: int|
                0 <= p < n ==> (slot@[p] == n || (slot@[p] < j && numbers@[slot@[p] as int] == p
                    + 1)),
            forall|i: int| 0 <= i < j ==> 1 <= numbers@[i] <= n && slot@[numbers@[i] - 1] == i,
    {
        let k = numbers[j];
        if k == 0 || k > n {
            return Err(Error::new(ErrorKind::PreconditionFailed, MISMATCH));
        }
        if slot[k - 1] != n {
            assert(numbers@[slot@[k - 1] as int] == numbers@[j as int]);
            return Err(Error::new(ErrorKind::PreconditionFailed, MISMATCH));
        }
        slot.set(k - 1, j);
    }
    assert(is_contiguous(numbers@)) by {
        assert forall|i: int, j: int| 0 <= i < j < n implies numbers@[i] != numbers@[j] by {
            if numbers@[i] == numbers@[j] {
                assert(slot@[numbers@[i] - 1] == i);
            }
        }
    }
    assert forall|p: int| 0 <= p < n implies slot@[p] != n by {
        lemma_contiguous_covers(numbers@, p + 1);
        let i = choose|i: int| 0 <= i < n && numbers@[i] == p + 1;
        assert(slot@[numbers@[i] - 1] == i);
    }
    Ok(slot)
}

/// Concatenates the chunks in the order given.
pub fn join_chunks(chunks: &Vec<Vec<u8>>) -> (r: Vec<u8>)
    ensures
        r@ == views(chunks@).flatten(),
{
    let mut r: Vec<u8> = Vec::new();
    for i in 0..chunks.len()
        invariant
            r@ == views(chunks@.take(i as int)).flatten(),
    {
        let ghost before = r@;
        r.extend_from_slice(chunks[i].as_slice());
        proof {
            assert(r@ =~= before + chunks@[i as int]@);
            assert(views(chunks@.take(i as int + 1)) =~= views(chunks@.take(i as int)).push(
                chunks@[i as int]@,
            ));
            views(chunks@.take(i as int)).lemma_flatten_push(chunks@[i as int]@);
        }
    }
    assert(chunks@.take(chunks@.len() as int) =~= chunks@);
    r
}

proof fn lemma_chunks_len(data: Seq<u8>, sizes: Seq<u64>)
    ensures
        chunks_of(data, sizes).len() == sizes.len(),
    decreases sizes.len(),
{
    if sizes.len() > 0 {
        lemma_chunks_len(data.take(crate::plan::sum(sizes.drop_last())), sizes.drop_last());
    }
}

/// The trailing numbers read from the names of a split's chunks, handed over
/// so that `arrangement[i]` is the chunk at input position `i`.
pub open spec fn arranged_numbers(base: Seq<char>, arrangement: Seq<usize>) -> Seq<usize> {
    Seq::new(
        arrangement.len(),
        |i: int|
            trailing_number(
                chunk_file_name_spec(split_dir_name_spec(base), (arrangement[i] + 1) as nat),
            )->0,
    )
}

/// The contents of the chunks of `data` under `limit`, handed over in the
/// arrangement `arrangement`.
pub open spec fn arranged_chunks(data: Seq<u8>, limit: u64, arrangement: Seq<usize>) -> Seq<
    Seq<u8>,
> {
    Seq::new(
        arrangement.len(),
        |i: int| chunks_of(data, plan(data.len() as u64, limit))[arrangement[i] as int],
    )
}

/// Splitting a file and joining its chunks gives back the file, byte for byte,
/// whatever order the chunk files are handed to the join in.
///
/// The file `data` is split under `limit`, and its chunks are named in the
/// directory of `base`. `arrangement` is any permutation of the chunk
/// positions: `arrangement[i]` is the chunk handed over as the `i`-th input.
/// The trailing numbers read from those names are then contiguous, so
/// `chunk_order` accepts them. Every order that it may return puts the chunks
/// back together into `data`.
pub proof fn lemma_split_then_join(
    data: Seq<u8>,
    limit: u64,
    base: Seq<char>,
    arrangement: Seq<usize>,
)
    requires
        limit >= 2,
        limit <= data.len() <= usize::MAX,
        arrangement.len() == plan(data.len() as u64, limit).len(),
        forall|i: int|
            0 <= i < arrangement.len() ==> arrangement[i] < arrangement.len(),
        forall|i: int, j: int|
            0 <= i < j < arrangement.len() ==> arrangement[i] != arrangement[j],
    ensures
        is_contiguous(arranged_numbers(base, arrangement)),
        forall|order: Seq<usize>|
            is_order(arranged_numbers(base, arrangement), order) ==> (#[trigger] in_order(
                arranged_chunks(data, limit, arrangement),
                order,
            )).flatten() == data,
{
    let sizes = plan(data.len() as u64, limit);
    let chunks = chunks_of(data, sizes);
    let n = arrangement.len();
    let numbers = arranged_numbers(base, arrangement);
    let contents = arranged_chunks(data, limit, arrangement);
    lemma_plan_len(data.len() as u64, limit);
    assert forall|i: int| 0 <= i < n implies numbers[i] == arrangement[i] + 1 by {
        lemma_chunk_name_decodes(base, (arrangement[i] + 1) as usize);
    }
    assert(is_contiguous(numbers)) by {
        assert forall|i: int, j: int| 0 <= i < j < n implies numbers[i] != numbers[j] by {
            assert(arrangement[i] != arrangement[j]);
        }
    }
    lemma_chunks_len(data, sizes);
    lemma_plan_sum(data.len() as u64, limit);
    lemma_chunks_flatten(data, sizes);
    assert forall|order: Seq<usize>| is_order(numbers, order) implies (#[trigger] in_order(
        contents,
        order,
    )).flatten() == data by {
        assert(in_order(contents, order) =~= chunks) by {
            assert forall|p: int| 0 <= p < n implies in_order(contents, order)[p] == chunks[p] by {
                assert(numbers[order[p] as int] == p + 1);
            }
        }
    }
}

/// The name of the file that a join writes, from the file name of its first
/// input: `joined-` and the base name. An error where the name does not follow
/// the chunk naming scheme.
pub fn output_file_name(first_file_name: &str) -> (r: Result<String, Error>)
    ensures
        match base_name(first_file_name@) {
            Some(b) => r matches Ok(n) && n@ == joined_file_name_spec(b),
            None => r matches Err(e) && is_error(
                e,
                ErrorKind::InvalidInput,
                "Invalid filename: "@ + first_file_name@,
            ),
        },
{
    match split_file_name(first_file_name) {
        Some(base) => Ok(joined_file_name(base)),
        None => {
            let message = surround("Invalid filename: ", first_file_name, "");
            proof {
                reveal_strlit("");
            }
            assert(message@ =~= "Invalid filename: "@ + first_file_name@);
            Err(Error { kind: ErrorKind::InvalidInput, message })
        },
    }
}

/// The error for an output file that could not be created.
pub fn output_create_error(fault: IoFault, output_name: &str) -> (e: Error)
    ensures
        fault == IoFault::AlreadyExists ==> is_error(
            e,
            ErrorKind::PreconditionFailed,
            "Failed to create output file. "@ + output_name@ + " already exists."@,
        ),
        fault != IoFault::AlreadyExists ==> is_error(
            e,
            ErrorKind::IoFailure,
            "Failed to create output file."@,
        ),
{
    match fault {
        IoFault::AlreadyExists => Error {
            kind: ErrorKind::PreconditionFailed,
            message: surround("Failed to create output file. ", output_name, " already exists."),
        },
        _ => Error::new(ErrorKind::IoFailure, "Failed to create output file."),
    }
}

/// The message of a successful join.
pub fn join_success(output_name: &str) -> (r: String)
    ensures
        r@ == "Successful join. Joined file: "@ + output_name@,
{
    let r = surround("Successful join. Joined file: ", output_name, "");
    proof {
        reveal_strlit("");
    }
    assert(r@ =~= "Successful join. Joined file: "@ + output_name@);
    r
}

} // verus!
