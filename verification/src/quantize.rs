//! Quantizing a file of half words: matrices to blocks of 32 signed bytes with a scale, everything
//! else to numbers.
use serde_json::Value;
use vstd::prelude::*;
use vstd::slice::slice_subrange;
use vstd::utf8::{decode_utf8, valid_utf8};

use crate::arith::{
    bf16_bits, bf16_u16_to_f32, bf16_u16_to_f32_bits, bits_of, i8_of, is_abs, is_clamp,
    is_product, is_quotient, is_round, of_bf16, of_bits, says_eq, says_lt, Arith, ONE_BITS,
    Q8_MAX_BITS, Q8_MIN_BITS, ZERO_BITS,
};
use crate::bytes::{
    bytes32, bytes64, law_i8_reads_back, law_u32_reads_back, law_u64_reads_back, le16, le32, le64,
    push_i8, push_u32, push_u64, read_u16, signed, unsigned,
};
use crate::json::{
    holds_items, holds_members, items, json_of, member, member_of, members, name_before, parsed,
    raw_to_json, text_of, Json,
};
use crate::loader::{header_of, no_header};
use crate::tensor::{heads_fit, lemma_product_last, product, BlockQ8_0};
use crate::text::same_text;
use crate::weights::{
    has_header, header_len, holds_block, holds_blocks, read_header, Entry, BLOCK_BYTES,
    PREFIX_BYTES,
};

verus! {

/// How many weights a block holds.
pub const BLOCK_WEIGHTS: usize = 32;

/// How many bytes the half words of a block take.
pub const BLOCK_SOURCE_BYTES: usize = 64;

/// What the header of a file says of a tensor.
#[derive(Debug)]
pub struct TensorInfo {
    pub dtype: String,
    pub shape: Vec<usize>,
    pub data_offsets: [usize; 2],
}

// ---- The tensors that a header names ----

/// What is said of a header that is no JSON object.
pub open spec fn not_dict() -> Seq<char> {
    "cannot transfer to HashMap"@
}

/// What is said of a member of the header that describes no tensor.
pub open spec fn not_info() -> Seq<char> {
    "cannot cast to struct"@
}

/// An integer that is a machine word.
pub open spec fn is_word(j: Json) -> bool {
    j matches Json::Unsigned(n) && n <= usize::MAX
}

/// The machine words of an array, if it holds nothing else.
pub open spec fn words_of(j: Json) -> Option<Seq<usize>> {
    match j {
        Json::Array(all) => if forall|i: int| 0 <= i < all.len() ==> is_word(#[trigger] all[i]) {
            Some(Seq::new(all.len(), |i: int| all[i]->Unsigned_0 as usize))
        } else {
            None
        },
        _ => None,
    }
}

/// The description of a tensor by its three parts.
pub open spec fn info_from(dtype: Json, shape: Json, offsets: Json) -> Option<Entry> {
    match (dtype, words_of(shape), words_of(offsets)) {
        (Json::Text(dtype), Some(shape), Some(offsets)) => if offsets.len() == 2 {
            Some(Entry { offsets, dtype, shape })
        } else {
            None
        },
        _ => None,
    }
}

/// The description of a tensor: an object with the three parts by their names, whatever else it
/// holds, or an array of the three in their order.
pub open spec fn info_of(j: Json) -> Option<Entry> {
    match j {
        Json::Object(_) => info_from(
            member_of(j, "dtype"@),
            member_of(j, "shape"@),
            member_of(j, "data_offsets"@),
        ),
        Json::Array(all) => if all.len() == 3 {
            info_from(all[0], all[1], all[2])
        } else {
            None
        },
        _ => None,
    }
}

/// `info` is this description.
pub open spec fn is_info(entry: Entry, info: TensorInfo) -> bool {
    &&& info.dtype@ == entry.dtype
    &&& info.shape@ == entry.shape
    &&& info.data_offsets@ == entry.offsets
}

/// The members that stand for tensors, in their order: all but the metadata.
pub open spec fn tensor_members(all: Seq<(Seq<char>, Json)>) -> Seq<(Seq<char>, Json)>
    decreases all.len(),
{
    if all.len() == 0 {
        Seq::empty()
    } else if all.last().0 != "__metadata__"@ {
        tensor_members(all.drop_last()).push(all.last())
    } else {
        tensor_members(all.drop_last())
    }
}

/// `infos` are the names and descriptions of the tensors for which these members stand.
pub open spec fn are_infos(
    tensors: Seq<(Seq<char>, Json)>,
    infos: Seq<(String, TensorInfo)>,
) -> bool {
    &&& infos.len() == tensors.len()
    &&& forall|i: int|
        0 <= i < infos.len() ==> {
            &&& (#[trigger] infos[i]).0@ == tensors[i].0
            &&& info_of(tensors[i].1) matches Some(entry) && is_info(entry, infos[i].1)
        }
}

/// The names rise in the order of strings.
pub open spec fn names_rise(infos: Seq<(String, TensorInfo)>) -> bool {
    forall|i: int, j: int|
        0 <= i < j < infos.len() ==> name_before(
            (#[trigger] infos[i]).0@,
            (#[trigger] infos[j]).0@,
        )
}

/// What the header of a file holds, if it is JSON.
pub open spec fn header_json(bytes: Seq<u8>) -> Option<Json> {
    if valid_utf8(header_of(bytes)) {
        parsed(decode_utf8(header_of(bytes)))
    } else {
        None
    }
}

/// The tensors that the header of a file names, or why it names none.
pub open spec fn are_header_tensors(
    bytes: Seq<u8>,
    r: Result<Vec<(String, TensorInfo)>, String>,
) -> bool {
    if !has_header(bytes) {
        r matches Err(e) && e@ == no_header()
    } else {
        match header_json(bytes) {
            Some(Json::Object(all)) => match r {
                Ok(infos) => are_infos(tensor_members(all), infos@) && names_rise(infos@),
                Err(e) => e@ == not_info() && exists|i: int|
                    0 <= i < tensor_members(all).len() && info_of(
                        (#[trigger] tensor_members(all)[i]).1,
                    ) is None,
            },
            _ => r matches Err(e) && e@ == not_dict(),
        }
    }
}

fn read_word(v: &Value) -> (r: Option<usize>)
    ensures
        match r {
            Some(n) => json_of(*v) == Json::Unsigned(n as u64),
            None => !is_word(json_of(*v)),
        },
{
    match crate::json::unsigned(v) {
        Some(n) => {
            if n <= usize::MAX as u64 {
                Some(n as usize)
            } else {
                None
            }
        },
        None => None,
    }
}

fn read_words(v: &Value) -> (r: Option<Vec<usize>>)
    ensures
        match r {
            Some(words) => words_of(json_of(*v)) == Some(words@),
            None => words_of(json_of(*v)) is None,
        },
{
    let values = match items(v) {
        Some(values) => values,
        None => {
            return None;
        },
    };
    let ghost all = json_of(*v)->Array_0;
    let mut words: Vec<usize> = Vec::new();
    let mut i: usize = 0;
    while i < values.len()
        invariant
            i <= values@.len(),
            json_of(*v) == Json::Array(all),
            holds_items(values@, all),
            words@.len() == i,
            forall|k: int|
                0 <= k < i ==> is_word(#[trigger] all[k]) && words@[k]
                    == all[k]->Unsigned_0 as usize,
        decreases values@.len() - i,
    {
        assert(json_of(values@[i as int]) == all[i as int]);
        match read_word(&values[i]) {
            Some(n) => {
                words.push(n);
            },
            None => {
                assert(!is_word(all[i as int]));
                return None;
            },
        }
        i += 1;
    }
    assert(words@ =~= Seq::new(all.len(), |k: int| all[k]->Unsigned_0 as usize));
    Some(words)
}

fn read_parts(dtype: &Value, shape: &Value, offsets: &Value) -> (r: Option<TensorInfo>)
    ensures
        match r {
            Some(info) => info_from(json_of(*dtype), json_of(*shape), json_of(*offsets)) matches Some(
                entry,
            ) && is_info(entry, info),
            None => info_from(json_of(*dtype), json_of(*shape), json_of(*offsets)) is None,
        },
{
    match (text_of(dtype), read_words(shape), read_words(offsets)) {
        (Some(dtype), Some(shape), Some(offsets)) => {
            if offsets.len() == 2 {
                let data_offsets = [offsets[0], offsets[1]];
                assert(data_offsets@ =~= offsets@);
                Some(TensorInfo { dtype: dtype.to_owned(), shape, data_offsets })
            } else {
                None
            }
        },
        _ => None,
    }
}

fn read_info(v: &Value) -> (r: Option<TensorInfo>)
    ensures
        match r {
            Some(info) => info_of(json_of(*v)) matches Some(entry) && is_info(entry, info),
            None => info_of(json_of(*v)) is None,
        },
{
    match items(v) {
        Some(values) => {
            let ghost all = json_of(*v)->Array_0;
            if values.len() == 3 {
                assert(json_of(values@[0]) == all[0]);
                assert(json_of(values@[1]) == all[1]);
                assert(json_of(values@[2]) == all[2]);
                read_parts(&values[0], &values[1], &values[2])
            } else {
                None
            }
        },
        None => match members(v) {
            Some(_) => read_parts(
                member(v, "dtype"),
                member(v, "shape"),
                member(v, "data_offsets"),
            ),
            None => None,
        },
    }
}

proof fn lemma_tensor_members_step(all: Seq<(Seq<char>, Json)>, n: int)
    requires
        0 <= n < all.len(),
    ensures
        tensor_members(all.take(n + 1)) == if all[n].0 != "__metadata__"@ {
            tensor_members(all.take(n)).push(all[n])
        } else {
            tensor_members(all.take(n))
        },
{
    assert(all.take(n + 1).drop_last() =~= all.take(n));
}

/// The tensors among members are those among the first of them and then those among the rest.
pub proof fn law_tensor_members_concatenate(
    a: Seq<(Seq<char>, Json)>,
    b: Seq<(Seq<char>, Json)>,
)
    ensures
        tensor_members(a + b) == tensor_members(a) + tensor_members(b),
    decreases b.len(),
{
    if b.len() == 0 {
        assert(a + b =~= a);
    } else {
        law_tensor_members_concatenate(a, b.drop_last());
        assert((a + b).drop_last() =~= a + b.drop_last());
        assert(tensor_members(a + b) =~= tensor_members(a) + tensor_members(b));
    }
}

/// A member stands for a tensor, whatever it holds, unless it is the metadata.
pub proof fn law_metadata_is_no_tensor(member: (Seq<char>, Json))
    ensures
        tensor_members(seq![member]) == if member.0 == "__metadata__"@ {
            Seq::empty()
        } else {
            seq![member]
        },
{
    assert(seq![member].drop_last() =~= Seq::<(Seq<char>, Json)>::empty());
    reveal_with_fuel(tensor_members, 2);
    assert(Seq::<(Seq<char>, Json)>::empty().push(member) =~= seq![member]);
}

/// A tensor among the first members is one among all of them, at the same place.
proof fn lemma_tensor_members_prefix(all: Seq<(Seq<char>, Json)>, n: int)
    requires
        0 <= n <= all.len(),
    ensures
        tensor_members(all.take(n)).len() <= tensor_members(all).len(),
        tensor_members(all.take(n)) == tensor_members(all).take(
            tensor_members(all.take(n)).len() as int,
        ),
    decreases all.len() - n,
{
    if n == all.len() {
        assert(all.take(n) =~= all);
        assert(tensor_members(all) =~= tensor_members(all).take(tensor_members(all).len() as int));
    } else {
        lemma_tensor_members_prefix(all, n + 1);
        lemma_tensor_members_step(all, n);
        let short = tensor_members(all.take(n));
        assert(short =~= tensor_members(all).take(short.len() as int));
    }
}

/// Where the names of all members rise, so do those of the tensors.
proof fn lemma_tensor_names_rise(all: Seq<(Seq<char>, Json)>)
    requires
        forall|i: int, j: int|
            0 <= i < j < all.len() ==> name_before((#[trigger] all[i]).0, (#[trigger] all[j]).0),
    ensures
        forall|i: int, j: int|
            0 <= i < j < tensor_members(all).len() ==> name_before(
                (#[trigger] tensor_members(all)[i]).0,
                (#[trigger] tensor_members(all)[j]).0,
            ),
        forall|i: int|
            0 <= i < tensor_members(all).len() ==> all.contains(#[trigger] tensor_members(all)[i]),
    decreases all.len(),
{
    if all.len() > 0 {
        let rest = all.drop_last();
        let short = tensor_members(rest);
        lemma_tensor_names_rise(rest);
        assert forall|i: int| 0 <= i < short.len() implies all.contains(#[trigger] short[i])
            && name_before(short[i].0, all.last().0) by {
            let k = choose|k: int| 0 <= k < rest.len() && rest[k] == short[i];
            assert(rest.contains(short[i]));
            assert(all[k] == short[i]);
            assert(name_before(all[k].0, all[all.len() - 1].0));
        }
        assert(all[all.len() - 1] == all.last());
    }
}

/// Reads the tensors that the header of a file names, in the order of their names, each with its form, its dimensions and the
/// place of its bytes.
pub fn header_tensors(bytes: &[u8]) -> (r: Result<Vec<(String, TensorInfo)>, String>)
    ensures
        are_header_tensors(bytes@, r),
{
    let header = match read_header(bytes) {
        Some((_, header)) => header,
        None => {
            return Err("cannot read the header".to_owned());
        },
    };
    assert(header@ =~= header_of(bytes@));
    let dict = match raw_to_json(header) {
        Ok(dict) => dict,
        Err(_) => {
            return Err("cannot transfer to HashMap".to_owned());
        },
    };
    let entries = match members(&dict) {
        Some(entries) => entries,
        None => {
            return Err("cannot transfer to HashMap".to_owned());
        },
    };
    let ghost all = json_of(dict)->Object_0;
    let mut infos: Vec<(String, TensorInfo)> = Vec::new();
    let mut i: usize = 0;
    assert(all.take(0) =~= Seq::<(Seq<char>, Json)>::empty());
    while i < entries.len()
        invariant
            i <= entries@.len(),
            has_header(bytes@),
            header_json(bytes@) == Some(Json::Object(all)),
            holds_members(entries@, all),
            are_infos(tensor_members(all.take(i as int)), infos@),
        decreases entries@.len() - i,
    {
        let (name, value) = entries[i];
        proof {
            assert(entries@[i as int].0@ == all[i as int].0);
            lemma_tensor_members_step(all, i as int);
        }
        if is_tensor_name(name) {
            match read_info(value) {
                Some(info) => {
                    infos.push((name.clone(), info));
                },
                None => {
                    proof {
                        lemma_tensor_members_prefix(all, i + 1);
                        let short = tensor_members(all.take(i + 1));
                        let k = short.len() - 1;
                        assert(tensor_members(all)[k] == short[k]);
                        assert(info_of(tensor_members(all)[k].1) is None);
                    }
                    return Err("cannot cast to struct".to_owned());
                },
            }
        }
        i += 1;
    }
    proof {
        assert(all.take(all.len() as int) =~= all);
        assert forall|i: int, j: int| 0 <= i < j < all.len() implies name_before(
            (#[trigger] all[i]).0,
            (#[trigger] all[j]).0,
        ) by {}
        lemma_tensor_names_rise(all);
        let tensors = tensor_members(all);
        assert forall|i: int, j: int| 0 <= i < j < infos@.len() implies name_before(
            (#[trigger] infos@[i]).0@,
            (#[trigger] infos@[j]).0@,
        ) by {
            assert(name_before(tensors[i].0, tensors[j].0));
        }
    }
    Ok(infos)
}

// ---- Where the quantized tensors stand ----

/// How many bytes a tensor takes when it is quantized.
pub open spec fn quantized_size(shape: Seq<usize>) -> int {
    if shape.len() == 2 {
        product(shape) as int / BLOCK_WEIGHTS as int * BLOCK_BYTES
    } else {
        product(shape) as int * 4
    }
}

/// The form of a tensor when it is quantized.
pub open spec fn quantized_dtype(shape: Seq<usize>) -> Seq<char> {
    if shape.len() == 2 {
        "Q8_0"@
    } else {
        "F32"@
    }
}

/// A matrix that does not consist of whole blocks.
pub open spec fn is_ragged(shape: Seq<usize>) -> bool {
    shape.len() == 2 && product(shape) as int % BLOCK_WEIGHTS as int != 0
}

/// How many bytes the first `n` tensors take when they are quantized.
pub open spec fn start_of(infos: Seq<(String, TensorInfo)>, n: int) -> int
    decreases n,
{
    if n <= 0 {
        0
    } else {
        start_of(infos, n - 1) + quantized_size(infos[n - 1].1.shape@)
    }
}

/// The first `n` tensors can be placed: their sizes are machine words, and no matrix is ragged.
pub open spec fn places(infos: Seq<(String, TensorInfo)>, n: int) -> Result<(), Seq<char>>
    decreases n,
{
    if n <= 0 {
        Ok(())
    } else {
        match places(infos, n - 1) {
            Err(e) => Err(e),
            Ok(_) => if !heads_fit(infos[n - 1].1.shape@) {
                Err(too_large())
            } else if is_ragged(infos[n - 1].1.shape@) {
                Err(not_aligned())
            } else if start_of(infos, n) > usize::MAX {
                Err(too_large())
            } else {
                Ok(())
            },
        }
    }
}

/// What is said of a matrix that does not consist of whole blocks.
pub open spec fn not_aligned() -> Seq<char> {
    " cannot align with 32 size block"@
}

/// What is said of a tensor whose size or place is no machine word.
pub open spec fn too_large() -> Seq<char> {
    "tensor too large"@
}

/// `plan` gives each tensor its quantized form and its place, one behind the other.
pub open spec fn is_plan(
    infos: Seq<(String, TensorInfo)>,
    plan: Seq<(String, TensorInfo)>,
) -> bool {
    &&& plan.len() == infos.len()
    &&& forall|i: int|
        0 <= i < plan.len() ==> {
            let shape = infos[i].1.shape@;
            &&& (#[trigger] plan[i]).0@ == infos[i].0@
            &&& plan[i].1.shape@ == shape
            &&& plan[i].1.dtype@ == quantized_dtype(shape)
            &&& plan[i].1.data_offsets@[0] == start_of(infos, i)
            &&& plan[i].1.data_offsets@[1] == start_of(infos, i + 1)
        }
}

/// A name in the header is that of a tensor.
pub fn is_tensor_name(name: &str) -> (r: bool)
    ensures
        r == (name@ != "__metadata__"@),
{
    !same_text(name, "__metadata__")
}

proof fn lemma_places_error_stays(infos: Seq<(String, TensorInfo)>, n: int, m: int)
    requires
        n <= m,
        places(infos, n) is Err,
    ensures
        places(infos, m) == places(infos, n),
    decreases m - n,
{
    if n < m {
        lemma_places_error_stays(infos, n, m - 1);
    }
}

fn element_count(shape: &Vec<usize>) -> (r: Option<usize>)
    ensures
        match r {
            Some(n) => heads_fit(shape@) && n == product(shape@),
            None => !heads_fit(shape@),
        },
{
    let mut state: usize = 1;
    let mut i: usize = 0;
    assert(shape@.take(0).len() == 0);
    while i < shape.len()
        invariant
            i <= shape@.len(),
            state as nat == product(shape@.take(i as int)),
            forall|k: int| 0 <= k <= i ==> product(#[trigger] shape@.take(k)) <= usize::MAX,
        decreases shape@.len() - i,
    {
        let ghost n = i + 1;
        proof {
            lemma_product_last(shape@.take(n));
            assert(shape@.take(n).drop_last() =~= shape@.take(i as int));
        }
        match state.checked_mul(shape[i]) {
            Some(next) => {
                state = next;
            },
            None => {
                assert(product(shape@.take(n)) > usize::MAX);
                return None;
            },
        }
        i += 1;
    }
    assert(shape@.take(shape@.len() as int) =~= shape@);
    Some(state)
}

/// How many bytes a tensor of `count` elements takes.
fn size_in_bytes(rank: usize, count: usize) -> (r: Option<usize>)
    ensures
        match r {
            Some(n) => n == (if rank == 2 {
                count as int / BLOCK_WEIGHTS as int * BLOCK_BYTES
            } else {
                count * 4
            }),
            None => (if rank == 2 {
                count as int / BLOCK_WEIGHTS as int * BLOCK_BYTES
            } else {
                count * 4
            }) > usize::MAX,
        },
{
    if rank == 2 {
        (count / BLOCK_WEIGHTS).checked_mul(BLOCK_BYTES)
    } else {
        count.checked_mul(4)
    }
}

/// Places the tensors of a file, in their order, as they will be when they are quantized.
pub fn plan_layout(infos: &Vec<(String, TensorInfo)>) -> (r: Result<
    Vec<(String, TensorInfo)>,
    String,
>)
    ensures
        match r {
            Ok(plan) => places(infos@, infos@.len() as int) is Ok && is_plan(infos@, plan@),
            Err(e) => places(infos@, infos@.len() as int) == Err::<(), Seq<char>>(e@),
        },
{
    let mut plan: Vec<(String, TensorInfo)> = Vec::new();
    let mut current_offset: usize = 0;
    let mut i: usize = 0;
    while i < infos.len()
        invariant
            i <= infos@.len(),
            places(infos@, i as int) is Ok,
            current_offset == start_of(infos@, i as int),
            plan@.len() == i,
            is_plan(infos@.take(i as int), plan@),
        decreases infos@.len() - i,
    {
        let ghost n = i + 1;
        let shape = &infos[i].1.shape;
        proof {
            lemma_start_same(infos@, n, n);
            assert(infos@.take(n)[i as int] == infos@[i as int]);
        }
        let count = match element_count(shape) {
            Some(count) => count,
            None => {
                proof {
                    lemma_places_error_stays(infos@, n, infos@.len() as int);
                }
                return Err("tensor too large".to_owned());
            },
        };
        if shape.len() == 2 && count % BLOCK_WEIGHTS != 0 {
            proof {
                lemma_places_error_stays(infos@, n, infos@.len() as int);
            }
            return Err(" cannot align with 32 size block".to_owned());
        }
        let end = match size_in_bytes(shape.len(), count) {
            Some(size) => current_offset.checked_add(size),
            None => None,
        };
        let end = match end {
            Some(end) => end,
            None => {
                proof {
                    assert(start_of(infos@, n) > usize::MAX);
                    lemma_places_error_stays(infos@, n, infos@.len() as int);
                }
                return Err("tensor too large".to_owned());
            },
        };
        let dtype = if shape.len() == 2 {
            "Q8_0".to_owned()
        } else {
            "F32".to_owned()
        };
        let mut dims: Vec<usize> = Vec::new();
        dims.extend_from_slice(shape.as_slice());
        assert(dims@ =~= shape@);
        plan.push(
            (
                infos[i].0.clone(),
                TensorInfo { dtype, shape: dims, data_offsets: [current_offset, end] },
            ),
        );
        proof {
            let before = infos@.take(i as int);
            let after = infos@.take(n);
            assert forall|k: int| 0 <= k < plan@.len() implies {
                let shape = after[k].1.shape@;
                &&& (#[trigger] plan@[k]).0@ == after[k].0@
                &&& plan@[k].1.shape@ == shape
                &&& plan@[k].1.dtype@ == quantized_dtype(shape)
                &&& plan@[k].1.data_offsets@[0] == start_of(after, k)
                &&& plan@[k].1.data_offsets@[1] == start_of(after, k + 1)
            } by {
                lemma_start_same(infos@, n, k);
                lemma_start_same(infos@, n, k + 1);
                lemma_start_same(infos@, i as int, k);
                if k < i {
                    lemma_start_same(infos@, i as int, k + 1);
                    assert(before[k] == after[k]);
                }
            }
        }
        current_offset = end;
        i += 1;
    }
    assert(infos@.take(infos@.len() as int) =~= infos@);
    Ok(plan)
}

proof fn lemma_start_same(infos: Seq<(String, TensorInfo)>, n: int, k: int)
    requires
        k <= n <= infos.len(),
        0 <= n,
    ensures
        start_of(infos.take(n), k) == start_of(infos, k),
    decreases k,
{
    if k > 0 {
        lemma_start_same(infos, n, k - 1);
    }
}

/// The tensors of a plan lie one behind the other, from the start on, each in its own place.
pub proof fn law_plan_is_contiguous(
    infos: Seq<(String, TensorInfo)>,
    plan: Seq<(String, TensorInfo)>,
    i: int,
)
    requires
        is_plan(infos, plan),
        0 <= i < plan.len(),
    ensures
        i == 0 ==> plan[i].1.data_offsets@[0] == 0,
        i > 0 ==> plan[i].1.data_offsets@[0] == plan[i - 1].1.data_offsets@[1],
        plan[i].1.data_offsets@[1] - plan[i].1.data_offsets@[0] == quantized_size(
            infos[i].1.shape@,
        ),
{
}

// ---- The quantized bytes ----

/// `r` is the greater of `p` and the magnitude of `v`.
pub open spec fn is_peak_step<T: Copy, A: Arith<T>>(ar: &A, v: T, p: T, r: T) -> bool {
    exists|a: T, more: bool| #[trigger]
        is_abs(ar, v, a) && #[trigger] says_lt(ar, p, a, more) && r == (if more {
            a
        } else {
            p
        })
}

/// `r` is the greatest magnitude among the first `n` values.
pub open spec fn is_peak<T: Copy, A: Arith<T>>(ar: &A, values: Seq<T>, n: int, r: T) -> bool
    decreases n,
{
    if n <= 0 {
        of_bits(ar, ZERO_BITS, r)
    } else {
        exists|p: T|
            is_peak(ar, values, n - 1, p) && #[trigger] is_peak_step(ar, values[n - 1], p, r)
    }
}

/// `r` is the scale of a block whose greatest magnitude is `peak`.
pub open spec fn is_scale<T: Copy, A: Arith<T>>(ar: &A, peak: T, r: T) -> bool {
    exists|c: T| of_bits(ar, Q8_MAX_BITS, c) && #[trigger] is_quotient(ar, peak, c, r)
}

/// `r` is one over the scale; of a scale that is zero, zero.
pub open spec fn is_inverse_scale<T: Copy, A: Arith<T>>(ar: &A, scale: T, r: T) -> bool {
    exists|z: T, flat: bool|
        of_bits(ar, ZERO_BITS, z) && #[trigger] says_eq(ar, scale, z, flat) && if flat {
            of_bits(ar, ZERO_BITS, r)
        } else {
            exists|one: T| of_bits(ar, ONE_BITS, one) && #[trigger] is_quotient(ar, one, scale, r)
        }
}

/// `q` is `v` in steps of the scale: rounded, and cut to the range of a quantized weight.
pub open spec fn is_quantized<T: Copy, A: Arith<T>>(ar: &A, v: T, inverse: T, q: i8) -> bool {
    exists|p: T, r: T, low: T, high: T, c: T| #[trigger]
        quantizing_steps(ar, v, inverse, p, r, low, high, c, q)
}

/// The intermediate numbers of quantizing a value.
pub open spec fn quantizing_steps<T: Copy, A: Arith<T>>(
    ar: &A,
    v: T,
    inverse: T,
    p: T,
    r: T,
    low: T,
    high: T,
    c: T,
    q: i8,
) -> bool {
    &&& is_product(ar, v, inverse, p)
    &&& is_round(ar, p, r)
    &&& of_bits(ar, Q8_MIN_BITS, low)
    &&& of_bits(ar, Q8_MAX_BITS, high)
    &&& is_clamp(ar, r, low, high, c)
    &&& i8_of(ar, c, q)
}

/// `values` are the numbers that half words stand for.
pub open spec fn are_halves<T: Copy, A: Arith<T>>(
    ar: &A,
    source: Seq<u8>,
    values: Seq<T>,
) -> bool {
    forall|i: int|
        0 <= i < values.len() ==> of_bf16(ar, le16(source, 2 * i) as u16, #[trigger] values[i])
}

/// `block` is what the half words of a block are quantized to.
pub open spec fn is_block_of<T: Copy, A: Arith<T>>(
    ar: &A,
    source: Seq<u8>,
    block: BlockQ8_0<T>,
) -> bool {
    exists|values: Seq<T>, peak: T, inverse: T| #[trigger]
        block_steps(ar, source, values, peak, inverse, block)
}

/// The values, their greatest magnitude and the inverse scale from which a block comes.
pub open spec fn block_steps<T: Copy, A: Arith<T>>(
    ar: &A,
    source: Seq<u8>,
    values: Seq<T>,
    peak: T,
    inverse: T,
    block: BlockQ8_0<T>,
) -> bool {
    &&& values.len() == BLOCK_WEIGHTS
    &&& are_halves(ar, source, values)
    &&& is_peak(ar, values, BLOCK_WEIGHTS as int, peak)
    &&& is_scale(ar, peak, block.d)
    &&& is_inverse_scale(ar, block.d, inverse)
    &&& forall|i: int|
        0 <= i < BLOCK_WEIGHTS ==> is_quantized(ar, values[i], inverse, #[trigger] block.qs@[i])
}

/// `bytes` are those of a block: of its scale, and of its weights.
pub open spec fn is_block_bytes<T: Copy, A: Arith<T>>(
    ar: &A,
    block: BlockQ8_0<T>,
    bytes: Seq<u8>,
) -> bool {
    exists|bits: u32| #[trigger] bits_of(ar, block.d, bits) && bytes == block_bytes_of(
        bits,
        block.qs@,
    )
}

/// The bytes of a block whose scale has these bits.
pub open spec fn block_bytes_of(bits: u32, qs: Seq<i8>) -> Seq<u8> {
    bytes32(bits) + qs.map_values(|q: i8| unsigned(q))
}

/// `out` is what the half words of a block are quantized to, as bytes.
pub open spec fn is_block_written<T: Copy, A: Arith<T>>(
    ar: &A,
    source: Seq<u8>,
    out: Seq<u8>,
) -> bool {
    exists|block: BlockQ8_0<T>| #[trigger]
        is_block_of(ar, source, block) && is_block_bytes(ar, block, out)
}

/// `out` is what the half words of a matrix are quantized to; half words at the end that are no
/// whole block are passed over.
pub open spec fn is_matrix_written<T: Copy, A: Arith<T>>(
    ar: &A,
    source: Seq<u8>,
    out: Seq<u8>,
) -> bool {
    &&& out.len() == BLOCK_BYTES * (source.len() as int / BLOCK_SOURCE_BYTES as int)
    &&& forall|k: int|
        0 <= k < source.len() as int / BLOCK_SOURCE_BYTES as int ==> is_block_written(
            ar,
            source_block(source, k),
            #[trigger] written_block(out, k),
        )
}

/// The half words of block `k`.
pub open spec fn source_block(source: Seq<u8>, k: int) -> Seq<u8> {
    source.subrange(BLOCK_SOURCE_BYTES * k, BLOCK_SOURCE_BYTES * k + BLOCK_SOURCE_BYTES)
}

/// The bytes of block `k`.
pub open spec fn written_block(out: Seq<u8>, k: int) -> Seq<u8> {
    out.subrange(BLOCK_BYTES * k, BLOCK_BYTES * k + BLOCK_BYTES)
}

/// The numbers that half words stand for, as bytes.
pub open spec fn widened(source: Seq<u8>) -> Seq<u8>
    decreases source.len(),
{
    if source.len() < 2 {
        Seq::empty()
    } else {
        bytes32(bf16_bits(le16(source, 0) as u16)) + widened(source.skip(2))
    }
}

/// Quantizes the 32 half words of a block.
pub fn quantize_block<T: Copy, A: Arith<T>>(ar: &A, source: &[u8]) -> (r: BlockQ8_0<T>)
    requires
        source@.len() == BLOCK_SOURCE_BYTES,
    ensures
        is_block_of(ar, source@, r),
{
    let mut values: Vec<T> = Vec::new();
    let mut i: usize = 0;
    while i < BLOCK_WEIGHTS
        invariant
            i <= BLOCK_WEIGHTS,
            source@.len() == BLOCK_SOURCE_BYTES,
            values@.len() == i,
            are_halves(ar, source@, values@),
        decreases BLOCK_WEIGHTS - i,
    {
        values.push(bf16_u16_to_f32(ar, read_u16(source, 2 * i)));
        i += 1;
    }
    let mut peak = ar.from_bits(ZERO_BITS);
    let mut i: usize = 0;
    while i < BLOCK_WEIGHTS
        invariant
            i <= BLOCK_WEIGHTS,
            values@.len() == BLOCK_WEIGHTS,
            is_peak(ar, values@, i as int, peak),
        decreases BLOCK_WEIGHTS - i,
    {
        let ghost p = peak;
        let a = ar.abs(values[i]);
        let more = ar.lt(peak, a);
        if more {
            peak = a;
        }
        proof {
            let n = i + 1;
            assert(is_abs(ar, values@[n - 1], a));
            assert(says_lt(ar, p, a, more));
            assert(is_peak_step(ar, values@[n - 1], p, peak));
            assert(is_peak(ar, values@, n, peak));
        }
        i += 1;
    }
    let c = ar.from_bits(Q8_MAX_BITS);
    let d = ar.div(peak, c);
    assert(is_quotient(ar, peak, c, d));
    let z = ar.from_bits(ZERO_BITS);
    let flat = ar.eq(d, z);
    assert(says_eq(ar, d, z, flat));
    let inverse = if flat {
        ar.from_bits(ZERO_BITS)
    } else {
        let one = ar.from_bits(ONE_BITS);
        let inverse = ar.div(one, d);
        assert(is_quotient(ar, one, d, inverse));
        inverse
    };
    assert(is_inverse_scale(ar, d, inverse));
    let mut qs = [0i8;32];
    let mut i: usize = 0;
    while i < BLOCK_WEIGHTS
        invariant
            i <= BLOCK_WEIGHTS,
            values@.len() == BLOCK_WEIGHTS,
            forall|k: int| 0 <= k < i ==> is_quantized(ar, values@[k], inverse, #[trigger] qs@[k]),
        decreases BLOCK_WEIGHTS - i,
    {
        let p = ar.mul(values[i], inverse);
        let r = ar.round(p);
        let low = ar.from_bits(Q8_MIN_BITS);
        let high = ar.from_bits(Q8_MAX_BITS);
        let c = ar.clamp(r, low, high);
        let q = ar.to_i8(c);
        assert(quantizing_steps(ar, values@[i as int], inverse, p, r, low, high, c, q));
        qs[i] = q;
        i += 1;
    }
    let block = BlockQ8_0 { d, qs };
    assert(block_steps(ar, source@, values@, peak, inverse, block));
    block
}

fn push_block<T: Copy, A: Arith<T>>(ar: &A, block: &BlockQ8_0<T>, out: &mut Vec<u8>)
    ensures
        final(out)@.len() == old(out)@.len() + BLOCK_BYTES,
        final(out)@.take(old(out)@.len() as int) == old(out)@,
        is_block_bytes(ar, *block, final(out)@.skip(old(out)@.len() as int)),
{
    let ghost before = out@;
    let bits = ar.to_bits(block.d);
    push_u32(out, bits);
    let ghost head = out@;
    let ghost tail = block.qs@.map_values(|q: i8| unsigned(q));
    let mut j: usize = 0;
    while j < 32
        invariant
            j <= 32,
            tail == block.qs@.map_values(|q: i8| unsigned(q)),
            out@ == head + tail.take(j as int),
        decreases 32 - j,
    {
        push_i8(out, block.qs[j]);
        proof {
            assert(tail.take(j + 1) =~= tail.take(j as int).push(tail[j as int]));
        }
        j += 1;
    }
    proof {
        assert(out@.skip(before.len() as int) =~= block_bytes_of(bits, block.qs@));
        assert(out@.take(before.len() as int) =~= before);
        assert(bits_of(ar, block.d, bits));
    }
}

/// Quantizes the half words of a matrix.
pub fn quantize_matrix<T: Copy, A: Arith<T>>(ar: &A, source: &[u8]) -> (out: Vec<u8>)
    ensures
        is_matrix_written(ar, source@, out@),
{
    let n = source.len() / BLOCK_SOURCE_BYTES;
    let mut out: Vec<u8> = Vec::new();
    let mut k: usize = 0;
    while k < n
        invariant
            k <= n,
            n == source.len() / BLOCK_SOURCE_BYTES,
            out@.len() == BLOCK_BYTES * k,
            forall|i: int|
                0 <= i < k ==> is_block_written(
                    ar,
                    source_block(source@, i),
                    #[trigger] written_block(out@, i),
                ),
        decreases n - k,
    {
        let from = BLOCK_SOURCE_BYTES * k;
        let block = quantize_block(ar, slice_subrange(source, from, from + BLOCK_SOURCE_BYTES));
        let ghost before = out@;
        push_block(ar, &block, &mut out);
        proof {
            assert(is_block_of(ar, source_block(source@, k as int), block));
            assert(written_block(out@, k as int) =~= out@.skip(before.len() as int));
            assert forall|i: int| 0 <= i < k + 1 implies is_block_written(
                ar,
                source_block(source@, i),
                #[trigger] written_block(out@, i),
            ) by {
                if i < k {
                    assert(written_block(out@, i) =~= written_block(before, i)) by {
                        assert(out@.take(before.len() as int) =~= before);
                        assert forall|p: int| 0 <= p < before.len() implies out@[p] == before[p] by {
                            assert(out@.take(before.len() as int)[p] == out@[p]);
                        }
                    }
                }
            }
        }
        k += 1;
    }
    out
}

/// The numbers that half words stand for; a byte at the end that is no half word is passed over.
pub fn widen(source: &[u8]) -> (out: Vec<u8>)
    ensures
        out@ == widened(source@),
{
    let n = source.len() / 2;
    let mut out: Vec<u8> = Vec::new();
    let mut k: usize = 0;
    assert(source@.skip(0) =~= source@);
    while k < n
        invariant
            k <= n,
            n == source.len() / 2,
            out@ + widened(source@.skip(2 * k)) == widened(source@),
        decreases n - k,
    {
        let ghost rest = source@.skip(2 * k);
        let ghost before = out@;
        let word = read_u16(source, 2 * k);
        push_u32(&mut out, bf16_u16_to_f32_bits(word));
        proof {
            assert(le16(rest, 0) == word);
            assert(rest.skip(2) =~= source@.skip(2 * (k + 1)));
            assert(before + (bytes32(bf16_bits(word)) + widened(rest.skip(2))) =~= out@ + widened(
                rest.skip(2),
            ));
        }
        k += 1;
    }
    assert(out@ + widened(source@.skip(2 * n)) =~= out@);
    out
}

/// What a tensor is quantized to.
pub open spec fn is_tensor_written<T: Copy, A: Arith<T>>(
    ar: &A,
    rank: int,
    source: Seq<u8>,
    out: Seq<u8>,
) -> bool {
    if rank == 2 {
        is_matrix_written(ar, source, out)
    } else {
        out == widened(source)
    }
}

/// Quantizes a tensor, given by its number of dimensions and its half words.
pub fn quantize_tensor<T: Copy, A: Arith<T>>(ar: &A, rank: usize, source: &[u8]) -> (out: Vec<u8>)
    ensures
        is_tensor_written(ar, rank as int, source@, out@),
{
    if rank == 2 {
        quantize_matrix(ar, source)
    } else {
        widen(source)
    }
}

/// The bytes of a tensor lie within a file of `len` bytes.
pub open spec fn lies_within(info: TensorInfo, header_size: int, len: int) -> bool {
    &&& info.data_offsets@[0] <= info.data_offsets@[1]
    &&& PREFIX_BYTES + header_size + info.data_offsets@[1] <= len
}

/// The bytes of a tensor.
pub open spec fn source_of(info: TensorInfo, header_size: int, bytes: Seq<u8>) -> Seq<u8> {
    bytes.subrange(
        PREFIX_BYTES + header_size + info.data_offsets@[0],
        PREFIX_BYTES + header_size + info.data_offsets@[1],
    )
}

/// A tensor lies within a file, and `body` is what it is quantized to.
pub open spec fn is_body<T: Copy, A: Arith<T>>(
    ar: &A,
    bytes: Seq<u8>,
    header_size: int,
    info: TensorInfo,
    body: Seq<u8>,
) -> bool {
    &&& lies_within(info, header_size, bytes.len() as int)
    &&& is_tensor_written(
        ar,
        info.shape@.len() as int,
        source_of(info, header_size, bytes),
        body,
    )
}

/// `bodies` are what the tensors of a file are quantized to, in their order.
pub open spec fn are_bodies<T: Copy, A: Arith<T>>(
    ar: &A,
    bytes: Seq<u8>,
    header_size: int,
    infos: Seq<(String, TensorInfo)>,
    bodies: Seq<Vec<u8>>,
) -> bool {
    &&& bodies.len() == infos.len()
    &&& forall|i: int|
        0 <= i < bodies.len() ==> is_body(
            ar,
            bytes,
            header_size,
            infos[i].1,
            (#[trigger] bodies[i])@,
        )
}

/// Quantizes the tensors of a file, in their order. There is no answer exactly where one of them
/// does not lie within the file.
pub fn quantize_bodies<T: Copy, A: Arith<T>>(
    ar: &A,
    bytes: &[u8],
    header_size: usize,
    infos: &Vec<(String, TensorInfo)>,
) -> (r: Option<Vec<Vec<u8>>>)
    ensures
        match r {
            Some(bodies) => are_bodies(ar, bytes@, header_size as int, infos@, bodies@),
            None => exists|i: int|
                0 <= i < infos@.len() && !lies_within(
                    (#[trigger] infos@[i]).1,
                    header_size as int,
                    bytes@.len() as int,
                ),
        },
{
    let total = bytes.len();
    let mut bodies: Vec<Vec<u8>> = Vec::new();
    let mut i: usize = 0;
    while i < infos.len()
        invariant
            i <= infos@.len(),
            total == bytes@.len(),
            are_bodies(ar, bytes@, header_size as int, infos@.take(i as int), bodies@),
        decreases infos@.len() - i,
    {
        let info = &infos[i].1;
        let from = info.data_offsets[0];
        let to = info.data_offsets[1];
        if from > to || total < PREFIX_BYTES || header_size > total - PREFIX_BYTES || to > total
            - PREFIX_BYTES - header_size {
            assert(!lies_within(infos@[i as int].1, header_size as int, bytes@.len() as int));
            return None;
        }
        let start = PREFIX_BYTES + header_size;
        let source = slice_subrange(bytes, start + from, start + to);
        assert(source@ =~= source_of(infos@[i as int].1, header_size as int, bytes@));
        let body = quantize_tensor(ar, info.shape.len(), source);
        let ghost before = bodies@;
        bodies.push(body);
        proof {
            let known = infos@.take(i + 1);
            assert(is_body(ar, bytes@, header_size as int, infos@[i as int].1, body@));
            assert forall|k: int| 0 <= k < bodies@.len() implies is_body(
                ar,
                bytes@,
                header_size as int,
                known[k].1,
                (#[trigger] bodies@[k])@,
            ) by {
                if k < i {
                    assert(bodies@[k] == before[k]);
                    assert(infos@.take(i as int)[k] == known[k]);
                }
            }
        }
        i += 1;
    }
    assert(infos@.take(infos@.len() as int) =~= infos@);
    Some(bodies)
}

/// The bytes of each body.
pub open spec fn bytes_of(bodies: Seq<Vec<u8>>) -> Seq<Seq<u8>> {
    Seq::new(bodies.len(), |i: int| bodies[i]@)
}

/// A quantized file: the size of the header, the header, and the bodies one behind the other.
pub open spec fn file_of(header: Seq<u8>, bodies: Seq<Vec<u8>>) -> Seq<u8> {
    framed(header) + bytes_of(bodies).flatten()
}

/// Makes a quantized file of its header and the bodies of its tensors.
pub fn assemble(header: &[u8], bodies: &Vec<Vec<u8>>) -> (out: Vec<u8>)
    ensures
        out@ == file_of(header@, bodies@),
{
    let mut out = frame(header);
    let ghost all = bytes_of(bodies@);
    let mut i: usize = 0;
    proof {
        assert(all.take(0).flatten() =~= Seq::<u8>::empty());
        assert(framed(header@) + all.take(0).flatten() =~= framed(header@));
    }
    while i < bodies.len()
        invariant
            i <= bodies@.len(),
            all == bytes_of(bodies@),
            out@ == framed(header@) + all.take(i as int).flatten(),
        decreases bodies@.len() - i,
    {
        let ghost before = all.take(i as int);
        out.extend_from_slice(bodies[i].as_slice());
        proof {
            let next = all.take(i + 1);
            lemma_flatten_splits(next, i as int);
            assert(next.take(i as int) =~= before);
            assert(next.skip(i as int) =~= seq![bodies@[i as int]@]);
            next.skip(i as int).lemma_flatten_one_element();
            assert(out@ =~= framed(header@) + next.flatten());
        }
        i += 1;
    }
    assert(all.take(all.len() as int) =~= all);
    out
}

/// The start of a file: the size of the header, and the header.
pub fn frame(header: &[u8]) -> (out: Vec<u8>)
    ensures
        out@ == framed(header@),
{
    assert(header.len() == header@.len());
    let mut out: Vec<u8> = Vec::new();
    push_u64(&mut out, header.len() as u64);
    out.extend_from_slice(header);
    assert(out@ =~= framed(header@));
    out
}

/// The size of a header, and the header.
pub open spec fn framed(header: Seq<u8>) -> Seq<u8> {
    bytes64(header.len() as u64) + header
}

// ---- What a reader finds ----

/// A reader finds the scale's bits and the weights of a block in its bytes.
pub proof fn law_block_reads_back(bits: u32, qs: Seq<i8>)
    requires
        qs.len() == BLOCK_WEIGHTS,
    ensures
        block_bytes_of(bits, qs).len() == BLOCK_BYTES,
        le32(block_bytes_of(bits, qs), 0) == bits,
        forall|j: int|
            0 <= j < BLOCK_WEIGHTS ==> signed(#[trigger] block_bytes_of(bits, qs)[4 + j]) == qs[j],
{
    let bytes = block_bytes_of(bits, qs);
    law_u32_reads_back(bits);
    assert(le32(bytes, 0) == le32(bytes32(bits), 0));
    assert forall|j: int| 0 <= j < BLOCK_WEIGHTS implies signed(#[trigger] bytes[4 + j]) == qs[j] by {
        assert(bytes[4 + j] == unsigned(qs[j]));
        law_i8_reads_back(qs[j]);
    }
}

proof fn lemma_widened_len(source: Seq<u8>)
    ensures
        widened(source).len() == 4 * (source.len() as int / 2),
    decreases source.len(),
{
    if source.len() >= 2 {
        lemma_widened_len(source.skip(2));
    }
}

/// A reader finds the number that a half word stands for where the number was written.
pub proof fn law_number_reads_back(source: Seq<u8>, i: int)
    requires
        0 <= i < source.len() as int / 2,
    ensures
        widened(source).len() == 4 * (source.len() as int / 2),
        le32(widened(source), 4 * i) == bf16_bits(le16(source, 2 * i) as u16),
    decreases source.len(),
{
    lemma_widened_len(source);
    let word = le16(source, 0) as u16;
    let head = bytes32(bf16_bits(word));
    let rest = source.skip(2);
    law_u32_reads_back(bf16_bits(word));
    lemma_widened_len(rest);
    let all = widened(source);
    assert(all == head + widened(rest));
    if i == 0 {
        assert(le32(all, 0) == le32(head, 0));
    } else {
        law_number_reads_back(rest, i - 1);
        assert(le16(rest, 2 * (i - 1)) == le16(source, 2 * i));
        let at = 4 * (i - 1);
        assert(all[at + 4] == widened(rest)[at] && all[at + 5] == widened(rest)[at + 1] && all[at
            + 6] == widened(rest)[at + 2] && all[at + 7] == widened(rest)[at + 3]);
    }
}

/// A tensor takes as many bytes as were planned for it.
pub proof fn law_planned_size_is_written<T: Copy, A: Arith<T>>(
    ar: &A,
    shape: Seq<usize>,
    source: Seq<u8>,
    out: Seq<u8>,
)
    requires
        source.len() == 2 * product(shape),
        !is_ragged(shape),
        is_tensor_written(ar, shape.len() as int, source, out),
    ensures
        out.len() == quantized_size(shape),
{
    lemma_widened_len(source);
}

/// A reader finds the header where it was written, whatever stands behind it.
pub proof fn law_header_reads_back(header: Seq<u8>, body: Seq<u8>)
    requires
        header.len() <= u64::MAX,
    ensures
        has_header(framed(header) + body),
        header_len(framed(header) + body) == header.len(),
        (framed(header) + body).subrange(PREFIX_BYTES as int, PREFIX_BYTES + header.len())
            == header,
{
    let size = bytes64(header.len() as u64);
    let file = framed(header) + body;
    law_u64_reads_back(header.len() as u64);
    assert(forall|i: int| 0 <= i < 8 ==> file[i] == size[i]);
    assert(le64(file, 0) == le64(size, 0));
    assert(file.subrange(PREFIX_BYTES as int, PREFIX_BYTES + header.len()) =~= header);
}

proof fn lemma_body_start(
    infos: Seq<(String, TensorInfo)>,
    bodies: Seq<Seq<u8>>,
    n: int,
)
    requires
        bodies.len() == infos.len(),
        forall|k: int|
            0 <= k < bodies.len() ==> (#[trigger] bodies[k]).len() == quantized_size(
                infos[k].1.shape@,
            ),
        0 <= n < bodies.len(),
    ensures
        0 <= start_of(infos, n) <= start_of(infos, n + 1) <= bodies.flatten().len(),
        bodies.flatten().subrange(start_of(infos, n), start_of(infos, n + 1)) == bodies[n],
{
    let all = bodies.flatten();
    lemma_flatten_splits(bodies, n);
    lemma_taken_len(infos, bodies, n);
    let rest = bodies.skip(n);
    assert(rest.flatten() == rest.first() + rest.drop_first().flatten());
    assert(rest.first() == bodies[n]);
    assert(start_of(infos, n + 1) == start_of(infos, n) + bodies[n].len());
    assert(all.subrange(start_of(infos, n), start_of(infos, n + 1)) =~= bodies[n]);
}

proof fn lemma_flatten_splits(bodies: Seq<Seq<u8>>, n: int)
    requires
        0 <= n <= bodies.len(),
    ensures
        bodies.flatten() == bodies.take(n).flatten() + bodies.skip(n).flatten(),
    decreases n,
{
    if n == 0 {
        assert(bodies.skip(0) =~= bodies);
        assert(bodies.take(0).flatten() =~= Seq::<u8>::empty());
        assert(bodies.flatten() =~= bodies.take(n).flatten() + bodies.skip(n).flatten());
    } else {
        let rest = bodies.drop_first();
        lemma_flatten_splits(rest, n - 1);
        assert(bodies.take(n).drop_first() =~= rest.take(n - 1));
        assert(bodies.skip(n) =~= rest.skip(n - 1));
        assert(bodies.flatten() =~= bodies.take(n).flatten() + bodies.skip(n).flatten());
    }
}

proof fn lemma_taken_len(infos: Seq<(String, TensorInfo)>, bodies: Seq<Seq<u8>>, n: int)
    requires
        bodies.len() == infos.len(),
        forall|k: int|
            0 <= k < bodies.len() ==> (#[trigger] bodies[k]).len() == quantized_size(
                infos[k].1.shape@,
            ),
        0 <= n <= bodies.len(),
    ensures
        bodies.take(n).flatten().len() == start_of(infos, n),
    decreases n,
{
    if n == 0 {
        assert(bodies.take(0).flatten() =~= Seq::<u8>::empty());
    } else {
        lemma_taken_len(infos, bodies, n - 1);
        lemma_flatten_splits(bodies.take(n), n - 1);
        assert(bodies.take(n).take(n - 1) =~= bodies.take(n - 1));
        let last = bodies.take(n).skip(n - 1);
        assert(last =~= seq![bodies[n - 1]]);
        last.lemma_flatten_one_element();
    }
}

/// In a file made of a header and of the tensors' bytes in the order of the plan, a reader finds
/// the bytes of each tensor where the plan says.
pub proof fn law_tensor_found_where_planned(
    infos: Seq<(String, TensorInfo)>,
    plan: Seq<(String, TensorInfo)>,
    header: Seq<u8>,
    bodies: Seq<Seq<u8>>,
    i: int,
)
    requires
        is_plan(infos, plan),
        bodies.len() == infos.len(),
        forall|k: int|
            0 <= k < bodies.len() ==> (#[trigger] bodies[k]).len() == quantized_size(
                infos[k].1.shape@,
            ),
        0 <= i < plan.len(),
    ensures
        ({
            let start = PREFIX_BYTES + header.len();
            (framed(header) + bodies.flatten()).subrange(
                start + plan[i].1.data_offsets@[0],
                start + plan[i].1.data_offsets@[1],
            ) == bodies[i]
        }),
{
    lemma_body_start(infos, bodies, i);
    let start = PREFIX_BYTES + header.len();
    let file = framed(header) + bodies.flatten();
    let from = plan[i].1.data_offsets@[0] as int;
    let to = plan[i].1.data_offsets@[1] as int;
    assert(file.subrange(start + from, start + to) =~= bodies.flatten().subrange(from, to));
}

/// In the quantized file of a file, a reader finds what each tensor was quantized to where the plan
/// says, if each tensor has as many half words as elements.
pub proof fn law_file_holds_each_tensor<T: Copy, A: Arith<T>>(
    ar: &A,
    bytes: Seq<u8>,
    header_size: int,
    infos: Seq<(String, TensorInfo)>,
    plan: Seq<(String, TensorInfo)>,
    header: Seq<u8>,
    bodies: Seq<Vec<u8>>,
    i: int,
)
    requires
        places(infos, infos.len() as int) is Ok,
        is_plan(infos, plan),
        are_bodies(ar, bytes, header_size, infos, bodies),
        forall|k: int|
            0 <= k < infos.len() ==> source_of((#[trigger] infos[k]).1, header_size, bytes).len()
                == 2 * product(infos[k].1.shape@),
        header.len() <= u64::MAX,
        0 <= i < infos.len(),
    ensures
        ({
            let file = file_of(header, bodies);
            let start = PREFIX_BYTES + header.len();
            &&& has_header(file)
            &&& header_of(file) == header
            &&& start + plan[i].1.data_offsets@[1] <= file.len()
            &&& is_tensor_written(
                ar,
                infos[i].1.shape@.len() as int,
                source_of(infos[i].1, header_size, bytes),
                file.subrange(
                    start + plan[i].1.data_offsets@[0],
                    start + plan[i].1.data_offsets@[1],
                ),
            )
        }),
{
    let all = bytes_of(bodies);
    let file = file_of(header, bodies);
    let start = PREFIX_BYTES + header.len();
    let from = plan[i].1.data_offsets@[0] as int;
    let to = plan[i].1.data_offsets@[1] as int;
    lemma_bodies_sizes(ar, bytes, header_size, infos, bodies);
    assert(file.subrange(start + from, start + to) == bodies[i]@) by {
        law_tensor_found_where_planned(infos, plan, header, all, i);
    }
    assert(to <= all.flatten().len()) by {
        lemma_body_start(infos, all, i);
        assert(plan[i].0@ == infos[i].0@);
    }
    assert(has_header(file) && header_of(file) == header) by {
        law_header_reads_back(header, all.flatten());
    }
    assert(is_body(ar, bytes, header_size, infos[i].1, bodies[i]@));
    assert(framed(header).len() == start);
}

/// The plan for a file names its tensors in the order of their names, each with its dimensions;
/// by that order they lie one behind the other from the start on, and the last one ends where the
/// bytes end that are written for them, if each tensor has as many half words as elements.
pub proof fn law_layout_follows_names<T: Copy, A: Arith<T>>(
    ar: &A,
    bytes: Seq<u8>,
    infos: Vec<(String, TensorInfo)>,
    plan: Seq<(String, TensorInfo)>,
    bodies: Seq<Vec<u8>>,
)
    requires
        has_header(bytes),
        are_header_tensors(bytes, Ok::<Vec<(String, TensorInfo)>, String>(infos)),
        places(infos@, infos@.len() as int) is Ok,
        is_plan(infos@, plan),
        are_bodies(ar, bytes, header_len(bytes), infos@, bodies),
        forall|k: int|
            0 <= k < infos@.len() ==> source_of(
                (#[trigger] infos@[k]).1,
                header_len(bytes),
                bytes,
            ).len() == 2 * product(infos@[k].1.shape@),
    ensures
        header_json(bytes) matches Some(Json::Object(all)) && {
            let tensors = tensor_members(all);
            &&& plan.len() == tensors.len()
            &&& forall|i: int|
                0 <= i < plan.len() ==> {
                    &&& (#[trigger] plan[i]).0@ == tensors[i].0
                    &&& info_of(tensors[i].1) matches Some(entry) && plan[i].1.shape@
                        == entry.shape
                    &&& plan[i].1.dtype@ == quantized_dtype(plan[i].1.shape@)
                    &&& plan[i].1.data_offsets@[1] - plan[i].1.data_offsets@[0]
                        == quantized_size(plan[i].1.shape@)
                }
        },
        names_rise(plan),
        plan.len() > 0 ==> plan[0].1.data_offsets@[0] == 0,
        forall|i: int|
            0 < i < plan.len() ==> (#[trigger] plan[i]).1.data_offsets@[0] == plan[i
                - 1].1.data_offsets@[1],
        plan.len() > 0 ==> plan.last().1.data_offsets@[1] == bytes_of(bodies).flatten().len(),
{
    let n = infos@.len() as int;
    let all = bytes_of(bodies);
    assert forall|i: int, j: int| 0 <= i < j < plan.len() implies name_before(
        (#[trigger] plan[i]).0@,
        (#[trigger] plan[j]).0@,
    ) by {
        assert(name_before(infos@[i].0@, infos@[j].0@));
    }
    assert forall|i: int| 0 <= i < plan.len() implies {
        &&& (#[trigger] plan[i]).0@ == infos@[i].0@
        &&& plan[i].1.shape@ == infos@[i].1.shape@
        &&& plan[i].1.data_offsets@[1] - plan[i].1.data_offsets@[0] == quantized_size(
            infos@[i].1.shape@,
        )
    } by {
        law_plan_is_contiguous(infos@, plan, i);
    }
    assert forall|i: int| 0 < i < plan.len() implies (#[trigger] plan[i]).1.data_offsets@[0]
        == plan[i - 1].1.data_offsets@[1] by {
        law_plan_is_contiguous(infos@, plan, i);
    }
    if n > 0 {
        law_plan_is_contiguous(infos@, plan, 0);
        lemma_bodies_sizes(ar, bytes, header_len(bytes), infos@, bodies);
        lemma_taken_len(infos@, all, n);
        assert(all.take(n) =~= all);
        assert(plan[n - 1].1.data_offsets@[1] == start_of(infos@, n));
    }
}

proof fn lemma_bodies_sizes<T: Copy, A: Arith<T>>(
    ar: &A,
    bytes: Seq<u8>,
    header_size: int,
    infos: Seq<(String, TensorInfo)>,
    bodies: Seq<Vec<u8>>,
)
    requires
        places(infos, infos.len() as int) is Ok,
        are_bodies(ar, bytes, header_size, infos, bodies),
        forall|k: int|
            0 <= k < infos.len() ==> source_of((#[trigger] infos[k]).1, header_size, bytes).len()
                == 2 * product(infos[k].1.shape@),
    ensures
        forall|k: int|
            0 <= k < infos.len() ==> (#[trigger] bytes_of(bodies)[k]).len() == quantized_size(
                infos[k].1.shape@,
            ),
{
    assert forall|k: int| 0 <= k < infos.len() implies (#[trigger] bytes_of(bodies)[k]).len()
        == quantized_size(infos[k].1.shape@) by {
        lemma_places_each(infos, infos.len() as int, k);
        let info = infos[k].1;
        let source = source_of(info, header_size, bytes);
        assert(is_body(ar, bytes, header_size, info, bodies[k]@));
        law_planned_size_is_written(ar, info.shape@, source, bodies[k]@);
    }
}

proof fn lemma_places_each(infos: Seq<(String, TensorInfo)>, n: int, k: int)
    requires
        places(infos, n) is Ok,
        0 <= k < n,
    ensures
        !is_ragged(infos[k].1.shape@),
    decreases n,
{
    if k < n - 1 {
        lemma_places_each(infos, n - 1, k);
    }
}

/// `read` is the block `written`, up to what the scale's bits stand for.
pub open spec fn is_same_block<T: Copy, A: Arith<T>>(
    ar: &A,
    written: BlockQ8_0<T>,
    read: BlockQ8_0<T>,
) -> bool {
    &&& read.qs@ == written.qs@
    &&& exists|bits: u32| #[trigger]
        bits_of(ar, written.d, bits) && of_bits(ar, bits, read.d)
}

/// From the bytes of a quantized matrix a reader gets, block by block, what its half words were
/// quantized to.
pub proof fn law_matrix_reads_back<T: Copy, A: Arith<T>>(
    ar: &A,
    source: Seq<u8>,
    out: Seq<u8>,
    blocks: Seq<BlockQ8_0<T>>,
    k: int,
)
    requires
        is_matrix_written(ar, source, out),
        holds_blocks(ar, out, blocks),
        0 <= k < blocks.len(),
    ensures
        blocks.len() == source.len() as int / BLOCK_SOURCE_BYTES as int,
        exists|block: BlockQ8_0<T>| #[trigger]
            is_block_of(ar, source_block(source, k), block) && is_same_block(
                ar,
                block,
                blocks[k],
            ),
{
    let bytes = written_block(out, k);
    assert(is_block_written(ar, source_block(source, k), bytes));
    let block = choose|block: BlockQ8_0<T>| #[trigger]
        is_block_of(ar, source_block(source, k), block) && is_block_bytes(ar, block, bytes);
    let bits = choose|bits: u32| #[trigger]
        bits_of(ar, block.d, bits) && bytes == block_bytes_of(bits, block.qs@);
    law_block_reads_back(bits, block.qs@);
    let at = BLOCK_BYTES * k;
    assert(holds_block(ar, out, at, blocks[k]));
    assert(forall|j: int| 0 <= j < BLOCK_BYTES ==> bytes[j] == #[trigger] out[at + j]);
    assert(out[at] == bytes[0] && out[at + 1] == bytes[1] && out[at + 2] == bytes[2] && out[at + 3]
        == bytes[3]);
    assert forall|j: int| 0 <= j < BLOCK_WEIGHTS implies #[trigger] blocks[k].qs@[j]
        == block.qs@[j] by {
        assert(bytes[4 + j] == out[at + 4 + j]);
    }
    assert(blocks[k].qs@ =~= block.qs@);
    assert(is_same_block(ar, block, blocks[k]));
}

} // verus!
