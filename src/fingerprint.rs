//! The content hash of a grid: the lowercase hex SHA-256 digest of its row
//! category names joined by `|`, followed by its column names joined by `|`.

use vstd::prelude::*;
use vstd::utf8::encode_utf8;

verus! {

/// Byte that separates category names in the hashed message.
pub const NAME_SEPARATOR: u8 = 0x7c;

/// The SHA-256 digest of a byte sequence.
pub uninterp spec fn sha256_of(data: Seq<u8>) -> Seq<u8>;

/// Lowercase hex digit of a value below 16.
pub open spec fn hex_digit(v: u8) -> char {
    seq!['0', '1', '2', '3', '4', '5', '6', '7', '8', '9', 'a', 'b', 'c', 'd', 'e', 'f'][v as int]
}

/// Two lowercase hex digits per byte, high nibble first.
pub open spec fn hex_of(b: Seq<u8>) -> Seq<char>
    decreases b.len(),
{
    if b.len() == 0 {
        Seq::empty()
    } else {
        hex_of(b.drop_last()) + seq![hex_digit(b.last() / 16), hex_digit(b.last() % 16)]
    }
}

/// The names' UTF-8 bytes joined by the separator.
pub open spec fn joined(names: Seq<Seq<char>>) -> Seq<u8>
    decreases names.len(),
{
    if names.len() == 0 {
        Seq::empty()
    } else if names.len() == 1 {
        encode_utf8(names[0])
    } else {
        joined(names.drop_last()).push(NAME_SEPARATOR) + encode_utf8(names.last())
    }
}

/// The names of the selected categories.
pub open spec fn names_of(names: Seq<String>, sel: Seq<usize>) -> Seq<Seq<char>> {
    Seq::new(sel.len(), |t: int| names[sel[t] as int]@)
}

/// The message whose digest identifies a grid.
pub open spec fn grid_message(names: Seq<String>, rows: Seq<usize>, cols: Seq<usize>) -> Seq<u8> {
    joined(names_of(names, rows)) + joined(names_of(names, cols))
}

/// Relies on sha2's `Sha256::digest`: the SHA-256 digest of the bytes, which
/// is 32 bytes long.
#[verifier::external_body]
fn sha256(data: &Vec<u8>) -> (r: Vec<u8>)
    ensures
        r@ == sha256_of(data@),
        r@.len() == 32,
{
    <sha2::Sha256 as sha2::Digest>::digest(data.as_slice()).to_vec()
}

/// Relies on `hex::encode`: two lowercase hex digits per byte, high nibble
/// first.
#[verifier::external_body]
fn hex_encode(data: &Vec<u8>) -> (r: String)
    ensures
        r@ == hex_of(data@),
{
    hex::encode(data.as_slice())
}

fn append_bytes(out: &mut Vec<u8>, s: &String)
    ensures
        final(out)@ == old(out)@ + encode_utf8(s@),
{
    let bytes = s.as_str().as_bytes();
    let ghost start = old(out)@;
    let mut t: usize = 0;
    while t < bytes.len()
        invariant
            bytes@ == encode_utf8(s@),
            t <= bytes@.len(),
            out@ == start + bytes@.subrange(0, t as int),
        decreases bytes@.len() - t,
    {
        out.push(bytes[t]);
        proof {
            assert(bytes@.subrange(0, t as int + 1) =~= bytes@.subrange(0, t as int).push(bytes@[t as int]));
        }
        t = t + 1;
    }
    assert(bytes@.subrange(0, bytes@.len() as int) =~= bytes@);
}

/// Appends the names of `sel` joined by the separator.
fn append_joined(out: &mut Vec<u8>, names: &Vec<String>, sel: &[usize; 4])
    requires
        forall|t: int| 0 <= t < 4 ==> #[trigger] sel@[t] < names@.len(),
    ensures
        final(out)@ == old(out)@ + joined(names_of(names@, sel@)),
{
    let ghost start = old(out)@;
    let mut t: usize = 0;
    while t < 4
        invariant
            forall|x: int| 0 <= x < 4 ==> #[trigger] sel@[x] < names@.len(),
            t <= 4,
            out@ == start + joined(names_of(names@, sel@).subrange(0, t as int)),
        decreases 4 - t,
    {
        let ghost prev = out@;
        if t > 0 {
            out.push(NAME_SEPARATOR);
        }
        append_bytes(out, &names[sel[t]]);
        proof {
            let all = names_of(names@, sel@);
            let pre = all.subrange(0, t as int);
            let post = all.subrange(0, t as int + 1);
            assert(post.drop_last() =~= pre);
            assert(post.last() == names@[sel@[t as int] as int]@);
            if t == 0 {
                assert(pre =~= Seq::<Seq<char>>::empty());
                assert(joined(pre) =~= Seq::<u8>::empty());
                assert(out@ =~= start + joined(post));
            } else {
                assert(out@ =~= start + joined(post));
            }
        }
        t = t + 1;
    }
    assert(names_of(names@, sel@).subrange(0, 4) =~= names_of(names@, sel@));
}

/// The message whose digest identifies a grid, or `None` where an index has
/// no name.
pub fn hash_message(names: &Vec<String>, rows: &[usize; 4], cols: &[usize; 4]) -> (r: Option<Vec<u8>>)
    ensures
        r is Some <==> (forall|t: int| 0 <= t < 4 ==> #[trigger] rows@[t] < names@.len())
            && (forall|t: int| 0 <= t < 4 ==> #[trigger] cols@[t] < names@.len()),
        r is Some ==> r->0@ == grid_message(names@, rows@, cols@),
{
    let mut t: usize = 0;
    while t < 4
        invariant
            t <= 4,
            forall|x: int| 0 <= x < t ==> #[trigger] rows@[x] < names@.len(),
            forall|x: int| 0 <= x < t ==> #[trigger] cols@[x] < names@.len(),
        decreases 4 - t,
    {
        if rows[t] >= names.len() || cols[t] >= names.len() {
            return None;
        }
        t = t + 1;
    }
    let mut out: Vec<u8> = Vec::new();
    append_joined(&mut out, names, rows);
    append_joined(&mut out, names, cols);
    assert(out@ =~= grid_message(names@, rows@, cols@));
    Some(out)
}

/// Lowercase hex of the digest of a grid's message, or `None` where an
/// index has no name.
pub fn puzzle_hash(names: &Vec<String>, rows: &[usize; 4], cols: &[usize; 4]) -> (r: Option<String>)
    ensures
        r is Some <==> (forall|t: int| 0 <= t < 4 ==> #[trigger] rows@[t] < names@.len())
            && (forall|t: int| 0 <= t < 4 ==> #[trigger] cols@[t] < names@.len()),
        r is Some ==> r->0@ == hex_of(sha256_of(grid_message(names@, rows@, cols@))),
{
    match hash_message(names, rows, cols) {
        Some(msg) => {
            let digest = sha256(&msg);
            Some(hex_encode(&digest))
        },
        None => None,
    }
}

} // verus!
