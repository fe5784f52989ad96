//! Reading a byte buffer from front to back.
use crate::error::{DecodeError, ErrorModel};
use crate::numbers::{le_nat, le_uint};
use vstd::prelude::*;

verus! {

/// What a step of decoding comes to: its result, and how many bytes it has used
/// up, whether it succeeded or not.
pub struct Outcome<T> {
    pub result: Result<T, ErrorModel>,
    pub used: nat,
}

/// Reading `n` bytes of `data` from `pos` on: all of them or none.
pub open spec fn read(data: Seq<u8>, pos: nat, n: nat) -> Outcome<Seq<u8>> {
    if pos + n > usize::MAX {
        Outcome { result: Err(ErrorModel::LengthOverflow), used: 0 }
    } else if pos + n > data.len() {
        Outcome {
            result: Err(ErrorModel::UnexpectedEnd { need: n, offset: pos, have: data.len() }),
            used: 0,
        }
    } else {
        Outcome { result: Ok(data.subrange(pos as int, (pos + n) as int)), used: n }
    }
}

/// Reading a length: an unsigned little-endian number of four bytes.
pub open spec fn read_len(data: Seq<u8>, pos: nat) -> Outcome<nat> {
    let head = read(data, pos, 4);
    Outcome {
        result: match head.result {
            Ok(bytes) => Ok(le_nat(bytes)),
            Err(e) => Err(e),
        },
        used: head.used,
    }
}

/// A forward-only cursor over a byte buffer.
pub struct Cursor<'a> {
    pub data: &'a [u8],
    pub pos: usize,
}

impl<'a> Cursor<'a> {
    /// The same buffer, `n` bytes further on.
    pub open spec fn is_after(self, before: Cursor<'a>, n: nat) -> bool {
        &&& self.data@ == before.data@
        &&& self.pos == before.pos + n
    }

    /// A cursor at the start of `data`.
    pub fn new(data: &'a [u8]) -> (r: Cursor<'a>)
        ensures
            r.data@ == data@,
            r.pos == 0,
    {
        Cursor { data, pos: 0 }
    }

    /// Takes the next `n` bytes, or fails and stays where it is.
    pub fn take(&mut self, n: usize) -> (r: Result<&'a [u8], DecodeError>)
        ensures
            ({
                let o = read(old(self).data@, old(self).pos as nat, n as nat);
                &&& final(self).is_after(*old(self), o.used)
                &&& match r {
                    Ok(bytes) => o.result == Ok::<Seq<u8>, ErrorModel>(bytes@),
                    Err(e) => o.result == Err::<Seq<u8>, ErrorModel>(e@),
                }
            }),
            final(self).data@ == old(self).data@,
            r is Ok <==> old(self).pos + n <= old(self).data@.len(),
            match r {
                Ok(bytes) => {
                    &&& bytes@ == old(self).data@.subrange(
                        old(self).pos as int,
                        old(self).pos + n,
                    )
                    &&& final(self).pos == old(self).pos + n
                },
                Err(e) => {
                    &&& final(self).pos == old(self).pos
                    &&& e == (if old(self).pos + n > usize::MAX {
                        DecodeError::LengthOverflow
                    } else {
                        DecodeError::UnexpectedEnd {
                            need: n,
                            offset: old(self).pos,
                            have: old(self).data@.len() as usize,
                        }
                    })
                },
            },
    {
        let data = self.data;
        let have = data.len();
        let end = match self.pos.checked_add(n) {
            Some(end) => end,
            None => return Err(DecodeError::LengthOverflow),
        };
        if end > have {
            return Err(DecodeError::UnexpectedEnd { need: n, offset: self.pos, have });
        }
        let bytes = vstd::slice::slice_subrange(data, self.pos, end);
        self.pos = end;
        Ok(bytes)
    }

    /// Takes the next `N` bytes as an array, or fails and stays where it is.
    pub fn take_array<const N: usize>(&mut self) -> (r: Result<[u8; N], DecodeError>)
        ensures
            ({
                let o = read(old(self).data@, old(self).pos as nat, N as nat);
                &&& final(self).is_after(*old(self), o.used)
                &&& match r {
                    Ok(bytes) => o.result == Ok::<Seq<u8>, ErrorModel>(bytes@),
                    Err(e) => o.result == Err::<Seq<u8>, ErrorModel>(e@),
                }
            }),
            final(self).data@ == old(self).data@,
            r is Ok <==> old(self).pos + N <= old(self).data@.len(),
            r is Ok ==> {
                &&& r->Ok_0@ == old(self).data@.subrange(old(self).pos as int, old(self).pos + N)
                &&& final(self).pos == old(self).pos + N
            },
            r is Err ==> final(self).pos == old(self).pos,
    {
        let bytes = match self.take(N) {
            Ok(bytes) => bytes,
            Err(e) => return Err(e),
        };
        let mut arr = [0u8;N];
        let mut i: usize = 0;
        while i < N
            invariant
                i <= N,
                bytes@.len() == N,
                forall|k: int| 0 <= k < i ==> arr@[k] == bytes@[k],
            decreases N - i,
        {
            arr[i] = bytes[i];
            i = i + 1;
        }
        assert(arr@ =~= bytes@);
        Ok(arr)
    }
}

/// Four bytes as a number, lowest first.
pub proof fn lemma_four_bytes(bytes: Seq<u8>)
    requires
        bytes.len() == 4,
    ensures
        le_nat(bytes) == bytes[0] + 256 * bytes[1] + 65536 * bytes[2] + 16777216 * bytes[3],
{
    let (x, y, z) = (bytes.skip(1), bytes.skip(2), bytes.skip(3));
    assert(bytes.drop_first() =~= x);
    assert(x.drop_first() =~= y);
    assert(y.drop_first() =~= z);
    assert(z.drop_first() =~= Seq::empty());
    reveal_with_fuel(le_nat, 5);
}

/// Reads a length of four bytes.
pub fn read_u32_len(cur: &mut Cursor) -> (r: Result<usize, DecodeError>)
    ensures
        ({
            let o = read_len(old(cur).data@, old(cur).pos as nat);
            &&& final(cur).is_after(*old(cur), o.used)
            &&& match r {
                Ok(n) => o.result == Ok::<nat, ErrorModel>(n as nat),
                Err(e) => o.result == Err::<nat, ErrorModel>(e@),
            }
        }),
        r is Ok <==> old(cur).pos + 4 <= old(cur).data@.len(),
        r is Ok ==> {
            let at = old(cur).pos as int;
            let data = old(cur).data@;
            &&& r->Ok_0 == data[at] + 256 * data[at + 1] + 65536 * data[at + 2] + 16777216 * data[at
                + 3]
            &&& final(cur).pos == at + 4
        },
        r is Err ==> final(cur).pos == old(cur).pos,
{
    match cur.take_array::<4>() {
        Ok(bytes) => {
            let n = le_uint(bytes.as_slice());
            proof {
                crate::numbers::lemma_le_nat_bound(bytes@);
                reveal_with_fuel(crate::numbers::pow256, 5);
                lemma_four_bytes(bytes@);
            }
            Ok(n as usize)
        },
        Err(e) => Err(e),
    }
}

/// Bytes can be read exactly when the buffer holds them all; they are then the
/// next ones and are used up. Otherwise the error tells how many were wanted,
/// from where, and how many the buffer has, and nothing is used up.
pub proof fn lemma_read(data: Seq<u8>, pos: nat, n: nat)
    requires
        data.len() <= usize::MAX,
    ensures
        ({
            let o = read(data, pos, n);
            if pos + n <= data.len() {
                &&& o.used == n
                &&& o.result == Ok::<Seq<u8>, ErrorModel>(
                    data.subrange(pos as int, (pos + n) as int),
                )
            } else {
                &&& o.used == 0
                &&& o.result == Err::<Seq<u8>, ErrorModel>(
                    if pos + n > usize::MAX {
                        ErrorModel::LengthOverflow
                    } else {
                        ErrorModel::UnexpectedEnd { need: n, offset: pos, have: data.len() }
                    },
                )
            }
        }),
{
}

/// A length is the number that the next four bytes are, lowest first.
pub proof fn lemma_read_len(data: Seq<u8>, pos: nat)
    requires
        data.len() <= usize::MAX,
    ensures
        ({
            let o = read_len(data, pos);
            let at = pos as int;
            if pos + 4 <= data.len() {
                &&& o.used == 4
                &&& o.result is Ok
                &&& o.result->Ok_0 == data[at] + 256 * data[at + 1] + 65536 * data[at + 2]
                    + 16777216 * data[at + 3]
            } else {
                &&& o.used == 0
                &&& o.result is Err
                &&& o.result->Err_0 == read(data, pos, 4).result->Err_0
            }
        }),
{
    if pos + 4 <= data.len() {
        lemma_four_bytes(data.subrange(pos as int, (pos + 4) as int));
    }
}

} // verus!
