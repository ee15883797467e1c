//! Requests of the wire protocol: an argument count, then each argument as
//! its byte length followed by its UTF-8 bytes, all counts little-endian
//! `u32`s.
use vstd::bytes::{spec_u32_from_le_bytes, spec_u32_to_le_bytes, u32_to_le_bytes};
use vstd::prelude::*;

verus! {

/// The UTF-8 bytes of a string.
pub open spec fn utf8(s: Seq<char>) -> Seq<u8> {
    vstd::utf8::encode_utf8(s)
}

/// Every argument, each prefixed by its length, in order.
pub open spec fn encode_args(args: Seq<Seq<char>>) -> Seq<u8>
    decreases args.len(),
{
    if args.len() == 0 {
        Seq::empty()
    } else {
        encode_args(args.drop_last()) + spec_u32_to_le_bytes(utf8(args.last()).len() as u32) + utf8(
            args.last(),
        )
    }
}

/// The bytes of a request with the given arguments.
pub open spec fn encode_request(args: Seq<Seq<char>>) -> Seq<u8> {
    spec_u32_to_le_bytes(args.len() as u32) + encode_args(args)
}

/// Whether every count of a request fits the `u32` the protocol gives it.
pub open spec fn encodable(args: Seq<Seq<char>>) -> bool {
    &&& args.len() <= u32::MAX
    &&& forall|i: int| 0 <= i < args.len() ==> #[trigger] utf8(args[i]).len() <= u32::MAX
}

/// Where the length prefix of argument `k` starts in a request: after the
/// count, and after each earlier argument's prefix and bytes.
pub open spec fn arg_offset(args: Seq<Seq<char>>, k: int) -> int
    decreases k,
{
    if k <= 0 {
        4
    } else {
        arg_offset(args, k - 1) + 4 + utf8(args[k - 1]).len()
    }
}

/// The encoding of some arguments ends where the prefix of the next one
/// would start.
proof fn lemma_encode_len(args: Seq<Seq<char>>)
    ensures
        encode_args(args).len() == arg_offset(args, args.len() as int) - 4,
    decreases args.len(),
{
    vstd::bytes::lemma_auto_spec_u32_to_from_le_bytes();
    if args.len() > 0 {
        let d = args.drop_last();
        lemma_encode_len(d);
        lemma_offset_same(args, d, d.len() as int);
        assert(spec_u32_to_le_bytes(utf8(args.last()).len() as u32).len() == 4);
    }
}

/// The encoding of the first `k` arguments is the start of the encoding of
/// all of them.
proof fn lemma_encode_prefix(args: Seq<Seq<char>>, k: int)
    requires
        0 <= k <= args.len(),
    ensures
        encode_args(args.take(k)).len() <= encode_args(args).len(),
        encode_args(args).subrange(0, encode_args(args.take(k)).len() as int) == encode_args(
            args.take(k),
        ),
    decreases args.len(),
{
    if k == args.len() {
        assert(args.take(k) =~= args);
        assert(encode_args(args).subrange(0, encode_args(args).len() as int) =~= encode_args(args));
    } else {
        let d = args.drop_last();
        assert(d.take(k) =~= args.take(k));
        lemma_encode_prefix(d, k);
        let l = encode_args(args.take(k)).len() as int;
        assert(encode_args(args).subrange(0, l) =~= encode_args(d).subrange(0, l));
    }
}

/// Offsets depend only on the arguments before them.
proof fn lemma_offset_same(a: Seq<Seq<char>>, b: Seq<Seq<char>>, k: int)
    requires
        0 <= k <= a.len(),
        k <= b.len(),
        forall|j: int| 0 <= j < k ==> a[j] == b[j],
    ensures
        arg_offset(a, k) == arg_offset(b, k),
    decreases k,
{
    if k > 0 {
        lemma_offset_same(a, b, k - 1);
    }
}

/// A request reads back as its arguments: its first four bytes, as a
/// little-endian `u32`, give the argument count; the four bytes at each
/// argument's offset give that argument's UTF-8 byte length; the bytes
/// after them are the argument's; and the request ends right after the last
/// argument.
pub proof fn law_request_reads_back(args: Seq<Seq<char>>)
    requires
        encodable(args),
    ensures
        encode_request(args).len() == arg_offset(args, args.len() as int),
        spec_u32_from_le_bytes(encode_request(args).subrange(0, 4)) == args.len(),
        forall|k: int|
            #![trigger arg_offset(args, k)]
            0 <= k < args.len() ==> {
                let off = arg_offset(args, k);
                let n = utf8(args[k]).len();
                &&& spec_u32_from_le_bytes(encode_request(args).subrange(off, off + 4)) == n
                &&& encode_request(args).subrange(off + 4, off + 4 + n) == utf8(args[k])
            },
{
    vstd::bytes::lemma_auto_spec_u32_to_from_le_bytes();
    let head = spec_u32_to_le_bytes(args.len() as u32);
    let all = encode_args(args);
    let bytes = encode_request(args);
    assert(bytes.subrange(0, 4) =~= head);
    lemma_encode_len(args);
    assert forall|k: int|
        #![trigger arg_offset(args, k)]
        0 <= k < args.len() implies {
        let off = arg_offset(args, k);
        let n = utf8(args[k]).len();
        &&& spec_u32_from_le_bytes(bytes.subrange(off, off + 4)) == n
        &&& bytes.subrange(off + 4, off + 4 + n) == utf8(args[k])
    } by {
        let off = arg_offset(args, k);
        let n = utf8(args[k]).len();
        let before = args.take(k);
        let upto = args.take(k + 1);
        lemma_encode_len(before);
        lemma_offset_same(args, before, k);
        lemma_encode_prefix(args, k + 1);
        assert(upto.drop_last() =~= before);
        assert(upto.last() == args[k]);
        let prefix = spec_u32_to_le_bytes(n as u32);
        let e = encode_args(upto);
        assert(e == encode_args(before) + prefix + utf8(args[k]));
        assert(e.len() == off + n);
        assert(all.subrange(0, off + n) == e);
        assert(bytes.subrange(off, off + 4) =~= e.subrange(off - 4, off));
        assert(e.subrange(off - 4, off) =~= prefix);
        assert(bytes.subrange(off + 4, off + 4 + n) =~= e.subrange(off, off + n));
        assert(e.subrange(off, off + n) =~= utf8(args[k]));
    }
}

/// A request: the arguments of one command, such as `set key value`.
pub struct LexRequest {
    args: Vec<String>,
}

impl LexRequest {
    /// The request's arguments.
    pub closed spec fn args(&self) -> Seq<Seq<char>> {
        self.args@.map_values(|a: String| a@)
    }

    /// A request with the given arguments, or none.
    pub fn new(maybe_args: Option<Vec<String>>) -> (r: Self)
        ensures
            r.args() == match maybe_args {
                Some(args) => args@.map_values(|a: String| a@),
                None => Seq::empty(),
            },
    {
        let args = if let Some(args) = maybe_args {
            args
        } else {
            Vec::new()
        };
        let r = Self { args };
        assert(r.args() =~= match maybe_args {
            Some(args) => args@.map_values(|a: String| a@),
            None => Seq::empty(),
        });
        r
    }

    /// The request's bytes; fails when a count does not fit a `u32`.
    pub fn to_request(&self) -> (r: Result<Vec<u8>, LexRequestError>)
        ensures
            r is Ok <==> encodable(self.args()),
            r matches Ok(bytes) ==> bytes@ == encode_request(self.args()),
            r matches Ok(bytes) ==> {
                &&& bytes@.len() == arg_offset(self.args(), self.args().len() as int)
                &&& spec_u32_from_le_bytes(bytes@.subrange(0, 4)) == self.args().len()
                &&& forall|k: int|
                    #![trigger arg_offset(self.args(), k)]
                    0 <= k < self.args().len() ==> {
                        let off = arg_offset(self.args(), k);
                        let n = utf8(self.args()[k]).len();
                        &&& spec_u32_from_le_bytes(bytes@.subrange(off, off + 4)) == n
                        &&& bytes@.subrange(off + 4, off + 4 + n) == utf8(self.args()[k])
                    }
            },
    {
        let count: u32 = match u32::try_from(self.args.len()) {
            Ok(n) => n,
            Err(e) => {
                return Err(LexRequestError::TryFromIntError(e));
            },
        };
        let mut request = u32_to_le_bytes(count);
        let mut i: usize = 0;
        while i < self.args.len()
            invariant
                i <= self.args@.len(),
                count == self.args@.len(),
                forall|k: int| 0 <= k < i ==> #[trigger] utf8(self.args()[k]).len() <= u32::MAX,
                request@ == spec_u32_to_le_bytes(count) + encode_args(self.args().take(i as int)),
            decreases self.args@.len() - i,
        {
            let arg = self.args[i].as_str();
            let bytes = arg.as_bytes();
            let len: u32 = match u32::try_from(bytes.len()) {
                Ok(n) => n,
                Err(e) => {
                    assert(self.args()[i as int] == arg@);
                    assert(utf8(self.args()[i as int]).len() > u32::MAX);
                    assert(!encodable(self.args()));
                    return Err(LexRequestError::TryFromIntError(e));
                },
            };
            let mut prefix = u32_to_le_bytes(len);
            request.append(&mut prefix);
            let ghost before = request@;
            request.extend_from_slice(bytes);
            proof {
                assert(request@ =~= before + bytes@);
                let args = self.args();
                assert(args.take(i + 1).drop_last() =~= args.take(i as int));
                assert(args.take(i + 1).last() == args[i as int]);
                assert(spec_u32_to_le_bytes(count) + encode_args(args.take(i + 1)) =~= request@);
            }
            i = i + 1;
        }
        assert(self.args().take(i as int) =~= self.args());
        proof {
            law_request_reads_back(self.args());
        }
        Ok(request)
    }
}

/// A response of the protocol; it carries nothing yet.
pub struct LexResponse {}

/// Why a request could not be encoded.
#[derive(Debug)]
pub enum LexRequestError {
    TryFromIntError(core::num::TryFromIntError),
}


impl From<core::num::TryFromIntError> for LexRequestError {
    fn from(err: core::num::TryFromIntError) -> (r: Self) {
        Self::TryFromIntError(err)
    }
}

impl vstd::std_specs::convert::FromSpecImpl<core::num::TryFromIntError> for LexRequestError {
    open spec fn obeys_from_spec() -> bool {
        true
    }

    open spec fn from_spec(v: core::num::TryFromIntError) -> Self {
        LexRequestError::TryFromIntError(v)
    }
}

} // verus!
