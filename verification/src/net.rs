//! The decisions of the socket server and client: the socket address they
//! bind or connect to, how a message is framed by its length, and how a
//! message is read and written in bounded chunks.
use vstd::bytes::{spec_u32_from_le_bytes, spec_u32_to_le_bytes, u32_from_le_bytes, u32_to_le_bytes};
use vstd::prelude::*;

verus! {

/// An error of the operating system, as std reports it.
#[verifier::external_type_specification]
#[verifier::external_body]
pub struct ExIoError(std::io::Error);

/// The error std reports when a slice has the wrong length for an array.
#[verifier::external_type_specification]
#[verifier::external_body]
pub struct ExTryFromSliceError(core::array::TryFromSliceError);

/// Length in bytes of the header that precedes every message.
pub const HEADER_LEN: usize = 4;

/// Most bytes asked of one read, and most bytes handed to one write.
pub const CHUNK_LEN: usize = 64;

/// Length in bytes of a socket address, which the address records.
pub const SOCK_ADDR_LEN: u8 = 16;

/// The big-endian bytes of a `u16`.
pub open spec fn be_u16(x: u16) -> Seq<u8> {
    seq![(x >> 8u16) as u8, (x & 0xff) as u8]
}

/// The big-endian bytes of a `u32`.
pub open spec fn be_u32(x: u32) -> Seq<u8> {
    seq![(x >> 24u32) as u8, ((x >> 16u32) & 0xff) as u8, ((x >> 8u32) & 0xff) as u8, (x & 0xff) as u8]
}

/// The two big-endian bytes of a `u16`, most significant first, read back
/// give the number.
pub proof fn law_be_u16_reads_back(x: u16)
    ensures
        be_u16(x).len() == 2,
        be_u16(x)[0] * 0x100 + be_u16(x)[1] == x,
{
    let hi: u8 = (x >> 8u16) as u8;
    let lo: u8 = (x & 0xff) as u8;
    assert(hi * 0x100u32 + lo == x) by (bit_vector)
        requires
            hi == (x >> 8u16) as u8,
            lo == (x & 0xff) as u8,
    ;
}

/// The four big-endian bytes of a `u32`, most significant first, read back
/// give the number.
pub proof fn law_be_u32_reads_back(x: u32)
    ensures
        be_u32(x).len() == 4,
        be_u32(x)[0] * 0x100_0000 + be_u32(x)[1] * 0x1_0000 + be_u32(x)[2] * 0x100 + be_u32(x)[3]
            == x,
{
    let b0: u8 = (x >> 24u32) as u8;
    let b1: u8 = ((x >> 16u32) & 0xff) as u8;
    let b2: u8 = ((x >> 8u32) & 0xff) as u8;
    let b3: u8 = (x & 0xff) as u8;
    assert(b0 * 0x100_0000u64 + b1 * 0x1_0000u64 + b2 * 0x100u64 + b3 == x) by (bit_vector)
        requires
            b0 == (x >> 24u32) as u8,
            b1 == ((x >> 16u32) & 0xff) as u8,
            b2 == ((x >> 8u32) & 0xff) as u8,
            b3 == (x & 0xff) as u8,
    ;
}

/// An IPv4 socket address: its length, its address family, then the port
/// and the address in network byte order, padded with zeros.
#[derive(Default, Debug)]
pub struct SockAddr {
    pub sa_len: u8,
    pub sa_family: u8,
    pub sa_data: [u8; 14],
}

impl SockAddr {
    /// The address of `port` at `addr` in family `sa_family`.
    pub fn new(sa_family: u8, addr: u32, port: u16) -> (r: Self)
        ensures
            r.sa_len == SOCK_ADDR_LEN,
            r.sa_family == sa_family,
            r.sa_data@ == be_u16(port) + be_u32(addr) + Seq::new(8, |i: int| 0u8),
            r.sa_data@[0] * 0x100 + r.sa_data@[1] == port,
            r.sa_data@[2] * 0x100_0000 + r.sa_data@[3] * 0x1_0000 + r.sa_data@[4] * 0x100
                + r.sa_data@[5] == addr,
            forall|i: int| 6 <= i < 14 ==> r.sa_data@[i] == 0,
    {
        let sa_data: [u8; 14] = [
            (port >> 8u16) as u8,
            (port & 0xff) as u8,
            (addr >> 24u32) as u8,
            ((addr >> 16u32) & 0xff) as u8,
            ((addr >> 8u32) & 0xff) as u8,
            (addr & 0xff) as u8,
            0,
            0,
            0,
            0,
            0,
            0,
            0,
            0,
        ];
        assert(sa_data@ =~= be_u16(port) + be_u32(addr) + Seq::new(8, |i: int| 0u8));
        proof {
            law_be_u16_reads_back(port);
            law_be_u32_reads_back(addr);
        }
        Self { sa_len: SOCK_ADDR_LEN, sa_family, sa_data }
    }
}

/// The length that a message header announces.
pub open spec fn announced_length(header: Seq<u8>) -> usize {
    spec_u32_from_le_bytes(header.take(4)) as usize
}

/// What the header read before a message says: `None` when the peer sent
/// nothing (the connection is over), the length of the message that
/// follows, or `InvalidRange(0, 4)` when the header was cut short.
pub fn frame_length(header: &[u8]) -> (r: Result<Option<usize>, ReadError>)
    ensures
        match r {
            Ok(None) => header@.len() == 0,
            Ok(Some(n)) => header@.len() >= HEADER_LEN && n == announced_length(header@),
            Err(e) => {
                &&& 0 < header@.len() < HEADER_LEN
                &&& e matches ReadError::InvalidRange(a, b) && a == 0 && b == HEADER_LEN
            },
        },
{
    if header.len() == 0 {
        return Ok(None);
    }
    if header.len() < HEADER_LEN {
        return Err(ReadError::InvalidRange(0, HEADER_LEN));
    }
    let prefix: [u8; 4] = [header[0], header[1], header[2], header[3]];
    assert(prefix@ =~= header@.take(4));
    let n: u32 = u32_from_le_bytes(prefix.as_slice());
    Ok(Some(n as usize))
}

/// The header announcing a message of `len` bytes: `len` as a
/// little-endian `u32`; fails when `len` does not fit one.
pub fn length_header(len: usize) -> (r: Result<Vec<u8>, WriteError>)
    ensures
        match r {
            Ok(h) => len <= u32::MAX && h@ == spec_u32_to_le_bytes(len as u32),
            Err(e) => len > u32::MAX && e is TryFromIntError,
        },
{
    match u32::try_from(len) {
        Ok(n) => Ok(u32_to_le_bytes(n)),
        Err(e) => Err(WriteError::TryFromIntError(e)),
    }
}

/// A header written for a message is read back as that message's length.
pub proof fn law_header_round_trip(len: usize)
    requires
        len <= u32::MAX,
    ensures
        spec_u32_to_le_bytes(len as u32).len() == HEADER_LEN,
        announced_length(spec_u32_to_le_bytes(len as u32)) == len,
{
    vstd::bytes::lemma_auto_spec_u32_to_from_le_bytes();
    let h = spec_u32_to_le_bytes(len as u32);
    assert(h.take(4) =~= h);
}

/// The window of a buffer of `len` bytes that write number `k` sends.
pub open spec fn write_window(len: usize, k: int) -> (usize, usize) {
    let start = CHUNK_LEN * k;
    let end = if len - start > CHUNK_LEN {
        start + CHUNK_LEN
    } else {
        len as int
    };
    (start as usize, end as usize)
}

/// The windows in which a buffer of `len` bytes is written: consecutive,
/// from the start, each `CHUNK_LEN` bytes but the last, which ends the
/// buffer.
pub fn write_windows(len: usize) -> (w: Vec<(usize, usize)>)
    ensures
        w@.len() == window_count(len as nat),
        forall|k: int| 0 <= k < w@.len() ==> #[trigger] w@[k] == write_window(len, k),
{
    let mut w: Vec<(usize, usize)> = Vec::new();
    let mut start: usize = 0;
    let mut end: usize = 0;
    while end < len
        invariant
            start == end,
            end <= len,
            end as int == if CHUNK_LEN * w@.len() < len {
                CHUNK_LEN * w@.len()
            } else {
                len as int
            },
            w@.len() > 0 ==> CHUNK_LEN * (w@.len() - 1) < len,
            forall|k: int| 0 <= k < w@.len() ==> #[trigger] w@[k] == write_window(len, k),
        decreases len - end,
    {
        end = if len - start > CHUNK_LEN {
            start + CHUNK_LEN
        } else {
            len
        };
        w.push((start, end));
        start = end;
    }
    w
}

/// The bytes of `body` that write number `k` sends.
pub open spec fn window_bytes(body: Seq<u8>, k: int) -> Seq<u8> {
    let w = write_window(body.len() as usize, k);
    body.subrange(w.0 as int, w.1 as int)
}

/// The number of writes that send a buffer of `len` bytes.
pub open spec fn window_count(len: nat) -> nat {
    ((len + CHUNK_LEN - 1) / CHUNK_LEN as int) as nat
}

/// Everything the writes of `body` send, one window after another.
pub open spec fn written_bytes(body: Seq<u8>) -> Seq<u8> {
    Seq::new(window_count(body.len()), |k: int| window_bytes(body, k)).flatten()
}

/// The state of a read of a message after one more chunk arrives: less
/// left to read (never below zero) and the chunk appended.
pub open spec fn read_step(left: nat, data: Seq<u8>, chunk: Seq<u8>) -> (nat, Seq<u8>) {
    (if left > chunk.len() {
        (left - chunk.len()) as nat
    } else {
        0
    }, data + chunk)
}

/// The state of a read of a message after the chunks arrive in order.
pub open spec fn read_steps(left: nat, data: Seq<u8>, chunks: Seq<Seq<u8>>) -> (nat, Seq<u8>)
    decreases chunks.len(),
{
    if chunks.len() == 0 {
        (left, data)
    } else {
        let next = read_step(left, data, chunks[0]);
        read_steps(next.0, next.1, chunks.drop_first())
    }
}

/// The first `j` windows of `body` send its first `min(CHUNK_LEN * j, len)`
/// bytes.
proof fn lemma_windows_prefix(body: Seq<u8>, j: int)
    requires
        0 <= j <= window_count(body.len()),
        body.len() <= usize::MAX,
    ensures
        Seq::new(j as nat, |k: int| window_bytes(body, k)).flatten() =~= body.take(
            if CHUNK_LEN * j < body.len() {
                CHUNK_LEN * j
            } else {
                body.len() as int
            },
        ),
    decreases j,
{
    let f = |k: int| window_bytes(body, k);
    if j == 0 {
        assert(Seq::new(0, f) =~= Seq::<Seq<u8>>::empty());
    } else {
        lemma_windows_prefix(body, j - 1);
        assert(Seq::new(j as nat, f) =~= Seq::new((j - 1) as nat, f).push(f(j - 1)));
        Seq::new((j - 1) as nat, f).lemma_flatten_push(f(j - 1));
    }
}

/// Chunks that together hold no more than is left to read are appended in
/// order, and the count left goes down by their total.
proof fn lemma_read_steps(left: nat, data: Seq<u8>, chunks: Seq<Seq<u8>>)
    requires
        chunks.flatten().len() <= left,
    ensures
        read_steps(left, data, chunks) == ((left - chunks.flatten().len()) as nat, data
            + chunks.flatten()),
    decreases chunks.len(),
{
    if chunks.len() > 0 {
        let rest = chunks.drop_first();
        assert(chunks.flatten() == chunks[0] + rest.flatten());
        let next = read_step(left, data, chunks[0]);
        lemma_read_steps(next.0, next.1, rest);
        assert(data + chunks[0] + rest.flatten() =~= data + chunks.flatten());
    } else {
        assert(data + chunks.flatten() =~= data);
    }
}

/// A message sent as its length header and then in the windows of
/// `write_windows` is received whole: the header announces its length, the
/// windows send its bytes in order, and reads that deliver those bytes, in
/// chunks of any size, leave nothing to read and collect the message.
pub proof fn law_message_round_trip(body: Seq<u8>, chunks: Seq<Seq<u8>>)
    requires
        body.len() <= u32::MAX,
        chunks.flatten() == written_bytes(body),
    ensures
        announced_length(spec_u32_to_le_bytes(body.len() as u32)) == body.len(),
        written_bytes(body) == body,
        read_steps(body.len(), Seq::empty(), chunks) == (0nat, body),
{
    law_header_round_trip(body.len() as usize);
    lemma_windows_prefix(body, window_count(body.len()) as int);
    assert(body.take(body.len() as int) =~= body);
    lemma_read_steps(body.len(), Seq::empty(), chunks);
    assert(Seq::<u8>::empty() + body =~= body);
}

/// Reading a message of known length, a chunk at a time: what is left to
/// read and what has been read so far.
pub struct ReadFull {
    left_to_read: usize,
    data: Vec<u8>,
}

impl ReadFull {
    /// Bytes still to read.
    pub closed spec fn left(&self) -> usize {
        self.left_to_read
    }

    /// Bytes read so far.
    pub closed spec fn data(&self) -> Seq<u8> {
        self.data@
    }

    /// Starts reading a message of `expected_len` bytes.
    pub fn new(expected_len: usize) -> (r: Self)
        ensures
            r.left() == expected_len,
            r.data() == Seq::<u8>::empty(),
    {
        Self { left_to_read: expected_len, data: Vec::new() }
    }

    /// How many bytes the next read asks for; zero once nothing is left,
    /// when reading is over.
    pub fn next_read_len(&self) -> (n: usize)
        ensures
            n == if self.left() < CHUNK_LEN {
                self.left()
            } else {
                CHUNK_LEN
            },
    {
        if self.left_to_read < CHUNK_LEN {
            self.left_to_read
        } else {
            CHUNK_LEN
        }
    }

    /// Takes in a read that filled `buffer` with `bytes_read` bytes, and
    /// says whether reading is over: after an empty read (the peer has
    /// nothing more to send) or once nothing is left to read.  A negative
    /// count, or one past the end of `buffer`, is refused and changes
    /// nothing; a failed read (`-1`) is the caller's to report.
    pub fn on_read(&mut self, buffer: &[u8], bytes_read: i32) -> (r: Result<bool, ReadError>)
        requires
            bytes_read != -1,
        ensures
            match r {
                Ok(done) => {
                    &&& 0 <= bytes_read <= buffer@.len()
                    &&& bytes_read == 0 ==> done && *final(self) == *old(self)
                    &&& bytes_read > 0 ==> {
                        &&& (final(self).left() as nat, final(self).data()) == read_step(
                            old(self).left() as nat,
                            old(self).data(),
                            buffer@.take(bytes_read as int),
                        )
                        &&& final(self).data() == old(self).data() + buffer@.take(bytes_read as int)
                        &&& final(self).left() == if old(self).left() > bytes_read {
                            old(self).left() - bytes_read
                        } else {
                            0
                        }
                        &&& done == (final(self).left() == 0)
                    }
                    &&& bytes_read <= old(self).left() ==> final(self).data().len()
                        + final(self).left() == old(self).data().len() + old(self).left()
                },
                Err(e) => {
                    &&& *final(self) == *old(self)
                    &&& bytes_read < 0 ==> e is TryFromIntError
                    &&& bytes_read >= 0 ==> {
                        &&& bytes_read > buffer@.len()
                        &&& e matches ReadError::InvalidRange(a, b) && a == 0 && b == bytes_read
                    }
                },
            },
    {
        let n: usize = match usize::try_from(bytes_read) {
            Ok(n) => n,
            Err(e) => {
                return Err(ReadError::TryFromIntError(e));
            },
        };
        if n == 0 {
            return Ok(true);
        }
        if n > buffer.len() {
            return Err(ReadError::InvalidRange(0, n));
        }
        self.left_to_read = self.left_to_read.saturating_sub(n);
        let ghost start = self.data@;
        let ghost left = self.left_to_read;
        let mut i: usize = 0;
        while i < n
            invariant
                self.left_to_read == left,
                i <= n,
                n <= buffer@.len(),
                self.data@ == start + buffer@.take(i as int),
            decreases n - i,
        {
            self.data.push(buffer[i]);
            assert(buffer@.take(i + 1) =~= buffer@.take(i as int).push(buffer@[i as int]));
            i = i + 1;
        }
        Ok(self.left_to_read == 0)
    }

    /// The bytes read.
    pub fn into_data(self) -> (d: Vec<u8>)
        ensures
            d@ == self.data(),
    {
        self.data
    }
}

/// The server's answer to a message: none to an empty one, which means the
/// client closed the connection, and the fixed greeting to any other.
pub fn reply_to(msg: &[u8]) -> (r: Option<Vec<u8>>)
    ensures
        r is None <==> msg@.len() == 0,
        r matches Some(bytes) ==> bytes@ == vstd::utf8::encode_utf8("HTTP/1.1 200 OK\n\nhello"@),
{
    if msg.len() == 0 {
        return None;
    }
    let text: &str = "HTTP/1.1 200 OK\n\nhello";
    let bytes: &[u8] = text.as_bytes();
    let mut reply: Vec<u8> = Vec::new();
    let mut i: usize = 0;
    while i < bytes.len()
        invariant
            i <= bytes@.len(),
            reply@ == bytes@.take(i as int),
        decreases bytes@.len() - i,
    {
        reply.push(bytes[i]);
        assert(bytes@.take(i + 1) =~= bytes@.take(i as int).push(bytes@[i as int]));
        i = i + 1;
    }
    assert(bytes@.take(i as int) =~= bytes@);
    Some(reply)
}

/// Why a message could not be read.
#[derive(Debug)]
pub enum ReadError {
    NoMessage,
    InvalidIdx(usize),
    InvalidRange(usize, usize),
    StdIOError(std::io::Error),
    TryFromSliceError(core::array::TryFromSliceError),
    TryFromIntError(core::num::TryFromIntError),
}

/// Why a message could not be written.
#[derive(Debug)]
pub enum WriteError {
    StdIOError(std::io::Error),
    InvalidRange(usize, usize),
    TryFromIntError(core::num::TryFromIntError),
}

/// Why the server stopped.
#[derive(Debug)]
pub enum ServerError {
    InvalidSocketHandle,
    ReadError(ReadError),
    WriteError(WriteError),
    StdIOError(std::io::Error),
    TryFromSliceError(core::array::TryFromSliceError),
    TryFromIntError(core::num::TryFromIntError),
}

/// Why the client stopped.
#[derive(Debug)]
pub enum ClientError {
    InvalidSocketHandle,
    ReadError(ReadError),
    WriteError(WriteError),
    StdIOError(std::io::Error),
    TryFromIntError(core::num::TryFromIntError),
}

impl From<core::array::TryFromSliceError> for ReadError {
    fn from(err: core::array::TryFromSliceError) -> (r: Self) {
        Self::TryFromSliceError(err)
    }
}

impl vstd::std_specs::convert::FromSpecImpl<core::array::TryFromSliceError> for ReadError {
    open spec fn obeys_from_spec() -> bool {
        true
    }

    open spec fn from_spec(v: core::array::TryFromSliceError) -> Self {
        ReadError::TryFromSliceError(v)
    }
}

impl From<core::num::TryFromIntError> for ReadError {
    fn from(err: core::num::TryFromIntError) -> (r: Self) {
        Self::TryFromIntError(err)
    }
}

impl vstd::std_specs::convert::FromSpecImpl<core::num::TryFromIntError> for ReadError {
    open spec fn obeys_from_spec() -> bool {
        true
    }

    open spec fn from_spec(v: core::num::TryFromIntError) -> Self {
        ReadError::TryFromIntError(v)
    }
}

impl From<std::io::Error> for ReadError {
    fn from(err: std::io::Error) -> (r: Self) {
        Self::StdIOError(err)
    }
}

impl vstd::std_specs::convert::FromSpecImpl<std::io::Error> for ReadError {
    open spec fn obeys_from_spec() -> bool {
        true
    }

    open spec fn from_spec(v: std::io::Error) -> Self {
        ReadError::StdIOError(v)
    }
}

impl From<core::num::TryFromIntError> for WriteError {
    fn from(err: core::num::TryFromIntError) -> (r: Self) {
        Self::TryFromIntError(err)
    }
}

impl vstd::std_specs::convert::FromSpecImpl<core::num::TryFromIntError> for WriteError {
    open spec fn obeys_from_spec() -> bool {
        true
    }

    open spec fn from_spec(v: core::num::TryFromIntError) -> Self {
        WriteError::TryFromIntError(v)
    }
}

impl From<std::io::Error> for WriteError {
    fn from(err: std::io::Error) -> (r: Self) {
        Self::StdIOError(err)
    }
}

impl vstd::std_specs::convert::FromSpecImpl<std::io::Error> for WriteError {
    open spec fn obeys_from_spec() -> bool {
        true
    }

    open spec fn from_spec(v: std::io::Error) -> Self {
        WriteError::StdIOError(v)
    }
}

impl From<core::num::TryFromIntError> for ServerError {
    fn from(err: core::num::TryFromIntError) -> (r: Self) {
        Self::TryFromIntError(err)
    }
}

impl vstd::std_specs::convert::FromSpecImpl<core::num::TryFromIntError> for ServerError {
    open spec fn obeys_from_spec() -> bool {
        true
    }

    open spec fn from_spec(v: core::num::TryFromIntError) -> Self {
        ServerError::TryFromIntError(v)
    }
}

impl From<core::array::TryFromSliceError> for ServerError {
    fn from(err: core::array::TryFromSliceError) -> (r: Self) {
        Self::TryFromSliceError(err)
    }
}

impl vstd::std_specs::convert::FromSpecImpl<core::array::TryFromSliceError> for ServerError {
    open spec fn obeys_from_spec() -> bool {
        true
    }

    open spec fn from_spec(v: core::array::TryFromSliceError) -> Self {
        ServerError::TryFromSliceError(v)
    }
}

impl From<std::io::Error> for ServerError {
    fn from(err: std::io::Error) -> (r: Self) {
        Self::StdIOError(err)
    }
}

impl vstd::std_specs::convert::FromSpecImpl<std::io::Error> for ServerError {
    open spec fn obeys_from_spec() -> bool {
        true
    }

    open spec fn from_spec(v: std::io::Error) -> Self {
        ServerError::StdIOError(v)
    }
}

impl From<ReadError> for ServerError {
    fn from(err: ReadError) -> (r: Self) {
        Self::ReadError(err)
    }
}

impl vstd::std_specs::convert::FromSpecImpl<ReadError> for ServerError {
    open spec fn obeys_from_spec() -> bool {
        true
    }

    open spec fn from_spec(v: ReadError) -> Self {
        ServerError::ReadError(v)
    }
}

impl From<WriteError> for ServerError {
    fn from(err: WriteError) -> (r: Self) {
        Self::WriteError(err)
    }
}

impl vstd::std_specs::convert::FromSpecImpl<WriteError> for ServerError {
    open spec fn obeys_from_spec() -> bool {
        true
    }

    open spec fn from_spec(v: WriteError) -> Self {
        ServerError::WriteError(v)
    }
}

impl From<core::num::TryFromIntError> for ClientError {
    fn from(err: core::num::TryFromIntError) -> (r: Self) {
        Self::TryFromIntError(err)
    }
}

impl vstd::std_specs::convert::FromSpecImpl<core::num::TryFromIntError> for ClientError {
    open spec fn obeys_from_spec() -> bool {
        true
    }

    open spec fn from_spec(v: core::num::TryFromIntError) -> Self {
        ClientError::TryFromIntError(v)
    }
}

impl From<std::io::Error> for ClientError {
    fn from(err: std::io::Error) -> (r: Self) {
        Self::StdIOError(err)
    }
}

impl vstd::std_specs::convert::FromSpecImpl<std::io::Error> for ClientError {
    open spec fn obeys_from_spec() -> bool {
        true
    }

    open spec fn from_spec(v: std::io::Error) -> Self {
        ClientError::StdIOError(v)
    }
}

impl From<ReadError> for ClientError {
    fn from(err: ReadError) -> (r: Self) {
        Self::ReadError(err)
    }
}

impl vstd::std_specs::convert::FromSpecImpl<ReadError> for ClientError {
    open spec fn obeys_from_spec() -> bool {
        true
    }

    open spec fn from_spec(v: ReadError) -> Self {
        ClientError::ReadError(v)
    }
}

impl From<WriteError> for ClientError {
    fn from(err: WriteError) -> (r: Self) {
        Self::WriteError(err)
    }
}

impl vstd::std_specs::convert::FromSpecImpl<WriteError> for ClientError {
    open spec fn obeys_from_spec() -> bool {
        true
    }

    open spec fn from_spec(v: WriteError) -> Self {
        ClientError::WriteError(v)
    }
}

} // verus!
