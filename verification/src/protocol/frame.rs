//! Frames: a six-byte header (version, type, big-endian payload length)
//! followed by the payload.

use std::io::Read;
use vstd::prelude::*;

verus! {

/// The protocol version this library speaks.
pub const CURRENT_PROTOCOL_VERSION: u8 = 1;

/// The length of a frame header in bytes.
pub const FRAME_HEADER_BYTES: usize = 6;

/// The largest payload a frame may carry.
pub const MAX_FRAME_PAYLOAD_BYTES: usize = 16384;

/// The kind of a frame.
#[derive(Clone, Copy, Debug, PartialEq, Eq, Structural)]
pub enum FrameType {
    Handshake,
    Chat,
    Presence,
}

/// A decoded frame.
#[derive(Debug, PartialEq, Eq)]
pub struct Frame {
    pub version: u8,
    pub kind: FrameType,
    pub payload: Vec<u8>,
}

/// Why a frame could not be encoded or decoded.
#[derive(Debug, PartialEq, Eq)]
pub enum FrameError {
    Io(std::io::ErrorKind),
    UnsupportedVersion(u8),
    UnknownType(u8),
    TooLarge(usize),
    InvalidUsername,
    Truncated,
}

/// The wire byte of each frame type.
pub open spec fn spec_type_byte(kind: FrameType) -> u8 {
    match kind {
        FrameType::Handshake => 1,
        FrameType::Chat => 2,
        FrameType::Presence => 3,
    }
}

/// The frame type a wire byte names, if any.
pub open spec fn spec_type_of_byte(b: u8) -> Option<FrameType> {
    if b == 1 {
        Some(FrameType::Handshake)
    } else if b == 2 {
        Some(FrameType::Chat)
    } else if b == 3 {
        Some(FrameType::Presence)
    } else {
        None
    }
}

impl FrameType {
    /// The byte that stands for this type on the wire.
    pub fn to_byte(self) -> (b: u8)
        ensures
            b == spec_type_byte(self),
    {
        match self {
            FrameType::Handshake => 1,
            FrameType::Chat => 2,
            FrameType::Presence => 3,
        }
    }

    /// The type a wire byte stands for.
    pub fn try_from_byte(value: u8) -> (r: Result<FrameType, FrameError>)
        ensures
            match spec_type_of_byte(value) {
                Some(k) => r == Ok::<FrameType, FrameError>(k),
                None => r == Err::<FrameType, FrameError>(FrameError::UnknownType(value)),
            },
    {
        if value == 1 {
            Ok(FrameType::Handshake)
        } else if value == 2 {
            Ok(FrameType::Chat)
        } else if value == 3 {
            Ok(FrameType::Presence)
        } else {
            Err(FrameError::UnknownType(value))
        }
    }
}

/// The four big-endian bytes of a length below 2^32.
pub open spec fn spec_length_bytes(n: nat) -> Seq<u8> {
    seq![
        ((n / 0x1000000) % 0x100) as u8,
        ((n / 0x10000) % 0x100) as u8,
        ((n / 0x100) % 0x100) as u8,
        (n % 0x100) as u8,
    ]
}

/// The length that four big-endian bytes stand for.
pub open spec fn spec_be_u32(b0: u8, b1: u8, b2: u8, b3: u8) -> nat {
    (b0 as nat) * 0x1000000 + (b1 as nat) * 0x10000 + (b2 as nat) * 0x100 + (b3 as nat)
}

/// The bytes of a frame of type `kind` carrying `payload`.
pub open spec fn spec_frame_bytes(kind: FrameType, payload: Seq<u8>) -> Seq<u8> {
    seq![CURRENT_PROTOCOL_VERSION, spec_type_byte(kind)] + spec_length_bytes(payload.len())
        + payload
}

/// What encoding a frame of type `kind` carrying `payload` gives.
pub open spec fn spec_encode_frame(kind: FrameType, payload: Seq<u8>) -> Result<
    Seq<u8>,
    FrameError,
> {
    if payload.len() > MAX_FRAME_PAYLOAD_BYTES {
        Err(FrameError::TooLarge(payload.len() as usize))
    } else {
        Ok(spec_frame_bytes(kind, payload))
    }
}

/// A byte-vector result seen as a byte-sequence result.
pub open spec fn bytes_result(r: Result<Vec<u8>, FrameError>) -> Result<Seq<u8>, FrameError> {
    match r {
        Ok(v) => Ok(v@),
        Err(e) => Err(e),
    }
}

/// What a six-byte header announces: the frame type and the payload length,
/// or why the header is refused.  The version is checked first, then the
/// type, then the length.
pub open spec fn spec_parse_header(h: Seq<u8>) -> Result<(FrameType, nat), FrameError>
    recommends
        h.len() == FRAME_HEADER_BYTES,
{
    if h[0] != CURRENT_PROTOCOL_VERSION {
        Err(FrameError::UnsupportedVersion(h[0]))
    } else {
        match spec_type_of_byte(h[1]) {
            None => Err(FrameError::UnknownType(h[1])),
            Some(kind) => {
                let n = spec_be_u32(h[2], h[3], h[4], h[5]);
                if n > MAX_FRAME_PAYLOAD_BYTES {
                    Err(FrameError::TooLarge(n as usize))
                } else {
                    Ok((kind, n))
                }
            },
        }
    }
}

/// Encodes a frame of type `kind` carrying `payload`.
pub fn encode_frame(kind: FrameType, payload: &[u8]) -> (r: Result<Vec<u8>, FrameError>)
    ensures
        bytes_result(r) == spec_encode_frame(kind, payload@),
{
    let len = payload.len();
    if len > MAX_FRAME_PAYLOAD_BYTES {
        return Err(FrameError::TooLarge(len));
    }
    let mut frame: Vec<u8> = Vec::with_capacity(FRAME_HEADER_BYTES + len);
    frame.push(CURRENT_PROTOCOL_VERSION);
    frame.push(kind.to_byte());
    frame.push((len / 0x1000000 % 0x100) as u8);
    frame.push((len / 0x10000 % 0x100) as u8);
    frame.push((len / 0x100 % 0x100) as u8);
    frame.push((len % 0x100) as u8);
    let ghost header = frame@;
    assert(header =~= seq![CURRENT_PROTOCOL_VERSION, spec_type_byte(kind)] + spec_length_bytes(
        len as nat,
    ));
    let mut i: usize = 0;
    while i < len
        invariant
            len == payload@.len(),
            i <= len,
            frame@ == header + payload@.subrange(0, i as int),
        decreases len - i,
    {
        frame.push(payload[i]);
        i = i + 1;
    }
    assert(payload@.subrange(0, len as int) =~= payload@);
    Ok(frame)
}

/// Decodes a frame header: the version, the type and the payload length.
pub fn parse_frame_header(header: &[u8]) -> (r: Result<(FrameType, usize), FrameError>)
    requires
        header@.len() == FRAME_HEADER_BYTES,
    ensures
        match spec_parse_header(header@) {
            Ok((kind, n)) => r == Ok::<(FrameType, usize), FrameError>((kind, n as usize)),
            Err(e) => r == Err::<(FrameType, usize), FrameError>(e),
        },
{
    let version = header[0];
    if version != CURRENT_PROTOCOL_VERSION {
        return Err(FrameError::UnsupportedVersion(version));
    }
    let kind = FrameType::try_from_byte(header[1])?;
    let payload_len: u32 = (header[2] as u32) * 0x1000000 + (header[3] as u32) * 0x10000 + (
    header[4] as u32) * 0x100 + (header[5] as u32);
    if payload_len as usize > MAX_FRAME_PAYLOAD_BYTES {
        return Err(FrameError::TooLarge(payload_len as usize));
    }
    Ok((kind, payload_len as usize))
}

/// Why `Read::read_exact` stopped early.
pub enum ReadFailure {
    UnexpectedEof,
    Other(std::io::ErrorKind),
}

/// Calls `Read::read` once with a buffer of `max` bytes and hands back the
/// bytes it reported.  What the reader yields depends on its source; the
/// contract states only that no more than `max` bytes come back.
#[verifier::external_body]
fn read_some<R: Read>(reader: &mut R, max: usize) -> (r: Result<Vec<u8>, std::io::ErrorKind>)
    ensures
        r matches Ok(v) ==> v@.len() <= max,
{
    let mut buffer = vec![0u8; max];
    match reader.read(&mut buffer) {
        Ok(n) => {
            buffer.truncate(n);
            Ok(buffer)
        },
        Err(error) => Err(error.kind()),
    }
}

/// Calls `Read::read_exact` for `n` bytes.  On success exactly `n` bytes
/// come back; their content depends on the reader's source.
#[verifier::external_body]
fn read_exact_bytes<R: Read>(reader: &mut R, n: usize) -> (r: Result<Vec<u8>, ReadFailure>)
    ensures
        r matches Ok(v) ==> v@.len() == n,
{
    let mut buffer = vec![0u8; n];
    match reader.read_exact(&mut buffer) {
        Ok(()) => Ok(buffer),
        Err(error) => match error.kind() {
            std::io::ErrorKind::UnexpectedEof => Err(ReadFailure::UnexpectedEof),
            kind => Err(ReadFailure::Other(kind)),
        },
    }
}

/// Where collecting a frame header stands after one read.
pub enum HeaderStep {
    /// The reader was at its end before the first byte.
    AtEnd,
    /// The reader ended inside the header.
    Truncated,
    /// Some of the header has come, and more is to be read.
    Partial(Vec<u8>),
    /// The whole header has come.
    Complete(Vec<u8>),
}

/// Where collecting a header stands, as plain values.
pub enum HeaderStepView {
    AtEnd,
    Truncated,
    Partial(Seq<u8>),
    Complete(Seq<u8>),
}

/// A step as plain values.
pub open spec fn header_step_view(r: HeaderStep) -> HeaderStepView {
    match r {
        HeaderStep::AtEnd => HeaderStepView::AtEnd,
        HeaderStep::Truncated => HeaderStepView::Truncated,
        HeaderStep::Partial(b) => HeaderStepView::Partial(b@),
        HeaderStep::Complete(b) => HeaderStepView::Complete(b@),
    }
}

/// Where collecting a header stands once a read gave `chunk` after
/// `collected`: an empty read ends the stream, cleanly before any byte and
/// inside the header otherwise; other reads add their bytes.
pub open spec fn spec_header_step(collected: Seq<u8>, chunk: Seq<u8>) -> HeaderStepView {
    if chunk.len() == 0 {
        if collected.len() == 0 {
            HeaderStepView::AtEnd
        } else {
            HeaderStepView::Truncated
        }
    } else if collected.len() + chunk.len() >= FRAME_HEADER_BYTES {
        HeaderStepView::Complete(collected + chunk)
    } else {
        HeaderStepView::Partial(collected + chunk)
    }
}

/// Where collecting a header stands once a read gave `chunk` after
/// `collected`.
pub fn header_step(collected: Vec<u8>, chunk: Vec<u8>) -> (r: HeaderStep)
    ensures
        header_step_view(r) == spec_header_step(collected@, chunk@),
{
    if chunk.len() == 0 {
        if collected.len() == 0 {
            return HeaderStep::AtEnd;
        }
        return HeaderStep::Truncated;
    }
    let mut all = collected;
    let mut rest = chunk;
    let ghost a = all@;
    let ghost b = rest@;
    all.append(&mut rest);
    assert(all@ =~= a + b);
    if all.len() >= FRAME_HEADER_BYTES {
        HeaderStep::Complete(all)
    } else {
        HeaderStep::Partial(all)
    }
}

/// What one read of a header gave: bytes, or a failure of this kind.
pub type HeaderRead = Result<Seq<u8>, std::io::ErrorKind>;

/// What reading a header gives when, after `collected` came, its reads
/// return `reads` in order: a failed read fails with its kind; otherwise
/// each read takes the header a step further, and the first step that is not
/// partial decides.  `None` while no read has decided.
pub open spec fn spec_header_reads(collected: Seq<u8>, reads: Seq<HeaderRead>) -> Option<
    Result<Option<Seq<u8>>, FrameError>,
>
    decreases reads.len(),
{
    if reads.len() == 0 {
        None
    } else {
        match reads[0] {
            Err(kind) => Some(Err(FrameError::Io(kind))),
            Ok(chunk) => match spec_header_step(collected, chunk) {
                HeaderStepView::AtEnd => Some(Ok(None)),
                HeaderStepView::Truncated => Some(Err(FrameError::Truncated)),
                HeaderStepView::Complete(h) => Some(Ok(Some(h))),
                HeaderStepView::Partial(next) => spec_header_reads(next, reads.drop_first()),
            },
        }
    }
}

/// Whether `reads` are the reads of a header after `collected` came: each
/// gave no more than the bytes the header still lacked, which is what each
/// asked for, and only the last one decided.
pub open spec fn header_reads_fit(collected: Seq<u8>, reads: Seq<HeaderRead>) -> bool
    decreases reads.len(),
{
    reads.len() > 0 && match reads[0] {
        Err(_) => reads.len() == 1,
        Ok(chunk) => collected.len() + chunk.len() <= FRAME_HEADER_BYTES && match spec_header_step(
            collected,
            chunk,
        ) {
            HeaderStepView::Partial(next) => header_reads_fit(next, reads.drop_first()),
            _ => reads.len() == 1,
        },
    }
}

/// A header result as plain values.
pub open spec fn header_result_view(r: Result<Option<Vec<u8>>, FrameError>) -> Result<
    Option<Seq<u8>>,
    FrameError,
> {
    match r {
        Ok(Some(h)) => Ok(Some(h@)),
        Ok(None) => Ok(None),
        Err(e) => Err(e),
    }
}

/// Reads the rest of a six-byte header after `collected`, however the
/// reader splits it, asking each time for the bytes still missing.  Gives
/// the outcome and the reads made.
fn read_header_from<R: Read>(reader: &mut R, collected: Vec<u8>) -> (r: (
    Result<Option<Vec<u8>>, FrameError>,
    Ghost<Seq<HeaderRead>>,
))
    requires
        collected@.len() < FRAME_HEADER_BYTES,
    ensures
        header_reads_fit(collected@, r.1@),
        spec_header_reads(collected@, r.1@) == Some(header_result_view(r.0)),
        r.0 matches Ok(Some(h)) ==> h@.len() == FRAME_HEADER_BYTES,
        r.0 matches Err(e) ==> (e is Truncated || e is Io),
    decreases FRAME_HEADER_BYTES - collected@.len(),
{
    let ghost before = collected@;
    let chunk = match read_some(reader, FRAME_HEADER_BYTES - collected.len()) {
        Ok(chunk) => chunk,
        Err(kind) => {
            let ghost reads: Seq<HeaderRead> = seq![Err(kind)];
            return (Err(FrameError::Io(kind)), Ghost(reads));
        },
    };
    let ghost c = chunk@;
    let ghost first: Seq<HeaderRead> = seq![Ok(c)];
    assert(first.drop_first() =~= Seq::<HeaderRead>::empty());
    match header_step(collected, chunk) {
        HeaderStep::AtEnd => (Ok(None), Ghost(first)),
        HeaderStep::Truncated => (Err(FrameError::Truncated), Ghost(first)),
        HeaderStep::Complete(h) => (Ok(Some(h)), Ghost(first)),
        HeaderStep::Partial(next) => {
            let (r, rest) = read_header_from(reader, next);
            let ghost reads = first + rest@;
            assert(reads.drop_first() =~= rest@);
            assert(reads[0] == Ok::<Seq<u8>, std::io::ErrorKind>(c));
            (r, Ghost(reads))
        },
    }
}

/// The frame whose payload the read of `kind`'s announced length gave: a
/// read that ended early means the frame is truncated; another failure is
/// reported by its kind.
pub fn finish_frame(kind: FrameType, read: Result<Vec<u8>, ReadFailure>) -> (r: Result<
    Option<Frame>,
    FrameError,
>)
    ensures
        match read {
            Ok(p) => r == Ok::<Option<Frame>, FrameError>(
                Some(Frame { version: CURRENT_PROTOCOL_VERSION, kind, payload: p }),
            ),
            Err(ReadFailure::UnexpectedEof) => r == Err::<Option<Frame>, FrameError>(
                FrameError::Truncated,
            ),
            Err(ReadFailure::Other(k)) => r == Err::<Option<Frame>, FrameError>(FrameError::Io(k)),
        },
{
    match read {
        Ok(payload) => Ok(Some(Frame { version: CURRENT_PROTOCOL_VERSION, kind, payload })),
        Err(ReadFailure::UnexpectedEof) => Err(FrameError::Truncated),
        Err(ReadFailure::Other(kind)) => Err(FrameError::Io(kind)),
    }
}

/// A payload read as plain values.
pub open spec fn payload_read_view(r: Result<Vec<u8>, ReadFailure>) -> Result<Seq<u8>, ReadFailure> {
    match r {
        Ok(p) => Ok(p@),
        Err(f) => Err(f),
    }
}

/// What reading a frame gives when the header's reads return `reads` and,
/// once a header has come that announces a payload, the read of that
/// payload returns `payload`: the header's failure or clean end, then the
/// header's refusal, then the frame of that type and payload, a payload
/// that ended early being a truncated frame.
pub open spec fn spec_read_frame(reads: Seq<HeaderRead>, payload: Result<Seq<u8>, ReadFailure>) -> Result<
    Option<(FrameType, Seq<u8>)>,
    FrameError,
> {
    match spec_header_reads(seq![], reads) {
        None => Ok(None),
        Some(Err(e)) => Err(e),
        Some(Ok(None)) => Ok(None),
        Some(Ok(Some(h))) => match spec_parse_header(h) {
            Err(e) => Err(e),
            Ok((kind, n)) => match payload {
                Ok(p) => Ok(Some((kind, p))),
                Err(ReadFailure::UnexpectedEof) => Err(FrameError::Truncated),
                Err(ReadFailure::Other(k)) => Err(FrameError::Io(k)),
            },
        },
    }
}

/// Whether `reads` and `payload` are the reads of one frame: the header's
/// reads fit, and a payload read that succeeded gave the announced length.
pub open spec fn frame_reads_fit(reads: Seq<HeaderRead>, payload: Result<Seq<u8>, ReadFailure>) -> bool {
    &&& header_reads_fit(seq![], reads)
    &&& spec_header_reads(seq![], reads) matches Some(Ok(Some(h))) ==> (spec_parse_header(h) matches Ok(
        (kind, n),
    ) ==> (payload matches Ok(p) ==> p.len() == n))
}

/// A frame result as plain values, without the version.
pub open spec fn frame_read_view(r: Result<Option<Frame>, FrameError>) -> Result<
    Option<(FrameType, Seq<u8>)>,
    FrameError,
> {
    match r {
        Ok(Some(f)) => Ok(Some((f.kind, f.payload@))),
        Ok(None) => Ok(None),
        Err(e) => Err(e),
    }
}

/// Reads one frame.  A reader at its end gives `None`, one that ends
/// inside the header gives `Truncated`.  What comes back is what the reads
/// the reader answered determine (`spec_read_frame`): the header's reads,
/// each asking for the bytes still missing, then one read of the announced
/// payload length; a frame carries the current version.
pub fn read_frame<R: Read>(reader: &mut R) -> (r: Result<Option<Frame>, FrameError>)
    ensures
        exists|reads: Seq<HeaderRead>, payload: Result<Seq<u8>, ReadFailure>|
            frame_reads_fit(reads, payload) && #[trigger] spec_read_frame(reads, payload)
                == frame_read_view(r),
        r matches Ok(Some(f)) ==> f.version == CURRENT_PROTOCOL_VERSION && f.payload@.len()
            <= MAX_FRAME_PAYLOAD_BYTES,
        r matches Ok(Some(f)) ==> exists|h: Seq<u8>|
            h.len() == FRAME_HEADER_BYTES && #[trigger] spec_parse_header(h) == Ok::<
                (FrameType, nat),
                FrameError,
            >((f.kind, f.payload@.len())),
        r matches Err(FrameError::UnsupportedVersion(v)) ==> v != CURRENT_PROTOCOL_VERSION,
        r matches Err(FrameError::UnknownType(t)) ==> spec_type_of_byte(t) is None,
        r matches Err(FrameError::TooLarge(n)) ==> n > MAX_FRAME_PAYLOAD_BYTES,
        !(r matches Err(FrameError::InvalidUsername)),
{
    let (header_read, reads) = read_header_from(reader, Vec::new());
    let ghost no_payload: Result<Seq<u8>, ReadFailure> = Err(ReadFailure::UnexpectedEof);
    let header = match header_read {
        Ok(Some(header)) => header,
        Ok(None) => {
            assert(spec_read_frame(reads@, no_payload) == frame_read_view(Ok(None)));
            return Ok(None);
        },
        Err(e) => {
            assert(spec_read_frame(reads@, no_payload) == frame_read_view(Err(e)));
            return Err(e);
        },
    };
    let (kind, payload_len) = match parse_frame_header(header.as_slice()) {
        Ok(found) => found,
        Err(e) => {
            assert(spec_read_frame(reads@, no_payload) == frame_read_view(Err(e)));
            return Err(e);
        },
    };
    let payload_read = read_exact_bytes(reader, payload_len);
    let ghost pv = payload_read_view(payload_read);
    let r = finish_frame(kind, payload_read);
    proof {
        assert(frame_reads_fit(reads@, pv));
        assert(spec_read_frame(reads@, pv) == frame_read_view(r));
        match &r {
            Ok(Some(f)) => {
                assert(spec_parse_header(header@) == Ok::<(FrameType, nat), FrameError>(
                    (f.kind, f.payload@.len()),
                ));
            },
            _ => {},
        }
    }
    r
}

/// The bytes that `reads` gave, up to the first failure.
pub open spec fn read_bytes(reads: Seq<HeaderRead>) -> Seq<u8>
    decreases reads.len(),
{
    if reads.len() == 0 {
        seq![]
    } else {
        match reads[0] {
            Ok(chunk) => chunk + read_bytes(reads.drop_first()),
            Err(_) => seq![],
        }
    }
}

/// Whether none of `reads` failed.
pub open spec fn reads_succeeded(reads: Seq<HeaderRead>) -> bool {
    forall|i: int| 0 <= i < reads.len() ==> (#[trigger] reads[i]) is Ok
}

/// Reads of a header that all succeed decide by the bytes they gave alone:
/// six bytes are the header, none at all a clean end, and fewer than six a
/// truncated header.
proof fn lemma_header_reads_bytes(collected: Seq<u8>, reads: Seq<HeaderRead>)
    requires
        collected.len() < FRAME_HEADER_BYTES,
        header_reads_fit(collected, reads),
        reads_succeeded(reads),
    ensures
        collected.len() + read_bytes(reads).len() <= FRAME_HEADER_BYTES,
        spec_header_reads(collected, reads) == if collected.len() + read_bytes(reads).len()
            == FRAME_HEADER_BYTES {
            Some(Ok::<Option<Seq<u8>>, FrameError>(Some(collected + read_bytes(reads))))
        } else if collected.len() + read_bytes(reads).len() == 0 {
            Some(Ok::<Option<Seq<u8>>, FrameError>(None))
        } else {
            Some(Err::<Option<Seq<u8>>, FrameError>(FrameError::Truncated))
        },
    decreases reads.len(),
{
    assert(reads[0] is Ok);
    let chunk = reads[0]->Ok_0;
    let rest = reads.drop_first();
    if chunk.len() == 0 {
        assert(rest.len() == 0);
        assert(read_bytes(reads) =~= chunk + read_bytes(rest));
    } else if collected.len() + chunk.len() >= FRAME_HEADER_BYTES {
        assert(rest.len() == 0);
        assert(read_bytes(rest) == Seq::<u8>::empty());
        assert(read_bytes(reads) == chunk + read_bytes(rest));
        assert(read_bytes(reads) =~= chunk);
    } else {
        let next = collected + chunk;
        assert forall|i: int| 0 <= i < rest.len() implies (#[trigger] rest[i]) is Ok by {
            assert(rest[i] == reads[i + 1]);
        }
        lemma_header_reads_bytes(next, rest);
        assert(read_bytes(reads) == chunk + read_bytes(rest));
        assert(next + read_bytes(rest) =~= collected + read_bytes(reads));
    }
}

/// Law: a reader that ends before the first byte of a frame gives no frame,
/// and one that ends inside its header gives a truncated frame, however it
/// split the bytes it gave.
pub proof fn lemma_read_frame_at_end(reads: Seq<HeaderRead>, payload: Result<Seq<u8>, ReadFailure>)
    requires
        frame_reads_fit(reads, payload),
        reads_succeeded(reads),
        read_bytes(reads).len() < FRAME_HEADER_BYTES,
    ensures
        spec_read_frame(reads, payload) == if read_bytes(reads).len() == 0 {
            Ok::<Option<(FrameType, Seq<u8>)>, FrameError>(None)
        } else {
            Err::<Option<(FrameType, Seq<u8>)>, FrameError>(FrameError::Truncated)
        },
{
    lemma_header_reads_bytes(seq![], reads);
}

/// Law: however a reader splits the header of an encoded frame, reading
/// gives the frame back once the payload read gives the bytes after the
/// header.
pub proof fn lemma_read_frame_roundtrip(kind: FrameType, payload: Seq<u8>, reads: Seq<HeaderRead>)
    requires
        payload.len() <= MAX_FRAME_PAYLOAD_BYTES,
        header_reads_fit(seq![], reads),
        reads_succeeded(reads),
        read_bytes(reads) == spec_encode_frame(kind, payload)->Ok_0.subrange(
            0,
            FRAME_HEADER_BYTES as int,
        ),
    ensures
        frame_reads_fit(reads, Ok(payload)),
        spec_read_frame(reads, Ok(payload)) == Ok::<Option<(FrameType, Seq<u8>)>, FrameError>(
            Some((kind, payload)),
        ),
{
    lemma_frame_header_roundtrip(kind, payload);
    lemma_header_reads_bytes(seq![], reads);
    assert(Seq::<u8>::empty() + read_bytes(reads) =~= read_bytes(reads));
}

/// Law: the header of an encoded frame decodes to the frame's type and
/// payload length, and the payload follows the header unchanged.
pub proof fn lemma_frame_header_roundtrip(kind: FrameType, payload: Seq<u8>)
    requires
        payload.len() <= MAX_FRAME_PAYLOAD_BYTES,
    ensures
        spec_encode_frame(kind, payload) matches Ok(bytes) && spec_parse_header(
            bytes.subrange(0, FRAME_HEADER_BYTES as int),
        ) == Ok::<(FrameType, nat), FrameError>((kind, payload.len())) && bytes.subrange(
            FRAME_HEADER_BYTES as int,
            bytes.len() as int,
        ) == payload,
{
    let n = payload.len();
    let bytes = spec_frame_bytes(kind, payload);
    let h = bytes.subrange(0, FRAME_HEADER_BYTES as int);
    assert(n / 0x1000000 == 0 && n / 0x10000 == 0) by (nonlinear_arith)
        requires
            n <= 16384,
    ;
    assert((n / 0x100) % 0x100 == n / 0x100 && (n / 0x100) * 0x100 + n % 0x100 == n)
        by (nonlinear_arith)
        requires
            n <= 16384,
    ;
    assert(h[2] == 0 && h[3] == 0);
    assert(spec_be_u32(h[2], h[3], h[4], h[5]) == n);
    match spec_type_of_byte(spec_type_byte(kind)) {
        Some(k) => assert(k == kind),
        None => assert(false),
    }
    assert(bytes.subrange(FRAME_HEADER_BYTES as int, bytes.len() as int) =~= payload);
}

} // verus!
