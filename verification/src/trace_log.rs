use vstd::prelude::*;

verus! {

/// `std::io::Error`, as returned by the compression calls.
#[verifier::external_type_specification]
#[verifier::external_body]
pub struct ExIoError(std::io::Error);

/// The zstd frame that `zstd::encode_all` produces for `data` at compression `level`.
pub uninterp spec fn zstd_compressed(data: Seq<u8>, level: i32) -> Seq<u8>;

/// What `zstd::decode_all` yields for `data`: `None` where it reports an error.
pub uninterp spec fn zstd_decompressed(data: Seq<u8>) -> Option<Seq<u8>>;

/// Calls `zstd::encode_all` on the bytes of `data` at `level`. It succeeds: reading a slice
/// and writing into a `Vec` cannot fail, and zstd clamps the level into its valid range, so
/// the one failure left is the zstd library failing to allocate its working memory, which
/// this contract, like every allocation in the library, leaves aside. The result is the zstd
/// frame named `zstd_compressed(data, level)`, and, zstd being lossless, that frame
/// decompresses to `data`.
#[verifier::external_body]
pub(crate) fn zstd_encode(data: &[u8], level: i32) -> (r: Result<Vec<u8>, std::io::Error>)
    ensures
        r is Ok,
        r matches Ok(v) ==> v@ == zstd_compressed(data@, level),
        r matches Ok(v) ==> zstd_decompressed(v@) == Some(data@),
{
    zstd::encode_all(data, level)
}

/// Calls `zstd::decode_all` on the bytes of `data`. Its outcome, the decompressed bytes or
/// a failure, is named `zstd_decompressed(data)`.
#[verifier::external_body]
pub(crate) fn zstd_decode(data: &[u8]) -> (r: Result<Vec<u8>, std::io::Error>)
    ensures
        r matches Ok(v) ==> zstd_decompressed(data@) == Some(v@),
        r is Err ==> zstd_decompressed(data@) is None,
{
    zstd::decode_all(data)
}

/// The compression level used for events.
pub const COMPRESSION_LEVEL: i32 = 3;

/// The four little-endian bytes of `n` modulo 2^32.
pub open spec fn le32_bytes(n: nat) -> Seq<u8> {
    seq![(n % 256) as u8, ((n / 256) % 256) as u8, ((n / 65536) % 256) as u8, ((n / 16777216) % 256) as u8]
}

/// The little-endian 32-bit value of the four bytes at `pos`.
pub open spec fn le32_at(bytes: Seq<u8>, pos: int) -> nat {
    (bytes[pos] as nat) + 256 * (bytes[pos + 1] as nat) + 65536 * (bytes[pos + 2] as nat) + 16777216 * (
    bytes[pos + 3] as nat)
}

/// One record on disk: the payload length as a 32-bit little-endian number (the length is
/// cut to 32 bits, as a cast does), one byte that is 1 for a compressed payload and 0
/// otherwise, then the payload.
pub open spec fn frame_bytes(payload: Seq<u8>, compressed: bool) -> Seq<u8> {
    le32_bytes(payload.len() % 0x1_0000_0000) + seq![if compressed { 1u8 } else { 0u8 }] + payload
}

/// The bytes of a list of records written one after the other.
pub open spec fn frames_bytes(frames: Seq<(bool, Seq<u8>)>) -> Seq<u8>
    decreases frames.len(),
{
    if frames.len() == 0 {
        Seq::empty()
    } else {
        frame_bytes(frames[0].1, frames[0].0) + frames_bytes(frames.drop_first())
    }
}

/// Why reading the records of a log stopped short.
#[derive(Debug, Clone, Copy, PartialEq, Eq, Structural)]
pub enum LogError {
    /// A length was read but the compression flag after it is missing.
    MissingFlag,
    /// The payload is shorter than its length says.
    TruncatedData,
    /// The compressor reported an error.
    Compress,
    /// A payload marked compressed did not decompress.
    Decompress,
}

/// The description of each error.
pub open spec fn log_error_message(e: LogError) -> Seq<char> {
    match e {
        LogError::MissingFlag => "Failed to read compression flag"@,
        LogError::TruncatedData => "Failed to read event data"@,
        LogError::Compress => "Failed to compress event"@,
        LogError::Decompress => "Failed to decompress event"@,
    }
}

impl LogError {
    /// A description of the error.
    pub fn message(&self) -> (r: &'static str)
        ensures
            r@ == log_error_message(*self),
    {
        match self {
            LogError::MissingFlag => "Failed to read compression flag",
            LogError::TruncatedData => "Failed to read event data",
            LogError::Compress => "Failed to compress event",
            LogError::Decompress => "Failed to decompress event",
        }
    }
}

/// The records at the start of `bytes`: reading stops cleanly where fewer than four bytes
/// remain (a partial length counts as the end), and with an error where a length is not
/// followed by a flag byte or by as many payload bytes as it says.
pub open spec fn parse_frames(bytes: Seq<u8>) -> (Seq<(bool, Seq<u8>)>, Option<LogError>)
    decreases bytes.len(),
{
    if bytes.len() < 4 {
        (Seq::empty(), None)
    } else if bytes.len() < 5 {
        (Seq::empty(), Some(LogError::MissingFlag))
    } else if bytes.len() - 5 < le32_at(bytes, 0) {
        (Seq::empty(), Some(LogError::TruncatedData))
    } else {
        let n = le32_at(bytes, 0) as int;
        let rest = parse_frames(bytes.subrange(5 + n, bytes.len() as int));
        (seq![(bytes[4] != 0, bytes.subrange(5, 5 + n))] + rest.0, rest.1)
    }
}

/// How many records a scan of lengths alone finds: each length is followed by a skip of
/// one flag byte and the payload, and the scan ends where fewer than four bytes remain.
pub open spec fn count_frames(bytes: Seq<u8>) -> nat
    decreases bytes.len(),
{
    if bytes.len() < 4 {
        0
    } else {
        let next = 5 + le32_at(bytes, 0);
        if next >= bytes.len() {
            1
        } else {
            1 + count_frames(bytes.subrange(next as int, bytes.len() as int))
        }
    }
}

/// A record read back from a log.
pub struct Frame {
    pub compressed: bool,
    pub data: Vec<u8>,
}

impl View for Frame {
    type V = (bool, Seq<u8>);

    open spec fn view(&self) -> (bool, Seq<u8>) {
        (self.compressed, self.data@)
    }
}

/// The records read from a log, with the error that stopped the reading, if any.
pub struct FrameScan {
    pub frames: Vec<Frame>,
    pub error: Option<LogError>,
}

/// The events' serialized forms read from a log, with the error that stopped the reading, if any.
pub struct DecodedLog {
    pub payloads: Vec<Vec<u8>>,
    pub error: Option<LogError>,
}

proof fn lemma_le32_roundtrip(n: nat)
    requires
        n < 0x1_0000_0000,
    ensures
        le32_at(le32_bytes(n), 0) == n,
{
    let b = le32_bytes(n);
    assert(b[0] as nat == n % 256);
    assert(b[1] as nat == (n / 256) % 256);
    assert(b[2] as nat == (n / 65536) % 256);
    assert(b[3] as nat == (n / 16777216) % 256);
    assert((n % 256) + 256 * ((n / 256) % 256) + 65536 * ((n / 65536) % 256) + 16777216 * ((n / 16777216)
        % 256) == n) by (nonlinear_arith)
        requires
            n < 0x1_0000_0000,
    ;
}

/// Reading back one record in front of other bytes gives that record, then what the other
/// bytes give.
pub proof fn lemma_parse_frame_then_rest(payload: Seq<u8>, compressed: bool, rest: Seq<u8>)
    requires
        payload.len() < 0x1_0000_0000,
    ensures
        parse_frames(frame_bytes(payload, compressed) + rest) == (
            seq![(compressed, payload)] + parse_frames(rest).0,
            parse_frames(rest).1,
        ),
        count_frames(frame_bytes(payload, compressed) + rest) == 1 + count_frames(rest),
{
    let b = frame_bytes(payload, compressed) + rest;
    lemma_le32_roundtrip(payload.len());
    assert(le32_at(b, 0) == le32_at(le32_bytes(payload.len()), 0));
    let n = payload.len() as int;
    assert(b.subrange(5 + n, b.len() as int) =~= rest);
    assert(b.subrange(5, 5 + n) =~= payload);
    assert(b[4] != 0 <==> compressed);
    if 5 + n >= b.len() {
        assert(rest.len() == 0);
    }
}

/// Every list of records whose payloads are shorter than 2^32 bytes reads back as itself,
/// without error, and a length scan counts exactly its records.
pub proof fn lemma_frames_roundtrip(frames: Seq<(bool, Seq<u8>)>)
    requires
        forall|i: int| 0 <= i < frames.len() ==> (#[trigger] frames[i]).1.len() < 0x1_0000_0000,
    ensures
        parse_frames(frames_bytes(frames)) == (frames, None::<LogError>),
        count_frames(frames_bytes(frames)) == frames.len(),
    decreases frames.len(),
{
    if frames.len() == 0 {
        assert(frames =~= Seq::<(bool, Seq<u8>)>::empty());
    } else {
        let rest = frames.drop_first();
        assert forall|i: int| 0 <= i < rest.len() implies (#[trigger] rest[i]).1.len() < 0x1_0000_0000 by {
            assert(rest[i] == frames[i + 1]);
        }
        lemma_frames_roundtrip(rest);
        assert(frames[0].1.len() < 0x1_0000_0000);
        lemma_parse_frame_then_rest(frames[0].1, frames[0].0, frames_bytes(rest));
        assert(seq![(frames[0].0, frames[0].1)] + rest =~= frames);
    }
}

/// The record bytes for `payload` with the given compression flag.
pub fn encode_frame(payload: &[u8], compressed: bool) -> (r: Vec<u8>)
    ensures
        r@ == frame_bytes(payload@, compressed),
{
    let plen = payload.len() as u64;
    let len = plen as u32;
    proof {
        assert(len == plen % 0x1_0000_0000) by (bit_vector)
            requires
                len == plen as u32,
        ;
    }
    let mut r: Vec<u8> = Vec::new();
    r.push((len % 256) as u8);
    r.push(((len / 256) % 256) as u8);
    r.push(((len / 65536) % 256) as u8);
    r.push(((len / 16777216) % 256) as u8);
    r.push(if compressed { 1u8 } else { 0u8 });
    let n = payload.len();
    for i in 0..n
        invariant
            n == payload@.len(),
            r@ == le32_bytes(len as nat) + seq![if compressed { 1u8 } else { 0u8 }] + payload@.subrange(0, i as int),
    {
        r.push(payload[i]);
        proof {
            assert(payload@.subrange(0, i + 1) =~= payload@.subrange(0, i as int).push(payload@[i as int]));
        }
    }
    proof {
        assert(payload@.subrange(0, n as int) =~= payload@);
        assert(r@ =~= frame_bytes(payload@, compressed));
    }
    r
}

fn read_le32(bytes: &[u8], pos: usize) -> (r: u32)
    requires
        pos + 4 <= bytes@.len(),
    ensures
        r as nat == le32_at(bytes@, pos as int),
{
    let b0 = bytes[pos] as u32;
    let b1 = bytes[pos + 1] as u32;
    let b2 = bytes[pos + 2] as u32;
    let b3 = bytes[pos + 3] as u32;
    assert(b0 + 256 * b1 + 65536 * b2 + 16777216 * b3 < 0x1_0000_0000) by (nonlinear_arith)
        requires
            b0 < 256,
            b1 < 256,
            b2 < 256,
            b3 < 256,
    ;
    b0 + 256 * b1 + 65536 * b2 + 16777216 * b3
}

fn copy_range(bytes: &[u8], start: usize, end: usize) -> (out: Vec<u8>)
    requires
        start <= end <= bytes@.len(),
    ensures
        out@ == bytes@.subrange(start as int, end as int),
{
    vstd::slice::slice_to_vec(vstd::slice::slice_subrange(bytes, start, end))
}

/// Reads the records of a log's bytes.
pub fn scan_frames(bytes: &[u8]) -> (r: FrameScan)
    ensures
        r.frames@.map_values(|f: Frame| f@) == parse_frames(bytes@).0,
        r.error == parse_frames(bytes@).1,
{
    let len = bytes.len();
    let mut frames: Vec<Frame> = Vec::new();
    let mut pos: usize = 0;
    proof {
        assert(bytes@.subrange(0, len as int) =~= bytes@);
        assert(frames@.map_values(|f: Frame| f@) + parse_frames(bytes@).0 =~= parse_frames(bytes@).0);
    }
    loop
        invariant
            len == bytes@.len(),
            pos <= len,
            parse_frames(bytes@) == (
                frames@.map_values(|f: Frame| f@) + parse_frames(bytes@.subrange(pos as int, len as int)).0,
                parse_frames(bytes@.subrange(pos as int, len as int)).1,
            ),
        decreases len - pos,
    {
        let ghost tail = bytes@.subrange(pos as int, len as int);
        if len - pos < 4 {
            assert(frames@.map_values(|f: Frame| f@) + parse_frames(tail).0 =~= frames@.map_values(|f: Frame| f@));
            return FrameScan { frames, error: None };
        }
        let n = read_le32(bytes, pos) as usize;
        assert(le32_at(tail, 0) == le32_at(bytes@, pos as int));
        if len - pos < 5 {
            assert(frames@.map_values(|f: Frame| f@) + parse_frames(tail).0 =~= frames@.map_values(|f: Frame| f@));
            return FrameScan { frames, error: Some(LogError::MissingFlag) };
        }
        let compressed = bytes[pos + 4] != 0;
        if len - pos - 5 < n {
            assert(frames@.map_values(|f: Frame| f@) + parse_frames(tail).0 =~= frames@.map_values(|f: Frame| f@));
            return FrameScan { frames, error: Some(LogError::TruncatedData) };
        }
        let data = copy_range(bytes, pos + 5, pos + 5 + n);
        let ghost before = frames@.map_values(|f: Frame| f@);
        frames.push(Frame { compressed, data });
        proof {
            assert(tail.subrange(5 + n, tail.len() as int) =~= bytes@.subrange(pos + 5 + n, len as int));
            assert(tail.subrange(5, 5 + n) =~= data@);
            assert(frames@.map_values(|f: Frame| f@) =~= before.push((compressed, data@)));
            assert(before + parse_frames(tail).0 =~= frames@.map_values(|f: Frame| f@) + parse_frames(
                bytes@.subrange(pos + 5 + n, len as int)).0);
        }
        pos = pos + 5 + n;
    }
}

proof fn lemma_count_bounded(bytes: Seq<u8>)
    ensures
        count_frames(bytes) <= bytes.len(),
    decreases bytes.len(),
{
    if bytes.len() >= 4 {
        let next = 5 + le32_at(bytes, 0);
        if next < bytes.len() {
            lemma_count_bounded(bytes.subrange(next as int, bytes.len() as int));
        }
    }
}

/// Counts the records of a log's bytes by their lengths alone.
pub fn count_records(bytes: &[u8]) -> (r: u64)
    ensures
        r == count_frames(bytes@),
{
    let len = bytes.len();
    let mut count: u64 = 0;
    let mut pos: usize = 0;
    proof {
        assert(bytes@.subrange(0, len as int) =~= bytes@);
        lemma_count_bounded(bytes@);
    }
    while len - pos >= 4
        invariant
            len == bytes@.len(),
            pos <= len,
            count + count_frames(bytes@.subrange(pos as int, len as int)) == count_frames(bytes@),
            count_frames(bytes@) <= len,
        decreases len - pos,
    {
        let ghost tail = bytes@.subrange(pos as int, len as int);
        let n = read_le32(bytes, pos) as usize;
        assert(le32_at(tail, 0) == le32_at(bytes@, pos as int));
        proof {
            if 5 + n < tail.len() {
                lemma_count_bounded(tail.subrange(5 + n, tail.len() as int));
            }
        }
        count = count + 1;
        if len - pos < 5 || len - pos - 5 <= n {
            assert(count == count_frames(bytes@));
            return count;
        }
        proof {
            assert(tail.subrange(5 + n, tail.len() as int) =~= bytes@.subrange(pos + 5 + n, len as int));
        }
        pos = pos + 5 + n;
    }
    count
}

/// What a record's payload reads back as: itself, or, if it is marked compressed, what it
/// decompresses to (`None` where decompression fails).
pub open spec fn decoded_payload(frame: (bool, Seq<u8>)) -> Option<Seq<u8>> {
    if frame.0 {
        zstd_decompressed(frame.1)
    } else {
        Some(frame.1)
    }
}

/// The payloads of records read in order, stopping with `Decompress` at the first that does
/// not decompress, or else with the error the record reading stopped with.
pub open spec fn decode_frames(frames: Seq<(bool, Seq<u8>)>, err: Option<LogError>) -> (Seq<Seq<u8>>, Option<LogError>)
    decreases frames.len(),
{
    if frames.len() == 0 {
        (Seq::empty(), err)
    } else {
        match decoded_payload(frames[0]) {
            None => (Seq::empty(), Some(LogError::Decompress)),
            Some(p) => {
                let rest = decode_frames(frames.drop_first(), err);
                (seq![p] + rest.0, rest.1)
            },
        }
    }
}

/// What reading a whole log gives: the serialized events, and the error that stopped it, if any.
pub open spec fn decode_log(bytes: Seq<u8>) -> (Seq<Seq<u8>>, Option<LogError>) {
    decode_frames(parse_frames(bytes).0, parse_frames(bytes).1)
}

/// The payload that a log stores for a serialized event.
pub open spec fn stored_payload(serialized: Seq<u8>, compress: bool) -> Seq<u8> {
    if compress {
        zstd_compressed(serialized, COMPRESSION_LEVEL)
    } else {
        serialized
    }
}

/// `frame` is a record that appending `serialized` to a log with the given compression
/// setting writes: the stored payload framed with the flag, where a compressed payload is
/// one that decompresses to `serialized`.
pub open spec fn appended_frame(serialized: Seq<u8>, compress: bool, frame: Seq<u8>) -> bool {
    &&& frame == frame_bytes(stored_payload(serialized, compress), compress)
    &&& compress ==> zstd_decompressed(stored_payload(serialized, compress)) == Some(serialized)
}

/// The bytes of several records written one after the other.
pub open spec fn concat_all(parts: Seq<Seq<u8>>) -> Seq<u8>
    decreases parts.len(),
{
    if parts.len() == 0 {
        Seq::empty()
    } else {
        parts[0] + concat_all(parts.drop_first())
    }
}

proof fn lemma_read_back_one_append(event: Seq<u8>, compress: bool, frame: Seq<u8>, rest: Seq<u8>)
    requires
        appended_frame(event, compress, frame),
        stored_payload(event, compress).len() < 0x1_0000_0000,
    ensures
        decode_log(frame + rest) == (seq![event] + decode_log(rest).0, decode_log(rest).1),
        count_frames(frame + rest) == 1 + count_frames(rest),
{
    let p = stored_payload(event, compress);
    lemma_parse_frame_then_rest(p, compress, rest);
    let parsed = parse_frames(frame + rest);
    assert(parsed.0[0] == (compress, p));
    assert(parsed.0.drop_first() =~= parse_frames(rest).0);
    assert(decoded_payload((compress, p)) == Some(event));
}

/// A log holds what was appended to it: the records that successive appends of serialized
/// events write (with stored payloads shorter than 2^32 bytes) read back as exactly those
/// events, in order and without error, and a length scan counts one record per event.
pub proof fn lemma_log_reads_back_appends(events: Seq<Seq<u8>>, frames: Seq<Seq<u8>>, compress: bool)
    requires
        frames.len() == events.len(),
        forall|i: int| 0 <= i < events.len() ==> appended_frame(events[i], compress, #[trigger] frames[i]),
        forall|i: int| 0 <= i < events.len() ==> #[trigger] stored_payload(events[i], compress).len() < 0x1_0000_0000,
    ensures
        decode_log(concat_all(frames)) == (events, None::<LogError>),
        count_frames(concat_all(frames)) == events.len(),
    decreases events.len(),
{
    if events.len() == 0 {
        assert(events =~= Seq::<Seq<u8>>::empty());
        assert(concat_all(frames).len() == 0);
    } else {
        let es = events.drop_first();
        let fs = frames.drop_first();
        assert forall|i: int| 0 <= i < es.len() implies appended_frame(es[i], compress, #[trigger] fs[i]) by {
            assert(appended_frame(events[i + 1], compress, frames[i + 1]));
        }
        assert forall|i: int| 0 <= i < es.len() implies #[trigger] stored_payload(es[i], compress).len() < 0x1_0000_0000 by {
            assert(stored_payload(events[i + 1], compress).len() < 0x1_0000_0000);
        }
        lemma_log_reads_back_appends(es, fs, compress);
        assert(appended_frame(events[0], compress, frames[0]));
        assert(stored_payload(events[0], compress).len() < 0x1_0000_0000);
        assert(concat_all(frames) == frames[0] + concat_all(fs));
        lemma_read_back_one_append(events[0], compress, frames[0], concat_all(fs));
        assert(seq![events[0]] + es =~= events);
    }
}

/// The bookkeeping of an append-only trace log: where it lives, how many events it holds,
/// and whether it compresses new events.
pub struct TraceLog {
    path: String,
    event_count: u64,
    compress: bool,
}

impl TraceLog {
    pub closed spec fn spec_path(&self) -> Seq<char> {
        self.path@
    }

    pub closed spec fn spec_event_count(&self) -> u64 {
        self.event_count
    }

    pub closed spec fn spec_compress(&self) -> bool {
        self.compress
    }

    /// A new, empty log at `path`.
    pub fn create(path: String, compress: bool) -> (r: Self)
        ensures
            r.spec_path() == path@,
            r.spec_event_count() == 0,
            r.spec_compress() == compress,
    {
        TraceLog { path, event_count: 0, compress }
    }

    /// An existing log at `path` whose file holds `existing`: its events are counted by
    /// their lengths, and new events are compressed.
    pub fn open(path: String, existing: &[u8]) -> (r: Self)
        ensures
            r.spec_path() == path@,
            r.spec_event_count() == count_frames(existing@),
            r.spec_compress(),
    {
        let event_count = count_records(existing);
        TraceLog { path, event_count, compress: true }
    }

    /// The record to write for an event whose serialized form is `serialized`: compressed if
    /// the log compresses, then framed.
    pub fn encode_event(&self, serialized: &[u8]) -> (r: Result<Vec<u8>, LogError>)
        ensures
            r is Ok,
            r matches Ok(frame) ==> appended_frame(serialized@, self.spec_compress(), frame@),
    {
        if self.compress {
            match zstd_encode(serialized, COMPRESSION_LEVEL) {
                Ok(data) => Ok(encode_frame(data.as_slice(), true)),
                Err(_) => Err(LogError::Compress),
            }
        } else {
            Ok(encode_frame(serialized, false))
        }
    }

    /// Counts an event whose record was written, and returns its number (numbers start at 1).
    pub fn record_appended(&mut self) -> (id: u64)
        requires
            old(self).spec_event_count() < u64::MAX,
        ensures
            id == old(self).spec_event_count() + 1,
            final(self).spec_event_count() == id,
            final(self).spec_path() == old(self).spec_path(),
            final(self).spec_compress() == old(self).spec_compress(),
    {
        self.event_count = self.event_count + 1;
        self.event_count
    }

    /// Get the number of events in the log
    pub fn event_count(&self) -> (r: u64)
        ensures
            r == self.spec_event_count(),
    {
        self.event_count
    }

    /// Get the path to the trace log file
    pub fn path(&self) -> (r: &str)
        ensures
            r@ == self.spec_path(),
    {
        self.path.as_str()
    }

    /// Whether new events are compressed.
    pub fn compress(&self) -> (r: bool)
        ensures
            r == self.spec_compress(),
    {
        self.compress
    }

    /// The serialized events of a log file's bytes, in order, with the error that stopped the
    /// reading, if any.
    pub fn decode_events(bytes: &[u8]) -> (r: DecodedLog)
        ensures
            (r.payloads@.map_values(|p: Vec<u8>| p@), r.error) == decode_log(bytes@),
    {
            let scan = scan_frames(bytes);
        let ghost frames = parse_frames(bytes@).0;
        let mut payloads: Vec<Vec<u8>> = Vec::new();
        let n = scan.frames.len();
        let mut i: usize = 0;
        proof {
            assert(frames.len() == n);
            assert(frames.subrange(0, n as int) =~= frames);
            let rest = decode_frames(frames, scan.error);
            assert(payloads@.map_values(|p: Vec<u8>| p@) + rest.0 =~= rest.0);
        }
        while i < n
            invariant
                n == scan.frames@.len(),
                scan.frames@.map_values(|f: Frame| f@) == frames,
                scan.error == parse_frames(bytes@).1,
                i <= n,
                payloads@.len() == i,
                decode_log(bytes@) == ({
                    let rest = decode_frames(frames.subrange(i as int, n as int), scan.error);
                    (payloads@.map_values(|p: Vec<u8>| p@) + rest.0, rest.1)
                }),
            decreases n - i,
        {
            let frame = &scan.frames[i];
            let ghost tail = frames.subrange(i as int, n as int);
            assert(tail[0] == frame@);
            assert(tail.drop_first() =~= frames.subrange(i + 1, n as int));
            let payload = if frame.compressed {
                match zstd_decode(frame.data.as_slice()) {
                    Ok(p) => p,
                    Err(_) => {
                        assert(payloads@.map_values(|p: Vec<u8>| p@) + Seq::<Seq<u8>>::empty() =~= payloads@.map_values(|p: Vec<u8>| p@));
                        return DecodedLog { payloads, error: Some(LogError::Decompress) };
                    },
                }
            } else {
                copy_range(frame.data.as_slice(), 0, frame.data.len())
            };
            proof {
                assert(frame.data@.subrange(0, frame.data@.len() as int) =~= frame.data@);
            }
            let ghost before = payloads@.map_values(|p: Vec<u8>| p@);
            payloads.push(payload);
            proof {
                assert(payloads@.map_values(|p: Vec<u8>| p@) =~= before.push(payload@));
                let rest = decode_frames(frames.subrange(i + 1, n as int), scan.error);
                assert(before + (seq![payload@] + rest.0) =~= payloads@.map_values(|p: Vec<u8>| p@) + rest.0);
            }
            i = i + 1;
        }
        proof {
            assert(frames.subrange(n as int, n as int) =~= Seq::<(bool, Seq<u8>)>::empty());
            assert(payloads@.map_values(|p: Vec<u8>| p@) + Seq::<Seq<u8>>::empty() =~= payloads@.map_values(|p: Vec<u8>| p@));
        }
        DecodedLog { payloads, error: scan.error }
    }
}

} // verus!
