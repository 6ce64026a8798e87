//! CSV ingress and egress around the engine: a parser that frames raw
//! byte buffers into CSV records for a collection handle, and an
//! encoder that renders Z-set entries as CSV lines into bounded
//! buffers for an output consumer.

use vstd::prelude::*;
use crate::data::DBData;
use crate::zset::OrdZSet;

verus! {

/// CSV format parser.
pub struct CsvInputFormat;

impl CsvInputFormat {
    /// Stable format name.
    pub fn name(&self) -> (r: &'static str)
        ensures
            r@ == "csv"@,
    {
        "csv"
    }
}

/// The CSV parser takes no options.
pub struct CsvParserConfig {}

/// CSV format encoder.
pub struct CsvOutputFormat;

impl CsvOutputFormat {
    /// Stable format name.
    pub fn name(&self) -> (r: &'static str)
        ensures
            r@ == "csv"@,
    {
        "csv"
    }
}

/// Records per output buffer when the host does not say otherwise.
pub fn default_buffer_size_records() -> (r: usize)
    ensures
        r == 10000,
{
    10000
}

/// Encoder options: how many records one output buffer may hold.
pub struct CsvEncoderConfig {
    pub buffer_size_records: usize,
}

impl Default for CsvEncoderConfig {
    fn default() -> (r: Self)
        ensures
            r.buffer_size_records == 10000,
    {
        CsvEncoderConfig { buffer_size_records: 10000 }
    }
}

/// A collection handle that accepts framed records: the host
/// implements it to deserialize and route them.
pub trait DeCollectionStream {
    /// The records accepted so far.
    spec fn records(&self) -> Seq<Seq<u8>>;

    /// How many batches were completed so far.
    spec fn flushes(&self) -> nat;

    /// Accepts one record, or rejects it leaving the handle unchanged.
    fn insert(&mut self, record: &[u8]) -> (r: Result<(), ()>)
        ensures
            r is Ok ==> final(self).records() == old(self).records().push(record@),
            r is Err ==> final(self).records() == old(self).records(),
            final(self).flushes() == old(self).flushes(),
    ;

    /// Completes a batch of records.
    fn flush(&mut self)
        ensures
            final(self).records() == old(self).records(),
            final(self).flushes() == old(self).flushes() + 1,
    ;
}

/// A collection handle that keeps every record, for hosts that buffer.
pub struct VecSink {
    pub recs: Vec<Vec<u8>>,
    pub batches: Ghost<nat>,
}

impl VecSink {
    pub fn new() -> (r: Self)
        ensures
            r.records() == Seq::<Seq<u8>>::empty(),
            r.flushes() == 0,
    {
        let r = VecSink { recs: Vec::new(), batches: Ghost(0) };
        proof {
            assert(r.recs.deep_view() =~= Seq::<Seq<u8>>::empty());
        }
        r
    }
}

impl DeCollectionStream for VecSink {
    open spec fn records(&self) -> Seq<Seq<u8>> {
        self.recs.deep_view()
    }

    open spec fn flushes(&self) -> nat {
        self.batches@
    }

    fn insert(&mut self, record: &[u8]) -> (r: Result<(), ()>) {
        let copy = vstd::slice::slice_to_vec(record);
        self.recs.push(copy);
        proof {
            assert(self.recs.deep_view() =~~= old(self).recs.deep_view().push(record@));
        }
        Ok(())
    }

    fn flush(&mut self) {
        self.batches = Ghost(self.batches@ + 1);
    }
}

/// A collection handle that rejects every record, for hosts that have
/// stopped accepting input.
pub struct RejectSink {
    pub batches: Ghost<nat>,
}

impl RejectSink {
    pub fn new() -> (r: Self)
        ensures
            r.flushes() == 0,
    {
        RejectSink { batches: Ghost(0) }
    }
}

impl DeCollectionStream for RejectSink {
    open spec fn records(&self) -> Seq<Seq<u8>> {
        Seq::empty()
    }

    open spec fn flushes(&self) -> nat {
        self.batches@
    }

    fn insert(&mut self, record: &[u8]) -> (r: Result<(), ()>) {
        Err(())
    }

    fn flush(&mut self) {
        self.batches = Ghost(self.batches@ + 1);
    }
}

/// A parse failure: the event it happened at and the record's bytes.
pub struct ParseError {
    pub event_number: u64,
    pub record: Vec<u8>,
}

/// Outcome of one framing call of the CSV reader.
pub enum CsvReadOutcome {
    End,
    Record,
    InputEmpty,
    OutputFull,
    OutputEndsFull,
}

#[verifier::external_type_specification]
#[verifier::external_body]
pub struct ExCsvCoreReader(csv_core::Reader);

/// Relies on csv_core::Reader::new: a reader with the default
/// configuration.
#[verifier::external_body]
fn new_csv_reader() -> csv_core::Reader {
    csv_core::Reader::new()
}

/// Relies on csv_core::Reader::read_record: frames at most one CSV
/// record from the front of `input`, reporting how far it read; it
/// never reads past the buffer and never fails.
#[verifier::external_body]
fn read_record_step(
    rdr: &mut csv_core::Reader,
    input: &[u8],
    output: &mut Vec<u8>,
    ends: &mut Vec<usize>,
) -> (r: (CsvReadOutcome, usize))
    ensures
        r.1 <= input@.len(),
{
    let (res, nin, _nout, _nend) = rdr.read_record(input, output.as_mut_slice(), ends.as_mut_slice());
    let out = match res {
        csv_core::ReadRecordResult::End => CsvReadOutcome::End,
        csv_core::ReadRecordResult::Record => CsvReadOutcome::Record,
        csv_core::ReadRecordResult::InputEmpty => CsvReadOutcome::InputEmpty,
        csv_core::ReadRecordResult::OutputFull => CsvReadOutcome::OutputFull,
        csv_core::ReadRecordResult::OutputEndsFull => CsvReadOutcome::OutputEndsFull,
    };
    (out, nin)
}

/// Position after the last newline of a buffer, zero when it has none.
pub open spec fn split_nl(d: Seq<u8>) -> int
    decreases d.len(),
{
    if d.len() == 0 {
        0
    } else if d.last() == 10u8 {
        d.len() as int
    } else {
        split_nl(d.drop_last())
    }
}

/// Finds the position after the last newline of a buffer.
pub fn split_on_newline(data: &[u8]) -> (r: usize)
    ensures
        r as int == split_nl(data@),
        r <= data@.len(),
{
    let n = data.len();
    let mut j: usize = n;
    proof {
        assert(data@.take(n as int) =~= data@);
    }
    while j > 0
        invariant
            j <= n,
            n == data@.len(),
            split_nl(data@) == split_nl(data@.take(j as int)),
        decreases j,
    {
        proof {
            assert(data@.take(j as int).last() == data@[j as int - 1]);
            assert(data@.take(j as int).drop_last() =~= data@.take(j as int - 1));
        }
        if data[j - 1] == 10u8 {
            return j;
        }
        j = j - 1;
    }
    proof {
        assert(data@.take(0) =~= Seq::<u8>::empty());
    }
    0
}

/// Every record the parser hands on is one contiguous frame of the
/// parsed buffer.
pub open spec fn frames_of(recs: Seq<Seq<u8>>, from: int, buffer: Seq<u8>) -> bool {
    forall|j: int|
        from <= j < recs.len() ==> exists|s: int, e: int|
            0 <= s <= e <= buffer.len() && #[trigger] recs[j] == buffer.subrange(s, e)
}

/// The record texts a list of parse failures carries.
pub open spec fn err_records(es: Seq<ParseError>) -> Seq<Seq<u8>> {
    es.map_values(|e: ParseError| e.record@)
}

/// One failure per rejected record, in buffer order: every failure
/// carries a frame of the buffer, and the event numbers are strictly
/// increasing within the range of events the run numbered.
pub open spec fn errors_wf(es: Seq<ParseError>, lo: int, hi: int, buffer: Seq<u8>) -> bool {
    &&& frames_of(err_records(es), 0, buffer)
    &&& forall|i: int, j: int|
        0 <= i < j < es.len() ==> (#[trigger] es[i]).event_number < (
        #[trigger] es[j]).event_number
    &&& forall|j: int| 0 <= j < es.len() ==> lo < (#[trigger] es[j]).event_number <= hi
}

/// An attempt log: the record framed by each attempt, in order, and
/// whether the collection handle accepted it.
pub open spec fn log_tiles(log: Seq<(Seq<u8>, bool)>, buffer: Seq<u8>, from: int) -> bool
    decreases log.len(),
{
    if log.len() == 0 {
        0 <= from <= buffer.len()
    } else {
        &&& 0 <= from
        &&& from + log[0].0.len() <= buffer.len()
        &&& log[0].0 == buffer.subrange(from, from + log[0].0.len())
        &&& log_tiles(log.skip(1), buffer, from + log[0].0.len())
    }
}

/// The records of the accepted attempts, in order.
pub open spec fn accepted_of(log: Seq<(Seq<u8>, bool)>) -> Seq<Seq<u8>>
    decreases log.len(),
{
    if log.len() == 0 {
        Seq::empty()
    } else {
        accepted_of(log.drop_last()) + if log.last().1 {
            seq![log.last().0]
        } else {
            Seq::<Seq<u8>>::empty()
        }
    }
}

/// The failures of the rejected attempts, in order, each carrying the
/// event number of its attempt.
pub open spec fn rejected_of(log: Seq<(Seq<u8>, bool)>, base: int) -> Seq<(Seq<u8>, int)>
    decreases log.len(),
{
    if log.len() == 0 {
        Seq::empty()
    } else {
        rejected_of(log.drop_last(), base) + if !log.last().1 {
            seq![(log.last().0, base + log.len())]
        } else {
            Seq::<(Seq<u8>, int)>::empty()
        }
    }
}

/// The (record, event number) pairs a failure list carries.
pub open spec fn err_pairs(es: Seq<ParseError>) -> Seq<(Seq<u8>, int)> {
    es.map_values(|e: ParseError| (e.record@, e.event_number as int))
}

/// Total bytes of the logged attempts.
pub open spec fn log_len(log: Seq<(Seq<u8>, bool)>) -> int
    decreases log.len(),
{
    if log.len() == 0 {
        0
    } else {
        log_len(log.drop_last()) + log.last().0.len()
    }
}

/// Appending one adjoining frame keeps the log tiling the buffer.
proof fn lemma_log_tiles_push(
    log: Seq<(Seq<u8>, bool)>,
    buffer: Seq<u8>,
    from: int,
    x: (Seq<u8>, bool),
)
    requires
        log_tiles(log, buffer, from),
        from + log_len(log) + x.0.len() <= buffer.len(),
        x.0 == buffer.subrange(from + log_len(log), from + log_len(log) + x.0.len()),
    ensures
        log_tiles(log.push(x), buffer, from),
        log_len(log.push(x)) == log_len(log) + x.0.len(),
    decreases log.len(),
{
    assert(log.push(x).drop_last() =~= log);
    if log.len() == 0 {
        assert(log.push(x)[0] == x);
        assert(log.push(x).skip(1) =~= Seq::<(Seq<u8>, bool)>::empty());
        assert(log_tiles(log.push(x).skip(1), buffer, from + x.0.len()));
        assert(log_tiles(log.push(x), buffer, from));
    } else {
        assert(log.push(x)[0] == log[0]);
        assert(log.push(x).skip(1) =~= log.skip(1).push(x));
        assert(log_len(log) == log_len(log.skip(1)) + log[0].0.len()) by {
            lemma_log_len_skip(log);
        }
        lemma_log_tiles_push(log.skip(1), buffer, from + log[0].0.len(), x);
        assert(log_tiles(log.skip(1).push(x), buffer, from + log[0].0.len()));
        assert(log_tiles(log.push(x), buffer, from));
    }
}

/// The byte total splits at the first attempt.
proof fn lemma_log_len_skip(log: Seq<(Seq<u8>, bool)>)
    requires
        log.len() > 0,
    ensures
        log_len(log) == log[0].0.len() + log_len(log.skip(1)),
    decreases log.len(),
{
    if log.len() == 1 {
        assert(log.skip(1) =~= Seq::<(Seq<u8>, bool)>::empty());
        assert(log.drop_last() =~= Seq::<(Seq<u8>, bool)>::empty());
    } else {
        lemma_log_len_skip(log.drop_last());
        assert(log.skip(1).drop_last() =~= log.drop_last().skip(1));
        assert(log.drop_last()[0] == log[0]);
        assert(log_len(log.skip(1)) == log_len(log.skip(1).drop_last()) + log.last().0.len());
    }
}

/// CSV format parser: frames incoming byte buffers into CSV records
/// and hands each to the collection handle.
pub struct CsvParser<S> {
    /// Handle to push parsed records to.
    pub input_stream: S,
    /// The tail of the last buffer after its final newline, kept for
    /// the next buffer.
    pub leftover: Vec<u8>,
    pub last_event_number: u64,
}

impl<S: DeCollectionStream> CsvParser<S> {
    pub fn new(input_stream: S) -> (r: Self)
        ensures
            r.input_stream == input_stream,
            r.leftover@ == Seq::<u8>::empty(),
            r.last_event_number == 0,
    {
        CsvParser { input_stream, leftover: Vec::new(), last_event_number: 0 }
    }

    /// Frames one whole buffer: each record found is a contiguous
    /// piece of it, handed to the collection handle in buffer order;
    /// the count of accepted records and the rejected records are
    /// returned.
    fn parse_from_buffer(&mut self, buffer: &[u8]) -> (r: (usize, Vec<ParseError>))
        requires
            old(self).last_event_number + buffer@.len() + 2 <= u64::MAX,
        ensures
            old(self).input_stream.records().is_prefix_of(final(self).input_stream.records()),
            frames_of(
                final(self).input_stream.records(),
                old(self).input_stream.records().len() as int,
                buffer@,
            ),
            r.0 == final(self).input_stream.records().len() - old(
                self,
            ).input_stream.records().len(),
            final(self).last_event_number == old(self).last_event_number + r.0 + r.1@.len(),
            errors_wf(
                r.1@,
                old(self).last_event_number as int,
                final(self).last_event_number as int,
                buffer@,
            ),
            buffer@.len() > 0 ==> final(self).last_event_number > old(self).last_event_number,
            final(self).input_stream.flushes() == old(self).input_stream.flushes() + 1,
            exists|log: Seq<(Seq<u8>, bool)>|
                #![trigger log_tiles(log, buffer@, 0)]
                {
                    &&& log_tiles(log, buffer@, 0)
                    &&& final(self).input_stream.records() == old(
                        self,
                    ).input_stream.records() + accepted_of(log)
                    &&& err_pairs(r.1@) == rejected_of(
                        log,
                        old(self).last_event_number as int,
                    )
                    &&& log.len() == r.0 + r.1@.len()
                },
            final(self).leftover == old(self).leftover,
    {
        let ghost base = self.input_stream.records();
        let ghost mut alog: Seq<(Seq<u8>, bool)> = Seq::empty();
        proof {
            assert(accepted_of(alog) =~= Seq::<Seq<u8>>::empty());
            assert(base + accepted_of(alog) =~= base);
        }
        let mut errors: Vec<ParseError> = Vec::new();
        let mut num_records: usize = 0;
        let mut csv_reader = new_csv_reader();
        let mut output: Vec<u8> = alloc_bytes(1024);
        let mut ends: Vec<usize> = alloc_ends(128);
        // `start` is where the record being framed begins; `at` is how
        // far the reader has consumed
        let mut start: usize = 0;
        let mut at: usize = 0;
        let n = buffer.len();
        let mut fuel: usize = 0;
        loop
            invariant
                start <= at <= n,
                n == buffer@.len(),
                fuel <= n + 2,
                base == old(self).input_stream.records(),
                base.is_prefix_of(self.input_stream.records()),
                frames_of(self.input_stream.records(), base.len() as int, buffer@),
                num_records == self.input_stream.records().len() - base.len(),
                self.last_event_number == old(self).last_event_number + num_records
                    + errors@.len(),
                old(self).last_event_number + buffer@.len() + 2 <= u64::MAX,
                num_records + errors@.len() <= fuel,
                errors_wf(
                    errors@,
                    old(self).last_event_number as int,
                    self.last_event_number as int,
                    buffer@,
                ),
                log_tiles(alog, buffer@, 0),
                log_len(alog) == start as int,
                alog.len() == num_records + errors@.len(),
                self.input_stream.records() == base + accepted_of(alog),
                err_pairs(errors@) == rejected_of(alog, old(self).last_event_number as int),
                self.input_stream.flushes() == old(self).input_stream.flushes(),
                self.leftover == old(self).leftover,
            decreases n + 2 - fuel,
        {
            if fuel >= 2 && fuel - 2 >= n {
                break ;
            }
            if fuel >= usize::MAX - 2 {
                break ;
            }
            fuel = fuel + 1;
            let remaining = slice_tail(buffer, at);
            let (outcome, bytes_read) = read_record_step(
                &mut csv_reader,
                remaining,
                &mut output,
                &mut ends,
            );
            at = at + bytes_read;
            match outcome {
                CsvReadOutcome::End => {
                    break ;
                },
                CsvReadOutcome::Record | CsvReadOutcome::InputEmpty => {
                    let rec = vstd::slice::slice_subrange(buffer, start, at);
                    let res = self.input_stream.insert(rec);
                    proof {
                        lemma_log_tiles_push(alog, buffer@, 0, (rec@, res is Ok));
                        let prev = alog;
                        alog = alog.push((rec@, res is Ok));
                        assert(alog.drop_last() =~= prev);
                        assert(alog.last() == (rec@, res is Ok));
                        if res is Ok {
                            assert(accepted_of(alog) =~= accepted_of(prev).push(rec@));
                            assert(rejected_of(alog, old(self).last_event_number as int)
                                =~= rejected_of(prev, old(self).last_event_number as int));
                            assert(self.input_stream.records() =~= base + accepted_of(alog));
                        } else {
                            assert(accepted_of(alog) =~= accepted_of(prev));
                        }
                    }
                    match res {
                        Ok(()) => {
                            num_records = num_records + 1;
                        },
                        Err(()) => {
                            let ghost before = errors@;
                            let copy = vstd::slice::slice_to_vec(rec);
                            errors.push(
                                ParseError {
                                    event_number: self.last_event_number + 1,
                                    record: copy,
                                },
                            );
                            proof {
                                assert(err_records(errors@) =~= err_records(before).push(
                                    rec@,
                                ));
                                assert(rejected_of(alog, old(self).last_event_number as int)
                                    =~= rejected_of(
                                    alog.drop_last(),
                                    old(self).last_event_number as int,
                                ).push((rec@, old(self).last_event_number + alog.len())));
                                assert(err_pairs(errors@) =~= err_pairs(before).push(
                                    (rec@, self.last_event_number + 1),
                                ));
                            }
                        },
                    }
                    self.last_event_number = self.last_event_number + 1;
                    start = at;
                    if matches!(outcome, CsvReadOutcome::InputEmpty) {
                        break ;
                    }
                },
                CsvReadOutcome::OutputFull | CsvReadOutcome::OutputEndsFull => {},
            }
        }
        // the reader yields a record or an input-empty report for any
        // nonempty buffer; if it ever did not, the tail stands as one
        // final record
        if num_records == 0 && errors.len() == 0 && n > 0 {
            let rec = vstd::slice::slice_subrange(buffer, 0, n);
            let res = self.input_stream.insert(rec);
            proof {
                assert(alog =~= Seq::<(Seq<u8>, bool)>::empty());
                lemma_log_tiles_push(alog, buffer@, 0, (rec@, res is Ok));
                let prev = alog;
                alog = alog.push((rec@, res is Ok));
                assert(alog.drop_last() =~= prev);
                assert(alog.last() == (rec@, res is Ok));
                if res is Ok {
                    assert(accepted_of(alog) =~= accepted_of(prev).push(rec@));
                    assert(rejected_of(alog, old(self).last_event_number as int)
                        =~= rejected_of(prev, old(self).last_event_number as int));
                    assert(self.input_stream.records() =~= base + accepted_of(alog));
                } else {
                    assert(accepted_of(alog) =~= accepted_of(prev));
                }
            }
            match res {
                Ok(()) => {
                    num_records = num_records + 1;
                },
                Err(()) => {
                    let ghost before = errors@;
                    let copy = vstd::slice::slice_to_vec(rec);
                    errors.push(
                        ParseError { event_number: self.last_event_number + 1, record: copy },
                    );
                    proof {
                        assert(err_records(errors@) =~= err_records(before).push(rec@));
                        assert(rejected_of(alog, old(self).last_event_number as int)
                            =~= rejected_of(
                            alog.drop_last(),
                            old(self).last_event_number as int,
                        ).push((rec@, old(self).last_event_number + alog.len())));
                        assert(err_pairs(errors@) =~= err_pairs(before).push(
                            (rec@, self.last_event_number + 1),
                        ));
                    }
                },
            }
            self.last_event_number = self.last_event_number + 1;
        }
        proof {
            assert(log_tiles(alog, buffer@, 0));
        }
        self.input_stream.flush();
        (num_records, errors)
    }

    /// Feeds one fragment of input: everything up to its last newline,
    /// together with the leftover of earlier fragments, is framed; the
    /// tail after the newline waits for the next fragment.
    pub fn input_fragment(&mut self, data: &[u8]) -> (r: (usize, Vec<ParseError>))
        requires
            old(self).last_event_number + old(self).leftover@.len() + data@.len() + 2
                <= u64::MAX,
            old(self).leftover@.len() + data@.len() <= usize::MAX,
        ensures
            old(self).input_stream.records().is_prefix_of(final(self).input_stream.records()),
            frames_of(
                final(self).input_stream.records(),
                old(self).input_stream.records().len() as int,
                old(self).leftover@ + data@.take(split_nl(data@)),
            ),
            r.0 == final(self).input_stream.records().len() - old(
                self,
            ).input_stream.records().len(),
            final(self).last_event_number == old(self).last_event_number + r.0 + r.1@.len(),
            errors_wf(
                r.1@,
                old(self).last_event_number as int,
                final(self).last_event_number as int,
                old(self).leftover@ + data@.take(split_nl(data@)),
            ),
            exists|log: Seq<(Seq<u8>, bool)>|
                #![trigger log_tiles(log, old(self).leftover@ + data@.take(split_nl(data@)), 0)]
                {
                    &&& log_tiles(log, old(self).leftover@ + data@.take(split_nl(data@)), 0)
                    &&& final(self).input_stream.records() == old(
                        self,
                    ).input_stream.records() + accepted_of(log)
                    &&& err_pairs(r.1@) == rejected_of(
                        log,
                        old(self).last_event_number as int,
                    )
                    &&& log.len() == r.0 + r.1@.len()
                },
            split_nl(data@) == 0 ==> r.0 == 0 && r.1@.len() == 0
                && final(self).input_stream.flushes() == old(self).input_stream.flushes(),
            split_nl(data@) != 0 ==> final(self).input_stream.flushes()
                == old(self).input_stream.flushes() + 1,
            split_nl(data@) != 0 ==> final(self).last_event_number > old(
                self,
            ).last_event_number,
            final(self).leftover@ == if split_nl(data@) == 0 {
                old(self).leftover@ + data@
            } else {
                data@.skip(split_nl(data@))
            },
    {
        let split = split_on_newline(data);
        if split == 0 {
            // no newline: keep the whole fragment for later
            let mut tail = vstd::slice::slice_to_vec(data);
            self.leftover.append(&mut tail);
            proof {
                assert(frames_of(
                    self.input_stream.records(),
                    old(self).input_stream.records().len() as int,
                    old(self).leftover@ + data@.take(0),
                ));
                let w: Seq<(Seq<u8>, bool)> = Seq::empty();
                assert(log_tiles(w, old(self).leftover@ + data@.take(0), 0));
                assert(accepted_of(w) =~= Seq::<Seq<u8>>::empty());
                assert(self.input_stream.records() =~= old(self).input_stream.records()
                    + accepted_of(w));
            }
            (0, Vec::new())
        } else {
            let head = vstd::slice::slice_subrange(data, 0, split);
            let mut buf = vstd::slice::slice_to_vec(self.leftover.as_slice());
            let mut head_v = vstd::slice::slice_to_vec(head);
            buf.append(&mut head_v);
            proof {
                assert(buf@ == old(self).leftover@ + data@.take(split_nl(data@)));
                assert(buf@.len() > 0);
            }
            let res = self.parse_from_buffer(buf.as_slice());
            let tail = slice_tail(data, split);
            self.leftover = vstd::slice::slice_to_vec(tail);
            res
        }
    }

    /// Flushes at end of input: the leftover, if any, is framed as a
    /// final record run.
    pub fn eoi(&mut self) -> (r: (usize, Vec<ParseError>))
        requires
            old(self).last_event_number + old(self).leftover@.len() + 2 <= u64::MAX,
        ensures
            old(self).input_stream.records().is_prefix_of(final(self).input_stream.records()),
            frames_of(
                final(self).input_stream.records(),
                old(self).input_stream.records().len() as int,
                old(self).leftover@,
            ),
            r.0 == final(self).input_stream.records().len() - old(
                self,
            ).input_stream.records().len(),
            final(self).last_event_number == old(self).last_event_number + r.0 + r.1@.len(),
            errors_wf(
                r.1@,
                old(self).last_event_number as int,
                final(self).last_event_number as int,
                old(self).leftover@,
            ),
            exists|log: Seq<(Seq<u8>, bool)>|
                #![trigger log_tiles(log, old(self).leftover@, 0)]
                {
                    &&& log_tiles(log, old(self).leftover@, 0)
                    &&& final(self).input_stream.records() == old(
                        self,
                    ).input_stream.records() + accepted_of(log)
                    &&& err_pairs(r.1@) == rejected_of(
                        log,
                        old(self).last_event_number as int,
                    )
                    &&& log.len() == r.0 + r.1@.len()
                },
            old(self).leftover@.len() > 0 ==> final(self).last_event_number > old(
                self,
            ).last_event_number,
            old(self).leftover@.len() == 0 ==> final(self).input_stream.flushes()
                == old(self).input_stream.flushes(),
            old(self).leftover@.len() > 0 ==> final(self).input_stream.flushes()
                == old(self).input_stream.flushes() + 1,
            final(self).leftover@ == Seq::<u8>::empty(),
    {
        if self.leftover.len() == 0 {
            proof {
                assert(self.leftover@ =~= Seq::<u8>::empty());
                let w: Seq<(Seq<u8>, bool)> = Seq::empty();
                assert(log_tiles(w, old(self).leftover@, 0));
                assert(accepted_of(w) =~= Seq::<Seq<u8>>::empty());
                assert(self.input_stream.records() =~= old(self).input_stream.records()
                    + accepted_of(w));
            }
            return (0, Vec::new());
        }
        let buf = vstd::slice::slice_to_vec(self.leftover.as_slice());
        let res = self.parse_from_buffer(buf.as_slice());
        self.leftover = Vec::new();
        proof {
            assert(self.leftover@ =~= Seq::<u8>::empty());
        }
        res
    }
}

/// A fresh zeroed byte buffer.
fn alloc_bytes(n: usize) -> (r: Vec<u8>)
    ensures
        r@.len() == n,
{
    let mut v: Vec<u8> = Vec::new();
    let mut i: usize = 0;
    while i < n
        invariant
            i <= n,
            v@.len() == i,
        decreases n - i,
    {
        v.push(0);
        i = i + 1;
    }
    v
}

/// A fresh zeroed index buffer.
fn alloc_ends(n: usize) -> (r: Vec<usize>)
    ensures
        r@.len() == n,
{
    let mut v: Vec<usize> = Vec::new();
    let mut i: usize = 0;
    while i < n
        invariant
            i <= n,
            v@.len() == i,
        decreases n - i,
    {
        v.push(0);
        i = i + 1;
    }
    v
}

/// The sub-slice from `from` to the end.
fn slice_tail<'a>(s: &'a [u8], from: usize) -> (r: &'a [u8])
    requires
        from <= s@.len(),
    ensures
        r@ == s@.skip(from as int),
{
    let r = vstd::slice::slice_subrange(s, from, s.len());
    proof {
        assert(r@ =~= s@.skip(from as int));
    }
    r
}


/// The decimal digit character of one digit value.
pub open spec fn dec_digit(d: int) -> char {
    if d == 0 {
        '0'
    } else if d == 1 {
        '1'
    } else if d == 2 {
        '2'
    } else if d == 3 {
        '3'
    } else if d == 4 {
        '4'
    } else if d == 5 {
        '5'
    } else if d == 6 {
        '6'
    } else if d == 7 {
        '7'
    } else if d == 8 {
        '8'
    } else {
        '9'
    }
}

/// The decimal digits of a nonnegative number, most significant first.
pub open spec fn dec_of(n: int) -> Seq<char>
    decreases n,
{
    if n < 10 {
        seq![dec_digit(n)]
    } else {
        dec_of(n / 10).push(dec_digit(n % 10))
    }
}

/// The decimal rendering of a signed number.
pub open spec fn dec_int(w: int) -> Seq<char> {
    if w < 0 {
        seq!['-'] + dec_of(-w)
    } else {
        dec_of(w)
    }
}

/// The digit character of one digit value, as a string slice.
fn dec_digit_str(d: u8) -> (r: &'static str)
    requires
        d < 10,
    ensures
        r@ == seq![dec_digit(d as int)],
{
    proof {
        reveal_strlit("0");
        reveal_strlit("1");
        reveal_strlit("2");
        reveal_strlit("3");
        reveal_strlit("4");
        reveal_strlit("5");
        reveal_strlit("6");
        reveal_strlit("7");
        reveal_strlit("8");
        reveal_strlit("9");
    }
    if d == 0 {
        "0"
    } else if d == 1 {
        "1"
    } else if d == 2 {
        "2"
    } else if d == 3 {
        "3"
    } else if d == 4 {
        "4"
    } else if d == 5 {
        "5"
    } else if d == 6 {
        "6"
    } else if d == 7 {
        "7"
    } else if d == 8 {
        "8"
    } else {
        "9"
    }
}

/// Renders a number in decimal.
pub fn u64_dec(n: u64) -> (r: String)
    ensures
        r@ == dec_of(n as int),
{
    // digits, least significant first
    let mut digs: Vec<u8> = Vec::new();
    let mut m = n;
    loop
        invariant_except_break
            digs@.len() == 0 ==> m == n,
            digs@.len() > 0 ==> m != 0,
            digs@.len() > 0 ==> dec_of(n as int) == dec_of(m as int) + Seq::new(
                digs@.len(),
                |t: int| dec_digit(digs@[digs@.len() - 1 - t] as int),
            ),
        invariant
            forall|t: int| 0 <= t < digs@.len() ==> #[trigger] digs@[t] < 10,
        ensures
            digs@.len() > 0,
            dec_of(n as int) == Seq::new(digs@.len(), |t: int| dec_digit(
                digs@[digs@.len() - 1 - t] as int,
            )),
            forall|t: int| 0 <= t < digs@.len() ==> #[trigger] digs@[t] < 10,
        decreases m,
    {
        let ghost m0 = m;
        let ghost rev0 = Seq::new(digs@.len(), |t: int| dec_digit(
            digs@[digs@.len() - 1 - t] as int,
        ));
        let d = (m % 10) as u8;
        digs.push(d);
        m = m / 10;
        proof {
            let rev1 = Seq::new(digs@.len(), |t: int| dec_digit(
                digs@[digs@.len() - 1 - t] as int,
            ));
            assert(rev1 =~= seq![dec_digit(m0 as int % 10)] + rev0);
            if m0 < 10 {
                assert(dec_of(m0 as int) == seq![dec_digit(m0 as int)]);
                assert(m0 as int % 10 == m0 as int);
                if rev0.len() == 0 {
                    assert(m0 == n);
                    assert(dec_of(n as int) =~= rev1);
                } else {
                    assert(m0 != 0);
                    assert(dec_of(n as int) == dec_of(m0 as int) + rev0);
                    assert(dec_of(n as int) =~= rev1);
                }
                assert(m == 0);
                assert(dec_of(n as int) == rev1);
            } else {
                assert(dec_of(m0 as int) == dec_of(m0 as int / 10).push(
                    dec_digit(m0 as int % 10),
                ));
                assert(m != 0);
                if rev0.len() == 0 {
                    assert(dec_of(n as int) =~= dec_of(m as int) + rev1);
                } else {
                    assert(dec_of(m0 as int) + rev0 =~= dec_of(m as int) + rev1);
                }
                assert(dec_of(n as int) == dec_of(m as int) + rev1);
            }
        }
        if m == 0 {
            break ;
        }
    }
    // append most significant first
    let mut out = String::new();
    let k = digs.len();
    let mut t: usize = 0;
    proof {
        let rev = Seq::new(digs@.len() as nat, |t: int| dec_digit(
            digs@[digs@.len() - 1 - t] as int,
        ));
        assert(out@ =~= rev.take(0));
    }
    while t < k
        invariant
            t <= k,
            k == digs@.len(),
            forall|x: int| 0 <= x < digs@.len() ==> #[trigger] digs@[x] < 10,
            dec_of(n as int) == Seq::new(digs@.len(), |x: int| dec_digit(
                digs@[digs@.len() - 1 - x] as int,
            )),
            out@ == Seq::new(digs@.len(), |x: int| dec_digit(
                digs@[digs@.len() - 1 - x] as int,
            )).take(t as int),
        decreases k - t,
    {
        let ds = dec_digit_str(digs[k - 1 - t]);
        out.append(ds);
        proof {
            let rev = Seq::new(digs@.len() as nat, |x: int| dec_digit(
                digs@[digs@.len() - 1 - x] as int,
            ));
            assert(out@ =~= rev.take(t as int + 1));
        }
        t = t + 1;
    }
    proof {
        let rev = Seq::new(digs@.len() as nat, |x: int| dec_digit(
            digs@[digs@.len() - 1 - x] as int,
        ));
        assert(rev.take(k as int) =~= rev);
    }
    out
}

/// Renders a signed weight in decimal.
pub fn i64_dec(w: i64) -> (r: String)
    ensures
        r@ == dec_int(w as int),
{
    if w >= 0 {
        u64_dec(w as u64)
    } else {
        let mag = (-(w as i128)) as u64;
        let digits = u64_dec(mag);
        let mut out = String::new();
        out.append("-");
        out.append(digits.as_str());
        proof {
            reveal_strlit("-");
            assert("-"@ =~= seq!['-']);
            assert(out@ =~= seq!['-'] + dec_of(-(w as int)));
        }
        out
    }
}

/// A record that can stand in a CSV row: its field strings and their
/// models.
pub trait CsvRecord: DBData {
    /// The field texts of a record model.
    spec fn fields_of(m: Self::V) -> Seq<Seq<char>>;

    fn fields(&self) -> (r: Vec<String>)
        ensures
            r.deep_view() == Self::fields_of(self.deep_view()),
    ;
}

impl CsvRecord for usize {
    open spec fn fields_of(m: usize) -> Seq<Seq<char>> {
        seq![dec_of(m as int)]
    }

    fn fields(&self) -> (r: Vec<String>) {
        let mut v: Vec<String> = Vec::new();
        v.push(u64_dec(*self as u64));
        proof {
            assert(v.deep_view() =~= seq![dec_of(*self as int)]);
        }
        v
    }
}

impl CsvRecord for (usize, usize) {
    open spec fn fields_of(m: (usize, usize)) -> Seq<Seq<char>> {
        seq![dec_of(m.0 as int), dec_of(m.1 as int)]
    }

    fn fields(&self) -> (r: Vec<String>) {
        let mut v: Vec<String> = Vec::new();
        v.push(u64_dec(self.0 as u64));
        v.push(u64_dec(self.1 as u64));
        proof {
            assert(v.deep_view() =~= seq![dec_of(self.0 as int), dec_of(self.1 as int)]);
        }
        v
    }
}

/// What one CSV line holds for the given field texts.  The quoting
/// rules are the CSV writer's own.
pub uninterp spec fn csv_line_of(fields: Seq<Seq<char>>) -> Seq<u8>;

/// Relies on csv::Writer::write_record: renders exactly one CSV line
/// from the given fields; the result depends on the fields alone.
#[verifier::external_body]
fn csv_render_line(fields: &Vec<String>) -> (r: Vec<u8>)
    ensures
        r@ == csv_line_of(fields.deep_view()),
{
    let mut builder = csv::WriterBuilder::new();
    builder.has_headers(false);
    let mut wtr = builder.from_writer(Vec::new());
    let _ = wtr.write_record(fields.iter().map(|f| f.as_bytes()));
    wtr.into_inner().unwrap_or_default()
}

/// The CSV line of one weighted record: its fields then its weight.
pub open spec fn line_of<K: CsvRecord>(p: (K::V, int)) -> Seq<u8> {
    csv_line_of(K::fields_of(p.0).push(dec_int(p.1)))
}

/// Concatenation of a sequence of byte buffers.
pub open spec fn cat(s: Seq<Seq<u8>>) -> Seq<u8>
    decreases s.len(),
{
    if s.len() == 0 {
        Seq::empty()
    } else {
        cat(s.drop_last()) + s.last()
    }
}

/// The CSV lines of a Z-set, in key order.
pub open spec fn lines_of<K: CsvRecord>(s: Seq<(K::V, int)>) -> Seq<Seq<u8>> {
    s.map_values(|p: (K::V, int)| line_of::<K>(p))
}

/// An output transport: accepts rendered buffers up to its size limit.
pub trait OutputConsumer {
    /// The buffers accepted so far.
    spec fn buffers(&self) -> Seq<Seq<u8>>;

    /// The transport's fixed buffer size limit.
    spec fn max_size(&self) -> nat;

    fn max_buffer_size_bytes(&self) -> (r: usize)
        ensures
            r as nat == self.max_size(),
    ;

    fn push_buffer(&mut self, buffer: &[u8])
        ensures
            final(self).buffers() == old(self).buffers().push(buffer@),
            final(self).max_size() == old(self).max_size(),
    ;
}

/// An output transport that keeps every buffer.
pub struct VecConsumer {
    pub bufs: Vec<Vec<u8>>,
    pub max: usize,
}

impl OutputConsumer for VecConsumer {
    open spec fn buffers(&self) -> Seq<Seq<u8>> {
        self.bufs.deep_view()
    }

    open spec fn max_size(&self) -> nat {
        self.max as nat
    }

    fn max_buffer_size_bytes(&self) -> (r: usize) {
        self.max
    }

    fn push_buffer(&mut self, buffer: &[u8]) {
        let copy = vstd::slice::slice_to_vec(buffer);
        self.bufs.push(copy);
        proof {
            assert(self.bufs.deep_view() =~~= old(self).bufs.deep_view().push(buffer@));
        }
    }
}

/// The pushed buffers split the line sequence into consecutive whole
/// groups: buffer `i` is exactly the lines from `cuts[i]` to
/// `cuts[i + 1]`, and together they cover every line once.
pub open spec fn buffers_partition(
    cuts: Seq<int>,
    bufs: Seq<Seq<u8>>,
    lines: Seq<Seq<u8>>,
) -> bool {
    &&& cuts.len() == bufs.len() + 1
    &&& cuts[0] == 0
    &&& cuts[cuts.len() - 1] == lines.len()
    &&& forall|i: int|
        0 <= i < bufs.len() ==> 0 <= #[trigger] cuts[i] <= cuts[i + 1] <= lines.len()
            && bufs[i] == cat(lines.subrange(cuts[i], cuts[i + 1]))
}

/// When a long record lands in a failure report, only this many of
/// its bytes are carried.
pub const ERR_RECORD_PREFIX: usize = 4096;

/// The encoder failed because one rendered record alone exceeds the
/// transport's buffer size: the limit, the record's rendered size, and
/// the record's text, truncated.
#[derive(Debug, PartialEq, Eq)]
pub enum CsvEncodeError {
    RecordTooLarge { limit: usize, size: usize, record: Vec<u8> },
}

/// CSV format encoder: renders each entry of a batch as one CSV line
/// and hands the lines on in buffers that respect the transport's
/// size limit and the configured records-per-buffer bound.
pub struct CsvEncoder<C> {
    /// Transport to push rendered buffers to.
    pub output_consumer: C,
    pub config: CsvEncoderConfig,
    pub max_buffer_size: usize,
}

impl<C: OutputConsumer> CsvEncoder<C> {
    pub fn new(output_consumer: C, config: CsvEncoderConfig) -> (r: Self)
        ensures
            r.output_consumer == output_consumer,
            r.config == config,
            r.max_buffer_size == output_consumer.max_size(),
    {
        let max_buffer_size = output_consumer.max_buffer_size_bytes();
        CsvEncoder { output_consumer, config, max_buffer_size }
    }

    /// The transport behind this encoder.
    pub fn consumer(&self) -> (r: &C)
        ensures
            r == &self.output_consumer,
    {
        &self.output_consumer
    }

    /// Encodes one batch: every entry becomes one line; the lines go
    /// to the transport in order, split into buffers of at most
    /// `buffer_size_records` records and `max_buffer_size` bytes.
    /// Fails, pushing nothing further, when one line alone exceeds
    /// the size limit.
    #[verifier::rlimit(90)]
    pub fn encode<K: CsvRecord>(&mut self, batch: &OrdZSet<K>) -> (r: Result<
        (),
        CsvEncodeError,
    >)
        ensures
            final(self).config == old(self).config,
            final(self).max_buffer_size == old(self).max_buffer_size,
            r is Ok ==> ({
                let bs = final(self).output_consumer.buffers();
                let b0 = old(self).output_consumer.buffers();
                let ls = lines_of::<K>(batch.model_seq());
                &&& b0.is_prefix_of(bs)
                &&& cat(bs.skip(b0.len() as int)) == cat(ls)
                &&& exists|cuts: Seq<int>|
                    #[trigger] buffers_partition(cuts, bs.skip(b0.len() as int), ls)
                &&& forall|j: int|
                    b0.len() <= j < bs.len() ==> (#[trigger] bs[j]).len() <= old(
                        self,
                    ).max_buffer_size
                &&& forall|j: int|
                    0 <= j < batch.model_seq().len() ==> (#[trigger] line_of::<K>(
                        batch.model_seq()[j],
                    )).len() <= old(self).max_buffer_size
            }),
            r is Err ==> exists|j: int|
                0 <= j < batch.model_seq().len() && (#[trigger] line_of::<K>(
                    batch.model_seq()[j],
                )).len() > old(self).max_buffer_size && (r->Err_0 matches
                CsvEncodeError::RecordTooLarge { limit, size, record } && limit == old(
                    self,
                ).max_buffer_size && size as int == line_of::<K>(batch.model_seq()[j]).len()
                    && record@ == line_of::<K>(batch.model_seq()[j]).take(
                    if line_of::<K>(batch.model_seq()[j]).len() > ERR_RECORD_PREFIX as int {
                        ERR_RECORD_PREFIX as int
                    } else {
                        line_of::<K>(batch.model_seq()[j]).len() as int
                    },
                )),
    {
        let ghost base = self.output_consumer.buffers();
        let ghost ls = lines_of::<K>(batch.model_seq());
        let mut buffer: Vec<u8> = Vec::new();
        let mut num_records: usize = 0;
        let ghost mut cuts: Seq<int> = seq![0];
        let mut cursor = batch.cursor();
        proof {
            assert(cat(base.skip(base.len() as int)) =~= cat(ls.take(0))) by {
                assert(base.skip(base.len() as int) =~= Seq::<Seq<u8>>::empty());
                assert(ls.take(0) =~= Seq::<Seq<u8>>::empty());
            }
            assert(buffer@ =~= cat(ls.subrange(0, 0)));
        }
        while cursor.key_valid()
            invariant
                cursor.z == batch,
                cursor.pos <= batch.model_seq().len(),
                ls == lines_of::<K>(batch.model_seq()),
                base == old(self).output_consumer.buffers(),
                self.config == old(self).config,
                self.max_buffer_size == old(self).max_buffer_size,
                base.is_prefix_of(self.output_consumer.buffers()),
                num_records == 0 || num_records < self.config.buffer_size_records,
                num_records == 0 ==> buffer@.len() == 0,
                buffer@.len() <= self.max_buffer_size,
                cat(self.output_consumer.buffers().skip(base.len() as int)) + buffer@ == cat(
                    ls.take(cursor.pos as int),
                ),
                cuts.len() == self.output_consumer.buffers().len() - base.len() + 1,
                cuts[0] == 0,
                forall|i: int|
                    0 <= i < cuts.len() - 1 ==> 0 <= #[trigger] cuts[i] <= cuts[i + 1]
                        <= cursor.pos as int && self.output_consumer.buffers().skip(
                        base.len() as int,
                    )[i] == cat(ls.subrange(cuts[i], cuts[i + 1])),
                cuts[cuts.len() - 1] + num_records == cursor.pos as int,
                cuts[cuts.len() - 1] >= 0,
                buffer@ == cat(ls.subrange(cuts[cuts.len() - 1], cursor.pos as int)),
                forall|j: int|
                    0 <= j < cursor.pos as int ==> (#[trigger] ls[j]).len()
                        <= self.max_buffer_size,
                forall|j: int|
                    base.len() <= j < self.output_consumer.buffers().len() ==> (
                    #[trigger] self.output_consumer.buffers()[j]).len()
                        <= self.max_buffer_size,
            decreases batch.model_seq().len() - cursor.pos,
        {
            let k = cursor.key();
            let w = cursor.weight();
            let mut fields = k.fields();
            fields.push(i64_dec(w));
            proof {
                assert(fields.deep_view() =~= K::fields_of(
                    batch.model_seq()[cursor.pos as int].0,
                ).push(dec_int(batch.model_seq()[cursor.pos as int].1)));
            }
            let line = csv_render_line(&fields);
            proof {
                assert(line@ == line_of::<K>(batch.model_seq()[cursor.pos as int]));
                assert(ls[cursor.pos as int] == line_of::<K>(
                    batch.model_seq()[cursor.pos as int],
                ));
            }
            if line.len() > self.max_buffer_size {
                proof {
                    assert(line_of::<K>(batch.model_seq()[cursor.pos as int]).len() > old(
                        self,
                    ).max_buffer_size);
                }
                let keep = if line.len() > ERR_RECORD_PREFIX {
                    ERR_RECORD_PREFIX
                } else {
                    line.len()
                };
                let text = vstd::slice::slice_to_vec(
                    vstd::slice::slice_subrange(line.as_slice(), 0, keep),
                );
                proof {
                    assert(text@ =~= line@.take(keep as int));
                }
                return Err(
                    CsvEncodeError::RecordTooLarge {
                        limit: self.max_buffer_size,
                        size: line.len(),
                        record: text,
                    },
                );
            }
            if line.len() > self.max_buffer_size - buffer.len() {
                // the line does not fit: hand the filled buffer on
                let ghost bufs0 = self.output_consumer.buffers();
                self.output_consumer.push_buffer(buffer.as_slice());
                proof {
                    lemma_cat_push(bufs0.skip(base.len() as int), buffer@);
                    assert(self.output_consumer.buffers().skip(base.len() as int)
                        =~= bufs0.skip(base.len() as int).push(buffer@));
                    cuts = cuts.push(cursor.pos as int);
                }
                buffer.clear();
                num_records = 0;
                proof {
                    assert(buffer@ =~= cat(
                        ls.subrange(cursor.pos as int, cursor.pos as int),
                    ));
                }
            }
            let ghost buf0 = buffer@;
            let mut line_m = line;
            buffer.append(&mut line_m);
            num_records = num_records + 1;
            proof {
                assert(ls.take(cursor.pos as int + 1).drop_last() =~= ls.take(
                    cursor.pos as int,
                ));
                assert(cat(ls.take(cursor.pos as int + 1)) == cat(ls.take(cursor.pos as int))
                    + ls[cursor.pos as int]);
                assert(cat(self.output_consumer.buffers().skip(base.len() as int)) + buffer@
                    =~= cat(ls.take(cursor.pos as int + 1)));
                let c0 = cuts[cuts.len() - 1];
                assert(ls.subrange(c0, cursor.pos as int + 1).drop_last() =~= ls.subrange(
                    c0,
                    cursor.pos as int,
                ));
                assert(cat(ls.subrange(c0, cursor.pos as int + 1)) == cat(
                    ls.subrange(c0, cursor.pos as int),
                ) + ls[cursor.pos as int]);
                assert(buffer@ == cat(ls.subrange(c0, cursor.pos as int + 1)));
            }
            if num_records >= self.config.buffer_size_records {
                let ghost bufs0 = self.output_consumer.buffers();
                self.output_consumer.push_buffer(buffer.as_slice());
                proof {
                    lemma_cat_push(bufs0.skip(base.len() as int), buffer@);
                    assert(self.output_consumer.buffers().skip(base.len() as int)
                        =~= bufs0.skip(base.len() as int).push(buffer@));
                    cuts = cuts.push(cursor.pos as int + 1);
                }
                buffer.clear();
                num_records = 0;
                proof {
                    assert(buffer@ =~= cat(
                        ls.subrange(cursor.pos as int + 1, cursor.pos as int + 1),
                    ));
                }
            }
            cursor.step_key();
        }
        if num_records > 0 {
            let ghost bufs0 = self.output_consumer.buffers();
            self.output_consumer.push_buffer(buffer.as_slice());
            proof {
                lemma_cat_push(bufs0.skip(base.len() as int), buffer@);
                assert(self.output_consumer.buffers().skip(base.len() as int) =~= bufs0.skip(
                    base.len() as int,
                ).push(buffer@));
                cuts = cuts.push(batch.model_seq().len() as int);
            }
        }
        proof {
            assert(ls.take(batch.model_seq().len() as int) =~= ls);
            if num_records == 0 {
                assert(buffer@ =~= Seq::<u8>::empty());
                assert(cat(self.output_consumer.buffers().skip(base.len() as int)) + buffer@
                    =~= cat(self.output_consumer.buffers().skip(base.len() as int)));
            }
            assert(cat(self.output_consumer.buffers().skip(base.len() as int)) == cat(ls));
            assert(buffers_partition(
                cuts,
                self.output_consumer.buffers().skip(base.len() as int),
                ls,
            ));
            assert forall|j: int| 0 <= j < batch.model_seq().len() implies (
            #[trigger] line_of::<K>(batch.model_seq()[j])).len() <= old(
                self,
            ).max_buffer_size by {
                assert(ls[j] == line_of::<K>(batch.model_seq()[j]));
            }
        }
        Ok(())
    }
}

/// Concatenation distributes over appending one buffer.
proof fn lemma_cat_push(s: Seq<Seq<u8>>, x: Seq<u8>)
    ensures
        cat(s.push(x)) == cat(s) + x,
{
    assert(s.push(x).drop_last() =~= s);
    assert(s.push(x).last() == x);
}

} // verus!
