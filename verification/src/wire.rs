//! The batched binary wire format of a tick's snapshot.
//!
//! A packet is an 8-byte big-endian millisecond timestamp followed by one
//! 10-byte record per instrument: a 2-byte big-endian code and the 8 bytes
//! of the price's IEEE-754 double, big-endian. A snapshot is cut into
//! packets of at most `batch` records each; the last packet of a tick may
//! be shorter, and an empty snapshot yields no packet at all.

use vstd::prelude::*;

use crate::mappings::TickerMapper;
use crate::models::StockMessage;

verus! {

/// The two bytes of `x`, most significant first.
pub open spec fn be_u16(x: u16) -> Seq<u8> {
    seq![(x >> 8) as u8, x as u8]
}

/// The eight bytes of `x`, most significant first.
pub open spec fn be_u64(x: u64) -> Seq<u8> {
    seq![
        (x >> 56) as u8,
        (x >> 48) as u8,
        (x >> 40) as u8,
        (x >> 32) as u8,
        (x >> 24) as u8,
        (x >> 16) as u8,
        (x >> 8) as u8,
        x as u8,
    ]
}

/// The value a big-endian run of bytes stands for.
pub open spec fn be_value(bytes: Seq<u8>) -> int
    decreases bytes.len(),
{
    if bytes.len() == 0 {
        0
    } else {
        be_value(bytes.drop_last()) * 256 + bytes.last()
    }
}

/// Appending one byte shifts the value up by one base-256 digit.
proof fn lemma_be_value_push(bytes: Seq<u8>, b: u8)
    ensures
        be_value(bytes.push(b)) == be_value(bytes) * 256 + b,
{
    assert(bytes.push(b).drop_last() =~= bytes);
    assert(bytes.push(b).last() == b);
}

/// A two-byte code is recoverable from its wire bytes: the encoding loses
/// nothing.
pub proof fn lemma_be_u16_value(x: u16)
    ensures
        be_value(be_u16(x)) == x,
{
    let s = be_u16(x);
    assert(s =~= Seq::<u8>::empty().push((x >> 8) as u8).push(x as u8));
    lemma_be_value_push(Seq::<u8>::empty(), (x >> 8) as u8);
    lemma_be_value_push(Seq::<u8>::empty().push((x >> 8) as u8), x as u8);
    assert(((x >> 8) as u8) as int * 256 + (x as u8) as int == x) by (bit_vector);
}

/// An eight-byte price pattern or timestamp is recoverable from its wire
/// bytes: the encoding loses nothing.
pub proof fn lemma_be_u64_value(x: u64)
    ensures
        be_value(be_u64(x)) == x,
{
    let b0 = (x >> 56) as u8;
    let b1 = (x >> 48) as u8;
    let b2 = (x >> 40) as u8;
    let b3 = (x >> 32) as u8;
    let b4 = (x >> 24) as u8;
    let b5 = (x >> 16) as u8;
    let b6 = (x >> 8) as u8;
    let b7 = x as u8;
    let e = Seq::<u8>::empty();
    let s1 = e.push(b0);
    let s2 = s1.push(b1);
    let s3 = s2.push(b2);
    let s4 = s3.push(b3);
    let s5 = s4.push(b4);
    let s6 = s5.push(b5);
    let s7 = s6.push(b6);
    let s8 = s7.push(b7);
    assert(be_u64(x) =~= s8);
    lemma_be_value_push(e, b0);
    lemma_be_value_push(s1, b1);
    lemma_be_value_push(s2, b2);
    lemma_be_value_push(s3, b3);
    lemma_be_value_push(s4, b4);
    lemma_be_value_push(s5, b5);
    lemma_be_value_push(s6, b6);
    lemma_be_value_push(s7, b7);
    assert((((((((((x >> 56) as u8) as int * 256 + ((x >> 48) as u8) as int) * 256 + ((x
        >> 40) as u8) as int) * 256 + ((x >> 32) as u8) as int) * 256 + ((x >> 24) as u8) as int)
        * 256 + ((x >> 16) as u8) as int) * 256 + ((x >> 8) as u8) as int) * 256 + (x as u8) as int)
        == x) by (bit_vector);
}

/// The ten wire bytes of one `(code, price bits)` record.
pub open spec fn record_bytes(rec: (u16, u64)) -> Seq<u8> {
    be_u16(rec.0) + be_u64(rec.1)
}

/// The wire bytes of a run of records, in order.
pub open spec fn records_bytes(recs: Seq<(u16, u64)>) -> Seq<u8>
    decreases recs.len(),
{
    if recs.len() == 0 {
        Seq::empty()
    } else {
        records_bytes(recs.drop_last()) + record_bytes(recs.last())
    }
}

/// The full wire bytes of one packet: timestamp, then the records.
pub open spec fn packet_bytes(timestamp: u64, recs: Seq<(u16, u64)>) -> Seq<u8> {
    be_u64(timestamp) + records_bytes(recs)
}

/// Appends one packet's bytes to `buffer`: the shared timestamp, then
/// every record of `stocks`, each big-endian.
pub fn build_packet(timestamp: u64, stocks: &[(u16, u64)], buffer: &mut Vec<u8>)
    ensures
        final (buffer)@ == old(buffer)@ + packet_bytes(timestamp, stocks@),
{
    buffer.push((timestamp >> 56) as u8);
    buffer.push((timestamp >> 48) as u8);
    buffer.push((timestamp >> 40) as u8);
    buffer.push((timestamp >> 32) as u8);
    buffer.push((timestamp >> 24) as u8);
    buffer.push((timestamp >> 16) as u8);
    buffer.push((timestamp >> 8) as u8);
    buffer.push(timestamp as u8);
    assert(buffer@ =~= old(buffer)@ + be_u64(timestamp));
    let n = stocks.len();
    let mut i: usize = 0;
    while i < n
        invariant
            i <= n,
            n == stocks@.len(),
            buffer@ == old(buffer)@ + be_u64(timestamp) + records_bytes(stocks@.take(i as int)),
        decreases n - i,
    {
        let rec = *vstd::slice::slice_index_get(stocks, i);
        let (ticker, price) = rec;
        buffer.push((ticker >> 8) as u8);
        buffer.push(ticker as u8);
        buffer.push((price >> 56) as u8);
        buffer.push((price >> 48) as u8);
        buffer.push((price >> 40) as u8);
        buffer.push((price >> 32) as u8);
        buffer.push((price >> 24) as u8);
        buffer.push((price >> 16) as u8);
        buffer.push((price >> 8) as u8);
        buffer.push(price as u8);
        proof {
            let taken = stocks@.take(i + 1);
            assert(taken.drop_last() =~= stocks@.take(i as int));
            assert(taken.last() == rec);
            assert(buffer@ =~= old(buffer)@ + be_u64(timestamp) + records_bytes(taken));
        }
        i += 1;
    }
    proof {
        assert(stocks@.take(n as int) =~= stocks@);
    }
}

/// How many packets a snapshot of `m` records yields at `b` records per
/// packet: `ceil(m / b)`.
pub open spec fn spec_packet_count(m: int, b: int) -> int
    recommends
        b >= 1,
{
    (m + b - 1) / b
}

/// The records of packet `p`: the `p`-th run of `b` consecutive records,
/// cut short at the end of the snapshot.
pub open spec fn packet_slice(recs: Seq<(u16, u64)>, b: int, p: int) -> Seq<(u16, u64)>
    recommends
        b >= 1,
        0 <= p < spec_packet_count(recs.len() as int, b),
{
    recs.subrange(
        b * p,
        if b * (p + 1) < recs.len() {
            b * (p + 1)
        } else {
            recs.len() as int
        },
    )
}

/// An integer `p` with `(p-1)*b < m <= p*b` is the ceiling of `m / b`.
proof fn lemma_ceil_div(m: int, b: int, p: int)
    requires
        b >= 1,
        0 <= m,
        0 <= p,
        m <= p * b,
        p == 0 || (p - 1) * b < m,
    ensures
        p == spec_packet_count(m, b),
{
    if p == 0 {
        assert((m + b - 1) / b == 0) by (nonlinear_arith)
            requires
                b >= 1,
                m == 0,
        ;
    } else {
        assert(p == (m + b - 1) / b) by (nonlinear_arith)
            requires
                b >= 1,
                m >= 1,
                m <= p * b,
                (p - 1) * b < m,
        ;
    }
}

/// Cuts the snapshot into packets of at most `batch` records and encodes
/// each: packet `p` carries exactly the records `batch*p .. batch*(p+1)`
/// (the last one cut short), and an empty snapshot yields no packet.
pub fn encode_snapshot(timestamp: u64, records: &Vec<(u16, u64)>, batch: usize) -> (packets: Vec<
    Vec<u8>,
>)
    requires
        batch >= 1,
    ensures
        packets@.len() == spec_packet_count(records@.len() as int, batch as int),
        forall|p: int|
            0 <= p < packets@.len() ==> (#[trigger] packets@[p])@ == packet_bytes(
                timestamp,
                packet_slice(records@, batch as int, p),
            ),
{
    let m = records.len();
    let b = batch;
    let mut packets: Vec<Vec<u8>> = Vec::new();
    let mut start: usize = 0;
    proof {
        let p0 = packets@.len() as int;
        assert(p0 * (b as int) == 0) by (nonlinear_arith)
            requires
                p0 == 0,
        ;
    }
    while start < m
        invariant
            b >= 1,
            m == records@.len(),
            start <= m,
            start as int == ({
                let p = packets@.len() as int;
                if p * (b as int) <= m {
                    p * (b as int)
                } else {
                    m as int
                }
            }),
            packets@.len() == 0 || (packets@.len() - 1) * (b as int) < m,
            forall|p: int|
                0 <= p < packets@.len() ==> (#[trigger] packets@[p])@ == packet_bytes(
                    timestamp,
                    packet_slice(records@, b as int, p),
                ),
        decreases m - start,
    {
        let ghost p = packets@.len() as int;
        proof {
            assert(p * (b as int) <= m) by {
                if p * (b as int) > m {
                    assert(start == m);
                }
            }
            assert(start as int == p * (b as int));
        }
        let end = if m - start < b {
            m
        } else {
            start + b
        };
        proof {
            assert((p + 1) * (b as int) == p * (b as int) + b) by (nonlinear_arith);
        }
        let mut chunk: Vec<(u16, u64)> = Vec::new();
        let mut j: usize = start;
        while j < end
            invariant
                start <= j <= end <= m,
                m == records@.len(),
                chunk@ =~= records@.subrange(start as int, j as int),
            decreases end - j,
        {
            chunk.push(records[j]);
            proof {
                assert(chunk@ =~= records@.subrange(start as int, j + 1));
            }
            j += 1;
        }
        let mut buf: Vec<u8> = Vec::new();
        build_packet(timestamp, chunk.as_slice(), &mut buf);
        proof {
            assert(start as int == p * (b as int));
            assert((p + 1) * (b as int) == p * (b as int) + (b as int)) by (nonlinear_arith);
            assert((b as int) * p == p * (b as int)) by (nonlinear_arith);
            assert((b as int) * (p + 1) == (p + 1) * (b as int)) by (nonlinear_arith);
            assert(end as int == if (b as int) * (p + 1) < records@.len() {
                (b as int) * (p + 1)
            } else {
                records@.len() as int
            });
            assert(chunk@ =~= records@.subrange(start as int, end as int));
            assert(chunk@ =~= packet_slice(records@, b as int, p));
        }
        packets.push(buf);
        start = end;
    }
    proof {
        let p = packets@.len() as int;
        if m == 0 {
            assert(p == 0);
            lemma_ceil_div(0, b as int, 0);
        } else {
            assert(start == m);
            assert(m <= p * (b as int)) by {
                if p * (b as int) < m {
                    assert(start as int == p * (b as int));
                }
            }
            lemma_ceil_div(m as int, b as int, p);
        }
    }
    packets
}

/// The record runs of packets `p, p+1, ...`, flattened back into one run.
pub open spec fn framed_records(recs: Seq<(u16, u64)>, b: int, p: int) -> Seq<(u16, u64)>
    recommends
        b >= 1,
        0 <= p,
    decreases spec_packet_count(recs.len() as int, b) - p,
        when b >= 1 && 0 <= p
{
    if p >= spec_packet_count(recs.len() as int, b) {
        Seq::empty()
    } else {
        packet_slice(recs, b, p) + framed_records(recs, b, p + 1)
    }
}

/// Basic bounds of the packet count: enough packets to carry every record,
/// no packet beyond the records, and none at all for an empty snapshot.
pub proof fn lemma_packet_count_bounds(m: int, b: int)
    requires
        b >= 1,
        m >= 0,
    ensures
        spec_packet_count(m, b) >= 0,
        spec_packet_count(m, b) * b >= m,
        m == 0 ==> spec_packet_count(m, b) == 0,
        m > 0 ==> (spec_packet_count(m, b) - 1) * b < m,
{
    assert((m + b - 1) / b >= 0 && (m + b - 1) / b * b >= m && (m == 0 ==> (m + b - 1) / b == 0)
        && (m > 0 ==> ((m + b - 1) / b - 1) * b < m)) by (nonlinear_arith)
        requires
            b >= 1,
            m >= 0,
    ;
}

/// The packets from `p` on carry exactly the records from `b * p` on.
proof fn lemma_framed_records_suffix(recs: Seq<(u16, u64)>, b: int, p: int)
    requires
        b >= 1,
        0 <= p <= spec_packet_count(recs.len() as int, b),
    ensures
        framed_records(recs, b, p) == recs.subrange(
            if b * p < recs.len() {
                b * p
            } else {
                recs.len() as int
            },
            recs.len() as int,
        ),
    decreases spec_packet_count(recs.len() as int, b) - p,
{
    let m = recs.len() as int;
    let count = spec_packet_count(m, b);
    lemma_packet_count_bounds(m, b);
    if p >= count {
        assert(b * p >= b * count) by (nonlinear_arith)
            requires
                b >= 1,
                p >= count,
        ;
        assert(b * count == count * b) by (nonlinear_arith);
        assert(framed_records(recs, b, p) =~= recs.subrange(m, m));
    } else {
        lemma_framed_records_suffix(recs, b, p + 1);
        assert(b * p < m && b * p >= 0) by (nonlinear_arith)
            requires
                b >= 1,
                0 <= p <= count - 1,
                (count - 1) * b < m,
        ;
        let cut = if b * (p + 1) < m {
            b * (p + 1)
        } else {
            m
        };
        assert(b * (p + 1) == b * p + b) by (nonlinear_arith);
        assert(packet_slice(recs, b, p) + recs.subrange(cut, m) =~= recs.subrange(b * p, m));
        assert(framed_records(recs, b, p) == packet_slice(recs, b, p) + framed_records(
            recs,
            b,
            p + 1,
        ));
    }
}

/// Cutting a snapshot into packets loses, adds and reorders nothing: the
/// packets' record runs, concatenated, are the snapshot again.
pub proof fn lemma_framing_covers(recs: Seq<(u16, u64)>, b: int)
    requires
        b >= 1,
    ensures
        framed_records(recs, b, 0) == recs,
{
    lemma_framed_records_suffix(recs, b, 0);
    if recs.len() == 0 {
        assert(framed_records(recs, b, 0) =~= recs);
    } else {
        assert(recs.subrange(0, recs.len() as int) =~= recs);
    }
}

/// Every packet but the last carries exactly `b` records; the last carries
/// the remainder `m % b`, or a full `b` when `b` divides `m`.
pub proof fn lemma_packet_sizes(recs: Seq<(u16, u64)>, b: int, p: int)
    requires
        b >= 1,
        0 <= p < spec_packet_count(recs.len() as int, b),
    ensures
        p < spec_packet_count(recs.len() as int, b) - 1 ==> packet_slice(recs, b, p).len() == b,
        p == spec_packet_count(recs.len() as int, b) - 1 ==> packet_slice(recs, b, p).len() == (
        if recs.len() as int % b == 0 {
            b
        } else {
            recs.len() as int % b
        }),
{
    let m = recs.len() as int;
    let count = spec_packet_count(m, b);
    lemma_packet_count_bounds(m, b);
    assert(b * p >= 0) by (nonlinear_arith)
        requires
            b >= 1,
            p >= 0,
    ;
    if p < count - 1 {
        assert(b * (p + 1) <= (count - 1) * b) by (nonlinear_arith)
            requires
                b >= 1,
                p + 1 <= count - 1,
        ;
        assert(b * (p + 1) == b * p + b) by (nonlinear_arith);
    } else {
        assert(b * p == (count - 1) * b) by (nonlinear_arith)
            requires
                p == count - 1,
        ;
        assert(b * (p + 1) == b * p + b) by (nonlinear_arith);
        assert(m - (count - 1) * b == (if m % b == 0 {
            b
        } else {
            m % b
        })) by (nonlinear_arith)
            requires
                b >= 1,
                m > 0,
                count == (m + b - 1) / b,
                (count - 1) * b < m,
                count * b >= m,
        ;
        assert(count * b == (count - 1) * b + b) by (nonlinear_arith);
    }
}

/// Encodes one tick's message: the packets of its records under its
/// shared timestamp.
pub fn encode_message(msg: &StockMessage, batch: usize) -> (packets: Vec<Vec<u8>>)
    requires
        batch >= 1,
    ensures
        packets@.len() == spec_packet_count(msg.stocks@.len() as int, batch as int),
        forall|p: int|
            0 <= p < packets@.len() ==> (#[trigger] packets@[p])@ == packet_bytes(
                msg.timestamp,
                packet_slice(msg.stocks@, batch as int, p),
            ),
{
    encode_snapshot(msg.timestamp, &msg.stocks, batch)
}

/// The wire records of a ticker-keyed snapshot under a symbol table: each
/// price paired with its ticker's code, in snapshot order; entries whose
/// ticker the table does not know are left out.
pub open spec fn encoded_records(m: TickerMapper, prices: Seq<(String, u64)>) -> Seq<(u16, u64)>
    decreases prices.len(),
{
    if prices.len() == 0 {
        Seq::empty()
    } else {
        let rest = encoded_records(m, prices.drop_first());
        match m.spec_encode(prices[0].0@) {
            Some(c) => seq![(c, prices[0].1)] + rest,
            None => rest,
        }
    }
}

/// Pairs every price of a ticker-keyed snapshot with its wire code. An
/// entry whose ticker is missing from the table is skipped, not fatal;
/// the second result counts the skipped entries so the caller can report
/// them.
pub fn encode_records(mapper: &TickerMapper, prices: &Vec<(String, u64)>) -> (r: (
    Vec<(u16, u64)>,
    usize,
))
    requires
        mapper.wf(),
    ensures
        r.0@ == encoded_records(*mapper, prices@),
        r.1 + r.0@.len() == prices@.len(),
{
    let mut out: Vec<(u16, u64)> = Vec::new();
    let mut skipped: usize = 0;
    let n = prices.len();
    let mut i: usize = 0;
    proof {
        assert(prices@.skip(0) =~= prices@);
        assert(out@ + encoded_records(*mapper, prices@.skip(0)) =~= encoded_records(
            *mapper,
            prices@,
        ));
    }
    while i < n
        invariant
            mapper.wf(),
            i <= n,
            n == prices@.len(),
            out@ + encoded_records(*mapper, prices@.skip(i as int)) == encoded_records(
                *mapper,
                prices@,
            ),
            skipped + out@.len() == i,
        decreases n - i,
    {
        let ghost pre = out@;
        let ghost tail = prices@.skip(i as int);
        proof {
            assert(tail.len() > 0);
            assert(tail[0] == prices@[i as int]);
            assert(tail.drop_first() =~= prices@.skip(i + 1));
        }
        let code = mapper.encode(prices[i].0.as_str());
        match code {
            Some(c) => {
                let bits = prices[i].1;
                out.push((c, bits));
                proof {
                    assert(encoded_records(*mapper, tail) == seq![(c, bits)] + encoded_records(
                        *mapper,
                        prices@.skip(i + 1),
                    ));
                    assert(out@ =~= pre + seq![(c, bits)]);
                    assert(out@ + encoded_records(*mapper, prices@.skip(i + 1)) =~= pre
                        + encoded_records(*mapper, tail));
                }
            },
            None => {
                skipped += 1;
                proof {
                    assert(encoded_records(*mapper, tail) == encoded_records(
                        *mapper,
                        prices@.skip(i + 1),
                    ));
                }
            },
        }
        i += 1;
    }
    proof {
        assert(prices@.skip(n as int) =~= Seq::<(String, u64)>::empty());
        assert(out@ + Seq::<(u16, u64)>::empty() =~= out@);
    }
    (out, skipped)
}

} // verus!
