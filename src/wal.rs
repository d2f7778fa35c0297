use vstd::prelude::*;

verus! {

/// Failure to read an operation log: it ends inside a record.
#[derive(Clone, Copy, Debug, PartialEq, Eq, Structural)]
pub enum WalError {
    /// The log ends inside the length of the record at this byte offset.
    TruncatedLength { at: usize },
    /// The log ends inside the body of the record at this byte offset.
    TruncatedRecord { at: usize },
}

/// A length as four little-endian bytes.
pub open spec fn le_bytes(n: u32) -> Seq<u8> {
    seq![(n & 0xff) as u8, ((n >> 8u32) & 0xff) as u8, ((n >> 16u32) & 0xff) as u8, ((n >> 24u32) & 0xff) as u8]
}

/// The length that four little-endian bytes hold.
pub open spec fn le_value(b0: u8, b1: u8, b2: u8, b3: u8) -> u32 {
    (b0 as u32) | ((b1 as u32) << 8u32) | ((b2 as u32) << 16u32) | ((b3 as u32) << 24u32)
}

/// One record as it is stored: its length, then its bytes.
pub open spec fn frame(r: Seq<u8>) -> Seq<u8> {
    le_bytes(r.len() as u32) + r
}

/// Records stored one after the other.
pub open spec fn frames(rs: Seq<Seq<u8>>) -> Seq<u8>
    decreases rs.len(),
{
    if rs.len() == 0 {
        Seq::empty()
    } else {
        frames(rs.drop_last()) + frame(rs.last())
    }
}

/// The records stored in a log, or `None` when it ends inside a record.
pub open spec fn parse_records(b: Seq<u8>) -> Option<Seq<Seq<u8>>>
    decreases b.len(),
{
    if b.len() == 0 {
        Some(Seq::empty())
    } else if b.len() < 4 {
        None
    } else {
        let n = le_value(b[0], b[1], b[2], b[3]) as int;
        if b.len() < 4 + n {
            None
        } else {
            match parse_records(b.subrange(4 + n, b.len() as int)) {
                Some(rest) => Some(seq![b.subrange(4, 4 + n)] + rest),
                None => None,
            }
        }
    }
}

proof fn lemma_le_round_trip(n: u32)
    ensures
        le_value(le_bytes(n)[0], le_bytes(n)[1], le_bytes(n)[2], le_bytes(n)[3]) == n,
{
    let b0 = (n & 0xff) as u8;
    let b1 = ((n >> 8u32) & 0xff) as u8;
    let b2 = ((n >> 16u32) & 0xff) as u8;
    let b3 = ((n >> 24u32) & 0xff) as u8;
    assert((b0 as u32) | ((b1 as u32) << 8u32) | ((b2 as u32) << 16u32) | ((b3 as u32) << 24u32) == n)
        by (bit_vector)
        requires
            b0 == (n & 0xff) as u8,
            b1 == ((n >> 8u32) & 0xff) as u8,
            b2 == ((n >> 16u32) & 0xff) as u8,
            b3 == ((n >> 24u32) & 0xff) as u8,
    ;
}

proof fn lemma_parse_frame_then(r: Seq<u8>, rest: Seq<u8>)
    requires
        r.len() <= u32::MAX,
    ensures
        parse_records(frame(r) + rest) == match parse_records(rest) {
            Some(rs) => Some(seq![r] + rs),
            None => None::<Seq<Seq<u8>>>,
        },
{
    let b = frame(r) + rest;
    lemma_le_round_trip(r.len() as u32);
    assert(b[0] == le_bytes(r.len() as u32)[0]);
    assert(b[1] == le_bytes(r.len() as u32)[1]);
    assert(b[2] == le_bytes(r.len() as u32)[2]);
    assert(b[3] == le_bytes(r.len() as u32)[3]);
    assert(b.subrange(4, 4 + r.len() as int) =~= r);
    assert(b.subrange(4 + r.len() as int, b.len() as int) =~= rest);
}

proof fn lemma_frames_split(rs: Seq<Seq<u8>>)
    requires
        rs.len() > 0,
    ensures
        frames(rs) == frame(rs[0]) + frames(rs.subrange(1, rs.len() as int)),
    decreases rs.len(),
{
    if rs.len() == 1 {
        assert(rs.drop_last() =~= Seq::<Seq<u8>>::empty());
        assert(rs.subrange(1, 1) =~= Seq::<Seq<u8>>::empty());
        assert(frames(rs.drop_last()) == Seq::<u8>::empty());
        assert(rs.last() == rs[0]);
        assert(frames(rs) =~= frame(rs[0]));
        assert(frames(rs.subrange(1, 1)) == Seq::<u8>::empty());
        assert(frame(rs[0]) + Seq::<u8>::empty() =~= frame(rs[0]));
    } else {
        let init = rs.drop_last();
        lemma_frames_split(init);
        assert(init.subrange(1, init.len() as int) =~= rs.subrange(1, rs.len() as int).drop_last());
        assert(rs.subrange(1, rs.len() as int).last() == rs.last());
        assert(frames(rs) =~= frame(rs[0]) + frames(rs.subrange(1, rs.len() as int)));
    }
}

/// Reading back a log of stored records gives those records.
pub proof fn lemma_read_back(rs: Seq<Seq<u8>>)
    requires
        forall|i: int| 0 <= i < rs.len() ==> (#[trigger] rs[i]).len() <= u32::MAX,
    ensures
        parse_records(frames(rs)) == Some(rs),
    decreases rs.len(),
{
    if rs.len() > 0 {
        let tail = rs.subrange(1, rs.len() as int);
        lemma_frames_split(rs);
        lemma_read_back(tail);
        lemma_parse_frame_then(rs[0], frames(tail));
        assert(seq![rs[0]] + tail =~= rs);
    }
}

/// Appends one record to a log.
pub fn append_record(log: &mut Vec<u8>, record: &[u8])
    requires
        record@.len() <= u32::MAX,
    ensures
        final(log)@ == old(log)@ + frame(record@),
{
    let n = record.len() as u32;
    log.push((n & 0xff) as u8);
    log.push(((n >> 8) & 0xff) as u8);
    log.push(((n >> 16) & 0xff) as u8);
    log.push(((n >> 24) & 0xff) as u8);
    let mut i: usize = 0;
    let ghost start = log@;
    while i < record.len()
        invariant
            i <= record@.len(),
            log@ == start + record@.take(i as int),
        decreases record.len() - i,
    {
        log.push(record[i]);
        proof {
            assert(record@.take(i + 1) =~= record@.take(i as int).push(record@[i as int]));
        }
        i += 1;
    }
    proof {
        assert(record@.take(i as int) =~= record@);
        assert(start =~= old(log)@ + le_bytes(n));
    }
}

pub open spec fn records_view(rs: Seq<Vec<u8>>) -> Seq<Seq<u8>> {
    rs.map_values(|r: Vec<u8>| r@)
}

/// Reads every record of a log. A log that ends inside a record is refused:
/// a torn log is never read as a shorter one.
pub fn read_records(bytes: &[u8]) -> (r: Result<Vec<Vec<u8>>, WalError>)
    ensures
        match parse_records(bytes@) {
            Some(rs) => r is Ok && records_view(r->Ok_0@) == rs,
            None => r is Err,
        },
{
    let mut out: Vec<Vec<u8>> = Vec::new();
    let mut pos: usize = 0;
    proof {
        assert(bytes@.subrange(0, bytes@.len() as int) =~= bytes@);
        assert(records_view(out@) =~= Seq::<Seq<u8>>::empty());
        match parse_records(bytes@) {
            Some(rest) => {
                assert(records_view(out@) + rest =~= rest);
            },
            None => {},
        }
    }
    while pos < bytes.len()
        invariant
            pos <= bytes@.len(),
            parse_records(bytes@) == match parse_records(bytes@.subrange(pos as int, bytes@.len() as int)) {
                Some(rest) => Some(records_view(out@) + rest),
                None => None::<Seq<Seq<u8>>>,
            },
        decreases bytes.len() - pos,
    {
        let ghost b = bytes@.subrange(pos as int, bytes@.len() as int);
        if bytes.len() - pos < 4 {
            return Err(WalError::TruncatedLength { at: pos });
        }
        let n = (bytes[pos] as u32) | ((bytes[pos + 1] as u32) << 8) | ((bytes[pos + 2] as u32) << 16) | ((
        bytes[pos + 3] as u32) << 24);
        proof {
            assert(b[0] == bytes@[pos as int] && b[1] == bytes@[pos + 1] && b[2] == bytes@[pos + 2] && b[3]
                == bytes@[pos + 3]);
            assert(n == le_value(b[0], b[1], b[2], b[3]));
        }
        if bytes.len() - pos - 4 < n as usize {
            return Err(WalError::TruncatedRecord { at: pos });
        }
        let start = pos + 4;
        let end = start + n as usize;
        let mut record: Vec<u8> = Vec::new();
        let mut i: usize = start;
        while i < end
            invariant
                start <= i <= end,
                end <= bytes@.len(),
                record@ == bytes@.subrange(start as int, i as int),
            decreases end - i,
        {
            record.push(bytes[i]);
            proof {
                assert(bytes@.subrange(start as int, i + 1) =~= bytes@.subrange(start as int, i as int).push(
                    bytes@[i as int],
                ));
            }
            i += 1;
        }
        proof {
            assert(b.subrange(4, 4 + n as int) =~= record@);
            assert(b.subrange(4 + n as int, b.len() as int) =~= bytes@.subrange(end as int, bytes@.len() as int));
            assert(records_view(out@.push(record)) =~= records_view(out@).push(record@));
            match parse_records(bytes@.subrange(end as int, bytes@.len() as int)) {
                Some(rest) => {
                    assert(records_view(out@) + (seq![record@] + rest) =~= records_view(out@).push(record@)
                        + rest);
                },
                None => {},
            }
        }
        out.push(record);
        pos = end;
    }
    proof {
        assert(bytes@.subrange(pos as int, bytes@.len() as int) =~= Seq::<u8>::empty());
        assert(records_view(out@) + Seq::<Seq<u8>>::empty() =~= records_view(out@));
    }
    Ok(out)
}

} // verus!
