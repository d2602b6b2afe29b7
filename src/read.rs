//! Reading an archive file: variant, entry table, then each entry's data.
use crate::archive::{Farc, FarcError};
use crate::bytes::{be32_at, read_be32};
use crate::gzip::{gunzip, gunzipped};
use crate::write::{fields_len, marker};
use vstd::prelude::*;

verus! {

/// A table record: name, offset, stored size, and uncompressed size (the
/// stored size again in the plain variant).
pub type RecordView = (Seq<u8>, u32, u32, u32);

/// Index of the first zero byte at or after `p`, or the length of `f` if
/// there is none.
pub open spec fn nul_from(f: Seq<u8>, p: int) -> int
    decreases f.len() - p,
{
    if p < 0 || p >= f.len() {
        f.len() as int
    } else if f[p] == 0 {
        p
    } else {
        nul_from(f, p + 1)
    }
}

/// The records of the table that starts at `p`, with `rem` bytes of the
/// header left to read.
pub open spec fn parse_table(f: Seq<u8>, compress: bool, p: int, rem: int) -> Result<
    Seq<RecordView>,
    FarcError,
>
    decreases rem,
{
    if rem <= 0 {
        Ok(Seq::empty())
    } else {
        let z = nul_from(f, p);
        let q = z + 1 + fields_len(compress);
        if z < p || z >= f.len() || q > f.len() || q - p > rem {
            Err(FarcError::Malformed)
        } else {
            let rec = (
                f.subrange(p, z),
                be32_at(f, z + 1),
                be32_at(f, z + 5),
                if compress {
                    be32_at(f, z + 9)
                } else {
                    be32_at(f, z + 5)
                },
            );
            match parse_table(f, compress, q, rem - (q - p)) {
                Ok(rs) => Ok(seq![rec] + rs),
                Err(e) => Err(e),
            }
        }
    }
}

/// The content of the entry that record `r` locates in `f`.
pub open spec fn entry_data(f: Seq<u8>, compress: bool, r: RecordView) -> Result<
    Seq<u8>,
    FarcError,
> {
    if r.1 + r.2 > f.len() {
        Err(FarcError::Malformed)
    } else {
        let span = f.subrange(r.1 as int, r.1 + r.2);
        if !compress || r.2 == r.3 {
            Ok(span)
        } else {
            inflated(gunzipped(span), r.3)
        }
    }
}

/// A decoded stream, checked against its declared length.
pub open spec fn inflated(decoded: Option<Seq<u8>>, raw: u32) -> Result<Seq<u8>, FarcError> {
    match decoded {
        Some(d) => if d.len() == raw {
            Ok(d)
        } else {
            Err(FarcError::Decompress)
        },
        None => Err(FarcError::Decompress),
    }
}

/// The (name, content) pairs of records `rs`, in table order; the first
/// record whose data cannot be had decides the error.
pub open spec fn entries_data(f: Seq<u8>, compress: bool, rs: Seq<RecordView>) -> Result<
    Seq<(Seq<u8>, Seq<u8>)>,
    FarcError,
>
    decreases rs.len(),
{
    if rs.len() == 0 {
        Ok(Seq::empty())
    } else {
        match entries_data(f, compress, rs.drop_last()) {
            Err(e) => Err(e),
            Ok(ds) => match entry_data(f, compress, rs.last()) {
                Err(e) => Err(e),
                Ok(d) => Ok(ds.push((rs.last().0, d))),
            },
        }
    }
}

/// The (name, content) pairs that archive file `f` holds, in table order.
pub open spec fn parse_file(f: Seq<u8>) -> Result<Seq<(Seq<u8>, Seq<u8>)>, FarcError> {
    if f.len() < 4 {
        Err(FarcError::Malformed)
    } else if f.subrange(0, 4) != marker(true) && f.subrange(0, 4) != marker(false) {
        Err(FarcError::Unsupported)
    } else if f.len() < 12 {
        Err(FarcError::Malformed)
    } else if be32_at(f, 4) < 4 {
        Err(FarcError::Malformed)
    } else {
        let compress = f.subrange(0, 4) == marker(true);
        match parse_table(f, compress, 12, be32_at(f, 4) - 4) {
            Err(e) => Err(e),
            Ok(rs) => entries_data(f, compress, rs),
        }
    }
}

/// The mapping of a sequence of pairs; a later pair replaces an earlier
/// one of the same name.
pub open spec fn to_map(ps: Seq<(Seq<u8>, Seq<u8>)>) -> Map<Seq<u8>, Seq<u8>>
    decreases ps.len(),
{
    if ps.len() == 0 {
        Map::empty()
    } else {
        to_map(ps.drop_last()).insert(ps.last().0, ps.last().1)
    }
}

/// An error in the data of a prefix of the records is the error of all.
pub proof fn lemma_entries_data_err(f: Seq<u8>, compress: bool, rs: Seq<RecordView>, k: int)
    requires
        0 <= k <= rs.len(),
        entries_data(f, compress, rs.take(k)) is Err,
    ensures
        entries_data(f, compress, rs) == entries_data(f, compress, rs.take(k)),
    decreases rs.len() - k,
{
    if k < rs.len() {
        assert(rs.take(k + 1).drop_last() =~= rs.take(k));
        lemma_entries_data_err(f, compress, rs, k + 1);
    } else {
        assert(rs.take(k) =~= rs);
    }
}

/// One record of the table, as read.
pub struct Record {
    pub name: Vec<u8>,
    pub offset: u32,
    pub stored: u32,
    pub raw: u32,
}

impl View for Record {
    type V = RecordView;

    open spec fn view(&self) -> RecordView {
        (self.name@, self.offset, self.stored, self.raw)
    }
}

pub proof fn lemma_nul_from_skip(f: Seq<u8>, p: int, j: int)
    requires
        0 <= p <= j,
        forall|k: int| p <= k < j ==> f[k] != 0,
        j <= f.len(),
    ensures
        nul_from(f, p) == nul_from(f, j),
    decreases j - p,
{
    if p < j {
        lemma_nul_from_skip(f, p + 1, j);
    }
}

/// Copies `f[a..b]`.
fn copy_span(f: &[u8], a: usize, b: usize) -> (r: Vec<u8>)
    requires
        a <= b <= f@.len(),
    ensures
        r@ == f@.subrange(a as int, b as int),
{
    let mut r: Vec<u8> = Vec::new();
    let mut i: usize = a;
    while i < b
        invariant
            a <= i <= b <= f@.len(),
            r@ == f@.subrange(a as int, i as int),
        decreases b - i,
    {
        r.push(f[i]);
        assert(r@ =~= f@.subrange(a as int, i + 1));
        i = i + 1;
    }
    r
}

/// Prepends `acc` to a successful result.
pub open spec fn after(acc: Seq<RecordView>, res: Result<Seq<RecordView>, FarcError>) -> Result<
    Seq<RecordView>,
    FarcError,
> {
    match res {
        Ok(rs) => Ok(acc + rs),
        Err(e) => Err(e),
    }
}

/// Reads the entry table that starts at `start`, with `rem` bytes of the
/// header left.
pub fn read_table(f: &[u8], compress: bool, start: usize, rem: u32) -> (r: Result<
    Vec<Record>,
    FarcError,
>)
    requires
        start <= f@.len(),
    ensures
        match (r, parse_table(f@, compress, start as int, rem as int)) {
            (Ok(v), Ok(rs)) => v@.map_values(|x: Record| x@) == rs,
            (Err(e), Err(e2)) => e == e2,
            _ => false,
        },
{
    let ghost whole = parse_table(f@, compress, start as int, rem as int);
    let mut out: Vec<Record> = Vec::new();
    let mut p: usize = start;
    let mut left: u32 = rem;
    let fw: usize = if compress { 12 } else { 8 };
    while left > 0
        invariant
            p <= f@.len(),
            fw == fields_len(compress),
            whole == parse_table(f@, compress, start as int, rem as int),
            whole == after(
                out@.map_values(|x: Record| x@),
                parse_table(f@, compress, p as int, left as int),
            ),
        decreases left,
    {
        let mut z: usize = p;
        while z < f.len() && f[z] != 0
            invariant
                p <= z <= f@.len(),
                forall|k: int| p <= k < z ==> f@[k] != 0,
            decreases f@.len() - z,
        {
            z = z + 1;
        }
        proof {
            lemma_nul_from_skip(f@, p as int, z as int);
        }
        if z >= f.len() || f.len() - (z + 1) < fw || (z + 1 + fw - p) as u64 > left as u64 {
            return Err(FarcError::Malformed);
        }
        let q = z + 1 + fw;
        let name = copy_span(f, p, z);
        let offset = read_be32(f, z + 1);
        let stored = read_be32(f, z + 5);
        let raw = if compress { read_be32(f, z + 9) } else { stored };
        let rec = Record { name, offset, stored, raw };
        let ghost old_out = out@.map_values(|x: Record| x@);
        out.push(rec);
        proof {
            let rv = rec@;
            assert(out@.map_values(|x: Record| x@) =~= old_out.push(rv));
            let tail = parse_table(f@, compress, q as int, left - (q - p));
            match tail {
                Ok(rs) => {
                    assert(old_out + (seq![rv] + rs) =~= old_out.push(rv) + rs);
                },
                Err(_) => {},
            }
        }
        left = left - (q - p) as u32;
        p = q;
    }
    assert(out@.map_values(|x: Record| x@) + Seq::<RecordView>::empty() =~= out@.map_values(
        |x: Record| x@,
    ));
    Ok(out)
}

/// Checks a decoded stream against the declared uncompressed size.
pub fn check_inflated(decoded: Option<Vec<u8>>, raw: u32) -> (r: Result<Vec<u8>, FarcError>)
    ensures
        match (r, inflated(
            match decoded {
                Some(d) => Some(d@),
                None => None,
            },
            raw,
        )) {
            (Ok(v), Ok(d)) => v@ == d,
            (Err(e), Err(e2)) => e == e2,
            _ => false,
        },
{
    match decoded {
        Some(d) => if d.len() == raw as usize {
            Ok(d)
        } else {
            Err(FarcError::Decompress)
        },
        None => Err(FarcError::Decompress),
    }
}

/// The content of the entry that `rec` locates in `f`, inflated where the
/// variant and its sizes say it is compressed.
pub fn read_entry(f: &[u8], compress: bool, rec: &Record) -> (r: Result<Vec<u8>, FarcError>)
    ensures
        match (r, entry_data(f@, compress, rec@)) {
            (Ok(v), Ok(d)) => v@ == d,
            (Err(e), Err(e2)) => e == e2,
            _ => false,
        },
{
    if rec.offset as u64 + rec.stored as u64 > f.len() as u64 {
        return Err(FarcError::Malformed);
    }
    let a = rec.offset as usize;
    let b = a + rec.stored as usize;
    if !compress || rec.stored == rec.raw {
        Ok(copy_span(f, a, b))
    } else {
        let span = &f[a..b];
        assert(span@ == f@.subrange(a as int, b as int));
        let decoded = match gunzip(span) {
            Ok(d) => Some(d),
            Err(_) => None,
        };
        check_inflated(decoded, rec.raw)
    }
}

} // verus!

verus! {

impl Farc {
    /// Reads the archive held by the bytes of `file`. Every entry is held
    /// decoded; where a name occurs twice in the table, the later record
    /// wins.
    pub fn from_parser(file: &[u8]) -> (r: Result<Farc, FarcError>)
        ensures
            match (r, parse_file(file@)) {
                (Ok(a), Ok(ps)) => a.wf() && a.model() == to_map(ps),
                (Err(e), Err(e2)) => e == e2,
                _ => false,
            },
    {
        if file.len() < 4 {
            return Err(FarcError::Malformed);
        }
        let head = file[0] == 0x46u8 && file[1] == 0x41u8 && file[2] == 0x72u8;
        let compressed = head && file[3] == 0x43u8;
        let plain = head && file[3] == 0x63u8;
        proof {
            let m = file@.subrange(0, 4);
            assert(compressed ==> m =~= marker(true));
            assert(plain ==> m =~= marker(false));
            assert(m == marker(true) ==> m[3] == 0x43u8 && m[0] == 0x46u8 && m[1] == 0x41u8 && m[2]
                == 0x72u8);
            assert(m == marker(false) ==> m[3] == 0x63u8 && m[0] == 0x46u8 && m[1] == 0x41u8 && m[2]
                == 0x72u8);
        }
        if !compressed && !plain {
            return Err(FarcError::Unsupported);
        }
        if file.len() < 12 {
            return Err(FarcError::Malformed);
        }
        let header_length = read_be32(file, 4);
        if header_length < 4 {
            return Err(FarcError::Malformed);
        }
        let ghost fv = file@;
        let recs = match read_table(file, compressed, 12, header_length - 4) {
            Ok(v) => v,
            Err(e) => {
                return Err(e);
            },
        };
        let ghost rsv = recs@.map_values(|x: Record| x@);
        assert(parse_file(file@) == entries_data(fv, compressed, rsv));
        let ghost mut ds: Seq<(Seq<u8>, Seq<u8>)> = Seq::empty();
        let mut farc = Farc::new();
        let n = recs.len();
        let mut i: usize = 0;
        while i < n
            invariant
                n == recs@.len(),
                rsv == recs@.map_values(|x: Record| x@),
                fv == file@,
                parse_file(fv) == entries_data(fv, compressed, rsv),
                i <= n,
                entries_data(fv, compressed, rsv.take(i as int)) == Ok::<
                    Seq<(Seq<u8>, Seq<u8>)>,
                    FarcError,
                >(ds),
                farc.wf(),
                farc.model() == to_map(ds),
                ds.len() == i,
            decreases n - i,
        {
            assert(rsv.take(i + 1).drop_last() =~= rsv.take(i as int));
            assert(rsv[i as int] == recs@[i as int]@);
            let data = match read_entry(file, compressed, &recs[i]) {
                Ok(d) => d,
                Err(e) => {
                    proof {
                        assert(rsv.take(i + 1).last() == rsv[i as int]);
                        lemma_entries_data_err(fv, compressed, rsv, i + 1);
                        assert(entries_data(fv, compressed, rsv) == Err::<
                            Seq<(Seq<u8>, Seq<u8>)>,
                            FarcError,
                        >(e));
                    }
                    return Err(e);
                },
            };
            let name = recs[i].name.clone();
            proof {
                let prev = ds;
                ds = ds.push((name@, data@));
                assert(ds.drop_last() =~= prev);
            }
            farc.insert(name, data);
            i = i + 1;
        }
        assert(rsv.take(n as int) =~= rsv);
        Ok(farc)
    }
}

} // verus!
