//! Laying out an archive: marker, header, entry table, data region.
use crate::archive::{Entry, Farc, FarcError};
use crate::bytes::{be32, push_be32};
use crate::gzip::{gunzipped, gzip, gzipped};
use vstd::prelude::*;

verus! {

/// The marker of a variant: `FArC` with compressed entries, `FArc` without.
pub open spec fn marker(compress: bool) -> Seq<u8> {
    if compress {
        seq![0x46u8, 0x41u8, 0x72u8, 0x43u8]
    } else {
        seq![0x46u8, 0x41u8, 0x72u8, 0x63u8]
    }
}

/// Bytes of the integer fields after each name: offset and size, and the
/// uncompressed size in the compressed variant.
pub open spec fn fields_len(compress: bool) -> nat {
    if compress {
        12
    } else {
        8
    }
}

/// Bytes of the entry table for `es`.
pub open spec fn table_len(es: Seq<(Seq<u8>, Seq<u8>)>, compress: bool) -> nat
    decreases es.len(),
{
    if es.len() == 0 {
        0
    } else {
        table_len(es.drop_last(), compress) + es.last().0.len() + 1 + fields_len(compress)
    }
}

/// The payloads laid end to end.
pub open spec fn concat(ps: Seq<Seq<u8>>) -> Seq<u8>
    decreases ps.len(),
{
    if ps.len() == 0 {
        Seq::empty()
    } else {
        concat(ps.drop_last()) + ps.last()
    }
}

/// One table record: the name and its terminator, then the fields.
pub open spec fn record(name: Seq<u8>, offset: u32, stored: u32, raw: u32, compress: bool) -> Seq<
    u8,
> {
    name + seq![0u8] + be32(offset) + be32(stored) + if compress {
        be32(raw)
    } else {
        Seq::empty()
    }
}

/// The table records of `es`, whose payloads `ps` are laid out from `base`.
pub open spec fn table(
    es: Seq<(Seq<u8>, Seq<u8>)>,
    ps: Seq<Seq<u8>>,
    compress: bool,
    base: nat,
) -> Seq<u8>
    decreases es.len(),
{
    if es.len() == 0 {
        Seq::empty()
    } else {
        let n = es.len() - 1;
        table(es.drop_last(), ps.drop_last(), compress, base) + record(
            es[n].0,
            (base + concat(ps.drop_last()).len()) as u32,
            ps[n].len() as u32,
            es[n].1.len() as u32,
            compress,
        )
    }
}

/// The value of the header-length field: the alignment field and the table.
pub open spec fn header_length(es: Seq<(Seq<u8>, Seq<u8>)>, compress: bool) -> nat {
    4 + table_len(es, compress)
}

/// Where the data region starts.
pub open spec fn data_start(es: Seq<(Seq<u8>, Seq<u8>)>, compress: bool) -> nat {
    8 + header_length(es, compress)
}

/// The archive file holding entries `es`, stored as payloads `ps`.
pub open spec fn image(es: Seq<(Seq<u8>, Seq<u8>)>, ps: Seq<Seq<u8>>, compress: bool) -> Seq<u8> {
    marker(compress) + be32(header_length(es, compress) as u32) + be32(0) + table(
        es,
        ps,
        compress,
        data_start(es, compress),
    ) + concat(ps)
}

/// Every offset and size of the layout fits in 32 bits.
pub open spec fn fits(es: Seq<(Seq<u8>, Seq<u8>)>, ps: Seq<Seq<u8>>, compress: bool) -> bool {
    &&& data_start(es, compress) + concat(ps).len() <= u32::MAX
    &&& forall|i: int| 0 <= i < es.len() ==> #[trigger] es[i].1.len() <= u32::MAX
}

/// What each entry is stored as: its gzip stream, or itself.
pub open spec fn payloads(es: Seq<(Seq<u8>, Seq<u8>)>, compress: bool) -> Seq<Seq<u8>> {
    es.map_values(|e: (Seq<u8>, Seq<u8>)| if compress { gzipped(e.1) } else { e.1 })
}

/// Some entry name holds a zero byte.
pub open spec fn has_nul_name(es: Seq<(Seq<u8>, Seq<u8>)>) -> bool {
    exists|i: int, j: int| 0 <= i < es.len() && 0 <= j < es[i].0.len() && es[i].0[j] == 0
}

/// `file` is what writing archive entries `es` gives.
pub open spec fn written(es: Seq<(Seq<u8>, Seq<u8>)>, compress: bool, file: Seq<u8>) -> bool {
    &&& !has_nul_name(es)
    &&& fits(es, payloads(es, compress), compress)
    &&& file == image(es, payloads(es, compress), compress)
    &&& compress ==> forall|i: int|
        0 <= i < es.len() ==> gunzipped(#[trigger] gzipped(es[i].1)) == Some(es[i].1)
}

pub proof fn lemma_table_len_prefix(es: Seq<(Seq<u8>, Seq<u8>)>, compress: bool, i: int)
    requires
        0 <= i <= es.len(),
    ensures
        table_len(es.take(i), compress) <= table_len(es, compress),
    decreases es.len() - i,
{
    if i < es.len() {
        lemma_table_len_prefix(es, compress, i + 1);
        assert(es.take(i + 1).drop_last() =~= es.take(i));
    } else {
        assert(es.take(i) =~= es);
    }
}

pub proof fn lemma_concat_prefix(ps: Seq<Seq<u8>>, i: int)
    requires
        0 <= i <= ps.len(),
    ensures
        concat(ps.take(i)).len() <= concat(ps).len(),
    decreases ps.len() - i,
{
    if i < ps.len() {
        lemma_concat_prefix(ps, i + 1);
        assert(ps.take(i + 1).drop_last() =~= ps.take(i));
    } else {
        assert(ps.take(i) =~= ps);
    }
}

/// Lays out the archive of `entries`, each stored as the payload of the same
/// index. Fails with `TooLarge` where an offset or size exceeds 32 bits.
pub fn lay_out(entries: &[Entry], stored: &[Vec<u8>], compress: bool) -> (r: Result<
    Vec<u8>,
    FarcError,
>)
    requires
        entries.len() == stored@.len(),
    ensures
        ({
            let es = entries@.map_values(|e: Entry| (e.name@, e.data@));
            let ps = stored@.map_values(|p: Vec<u8>| p@);
            match r {
                Ok(v) => fits(es, ps, compress) && v@ == image(es, ps, compress),
                Err(e) => !fits(es, ps, compress) && e == FarcError::TooLarge,
            }
        }),
{
    let ghost es = entries@.map_values(|e: Entry| (e.name@, e.data@));
    let ghost ps = stored@.map_values(|p: Vec<u8>| p@);
    let n = entries.len();
    let max: u64 = 0xFFFF_FFFF;
    let fw: u64 = if compress { 12 } else { 8 };
    // the table's length, then the data region's
    let mut tl: u64 = 0;
    let mut i: usize = 0;
    while i < n
        invariant
            n == entries.len(),
            n == stored@.len(),
            es == entries@.map_values(|e: Entry| (e.name@, e.data@)),
            fw == fields_len(compress),
            max == u32::MAX,
            i <= n,
            tl == table_len(es.take(i as int), compress),
            tl <= max,
        decreases n - i,
    {
        assert(es.take(i + 1).drop_last() =~= es.take(i as int));
        let len = entries[i].name.len() as u64;
        if len > max || tl + len + 1 + fw > max {
            proof {
                lemma_table_len_prefix(es, compress, i + 1);
            }
            return Err(FarcError::TooLarge);
        }
        tl = tl + len + 1 + fw;
        i = i + 1;
    }
    assert(es.take(n as int) =~= es);
    if tl + 12 > max {
        return Err(FarcError::TooLarge);
    }
    let start: u64 = tl + 12;
    let mut dl: u64 = 0;
    let mut i: usize = 0;
    while i < n
        invariant
            n == entries.len(),
            n == stored@.len(),
            es == entries@.map_values(|e: Entry| (e.name@, e.data@)),
            ps == stored@.map_values(|p: Vec<u8>| p@),
            max == u32::MAX,
            i <= n,
            start == data_start(es, compress),
            dl == concat(ps.take(i as int)).len(),
            start + dl <= max,
            forall|j: int| 0 <= j < i ==> #[trigger] es[j].1.len() <= u32::MAX,
        decreases n - i,
    {
        assert(ps.take(i + 1).drop_last() =~= ps.take(i as int));
        assert(ps[i as int] == stored@[i as int]@);
        assert(es[i as int].1 == entries[i as int].data@);
        let len = stored[i].len() as u64;
        if len > max || start + dl + len > max || entries[i].data.len() as u64 > max {
            proof {
                lemma_concat_prefix(ps, i + 1);
            }
            return Err(FarcError::TooLarge);
        }
        dl = dl + len;
        i = i + 1;
    }
    assert(ps.take(n as int) =~= ps);
    assert(fits(es, ps, compress));
    let mut out: Vec<u8> = Vec::new();
    if compress {
        out.push(0x46u8);
        out.push(0x41u8);
        out.push(0x72u8);
        out.push(0x43u8);
    } else {
        out.push(0x46u8);
        out.push(0x41u8);
        out.push(0x72u8);
        out.push(0x63u8);
    }
    assert(out@ =~= marker(compress));
    push_be32(&mut out, (tl + 4) as u32);
    push_be32(&mut out, 0);
    let ghost head = out@;
    let mut off: u64 = start;
    let mut i: usize = 0;
    while i < n
        invariant
            n == entries.len(),
            n == stored@.len(),
            es == entries@.map_values(|e: Entry| (e.name@, e.data@)),
            ps == stored@.map_values(|p: Vec<u8>| p@),
            fits(es, ps, compress),
            i <= n,
            start == data_start(es, compress),
            off == start + concat(ps.take(i as int)).len(),
            out@ == head + table(es.take(i as int), ps.take(i as int), compress, start as nat),
        decreases n - i,
    {
        assert(es.take(i + 1).drop_last() =~= es.take(i as int));
        assert(ps.take(i + 1).drop_last() =~= ps.take(i as int));
        proof {
            lemma_concat_prefix(ps, i + 1);
        }
        assert(ps[i as int] == stored@[i as int]@);
        assert(es[i as int].1 == entries[i as int].data@);
        assert(es[i as int].0 == entries[i as int].name@);
        let ghost before = out@;
        out.extend_from_slice(entries[i].name.as_slice());
        out.push(0u8);
        push_be32(&mut out, off as u32);
        push_be32(&mut out, stored[i].len() as u32);
        if compress {
            push_be32(&mut out, entries[i].data.len() as u32);
        }
        assert(out@ =~= before + record(
            es[i as int].0,
            off as u32,
            ps[i as int].len() as u32,
            es[i as int].1.len() as u32,
            compress,
        ));
        off = off + stored[i].len() as u64;
        i = i + 1;
    }
    assert(es.take(n as int) =~= es);
    let ghost tabled = out@;
    let mut i: usize = 0;
    while i < n
        invariant
            n == stored@.len(),
            ps == stored@.map_values(|p: Vec<u8>| p@),
            i <= n,
            out@ == tabled + concat(ps.take(i as int)),
        decreases n - i,
    {
        assert(ps.take(i + 1).drop_last() =~= ps.take(i as int));
        assert(ps[i as int] == stored@[i as int]@);
        out.extend_from_slice(stored[i].as_slice());
        assert(out@ =~= tabled + concat(ps.take(i + 1)));
        i = i + 1;
    }
    assert(ps.take(n as int) =~= ps);
    assert(out@ =~= image(es, ps, compress));
    Ok(out)
}

} // verus!

verus! {

/// Whether `name` holds a zero byte.
pub fn name_has_nul(name: &[u8]) -> (r: bool)
    ensures
        r == exists|j: int| 0 <= j < name@.len() && name@[j] == 0,
{
    let mut j: usize = 0;
    while j < name.len()
        invariant
            j <= name@.len(),
            forall|k: int| 0 <= k < j ==> name@[k] != 0,
        decreases name@.len() - j,
    {
        if name[j] == 0 {
            return true;
        }
        j = j + 1;
    }
    false
}

impl Farc {
    /// The archive file of this archive, in the compressed variant (each
    /// entry gzip-encoded) or the plain one. Names are checked before any
    /// entry is encoded.
    pub fn write_parser(&self, compress: bool) -> (r: Result<Vec<u8>, FarcError>)
        requires
            self.wf(),
        ensures
            has_nul_name(self.pairs()) ==> r == Err::<Vec<u8>, FarcError>(FarcError::NulInName),
            !has_nul_name(self.pairs()) && !compress ==> (r is Ok <==> fits(
                self.pairs(),
                payloads(self.pairs(), false),
                false,
            )),
            match r {
                Ok(v) => written(self.pairs(), compress, v@),
                Err(FarcError::NulInName) => has_nul_name(self.pairs()),
                Err(FarcError::TooLarge) => !has_nul_name(self.pairs()) && !fits(
                    self.pairs(),
                    payloads(self.pairs(), compress),
                    compress,
                ),
                Err(FarcError::Io) => compress && !has_nul_name(self.pairs()),
                Err(_) => false,
            },
    {
        let entries = self.entries();
        let ghost es = self.pairs();
        let n = entries.len();
        let mut i: usize = 0;
        while i < n
            invariant
                n == entries@.len(),
                es == entries@.map_values(|e: Entry| (e.name@, e.data@)),
                es == self.pairs(),
                i <= n,
                forall|a: int, b: int|
                    0 <= a < i && 0 <= b < es[a].0.len() ==> es[a].0[b] != 0,
            decreases n - i,
        {
            assert(es[i as int].0 == entries@[i as int].name@);
            if name_has_nul(entries[i].name.as_slice()) {
                assert(has_nul_name(es));
                return Err(FarcError::NulInName);
            }
            i = i + 1;
        }
        assert(!has_nul_name(es));
        let mut stored: Vec<Vec<u8>> = Vec::new();
        let mut i: usize = 0;
        while i < n
            invariant
                n == entries@.len(),
                es == entries@.map_values(|e: Entry| (e.name@, e.data@)),
                !has_nul_name(es),
                es == self.pairs(),
                i <= n,
                stored@.len() == i,
                forall|j: int|
                    0 <= j < i ==> #[trigger] stored@[j]@ == payloads(es, compress)[j],
                compress ==> forall|j: int|
                    0 <= j < i ==> gunzipped(#[trigger] gzipped(es[j].1)) == Some(es[j].1),
            decreases n - i,
        {
            assert(es[i as int].1 == entries@[i as int].data@);
            if compress {
                match gzip(entries[i].data.as_slice()) {
                    Ok(p) => stored.push(p),
                    Err(_) => return Err(FarcError::Io),
                }
            } else {
                stored.push(entries[i].data.clone());
            }
            i = i + 1;
        }
        assert(stored@.map_values(|p: Vec<u8>| p@) =~= payloads(es, compress));
        let r = lay_out(entries.as_slice(), stored.as_slice(), compress);
        r
    }
}

} // verus!
