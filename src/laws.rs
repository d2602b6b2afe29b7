//! What holds between writing and reading archives.
use crate::archive::{describes, strictly_sorted, Farc};
use crate::bytes::{be32, be32_at, lemma_be32_round_trip, lex_lt};
use crate::gzip::{gunzipped, gzipped};
use crate::read::{
    entries_data, entry_data, lemma_nul_from_skip, nul_from, parse_file, parse_table, to_map,
    RecordView,
};
use crate::write::{
    concat, data_start, fields_len, fits, has_nul_name, header_length, image, marker, payloads,
    record, table, table_len, written, lemma_table_len_prefix,
};
use vstd::prelude::*;

verus! {

/// The record that the table of a written archive holds for entry `i`.
pub open spec fn layout_record(
    es: Seq<(Seq<u8>, Seq<u8>)>,
    ps: Seq<Seq<u8>>,
    compress: bool,
    i: int,
) -> RecordView {
    (
        es[i].0,
        (data_start(es, compress) + concat(ps.take(i)).len()) as u32,
        ps[i].len() as u32,
        if compress {
            es[i].1.len() as u32
        } else {
            ps[i].len() as u32
        },
    )
}

/// The records of the table of a written archive, in order.
pub open spec fn layout_records(
    es: Seq<(Seq<u8>, Seq<u8>)>,
    ps: Seq<Seq<u8>>,
    compress: bool,
) -> Seq<RecordView> {
    Seq::new(es.len(), |i: int| layout_record(es, ps, compress, i))
}

/// Bytes of the table record of entry `i`.
pub open spec fn record_len(es: Seq<(Seq<u8>, Seq<u8>)>, compress: bool, i: int) -> nat {
    es[i].0.len() + 1 + fields_len(compress)
}

proof fn lemma_table_shape(
    es: Seq<(Seq<u8>, Seq<u8>)>,
    ps: Seq<Seq<u8>>,
    compress: bool,
    base: nat,
)
    requires
        es.len() == ps.len(),
    ensures
        table(es, ps, compress, base).len() == table_len(es, compress),
    decreases es.len(),
{
    if es.len() > 0 {
        lemma_table_shape(es.drop_last(), ps.drop_last(), compress, base);
    }
}

proof fn lemma_table_prefix(
    es: Seq<(Seq<u8>, Seq<u8>)>,
    ps: Seq<Seq<u8>>,
    compress: bool,
    base: nat,
    k: int,
)
    requires
        es.len() == ps.len(),
        0 <= k <= es.len(),
    ensures
        table(es.take(k), ps.take(k), compress, base) == table(es, ps, compress, base).take(
            table_len(es.take(k), compress) as int,
        ),
    decreases es.len() - k,
{
    lemma_table_shape(es.take(k), ps.take(k), compress, base);
    if k == es.len() {
        assert(es.take(k) =~= es);
        assert(ps.take(k) =~= ps);
        lemma_table_shape(es, ps, compress, base);
        assert(table(es, ps, compress, base).take(table_len(es, compress) as int) =~= table(
            es,
            ps,
            compress,
            base,
        ));
    } else {
        lemma_table_prefix(es, ps, compress, base, k + 1);
        assert(es.take(k + 1).drop_last() =~= es.take(k));
        assert(ps.take(k + 1).drop_last() =~= ps.take(k));
        lemma_table_shape(es.take(k + 1), ps.take(k + 1), compress, base);
        let big = table(es, ps, compress, base);
        let t1 = table(es.take(k + 1), ps.take(k + 1), compress, base);
        let t0 = table(es.take(k), ps.take(k), compress, base);
        assert(t0 =~= t1.take(t0.len() as int));
        assert(table_len(es.take(k + 1), compress) >= table_len(es.take(k), compress));
        lemma_table_shape(es, ps, compress, base);
        lemma_table_len_prefix(es, compress, k + 1);
        assert forall|i: int| 0 <= i < t0.len() implies t0[i] == big[i] by {
            assert(t0[i] == t1[i]);
            assert(t1[i] == big.take(table_len(es.take(k + 1), compress) as int)[i]);
        }
        assert(t0 =~= big.take(table_len(es.take(k), compress) as int));
    }
}

proof fn lemma_concat_prefix_eq(ps: Seq<Seq<u8>>, k: int)
    requires
        0 <= k <= ps.len(),
    ensures
        concat(ps.take(k)) == concat(ps).take(concat(ps.take(k)).len() as int),
        concat(ps.take(k)).len() <= concat(ps).len(),
    decreases ps.len() - k,
{
    if k == ps.len() {
        assert(ps.take(k) =~= ps);
        assert(concat(ps).take(concat(ps).len() as int) =~= concat(ps));
    } else {
        lemma_concat_prefix_eq(ps, k + 1);
        assert(ps.take(k + 1).drop_last() =~= ps.take(k));
        let c1 = concat(ps.take(k + 1));
        let c0 = concat(ps.take(k));
        assert(c0 =~= c1.take(c0.len() as int));
        assert(c0 =~= concat(ps).take(c0.len() as int));
    }
}

} // verus!

verus! {

proof fn lemma_image_len(es: Seq<(Seq<u8>, Seq<u8>)>, ps: Seq<Seq<u8>>, compress: bool)
    requires
        es.len() == ps.len(),
    ensures
        image(es, ps, compress).len() == data_start(es, compress) + concat(ps).len(),
        data_start(es, compress) == 12 + table_len(es, compress),
{
    lemma_table_shape(es, ps, compress, data_start(es, compress));
}

proof fn lemma_record_in_image(
    es: Seq<(Seq<u8>, Seq<u8>)>,
    ps: Seq<Seq<u8>>,
    compress: bool,
    k: int,
)
    requires
        es.len() == ps.len(),
        0 <= k < es.len(),
    ensures
        ({
            let p = 12 + table_len(es.take(k), compress) as int;
            &&& p + record_len(es, compress, k) == 12 + table_len(es.take(k + 1), compress)
            &&& 12 + table_len(es.take(k + 1), compress) <= data_start(es, compress)
            &&& image(es, ps, compress).subrange(p, p + record_len(es, compress, k)) == record(
                es[k].0,
                (data_start(es, compress) + concat(ps.take(k)).len()) as u32,
                ps[k].len() as u32,
                es[k].1.len() as u32,
                compress,
            )
        }),
{
    let start = data_start(es, compress);
    let f = image(es, ps, compress);
    let big = table(es, ps, compress, start);
    lemma_image_len(es, ps, compress);
    lemma_table_shape(es, ps, compress, start);
    lemma_table_prefix(es, ps, compress, start, k + 1);
    lemma_table_len_prefix(es, compress, k + 1);
    assert(es.take(k + 1).drop_last() =~= es.take(k));
    assert(ps.take(k + 1).drop_last() =~= ps.take(k));
    let t1 = table(es.take(k + 1), ps.take(k + 1), compress, start);
    let t0 = table(es.take(k), ps.take(k), compress, start);
    lemma_table_shape(es.take(k), ps.take(k), compress, start);
    let rec = record(
        es[k].0,
        (start + concat(ps.take(k)).len()) as u32,
        ps[k].len() as u32,
        es[k].1.len() as u32,
        compress,
    );
    assert(t1 == t0 + rec);
    let p = 12 + table_len(es.take(k), compress) as int;
    let head = marker(compress) + be32(header_length(es, compress) as u32) + be32(0);
    assert(f == head + big + concat(ps));
    assert(head.len() == 12);
    assert forall|j: int| 0 <= j < rec.len() implies f[p + j] == rec[j] by {
        assert(f[p + j] == big[p + j - 12]);
        assert(t1[t0.len() + j] == big[t0.len() + j]);
    }
    assert(f.subrange(p, p + record_len(es, compress, k)) =~= rec);
}

proof fn lemma_payload_in_image(
    es: Seq<(Seq<u8>, Seq<u8>)>,
    ps: Seq<Seq<u8>>,
    compress: bool,
    k: int,
)
    requires
        es.len() == ps.len(),
        0 <= k < es.len(),
    ensures
        ({
            let o = data_start(es, compress) + concat(ps.take(k)).len() as int;
            &&& concat(ps.take(k + 1)).len() == concat(ps.take(k)).len() + ps[k].len()
            &&& o + ps[k].len() <= image(es, ps, compress).len()
            &&& image(es, ps, compress).subrange(o, o + ps[k].len()) == ps[k]
        }),
{
    let start = data_start(es, compress);
    let f = image(es, ps, compress);
    lemma_image_len(es, ps, compress);
    lemma_table_shape(es, ps, compress, start);
    lemma_concat_prefix_eq(ps, k + 1);
    assert(ps.take(k + 1).drop_last() =~= ps.take(k));
    let c0 = concat(ps.take(k));
    let c1 = concat(ps.take(k + 1));
    let d = concat(ps);
    assert(c1 == c0 + ps[k]);
    let o = start + c0.len() as int;
    let head = marker(compress) + be32(header_length(es, compress) as u32) + be32(0);
    let big = table(es, ps, compress, start);
    assert(f == head + big + d);
    assert forall|j: int| 0 <= j < ps[k].len() implies f[o + j] == ps[k][j] by {
        assert(f[o + j] == d[c0.len() + j]);
        assert(c1[c0.len() + j] == d[c0.len() + j]);
    }
    assert(f.subrange(o, o + ps[k].len()) =~= ps[k]);
}

} // verus!

verus! {

proof fn lemma_field_in_image(f: Seq<u8>, at: int, rec: Seq<u8>, from: int, v: u32)
    requires
        0 <= at,
        at + rec.len() <= f.len(),
        f.subrange(at, at + rec.len()) == rec,
        0 <= from,
        from + 4 <= rec.len(),
        rec.subrange(from, from + 4) == be32(v),
    ensures
        be32_at(f, at + from) == v,
{
    assert forall|j: int| 0 <= j < 4 implies f[at + from + j] == be32(v)[j] by {
        assert(f.subrange(at, at + rec.len())[from + j] == f[at + from + j]);
        assert(rec.subrange(from, from + 4)[j] == rec[from + j]);
    }
    assert(f.subrange(at + from, at + from + 4) =~= be32(v));
    lemma_be32_round_trip(f, at + from, v);
}

/// One record read from its bytes at `p`.
proof fn lemma_parse_record(
    f: Seq<u8>,
    compress: bool,
    p: int,
    rem: int,
    name: Seq<u8>,
    off: u32,
    stored: u32,
    raw: u32,
)
    requires
        0 <= p,
        name.len() + 1 + fields_len(compress) <= rem,
        p + name.len() + 1 + fields_len(compress) <= f.len(),
        f.subrange(p, p + name.len() + 1 + fields_len(compress)) == record(
            name,
            off,
            stored,
            raw,
            compress,
        ),
        forall|j: int| 0 <= j < name.len() ==> name[j] != 0,
    ensures
        ({
            let rl = name.len() + 1 + fields_len(compress);
            let rv = (name, off, stored, if compress { raw } else { stored });
            parse_table(f, compress, p, rem) == match parse_table(f, compress, p + rl, rem - rl) {
                Ok(rs) => Ok(seq![rv] + rs),
                Err(e) => Err(e),
            }
        }),
{
    let rl = name.len() + 1 + fields_len(compress);
    let rec = record(name, off, stored, raw, compress);
    let z = p + name.len();
    assert forall|j: int| p <= j < z implies f[j] != 0 by {
        assert(f.subrange(p, p + rl)[j - p] == f[j]);
        assert(rec[j - p] == name[j - p]);
    }
    assert(f[z] == 0) by {
        assert(f.subrange(p, p + rl)[z - p] == f[z]);
    }
    lemma_nul_from_skip(f, p, z);
    assert(nul_from(f, z) == z);
    assert(f.subrange(p, z) =~= name) by {
        assert forall|j: int| 0 <= j < name.len() implies f.subrange(p, z)[j] == name[j] by {
            assert(f.subrange(p, p + rl)[j] == f[p + j]);
        }
    }
    let nl = name.len() as int;
    assert(rec.subrange(nl + 1, nl + 5) =~= be32(off));
    assert(rec.subrange(nl + 5, nl + 9) =~= be32(stored));
    lemma_field_in_image(f, p, rec, nl + 1, off);
    lemma_field_in_image(f, p, rec, nl + 5, stored);
    if compress {
        assert(rec.subrange(nl + 9, nl + 13) =~= be32(raw));
        lemma_field_in_image(f, p, rec, nl + 9, raw);
    }
}

/// The table record of entry `i` stands in `f` where the layout puts it.
spec fn record_at(
    f: Seq<u8>,
    es: Seq<(Seq<u8>, Seq<u8>)>,
    ps: Seq<Seq<u8>>,
    compress: bool,
    i: int,
) -> bool {
    let p = 12 + table_len(es.take(i), compress) as int;
    &&& p + record_len(es, compress, i) == 12 + table_len(es.take(i + 1), compress)
    &&& table_len(es.take(i + 1), compress) <= table_len(es, compress)
    &&& p + record_len(es, compress, i) <= f.len()
    &&& f.subrange(p, p + record_len(es, compress, i)) == record(
        es[i].0,
        (data_start(es, compress) + concat(ps.take(i)).len()) as u32,
        ps[i].len() as u32,
        es[i].1.len() as u32,
        compress,
    )
}

proof fn lemma_parse_records(
    f: Seq<u8>,
    es: Seq<(Seq<u8>, Seq<u8>)>,
    ps: Seq<Seq<u8>>,
    compress: bool,
    k: int,
)
    requires
        es.len() == ps.len(),
        0 <= k <= es.len(),
        forall|i: int, j: int| 0 <= i < es.len() && 0 <= j < es[i].0.len() ==> es[i].0[j] != 0,
        forall|i: int| 0 <= i < es.len() ==> record_at(f, es, ps, compress, i),
    ensures
        parse_table(
            f,
            compress,
            12 + table_len(es.take(k), compress) as int,
            table_len(es, compress) - table_len(es.take(k), compress),
        ) == Ok::<Seq<RecordView>, crate::archive::FarcError>(
            layout_records(es, ps, compress).subrange(k, es.len() as int),
        ),
    decreases es.len() - k,
{
    let n = es.len() as int;
    let recs = layout_records(es, ps, compress);
    if k == n {
        assert(es.take(k) =~= es);
        assert(recs.subrange(k, n) =~= Seq::<RecordView>::empty());
    } else {
        assert(record_at(f, es, ps, compress, k));
        let name = es[k].0;
        assert forall|j: int| 0 <= j < name.len() implies name[j] != 0 by {
            assert(0 <= k < es.len() && 0 <= j < es[k].0.len());
        }
        lemma_parse_record(
            f,
            compress,
            12 + table_len(es.take(k), compress) as int,
            table_len(es, compress) - table_len(es.take(k), compress),
            name,
            (data_start(es, compress) + concat(ps.take(k)).len()) as u32,
            ps[k].len() as u32,
            es[k].1.len() as u32,
        );
        lemma_parse_records(f, es, ps, compress, k + 1);
        assert(recs.subrange(k, n) =~= seq![recs[k]] + recs.subrange(k + 1, n));
    }
}

proof fn lemma_parse_table_image(es: Seq<(Seq<u8>, Seq<u8>)>, ps: Seq<Seq<u8>>, compress: bool)
    requires
        es.len() == ps.len(),
        !has_nul_name(es),
    ensures
        parse_table(image(es, ps, compress), compress, 12, table_len(es, compress) as int)
            == Ok::<Seq<RecordView>, crate::archive::FarcError>(layout_records(es, ps, compress)),
{
    let f = image(es, ps, compress);
    assert forall|i: int| 0 <= i < es.len() implies record_at(f, es, ps, compress, i) by {
        lemma_record_in_image(es, ps, compress, i);
        lemma_image_len(es, ps, compress);
        lemma_table_len_prefix(es, compress, i + 1);
    }
    assert forall|i: int, j: int| 0 <= i < es.len() && 0 <= j < es[i].0.len() implies es[i].0[j]
        != 0 by {
        assert(!(0 <= i < es.len() && 0 <= j < es[i].0.len() && es[i].0[j] == 0));
    }
    lemma_parse_records(f, es, ps, compress, 0);
    assert(es.take(0) =~= Seq::<(Seq<u8>, Seq<u8>)>::empty());
    assert(layout_records(es, ps, compress).subrange(0, es.len() as int) =~= layout_records(
        es,
        ps,
        compress,
    ));
}

} // verus!

verus! {

proof fn lemma_entries_data_all(
    f: Seq<u8>,
    compress: bool,
    recs: Seq<RecordView>,
    es: Seq<(Seq<u8>, Seq<u8>)>,
)
    requires
        recs.len() == es.len(),
        forall|i: int|
            0 <= i < recs.len() ==> recs[i].0 == es[i].0 && entry_data(f, compress, #[trigger] recs[i])
                == Ok::<Seq<u8>, crate::archive::FarcError>(es[i].1),
    ensures
        entries_data(f, compress, recs) == Ok::<Seq<(Seq<u8>, Seq<u8>)>, crate::archive::FarcError>(
            es,
        ),
    decreases recs.len(),
{
    if recs.len() > 0 {
        let n = recs.len() - 1;
        assert forall|i: int| 0 <= i < n implies recs.drop_last()[i].0 == es.drop_last()[i].0
            && entry_data(f, compress, #[trigger] recs.drop_last()[i]) == Ok::<
            Seq<u8>,
            crate::archive::FarcError,
        >(es.drop_last()[i].1) by {
            assert(recs.drop_last()[i] == recs[i]);
        }
        lemma_entries_data_all(f, compress, recs.drop_last(), es.drop_last());
        assert(recs[n] == recs.last());
        assert(entry_data(f, compress, recs[n]) == Ok::<Seq<u8>, crate::archive::FarcError>(
            es[n].1,
        ));
        assert(es.drop_last().push((recs.last().0, es[n].1)) =~= es) by {
            assert(es[n] == (es[n].0, es[n].1));
        }
    } else {
        assert(es =~= Seq::<(Seq<u8>, Seq<u8>)>::empty());
    }
}

proof fn lemma_entry_in_image(
    es: Seq<(Seq<u8>, Seq<u8>)>,
    ps: Seq<Seq<u8>>,
    compress: bool,
    k: int,
)
    requires
        es.len() == ps.len(),
        0 <= k < es.len(),
        fits(es, ps, compress),
        compress ==> gunzipped(ps[k]) == Some(es[k].1) && ps[k].len() != es[k].1.len(),
        !compress ==> ps[k] == es[k].1,
    ensures
        entry_data(image(es, ps, compress), compress, layout_record(es, ps, compress, k)) == Ok::<
            Seq<u8>,
            crate::archive::FarcError,
        >(es[k].1),
{
    lemma_payload_in_image(es, ps, compress, k);
    lemma_concat_prefix_eq(ps, k + 1);
    assert(es[k].1.len() <= u32::MAX);
}

proof fn lemma_describes_drop_last(es: Seq<(Seq<u8>, Seq<u8>)>, m: Map<Seq<u8>, Seq<u8>>)
    requires
        es.len() > 0,
        strictly_sorted(es),
        describes(es, m),
    ensures
        strictly_sorted(es.drop_last()),
        describes(es.drop_last(), m.remove(es.last().0)),
        m.contains_key(es.last().0),
        m[es.last().0] == es.last().1,
        forall|i: int| 0 <= i < es.len() - 1 ==> lex_lt(#[trigger] es[i].0, es.last().0),
{
    let n = es.len() - 1;
    let rest = es.drop_last();
    let k = es[n].0;
    let m2 = m.remove(k);
    assert(m.contains_key(es[n].0) && m[es[n].0] == es[n].1);
    assert forall|i: int| 0 <= i < rest.len() implies rest[i].0 != k by {
        crate::bytes::lemma_lex_lt_asym(es[i].0, es[n].0);
    }
    assert forall|i: int| 0 <= i < rest.len() implies #[trigger] m2.contains_key(rest[i].0)
        && m2[rest[i].0] == rest[i].1 by {
        assert(rest[i] == es[i]);
    }
    assert forall|x: Seq<u8>| #[trigger] m2.contains_key(x) implies exists|i: int|
        0 <= i < rest.len() && rest[i].0 == x by {
        let i = choose|i: int| 0 <= i < es.len() && es[i].0 == x;
        assert(rest[i].0 == x);
    }
    assert forall|i: int, j: int| 0 <= i < j < rest.len() implies lex_lt(
        #[trigger] rest[i].0,
        #[trigger] rest[j].0,
    ) by {
        assert(rest[i] == es[i] && rest[j] == es[j]);
    }
    assert forall|i: int| 0 <= i < es.len() - 1 implies lex_lt(#[trigger] es[i].0, es.last().0) by {
        assert(lex_lt(es[i].0, es[n].0));
    }
}

proof fn lemma_to_map_sorted(es: Seq<(Seq<u8>, Seq<u8>)>, m: Map<Seq<u8>, Seq<u8>>)
    requires
        strictly_sorted(es),
        describes(es, m),
    ensures
        to_map(es) == m,
    decreases es.len(),
{
    if es.len() == 0 {
        assert(m =~= Map::<Seq<u8>, Seq<u8>>::empty());
    } else {
        let k = es.last().0;
        lemma_describes_drop_last(es, m);
        lemma_to_map_sorted(es.drop_last(), m.remove(k));
        assert(m.remove(k).insert(k, es.last().1) =~= m);
    }
}

/// Name-sorted entries with unique names are fixed by the mapping they
/// describe.
proof fn lemma_sorted_unique(
    es1: Seq<(Seq<u8>, Seq<u8>)>,
    es2: Seq<(Seq<u8>, Seq<u8>)>,
    m: Map<Seq<u8>, Seq<u8>>,
)
    requires
        strictly_sorted(es1),
        describes(es1, m),
        strictly_sorted(es2),
        describes(es2, m),
    ensures
        es1 == es2,
    decreases es1.len(),
{
    if es1.len() == 0 {
        if es2.len() > 0 {
            assert(m.contains_key(es2[0].0));
        }
        assert(es1 =~= es2);
    } else if es2.len() == 0 {
        assert(m.contains_key(es1[0].0));
    } else {
        lemma_describes_drop_last(es1, m);
        lemma_describes_drop_last(es2, m);
        let k1 = es1.last().0;
        let k2 = es2.last().0;
        let j = choose|j: int| 0 <= j < es2.len() && es2[j].0 == k1;
        let i = choose|i: int| 0 <= i < es1.len() && es1[i].0 == k2;
        if j < es2.len() - 1 && i < es1.len() - 1 {
            crate::bytes::lemma_lex_lt_asym(k1, k2);
        }
        assert(k1 == k2);
        lemma_sorted_unique(es1.drop_last(), es2.drop_last(), m.remove(k1));
        assert(es1 =~= es1.drop_last().push((k1, m[k1])));
        assert(es2 =~= es2.drop_last().push((k2, m[k2])));
    }
}

/// Two archives with the same mapping hold the same entries in the same
/// order.
pub proof fn lemma_entries_fixed_by_mapping(a: Farc, b: Farc)
    requires
        a.wf(),
        b.wf(),
        a.model() == b.model(),
    ensures
        a.pairs() == b.pairs(),
{
    crate::archive::lemma_model_described(a);
    crate::archive::lemma_model_described(b);
    lemma_sorted_unique(a.pairs(), b.pairs(), a.model());
}

/// Writing is deterministic: archives with the same mapping, written with
/// the same compress flag, give byte-identical files.
pub proof fn lemma_write_deterministic(
    a: Farc,
    b: Farc,
    compress: bool,
    file1: Seq<u8>,
    file2: Seq<u8>,
)
    requires
        a.wf(),
        b.wf(),
        a.model() == b.model(),
        written(a.pairs(), compress, file1),
        written(b.pairs(), compress, file2),
    ensures
        file1 == file2,
{
    lemma_entries_fixed_by_mapping(a, b);
}

/// In a written file the table lists the entries in strictly increasing
/// name order; each record's offset is where that entry's stored bytes
/// start, and the spans follow one another in table order, without gaps or
/// overlap, from the end of the header to the end of the file.
pub proof fn lemma_written_layout(a: Farc, compress: bool, file: Seq<u8>)
    requires
        a.wf(),
        written(a.pairs(), compress, file),
    ensures
        ({
            let recs = layout_records(a.pairs(), payloads(a.pairs(), compress), compress);
            let n = recs.len();
            &&& file.len() >= 12
            &&& be32_at(file, 4) >= 4
            &&& parse_table(file, compress, 12, be32_at(file, 4) - 4) == Ok::<
                Seq<RecordView>,
                crate::archive::FarcError,
            >(recs)
            &&& n == a.pairs().len()
            &&& forall|i: int, j: int|
                0 <= i < j < n ==> lex_lt(#[trigger] recs[i].0, #[trigger] recs[j].0)
            &&& forall|i: int|
                0 <= i < n ==> #[trigger] recs[i].1 + recs[i].2 <= file.len() && file.subrange(
                    recs[i].1 as int,
                    recs[i].1 + recs[i].2,
                ) == payloads(a.pairs(), compress)[i]
            &&& n > 0 ==> recs[0].1 == 8 + be32_at(file, 4)
            &&& forall|i: int| 0 <= i < n - 1 ==> #[trigger] recs[i].1 + recs[i].2 == recs[i + 1].1
            &&& n > 0 ==> recs[n - 1].1 + recs[n - 1].2 == file.len()
        }),
{
    let es = a.pairs();
    let ps = payloads(es, compress);
    let recs = layout_records(es, ps, compress);
    let n = es.len() as int;
    crate::archive::lemma_model_described(a);
    lemma_image_len(es, ps, compress);
    lemma_parse_table_image(es, ps, compress);
    let hl = header_length(es, compress) as u32;
    assert(file.subrange(4, 8) =~= be32(hl));
    lemma_be32_round_trip(file, 4, hl);
    assert forall|i: int| 0 <= i < n implies #[trigger] recs[i].1 + recs[i].2 <= file.len()
        && file.subrange(recs[i].1 as int, recs[i].1 + recs[i].2) == ps[i] by {
        lemma_payload_in_image(es, ps, compress, i);
        lemma_concat_prefix_eq(ps, i + 1);
    }
    assert forall|i: int| 0 <= i < n - 1 implies #[trigger] recs[i].1 + recs[i].2 == recs[i
        + 1].1 by {
        lemma_payload_in_image(es, ps, compress, i);
        lemma_concat_prefix_eq(ps, i + 1);
        lemma_concat_prefix_eq(ps, i + 2);
    }
    if n > 0 {
        assert(ps.take(0) =~= Seq::<Seq<u8>>::empty());
        lemma_payload_in_image(es, ps, compress, n - 1);
        lemma_concat_prefix_eq(ps, n);
        assert(ps.take(n) =~= ps);
    }
}

/// Reading back the file that writing an archive gave yields its entries,
/// in the order of their names, and hence the archive itself. In the
/// compressed variant this holds where no entry's gzip stream is exactly as
/// long as the entry: a record whose two sizes agree is read as stored.
pub proof fn lemma_read_after_write(a: Farc, compress: bool, file: Seq<u8>)
    requires
        a.wf(),
        written(a.pairs(), compress, file),
        compress ==> forall|i: int|
            0 <= i < a.pairs().len() ==> (#[trigger] gzipped(a.pairs()[i].1)).len()
                != a.pairs()[i].1.len(),
    ensures
        parse_file(file) == Ok::<Seq<(Seq<u8>, Seq<u8>)>, crate::archive::FarcError>(a.pairs()),
        to_map(a.pairs()) == a.model(),
{
    let es = a.pairs();
    let ps = payloads(es, compress);
    let f = image(es, ps, compress);
    lemma_image_len(es, ps, compress);
    lemma_parse_table_image(es, ps, compress);
    let recs = layout_records(es, ps, compress);
    assert forall|i: int| 0 <= i < recs.len() implies recs[i].0 == es[i].0 && entry_data(
        f,
        compress,
        #[trigger] recs[i],
    ) == Ok::<Seq<u8>, crate::archive::FarcError>(es[i].1) by {
        assert(ps[i] == if compress { gzipped(es[i].1) } else { es[i].1 });
        if compress {
            assert(gunzipped(gzipped(es[i].1)) == Some(es[i].1));
            assert(gzipped(es[i].1).len() != es[i].1.len());
        }
        lemma_entry_in_image(es, ps, compress, i);
    }
    lemma_entries_data_all(f, compress, recs, es);
    let hl = header_length(es, compress) as u32;
    assert(f.subrange(0, 4) =~= marker(compress));
    assert(f.subrange(4, 8) =~= be32(hl));
    lemma_be32_round_trip(f, 4, hl);
    assert(marker(true)[3] != marker(false)[3]);
    crate::archive::lemma_model_described(a);
    lemma_to_map_sorted(es, a.model());
}

} // verus!

verus! {

/// A file of at least four bytes whose marker is neither `FArc` nor `FArC`
/// is refused as unsupported.
pub proof fn lemma_unknown_marker_refused(file: Seq<u8>)
    requires
        file.len() >= 4,
        file.subrange(0, 4) != marker(true),
        file.subrange(0, 4) != marker(false),
    ensures
        parse_file(file) == Err::<Seq<(Seq<u8>, Seq<u8>)>, crate::archive::FarcError>(
            crate::archive::FarcError::Unsupported,
        ),
{
}

/// A table record that would run past the header length is refused as
/// malformed.
pub proof fn lemma_overlong_record_refused(f: Seq<u8>, compress: bool, p: int, rem: int)
    requires
        0 <= p,
        rem > 0,
        nul_from(f, p) + 1 + fields_len(compress) - p > rem,
    ensures
        parse_table(f, compress, p, rem) == Err::<Seq<RecordView>, crate::archive::FarcError>(
            crate::archive::FarcError::Malformed,
        ),
{
}

/// A compressed record that does not inflate to its declared size is
/// refused.
pub proof fn lemma_inflated_size_checked(f: Seq<u8>, r: RecordView)
    requires
        r.1 + r.2 <= f.len(),
        r.2 != r.3,
        match gunzipped(f.subrange(r.1 as int, r.1 + r.2)) {
            Some(d) => d.len() != r.3,
            None => true,
        },
    ensures
        entry_data(f, true, r) == Err::<Seq<u8>, crate::archive::FarcError>(
            crate::archive::FarcError::Decompress,
        ),
{
}

} // verus!
