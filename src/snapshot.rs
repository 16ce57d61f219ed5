use vstd::prelude::*;
use crate::pubkey::{Pubkey, le_bytes, u64_at, pubkey_bytes, pubkey_at, read_u64, write_u64, lemma_u64_at, lemma_pubkey_at};

verus! {

/// One lookup table as the snapshot holds it: its address and its entries.
pub type TableEntry = (Pubkey, Vec<Pubkey>);

/// The mathematical value of a snapshot listing.
pub open spec fn entries_view(v: Seq<TableEntry>) -> Seq<(Pubkey, Seq<Pubkey>)> {
    v.map_values(|e: TableEntry| (e.0, e.1@))
}

/// The keys one after another, 32 bytes each.
pub open spec fn keys_bytes(ks: Seq<Pubkey>) -> Seq<u8>
    decreases ks.len(),
{
    if ks.len() == 0 {
        Seq::empty()
    } else {
        keys_bytes(ks.drop_last()) + pubkey_bytes(ks.last())
    }
}

/// A table: its address, the number of its entries, then the entries.
pub open spec fn entry_bytes(e: (Pubkey, Seq<Pubkey>)) -> Seq<u8> {
    pubkey_bytes(e.0) + le_bytes(e.1.len() as u64) + keys_bytes(e.1)
}

pub open spec fn entries_bytes(es: Seq<(Pubkey, Seq<Pubkey>)>) -> Seq<u8>
    decreases es.len(),
{
    if es.len() == 0 {
        Seq::empty()
    } else {
        entries_bytes(es.drop_last()) + entry_bytes(es.last())
    }
}

/// The snapshot of a listing of tables: the number of tables, then each
/// table, every count an unsigned 64-bit little-endian integer.
pub open spec fn snapshot_bytes(es: Seq<(Pubkey, Seq<Pubkey>)>) -> Seq<u8> {
    le_bytes(es.len() as u64) + entries_bytes(es)
}

/// Reads `n` keys from position `p`; gives them and the position after them.
pub open spec fn parse_keys(b: Seq<u8>, p: int, n: nat) -> Option<(Seq<Pubkey>, int)>
    decreases n,
{
    if n == 0 {
        Some((Seq::empty(), p))
    } else {
        match parse_keys(b, p, (n - 1) as nat) {
            Some((ks, q)) => if q + 32 <= b.len() {
                Some((ks.push(pubkey_at(b, q)), q + 32))
            } else {
                None
            },
            None => None,
        }
    }
}

/// Reads one table from position `p`.
pub open spec fn parse_entry(b: Seq<u8>, p: int) -> Option<((Pubkey, Seq<Pubkey>), int)> {
    if p + 40 <= b.len() {
        match parse_keys(b, p + 40, u64_at(b, p + 32) as nat) {
            Some((ks, q)) => Some(((pubkey_at(b, p), ks), q)),
            None => None,
        }
    } else {
        None
    }
}

/// Reads `n` tables from position `p`.
pub open spec fn parse_entries(b: Seq<u8>, p: int, n: nat) -> Option<(Seq<(Pubkey, Seq<Pubkey>)>, int)>
    decreases n,
{
    if n == 0 {
        Some((Seq::empty(), p))
    } else {
        match parse_entries(b, p, (n - 1) as nat) {
            Some((es, q)) => match parse_entry(b, q) {
                Some((e, r)) => Some((es.push(e), r)),
                None => None,
            },
            None => None,
        }
    }
}

/// The listing that a snapshot holds, or `None` where the bytes are not a
/// snapshot: too short, or with bytes left over after the last table.
pub open spec fn parse_snapshot(b: Seq<u8>) -> Option<Seq<(Pubkey, Seq<Pubkey>)>> {
    if b.len() >= 8 {
        match parse_entries(b, 8, u64_at(b, 0) as nat) {
            Some((es, q)) => if q == b.len() {
                Some(es)
            } else {
                None
            },
            None => None,
        }
    } else {
        None
    }
}

/// The map that a listing stands for: a later table overrides an earlier one
/// at the same address.
pub open spec fn map_of(es: Seq<(Pubkey, Seq<Pubkey>)>) -> Map<Pubkey, Seq<Pubkey>>
    decreases es.len(),
{
    if es.len() == 0 {
        Map::empty()
    } else {
        map_of(es.drop_last()).insert(es.last().0, es.last().1)
    }
}

/// Counts in a listing fit the 64-bit integers that encode them.
pub open spec fn encodable(es: Seq<(Pubkey, Seq<Pubkey>)>) -> bool {
    es.len() <= u64::MAX && forall|i: int| 0 <= i < es.len() ==> #[trigger] es[i].1.len() <= u64::MAX
}

proof fn lemma_keys_bytes_len(ks: Seq<Pubkey>)
    ensures
        keys_bytes(ks).len() == 32 * ks.len(),
    decreases ks.len(),
{
    if ks.len() > 0 {
        lemma_keys_bytes_len(ks.drop_last());
    }
}

proof fn lemma_parse_keys(b: Seq<u8>, p: int, ks: Seq<Pubkey>)
    requires
        0 <= p,
        p + keys_bytes(ks).len() <= b.len(),
        b.subrange(p, p + keys_bytes(ks).len()) == keys_bytes(ks),
    ensures
        parse_keys(b, p, ks.len()) == Some((ks, p + keys_bytes(ks).len())),
    decreases ks.len(),
{
    if ks.len() > 0 {
        let init = ks.drop_last();
        let l0: int = keys_bytes(init).len() as int;
        let l: int = keys_bytes(ks).len() as int;
        lemma_keys_bytes_len(ks);
        lemma_keys_bytes_len(init);
        assert(b.subrange(p, p + l0) == b.subrange(p, p + l).subrange(0, l0));
        assert(keys_bytes(ks).subrange(0, l0) == keys_bytes(init));
        lemma_parse_keys(b, p, init);
        assert(b.subrange(p + l0, p + l) == b.subrange(p, p + l).subrange(l0, l));
        assert(keys_bytes(ks).subrange(l0, l) == pubkey_bytes(ks.last()));
        lemma_pubkey_at(b, p + l0, ks.last());
        assert(init.push(ks.last()) == ks);
    }
}

proof fn lemma_parse_entry(b: Seq<u8>, p: int, e: (Pubkey, Seq<Pubkey>))
    requires
        0 <= p,
        e.1.len() <= u64::MAX,
        p + entry_bytes(e).len() <= b.len(),
        b.subrange(p, p + entry_bytes(e).len()) == entry_bytes(e),
    ensures
        parse_entry(b, p) == Some((e, p + entry_bytes(e).len())),
{
    let l: int = entry_bytes(e).len() as int;
    let whole = b.subrange(p, p + l);
    lemma_keys_bytes_len(e.1);
    assert(b.subrange(p, p + 32) == whole.subrange(0, 32));
    assert(entry_bytes(e).subrange(0, 32) == pubkey_bytes(e.0));
    lemma_pubkey_at(b, p, e.0);
    assert(b.subrange(p + 32, p + 40) == whole.subrange(32, 40));
    assert(entry_bytes(e).subrange(32, 40) == le_bytes(e.1.len() as u64));
    lemma_u64_at(b, p + 32, e.1.len() as u64);
    assert(b.subrange(p + 40, p + l) == whole.subrange(40, l));
    assert(entry_bytes(e).subrange(40, l) == keys_bytes(e.1));
    lemma_parse_keys(b, p + 40, e.1);
}

proof fn lemma_parse_entries(b: Seq<u8>, p: int, es: Seq<(Pubkey, Seq<Pubkey>)>)
    requires
        0 <= p,
        encodable(es),
        p + entries_bytes(es).len() <= b.len(),
        b.subrange(p, p + entries_bytes(es).len()) == entries_bytes(es),
    ensures
        parse_entries(b, p, es.len()) == Some((es, p + entries_bytes(es).len())),
    decreases es.len(),
{
    if es.len() > 0 {
        let init = es.drop_last();
        let l0: int = entries_bytes(init).len() as int;
        let l: int = entries_bytes(es).len() as int;
        assert(encodable(init)) by {
            assert forall|i: int| 0 <= i < init.len() implies #[trigger] init[i].1.len() <= u64::MAX by {
                assert(init[i] == es[i]);
            }
        }
        assert(es.last() == es[es.len() - 1]);
        assert(b.subrange(p, p + l0) == b.subrange(p, p + l).subrange(0, l0));
        assert(entries_bytes(es).subrange(0, l0) == entries_bytes(init));
        lemma_parse_entries(b, p, init);
        assert(b.subrange(p + l0, p + l) == b.subrange(p, p + l).subrange(l0, l));
        assert(entries_bytes(es).subrange(l0, l) == entry_bytes(es.last()));
        lemma_parse_entry(b, p + l0, es.last());
        assert(init.push(es.last()) == es);
    }
}

/// Reading a snapshot gives back the listing it was written from.
pub proof fn lemma_snapshot_round_trip(es: Seq<(Pubkey, Seq<Pubkey>)>)
    requires
        encodable(es),
    ensures
        parse_snapshot(snapshot_bytes(es)) == Some(es),
{
    let b = snapshot_bytes(es);
    assert(b.subrange(0, 8) == le_bytes(es.len() as u64));
    lemma_u64_at(b, 0, es.len() as u64);
    assert(b.subrange(8, b.len() as int) == entries_bytes(es));
    lemma_parse_entries(b, 8, es);
}

/// So a map, written out as any listing of it and read back, is the same map.
pub proof fn lemma_snapshot_restores_map(es: Seq<(Pubkey, Seq<Pubkey>)>, m: Map<Pubkey, Seq<Pubkey>>)
    requires
        encodable(es),
        map_of(es) == m,
    ensures
        parse_snapshot(snapshot_bytes(es)).is_some(),
        map_of(parse_snapshot(snapshot_bytes(es)).unwrap()) == m,
{
    lemma_snapshot_round_trip(es);
}

proof fn lemma_parse_keys_fails_on(b: Seq<u8>, p: int, m: nat, n: nat)
    requires
        m <= n,
        parse_keys(b, p, m).is_none(),
    ensures
        parse_keys(b, p, n).is_none(),
    decreases n - m,
{
    if m < n {
        lemma_parse_keys_fails_on(b, p, m, (n - 1) as nat);
    }
}

proof fn lemma_parse_entries_fails_on(b: Seq<u8>, p: int, m: nat, n: nat)
    requires
        m <= n,
        parse_entries(b, p, m).is_none(),
    ensures
        parse_entries(b, p, n).is_none(),
    decreases n - m,
{
    if m < n {
        lemma_parse_entries_fails_on(b, p, m, (n - 1) as nat);
    }
}

/// Writes the snapshot of a listing of tables.
pub fn encode_snapshot(tables: &Vec<TableEntry>) -> (r: Vec<u8>)
    ensures
        r@ == snapshot_bytes(entries_view(tables@)),
{
    let ghost es = entries_view(tables@);
    let mut out: Vec<u8> = Vec::new();
    write_u64(&mut out, tables.len() as u64);
    let mut i: usize = 0;
    while i < tables.len()
        invariant
            i <= tables.len(),
            es == entries_view(tables@),
            out@ == le_bytes(es.len() as u64) + entries_bytes(es.take(i as int)),
        decreases tables.len() - i,
    {
        let ghost before = out@;
        let key = tables[i].0;
        let keys = &tables[i].1;
        key.write(&mut out);
        write_u64(&mut out, keys.len() as u64);
        let mut j: usize = 0;
        while j < keys.len()
            invariant
                j <= keys.len(),
                out@ == before + pubkey_bytes(key) + le_bytes(keys@.len() as u64) + keys_bytes(
                    keys@.take(j as int),
                ),
            decreases keys.len() - j,
        {
            keys[j].write(&mut out);
            proof {
                assert(keys@.take(j + 1).drop_last() == keys@.take(j as int));
            }
            j = j + 1;
        }
        proof {
            assert(keys@.take(j as int) == keys@);
            assert(es[i as int] == (key, keys@));
            assert(es.take(i + 1).drop_last() == es.take(i as int));
            assert(out@ == le_bytes(es.len() as u64) + entries_bytes(es.take(i + 1)));
        }
        i = i + 1;
    }
    proof {
        assert(es.take(i as int) == es);
    }
    out
}

fn decode_keys(b: &Vec<u8>, p: usize, n: u64) -> (r: Option<(Vec<Pubkey>, usize)>)
    ensures
        match r {
            Some((ks, q)) => parse_keys(b@, p as int, n as nat) == Some((ks@, q as int)),
            None => parse_keys(b@, p as int, n as nat).is_none(),
        },
{
    let mut ks: Vec<Pubkey> = Vec::new();
    let mut q: usize = p;
    let mut i: u64 = 0;
    while i < n
        invariant
            i <= n,
            parse_keys(b@, p as int, i as nat) == Some((ks@, q as int)),
        decreases n - i,
    {
        if q > b.len() || b.len() - q < 32 {
            proof {
                lemma_parse_keys_fails_on(b@, p as int, (i + 1) as nat, n as nat);
            }
            return None;
        }
        ks.push(Pubkey::read(b, q));
        q = q + 32;
        i = i + 1;
    }
    Some((ks, q))
}

fn decode_entry(b: &Vec<u8>, p: usize) -> (r: Option<(TableEntry, usize)>)
    ensures
        match r {
            Some((e, q)) => parse_entry(b@, p as int) == Some(((e.0, e.1@), q as int)),
            None => parse_entry(b@, p as int).is_none(),
        },
{
    if p > b.len() || b.len() - p < 40 {
        return None;
    }
    let key = Pubkey::read(b, p);
    let n = read_u64(b, p + 32);
    match decode_keys(b, p + 40, n) {
        Some((ks, q)) => Some(((key, ks), q)),
        None => None,
    }
}

/// Reads a snapshot back into a listing of tables; `None` where the bytes
/// are not a snapshot.
pub fn decode_snapshot(b: &Vec<u8>) -> (r: Option<Vec<TableEntry>>)
    ensures
        match r {
            Some(v) => parse_snapshot(b@) == Some(entries_view(v@)),
            None => parse_snapshot(b@).is_none(),
        },
{
    if b.len() < 8 {
        return None;
    }
    let n = read_u64(b, 0);
    let mut tables: Vec<TableEntry> = Vec::new();
    let mut q: usize = 8;
    let mut i: u64 = 0;
    while i < n
        invariant
            i <= n,
            b@.len() >= 8,
            n == u64_at(b@, 0),
            parse_entries(b@, 8, i as nat) == Some((entries_view(tables@), q as int)),
        decreases n - i,
    {
        match decode_entry(b, q) {
            Some((e, r)) => {
                let ghost prev = tables@;
                tables.push(e);
                proof {
                    assert(entries_view(tables@) == entries_view(prev).push((e.0, e.1@)));
                }
                q = r;
            },
            None => {
                proof {
                    lemma_parse_entries_fails_on(b@, 8, (i + 1) as nat, n as nat);
                }
                return None;
            },
        }
        i = i + 1;
    }
    if q == b.len() {
        Some(tables)
    } else {
        None
    }
}

} // verus!
