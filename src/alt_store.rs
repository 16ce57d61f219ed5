use vstd::prelude::*;
use dashmap::DashMap;
use crate::pubkey::Pubkey;
use crate::snapshot::{
    TableEntry, entries_view, map_of, encodable, snapshot_bytes, parse_snapshot, encode_snapshot,
    decode_snapshot, lemma_snapshot_round_trip,
};

verus! {

#[verifier::external_type_specification]
#[verifier::external_body]
#[verifier::reject_recursive_types(K)]
#[verifier::reject_recursive_types(V)]
#[verifier::reject_recursive_types(S)]
pub struct ExDashMap<K, V, S>(DashMap<K, V, S>);

/// The tables that a concurrent map holds, address to entries.
pub uninterp spec fn alt_tables(m: DashMap<Pubkey, Vec<Pubkey>>) -> Map<Pubkey, Seq<Pubkey>>;

/// Relies on DashMap::new: the map starts empty.
#[verifier::external_body]
fn tables_new() -> (r: DashMap<Pubkey, Vec<Pubkey>>)
    ensures
        alt_tables(r) == no_tables(),
{
    DashMap::new()
}

/// Relies on DashMap::insert: the key now maps to the value, and the value it
/// held before, if any, comes back.
#[verifier::external_body]
fn tables_insert(m: &mut DashMap<Pubkey, Vec<Pubkey>>, key: Pubkey, value: Vec<Pubkey>) -> (r: Option<
    Vec<Pubkey>,
>)
    ensures
        alt_tables(*final(m)) == alt_tables(*old(m)).insert(key, value@),
        r.is_some() == alt_tables(*old(m)).contains_key(key),
        r.is_some() ==> r.unwrap()@ == alt_tables(*old(m))[key],
{
    m.insert(key, value)
}

/// Relies on DashMap::get: the value held at the key, if any (cloned out of
/// the guard that `get` returns).
#[verifier::external_body]
fn tables_get(m: &DashMap<Pubkey, Vec<Pubkey>>, key: &Pubkey) -> (r: Option<Vec<Pubkey>>)
    ensures
        r.is_some() == alt_tables(*m).contains_key(*key),
        r.is_some() ==> r.unwrap()@ == alt_tables(*m)[*key],
{
    m.get(key).map(|x| x.value().clone())
}

/// Relies on DashMap::contains_key: whether the key is present.
#[verifier::external_body]
fn tables_contains_key(m: &DashMap<Pubkey, Vec<Pubkey>>, key: &Pubkey) -> (r: bool)
    ensures
        r == alt_tables(*m).contains_key(*key),
{
    m.contains_key(key)
}

/// Relies on DashMap::len: the number of keys in the map.
#[verifier::external_body]
fn tables_len(m: &DashMap<Pubkey, Vec<Pubkey>>) -> (r: usize)
    ensures
        r == alt_tables(*m).len(),
{
    m.len()
}

/// Relies on DashMap::iter: every entry of the map is visited exactly once,
/// in an order that the map does not fix.
#[verifier::external_body]
fn tables_entries(m: &DashMap<Pubkey, Vec<Pubkey>>) -> (r: Vec<TableEntry>)
    ensures
        map_of(entries_view(r@)) == alt_tables(*m),
        forall|i: int, j: int|
            0 <= i < j < r@.len() ==> (#[trigger] r@[i]).0 != (#[trigger] r@[j]).0,
{
    m.iter().map(|x| (*x.key(), x.value().clone())).collect()
}

/// The map that holds no table.
pub open spec fn no_tables() -> Map<Pubkey, Seq<Pubkey>> {
    Map::empty()
}

/// Whether every index names a position inside the table.
pub open spec fn covers(table: Seq<Pubkey>, indexes: Seq<u8>) -> bool {
    forall|i: int| 0 <= i < indexes.len() ==> (#[trigger] indexes[i] as int) < table.len()
}

/// The entries that the indexes name, in the order of the indexes.
pub open spec fn pick(table: Seq<Pubkey>, indexes: Seq<u8>) -> Seq<Pubkey> {
    indexes.map_values(|b: u8| table[b as int])
}

/// Whether the tables can answer a lookup into `alt` at `indexes`.
pub open spec fn resolvable(tables: Map<Pubkey, Seq<Pubkey>>, alt: Pubkey, indexes: Seq<u8>) -> bool {
    tables.contains_key(alt) && covers(tables[alt], indexes)
}

/// The tables that the fetch of `batch` yields: the key at each position
/// whose account was found maps to the entries decoded from it.
pub open spec fn fetched_tables(batch: Seq<Pubkey>, found: Seq<Option<Vec<Pubkey>>>) -> Map<
    Pubkey,
    Seq<Pubkey>,
>
    decreases found.len(),
{
    if found.len() == 0 {
        Map::empty()
    } else {
        let prev = fetched_tables(batch, found.drop_last());
        match found.last() {
            Some(v) => prev.insert(batch[found.len() - 1], v@),
            None => prev,
        }
    }
}

/// A lookup of a transaction: a table's address and the positions it reads,
/// for writing and for reading only.
pub struct MessageAddressTableLookup {
    pub account_key: Pubkey,
    pub writable_indexes: Vec<u8>,
    pub readonly_indexes: Vec<u8>,
}

/// The cache of address lookup tables: address to the table's entries.
pub struct ALTStore {
    pub map: DashMap<Pubkey, Vec<Pubkey>>,
}

impl View for ALTStore {
    type V = Map<Pubkey, Seq<Pubkey>>;

    open spec fn view(&self) -> Map<Pubkey, Seq<Pubkey>> {
        alt_tables(self.map)
    }
}

impl ALTStore {
    pub fn new() -> (r: ALTStore)
        ensures
            r@ == no_tables(),
    {
        ALTStore { map: tables_new() }
    }

    /// The number of tables held.
    pub fn len(&self) -> (r: usize)
        ensures
            r == self@.len(),
    {
        tables_len(&self.map)
    }

    /// Stores the decoded entries of the table at `address`, replacing what
    /// was held; tells whether the table is new to the cache.
    pub fn save_account(&mut self, address: &Pubkey, addresses: Vec<Pubkey>) -> (added: bool)
        ensures
            final(self)@ == old(self)@.insert(*address, addresses@),
            added == !old(self)@.contains_key(*address),
    {
        let prev = tables_insert(&mut self.map, *address, addresses);
        prev.is_none()
    }

    /// The addresses of a list that the cache does not hold yet, in the
    /// order of the list.
    pub fn missing_alts(&self, alts_list: &[Pubkey]) -> (r: Vec<Pubkey>)
        ensures
            r@ == alts_list@.filter(|k: Pubkey| !self@.contains_key(k)),
    {
        let mut r: Vec<Pubkey> = Vec::new();
        let mut i: usize = 0;
        while i < alts_list.len()
            invariant
                i <= alts_list@.len(),
                r@ == alts_list@.take(i as int).filter(|k: Pubkey| !self@.contains_key(k)),
            decreases alts_list@.len() - i,
        {
            let k = alts_list[i];
            proof {
                assert(alts_list@.take(i + 1).drop_last() == alts_list@.take(i as int));
                reveal(Seq::filter);
            }
            if !tables_contains_key(&self.map, &k) {
                r.push(k);
            }
            i = i + 1;
        }
        proof {
            assert(alts_list@.take(i as int) == alts_list@);
        }
        r
    }

    /// Stores what a fetch of `batch` found: the account at each position,
    /// already decoded into its entries, or `None` where none was found.
    pub fn save_fetched(&mut self, batch: &Vec<Pubkey>, found: Vec<Option<Vec<Pubkey>>>)
        requires
            found@.len() == batch@.len(),
        ensures
            final(self)@ == old(self)@.union_prefer_right(fetched_tables(batch@, found@)),
    {
        let mut found = found;
        let ghost all = found@;
        let mut tail: Vec<Option<Vec<Pubkey>>> = Vec::new();
        while found.len() > 0
            invariant
                found@.len() <= all.len(),
                all.len() <= batch@.len(),
                all == found@ + tail@.reverse(),
            decreases found@.len(),
        {
            let x = found.pop().unwrap();
            tail.push(x);
            proof {
                assert(all == found@ + tail@.reverse());
            }
        }
        proof {
            assert(all == tail@.reverse());
        }
        let n: usize = batch.len();
        let mut i: usize = 0;
        let ghost base = self@;
        while tail.len() > 0
            invariant
                n == batch@.len(),
                i <= all.len(),
                i + tail@.len() == all.len(),
                all.len() <= batch@.len(),
                all == all.take(i as int) + tail@.reverse(),
                self@ == base.union_prefer_right(fetched_tables(batch@, all.take(i as int))),
            decreases tail@.len(),
        {
            let x = tail.pop().unwrap();
            proof {
                assert(all[i as int] == x);
                assert(all.take(i + 1).drop_last() == all.take(i as int));
                assert(all.take(i + 1).last() == x);
            }
            match x {
                Some(v) => {
                    let ghost vv = v@;
                    self.save_account(&batch[i], v);
                    proof {
                        assert(self@ == base.union_prefer_right(
                            fetched_tables(batch@, all.take(i as int)),
                        ).insert(batch@[i as int], vv));
                        assert(self@ =~= base.union_prefer_right(
                            fetched_tables(batch@, all.take(i + 1)),
                        ));
                    }
                },
                None => {},
            }
            i = i + 1;
            proof {
                assert(all == all.take(i as int) + tail@.reverse());
            }
        }
        proof {
            assert(all.take(i as int) == all);
        }
    }

    /// Whether a lookup into `alt` at `accounts` has to fetch the table
    /// first: it is not held, or an index lies past the held length.
    pub fn needs_reload(&self, alt: &Pubkey, accounts: &[u8]) -> (r: bool)
        ensures
            r == !resolvable(self@, *alt, accounts@),
    {
        match tables_get(&self.map, alt) {
            Some(table) => {
                let mut i: usize = 0;
                while i < accounts.len()
                    invariant
                        i <= accounts@.len(),
                        table@ == self@[*alt],
                        forall|j: int| 0 <= j < i ==> (#[trigger] accounts@[j] as int) < table@.len(),
                    decreases accounts@.len() - i,
                {
                    if accounts[i] as usize >= table.len() {
                        return true;
                    }
                    i = i + 1;
                }
                false
            },
            None => true,
        }
    }

    /// The entries at `accounts` of the table at `alt`, in order; `None`
    /// where the table is not held or an index lies past its length.
    pub fn load_accounts(&self, alt: &Pubkey, accounts: &[u8]) -> (r: Option<Vec<Pubkey>>)
        ensures
            r.is_some() == resolvable(self@, *alt, accounts@),
            r.is_some() ==> r.unwrap()@ == pick(self@[*alt], accounts@),
    {
        match tables_get(&self.map, alt) {
            Some(table) => {
                let mut out: Vec<Pubkey> = Vec::new();
                let mut i: usize = 0;
                while i < accounts.len()
                    invariant
                        i <= accounts@.len(),
                        table@ == self@[*alt],
                        self@.contains_key(*alt),
                        forall|j: int| 0 <= j < i ==> (#[trigger] accounts@[j] as int) < table@.len(),
                        out@ == pick(table@, accounts@.take(i as int)),
                    decreases accounts@.len() - i,
                {
                    let b = accounts[i];
                    if b as usize >= table.len() {
                        return None;
                    }
                    out.push(table[b as usize]);
                    proof {
                        assert(pick(table@, accounts@.take(i + 1)) =~= pick(
                            table@,
                            accounts@.take(i as int),
                        ).push(table@[b as int]));
                    }
                    i = i + 1;
                }
                proof {
                    assert(accounts@.take(i as int) == accounts@);
                }
                Some(out)
            },
            None => None,
        }
    }

    /// The entries at `accounts` of the table at `alt`; empty where the
    /// cache cannot answer, which tells the caller to forget the lookup for now.
    pub fn get_accounts(&self, alt: &Pubkey, accounts: &[u8]) -> (r: Vec<Pubkey>)
        ensures
            resolvable(self@, *alt, accounts@) ==> r@ == pick(self@[*alt], accounts@),
            !resolvable(self@, *alt, accounts@) ==> r@.len() == 0,
    {
        match self.load_accounts(alt, accounts) {
            Some(x) => x,
            None => Vec::new(),
        }
    }

    /// The accounts that a transaction's lookup names: those it writes, then
    /// those it only reads.
    pub fn get_address_lookup_table(&self, lookup: &MessageAddressTableLookup) -> (r: (
        Vec<Pubkey>,
        Vec<Pubkey>,
    ))
        ensures
            resolvable(self@, lookup.account_key, lookup.writable_indexes@) ==> r.0@ == pick(
                self@[lookup.account_key],
                lookup.writable_indexes@,
            ),
            !resolvable(self@, lookup.account_key, lookup.writable_indexes@) ==> r.0@.len() == 0,
            resolvable(self@, lookup.account_key, lookup.readonly_indexes@) ==> r.1@ == pick(
                self@[lookup.account_key],
                lookup.readonly_indexes@,
            ),
            !resolvable(self@, lookup.account_key, lookup.readonly_indexes@) ==> r.1@.len() == 0,
    {
        (
            self.get_accounts(&lookup.account_key, lookup.writable_indexes.as_slice()),
            self.get_accounts(&lookup.account_key, lookup.readonly_indexes.as_slice()),
        )
    }

    /// A snapshot of every table held, for a warm restart.
    pub fn serialize_binary(&self) -> (r: Vec<u8>)
        ensures
            exists|es: Seq<(Pubkey, Seq<Pubkey>)>| r@ == snapshot_bytes(es) && map_of(es) == self@,
            parse_snapshot(r@).is_some(),
            map_of(parse_snapshot(r@).unwrap()) == self@,
    {
        let listing = BinaryALTData::new(&self.map);
        let r = listing.to_bytes();
        let tables = listing.data;
        proof {
            let es = entries_view(tables@);
            assert(es.len() == tables.len());
            assert forall|i: int| 0 <= i < es.len() implies #[trigger] es[i].1.len() <= u64::MAX by {
                assert(es[i].1 == tables@[i].1@);
                assert(tables@[i].1.len() <= usize::MAX);
            }
            lemma_snapshot_round_trip(es);
        }
        r
    }

    /// Adds the tables of a snapshot, each replacing what was held at its
    /// address; where the bytes are not a snapshot, nothing changes.
    pub fn load_binary(&mut self, binary_data: Vec<u8>) -> (ok: bool)
        ensures
            ok == parse_snapshot(binary_data@).is_some(),
            ok ==> final(self)@ == old(self)@.union_prefer_right(
                map_of(parse_snapshot(binary_data@).unwrap()),
            ),
            !ok ==> final(self)@ == old(self)@,
    {
        match decode_snapshot(&binary_data) {
            Some(tables) => {
                let ghost es = entries_view(tables@);
                let ghost base = self@;
                let mut tables = tables;
                let mut rev: Vec<TableEntry> = Vec::new();
                while tables.len() > 0
                    invariant
                        es == entries_view(tables@) + entries_view(rev@).reverse(),
                    decreases tables@.len(),
                {
                    let e = tables.pop().unwrap();
                    rev.push(e);
                    proof {
                        assert(es =~= entries_view(tables@) + entries_view(rev@).reverse());
                    }
                }
                proof {
                    assert(es.len() == rev@.len());
                }
                let n: usize = rev.len();
                let mut i: usize = 0;
                while rev.len() > 0
                    invariant
                        n == es.len(),
                        i <= es.len(),
                        i + rev@.len() == es.len(),
                        es == es.take(i as int) + entries_view(rev@).reverse(),
                        self@ == base.union_prefer_right(map_of(es.take(i as int))),
                    decreases rev@.len(),
                {
                    let e = rev.pop().unwrap();
                    proof {
                        assert(es[i as int] == (e.0, e.1@));
                        assert(es.take(i + 1).drop_last() == es.take(i as int));
                    }
                    self.save_account(&e.0, e.1);
                    proof {
                        assert(self@ =~= base.union_prefer_right(map_of(es.take(i + 1))));
                    }
                    i = i + 1;
                    proof {
                        assert(es =~= es.take(i as int) + entries_view(rev@).reverse());
                    }
                }
                proof {
                    assert(es.take(i as int) == es);
                }
                true
            },
            None => false,
        }
    }
}

/// A listing of every table of a map, in the map's own order: what a
/// snapshot holds.
pub struct BinaryALTData {
    pub data: Vec<TableEntry>,
}

impl BinaryALTData {
    pub fn new(map: &DashMap<Pubkey, Vec<Pubkey>>) -> (r: BinaryALTData)
        ensures
            map_of(entries_view(r.data@)) == alt_tables(*map),
            forall|i: int, j: int|
                0 <= i < j < r.data@.len() ==> (#[trigger] r.data@[i]).0 != (#[trigger] r.data@[j]).0,
    {
        BinaryALTData { data: tables_entries(map) }
    }

    /// The snapshot bytes of the listing.
    pub fn to_bytes(&self) -> (r: Vec<u8>)
        ensures
            r@ == snapshot_bytes(entries_view(self.data@)),
    {
        encode_snapshot(&self.data)
    }

    /// The listing that snapshot bytes hold, or `None` where they hold none.
    pub fn from_bytes(bytes: &Vec<u8>) -> (r: Option<BinaryALTData>)
        ensures
            r.is_some() == parse_snapshot(bytes@).is_some(),
            r.is_some() ==> entries_view(r.unwrap().data@) == parse_snapshot(bytes@).unwrap(),
    {
        match decode_snapshot(bytes) {
            Some(data) => Some(BinaryALTData { data }),
            None => None,
        }
    }
}

/// How many addresses one upstream read asks for.
pub const PRELOAD_BATCH_SIZE: usize = 100;

/// How many addresses one preload round covers; its batches run together.
pub const PRELOAD_ROUND_SIZE: usize = 1000;

/// `s` cut into consecutive pieces of `size` items, the last one shorter
/// where `size` does not divide the length.
pub open spec fn batches(s: Seq<Pubkey>, size: nat) -> Seq<Seq<Pubkey>>
    decreases s.len(),
{
    if s.len() == 0 || size == 0 {
        Seq::empty()
    } else if s.len() <= size {
        seq![s]
    } else {
        seq![s.take(size as int)] + batches(s.skip(size as int), size)
    }
}

pub open spec fn flatten(ss: Seq<Seq<Pubkey>>) -> Seq<Pubkey>
    decreases ss.len(),
{
    if ss.len() == 0 {
        Seq::empty()
    } else {
        ss[0] + flatten(ss.skip(1))
    }
}

/// The pieces, put back one after another, give the list again; none is
/// empty and none is longer than `size`.
pub proof fn lemma_batches_partition(s: Seq<Pubkey>, size: nat)
    requires
        size > 0,
    ensures
        flatten(batches(s, size)) == s,
        forall|i: int|
            0 <= i < batches(s, size).len() ==> 0 < (#[trigger] batches(s, size)[i]).len() <= size,
    decreases s.len(),
{
    if s.len() == 0 {
    } else if s.len() <= size {
        let one = seq![s];
        assert(one[0] == s);
        assert(one.skip(1) =~= Seq::<Seq<Pubkey>>::empty());
        assert(flatten(one.skip(1)) == Seq::<Pubkey>::empty());
        assert(flatten(one) == s + Seq::<Pubkey>::empty());
        assert(s + Seq::<Pubkey>::empty() == s);
    } else {
        let rest = s.skip(size as int);
        lemma_batches_partition(rest, size);
        let bs = batches(s, size);
        assert(bs.skip(1) == batches(rest, size));
        assert(s.take(size as int) + rest == s);
        assert forall|i: int| 0 <= i < bs.len() implies 0 < (#[trigger] bs[i]).len() <= size by {
            if i > 0 {
                assert(bs[i] == batches(rest, size)[i - 1]);
            }
        }
    }
}

/// Cuts a list of addresses into consecutive batches of `size`.
pub fn split_batches(list: &[Pubkey], size: usize) -> (r: Vec<Vec<Pubkey>>)
    requires
        size > 0,
    ensures
        r@.map_values(|v: Vec<Pubkey>| v@) == batches(list@, size as nat),
{
    let mut r: Vec<Vec<Pubkey>> = Vec::new();
    let mut start: usize = 0;
    proof {
        assert(list@.skip(0) == list@);
        assert(r@.map_values(|v: Vec<Pubkey>| v@) =~= Seq::<Seq<Pubkey>>::empty());
        assert(Seq::<Seq<Pubkey>>::empty() + batches(list@, size as nat) =~= batches(list@, size as nat));
    }
    while start < list.len()
        invariant
            size > 0,
            start <= list@.len(),
            r@.map_values(|v: Vec<Pubkey>| v@) + batches(list@.skip(start as int), size as nat)
                == batches(list@, size as nat),
        decreases list@.len() - start,
    {
        let rest = list.len() - start;
        let end: usize = if rest <= size { list.len() } else { start + size };
        let mut piece: Vec<Pubkey> = Vec::new();
        let mut j: usize = start;
        while j < end
            invariant
                start <= j <= end <= list@.len(),
                piece@ == list@.subrange(start as int, j as int),
            decreases end - j,
        {
            piece.push(list[j]);
            j = j + 1;
        }
        proof {
            let tail = list@.skip(start as int);
            assert(piece@ == list@.subrange(start as int, end as int));
            if rest <= size {
                assert(piece@ == tail);
                assert(list@.skip(end as int).len() == 0);
                assert(batches(tail, size as nat) == seq![piece@]);
            } else {
                assert(piece@ == tail.take(size as int));
                assert(tail.skip(size as int) == list@.skip(end as int));
            }
        }
        let ghost before = r@.map_values(|v: Vec<Pubkey>| v@);
        r.push(piece);
        proof {
            assert(r@.map_values(|v: Vec<Pubkey>| v@) == before.push(piece@));
            assert(before.push(piece@) + batches(list@.skip(end as int), size as nat) == before + batches(
                list@.skip(start as int),
                size as nat,
            ));
        }
        start = end;
    }
    proof {
        assert(batches(list@.skip(start as int), size as nat) == Seq::<Seq<Pubkey>>::empty());
        assert(r@.map_values(|v: Vec<Pubkey>| v@) + Seq::<Seq<Pubkey>>::empty() == r@.map_values(
            |v: Vec<Pubkey>| v@,
        ));
    }
    r
}

/// A snapshot of a store, loaded into an empty store, gives a store that
/// holds exactly the tables of the first.
pub proof fn lemma_restore_of_snapshot(m: Map<Pubkey, Seq<Pubkey>>, bytes: Seq<u8>)
    requires
        parse_snapshot(bytes).is_some(),
        map_of(parse_snapshot(bytes).unwrap()) == m,
    ensures
        no_tables().union_prefer_right(map_of(parse_snapshot(bytes).unwrap())) == m,
{
    assert(no_tables().union_prefer_right(m) =~= m);
}

} // verus!
