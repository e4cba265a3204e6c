//! Reverse-DNS enrichment: replacing the remote addresses of TCP records by
//! host names, with a cache of the names that were found.
//!
//! The cache maps the text of an address to its resolution: the host name
//! that a reverse lookup gave, or the address itself where the lookup gave
//! none. An address is looked up at most once: what the cache holds is taken
//! from the cache. The lookup itself is the caller's: it is handed in as a
//! function from an address to the host name it found, if any.

use vstd::prelude::*;
use dashmap::DashMap;
use crate::socket::{Protocol, Socket, SocketView, text_view, views};
use crate::tally::{first_occurrences, lemma_first_occurrences};
use crate::text::str_equal;

verus! {

/// A concurrent hash map.
#[verifier::external_type_specification]
#[verifier::external_body]
#[verifier::reject_recursive_types(K)]
#[verifier::reject_recursive_types(V)]
#[verifier::reject_recursive_types(S)]
pub struct ExDashMap<K, V, S>(DashMap<K, V, S>);

/// The entries that a map from text to text holds.
pub uninterp spec fn map_entries(map: DashMap<String, String>) -> Map<Seq<char>, Seq<char>>;

/// No entries.
pub open spec fn no_entries() -> Map<Seq<char>, Seq<char>> {
    Map::empty()
}

/// `DashMap::new`: a map without entries.
#[verifier::external_body]
fn map_new() -> (created: DashMap<String, String>)
    ensures
        map_entries(created) == no_entries(),
{
    DashMap::new()
}

/// `DashMap::get`: a copy of the value that the map holds for `key`, if it
/// holds one.
#[verifier::external_body]
fn map_get(map: &DashMap<String, String>, key: &str) -> (value: Option<String>)
    ensures
        value is Some <==> map_entries(*map).contains_key(key@),
        value matches Some(v) ==> v@ == map_entries(*map)[key@],
{
    map.get(key).map(|entry| entry.value().clone())
}

/// `DashMap::insert`: afterwards the map holds `value` for `key`, in place
/// of any value it held for `key` before, and its other entries as before.
#[verifier::external_body]
fn map_insert(map: &mut DashMap<String, String>, key: String, value: String)
    ensures
        map_entries(*final(map)) == map_entries(*old(map)).insert(key@, value@),
{
    map.insert(key, value);
}

/// `DashMap::len`: the number of entries of the map.
#[verifier::external_body]
fn map_len(map: &DashMap<String, String>) -> (len: usize)
    ensures
        len == map_entries(*map).dom().len(),
{
    map.len()
}

/// The cache of resolutions, from the text of an address to the host name
/// found for it, or to the address itself where none was found.
pub struct DnsCache {
    map: DashMap<String, String>,
}

impl View for DnsCache {
    type V = Map<Seq<char>, Seq<char>>;

    closed spec fn view(&self) -> Map<Seq<char>, Seq<char>> {
        map_entries(self.map)
    }
}

impl DnsCache {
    /// The cache holds finitely many entries.
    pub open spec fn wf(&self) -> bool {
        self@.dom().finite()
    }

    /// The empty cache.
    pub fn new() -> (cache: DnsCache)
        ensures
            cache.wf(),
            cache@ == Map::<Seq<char>, Seq<char>>::empty(),
    {
        DnsCache { map: map_new() }
    }

    /// The resolution that the cache holds for `ip`, if it holds one.
    pub fn get(&self, ip: &str) -> (host: Option<String>)
        ensures
            host is Some <==> self@.contains_key(ip@),
            host matches Some(h) ==> h@ == self@[ip@],
    {
        map_get(&self.map, ip)
    }

    /// Stores `host` as the resolution of `ip`.
    pub fn insert(&mut self, ip: String, host: String)
        ensures
            final(self)@ == old(self)@.insert(ip@, host@),
            old(self).wf() ==> final(self).wf(),
    {
        map_insert(&mut self.map, ip, host);
    }

    /// The number of addresses that the cache holds a resolution for.
    pub fn len(&self) -> (len: usize)
        ensures
            len == self@.dom().len(),
    {
        map_len(&self.map)
    }
}

/// The resolution of `ip` after a reverse lookup: the host name that the
/// lookup answered, or the address itself where it answered none.
pub open spec fn resolution(ip: Seq<char>, answer: Option<Seq<char>>) -> Seq<char> {
    match answer {
        Some(host) => host,
        None => ip,
    }
}

/// The result of looking `ip` up with the cache `cache`, where a reverse
/// lookup, if one is made, answers `answer`: the host, and the cache
/// afterwards. An address that the cache holds is taken from the cache and no
/// lookup is made; any other address is resolved and stored.
pub open spec fn looked_up(
    cache: Map<Seq<char>, Seq<char>>,
    ip: Seq<char>,
    answer: Option<Seq<char>>,
) -> (Seq<char>, Map<Seq<char>, Seq<char>>) {
    if cache.contains_key(ip) {
        (cache[ip], cache)
    } else {
        (resolution(ip, answer), cache.insert(ip, resolution(ip, answer)))
    }
}

/// Looking the same address up twice gives the same host both times,
/// whatever a second reverse lookup would answer; the second time leaves the
/// cache as it is, and the first time adds at most one entry to it.
pub proof fn lemma_lookup_is_idempotent(
    cache: Map<Seq<char>, Seq<char>>,
    ip: Seq<char>,
    first_answer: Option<Seq<char>>,
    second_answer: Option<Seq<char>>,
)
    requires
        cache.dom().finite(),
    ensures
        ({
            let (first_host, first_cache) = looked_up(cache, ip, first_answer);
            let (second_host, second_cache) = looked_up(first_cache, ip, second_answer);
            &&& second_host == first_host
            &&& second_cache == first_cache
            &&& first_cache.dom() == cache.dom().insert(ip)
            &&& first_cache.dom().len() <= cache.dom().len() + 1
            &&& cache.contains_key(ip) ==> first_cache == cache
        }),
{
    let (first_host, first_cache) = looked_up(cache, ip, first_answer);
    if cache.contains_key(ip) {
        assert(cache.dom().insert(ip) =~= cache.dom());
    } else {
        assert(first_cache.dom() =~= cache.dom().insert(ip));
    }
}

/// Stores the answer of a reverse lookup for `ip` in the cache and returns
/// the resolution: the host name found, or `ip` itself.
pub fn record_resolution(cache: &mut DnsCache, ip: &str, answer: Option<String>) -> (host: String)
    ensures
        host@ == resolution(ip@, text_view(answer)),
        final(cache)@ == old(cache)@.insert(ip@, host@),
        old(cache).wf() ==> final(cache).wf(),
{
    let host = match answer {
        Some(name) => name,
        None => ip.to_owned(),
    };
    cache.insert(ip.to_owned(), host.clone());
    host
}

/// Resolves `ip`: from the cache where it holds the address, and else by
/// one call of `resolve`, whose answer is stored.
pub fn lookup_address<F: Fn(&str) -> Option<String>>(cache: &mut DnsCache, ip: &str, resolve: &F) -> (host:
    String)
    requires
        forall|address: &str| resolve.requires((address,)),
    ensures
        old(cache)@.contains_key(ip@) ==> (host@, final(cache)@) == looked_up(
            old(cache)@,
            ip@,
            None,
        ),
        !old(cache)@.contains_key(ip@) ==> exists|answer: Option<String>|
            #[trigger] resolve.ensures((ip,), answer) && (host@, final(cache)@) == looked_up(
                old(cache)@,
                ip@,
                text_view(answer),
            ),
        old(cache).wf() ==> final(cache).wf(),
{
    match cache.get(ip) {
        Some(host) => host,
        None => {
            let answer = resolve(ip);
            let ghost given = answer;
            let host = record_resolution(cache, ip, answer);
            assert(resolve.ensures((ip,), given));
            host
        },
    }
}

/// The remote address of a record that is to be resolved: that of a record
/// other than UDP that has one.
pub open spec fn address_to_resolve(socket: SocketView) -> Option<Seq<char>> {
    if socket.protocol != Protocol::Udp {
        socket.remote_address
    } else {
        None
    }
}

/// The addresses of a table that are to be resolved: each once, in the
/// order in which they first occur.
pub open spec fn addresses_to_resolve(table: Seq<SocketView>) -> Seq<Seq<char>> {
    first_occurrences(table.filter_map(|s: SocketView| address_to_resolve(s)))
}

/// Whether `list` holds the text `text`.
fn holds_text(list: &Vec<String>, text: &str) -> (found: bool)
    ensures
        found == list.deep_view().contains(text@),
{
    let mut i: usize = 0;
    while i < list.len()
        invariant
            i <= list.len(),
            forall|j: int| 0 <= j < i ==> list.deep_view()[j] != text@,
        decreases list.len() - i,
    {
        if str_equal(list[i].as_str(), text) {
            assert(list.deep_view()[i as int] == text@);
            return true;
        }
        i = i + 1;
    }
    false
}

/// Collects the addresses of a table that are to be resolved.
pub fn collect_addresses(sockets: &Vec<Socket>) -> (addresses: Vec<String>)
    ensures
        addresses.deep_view() == addresses_to_resolve(views(sockets@)),
{
    let ghost table = views(sockets@);
    let ghost pick = |s: SocketView| address_to_resolve(s);
    let mut addresses: Vec<String> = Vec::new();
    let mut i: usize = 0;
    proof {
        assert(table.take(0) =~= Seq::<SocketView>::empty());
        assert(addresses.deep_view() =~= Seq::<Seq<char>>::empty());
    }
    while i < sockets.len()
        invariant
            i <= sockets.len(),
            table == views(sockets@),
            pick == |s: SocketView| address_to_resolve(s),
            addresses.deep_view() == first_occurrences(table.take(i as int).filter_map(pick)),
        decreases sockets.len() - i,
    {
        let socket = &sockets[i];
        let ghost before = table.take(i as int).filter_map(pick);
        proof {
            assert(table.take(i + 1).drop_last() =~= table.take(i as int));
            assert(table.take(i + 1).last() == socket@);
        }
        if socket.protocol != Protocol::Udp {
            if let Some(address) = &socket.remote_address {
                proof {
                    assert(table.take(i + 1).filter_map(pick) =~= before.push(address@));
                    assert(before.push(address@).drop_last() =~= before);
                }
                if !holds_text(&addresses, address.as_str()) {
                    let ghost listed = addresses.deep_view();
                    addresses.push(address.clone());
                    assert(addresses.deep_view() =~= listed.push(address@));
                }
            }
        }
        i = i + 1;
    }
    proof {
        assert(table.take(i as int) =~= table);
    }
    addresses
}

/// The addresses of a table that are still to be looked up: those to
/// resolve that the cache does not hold, in their order.
pub open spec fn addresses_to_look_up(
    table: Seq<SocketView>,
    cache: Map<Seq<char>, Seq<char>>,
) -> Seq<Seq<char>> {
    addresses_to_resolve(table).filter(|address: Seq<char>| !cache.contains_key(address))
}

/// Collects the addresses of a table that are still to be looked up.
pub fn pending_addresses(sockets: &Vec<Socket>, cache: &DnsCache) -> (addresses: Vec<String>)
    ensures
        addresses.deep_view() == addresses_to_look_up(views(sockets@), cache@),
{
    let all = collect_addresses(sockets);
    let ghost listed = all.deep_view();
    let ghost unknown = |address: Seq<char>| !cache@.contains_key(address);
    let mut addresses: Vec<String> = Vec::new();
    let mut i: usize = 0;
    proof {
        reveal(Seq::filter);
        assert(listed.take(0) =~= Seq::<Seq<char>>::empty());
        assert(addresses.deep_view() =~= Seq::<Seq<char>>::empty());
    }
    while i < all.len()
        invariant
            i <= all.len(),
            listed == all.deep_view(),
            unknown == |address: Seq<char>| !cache@.contains_key(address),
            addresses.deep_view() == listed.take(i as int).filter(unknown),
        decreases all.len() - i,
    {
        proof {
            reveal(Seq::filter);
            assert(listed.take(i + 1).drop_last() =~= listed.take(i as int));
            assert(listed.take(i + 1).last() == all@[i as int]@);
        }
        if cache.get(all[i].as_str()).is_none() {
            let ghost before = addresses.deep_view();
            addresses.push(all[i].clone());
            assert(addresses.deep_view() =~= before.push(all@[i as int]@));
        }
        i = i + 1;
    }
    proof {
        assert(listed.take(i as int) =~= listed);
    }
    addresses
}

/// The number of addresses that each worker but the last is given, where
/// `len` addresses are shared out among `workers` workers: the addresses
/// divided by the workers, rounded up. No workers count as one.
pub open spec fn chunk_len(len: nat, workers: nat) -> nat {
    if workers == 0 {
        len
    } else {
        ((len + workers - 1) / (workers as int)) as nat
    }
}

/// `items` cut into runs of `size` items; the last run holds what is left
/// and is not empty. Nothing is cut into no runs.
pub open spec fn chunked<T>(items: Seq<T>, size: nat) -> Seq<Seq<T>>
    decreases items.len(),
{
    if items.len() == 0 {
        Seq::empty()
    } else if size == 0 || items.len() <= size {
        seq![items]
    } else {
        seq![items.take(size as int)] + chunked(items.skip(size as int), size)
    }
}

/// The runs of a sequence, put together again, are the sequence.
pub proof fn lemma_chunks_cover<T>(items: Seq<T>, size: nat)
    ensures
        chunked(items, size).flatten() == items,
    decreases items.len(),
{
    let runs = chunked(items, size);
    if items.len() == 0 {
        assert(runs.flatten() =~= items);
    } else if size == 0 || items.len() <= size {
        assert(seq![items].drop_first() =~= Seq::<Seq<T>>::empty());
        assert(seq![items].flatten() =~= items + Seq::<Seq<T>>::empty().flatten());
        assert(runs.flatten() =~= items);
    } else {
        let rest = chunked(items.skip(size as int), size);
        lemma_chunks_cover(items.skip(size as int), size);
        assert(runs.drop_first() =~= rest);
        assert(runs.flatten() =~= items.take(size as int) + rest.flatten());
        assert(items.take(size as int) + items.skip(size as int) =~= items);
    }
}

/// All runs but the last are full, and the last is not empty.
pub proof fn lemma_chunks_fill<T>(items: Seq<T>, size: nat)
    requires
        size > 0,
    ensures
        items.len() > 0 ==> (chunked(items, size).len() - 1) * size < items.len(),
        items.len() == 0 ==> chunked(items, size).len() == 0,
    decreases items.len(),
{
    if items.len() > size {
        let rest = items.skip(size as int);
        lemma_chunks_fill(rest, size);
        let runs = chunked(items, size).len() as int;
        let later = chunked(rest, size).len() as int;
        assert(runs == 1 + later);
        assert((runs - 1) * size == (later - 1) * size + size) by (nonlinear_arith)
            requires
                runs == 1 + later,
        ;
    } else if items.len() > 0 {
        assert(chunked(items, size).len() == 1);
        assert((chunked(items, size).len() - 1) * size == 0) by (nonlinear_arith)
            requires
                chunked(items, size).len() == 1,
        ;
    }
}

/// Addresses shared out among workers make no more runs than there are
/// workers, whatever their number.
pub proof fn lemma_chunks_fit_workers<T>(items: Seq<T>, workers: nat)
    requires
        workers > 0,
    ensures
        chunked(items, chunk_len(items.len(), workers)).len() <= workers,
{
    let len = items.len();
    let size = chunk_len(len, workers);
    if len > 0 {
        assert(size * workers >= len && size > 0) by (nonlinear_arith)
            requires
                size == (len + workers - 1) / (workers as int),
                workers > 0,
                len > 0,
        ;
        lemma_chunks_fill(items, size);
        let runs = chunked(items, size).len();
        assert(runs <= workers) by (nonlinear_arith)
            requires
                (runs - 1) * size < len,
                size * workers >= len,
                size > 0,
                workers > 0,
        ;
    }
}

/// Shares `addresses` out among `workers` workers: runs of equal length,
/// but for the last, in the order of the addresses.
pub fn partition_addresses(addresses: &Vec<String>, workers: usize) -> (chunks: Vec<Vec<String>>)
    ensures
        chunks.deep_view() == chunked(
            addresses.deep_view(),
            chunk_len(addresses.len() as nat, workers as nat),
        ),
{
    let len: usize = addresses.len();
    let size: usize = if workers == 0 {
        len
    } else {
        let share: u128 = (len as u128 + workers as u128 - 1) / workers as u128;
        assert(share <= len) by (nonlinear_arith)
            requires
                share == (len + workers - 1) / (workers as int),
                workers >= 1,
        ;
        share as usize
    };
    let ghost all = addresses.deep_view();
    let mut chunks: Vec<Vec<String>> = Vec::new();
    let mut start: usize = 0;
    proof {
        assert(all.skip(0) =~= all);
        assert(chunks.deep_view() =~= Seq::<Seq<Seq<char>>>::empty());
    }
    while start < len
        invariant
            start <= len,
            len == addresses.len(),
            all == addresses.deep_view(),
            size == chunk_len(len as nat, workers as nat),
            chunked(all, size as nat) == chunks.deep_view() + chunked(
                all.skip(start as int),
                size as nat,
            ),
        decreases len - start,
    {
        let end: usize = if size == 0 || len - start <= size {
            len
        } else {
            start + size
        };
        let mut chunk: Vec<String> = Vec::new();
        let mut i: usize = start;
        while i < end
            invariant
                start <= i <= end <= len,
                len == addresses.len(),
                all == addresses.deep_view(),
                chunk.deep_view() == all.subrange(start as int, i as int),
            decreases end - i,
        {
            let ghost before = chunk.deep_view();
            chunk.push(addresses[i].clone());
            assert(chunk.deep_view() =~= before.push(all[i as int]));
            i = i + 1;
        }
        let ghost done = chunks.deep_view();
        let ghost rest = all.skip(start as int);
        proof {
            assert(all.subrange(start as int, end as int) =~= if end == len {
                rest
            } else {
                rest.take(size as int)
            });
            assert(rest.skip(end - start) =~= all.skip(end as int));
            if end == len {
                assert(all.skip(len as int) =~= Seq::<Seq<char>>::empty());
            }
        }
        chunks.push(chunk);
        proof {
            assert(chunks.deep_view() =~= done.push(all.subrange(start as int, end as int)));
            assert(chunked(all, size as nat) =~= chunks.deep_view() + chunked(
                all.skip(end as int),
                size as nat,
            ));
        }
        start = end;
    }
    proof {
        assert(all.skip(len as int) =~= Seq::<Seq<char>>::empty());
        assert(chunked(all, size as nat) =~= chunks.deep_view());
    }
    chunks
}

/// A record after enrichment: the remote address of a record other than
/// UDP is replaced by its resolution, where the cache holds one. A UDP
/// record, and a record without a remote address, stay as they are.
pub open spec fn enriched(socket: SocketView, cache: Map<Seq<char>, Seq<char>>) -> SocketView {
    match address_to_resolve(socket) {
        Some(address) => if cache.contains_key(address) {
            SocketView { remote_address: Some(cache[address]), ..socket }
        } else {
            socket
        },
        None => socket,
    }
}

/// A UDP record is never enriched: it stays as it is, remote address
/// included, whatever the cache holds.
pub proof fn lemma_udp_is_not_enriched(socket: SocketView, cache: Map<Seq<char>, Seq<char>>)
    requires
        socket.protocol == Protocol::Udp,
    ensures
        address_to_resolve(socket) is None,
        enriched(socket, cache) == socket,
{
}

/// Enrichment keeps a record well formed: it changes nothing but the text
/// of a remote address.
pub proof fn lemma_enriched_stays_well_formed(socket: SocketView, cache: Map<Seq<char>, Seq<char>>)
    ensures
        enriched(socket, cache).wf() == socket.wf(),
        enriched(socket, cache) == (SocketView {
            remote_address: enriched(socket, cache).remote_address,
            ..socket
        }),
{
}

/// Replaces the remote address of each record by its resolution in the
/// cache.
pub fn rewrite_addresses(sockets: &mut Vec<Socket>, cache: &DnsCache)
    ensures
        views(final(sockets)@) == views(old(sockets)@).map_values(
            |s: SocketView| enriched(s, cache@),
        ),
{
    let ghost before = views(sockets@);
    let mut i: usize = 0;
    while i < sockets.len()
        invariant
            i <= sockets.len(),
            sockets@.len() == before.len(),
            forall|j: int| 0 <= j < i ==> (#[trigger] sockets@[j])@ == enriched(before[j], cache@),
            forall|j: int| i <= j < sockets@.len() ==> (#[trigger] sockets@[j])@ == before[j],
        decreases sockets.len() - i,
    {
        let resolved = if sockets[i].protocol != Protocol::Udp {
            match &sockets[i].remote_address {
                Some(address) => cache.get(address.as_str()),
                None => None,
            }
        } else {
            None
        };
        if let Some(host) = resolved {
            let mut socket = sockets[i].duplicate();
            socket.remote_address = Some(host);
            sockets.set(i, socket);
        }
        i = i + 1;
    }
    assert(views(sockets@) =~= before.map_values(|s: SocketView| enriched(s, cache@)));
}

/// Whether the entry of `cache` for `address` is the resolution of an answer
/// that `resolve` gave for it.
pub open spec fn is_resolved_by<F: Fn(&str) -> Option<String>>(
    cache: Map<Seq<char>, Seq<char>>,
    address: Seq<char>,
    resolve: &F,
) -> bool {
    exists|ip: &str, answer: Option<String>|
        ip@ == address && #[trigger] resolve.ensures((ip,), answer) && cache[address]
            == resolution(address, text_view(answer))
}

/// Enriches a table: resolves each address that is to be resolved, with the
/// cache, and replaces the remote address of each record by its resolution.
/// The cache keeps the entries it had. It gains an entry for each address of
/// the table that it did not hold, and no other: at most one for each
/// different address. An address that the cache held is not looked up again.
pub fn resolve_socket_table_addresses<F: Fn(&str) -> Option<String>>(
    sockets: &mut Vec<Socket>,
    cache: &mut DnsCache,
    resolve: &F,
)
    requires
        old(cache).wf(),
        forall|address: &str| resolve.requires((address,)),
    ensures
        final(cache).wf(),
        old(cache)@.submap_of(final(cache)@),
        final(cache)@.dom() == old(cache)@.dom().union(
            addresses_to_resolve(views(old(sockets)@)).to_set(),
        ),
        final(cache)@.dom().len() <= old(cache)@.dom().len() + addresses_to_resolve(
            views(old(sockets)@),
        ).len(),
        forall|address: Seq<char>|
            final(cache)@.contains_key(address) && !old(cache)@.contains_key(address)
                ==> #[trigger] is_resolved_by(final(cache)@, address, resolve),
        views(final(sockets)@) == views(old(sockets)@).map_values(
            |s: SocketView| enriched(s, final(cache)@),
        ),
{
    let addresses = collect_addresses(sockets);
    let ghost all = addresses.deep_view();
    let ghost held = cache@;
    let mut i: usize = 0;
    proof {
        assert(held.dom().union(all.take(0).to_set()) =~= held.dom());
    }
    while i < addresses.len()
        invariant
            i <= addresses.len(),
            all == addresses.deep_view(),
            held == old(cache)@,
            cache.wf(),
            held.submap_of(cache@),
            cache@.dom() == held.dom().union(all.take(i as int).to_set()),
            forall|address: &str| resolve.requires((address,)),
            forall|address: Seq<char>|
                cache@.contains_key(address) && !held.contains_key(address)
                    ==> #[trigger] is_resolved_by(cache@, address, resolve),
        decreases addresses.len() - i,
    {
        let ghost before = cache@;
        let ip = addresses[i].as_str();
        let host = lookup_address(cache, ip, resolve);
        proof {
            assert(all.take(i + 1) =~= all.take(i as int).push(ip@));
            assert(all.take(i + 1).to_set() =~= all.take(i as int).to_set().insert(ip@)) by {
                let shorter = all.take(i as int);
                let longer = all.take(i + 1);
                assert forall|a: Seq<char>| longer.to_set().contains(a) <==> shorter.to_set().insert(
                    ip@,
                ).contains(a) by {
                    if longer.contains(a) {
                        let j = choose|j: int| 0 <= j < longer.len() && longer[j] == a;
                        if j < shorter.len() {
                            assert(shorter[j] == a);
                        }
                    }
                    if shorter.contains(a) {
                        let j = choose|j: int| 0 <= j < shorter.len() && shorter[j] == a;
                        assert(longer[j] == a);
                    }
                    if a == ip@ {
                        assert(longer[i as int] == a);
                    }
                }
            }
            if before.contains_key(ip@) {
                assert(cache@ == before);
                assert(cache@.dom() =~= held.dom().union(all.take(i + 1).to_set()));
            } else {
                let answer = choose|answer: Option<String>|
                    #[trigger] resolve.ensures((ip,), answer) && (host@, cache@) == looked_up(
                        before,
                        ip@,
                        text_view(answer),
                    );
                assert(cache@ == before.insert(ip@, resolution(ip@, text_view(answer))));
                assert(cache@.dom() =~= held.dom().union(all.take(i + 1).to_set()));
                assert forall|address: Seq<char>|
                    cache@.contains_key(address) && !held.contains_key(
                        address,
                    ) implies #[trigger] is_resolved_by(cache@, address, resolve) by {
                    if address == ip@ {
                        assert(resolve.ensures((ip,), answer));
                    } else {
                        assert(is_resolved_by(before, address, resolve));
                        let (other, given) = choose|other: &str, given: Option<String>|
                            other@ == address && #[trigger] resolve.ensures((other,), given)
                                && before[address] == resolution(address, text_view(given));
                        assert(resolve.ensures((other,), given));
                    }
                }
            }
        }
        i = i + 1;
    }
    proof {
        assert(all.take(i as int) =~= all);
        lemma_first_occurrences(views(old(sockets)@).filter_map(|s: SocketView| address_to_resolve(s)));
        all.unique_seq_to_set();
        vstd::set_lib::lemma_len_union(held.dom(), all.to_set());
    }
    rewrite_addresses(sockets, cache);
}

} // verus!
